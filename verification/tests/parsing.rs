use tagfs::autotag::{generic_tags, DirMarkers, Id3Info};
use tagfs::ingest::{content_hash, path_parts_to_tags, store_entry_plan, tag_of_part, IngestError, StoreAction};
use tagfs::paths::{format_tag, name_id, parse_path, point_full_name, ParsedPath};
use tagfs::models::{Point, Tag};
use tagfs::text::{i32_to_string, i64_to_string, parse_i32, parse_i64};

fn chars(s: &str) -> Vec<char> {
    s.chars().collect()
}

#[test]
fn integer_rendering_round_trips() {
    assert_eq!(i64_to_string(0), "0".to_string());
    assert_eq!(i64_to_string(2020), "2020".to_string());
    assert_eq!(i64_to_string(-45), "-45".to_string());
    assert_eq!(i64_to_string(i64::MIN), i64::MIN.to_string());
    assert_eq!(i32_to_string(i32::MIN), i32::MIN.to_string());
    assert_eq!(parse_i64(&chars("2020")), Some(2020));
    assert_eq!(parse_i64(&chars("+7")), Some(7));
    assert_eq!(parse_i64(&chars("-9223372036854775808")), Some(i64::MIN));
    assert_eq!(parse_i64(&chars("9223372036854775808")), None);
    assert_eq!(parse_i64(&chars("")), None);
    assert_eq!(parse_i64(&chars("12a")), None);
    assert_eq!(parse_i32(&chars("2147483648")), None);
    assert_eq!(parse_i32(&chars("-2147483648")), Some(i32::MIN));
}

#[test]
fn point_names_encode_their_id() {
    let p = Point {
        id: 7,
        name: "a.txt".to_string(),
        path: Some("/s/a.txt".to_string()),
        hash: "h".to_string(),
        dir: false,
    };
    assert_eq!(point_full_name(&p), "a.txt.7".to_string());
    assert_eq!(name_id(&"a.txt.7".to_string()), Some(7));
    assert_eq!(name_id(&"a.txt".to_string()), None);
    assert_eq!(name_id(&"123".to_string()), Some(123));
    assert_eq!(name_id(&"x.-5".to_string()), Some(-5));
}

#[test]
fn tag_display_uses_name_and_value() {
    let bare = Tag { id: 1, name: "code".to_string(), value: None, sort_value: None };
    assert_eq!(format_tag(&bare), "code".to_string());
    let valued = Tag {
        id: 2,
        name: "year".to_string(),
        value: Some("2020".to_string()),
        sort_value: Some(2020),
    };
    assert_eq!(format_tag(&valued), "year = 2020".to_string());
}

#[test]
fn parse_path_splits_at_first_flatten() {
    let parts = vec![
        "kind = text".to_string(),
        "@flatten".to_string(),
        "year = 2020".to_string(),
    ];
    match parse_path(&parts) {
        ParsedPath::Flattened(filter, flat, combined) => {
            assert_eq!(filter, vec!["kind = text".to_string()]);
            assert_eq!(flat, vec!["year = 2020".to_string()]);
            assert_eq!(
                combined,
                vec!["kind = text".to_string(), "year = 2020".to_string()]
            );
        },
        ParsedPath::Normal(_) => panic!("expected a flattened parse"),
    }
    match parse_path(&vec!["kind = text".to_string()]) {
        ParsedPath::Normal(parts2) => assert_eq!(parts2, vec!["kind = text".to_string()]),
        ParsedPath::Flattened(_, _, _) => panic!("expected a normal parse"),
    }
}

#[test]
fn store_components_read_as_tags() {
    let e = tag_of_part(&"year = 2020 = 2020".to_string()).expect("three pieces");
    assert_eq!(e.0, "year".to_string());
    assert_eq!(e.1, Some(("2020".to_string(), Some(2020))));
    let e2 = tag_of_part(&"kind=text".to_string()).expect("two pieces");
    assert_eq!(e2.0, "kind".to_string());
    assert_eq!(e2.1, Some(("text".to_string(), None)));
    let e3 = tag_of_part(&"audio".to_string()).expect("one piece");
    assert_eq!(e3.0, "audio".to_string());
    assert_eq!(e3.1, None);
    assert_eq!(
        tag_of_part(&"year=2020=notanumber".to_string()),
        Err(IngestError::InvalidPath)
    );
    assert_eq!(tag_of_part(&"a=b=1=d".to_string()), Err(IngestError::InvalidPath));
}

#[test]
fn store_plans_skip_markers_and_meta() {
    assert!(matches!(
        store_entry_plan(&vec!["a".to_string()], true, true),
        Ok(StoreAction::Skip)
    ));
    assert!(matches!(
        store_entry_plan(&vec!["@flat-info".to_string()], true, false),
        Ok(StoreAction::Skip)
    ));
    assert!(matches!(
        store_entry_plan(
            &vec!["kind=text".to_string(), "@dir".to_string(), "inner".to_string()],
            true,
            false
        ),
        Ok(StoreAction::Skip)
    ));
    match store_entry_plan(&vec!["kind=text".to_string(), "song.mp3".to_string()], true, false) {
        Ok(StoreAction::Ingest(name, tags)) => {
            assert_eq!(name, "song.mp3".to_string());
            assert_eq!(tags.len(), 1);
            assert_eq!(tags[0].0, "kind".to_string());
        },
        _ => panic!("expected an ingest plan"),
    }
    match store_entry_plan(&vec!["kind=text".to_string(), "@dir".to_string()], false, false) {
        Ok(StoreAction::Ingest(name, tags)) => {
            assert_eq!(name, "kind=text".to_string());
            assert_eq!(tags.len(), 0);
        },
        _ => panic!("expected an ingest plan for the marked directory"),
    }
    assert!(matches!(
        store_entry_plan(&vec!["plain".to_string(), "sub".to_string()], false, false),
        Ok(StoreAction::Skip)
    ));
}

#[test]
fn store_plan_rejects_unreadable_tag_components() {
    match store_entry_plan(
        &vec!["a=b=notanumber".to_string(), "f.txt".to_string()],
        true,
        false,
    ) {
        Err(e) => assert_eq!(e, IngestError::InvalidPath),
        Ok(_) => panic!("expected an invalid-path error"),
    }
}

#[test]
fn autotags_override_type_for_wave_audio() {
    let markers = DirMarkers { git: false, package_json: false, cargo_toml: false, elm_json: false };
    let tags = generic_tags(&"RIFF data, WAVE audio".to_string(), &None, &markers, &None);
    let ty = tags.iter().find(|e| e.0 == "type").expect("type entry");
    assert_eq!(ty.1, Some(("wav".to_string(), None)));
    assert!(tags.iter().any(|e| e.0 == "audio"));
}

#[test]
fn autotag_values_lose_stray_nul_characters() {
    let markers = DirMarkers { git: false, package_json: false, cargo_toml: false, elm_json: false };
    let info = Id3Info {
        album: Some("Blue\u{0}\u{0}".to_string()),
        artist: None,
        album_artist: None,
        genre: None,
        year: None,
        comment: None,
    };
    let tags = generic_tags(
        &"Audio file with ID3 version 2.3.0".to_string(),
        &None,
        &markers,
        &Some(info),
    );
    let album = tags.iter().find(|e| e.0 == "album").expect("album entry");
    assert_eq!(album.1, Some(("Blue".to_string(), None)));
}

#[test]
fn store_paths_to_tag_lists() {
    let tags = path_parts_to_tags(&vec!["kind=text".to_string(), "year=2020=2020".to_string()])
        .expect("both parse");
    assert_eq!(tags.len(), 2);
    assert_eq!(tags[1].0, "year".to_string());
    assert!(path_parts_to_tags(&vec!["a=b=c".to_string()]).is_err());
}

#[test]
fn content_hash_is_the_blake2b_hex_digest() {
    let h = content_hash(&Vec::new());
    assert_eq!(h.len(), 128);
    assert_eq!(
        h,
        "786a02f742015903c6c6fd852552d272912f4740e15847618a86e217f71f5419\
         d25e1031afee585313896444934eb04b903a685b1448b755d56f701afe9be2ce"
            .to_string()
    );
    let h2 = content_hash(&vec![1, 2, 3]);
    assert_eq!(h2.len(), 128);
    assert_ne!(h, h2);
}

#[test]
fn autotags_carry_magic_and_lowercased_type() {
    let markers = DirMarkers { git: false, package_json: false, cargo_toml: false, elm_json: false };
    let tags = generic_tags(&"PNG image data, 640 x 480".to_string(), &None, &markers, &None);
    let ty = tags.iter().find(|e| e.0 == "type").expect("type entry");
    assert_eq!(ty.1, Some(("png".to_string(), None)));
    let magic = tags.iter().find(|e| e.0 == "magic").expect("magic entry");
    assert_eq!(magic.1, Some(("PNG image data, 640 x 480".to_string(), None)));
    let res = tags.iter().find(|e| e.0 == "resolution").expect("resolution entry");
    assert_eq!(res.1, Some(("640x480".to_string(), None)));
    let w = tags.iter().find(|e| e.0 == "width").expect("width entry");
    assert_eq!(w.1, Some(("640".to_string(), Some(640))));
}

#[test]
fn autotags_read_audio_metadata() {
    let markers = DirMarkers { git: false, package_json: false, cargo_toml: false, elm_json: false };
    let info = Id3Info {
        album: Some("Blue".to_string()),
        artist: None,
        album_artist: None,
        genre: None,
        year: Some(1971),
        comment: None,
    };
    let tags = generic_tags(
        &"Audio file with ID3 version 2.3.0".to_string(),
        &Some("mp3".to_string()),
        &markers,
        &Some(info),
    );
    let ty = tags.iter().find(|e| e.0 == "type").expect("type entry");
    assert_eq!(ty.1, Some(("mp3".to_string(), None)));
    let year = tags.iter().find(|e| e.0 == "year").expect("year entry");
    assert_eq!(year.1, Some(("1971".to_string(), Some(1971))));
    let album = tags.iter().find(|e| e.0 == "album").expect("album entry");
    assert_eq!(album.1, Some(("Blue".to_string(), None)));
}

#[test]
fn autotags_mark_source_trees() {
    let markers = DirMarkers { git: true, package_json: false, cargo_toml: true, elm_json: false };
    let tags = generic_tags(&"directory".to_string(), &None, &markers, &None);
    assert!(tags.iter().any(|e| e.0 == "git"));
    assert!(tags.iter().any(|e| e.0 == "cargo"));
    let lang = tags.iter().find(|e| e.0 == "language").expect("language entry");
    assert_eq!(lang.1, Some(("rust".to_string(), None)));
    // names are unique
    for (a, ea) in tags.iter().enumerate() {
        for (b, eb) in tags.iter().enumerate() {
            if a != b {
                assert_ne!(ea.0, eb.0);
            }
        }
    }
}
