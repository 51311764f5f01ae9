use tagfs::attr::FileKind;
use tagfs::index::{empty_index, insert_join_row, insert_point_row, insert_tag_row, TagIndex};
use tagfs::models::{Join, Point, Tag};
use tagfs::resolver::{Ffs, FsError};

fn pt(id: i32, name: &str, path: Option<&str>, hash: &str, dir: bool) -> Point {
    Point {
        id,
        name: name.to_string(),
        path: path.map(|p| p.to_string()),
        hash: hash.to_string(),
        dir,
    }
}

fn tg(id: i32, name: &str, value: Option<&str>, sort_value: Option<i64>) -> Tag {
    Tag { id, name: name.to_string(), value: value.map(|v| v.to_string()), sort_value }
}

fn two_point_index() -> TagIndex {
    let mut idx = empty_index();
    assert!(insert_point_row(&mut idx, pt(7, "a.txt", Some("/s/a.txt"), "h7", false)));
    assert!(insert_point_row(&mut idx, pt(11, "b.txt", Some("/s/b.txt"), "h11", false)));
    assert!(insert_tag_row(&mut idx, tg(100, "kind", Some("text"), None)));
    assert!(insert_tag_row(&mut idx, tg(101, "year", Some("2020"), Some(2020))));
    assert!(insert_tag_row(&mut idx, tg(102, "year", Some("2021"), Some(2021))));
    assert!(insert_join_row(&mut idx, Join { id: 201, tag_id: 100, point_id: 7 }));
    assert!(insert_join_row(&mut idx, Join { id: 202, tag_id: 101, point_id: 7 }));
    assert!(insert_join_row(&mut idx, Join { id: 203, tag_id: 100, point_id: 11 }));
    assert!(insert_join_row(&mut idx, Join { id: 204, tag_id: 102, point_id: 11 }));
    idx
}

fn mount() -> Ffs {
    Ffs::new(two_point_index())
}

fn entry_names(ffs: &mut Ffs, ino: u64) -> Vec<String> {
    let entries = ffs.readdir(ino, 0).expect("listing");
    let mut names: Vec<String> = entries.iter().map(|e| e.name.clone()).collect();
    names.sort();
    names
}

fn sorted(mut v: Vec<&str>) -> Vec<String> {
    v.sort();
    v.iter().map(|s| s.to_string()).collect()
}

#[test]
fn root_attr_is_directory_one() {
    let mut ffs = mount();
    let a = ffs.getattr(1).expect("root");
    assert_eq!(a.ino, 1);
    assert_eq!(a.kind, FileKind::Directory);
    assert_eq!(a.perm, 0o755);
    assert_eq!(a.uid, 1000);
    assert_eq!(a.blksize, 512);
}

#[test]
fn root_listing_shows_points_and_tags() {
    let mut ffs = mount();
    assert_eq!(
        entry_names(&mut ffs, 1),
        sorted(vec![
            ".",
            "..",
            "@flatten",
            "a.txt.7",
            "b.txt.11",
            "kind = text",
            "year = 2020",
            "year = 2021",
        ])
    );
}

#[test]
fn tag_dir_listing_matches_scenario() {
    let mut ffs = mount();
    let a = ffs.lookup(1, &"kind = text".to_string()).expect("tag dir");
    assert_eq!(a.kind, FileKind::Directory);
    assert_eq!(
        entry_names(&mut ffs, a.ino),
        sorted(vec![
            ".",
            "..",
            "@flatten",
            "a.txt.7",
            "b.txt.11",
            "year = 2020",
            "year = 2021",
        ])
    );
}

#[test]
fn readlink_follows_point_symlink() {
    let mut ffs = mount();
    let dir = ffs.lookup(1, &"kind = text".to_string()).expect("tag dir");
    let entries = ffs.readdir(dir.ino, 0).expect("listing");
    let link = entries.iter().find(|e| e.name == "a.txt.7").expect("point entry");
    assert_eq!(link.kind, FileKind::Symlink);
    assert_eq!(ffs.readlink(link.ino).expect("target"), "/s/a.txt".to_string());
}

#[test]
fn flatten_listing_pivots_on_distinguishing_tag() {
    let mut ffs = mount();
    let dir = ffs.lookup(1, &"kind = text".to_string()).expect("tag dir");
    let flat = ffs.lookup(dir.ino, &"@flatten".to_string()).expect("flatten dir");
    assert_eq!(flat.kind, FileKind::Directory);
    assert_eq!(
        entry_names(&mut ffs, flat.ino),
        sorted(vec![".", "..", "@flat-info", "year = 2020", "year = 2021"])
    );
}

#[test]
fn flat_info_reads_filter_path() {
    let mut ffs = mount();
    let dir = ffs.lookup(1, &"kind = text".to_string()).expect("tag dir");
    let flat = ffs.lookup(dir.ino, &"@flatten".to_string()).expect("flatten dir");
    let info = ffs.lookup(flat.ino, &"@flat-info".to_string()).expect("info file");
    assert_eq!(info.kind, FileKind::RegularFile);
    assert_eq!(info.size, "kind = text".len() as u64);
    let (fh, flags) = ffs.open(info.ino, 0).expect("open");
    assert_eq!(flags, 0);
    assert_eq!(ffs.read_node(info.ino, fh).expect("content"), "kind = text".to_string());
}

#[test]
fn flatten_pivot_dir_lists_resolved_point() {
    let mut ffs = mount();
    let dir = ffs.lookup(1, &"kind = text".to_string()).expect("tag dir");
    let flat = ffs.lookup(dir.ino, &"@flatten".to_string()).expect("flatten dir");
    let pivot = ffs.lookup(flat.ino, &"year = 2020".to_string()).expect("pivot dir");
    assert_eq!(pivot.kind, FileKind::Directory);
    assert_eq!(entry_names(&mut ffs, pivot.ino), sorted(vec![".", "..", "a.txt.7"]));
}

#[test]
fn comparison_dir_narrows_points() {
    let mut ffs = mount();
    let above: Vec<String> = vec!["year > 2020".to_string()];
    let ino = ffs.state.new_ino(&above);
    // every tag of the matched point is listed unless its display is
    // already a component of the path
    assert_eq!(
        entry_names(&mut ffs, ino),
        sorted(vec![".", "..", "@flatten", "b.txt.11", "kind = text", "year = 2021"])
    );
    let below: Vec<String> = vec!["year < 2020".to_string()];
    let ino2 = ffs.state.new_ino(&below);
    assert_eq!(entry_names(&mut ffs, ino2), sorted(vec![".", "..", "@flatten"]));
}

#[test]
fn flatten_covers_same_points_as_normal_view() {
    // the flattened view reaches a.txt.7 through "year = 2020" and
    // b.txt.11 through "year = 2021": together the same set the normal
    // view lists directly
    let mut ffs = mount();
    let dir = ffs.lookup(1, &"kind = text".to_string()).expect("tag dir");
    let normal = entry_names(&mut ffs, dir.ino);
    let normal_points: Vec<&String> =
        normal.iter().filter(|n| n.ends_with(".7") || n.ends_with(".11")).collect();
    assert_eq!(normal_points.len(), 2);
    let flat = ffs.lookup(dir.ino, &"@flatten".to_string()).expect("flatten dir");
    let p1 = ffs.lookup(flat.ino, &"year = 2020".to_string()).expect("pivot");
    let p2 = ffs.lookup(flat.ino, &"year = 2021".to_string()).expect("pivot");
    let mut covered = Vec::new();
    for ino in [p1.ino, p2.ino] {
        for e in ffs.readdir(ino, 0).expect("listing") {
            if e.name.ends_with(".7") || e.name.ends_with(".11") {
                covered.push(e.name);
            }
        }
    }
    covered.sort();
    assert_eq!(covered, vec!["a.txt.7".to_string(), "b.txt.11".to_string()]);
}

#[test]
fn lookup_point_by_encoded_name() {
    let mut ffs = mount();
    let a = ffs.lookup(1, &"a.txt.7".to_string()).expect("point");
    assert_eq!(a.kind, FileKind::Symlink);
    let missing = ffs.lookup(1, &"a.txt.8".to_string());
    assert_eq!(missing, Err(FsError::NotFound));
    // the encoded trailing id is authoritative, whatever the name holds
    let p = ffs
        .lookup_point_by_name(&vec!["anything.7".to_string()])
        .expect("decoded by id");
    assert_eq!(p.id, 7);
    assert_eq!(p.name, "a.txt".to_string());
    assert!(ffs.lookup_point_by_name(&vec!["a.txt".to_string()]).is_none());
}

#[test]
fn unknown_path_is_not_found() {
    let mut ffs = mount();
    assert_eq!(ffs.lookup(1, &"colour = blue".to_string()), Err(FsError::NotFound));
    assert_eq!(ffs.getattr(555), Err(FsError::NotFound));
}

#[test]
fn flatten_readdir_on_file_point_is_not_a_directory() {
    let mut ffs = mount();
    let flat = ffs.lookup(1, &"@flatten".to_string()).expect("flatten dir");
    let link = ffs.lookup(flat.ino, &"a.txt.7".to_string()).expect("point in flatten");
    assert_eq!(link.kind, FileKind::Symlink);
    match ffs.readdir(link.ino, 0) {
        Err(e) => assert_eq!(e, FsError::NotDirectory),
        Ok(_) => panic!("expected a not-a-directory error"),
    }
}

#[test]
fn flatten_readdir_on_directory_point_shows_dir_marker() {
    let mut idx = empty_index();
    assert!(insert_point_row(&mut idx, pt(5, "proj", Some("/s/proj"), "h5", true)));
    let mut ffs = Ffs::new(idx);
    let flat = ffs.lookup(1, &"@flatten".to_string()).expect("flatten dir");
    let node = ffs.lookup(flat.ino, &"proj.5".to_string()).expect("dir point");
    assert_eq!(node.kind, FileKind::Directory);
    assert_eq!(entry_names(&mut ffs, node.ino), sorted(vec![".", "..", "@dir"]));
    let entries = ffs.readdir(node.ino, 0).expect("listing");
    let marker = entries.iter().find(|e| e.name == "@dir").expect("marker");
    let m = ffs.lookup(node.ino, &"@dir".to_string()).expect("marker node");
    assert_eq!(m.kind, FileKind::Symlink);
    assert_eq!(ffs.readlink(m.ino).expect("target"), "/s/proj".to_string());
    assert_eq!(marker.kind, FileKind::RegularFile);
}

#[test]
fn readdir_cache_serves_staggered_offsets() {
    let mut ffs = mount();
    let full = ffs.readdir(1, 0).expect("listing");
    let n = full.len();
    // a later offset is served from the cache
    let tail = ffs.readdir(1, 2).expect("suffix");
    assert_eq!(tail.len(), n - 2);
    for (i, e) in tail.iter().enumerate() {
        assert_eq!(e.name, full[i + 2].name);
        assert_eq!(e.ino, full[i + 2].ino);
    }
    // reading to the end drops the cache
    let end = ffs.readdir(1, n).expect("empty suffix");
    assert_eq!(end.len(), 0);
    // and a fresh zero-offset read recomputes the same listing
    let again = ffs.readdir(1, 0).expect("fresh listing");
    let names_a: Vec<String> = full.iter().map(|e| e.name.clone()).collect();
    let names_b: Vec<String> = again.iter().map(|e| e.name.clone()).collect();
    assert_eq!(names_a, names_b);
}

#[test]
fn inodes_are_stable_across_lookups() {
    let mut ffs = mount();
    let a1 = ffs.lookup(1, &"kind = text".to_string()).expect("tag dir");
    let a2 = ffs.lookup(1, &"kind = text".to_string()).expect("tag dir");
    assert_eq!(a1.ino, a2.ino);
    assert!(a1.ino >= 2);
}

#[test]
fn mkdir_creates_listable_extra_directory() {
    let mut ffs = mount();
    let a = ffs.mkdir(1, &"scratch".to_string());
    assert_eq!(a.kind, FileKind::Directory);
    let names = entry_names(&mut ffs, 1);
    assert!(names.contains(&"scratch".to_string()));
    let again = ffs.lookup(1, &"scratch".to_string()).expect("extra dir");
    assert_eq!(again.ino, a.ino);
}

#[test]
fn points_without_backing_path_stay_hidden() {
    let mut idx = empty_index();
    assert!(insert_point_row(&mut idx, pt(3, "ghostly", None, "h3", false)));
    let mut ffs = Ffs::new(idx);
    let names = entry_names(&mut ffs, 1);
    assert!(!names.iter().any(|n| n.contains("ghostly")));
}
