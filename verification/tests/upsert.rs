use tagfs::index::empty_index;
use tagfs::ingest::update_point_by_path;

#[test]
fn upsert_creates_then_reuses_by_path() {
    let mut idx = empty_index();
    let content: Vec<u8> = vec![1, 2, 3];
    let id1 = update_point_by_path(
        &mut idx,
        "a.txt".to_string(),
        "/s/a.txt".to_string(),
        &content,
        false,
        &vec![("kind".to_string(), Some(("text".to_string(), None)))],
        &vec![],
    );
    assert_eq!(idx.points.len(), 1);
    assert_eq!(idx.points[0].id, id1);
    assert_eq!(idx.points[0].path, Some("/s/a.txt".to_string()));
    assert_eq!(idx.points[0].hash.len(), 128);
    assert_eq!(idx.tags.len(), 1);
    assert_eq!(idx.joins.len(), 1);
    // a second pass over the same path reuses the row
    let id2 = update_point_by_path(
        &mut idx,
        "a.txt".to_string(),
        "/s/a.txt".to_string(),
        &content,
        false,
        &vec![("kind".to_string(), Some(("text".to_string(), None)))],
        &vec![],
    );
    assert_eq!(id1, id2);
    assert_eq!(idx.points.len(), 1);
    assert_eq!(idx.tags.len(), 1);
    assert_eq!(idx.joins.len(), 1);
}

#[test]
fn upsert_recognises_moved_content_by_hash() {
    let mut idx = empty_index();
    let content: Vec<u8> = vec![9, 9, 9];
    let id1 = update_point_by_path(
        &mut idx,
        "a.txt".to_string(),
        "/old/a.txt".to_string(),
        &content,
        false,
        &vec![],
        &vec![],
    );
    let id2 = update_point_by_path(
        &mut idx,
        "a.txt".to_string(),
        "/new/a.txt".to_string(),
        &content,
        false,
        &vec![],
        &vec![],
    );
    assert_eq!(id1, id2);
    assert_eq!(idx.points.len(), 1);
    assert_eq!(idx.points[0].path, Some("/new/a.txt".to_string()));
}

#[test]
fn upsert_attaches_derived_tags() {
    let mut idx = empty_index();
    let id = update_point_by_path(
        &mut idx,
        "b.txt".to_string(),
        "/s/b.txt".to_string(),
        &vec![5],
        false,
        &vec![],
        &vec![
            ("text".to_string(), None),
            ("language".to_string(), Some(("rust".to_string(), None))),
        ],
    );
    assert_eq!(idx.tags.len(), 2);
    assert_eq!(idx.joins.len(), 2);
    assert!(idx.joins.iter().all(|j| j.point_id == id));
    assert!(idx.tags.iter().any(|t| t.name == "language" && t.value == Some("rust".to_string())));
    // fresh ids stay in the configured range or fall back to small values
    assert!(id >= 0);
}
