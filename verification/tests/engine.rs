use tagfs::index::{
    empty_index, get_points_by_parts, get_tags_by_parts, get_tags_for_point, insert_join_row,
    insert_point_row, insert_tag_row, tag_point, untag_point, remove_point, IndexError, TagIndex,
};
use tagfs::models::{Join, Point, Tag};

fn pt(id: i32, name: &str, path: Option<&str>, hash: &str, dir: bool) -> Point {
    Point {
        id,
        name: name.to_string(),
        path: path.map(|p| p.to_string()),
        hash: hash.to_string(),
        dir,
    }
}

fn tg(id: i32, name: &str, value: Option<&str>, sort_value: Option<i64>) -> Tag {
    Tag { id, name: name.to_string(), value: value.map(|v| v.to_string()), sort_value }
}

fn two_point_index() -> TagIndex {
    let mut idx = empty_index();
    assert!(insert_point_row(&mut idx, pt(7, "a.txt", Some("/s/a.txt"), "h7", false)));
    assert!(insert_point_row(&mut idx, pt(11, "b.txt", Some("/s/b.txt"), "h11", false)));
    assert!(insert_tag_row(&mut idx, tg(100, "kind", Some("text"), None)));
    assert!(insert_tag_row(&mut idx, tg(101, "year", Some("2020"), Some(2020))));
    assert!(insert_tag_row(&mut idx, tg(102, "year", Some("2021"), Some(2021))));
    assert!(insert_join_row(&mut idx, Join { id: 201, tag_id: 100, point_id: 7 }));
    assert!(insert_join_row(&mut idx, Join { id: 202, tag_id: 101, point_id: 7 }));
    assert!(insert_join_row(&mut idx, Join { id: 203, tag_id: 100, point_id: 11 }));
    assert!(insert_join_row(&mut idx, Join { id: 204, tag_id: 102, point_id: 11 }));
    idx
}

fn ids(points: &[Point]) -> Vec<i32> {
    let mut v: Vec<i32> = points.iter().map(|p| p.id).collect();
    v.sort();
    v
}

#[test]
fn empty_parts_match_every_point() {
    let idx = two_point_index();
    let points = get_points_by_parts(&idx, &vec![]);
    assert_eq!(ids(&points), vec![7, 11]);
}

#[test]
fn value_equality_matches_on_value() {
    let idx = two_point_index();
    let points = get_points_by_parts(&idx, &vec!["kind = text".to_string()]);
    assert_eq!(ids(&points), vec![7, 11]);
}

#[test]
fn numeric_equality_matches_on_sort_value() {
    let idx = two_point_index();
    let points = get_points_by_parts(&idx, &vec!["year = 2020".to_string()]);
    assert_eq!(ids(&points), vec![7]);
}

#[test]
fn numeric_comparison_matches_on_sort_value() {
    let idx = two_point_index();
    let above = get_points_by_parts(&idx, &vec!["year > 2020".to_string()]);
    assert_eq!(ids(&above), vec![11]);
    let below = get_points_by_parts(&idx, &vec!["year < 2020".to_string()]);
    assert_eq!(ids(&below), Vec::<i32>::new());
    let not2020 = get_points_by_parts(&idx, &vec!["year != 2020".to_string()]);
    assert_eq!(ids(&not2020), vec![11]);
}

#[test]
fn bare_name_matches_any_value() {
    let idx = two_point_index();
    let points = get_points_by_parts(&idx, &vec!["year".to_string()]);
    assert_eq!(ids(&points), vec![7, 11]);
}

#[test]
fn disjunction_is_union() {
    let idx = two_point_index();
    let both = get_points_by_parts(&idx, &vec!["year = 2020 or year = 2021".to_string()]);
    assert_eq!(ids(&both), vec![7, 11]);
    let left = get_points_by_parts(&idx, &vec!["year = 2020".to_string()]);
    let right = get_points_by_parts(&idx, &vec!["year = 2021".to_string()]);
    let mut union: Vec<i32> = ids(&left);
    union.extend(ids(&right));
    union.sort();
    union.dedup();
    assert_eq!(ids(&both), union);
}

#[test]
fn components_intersect() {
    let idx = two_point_index();
    let both = get_points_by_parts(
        &idx,
        &vec!["kind = text".to_string(), "year = 2020".to_string()],
    );
    assert_eq!(ids(&both), vec![7]);
}

#[test]
fn narrowing_is_monotone() {
    let idx = two_point_index();
    let wide = ids(&get_points_by_parts(&idx, &vec!["kind = text".to_string()]));
    let narrow = ids(&get_points_by_parts(
        &idx,
        &vec!["kind = text".to_string(), "year = 2021".to_string()],
    ));
    assert!(narrow.iter().all(|id| wide.contains(id)));
}

#[test]
fn tags_for_point_lists_joined_tags() {
    let idx = two_point_index();
    let p = pt(7, "a.txt", Some("/s/a.txt"), "h7", false);
    let tags = get_tags_for_point(&idx, &p);
    let mut names: Vec<String> = tags.iter().map(|t| t.name.clone()).collect();
    names.sort();
    assert_eq!(names, vec!["kind".to_string(), "year".to_string()]);
}

#[test]
fn tags_by_parts_keeps_disjunct_order() {
    let idx = two_point_index();
    let lists = get_tags_by_parts(&idx, &vec!["year = 2021 or year = 2020".to_string()]);
    assert_eq!(lists.len(), 1);
    let ids: Vec<i32> = lists[0].iter().map(|t| t.id).collect();
    assert_eq!(ids, vec![102, 101]);
}

#[test]
fn tag_point_reuses_matching_tag_and_join() {
    let mut idx = two_point_index();
    let r = tag_point(
        &mut idx,
        7,
        "kind".to_string(),
        Some(("text".to_string(), None)),
    );
    assert_eq!(r, Ok(100));
    // the pre-existing pair is not duplicated
    assert_eq!(idx.joins.len(), 4);
    assert_eq!(idx.tags.len(), 3);
}

#[test]
fn tag_point_creates_missing_tag_and_join() {
    let mut idx = two_point_index();
    let r = tag_point(&mut idx, 7, "mood".to_string(), Some(("calm".to_string(), None)));
    let tid = r.expect("point exists");
    // a fresh id comes from the configured random range, or from the small
    // fallback values when the draw collides
    assert!(tid >= 0 && tid < 1_000_000);
    assert_eq!(idx.tags.len(), 4);
    assert_eq!(idx.joins.len(), 5);
    // every join still references an existing point and tag, with no
    // duplicate pairs
    for j in idx.joins.iter() {
        assert!(idx.points.iter().any(|p| p.id == j.point_id));
        assert!(idx.tags.iter().any(|t| t.id == j.tag_id));
    }
    for (a, ja) in idx.joins.iter().enumerate() {
        for (b, jb) in idx.joins.iter().enumerate() {
            if a != b {
                assert!(!(ja.point_id == jb.point_id && ja.tag_id == jb.tag_id));
            }
        }
    }
}

#[test]
fn tag_point_rejects_unknown_point() {
    let mut idx = two_point_index();
    let r = tag_point(&mut idx, 999, "kind".to_string(), None);
    assert_eq!(r, Err(IndexError::UnknownPoint));
    assert_eq!(idx.tags.len(), 3);
    assert_eq!(idx.joins.len(), 4);
}

#[test]
fn untag_removes_single_match() {
    let mut idx = two_point_index();
    let r = untag_point(&mut idx, 7, &"year = 2020".to_string());
    assert_eq!(r, Ok(101));
    assert_eq!(idx.joins.len(), 3);
    assert!(!idx.joins.iter().any(|j| j.point_id == 7 && j.tag_id == 101));
}

#[test]
fn untag_rejects_ambiguous_expression() {
    let mut idx = two_point_index();
    let r = untag_point(&mut idx, 7, &"year".to_string());
    assert_eq!(r, Err(IndexError::TagNotFound));
    assert_eq!(idx.joins.len(), 4);
}

#[test]
fn remove_point_cascades_joins() {
    let mut idx = two_point_index();
    remove_point(&mut idx, 7);
    assert_eq!(idx.points.len(), 1);
    assert_eq!(idx.joins.len(), 2);
    assert!(idx.joins.iter().all(|j| j.point_id == 11));
}

#[test]
fn insert_join_rejects_dangling_rows() {
    let mut idx = two_point_index();
    assert!(!insert_join_row(&mut idx, Join { id: 300, tag_id: 100, point_id: 999 }));
    assert!(!insert_join_row(&mut idx, Join { id: 301, tag_id: 999, point_id: 7 }));
    assert!(!insert_join_row(&mut idx, Join { id: 302, tag_id: 100, point_id: 7 }));
    assert_eq!(idx.joins.len(), 4);
}
