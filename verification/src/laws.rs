//! Algebraic laws of the query engine and the path grammar.

use vstd::prelude::*;

use crate::expr::{
    cmp_at_run, disjunct_matches, op_at, or_sep, scan_cmp, spec_parse_disjunct, tag_matches_part,
    word_pred, DisjunctV, TagOp,
};
use crate::index::TagIndex;
use crate::attr::FileKind;
use crate::models::TagV;
use crate::models::PointV;
use crate::paths::{
    flatten_tok, lemma_point_name_id, spec_parse_path, spec_point_name, ParsedPathV,
};
use crate::resolver::{min_dist, spec_flat_children, spec_lookup_point, spec_point_children};
use crate::text::{
    count_while, first_match, is_space_char, is_word_char, lemma_count_while_unique,
    lemma_first_idx_where_unique, space_pred, spec_parse_int, split_on,
};

verus! {

/// Descending into a further tag expression narrows the result: the points
/// matched by `parts` followed by one more expression are among those
/// matched by `parts` alone.
pub proof fn lemma_monotone_narrowing(index: TagIndex, parts: Seq<Seq<char>>, t: Seq<char>)
    requires
        index.wf(),
    ensures
        index.matched_ids(parts.push(t)).subset_of(index.matched_ids(parts)),
{
    let bigger = parts.push(t);
    assert(bigger.len() == parts.len() + 1);
    assert forall|pid: int|
        index.matched_ids(bigger).contains(pid) implies index.matched_ids(parts).contains(
        pid,
    ) by {
        assert(index.part_point_ids(bigger[parts.len() as int]).contains(pid));
        if parts.len() == 0 {
            let (ti, ji) = choose|ti: int, ji: int|
                0 <= ti < index.tags_v().len() && 0 <= ji < index.joins_v().len()
                    && tag_matches_part(bigger[parts.len() as int], #[trigger] index.tags_v()[ti])
                    && (#[trigger] index.joins_v()[ji]).tag_id == index.tags_v()[ti].id
                    && index.joins_v()[ji].point_id == pid;
            assert(index.has_point_id(index.joins_v()[ji].point_id));
            assert(index.all_point_ids().contains(pid));
        } else {
            assert forall|k: int|
                0 <= k < parts.len() implies (#[trigger] index.part_point_ids(
                parts[k],
            )).contains(pid) by {
                assert(bigger[k] == parts[k]);
                assert(index.part_point_ids(bigger[k]).contains(pid));
            }
        }
    }
}

/// Appending `@flatten` to a path leaves the matched set of points as it
/// was: the flattened view covers the same points as the normal view.
pub proof fn lemma_flatten_same_points(index: TagIndex, parts: Seq<Seq<char>>)
    requires
        forall|i: int| 0 <= i < parts.len() ==> #[trigger] parts[i] != flatten_tok(),
    ensures
        spec_parse_path(parts.push(flatten_tok())) matches ParsedPathV::Flattened(
            filter,
            flat,
            combined,
        ) && filter == parts && flat == Seq::<Seq<char>>::empty() && combined == parts
            && index.matched_ids(combined) == index.matched_ids(parts),
{
    let whole = parts.push(flatten_tok());
    let fp = |c: Seq<char>| c == flatten_tok();
    assert(whole[parts.len() as int] == flatten_tok());
    assert(forall|j: int| 0 <= j < parts.len() ==> #[trigger] whole[j] == parts[j]);
    lemma_first_idx_where_unique(whole, fp, parts.len() as int);
    assert(whole.take(parts.len() as int) =~= parts);
    assert(whole.skip(parts.len() as int + 1) =~= Seq::<Seq<char>>::empty());
    assert(whole.take(parts.len() as int) + whole.skip(parts.len() as int + 1) =~= parts);
}

/// Within one expression, `or` is union: a component whose disjuncts are
/// exactly `a` and `b` matches the union of what `a` and `b` match alone.
pub proof fn lemma_disjunction_union(index: TagIndex, a: Seq<char>, b: Seq<char>)
    requires
        first_match(a, or_sep()) is None,
        first_match(b, or_sep()) is None,
        split_on(a + or_sep() + b, or_sep()) == seq![a, b],
    ensures
        index.matched_ids(seq![a + or_sep() + b]) == index.matched_ids(seq![a]).union(
            index.matched_ids(seq![b]),
        ),
{
    let c = a + or_sep() + b;
    assert(split_on(a, or_sep()) == seq![a]);
    assert(split_on(b, or_sep()) == seq![b]);
    assert forall|t: TagV| #[trigger]
        tag_matches_part(c, t) == (tag_matches_part(a, t) || tag_matches_part(b, t)) by {
        if tag_matches_part(c, t) {
            let k = choose|k: int|
                0 <= k < split_on(c, or_sep()).len() && disjunct_matches(
                    spec_parse_disjunct(#[trigger] split_on(c, or_sep())[k]),
                    t,
                );
            if k == 0 {
                assert(split_on(a, or_sep())[0] == a);
                assert(tag_matches_part(a, t));
            } else {
                assert(split_on(c, or_sep())[k] == b);
                assert(split_on(b, or_sep())[0] == b);
                assert(tag_matches_part(b, t));
            }
        }
        if tag_matches_part(a, t) {
            let k = choose|k: int|
                0 <= k < split_on(a, or_sep()).len() && disjunct_matches(
                    spec_parse_disjunct(#[trigger] split_on(a, or_sep())[k]),
                    t,
                );
            assert(k == 0);
            assert(split_on(c, or_sep())[0] == a);
            assert(tag_matches_part(c, t));
        }
        if tag_matches_part(b, t) {
            let k = choose|k: int|
                0 <= k < split_on(b, or_sep()).len() && disjunct_matches(
                    spec_parse_disjunct(#[trigger] split_on(b, or_sep())[k]),
                    t,
                );
            assert(k == 0);
            assert(split_on(c, or_sep())[1] == b);
            assert(tag_matches_part(c, t));
        }
    }
    let sc = seq![c];
    let sa = seq![a];
    let sb = seq![b];
    assert forall|pid: int|
        index.matched_ids(sc).contains(pid) == index.matched_ids(sa).union(
            index.matched_ids(sb),
        ).contains(pid) by {
        assert(sc[0] == c);
        assert(sa[0] == a);
        assert(sb[0] == b);
        if index.matched_ids(sc).contains(pid) {
            assert(index.part_point_ids(c).contains(pid));
            let (ti, ji) = choose|ti: int, ji: int|
                0 <= ti < index.tags_v().len() && 0 <= ji < index.joins_v().len()
                    && tag_matches_part(c, #[trigger] index.tags_v()[ti]) && (
                #[trigger] index.joins_v()[ji]).tag_id == index.tags_v()[ti].id
                    && index.joins_v()[ji].point_id == pid;
            if tag_matches_part(a, index.tags_v()[ti]) {
                assert(index.part_point_ids(a).contains(pid));
                assert(index.matched_ids(sa).contains(pid)) by {
                    assert forall|k: int|
                        0 <= k < sa.len() implies (#[trigger] index.part_point_ids(
                        sa[k],
                    )).contains(pid) by {
                        assert(sa[k] == a);
                    }
                }
            } else {
                assert(tag_matches_part(b, index.tags_v()[ti]));
                assert(index.part_point_ids(b).contains(pid));
                assert(index.matched_ids(sb).contains(pid)) by {
                    assert forall|k: int|
                        0 <= k < sb.len() implies (#[trigger] index.part_point_ids(
                        sb[k],
                    )).contains(pid) by {
                        assert(sb[k] == b);
                    }
                }
            }
        }
        if index.matched_ids(sa).contains(pid) {
            assert(index.part_point_ids(a).contains(pid));
            let (ti, ji) = choose|ti: int, ji: int|
                0 <= ti < index.tags_v().len() && 0 <= ji < index.joins_v().len()
                    && tag_matches_part(a, #[trigger] index.tags_v()[ti]) && (
                #[trigger] index.joins_v()[ji]).tag_id == index.tags_v()[ti].id
                    && index.joins_v()[ji].point_id == pid;
            assert(tag_matches_part(c, index.tags_v()[ti]));
            assert(index.part_point_ids(c).contains(pid));
            assert(index.matched_ids(sc).contains(pid)) by {
                assert forall|k: int|
                    0 <= k < sc.len() implies (#[trigger] index.part_point_ids(
                    sc[k],
                )).contains(pid) by {
                    assert(sc[k] == c);
                }
            }
        }
        if index.matched_ids(sb).contains(pid) {
            assert(index.part_point_ids(b).contains(pid));
            let (ti, ji) = choose|ti: int, ji: int|
                0 <= ti < index.tags_v().len() && 0 <= ji < index.joins_v().len()
                    && tag_matches_part(b, #[trigger] index.tags_v()[ti]) && (
                #[trigger] index.joins_v()[ji]).tag_id == index.tags_v()[ti].id
                    && index.joins_v()[ji].point_id == pid;
            assert(tag_matches_part(c, index.tags_v()[ti]));
            assert(index.part_point_ids(c).contains(pid));
            assert(index.matched_ids(sc).contains(pid)) by {
                assert forall|k: int|
                    0 <= k < sc.len() implies (#[trigger] index.part_point_ids(
                    sc[k],
                )).contains(pid) by {
                    assert(sc[k] == c);
                }
            }
        }
    }
    assert(index.matched_ids(sc) =~= index.matched_ids(sa).union(index.matched_ids(sb)));
}

/// Across expressions, a path is intersection: two components match
/// exactly the points both match alone.
pub proof fn lemma_components_intersect(index: TagIndex, a: Seq<char>, b: Seq<char>)
    ensures
        index.matched_ids(seq![a, b]) == index.matched_ids(seq![a]).intersect(
            index.matched_ids(seq![b]),
        ),
{
    let sab = seq![a, b];
    let sa = seq![a];
    let sb = seq![b];
    assert forall|pid: int|
        index.matched_ids(sab).contains(pid) == index.matched_ids(sa).intersect(
            index.matched_ids(sb),
        ).contains(pid) by {
        assert(sab[0] == a);
        assert(sab[1] == b);
        assert(sa[0] == a);
        assert(sb[0] == b);
        if index.matched_ids(sab).contains(pid) {
            assert(index.part_point_ids(a).contains(pid));
            assert(index.part_point_ids(b).contains(pid));
            assert forall|k: int|
                0 <= k < sa.len() implies (#[trigger] index.part_point_ids(sa[k])).contains(
                pid,
            ) by {
                assert(sa[k] == a);
            }
            assert forall|k: int|
                0 <= k < sb.len() implies (#[trigger] index.part_point_ids(sb[k])).contains(
                pid,
            ) by {
                assert(sb[k] == b);
            }
        }
        if index.matched_ids(sa).contains(pid) && index.matched_ids(sb).contains(pid) {
            assert(index.part_point_ids(a).contains(pid));
            assert(index.part_point_ids(b).contains(pid));
            assert forall|k: int|
                0 <= k < sab.len() implies (#[trigger] index.part_point_ids(sab[k])).contains(
                pid,
            ) by {
                if k == 0 {
                    assert(sab[k] == a);
                } else {
                    assert(sab[k] == b);
                }
            }
        }
    }
    assert(index.matched_ids(sab) =~= index.matched_ids(sa).intersect(index.matched_ids(sb)));
}

/// An equality expression `name=v` with a numeric value matches on
/// `sort_value`; with a non-numeric value it matches on `value`.
pub proof fn lemma_numeric_vs_string_equality(name: Seq<char>, v: Seq<char>, t: TagV)
    requires
        name.len() > 0,
        forall|i: int| 0 <= i < name.len() ==> is_word_char(#[trigger] name[i]),
        v.len() > 0,
        !is_space_char(v[0]),
        first_match(name + seq!['='] + v, or_sep()) is None,
    ensures
        spec_parse_disjunct(name + seq!['='] + v) == DisjunctV::Cmp(name, TagOp::Eq, v),
        tag_matches_part(name + seq!['='] + v, t) == (t.name == name && match spec_parse_int(
            v,
            i64::MIN as int,
            i64::MAX as int,
        ) {
            Some(x) => t.sort_value == Some(x),
            None => t.value == Some(v),
        }),
{
    let c = name + seq!['='] + v;
    let nl = name.len() as int;
    assert(c.len() == nl + 1 + v.len());
    assert(forall|i: int| 0 <= i < nl ==> #[trigger] c[i] == name[i]);
    assert(c[nl] == '=');
    assert(forall|i: int| nl + 1 <= i < c.len() ==> #[trigger] c[i] == v[i - nl - 1]);
    // the word run from position 0 is exactly the name
    assert forall|j: int| 0 <= j < nl implies word_pred()(#[trigger] c.skip(0)[j]) by {
        assert(c.skip(0)[j] == c[j]);
        assert(c[j] == name[j]);
    }
    assert(!word_pred()(c.skip(0)[nl])) by {
        assert(c.skip(0)[nl] == c[nl]);
        assert(!is_word_char('='));
    }
    lemma_count_while_unique(c.skip(0), word_pred(), nl);
    assert(c.skip(0) =~= c);
    assert(count_while(c, word_pred()) == nl);
    // no white space before the operator
    assert(!space_pred()(c.skip(nl)[0])) by {
        assert(c.skip(nl)[0] == c[nl]);
        assert(!is_space_char('='));
    }
    lemma_count_while_unique(c.skip(nl), space_pred(), 0);
    // the operator
    assert(op_at(c, nl) == Some((TagOp::Eq, 1int)));
    // the value
    let rest = c.skip(nl + 1);
    assert(rest =~= v);
    assert(!space_pred()(v[0]));
    lemma_count_while_unique(v, space_pred(), 0);
    assert(cmp_at_run(c, 0) == Some((c.subrange(0, nl), TagOp::Eq, v)));
    assert(c.subrange(0, nl) =~= name);
    assert(is_word_char(c[0]));
    assert(scan_cmp(c, 0) == Some((name, TagOp::Eq, v)));
    assert(spec_parse_disjunct(c) == DisjunctV::Cmp(name, TagOp::Eq, v));
    // a single disjunct
    assert(split_on(c, or_sep()) == seq![c]);
    assert forall|k: int|
        0 <= k < split_on(c, or_sep()).len() implies split_on(c, or_sep())[k] == c by {
        assert(seq![c][k] == c);
    }
    if disjunct_matches(DisjunctV::Cmp(name, TagOp::Eq, v), t) {
        assert(split_on(c, or_sep())[0] == c);
        assert(tag_matches_part(c, t));
    }
    if tag_matches_part(c, t) {
        let k = choose|k: int|
            0 <= k < split_on(c, or_sep()).len() && disjunct_matches(
                spec_parse_disjunct(#[trigger] split_on(c, or_sep())[k]),
                t,
            );
        assert(split_on(c, or_sep())[k] == c);
    }
}


/// Rendering a point as `<name>.<id>` and looking that name up finds the
/// point again, whatever directory it stands in.
pub proof fn lemma_render_round_trip(index: TagIndex, p: PointV, dir: Seq<Seq<char>>)
    requires
        index.wf(),
        index.points_v().contains(p),
        i32::MIN <= p.id <= i32::MAX,
    ensures
        spec_lookup_point(index, dir.push(spec_point_name(p))) == Some(p),
{
    lemma_point_name_id(p);
    let pathv = dir.push(spec_point_name(p));
    assert(pathv.last() == spec_point_name(p));
    index.lemma_point_with_id(p);
}



/// Descending into a further tag expression narrows the listing too: every
/// point entry of the child directory's listing is a point entry of the
/// parent directory's listing.
pub proof fn lemma_listing_narrows(index: TagIndex, parts: Seq<Seq<char>>, t: Seq<char>)
    requires
        index.wf(),
    ensures
        forall|e: (FileKind, Seq<char>)|
            spec_point_children(
                index.matched_points(parts.push(t)),
                index.matched_points(parts.push(t)).len() as int,
            ).contains(e) ==> spec_point_children(
                index.matched_points(parts),
                index.matched_points(parts).len() as int,
            ).contains(e),
{
    let mpc = index.matched_points(parts.push(t));
    let mpp = index.matched_points(parts);
    lemma_monotone_narrowing(index, parts, t);
    assert forall|e: (FileKind, Seq<char>)|
        spec_point_children(mpc, mpc.len() as int).contains(e) implies spec_point_children(
        mpp,
        mpp.len() as int,
    ).contains(e) by {
        crate::resolver::lemma_point_children_elem(mpc, e);
        let w = choose|w: int|
            0 <= w < mpc.len() && (#[trigger] mpc[w]).path is Some && e == (
                FileKind::Symlink,
                crate::paths::spec_point_name(mpc[w]),
            );
        let p = mpc[w];
        index.lemma_matched_points_elem(parts.push(t), p);
        assert(index.matched_ids(parts).contains(p.id));
        let w2 = choose|w2: int| 0 <= w2 < index.points_v().len() && index.points_v()[w2] == p;
        index.lemma_matched_points_intro(parts, w2);
        let w3 = choose|w3: int| 0 <= w3 < mpp.len() && mpp[w3] == p;
        crate::resolver::lemma_point_children_intro(mpp, w3);
    }
}


/// Every matched point shows in a flattened listing: one with no
/// distinguishing tag left stands there itself (when it has a backing
/// path), and any other stands behind its first distinguishing tag, a
/// directory already listed or listed here.
pub proof fn lemma_flat_children_cover(
    index: TagIndex,
    points: Seq<crate::models::PointV>,
    combined: Seq<Seq<char>>,
    added: Seq<Seq<char>>,
)
    ensures
        forall|i: int|
            0 <= i < points.len() ==> (match min_dist(
                index,
                (#[trigger] points[i]).id,
                combined,
            ) {
                Some(d) => spec_flat_children(index, points, combined, added).contains(
                    (FileKind::Directory, d),
                ) || added.contains(d),
                None => points[i].path is Some ==> spec_flat_children(
                    index,
                    points,
                    combined,
                    added,
                ).contains((FileKind::Symlink, crate::paths::spec_point_name(points[i]))),
            }),
    decreases points.len(),
{
    if points.len() == 0 {
        return ;
    }
    let p = points[0];
    let rest = points.drop_first();
    let children = spec_flat_children(index, points, combined, added);
    assert(forall|k: int| 0 <= k < rest.len() ==> #[trigger] rest[k] == points[k + 1]);
    match min_dist(index, p.id, combined) {
        Some(d) => {
            if added.contains(d) {
                lemma_flat_children_cover(index, rest, combined, added);
                assert(children == spec_flat_children(index, rest, combined, added));
                assert forall|i: int|
                    0 <= i < points.len() implies (match min_dist(
                    index,
                    (#[trigger] points[i]).id,
                    combined,
                ) {
                    Some(d2) => children.contains((FileKind::Directory, d2)) || added.contains(
                        d2,
                    ),
                    None => points[i].path is Some ==> children.contains(
                        (FileKind::Symlink, crate::paths::spec_point_name(points[i])),
                    ),
                }) by {
                    if i > 0 {
                        assert(points[i] == rest[i - 1]);
                    }
                }
            } else {
                lemma_flat_children_cover(index, rest, combined, added.push(d));
                let below = spec_flat_children(index, rest, combined, added.push(d));
                assert(children == seq![(FileKind::Directory, d)] + below);
                assert(children[0] == (FileKind::Directory, d));
                assert forall|i: int|
                    0 <= i < points.len() implies (match min_dist(
                    index,
                    (#[trigger] points[i]).id,
                    combined,
                ) {
                    Some(d2) => children.contains((FileKind::Directory, d2)) || added.contains(
                        d2,
                    ),
                    None => points[i].path is Some ==> children.contains(
                        (FileKind::Symlink, crate::paths::spec_point_name(points[i])),
                    ),
                }) by {
                    if i == 0 {
                        assert(children.contains((FileKind::Directory, d)));
                    } else {
                        assert(points[i] == rest[i - 1]);
                        match min_dist(index, points[i].id, combined) {
                            Some(d2) => {
                                if below.contains((FileKind::Directory, d2)) {
                                    let w = choose|w: int|
                                        0 <= w < below.len() && below[w] == (
                                            FileKind::Directory,
                                            d2,
                                        );
                                    assert(children[w + 1] == (FileKind::Directory, d2));
                                } else if added.push(d).contains(d2) {
                                    if d2 == d {
                                        assert(children.contains((FileKind::Directory, d)));
                                    } else {
                                        let w = choose|w: int|
                                            0 <= w < added.push(d).len() && added.push(d)[w]
                                                == d2;
                                        assert(w < added.len());
                                        assert(added[w] == d2);
                                    }
                                }
                            },
                            None => {
                                if points[i].path is Some {
                                    let e = (
                                        FileKind::Symlink,
                                        crate::paths::spec_point_name(points[i]),
                                    );
                                    assert(below.contains(e));
                                    let w = choose|w: int|
                                        0 <= w < below.len() && below[w] == e;
                                    assert(children[w + 1] == e);
                                }
                            },
                        }
                    }
                }
            }
        },
        None => {
            lemma_flat_children_cover(index, rest, combined, added);
            let below = spec_flat_children(index, rest, combined, added);
            if p.path is Some {
                assert(children == seq![
                    (FileKind::Symlink, crate::paths::spec_point_name(p)),
                ] + below);
                assert(children[0] == (FileKind::Symlink, crate::paths::spec_point_name(p)));
            } else {
                assert(children == below);
            }
            assert forall|i: int|
                0 <= i < points.len() implies (match min_dist(
                index,
                (#[trigger] points[i]).id,
                combined,
            ) {
                Some(d2) => children.contains((FileKind::Directory, d2)) || added.contains(d2),
                None => points[i].path is Some ==> children.contains(
                    (FileKind::Symlink, crate::paths::spec_point_name(points[i])),
                ),
            }) by {
                if i == 0 {
                    if p.path is Some {
                        assert(children.contains(
                            (FileKind::Symlink, crate::paths::spec_point_name(p)),
                        ));
                    }
                } else {
                    assert(points[i] == rest[i - 1]);
                    let off: int = if p.path is Some {
                        1
                    } else {
                        0
                    };
                    match min_dist(index, points[i].id, combined) {
                        Some(d2) => {
                            if below.contains((FileKind::Directory, d2)) {
                                let w = choose|w: int|
                                    0 <= w < below.len() && below[w] == (
                                        FileKind::Directory,
                                        d2,
                                    );
                                assert(children[w + off] == (FileKind::Directory, d2));
                            }
                        },
                        None => {
                            if points[i].path is Some {
                                let e = (
                                    FileKind::Symlink,
                                    crate::paths::spec_point_name(points[i]),
                                );
                                assert(below.contains(e));
                                let w = choose|w: int| 0 <= w < below.len() && below[w] == e;
                                assert(children[w + off] == e);
                            }
                        },
                    }
                }
            }
        },
    }
}


} // verus!
