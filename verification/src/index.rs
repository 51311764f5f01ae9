//! The tag index and its query engine.
//!
//! The index holds three tables — points, tags and joins — and resolves a
//! list of tag expressions to the set of points matching their intersection,
//! each expression's disjuncts being unioned first.

use vstd::prelude::*;

use crate::expr::{disjunct_matches, spec_parse_disjunct, tag_matches_part};
use crate::models::{Join, JoinV, Point, PointV, Tag, TagV};
use crate::text::{
    first_idx_where, lemma_first_idx_where, lemma_first_idx_where_unique, split_chars, split_on,
};
use crate::expr::{or_sep, or_sep_vec};

verus! {

/// The relational store of points, tags and joins.
pub struct TagIndex {
    pub points: Vec<Point>,
    pub tags: Vec<Tag>,
    pub joins: Vec<Join>,
}

impl TagIndex {
    /// The point rows as mathematical values.
    pub open spec fn points_v(self) -> Seq<PointV> {
        self.points@.map_values(|p: Point| p@)
    }

    /// The tag rows as mathematical values.
    pub open spec fn tags_v(self) -> Seq<TagV> {
        self.tags@.map_values(|t: Tag| t@)
    }

    /// The join rows as mathematical values.
    pub open spec fn joins_v(self) -> Seq<JoinV> {
        self.joins@.map_values(|j: Join| j@)
    }

    /// Some point row carries this id.
    pub open spec fn has_point_id(self, id: int) -> bool {
        exists|i: int| 0 <= i < self.points_v().len() && self.points_v()[i].id == id
    }

    /// Some tag row carries this id.
    pub open spec fn has_tag_id(self, id: int) -> bool {
        exists|i: int| 0 <= i < self.tags_v().len() && self.tags_v()[i].id == id
    }

    /// Some join row carries this id.
    pub open spec fn has_join_id(self, id: int) -> bool {
        exists|i: int| 0 <= i < self.joins_v().len() && self.joins_v()[i].id == id
    }

    /// Well-formedness: ids are unique per table, every join references an
    /// existing point and tag, and no two joins share `(point_id, tag_id)`.
    pub open spec fn wf(self) -> bool {
        &&& forall|i: int, j: int|
            0 <= i < j < self.points_v().len() ==> self.points_v()[i].id != self.points_v()[j].id
        &&& forall|i: int, j: int|
            0 <= i < j < self.tags_v().len() ==> self.tags_v()[i].id != self.tags_v()[j].id
        &&& forall|i: int, j: int|
            0 <= i < j < self.joins_v().len() ==> self.joins_v()[i].id != self.joins_v()[j].id
        &&& forall|i: int|
            0 <= i < self.joins_v().len() ==> self.has_point_id(#[trigger] self.joins_v()[i].point_id)
                && self.has_tag_id(self.joins_v()[i].tag_id)
        &&& forall|i: int, j: int|
            0 <= i < j < self.joins_v().len() ==> !(self.joins_v()[i].point_id
                == self.joins_v()[j].point_id && self.joins_v()[i].tag_id
                == self.joins_v()[j].tag_id)
    }

    /// The ids of every point.
    pub open spec fn all_point_ids(self) -> Set<int> {
        Set::new(|id: int| self.has_point_id(id))
    }

    /// The ids of the points joined to some tag satisfying `part`.
    pub open spec fn part_point_ids(self, part: Seq<char>) -> Set<int> {
        Set::new(
            |pid: int|
                exists|ti: int, ji: int|
                    0 <= ti < self.tags_v().len() && 0 <= ji < self.joins_v().len()
                        && tag_matches_part(part, #[trigger] self.tags_v()[ti]) && (
                    #[trigger] self.joins_v()[ji]).tag_id == self.tags_v()[ti].id
                        && self.joins_v()[ji].point_id == pid,
        )
    }

    /// The ids matched by a list of tag expressions: every point for the
    /// empty list, the intersection of each expression's matches otherwise.
    pub open spec fn matched_ids(self, parts: Seq<Seq<char>>) -> Set<int> {
        if parts.len() == 0 {
            self.all_point_ids()
        } else {
            Set::new(
                |pid: int|
                    forall|k: int|
                        0 <= k < parts.len() ==> (#[trigger] self.part_point_ids(
                            parts[k],
                        )).contains(pid),
            )
        }
    }

    /// The matched points themselves, in table order.
    pub open spec fn matched_points(self, parts: Seq<Seq<char>>) -> Seq<PointV> {
        self.points_v().filter(|p: PointV| self.matched_ids(parts).contains(p.id))
    }

    /// A matched point is a point row whose id the query matched.
    pub proof fn lemma_matched_points_elem(self, parts: Seq<Seq<char>>, p: PointV)
        requires
            self.matched_points(parts).contains(p),
        ensures
            self.points_v().contains(p),
            self.matched_ids(parts).contains(p.id),
    {
        broadcast use vstd::seq_lib::group_filter_ensures;

        let pred = |p: PointV| self.matched_ids(parts).contains(p.id);
        assert(self.points_v().filter(pred).contains(p));
        self.points_v().lemma_filter_contains_rev(pred, p);
        let i = choose|i: int|
            0 <= i < self.points_v().filter(pred).len() && self.points_v().filter(pred)[i] == p;
        assert(pred(self.points_v().filter(pred)[i]));
    }

    /// A point row whose id the query matched is among the matched points.
    pub proof fn lemma_matched_points_intro(self, parts: Seq<Seq<char>>, w: int)
        requires
            0 <= w < self.points_v().len(),
            self.matched_ids(parts).contains(self.points_v()[w].id),
        ensures
            self.matched_points(parts).contains(self.points_v()[w]),
    {
        broadcast use vstd::seq_lib::group_filter_ensures;

        let pred = |p: PointV| self.matched_ids(parts).contains(p.id);
        assert(self.points_v().filter(pred).contains(self.points_v()[w]));
    }

    /// The tags joined to any point of `pids`, in table order.
    pub open spec fn tags_of_pids(self, pids: Set<int>) -> Seq<TagV> {
        self.tags_v().filter(
            |t: TagV|
                exists|ji: int|
                    0 <= ji < self.joins_v().len() && (#[trigger] self.joins_v()[ji]).tag_id
                        == t.id && pids.contains(self.joins_v()[ji].point_id),
        )
    }

    /// The tags matching one expression, disjunct by disjunct, in table
    /// order within each disjunct; a tag matching several disjuncts appears
    /// once for each.
    pub open spec fn part_tags(self, part: Seq<char>) -> Seq<TagV> {
        split_on(part, or_sep()).flat_map(
            |d: Seq<char>|
                self.tags_v().filter(|t: TagV| disjunct_matches(spec_parse_disjunct(d), t)),
        )
    }

    /// Some join row links this point and tag.
    pub open spec fn join_pair_exists(self, pid: int, tid: int) -> bool {
        exists|i: int|
            0 <= i < self.joins_v().len() && (#[trigger] self.joins_v()[i]).point_id == pid
                && self.joins_v()[i].tag_id == tid
    }

    /// The point row carrying `id`, when one exists.
    pub open spec fn point_with_id(self, id: int) -> Option<PointV> {
        if self.has_point_id(id) {
            Some(
                self.points_v()[choose|i: int|
                    0 <= i < self.points_v().len() && (#[trigger] self.points_v()[i]).id == id],
            )
        } else {
            None
        }
    }

    /// Under well-formedness, any point row with a given id is the one
    /// [`TagIndex::point_with_id`] yields.
    pub proof fn lemma_point_with_id(self, p: PointV)
        requires
            self.wf(),
            self.points_v().contains(p),
        ensures
            self.point_with_id(p.id) == Some(p),
    {
        let i = choose|i: int| 0 <= i < self.points_v().len() && self.points_v()[i] == p;
        assert(self.points_v()[i].id == p.id);
        assert(self.has_point_id(p.id));
        let w = choose|w: int|
            0 <= w < self.points_v().len() && (#[trigger] self.points_v()[w]).id == p.id;
        if w != i {
            assert(self.points_v()[w].id == self.points_v()[i].id);
            assert(false);
        }
    }

    /// The view sequences index into the rows one for one.
    pub proof fn lemma_views(self)
        ensures
            self.points_v().len() == self.points@.len(),
            self.tags_v().len() == self.tags@.len(),
            self.joins_v().len() == self.joins@.len(),
            forall|i: int|
                0 <= i < self.points@.len() ==> #[trigger] self.points_v()[i] == self.points@[i]@,
            forall|i: int|
                0 <= i < self.tags@.len() ==> #[trigger] self.tags_v()[i] == self.tags@[i]@,
            forall|i: int|
                0 <= i < self.joins@.len() ==> #[trigger] self.joins_v()[i] == self.joins@[i]@,
    {
    }
}

/// The ids of a sequence of points.
pub open spec fn ids_of_points(ps: Seq<PointV>) -> Set<int> {
    Set::new(|id: int| exists|i: int| 0 <= i < ps.len() && (#[trigger] ps[i]).id == id)
}

/// Membership test on a vector of ids.
pub fn contains_i32(v: &Vec<i32>, x: i32) -> (r: bool)
    ensures
        r == v@.contains(x),
{
    let n = v.len();
    for i in 0..n
        invariant
            n == v@.len(),
            forall|j: int| 0 <= j < i ==> v@[j] != x,
    {
        if v[i] == x {
            return true;
        }
    }
    false
}

/// The ids of the points joined to some tag satisfying `part`, as a vector.
#[verifier::loop_isolation(false)]
fn part_point_id_vec(index: &TagIndex, part: &Vec<char>) -> (r: Vec<i32>)
    ensures
        forall|id: i32| r@.contains(id) <==> index.part_point_ids(part@).contains(id as int),
{
    proof {
        index.lemma_views();
    }
    let mut ids: Vec<i32> = Vec::new();
    let nt = index.tags.len();
    for ti in 0..nt
        invariant
            forall|id: i32|
                ids@.contains(id) ==> index.part_point_ids(part@).contains(id as int),
            forall|t2: int, j2: int|
                #![trigger index.tags@[t2], index.joins@[j2]]
                0 <= t2 < ti && 0 <= j2 < index.joins@.len() && tag_matches_part(
                    part@,
                    index.tags@[t2]@,
                ) && index.joins@[j2].tag_id == index.tags@[t2].id ==> ids@.contains(
                    index.joins@[j2].point_id,
                ),
    {
        let matches_here = crate::expr::tag_matches_part_exec(part, &index.tags[ti]);
        if matches_here {
            let nj = index.joins.len();
            for ji in 0..nj
                invariant
                    forall|id: i32|
                        ids@.contains(id) ==> index.part_point_ids(part@).contains(id as int),
                    forall|t2: int, j2: int|
                        #![trigger index.tags@[t2], index.joins@[j2]]
                        0 <= t2 < ti && 0 <= j2 < index.joins@.len() && tag_matches_part(
                            part@,
                            index.tags@[t2]@,
                        ) && index.joins@[j2].tag_id == index.tags@[t2].id ==> ids@.contains(
                            index.joins@[j2].point_id,
                        ),
                    forall|j2: int|
                        #![trigger index.joins@[j2]]
                        0 <= j2 < ji && index.joins@[j2].tag_id == index.tags@[ti as int].id
                            ==> ids@.contains(index.joins@[j2].point_id),
            {
                if index.joins[ji].tag_id == index.tags[ti].id {
                    let pid = index.joins[ji].point_id;
                    proof {
                        assert(index.joins_v()[ji as int].tag_id == index.tags_v()[ti as int].id);
                        assert(index.joins_v()[ji as int].point_id == pid as int);
                        assert(tag_matches_part(part@, index.tags_v()[ti as int]));
                        assert(index.part_point_ids(part@).contains(pid as int));
                    }
                    let present = contains_i32(&ids, pid);
                    let ghost old_ids = ids@;
                    if !present {
                        ids.push(pid);
                    }
                    proof {
                        assert(ids@.contains(pid)) by {
                            if present {
                            } else {
                                assert(ids@[ids@.len() - 1] == pid);
                            }
                        }
                        assert forall|id: i32| #[trigger]
                            old_ids.contains(id) implies ids@.contains(id) by {
                            let k = choose|k: int| 0 <= k < old_ids.len() && old_ids[k] == id;
                            assert(ids@[k] == id);
                        }
                        assert forall|id: i32| #[trigger]
                            ids@.contains(id) implies old_ids.contains(id) || id == pid by {
                            let k = choose|k: int| 0 <= k < ids@.len() && ids@[k] == id;
                            if k < old_ids.len() {
                                assert(old_ids[k] == id);
                            }
                        }
                    }
                }
            }
        }
    }
    proof {
        assert forall|id: i32|
            index.part_point_ids(part@).contains(id as int) implies ids@.contains(id) by {
            let (t2, j2) = choose|t2: int, j2: int|
                0 <= t2 < index.tags_v().len() && 0 <= j2 < index.joins_v().len()
                    && tag_matches_part(part@, #[trigger] index.tags_v()[t2]) && (
                #[trigger] index.joins_v()[j2]).tag_id == index.tags_v()[t2].id
                    && index.joins_v()[j2].point_id == id as int;
            assert(tag_matches_part(part@, index.tags@[t2]@));
            assert(index.joins@[j2].tag_id == index.tags@[t2].id);
            assert(ids@.contains(index.joins@[j2].point_id));
            assert(index.joins@[j2].point_id == id);
        }
    }
    ids
}

/// The points matched by `path_parts`, in table order: the union over each
/// expression's disjuncts, intersected across the expressions; every point
/// when the list is empty.
#[verifier::loop_isolation(false)]
pub fn get_points_by_parts(index: &TagIndex, path_parts: &Vec<String>) -> (r: Vec<Point>)
    ensures
        r@.map_values(|p: Point| p@) == index.matched_points(path_parts.deep_view()),
{
    proof {
        index.lemma_views();
    }
    let ghost partsv = path_parts.deep_view();
    let ghost pred = |p: PointV| index.matched_ids(partsv).contains(p.id);
    let m = path_parts.len();
    proof {
        assert(partsv.len() == m);
    }
    let mut pp: Vec<Vec<i32>> = Vec::new();
    for k in 0..m
        invariant
            pp@.len() == k,
            forall|k2: int, id: i32|
                #![trigger pp@[k2]@.contains(id)]
                0 <= k2 < k ==> (pp@[k2]@.contains(id) <==> index.part_point_ids(
                    partsv[k2],
                ).contains(id as int)),
    {
        let part = crate::text::chars_of(path_parts[k].as_str());
        proof {
            assert(path_parts@[k as int]@ == partsv[k as int]);
        }
        let ids = part_point_id_vec(index, &part);
        pp.push(ids);
    }
    let np = index.points.len();
    let mut out: Vec<Point> = Vec::new();
    proof {
        reveal(Seq::filter);
        assert(index.points_v().take(0) =~= Seq::<PointV>::empty());
        assert(out@.map_values(|p: Point| p@) =~= Seq::<PointV>::empty());
        assert(Seq::<PointV>::empty().filter(pred) == Seq::<PointV>::empty());
    }
    for i in 0..np
        invariant
            out@.map_values(|p: Point| p@) == index.points_v().take(i as int).filter(pred),
    {
        let p = &index.points[i];
        let ghost pv = index.points_v()[i as int];
        proof {
            assert(pv == index.points@[i as int]@);
            assert(pv.id == p.id as int);
        }
        let mut keep = true;
        let mut k: usize = 0;
        while k < m
            invariant
                k <= m,
                keep <==> forall|k2: int|
                    0 <= k2 < k ==> (#[trigger] index.part_point_ids(partsv[k2])).contains(pv.id),
            decreases m - k,
        {
            let hit = contains_i32(&pp[k], p.id);
            proof {
                assert(hit == pp@[k as int]@.contains(p.id));
            }
            if !hit {
                assert(!index.part_point_ids(partsv[k as int]).contains(pv.id));
                keep = false;
                k = m;
            } else {
                assert(index.part_point_ids(partsv[k as int]).contains(pv.id));
                k = k + 1;
            }
        }
        proof {
            if m == 0 {
                assert(index.matched_ids(partsv).contains(pv.id)) by {
                    assert(0 <= i < index.points_v().len());
                    assert(index.points_v()[i as int].id == pv.id);
                    assert(index.has_point_id(pv.id));
                }
                assert(keep == pred(pv));
            } else {
                assert(keep == index.matched_ids(partsv).contains(pv.id));
            }
        }
        let ghost old_out = out@.map_values(|p2: Point| p2@);
        if keep {
            out.push(p.duplicate());
        }
        proof {
            reveal(Seq::filter);
            let t1 = index.points_v().take(i + 1);
            assert(t1.drop_last() =~= index.points_v().take(i as int));
            assert(t1.last() == pv);
            if keep {
                assert(out@.map_values(|p2: Point| p2@) =~= old_out.push(pv));
            } else {
                assert(out@.map_values(|p2: Point| p2@) =~= old_out);
            }
            assert(out@.map_values(|p2: Point| p2@) == index.points_v().take(i + 1).filter(pred));
        }
    }
    proof {
        assert(index.points_v().take(np as int) =~= index.points_v());
    }
    out
}

/// The tags joined to any point of `points`, in table order, each tag row
/// once.
#[verifier::loop_isolation(false)]
pub fn get_tags_for_points(index: &TagIndex, points: &Vec<Point>) -> (r: Vec<Tag>)
    ensures
        r@.map_values(|t: Tag| t@) == index.tags_of_pids(
            ids_of_points(points@.map_values(|p: Point| p@)),
        ),
{
    proof {
        index.lemma_views();
    }
    let ghost pids = ids_of_points(points@.map_values(|p: Point| p@));
    let ghost pred = |t: TagV|
        exists|ji: int|
            0 <= ji < index.joins_v().len() && (#[trigger] index.joins_v()[ji]).tag_id == t.id
                && pids.contains(index.joins_v()[ji].point_id);
    let nt = index.tags.len();
    let nj = index.joins.len();
    let npts = points.len();
    let mut out: Vec<Tag> = Vec::new();
    proof {
        reveal(Seq::filter);
        assert(index.tags_v().take(0) =~= Seq::<TagV>::empty());
        assert(out@.map_values(|t: Tag| t@) =~= Seq::<TagV>::empty());
        assert(Seq::<TagV>::empty().filter(pred) == Seq::<TagV>::empty());
    }
    for ti in 0..nt
        invariant
            out@.map_values(|t: Tag| t@) == index.tags_v().take(ti as int).filter(pred),
    {
        let ghost tv = index.tags_v()[ti as int];
        let mut found = false;
        for ji in 0..nj
            invariant
                found <==> exists|j2: int|
                    0 <= j2 < ji && (#[trigger] index.joins_v()[j2]).tag_id == tv.id
                        && pids.contains(index.joins_v()[j2].point_id),
        {
            if !found && index.joins[ji].tag_id == index.tags[ti].id {
                let pid = index.joins[ji].point_id;
                let mut isin = false;
                for q in 0..npts
                    invariant
                        isin <==> exists|q2: int|
                            0 <= q2 < q && (#[trigger] points@[q2])@.id == pid as int,
                {
                    if points[q].id == pid {
                        assert(points@[q as int]@.id == pid as int);
                        isin = true;
                    }
                }
                proof {
                    let psv = points@.map_values(|p: Point| p@);
                    if isin {
                        let q2 = choose|q2: int|
                            0 <= q2 < npts && (#[trigger] points@[q2])@.id == pid as int;
                        assert(psv[q2].id == pid as int);
                        assert(pids.contains(pid as int));
                    } else {
                        assert(!pids.contains(pid as int)) by {
                            if pids.contains(pid as int) {
                                let q2 = choose|q2: int|
                                    0 <= q2 < psv.len() && (#[trigger] psv[q2]).id == pid as int;
                                assert(points@[q2]@.id == pid as int);
                                assert(false);
                            }
                        }
                    }
                }
                if isin {
                    found = true;
                    proof {
                        assert(index.joins_v()[ji as int].tag_id == tv.id);
                        assert(pids.contains(index.joins_v()[ji as int].point_id));
                    }
                } else {
                    proof {
                        assert(!pids.contains(index.joins_v()[ji as int].point_id));
                    }
                }
            }
        }
        let ghost old_out = out@.map_values(|t: Tag| t@);
        if found {
            out.push(index.tags[ti].duplicate());
        }
        proof {
            reveal(Seq::filter);
            assert(found == pred(tv));
            let t1 = index.tags_v().take(ti + 1);
            assert(t1.drop_last() =~= index.tags_v().take(ti as int));
            assert(t1.last() == tv);
            if found {
                assert(out@.map_values(|t: Tag| t@) =~= old_out.push(tv));
            } else {
                assert(out@.map_values(|t: Tag| t@) =~= old_out);
            }
            assert(out@.map_values(|t: Tag| t@) == index.tags_v().take(ti + 1).filter(pred));
        }
    }
    proof {
        assert(index.tags_v().take(nt as int) =~= index.tags_v());
    }
    out
}

/// The tags joined to one point, in table order.
pub fn get_tags_for_point(index: &TagIndex, point: &Point) -> (r: Vec<Tag>)
    ensures
        r@.map_values(|t: Tag| t@) == index.tags_of_pids(
            ids_of_points(seq![point@]),
        ),
{
    let mut one: Vec<Point> = Vec::new();
    one.push(point.duplicate());
    let r = get_tags_for_points(index, &one);
    proof {
        assert(one@.map_values(|p: Point| p@) =~= seq![point@]);
    }
    r
}

/// The point carrying `id`, if any.
#[verifier::loop_isolation(false)]
pub fn find_point_by_id(index: &TagIndex, id: i32) -> (r: Option<Point>)
    ensures
        match r {
            Some(p) => index.has_point_id(id as int) && index.points_v().contains(p@) && p@.id
                == id as int,
            None => !index.has_point_id(id as int),
        },
{
    proof {
        index.lemma_views();
    }
    let np = index.points.len();
    for i in 0..np
        invariant
            np == index.points@.len(),
            forall|j: int| 0 <= j < i ==> (#[trigger] index.points_v()[j]).id != id as int,
    {
        if index.points[i].id == id {
            let p = index.points[i].duplicate();
            assert(index.points_v()[i as int] == p@);
            return Some(p);
        }
        assert(index.points_v()[i as int].id != id as int);
    }
    None
}


// ---------------------------------------------------------------------------
// Mutation
// ---------------------------------------------------------------------------

/// Failures of index mutations.
#[derive(Clone, Copy, PartialEq, Eq, Structural, Debug)]
pub enum IndexError {
    /// The named point id is not in the index.
    UnknownPoint,
    /// A tag expression matched no tag, or more than one.
    TagNotFound,
}

/// Relies on `rand::random_range`: a value drawn from the thread-local
/// generator, which the documentation promises lies within the given range.
#[verifier::external_body]
fn random_id() -> (r: i32)
    ensures
        0 <= r < 1000000,
{
    rand::random_range(0..1_000_000)
}

/// Mathematical value of a tag content argument.
pub open spec fn content_v(c: Option<(Seq<char>, Option<int>)>) -> Option<(Seq<char>, Option<int>)> {
    c
}

/// The view of a `(value, sort_value)` payload.
pub open spec fn payload_v(c: Option<(String, Option<i64>)>) -> Option<(Seq<char>, Option<int>)> {
    match c {
        Some((v, Some(sv))) => Some((v@, Some(sv as int))),
        Some((v, None)) => Some((v@, None)),
        None => None,
    }
}

/// How an existing tag is selected for reuse: by name and value when a
/// value is given, by name alone otherwise.
pub open spec fn tag_sel_pred(name: Seq<char>, c: Option<(Seq<char>, Option<int>)>) -> spec_fn(
    TagV,
) -> bool {
    match c {
        Some(p) => |t: TagV| t.name == name && t.value == Some(p.0),
        None => |t: TagV| t.name == name,
    }
}

/// The `value` column of a tag created from a payload.
pub open spec fn spec_new_tag_value(c: Option<(Seq<char>, Option<int>)>) -> Option<Seq<char>> {
    match c {
        Some(p) => Some(p.0),
        None => None,
    }
}

/// The `sort_value` column of a tag created from a payload.
pub open spec fn spec_new_tag_sort(c: Option<(Seq<char>, Option<int>)>) -> Option<int> {
    match c {
        Some(p) => p.1,
        None => None,
    }
}

/// How the join table changes when a point/tag pair is attached: nothing
/// when the pair exists, one new row with a fresh id otherwise.
pub open spec fn spec_joins_after_attach(o: TagIndex, n: TagIndex, pid: int, tid: int) -> bool {
    if o.join_pair_exists(pid, tid) {
        n.joins_v() == o.joins_v()
    } else {
        exists|jid: int|
            0 <= jid && !o.has_join_id(jid) && n.joins_v() == o.joins_v().push(
                JoinV { id: jid, tag_id: tid, point_id: pid },
            )
    }
}

/// A fresh id: a random draw when unused, else the smallest unused
/// non-negative value, which exists by counting.
#[verifier::loop_isolation(false)]
pub(crate) fn alloc_id(used: &Vec<i32>) -> (r: i32)
    requires
        used@.len() < 0x7fff_ffff,
    ensures
        !used@.contains(r),
        0 <= r,
{
    let cand = random_id();
    if !contains_i32(used, cand) {
        return cand;
    }
    let n = used.len();
    let mut i: usize = 0;
    while i <= n
        invariant
            i <= n + 1,
            forall|j: int| 0 <= j < i ==> used@.contains(#[trigger] (j as i32)),
        decreases n + 1 - i,
    {
        let c: i32 = i as i32;
        if !contains_i32(used, c) {
            return c;
        }
        proof {
            assert(used@.contains((i as int) as i32));
        }
        i = i + 1;
    }
    proof {
        let used_ints = used@.map_values(|x: i32| x as int);
        assert forall|k: int| 0 <= k < n + 1 implies used_ints.to_set().contains(k) by {
            assert(used@.contains((k as i32)));
            let idx = choose|idx: int| 0 <= idx < used@.len() && used@[idx] == (k as i32);
            assert(used_ints[idx] == k);
            assert(used_ints.contains(k));
        }
        assert(vstd::set_lib::set_int_range(0, n + 1).subset_of(used_ints.to_set()));
        vstd::set_lib::lemma_int_range(0, n + 1);
        used_ints.lemma_cardinality_of_set();
        vstd::set_lib::lemma_len_subset(
            vstd::set_lib::set_int_range(0, n + 1),
            used_ints.to_set(),
        );
        assert(false);
    }
    0
}

/// The tag ids in use.
#[verifier::loop_isolation(false)]
fn tag_ids_vec(index: &TagIndex) -> (r: Vec<i32>)
    ensures
        r@.len() == index.tags@.len(),
        forall|id: i32| r@.contains(id) <==> index.has_tag_id(id as int),
{
    proof {
        index.lemma_views();
    }
    let n = index.tags.len();
    let mut r: Vec<i32> = Vec::new();
    for i in 0..n
        invariant
            r@.len() == i,
            forall|j: int| 0 <= j < i ==> r@[j] == index.tags@[j].id,
    {
        r.push(index.tags[i].id);
    }
    proof {
        assert forall|id: i32| r@.contains(id) implies index.has_tag_id(id as int) by {
            let j = choose|j: int| 0 <= j < r@.len() && r@[j] == id;
            assert(index.tags_v()[j].id == id as int);
        }
        assert forall|id: i32| index.has_tag_id(id as int) implies r@.contains(id) by {
            let j = choose|j: int|
                0 <= j < index.tags_v().len() && index.tags_v()[j].id == id as int;
            assert(r@[j] == index.tags@[j].id);
            assert(r@[j] == id);
        }
    }
    r
}

/// The join ids in use.
#[verifier::loop_isolation(false)]
fn join_ids_vec(index: &TagIndex) -> (r: Vec<i32>)
    ensures
        r@.len() == index.joins@.len(),
        forall|id: i32| r@.contains(id) <==> index.has_join_id(id as int),
{
    proof {
        index.lemma_views();
    }
    let n = index.joins.len();
    let mut r: Vec<i32> = Vec::new();
    for i in 0..n
        invariant
            r@.len() == i,
            forall|j: int| 0 <= j < i ==> r@[j] == index.joins@[j].id,
    {
        r.push(index.joins[i].id);
    }
    proof {
        assert forall|id: i32| r@.contains(id) implies index.has_join_id(id as int) by {
            let j = choose|j: int| 0 <= j < r@.len() && r@[j] == id;
            assert(index.joins_v()[j].id == id as int);
        }
        assert forall|id: i32| index.has_join_id(id as int) implies r@.contains(id) by {
            let j = choose|j: int|
                0 <= j < index.joins_v().len() && index.joins_v()[j].id == id as int;
            assert(r@[j] == index.joins@[j].id);
            assert(r@[j] == id);
        }
    }
    r
}

/// Attach the pair `(pid, tid)` unless a join for it already exists.
#[verifier::loop_isolation(false)]
fn attach_join(index: &mut TagIndex, pid: i32, tid: i32)
    requires
        old(index).wf(),
        old(index).has_point_id(pid as int),
        old(index).has_tag_id(tid as int),
        old(index).joins@.len() < 0x7fff_ffff,
    ensures
        final(index).wf(),
        final(index).points_v() == old(index).points_v(),
        final(index).tags_v() == old(index).tags_v(),
        spec_joins_after_attach(*old(index), *final(index), pid as int, tid as int),
        final(index).join_pair_exists(pid as int, tid as int),
{
    proof {
        index.lemma_views();
    }
    let nj = index.joins.len();
    for ji in 0..nj
        invariant
            *index == *old(index),
            forall|j: int|
                0 <= j < ji ==> !((#[trigger] index.joins_v()[j]).point_id == pid as int
                    && index.joins_v()[j].tag_id == tid as int),
    {
        if index.joins[ji].point_id == pid && index.joins[ji].tag_id == tid {
            proof {
                assert(index.joins_v()[ji as int].point_id == pid as int);
                assert(index.join_pair_exists(pid as int, tid as int));
            }
            return ;
        }
        proof {
            assert(index.joins_v()[ji as int] == index.joins@[ji as int]@);
        }
    }
    proof {
        assert(!index.join_pair_exists(pid as int, tid as int));
    }
    let used = join_ids_vec(index);
    let jid = alloc_id(&used);
    let ghost o = *index;
    index.joins.push(Join { id: jid, tag_id: tid, point_id: pid });
    proof {
        index.lemma_views();
        assert(index.joins_v() =~= o.joins_v().push(
            JoinV { id: jid as int, tag_id: tid as int, point_id: pid as int },
        ));
        assert(index.points_v() == o.points_v());
        assert(index.tags_v() == o.tags_v());
        let nv = index.joins_v();
        let len = nv.len();
        assert(nv[len - 1].point_id == pid as int && nv[len - 1].tag_id == tid as int);
        assert(index.join_pair_exists(pid as int, tid as int));
        assert(!o.has_join_id(jid as int));
        // well-formedness of the extended join table
        assert forall|i: int, j: int| 0 <= i < j < len implies nv[i].id != nv[j].id by {
            if j == len - 1 {
                assert(o.joins_v()[i].id == nv[i].id);
                if nv[i].id == jid as int {
                    assert(o.has_join_id(jid as int));
                }
            }
        }
        assert forall|i: int| 0 <= i < len implies index.has_point_id(
            #[trigger] nv[i].point_id,
        ) && index.has_tag_id(nv[i].tag_id) by {
            if i < len - 1 {
                assert(o.has_point_id(nv[i].point_id) && o.has_tag_id(nv[i].tag_id));
            }
        }
        assert forall|i: int, j: int| 0 <= i < j < len implies !(nv[i].point_id == nv[j].point_id
            && nv[i].tag_id == nv[j].tag_id) by {
            if j == len - 1 {
                if nv[i].point_id == pid as int && nv[i].tag_id == tid as int {
                    assert(o.join_pair_exists(pid as int, tid as int));
                }
            }
        }
        assert(index.wf());
        assert(spec_joins_after_attach(o, *index, pid as int, tid as int));
    }
}

/// Attach a tag to a point: reuse the first tag with the same name (and the
/// same value, when one is given), create it otherwise; then create the
/// join unless the pair already exists.  A point id absent from the index
/// is rejected.  Returns the id of the tag attached.
#[verifier::loop_isolation(false)]
pub fn tag_point(
    index: &mut TagIndex,
    id: i32,
    tag_name: String,
    tag_content: Option<(String, Option<i64>)>,
) -> (r: Result<i32, IndexError>)
    requires
        old(index).wf(),
        old(index).tags@.len() < 0x7fff_ffff,
        old(index).joins@.len() < 0x7fff_ffff,
    ensures
        final(index).wf(),
        final(index).points_v() == old(index).points_v(),
        match r {
            Err(e) => {
                &&& e == IndexError::UnknownPoint
                &&& !old(index).has_point_id(id as int)
                &&& final(index).tags_v() == old(index).tags_v()
                &&& final(index).joins_v() == old(index).joins_v()
            },
            Ok(tid) => {
                &&& old(index).has_point_id(id as int)
                &&& match first_idx_where(
                    old(index).tags_v(),
                    tag_sel_pred(tag_name@, payload_v(tag_content)),
                ) {
                    Some(ti) => {
                        &&& final(index).tags_v() == old(index).tags_v()
                        &&& tid as int == old(index).tags_v()[ti].id
                    },
                    None => {
                        &&& !old(index).has_tag_id(tid as int)
                        &&& 0 <= tid
                        &&& final(index).tags_v() == old(index).tags_v().push(
                            TagV {
                                id: tid as int,
                                name: tag_name@,
                                value: spec_new_tag_value(payload_v(tag_content)),
                                sort_value: spec_new_tag_sort(payload_v(tag_content)),
                            },
                        )
                    },
                }
                &&& spec_joins_after_attach(*old(index), *final(index), id as int, tid as int)
                &&& final(index).join_pair_exists(id as int, tid as int)
            },
        },
{
    proof {
        index.lemma_views();
    }
    match find_point_by_id(index, id) {
        None => {
            return Err(IndexError::UnknownPoint);
        },
        Some(_) => {},
    }
    let ghost selp = tag_sel_pred(tag_name@, payload_v(tag_content));
    let nt = index.tags.len();
    let mut ti: usize = 0;
    while ti < nt
        invariant
            *index == *old(index),
            ti <= nt,
            forall|j: int| 0 <= j < ti ==> !selp(#[trigger] index.tags_v()[j]),
        decreases nt - ti,
    {
        let t = &index.tags[ti];
        let name_eq = t.name == tag_name;
        let hit: bool = match (&tag_content, &t.value) {
            (Some((v, _)), Some(tv)) => {
                let veq = *tv == *v;
                name_eq && veq
            },
            (Some(_), None) => false,
            (None, _) => name_eq,
        };
        proof {
            assert(index.tags_v()[ti as int] == index.tags@[ti as int]@);
            assert(hit == selp(index.tags_v()[ti as int]));
        }
        if hit {
            let tid = t.id;
            proof {
                lemma_first_idx_where_unique(index.tags_v(), selp, ti as int);
                assert(index.tags_v()[ti as int].id == tid as int);
            }
            attach_join(index, id, tid);
            return Ok(tid);
        }
        ti = ti + 1;
    }
    proof {
        lemma_first_idx_where(index.tags_v(), selp);
        assert(first_idx_where(index.tags_v(), selp) is None);
    }
    let used = tag_ids_vec(index);
    let tid = alloc_id(&used);
    let (value, sort_value) = match &tag_content {
        Some((v, Some(sv))) => (Some(v.clone()), Some(*sv)),
        Some((v, None)) => (Some(v.clone()), None),
        None => (None, None),
    };
    let ghost o = *index;
    index.tags.push(Tag { id: tid, name: tag_name, value, sort_value });
    proof {
        index.lemma_views();
        assert(index.tags_v() =~= o.tags_v().push(
            TagV {
                id: tid as int,
                name: tag_name@,
                value: spec_new_tag_value(payload_v(tag_content)),
                sort_value: spec_new_tag_sort(payload_v(tag_content)),
            },
        ));
        assert(index.points_v() == o.points_v());
        assert(index.joins_v() == o.joins_v());
        let nv = index.tags_v();
        let len = nv.len();
        assert(!o.has_tag_id(tid as int));
        assert forall|i: int, j: int| 0 <= i < j < len implies nv[i].id != nv[j].id by {
            if j == len - 1 {
                assert(o.tags_v()[i].id == nv[i].id);
                if nv[i].id == tid as int {
                    assert(o.has_tag_id(tid as int));
                }
            }
        }
        assert forall|i: int| 0 <= i < index.joins_v().len() implies index.has_point_id(
            #[trigger] index.joins_v()[i].point_id,
        ) && index.has_tag_id(index.joins_v()[i].tag_id) by {
            assert(index.joins_v()[i] == o.joins_v()[i]);
            assert(o.has_point_id(o.joins_v()[i].point_id));
            assert(o.has_tag_id(o.joins_v()[i].tag_id));
            let k = choose|k: int|
                0 <= k < o.tags_v().len() && o.tags_v()[k].id == index.joins_v()[i].tag_id;
            assert(nv[k].id == index.joins_v()[i].tag_id);
        }
        assert(index.wf());
        assert(index.has_tag_id(tid as int)) by {
            assert(nv[len - 1].id == tid as int);
        }
        assert(index.has_point_id(id as int));
    }
    let ghost mid = *index;
    attach_join(index, id, tid);
    proof {
        let orig = *old(index);
        assert(mid.joins_v() == orig.joins_v());
        assert(index.tags_v() == mid.tags_v());
        if orig.join_pair_exists(id as int, tid as int) {
            let w = choose|w: int|
                0 <= w < orig.joins_v().len() && (#[trigger] orig.joins_v()[w]).point_id
                    == id as int && orig.joins_v()[w].tag_id == tid as int;
            assert(mid.joins_v()[w].point_id == id as int);
            assert(mid.join_pair_exists(id as int, tid as int));
            assert(index.joins_v() == mid.joins_v());
        } else {
            assert(!mid.join_pair_exists(id as int, tid as int)) by {
                if mid.join_pair_exists(id as int, tid as int) {
                    let w = choose|w: int|
                        0 <= w < mid.joins_v().len() && (#[trigger] mid.joins_v()[w]).point_id
                            == id as int && mid.joins_v()[w].tag_id == tid as int;
                    assert(orig.joins_v()[w].point_id == id as int);
                    assert(orig.join_pair_exists(id as int, tid as int));
                }
            }
            let jid = choose|jid: int|
                0 <= jid && !mid.has_join_id(jid) && index.joins_v() == mid.joins_v().push(
                    JoinV { id: jid, tag_id: tid as int, point_id: id as int },
                );
            assert(!orig.has_join_id(jid)) by {
                if orig.has_join_id(jid) {
                    let k = choose|k: int|
                        0 <= k < orig.joins_v().len() && orig.joins_v()[k].id == jid;
                    assert(mid.joins_v()[k].id == jid);
                    assert(mid.has_join_id(jid));
                }
            }
            assert(index.joins_v() == orig.joins_v().push(
                JoinV { id: jid, tag_id: tid as int, point_id: id as int },
            ));
        }
        assert(spec_joins_after_attach(orig, *index, id as int, tid as int));
    }
    Ok(tid)
}

/// An empty index.
pub fn empty_index() -> (r: TagIndex)
    ensures
        r.wf(),
        r.points_v() == Seq::<PointV>::empty(),
        r.tags_v() == Seq::<TagV>::empty(),
        r.joins_v() == Seq::<JoinV>::empty(),
{
    let r = TagIndex { points: Vec::new(), tags: Vec::new(), joins: Vec::new() };
    proof {
        assert(r.points_v() =~= Seq::<PointV>::empty());
        assert(r.tags_v() =~= Seq::<TagV>::empty());
        assert(r.joins_v() =~= Seq::<JoinV>::empty());
    }
    r
}

/// Add a point row.  Rejected when its id is already present or the table
/// is full.
#[verifier::loop_isolation(false)]
pub fn insert_point_row(index: &mut TagIndex, p: Point) -> (r: bool)
    requires
        old(index).wf(),
    ensures
        final(index).wf(),
        final(index).tags_v() == old(index).tags_v(),
        final(index).joins_v() == old(index).joins_v(),
        r == (!old(index).has_point_id(p@.id) && old(index).points@.len() < 0x7fff_ffff),
        r ==> final(index).points_v() == old(index).points_v().push(p@),
        !r ==> final(index).points_v() == old(index).points_v(),
{
    proof {
        index.lemma_views();
    }
    if index.points.len() >= 0x7fff_ffff {
        proof {
            index.lemma_views();
        }
        return false;
    }
    let np = index.points.len();
    for i in 0..np
        invariant
            *index == *old(index),
            forall|j: int| 0 <= j < i ==> (#[trigger] index.points_v()[j]).id != p@.id,
    {
        if index.points[i].id == p.id {
            proof {
                assert(index.points_v()[i as int].id == p@.id);
            }
            return false;
        }
        proof {
            assert(index.points_v()[i as int] == index.points@[i as int]@);
        }
    }
    let ghost o = *index;
    proof {
        assert(!o.has_point_id(p@.id));
    }
    index.points.push(p);
    proof {
        index.lemma_views();
        assert(index.tags_v() == o.tags_v());
        assert(index.joins_v() == o.joins_v());
        assert(index.points_v() =~= o.points_v().push(index.points@[index.points@.len() - 1]@));
        let nv = index.points_v();
        let len = nv.len();
        assert forall|i: int, j: int| 0 <= i < j < len implies nv[i].id != nv[j].id by {
            if j == len - 1 {
                if nv[i].id == nv[j].id {
                    assert(o.has_point_id(nv[j].id));
                }
            }
        }
        assert forall|i: int| 0 <= i < index.joins_v().len() implies index.has_point_id(
            #[trigger] index.joins_v()[i].point_id,
        ) && index.has_tag_id(index.joins_v()[i].tag_id) by {
            assert(index.joins_v()[i] == o.joins_v()[i]);
            assert(o.has_point_id(o.joins_v()[i].point_id));
            assert(o.has_tag_id(o.joins_v()[i].tag_id));
            let k = choose|k: int|
                0 <= k < o.points_v().len() && o.points_v()[k].id == index.joins_v()[i].point_id;
            assert(nv[k].id == index.joins_v()[i].point_id);
        }
        assert(index.wf());
    }
    true
}

/// Add a tag row.  Rejected when its id is already present or the table is
/// full.
#[verifier::loop_isolation(false)]
pub fn insert_tag_row(index: &mut TagIndex, t: Tag) -> (r: bool)
    requires
        old(index).wf(),
    ensures
        final(index).wf(),
        final(index).points_v() == old(index).points_v(),
        final(index).joins_v() == old(index).joins_v(),
        r == (!old(index).has_tag_id(t@.id) && old(index).tags@.len() < 0x7fff_ffff),
        r ==> final(index).tags_v() == old(index).tags_v().push(t@),
        !r ==> final(index).tags_v() == old(index).tags_v(),
{
    proof {
        index.lemma_views();
    }
    if index.tags.len() >= 0x7fff_ffff {
        return false;
    }
    let nt = index.tags.len();
    for i in 0..nt
        invariant
            *index == *old(index),
            forall|j: int| 0 <= j < i ==> (#[trigger] index.tags_v()[j]).id != t@.id,
    {
        if index.tags[i].id == t.id {
            proof {
                assert(index.tags_v()[i as int].id == t@.id);
            }
            return false;
        }
        proof {
            assert(index.tags_v()[i as int] == index.tags@[i as int]@);
        }
    }
    let ghost o = *index;
    proof {
        assert(!o.has_tag_id(t@.id));
    }
    index.tags.push(t);
    proof {
        index.lemma_views();
        assert(index.points_v() == o.points_v());
        assert(index.joins_v() == o.joins_v());
        assert(index.tags_v() =~= o.tags_v().push(index.tags@[index.tags@.len() - 1]@));
        let nv = index.tags_v();
        let len = nv.len();
        assert forall|i: int, j: int| 0 <= i < j < len implies nv[i].id != nv[j].id by {
            if j == len - 1 {
                if nv[i].id == nv[j].id {
                    assert(o.has_tag_id(nv[j].id));
                }
            }
        }
        assert forall|i: int| 0 <= i < index.joins_v().len() implies index.has_point_id(
            #[trigger] index.joins_v()[i].point_id,
        ) && index.has_tag_id(index.joins_v()[i].tag_id) by {
            assert(index.joins_v()[i] == o.joins_v()[i]);
            assert(o.has_point_id(o.joins_v()[i].point_id));
            assert(o.has_tag_id(o.joins_v()[i].tag_id));
            let k = choose|k: int|
                0 <= k < o.tags_v().len() && o.tags_v()[k].id == index.joins_v()[i].tag_id;
            assert(nv[k].id == index.joins_v()[i].tag_id);
        }
        assert(index.wf());
    }
    true
}

/// Add a join row.  Rejected when its id or its `(point_id, tag_id)` pair
/// is already present, when it references a missing point or tag, or when
/// the table is full.
#[verifier::loop_isolation(false)]
pub fn insert_join_row(index: &mut TagIndex, j: Join) -> (r: bool)
    requires
        old(index).wf(),
    ensures
        final(index).wf(),
        final(index).points_v() == old(index).points_v(),
        final(index).tags_v() == old(index).tags_v(),
        r == (!old(index).has_join_id(j@.id) && !old(index).join_pair_exists(j@.point_id, j@.tag_id)
            && old(index).has_point_id(j@.point_id) && old(index).has_tag_id(j@.tag_id) && old(
            index,
        ).joins@.len() < 0x7fff_ffff),
        r ==> final(index).joins_v() == old(index).joins_v().push(j@),
        !r ==> final(index).joins_v() == old(index).joins_v(),
{
    proof {
        index.lemma_views();
    }
    if index.joins.len() >= 0x7fff_ffff {
        return false;
    }
    if find_point_by_id(index, j.point_id).is_none() {
        return false;
    }
    let mut tag_found = false;
    let nt = index.tags.len();
    for i in 0..nt
        invariant
            *index == *old(index),
            tag_found <==> exists|k: int|
                0 <= k < i && (#[trigger] index.tags_v()[k]).id == j@.tag_id,
    {
        if index.tags[i].id == j.tag_id {
            proof {
                assert(index.tags_v()[i as int].id == j@.tag_id);
            }
            tag_found = true;
        }
        proof {
            assert(index.tags_v()[i as int] == index.tags@[i as int]@);
        }
    }
    if !tag_found {
        proof {
            assert(!index.has_tag_id(j@.tag_id));
        }
        return false;
    }
    let nj = index.joins.len();
    for i in 0..nj
        invariant
            *index == *old(index),
            forall|k: int|
                0 <= k < i ==> (#[trigger] index.joins_v()[k]).id != j@.id && !(
                index.joins_v()[k].point_id == j@.point_id && index.joins_v()[k].tag_id
                    == j@.tag_id),
    {
        if index.joins[i].id == j.id {
            proof {
                assert(index.joins_v()[i as int].id == j@.id);
            }
            return false;
        }
        if index.joins[i].point_id == j.point_id && index.joins[i].tag_id == j.tag_id {
            proof {
                assert(index.joins_v()[i as int].point_id == j@.point_id);
                assert(index.joins_v()[i as int].tag_id == j@.tag_id);
            }
            return false;
        }
        proof {
            assert(index.joins_v()[i as int] == index.joins@[i as int]@);
        }
    }
    let ghost o = *index;
    proof {
        assert(!o.has_join_id(j@.id));
        assert(!o.join_pair_exists(j@.point_id, j@.tag_id));
    }
    index.joins.push(j);
    proof {
        index.lemma_views();
        assert(index.points_v() == o.points_v());
        assert(index.tags_v() == o.tags_v());
        assert(index.joins_v() =~= o.joins_v().push(index.joins@[index.joins@.len() - 1]@));
        let nv = index.joins_v();
        let len = nv.len();
        assert forall|a: int, b: int| 0 <= a < b < len implies nv[a].id != nv[b].id by {
            if b == len - 1 {
                if nv[a].id == nv[b].id {
                    assert(o.has_join_id(nv[b].id));
                }
            }
        }
        assert forall|a: int, b: int| 0 <= a < b < len implies !(nv[a].point_id == nv[b].point_id
            && nv[a].tag_id == nv[b].tag_id) by {
            if b == len - 1 {
                if nv[a].point_id == nv[b].point_id && nv[a].tag_id == nv[b].tag_id {
                    assert(o.join_pair_exists(nv[b].point_id, nv[b].tag_id));
                }
            }
        }
        assert forall|a: int| 0 <= a < len implies index.has_point_id(#[trigger] nv[a].point_id)
            && index.has_tag_id(nv[a].tag_id) by {
            if a < len - 1 {
                assert(o.has_point_id(nv[a].point_id));
                assert(o.has_tag_id(nv[a].tag_id));
            }
        }
        assert(index.wf());
    }
    true
}



/// The point ids in use.
#[verifier::loop_isolation(false)]
pub(crate) fn point_ids_vec(index: &TagIndex) -> (r: Vec<i32>)
    ensures
        r@.len() == index.points@.len(),
        forall|id: i32| r@.contains(id) <==> index.has_point_id(id as int),
{
    proof {
        index.lemma_views();
    }
    let n = index.points.len();
    let mut r: Vec<i32> = Vec::new();
    for i in 0..n
        invariant
            r@.len() == i,
            forall|j: int| 0 <= j < i ==> r@[j] == index.points@[j].id,
    {
        r.push(index.points[i].id);
    }
    proof {
        assert forall|id: i32| r@.contains(id) implies index.has_point_id(id as int) by {
            let j = choose|j: int| 0 <= j < r@.len() && r@[j] == id;
            assert(index.points_v()[j].id == id as int);
        }
        assert forall|id: i32| index.has_point_id(id as int) implies r@.contains(id) by {
            let j = choose|j: int|
                0 <= j < index.points_v().len() && index.points_v()[j].id == id as int;
            assert(r@[j] == index.points@[j].id);
            assert(r@[j] == id);
        }
    }
    r
}

/// Point the row with this id at a new backing path and hash; its other
/// columns stay.
#[verifier::loop_isolation(false)]
pub fn set_point_path_hash(index: &mut TagIndex, id: i32, path_str: String, h: String)
    requires
        old(index).wf(),
    ensures
        final(index).wf(),
        final(index).tags_v() == old(index).tags_v(),
        final(index).joins_v() == old(index).joins_v(),
        final(index).points_v().len() == old(index).points_v().len(),
        forall|i: int|
            0 <= i < old(index).points_v().len() ==> #[trigger] final(index).points_v()[i] == (
            if old(index).points_v()[i].id == id as int {
                PointV {
                    id: old(index).points_v()[i].id,
                    name: old(index).points_v()[i].name,
                    path: Some(path_str@),
                    hash: h@,
                    dir: old(index).points_v()[i].dir,
                }
            } else {
                old(index).points_v()[i]
            }),
{
    proof {
        index.lemma_views();
    }
    let n = index.points.len();
    for i in 0..n
        invariant
            *index == *old(index),
            forall|j: int| 0 <= j < i ==> (#[trigger] index.points_v()[j]).id != id as int,
    {
        proof {
            assert(index.points_v()[i as int] == index.points@[i as int]@);
        }
        if index.points[i].id == id {
            let ghost o = *index;
            let old_row = index.points.remove(i);
            let new_row = Point {
                id: old_row.id,
                name: old_row.name,
                path: Some(path_str),
                hash: h,
                dir: old_row.dir,
            };
            index.points.insert(i, new_row);
            proof {
                index.lemma_views();
                assert(index.tags_v() == o.tags_v());
                assert(index.joins_v() == o.joins_v());
                assert(index.points_v().len() == o.points_v().len());
                assert forall|j: int|
                    0 <= j < o.points_v().len() implies #[trigger] index.points_v()[j] == (
                if o.points_v()[j].id == id as int {
                    PointV {
                        id: o.points_v()[j].id,
                        name: o.points_v()[j].name,
                        path: Some(path_str@),
                        hash: h@,
                        dir: o.points_v()[j].dir,
                    }
                } else {
                    o.points_v()[j]
                }) by {
                    if j < i {
                        assert(index.points@[j] == o.points@[j]);
                        assert(o.points_v()[j].id != id as int);
                    } else if j == i {
                        assert(index.points_v()[j] == index.points@[j]@);
                    } else {
                        assert(index.points@[j] == o.points@[j]);
                        if o.points_v()[j].id == id as int {
                            assert(o.points_v()[i as int].id == o.points_v()[j].id);
                            assert(false);
                        }
                    }
                }
                assert forall|a: int, b: int|
                    0 <= a < b < index.points_v().len() implies index.points_v()[a].id
                    != index.points_v()[b].id by {
                    assert(index.points_v()[a].id == o.points_v()[a].id);
                    assert(index.points_v()[b].id == o.points_v()[b].id);
                }
                assert forall|a: int|
                    0 <= a < index.joins_v().len() implies index.has_point_id(
                    #[trigger] index.joins_v()[a].point_id,
                ) && index.has_tag_id(index.joins_v()[a].tag_id) by {
                    assert(o.has_point_id(o.joins_v()[a].point_id));
                    let k = choose|k: int|
                        0 <= k < o.points_v().len() && o.points_v()[k].id
                            == o.joins_v()[a].point_id;
                    assert(index.points_v()[k].id == o.joins_v()[a].point_id);
                    assert(o.has_tag_id(o.joins_v()[a].tag_id));
                }
                assert(index.wf());
            }
            return ;
        }
    }
    proof {
        assert forall|j: int|
            0 <= j < old(index).points_v().len() implies #[trigger] final(index).points_v()[j]
            == (if old(index).points_v()[j].id == id as int {
            PointV {
                id: old(index).points_v()[j].id,
                name: old(index).points_v()[j].name,
                path: Some(path_str@),
                hash: h@,
                dir: old(index).points_v()[j].dir,
            }
        } else {
            old(index).points_v()[j]
        }) by {
            assert(index.points_v()[j].id != id as int);
        }
    }
}

/// The tags matching each expression of a list, one list per expression.
#[verifier::loop_isolation(false)]
pub fn get_tags_by_parts(index: &TagIndex, path_parts: &Vec<String>) -> (r: Vec<Vec<Tag>>)
    ensures
        r@.len() == path_parts@.len(),
        forall|k: int|
            0 <= k < r@.len() ==> (#[trigger] r@[k])@.map_values(|t: Tag| t@)
                == index.part_tags(path_parts.deep_view()[k]),
{
    proof {
        index.lemma_views();
    }
    let m = path_parts.len();
    let mut out: Vec<Vec<Tag>> = Vec::new();
    for k in 0..m
        invariant
            out@.len() == k,
            forall|k2: int|
                0 <= k2 < k ==> (#[trigger] out@[k2])@.map_values(|t: Tag| t@)
                    == index.part_tags(path_parts.deep_view()[k2]),
    {
        let part = crate::text::chars_of(path_parts[k].as_str());
        proof {
            assert(part@ == path_parts.deep_view()[k as int]);
        }
        let these = part_tag_list(index, &part);
        out.push(these);
    }
    out
}

/// The tags matching one expression, disjunct by disjunct.
#[verifier::loop_isolation(false)]
fn part_tag_list(index: &TagIndex, part: &Vec<char>) -> (r: Vec<Tag>)
    ensures
        r@.map_values(|t: Tag| t@) == index.part_tags(part@),
{
    proof {
        index.lemma_views();
    }
    let sep = or_sep_vec();
    let pieces = split_chars(part, &sep);
    let nd = pieces.len();
    let ghost ds = split_on(part@, or_sep());
    proof {
        assert(pieces.deep_view() == ds);
        assert(ds.take(0) =~= Seq::<Seq<char>>::empty());
        assert(ds.take(0).flat_map(
            |d: Seq<char>|
                index.tags_v().filter(|t: TagV| disjunct_matches(spec_parse_disjunct(d), t)),
        ) =~= Seq::<TagV>::empty());
    }
    let mut out: Vec<Tag> = Vec::new();
    for di in 0..nd
        invariant
            out@.map_values(|t: Tag| t@) == ds.take(di as int).flat_map(
                |d: Seq<char>|
                    index.tags_v().filter(|t: TagV| disjunct_matches(spec_parse_disjunct(d), t)),
            ),
    {
        let ghost f = |d: Seq<char>|
            index.tags_v().filter(|t: TagV| disjunct_matches(spec_parse_disjunct(d), t));
        proof {
            assert(pieces.deep_view()[di as int] == pieces@[di as int]@);
        }
        let parsed = crate::expr::parse_disjunct(&pieces[di]);
        let ghost dv = spec_parse_disjunct(ds[di as int]);
        let ghost pred = |t: TagV| disjunct_matches(dv, t);
        let nt = index.tags.len();
        let ghost base = out@.map_values(|t: Tag| t@);
        proof {
            reveal(Seq::filter);
            assert(index.tags_v().take(0) =~= Seq::<TagV>::empty());
            assert(Seq::<TagV>::empty().filter(pred) == Seq::<TagV>::empty());
            assert(base + index.tags_v().take(0).filter(pred) =~= base);
        }
        for ti in 0..nt
            invariant
                out@.map_values(|t: Tag| t@) == base + index.tags_v().take(ti as int).filter(
                    pred,
                ),
        {
            proof {
                assert(index.tags_v()[ti as int] == index.tags@[ti as int]@);
            }
            let hit = crate::expr::disjunct_matches_tag(&parsed, &index.tags[ti]);
            let ghost t1 = index.tags_v().take(ti + 1);
            proof {
                reveal(Seq::filter);
                assert(t1.drop_last() =~= index.tags_v().take(ti as int));
                assert(t1.last() == index.tags_v()[ti as int]);
            }
            let ghost olde = out@.map_values(|t: Tag| t@);
            if hit {
                out.push(index.tags[ti].duplicate());
                proof {
                    assert(out@.map_values(|t: Tag| t@) =~= olde.push(
                        index.tags_v()[ti as int],
                    ));
                    assert(t1.filter(pred) == index.tags_v().take(ti as int).filter(pred).push(
                        t1.last(),
                    ));
                    assert(out@.map_values(|t: Tag| t@) =~= base + t1.filter(pred));
                }
            } else {
                proof {
                    assert(t1.filter(pred) == index.tags_v().take(ti as int).filter(pred));
                }
            }
        }
        proof {
            assert(index.tags_v().take(nt as int) =~= index.tags_v());
            assert(f(ds[di as int]) == index.tags_v().filter(pred));
            assert(ds.take(di + 1).drop_last() =~= ds.take(di as int));
            assert(ds.take(di + 1).last() == ds[di as int]);
            ds.take(di as int).lemma_flat_map_push(f, ds[di as int]);
            assert(ds.take(di + 1) =~= ds.take(di as int).push(ds[di as int]));
            assert(out@.map_values(|t: Tag| t@) =~= ds.take(di + 1).flat_map(f));
        }
    }
    proof {
        assert(ds.take(nd as int) =~= ds);
    }
    out
}

/// Detach the single tag a name expression matches from a point: the join
/// for the pair goes; an expression matching no tag, or more than one, is
/// rejected.
#[verifier::loop_isolation(false)]
pub fn untag_point(index: &mut TagIndex, id: i32, tag_name: &String) -> (r: Result<
    i32,
    IndexError,
>)
    requires
        old(index).wf(),
    ensures
        final(index).wf(),
        final(index).points_v() == old(index).points_v(),
        final(index).tags_v() == old(index).tags_v(),
        match r {
            Err(e) => e == IndexError::TagNotFound && old(index).part_tags(tag_name@).len() != 1
                && final(index).joins_v() == old(index).joins_v(),
            Ok(tid) => old(index).part_tags(tag_name@).len() == 1 && tid as int == old(
                index,
            ).part_tags(tag_name@)[0].id && final(index).joins_v() == old(index).joins_v().filter(
                |j: JoinV| !(j.point_id == id as int && j.tag_id == tid as int),
            ),
        },
{
    proof {
        index.lemma_views();
    }
    let part = crate::text::chars_of(tag_name.as_str());
    let matches = part_tag_list(index, &part);
    if matches.len() != 1 {
        proof {
            assert(index.part_tags(tag_name@).len() == matches@.len());
        }
        return Err(IndexError::TagNotFound);
    }
    let tid = matches[0].id;
    proof {
        assert(matches@.map_values(|t: Tag| t@)[0] == matches@[0]@);
        assert(index.part_tags(tag_name@)[0].id == tid as int);
    }
    let ghost o = *index;
    let ghost pred = |j: JoinV| !(j.point_id == id as int && j.tag_id == tid as int);
    let nj = index.joins.len();
    let mut kept: Vec<Join> = Vec::new();
    proof {
        reveal(Seq::filter);
        assert(o.joins_v().take(0) =~= Seq::<JoinV>::empty());
        assert(Seq::<JoinV>::empty().filter(pred) == Seq::<JoinV>::empty());
        assert(kept@.map_values(|j: Join| j@) =~= Seq::<JoinV>::empty());
    }
    for ji in 0..nj
        invariant
            *index == o,
            tid as int == o.part_tags(tag_name@)[0].id,
            kept@.map_values(|j: Join| j@) == o.joins_v().take(ji as int).filter(pred),
        decreases nj - ji,
    {
        proof {
            assert(index.joins_v()[ji as int] == index.joins@[ji as int]@);
        }
        let j = &index.joins[ji];
        let keep = !(j.point_id == id && j.tag_id == tid);
        let ghost t1 = o.joins_v().take(ji + 1);
        proof {
            reveal(Seq::filter);
            assert(t1.drop_last() =~= o.joins_v().take(ji as int));
            assert(t1.last() == o.joins_v()[ji as int]);
            assert(keep == pred(o.joins_v()[ji as int]));
        }
        let ghost oldk = kept@.map_values(|j2: Join| j2@);
        if keep {
            kept.push(j.duplicate());
            proof {
                assert(kept@.map_values(|j2: Join| j2@) =~= oldk.push(o.joins_v()[ji as int]));
                assert(t1.filter(pred) == o.joins_v().take(ji as int).filter(pred).push(
                    t1.last(),
                ));
            }
        } else {
            proof {
                assert(t1.filter(pred) == o.joins_v().take(ji as int).filter(pred));
            }
        }
    }
    proof {
        assert(o.joins_v().take(nj as int) =~= o.joins_v());
    }
    index.joins = kept;
    proof {
        index.lemma_views();
        assert(index.points_v() == o.points_v());
        assert(index.tags_v() == o.tags_v());
        assert(index.joins_v() == o.joins_v().filter(pred));
        lemma_join_filter_wf(o, *index, pred);
    }
    Ok(tid)
}

/// Remove a point and, in cascade, every join that references it.
#[verifier::loop_isolation(false)]
pub fn remove_point(index: &mut TagIndex, id: i32)
    requires
        old(index).wf(),
    ensures
        final(index).wf(),
        final(index).tags_v() == old(index).tags_v(),
        final(index).points_v() == old(index).points_v().filter(
            |p: PointV| p.id != id as int,
        ),
        final(index).joins_v() == old(index).joins_v().filter(
            |j: JoinV| j.point_id != id as int,
        ),
{
    proof {
        index.lemma_views();
    }
    let ghost o = *index;
    let ghost ppred = |p: PointV| p.id != id as int;
    let np = index.points.len();
    let mut keptp: Vec<Point> = Vec::new();
    proof {
        reveal(Seq::filter);
        assert(o.points_v().take(0) =~= Seq::<PointV>::empty());
        assert(Seq::<PointV>::empty().filter(ppred) == Seq::<PointV>::empty());
        assert(keptp@.map_values(|p: Point| p@) =~= Seq::<PointV>::empty());
    }
    for pi in 0..np
        invariant
            *index == o,
            keptp@.map_values(|p: Point| p@) == o.points_v().take(pi as int).filter(ppred),
    {
        proof {
            assert(index.points_v()[pi as int] == index.points@[pi as int]@);
        }
        let keep = !(index.points[pi].id == id);
        let ghost t1 = o.points_v().take(pi + 1);
        proof {
            reveal(Seq::filter);
            assert(t1.drop_last() =~= o.points_v().take(pi as int));
            assert(t1.last() == o.points_v()[pi as int]);
            assert(keep == ppred(o.points_v()[pi as int]));
        }
        let ghost oldk = keptp@.map_values(|p2: Point| p2@);
        if keep {
            keptp.push(index.points[pi].duplicate());
            proof {
                assert(keptp@.map_values(|p2: Point| p2@) =~= oldk.push(
                    o.points_v()[pi as int],
                ));
                assert(t1.filter(ppred) == o.points_v().take(pi as int).filter(ppred).push(
                    t1.last(),
                ));
            }
        } else {
            proof {
                assert(t1.filter(ppred) == o.points_v().take(pi as int).filter(ppred));
            }
        }
    }
    proof {
        assert(o.points_v().take(np as int) =~= o.points_v());
    }
    let ghost jpred = |j: JoinV| j.point_id != id as int;
    let nj = index.joins.len();
    let mut keptj: Vec<Join> = Vec::new();
    proof {
        reveal(Seq::filter);
        assert(o.joins_v().take(0) =~= Seq::<JoinV>::empty());
        assert(Seq::<JoinV>::empty().filter(jpred) == Seq::<JoinV>::empty());
        assert(keptj@.map_values(|j: Join| j@) =~= Seq::<JoinV>::empty());
    }
    for ji in 0..nj
        invariant
            *index == o,
            keptj@.map_values(|j: Join| j@) == o.joins_v().take(ji as int).filter(jpred),
    {
        proof {
            assert(index.joins_v()[ji as int] == index.joins@[ji as int]@);
        }
        let keep = !(index.joins[ji].point_id == id);
        let ghost t1 = o.joins_v().take(ji + 1);
        proof {
            reveal(Seq::filter);
            assert(t1.drop_last() =~= o.joins_v().take(ji as int));
            assert(t1.last() == o.joins_v()[ji as int]);
            assert(keep == jpred(o.joins_v()[ji as int]));
        }
        let ghost oldk = keptj@.map_values(|j2: Join| j2@);
        if keep {
            keptj.push(index.joins[ji].duplicate());
            proof {
                assert(keptj@.map_values(|j2: Join| j2@) =~= oldk.push(o.joins_v()[ji as int]));
                assert(t1.filter(jpred) == o.joins_v().take(ji as int).filter(jpred).push(
                    t1.last(),
                ));
            }
        } else {
            proof {
                assert(t1.filter(jpred) == o.joins_v().take(ji as int).filter(jpred));
            }
        }
    }
    proof {
        assert(o.joins_v().take(nj as int) =~= o.joins_v());
    }
    index.points = keptp;
    index.joins = keptj;
    proof {
        index.lemma_views();
        assert(index.tags_v() == o.tags_v());
        assert(index.points_v() == o.points_v().filter(ppred));
        assert(index.joins_v() == o.joins_v().filter(jpred));
        lemma_remove_point_wf(o, *index, id as int);
    }
}

/// Filtering the join table by any predicate keeps the index well formed,
/// as long as the points and tags stay.
proof fn lemma_join_filter_wf(o: TagIndex, n: TagIndex, pred: spec_fn(JoinV) -> bool)
    requires
        o.wf(),
        n.points_v() == o.points_v(),
        n.tags_v() == o.tags_v(),
        n.joins_v() == o.joins_v().filter(pred),
    ensures
        n.wf(),
{
    broadcast use vstd::seq_lib::group_filter_ensures;

    let nj = n.joins_v();
    assert forall|i: int| 0 <= i < nj.len() implies o.joins_v().contains(#[trigger] nj[i]) by {
        o.joins_v().lemma_filter_contains_rev(pred, nj[i]);
        assert(nj.contains(nj[i]));
    }
    assert forall|i: int, j: int| 0 <= i < j < nj.len() implies nj[i].id != nj[j].id by {
        lemma_filter_index_map(o.joins_v(), pred, i, j);
    }
    assert forall|i: int, j: int|
        0 <= i < j < nj.len() implies !(nj[i].point_id == nj[j].point_id && nj[i].tag_id
        == nj[j].tag_id) by {
        lemma_filter_index_map(o.joins_v(), pred, i, j);
    }
    assert forall|i: int| 0 <= i < nj.len() implies n.has_point_id(#[trigger] nj[i].point_id)
        && n.has_tag_id(nj[i].tag_id) by {
        assert(o.joins_v().contains(nj[i]));
        let w = choose|w: int| 0 <= w < o.joins_v().len() && o.joins_v()[w] == nj[i];
        assert(o.has_point_id(o.joins_v()[w].point_id));
        assert(o.has_tag_id(o.joins_v()[w].tag_id));
    }
}

/// Two positions of a filtered sequence come from two distinct positions
/// of the unfiltered one, in order.
proof fn lemma_filter_index_map<A>(s: Seq<A>, pred: spec_fn(A) -> bool, i: int, j: int)
    requires
        0 <= i < j < s.filter(pred).len(),
    ensures
        exists|a: int, b: int|
            0 <= a < b < s.len() && s[a] == s.filter(pred)[i] && s[b] == s.filter(pred)[j],
    decreases s.len(),
{
    reveal(Seq::filter);
    if s.len() > 0 {
        let rest = s.drop_last();
        if pred(s.last()) && j == s.filter(pred).len() - 1 {
            if i < j {
                lemma_filter_single_index(rest, pred, i);
                let a = choose|a: int|
                    0 <= a < rest.len() && rest[a] == rest.filter(pred)[i];
                assert(s[a] == s.filter(pred)[i]);
                assert(s[s.len() - 1] == s.filter(pred)[j]);
            }
        } else {
            lemma_filter_index_map(rest, pred, i, j);
            let (a, b) = choose|a: int, b: int|
                0 <= a < b < rest.len() && rest[a] == rest.filter(pred)[i] && rest[b]
                    == rest.filter(pred)[j];
            assert(s[a] == s.filter(pred)[i]);
            assert(s[b] == s.filter(pred)[j]);
        }
    }
}

/// A position of a filtered sequence comes from a position of the
/// unfiltered one.
proof fn lemma_filter_single_index<A>(s: Seq<A>, pred: spec_fn(A) -> bool, i: int)
    requires
        0 <= i < s.filter(pred).len(),
    ensures
        exists|a: int| 0 <= a < s.len() && s[a] == s.filter(pred)[i],
    decreases s.len(),
{
    reveal(Seq::filter);
    if s.len() > 0 {
        let rest = s.drop_last();
        if pred(s.last()) && i == s.filter(pred).len() - 1 {
            assert(s[s.len() - 1] == s.filter(pred)[i]);
        } else {
            lemma_filter_single_index(rest, pred, i);
            let a = choose|a: int| 0 <= a < rest.len() && rest[a] == rest.filter(pred)[i];
            assert(s[a] == s.filter(pred)[i]);
        }
    }
}

/// Removing a point and its joins keeps the index well formed.
proof fn lemma_remove_point_wf(o: TagIndex, n: TagIndex, id: int)
    requires
        o.wf(),
        n.tags_v() == o.tags_v(),
        n.points_v() == o.points_v().filter(|p: PointV| p.id != id),
        n.joins_v() == o.joins_v().filter(|j: JoinV| j.point_id != id),
    ensures
        n.wf(),
{
    broadcast use vstd::seq_lib::group_filter_ensures;

    let np = n.points_v();
    let nj = n.joins_v();
    assert forall|i: int, j: int| 0 <= i < j < np.len() implies np[i].id != np[j].id by {
        lemma_filter_index_map(o.points_v(), |p: PointV| p.id != id, i, j);
    }
    assert forall|i: int, j: int| 0 <= i < j < nj.len() implies nj[i].id != nj[j].id by {
        lemma_filter_index_map(o.joins_v(), |j2: JoinV| j2.point_id != id, i, j);
    }
    assert forall|i: int, j: int|
        0 <= i < j < nj.len() implies !(nj[i].point_id == nj[j].point_id && nj[i].tag_id
        == nj[j].tag_id) by {
        lemma_filter_index_map(o.joins_v(), |j2: JoinV| j2.point_id != id, i, j);
    }
    assert forall|i: int| 0 <= i < nj.len() implies n.has_point_id(#[trigger] nj[i].point_id)
        && n.has_tag_id(nj[i].tag_id) by {
        o.joins_v().lemma_filter_contains_rev(|j2: JoinV| j2.point_id != id, nj[i]);
        assert(nj.contains(nj[i]));
        assert(o.joins_v().contains(nj[i]));
        let w = choose|w: int| 0 <= w < o.joins_v().len() && o.joins_v()[w] == nj[i];
        assert(o.has_point_id(o.joins_v()[w].point_id));
        let k = choose|k: int|
            0 <= k < o.points_v().len() && o.points_v()[k].id == o.joins_v()[w].point_id;
        assert(nj[i].point_id != id);
        o.points_v().lemma_filter_contains(|p: PointV| p.id != id, k);
        assert(np.contains(o.points_v()[k]));
        let k2 = choose|k2: int| 0 <= k2 < np.len() && np[k2] == o.points_v()[k];
        assert(np[k2].id == nj[i].point_id);
        assert(o.has_tag_id(o.joins_v()[w].tag_id));
    }
}


} // verus!
