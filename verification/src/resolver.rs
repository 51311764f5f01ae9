//! The attribute and directory-entry resolver.
//!
//! Given a path of the mount namespace, the resolver classifies it — the
//! root, a concrete point, the `@flatten` directory, the `@flat-info` file,
//! a `@dir` marker, an intermediate pivot directory, an extra directory, or
//! a tag directory — computes its attributes or its listing, and keeps the
//! identity table and the readdir cache in step.

use vstd::prelude::*;

use crate::attr::{basic_directory, basic_file, basic_link, DirEntry, DirEntryV, FileAttr, FileKind};
use crate::fstate::{assign_rel, register_rel, FsState};
use crate::index::{
    get_points_by_parts, get_tags_for_point, get_tags_for_points, find_point_by_id, ids_of_points,
    TagIndex,
};
use crate::models::{Point, PointV, Tag, TagV};
use crate::paths::{
    dir_tok, dir_tok_str, flat_info_tok, flat_info_tok_str, flatten_tok, flatten_tok_str,
    spec_flat_info_size, flat_info_size, format_tag, parse_path, point_full_name, spec_format_tag,
    spec_parse_path, spec_path_id, spec_point_name, sub_parts, ParsedPath, ParsedPathV, path_id,
};
use crate::text::{chars_le, chars_of, lex_le, lex_min_of};

verus! {

/// Errors surfaced at the kernel boundary.
#[derive(Clone, Copy, PartialEq, Eq, Structural, Debug)]
pub enum FsError {
    /// The path does not resolve.
    NotFound,
    /// `readdir` targets a non-directory point inside `@flatten`.
    NotDirectory,
}

/// The mount: the identity table beside the tag index it serves.
pub struct Ffs {
    pub state: FsState,
    pub index: TagIndex,
}

/// The set holding one id.
pub open spec fn single_id(pid: int) -> Set<int> {
    Set::new(|x: int| x == pid)
}

/// The display strings of one point's tags, in table order.
pub open spec fn point_tag_displays(index: TagIndex, pid: int) -> Seq<Seq<char>> {
    index.tags_of_pids(single_id(pid)).map_values(|t: TagV| spec_format_tag(t))
}

/// The lexicographically smallest display of a tag of the point that is not
/// already named along the path: its first distinguishing tag.
pub open spec fn min_dist(index: TagIndex, pid: int, exclude: Seq<Seq<char>>) -> Option<
    Seq<char>,
> {
    lex_min_of(point_tag_displays(index, pid).filter(|d: Seq<char>| !exclude.contains(d)))
}

/// The point a path's last component decodes to, if any: the digits after
/// the component's final `.` are the authoritative lookup key.
pub open spec fn spec_lookup_point(index: TagIndex, pathv: Seq<Seq<char>>) -> Option<PointV> {
    match spec_path_id(pathv) {
        Some(id) => index.point_with_id(id),
        None => None,
    }
}

/// Some point matched by `parent_query` has `last` as its first
/// distinguishing tag: the path is a valid intermediate pivot directory.
pub open spec fn flat_step_exists(
    index: TagIndex,
    parent_query: Seq<Seq<char>>,
    last: Seq<char>,
) -> bool {
    exists|k: int|
        0 <= k < index.matched_points(parent_query).len() && min_dist(
            index,
            (#[trigger] index.matched_points(parent_query)[k]).id,
            parent_query,
        ) == Some(last)
}

/// What a path names.
pub ghost enum NodeClass {
    /// The empty path: the root directory.
    Root,
    /// In flatten mode, the combined query decodes to this point.
    PointNode(PointV),
    /// The `@flatten` directory itself.
    FlattenRoot,
    /// The `@flat-info` file of this filter path.
    FlatInfo(Seq<Seq<char>>),
    /// A `@dir` marker resolving to the parent directory's point.
    DirMarker(PointV),
    /// A valid intermediate pivot directory.
    FlatStep,
    /// A directory created by `mkdir`.
    ExtraDir,
    /// In normal mode, the last component decodes to this point.
    NormalPoint(PointV),
    /// The last component is the display of a tag attached to the matched
    /// points.
    TagDir,
    /// Nothing.
    NotFound,
}

/// The parent inode used to resolve a `@dir` marker: the one the kernel
/// supplied, else the one bound to the path's parent.
pub open spec fn spec_parent_ino(st: FsState, pathv: Seq<Seq<char>>, parent: Option<int>) -> Option<
    int,
> {
    match parent {
        Some(pi) => Some(pi),
        None => if pathv.len() > 0 && st.has_path(pathv.drop_last()) {
            Some(st.ino_of(pathv.drop_last()))
        } else {
            None
        },
    }
}

/// How a path classifies, before any state is touched.
pub open spec fn spec_classify(
    st: FsState,
    index: TagIndex,
    pathv: Seq<Seq<char>>,
    parent: Option<int>,
) -> NodeClass {
    match spec_parse_path(pathv) {
        ParsedPathV::Flattened(filter, flat, combined) => match spec_lookup_point(
            index,
            combined,
        ) {
            Some(p) => NodeClass::PointNode(p),
            None => if flat.len() == 0 {
                NodeClass::FlattenRoot
            } else if flat.len() == 1 && flat[0] == flat_info_tok() {
                NodeClass::FlatInfo(filter)
            } else {
                let parent_query = filter + flat.drop_last();
                if flat.last() == dir_tok() {
                    match spec_parent_ino(st, pathv, parent) {
                        None => NodeClass::NotFound,
                        Some(pi) => if st.has_point_ino(pi) {
                            NodeClass::DirMarker(st.point_of(pi))
                        } else {
                            if flat_step_exists(index, parent_query, flat.last()) {
                                NodeClass::FlatStep
                            } else {
                                NodeClass::NotFound
                            }
                        },
                    }
                } else {
                    if flat_step_exists(index, parent_query, flat.last()) {
                        NodeClass::FlatStep
                    } else {
                        NodeClass::NotFound
                    }
                }
            },
        },
        ParsedPathV::Normal(parts) => {
            if parts.len() == 0 {
                NodeClass::Root
            } else if st.extra_dirs_v().contains(pathv) {
                NodeClass::ExtraDir
            } else {
                match spec_lookup_point(index, pathv) {
                    Some(p) => NodeClass::NormalPoint(p),
                    None => {
                        let ts = index.tags_of_pids(ids_of_points(index.matched_points(parts)));
                        if exists|k: int|
                            0 <= k < ts.len() && spec_format_tag(#[trigger] ts[k])
                                == parts.last() {
                            NodeClass::TagDir
                        } else {
                            NodeClass::NotFound
                        }
                    },
                }
            }
        },
    }
}

/// Look a point up by the encoded name at the end of a path, deciding
/// [`spec_lookup_point`].
fn lookup_point_at(index: &TagIndex, path: &Vec<String>) -> (r: Option<Point>)
    requires
        index.wf(),
    ensures
        match r {
            Some(p) => spec_lookup_point(*index, path.deep_view()) == Some(p@)
                && index.points_v().contains(p@),
            None => spec_lookup_point(*index, path.deep_view()) is None,
        },
{
    match path_id(path) {
        None => None,
        Some(id) => {
            match find_point_by_id(index, id) {
                Some(p) => {
                    proof {
                        index.lemma_point_with_id(p@);
                    }
                    Some(p)
                },
                None => None,
            }
        },
    }
}

/// Membership of a component among a path's components.
#[verifier::loop_isolation(false)]
pub fn contains_component(parts: &Vec<String>, s: &String) -> (r: bool)
    ensures
        r == parts.deep_view().contains(s@),
{
    let n = parts.len();
    for i in 0..n
        invariant
            forall|j: int| 0 <= j < i ==> #[trigger] parts.deep_view()[j] != s@,
    {
        proof {
            assert(parts.deep_view()[i as int] == parts@[i as int]@);
        }
        if parts[i] == *s {
            proof {
                assert(parts.deep_view()[i as int] == s@);
            }
            return true;
        }
    }
    proof {
        if parts.deep_view().contains(s@) {
            let w = choose|w: int|
                0 <= w < parts.deep_view().len() && parts.deep_view()[w] == s@;
            assert(parts.deep_view()[w] == s@);
            assert(false);
        }
    }
    false
}

/// The first distinguishing tag of a point relative to `exclude`, deciding
/// [`min_dist`].
#[verifier::loop_isolation(false)]
pub fn min_dist_exec(index: &TagIndex, point: &Point, exclude: &Vec<String>) -> (r: Option<
    String,
>)
    ensures
        match r {
            Some(d) => min_dist(*index, point@.id, exclude.deep_view()) == Some(d@),
            None => min_dist(*index, point@.id, exclude.deep_view()) is None,
        },
{
    let tags = get_tags_for_point(index, point);
    proof {
        let s1 = ids_of_points(seq![point@]);
        let s2 = single_id(point@.id);
        assert(seq![point@][0] == point@);
        assert forall|x: int| s2.contains(x) implies s1.contains(x) by {
            assert(seq![point@][0].id == x);
        }
        assert forall|x: int| s1.contains(x) implies s2.contains(x) by {
            let i = choose|i: int|
                0 <= i < seq![point@].len() && (#[trigger] seq![point@][i]).id == x;
            assert(i == 0);
        }
        assert(s1 =~= s2);
    }
    let ghost displays = point_tag_displays(*index, point@.id);
    let ghost pred = |d: Seq<char>| !exclude.deep_view().contains(d);
    let nt = tags.len();
    proof {
        assert(displays.len() == nt);
        assert(forall|k: int|
            0 <= k < nt ==> #[trigger] displays[k] == spec_format_tag(tags@[k]@));
        reveal(Seq::filter);
        assert(displays.take(0) =~= Seq::<Seq<char>>::empty());
        assert(Seq::<Seq<char>>::empty().filter(pred) == Seq::<Seq<char>>::empty());
    }
    let mut best: Option<String> = None;
    for ti in 0..nt
        invariant
            match best {
                Some(b) => lex_min_of(displays.take(ti as int).filter(pred)) == Some(b@),
                None => lex_min_of(displays.take(ti as int).filter(pred)) is None,
            },
    {
        let d = format_tag(&tags[ti]);
        proof {
            assert(d@ == displays[ti as int]);
        }
        let skip = contains_component(exclude, &d);
        let ghost t1 = displays.take(ti + 1);
        proof {
            reveal(Seq::filter);
            assert(t1.drop_last() =~= displays.take(ti as int));
            assert(t1.last() == d@);
        }
        if !skip {
            match &best {
                None => {
                    best = Some(d);
                },
                Some(b) => {
                    let bc = chars_of(b.as_str());
                    let dc = chars_of(d.as_str());
                    if chars_le(&bc, &dc) {
                        // keep the current minimum
                    } else {
                        proof {
                            crate::text::lemma_lex_le_total(bc@, dc@);
                        }
                        best = Some(d);
                    }
                },
            }
        }
        proof {
            reveal(Seq::filter);
            let prev = displays.take(ti as int).filter(pred);
            assert(t1.filter(pred) == if pred(d@) {
                prev.push(d@)
            } else {
                prev
            });
            if pred(d@) {
                assert((prev.push(d@)).drop_last() =~= prev);
                assert((prev.push(d@)).last() == d@);
            }
        }
    }
    proof {
        assert(displays.take(nt as int) =~= displays);
    }
    best
}

/// Whether some matched point pivots on `last`, deciding
/// [`flat_step_exists`].
#[verifier::loop_isolation(false)]
pub fn flat_step_exec(index: &TagIndex, parent_query: &Vec<String>, last: &String) -> (r: bool)
    ensures
        r == flat_step_exists(*index, parent_query.deep_view(), last@),
{
    let points = get_points_by_parts(index, parent_query);
    let ghost mp = index.matched_points(parent_query.deep_view());
    let np = points.len();
    proof {
        assert(mp.len() == np);
        assert(forall|k: int| 0 <= k < np ==> #[trigger] mp[k] == points@[k]@);
    }
    for i in 0..np
        invariant
            forall|k: int|
                0 <= k < i ==> min_dist(*index, (#[trigger] mp[k]).id, parent_query.deep_view())
                    != Some(last@),
    {
        match min_dist_exec(index, &points[i], parent_query) {
            Some(d) => {
                if d == *last {
                    proof {
                        assert(min_dist(*index, mp[i as int].id, parent_query.deep_view())
                            == Some(last@));
                    }
                    return true;
                }
            },
            None => {},
        }
        proof {
            assert(min_dist(*index, mp[i as int].id, parent_query.deep_view()) != Some(last@));
        }
    }
    proof {
        if flat_step_exists(*index, parent_query.deep_view(), last@) {
            let k = choose|k: int|
                0 <= k < mp.len() && min_dist(
                    *index,
                    (#[trigger] mp[k]).id,
                    parent_query.deep_view(),
                ) == Some(last@);
            assert(min_dist(*index, mp[k].id, parent_query.deep_view()) == Some(last@));
            assert(false);
        }
    }
    false
}


/// Attributes of a directory node bound by one `new_ino`.
pub open spec fn dir_assign_post(
    o: FsState,
    n: FsState,
    pathv: Seq<Seq<char>>,
    r: Result<FileAttr, FsError>,
) -> bool {
    match r {
        Ok(a) => a.kind == FileKind::Directory && a.size == 0 && crate::attr::fixed_fields(a)
            && assign_rel(o, n, pathv, a.ino as int),
        Err(_) => false,
    }
}

/// Attributes of a symlink node bound by one `new_ino`.
pub open spec fn link_assign_post(
    o: FsState,
    n: FsState,
    pathv: Seq<Seq<char>>,
    r: Result<FileAttr, FsError>,
) -> bool {
    match r {
        Ok(a) => a.kind == FileKind::Symlink && a.size == 0 && crate::attr::fixed_fields(a)
            && assign_rel(o, n, pathv, a.ino as int),
        Err(_) => false,
    }
}

/// Attributes of the `@flat-info` file bound by one `new_ino`.
pub open spec fn flat_info_post(
    o: FsState,
    n: FsState,
    pathv: Seq<Seq<char>>,
    filter: Seq<Seq<char>>,
    r: Result<FileAttr, FsError>,
) -> bool {
    match r {
        Ok(a) => a.kind == FileKind::RegularFile && a.size as int == spec_flat_info_size(filter)
            && a.blocks == 1 && crate::attr::fixed_fields(a) && assign_rel(
            o,
            n,
            pathv,
            a.ino as int,
        ),
        Err(_) => false,
    }
}

/// A node that names a point: one `new_ino` followed by registering the
/// point under the bound inode.
pub open spec fn point_assign_post(
    o: FsState,
    n: FsState,
    pathv: Seq<Seq<char>>,
    p: PointV,
    r: Result<FileAttr, FsError>,
    dir_kind: bool,
) -> bool {
    match r {
        Ok(a) => a.kind == (if dir_kind {
            FileKind::Directory
        } else {
            FileKind::Symlink
        }) && a.size == 0 && crate::attr::fixed_fields(a) && n.has_point_ino(a.ino as int)
            && n.point_of(a.ino as int) == p && exists|mid: FsState|
            assign_rel(o, mid, pathv, a.ino as int) && register_rel(mid, n, a.ino as int, p),
        Err(_) => false,
    }
}


/// How one binding changes the path table alone.
pub open spec fn bind_only_rel(o: FsState, n: FsState, p: Seq<Seq<char>>, ino: int) -> bool {
    if o.has_path(p) {
        ino == o.ino_of(p) && n.bindings_v() == o.bindings_v() && n.next_ino == o.next_ino
    } else {
        ino == o.next_ino && n.bindings_v() == o.bindings_v().push((p, ino)) && n.next_ino
            == o.next_ino + 1
    }
}

/// What resolving a path yields, by its classification against the
/// pre-state.
pub open spec fn resolve_post(
    o: Ffs,
    n: Ffs,
    pathv: Seq<Seq<char>>,
    parent: Option<int>,
    r: Result<FileAttr, FsError>,
) -> bool {
    match spec_classify(o.state, o.index, pathv, parent) {
        NodeClass::Root => r matches Ok(a) && a == (FileAttr {
            ino: 1,
            size: 0,
            blocks: 0,
            kind: FileKind::Directory,
            perm: 0o755,
            nlink: 1,
            uid: 1000,
            gid: 1000,
            rdev: 0,
            flags: 0,
            blksize: 512,
        }) && n == o,
        NodeClass::PointNode(p) => point_assign_post(o.state, n.state, pathv, p, r, p.dir) && (
        r matches Ok(a) ==> n.state.ino_of(pathv) == a.ino as int),
        NodeClass::FlattenRoot => dir_assign_post(o.state, n.state, pathv, r),
        NodeClass::FlatInfo(filter) => flat_info_post(o.state, n.state, pathv, filter, r),
        NodeClass::DirMarker(p) => point_assign_post(o.state, n.state, pathv, p, r, false),
        NodeClass::FlatStep => dir_assign_post(o.state, n.state, pathv, r),
        NodeClass::ExtraDir => dir_assign_post(o.state, n.state, pathv, r),
        NodeClass::NormalPoint(p) => link_assign_post(o.state, n.state, pathv, r),
        NodeClass::TagDir => dir_assign_post(o.state, n.state, pathv, r),
        NodeClass::NotFound => r matches Err(e) && e == FsError::NotFound && n == o,
    }
}

impl Ffs {
    /// Attach a mount to an index.
    pub fn new(index: TagIndex) -> (r: Ffs)
        ensures
            r.state.wf(),
            r.state.next_ino == 2,
            r.state.next_fh == 1,
            r.state.bindings_v() == Seq::<(Seq<Seq<char>>, int)>::empty(),
            r.state.ino_points_v() == Seq::<(int, PointV)>::empty(),
            r.state.fhs_v() == Seq::<(int, Seq<Seq<char>>)>::empty(),
            r.state.extra_dirs_v() == Seq::<Seq<Seq<char>>>::empty(),
            r.state.cache_v() == Seq::<(int, Seq<DirEntryV>)>::empty(),
            r.index == index,
    {
        Ffs { state: crate::fstate::new_fs_state(), index }
    }

    /// The point a path's last component decodes to, if any: the digits
    /// after its final `.` are the authoritative lookup key.
    pub fn lookup_point_by_name(&self, path: &Vec<String>) -> (r: Option<Point>)
        requires
            self.index.wf(),
        ensures
            match r {
                Some(p) => spec_lookup_point(self.index, path.deep_view()) == Some(p@)
                    && self.index.points_v().contains(p@),
                None => spec_lookup_point(self.index, path.deep_view()) is None,
            },
    {
        lookup_point_at(&self.index, path)
    }

    /// Classify a path and produce its synthetic attributes, binding an
    /// inode to it and remembering its point where one is named.  Exactly
    /// the paths that classify resolve; everything else is not found, and
    /// leaves the state untouched.
    #[verifier::loop_isolation(false)]
    #[verifier::rlimit(100)]
    #[verifier::spinoff_prover]
    pub fn internal_lookup(&mut self, path: &Vec<String>, maybe_parent: Option<u64>) -> (r:
        Result<FileAttr, FsError>)
        requires
            old(self).index.wf(),
            old(self).state.wf(),
            old(self).state.next_ino < 0xffff_ffff_ffff_ffffu64,
        ensures
            final(self).index == old(self).index,
            final(self).state.wf(),
            final(self).state.extra_dirs_v() == old(self).state.extra_dirs_v(),
            final(self).state.fhs_v() == old(self).state.fhs_v(),
            final(self).state.cache_v() == old(self).state.cache_v(),
            final(self).state.next_fh == old(self).state.next_fh,
            resolve_post(
                *old(self),
                *final(self),
                path.deep_view(),
                match maybe_parent {
                    Some(pi) => Some(pi as int),
                    None => None,
                },
                r,
            ),
    {
        let ghost stv = old(self).state;
        let ghost parentv: Option<int> = match maybe_parent {
            Some(pi) => Some(pi as int),
            None => None,
        };
        let ghost cls = spec_classify(stv, old(self).index, path.deep_view(), parentv);
        let parsed = parse_path(path);
        match parsed {
            ParsedPath::Flattened(filter, flat, combined) => {
                match lookup_point_at(&self.index, &combined) {
                    Some(point) => {
                        proof {
                            assert(cls == NodeClass::PointNode(point@));
                        }
                        let ino = self.state.new_ino(path);
                        let ghost mid = self.state;
                        self.state.register_point(ino, &point);
                        proof {
                            assert(assign_rel(stv, mid, path.deep_view(), ino as int));
                            assert(register_rel(mid, self.state, ino as int, point@));
                            assert(self.state.ino_of(path.deep_view()) == ino as int) by {
                                assert(mid.has_path(path.deep_view()));
                                assert(self.state.bindings_v() == mid.bindings_v());
                            }
                            assert(exists|m: FsState|
                                assign_rel(stv, m, path.deep_view(), ino as int) && register_rel(
                                    m,
                                    self.state,
                                    ino as int,
                                    point@,
                                )) by {
                                assert(assign_rel(stv, mid, path.deep_view(), ino as int)
                                    && register_rel(mid, self.state, ino as int, point@));
                            }
                        }
                        if point.dir {
                            let a = basic_directory(ino);
                            proof {
                                assert(point_assign_post(
                                    stv,
                                    self.state,
                                    path.deep_view(),
                                    point@,
                                    Ok(a),
                                    point@.dir,
                                ));
                            }
                            return Ok(a);
                        } else {
                            let a = basic_link(ino);
                            proof {
                                assert(point_assign_post(
                                    stv,
                                    self.state,
                                    path.deep_view(),
                                    point@,
                                    Ok(a),
                                    point@.dir,
                                ));
                            }
                            return Ok(a);
                        }
                    },
                    None => {
                        if flat.len() == 0 {
                            proof {
                                assert(cls == NodeClass::FlattenRoot);
                            }
                            let ino = self.state.new_ino(path);
                            return Ok(basic_directory(ino));
                        }
                        let fi = flat_info_tok_str();
                        if flat.len() == 1 && flat[0] == fi {
                            proof {
                                assert(flat.deep_view()[0] == flat@[0]@);
                            }
                            proof {
                                assert(cls == NodeClass::FlatInfo(filter.deep_view()));
                            }
                            let size = flat_info_size(&filter);
                            let ino = self.state.new_ino(path);
                            return Ok(basic_file(ino, size, 1));
                        }
                        proof {
                            assert(!(flat.deep_view().len() == 1 && flat.deep_view()[0]
                                == flat_info_tok())) by {
                                if flat.deep_view().len() == 1 {
                                    assert(flat.deep_view()[0] == flat@[0]@);
                                }
                            }
                        }
                        let nf = flat.len();
                        let flat_parent = sub_parts(&flat, 0, nf - 1);
                        let flat_last = &flat[nf - 1];
                        proof {
                            assert(flat_last@ == flat.deep_view().last());
                            assert(flat.deep_view().subrange(0, nf - 1) =~= flat.deep_view().drop_last());
                        }
                        let mut parent_query = sub_parts(&filter, 0, filter.len());
                        let mut fp2 = sub_parts(&flat, 0, nf - 1);
                        parent_query.append(&mut fp2);
                        proof {
                            assert(filter.deep_view().subrange(0, filter@.len() as int)
                                =~= filter.deep_view());
                            assert(parent_query.deep_view() =~= filter.deep_view()
                                + flat.deep_view().drop_last());
                        }
                        let dt = dir_tok_str();
                        if *flat_last == dt {
                            proof {
                                assert(flat.deep_view().last() == dir_tok());
                            }
                            let parent_ino: Option<u64> = match maybe_parent {
                                Some(pi) => Some(pi),
                                None => {
                                    if path.len() > 0 {
                                        let parent_path = sub_parts(path, 0, path.len() - 1);
                                        proof {
                                            assert(parent_path.deep_view()
                                                =~= path.deep_view().drop_last());
                                        }
                                        match self.state.ino_for_path(&parent_path) {
                                            Some(pi) => Some(pi),
                                            None => None,
                                        }
                                    } else {
                                        None
                                    }
                                },
                            };
                            match parent_ino {
                                None => {
                                    proof {
                                        assert(spec_parent_ino(stv, path.deep_view(), parentv)
                                            is None);
                                        assert(cls == NodeClass::NotFound);
                                    }
                                    return Err(FsError::NotFound);
                                },
                                Some(pi) => {
                                    proof {
                                        assert(spec_parent_ino(stv, path.deep_view(), parentv)
                                            == Some(pi as int));
                                    }
                                    match self.state.point_for_ino(pi) {
                                        Some(point) => {
                                            proof {
                                                assert(cls == NodeClass::DirMarker(point@));
                                            }
                                            let ino = self.state.new_ino(path);
                                            let ghost mid = self.state;
                                            self.state.register_point(ino, &point);
                                            proof {
                                                assert(assign_rel(
                                                    stv,
                                                    mid,
                                                    path.deep_view(),
                                                    ino as int,
                                                ));
                                                assert(exists|m: FsState|
                                                    assign_rel(stv, m, path.deep_view(), ino as int)
                                                        && register_rel(
                                                        m,
                                                        self.state,
                                                        ino as int,
                                                        point@,
                                                    )) by {
                                                    assert(assign_rel(
                                                        stv,
                                                        mid,
                                                        path.deep_view(),
                                                        ino as int,
                                                    ) && register_rel(
                                                        mid,
                                                        self.state,
                                                        ino as int,
                                                        point@,
                                                    ));
                                                }
                                            }
                                            let a = basic_link(ino);
                                            proof {
                                                assert(point_assign_post(
                                                    stv,
                                                    self.state,
                                                    path.deep_view(),
                                                    point@,
                                                    Ok(a),
                                                    false,
                                                ));
                                            }
                                            return Ok(a);
                                        },
                                        None => {
                                            if flat_step_exec(
                                                &self.index,
                                                &parent_query,
                                                flat_last,
                                            ) {
                                                proof {
                                                    assert(cls == NodeClass::FlatStep);
                                                }
                                                let ino = self.state.new_ino(path);
                                                return Ok(basic_directory(ino));
                                            }
                                            proof {
                                                assert(cls == NodeClass::NotFound);
                                            }
                                            return Err(FsError::NotFound);
                                        },
                                    }
                                },
                            }
                        } else {
                            proof {
                                assert(flat.deep_view().last() != dir_tok());
                            }
                            if flat_step_exec(&self.index, &parent_query, flat_last) {
                                proof {
                                    assert(cls == NodeClass::FlatStep);
                                }
                                let ino = self.state.new_ino(path);
                                return Ok(basic_directory(ino));
                            }
                            proof {
                                assert(cls == NodeClass::NotFound);
                            }
                            return Err(FsError::NotFound);
                        }
                    },
                }
            },
            ParsedPath::Normal(parts) => {
                if parts.len() == 0 {
                    proof {
                        assert(cls == NodeClass::Root);
                    }
                    return Ok(basic_directory(1));
                }
                if self.state.is_extra_dir(path) {
                    proof {
                        assert(cls == NodeClass::ExtraDir);
                    }
                    let ino = self.state.new_ino(path);
                    return Ok(basic_directory(ino));
                }
                match lookup_point_at(&self.index, path) {
                    Some(found) => {
                        proof {
                            assert(cls == NodeClass::NormalPoint(found@));
                        }
                        let ino = self.state.new_ino(path);
                        return Ok(basic_link(ino));
                    },
                    None => {
                        let points = get_points_by_parts(&self.index, &parts);
                        let tags = get_tags_for_points(&self.index, &points);
                        let ghost ts = self.index.tags_of_pids(
                            ids_of_points(self.index.matched_points(parts.deep_view())),
                        );
                        let nt = tags.len();
                        proof {
                            assert(ts.len() == nt);
                            assert(forall|k: int| 0 <= k < nt ==> #[trigger] ts[k] == tags@[k]@);
                        }
                        let name = &parts[parts.len() - 1];
                        proof {
                            assert(name@ == parts.deep_view().last());
                        }
                        for k in 0..nt
                            invariant
                                *self == *old(self),
                                forall|j: int|
                                    0 <= j < k ==> spec_format_tag(#[trigger] ts[j])
                                        != parts.deep_view().last(),
                        {
                            let d = format_tag(&tags[k]);
                            if d == *name {
                                proof {
                                    assert(spec_format_tag(ts[k as int])
                                        == parts.deep_view().last());
                                    assert(cls == NodeClass::TagDir);
                                }
                                let ino = self.state.new_ino(path);
                                return Ok(basic_directory(ino));
                            }
                            proof {
                                assert(spec_format_tag(ts[k as int]) != parts.deep_view().last());
                            }
                        }
                        proof {
                            assert(cls == NodeClass::NotFound);
                        }
                        return Err(FsError::NotFound);
                    },
                }
            },
        }
    }
}


// ---------------------------------------------------------------------------
// Directory listings
// ---------------------------------------------------------------------------

/// The entry name `.`.
pub open spec fn dot() -> Seq<char> {
    seq!['.']
}

/// The entry name `..`.
pub open spec fn dotdot() -> Seq<char> {
    seq!['.', '.']
}

/// The children contributed by the matched points of a flattened listing:
/// each point pivots on its first distinguishing tag (listed once across
/// points), and a point with none left appears itself when it has a
/// backing path.
pub open spec fn spec_flat_children(
    index: TagIndex,
    points: Seq<PointV>,
    combined: Seq<Seq<char>>,
    added: Seq<Seq<char>>,
) -> Seq<(FileKind, Seq<char>)>
    decreases points.len(),
{
    if points.len() == 0 {
        Seq::empty()
    } else {
        let p = points[0];
        let rest = points.drop_first();
        match min_dist(index, p.id, combined) {
            Some(d) => if added.contains(d) {
                spec_flat_children(index, rest, combined, added)
            } else {
                seq![(FileKind::Directory, d)] + spec_flat_children(
                    index,
                    rest,
                    combined,
                    added.push(d),
                )
            },
            None => if p.path is Some {
                seq![(FileKind::Symlink, spec_point_name(p))] + spec_flat_children(
                    index,
                    rest,
                    combined,
                    added,
                )
            } else {
                spec_flat_children(index, rest, combined, added)
            },
        }
    }
}

/// The extra directories whose parent is `parts`, taken from the first
/// `upto` recorded, as directory entries named by their last component.
pub open spec fn spec_extra_children(st: FsState, parts: Seq<Seq<char>>, upto: int) -> Seq<
    (FileKind, Seq<char>),
> {
    st.extra_dirs_v().take(upto).filter(
        |d: Seq<Seq<char>>| d.len() > 0 && d.drop_last() == parts,
    ).map_values(|d: Seq<Seq<char>>| (FileKind::Directory, d.last()))
}

/// The first `upto` points that have a backing path, as symlink entries
/// under their rendered names.
pub open spec fn spec_point_children(ps: Seq<PointV>, upto: int) -> Seq<(FileKind, Seq<char>)> {
    ps.take(upto).filter(|p: PointV| p.path is Some).map_values(
        |p: PointV| (FileKind::Symlink, spec_point_name(p)),
    )
}

/// A point entry of a listing names a backing point of the list.
pub proof fn lemma_point_children_elem(ps: Seq<PointV>, e: (FileKind, Seq<char>))
    requires
        spec_point_children(ps, ps.len() as int).contains(e),
    ensures
        exists|w: int|
            0 <= w < ps.len() && (#[trigger] ps[w]).path is Some && e == (
                FileKind::Symlink,
                spec_point_name(ps[w]),
            ),
{
    broadcast use vstd::seq_lib::group_filter_ensures;

    assert(ps.take(ps.len() as int) =~= ps);
    let fseq = ps.take(ps.len() as int).filter(|p: PointV| p.path is Some);
    let i = choose|i: int|
        0 <= i < spec_point_children(ps, ps.len() as int).len() && spec_point_children(
            ps,
            ps.len() as int,
        )[i] == e;
    let p = fseq[i];
    assert(e == (FileKind::Symlink, spec_point_name(p)));
    assert((|p: PointV| p.path is Some)(p)) by {
        assert(0 <= i < fseq.len());
    }
    assert(ps.contains(p)) by {
        assert(fseq.contains(p));
        ps.take(ps.len() as int).lemma_filter_contains_rev(|p: PointV| p.path is Some, p);
        assert(ps.take(ps.len() as int).contains(p));
    }
    let w = choose|w: int| 0 <= w < ps.len() && ps[w] == p;
    assert(ps[w].path is Some && e == (FileKind::Symlink, spec_point_name(ps[w])));
}

/// A backing point of the list contributes its point entry to the listing.
pub proof fn lemma_point_children_intro(ps: Seq<PointV>, w: int)
    requires
        0 <= w < ps.len(),
        ps[w].path is Some,
    ensures
        spec_point_children(ps, ps.len() as int).contains(
            (FileKind::Symlink, spec_point_name(ps[w])),
        ),
{
    broadcast use vstd::seq_lib::group_filter_ensures;

    assert(ps.take(ps.len() as int) =~= ps);
    let fseq = ps.take(ps.len() as int).filter(|p: PointV| p.path is Some);
    assert(fseq.contains(ps[w])) by {
        assert((|p: PointV| p.path is Some)(ps.take(ps.len() as int)[w]));
    }
    let i = choose|i: int| 0 <= i < fseq.len() && fseq[i] == ps[w];
    assert(spec_point_children(ps, ps.len() as int)[i] == (
        FileKind::Symlink,
        spec_point_name(ps[w]),
    ));
}

/// The displays of the first `upto` tags that `parts` does not already
/// name, as directory entries.
pub open spec fn spec_tag_children(ts: Seq<TagV>, parts: Seq<Seq<char>>, upto: int) -> Seq<
    (FileKind, Seq<char>),
> {
    ts.take(upto).map_values(|t: TagV| spec_format_tag(t)).filter(
        |d: Seq<char>| !parts.contains(d),
    ).map_values(|d: Seq<char>| (FileKind::Directory, d))
}

/// The children of a normal-mode listing: the `@flatten` directory, the
/// extra directories created here, the matched points with a backing path,
/// and the display of every tag of the matched points that the path does
/// not already name.
pub open spec fn spec_normal_children(
    st: FsState,
    index: TagIndex,
    parts: Seq<Seq<char>>,
) -> Seq<(FileKind, Seq<char>)> {
    seq![(FileKind::Directory, flatten_tok())] + spec_extra_children(
        st,
        parts,
        st.extra_dirs_v().len() as int,
    ) + spec_point_children(index.matched_points(parts), index.matched_points(parts).len() as int)
        + spec_tag_children(
        index.tags_of_pids(ids_of_points(index.matched_points(parts))),
        parts,
        index.tags_of_pids(ids_of_points(index.matched_points(parts))).len() as int,
    )
}

/// What listing a path yields.
pub ghost enum ListingV {
    Entries(Seq<(FileKind, Seq<char>)>),
    NotDirectory,
}

/// The ordered names and kinds of a directory's listing: the dot entries,
/// then the synthetic children of its mode.
pub open spec fn spec_listing(st: FsState, index: TagIndex, pathv: Seq<Seq<char>>) -> ListingV {
    let dots = seq![(FileKind::Directory, dot()), (FileKind::Directory, dotdot())];
    match spec_parse_path(pathv) {
        ParsedPathV::Flattened(filter, flat, combined) => {
            let pre = dots + if flat.len() == 0 {
                seq![(FileKind::RegularFile, flat_info_tok())]
            } else {
                Seq::empty()
            };
            match spec_lookup_point(index, combined) {
                Some(p) => if !p.dir {
                    ListingV::NotDirectory
                } else {
                    ListingV::Entries(pre + seq![(FileKind::RegularFile, dir_tok())])
                },
                None => ListingV::Entries(
                    pre + spec_flat_children(
                        index,
                        index.matched_points(combined),
                        combined,
                        Seq::empty(),
                    ),
                ),
            }
        },
        ParsedPathV::Normal(parts) => ListingV::Entries(
            dots + spec_normal_children(st, index, parts),
        ),
    }
}

/// The names and kinds of a sequence of entries.
pub open spec fn entry_names(es: Seq<DirEntryV>) -> Seq<(FileKind, Seq<char>)> {
    es.map_values(|e: DirEntryV| (e.kind, e.name))
}

/// Every entry's inode: 1 for the two dot entries, the inode bound to the
/// child path for everything else.
pub open spec fn entry_inos_ok(st: FsState, pathv: Seq<Seq<char>>, es: Seq<DirEntryV>) -> bool {
    forall|k: int|
        0 <= k < es.len() ==> (if k < 2 {
            (#[trigger] es[k]).ino == 1
        } else {
            st.has_path(pathv.push(es[k].name)) && es[k].ino == st.ino_of(pathv.push(es[k].name))
        })
}

/// A bound path keeps its inode when the bindings are extended.
pub proof fn lemma_bindings_extend(o: FsState, n: FsState, q: Seq<Seq<char>>)
    requires
        o.wf(),
        n.wf(),
        o.has_path(q),
        o.bindings_v().is_prefix_of(n.bindings_v()),
    ensures
        n.has_path(q),
        n.ino_of(q) == o.ino_of(q),
{
    let w = choose|w: int|
        0 <= w < o.bindings_v().len() && (#[trigger] o.bindings_v()[w]).0 == q;
    assert(n.bindings_v().take(o.bindings_v().len() as int) == o.bindings_v());
    assert(n.bindings_v()[w] == o.bindings_v()[w]);
    assert(n.has_path(q));
    let w2 = choose|w2: int|
        0 <= w2 < n.bindings_v().len() && (#[trigger] n.bindings_v()[w2]).0 == q;
    if w2 != w {
        assert(n.bindings_v()[w2].0 == n.bindings_v()[w].0);
        assert(false);
    }
    let wo = choose|wo: int|
        0 <= wo < o.bindings_v().len() && (#[trigger] o.bindings_v()[wo]).0 == q;
    if wo != w {
        assert(o.bindings_v()[wo].0 == o.bindings_v()[w].0);
        assert(false);
    }
}




/// The entry `.` or `..`, with inode 1.
fn dot_entry(second: bool) -> (r: DirEntry)
    ensures
        r@.ino == 1,
        r@.kind == FileKind::Directory,
        r@.name == if second {
            dotdot()
        } else {
            dot()
        },
{
    if second {
        let s = String::from_str("..");
        proof {
            reveal_strlit("..");
            assert(s@ =~= dotdot());
        }
        DirEntry { ino: 1, kind: FileKind::Directory, name: s }
    } else {
        let s = String::from_str(".");
        proof {
            reveal_strlit(".");
            assert(s@ =~= dot());
        }
        DirEntry { ino: 1, kind: FileKind::Directory, name: s }
    }
}

impl Ffs {
    /// Append the extra directories whose parent is `path`.
    #[verifier::loop_isolation(false)]
    #[verifier::rlimit(100)]
    #[verifier::spinoff_prover]
    fn add_extra_dir_entries(&mut self, path: &Vec<String>, entries: &mut Vec<DirEntry>)
        requires
            old(self).index.wf(),
            old(self).state.wf(),
            old(self).state.next_ino + old(self).state.extra_dirs@.len()
                < 0xffff_ffff_ffff_ffffu64,
            old(entries)@.len() >= 2,
            entry_inos_ok(
                old(self).state,
                path.deep_view(),
                old(entries)@.map_values(|e: DirEntry| e@),
            ),
        ensures
            final(self).index == old(self).index,
            final(self).state.wf(),
            final(self).state.extra_dirs_v() == old(self).state.extra_dirs_v(),
            final(self).state.fhs_v() == old(self).state.fhs_v(),
            final(self).state.cache_v() == old(self).state.cache_v(),
            final(self).state.next_fh == old(self).state.next_fh,
            old(self).state.bindings_v().is_prefix_of(final(self).state.bindings_v()),
            final(self).state.next_ino <= old(self).state.next_ino + final(entries)@.len() - old(
                entries,
            )@.len(),
            entry_names(final(entries)@.map_values(|e: DirEntry| e@)) == entry_names(
                old(entries)@.map_values(|e: DirEntry| e@),
            ) + spec_extra_children(
                old(self).state,
                path.deep_view(),
                old(self).state.extra_dirs_v().len() as int,
            ),
            entry_inos_ok(
                final(self).state,
                path.deep_view(),
                final(entries)@.map_values(|e: DirEntry| e@),
            ),
    {
        proof {
            self.state.lemma_views();
        }
        let ghost stv = old(self).state;
        let ghost pathv = path.deep_view();
        let ghost base = old(entries)@.map_values(|e: DirEntry| e@);
        let exd = self.state.extra_dirs_snapshot();
        let nx = exd.len();
        proof {
            reveal(Seq::filter);
            assert(stv.extra_dirs_v().take(0) =~= Seq::<Seq<Seq<char>>>::empty());
            assert(spec_extra_children(stv, pathv, 0) =~= Seq::<(FileKind, Seq<char>)>::empty());
            assert(stv.bindings_v().take(stv.bindings_v().len() as int) =~= stv.bindings_v());
            assert(entry_names(entries@.map_values(|e: DirEntry| e@)) =~= entry_names(base)
                + spec_extra_children(stv, pathv, 0));
        }
        for i in 0..nx
            invariant
                self.index == old(self).index,
                self.state.wf(),
                self.state.extra_dirs_v() == stv.extra_dirs_v(),
                self.state.fhs_v() == stv.fhs_v(),
                self.state.cache_v() == stv.cache_v(),
                self.state.next_fh == stv.next_fh,
                stv.bindings_v().is_prefix_of(self.state.bindings_v()),
                entries@.len() >= 2,
                entries@.len() - base.len() <= i,
                self.state.next_ino <= stv.next_ino + entries@.len() - base.len(),
                entry_names(entries@.map_values(|e: DirEntry| e@)) == entry_names(base)
                    + spec_extra_children(stv, pathv, i as int),
                entry_inos_ok(self.state, pathv, entries@.map_values(|e: DirEntry| e@)),
        {
            proof {
                assert(exd.deep_view()[i as int] == exd@[i as int].deep_view());
            }
            let d = &exd[i];
            let dn = d.len();
            let ghost t1 = stv.extra_dirs_v().take(i + 1);
            proof {
                reveal(Seq::filter);
                assert(t1.drop_last() =~= stv.extra_dirs_v().take(i as int));
                assert(t1.last() == exd.deep_view()[i as int]);
            }
            let mut matched = false;
            if dn > 0 {
                let parent = sub_parts(d, 0, dn - 1);
                proof {
                    assert(parent.deep_view() =~= d.deep_view().drop_last());
                }
                if crate::fstate::paths_equal(&parent, path) {
                    matched = true;
                    let name = &d[dn - 1];
                    proof {
                        assert(name@ == exd.deep_view()[i as int].last());
                    }
                    let child2 = crate::paths::push_component(path, name);
                    let ghost pre = self.state;
                    let ino2 = self.state.new_ino(&child2);
                    let ghost olde = entries@.map_values(|e: DirEntry| e@);
                    entries.push(
                        DirEntry { ino: ino2, kind: FileKind::Directory, name: name.clone() },
                    );
                    proof {
                        assert(stv.bindings_v().is_prefix_of(self.state.bindings_v())) by {
                            assert(self.state.bindings_v().take(stv.bindings_v().len() as int)
                                =~= stv.bindings_v());
                        }
                        assert(pre.bindings_v().is_prefix_of(self.state.bindings_v())) by {
                            assert(self.state.bindings_v().take(pre.bindings_v().len() as int)
                                =~= pre.bindings_v());
                        }
                        let es2 = entries@.map_values(|e: DirEntry| e@);
                        assert(es2 =~= olde.push(
                            DirEntryV {
                                ino: ino2 as int,
                                kind: FileKind::Directory,
                                name: name@,
                            },
                        ));
                        assert(entry_names(es2) =~= entry_names(olde).push(
                            (FileKind::Directory, name@),
                        ));
                        assert(spec_extra_children(stv, pathv, i + 1) =~= spec_extra_children(
                            stv,
                            pathv,
                            i as int,
                        ).push((FileKind::Directory, name@)));
                        assert(entry_names(es2) =~= entry_names(base) + spec_extra_children(
                            stv,
                            pathv,
                            i + 1,
                        ));
                        assert forall|k: int| 0 <= k < es2.len() implies (if k < 2 {
                            (#[trigger] es2[k]).ino == 1
                        } else {
                            self.state.has_path(pathv.push(es2[k].name)) && es2[k].ino
                                == self.state.ino_of(pathv.push(es2[k].name))
                        }) by {
                            if k < es2.len() - 1 {
                                assert(es2[k] == olde[k]);
                                if k >= 2 {
                                    lemma_bindings_extend(
                                        pre,
                                        self.state,
                                        pathv.push(olde[k].name),
                                    );
                                }
                            }
                        }
                        assert(entry_inos_ok(self.state, pathv, es2));
                    }
                }
            }
            if !matched {
                proof {
                    reveal(Seq::filter);
                    assert(spec_extra_children(stv, pathv, i + 1) == spec_extra_children(
                        stv,
                        pathv,
                        i as int,
                    ));
                }
            }
        }
        proof {
            assert(base.len() == old(entries)@.len());
            assert(spec_extra_children(stv, pathv, nx as int) == spec_extra_children(
                stv,
                pathv,
                stv.extra_dirs_v().len() as int,
            ));
        }
    }

    /// Append the matched points that have a backing path, as symlinks,
    /// remembering each point under its inode.
    #[verifier::loop_isolation(false)]
    #[verifier::rlimit(100)]
    #[verifier::spinoff_prover]
    fn add_point_entries(&mut self, path: &Vec<String>, points: &Vec<Point>, entries: &mut Vec<
        DirEntry,
    >)
        requires
            old(self).index.wf(),
            old(self).state.wf(),
            old(self).state.next_ino + points@.len() < 0xffff_ffff_ffff_ffffu64,
            old(entries)@.len() >= 2,
            entry_inos_ok(
                old(self).state,
                path.deep_view(),
                old(entries)@.map_values(|e: DirEntry| e@),
            ),
        ensures
            final(self).index == old(self).index,
            final(self).state.wf(),
            final(self).state.extra_dirs_v() == old(self).state.extra_dirs_v(),
            final(self).state.fhs_v() == old(self).state.fhs_v(),
            final(self).state.cache_v() == old(self).state.cache_v(),
            final(self).state.next_fh == old(self).state.next_fh,
            old(self).state.bindings_v().is_prefix_of(final(self).state.bindings_v()),
            final(self).state.next_ino <= old(self).state.next_ino + final(entries)@.len() - old(
                entries,
            )@.len(),
            entry_names(final(entries)@.map_values(|e: DirEntry| e@)) == entry_names(
                old(entries)@.map_values(|e: DirEntry| e@),
            ) + spec_point_children(points@.map_values(|p: Point| p@), points@.len() as int),
            entry_inos_ok(
                final(self).state,
                path.deep_view(),
                final(entries)@.map_values(|e: DirEntry| e@),
            ),
    {
        let ghost stv = old(self).state;
        let ghost pathv = path.deep_view();
        let ghost base = old(entries)@.map_values(|e: DirEntry| e@);
        let ghost mp = points@.map_values(|p: Point| p@);
        let np = points.len();
        proof {
            reveal(Seq::filter);
            assert(mp.take(0) =~= Seq::<PointV>::empty());
            assert(spec_point_children(mp, 0) =~= Seq::<(FileKind, Seq<char>)>::empty());
            assert(stv.bindings_v().take(stv.bindings_v().len() as int) =~= stv.bindings_v());
            assert(entry_names(entries@.map_values(|e: DirEntry| e@)) =~= entry_names(base)
                + spec_point_children(mp, 0));
        }
        for i in 0..np
            invariant
                self.index == old(self).index,
                self.state.wf(),
                self.state.extra_dirs_v() == stv.extra_dirs_v(),
                self.state.fhs_v() == stv.fhs_v(),
                self.state.cache_v() == stv.cache_v(),
                self.state.next_fh == stv.next_fh,
                stv.bindings_v().is_prefix_of(self.state.bindings_v()),
                entries@.len() >= 2,
                entries@.len() - base.len() <= i,
                self.state.next_ino <= stv.next_ino + entries@.len() - base.len(),
                entry_names(entries@.map_values(|e: DirEntry| e@)) == entry_names(base)
                    + spec_point_children(mp, i as int),
                entry_inos_ok(self.state, pathv, entries@.map_values(|e: DirEntry| e@)),
        {
            let p = &points[i];
            let ghost t1 = mp.take(i + 1);
            proof {
                reveal(Seq::filter);
                assert(t1.drop_last() =~= mp.take(i as int));
                assert(t1.last() == p@);
            }
            let has_backing = match &p.path {
                Some(_) => true,
                None => false,
            };
            if has_backing {
                let name = point_full_name(p);
                let child2 = crate::paths::push_component(path, &name);
                let ghost pre = self.state;
                let ino2 = self.state.new_ino(&child2);
                let ghost mid = self.state;
                self.state.register_point(ino2, p);
                let ghost olde = entries@.map_values(|e: DirEntry| e@);
                entries.push(DirEntry { ino: ino2, kind: FileKind::Symlink, name });
                proof {
                    assert(self.state.bindings_v() == mid.bindings_v());
                    assert(stv.bindings_v().is_prefix_of(self.state.bindings_v())) by {
                        assert(self.state.bindings_v().take(stv.bindings_v().len() as int)
                            =~= stv.bindings_v());
                    }
                    assert(pre.bindings_v().is_prefix_of(self.state.bindings_v())) by {
                        assert(self.state.bindings_v().take(pre.bindings_v().len() as int)
                            =~= pre.bindings_v());
                    }
                    assert(self.state.has_path(child2.deep_view()) && self.state.ino_of(
                        child2.deep_view(),
                    ) == ino2 as int) by {
                        assert(mid.bindings_v().is_prefix_of(self.state.bindings_v())) by {
                            assert(self.state.bindings_v().take(mid.bindings_v().len() as int)
                                =~= mid.bindings_v());
                        }
                        lemma_bindings_extend(mid, self.state, child2.deep_view());
                    }
                    let es2 = entries@.map_values(|e: DirEntry| e@);
                    assert(es2 =~= olde.push(
                        DirEntryV {
                            ino: ino2 as int,
                            kind: FileKind::Symlink,
                            name: spec_point_name(p@),
                        },
                    ));
                    assert(entry_names(es2) =~= entry_names(olde).push(
                        (FileKind::Symlink, spec_point_name(p@)),
                    ));
                    assert(spec_point_children(mp, i + 1) =~= spec_point_children(
                        mp,
                        i as int,
                    ).push((FileKind::Symlink, spec_point_name(p@))));
                    assert(entry_names(es2) =~= entry_names(base) + spec_point_children(
                        mp,
                        i + 1,
                    ));
                    assert forall|k: int| 0 <= k < es2.len() implies (if k < 2 {
                        (#[trigger] es2[k]).ino == 1
                    } else {
                        self.state.has_path(pathv.push(es2[k].name)) && es2[k].ino
                            == self.state.ino_of(pathv.push(es2[k].name))
                    }) by {
                        if k < es2.len() - 1 {
                            assert(es2[k] == olde[k]);
                            if k >= 2 {
                                lemma_bindings_extend(pre, self.state, pathv.push(olde[k].name));
                            }
                        }
                    }
                    assert(entry_inos_ok(self.state, pathv, es2));
                }
            } else {
                proof {
                    reveal(Seq::filter);
                    assert(spec_point_children(mp, i + 1) == spec_point_children(mp, i as int));
                }
            }
        }
        proof {
            assert(base.len() == old(entries)@.len());
            assert(spec_point_children(mp, np as int) == spec_point_children(
                mp,
                points@.len() as int,
            ));
        }
    }

    /// Append a directory entry for every tag display the path does not
    /// already name.
    #[verifier::loop_isolation(false)]
    #[verifier::rlimit(100)]
    #[verifier::spinoff_prover]
    fn add_tag_entries(&mut self, path: &Vec<String>, tags: &Vec<Tag>, entries: &mut Vec<
        DirEntry,
    >)
        requires
            old(self).index.wf(),
            old(self).state.wf(),
            old(self).state.next_ino + tags@.len() < 0xffff_ffff_ffff_ffffu64,
            old(entries)@.len() >= 2,
            entry_inos_ok(
                old(self).state,
                path.deep_view(),
                old(entries)@.map_values(|e: DirEntry| e@),
            ),
        ensures
            final(self).index == old(self).index,
            final(self).state.wf(),
            final(self).state.extra_dirs_v() == old(self).state.extra_dirs_v(),
            final(self).state.fhs_v() == old(self).state.fhs_v(),
            final(self).state.cache_v() == old(self).state.cache_v(),
            final(self).state.next_fh == old(self).state.next_fh,
            old(self).state.bindings_v().is_prefix_of(final(self).state.bindings_v()),
            final(self).state.next_ino <= old(self).state.next_ino + final(entries)@.len() - old(
                entries,
            )@.len(),
            entry_names(final(entries)@.map_values(|e: DirEntry| e@)) == entry_names(
                old(entries)@.map_values(|e: DirEntry| e@),
            ) + spec_tag_children(
                tags@.map_values(|t: Tag| t@),
                path.deep_view(),
                tags@.len() as int,
            ),
            entry_inos_ok(
                final(self).state,
                path.deep_view(),
                final(entries)@.map_values(|e: DirEntry| e@),
            ),
    {
        let ghost stv = old(self).state;
        let ghost pathv = path.deep_view();
        let ghost base = old(entries)@.map_values(|e: DirEntry| e@);
        let ghost tsv = tags@.map_values(|t: Tag| t@);
        let nt = tags.len();
        proof {
            reveal(Seq::filter);
            assert(tsv.take(0) =~= Seq::<TagV>::empty());
            assert(tsv.take(0).map_values(|t: TagV| spec_format_tag(t)) =~= Seq::<
                Seq<char>,
            >::empty());
            assert(spec_tag_children(tsv, pathv, 0) =~= Seq::<(FileKind, Seq<char>)>::empty());
            assert(stv.bindings_v().take(stv.bindings_v().len() as int) =~= stv.bindings_v());
            assert(entry_names(entries@.map_values(|e: DirEntry| e@)) =~= entry_names(base)
                + spec_tag_children(tsv, pathv, 0));
        }
        for i in 0..nt
            invariant
                self.index == old(self).index,
                self.state.wf(),
                self.state.extra_dirs_v() == stv.extra_dirs_v(),
                self.state.fhs_v() == stv.fhs_v(),
                self.state.cache_v() == stv.cache_v(),
                self.state.next_fh == stv.next_fh,
                stv.bindings_v().is_prefix_of(self.state.bindings_v()),
                entries@.len() >= 2,
                entries@.len() - base.len() <= i,
                self.state.next_ino <= stv.next_ino + entries@.len() - base.len(),
                entry_names(entries@.map_values(|e: DirEntry| e@)) == entry_names(base)
                    + spec_tag_children(tsv, pathv, i as int),
                entry_inos_ok(self.state, pathv, entries@.map_values(|e: DirEntry| e@)),
        {
            let d = format_tag(&tags[i]);
            proof {
                assert(tsv[i as int] == tags@[i as int]@);
                assert(d@ == spec_format_tag(tsv[i as int]));
            }
            let ghost td1 = tsv.take(i + 1).map_values(|t: TagV| spec_format_tag(t));
            let ghost td0 = tsv.take(i as int).map_values(|t: TagV| spec_format_tag(t));
            proof {
                reveal(Seq::filter);
                assert(td1.drop_last() =~= td0);
                assert(td1.last() == d@);
            }
            let already = contains_component(path, &d);
            if !already {
                let child2 = crate::paths::push_component(path, &d);
                let ghost pre = self.state;
                let ino2 = self.state.new_ino(&child2);
                let ghost olde = entries@.map_values(|e: DirEntry| e@);
                entries.push(DirEntry { ino: ino2, kind: FileKind::Directory, name: d });
                proof {
                    assert(stv.bindings_v().is_prefix_of(self.state.bindings_v())) by {
                        assert(self.state.bindings_v().take(stv.bindings_v().len() as int)
                            =~= stv.bindings_v());
                    }
                    assert(pre.bindings_v().is_prefix_of(self.state.bindings_v())) by {
                        assert(self.state.bindings_v().take(pre.bindings_v().len() as int)
                            =~= pre.bindings_v());
                    }
                    let es2 = entries@.map_values(|e: DirEntry| e@);
                    assert(es2 =~= olde.push(
                        DirEntryV {
                            ino: ino2 as int,
                            kind: FileKind::Directory,
                            name: spec_format_tag(tsv[i as int]),
                        },
                    ));
                    assert(entry_names(es2) =~= entry_names(olde).push(
                        (FileKind::Directory, spec_format_tag(tsv[i as int])),
                    ));
                    assert(spec_tag_children(tsv, pathv, i + 1) =~= spec_tag_children(
                        tsv,
                        pathv,
                        i as int,
                    ).push((FileKind::Directory, spec_format_tag(tsv[i as int])))) by {
                        reveal(Seq::filter);
                        assert(td1.filter(|dd: Seq<char>| !pathv.contains(dd)) == td0.filter(
                            |dd: Seq<char>| !pathv.contains(dd),
                        ).push(d@));
                    }
                    assert(entry_names(es2) =~= entry_names(base) + spec_tag_children(
                        tsv,
                        pathv,
                        i + 1,
                    ));
                    assert forall|k: int| 0 <= k < es2.len() implies (if k < 2 {
                        (#[trigger] es2[k]).ino == 1
                    } else {
                        self.state.has_path(pathv.push(es2[k].name)) && es2[k].ino
                            == self.state.ino_of(pathv.push(es2[k].name))
                    }) by {
                        if k < es2.len() - 1 {
                            assert(es2[k] == olde[k]);
                            if k >= 2 {
                                lemma_bindings_extend(pre, self.state, pathv.push(olde[k].name));
                            }
                        }
                    }
                    assert(entry_inos_ok(self.state, pathv, es2));
                }
            } else {
                proof {
                    reveal(Seq::filter);
                    assert(spec_tag_children(tsv, pathv, i + 1) == spec_tag_children(
                        tsv,
                        pathv,
                        i as int,
                    )) by {
                        reveal(Seq::filter);
                        assert(td1.filter(|dd: Seq<char>| !pathv.contains(dd)) == td0.filter(
                            |dd: Seq<char>| !pathv.contains(dd),
                        ));
                    }
                }
            }
        }
        proof {
            assert(base.len() == old(entries)@.len());
            assert(spec_tag_children(tsv, pathv, nt as int) == spec_tag_children(
                tsv,
                pathv,
                tags@.len() as int,
            ));
        }
    }

    /// Build the listing of a normal-mode path.
    #[verifier::loop_isolation(false)]
    #[verifier::rlimit(100)]
    #[verifier::spinoff_prover]
    fn compute_normal_entries(&mut self, path: &Vec<String>) -> (r: Vec<DirEntry>)
        requires
            old(self).index.wf(),
            old(self).state.wf(),
            old(self).state.next_ino < 0x8000_0000_0000_0000u64,
            old(self).index.points@.len() < 0x7fff_ffff,
            old(self).index.tags@.len() < 0x7fff_ffff,
            old(self).state.extra_dirs@.len() < 0x7fff_ffff,
        ensures
            final(self).index == old(self).index,
            final(self).state.wf(),
            final(self).state.extra_dirs_v() == old(self).state.extra_dirs_v(),
            final(self).state.fhs_v() == old(self).state.fhs_v(),
            final(self).state.cache_v() == old(self).state.cache_v(),
            final(self).state.next_fh == old(self).state.next_fh,
            old(self).state.bindings_v().is_prefix_of(final(self).state.bindings_v()),
            entry_names(r@.map_values(|e: DirEntry| e@)) == seq![
                (FileKind::Directory, dot()),
                (FileKind::Directory, dotdot()),
            ] + spec_normal_children(old(self).state, old(self).index, path.deep_view()),
            entry_inos_ok(final(self).state, path.deep_view(), r@.map_values(|e: DirEntry| e@)),
    {
        proof {
            self.state.lemma_views();
            self.index.lemma_views();
        }
        let ghost stv = old(self).state;
        let ghost pathv = path.deep_view();
        let ghost dots2: Seq<(FileKind, Seq<char>)> = seq![
            (FileKind::Directory, dot()),
            (FileKind::Directory, dotdot()),
        ];
        let mut entries: Vec<DirEntry> = Vec::new();
        entries.push(dot_entry(false));
        entries.push(dot_entry(true));
        proof {
            assert(entry_names(entries@.map_values(|e: DirEntry| e@)) =~= dots2);
            assert(entry_inos_ok(stv, pathv, entries@.map_values(|e: DirEntry| e@)));
        }
        let ftok = flatten_tok_str();
        let child = crate::paths::push_component(path, &ftok);
        let fino = self.state.new_ino(&child);
        entries.push(DirEntry { ino: fino, kind: FileKind::Directory, name: ftok });
        let ghost fl1: Seq<(FileKind, Seq<char>)> = seq![(FileKind::Directory, flatten_tok())];
        let ghost st1 = self.state;
        proof {
            assert(stv.bindings_v().is_prefix_of(st1.bindings_v())) by {
                assert(st1.bindings_v().take(stv.bindings_v().len() as int)
                    =~= stv.bindings_v());
            }
            assert(entry_names(entries@.map_values(|e: DirEntry| e@)) =~= dots2 + fl1);
            assert(entry_inos_ok(st1, pathv, entries@.map_values(|e: DirEntry| e@)));
        }
        let ghost names1 = entry_names(entries@.map_values(|e: DirEntry| e@));
        proof {
            self.state.lemma_views();
            assert(st1.next_ino <= stv.next_ino + 1);
            assert(st1.extra_dirs@.len() == stv.extra_dirs_v().len());
        }
        self.add_extra_dir_entries(path, &mut entries);
        let ghost st2 = self.state;
        let ghost names2 = entry_names(entries@.map_values(|e: DirEntry| e@));
        let points = get_points_by_parts(&self.index, path);
        proof {
            assert(points@.map_values(|p: Point| p@) == self.index.matched_points(pathv));
            self.index.lemma_views();
            assert(spec_extra_children(
                st1,
                pathv,
                st1.extra_dirs_v().len() as int,
            ).len() <= st1.extra_dirs_v().len()) by {
                Seq::lemma_filter_len(
                    st1.extra_dirs_v().take(st1.extra_dirs_v().len() as int),
                    |d: Seq<Seq<char>>| d.len() > 0 && d.drop_last() == pathv,
                );
            }
            assert(self.index.matched_points(pathv).len() <= self.index.points_v().len()) by {
                Seq::lemma_filter_len(
                    self.index.points_v(),
                    |p: PointV| self.index.matched_ids(pathv).contains(p.id),
                );
            }
            assert(names2.len() == names1.len() + spec_extra_children(
                st1,
                pathv,
                st1.extra_dirs_v().len() as int,
            ).len());
            assert(st2.next_ino <= st1.next_ino + (names2.len() - names1.len()));
            assert(st2.next_ino <= stv.next_ino + 1 + stv.extra_dirs_v().len());
            assert(points@.len() == self.index.matched_points(pathv).len());
            assert(self.index.points_v().len() == old(self).index.points@.len());
            assert(st2.next_ino + points@.len() < 0xffff_ffff_ffff_ffffu64);
        }
        self.add_point_entries(path, &points, &mut entries);
        let ghost st3 = self.state;
        let ghost names3 = entry_names(entries@.map_values(|e: DirEntry| e@));
        let tags = get_tags_for_points(&self.index, &points);
        proof {
            assert(tags@.map_values(|t: Tag| t@) == self.index.tags_of_pids(
                ids_of_points(self.index.matched_points(pathv)),
            ));
            assert(tags@.len() <= self.index.tags_v().len()) by {
                Seq::lemma_filter_len(
                    self.index.tags_v(),
                    |t: TagV|
                        exists|ji: int|
                            0 <= ji < self.index.joins_v().len() && (
                            #[trigger] self.index.joins_v()[ji]).tag_id == t.id && ids_of_points(
                                self.index.matched_points(pathv),
                            ).contains(self.index.joins_v()[ji].point_id),
                );
            }
            assert(names3.len() == names2.len() + spec_point_children(
                points@.map_values(|p: Point| p@),
                points@.len() as int,
            ).len());
            assert(spec_point_children(
                points@.map_values(|p: Point| p@),
                points@.len() as int,
            ).len() <= points@.len()) by {
                Seq::lemma_filter_len(
                    points@.map_values(|p: Point| p@).take(points@.len() as int),
                    |p: PointV| p.path is Some,
                );
            }
            assert(st3.next_ino <= st2.next_ino + (names3.len() - names2.len()));
            assert(self.index.tags_v().len() == old(self).index.tags@.len());
            assert(st3.next_ino + tags@.len() < 0xffff_ffff_ffff_ffffu64);
        }
        self.add_tag_entries(path, &tags, &mut entries);
        proof {
            assert(stv.bindings_v().is_prefix_of(self.state.bindings_v())) by {
                assert(self.state.bindings_v().take(stv.bindings_v().len() as int)
                    =~= stv.bindings_v());
            }
            assert(st1.extra_dirs_v() == stv.extra_dirs_v());
            assert(spec_extra_children(st1, pathv, st1.extra_dirs_v().len() as int)
                == spec_extra_children(stv, pathv, stv.extra_dirs_v().len() as int));
            assert(entry_names(entries@.map_values(|e: DirEntry| e@)) =~= dots2
                + spec_normal_children(stv, old(self).index, pathv));
        }
        entries
    }
}



impl Ffs {
    /// Build the listing of a flattened path, given its parse.
    #[verifier::loop_isolation(false)]
    #[verifier::rlimit(100)]
    #[verifier::spinoff_prover]
    fn compute_flat_entries(
        &mut self,
        path: &Vec<String>,
        flat: &Vec<String>,
        combined: &Vec<String>,
    ) -> (r: Result<Vec<DirEntry>, FsError>)
        requires
            old(self).index.wf(),
            old(self).state.wf(),
            old(self).state.next_ino < 0x8000_0000_0000_0000u64,
            old(self).index.points@.len() < 0x7fff_ffff,
        ensures
            final(self).index == old(self).index,
            final(self).state.wf(),
            final(self).state.extra_dirs_v() == old(self).state.extra_dirs_v(),
            final(self).state.fhs_v() == old(self).state.fhs_v(),
            final(self).state.cache_v() == old(self).state.cache_v(),
            final(self).state.next_fh == old(self).state.next_fh,
            old(self).state.bindings_v().is_prefix_of(final(self).state.bindings_v()),
            ({
                let pre = seq![(FileKind::Directory, dot()), (FileKind::Directory, dotdot())]
                    + if flat.deep_view().len() == 0 {
                    seq![(FileKind::RegularFile, flat_info_tok())]
                } else {
                    Seq::<(FileKind, Seq<char>)>::empty()
                };
                match spec_lookup_point(old(self).index, combined.deep_view()) {
                    Some(p) => if !p.dir {
                        r matches Err(e) && e == FsError::NotDirectory
                    } else {
                        r matches Ok(v) && entry_names(v@.map_values(|e: DirEntry| e@)) == pre
                            + seq![(FileKind::RegularFile, dir_tok())] && entry_inos_ok(
                            final(self).state,
                            path.deep_view(),
                            v@.map_values(|e: DirEntry| e@),
                        )
                    },
                    None => r matches Ok(v) && entry_names(v@.map_values(|e: DirEntry| e@))
                        == pre + spec_flat_children(
                        old(self).index,
                        old(self).index.matched_points(combined.deep_view()),
                        combined.deep_view(),
                        Seq::empty(),
                    ) && entry_inos_ok(
                        final(self).state,
                        path.deep_view(),
                        v@.map_values(|e: DirEntry| e@),
                    ),
                }
            }),
    {
        proof {
            self.state.lemma_views();
            self.index.lemma_views();
        }
        let ghost stv = old(self).state;
        let ghost pathv = path.deep_view();
        let ghost dots2: Seq<(FileKind, Seq<char>)> = seq![
            (FileKind::Directory, dot()),
            (FileKind::Directory, dotdot()),
        ];
        let mut entries: Vec<DirEntry> = Vec::new();
        entries.push(dot_entry(false));
        entries.push(dot_entry(true));
        proof {
            assert(entry_names(entries@.map_values(|e: DirEntry| e@)) =~= dots2);
            assert(entry_inos_ok(stv, pathv, entries@.map_values(|e: DirEntry| e@)));
            assert(stv.bindings_v().take(stv.bindings_v().len() as int) =~= stv.bindings_v());
        }
        if flat.len() == 0 {
            let itok = flat_info_tok_str();
            let child = crate::paths::push_component(path, &itok);
            let iino = self.state.new_ino(&child);
            entries.push(DirEntry { ino: iino, kind: FileKind::RegularFile, name: itok });
            proof {
                assert(stv.bindings_v().is_prefix_of(self.state.bindings_v())) by {
                    assert(self.state.bindings_v().take(stv.bindings_v().len() as int)
                        =~= stv.bindings_v());
                }
                assert(entry_names(entries@.map_values(|e: DirEntry| e@)) =~= dots2 + seq![
                    (FileKind::RegularFile, flat_info_tok()),
                ]);
                assert(entry_inos_ok(
                    self.state,
                    pathv,
                    entries@.map_values(|e: DirEntry| e@),
                ));
            }
        }
        let ghost pre_names = entry_names(entries@.map_values(|e: DirEntry| e@));
        let ghost st0 = self.state;
        proof {
            assert(st0.next_ino <= stv.next_ino + 1);
            assert(stv.bindings_v().is_prefix_of(st0.bindings_v())) by {
                assert(st0.bindings_v().take(stv.bindings_v().len() as int)
                    =~= stv.bindings_v());
            }
        }
        match lookup_point_at(&self.index, combined) {
            Some(point) => {
                if !point.dir {
                    return Err(FsError::NotDirectory);
                }
                let dtok = dir_tok_str();
                let child = crate::paths::push_component(path, &dtok);
                let ghost preb = self.state;
                let dino = self.state.new_ino(&child);
                let ghost olde = entries@.map_values(|e: DirEntry| e@);
                entries.push(DirEntry { ino: dino, kind: FileKind::RegularFile, name: dtok });
                proof {
                    assert(stv.bindings_v().is_prefix_of(self.state.bindings_v())) by {
                        assert(self.state.bindings_v().take(stv.bindings_v().len() as int)
                            =~= stv.bindings_v());
                    }
                    let es2 = entries@.map_values(|e: DirEntry| e@);
                    assert(es2 =~= olde.push(
                        DirEntryV {
                            ino: dino as int,
                            kind: FileKind::RegularFile,
                            name: dir_tok(),
                        },
                    ));
                    assert(entry_names(es2) =~= pre_names + seq![
                        (FileKind::RegularFile, dir_tok()),
                    ]);
                    assert forall|k: int| 0 <= k < es2.len() implies (if k < 2 {
                        (#[trigger] es2[k]).ino == 1
                    } else {
                        self.state.has_path(pathv.push(es2[k].name)) && es2[k].ino
                            == self.state.ino_of(pathv.push(es2[k].name))
                    }) by {
                        if k < es2.len() - 1 {
                            assert(es2[k] == olde[k]);
                            if k >= 2 {
                                lemma_bindings_extend(preb, self.state, pathv.push(olde[k].name));
                            }
                        }
                    }
                    assert(entry_inos_ok(self.state, pathv, es2));
                }
                Ok(entries)
            },
            None => {
                let points = get_points_by_parts(&self.index, combined);
                let ghost mp = self.index.matched_points(combined.deep_view());
                let ghost combv = combined.deep_view();
                let np = points.len();
                let mut added: Vec<String> = Vec::new();
                proof {
                    assert(mp.len() == np);
                    assert(forall|k: int| 0 <= k < np ==> #[trigger] mp[k] == points@[k]@);
                    assert(added.deep_view() =~~= Seq::<Seq<char>>::empty());
                    assert(mp.skip(0) =~= mp);
                    assert(entry_names(entries@.map_values(|e: DirEntry| e@)) =~= pre_names
                        + Seq::<(FileKind, Seq<char>)>::empty());
                    assert(spec_flat_children(self.index, mp, combv, Seq::empty())
                        == Seq::<(FileKind, Seq<char>)>::empty() + spec_flat_children(
                        self.index,
                        mp.skip(0),
                        combv,
                        added.deep_view(),
                    ));
                }
                for i in 0..np
                    invariant
                        self.index == old(self).index,
                        self.state.wf(),
                        self.state.extra_dirs_v() == stv.extra_dirs_v(),
                        self.state.fhs_v() == stv.fhs_v(),
                        self.state.cache_v() == stv.cache_v(),
                        self.state.next_fh == stv.next_fh,
                        stv.bindings_v().is_prefix_of(self.state.bindings_v()),
                        entries@.len() >= 2,
                        entries@.len() - pre_names.len() <= i,
                        self.state.next_ino <= st0.next_ino + entries@.len() - pre_names.len(),
                        entry_names(entries@.map_values(|e: DirEntry| e@)).len()
                            >= pre_names.len(),
                        pre_names.is_prefix_of(
                            entry_names(entries@.map_values(|e: DirEntry| e@)),
                        ),
                        spec_flat_children(self.index, mp, combv, Seq::empty()) == entry_names(
                            entries@.map_values(|e: DirEntry| e@),
                        ).skip(pre_names.len() as int) + spec_flat_children(
                            self.index,
                            mp.skip(i as int),
                            combv,
                            added.deep_view(),
                        ),
                        entry_inos_ok(self.state, pathv, entries@.map_values(|e: DirEntry| e@)),
                {
                    let p = &points[i];
                    proof {
                        assert(mp.skip(i as int)[0] == mp[i as int]);
                        assert(mp.skip(i as int).drop_first() =~= mp.skip(i + 1));
                    }
                    match min_dist_exec(&self.index, p, combined) {
                        Some(d) => {
                            let already = contains_component(&added, &d);
                            if !already {
                                let child2 = crate::paths::push_component(path, &d);
                                let ghost preb = self.state;
                                let ino2 = self.state.new_ino(&child2);
                                let ghost olde = entries@.map_values(|e: DirEntry| e@);
                                let newadded = crate::paths::push_component(&added, &d);
                                entries.push(
                                    DirEntry {
                                        ino: ino2,
                                        kind: FileKind::Directory,
                                        name: d,
                                    },
                                );
                                let ghost oldadded = added.deep_view();
                                added = newadded;
                                proof {
                                    assert(stv.bindings_v().is_prefix_of(
                                        self.state.bindings_v(),
                                    )) by {
                                        assert(self.state.bindings_v().take(
                                            stv.bindings_v().len() as int,
                                        ) =~= stv.bindings_v());
                                    }
                                    let es2 = entries@.map_values(|e: DirEntry| e@);
                                    assert(entry_names(es2) =~= entry_names(olde).push(
                                        (FileKind::Directory, es2.last().name),
                                    ));
                                    assert(pre_names.is_prefix_of(entry_names(es2))) by {
                                        assert(entry_names(es2).take(pre_names.len() as int)
                                            =~= entry_names(olde).take(pre_names.len() as int));
                                    }
                                    assert(entry_names(es2).skip(pre_names.len() as int)
                                        =~= entry_names(olde).skip(
                                        pre_names.len() as int,
                                    ).push((FileKind::Directory, es2.last().name)));
                                    assert(spec_flat_children(
                                        self.index,
                                        mp.skip(i as int),
                                        combv,
                                        oldadded,
                                    ) == seq![(FileKind::Directory, es2.last().name)]
                                        + spec_flat_children(
                                        self.index,
                                        mp.skip(i + 1),
                                        combv,
                                        added.deep_view(),
                                    ));
                                    assert(spec_flat_children(self.index, mp, combv, Seq::empty())
                                        =~= entry_names(es2).skip(pre_names.len() as int)
                                        + spec_flat_children(
                                        self.index,
                                        mp.skip(i + 1),
                                        combv,
                                        added.deep_view(),
                                    ));
                                    assert forall|k: int| 0 <= k < es2.len() implies (if k < 2 {
                                        (#[trigger] es2[k]).ino == 1
                                    } else {
                                        self.state.has_path(pathv.push(es2[k].name))
                                            && es2[k].ino == self.state.ino_of(
                                            pathv.push(es2[k].name),
                                        )
                                    }) by {
                                        if k < es2.len() - 1 {
                                            assert(es2[k] == olde[k]);
                                            if k >= 2 {
                                                lemma_bindings_extend(
                                                    preb,
                                                    self.state,
                                                    pathv.push(olde[k].name),
                                                );
                                            }
                                        }
                                    }
                                    assert(entry_inos_ok(self.state, pathv, es2));
                                }
                            } else {
                                proof {
                                    assert(spec_flat_children(
                                        self.index,
                                        mp.skip(i as int),
                                        combv,
                                        added.deep_view(),
                                    ) == spec_flat_children(
                                        self.index,
                                        mp.skip(i + 1),
                                        combv,
                                        added.deep_view(),
                                    ));
                                }
                            }
                        },
                        None => {
                            let has_backing = match &p.path {
                                Some(_) => true,
                                None => false,
                            };
                            if has_backing {
                                let name = point_full_name(p);
                                let child2 = crate::paths::push_component(path, &name);
                                let ghost preb = self.state;
                                let ino2 = self.state.new_ino(&child2);
                                let ghost midb = self.state;
                                self.state.register_point(ino2, p);
                                let ghost olde = entries@.map_values(|e: DirEntry| e@);
                                entries.push(
                                    DirEntry { ino: ino2, kind: FileKind::Symlink, name },
                                );
                                proof {
                                    assert(self.state.bindings_v() == midb.bindings_v());
                                    assert(stv.bindings_v().is_prefix_of(
                                        self.state.bindings_v(),
                                    )) by {
                                        assert(self.state.bindings_v().take(
                                            stv.bindings_v().len() as int,
                                        ) =~= stv.bindings_v());
                                    }
                                    assert(self.state.has_path(child2.deep_view())
                                        && self.state.ino_of(child2.deep_view())
                                        == ino2 as int) by {
                                        assert(midb.bindings_v().is_prefix_of(
                                            self.state.bindings_v(),
                                        )) by {
                                            assert(self.state.bindings_v().take(
                                                midb.bindings_v().len() as int,
                                            ) =~= midb.bindings_v());
                                        }
                                        lemma_bindings_extend(
                                            midb,
                                            self.state,
                                            child2.deep_view(),
                                        );
                                    }
                                    let es2 = entries@.map_values(|e: DirEntry| e@);
                                    assert(entry_names(es2) =~= entry_names(olde).push(
                                        (FileKind::Symlink, spec_point_name(p@)),
                                    ));
                                    assert(pre_names.is_prefix_of(entry_names(es2))) by {
                                        assert(entry_names(es2).take(pre_names.len() as int)
                                            =~= entry_names(olde).take(pre_names.len() as int));
                                    }
                                    assert(entry_names(es2).skip(pre_names.len() as int)
                                        =~= entry_names(olde).skip(
                                        pre_names.len() as int,
                                    ).push((FileKind::Symlink, spec_point_name(p@))));
                                    assert(spec_flat_children(
                                        self.index,
                                        mp.skip(i as int),
                                        combv,
                                        added.deep_view(),
                                    ) == seq![(FileKind::Symlink, spec_point_name(p@))]
                                        + spec_flat_children(
                                        self.index,
                                        mp.skip(i + 1),
                                        combv,
                                        added.deep_view(),
                                    ));
                                    assert(spec_flat_children(self.index, mp, combv, Seq::empty())
                                        =~= entry_names(es2).skip(pre_names.len() as int)
                                        + spec_flat_children(
                                        self.index,
                                        mp.skip(i + 1),
                                        combv,
                                        added.deep_view(),
                                    ));
                                    assert forall|k: int| 0 <= k < es2.len() implies (if k < 2 {
                                        (#[trigger] es2[k]).ino == 1
                                    } else {
                                        self.state.has_path(pathv.push(es2[k].name))
                                            && es2[k].ino == self.state.ino_of(
                                            pathv.push(es2[k].name),
                                        )
                                    }) by {
                                        if k < es2.len() - 1 {
                                            assert(es2[k] == olde[k]);
                                            if k >= 2 {
                                                lemma_bindings_extend(
                                                    preb,
                                                    self.state,
                                                    pathv.push(olde[k].name),
                                                );
                                            }
                                        }
                                    }
                                    assert(entry_inos_ok(self.state, pathv, es2));
                                }
                            } else {
                                proof {
                                    assert(spec_flat_children(
                                        self.index,
                                        mp.skip(i as int),
                                        combv,
                                        added.deep_view(),
                                    ) == spec_flat_children(
                                        self.index,
                                        mp.skip(i + 1),
                                        combv,
                                        added.deep_view(),
                                    ));
                                }
                            }
                        },
                    }
                }
                proof {
                    assert(mp.skip(np as int).len() == 0);
                    assert(spec_flat_children(
                        self.index,
                        mp.skip(np as int),
                        combv,
                        added.deep_view(),
                    ) == Seq::<(FileKind, Seq<char>)>::empty());
                    let es = entries@.map_values(|e: DirEntry| e@);
                    assert(entry_names(es) =~= pre_names + entry_names(es).skip(
                        pre_names.len() as int,
                    ));
                    assert(entry_names(es) =~= pre_names + spec_flat_children(
                        self.index,
                        mp,
                        combv,
                        Seq::empty(),
                    ));
                }
                Ok(entries)
            },
        }
    }
}



/// The suffix of a listing from `offset` on, as fresh entries.
#[verifier::loop_isolation(false)]
pub fn suffix_entries(v: &Vec<DirEntry>, offset: usize) -> (r: Vec<DirEntry>)
    ensures
        r@.map_values(|e: DirEntry| e@) == v@.map_values(|e: DirEntry| e@).skip(
            if offset as int <= v@.len() {
                offset as int
            } else {
                v@.len() as int
            },
        ),
{
    let n = v.len();
    let start = if offset <= n {
        offset
    } else {
        n
    };
    let mut r: Vec<DirEntry> = Vec::new();
    proof {
        assert(r@.map_values(|e: DirEntry| e@) =~= v@.map_values(|e: DirEntry| e@).subrange(
            start as int,
            start as int,
        ));
    }
    for i in start..n
        invariant
            r@.map_values(|e: DirEntry| e@) == v@.map_values(|e: DirEntry| e@).subrange(
                start as int,
                i as int,
            ),
    {
        r.push(v[i].duplicate());
        proof {
            assert(r@.map_values(|e: DirEntry| e@) =~= v@.map_values(|e: DirEntry| e@).subrange(
                start as int,
                i + 1,
            ));
        }
    }
    proof {
        assert(v@.map_values(|e: DirEntry| e@).subrange(start as int, n as int)
            =~= v@.map_values(|e: DirEntry| e@).skip(start as int));
    }
    r
}

impl Ffs {
    /// Compute the full listing of a path, deciding [`spec_listing`].
    #[verifier::loop_isolation(false)]
    #[verifier::rlimit(100)]
    #[verifier::spinoff_prover]
    fn compute_entries(&mut self, path: &Vec<String>) -> (r: Result<Vec<DirEntry>, FsError>)
        requires
            old(self).index.wf(),
            old(self).state.wf(),
            old(self).state.next_ino < 0x8000_0000_0000_0000u64,
            old(self).index.points@.len() < 0x7fff_ffff,
            old(self).index.tags@.len() < 0x7fff_ffff,
            old(self).state.extra_dirs@.len() < 0x7fff_ffff,
        ensures
            final(self).index == old(self).index,
            final(self).state.wf(),
            final(self).state.extra_dirs_v() == old(self).state.extra_dirs_v(),
            final(self).state.fhs_v() == old(self).state.fhs_v(),
            final(self).state.cache_v() == old(self).state.cache_v(),
            final(self).state.next_fh == old(self).state.next_fh,
            old(self).state.bindings_v().is_prefix_of(final(self).state.bindings_v()),
            match spec_listing(old(self).state, old(self).index, path.deep_view()) {
                ListingV::Entries(names) => r matches Ok(v) && entry_names(
                    v@.map_values(|e: DirEntry| e@),
                ) == names && entry_inos_ok(
                    final(self).state,
                    path.deep_view(),
                    v@.map_values(|e: DirEntry| e@),
                ),
                ListingV::NotDirectory => r matches Err(e) && e == FsError::NotDirectory,
            },
    {
        let parsed = parse_path(path);
        match parsed {
            ParsedPath::Flattened(filter, flat, combined) => {
                let r = self.compute_flat_entries(path, &flat, &combined);
                proof {
                    assert(spec_parse_path(path.deep_view()) == ParsedPathV::Flattened(
                        filter.deep_view(),
                        flat.deep_view(),
                        combined.deep_view(),
                    ));
                }
                r
            },
            ParsedPath::Normal(_parts) => {
                let v = self.compute_normal_entries(path);
                Ok(v)
            },
        }
    }

    /// List a directory from `offset`, serving a cached listing when one is
    /// pending and computing (and, at offset zero, caching) it otherwise.
    /// A cached listing read to its end is dropped.
    #[verifier::loop_isolation(false)]
    #[verifier::rlimit(100)]
    #[verifier::spinoff_prover]
    pub fn readdir(&mut self, ino: u64, offset: usize) -> (r: Result<Vec<DirEntry>, FsError>)
        requires
            old(self).index.wf(),
            old(self).state.wf(),
            old(self).state.next_ino < 0x8000_0000_0000_0000u64,
            old(self).index.points@.len() < 0x7fff_ffff,
            old(self).index.tags@.len() < 0x7fff_ffff,
            old(self).state.extra_dirs@.len() < 0x7fff_ffff,
        ensures
            final(self).index == old(self).index,
            final(self).state.wf(),
            final(self).state.extra_dirs_v() == old(self).state.extra_dirs_v(),
            final(self).state.fhs_v() == old(self).state.fhs_v(),
            final(self).state.next_fh == old(self).state.next_fh,
            old(self).state.has_cache(ino as int) ==> ({
                let cached = old(self).state.cache_of(ino as int);
                &&& r matches Ok(v) && v@.map_values(|e: DirEntry| e@) == cached.skip(
                    if offset as int <= cached.len() {
                        offset as int
                    } else {
                        cached.len() as int
                    },
                )
                &&& final(self).state.bindings_v() == old(self).state.bindings_v()
                &&& final(self).state.ino_points_v() == old(self).state.ino_points_v()
                &&& final(self).state.next_ino == old(self).state.next_ino
                &&& (offset as int == cached.len() ==> !final(self).state.has_cache(ino as int))
                &&& (offset as int != cached.len() ==> final(self).state.cache_v() == old(self).state.cache_v())
            }),
            !old(self).state.has_cache(ino as int) ==> ({
                let pathv = if old(self).state.has_ino(ino as int) {
                    old(self).state.path_of(ino as int)
                } else {
                    Seq::<Seq<char>>::empty()
                };
                &&& old(self).state.bindings_v().is_prefix_of(final(self).state.bindings_v())
                &&& match spec_listing(old(self).state, old(self).index, pathv) {
                    ListingV::Entries(names) => {
                        &&& r matches Ok(v) && entry_names(v@.map_values(|e: DirEntry| e@))
                            == names.skip(
                            if offset as int <= names.len() {
                                offset as int
                            } else {
                                names.len() as int
                            },
                        )
                        &&& (offset == 0 ==> final(self).state.has_cache(ino as int)
                            && entry_names(final(self).state.cache_of(ino as int)) == names
                            && entry_inos_ok(
                            final(self).state,
                            pathv,
                            final(self).state.cache_of(ino as int),
                        ))
                        &&& (offset != 0 ==> !final(self).state.has_cache(ino as int))
                    },
                    ListingV::NotDirectory => r matches Err(e) && e == FsError::NotDirectory
                        && !final(self).state.has_cache(ino as int),
                }
            }),
    {
        proof {
            self.state.lemma_views();
        }
        match self.state.cache_lookup(ino) {
            Some(cached) => {
                let n = cached.len();
                let out = suffix_entries(&cached, offset);
                if offset == n {
                    self.state.cache_remove(ino);
                }
                return Ok(out);
            },
            None => {},
        }
        let path = match self.state.read_ino(ino) {
            Some(p) => p,
            None => Vec::new(),
        };
        proof {
            if !old(self).state.has_ino(ino as int) {
                assert(path.deep_view() =~= Seq::<Seq<char>>::empty());
            }
        }
        let full = match self.compute_entries(&path) {
            Ok(v) => v,
            Err(e) => {
                return Err(e);
            },
        };
        let out = suffix_entries(&full, offset);
        if offset == 0 {
            let ghost pre = self.state;
            self.state.cache_insert(ino, full);
            proof {
                assert(self.state.bindings_v() == pre.bindings_v());
                assert(old(self).state.bindings_v().is_prefix_of(self.state.bindings_v()));
            }
        }
        Ok(out)
    }

    /// Follow a symlink: the backing path of the point an inode stands
    /// for.
    pub fn readlink(&self, ino: u64) -> (r: Result<String, FsError>)
        requires
            self.state.wf(),
        ensures
            match r {
                Ok(s) => self.state.has_point_ino(ino as int) && self.state.point_of(
                    ino as int,
                ).path == Some(s@),
                Err(e) => e == FsError::NotFound && (!self.state.has_point_ino(ino as int)
                    || self.state.point_of(ino as int).path is None),
            },
    {
        match self.state.point_for_ino(ino) {
            Some(p) => match p.path {
                Some(backing) => Ok(backing),
                None => Err(FsError::NotFound),
            },
            None => Err(FsError::NotFound),
        }
    }

    /// Create a navigational extra directory under a parent.
    #[verifier::loop_isolation(false)]
    pub fn mkdir(&mut self, parent: u64, name: &String) -> (r: FileAttr)
        requires
            old(self).index.wf(),
            old(self).state.wf(),
            old(self).state.next_ino < 0xffff_ffff_ffff_ffffu64,
        ensures
            final(self).index == old(self).index,
            final(self).state.wf(),
            final(self).state.fhs_v() == old(self).state.fhs_v(),
            final(self).state.cache_v() == old(self).state.cache_v(),
            final(self).state.next_fh == old(self).state.next_fh,
            r.kind == FileKind::Directory && r.size == 0 && crate::attr::fixed_fields(r),
            ({
                let pathv = (if old(self).state.has_ino(parent as int) {
                    old(self).state.path_of(parent as int)
                } else {
                    Seq::<Seq<char>>::empty()
                }).push(name@);
                {
                    &&& bind_only_rel(old(self).state, final(self).state, pathv, r.ino as int)
                    &&& final(self).state.ino_points_v() == old(self).state.ino_points_v()
                    &&& final(self).state.extra_dirs_v().contains(pathv)
                    &&& (old(self).state.extra_dirs_v().contains(pathv)
                        ==> final(self).state.extra_dirs_v() == old(self).state.extra_dirs_v())
                    &&& (!old(self).state.extra_dirs_v().contains(pathv)
                        ==> final(self).state.extra_dirs_v() == old(self).state.extra_dirs_v().push(pathv))
                }
            }),
    {
        let base = match self.state.read_ino(parent) {
            Some(p) => p,
            None => Vec::new(),
        };
        proof {
            if !old(self).state.has_ino(parent as int) {
                assert(base.deep_view() =~= Seq::<Seq<char>>::empty());
            }
        }
        let path = crate::paths::push_component(&base, name);
        let ino = self.state.new_ino(&path);
        let ghost mid = self.state;
        let a = basic_directory(ino);
        self.state.add_extra_dir(&path);
        proof {
            assert(self.state.bindings_v() == mid.bindings_v());
            assert(assign_rel(old(self).state, mid, path.deep_view(), ino as int));
        }
        a
    }

    /// Open a node: bind a fresh file handle to its path, echoing the
    /// requested flags.
    pub fn open(&mut self, ino: u64, flags: i32) -> (r: Result<(u64, u32), FsError>)
        requires
            old(self).state.wf(),
            old(self).state.next_fh < 0xffff_ffff_ffff_ffffu64,
        ensures
            final(self).index == old(self).index,
            final(self).state.wf(),
            final(self).state.bindings_v() == old(self).state.bindings_v(),
            final(self).state.next_ino == old(self).state.next_ino,
            final(self).state.ino_points_v() == old(self).state.ino_points_v(),
            final(self).state.extra_dirs_v() == old(self).state.extra_dirs_v(),
            final(self).state.cache_v() == old(self).state.cache_v(),
            match r {
                Ok((fh, fl)) => old(self).state.has_ino(ino as int) && fh == old(self).state.next_fh && fl == flags as u32 && final(self).state.fhs_v() == old(self).state.fhs_v().push((fh as int, old(self).state.path_of(ino as int))),
                Err(e) => e == FsError::NotFound && !old(self).state.has_ino(ino as int) && final(self).state.fhs_v() == old(self).state.fhs_v(),
            },
    {
        match self.state.read_ino(ino) {
            Some(path) => {
                let fh = self.state.new_fh(&path);
                Ok((fh, flags as u32))
            },
            None => Err(FsError::NotFound),
        }
    }

    /// Read a virtual file.  The only readable node is `@flat-info`: the
    /// content is the `/`-joined filter path of its flattened directory.
    pub fn read_node(&self, ino: u64, fh: u64) -> (r: Result<String, FsError>)
        requires
            self.state.wf(),
        ensures
            ({
                let pv = self.state.spec_read_fh(fh as int, Some(ino as int));
                match r {
                    Ok(s) => pv matches Some(pathv) && pathv.len() >= 2 && pathv[pathv.len() - 2]
                        == flatten_tok() && pathv.last() == flat_info_tok() && s@
                        == crate::paths::spec_join_slash(pathv.take(pathv.len() - 2)),
                    Err(e) => e == FsError::NotFound && (match pv {
                        Some(pathv) => !(pathv.len() >= 2 && pathv[pathv.len() - 2]
                            == flatten_tok() && pathv.last() == flat_info_tok()),
                        None => true,
                    }),
                }
            }),
    {
        let path = match self.state.read_fh(fh, Some(ino)) {
            Some(p) => p,
            None => {
                return Err(FsError::NotFound);
            },
        };
        let n = path.len();
        if n < 2 {
            return Err(FsError::NotFound);
        }
        let ftok = flatten_tok_str();
        let itok = flat_info_tok_str();
        proof {
            assert(path.deep_view()[n - 2] == path@[n - 2]@);
            assert(path.deep_view()[n - 1] == path@[n - 1]@);
        }
        if path[n - 2] == ftok && path[n - 1] == itok {
            let filter = sub_parts(&path, 0, n - 2);
            proof {
                assert(filter.deep_view() =~= path.deep_view().take(n - 2));
            }
            Ok(crate::paths::join_slash(&filter))
        } else {
            Err(FsError::NotFound)
        }
    }

    /// Attributes of an inode: the root for inode 1, else its bound path
    /// resolved afresh.
    #[verifier::loop_isolation(false)]
    #[verifier::rlimit(100)]
    #[verifier::spinoff_prover]
    pub fn getattr(&mut self, ino: u64) -> (r: Result<FileAttr, FsError>)
        requires
            old(self).index.wf(),
            old(self).state.wf(),
            old(self).state.next_ino < 0xffff_ffff_ffff_ffffu64,
        ensures
            final(self).index == old(self).index,
            final(self).state.wf(),
            final(self).state.extra_dirs_v() == old(self).state.extra_dirs_v(),
            final(self).state.fhs_v() == old(self).state.fhs_v(),
            final(self).state.cache_v() == old(self).state.cache_v(),
            final(self).state.next_fh == old(self).state.next_fh,
            ino != 1 && !old(self).state.has_ino(ino as int) ==> (r matches Err(e) && e
                == FsError::NotFound && *final(self) == *old(self)),
            ino == 1 || old(self).state.has_ino(ino as int) ==> resolve_post(
                *old(self),
                *final(self),
                if ino == 1 {
                    Seq::<Seq<char>>::empty()
                } else {
                    old(self).state.path_of(ino as int)
                },
                None,
                r,
            ),
    {
        if ino == 1 {
            let path: Vec<String> = Vec::new();
            proof {
                assert(path.deep_view() =~= Seq::<Seq<char>>::empty());
            }
            return self.internal_lookup(&path, None);
        }
        match self.state.read_ino(ino) {
            Some(path) => self.internal_lookup(&path, None),
            None => Err(FsError::NotFound),
        }
    }

    /// Attributes of a named child of a directory.
    #[verifier::loop_isolation(false)]
    #[verifier::rlimit(100)]
    #[verifier::spinoff_prover]
    pub fn lookup(&mut self, parent: u64, name: &String) -> (r: Result<FileAttr, FsError>)
        requires
            old(self).index.wf(),
            old(self).state.wf(),
            old(self).state.next_ino < 0xffff_ffff_ffff_ffffu64,
        ensures
            final(self).index == old(self).index,
            final(self).state.wf(),
            final(self).state.extra_dirs_v() == old(self).state.extra_dirs_v(),
            final(self).state.fhs_v() == old(self).state.fhs_v(),
            final(self).state.cache_v() == old(self).state.cache_v(),
            final(self).state.next_fh == old(self).state.next_fh,
            resolve_post(
                *old(self),
                *final(self),
                (if old(self).state.has_ino(parent as int) {
                    old(self).state.path_of(parent as int)
                } else {
                    Seq::<Seq<char>>::empty()
                }).push(name@),
                Some(parent as int),
                r,
            ),
    {
        let base = match self.state.read_ino(parent) {
            Some(p) => p,
            None => Vec::new(),
        };
        proof {
            if !old(self).state.has_ino(parent as int) {
                assert(base.deep_view() =~= Seq::<Seq<char>>::empty());
            }
        }
        let path = crate::paths::push_component(&base, name);
        self.internal_lookup(&path, Some(parent))
    }
}


} // verus!
