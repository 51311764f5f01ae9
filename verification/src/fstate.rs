//! The identity table of a mount: the path/inode bijection, the inode to
//! point map, the file-handle table, the extra directories created by
//! `mkdir`, and the one-shot readdir cache.
//!
//! Once a path is bound to an inode the pair is never broken for the life
//! of the mount; inode 1 is the root and never appears in the table.

use vstd::prelude::*;

use crate::attr::{DirEntry, DirEntryV};
use crate::models::{Point, PointV};

verus! {

/// The mutable identity state of a mount.
pub struct FsState {
    pub next_ino: u64,
    pub next_fh: u64,
    pub bindings: Vec<(Vec<String>, u64)>,
    pub ino_points: Vec<(u64, Point)>,
    pub fhs: Vec<(u64, Vec<String>)>,
    pub extra_dirs: Vec<Vec<String>>,
    pub cache: Vec<(u64, Vec<DirEntry>)>,
}

/// Compare two component lists.
#[verifier::loop_isolation(false)]
pub fn paths_equal(a: &Vec<String>, b: &Vec<String>) -> (r: bool)
    ensures
        r == (a.deep_view() == b.deep_view()),
{
    if a.len() != b.len() {
        proof {
            assert(a.deep_view().len() != b.deep_view().len());
        }
        return false;
    }
    let n = a.len();
    for i in 0..n
        invariant
            forall|j: int| 0 <= j < i ==> a.deep_view()[j] == b.deep_view()[j],
    {
        proof {
            assert(a.deep_view()[i as int] == a@[i as int]@);
            assert(b.deep_view()[i as int] == b@[i as int]@);
        }
        if !(a[i] == b[i]) {
            proof {
                assert(a.deep_view()[i as int] != b.deep_view()[i as int]);
            }
            return false;
        }
    }
    proof {
        assert(a.deep_view() =~= b.deep_view());
    }
    true
}

impl FsState {
    /// The path/inode pairs as mathematical values.
    pub open spec fn bindings_v(self) -> Seq<(Seq<Seq<char>>, int)> {
        self.bindings@.map_values(|b: (Vec<String>, u64)| (b.0.deep_view(), b.1 as int))
    }

    /// The inode/point pairs as mathematical values.
    pub open spec fn ino_points_v(self) -> Seq<(int, PointV)> {
        self.ino_points@.map_values(|b: (u64, Point)| (b.0 as int, b.1@))
    }

    /// The file-handle/path pairs as mathematical values.
    pub open spec fn fhs_v(self) -> Seq<(int, Seq<Seq<char>>)> {
        self.fhs@.map_values(|b: (u64, Vec<String>)| (b.0 as int, b.1.deep_view()))
    }

    /// The extra directories as mathematical values.
    pub open spec fn extra_dirs_v(self) -> Seq<Seq<Seq<char>>> {
        self.extra_dirs@.map_values(|d: Vec<String>| d.deep_view())
    }

    /// The cached listings as mathematical values.
    pub open spec fn cache_v(self) -> Seq<(int, Seq<DirEntryV>)> {
        self.cache@.map_values(
            |b: (u64, Vec<DirEntry>)| (b.0 as int, b.1@.map_values(|e: DirEntry| e@)),
        )
    }

    /// A path is bound.
    pub open spec fn has_path(self, p: Seq<Seq<char>>) -> bool {
        exists|i: int| 0 <= i < self.bindings_v().len() && (#[trigger] self.bindings_v()[i]).0 == p
    }

    /// An inode is bound.
    pub open spec fn has_ino(self, ino: int) -> bool {
        exists|i: int|
            0 <= i < self.bindings_v().len() && (#[trigger] self.bindings_v()[i]).1 == ino
    }

    /// The inode a path is bound to.
    pub open spec fn ino_of(self, p: Seq<Seq<char>>) -> int {
        (self.bindings_v()[choose|i: int|
            0 <= i < self.bindings_v().len() && (#[trigger] self.bindings_v()[i]).0 == p]).1
    }

    /// The path an inode is bound to.
    pub open spec fn path_of(self, ino: int) -> Seq<Seq<char>> {
        (self.bindings_v()[choose|i: int|
            0 <= i < self.bindings_v().len() && (#[trigger] self.bindings_v()[i]).1 == ino]).0
    }

    /// An inode stands for a concrete point.
    pub open spec fn has_point_ino(self, ino: int) -> bool {
        exists|i: int|
            0 <= i < self.ino_points_v().len() && (#[trigger] self.ino_points_v()[i]).0 == ino
    }

    /// The point an inode stands for.
    pub open spec fn point_of(self, ino: int) -> PointV {
        (self.ino_points_v()[choose|i: int|
            0 <= i < self.ino_points_v().len() && (#[trigger] self.ino_points_v()[i]).0 == ino]).1
    }

    /// A file handle is live.
    pub open spec fn has_fh(self, fh: int) -> bool {
        exists|i: int| 0 <= i < self.fhs_v().len() && (#[trigger] self.fhs_v()[i]).0 == fh
    }

    /// The path a file handle is bound to.
    pub open spec fn fh_path(self, fh: int) -> Seq<Seq<char>> {
        (self.fhs_v()[choose|i: int|
            0 <= i < self.fhs_v().len() && (#[trigger] self.fhs_v()[i]).0 == fh]).1
    }

    /// A listing is cached for an inode.
    pub open spec fn has_cache(self, ino: int) -> bool {
        exists|i: int| 0 <= i < self.cache_v().len() && (#[trigger] self.cache_v()[i]).0 == ino
    }

    /// The cached listing of an inode.
    pub open spec fn cache_of(self, ino: int) -> Seq<DirEntryV> {
        (self.cache_v()[choose|i: int|
            0 <= i < self.cache_v().len() && (#[trigger] self.cache_v()[i]).0 == ino]).1
    }

    /// Well-formedness: the bindings form a bijection on distinct paths and
    /// distinct inodes drawn from `[2, next_ino)`; point, handle and cache
    /// keys are distinct; handles are drawn from `[1, next_fh)`.
    pub open spec fn wf(self) -> bool {
        &&& self.next_ino >= 2
        &&& self.next_fh >= 1
        &&& forall|i: int, j: int|
            0 <= i < j < self.bindings_v().len() ==> self.bindings_v()[i].0
                != self.bindings_v()[j].0
        &&& forall|i: int, j: int|
            0 <= i < j < self.bindings_v().len() ==> self.bindings_v()[i].1
                != self.bindings_v()[j].1
        &&& forall|i: int|
            0 <= i < self.bindings_v().len() ==> 2 <= (#[trigger] self.bindings_v()[i]).1
                < self.next_ino
        &&& forall|i: int, j: int|
            0 <= i < j < self.ino_points_v().len() ==> self.ino_points_v()[i].0
                != self.ino_points_v()[j].0
        &&& forall|i: int, j: int|
            0 <= i < j < self.fhs_v().len() ==> self.fhs_v()[i].0 != self.fhs_v()[j].0
        &&& forall|i: int|
            0 <= i < self.fhs_v().len() ==> 1 <= (#[trigger] self.fhs_v()[i]).0 < self.next_fh
        &&& forall|i: int, j: int|
            0 <= i < j < self.cache_v().len() ==> self.cache_v()[i].0 != self.cache_v()[j].0
    }

    /// The view sequences index into the rows one for one.
    pub proof fn lemma_views(self)
        ensures
            self.bindings_v().len() == self.bindings@.len(),
            self.ino_points_v().len() == self.ino_points@.len(),
            self.fhs_v().len() == self.fhs@.len(),
            self.extra_dirs_v().len() == self.extra_dirs@.len(),
            self.cache_v().len() == self.cache@.len(),
            forall|i: int|
                0 <= i < self.bindings@.len() ==> #[trigger] self.bindings_v()[i] == (
                self.bindings@[i].0.deep_view(),
                self.bindings@[i].1 as int,
            ),
            forall|i: int|
                0 <= i < self.ino_points@.len() ==> #[trigger] self.ino_points_v()[i] == (
                self.ino_points@[i].0 as int,
                self.ino_points@[i].1@,
            ),
            forall|i: int|
                0 <= i < self.fhs@.len() ==> #[trigger] self.fhs_v()[i] == (
                self.fhs@[i].0 as int,
                self.fhs@[i].1.deep_view(),
            ),
            forall|i: int|
                0 <= i < self.extra_dirs@.len() ==> #[trigger] self.extra_dirs_v()[i]
                    == self.extra_dirs@[i].deep_view(),
            forall|i: int|
                0 <= i < self.cache@.len() ==> #[trigger] self.cache_v()[i] == (
                self.cache@[i].0 as int,
                self.cache@[i].1@.map_values(|e: DirEntry| e@),
            ),
    {
    }
}

/// A fresh, empty identity state: counters at 2 and 1, every table empty.
pub fn new_fs_state() -> (r: FsState)
    ensures
        r.wf(),
        r.next_ino == 2,
        r.next_fh == 1,
        r.bindings_v() == Seq::<(Seq<Seq<char>>, int)>::empty(),
        r.ino_points_v() == Seq::<(int, PointV)>::empty(),
        r.fhs_v() == Seq::<(int, Seq<Seq<char>>)>::empty(),
        r.extra_dirs_v() == Seq::<Seq<Seq<char>>>::empty(),
        r.cache_v() == Seq::<(int, Seq<DirEntryV>)>::empty(),
{
    let r = FsState {
        next_ino: 2,
        next_fh: 1,
        bindings: Vec::new(),
        ino_points: Vec::new(),
        fhs: Vec::new(),
        extra_dirs: Vec::new(),
        cache: Vec::new(),
    };
    proof {
        assert(r.bindings_v() =~= Seq::<(Seq<Seq<char>>, int)>::empty());
        assert(r.ino_points_v() =~= Seq::<(int, PointV)>::empty());
        assert(r.fhs_v() =~= Seq::<(int, Seq<Seq<char>>)>::empty());
        assert(r.extra_dirs_v() =~= Seq::<Seq<Seq<char>>>::empty());
        assert(r.cache_v() =~= Seq::<(int, Seq<DirEntryV>)>::empty());
    }
    r
}

/// How one `new_ino` call changes the state: nothing but the binding
/// table and the inode counter, and those only when the path was unbound.
pub open spec fn assign_rel(o: FsState, n: FsState, p: Seq<Seq<char>>, ino: int) -> bool {
    &&& n.ino_points_v() == o.ino_points_v()
    &&& n.fhs_v() == o.fhs_v()
    &&& n.extra_dirs_v() == o.extra_dirs_v()
    &&& n.cache_v() == o.cache_v()
    &&& n.next_fh == o.next_fh
    &&& if o.has_path(p) {
        &&& ino == o.ino_of(p)
        &&& n.bindings_v() == o.bindings_v()
        &&& n.next_ino == o.next_ino
    } else {
        &&& ino == o.next_ino
        &&& n.bindings_v() == o.bindings_v().push((p, ino))
        &&& n.next_ino == o.next_ino + 1
    }
}

impl FsState {
    /// The inode bound to `path`, binding a fresh one on first sight.
    #[verifier::loop_isolation(false)]
    pub fn new_ino(&mut self, path: &Vec<String>) -> (r: u64)
        requires
            old(self).wf(),
            old(self).next_ino < 0xffff_ffff_ffff_ffffu64,
        ensures
            final(self).wf(),
            assign_rel(*old(self), *final(self), path.deep_view(), r as int),
            final(self).has_path(path.deep_view()),
            final(self).ino_of(path.deep_view()) == r as int,
            final(self).has_ino(r as int),
            final(self).path_of(r as int) == path.deep_view(),
            2 <= r < final(self).next_ino,
            old(self).next_ino <= final(self).next_ino <= old(self).next_ino + 1,
    {
        proof {
            self.lemma_views();
        }
        let n = self.bindings.len();
        for i in 0..n
            invariant
                *self == *old(self),
                forall|j: int| 0 <= j < i ==> (#[trigger] self.bindings_v()[j]).0
                    != path.deep_view(),
        {
            if paths_equal(&self.bindings[i].0, path) {
                proof {
                    assert(self.bindings_v()[i as int].0 == path.deep_view());
                    assert(self.has_path(path.deep_view()));
                }
                let r = self.bindings[i].1;
                proof {
                    let w = choose|w: int|
                        0 <= w < self.bindings_v().len() && (#[trigger] self.bindings_v()[w]).0
                            == path.deep_view();
                    if w != i {
                        assert(self.bindings_v()[w].0 == self.bindings_v()[i as int].0);
                        assert(false);
                    }
                    assert(self.ino_of(path.deep_view()) == r as int);
                    assert(self.has_ino(r as int));
                    let w2 = choose|w2: int|
                        0 <= w2 < self.bindings_v().len() && (#[trigger] self.bindings_v()[w2]).1
                            == r as int;
                    if w2 != i {
                        assert(self.bindings_v()[w2].1 == self.bindings_v()[i as int].1);
                        assert(false);
                    }
                    assert(self.path_of(r as int) == path.deep_view());
                }
                return r;
            }
            proof {
                assert(self.bindings_v()[i as int].0 == self.bindings@[i as int].0.deep_view());
            }
        }
        proof {
            assert(!self.has_path(path.deep_view()));
        }
        let r = self.next_ino;
        let ghost o = *self;
        let stored = crate::paths::sub_parts(path, 0, path.len());
        proof {
            assert(path.deep_view().subrange(0, path@.len() as int) =~= path.deep_view());
        }
        self.bindings.push((stored, r));
        self.next_ino = r + 1;
        proof {
            self.lemma_views();
            assert(self.bindings_v() =~= o.bindings_v().push((path.deep_view(), r as int)));
            assert(self.ino_points@ == o.ino_points@);
            assert(self.ino_points_v() == o.ino_points_v());
            assert(self.fhs_v() == o.fhs_v());
            assert(self.extra_dirs_v() == o.extra_dirs_v());
            assert(self.cache_v() == o.cache_v());
            let nb = self.bindings_v();
            let len = nb.len();
            assert(nb[len - 1] == (path.deep_view(), r as int));
            assert(self.has_path(path.deep_view()));
            assert(self.has_ino(r as int));
            assert forall|i: int, j: int| 0 <= i < j < len implies nb[i].0 != nb[j].0 by {
                if j == len - 1 {
                    if nb[i].0 == nb[j].0 {
                        assert(o.has_path(path.deep_view()));
                    }
                }
            }
            assert forall|i: int, j: int| 0 <= i < j < len implies nb[i].1 != nb[j].1 by {
                if j == len - 1 {
                    assert(o.bindings_v()[i].1 < o.next_ino);
                }
            }
            assert(self.wf());
            let w = choose|w: int|
                0 <= w < nb.len() && (#[trigger] nb[w]).0 == path.deep_view();
            if w != len - 1 {
                assert(nb[w].0 == nb[len - 1].0);
                assert(false);
            }
            assert(self.ino_of(path.deep_view()) == r as int);
            let w2 = choose|w2: int| 0 <= w2 < nb.len() && (#[trigger] nb[w2]).1 == r as int;
            if w2 != len - 1 {
                assert(nb[w2].1 == nb[len - 1].1);
                assert(false);
            }
            assert(self.path_of(r as int) == path.deep_view());
        }
        r
    }

    /// The path an inode is bound to, if any.
    #[verifier::loop_isolation(false)]
    pub fn read_ino(&self, ino: u64) -> (r: Option<Vec<String>>)
        requires
            self.wf(),
        ensures
            match r {
                Some(p) => self.has_ino(ino as int) && p.deep_view() == self.path_of(ino as int),
                None => !self.has_ino(ino as int),
            },
    {
        proof {
            self.lemma_views();
        }
        let n = self.bindings.len();
        for i in 0..n
            invariant
                forall|j: int| 0 <= j < i ==> (#[trigger] self.bindings_v()[j]).1 != ino as int,
        {
            proof {
                assert(self.bindings_v()[i as int] == (
                    self.bindings@[i as int].0.deep_view(),
                    self.bindings@[i as int].1 as int,
                ));
            }
            if self.bindings[i].1 == ino {
                let p = crate::paths::sub_parts(&self.bindings[i].0, 0, self.bindings[i].0.len());
                proof {
                    assert(p.deep_view() =~= self.bindings@[i as int].0.deep_view());
                    assert(self.bindings_v()[i as int].1 == ino as int);
                    assert(self.has_ino(ino as int));
                    let w = choose|w: int|
                        0 <= w < self.bindings_v().len() && (#[trigger] self.bindings_v()[w]).1
                            == ino as int;
                    if w != i {
                        assert(self.bindings_v()[w].1 == self.bindings_v()[i as int].1);
                        assert(false);
                    }
                    assert(self.path_of(ino as int) == p.deep_view());
                }
                return Some(p);
            }
        }
        None
    }
}


/// How registering a point for an inode changes the state: only the
/// point table, replacing the entry for that inode or appending one.
pub open spec fn register_rel(o: FsState, n: FsState, ino: int, p: PointV) -> bool {
    &&& n.bindings_v() == o.bindings_v()
    &&& n.next_ino == o.next_ino
    &&& n.next_fh == o.next_fh
    &&& n.fhs_v() == o.fhs_v()
    &&& n.extra_dirs_v() == o.extra_dirs_v()
    &&& n.cache_v() == o.cache_v()
    &&& if o.has_point_ino(ino) {
        &&& n.ino_points_v().len() == o.ino_points_v().len()
        &&& forall|k: int|
            0 <= k < o.ino_points_v().len() ==> #[trigger] n.ino_points_v()[k] == (
            if o.ino_points_v()[k].0 == ino {
                (ino, p)
            } else {
                o.ino_points_v()[k]
            })
    } else {
        n.ino_points_v() == o.ino_points_v().push((ino, p))
    }
}

impl FsState {
    /// Remember that an inode stands for a point.
    #[verifier::loop_isolation(false)]
    pub fn register_point(&mut self, ino: u64, p: &Point)
        requires
            old(self).wf(),
        ensures
            final(self).wf(),
            register_rel(*old(self), *final(self), ino as int, p@),
            final(self).has_point_ino(ino as int),
            final(self).point_of(ino as int) == p@,
    {
        proof {
            self.lemma_views();
        }
        let n = self.ino_points.len();
        for i in 0..n
            invariant
                *self == *old(self),
                forall|j: int| 0 <= j < i ==> (#[trigger] self.ino_points_v()[j]).0 != ino as int,
        {
            proof {
                assert(self.ino_points_v()[i as int] == (
                    self.ino_points@[i as int].0 as int,
                    self.ino_points@[i as int].1@,
                ));
            }
            if self.ino_points[i].0 == ino {
                let ghost o = *self;
                self.ino_points.remove(i);
                self.ino_points.insert(i, (ino, p.duplicate()));
                proof {
                    self.lemma_views();
                    assert(self.bindings_v() == o.bindings_v());
                    assert(self.fhs_v() == o.fhs_v());
                    assert(self.extra_dirs_v() == o.extra_dirs_v());
                    assert(self.cache_v() == o.cache_v());
                    assert(o.has_point_ino(ino as int));
                    assert(self.ino_points_v().len() == o.ino_points_v().len());
                    assert forall|k: int|
                        0 <= k < o.ino_points_v().len() implies #[trigger] self.ino_points_v()[k]
                        == (if o.ino_points_v()[k].0 == ino as int {
                        (ino as int, p@)
                    } else {
                        o.ino_points_v()[k]
                    }) by {
                        if k < i {
                            assert(self.ino_points@[k] == o.ino_points@[k]);
                            assert(o.ino_points_v()[k].0 != ino as int);
                        } else if k == i {
                            assert(self.ino_points@[k].0 == ino);
                        } else {
                            assert(self.ino_points@[k] == o.ino_points@[k]);
                            if o.ino_points_v()[k].0 == ino as int {
                                assert(o.ino_points_v()[i as int].0 == o.ino_points_v()[k].0);
                                assert(false);
                            }
                        }
                    }
                    assert(self.ino_points_v()[i as int].0 == ino as int);
                    assert(self.has_point_ino(ino as int));
                    let w = choose|w: int|
                        0 <= w < self.ino_points_v().len() && (
                        #[trigger] self.ino_points_v()[w]).0 == ino as int;
                    assert forall|a: int, b: int|
                        0 <= a < b < self.ino_points_v().len() implies self.ino_points_v()[a].0
                        != self.ino_points_v()[b].0 by {
                        assert(o.ino_points_v()[a].0 != o.ino_points_v()[b].0);
                    }
                    if w != i {
                        assert(self.ino_points_v()[w].0 == self.ino_points_v()[i as int].0);
                        assert(false);
                    }
                    assert(self.point_of(ino as int) == p@);
                }
                return ;
            }
        }
        let ghost o = *self;
        proof {
            assert(!o.has_point_ino(ino as int));
        }
        self.ino_points.push((ino, p.duplicate()));
        proof {
            self.lemma_views();
            assert(self.bindings_v() == o.bindings_v());
            assert(self.fhs_v() == o.fhs_v());
            assert(self.extra_dirs_v() == o.extra_dirs_v());
            assert(self.cache_v() == o.cache_v());
            assert(self.ino_points_v() =~= o.ino_points_v().push((ino as int, p@)));
            let nv = self.ino_points_v();
            let len = nv.len();
            assert(nv[len - 1] == (ino as int, p@));
            assert(self.has_point_ino(ino as int));
            assert forall|a: int, b: int| 0 <= a < b < len implies nv[a].0 != nv[b].0 by {
                if b == len - 1 {
                    if nv[a].0 == nv[b].0 {
                        assert(o.has_point_ino(ino as int));
                    }
                }
            }
            assert(self.wf());
            let w = choose|w: int| 0 <= w < len && (#[trigger] nv[w]).0 == ino as int;
            if w != len - 1 {
                assert(nv[w].0 == nv[len - 1].0);
                assert(false);
            }
            assert(self.point_of(ino as int) == p@);
        }
    }

    /// The point an inode stands for, if any.
    #[verifier::loop_isolation(false)]
    pub fn point_for_ino(&self, ino: u64) -> (r: Option<Point>)
        requires
            self.wf(),
        ensures
            match r {
                Some(p) => self.has_point_ino(ino as int) && p@ == self.point_of(ino as int),
                None => !self.has_point_ino(ino as int),
            },
    {
        proof {
            self.lemma_views();
        }
        let n = self.ino_points.len();
        for i in 0..n
            invariant
                forall|j: int| 0 <= j < i ==> (#[trigger] self.ino_points_v()[j]).0 != ino as int,
        {
            proof {
                assert(self.ino_points_v()[i as int] == (
                    self.ino_points@[i as int].0 as int,
                    self.ino_points@[i as int].1@,
                ));
            }
            if self.ino_points[i].0 == ino {
                let p = self.ino_points[i].1.duplicate();
                proof {
                    assert(self.ino_points_v()[i as int].0 == ino as int);
                    assert(self.has_point_ino(ino as int));
                    let w = choose|w: int|
                        0 <= w < self.ino_points_v().len() && (
                        #[trigger] self.ino_points_v()[w]).0 == ino as int;
                    if w != i {
                        assert(self.ino_points_v()[w].0 == self.ino_points_v()[i as int].0);
                        assert(false);
                    }
                }
                return Some(p);
            }
        }
        None
    }

    /// Bind a fresh file handle to a path.
    pub fn new_fh(&mut self, path: &Vec<String>) -> (r: u64)
        requires
            old(self).wf(),
            old(self).next_fh < 0xffff_ffff_ffff_ffffu64,
        ensures
            final(self).wf(),
            r == old(self).next_fh,
            final(self).next_fh == old(self).next_fh + 1,
            final(self).fhs_v() == old(self).fhs_v().push((r as int, path.deep_view())),
            final(self).bindings_v() == old(self).bindings_v(),
            final(self).next_ino == old(self).next_ino,
            final(self).ino_points_v() == old(self).ino_points_v(),
            final(self).extra_dirs_v() == old(self).extra_dirs_v(),
            final(self).cache_v() == old(self).cache_v(),
            final(self).has_fh(r as int),
            final(self).fh_path(r as int) == path.deep_view(),
    {
        proof {
            self.lemma_views();
        }
        let r = self.next_fh;
        let stored = crate::paths::sub_parts(path, 0, path.len());
        proof {
            assert(path.deep_view().subrange(0, path@.len() as int) =~= path.deep_view());
        }
        let ghost o = *self;
        self.fhs.push((r, stored));
        self.next_fh = r + 1;
        proof {
            self.lemma_views();
            assert(self.fhs_v() =~= o.fhs_v().push((r as int, path.deep_view())));
            assert(self.bindings_v() == o.bindings_v());
            assert(self.ino_points_v() == o.ino_points_v());
            assert(self.extra_dirs_v() == o.extra_dirs_v());
            assert(self.cache_v() == o.cache_v());
            let nv = self.fhs_v();
            let len = nv.len();
            assert(nv[len - 1] == (r as int, path.deep_view()));
            assert(self.has_fh(r as int));
            assert forall|a: int, b: int| 0 <= a < b < len implies nv[a].0 != nv[b].0 by {
                if b == len - 1 {
                    assert(o.fhs_v()[a].0 < o.next_fh);
                }
            }
            assert(self.wf());
            let w = choose|w: int| 0 <= w < len && (#[trigger] nv[w]).0 == r as int;
            if w != len - 1 {
                assert(nv[w].0 == nv[len - 1].0);
                assert(false);
            }
            assert(self.fh_path(r as int) == path.deep_view());
        }
        r
    }

    /// What resolving a file handle yields: the handle's path, else the
    /// path of the fallback inode, else nothing.
    pub open spec fn spec_read_fh(self, fh: int, maybe_ino: Option<int>) -> Option<
        Seq<Seq<char>>,
    > {
        if self.has_fh(fh) {
            Some(self.fh_path(fh))
        } else {
            match maybe_ino {
                Some(ino) => if self.has_ino(ino) {
                    Some(self.path_of(ino))
                } else {
                    None
                },
                None => None,
            }
        }
    }

    /// Resolve a file handle, deciding [`FsState::spec_read_fh`].
    #[verifier::loop_isolation(false)]
    pub fn read_fh(&self, fh: u64, maybe_ino: Option<u64>) -> (r: Option<Vec<String>>)
        requires
            self.wf(),
        ensures
            match r {
                Some(p) => self.spec_read_fh(
                    fh as int,
                    match maybe_ino {
                        Some(i) => Some(i as int),
                        None => None,
                    },
                ) == Some(p.deep_view()),
                None => self.spec_read_fh(
                    fh as int,
                    match maybe_ino {
                        Some(i) => Some(i as int),
                        None => None,
                    },
                ) is None,
            },
    {
        proof {
            self.lemma_views();
        }
        let n = self.fhs.len();
        for i in 0..n
            invariant
                forall|j: int| 0 <= j < i ==> (#[trigger] self.fhs_v()[j]).0 != fh as int,
        {
            proof {
                assert(self.fhs_v()[i as int] == (
                    self.fhs@[i as int].0 as int,
                    self.fhs@[i as int].1.deep_view(),
                ));
            }
            if self.fhs[i].0 == fh {
                let p = crate::paths::sub_parts(&self.fhs[i].1, 0, self.fhs[i].1.len());
                proof {
                    assert(p.deep_view() =~= self.fhs@[i as int].1.deep_view());
                    assert(self.fhs_v()[i as int].0 == fh as int);
                    assert(self.has_fh(fh as int));
                    let w = choose|w: int|
                        0 <= w < self.fhs_v().len() && (#[trigger] self.fhs_v()[w]).0 == fh as int;
                    if w != i {
                        assert(self.fhs_v()[w].0 == self.fhs_v()[i as int].0);
                        assert(false);
                    }
                    assert(self.fh_path(fh as int) == p.deep_view());
                }
                return Some(p);
            }
        }
        proof {
            assert(!self.has_fh(fh as int));
        }
        match maybe_ino {
            Some(ino) => self.read_ino(ino),
            None => None,
        }
    }

    /// Whether a path was created by `mkdir`.
    #[verifier::loop_isolation(false)]
    pub fn is_extra_dir(&self, path: &Vec<String>) -> (r: bool)
        ensures
            r == self.extra_dirs_v().contains(path.deep_view()),
    {
        proof {
            self.lemma_views();
        }
        let n = self.extra_dirs.len();
        for i in 0..n
            invariant
                forall|j: int| 0 <= j < i ==> #[trigger] self.extra_dirs_v()[j]
                    != path.deep_view(),
        {
            proof {
                assert(self.extra_dirs_v()[i as int] == self.extra_dirs@[i as int].deep_view());
            }
            if paths_equal(&self.extra_dirs[i], path) {
                proof {
                    assert(self.extra_dirs_v()[i as int] == path.deep_view());
                }
                return true;
            }
        }
        proof {
            if self.extra_dirs_v().contains(path.deep_view()) {
                let w = choose|w: int|
                    0 <= w < self.extra_dirs_v().len() && self.extra_dirs_v()[w]
                        == path.deep_view();
                assert(self.extra_dirs_v()[w] == path.deep_view());
                assert(false);
            }
        }
        false
    }

    /// Record a directory created by `mkdir`, once.
    pub fn add_extra_dir(&mut self, path: &Vec<String>)
        requires
            old(self).wf(),
        ensures
            final(self).wf(),
            final(self).bindings_v() == old(self).bindings_v(),
            final(self).next_ino == old(self).next_ino,
            final(self).next_fh == old(self).next_fh,
            final(self).ino_points_v() == old(self).ino_points_v(),
            final(self).fhs_v() == old(self).fhs_v(),
            final(self).cache_v() == old(self).cache_v(),
            old(self).extra_dirs_v().contains(path.deep_view()) ==> final(self).extra_dirs_v()
                == old(self).extra_dirs_v(),
            !old(self).extra_dirs_v().contains(path.deep_view()) ==> final(self).extra_dirs_v()
                == old(self).extra_dirs_v().push(path.deep_view()),
            final(self).extra_dirs_v().contains(path.deep_view()),
    {
        proof {
            self.lemma_views();
        }
        if self.is_extra_dir(path) {
            return ;
        }
        let stored = crate::paths::sub_parts(path, 0, path.len());
        proof {
            assert(path.deep_view().subrange(0, path@.len() as int) =~= path.deep_view());
        }
        let ghost o = *self;
        self.extra_dirs.push(stored);
        proof {
            self.lemma_views();
            assert(self.extra_dirs_v() =~= o.extra_dirs_v().push(path.deep_view()));
            assert(self.bindings_v() == o.bindings_v());
            assert(self.ino_points_v() == o.ino_points_v());
            assert(self.fhs_v() == o.fhs_v());
            assert(self.cache_v() == o.cache_v());
            assert(self.extra_dirs_v()[self.extra_dirs_v().len() - 1] == path.deep_view());
        }
    }

    /// Cache the listing computed for an inode.
    #[verifier::loop_isolation(false)]
    pub fn cache_insert(&mut self, ino: u64, entries: Vec<DirEntry>)
        requires
            old(self).wf(),
            !old(self).has_cache(ino as int),
        ensures
            final(self).wf(),
            final(self).bindings_v() == old(self).bindings_v(),
            final(self).next_ino == old(self).next_ino,
            final(self).next_fh == old(self).next_fh,
            final(self).ino_points_v() == old(self).ino_points_v(),
            final(self).fhs_v() == old(self).fhs_v(),
            final(self).extra_dirs_v() == old(self).extra_dirs_v(),
            final(self).cache_v() == old(self).cache_v().push(
                (ino as int, entries@.map_values(|e: DirEntry| e@)),
            ),
            final(self).has_cache(ino as int),
            final(self).cache_of(ino as int) == entries@.map_values(|e: DirEntry| e@),
    {
        proof {
            self.lemma_views();
        }
        let ghost o = *self;
        let ghost ev = entries@.map_values(|e: DirEntry| e@);
        self.cache.push((ino, entries));
        proof {
            self.lemma_views();
            assert(self.cache_v() =~= o.cache_v().push((ino as int, ev)));
            assert(self.bindings_v() == o.bindings_v());
            assert(self.ino_points_v() == o.ino_points_v());
            assert(self.fhs_v() == o.fhs_v());
            assert(self.extra_dirs_v() == o.extra_dirs_v());
            let nv = self.cache_v();
            let len = nv.len();
            assert(nv[len - 1] == (ino as int, ev));
            assert(self.has_cache(ino as int));
            assert forall|a: int, b: int| 0 <= a < b < len implies nv[a].0 != nv[b].0 by {
                if b == len - 1 {
                    if nv[a].0 == nv[b].0 {
                        assert(o.has_cache(ino as int));
                    }
                }
            }
            assert(self.wf());
            let w = choose|w: int| 0 <= w < len && (#[trigger] nv[w]).0 == ino as int;
            if w != len - 1 {
                assert(nv[w].0 == nv[len - 1].0);
                assert(false);
            }
            assert(self.cache_of(ino as int) == ev);
        }
    }

    /// The cached listing of an inode, if any.
    #[verifier::loop_isolation(false)]
    pub fn cache_lookup(&self, ino: u64) -> (r: Option<Vec<DirEntry>>)
        requires
            self.wf(),
        ensures
            match r {
                Some(es) => self.has_cache(ino as int) && es@.map_values(|e: DirEntry| e@)
                    == self.cache_of(ino as int),
                None => !self.has_cache(ino as int),
            },
    {
        proof {
            self.lemma_views();
        }
        let n = self.cache.len();
        for i in 0..n
            invariant
                forall|j: int| 0 <= j < i ==> (#[trigger] self.cache_v()[j]).0 != ino as int,
        {
            proof {
                assert(self.cache_v()[i as int] == (
                    self.cache@[i as int].0 as int,
                    self.cache@[i as int].1@.map_values(|e: DirEntry| e@),
                ));
            }
            if self.cache[i].0 == ino {
                let src = &self.cache[i].1;
                let m = src.len();
                let mut es: Vec<DirEntry> = Vec::new();
                for k in 0..m
                    invariant
                        m == src@.len(),
                        es@.map_values(|e: DirEntry| e@) =~= src@.map_values(
                            |e: DirEntry| e@,
                        ).take(k as int),
                    {
                    es.push(src[k].duplicate());
                    proof {
                        assert(es@.map_values(|e: DirEntry| e@) =~= src@.map_values(
                            |e: DirEntry| e@,
                        ).take(k + 1));
                    }
                }
                proof {
                    assert(es@.map_values(|e: DirEntry| e@) =~= src@.map_values(
                        |e: DirEntry| e@,
                    ));
                    assert(self.cache_v()[i as int].0 == ino as int);
                    assert(self.has_cache(ino as int));
                    let w = choose|w: int|
                        0 <= w < self.cache_v().len() && (#[trigger] self.cache_v()[w]).0
                            == ino as int;
                    if w != i {
                        assert(self.cache_v()[w].0 == self.cache_v()[i as int].0);
                        assert(false);
                    }
                    assert(self.cache_of(ino as int) == src@.map_values(|e: DirEntry| e@));
                }
                return Some(es);
            }
        }
        None
    }

    /// Drop the cached listing of an inode, if any.
    #[verifier::loop_isolation(false)]
    pub fn cache_remove(&mut self, ino: u64)
        requires
            old(self).wf(),
        ensures
            final(self).wf(),
            final(self).bindings_v() == old(self).bindings_v(),
            final(self).next_ino == old(self).next_ino,
            final(self).next_fh == old(self).next_fh,
            final(self).ino_points_v() == old(self).ino_points_v(),
            final(self).fhs_v() == old(self).fhs_v(),
            final(self).extra_dirs_v() == old(self).extra_dirs_v(),
            !final(self).has_cache(ino as int),
            old(self).has_cache(ino as int) ==> exists|i: int|
                0 <= i < old(self).cache_v().len() && (#[trigger] old(self).cache_v()[i]).0
                    == ino as int && final(self).cache_v() == old(self).cache_v().remove(i),
            !old(self).has_cache(ino as int) ==> final(self).cache_v() == old(self).cache_v(),
    {
        proof {
            self.lemma_views();
        }
        let n = self.cache.len();
        for i in 0..n
            invariant
                *self == *old(self),
                forall|j: int| 0 <= j < i ==> (#[trigger] self.cache_v()[j]).0 != ino as int,
        {
            proof {
                assert(self.cache_v()[i as int] == (
                    self.cache@[i as int].0 as int,
                    self.cache@[i as int].1@.map_values(|e: DirEntry| e@),
                ));
            }
            if self.cache[i].0 == ino {
                let ghost o = *self;
                self.cache.remove(i);
                proof {
                    self.lemma_views();
                    assert(self.cache_v() =~= o.cache_v().remove(i as int));
                    assert(self.bindings_v() == o.bindings_v());
                    assert(self.ino_points_v() == o.ino_points_v());
                    assert(self.fhs_v() == o.fhs_v());
                    assert(self.extra_dirs_v() == o.extra_dirs_v());
                    assert(o.cache_v()[i as int].0 == ino as int);
                    assert(o.has_cache(ino as int));
                    assert forall|a: int, b: int|
                        0 <= a < b < self.cache_v().len() implies self.cache_v()[a].0
                        != self.cache_v()[b].0 by {
                        if a < i {
                            assert(self.cache_v()[a] == o.cache_v()[a]);
                        } else {
                            assert(self.cache_v()[a] == o.cache_v()[a + 1]);
                        }
                        if b < i {
                            assert(self.cache_v()[b] == o.cache_v()[b]);
                        } else {
                            assert(self.cache_v()[b] == o.cache_v()[b + 1]);
                        }
                    }
                    assert(self.wf());
                    assert(!self.has_cache(ino as int)) by {
                        if self.has_cache(ino as int) {
                            let w = choose|w: int|
                                0 <= w < self.cache_v().len() && (
                                #[trigger] self.cache_v()[w]).0 == ino as int;
                            if w < i {
                                assert(self.cache_v()[w] == o.cache_v()[w]);
                                assert(o.cache_v()[w].0 == o.cache_v()[i as int].0);
                            } else {
                                assert(self.cache_v()[w] == o.cache_v()[w + 1]);
                                assert(o.cache_v()[w + 1].0 == o.cache_v()[i as int].0);
                            }
                            assert(false);
                        }
                    }
                }
                return ;
            }
        }
        proof {
            assert(!self.has_cache(ino as int));
        }
    }
}



impl FsState {
    /// The inode a path is bound to, if any, without binding one.
    #[verifier::loop_isolation(false)]
    pub fn ino_for_path(&self, path: &Vec<String>) -> (r: Option<u64>)
        requires
            self.wf(),
        ensures
            match r {
                Some(i) => self.has_path(path.deep_view()) && self.ino_of(path.deep_view())
                    == i as int,
                None => !self.has_path(path.deep_view()),
            },
    {
        proof {
            self.lemma_views();
        }
        let n = self.bindings.len();
        for i in 0..n
            invariant
                forall|j: int| 0 <= j < i ==> (#[trigger] self.bindings_v()[j]).0
                    != path.deep_view(),
        {
            proof {
                assert(self.bindings_v()[i as int] == (
                    self.bindings@[i as int].0.deep_view(),
                    self.bindings@[i as int].1 as int,
                ));
            }
            if paths_equal(&self.bindings[i].0, path) {
                proof {
                    assert(self.bindings_v()[i as int].0 == path.deep_view());
                    assert(self.has_path(path.deep_view()));
                    let w = choose|w: int|
                        0 <= w < self.bindings_v().len() && (#[trigger] self.bindings_v()[w]).0
                            == path.deep_view();
                    if w != i {
                        assert(self.bindings_v()[w].0 == self.bindings_v()[i as int].0);
                        assert(false);
                    }
                }
                return Some(self.bindings[i].1);
            }
        }
        None
    }
}



impl FsState {
    /// A copy of the extra-directory list.
    #[verifier::loop_isolation(false)]
    pub fn extra_dirs_snapshot(&self) -> (r: Vec<Vec<String>>)
        ensures
            r.deep_view() == self.extra_dirs_v(),
    {
        proof {
            self.lemma_views();
        }
        let n = self.extra_dirs.len();
        let mut r: Vec<Vec<String>> = Vec::new();
        assert(r.deep_view() =~~= self.extra_dirs_v().take(0));
        for i in 0..n
            invariant
                r.deep_view() == self.extra_dirs_v().take(i as int),
        {
            let d = crate::paths::sub_parts(&self.extra_dirs[i], 0, self.extra_dirs[i].len());
            proof {
                assert(d.deep_view() =~= self.extra_dirs@[i as int].deep_view());
            }
            let ghost oldr = r@;
            r.push(d);
            proof {
                assert forall|k: int|
                    0 <= k < r@.len() implies r.deep_view()[k] == self.extra_dirs_v().take(
                    i + 1,
                )[k] by {
                    assert(r.deep_view()[k] == r@[k].deep_view());
                    if k < r@.len() - 1 {
                        assert(r@[k] == oldr[k]);
                        assert(oldr[k].deep_view() == self.extra_dirs_v().take(i as int)[k]);
                    }
                }
                assert(r.deep_view() =~= self.extra_dirs_v().take(i + 1));
            }
        }
        proof {
            assert(self.extra_dirs_v().take(n as int) =~= self.extra_dirs_v());
        }
        r
    }
}


} // verus!
