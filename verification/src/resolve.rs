use vstd::prelude::*;
use crate::attr::FileAttr;
use crate::tree::{ChildMap, LazyResolver, StateInMem, deref_opt};

verus! {

/// The outcome of a walk over the tree (see [`StateInMem::lookup_from`]
/// and [`StateInMem::dir_from`]); a path lists child positions from the
/// root down.
#[derive(Debug)]
pub enum Search<P> {
    /// The node sought stands at this path.
    Found(P),
    /// The walk met a lazy directory first: its path, and the inode number
    /// of its parent.
    Pending(P, u64),
    /// The walk met a node being resolved first.
    Blocked,
    /// The walk ended without meeting what it looks for.
    Absent,
}

/// The outcome with its path read as a sequence.
pub open spec fn search_view(r: Search<Vec<usize>>) -> Search<Seq<usize>> {
    match r {
        Search::Found(p) => Search::Found(p@),
        Search::Pending(p, q) => Search::Pending(p@, q),
        Search::Blocked => Search::Blocked,
        Search::Absent => Search::Absent,
    }
}

/// The outcome of a walk below the entry at position `i`, seen from its
/// directory.
pub open spec fn search_below(i: int, r: Search<Seq<usize>>) -> Search<Seq<usize>> {
    match r {
        Search::Found(p) => Search::Found(seq![i as usize] + p),
        Search::Pending(p, q) => Search::Pending(seq![i as usize] + p, q),
        Search::Blocked => Search::Blocked,
        Search::Absent => Search::Absent,
    }
}

/// One resolution for the search of directory `t`: the walk of `tree`
/// (see [`StateInMem::dir_from`]) meets a lazy directory first, and `tree2`
/// is `tree` with that directory resolved by the children that one call of
/// `gen_children` with the inode number of its parent hands out, taking the
/// resolver from `r` to `r2`.
pub open spec fn resolution_step<R: LazyResolver>(
    tree: StateInMem,
    r: R,
    tree2: StateInMem,
    r2: R,
    t: u64,
) -> bool {
    let ro = tree.root_ino_spec();
    match tree.dir_from(ro, ro, t) {
        Search::Pending(p, q) => exists|c: ChildMap|
            r.generated(q, r2, c) && tree.replaced_at(tree2, p, tree.node_at(p).unwrap().resolved_with(c)),
        _ => false,
    }
}

/// `n` resolutions, one after the other, take `tree` and resolver `r` to
/// `tree2` and `r2`.
pub open spec fn resolutions<R: LazyResolver>(
    tree: StateInMem,
    r: R,
    tree2: StateInMem,
    r2: R,
    t: u64,
    n: nat,
) -> bool
    decreases n,
{
    if n == 0 {
        tree2 == tree && r2 == r
    } else {
        exists|tm: StateInMem, rm: R|
            resolutions(tree, r, tm, rm, t, (n - 1) as nat) && resolution_step(tm, rm, tree2, r2, t)
    }
}

/// Walks over the tree, as in `StateInMem::get_parent_inode_of`: a node is
/// visited before its children, and the children of a directory from the
/// last entry to the first.
impl StateInMem {
    /// The lookup of `name` below the directory with inode `tp`, from
    /// `self` reached as `cur` below `parent`: the first node of the walk
    /// that is named `name` and has parent `tp`, unless a node being
    /// resolved comes first. Only directories are entered, and a directory
    /// that is itself the answer is not.
    pub open spec fn lookup_from(self, parent: u64, cur: u64, tp: u64, name: Seq<char>) -> Search<
        Seq<usize>,
    >
        decreases self,
    {
        match self {
            StateInMem::Resolving => Search::Blocked,
            StateInMem::Dir { dir_name, childs, .. } => if parent == tp && dir_name@ == name {
                Search::Found(Seq::empty())
            } else {
                proof {
                    childs.lemma_view_decreases();
                }
                Self::lookup_in(childs@, cur, tp, name)
            },
            _ => if parent == tp && self.name_spec().unwrap()@ == name {
                Search::Found(Seq::empty())
            } else {
                Search::Absent
            },
        }
    }

    /// [`Self::lookup_from`] over the entries of directory `cur`, last first.
    pub open spec fn lookup_in(s: Seq<(u64, StateInMem)>, cur: u64, tp: u64, name: Seq<char>) -> Search<
        Seq<usize>,
    >
        decreases s,
    {
        if s.len() == 0 {
            Search::Absent
        } else {
            let i = s.len() - 1;
            match s[i].1.lookup_from(cur, s[i].0, tp, name) {
                Search::Absent => Self::lookup_in(s.drop_last(), cur, tp, name),
                r => search_below(i, r),
            }
        }
    }

    /// The search for directory `t`, from `self` reached as `cur` below
    /// `parent`: the first node of the walk that is a lazy directory, or a
    /// directory reached as `t`. Only directories are entered.
    pub open spec fn dir_from(self, parent: u64, cur: u64, t: u64) -> Search<Seq<usize>>
        decreases self,
    {
        match self {
            StateInMem::LazyDir { .. } => Search::Pending(Seq::empty(), parent),
            StateInMem::Dir { childs, .. } => if cur == t {
                Search::Found(Seq::empty())
            } else {
                proof {
                    childs.lemma_view_decreases();
                }
                Self::dir_in(childs@, cur, t)
            },
            _ => Search::Absent,
        }
    }

    /// [`Self::dir_from`] over the entries of directory `cur`, last first.
    pub open spec fn dir_in(s: Seq<(u64, StateInMem)>, cur: u64, t: u64) -> Search<Seq<usize>>
        decreases s,
    {
        if s.len() == 0 {
            Search::Absent
        } else {
            let i = s.len() - 1;
            match s[i].1.dir_from(cur, s[i].0, t) {
                Search::Absent => Self::dir_in(s.drop_last(), cur, t),
                r => search_below(i, r),
            }
        }
    }

    /// The node at path `path`.
    pub fn node_by_path(&self, path: &Vec<usize>) -> (n: &StateInMem)
        requires
            self.node_at(path@) is Some,
        ensures
            Some(*n) == self.node_at(path@),
    {
        let mut n = self;
        let mut d: usize = 0;
        proof {
            assert(path@.skip(0) =~= path@);
        }
        while d < path.len()
            invariant
                d <= path@.len(),
                self.node_at(path@) == n.node_at(path@.skip(d as int)),
                self.node_at(path@) is Some,
            decreases path@.len() - d,
        {
            proof {
                assert(path@.skip(d as int).drop_first() =~= path@.skip(d + 1));
                assert(path@.skip(d as int)[0] == path@[d as int]);
            }
            match n {
                StateInMem::Dir { childs, .. } => {
                    n = childs.node_at(path[d]);
                },
                _ => {
                    proof {
                        assert(false);
                    }
                },
            }
            d = d + 1;
        }
        proof {
            assert(path@.skip(d as int).len() == 0);
        }
        n
    }

    fn lookup_search(&self, parent: u64, cur: u64, tp: u64, name: &String) -> (r: Search<
        Vec<usize>,
    >)
        ensures
            search_view(r) == self.lookup_from(parent, cur, tp, name@),
        decreases self,
    {
        match self {
            StateInMem::Resolving => Search::Blocked,
            StateInMem::Dir { dir_name, childs, .. } => {
                if parent == tp && *dir_name == *name {
                    return Search::Found(Vec::new());
                }
                let mut i = childs.len();
                proof {
                    assert(childs@.take(i as int) =~= childs@);
                }
                while i > 0
                    invariant
                        i <= childs@.len(),
                        !(parent == tp && dir_name@ == name@),
                        self matches StateInMem::Dir { childs: c, .. } && c == childs,
                        self.lookup_from(parent, cur, tp, name@) == Self::lookup_in(
                            childs@.take(i as int),
                            cur,
                            tp,
                            name@,
                        ),
                    decreases i,
                {
                    let k = childs.key_at(i - 1);
                    let child = childs.node_at(i - 1);
                    proof {
                        childs.lemma_entry_decreases(i - 1);
                        assert(childs@.take(i as int).drop_last() =~= childs@.take(i - 1));
                        assert(childs@.take(i as int)[i - 1] == childs@[i - 1]);
                    }
                    let r = child.lookup_search(cur, k, tp, name);
                    match r {
                        Search::Absent => {},
                        Search::Found(mut p) => {
                            let ghost pv = p@;
                            p.insert(0, i - 1);
                            proof {
                                assert(p@ =~= seq![(i - 1) as usize] + pv);
                            }
                            return Search::Found(p);
                        },
                        Search::Pending(mut p, q) => {
                            let ghost pv = p@;
                            p.insert(0, i - 1);
                            proof {
                                assert(p@ =~= seq![(i - 1) as usize] + pv);
                            }
                            return Search::Pending(p, q);
                        },
                        Search::Blocked => {
                            return Search::Blocked;
                        },
                    }
                    i = i - 1;
                }
                Search::Absent
            },
            StateInMem::File { file_name, .. } => {
                if parent == tp && *file_name == *name {
                    Search::Found(Vec::new())
                } else {
                    Search::Absent
                }
            },
            StateInMem::LazyFile { file_name, .. } => {
                if parent == tp && *file_name == *name {
                    Search::Found(Vec::new())
                } else {
                    Search::Absent
                }
            },
            StateInMem::LazyDir { dir_name, .. } => {
                if parent == tp && *dir_name == *name {
                    Search::Found(Vec::new())
                } else {
                    Search::Absent
                }
            },
        }
    }

    fn dir_search(&self, parent: u64, cur: u64, t: u64) -> (r: Search<Vec<usize>>)
        ensures
            search_view(r) == self.dir_from(parent, cur, t),
        decreases self,
    {
        match self {
            StateInMem::LazyDir { .. } => Search::Pending(Vec::new(), parent),
            StateInMem::Dir { childs, .. } => {
                if cur == t {
                    return Search::Found(Vec::new());
                }
                let mut i = childs.len();
                proof {
                    assert(childs@.take(i as int) =~= childs@);
                }
                while i > 0
                    invariant
                        i <= childs@.len(),
                        cur != t,
                        self matches StateInMem::Dir { childs: c, .. } && c == childs,
                        self.dir_from(parent, cur, t) == Self::dir_in(childs@.take(i as int), cur, t),
                    decreases i,
                {
                    let k = childs.key_at(i - 1);
                    let child = childs.node_at(i - 1);
                    proof {
                        childs.lemma_entry_decreases(i - 1);
                        assert(childs@.take(i as int).drop_last() =~= childs@.take(i - 1));
                        assert(childs@.take(i as int)[i - 1] == childs@[i - 1]);
                    }
                    let r = child.dir_search(cur, k, t);
                    match r {
                        Search::Absent => {},
                        Search::Found(mut p) => {
                            let ghost pv = p@;
                            p.insert(0, i - 1);
                            proof {
                                assert(p@ =~= seq![(i - 1) as usize] + pv);
                            }
                            return Search::Found(p);
                        },
                        Search::Pending(mut p, q) => {
                            let ghost pv = p@;
                            p.insert(0, i - 1);
                            proof {
                                assert(p@ =~= seq![(i - 1) as usize] + pv);
                            }
                            return Search::Pending(p, q);
                        },
                        Search::Blocked => {
                            return Search::Blocked;
                        },
                    }
                    i = i - 1;
                }
                Search::Absent
            },
            _ => Search::Absent,
        }
    }
}

impl StateInMem {
    /// The inode numbers of the parent and of the node at the end of path
    /// `p`, for `self` reached as `cur` below `parent`.
    pub open spec fn inos_along(self, parent: u64, cur: u64, p: Seq<usize>) -> (u64, u64)
        decreases p.len(),
    {
        if p.len() == 0 {
            (parent, cur)
        } else {
            match self {
                StateInMem::Dir { childs, .. } => if p[0] < childs@.len() {
                    childs@[p[0] as int].1.inos_along(cur, childs@[p[0] as int].0, p.drop_first())
                } else {
                    (parent, cur)
                },
                _ => (parent, cur),
            }
        }
    }

    /// A lookup that succeeds stops at a node named `name` whose parent is
    /// `tp`.
    pub proof fn lemma_lookup_found(self, parent: u64, cur: u64, tp: u64, name: Seq<char>)
        ensures
            self.lookup_from(parent, cur, tp, name) matches Search::Found(p) ==> {
                &&& self.node_at(p) matches Some(n)
                &&& n.name_spec() matches Some(nm)
                &&& nm@ == name
                &&& self.inos_along(parent, cur, p).0 == tp
            },
            !(self.lookup_from(parent, cur, tp, name) is Pending),
        decreases self,
    {
        match self {
            StateInMem::Dir { dir_name, childs, .. } => {
                if !(parent == tp && dir_name@ == name) {
                    childs.lemma_view_decreases();
                    childs.lemma_len_bound();
                    Self::lemma_lookup_in_found(childs@, cur, tp, name);
                    if let Search::Found(p) = Self::lookup_in(childs@, cur, tp, name) {
                        assert(p.drop_first() =~= p.subrange(1, p.len() as int));
                    }
                }
            },
            _ => {},
        }
    }

    /// [`Self::lemma_lookup_found`] for the entries of a directory.
    pub proof fn lemma_lookup_in_found(s: Seq<(u64, StateInMem)>, cur: u64, tp: u64, name: Seq<char>)
        requires
            s.len() <= usize::MAX,
        ensures
            Self::lookup_in(s, cur, tp, name) matches Search::Found(p) ==> {
                &&& p.len() > 0
                &&& p[0] < s.len()
                &&& s[p[0] as int].1.node_at(p.drop_first()) matches Some(n)
                &&& n.name_spec() matches Some(nm)
                &&& nm@ == name
                &&& s[p[0] as int].1.inos_along(cur, s[p[0] as int].0, p.drop_first()).0 == tp
            },
            !(Self::lookup_in(s, cur, tp, name) is Pending),
        decreases s,
    {
        if s.len() > 0 {
            let i = s.len() - 1;
            s[i].1.lemma_lookup_found(cur, s[i].0, tp, name);
            Self::lemma_lookup_in_found(s.drop_last(), cur, tp, name);
            match s[i].1.lookup_from(cur, s[i].0, tp, name) {
                Search::Found(p) => {
                    let q = seq![i as usize] + p;
                    assert(q.drop_first() =~= p);
                    assert(q[0] == i);
                },
                Search::Absent => {
                    if let Search::Found(p) = Self::lookup_in(s.drop_last(), cur, tp, name) {
                        assert(s.drop_last()[p[0] as int] == s[p[0] as int]);
                    }
                },
                _ => {},
            }
        }
    }

    /// A search for a directory stops at a directory reached as `t`, or at
    /// a lazy directory together with the inode number of its parent.
    pub proof fn lemma_dir_found(self, parent: u64, cur: u64, t: u64)
        ensures
            self.dir_from(parent, cur, t) matches Search::Found(p) ==> {
                &&& self.node_at(p) matches Some(StateInMem::Dir { .. })
                &&& self.inos_along(parent, cur, p).1 == t
            },
            self.dir_from(parent, cur, t) matches Search::Pending(p, q) ==> {
                &&& self.node_at(p) matches Some(StateInMem::LazyDir { .. })
                &&& self.inos_along(parent, cur, p).0 == q
            },
            !(self.dir_from(parent, cur, t) is Blocked),
        decreases self,
    {
        match self {
            StateInMem::Dir { childs, .. } => {
                if cur != t {
                    childs.lemma_view_decreases();
                    childs.lemma_len_bound();
                    Self::lemma_dir_in_found(childs@, cur, t);
                    match Self::dir_in(childs@, cur, t) {
                        Search::Found(p) => {
                            assert(p.drop_first() =~= p.subrange(1, p.len() as int));
                        },
                        Search::Pending(p, q) => {
                            assert(p.drop_first() =~= p.subrange(1, p.len() as int));
                        },
                        _ => {},
                    }
                }
            },
            _ => {},
        }
    }

    /// [`Self::lemma_dir_found`] for the entries of a directory.
    pub proof fn lemma_dir_in_found(s: Seq<(u64, StateInMem)>, cur: u64, t: u64)
        requires
            s.len() <= usize::MAX,
        ensures
            Self::dir_in(s, cur, t) matches Search::Found(p) ==> {
                &&& p.len() > 0
                &&& p[0] < s.len()
                &&& s[p[0] as int].1.node_at(p.drop_first()) matches Some(StateInMem::Dir { .. })
                &&& s[p[0] as int].1.inos_along(cur, s[p[0] as int].0, p.drop_first()).1 == t
            },
            Self::dir_in(s, cur, t) matches Search::Pending(p, q) ==> {
                &&& p.len() > 0
                &&& p[0] < s.len()
                &&& s[p[0] as int].1.node_at(p.drop_first()) matches Some(StateInMem::LazyDir { .. })
                &&& s[p[0] as int].1.inos_along(cur, s[p[0] as int].0, p.drop_first()).0 == q
            },
            !(Self::dir_in(s, cur, t) is Blocked),
        decreases s,
    {
        if s.len() > 0 {
            let i = s.len() - 1;
            s[i].1.lemma_dir_found(cur, s[i].0, t);
            Self::lemma_dir_in_found(s.drop_last(), cur, t);
            match s[i].1.dir_from(cur, s[i].0, t) {
                Search::Found(p) => {
                    let r = seq![i as usize] + p;
                    assert(r.drop_first() =~= p);
                    assert(r[0] == i);
                },
                Search::Pending(p, q) => {
                    let r = seq![i as usize] + p;
                    assert(r.drop_first() =~= p);
                    assert(r[0] == i);
                },
                _ => {
                    match Self::dir_in(s.drop_last(), cur, t) {
                        Search::Found(p) => {
                            assert(s.drop_last()[p[0] as int] == s[p[0] as int]);
                        },
                        Search::Pending(p, q) => {
                            assert(s.drop_last()[p[0] as int] == s[p[0] as int]);
                        },
                        _ => {},
                    }
                },
            }
        }
    }
}

impl StateInMem {
    fn resolve_from(&mut self, path: &Vec<usize>, d: usize, childs: ChildMap)
        requires
            d <= path@.len(),
            old(self).node_at(path@.skip(d as int)) matches Some(StateInMem::LazyDir { .. }),
        ensures
            old(self).replaced_at(
                *final(self),
                path@.skip(d as int),
                old(self).node_at(path@.skip(d as int)).unwrap().resolved_with(childs),
            ),
        decreases path@.len() - d,
    {
        if d == path.len() {
            proof {
                assert(path@.skip(d as int).len() == 0);
            }
            let mut prev = StateInMem::Resolving;
            std::mem::swap(&mut prev, self);
            match prev {
                StateInMem::LazyDir { dir_name, file_attr } => {
                    *self = StateInMem::Dir { dir_name, file_attr, childs };
                },
                _ => {
                    *self = prev;
                },
            }
        } else {
            proof {
                assert(path@.skip(d as int).drop_first() =~= path@.skip(d + 1));
                assert(path@.skip(d as int)[0] == path@[d as int]);
            }
            match self {
                StateInMem::Dir { childs: cs, .. } => {
                    let i = path[d];
                    let mut child = cs.replace_node_at(i, StateInMem::Resolving);
                    child.resolve_from(path, d + 1, childs);
                    cs.replace_node_at(i, child);
                },
                _ => {},
            }
        }
    }

    /// Turns the lazy directory at `path` into a directory with children
    /// `childs`, under the same name and attributes.
    pub fn resolve_at(&mut self, path: &Vec<usize>, childs: ChildMap)
        requires
            old(self).node_at(path@) matches Some(StateInMem::LazyDir { .. }),
        ensures
            old(self).replaced_at(
                *final(self),
                path@,
                old(self).node_at(path@).unwrap().resolved_with(childs),
            ),
            final(self).node_at(path@) == Some(old(self).node_at(path@).unwrap().resolved_with(childs)),
            old(self).refines(*final(self)),
    {
        let ghost c = childs;
        proof {
            assert(path@.skip(0) =~= path@);
        }
        self.resolve_from(path, 0, childs);
        proof {
            let o = *old(self);
            o.lemma_replaced_at_node(*self, path@, o.node_at(path@).unwrap().resolved_with(c));
            o.lemma_resolve_refines(*self, path@, c);
        }
    }
}

impl StateInMem {
    /// The path of the entry named `name` in the directory with inode
    /// number `target_parent_ino`, by the walk of [`Self::lookup_from`]
    /// from this node (the root, its own parent).
    pub fn locate_entry(&self, target_parent_ino: &u64, name: &str) -> (r: Search<Vec<usize>>)
        requires
            !(*self is Resolving),
        ensures
            search_view(r) == self.lookup_from(
                self.root_ino_spec(),
                self.root_ino_spec(),
                *target_parent_ino,
                name@,
            ),
    {
        let ino = self.get_fileattr().unwrap().ino;
        let name_s = name.to_owned();
        self.lookup_search(ino, ino, *target_parent_ino, &name_s)
    }

    /// Looks up the entry named `name` in the directory with inode number
    /// `target_parent_ino`, by a walk from this node (the root, its own
    /// parent). A lazy directory found this way is resolved first, with the
    /// children that one call of `resolver.gen_children` with
    /// `target_parent_ino` hands out; no other call is made. The walk gives
    /// up at a node being resolved.
    pub fn get_file_obj_with_parent<R: LazyResolver>(
        &mut self,
        target_parent_ino: &u64,
        name: &str,
        resolver: &mut R,
    ) -> (r: Option<&FileAttr>)
        requires
            !(*old(self) is Resolving),
        ensures
            ({
                let o = *old(self);
                match o.lookup_from(o.root_ino_spec(), o.root_ino_spec(), *target_parent_ino, name@) {
                    Search::Found(p) => {
                        &&& deref_opt(r) == o.node_at(p).unwrap().attr_spec()
                        &&& if o.node_at(p).unwrap() is LazyDir {
                            exists|c: ChildMap|
                                old(resolver).generated(*target_parent_ino, *final(resolver), c)
                                    && o.replaced_at(*final(self), p, o.node_at(p).unwrap().resolved_with(c))
                        } else {
                            *final(self) == o && *final(resolver) == *old(resolver)
                        }
                    },
                    _ => r is None && *final(self) == o && *final(resolver) == *old(resolver),
                }
            }),
            old(self).refines(*final(self)),
    {
        let ghost o = *self;
        proof {
            o.lemma_refines_refl();
        }
        let ino = self.get_fileattr().unwrap().ino;
        let found = self.locate_entry(target_parent_ino, name);
        match found {
            Search::Found(path) => {
                proof {
                    o.lemma_lookup_found(ino, ino, *target_parent_ino, name@);
                }
                let lazy = match self.node_by_path(&path) {
                    StateInMem::LazyDir { .. } => true,
                    _ => false,
                };
                if lazy {
                    let childs = resolver.gen_children(target_parent_ino);
                    self.resolve_at(&path, childs);
                    proof {
                        assert(old(resolver).generated(*target_parent_ino, *resolver, childs));
                    }
                }
                self.node_by_path(&path).get_fileattr()
            },
            _ => None,
        }
    }

    /// Resolves lazy directories until the walk of [`Self::dir_from`] for
    /// directory `target_ino` from this node (the root, its own parent)
    /// finds it or ends: each lazy directory that the walk meets first is
    /// resolved with the children that `resolver` generates for the inode
    /// number of its parent, and the walk is taken again. Answers the last
    /// outcome of the walk.
    ///
    /// It gives up after `u64::MAX` resolutions, which no machine reaches:
    /// each one adds a directory to the tree.
    pub fn resolve_dir_path<R: LazyResolver>(&mut self, target_ino: &u64, resolver: &mut R) -> (r:
        Search<Vec<usize>>)
        requires
            !(*old(self) is Resolving),
        ensures
            old(self).refines(*final(self)),
            final(self).root_ino_spec() == old(self).root_ino_spec(),
            !(old(self).dir_from(old(self).root_ino_spec(), old(self).root_ino_spec(), *target_ino) is Pending)
                ==> *final(self) == *old(self),
            search_view(r) == final(self).dir_from(
                old(self).root_ino_spec(),
                old(self).root_ino_spec(),
                *target_ino,
            ),
            r is Pending ==> final(self).dir_count() >= u64::MAX,
            !(old(self).dir_from(old(self).root_ino_spec(), old(self).root_ino_spec(), *target_ino) is Pending)
                ==> *final(resolver) == *old(resolver),
            exists|n: nat|
                resolutions(*old(self), *old(resolver), *final(self), *final(resolver), *target_ino, n),
    {
        let ghost o = *self;
        let ghost r0 = *resolver;
        proof {
            o.lemma_refines_refl();
        }
        let ino = self.get_fileattr().unwrap().ino;
        let mut rounds: u64 = 0;
        loop
            invariant
                o.refines(*self),
                self.attr_spec() == o.attr_spec(),
                o.attr_spec() is Some,
                ino == o.root_ino_spec(),
                rounds == 0 ==> *self == o,
                rounds > 0 ==> o.dir_from(ino, ino, *target_ino) is Pending,
                o == *old(self),
                r0 == *old(resolver),
                self.dir_count() >= o.dir_count() + rounds,
                rounds == 0 ==> *resolver == r0,
                resolutions(o, r0, *self, *resolver, *target_ino, rounds as nat),
            decreases u64::MAX - rounds,
        {
            let found = self.dir_search(ino, ino, *target_ino);
            match found {
                Search::Pending(path, parent) => {
                    if rounds == u64::MAX {
                        return Search::Pending(path, parent);
                    }
                    proof {
                        self.lemma_dir_found(ino, ino, *target_ino);
                    }
                    let ghost rb = *resolver;
                    let childs = resolver.gen_children(&parent);
                    let ghost before = *self;
                    self.resolve_at(&path, childs);
                    proof {
                        o.lemma_refines_trans(before, *self);
                        before.lemma_refines_keeps_attr(*self);
                        before.lemma_resolve_dir_count(*self, path@, childs);
                        assert(rb.generated(parent, *resolver, childs));
                        assert(resolution_step(before, rb, *self, *resolver, *target_ino));
                        assert(resolutions(o, r0, *self, *resolver, *target_ino, (rounds + 1) as nat));
                    }
                    rounds = rounds + 1;
                },
                other => {
                    return other;
                },
            }
        }
    }

    /// Finds the directory with inode number `target_ino` and answers its
    /// children, resolving on the way every lazy directory that the walk
    /// meets before it (see [`Self::resolve_dir_path`]).
    pub fn get_crrent_dir<R: LazyResolver>(&mut self, target_ino: &u64, resolver: &mut R) -> (r:
        Option<&ChildMap>)
        requires
            !(*old(self) is Resolving),
        ensures
            old(self).refines(*final(self)),
            !(old(self).dir_from(old(self).root_ino_spec(), old(self).root_ino_spec(), *target_ino) is Pending)
                ==> *final(self) == *old(self),
            match final(self).dir_from(old(self).root_ino_spec(), old(self).root_ino_spec(), *target_ino) {
                Search::Found(p) => deref_opt(r) == final(self).node_at(p).unwrap().children_spec(),
                Search::Pending(..) => r is None && final(self).dir_count() >= u64::MAX,
                _ => r is None,
            },
            !(old(self).dir_from(old(self).root_ino_spec(), old(self).root_ino_spec(), *target_ino) is Pending)
                ==> *final(resolver) == *old(resolver),
            exists|n: nat|
                resolutions(*old(self), *old(resolver), *final(self), *final(resolver), *target_ino, n),
            r matches Some(c) ==> c.wf(),
    {
        let ghost ro = self.root_ino_spec();
        match self.resolve_dir_path(target_ino, resolver) {
            Search::Found(path) => {
                proof {
                    self.lemma_dir_found(ro, ro, *target_ino);
                }
                match self.node_by_path(&path) {
                    StateInMem::Dir { childs, .. } => {
                        proof {
                            use_type_invariant(childs);
                        }
                        Some(childs)
                    },
                    _ => None,
                }
            },
            _ => None,
        }
    }
}

} // verus!
