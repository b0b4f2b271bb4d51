use vstd::prelude::*;
use crate::attr::ROOT_INO;
use crate::tree::{StateInMem, deref_opt};

verus! {

/// Searches by inode number: `get_file_obj` and `get_parent_inode_of`.
///
/// A walk over the tree starts at the root, which counts as its own parent
/// and carries the inode number of its own attributes; every child carries
/// the key under which its directory stores it. Walks visit a node before
/// its children and the children of a directory from the last entry to the
/// first, that is from the greatest key down.
impl StateInMem {
    /// The inode number of the root of a walk: that of its own attributes.
    pub open spec fn root_ino_spec(self) -> u64 {
        self.attr_spec().unwrap().ino
    }

    /// `self`, reached as `cur` below `parent`, or a node below it carries
    /// `t`: the parent of the first such node in walk order.
    pub open spec fn parent_from(self, parent: u64, cur: u64, t: u64) -> Option<u64>
        decreases self,
    {
        if cur == t {
            Some(parent)
        } else {
            match self {
                StateInMem::Dir { childs, .. } => {
                    proof {
                        childs.lemma_view_decreases();
                    }
                    Self::parent_in(childs@, cur, t)
                },
                _ => None,
            }
        }
    }

    /// [`Self::parent_from`] over the entries of a directory `cur`, last entry first.
    pub open spec fn parent_in(s: Seq<(u64, StateInMem)>, cur: u64, t: u64) -> Option<u64>
        decreases s,
    {
        if s.len() == 0 {
            None
        } else {
            let last = s[s.len() - 1];
            match last.1.parent_from(cur, last.0, t) {
                Some(p) => Some(p),
                None => Self::parent_in(s.drop_last(), cur, t),
            }
        }
    }

    /// What `get_parent_inode_of(t)` answers: the root inode for the root
    /// inode, and otherwise the parent of the first node of the walk that
    /// carries `t`.
    pub open spec fn parent_of(self, t: u64) -> Option<u64> {
        if t == ROOT_INO {
            Some(ROOT_INO)
        } else {
            self.parent_from(self.root_ino_spec(), self.root_ino_spec(), t)
        }
    }

    fn parent_search(&self, parent: u64, cur: u64, t: u64) -> (r: Option<u64>)
        ensures
            r == self.parent_from(parent, cur, t),
        decreases self,
    {
        if cur == t {
            return Some(parent);
        }
        match self {
            StateInMem::Dir { childs, .. } => {
                let mut i = childs.len();
                proof {
                    assert(childs@.take(i as int) =~= childs@);
                }
                while i > 0
                    invariant
                        i <= childs@.len(),
                        cur != t,
                        self matches StateInMem::Dir { childs: c, .. } && c == childs,
                        self.parent_from(parent, cur, t) == Self::parent_in(
                            childs@.take(i as int),
                            cur,
                            t,
                        ),
                    decreases i,
                {
                    let k = childs.key_at(i - 1);
                    let child = childs.node_at(i - 1);
                    proof {
                        childs.lemma_entry_decreases(i - 1);
                        assert(childs@.take(i as int).drop_last() =~= childs@.take(i - 1));
                    }
                    let r = child.parent_search(cur, k, t);
                    if r.is_some() {
                        return r;
                    }
                    i = i - 1;
                }
                None
            },
            _ => None,
        }
    }

    /// The inode number of the directory that holds `target_ino`, found by
    /// a walk from this node; the root inode is its own parent.
    pub fn get_parent_inode_of(&self, target_ino: &u64) -> (r: Option<u64>)
        requires
            *target_ino != ROOT_INO ==> !(self is Resolving),
        ensures
            r == self.parent_of(*target_ino),
    {
        if *target_ino == ROOT_INO {
            Some(ROOT_INO)
        } else {
            let ino = self.get_fileattr().unwrap().ino;
            self.parent_search(ino, ino, *target_ino)
        }
    }

    /// What `get_file_obj(t)` answers: the node itself when `t` is the root
    /// inode and so is its own; else, for a directory, the child stored
    /// under `t`, or failing that the first child (in key order) for which
    /// the same question has an answer; else nothing.
    pub open spec fn obj_from(self, t: u64) -> Option<StateInMem>
        decreases self,
    {
        if t == ROOT_INO && self.attr_spec() is Some && self.root_ino_spec() == ROOT_INO {
            Some(self)
        } else {
            match self {
                StateInMem::Dir { childs, .. } => if childs.as_map().contains_key(t) {
                    Some(childs.as_map()[t])
                } else {
                    proof {
                        childs.lemma_view_decreases();
                    }
                    Self::obj_in(childs@, t)
                },
                _ => None,
            }
        }
    }

    /// The first entry of `s` for which [`Self::obj_from`] has an answer.
    pub open spec fn obj_in(s: Seq<(u64, StateInMem)>, t: u64) -> Option<StateInMem>
        decreases s,
    {
        if s.len() == 0 {
            None
        } else if s[0].1.obj_from(t) is Some {
            Some(s[0].1)
        } else {
            Self::obj_in(s.drop_first(), t)
        }
    }

    /// A search for the root inode from this node meets no node being
    /// resolved where it reads that node's attributes.
    pub open spec fn root_lookup_ok(self) -> bool
        decreases self,
    {
        match self {
            StateInMem::Resolving => false,
            StateInMem::Dir { childs, .. } => self.root_ino_spec() == ROOT_INO
                || childs.as_map().contains_key(ROOT_INO) || {
                proof {
                    childs.lemma_view_decreases();
                }
                Self::root_lookup_ok_in(childs@)
            },
            _ => true,
        }
    }

    /// [`Self::root_lookup_ok`] for the entries that a search visits.
    pub open spec fn root_lookup_ok_in(s: Seq<(u64, StateInMem)>) -> bool
        decreases s,
    {
        s.len() == 0 || (s[0].1.root_lookup_ok() && (s[0].1.obj_from(ROOT_INO) is None
            ==> Self::root_lookup_ok_in(s.drop_first())))
    }

    /// The node that answers for inode `target_ino`, as [`Self::obj_from`]
    /// describes it.
    pub fn get_file_obj(&self, target_ino: u64) -> (r: Option<&StateInMem>)
        requires
            target_ino != ROOT_INO || self.root_lookup_ok(),
        ensures
            deref_opt(r) == self.obj_from(target_ino),
        decreases self,
    {
        if target_ino == ROOT_INO && self.get_fileattr().unwrap().ino == ROOT_INO {
            return Some(self);
        }
        match self {
            StateInMem::Dir { childs, .. } => {
                if let Some(a) = childs.get(&target_ino) {
                    return Some(a);
                }
                let mut i: usize = 0;
                proof {
                    assert(childs@.skip(0) =~= childs@);
                }
                while i < childs.len()
                    invariant
                        i <= childs@.len(),
                        !childs.as_map().contains_key(target_ino),
                        self matches StateInMem::Dir { childs: c, .. } && c == childs,
                        self.obj_from(target_ino) == Self::obj_in(childs@.skip(i as int), target_ino),
                        target_ino == ROOT_INO ==> Self::root_lookup_ok_in(childs@.skip(i as int)),
                    decreases childs@.len() - i,
                {
                    let child = childs.node_at(i);
                    proof {
                        childs.lemma_entry_decreases(i as int);
                        assert(childs@.skip(i as int).drop_first() =~= childs@.skip(i + 1));
                        assert(childs@.skip(i as int)[0] == childs@[i as int]);
                    }
                    if child.get_file_obj(target_ino).is_some() {
                        return Some(child);
                    }
                    i = i + 1;
                }
                None
            },
            _ => None,
        }
    }
}

} // verus!
