use vstd::prelude::*;
use crate::attr::FileAttr;

verus! {

/// A node of the in-memory file tree.
///
/// `LazyDir` and `LazyFile` stand for nodes whose contents have not been
/// produced yet; a `LazyDir` becomes a `Dir` once a [`LazyResolver`] has
/// generated its children. `Resolving` marks a node that is being replaced.
#[derive(Debug)]
pub enum StateInMem {
    File { file_name: String, file_attr: FileAttr, contents: String },
    Dir { dir_name: String, file_attr: FileAttr, childs: ChildMap },
    LazyDir { dir_name: String, file_attr: FileAttr },
    LazyFile { file_name: String, file_attr: FileAttr },
    Resolving,
}

/// The children of a directory, keyed by inode number.
///
/// Its view is the sequence of `(inode, node)` entries in storage order.
/// Every map keeps its keys strictly increasing (the type invariant
/// [`ChildMap::wf`]), so the storage order is the order of the keys and no
/// key occurs twice.
#[derive(Debug)]
pub struct ChildMap {
    entries: Vec<(u64, StateInMem)>,
}

/// Produces the contents of lazy directories on demand.
///
/// An implementation names, by [`LazyResolver::generated`], which children
/// a call of [`LazyResolver::gen_children`] hands out from which state;
/// the contracts of the tree's operations say which calls they make
/// through it.
pub trait LazyResolver: Sized {
    /// A call of `gen_children` with `parent` on this resolver may return
    /// `c` and leave the resolver as `next`. An implementation that does not
    /// name it claims nothing of its calls.
    open spec fn generated(&self, parent: u64, next: Self, c: ChildMap) -> bool {
        true
    }

    /// A call of `gen_new_inode` on this resolver may return `ino` and leave
    /// the resolver as `next`. An implementation that does not name it
    /// claims nothing of its calls.
    open spec fn handed_out(&self, ino: u64, next: Self) -> bool {
        true
    }

    /// Hands out a fresh inode number.
    fn gen_new_inode(&mut self) -> (ino: u64)
        ensures
            old(self).handed_out(ino, *final(self)),
    ;

    /// Generates the children of a lazy directory; the argument is the
    /// inode number that the caller passes for it.
    fn gen_children(&mut self, parent_ino: &u64) -> (c: ChildMap)
        ensures
            old(self).generated(*parent_ino, *final(self), c),
    ;
}

/// The keys of `s` are strictly increasing.
pub open spec fn keys_increasing(s: Seq<(u64, StateInMem)>) -> bool {
    forall|i: int, j: int| 0 <= i < j < s.len() ==> s[i].0 < s[j].0
}

/// `i` is the first position of `s` whose key is `k`.
pub open spec fn first_key_at(s: Seq<(u64, StateInMem)>, k: u64, i: int) -> bool {
    &&& 0 <= i < s.len()
    &&& s[i].0 == k
    &&& forall|j: int| 0 <= j < i ==> s[j].0 != k
}

/// Some entry of `s` has key `k`.
pub open spec fn has_key(s: Seq<(u64, StateInMem)>, k: u64) -> bool {
    exists|i: int| 0 <= i < s.len() && s[i].0 == k
}

/// `j` is where a new key `k` goes: every key before `j` is at most `k`,
/// and the key at `j`, if any, is greater than `k`.
pub open spec fn insert_pos_at(s: Seq<(u64, StateInMem)>, k: u64, j: int) -> bool {
    &&& 0 <= j <= s.len()
    &&& forall|i: int| 0 <= i < j ==> s[i].0 <= k
    &&& j < s.len() ==> s[j].0 > k
}

/// The entries of `s` read as a map: each key maps to the node of its first
/// entry.
pub open spec fn entries_as_map(s: Seq<(u64, StateInMem)>) -> Map<u64, StateInMem> {
    Map::new(
        |k: u64| has_key(s, k),
        |k: u64| s[choose|i: int| first_key_at(s, k, i)].1,
    )
}

/// `o` with the reference taken away.
pub open spec fn deref_opt<T>(o: Option<&T>) -> Option<T> {
    match o {
        Some(x) => Some(*x),
        None => None,
    }
}

impl View for ChildMap {
    type V = Seq<(u64, StateInMem)>;

    closed spec fn view(&self) -> Seq<(u64, StateInMem)> {
        self.entries@
    }
}

/// A key that occurs has a first occurrence.
pub proof fn lemma_first_key_exists(s: Seq<(u64, StateInMem)>, k: u64)
    requires
        has_key(s, k),
    ensures
        exists|i: int| first_key_at(s, k, i),
    decreases s.len(),
{
    if s[0].0 == k {
        assert(first_key_at(s, k, 0));
    } else {
        let a = choose|a: int| 0 <= a < s.len() && s[a].0 == k;
        assert(s.drop_first()[a - 1].0 == k);
        lemma_first_key_exists(s.drop_first(), k);
        let j = choose|j: int| first_key_at(s.drop_first(), k, j);
        assert forall|m: int| 0 <= m < j + 1 implies s[m].0 != k by {
            if m > 0 {
                assert(s[m] == s.drop_first()[m - 1]);
            }
        }
        assert(first_key_at(s, k, j + 1));
    }
}

proof fn lemma_first_key_unique(s: Seq<(u64, StateInMem)>, k: u64, i: int, j: int)
    requires
        first_key_at(s, k, i),
        first_key_at(s, k, j),
    ensures
        i == j,
{
}

impl ChildMap {
    /// Keys strictly increase along the entries. Every map keeps this.
    #[verifier::type_invariant]
    pub open spec fn wf(self) -> bool {
        keys_increasing(self@)
    }

    /// The map from inode numbers to nodes.
    pub open spec fn as_map(self) -> Map<u64, StateInMem> {
        entries_as_map(self@)
    }

    /// A map is larger than each node that it holds.
    pub proof fn lemma_entry_decreases(self, i: int)
        requires
            0 <= i < self@.len(),
        ensures
            decreases_to!(self => self@[i].1),
    {
        assert(decreases_to!(self => self.entries));
        assert(decreases_to!(self.entries => self.entries@));
        assert(decreases_to!(self.entries@ => self.entries@[i]));
    }

    /// A map holds at most `usize::MAX` entries.
    pub proof fn lemma_len_bound(self)
        ensures
            self@.len() <= usize::MAX,
    {
        assert(self.entries@.len() == self.entries.len());
    }

    /// A map is larger than its view.
    pub proof fn lemma_view_decreases(self)
        ensures
            decreases_to!(self => self@),
    {
        assert(decreases_to!(self => self.entries));
        assert(decreases_to!(self.entries => self.entries@));
    }

    /// An empty map.
    pub fn new() -> (m: ChildMap)
        ensures
            m@ == Seq::<(u64, StateInMem)>::empty(),
            m.wf(),
    {
        ChildMap { entries: Vec::new() }
    }

    /// The number of entries.
    pub fn len(&self) -> (n: usize)
        ensures
            n == self@.len(),
    {
        self.entries.len()
    }

    /// The key of the entry at position `i`.
    pub fn key_at(&self, i: usize) -> (k: u64)
        requires
            i < self@.len(),
        ensures
            k == self@[i as int].0,
    {
        self.entries[i].0
    }

    /// The node of the entry at position `i`.
    pub fn node_at(&self, i: usize) -> (n: &StateInMem)
        requires
            i < self@.len(),
        ensures
            *n == self@[i as int].1,
    {
        &self.entries[i].1
    }

    /// Puts `n` in place of the node of the entry at position `i`, under
    /// the same key, and hands back the node it replaces.
    pub fn replace_node_at(&mut self, i: usize, n: StateInMem) -> (prev: StateInMem)
        requires
            i < old(self)@.len(),
        ensures
            prev == old(self)@[i as int].1,
            final(self)@ == old(self)@.update(i as int, (old(self)@[i as int].0, n)),
    {
        proof {
            use_type_invariant(&*self);
        }
        let mut entries: Vec<(u64, StateInMem)> = Vec::new();
        std::mem::swap(&mut entries, &mut self.entries);
        let ghost s = entries@;
        let (k, prev) = entries.remove(i);
        entries.insert(i, (k, n));
        proof {
            assert(entries@ =~= s.update(i as int, (s[i as int].0, n)));
            assert forall|a: int, b: int| 0 <= a < b < entries@.len() implies entries@[a].0
                < entries@[b].0 by {
                assert(entries@[a].0 == s[a].0);
                assert(entries@[b].0 == s[b].0);
            }
        }
        self.entries = entries;
        prev
    }

    /// The position of the first entry with key `k`, if any.
    pub fn position(&self, k: u64) -> (r: Option<usize>)
        ensures
            match r {
                Some(i) => first_key_at(self@, k, i as int),
                None => !has_key(self@, k),
            },
    {
        let mut i: usize = 0;
        while i < self.entries.len()
            invariant
                i <= self@.len(),
                self@ == self.entries@,
                forall|j: int| 0 <= j < i ==> self@[j].0 != k,
            decreases self@.len() - i,
        {
            if self.entries[i].0 == k {
                return Some(i);
            }
            i = i + 1;
        }
        None
    }

    /// The node stored under key `k` (its first entry), if any.
    pub fn get(&self, k: &u64) -> (r: Option<&StateInMem>)
        ensures
            match r {
                Some(n) => exists|i: int| first_key_at(self@, *k, i) && *n == self@[i].1,
                None => !has_key(self@, *k),
            },
            deref_opt(r) == (if self.as_map().contains_key(*k) {
                Some(self.as_map()[*k])
            } else {
                None
            }),
    {
        match self.position(*k) {
            Some(i) => {
                proof {
                    let c = choose|j: int| first_key_at(self@, *k, j);
                    lemma_first_key_unique(self@, *k, i as int, c);
                }
                Some(&self.entries[i].1)
            },
            None => None,
        }
    }

    /// Stores `v` under `k`. A node already stored under `k` is replaced and
    /// returned; otherwise the new entry goes before the first greater key.
    pub fn insert(&mut self, k: u64, v: StateInMem) -> (r: Option<StateInMem>)
        ensures
            match r {
                Some(prev) => exists|i: int|
                    first_key_at(old(self)@, k, i) && prev == old(self)@[i].1
                        && final(self)@ == old(self)@.update(i, (k, v)),
                None => !has_key(old(self)@, k) && exists|j: int|
                    insert_pos_at(old(self)@, k, j) && final(self)@ == old(self)@.insert(j, (k, v)),
            },
            final(self).wf(),
            final(self).as_map() == old(self).as_map().insert(k, v),
    {
        proof {
            use_type_invariant(&*self);
        }
        let ghost s = self@;
        let pos = self.position(k);
        let mut entries: Vec<(u64, StateInMem)> = Vec::new();
        std::mem::swap(&mut entries, &mut self.entries);
        match pos {
            Some(i) => {
                let (_, prev) = entries.remove(i);
                entries.insert(i, (k, v));
                proof {
                    assert(entries@ =~= s.update(i as int, (k, v)));
                    lemma_update_keeps_map(s, k, v, i as int);
                }
                self.entries = entries;
                Some(prev)
            },
            None => {
                let mut j: usize = 0;
                while j < entries.len() && entries[j].0 <= k
                    invariant
                        j <= s.len(),
                        entries@ == s,
                        forall|i: int| 0 <= i < j ==> s[i].0 <= k,
                    decreases s.len() - j,
                {
                    j = j + 1;
                }
                entries.insert(j, (k, v));
                proof {
                    assert(insert_pos_at(s, k, j as int));
                    lemma_insert_keeps_map(s, k, v, j as int);
                }
                self.entries = entries;
                None
            },
        }
    }
}

proof fn lemma_update_keeps_map(s: Seq<(u64, StateInMem)>, k: u64, v: StateInMem, i: int)
    requires
        first_key_at(s, k, i),
    ensures
        keys_increasing(s) ==> keys_increasing(s.update(i, (k, v))),
        keys_increasing(s) ==> entries_as_map(s.update(i, (k, v))) == entries_as_map(s).insert(k, v),
{
    let t = s.update(i, (k, v));
    if keys_increasing(s) {
        assert forall|q: u64| #[trigger] has_key(t, q) == has_key(s, q) by {
            if has_key(t, q) {
                let a = choose|a: int| 0 <= a < t.len() && t[a].0 == q;
                assert(s[a].0 == q);
            }
            if has_key(s, q) {
                let a = choose|a: int| 0 <= a < s.len() && s[a].0 == q;
                assert(t[a].0 == q);
            }
        }
        assert forall|q: u64| has_key(t, q) implies #[trigger] entries_as_map(t)[q] == entries_as_map(
            s,
        ).insert(k, v)[q] by {
            let a = choose|a: int| 0 <= a < t.len() && t[a].0 == q;
            assert(first_key_at(t, q, a));
            assert(first_key_at(s, q, a));
            let ct = choose|c: int| first_key_at(t, q, c);
            lemma_first_key_unique(t, q, a, ct);
            if q != k {
                let cs = choose|c: int| first_key_at(s, q, c);
                lemma_first_key_unique(s, q, a, cs);
            }
        }
        assert(entries_as_map(t) =~= entries_as_map(s).insert(k, v));
    }
}

proof fn lemma_insert_keeps_map(s: Seq<(u64, StateInMem)>, k: u64, v: StateInMem, j: int)
    requires
        !has_key(s, k),
        insert_pos_at(s, k, j),
    ensures
        keys_increasing(s) ==> keys_increasing(s.insert(j, (k, v))),
        keys_increasing(s) ==> entries_as_map(s.insert(j, (k, v))) == entries_as_map(s).insert(k, v),
{
    let t = s.insert(j, (k, v));
    if keys_increasing(s) {
        assert forall|a: int, b: int| 0 <= a < b < t.len() implies t[a].0 < t[b].0 by {
            if a < j && b > j {
                assert(s[a].0 <= k);
                assert(s[a].0 != k);
            } else if a == j {
                assert(s[b - 1].0 != k);
                assert(s[b - 1].0 >= s[j].0 || b - 1 == j);
            } else if b == j {
                assert(s[a].0 != k);
            }
        }
        assert(t[j].0 == k);
        assert forall|q: u64| #[trigger] has_key(t, q) == (has_key(s, q) || q == k) by {
            if has_key(s, q) {
                let a = choose|a: int| 0 <= a < s.len() && s[a].0 == q;
                if a < j {
                    assert(t[a].0 == q);
                } else {
                    assert(t[a + 1].0 == q);
                }
            }
            if has_key(t, q) && q != k {
                let a = choose|a: int| 0 <= a < t.len() && t[a].0 == q;
                if a < j {
                    assert(s[a].0 == q);
                } else {
                    assert(s[a - 1].0 == q);
                }
            }
        }
        assert forall|q: u64| has_key(t, q) implies #[trigger] entries_as_map(t)[q] == entries_as_map(
            s,
        ).insert(k, v)[q] by {
            let ct = choose|c: int| first_key_at(t, q, c);
            if q == k {
                assert(first_key_at(t, k, j));
                lemma_first_key_unique(t, k, j, ct);
            } else {
                let a = choose|a: int| 0 <= a < s.len() && s[a].0 == q;
                assert(first_key_at(s, q, a));
                let cs = choose|c: int| first_key_at(s, q, c);
                lemma_first_key_unique(s, q, a, cs);
                if a < j {
                    assert(first_key_at(t, q, a));
                    lemma_first_key_unique(t, q, a, ct);
                } else {
                    assert(first_key_at(t, q, a + 1));
                    lemma_first_key_unique(t, q, a + 1, ct);
                }
            }
        }
        assert(entries_as_map(t) =~= entries_as_map(s).insert(k, v));
    }
}

impl StateInMem {
    /// The attributes of a node; a node being resolved has none.
    pub open spec fn attr_spec(self) -> Option<FileAttr> {
        match self {
            StateInMem::Dir { file_attr, .. } => Some(file_attr),
            StateInMem::File { file_attr, .. } => Some(file_attr),
            StateInMem::LazyDir { file_attr, .. } => Some(file_attr),
            StateInMem::LazyFile { file_attr, .. } => Some(file_attr),
            StateInMem::Resolving => None,
        }
    }

    /// The name of a node; a node being resolved has none.
    pub open spec fn name_spec(self) -> Option<String> {
        match self {
            StateInMem::Dir { dir_name, .. } => Some(dir_name),
            StateInMem::File { file_name, .. } => Some(file_name),
            StateInMem::LazyDir { dir_name, .. } => Some(dir_name),
            StateInMem::LazyFile { file_name, .. } => Some(file_name),
            StateInMem::Resolving => None,
        }
    }

    /// The node reached from `self` by following the child positions in `p`.
    pub open spec fn node_at(self, p: Seq<usize>) -> Option<StateInMem>
        decreases p.len(),
    {
        if p.len() == 0 {
            Some(self)
        } else {
            match self {
                StateInMem::Dir { childs, .. } => if p[0] < childs@.len() {
                    childs@[p[0] as int].1.node_at(p.drop_first())
                } else {
                    None
                },
                _ => None,
            }
        }
    }

    /// `new` is `self` with the node at path `p` replaced by `n`; everything
    /// off the path, and every key and name on it, stays as it was.
    pub open spec fn replaced_at(self, new: StateInMem, p: Seq<usize>, n: StateInMem) -> bool
        decreases p.len(),
    {
        if p.len() == 0 {
            new == n
        } else {
            match (self, new) {
                (
                    StateInMem::Dir { dir_name: n1, file_attr: a1, childs: c1 },
                    StateInMem::Dir { dir_name: n2, file_attr: a2, childs: c2 },
                ) => {
                    &&& n1 == n2
                    &&& a1 == a2
                    &&& p[0] < c1@.len()
                    &&& c2@.len() == c1@.len()
                    &&& forall|j: int| 0 <= j < c1@.len() && j != p[0] ==> #[trigger] c2@[j] == c1@[j]
                    &&& c2@[p[0] as int].0 == c1@[p[0] as int].0
                    &&& c1@[p[0] as int].1.replaced_at(c2@[p[0] as int].1, p.drop_first(), n)
                },
                _ => false,
            }
        }
    }

    /// `new` differs from `self` at most in that lazy directories have been
    /// resolved: names, attributes, keys and every other node stay, and a
    /// resolved directory may hold any children.
    pub open spec fn refines(self, new: StateInMem) -> bool
        decreases self,
    {
        match self {
            StateInMem::LazyDir { dir_name, file_attr } => new == self || (new matches StateInMem::Dir {
                dir_name: n2,
                file_attr: a2,
                ..
            } && n2 == dir_name && a2 == file_attr),
            StateInMem::Dir { dir_name, file_attr, childs } => match new {
                StateInMem::Dir { dir_name: n2, file_attr: a2, childs: c2 } => {
                    &&& n2 == dir_name
                    &&& a2 == file_attr
                    &&& c2@.len() == childs@.len()
                    &&& forall|j: int|
                        0 <= j < childs@.len() ==> #[trigger] c2@[j].0 == childs@[j].0 && {
                            proof {
                                childs.lemma_entry_decreases(j);
                            }
                            childs@[j].1.refines(c2@[j].1)
                        }
                },
                _ => false,
            },
            _ => new == self,
        }
    }

    /// The attributes of the node, if it has any.
    pub fn get_fileattr(&self) -> (r: Option<&FileAttr>)
        ensures
            deref_opt(r) == self.attr_spec(),
    {
        match self {
            StateInMem::Dir { file_attr, .. } => Some(file_attr),
            StateInMem::File { file_attr, .. } => Some(file_attr),
            StateInMem::LazyDir { file_attr, .. } => Some(file_attr),
            StateInMem::LazyFile { file_attr, .. } => Some(file_attr),
            StateInMem::Resolving => None,
        }
    }

    /// The name of the node, if it has one.
    pub fn get_name(&self) -> (r: Option<&String>)
        ensures
            deref_opt(r) == self.name_spec(),
    {
        match self {
            StateInMem::Dir { dir_name, .. } => Some(dir_name),
            StateInMem::File { file_name, .. } => Some(file_name),
            StateInMem::LazyDir { dir_name, .. } => Some(dir_name),
            StateInMem::LazyFile { file_name, .. } => Some(file_name),
            StateInMem::Resolving => None,
        }
    }

    /// The name and the attributes of the node, if it has them.
    pub fn get_name_and_fileattr(&self) -> (r: Option<(&String, &FileAttr)>)
        ensures
            match r {
                Some((n, a)) => self.name_spec() == Some(*n) && self.attr_spec() == Some(*a),
                None => self is Resolving,
            },
    {
        match self {
            StateInMem::Dir { file_attr, dir_name, .. } => Some((dir_name, file_attr)),
            StateInMem::File { file_attr, file_name, .. } => Some((file_name, file_attr)),
            StateInMem::LazyDir { file_attr, dir_name, .. } => Some((dir_name, file_attr)),
            StateInMem::LazyFile { file_attr, file_name, .. } => Some((file_name, file_attr)),
            StateInMem::Resolving => None,
        }
    }
}

impl StateInMem {
    /// The children of a directory.
    pub open spec fn children_spec(self) -> Option<ChildMap> {
        match self {
            StateInMem::Dir { childs, .. } => Some(childs),
            _ => None,
        }
    }

    /// A lazy directory turned into a directory with children `c`, under the
    /// same name and attributes; any other node as it is.
    pub open spec fn resolved_with(self, c: ChildMap) -> StateInMem {
        match self {
            StateInMem::LazyDir { dir_name, file_attr } => StateInMem::Dir {
                dir_name,
                file_attr,
                childs: c,
            },
            _ => self,
        }
    }

    /// After a replacement at `p`, `n` stands at `p`.
    pub proof fn lemma_replaced_at_node(self, new: StateInMem, p: Seq<usize>, n: StateInMem)
        requires
            self.replaced_at(new, p, n),
        ensures
            self.node_at(p) is Some,
            new.node_at(p) == Some(n),
        decreases p.len(),
    {
        if p.len() > 0 {
            match (self, new) {
                (StateInMem::Dir { childs: c1, .. }, StateInMem::Dir { childs: c2, .. }) => {
                    c1@[p[0] as int].1.lemma_replaced_at_node(c2@[p[0] as int].1, p.drop_first(), n);
                },
                _ => {},
            }
        }
    }

    /// Refinement keeps the name and the attributes of a node.
    pub proof fn lemma_refines_keeps_attr(self, new: StateInMem)
        requires
            self.refines(new),
        ensures
            new.attr_spec() == self.attr_spec(),
            new.name_spec() == self.name_spec(),
    {
    }

    /// Every node refines itself.
    pub proof fn lemma_refines_refl(self)
        ensures
            self.refines(self),
        decreases self,
    {
        match self {
            StateInMem::Dir { childs, .. } => {
                assert forall|j: int| 0 <= j < childs@.len() implies childs@[j].1.refines(
                    childs@[j].1,
                ) by {
                    childs.lemma_entry_decreases(j);
                    childs@[j].1.lemma_refines_refl();
                }
            },
            _ => {},
        }
    }

    /// Refinement is transitive: resolving in two steps is resolving.
    pub proof fn lemma_refines_trans(self, mid: StateInMem, new: StateInMem)
        requires
            self.refines(mid),
            mid.refines(new),
        ensures
            self.refines(new),
        decreases self,
    {
        match self {
            StateInMem::Dir { childs, .. } => {
                match (mid, new) {
                    (StateInMem::Dir { childs: c2, .. }, StateInMem::Dir { childs: c3, .. }) => {
                        assert forall|j: int| 0 <= j < childs@.len() implies #[trigger] c3@[j].0
                            == childs@[j].0 && childs@[j].1.refines(c3@[j].1) by {
                            childs.lemma_entry_decreases(j);
                            assert(c2@[j].0 == childs@[j].0);
                            assert(c3@[j].0 == c2@[j].0);
                            childs@[j].1.lemma_refines_trans(c2@[j].1, c3@[j].1);
                        }
                    },
                    _ => {},
                }
            },
            _ => {},
        }
    }

    /// Resolving the lazy directory at `p` is a refinement.
    pub proof fn lemma_resolve_refines(
        self,
        new: StateInMem,
        p: Seq<usize>,
        c: ChildMap,
    )
        requires
            self.node_at(p) matches Some(StateInMem::LazyDir { .. }),
            self.replaced_at(new, p, self.node_at(p).unwrap().resolved_with(c)),
        ensures
            self.refines(new),
        decreases p.len(),
    {
        if p.len() > 0 {
            match (self, new) {
                (StateInMem::Dir { childs: c1, .. }, StateInMem::Dir { childs: c2, .. }) => {
                    let i = p[0] as int;
                    c1@[i].1.lemma_resolve_refines(c2@[i].1, p.drop_first(), c);
                    assert forall|j: int| 0 <= j < c1@.len() implies #[trigger] c2@[j].0
                        == c1@[j].0 && c1@[j].1.refines(c2@[j].1) by {
                        if j != i {
                            c1@[j].1.lemma_refines_refl();
                        }
                    }
                },
                _ => {},
            }
        }
    }
}

impl StateInMem {
    /// The number of directories at or below this node.
    pub open spec fn dir_count(self) -> nat
        decreases self,
    {
        match self {
            StateInMem::Dir { childs, .. } => {
                proof {
                    childs.lemma_view_decreases();
                }
                1 + Self::dir_count_in(childs@)
            },
            _ => 0,
        }
    }

    /// The number of directories at or below the nodes of `s`.
    pub open spec fn dir_count_in(s: Seq<(u64, StateInMem)>) -> nat
        decreases s,
    {
        if s.len() == 0 {
            0
        } else {
            Self::dir_count_in(s.drop_last()) + s[s.len() - 1].1.dir_count()
        }
    }

    proof fn lemma_count_in_mono(s1: Seq<(u64, StateInMem)>, s2: Seq<(u64, StateInMem)>, i: int, d: nat)
        requires
            s1.len() == s2.len(),
            forall|j: int| #![trigger s2[j]] 0 <= j < s1.len() ==> s2[j].1.dir_count() >= s1[j].1.dir_count(),
            0 <= i < s1.len() ==> s2[i].1.dir_count() >= s1[i].1.dir_count() + d,
        ensures
            Self::dir_count_in(s2) >= Self::dir_count_in(s1) + (if 0 <= i < s1.len() { d } else { 0 }),
        decreases s1.len(),
    {
        if s1.len() > 0 {
            let l = s1.len() - 1;
            assert(s2[l].1.dir_count() >= s1[l].1.dir_count());
            assert forall|j: int| #![trigger s2.drop_last()[j]] 0 <= j < l implies s2.drop_last()[j].1.dir_count()
                >= s1.drop_last()[j].1.dir_count() by {
                assert(s2.drop_last()[j] == s2[j]);
                assert(s1.drop_last()[j] == s1[j]);
            }
            if 0 <= i < l {
                assert(s2.drop_last()[i] == s2[i]);
                assert(s1.drop_last()[i] == s1[i]);
            }
            Self::lemma_count_in_mono(s1.drop_last(), s2.drop_last(), if 0 <= i < l { i } else { -1 }, d);
        }
    }

    /// Resolving a lazy directory adds at least one directory.
    pub proof fn lemma_resolve_dir_count(self, new: StateInMem, p: Seq<usize>, c: ChildMap)
        requires
            self.node_at(p) matches Some(StateInMem::LazyDir { .. }),
            self.replaced_at(new, p, self.node_at(p).unwrap().resolved_with(c)),
        ensures
            new.dir_count() >= self.dir_count() + 1,
        decreases p.len(),
    {
        if p.len() > 0 {
            match (self, new) {
                (StateInMem::Dir { childs: c1, .. }, StateInMem::Dir { childs: c2, .. }) => {
                    let i = p[0] as int;
                    c1@[i].1.lemma_resolve_dir_count(c2@[i].1, p.drop_first(), c);
                    assert forall|j: int| #![trigger c2@[j]] 0 <= j < c1@.len() implies c2@[j].1.dir_count()
                        >= c1@[j].1.dir_count() by {
                        if j != i {
                            assert(c2@[j] == c1@[j]);
                        }
                    }
                    Self::lemma_count_in_mono(c1@, c2@, i, 1);
                },
                _ => {},
            }
        }
    }
}

impl StateInMem {
    /// `other` is a copy of this tree: the same variants, attributes and
    /// keys, and names and contents with the same text.
    pub open spec fn same_tree(self, other: StateInMem) -> bool
        decreases self,
    {
        match (self, other) {
            (
                StateInMem::File { file_name: n1, file_attr: a1, contents: c1 },
                StateInMem::File { file_name: n2, file_attr: a2, contents: c2 },
            ) => n1@ == n2@ && a1 == a2 && c1@ == c2@,
            (
                StateInMem::Dir { dir_name: n1, file_attr: a1, childs: c1 },
                StateInMem::Dir { dir_name: n2, file_attr: a2, childs: c2 },
            ) => {
                &&& n1@ == n2@
                &&& a1 == a2
                &&& c2@.len() == c1@.len()
                &&& forall|j: int|
                    #![trigger c2@[j]]
                    0 <= j < c1@.len() ==> c2@[j].0 == c1@[j].0 && {
                        proof {
                            c1.lemma_entry_decreases(j);
                        }
                        c1@[j].1.same_tree(c2@[j].1)
                    }
            },
            (
                StateInMem::LazyDir { dir_name: n1, file_attr: a1 },
                StateInMem::LazyDir { dir_name: n2, file_attr: a2 },
            ) => n1@ == n2@ && a1 == a2,
            (
                StateInMem::LazyFile { file_name: n1, file_attr: a1 },
                StateInMem::LazyFile { file_name: n2, file_attr: a2 },
            ) => n1@ == n2@ && a1 == a2,
            (StateInMem::Resolving, StateInMem::Resolving) => true,
            _ => false,
        }
    }

    /// A copy of this tree.
    pub fn copy_tree(&self) -> (r: StateInMem)
        ensures
            self.same_tree(r),
        decreases self,
    {
        match self {
            StateInMem::File { file_name, file_attr, contents } => StateInMem::File {
                file_name: file_name.clone(),
                file_attr: *file_attr,
                contents: contents.clone(),
            },
            StateInMem::Dir { dir_name, file_attr, childs } => StateInMem::Dir {
                dir_name: dir_name.clone(),
                file_attr: *file_attr,
                childs: childs.copy_map(),
            },
            StateInMem::LazyDir { dir_name, file_attr } => StateInMem::LazyDir {
                dir_name: dir_name.clone(),
                file_attr: *file_attr,
            },
            StateInMem::LazyFile { file_name, file_attr } => StateInMem::LazyFile {
                file_name: file_name.clone(),
                file_attr: *file_attr,
            },
            StateInMem::Resolving => StateInMem::Resolving,
        }
    }
}

impl ChildMap {
    /// `other` holds copies of the entries of this map, in the same order
    /// and under the same keys.
    pub open spec fn same_entries(self, other: ChildMap) -> bool {
        &&& other@.len() == self@.len()
        &&& forall|j: int|
            #![trigger other@[j]]
            0 <= j < self@.len() ==> other@[j].0 == self@[j].0 && self@[j].1.same_tree(other@[j].1)
    }

    /// A copy of this map.
    pub fn copy_map(&self) -> (r: ChildMap)
        ensures
            self.same_entries(r),
            r.wf(),
        decreases self,
    {
        let mut entries: Vec<(u64, StateInMem)> = Vec::new();
        let mut i: usize = 0;
        while i < self.entries.len()
            invariant
                i <= self@.len(),
                entries@.len() == i,
                forall|j: int|
                    #![trigger entries@[j]]
                    0 <= j < i ==> entries@[j].0 == self@[j].0 && self@[j].1.same_tree(entries@[j].1),
            decreases self@.len() - i,
        {
            proof {
                self.lemma_entry_decreases(i as int);
            }
            let copy = self.entries[i].1.copy_tree();
            entries.push((self.entries[i].0, copy));
            i = i + 1;
        }
        proof {
            use_type_invariant(self);
            assert forall|a: int, b: int| 0 <= a < b < entries@.len() implies entries@[a].0
                < entries@[b].0 by {
                assert(entries@[a].0 == self@[a].0);
                assert(entries@[b].0 == self@[b].0);
            }
        }
        ChildMap { entries }
    }
}

impl Clone for ChildMap {
    fn clone(&self) -> (r: Self)
        ensures
            self.same_entries(r),
    {
        self.copy_map()
    }
}

impl Clone for StateInMem {
    fn clone(&self) -> (r: Self)
        ensures
            self.same_tree(r),
    {
        self.copy_tree()
    }
}

} // verus!
