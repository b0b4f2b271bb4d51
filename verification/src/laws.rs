use vstd::prelude::*;
use crate::attr::ROOT_INO;
use crate::resolve::Search;
use crate::tree::{ChildMap, StateInMem, has_key};
use vstd::string::StringSliceAdditionalSpecFns;
use crate::fs_ops::{
    dot_count, file_content, first_listed, read_range, HELLO_CONTENT, HELLO_FILE_INO, WORLD_CONTENT,
    WORLD_FILE_INO,
};
use crate::render::{decimal, ino_text};

verus! {

impl StateInMem {
    /// Some directory at or below this node stores an entry under key `t`.
    pub open spec fn holds_inode(self, t: u64) -> bool
        decreases self,
    {
        match self {
            StateInMem::Dir { childs, .. } => exists|i: int|
                #![trigger childs@[i]]
                0 <= i < childs@.len() && (childs@[i].0 == t || {
                    proof {
                        childs.lemma_entry_decreases(i);
                    }
                    childs@[i].1.holds_inode(t)
                }),
            _ => false,
        }
    }

    /// Some directory at or below this node, reached as `cur` (its entries
    /// as their keys), is reached as `p` and stores an entry under key `t`.
    pub open spec fn holds_edge(self, cur: u64, p: u64, t: u64) -> bool
        decreases self,
    {
        match self {
            StateInMem::Dir { childs, .. } => (cur == p && has_key(childs@, t)) || exists|i: int|
                #![trigger childs@[i]]
                0 <= i < childs@.len() && {
                    proof {
                        childs.lemma_entry_decreases(i);
                    }
                    childs@[i].1.holds_edge(childs@[i].0, p, t)
                },
            _ => false,
        }
    }

    /// No node at or below this one is being resolved.
    pub open spec fn free_of_resolving(self) -> bool
        decreases self,
    {
        match self {
            StateInMem::Resolving => false,
            StateInMem::Dir { childs, .. } => forall|i: int|
                #![trigger childs@[i]]
                0 <= i < childs@.len() ==> {
                    proof {
                        childs.lemma_entry_decreases(i);
                    }
                    childs@[i].1.free_of_resolving()
                },
            _ => true,
        }
    }

    /// No node at or below this one is a lazy directory.
    pub open spec fn free_of_lazy_dirs(self) -> bool
        decreases self,
    {
        match self {
            StateInMem::LazyDir { .. } => false,
            StateInMem::Dir { childs, .. } => forall|i: int|
                #![trigger childs@[i]]
                0 <= i < childs@.len() ==> {
                    proof {
                        childs.lemma_entry_decreases(i);
                    }
                    childs@[i].1.free_of_lazy_dirs()
                },
            _ => true,
        }
    }
}

proof fn lemma_obj_in(s: Seq<(u64, StateInMem)>, t: u64)
    ensures
        StateInMem::obj_in(s, t) is Some <==> exists|i: int|
            0 <= i < s.len() && (#[trigger] s[i].1.obj_from(t)) is Some,
        StateInMem::obj_in(s, t) matches Some(n) ==> exists|i: int| 0 <= i < s.len() && #[trigger] s[i].1 == n,
    decreases s,
{
    if s.len() > 0 {
        lemma_obj_in(s.drop_first(), t);
        if s[0].1.obj_from(t) is Some {
            assert(0 <= 0 < s.len() && (s[0].1.obj_from(t)) is Some);
            assert(s[0].1 == s[0].1);
        }
        if StateInMem::obj_in(s.drop_first(), t) is Some {
            let i = choose|i: int| 0 <= i < s.len() - 1 && (#[trigger] s.drop_first()[i].1.obj_from(t)) is Some;
            assert(s[i + 1] == s.drop_first()[i]);
        }
        if let Some(n) = StateInMem::obj_in(s.drop_first(), t) {
            let i = choose|i: int| 0 <= i < s.len() - 1 && #[trigger] s.drop_first()[i].1 == n;
            assert(s[i + 1] == s.drop_first()[i]);
        }
        if exists|i: int| 0 <= i < s.len() && (#[trigger] s[i].1.obj_from(t)) is Some {
            let i = choose|i: int| 0 <= i < s.len() && (#[trigger] s[i].1.obj_from(t)) is Some;
            if i > 0 {
                assert(s.drop_first()[i - 1] == s[i]);
            }
        }
    }
}

/// Answering by inode number: for any inode other than the root's,
/// `get_file_obj` answers exactly when some directory of the tree stores
/// an entry under that inode, and what it answers is the node itself or
/// one of its direct children: the one whose subtree holds the entry.
pub proof fn law_file_obj_finds_stored_inodes(tree: StateInMem, t: u64)
    requires
        t != ROOT_INO,
    ensures
        tree.obj_from(t) is Some <==> tree.holds_inode(t),
        tree.obj_from(t) matches Some(n) ==> n == tree || (tree.children_spec() matches Some(c) && exists|i: int|
            #![trigger c@[i]]
            0 <= i < c@.len() && c@[i].1 == n && (c@[i].0 == t || n.holds_inode(t))),
    decreases tree,
{
    match tree {
        StateInMem::Dir { childs, .. } => {
            let s = childs@;
            assert forall|i: int| 0 <= i < s.len() implies (#[trigger] s[i].1.obj_from(t)) is Some
                <==> s[i].1.holds_inode(t) by {
                childs.lemma_entry_decreases(i);
                law_file_obj_finds_stored_inodes(s[i].1, t);
            }
            lemma_obj_in(s, t);
            if childs.as_map().contains_key(t) {
                crate::tree::lemma_first_key_exists(s, t);
                let f = choose|f: int| crate::tree::first_key_at(s, t, f);
                assert(s[f].0 == t);
                assert(s[f].1 == childs.as_map()[t]);
                assert(0 <= f < childs@.len() && childs@[f].1 == tree.obj_from(t).unwrap() && childs@[f].0 == t);
                let c = tree.children_spec().unwrap();
                assert(c == childs);
                assert(exists|i: int|
                    #![trigger c@[i]]
                    0 <= i < c@.len() && c@[i].1 == tree.obj_from(t).unwrap() && (c@[i].0 == t || tree.obj_from(t).unwrap().holds_inode(t)));
            } else {
                assert(!has_key(s, t));
                if tree.holds_inode(t) {
                    let i = choose|i: int|
                        #![trigger s[i]]
                        0 <= i < s.len() && (s[i].0 == t || s[i].1.holds_inode(t));
                    assert(s[i].1.holds_inode(t));
                    assert((s[i].1.obj_from(t)) is Some);
                }
                if let Some(n) = tree.obj_from(t) {
                    let i = choose|i: int| 0 <= i < s.len() && #[trigger] s[i].1 == n;
                    let k = choose|k: int| 0 <= k < s.len() && (#[trigger] s[k].1.obj_from(t)) is Some;
                    assert(s[i].1 == n);
                    assert(n.holds_inode(t)) by {
                        lemma_obj_in_first(s, t);
                    }
                    assert(0 <= i < childs@.len() && childs@[i].1 == n && n.holds_inode(t));
                    let c = tree.children_spec().unwrap();
                    assert(c == childs);
                    assert(exists|i: int|
                        #![trigger c@[i]]
                        0 <= i < c@.len() && c@[i].1 == n && (c@[i].0 == t || n.holds_inode(t)));
                }
            }
        },
        _ => {},
    }
}

proof fn lemma_obj_in_first(s: Seq<(u64, StateInMem)>, t: u64)
    ensures
        StateInMem::obj_in(s, t) matches Some(n) ==> n.obj_from(t) is Some,
    decreases s,
{
    if s.len() > 0 {
        lemma_obj_in_first(s.drop_first(), t);
    }
}

proof fn lemma_parent_in(s: Seq<(u64, StateInMem)>, cur: u64, t: u64)
    ensures
        StateInMem::parent_in(s, cur, t) matches Some(q) ==> exists|i: int|
            0 <= i < s.len() && #[trigger] s[i].1.parent_from(cur, s[i].0, t) == Some(q),
        (exists|i: int| 0 <= i < s.len() && (#[trigger] s[i].1.parent_from(cur, s[i].0, t)) is Some)
            ==> StateInMem::parent_in(s, cur, t) is Some,
    decreases s,
{
    if s.len() > 0 {
        let l = s.len() - 1;
        lemma_parent_in(s.drop_last(), cur, t);
        if let Some(q) = StateInMem::parent_in(s.drop_last(), cur, t) {
            let i = choose|i: int|
                0 <= i < s.len() - 1 && #[trigger] s.drop_last()[i].1.parent_from(
                    cur,
                    s.drop_last()[i].0,
                    t,
                ) == Some(q);
            assert(s.drop_last()[i] == s[i]);
        }
        if exists|i: int| 0 <= i < s.len() && (#[trigger] s[i].1.parent_from(cur, s[i].0, t)) is Some {
            let i = choose|i: int| 0 <= i < s.len() && (#[trigger] s[i].1.parent_from(cur, s[i].0, t)) is Some;
            if i < l {
                assert(s.drop_last()[i] == s[i]);
            }
        }
        if s[l].1.parent_from(cur, s[l].0, t) is Some {
            assert(s[l].1.parent_from(cur, s[l].0, t) == StateInMem::parent_in(s, cur, t));
        }
    }
}

proof fn lemma_parent_from(node: StateInMem, parent: u64, cur: u64, t: u64, q: u64)
    ensures
        node.parent_from(parent, cur, t) == Some(q) ==> (cur == t && q == parent) || node.holds_edge(cur, q, t),
        node.holds_edge(cur, q, t) ==> node.parent_from(parent, cur, t) is Some,
    decreases node,
{
    if cur != t {
        match node {
            StateInMem::Dir { childs, .. } => {
                let s = childs@;
                childs.lemma_view_decreases();
                lemma_parent_in(s, cur, t);
                assert forall|i: int| #![trigger s[i]] 0 <= i < s.len() implies {
                    &&& s[i].1.parent_from(cur, s[i].0, t) == Some(q) ==> (s[i].0 == t && q == cur)
                        || s[i].1.holds_edge(s[i].0, q, t)
                    &&& s[i].1.holds_edge(s[i].0, q, t) ==> s[i].1.parent_from(cur, s[i].0, t) is Some
                } by {
                    childs.lemma_entry_decreases(i);
                    lemma_parent_from(s[i].1, cur, s[i].0, t, q);
                }
                if node.parent_from(parent, cur, t) == Some(q) {
                    let i = choose|i: int|
                        0 <= i < s.len() && #[trigger] s[i].1.parent_from(cur, s[i].0, t) == Some(q);
                    if s[i].0 == t && q == cur {
                        assert(has_key(s, t));
                        assert(node.holds_edge(cur, q, t));
                    } else {
                        assert(s[i].1.holds_edge(s[i].0, q, t));
                        assert(node.holds_edge(cur, q, t));
                    }
                }
                if node.holds_edge(cur, q, t) {
                    if cur == q && has_key(s, t) {
                        let i = choose|i: int| 0 <= i < s.len() && s[i].0 == t;
                        assert(s[i].1.parent_from(cur, s[i].0, t) is Some);
                    } else {
                        let i = choose|i: int|
                            #![trigger s[i]]
                            0 <= i < s.len() && s[i].1.holds_edge(s[i].0, q, t);
                        assert(s[i].1.parent_from(cur, s[i].0, t) is Some);
                    }
                }
            },
            _ => {},
        }
    }
}

/// Parents: for any inode other than the root's, an answer `q` of
/// `get_parent_inode_of` is a directory of the tree (reached as `q`) that
/// stores the inode, unless the inode is the tree's own, which is its own
/// parent; and whenever some directory stores the inode, there is an
/// answer.
pub proof fn law_parent_is_the_holding_directory(tree: StateInMem, t: u64, q: u64)
    requires
        t != ROOT_INO,
    ensures
        tree.parent_of(t) == Some(q) ==> (t == tree.root_ino_spec() && q == t) || tree.holds_edge(
            tree.root_ino_spec(),
            q,
            t,
        ),
        tree.holds_edge(tree.root_ino_spec(), q, t) ==> tree.parent_of(t) is Some,
{
    lemma_parent_from(tree, tree.root_ino_spec(), tree.root_ino_spec(), t, q);
}

proof fn lemma_lookup_in_shape(s: Seq<(u64, StateInMem)>, cur: u64, tp: u64, name: Seq<char>)
    requires
        s.len() <= usize::MAX,
    ensures
        StateInMem::lookup_in(s, cur, tp, name) matches Search::Found(p) ==> {
            &&& p.len() > 0
            &&& p[0] < s.len()
            &&& s[p[0] as int].1.lookup_from(cur, s[p[0] as int].0, tp, name) == Search::Found(p.drop_first())
            &&& forall|j: int| #![trigger s[j]] p[0] < j < s.len() ==> s[j].1.lookup_from(cur, s[j].0, tp, name) is Absent
        },
    decreases s,
{
    if s.len() > 0 {
        let l = s.len() - 1;
        lemma_lookup_in_shape(s.drop_last(), cur, tp, name);
        match s[l].1.lookup_from(cur, s[l].0, tp, name) {
            Search::Found(q) => {
                let p = seq![l as usize] + q;
                assert(p.drop_first() =~= q);
                assert(p[0] == l);
            },
            Search::Absent => {
                if let Search::Found(p) = StateInMem::lookup_in(s.drop_last(), cur, tp, name) {
                    assert(s.drop_last()[p[0] as int] == s[p[0] as int]);
                    assert forall|j: int| #![trigger s[j]] p[0] < j < s.len() implies s[j].1.lookup_from(
                        cur,
                        s[j].0,
                        tp,
                        name,
                    ) is Absent by {
                        if j < l {
                            assert(s.drop_last()[j] == s[j]);
                        }
                    }
                }
            },
            _ => {},
        }
    }
}

proof fn lemma_lookup_in_of_shape(
    s: Seq<(u64, StateInMem)>,
    cur: u64,
    tp: u64,
    name: Seq<char>,
    i: int,
    q: Seq<usize>,
)
    requires
        s.len() <= usize::MAX,
        0 <= i < s.len(),
        s[i].1.lookup_from(cur, s[i].0, tp, name) == Search::Found(q),
        forall|j: int| #![trigger s[j]] i < j < s.len() ==> s[j].1.lookup_from(cur, s[j].0, tp, name) is Absent,
    ensures
        StateInMem::lookup_in(s, cur, tp, name) == Search::Found(seq![i as usize] + q),
    decreases s,
{
    let l = s.len() - 1;
    if i < l {
        assert(s[l].1.lookup_from(cur, s[l].0, tp, name) is Absent);
        assert(s.drop_last()[i] == s[i]);
        assert forall|j: int| #![trigger s.drop_last()[j]] i < j < s.len() - 1 implies s.drop_last()[j].1.lookup_from(
            cur,
            s.drop_last()[j].0,
            tp,
            name,
        ) is Absent by {
            assert(s.drop_last()[j] == s[j]);
        }
        lemma_lookup_in_of_shape(s.drop_last(), cur, tp, name, i, q);
    }
}

proof fn lemma_lookup_stable(
    node: StateInMem,
    new: StateInMem,
    parent: u64,
    cur: u64,
    tp: u64,
    name: Seq<char>,
    p: Seq<usize>,
    n: StateInMem,
)
    requires
        node.lookup_from(parent, cur, tp, name) == Search::Found(p),
        node.replaced_at(new, p, n),
        n.name_spec() == node.node_at(p).unwrap().name_spec(),
        !(n is Resolving),
    ensures
        new.lookup_from(parent, cur, tp, name) == Search::Found(p),
    decreases p.len(),
{
    node.lemma_lookup_found(parent, cur, tp, name);
    if p.len() > 0 {
        match (node, new) {
            (StateInMem::Dir { childs: c1, .. }, StateInMem::Dir { childs: c2, .. }) => {
                let i = p[0] as int;
                c1.lemma_view_decreases();
                c1.lemma_len_bound();
                lemma_lookup_in_shape(c1@, cur, tp, name);
                c1@[i].1.lemma_replaced_at_node(c2@[i].1, p.drop_first(), n);
                lemma_lookup_stable(
                    c1@[i].1,
                    c2@[i].1,
                    cur,
                    c1@[i].0,
                    tp,
                    name,
                    p.drop_first(),
                    n,
                );
                assert forall|j: int| #![trigger c2@[j]] i < j < c2@.len() implies c2@[j].1.lookup_from(
                    cur,
                    c2@[j].0,
                    tp,
                    name,
                ) is Absent by {
                    assert(c2@[j] == c1@[j]);
                }
                lemma_lookup_in_of_shape(c2@, cur, tp, name, i, p.drop_first());
                assert(seq![i as usize] + p.drop_first() =~= p);
            },
            _ => {},
        }
    }
}

/// Looking up twice: when a lookup finds an entry and the node found is
/// then replaced by one with the same name and attributes (as resolving a
/// lazy directory does), the same lookup finds the same entry again.
/// So a second `get_file_obj_with_parent` for the same entry resolves
/// nothing more, leaves the tree as it is, and answers the same attributes.
pub proof fn law_lookup_again_finds_the_same(
    tree: StateInMem,
    new: StateInMem,
    tp: u64,
    name: Seq<char>,
    p: Seq<usize>,
    n: StateInMem,
)
    requires
        tree.lookup_from(tree.root_ino_spec(), tree.root_ino_spec(), tp, name) == Search::Found(p),
        tree.replaced_at(new, p, n),
        n.name_spec() == tree.node_at(p).unwrap().name_spec(),
        n.attr_spec() == tree.node_at(p).unwrap().attr_spec(),
    ensures
        new.root_ino_spec() == tree.root_ino_spec(),
        new.lookup_from(new.root_ino_spec(), new.root_ino_spec(), tp, name) == Search::Found(p),
        new.node_at(p) == Some(n),
{
    tree.lemma_lookup_found(tree.root_ino_spec(), tree.root_ino_spec(), tp, name);
    tree.lemma_replaced_at_node(new, p, n);
    lemma_lookup_stable(tree, new, tree.root_ino_spec(), tree.root_ino_spec(), tp, name, p, n);
}

proof fn lemma_lookup_not_blocked(node: StateInMem, parent: u64, cur: u64, tp: u64, name: Seq<char>)
    requires
        node.free_of_resolving(),
    ensures
        !(node.lookup_from(parent, cur, tp, name) is Blocked),
    decreases node,
{
    match node {
        StateInMem::Dir { childs, .. } => {
            childs.lemma_view_decreases();
            lemma_lookup_in_not_blocked(childs, childs@.len() as int, cur, tp, name);
            assert(childs@.take(childs@.len() as int) =~= childs@);
        },
        _ => {},
    }
}

proof fn lemma_lookup_in_not_blocked(
    c: ChildMap,
    m: int,
    cur: u64,
    tp: u64,
    name: Seq<char>,
)
    requires
        0 <= m <= c@.len(),
        forall|i: int| #![trigger c@[i]] 0 <= i < c@.len() ==> c@[i].1.free_of_resolving(),
    ensures
        !(StateInMem::lookup_in(c@.take(m), cur, tp, name) is Blocked),
    decreases c, m,
{
    if m > 0 {
        let s = c@.take(m);
        c.lemma_entry_decreases(m - 1);
        assert(s[m - 1] == c@[m - 1]);
        lemma_lookup_not_blocked(c@[m - 1].1, cur, c@[m - 1].0, tp, name);
        lemma_lookup_in_not_blocked(c, m - 1, cur, tp, name);
        assert(s.drop_last() =~= c@.take(m - 1));
    }
}

proof fn lemma_lookup_complete(
    node: StateInMem,
    parent: u64,
    cur: u64,
    tp: u64,
    name: Seq<char>,
    p: Seq<usize>,
)
    requires
        node.free_of_resolving(),
        node.node_at(p) matches Some(n) && n.name_spec() matches Some(nm) && nm@ == name,
        node.inos_along(parent, cur, p).0 == tp,
    ensures
        node.lookup_from(parent, cur, tp, name) is Found,
    decreases p.len(),
{
    if p.len() > 0 {
        match node {
            StateInMem::Dir { dir_name, childs, .. } => {
                if !(parent == tp && dir_name@ == name) {
                    let i = p[0] as int;
                    childs.lemma_view_decreases();
                    childs.lemma_len_bound();
                    childs.lemma_entry_decreases(i);
                    lemma_lookup_complete(childs@[i].1, cur, childs@[i].0, tp, name, p.drop_first());
                    lemma_lookup_found_somewhere(childs, cur, tp, name, i);
                }
            },
            _ => {},
        }
    }
}

proof fn lemma_lookup_found_somewhere(
    c: ChildMap,
    cur: u64,
    tp: u64,
    name: Seq<char>,
    i: int,
)
    requires
        0 <= i < c@.len(),
        c@[i].1.lookup_from(cur, c@[i].0, tp, name) is Found,
        forall|k: int| #![trigger c@[k]] 0 <= k < c@.len() ==> c@[k].1.free_of_resolving(),
    ensures
        StateInMem::lookup_in(c@, cur, tp, name) is Found,
{
    c.lemma_len_bound();
    let s = c@;
    if exists|j: int| #![trigger s[j]] i < j < s.len() && !(s[j].1.lookup_from(cur, s[j].0, tp, name) is Absent) {
        // the last entry after `i` whose lookup is not absent decides
        let j = choose|j: int| #![trigger s[j]] i < j < s.len() && !(s[j].1.lookup_from(cur, s[j].0, tp, name) is Absent);
        lemma_last_non_absent(c, cur, tp, name, j);
    } else {
        lemma_lookup_in_of_shape(s, cur, tp, name, i, c@[i].1.lookup_from(cur, c@[i].0, tp, name)->Found_0);
    }
}

proof fn lemma_last_non_absent(c: ChildMap, cur: u64, tp: u64, name: Seq<char>, j: int)
    requires
        0 <= j < c@.len(),
        !(c@[j].1.lookup_from(cur, c@[j].0, tp, name) is Absent),
        forall|k: int| #![trigger c@[k]] 0 <= k < c@.len() ==> c@[k].1.free_of_resolving(),
    ensures
        StateInMem::lookup_in(c@, cur, tp, name) is Found,
    decreases c@.len() - j,
{
    c.lemma_len_bound();
    let s = c@;
    if exists|k: int| #![trigger s[k]] j < k < s.len() && !(s[k].1.lookup_from(cur, s[k].0, tp, name) is Absent) {
        let k = choose|k: int| #![trigger s[k]] j < k < s.len() && !(s[k].1.lookup_from(cur, s[k].0, tp, name) is Absent);
        lemma_last_non_absent(c, cur, tp, name, k);
    } else {
        c.lemma_entry_decreases(j);
        lemma_lookup_not_blocked(s[j].1, cur, s[j].0, tp, name);
        s[j].1.lemma_lookup_found(cur, s[j].0, tp, name);
        lemma_lookup_in_of_shape(s, cur, tp, name, j, s[j].1.lookup_from(cur, s[j].0, tp, name)->Found_0);
    }
}

/// Lookup by parent and name: what a lookup finds is an entry of that name
/// whose parent is the given directory; and in a tree where no node is
/// being resolved, every entry of that name below that directory, reached
/// through directories, is found (the last one in walk order first).
pub proof fn law_lookup_finds_named_entries(tree: StateInMem, tp: u64, name: Seq<char>, p: Seq<usize>)
    ensures
        tree.lookup_from(tree.root_ino_spec(), tree.root_ino_spec(), tp, name) matches Search::Found(q) ==> {
            &&& tree.node_at(q) matches Some(n)
            &&& n.name_spec() matches Some(nm)
            &&& nm@ == name
            &&& tree.inos_along(tree.root_ino_spec(), tree.root_ino_spec(), q).0 == tp
        },
        ({
            &&& tree.free_of_resolving()
            &&& tree.node_at(p) matches Some(n)
            &&& n.name_spec() matches Some(nm)
            &&& nm@ == name
            &&& tree.inos_along(tree.root_ino_spec(), tree.root_ino_spec(), p).0 == tp
        }) ==> tree.lookup_from(tree.root_ino_spec(), tree.root_ino_spec(), tp, name) is Found,
{
    tree.lemma_lookup_found(tree.root_ino_spec(), tree.root_ino_spec(), tp, name);
    if ({
        &&& tree.free_of_resolving()
        &&& tree.node_at(p) matches Some(n)
        &&& n.name_spec() matches Some(nm)
        &&& nm@ == name
        &&& tree.inos_along(tree.root_ino_spec(), tree.root_ino_spec(), p).0 == tp
    }) {
        lemma_lookup_complete(tree, tree.root_ino_spec(), tree.root_ino_spec(), tp, name, p);
    }
}

proof fn lemma_dir_in_of_shape(s: Seq<(u64, StateInMem)>, cur: u64, t: u64, i: int, q: Seq<usize>)
    requires
        s.len() <= usize::MAX,
        0 <= i < s.len(),
        s[i].1.dir_from(cur, s[i].0, t) == Search::Found(q),
        forall|j: int| #![trigger s[j]] i < j < s.len() ==> s[j].1.dir_from(cur, s[j].0, t) is Absent,
    ensures
        StateInMem::dir_in(s, cur, t) == Search::Found(seq![i as usize] + q),
    decreases s,
{
    let l = s.len() - 1;
    if i < l {
        assert(s[l].1.dir_from(cur, s[l].0, t) is Absent);
        assert(s.drop_last()[i] == s[i]);
        assert forall|j: int| #![trigger s.drop_last()[j]] i < j < s.len() - 1 implies s.drop_last()[j].1.dir_from(
            cur,
            s.drop_last()[j].0,
            t,
        ) is Absent by {
            assert(s.drop_last()[j] == s[j]);
        }
        lemma_dir_in_of_shape(s.drop_last(), cur, t, i, q);
    }
}

proof fn lemma_dir_never_pending(node: StateInMem, parent: u64, cur: u64, t: u64)
    requires
        node.free_of_lazy_dirs(),
    ensures
        node.dir_from(parent, cur, t) is Found || node.dir_from(parent, cur, t) is Absent,
    decreases node,
{
    node.lemma_dir_found(parent, cur, t);
    match node {
        StateInMem::Dir { childs, .. } => {
            childs.lemma_view_decreases();
            lemma_dir_in_never_pending(childs, childs@.len() as int, cur, t);
            assert(childs@.take(childs@.len() as int) =~= childs@);
        },
        _ => {},
    }
}

proof fn lemma_dir_in_never_pending(c: ChildMap, m: int, cur: u64, t: u64)
    requires
        0 <= m <= c@.len(),
        forall|i: int| #![trigger c@[i]] 0 <= i < c@.len() ==> c@[i].1.free_of_lazy_dirs(),
    ensures
        StateInMem::dir_in(c@.take(m), cur, t) is Found || StateInMem::dir_in(c@.take(m), cur, t) is Absent,
    decreases c, m,
{
    if m > 0 {
        let s = c@.take(m);
        c.lemma_entry_decreases(m - 1);
        assert(s[m - 1] == c@[m - 1]);
        lemma_dir_never_pending(c@[m - 1].1, cur, c@[m - 1].0, t);
        lemma_dir_in_never_pending(c, m - 1, cur, t);
        assert(s.drop_last() =~= c@.take(m - 1));
    }
}

proof fn lemma_dir_last_found(c: ChildMap, cur: u64, t: u64, j: int)
    requires
        0 <= j < c@.len(),
        c@[j].1.dir_from(cur, c@[j].0, t) is Found,
        forall|k: int| #![trigger c@[k]] 0 <= k < c@.len() ==> c@[k].1.free_of_lazy_dirs(),
    ensures
        StateInMem::dir_in(c@, cur, t) is Found,
    decreases c@.len() - j,
{
    c.lemma_len_bound();
    let s = c@;
    if exists|k: int| #![trigger s[k]] j < k < s.len() && !(s[k].1.dir_from(cur, s[k].0, t) is Absent) {
        let k = choose|k: int| #![trigger s[k]] j < k < s.len() && !(s[k].1.dir_from(cur, s[k].0, t) is Absent);
        c.lemma_entry_decreases(k);
        lemma_dir_never_pending(s[k].1, cur, s[k].0, t);
        lemma_dir_last_found(c, cur, t, k);
    } else {
        lemma_dir_in_of_shape(s, cur, t, j, s[j].1.dir_from(cur, s[j].0, t)->Found_0);
    }
}

proof fn lemma_dir_complete(node: StateInMem, parent: u64, cur: u64, t: u64, p: Seq<usize>)
    requires
        node.free_of_lazy_dirs(),
        node.node_at(p) matches Some(StateInMem::Dir { .. }),
        node.inos_along(parent, cur, p).1 == t,
    ensures
        node.dir_from(parent, cur, t) is Found,
    decreases p.len(),
{
    if p.len() > 0 {
        match node {
            StateInMem::Dir { childs, .. } => {
                if cur != t {
                    let i = p[0] as int;
                    childs.lemma_view_decreases();
                    childs.lemma_entry_decreases(i);
                    lemma_dir_complete(childs@[i].1, cur, childs@[i].0, t, p.drop_first());
                    lemma_dir_last_found(childs, cur, t, i);
                }
            },
            _ => {},
        }
    }
}

/// Listing a directory of a resolved tree: when no lazy directory is left,
/// the search of `get_crrent_dir` meets none, so the call leaves the tree
/// as it is; and it finds every directory of the tree, reached through
/// directories, under the inode by which it is reached.
pub proof fn law_resolved_tree_lists_every_directory(tree: StateInMem, t: u64, p: Seq<usize>)
    requires
        tree.free_of_lazy_dirs(),
    ensures
        !(tree.dir_from(tree.root_ino_spec(), tree.root_ino_spec(), t) is Pending),
        tree.node_at(p) matches Some(StateInMem::Dir { .. }) && tree.inos_along(
            tree.root_ino_spec(),
            tree.root_ino_spec(),
            p,
        ).1 == t ==> tree.dir_from(tree.root_ino_spec(), tree.root_ino_spec(), t) is Found,
{
    lemma_dir_never_pending(tree, tree.root_ino_spec(), tree.root_ino_spec(), t);
    if tree.node_at(p) matches Some(StateInMem::Dir { .. }) && tree.inos_along(
        tree.root_ino_spec(),
        tree.root_ino_spec(),
        p,
    ).1 == t {
        lemma_dir_complete(tree, tree.root_ino_spec(), tree.root_ino_spec(), t, p);
    }
}

/// Listing twice: a directory that the search of `get_crrent_dir` finds
/// is a directory reached as the inode sought, and once it is found the
/// search meets no lazy directory, so a second call leaves the tree as it
/// is and answers the same children.
pub proof fn law_found_directory_is_stable(tree: StateInMem, t: u64)
    requires
        tree.dir_from(tree.root_ino_spec(), tree.root_ino_spec(), t) is Found,
    ensures
        !(tree.dir_from(tree.root_ino_spec(), tree.root_ino_spec(), t) is Pending),
        tree.node_at(tree.dir_from(tree.root_ino_spec(), tree.root_ino_spec(), t)->Found_0) matches Some(
            StateInMem::Dir { .. },
        ),
        tree.inos_along(
            tree.root_ino_spec(),
            tree.root_ino_spec(),
            tree.dir_from(tree.root_ino_spec(), tree.root_ino_spec(), t)->Found_0,
        ).1 == t,
{
    tree.lemma_dir_found(tree.root_ino_spec(), tree.root_ino_spec(), t);
}

proof fn lemma_path_push(node: StateInMem, parent: u64, cur: u64, p: Seq<usize>, i: int)
    requires
        node.node_at(p) matches Some(StateInMem::Dir { childs, .. }) && 0 <= i < childs@.len(),
    ensures
        ({
            let c = node.node_at(p).unwrap().children_spec().unwrap();
            &&& node.node_at(p.push(i as usize)) == Some(c@[i].1)
            &&& node.inos_along(parent, cur, p.push(i as usize)) == (
                node.inos_along(parent, cur, p).1,
                c@[i].0,
            )
        }),
    decreases p.len(),
{
    let q = p.push(i as usize);
    if p.len() == 0 {
        assert(q.drop_first().len() == 0);
        assert(q[0] == i as usize);
        let c = node.children_spec().unwrap();
        c.lemma_len_bound();
        assert(q[0] as int == i);
        assert(node.node_at(p) == Some(node));
        assert(c@[i].1.node_at(q.drop_first()) == Some(c@[i].1));
        assert(node.node_at(q) == Some(c@[i].1));
        assert(c@[i].1.inos_along(cur, c@[i].0, q.drop_first()) == (cur, c@[i].0));
    } else {
        match node {
            StateInMem::Dir { childs, .. } => {
                let j = p[0] as int;
                assert(q.drop_first() =~= p.drop_first().push(i as usize));
                assert(q[0] == p[0]);
                lemma_path_push(childs@[j].1, cur, childs@[j].0, p.drop_first(), i);
            },
            _ => {},
        }
    }
}

/// Listed entries are found by name: in a tree where no node is being
/// resolved, each child of a directory (reached through directories as
/// inode `d`) has a name, and a lookup of that name under `d` finds an
/// entry.
pub proof fn law_listed_entries_are_found_by_name(tree: StateInMem, p: Seq<usize>, i: int)
    requires
        tree.free_of_resolving(),
        tree.node_at(p) matches Some(StateInMem::Dir { childs, .. }) && 0 <= i < childs@.len(),
    ensures
        ({
            let ro = tree.root_ino_spec();
            let c = tree.node_at(p).unwrap().children_spec().unwrap();
            &&& c@[i].1.name_spec() matches Some(nm)
            &&& tree.lookup_from(ro, ro, tree.inos_along(ro, ro, p).1, nm@) is Found
        }),
{
    let ro = tree.root_ino_spec();
    let c = tree.node_at(p).unwrap().children_spec().unwrap();
    lemma_path_push(tree, ro, ro, p, i);
    lemma_free_along(tree, p.push(i as usize));
    let nm = c@[i].1.name_spec().unwrap();
    law_lookup_finds_named_entries(tree, tree.inos_along(ro, ro, p).1, nm@, p.push(i as usize));
}

proof fn lemma_free_along(node: StateInMem, p: Seq<usize>)
    requires
        node.free_of_resolving(),
        node.node_at(p) is Some,
    ensures
        !(node.node_at(p).unwrap() is Resolving),
    decreases p.len(),
{
    if p.len() > 0 {
        match node {
            StateInMem::Dir { childs, .. } => {
                let j = p[0] as int;
                childs.lemma_entry_decreases(j);
                assert(childs@[j].1.free_of_resolving());
                lemma_free_along(childs@[j].1, p.drop_first());
            },
            _ => {},
        }
    }
}

/// Listings resume where they stopped. Number the entries of a directory
/// with `n` children as the listing from offset 0 gives them: `.` is entry
/// 0, `..` entry 1, the child at position `j` entry `j + 2`; entry `m`
/// carries offset `m + 1` (see `dir_listing`). A listing from offset `o`,
/// up to `n + 2`, holds `dot_count(o)` entries `.`/`..` and then the
/// children from position `first_listed(o, n)` on; that is, it starts at
/// entry `o` and goes on in order. So a listing taken again from the offset
/// of the last entry accepted goes on with the next entry: none is listed
/// twice and none is skipped. Past `n + 2` a listing is empty.
pub proof fn law_listing_resumes(n: int, o: u64)
    requires
        0 <= n,
    ensures
        dot_count(o) == (if o == 0 {
            2int
        } else if o == 1 {
            1int
        } else {
            0int
        }),
        o <= n + 2 ==> first_listed(o, n) + 2 == o + dot_count(o),
        o > n + 2 ==> dot_count(o) == 0 && first_listed(o, n) == n,
{
}

impl StateInMem {
    /// Every directory at or below this node stores each child under the
    /// inode number of the child's own attributes.
    pub open spec fn keys_match_inodes(self) -> bool
        decreases self,
    {
        match self {
            StateInMem::Dir { childs, .. } => forall|i: int|
                #![trigger childs@[i]]
                0 <= i < childs@.len() ==> {
                    proof {
                        childs.lemma_entry_decreases(i);
                    }
                    &&& childs@[i].1.attr_spec() matches Some(a)
                    &&& a.ino == childs@[i].0
                    &&& childs@[i].1.keys_match_inodes()
                },
            _ => true,
        }
    }
}

/// Each node of `s` is stored under the inode number of its own
/// attributes, and keeps keys and inode numbers in step below it.
pub open spec fn entries_match_inodes(s: Seq<(u64, StateInMem)>) -> bool {
    forall|i: int| #![trigger s[i]] 0 <= i < s.len() ==> entry_matches_inode(s[i])
}

/// The node of entry `e` is stored under the inode number of its own
/// attributes, and keeps keys and inode numbers in step below it.
pub open spec fn entry_matches_inode(e: (u64, StateInMem)) -> bool {
    &&& e.1.attr_spec() matches Some(a)
    &&& a.ino == e.0
    &&& e.1.keys_match_inodes()
}

/// Resolution keeps keys and inode numbers in step: when every directory
/// of the tree stores each child under the child's own inode number, and
/// the children that resolve a lazy directory do so too, the tree after
/// the resolution does so as well.
pub proof fn law_resolution_keeps_keys_matching_inodes(
    tree: StateInMem,
    new: StateInMem,
    p: Seq<usize>,
    c: ChildMap,
)
    requires
        tree.keys_match_inodes(),
        tree.node_at(p) matches Some(StateInMem::LazyDir { .. }),
        tree.replaced_at(new, p, tree.node_at(p).unwrap().resolved_with(c)),
        entries_match_inodes(c@),
    ensures
        new.keys_match_inodes(),
    decreases p.len(),
{
    if p.len() == 0 {
        assert(new == tree.resolved_with(c));
    } else {
        match (tree, new) {
            (StateInMem::Dir { childs: c1, .. }, StateInMem::Dir { childs: c2, .. }) => {
                let i = p[0] as int;
                c1.lemma_entry_decreases(i);
                assert(c1@[i].1.keys_match_inodes());
                law_resolution_keeps_keys_matching_inodes(c1@[i].1, c2@[i].1, p.drop_first(), c);
                tree.lemma_resolve_refines(new, p, c);
                assert forall|j: int| #![trigger c2@[j]] 0 <= j < c2@.len() implies entry_matches_inode(
                    c2@[j],
                ) by {
                    if j != i {
                        assert(c2@[j] == c1@[j]);
                    } else {
                        c1@[i].1.lemma_resolve_refines(c2@[i].1, p.drop_first(), c);
                        c1@[i].1.lemma_refines_keeps_attr(c2@[i].1);
                    }
                }
            },
            _ => {},
        }
    }
}

/// The node at path `q` is named `name` and reached below the directory
/// with inode `d`.
pub open spec fn named_under(tree: StateInMem, q: Seq<usize>, d: u64, name: Seq<char>) -> bool {
    let ro = tree.root_ino_spec();
    &&& tree.node_at(q) matches Some(n)
    &&& n.name_spec() matches Some(nm)
    &&& nm@ == name
    &&& tree.inos_along(ro, ro, q).0 == d
}

/// At most one node of the tree is named `name` below the directory with
/// inode `d`.
pub open spec fn named_once(tree: StateInMem, d: u64, name: Seq<char>) -> bool {
    forall|q1: Seq<usize>, q2: Seq<usize>|
        #![trigger named_under(tree, q1, d, name), named_under(tree, q2, d, name)]
        named_under(tree, q1, d, name) && named_under(tree, q2, d, name) ==> q1 == q2
}

/// A listed entry is found again by its name: in a tree where no node is
/// being resolved, a lookup of the name of a child of a directory (reached
/// as inode `d`) under `d` finds exactly that child, when no other node is
/// so named under `d`.
pub proof fn law_listed_entry_is_found_again(tree: StateInMem, p: Seq<usize>, i: int)
    requires
        tree.free_of_resolving(),
        tree.node_at(p) matches Some(StateInMem::Dir { childs, .. }) && 0 <= i < childs@.len(),
        ({
            let ro = tree.root_ino_spec();
            let c = tree.node_at(p).unwrap().children_spec().unwrap();
            named_once(tree, tree.inos_along(ro, ro, p).1, c@[i].1.name_spec().unwrap()@)
        }),
    ensures
        ({
            let ro = tree.root_ino_spec();
            let c = tree.node_at(p).unwrap().children_spec().unwrap();
            &&& tree.lookup_from(ro, ro, tree.inos_along(ro, ro, p).1, c@[i].1.name_spec().unwrap()@)
                == Search::Found(p.push(i as usize))
            &&& tree.node_at(p.push(i as usize)) == Some(c@[i].1)
        }),
{
    let ro = tree.root_ino_spec();
    let c = tree.node_at(p).unwrap().children_spec().unwrap();
    let d = tree.inos_along(ro, ro, p).1;
    let nm = c@[i].1.name_spec().unwrap()@;
    law_listed_entries_are_found_by_name(tree, p, i);
    lemma_path_push(tree, ro, ro, p, i);
    lemma_free_along(tree, p.push(i as usize));
    tree.lemma_lookup_found(ro, ro, d, nm);
    let q = tree.lookup_from(ro, ro, d, nm)->Found_0;
    assert(named_under(tree, q, d, nm));
    assert(named_under(tree, p.push(i as usize), d, nm));
}

proof fn lemma_edge_path(node: StateInMem, parent: u64, cur: u64, q: u64, t: u64)
    requires
        node.holds_edge(cur, q, t),
    ensures
        exists|p: Seq<usize>|
            #![trigger node.node_at(p)]
            node.node_at(p) matches Some(StateInMem::Dir { childs: cs, .. }) && has_key(cs@, t)
                && node.inos_along(parent, cur, p).1 == q,
    decreases node,
{
    match node {
        StateInMem::Dir { childs, .. } => {
            if cur == q && has_key(childs@, t) {
                assert(node.node_at(Seq::empty()) == Some(node));
                assert(node.inos_along(parent, cur, Seq::empty()).1 == q);
            } else {
                let i = choose|i: int|
                    #![trigger childs@[i]]
                    0 <= i < childs@.len() && childs@[i].1.holds_edge(childs@[i].0, q, t);
                childs.lemma_entry_decreases(i);
                childs.lemma_len_bound();
                lemma_edge_path(childs@[i].1, cur, childs@[i].0, q, t);
                let p2 = choose|p: Seq<usize>|
                    #![trigger childs@[i].1.node_at(p)]
                    childs@[i].1.node_at(p) matches Some(StateInMem::Dir { childs: cs, .. }) && has_key(cs@, t)
                        && childs@[i].1.inos_along(cur, childs@[i].0, p).1 == q;
                let p = seq![i as usize] + p2;
                assert(p.drop_first() =~= p2);
                assert(p[0] == i as usize);
                assert(node.node_at(p) == childs@[i].1.node_at(p2));
                assert(node.inos_along(parent, cur, p) == childs@[i].1.inos_along(cur, childs@[i].0, p2));
            }
        },
        _ => {},
    }
}

/// The node at path `p` is a directory reached as inode `q`.
pub open spec fn dir_reached_at(tree: StateInMem, p: Seq<usize>, q: u64) -> bool {
    let ro = tree.root_ino_spec();
    &&& tree.node_at(p) matches Some(StateInMem::Dir { .. })
    &&& tree.inos_along(ro, ro, p).1 == q
}

/// At most one directory of the tree is reached as inode `q`.
pub open spec fn dir_reached_once(tree: StateInMem, q: u64) -> bool {
    forall|p1: Seq<usize>, p2: Seq<usize>|
        #![trigger dir_reached_at(tree, p1, q), dir_reached_at(tree, p2, q)]
        dir_reached_at(tree, p1, q) && dir_reached_at(tree, p2, q) ==> p1 == p2
}

/// A parent lists its child: in a tree with no lazy directory left, when
/// `get_parent_inode_of` answers `q` for an inode `t` (neither the root
/// inode nor the tree's own) and only one directory is reached as `q`, the
/// search of `get_crrent_dir` for `q` finds that directory (so the call
/// changes nothing and answers its children), and its children hold `t`.
pub proof fn law_parent_lists_its_child(tree: StateInMem, t: u64, q: u64)
    requires
        t != ROOT_INO,
        t != tree.root_ino_spec(),
        tree.free_of_lazy_dirs(),
        dir_reached_once(tree, q),
        tree.parent_of(t) == Some(q),
    ensures
        ({
            let ro = tree.root_ino_spec();
            &&& tree.dir_from(ro, ro, q) matches Search::Found(p)
            &&& tree.node_at(p) matches Some(StateInMem::Dir { childs, .. })
            &&& has_key(childs@, t)
        }),
{
    let ro = tree.root_ino_spec();
    law_parent_is_the_holding_directory(tree, t, q);
    lemma_edge_path(tree, ro, ro, q, t);
    let p = choose|p: Seq<usize>|
        #![trigger tree.node_at(p)]
        tree.node_at(p) matches Some(StateInMem::Dir { childs: cs, .. }) && has_key(cs@, t)
            && tree.inos_along(ro, ro, p).1 == q;
    assert(dir_reached_at(tree, p, q));
    law_resolved_tree_lists_every_directory(tree, q, p);
    tree.lemma_dir_found(ro, ro, q);
    let p2 = tree.dir_from(ro, ro, q)->Found_0;
    assert(dir_reached_at(tree, p2, q));
}

/// Resolution leaves no node being resolved: when no node of the tree is
/// being resolved and none of the children that resolve a lazy directory
/// is, none of the tree after the resolution is.
pub proof fn law_resolution_keeps_free_of_resolving(
    tree: StateInMem,
    new: StateInMem,
    p: Seq<usize>,
    c: ChildMap,
)
    requires
        tree.free_of_resolving(),
        tree.node_at(p) matches Some(StateInMem::LazyDir { .. }),
        tree.replaced_at(new, p, tree.node_at(p).unwrap().resolved_with(c)),
        forall|i: int| #![trigger c@[i]] 0 <= i < c@.len() ==> c@[i].1.free_of_resolving(),
    ensures
        new.free_of_resolving(),
    decreases p.len(),
{
    if p.len() > 0 {
        match (tree, new) {
            (StateInMem::Dir { childs: c1, .. }, StateInMem::Dir { childs: c2, .. }) => {
                let i = p[0] as int;
                c1.lemma_entry_decreases(i);
                assert(c1@[i].1.free_of_resolving());
                law_resolution_keeps_free_of_resolving(c1@[i].1, c2@[i].1, p.drop_first(), c);
                assert forall|j: int| #![trigger c2@[j]] 0 <= j < c2@.len() implies c2@[j].1.free_of_resolving() by {
                    if j != i {
                        assert(c2@[j] == c1@[j]);
                        assert(c1@[j].1.free_of_resolving());
                    }
                }
            },
            _ => {},
        }
    }
}

impl StateInMem {
    /// No key is stored twice at or below this node: sibling keys differ,
    /// no key recurs below its own entry, and the subtrees of two siblings
    /// share no key.
    pub open spec fn inodes_unique(self) -> bool
        decreases self,
    {
        match self {
            StateInMem::Dir { childs, .. } => forall|i: int|
                #![trigger childs@[i]]
                0 <= i < childs@.len() ==> {
                    proof {
                        childs.lemma_entry_decreases(i);
                    }
                    &&& childs@[i].1.inodes_unique()
                    &&& !childs@[i].1.holds_inode(childs@[i].0)
                    &&& forall|j: int|
                        #![trigger childs@[j]]
                        0 <= j < childs@.len() && j != i ==> siblings_apart(childs@[i], childs@[j])
                },
            _ => true,
        }
    }
}

/// Two entries of one directory share no key: neither their own keys nor
/// any key below them.
pub open spec fn siblings_apart(a: (u64, StateInMem), b: (u64, StateInMem)) -> bool {
    &&& a.0 != b.0
    &&& !b.1.holds_inode(a.0)
    &&& forall|x: u64| #[trigger] a.1.holds_inode(x) ==> !b.1.holds_inode(x)
}

proof fn lemma_child_keys_held(node: StateInMem, i: int, x: u64)
    requires
        node matches StateInMem::Dir { childs, .. } && 0 <= i < childs@.len(),
        node.children_spec().unwrap()@[i].0 == x || node.children_spec().unwrap()@[i].1.holds_inode(x),
    ensures
        node.holds_inode(x),
{
    let c = node.children_spec().unwrap();
    assert(c@[i] == c@[i]);
}

proof fn lemma_resolve_holds(
    tree: StateInMem,
    new: StateInMem,
    p: Seq<usize>,
    c: ChildMap,
    x: u64,
)
    requires
        tree.node_at(p) matches Some(StateInMem::LazyDir { .. }),
        tree.replaced_at(new, p, tree.node_at(p).unwrap().resolved_with(c)),
    ensures
        new.holds_inode(x) <==> (tree.holds_inode(x) || tree.node_at(p).unwrap().resolved_with(
            c,
        ).holds_inode(x)),
    decreases p.len(),
{
    if p.len() > 0 {
        match (tree, new) {
            (StateInMem::Dir { childs: c1, .. }, StateInMem::Dir { childs: c2, .. }) => {
                let i = p[0] as int;
                lemma_resolve_holds(c1@[i].1, c2@[i].1, p.drop_first(), c, x);
                if new.holds_inode(x) {
                    let j = choose|j: int|
                        #![trigger c2@[j]]
                        0 <= j < c2@.len() && (c2@[j].0 == x || c2@[j].1.holds_inode(x));
                    if j != i {
                        assert(c2@[j] == c1@[j]);
                        lemma_child_keys_held(tree, j, x);
                    } else if c2@[i].0 == x || c1@[i].1.holds_inode(x) {
                        lemma_child_keys_held(tree, i, x);
                    }
                }
                if tree.holds_inode(x) {
                    let j = choose|j: int|
                        #![trigger c1@[j]]
                        0 <= j < c1@.len() && (c1@[j].0 == x || c1@[j].1.holds_inode(x));
                    if j != i {
                        assert(c2@[j] == c1@[j]);
                    }
                    lemma_child_keys_held(new, j, x);
                }
                if tree.node_at(p).unwrap().resolved_with(c).holds_inode(x) {
                    assert(c2@[i].1.holds_inode(x));
                    lemma_child_keys_held(new, i, x);
                }
            },
            _ => {},
        }
    }
}

/// Resolution keeps inode numbers unique: when no key is stored twice in
/// the tree, none is stored twice among the children that resolve a lazy
/// directory (and below them), and none of those is stored in the tree
/// already, then no key is stored twice in the tree after the resolution.
pub proof fn law_resolution_keeps_inodes_unique(
    tree: StateInMem,
    new: StateInMem,
    p: Seq<usize>,
    c: ChildMap,
)
    requires
        tree.inodes_unique(),
        tree.node_at(p) matches Some(StateInMem::LazyDir { .. }),
        tree.replaced_at(new, p, tree.node_at(p).unwrap().resolved_with(c)),
        tree.node_at(p).unwrap().resolved_with(c).inodes_unique(),
        forall|x: u64|
            #[trigger] tree.node_at(p).unwrap().resolved_with(c).holds_inode(x) ==> !tree.holds_inode(x),
    ensures
        new.inodes_unique(),
    decreases p.len(),
{
    let r = tree.node_at(p).unwrap().resolved_with(c);
    if p.len() > 0 {
        match (tree, new) {
            (StateInMem::Dir { childs: c1, .. }, StateInMem::Dir { childs: c2, .. }) => {
                let i = p[0] as int;
                c1.lemma_entry_decreases(i);
                assert(c1@[i].1.node_at(p.drop_first()) == tree.node_at(p));
                assert forall|x: u64| #[trigger] r.holds_inode(x) implies !c1@[i].1.holds_inode(x) by {
                    if c1@[i].1.holds_inode(x) {
                        lemma_child_keys_held(tree, i, x);
                    }
                }
                law_resolution_keeps_inodes_unique(c1@[i].1, c2@[i].1, p.drop_first(), c);
                assert forall|x: u64| #[trigger] c2@[i].1.holds_inode(x) <==> (c1@[i].1.holds_inode(x)
                    || r.holds_inode(x)) by {
                    lemma_resolve_holds(c1@[i].1, c2@[i].1, p.drop_first(), c, x);
                }
                assert forall|k: int| #![trigger c2@[k]] 0 <= k < c2@.len() implies {
                    &&& c2@[k].1.inodes_unique()
                    &&& !c2@[k].1.holds_inode(c2@[k].0)
                    &&& forall|j: int|
                        #![trigger c2@[j]]
                        0 <= j < c2@.len() && j != k ==> siblings_apart(c2@[k], c2@[j])
                } by {
                    assert(c1@[k] == c1@[k]);
                    if k != i {
                        assert(c2@[k] == c1@[k]);
                    } else {
                        lemma_child_keys_held(tree, i, c1@[i].0);
                    }
                    assert forall|j: int| #![trigger c2@[j]] 0 <= j < c2@.len() && j != k implies siblings_apart(
                        c2@[k],
                        c2@[j],
                    ) by {
                        assert(c1@[j] == c1@[j]);
                        assert(siblings_apart(c1@[k], c1@[j]));
                        if j != i {
                            assert(c2@[j] == c1@[j]);
                        }
                        if k != i {
                            assert(c2@[k] == c1@[k]);
                        }
                        if j == i {
                            lemma_child_keys_held(tree, k, c1@[k].0);
                            assert forall|x: u64| #[trigger] c2@[k].1.holds_inode(x) implies !c2@[j].1.holds_inode(x) by {
                                lemma_child_keys_held(tree, k, x);
                            }
                        }
                        if k == i {
                            lemma_child_keys_held(tree, j, c1@[j].0);
                            assert forall|x: u64| #[trigger] c2@[k].1.holds_inode(x) implies !c2@[j].1.holds_inode(x) by {
                                if r.holds_inode(x) {
                                    if c1@[j].1.holds_inode(x) {
                                        lemma_child_keys_held(tree, j, x);
                                    }
                                }
                            }
                        }
                    }
                }
            },
            _ => {},
        }
    }
}

/// The root answers for the root inode: a tree with attributes whose own
/// inode is the root inode, of whatever kind (a lazy directory included),
/// is what `get_file_obj` answers for the root inode.
pub proof fn law_root_answers_for_itself(tree: StateInMem)
    requires
        tree.attr_spec() matches Some(a) && a.ino == ROOT_INO,
    ensures
        tree.obj_from(ROOT_INO) == Some(tree),
        tree.obj_from(ROOT_INO).unwrap().attr_spec() == tree.attr_spec(),
{
}

/// The root inode is its own parent, in every tree.
pub proof fn law_root_is_its_own_parent(tree: StateInMem)
    ensures
        tree.parent_of(ROOT_INO) == Some(ROOT_INO),
{
}

/// Each file is read from its own text: a read of `hello.txt` gives bytes of
/// `HELLO_CONTENT`, one of `world.txt` bytes of `WORLD_CONTENT`, and a read
/// from offset 0 of at least the whole length gives the whole text.
pub proof fn law_files_read_their_own_text(size: u32)
    ensures
        file_content(HELLO_FILE_INO) == Some(HELLO_CONTENT.spec_bytes()),
        file_content(WORLD_FILE_INO) == Some(WORLD_CONTENT.spec_bytes()),
        size >= HELLO_CONTENT.spec_bytes().len() ==> read_range(HELLO_CONTENT.spec_bytes(), 0, size)
            == HELLO_CONTENT.spec_bytes(),
        size >= WORLD_CONTENT.spec_bytes().len() ==> read_range(WORLD_CONTENT.spec_bytes(), 0, size)
            == WORLD_CONTENT.spec_bytes(),
{
    assert(HELLO_CONTENT.spec_bytes().subrange(0, HELLO_CONTENT.spec_bytes().len() as int)
        =~= HELLO_CONTENT.spec_bytes());
    assert(WORLD_CONTENT.spec_bytes().subrange(0, WORLD_CONTENT.spec_bytes().len() as int)
        =~= WORLD_CONTENT.spec_bytes());
}

/// A read gives the bytes from the offset on, as many as the size asks for
/// and the text holds: nothing from the end on; otherwise
/// `min(size, len - offset)` bytes, the `i`th of them being the byte at
/// `offset + i`.
pub proof fn law_read_takes_size_bytes_from_offset(bytes: Seq<u8>, offset: u64, size: u32)
    ensures
        offset >= bytes.len() ==> read_range(bytes, offset, size).len() == 0,
        offset < bytes.len() ==> {
            let r = read_range(bytes, offset, size);
            &&& r.len() == (if size < bytes.len() - offset {
                size as int
            } else {
                bytes.len() - offset
            })
            &&& forall|i: int| 0 <= i < r.len() ==> #[trigger] r[i] == bytes[offset + i]
        },
{
}

/// The number that a string of decimal digits stands for.
pub open spec fn digits_value(s: Seq<char>) -> int
    decreases s.len(),
{
    if s.len() == 0 {
        0
    } else {
        digits_value(s.drop_last()) * 10 + ((s.last() as int) - 48)
    }
}

/// Inode numbers are written in full: the decimal notation of `n` is a
/// non-empty string of digits `0`-`9`, without a leading zero unless `n` is
/// 0, that stands for `n`.
pub proof fn law_decimal_is_the_number(n: nat)
    ensures
        decimal(n).len() > 0,
        forall|i: int|
            0 <= i < decimal(n).len() ==> 48 <= (#[trigger] decimal(n)[i] as int) <= 57,
        n > 0 ==> decimal(n)[0] != '0',
        digits_value(decimal(n)) == n,
    decreases n,
{
    let d = decimal(n);
    let last: int = (n % 10) as int;
    assert(0 <= last < 10);
    assert((crate::render::digit_char(last as nat) as int) == 48 + last);
    if n < 10 {
        assert(d =~= seq![crate::render::digit_char(n)]);
        assert(d.drop_last() =~= Seq::<char>::empty());
        assert(digits_value(d.drop_last()) == 0);
        assert(n % 10 == n);
        assert(digits_value(d) == digits_value(d.drop_last()) * 10 + ((d.last() as int) - 48));
    } else {
        law_decimal_is_the_number(n / 10);
        let p = decimal(n / 10);
        assert(d == p.push(crate::render::digit_char(n % 10)));
        assert(d.last() == crate::render::digit_char(n % 10));
        assert(d.drop_last() =~= p);
        assert(digits_value(p) == n / 10);
        assert(digits_value(d) == digits_value(d.drop_last()) * 10 + ((d.last() as int) - 48));
        assert(digits_value(d) == (n / 10) * 10 + last);
        assert(n == (n / 10) * 10 + n % 10) by (nonlinear_arith);
        assert(d[0] == p[0]);
        assert forall|i: int| 0 <= i < d.len() implies 48 <= (#[trigger] d[i] as int) <= 57 by {
            if i < d.len() - 1 {
                assert(d[i] == p[i]);
            }
        }
    }
}

/// Different inode numbers are written differently, so the tree picture
/// tells every inode apart.
pub proof fn law_ino_text_tells_inodes_apart(a: u64, b: u64)
    ensures
        ino_text(a) == ino_text(b) ==> a == b,
{
    law_decimal_is_the_number(a as nat);
    law_decimal_is_the_number(b as nat);
    if ino_text(a) == ino_text(b) {
        let pre = seq!['I', 'N', 'o', 'd', 'e', 'N', 'o', '('];
        let da = decimal(a as nat);
        let db = decimal(b as nat);
        assert(ino_text(a).len() == ino_text(b).len());
        assert(da.len() == db.len());
        assert forall|i: int| 0 <= i < da.len() implies da[i] == db[i] by {
            assert(ino_text(a)[8 + i] == da[i]);
            assert(ino_text(b)[8 + i] == db[i]);
        }
        assert(da =~= db);
    }
}

} // verus!
