use vstd::prelude::*;
use vstd::string::StrSliceExecFns;
use crate::tree::{ChildMap, StateInMem};

verus! {

/// The decimal digit for `d`.
pub open spec fn digit_char(d: nat) -> char {
    (48 + d) as char
}

/// The decimal notation of `n`.
pub open spec fn decimal(n: nat) -> Seq<char>
    decreases n,
{
    if n < 10 {
        seq![digit_char(n)]
    } else {
        decimal(n / 10).push(digit_char(n % 10))
    }
}

/// How an inode number is written in the tree picture: `INodeNo(n)`.
pub open spec fn ino_text(k: u64) -> Seq<char> {
    seq!['I', 'N', 'o', 'd', 'e', 'N', 'o', '('] + decimal(k as nat) + seq![')']
}

/// `a` comes before `b` in lexicographic order of characters.
pub open spec fn text_lt(a: Seq<char>, b: Seq<char>) -> bool
    decreases a.len(),
{
    if b.len() == 0 {
        false
    } else if a.len() == 0 {
        true
    } else if (a[0] as u32) < (b[0] as u32) {
        true
    } else if (a[0] as u32) > (b[0] as u32) {
        false
    } else {
        text_lt(a.drop_first(), b.drop_first())
    }
}

/// Among the first `n` positions listed in `rem`, the first one whose entry
/// of `s` has the least key text.
pub open spec fn first_least(s: Seq<(u64, StateInMem)>, rem: Seq<usize>, n: int) -> int
    decreases n,
{
    if n <= 1 {
        0
    } else {
        let b = first_least(s, rem, n - 1);
        if text_lt(ino_text(s[rem[n - 1] as int].0), ino_text(s[rem[b] as int].0)) {
            n - 1
        } else {
            b
        }
    }
}

/// The first least position lies among the first `n`.
pub proof fn lemma_first_least_range(s: Seq<(u64, StateInMem)>, rem: Seq<usize>, n: int)
    requires
        n >= 1,
    ensures
        0 <= first_least(s, rem, n) < n,
    decreases n,
{
    if n > 1 {
        lemma_first_least_range(s, rem, n - 1);
    }
}

/// Ordering keeps the positions within `rem`.
pub proof fn lemma_order_in_range(s: Seq<(u64, StateInMem)>, rem: Seq<usize>)
    requires
        forall|j: int| 0 <= j < rem.len() ==> #[trigger] rem[j] < s.len(),
    ensures
        forall|j: int| 0 <= j < order_by_text(s, rem).len() ==> #[trigger] order_by_text(s, rem)[j] < s.len(),
        order_by_text(s, rem).len() == rem.len(),
    decreases rem.len(),
{
    if rem.len() > 0 {
        let m = first_least(s, rem, rem.len() as int);
        lemma_first_least_range(s, rem, rem.len() as int);
        let r2 = rem.remove(m);
        assert forall|j: int| 0 <= j < r2.len() implies #[trigger] r2[j] < s.len() by {
            if j < m {
                assert(r2[j] == rem[j]);
            } else {
                assert(r2[j] == rem[j + 1]);
            }
        }
        lemma_order_in_range(s, r2);
        let o = order_by_text(s, rem);
        assert forall|j: int| 0 <= j < o.len() implies #[trigger] o[j] < s.len() by {
            if j > 0 {
                assert(o[j] == order_by_text(s, r2)[j - 1]);
            }
        }
    }
}

/// The positions `rem` of `s`, ordered by the key texts of their entries;
/// positions with equal texts keep their order.
pub open spec fn order_by_text(s: Seq<(u64, StateInMem)>, rem: Seq<usize>) -> Seq<usize>
    decreases rem.len(),
{
    if rem.len() == 0 {
        Seq::empty()
    } else {
        let m = first_least(s, rem, rem.len() as int);
        proof {
            lemma_first_least_range(s, rem, rem.len() as int);
        }
        seq![rem[m]] + order_by_text(s, rem.remove(m))
    }
}

/// `s` with its trailing newlines taken off.
pub open spec fn trim_newlines(s: Seq<char>) -> Seq<char>
    decreases s.len(),
{
    if s.len() > 0 && s.last() == '\n' {
        trim_newlines(s.drop_last())
    } else {
        s
    }
}

/// The label in front of a child: `- ino:INodeNo(n) `.
pub open spec fn prefix_text(prefix: Option<u64>) -> Seq<char> {
    match prefix {
        Some(k) => seq!['-', ' ', 'i', 'n', 'o', ':'] + ino_text(k) + seq![' '],
        None => Seq::empty(),
    }
}

/// `s` between double quotes.
pub open spec fn quoted(s: Seq<char>) -> Seq<char> {
    seq!['"'] + s + seq!['"']
}

impl StateInMem {
    /// The picture of the tree below this node, drawn with indentation
    /// `ind` and the label `prefix`: a line for the node, and for a
    /// directory a line block for each child (indented by two more spaces,
    /// labelled with its key, in order of key text), each followed by a
    /// newline, with the trailing newlines of the whole taken off. A node
    /// being resolved draws as nothing.
    pub open spec fn picture(self, ind: Seq<char>, prefix: Option<u64>) -> Seq<char>
        decreases self,
    {
        let head = ind + prefix_text(prefix);
        match self {
            StateInMem::Dir { dir_name, childs, .. } => {
                proof {
                    childs.lemma_view_decreases();
                }
                trim_newlines(
                    head + seq!['d', 'i', 'r', ' '] + quoted(dir_name@) + seq!['\n']
                        + Self::pictures(
                        childs@,
                        order_by_text(childs@, Seq::new(childs@.len(), |i: int| i as usize)),
                        ind + seq![' ', ' '],
                    ),
                )
            },
            StateInMem::File { file_name, .. } => head + seq!['f', 'i', 'l', 'e', ' '] + quoted(
                file_name@,
            ),
            StateInMem::LazyDir { dir_name, .. } => head + seq![
                'l',
                'a',
                'z',
                'y',
                'd',
                'i',
                'r',
                ' ',
            ] + quoted(dir_name@),
            StateInMem::LazyFile { file_name, .. } => head + seq![
                'l',
                'a',
                'z',
                'y',
                'f',
                'i',
                'l',
                'e',
                ' ',
            ] + quoted(file_name@),
            StateInMem::Resolving => Seq::empty(),
        }
    }

    /// The pictures of the entries of `s` at positions `order`, each
    /// followed by a newline.
    pub open spec fn pictures(s: Seq<(u64, StateInMem)>, order: Seq<usize>, ind: Seq<char>) -> Seq<char>
        decreases s, order.len(),
    {
        if order.len() == 0 {
            Seq::empty()
        } else {
            let j = order.last() as int;
            let rest = Self::pictures(s, order.drop_last(), ind);
            if 0 <= j < s.len() {
                rest + s[j].1.picture(ind, Some(s[j].0)) + seq!['\n']
            } else {
                rest
            }
        }
    }
}

/// Appends the decimal notation of `n`.
fn push_decimal(n: u64, out: &mut Vec<char>)
    ensures
        final(out)@ == old(out)@ + decimal(n as nat),
    decreases n,
{
    if n >= 10 {
        push_decimal(n / 10, out);
    }
    let d = (n % 10) as u8;
    let c = (48u8 + d) as char;
    proof {
        assert(c == digit_char((n % 10) as nat));
    }
    out.push(c);
    proof {
        if n >= 10 {
            assert((n / 10) as nat == (n as nat) / 10);
        }
    }
}

/// Appends the characters of `s`.
fn push_chars(s: &str, out: &mut Vec<char>)
    ensures
        final(out)@ == old(out)@ + s@,
{
    let n = s.unicode_len();
    let mut i: usize = 0;
    let ghost start = out@;
    while i < n
        invariant
            i <= n,
            n == s@.len(),
            out@ == start + s@.subrange(0, i as int),
        decreases n - i,
    {
        let c = s.get_char(i);
        out.push(c);
        proof {
            assert(s@.subrange(0, i + 1) =~= s@.subrange(0, i as int).push(c));
        }
        i = i + 1;
    }
    proof {
        assert(s@.subrange(0, n as int) =~= s@);
    }
}

/// Appends the characters of `t`.
fn push_seq(t: &Vec<char>, out: &mut Vec<char>)
    ensures
        final(out)@ == old(out)@ + t@,
{
    let mut i: usize = 0;
    let ghost start = out@;
    while i < t.len()
        invariant
            i <= t@.len(),
            out@ == start + t@.subrange(0, i as int),
        decreases t@.len() - i,
    {
        out.push(t[i]);
        proof {
            assert(t@.subrange(0, i + 1) =~= t@.subrange(0, i as int).push(t@[i as int]));
        }
        i = i + 1;
    }
    proof {
        assert(t@.subrange(0, t@.len() as int) =~= t@);
    }
}

/// The key text of inode `k`.
fn ino_text_exec(k: u64) -> (t: Vec<char>)
    ensures
        t@ == ino_text(k),
{
    let mut t: Vec<char> = Vec::new();
    t.push('I');
    t.push('N');
    t.push('o');
    t.push('d');
    t.push('e');
    t.push('N');
    t.push('o');
    t.push('(');
    push_decimal(k, &mut t);
    t.push(')');
    proof {
        assert(t@ =~= ino_text(k));
    }
    t
}

/// Whether `a` comes before `b` in lexicographic order.
fn text_lt_exec(a: &Vec<char>, b: &Vec<char>) -> (r: bool)
    ensures
        r == text_lt(a@, b@),
{
    let mut i: usize = 0;
    proof {
        assert(a@.skip(0) =~= a@);
        assert(b@.skip(0) =~= b@);
    }
    while i < a.len() && i < b.len()
        invariant
            i <= a@.len(),
            i <= b@.len(),
            text_lt(a@, b@) == text_lt(a@.skip(i as int), b@.skip(i as int)),
        decreases a@.len() - i,
    {
        let x = a[i];
        let y = b[i];
        proof {
            assert(a@.skip(i as int)[0] == x);
            assert(b@.skip(i as int)[0] == y);
        }
        if (x as u32) < (y as u32) {
            return true;
        }
        if (x as u32) > (y as u32) {
            return false;
        }
        proof {
            assert(a@.skip(i as int).drop_first() =~= a@.skip(i + 1));
            assert(b@.skip(i as int).drop_first() =~= b@.skip(i + 1));
        }
        i = i + 1;
    }
    i < b.len()
}

/// The positions of the entries of `c`, ordered by key text.
fn order_children(c: &ChildMap) -> (order: Vec<usize>)
    ensures
        order@ == order_by_text(c@, Seq::new(c@.len(), |i: int| i as usize)),
{
    let n = c.len();
    let mut texts: Vec<Vec<char>> = Vec::new();
    let mut rem: Vec<usize> = Vec::new();
    let mut i: usize = 0;
    while i < n
        invariant
            i <= n,
            n == c@.len(),
            texts@.len() == i,
            rem@ == Seq::new(i as nat, |j: int| j as usize),
            forall|j: int| 0 <= j < i ==> #[trigger] texts@[j]@ == ino_text(c@[j].0),
        decreases n - i,
    {
        texts.push(ino_text_exec(c.key_at(i)));
        rem.push(i);
        proof {
            assert(rem@ =~= Seq::new((i + 1) as nat, |j: int| j as usize));
        }
        i = i + 1;
    }
    let ghost whole = order_by_text(c@, Seq::new(c@.len(), |i: int| i as usize));
    let mut order: Vec<usize> = Vec::new();
    while rem.len() > 0
        invariant
            n == c@.len(),
            texts@.len() == n,
            forall|j: int| 0 <= j < n ==> #[trigger] texts@[j]@ == ino_text(c@[j].0),
            forall|j: int| 0 <= j < rem@.len() ==> #[trigger] rem@[j] < n,
            order@ + order_by_text(c@, rem@) == whole,
        decreases rem@.len(),
    {
        let mut best: usize = 0;
        let mut k: usize = 1;
        while k < rem.len()
            invariant
                1 <= k <= rem@.len(),
                n == c@.len(),
                texts@.len() == n,
                forall|j: int| 0 <= j < n ==> #[trigger] texts@[j]@ == ino_text(c@[j].0),
                forall|j: int| 0 <= j < rem@.len() ==> #[trigger] rem@[j] < n,
                best as int == first_least(c@, rem@, k as int),
                best < k,
            decreases rem@.len() - k,
        {
            if text_lt_exec(&texts[rem[k]], &texts[rem[best]]) {
                best = k;
            }
            k = k + 1;
        }
        proof {
            lemma_first_least_range(c@, rem@, rem@.len() as int);
            assert(order_by_text(c@, rem@) == seq![rem@[best as int]] + order_by_text(c@, rem@.remove(best as int)));
        }
        let j = rem.remove(best);
        order.push(j);
        proof {
            assert(order@ + order_by_text(c@, rem@) =~= whole);
        }
    }
    proof {
        assert(order@ + order_by_text(c@, rem@) == order@);
    }
    order
}

/// Appends `s` between double quotes.
fn push_quoted(s: &String, out: &mut Vec<char>)
    ensures
        final(out)@ == old(out)@ + quoted(s@),
{
    out.push('"');
    push_chars(s.as_str(), out);
    out.push('"');
    proof {
        assert(final(out)@ =~= old(out)@ + quoted(s@));
    }
}

/// The indentation and the label of a line.
fn head_exec(ind: &Vec<char>, prefix: Option<u64>) -> (r: Vec<char>)
    ensures
        r@ == ind@ + prefix_text(prefix),
{
    let mut out: Vec<char> = Vec::new();
    push_seq(ind, &mut out);
    match prefix {
        Some(k) => {
            out.push('-');
            out.push(' ');
            out.push('i');
            out.push('n');
            out.push('o');
            out.push(':');
            let t = ino_text_exec(k);
            push_seq(&t, &mut out);
            out.push(' ');
        },
        None => {},
    }
    proof {
        assert(out@ =~= ind@ + prefix_text(prefix));
    }
    out
}

/// Takes the trailing newlines off `out`.
fn trim_newlines_exec(out: &mut Vec<char>)
    ensures
        final(out)@ == trim_newlines(old(out)@),
{
    while out.len() > 0 && out[out.len() - 1] == '\n'
        invariant
            trim_newlines(out@) == trim_newlines(old(out)@),
        decreases out@.len(),
    {
        let ghost before = out@;
        out.pop();
        proof {
            assert(out@ =~= before.drop_last());
        }
    }
}

impl StateInMem {
    /// Draws the picture of [`Self::picture`].
    fn picture_exec(&self, ind: &Vec<char>, prefix: Option<u64>) -> (r: Vec<char>)
        ensures
            r@ == self.picture(ind@, prefix),
        decreases self,
    {
        let mut out = head_exec(ind, prefix);
        let ghost head = out@;
        match self {
            StateInMem::Dir { dir_name, childs, .. } => {
                out.push('d');
                out.push('i');
                out.push('r');
                out.push(' ');
                push_quoted(dir_name, &mut out);
                out.push('\n');
                proof {
                    assert(out@ =~= head + seq!['d', 'i', 'r', ' '] + quoted(dir_name@) + seq!['\n']);
                }
                Self::push_children_pictures(childs, ind, &mut out);
                trim_newlines_exec(&mut out);
                out
            },
            StateInMem::File { file_name, .. } => {
                out.push('f');
                out.push('i');
                out.push('l');
                out.push('e');
                out.push(' ');
                push_quoted(file_name, &mut out);
                proof {
                    assert(out@ =~= head + seq!['f', 'i', 'l', 'e', ' '] + quoted(file_name@));
                }
                out
            },
            StateInMem::LazyDir { dir_name, .. } => {
                out.push('l');
                out.push('a');
                out.push('z');
                out.push('y');
                out.push('d');
                out.push('i');
                out.push('r');
                out.push(' ');
                push_quoted(dir_name, &mut out);
                proof {
                    assert(out@ =~= head + seq!['l', 'a', 'z', 'y', 'd', 'i', 'r', ' '] + quoted(dir_name@));
                }
                out
            },
            StateInMem::LazyFile { file_name, .. } => {
                out.push('l');
                out.push('a');
                out.push('z');
                out.push('y');
                out.push('f');
                out.push('i');
                out.push('l');
                out.push('e');
                out.push(' ');
                push_quoted(file_name, &mut out);
                proof {
                    assert(out@ =~= head + seq!['l', 'a', 'z', 'y', 'f', 'i', 'l', 'e', ' '] + quoted(file_name@));
                }
                out
            },
            StateInMem::Resolving => Vec::new(),
        }
    }

    /// Appends the pictures of the children of a directory drawn with
    /// indentation `ind`, in order of key text, each followed by a newline.
    fn push_children_pictures(childs: &ChildMap, ind: &Vec<char>, out: &mut Vec<char>)
        ensures
            final(out)@ == old(out)@ + Self::pictures(
                childs@,
                order_by_text(childs@, Seq::new(childs@.len(), |i: int| i as usize)),
                ind@ + seq![' ', ' '],
            ),
        decreases childs,
    {
        let order = order_children(childs);
        let mut child_ind: Vec<char> = Vec::new();
        push_seq(ind, &mut child_ind);
        child_ind.push(' ');
        child_ind.push(' ');
        let ghost top = out@;
        proof {
            assert(child_ind@ =~= ind@ + seq![' ', ' ']);
            assert(order@.take(0) =~= Seq::<usize>::empty());
            lemma_order_in_range(childs@, Seq::new(childs@.len(), |i: int| i as usize));
        }
        let mut k: usize = 0;
        while k < order.len()
            invariant
                k <= order@.len(),
                forall|j: int| 0 <= j < order@.len() ==> #[trigger] order@[j] < childs@.len(),
                out@ == top + Self::pictures(childs@, order@.take(k as int), child_ind@),
            decreases order@.len() - k,
        {
            let j = order[k];
            let child = childs.node_at(j);
            proof {
                childs.lemma_entry_decreases(j as int);
                assert(order@.take(k + 1).drop_last() =~= order@.take(k as int));
            }
            let pic = child.picture_exec(&child_ind, Some(childs.key_at(j)));
            push_seq(&pic, out);
            out.push('\n');
            proof {
                assert(out@ =~= top + Self::pictures(childs@, order@.take(k + 1), child_ind@));
            }
            k = k + 1;
        }
        proof {
            assert(order@.take(order@.len() as int) =~= order@);
        }
    }
}

/// `String::from_iter` over characters: std documents that collecting
/// characters into a `String` yields the string of exactly those
/// characters, in order.
#[verifier::external_body]
fn string_from_chars(chars: Vec<char>) -> (s: String)
    ensures
        s@ == chars@,
{
    String::from_iter(chars)
}

impl StateInMem {
    /// The picture of the tree below this node, as [`Self::picture`] draws
    /// it with no indentation and no label: one line per node, children
    /// indented by two spaces under their directory.
    pub fn render(&self) -> (s: String)
        ensures
            s@ == self.picture(Seq::empty(), None),
    {
        let ind: Vec<char> = Vec::new();
        let out = self.picture_exec(&ind, None);
        string_from_chars(out)
    }
}

} // verus!
