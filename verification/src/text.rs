//! Strings as sequences of characters: equality, the lexicographic order,
//! sorting, and shortening for display.

use vstd::prelude::*;

verus! {

/// The characters of `s`, in order.
pub fn chars_of(s: &str) -> (v: Vec<char>)
    ensures
        v@ == s@,
{
    let mut v: Vec<char> = Vec::new();
    for c in it: s.chars()
        invariant
            it.seq() == s@,
            v@ == it.seq().subrange(0, it.index()),
    {
        v.push(c);
    }
    assert(v@ =~= s@);
    v
}

/// Whether two strings hold the same characters.
pub fn str_eq(a: &str, b: &str) -> (r: bool)
    ensures
        r == (a@ == b@),
{
    let x = chars_of(a);
    let y = chars_of(b);
    if x.len() != y.len() {
        return false;
    }
    let mut i: usize = 0;
    while i < x.len()
        invariant
            i <= x.len(),
            x.len() == y.len(),
            x@ == a@,
            y@ == b@,
            forall|k: int| 0 <= k < i ==> x@[k] == y@[k],
        decreases x.len() - i,
    {
        if x[i] != y[i] {
            return false;
        }
        i = i + 1;
    }
    assert(x@ =~= y@);
    true
}

/// The lexicographic order on character sequences, characters compared by
/// code point: a proper prefix comes before every extension of it.
pub open spec fn lex_le(a: Seq<char>, b: Seq<char>) -> bool
    decreases a.len(),
{
    if a.len() == 0 {
        true
    } else if b.len() == 0 {
        false
    } else if a[0] == b[0] {
        lex_le(a.drop_first(), b.drop_first())
    } else {
        a[0] < b[0]
    }
}

/// Every sequence is at or before itself.
pub proof fn lemma_lex_le_reflexive(a: Seq<char>)
    ensures
        lex_le(a, a),
    decreases a.len(),
{
    if a.len() > 0 {
        lemma_lex_le_reflexive(a.drop_first());
    }
}

/// Of two sequences one is at or before the other.
pub proof fn lemma_lex_le_total(a: Seq<char>, b: Seq<char>)
    ensures
        lex_le(a, b) || lex_le(b, a),
    decreases a.len(),
{
    if a.len() > 0 && b.len() > 0 {
        if a[0] == b[0] {
            lemma_lex_le_total(a.drop_first(), b.drop_first());
        }
    }
}

/// Two sequences that are each at or before the other are equal.
pub proof fn lemma_lex_le_antisymmetric(a: Seq<char>, b: Seq<char>)
    requires
        lex_le(a, b),
        lex_le(b, a),
    ensures
        a == b,
    decreases a.len(),
{
    if a.len() == 0 || b.len() == 0 {
        assert(a =~= b);
    } else {
        assert(a[0] == b[0]);
        lemma_lex_le_antisymmetric(a.drop_first(), b.drop_first());
        assert(a =~= seq![a[0]] + a.drop_first());
        assert(b =~= seq![b[0]] + b.drop_first());
    }
}

/// The order is transitive.
pub proof fn lemma_lex_le_transitive(a: Seq<char>, b: Seq<char>, c: Seq<char>)
    requires
        lex_le(a, b),
        lex_le(b, c),
    ensures
        lex_le(a, c),
    decreases a.len(),
{
    if a.len() > 0 && b.len() > 0 && c.len() > 0 && a[0] == b[0] && b[0] == c[0] {
        lemma_lex_le_transitive(a.drop_first(), b.drop_first(), c.drop_first());
    }
}

/// Dropping a common prefix does not change how two sequences compare.
proof fn lemma_lex_le_skip(a: Seq<char>, b: Seq<char>, n: int)
    requires
        0 <= n <= a.len(),
        n <= b.len(),
        forall|k: int| 0 <= k < n ==> a[k] == b[k],
    ensures
        lex_le(a, b) == lex_le(a.skip(n), b.skip(n)),
    decreases n,
{
    if n == 0 {
        assert(a.skip(0) =~= a);
        assert(b.skip(0) =~= b);
    } else {
        lemma_lex_le_skip(a, b, n - 1);
        let x = a.skip(n - 1);
        let y = b.skip(n - 1);
        assert(x[0] == y[0]);
        assert(x.drop_first() =~= a.skip(n));
        assert(y.drop_first() =~= b.skip(n));
    }
}

/// Whether `a` is at or before `b` in the lexicographic order.
pub fn str_le(a: &str, b: &str) -> (r: bool)
    ensures
        r == lex_le(a@, b@),
{
    let x = chars_of(a);
    let y = chars_of(b);
    let mut i: usize = 0;
    while i < x.len() && i < y.len()
        invariant
            i <= x.len(),
            i <= y.len(),
            x@ == a@,
            y@ == b@,
            forall|k: int| 0 <= k < i ==> x@[k] == y@[k],
        decreases x.len() - i,
    {
        if x[i] != y[i] {
            proof {
                lemma_lex_le_skip(x@, y@, i as int);
            }
            return x[i] < y[i];
        }
        i = i + 1;
    }
    proof {
        lemma_lex_le_skip(x@, y@, i as int);
    }
    x.len() <= y.len()
}

/// The character sequences of a sequence of strings.
pub open spec fn views(v: Seq<String>) -> Seq<Seq<char>> {
    v.map_values(|s: String| s@)
}

/// No element comes before an earlier one.
pub open spec fn ascending(s: Seq<Seq<char>>) -> bool {
    forall|i: int, j: int| 0 <= i < j < s.len() ==> lex_le(s[i], s[j])
}

/// An ascending sequence without repetition is determined by its elements:
/// two such sequences with the same set of elements are the same sequence.
pub proof fn lemma_ascending_unique(a: Seq<Seq<char>>, b: Seq<Seq<char>>)
    requires
        ascending(a),
        ascending(b),
        a.no_duplicates(),
        b.no_duplicates(),
        a.to_set() == b.to_set(),
    ensures
        a == b,
    decreases a.len(),
{
    a.unique_seq_to_set();
    b.unique_seq_to_set();
    assert(a.len() == b.len());
    if a.len() > 0 {
        let la = a.last();
        let lb = b.last();
        assert(a.to_set().contains(la));
        assert(b.to_set().contains(lb));
        assert(b.contains(la));
        assert(a.contains(lb));
        let i = choose|i: int| 0 <= i < b.len() && b[i] == la;
        let j = choose|j: int| 0 <= j < a.len() && a[j] == lb;
        assert(lex_le(la, lb)) by {
            if i < b.len() - 1 {
                assert(lex_le(b[i], b[b.len() - 1]));
            } else {
                lemma_lex_le_reflexive(la);
            }
        }
        assert(lex_le(lb, la)) by {
            if j < a.len() - 1 {
                assert(lex_le(a[j], a[a.len() - 1]));
            } else {
                lemma_lex_le_reflexive(lb);
            }
        }
        lemma_lex_le_antisymmetric(la, lb);
        let a0 = a.drop_last();
        let b0 = b.drop_last();
        assert(a0.to_set() =~= b0.to_set()) by {
            assert forall|x: Seq<char>| a0.contains(x) implies b0.contains(x) by {
                let k = choose|k: int| 0 <= k < a0.len() && a0[k] == x;
                assert(a[k] == x);
                assert(a.to_set().contains(x));
                assert(b.contains(x));
                let m = choose|m: int| 0 <= m < b.len() && b[m] == x;
                assert(m != b.len() - 1);
                assert(b0[m] == x);
            }
            assert forall|x: Seq<char>| b0.contains(x) implies a0.contains(x) by {
                let k = choose|k: int| 0 <= k < b0.len() && b0[k] == x;
                assert(b[k] == x);
                assert(b.to_set().contains(x));
                assert(a.contains(x));
                let m = choose|m: int| 0 <= m < a.len() && a[m] == x;
                assert(m != a.len() - 1);
                assert(a0[m] == x);
            }
        }
        lemma_ascending_unique(a0, b0);
        assert(a =~= a0.push(la));
        assert(b =~= b0.push(lb));
    } else {
        assert(a =~= b);
    }
}

/// The strings of `v` in ascending lexicographic order: the same strings,
/// each as often as in `v`.
pub fn sort_strings(v: &Vec<String>) -> (r: Vec<String>)
    ensures
        ascending(views(r@)),
        views(r@).to_multiset() == views(v@).to_multiset(),
        r@.len() == v@.len(),
{
    let mut r: Vec<String> = Vec::new();
    let mut i: usize = 0;
    assert(views(r@) =~= views(v@).take(0));
    while i < v.len()
        invariant
            i <= v.len(),
            r@.len() == i,
            ascending(views(r@)),
            views(r@).to_multiset() == views(v@).take(i as int).to_multiset(),
        decreases v.len() - i,
    {
        let x = v[i].clone();
        let mut p: usize = 0;
        while p < r.len() && str_le(r[p].as_str(), x.as_str())
            invariant
                p <= r.len(),
                forall|k: int| 0 <= k < p ==> lex_le(#[trigger] views(r@)[k], x@),
            decreases r.len() - p,
        {
            p = p + 1;
        }
        let ghost before = views(r@);
        r.insert(p, x);
        proof {
            let after = views(r@);
            assert(after =~= before.insert(p as int, x@));
            assert(ascending(after)) by {
                assert forall|a: int, b: int| 0 <= a < b < after.len() implies lex_le(
                    after[a],
                    after[b],
                ) by {
                    if b < p {
                        assert(after[a] == before[a] && after[b] == before[b]);
                    } else if b == p {
                        assert(after[a] == before[a]);
                    } else if a == p {
                        // the element that stopped the search is after x,
                        // and so is everything behind it
                        assert(!lex_le(before[p as int], x@));
                        lemma_lex_le_total(before[p as int], x@);
                        if b - 1 > p {
                            assert(lex_le(before[p as int], before[b - 1]));
                            lemma_lex_le_transitive(x@, before[p as int], before[b - 1]);
                        }
                    } else if a < p {
                        assert(after[a] == before[a] && after[b] == before[b - 1]);
                    } else {
                        assert(after[a] == before[a - 1] && after[b] == before[b - 1]);
                    }
                }
            }
            vstd::seq_lib::to_multiset_insert(before, p as int, x@);
            let prefix = views(v@).take(i as int);
            assert(views(v@).take(i + 1) =~= prefix.push(x@));
            vstd::seq_lib::to_multiset_build(prefix, x@);
        }
        i = i + 1;
    }
    assert(views(v@).take(v@.len() as int) =~= views(v@));
    r
}

/// What `truncate` returns: `input` itself where it has at most `len`
/// characters; otherwise its first and its last `len / 2 - 2` characters
/// with four dots between them.
pub open spec fn truncated(input: Seq<char>, len: nat) -> Seq<char> {
    if input.len() <= len {
        input
    } else {
        let keep = len / 2 - 2;
        input.take(keep) + seq!['.', '.', '.', '.'] + input.skip(input.len() - keep)
    }
}

/// Shortens `input` to fit a line of `len` characters, keeping both ends.
/// A width under four leaves no room to shorten a longer string.
pub fn truncate(input: &String, len: usize) -> (r: String)
    requires
        input@.len() <= len || len >= 4,
    ensures
        r@ == truncated(input@, len as nat),
{
    let s = input.as_str();
    let n = s.unicode_len();
    if n <= len {
        return input.clone();
    }
    let keep: usize = len / 2 - 2;
    let head = s.substring_char(0, keep);
    let tail = s.substring_char(n - keep, n);
    let mut r = String::from_str(head);
    r.append("....");
    r.append(tail);
    proof {
        reveal_strlit("....");
        assert("...."@ =~= seq!['.', '.', '.', '.']);
        assert(input@.take(keep as int) =~= input@.subrange(0, keep as int));
        assert(input@.skip(n - keep) =~= input@.subrange(n - keep, n as int));
    }
    r
}

} // verus!
