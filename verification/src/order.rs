//! Lexicographic order on character sequences, a verified string
//! comparison, and insertion sort over string keys. The picker shows
//! filtered identifiers sorted by this order so navigation is
//! deterministic.

use vstd::multiset::Multiset;
use vstd::prelude::*;

verus! {

/// Strict lexicographic order on character sequences, comparing characters
/// by their Unicode scalar values.
pub open spec fn lex_lt(a: Seq<char>, b: Seq<char>) -> bool
    decreases a.len(),
{
    if b.len() == 0 {
        false
    } else if a.len() == 0 {
        true
    } else if a[0] < b[0] {
        true
    } else if a[0] == b[0] {
        lex_lt(a.skip(1), b.skip(1))
    } else {
        false
    }
}

/// Reflexive closure of `lex_lt`.
pub open spec fn lex_le(a: Seq<char>, b: Seq<char>) -> bool {
    lex_lt(a, b) || a == b
}

/// `lex_lt` is a strict total order: any two sequences are related one way,
/// the other way, or equal, and never two of these at once.
pub proof fn lemma_lex_lt_trichotomy(a: Seq<char>, b: Seq<char>)
    ensures
        lex_lt(a, b) || lex_lt(b, a) || a == b,
        lex_lt(a, b) ==> !lex_lt(b, a) && a != b,
        lex_lt(b, a) ==> !lex_lt(a, b) && a != b,
    decreases a.len(),
{
    if a.len() == 0 && b.len() == 0 {
        assert(a =~= b);
    } else if a.len() != 0 && b.len() != 0 {
        if a[0] == b[0] {
            lemma_lex_lt_trichotomy(a.skip(1), b.skip(1));
            if a.skip(1) == b.skip(1) {
                assert forall|i: int| 0 <= i < a.len() implies a[i] == b[i] by {
                    if i > 0 {
                        assert(a.skip(1)[i - 1] == b.skip(1)[i - 1]);
                    }
                }
                assert(a =~= b);
            }
            if a == b {
                assert(a.skip(1) =~= b.skip(1));
            }
        } else {
            assert(a[0] < b[0] || b[0] < a[0]);
        }
    }
}

/// `lex_lt` is transitive.
pub proof fn lemma_lex_lt_trans(a: Seq<char>, b: Seq<char>, c: Seq<char>)
    requires
        lex_lt(a, b),
        lex_lt(b, c),
    ensures
        lex_lt(a, c),
    decreases a.len(),
{
    if a.len() == 0 {
        assert(b.len() != 0);
        assert(c.len() != 0);
    } else {
        assert(b.len() != 0 && c.len() != 0);
        if a[0] == b[0] && b[0] == c[0] {
            lemma_lex_lt_trans(a.skip(1), b.skip(1), c.skip(1));
        }
    }
}

/// If two sequences agree on their first `i` characters, their order is
/// decided by the remainders.
proof fn lemma_lex_lt_skip(a: Seq<char>, b: Seq<char>, i: int)
    requires
        0 <= i <= a.len(),
        0 <= i <= b.len(),
        forall|k: int| 0 <= k < i ==> a[k] == b[k],
    ensures
        lex_lt(a, b) == lex_lt(a.skip(i), b.skip(i)),
    decreases i,
{
    if i > 0 {
        assert(a.len() != 0 && b.len() != 0);
        assert(a[0] == b[0]);
        let a1 = a.skip(1);
        let b1 = b.skip(1);
        assert(forall|k: int| 0 <= k < i - 1 ==> a1[k] == a[k + 1] && b1[k] == b[k + 1]);
        lemma_lex_lt_skip(a1, b1, i - 1);
        assert(a1.skip(i - 1) =~= a.skip(i));
        assert(b1.skip(i - 1) =~= b.skip(i));
    } else {
        assert(a.skip(0) =~= a);
        assert(b.skip(0) =~= b);
    }
}

/// Returns whether `a` comes strictly before `b` in lexicographic order.
pub fn str_lt(a: &str, b: &str) -> (r: bool)
    ensures
        r == lex_lt(a@, b@),
{
    let na = a.unicode_len();
    let nb = b.unicode_len();
    let mut i: usize = 0;
    loop
        invariant
            0 <= i <= na,
            0 <= i <= nb,
            na == a@.len(),
            nb == b@.len(),
            forall|k: int| 0 <= k < i ==> a@[k] == b@[k],
        decreases na - i,
    {
        if i < na && i < nb {
            let ca = a.get_char(i);
            let cb = b.get_char(i);
            if ca != cb {
                proof {
                    lemma_lex_lt_skip(a@, b@, i as int);
                }
                return ca < cb;
            }
            i = i + 1;
        } else {
            proof {
                lemma_lex_lt_skip(a@, b@, i as int);
                if i == na && na < nb {
                    assert(a@.skip(i as int).len() == 0);
                    assert(b@.skip(i as int).len() > 0);
                } else {
                    assert(b@.skip(i as int).len() == 0);
                }
            }
            return na < nb;
        }
    }
}

/// Returns whether `a` comes at or before `b`: the order is total, so this
/// is the negation of `str_lt(b, a)`.
pub fn str_le(a: &str, b: &str) -> (r: bool)
    ensures
        r == lex_le(a@, b@),
{
    let r = !str_lt(b, a);
    proof {
        lemma_lex_lt_trichotomy(a@, b@);
    }
    r
}

/// `x` inserted into `s` just before the first element it is at or below.
pub open spec fn insert_ordered(x: Seq<char>, s: Seq<Seq<char>>) -> Seq<Seq<char>>
    decreases s.len(),
{
    if s.len() == 0 {
        seq![x]
    } else if lex_le(x, s[0]) {
        seq![x] + s
    } else {
        seq![s[0]] + insert_ordered(x, s.skip(1))
    }
}

/// Insertion sort of a sequence of character sequences.
pub open spec fn sort_lex(s: Seq<Seq<char>>) -> Seq<Seq<char>>
    decreases s.len(),
{
    if s.len() == 0 {
        Seq::empty()
    } else {
        insert_ordered(s.last(), sort_lex(s.drop_last()))
    }
}

/// Every pair of positions is ordered.
pub open spec fn sorted_lex(s: Seq<Seq<char>>) -> bool {
    forall|i: int, j: int| 0 <= i < j < s.len() ==> lex_le(s[i], s[j])
}

/// Inserting preserves sortedness, adds exactly the new element, and grows
/// the length by one.
pub proof fn lemma_insert_ordered(x: Seq<char>, s: Seq<Seq<char>>)
    requires
        sorted_lex(s),
    ensures
        sorted_lex(insert_ordered(x, s)),
        insert_ordered(x, s).len() == s.len() + 1,
        forall|y: Seq<char>| #[trigger] insert_ordered(x, s).contains(y) <==> (s.contains(y) || y
            == x),
        insert_ordered(x, s).to_multiset() == s.to_multiset().insert(x),
    decreases s.len(),
{
    let r = insert_ordered(x, s);
    broadcast use vstd::seq_lib::group_seq_properties;

    if s.len() == 0 {
        assert(r =~= seq![x]);
        assert(r.to_multiset() =~= s.to_multiset().insert(x));
        assert(r.contains(x));
    } else if lex_le(x, s[0]) {
        assert(r =~= seq![x] + s);
        assert forall|i: int, j: int| 0 <= i < j < r.len() implies lex_le(r[i], r[j]) by {
            if i == 0 {
                if j == 1 {
                    assert(r[j] == s[0]);
                } else {
                    assert(lex_le(s[0], s[j - 1]));
                    lemma_lex_lt_trichotomy(x, s[0]);
                    if lex_lt(x, s[0]) && lex_lt(s[0], s[j - 1]) {
                        lemma_lex_lt_trans(x, s[0], s[j - 1]);
                    }
                }
            } else {
                assert(lex_le(s[i - 1], s[j - 1]));
            }
        }
        assert(r.to_multiset() =~= s.to_multiset().insert(x)) by {
            assert(seq![x] + s =~= s.insert(0, x));
            vstd::seq_lib::lemma_multiset_commutative(seq![x], s);
            assert(seq![x].to_multiset() =~= Multiset::empty().insert(x));
        }
        assert forall|y: Seq<char>| #[trigger] r.contains(y) implies (s.contains(y) || y == x) by {
            let k = choose|k: int| 0 <= k < r.len() && r[k] == y;
            if k > 0 {
                assert(s[k - 1] == y);
            }
        }
        assert(r[0] == x);
        assert forall|y: Seq<char>| s.contains(y) implies r.contains(y) by {
            let k = choose|k: int| 0 <= k < s.len() && s[k] == y;
            assert(r[k + 1] == y);
        }
    } else {
        let tail = s.skip(1);
        assert(forall|i: int, j: int|
            0 <= i < j < tail.len() ==> tail[i] == s[i + 1] && tail[j] == s[j + 1]);
        lemma_insert_ordered(x, tail);
        let rt = insert_ordered(x, tail);
        assert(r =~= seq![s[0]] + rt);
        lemma_lex_lt_trichotomy(x, s[0]);
        assert(lex_lt(s[0], x));
        // s[0] is at or below every element of rt
        assert forall|j: int| 0 <= j < rt.len() implies lex_le(s[0], rt[j]) by {
            assert(rt.contains(rt[j]));
            if rt[j] == x {
                assert(lex_le(s[0], x));
            } else {
                assert(tail.contains(rt[j]));
                let k = choose|k: int| 0 <= k < tail.len() && tail[k] == rt[j];
                assert(lex_le(s[0], s[k + 1]));
            }
        }
        assert forall|i: int, j: int| 0 <= i < j < r.len() implies lex_le(r[i], r[j]) by {
            if i == 0 {
                assert(r[j] == rt[j - 1]);
            } else {
                assert(r[i] == rt[i - 1] && r[j] == rt[j - 1]);
            }
        }
        assert(r.to_multiset() =~= s.to_multiset().insert(x)) by {
            vstd::seq_lib::lemma_multiset_commutative(seq![s[0]], rt);
            assert(seq![s[0]].to_multiset() =~= Multiset::empty().insert(s[0]));
            assert(s =~= seq![s[0]] + tail);
            vstd::seq_lib::lemma_multiset_commutative(seq![s[0]], tail);
        }
        assert forall|y: Seq<char>| #[trigger] r.contains(y) implies (s.contains(y) || y == x) by {
            let k = choose|k: int| 0 <= k < r.len() && r[k] == y;
            if k == 0 {
                assert(s[0] == y);
            } else {
                assert(rt[k - 1] == y);
                assert(rt.contains(y));
                if y != x {
                    assert(tail.contains(y));
                    let m = choose|m: int| 0 <= m < tail.len() && tail[m] == y;
                    assert(s[m + 1] == y);
                }
            }
        }
        assert(r.contains(x)) by {
            assert(rt.contains(x));
            let k = choose|k: int| 0 <= k < rt.len() && rt[k] == x;
            assert(r[k + 1] == x);
        }
        assert forall|y: Seq<char>| s.contains(y) implies r.contains(y) by {
            let k = choose|k: int| 0 <= k < s.len() && s[k] == y;
            if k == 0 {
                assert(r[0] == y);
            } else {
                assert(tail[k - 1] == y);
                assert(tail.contains(y));
                assert(rt.contains(y));
                let m = choose|m: int| 0 <= m < rt.len() && rt[m] == y;
                assert(r[m + 1] == y);
            }
        }
    }
}

/// The sort is sorted and is a permutation of its input.
pub proof fn lemma_sort_lex(s: Seq<Seq<char>>)
    ensures
        sorted_lex(sort_lex(s)),
        sort_lex(s).len() == s.len(),
        forall|y: Seq<char>| #[trigger] sort_lex(s).contains(y) <==> s.contains(y),
        sort_lex(s).to_multiset() == s.to_multiset(),
    decreases s.len(),
{
    broadcast use vstd::seq_lib::group_seq_properties;

    if s.len() == 0 {
        assert(sort_lex(s) =~= Seq::<Seq<char>>::empty());
    } else {
        let front = s.drop_last();
        lemma_sort_lex(front);
        lemma_insert_ordered(s.last(), sort_lex(front));
        assert(s =~= front.push(s.last()));
        assert(s.to_multiset() =~= front.to_multiset().insert(s.last()));
        assert forall|y: Seq<char>| #[trigger] sort_lex(s).contains(y) implies s.contains(y) by {
            if y == s.last() {
                assert(s[s.len() - 1] == y);
            } else {
                assert(front.contains(y));
                let k = choose|k: int| 0 <= k < front.len() && front[k] == y;
                assert(s[k] == y);
            }
        }
        assert forall|y: Seq<char>| s.contains(y) implies sort_lex(s).contains(y) by {
            let k = choose|k: int| 0 <= k < s.len() && s[k] == y;
            if k < s.len() - 1 {
                assert(front[k] == y);
                assert(front.contains(y));
            }
        }
    }
}

/// `insert_ordered` drops a new least-or-equal element in front; otherwise
/// it walks past the head. Splitting at the first position whose element is
/// at or above `x` describes the result without recursion.
proof fn lemma_insert_ordered_at(x: Seq<char>, s: Seq<Seq<char>>, p: int)
    requires
        0 <= p <= s.len(),
        forall|k: int| 0 <= k < p ==> !lex_le(x, s[k]),
        p == s.len() || lex_le(x, s[p]),
    ensures
        insert_ordered(x, s) == s.take(p) + seq![x] + s.skip(p),
    decreases p,
{
    if s.len() == 0 {
        assert(insert_ordered(x, s) =~= s.take(0) + seq![x] + s.skip(0));
    } else if p == 0 {
        assert(insert_ordered(x, s) =~= s.take(0) + seq![x] + s.skip(0));
    } else {
        assert(!lex_le(x, s[0]));
        let tail = s.skip(1);
        assert(forall|k: int| 0 <= k < tail.len() ==> tail[k] == s[k + 1]);
        lemma_insert_ordered_at(x, tail, p - 1);
        assert(seq![s[0]] + (tail.take(p - 1) + seq![x] + tail.skip(p - 1)) =~= s.take(p) + seq![x]
            + s.skip(p));
    }
}

/// Inserts `key` into the sorted vector `acc`, keeping it sorted.
pub fn insert_sorted(acc: &mut Vec<String>, key: String)
    ensures
        final(acc)@.map_values(|s: String| s@) == insert_ordered(
            key@,
            old(acc)@.map_values(|s: String| s@),
        ),
{
    let ghost s0 = old(acc)@.map_values(|s: String| s@);
    let mut p: usize = 0;
    while p < acc.len() && !str_le(&key, &acc[p])
        invariant
            0 <= p <= acc@.len(),
            acc@ == old(acc)@,
            s0 == acc@.map_values(|s: String| s@),
            s0.len() == acc@.len(),
            forall|k: int| 0 <= k < p ==> !lex_le(key@, s0[k]),
        decreases acc@.len() - p,
    {
        assert(s0[p as int] == acc@[p as int]@);
        p = p + 1;
    }
    proof {
        if p < acc.len() {
            assert(s0[p as int] == acc@[p as int]@);
        }
        lemma_insert_ordered_at(key@, s0, p as int);
    }
    acc.insert(p, key);
    proof {
        assert(acc@.map_values(|s: String| s@) =~= s0.take(p as int) + seq![key@] + s0.skip(
            p as int,
        ));
    }
}

} // verus!
