//! The entry set a view browses: identifier/payload pairs with unique keys.
//!
//! In the top-level list the payload equals the identifier; in the
//! drill-down view the payload is a parsed field's value. The abstract
//! model is a map from key characters to payload characters; iteration
//! order is not part of the model, and callers obtain a deterministic
//! order by sorting keys at query time.

use crate::order::{insert_ordered, insert_sorted, sort_lex};
use crate::text::is_substring;
use crate::text::str_contains;
use vstd::prelude::*;

verus! {

/// The map described by a pair sequence, later pairs overriding earlier
/// ones.
pub open spec fn map_of(s: Seq<(Seq<char>, Seq<char>)>) -> Map<Seq<char>, Seq<char>>
    decreases s.len(),
{
    if s.len() == 0 {
        Map::empty()
    } else {
        map_of(s.drop_last()).insert(s.last().0, s.last().1)
    }
}

/// The key of every pair, in pair order.
pub open spec fn keys_of(s: Seq<(Seq<char>, Seq<char>)>) -> Seq<Seq<char>> {
    s.map_values(|p: (Seq<char>, Seq<char>)| p.0)
}

/// The domain of the map is exactly the set of keys occurring in the pairs.
pub proof fn lemma_map_of_dom(s: Seq<(Seq<char>, Seq<char>)>)
    ensures
        forall|k: Seq<char>| #[trigger] map_of(s).dom().contains(k) <==> keys_of(s).contains(k),
    decreases s.len(),
{
    if s.len() > 0 {
        let front = s.drop_last();
        lemma_map_of_dom(front);
        assert(map_of(s) == map_of(front).insert(s.last().0, s.last().1));
        assert(forall|i: int| 0 <= i < front.len() ==> #[trigger] keys_of(front)[i] == front[i].0);
        assert(forall|i: int| 0 <= i < s.len() ==> #[trigger] keys_of(s)[i] == s[i].0);
        assert forall|k: Seq<char>| #[trigger] map_of(s).dom().contains(k) implies keys_of(
            s,
        ).contains(k) by {
            if k == s.last().0 {
                assert(keys_of(s)[s.len() - 1] == k);
            } else {
                assert(map_of(front).dom().contains(k));
                assert(keys_of(front).contains(k));
                let i = choose|i: int| 0 <= i < keys_of(front).len() && keys_of(front)[i] == k;
                assert(keys_of(s)[i] == k);
            }
        }
        assert forall|k: Seq<char>| keys_of(s).contains(k) implies map_of(s).dom().contains(k) by {
            let i = choose|i: int| 0 <= i < keys_of(s).len() && keys_of(s)[i] == k;
            if i < s.len() - 1 {
                assert(keys_of(front)[i] == k);
                assert(keys_of(front).contains(k));
                assert(map_of(front).dom().contains(k));
            } else {
                assert(k == s.last().0);
            }
        }
    }
}

/// When the keys are distinct, each pair gives the map's value at its key.
pub proof fn lemma_map_of_index(s: Seq<(Seq<char>, Seq<char>)>, i: int)
    requires
        forall|m: int, n: int| 0 <= m < n < s.len() ==> s[m].0 != s[n].0,
        0 <= i < s.len(),
    ensures
        map_of(s).dom().contains(s[i].0),
        map_of(s)[s[i].0] == s[i].1,
    decreases s.len(),
{
    if i == s.len() - 1 {
    } else {
        lemma_map_of_index(s.drop_last(), i);
        assert(s.last().0 != s[i].0);
    }
}

/// One identifier/payload pair as held by an `Entries` value.
type Pair = (String, String);

/// An entry set: a mapping from identifier to payload with unique keys.
pub struct Entries {
    pairs: Vec<Pair>,
}

impl View for Entries {
    type V = Map<Seq<char>, Seq<char>>;

    open spec fn view(&self) -> Map<Seq<char>, Seq<char>> {
        map_of(self.pairs_seq())
    }
}

impl Entries {
    /// The held pairs, as character sequences.
    pub closed spec fn pairs_seq(self) -> Seq<(Seq<char>, Seq<char>)> {
        self.pairs@.map_values(|p: Pair| (p.0@, p.1@))
    }

    /// The held keys, in insertion order.
    pub open spec fn key_seq(self) -> Seq<Seq<char>> {
        keys_of(self.pairs_seq())
    }

    /// Well-formed: no key occurs twice.
    pub open spec fn wf(self) -> bool {
        forall|m: int, n: int|
            0 <= m < n < self.pairs_seq().len() ==> self.pairs_seq()[m].0 != self.pairs_seq()[n].0
    }

    /// Every key of a well-formed entry set is in the map's domain, and the
    /// map agrees with the pairs.
    pub proof fn lemma_view(self)
        requires
            self.wf(),
        ensures
            forall|k: Seq<char>| #[trigger] self@.dom().contains(k) <==> self.key_seq().contains(k),
            forall|i: int|
                0 <= i < self.pairs_seq().len() ==> self@.dom().contains(
                    #[trigger] self.pairs_seq()[i].0,
                ) && self@[self.pairs_seq()[i].0] == self.pairs_seq()[i].1,
    {
        lemma_map_of_dom(self.pairs_seq());
        assert forall|i: int| 0 <= i < self.pairs_seq().len() implies self@.dom().contains(
            #[trigger] self.pairs_seq()[i].0,
        ) && self@[self.pairs_seq()[i].0] == self.pairs_seq()[i].1 by {
            lemma_map_of_index(self.pairs_seq(), i);
        }
    }

    /// An empty entry set.
    pub fn new() -> (e: Entries)
        ensures
            e@ == Map::<Seq<char>, Seq<char>>::empty(),
            e.wf(),
            e.key_seq() == Seq::<Seq<char>>::empty(),
    {
        let e = Entries { pairs: Vec::new() };
        proof {
            assert(e.pairs_seq() =~= Seq::<(Seq<char>, Seq<char>)>::empty());
            assert(e.key_seq() =~= Seq::<Seq<char>>::empty());
        }
        e
    }

    /// The number of entries.
    pub fn len(&self) -> (n: usize)
        ensures
            n == self.key_seq().len(),
    {
        self.pairs.len()
    }

    /// Inserts a payload under a key; a later insert of the same key
    /// overwrites the earlier payload. A fresh key goes to the end of the
    /// insertion order; an existing key keeps its place.
    pub fn insert(&mut self, key: String, value: String)
        requires
            old(self).wf(),
        ensures
            final(self).wf(),
            final(self)@ == old(self)@.insert(key@, value@),
            final(self).key_seq() == if old(self).key_seq().contains(key@) {
                old(self).key_seq()
            } else {
                old(self).key_seq().push(key@)
            },
    {
        let ghost s0 = old(self).pairs_seq();
        proof {
            assert(forall|k: int| 0 <= k < s0.len() ==> #[trigger] keys_of(s0)[k] == s0[k].0);
        }
        let mut i: usize = 0;
        loop
            invariant
                0 <= i <= self.pairs@.len(),
                self.pairs@ == old(self).pairs@,
                s0 == self.pairs_seq(),
                s0.len() == self.pairs@.len(),
                forall|m: int, n: int| 0 <= m < n < s0.len() ==> s0[m].0 != s0[n].0,
                forall|k: int| 0 <= k < s0.len() ==> #[trigger] keys_of(s0)[k] == s0[k].0,
                forall|k: int| 0 <= k < i ==> s0[k].0 != key@,
            decreases self.pairs@.len() - i,
        {
            if i < self.pairs.len() {
                if string_eq(&self.pairs[i].0, &key) {
                    proof {
                        assert(s0[i as int].0 == key@);
                    }
                    let kept = self.pairs[i].0.clone();
                    self.pairs.remove(i);
                    self.pairs.insert(i, (kept, value));
                    proof {
                        assert(self.pairs@ =~= old(self).pairs@.update(
                            i as int,
                            self.pairs@[i as int],
                        ));
                        let s1 = self.pairs_seq();
                        assert(s1 =~= s0.update(i as int, (key@, value@)));
                        lemma_update_existing(s0, i as int, key@, value@);
                        assert(self.key_seq() =~= keys_of(s0));
                        assert(keys_of(s0).contains(key@)) by {
                            assert(keys_of(s0)[i as int] == key@);
                        }
                    }
                    return ;
                }
                i = i + 1;
            } else {
                self.pairs.push((key, value));
                proof {
                    let s1 = self.pairs_seq();
                    assert(s1 =~= s0.push((key@, value@)));
                    assert(s1.drop_last() =~= s0);
                    assert(self.key_seq() =~= keys_of(s0).push(key@));
                    if keys_of(s0).contains(key@) {
                        let k = choose|k: int|
                            0 <= k < keys_of(s0).len() && keys_of(s0)[k] == key@;
                        assert(s0[k].0 == key@);
                        assert(false);
                    }
                    assert forall|m: int, n: int| 0 <= m < n < s1.len() implies s1[m].0
                        != s1[n].0 by {
                        if n == s1.len() - 1 {
                            assert(s1[m].0 == s0[m].0);
                            assert(s0[m].0 != key@);
                        }
                    }
                }
                return ;
            }
        }
    }

    /// Looks a key up, returning its payload when the key is present.
    pub fn get(&self, key: &String) -> (r: Option<&String>)
        requires
            self.wf(),
        ensures
            match r {
                Some(v) => self@.dom().contains(key@) && v@ == self@[key@],
                None => !self@.dom().contains(key@),
            },
    {
        proof {
            self.lemma_view();
        }
        let mut i: usize = 0;
        while i < self.pairs.len()
            invariant
                0 <= i <= self.pairs.len(),
                self.wf(),
                forall|k: int| 0 <= k < i ==> self.pairs_seq()[k].0 != key@,
                forall|k: Seq<char>| #[trigger] self@.dom().contains(k) <==> self.key_seq().contains(
                    k,
                ),
                forall|j: int|
                    0 <= j < self.pairs_seq().len() ==> self@.dom().contains(
                        #[trigger] self.pairs_seq()[j].0,
                    ) && self@[self.pairs_seq()[j].0] == self.pairs_seq()[j].1,
            decreases self.pairs.len() - i,
        {
            if string_eq(&self.pairs[i].0, key) {
                proof {
                    assert(self.pairs_seq()[i as int].0 == key@);
                }
                return Some(&self.pairs[i].1);
            }
            i = i + 1;
        }
        proof {
            if self@.dom().contains(key@) {
                let j = choose|j: int|
                    0 <= j < self.key_seq().len() && self.key_seq()[j] == key@;
                assert(self.pairs_seq()[j].0 == key@);
            }
        }
        None
    }

    /// The keys containing `filter` as a substring, sorted.
    pub fn matching_keys(&self, filter: &str) -> (r: Vec<String>)
        ensures
            r@.map_values(|s: String| s@) == sort_lex(self.key_seq().filter(match_pred(filter@))),
    {
        let ghost pred = match_pred(filter@);
        let mut out: Vec<String> = Vec::new();
        let mut i: usize = 0;
        proof {
            assert(self.key_seq().take(0) =~= Seq::<Seq<char>>::empty());
            assert(Seq::<Seq<char>>::empty().filter(pred) =~= Seq::<Seq<char>>::empty()) by {
                reveal(Seq::filter);
            }
            assert(out@.map_values(|s: String| s@) =~= Seq::<Seq<char>>::empty());
        }
        while i < self.pairs.len()
            invariant
                0 <= i <= self.pairs@.len(),
                pred == match_pred(filter@),
                out@.map_values(|s: String| s@) == sort_lex(
                    self.key_seq().take(i as int).filter(pred),
                ),
            decreases self.pairs@.len() - i,
        {
            let ghost prefix = self.key_seq().take(i as int);
            let key = &self.pairs[i].0;
            proof {
                assert(self.key_seq()[i as int] == key@);
                assert(self.key_seq().take(i as int + 1).drop_last() =~= prefix);
                assert(self.key_seq().take(i as int + 1) =~= prefix.push(key@));
                seq_filter_push(prefix, pred, key@);
            }
            if str_contains(key.as_str(), filter) {
                let owned = key.clone();
                insert_sorted(&mut out, owned);
                proof {
                    let filtered = prefix.filter(pred);
                    let grown = self.key_seq().take(i as int + 1).filter(pred);
                    assert(grown == filtered.push(key@));
                    assert(grown.drop_last() =~= filtered);
                    assert(grown.last() == key@);
                    assert(sort_lex(grown) == insert_ordered(key@, sort_lex(filtered)));
                }
            }
            i = i + 1;
        }
        proof {
            assert(self.key_seq().take(self.key_seq().len() as int) =~= self.key_seq());
        }
        out
    }
}

/// The containment test the filter applies to a key: the current filter
/// text must occur in it as a substring.
pub open spec fn match_pred(filter: Seq<char>) -> spec_fn(Seq<char>) -> bool {
    |k: Seq<char>| is_substring(k, filter)
}

/// Appending one element to a sequence extends its filtered subsequence by
/// that element exactly when the element satisfies the predicate.
proof fn seq_filter_push(s: Seq<Seq<char>>, pred: spec_fn(Seq<char>) -> bool, x: Seq<char>)
    ensures
        s.push(x).filter(pred) == if pred(x) {
            s.filter(pred).push(x)
        } else {
            s.filter(pred)
        },
{
    reveal(Seq::filter);
    assert(s.push(x).drop_last() =~= s);
    assert(s.push(x).last() == x);
}

/// Updating the pair at a position holding the given key leaves the keys
/// unchanged and updates the map at that key.
proof fn lemma_update_existing(s: Seq<(Seq<char>, Seq<char>)>, i: int, key: Seq<char>, value: Seq<char>)
    requires
        forall|m: int, n: int| 0 <= m < n < s.len() ==> s[m].0 != s[n].0,
        0 <= i < s.len(),
        s[i].0 == key,
    ensures
        keys_of(s.update(i, (key, value))) == keys_of(s),
        map_of(s.update(i, (key, value))) == map_of(s).insert(key, value),
        forall|m: int, n: int|
            0 <= m < n < s.update(i, (key, value)).len() ==> s.update(i, (key, value))[m].0
                != s.update(i, (key, value))[n].0,
    decreases s.len(),
{
    let t = s.update(i, (key, value));
    assert(keys_of(t) =~= keys_of(s));
    if i == s.len() - 1 {
        assert(t.drop_last() =~= s.drop_last());
        assert(t.last() == (key, value));
        assert(map_of(t) =~= map_of(s).insert(key, value));
    } else {
        lemma_update_existing(s.drop_last(), i, key, value);
        assert(t.drop_last() =~= s.drop_last().update(i, (key, value)));
        assert(t.last() == s.last());
        assert(s.last().0 != key);
        assert(map_of(t) == map_of(s.drop_last()).insert(key, value).insert(
            s.last().0,
            s.last().1,
        ));
        assert(map_of(t) =~= map_of(s).insert(key, value));
    }
}

/// Returns whether two strings hold the same characters.
pub fn string_eq(a: &String, b: &String) -> (r: bool)
    ensures
        r == (a@ == b@),
{
    String::eq(a, b)
}

} // verus!
