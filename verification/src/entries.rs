//! Tables from cell id to symbol, kept as lists sorted by id.

use vstd::prelude::*;
use crate::grid_cell::Symbol;

verus! {

/// The ids of `s` rise strictly from front to back.
pub open spec fn sorted_by_id(s: Seq<(i32, Symbol)>) -> bool {
    forall|i: int, j: int| 0 <= i < j < s.len() ==> (#[trigger] s[i]).0 < (#[trigger] s[j]).0
}

/// `s` lists exactly the entries of `m`, sorted by id.
pub open spec fn lists(s: Seq<(i32, Symbol)>, m: Map<i32, Symbol>) -> bool {
    &&& sorted_by_id(s)
    &&& forall|i: int| 0 <= i < s.len() ==> m.contains_key((#[trigger] s[i]).0) && m[s[i].0] == s[i].1
    &&& forall|k: i32| #[trigger] m.contains_key(k) ==> exists|i: int| 0 <= i < s.len() && (#[trigger] s[i]).0 == k
}

/// The entries of `m` sorted by id.
pub open spec fn sorted_entries(m: Map<i32, Symbol>) -> Seq<(i32, Symbol)> {
    choose|s: Seq<(i32, Symbol)>| lists(s, m)
}

/// Two sorted lists of one table agree on their first `i` entries.
proof fn lemma_lists_prefix(s1: Seq<(i32, Symbol)>, s2: Seq<(i32, Symbol)>, m: Map<i32, Symbol>, i: int)
    requires
        lists(s1, m),
        lists(s2, m),
        0 <= i <= s1.len(),
        i <= s2.len(),
    ensures
        forall|j: int| 0 <= j < i ==> s1[j] == s2[j],
    decreases i,
{
    if i > 0 {
        lemma_lists_prefix(s1, s2, m, i - 1);
        let k1 = s1[i - 1].0;
        let k2 = s2[i - 1].0;
        assert(m.contains_key(k1));
        assert(m.contains_key(k2));
        if k1 < k2 {
            let j = choose|j: int| 0 <= j < s2.len() && s2[j].0 == k1;
            if j < i - 1 {
                assert(s1[j] == s2[j]);
                assert(s1[j].0 < s1[i - 1].0);
            } else {
                assert(s2[i - 1].0 <= s2[j].0);
            }
        } else if k2 < k1 {
            let j = choose|j: int| 0 <= j < s1.len() && s1[j].0 == k2;
            if j < i - 1 {
                assert(s1[j] == s2[j]);
                assert(s2[j].0 < s2[i - 1].0);
            } else {
                assert(s1[i - 1].0 <= s1[j].0);
            }
        }
    }
}

/// A table has one sorted list only.
pub proof fn lemma_lists_unique(s1: Seq<(i32, Symbol)>, s2: Seq<(i32, Symbol)>, m: Map<i32, Symbol>)
    requires
        lists(s1, m),
        lists(s2, m),
    ensures
        s1 == s2,
{
    if s1.len() <= s2.len() {
        lemma_lists_prefix(s1, s2, m, s1.len() as int);
        if s1.len() < s2.len() {
            let k = s2[s1.len() as int].0;
            assert(m.contains_key(k));
            let j = choose|j: int| 0 <= j < s1.len() && s1[j].0 == k;
            assert(s1[j] == s2[j]);
            assert(s2[j].0 < s2[s1.len() as int].0);
        }
    } else {
        lemma_lists_prefix(s1, s2, m, s2.len() as int);
        let k = s1[s2.len() as int].0;
        assert(m.contains_key(k));
        let j = choose|j: int| 0 <= j < s2.len() && s2[j].0 == k;
        assert(s1[j] == s2[j]);
        assert(s1[j].0 < s1[s2.len() as int].0);
    }
    assert(s1 =~= s2);
}

/// A sorted list of a table is the table's `sorted_entries`.
pub proof fn lemma_sorted_entries(s: Seq<(i32, Symbol)>, m: Map<i32, Symbol>)
    requires
        lists(s, m),
    ensures
        sorted_entries(m) == s,
{
    lemma_lists_unique(s, sorted_entries(m), m);
}

/// How many entries of `s` hold `sym`.
pub open spec fn count_symbol(s: Seq<(i32, Symbol)>, sym: Symbol) -> nat
    decreases s.len(),
{
    if s.len() == 0 {
        0
    } else {
        count_symbol(s.drop_last(), sym) + if s.last().1 == sym { 1nat } else { 0nat }
    }
}

/// The entries of `s` that hold a symbol.
pub open spec fn filled(s: Seq<(i32, Symbol)>) -> Seq<(i32, Symbol)> {
    s.filter(|e: (i32, Symbol)| e.1 != Symbol::Empty)
}

/// Puts `value` under `key` into the sorted list `entries`, replacing the
/// entry with that key if there is one.
pub fn insert_entry(entries: &mut Vec<(i32, Symbol)>, key: i32, value: Symbol)
    requires
        exists|m: Map<i32, Symbol>| lists(old(entries)@, m),
    ensures
        forall|m: Map<i32, Symbol>| lists(old(entries)@, m) ==> lists(final(entries)@, m.insert(key, value)),
        final(entries)@.len() <= old(entries)@.len() + 1,
{
    let ghost s = entries@;
    let mut p: usize = 0;
    while p < entries.len() && entries[p].0 < key
        invariant
            p <= entries@.len(),
            entries@ == s,
            forall|j: int| 0 <= j < p ==> (#[trigger] s[j]).0 < key,
        decreases entries@.len() - p,
    {
        p += 1;
    }
    if p < entries.len() && entries[p].0 == key {
        entries.set(p, (key, value));
        proof {
            assert forall|m: Map<i32, Symbol>| lists(s, m) implies lists(entries@, m.insert(key, value)) by {
                let m2 = m.insert(key, value);
                assert forall|k: i32| #[trigger] m2.contains_key(k) implies exists|i: int| 0 <= i < entries@.len() && (#[trigger] entries@[i]).0 == k by {
                    if k == key {
                        assert(entries@[p as int].0 == k);
                    } else {
                        let i = choose|i: int| 0 <= i < s.len() && (#[trigger] s[i]).0 == k;
                        assert(entries@[i].0 == k);
                    }
                }
            }
        }
    } else {
        entries.insert(p, (key, value));
        proof {
            assert forall|i: int, j: int| 0 <= i < j < entries@.len() implies (#[trigger] entries@[i]).0 < (#[trigger] entries@[j]).0 by {
                if j < p {
                    assert(entries@[i] == s[i] && entries@[j] == s[j]);
                } else if j == p {
                    assert(entries@[i] == s[i]);
                } else if i < p {
                    assert(entries@[i] == s[i] && entries@[j] == s[j - 1]);
                    assert(s[p as int].0 > key);
                    assert(s[p as int].0 <= s[j - 1].0);
                } else if i == p {
                    assert(entries@[j] == s[j - 1]);
                    assert(s[p as int].0 > key);
                    assert(s[p as int].0 <= s[j - 1].0);
                } else {
                    assert(entries@[i] == s[i - 1] && entries@[j] == s[j - 1]);
                }
            }
            assert forall|m: Map<i32, Symbol>| lists(s, m) implies lists(entries@, m.insert(key, value)) by {
                let m2 = m.insert(key, value);
                assert forall|i: int| 0 <= i < entries@.len() implies m2.contains_key((#[trigger] entries@[i]).0) && m2[entries@[i].0] == entries@[i].1 by {
                    if i < p {
                        assert(entries@[i] == s[i]);
                    } else if i > p {
                        assert(entries@[i] == s[i - 1]);
                    }
                }
                assert forall|k: i32| #[trigger] m2.contains_key(k) implies exists|i: int| 0 <= i < entries@.len() && (#[trigger] entries@[i]).0 == k by {
                    if k == key {
                        assert(entries@[p as int].0 == k);
                    } else {
                        let i = choose|i: int| 0 <= i < s.len() && (#[trigger] s[i]).0 == k;
                        if i < p {
                            assert(entries@[i] == s[i]);
                        } else {
                            assert(entries@[i + 1] == s[i]);
                        }
                    }
                }
            }
        }
    }
}

} // verus!
