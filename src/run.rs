//! Sorted runs: sequences of entries in strictly ascending key order, the
//! shape shared by the memtable and by every table.

use vstd::prelude::*;
use crate::entry::{Entry, EntryModel, ValueModel, entry_cost};
use crate::keys::{lex_lt, compare_keys, lemma_lex_irreflexive, lemma_lex_transitive};

verus! {

/// The model of a vector of entries.
pub open spec fn run_view(v: Seq<Entry>) -> Seq<EntryModel> {
    v.map_values(|e: Entry| e@)
}

/// Keys strictly ascending.
pub open spec fn sorted_run(s: Seq<EntryModel>) -> bool {
    forall|i: int, j: int| 0 <= i < j < s.len() ==> lex_lt(#[trigger] s[i].0, #[trigger] s[j].0)
}

/// `k` is the key of some entry of `s`.
pub open spec fn run_has(s: Seq<EntryModel>, k: Seq<u8>) -> bool {
    exists|i: int| 0 <= i < s.len() && #[trigger] s[i].0 == k
}

/// An index at which `k` stands in `s`, where there is one.
pub open spec fn run_index(s: Seq<EntryModel>, k: Seq<u8>) -> int {
    choose|i: int| 0 <= i < s.len() && #[trigger] s[i].0 == k
}

/// The value that `s` records for `k`, if any.
pub open spec fn run_lookup(s: Seq<EntryModel>, k: Seq<u8>) -> Option<ValueModel> {
    if run_has(s, k) {
        Some(s[run_index(s, k)].1)
    } else {
        None
    }
}

/// Sum of the entries' costs.
pub open spec fn run_cost(s: Seq<EntryModel>) -> nat
    decreases s.len(),
{
    if s.len() == 0 {
        0
    } else {
        run_cost(s.drop_last()) + entry_cost(s.last())
    }
}

/// In a sorted run each key stands at one index only.
pub proof fn lemma_sorted_unique(s: Seq<EntryModel>, i: int, j: int)
    requires
        sorted_run(s),
        0 <= i < s.len(),
        0 <= j < s.len(),
        s[i].0 == s[j].0,
    ensures
        i == j,
{
    lemma_lex_irreflexive(s[i].0);
}

/// In a sorted run the lookup of a key found at `i` is the value at `i`.
pub proof fn lemma_lookup_at(s: Seq<EntryModel>, i: int)
    requires
        sorted_run(s),
        0 <= i < s.len(),
    ensures
        run_lookup(s, s[i].0) == Some(s[i].1),
{
    let k = s[i].0;
    assert(run_has(s, k));
    let j = run_index(s, k);
    lemma_sorted_unique(s, i, j);
}

pub proof fn lemma_cost_update(s: Seq<EntryModel>, i: int, e: EntryModel)
    requires
        0 <= i < s.len(),
    ensures
        run_cost(s.update(i, e)) + entry_cost(s[i]) == run_cost(s) + entry_cost(e),
    decreases s.len(),
{
    if i < s.len() - 1 {
        assert(s.update(i, e).drop_last() =~= s.drop_last().update(i, e));
        lemma_cost_update(s.drop_last(), i, e);
    } else {
        assert(s.update(i, e).drop_last() =~= s.drop_last());
    }
}

pub proof fn lemma_cost_insert(s: Seq<EntryModel>, i: int, e: EntryModel)
    requires
        0 <= i <= s.len(),
    ensures
        run_cost(s.insert(i, e)) == run_cost(s) + entry_cost(e),
    decreases s.len(),
{
    if i < s.len() {
        assert(s.insert(i, e).drop_last() =~= s.drop_last().insert(i, e));
        lemma_cost_insert(s.drop_last(), i, e);
    } else {
        assert(s.insert(i, e).drop_last() =~= s);
    }
}

pub proof fn lemma_sorted_insert(s: Seq<EntryModel>, p: int, e: EntryModel)
    requires
        sorted_run(s),
        0 <= p <= s.len(),
        forall|j: int| 0 <= j < p ==> lex_lt(#[trigger] s[j].0, e.0),
        forall|j: int| p <= j < s.len() ==> lex_lt(e.0, #[trigger] s[j].0),
    ensures
        sorted_run(s.insert(p, e)),
{
    let t = s.insert(p, e);
    assert forall|i: int, j: int| 0 <= i < j < t.len() implies lex_lt(#[trigger] t[i].0, #[trigger] t[j].0) by {
        if j < p {
            assert(t[i] == s[i] && t[j] == s[j]);
        } else if i < p && j == p {
        } else if i < p && j > p {
            assert(t[j] == s[j - 1]);
        } else if i == p {
            assert(t[j] == s[j - 1]);
        } else {
            assert(t[i] == s[i - 1] && t[j] == s[j - 1]);
        }
    }
}

/// Lookups in a sorted run after a new key is inserted.
pub proof fn lemma_lookup_insert(s: Seq<EntryModel>, p: int, e: EntryModel, k: Seq<u8>)
    requires
        sorted_run(s),
        sorted_run(s.insert(p, e)),
        0 <= p <= s.len(),
    ensures
        run_lookup(s.insert(p, e), k) == if k == e.0 { Some(e.1) } else { run_lookup(s, k) },
{
    let t = s.insert(p, e);
    assert(t[p] == e);
    if k == e.0 {
        lemma_lookup_at(t, p);
    } else if run_has(s, k) {
        let i = run_index(s, k);
        lemma_lookup_at(s, i);
        if i < p {
            assert(t[i] == s[i]);
            lemma_lookup_at(t, i);
        } else {
            assert(t[i + 1] == s[i]);
            lemma_lookup_at(t, i + 1);
        }
    } else if run_has(t, k) {
        let j = run_index(t, k);
        if j < p {
            assert(s[j] == t[j]);
        } else {
            assert(s[j - 1] == t[j]);
        }
    }
}

/// Lookups in a sorted run after the value of a present key is replaced.
pub proof fn lemma_lookup_update(s: Seq<EntryModel>, p: int, e: EntryModel, k: Seq<u8>)
    requires
        sorted_run(s),
        0 <= p < s.len(),
        s[p].0 == e.0,
    ensures
        sorted_run(s.update(p, e)),
        run_lookup(s.update(p, e), k) == if k == e.0 { Some(e.1) } else { run_lookup(s, k) },
{
    let t = s.update(p, e);
    assert forall|i: int, j: int| 0 <= i < j < t.len() implies lex_lt(#[trigger] t[i].0, #[trigger] t[j].0) by {
        assert(s[i].0 == t[i].0 && s[j].0 == t[j].0);
    }
    if k == e.0 {
        lemma_lookup_at(t, p);
    } else if run_has(s, k) {
        let i = run_index(s, k);
        lemma_lookup_at(s, i);
        lemma_lookup_at(t, i);
    } else if run_has(t, k) {
        let j = run_index(t, k);
        assert(s[j].0 == t[j].0);
    }
}

/// Binary search for `key` in a sorted run. Returns whether it is there and
/// the index where it stands or where it would be inserted.
pub fn search(v: &Vec<Entry>, key: &[u8]) -> (r: (bool, usize))
    requires
        sorted_run(run_view(v@)),
    ensures
        r.1 <= v@.len(),
        r.0 ==> r.1 < v@.len() && v@[r.1 as int].key@ == key@,
        !r.0 ==> forall|j: int| 0 <= j < r.1 ==> lex_lt(#[trigger] v@[j].key@, key@),
        !r.0 ==> forall|j: int| r.1 <= j < v@.len() ==> lex_lt(key@, #[trigger] v@[j].key@),
{
    let ghost s = run_view(v@);
    let mut lo: usize = 0;
    let mut hi: usize = v.len();
    while lo < hi
        invariant
            s == run_view(v@),
            sorted_run(s),
            0 <= lo <= hi <= v@.len(),
            forall|j: int| 0 <= j < lo ==> lex_lt(#[trigger] v@[j].key@, key@),
            forall|j: int| hi <= j < v@.len() ==> lex_lt(key@, #[trigger] v@[j].key@),
        decreases hi - lo,
    {
        let mid = lo + (hi - lo) / 2;
        let c = compare_keys(v[mid].key.as_slice(), key);
        if c == 0 {
            return (true, mid);
        } else if c < 0 {
            assert forall|j: int| 0 <= j < mid + 1 implies lex_lt(#[trigger] v@[j].key@, key@) by {
                if j < mid {
                    assert(s[j].0 == v@[j].key@ && s[mid as int].0 == v@[mid as int].key@);
                    lemma_lex_transitive(v@[j].key@, v@[mid as int].key@, key@);
                }
            }
            lo = mid + 1;
        } else {
            assert forall|j: int| mid <= j < v@.len() implies lex_lt(key@, #[trigger] v@[j].key@) by {
                if j > mid {
                    assert(s[j].0 == v@[j].key@ && s[mid as int].0 == v@[mid as int].key@);
                    lemma_lex_transitive(key@, v@[mid as int].key@, v@[j].key@);
                }
            }
            hi = mid;
        }
    }
    (false, lo)
}

/// What `search` reports, read over the model: found means the lookup is
/// the value at the index; not found means the run has no such key.
pub proof fn lemma_search_result(s: Seq<EntryModel>, key: Seq<u8>, found: bool, at: int)
    requires
        sorted_run(s),
        0 <= at <= s.len(),
        found ==> at < s.len() && s[at].0 == key,
        !found ==> forall|j: int| 0 <= j < at ==> lex_lt(#[trigger] s[j].0, key),
        !found ==> forall|j: int| at <= j < s.len() ==> lex_lt(key, #[trigger] s[j].0),
    ensures
        found ==> run_lookup(s, key) == Some(s[at].1),
        !found ==> run_lookup(s, key) is None,
{
    if found {
        lemma_lookup_at(s, at);
    } else {
        if run_has(s, key) {
            let j = choose|j: int| 0 <= j < s.len() && #[trigger] s[j].0 == key;
            lemma_lex_irreflexive(key);
            if j < at {
                assert(lex_lt(s[j].0, key));
            } else {
                assert(lex_lt(key, s[j].0));
            }
        }
    }
}

} // verus!
