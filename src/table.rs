//! Immutable sorted tables and the merge that compaction is built from.

use vstd::prelude::*;
use crate::entry::{Entry, EntryModel, Value, ValueModel};
use crate::keys::{lex_lt, compare_keys, lemma_lex_transitive};
use crate::run::{
    run_view, sorted_run, run_has, run_lookup, search, lemma_search_result,
    lemma_lookup_insert, lemma_sorted_insert,
};

verus! {

/// An immutable run of entries in ascending key order.
pub struct Table {
    entries: Vec<Entry>,
}

impl View for Table {
    type V = Seq<EntryModel>;

    closed spec fn view(&self) -> Seq<EntryModel> {
        run_view(self.entries@)
    }
}

/// What a newer run over an older one records for `k`: the newer run's
/// entry shadows the older one's.
pub open spec fn combined(newer: Seq<EntryModel>, older: Seq<EntryModel>, k: Seq<u8>) -> Option<ValueModel> {
    if run_has(newer, k) {
        run_lookup(newer, k)
    } else {
        run_lookup(older, k)
    }
}

/// A lookup with tombstones removed, as in a run written to the last level.
pub open spec fn without_tombstone(r: Option<ValueModel>) -> Option<ValueModel> {
    match r {
        Some(Some(v)) => Some(Some(v)),
        _ => None,
    }
}

/// What a merge of `newer` over `older` records for `k`.
pub open spec fn merged(newer: Seq<EntryModel>, older: Seq<EntryModel>, k: Seq<u8>, drop_tombstones: bool) -> Option<ValueModel> {
    if drop_tombstones {
        without_tombstone(combined(newer, older, k))
    } else {
        combined(newer, older, k)
    }
}

/// What a merge records for the key of an entry it has just taken.
pub open spec fn merged_entry(e: EntryModel, drop_tombstones: bool) -> Option<ValueModel> {
    if drop_tombstones && e.1 is None {
        None
    } else {
        Some(e.1)
    }
}

proof fn lemma_take_sorted(s: Seq<EntryModel>, i: int)
    requires
        sorted_run(s),
        0 <= i <= s.len(),
    ensures
        sorted_run(s.take(i)),
{
    assert forall|a: int, b: int| 0 <= a < b < s.take(i).len() implies lex_lt(#[trigger] s.take(i)[a].0, #[trigger] s.take(i)[b].0) by {
        assert(s.take(i)[a] == s[a] && s.take(i)[b] == s[b]);
    }
}

/// Growing a prefix of a sorted run by one entry.
proof fn lemma_take_next(s: Seq<EntryModel>, i: int, k: Seq<u8>)
    requires
        sorted_run(s),
        0 <= i < s.len(),
    ensures
        run_lookup(s.take(i + 1), k) == if k == s[i].0 { Some(s[i].1) } else { run_lookup(s.take(i), k) },
        run_has(s.take(i + 1), k) == (k == s[i].0 || run_has(s.take(i), k)),
{
    lemma_take_sorted(s, i);
    lemma_take_sorted(s, i + 1);
    assert(s.take(i + 1) =~= s.take(i).insert(i, s[i]));
    lemma_lookup_insert(s.take(i), i, s[i], k);
    if run_has(s.take(i + 1), k) && k != s[i].0 {
        assert(run_lookup(s.take(i + 1), k) is Some);
    }
    if run_has(s.take(i), k) {
        assert(run_lookup(s.take(i), k) is Some);
    }
}

/// Appending an entry whose key is above every key of a sorted run.
proof fn lemma_push(s: Seq<EntryModel>, e: EntryModel, k: Seq<u8>)
    requires
        sorted_run(s),
        forall|o: int| 0 <= o < s.len() ==> lex_lt(#[trigger] s[o].0, e.0),
    ensures
        sorted_run(s.push(e)),
        run_lookup(s.push(e), k) == if k == e.0 { Some(e.1) } else { run_lookup(s, k) },
{
    assert(s.push(e) =~= s.insert(s.len() as int, e));
    lemma_sorted_insert(s, s.len() as int, e);
    lemma_lookup_insert(s, s.len() as int, e, k);
}

/// Merges two sorted runs into one; where both hold a key, the entry of
/// `newer` is kept. With `drop_tombstones`, tombstones are left out.
pub fn merge_runs(newer: &Vec<Entry>, older: &Vec<Entry>, drop_tombstones: bool) -> (r: Vec<Entry>)
    requires
        sorted_run(run_view(newer@)),
        sorted_run(run_view(older@)),
    ensures
        sorted_run(run_view(r@)),
        forall|k: Seq<u8>| #[trigger] run_lookup(run_view(r@), k) == merged(run_view(newer@), run_view(older@), k, drop_tombstones),
        drop_tombstones ==> forall|i: int| 0 <= i < r@.len() ==> (#[trigger] r@[i]).value@ is Some,
{
    let ghost ns = run_view(newer@);
    let ghost os = run_view(older@);
    let mut out: Vec<Entry> = Vec::new();
    let mut i: usize = 0;
    let mut j: usize = 0;
    proof {
        assert forall|k: Seq<u8>| #[trigger] run_lookup(run_view(out@), k) == merged(ns.take(0), os.take(0), k, drop_tombstones) by {
            assert(!run_has(ns.take(0), k));
            assert(!run_has(os.take(0), k));
            assert(!run_has(run_view(out@), k));
        }
    }
    while i < newer.len() || j < older.len()
        invariant
            ns == run_view(newer@),
            os == run_view(older@),
            sorted_run(ns),
            sorted_run(os),
            0 <= i <= newer@.len(),
            0 <= j <= older@.len(),
            sorted_run(run_view(out@)),
            forall|k: Seq<u8>| #[trigger] run_lookup(run_view(out@), k) == merged(ns.take(i as int), os.take(j as int), k, drop_tombstones),
            forall|a: int| 0 <= a < i && j < older@.len() ==> lex_lt(#[trigger] ns[a].0, os[j as int].0),
            forall|b: int| 0 <= b < j && i < newer@.len() ==> lex_lt(#[trigger] os[b].0, ns[i as int].0),
            forall|o: int| 0 <= o < out@.len() && i < newer@.len() ==> lex_lt(#[trigger] run_view(out@)[o].0, ns[i as int].0),
            forall|o: int| 0 <= o < out@.len() && j < older@.len() ==> lex_lt(#[trigger] run_view(out@)[o].0, os[j as int].0),
            drop_tombstones ==> forall|o: int| 0 <= o < out@.len() ==> (#[trigger] out@[o]).value@ is Some,
        decreases newer@.len() + older@.len() - i - j,
    {
        let ghost prev = run_view(out@);
        let ghost i0 = i as int;
        let ghost j0 = j as int;
        let c: i8 = if i < newer.len() && j < older.len() {
            compare_keys(newer[i].key.as_slice(), older[j].key.as_slice())
        } else {
            0
        };
        // 0: take from newer only, 1: take from older only, 2: both hold the key
        let pick: u8 = if i == newer.len() {
            1
        } else if j == older.len() {
            0
        } else if c < 0 {
            0
        } else if c > 0 {
            1
        } else {
            2
        };
        let e = if pick == 1 {
            older[j].duplicate()
        } else {
            newer[i].duplicate()
        };
        proof {
            if i0 < ns.len() {
                assert(ns[i0].0 == newer@[i0].key@);
            }
            if j0 < os.len() {
                assert(os[j0].0 == older@[j0].key@);
            }
            if pick == 1 {
                assert(e@ == os[j0]);
            } else {
                assert(e@ == ns[i0]);
            }
        }
        let ghost em = e@;
        assert(pick == 0 ==> i0 < ns.len() && em == ns[i0] && (j0 < os.len() ==> lex_lt(ns[i0].0, os[j0].0)));
        assert(pick == 1 ==> j0 < os.len() && em == os[j0] && (i0 < ns.len() ==> lex_lt(os[j0].0, ns[i0].0)));
        assert(pick == 2 ==> i0 < ns.len() && j0 < os.len() && em == ns[i0] && ns[i0].0 == os[j0].0);
        if pick == 0 {
            i = i + 1;
        } else if pick == 1 {
            j = j + 1;
        } else {
            i = i + 1;
            j = j + 1;
        }
        let keep = !(drop_tombstones && e.value.is_tombstone());
        proof {
            // keys taken so far stay below what remains
            assert forall|a: int| 0 <= a < i && j < older@.len() implies lex_lt(#[trigger] ns[a].0, os[j as int].0) by {
                if pick == 0 {
                    if a < i0 {
                    }
                } else if pick == 1 {
                    lemma_lex_transitive(ns[a].0, os[j0].0, os[j as int].0);
                } else {
                    if a < i0 {
                        lemma_lex_transitive(ns[a].0, os[j0].0, os[j as int].0);
                    }
                }
            }
            assert forall|b: int| 0 <= b < j && i < newer@.len() implies lex_lt(#[trigger] os[b].0, ns[i as int].0) by {
                if pick == 0 {
                    lemma_lex_transitive(os[b].0, ns[i0].0, ns[i as int].0);
                } else if pick == 1 {
                } else {
                    if b < j0 {
                        lemma_lex_transitive(os[b].0, ns[i0].0, ns[i as int].0);
                    }
                }
            }
            assert forall|o: int| 0 <= o < prev.len() && i < newer@.len() implies lex_lt(#[trigger] prev[o].0, ns[i as int].0) by {
                if pick == 0 || pick == 2 {
                    lemma_lex_transitive(prev[o].0, ns[i0].0, ns[i as int].0);
                }
            }
            assert forall|o: int| 0 <= o < prev.len() && j < older@.len() implies lex_lt(#[trigger] prev[o].0, os[j as int].0) by {
                if pick == 1 || pick == 2 {
                    lemma_lex_transitive(prev[o].0, os[j0].0, os[j as int].0);
                }
            }
            if i < newer@.len() {
                if pick == 0 || pick == 2 {
                } else {
                }
                assert(lex_lt(em.0, ns[i as int].0));
            }
            if j < older@.len() {
                if pick == 1 || pick == 2 {
                } else {
                }
                assert(lex_lt(em.0, os[j as int].0));
            }
            // the lookups of the grown prefixes
            assert forall|k: Seq<u8>| #[trigger] merged(ns.take(i as int), os.take(j as int), k, drop_tombstones)
                == if k == em.0 { merged_entry(em, drop_tombstones) } else { merged(ns.take(i0), os.take(j0), k, drop_tombstones) } by {
                if pick == 0 || pick == 2 {
                    lemma_take_next(ns, i0, k);
                } else {
                    assert(ns.take(i as int) == ns.take(i0));
                }
                if pick == 1 || pick == 2 {
                    lemma_take_next(os, j0, k);
                } else {
                    assert(os.take(j as int) == os.take(j0));
                }
                if pick == 1 && k == em.0 && run_has(ns.take(i0), k) {
                    let a = crate::run::run_index(ns.take(i0), k);
                    assert(ns.take(i0)[a] == ns[a]);
                    crate::keys::lemma_lex_irreflexive(k);
                }
            }
        }
        proof {
            assert forall|o: int| 0 <= o < prev.len() implies lex_lt(#[trigger] prev[o].0, em.0) by {
                if pick == 1 {
                } else {
                }
            }
        }
        if keep {
            proof {
                assert forall|k: Seq<u8>| #[trigger] run_lookup(prev.push(em), k) == if k == em.0 { Some(em.1) } else { run_lookup(prev, k) } by {
                    lemma_push(prev, em, k);
                }
                lemma_push(prev, em, em.0);
            }
            out.push(e);
            assert(run_view(out@) =~= prev.push(em));
        }
        proof {
            assert forall|k: Seq<u8>| #[trigger] run_lookup(run_view(out@), k) == merged(ns.take(i as int), os.take(j as int), k, drop_tombstones) by {
                assert(merged(ns.take(i as int), os.take(j as int), k, drop_tombstones)
                    == if k == em.0 { merged_entry(em, drop_tombstones) } else { merged(ns.take(i0), os.take(j0), k, drop_tombstones) });
                if !keep && k == em.0 && run_has(prev, k) {
                    let o = crate::run::run_index(prev, k);
                    crate::keys::lemma_lex_irreflexive(k);
                    assert(lex_lt(prev[o].0, em.0));
                }
            }
        }
    }
    proof {
        assert(ns.take(i as int) =~= ns);
        assert(os.take(j as int) =~= os);
    }
    out
}

impl Table {
    pub open spec fn wf(&self) -> bool {
        sorted_run(self@)
    }

    /// A table of the given entries, which must be in ascending key order.
    pub fn from_sorted(entries: Vec<Entry>) -> (r: Table)
        requires
            sorted_run(run_view(entries@)),
        ensures
            r.wf(),
            r@ == run_view(entries@),
    {
        Table { entries }
    }

    pub fn empty() -> (r: Table)
        ensures
            r.wf(),
            r@ == Seq::<EntryModel>::empty(),
    {
        let r = Table { entries: Vec::new() };
        assert(r@ =~= Seq::<EntryModel>::empty());
        r
    }

    /// Number of entries.
    pub fn len(&self) -> (r: usize)
        ensures
            r == self@.len(),
    {
        self.entries.len()
    }

    pub fn entries(&self) -> (r: &Vec<Entry>)
        ensures
            run_view(r@) == self@,
    {
        &self.entries
    }

    /// The table's smallest key, if it holds any entry.
    pub fn min_key(&self) -> (r: Option<&Vec<u8>>)
        ensures
            self@.len() == 0 ==> r is None,
            self@.len() > 0 ==> r is Some && r->0@ == self@[0].0,
    {
        if self.entries.len() == 0 {
            None
        } else {
            Some(&self.entries[0].key)
        }
    }

    /// The table's largest key, if it holds any entry.
    pub fn max_key(&self) -> (r: Option<&Vec<u8>>)
        ensures
            self@.len() == 0 ==> r is None,
            self@.len() > 0 ==> r is Some && r->0@ == self@[self@.len() - 1].0,
    {
        if self.entries.len() == 0 {
            None
        } else {
            Some(&self.entries[self.entries.len() - 1].key)
        }
    }

    /// Whether `key` lies within the table's key range; a key outside it is
    /// not in the table.
    pub fn covers(&self, key: &[u8]) -> (r: bool)
        requires
            self.wf(),
        ensures
            r == (self@.len() > 0 && !lex_lt(key@, self@[0].0) && !lex_lt(self@[self@.len() - 1].0, key@)),
            !r ==> run_lookup(self@, key@) is None,
    {
        let lo = self.min_key();
        let hi = self.max_key();
        match (lo, hi) {
            (Some(lo), Some(hi)) => {
                let below = compare_keys(key, lo.as_slice()) < 0;
                let above = compare_keys(hi.as_slice(), key) < 0;
                proof {
                    let s = self@;
                    let n = s.len() as int;
                    if (below || above) && run_has(s, key@) {
                        let j = crate::run::run_index(s, key@);
                        crate::keys::lemma_lex_irreflexive(key@);
                        if below && j > 0 {
                            lemma_lex_transitive(key@, s[0].0, s[j].0);
                        }
                        if above && j < n - 1 {
                            lemma_lex_transitive(s[j].0, s[n - 1].0, key@);
                        }
                    }
                }
                !below && !above
            },
            _ => {
                proof {
                    if run_has(self@, key@) {
                        let j = crate::run::run_index(self@, key@);
                    }
                }
                false
            },
        }
    }

    /// What the table records for `key`: a value, a tombstone, or nothing.
    pub fn get(&self, key: &[u8]) -> (r: Option<Value>)
        requires
            self.wf(),
        ensures
            match r {
                Some(v) => run_lookup(self@, key@) == Some(v@),
                None => run_lookup(self@, key@) is None,
            },
    {
        let (found, at) = search(&self.entries, key);
        proof {
            lemma_search_result(self@, key@, found, at as int);
        }
        if found {
            Some(self.entries[at].value.duplicate())
        } else {
            None
        }
    }
}

} // verus!
