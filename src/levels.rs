//! The level manager: tables in size-tiered levels, lookup in shadowing
//! order, and compaction.

use vstd::prelude::*;
use crate::entry::{Entry, EntryModel, Value, ValueModel};
use crate::run::{run_view, sorted_run, run_has, run_lookup};
use crate::table::{Table, merge_runs, merged, combined};

verus! {

/// Default number of tables level 0 holds before it is compacted.
pub const DEFAULT_L0_TABLES: usize = 4;

/// Default entry capacity of level 1.
pub const DEFAULT_BASE_ENTRIES: usize = 1024;

/// Default factor by which each deeper level's capacity grows.
pub const DEFAULT_GROWTH: usize = 10;

/// Default number of levels below level 0.
pub const DEFAULT_LEVELS: usize = 4;

/// The models of a list of tables.
pub open spec fn tables_view(v: Seq<Table>) -> Seq<Seq<EntryModel>> {
    v.map_values(|t: Table| t@)
}

/// What a stack of runs, newest first, records for `k`: the entry of the
/// first run that holds the key.
pub open spec fn stack_lookup(runs: Seq<Seq<EntryModel>>, k: Seq<u8>) -> Option<ValueModel>
    decreases runs.len(),
{
    if runs.len() == 0 {
        None
    } else if run_has(runs[0], k) {
        run_lookup(runs[0], k)
    } else {
        stack_lookup(runs.drop_first(), k)
    }
}

/// The value a reader sees for `k`: bytes, or nothing for a tombstone or an
/// absent key.
pub open spec fn visible(r: Option<ValueModel>) -> Option<Seq<u8>> {
    match r {
        Some(Some(v)) => Some(v),
        _ => None,
    }
}

pub proof fn lemma_stack_append(p: Seq<Seq<EntryModel>>, q: Seq<Seq<EntryModel>>, k: Seq<u8>)
    ensures
        stack_lookup(p + q, k) == if stack_lookup(p, k) is Some { stack_lookup(p, k) } else { stack_lookup(q, k) },
    decreases p.len(),
{
    if p.len() == 0 {
        assert(p + q =~= q);
    } else {
        assert((p + q).drop_first() =~= p.drop_first() + q);
        assert((p + q)[0] == p[0]);
        lemma_stack_append(p.drop_first(), q, k);
    }
}

/// Replacing two adjacent runs by their merge keeps what readers see.
pub proof fn lemma_replace_pair(
    p: Seq<Seq<EntryModel>>,
    a: Seq<EntryModel>,
    b: Seq<EntryModel>,
    m: Seq<EntryModel>,
    q: Seq<Seq<EntryModel>>,
    drop_tombstones: bool,
    k: Seq<u8>,
)
    requires
        run_lookup(m, k) == merged(a, b, k, drop_tombstones),
        drop_tombstones ==> q.len() == 0,
    ensures
        visible(stack_lookup(p + (seq![m] + q), k)) == visible(stack_lookup(p + (seq![a, b] + q), k)),
{
    lemma_stack_append(p, seq![m] + q, k);
    lemma_stack_append(p, seq![a, b] + q, k);
    lemma_stack_append(seq![m], q, k);
    lemma_stack_append(seq![a, b], q, k);
    let none = Seq::<Seq<EntryModel>>::empty();
    assert(stack_lookup(none, k) is None);
    assert(seq![m].drop_first() =~= none);
    assert(seq![a, b].drop_first() =~= seq![b]);
    assert(seq![b].drop_first() =~= none);
    assert(seq![m][0] == m);
    assert(seq![b][0] == b);
    assert(seq![a, b][0] == a);
    assert(stack_lookup(seq![m], k) == run_lookup(m, k));
    assert(stack_lookup(seq![b], k) == run_lookup(b, k));
    assert(stack_lookup(seq![a, b], k) == combined(a, b, k));
    if q.len() == 0 {
        assert(stack_lookup(q, k) is None);
    }
}

/// A run that holds a key shadows every older run: its entry is what the
/// stack records.
pub proof fn law_newer_run_shadows(newer: Seq<EntryModel>, older: Seq<Seq<EntryModel>>, k: Seq<u8>)
    requires
        run_has(newer, k),
    ensures
        stack_lookup(seq![newer] + older, k) == run_lookup(newer, k),
{
    assert((seq![newer] + older)[0] == newer);
}

/// A tombstone hides the key from readers, whatever older runs hold for it.
pub proof fn law_tombstone_shadows(newer: Seq<EntryModel>, older: Seq<Seq<EntryModel>>, k: Seq<u8>)
    requires
        run_lookup(newer, k) == Some(None::<Seq<u8>>),
    ensures
        visible(stack_lookup(seq![newer] + older, k)) is None,
{
    law_newer_run_shadows(newer, older, k);
}

/// Entry capacity of level `j + 1`: `base` times `growth` to the `j`, held
/// at `usize::MAX` once it would pass it.
pub open spec fn level_capacity(base: nat, growth: nat, j: nat) -> nat
    decreases j,
{
    if j == 0 {
        base
    } else {
        let c = level_capacity(base, growth, (j - 1) as nat);
        if c * growth <= usize::MAX {
            c * growth
        } else {
            usize::MAX as nat
        }
    }
}

/// A run holding no tombstone.
pub open spec fn no_tombstones(s: Seq<EntryModel>) -> bool {
    forall|o: int| 0 <= o < s.len() ==> (#[trigger] s[o]).1 is Some
}

/// Runs in shadowing order: level-0 tables newest first, then the deeper levels.
pub struct SST {
    l0: Vec<Table>,
    levels: Vec<Table>,
    l0_tables: usize,
    base_entries: usize,
    growth: usize,
}

impl SST {
    pub closed spec fn runs(&self) -> Seq<Seq<EntryModel>> {
        tables_view(self.l0@) + tables_view(self.levels@)
    }

    pub closed spec fn wf(&self) -> bool {
        &&& forall|i: int| 0 <= i < self.l0@.len() ==> (#[trigger] self.l0@[i]).wf()
        &&& forall|i: int| 0 <= i < self.levels@.len() ==> (#[trigger] self.levels@[i]).wf()
        &&& self.levels@.len() >= 1
        &&& self.growth >= 1
        &&& no_tombstones(self.levels@[self.levels@.len() - 1]@)
    }

    /// The run of the `j`-th table of level 0, newest first.
    pub closed spec fn l0_run(&self, j: int) -> Seq<EntryModel> {
        self.l0@[j]@
    }

    /// Number of levels below level 0.
    pub closed spec fn level_count(&self) -> nat {
        self.levels@.len()
    }

    /// The run of level `j + 1`.
    pub closed spec fn level(&self, j: int) -> Seq<EntryModel> {
        self.levels@[j]@
    }

    /// Entry capacity of level `j + 1`.
    pub closed spec fn capacity(&self, j: nat) -> nat {
        level_capacity(self.base_entries as nat, self.growth as nat, j)
    }

    /// Each level is a sorted run (one entry per key), the last level holds
    /// no tombstone, and every level above the last is within its capacity.
    pub open spec fn levels_in_shape(&self) -> bool {
        &&& forall|j: int| 0 <= j < self.level_count() ==> sorted_run(#[trigger] self.level(j))
        &&& no_tombstones(self.level(self.level_count() - 1))
        &&& forall|j: int| 0 <= j < self.level_count() - 1 ==> (#[trigger] self.level(j)).len() <= self.capacity(j as nat)
    }

    /// Number of tables level 0 may hold.
    pub closed spec fn l0_limit(&self) -> nat {
        self.l0_tables as nat
    }

    /// Number of tables now in level 0.
    pub closed spec fn l0_count(&self) -> nat {
        self.l0@.len()
    }

    /// What the tables show for `key`.
    pub open spec fn lookup(&self, key: Seq<u8>) -> Option<Seq<u8>> {
        visible(stack_lookup(self.runs(), key))
    }

    /// An empty set of levels: `levels` levels below level 0, level 0 compacted
    /// beyond `l0_tables` tables, level 1 beyond `base_entries` entries, each
    /// deeper level `growth` times the one above.
    pub fn open(l0_tables: usize, base_entries: usize, growth: usize, levels: usize) -> (r: SST)
        requires
            levels >= 1,
            growth >= 1,
        ensures
            r.wf(),
            r.l0_limit() == l0_tables,
            r.l0_count() == 0,
            r.level_count() == levels,
            forall|j: nat| #[trigger] r.capacity(j) == level_capacity(base_entries as nat, growth as nat, j),
            r.levels_in_shape(),
            forall|k: Seq<u8>| #[trigger] r.lookup(k) is None,
    {
        let mut v: Vec<Table> = Vec::new();
        let mut i: usize = 0;
        while i < levels
            invariant
                0 <= i <= levels,
                v@.len() == i,
                forall|j: int| 0 <= j < v@.len() ==> (#[trigger] v@[j]).wf() && v@[j]@.len() == 0,
            decreases levels - i,
        {
            v.push(Table::empty());
            i = i + 1;
        }
        let r = SST { l0: Vec::new(), levels: v, l0_tables, base_entries, growth };
        assert forall|k: Seq<u8>| #[trigger] r.lookup(k) is None by {
            r.lemma_all_empty(k);
        }
        r
    }

    proof fn lemma_all_empty(&self, k: Seq<u8>)
        requires
            self.l0@.len() == 0,
            forall|j: int| 0 <= j < self.levels@.len() ==> (#[trigger] self.levels@[j])@.len() == 0,
        ensures
            stack_lookup(self.runs(), k) is None,
    {
        let runs = self.runs();
        assert(runs =~= tables_view(self.levels@));
        lemma_empty_stack(runs, k);
    }

    /// Number of tables in level 0.
    pub fn l0_len(&self) -> (r: usize)
        ensures
            r == self.l0_count(),
    {
        self.l0.len()
    }

    /// What the tables record for `key`, searched newest first.
    pub fn get(&self, key: &[u8]) -> (r: Option<Value>)
        requires
            self.wf(),
        ensures
            match r {
                Some(v) => stack_lookup(self.runs(), key@) == Some(v@),
                None => stack_lookup(self.runs(), key@) is None,
            },
    {
        let first = find_in(&self.l0, key);
        proof {
            lemma_stack_append(tables_view(self.l0@), tables_view(self.levels@), key@);
        }
        if first.is_some() {
            return first;
        }
        find_in(&self.levels, key)
    }

    /// Places a freshly flushed run, given in ascending key order, at the top
    /// of level 0, then compacts what has overflowed.
    pub fn set(&mut self, entries: Vec<Entry>)
        requires
            old(self).wf(),
            sorted_run(run_view(entries@)),
        ensures
            final(self).wf(),
            final(self).l0_limit() == old(self).l0_limit(),
            final(self).l0_count() <= final(self).l0_limit(),
            final(self).level_count() == old(self).level_count(),
            forall|j: nat| #[trigger] final(self).capacity(j) == old(self).capacity(j),
            final(self).levels_in_shape(),
            old(self).l0_count() < old(self).l0_limit() ==> final(self).l0_count() == old(self).l0_count() + 1
                && final(self).l0_run(0) == run_view(entries@),
            forall|k: Seq<u8>| #[trigger] final(self).lookup(k) == if run_has(run_view(entries@), k) {
                visible(run_lookup(run_view(entries@), k))
            } else {
                old(self).lookup(k)
            },
    {
        let ghost old_runs = self.runs();
        let ghost new_run = run_view(entries@);
        let t = Table::from_sorted(entries);
        self.l0.insert(0, t);
        proof {
            assert(self.runs() =~= seq![new_run] + old_runs);
            assert forall|k: Seq<u8>| #[trigger] self.lookup(k) == if run_has(new_run, k) {
                visible(run_lookup(new_run, k))
            } else {
                visible(stack_lookup(old_runs, k))
            } by {
                assert((seq![new_run] + old_runs)[0] == new_run);
                assert((seq![new_run] + old_runs).drop_first() =~= old_runs);
            }
        }
        self.compact();
    }

    /// Hides `key` from readers by placing a tombstone for it on top of
    /// level 0; older copies are reclaimed by compaction.
    pub fn delete(&mut self, key: &[u8])
        requires
            old(self).wf(),
        ensures
            final(self).wf(),
            final(self).l0_limit() == old(self).l0_limit(),
            final(self).l0_count() <= final(self).l0_limit(),
            final(self).level_count() == old(self).level_count(),
            forall|j: nat| #[trigger] final(self).capacity(j) == old(self).capacity(j),
            final(self).levels_in_shape(),
            forall|k: Seq<u8>| #[trigger] final(self).lookup(k) == if k == key@ { None } else { old(self).lookup(k) },
    {
        let mut v: Vec<Entry> = Vec::new();
        v.push(Entry { key: crate::entry::copy_bytes(key), value: Value::Tombstone });
        let ghost s = run_view(v@);
        proof {
            assert(s[0] == (key@, None::<Seq<u8>>));
            assert forall|k: Seq<u8>| run_has(s, k) == (k == key@) by {
                if k == key@ {
                    assert(s[0].0 == k);
                }
            }
            crate::run::lemma_lookup_at(s, 0);
        }
        self.set(v);
    }

    /// Compacts every level that is over its capacity, cascading downwards.
    /// What readers see does not change.
    pub fn compact(&mut self)
        requires
            old(self).wf(),
        ensures
            final(self).wf(),
            final(self).l0_limit() == old(self).l0_limit(),
            final(self).l0_count() <= final(self).l0_limit(),
            final(self).level_count() == old(self).level_count(),
            forall|j: nat| #[trigger] final(self).capacity(j) == old(self).capacity(j),
            final(self).levels_in_shape(),
            old(self).l0_count() <= old(self).l0_limit() ==> final(self).l0_count() == old(self).l0_count()
                && forall|j: int| 0 <= j < old(self).l0_count() ==> #[trigger] final(self).l0_run(j) == old(self).l0_run(j),
            forall|k: Seq<u8>| #[trigger] final(self).lookup(k) == old(self).lookup(k),
    {
        if self.l0.len() > self.l0_tables {
            self.compact_l0();
        }
        let ghost start = *self;
        let mut cap: usize = self.base_entries;
        let mut i: usize = 0;
        while i < self.levels.len() - 1
            invariant
                self.wf(),
                self.levels@.len() == start.levels@.len(),
                self.l0_tables == start.l0_tables,
                self.l0@ == start.l0@,
                self.l0@.len() <= self.l0_tables,
                self.base_entries == start.base_entries,
                self.growth == start.growth,
                self.levels@.len() == old(self).levels@.len(),
                0 <= i < self.levels@.len(),
                cap == level_capacity(self.base_entries as nat, self.growth as nat, i as nat),
                forall|j: int| 0 <= j < i ==> (#[trigger] self.levels@[j])@.len() <= level_capacity(self.base_entries as nat, self.growth as nat, j as nat),
                forall|k: Seq<u8>| #[trigger] self.lookup(k) == start.lookup(k),
            decreases self.levels@.len() - i,
        {
            if self.levels[i].len() > cap {
                self.compact_level(i);
            }
            assert(self.levels@[i as int]@.len() <= cap);
            cap = match cap.checked_mul(self.growth) {
                Some(c) => c,
                None => usize::MAX,
            };
            i = i + 1;
        }
    }

    /// Merges all of level 0 into level 1.
    fn compact_l0(&mut self)
        requires
            old(self).wf(),
        ensures
            final(self).wf(),
            final(self).l0_tables == old(self).l0_tables,
            final(self).l0@.len() == 0,
            final(self).levels@.len() == old(self).levels@.len(),
            final(self).base_entries == old(self).base_entries,
            final(self).growth == old(self).growth,
            forall|k: Seq<u8>| #[trigger] final(self).lookup(k) == old(self).lookup(k),
    {
        let ghost old_runs = self.runs();
        let drop_tombstones = self.levels.len() == 1;
        let mut acc: Table = self.levels.remove(0);
        let ghost rest = tables_view(self.levels@);
        let mut idx: usize = self.l0.len();
        proof {
            assert(old_runs =~= tables_view(self.l0@.take(idx as int)) + (seq![acc@] + rest));
            if !drop_tombstones {
                assert(self.levels@[self.levels@.len() - 1] == old(self).levels@[old(self).levels@.len() - 1]);
            }
        }
        while idx > 0
            invariant
                old(self).wf(),
                forall|i: int| 0 <= i < self.l0@.len() ==> (#[trigger] self.l0@[i]).wf(),
                forall|i: int| 0 <= i < self.levels@.len() ==> (#[trigger] self.levels@[i]).wf(),
                self.l0@ == old(self).l0@,
                self.levels@.len() + 1 == old(self).levels@.len(),
                self.l0_tables == old(self).l0_tables,
                self.growth == old(self).growth,
                rest == tables_view(self.levels@),
                drop_tombstones == (rest.len() == 0),
                !drop_tombstones ==> self.levels@[self.levels@.len() - 1] == old(self).levels@[old(self).levels@.len() - 1],
                drop_tombstones ==> no_tombstones(acc@),
                acc.wf(),
                0 <= idx <= self.l0@.len(),
                forall|k: Seq<u8>| #[trigger] visible(stack_lookup(tables_view(self.l0@.take(idx as int)) + (seq![acc@] + rest), k))
                    == visible(stack_lookup(old_runs, k)),
            decreases idx,
        {
            assert(self.l0@[idx - 1].wf());
            let m = merge_runs(self.l0[idx - 1].entries(), acc.entries(), drop_tombstones);
            let ghost a = self.l0@[idx - 1]@;
            let ghost p = tables_view(self.l0@.take(idx - 1));
            proof {
                assert(tables_view(self.l0@.take(idx as int)) + (seq![acc@] + rest) =~= p + (seq![a, acc@] + rest));
                assert forall|k: Seq<u8>| #[trigger] visible(stack_lookup(p + (seq![run_view(m@)] + rest), k))
                    == visible(stack_lookup(old_runs, k)) by {
                    lemma_replace_pair(p, a, acc@, run_view(m@), rest, drop_tombstones, k);
                }
            }
            proof {
                if drop_tombstones {
                    assert forall|o: int| 0 <= o < run_view(m@).len() implies (#[trigger] run_view(m@)[o]).1 is Some by {
                        assert(m@[o].value@ is Some);
                    }
                }
            }
            acc = Table::from_sorted(m);
            idx = idx - 1;
        }
        self.l0 = Vec::new();
        self.levels.insert(0, acc);
        proof {
            assert(tables_view(old(self).l0@.take(0)) + (seq![acc@] + rest) =~= self.runs());
            assert(self.levels@[self.levels@.len() - 1] == if drop_tombstones { acc } else { old(self).levels@[old(self).levels@.len() - 1] });
        }
    }

    /// Merges level `i + 1` into level `i + 2` (`levels[i]` into `levels[i + 1]`).
    fn compact_level(&mut self, i: usize)
        requires
            old(self).wf(),
            i + 1 < old(self).levels@.len(),
        ensures
            final(self).wf(),
            final(self).l0_tables == old(self).l0_tables,
            final(self).l0@ == old(self).l0@,
            final(self).levels@.len() == old(self).levels@.len(),
            final(self).base_entries == old(self).base_entries,
            final(self).growth == old(self).growth,
            final(self).levels@[i as int]@.len() == 0,
            forall|j: int| 0 <= j < final(self).levels@.len() && j != i && j != i + 1
                ==> #[trigger] final(self).levels@[j] == old(self).levels@[j],
            forall|k: Seq<u8>| #[trigger] final(self).lookup(k) == old(self).lookup(k),
    {
        let ghost old_runs = self.runs();
        assert(self.levels@[i as int].wf() && self.levels@[i + 1].wf());
        let drop_tombstones = i == self.levels.len() - 2;
        let m = merge_runs(self.levels[i].entries(), self.levels[i + 1].entries(), drop_tombstones);
        let ghost a = self.levels@[i as int]@;
        let ghost b = self.levels@[i + 1]@;
        let ghost p = tables_view(self.l0@) + tables_view(self.levels@.take(i as int));
        let ghost q = tables_view(self.levels@.skip(i + 2));
        let ghost e = Seq::<EntryModel>::empty();
        self.levels.set(i, Table::empty());
        self.levels.set(i + 1, Table::from_sorted(m));
        proof {
            assert(old_runs =~= p + (seq![a, b] + q));
            assert(self.runs() =~= p + (seq![e, run_view(m@)] + q));
            assert forall|k: Seq<u8>| #[trigger] self.lookup(k) == old(self).lookup(k) by {
                lemma_replace_pair(p, a, b, run_view(m@), q, drop_tombstones, k);
                assert(!run_has(e, k));
                lemma_replace_pair(p, e, run_view(m@), run_view(m@), q, false, k);
            }
        }
    }
}

/// The first entry for `key` in a list of tables, searched in order.
fn find_in(tables: &Vec<Table>, key: &[u8]) -> (r: Option<Value>)
    requires
        forall|i: int| 0 <= i < tables@.len() ==> (#[trigger] tables@[i]).wf(),
    ensures
        match r {
            Some(v) => stack_lookup(tables_view(tables@), key@) == Some(v@),
            None => stack_lookup(tables_view(tables@), key@) is None,
        },
{
    let ghost runs = tables_view(tables@);
    let mut idx: usize = 0;
    assert(runs.skip(0) =~= runs);
    while idx < tables.len()
        invariant
            forall|i: int| 0 <= i < tables@.len() ==> (#[trigger] tables@[i]).wf(),
            runs == tables_view(tables@),
            0 <= idx <= tables@.len(),
            stack_lookup(runs, key@) == stack_lookup(runs.skip(idx as int), key@),
        decreases tables@.len() - idx,
    {
        let t = &tables[idx];
        assert(t@ == runs[idx as int]);
        assert(t.wf());
        let found = if t.covers(key) { t.get(key) } else { None };
        assert(runs.skip(idx as int)[0] == runs[idx as int]);
        assert(runs.skip(idx as int).drop_first() =~= runs.skip(idx + 1));
        if let Some(v) = found {
            return Some(v);
        }
        idx = idx + 1;
    }
    assert(runs.skip(idx as int).len() == 0);
    None
}

proof fn lemma_empty_stack(runs: Seq<Seq<EntryModel>>, k: Seq<u8>)
    requires
        forall|j: int| 0 <= j < runs.len() ==> (#[trigger] runs[j]).len() == 0,
    ensures
        stack_lookup(runs, k) is None,
    decreases runs.len(),
{
    if runs.len() > 0 {
        assert(!run_has(runs[0], k));
        assert forall|j: int| 0 <= j < runs.drop_first().len() implies (#[trigger] runs.drop_first()[j]).len() == 0 by {
            assert(runs.drop_first()[j] == runs[j + 1]);
        }
        lemma_empty_stack(runs.drop_first(), k);
    }
}

} // verus!
