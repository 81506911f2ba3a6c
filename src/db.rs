//! The engine: writes go to the memtable, which is flushed into the levels
//! when it grows past its threshold; reads look in the memtable first.

use vstd::prelude::*;
use crate::entry::{Entry, EntryModel, Value, ValueModel, entry_cost, TOMBSTONE_COST};
use crate::memtable::Memtable;
use crate::levels::{SST, DEFAULT_L0_TABLES, DEFAULT_BASE_ENTRIES, DEFAULT_GROWTH, DEFAULT_LEVELS};
use crate::run::{run_view, run_lookup, run_has, sorted_run};
use crate::wal::{parse_log, read_entries};

verus! {

/// Default memtable size, in bytes, past which it is flushed.
pub const DEFAULT_THRESHOLD: usize = 4096;

/// Why an operation of the engine failed.
#[derive(Debug, PartialEq, Eq)]
pub enum DbError {
    /// Keys are non-empty byte strings.
    EmptyKey,
    /// A log record fails its structure check before the end of the log.
    Corruption,
}

/// The store a sequence of writes leaves: each key with its latest value;
/// a delete removes the key.
pub open spec fn apply_write(m: Map<Seq<u8>, Seq<u8>>, e: EntryModel) -> Map<Seq<u8>, Seq<u8>> {
    match e.1 {
        Some(v) => m.insert(e.0, v),
        None => m.remove(e.0),
    }
}

/// The store that the writes `es`, applied in order to `m`, leave.
pub open spec fn apply_writes(m: Map<Seq<u8>, Seq<u8>>, es: Seq<EntryModel>) -> Map<Seq<u8>, Seq<u8>>
    decreases es.len(),
{
    if es.len() == 0 {
        m
    } else {
        apply_writes(apply_write(m, es[0]), es.drop_first())
    }
}

pub proof fn lemma_apply_writes_push(m: Map<Seq<u8>, Seq<u8>>, es: Seq<EntryModel>, e: EntryModel)
    ensures
        apply_writes(m, es.push(e)) == apply_write(apply_writes(m, es), e),
    decreases es.len(),
{
    assert(es.push(e)[0] == if es.len() == 0 { e } else { es[0] });
    if es.len() == 0 {
        assert(es.push(e).drop_first() =~= Seq::<EntryModel>::empty());
        assert(apply_writes(apply_write(m, e), Seq::<EntryModel>::empty()) == apply_write(m, e));
    } else {
        assert(es.push(e).drop_first() =~= es.drop_first().push(e));
        lemma_apply_writes_push(apply_write(m, es[0]), es.drop_first(), e);
    }
}

/// A log that parses, and whose records all have non-empty keys.
pub open spec fn well_formed_log(log: Seq<u8>) -> bool {
    &&& parse_log(log) is Some
    &&& forall|i: int| 0 <= i < parse_log(log)->0.len() ==> (#[trigger] parse_log(log)->0[i]).0.len() > 0
}

/// The last of `ws` that names `k`, as its value or tombstone.
pub open spec fn last_write(ws: Seq<EntryModel>, k: Seq<u8>) -> Option<ValueModel>
    decreases ws.len(),
{
    if ws.len() == 0 {
        None
    } else if ws.last().0 == k {
        Some(ws.last().1)
    } else {
        last_write(ws.drop_last(), k)
    }
}

/// After any sequence of writes, a key holds what the last write naming it
/// set, is absent if that write was a delete, and is as before if no write
/// named it.
pub proof fn law_last_write_wins(m: Map<Seq<u8>, Seq<u8>>, ws: Seq<EntryModel>, k: Seq<u8>)
    ensures
        match last_write(ws, k) {
            Some(Some(v)) => apply_writes(m, ws).contains_key(k) && apply_writes(m, ws)[k] == v,
            Some(None) => !apply_writes(m, ws).contains_key(k),
            None => apply_writes(m, ws).contains_key(k) == m.contains_key(k)
                && (m.contains_key(k) ==> apply_writes(m, ws)[k] == m[k]),
        },
    decreases ws.len(),
{
    if ws.len() == 0 {
    } else {
        let init = ws.drop_last();
        assert(ws =~= init.push(ws.last()));
        lemma_apply_writes_push(m, init, ws.last());
        law_last_write_wins(m, init, k);
    }
}

/// Writes that leave a key alone do not change what the store holds for it.
pub proof fn lemma_other_writes(m: Map<Seq<u8>, Seq<u8>>, later: Seq<EntryModel>, k: Seq<u8>)
    requires
        forall|i: int| 0 <= i < later.len() ==> (#[trigger] later[i]).0 != k,
    ensures
        apply_writes(m, later).contains_key(k) == m.contains_key(k),
        m.contains_key(k) ==> apply_writes(m, later)[k] == m[k],
    decreases later.len(),
{
    if later.len() > 0 {
        let tail = later.drop_first();
        assert forall|i: int| 0 <= i < tail.len() implies (#[trigger] tail[i]).0 != k by {
            assert(tail[i] == later[i + 1]);
        }
        assert(later[0].0 != k);
        lemma_other_writes(apply_write(m, later[0]), tail, k);
    }
}

/// A value written under a key is read back, byte for byte, for as long as
/// no later write (set or delete) names that key.
pub proof fn law_read_back(m: Map<Seq<u8>, Seq<u8>>, k: Seq<u8>, v: Seq<u8>, later: Seq<EntryModel>)
    requires
        forall|i: int| 0 <= i < later.len() ==> (#[trigger] later[i]).0 != k,
    ensures
        apply_writes(m, seq![(k, Some(v))] + later).contains_key(k),
        apply_writes(m, seq![(k, Some(v))] + later)[k] == v,
{
    let ws = seq![(k, Some(v))] + later;
    assert(ws[0] == (k, Some(v)));
    assert(ws.drop_first() =~= later);
    lemma_other_writes(m.insert(k, v), later, k);
}

/// Of two values written under one key, the later is the one read.
pub proof fn law_later_write_wins(m: Map<Seq<u8>, Seq<u8>>, k: Seq<u8>, v1: Seq<u8>, v2: Seq<u8>)
    ensures
        apply_writes(m, seq![(k, Some(v1)), (k, Some(v2))]).contains_key(k),
        apply_writes(m, seq![(k, Some(v1)), (k, Some(v2))])[k] == v2,
{
    law_read_back(m.insert(k, v1), k, v2, Seq::empty());
    let ws = seq![(k, Some(v1)), (k, Some(v2))];
    assert(ws[0] == (k, Some(v1)));
    assert(ws.drop_first() =~= seq![(k, Some(v2))] + Seq::<EntryModel>::empty());
}

/// A key deleted after it was set reads as absent until it is set again.
pub proof fn law_delete_hides(m: Map<Seq<u8>, Seq<u8>>, k: Seq<u8>, v: Seq<u8>, later: Seq<EntryModel>)
    requires
        forall|i: int| 0 <= i < later.len() ==> (#[trigger] later[i]).0 != k,
    ensures
        !apply_writes(m, seq![(k, Some(v)), (k, None)] + later).contains_key(k),
{
    let ws = seq![(k, Some(v)), (k, None)] + later;
    assert(ws[0] == (k, Some(v)));
    assert(ws.drop_first()[0] == (k, None::<Seq<u8>>));
    assert(ws.drop_first().drop_first() =~= later);
    assert(apply_writes(m, ws) == apply_writes(m.insert(k, v), ws.drop_first()));
    assert(apply_writes(m.insert(k, v), ws.drop_first()) == apply_writes(m.insert(k, v).remove(k), later));
    lemma_other_writes(m.insert(k, v).remove(k), later, k);
}

/// An embeddable key-value store.
pub struct ShorterDB {
    memtable: Memtable,
    sst: SST,
    threshold: usize,
}

impl View for ShorterDB {
    type V = Map<Seq<u8>, Seq<u8>>;

    /// Each key with the value a reader sees for it.
    closed spec fn view(&self) -> Map<Seq<u8>, Seq<u8>> {
        Map::new(|k: Seq<u8>| self.lookup(k) is Some, |k: Seq<u8>| self.lookup(k)->0)
    }
}

/// `s` is a sorted run holding exactly the entries of `m`.
pub open spec fn holds_exactly(s: Seq<EntryModel>, m: Map<Seq<u8>, ValueModel>) -> bool {
    &&& sorted_run(s)
    &&& forall|k: Seq<u8>| #[trigger] run_has(s, k) == m.contains_key(k)
    &&& forall|k: Seq<u8>| m.contains_key(k) ==> run_lookup(s, k) == Some(#[trigger] m[k])
}

/// How a write of `value` under `key` leaves the memtable and the tables:
/// when the memtable's size goes past the threshold, its entries, the new
/// one included, are flushed into the tables and it is left empty; else the
/// write stays in the memtable and the tables are unchanged.
pub open spec fn write_outcome(before: ShorterDB, after: ShorterDB, key: Seq<u8>, value: ValueModel) -> bool {
    let grown = before.mem().insert(key, value);
    let flushed = !before.mem().contains_key(key)
        && before.mem_size() + entry_cost((key, value)) > before.threshold_spec()
        || before.mem().contains_key(key)
        && before.mem_size() + entry_cost((key, value)) > before.threshold_spec() + entry_cost((key, before.mem()[key]));
    &&& flushed ==> after.mem() == Map::<Seq<u8>, ValueModel>::empty() && after.mem_size() == 0
    &&& flushed ==> forall|k: Seq<u8>| #[trigger] after.tables_lookup(k) == if grown.contains_key(k) {
            grown[k]
        } else {
            before.tables_lookup(k)
        }
    &&& flushed && before.l0_tables_spec() < before.l0_limit_spec() ==> {
            &&& after.l0_tables_spec() == before.l0_tables_spec() + 1
            &&& holds_exactly(after.newest_table(), grown)
        }
    &&& !flushed ==> after.l0_tables_spec() == before.l0_tables_spec()
    &&& !flushed ==> after.mem() == grown
    &&& !flushed ==> forall|k: Seq<u8>| #[trigger] after.tables_lookup(k) == before.tables_lookup(k)
}

impl ShorterDB {
    pub closed spec fn wf(&self) -> bool {
        &&& self.memtable.wf()
        &&& self.sst.wf()
        &&& self.memtable.size_spec() <= self.threshold
        &&& self.sst.l0_count() <= self.sst.l0_limit()
    }

    /// The memtable's contents.
    pub closed spec fn mem(&self) -> Map<Seq<u8>, ValueModel> {
        self.memtable@
    }

    /// The memtable's size in bytes.
    pub closed spec fn mem_size(&self) -> nat {
        self.memtable.size_spec()
    }

    /// What the flushed tables show for `k`.
    pub closed spec fn tables_lookup(&self, k: Seq<u8>) -> Option<Seq<u8>> {
        self.sst.lookup(k)
    }

    pub closed spec fn threshold_spec(&self) -> usize {
        self.threshold
    }

    /// What a reader sees for `k`: the memtable's entry when it has one,
    /// else what the tables show.
    pub open spec fn lookup(&self, k: Seq<u8>) -> Option<Seq<u8>> {
        if self.mem().contains_key(k) {
            self.mem()[k]
        } else {
            self.tables_lookup(k)
        }
    }

    proof fn lemma_view(&self, k: Seq<u8>)
        ensures
            self@.contains_key(k) == self.lookup(k) is Some,
            self.lookup(k) is Some ==> self@[k] == self.lookup(k)->0,
    {
    }

    /// An empty store whose memtable is flushed past `threshold` bytes.
    pub fn with_threshold(threshold: usize) -> (r: ShorterDB)
        ensures
            r.wf(),
            r@ == Map::<Seq<u8>, Seq<u8>>::empty(),
            r.threshold_spec() == threshold,
            r.mem_size() == 0,
    {
        let r = ShorterDB {
            memtable: Memtable::new(),
            sst: SST::open(DEFAULT_L0_TABLES, DEFAULT_BASE_ENTRIES, DEFAULT_GROWTH, DEFAULT_LEVELS),
            threshold,
        };
        assert(r@ =~= Map::<Seq<u8>, Seq<u8>>::empty());
        r
    }

    /// The memtable's size in bytes.
    pub fn memtable_size(&self) -> (r: u128)
        requires
            self.wf(),
        ensures
            r == self.mem_size(),
    {
        self.memtable.size()
    }

    /// Number of tables in level 0.
    pub fn level0_tables(&self) -> (r: usize)
        requires
            self.wf(),
        ensures
            r == self.l0_tables_spec(),
            r <= self.l0_limit_spec(),
    {
        self.sst.l0_len()
    }

    /// The newest table of level 0.
    pub closed spec fn newest_table(&self) -> Seq<EntryModel> {
        self.sst.l0_run(0)
    }

    pub closed spec fn l0_tables_spec(&self) -> nat {
        self.sst.l0_count()
    }

    pub closed spec fn l0_limit_spec(&self) -> nat {
        self.sst.l0_limit()
    }

    /// The value stored under `key`; absence, and deletion, are `Ok(None)`.
    pub fn get(&self, key: &[u8]) -> (r: Result<Option<Vec<u8>>, DbError>)
        requires
            self.wf(),
        ensures
            r is Ok,
            r->Ok_0 is Some == self@.contains_key(key@),
            r->Ok_0 is Some ==> r->Ok_0->0@ == self@[key@],
    {
        proof {
            self.lemma_view(key@);
        }
        match self.memtable.get(key) {
            Some(Value::Present(v)) => return Ok(Some(v)),
            Some(Value::Tombstone) => return Ok(None),
            None => {},
        }
        match self.sst.get(key) {
            Some(Value::Present(v)) => Ok(Some(v)),
            _ => Ok(None),
        }
    }

    /// Records `value` for `key` in the memtable, and flushes the memtable
    /// when this takes its size past the threshold.
    fn apply(&mut self, key: &[u8], value: Value)
        requires
            old(self).wf(),
        ensures
            final(self).wf(),
            final(self).threshold_spec() == old(self).threshold_spec(),
            forall|k: Seq<u8>| #[trigger] final(self).lookup(k) == if k == key@ { value@ } else { old(self).lookup(k) },
            final(self)@ == apply_write(old(self)@, (key@, value@)),
            write_outcome(*old(self), *final(self), key@, value@),
    {
        let ghost before = *self;
        let ghost vm = value@;
        // a size within the threshold and one entry's cost always fit a u128
        let _key_len = key.len();
        let _value_len: usize = match &value {
            Value::Present(v) => v.len(),
            Value::Tombstone => TOMBSTONE_COST,
        };
        self.memtable.set(key, value);
        if self.memtable.size() > self.threshold as u128 {
            self.flush_memtable();
        }
        proof {
            assert forall|k: Seq<u8>| #[trigger] self.lookup(k) == if k == key@ { vm } else { before.lookup(k) } by {
            }
            let want = apply_write(before@, (key@, vm));
            assert forall|k: Seq<u8>| #[trigger] self@.contains_key(k) == want.contains_key(k) by {
                self.lemma_view(k);
                before.lemma_view(k);
            }
            assert forall|k: Seq<u8>| self@.contains_key(k) implies #[trigger] self@[k] == want[k] by {
                self.lemma_view(k);
                before.lemma_view(k);
            }
            assert(self@ =~= want);
        }
    }

    /// Moves the memtable's entries into a new level-0 table.
    fn flush_memtable(&mut self)
        requires
            old(self).memtable.wf(),
            old(self).sst.wf(),
            old(self).sst.l0_count() <= old(self).sst.l0_limit(),
        ensures
            final(self).wf(),
            final(self).threshold == old(self).threshold,
            final(self).mem() == Map::<Seq<u8>, ValueModel>::empty(),
            final(self).mem_size() == 0,
            old(self).sst.l0_count() < old(self).sst.l0_limit() ==> final(self).l0_tables_spec() == old(self).l0_tables_spec() + 1
                && holds_exactly(final(self).newest_table(), old(self).mem()),
            forall|k: Seq<u8>| #[trigger] final(self).tables_lookup(k) == if old(self).mem().contains_key(k) {
                old(self).mem()[k]
            } else {
                old(self).tables_lookup(k)
            },
    {
        proof {
            self.memtable.lemma_view();
        }
        let ghost m = self.memtable@;
        let entries = self.memtable.drain_sorted();
        let ghost ev = run_view(entries@);
        proof {
            assert forall|k: Seq<u8>| m.contains_key(k) implies run_lookup(ev, k) == Some(#[trigger] m[k]) by {}
            assert(holds_exactly(ev, m));
        }
        self.sst.set(entries);
        proof {
            assert forall|k: Seq<u8>| #[trigger] self.tables_lookup(k) == if m.contains_key(k) { m[k] } else { old(self).tables_lookup(k) } by {
                if m.contains_key(k) {
                    assert(run_lookup(run_view(entries@), k) == Some(m[k]));
                }
            }
        }
    }

    /// Whether a write under `key` would be accepted: the error `set` or
    /// `delete` would return, else `Ok`.
    pub fn check_write(&self, key: &[u8]) -> (r: Result<(), DbError>)
        requires
            self.wf(),
        ensures
            key@.len() == 0 ==> r == Err::<(), DbError>(DbError::EmptyKey),
            key@.len() > 0 ==> r is Ok,
    {
        if key.len() == 0 {
            return Err(DbError::EmptyKey);
        }
        Ok(())
    }

    /// Stores `value` under `key`.
    pub fn set(&mut self, key: &[u8], value: &[u8]) -> (r: Result<(), DbError>)
        requires
            old(self).wf(),
        ensures
            final(self).wf(),
            final(self).threshold_spec() == old(self).threshold_spec(),
            key@.len() == 0 ==> r == Err::<(), DbError>(DbError::EmptyKey) && final(self)@ == old(self)@,
            key@.len() > 0 ==> r is Ok && final(self)@ == old(self)@.insert(key@, value@)
                && write_outcome(*old(self), *final(self), key@, Some(value@)),
    {
        let v = Value::Present(crate::entry::copy_bytes(value));
        if let Err(e) = self.check_write(key) {
            return Err(e);
        }
        self.apply(key, v);
        Ok(())
    }

    /// Deletes `key`: it reads as absent until it is set again.
    pub fn delete(&mut self, key: &[u8]) -> (r: Result<(), DbError>)
        requires
            old(self).wf(),
        ensures
            final(self).wf(),
            final(self).threshold_spec() == old(self).threshold_spec(),
            key@.len() == 0 ==> r == Err::<(), DbError>(DbError::EmptyKey) && final(self)@ == old(self)@,
            key@.len() > 0 ==> r is Ok && final(self)@ == old(self)@.remove(key@)
                && write_outcome(*old(self), *final(self), key@, None),
    {
        if let Err(e) = self.check_write(key) {
            return Err(e);
        }
        self.apply(key, Value::Tombstone);
        Ok(())
    }

    /// Applies `writes` in order, as `set` and `delete` would. Refuses the
    /// whole batch, writing nothing, if any key is empty.
    pub fn write_batch(&mut self, writes: &Vec<Entry>) -> (r: Result<(), DbError>)
        requires
            old(self).wf(),
        ensures
            final(self).wf(),
            final(self).threshold_spec() == old(self).threshold_spec(),
            (exists|i: int| 0 <= i < writes@.len() && (#[trigger] writes@[i]).key@.len() == 0) ==> r == Err::<(), DbError>(DbError::EmptyKey)
                && final(self)@ == old(self)@,
            (forall|i: int| 0 <= i < writes@.len() ==> (#[trigger] writes@[i]).key@.len() > 0) ==> r is Ok
                && final(self)@ == apply_writes(old(self)@, run_view(writes@)),
    {
        let mut i: usize = 0;
        while i < writes.len()
            invariant
                *self == *old(self),
                old(self).wf(),
                0 <= i <= writes@.len(),
                forall|j: int| 0 <= j < i ==> (#[trigger] writes@[j]).key@.len() > 0,
            decreases writes@.len() - i,
        {
            if writes[i].key.len() == 0 {
                return Err(DbError::EmptyKey);
            }
            i = i + 1;
        }
        let ghost es = run_view(writes@);
        let ghost start = self@;
        let mut i: usize = 0;
        assert(es.take(0) =~= Seq::<EntryModel>::empty());
        while i < writes.len()
            invariant
                es == run_view(writes@),
                0 <= i <= writes@.len(),
                self.wf(),
                self.threshold_spec() == old(self).threshold_spec(),
                start == old(self)@,
                self@ == apply_writes(start, es.take(i as int)),
            decreases writes@.len() - i,
        {
            let e = &writes[i];
            let ghost em = es[i as int];
            assert(e@ == em);
            self.apply(e.key.as_slice(), e.value.duplicate());
            proof {
                assert(es.take(i + 1) =~= es.take(i as int).push(em));
                lemma_apply_writes_push(start, es.take(i as int), em);
            }
            i = i + 1;
        }
        assert(es.take(i as int) =~= es);
        Ok(())
    }

    /// Rebuilds a store from the contents of its write-ahead log: the log's
    /// records are applied in order, a last record cut short is discarded.
    /// A malformed record, or one with an empty key, is `Corruption`.
    pub fn recover(log: &[u8], threshold: usize) -> (r: Result<ShorterDB, DbError>)
        ensures
            !well_formed_log(log@) ==> r is Err && r->Err_0 == DbError::Corruption,
            well_formed_log(log@) ==> r is Ok && r->Ok_0.wf()
                && r->Ok_0.threshold_spec() == threshold
                && r->Ok_0@ == apply_writes(Map::empty(), parse_log(log@)->0),
    {
        let entries = match read_entries(log) {
            Some((es, _)) => es,
            None => return Err(DbError::Corruption),
        };
        let mut db = ShorterDB::with_threshold(threshold);
        proof {
            let es = run_view(entries@);
            assert forall|i: int| 0 <= i < entries@.len() implies #[trigger] es[i].0 == entries@[i].key@ by {}
            if well_formed_log(log@) {
                assert forall|i: int| 0 <= i < entries@.len() implies (#[trigger] entries@[i]).key@.len() > 0 by {
                    assert(parse_log(log@)->0 == es);
                    assert(parse_log(log@)->0[i].0.len() > 0);
                    assert(es[i].0 == entries@[i].key@);
                }
            }
        }
        if db.write_batch(&entries).is_err() {
            return Err(DbError::Corruption);
        }
        Ok(db)
    }

    /// Rebuilds a store from its write-ahead log, with the default threshold.
    pub fn new(log: &[u8]) -> (r: Result<ShorterDB, DbError>)
        ensures
            !well_formed_log(log@) ==> r is Err && r->Err_0 == DbError::Corruption,
            well_formed_log(log@) ==> r is Ok && r->Ok_0.wf()
                && r->Ok_0.threshold_spec() == DEFAULT_THRESHOLD
                && r->Ok_0@ == apply_writes(Map::empty(), parse_log(log@)->0),
    {
        ShorterDB::recover(log, DEFAULT_THRESHOLD)
    }
}

} // verus!
