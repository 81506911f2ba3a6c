//! The memtable: the most recent mutations, in key order, with their size.

use vstd::prelude::*;
use crate::entry::{Entry, EntryModel, Value, ValueModel, entry_cost};
use crate::run::{
    run_view, sorted_run, run_has, run_lookup, run_cost, search, lemma_search_result,
    lemma_sorted_insert, lemma_lookup_insert, lemma_lookup_update, lemma_cost_insert,
    lemma_cost_update,
};

verus! {

/// A sorted, bounded in-memory buffer of entries.
pub struct Memtable {
    entries: Vec<Entry>,
    size: u128,
}

impl View for Memtable {
    type V = Map<Seq<u8>, ValueModel>;

    /// Each key the memtable holds, with its value or tombstone.
    closed spec fn view(&self) -> Map<Seq<u8>, ValueModel> {
        Map::new(|k: Seq<u8>| run_has(self.entries_model(), k), |k: Seq<u8>| run_lookup(self.entries_model(), k)->0)
    }
}

impl Memtable {
    /// The entries in ascending key order.
    pub closed spec fn entries_model(&self) -> Seq<EntryModel> {
        run_view(self.entries@)
    }

    pub closed spec fn wf(&self) -> bool {
        &&& sorted_run(self.entries_model())
        &&& self.size as nat == run_cost(self.entries_model())
    }

    /// Sum over the live entries of key length plus value length (or the
    /// tombstone cost).
    pub open spec fn size_spec(&self) -> nat {
        run_cost(self.entries_model())
    }

    /// The memtable's map is the lookup of its sorted entries.
    pub proof fn lemma_view(&self)
        requires
            self.wf(),
        ensures
            sorted_run(self.entries_model()),
            forall|k: Seq<u8>| #[trigger] self@.contains_key(k) == run_has(self.entries_model(), k),
            forall|k: Seq<u8>| self@.contains_key(k) ==> Some(#[trigger] self@[k]) == run_lookup(self.entries_model(), k),
            forall|k: Seq<u8>| !self@.contains_key(k) ==> run_lookup(self.entries_model(), k) is None,
    {
    }

    pub fn new() -> (r: Memtable)
        ensures
            r.wf(),
            r@ == Map::<Seq<u8>, ValueModel>::empty(),
            r.size_spec() == 0,
    {
        let r = Memtable { entries: Vec::new(), size: 0 };
        assert(r@ =~= Map::<Seq<u8>, ValueModel>::empty());
        assert(r.entries_model() =~= Seq::<EntryModel>::empty());
        r
    }

    pub fn size(&self) -> (r: u128)
        requires
            self.wf(),
        ensures
            r == self.size_spec(),
    {
        self.size
    }

    /// Whether the memtable's size has reached `threshold`.
    pub fn over(&self, threshold: usize) -> (r: bool)
        requires
            self.wf(),
        ensures
            r == (self.size_spec() >= threshold),
    {
        self.size >= threshold as u128
    }

    /// Records `value` for `key`, replacing what the memtable held for it.
    pub fn set(&mut self, key: &[u8], value: Value)
        requires
            old(self).wf(),
            old(self).size_spec() + entry_cost((key@, value@)) <= u128::MAX,
        ensures
            final(self).wf(),
            final(self)@ == old(self)@.insert(key@, value@),
            old(self)@.contains_key(key@) ==> final(self).size_spec() + entry_cost((key@, old(self)@[key@]))
                == old(self).size_spec() + entry_cost((key@, value@)),
            !old(self)@.contains_key(key@) ==> final(self).size_spec() == old(self).size_spec() + entry_cost((key@, value@)),
    {
        let ghost s = self.entries_model();
        let (found, at) = search(&self.entries, key);
        let e = Entry { key: crate::entry::copy_bytes(key), value };
        let ghost em = e@;
        let c = e.cost();
        proof {
            lemma_search_result(s, key@, found, at as int);
        }
        if found {
            proof {
                // an entry costs no more than the whole run
                lemma_cost_update(s, at as int, (Seq::empty(), Some(Seq::empty())));
            }
            let old_cost = self.entries[at].cost();
            proof {
                lemma_cost_update(s, at as int, em);
                assert(s[at as int].0 == key@);
            }
            self.entries.set(at, e);
            assert(self.entries_model() =~= s.update(at as int, em));
            self.size = self.size + c - old_cost;
            proof {
                assert forall|k: Seq<u8>| #[trigger] run_lookup(self.entries_model(), k) == (if k == em.0 { Some(em.1) } else { run_lookup(s, k) }) by {
                    lemma_lookup_update(s, at as int, em, k);
                }
            }
        } else {
            proof {
                lemma_cost_insert(s, at as int, em);
                lemma_sorted_insert(s, at as int, em);
            }
            self.entries.insert(at, e);
            assert(self.entries_model() =~= s.insert(at as int, em));
            self.size = self.size + c;
            proof {
                assert forall|k: Seq<u8>| #[trigger] run_lookup(self.entries_model(), k) == (if k == em.0 { Some(em.1) } else { run_lookup(s, k) }) by {
                    lemma_lookup_insert(s, at as int, em, k);
                }
            }
        }
        proof {
            assert forall|k: Seq<u8>| #[trigger] run_has(self.entries_model(), k) == (k == em.0 || run_has(s, k)) by {
                assert(run_lookup(self.entries_model(), k) == (if k == em.0 { Some(em.1) } else { run_lookup(s, k) }));
            }
        }
        assert(self@ =~= old(self)@.insert(key@, em.1));
    }

    /// Records a tombstone for `key`.
    pub fn delete(&mut self, key: &[u8])
        requires
            old(self).wf(),
            old(self).size_spec() + entry_cost((key@, None)) <= u128::MAX,
        ensures
            final(self).wf(),
            final(self)@ == old(self)@.insert(key@, None),
            old(self)@.contains_key(key@) ==> final(self).size_spec() + entry_cost((key@, old(self)@[key@]))
                == old(self).size_spec() + entry_cost((key@, None)),
            !old(self)@.contains_key(key@) ==> final(self).size_spec() == old(self).size_spec() + entry_cost((key@, None)),
    {
        self.set(key, Value::Tombstone);
    }

    /// What the memtable records for `key`: a value, a tombstone, or nothing.
    pub fn get(&self, key: &[u8]) -> (r: Option<Value>)
        requires
            self.wf(),
        ensures
            r is Some == self@.contains_key(key@),
            r is Some ==> r->0@ == self@[key@],
    {
        let (found, at) = search(&self.entries, key);
        proof {
            lemma_search_result(self.entries_model(), key@, found, at as int);
        }
        if found {
            Some(self.entries[at].value.duplicate())
        } else {
            None
        }
    }

    /// Hands out the entries in ascending key order and leaves the memtable empty.
    pub fn drain_sorted(&mut self) -> (r: Vec<Entry>)
        requires
            old(self).wf(),
        ensures
            final(self).wf(),
            final(self)@ == Map::<Seq<u8>, ValueModel>::empty(),
            final(self).size_spec() == 0,
            run_view(r@) == old(self).entries_model(),
    {
        let mut r: Vec<Entry> = Vec::new();
        std::mem::swap(&mut r, &mut self.entries);
        self.size = 0;
        assert(self.entries_model() =~= Seq::<EntryModel>::empty());
        assert(self@ =~= Map::<Seq<u8>, ValueModel>::empty());
        r
    }

    /// Empties the memtable.
    pub fn clear(&mut self)
        requires
            old(self).wf(),
        ensures
            final(self).wf(),
            final(self)@ == Map::<Seq<u8>, ValueModel>::empty(),
            final(self).size_spec() == 0,
    {
        let _ = self.drain_sorted();
    }
}

} // verus!
