//! Values and entries: what the memtable, the log and the tables hold.

use vstd::prelude::*;

verus! {

/// Byte cost charged for a tombstone in place of a value.
pub const TOMBSTONE_COST: usize = 1;

/// The value recorded for a key: bytes, or a deletion marker.
#[derive(Debug, PartialEq, Eq)]
pub enum Value {
    Present(Vec<u8>),
    Tombstone,
}

/// A key together with its recorded value.
#[derive(Debug, PartialEq, Eq)]
pub struct Entry {
    pub key: Vec<u8>,
    pub value: Value,
}

/// A recorded value in the model: `Some(bytes)`, or `None` for a tombstone.
pub type ValueModel = Option<Seq<u8>>;

/// An entry in the model.
pub type EntryModel = (Seq<u8>, ValueModel);

impl View for Value {
    type V = ValueModel;

    open spec fn view(&self) -> ValueModel {
        match self {
            Value::Present(v) => Some(v@),
            Value::Tombstone => None,
        }
    }
}

impl View for Entry {
    type V = EntryModel;

    open spec fn view(&self) -> EntryModel {
        (self.key@, self.value@)
    }
}

/// Bytes that an entry is charged in the memtable's size.
pub open spec fn entry_cost(e: EntryModel) -> nat {
    e.0.len() + match e.1 {
        Some(v) => v.len(),
        None => TOMBSTONE_COST as nat,
    }
}

pub fn copy_bytes(b: &[u8]) -> (r: Vec<u8>)
    ensures
        r@ == b@,
{
    vstd::slice::slice_to_vec(b)
}

impl Value {
    /// A copy of this value.
    pub fn duplicate(&self) -> (r: Value)
        ensures
            r@ == self@,
    {
        match self {
            Value::Present(v) => Value::Present(copy_bytes(v.as_slice())),
            Value::Tombstone => Value::Tombstone,
        }
    }

    pub fn is_tombstone(&self) -> (r: bool)
        ensures
            r == (self@ is None),
    {
        match self {
            Value::Present(_) => false,
            Value::Tombstone => true,
        }
    }
}

impl Entry {
    /// A copy of this entry.
    pub fn duplicate(&self) -> (r: Entry)
        ensures
            r@ == self@,
    {
        Entry { key: copy_bytes(self.key.as_slice()), value: self.value.duplicate() }
    }

    /// The bytes charged for this entry.
    pub fn cost(&self) -> (r: u128)
        ensures
            r == entry_cost(self@),
    {
        let extra: usize = match &self.value {
            Value::Present(v) => v.len(),
            Value::Tombstone => TOMBSTONE_COST,
        };
        self.key.len() as u128 + extra as u128
    }
}

} // verus!
