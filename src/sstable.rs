//! The on-disk layout of a table: a data section of records in key order
//! (framed as in the log), a sparse index of every `INDEX_STRIDE`-th key with
//! the record's offset, and a fixed-size footer giving the index's offset,
//! the entry count and the format tag.

use vstd::prelude::*;
use crate::entry::{Entry, EntryModel};
use crate::keys::{lex_lt, compare_keys, lemma_lex_transitive};
use crate::run::{run_view, sorted_run};
use crate::table::Table;
use crate::wal::{
    encode_entry, encode_log, encode_record, framable, le_bytes, le_value, parse_log, push_bytes, push_le,
    read_entries, read_le, slice_bytes, lemma_le_at, law_log_round_trip,
};

verus! {

/// Every this many entries, the index records a key and its offset.
pub const INDEX_STRIDE: usize = 16;

/// The table format's tag, the file's last byte.
pub const TABLE_TAG: u8 = 0xB1;

/// Bytes of the footer.
pub const FOOTER_LEN: usize = 17;

/// Offset of entry `i`'s record in the data section.
pub open spec fn data_offset(es: Seq<EntryModel>, i: int) -> nat {
    encode_log(es.take(i)).len()
}

/// The index entries of the first `n` entries of `es`.
pub open spec fn index_bytes(es: Seq<EntryModel>, n: nat) -> Seq<u8>
    decreases n,
{
    if n == 0 {
        Seq::empty()
    } else {
        let i = n - 1;
        index_bytes(es, i as nat) + if i % (INDEX_STRIDE as int) == 0 {
            le_bytes(es[i].0.len() as u64) + es[i].0 + le_bytes(data_offset(es, i) as u64)
        } else {
            Seq::empty()
        }
    }
}

/// The bytes of a table file holding `es`.
pub open spec fn table_bytes(es: Seq<EntryModel>) -> Seq<u8> {
    encode_log(es) + index_bytes(es, es.len()) + le_bytes(encode_log(es).len() as u64)
        + le_bytes(es.len() as u64) + seq![TABLE_TAG]
}

pub proof fn lemma_encode_log_push(es: Seq<EntryModel>, e: EntryModel)
    ensures
        encode_log(es.push(e)) == encode_log(es) + encode_entry(e),
    decreases es.len(),
{
    assert(es.push(e)[0] == if es.len() == 0 { e } else { es[0] });
    if es.len() == 0 {
        assert(es.push(e).drop_first() =~= Seq::<EntryModel>::empty());
        assert(encode_log(Seq::<EntryModel>::empty()) =~= Seq::<u8>::empty());
        assert(encode_log(es.push(e)) =~= encode_entry(e) + Seq::<u8>::empty());
        assert(encode_log(es) + encode_entry(e) =~= encode_entry(e));
    } else {
        assert(es.push(e).drop_first() =~= es.drop_first().push(e));
        lemma_encode_log_push(es.drop_first(), e);
        assert(encode_log(es.push(e)) =~= encode_log(es) + encode_entry(e));
    }
}

/// The bytes of `t` as a table file.
pub fn encode_table(t: &Table) -> (r: Vec<u8>)
    ensures
        r@ == table_bytes(t@),
{
    let entries = t.entries();
    let ghost es = t@;
    let mut data: Vec<u8> = Vec::new();
    let mut index: Vec<u8> = Vec::new();
    let mut i: usize = 0;
    assert(es.take(0) =~= Seq::<EntryModel>::empty());
    assert(encode_log(Seq::<EntryModel>::empty()) =~= Seq::<u8>::empty());
    while i < entries.len()
        invariant
            run_view(entries@) == es,
            0 <= i <= entries@.len(),
            data@ == encode_log(es.take(i as int)),
            index@ == index_bytes(es, i as nat),
        decreases entries@.len() - i,
    {
        let e = &entries[i];
        assert(e@ == es[i as int]);
        if i % INDEX_STRIDE == 0 {
            push_le(&mut index, e.key.len() as u64);
            push_bytes(&mut index, e.key.as_slice());
            push_le(&mut index, data.len() as u64);
        }
        let rec = encode_record(e.key.as_slice(), &e.value);
        push_bytes(&mut data, rec.as_slice());
        proof {
            assert(es.take(i + 1) =~= es.take(i as int).push(es[i as int]));
            lemma_encode_log_push(es.take(i as int), es[i as int]);
            let ib = index_bytes(es, (i + 1) as nat);
            assert(ib == index_bytes(es, i as nat) + if i % INDEX_STRIDE == 0 {
                le_bytes(es[i as int].0.len() as u64) + es[i as int].0 + le_bytes(data_offset(es, i as int) as u64)
            } else {
                Seq::<u8>::empty()
            });
            if i % INDEX_STRIDE == 0 {
                assert(index@ =~= ib);
            } else {
                assert(index@ =~= ib);
            }
        }
        i = i + 1;
    }
    assert(es.take(i as int) =~= es);
    let mut out: Vec<u8> = Vec::new();
    push_bytes(&mut out, data.as_slice());
    push_bytes(&mut out, index.as_slice());
    push_le(&mut out, data.len() as u64);
    push_le(&mut out, entries.len() as u64);
    out.push(TABLE_TAG);
    assert(out@ =~= table_bytes(es));
    out
}

/// Whether the keys of `v` ascend strictly.
fn check_sorted(v: &Vec<Entry>) -> (r: bool)
    ensures
        r == sorted_run(run_view(v@)),
{
    let ghost s = run_view(v@);
    if v.len() == 0 {
        return true;
    }
    let mut i: usize = 1;
    while i < v.len()
        invariant
            s == run_view(v@),
            1 <= i <= v@.len(),
            sorted_run(s.take(i as int)),
        decreases v@.len() - i,
    {
        let c = compare_keys(v[i - 1].key.as_slice(), v[i].key.as_slice());
        assert(s[i - 1].0 == v@[i - 1].key@ && s[i as int].0 == v@[i as int].key@);
        if c >= 0 {
            assert(s.take(i + 1)[i - 1] == s[i - 1] && s.take(i + 1)[i as int] == s[i as int]);
            return false;
        }
        assert forall|a: int, b: int| 0 <= a < b < s.take(i + 1).len() implies lex_lt(#[trigger] s.take(i + 1)[a].0, #[trigger] s.take(i + 1)[b].0) by {
            assert(s.take(i + 1)[a] == s[a] && s.take(i + 1)[b] == s[b]);
            if b == i {
                if a < i - 1 {
                    assert(s.take(i as int)[a] == s[a] && s.take(i as int)[i - 1] == s[i - 1]);
                    lemma_lex_transitive(s[a].0, s[i - 1].0, s[i as int].0);
                }
            } else {
                assert(s.take(i as int)[a] == s[a] && s.take(i as int)[b] == s[b]);
            }
        }
        i = i + 1;
    }
    assert(s.take(i as int) =~= s);
    true
}

/// Reads a table file: `None` unless its footer, data section and entry count
/// agree and its keys ascend. A file written by `encode_table` reads back as
/// the table it was written from.
pub fn decode_table(bytes: &[u8]) -> (r: Option<Table>)
    ensures
        r is Some ==> r->0.wf() && bytes@.len() >= FOOTER_LEN && bytes@[bytes@.len() - 1] == TABLE_TAG
            && le_value(bytes@, bytes@.len() - FOOTER_LEN) <= bytes@.len() - FOOTER_LEN
            && parse_log(bytes@.take(le_value(bytes@, bytes@.len() - FOOTER_LEN) as int)) == Some(r->0@)
            && r->0@.len() == le_value(bytes@, bytes@.len() - 9),
        forall|es: Seq<EntryModel>| #![trigger table_bytes(es)]
            bytes@ == table_bytes(es) && sorted_run(es) && (forall|i: int| 0 <= i < es.len() ==> framable(#[trigger] es[i]))
                ==> r is Some && r->0@ == es,
{
    let n = bytes.len();
    if n < FOOTER_LEN || bytes[n - 1] != TABLE_TAG {
        proof { lemma_footer_of(bytes@); }
        return None;
    }
    let index_at = read_le(bytes, n - FOOTER_LEN);
    let count = read_le(bytes, n - FOOTER_LEN + 8);
    proof { lemma_footer_of(bytes@); }
    if index_at > (n - FOOTER_LEN) as u64 {
        return None;
    }
    let data = slice_bytes(bytes, 0, index_at as usize);
    assert(data@ =~= bytes@.take(index_at as int));
    let entries = match read_entries(data.as_slice()) {
        Some((es, _)) => es,
        None => return None,
    };
    if entries.len() as u64 != count {
        return None;
    }
    if !check_sorted(&entries) {
        return None;
    }
    Some(Table::from_sorted(entries))
}

/// What a table file's footer reads as.
proof fn lemma_footer_of(b: Seq<u8>)
    ensures
        forall|es: Seq<EntryModel>| #![trigger table_bytes(es)]
            b == table_bytes(es) && (forall|i: int| 0 <= i < es.len() ==> framable(#[trigger] es[i])) ==> {
                &&& b.len() >= FOOTER_LEN
                &&& b[b.len() - 1] == TABLE_TAG
                &&& le_value(b, b.len() - 17) == encode_log(es).len() as u64
                &&& le_value(b, b.len() - 9) == es.len() as u64
                &&& b.take(encode_log(es).len() as int) == encode_log(es)
                &&& parse_log(encode_log(es)) == Some(es)
            },
{
    assert forall|es: Seq<EntryModel>| #![trigger table_bytes(es)]
        b == table_bytes(es) && (forall|i: int| 0 <= i < es.len() ==> framable(#[trigger] es[i])) implies {
            &&& b.len() >= FOOTER_LEN
            &&& b[b.len() - 1] == TABLE_TAG
            &&& le_value(b, b.len() - 17) == encode_log(es).len() as u64
            &&& le_value(b, b.len() - 9) == es.len() as u64
            &&& b.take(encode_log(es).len() as int) == encode_log(es)
            &&& parse_log(encode_log(es)) == Some(es)
        } by {
        let d = encode_log(es);
        let front = d + index_bytes(es, es.len());
        let n = b.len() as int;
        assert(n == front.len() + 17);
        assert(b.subrange(n - 17, n - 9) =~= le_bytes(d.len() as u64));
        assert(b.subrange(n - 9, n - 1) =~= le_bytes(es.len() as u64));
        lemma_le_at(b, n - 17, d.len() as u64);
        lemma_le_at(b, n - 9, es.len() as u64);
        assert(b.take(d.len() as int) =~= d);
        law_log_round_trip(es);
    }
}


pub proof fn lemma_encode_log_append(s1: Seq<EntryModel>, s2: Seq<EntryModel>)
    ensures
        encode_log(s1 + s2) == encode_log(s1) + encode_log(s2),
    decreases s1.len(),
{
    if s1.len() == 0 {
        assert(s1 + s2 =~= s2);
        assert(encode_log(s1) + encode_log(s2) =~= encode_log(s2));
    } else {
        assert((s1 + s2)[0] == s1[0]);
        assert((s1 + s2).drop_first() =~= s1.drop_first() + s2);
        lemma_encode_log_append(s1.drop_first(), s2);
        assert(encode_log(s1 + s2) =~= encode_log(s1) + encode_log(s2));
    }
}

/// The data section holds entry `i`'s record at `data_offset(es, i)`.
proof fn lemma_record_at(es: Seq<EntryModel>, i: int)
    requires
        0 <= i < es.len(),
    ensures
        encode_log(es) == encode_log(es.take(i)) + (encode_entry(es[i]) + encode_log(es.skip(i + 1))),
{
    let rest = seq![es[i]] + es.skip(i + 1);
    assert(es =~= es.take(i) + rest);
    lemma_encode_log_append(es.take(i), rest);
    assert(rest[0] == es[i]);
    assert(rest.drop_first() =~= es.skip(i + 1));
}

proof fn lemma_index_prefix(es: Seq<EntryModel>, n1: nat, n2: nat)
    requires
        n1 <= n2,
    ensures
        index_bytes(es, n1).len() <= index_bytes(es, n2).len(),
        index_bytes(es, n2).take(index_bytes(es, n1).len() as int) == index_bytes(es, n1),
    decreases n2,
{
    if n1 < n2 {
        lemma_index_prefix(es, n1, (n2 - 1) as nat);
        let a = index_bytes(es, (n2 - 1) as nat);
        assert(index_bytes(es, n2).take(a.len() as int) =~= a);
        assert(index_bytes(es, n2).take(index_bytes(es, n1).len() as int) =~= a.take(index_bytes(es, n1).len() as int));
    } else {
        assert(index_bytes(es, n2).take(index_bytes(es, n1).len() as int) =~= index_bytes(es, n1));
    }
}

proof fn lemma_index_gap(es: Seq<EntryModel>, m: nat, n: nat)
    requires
        m % (INDEX_STRIDE as nat) == 0,
        m < n <= m + INDEX_STRIDE,
    ensures
        index_bytes(es, n) == index_bytes(es, m + 1),
    decreases n,
{
    if m + 1 < n {
        lemma_index_gap(es, m, (n - 1) as nat);
        assert((n - 1) % (INDEX_STRIDE as int) != 0);
        assert(index_bytes(es, n) =~= index_bytes(es, (n - 1) as nat));
    }
}

/// The entries a table file holds, where it is well formed.
pub open spec fn well_formed_table(b: Seq<u8>, es: Seq<EntryModel>) -> bool {
    &&& b == table_bytes(es)
    &&& sorted_run(es)
    &&& forall|i: int| 0 <= i < es.len() ==> framable(#[trigger] es[i])
}

pub open spec fn has_table_model(b: Seq<u8>) -> bool {
    exists|es: Seq<EntryModel>| well_formed_table(b, es)
}

pub open spec fn table_model(b: Seq<u8>) -> Seq<EntryModel> {
    choose|es: Seq<EntryModel>| well_formed_table(b, es)
}

/// The offset of a record is where the records before it end.
proof fn lemma_offset_next(es: Seq<EntryModel>, i: int)
    requires
        0 <= i < es.len(),
    ensures
        data_offset(es, i + 1) == data_offset(es, i) + encode_entry(es[i]).len(),
        encode_entry(es[i]).len() > 0,
        data_offset(es, i + 1) <= encode_log(es).len(),
{
    assert(es.take(i + 1) =~= es.take(i).push(es[i]));
    lemma_encode_log_push(es.take(i), es[i]);
    lemma_record_at(es, i);
    lemma_encode_log_push(es.take(i), es[i]);
    if i + 1 < es.len() {
        lemma_record_at(es, i + 1);
    } else {
        assert(es.take(i + 1) =~= es);
    }
}

/// The index entry for entry `m` stands at the index's offset plus the
/// length of the index entries before it.
proof fn lemma_index_entry(es: Seq<EntryModel>, m: nat)
    requires
        m < es.len(),
        m % (INDEX_STRIDE as nat) == 0,
    ensures
        index_bytes(es, m + 1) == index_bytes(es, m) + (le_bytes(es[m as int].0.len() as u64) + es[m as int].0
            + le_bytes(data_offset(es, m as int) as u64)),
        index_bytes(es, m + 1).len() <= index_bytes(es, es.len()).len(),
        index_bytes(es, es.len()).take(index_bytes(es, m + 1).len() as int) == index_bytes(es, m + 1),
{
    lemma_index_prefix(es, m + 1, es.len());
}

/// Where the index entry for entry `m` stands in a table file, and what
/// its three fields hold.
proof fn lemma_index_read(b: Seq<u8>, es: Seq<EntryModel>, m: nat)
    requires
        b == encode_log(es) + index_bytes(es, es.len()) + (le_bytes(encode_log(es).len() as u64)
            + le_bytes(es.len() as u64) + seq![TABLE_TAG]),
        m < es.len(),
        m % (INDEX_STRIDE as nat) == 0,
    ensures
        ({
            let p = (encode_log(es).len() + index_bytes(es, m).len()) as int;
            let k = es[m as int].0;
            let kl = k.len() as int;
            &&& p + 16 + kl <= encode_log(es).len() + index_bytes(es, es.len()).len()
            &&& b.subrange(p, p + 8) == le_bytes(k.len() as u64)
            &&& b.subrange(p + 8, p + 8 + kl) == k
            &&& b.subrange(p + 8 + kl, p + 16 + kl) == le_bytes(data_offset(es, m as int) as u64)
            &&& data_offset(es, m as int) <= encode_log(es).len()
        }),
{
    lemma_index_entry(es, m);
    let d = encode_log(es);
    let ix = index_bytes(es, es.len());
    let ib = index_bytes(es, m + 1);
    let im = index_bytes(es, m);
    let k = es[m as int].0;
    let ent = le_bytes(k.len() as u64) + k + le_bytes(data_offset(es, m as int) as u64);
    let p = (d.len() + im.len()) as int;
    let kl = k.len() as int;
    assert forall|t: int| 0 <= t < ent.len() implies #[trigger] b[p + t] == ent[t] by {
        assert(ix.take(ib.len() as int)[im.len() + t] == ix[im.len() + t]);
        assert(ib[im.len() + t] == ent[t]);
        assert(b[p + t] == ix[im.len() + t]);
    }
    assert(b.subrange(p, p + 8) =~= le_bytes(k.len() as u64)) by {
        assert forall|t: int| 0 <= t < 8 implies #[trigger] b.subrange(p, p + 8)[t] == le_bytes(k.len() as u64)[t] by {
            assert(b[p + t] == ent[t]);
        }
    }
    assert(b.subrange(p + 8, p + 8 + kl) =~= k) by {
        assert forall|t: int| 0 <= t < k.len() implies #[trigger] b.subrange(p + 8, p + 8 + kl)[t] == k[t] by {
            assert(b[p + (8 + t)] == ent[8 + t]);
        }
    }
    assert(b.subrange(p + 8 + kl, p + 16 + kl) =~= le_bytes(data_offset(es, m as int) as u64)) by {
        assert forall|t: int| 0 <= t < 8 implies #[trigger] b.subrange(p + 8 + kl, p + 16 + kl)[t] == le_bytes(data_offset(es, m as int) as u64)[t] by {
            assert(b[p + (8 + kl + t)] == ent[8 + kl + t]);
        }
    }
    lemma_record_at(es, m as int);
}

/// The index entries after entry `m`'s, up to the next indexed entry.
proof fn lemma_index_advance(es: Seq<EntryModel>, m: nat) -> (next_m: nat)
    requires
        m < es.len(),
        m % (INDEX_STRIDE as nat) == 0,
    ensures
        next_m == if m + INDEX_STRIDE < es.len() { (m + INDEX_STRIDE) as nat } else { es.len() },
        index_bytes(es, next_m) == index_bytes(es, m + 1),
        (next_m % (INDEX_STRIDE as nat) == 0 && next_m < es.len()) || next_m == es.len(),
        next_m < es.len() ==> index_bytes(es, next_m).len() < index_bytes(es, es.len()).len(),
{
    let next_m: nat = if m + INDEX_STRIDE < es.len() { (m + INDEX_STRIDE) as nat } else { es.len() };
    lemma_index_gap(es, m, next_m);
    if next_m < es.len() {
        assert(next_m % (INDEX_STRIDE as nat) == 0);
        lemma_index_entry(es, next_m);
    }
    next_m
}

/// What `key` has in the table file `bytes`, found through the file's
/// sparse index: the index is scanned to the last indexed key not above
/// `key`, then records are read from there until `key` is reached or passed.
/// `Err` for a file that is not well formed.
#[verifier::rlimit(60)]
pub fn table_get(bytes: &[u8], key: &[u8]) -> (r: Result<Option<crate::entry::Value>, ()>)
    ensures
        has_table_model(bytes@) ==> r is Ok && match r->Ok_0 {
            Some(v) => crate::run::run_lookup(table_model(bytes@), key@) == Some(v@),
            None => crate::run::run_lookup(table_model(bytes@), key@) is None,
        },
{
    let ghost wf = has_table_model(bytes@);
    let ghost es = table_model(bytes@);
    let ghost d = encode_log(es);
    let ghost ix = index_bytes(es, es.len());
    proof {
        lemma_footer_of(bytes@);
        if wf {
            assert(well_formed_table(bytes@, es));
            assert(bytes@ == table_bytes(es));
        }
    }
    let n = bytes.len();
    if n < FOOTER_LEN || bytes[n - 1] != TABLE_TAG {
        return Err(());
    }
    let index_at = read_le(bytes, n - FOOTER_LEN);
    if index_at > (n - FOOTER_LEN) as u64 {
        return Err(());
    }
    let ia = index_at as usize;
    let index_end = n - FOOTER_LEN;
    proof {
        if wf {
            assert(bytes@ =~= d + ix + (le_bytes(d.len() as u64) + le_bytes(es.len() as u64) + seq![TABLE_TAG]));
            assert(ia == d.len());
            assert(index_end == d.len() + ix.len());
        }
    }
    // scan the index
    let mut p: usize = ia;
    let mut start: usize = 0;
    let ghost mut m: nat = 0;
    let ghost mut i0: int = 0;
    assert(es.take(0) =~= Seq::<EntryModel>::empty());
    assert(encode_log(Seq::<EntryModel>::empty()) =~= Seq::<u8>::empty());
    proof {
        if wf && es.len() > 0 {
            lemma_index_entry(es, 0);
        }
    }
    while p < index_end
        invariant
            wf == has_table_model(bytes@),
            es == table_model(bytes@),
            wf ==> well_formed_table(bytes@, es),
            wf ==> bytes@ == d + ix + (le_bytes(d.len() as u64) + le_bytes(es.len() as u64) + seq![TABLE_TAG]),
            d == encode_log(es),
            ix == index_bytes(es, es.len()),
            n == bytes@.len(),
            n >= FOOTER_LEN,
            index_end == n - FOOTER_LEN,
            ia <= index_end,
            ia == index_at,
            wf ==> ia == d.len() && index_end == d.len() + ix.len(),
            ia <= p,
            start <= ia,
            wf ==> m <= es.len(),
            wf ==> (m % (INDEX_STRIDE as nat) == 0 && m < es.len()) || m == es.len(),
            wf ==> p == ia + index_bytes(es, m).len(),
            wf ==> (p < index_end <==> m < es.len()),
            wf ==> 0 <= i0 <= es.len() && start == data_offset(es, i0),
            wf ==> forall|a: int| 0 <= a < i0 ==> lex_lt(#[trigger] es[a].0, key@),
        decreases index_end - p,
    {
        proof {
            if wf {
                lemma_index_read(bytes@, es, m);
                lemma_le_at(bytes@, p as int, es[m as int].0.len() as u64);
                let kl = es[m as int].0.len() as int;
                lemma_le_at(bytes@, p + 8 + kl, data_offset(es, m as int) as u64);
            }
        }
        if index_end - p < 8 {
            return Err(());
        }
        let klen = read_le(bytes, p);
        if klen > (index_end - p - 8) as u64 {
            return Err(());
        }
        let kstart = p + 8;
        let kend = kstart + klen as usize;
        if index_end - kend < 8 {
            return Err(());
        }
        let off = read_le(bytes, kend);
        let ghost em = es[m as int];
        let ikey = slice_bytes(bytes, kstart, kend);
        if compare_keys(ikey.as_slice(), key) > 0 {
            break;
        }
        if off > index_at {
            return Err(());
        }
        proof {
            if wf {
                assert forall|a: int| 0 <= a < m implies lex_lt(#[trigger] es[a].0, key@) by {
                    assert(lex_lt(es[a].0, em.0));
                    if em.0 != key@ {
                        lemma_lex_transitive(es[a].0, em.0, key@);
                    }
                }
                let next_m = lemma_index_advance(es, m);
                lemma_index_entry(es, m);
                i0 = m as int;
                m = next_m;
            }
        }
        start = off as usize;
        p = kend + 8;
    }
    // read records from the last indexed key not above `key`
    let mut pos: usize = start;
    let ghost mut i: int = i0;
    while pos < ia
        invariant
            wf == has_table_model(bytes@),
            es == table_model(bytes@),
            wf ==> well_formed_table(bytes@, es),
            wf ==> bytes@ == d + ix + (le_bytes(d.len() as u64) + le_bytes(es.len() as u64) + seq![TABLE_TAG]),
            d == encode_log(es),
            n == bytes@.len(),
            ia <= n,
            wf ==> ia == d.len(),
            wf ==> 0 <= i <= es.len() && pos == data_offset(es, i),
            wf ==> forall|a: int| 0 <= a < i ==> lex_lt(#[trigger] es[a].0, key@),
        decreases n - pos,
    {
        proof {
            if wf {
                if i == es.len() {
                    assert(es.take(i) =~= es);
                }
                lemma_record_at(es, i);
                lemma_offset_next(es, i);
                let t = encode_log(es.skip(i + 1)) + ix + (le_bytes(d.len() as u64) + le_bytes(es.len() as u64) + seq![TABLE_TAG]);
                assert(bytes@.skip(pos as int) =~= encode_entry(es[i]) + t);
                crate::wal::lemma_front_of_record(es[i], t);
            }
        }
        match crate::wal::read_front(bytes, pos) {
            Ok(Some((e, next))) => {
                let c = compare_keys(e.key.as_slice(), key);
                if c == 0 {
                    proof {
                        if wf {
                            crate::run::lemma_lookup_at(es, i);
                        }
                    }
                    return Ok(Some(e.value));
                }
                if c > 0 {
                    proof {
                        if wf && crate::run::run_has(es, key@) {
                            let j = crate::run::run_index(es, key@);
                            crate::keys::lemma_lex_irreflexive(key@);
                            if j > i {
                                crate::keys::lemma_lex_asymmetric(es[i].0, key@);
                            }
                        }
                    }
                    return Ok(None);
                }
                proof {
                    if wf {
                        i = i + 1;
                    }
                }
                pos = next;
            },
            _ => {
                return Err(());
            },
        }
    }
    proof {
        if wf {
            if i < es.len() {
                lemma_offset_next(es, i);
                assert(false);
            }
            if crate::run::run_has(es, key@) {
                let j = crate::run::run_index(es, key@);
                crate::keys::lemma_lex_irreflexive(key@);
            }
        }
    }
    Ok(None)
}

} // verus!
