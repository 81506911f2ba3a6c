//! The write-ahead log's record format: framing, and replay of a log whose
//! last record may have been cut short.
//!
//! A record is a tag byte, the key's length (8 bytes, little endian), the key,
//! and, for a value, the value's length and the value. The tag tells a value
//! from a tombstone and carries the format version in its high nibble.

use vstd::prelude::*;
use crate::entry::{Entry, EntryModel, Value};
use crate::run::run_view;

verus! {

/// Tag of a record that sets a value.
pub const TAG_VALUE: u8 = 0xA1;

/// Tag of a record that deletes a key.
pub const TAG_TOMBSTONE: u8 = 0xA0;

/// The eight little-endian bytes of `n`.
pub open spec fn le_bytes(n: u64) -> Seq<u8> {
    seq![
        (n & 0xff) as u8, ((n >> 8u64) & 0xff) as u8, ((n >> 16u64) & 0xff) as u8, ((n >> 24u64) & 0xff) as u8,
        ((n >> 32u64) & 0xff) as u8, ((n >> 40u64) & 0xff) as u8, ((n >> 48u64) & 0xff) as u8, ((n >> 56u64) & 0xff) as u8,
    ]
}

/// The number whose little-endian bytes stand in `b` at `at`.
pub open spec fn le_value(b: Seq<u8>, at: int) -> u64 {
    (b[at] as u64) | ((b[at + 1] as u64) << 8u64) | ((b[at + 2] as u64) << 16u64) | ((b[at + 3] as u64) << 24u64)
        | ((b[at + 4] as u64) << 32u64) | ((b[at + 5] as u64) << 40u64) | ((b[at + 6] as u64) << 48u64)
        | ((b[at + 7] as u64) << 56u64)
}

pub proof fn lemma_le_round_trip(n: u64)
    ensures
        le_value(le_bytes(n), 0) == n,
{
    let b = le_bytes(n);
    let b0 = b[0];
    let b1 = b[1];
    let b2 = b[2];
    let b3 = b[3];
    let b4 = b[4];
    let b5 = b[5];
    let b6 = b[6];
    let b7 = b[7];
    assert(b0 == (n & 0xff) as u8 && b1 == ((n >> 8u64) & 0xff) as u8 && b2 == ((n >> 16u64) & 0xff) as u8
        && b3 == ((n >> 24u64) & 0xff) as u8 && b4 == ((n >> 32u64) & 0xff) as u8 && b5 == ((n >> 40u64) & 0xff) as u8
        && b6 == ((n >> 48u64) & 0xff) as u8 && b7 == ((n >> 56u64) & 0xff) as u8);
    assert((b0 as u64) | ((b1 as u64) << 8u64) | ((b2 as u64) << 16u64) | ((b3 as u64) << 24u64)
        | ((b4 as u64) << 32u64) | ((b5 as u64) << 40u64) | ((b6 as u64) << 48u64) | ((b7 as u64) << 56u64) == n)
        by (bit_vector)
        requires
            b0 == (n & 0xff) as u8, b1 == ((n >> 8u64) & 0xff) as u8, b2 == ((n >> 16u64) & 0xff) as u8,
            b3 == ((n >> 24u64) & 0xff) as u8, b4 == ((n >> 32u64) & 0xff) as u8, b5 == ((n >> 40u64) & 0xff) as u8,
            b6 == ((n >> 48u64) & 0xff) as u8, b7 == ((n >> 56u64) & 0xff) as u8;
}

/// The bytes of one record.
pub open spec fn encode_entry(e: EntryModel) -> Seq<u8> {
    match e.1 {
        Some(v) => seq![TAG_VALUE] + le_bytes(e.0.len() as u64) + e.0 + le_bytes(v.len() as u64) + v,
        None => seq![TAG_TOMBSTONE] + le_bytes(e.0.len() as u64) + e.0,
    }
}

/// The bytes of a log holding `es` in order.
pub open spec fn encode_log(es: Seq<EntryModel>) -> Seq<u8>
    decreases es.len(),
{
    if es.len() == 0 {
        Seq::empty()
    } else {
        encode_entry(es[0]) + encode_log(es.drop_first())
    }
}

/// What the front of a log holds.
pub enum Front {
    /// A whole record, of the given length in bytes.
    Record(EntryModel, nat),
    /// The start of a record that the log ends inside of.
    Partial,
    /// Bytes that no record starts with.
    Bad,
}

/// Reads the record at the front of `b`, which is not empty.
#[verifier::opaque]
pub open spec fn parse_front(b: Seq<u8>) -> Front {
    if b[0] != TAG_VALUE && b[0] != TAG_TOMBSTONE {
        Front::Bad
    } else if b.len() < 9 {
        Front::Partial
    } else if le_value(b, 1) > b.len() - 9 {
        Front::Partial
    } else {
        let kend = 9 + le_value(b, 1);
        let key = b.subrange(9, kend);
        if b[0] == TAG_TOMBSTONE {
            Front::Record((key, None), kend as nat)
        } else if b.len() - kend < 8 {
            Front::Partial
        } else if le_value(b, kend) > b.len() - kend - 8 {
            Front::Partial
        } else {
            let vend = kend + 8 + le_value(b, kend);
            Front::Record((key, Some(b.subrange(kend + 8, vend))), vend as nat)
        }
    }
}

/// The records of a log: `None` where a record is malformed; a cut-short
/// last record is left out.
pub open spec fn parse_log(b: Seq<u8>) -> Option<Seq<EntryModel>>
    decreases b.len(),
{
    if b.len() == 0 {
        Some(Seq::empty())
    } else {
        match parse_front(b) {
            Front::Record(e, n) => if 0 < n <= b.len() {
                match parse_log(b.skip(n as int)) {
                    Some(rest) => Some(seq![e] + rest),
                    None => None,
                }
            } else {
                None
            },
            Front::Partial => Some(Seq::empty()),
            Front::Bad => None,
        }
    }
}

pub(crate) fn push_le(out: &mut Vec<u8>, n: u64)
    ensures
        final(out)@ == old(out)@ + le_bytes(n),
{
    out.push((n & 0xff) as u8);
    out.push(((n >> 8u64) & 0xff) as u8);
    out.push(((n >> 16u64) & 0xff) as u8);
    out.push(((n >> 24u64) & 0xff) as u8);
    out.push(((n >> 32u64) & 0xff) as u8);
    out.push(((n >> 40u64) & 0xff) as u8);
    out.push(((n >> 48u64) & 0xff) as u8);
    out.push(((n >> 56u64) & 0xff) as u8);
    assert(final(out)@ =~= old(out)@ + le_bytes(n));
}

pub(crate) fn push_bytes(out: &mut Vec<u8>, b: &[u8])
    ensures
        final(out)@ == old(out)@ + b@,
{
    let mut i: usize = 0;
    while i < b.len()
        invariant
            0 <= i <= b@.len(),
            out@ == old(out)@ + b@.take(i as int),
        decreases b@.len() - i,
    {
        out.push(b[i]);
        assert(b@.take(i + 1) =~= b@.take(i as int).push(b@[i as int]));
        i = i + 1;
    }
    assert(b@.take(i as int) =~= b@);
}

/// The log record of writing `value` under `key`.
pub fn encode_record(key: &[u8], value: &Value) -> (r: Vec<u8>)
    ensures
        r@ == encode_entry((key@, value@)),
{
    let mut out: Vec<u8> = Vec::new();
    match value {
        Value::Present(v) => out.push(TAG_VALUE),
        Value::Tombstone => out.push(TAG_TOMBSTONE),
    }
    push_le(&mut out, key.len() as u64);
    push_bytes(&mut out, key);
    if let Value::Present(v) = value {
        push_le(&mut out, v.len() as u64);
        push_bytes(&mut out, v.as_slice());
    }
    assert(out@ =~= encode_entry((key@, value@)));
    out
}

pub(crate) fn read_le(b: &[u8], at: usize) -> (r: u64)
    requires
        at + 8 <= b@.len(),
    ensures
        r == le_value(b@, at as int),
{
    (b[at] as u64) | ((b[at + 1] as u64) << 8u64) | ((b[at + 2] as u64) << 16u64) | ((b[at + 3] as u64) << 24u64)
        | ((b[at + 4] as u64) << 32u64) | ((b[at + 5] as u64) << 40u64) | ((b[at + 6] as u64) << 48u64)
        | ((b[at + 7] as u64) << 56u64)
}

pub(crate) fn slice_bytes(b: &[u8], from: usize, to: usize) -> (r: Vec<u8>)
    requires
        from <= to <= b@.len(),
    ensures
        r@ == b@.subrange(from as int, to as int),
{
    let mut out: Vec<u8> = Vec::new();
    let mut i: usize = from;
    while i < to
        invariant
            from <= i <= to,
            to <= b@.len(),
            out@ == b@.subrange(from as int, i as int),
        decreases to - i,
    {
        out.push(b[i]);
        assert(b@.subrange(from as int, i + 1) =~= b@.subrange(from as int, i as int).push(b@[i as int]));
        i = i + 1;
    }
    out
}

/// Reads the record that starts at `pos`: `Err` for bytes that start no
/// record, `Ok(None)` for one the log ends inside of, else the entry and the
/// position after it.
pub(crate) fn read_front(log: &[u8], pos: usize) -> (r: Result<Option<(Entry, usize)>, ()>)
    requires
        pos < log@.len(),
    ensures
        match r {
            Err(_) => parse_front(log@.skip(pos as int)) is Bad,
            Ok(None) => parse_front(log@.skip(pos as int)) is Partial,
            Ok(Some((e, next))) => pos < next <= log@.len()
                && parse_front(log@.skip(pos as int)) == Front::Record(e@, (next - pos) as nat),
        },
{
    let ghost b = log@.skip(pos as int);
    proof {
        reveal(parse_front);
    }
    let tag = log[pos];
    if tag != TAG_VALUE && tag != TAG_TOMBSTONE {
        return Err(());
    }
    let left = log.len() - pos;
    if left < 9 {
        return Ok(None);
    }
    let klen = read_le(log, pos + 1);
    assert(le_value(b, 1) == klen) by {
        assert(b[1] == log@[pos + 1] && b[2] == log@[pos + 2] && b[3] == log@[pos + 3] && b[4] == log@[pos + 4]
            && b[5] == log@[pos + 5] && b[6] == log@[pos + 6] && b[7] == log@[pos + 7] && b[8] == log@[pos + 8]);
    }
    if klen > (left - 9) as u64 {
        return Ok(None);
    }
    let kend = pos + 9 + klen as usize;
    let key = slice_bytes(log, pos + 9, kend);
    assert(key@ =~= b.subrange(9, 9 + klen));
    if tag == TAG_TOMBSTONE {
        return Ok(Some((Entry { key, value: Value::Tombstone }, kend)));
    }
    if log.len() - kend < 8 {
        return Ok(None);
    }
    let vlen = read_le(log, kend);
    let ghost bk = 9 + klen;
    assert(le_value(b, bk) == vlen) by {
        assert(b[bk] == log@[kend as int] && b[bk + 1] == log@[kend + 1] && b[bk + 2] == log@[kend + 2]
            && b[bk + 3] == log@[kend + 3] && b[bk + 4] == log@[kend + 4] && b[bk + 5] == log@[kend + 5]
            && b[bk + 6] == log@[kend + 6] && b[bk + 7] == log@[kend + 7]);
    }
    if vlen > (log.len() - kend - 8) as u64 {
        return Ok(None);
    }
    let vend = kend + 8 + vlen as usize;
    let v = slice_bytes(log, kend + 8, vend);
    assert(v@ =~= b.subrange(bk + 8, bk + 8 + vlen));
    Ok(Some((Entry { key, value: Value::Present(v) }, vend)))
}

/// Reads every record of a log, in order. A last record that the log ends
/// inside of is discarded; a malformed record is `None`.
/// With the records comes the length of the log's whole records, where a
/// cut-short record (if any) starts.
pub fn read_entries(log: &[u8]) -> (r: Option<(Vec<Entry>, usize)>)
    ensures
        match r {
            Some((es, end)) => parse_log(log@) == Some(run_view(es@))
                && end == encode_log(run_view(es@)).len()
                && end <= log@.len()
                && (end == log@.len() || parse_front(log@.skip(end as int)) is Partial),
            None => parse_log(log@) is None,
        },
{
    let mut out: Vec<Entry> = Vec::new();
    let mut pos: usize = 0;
    assert(log@.skip(0) =~= log@);
    proof {
        match parse_log(log@) {
            Some(rest) => {
                assert(run_view(out@) + rest =~= rest);
            },
            None => {},
        }
    }
    while pos < log.len()
        invariant
            0 <= pos <= log@.len(),
            pos == encode_log(run_view(out@)).len(),
            parse_log(log@) == match parse_log(log@.skip(pos as int)) {
                Some(rest) => Some(run_view(out@) + rest),
                None => None,
            },
        decreases log@.len() - pos,
    {
        let ghost b = log@.skip(pos as int);
        match read_front(log, pos) {
            Err(_) => {
                return None;
            },
            Ok(None) => {
                assert(run_view(out@) + Seq::<EntryModel>::empty() =~= run_view(out@));
                return Some((out, pos));
            },
            Ok(Some((e, next))) => {
                let ghost em = e@;
                proof {
                    assert(b.skip(next - pos) =~= log@.skip(next as int));
                    assert(run_view(out@.push(e)) =~= run_view(out@).push(em));
                    lemma_record_len(b, em, (next - pos) as nat);
                    crate::sstable::lemma_encode_log_push(run_view(out@), em);
                    match parse_log(log@.skip(next as int)) {
                        Some(rest) => {
                            assert(run_view(out@).push(em) + rest =~= run_view(out@) + (seq![em] + rest));
                        },
                        None => {},
                    }
                }
                out.push(e);
                pos = next;
            },
        }
    }
    assert(log@.skip(pos as int).len() == 0);
    assert(run_view(out@) + Seq::<EntryModel>::empty() =~= run_view(out@));
    Some((out, pos))
}

/// A record read from the front of a log is as long as its encoding.
proof fn lemma_record_len(b: Seq<u8>, e: EntryModel, n: nat)
    requires
        b.len() > 0,
        parse_front(b) == Front::Record(e, n),
    ensures
        n == encode_entry(e).len(),
{
    reveal(parse_front);
}

pub proof fn lemma_le_at(b: Seq<u8>, at: int, n: u64)
    requires
        0 <= at,
        at + 8 <= b.len(),
        b.subrange(at, at + 8) == le_bytes(n),
    ensures
        le_value(b, at) == n,
{
    let l = le_bytes(n);
    assert(b[at] == l[0] && b[at + 1] == l[1] && b[at + 2] == l[2] && b[at + 3] == l[3] && b[at + 4] == l[4]
        && b[at + 5] == l[5] && b[at + 6] == l[6] && b[at + 7] == l[7]) by {
        assert(b.subrange(at, at + 8)[0] == b[at]);
        assert(b.subrange(at, at + 8)[1] == b[at + 1]);
        assert(b.subrange(at, at + 8)[2] == b[at + 2]);
        assert(b.subrange(at, at + 8)[3] == b[at + 3]);
        assert(b.subrange(at, at + 8)[4] == b[at + 4]);
        assert(b.subrange(at, at + 8)[5] == b[at + 5]);
        assert(b.subrange(at, at + 8)[6] == b[at + 6]);
        assert(b.subrange(at, at + 8)[7] == b[at + 7]);
    }
    lemma_le_round_trip(n);
}

/// Lengths that the record format can frame.
pub open spec fn framable(e: EntryModel) -> bool {
    &&& e.0.len() <= u64::MAX
    &&& match e.1 {
        Some(v) => v.len() <= u64::MAX,
        None => true,
    }
}

/// A record followed by anything reads back as that record.
pub proof fn lemma_front_of_record(e: EntryModel, t: Seq<u8>)
    requires
        framable(e),
    ensures
        parse_front(encode_entry(e) + t) == Front::Record(e, encode_entry(e).len()),
{
    reveal(parse_front);
    let b = encode_entry(e) + t;
    let kl = e.0.len() as u64;
    assert(b.subrange(1, 9) =~= le_bytes(kl));
    lemma_le_at(b, 1, kl);
    assert(b.subrange(9, 9 + kl) =~= e.0);
    match e.1 {
        Some(v) => {
            let vl = v.len() as u64;
            assert(b.subrange(9 + kl, 17 + kl) =~= le_bytes(vl));
            lemma_le_at(b, 9 + kl, vl);
            assert(b.subrange(17 + kl, 17 + kl + vl) =~= v);
        },
        None => {},
    }
}

/// A record cut short reads as a partial record.
proof fn lemma_front_of_cut(e: EntryModel, cut: int)
    requires
        framable(e),
        0 < cut < encode_entry(e).len(),
    ensures
        parse_front(encode_entry(e).take(cut)) is Partial,
{
    reveal(parse_front);
    let full = encode_entry(e);
    let b = full.take(cut);
    let kl = e.0.len() as u64;
    assert(b[0] == full[0]);
    if cut >= 9 {
        assert(b.subrange(1, 9) =~= le_bytes(kl));
        lemma_le_at(b, 1, kl);
        if cut >= 17 + kl {
            match e.1 {
                Some(v) => {
                    let vl = v.len() as u64;
                    assert(b.subrange(9 + kl, 17 + kl) =~= le_bytes(vl));
                    lemma_le_at(b, 9 + kl, vl);
                },
                None => {},
            }
        }
    }
}

/// Reading a log that starts with whole records gives those records, then
/// what the rest of the log reads as.
pub proof fn lemma_parse_after(es: Seq<EntryModel>, t: Seq<u8>)
    requires
        forall|i: int| 0 <= i < es.len() ==> framable(#[trigger] es[i]),
    ensures
        parse_log(encode_log(es) + t) == match parse_log(t) {
            Some(rest) => Some(es + rest),
            None => None,
        },
    decreases es.len(),
{
    if es.len() == 0 {
        assert(encode_log(es) + t =~= t);
        match parse_log(t) {
            Some(rest) => {
                assert(es + rest =~= rest);
            },
            None => {},
        }
    } else {
        let e = es[0];
        let tail = es.drop_first();
        assert forall|i: int| 0 <= i < tail.len() implies framable(#[trigger] tail[i]) by {
            assert(tail[i] == es[i + 1]);
        }
        lemma_parse_after(tail, t);
        let b = encode_log(es) + t;
        let inner = encode_log(tail) + t;
        assert(b =~= encode_entry(e) + inner);
        lemma_front_of_record(e, inner);
        assert(b.skip(encode_entry(e).len() as int) =~= inner);
        match parse_log(t) {
            Some(rest) => {
                assert(seq![e] + (tail + rest) =~= es + rest);
            },
            None => {},
        }
    }
}

/// Replaying a log reads back exactly the records written to it, in order.
pub proof fn law_log_round_trip(es: Seq<EntryModel>)
    requires
        forall|i: int| 0 <= i < es.len() ==> framable(#[trigger] es[i]),
    ensures
        parse_log(encode_log(es)) == Some(es),
{
    lemma_parse_after(es, Seq::empty());
    assert(encode_log(es) + Seq::<u8>::empty() =~= encode_log(es));
    assert(es + Seq::<EntryModel>::empty() =~= es);
}

/// Replaying a log whose last record was cut short reads back the whole
/// records before it, and reports no error.
pub proof fn law_log_truncated_tail(es: Seq<EntryModel>, e: EntryModel, cut: int)
    requires
        forall|i: int| 0 <= i < es.len() ==> framable(#[trigger] es[i]),
        framable(e),
        0 < cut < encode_entry(e).len(),
    ensures
        parse_log(encode_log(es) + encode_entry(e).take(cut)) == Some(es),
{
    lemma_front_of_cut(e, cut);
    lemma_parse_after(es, encode_entry(e).take(cut));
    assert(es + Seq::<EntryModel>::empty() =~= es);
}

} // verus!
