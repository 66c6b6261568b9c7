//! The record codec: one log record serialized to, and parsed back from,
//! a self-delimiting byte form.
//!
//! A set-record is the tag byte `S`, the key length as eight little-endian
//! bytes, the key bytes, the value length likewise, and the value bytes.
//! A remove-record is the tag byte `R`, the key length, and the key bytes.
//! The parser tolerates ASCII whitespace between records.

use vstd::prelude::*;
use vstd::bytes::{spec_u64_to_le_bytes, spec_u64_from_le_bytes, u64_to_le_bytes, u64_from_le_bytes};
use vstd::slice::{slice_subrange, slice_to_vec};

use crate::KvError;

verus! {

/// Tag byte of a set-record: `b'S'`.
pub const TAG_SET: u8 = 83;
/// Tag byte of a remove-record: `b'R'`.
pub const TAG_REMOVE: u8 = 82;

/// One log record: a key set to a value, or a key removed.
#[derive(Debug)]
pub enum Record {
    Put { key: Vec<u8>, value: Vec<u8> },
    Remove { key: Vec<u8> },
}

/// The mathematical form of a record, over byte sequences.
pub enum RecModel {
    Put { key: Seq<u8>, value: Seq<u8> },
    Remove { key: Seq<u8> },
}

impl View for Record {
    type V = RecModel;

    open spec fn view(&self) -> RecModel {
        match self {
            Record::Put { key, value } => RecModel::Put { key: key@, value: value@ },
            Record::Remove { key } => RecModel::Remove { key: key@ },
        }
    }
}

/// A record whose lengths fit the eight-byte length fields.
pub open spec fn rec_wf(r: RecModel) -> bool {
    match r {
        RecModel::Put { key, value } => key.len() <= u64::MAX && value.len() <= u64::MAX,
        RecModel::Remove { key } => key.len() <= u64::MAX,
    }
}

/// The serialized form of a record.
pub open spec fn spec_encode(r: RecModel) -> Seq<u8> {
    match r {
        RecModel::Put { key, value } => seq![TAG_SET] + spec_u64_to_le_bytes(key.len() as u64)
            + key + spec_u64_to_le_bytes(value.len() as u64) + value,
        RecModel::Remove { key } => seq![TAG_REMOVE] + spec_u64_to_le_bytes(key.len() as u64)
            + key,
    }
}

/// ASCII whitespace, tolerated between records.
pub open spec fn is_ws(b: u8) -> bool {
    b == 32 || b == 9 || b == 10 || b == 13
}

/// The first position at or after `i` that does not hold whitespace
/// (or the end of the buffer).
pub open spec fn skip_ws(b: Seq<u8>, i: int) -> int
    decreases b.len() - i when 0 <= i <= b.len()
{
    if i < b.len() && is_ws(b[i]) {
        skip_ws(b, i + 1)
    } else {
        i
    }
}

pub proof fn lemma_skip_ws(b: Seq<u8>, i: int)
    requires
        0 <= i <= b.len(),
    ensures
        i <= skip_ws(b, i) <= b.len(),
        skip_ws(b, i) < b.len() ==> !is_ws(b[skip_ws(b, i)]),
        forall|j: int| i <= j < skip_ws(b, i) ==> is_ws(b[j]),
    decreases b.len() - i,
{
    if i < b.len() && is_ws(b[i]) {
        lemma_skip_ws(b, i + 1);
    }
}

/// The record found at position `i` of `b`, with the position just past its
/// last byte; `None` when no complete record starts exactly at `i`.
pub open spec fn parse_at(b: Seq<u8>, i: int) -> Option<(RecModel, int)> {
    if !(0 <= i < b.len()) {
        None
    } else if b[i] == TAG_SET {
        if i + 9 > b.len() {
            None
        } else {
            let klen = spec_u64_from_le_bytes(b.subrange(i + 1, i + 9)) as int;
            if i + 17 + klen > b.len() {
                None
            } else {
                let key = b.subrange(i + 9, i + 9 + klen);
                let vlen = spec_u64_from_le_bytes(b.subrange(i + 9 + klen, i + 17 + klen)) as int;
                if i + 17 + klen + vlen > b.len() {
                    None
                } else {
                    let value = b.subrange(i + 17 + klen, i + 17 + klen + vlen);
                    Some((RecModel::Put { key, value }, i + 17 + klen + vlen))
                }
            }
        }
    } else if b[i] == TAG_REMOVE {
        if i + 9 > b.len() {
            None
        } else {
            let klen = spec_u64_from_le_bytes(b.subrange(i + 1, i + 9)) as int;
            if i + 9 + klen > b.len() {
                None
            } else {
                Some((RecModel::Remove { key: b.subrange(i + 9, i + 9 + klen) }, i + 9 + klen))
            }
        }
    } else {
        None
    }
}

/// Append all bytes of `src` to `dst`.
pub fn push_bytes(dst: &mut Vec<u8>, src: &Vec<u8>)
    ensures
        final(dst)@ == old(dst)@ + src@,
{
    let mut i: usize = 0;
    while i < src.len()
        invariant
            i <= src@.len(),
            dst@ == old(dst)@ + src@.subrange(0, i as int),
        decreases src@.len() - i,
    {
        dst.push(src[i]);
        proof {
            assert(old(dst)@ + src@.subrange(0, (i + 1) as int) =~= (old(dst)@ + src@.subrange(
                0,
                i as int,
            )).push(src@[i as int]));
        }
        i = i + 1;
    }
    proof {
        assert(src@.subrange(0, src@.len() as int) =~= src@);
    }
}

/// Serialize one record.
pub fn encode_record(r: &Record) -> (out: Vec<u8>)
    ensures
        out@ == spec_encode(r@),
{
    match r {
        Record::Put { key, value } => {
            let mut out: Vec<u8> = Vec::new();
            out.push(TAG_SET);
            let kl = u64_to_le_bytes(key.len() as u64);
            push_bytes(&mut out, &kl);
            push_bytes(&mut out, key);
            let vl = u64_to_le_bytes(value.len() as u64);
            push_bytes(&mut out, &vl);
            push_bytes(&mut out, value);
            proof {
                assert(out@ =~= spec_encode(r@));
            }
            out
        }
        Record::Remove { key } => {
            let mut out: Vec<u8> = Vec::new();
            out.push(TAG_REMOVE);
            let kl = u64_to_le_bytes(key.len() as u64);
            push_bytes(&mut out, &kl);
            push_bytes(&mut out, key);
            proof {
                assert(out@ =~= spec_encode(r@));
            }
            out
        }
    }
}

/// Parse the record that starts exactly at position `i` of `b`.
pub fn parse_record(b: &Vec<u8>, i: usize) -> (r: Result<(Record, usize), KvError>)
    requires
        i <= b@.len(),
    ensures
        match r {
            Ok((rec, end)) => parse_at(b@, i as int) == Some((rec@, end as int)) && i < end
                <= b@.len(),
            Err(e) => parse_at(b@, i as int) is None && e == KvError::Corruption,
        },
{
    let n: usize = b.len();
    if i >= n {
        return Err(KvError::Corruption);
    }
    let tag: u8 = b[i];
    if tag == TAG_SET {
        if n - i < 9 {
            return Err(KvError::Corruption);
        }
        let klen_u64: u64 = u64_from_le_bytes(slice_subrange(b.as_slice(), i + 1, i + 9));
        if n - i < 17 || klen_u64 > (n - i - 17) as u64 {
            return Err(KvError::Corruption);
        }
        let klen: usize = klen_u64 as usize;
        let kend: usize = i + 9 + klen;
        let key: Vec<u8> = slice_to_vec(slice_subrange(b.as_slice(), i + 9, kend));
        let vlen_u64: u64 = u64_from_le_bytes(slice_subrange(b.as_slice(), kend, kend + 8));
        if vlen_u64 > (n - i - 17 - klen) as u64 {
            return Err(KvError::Corruption);
        }
        let vlen: usize = vlen_u64 as usize;
        let end: usize = kend + 8 + vlen;
        let value: Vec<u8> = slice_to_vec(slice_subrange(b.as_slice(), kend + 8, end));
        Ok((Record::Put { key, value }, end))
    } else if tag == TAG_REMOVE {
        if n - i < 9 {
            return Err(KvError::Corruption);
        }
        let klen_u64: u64 = u64_from_le_bytes(slice_subrange(b.as_slice(), i + 1, i + 9));
        if klen_u64 > (n - i - 9) as u64 {
            return Err(KvError::Corruption);
        }
        let klen: usize = klen_u64 as usize;
        let end: usize = i + 9 + klen;
        let key: Vec<u8> = slice_to_vec(slice_subrange(b.as_slice(), i + 9, end));
        Ok((Record::Remove { key }, end))
    } else {
        Err(KvError::Corruption)
    }
}

/// Advance past any whitespace that separates records.
pub fn skip_ws_exec(b: &Vec<u8>, i: usize) -> (j: usize)
    requires
        i <= b@.len(),
    ensures
        j == skip_ws(b@, i as int),
        i <= j <= b@.len(),
{
    let mut j: usize = i;
    let n: usize = b.len();
    while j < n && (b[j] == 32 || b[j] == 9 || b[j] == 10 || b[j] == 13)
        invariant
            i <= j <= n,
            n == b@.len(),
            skip_ws(b@, i as int) == skip_ws(b@, j as int),
        decreases n - j,
    {
        j = j + 1;
    }
    j
}

} // verus!

verus! {

/// The record part of a successful parse (meaningful only when one exists).
pub open spec fn parse_rec(b: Seq<u8>, i: int) -> RecModel {
    match parse_at(b, i) {
        Some(p) => p.0,
        None => RecModel::Remove { key: Seq::empty() },
    }
}

/// The position just past a successful parse (meaningful only when one exists).
pub open spec fn parse_end(b: Seq<u8>, i: int) -> int {
    match parse_at(b, i) {
        Some(p) => p.1,
        None => i,
    }
}

/// A successful parse starts at a tag byte, which is never whitespace, and
/// covers at least the tag and one length field.
pub proof fn lemma_parse_basic(b: Seq<u8>, i: int)
    requires
        parse_at(b, i) is Some,
    ensures
        0 <= i < b.len(),
        i + 9 <= parse_end(b, i) <= b.len(),
        !is_ws(b[i]),
{
}

/// Parsing reads only the record's own bytes: the same bytes at another
/// position of another buffer parse to the same record.
pub proof fn lemma_parse_translate(b1: Seq<u8>, i1: int, b2: Seq<u8>, i2: int)
    requires
        0 <= i1,
        0 <= i2,
        parse_at(b1, i1) is Some,
        i2 + (parse_end(b1, i1) - i1) <= b2.len(),
        b2.subrange(i2, i2 + (parse_end(b1, i1) - i1)) == b1.subrange(i1, parse_end(b1, i1)),
    ensures
        parse_at(b2, i2) == Some((parse_rec(b1, i1), i2 + (parse_end(b1, i1) - i1))),
{
    let n = parse_end(b1, i1) - i1;
    lemma_same_window(b1, i1, b2, i2, n, 0, 1);
    assert(b2[i2] == b2.subrange(i2 + 0, i2 + 1)[0]);
    assert(b1[i1] == b1.subrange(i1 + 0, i1 + 1)[0]);
    assert(b2[i2] == b1[i1]);
    if b1[i1] == TAG_SET {
        let klen = spec_u64_from_le_bytes(b1.subrange(i1 + 1, i1 + 9)) as int;
        lemma_same_window(b1, i1, b2, i2, n, 1, 9);
        assert(spec_u64_from_le_bytes(b2.subrange(i2 + 1, i2 + 9)) as int == klen);
        let vlen = spec_u64_from_le_bytes(b1.subrange(i1 + 9 + klen, i1 + 17 + klen)) as int;
        lemma_same_window(b1, i1, b2, i2, n, 9 + klen, 17 + klen);
        lemma_same_window(b1, i1, b2, i2, n, 9, 9 + klen);
        lemma_same_window(b1, i1, b2, i2, n, 17 + klen, 17 + klen + vlen);
    } else {
        let klen = spec_u64_from_le_bytes(b1.subrange(i1 + 1, i1 + 9)) as int;
        lemma_same_window(b1, i1, b2, i2, n, 1, 9);
        assert(spec_u64_from_le_bytes(b2.subrange(i2 + 1, i2 + 9)) as int == klen);
        lemma_same_window(b1, i1, b2, i2, n, 9, 9 + klen);
    }
}

/// Inside two equal windows, corresponding sub-windows are equal.
proof fn lemma_same_window(b1: Seq<u8>, i1: int, b2: Seq<u8>, i2: int, n: int, x: int, y: int)
    requires
        0 <= i1,
        0 <= i2,
        0 <= x <= y <= n,
        i1 + n <= b1.len(),
        i2 + n <= b2.len(),
        b2.subrange(i2, i2 + n) == b1.subrange(i1, i1 + n),
    ensures
        b2.subrange(i2 + x, i2 + y) == b1.subrange(i1 + x, i1 + y),
{
    assert forall|q: int| 0 <= q < y - x implies #[trigger] b2.subrange(i2 + x, i2 + y)[q]
        == b1.subrange(i1 + x, i1 + y)[q] by {
        assert(b2.subrange(i2, i2 + n)[x + q] == b1.subrange(i1, i1 + n)[x + q]);
        assert(b2.subrange(i2, i2 + n)[x + q] == b2[i2 + x + q]);
        assert(b2.subrange(i2 + x, i2 + y)[q] == b2[i2 + x + q]);
        assert(b1.subrange(i1, i1 + n)[x + q] == b1[i1 + x + q]);
        assert(b1.subrange(i1 + x, i1 + y)[q] == b1[i1 + x + q]);
    }
    assert(b2.subrange(i2 + x, i2 + y) =~= b1.subrange(i1 + x, i1 + y));
}

/// Wherever an encoded record stands in a buffer, parsing at its first byte
/// yields that record and consumes exactly its bytes.
pub proof fn lemma_parse_encode(pre: Seq<u8>, r: RecModel, post: Seq<u8>)
    requires
        rec_wf(r),
    ensures
        parse_at(pre + spec_encode(r) + post, pre.len() as int) == Some(
            (r, pre.len() as int + spec_encode(r).len() as int),
        ),
{
    vstd::bytes::lemma_auto_spec_u64_to_from_le_bytes();
    let enc = spec_encode(r);
    let b = pre + enc + post;
    let i = pre.len() as int;
    assert forall|d: int| 0 <= d < enc.len() implies b[i + d] == enc[d] by {}
    match r {
        RecModel::Put { key, value } => {
            let klen = key.len() as int;
            let vlen = value.len() as int;
            let le_k = spec_u64_to_le_bytes(key.len() as u64);
            let le_v = spec_u64_to_le_bytes(value.len() as u64);
            assert(le_k.len() == 8 && le_v.len() == 8);
            assert(enc.len() == 17 + klen + vlen);
            assert(enc[0] == TAG_SET);
            assert forall|t: int| 0 <= t < 8 implies enc[1 + t] == le_k[t] by {}
            assert forall|t: int| 0 <= t < klen implies enc[9 + t] == key[t] by {}
            assert forall|t: int| 0 <= t < 8 implies enc[9 + klen + t] == le_v[t] by {}
            assert forall|t: int| 0 <= t < vlen implies enc[17 + klen + t] == value[t] by {}
            assert(b[i] == TAG_SET);
            assert(b.subrange(i + 1, i + 9) =~= le_k);
            assert(spec_u64_from_le_bytes(le_k) == key.len() as u64);
            assert(b.subrange(i + 9, i + 9 + klen) =~= key);
            assert(b.subrange(i + 9 + klen, i + 17 + klen) =~= le_v);
            assert(spec_u64_from_le_bytes(le_v) == value.len() as u64);
            assert(b.subrange(i + 17 + klen, i + 17 + klen + vlen) =~= value);
            assert(parse_at(b, i) == Some((r, i + 17 + klen + vlen)));
        }
        RecModel::Remove { key } => {
            let klen = key.len() as int;
            let le_k = spec_u64_to_le_bytes(key.len() as u64);
            assert(le_k.len() == 8);
            assert(enc.len() == 9 + klen);
            assert(enc[0] == TAG_REMOVE);
            assert forall|t: int| 0 <= t < 8 implies enc[1 + t] == le_k[t] by {}
            assert forall|t: int| 0 <= t < klen implies enc[9 + t] == key[t] by {}
            assert(b[i] == TAG_REMOVE);
            assert(b.subrange(i + 1, i + 9) =~= le_k);
            assert(spec_u64_from_le_bytes(le_k) == key.len() as u64);
            assert(b.subrange(i + 9, i + 9 + klen) =~= key);
            assert(parse_at(b, i) == Some((r, i + 9 + klen)));
        }
    }
}

/// Serializing any record and parsing the result yields the record back,
/// consuming exactly the serialized bytes.
pub proof fn lemma_round_trip(r: RecModel)
    requires
        rec_wf(r),
    ensures
        parse_at(spec_encode(r), 0) == Some((r, spec_encode(r).len() as int)),
{
    lemma_parse_encode(Seq::empty(), r, Seq::empty());
    assert(Seq::<u8>::empty() + spec_encode(r) + Seq::<u8>::empty() =~= spec_encode(r));
}

} // verus!

verus! {

/// Skipping whitespace stops at the same place after more bytes are appended,
/// as long as it stopped before the end.
pub proof fn lemma_skip_ws_frame(b: Seq<u8>, c: Seq<u8>, i: int)
    requires
        0 <= i <= b.len(),
        skip_ws(b, i) < b.len(),
    ensures
        skip_ws(b + c, i) == skip_ws(b, i),
    decreases b.len() - i,
{
    assert((b + c)[i] == b[i]);
    if i < b.len() && is_ws(b[i]) {
        lemma_skip_ws_frame(b, c, i + 1);
    }
}

/// When everything from `i` on is whitespace, appending bytes that do not
/// start with whitespace makes skipping stop exactly at the old end.
pub proof fn lemma_skip_ws_to_end(b: Seq<u8>, c: Seq<u8>, i: int)
    requires
        0 <= i <= b.len(),
        skip_ws(b, i) == b.len(),
        c.len() > 0,
        !is_ws(c[0]),
    ensures
        skip_ws(b + c, i) == b.len(),
    decreases b.len() - i,
{
    if i < b.len() {
        assert(is_ws(b[i]));
        assert((b + c)[i] == b[i]);
        lemma_skip_ws_to_end(b, c, i + 1);
    } else {
        assert((b + c)[i] == c[0]);
    }
}

} // verus!

verus! {

/// Append the bytes `src[start .. start + len]` to `dst`.
pub fn append_range(dst: &mut Vec<u8>, src: &Vec<u8>, start: usize, len: usize)
    requires
        start + len <= src@.len(),
    ensures
        final(dst)@ == old(dst)@ + src@.subrange(start as int, start as int + len as int),
{
    let n: usize = src.len();
    let mut q: usize = 0;
    while q < len
        invariant
            q <= len,
            n == src@.len(),
            start + len <= n,
            dst@ == old(dst)@ + src@.subrange(start as int, start as int + q as int),
        decreases len - q,
    {
        dst.push(src[start + q]);
        proof {
            assert(old(dst)@ + src@.subrange(start as int, start as int + (q + 1) as int) =~= (old(
                dst,
            )@ + src@.subrange(start as int, start as int + q as int)).push(
                src@[(start + q) as int],
            ));
        }
        q = q + 1;
    }
}

} // verus!
