//! The on-disk table layout: each record is a big-endian `u32` key length, the
//! key, a big-endian `u32` value length and the value, repeated to the end.

use vstd::prelude::*;
use crate::error::LsmError;
use crate::records::{Record, records_view, keys_sorted, as_map, insert_record};

verus! {

/// The four big-endian bytes of `n`.
pub open spec fn be32(n: u32) -> Seq<u8> {
    seq![(n >> 24u32) as u8, (n >> 16u32) as u8, (n >> 8u32) as u8, n as u8]
}

/// The number whose big-endian bytes open `b`.
pub open spec fn be32_value(b: Seq<u8>) -> u32 {
    ((b[0] as u32) << 24u32) | ((b[1] as u32) << 16u32) | ((b[2] as u32) << 8u32) | (b[3] as u32)
}

/// Every key and value length fits the `u32` prefix.
pub open spec fn lengths_fit(s: Seq<(Seq<u8>, Seq<u8>)>) -> bool {
    forall|i: int|
        0 <= i < s.len() ==> #[trigger] s[i].0.len() <= u32::MAX && s[i].1.len() <= u32::MAX
}

pub open spec fn encode_record(r: (Seq<u8>, Seq<u8>)) -> Seq<u8> {
    be32(r.0.len() as u32) + r.0 + be32(r.1.len() as u32) + r.1
}

/// The bytes of a record sequence, in sequence order.
pub open spec fn encode_all(s: Seq<(Seq<u8>, Seq<u8>)>) -> Seq<u8>
    decreases s.len(),
{
    if s.len() == 0 {
        Seq::empty()
    } else {
        encode_record(s[0]) + encode_all(s.drop_first())
    }
}

/// The records that `b` holds in file order, or `None` where a length prefix
/// or the data it announces runs past the end.
pub open spec fn parse(b: Seq<u8>) -> Option<Seq<(Seq<u8>, Seq<u8>)>>
    decreases b.len(),
{
    if b.len() == 0 {
        Some(Seq::empty())
    } else if b.len() < 4 {
        None
    } else {
        let kl = be32_value(b) as int;
        if b.len() < 8 + kl {
            None
        } else {
            let vl = be32_value(b.skip(4 + kl)) as int;
            let end = 8 + kl + vl;
            if b.len() < end {
                None
            } else {
                match parse(b.skip(end)) {
                    Some(rest) => Some(seq![(b.subrange(4, 4 + kl), b.subrange(8 + kl, end))] + rest),
                    None => None,
                }
            }
        }
    }
}

pub proof fn lemma_be32_round_trip(n: u32)
    ensures
        be32_value(be32(n)) == n,
{
    let b = be32(n);
    assert(be32_value(b) == ((((n >> 24u32) as u8) as u32) << 24u32) | ((((n >> 16u32) as u8) as u32)
        << 16u32) | ((((n >> 8u32) as u8) as u32) << 8u32) | ((n as u8) as u32));
    assert(((((n >> 24u32) as u8) as u32) << 24u32) | ((((n >> 16u32) as u8) as u32) << 16u32) | ((((n
        >> 8u32) as u8) as u32) << 8u32) | ((n as u8) as u32) == n) by (bit_vector);
}

pub proof fn lemma_encode_push(s: Seq<(Seq<u8>, Seq<u8>)>, r: (Seq<u8>, Seq<u8>))
    ensures
        encode_all(s.push(r)) == encode_all(s) + encode_record(r),
    decreases s.len(),
{
    if s.len() == 0 {
        assert(s.push(r).drop_first() =~= Seq::<(Seq<u8>, Seq<u8>)>::empty());
        assert(encode_all(s) =~= Seq::<u8>::empty());
        assert(encode_all(s.push(r).drop_first()) =~= Seq::<u8>::empty());
        assert(s.push(r)[0] == r);
        assert(encode_all(s.push(r)) =~= encode_all(s) + encode_record(r));
    } else {
        assert(s.push(r).drop_first() =~= s.drop_first().push(r));
        assert(s.push(r)[0] == s[0]);
        lemma_encode_push(s.drop_first(), r);
        assert(encode_all(s.push(r)) =~= encode_all(s) + encode_record(r));
    }
}

/// Parsing one encoded record in front of `tail`.
proof fn lemma_parse_front(r: (Seq<u8>, Seq<u8>), tail: Seq<u8>)
    requires
        r.0.len() <= u32::MAX,
        r.1.len() <= u32::MAX,
    ensures
        parse(encode_record(r) + tail) == match parse(tail) {
            Some(rest) => Some(seq![r] + rest),
            None => None,
        },
{
    let e = encode_record(r) + tail;
    let kl = r.0.len() as int;
    let vl = r.1.len() as int;
    lemma_be32_round_trip(r.0.len() as u32);
    lemma_be32_round_trip(r.1.len() as u32);
    assert(e.take(4) =~= be32(r.0.len() as u32));
    assert(be32_value(e) == be32_value(be32(r.0.len() as u32)));
    assert(e.skip(4 + kl).take(4) =~= be32(r.1.len() as u32));
    assert(be32_value(e.skip(4 + kl)) == be32_value(be32(r.1.len() as u32)));
    assert(e.subrange(4, 4 + kl) =~= r.0);
    assert(e.subrange(8 + kl, 8 + kl + vl) =~= r.1);
    assert(e.skip(8 + kl + vl) =~= tail);
}

/// Decoding the encoding of records gives back those records, in their order.
pub proof fn lemma_parse_encode(s: Seq<(Seq<u8>, Seq<u8>)>)
    requires
        lengths_fit(s),
    ensures
        parse(encode_all(s)) == Some(s),
    decreases s.len(),
{
    if s.len() == 0 {
        assert(encode_all(s) =~= Seq::<u8>::empty());
    } else {
        let r = s[0];
        let rest = s.drop_first();
        assert(lengths_fit(rest)) by {
            assert forall|i: int| 0 <= i < rest.len() implies #[trigger] rest[i].0.len() <= u32::MAX
                && rest[i].1.len() <= u32::MAX by {
                assert(rest[i] == s[i + 1]);
            }
        }
        assert(s[0].0.len() <= u32::MAX && s[0].1.len() <= u32::MAX);
        lemma_parse_encode(rest);
        lemma_parse_front(r, encode_all(rest));
        assert(seq![r] + rest =~= s);
    }
}

/// Writing a key-sorted record set and reading the bytes back yields that same
/// record set: the decoding parses exactly the records written, and the sorted
/// set a read returns for them is the written sequence itself.
pub proof fn lemma_round_trip(recs: Seq<(Seq<u8>, Seq<u8>)>, read_back: Seq<(Seq<u8>, Seq<u8>)>)
    requires
        keys_sorted(recs),
        lengths_fit(recs),
        keys_sorted(read_back),
        as_map(read_back) == as_map(parse(encode_all(recs))->Some_0),
    ensures
        parse(encode_all(recs)) == Some(recs),
        read_back == recs,
{
    lemma_parse_encode(recs);
    crate::records::lemma_sorted_unique_repr(read_back, recs);
}

/// Appends the big-endian bytes of `n`.
fn push_be32(out: &mut Vec<u8>, n: u32)
    ensures
        final(out)@ == old(out)@ + be32(n),
{
    out.push((n >> 24u32) as u8);
    out.push((n >> 16u32) as u8);
    out.push((n >> 8u32) as u8);
    out.push(n as u8);
    assert(final(out)@ =~= old(out)@ + be32(n));
}

/// Appends the bytes of `b`.
fn push_bytes(out: &mut Vec<u8>, b: &Vec<u8>)
    ensures
        final(out)@ == old(out)@ + b@,
{
    let ghost start = out@;
    let mut i: usize = 0;
    while i < b.len()
        invariant
            i <= b@.len(),
            out@ == start + b@.take(i as int),
        decreases b@.len() - i,
    {
        out.push(b[i]);
        assert(b@.take(i + 1) =~= b@.take(i as int).push(b@[i as int]));
        i = i + 1;
    }
    assert(b@.take(i as int) =~= b@);
}

/// Reads the big-endian number at `p`.
fn read_be32(b: &Vec<u8>, p: usize) -> (r: u32)
    requires
        p + 4 <= b@.len(),
    ensures
        r == be32_value(b@.skip(p as int)),
{
    let n = b.len();
    ((b[p] as u32) << 24u32) | ((b[p + 1] as u32) << 16u32) | ((b[p + 2] as u32) << 8u32) | (b[p
        + 3] as u32)
}

/// Copies the bytes `start..end` of `b`.
fn copy_range(b: &Vec<u8>, start: usize, end: usize) -> (r: Vec<u8>)
    requires
        start <= end <= b@.len(),
    ensures
        r@ == b@.subrange(start as int, end as int),
{
    let mut r: Vec<u8> = Vec::new();
    let mut i: usize = start;
    while i < end
        invariant
            start <= i <= end,
            end <= b@.len(),
            r@ == b@.subrange(start as int, i as int),
        decreases end - i,
    {
        r.push(b[i]);
        assert(b@.subrange(start as int, i + 1) =~= b@.subrange(start as int, i as int).push(
            b@[i as int],
        ));
        i = i + 1;
    }
    r
}

/// Encodes records in their order.
pub fn encode_records(recs: &Vec<Record>) -> (r: Vec<u8>)
    requires
        lengths_fit(records_view(recs@)),
    ensures
        r@ == encode_all(records_view(recs@)),
{
    let ghost rv = records_view(recs@);
    let mut out: Vec<u8> = Vec::new();
    let mut i: usize = 0;
    assert(rv.take(0) =~= Seq::<(Seq<u8>, Seq<u8>)>::empty());
    while i < recs.len()
        invariant
            i <= recs@.len(),
            rv == records_view(recs@),
            lengths_fit(rv),
            out@ == encode_all(rv.take(i as int)),
        decreases recs@.len() - i,
    {
        let rec = &recs[i];
        assert(rv[i as int] == (rec.0@, rec.1@));
        assert(rv[i as int].0.len() <= u32::MAX && rv[i as int].1.len() <= u32::MAX);
        assert(rec.0@.len() <= u32::MAX && rec.1@.len() <= u32::MAX);
        push_be32(&mut out, rec.0.len() as u32);
        push_bytes(&mut out, &rec.0);
        push_be32(&mut out, rec.1.len() as u32);
        push_bytes(&mut out, &rec.1);
        proof {
            lemma_encode_push(rv.take(i as int), rv[i as int]);
            assert(rv.take(i + 1) =~= rv.take(i as int).push(rv[i as int]));
        }
        assert(out@ =~= encode_all(rv.take(i as int)) + encode_record(rv[i as int]));
        i = i + 1;
    }
    assert(rv.take(i as int) =~= rv);
    out
}

/// Decodes table bytes into a key-sorted record set. A key met twice keeps its
/// later value. Fails with `CorruptData` exactly where a length prefix or the
/// data it announces runs past the end.
pub fn decode_records(bytes: &Vec<u8>) -> (r: Result<Vec<Record>, LsmError>)
    ensures
        match parse(bytes@) {
            Some(s) => r is Ok && keys_sorted(records_view(r->Ok_0@)) && as_map(
                records_view(r->Ok_0@),
            ) == as_map(s),
            None => r == Err::<Vec<Record>, LsmError>(LsmError::CorruptData),
        },
{
    let ghost b = bytes@;
    let mut acc: Vec<Record> = Vec::new();
    let ghost mut done: Seq<(Seq<u8>, Seq<u8>)> = Seq::empty();
    let mut p: usize = 0;
    assert(b.skip(0) =~= b);
    assert(as_map(records_view(acc@)) =~= as_map(done));
    while p < bytes.len()
        invariant
            p <= b.len(),
            b == bytes@,
            keys_sorted(records_view(acc@)),
            as_map(records_view(acc@)) == as_map(done),
            parse(b.skip(p as int)) is None ==> parse(b) is None,
            parse(b.skip(p as int)) is Some ==> parse(b) == Some(
                done + parse(b.skip(p as int))->Some_0,
            ),
        decreases b.len() - p,
    {
        let ghost c = b.skip(p as int);
        let rem = bytes.len() - p;
        if rem < 4 {
            return Err(LsmError::CorruptData);
        }
        let kl = read_be32(bytes, p) as usize;
        assert(be32_value(c) == be32_value(b.skip(p as int)));
        if rem < 8 || kl > rem - 8 {
            return Err(LsmError::CorruptData);
        }
        let kstart = p + 4;
        let kend = kstart + kl;
        let key = copy_range(bytes, kstart, kend);
        let vl = read_be32(bytes, kend) as usize;
        assert(b.skip(kend as int) =~= c.skip(4 + kl));
        if vl > rem - 8 - kl {
            return Err(LsmError::CorruptData);
        }
        let vstart = kend + 4;
        let vend = vstart + vl;
        let value = copy_range(bytes, vstart, vend);
        let ghost rec = (key@, value@);
        assert(c.subrange(4, 4 + kl) =~= key@);
        assert(c.subrange(8 + kl, 8 + kl + vl) =~= value@);
        assert(c.skip(8 + kl + vl) =~= b.skip(vend as int));
        insert_record(&mut acc, key, value);
        proof {
            if parse(b.skip(vend as int)) is Some {
                let rest = parse(b.skip(vend as int))->Some_0;
                assert(done + (seq![rec] + rest) =~= done.push(rec) + rest);
            }
            assert(done.push(rec).drop_last() =~= done);
            done = done.push(rec);
        }
        p = vend;
    }
    assert(b.skip(p as int) =~= Seq::<u8>::empty());
    assert(done + Seq::<(Seq<u8>, Seq<u8>)>::empty() =~= done);
    Ok(acc)
}

} // verus!
