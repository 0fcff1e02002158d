//! The serialized index: byte layout, writer and validating reader.
//!
//! Layout: a four-byte magic tag, a one-byte format version, the entry
//! count as a 32-bit little-endian value, then each entry in turn as
//! key length (32-bit little-endian), key bytes, value length (32-bit
//! little-endian) and value bytes.  A valid image carries its keys in
//! strictly increasing lexicographic order and holds nothing after the
//! last entry.

use vstd::prelude::*;

use crate::bytes::{
    append_bytes, copy_range, lemma_u32_le_round_trip, read_u32_le, u32_from_le, u32_le_bytes,
    write_u32_le,
};
use crate::order::{
    lemma_lex_less_trans, lex_less, lex_less_bytes,
};

verus! {

/// Why opening a serialized index failed.  Open-time failures are fatal to
/// construction: no partially usable dictionary is ever produced.
#[derive(Clone, Copy, PartialEq, Eq, Structural, Debug)]
pub enum OpenError {
    /// The index file is missing.
    NotFound,
    /// The index file cannot be read.
    PermissionDenied,
    /// The byte image fails format validation.
    CorruptFormat,
    /// The header carries a format version this engine does not speak.
    VersionMismatch,
}

/// Why a serialized index could not be written.
#[derive(Clone, Copy, PartialEq, Eq, Structural, Debug)]
pub enum BuildError {
    /// There are not exactly as many values as keys.
    MismatchedCounts,
    /// The entry count, a key or a value exceeds the 32-bit format limit.
    TooLarge,
    /// The keys are not in strictly increasing lexicographic order.
    KeysOutOfOrder,
}

/// The format version this engine reads and writes.
pub const FORMAT_VERSION: u8 = 1;

/// The magic tag that opens every serialized index.
pub open spec fn index_magic() -> Seq<u8> {
    seq![107u8, 118u8, 100u8, 105u8]
}

/// An entry whose key and value lengths fit the 32-bit format fields.
pub open spec fn entry_wf(e: (Seq<u8>, Seq<u8>)) -> bool {
    e.0.len() <= u32::MAX && e.1.len() <= u32::MAX
}

/// Keys in strictly increasing lexicographic order (hence unique).
pub open spec fn entries_sorted(es: Seq<(Seq<u8>, Seq<u8>)>) -> bool {
    forall|i: int, j: int|
        0 <= i < j < es.len() ==> #[trigger] lex_less(es[i].0, es[j].0)
}

/// Each key lexicographically below its successor.
pub open spec fn entries_sorted_adjacent(es: Seq<(Seq<u8>, Seq<u8>)>) -> bool {
    forall|i: int| 0 <= i && i + 1 < es.len() ==> lex_less((#[trigger] es[i]).0, es[i + 1].0)
}

/// A well-formed entry sequence: serializable and strictly sorted.
pub open spec fn entries_wf(es: Seq<(Seq<u8>, Seq<u8>)>) -> bool {
    &&& es.len() <= u32::MAX
    &&& forall|i: int| 0 <= i < es.len() ==> entry_wf(#[trigger] es[i])
    &&& entries_sorted(es)
}

/// The entry sequence read off parallel key and value arrays.
pub open spec fn entries_of(keys: Seq<Vec<u8>>, values: Seq<Vec<u8>>) -> Seq<(Seq<u8>, Seq<u8>)> {
    Seq::new(keys.len(), |i: int| (keys[i]@, values[i]@))
}

/// A key below its successor everywhere implies the full sorted order.
pub proof fn lemma_adjacent_implies_sorted(es: Seq<(Seq<u8>, Seq<u8>)>)
    requires
        entries_sorted_adjacent(es),
    ensures
        entries_sorted(es),
{
    assert forall|i: int, j: int| 0 <= i < j < es.len() implies #[trigger] lex_less(
        es[i].0,
        es[j].0,
    ) by {
        lemma_sorted_span(es, i, j);
    }
}

proof fn lemma_sorted_span(es: Seq<(Seq<u8>, Seq<u8>)>, i: int, j: int)
    requires
        entries_sorted_adjacent(es),
        0 <= i < j < es.len(),
    ensures
        lex_less(es[i].0, es[j].0),
    decreases j - i,
{
    if i + 1 == j {
    } else {
        lemma_sorted_span(es, i, j - 1);
        lemma_lex_less_trans(es[i].0, es[j - 1].0, es[j].0);
    }
}

/// The bytes of one entry: both lengths 32-bit little-endian.
pub open spec fn serialize_entry(e: (Seq<u8>, Seq<u8>)) -> Seq<u8> {
    u32_le_bytes(e.0.len() as u32) + e.0 + u32_le_bytes(e.1.len() as u32) + e.1
}

/// The bytes of an entry sequence, in order.
pub open spec fn serialize_entries(es: Seq<(Seq<u8>, Seq<u8>)>) -> Seq<u8>
    decreases es.len(),
{
    if es.len() == 0 {
        Seq::empty()
    } else {
        serialize_entry(es[0]) + serialize_entries(es.skip(1))
    }
}

/// The full serialized image: magic, version, count, entries.
pub open spec fn serialize_index(es: Seq<(Seq<u8>, Seq<u8>)>) -> Seq<u8> {
    index_magic() + seq![FORMAT_VERSION] + u32_le_bytes(es.len() as u32) + serialize_entries(es)
}

/// One entry read off the front of `b`, with the bytes that follow it.
pub open spec fn parse_entry(b: Seq<u8>) -> Option<((Seq<u8>, Seq<u8>), Seq<u8>)> {
    if b.len() < 4 {
        Option::None
    } else {
        let kl = u32_from_le(b[0], b[1], b[2], b[3]) as int;
        if b.len() < 4 + kl + 4 {
            Option::None
        } else {
            let key = b.subrange(4, 4 + kl);
            let vl = u32_from_le(b[4 + kl], b[5 + kl], b[6 + kl], b[7 + kl]) as int;
            if b.len() < 8 + kl + vl {
                Option::None
            } else {
                Option::Some(((key, b.subrange(8 + kl, 8 + kl + vl)), b.skip(8 + kl + vl)))
            }
        }
    }
}

/// Exactly `n` entries read off `b`, which they must consume whole.
pub open spec fn parse_entries(b: Seq<u8>, n: nat) -> Option<Seq<(Seq<u8>, Seq<u8>)>>
    decreases n,
{
    if n == 0 {
        if b.len() == 0 {
            Option::Some(Seq::empty())
        } else {
            Option::None
        }
    } else {
        match parse_entry(b) {
            Option::None => Option::None,
            Option::Some(p) => match parse_entries(p.1, (n - 1) as nat) {
                Option::None => Option::None,
                Option::Some(rest) => Option::Some(seq![p.0] + rest),
            },
        }
    }
}

/// Whether `b` is long enough for a header and opens with the magic tag.
pub open spec fn header_ok(b: Seq<u8>) -> bool {
    b.len() >= 9 && b.subrange(0, 4) == index_magic()
}

/// The entry count stored in the header.
pub open spec fn stored_count(b: Seq<u8>) -> nat {
    u32_from_le(b[5], b[6], b[7], b[8]) as nat
}

/// The entries of a valid serialized image; `None` for any invalid one.
pub open spec fn parse_index(b: Seq<u8>) -> Option<Seq<(Seq<u8>, Seq<u8>)>> {
    if !header_ok(b) || b[4] != FORMAT_VERSION {
        Option::None
    } else {
        match parse_entries(b.skip(9), stored_count(b)) {
            Option::None => Option::None,
            Option::Some(es) => if entries_sorted(es) {
                Option::Some(es)
            } else {
                Option::None
            },
        }
    }
}

/// Reading back one serialized entry yields the entry and the trailing bytes.
pub proof fn lemma_parse_serialize_entry(e: (Seq<u8>, Seq<u8>), rest: Seq<u8>)
    requires
        entry_wf(e),
    ensures
        parse_entry(serialize_entry(e) + rest) == Option::Some((e, rest)),
{
    let b = serialize_entry(e) + rest;
    let kl = e.0.len() as int;
    let vl = e.1.len() as int;
    lemma_u32_le_round_trip(e.0.len() as u32);
    lemma_u32_le_round_trip(e.1.len() as u32);
    assert(b[0] == u32_le_bytes(e.0.len() as u32)[0]);
    assert(b[1] == u32_le_bytes(e.0.len() as u32)[1]);
    assert(b[2] == u32_le_bytes(e.0.len() as u32)[2]);
    assert(b[3] == u32_le_bytes(e.0.len() as u32)[3]);
    assert(u32_from_le(b[0], b[1], b[2], b[3]) == kl);
    assert(b[4 + kl] == u32_le_bytes(e.1.len() as u32)[0]);
    assert(b[5 + kl] == u32_le_bytes(e.1.len() as u32)[1]);
    assert(b[6 + kl] == u32_le_bytes(e.1.len() as u32)[2]);
    assert(b[7 + kl] == u32_le_bytes(e.1.len() as u32)[3]);
    assert(u32_from_le(b[4 + kl], b[5 + kl], b[6 + kl], b[7 + kl]) == vl);
    assert(b.subrange(4, 4 + kl) =~= e.0);
    assert(b.subrange(8 + kl, 8 + kl + vl) =~= e.1);
    assert(b.skip(8 + kl + vl) =~= rest);
}

/// Reading back a serialized entry sequence yields the sequence.
pub proof fn lemma_parse_serialize_entries(es: Seq<(Seq<u8>, Seq<u8>)>)
    requires
        forall|i: int| 0 <= i < es.len() ==> entry_wf(#[trigger] es[i]),
    ensures
        parse_entries(serialize_entries(es), es.len()) == Option::Some(es),
    decreases es.len(),
{
    if es.len() == 0 {
        assert(serialize_entries(es).len() == 0);
        assert(parse_entries(serialize_entries(es), 0) =~= Option::Some(Seq::<(
            Seq<u8>,
            Seq<u8>,
        )>::empty()));
        assert(es =~= Seq::<(Seq<u8>, Seq<u8>)>::empty());
    } else {
        let tail = es.skip(1);
        lemma_parse_serialize_entry(es[0], serialize_entries(tail));
        lemma_parse_serialize_entries(tail);
        assert(seq![es[0]] + tail =~= es);
    }
}

/// Reading back a serialized index yields exactly the entries written.
pub proof fn lemma_parse_serialize_index(es: Seq<(Seq<u8>, Seq<u8>)>)
    requires
        entries_wf(es),
    ensures
        parse_index(serialize_index(es)) == Option::Some(es),
{
    let b = serialize_index(es);
    let header = index_magic() + seq![FORMAT_VERSION] + u32_le_bytes(es.len() as u32);
    lemma_u32_le_round_trip(es.len() as u32);
    assert(b.subrange(0, 4) =~= index_magic());
    assert(b[4] == FORMAT_VERSION);
    assert(b[5] == u32_le_bytes(es.len() as u32)[0]);
    assert(b[6] == u32_le_bytes(es.len() as u32)[1]);
    assert(b[7] == u32_le_bytes(es.len() as u32)[2]);
    assert(b[8] == u32_le_bytes(es.len() as u32)[3]);
    assert(stored_count(b) == es.len());
    assert(b.skip(9) =~= serialize_entries(es));
    lemma_parse_serialize_entries(es);
}

/// Appending an entry appends its bytes.
pub proof fn lemma_serialize_entries_push(es: Seq<(Seq<u8>, Seq<u8>)>, e: (Seq<u8>, Seq<u8>))
    ensures
        serialize_entries(es.push(e)) == serialize_entries(es) + serialize_entry(e),
    decreases es.len(),
{
    if es.len() == 0 {
        let single = es.push(e);
        assert(single[0] == e);
        assert(single.skip(1) =~= Seq::<(Seq<u8>, Seq<u8>)>::empty());
        assert(serialize_entries(single.skip(1)) == Seq::<u8>::empty());
        assert(serialize_entries(single) == serialize_entry(e) + serialize_entries(single.skip(1)));
        assert(serialize_entries(es) == Seq::<u8>::empty());
        assert(serialize_entry(e) + Seq::<u8>::empty() =~= Seq::<u8>::empty() + serialize_entry(e));
    } else {
        assert(es.push(e).skip(1) =~= es.skip(1).push(e));
        lemma_serialize_entries_push(es.skip(1), e);
        assert(serialize_entry(es[0]) + (serialize_entries(es.skip(1)) + serialize_entry(e))
            =~= (serialize_entry(es[0]) + serialize_entries(es.skip(1))) + serialize_entry(e));
    }
}

/// Entry count, key lengths and value lengths all fit the 32-bit fields.
pub open spec fn entries_sizes_ok(es: Seq<(Seq<u8>, Seq<u8>)>) -> bool {
    es.len() <= u32::MAX && forall|i: int| 0 <= i < es.len() ==> entry_wf(#[trigger] es[i])
}

/// The entries of `rest`, if any, appended to the already parsed `done`.
pub open spec fn chain(
    done: Seq<(Seq<u8>, Seq<u8>)>,
    rest: Option<Seq<(Seq<u8>, Seq<u8>)>>,
) -> Option<Seq<(Seq<u8>, Seq<u8>)>> {
    match rest {
        Option::None => Option::None,
        Option::Some(r) => Option::Some(done + r),
    }
}

/// Validates parallel key and value arrays and writes their serialized
/// image: `Ok` exactly when the counts agree, every length fits the
/// format, and the keys are strictly increasing.
pub fn build_index(keys: &Vec<Vec<u8>>, values: &Vec<Vec<u8>>) -> (r: Result<Vec<u8>, BuildError>)
    ensures
        r is Ok <==> keys@.len() == values@.len() && entries_wf(entries_of(keys@, values@)),
        r matches Ok(image) ==> image@ == serialize_index(entries_of(keys@, values@)),
        r == Err::<Vec<u8>, BuildError>(BuildError::MismatchedCounts) <==> keys@.len()
            != values@.len(),
        r == Err::<Vec<u8>, BuildError>(BuildError::TooLarge) <==> keys@.len() == values@.len()
            && !entries_sizes_ok(entries_of(keys@, values@)),
        r == Err::<Vec<u8>, BuildError>(BuildError::KeysOutOfOrder) <==> keys@.len()
            == values@.len() && entries_sizes_ok(entries_of(keys@, values@)) && !entries_sorted(
            entries_of(keys@, values@),
        ),
{
    let ghost es = entries_of(keys@, values@);
    let n = keys.len();
    if n != values.len() {
        return Err(BuildError::MismatchedCounts);
    }
    if n > u32::MAX as usize {
        return Err(BuildError::TooLarge);
    }
    let mut i: usize = 0;
    while i < n
        invariant
            i <= n,
            n == keys@.len() == values@.len(),
            es == entries_of(keys@, values@),
            forall|j: int| 0 <= j < i ==> entry_wf(#[trigger] es[j]),
        decreases n - i,
    {
        if keys[i].len() > u32::MAX as usize || values[i].len() > u32::MAX as usize {
            proof {
                assert(es[i as int] == (keys@[i as int]@, values@[i as int]@));
                assert(!entry_wf(es[i as int]));
            }
            return Err(BuildError::TooLarge);
        }
        proof {
            assert(es[i as int] == (keys@[i as int]@, values@[i as int]@));
        }
        i += 1;
    }
    let mut i: usize = 1;
    while i < n
        invariant
            1 <= i <= n || n == 0,
            n == keys@.len() == values@.len(),
            es == entries_of(keys@, values@),
            entries_sizes_ok(es),
            forall|j: int| 0 <= j && j + 1 < i ==> lex_less((#[trigger] es[j]).0, es[j + 1].0),
        decreases n - i,
    {
        if !lex_less_bytes(&keys[i - 1], &keys[i]) {
            proof {
                assert(es[i - 1].0 == keys@[i - 1]@);
                assert(es[i as int].0 == keys@[i as int]@);
                assert(!entries_sorted(es)) by {
                    if entries_sorted(es) {
                        assert(lex_less(es[i - 1].0, es[i as int].0));
                    }
                }
            }
            return Err(BuildError::KeysOutOfOrder);
        }
        proof {
            assert(es[i - 1].0 == keys@[i - 1]@);
            assert(es[i as int].0 == keys@[i as int]@);
        }
        i += 1;
    }
    proof {
        lemma_adjacent_implies_sorted(es);
    }
    let mut out: Vec<u8> = Vec::new();
    out.push(107);
    out.push(118);
    out.push(100);
    out.push(105);
    out.push(FORMAT_VERSION);
    write_u32_le(&mut out, n as u32);
    let ghost header = index_magic() + seq![FORMAT_VERSION] + u32_le_bytes(n as u32);
    proof {
        assert(out@ =~= header);
        assert(es.take(0) =~= Seq::<(Seq<u8>, Seq<u8>)>::empty());
    }
    let mut i: usize = 0;
    while i < n
        invariant
            i <= n,
            n == keys@.len() == values@.len(),
            es == entries_of(keys@, values@),
            forall|j: int| 0 <= j < n ==> entry_wf(#[trigger] es[j]),
            out@ == header + serialize_entries(es.take(i as int)),
        decreases n - i,
    {
        proof {
            assert(es[i as int] == (keys@[i as int]@, values@[i as int]@));
        }
        write_u32_le(&mut out, keys[i].len() as u32);
        append_bytes(&mut out, &keys[i]);
        write_u32_le(&mut out, values[i].len() as u32);
        append_bytes(&mut out, &values[i]);
        proof {
            lemma_serialize_entries_push(es.take(i as int), es[i as int]);
            assert(es.take(i as int).push(es[i as int]) =~= es.take(i + 1));
            assert(out@ =~= header + serialize_entries(es.take(i + 1)));
        }
        i += 1;
    }
    proof {
        assert(es.take(n as int) =~= es);
        assert(out@ =~= serialize_index(es));
    }
    Ok(out)
}

/// Reads a serialized image back into parallel key and value arrays:
/// `Ok` exactly on the images the parser accepts, `VersionMismatch` on a
/// well-tagged image of another version, `CorruptFormat` otherwise.
pub fn parse_index_bytes(data: &Vec<u8>) -> (r: Result<(Vec<Vec<u8>>, Vec<Vec<u8>>), OpenError>)
    ensures
        r is Ok <==> parse_index(data@) is Some,
        r matches Ok(kv) ==> kv.0@.len() == kv.1@.len() && parse_index(data@) == Option::Some(
            entries_of(kv.0@, kv.1@),
        ),
        r matches Err(e) ==> (e == OpenError::VersionMismatch <==> header_ok(data@) && data@[4]
            != FORMAT_VERSION),
        r matches Err(e) ==> (e == OpenError::CorruptFormat <==> !(header_ok(data@) && data@[4]
            != FORMAT_VERSION)),
{
    let n = data.len();
    if n < 9 {
        return Err(OpenError::CorruptFormat);
    }
    if data[0] != 107 || data[1] != 118 || data[2] != 100 || data[3] != 105 {
        proof {
            assert(data@.subrange(0, 4)[0] == data@[0]);
            assert(data@.subrange(0, 4)[1] == data@[1]);
            assert(data@.subrange(0, 4)[2] == data@[2]);
            assert(data@.subrange(0, 4)[3] == data@[3]);
        }
        return Err(OpenError::CorruptFormat);
    }
    proof {
        assert(data@.subrange(0, 4) =~= index_magic());
    }
    if data[4] != FORMAT_VERSION {
        return Err(OpenError::VersionMismatch);
    }
    let count = read_u32_le(data, 5);
    let mut ks: Vec<Vec<u8>> = Vec::new();
    let mut vs: Vec<Vec<u8>> = Vec::new();
    let mut pos: usize = 9;
    let mut i: u32 = 0;
    while i < count
        invariant
            9 <= pos <= n,
            n == data@.len(),
            i <= count,
            header_ok(data@),
            data@[4] == FORMAT_VERSION,
            count as nat == stored_count(data@),
            ks@.len() == i,
            vs@.len() == i,
            parse_entries(data@.skip(9), count as nat) == chain(
                entries_of(ks@, vs@),
                parse_entries(data@.skip(pos as int), (count - i) as nat),
            ),
        decreases count - i,
    {
        let ghost done = entries_of(ks@, vs@);
        let rem = n - pos;
        if rem < 8 {
            return Err(OpenError::CorruptFormat);
        }
        let kl32 = read_u32_le(data, pos);
        let kl = kl32 as usize;
        if kl > rem - 8 {
            return Err(OpenError::CorruptFormat);
        }
        let key = copy_range(data, pos + 4, kl);
        let vl32 = read_u32_le(data, pos + 4 + kl);
        let vl = vl32 as usize;
        let rem2 = rem - 8 - kl;
        if vl > rem2 {
            return Err(OpenError::CorruptFormat);
        }
        let value = copy_range(data, pos + 8 + kl, vl);
        let new_pos = pos + 8 + kl + vl;
        proof {
            let b = data@.skip(pos as int);
            assert(b[0] == data@[pos as int]);
            assert(b[1] == data@[pos + 1]);
            assert(b[2] == data@[pos + 2]);
            assert(b[3] == data@[pos + 3]);
            assert(b[4 + kl] == data@[pos + 4 + kl]);
            assert(b[5 + kl] == data@[pos + 4 + kl + 1]);
            assert(b[6 + kl] == data@[pos + 4 + kl + 2]);
            assert(b[7 + kl] == data@[pos + 4 + kl + 3]);
            assert(b.subrange(4, 4 + kl) =~= data@.subrange(pos + 4, pos + 4 + kl));
            assert(b.subrange(8 + kl, 8 + kl + vl) =~= data@.subrange(
                pos + 8 + kl,
                pos + 8 + kl + vl,
            ));
            assert(b.skip(8 + kl + vl) =~= data@.skip(new_pos as int));
            assert(parse_entry(b) == Option::Some(
                ((key@, value@), data@.skip(new_pos as int)),
            ));
        }
        ks.push(key);
        vs.push(value);
        proof {
            assert(entries_of(ks@, vs@) =~= done + seq![(key@, value@)]);
            let rest_opt = parse_entries(data@.skip(new_pos as int), (count - i - 1) as nat);
            if rest_opt is Some {
                assert(done + (seq![(key@, value@)] + rest_opt->Some_0) =~= (done + seq![
                    (key@, value@),
                ]) + rest_opt->Some_0);
            }
        }
        pos = new_pos;
        i = i + 1;
    }
    if pos != n {
        return Err(OpenError::CorruptFormat);
    }
    proof {
        assert(data@.skip(pos as int).len() == 0);
        assert(entries_of(ks@, vs@) + Seq::<(Seq<u8>, Seq<u8>)>::empty() =~= entries_of(ks@, vs@));
    }
    let m = ks.len();
    let mut j: usize = 1;
    while j < m
        invariant
            1 <= j <= m || m == 0,
            m == ks@.len() == vs@.len(),
            header_ok(data@),
            data@[4] == FORMAT_VERSION,
            parse_entries(data@.skip(9), stored_count(data@)) == Option::Some(
                entries_of(ks@, vs@),
            ),
            forall|t: int|
                0 <= t && t + 1 < j ==> lex_less(
                    (#[trigger] entries_of(ks@, vs@)[t]).0,
                    entries_of(ks@, vs@)[t + 1].0,
                ),
        decreases m - j,
    {
        if !lex_less_bytes(&ks[j - 1], &ks[j]) {
            proof {
                let es2 = entries_of(ks@, vs@);
                assert(es2[j - 1].0 == ks@[j - 1]@);
                assert(es2[j as int].0 == ks@[j as int]@);
                assert(!entries_sorted(es2)) by {
                    if entries_sorted(es2) {
                        assert(lex_less(es2[j - 1].0, es2[j as int].0));
                    }
                }
            }
            return Err(OpenError::CorruptFormat);
        }
        proof {
            assert((#[trigger] entries_of(ks@, vs@)[j - 1]).0 == ks@[j - 1]@);
            assert(entries_of(ks@, vs@)[j as int].0 == ks@[j as int]@);
        }
        j += 1;
    }
    proof {
        lemma_adjacent_implies_sorted(entries_of(ks@, vs@));
    }
    Ok((ks, vs))
}

} // verus!
