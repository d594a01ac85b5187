//! The snapshot codec: a flat encoding of an ordered sequence of records.
//!
//! A snapshot is the number of records followed by the records in order.
//! A record is its key, in UTF-8, followed by its payload. Each of the two
//! is written as its length followed by its bytes. Every number is an
//! unsigned 64-bit integer, least significant byte first.

use crate::error::StoreError;
use crate::record::{views, Paste, PasteView};
use crate::text::text_from_utf8;
use vstd::bytes::{
    lemma_auto_spec_u64_to_from_le_bytes, spec_u64_from_le_bytes, spec_u64_to_le_bytes,
    u64_from_le_bytes, u64_to_le_bytes,
};
use vstd::prelude::*;
use vstd::slice::{slice_subrange, slice_to_vec};
use vstd::utf8::{
    decode_utf8, decode_utf8_encode_utf8, encode_utf8, encode_utf8_decode_utf8,
    encode_utf8_valid_utf8, valid_utf8,
};

verus! {

/// The eight bytes that stand for the number `n`.
pub open spec fn length_prefix(n: nat) -> Seq<u8> {
    spec_u64_to_le_bytes(n as u64)
}

/// A run of bytes, preceded by its length.
pub open spec fn field_encoding(b: Seq<u8>) -> Seq<u8> {
    length_prefix(b.len()) + b
}

/// A record: its key in UTF-8, then its payload, each as a field.
pub open spec fn record_encoding(e: PasteView) -> Seq<u8> {
    field_encoding(encode_utf8(e.title)) + field_encoding(e.content)
}

/// The records of `s`, one after the other.
pub open spec fn records_encoding(s: Seq<PasteView>) -> Seq<u8>
    decreases s.len(),
{
    if s.len() == 0 {
        Seq::empty()
    } else {
        records_encoding(s.drop_last()) + record_encoding(s.last())
    }
}

/// The snapshot of `s`: the number of its records, then the records.
pub open spec fn encoding(s: Seq<PasteView>) -> Seq<u8> {
    length_prefix(s.len()) + records_encoding(s)
}

/// The lengths of the key, in UTF-8, and of the payload fit the eight bytes
/// in which they are written.
pub open spec fn encodable_record(e: PasteView) -> bool {
    &&& encode_utf8(e.title).len() <= u64::MAX
    &&& e.content.len() <= u64::MAX
}

/// Every length that the snapshot of `s` holds fits the eight bytes in
/// which it is written. This is so of whatever a machine can hold.
pub open spec fn encodable(s: Seq<PasteView>) -> bool {
    &&& s.len() <= u64::MAX
    &&& forall|i: int| 0 <= i < s.len() ==> encodable_record(#[trigger] s[i])
}

/// `bytes` is the snapshot of `s`.
pub open spec fn is_encoding_of(bytes: Seq<u8>, s: Seq<PasteView>) -> bool {
    encodable(s) && encoding(s) == bytes
}

/// The records of which `bytes` is the snapshot, if it is one.
pub open spec fn decoding(bytes: Seq<u8>) -> Option<Seq<PasteView>> {
    if exists|s: Seq<PasteView>| is_encoding_of(bytes, s) {
        Some(choose|s: Seq<PasteView>| is_encoding_of(bytes, s))
    } else {
        None
    }
}

/// The field that starts at `pos`, with the position that follows it.
spec fn field_at(bytes: Seq<u8>, pos: int) -> Option<(Seq<u8>, int)> {
    if pos + 8 <= bytes.len() {
        let n = spec_u64_from_le_bytes(bytes.subrange(pos, pos + 8));
        if pos + 8 + n <= bytes.len() {
            Some((bytes.subrange(pos + 8, pos + 8 + n), pos + 8 + n))
        } else {
            None
        }
    } else {
        None
    }
}

/// The record that starts at `pos`, with the position that follows it.
spec fn record_at(bytes: Seq<u8>, pos: int) -> Option<(PasteView, int)> {
    match field_at(bytes, pos) {
        Some((key, mid)) => match field_at(bytes, mid) {
            Some((content, end)) => if valid_utf8(key) {
                Some((PasteView { title: decode_utf8(key), content }, end))
            } else {
                None
            },
            None => None,
        },
        None => None,
    }
}

/// A length prefix has eight bytes, from which the length can be read back.
proof fn lemma_length_prefix(n: nat)
    requires
        n <= u64::MAX,
    ensures
        length_prefix(n).len() == 8,
        spec_u64_from_le_bytes(length_prefix(n)) == n,
{
    lemma_auto_spec_u64_to_from_le_bytes();
}

/// A field that stands between two runs of bytes is read back whole.
proof fn lemma_field_at_complete(prefix: Seq<u8>, b: Seq<u8>, suffix: Seq<u8>)
    requires
        b.len() <= u64::MAX,
    ensures
        field_at(prefix + field_encoding(b) + suffix, prefix.len() as int) == Some(
            (b, (prefix.len() + 8 + b.len()) as int),
        ),
        field_encoding(b).len() == 8 + b.len(),
{
    let bytes = prefix + field_encoding(b) + suffix;
    let pos = prefix.len() as int;
    lemma_length_prefix(b.len());
    assert(bytes.subrange(pos, pos + 8) =~= length_prefix(b.len()));
    assert(bytes.subrange(pos + 8, pos + 8 + b.len()) =~= b);
}

/// What is read as a field is the encoding of that field.
proof fn lemma_field_at_sound(bytes: Seq<u8>, pos: int)
    requires
        0 <= pos,
        field_at(bytes, pos) is Some,
    ensures
        ({
            let (b, end) = field_at(bytes, pos)->0;
            &&& end == pos + 8 + b.len()
            &&& end <= bytes.len()
            &&& b.len() <= u64::MAX
            &&& bytes.subrange(pos, end) == field_encoding(b)
        }),
{
    let (b, end) = field_at(bytes, pos)->0;
    let head = bytes.subrange(pos, pos + 8);
    lemma_auto_spec_u64_to_from_le_bytes();
    assert(spec_u64_to_le_bytes(spec_u64_from_le_bytes(head)) == head);
    assert(bytes.subrange(pos, end) =~= field_encoding(b));
}

/// A record that stands between two runs of bytes is read back whole.
proof fn lemma_record_at_complete(prefix: Seq<u8>, e: PasteView, suffix: Seq<u8>)
    requires
        encodable_record(e),
    ensures
        record_at(prefix + record_encoding(e) + suffix, prefix.len() as int) == Some(
            (e, (prefix.len() + record_encoding(e).len()) as int),
        ),
{
    let key = encode_utf8(e.title);
    let bytes = prefix + record_encoding(e) + suffix;
    let first = field_encoding(key);
    let second = field_encoding(e.content);
    lemma_field_at_complete(prefix, key, second + suffix);
    assert(bytes =~= prefix + first + (second + suffix));
    lemma_field_at_complete(prefix + first, e.content, suffix);
    assert(bytes =~= (prefix + first) + second + suffix);
    encode_utf8_valid_utf8(e.title);
    encode_utf8_decode_utf8(e.title);
}

/// What is read as a record is the encoding of that record.
proof fn lemma_record_at_sound(bytes: Seq<u8>, pos: int)
    requires
        0 <= pos,
        record_at(bytes, pos) is Some,
    ensures
        ({
            let (e, end) = record_at(bytes, pos)->0;
            &&& pos <= end <= bytes.len()
            &&& encodable_record(e)
            &&& bytes.subrange(pos, end) == record_encoding(e)
        }),
{
    let (key, mid) = field_at(bytes, pos)->0;
    let (content, end) = field_at(bytes, mid)->0;
    lemma_field_at_sound(bytes, pos);
    lemma_field_at_sound(bytes, mid);
    decode_utf8_encode_utf8(key);
    assert(bytes.subrange(pos, end) =~= bytes.subrange(pos, mid) + bytes.subrange(mid, end));
}

/// The encoding of two runs of records is that of the first followed by
/// that of the second.
proof fn lemma_records_encoding_add(a: Seq<PasteView>, b: Seq<PasteView>)
    ensures
        records_encoding(a + b) == records_encoding(a) + records_encoding(b),
    decreases b.len(),
{
    if b.len() == 0 {
        assert(a + b =~= a);
        assert(records_encoding(a) + records_encoding(b) =~= records_encoding(a));
    } else {
        lemma_records_encoding_add(a, b.drop_last());
        assert((a + b).drop_last() =~= a + b.drop_last());
        assert((a + b).last() == b.last());
        assert(records_encoding(a + b) =~= records_encoding(a) + records_encoding(b));
    }
}

/// The encoding of one record more.
proof fn lemma_records_encoding_push(s: Seq<PasteView>, e: PasteView)
    ensures
        records_encoding(s.push(e)) == records_encoding(s) + record_encoding(e),
{
    assert(s.push(e).drop_last() =~= s);
}

/// In the snapshot of `s`, the record at place `i` is read back from where
/// the records before it end.
proof fn lemma_record_in_encoding(s: Seq<PasteView>, i: int)
    requires
        encodable(s),
        0 <= i < s.len(),
    ensures
        record_at(encoding(s), 8 + records_encoding(s.take(i)).len() as int) == Some(
            (s[i], 8 + records_encoding(s.take(i + 1)).len() as int),
        ),
{
    let before = s.take(i);
    let after = s.skip(i + 1);
    let prefix = length_prefix(s.len()) + records_encoding(before);
    lemma_length_prefix(s.len());
    assert(s =~= before.push(s[i]) + after);
    assert(s.take(i + 1) =~= before.push(s[i]));
    lemma_records_encoding_add(before.push(s[i]), after);
    lemma_records_encoding_push(before, s[i]);
    assert(encoding(s) =~= prefix + record_encoding(s[i]) + records_encoding(after));
    lemma_record_at_complete(prefix, s[i], records_encoding(after));
}

/// The snapshot of `s` says how many records `s` has, and is as long as
/// the count and the records together.
proof fn lemma_encoding_count(s: Seq<PasteView>)
    requires
        encodable(s),
    ensures
        encoding(s).len() == 8 + records_encoding(s).len(),
        spec_u64_from_le_bytes(encoding(s).subrange(0, 8)) == s.len(),
{
    lemma_length_prefix(s.len());
    assert(encoding(s).subrange(0, 8) =~= length_prefix(s.len()));
}

/// Two sequences of records with the same snapshot agree on their first
/// `i` records.
proof fn lemma_same_encoding_same_prefix(a: Seq<PasteView>, b: Seq<PasteView>, i: int)
    requires
        encodable(a),
        encodable(b),
        encoding(a) == encoding(b),
        0 <= i <= a.len(),
    ensures
        a.len() == b.len(),
        a.take(i) == b.take(i),
    decreases i,
{
    lemma_encoding_count(a);
    lemma_encoding_count(b);
    if i == 0 {
        assert(a.take(0) =~= b.take(0));
    } else {
        lemma_same_encoding_same_prefix(a, b, i - 1);
        lemma_record_in_encoding(a, i - 1);
        lemma_record_in_encoding(b, i - 1);
        assert(a.take(i) =~= a.take(i - 1).push(a[i - 1]));
        assert(b.take(i) =~= b.take(i - 1).push(b[i - 1]));
    }
}

/// No two sequences of records have the same snapshot.
pub proof fn lemma_encoding_is_injective(a: Seq<PasteView>, b: Seq<PasteView>)
    requires
        encodable(a),
        encodable(b),
        encoding(a) == encoding(b),
    ensures
        a == b,
{
    lemma_same_encoding_same_prefix(a, b, a.len() as int);
    assert(a.take(a.len() as int) =~= a);
    assert(b.take(b.len() as int) =~= b);
}

/// The round trip: decoding the snapshot of `s` gives `s` back, with every
/// record in its place and every key and payload as it was.
pub proof fn lemma_round_trip(s: Seq<PasteView>)
    requires
        encodable(s),
    ensures
        decoding(encoding(s)) == Some(s),
{
    assert(is_encoding_of(encoding(s), s));
    let t = choose|t: Seq<PasteView>| is_encoding_of(encoding(s), t);
    lemma_encoding_is_injective(s, t);
}

/// Bytes too short to hold a count are no snapshot.
pub proof fn lemma_short_bytes_are_no_snapshot(bytes: Seq<u8>)
    requires
        bytes.len() < 8,
    ensures
        decoding(bytes) is None,
{
    assert forall|s: Seq<PasteView>| !is_encoding_of(bytes, s) by {
        if encodable(s) {
            lemma_encoding_count(s);
        }
    }
}

/// What decoding gives is what was encoded: the bytes are its snapshot.
pub proof fn lemma_decoding_is_exact(bytes: Seq<u8>)
    ensures
        decoding(bytes) matches Some(s) ==> is_encoding_of(bytes, s),
        decoding(bytes) is None ==> forall|s: Seq<PasteView>| !is_encoding_of(bytes, s),
{
}

/// Appends the field that holds `b` to `out`.
fn write_field(out: &mut Vec<u8>, b: &[u8])
    ensures
        final(out)@ == old(out)@ + field_encoding(b@),
        b@.len() <= u64::MAX,
{
    let mut prefix = u64_to_le_bytes(b.len() as u64);
    out.append(&mut prefix);
    out.extend_from_slice(b);
    proof {
        assert(out@ =~= old(out)@ + field_encoding(b@));
    }
}

/// Reads the field that starts at `pos`.
fn read_field(bytes: &[u8], pos: usize) -> (found: Option<(Vec<u8>, usize)>)
    requires
        pos <= bytes@.len(),
    ensures
        match found {
            Some((b, end)) => field_at(bytes@, pos as int) == Some((b@, end as int)),
            None => field_at(bytes@, pos as int) is None,
        },
{
    if bytes.len() - pos < 8 {
        return None;
    }
    let n = u64_from_le_bytes(slice_subrange(bytes, pos, pos + 8));
    let rest = bytes.len() - pos - 8;
    if n > rest as u64 {
        return None;
    }
    let end = pos + 8 + n as usize;
    Some((slice_to_vec(slice_subrange(bytes, pos + 8, end)), end))
}

/// Reads the record that starts at `pos`.
fn read_record(bytes: &[u8], pos: usize) -> (found: Option<(Paste, usize)>)
    requires
        pos <= bytes@.len(),
    ensures
        match found {
            Some((paste, end)) => record_at(bytes@, pos as int) == Some((paste@, end as int)),
            None => record_at(bytes@, pos as int) is None,
        },
{
    let (key, mid) = match read_field(bytes, pos) {
        Some(field) => field,
        None => {
            return None;
        },
    };
    proof {
        lemma_field_at_sound(bytes@, pos as int);
    }
    let (content, end) = match read_field(bytes, mid) {
        Some(field) => field,
        None => {
            return None;
        },
    };
    match text_from_utf8(key) {
        Some(title) => {
            proof {
                encode_utf8_decode_utf8(title@);
            }
            Some((Paste { title, content }, end))
        },
        None => None,
    }
}

/// Encodes `pastes`, in their order, as a snapshot.
pub fn encode(pastes: &[Paste]) -> (bytes: Vec<u8>)
    ensures
        is_encoding_of(bytes@, views(pastes@)),
{
    let ghost all = views(pastes@);
    let mut out = u64_to_le_bytes(pastes.len() as u64);
    let mut i: usize = 0;
    proof {
        assert(all.take(0) =~= Seq::empty());
        assert(out@ =~= length_prefix(all.len()) + records_encoding(all.take(0)));
    }
    while i < pastes.len()
        invariant
            i <= pastes@.len(),
            all == views(pastes@),
            out@ == length_prefix(all.len()) + records_encoding(all.take(i as int)),
            forall|k: int| 0 <= k < i ==> encodable_record(#[trigger] all[k]),
        decreases pastes@.len() - i,
    {
        let ghost before = out@;
        write_field(&mut out, pastes[i].title.as_str().as_bytes());
        write_field(&mut out, pastes[i].content.as_slice());
        proof {
            let e = all[i as int];
            assert(all.take(i + 1) =~= all.take(i as int).push(e));
            lemma_records_encoding_push(all.take(i as int), e);
            assert(out@ =~= before + record_encoding(e));
        }
        i += 1;
    }
    proof {
        assert(all.take(i as int) =~= all);
    }
    out
}

/// Decodes a snapshot: the records are given back in their order where
/// `bytes` is the snapshot of some records, and the bytes are refused as
/// corrupt where they are not.
pub fn decode(bytes: &[u8]) -> (decoded: Result<Vec<Paste>, StoreError>)
    ensures
        match decoded {
            Ok(pastes) => decoding(bytes@) == Some(views(pastes@)),
            Err(e) => e == StoreError::CorruptSnapshot && decoding(bytes@) is None,
        },
{
    if bytes.len() < 8 {
        proof {
            lemma_short_bytes_are_no_snapshot(bytes@);
        }
        return Err(StoreError::CorruptSnapshot);
    }
    let count = u64_from_le_bytes(slice_subrange(bytes, 0, 8));
    let mut pastes: Vec<Paste> = Vec::new();
    let mut pos: usize = 8;
    let mut i: u64 = 0;
    proof {
        lemma_auto_spec_u64_to_from_le_bytes();
        assert(bytes@.subrange(0, 8) =~= length_prefix(count as nat) + records_encoding(
            views(pastes@),
        ));
        assert forall|s: Seq<PasteView>| is_encoding_of(bytes@, s) implies s.len() == count
            && s.take(0) == views(pastes@) by {
            lemma_encoding_count(s);
            assert(s.take(0) =~= views(pastes@));
        }
    }
    while i < count
        invariant
            8 <= pos <= bytes@.len(),
            i <= count,
            pastes@.len() == i,
            count == spec_u64_from_le_bytes(bytes@.subrange(0, 8)),
            pos == 8 + records_encoding(views(pastes@)).len(),
            encodable(views(pastes@)),
            bytes@.subrange(0, pos as int) == length_prefix(count as nat) + records_encoding(
                views(pastes@),
            ),
            forall|s: Seq<PasteView>| #[trigger]
                is_encoding_of(bytes@, s) ==> s.len() == count && s.take(i as int) == views(
                    pastes@,
                ),
        decreases count - i,
    {
        let ghost so_far = views(pastes@);
        match read_record(bytes, pos) {
            Some((paste, end)) => {
                proof {
                    lemma_record_at_sound(bytes@, pos as int);
                    lemma_records_encoding_push(so_far, paste@);
                    assert(bytes@.subrange(0, end as int) =~= bytes@.subrange(0, pos as int)
                        + bytes@.subrange(pos as int, end as int));
                    assert forall|s: Seq<PasteView>| is_encoding_of(bytes@, s) implies s.len()
                        == count && s.take(i + 1) == so_far.push(paste@) by {
                        lemma_record_in_encoding(s, i as int);
                        assert(s.take(i + 1) =~= s.take(i as int).push(s[i as int]));
                    }
                }
                pastes.push(paste);
                proof {
                    assert(views(pastes@) =~= so_far.push(paste@));
                }
                pos = end;
                i += 1;
            },
            None => {
                proof {
                    assert forall|s: Seq<PasteView>| !is_encoding_of(bytes@, s) by {
                        if is_encoding_of(bytes@, s) {
                            lemma_record_in_encoding(s, i as int);
                        }
                    }
                }
                return Err(StoreError::CorruptSnapshot);
            },
        }
    }
    if pos != bytes.len() {
        proof {
            assert forall|s: Seq<PasteView>| !is_encoding_of(bytes@, s) by {
                if is_encoding_of(bytes@, s) {
                    assert(s.take(i as int) =~= s);
                    lemma_encoding_count(s);
                }
            }
        }
        return Err(StoreError::CorruptSnapshot);
    }
    proof {
        let s = views(pastes@);
        assert(bytes@ =~= bytes@.subrange(0, pos as int));
        assert(is_encoding_of(bytes@, s));
        lemma_round_trip(s);
    }
    Ok(pastes)
}

} // verus!
