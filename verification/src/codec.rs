//! The record codec: one key-value pair to and from its on-disk line format,
//! `key SEP value NL`, where `SEP` is the single byte 0x1E.

use vstd::prelude::*;
use crate::bytes::{absent, first_occ, lemma_first_occ_absent, lemma_first_occ_append,
    lemma_first_occ_props, copy_range, find_byte, push_bytes};
use crate::errors::StoreError;

verus! {

/// The field separator inside a record.
pub const SEP: u8 = 30;

/// The record terminator.
pub const NL: u8 = 10;

/// A key or value is encodable only if it contains neither the separator
/// nor the newline byte.
pub open spec fn valid_field(s: Seq<u8>) -> bool {
    absent(s, SEP) && absent(s, NL)
}

/// The encoding of one record: key, separator, value, newline.
pub open spec fn encoded(k: Seq<u8>, v: Seq<u8>) -> Seq<u8> {
    k + seq![SEP] + v + seq![NL]
}

/// What decoding a line (without its newline) yields: the part before the
/// first separator and everything after it, or nothing when no separator
/// is present.
pub open spec fn split_record(line: Seq<u8>) -> Option<(Seq<u8>, Seq<u8>)> {
    if first_occ(line, SEP) < line.len() {
        let i = first_occ(line, SEP) as int;
        Some((line.subrange(0, i), line.subrange(i + 1, line.len() as int)))
    } else {
        None
    }
}

/// Splitting an encoded record's line gives the fields back: the codec
/// round-trips on encodable fields.
pub proof fn lemma_split_encoded(k: Seq<u8>, v: Seq<u8>)
    requires
        absent(k, SEP),
    ensures
        split_record(k + seq![SEP] + v) == Some((k, v)),
{
    let line = k + seq![SEP] + v;
    assert(line =~= k + (seq![SEP] + v));
    lemma_first_occ_absent(k, SEP);
    lemma_first_occ_append(k, seq![SEP] + v, SEP);
    lemma_first_occ_append(seq![SEP], v, SEP);
    assert(first_occ(seq![SEP], SEP) == 0) by {
        assert(seq![SEP][0] == SEP);
    }
    assert(first_occ(line, SEP) == k.len());
    assert(line.subrange(0, k.len() as int) =~= k);
    assert(line.subrange(k.len() as int + 1, line.len() as int) =~= v);
}

/// Check that a field is encodable.
pub fn is_valid_field(v: &Vec<u8>) -> (r: bool)
    ensures
        r == valid_field(v@),
{
    let no_sep = find_byte(v, SEP) == v.len();
    let no_nl = find_byte(v, NL) == v.len();
    proof {
        lemma_first_occ_absent(v@, SEP);
        lemma_first_occ_absent(v@, NL);
    }
    no_sep && no_nl
}

/// Append the encoding of one record to `out`. The caller has already
/// validated the fields.
pub fn encode_into(out: &mut Vec<u8>, key: &Vec<u8>, value: &Vec<u8>)
    requires
        valid_field(key@),
        valid_field(value@),
    ensures
        final(out)@ == old(out)@ + encoded(key@, value@),
{
    let ghost base = out@;
    push_bytes(out, key);
    out.push(SEP);
    push_bytes(out, value);
    out.push(NL);
    proof {
        assert(out@ =~= base + encoded(key@, value@));
    }
}

/// Encode one record, rejecting fields that contain the separator or the
/// newline byte.
pub fn encode_record(key: &Vec<u8>, value: &Vec<u8>) -> (r: Result<Vec<u8>, StoreError>)
    ensures
        match r {
            Ok(bytes) => valid_field(key@) && valid_field(value@) && bytes@ == encoded(
                key@,
                value@,
            ),
            Err(e) => e == StoreError::EncodingError && !(valid_field(key@) && valid_field(
                value@,
            )),
        },
{
    if !is_valid_field(key) || !is_valid_field(value) {
        return Err(StoreError::EncodingError);
    }
    let mut out: Vec<u8> = Vec::new();
    encode_into(&mut out, key, value);
    proof {
        assert(out@ =~= encoded(key@, value@));
    }
    Ok(out)
}

/// Decode one line (without its trailing newline): split it at the first
/// separator into key and value. Fails when no separator is present.
pub fn decode_record(line: &Vec<u8>) -> (r: Result<(Vec<u8>, Vec<u8>), StoreError>)
    ensures
        match r {
            Ok(kv) => split_record(line@) == Some((kv.0@, kv.1@)),
            Err(e) => e == StoreError::CorruptRecordError && split_record(line@) is None,
        },
{
    let i = find_byte(line, SEP);
    proof {
        lemma_first_occ_props(line@, SEP);
    }
    if i == line.len() {
        return Err(StoreError::CorruptRecordError);
    }
    let key = copy_range(line, 0, i);
    let value = copy_range(line, i + 1, line.len());
    Ok((key, value))
}

} // verus!
