//! The durable log as a byte sequence: what a whole log denotes (`parse_log`,
//! `fold_entries`), startup replay, and the snapshot encoding that compaction
//! writes. The unverified shell owns the file itself; the engine and these
//! functions work on its contents as plain bytes.

use vstd::prelude::*;
use crate::bytes::{absent, first_occ, lemma_first_occ_absent, lemma_first_occ_append,
    lemma_first_occ_props, copy_range, find_byte, find_byte_from};
use crate::codec::{SEP, NL, valid_field, encoded, split_record, lemma_split_encoded,
    decode_record, encode_into};
use crate::errors::StoreError;

verus! {

/// The records a log denotes, in file order: each record is one line split at
/// its first separator, every record ends with a newline, and no value hides
/// a second separator. Any other byte sequence is corrupt and denotes nothing.
pub open spec fn parse_log(s: Seq<u8>) -> Option<Seq<(Seq<u8>, Seq<u8>)>>
    decreases s.len(),
{
    if s.len() == 0 {
        Some(Seq::empty())
    } else {
        let j = first_occ(s, NL) as int;
        if j >= s.len() {
            None
        } else {
            match split_record(s.subrange(0, j)) {
                Some(kv) => if absent(kv.1, SEP) {
                    match parse_log(s.subrange(j + 1, s.len() as int)) {
                        Some(rest) => Some(seq![kv] + rest),
                        None => None,
                    }
                } else {
                    None
                },
                None => None,
            }
        }
    }
}

/// The store contents that a sequence of records denotes: replay them in
/// order, the last value written for a key wins.
pub open spec fn fold_entries(es: Seq<(Seq<u8>, Seq<u8>)>) -> Map<Seq<u8>, Seq<u8>>
    decreases es.len(),
{
    if es.len() == 0 {
        Map::empty()
    } else {
        fold_entries(es.drop_last()).insert(es.last().0, es.last().1)
    }
}

/// Every key and value of the entries is encodable.
pub open spec fn wf_entries(es: Seq<(Seq<u8>, Seq<u8>)>) -> bool {
    forall|i: int| 0 <= i < es.len() ==> valid_field((#[trigger] es[i]).0) && valid_field(es[i].1)
}

/// The mathematical view of a vector of owned entries.
pub open spec fn entries_view(es: Seq<(Vec<u8>, Vec<u8>)>) -> Seq<(Seq<u8>, Seq<u8>)> {
    Seq::new(es.len(), |i: int| (es[i].0@, es[i].1@))
}

/// Whatever a log parses to was decodable, so its fields are encodable.
pub proof fn lemma_parse_log_valid(s: Seq<u8>)
    requires
        parse_log(s) is Some,
    ensures
        wf_entries(parse_log(s)->0),
    decreases s.len(),
{
    if s.len() == 0 {
    } else {
        let j = first_occ(s, NL) as int;
        lemma_first_occ_props(s, NL);
        let line = s.subrange(0, j);
        assert forall|m: int| 0 <= m < line.len() implies line[m] != NL by {
            assert(line[m] == s[m]);
        }
        let i = first_occ(line, SEP) as int;
        lemma_first_occ_props(line, SEP);
        let kv = split_record(line)->0;
        assert forall|m: int| 0 <= m < kv.0.len() implies kv.0[m] != SEP && kv.0[m] != NL by {
            assert(kv.0[m] == line[m]);
        }
        assert forall|m: int| 0 <= m < kv.1.len() implies kv.1[m] != NL by {
            assert(kv.1[m] == line[i + 1 + m]);
        }
        let rest = s.subrange(j + 1, s.len() as int);
        lemma_parse_log_valid(rest);
        let es = parse_log(s)->0;
        let t = parse_log(rest)->0;
        assert forall|m: int| 0 <= m < es.len() implies valid_field((#[trigger] es[m]).0)
            && valid_field(es[m].1) by {
            if m > 0 {
                assert(es[m] == t[m - 1]);
            }
        }
    }
}

/// Appending one well-formed record to a well-formed log appends exactly one
/// entry to what the log denotes.
pub proof fn lemma_parse_log_append(s: Seq<u8>, k: Seq<u8>, v: Seq<u8>)
    requires
        parse_log(s) is Some,
        valid_field(k),
        valid_field(v),
    ensures
        parse_log(s + encoded(k, v)) == Some(parse_log(s)->0.push((k, v))),
    decreases s.len(),
{
    let rec = encoded(k, v);
    let line0 = k + seq![SEP] + v;
    assert(rec =~= line0 + seq![NL]);
    let total = s + rec;
    if s.len() == 0 {
        assert(total =~= rec);
        assert forall|m: int| 0 <= m < line0.len() implies line0[m] != NL by {
            if m < k.len() {
                assert(line0[m] == k[m]);
            } else if m == k.len() {
                assert(line0[m] == SEP);
            } else {
                assert(line0[m] == v[m - k.len() - 1]);
            }
        }
        lemma_first_occ_absent(line0, NL);
        lemma_first_occ_append(line0, seq![NL], NL);
        assert(seq![NL][0] == NL);
        assert(first_occ(rec, NL) == line0.len());
        let j = first_occ(total, NL) as int;
        assert(j == line0.len());
        assert(total.subrange(0, j) =~= line0);
        lemma_split_encoded(k, v);
        assert(total.subrange(j + 1, total.len() as int) =~= Seq::<u8>::empty());
        assert(parse_log(Seq::<u8>::empty()) == Some(Seq::<(Seq<u8>, Seq<u8>)>::empty()));
        assert(parse_log(s) == Some(Seq::<(Seq<u8>, Seq<u8>)>::empty()));
        assert(parse_log(total) == Some(seq![(k, v)] + Seq::<(Seq<u8>, Seq<u8>)>::empty()));
        assert(seq![(k, v)] + Seq::<(Seq<u8>, Seq<u8>)>::empty() =~= parse_log(s)->0.push((k, v)));
    } else {
        let j = first_occ(s, NL) as int;
        lemma_first_occ_props(s, NL);
        lemma_first_occ_append(s, rec, NL);
        assert(first_occ(total, NL) == j);
        assert(total.subrange(0, j) =~= s.subrange(0, j));
        let srest = s.subrange(j + 1, s.len() as int);
        assert(total.subrange(j + 1, total.len() as int) =~= srest + rec);
        lemma_parse_log_append(srest, k, v);
        let kv = split_record(s.subrange(0, j))->0;
        let t = parse_log(srest)->0;
        assert(parse_log(total) == Some(seq![kv] + t.push((k, v))));
        assert(seq![kv] + t.push((k, v)) =~= (seq![kv] + t).push((k, v)));
    }
}

/// A key is live after replay exactly when some record carries it.
pub proof fn lemma_fold_contains(es: Seq<(Seq<u8>, Seq<u8>)>, k: Seq<u8>)
    ensures
        fold_entries(es).contains_key(k) <==> exists|i: int|
            0 <= i < es.len() && (#[trigger] es[i]).0 == k,
    decreases es.len(),
{
    if es.len() == 0 {
    } else {
        lemma_fold_contains(es.drop_last(), k);
        if fold_entries(es).contains_key(k) {
            if es.last().0 != k {
                let i = choose|i: int| 0 <= i < es.drop_last().len() && (#[trigger] es.drop_last()[
                    i]).0 == k;
                assert(es[i].0 == k);
            } else {
                assert(es[es.len() - 1].0 == k);
            }
        }
        if exists|i: int| 0 <= i < es.len() && (#[trigger] es[i]).0 == k {
            let i = choose|i: int| 0 <= i < es.len() && (#[trigger] es[i]).0 == k;
            if i < es.len() - 1 {
                assert(es.drop_last()[i].0 == k);
            }
        }
    }
}

/// The value replay leaves for a key is the one in its last record in file
/// order.
pub proof fn lemma_fold_last_wins(es: Seq<(Seq<u8>, Seq<u8>)>, i: int)
    requires
        0 <= i < es.len(),
        forall|j: int| i < j < es.len() ==> (#[trigger] es[j]).0 != es[i].0,
    ensures
        fold_entries(es).contains_key(es[i].0),
        fold_entries(es)[es[i].0] == es[i].1,
    decreases es.len(),
{
    if i == es.len() - 1 {
    } else {
        assert(es.drop_last()[i] == es[i]);
        lemma_fold_last_wins(es.drop_last(), i);
        assert(es.last().0 != es[i].0);
    }
}

/// Records with pairwise-distinct keys, each agreeing with a map that has no
/// other keys, replay to exactly that map.
pub proof fn lemma_fold_of_distinct_matching(es: Seq<(Seq<u8>, Seq<u8>)>, m: Map<Seq<u8>, Seq<u8>>)
    requires
        forall|i: int, j: int| 0 <= i < j < es.len() ==> (#[trigger] es[i]).0 != (#[trigger] es[j]).0,
        forall|i: int| 0 <= i < es.len() ==> m.contains_key((#[trigger] es[i]).0) && m[es[i].0]
            == es[i].1,
        forall|k: Seq<u8>| m.contains_key(k) ==> exists|i: int|
            0 <= i < es.len() && (#[trigger] es[i]).0 == k,
    ensures
        fold_entries(es) == m,
{
    let f = fold_entries(es);
    assert forall|k: Seq<u8>| f.dom().contains(k) <==> m.dom().contains(k) by {
        lemma_fold_contains(es, k);
    }
    assert(f.dom() =~= m.dom());
    assert forall|k: Seq<u8>| m.dom().contains(k) implies f[k] == m[k] by {
        lemma_fold_contains(es, k);
        let i = choose|i: int| 0 <= i < es.len() && (#[trigger] es[i]).0 == k;
        lemma_fold_last_wins(es, i);
    }
    assert(f =~= m);
}

/// Replay a whole log: decode each newline-terminated record, in file order.
/// Fails exactly when the bytes are not a well-formed log.
pub fn replay(bytes: &Vec<u8>) -> (r: Result<Vec<(Vec<u8>, Vec<u8>)>, StoreError>)
    ensures
        match r {
            Ok(entries) => parse_log(bytes@) == Some(entries_view(entries@)),
            Err(e) => e == StoreError::CorruptRecordError && parse_log(bytes@) is None,
        },
{
    let mut acc: Vec<(Vec<u8>, Vec<u8>)> = Vec::new();
    let mut pos: usize = 0;
    proof {
        assert(bytes@.subrange(0, bytes@.len() as int) =~= bytes@);
        assert(entries_view(acc@) =~= Seq::<(Seq<u8>, Seq<u8>)>::empty());
    }
    while pos < bytes.len()
        invariant
            0 <= pos <= bytes@.len(),
            (parse_log(bytes@.subrange(pos as int, bytes@.len() as int)) matches Some(t)
                ==> parse_log(bytes@) == Some(entries_view(acc@) + t)),
            (parse_log(bytes@.subrange(pos as int, bytes@.len() as int)) is None ==> parse_log(
                bytes@,
            ) is None),
        decreases bytes@.len() - pos,
    {
        let ghost rest = bytes@.subrange(pos as int, bytes@.len() as int);
        let j = find_byte_from(bytes, pos, NL);
        proof {
            assert(first_occ(rest, NL) == j - pos);
        }
        if j == bytes.len() {
            return Err(StoreError::CorruptRecordError);
        }
        let line = copy_range(bytes, pos, j);
        proof {
            assert(line@ =~= rest.subrange(0, j - pos));
        }
        let kv = match decode_record(&line) {
            Ok(kv) => kv,
            Err(_) => {
                return Err(StoreError::CorruptRecordError);
            },
        };
        if find_byte(&kv.1, SEP) != kv.1.len() {
            proof {
                lemma_first_occ_absent(kv.1@, SEP);
            }
            return Err(StoreError::CorruptRecordError);
        }
        proof {
            lemma_first_occ_absent(kv.1@, SEP);
            let newrest = bytes@.subrange(j + 1 as int, bytes@.len() as int);
            assert(rest.subrange(j - pos + 1, rest.len() as int) =~= newrest);
            assert(parse_log(rest) == match parse_log(newrest) {
                Some(t) => Some(seq![(kv.0@, kv.1@)] + t),
                None => None::<Seq<(Seq<u8>, Seq<u8>)>>,
            });
            assert(entries_view(acc@.push((kv.0, kv.1))) =~= entries_view(acc@).push(
                (kv.0@, kv.1@),
            ));
            if parse_log(newrest) is Some {
                let t = parse_log(newrest)->0;
                assert(entries_view(acc@) + (seq![(kv.0@, kv.1@)] + t) =~= entries_view(
                    acc@.push((kv.0, kv.1)),
                ) + t);
            }
        }
        acc.push(kv);
        pos = j + 1;
    }
    proof {
        let rest = bytes@.subrange(pos as int, bytes@.len() as int);
        assert(rest =~= Seq::<u8>::empty());
        assert(parse_log(rest) == Some(Seq::<(Seq<u8>, Seq<u8>)>::empty()));
        let t = parse_log(rest)->0;
        assert(entries_view(acc@) + t =~= entries_view(acc@));
    }
    Ok(acc)
}

/// Encode one record per supplied entry, in order: the contents of a freshly
/// compacted log.
pub fn snapshot_bytes(entries: &Vec<(Vec<u8>, Vec<u8>)>) -> (r: Vec<u8>)
    requires
        wf_entries(entries_view(entries@)),
    ensures
        parse_log(r@) == Some(entries_view(entries@)),
{
    let mut out: Vec<u8> = Vec::new();
    let mut i: usize = 0;
    proof {
        assert(out@ =~= Seq::<u8>::empty());
        assert(entries_view(entries@).take(0) =~= Seq::<(Seq<u8>, Seq<u8>)>::empty());
    }
    while i < entries.len()
        invariant
            0 <= i <= entries@.len(),
            wf_entries(entries_view(entries@)),
            parse_log(out@) == Some(entries_view(entries@).take(i as int)),
        decreases entries@.len() - i,
    {
        let ghost ev = entries_view(entries@);
        proof {
            assert(ev[i as int] == (entries@[i as int].0@, entries@[i as int].1@));
            lemma_parse_log_append(out@, entries@[i as int].0@, entries@[i as int].1@);
            assert(ev.take(i as int).push(ev[i as int]) =~= ev.take(i + 1 as int));
        }
        encode_into(&mut out, &entries[i].0, &entries[i].1);
        i = i + 1;
    }
    proof {
        assert(entries_view(entries@).take(entries@.len() as int) =~= entries_view(entries@));
    }
    out
}

} // verus!
