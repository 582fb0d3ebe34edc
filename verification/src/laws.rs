//! The store's laws, stated over the same model the engine contracts use:
//! the map a store holds (`fold_entries` of `parse_log`) and the record
//! encoding. Together with the `ensures` of `start`, `get`, `set` and
//! `compact`, they pin down lookup, last-write-wins, replay and the
//! compaction round trip.

use vstd::prelude::*;
use crate::codec::{valid_field, encoded};
use crate::log::{parse_log, fold_entries, lemma_parse_log_append, lemma_fold_contains,
    lemma_fold_last_wins};

verus! {

/// A fresh store, started on an empty or absent log file, finds no key at
/// all.
pub proof fn lemma_empty_store_finds_nothing(k: Seq<u8>)
    ensures
        parse_log(Seq::<u8>::empty()) == Some(Seq::<(Seq<u8>, Seq<u8>)>::empty()),
        !fold_entries(parse_log(Seq::<u8>::empty())->0).contains_key(k),
{
}

/// A key never set stays not-found: setting some other key never makes `k`
/// live, so by induction over a store's history a key no `set` ever named is
/// reported not-found by `get`.
pub proof fn lemma_never_set_not_found(
    m: Map<Seq<u8>, Seq<u8>>,
    k: Seq<u8>,
    k2: Seq<u8>,
    v2: Seq<u8>,
)
    requires
        !m.contains_key(k),
        k2 != k,
    ensures
        !m.insert(k2, v2).contains_key(k),
{
}

/// After a successful `set(k, v)`, `get(k)` returns `v`: the map every
/// successful `set` leaves behind holds `v` at `k`, which is what `get`
/// answers from.
pub proof fn lemma_set_then_get(m: Map<Seq<u8>, Seq<u8>>, k: Seq<u8>, v: Seq<u8>)
    ensures
        m.insert(k, v).contains_key(k),
        m.insert(k, v)[k] == v,
{
}

/// The in-memory half of last-write-wins: two sets of one key leave exactly
/// the state one set of the second value leaves.
pub proof fn lemma_overwrite(m: Map<Seq<u8>, Seq<u8>>, k: Seq<u8>, v1: Seq<u8>, v2: Seq<u8>)
    ensures
        m.insert(k, v1).insert(k, v2) == m.insert(k, v2),
{
    assert(m.insert(k, v1).insert(k, v2) =~= m.insert(k, v2));
}

/// The durable half of last-write-wins: a log that records `set(k, v1)` then
/// `set(k, v2)` replays to the store that holds `v2` at `k`, so after a
/// restart-and-replay cycle `get(k)` still returns `v2`.
pub proof fn lemma_last_write_wins_replayed(s: Seq<u8>, k: Seq<u8>, v1: Seq<u8>, v2: Seq<u8>)
    requires
        parse_log(s) is Some,
        valid_field(k),
        valid_field(v1),
        valid_field(v2),
    ensures
        ({
            let s2 = s + encoded(k, v1) + encoded(k, v2);
            &&& parse_log(s2) is Some
            &&& fold_entries(parse_log(s2)->0) == fold_entries(parse_log(s)->0).insert(k, v2)
            &&& fold_entries(parse_log(s2)->0)[k] == v2
        }),
{
    let s1 = s + encoded(k, v1);
    let s2 = s1 + encoded(k, v2);
    assert(s + encoded(k, v1) + encoded(k, v2) =~= s2);
    lemma_parse_log_append(s, k, v1);
    lemma_parse_log_append(s1, k, v2);
    let es = parse_log(s)->0;
    assert(es.push((k, v1)).drop_last() =~= es);
    assert(es.push((k, v1)).push((k, v2)).drop_last() =~= es.push((k, v1)));
    assert(fold_entries(es.push((k, v1))) == fold_entries(es).insert(k, v1));
    assert(fold_entries(es.push((k, v1)).push((k, v2))) == fold_entries(es.push((k, v1))).insert(
        k,
        v2,
    ));
    lemma_overwrite(fold_entries(es), k, v1, v2);
}

/// Replay correctness for a log of pairwise-distinct keys: the replayed
/// store holds exactly those pairs, no more and no fewer.
pub proof fn lemma_replay_distinct_keys(es: Seq<(Seq<u8>, Seq<u8>)>)
    requires
        forall|p: int, q: int| 0 <= p < q < es.len() ==> (#[trigger] es[p]).0 != (
        #[trigger] es[q]).0,
    ensures
        forall|i: int|
            0 <= i < es.len() ==> fold_entries(es).contains_key((#[trigger] es[i]).0)
                && fold_entries(es)[es[i].0] == es[i].1,
        forall|k: Seq<u8>| fold_entries(es).contains_key(k) ==> exists|i: int|
            0 <= i < es.len() && (#[trigger] es[i]).0 == k,
{
    assert forall|i: int|
        0 <= i < es.len() implies fold_entries(es).contains_key((#[trigger] es[i]).0)
        && fold_entries(es)[es[i].0] == es[i].1 by {
        lemma_fold_last_wins(es, i);
    }
    assert forall|k: Seq<u8>| fold_entries(es).contains_key(k) implies exists|i: int|
        0 <= i < es.len() && (#[trigger] es[i]).0 == k by {
        lemma_fold_contains(es, k);
    }
}

/// Replay correctness for a key recorded several times: lookup after replay
/// returns the value of its last record in file order. The general statement
/// is `lemma_fold_last_wins`; this form names the two records.
pub proof fn lemma_replay_duplicate_key(es: Seq<(Seq<u8>, Seq<u8>)>, i: int, j: int)
    requires
        0 <= i < j < es.len(),
        es[i].0 == es[j].0,
        forall|q: int| j < q < es.len() ==> (#[trigger] es[q]).0 != es[j].0,
    ensures
        fold_entries(es)[es[j].0] == es[j].1,
{
    lemma_fold_last_wins(es, j);
}

} // verus!
