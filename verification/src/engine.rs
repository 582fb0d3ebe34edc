//! The store engine: one index and one log model behind a single owner. Its
//! invariant is the durability statement of the whole design: the index
//! always equals the fold of the records in the log, last write per key wins.
//!
//! The engine never touches a file. `start` takes the log file's bytes,
//! `set` returns the record bytes whose append makes the update durable, and
//! `shutdown` returns the compacted bytes that must replace the file. The
//! unverified shell performs those reads, appends and renames, keeping the
//! real file equal to `self.log()`.

use vstd::prelude::*;
use crate::bytes::copy_bytes;
use crate::codec::{valid_field, encoded, encode_record};
use crate::errors::StoreError;
use crate::index::Index;
use crate::log::{parse_log, fold_entries, entries_view, wf_entries, replay, snapshot_bytes,
    lemma_parse_log_valid, lemma_parse_log_append, lemma_fold_of_distinct_matching};

verus! {

/// The persistence engine: the in-memory index and the model of the log
/// file's contents.
pub struct StoreEngine {
    index: Index,
    log: Ghost<Seq<u8>>,
}

impl View for StoreEngine {
    type V = Map<Seq<u8>, Seq<u8>>;

    /// The live key-value mapping the engine serves.
    closed spec fn view(&self) -> Map<Seq<u8>, Seq<u8>> {
        self.index@
    }
}

impl StoreEngine {
    /// The contents of the canonical log file backing this engine.
    pub closed spec fn log(&self) -> Seq<u8> {
        self.log@
    }

    /// The recovery invariant: the log is well formed and the index is
    /// exactly what replaying it yields.
    pub closed spec fn wf(&self) -> bool {
        &&& self.index.wf()
        &&& parse_log(self.log@) is Some
        &&& self.index@ == fold_entries(parse_log(self.log@)->0)
    }

    /// Open-and-replay, the sole recovery mechanism: build the engine whose
    /// index is the fold of all records in the given log file contents.
    /// Fails exactly when the bytes are not a well-formed log.
    pub fn start(log_bytes: &Vec<u8>) -> (r: Result<StoreEngine, StoreError>)
        ensures
            match r {
                Ok(e) => e.wf() && e.log() == log_bytes@ && parse_log(log_bytes@) is Some && e@
                    == fold_entries(parse_log(log_bytes@)->0),
                Err(err) => err == StoreError::CorruptRecordError && parse_log(log_bytes@) is None,
            },
    {
        let entries = match replay(log_bytes) {
            Ok(es) => es,
            Err(e) => {
                return Err(e);
            },
        };
        let ghost ev = entries_view(entries@);
        proof {
            lemma_parse_log_valid(log_bytes@);
            assert(ev.take(0) =~= Seq::<(Seq<u8>, Seq<u8>)>::empty());
        }
        let mut index = Index::new();
        let mut i: usize = 0;
        while i < entries.len()
            invariant
                0 <= i <= entries@.len(),
                ev == entries_view(entries@),
                wf_entries(ev),
                index.wf(),
                index@ == fold_entries(ev.take(i as int)),
            decreases entries@.len() - i,
        {
            let k = copy_bytes(&entries[i].0);
            let v = copy_bytes(&entries[i].1);
            proof {
                assert(ev[i as int] == (entries@[i as int].0@, entries@[i as int].1@));
                assert(ev.take(i + 1 as int).drop_last() =~= ev.take(i as int));
                assert(ev.take(i + 1 as int).last() == ev[i as int]);
            }
            index.set(k, v);
            i = i + 1;
        }
        proof {
            assert(ev.take(entries@.len() as int) =~= ev);
        }
        Ok(StoreEngine { index, log: Ghost(log_bytes@) })
    }

    /// Look a key up in the in-memory index alone; the log is not touched.
    pub fn get(&self, key: &Vec<u8>) -> (r: Option<Vec<u8>>)
        requires
            self.wf(),
        ensures
            match r {
                Some(v) => self@.contains_key(key@) && v@ == self@[key@],
                None => !self@.contains_key(key@),
            },
    {
        match self.index.get(key) {
            Some(v) => Some(copy_bytes(v)),
            None => None,
        }
    }

    /// Insert or overwrite one pair and return the record bytes that the
    /// caller must append to the log file before acknowledging; the log model
    /// already includes them. Rejects fields that cannot be encoded, leaving
    /// both the index and the log unchanged.
    pub fn set(&mut self, key: Vec<u8>, value: Vec<u8>) -> (r: Result<Vec<u8>, StoreError>)
        requires
            old(self).wf(),
        ensures
            final(self).wf(),
            match r {
                Ok(rec) => valid_field(key@) && valid_field(value@)
                    && rec@ == encoded(key@, value@)
                    && final(self)@ == old(self)@.insert(key@, value@)
                    && final(self).log() == old(self).log() + rec@,
                Err(e) => e == StoreError::EncodingError
                    && !(valid_field(key@) && valid_field(value@))
                    && final(self)@ == old(self)@ && final(self).log() == old(self).log(),
            },
    {
        let rec = match encode_record(&key, &value) {
            Ok(rec) => rec,
            Err(e) => {
                return Err(e);
            },
        };
        let ghost k = key@;
        let ghost v = value@;
        proof {
            lemma_parse_log_append(self.log@, k, v);
            let es = parse_log(self.log@)->0;
            assert(es.push((k, v)).drop_last() =~= es);
        }
        self.index.set(key, value);
        self.log = Ghost(self.log@ + rec@);
        Ok(rec)
    }

    /// The update entry point as the transport hands it over: every key/value
    /// parameter the request carried. A request with zero or several pairs is
    /// rejected before it reaches the store, and nothing changes.
    pub fn set_request(&mut self, params: Vec<(Vec<u8>, Vec<u8>)>) -> (r: Result<
        Vec<u8>,
        StoreError,
    >)
        requires
            old(self).wf(),
        ensures
            final(self).wf(),
            params@.len() != 1 ==> (r matches Err(e) && e == StoreError::MalformedRequest
                && final(self)@ == old(self)@ && final(self).log() == old(self).log()),
            params@.len() == 1 ==> (match r {
                Ok(rec) => valid_field(params@[0].0@) && valid_field(params@[0].1@)
                    && rec@ == encoded(params@[0].0@, params@[0].1@)
                    && final(self)@ == old(self)@.insert(params@[0].0@, params@[0].1@)
                    && final(self).log() == old(self).log() + rec@,
                Err(e) => e == StoreError::EncodingError
                    && !(valid_field(params@[0].0@) && valid_field(params@[0].1@))
                    && final(self)@ == old(self)@ && final(self).log() == old(self).log(),
            }),
    {
        let mut params = params;
        if params.len() != 1 {
            return Err(StoreError::MalformedRequest);
        }
        let kv = params.remove(0);
        self.set(kv.0, kv.1)
    }

    /// The compaction snapshot: the contents of the minimal log that replays
    /// to exactly the live index, one record per live key.
    pub fn compact(&self) -> (r: Vec<u8>)
        requires
            self.wf(),
        ensures
            parse_log(r@) is Some,
            fold_entries(parse_log(r@)->0) == self@,
            forall|p: int, q: int|
                0 <= p < q < parse_log(r@)->0.len() ==> (#[trigger] parse_log(r@)->0[p]).0 != (
                #[trigger] parse_log(r@)->0[q]).0,
            forall|i: int|
                0 <= i < parse_log(r@)->0.len() ==> self@.contains_key(
                    (#[trigger] parse_log(r@)->0[i]).0,
                ) && self@[parse_log(r@)->0[i].0] == parse_log(r@)->0[i].1,
    {
        let entries = self.index.iterate();
        let ghost ev = entries_view(entries@);
        proof {
            assert forall|i: int| 0 <= i < ev.len() implies valid_field((#[trigger] ev[i]).0)
                && valid_field(ev[i].1) && self@.contains_key(ev[i].0) && self@[ev[i].0]
                == ev[i].1 by {
                assert(ev[i] == (entries@[i].0@, entries@[i].1@));
            }
            assert forall|p: int, q: int| 0 <= p < q < ev.len() implies (#[trigger] ev[p]).0 != (
            #[trigger] ev[q]).0 by {
                assert(ev[p] == (entries@[p].0@, entries@[p].1@));
                assert(ev[q] == (entries@[q].0@, entries@[q].1@));
            }
            assert forall|k: Seq<u8>| self@.contains_key(k) implies exists|i: int|
                0 <= i < ev.len() && (#[trigger] ev[i]).0 == k by {
                let i = choose|i: int| 0 <= i < entries@.len() && (#[trigger] entries@[i]).0@ == k;
                assert(ev[i].0 == k);
            }
            lemma_fold_of_distinct_matching(ev, self@);
        }
        snapshot_bytes(entries)
    }

    /// Graceful shutdown: consume the engine and hand back the compacted
    /// snapshot that must atomically replace the log file; the process serves
    /// no request after this.
    pub fn shutdown(self) -> (r: Vec<u8>)
        requires
            self.wf(),
        ensures
            parse_log(r@) is Some,
            fold_entries(parse_log(r@)->0) == self@,
            forall|p: int, q: int|
                0 <= p < q < parse_log(r@)->0.len() ==> (#[trigger] parse_log(r@)->0[p]).0 != (
                #[trigger] parse_log(r@)->0[q]).0,
    {
        self.compact()
    }
}

} // verus!
