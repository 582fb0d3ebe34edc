//! The in-memory index: an exact mirror of all live key-value pairs, viewed
//! as a mathematical map. Keys are unique and every stored field stays
//! encodable, so a snapshot of the index can always be written back as a log.

use vstd::prelude::*;
use crate::bytes::bytes_eq;
use crate::codec::valid_field;

verus! {

/// The mapping an association list denotes; a later entry would win, though a
/// well-formed index never repeats a key.
pub open spec fn assoc_map(es: Seq<(Vec<u8>, Vec<u8>)>) -> Map<Seq<u8>, Seq<u8>>
    decreases es.len(),
{
    if es.len() == 0 {
        Map::empty()
    } else {
        assoc_map(es.drop_last()).insert(es.last().0@, es.last().1@)
    }
}

/// A key is in the map exactly when some entry carries it.
proof fn lemma_assoc_contains(es: Seq<(Vec<u8>, Vec<u8>)>, k: Seq<u8>)
    ensures
        assoc_map(es).contains_key(k) <==> exists|i: int|
            0 <= i < es.len() && (#[trigger] es[i]).0@ == k,
    decreases es.len(),
{
    if es.len() == 0 {
    } else {
        lemma_assoc_contains(es.drop_last(), k);
        if assoc_map(es).contains_key(k) && es.last().0@ != k {
            let i = choose|i: int| 0 <= i < es.drop_last().len() && (#[trigger] es.drop_last()[
                i]).0@ == k;
            assert(es[i].0@ == k);
        }
        if exists|i: int| 0 <= i < es.len() && (#[trigger] es[i]).0@ == k {
            let i = choose|i: int| 0 <= i < es.len() && (#[trigger] es[i]).0@ == k;
            if i < es.len() - 1 {
                assert(es.drop_last()[i].0@ == k);
            }
        }
    }
}

/// With unique keys, the entry holding a key decides its value.
proof fn lemma_assoc_at(es: Seq<(Vec<u8>, Vec<u8>)>, i: int)
    requires
        0 <= i < es.len(),
        forall|p: int, q: int| 0 <= p < q < es.len() ==> (#[trigger] es[p]).0@ != (
        #[trigger] es[q]).0@,
    ensures
        assoc_map(es).contains_key(es[i].0@),
        assoc_map(es)[es[i].0@] == es[i].1@,
    decreases es.len(),
{
    if i == es.len() - 1 {
    } else {
        assert(es.drop_last()[i] == es[i]);
        lemma_assoc_at(es.drop_last(), i);
        assert(es.last().0@ != es[i].0@);
    }
}

/// Updating the entry that holds a key updates only that key's value.
proof fn lemma_assoc_update(es: Seq<(Vec<u8>, Vec<u8>)>, i: int, e: (Vec<u8>, Vec<u8>))
    requires
        0 <= i < es.len(),
        es[i].0@ == e.0@,
        forall|p: int, q: int| 0 <= p < q < es.len() ==> (#[trigger] es[p]).0@ != (
        #[trigger] es[q]).0@,
    ensures
        assoc_map(es.update(i, e)) == assoc_map(es).insert(e.0@, e.1@),
    decreases es.len(),
{
    let es2 = es.update(i, e);
    if i == es.len() - 1 {
        assert(es2.drop_last() =~= es.drop_last());
        assert(es2.last() == e);
        assert(assoc_map(es.drop_last()).insert(es.last().0@, es.last().1@).insert(e.0@, e.1@)
            =~= assoc_map(es.drop_last()).insert(e.0@, e.1@));
    } else {
        assert(es2.drop_last() =~= es.drop_last().update(i, e));
        assert(es2.last() == es.last());
        assert(es.drop_last()[i] == es[i]);
        lemma_assoc_update(es.drop_last(), i, e);
        assert(es.last().0@ != e.0@);
        assert(assoc_map(es.drop_last()).insert(e.0@, e.1@).insert(es.last().0@, es.last().1@)
            =~= assoc_map(es.drop_last()).insert(es.last().0@, es.last().1@).insert(e.0@, e.1@));
    }
}

/// The in-memory index: every live pair, with unique, encodable keys and
/// encodable values.
pub struct Index {
    entries: Vec<(Vec<u8>, Vec<u8>)>,
}

impl View for Index {
    type V = Map<Seq<u8>, Seq<u8>>;

    closed spec fn view(&self) -> Map<Seq<u8>, Seq<u8>> {
        assoc_map(self.entries@)
    }
}

impl Index {
    /// Keys are pairwise distinct and every stored field is encodable.
    pub closed spec fn wf(&self) -> bool {
        &&& forall|p: int, q: int|
            0 <= p < q < self.entries@.len() ==> (#[trigger] self.entries@[p]).0@ != (
            #[trigger] self.entries@[q]).0@
        &&& forall|i: int|
            0 <= i < self.entries@.len() ==> valid_field((#[trigger] self.entries@[i]).0@)
                && valid_field(self.entries@[i].1@)
    }

    /// A fresh, empty index.
    pub fn new() -> (r: Index)
        ensures
            r.wf(),
            r@ == Map::<Seq<u8>, Seq<u8>>::empty(),
    {
        Index { entries: Vec::new() }
    }

    /// Position of the entry holding `key`, if any.
    fn position(&self, key: &Vec<u8>) -> (r: Option<usize>)
        ensures
            match r {
                Some(i) => i < self.entries@.len() && self.entries@[i as int].0@ == key@,
                None => forall|i: int|
                    0 <= i < self.entries@.len() ==> (#[trigger] self.entries@[i]).0@ != key@,
            },
    {
        let mut i: usize = 0;
        while i < self.entries.len()
            invariant
                0 <= i <= self.entries@.len(),
                forall|j: int| 0 <= j < i ==> (#[trigger] self.entries@[j]).0@ != key@,
            decreases self.entries@.len() - i,
        {
            if bytes_eq(&self.entries[i].0, key) {
                return Some(i);
            }
            i = i + 1;
        }
        None
    }

    /// Look a key up.
    pub fn get(&self, key: &Vec<u8>) -> (r: Option<&Vec<u8>>)
        requires
            self.wf(),
        ensures
            match r {
                Some(v) => self@.contains_key(key@) && v@ == self@[key@],
                None => !self@.contains_key(key@),
            },
    {
        proof {
            lemma_assoc_contains(self.entries@, key@);
        }
        match self.position(key) {
            Some(i) => {
                proof {
                    lemma_assoc_at(self.entries@, i as int);
                }
                Some(&self.entries[i].1)
            },
            None => None,
        }
    }

    /// Insert or overwrite one pair.
    pub fn set(&mut self, key: Vec<u8>, value: Vec<u8>)
        requires
            old(self).wf(),
            valid_field(key@),
            valid_field(value@),
        ensures
            final(self).wf(),
            final(self)@ == old(self)@.insert(key@, value@),
    {
        proof {
            lemma_assoc_contains(self.entries@, key@);
        }
        match self.position(&key) {
            Some(i) => {
                proof {
                    lemma_assoc_update(self.entries@, i as int, (key, value));
                }
                self.entries.set(i, (key, value));
            },
            None => {
                self.entries.push((key, value));
                proof {
                    assert(self.entries@.drop_last() =~= old(self).entries@);
                }
            },
        }
    }

    /// Every live pair, one entry per key: the snapshot that compaction
    /// writes out.
    pub fn iterate(&self) -> (r: &Vec<(Vec<u8>, Vec<u8>)>)
        requires
            self.wf(),
        ensures
            forall|p: int, q: int| 0 <= p < q < r@.len() ==> (#[trigger] r@[p]).0@ != (
            #[trigger] r@[q]).0@,
            forall|i: int|
                0 <= i < r@.len() ==> self@.contains_key((#[trigger] r@[i]).0@) && self@[r@[
                    i].0@] == r@[i].1@ && valid_field(r@[i].0@) && valid_field(r@[i].1@),
            forall|k: Seq<u8>| self@.contains_key(k) ==> exists|i: int|
                0 <= i < r@.len() && (#[trigger] r@[i]).0@ == k,
    {
        proof {
            assert forall|i: int|
                0 <= i < self.entries@.len() implies self@.contains_key(
                (#[trigger] self.entries@[i]).0@,
            ) && self@[self.entries@[i].0@] == self.entries@[i].1@ by {
                lemma_assoc_at(self.entries@, i);
            }
            assert forall|k: Seq<u8>| self@.contains_key(k) implies exists|i: int|
                0 <= i < self.entries@.len() && (#[trigger] self.entries@[i]).0@ == k by {
                lemma_assoc_contains(self.entries@, k);
            }
        }
        &self.entries
    }
}

} // verus!
