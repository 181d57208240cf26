//! The table itself: buckets of entries, indexed by the key's digest.

use crate::hash_funs::{time33, time33_below, time33_key_fn};
use crate::lemmas::{
    lemma_as_map_put, lemma_as_map_without, lemma_count_is_keys, lemma_count_update,
    lemma_find_none, lemma_find_some, lemma_grown, lemma_grown_lookup, lemma_put_count,
    lemma_put_well_formed, lemma_without_count, lemma_without_well_formed,
};
use crate::model::{
    as_map, entry_count, find, grown, lookup, put, well_formed, without, Chain,
};
use vstd::prelude::*;

verus! {

/// A key with the value stored under it.
#[derive(Clone)]
struct Entry<V: Clone> {
    key: String,
    val: V,
}

/// A key-value table with string keys.
///
/// The digest of a key is the index of the bucket that holds its entry, so
/// the table has as many buckets as the largest digest it has seen asks for.
/// Keys whose digests collide share a bucket and are told apart by
/// comparison.
pub struct HashTable<V: Clone> {
    entries: Vec<Vec<Entry<V>>>,
    num_entries: usize,
}

/// One bucket as the model sees it.
spec fn chain_of<V: Clone>(bucket: Vec<Entry<V>>) -> Chain<V> {
    bucket@.map_values(|e: Entry<V>| (e.key@, e.val))
}

impl<V: Clone> View for HashTable<V> {
    type V = Map<Seq<char>, V>;

    /// The table as a map from keys to values.
    open spec fn view(&self) -> Map<Seq<char>, V> {
        as_map(self.buckets())
    }
}

/// Scans `bucket` from the front for the entry that holds `key`.
fn scan<V: Clone>(bucket: &Vec<Entry<V>>, key: &String) -> (at: Option<usize>)
    ensures
        match at {
            Some(j) => find(chain_of(*bucket), key@) == Some(j as int),
            None => find(chain_of(*bucket), key@) is None,
        },
{
    let ghost chain = chain_of(*bucket);
    let mut j: usize = 0;
    while j < bucket.len()
        invariant
            j <= bucket.len(),
            chain == chain_of(*bucket),
            forall|i: int| 0 <= i < j ==> (#[trigger] chain[i]).0 != key@,
        decreases bucket.len() - j,
    {
        if bucket[j].key == *key {
            proof {
                lemma_find_some(chain, key@, j as int);
            }
            return Some(j);
        }
        j = j + 1;
    }
    proof {
        lemma_find_none(chain, key@);
    }
    None
}

impl<V: Clone> HashTable<V> {
    /// The table's layout: its buckets in order, each with its entries in
    /// order.
    pub closed spec fn buckets(&self) -> Seq<Chain<V>> {
        self.entries@.map_values(|bucket: Vec<Entry<V>>| chain_of(bucket))
    }

    /// The entry count that the table keeps.
    pub closed spec fn spec_len(&self) -> usize {
        self.num_entries
    }

    /// The table's invariant: the layout is well formed, and the count that
    /// the table keeps is the number of entries in its buckets.
    pub open spec fn wf(&self) -> bool {
        &&& well_formed(self.buckets())
        &&& self.spec_len() == entry_count(self.buckets())
    }

    /// An empty table: one empty bucket and no entry.
    pub fn new() -> (table: Self)
        ensures
            table.wf(),
            table.buckets() == seq![Seq::<(Seq<char>, V)>::empty()],
            table.len() == 0,
            table@ == Map::<Seq<char>, V>::empty(),
    {
        let table = HashTable { entries: vec![Vec::new()], num_entries: 0 };
        proof {
            assert(table.buckets() =~~= seq![Seq::<(Seq<char>, V)>::empty()]);
            assert(entry_count(table.buckets().drop_last()) == 0);
            lemma_count_is_keys(table.buckets());
            assert(table@.dom().len() == 0);
            assert(table@ =~= Map::<Seq<char>, V>::empty());
        }
        table
    }

    /// The number of entries, which is the number of keys stored.
    #[verifier::when_used_as_spec(spec_len)]
    pub fn len(&self) -> (n: usize)
        requires
            self.wf(),
        ensures
            n == self.spec_len(),
            n == entry_count(self.buckets()),
            self@.dom().finite(),
            n == self@.len(),
    {
        proof {
            lemma_count_is_keys(self.buckets());
        }
        self.num_entries
    }

    /// The value stored under `k`, if there is one.
    pub fn get(&self, k: &str) -> (found: Option<&V>)
        ensures
            match found {
                Some(v) => lookup(self.buckets(), k@) == Some(*v),
                None => lookup(self.buckets(), k@) is None,
            },
            match found {
                Some(v) => self@.contains_key(k@) && self@[k@] == *v,
                None => !self@.contains_key(k@),
            },
    {
        let i = match time33_below(k, self.entries.len()) {
            Some(i) => i,
            None => {
                return None;
            },
        };
        let key = k.to_owned();
        match scan(&self.entries[i], &key) {
            Some(j) => Some(&self.entries[i][j].val),
            None => None,
        }
    }

    /// Stores `v` under `k`. A key that is already stored keeps its entry's
    /// place and gets the new value; a new key is appended to its bucket,
    /// after the buckets have grown to reach its digest.
    pub fn add(&mut self, k: &str, v: V)
        requires
            old(self).wf(),
            time33(k@) < usize::MAX,
            old(self)@.contains_key(k@) || old(self).len() < usize::MAX,
        ensures
            final(self).wf(),
            final(self).buckets() == put(old(self).buckets(), k@, v),
            final(self)@ == old(self)@.insert(k@, v),
            final(self).len() == if old(self)@.contains_key(k@) {
                old(self).len() as int
            } else {
                old(self).len() + 1
            },
    {
        let ghost before = self.buckets();
        let ghost room = grown(before, time33(k@) + 1);
        proof {
            lemma_grown(before, time33(k@) + 1);
            lemma_grown_lookup(before, time33(k@) + 1, k@);
            lemma_put_well_formed(before, k@, v);
            lemma_put_count(before, k@, v);
            lemma_as_map_put(before, k@, v);
        }
        let i = time33_key_fn(k);
        if i >= self.entries.len() {
            self.entries.resize(i + 1, Vec::new());
        }
        assert(self.buckets() =~~= room);
        let key = k.to_owned();
        match scan(&self.entries[i], &key) {
            Some(j) => {
                self.entries[i][j] = Entry { key, val: v };
                assert(self.buckets() =~~= room.update(
                    i as int,
                    room[i as int].update(j as int, (k@, v)),
                ));
            },
            None => {
                self.entries[i].push(Entry { key, val: v });
                self.num_entries += 1;
                assert(self.buckets() =~~= room.update(i as int, room[i as int].push((k@, v))));
            },
        }
    }

    /// Removes `k` and returns the value that was stored under it, if there
    /// was one. The entries behind it in its bucket move up.
    pub fn remove(&mut self, k: &str) -> (removed: Option<V>)
        requires
            old(self).wf(),
        ensures
            final(self).wf(),
            removed == lookup(old(self).buckets(), k@),
            final(self).buckets() == without(old(self).buckets(), k@),
            final(self)@ == old(self)@.remove(k@),
            final(self).len() == if removed is Some {
                old(self).len() - 1
            } else {
                old(self).len() as int
            },
    {
        let ghost before = self.buckets();
        proof {
            lemma_without_well_formed(before, k@);
            lemma_without_count(before, k@);
            lemma_as_map_without(before, k@);
        }
        let i = match time33_below(k, self.entries.len()) {
            Some(i) => i,
            None => {
                return None;
            },
        };
        let key = k.to_owned();
        match scan(&self.entries[i], &key) {
            Some(j) => {
                proof {
                    lemma_count_update(before, i as int, Seq::empty());
                }
                self.num_entries -= 1;
                let entry = self.entries[i].remove(j);
                assert(self.buckets() =~~= before.update(
                    i as int,
                    before[i as int].remove(j as int),
                ));
                Some(entry.val)
            },
            None => None,
        }
    }
}

} // verus!
