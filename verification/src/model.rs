//! The table's layout as plain sequences, and what each operation does to it.
//!
//! A table is a sequence of buckets. A bucket is a chain of entries in the
//! order in which they were appended, and an entry pairs a key's text with the
//! value stored under it. The digest of a key is the index of its bucket.

use crate::hash_funs::time33;
use vstd::prelude::*;

verus! {

/// One bucket: its entries, oldest first.
pub type Chain<V> = Seq<(Seq<char>, V)>;

/// Entry `j` of `chain` holds `key`, and no entry before it does.
pub open spec fn first_match<V>(chain: Chain<V>, key: Seq<char>, j: int) -> bool {
    &&& 0 <= j < chain.len()
    &&& chain[j].0 == key
    &&& forall|i: int| 0 <= i < j ==> (#[trigger] chain[i]).0 != key
}

/// The index of the first entry of `chain` that holds `key`, if there is one:
/// what a scan from the front of the chain finds.
pub open spec fn find<V>(chain: Chain<V>, key: Seq<char>) -> Option<int> {
    if exists|j: int| first_match(chain, key, j) {
        Some(choose|j: int| first_match(chain, key, j))
    } else {
        None
    }
}

/// The value that `chain` holds under `key`, if it holds one.
pub open spec fn held<V>(chain: Chain<V>, key: Seq<char>) -> Option<V> {
    match find(chain, key) {
        Some(j) => Some(chain[j].1),
        None => None,
    }
}

/// The value stored under `key`: the key's digest picks the bucket, and a
/// scan of that bucket finds the entry. A digest past the last bucket finds
/// nothing.
pub open spec fn lookup<V>(chains: Seq<Chain<V>>, key: Seq<char>) -> Option<V> {
    let d = time33(key) as int;
    if d < chains.len() {
        held(chains[d], key)
    } else {
        None
    }
}

/// `chains` with empty buckets appended until there are at least `n`.
pub open spec fn grown<V>(chains: Seq<Chain<V>>, n: nat) -> Seq<Chain<V>> {
    if chains.len() >= n {
        chains
    } else {
        chains + Seq::new((n - chains.len()) as nat, |i: int| Seq::<(Seq<char>, V)>::empty())
    }
}

/// The layout after `val` is stored under `key`: the buckets grow until the
/// key's digest is a valid index; then the entry that holds the key is
/// replaced where it stands, or a new entry is appended to the bucket.
pub open spec fn put<V>(chains: Seq<Chain<V>>, key: Seq<char>, val: V) -> Seq<Chain<V>> {
    let d = time33(key) as int;
    let room = grown(chains, time33(key) + 1);
    match find(room[d], key) {
        Some(j) => room.update(d, room[d].update(j, (key, val))),
        None => room.update(d, room[d].push((key, val))),
    }
}

/// The layout after `key` is removed: the entry that holds it leaves its
/// bucket and the entries behind it move up. Nothing changes where the key is
/// not stored.
pub open spec fn without<V>(chains: Seq<Chain<V>>, key: Seq<char>) -> Seq<Chain<V>> {
    let d = time33(key) as int;
    if d < chains.len() {
        match find(chains[d], key) {
            Some(j) => chains.update(d, chains[d].remove(j)),
            None => chains,
        }
    } else {
        chains
    }
}

/// The number of entries in all buckets together.
pub open spec fn entry_count<V>(chains: Seq<Chain<V>>) -> nat
    decreases chains.len(),
{
    if chains.len() == 0 {
        0
    } else {
        entry_count(chains.drop_last()) + chains.last().len()
    }
}

/// Every entry stands in the bucket that its key's digest names.
pub open spec fn placed<V>(chains: Seq<Chain<V>>) -> bool {
    forall|i: int, j: int|
        0 <= i < chains.len() && 0 <= j < chains[i].len() ==> time33(
            (#[trigger] chains[i][j]).0,
        ) == i
}

/// No two entries of `chain` hold the same key.
pub open spec fn distinct_keys<V>(chain: Chain<V>) -> bool {
    forall|a: int, b: int|
        0 <= a < chain.len() && 0 <= b < chain.len() && a != b ==> (#[trigger] chain[a]).0 != (
        #[trigger] chain[b]).0
}

/// The layout invariant: entries stand in the bucket of their digest, and a
/// key is held by at most one entry.
pub open spec fn well_formed<V>(chains: Seq<Chain<V>>) -> bool {
    &&& placed(chains)
    &&& forall|i: int| 0 <= i < chains.len() ==> distinct_keys(#[trigger] chains[i])
}

/// The layout read as a map from keys to values.
pub open spec fn as_map<V>(chains: Seq<Chain<V>>) -> Map<Seq<char>, V> {
    Map::new(
        |key: Seq<char>| lookup(chains, key) is Some,
        |key: Seq<char>| lookup(chains, key)->0,
    )
}

} // verus!
