//! Facts about the layout model that the table's proofs rest on.

use crate::hash_funs::time33;
use crate::model::{
    as_map, distinct_keys, entry_count, find, first_match, grown, held, lookup, put, well_formed,
    without, Chain,
};
use vstd::prelude::*;

verus! {

/// A first match is what `find` returns.
pub proof fn lemma_find_some<V>(chain: Chain<V>, key: Seq<char>, j: int)
    requires
        first_match(chain, key, j),
    ensures
        find(chain, key) == Some(j),
{
    let found = choose|j: int| first_match(chain, key, j);
    assert(first_match(chain, key, found));
    if found < j {
        assert(chain[found].0 != key);
    }
    if j < found {
        assert(chain[j].0 != key);
    }
}

/// Where an entry holds `key`, some entry is the first to do so.
proof fn lemma_first_match_exists<V>(chain: Chain<V>, key: Seq<char>, at: int)
    requires
        0 <= at < chain.len(),
        chain[at].0 == key,
    ensures
        exists|j: int| first_match(chain, key, j),
    decreases at,
{
    if exists|i: int| 0 <= i < at && (#[trigger] chain[i]).0 == key {
        let i = choose|i: int| 0 <= i < at && (#[trigger] chain[i]).0 == key;
        lemma_first_match_exists(chain, key, i);
    } else {
        assert(first_match(chain, key, at));
    }
}

/// `find` returns a first match, or nothing where no entry holds the key.
pub proof fn lemma_find<V>(chain: Chain<V>, key: Seq<char>)
    ensures
        match find(chain, key) {
            Some(j) => first_match(chain, key, j),
            None => forall|i: int| 0 <= i < chain.len() ==> (#[trigger] chain[i]).0 != key,
        },
{
    if find(chain, key) is None {
        assert forall|i: int| 0 <= i < chain.len() implies (#[trigger] chain[i]).0 != key by {
            if chain[i].0 == key {
                lemma_first_match_exists(chain, key, i);
            }
        }
    }
}

/// A chain in which no entry holds `key` has no match for it.
pub proof fn lemma_find_none<V>(chain: Chain<V>, key: Seq<char>)
    requires
        forall|i: int| 0 <= i < chain.len() ==> (#[trigger] chain[i]).0 != key,
    ensures
        find(chain, key) is None,
{
    if exists|j: int| first_match(chain, key, j) {
        let j = choose|j: int| first_match(chain, key, j);
        assert(chain[j].0 == key);
    }
}

/// Replacing the entry that holds `key` stores `val` under it.
pub proof fn lemma_replace_same<V>(chain: Chain<V>, key: Seq<char>, val: V, j: int)
    requires
        first_match(chain, key, j),
    ensures
        held(chain.update(j, (key, val)), key) == Some(val),
        distinct_keys(chain) ==> distinct_keys(chain.update(j, (key, val))),
{
    let after = chain.update(j, (key, val));
    assert(first_match(after, key, j)) by {
        assert forall|i: int| 0 <= i < j implies (#[trigger] after[i]).0 != key by {
            assert(chain[i].0 != key);
        }
    }
    lemma_find_some(after, key, j);
    if distinct_keys(chain) {
        assert forall|a: int, b: int|
            0 <= a < after.len() && 0 <= b < after.len() && a != b implies (#[trigger] after[a]).0
            != (#[trigger] after[b]).0 by {
            assert(after[a].0 == chain[a].0);
            assert(after[b].0 == chain[b].0);
        }
    }
}

/// Replacing the entry that holds `key` leaves every other key as it was.
pub proof fn lemma_replace_other<V>(
    chain: Chain<V>,
    key: Seq<char>,
    val: V,
    j: int,
    other: Seq<char>,
)
    requires
        first_match(chain, key, j),
        other != key,
    ensures
        held(chain.update(j, (key, val)), other) == held(chain, other),
{
    let after = chain.update(j, (key, val));
    lemma_find(chain, other);
    match find(chain, other) {
        Some(x) => {
            assert(first_match(after, other, x)) by {
                assert forall|i: int| 0 <= i < x implies (#[trigger] after[i]).0 != other by {
                    assert(chain[i].0 != other);
                }
            }
            lemma_find_some(after, other, x);
        },
        None => {
            assert forall|i: int| 0 <= i < after.len() implies (#[trigger] after[i]).0
                != other by {
                assert(chain[i].0 != other);
            }
            lemma_find_none(after, other);
        },
    }
}

/// Appending an entry for a key that the chain does not hold stores `val`
/// under it.
pub proof fn lemma_append_same<V>(chain: Chain<V>, key: Seq<char>, val: V)
    requires
        find(chain, key) is None,
    ensures
        held(chain.push((key, val)), key) == Some(val),
        distinct_keys(chain) ==> distinct_keys(chain.push((key, val))),
{
    let after = chain.push((key, val));
    lemma_find(chain, key);
    assert(first_match(after, key, chain.len() as int)) by {
        assert forall|i: int| 0 <= i < chain.len() implies (#[trigger] after[i]).0 != key by {
            assert(chain[i].0 != key);
        }
    }
    lemma_find_some(after, key, chain.len() as int);
    if distinct_keys(chain) {
        assert forall|a: int, b: int|
            0 <= a < after.len() && 0 <= b < after.len() && a != b implies (#[trigger] after[a]).0
            != (#[trigger] after[b]).0 by {
            if a < chain.len() {
                assert(after[a] == chain[a]);
            }
            if b < chain.len() {
                assert(after[b] == chain[b]);
            }
        }
    }
}

/// Appending an entry for `key` leaves every other key as it was.
pub proof fn lemma_append_other<V>(chain: Chain<V>, key: Seq<char>, val: V, other: Seq<char>)
    requires
        other != key,
    ensures
        held(chain.push((key, val)), other) == held(chain, other),
{
    let after = chain.push((key, val));
    lemma_find(chain, other);
    match find(chain, other) {
        Some(x) => {
            assert(first_match(after, other, x)) by {
                assert forall|i: int| 0 <= i < x implies (#[trigger] after[i]).0 != other by {
                    assert(chain[i].0 != other);
                }
            }
            lemma_find_some(after, other, x);
        },
        None => {
            assert forall|i: int| 0 <= i < after.len() implies (#[trigger] after[i]).0
                != other by {
                if i < chain.len() {
                    assert(chain[i].0 != other);
                }
            }
            lemma_find_none(after, other);
        },
    }
}

/// Taking out the only entry that holds `key` leaves the chain without it.
pub proof fn lemma_take_out_same<V>(chain: Chain<V>, key: Seq<char>, j: int)
    requires
        first_match(chain, key, j),
        distinct_keys(chain),
    ensures
        held(chain.remove(j), key) is None,
        distinct_keys(chain.remove(j)),
{
    let after = chain.remove(j);
    assert forall|i: int| 0 <= i < after.len() implies (#[trigger] after[i]).0 != key by {
        if i < j {
            assert(after[i] == chain[i]);
        } else {
            assert(after[i] == chain[i + 1]);
        }
    }
    lemma_find_none(after, key);
    assert forall|a: int, b: int|
        0 <= a < after.len() && 0 <= b < after.len() && a != b implies (#[trigger] after[a]).0 != (
    #[trigger] after[b]).0 by {
        let a0 = if a < j { a } else { a + 1 };
        let b0 = if b < j { b } else { b + 1 };
        assert(after[a] == chain[a0]);
        assert(after[b] == chain[b0]);
    }
}

/// Taking out the entry that holds `key` leaves every other key as it was.
pub proof fn lemma_take_out_other<V>(chain: Chain<V>, key: Seq<char>, j: int, other: Seq<char>)
    requires
        first_match(chain, key, j),
        other != key,
    ensures
        held(chain.remove(j), other) == held(chain, other),
{
    let after = chain.remove(j);
    lemma_find(chain, other);
    match find(chain, other) {
        Some(x) => {
            let y = if x < j { x } else { x - 1 };
            assert(after[y] == chain[x]);
            assert(first_match(after, other, y)) by {
                assert forall|i: int| 0 <= i < y implies (#[trigger] after[i]).0 != other by {
                    if i < j {
                        assert(after[i] == chain[i]);
                    } else {
                        assert(after[i] == chain[i + 1]);
                    }
                }
            }
            lemma_find_some(after, other, y);
        },
        None => {
            assert forall|i: int| 0 <= i < after.len() implies (#[trigger] after[i]).0
                != other by {
                if i < j {
                    assert(after[i] == chain[i]);
                } else {
                    assert(after[i] == chain[i + 1]);
                }
            }
            lemma_find_none(after, other);
        },
    }
}

/// Growing appends empty buckets and touches nothing else.
pub proof fn lemma_grown<V>(chains: Seq<Chain<V>>, n: nat)
    ensures
        grown(chains, n).len() == if chains.len() >= n {
            chains.len()
        } else {
            n
        },
        forall|i: int| 0 <= i < chains.len() ==> (#[trigger] grown(chains, n)[i]) == chains[i],
        forall|i: int|
            chains.len() <= i < grown(chains, n).len() ==> (#[trigger] grown(chains, n)[i]).len()
                == 0,
        well_formed(chains) ==> well_formed(grown(chains, n)),
        entry_count(grown(chains, n)) == entry_count(chains),
    decreases n,
{
    let room = grown(chains, n);
    if well_formed(chains) {
        assert forall|i: int, j: int| 0 <= i < room.len() && 0 <= j < room[i].len() implies time33(
            (#[trigger] room[i][j]).0,
        ) == i by {
            assert(room[i][j] == chains[i][j]);
        }
        assert forall|i: int| 0 <= i < room.len() implies distinct_keys(#[trigger] room[i]) by {
            if i < chains.len() {
                assert(room[i] == chains[i]);
            }
        }
    }
    if chains.len() < n {
        lemma_grown(chains, (n - 1) as nat);
        assert(room.drop_last() =~= grown(chains, (n - 1) as nat));
    }
}

/// Growing changes no lookup.
pub proof fn lemma_grown_lookup<V>(chains: Seq<Chain<V>>, n: nat, key: Seq<char>)
    ensures
        lookup(grown(chains, n), key) == lookup(chains, key),
{
    let room = grown(chains, n);
    let d = time33(key) as int;
    lemma_grown(chains, n);
    if d < chains.len() {
        assert(room[d] == chains[d]);
    } else if d < room.len() {
        lemma_find_none(room[d], key);
    }
}

/// Exchanging one bucket changes the number of entries by the difference of
/// the two buckets' lengths.
pub proof fn lemma_count_update<V>(chains: Seq<Chain<V>>, i: int, chain: Chain<V>)
    requires
        0 <= i < chains.len(),
    ensures
        entry_count(chains.update(i, chain)) == entry_count(chains) - chains[i].len() + chain.len(),
    decreases chains.len(),
{
    let after = chains.update(i, chain);
    if i == chains.len() - 1 {
        assert(after.drop_last() =~= chains.drop_last());
    } else {
        lemma_count_update(chains.drop_last(), i, chain);
        assert(after.drop_last() =~= chains.drop_last().update(i, chain));
    }
}

/// After `val` is stored under `key`, a lookup of `key` finds `val`.
pub proof fn lemma_put_same<V>(chains: Seq<Chain<V>>, key: Seq<char>, val: V)
    ensures
        lookup(put(chains, key, val), key) == Some(val),
{
    let d = time33(key) as int;
    let room = grown(chains, time33(key) + 1);
    lemma_grown(chains, time33(key) + 1);
    lemma_find(room[d], key);
    match find(room[d], key) {
        Some(j) => lemma_replace_same(room[d], key, val, j),
        None => lemma_append_same(room[d], key, val),
    }
}

/// Storing a value under `key` changes the lookup of no other key.
pub proof fn lemma_put_other<V>(chains: Seq<Chain<V>>, key: Seq<char>, val: V, other: Seq<char>)
    requires
        other != key,
    ensures
        lookup(put(chains, key, val), other) == lookup(chains, other),
{
    let d = time33(key) as int;
    let room = grown(chains, time33(key) + 1);
    lemma_grown(chains, time33(key) + 1);
    lemma_grown_lookup(chains, time33(key) + 1, other);
    lemma_find(room[d], key);
    if time33(other) == d {
        match find(room[d], key) {
            Some(j) => lemma_replace_other(room[d], key, val, j, other),
            None => lemma_append_other(room[d], key, val, other),
        }
    }
}

/// Storing a value keeps the layout well formed.
pub proof fn lemma_put_well_formed<V>(chains: Seq<Chain<V>>, key: Seq<char>, val: V)
    requires
        well_formed(chains),
    ensures
        well_formed(put(chains, key, val)),
{
    let d = time33(key) as int;
    let room = grown(chains, time33(key) + 1);
    let after = put(chains, key, val);
    lemma_grown(chains, time33(key) + 1);
    lemma_find(room[d], key);
    match find(room[d], key) {
        Some(j) => lemma_replace_same(room[d], key, val, j),
        None => lemma_append_same(room[d], key, val),
    }
    assert forall|i: int, j: int| 0 <= i < after.len() && 0 <= j < after[i].len() implies time33(
        (#[trigger] after[i][j]).0,
    ) == i by {
        if i == d {
            if after[i][j] != (key, val) {
                assert(after[i][j] == room[i][j]);
            }
        } else {
            assert(after[i][j] == room[i][j]);
        }
    }
    assert forall|i: int| 0 <= i < after.len() implies distinct_keys(#[trigger] after[i]) by {
        if i != d {
            assert(after[i] == room[i]);
        }
    }
}

/// Storing a value adds one entry where the key was not stored, and none
/// where it was.
pub proof fn lemma_put_count<V>(chains: Seq<Chain<V>>, key: Seq<char>, val: V)
    ensures
        entry_count(put(chains, key, val)) == entry_count(chains) + if lookup(chains, key) is Some {
            0nat
        } else {
            1nat
        },
{
    let d = time33(key) as int;
    let room = grown(chains, time33(key) + 1);
    lemma_grown(chains, time33(key) + 1);
    lemma_grown_lookup(chains, time33(key) + 1, key);
    lemma_find(room[d], key);
    match find(room[d], key) {
        Some(j) => lemma_count_update(room, d, room[d].update(j, (key, val))),
        None => lemma_count_update(room, d, room[d].push((key, val))),
    }
}

/// After `key` is removed, a lookup of it finds nothing.
pub proof fn lemma_without_same<V>(chains: Seq<Chain<V>>, key: Seq<char>)
    requires
        well_formed(chains),
    ensures
        lookup(without(chains, key), key) is None,
{
    let d = time33(key) as int;
    if d < chains.len() {
        lemma_find(chains[d], key);
        match find(chains[d], key) {
            Some(j) => lemma_take_out_same(chains[d], key, j),
            None => {},
        }
    }
}

/// Removing `key` changes the lookup of no other key.
pub proof fn lemma_without_other<V>(chains: Seq<Chain<V>>, key: Seq<char>, other: Seq<char>)
    requires
        other != key,
    ensures
        lookup(without(chains, key), other) == lookup(chains, other),
{
    let d = time33(key) as int;
    if d < chains.len() {
        lemma_find(chains[d], key);
        match find(chains[d], key) {
            Some(j) => {
                if time33(other) == d {
                    lemma_take_out_other(chains[d], key, j, other);
                }
            },
            None => {},
        }
    }
}

/// Removing a key keeps the layout well formed.
pub proof fn lemma_without_well_formed<V>(chains: Seq<Chain<V>>, key: Seq<char>)
    requires
        well_formed(chains),
    ensures
        well_formed(without(chains, key)),
{
    let d = time33(key) as int;
    let after = without(chains, key);
    if d < chains.len() {
        lemma_find(chains[d], key);
        match find(chains[d], key) {
            Some(j) => {
                lemma_take_out_same(chains[d], key, j);
                assert forall|i: int, x: int|
                    0 <= i < after.len() && 0 <= x < after[i].len() implies time33(
                    (#[trigger] after[i][x]).0,
                ) == i by {
                    if i == d {
                        let x0 = if x < j { x } else { x + 1 };
                        assert(after[i][x] == chains[i][x0]);
                    } else {
                        assert(after[i][x] == chains[i][x]);
                    }
                }
                assert forall|i: int| 0 <= i < after.len() implies distinct_keys(
                    #[trigger] after[i],
                ) by {
                    if i != d {
                        assert(after[i] == chains[i]);
                    }
                }
            },
            None => {},
        }
    }
}

/// Removing a key takes one entry away where the key was stored, and none
/// where it was not.
pub proof fn lemma_without_count<V>(chains: Seq<Chain<V>>, key: Seq<char>)
    ensures
        entry_count(without(chains, key)) == entry_count(chains) - if lookup(chains, key) is Some {
            1int
        } else {
            0int
        },
{
    let d = time33(key) as int;
    if d < chains.len() {
        lemma_find(chains[d], key);
        match find(chains[d], key) {
            Some(j) => lemma_count_update(chains, d, chains[d].remove(j)),
            None => {},
        }
    }
}

/// Read as a map, storing a value is the map's insertion.
pub proof fn lemma_as_map_put<V>(chains: Seq<Chain<V>>, key: Seq<char>, val: V)
    ensures
        as_map(put(chains, key, val)) == as_map(chains).insert(key, val),
{
    let after = as_map(put(chains, key, val));
    let expected = as_map(chains).insert(key, val);
    lemma_put_same(chains, key, val);
    assert forall|k: Seq<char>| #[trigger]
        after.dom().contains(k) == expected.dom().contains(k) && (after.dom().contains(k)
            ==> after[k] == expected[k]) by {
        if k != key {
            lemma_put_other(chains, key, val, k);
        }
    }
    assert(after =~= expected);
}

/// Read as a map, removing a key is the map's removal.
pub proof fn lemma_as_map_without<V>(chains: Seq<Chain<V>>, key: Seq<char>)
    requires
        well_formed(chains),
    ensures
        as_map(without(chains, key)) == as_map(chains).remove(key),
{
    let after = as_map(without(chains, key));
    let expected = as_map(chains).remove(key);
    lemma_without_same(chains, key);
    assert forall|k: Seq<char>| #[trigger]
        after.dom().contains(k) == expected.dom().contains(k) && (after.dom().contains(k)
            ==> after[k] == expected[k]) by {
        if k != key {
            lemma_without_other(chains, key, k);
        }
    }
    assert(after =~= expected);
}

/// The keys that a chain holds.
spec fn chain_keys<V>(chain: Chain<V>) -> Set<Seq<char>> {
    chain.map_values(|e: (Seq<char>, V)| e.0).to_set()
}

/// A chain of distinct keys holds as many keys as it has entries.
proof fn lemma_chain_keys_len<V>(chain: Chain<V>)
    requires
        distinct_keys(chain),
    ensures
        chain_keys(chain).finite(),
        chain_keys(chain).len() == chain.len(),
{
    let keys = chain.map_values(|e: (Seq<char>, V)| e.0);
    assert forall|a: int, b: int| 0 <= a < keys.len() && 0 <= b < keys.len() && a != b implies keys[a]
        != keys[b] by {
        assert(keys[a] == chain[a].0);
        assert(keys[b] == chain[b].0);
    }
    keys.unique_seq_to_set();
    vstd::seq_lib::seq_to_set_is_finite(keys);
}

/// A well-formed layout stores finitely many keys, as many as it has
/// entries.
pub proof fn lemma_count_is_keys<V>(chains: Seq<Chain<V>>)
    requires
        well_formed(chains),
    ensures
        as_map(chains).dom().finite(),
        as_map(chains).dom().len() == entry_count(chains),
    decreases chains.len(),
{
    let stored = as_map(chains).dom();
    if chains.len() == 0 {
        assert(stored =~= Set::empty());
    } else {
        let front = chains.drop_last();
        let last = chains.last();
        let n = chains.len() - 1;
        assert(well_formed(front)) by {
            assert forall|i: int, j: int|
                0 <= i < front.len() && 0 <= j < front[i].len() implies time33(
                (#[trigger] front[i][j]).0,
            ) == i by {
                assert(front[i][j] == chains[i][j]);
            }
            assert forall|i: int| 0 <= i < front.len() implies distinct_keys(
                #[trigger] front[i],
            ) by {
                assert(front[i] == chains[i]);
            }
        }
        lemma_count_is_keys(front);
        assert(distinct_keys(chains[n]));
        lemma_chain_keys_len(last);
        let before = as_map(front).dom();
        let added = chain_keys(last);
        let keys = last.map_values(|e: (Seq<char>, V)| e.0);
        assert forall|k: Seq<char>| #[trigger] stored.contains(k) == (before + added).contains(k) by {
            let d = time33(k) as int;
            lemma_find(last, k);
            if d < n {
                assert(chains[d] == front[d]);
            }
            if stored.contains(k) && d == n {
                let j = find(last, k)->0;
                assert(keys[j] == k);
            }
            if added.contains(k) {
                let j = choose|j: int| 0 <= j < keys.len() && keys[j] == k;
                assert(chains[n][j].0 == k);
            }
        }
        assert(stored =~= before + added);
        assert(before.disjoint(added)) by {
            assert forall|k: Seq<char>| before.contains(k) implies !added.contains(k) by {
                if added.contains(k) {
                    let j = choose|j: int| 0 <= j < keys.len() && keys[j] == k;
                    assert(chains[n][j].0 == k);
                }
            }
        }
        vstd::set_lib::lemma_set_disjoint_lens(before, added);
    }
}

} // verus!
