//! What holds of the table's operations taken together.
//!
//! The laws speak of layouts and of the model's `put`, `without`, `lookup`
//! and `entry_count`: `add` leaves the layout that `put` gives, `remove`
//! leaves the one that `without` gives and returns what `lookup` found, `get`
//! returns what `lookup` finds, and `len` returns the `entry_count`.

use crate::hash_funs::time33;
use crate::lemmas::{
    lemma_count_is_keys, lemma_find, lemma_find_none, lemma_put_count, lemma_put_other,
    lemma_put_same, lemma_put_well_formed, lemma_without_count, lemma_without_other,
    lemma_without_same, lemma_without_well_formed,
};
use crate::model::{as_map, entry_count, lookup, put, well_formed, without, Chain};
use vstd::prelude::*;

verus! {

/// A value that was stored under a key is the value found under it.
pub proof fn law_add_then_get<V>(chains: Seq<Chain<V>>, key: Seq<char>, val: V)
    ensures
        lookup(put(chains, key, val), key) == Some(val),
{
    lemma_put_same(chains, key, val);
}

/// Storing a second value under a key replaces the first: the number of
/// entries stays what it was after the first store, and the second value is
/// the one found.
pub proof fn law_add_twice<V>(chains: Seq<Chain<V>>, key: Seq<char>, first: V, second: V)
    ensures
        entry_count(put(put(chains, key, first), key, second)) == entry_count(
            put(chains, key, first),
        ),
        lookup(put(put(chains, key, first), key, second), key) == Some(second),
{
    let once = put(chains, key, first);
    lemma_put_same(chains, key, first);
    lemma_put_count(once, key, second);
    lemma_put_same(once, key, second);
}

/// Removing a key that was just stored returns the stored value, leaves
/// nothing to be found under the key, and takes exactly one entry away.
pub proof fn law_add_then_remove<V>(chains: Seq<Chain<V>>, key: Seq<char>, val: V)
    requires
        well_formed(chains),
    ensures
        lookup(put(chains, key, val), key) == Some(val),
        lookup(without(put(chains, key, val), key), key) is None,
        entry_count(without(put(chains, key, val), key)) == entry_count(put(chains, key, val)) - 1,
{
    let stored = put(chains, key, val);
    lemma_put_same(chains, key, val);
    lemma_put_well_formed(chains, key, val);
    lemma_without_same(stored, key);
    lemma_without_count(stored, key);
}

/// Removing a key that is not stored changes nothing, whatever its digest:
/// the layout stays as it was, and so does the number of entries.
pub proof fn law_remove_miss<V>(chains: Seq<Chain<V>>, key: Seq<char>)
    requires
        lookup(chains, key) is None,
    ensures
        without(chains, key) == chains,
        entry_count(without(chains, key)) == entry_count(chains),
{
    lemma_find(chains[time33(key) as int], key);
}

/// Two keys with the same digest are stored side by side: after both were
/// stored, each is found with its own value.
pub proof fn law_collision<V>(
    chains: Seq<Chain<V>>,
    key1: Seq<char>,
    val1: V,
    key2: Seq<char>,
    val2: V,
)
    requires
        key1 != key2,
        time33(key1) == time33(key2),
    ensures
        lookup(put(put(chains, key1, val1), key2, val2), key1) == Some(val1),
        lookup(put(put(chains, key1, val1), key2, val2), key2) == Some(val2),
{
    let once = put(chains, key1, val1);
    lemma_put_same(chains, key1, val1);
    lemma_put_other(once, key2, val2, key1);
    lemma_put_same(once, key2, val2);
}

/// A key is held by at most one entry of the whole table.
pub proof fn law_one_entry_per_key<V>(chains: Seq<Chain<V>>, i1: int, j1: int, i2: int, j2: int)
    requires
        well_formed(chains),
        0 <= i1 < chains.len(),
        0 <= j1 < chains[i1].len(),
        0 <= i2 < chains.len(),
        0 <= j2 < chains[i2].len(),
        chains[i1][j1].0 == chains[i2][j2].0,
    ensures
        i1 == i2,
        j1 == j2,
{
}

/// One call that changes a table.
pub enum Step<V> {
    /// Storing `val` under `key`.
    Add { key: Seq<char>, val: V },
    /// Removing `key`.
    Remove { key: Seq<char> },
}

/// The layout after one step.
pub open spec fn after<V>(chains: Seq<Chain<V>>, step: Step<V>) -> Seq<Chain<V>> {
    match step {
        Step::Add { key, val } => put(chains, key, val),
        Step::Remove { key } => without(chains, key),
    }
}

/// The layout of a new table after `steps`, taken in order.
pub open spec fn run<V>(steps: Seq<Step<V>>) -> Seq<Chain<V>>
    decreases steps.len(),
{
    if steps.len() == 0 {
        seq![Seq::<(Seq<char>, V)>::empty()]
    } else {
        after(run(steps.drop_last()), steps.last())
    }
}

/// Whether `key` is stored after `steps`: whether the last step that names
/// it is one that stores it.
pub open spec fn present<V>(steps: Seq<Step<V>>, key: Seq<char>) -> bool
    decreases steps.len(),
{
    if steps.len() == 0 {
        false
    } else {
        match steps.last() {
            Step::Add { key: k, .. } => k == key || present(steps.drop_last(), key),
            Step::Remove { key: k } => k != key && present(steps.drop_last(), key),
        }
    }
}

/// Whatever steps a table has taken, its layout is well formed.
pub proof fn law_run_well_formed<V>(steps: Seq<Step<V>>)
    ensures
        well_formed(run(steps)),
    decreases steps.len(),
{
    if steps.len() > 0 {
        law_run_well_formed(steps.drop_last());
        match steps.last() {
            Step::Add { key, val } => lemma_put_well_formed(run(steps.drop_last()), key, val),
            Step::Remove { key } => lemma_without_well_formed(run(steps.drop_last()), key),
        }
    }
}

/// Whatever steps a table has taken, a key is found in it exactly if it was
/// stored after it was last removed.
pub proof fn law_run_present<V>(steps: Seq<Step<V>>, key: Seq<char>)
    ensures
        lookup(run(steps), key) is Some <==> present(steps, key),
    decreases steps.len(),
{
    if steps.len() == 0 {
        lemma_find_none(run(steps)[0], key);
    } else {
        let before = run(steps.drop_last());
        law_run_present(steps.drop_last(), key);
        law_run_well_formed(steps.drop_last());
        match steps.last() {
            Step::Add { key: k, val } => {
                if k == key {
                    lemma_put_same(before, k, val);
                } else {
                    lemma_put_other(before, k, val, key);
                }
            },
            Step::Remove { key: k } => {
                if k == key {
                    lemma_without_same(before, k);
                } else {
                    lemma_without_other(before, k, key);
                }
            },
        }
    }
}

/// A key that no step has stored is not found, whatever its digest.
pub proof fn law_never_added<V>(steps: Seq<Step<V>>, key: Seq<char>)
    requires
        forall|i: int|
            0 <= i < steps.len() ==> match #[trigger] steps[i] {
                Step::Add { key: k, .. } => k != key,
                Step::Remove { .. } => true,
            },
    ensures
        lookup(run(steps), key) is None,
{
    law_run_present(steps, key);
    lemma_absent(steps, key);
}

/// A key that no step has stored is not present.
proof fn lemma_absent<V>(steps: Seq<Step<V>>, key: Seq<char>)
    requires
        forall|i: int|
            0 <= i < steps.len() ==> match #[trigger] steps[i] {
                Step::Add { key: k, .. } => k != key,
                Step::Remove { .. } => true,
            },
    ensures
        !present(steps, key),
    decreases steps.len(),
{
    if steps.len() > 0 {
        let front = steps.drop_last();
        assert forall|i: int| 0 <= i < front.len() implies match #[trigger] front[i] {
            Step::Add { key: k, .. } => k != key,
            Step::Remove { .. } => true,
        } by {
            assert(front[i] == steps[i]);
        }
        lemma_absent(front, key);
        assert(steps.last() == steps[steps.len() - 1]);
    }
}

/// Whatever steps a table has taken, it has as many entries as there are
/// keys stored in it: the keys that were stored after they were last
/// removed.
pub proof fn law_count<V>(steps: Seq<Step<V>>)
    ensures
        as_map(run(steps)).dom() == Set::new(|key: Seq<char>| present(steps, key)),
        as_map(run(steps)).dom().finite(),
        entry_count(run(steps)) == as_map(run(steps)).dom().len(),
{
    law_run_well_formed(steps);
    lemma_count_is_keys(run(steps));
    assert forall|key: Seq<char>| #[trigger]
        as_map(run(steps)).dom().contains(key) == present(steps, key) by {
        law_run_present(steps, key);
    }
    assert(as_map(run(steps)).dom() =~= Set::new(|key: Seq<char>| present(steps, key)));
}

} // verus!
