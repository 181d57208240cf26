use chained_map::hash_funs::{time33_below, time33_key_fn};
use chained_map::table::HashTable;

#[test]
fn map_add_test() {
    let mut m = HashTable::new();
    m.add("k1", "v1");
    m.add("k100000", "v100000");
    assert_eq!(m.get("k1"), Some(&"v1"));
    assert_eq!(m.get("k2"), None);
    assert_eq!(m.get("k100000"), Some(&"v100000"))
}

#[test]
fn map_remove_test() {
    let mut m = HashTable::new();
    m.add("k1", "v1");
    m.add("k100000", "v100000");
    assert_eq!(m.get("k1"), Some(&"v1"));
    assert_eq!(m.get("k100000"), Some(&"v100000"));
    m.remove("k1");
    assert_eq!(m.get("k1"), None);
    assert_eq!(m.get("k100000"), Some(&"v100000"));
}

#[test]
fn map_len_test() {
    let mut m = HashTable::new();
    m.add("k1", "v1");
    m.add("k100000", "v100000");
    assert_eq!(m.len(), 2);
    m.add("k2", "v2");
    assert_eq!(m.len(), 3);
    m.remove("k2");
    assert_eq!(m.len(), 2);
    m.remove("k1");
    m.remove("k100000");
    assert_eq!(m.len(), 0)
}

#[test]
fn new_table_is_empty() {
    let m: HashTable<u32> = HashTable::new();
    assert_eq!(m.len(), 0);
    assert_eq!(m.get(""), None);
    assert_eq!(m.get("k1"), None);
}

#[test]
fn add_then_get_returns_the_value() {
    let mut m = HashTable::new();
    m.add("alpha", 1u32);
    assert_eq!(m.get("alpha"), Some(&1));
    m.add("", 2);
    assert_eq!(m.get(""), Some(&2));
    assert_eq!(m.get("alpha"), Some(&1));
    assert_eq!(m.len(), 2);
}

#[test]
fn add_twice_updates_in_place() {
    let mut m = HashTable::new();
    m.add("k", String::from("first"));
    assert_eq!(m.len(), 1);
    m.add("k", String::from("second"));
    assert_eq!(m.len(), 1);
    assert_eq!(m.get("k"), Some(&String::from("second")));
}

#[test]
fn remove_returns_the_value_and_forgets_the_key() {
    let mut m = HashTable::new();
    m.add("other", 5u8);
    m.add("k", 9u8);
    assert_eq!(m.len(), 2);
    assert_eq!(m.remove("k"), Some(9));
    assert_eq!(m.get("k"), None);
    assert_eq!(m.len(), 1);
    assert_eq!(m.remove("k"), None);
    assert_eq!(m.len(), 1);
    assert_eq!(m.get("other"), Some(&5));
}

#[test]
fn miss_leaves_the_table_alone() {
    let mut m = HashTable::new();
    m.add("k1", 1i64);
    assert_eq!(m.get("zzzzzzzzzzzzzzzzzzzz"), None);
    assert_eq!(m.remove("zzzzzzzzzzzzzzzzzzzz"), None);
    assert_eq!(m.get("k"), None);
    assert_eq!(m.remove("k"), None);
    assert_eq!(m.len(), 1);
    assert_eq!(m.get("k1"), Some(&1));
}

#[test]
fn miss_with_a_huge_digest() {
    let mut m = HashTable::new();
    m.add("a", 1u8);
    let long: String = std::iter::repeat('\u{10FFFF}').take(100_000).collect();
    assert_eq!(m.get(&long), None);
    assert_eq!(m.remove(&long), None);
    assert_eq!(m.len(), 1);
    assert_eq!(m.get("a"), Some(&1));
}

#[test]
fn miss_just_past_the_last_bucket() {
    // "b" has the digest 98 * 33, so the table has that many buckets and one
    // more; "c" has the next digest there is, which no bucket answers to.
    let mut m = HashTable::new();
    m.add("b", 1u8);
    assert_eq!(m.get("c"), None);
    assert_eq!(m.remove("c"), None);
    assert_eq!(m.get("a"), None);
    assert_eq!(m.remove("a"), None);
    assert_eq!(m.len(), 1);
    assert_eq!(m.get("b"), Some(&1));
}

#[test]
fn colliding_keys_live_side_by_side() {
    assert_eq!(time33_key_fn("listen"), time33_key_fn("silent"));
    let mut m = HashTable::new();
    m.add("listen", 1u32);
    m.add("silent", 2u32);
    assert_eq!(m.len(), 2);
    assert_eq!(m.get("listen"), Some(&1));
    assert_eq!(m.get("silent"), Some(&2));
    assert_eq!(m.get("enlist"), None);
    m.add("listen", 3);
    assert_eq!(m.len(), 2);
    assert_eq!(m.get("listen"), Some(&3));
    assert_eq!(m.get("silent"), Some(&2));
    assert_eq!(m.remove("listen"), Some(3));
    assert_eq!(m.get("listen"), None);
    assert_eq!(m.get("silent"), Some(&2));
    assert_eq!(m.len(), 1);
}

#[test]
fn removing_from_the_middle_of_a_bucket() {
    let mut m = HashTable::new();
    m.add("abc", 1u8);
    m.add("bca", 2u8);
    m.add("cab", 3u8);
    assert_eq!(m.remove("bca"), Some(2));
    assert_eq!(m.get("abc"), Some(&1));
    assert_eq!(m.get("bca"), None);
    assert_eq!(m.get("cab"), Some(&3));
    assert_eq!(m.len(), 2);
    m.add("bca", 4);
    assert_eq!(m.get("bca"), Some(&4));
    assert_eq!(m.len(), 3);
}

#[test]
fn count_follows_adds_and_removes() {
    let mut m = HashTable::new();
    let keys = ["a", "b", "ab", "ba", "abc", "k1", "k2"];
    for (i, k) in keys.iter().enumerate() {
        m.add(k, i);
        assert_eq!(m.len(), i + 1);
    }
    for k in keys.iter() {
        m.add(k, 0);
    }
    assert_eq!(m.len(), keys.len());
    for (i, k) in keys.iter().enumerate() {
        assert_eq!(m.remove(k), Some(0));
        assert_eq!(m.len(), keys.len() - i - 1);
    }
    for k in keys.iter() {
        assert_eq!(m.get(k), None);
    }
}

#[test]
fn scenario_two_keys_then_remove_one() {
    let mut m = HashTable::new();
    m.add("k1", "v1");
    m.add("k100000", "v100000");
    assert_eq!(m.get("k1"), Some(&"v1"));
    assert_eq!(m.get("k2"), None);
    assert_eq!(m.get("k100000"), Some(&"v100000"));
    assert_eq!(m.len(), 2);
    assert_eq!(m.remove("k1"), Some("v1"));
    assert_eq!(m.get("k1"), None);
    assert_eq!(m.get("k100000"), Some(&"v100000"));
    assert_eq!(m.len(), 1);
}

#[test]
fn digest_of_the_empty_text_is_zero() {
    assert_eq!(time33_key_fn(""), 0);
}

#[test]
fn digest_is_the_sum_of_codes_times_33() {
    assert_eq!(time33_key_fn("a"), 97 * 33);
    assert_eq!(time33_key_fn("k1"), 5148);
    assert_eq!(time33_key_fn("k100000"), 13068);
    assert_eq!(time33_key_fn("\u{10FFFF}"), 36_765_663);
    assert_eq!(time33_key_fn("é"), 233 * 33);
}

#[test]
fn digest_ignores_the_order_of_characters() {
    assert_eq!(time33_key_fn("ab"), time33_key_fn("ba"));
    assert_eq!(time33_key_fn("abc"), time33_key_fn("cab"));
    assert_ne!(time33_key_fn("ab"), time33_key_fn("ac"));
}

#[test]
fn bounded_digest_agrees_with_the_digest() {
    assert_eq!(time33_below("k1", 5149), Some(5148));
    assert_eq!(time33_below("k1", 5148), None);
    assert_eq!(time33_below("k1", usize::MAX), Some(5148));
    assert_eq!(time33_below("k1", 0), None);
    assert_eq!(time33_below("", 0), None);
    assert_eq!(time33_below("", 1), Some(0));
}

#[test]
fn bounded_digest_stops_on_long_texts() {
    let long: String = std::iter::repeat('z').take(1_000_000).collect();
    assert_eq!(time33_below(&long, 1000), None);
    assert_eq!(time33_below(&long, usize::MAX), Some(122 * 33 * 1_000_000));
}
