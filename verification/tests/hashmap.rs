use early_boot::hashmap::{HashMap, Node, BUCKET_COUNT};

fn collect(m: &HashMap) -> Vec<(String, u32)> {
    let mut out: Vec<(String, u32)> = Vec::new();
    let mut it = m.iter();
    while let Some((k, v)) = it.next() {
        out.push((k.to_string(), *v));
    }
    out
}

fn pair(k: &str, v: u32) -> (String, u32) {
    (k.to_string(), v)
}

#[test]
fn bucket_count_is_fixed() {
    assert_eq!(BUCKET_COUNT, 1001);
}

#[test]
fn new_node_is_blank() {
    let n = Node::new();
    assert_eq!(n.key, "");
    assert_eq!(n.val, 0);
    assert_eq!(n.hash, 0);
    assert_eq!(n.next, None);
}

#[test]
fn new_map_yields_nothing() {
    let m = HashMap::new();
    let mut it = m.iter();
    assert!(it.next().is_none());
    assert!(it.next().is_none());
}

#[test]
fn single_insert_is_yielded_once() {
    let mut m = HashMap::new();
    m.insert("hello".to_string(), 7);
    let mut it = m.iter();
    let (k, v) = it.next().unwrap();
    assert_eq!(k, "hello");
    assert_eq!(*v, 7);
    assert!(it.next().is_none());
    assert!(it.next().is_none());
}

#[test]
fn insert_of_existing_key_overwrites() {
    let mut m = HashMap::new();
    m.insert("a".to_string(), 1);
    m.insert("a".to_string(), 2);
    assert_eq!(collect(&m), vec![pair("a", 2)]);
}

#[test]
fn overwrite_keeps_the_place_in_the_chain() {
    // "k0", "k756" and "k1127" all fall into bucket 15.
    let mut m = HashMap::new();
    m.insert("k0".to_string(), 1);
    m.insert("k756".to_string(), 2);
    m.insert("k1127".to_string(), 3);
    m.insert("k756".to_string(), 20);
    m.insert("k0".to_string(), 10);
    assert_eq!(collect(&m), vec![pair("k1127", 3), pair("k756", 20), pair("k0", 10)]);
}

#[test]
fn most_recent_entry_of_a_bucket_comes_first() {
    let mut m = HashMap::new();
    m.insert("k0".to_string(), 1);
    m.insert("k756".to_string(), 2);
    assert_eq!(collect(&m), vec![pair("k756", 2), pair("k0", 1)]);
    m.insert("k1127".to_string(), 3);
    assert_eq!(collect(&m), vec![pair("k1127", 3), pair("k756", 2), pair("k0", 1)]);
}

#[test]
fn buckets_are_visited_in_order() {
    // Buckets: key1 -> 86, key0 -> 228, key5 -> 654, key4 -> 796,
    // key3 -> 803, key2 -> 945.
    let mut m = HashMap::new();
    for i in 0..6u32 {
        m.insert(format!("key{}", i), i * 10);
    }
    assert_eq!(
        collect(&m),
        vec![
            pair("key1", 10),
            pair("key0", 0),
            pair("key5", 50),
            pair("key4", 40),
            pair("key3", 30),
            pair("key2", 20),
        ]
    );
}

#[test]
fn chains_and_buckets_together() {
    // "a" -> bucket 40, "k0"/"k756" -> bucket 15, "b" -> bucket 615.
    let mut m = HashMap::new();
    m.insert("b".to_string(), 1);
    m.insert("k0".to_string(), 2);
    m.insert("a".to_string(), 3);
    m.insert("k756".to_string(), 4);
    assert_eq!(collect(&m), vec![pair("k756", 4), pair("k0", 2), pair("a", 3), pair("b", 1)]);
}

#[test]
fn distinct_keys_are_all_yielded() {
    let mut m = HashMap::new();
    let n: u32 = 500;
    for i in 0..n {
        m.insert(format!("k{}", i), i);
    }
    let mut got = collect(&m);
    assert_eq!(got.len(), n as usize);
    got.sort();
    let mut want: Vec<(String, u32)> = (0..n).map(|i| (format!("k{}", i), i)).collect();
    want.sort();
    assert_eq!(got, want);
}

#[test]
fn more_entries_than_buckets() {
    let mut m = HashMap::new();
    let n: u32 = 3000;
    for i in 0..n {
        m.insert(format!("entry-{}", i), i);
    }
    for i in 0..n {
        m.insert(format!("entry-{}", i), i + 1);
    }
    let mut got = collect(&m);
    assert_eq!(got.len(), n as usize);
    got.sort();
    let mut want: Vec<(String, u32)> = (0..n).map(|i| (format!("entry-{}", i), i + 1)).collect();
    want.sort();
    assert_eq!(got, want);
}

#[test]
fn keys_with_equal_hash_share_one_entry() {
    // "costarring" and "liquid" have the same FNV-1a hash: the second
    // insertion overwrites the value and the first key stays.
    let mut m = HashMap::new();
    m.insert("costarring".to_string(), 1);
    m.insert("liquid".to_string(), 2);
    assert_eq!(collect(&m), vec![pair("costarring", 2)]);
}

#[test]
fn empty_key_is_a_key() {
    let mut m = HashMap::new();
    m.insert(String::new(), 5);
    m.insert(String::new(), 6);
    assert_eq!(collect(&m), vec![pair("", 6)]);
}

#[test]
fn keys_are_hashed_by_their_utf8_bytes() {
    // "é" is the two bytes C3 A9 and falls into bucket 65; "a" into 40.
    let mut m = HashMap::new();
    m.insert("é".to_string(), 1);
    m.insert("a".to_string(), 2);
    assert_eq!(collect(&m), vec![pair("a", 2), pair("é", 1)]);
}

#[test]
fn iterators_are_independent_passes() {
    let mut m = HashMap::new();
    m.insert("a".to_string(), 1);
    m.insert("b".to_string(), 2);
    let mut first = m.iter();
    let mut second = m.iter();
    assert_eq!(first.next().map(|(k, v)| (k.to_string(), *v)), Some(pair("a", 1)));
    assert_eq!(second.next().map(|(k, v)| (k.to_string(), *v)), Some(pair("a", 1)));
    assert_eq!(first.next().map(|(k, v)| (k.to_string(), *v)), Some(pair("b", 2)));
    assert!(first.next().is_none());
    assert_eq!(second.next().map(|(k, v)| (k.to_string(), *v)), Some(pair("b", 2)));
    assert!(second.next().is_none());
}
