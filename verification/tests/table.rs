use buildx_basic_hashmap::HashMap;

#[test]
fn insert() {
    let mut map = HashMap::new();
    assert_eq!(0, map.len());
    assert!(map.is_empty());
    assert_eq!(map.contains_key(&"a"), false);

    map.insert("a", 1);
    assert_eq!(map.contains_key(&"a"), true);
    assert_eq!(1, map.len());
    assert!(!map.is_empty());
}

#[test]
fn remove() {
    let mut map = HashMap::new();
    map.insert("a", 1);
    assert_eq!(1, map.len());
    assert!(!map.is_empty());
    map.remove(&"a");
    assert_eq!(map.contains_key(&"a"), false);
    assert_eq!(0, map.len());
    assert!(map.is_empty());
}

#[test]
fn get() {
    let mut map = HashMap::new();
    map.insert("a", 1);
    assert_eq!(map.get(&"a"), Some(&1));
    map.remove(&"a");
    assert_eq!(map.get(&"a"), None);
    assert_eq!(map.contains_key(&"a"), false);
}

#[test]
fn iterator() {
    let mut map = HashMap::new();
    map.insert("a", 1);
    map.insert("b", 2);
    map.insert("c", 3);
    map.insert("d", 4);

    let mut it = map.iter();
    while let Some((&k, &v)) = it.next() {
        match k {
            "a" => assert_eq!(v, 1),
            "b" => assert_eq!(v, 2),
            "c" => assert_eq!(v, 3),
            "d" => assert_eq!(v, 4),
            _ => unreachable!(),
        }
    }

    assert_eq!(map.len(), 4);
}

#[test]
fn empty_table_answers_every_query() {
    let mut map: HashMap<&str, i32> = HashMap::new();
    assert_eq!(map.len(), 0);
    assert!(map.is_empty());
    assert_eq!(map.contains_key(&"a"), false);
    assert_eq!(map.get(&"a"), None);
    assert_eq!(map.remove(&"a"), None);
    let mut it = map.iter();
    assert_eq!(it.next(), None);
}

#[test]
fn update_returns_previous_and_keeps_len() {
    let mut map = HashMap::new();
    assert_eq!(map.insert("a", 1), None);
    assert_eq!(map.len(), 1);
    assert_eq!(map.insert("a", 2), Some(1));
    assert_eq!(map.len(), 1);
    assert_eq!(map.get(&"a"), Some(&2));
    assert_eq!(map.insert("b", 3), None);
    assert_eq!(map.len(), 2);
}

#[test]
fn remove_hands_back_the_stored_pair() {
    let mut map = HashMap::new();
    map.insert("a", 1);
    map.insert("b", 2);
    assert_eq!(map.remove(&"a"), Some(("a", 1)));
    assert_eq!(map.len(), 1);
    assert_eq!(map.remove(&"a"), None);
    assert_eq!(map.len(), 1);
    assert_eq!(map.get(&"b"), Some(&2));
}

#[test]
fn growth_keeps_every_pair() {
    let mut map = HashMap::new();
    for i in 0u64..100 {
        assert_eq!(map.insert(i, i * 7), None);
    }
    assert_eq!(map.len(), 100);
    for i in 0u64..100 {
        assert_eq!(map.get(&i), Some(&(i * 7)));
        assert!(map.contains_key(&i));
    }
    assert!(!map.contains_key(&100));
}

#[test]
fn iteration_yields_each_pair_exactly_once() {
    let mut map = HashMap::new();
    for i in 0u64..20 {
        map.insert(i, i + 100);
    }
    let mut seen = [false; 20];
    let mut count = 0;
    let mut it = map.iter();
    while let Some((&k, &v)) = it.next() {
        assert_eq!(v, k + 100);
        assert!(!seen[k as usize]);
        seen[k as usize] = true;
        count += 1;
    }
    assert_eq!(count, map.len());
    assert!(seen.iter().all(|&s| s));
}

#[test]
fn string_keys_round_trip() {
    let mut map = HashMap::new();
    map.insert(String::from("alpha"), 10);
    map.insert(String::from("beta"), 20);
    assert_eq!(map.get(&String::from("alpha")), Some(&10));
    assert_eq!(map.get(&String::from("beta")), Some(&20));
    assert_eq!(map.get(&String::from("gamma")), None);
    assert_eq!(map.insert(String::from("alpha"), 11), Some(10));
    assert_eq!(map.len(), 2);
    let removed = map.remove(&String::from("beta"));
    assert_eq!(removed, Some((String::from("beta"), 20)));
    assert_eq!(map.len(), 1);
}

#[test]
fn small_integer_keys_round_trip() {
    let mut by_u32: HashMap<u32, &str> = HashMap::new();
    by_u32.insert(7, "seven");
    by_u32.insert(8, "eight");
    assert_eq!(by_u32.get(&7), Some(&"seven"));
    assert_eq!(by_u32.get(&9), None);

    let mut by_usize: HashMap<usize, u64> = HashMap::new();
    by_usize.insert(3, 33);
    assert_eq!(by_usize.remove(&3), Some((3, 33)));
    assert!(by_usize.is_empty());
}

#[test]
fn insert_after_remove_finds_the_new_pair() {
    let mut map = HashMap::new();
    map.insert("a", 1);
    map.remove(&"a");
    assert_eq!(map.get(&"a"), None);
    map.insert("a", 5);
    assert_eq!(map.get(&"a"), Some(&5));
    assert_eq!(map.len(), 1);
}
