use moth_fans_runtimes::text_map::TextMap;

#[test]
fn new_map_is_empty() {
    let map: TextMap<u32> = TextMap::new();
    assert_eq!(map.keys().len(), 0);
    assert!(!map.contains_key(&String::from("a")));
    assert!(map.get(&String::from("a")).is_none());
}

#[test]
fn insert_then_get() {
    let mut map: TextMap<u32> = TextMap::new();
    map.insert(String::from("a"), 1);
    map.insert(String::from("b"), 2);
    assert_eq!(map.keys().len(), 2);
    assert_eq!(map.get(&String::from("a")), Some(&1));
    assert_eq!(map.get(&String::from("b")), Some(&2));
    assert_eq!(map.get(&String::from("c")), None);
    assert!(map.contains_key(&String::from("b")));
}

#[test]
fn insert_replaces_the_value_of_a_key() {
    let mut map: TextMap<u32> = TextMap::new();
    map.insert(String::from("a"), 1);
    map.insert(String::from("b"), 2);
    map.insert(String::from("a"), 3);
    assert_eq!(map.keys().len(), 2);
    assert_eq!(map.get(&String::from("a")), Some(&3));
    assert_eq!(map.get(&String::from("b")), Some(&2));
}

#[test]
fn remove_takes_the_key_out() {
    let mut map: TextMap<u32> = TextMap::new();
    map.insert(String::from("a"), 1);
    map.insert(String::from("b"), 2);
    map.insert(String::from("c"), 3);
    assert_eq!(map.remove(&String::from("b")), Some(2));
    assert_eq!(map.remove(&String::from("b")), None);
    assert_eq!(map.keys().len(), 2);
    assert_eq!(map.get(&String::from("a")), Some(&1));
    assert_eq!(map.get(&String::from("c")), Some(&3));
    assert!(!map.contains_key(&String::from("b")));
}

#[test]
fn keys_are_listed_once_each() {
    let mut map: TextMap<u32> = TextMap::new();
    assert_eq!(map.keys(), Vec::<String>::new());
    for number in 0..3000u32 {
        map.insert(format!("key {}", number % 2000), number);
    }
    let mut keys = map.keys();
    keys.sort();
    let mut expected: Vec<String> = (0..2000u32).map(|number| format!("key {}", number)).collect();
    expected.sort();
    assert_eq!(keys, expected);
    assert_eq!(map.get(&String::from("key 5")), Some(&2005));
    assert_eq!(map.get(&String::from("key 1999")), Some(&1999));
    assert_eq!(map.get(&String::from("key 2000")), None);
}

#[test]
fn keys_that_differ_in_one_character_are_kept_apart() {
    let mut map: TextMap<u32> = TextMap::new();
    map.insert(String::from("turf.dm"), 1);
    map.insert(String::from("turf.dn"), 2);
    map.insert(String::from("Turf.dm"), 3);
    map.insert(String::from(""), 4);
    map.insert(String::from("t\u{fc}rf.dm"), 5);
    assert_eq!(map.get(&String::from("turf.dm")), Some(&1));
    assert_eq!(map.get(&String::from("turf.dn")), Some(&2));
    assert_eq!(map.get(&String::from("Turf.dm")), Some(&3));
    assert_eq!(map.get(&String::from("")), Some(&4));
    assert_eq!(map.get(&String::from("t\u{fc}rf.dm")), Some(&5));
    assert_eq!(map.keys().len(), 5);
    assert_eq!(map.remove(&String::from("")), Some(4));
    assert_eq!(map.keys().len(), 4);
}
