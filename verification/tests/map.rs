use trie::TrieMap;

fn sample() -> TrieMap<String, u32> {
    let mut map = TrieMap::new();
    assert_eq!(map.insert("", 0), None);
    assert_eq!(map.insert("bar", 1), None);
    assert_eq!(map.insert("foo", 2), None);
    assert_eq!(map.insert("foobar", 3), None);
    assert_eq!(map.insert("foobarbaz", 4), None);
    map
}

fn sorted(mut values: Vec<&u32>) -> Vec<u32> {
    values.sort();
    values.into_iter().copied().collect()
}

#[test]
fn map_new_is_empty() {
    let map: TrieMap<String, u32> = TrieMap::new();
    assert!(map.is_empty());
    assert_eq!(map.len(), 0);
    assert_eq!(map.get(""), None);
    assert!(!map.contains("a"));
    assert!(map.iter().next().is_none());
    assert!(map.iter().collect().is_empty());
}

#[test]
fn map_default_is_empty() {
    let map: TrieMap<String, u32> = TrieMap::default();
    assert!(map.is_empty());
    assert_eq!(map.len(), 0);
}

#[test]
fn map_round_trip() {
    let map = sample();
    assert_eq!(map.get(""), Some(&0));
    assert_eq!(map.get("bar"), Some(&1));
    assert_eq!(map.get("foo"), Some(&2));
    assert_eq!(map.get("foobar"), Some(&3));
    assert_eq!(map.get("foobarbaz"), Some(&4));
    assert_eq!(map.len(), 5);
    assert!(!map.is_empty());
}

#[test]
fn map_get_stops_where_the_tree_ends() {
    let map = sample();
    assert_eq!(map.get("f"), None);
    assert_eq!(map.get("fo"), None);
    assert_eq!(map.get("foob"), None);
    assert_eq!(map.get("foobarbazz"), None);
    assert_eq!(map.get("x"), None);
    assert_eq!(map.get("ba"), None);
    assert_eq!(map.get("barn"), None);
    assert!(!map.contains("f"));
    assert!(!map.contains("foobarbazz"));
    assert!(map.contains("foobar"));
    assert!(map.contains(""));
}

#[test]
fn map_insert_returns_the_prior_value() {
    let mut map = sample();
    assert_eq!(map.iter().collect().len(), 5);
    assert_eq!(map.insert("foobar", 30), Some(3));
    assert_eq!(map.get("foobar"), Some(&30));
    assert_eq!(map.iter().collect().len(), 5);
    assert_eq!(map.len(), 5);
    assert_eq!(map.insert("foobar", 31), Some(30));
    assert_eq!(map.insert("", 9), Some(0));
    assert_eq!(map.get(""), Some(&9));
    assert_eq!(map.len(), 5);
    assert_eq!(map.get("foo"), Some(&2));
    assert_eq!(map.get("foobarbaz"), Some(&4));
}

#[test]
fn map_empty_key_stands_at_the_root() {
    let mut map: TrieMap<String, u32> = TrieMap::new();
    assert_eq!(map.insert("", 7), None);
    assert_eq!(map.get(""), Some(&7));
    assert_eq!(map.len(), 1);
    assert_eq!(sorted(map.iter().collect()), vec![7]);
    assert_eq!(sorted(map.iter_prefix("").collect()), vec![7]);
    assert!(map.iter_prefix("a").collect().is_empty());
}

#[test]
fn map_repeated_atoms() {
    let mut map: TrieMap<String, u32> = TrieMap::new();
    assert_eq!(map.insert("aaa", 3), None);
    assert_eq!(map.insert("aa", 2), None);
    assert_eq!(map.insert("a", 1), None);
    assert_eq!(map.get("a"), Some(&1));
    assert_eq!(map.get("aa"), Some(&2));
    assert_eq!(map.get("aaa"), Some(&3));
    assert_eq!(map.get("aaaa"), None);
    assert_eq!(sorted(map.iter_prefix("aa").collect()), vec![2, 3]);
}

#[test]
fn map_get_mut_is_seen_by_get() {
    let mut map = sample();
    match map.get_mut("foobar") {
        Some(value) => {
            assert_eq!(*value, 3);
            *value = 33;
        },
        None => panic!("foobar has a value"),
    }
    assert_eq!(map.get("foobar"), Some(&33));
    assert_eq!(map.get("foo"), Some(&2));
    assert_eq!(map.get("foobarbaz"), Some(&4));
    match map.get_mut("") {
        Some(value) => *value += 100,
        None => panic!("the empty key has a value"),
    }
    assert_eq!(map.get(""), Some(&100));
    assert_eq!(sorted(map.iter().collect()), vec![1, 2, 4, 33, 100]);
}

#[test]
fn map_get_mut_of_a_missing_key() {
    let mut map = sample();
    assert!(map.get_mut("fo").is_none());
    assert!(map.get_mut("foobarbazz").is_none());
    assert!(map.get_mut("zebra").is_none());
    assert_eq!(map.len(), 5);
    assert_eq!(sorted(map.iter().collect()), vec![0, 1, 2, 3, 4]);
}

#[test]
fn map_index_reads_and_writes() {
    let mut map = sample();
    assert_eq!(*map.index("foo"), 2);
    *map.index_mut("foo") = 22;
    assert_eq!(*map.index("foo"), 22);
    assert_eq!(map.get("foo"), Some(&22));
    assert_eq!(*map.index("foobar"), 3);
}

#[test]
fn map_iter_meets_every_value() {
    let map = sample();
    assert_eq!(sorted(map.iter().collect()), vec![0, 1, 2, 3, 4]);
    let mut walk = map.iter();
    let mut seen = Vec::new();
    while let Some(value) = walk.next() {
        seen.push(value);
    }
    assert_eq!(sorted(seen), vec![0, 1, 2, 3, 4]);
    assert!(walk.next().is_none());
    assert!(walk.next().is_none());
}

#[test]
fn map_iter_prefix_takes_in_the_prefix_itself() {
    let map = sample();
    assert_eq!(sorted(map.iter_prefix("foo").collect()), vec![2, 3, 4]);
    assert_eq!(sorted(map.iter_prefix("foobar").collect()), vec![3, 4]);
    assert_eq!(sorted(map.iter_prefix("foobarbaz").collect()), vec![4]);
    assert_eq!(sorted(map.iter_prefix("fo").collect()), vec![2, 3, 4]);
    assert_eq!(sorted(map.iter_prefix("b").collect()), vec![1]);
    assert_eq!(sorted(map.iter_prefix("").collect()), vec![0, 1, 2, 3, 4]);
}

#[test]
fn map_iter_prefix_that_no_key_begins_with() {
    let map = sample();
    assert!(map.iter_prefix("foobarbazz").collect().is_empty());
    assert!(map.iter_prefix("fox").collect().is_empty());
    assert!(map.iter_prefix("x").collect().is_empty());
    assert!(map.iter_prefix("barbarbarbarbarbarbarbar").next().is_none());
    let empty: TrieMap<String, u32> = TrieMap::new();
    assert!(empty.iter_prefix("").collect().is_empty());
    assert!(empty.iter_prefix("a").collect().is_empty());
}

#[test]
fn map_walk_meets_a_key_before_those_that_go_on_from_it() {
    let map = sample();
    let order: Vec<u32> = map.iter().collect().into_iter().copied().collect();
    let place = |value: u32| order.iter().position(|seen| *seen == value).unwrap();
    assert_eq!(order.len(), 5);
    assert_eq!(place(0), 0);
    assert!(place(2) < place(3));
    assert!(place(3) < place(4));
    let under: Vec<u32> = map.iter_prefix("foo").collect().into_iter().copied().collect();
    assert_eq!(under, vec![2, 3, 4]);
}

#[test]
fn map_walk_keeps_its_order() {
    let map = sample();
    let first: Vec<u32> = map.iter().collect().into_iter().copied().collect();
    let second: Vec<u32> = map.iter().collect().into_iter().copied().collect();
    assert_eq!(first, second);
}

#[test]
fn map_iter_mut_is_seen_by_get() {
    let mut map = sample();
    let values = map.iter_mut();
    assert_eq!(values.len(), 5);
    for value in values {
        *value += 10;
    }
    assert_eq!(map.get(""), Some(&10));
    assert_eq!(map.get("bar"), Some(&11));
    assert_eq!(map.get("foo"), Some(&12));
    assert_eq!(map.get("foobar"), Some(&13));
    assert_eq!(map.get("foobarbaz"), Some(&14));
    assert_eq!(map.len(), 5);
    assert_eq!(sorted(map.iter().collect()), vec![10, 11, 12, 13, 14]);
}

#[test]
fn map_iter_mut_lends_all_values_at_once() {
    let mut map = sample();
    let mut values = map.iter_mut();
    values.sort();
    let (low, high) = values.split_at_mut(2);
    std::mem::swap(&mut *low[0], &mut *high[2]);
    assert_eq!(map.get(""), Some(&4));
    assert_eq!(map.get("foobarbaz"), Some(&0));
    assert_eq!(map.get("foo"), Some(&2));
}

#[test]
fn map_iter_prefix_mut_writes_under_the_prefix_only() {
    let mut map = sample();
    let values = map.iter_prefix_mut("foob");
    assert_eq!(values.len(), 2);
    for value in values {
        *value *= 100;
    }
    assert_eq!(map.get(""), Some(&0));
    assert_eq!(map.get("bar"), Some(&1));
    assert_eq!(map.get("foo"), Some(&2));
    assert_eq!(map.get("foobar"), Some(&300));
    assert_eq!(map.get("foobarbaz"), Some(&400));
    let values = map.iter_prefix_mut("foobar");
    assert_eq!(values.len(), 2);
    let values = map.iter_prefix_mut("foobarbaz");
    assert_eq!(values.len(), 1);
    for value in values {
        *value = 5;
    }
    assert_eq!(map.get("foobarbaz"), Some(&5));
    assert_eq!(map.get("foobar"), Some(&300));
}

#[test]
fn map_iter_prefix_mut_that_no_key_begins_with() {
    let mut map = sample();
    assert!(map.iter_prefix_mut("foobarbazz").is_empty());
    assert!(map.iter_prefix_mut("q").is_empty());
    assert!(map.iter_prefix_mut("ba").len() == 1);
    assert_eq!(sorted(map.iter().collect()), vec![0, 1, 2, 3, 4]);
    let mut empty: TrieMap<String, u32> = TrieMap::new();
    assert!(empty.iter_mut().is_empty());
    assert!(empty.iter_prefix_mut("").is_empty());
}

#[test]
fn map_iter_mut_walks_in_the_order_of_iter() {
    let mut map = sample();
    let read: Vec<u32> = map.iter().collect().into_iter().copied().collect();
    let lent: Vec<u32> = map.iter_mut().into_iter().map(|value| *value).collect();
    assert_eq!(lent[0], 0);
    let mut read_sorted = read.clone();
    read_sorted.sort();
    let mut lent_sorted = lent.clone();
    lent_sorted.sort();
    assert_eq!(read_sorted, lent_sorted);
    let place = |value: u32| lent.iter().position(|seen| *seen == value).unwrap();
    assert!(place(2) < place(3));
    assert!(place(3) < place(4));
}

#[test]
fn map_clear_resets() {
    let mut map = sample();
    map.clear();
    assert!(map.is_empty());
    assert_eq!(map.len(), 0);
    assert!(!map.contains(""));
    assert!(!map.contains("bar"));
    assert!(!map.contains("foo"));
    assert!(!map.contains("foobar"));
    assert!(!map.contains("foobarbaz"));
    assert!(map.iter().next().is_none());
    assert!(map.iter_prefix("foo").next().is_none());
    assert_eq!(map.insert("", 0), None);
    assert_eq!(map.insert("bar", 1), None);
    assert_eq!(map.insert("foo", 2), None);
    assert_eq!(map.insert("foobar", 3), None);
    assert_eq!(map.insert("foobarbaz", 4), None);
    let again = sample();
    assert_eq!(map.len(), again.len());
    for key in ["", "bar", "foo", "foobar", "foobarbaz", "f", "foob", "zzz"] {
        assert_eq!(map.get(key), again.get(key));
    }
    for prefix in ["", "f", "foo", "foob", "foobarbazz", "b"] {
        assert_eq!(
            sorted(map.iter_prefix(prefix).collect()),
            sorted(again.iter_prefix(prefix).collect())
        );
    }
}

#[test]
fn map_keys_of_several_kinds() {
    let mut by_bytes: TrieMap<Vec<u8>, u32> = TrieMap::new();
    assert_eq!(by_bytes.insert(&vec![1u8, 2, 3], 1), None);
    assert_eq!(by_bytes.insert(&[1u8, 2][..], 2), None);
    assert_eq!(by_bytes.get(&[1u8, 2, 3][..]), Some(&1));
    assert_eq!(by_bytes.get(&vec![1u8, 2]), Some(&2));
    assert_eq!(by_bytes.get(&vec![1u8]), None);
    assert_eq!(sorted(by_bytes.iter_prefix(&[1u8][..]).collect()), vec![1, 2]);

    let mut by_array: TrieMap<[u8; 2], u32> = TrieMap::new();
    assert_eq!(by_array.insert(&[0u8, 255], 5), None);
    assert_eq!(by_array.insert(&[0u8, 255], 6), Some(5));
    assert_eq!(by_array.get(&[0u8, 255]), Some(&6));
    assert_eq!(by_array.get(&[255u8, 0]), None);

    let mut by_string: TrieMap<String, u32> = TrieMap::new();
    let key = String::from("gr\u{fc}n");
    assert_eq!(by_string.insert(&key, 8), None);
    assert_eq!(by_string.get("gr\u{fc}n"), Some(&8));
    assert_eq!(by_string.get(&key), Some(&8));
    assert_eq!(by_string.get("gr"), None);
    assert_eq!(sorted(by_string.iter_prefix("gr").collect()), vec![8]);
    assert_eq!(sorted(by_string.iter_prefix("gr\u{c3}").collect()), Vec::<u32>::new());

    let mut by_str: TrieMap<&'static str, u32> = TrieMap::new();
    assert_eq!(by_str.insert("k", 1), None);
    assert_eq!(by_str.get("k"), Some(&1));
}

#[test]
fn map_all_atoms_branch() {
    let mut map: TrieMap<Vec<u8>, u32> = TrieMap::new();
    for atom in 0..=255u8 {
        assert_eq!(map.insert(&vec![7u8, atom], atom as u32), None);
    }
    assert_eq!(map.len(), 256);
    for atom in 0..=255u8 {
        assert_eq!(map.get(&vec![7u8, atom]), Some(&(atom as u32)));
    }
    let all = sorted(map.iter_prefix(&vec![7u8]).collect());
    assert_eq!(all, (0..=255u32).collect::<Vec<u32>>());
    for value in map.iter_mut() {
        *value += 1;
    }
    assert_eq!(map.get(&vec![7u8, 255]), Some(&256));
    assert_eq!(map.get(&vec![7u8, 0]), Some(&1));
}

fn in_one_run(order: &[u32], group: &[u32]) -> bool {
    let places: Vec<usize> = order
        .iter()
        .enumerate()
        .filter(|(_, value)| group.contains(value))
        .map(|(place, _)| place)
        .collect();
    places.len() == group.len() && places.windows(2).all(|pair| pair[1] == pair[0] + 1)
}

fn branching() -> TrieMap<String, u32> {
    let mut map = TrieMap::new();
    for (key, value) in [
        ("a", 1),
        ("ab", 2),
        ("abc", 3),
        ("abd", 4),
        ("ac", 5),
        ("b", 6),
        ("ba", 7),
        ("bab", 8),
        ("c", 9),
    ] {
        assert_eq!(map.insert(key, value), None);
    }
    map
}

#[test]
fn map_walk_takes_the_subtrees_in_turn() {
    let map = branching();
    let order: Vec<u32> = map.iter().collect().into_iter().copied().collect();
    assert_eq!(order.len(), 9);
    assert!(in_one_run(&order, &[1, 2, 3, 4, 5]));
    assert!(in_one_run(&order, &[2, 3, 4]));
    assert!(in_one_run(&order, &[6, 7, 8]));
    assert!(in_one_run(&order, &[7, 8]));
    let place = |value: u32| order.iter().position(|seen| *seen == value).unwrap();
    assert!(place(1) < place(2) && place(2) < place(3) && place(2) < place(4));
    assert!(place(1) < place(5));
    assert!(place(6) < place(7) && place(7) < place(8));
    let under: Vec<u32> = map.iter_prefix("a").collect().into_iter().copied().collect();
    assert_eq!(under[0], 1);
    assert!(in_one_run(&under, &[2, 3, 4]));
    assert_eq!(under.len(), 5);
}

#[test]
fn map_iter_mut_takes_the_subtrees_in_turn() {
    let mut map = branching();
    let order: Vec<u32> = map.iter_mut().into_iter().map(|value| *value).collect();
    assert_eq!(order.len(), 9);
    assert!(in_one_run(&order, &[1, 2, 3, 4, 5]));
    assert!(in_one_run(&order, &[2, 3, 4]));
    assert!(in_one_run(&order, &[6, 7, 8]));
    let place = |value: u32| order.iter().position(|seen| *seen == value).unwrap();
    assert!(place(1) < place(2) && place(2) < place(3) && place(2) < place(4));
    assert!(place(6) < place(7) && place(7) < place(8));
    let under: Vec<u32> = map.iter_prefix_mut("ab").into_iter().map(|value| *value).collect();
    assert_eq!(under[0], 2);
    assert_eq!(under.len(), 3);
}

#[test]
fn map_next_hands_out_what_collect_lists() {
    let map = branching();
    let listed: Vec<u32> = map.iter_prefix("b").collect().into_iter().copied().collect();
    let mut walk = map.iter_prefix("b");
    let mut stepped = Vec::new();
    while let Some(value) = walk.next() {
        stepped.push(*value);
    }
    assert_eq!(listed, stepped);
    assert_eq!(stepped[0], 6);
    let mut part = map.iter();
    let first = *part.next().unwrap();
    let rest: Vec<u32> = part.collect().into_iter().copied().collect();
    let whole: Vec<u32> = map.iter().collect().into_iter().copied().collect();
    assert_eq!(whole[0], first);
    assert_eq!(&whole[1..], &rest[..]);
}

fn bump(values: trie::IterMut<'_, u32>) -> usize {
    let count = values.len();
    for value in values {
        *value += 1;
    }
    count
}

fn stored_under<T: trie::Atoms + ?Sized>(map: &TrieMap<String, u32>, prefix: &T) -> usize
where
    String: std::borrow::Borrow<T>,
{
    map.iter_prefix(prefix).collect().len()
}

#[test]
fn map_names_of_the_crate() {
    let mut map = sample();
    assert_eq!(bump(map.iter_prefix_mut("foo")), 3);
    assert_eq!(map.get("foo"), Some(&3));
    assert_eq!(map.get("foobar"), Some(&4));
    assert_eq!(map.get("foobarbaz"), Some(&5));
    assert_eq!(map.get("bar"), Some(&1));
    assert_eq!(stored_under(&map, "foo"), 3);
    assert_eq!(stored_under(&map, &String::from("b")), 1);
    let atoms: Vec<trie::Key> = vec![b'b', b'a', b'r'];
    let by_bytes: TrieMap<Vec<u8>, u32> = {
        let mut by_bytes = TrieMap::new();
        by_bytes.insert(&atoms, 1);
        by_bytes
    };
    assert_eq!(by_bytes.get(&atoms), Some(&1));
}
