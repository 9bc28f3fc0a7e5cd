use trie::TrieSet;

fn five() -> TrieSet<&'static str> {
    let mut set = TrieSet::new();
    assert!(set.insert(""));
    assert!(set.insert("bar"));
    assert!(set.insert("foo"));
    assert!(set.insert("foobar"));
    assert!(set.insert("foobarbaz"));
    set
}

fn sorted<'a>(mut elems: Vec<&'a &'static str>) -> Vec<&'static str> {
    elems.sort();
    elems.into_iter().copied().collect()
}

#[test]
fn set_new_is_empty() {
    let set: TrieSet<&'static str> = TrieSet::new();
    assert!(set.is_empty());
    assert_eq!(set.len(), 0);
    assert!(!set.contains(""));
    assert!(set.iter().next().is_none());
    let other: TrieSet<String> = TrieSet::default();
    assert!(other.is_empty());
}

#[test]
fn set_insert_twice() {
    let mut set: TrieSet<&'static str> = TrieSet::new();
    assert!(set.insert("foo"));
    assert!(!set.insert("foo"));
    assert_eq!(set.len(), 1);
    assert_eq!(sorted(set.iter().collect()), vec!["foo"]);
    assert!(set.insert("fo"));
    assert!(!set.insert("fo"));
    assert!(!set.insert("foo"));
    assert_eq!(set.len(), 2);
    assert_eq!(sorted(set.iter().collect()), vec!["fo", "foo"]);
}

#[test]
fn set_insert_of_a_present_element() {
    let mut set = five();
    assert!(!set.insert("foobar"));
    assert!(!set.insert(""));
    assert_eq!(set.len(), 5);
    assert_eq!(sorted(set.iter().collect()), vec!["", "bar", "foo", "foobar", "foobarbaz"]);
}

#[test]
fn set_walks_from_a_prefix() {
    let set = five();
    assert_eq!(set.len(), 5);
    assert_eq!(sorted(set.iter_prefix("foob").collect()), vec!["foobar", "foobarbaz"]);
    assert!(set.iter_prefix("foobarbazz").collect().is_empty());
    assert_eq!(
        sorted(set.iter_prefix("").collect()),
        vec!["", "bar", "foo", "foobar", "foobarbaz"]
    );
    let mut set = set;
    assert!(!set.insert("foobar"));
    assert_eq!(set.len(), 5);
}

#[test]
fn set_contains_by_atoms() {
    let mut set: TrieSet<String> = TrieSet::new();
    assert!(set.insert(String::from("alpha")));
    assert!(set.contains("alpha"));
    assert!(set.contains(&String::from("alpha")));
    assert!(!set.contains("alph"));
    assert!(!set.contains("alphabet"));
    assert!(!set.insert(String::from("alpha")));
    assert_eq!(set.len(), 1);
}

#[test]
fn set_of_byte_strings() {
    let mut set: TrieSet<Vec<u8>> = TrieSet::new();
    assert!(set.insert(vec![0, 1, 2]));
    assert!(set.insert(vec![0, 1]));
    assert!(set.insert(vec![]));
    assert!(!set.insert(vec![0, 1]));
    assert!(set.contains(&vec![0u8, 1, 2]));
    assert!(set.contains(&[0u8, 1][..]));
    assert!(!set.contains(&[0u8][..]));
    let mut under: Vec<Vec<u8>> =
        set.iter_prefix(&[0u8][..]).collect().into_iter().cloned().collect();
    under.sort();
    assert_eq!(under, vec![vec![0, 1], vec![0, 1, 2]]);
    assert_eq!(set.len(), 3);
}

#[test]
fn set_clear_then_fill_again() {
    let mut set = five();
    set.clear();
    assert!(set.is_empty());
    assert_eq!(set.len(), 0);
    for elem in ["", "bar", "foo", "foobar", "foobarbaz"] {
        assert!(!set.contains(elem));
    }
    assert!(set.iter().collect().is_empty());
    assert!(set.insert("foo"));
    assert!(set.insert(""));
    assert!(!set.insert("foo"));
    assert_eq!(sorted(set.iter().collect()), vec!["", "foo"]);
}

#[test]
fn set_walk_meets_an_element_before_those_that_go_on_from_it() {
    let set = five();
    let order: Vec<&'static str> = set.iter().collect().into_iter().copied().collect();
    let place = |elem: &str| order.iter().position(|seen| *seen == elem).unwrap();
    assert_eq!(place(""), 0);
    assert!(place("foo") < place("foobar"));
    assert!(place("foobar") < place("foobarbaz"));
}

#[test]
fn set_insert_of_a_present_element_takes_its_place() {
    let mut set: TrieSet<&'static str> = TrieSet::new();
    let first: &'static str = "same";
    let second: &'static str = Box::leak(String::from("same").into_boxed_str());
    assert!(first.as_ptr() != second.as_ptr());
    assert!(set.insert(first));
    assert!(std::ptr::eq(**set.iter().collect().first().unwrap(), first));
    assert!(!set.insert(second));
    assert_eq!(set.len(), 1);
    assert!(std::ptr::eq(**set.iter().collect().first().unwrap(), second));
}
