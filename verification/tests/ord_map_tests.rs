use ord_collections::Error;
use ord_collections::Indexed;
use ord_collections::OrdMap;

#[test]
pub fn ord_map() {
    let mut index: OrdMap<char, u64> = OrdMap::default();

    // insert `A`, `B`, `C` in wrong order
    assert!(index.insert(Indexed::new('C', 0)).is_ok());
    assert!(index.insert(Indexed::new('A', 0)).is_ok());
    assert!(index.insert(Indexed::new('B', 0)).is_ok());

    // check that we cannot insert `A` again
    assert!(matches!(
        index.insert(Indexed::new('A', 0)),
        Err(Error::Duplicate(_))
    ));

    // check that iteration is in expected order
    let mut sorted = String::new();
    for i in index.iter() {
        sorted += &i.index().to_string()
    }
    assert_eq!(sorted, "ABC");

    assert!(index.insert(Indexed::new('A', 1)).is_err());
}

fn keys(map: &OrdMap<char, u64>) -> String {
    let mut out = String::new();
    for entry in map.iter() {
        out.push(*entry.index());
    }
    out
}

fn values(map: &OrdMap<char, u64>) -> Vec<u64> {
    let mut out = Vec::new();
    for entry in map.iter() {
        out.push(*entry.element());
    }
    out
}

#[test]
fn empty_map_has_nothing() {
    let map: OrdMap<char, u64> = OrdMap::default();
    assert_eq!(map.len(), 0);
    assert!(map.is_empty());
    assert!(map.iter().next().is_none());
    assert!(!map.contains('A'));
}

#[test]
fn map_keeps_keys_ascending() {
    let mut map: OrdMap<char, u64> = OrdMap::default();
    for (key, value) in [('M', 1), ('Z', 2), ('A', 3), ('Q', 4), ('B', 5)] {
        assert!(map.insert(Indexed::new(key, value)).is_ok());
    }
    assert_eq!(keys(&map), "ABMQZ");
    assert_eq!(values(&map), vec![3, 5, 1, 4, 2]);
    assert_eq!(map.len(), 5);
    assert!(!map.is_empty());
}

#[test]
fn map_refuses_equal_key_whatever_the_value() {
    let mut map: OrdMap<char, u64> = OrdMap::default();
    assert!(map.insert(Indexed::new('K', 10)).is_ok());
    assert!(map.insert(Indexed::new('K', 10)).is_err());
    assert!(map.insert(Indexed::new('K', 11)).is_err());
    assert_eq!(map.len(), 1);
    assert_eq!(values(&map), vec![10]);
}

#[test]
fn map_duplicate_reports_the_new_entry() {
    let mut map: OrdMap<char, u64> = OrdMap::default();
    assert!(map.insert(Indexed::new('A', 0)).is_ok());
    match map.insert(Indexed::new('A', 1)) {
        Err(Error::Duplicate(text)) => assert_eq!(text, "A: 1"),
        Ok(()) => panic!("an equal key was accepted"),
    }
    assert_eq!(keys(&map), "A");
    assert_eq!(values(&map), vec![0]);
}

#[test]
fn map_failed_insert_changes_nothing() {
    let mut map: OrdMap<char, u64> = OrdMap::default();
    for (key, value) in [('C', 1), ('A', 2), ('B', 3)] {
        assert!(map.insert(Indexed::new(key, value)).is_ok());
    }
    let before = map.clone();
    assert!(map.insert(Indexed::new('B', 99)).is_err());
    assert_eq!(map, before);
    assert_eq!(values(&map), vec![2, 3, 1]);
}

#[test]
fn map_order_does_not_depend_on_arrival() {
    let arrivals = [
        ['A', 'B', 'C'],
        ['A', 'C', 'B'],
        ['B', 'A', 'C'],
        ['B', 'C', 'A'],
        ['C', 'A', 'B'],
        ['C', 'B', 'A'],
    ];
    for arrival in arrivals {
        let mut map: OrdMap<char, u64> = OrdMap::default();
        for key in arrival {
            assert!(map.insert(Indexed::new(key, 0)).is_ok());
        }
        assert_eq!(keys(&map), "ABC");
    }
}

#[test]
fn map_contains_by_key() {
    let mut map: OrdMap<char, u64> = OrdMap::default();
    assert!(map.insert(Indexed::new('X', 1)).is_ok());
    assert!(map.insert(Indexed::new('Y', 2)).is_ok());
    assert!(map.contains('X'));
    assert!(map.contains('Y'));
    assert!(!map.contains('Z'));
}

#[test]
fn map_get_mut_changes_the_value_only() {
    let mut map: OrdMap<char, u64> = OrdMap::default();
    for (key, value) in [('B', 20), ('A', 10), ('C', 30)] {
        assert!(map.insert(Indexed::new(key, value)).is_ok());
    }
    match map.get_mut(&'B') {
        Some(value) => {
            assert_eq!(*value, 20);
            *value = 21;
        }
        None => panic!("the key is there"),
    }
    assert!(map.get_mut(&'D').is_none());
    assert_eq!(keys(&map), "ABC");
    assert_eq!(values(&map), vec![10, 21, 30]);
}

#[test]
fn map_iter_mut_walks_in_key_order() {
    let mut map: OrdMap<char, u64> = OrdMap::default();
    for (key, value) in [('B', 2), ('C', 3), ('A', 1)] {
        assert!(map.insert(Indexed::new(key, value)).is_ok());
    }
    let mut seen = String::new();
    for (key, value) in map.iter_mut() {
        seen.push(*key);
        *value *= 10;
    }
    assert_eq!(seen, "ABC");
    assert_eq!(values(&map), vec![10, 20, 30]);
    assert_eq!(map.iter_mut().count(), 3);
}

#[test]
fn map_iter_mut_is_an_iterator() {
    let mut map: OrdMap<char, u64> = OrdMap::default();
    for (key, value) in [('B', 2), ('A', 1)] {
        assert!(map.insert(Indexed::new(key, value)).is_ok());
    }
    match map.iter_mut().find(|(key, _)| **key == 'B') {
        Some((_, value)) => *value = 22,
        None => panic!("the key is there"),
    }
    assert_eq!(values(&map), vec![1, 22]);
    let firsts: Vec<char> = map.iter().map(|entry| *entry.index()).collect();
    assert_eq!(firsts, vec!['A', 'B']);
}

#[test]
fn map_iter_mut_of_empty_map_is_empty() {
    let mut map: OrdMap<char, u64> = OrdMap::default();
    assert!(map.iter_mut().next().is_none());
}

#[test]
fn entry_accessors() {
    let mut entry = Indexed::new('K', 5u64);
    assert_eq!(*entry.index(), 'K');
    assert_eq!(*entry.element(), 5);
    *entry.element_mut() = 6;
    assert_eq!(*entry.index(), 'K');
    assert_eq!(*entry.element(), 6);
}

#[test]
fn entry_renders_key_colon_value() {
    assert_eq!(Indexed::new('A', 0u64).to_string(), "A: 0");
    assert_eq!(
        Indexed::new(String::from("name"), String::from("value")).to_string(),
        "name: value"
    );
}

#[test]
fn entries_compare_by_key_alone() {
    let a = Indexed::new(1u64, 'x');
    let b = Indexed::new(1u64, 'y');
    let c = Indexed::new(2u64, 'a');
    assert!(a == b);
    assert!(a != c);
    assert!(a < c);
    assert!(c > b);
    assert!(!(a < b));
    assert!(!(a > b));
    assert_eq!(a.partial_cmp(&b), Some(std::cmp::Ordering::Equal));
    assert_eq!(a.partial_cmp(&c), Some(std::cmp::Ordering::Less));
    assert_eq!(c.partial_cmp(&a), Some(std::cmp::Ordering::Greater));
}

#[test]
fn default_entry_holds_default_key_and_value() {
    let entry: Indexed<u64, String> = Indexed::default();
    assert_eq!(*entry.index(), 0);
    assert_eq!(entry.element(), "");
    assert_eq!(entry.to_string(), "0: ");
}

#[test]
fn maps_are_equal_by_their_keys() {
    let mut a: OrdMap<char, u64> = OrdMap::default();
    let mut b: OrdMap<char, u64> = OrdMap::default();
    assert!(a == b);
    assert!(a.insert(Indexed::new('A', 1)).is_ok());
    assert!(a != b);
    assert!(b.insert(Indexed::new('A', 2)).is_ok());
    assert!(a == b);
    assert!(b.insert(Indexed::new('B', 2)).is_ok());
    assert!(a != b);
}

#[test]
fn map_get_mut_writes_the_entry_of_the_key_among_equal_values() {
    let mut map: OrdMap<char, u64> = OrdMap::default();
    for key in ['C', 'A', 'B'] {
        assert!(map.insert(Indexed::new(key, 0)).is_ok());
    }
    match map.get_mut(&'B') {
        Some(value) => {
            assert_eq!(*value, 0);
            *value = 9;
        }
        None => panic!("the key is there"),
    }
    assert_eq!(keys(&map), "ABC");
    assert_eq!(values(&map), vec![0, 9, 0]);
    match map.get_mut(&'A') {
        Some(value) => *value = 7,
        None => panic!("the key is there"),
    }
    assert_eq!(values(&map), vec![7, 9, 0]);
    assert_eq!(map.len(), 3);
}

#[test]
fn empty_map_accepts_any_first_entry() {
    let mut by_char: OrdMap<char, u64> = OrdMap::default();
    assert!(by_char.insert(Indexed::new('C', 0)).is_ok());
    assert_eq!(keys(&by_char), "C");
    assert_eq!(values(&by_char), vec![0]);
    let mut by_text: OrdMap<String, String> = OrdMap::default();
    assert!(by_text
        .insert(Indexed::new(String::from("k"), String::from("v")))
        .is_ok());
    assert_eq!(by_text.len(), 1);
    assert!(by_text.contains(String::from("k")));
}
