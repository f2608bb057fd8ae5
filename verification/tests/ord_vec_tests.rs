use ord_collections::text::join_texts;
use ord_collections::Error;
use ord_collections::OrdVec;

fn items(v: &OrdVec<u64>) -> Vec<u64> {
    v.iter().copied().collect()
}

fn filled(input: &[u64]) -> OrdVec<u64> {
    let mut v = OrdVec::new();
    for x in input {
        assert!(v.insert(*x).is_ok());
    }
    v
}

#[test]
fn empty_sequence_has_nothing() {
    let v: OrdVec<u64> = OrdVec::new();
    assert_eq!(v.len(), 0);
    assert!(v.is_empty());
    assert!(v.first().is_none());
    assert!(v.last().is_none());
    assert!(v.iter().next().is_none());
    let d: OrdVec<u64> = OrdVec::default();
    assert_eq!(d.len(), 0);
    assert!(d.is_empty());
    assert!(d.first().is_none());
    assert!(d.last().is_none());
}

#[test]
fn insert_keeps_ascending_order() {
    let mut v: OrdVec<u64> = OrdVec::new();
    assert!(v.insert(1).is_ok());
    assert!(v.insert(3).is_ok());
    assert!(v.insert(2).is_ok());
    assert!(matches!(v.insert(1), Err(Error::Duplicate(_))));
    let mut sorted = String::new();
    for i in v.iter() {
        sorted += &i.to_string()
    }
    assert_eq!(sorted, "123");
    assert!(v.insert(1).is_err());
}

#[test]
fn insert_places_in_front_at_the_end_and_between() {
    let mut v = filled(&[10, 20]);
    assert!(v.insert(5).is_ok());
    assert_eq!(items(&v), vec![5, 10, 20]);
    assert!(v.insert(30).is_ok());
    assert_eq!(items(&v), vec![5, 10, 20, 30]);
    assert!(v.insert(15).is_ok());
    assert_eq!(items(&v), vec![5, 10, 15, 20, 30]);
}

#[test]
fn each_neighbour_is_less_than_the_next() {
    let v = filled(&[42, 7, 19, 3, 88, 1, 64, 23]);
    let got = items(&v);
    assert_eq!(got, vec![1, 3, 7, 19, 23, 42, 64, 88]);
    for pair in got.windows(2) {
        assert!(pair[0] < pair[1]);
    }
}

#[test]
fn duplicate_is_refused_and_changes_nothing() {
    let mut v = filled(&[4, 2, 6]);
    let before = v.clone();
    match v.insert(2) {
        Err(Error::Duplicate(text)) => assert_eq!(text, "2"),
        Ok(()) => panic!("an equal element was accepted"),
    }
    assert_eq!(v, before);
    assert_eq!(items(&v), vec![2, 4, 6]);
    assert_eq!(v.len(), 3);
}

#[test]
fn order_does_not_depend_on_arrival() {
    let arrivals: [[u64; 4]; 6] = [
        [1, 2, 3, 4],
        [4, 3, 2, 1],
        [2, 4, 1, 3],
        [3, 1, 4, 2],
        [1, 4, 2, 3],
        [4, 1, 3, 2],
    ];
    for arrival in arrivals {
        assert_eq!(items(&filled(&arrival)), vec![1, 2, 3, 4]);
    }
}

#[test]
fn first_equal_element_blocks_even_out_of_order() {
    let mut v: OrdVec<u64> = OrdVec::new();
    v.extend(vec![5, 1]);
    assert!(v.insert(1).is_ok());
    assert_eq!(items(&v), vec![1, 5, 1]);
    let mut w: OrdVec<u64> = OrdVec::new();
    w.extend(vec![1, 5, 1]);
    assert!(w.insert(1).is_err());
    assert_eq!(items(&w), vec![1, 5, 1]);
}

#[test]
fn error_message_names_the_element() {
    let mut v = filled(&[7]);
    let error = v.insert(7).unwrap_err();
    assert_eq!(error.to_string(), "Duplicate element 7");
    assert_eq!(
        Error::Duplicate(String::from("x: y")).to_string(),
        "Duplicate element x: y"
    );
    assert_eq!(Error::Duplicate(String::new()).to_string(), "Duplicate element ");
}

#[test]
fn contains_and_get_find_by_equality() {
    let v = filled(&[3, 1, 2]);
    assert!(v.contains(1u64));
    assert!(v.contains(3u64));
    assert!(!v.contains(4u64));
    assert_eq!(v.get(2u64), Some(&2));
    assert_eq!(v.get(9u64), None);
}

#[test]
fn contains_and_get_accept_another_type() {
    let mut v: OrdVec<String> = OrdVec::new();
    for s in ["pear", "apple", "fig"] {
        assert!(v.insert(String::from(s)).is_ok());
    }
    assert!(v.contains("fig"));
    assert!(!v.contains("plum"));
    assert_eq!(v.get("apple"), Some(&String::from("apple")));
    assert_eq!(v.get("plum"), None);
    match v.get_mut("pear") {
        Some(s) => s.push('s'),
        None => panic!("the element is there"),
    }
    assert_eq!(v.last(), Some(&String::from("pears")));
}

#[test]
fn get_mut_changes_in_place() {
    let mut v = filled(&[10, 20, 30]);
    match v.get_mut(20u64) {
        Some(e) => {
            assert_eq!(*e, 20);
            *e = 25;
        }
        None => panic!("the element is there"),
    }
    assert!(v.get_mut(20u64).is_none());
    assert_eq!(items(&v), vec![10, 25, 30]);
}

#[test]
fn first_and_last_are_least_and_greatest() {
    let v = filled(&[5, 9, 1, 7]);
    assert_eq!(v.first(), Some(&1));
    assert_eq!(v.last(), Some(&9));
    let one = filled(&[8]);
    assert_eq!(one.first(), Some(&8));
    assert_eq!(one.last(), Some(&8));
}

#[test]
fn iter_restarts_and_does_not_consume() {
    let v = filled(&[2, 1]);
    assert_eq!(items(&v), vec![1, 2]);
    assert_eq!(items(&v), vec![1, 2]);
    assert_eq!(v.len(), 2);
}

#[test]
fn iter_mut_changes_each_element() {
    let mut v = filled(&[1, 2, 3]);
    for e in v.iter_mut() {
        *e += 10;
    }
    assert_eq!(items(&v), vec![11, 12, 13]);
    assert_eq!(v.iter_mut().count(), 3);
}

#[test]
fn iter_mut_is_an_iterator_front_to_back() {
    let mut v = filled(&[3, 1, 2]);
    match v.iter_mut().find(|e| **e > 1) {
        Some(e) => *e = 20,
        None => panic!("an element is greater"),
    }
    assert_eq!(items(&v), vec![1, 20, 3]);
    let mut empty: OrdVec<u64> = OrdVec::new();
    assert!(empty.iter_mut().next().is_none());
}

#[test]
fn extend_appends_unchecked() {
    let mut v = filled(&[1, 5]);
    v.extend(vec![3, 5, 0]);
    assert_eq!(items(&v), vec![1, 5, 3, 5, 0]);
    assert_eq!(v.len(), 5);
    v.extend(Vec::new());
    assert_eq!(v.len(), 5);
}

#[test]
fn append_inserts_each_and_empties_other() {
    let mut v = filled(&[1, 5, 9]);
    let mut other = filled(&[8, 2, 4]);
    v.append(&mut other);
    assert_eq!(items(&v), vec![1, 2, 4, 5, 8, 9]);
    assert!(other.is_empty());
    assert_eq!(other.len(), 0);
    let mut none: OrdVec<u64> = OrdVec::new();
    v.append(&mut none);
    assert_eq!(items(&v), vec![1, 2, 4, 5, 8, 9]);
}

#[test]
fn join_round_trip() {
    let mut v: OrdVec<String> = OrdVec::new();
    for s in ["b", "a", "c"] {
        assert!(v.insert(String::from(s)).is_ok());
    }
    assert_eq!(v.join(","), "a,b,c");
    assert_eq!(v.to_string(), "a,b,c");
    assert_eq!(v.join(" - "), "a - b - c");
    assert_eq!(v.join(""), "abc");
}

#[test]
fn join_renders_each_element() {
    assert_eq!(filled(&[30, 10, 20]).join("; "), "10; 20; 30");
    assert_eq!(filled(&[5]).join(","), "5");
    assert_eq!(filled(&[]).join(","), "");
    let none: OrdVec<String> = OrdVec::new();
    assert_eq!(none.to_string(), "");
}

#[test]
fn join_texts_puts_separator_between() {
    let texts = vec![String::from("x"), String::new(), String::from("yz")];
    assert_eq!(join_texts(&texts, ", "), "x, , yz");
    assert_eq!(join_texts(&Vec::new(), ", "), "");
    assert_eq!(join_texts(&vec![String::from("only")], ", "), "only");
}

#[test]
fn bulk_construction_sorts() {
    let v = OrdVec::try_from(vec![3u64, 1, 2]);
    match v {
        Ok(v) => assert_eq!(items(&v), vec![1, 2, 3]),
        Err(_) => panic!("distinct elements were refused"),
    }
    let none = OrdVec::<u64>::try_from(Vec::new());
    assert!(matches!(none, Ok(v) if v.is_empty()));
}

#[test]
fn bulk_construction_with_duplicate_fails() {
    let r = OrdVec::try_from(vec![1u64, 2, 2, 3]);
    match r {
        Err(Error::Duplicate(text)) => assert_eq!(text, "2"),
        Ok(_) => panic!("a duplicate was accepted"),
    }
    let first = OrdVec::try_from(vec![4u64, 9, 4, 9]);
    match first {
        Err(Error::Duplicate(text)) => assert_eq!(text, "4"),
        Ok(_) => panic!("a duplicate was accepted"),
    }
}

#[test]
fn result_alias_carries_the_error() {
    fn twice(v: &mut OrdVec<u64>, x: u64) -> ord_collections::Result<()> {
        v.insert(x)?;
        v.insert(x)
    }
    let mut v = OrdVec::new();
    assert!(matches!(twice(&mut v, 1), Err(Error::Duplicate(_))));
    assert_eq!(items(&v), vec![1]);
}

#[test]
fn get_mut_writes_the_first_of_equal_elements() {
    let mut v: OrdVec<u64> = OrdVec::new();
    v.extend(vec![7, 3, 7]);
    match v.get_mut(7u64) {
        Some(e) => *e = 1,
        None => panic!("the element is there"),
    }
    assert_eq!(items(&v), vec![1, 3, 7]);
    match v.get_mut(7u64) {
        Some(e) => *e = 2,
        None => panic!("the element is there"),
    }
    assert_eq!(items(&v), vec![1, 3, 2]);
    assert_eq!(v.len(), 3);
}

#[test]
fn empty_sequence_accepts_any_first_element() {
    let mut chars: OrdVec<char> = OrdVec::new();
    assert!(chars.insert('x').is_ok());
    assert_eq!(chars.first(), Some(&'x'));
    assert_eq!(chars.len(), 1);
    let mut texts: OrdVec<String> = OrdVec::new();
    assert!(texts.insert(String::from("only")).is_ok());
    assert_eq!(texts.to_string(), "only");
    let one = OrdVec::try_from(vec!['y']);
    assert!(matches!(one, Ok(v) if v.len() == 1 && v.first() == Some(&'y')));
}

#[test]
fn append_of_nothing_changes_nothing() {
    let mut texts: OrdVec<String> = OrdVec::new();
    assert!(texts.insert(String::from("b")).is_ok());
    assert!(texts.insert(String::from("a")).is_ok());
    let mut none: OrdVec<String> = OrdVec::new();
    texts.append(&mut none);
    assert_eq!(texts.to_string(), "a,b");
    assert!(none.is_empty());
}
