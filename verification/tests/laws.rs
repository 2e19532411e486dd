use cliquers::collection::IndexMatch;
use cliquers::Collection;

fn collection(padding: i32, indexes: Vec<i32>) -> Collection {
    Collection::new("a.".to_string(), ".x".to_string(), padding, indexes)
}

fn samples() -> Vec<Vec<i32>> {
    vec![
        vec![],
        vec![7],
        vec![1, 2],
        vec![1, 3],
        vec![1001, 1002, 1003, 1005],
        vec![1, 2, 3, 7, 8, 20],
        vec![5, 3, 4, 5, 6, 1],
        vec![1, 1, 2, 2],
        vec![-2, -1, 0, 1],
        vec![i32::MAX - 1, i32::MAX],
        vec![i32::MAX, i32::MIN],
    ]
}

#[test]
fn the_parts_of_a_collection_join_to_its_indexes() {
    for indexes in samples() {
        let whole = collection(4, indexes.clone());
        let parts = whole.separate();
        let mut joined = Vec::new();
        for part in parts.iter() {
            assert!(part.is_contiguous());
            assert_eq!(part.head, whole.head);
            assert_eq!(part.tail, whole.tail);
            assert_eq!(part.padding, whole.padding);
            joined.extend(part.indexes.iter().copied());
        }
        assert_eq!(joined, indexes);
    }
}

#[test]
fn no_part_can_take_in_the_next() {
    for indexes in samples() {
        let parts = collection(4, indexes).separate();
        for pair in parts.windows(2) {
            let last = *pair[0].indexes.last().unwrap() as i64;
            let first = pair[1].indexes[0] as i64;
            assert_ne!(last + 1, first);
        }
    }
}

#[test]
fn a_collection_without_indexes_has_one_part() {
    let parts = collection(4, vec![]).separate();
    assert_eq!(parts, vec![collection(4, vec![])]);
}

#[test]
fn an_ascending_collection_is_contiguous_when_it_has_no_holes() {
    for indexes in [vec![1, 2], vec![1, 3], vec![1, 2, 3, 4], vec![1, 2, 4], vec![-1, 0, 1],
        vec![10, 20, 30]]
    {
        let c = collection(4, indexes);
        assert_eq!(c.is_contiguous(), c.holes().indexes.is_empty());
    }
}

#[test]
fn a_collection_that_steps_back_has_no_holes_and_is_not_contiguous() {
    let c = collection(4, vec![1, 1]);
    assert_eq!(c.is_contiguous(), false);
    assert_eq!(c.holes().indexes, Vec::<i32>::new());
    let c = collection(4, vec![3, 2, 1]);
    assert_eq!(c.is_contiguous(), false);
    assert_eq!(c.holes().indexes, Vec::<i32>::new());
}

#[test]
fn fewer_than_two_indexes_are_contiguous_and_have_no_holes() {
    for indexes in [vec![], vec![5]] {
        let c = collection(4, indexes);
        assert_eq!(c.is_contiguous(), true);
        assert_eq!(c.holes(), collection(4, vec![]));
    }
}

#[test]
fn the_default_line_is_never_empty() {
    for indexes in samples() {
        assert!(!collection(4, indexes).format(None).is_empty());
    }
}

#[test]
fn every_member_is_contained_and_matched() {
    for (padding, indexes) in [
        (4, vec![1, 22, 333, 4444]),
        (0, vec![0, 5, 10, 123456]),
        (1, vec![0, 9]),
        (10, vec![0, i32::MAX]),
    ] {
        let c = collection(padding, indexes.clone());
        let mut walk = c.iter();
        let mut position = 0;
        while let Some(name) = walk.next() {
            assert!(c.contains(&name));
            let found = c.match_item(&name).unwrap();
            assert_eq!(found.index.parse::<i32>().unwrap(), indexes[position]);
            position += 1;
        }
        assert_eq!(position, indexes.len());
    }
}

#[test]
fn a_member_that_does_not_fit_the_padding_is_contained_but_not_matched() {
    let c = collection(4, vec![12345, -5]);
    assert!(c.contains(&"a.12345.x".to_string()));
    assert_eq!(c.match_item(&"a.12345.x".to_string()), None);
    assert!(c.contains(&"a.00-5.x".to_string()));
    assert_eq!(c.match_item(&"a.00-5.x".to_string()), None);
    let c = collection(-3, vec![7]);
    assert!(c.contains(&"a.7.x".to_string()));
    assert_eq!(c.match_item(&"a.7.x".to_string()), None);
}

#[test]
fn walking_can_start_again() {
    let c = collection(2, vec![1, 2]);
    for _ in 0..2 {
        let mut walk = c.iter();
        assert_eq!(walk.next(), Some("a.01.x".to_string()));
        assert_eq!(walk.next(), Some("a.02.x".to_string()));
        assert_eq!(walk.next(), None);
        assert_eq!(walk.next(), None);
    }
    let mut walk = collection(2, vec![]).into_iter();
    assert_eq!(walk.next(), None);
}

#[test]
fn match_item_under_an_open_width() {
    let c = collection(0, vec![]);
    assert_eq!(
        c.match_item(&"a.1010.x".to_string()),
        Some(IndexMatch { index: "1010".to_string(), padded: false })
    );
    assert_eq!(
        c.match_item(&"a.0.x".to_string()),
        Some(IndexMatch { index: "0".to_string(), padded: false })
    );
    assert_eq!(c.match_item(&"a.01.x".to_string()), None);
    assert_eq!(c.match_item(&"a.00.x".to_string()), None);
}

#[test]
fn match_item_wants_the_whole_name() {
    let c = collection(2, vec![]);
    assert_eq!(c.match_item(&"a.12.x".to_string()).unwrap().index, "12");
    assert_eq!(c.match_item(&"a..x".to_string()), None);
    assert_eq!(c.match_item(&"a.x".to_string()), None);
    assert_eq!(c.match_item(&"a.".to_string()), None);
    assert_eq!(c.match_item(&"".to_string()), None);
    assert_eq!(c.match_item(&"a.1.x".to_string()), None);
    assert_eq!(c.match_item(&"a.123.x".to_string()), None);
    assert_eq!(c.match_item(&"a.1a.x".to_string()), None);
    assert_eq!(c.match_item(&"a.١٢.x".to_string()), None);
    assert_eq!(c.match_item(&"ba.12.x".to_string()), None);
    assert_eq!(c.match_item(&"a.12.xy".to_string()), None);
    assert_eq!(c.match_item(&"aa12.x".to_string()), None);
}

#[test]
fn match_item_takes_head_and_tail_letter_for_letter() {
    let c = Collection::new("(a+).*".to_string(), "[x]$".to_string(), 1, vec![]);
    assert_eq!(c.match_item(&"(a+).*7[x]$".to_string()).unwrap().index, "7");
    assert_eq!(c.match_item(&"aaa.b7x".to_string()), None);
    let c = Collection::new("é".to_string(), "ü".to_string(), 1, vec![]);
    assert_eq!(c.match_item(&"é7ü".to_string()).unwrap().index, "7");
    let c = Collection::new("a1".to_string(), "2b".to_string(), 2, vec![]);
    assert_eq!(c.match_item(&"a1342b".to_string()).unwrap().index, "34");
}

#[test]
fn contains_compares_the_written_names() {
    let c = collection(4, vec![1, 12]);
    assert!(c.contains(&"a.0001.x".to_string()));
    assert!(c.contains(&"a.0012.x".to_string()));
    assert!(!c.contains(&"a.1.x".to_string()));
    assert!(!c.contains(&"a.0002.x".to_string()));
    assert!(!c.contains(&"b.0001.x".to_string()));
    assert!(!collection(4, vec![]).contains(&"a.0001.x".to_string()));
}

#[test]
fn holes_lie_between_one_index_and_the_next() {
    assert_eq!(collection(4, vec![1, 5]).holes().indexes, vec![2, 3, 4]);
    assert_eq!(collection(4, vec![1, 3, 2, 5]).holes().indexes, vec![2, 3, 4]);
    assert_eq!(collection(4, vec![-2, 1]).holes().indexes, vec![-1, 0]);
    assert_eq!(
        collection(4, vec![i32::MAX - 2, i32::MAX]).holes().indexes,
        vec![i32::MAX - 1]
    );
    assert_eq!(collection(4, vec![i32::MAX, i32::MIN]).holes().indexes, Vec::<i32>::new());
}
