use cliquers::collection::{Collection, IndexMatch};

fn sample(indexes: Vec<i32>) -> Collection {
    Collection::new("head.".to_string(), ".tail".to_string(), 4, indexes)
}

#[test]
fn test_format() {
    let c = sample(vec![1001, 1002, 1003, 1004, 1005]);

    assert_eq!(c.format(None), "head.%04d.tail [1001-1005]");
    assert_eq!(
        c.format(Some("{head}{padding}{tail} [{range}]")),
        "head.%04d.tail [1001-1005]"
    );
    assert_eq!(
        c.format(Some("{head}{padding}{tail} [{ranges}]")),
        "head.%04d.tail [1001-1005]"
    );
    assert_eq!(c.format(Some("{head}{padding}{tail}")), "head.%04d.tail");
    assert_eq!(c.format(Some("{head}{padding}{tail} {FOO}")), "");

    let c = sample(vec![1001, 1002, 1003, 1005]);
    assert_eq!(c.format(Some("{holes}")), "1004");
    assert_eq!(c.format(None), "head.%04d.tail [1001-1003, 1005]");
    assert_eq!(
        c.format(Some("{head}{padding}{tail} [{range}]")),
        "head.%04d.tail [1001-1005]"
    );
    assert_eq!(
        c.format(Some("{head}{padding}{tail} [{ranges}]")),
        "head.%04d.tail [1001-1003, 1005]"
    );
}

#[test]
fn test_match() {
    let c = sample(vec![1001, 1002, 1003, 1004, 1005]);

    match c.match_item(&"head.1010.tail".to_string()) {
        Some(m) => assert_eq!(m.index.as_str(), "1010"),
        None => assert_eq!(false, true),
    }
    match c.match_item(&"head.10100.tail".to_string()) {
        Some(_) => assert_eq!(false, true),
        None => assert_eq!(true, true),
    }
    match c.match_item(&"foo.1010.tail".to_string()) {
        Some(_) => assert_eq!(false, true),
        None => assert_eq!(true, true),
    }
}

#[test]
fn test_is_contiguous() {
    let c = sample(vec![1001, 1002, 1003, 1004, 1005]);
    assert_eq!(c.is_contiguous(), true);

    let c = sample(vec![1001, 1002, 1003, 1005]);
    assert_eq!(c.is_contiguous(), false);
}

#[test]
fn test_holes() {
    let c = sample(vec![1001, 1002, 1003, 1004, 1005]);
    let expected = sample(vec![]);
    assert_eq!(c.holes(), expected);

    let c = sample(vec![1001, 1002, 1003, 1005]);
    let expected = sample(vec![1004]);
    assert_eq!(c.holes(), expected);

    let c = sample(vec![1001, 1002, 1003, 1004, 1005, 1008, 1010]);
    let expected = sample(vec![1006, 1007, 1009]);
    assert_eq!(c.holes(), expected);
}

#[test]
fn test_seperate() {
    let c1 = sample(vec![1001, 1002, 1003, 1004, 1005]);
    assert_eq!(c1.separate()[0], c1);

    let c1 = sample(vec![1001, 1002, 1003, 1005]);
    let expected = vec![sample(vec![1001, 1002, 1003]), sample(vec![1005])];
    assert_eq!(c1.separate(), expected);
}

#[test]
fn test_equals() {
    let c1 = sample(vec![1001, 1002, 1003, 1004, 1005]);
    let c2 = sample(vec![1001, 1002, 1003, 1004, 1005]);
    assert_eq!(c1, c2);

    let d1 = sample(vec![1001, 1002, 1003, 1004]);
    assert_ne!(c1, d1);
}

#[test]
fn test_iterator() {
    let c1 = sample(vec![1001, 1002, 1003, 1004, 1005]);

    let mut iter = c1.into_iter();
    assert_eq!(iter.next(), Some("head.1001.tail".to_string()));
    assert_eq!(iter.next(), Some("head.1002.tail".to_string()));
    assert_eq!(iter.next(), Some("head.1003.tail".to_string()));
    assert_eq!(iter.next(), Some("head.1004.tail".to_string()));
    assert_eq!(iter.next(), Some("head.1005.tail".to_string()));
    assert_eq!(iter.next(), None);

    let c1 = sample(vec![1001, 1002, 1004, 1005]);
    let mut iter = c1.into_iter();
    assert_eq!(iter.next(), Some("head.1001.tail".to_string()));
    assert_eq!(iter.next(), Some("head.1002.tail".to_string()));
    assert_eq!(iter.next(), Some("head.1004.tail".to_string()));
    assert_eq!(iter.next(), Some("head.1005.tail".to_string()));
    assert_eq!(iter.next(), None);

    let c1 = Collection::new("head.".to_string(), ".tail".to_string(), 5, vec![23]);
    let mut iter = c1.into_iter();
    assert_eq!(iter.next(), Some("head.00023.tail".to_string()));
    assert_eq!(iter.next(), None);
}

#[test]
fn match_item_tells_the_zero_in_front() {
    let c = sample(vec![]);
    assert_eq!(
        c.match_item(&"head.0010.tail".to_string()),
        Some(IndexMatch { index: "0010".to_string(), padded: true })
    );
    assert_eq!(
        c.match_item(&"head.1010.tail".to_string()),
        Some(IndexMatch { index: "1010".to_string(), padded: false })
    );
}
