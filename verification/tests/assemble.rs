use cliquers::pattern::VERSION_PATTERN;
use cliquers::reading::{Occurrence, Span};
use cliquers::{assemble, assemble_occurrences, AssembleError, Collection};

fn names(items: &[&str]) -> Vec<String> {
    items.iter().map(|item| item.to_string()).collect()
}

#[test]
fn test_assemble_single_sequence() {
    let files = names(&[
        "shot/task/main_v001/render.1001.exr",
        "shot/task/main_v001/render.1002.exr",
        "shot/task/main_v001/render.1003.exr",
        "shot/task/main_v001/render.1004.exr",
        "shot/task/main_v001/render.1005.exr",
    ]);
    let (collections, _remainder) = assemble(&files, None).unwrap();
    assert_eq!(collections.len(), 1);
    assert_eq!(collections[0].head, "shot/task/main_v001/render.");
    assert_eq!(collections[0].tail, ".exr");
    assert_eq!(collections[0].padding, 4);
    assert_eq!(collections[0].indexes, vec![1001, 1002, 1003, 1004, 1005]);
}

#[test]
fn test_assemble_multiple_sequence() {
    let files = names(&[
        "shot/task/main_v001/render.1001.exr",
        "shot/task/main_v001/render.1002.exr",
        "shot/task/main_v001/render.1003.exr",
        "shot/task/main_v001/render.1004.exr",
        "shot/task/main_v001/render.1005.exr",
        "shot/task/main_v002/render.1001.exr",
        "shot/task/main_v002/render.1002.exr",
        "shot/task/main_v002/render.1003.exr",
        "shot/task/main_v002/render.1004.exr",
        "shot/task/main_v002/render.1005.exr",
    ]);
    let (collections, _remainder) = assemble(&files, None).unwrap();

    assert_eq!(collections.len(), 2);
    let v1 = Collection::new(
        "shot/task/main_v001/render.".to_string(),
        ".exr".to_string(),
        4,
        vec![1001, 1002, 1003, 1004, 1005],
    );
    let v2 = Collection::new(
        "shot/task/main_v002/render.".to_string(),
        ".exr".to_string(),
        4,
        vec![1001, 1002, 1003, 1004, 1005],
    );
    assert_eq!(collections.contains(&v1), true);
    assert_eq!(collections.contains(&v2), true);
}

#[test]
fn test_assemble_broken_sequence() {
    let files = names(&[
        "shot/task/main_v001/render.1001.exr",
        "shot/task/main_v001/render.1002.exr",
        "shot/task/main_v001/render.1003.exr",
        "shot/task/main_v001/render.1005.exr",
        "shot/task/main_v002/render.1001.exr",
        "shot/task/main_v002/render.1002.exr",
        "shot/task/main_v002/render.1004.exr",
        "shot/task/main_v002/render.1005.exr",
    ]);
    let (collections, _remainder) = assemble(&files, None).unwrap();

    assert_eq!(collections.len(), 2);
    let v1 = Collection::new(
        "shot/task/main_v001/render.".to_string(),
        ".exr".to_string(),
        4,
        vec![1001, 1002, 1003, 1005],
    );
    let v2 = Collection::new(
        "shot/task/main_v002/render.".to_string(),
        ".exr".to_string(),
        4,
        vec![1001, 1002, 1004, 1005],
    );
    assert_eq!(collections.contains(&v1), true);
    assert_eq!(collections.contains(&v2), true);
}

#[test]
fn test_large_set() {
    let mut indexes = vec![];
    let mut files = vec![];
    for i in 1..9999 {
        files.push(format!("shot/task/main_v001/render.{:04}.exr", i));
        files.push(format!("shot/task/main_v002/render.{:04}.exr", i));
        files.push(format!("shot/task/main_v003/render.{:04}.exr", i));
        files.push(format!("shot/task/main_v004/render.{:04}.exr", i));
        files.push(format!("shot/task/main_v005/render.{:04}.exr", i));
        indexes.push(i);
    }
    let (collections, _remainder) = assemble(&files, None).unwrap();

    let v1 = Collection::new(
        "shot/task/main_v001/render.".to_string(),
        ".exr".to_string(),
        4,
        indexes.to_owned(),
    );
    let v2 = Collection::new(
        "shot/task/main_v002/render.".to_string(),
        ".exr".to_string(),
        4,
        indexes,
    );
    assert_eq!(collections.contains(&v1), true);
    assert_eq!(collections.contains(&v2), true);
}

#[test]
fn test_assemble_remainder() {
    let files = names(&[
        "shot/task/main_v001/render.1001.exr",
        "shot/task/main_v001/render.1002.exr",
        "shot/task/main_v001/render.1003.exr",
        "shot/task/main_v001/render.1004.exr",
        "shot/task/main_v001/render.1005.exr",
        "shot/task/main_v002/render.1005.exr",
        "foo",
    ]);
    let (collections, remainder) = assemble(&files, None).unwrap();
    assert_eq!(collections.len(), 1);
    assert_eq!(remainder.len(), 2);
    assert_eq!(
        remainder.contains(&String::from("shot/task/main_v002/render.1005.exr")),
        true
    );
    assert_eq!(remainder.contains(&String::from("foo")), true);
}

#[test]
fn test_assemble_patterns() {
    let files = names(&[
        "shot/task/main_v001/render.1001.exr",
        "shot/task/main_v002/render.1001.exr",
        "shot/task/main_v003/render.1001.exr",
        "shot/task/main_v001/render.1002.exr",
        "shot/task/main_v002/render.1002.exr",
        "shot/task/main_v003/render.1002.exr",
        "shot/task/main_v001/render.1003.exr",
        "shot/task/main_v002/render.1003.exr",
        "shot/task/main_v003/render.1003.exr",
    ]);
    let (collections, _remainder) =
        assemble(&files, Some(vec![VERSION_PATTERN.to_string()])).unwrap();
    assert_eq!(collections.len(), 3);

    let c1001 = Collection::new(
        "shot/task/main_v".to_string(),
        "/render.1001.exr".to_string(),
        3,
        vec![1, 2, 3],
    );
    let c1002 = Collection::new(
        "shot/task/main_v".to_string(),
        "/render.1002.exr".to_string(),
        3,
        vec![1, 2, 3],
    );
    let c1003 = Collection::new(
        "shot/task/main_v".to_string(),
        "/render.1003.exr".to_string(),
        3,
        vec![1, 2, 3],
    );

    assert_eq!(collections.contains(&c1001), true);
    assert_eq!(collections.contains(&c1002), true);
    assert_eq!(collections.contains(&c1003), true);
}

#[test]
fn one_run_of_five_names() {
    let files = names(&["a.1001.x", "a.1002.x", "a.1003.x", "a.1004.x", "a.1005.x"]);
    let (collections, remainder) = assemble(&files, None).unwrap();
    assert_eq!(
        collections,
        vec![Collection::new(
            "a.".to_string(),
            ".x".to_string(),
            4,
            vec![1001, 1002, 1003, 1004, 1005]
        )]
    );
    assert_eq!(remainder, Vec::<String>::new());
}

#[test]
fn a_lone_name_and_a_name_without_number_are_left_over() {
    let files = names(&[
        "a.1001.x", "a.1002.x", "a.1003.x", "a.1004.x", "a.1005.x", "b.1005.x", "foo",
    ]);
    let (collections, remainder) = assemble(&files, None).unwrap();
    assert_eq!(collections.len(), 1);
    assert_eq!(remainder, names(&["foo", "b.1005.x"]));
}

#[test]
fn two_members_do_not_make_a_collection() {
    let files = names(&["a.1.x", "a.2.x"]);
    let (collections, remainder) = assemble(&files, None).unwrap();
    assert_eq!(collections.len(), 0);
    assert_eq!(remainder, names(&["a.1.x", "a.2.x"]));

    let files = names(&["a.1.x", "a.2.x", "a.3.x"]);
    let (collections, remainder) = assemble(&files, None).unwrap();
    assert_eq!(
        collections,
        vec![Collection::new("a.".to_string(), ".x".to_string(), 1, vec![1, 2, 3])]
    );
    assert_eq!(remainder.len(), 0);
}

#[test]
fn indexes_come_out_sorted() {
    let files = names(&["f3", "f1", "f2", "f9"]);
    let (collections, remainder) = assemble(&files, None).unwrap();
    assert_eq!(
        collections,
        vec![Collection::new("f".to_string(), "".to_string(), 1, vec![1, 2, 3, 9])]
    );
    assert_eq!(remainder.len(), 0);
}

#[test]
fn names_without_number_stand_once_in_the_remainder() {
    let files = names(&["foo", "bar", "foo"]);
    let (collections, remainder) = assemble(&files, None).unwrap();
    assert_eq!(collections.len(), 0);
    assert_eq!(remainder, names(&["foo", "bar"]));
}

#[test]
fn assembling_the_members_again_gives_the_same_collections() {
    let files = names(&["a.0998.x", "a.0999.x", "a.1000.x", "a.1002.x", "b7", "b8", "b9", "c"]);
    let (first, _) = assemble(&files, None).unwrap();
    assert_eq!(first.len(), 2);
    let mut members = Vec::new();
    for collection in first.iter() {
        let mut walk = collection.iter();
        while let Some(name) = walk.next() {
            members.push(name);
        }
    }
    let (second, remainder) = assemble(&members, None).unwrap();
    assert_eq!(second.len(), first.len());
    for collection in first.iter() {
        assert!(second.contains(collection));
    }
    assert_eq!(remainder.len(), 0);
}

#[test]
fn a_pattern_that_does_not_compile_stops_the_call() {
    let files = names(&["a.1.x"]);
    assert_eq!(
        assemble(&files, Some(vec!["(?P<index>\\d+".to_string()])),
        Err(AssembleError::InvalidPattern)
    );
}

#[test]
fn a_pattern_without_index_group_stops_the_call() {
    let files = names(&["a.1.x"]);
    assert_eq!(
        assemble(&files, Some(vec!["\\d+".to_string()])),
        Err(AssembleError::MissingIndexGroup)
    );
    assert_eq!(
        assemble(&files, Some(vec!["(?P<index>\\d+)".to_string(), "(".to_string()])),
        Err(AssembleError::InvalidPattern)
    );
    assert_eq!(
        assemble(&files, Some(vec!["x".to_string(), "(".to_string()])),
        Err(AssembleError::MissingIndexGroup)
    );
}

#[test]
fn an_index_that_is_no_number_stops_the_call() {
    let files = names(&["a.99999999999.x"]);
    assert_eq!(assemble(&files, None), Err(AssembleError::InvalidIndex));
    let files = names(&["abc"]);
    assert_eq!(
        assemble(&files, Some(vec!["(?P<index>[a-z]+)".to_string()])),
        Err(AssembleError::InvalidIndex)
    );
    let files = names(&["foo"]);
    assert_eq!(
        assemble(&files, Some(vec!["foo|(?P<index>\\d+)".to_string()])),
        Err(AssembleError::InvalidIndex)
    );
}

#[test]
fn a_pattern_without_width_group_leaves_the_width_open() {
    let files = names(&["f1", "f2", "f10", "f11"]);
    let (collections, remainder) =
        assemble(&files, Some(vec!["(?P<index>\\d+)".to_string()])).unwrap();
    assert_eq!(
        collections,
        vec![Collection::new("f".to_string(), "".to_string(), 0, vec![1, 2, 10, 11])]
    );
    assert_eq!(remainder.len(), 0);
}

#[test]
fn a_bucket_of_fixed_width_takes_the_fitting_indexes() {
    let files = names(&["f0998", "f0999", "f1000", "f1001", "f7"]);
    let patterns = vec![
        "f(?P<index>(?P<padding>0)\\d+)".to_string(),
        "f(?P<index>[1-9]\\d*)".to_string(),
    ];
    let (collections, remainder) = assemble(&files, Some(patterns)).unwrap();
    assert_eq!(
        collections,
        vec![
            Collection::new("f".to_string(), "".to_string(), 4, vec![998, 999, 1000, 1001]),
            Collection::new("f".to_string(), "".to_string(), 0, vec![7, 1000, 1001]),
        ]
    );
    assert_eq!(remainder.len(), 0);
}

#[test]
fn a_bucket_that_gave_all_it_had_is_left_out() {
    let files = names(&["f0998", "f0999", "f1000", "f1001"]);
    let patterns = vec![
        "f(?P<index>(?P<padding>0)\\d+)".to_string(),
        "f(?P<index>[1-9]\\d*)".to_string(),
    ];
    let (collections, remainder) = assemble(&files, Some(patterns)).unwrap();
    assert_eq!(
        collections,
        vec![Collection::new("f".to_string(), "".to_string(), 4, vec![998, 999, 1000, 1001])]
    );
    assert_eq!(remainder.len(), 0);
}

#[test]
fn names_with_letters_beyond_ascii_are_cut_at_bytes() {
    let files = names(&["é.1.ü", "é.2.ü", "é.3.ü"]);
    let (collections, _) = assemble(&files, None).unwrap();
    assert_eq!(
        collections,
        vec![Collection::new("é.".to_string(), ".ü".to_string(), 1, vec![1, 2, 3])]
    );
}

fn index_at(start: usize, end: usize) -> Occurrence {
    Occurrence {
        index: Some(Span { start, end }),
        padding: Some(Span { start, end: start }),
    }
}

#[test]
fn occurrences_decide_what_is_assembled() {
    let files = names(&["a1", "a2", "a3", "zz"]);
    let found = vec![vec![index_at(1, 2)], vec![index_at(1, 2)], vec![index_at(1, 2)]];
    let (collections, remainder) = assemble_occurrences(&files, &found).unwrap();
    assert_eq!(
        collections,
        vec![Collection::new("a".to_string(), "".to_string(), 1, vec![1, 2, 3])]
    );
    assert_eq!(remainder, names(&["zz"]));
}

#[test]
fn an_occurrence_without_width_group_has_padding_zero() {
    let files = names(&["a01", "a02", "a03"]);
    let open = |start: usize, end: usize| Occurrence {
        index: Some(Span { start, end }),
        padding: None,
    };
    let found = vec![vec![open(1, 3)], vec![open(1, 3)], vec![open(1, 3)]];
    let (collections, remainder) = assemble_occurrences(&files, &found).unwrap();
    assert_eq!(
        collections,
        vec![Collection::new("a".to_string(), "".to_string(), 0, vec![1, 2, 3])]
    );
    assert_eq!(remainder.len(), 0);
}

#[test]
fn an_occurrence_that_cuts_no_number_stops_the_call() {
    let files = names(&["a1"]);
    assert_eq!(
        assemble_occurrences(&files, &vec![vec![index_at(0, 1)]]),
        Err(AssembleError::InvalidIndex)
    );
    assert_eq!(
        assemble_occurrences(&files, &vec![vec![index_at(1, 3)]]),
        Err(AssembleError::InvalidIndex)
    );
    assert_eq!(
        assemble_occurrences(&files, &vec![vec![index_at(2, 1)]]),
        Err(AssembleError::InvalidIndex)
    );
    assert_eq!(
        assemble_occurrences(
            &files,
            &vec![vec![Occurrence { index: None, padding: None }]]
        ),
        Err(AssembleError::InvalidIndex)
    );
    let files = names(&["é1"]);
    assert_eq!(
        assemble_occurrences(&files, &vec![vec![index_at(1, 3)]]),
        Err(AssembleError::InvalidIndex)
    );
}

#[test]
fn a_name_that_a_collection_stands_for_is_not_left_over() {
    let files = names(&["a1b1", "a1b2", "a1b3"]);
    let (collections, remainder) = assemble(&files, None).unwrap();
    assert_eq!(
        collections,
        vec![Collection::new("a1b".to_string(), "".to_string(), 1, vec![1, 2, 3])]
    );
    assert_eq!(remainder, Vec::<String>::new());
}

#[test]
fn a_small_bucket_is_left_over_once() {
    let files = names(&["x1y7", "x1y8", "x2y7"]);
    let (collections, remainder) = assemble(&files, None).unwrap();
    assert_eq!(collections.len(), 0);
    assert_eq!(remainder, names(&["x1y7", "x2y7", "x1y8"]));
}

#[test]
fn signed_indexes_are_read_and_written_with_their_sign() {
    let files = names(&["t-1", "t-2", "t-3", "t+4"]);
    let (collections, remainder) =
        assemble(&files, Some(vec!["(?P<index>[+-]\\d+)".to_string()])).unwrap();
    assert_eq!(
        collections,
        vec![Collection::new("t".to_string(), "".to_string(), 0, vec![-3, -2, -1, 4])]
    );
    assert_eq!(remainder.len(), 0);
}

#[test]
fn no_items_give_nothing() {
    let (collections, remainder) = assemble(&Vec::new(), None).unwrap();
    assert_eq!(collections.len(), 0);
    assert_eq!(remainder.len(), 0);
    let (collections, remainder) = assemble(&names(&["a1", "a2", "a3"]), Some(vec![])).unwrap();
    assert_eq!(collections.len(), 0);
    assert_eq!(remainder, names(&["a1", "a2", "a3"]));
}

#[test]
fn the_matches_of_all_patterns_count() {
    let files = names(&["v1.f1", "v1.f2", "v1.f3"]);
    let patterns = vec![
        "v(?P<index>(?P<padding>0*)\\d+)".to_string(),
        "f(?P<index>(?P<padding>0*)\\d+)".to_string(),
    ];
    let (collections, remainder) = assemble(&files, Some(patterns)).unwrap();
    assert_eq!(
        collections,
        vec![Collection::new("v1.f".to_string(), "".to_string(), 1, vec![1, 2, 3])]
    );
    assert_eq!(remainder.len(), 0);
}

#[test]
fn items_beyond_the_list_of_occurrences_count_as_unmatched() {
    let files = names(&["a1", "b"]);
    let (collections, remainder) = assemble_occurrences(&files, &vec![]).unwrap();
    assert_eq!(collections.len(), 0);
    assert_eq!(remainder, names(&["a1", "b"]));
}
