//! Assembly: from a list of names to the collections among them and the
//! names that are left over.

use crate::buckets::{
    buckets_of, distinct_keys, gather_readings, lemma_buckets_distinct, reading_views, sort_buckets,
    sorted_buckets,
};
use crate::collection::{entities, Collection, Entity};
use crate::error::AssembleError;
use crate::merge::{
    dissolved_names, lemma_live_keys, lemma_survivors_are_large, lemma_survivors_keys, live, settle,
    survivors_of,
};
use crate::pattern::{
    find_all, first_pattern_error, item_occurrences, pattern_texts, prepare_all, DIGITS_PATTERN,
};
use crate::reading::{read_occurrence, reading_of, Occurrence, Reading, ReadingView};
use crate::remainder::{
    holds_name, lemma_push_new, lemma_reconciled_names, lemma_reconciled_no_duplicates, reconcile,
    reconciled, represented,
};
use crate::text::texts;
use vstd::prelude::*;
use vstd::string::*;

verus! {

/// The occurrences found in item `i`; none where the list says nothing of it.
pub open spec fn found_at(occurrences: Seq<Seq<Occurrence>>, i: int) -> Seq<Occurrence> {
    if 0 <= i < occurrences.len() {
        occurrences[i]
    } else {
        Seq::empty()
    }
}

/// The lists of occurrences as sequences.
pub open spec fn found_lists(occurrences: Seq<Vec<Occurrence>>) -> Seq<Seq<Occurrence>> {
    Seq::new(occurrences.len(), |i: int| occurrences[i]@)
}

/// What the occurrences found in one item say, in their order; `None` where
/// one of them says nothing.
pub open spec fn item_readings(item: Seq<char>, found: Seq<Occurrence>) -> Option<Seq<ReadingView>>
    decreases found.len(),
{
    if found.len() == 0 {
        Some(Seq::empty())
    } else {
        match (item_readings(item, found.drop_last()), reading_of(item, found.last())) {
            (Some(earlier), Some(reading)) => Some(earlier.push(reading)),
            _ => None,
        }
    }
}

/// The readings of the first `n` items, item after item; `None` where an
/// occurrence in one of them says nothing.
pub open spec fn readings_upto(
    items: Seq<Seq<char>>,
    occurrences: Seq<Seq<Occurrence>>,
    n: int,
) -> Option<Seq<ReadingView>>
    decreases n,
{
    if n <= 0 {
        Some(Seq::empty())
    } else {
        match (
            readings_upto(items, occurrences, n - 1),
            item_readings(items[n - 1], found_at(occurrences, n - 1)),
        ) {
            (Some(earlier), Some(more)) => Some(earlier + more),
            _ => None,
        }
    }
}

/// Those of the first `n` items in which nothing was found, each once, in
/// their order.
pub open spec fn unmatched_upto(
    items: Seq<Seq<char>>,
    occurrences: Seq<Seq<Occurrence>>,
    n: int,
) -> Seq<Seq<char>>
    decreases n,
{
    if n <= 0 {
        Seq::empty()
    } else {
        let earlier = unmatched_upto(items, occurrences, n - 1);
        if found_at(occurrences, n - 1).len() == 0 && !earlier.contains(items[n - 1]) {
            earlier.push(items[n - 1])
        } else {
            earlier
        }
    }
}

/// What is assembled from the items and the occurrences found in them. The
/// readings are gathered into buckets by head, tail and padding, and the
/// indexes of each bucket sorted. Buckets of fixed width take the fitting
/// indexes of the bucket of open width with their head and tail, and a
/// bucket that gave all it had is left out. The buckets with more than two
/// indexes are the collections. The remainder holds the items in which
/// nothing was found, then the names of the members of the smaller buckets,
/// each name once and none that a collection stands for.
pub open spec fn assembled(items: Seq<Seq<char>>, occurrences: Seq<Seq<Occurrence>>) -> Result<
    (Seq<Entity>, Seq<Seq<char>>),
    AssembleError,
> {
    match readings_upto(items, occurrences, items.len() as int) {
        None => Err(AssembleError::InvalidIndex),
        Some(readings) => {
            let buckets = sorted_buckets(buckets_of(readings));
            let survivors = survivors_of(live(buckets));
            Ok(
                (
                    survivors,
                    reconciled(
                        unmatched_upto(items, occurrences, items.len() as int),
                        dissolved_names(live(buckets)),
                        survivors,
                    ),
                ),
            )
        },
    }
}

/// The patterns that an assembly goes by: the given ones, or the pattern for
/// any run of digits where none are given.
pub open spec fn pattern_list(patterns: Option<Vec<String>>) -> Seq<Seq<char>> {
    match patterns {
        Some(list) => texts(list@),
        None => seq![DIGITS_PATTERN@],
    }
}

/// For each item the occurrences of all patterns in it.
pub open spec fn all_occurrences(patterns: Seq<Seq<char>>, items: Seq<Seq<char>>) -> Seq<
    Seq<Occurrence>,
> {
    Seq::new(items.len(), |i: int| item_occurrences(patterns, items[i]))
}

/// What is assembled from the items by the patterns: the error of the first
/// pattern that has one, else what is assembled from the occurrences of the
/// patterns in the items.
pub open spec fn assembled_by(items: Seq<Seq<char>>, patterns: Seq<Seq<char>>) -> Result<
    (Seq<Entity>, Seq<Seq<char>>),
    AssembleError,
> {
    match first_pattern_error(patterns) {
        Some(error) => Err(error),
        None => assembled(items, all_occurrences(patterns, items)),
    }
}

/// Once an occurrence says nothing, there are no readings of any longer
/// list of items either.
proof fn lemma_no_readings_stays(
    items: Seq<Seq<char>>,
    occurrences: Seq<Seq<Occurrence>>,
    n: int,
    m: int,
)
    requires
        n <= m,
        readings_upto(items, occurrences, n) is None,
    ensures
        readings_upto(items, occurrences, m) is None,
    decreases m - n,
{
    if n < m {
        lemma_no_readings_stays(items, occurrences, n, m - 1);
    }
}

/// A name of the remainder is an item in which nothing was found, or the
/// name of a member of a bucket that was too small, and then no collection
/// stands for it.
pub proof fn lemma_remainder_names(
    items: Seq<Seq<char>>,
    occurrences: Seq<Seq<Occurrence>>,
    name: Seq<char>,
)
    requires
        assembled(items, occurrences) is Ok,
        assembled(items, occurrences).unwrap().1.contains(name),
    ensures
        unmatched_upto(items, occurrences, items.len() as int).contains(name) || !represented(
            assembled(items, occurrences).unwrap().0,
            name,
        ),
{
    let readings = readings_upto(items, occurrences, items.len() as int).unwrap();
    let buckets = sorted_buckets(buckets_of(readings));
    lemma_reconciled_names(
        unmatched_upto(items, occurrences, items.len() as int),
        dissolved_names(live(buckets)),
        survivors_of(live(buckets)),
        name,
    );
}

/// No item stands twice among the unmatched.
pub proof fn lemma_unmatched_no_duplicates(
    items: Seq<Seq<char>>,
    occurrences: Seq<Seq<Occurrence>>,
    n: int,
)
    ensures
        unmatched_upto(items, occurrences, n).no_duplicates(),
    decreases n,
{
    if n > 0 {
        lemma_unmatched_no_duplicates(items, occurrences, n - 1);
        let earlier = unmatched_upto(items, occurrences, n - 1);
        if !earlier.contains(items[n - 1]) {
            lemma_push_new(earlier, items[n - 1]);
        }
    }
}

/// Every collection that is assembled has more than two indexes, no two of
/// them have the same head, tail and padding, and no name stands twice in
/// the remainder.
pub proof fn lemma_assembled(items: Seq<Seq<char>>, occurrences: Seq<Seq<Occurrence>>)
    ensures
        assembled(items, occurrences) matches Ok((collections, remainder)) ==> {
            &&& forall|k: int|
                0 <= k < collections.len() ==> (#[trigger] collections[k]).indexes.len() > 2
            &&& distinct_keys(collections)
            &&& remainder.no_duplicates()
        },
{
    match readings_upto(items, occurrences, items.len() as int) {
        None => {},
        Some(readings) => {
            let gathered = buckets_of(readings);
            let buckets = sorted_buckets(gathered);
            lemma_buckets_distinct(readings);
            assert(distinct_keys(buckets)) by {
                assert forall|i: int, j: int| 0 <= i < j < buckets.len() implies (
                #[trigger] buckets[i]).key() != (#[trigger] buckets[j]).key() by {
                    assert(gathered[i].key() != gathered[j].key());
                }
            }
            lemma_live_keys(buckets, buckets.len() as int);
            lemma_survivors_keys(live(buckets));
            lemma_survivors_are_large(live(buckets));
            lemma_unmatched_no_duplicates(items, occurrences, items.len() as int);
            lemma_reconciled_no_duplicates(
                unmatched_upto(items, occurrences, items.len() as int),
                dissolved_names(live(buckets)),
                survivors_of(live(buckets)),
            );
        },
    }
}

/// Reads what the occurrences found in one item say.
fn read_item(item: &str, found: &Vec<Occurrence>) -> (readings: Option<Vec<Reading>>)
    ensures
        match readings {
            Some(list) => item_readings(item@, found@) == Some(reading_views(list@)),
            None => item_readings(item@, found@) is None,
        },
{
    let mut list: Vec<Reading> = Vec::new();
    let mut k: usize = 0;
    assert(reading_views(list@) =~= Seq::<ReadingView>::empty());
    assert(found@.take(0) =~= Seq::<Occurrence>::empty());
    while k < found.len()
        invariant
            k <= found.len(),
            item_readings(item@, found@.take(k as int)) == Some(reading_views(list@)),
        decreases found.len() - k,
    {
        proof {
            assert(found@.take(k + 1).drop_last() =~= found@.take(k as int));
        }
        match read_occurrence(item, &found[k]) {
            Some(reading) => {
                let ghost earlier = list@;
                list.push(reading);
                assert(reading_views(list@) =~= reading_views(earlier).push(reading@));
            },
            None => {
                proof {
                    lemma_no_item_readings_stays(item@, found@, k + 1);
                }
                return None;
            },
        }
        k += 1;
    }
    assert(found@.take(k as int) =~= found@);
    Some(list)
}

/// Once an occurrence says nothing, the item has no readings.
proof fn lemma_no_item_readings_stays(item: Seq<char>, found: Seq<Occurrence>, k: int)
    requires
        0 <= k <= found.len(),
        item_readings(item, found.take(k)) is None,
    ensures
        item_readings(item, found) is None,
    decreases found.len() - k,
{
    if k < found.len() {
        assert(found.take(k + 1).drop_last() =~= found.take(k));
        lemma_no_item_readings_stays(item, found, k + 1);
    } else {
        assert(found.take(k) =~= found);
    }
}

/// Reads all items: the readings of what was found in them, and the items
/// in which nothing was found.
fn read_items(items: &Vec<String>, occurrences: &Vec<Vec<Occurrence>>) -> (read: Option<
    (Vec<Reading>, Vec<String>),
>)
    ensures
        match read {
            Some((readings, unmatched)) => {
                &&& readings_upto(
                    texts(items@),
                    found_lists(occurrences@),
                    items@.len() as int,
                ) == Some(reading_views(readings@))
                &&& texts(unmatched@) == unmatched_upto(
                    texts(items@),
                    found_lists(occurrences@),
                    items@.len() as int,
                )
            },
            None => readings_upto(texts(items@), found_lists(occurrences@), items@.len() as int)
                is None,
        },
{
    let ghost names = texts(items@);
    let ghost lists = found_lists(occurrences@);
    let mut readings: Vec<Reading> = Vec::new();
    let mut unmatched: Vec<String> = Vec::new();
    let nothing: Vec<Occurrence> = Vec::new();
    assert(reading_views(readings@) =~= Seq::<ReadingView>::empty());
    assert(texts(unmatched@) =~= Seq::<Seq<char>>::empty());
    let mut i: usize = 0;
    while i < items.len()
        invariant
            i <= items.len(),
            names == texts(items@),
            lists == found_lists(occurrences@),
            nothing@.len() == 0,
            readings_upto(names, lists, i as int) == Some(reading_views(readings@)),
            texts(unmatched@) == unmatched_upto(names, lists, i as int),
        decreases items.len() - i,
    {
        let found = if i < occurrences.len() {
            &occurrences[i]
        } else {
            &nothing
        };
        assert(found@ =~= found_at(lists, i as int));
        assert(names[i as int] == items@[i as int]@);
        match read_item(items[i].as_str(), found) {
            None => {
                proof {
                    lemma_no_readings_stays(names, lists, i + 1, items@.len() as int);
                }
                return None;
            },
            Some(mut more) => {
                let ghost earlier = readings@;
                let ghost added = more@;
                readings.append(&mut more);
                assert(reading_views(readings@) =~= reading_views(earlier) + reading_views(added));
                if found.len() == 0 && !holds_name(&unmatched, &items[i]) {
                    let ghost held = unmatched@;
                    unmatched.push(items[i].clone());
                    assert(texts(unmatched@) =~= texts(held).push(items@[i as int]@));
                }
            },
        }
        i += 1;
    }
    Some((readings, unmatched))
}

/// Assembles the collections among `items` from what was found in them:
/// `occurrences` holds, for each item at its place, the matches of the
/// patterns in it. An item that the list is too short for counts as one in
/// which nothing was found.
///
/// The outcome is the one that `assembled` describes. Every collection that
/// comes out has more than two indexes, and no name stands twice in the
/// remainder.
pub fn assemble_occurrences(items: &Vec<String>, occurrences: &Vec<Vec<Occurrence>>) -> (outcome:
    Result<(Vec<Collection>, Vec<String>), AssembleError>)
    ensures
        match outcome {
            Ok((collections, remainder)) => {
                &&& assembled(texts(items@), found_lists(occurrences@)) == Ok::<_, AssembleError>(
                    (entities(collections@), texts(remainder@)),
                )
                &&& forall|k: int|
                    0 <= k < collections@.len() ==> (#[trigger] collections@[k]).indexes@.len() > 2
                &&& distinct_keys(entities(collections@))
                &&& texts(remainder@).no_duplicates()
            },
            Err(error) => assembled(texts(items@), found_lists(occurrences@)) == Err::<
                (Seq<Entity>, Seq<Seq<char>>),
                _,
            >(error),
        },
{
    match read_items(items, occurrences) {
        None => Err(AssembleError::InvalidIndex),
        Some((readings, unmatched)) => {
            let (mut buckets, index) = gather_readings(&readings);
            let ghost gathered = entities(buckets@);
            proof {
                lemma_buckets_distinct(reading_views(readings@));
            }
            sort_buckets(&mut buckets);
            proof {
                let model = entities(buckets@);
                assert forall|k: int| 0 <= k < gathered.len() implies (#[trigger] model[k]).key()
                    == gathered[k].key() by {}
                index.lemma_same_keys(gathered, model);
                assert(distinct_keys(model)) by {
                    assert forall|i: int, j: int| 0 <= i < j < model.len() implies (
                    #[trigger] model[i]).key() != (#[trigger] model[j]).key() by {
                        assert(gathered[i].key() != gathered[j].key());
                    }
                }
            }
            let (survivors, names) = settle(&buckets, &index);
            let remainder = reconcile(unmatched, &names, &survivors);
            proof {
                let expected = assembled(texts(items@), found_lists(occurrences@));
                assert(entities(buckets@) == sorted_buckets(buckets_of(reading_views(readings@))));
                assert(expected == Ok::<_, AssembleError>(
                    (entities(survivors@), texts(remainder@)),
                ));
                lemma_assembled(texts(items@), found_lists(occurrences@));
                lemma_survivors_are_large(live(entities(buckets@)));
                assert forall|k: int| 0 <= k < survivors@.len() implies (
                #[trigger] survivors@[k]).indexes@.len() > 2 by {
                    assert(survivors_of(live(entities(buckets@)))[k] == survivors@[k]@);
                }
            }
            Ok((survivors, remainder))
        },
    }
}

/// Assembles the collections among the names in `iterable`, by the given
/// patterns or, without any, by the pattern for any run of digits. Returns
/// the collections, in no order that is promised, and the remainder.
///
/// A pattern that does not compile, and one without a group called `index`,
/// stop the call; so does a match without an index that is a 32-bit number.
/// Otherwise the outcome is what `assembled` describes for the matches of
/// the patterns in the names.
pub fn assemble(iterable: &Vec<String>, patterns: Option<Vec<String>>) -> (outcome: Result<
    (Vec<Collection>, Vec<String>),
    AssembleError,
>)
    ensures
        match outcome {
            Ok((collections, remainder)) => {
                &&& assembled_by(texts(iterable@), pattern_list(patterns)) == Ok::<_, AssembleError>(
                    (entities(collections@), texts(remainder@)),
                )
                &&& forall|k: int|
                    0 <= k < collections@.len() ==> (#[trigger] collections@[k]).indexes@.len() > 2
                &&& distinct_keys(entities(collections@))
                &&& texts(remainder@).no_duplicates()
            },
            Err(error) => assembled_by(texts(iterable@), pattern_list(patterns)) == Err::<
                (Seq<Entity>, Seq<Seq<char>>),
                _,
            >(error),
        },
{
    let sources = match patterns {
        Some(list) => list,
        None => {
            let mut list: Vec<String> = Vec::new();
            list.push(DIGITS_PATTERN.to_owned());
            assert(texts(list@) =~= seq![DIGITS_PATTERN@]);
            list
        },
    };
    assert(texts(sources@) == pattern_list(patterns));
    match prepare_all(&sources) {
        Err(error) => Err(error),
        Ok(compiled) => {
            let ghost names = texts(iterable@);
            let mut occurrences: Vec<Vec<Occurrence>> = Vec::new();
            let mut i: usize = 0;
            while i < iterable.len()
                invariant
                    i <= iterable.len(),
                    names == texts(iterable@),
                    pattern_texts(compiled@) == texts(sources@),
                    occurrences@.len() == i,
                    forall|j: int|
                        0 <= j < i ==> (#[trigger] occurrences@[j])@ == item_occurrences(
                            texts(sources@),
                            names[j],
                        ),
                decreases iterable.len() - i,
            {
                let found = find_all(&compiled, iterable[i].as_str());
                occurrences.push(found);
                i += 1;
            }
            assert(found_lists(occurrences@) =~= all_occurrences(texts(sources@), names));
            assemble_occurrences(iterable, &occurrences)
        },
    }
}

} // verus!
