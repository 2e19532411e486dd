//! Patterns: the regular expressions that find the indexes in an item.

use crate::error::AssembleError;
use crate::reading::{Occurrence, Span};
use crate::text::texts;
use regex::Regex;
use vstd::prelude::*;
use vstd::string::*;

verus! {

/// Any run of digits, with a group that detects the zeros in front.
pub const DIGITS_PATTERN: &'static str = "(?P<index>(?P<padding>0*)\\d+)";

/// A run of digits between two dots and before an extension.
pub const FRAME_PATTERN: &'static str = "\\.(?P<index>(?P<padding>0*)\\d+)\\.\\D+\\d?$";

/// A run of digits behind the letter `v`.
pub const VERSION_PATTERN: &'static str = "v(?P<index>(?P<padding>0*)\\d+)";

/// The name of the group that holds the index. Every pattern has it.
pub const INDEX_GROUP: &'static str = "index";

/// The name of the group that detects the width. A pattern may have it.
pub const PADDING_GROUP: &'static str = "padding";

/// A compiled regular expression of the `regex` crate.
#[verifier::external_type_specification]
#[verifier::external_body]
pub struct ExRegex(Regex);

/// The error of the `regex` crate: a pattern that it cannot compile.
#[verifier::external_type_specification]
#[verifier::external_body]
pub struct ExRegexError(regex::Error);

/// A pattern that compiled: its text, and beside it what the `regex` crate
/// compiled from that text. `compile` alone makes one.
pub struct Pattern {
    source: String,
    regex: Regex,
}

impl View for Pattern {
    type V = Seq<char>;

    /// The text of the pattern.
    closed spec fn view(&self) -> Seq<char> {
        self.source@
    }
}

/// Whether `Regex::new` compiles the pattern.
pub uninterp spec fn compiles(pattern: Seq<char>) -> bool;

/// The names of the capture groups of the pattern as `Regex::capture_names`
/// lists them: one entry for each group in the order of the opening
/// brackets, `None` for a group without a name.
pub uninterp spec fn names_of_groups(pattern: Seq<char>) -> Seq<Option<Seq<char>>>;

/// The matches of the pattern in `item` as `Regex::captures_iter` finds them,
/// in their order, each with the span of the group called `index_group` and
/// the span of the group called `padding_group`, in bytes of `item`.
pub uninterp spec fn occurrences_in(
    pattern: Seq<char>,
    item: Seq<char>,
    index_group: Seq<char>,
    padding_group: Seq<char>,
) -> Seq<Occurrence>;

/// The texts of the names in `names`.
pub open spec fn name_texts(names: Seq<Option<String>>) -> Seq<Option<Seq<char>>> {
    Seq::new(
        names.len(),
        |k: int|
            match names[k] {
                Some(name) => Some(name@),
                None => None,
            },
    )
}

/// The texts of the patterns in `patterns`.
pub open spec fn pattern_texts(patterns: Seq<Pattern>) -> Seq<Seq<char>> {
    Seq::new(patterns.len(), |k: int| patterns[k]@)
}

/// Calls `Regex::new` on the pattern and keeps the text beside what came of
/// it. The contract says that it succeeds exactly on the patterns that
/// `compiles` names, and that the pattern handed back has the given text.
#[verifier::external_body]
fn compile(source: &str) -> (compiled: Result<Pattern, regex::Error>)
    ensures
        match compiled {
            Ok(pattern) => compiles(source@) && pattern@ == source@,
            Err(_) => !compiles(source@),
        },
{
    match Regex::new(source) {
        Ok(regex) => Ok(Pattern { source: source.to_string(), regex }),
        Err(error) => Err(error),
    }
}

/// Calls `Regex::capture_names` and hands the names out as strings. The
/// contract says that they are the ones that `names_of_groups` names.
#[verifier::external_body]
fn group_names(pattern: &Pattern) -> (names: Vec<Option<String>>)
    ensures
        name_texts(names@) == names_of_groups(pattern@),
{
    pattern.regex.capture_names().map(|name| name.map(|text| text.to_string())).collect()
}

/// Calls `Regex::captures_iter` on the item and, for each match,
/// `Captures::name` for the two groups; hands out where each group matched.
/// The contract says that these are the occurrences that `occurrences_in`
/// names.
#[verifier::external_body]
fn find_occurrences(pattern: &Pattern, item: &str, index_group: &str, padding_group: &str) -> (found:
    Vec<Occurrence>)
    ensures
        found@ == occurrences_in(pattern@, item@, index_group@, padding_group@),
{
    pattern.regex.captures_iter(item).map(
        |captures|
            Occurrence {
                index: captures.name(index_group).map(|m| Span { start: m.start(), end: m.end() }),
                padding: captures.name(padding_group).map(
                    |m| Span { start: m.start(), end: m.end() },
                ),
            },
    ).collect()
}

/// What is wrong with the pattern, if anything: it does not compile, or it
/// compiles and has no group called `index`.
pub open spec fn pattern_error(pattern: Seq<char>) -> Option<AssembleError> {
    if !compiles(pattern) {
        Some(AssembleError::InvalidPattern)
    } else if !names_of_groups(pattern).contains(Some(INDEX_GROUP@)) {
        Some(AssembleError::MissingIndexGroup)
    } else {
        None
    }
}

/// What is wrong with the first pattern that has something wrong with it.
pub open spec fn first_pattern_error(patterns: Seq<Seq<char>>) -> Option<AssembleError>
    decreases patterns.len(),
{
    if patterns.len() == 0 {
        None
    } else {
        match first_pattern_error(patterns.drop_last()) {
            Some(error) => Some(error),
            None => pattern_error(patterns.last()),
        }
    }
}

/// The occurrences of all patterns in `item`: those of the first pattern,
/// then those of the second, and so on.
pub open spec fn item_occurrences(patterns: Seq<Seq<char>>, item: Seq<char>) -> Seq<Occurrence>
    decreases patterns.len(),
{
    if patterns.len() == 0 {
        Seq::empty()
    } else {
        item_occurrences(patterns.drop_last(), item) + occurrences_in(
            patterns.last(),
            item,
            INDEX_GROUP@,
            PADDING_GROUP@,
        )
    }
}

/// Whether one of the names is `wanted`.
pub fn names_group(names: &Vec<Option<String>>, wanted: &str) -> (named: bool)
    ensures
        named == name_texts(names@).contains(Some(wanted@)),
{
    let wanted_string = wanted.to_owned();
    let mut k: usize = 0;
    while k < names.len()
        invariant
            k <= names.len(),
            wanted_string@ == wanted@,
            forall|j: int| 0 <= j < k ==> name_texts(names@)[j] != Some(wanted@),
        decreases names.len() - k,
    {
        match &names[k] {
            Some(name) => {
                if *name == wanted_string {
                    assert(name_texts(names@)[k as int] == Some(wanted@));
                    return true;
                }
            },
            None => {},
        }
        k += 1;
    }
    false
}

/// Compiles the pattern and makes sure of its index group.
pub fn prepare(source: &str) -> (prepared: Result<Pattern, AssembleError>)
    ensures
        match prepared {
            Ok(pattern) => pattern@ == source@ && pattern_error(source@) is None,
            Err(error) => pattern_error(source@) == Some(error),
        },
{
    match compile(source) {
        Err(_) => Err(AssembleError::InvalidPattern),
        Ok(pattern) => {
            let names = group_names(&pattern);
            if names_group(&names, INDEX_GROUP) {
                Ok(pattern)
            } else {
                Err(AssembleError::MissingIndexGroup)
            }
        },
    }
}

/// Prepares the patterns in their order, and stops at the first that has
/// something wrong with it.
pub fn prepare_all(sources: &Vec<String>) -> (prepared: Result<Vec<Pattern>, AssembleError>)
    ensures
        match prepared {
            Ok(patterns) => pattern_texts(patterns@) == texts(sources@)
                && first_pattern_error(texts(sources@)) is None,
            Err(error) => first_pattern_error(texts(sources@)) == Some(error),
        },
{
    let ghost all = texts(sources@);
    let mut patterns: Vec<Pattern> = Vec::new();
    let mut k: usize = 0;
    assert(pattern_texts(patterns@) =~= all.take(0));
    while k < sources.len()
        invariant
            k <= sources.len(),
            all == texts(sources@),
            pattern_texts(patterns@) == all.take(k as int),
            first_pattern_error(all.take(k as int)) is None,
        decreases sources.len() - k,
    {
        proof {
            assert(all.take(k + 1).drop_last() =~= all.take(k as int));
            assert(all.take(k + 1).last() == sources@[k as int]@);
        }
        match prepare(sources[k].as_str()) {
            Ok(pattern) => {
                let ghost earlier = patterns@;
                patterns.push(pattern);
                assert(pattern_texts(patterns@) =~= all.take(k + 1));
            },
            Err(error) => {
                proof {
                    lemma_error_stays(all, k + 1);
                }
                return Err(error);
            },
        }
        k += 1;
    }
    assert(all.take(k as int) =~= all);
    Ok(patterns)
}

/// What is wrong among the first `n` patterns is what is wrong among all.
proof fn lemma_error_stays(patterns: Seq<Seq<char>>, n: int)
    requires
        0 <= n <= patterns.len(),
        first_pattern_error(patterns.take(n)) is Some,
    ensures
        first_pattern_error(patterns) == first_pattern_error(patterns.take(n)),
    decreases patterns.len() - n,
{
    if n < patterns.len() {
        assert(patterns.take(n + 1).drop_last() =~= patterns.take(n));
        lemma_error_stays(patterns, n + 1);
    } else {
        assert(patterns.take(n) =~= patterns);
    }
}

/// Finds the occurrences of all patterns in `item`.
pub fn find_all(patterns: &Vec<Pattern>, item: &str) -> (found: Vec<Occurrence>)
    ensures
        found@ == item_occurrences(pattern_texts(patterns@), item@),
{
    let ghost all = pattern_texts(patterns@);
    let mut found: Vec<Occurrence> = Vec::new();
    let mut k: usize = 0;
    assert(found@ =~= item_occurrences(all.take(0), item@));
    while k < patterns.len()
        invariant
            k <= patterns.len(),
            all == pattern_texts(patterns@),
            found@ == item_occurrences(all.take(k as int), item@),
        decreases patterns.len() - k,
    {
        proof {
            assert(all.take(k + 1).drop_last() =~= all.take(k as int));
            assert(all.take(k + 1).last() == patterns@[k as int]@);
        }
        let mut more = find_occurrences(&patterns[k], item, INDEX_GROUP, PADDING_GROUP);
        found.append(&mut more);
        k += 1;
    }
    assert(all.take(k as int) =~= all);
    found
}

} // verus!
