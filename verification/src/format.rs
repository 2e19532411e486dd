//! How a collection is shown in one line: its ranges, its holes, and the
//! template that places them.

use crate::collection::{Collection, Entity};
use crate::runs::{holes_of, runs_of};
use crate::text::{decimal, decimal_text, texts};
use std::collections::HashMap;
use strfmt::FmtError;
use vstd::prelude::*;
use vstd::string::*;

verus! {

/// The error of the `strfmt` crate: a template that it cannot fill.
#[verifier::external_type_specification]
#[verifier::external_body]
pub struct ExFmtError(FmtError);

/// What `strfmt::strfmt` makes of a template and of the variables that are
/// called `names`, each with the value at the same place in `values`: the
/// filled text, or `None` where it reports an error.
pub uninterp spec fn strfmt_output(
    template: Seq<char>,
    names: Seq<Seq<char>>,
    values: Seq<Seq<char>>,
) -> Option<Seq<char>>;

/// How a span of `count` numbers from `first` to `last` is written: not at
/// all when it holds nothing, as the one number when it holds one, else as
/// first and last with a dash between them.
pub open spec fn span_text(count: nat, first: i32, last: i32) -> Seq<char> {
    if count == 0 {
        Seq::empty()
    } else if count == 1 {
        decimal(first as int)
    } else {
        decimal(first as int) + seq!['-'] + decimal(last as int)
    }
}

/// The range of a sequence of indexes: its span from the first to the last.
pub open spec fn range_text(s: Seq<i32>) -> Seq<char> {
    if s.len() == 0 {
        Seq::empty()
    } else {
        span_text(s.len(), s[0], s.last())
    }
}

/// The ranges of the given runs, with a comma and a space between one and the
/// next.
pub open spec fn ranges_text(runs: Seq<Seq<i32>>) -> Seq<char>
    decreases runs.len(),
{
    if runs.len() == 0 {
        Seq::empty()
    } else if runs.len() == 1 {
        range_text(runs[0])
    } else {
        ranges_text(runs.drop_last()) + seq![',', ' '] + range_text(runs.last())
    }
}

/// The first index in decimal; nothing where there is no index.
pub open spec fn start_text(s: Seq<i32>) -> Seq<char> {
    if s.len() == 0 {
        Seq::empty()
    } else {
        decimal(s[0] as int)
    }
}

/// The last index in decimal; nothing where there is no index.
pub open spec fn end_text(s: Seq<i32>) -> Seq<char> {
    if s.len() == 0 {
        Seq::empty()
    } else {
        decimal(s.last() as int)
    }
}

/// The padding as a `printf` directive: `%0`, the width, `d`.
pub open spec fn padding_directive(padding: int) -> Seq<char> {
    seq!['%', '0'] + decimal(padding) + seq!['d']
}

/// The line that shows a collection when no template is given: head, padding
/// directive and tail, then the ranges in square brackets.
pub open spec fn default_text(e: Entity) -> Seq<char> {
    e.head + padding_directive(e.padding) + e.tail + seq![' ', '['] + ranges_text(
        runs_of(e.indexes),
    ) + seq![']']
}

/// The names that a template can use, in the order of `placeholder_values`.
pub open spec fn placeholder_names() -> Seq<Seq<char>> {
    seq![
        "head"@,
        "padding"@,
        "tail"@,
        "start"@,
        "end"@,
        "range"@,
        "ranges"@,
        "holes"@,
    ]
}

/// What stands for each name of `placeholder_names` when a template is
/// filled for the collection `e`.
pub open spec fn placeholder_values(e: Entity) -> Seq<Seq<char>> {
    seq![
        e.head,
        padding_directive(e.padding),
        e.tail,
        start_text(e.indexes),
        end_text(e.indexes),
        range_text(e.indexes),
        ranges_text(runs_of(e.indexes)),
        range_text(holes_of(e.indexes)),
    ]
}

/// The line that shows a collection: the default line without a template,
/// else what `strfmt` makes of the template, and nothing where it reports an
/// error.
pub open spec fn formatted(e: Entity, template: Option<Seq<char>>) -> Seq<char> {
    match template {
        None => default_text(e),
        Some(t) => match strfmt_output(t, placeholder_names(), placeholder_values(e)) {
            Some(text) => text,
            None => Seq::empty(),
        },
    }
}

/// The default line is never empty.
pub proof fn lemma_default_text_not_empty(e: Entity)
    ensures
        formatted(e, None).len() > 0,
{
}

/// Calls `strfmt::strfmt` on the template, with a map that gives each name of
/// `names` the value at the same place in `values`. The contract says that
/// the outcome is the one that `strfmt_output` names, and no more: what
/// `strfmt` does with a template is not stated here.
#[verifier::external_body]
fn fill_template(template: &str, names: &Vec<String>, values: &Vec<String>) -> (filled: Result<
    String,
    FmtError,
>)
    ensures
        match filled {
            Ok(text) => strfmt_output(template@, texts(names@), texts(values@)) == Some(text@),
            Err(_) => strfmt_output(template@, texts(names@), texts(values@)) is None,
        },
{
    let vars: HashMap<String, String> = names.iter().cloned().zip(values.iter().cloned()).collect();
    strfmt::strfmt(template, &vars)
}

/// The filled text, or the empty text where the template could not be
/// filled.
pub fn filled_or_empty(filled: Result<String, FmtError>) -> (text: String)
    ensures
        text@ == match filled {
            Ok(t) => t@,
            Err(_) => Seq::empty(),
        },
{
    match filled {
        Ok(text) => text,
        Err(_) => String::new(),
    }
}

/// Writes a span of numbers; `many` says that it holds more than one.
fn write_span(holds_any: bool, many: bool, first: i32, last: i32) -> (text: String)
    ensures
        text@ == span_text(
            if !holds_any {
                0nat
            } else if many {
                2nat
            } else {
                1nat
            },
            first,
            last,
        ),
{
    let mut text = String::new();
    if holds_any {
        text.append(decimal_text(first).as_str());
        if many {
            proof {
                reveal_strlit("-");
            }
            text.append("-");
            text.append(decimal_text(last).as_str());
        }
    }
    assert(text@ =~= span_text(
        if !holds_any {
            0nat
        } else if many {
            2nat
        } else {
            1nat
        },
        first,
        last,
    ));
    text
}

/// Writes the range of `indexes`.
fn write_range(indexes: &Vec<i32>) -> (text: String)
    ensures
        text@ == range_text(indexes@),
{
    let n = indexes.len();
    if n == 0 {
        String::new()
    } else {
        write_span(true, n > 1, indexes[0], indexes[n - 1])
    }
}

/// Writes the range of the holes of `indexes`, without listing the holes.
fn write_holes(indexes: &Vec<i32>) -> (text: String)
    ensures
        text@ == range_text(holes_of(indexes@)),
{
    let n = indexes.len();
    let mut holds_any = false;
    let mut many = false;
    let mut first: i32 = 0;
    let mut last: i32 = 0;
    let mut i: usize = 1;
    while i < n
        invariant
            1 <= i,
            i <= n || n == 0,
            n == indexes.len(),
            n == 0 ==> !holds_any,
            n > 0 ==> ({
                let found = holes_of(indexes@.take(i as int));
                &&& holds_any == (found.len() > 0)
                &&& many == (found.len() > 1)
                &&& holds_any ==> found[0] == first && found.last() == last
            }),
        decreases n - i,
    {
        let low = indexes[i - 1];
        let high = indexes[i];
        proof {
            let s = indexes@.take(i + 1);
            assert(s.drop_last() =~= indexes@.take(i as int));
        }
        if high as i64 - low as i64 > 1 {
            if !holds_any {
                first = low + 1;
            }
            last = high - 1;
            many = holds_any || high as i64 - low as i64 > 2;
            holds_any = true;
        }
        i += 1;
    }
    proof {
        if n > 0 {
            assert(indexes@.take(i as int) =~= indexes@);
        }
    }
    write_span(holds_any, many, first, last)
}

impl Collection {
    /// Writes the ranges of the contiguous parts, with a comma and a space
    /// between one and the next.
    fn write_ranges(&self) -> (text: String)
        ensures
            text@ == ranges_text(runs_of(self.indexes@)),
    {
        let parts = self.separate();
        let ghost runs = runs_of(self.indexes@);
        let mut text = String::new();
        let mut k: usize = 0;
        while k < parts.len()
            invariant
                k <= parts.len(),
                parts@.len() == runs.len(),
                forall|j: int| 0 <= j < parts@.len() ==> (#[trigger] parts@[j]).indexes@ == runs[j],
                text@ == ranges_text(runs.take(k as int)),
            decreases parts.len() - k,
        {
            if k > 0 {
                proof {
                    reveal_strlit(", ");
                }
                text.append(", ");
            }
            text.append(write_range(&parts[k].indexes).as_str());
            proof {
                let done = runs.take(k + 1);
                assert(done.drop_last() =~= runs.take(k as int));
                assert(done.last() == runs[k as int]);
                if k == 0 {
                    assert(text@ =~= range_text(runs[0]));
                } else {
                    assert(text@ =~= ranges_text(runs.take(k as int)) + seq![',', ' ']
                        + range_text(runs[k as int]));
                }
            }
            k += 1;
        }
        assert(runs.take(k as int) =~= runs);
        text
    }

    /// Writes the padding as a `printf` directive.
    fn write_padding(&self) -> (text: String)
        ensures
            text@ == padding_directive(self.padding as int),
    {
        let mut text = String::new();
        proof {
            reveal_strlit("%0");
            reveal_strlit("d");
        }
        text.append("%0");
        text.append(decimal_text(self.padding).as_str());
        text.append("d");
        assert(text@ =~= padding_directive(self.padding as int));
        text
    }

    /// What stands for each placeholder of a template, in the order of
    /// `placeholder_names`: head, padding directive, tail, first index, last
    /// index, range, ranges of the contiguous parts, range of the holes.
    pub fn placeholders(&self) -> (values: Vec<String>)
        ensures
            values@.len() == 8,
            texts(values@) == placeholder_values(self@),
    {
        let n = self.indexes.len();
        let start = if n == 0 {
            String::new()
        } else {
            decimal_text(self.indexes[0])
        };
        let end = if n == 0 {
            String::new()
        } else {
            decimal_text(self.indexes[n - 1])
        };
        let mut values: Vec<String> = Vec::new();
        values.push(self.head.clone());
        values.push(self.write_padding());
        values.push(self.tail.clone());
        values.push(start);
        values.push(end);
        values.push(write_range(&self.indexes));
        values.push(self.write_ranges());
        values.push(write_holes(&self.indexes));
        assert(texts(values@) =~= placeholder_values(self@));
        values
    }

    /// The line that shows the collection. Without a template it is head,
    /// padding directive and tail, then the ranges of the contiguous parts
    /// in square brackets. With one, the template is filled by `strfmt`:
    /// `{head}`, `{padding}`, `{tail}`, `{start}`, `{end}`, `{range}`,
    /// `{ranges}` and `{holes}` are the names that it can use. A template
    /// that `strfmt` cannot fill, as one that uses another name, gives the
    /// empty text.
    pub fn format(&self, fmt: Option<&str>) -> (text: String)
        ensures
            text@ == formatted(
                self@,
                match fmt {
                    Some(template) => Some(template@),
                    None => None,
                },
            ),
    {
        match fmt {
            Some(template) => {
                let mut names: Vec<String> = Vec::new();
                names.push("head".to_owned());
                names.push("padding".to_owned());
                names.push("tail".to_owned());
                names.push("start".to_owned());
                names.push("end".to_owned());
                names.push("range".to_owned());
                names.push("ranges".to_owned());
                names.push("holes".to_owned());
                assert(texts(names@) =~= placeholder_names());
                let values = self.placeholders();
                filled_or_empty(fill_template(template, &names, &values))
            },
            None => {
                proof {
                    reveal_strlit(" [");
                    reveal_strlit("]");
                }
                let mut text = self.head.clone();
                text.append(self.write_padding().as_str());
                text.append(self.tail.as_str());
                text.append(" [");
                text.append(self.write_ranges().as_str());
                text.append("]");
                assert(text@ =~= default_text(self@));
                text
            },
        }
    }
}

} // verus!
