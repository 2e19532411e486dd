//! A collection: the names that share a head and a tail and differ in the
//! number between the two.

use crate::runs::{between, contiguous, follows_on, holes_of, lemma_runs_step, runs_of};
use crate::text::{
    all_digits, decimal, decimal_text, digits, digits_value, has_leading_zero, is_digit,
    lemma_digits, lemma_zeros_in_front, to_chars, zero_padded, zero_padded_text,
};
use vstd::prelude::*;
use vstd::string::*;

verus! {

/// One numbered sequence of names: every member is `head`, then an index
/// written in decimal and filled with zeros up to `padding` characters, then
/// `tail`. A padding of zero leaves the index as it is.
#[derive(Debug, PartialEq)]
pub struct Collection {
    pub head: String,
    pub tail: String,
    pub padding: i32,
    pub indexes: Vec<i32>,
}

/// What all members of a collection share.
pub struct Key {
    pub head: Seq<char>,
    pub tail: Seq<char>,
    pub padding: int,
}

/// What a collection holds, as plain values.
pub struct Entity {
    pub head: Seq<char>,
    pub tail: Seq<char>,
    pub padding: int,
    pub indexes: Seq<i32>,
}

impl View for Collection {
    type V = Entity;

    open spec fn view(&self) -> Entity {
        Entity {
            head: self.head@,
            tail: self.tail@,
            padding: self.padding as int,
            indexes: self.indexes@,
        }
    }
}

/// The name of the member with the given index.
pub open spec fn member_name(head: Seq<char>, tail: Seq<char>, padding: int, index: i32) -> Seq<
    char,
> {
    head + zero_padded(decimal(index as int), padding) + tail
}

impl Entity {
    /// Head, tail and padding.
    pub open spec fn key(self) -> Key {
        Key { head: self.head, tail: self.tail, padding: self.padding }
    }

    /// The same head, tail and padding, with other indexes.
    pub open spec fn with_indexes(self, indexes: Seq<i32>) -> Entity {
        Entity { head: self.head, tail: self.tail, padding: self.padding, indexes }
    }

    /// The name of the member at position `i`.
    pub open spec fn member(self, i: int) -> Seq<char> {
        member_name(self.head, self.tail, self.padding, self.indexes[i])
    }

    /// The names of the members, in the order of the indexes.
    pub open spec fn members(self) -> Seq<Seq<char>> {
        Seq::new(self.indexes.len(), |i: int| self.member(i))
    }

    /// Whether `name` is the name of a member.
    pub open spec fn has_member(self, name: Seq<char>) -> bool {
        exists|i: int| 0 <= i < self.indexes.len() && #[trigger] self.member(i) == name
    }

    /// What stands between head and tail in `item`, where `item` begins with
    /// the head and ends, after it, with the tail.
    pub open spec fn framed_run(self, item: Seq<char>) -> Option<Seq<char>> {
        let end = item.len() - self.tail.len();
        if self.head.len() <= end && item.take(self.head.len() as int) == self.head && item.skip(
            end,
        ) == self.tail {
            Some(item.subrange(self.head.len() as int, end))
        } else {
            None
        }
    }

    /// Whether `run` can be the number of a member: one digit or more, as
    /// many as the padding says, or, under a padding of zero, any count of
    /// them without a zero in front.
    pub open spec fn accepts_run(self, run: Seq<char>) -> bool {
        &&& run.len() > 0
        &&& all_digits(run)
        &&& if self.padding == 0 {
            !has_leading_zero(run)
        } else {
            run.len() == self.padding
        }
    }

    /// The run of digits that `item` holds between head and tail, where the
    /// collection accepts it.
    pub open spec fn matched_run(self, item: Seq<char>) -> Option<Seq<char>> {
        match self.framed_run(item) {
            Some(run) => if self.accepts_run(run) {
                Some(run)
            } else {
                None
            },
            None => None,
        }
    }
}

/// What `match_item` found in an item: the run of digits between head and
/// tail, and whether the run begins with a zero that fills it up.
#[derive(Debug, PartialEq)]
pub struct IndexMatch {
    pub index: String,
    pub padded: bool,
}

/// The name of the member with the given index.
pub fn render_member(head: &str, tail: &str, padding: i32, index: i32) -> (name: String)
    ensures
        name@ == member_name(head@, tail@, padding as int, index),
{
    let number = decimal_text(index);
    let padded = zero_padded_text(number.as_str(), padding);
    let mut name = head.to_owned();
    name.append(padded.as_str());
    name.append(tail);
    name
}

/// Whether `chars` holds `part` from position `at` on.
fn holds_at(chars: &Vec<char>, at: usize, part: &Vec<char>) -> (held: bool)
    requires
        at + part.len() <= chars.len(),
    ensures
        held == (chars@.subrange(at as int, at + part.len()) == part@),
{
    let mut k: usize = 0;
    while k < part.len()
        invariant
            k <= part.len(),
            at + part.len() <= chars.len(),
            chars@.subrange(at as int, at + k) == part@.take(k as int),
        decreases part.len() - k,
    {
        if chars[at + k] != part[k] {
            assert(chars@.subrange(at as int, at + part.len())[k as int] != part@[k as int]);
            return false;
        }
        k += 1;
        assert(chars@.subrange(at as int, at + k) =~= part@.take(k as int));
    }
    assert(part@.take(k as int) =~= part@);
    true
}

/// The views of the collections in `collections`.
pub open spec fn entities(collections: Seq<Collection>) -> Seq<Entity> {
    Seq::new(collections.len(), |k: int| collections[k]@)
}

/// Every member's name is the name of a member.
pub proof fn lemma_member_is_contained(e: Entity, i: int)
    requires
        0 <= i < e.indexes.len(),
    ensures
        e.has_member(e.member(i)),
{
}

/// A member's name is read back as a member's name, and the digits found in
/// it stand for the member's index. This holds of an index that is not
/// negative and of a padding that is zero, or at least as wide as the index
/// has digits.
pub proof fn lemma_member_is_matched(e: Entity, i: int)
    requires
        0 <= i < e.indexes.len(),
        e.indexes[i] >= 0,
        e.padding == 0 || digits(e.indexes[i] as nat).len() <= e.padding,
    ensures
        e.matched_run(e.member(i)) == Some(zero_padded(decimal(e.indexes[i] as int), e.padding)),
        digits_value(zero_padded(decimal(e.indexes[i] as int), e.padding)) == e.indexes[i],
{
    let number = digits(e.indexes[i] as nat);
    let run = zero_padded(number, e.padding);
    let name = e.member(i);
    lemma_digits(e.indexes[i] as nat);
    if number.len() < e.padding {
        lemma_zeros_in_front((e.padding - number.len()) as nat, number);
    }
    assert(name.take(e.head.len() as int) =~= e.head);
    assert(name.skip(name.len() - e.tail.len()) =~= e.tail);
    assert(name.subrange(e.head.len() as int, name.len() - e.tail.len()) =~= run);
}

impl Collection {
    /// The collection of the given head, tail, padding and indexes, taken as
    /// they are.
    pub fn new(head: String, tail: String, padding: i32, indexes: Vec<i32>) -> (collection:
        Collection)
        ensures
            collection.head == head,
            collection.tail == tail,
            collection.padding == padding,
            collection.indexes == indexes,
    {
        Collection { head, tail, padding, indexes }
    }

    /// A collection with the head, tail and padding of this one and the given
    /// indexes.
    fn sibling(&self, indexes: Vec<i32>) -> (collection: Collection)
        ensures
            collection@ == self@.with_indexes(indexes@),
    {
        Collection::new(self.head.clone(), self.tail.clone(), self.padding, indexes)
    }

    /// Whether every index is one more than the index before it.
    pub fn is_contiguous(&self) -> (whole: bool)
        ensures
            whole == contiguous(self.indexes@),
    {
        let n = self.indexes.len();
        let mut i: usize = 1;
        while i < n
            invariant
                1 <= i,
                n == self.indexes.len(),
                forall|j: int| 0 <= j < i - 1 && j < n - 1 ==> #[trigger] follows_on(self.indexes@, j),
            decreases n - i,
        {
            if self.indexes[i - 1] as i64 + 1 != self.indexes[i] as i64 {
                assert(!follows_on(self.indexes@, i - 1));
                return false;
            }
            i += 1;
        }
        true
    }

    /// The collection of the indexes that are missing: for each index and the
    /// one after it, the whole numbers strictly between the two.
    pub fn holes(&self) -> (missing: Collection)
        ensures
            missing@ == self@.with_indexes(holes_of(self.indexes@)),
    {
        let n = self.indexes.len();
        let mut missing: Vec<i32> = Vec::new();
        let mut i: usize = 1;
        while i < n
            invariant
                1 <= i,
                n == self.indexes.len(),
                i <= n || n == 0,
                n > 0 ==> missing@ == holes_of(self.indexes@.take(i as int)),
                n == 0 ==> missing@ == Seq::<i32>::empty(),
            decreases n - i,
        {
            let low = self.indexes[i - 1];
            let high = self.indexes[i];
            let ghost before = missing@;
            proof {
                let s = self.indexes@.take(i + 1);
                assert(s.drop_last() =~= self.indexes@.take(i as int));
            }
            if low < high {
                let mut k: i32 = low + 1;
                while k < high
                    invariant
                        low < k <= high,
                        missing@ == before + between(low, high).take(k - low - 1),
                    decreases high - k,
                {
                    missing.push(k);
                    assert(missing@ =~= before + between(low, high).take(k + 1 - low - 1));
                    k += 1;
                }
                assert(missing@ =~= before + between(low, high));
            } else {
                assert(missing@ =~= before + between(low, high));
            }
            i += 1;
        }
        proof {
            if n > 0 {
                assert(self.indexes@.take(i as int) =~= self.indexes@);
            }
        }
        self.sibling(missing)
    }

    /// Reads `item` as a member's name: the head, a run of digits that the
    /// padding accepts, the tail, and nothing else. Returns the run and
    /// whether it begins with a zero that fills it up, or `None` where `item`
    /// is no such name. Head and tail are taken letter for letter.
    pub fn match_item(&self, item: &String) -> (found: Option<IndexMatch>)
        ensures
            match found {
                Some(m) => self@.matched_run(item@) == Some(m.index@) && m.padded
                    == has_leading_zero(m.index@),
                None => self@.matched_run(item@) is None,
            },
    {
        let chars = to_chars(item.as_str());
        let head = to_chars(self.head.as_str());
        let tail = to_chars(self.tail.as_str());
        if head.len() > chars.len() || tail.len() > chars.len() - head.len() {
            return None;
        }
        let start = head.len();
        let end = chars.len() - tail.len();
        assert(chars@.take(start as int) =~= chars@.subrange(0, 0 + start));
        assert(chars@.skip(end as int) =~= chars@.subrange(end as int, end + tail.len()));
        if !holds_at(&chars, 0, &head) || !holds_at(&chars, end, &tail) {
            return None;
        }
        let ghost run = chars@.subrange(start as int, end as int);
        assert(self@.framed_run(item@) == Some(run));
        if start == end {
            return None;
        }
        let mut k: usize = start;
        while k < end
            invariant
                start <= k <= end <= chars.len(),
                run == chars@.subrange(start as int, end as int),
                self@.framed_run(item@) == Some(run),
                all_digits(run.take(k - start)),
            decreases end - k,
        {
            if chars[k] < '0' || chars[k] > '9' {
                assert(!is_digit(run[k - start]));
                return None;
            }
            k += 1;
        }
        assert(run.take(k - start) =~= run);
        let padded = end - start > 1 && chars[start] == '0';
        assert(padded == has_leading_zero(run));
        if self.padding == 0 {
            if padded {
                return None;
            }
        } else if self.padding < 0 || end - start != self.padding as usize {
            return None;
        }
        let index = item.as_str().substring_char(start, end).to_owned();
        Some(IndexMatch { index, padded })
    }

    /// Whether `item` is the name of a member.
    pub fn contains(&self, item: &String) -> (found: bool)
        ensures
            found == self@.has_member(item@),
    {
        let mut i: usize = 0;
        while i < self.indexes.len()
            invariant
                i <= self.indexes.len(),
                forall|j: int| 0 <= j < i ==> #[trigger] self@.member(j) != item@,
            decreases self.indexes.len() - i,
        {
            let name = render_member(
                self.head.as_str(),
                self.tail.as_str(),
                self.padding,
                self.indexes[i],
            );
            if name == *item {
                assert(self@.member(i as int) == item@);
                return true;
            }
            i += 1;
        }
        false
    }

    /// The contiguous parts of the collection, each a collection of its own
    /// with the same head, tail and padding. A collection without indexes has
    /// one part, without indexes.
    pub fn separate(&self) -> (parts: Vec<Collection>)
        ensures
            parts@.len() == runs_of(self.indexes@).len(),
            forall|k: int|
                0 <= k < parts@.len() ==> (#[trigger] parts@[k])@ == self@.with_indexes(
                    runs_of(self.indexes@)[k],
                ),
    {
        let n = self.indexes.len();
        let mut parts: Vec<Collection> = Vec::new();
        let mut current: Vec<i32> = Vec::new();
        if n > 0 {
            current.push(self.indexes[0]);
            assert(self.indexes@.take(1) =~= current@);
            let mut i: usize = 1;
            while i < n
                invariant
                    1 <= i <= n,
                    n == self.indexes.len(),
                    current@.len() > 0,
                    current@.last() == self.indexes@[i - 1],
                    parts@.len() + 1 == runs_of(self.indexes@.take(i as int)).len(),
                    current@ == runs_of(self.indexes@.take(i as int)).last(),
                    forall|k: int|
                        0 <= k < parts@.len() ==> (#[trigger] parts@[k])@ == self@.with_indexes(
                            runs_of(self.indexes@.take(i as int))[k],
                        ),
                decreases n - i,
            {
                let index = self.indexes[i];
                proof {
                    let s = self.indexes@.take(i as int);
                    lemma_runs_step(s, index);
                    assert(s.push(index) =~= self.indexes@.take(i + 1));
                }
                if self.indexes[i - 1] as i64 + 1 == index as i64 {
                    current.push(index);
                } else {
                    parts.push(self.sibling(current));
                    current = Vec::new();
                    current.push(index);
                    assert(current@ =~= seq![index]);
                }
                i += 1;
            }
            assert(self.indexes@.take(n as int) =~= self.indexes@);
        } else {
            assert(self.indexes@ =~= current@);
        }
        parts.push(self.sibling(current));
        parts
    }
}

/// The names from position `from` on; none where `from` is past the end.
pub open spec fn names_from(e: Entity, from: int) -> Seq<Seq<char>> {
    if 0 <= from <= e.indexes.len() {
        e.members().skip(from)
    } else {
        Seq::empty()
    }
}

/// Walks through the names of the members of a collection that it has taken
/// over.
pub struct IntoIteratorHelper {
    head: String,
    tail: String,
    padding: i32,
    indexes: Vec<i32>,
    position: usize,
}

/// Walks through the names of the members of a collection that it borrows.
pub struct IterHelper<'a> {
    head: String,
    tail: String,
    padding: i32,
    indexes: &'a Vec<i32>,
    position: usize,
}

impl Collection {
    /// Hands the collection over to be walked through, one member's name
    /// after the other, in the order of the indexes.
    pub fn into_iter(self) -> (walk: IntoIteratorHelper)
        ensures
            walk.remaining() == self@.members(),
    {
        let walk = IntoIteratorHelper {
            head: self.head,
            tail: self.tail,
            padding: self.padding,
            indexes: self.indexes,
            position: 0,
        };
        assert(self@.members().skip(0) =~= self@.members());
        walk
    }

    /// Walks through the names of the members, in the order of the indexes,
    /// and leaves the collection as it is. It can be walked through again.
    pub fn iter(&self) -> (walk: IterHelper<'_>)
        ensures
            walk.remaining() == self@.members(),
    {
        let walk = IterHelper {
            head: self.head.clone(),
            tail: self.tail.clone(),
            padding: self.padding,
            indexes: &self.indexes,
            position: 0,
        };
        assert(self@.members().skip(0) =~= self@.members());
        walk
    }
}

impl IntoIteratorHelper {
    /// The names that are still to come, in their order.
    pub closed spec fn remaining(&self) -> Seq<Seq<char>> {
        names_from(
            Entity {
                head: self.head@,
                tail: self.tail@,
                padding: self.padding as int,
                indexes: self.indexes@,
            },
            self.position as int,
        )
    }

    /// The next name, or `None` when none is left.
    pub fn next(&mut self) -> (name: Option<String>)
        ensures
            match name {
                Some(text) => old(self).remaining().len() > 0 && text@ == old(self).remaining()[0]
                    && final(self).remaining() == old(self).remaining().drop_first(),
                None => old(self).remaining().len() == 0 && final(self).remaining() == old(
                    self,
                ).remaining(),
            },
    {
        if self.position < self.indexes.len() {
            let name = render_member(
                self.head.as_str(),
                self.tail.as_str(),
                self.padding,
                self.indexes[self.position],
            );
            self.position = self.position + 1;
            assert(self.remaining() =~= old(self).remaining().drop_first());
            Some(name)
        } else {
            None
        }
    }
}

impl<'a> IterHelper<'a> {
    /// The names that are still to come, in their order.
    pub closed spec fn remaining(&self) -> Seq<Seq<char>> {
        names_from(
            Entity {
                head: self.head@,
                tail: self.tail@,
                padding: self.padding as int,
                indexes: self.indexes@,
            },
            self.position as int,
        )
    }

    /// The next name, or `None` when none is left.
    pub fn next(&mut self) -> (name: Option<String>)
        ensures
            match name {
                Some(text) => old(self).remaining().len() > 0 && text@ == old(self).remaining()[0]
                    && final(self).remaining() == old(self).remaining().drop_first(),
                None => old(self).remaining().len() == 0 && final(self).remaining() == old(
                    self,
                ).remaining(),
            },
    {
        if self.position < self.indexes.len() {
            let name = render_member(
                self.head.as_str(),
                self.tail.as_str(),
                self.padding,
                self.indexes[self.position],
            );
            self.position = self.position + 1;
            assert(self.remaining() =~= old(self).remaining().drop_first());
            Some(name)
        } else {
            None
        }
    }
}

} // verus!
