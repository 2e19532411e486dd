//! Buckets: the readings that share head, tail and padding, gathered into one
//! collection each.

use crate::collection::{entities, Collection, Entity, Key};
use crate::reading::{Reading, ReadingView};
use vstd::prelude::*;
use vstd::string::*;
use vstd::utf8::encode_utf8;

verus! {

impl ReadingView {
    /// Head, tail and padding.
    pub open spec fn key(self) -> Key {
        Key { head: self.head, tail: self.tail, padding: self.padding }
    }
}

/// The views of the readings in `readings`.
pub open spec fn reading_views(readings: Seq<Reading>) -> Seq<ReadingView> {
    Seq::new(readings.len(), |k: int| readings[k]@)
}

/// Where the first bucket with the given key stands; the number of buckets
/// where none has it.
pub open spec fn position_of(buckets: Seq<Entity>, key: Key) -> int
    decreases buckets.len(),
{
    if buckets.len() == 0 {
        0
    } else if buckets[0].key() == key {
        0
    } else {
        1 + position_of(buckets.drop_first(), key)
    }
}

/// Whether no two buckets have the same key.
pub open spec fn distinct_keys(buckets: Seq<Entity>) -> bool {
    forall|i: int, j: int|
        0 <= i < j < buckets.len() ==> (#[trigger] buckets[i]).key() != (#[trigger] buckets[j]).key()
}

/// The buckets with one more reading: its index goes to the end of the
/// bucket that has its key, or into a new bucket behind the others.
pub open spec fn gather(buckets: Seq<Entity>, reading: ReadingView) -> Seq<Entity> {
    let at = position_of(buckets, reading.key());
    if at < buckets.len() {
        buckets.update(at, buckets[at].with_indexes(buckets[at].indexes.push(reading.index)))
    } else {
        buckets.push(
            Entity {
                head: reading.head,
                tail: reading.tail,
                padding: reading.padding,
                indexes: seq![reading.index],
            },
        )
    }
}

/// The buckets of the given readings: one for each key, in the order in which
/// the keys first occur, each with the indexes of its readings in their
/// order.
pub open spec fn buckets_of(readings: Seq<ReadingView>) -> Seq<Entity>
    decreases readings.len(),
{
    if readings.len() == 0 {
        Seq::empty()
    } else {
        gather(buckets_of(readings.drop_last()), readings.last())
    }
}

/// `position_of` finds the first bucket with the key, and only that.
pub proof fn lemma_position_of(buckets: Seq<Entity>, key: Key)
    ensures
        0 <= position_of(buckets, key) <= buckets.len(),
        position_of(buckets, key) < buckets.len() ==> buckets[position_of(buckets, key)].key()
            == key,
        forall|k: int| 0 <= k < position_of(buckets, key) ==> (#[trigger] buckets[k]).key() != key,
    decreases buckets.len(),
{
    if buckets.len() > 0 && buckets[0].key() != key {
        let rest = buckets.drop_first();
        lemma_position_of(rest, key);
        assert forall|k: int| 0 <= k < position_of(buckets, key) implies (#[trigger] buckets[k]).key()
            != key by {
            if k > 0 {
                assert(rest[k - 1].key() != key);
            }
        }
    }
}

/// Among buckets with distinct keys, a bucket is the first with its key.
pub proof fn lemma_position_found(buckets: Seq<Entity>, key: Key, at: int)
    requires
        distinct_keys(buckets),
        0 <= at < buckets.len(),
        buckets[at].key() == key,
    ensures
        position_of(buckets, key) == at,
{
    lemma_position_of(buckets, key);
    let p = position_of(buckets, key);
    if p < at {
        assert(buckets[p].key() != buckets[at].key());
    }
}

/// A key that no bucket has is found behind all buckets.
pub proof fn lemma_position_missing(buckets: Seq<Entity>, key: Key)
    requires
        forall|k: int| 0 <= k < buckets.len() ==> (#[trigger] buckets[k]).key() != key,
    ensures
        position_of(buckets, key) == buckets.len(),
{
    lemma_position_of(buckets, key);
}

/// Gathering a reading keeps the keys of the buckets distinct, keeps every
/// bucket that was there under its key, and leaves the reading's key with a
/// bucket.
pub proof fn lemma_gather(buckets: Seq<Entity>, reading: ReadingView)
    requires
        distinct_keys(buckets),
    ensures
        distinct_keys(gather(buckets, reading)),
        gather(buckets, reading).len() >= buckets.len(),
        forall|k: int|
            0 <= k < buckets.len() ==> (#[trigger] gather(buckets, reading)[k]).key()
                == buckets[k].key(),
{
    lemma_position_of(buckets, reading.key());
    let after = gather(buckets, reading);
    assert forall|i: int, j: int| 0 <= i < j < after.len() implies (#[trigger] after[i]).key() != (
    #[trigger] after[j]).key() by {
        if j < buckets.len() {
            assert(buckets[i].key() != buckets[j].key());
        } else {
            assert(buckets[i].key() != reading.key());
        }
    }
}

/// No two buckets of a list of readings have the same key.
pub proof fn lemma_buckets_distinct(readings: Seq<ReadingView>)
    ensures
        distinct_keys(buckets_of(readings)),
    decreases readings.len(),
{
    if readings.len() > 0 {
        lemma_buckets_distinct(readings.drop_last());
        lemma_gather(buckets_of(readings.drop_last()), readings.last());
    }
}

/// Gathering loses no reading: the bucket with the key of a reading holds
/// the index of the reading.
pub proof fn lemma_buckets_hold_readings(readings: Seq<ReadingView>, i: int)
    requires
        0 <= i < readings.len(),
    ensures
        ({
            let buckets = buckets_of(readings);
            let at = position_of(buckets, readings[i].key());
            at < buckets.len() && buckets[at].indexes.contains(readings[i].index)
        }),
    decreases readings.len(),
{
    let front = readings.drop_last();
    let last = readings.last();
    let before = buckets_of(front);
    let after = buckets_of(readings);
    lemma_buckets_distinct(front);
    lemma_buckets_distinct(readings);
    lemma_gather(before, last);
    lemma_position_of(before, last.key());
    let place = position_of(before, last.key());
    if i == readings.len() - 1 {
        lemma_position_found(after, last.key(), place);
        assert(after[place].indexes.last() == last.index);
    } else {
        lemma_buckets_hold_readings(front, i);
        let at = position_of(before, front[i].key());
        lemma_position_of(before, front[i].key());
        lemma_position_found(after, readings[i].key(), at);
        let held = choose|j: int|
            0 <= j < before[at].indexes.len() && before[at].indexes[j] == front[i].index;
        assert(after[at].indexes[held] == readings[i].index);
    }
}

/// Gathering makes nothing up: every index of a bucket is the index of a
/// reading with the key of the bucket.
pub proof fn lemma_buckets_come_from_readings(readings: Seq<ReadingView>, at: int, j: int)
    requires
        0 <= at < buckets_of(readings).len(),
        0 <= j < buckets_of(readings)[at].indexes.len(),
    ensures
        exists|i: int|
            0 <= i < readings.len() && (#[trigger] readings[i]).key() == buckets_of(
                readings,
            )[at].key() && readings[i].index == buckets_of(readings)[at].indexes[j],
    decreases readings.len(),
{
    if readings.len() > 0 {
        let front = readings.drop_last();
        let last = readings.last();
        let before = buckets_of(front);
        lemma_position_of(before, last.key());
        let place = position_of(before, last.key());
        let newest = readings.len() - 1;
        if at == place && j == buckets_of(readings)[at].indexes.len() - 1 {
            assert(readings[newest].key() == buckets_of(readings)[at].key());
        } else {
            lemma_buckets_come_from_readings(front, at, j);
            let i = choose|i: int|
                0 <= i < front.len() && (#[trigger] front[i]).key() == before[at].key()
                    && front[i].index == before[at].indexes[j];
            assert(readings[i] == front[i]);
        }
    }
}

/// Stirs `bytes` into the number `seed`.
pub open spec fn stirred(seed: nat, bytes: Seq<u8>) -> nat
    decreases bytes.len(),
{
    if bytes.len() == 0 {
        seed
    } else {
        (stirred(seed, bytes.drop_last()) * 31 + bytes.last() as nat) % 4294967296
    }
}

/// A number under 2^32 for each key. Equal keys have equal numbers; the
/// buckets are found by it, and nothing else rests on it.
pub open spec fn key_hash(key: Key) -> nat {
    stirred(
        stirred(((key.padding + 2147483648) % 4294967296) as nat, encode_utf8(key.head)),
        encode_utf8(key.tail),
    )
}

/// Stirs the bytes of `text` into `seed`.
fn stir(seed: u64, text: &str) -> (hash: u64)
    requires
        seed < 4294967296,
    ensures
        hash == stirred(seed as nat, encode_utf8(text@)),
        hash < 4294967296,
{
    let bytes = text.as_bytes();
    let mut hash = seed;
    let mut i: usize = 0;
    while i < bytes.len()
        invariant
            i <= bytes.len(),
            hash < 4294967296,
            hash == stirred(seed as nat, bytes@.take(i as int)),
        decreases bytes.len() - i,
    {
        assert(bytes@.take(i + 1).drop_last() =~= bytes@.take(i as int));
        hash = (hash * 31 + bytes[i] as u64) % 4294967296;
        i += 1;
    }
    assert(bytes@.take(i as int) =~= bytes@);
    hash
}

/// The number of the key that is made of the three values.
fn hash_key(head: &str, tail: &str, padding: i32) -> (hash: u64)
    ensures
        hash == key_hash(Key { head: head@, tail: tail@, padding: padding as int }),
{
    let seed = (padding as i64 + 2147483648) as u64;
    stir(stir(seed, head), tail)
}

/// Finds buckets by their key: for each slot the latest bucket whose key
/// falls into it, and for each bucket the bucket before it in the same slot.
/// A bucket is written as its position plus one, and zero says "none".
pub(crate) struct KeyIndex {
    heads: Vec<usize>,
    links: Vec<usize>,
}

impl KeyIndex {
    /// The slot that a key falls into.
    pub(crate) closed spec fn slot(&self, key: Key) -> int {
        (key_hash(key) % (self.heads@.len() as nat)) as int
    }

    /// Whether the head of slot `s` is the latest bucket in it.
    pub(crate) closed spec fn head_is_latest(&self, buckets: Seq<Entity>, s: int) -> bool {
        let head = self.heads@[s];
        &&& head <= buckets.len()
        &&& head > 0 ==> self.slot(buckets[head - 1].key()) == s
        &&& forall|b: int| head <= b < buckets.len() ==> self.slot((#[trigger] buckets[b]).key()) != s
    }

    /// Whether the link of bucket `b` is the bucket before it in its slot.
    pub(crate) closed spec fn link_is_previous(&self, buckets: Seq<Entity>, b: int) -> bool {
        let link = self.links@[b];
        let s = self.slot(buckets[b].key());
        &&& link <= b
        &&& link > 0 ==> self.slot(buckets[link - 1].key()) == s
        &&& forall|c: int| link <= c < b ==> self.slot((#[trigger] buckets[c]).key()) != s
    }

    /// Whether this is the index of the given buckets.
    pub(crate) closed spec fn indexes(&self, buckets: Seq<Entity>) -> bool {
        &&& self.heads@.len() > 0
        &&& self.links@.len() == buckets.len()
        &&& forall|s: int| 0 <= s < self.heads@.len() ==> #[trigger] self.head_is_latest(buckets, s)
        &&& forall|b: int| 0 <= b < buckets.len() ==> #[trigger] self.link_is_previous(buckets, b)
    }

    /// The index of no buckets, with room for about `expected` of them.
    pub(crate) fn new(expected: usize) -> (index: KeyIndex)
        ensures
            index.indexes(Seq::empty()),
    {
        let slots: usize = if expected == 0 {
            1
        } else {
            expected
        };
        let index = KeyIndex { heads: vec![0usize; slots], links: Vec::new() };
        assert forall|s: int| 0 <= s < index.heads@.len() implies #[trigger] index.head_is_latest(
            Seq::empty(),
            s,
        ) by {}
        index
    }

    /// An index of some buckets is the index of any buckets with the same
    /// keys.
    pub(crate) proof fn lemma_same_keys(&self, before: Seq<Entity>, after: Seq<Entity>)
        requires
            self.indexes(before),
            before.len() == after.len(),
            forall|k: int| 0 <= k < before.len() ==> (#[trigger] after[k]).key() == before[k].key(),
        ensures
            self.indexes(after),
    {
        assert forall|s: int| 0 <= s < self.heads@.len() implies #[trigger] self.head_is_latest(
            after,
            s,
        ) by {
            assert(self.head_is_latest(before, s));
            assert forall|b: int| self.heads@[s] <= b < after.len() implies self.slot(
                (#[trigger] after[b]).key(),
            ) != s by {
                assert(self.slot(before[b].key()) != s);
            }
        }
        assert forall|b: int| 0 <= b < after.len() implies #[trigger] self.link_is_previous(
            after,
            b,
        ) by {
            assert(self.link_is_previous(before, b));
            assert forall|c: int| self.links@[b] <= c < b implies self.slot(
                (#[trigger] after[c]).key(),
            ) != self.slot(after[b].key()) by {
                assert(self.slot(before[c].key()) != self.slot(before[b].key()));
            }
        }
    }

    /// Where the bucket with the given key stands, if there is one.
    pub(crate) fn find(&self, buckets: &Vec<Collection>, head: &String, tail: &String, padding: i32) -> (at:
        Option<usize>)
        requires
            self.indexes(entities(buckets@)),
        ensures
            match at {
                Some(k) => k < buckets@.len() && buckets@[k as int]@.key() == (Key {
                    head: head@,
                    tail: tail@,
                    padding: padding as int,
                }),
                None => forall|k: int|
                    0 <= k < buckets@.len() ==> (#[trigger] buckets@[k])@.key() != (Key {
                        head: head@,
                        tail: tail@,
                        padding: padding as int,
                    }),
            },
    {
        let ghost key = Key { head: head@, tail: tail@, padding: padding as int };
        let ghost model = entities(buckets@);
        let hash = hash_key(head.as_str(), tail.as_str(), padding);
        let s = (hash % self.heads.len() as u64) as usize;
        assert(s == self.slot(key));
        assert(self.head_is_latest(model, s as int));
        let mut current = self.heads[s];
        while current > 0
            invariant
                self.indexes(model),
                model == entities(buckets@),
                s == self.slot(key),
                key == (Key { head: head@, tail: tail@, padding: padding as int }),
                current <= buckets@.len(),
                current > 0 ==> self.slot(model[current - 1].key()) == s,
                forall|b: int| current <= b < model.len() ==> (#[trigger] model[b]).key() != key,
            decreases current,
        {
            let b = current - 1;
            let bucket = &buckets[b];
            if bucket.padding == padding && bucket.head == *head && bucket.tail == *tail {
                assert(model[b as int] == buckets@[b as int]@);
                return Some(b);
            }
            assert(model[b as int].key() != key);
            assert(self.link_is_previous(model, b as int));
            current = self.links[b];
        }
        assert forall|k: int| 0 <= k < buckets@.len() implies (#[trigger] buckets@[k])@.key()
            != key by {
            assert(model[k] == buckets@[k]@);
        }
        None
    }

    /// Takes in the bucket that was put behind the others.
    pub(crate) fn add(&mut self, buckets: &Vec<Collection>)
        requires
            buckets@.len() > 0,
            old(self).indexes(entities(buckets@).drop_last()),
        ensures
            final(self).indexes(entities(buckets@)),
    {
        let ghost model = entities(buckets@);
        let ghost before = model.drop_last();
        let last = buckets.len() - 1;
        let bucket = &buckets[last];
        let hash = hash_key(bucket.head.as_str(), bucket.tail.as_str(), bucket.padding);
        let s = (hash % self.heads.len() as u64) as usize;
        assert(s == self.slot(model[last as int].key()));
        assert(old(self).head_is_latest(before, s as int));
        let previous = self.heads[s];
        self.links.push(previous);
        self.heads[s] = buckets.len();
        proof {
            assert forall|t: int| 0 <= t < self.heads@.len() implies #[trigger] self.head_is_latest(
                model,
                t,
            ) by {
                assert(old(self).head_is_latest(before, t));
                assert(self.slot(model[last as int].key()) == s);
                if t != s {
                    assert forall|b: int| self.heads@[t] <= b < model.len() implies self.slot(
                        (#[trigger] model[b]).key(),
                    ) != t by {
                        if b < last {
                            assert(self.slot(before[b].key()) != t);
                        }
                    }
                }
            }
            assert forall|b: int| 0 <= b < model.len() implies #[trigger] self.link_is_previous(
                model,
                b,
            ) by {
                if b < last {
                    assert(old(self).link_is_previous(before, b));
                    assert forall|c: int| self.links@[b] <= c < b implies self.slot(
                        (#[trigger] model[c]).key(),
                    ) != self.slot(model[b].key()) by {
                        assert(self.slot(before[c].key()) != self.slot(before[b].key()));
                    }
                } else {
                    assert forall|c: int| self.links@[b] <= c < b implies self.slot(
                        (#[trigger] model[c]).key(),
                    ) != self.slot(model[b].key()) by {
                        assert(self.slot(before[c].key()) != s);
                    }
                }
            }
        }
    }
}

/// Gathers the readings into buckets, and hands back the index that finds a
/// bucket by its key.
pub(crate) fn gather_readings(readings: &Vec<Reading>) -> (gathered: (Vec<Collection>, KeyIndex))
    ensures
        entities(gathered.0@) == buckets_of(reading_views(readings@)),
        gathered.1.indexes(entities(gathered.0@)),
        forall|k: int| 0 <= k < gathered.0@.len() ==> (#[trigger] gathered.0@[k]).indexes@.len() > 0,
{
    let mut buckets: Vec<Collection> = Vec::new();
    let mut index = KeyIndex::new(readings.len());
    let ghost all = reading_views(readings@);
    assert(entities(buckets@) =~= buckets_of(all.take(0)));
    let mut i: usize = 0;
    while i < readings.len()
        invariant
            i <= readings.len(),
            all == reading_views(readings@),
            entities(buckets@) == buckets_of(all.take(i as int)),
            index.indexes(entities(buckets@)),
            forall|k: int| 0 <= k < buckets@.len() ==> (#[trigger] buckets@[k]).indexes@.len() > 0,
        decreases readings.len() - i,
    {
        let reading = &readings[i];
        let ghost before = entities(buckets@);
        proof {
            assert(all.take(i + 1).drop_last() =~= all.take(i as int));
            assert(all.take(i + 1).last() == reading@);
            lemma_buckets_distinct(all.take(i as int));
            lemma_position_of(before, reading@.key());
            lemma_gather(before, reading@);
        }
        match index.find(&buckets, &reading.head, &reading.tail, reading.padding) {
            Some(at) => {
                proof {
                    assert(before[at as int].key() == reading@.key());
                    lemma_position_found(before, reading@.key(), at as int);
                }
                buckets[at].indexes.push(reading.index);
                assert(entities(buckets@) =~= gather(before, reading@));
                proof {
                    index.lemma_same_keys(before, entities(buckets@));
                }
            },
            None => {
                proof {
                    assert forall|k: int| 0 <= k < before.len() implies (#[trigger] before[k]).key()
                        != reading@.key() by {
                        assert(before[k] == buckets@[k]@);
                    }
                    lemma_position_missing(before, reading@.key());
                }
                let mut indexes: Vec<i32> = Vec::new();
                indexes.push(reading.index);
                buckets.push(
                    Collection::new(
                        reading.head.clone(),
                        reading.tail.clone(),
                        reading.padding,
                        indexes,
                    ),
                );
                assert(entities(buckets@) =~= gather(before, reading@));
                assert(entities(buckets@).drop_last() =~= before);
                index.add(&buckets);
            },
        }
        i += 1;
    }
    assert(all.take(i as int) =~= all);
    (buckets, index)
}

/// Whether no index of `s` is above one that comes after it.
pub open spec fn non_descending(s: Seq<i32>) -> bool {
    forall|i: int, j: int| 0 <= i < j < s.len() ==> s[i] <= s[j]
}

/// The indexes of `s` in ascending order, each as often as `s` holds it.
pub open spec fn sorted(s: Seq<i32>) -> Seq<i32> {
    s.sort_by(|a: i32, b: i32| a <= b)
}

/// The buckets, each with its indexes in ascending order.
pub open spec fn sorted_buckets(buckets: Seq<Entity>) -> Seq<Entity> {
    Seq::new(buckets.len(), |k: int| buckets[k].with_indexes(sorted(buckets[k].indexes)))
}

/// A sequence that does not descend and holds what `s` holds is `s`, sorted.
proof fn lemma_sorted(s: Seq<i32>, ordered: Seq<i32>)
    requires
        non_descending(ordered),
        ordered.to_multiset() == s.to_multiset(),
    ensures
        ordered == sorted(s),
{
    let leq = |a: i32, b: i32| a <= b;
    assert(vstd::relations::total_ordering(leq)) by {
        assert(vstd::relations::reflexive(leq));
        assert(vstd::relations::antisymmetric(leq));
        assert(vstd::relations::transitive(leq));
        assert(vstd::relations::strongly_connected(leq));
    }
    s.lemma_sort_by_ensures(leq);
    assert(vstd::relations::sorted_by(ordered, leq));
    vstd::seq_lib::lemma_sorted_unique(ordered, sorted(s), leq);
}

/// Calls `sort` of std on the indexes. The contract says what std documents
/// of it: the vector holds afterwards what it held, and does not descend.
#[verifier::external_body]
fn sort_indexes(indexes: &mut Vec<i32>)
    ensures
        final(indexes)@.to_multiset() == old(indexes)@.to_multiset(),
        non_descending(final(indexes)@),
{
    indexes.sort();
}

/// Puts the indexes of every bucket in ascending order.
pub fn sort_buckets(buckets: &mut Vec<Collection>)
    ensures
        entities(final(buckets)@) == sorted_buckets(entities(old(buckets)@)),
        forall|k: int|
            0 <= k < old(buckets)@.len() ==> (#[trigger] final(buckets)@[k]).indexes@.len() == old(
                buckets,
            )@[k].indexes@.len(),
{
    let ghost before = entities(buckets@);
    let mut k: usize = 0;
    while k < buckets.len()
        invariant
            k <= buckets@.len(),
            buckets@.len() == before.len(),
            forall|j: int| 0 <= j < k ==> (#[trigger] buckets@[j])@ == sorted_buckets(before)[j],
            forall|j: int| k <= j < buckets@.len() ==> (#[trigger] buckets@[j])@ == before[j],
            forall|j: int|
                0 <= j < buckets@.len() ==> (#[trigger] buckets@[j]).indexes@.len()
                    == before[j].indexes.len(),
        decreases buckets.len() - k,
    {
        let ghost unsorted = buckets@[k as int].indexes@;
        sort_indexes(&mut buckets[k].indexes);
        proof {
            lemma_sorted(unsorted, buckets@[k as int].indexes@);
            vstd::seq_lib::to_multiset_len(unsorted);
            vstd::seq_lib::to_multiset_len(buckets@[k as int].indexes@);
        }
        k += 1;
    }
    assert(entities(buckets@) =~= sorted_buckets(before));
}

} // verus!
