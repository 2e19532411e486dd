//! Merging across the padding boundary, and the size filter: which buckets
//! come out as collections, and which names are left over.

use crate::buckets::{distinct_keys, lemma_position_found, lemma_position_missing, position_of, KeyIndex};
use crate::collection::{entities, render_member, Collection, Entity, Key};
use crate::text::{decimal, decimal_text, texts};
use vstd::prelude::*;
use vstd::string::*;

verus! {

/// How many characters the decimal text of `index` has.
pub open spec fn width_of(index: i32) -> int {
    decimal(index as int).len() as int
}

/// Whether the decimal text of every index has `width` characters.
pub open spec fn all_of_width(indexes: Seq<i32>, width: int) -> bool {
    forall|i: int| 0 <= i < indexes.len() ==> width_of(#[trigger] indexes[i]) == width
}

/// The indexes whose decimal text has `width` characters, in their order.
pub open spec fn of_width(indexes: Seq<i32>, width: int) -> Seq<i32>
    decreases indexes.len(),
{
    if indexes.len() == 0 {
        Seq::empty()
    } else if width_of(indexes.last()) == width {
        of_width(indexes.drop_last(), width).push(indexes.last())
    } else {
        of_width(indexes.drop_last(), width)
    }
}

/// The key of the bucket that a bucket of fixed width merges from: the same
/// head and tail, with the width left open.
pub open spec fn donor_key(e: Entity) -> Key {
    Key { head: e.head, tail: e.tail, padding: 0 }
}

/// Bucket `k` after the merge. A bucket of fixed width takes, behind its own
/// indexes, those indexes of the bucket with the same head and tail and an
/// open width whose decimal text is as wide as its padding. Any other bucket
/// stays as it is.
pub open spec fn merged_one(buckets: Seq<Entity>, k: int) -> Entity {
    let bucket = buckets[k];
    let donor = position_of(buckets, donor_key(bucket));
    if bucket.padding > 0 && donor < buckets.len() {
        bucket.with_indexes(bucket.indexes + of_width(buckets[donor].indexes, bucket.padding))
    } else {
        bucket
    }
}

/// Whether bucket `k`, of fixed width, takes every index of bucket `d`, of
/// open width and the same head and tail.
pub open spec fn takes_all(buckets: Seq<Entity>, k: int, d: int) -> bool {
    &&& buckets[k].padding > 0
    &&& buckets[d].padding == 0
    &&& buckets[k].head == buckets[d].head
    &&& buckets[k].tail == buckets[d].tail
    &&& all_of_width(buckets[d].indexes, buckets[k].padding)
}

/// Whether some bucket takes every index of bucket `d`, so that `d` has
/// nothing of its own left.
pub open spec fn used_up(buckets: Seq<Entity>, d: int) -> bool {
    exists|k: int| 0 <= k < buckets.len() && #[trigger] takes_all(buckets, k, d)
}

/// The first `n` buckets after the merge, without those that are used up.
pub open spec fn live_upto(buckets: Seq<Entity>, n: int) -> Seq<Entity>
    decreases n,
{
    if n <= 0 {
        Seq::empty()
    } else if used_up(buckets, n - 1) {
        live_upto(buckets, n - 1)
    } else {
        live_upto(buckets, n - 1).push(merged_one(buckets, n - 1))
    }
}

/// The buckets after the merge, without those that are used up.
pub open spec fn live(buckets: Seq<Entity>) -> Seq<Entity> {
    live_upto(buckets, buckets.len() as int)
}

/// Whether a bucket is large enough to come out as a collection: it has more
/// than two indexes.
pub open spec fn survives(e: Entity) -> bool {
    e.indexes.len() > 2
}

/// Those of `list` that survive, in their order.
pub open spec fn survivors_of(list: Seq<Entity>) -> Seq<Entity>
    decreases list.len(),
{
    if list.len() == 0 {
        Seq::empty()
    } else if survives(list.last()) {
        survivors_of(list.drop_last()).push(list.last())
    } else {
        survivors_of(list.drop_last())
    }
}

/// The names of the members of those of `list` that do not survive, in the
/// order of the list.
pub open spec fn dissolved_names(list: Seq<Entity>) -> Seq<Seq<char>>
    decreases list.len(),
{
    if list.len() == 0 {
        Seq::empty()
    } else if survives(list.last()) {
        dissolved_names(list.drop_last())
    } else {
        dissolved_names(list.drop_last()) + list.last().members()
    }
}

/// Every survivor has more than two indexes.
pub proof fn lemma_survivors_are_large(list: Seq<Entity>)
    ensures
        forall|k: int|
            0 <= k < survivors_of(list).len() ==> (#[trigger] survivors_of(list)[k]).indexes.len()
                > 2,
    decreases list.len(),
{
    if list.len() > 0 {
        lemma_survivors_are_large(list.drop_last());
        let earlier = survivors_of(list.drop_last());
        assert forall|k: int| 0 <= k < survivors_of(list).len() implies (#[trigger] survivors_of(
            list,
        )[k]).indexes.len() > 2 by {
            if k < earlier.len() {
                assert(earlier[k].indexes.len() > 2);
            }
        }
    }
}

/// Whether one of the first `n` buckets has the key.
pub open spec fn key_among(buckets: Seq<Entity>, n: int, key: Key) -> bool {
    exists|k: int| 0 <= k < n && (#[trigger] buckets[k]).key() == key
}

/// The merge makes no new key and brings no key in twice: among buckets with
/// distinct keys, what is live has distinct keys, each the key of a bucket.
pub proof fn lemma_live_keys(buckets: Seq<Entity>, n: int)
    requires
        distinct_keys(buckets),
        0 <= n <= buckets.len(),
    ensures
        distinct_keys(live_upto(buckets, n)),
        forall|i: int|
            0 <= i < live_upto(buckets, n).len() ==> key_among(
                buckets,
                n,
                (#[trigger] live_upto(buckets, n)[i]).key(),
            ),
    decreases n,
{
    if n > 0 {
        lemma_live_keys(buckets, n - 1);
        let earlier = live_upto(buckets, n - 1);
        let now = live_upto(buckets, n);
        assert(merged_one(buckets, n - 1).key() == buckets[n - 1].key());
        assert forall|i: int| 0 <= i < now.len() implies key_among(
            buckets,
            n,
            (#[trigger] now[i]).key(),
        ) by {
            if i < earlier.len() {
                assert(key_among(buckets, n - 1, earlier[i].key()));
                let k = choose|k: int|
                    0 <= k < n - 1 && (#[trigger] buckets[k]).key() == earlier[i].key();
                assert(buckets[k].key() == now[i].key());
            } else {
                assert(buckets[n - 1].key() == now[i].key());
            }
        }
        assert forall|i: int, j: int| 0 <= i < j < now.len() implies (#[trigger] now[i]).key() != (
        #[trigger] now[j]).key() by {
            if j < earlier.len() {
                assert(earlier[i].key() != earlier[j].key());
            } else {
                assert(key_among(buckets, n - 1, earlier[i].key()));
                let k = choose|k: int|
                    0 <= k < n - 1 && (#[trigger] buckets[k]).key() == earlier[i].key();
                assert(buckets[k].key() != buckets[n - 1].key());
            }
        }
    }
}

/// The survivors are taken from the list: each is in it, and their keys are
/// distinct where those of the list are.
pub proof fn lemma_survivors_keys(list: Seq<Entity>)
    requires
        distinct_keys(list),
    ensures
        distinct_keys(survivors_of(list)),
        forall|i: int|
            0 <= i < survivors_of(list).len() ==> list.contains(#[trigger] survivors_of(list)[i]),
    decreases list.len(),
{
    if list.len() > 0 {
        let front = list.drop_last();
        assert(distinct_keys(front)) by {
            assert forall|i: int, j: int| 0 <= i < j < front.len() implies (#[trigger] front[i]).key()
                != (#[trigger] front[j]).key() by {
                assert(list[i].key() != list[j].key());
            }
        }
        lemma_survivors_keys(front);
        let earlier = survivors_of(front);
        let now = survivors_of(list);
        assert forall|i: int| 0 <= i < now.len() implies list.contains(#[trigger] now[i]) by {
            if i < earlier.len() {
                assert(front.contains(earlier[i]));
                let k = choose|k: int| 0 <= k < front.len() && front[k] == earlier[i];
                assert(list[k] == now[i]);
            } else {
                assert(list[list.len() - 1] == now[i]);
            }
        }
        assert forall|i: int, j: int| 0 <= i < j < now.len() implies (#[trigger] now[i]).key() != (
        #[trigger] now[j]).key() by {
            if j < earlier.len() {
                assert(earlier[i].key() != earlier[j].key());
            } else {
                assert(front.contains(earlier[i]));
                let k = choose|k: int| 0 <= k < front.len() && front[k] == earlier[i];
                assert(list[k].key() != list[list.len() - 1].key());
            }
        }
    }
}

/// How many characters the decimal text of `index` has.
fn decimal_width(index: i32) -> (width: usize)
    ensures
        width == width_of(index),
{
    decimal_text(index).as_str().unicode_len()
}

/// Whether the decimal text of every index has `width` characters.
fn every_width_is(indexes: &Vec<i32>, width: usize) -> (all: bool)
    ensures
        all == all_of_width(indexes@, width as int),
{
    let mut i: usize = 0;
    while i < indexes.len()
        invariant
            i <= indexes.len(),
            forall|j: int| 0 <= j < i ==> width_of(#[trigger] indexes@[j]) == width,
        decreases indexes.len() - i,
    {
        if decimal_width(indexes[i]) != width {
            return false;
        }
        i += 1;
    }
    true
}

/// Puts behind `into` the indexes of `from` whose decimal text has `width`
/// characters.
fn take_of_width(into: &mut Vec<i32>, from: &Vec<i32>, width: usize)
    ensures
        final(into)@ == old(into)@ + of_width(from@, width as int),
{
    let ghost start = into@;
    let mut i: usize = 0;
    assert(into@ =~= start + of_width(from@.take(0), width as int));
    while i < from.len()
        invariant
            i <= from.len(),
            into@ == start + of_width(from@.take(i as int), width as int),
        decreases from.len() - i,
    {
        assert(from@.take(i + 1).drop_last() =~= from@.take(i as int));
        if decimal_width(from[i]) == width {
            into.push(from[i]);
        }
        assert(into@ =~= start + of_width(from@.take(i + 1), width as int));
        i += 1;
    }
    assert(from@.take(i as int) =~= from@);
}

/// Whether some bucket takes every index of bucket `d`.
fn is_used_up(buckets: &Vec<Collection>, index: &KeyIndex, d: usize) -> (used: bool)
    requires
        index.indexes(entities(buckets@)),
        d < buckets@.len(),
        buckets@[d as int].indexes@.len() > 0,
    ensures
        used == used_up(entities(buckets@), d as int),
{
    let ghost model = entities(buckets@);
    let donor = &buckets[d];
    assert(model[d as int] == donor@);
    if donor.padding != 0 {
        return false;
    }
    let width = decimal_width(donor.indexes[0]);
    if width == 0 || width > i32::MAX as usize || !every_width_is(&donor.indexes, width) {
        assert forall|k: int| 0 <= k < model.len() implies !#[trigger] takes_all(
            model,
            k,
            d as int,
        ) by {
            if takes_all(model, k, d as int) {
                assert(width_of(donor.indexes@[0]) == model[k].padding);
            }
        }
        return false;
    }
    match index.find(buckets, &donor.head, &donor.tail, width as i32) {
        Some(k) => {
            assert(model[k as int] == buckets@[k as int]@);
            assert(takes_all(model, k as int, d as int));
            true
        },
        None => {
            assert forall|k: int| 0 <= k < model.len() implies !#[trigger] takes_all(
                model,
                k,
                d as int,
            ) by {
                if takes_all(model, k, d as int) {
                    assert(width_of(donor.indexes@[0]) == model[k].padding);
                    assert(model[k] == buckets@[k]@);
                    assert(buckets@[k]@.key() == (Key {
                        head: donor.head@,
                        tail: donor.tail@,
                        padding: width as int,
                    }));
                }
            }
            false
        },
    }
}

/// Bucket `k` after the merge.
fn merge_one(buckets: &Vec<Collection>, index: &KeyIndex, k: usize) -> (merged: Collection)
    requires
        index.indexes(entities(buckets@)),
        distinct_keys(entities(buckets@)),
        k < buckets@.len(),
    ensures
        merged@ == merged_one(entities(buckets@), k as int),
{
    let ghost model = entities(buckets@);
    let bucket = &buckets[k];
    assert(model[k as int] == bucket@);
    let mut indexes = bucket.indexes.clone();
    assert(indexes@ =~= bucket.indexes@);
    if bucket.padding > 0 {
        match index.find(buckets, &bucket.head, &bucket.tail, 0) {
            Some(d) => {
                proof {
                    assert(model[d as int] == buckets@[d as int]@);
                    lemma_position_found(model, donor_key(bucket@), d as int);
                }
                take_of_width(&mut indexes, &buckets[d].indexes, bucket.padding as usize);
            },
            None => {
                proof {
                    assert forall|j: int| 0 <= j < model.len() implies (#[trigger] model[j]).key()
                        != donor_key(bucket@) by {
                        assert(model[j] == buckets@[j]@);
                    }
                    lemma_position_missing(model, donor_key(bucket@));
                }
            },
        }
    }
    Collection::new(bucket.head.clone(), bucket.tail.clone(), bucket.padding, indexes)
}

/// Puts the names of the members of `collection` behind `names`.
fn push_members(names: &mut Vec<String>, collection: &Collection)
    ensures
        texts(final(names)@) == texts(old(names)@) + collection@.members(),
{
    let ghost start = texts(names@);
    let mut i: usize = 0;
    assert(texts(names@) =~= start + collection@.members().take(0));
    while i < collection.indexes.len()
        invariant
            i <= collection.indexes.len(),
            texts(names@) == start + collection@.members().take(i as int),
        decreases collection.indexes.len() - i,
    {
        let name = render_member(
            collection.head.as_str(),
            collection.tail.as_str(),
            collection.padding,
            collection.indexes[i],
        );
        let ghost earlier = names@;
        names.push(name);
        assert(texts(names@) =~= texts(earlier).push(name@));
        assert(collection@.members().take(i + 1) =~= collection@.members().take(i as int).push(
            collection@.member(i as int),
        ));
        assert(texts(names@) =~= start + collection@.members().take(i + 1));
        i += 1;
    }
    assert(collection@.members().take(i as int) =~= collection@.members());
}

/// Merges the buckets, leaves out those that are used up, and parts the rest:
/// the ones that survive come out as collections, the names of the members
/// of the others are handed back beside them.
pub(crate) fn settle(buckets: &Vec<Collection>, index: &KeyIndex) -> (settled: (
    Vec<Collection>,
    Vec<String>,
))
    requires
        index.indexes(entities(buckets@)),
        distinct_keys(entities(buckets@)),
        forall|k: int| 0 <= k < buckets@.len() ==> (#[trigger] buckets@[k]).indexes@.len() > 0,
    ensures
        entities(settled.0@) == survivors_of(live(entities(buckets@))),
        texts(settled.1@) == dissolved_names(live(entities(buckets@))),
{
    let ghost model = entities(buckets@);
    let mut survivors: Vec<Collection> = Vec::new();
    let mut names: Vec<String> = Vec::new();
    assert(entities(survivors@) =~= survivors_of(live_upto(model, 0)));
    assert(texts(names@) =~= dissolved_names(live_upto(model, 0)));
    let mut k: usize = 0;
    while k < buckets.len()
        invariant
            k <= buckets@.len(),
            model == entities(buckets@),
            index.indexes(model),
            distinct_keys(model),
            forall|j: int| 0 <= j < buckets@.len() ==> (#[trigger] buckets@[j]).indexes@.len() > 0,
            entities(survivors@) == survivors_of(live_upto(model, k as int)),
            texts(names@) == dissolved_names(live_upto(model, k as int)),
        decreases buckets.len() - k,
    {
        let ghost before = live_upto(model, k as int);
        let ghost kept = entities(survivors@);
        if !is_used_up(buckets, index, k) {
            let merged = merge_one(buckets, index, k);
            proof {
                let after = live_upto(model, k + 1);
                assert(after == before.push(merged@));
                assert(after.drop_last() =~= before);
            }
            if merged.indexes.len() > 2 {
                survivors.push(merged);
                assert(entities(survivors@) =~= kept.push(merged@));
            } else {
                push_members(&mut names, &merged);
            }
        }
        k += 1;
    }
    (survivors, names)
}

} // verus!
