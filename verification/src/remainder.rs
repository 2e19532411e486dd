//! The remainder: the names that no collection stands for.

use crate::collection::{entities, Collection, Entity};
use crate::text::texts;
use vstd::prelude::*;
use vstd::string::*;

verus! {

/// Whether `name` is the name of a member of one of the collections.
pub open spec fn represented(survivors: Seq<Entity>, name: Seq<char>) -> bool {
    exists|k: int| 0 <= k < survivors.len() && (#[trigger] survivors[k]).has_member(name)
}

/// The remainder after the candidates were gone through in their order: a
/// candidate goes behind the names that are there, unless it is there
/// already or is the name of a member of one of the collections.
pub open spec fn reconciled(
    remainder: Seq<Seq<char>>,
    candidates: Seq<Seq<char>>,
    survivors: Seq<Entity>,
) -> Seq<Seq<char>>
    decreases candidates.len(),
{
    if candidates.len() == 0 {
        remainder
    } else {
        let earlier = reconciled(remainder, candidates.drop_last(), survivors);
        let name = candidates.last();
        if earlier.contains(name) || represented(survivors, name) {
            earlier
        } else {
            earlier.push(name)
        }
    }
}

/// Going through candidates brings no name in twice.
pub proof fn lemma_reconciled_no_duplicates(
    remainder: Seq<Seq<char>>,
    candidates: Seq<Seq<char>>,
    survivors: Seq<Entity>,
)
    requires
        remainder.no_duplicates(),
    ensures
        reconciled(remainder, candidates, survivors).no_duplicates(),
    decreases candidates.len(),
{
    if candidates.len() > 0 {
        lemma_reconciled_no_duplicates(remainder, candidates.drop_last(), survivors);
        let earlier = reconciled(remainder, candidates.drop_last(), survivors);
        if !earlier.contains(candidates.last()) {
            lemma_push_new(earlier, candidates.last());
        }
    }
}

/// Every name of the remainder was there before the candidates were gone
/// through, or is a candidate that no collection stands for.
pub proof fn lemma_reconciled_names(
    remainder: Seq<Seq<char>>,
    candidates: Seq<Seq<char>>,
    survivors: Seq<Entity>,
    name: Seq<char>,
)
    requires
        reconciled(remainder, candidates, survivors).contains(name),
    ensures
        remainder.contains(name) || (candidates.contains(name) && !represented(survivors, name)),
    decreases candidates.len(),
{
    if candidates.len() > 0 {
        let earlier = reconciled(remainder, candidates.drop_last(), survivors);
        if earlier.contains(name) {
            lemma_reconciled_names(remainder, candidates.drop_last(), survivors, name);
            if candidates.drop_last().contains(name) {
                let i = choose|i: int|
                    0 <= i < candidates.drop_last().len() && candidates.drop_last()[i] == name;
                assert(candidates[i] == name);
            }
        } else {
            let all = reconciled(remainder, candidates, survivors);
            let i = choose|i: int| 0 <= i < all.len() && all[i] == name;
            assert(all == earlier.push(candidates.last()));
            if i < earlier.len() {
                assert(earlier[i] == name);
            }
            assert(candidates[candidates.len() - 1] == name);
        }
    }
}

/// A list without duplicates has none after a name that it did not hold
/// went behind it.
pub(crate) proof fn lemma_push_new(names: Seq<Seq<char>>, name: Seq<char>)
    requires
        names.no_duplicates(),
        !names.contains(name),
    ensures
        names.push(name).no_duplicates(),
{
    let after = names.push(name);
    assert forall|i: int, j: int| 0 <= i < after.len() && 0 <= j < after.len() && i != j implies after[i]
        != after[j] by {
        if i < names.len() && j < names.len() {
            assert(names[i] != names[j]);
        } else if i < names.len() {
            assert(names.contains(names[i]));
        } else {
            assert(names.contains(names[j]));
        }
    }
}

/// Whether `name` is among `names`.
pub fn holds_name(names: &Vec<String>, name: &String) -> (held: bool)
    ensures
        held == texts(names@).contains(name@),
{
    let mut i: usize = 0;
    while i < names.len()
        invariant
            i <= names.len(),
            forall|j: int| 0 <= j < i ==> texts(names@)[j] != name@,
        decreases names.len() - i,
    {
        if names[i] == *name {
            assert(texts(names@)[i as int] == name@);
            return true;
        }
        i += 1;
    }
    false
}

/// Whether `name` is the name of a member of one of the collections.
pub fn is_represented(survivors: &Vec<Collection>, name: &String) -> (found: bool)
    ensures
        found == represented(entities(survivors@), name@),
{
    let mut k: usize = 0;
    while k < survivors.len()
        invariant
            k <= survivors.len(),
            forall|j: int| 0 <= j < k ==> !(#[trigger] entities(survivors@)[j]).has_member(name@),
        decreases survivors.len() - k,
    {
        if survivors[k].contains(name) {
            assert(entities(survivors@)[k as int].has_member(name@));
            return true;
        }
        k += 1;
    }
    false
}

/// Goes through the candidates in their order and puts behind `remainder`
/// each that is not there yet and that none of the collections stands for.
pub fn reconcile(remainder: Vec<String>, candidates: &Vec<String>, survivors: &Vec<Collection>) -> (all:
    Vec<String>)
    ensures
        texts(all@) == reconciled(texts(remainder@), texts(candidates@), entities(survivors@)),
{
    let mut all = remainder;
    let ghost start = texts(remainder@);
    let ghost names = texts(candidates@);
    assert(names.take(0) =~= Seq::<Seq<char>>::empty());
    let mut i: usize = 0;
    while i < candidates.len()
        invariant
            i <= candidates.len(),
            names == texts(candidates@),
            texts(all@) == reconciled(start, names.take(i as int), entities(survivors@)),
        decreases candidates.len() - i,
    {
        let candidate = &candidates[i];
        proof {
            assert(names.take(i + 1).drop_last() =~= names.take(i as int));
            assert(names.take(i + 1).last() == candidate@);
        }
        if !holds_name(&all, candidate) && !is_represented(survivors, candidate) {
            let ghost earlier = all@;
            all.push(candidate.clone());
            assert(texts(all@) =~= texts(earlier).push(candidate@));
        }
        i += 1;
    }
    assert(names.take(i as int) =~= names);
    all
}

} // verus!
