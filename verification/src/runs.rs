//! Runs and gaps in a sequence of indexes.

use vstd::prelude::*;

verus! {

/// Whether the index after position `i` is exactly one more than the index at
/// position `i`.
pub open spec fn follows_on(s: Seq<i32>, i: int) -> bool {
    s[i] + 1 == s[i + 1]
}

/// Whether the index after position `i` is more than one above the index at
/// position `i`, so that whole numbers lie between the two.
pub open spec fn gap_at(s: Seq<i32>, i: int) -> bool {
    s[i] + 1 < s[i + 1]
}

/// Whether the index after position `i` is above the index at position `i`.
pub open spec fn rises_at(s: Seq<i32>, i: int) -> bool {
    s[i] < s[i + 1]
}

/// Whether every index is one more than the index before it. A sequence of
/// fewer than two indexes is contiguous.
pub open spec fn contiguous(s: Seq<i32>) -> bool {
    forall|i: int| 0 <= i < s.len() - 1 ==> #[trigger] follows_on(s, i)
}

/// Whether every index is above the index before it.
pub open spec fn ascending(s: Seq<i32>) -> bool {
    forall|i: int| 0 <= i < s.len() - 1 ==> #[trigger] rises_at(s, i)
}

/// Whether some index is more than one above the index before it.
pub open spec fn gapped(s: Seq<i32>) -> bool {
    exists|i: int| 0 <= i < s.len() - 1 && #[trigger] gap_at(s, i)
}

/// The whole numbers strictly between `low` and `high`, ascending; none where
/// `high` is not above `low + 1`.
pub open spec fn between(low: i32, high: i32) -> Seq<i32> {
    Seq::new(
        if high - low > 1 {
            (high - low - 1) as nat
        } else {
            0
        },
        |k: int| (low + 1 + k) as i32,
    )
}

/// The holes of `s`: for each index and the one after it, in turn, the whole
/// numbers strictly between the two.
pub open spec fn holes_of(s: Seq<i32>) -> Seq<i32>
    decreases s.len(),
{
    if s.len() < 2 {
        Seq::empty()
    } else {
        holes_of(s.drop_last()) + between(s[s.len() - 2], s.last())
    }
}

/// The runs of `s`: `s` cut before each index that is not one more than the
/// index before it. The empty sequence has one run, the empty one.
pub open spec fn runs_of(s: Seq<i32>) -> Seq<Seq<i32>>
    decreases s.len(),
{
    if s.len() < 2 {
        seq![s]
    } else {
        let earlier = runs_of(s.drop_last());
        if follows_on(s, s.len() - 2) {
            earlier.drop_last().push(earlier.last().push(s.last()))
        } else {
            earlier.push(seq![s.last()])
        }
    }
}

/// What `runs_of` yields for a sequence with one more index at its end.
pub(crate) proof fn lemma_runs_step(s: Seq<i32>, next: i32)
    requires
        s.len() > 0,
    ensures
        runs_of(s).len() > 0,
        runs_of(s.push(next)) == if s.last() + 1 == next {
            runs_of(s).drop_last().push(runs_of(s).last().push(next))
        } else {
            runs_of(s).push(seq![next])
        },
{
    lemma_runs_shape(s);
    assert(s.push(next).drop_last() =~= s);
}

/// There is at least one run, no run of a sequence that has indexes is empty,
/// and the last run ends with the last index.
proof fn lemma_runs_shape(s: Seq<i32>)
    ensures
        runs_of(s).len() > 0,
        s.len() > 0 ==> forall|k: int| 0 <= k < runs_of(s).len() ==> (#[trigger] runs_of(s)[k]).len() > 0,
        s.len() > 0 ==> runs_of(s).last().last() == s.last(),
    decreases s.len(),
{
    if s.len() >= 2 {
        lemma_runs_shape(s.drop_last());
    }
}

/// The runs of a sequence, put end to end in their order, are the sequence.
pub proof fn lemma_runs_join(s: Seq<i32>)
    ensures
        runs_of(s).flatten() == s,
    decreases s.len(),
{
    if s.len() < 2 {
        seq![s].lemma_flatten_one_element();
    } else {
        let earlier = runs_of(s.drop_last());
        lemma_runs_shape(s.drop_last());
        lemma_runs_join(s.drop_last());
        assert(s =~= s.drop_last().push(s.last()));
        if follows_on(s, s.len() - 2) {
            let front = earlier.drop_last();
            assert(earlier =~= front.push(earlier.last()));
            front.lemma_flatten_push(earlier.last());
            front.lemma_flatten_push(earlier.last().push(s.last()));
            assert(front.flatten() + earlier.last() == s.drop_last());
            assert(runs_of(s).flatten() =~= (front.flatten() + earlier.last()).push(s.last()));
        } else {
            earlier.lemma_flatten_push(seq![s.last()]);
            assert(runs_of(s).flatten() =~= s);
        }
    }
}

/// Every run is contiguous.
pub proof fn lemma_runs_contiguous(s: Seq<i32>)
    ensures
        forall|k: int| 0 <= k < runs_of(s).len() ==> contiguous(#[trigger] runs_of(s)[k]),
    decreases s.len(),
{
    if s.len() >= 2 {
        let earlier = runs_of(s.drop_last());
        lemma_runs_shape(s.drop_last());
        lemma_runs_contiguous(s.drop_last());
        if follows_on(s, s.len() - 2) {
            let grown = earlier.last().push(s.last());
            assert(contiguous(grown)) by {
                assert(contiguous(earlier.last()));
                assert forall|i: int| 0 <= i < grown.len() - 1 implies #[trigger] follows_on(
                    grown,
                    i,
                ) by {
                    if i < grown.len() - 2 {
                        assert(follows_on(earlier.last(), i));
                    }
                }
            }
        }
    }
}

/// No run can take in the run after it: where one run ends and the next
/// begins, the index does not rise by exactly one.
pub proof fn lemma_runs_maximal(s: Seq<i32>)
    ensures
        forall|k: int|
            0 <= k < runs_of(s).len() - 1 ==> (#[trigger] runs_of(s)[k]).last() + 1 != runs_of(
                s,
            )[k + 1][0],
    decreases s.len(),
{
    if s.len() >= 2 {
        lemma_runs_shape(s.drop_last());
        lemma_runs_maximal(s.drop_last());
    }
}

/// Separating a sequence into its runs loses nothing and every run is
/// contiguous: the runs, put end to end, are the sequence again.
pub proof fn lemma_separate_rejoins(s: Seq<i32>)
    ensures
        runs_of(s).flatten() == s,
        forall|k: int| 0 <= k < runs_of(s).len() ==> contiguous(#[trigger] runs_of(s)[k]),
{
    lemma_runs_join(s);
    lemma_runs_contiguous(s);
}

/// A sequence has no holes exactly when no index is more than one above the
/// index before it.
pub proof fn lemma_no_holes_iff_no_gap(s: Seq<i32>)
    ensures
        holes_of(s).len() == 0 <==> !gapped(s),
    decreases s.len(),
{
    if s.len() >= 2 {
        let front = s.drop_last();
        lemma_no_holes_iff_no_gap(front);
        let last = s.len() - 2;
        if gapped(front) {
            let i = choose|i: int| 0 <= i < front.len() - 1 && #[trigger] gap_at(front, i);
            assert(gap_at(s, i));
        } else if gap_at(s, last) {
        } else {
            assert forall|i: int| 0 <= i < s.len() - 1 implies !#[trigger] gap_at(s, i) by {
                if i < last {
                    assert(!gap_at(front, i));
                }
            }
        }
    }
}

/// For a sequence that ascends, or that has a gap somewhere, being contiguous
/// and having no holes are the same thing.
pub proof fn lemma_contiguous_iff_no_holes(s: Seq<i32>)
    requires
        ascending(s) || gapped(s),
    ensures
        contiguous(s) <==> holes_of(s).len() == 0,
{
    lemma_no_holes_iff_no_gap(s);
    if gapped(s) {
        let i = choose|i: int| 0 <= i < s.len() - 1 && #[trigger] gap_at(s, i);
        assert(!follows_on(s, i));
    } else {
        assert forall|i: int| 0 <= i < s.len() - 1 implies #[trigger] follows_on(s, i) by {
            assert(rises_at(s, i));
            assert(!gap_at(s, i));
        }
    }
}

} // verus!
