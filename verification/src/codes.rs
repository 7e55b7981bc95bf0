//! Sequences of codes and counts as mathematical sequences.

use vstd::prelude::*;

verus! {

/// The numbers of `v` as natural numbers.
pub open spec fn as_nats(v: Seq<usize>) -> Seq<nat> {
    Seq::new(v.len(), |k: int| v[k] as nat)
}

/// The numbers of `v` as integers.
pub open spec fn as_ints(v: Seq<isize>) -> Seq<int> {
    Seq::new(v.len(), |k: int| v[k] as int)
}

/// The entries of `counts` that are not zero, in their order.
pub open spec fn non_zero(counts: Seq<nat>) -> Seq<nat>
    decreases counts.len(),
{
    if counts.len() == 0 {
        counts
    } else if counts.last() == 0 {
        non_zero(counts.drop_last())
    } else {
        non_zero(counts.drop_last()).push(counts.last())
    }
}

/// Appending one count appends it to the non-zero entries, unless it is zero.
pub proof fn lemma_non_zero_push(counts: Seq<nat>, n: nat)
    ensures
        non_zero(counts.push(n)) == if n == 0 {
            non_zero(counts)
        } else {
            non_zero(counts).push(n)
        },
{
    assert(counts.push(n).drop_last() =~= counts);
}

/// The non-zero entries are no more than the entries, none of them is
/// zero, and there is one exactly if some entry is not zero.
pub proof fn lemma_non_zero_shape(counts: Seq<nat>)
    ensures
        non_zero(counts).len() <= counts.len(),
        forall|k: int| 0 <= k < non_zero(counts).len() ==> #[trigger] non_zero(counts)[k] > 0,
        (exists|k: int| 0 <= k < counts.len() && #[trigger] counts[k] > 0) <==> non_zero(
            counts,
        ).len() > 0,
    decreases counts.len(),
{
    if counts.len() > 0 {
        let init = counts.drop_last();
        lemma_non_zero_shape(init);
        if non_zero(counts).len() > 0 && counts.last() == 0 {
            let k = choose|k: int| 0 <= k < init.len() && #[trigger] init[k] > 0;
            assert(counts[k] > 0);
        }
        if exists|k: int| 0 <= k < counts.len() && #[trigger] counts[k] > 0 {
            let k = choose|k: int| 0 <= k < counts.len() && #[trigger] counts[k] > 0;
            if k < init.len() {
                assert(init[k] > 0);
            }
        }
    }
}

} // verus!
