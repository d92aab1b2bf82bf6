use vstd::prelude::*;

verus! {

/// The draw for step `step`: the entry of `draws` at that place, and zero where `draws`
/// has none.
pub open spec fn draw_at(draws: Seq<u64>, step: int) -> u64 {
    if 0 <= step < draws.len() {
        draws[step]
    } else {
        0
    }
}

/// The place with which step `step` exchanges place `step`, among `count` places: one
/// of the places from `step` on, picked by the draw for that step.
pub open spec fn partner(count: nat, draws: Seq<u64>, step: int) -> int {
    step + draw_at(draws, step) as int % (count - step)
}

/// The order of `count` indices after the first `steps` exchanges. It begins as
/// `0, 1, 2, ..`; step `k` exchanges the index at place `k` with the index at the
/// place that the draw for `k` picks.
pub open spec fn exchanged(count: nat, draws: Seq<u64>, steps: nat) -> Seq<usize>
    decreases steps,
{
    if steps == 0 {
        Seq::new(count, |i: int| i as usize)
    } else {
        let before = exchanged(count, draws, (steps - 1) as nat);
        let here = steps - 1;
        let there = partner(count, draws, here);
        before.update(here, before[there]).update(there, before[here])
    }
}

/// `order` holds each of the indices below `count` exactly once.
pub open spec fn is_permutation(order: Seq<usize>, count: nat) -> bool {
    &&& order.len() == count
    &&& forall|i: int| 0 <= i < order.len() ==> #[trigger] order[i] < count
    &&& forall|i: int, j: int|
        0 <= i < j < order.len() ==> #[trigger] order[i] != #[trigger] order[j]
}

/// Exchanges keep a permutation a permutation, whatever the draws are.
pub proof fn lemma_exchanged_is_permutation(count: nat, draws: Seq<u64>, steps: nat)
    requires
        steps <= count <= usize::MAX,
    ensures
        is_permutation(exchanged(count, draws, steps), count),
    decreases steps,
{
    if steps > 0 {
        lemma_exchanged_is_permutation(count, draws, (steps - 1) as nat);
        let before = exchanged(count, draws, (steps - 1) as nat);
        let here = steps - 1;
        let there = partner(count, draws, here);
        let after = exchanged(count, draws, steps);
        assert(here <= there < count);
        assert forall|i: int, j: int| 0 <= i < j < after.len() implies #[trigger] after[i]
            != #[trigger] after[j] by {
            let from_i = if i == here {
                there
            } else if i == there {
                here
            } else {
                i
            };
            let from_j = if j == here {
                there
            } else if j == there {
                here
            } else {
                j
            };
            assert(after[i] == before[from_i]);
            assert(after[j] == before[from_j]);
            if from_i < from_j {
                assert(before[from_i] != before[from_j]);
            } else {
                assert(before[from_j] != before[from_i]);
            }
        }
    }
}

/// An order in which to hand out `count` lines: the indices below `count`, each once,
/// exchanged step by step as `draws` says. Draws that are missing count as zero, and
/// draws beyond the first `count` are not looked at.
pub fn shuffled_order(count: usize, draws: &Vec<u64>) -> (order: Vec<usize>)
    ensures
        order@ == exchanged(count as nat, draws@, count as nat),
        is_permutation(order@, count as nat),
{
    let mut order: Vec<usize> = Vec::new();
    let mut i: usize = 0;
    while i < count
        invariant
            i <= count,
            order@ == Seq::new(i as nat, |k: int| k as usize),
        decreases count - i,
    {
        order.push(i);
        i = i + 1;
        assert(order@ =~= Seq::new(i as nat, |k: int| k as usize));
    }
    let mut step: usize = 0;
    while step < count
        invariant
            step <= count,
            order@ == exchanged(count as nat, draws@, step as nat),
            order.len() == count,
        decreases count - step,
    {
        let draw: u64 = if step < draws.len() {
            draws[step]
        } else {
            0
        };
        let span: u64 = (count - step) as u64;
        let there: usize = step + (draw % span) as usize;
        let first: usize = order[step];
        let second: usize = order[there];
        order.set(step, second);
        order.set(there, first);
        step = step + 1;
    }
    proof {
        lemma_exchanged_is_permutation(count as nat, draws@, count as nat);
    }
    order
}

} // verus!
