//! What inserting voters does to the lines.

use crate::links::{lemma_append, lemma_lines};
use crate::model::{all_joined, joined, line, Contents};
use crate::thresholds::notional_bag;
use frame_election_provider_support::VoteWeight;
use vstd::prelude::*;

verus! {

/// Inserting a new voter puts it at the end of the bag for its weight, whoever came first standing
/// first, and leaves all other bags as they are.
pub proof fn law_insert_joins_the_end<A>(
    c: Contents<A>,
    thresholds: Seq<VoteWeight>,
    id: A,
    weight: VoteWeight,
)
    requires
        c.linked(),
        !c.nodes.contains_key(id),
    ensures
        c.inserted(thresholds, id, weight).linked(),
        c.inserted(thresholds, id, weight).lines() == joined(
            c.lines(),
            notional_bag(thresholds, weight),
            id,
        ),
        c.inserted(thresholds, id, weight).nodes.dom() == c.nodes.dom().insert(id),
        c.counted() && c.counter < u32::MAX ==> c.inserted(thresholds, id, weight).counted(),
{
    let upper = notional_bag(thresholds, weight);
    let after = c.inserted(thresholds, id, weight);
    lemma_append(c.nodes, c.bags, c.lines(), c.bag_or_new(upper), id);
    lemma_lines(after, joined(c.lines(), upper, id));
    assert(line(c.lines(), upper).push(id).len() > 0);
}

/// Every insertion is counted, as far as the counter goes.
pub proof fn lemma_all_inserted_counter<A>(
    c: Contents<A>,
    thresholds: Seq<VoteWeight>,
    voters: Seq<A>,
    weights: Seq<VoteWeight>,
)
    ensures
        c.all_inserted(thresholds, voters, weights).counter == (if c.counter + voters.len()
            <= u32::MAX {
            c.counter + voters.len()
        } else {
            u32::MAX as int
        }),
    decreases voters.len(),
{
    if voters.len() > 0 {
        lemma_all_inserted_counter(c, thresholds, voters.drop_last(), weights.drop_last());
    }
}

/// Inserting several new voters, none of them twice, is inserting each at the end of the bag for its
/// weight, in turn.
pub proof fn law_insert_many_joins_in_turn<A>(
    c: Contents<A>,
    thresholds: Seq<VoteWeight>,
    voters: Seq<A>,
    weights: Seq<VoteWeight>,
)
    requires
        c.linked(),
        voters.no_duplicates(),
        voters.len() == weights.len(),
        forall|i: int| 0 <= i < voters.len() ==> !c.nodes.contains_key(#[trigger] voters[i]),
    ensures
        c.all_inserted(thresholds, voters, weights).linked(),
        c.all_inserted(thresholds, voters, weights).lines() == all_joined(
            c.lines(),
            thresholds,
            voters,
            weights,
        ),
        c.all_inserted(thresholds, voters, weights).nodes.dom() == c.nodes.dom().union(
            voters.to_set(),
        ),
        c.counted() && c.counter + voters.len() <= u32::MAX ==> c.all_inserted(
            thresholds,
            voters,
            weights,
        ).counted(),
    decreases voters.len(),
{
    let after = c.all_inserted(thresholds, voters, weights);
    if voters.len() == 0 {
        assert(c.nodes.dom().union(voters.to_set()) =~= c.nodes.dom());
    } else {
        let before = c.all_inserted(thresholds, voters.drop_last(), weights.drop_last());
        let last = voters.last();
        law_insert_many_joins_in_turn(
            c,
            thresholds,
            voters.drop_last(),
            weights.drop_last(),
        );
        assert(!before.nodes.contains_key(last)) by {
            assert(!c.nodes.contains_key(voters[voters.len() - 1]));
            if voters.drop_last().contains(last) {
                let i = choose|i: int|
                    0 <= i < voters.drop_last().len() && voters.drop_last()[i] == last;
                assert(voters[i] == voters[voters.len() - 1]);
            }
        }
        law_insert_joins_the_end(before, thresholds, last, weights.last());
        lemma_all_inserted_counter(c, thresholds, voters.drop_last(), weights.drop_last());
        assert(voters.to_set() =~= voters.drop_last().to_set().insert(last)) by {
            assert forall|id: A| #[trigger] voters.to_set().contains(id) implies
                voters.drop_last().to_set().insert(last).contains(id) by {
                let i = choose|i: int| 0 <= i < voters.len() && voters[i] == id;
                if i < voters.len() - 1 {
                    assert(voters.drop_last()[i] == id);
                }
            }
            assert forall|id: A| #[trigger] voters.drop_last().to_set().contains(id) implies
                voters.to_set().contains(id) by {
                let i = choose|i: int|
                    0 <= i < voters.drop_last().len() && voters.drop_last()[i] == id;
                assert(voters[i] == id);
            }
            assert(voters[voters.len() - 1] == last);
        }
        assert(after.nodes.dom() =~= c.nodes.dom().union(voters.to_set()));
    }
}

/// Who stands where after some joined: those who stood there, and those whose weight belongs there.
pub proof fn lemma_joined_members<A>(
    lines: Map<VoteWeight, Seq<A>>,
    thresholds: Seq<VoteWeight>,
    voters: Seq<A>,
    weights: Seq<VoteWeight>,
    upper: VoteWeight,
)
    requires
        weights.len() == voters.len(),
    ensures
        ({
            let before = line(lines, upper);
            let after = line(all_joined(lines, thresholds, voters, weights), upper);
            &&& before.is_prefix_of(after)
            &&& forall|id: A| #[trigger]
                after.contains(id) <==> before.contains(id) || exists|i: int|
                    0 <= i < voters.len() && #[trigger] voters[i] == id && notional_bag(
                        thresholds,
                        weights[i],
                    ) == upper
        }),
    decreases voters.len(),
{
    let before = line(lines, upper);
    let after = line(all_joined(lines, thresholds, voters, weights), upper);
    if voters.len() > 0 {
        let n = voters.len() - 1;
        let fewer = voters.drop_last();
        let middle = line(
            all_joined(lines, thresholds, fewer, weights.drop_last()),
            upper,
        );
        lemma_joined_members(lines, thresholds, fewer, weights.drop_last(), upper);
        let joins = notional_bag(thresholds, weights.last()) == upper;
        assert(after == if joins {
            middle.push(voters.last())
        } else {
            middle
        });
        assert forall|id: A| #[trigger] after.contains(id) <==> before.contains(id) || exists|i: int|
            0 <= i < voters.len() && #[trigger] voters[i] == id && notional_bag(
                thresholds,
                weights[i],
            ) == upper by {
            if after.contains(id) {
                let k = choose|k: int| 0 <= k < after.len() && after[k] == id;
                if k < middle.len() {
                    assert(middle[k] == id);
                    assert(middle.contains(id));
                    if !before.contains(id) {
                        let i = choose|i: int|
                            0 <= i < fewer.len() && #[trigger] fewer[i] == id && notional_bag(
                                thresholds,
                                weights.drop_last()[i],
                            ) == upper;
                        assert(voters[i] == id);
                    }
                } else {
                    assert(voters[n] == id);
                }
            }
            if before.contains(id) {
                assert(middle.contains(id));
            }
            if exists|i: int|
                0 <= i < voters.len() && #[trigger] voters[i] == id && notional_bag(
                    thresholds,
                    weights[i],
                ) == upper {
                let i = choose|i: int|
                    0 <= i < voters.len() && #[trigger] voters[i] == id && notional_bag(
                        thresholds,
                        weights[i],
                    ) == upper;
                if i < n {
                    assert(fewer[i] == id);
                    assert(weights.drop_last()[i] == weights[i]);
                    assert(middle.contains(id));
                } else {
                    assert(after[middle.len() as int] == id);
                }
            }
            if middle.contains(id) {
                let k = choose|k: int| 0 <= k < middle.len() && middle[k] == id;
                assert(after[k] == id);
            }
        }
    }
}

} // verus!
