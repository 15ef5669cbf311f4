//! Inserting, removing and moving a voter looks at a few entries of the list, however long it is.

use crate::model::{excised, nodes_appended, stored, Contents};
use crate::node::Node;
use crate::thresholds::notional_bag;
use frame_election_provider_support::VoteWeight;
use vstd::prelude::*;

verus! {

/// `part` holds some of the nodes and bags of `c`, and its counter.
pub open spec fn part_of<A>(part: Contents<A>, c: Contents<A>) -> bool {
    &&& forall|id: A| #[trigger]
        part.nodes.contains_key(id) ==> c.nodes.contains_key(id) && part.nodes[id] == c.nodes[id]
    &&& forall|upper: VoteWeight| #[trigger]
        part.bags.contains_key(upper) ==> c.bags.contains_key(upper) && part.bags[upper]
            == c.bags[upper]
    &&& part.counter == c.counter
}

/// `part` holds the node of `c` that `link` leads to, if there is one.
pub open spec fn node_held<A>(part: Contents<A>, c: Contents<A>, link: Option<A>) -> bool {
    stored(c.nodes, link) is Some ==> stored(part.nodes, link) is Some
}

/// `part` holds the bag `upper` of `c`, if there is one.
pub open spec fn bag_held<A>(part: Contents<A>, c: Contents<A>, upper: VoteWeight) -> bool {
    c.bags.contains_key(upper) ==> part.bags.contains_key(upper)
}

/// `c` once what it shares with `part` gave way to `after`.
pub open spec fn exchanged<A>(
    c: Contents<A>,
    part: Contents<A>,
    after: Contents<A>,
) -> Contents<A> {
    Contents {
        nodes: c.nodes.remove_keys(part.nodes.dom()).union_prefer_right(after.nodes),
        bags: c.bags.remove_keys(part.bags.dom()).union_prefer_right(after.bags),
        counter: after.counter,
    }
}

/// Making the neighbours of a node point at each other looks at those neighbours alone.
proof fn lemma_excise_is_local<A>(part: Contents<A>, c: Contents<A>, node: Node<A>)
    requires
        part_of(part, c),
        node_held(part, c, node.prev),
        node_held(part, c, node.next),
    ensures
        excised(c.nodes, node) == c.nodes.remove_keys(part.nodes.dom()).union_prefer_right(
            excised(part.nodes, node),
        ),
        forall|id: A| #[trigger]
            excised(part.nodes, node).contains_key(id) ==> excised(c.nodes, node).contains_key(id)
                && excised(part.nodes, node)[id] == excised(c.nodes, node)[id],
{
    assert(excised(c.nodes, node) =~= c.nodes.remove_keys(
        part.nodes.dom(),
    ).union_prefer_right(excised(part.nodes, node)));
}

/// Inserting a voter looks at the bag for its weight and at the tail of that bag alone.
pub proof fn law_insert_is_local<A>(
    part: Contents<A>,
    c: Contents<A>,
    thresholds: Seq<VoteWeight>,
    id: A,
    weight: VoteWeight,
)
    requires
        part_of(part, c),
        bag_held(part, c, notional_bag(thresholds, weight)),
        node_held(part, c, c.bag_or_new(notional_bag(thresholds, weight)).tail),
    ensures
        c.inserted(thresholds, id, weight) == exchanged(
            c,
            part,
            part.inserted(thresholds, id, weight),
        ),
{
    let upper = notional_bag(thresholds, weight);
    let bag = c.bag_or_new(upper);
    let whole = c.inserted(thresholds, id, weight);
    let pieced = exchanged(c, part, part.inserted(thresholds, id, weight));
    assert(part.bag_or_new(upper) == bag);
    assert(nodes_appended(c.nodes, bag, id) =~= c.nodes.remove_keys(
        part.nodes.dom(),
    ).union_prefer_right(nodes_appended(part.nodes, bag, id)));
    assert(whole.nodes =~= pieced.nodes);
    assert(whole.bags =~= pieced.bags);
}

/// Removing a voter looks at its node, the neighbours of its node and its bag alone.
pub proof fn law_remove_is_local<A>(part: Contents<A>, c: Contents<A>, id: A)
    requires
        part_of(part, c),
        node_held(part, c, Some(id)),
        c.nodes.contains_key(id) ==> {
            &&& node_held(part, c, c.nodes[id].prev)
            &&& node_held(part, c, c.nodes[id].next)
            &&& bag_held(part, c, c.nodes[id].bag_upper)
        },
    ensures
        c.all_removed(seq![id]) == exchanged(c, part, part.all_removed(seq![id])),
{
    let whole = c.all_removed(seq![id]);
    let pieced = exchanged(c, part, part.all_removed(seq![id]));
    assert(seq![id].drop_last() =~= Seq::empty());
    assert(seq![id].last() == id);
    reveal_with_fuel(Contents::removal, 2);
    if c.nodes.contains_key(id) {
        assert(part.nodes.contains_key(id));
        let node = c.nodes[id];
        lemma_excise_is_local(part, c, node);
        assert(part.bag_or_new(node.bag_upper) == c.bag_or_new(node.bag_upper));
        assert(c.removal(seq![id]).bags =~= part.removal(seq![id]).bags);
    }
    assert(whole.nodes =~= pieced.nodes);
    assert(whole.bags =~= pieced.bags);
}

/// Moving a voter into another bag looks at the neighbours of its node, its bag, the bag for its
/// weight and the tail of that bag alone.
pub proof fn law_move_is_local<A>(
    part: Contents<A>,
    c: Contents<A>,
    thresholds: Seq<VoteWeight>,
    node: Node<A>,
    weight: VoteWeight,
)
    requires
        part_of(part, c),
        notional_bag(thresholds, weight) != node.bag_upper,
        node_held(part, c, node.prev),
        node_held(part, c, node.next),
        bag_held(part, c, node.bag_upper),
        bag_held(part, c, notional_bag(thresholds, weight)),
        node_held(part, c, c.bag_or_new(notional_bag(thresholds, weight)).tail),
    ensures
        c.moved(thresholds, node, weight) == exchanged(
            c,
            part,
            part.moved(thresholds, node, weight),
        ),
{
    let upper = notional_bag(thresholds, weight);
    let rest = c.detached(node);
    let small = part.detached(node);
    lemma_excise_is_local(part, c, node);
    assert(part.bag_or_new(node.bag_upper) == c.bag_or_new(node.bag_upper));
    assert(part_of(small, rest));
    assert(rest.bag_or_new(upper) == c.bag_or_new(upper));
    law_insert_is_local(small, rest, thresholds, node.id, weight);
    let whole = c.moved(thresholds, node, weight);
    let pieced = exchanged(c, part, part.moved(thresholds, node, weight));
    assert(whole.nodes =~= pieced.nodes);
    assert(whole.bags =~= pieced.bags);
}

} // verus!
