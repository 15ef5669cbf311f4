//! What each operation does to the single entries of a list, whatever state the list is in.

use crate::bag::Bag;
use crate::following::{bag_at, leads};
use crate::joining::lemma_all_inserted_counter;
use crate::leaving::lemma_staying;
use crate::model::{
    all_left, bag_appended, bag_put, bag_unlinked, excised, first_n, joined, line, nodes_appended,
    nothing, settled, staying, stored, Contents,
};
use crate::node::Node;
use crate::thresholds::{is_bag, notional_bag, sorted};
use frame_election_provider_support::VoteWeight;
use vstd::prelude::*;

verus! {

/// A link finds the node that is kept under the id it names, and nothing else.
pub proof fn law_links_find_nodes<A>(nodes: Map<A, Node<A>>, link: Option<A>)
    ensures
        stored(nodes, link) is Some <==> leads(nodes, link),
        leads(nodes, link) ==> stored(nodes, link) == Some(nodes[link->0]),
{
}

/// A bag is found by its threshold with the ends that it was stored with; where none is stored it is
/// empty.
pub proof fn law_bags_are_found<A>(c: Contents<A>, upper: VoteWeight)
    ensures
        c.bag_or_new(upper) == bag_at(c, upper),
{
}

/// Putting a bag back keeps it by its threshold, unless it is empty, and touches no other bag.
pub proof fn law_put_keeps_bags_with_voters<A>(
    bags: Map<VoteWeight, Bag<A>>,
    bag: Bag<A>,
    upper: VoteWeight,
)
    ensures
        bag_put(bags, bag).contains_key(bag.bag_upper) <==> bag.head is Some || bag.tail is Some,
        bag.head is Some || bag.tail is Some ==> bag_put(bags, bag)[bag.bag_upper] == bag,
        upper != bag.bag_upper ==> bag_put(bags, bag).contains_key(upper) == bags.contains_key(
            upper,
        ),
        upper != bag.bag_upper && bags.contains_key(upper) ==> bag_put(bags, bag)[upper]
            == bags[upper],
{
}

/// Whoever is put into a bag is its tail, and its head only if it had none.
pub proof fn law_appending_sets_the_tail<A>(bag: Bag<A>, id: A)
    ensures
        bag_appended(bag, id).tail == Some(id),
        bag.head is Some ==> bag_appended(bag, id).head == bag.head,
        bag.head is None ==> bag_appended(bag, id).head == Some(id),
        bag_appended(bag, id).bag_upper == bag.bag_upper,
{
}

/// When a node leaves a bag, an end that named it names its neighbour, and an end that did not stays.
pub proof fn law_unlinking_moves_the_ends<A>(bag: Bag<A>, node: Node<A>)
    ensures
        bag.head == Some(node.id) ==> bag_unlinked(bag, node).head == node.next,
        bag.head != Some(node.id) ==> bag_unlinked(bag, node).head == bag.head,
        bag.tail == Some(node.id) ==> bag_unlinked(bag, node).tail == node.prev,
        bag.tail != Some(node.id) ==> bag_unlinked(bag, node).tail == bag.tail,
        bag_unlinked(bag, node).bag_upper == bag.bag_upper,
{
}

/// Excising a node whose neighbours are kept under their own ids makes them point at each other: the
/// one before leads to the one behind, the one behind leads back to the one before, and nothing else
/// changes.
pub proof fn law_excising_joins_the_neighbours<A>(nodes: Map<A, Node<A>>, node: Node<A>, id: A)
    requires
        leads(nodes, node.prev) ==> nodes[node.prev->0].id == node.prev->0,
        leads(nodes, node.next) ==> nodes[node.next->0].id == node.next->0,
    ensures
        excised(nodes, node).contains_key(id) <==> nodes.contains_key(id),
        nodes.contains_key(id) ==> {
            let after = excised(nodes, node)[id];
            &&& after.id == nodes[id].id
            &&& after.bag_upper == nodes[id].bag_upper
            &&& after.next == (if node.prev == Some(id) {
                node.next
            } else {
                nodes[id].next
            })
            &&& after.prev == (if node.next == Some(id) {
                node.prev
            } else {
                nodes[id].prev
            })
        },
{
}

/// Excising a node writes to its neighbours alone, each under the id that it names as its own.
pub proof fn law_excising_touches_the_neighbours_alone<A>(nodes: Map<A, Node<A>>, node: Node<A>)
    ensures
        ({
            let after = excised(nodes, node);
            let prev = nodes[node.prev->0];
            let next = nodes[node.next->0];
            let first = nodes.insert(prev.id, Node { next: node.next, ..prev });
            &&& !leads(nodes, node.prev) && !leads(nodes, node.next) ==> after == nodes
            &&& !leads(nodes, node.prev) && leads(nodes, node.next) ==> after == nodes.insert(
                next.id,
                Node { prev: node.prev, ..next },
            )
            &&& leads(nodes, node.prev) && node.next == Some(prev.id) ==> after == nodes.insert(
                prev.id,
                Node { prev: node.prev, next: node.next, ..prev },
            )
            &&& leads(nodes, node.prev) && node.next != Some(prev.id) && leads(nodes, node.next)
                ==> after == first.insert(next.id, Node { prev: node.prev, ..next })
            &&& leads(nodes, node.prev) && node.next != Some(prev.id) && !leads(nodes, node.next)
                ==> after == first
        }),
{
    let prev = nodes[node.prev->0];
    if leads(nodes, node.prev) && node.next == Some(prev.id) {
        assert(excised(nodes, node) =~= nodes.insert(
            prev.id,
            Node { prev: node.prev, next: node.next, ..prev },
        ));
    }
}

/// Linking `id` behind a tail that is kept under its own id: the new node has that tail before it and
/// nobody behind it, the old tail leads to it, and no other node changes.
pub proof fn law_appending_links_behind_the_tail<A>(
    nodes: Map<A, Node<A>>,
    bag: Bag<A>,
    id: A,
    other: A,
)
    requires
        bag.tail != Some(id),
        leads(nodes, bag.tail) ==> nodes[bag.tail->0].id == bag.tail->0,
    ensures
        nodes_appended(nodes, bag, id).contains_key(id),
        nodes_appended(nodes, bag, id)[id] == (Node {
            id,
            prev: bag.tail,
            next: None,
            bag_upper: bag.bag_upper,
        }),
        other != id ==> nodes_appended(nodes, bag, id).contains_key(other) == nodes.contains_key(
            other,
        ),
        other != id && nodes.contains_key(other) ==> nodes_appended(nodes, bag, id)[other] == (
        Node {
            id: nodes[other].id,
            prev: nodes[other].prev,
            next: if bag.tail == Some(other) {
                Some(id)
            } else {
                nodes[other].next
            },
            bag_upper: nodes[other].bag_upper,
        }),
{
}

/// Linking `id` behind a tail writes the new node and then the tail, under the id that the tail names
/// as its own.
pub proof fn law_appending_touches_two_nodes<A>(nodes: Map<A, Node<A>>, bag: Bag<A>, id: A)
    requires
        bag.tail != Some(id),
    ensures
        ({
            let new = Node { id, prev: bag.tail, next: None, bag_upper: bag.bag_upper };
            &&& leads(nodes, bag.tail) ==> nodes_appended(nodes, bag, id) == nodes.insert(
                id,
                new,
            ).insert(
                nodes[bag.tail->0].id,
                Node { next: Some(id), ..nodes[bag.tail->0] },
            )
            &&& !leads(nodes, bag.tail) ==> nodes_appended(nodes, bag, id) == nodes.insert(id, new)
        }),
{
}

/// Inserting a voter changes the bag for its weight alone, makes the voter its tail and its head if it
/// had none, links it behind the old tail unless it is that tail already, and counts one more as far
/// as the counter goes.
pub proof fn law_insert_changes_one_bag<A>(
    c: Contents<A>,
    thresholds: Seq<VoteWeight>,
    id: A,
    weight: VoteWeight,
    other: VoteWeight,
)
    ensures
        ({
            let upper = notional_bag(thresholds, weight);
            let bag = bag_at(c, upper);
            let after = c.inserted(thresholds, id, weight);
            &&& after.bags.contains_key(upper)
            &&& after.bags[upper].bag_upper == upper
            &&& after.bags[upper].tail == Some(id)
            &&& after.bags[upper].head == (if bag.head is None && bag.tail != Some(id) {
                Some(id)
            } else {
                bag.head
            })
            &&& other != upper ==> after.bags.contains_key(other) == c.bags.contains_key(other)
            &&& other != upper && c.bags.contains_key(other) ==> after.bags[other] == c.bags[other]
            &&& bag.tail == Some(id) ==> after.nodes == c.nodes
            &&& bag.tail != Some(id) ==> after.nodes == nodes_appended(c.nodes, bag, id)
            &&& after.counter == (if c.counter == u32::MAX {
                u32::MAX as int
            } else {
                c.counter + 1
            })
        }),
{
}

/// Inserting nobody changes nothing, and inserting one more is one more insertion; each is counted as
/// far as the counter goes.
pub proof fn law_insertions_come_one_by_one<A>(
    c: Contents<A>,
    thresholds: Seq<VoteWeight>,
    voters: Seq<A>,
    weights: Seq<VoteWeight>,
    id: A,
    weight: VoteWeight,
)
    requires
        voters.len() == weights.len(),
    ensures
        c.all_inserted(thresholds, Seq::empty(), Seq::empty()) == c,
        c.all_inserted(thresholds, voters.push(id), weights.push(weight)) == c.all_inserted(
            thresholds,
            voters,
            weights,
        ).inserted(thresholds, id, weight),
        c.all_inserted(thresholds, voters, weights).counter == (if c.counter + voters.len()
            <= u32::MAX {
            c.counter + voters.len()
        } else {
            u32::MAX as int
        }),
{
    assert(voters.push(id).drop_last() =~= voters);
    assert(weights.push(weight).drop_last() =~= weights);
    lemma_all_inserted_counter(c, thresholds, voters, weights);
}

/// A list without voters has no node and no bag, and counts nobody.
pub proof fn law_nothing_is_empty<A>(id: A, upper: VoteWeight)
    ensures
        !nothing::<A>().nodes.contains_key(id),
        !nothing::<A>().bags.contains_key(upper),
        nothing::<A>().counter == 0,
{
}

/// Removing nobody changes nothing; removing somebody who has no node changes nothing either.
pub proof fn law_removing_nobody_changes_nothing<A>(c: Contents<A>, id: A)
    ensures
        c.all_removed(Seq::empty()) == c,
        !c.nodes.contains_key(id) ==> c.all_removed(seq![id]) == c,
{
    assert(settled(c.bags, Map::empty(), Set::empty()) =~= c.bags);
    assert(seq![id].drop_last() =~= Seq::empty());
    assert(seq![id].last() == id);
    reveal_with_fuel(Contents::removal, 2);
}

/// Removing somebody excises its node and takes it away, counts one less as far as the counter goes,
/// and changes at most the bag that the node names: where the node lacks a neighbour, an end of that
/// bag that named it names its neighbour now, and a bag without ends is kept no more.
pub proof fn law_remove_changes_one_bag<A>(c: Contents<A>, id: A, other: VoteWeight)
    requires
        c.nodes.contains_key(id),
    ensures
        ({
            let node = c.nodes[id];
            let after = c.all_removed(seq![id]);
            let bag = bag_at(c, node.bag_upper);
            let head = if bag.head == Some(node.id) {
                node.next
            } else {
                bag.head
            };
            let tail = if bag.tail == Some(node.id) {
                node.prev
            } else {
                bag.tail
            };
            &&& after.nodes == excised(c.nodes, node).remove(id)
            &&& after.counter == (if c.counter == 0 {
                0
            } else {
                c.counter - 1
            })
            &&& node.prev is Some && node.next is Some ==> after.bags == c.bags
            &&& node.prev is None || node.next is None ==> {
                &&& after.bags.contains_key(node.bag_upper) <==> head is Some || tail is Some
                &&& head is Some || tail is Some ==> after.bags[node.bag_upper] == (Bag {
                    head,
                    tail,
                    bag_upper: node.bag_upper,
                })
                &&& other != node.bag_upper ==> after.bags.contains_key(other)
                    == c.bags.contains_key(other)
                &&& other != node.bag_upper && c.bags.contains_key(other) ==> after.bags[other]
                    == c.bags[other]
            }
        }),
{
    assert(seq![id].drop_last() =~= Seq::empty());
    assert(seq![id].last() == id);
    reveal_with_fuel(Contents::removal, 2);
    let node = c.nodes[id];
    let after = c.all_removed(seq![id]);
    if node.prev is Some && node.next is Some {
        assert(after.bags =~= c.bags);
    }
}

/// Removing one more: its node goes as if it were removed alone from the nodes that are left, and it
/// is counted if it has one.
pub proof fn law_removals_come_one_by_one<A>(c: Contents<A>, voters: Seq<A>, id: A)
    ensures
        ({
            let so_far = c.removal(voters);
            let more = c.removal(voters.push(id));
            let alone = Contents { nodes: so_far.nodes, ..c }.all_removed(seq![id]);
            &&& more.nodes == alone.nodes
            &&& more.count == so_far.count + (if so_far.nodes.contains_key(id) {
                1nat
            } else {
                0
            })
        }),
        c.removal(Seq::empty()).nodes == c.nodes,
        c.removal(Seq::empty()).count == 0,
        c.removal(voters).count <= voters.len(),
    decreases voters.len(),
{
    let so_far = c.removal(voters);
    let rest = Contents { nodes: so_far.nodes, ..c };
    assert(voters.push(id).drop_last() =~= voters);
    if so_far.nodes.contains_key(id) {
        law_remove_changes_one_bag(rest, id, 0);
    } else {
        law_removing_nobody_changes_nothing(rest, id);
    }
    if voters.len() > 0 {
        law_removals_come_one_by_one(c, voters.drop_last(), id);
    }
}

/// The bags that a removal has yet to put back, when one more is removed: the bag that its node names
/// if the node lacks a neighbour, with its ends moved away from it, as the removal had it so far or
/// else as it is stored; and the others as they were. No bag is waiting before the first.
pub proof fn law_removals_gather_bags<A>(c: Contents<A>, voters: Seq<A>, id: A, upper: VoteWeight)
    ensures
        ({
            let so_far = c.removal(voters);
            let more = c.removal(voters.push(id));
            let node = so_far.nodes[id];
            let changes = so_far.nodes.contains_key(id) && (node.prev is None || node.next is None)
                && node.bag_upper == upper;
            let bag = if so_far.bags.contains_key(upper) {
                so_far.bags[upper]
            } else {
                bag_at(c, upper)
            };
            &&& more.bags.contains_key(upper) <==> so_far.bags.contains_key(upper) || changes
            &&& !changes && so_far.bags.contains_key(upper) ==> more.bags[upper]
                == so_far.bags[upper]
            &&& changes ==> {
                &&& more.bags[upper].bag_upper == bag.bag_upper
                &&& more.bags[upper].head == (if bag.head == Some(node.id) {
                    node.next
                } else {
                    bag.head
                })
                &&& more.bags[upper].tail == (if bag.tail == Some(node.id) {
                    node.prev
                } else {
                    bag.tail
                })
            }
        }),
        !c.removal(Seq::empty()).bags.contains_key(upper),
{
    assert(voters.push(id).drop_last() =~= voters);
}

/// In the end of a removal the nodes are those that are left, each bag that was waiting is put back
/// unless it is empty, no other bag changes, and the counter goes down by the number of voters found,
/// as far as it goes.
pub proof fn law_removals_put_bags_back<A>(c: Contents<A>, voters: Seq<A>, upper: VoteWeight)
    ensures
        ({
            let removal = c.removal(voters);
            let after = c.all_removed(voters);
            let waiting = removal.bags.contains_key(upper);
            &&& after.nodes == removal.nodes
            &&& waiting ==> (after.bags.contains_key(upper) <==> removal.bags[upper].head is Some
                || removal.bags[upper].tail is Some)
            &&& waiting && after.bags.contains_key(upper) ==> after.bags[upper]
                == removal.bags[upper]
            &&& !waiting ==> after.bags.contains_key(upper) == c.bags.contains_key(upper)
            &&& !waiting && c.bags.contains_key(upper) ==> after.bags[upper] == c.bags[upper]
            &&& after.counter == (if removal.count <= c.counter {
                c.counter - removal.count
            } else {
                0
            })
        }),
{
}

/// Moving a node takes it out of its bag as removing it would, but keeps the entry, and then inserts
/// its voter; the counter stays. Where the node lacks a neighbour and its bag is not stored, it is
/// only inserted.
pub proof fn law_move_takes_out_and_inserts<A>(
    c: Contents<A>,
    thresholds: Seq<VoteWeight>,
    node: Node<A>,
    weight: VoteWeight,
)
    ensures
        ({
            let middle = node.prev is Some && node.next is Some;
            let outside = Contents {
                nodes: excised(c.nodes, node),
                bags: if middle {
                    c.bags
                } else {
                    bag_put(c.bags, bag_unlinked(bag_at(c, node.bag_upper), node))
                },
                counter: c.counter,
            };
            let start = if middle || c.bags.contains_key(node.bag_upper) {
                outside
            } else {
                c
            };
            let after = c.moved(thresholds, node, weight);
            &&& after.nodes == start.inserted(thresholds, node.id, weight).nodes
            &&& after.bags == start.inserted(thresholds, node.id, weight).bags
            &&& after.counter == c.counter
        }),
{
}

/// The first `n` of a sequence are as many as there are, `n` at most, and stand where they stood.
pub proof fn law_first_n_is_a_beginning<A>(s: Seq<A>, n: nat)
    ensures
        first_n(s, n).len() == (if n < s.len() {
            n
        } else {
            s.len()
        }),
        forall|i: int| 0 <= i < first_n(s, n).len() ==> #[trigger] first_n(s, n)[i] == s[i],
{
}

/// A list is counted if its counter is the number of its nodes, and keeps to thresholds if each of its
/// bags is one of them or the bag of the greatest vote weight.
pub proof fn law_counting_and_keeping_to_thresholds<A>(
    c: Contents<A>,
    thresholds: Seq<VoteWeight>,
)
    ensures
        c.counted() <==> c.counter == c.nodes.dom().len(),
        c.bagged_by(thresholds) <==> forall|upper: VoteWeight| #[trigger]
            c.bags.contains_key(upper) ==> thresholds.contains(upper) || upper == VoteWeight::MAX,
        sorted(thresholds) <==> forall|i: int, j: int|
            0 <= i < j < thresholds.len() ==> thresholds[i] <= thresholds[j],
{
    if c.bagged_by(thresholds) {
        assert forall|upper: VoteWeight| #[trigger]
            c.bags.contains_key(upper) implies thresholds.contains(upper) || upper
            == VoteWeight::MAX by {
            assert(is_bag(thresholds, upper));
        }
    }
}

/// Joining a bag puts a voter behind everybody in it; leaving takes exactly those who leave, keeps the
/// order of the others, and a bag that nobody stays in is no more.
pub proof fn law_joining_and_leaving<A>(
    lines: Map<VoteWeight, Seq<A>>,
    upper: VoteWeight,
    other: VoteWeight,
    id: A,
    gone: Set<A>,
)
    ensures
        ({
            let more = joined(lines, upper, id);
            let before = line(lines, upper);
            &&& more.contains_key(upper)
            &&& more[upper].len() == before.len() + 1
            &&& more[upper][before.len() as int] == id
            &&& forall|i: int| 0 <= i < before.len() ==> #[trigger] more[upper][i] == before[i]
            &&& other != upper ==> more.contains_key(other) == lines.contains_key(other)
            &&& other != upper && lines.contains_key(other) ==> more[other] == lines[other]
        }),
        ({
            let less = all_left(lines, gone);
            &&& less.contains_key(upper) <==> lines.contains_key(upper) && exists|i: int|
                0 <= i < lines[upper].len() && !gone.contains(#[trigger] lines[upper][i])
            &&& less.contains_key(upper) ==> {
                &&& forall|i: int|
                    0 <= i < less[upper].len() ==> !gone.contains(#[trigger] less[upper][i])
                &&& exists|at: spec_fn(int) -> int| #[trigger]
                    places(less[upper], lines[upper], gone, at)
            }
        }),
{
    let less = all_left(lines, gone);
    if lines.contains_key(upper) {
        let s = lines[upper];
        let kept = staying(s, gone);
        lemma_staying(s, gone);
        lemma_places(s, gone);
        if kept.len() > 0 {
            assert(kept.contains(kept[0]));
            let i = choose|i: int| 0 <= i < s.len() && s[i] == kept[0];
            assert(!gone.contains(s[i]));
        }
        if exists|i: int| 0 <= i < s.len() && !gone.contains(#[trigger] s[i]) {
            let i = choose|i: int| 0 <= i < s.len() && !gone.contains(#[trigger] s[i]);
            assert(s.contains(s[i]));
            assert(kept.contains(s[i]));
        }
        assert forall|i: int| 0 <= i < kept.len() implies !gone.contains(#[trigger] kept[i]) by {
            assert(kept.contains(kept[i]));
        }
        assert(less.contains_key(upper) <==> kept.len() > 0);
        assert(less.contains_key(upper) <==> exists|i: int|
            0 <= i < s.len() && !gone.contains(#[trigger] s[i]));
        if less.contains_key(upper) {
            assert(less[upper] == kept);
            let at = choose|at: spec_fn(int) -> int| #[trigger] places(kept, s, gone, at);
            assert(places(less[upper], lines[upper], gone, at));
        }
    }
}

/// `at` gives the place in `s` of each of `kept`, in increasing order, and nobody who is not among
/// `gone` stands elsewhere in `s`.
pub open spec fn places<A>(
    kept: Seq<A>,
    s: Seq<A>,
    gone: Set<A>,
    at: spec_fn(int) -> int,
) -> bool {
    &&& forall|i: int|
        0 <= i < kept.len() ==> 0 <= #[trigger] at(i) < s.len() && s[at(i)] == kept[i]
    &&& forall|i: int, j: int| 0 <= i < j < kept.len() ==> #[trigger] at(i) < #[trigger] at(j)
    &&& forall|k: int|
        0 <= k < s.len() && !gone.contains(#[trigger] s[k]) ==> exists|i: int|
            0 <= i < kept.len() && #[trigger] at(i) == k
}

proof fn lemma_places<A>(s: Seq<A>, gone: Set<A>)
    ensures
        exists|at: spec_fn(int) -> int| #[trigger] places(staying(s, gone), s, gone, at),
    decreases s.len(),
{
    reveal(Seq::filter);
    let kept = staying(s, gone);
    if s.len() == 0 {
        let at = |i: int| 0int;
        assert(places(kept, s, gone, at));
    } else {
        let fewer = s.drop_last();
        let rest = staying(fewer, gone);
        lemma_places(fewer, gone);
        let before = choose|at: spec_fn(int) -> int| #[trigger] places(rest, fewer, gone, at);
        let at = |i: int|
            if i < rest.len() {
                before(i)
            } else {
                s.len() - 1
            };
        assert forall|i: int| 0 <= i < kept.len() implies 0 <= #[trigger] at(i) < s.len()
            && s[at(i)] == kept[i] by {
            if i < rest.len() {
                assert(0 <= before(i) < fewer.len() && fewer[before(i)] == rest[i]);
            }
        }
        assert forall|i: int, j: int| 0 <= i < j < kept.len() implies #[trigger] at(i)
            < #[trigger] at(j) by {
            assert(0 <= before(i) < fewer.len());
            if j < rest.len() {
                assert(before(i) < before(j));
            }
        }
        assert forall|k: int| 0 <= k < s.len() && !gone.contains(#[trigger] s[k]) implies exists|
            i: int,
        |
            0 <= i < kept.len() && #[trigger] at(i) == k by {
            if k < fewer.len() {
                assert(!gone.contains(fewer[k]));
                let i = choose|i: int| 0 <= i < rest.len() && #[trigger] before(i) == k;
                assert(at(i) == k);
            } else {
                assert(at(rest.len() as int) == k);
            }
        }
        assert(places(kept, s, gone, at));
    }
}

} // verus!
