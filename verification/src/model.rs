//! What the voter list holds, and what it means for the links between the voters to be sound.

use crate::bag::Bag;
use crate::node::Node;
use crate::thresholds::{all_uppers, is_bag, notional_bag};
use frame_election_provider_support::VoteWeight;
use vstd::prelude::*;

verus! {

/// What a voter list keeps: the nodes by account id, the bags by upper threshold, and the number of
/// voters.
#[verifier::ext_equal]
#[verifier::reject_recursive_types(A)]
pub struct Contents<A> {
    pub nodes: Map<A, Node<A>>,
    pub bags: Map<VoteWeight, Bag<A>>,
    pub counter: u32,
}

/// How far the removal of some voters has come.
#[verifier::ext_equal]
#[verifier::reject_recursive_types(A)]
pub struct Removal<A> {
    /// The nodes that are left.
    pub nodes: Map<A, Node<A>>,
    /// The bags whose head or tail may have changed, to be put back in the end.
    pub bags: Map<VoteWeight, Bag<A>>,
    /// The number of voters that were found.
    pub count: nat,
}

/// The node that a link leads to, if the link is there and the node is stored.
pub open spec fn stored<A>(nodes: Map<A, Node<A>>, link: Option<A>) -> Option<Node<A>> {
    match link {
        Some(id) => if nodes.contains_key(id) {
            Some(nodes[id])
        } else {
            None
        },
        None => None,
    }
}

/// The nodes after the neighbours of `node` were made to point at each other.
pub open spec fn excised<A>(nodes: Map<A, Node<A>>, node: Node<A>) -> Map<A, Node<A>> {
    let before = match stored(nodes, node.prev) {
        Some(prev) => nodes.insert(prev.id, Node { next: node.next, ..prev }),
        None => nodes,
    };
    match stored(before, node.next) {
        Some(next) => before.insert(next.id, Node { prev: node.prev, ..next }),
        None => before,
    }
}

/// The nodes after `id` was linked behind the tail of `bag`.
pub open spec fn nodes_appended<A>(nodes: Map<A, Node<A>>, bag: Bag<A>, id: A) -> Map<A, Node<A>> {
    let with_node = nodes.insert(
        id,
        Node { id, prev: bag.tail, next: None, bag_upper: bag.bag_upper },
    );
    match stored(with_node, bag.tail) {
        Some(tail) => with_node.insert(tail.id, Node { next: Some(id), ..tail }),
        None => with_node,
    }
}

/// The bag after `id` became its tail, and its head too if it had none.
pub open spec fn bag_appended<A>(bag: Bag<A>, id: A) -> Bag<A> {
    Bag {
        head: if bag.head is None {
            Some(id)
        } else {
            bag.head
        },
        tail: Some(id),
        bag_upper: bag.bag_upper,
    }
}

/// The bag after `node` left it: where the node was the head or the tail, its neighbour is now.
pub open spec fn bag_unlinked<A>(bag: Bag<A>, node: Node<A>) -> Bag<A> {
    Bag {
        head: if bag.head == Some(node.id) {
            node.next
        } else {
            bag.head
        },
        tail: if bag.tail == Some(node.id) {
            node.prev
        } else {
            bag.tail
        },
        bag_upper: bag.bag_upper,
    }
}

/// The bags after `bag` was put back; an empty one is not kept.
pub open spec fn bag_put<A>(
    bags: Map<VoteWeight, Bag<A>>,
    bag: Bag<A>,
) -> Map<VoteWeight, Bag<A>> {
    if bag.head is None && bag.tail is None {
        bags.remove(bag.bag_upper)
    } else {
        bags.insert(bag.bag_upper, bag)
    }
}

/// The bags once each of `changed` took the place of the bag with the same threshold; an empty one
/// is not kept.
pub open spec fn settled<A>(
    bags: Map<VoteWeight, Bag<A>>,
    changed: Map<VoteWeight, Bag<A>>,
    done: Set<VoteWeight>,
) -> Map<VoteWeight, Bag<A>> {
    Map::new(
        |upper: VoteWeight|
            if done.contains(upper) {
                !(changed[upper].head is None && changed[upper].tail is None)
            } else {
                bags.contains_key(upper)
            },
        |upper: VoteWeight|
            if done.contains(upper) {
                changed[upper]
            } else {
                bags[upper]
            },
    )
}

/// The first nodes, `limit` of them at most, that are met by following the links from `start`.
pub open spec fn walk<A>(nodes: Map<A, Node<A>>, start: Option<A>, limit: nat) -> Seq<Node<A>>
    decreases limit,
{
    if limit == 0 {
        Seq::empty()
    } else {
        match stored(nodes, start) {
            Some(node) => seq![node] + walk(nodes, node.next, (limit - 1) as nat),
            None => Seq::empty(),
        }
    }
}

/// Following the links from `start` comes to an end.
pub open spec fn walk_ends<A>(nodes: Map<A, Node<A>>, start: Option<A>) -> bool {
    exists|limit: nat| #[trigger] walk(nodes, start, limit).len() < limit
}

/// All the nodes that are met by following the links from `start`, where that comes to an end.
pub open spec fn traversal<A>(nodes: Map<A, Node<A>>, start: Option<A>) -> Seq<Node<A>> {
    walk(nodes, start, choose|limit: nat| #[trigger] walk(nodes, start, limit).len() < limit)
}

/// The first `n` of a sequence, or all of it where it is shorter.
pub open spec fn first_n<A>(s: Seq<A>, n: nat) -> Seq<A> {
    if n < s.len() {
        s.take(n as int)
    } else {
        s
    }
}

/// The ids of a sequence of nodes.
pub open spec fn ids<A>(nodes: Seq<Node<A>>) -> Seq<A> {
    nodes.map_values(|node: Node<A>| node.id)
}

/// The first of a sequence, if it has one.
pub open spec fn first_of<A>(s: Seq<A>) -> Option<A> {
    if s.len() > 0 {
        Some(s[0])
    } else {
        None
    }
}

/// The last of a sequence, if it has one.
pub open spec fn last_of<A>(s: Seq<A>) -> Option<A> {
    if s.len() > 0 {
        Some(s.last())
    } else {
        None
    }
}

/// The node of the voter at place `i` of the bag whose voters are `s`.
pub open spec fn link<A>(s: Seq<A>, i: int, upper: VoteWeight) -> Node<A> {
    Node {
        id: s[i],
        prev: if i > 0 {
            Some(s[i - 1])
        } else {
            None
        },
        next: if i + 1 < s.len() {
            Some(s[i + 1])
        } else {
            None
        },
        bag_upper: upper,
    }
}

/// The voters `s`, none of them twice, are linked in that order from `head` to `tail`.
pub open spec fn chain<A>(
    nodes: Map<A, Node<A>>,
    s: Seq<A>,
    upper: VoteWeight,
    head: Option<A>,
    tail: Option<A>,
) -> bool {
    &&& s.no_duplicates()
    &&& head == first_of(s)
    &&& tail == last_of(s)
    &&& forall|i: int|
        0 <= i < s.len() ==> nodes.contains_key(s[i]) && nodes[s[i]] == #[trigger] link(s, i, upper)
}

/// The nodes and the bags hold the voters of each bag in the order that `lines` gives, and no other
/// voters.
pub open spec fn chains<A>(
    nodes: Map<A, Node<A>>,
    bags: Map<VoteWeight, Bag<A>>,
    lines: Map<VoteWeight, Seq<A>>,
) -> bool {
    &&& lines.dom() == bags.dom()
    &&& forall|upper: VoteWeight| #[trigger]
        lines.contains_key(upper) ==> chain(
            nodes,
            lines[upper],
            upper,
            bags[upper].head,
            bags[upper].tail,
        )
    &&& forall|id: A| #[trigger]
        nodes.contains_key(id) ==> lines.contains_key(nodes[id].bag_upper)
            && lines[nodes[id].bag_upper].contains(id)
}

/// The voters of the bag `upper`, in order; none where there is no such bag.
pub open spec fn line<A>(lines: Map<VoteWeight, Seq<A>>, upper: VoteWeight) -> Seq<A> {
    if lines.contains_key(upper) {
        lines[upper]
    } else {
        Seq::empty()
    }
}

/// The lines after `id` joined the end of the bag `upper`.
pub open spec fn joined<A>(
    lines: Map<VoteWeight, Seq<A>>,
    upper: VoteWeight,
    id: A,
) -> Map<VoteWeight, Seq<A>> {
    lines.insert(upper, line(lines, upper).push(id))
}

/// The lines after `voters` joined in turn, each the bag for its weight.
pub open spec fn all_joined<A>(
    lines: Map<VoteWeight, Seq<A>>,
    thresholds: Seq<VoteWeight>,
    voters: Seq<A>,
    weights: Seq<VoteWeight>,
) -> Map<VoteWeight, Seq<A>>
    decreases voters.len(),
{
    if voters.len() == 0 {
        lines
    } else {
        joined(
            all_joined(lines, thresholds, voters.drop_last(), weights.drop_last()),
            notional_bag(thresholds, weights.last()),
            voters.last(),
        )
    }
}

/// Those of `s` who are not among `gone`, in the same order.
pub open spec fn staying<A>(s: Seq<A>, gone: Set<A>) -> Seq<A> {
    s.filter(|id: A| !gone.contains(id))
}

/// The lines after all of `gone` left; a bag that nobody stays in is no more.
pub open spec fn all_left<A>(
    lines: Map<VoteWeight, Seq<A>>,
    gone: Set<A>,
) -> Map<VoteWeight, Seq<A>> {
    Map::new(
        |upper: VoteWeight| lines.contains_key(upper) && staying(lines[upper], gone).len() > 0,
        |upper: VoteWeight| staying(lines[upper], gone),
    )
}

/// What is wrong with the bag: its head has a node before it, its tail has a node behind it, or
/// following its links from the head meets a voter twice or does not come to the tail. A bag whose
/// head or tail has no node must lack the other end.
pub open spec fn bag_fault<A>(nodes: Map<A, Node<A>>, bag: Bag<A>) -> Option<Seq<char>> {
    let head_is_first = match stored(nodes, bag.head) {
        Some(head) => stored(nodes, head.prev) is None,
        None => bag.tail is None,
    };
    let tail_is_last = match stored(nodes, bag.tail) {
        Some(tail) => stored(nodes, tail.next) is None,
        None => bag.head is None,
    };
    if !head_is_first {
        Some("head has a prev"@)
    } else if !tail_is_last {
        Some("tail has a next"@)
    } else if !(walk_ends(nodes, bag.head) && ids(traversal(nodes, bag.head)).no_duplicates()) {
        Some("duplicate found in bag"@)
    } else if last_of(ids(traversal(nodes, bag.head))) != bag.tail {
        Some("tail is not reached from head"@)
    } else {
        None
    }
}

/// The contents of a list without voters.
pub open spec fn nothing<A>() -> Contents<A> {
    Contents { nodes: Map::empty(), bags: Map::empty(), counter: 0 }
}

impl<A> Contents<A> {
    /// The stored bag `upper`, or an empty one.
    pub open spec fn bag_or_new(self, upper: VoteWeight) -> Bag<A> {
        if self.bags.contains_key(upper) {
            Bag { bag_upper: upper, ..self.bags[upper] }
        } else {
            Bag { head: None, tail: None, bag_upper: upper }
        }
    }

    /// The voters of each bag, in order.
    pub open spec fn lines(self) -> Map<VoteWeight, Seq<A>> {
        Map::new(
            |upper: VoteWeight| self.bags.contains_key(upper),
            |upper: VoteWeight| ids(traversal(self.nodes, self.bags[upper].head)),
        )
    }

    /// The links are sound: every voter stands in exactly one bag, the one that its node names,
    /// following the links of a bag from head to tail meets each of its voters once, the links back
    /// mirror them, and no stored bag is empty.
    pub open spec fn linked(self) -> bool {
        &&& self.nodes.dom().finite()
        &&& chains(self.nodes, self.bags, self.lines())
        &&& forall|upper: VoteWeight| #[trigger]
            self.lines().contains_key(upper) ==> self.lines()[upper].len() > 0
    }

    /// The counter holds the number of voters.
    pub open spec fn counted(self) -> bool {
        self.counter == self.nodes.dom().len()
    }

    /// Every stored bag is one of the bags of `thresholds`.
    pub open spec fn bagged_by(self, thresholds: Seq<VoteWeight>) -> bool {
        forall|upper: VoteWeight| #[trigger]
            self.bags.contains_key(upper) ==> is_bag(thresholds, upper)
    }

    /// The contents after `id` was put behind the tail of the bag for `weight`. Nothing is linked
    /// anew where `id` is that tail already.
    pub open spec fn inserted(
        self,
        thresholds: Seq<VoteWeight>,
        id: A,
        weight: VoteWeight,
    ) -> Contents<A> {
        let upper = notional_bag(thresholds, weight);
        let bag = self.bag_or_new(upper);
        Contents {
            nodes: if bag.tail == Some(id) {
                self.nodes
            } else {
                nodes_appended(self.nodes, bag, id)
            },
            bags: self.bags.insert(
                upper,
                if bag.tail == Some(id) {
                    bag
                } else {
                    bag_appended(bag, id)
                },
            ),
            counter: if self.counter < u32::MAX {
                (self.counter + 1) as u32
            } else {
                u32::MAX
            },
        }
    }

    /// The contents after `voters` were inserted in turn.
    pub open spec fn all_inserted(
        self,
        thresholds: Seq<VoteWeight>,
        voters: Seq<A>,
        weights: Seq<VoteWeight>,
    ) -> Contents<A>
        decreases voters.len(),
    {
        if voters.len() == 0 {
            self
        } else {
            self.all_inserted(thresholds, voters.drop_last(), weights.drop_last()).inserted(
                thresholds,
                voters.last(),
                weights.last(),
            )
        }
    }

    /// The removal of `voters`, each taken out of its bag in turn, ids without a node passed over.
    pub open spec fn removal(self, voters: Seq<A>) -> Removal<A>
        decreases voters.len(),
    {
        if voters.len() == 0 {
            Removal { nodes: self.nodes, bags: Map::empty(), count: 0 }
        } else {
            let so_far = self.removal(voters.drop_last());
            match stored(so_far.nodes, Some(voters.last())) {
                Some(node) => Removal {
                    nodes: excised(so_far.nodes, node).remove(voters.last()),
                    bags: if node.prev is Some && node.next is Some {
                        so_far.bags
                    } else {
                        let bag = if so_far.bags.contains_key(node.bag_upper) {
                            so_far.bags[node.bag_upper]
                        } else {
                            self.bag_or_new(node.bag_upper)
                        };
                        so_far.bags.insert(node.bag_upper, bag_unlinked(bag, node))
                    },
                    count: so_far.count + 1,
                },
                None => so_far,
            }
        }
    }

    /// The contents after `voters` were removed.
    pub open spec fn all_removed(self, voters: Seq<A>) -> Contents<A> {
        let removal = self.removal(voters);
        Contents {
            nodes: removal.nodes,
            bags: settled(self.bags, removal.bags, removal.bags.dom()),
            counter: if removal.count <= self.counter {
                (self.counter - removal.count) as u32
            } else {
                0
            },
        }
    }

    /// The contents after `node` was taken out of its bag, its own entry left as it is. Where a head
    /// or tail names a bag that is not stored, nothing is taken out.
    pub open spec fn detached(self, node: Node<A>) -> Contents<A> {
        if node.prev is Some && node.next is Some {
            Contents { nodes: excised(self.nodes, node), ..self }
        } else if self.bags.contains_key(node.bag_upper) {
            Contents {
                nodes: excised(self.nodes, node),
                bags: bag_put(
                    self.bags,
                    bag_unlinked(self.bag_or_new(node.bag_upper), node),
                ),
                ..self
            }
        } else {
            self
        }
    }

    /// The contents after `node` was taken out of its bag and put behind the tail of the bag for
    /// `weight`.
    pub open spec fn moved(
        self,
        thresholds: Seq<VoteWeight>,
        node: Node<A>,
        weight: VoteWeight,
    ) -> Contents<A> {
        Contents {
            counter: self.counter,
            ..self.detached(node).inserted(thresholds, node.id, weight)
        }
    }

    /// The nodes of the first `k` of `uppers`, one bag after the other, each in the order of its
    /// links.
    pub open spec fn listing_of(self, uppers: Seq<VoteWeight>, k: nat) -> Seq<Node<A>>
        decreases k,
    {
        if k == 0 {
            Seq::empty()
        } else {
            self.listing_of(uppers, (k - 1) as nat) + traversal(
                self.nodes,
                self.bag_or_new(uppers[k - 1]).head,
            )
        }
    }

    /// The nodes of all bags, from the greatest threshold to the least.
    pub open spec fn listing(self, thresholds: Seq<VoteWeight>) -> Seq<Node<A>> {
        let uppers = all_uppers(thresholds).reverse();
        self.listing_of(uppers, uppers.len())
    }

    /// The first nodes, `limit` of them at most, that are met on the way through the first `k` of
    /// `uppers`.
    pub open spec fn start_of(self, uppers: Seq<VoteWeight>, k: nat, limit: nat) -> Seq<Node<A>>
        decreases k,
    {
        if k == 0 {
            Seq::empty()
        } else {
            let before = self.start_of(uppers, (k - 1) as nat, limit);
            before + walk(
                self.nodes,
                self.bag_or_new(uppers[k - 1]).head,
                (limit - before.len()) as nat,
            )
        }
    }

    /// The first nodes, `limit` of them at most, that are met on the way through all bags, from the
    /// greatest threshold to the least.
    pub open spec fn listing_start(self, thresholds: Seq<VoteWeight>, limit: nat) -> Seq<Node<A>> {
        let uppers = all_uppers(thresholds).reverse();
        self.start_of(uppers, uppers.len(), limit)
    }

    /// Following the links of any bag comes to an end.
    pub open spec fn listing_ends(self, thresholds: Seq<VoteWeight>) -> bool {
        forall|upper: VoteWeight| #[trigger]
            is_bag(thresholds, upper) ==> walk_ends(self.nodes, self.bag_or_new(upper).head)
    }

    /// What is wrong with the first of `uppers` that has a fault.
    pub open spec fn first_fault(self, uppers: Seq<VoteWeight>) -> Option<Seq<char>>
        decreases uppers.len(),
    {
        if uppers.len() == 0 {
            None
        } else {
            match bag_fault(self.nodes, self.bag_or_new(uppers[0])) {
                Some(fault) => Some(fault),
                None => self.first_fault(uppers.drop_first()),
            }
        }
    }

    /// What is wrong with the list: some voter is met twice on the way through all bags, the number
    /// of voters met is not the one that was counted, or one of the bags has a fault.
    pub open spec fn fault(self, thresholds: Seq<VoteWeight>) -> Option<Seq<char>> {
        if !(self.listing_ends(thresholds) && ids(self.listing(thresholds)).no_duplicates()) {
            Some("duplicate identified"@)
        } else if self.listing(thresholds).len() != self.counter {
            Some("iter_count != stored_count"@)
        } else {
            self.first_fault(all_uppers(thresholds))
        }
    }
}

} // verus!
