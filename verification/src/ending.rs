//! Telling whether following the links of the bags comes to an end.

use crate::account::{lemma_weights_ordered, AccountId};
use crate::bag::Bag;
use crate::following::{law_traversal_is_the_whole_way, whole_way};
use crate::links::{lemma_shorter_walk, lemma_walk_len, lemma_walk_stable};
use crate::list::List;
use crate::migrate::affected_end;
use crate::model::{stored, traversal, walk, walk_ends, Contents};
use crate::node::Node;
use frame_election_provider_support::VoteWeight;
use vstd::prelude::*;

verus! {

/// A walk that ends after `n` nodes went through `n` different entries.
proof fn lemma_entries<A>(nodes: Map<A, Node<A>>, start: Option<A>, n: nat) -> (entries: Set<A>)
    requires
        walk(nodes, start, n + 1).len() == n,
    ensures
        entries.finite(),
        entries.len() == n,
        entries.subset_of(nodes.dom()),
        forall|id: A| #[trigger]
            entries.contains(id) ==> walk(nodes, Some(id), n + 1).len() <= n,
    decreases n,
{
    if n == 0 {
        Set::empty()
    } else {
        let node = stored(nodes, start)->0;
        let fewer = lemma_entries(nodes, node.next, (n - 1) as nat);
        let entries = fewer.insert(start->0);
        assert(walk(nodes, start, n).len() == n) by {
            if walk(nodes, start, n).len() < n {
                lemma_walk_stable(nodes, start, n, n + 1);
            }
            lemma_walk_len(nodes, start, n);
        }
        assert forall|id: A| #[trigger] entries.contains(id) implies walk(
            nodes,
            Some(id),
            n + 1,
        ).len() <= n by {
            if id != start->0 {
                assert(walk(nodes, Some(id), n).len() < n);
                lemma_walk_stable(nodes, Some(id), n, n + 1);
            }
        }
        entries
    }
}

/// A walk that ends has no more nodes than there are entries.
proof fn lemma_walk_bound<A>(nodes: Map<A, Node<A>>, start: Option<A>)
    requires
        walk_ends(nodes, start),
        nodes.dom().finite(),
    ensures
        walk(nodes, start, nodes.dom().len() + 1).len() <= nodes.dom().len(),
{
    let limit = choose|limit: nat| #[trigger] walk(nodes, start, limit).len() < limit;
    let n = walk(nodes, start, limit).len();
    lemma_walk_len(nodes, start, n + 1);
    if walk(nodes, start, n + 1).len() == n + 1 {
        lemma_shorter_walk(nodes, start, n + 1, limit);
    } else {
        lemma_walk_stable(nodes, start, n + 1, limit);
    }
    let entries = lemma_entries(nodes, start, n);
    vstd::set_lib::lemma_len_subset(entries, nodes.dom());
    lemma_walk_stable(nodes, start, n + 1, nodes.dom().len() + 1);
}

impl<A> Contents<A> {
    /// Following the links of any stored bag comes to an end.
    pub open spec fn bags_end(self) -> bool {
        forall|upper: VoteWeight| #[trigger]
            self.bags.contains_key(upper) ==> walk_ends(self.nodes, self.bags[upper].head)
    }
}

/// Where the links of any stored bag end, so do those of any bag that is asked for.
pub proof fn lemma_bags_end<A>(c: Contents<A>, thresholds: Seq<VoteWeight>, new: Seq<VoteWeight>)
    requires
        c.bags_end(),
    ensures
        c.listing_ends(thresholds),
        affected_end(c, thresholds, new),
{
    assert(walk(c.nodes, None, 1).len() < 1);
}

impl<A: AccountId> Bag<A> {
    /// Whether following the links of this bag from the head on comes to an end.
    pub fn ends(&self, list: &List<A>) -> (r: bool)
        ensures
            r == walk_ends(list@.nodes, self.head),
            r <==> exists|path: Seq<Node<A>>| whole_way(list@.nodes, self.head, path),
    {
        proof {
            let head = self.head;
            law_traversal_is_the_whole_way(list@.nodes, head, traversal(list@.nodes, head));
            if exists|path: Seq<Node<A>>| whole_way(list@.nodes, head, path) {
                let path = choose|path: Seq<Node<A>>| whole_way(list@.nodes, head, path);
                law_traversal_is_the_whole_way(list@.nodes, head, path);
            }
        }
        proof {
            A::lawful();
        }
        let ghost nodes = list@.nodes;
        let ghost mut start = self.head;
        let most: usize = list.voter_nodes.len();
        let mut steps: usize = 0;
        let mut cursor = self.head(list);
        while cursor.is_some()
            invariant
                nodes == list@.nodes,
                nodes.dom().finite(),
                most == nodes.dom().len(),
                steps <= most,
                walk_ends(nodes, self.head) <==> exists|path: Seq<Node<A>>|
                    whole_way(nodes, self.head, path),
                cursor == stored(nodes, start),
                forall|limit: nat|
                    limit >= steps ==> #[trigger] walk(nodes, self.head, limit).len() == steps
                        + walk(nodes, start, (limit - steps) as nat).len(),
            ensures
                cursor is None,
            decreases most - steps,
        {
            if let Some(node) = cursor {
                if steps == most {
                    proof {
                        if walk_ends(nodes, self.head) {
                            lemma_walk_bound(nodes, self.head);
                            assert(walk(nodes, start, 1).len() == 1) by {
                                assert(walk(nodes, node.next, 0).len() == 0);
                            }
                        }
                    }
                    return false;
                }
                proof {
                    assert forall|limit: nat| limit >= steps + 1 implies #[trigger] walk(
                        nodes,
                        self.head,
                        limit,
                    ).len() == steps + 1 + walk(nodes, node.next, (limit - steps - 1) as nat).len() by {
                        assert(walk(nodes, start, (limit - steps) as nat).len() == 1 + walk(
                            nodes,
                            node.next,
                            (limit - steps - 1) as nat,
                        ).len());
                    }
                    start = node.next;
                }
                steps += 1;
                cursor = node.next(list);
            }
        }
        assert(walk(nodes, self.head, (steps + 1) as nat).len() == steps);
        true
    }
}

impl<A: AccountId> List<A> {
    /// Whether following the links of every bag in the list comes to an end.
    pub fn bags_end(&self) -> (r: bool)
        ensures
            r == self@.bags_end(),
            r <==> forall|upper: VoteWeight| #[trigger]
                self@.bags.contains_key(upper) ==> exists|path: Seq<Node<A>>|
                    whole_way(self@.nodes, self@.bags[upper].head, path),
            r ==> self@.listing_ends(self.bag_thresholds@),
    {
        proof {
            lemma_weights_ordered();
        }
        let ghost c = self@;
        proof {
            assert forall|upper: VoteWeight| #[trigger] c.bags.contains_key(upper) implies (
            walk_ends(c.nodes, c.bags[upper].head) <==> exists|path: Seq<Node<A>>|
                whole_way(c.nodes, c.bags[upper].head, path)) by {
                let head = c.bags[upper].head;
                law_traversal_is_the_whole_way(c.nodes, head, traversal(c.nodes, head));
                if exists|path: Seq<Node<A>>| whole_way(c.nodes, head, path) {
                    let path = choose|path: Seq<Node<A>>| whole_way(c.nodes, head, path);
                    law_traversal_is_the_whole_way(c.nodes, head, path);
                }
            }
        }
        for entry in it: self.voter_bags.iter()
            invariant
                c == self@,
                forall|j: int|
                    0 <= j < it.index() ==> walk_ends(c.nodes, (#[trigger] it.seq()[j]).1.head),
                forall|j: int|
                    0 <= j < it.seq().len() ==> c.bags.contains_key(*(#[trigger] it.seq()[j]).0)
                        && c.bags[*it.seq()[j].0] == *it.seq()[j].1,
                forall|upper: VoteWeight| #[trigger]
                    c.bags.contains_key(upper) ==> exists|j: int|
                        0 <= j < it.seq().len() && *(#[trigger] it.seq()[j]).0 == upper,
        {
            if !entry.1.ends(self) {
                assert(c.bags.contains_key(*entry.0));
                return false;
            }
        }
        proof {
            assert(c.bags_end());
            lemma_bags_end(c, self.bag_thresholds@, self.bag_thresholds@);
        }
        true
    }
}

} // verus!
