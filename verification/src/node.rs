//! The nodes that link the voters of a bag together.

use crate::account::{copy_id, copy_link, AccountId};
use crate::links::lemma_stored_under_id;
use crate::list::List;
use crate::model::{excised, stored, Contents};
use crate::thresholds::{notional_bag, notional_bag_for, sorted};
use frame_election_provider_support::VoteWeight;
use vstd::prelude::*;

verus! {

/// A Node is the fundamental element comprising the doubly-linked list for each bag.
#[derive(Debug, PartialEq, Eq)]
pub struct Node<A> {
    pub id: A,
    pub prev: Option<A>,
    pub next: Option<A>,
    pub bag_upper: VoteWeight,
}

impl<A: AccountId> Clone for Node<A> {
    fn clone(&self) -> (r: Self)
        ensures
            r == *self,
    {
        Node {
            id: copy_id(&self.id),
            prev: copy_link(&self.prev),
            next: copy_link(&self.next),
            bag_upper: self.bag_upper,
        }
    }
}

impl<A: AccountId> Node<A> {
    /// Get a node by account id.
    pub fn get(list: &List<A>, account_id: &A) -> (r: Option<Node<A>>)
        ensures
            r == stored(list@.nodes, Some(*account_id)),
            r is Some && list@.linked() ==> r->0.id == *account_id,
    {
        proof {
            A::lawful();
            if list@.linked() && list@.nodes.contains_key(*account_id) {
                lemma_stored_under_id(list@, *account_id);
            }
        }
        match list.voter_nodes.get(account_id) {
            Some(node) => Some(node.clone()),
            None => None,
        }
    }

    /// Put the node back into the list.
    pub fn put(self, list: &mut List<A>)
        ensures
            final(list)@ == (Contents {
                nodes: old(list)@.nodes.insert(self.id, self),
                ..old(list)@
            }),
            final(list).bag_thresholds == old(list).bag_thresholds,
    {
        proof {
            A::lawful();
        }
        let id = copy_id(&self.id);
        list.voter_nodes.insert(id, self);
    }

    /// Update neighboring nodes to point to each other.
    ///
    /// Does _not_ touch what the list holds of this node itself.
    pub fn excise(&self, list: &mut List<A>)
        ensures
            final(list)@ == (Contents { nodes: excised(old(list)@.nodes, *self), ..old(list)@ }),
            final(list).bag_thresholds == old(list).bag_thresholds,
    {
        // Update previous node.
        if let Some(mut prev) = self.prev(list) {
            prev.next = copy_link(&self.next);
            prev.put(list);
        }
        // Update next node.
        if let Some(mut next) = self.next(list) {
            next.prev = copy_link(&self.prev);
            next.put(list);
        }
    }

    /// Get the previous node in the bag.
    pub fn prev(&self, list: &List<A>) -> (r: Option<Node<A>>)
        ensures
            r == stored(list@.nodes, self.prev),
    {
        match &self.prev {
            Some(id) => Node::get(list, id),
            None => None,
        }
    }

    /// Get the next node in the bag.
    pub fn next(&self, list: &List<A>) -> (r: Option<Node<A>>)
        ensures
            r == stored(list@.nodes, self.next),
    {
        match &self.next {
            Some(id) => Node::get(list, id),
            None => None,
        }
    }

    /// `true` when this voter is in the wrong bag.
    pub fn is_misplaced(&self, list: &List<A>, current_weight: VoteWeight) -> (r: bool)
        requires
            sorted(list.bag_thresholds@),
        ensures
            r == (notional_bag(list.bag_thresholds@, current_weight) != self.bag_upper),
    {
        notional_bag_for(&list.bag_thresholds, current_weight) != self.bag_upper
    }

    /// `true` when this voter is a bag head or tail.
    pub fn is_terminal(&self) -> (r: bool)
        ensures
            r == (self.prev is None || self.next is None),
    {
        self.prev.is_none() || self.next.is_none()
    }

    /// Get the underlying voter.
    pub fn id(&self) -> (r: &A)
        ensures
            *r == self.id,
    {
        &self.id
    }
}

} // verus!
