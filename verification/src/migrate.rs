//! Migrating the voter list from one set of thresholds to another.

use crate::account::{copy_id, lemma_increasing_values, lemma_weights_ordered, ordered, AccountId};
use crate::bag::Bag;
use crate::joining::{
    law_insert_many_joins_in_turn, lemma_all_inserted_counter, lemma_joined_members,
};
use crate::laws::{law_lines_are_the_ways, law_one_bag_each, placed};
use crate::leaving::{
    law_remove_leaves_the_others, lemma_push_to_set, lemma_staying, lemma_take_one_more,
};
use crate::links::lemma_linked_ends;
use crate::list::{weighed, List};
use crate::model::{
    all_joined, all_left, chain, ids, line, link, settled, staying, traversal, walk_ends,
    Contents,
};
use crate::thresholds::{
    all_uppers, is_bag, law_notional_bag_is_least, lemma_all_uppers, notional_bag, notional_bag_for,
    sorted, uppers_of,
};
use frame_election_provider_support::VoteWeight;
use sp_std::collections::btree_set::BTreeSet;
use vstd::prelude::*;
use vstd::std_specs::btree::{increasing_seq, spec_btree_keys_iter};
use vstd::std_specs::iter::IteratorSpec;

verus! {

/// The bags of `old` thresholds that are no bags of `new` ones.
pub open spec fn removed_bags(old: Seq<VoteWeight>, new: Seq<VoteWeight>) -> Set<VoteWeight> {
    Set::new(|upper: VoteWeight| is_bag(old, upper) && !is_bag(new, upper))
}

/// The bags whose voters the change from `old` to `new` thresholds concerns: those that are removed,
/// and those who were, by the old thresholds, the bag for a threshold that is inserted. The greatest
/// vote weight ends the thresholds whether or not they list it, so it is neither removed nor
/// inserted.
pub open spec fn affected_bags(old: Seq<VoteWeight>, new: Seq<VoteWeight>) -> Set<VoteWeight> {
    Set::new(
        |upper: VoteWeight|
            {
                ||| removed_bags(old, new).contains(upper)
                ||| exists|inserted: VoteWeight|
                    {
                        &&& removed_bags(new, old).contains(inserted)
                        &&& #[trigger] notional_bag(old, inserted) == upper
                    }
            },
    )
}

/// All the voters in some of the bags.
pub open spec fn voters_of<A>(lines: Map<VoteWeight, Seq<A>>, bags: Set<VoteWeight>) -> Set<A> {
    Set::new(
        |id: A|
            exists|upper: VoteWeight|
                bags.contains(upper) && #[trigger] line(lines, upper).contains(id),
    )
}

/// Following the links of any bag that the change from `old` to `new` thresholds concerns comes to an
/// end.
pub open spec fn affected_end<A>(
    c: Contents<A>,
    old: Seq<VoteWeight>,
    new: Seq<VoteWeight>,
) -> bool {
    forall|upper: VoteWeight| #[trigger]
        affected_bags(old, new).contains(upper) ==> walk_ends(c.nodes, c.bag_or_new(upper).head)
}

/// `after` is `before` with exactly the voters of the affected bags removed and then inserted again,
/// in the order of their ids, each with its weight and by the new thresholds.
pub open spec fn rebagged<A>(
    before: Contents<A>,
    after: Contents<A>,
    old: Seq<VoteWeight>,
    new: Seq<VoteWeight>,
    voters: Seq<A>,
    weights: Seq<VoteWeight>,
) -> bool {
    &&& voters.to_set() == voters_of(before.lines(), affected_bags(old, new))
    &&& voters.no_duplicates()
    &&& increasing_seq(voters)
    &&& weights.len() == voters.len()
    &&& after == before.all_removed(voters).all_inserted(new, voters, weights)
}

/// The removed bags are the difference of all bags.
proof fn lemma_removed_bags(old: Seq<VoteWeight>, new: Seq<VoteWeight>)
    ensures
        removed_bags(old, new) == all_uppers(old).to_set().difference(all_uppers(new).to_set()),
{
    lemma_all_uppers(old);
    lemma_all_uppers(new);
    let difference = all_uppers(old).to_set().difference(all_uppers(new).to_set());
    assert forall|upper: VoteWeight| #[trigger]
        removed_bags(old, new).contains(upper) <==> difference.contains(upper) by {
        assert(all_uppers(old).contains(upper) <==> is_bag(old, upper));
        assert(all_uppers(new).contains(upper) <==> is_bag(new, upper));
    }
    assert(removed_bags(old, new) =~= difference);
}

/// The voters of some bags and of one more.
proof fn lemma_one_more_bag<A>(
    lines: Map<VoteWeight, Seq<A>>,
    bags: Set<VoteWeight>,
    upper: VoteWeight,
)
    ensures
        voters_of(lines, bags.insert(upper)) == voters_of(lines, bags).union(
            line(lines, upper).to_set(),
        ),
{
    let more = voters_of(lines, bags.insert(upper));
    let both = voters_of(lines, bags).union(line(lines, upper).to_set());
    assert forall|id: A| #[trigger] more.contains(id) <==> both.contains(id) by {
        if more.contains(id) {
            let u = choose|u: VoteWeight|
                bags.insert(upper).contains(u) && #[trigger] line(lines, u).contains(id);
            if u != upper {
                assert(bags.contains(u) && line(lines, u).contains(id));
            }
        }
        if voters_of(lines, bags).contains(id) {
            let u = choose|u: VoteWeight|
                bags.contains(u) && #[trigger] line(lines, u).contains(id);
            assert(bags.insert(upper).contains(u) && line(lines, u).contains(id));
        }
        if line(lines, upper).contains(id) {
            assert(bags.insert(upper).contains(upper));
        }
    }
    assert(more =~= both);
}

/// Where the links are sound, the voters of some bags are voters of the list.
pub proof fn lemma_affected_are_voters<A>(c: Contents<A>, bags: Set<VoteWeight>)
    requires
        c.linked(),
    ensures
        voters_of(c.lines(), bags).subset_of(c.nodes.dom()),
        voters_of(c.lines(), bags).len() <= c.nodes.dom().len(),
{
    let lines = c.lines();
    assert forall|id: A| #[trigger] voters_of(lines, bags).contains(id) implies c.nodes.contains_key(
        id,
    ) by {
        let u = choose|u: VoteWeight| bags.contains(u) && #[trigger] line(lines, u).contains(id);
        assert(lines.contains_key(u));
        let i = choose|i: int| 0 <= i < lines[u].len() && lines[u][i] == id;
        assert(chain(c.nodes, lines[u], u, c.bags[u].head, c.bags[u].tail));
        assert(c.nodes[lines[u][i]] == link(lines[u], i, u));
    }
    vstd::set_lib::lemma_len_subset(voters_of(lines, bags), c.nodes.dom());
}

/// Where the links are sound, following the links of any bag ends.
proof fn lemma_affected_end<A>(c: Contents<A>, old: Seq<VoteWeight>, new: Seq<VoteWeight>)
    requires
        c.linked(),
    ensures
        affected_end(c, old, new),
{
    assert forall|upper: VoteWeight| #[trigger] affected_bags(old, new).contains(
        upper,
    ) implies walk_ends(c.nodes, c.bag_or_new(upper).head) by {
        lemma_linked_ends(c, seq![upper]);
        assert(seq![upper][0] == upper);
        assert(is_bag(seq![upper], upper));
    }
}

/// Migrating takes the voters of the affected bags, and nobody else, out of their bags and puts each
/// at the end of the bag for its weight, in the order of the ids.
pub proof fn law_migrate_rebags_the_affected<A>(
    before: Contents<A>,
    after: Contents<A>,
    old: Seq<VoteWeight>,
    new: Seq<VoteWeight>,
    voters: Seq<A>,
    weights: Seq<VoteWeight>,
)
    requires
        before.linked(),
        rebagged(before, after, old, new, voters, weights),
    ensures
        after.linked(),
        after.lines() == all_joined(
            all_left(before.lines(), voters.to_set()),
            new,
            voters,
            weights,
        ),
        after.nodes.dom() == before.nodes.dom(),
        before.counted() ==> after.counted(),
{
    let thinner = before.all_removed(voters);
    let gone = voters.to_set();
    law_remove_leaves_the_others(before, voters);
    lemma_affected_are_voters(before, affected_bags(old, new));
    assert forall|i: int| 0 <= i < voters.len() implies !thinner.nodes.contains_key(
        #[trigger] voters[i],
    ) by {
        assert(gone.contains(voters[i]));
    }
    law_insert_many_joins_in_turn(thinner, new, voters, weights);
    assert(thinner.nodes.dom().union(gone) =~= before.nodes.dom());
    lemma_all_inserted_counter(thinner, new, voters, weights);
    voters.unique_seq_to_set();
    assert(before.nodes.dom().intersect(gone) =~= gone);
}

/// The bags after some voters joined are those from before and those for the weights.
proof fn lemma_bags_joined<A>(
    lines: Map<VoteWeight, Seq<A>>,
    thresholds: Seq<VoteWeight>,
    voters: Seq<A>,
    weights: Seq<VoteWeight>,
    upper: VoteWeight,
)
    requires
        weights.len() == voters.len(),
        all_joined(lines, thresholds, voters, weights).contains_key(upper),
    ensures
        lines.contains_key(upper) || exists|i: int|
            0 <= i < weights.len() && notional_bag(thresholds, #[trigger] weights[i]) == upper,
    decreases voters.len(),
{
    if voters.len() > 0 {
        if notional_bag(thresholds, weights.last()) == upper {
            assert(notional_bag(thresholds, weights[weights.len() - 1]) == upper);
        } else {
            let rest = weights.drop_last();
            lemma_bags_joined(lines, thresholds, voters.drop_last(), rest, upper);
            if !lines.contains_key(upper) {
                let i = choose|i: int|
                    0 <= i < rest.len() && notional_bag(thresholds, #[trigger] rest[i]) == upper;
                assert(notional_bag(thresholds, weights[i]) == upper);
            }
        }
    }
}

/// Once its voters are rebagged, a removed bag is stored no more.
proof fn lemma_removed_bags_are_gone<A>(
    before: Contents<A>,
    after: Contents<A>,
    old: Seq<VoteWeight>,
    new: Seq<VoteWeight>,
    voters: Seq<A>,
    weights: Seq<VoteWeight>,
)
    requires
        before.linked(),
        sorted(new),
        rebagged(before, after, old, new, voters, weights),
    ensures
        after.bags.remove_keys(removed_bags(old, new)) == after.bags,
{
    law_migrate_rebags_the_affected(before, after, old, new, voters, weights);
    let gone = voters.to_set();
    let lines = before.lines();
    let left = all_left(lines, gone);
    assert forall|upper: VoteWeight| #[trigger] removed_bags(old, new).contains(upper) implies
        !after.bags.contains_key(upper) by {
        if after.bags.contains_key(upper) {
            assert(after.lines().contains_key(upper));
            lemma_bags_joined(left, new, voters, weights, upper);
            if left.contains_key(upper) {
                let s = staying(lines[upper], gone);
                lemma_staying(lines[upper], gone);
                assert(s.contains(s[0]));
                assert(affected_bags(old, new).contains(upper));
                assert(line(lines, upper).contains(s[0]));
                assert(voters_of(lines, affected_bags(old, new)).contains(s[0]));
            } else {
                let i = choose|i: int|
                    0 <= i < weights.len() && notional_bag(new, #[trigger] weights[i]) == upper;
                law_notional_bag_is_least(new, weights[i]);
            }
        }
    }
    assert(after.bags.remove_keys(removed_bags(old, new)) =~= after.bags);
}

/// The set of the given weights.
fn set_of(weights: &[VoteWeight]) -> (r: BTreeSet<VoteWeight>)
    ensures
        r@ == weights@.to_set(),
{
    proof {
        lemma_weights_ordered();
    }
    let mut set: BTreeSet<VoteWeight> = BTreeSet::new();
    let mut i: usize = 0;
    assert(weights@.take(0).to_set() =~= Set::empty());
    while i < weights.len()
        invariant
            ordered::<VoteWeight>(),
            i <= weights@.len(),
            set@ == weights@.take(i as int).to_set(),
        decreases weights@.len() - i,
    {
        set.insert(weights[i]);
        proof {
            lemma_take_one_more(weights@, i as int);
        }
        i += 1;
    }
    assert(weights@.take(weights@.len() as int) =~= weights@);
    set
}

/// The members of a set, in order.
fn in_order<A: AccountId>(set: &BTreeSet<A>) -> (r: Vec<A>)
    ensures
        r@.to_set() == set@,
        r@.no_duplicates(),
        r@.len() == set@.len(),
        increasing_seq(r@),
{
    proof {
        A::lawful();
    }
    let ghost order = spec_btree_keys_iter(set).remaining();
    let mut members: Vec<A> = Vec::new();
    for member in it: set.iter()
        invariant
            it.seq() == order,
            members@.len() == it.index(),
            forall|i: int| 0 <= i < members@.len() ==> #[trigger] members@[i] == *order[i],
    {
        members.push(copy_id(member));
    }
    proof {
        assert(members@ =~= order.unref());
        lemma_increasing_values(order);
    }
    members
}

/// The members of `these` that are not among `those`, in order.
fn difference(these: &BTreeSet<VoteWeight>, those: &BTreeSet<VoteWeight>) -> (r: Vec<VoteWeight>)
    ensures
        r@.to_set() == these@.difference(those@),
{
    proof {
        lemma_weights_ordered();
    }
    let members = in_order(these);
    let mut rest: Vec<VoteWeight> = Vec::new();
    let mut i: usize = 0;
    assert(members@.take(0).to_set() =~= Set::empty());
    assert(rest@.to_set() =~= members@.take(0).to_set().difference(those@));
    while i < members.len()
        invariant
            ordered::<VoteWeight>(),
            i <= members@.len(),
            rest@.to_set() == members@.take(i as int).to_set().difference(those@),
        decreases members@.len() - i,
    {
        proof {
            lemma_take_one_more(members@, i as int);
        }
        let ghost before = rest@;
        if !those.contains(&members[i]) {
            rest.push(members[i]);
            proof {
                lemma_push_to_set(before, members@[i as int]);
            }
        }
        i += 1;
        assert(rest@.to_set() =~= members@.take(i as int).to_set().difference(those@));
    }
    assert(members@.take(members@.len() as int) =~= members@);
    rest
}

impl<A: AccountId> List<A> {
    /// Add the voters of the bag `upper` to `accounts`.
    fn gather(&self, upper: VoteWeight, accounts: &mut BTreeSet<A>)
        requires
            walk_ends(self@.nodes, self@.bag_or_new(upper).head),
        ensures
            final(accounts)@ == old(accounts)@.union(line(self@.lines(), upper).to_set()),
    {
        proof {
            A::lawful();
        }
        let ghost before = accounts@;
        match Bag::stored_at(self, upper) {
            Some(bag) => {
                let nodes = bag.iter(self);
                let ghost voters = line(self@.lines(), upper);
                let mut i: usize = 0;
                assert(voters.take(0).to_set() =~= Set::empty());
                assert(accounts@ =~= before.union(voters.take(0).to_set()));
                while i < nodes.len()
                    invariant
                        ordered::<A>(),
                        i <= nodes@.len(),
                        voters == ids(nodes@),
                        accounts@ == before.union(voters.take(i as int).to_set()),
                    decreases nodes@.len() - i,
                {
                    accounts.insert(copy_id(&nodes[i].id));
                    proof {
                        lemma_take_one_more(voters, i as int);
                    }
                    i += 1;
                    assert(accounts@ =~= before.union(voters.take(i as int).to_set()));
                }
                assert(voters.take(voters.len() as int) =~= voters);
            },
            None => {
                assert(accounts@ =~= before.union(line(self@.lines(), upper).to_set()));
            },
        }
    }

    /// The voters of the bags that the change from `old_thresholds` to the thresholds of the list
    /// concerns.
    fn affected(
        &self,
        old_thresholds: &[VoteWeight],
        inserted: &Vec<VoteWeight>,
        removed: &Vec<VoteWeight>,
    ) -> (r: BTreeSet<A>)
        requires
            affected_end(self@, old_thresholds@, self.bag_thresholds@),
            sorted(old_thresholds@),
            inserted@.to_set() == removed_bags(self.bag_thresholds@, old_thresholds@),
            removed@.to_set() == removed_bags(old_thresholds@, self.bag_thresholds@),
        ensures
            r@ == voters_of(
                self@.lines(),
                affected_bags(old_thresholds@, self.bag_thresholds@),
            ),
    {
        proof {
            lemma_weights_ordered();
        }
        let ghost lines = self@.lines();
        let ghost old = old_thresholds@;
        let ghost new = self.bag_thresholds@;
        let mut affected_accounts: BTreeSet<A> = BTreeSet::new();
        let mut affected_old_bags: BTreeSet<VoteWeight> = BTreeSet::new();
        assert(affected_accounts@ =~= voters_of(lines, affected_old_bags@));

        // a new bag means that all accounts previously using the old bag's threshold must now
        // be rebagged
        let mut i: usize = 0;
        while i < inserted.len()
            invariant
                ordered::<VoteWeight>(),
                affected_end(self@, old, new),
                lines == self@.lines(),
                old == old_thresholds@,
                new == self.bag_thresholds@,
                inserted@.to_set() == removed_bags(new, old),
                sorted(old),
                i <= inserted@.len(),
                affected_accounts@ == voters_of(lines, affected_old_bags@),
                forall|upper: VoteWeight| #[trigger]
                    affected_old_bags@.contains(upper) <==> exists|j: int|
                        0 <= j < i && notional_bag(old, #[trigger] inserted@[j]) == upper,
            decreases inserted@.len() - i,
        {
            let affected_bag: VoteWeight = notional_bag_for(old_thresholds, inserted[i]);
            let ghost before = affected_old_bags@;
            proof {
                let threshold = inserted@[i as int];
                assert(inserted@.to_set().contains(threshold));
                assert(notional_bag(old, threshold) == affected_bag);
                assert(affected_bags(old, new).contains(affected_bag));
            }
            i += 1;
            // If the previous threshold list was [10, 20], and we insert [3, 5], then there's
            // no point iterating through bag 10 twice.
            let is_new = affected_old_bags.insert(affected_bag);
            if is_new {
                self.gather(affected_bag, &mut affected_accounts);
                proof {
                    lemma_one_more_bag(lines, before, affected_bag);
                }
            }
            proof {
                assert(is_new || affected_old_bags@ =~= before);
                assert(notional_bag(old, inserted@[i - 1]) == affected_bag);
            }
        }
        let ghost from_inserted = affected_old_bags@;

        // a removed bag means that all members of that bag must be rebagged
        let mut i: usize = 0;
        assert(removed@.take(0).to_set() =~= Set::empty());
        assert(affected_old_bags@ =~= from_inserted.union(removed@.take(0).to_set()));
        while i < removed.len()
            invariant
                ordered::<VoteWeight>(),
                affected_end(self@, old, new),
                lines == self@.lines(),
                removed@.to_set() == removed_bags(old, new),
                i <= removed@.len(),
                affected_accounts@ == voters_of(lines, affected_old_bags@),
                affected_old_bags@ == from_inserted.union(removed@.take(i as int).to_set()),
            decreases removed@.len() - i,
        {
            let removed_bag: VoteWeight = removed[i];
            let ghost before = affected_old_bags@;
            proof {
                lemma_take_one_more(removed@, i as int);
                assert(removed@.to_set().contains(removed_bag));
                assert(affected_bags(old, new).contains(removed_bag));
            }
            i += 1;
            let is_new = affected_old_bags.insert(removed_bag);
            if is_new {
                self.gather(removed_bag, &mut affected_accounts);
                proof {
                    lemma_one_more_bag(lines, before, removed_bag);
                }
            }
            proof {
                assert(is_new || affected_old_bags@ =~= before);
                assert(affected_old_bags@ =~= from_inserted.union(
                    removed@.take(i as int).to_set(),
                ));
            }
        }
        proof {
            assert(removed@.take(removed@.len() as int) =~= removed@);
            assert forall|upper: VoteWeight| #[trigger] affected_old_bags@.contains(upper)
                <==> affected_bags(old, new).contains(upper) by {
                if from_inserted.contains(upper) {
                    let j = choose|j: int|
                        0 <= j < inserted@.len() && notional_bag(old, #[trigger] inserted@[j])
                            == upper;
                    assert(inserted@.to_set().contains(inserted@[j]));
                }
                if exists|t: VoteWeight|
                    removed_bags(new, old).contains(t) && #[trigger] notional_bag(old, t) == upper {
                    let t = choose|t: VoteWeight|
                        removed_bags(new, old).contains(t) && #[trigger] notional_bag(old, t)
                            == upper;
                    assert(inserted@.to_set().contains(t));
                    let j = choose|j: int| 0 <= j < inserted@.len() && inserted@[j] == t;
                    assert(notional_bag(old, inserted@[j]) == upper);
                }
            }
            assert(affected_old_bags@ =~= affected_bags(old, new));
        }
        affected_accounts
    }

    /// Drop the bags with these thresholds.
    fn drop_bags(&mut self, removed: &Vec<VoteWeight>)
        ensures
            final(self)@ == (Contents {
                bags: old(self)@.bags.remove_keys(removed@.to_set()),
                ..old(self)@
            }),
            final(self).bag_thresholds == old(self).bag_thresholds,
    {
        proof {
            lemma_weights_ordered();
        }
        let mut i: usize = 0;
        assert(removed@.take(0).to_set() =~= Set::empty());
        assert(self@.bags.remove_keys(removed@.take(0).to_set()) =~= self@.bags);
        while i < removed.len()
            invariant
                ordered::<VoteWeight>(),
                i <= removed@.len(),
                self@ == (Contents {
                    bags: old(self)@.bags.remove_keys(removed@.take(i as int).to_set()),
                    ..old(self)@
                }),
                self.bag_thresholds == old(self).bag_thresholds,
            decreases removed@.len() - i,
        {
            self.voter_bags.remove(&removed[i]);
            proof {
                lemma_take_one_more(removed@, i as int);
            }
            i += 1;
            assert(self@.bags =~= old(self)@.bags.remove_keys(removed@.take(i as int).to_set()));
        }
        assert(removed@.take(removed@.len() as int) =~= removed@);
    }

    /// Migrate the voter list from one set of thresholds to another.
    ///
    /// `old_thresholds` is the previous list of thresholds, and all bags in the list are bags of it;
    /// the thresholds of the list have already been updated.
    ///
    /// Returns the number of accounts affected: those in a bag whose threshold is no more, or which
    /// was the bag for a threshold that is new. They alone are rebagged, into the appropriate bag in
    /// the new threshold set.
    pub fn migrate<F: Fn(&A) -> VoteWeight>(
        &mut self,
        old_thresholds: &[VoteWeight],
        weight_of: F,
    ) -> (r: u32)
        requires
            sorted(old_thresholds@),
            sorted(old(self).bag_thresholds@),
            old(self)@.bagged_by(old_thresholds@),
            old(self)@.linked() || affected_end(
                old(self)@,
                old_thresholds@,
                old(self).bag_thresholds@,
            ),
            old(self)@.linked() && old(self)@.nodes.dom().len() <= u32::MAX || voters_of(
                old(self)@.lines(),
                affected_bags(old_thresholds@, old(self).bag_thresholds@),
            ).len() <= u32::MAX,
            forall|id: A| #[trigger]
                voters_of(
                    old(self)@.lines(),
                    affected_bags(old_thresholds@, old(self).bag_thresholds@),
                ).contains(id) ==> call_requires(weight_of, (&id,)),
        ensures
            r == voters_of(
                old(self)@.lines(),
                affected_bags(old_thresholds@, old(self).bag_thresholds@),
            ).len(),
            final(self).bag_thresholds == old(self).bag_thresholds,
            old(self)@.linked() ==> final(self)@.bagged_by(old(self).bag_thresholds@),
            forall|upper: VoteWeight| #[trigger]
                final(self)@.bags.contains_key(upper) ==> upper == VoteWeight::MAX
                    || !old_thresholds@.contains(upper) || old(self).bag_thresholds@.contains(
                    upper,
                ),
            old(self)@.linked() && old(self)@.counted() ==> final(self)@.counted(),
            exists|voters: Seq<A>, weights: Seq<VoteWeight>, after: Contents<A>|
                {
                    &&& r == voters.len()
                    &&& #[trigger] weighed(weight_of, voters, weights)
                    &&& #[trigger] rebagged(
                        old(self)@,
                        after,
                        old_thresholds@,
                        old(self).bag_thresholds@,
                        voters,
                        weights,
                    )
                    &&& final(self)@ == (Contents {
                        bags: after.bags.remove_keys(
                            removed_bags(old_thresholds@, old(self).bag_thresholds@),
                        ),
                        ..after
                    })
                    &&& old(self)@.linked() ==> {
                        &&& final(self)@ == after
                        &&& after.linked()
                        &&& after.lines() == all_joined(
                            all_left(old(self)@.lines(), voters.to_set()),
                            old(self).bag_thresholds@,
                            voters,
                            weights,
                        )
                        &&& after.nodes.dom() == old(self)@.nodes.dom()
                    }
                },
    {
        let ghost start = self@;
        let ghost old = old_thresholds@;
        let ghost new = self.bag_thresholds@;
        proof {
            if start.linked() {
                lemma_affected_end(start, old, new);
                lemma_affected_are_voters(start, affected_bags(old, new));
            }
        }
        let old_set = set_of(&uppers_of(old_thresholds));
        let new_set = set_of(&uppers_of(&self.bag_thresholds));
        let inserted = difference(&new_set, &old_set);
        let removed = difference(&old_set, &new_set);
        proof {
            lemma_removed_bags(old, new);
            lemma_removed_bags(new, old);
        }
        let affected_accounts = self.affected(old_thresholds, &inserted, &removed);
        let voters = in_order(&affected_accounts);
        let ghost ids = voters@;
        assert forall|i: int| 0 <= i < ids.len() implies call_requires(
            weight_of,
            (&#[trigger] ids[i],),
        ) by {
            assert(ids.to_set().contains(ids[i]));
        }
        self.remove_many(&voters);
        let ghost thinner = self@;
        let num_affected: u32 = voters.len() as u32;
        self.insert_many(voters, weight_of);
        let ghost after = self@;
        let ghost weights = choose|weights: Seq<VoteWeight>|
            {
                &&& #[trigger] weighed(weight_of, ids, weights)
                &&& after == thinner.all_inserted(new, ids, weights)
            };
        proof {
            assert(rebagged(start, after, old, new, ids, weights));
            if start.linked() {
                law_migrate_rebags_the_affected(start, after, old, new, ids, weights);
                law_migrate_keeps_to_the_thresholds(start, after, old, new, ids, weights);
            }
        }

        // now that no voter needs the removed bags, we can get rid of them.
        self.drop_bags(&removed);
        proof {
            if start.linked() {
                lemma_removed_bags_are_gone(start, after, old, new, ids, weights);
            }
        }
        num_affected
    }
}

/// A line that nobody leaves stays as it is.
proof fn lemma_all_stay<A>(s: Seq<A>, gone: Set<A>)
    requires
        forall|id: A| #[trigger] s.contains(id) ==> !gone.contains(id),
    ensures
        staying(s, gone) == s,
    decreases s.len(),
{
    reveal(Seq::filter);
    if s.len() > 0 {
        assert(s.contains(s[s.len() - 1]));
        assert forall|id: A| #[trigger] s.drop_last().contains(id) implies !gone.contains(id) by {
            let i = choose|i: int| 0 <= i < s.drop_last().len() && s.drop_last()[i] == id;
            assert(s[i] == id);
            assert(s.contains(id));
        }
        lemma_all_stay(s.drop_last(), gone);
        assert(s.drop_last().push(s.last()) =~= s);
    }
}

/// Nobody leaves a bag that the migration does not concern.
proof fn lemma_unaffected<A>(
    before: Contents<A>,
    old: Seq<VoteWeight>,
    new: Seq<VoteWeight>,
    gone: Set<A>,
    upper: VoteWeight,
)
    requires
        before.linked(),
        gone == voters_of(before.lines(), affected_bags(old, new)),
        !affected_bags(old, new).contains(upper),
    ensures
        line(all_left(before.lines(), gone), upper) == line(before.lines(), upper),
{
    let s = line(before.lines(), upper);
    assert forall|id: A| #[trigger] s.contains(id) implies !gone.contains(id) by {
        if gone.contains(id) {
            let u = choose|u: VoteWeight|
                affected_bags(old, new).contains(u) && #[trigger] line(
                    before.lines(),
                    u,
                ).contains(id);
            law_one_bag_each(before, id, u);
            law_one_bag_each(before, id, upper);
        }
    }
    lemma_all_stay(s, gone);
}

/// No voter is changed unless required to by the difference between the old thresholds and the new:
/// in a bag that it does not concern, everybody keeps their place.
pub proof fn law_migrate_keeps_the_unaffected<A>(
    before: Contents<A>,
    after: Contents<A>,
    old: Seq<VoteWeight>,
    new: Seq<VoteWeight>,
    voters: Seq<A>,
    weights: Seq<VoteWeight>,
    upper: VoteWeight,
)
    requires
        before.linked(),
        rebagged(before, after, old, new, voters, weights),
        !affected_bags(old, new).contains(upper),
    ensures
        line(before.lines(), upper).is_prefix_of(line(after.lines(), upper)),
{
    law_migrate_rebags_the_affected(before, after, old, new, voters, weights);
    lemma_unaffected(before, old, new, voters.to_set(), upper);
    lemma_joined_members(
        all_left(before.lines(), voters.to_set()),
        new,
        voters,
        weights,
        upper,
    );
}

/// Where the thresholds name the same bags as before, in whatever order, however often each is listed
/// and whether or not the greatest vote weight is, nobody is affected and nothing changes.
pub proof fn law_migrate_without_difference<A>(
    before: Contents<A>,
    after: Contents<A>,
    old: Seq<VoteWeight>,
    new: Seq<VoteWeight>,
    voters: Seq<A>,
    weights: Seq<VoteWeight>,
)
    requires
        all_uppers(old).to_set() == all_uppers(new).to_set(),
        rebagged(before, after, old, new, voters, weights),
    ensures
        voters.len() == 0,
        after == before,
        removed_bags(old, new) == Set::<VoteWeight>::empty(),
{
    lemma_removed_bags(old, new);
    lemma_removed_bags(new, old);
    assert(removed_bags(old, new) =~= Set::empty());
    assert(removed_bags(new, old) =~= Set::empty());
    assert(affected_bags(old, new) =~= Set::empty());
    assert(voters.to_set() =~= Set::empty());
    if voters.len() > 0 {
        assert(voters.to_set().contains(voters[0]));
    }
    assert(settled(before.bags, Map::empty(), Set::empty()) =~= before.bags);
    assert(after =~= before);
}

/// A bag that the change of thresholds does not concern is the bag for the same weights as before.
proof fn lemma_same_bag(
    old: Seq<VoteWeight>,
    new: Seq<VoteWeight>,
    weight: VoteWeight,
)
    requires
        sorted(old),
        sorted(new),
        !affected_bags(old, new).contains(notional_bag(old, weight)),
    ensures
        notional_bag(new, weight) == notional_bag(old, weight),
{
    let upper = notional_bag(old, weight);
    let found = notional_bag(new, weight);
    law_notional_bag_is_least(old, weight);
    law_notional_bag_is_least(new, weight);
    assert(is_bag(old, upper));
    assert(is_bag(new, upper));
    assert(is_bag(new, found));
    if found < upper {
        assert(!is_bag(old, found));
        assert(removed_bags(new, old).contains(found));
        law_notional_bag_is_least(old, found);
        assert(is_bag(old, notional_bag(old, found)));
        assert(notional_bag(old, found) == upper);
    }
}

/// Voters whose bags change are rebagged into the appropriate bag in the new threshold set: if every
/// voter stood in the bag for its weight by the old thresholds, every voter stands in the bag for its
/// weight by the new ones.
pub proof fn law_migrate_places_everybody<A>(
    before: Contents<A>,
    after: Contents<A>,
    old: Seq<VoteWeight>,
    new: Seq<VoteWeight>,
    voters: Seq<A>,
    weights: Seq<VoteWeight>,
    weight: spec_fn(A) -> VoteWeight,
)
    requires
        before.linked(),
        sorted(old),
        sorted(new),
        rebagged(before, after, old, new, voters, weights),
        forall|i: int| 0 <= i < voters.len() ==> #[trigger] weights[i] == weight(voters[i]),
        placed(before, old, weight),
    ensures
        placed(after, new, weight),
{
    law_migrate_rebags_the_affected(before, after, old, new, voters, weights);
    let gone = voters.to_set();
    let left = all_left(before.lines(), gone);
    assert forall|id: A| #[trigger] after.nodes.contains_key(id) implies after.nodes[id].bag_upper
        == notional_bag(new, weight(id)) by {
        let upper = after.nodes[id].bag_upper;
        law_one_bag_each(after, id, upper);
        lemma_joined_members(left, new, voters, weights, upper);
        assert(line(after.lines(), upper).contains(id));
        if line(left, upper).contains(id) {
            lemma_staying(before.lines()[upper], gone);
            assert(line(before.lines(), upper).contains(id));
            law_one_bag_each(before, id, upper);
            assert(!affected_bags(old, new).contains(upper));
            lemma_same_bag(old, new, weight(id));
        } else {
            let i = choose|i: int|
                0 <= i < voters.len() && #[trigger] voters[i] == id && notional_bag(
                    new,
                    weights[i],
                ) == upper;
            assert(weights[i] == weight(voters[i]));
        }
    }
}

/// If all bags in the list were bags of the old thresholds, all bags are bags of the new ones
/// afterwards.
pub proof fn law_migrate_keeps_to_the_thresholds<A>(
    before: Contents<A>,
    after: Contents<A>,
    old: Seq<VoteWeight>,
    new: Seq<VoteWeight>,
    voters: Seq<A>,
    weights: Seq<VoteWeight>,
)
    requires
        before.linked(),
        sorted(old),
        sorted(new),
        rebagged(before, after, old, new, voters, weights),
        before.bagged_by(old),
    ensures
        after.bagged_by(new),
{
    law_migrate_rebags_the_affected(before, after, old, new, voters, weights);
    let gone = voters.to_set();
    let lines = before.lines();
    let left = all_left(lines, gone);
    assert forall|upper: VoteWeight| #[trigger] after.bags.contains_key(upper) implies is_bag(
        new,
        upper,
    ) by {
        assert(after.lines().contains_key(upper));
        lemma_bags_joined(left, new, voters, weights, upper);
        if left.contains_key(upper) {
            let s = staying(lines[upper], gone);
            lemma_staying(lines[upper], gone);
            assert(s.contains(s[0]));
            assert(line(lines, upper).contains(s[0]));
            assert(!affected_bags(old, new).contains(upper));
            assert(before.bags.contains_key(upper));
        } else {
            let i = choose|i: int|
                0 <= i < weights.len() && notional_bag(new, #[trigger] weights[i]) == upper;
            law_notional_bag_is_least(new, weights[i]);
        }
    }
}

/// The change from `old` to `new` thresholds concerns the bag `upper` of the old ones: the new
/// thresholds have no such bag, or one of them that the old ones lack lies in its range, which reaches
/// from above the next lesser old bag up to `upper`.
pub open spec fn concerned(old: Seq<VoteWeight>, new: Seq<VoteWeight>, upper: VoteWeight) -> bool {
    &&& is_bag(old, upper)
    &&& !is_bag(new, upper) || exists|inserted: VoteWeight|
        {
            &&& #[trigger] is_bag(new, inserted)
            &&& !is_bag(old, inserted)
            &&& inserted <= upper
            &&& forall|lesser: VoteWeight| #[trigger]
                is_bag(old, lesser) && lesser < upper ==> lesser < inserted
        }
}

/// The affected bags are those that the change of thresholds concerns, by the order of the thresholds
/// alone.
pub proof fn law_affected_bags_are_those_concerned(
    old: Seq<VoteWeight>,
    new: Seq<VoteWeight>,
    upper: VoteWeight,
)
    requires
        sorted(old),
    ensures
        affected_bags(old, new).contains(upper) <==> concerned(old, new, upper),
{
    if affected_bags(old, new).contains(upper) && !removed_bags(old, new).contains(upper) {
        let inserted = choose|inserted: VoteWeight|
            removed_bags(new, old).contains(inserted) && #[trigger] notional_bag(old, inserted)
                == upper;
        law_notional_bag_is_least(old, inserted);
        assert(is_bag(new, inserted));
    }
    if concerned(old, new, upper) && is_bag(new, upper) {
        let inserted = choose|inserted: VoteWeight|
            {
                &&& #[trigger] is_bag(new, inserted)
                &&& !is_bag(old, inserted)
                &&& inserted <= upper
                &&& forall|lesser: VoteWeight| #[trigger]
                    is_bag(old, lesser) && lesser < upper ==> lesser < inserted
            };
        law_notional_bag_is_least(old, inserted);
        assert(is_bag(old, notional_bag(old, inserted)));
        assert(removed_bags(new, old).contains(inserted));
        assert(notional_bag(old, inserted) == upper);
    }
}

/// Whoever is rebagged is met on the way through a bag that the change concerns, and whoever is met
/// there is rebagged, once, in the order of the ids: removed with the others, and then inserted with
/// them.
pub proof fn law_migrate_rebags_whom_it_concerns<A>(
    before: Contents<A>,
    after: Contents<A>,
    old: Seq<VoteWeight>,
    new: Seq<VoteWeight>,
    voters: Seq<A>,
    weights: Seq<VoteWeight>,
    id: A,
)
    requires
        sorted(old),
        rebagged(before, after, old, new, voters, weights),
    ensures
        voters.contains(id) <==> exists|upper: VoteWeight|
            {
                &&& concerned(old, new, upper)
                &&& #[trigger] before.bags.contains_key(upper)
                &&& exists|i: int|
                    0 <= i < traversal(before.nodes, before.bags[upper].head).len()
                        && (#[trigger] traversal(before.nodes, before.bags[upper].head)[i]).id == id
            },
        before.linked() ==> (voters.contains(id) <==> before.nodes.contains_key(id) && concerned(
            old,
            new,
            before.nodes[id].bag_upper,
        )),
        increasing_seq(voters),
        forall|i: int, j: int| 0 <= i < j < voters.len() ==> voters[i] != voters[j],
        weights.len() == voters.len(),
        after == before.all_removed(voters).all_inserted(new, voters, weights),
{
    let bags = affected_bags(old, new);
    let lines = before.lines();
    assert(voters.contains(id) <==> voters.to_set().contains(id));
    if voters.contains(id) {
        let upper = choose|upper: VoteWeight|
            bags.contains(upper) && #[trigger] line(lines, upper).contains(id);
        law_affected_bags_are_those_concerned(old, new, upper);
        law_lines_are_the_ways(before, upper);
        assert(before.bags.contains_key(upper));
        let way = traversal(before.nodes, before.bags[upper].head);
        let i = choose|i: int| 0 <= i < lines[upper].len() && lines[upper][i] == id;
        assert(way[i].id == id);
        if before.linked() {
            law_one_bag_each(before, id, upper);
        }
    }
    if exists|upper: VoteWeight|
        {
            &&& concerned(old, new, upper)
            &&& #[trigger] before.bags.contains_key(upper)
            &&& exists|i: int|
                0 <= i < traversal(before.nodes, before.bags[upper].head).len()
                    && (#[trigger] traversal(before.nodes, before.bags[upper].head)[i]).id == id
        } {
        let upper = choose|upper: VoteWeight|
            {
                &&& concerned(old, new, upper)
                &&& #[trigger] before.bags.contains_key(upper)
                &&& exists|i: int|
                    0 <= i < traversal(before.nodes, before.bags[upper].head).len()
                        && (#[trigger] traversal(before.nodes, before.bags[upper].head)[i]).id == id
            };
        let way = traversal(before.nodes, before.bags[upper].head);
        let i = choose|i: int| 0 <= i < way.len() && (#[trigger] way[i]).id == id;
        law_affected_bags_are_those_concerned(old, new, upper);
        law_lines_are_the_ways(before, upper);
        assert(lines[upper][i] == id);
        assert(line(lines, upper).contains(id));
        assert(voters.to_set().contains(id));
    }
    if before.linked() && before.nodes.contains_key(id) && concerned(
        old,
        new,
        before.nodes[id].bag_upper,
    ) {
        let upper = before.nodes[id].bag_upper;
        law_affected_bags_are_those_concerned(old, new, upper);
        law_one_bag_each(before, id, upper);
        assert(line(lines, upper).contains(id));
        assert(voters.to_set().contains(id));
    }
}

/// Nobody moves without need: where the old and the new thresholds both have a bag, and no threshold
/// that is new lies in its old range, none of its voters is rebagged or counted, and they stand at the
/// beginning of the bag afterwards, in the same order.
pub proof fn law_nobody_moves_without_need<A>(
    before: Contents<A>,
    after: Contents<A>,
    old: Seq<VoteWeight>,
    new: Seq<VoteWeight>,
    voters: Seq<A>,
    weights: Seq<VoteWeight>,
    upper: VoteWeight,
)
    requires
        before.linked(),
        sorted(old),
        rebagged(before, after, old, new, voters, weights),
        is_bag(old, upper),
        is_bag(new, upper),
        forall|inserted: VoteWeight|
            #[trigger] is_bag(new, inserted) && !is_bag(old, inserted) ==> inserted > upper
                || exists|lesser: VoteWeight| #[trigger]
                is_bag(old, lesser) && lesser < upper && inserted <= lesser,
    ensures
        forall|id: A| #[trigger]
            line(before.lines(), upper).contains(id) ==> !voters.contains(id),
        voters.len() + line(before.lines(), upper).len() <= before.nodes.dom().len(),
        line(before.lines(), upper).len() <= line(after.lines(), upper).len(),
        forall|i: int|
            0 <= i < line(before.lines(), upper).len() ==> #[trigger] line(after.lines(), upper)[i]
                == line(before.lines(), upper)[i],
{
    let s = line(before.lines(), upper);
    law_affected_bags_are_those_concerned(old, new, upper);
    assert(!concerned(old, new, upper)) by {
        assert forall|inserted: VoteWeight|
            #[trigger] is_bag(new, inserted) && !is_bag(old, inserted) && inserted
                <= upper implies !(forall|lesser: VoteWeight| #[trigger]
            is_bag(old, lesser) && lesser < upper ==> lesser < inserted) by {
            let lesser = choose|lesser: VoteWeight| #[trigger]
                is_bag(old, lesser) && lesser < upper && inserted <= lesser;
            assert(is_bag(old, lesser) && lesser < upper && !(lesser < inserted));
        }
    }
    assert forall|id: A| #[trigger] s.contains(id) implies !voters.contains(id) by {
        law_migrate_rebags_whom_it_concerns(before, after, old, new, voters, weights, id);
        law_one_bag_each(before, id, upper);
    }
    law_migrate_keeps_the_unaffected(before, after, old, new, voters, weights, upper);
    lemma_affected_are_voters(before, affected_bags(old, new));
    if s.len() > 0 {
        law_one_bag_each(before, s[0], upper);
    }
    s.unique_seq_to_set();
    voters.unique_seq_to_set();
    assert(s.to_set().disjoint(voters.to_set()));
    assert(s.to_set().union(voters.to_set()).subset_of(before.nodes.dom())) by {
        assert forall|id: A| #[trigger] s.to_set().contains(id) implies before.nodes.contains_key(
            id,
        ) by {
            law_one_bag_each(before, id, upper);
        }
    }
    vstd::set_lib::lemma_set_disjoint_lens(s.to_set(), voters.to_set());
    vstd::set_lib::lemma_len_subset(s.to_set().union(voters.to_set()), before.nodes.dom());
    assert forall|i: int| 0 <= i < s.len() implies #[trigger] line(after.lines(), upper)[i]
        == s[i] by {
        assert(s == line(after.lines(), upper).subrange(0, s.len() as int));
    }
}

/// Each voter that is rebagged stands in the bag for the weight that it was asked for, by the new
/// thresholds.
pub proof fn law_migrate_goes_by_the_weights<A>(
    before: Contents<A>,
    after: Contents<A>,
    old: Seq<VoteWeight>,
    new: Seq<VoteWeight>,
    voters: Seq<A>,
    weights: Seq<VoteWeight>,
    i: int,
)
    requires
        before.linked(),
        rebagged(before, after, old, new, voters, weights),
        0 <= i < voters.len(),
    ensures
        after.nodes.contains_key(voters[i]),
        after.nodes[voters[i]].bag_upper == notional_bag(new, weights[i]),
{
    let upper = notional_bag(new, weights[i]);
    law_migrate_rebags_the_affected(before, after, old, new, voters, weights);
    lemma_joined_members(
        all_left(before.lines(), voters.to_set()),
        new,
        voters,
        weights,
        upper,
    );
    assert(voters[i] == voters[i] && notional_bag(new, weights[i]) == upper);
    assert(line(after.lines(), upper).contains(voters[i]));
    law_one_bag_each(after, voters[i], upper);
}

/// Of two voters that are rebagged into the same bag, the one with the lesser id comes first.
pub proof fn law_migrate_joins_in_order_of_ids<A>(
    before: Contents<A>,
    after: Contents<A>,
    old: Seq<VoteWeight>,
    new: Seq<VoteWeight>,
    voters: Seq<A>,
    weights: Seq<VoteWeight>,
    i: int,
    j: int,
)
    requires
        before.linked(),
        rebagged(before, after, old, new, voters, weights),
        0 <= i < j < voters.len(),
        notional_bag(new, weights[i]) == notional_bag(new, weights[j]),
    ensures
        increasing_seq(voters),
        exists|p: int, q: int|
            {
                &&& 0 <= p < q < line(after.lines(), notional_bag(new, weights[i])).len()
                &&& #[trigger] line(after.lines(), notional_bag(new, weights[i]))[p] == voters[i]
                &&& #[trigger] line(after.lines(), notional_bag(new, weights[i]))[q] == voters[j]
            },
{
    law_migrate_rebags_the_affected(before, after, old, new, voters, weights);
    lemma_joined_in_turn(
        all_left(before.lines(), voters.to_set()),
        new,
        voters,
        weights,
        i,
        j,
    );
}

proof fn lemma_joined_in_turn<A>(
    lines: Map<VoteWeight, Seq<A>>,
    thresholds: Seq<VoteWeight>,
    voters: Seq<A>,
    weights: Seq<VoteWeight>,
    i: int,
    j: int,
)
    requires
        weights.len() == voters.len(),
        0 <= i < j < voters.len(),
        notional_bag(thresholds, weights[i]) == notional_bag(thresholds, weights[j]),
    ensures
        exists|p: int, q: int|
            {
                &&& 0 <= p < q < line(
                    all_joined(lines, thresholds, voters, weights),
                    notional_bag(thresholds, weights[i]),
                ).len()
                &&& #[trigger] line(
                    all_joined(lines, thresholds, voters, weights),
                    notional_bag(thresholds, weights[i]),
                )[p] == voters[i]
                &&& #[trigger] line(
                    all_joined(lines, thresholds, voters, weights),
                    notional_bag(thresholds, weights[i]),
                )[q] == voters[j]
            },
    decreases voters.len(),
{
    let upper = notional_bag(thresholds, weights[i]);
    let fewer = voters.drop_last();
    let lighter = weights.drop_last();
    let s = line(all_joined(lines, thresholds, voters, weights), upper);
    let middle = line(all_joined(lines, thresholds, fewer, lighter), upper);
    assert(fewer[i] == voters[i] && lighter[i] == weights[i]);
    if j == voters.len() - 1 {
        lemma_joined_members(lines, thresholds, fewer, lighter, upper);
        assert(fewer[i] == voters[i] && notional_bag(thresholds, lighter[i]) == upper);
        assert(middle.contains(voters[i]));
        let p = choose|p: int| 0 <= p < middle.len() && middle[p] == voters[i];
        assert(s == middle.push(voters[j]));
        assert(s[p] == voters[i]);
        assert(s[middle.len() as int] == voters[j]);
    } else {
        assert(fewer[j] == voters[j] && lighter[j] == weights[j]);
        lemma_joined_in_turn(lines, thresholds, fewer, lighter, i, j);
        let (p, q) = choose|p: int, q: int|
            {
                &&& 0 <= p < q < middle.len()
                &&& #[trigger] middle[p] == fewer[i]
                &&& #[trigger] middle[q] == fewer[j]
            };
        assert(s[p] == voters[i]);
        assert(s[q] == voters[j]);
    }
}

/// The weights that voters are inserted with are answers to being asked about each of them.
pub proof fn law_weights_are_answers<A, F: Fn(&A) -> VoteWeight>(
    weight_of: F,
    voters: Seq<A>,
    weights: Seq<VoteWeight>,
    i: int,
)
    requires
        weighed(weight_of, voters, weights),
        0 <= i < voters.len(),
    ensures
        weights.len() == voters.len(),
        call_ensures(weight_of, (&voters[i],), weights[i]),
{
}

} // verus!
