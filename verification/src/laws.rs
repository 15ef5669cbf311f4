//! What holds of the voter list as a whole.

use crate::following::bag_at;
use crate::joining::{
    law_insert_joins_the_end, law_insert_many_joins_in_turn, lemma_joined_members,
};
use crate::leaving::{
    law_move_joins_the_end, law_remove_leaves_the_others, lemma_nobody_gone, lemma_staying,
    lemma_staying_absent,
};
use crate::links::{
    lemma_chain_traversal, lemma_joined_once, lemma_lines, lemma_linked_ends, lemma_start_of,
    lemma_start_of_listing, lemma_traversal,
};
use crate::model::{
    all_left, bag_fault, chain, chains, ids, joined, line, link, staying, traversal, walk, walk_ends,
    Contents,
};
use crate::node::Node;
use crate::thresholds::{
    all_uppers, is_bag, law_bags_are_the_thresholds, law_notional_bag_is_least, lemma_all_uppers,
    notional_bag, sorted,
};
use frame_election_provider_support::VoteWeight;
use vstd::prelude::*;

verus! {

/// Every voter stands in the bag for its weight.
pub open spec fn placed<A>(
    c: Contents<A>,
    thresholds: Seq<VoteWeight>,
    weight: spec_fn(A) -> VoteWeight,
) -> bool {
    forall|id: A| #[trigger]
        c.nodes.contains_key(id) ==> c.nodes[id].bag_upper == notional_bag(thresholds, weight(id))
}

/// Where the links are sound, every voter stands in exactly one bag: the one that its node names.
pub proof fn law_one_bag_each<A>(c: Contents<A>, id: A, upper: VoteWeight)
    requires
        c.linked(),
    ensures
        line(c.lines(), upper).contains(id) <==> c.nodes.contains_key(id) && c.nodes[id].bag_upper
            == upper,
        line(c.lines(), upper).no_duplicates(),
{
    let s = line(c.lines(), upper);
    if c.lines().contains_key(upper) {
        assert(chain(c.nodes, s, upper, c.bags[upper].head, c.bags[upper].tail));
        if s.contains(id) {
            let i = choose|i: int| 0 <= i < s.len() && s[i] == id;
            assert(c.nodes[s[i]] == link(s, i, upper));
        }
    }
}

/// The voters of each bag, in order, tell all: two lists with sound links and the same lines hold
/// the same nodes and bags with the same ends.
pub proof fn law_lines_tell_all<A>(c: Contents<A>, d: Contents<A>)
    requires
        c.linked(),
        d.linked(),
        c.lines() == d.lines(),
    ensures
        c.nodes == d.nodes,
        c.bags.dom() == d.bags.dom(),
        forall|upper: VoteWeight| #[trigger]
            c.bags.contains_key(upper) ==> c.bags[upper].head == d.bags[upper].head
                && c.bags[upper].tail == d.bags[upper].tail,
{
    let lines = c.lines();
    assert forall|upper: VoteWeight| #[trigger] c.bags.contains_key(upper) implies c.bags[upper].head
        == d.bags[upper].head && c.bags[upper].tail == d.bags[upper].tail by {
        assert(lines.contains_key(upper));
        assert(chain(c.nodes, lines[upper], upper, c.bags[upper].head, c.bags[upper].tail));
        assert(chain(d.nodes, lines[upper], upper, d.bags[upper].head, d.bags[upper].tail));
    }
    assert forall|id: A| c.nodes.contains_key(id) implies d.nodes.contains_key(id) && d.nodes[id]
        == c.nodes[id] by {
        lemma_same_node(c, d, id);
    }
    assert forall|id: A| d.nodes.contains_key(id) implies c.nodes.contains_key(id) by {
        lemma_same_node(d, c, id);
    }
    assert(c.nodes =~= d.nodes);
}

proof fn lemma_same_node<A>(c: Contents<A>, d: Contents<A>, id: A)
    requires
        c.linked(),
        d.linked(),
        c.lines() == d.lines(),
        c.nodes.contains_key(id),
    ensures
        d.nodes.contains_key(id),
        d.nodes[id] == c.nodes[id],
{
    let upper = c.nodes[id].bag_upper;
    let s = c.lines()[upper];
    let i = choose|i: int| 0 <= i < s.len() && s[i] == id;
    assert(chain(c.nodes, s, upper, c.bags[upper].head, c.bags[upper].tail));
    assert(chain(d.nodes, s, upper, d.bags[upper].head, d.bags[upper].tail));
    assert(c.nodes[s[i]] == link(s, i, upper));
    assert(d.nodes[s[i]] == link(s, i, upper));
}

/// Where the links are sound, a node without a neighbour on one side is the head or the tail of its
/// bag, and no other is.
pub proof fn law_terminal_is_head_or_tail<A>(c: Contents<A>, id: A)
    requires
        c.linked(),
        c.nodes.contains_key(id),
    ensures
        ({
            let node = c.nodes[id];
            let bag = c.bags[node.bag_upper];
            &&& c.bags.contains_key(node.bag_upper)
            &&& node.prev is None <==> bag.head == Some(id)
            &&& node.next is None <==> bag.tail == Some(id)
        }),
{
    let upper = c.nodes[id].bag_upper;
    let s = c.lines()[upper];
    let i = choose|i: int| 0 <= i < s.len() && s[i] == id;
    assert(c.lines().contains_key(upper));
    assert(chain(c.nodes, s, upper, c.bags[upper].head, c.bags[upper].tail));
    assert(c.nodes[s[i]] == link(s, i, upper));
    if i > 0 {
        assert(s[0] != s[i]);
    }
    if i + 1 < s.len() {
        assert(s[s.len() - 1] != s[i]);
    }
}

/// Removing a voter that was just inserted gives back the nodes and the lines from before.
pub proof fn law_remove_undoes_insert<A>(
    c: Contents<A>,
    thresholds: Seq<VoteWeight>,
    id: A,
    weight: VoteWeight,
)
    requires
        c.linked(),
        !c.nodes.contains_key(id),
    ensures
        ({
            let back = c.inserted(thresholds, id, weight).all_removed(seq![id]);
            &&& back.linked()
            &&& back.lines() == c.lines()
            &&& back.nodes == c.nodes
            &&& c.counter < u32::MAX ==> back.counter == c.counter
        }),
{
    let upper = notional_bag(thresholds, weight);
    let lines = c.lines();
    let more = joined(lines, upper, id);
    let gone = seq![id].to_set();
    let inserted = c.inserted(thresholds, id, weight);
    law_insert_joins_the_end(c, thresholds, id, weight);
    law_remove_leaves_the_others(inserted, seq![id]);
    assert(seq![id][0] == id);
    assert(gone =~= Set::empty().insert(id));
    assert(inserted.nodes.dom().intersect(gone) =~= gone);
    assert forall|u: VoteWeight| #[trigger] more.contains_key(u) implies staying(more[u], gone)
        == line(lines, u) by {
        law_one_bag_each(c, id, u);
        let s = line(lines, u);
        lemma_staying_absent(s, Set::empty(), id);
        lemma_nobody_gone(s);
        if u == upper {
            reveal(Seq::filter);
            assert(s.push(id).drop_last() =~= s);
        }
    }
    let back = all_left(more, gone);
    assert forall|u: VoteWeight| #[trigger] back.contains_key(u) <==> lines.contains_key(u) by {
        if lines.contains_key(u) {
            assert(more.contains_key(u));
        }
        if back.contains_key(u) {
            assert(more.contains_key(u));
        }
    }
    assert forall|u: VoteWeight| lines.contains_key(u) implies #[trigger] back[u] == lines[u] by {
        assert(more.contains_key(u));
    }
    assert(back =~= lines);
    law_lines_tell_all(inserted.all_removed(seq![id]), c);
}

/// Removing some voters and then others is removing them all at once: one removal of many is as good
/// as repeated ones.
pub proof fn law_removals_add_up<A>(c: Contents<A>, first: Seq<A>, rest: Seq<A>)
    requires
        c.linked(),
    ensures
        ({
            let twice = c.all_removed(first).all_removed(rest);
            let once = c.all_removed(first + rest);
            &&& twice.linked() && once.linked()
            &&& twice.lines() == once.lines()
            &&& twice.nodes == once.nodes
            &&& twice.counter == once.counter
        }),
{
    let some = first.to_set();
    let others = rest.to_set();
    law_remove_leaves_the_others(c, first);
    law_remove_leaves_the_others(c.all_removed(first), rest);
    law_remove_leaves_the_others(c, first + rest);
    assert((first + rest).to_set() =~= some.union(others)) by {
        assert forall|id: A| #[trigger] (first + rest).to_set().contains(id) <==> some.union(
            others,
        ).contains(id) by {
            if first.contains(id) {
                let i = choose|i: int| 0 <= i < first.len() && first[i] == id;
                assert((first + rest)[i] == id);
            }
            if rest.contains(id) {
                let i = choose|i: int| 0 <= i < rest.len() && rest[i] == id;
                assert((first + rest)[first.len() + i] == id);
            }
        }
    }
    lemma_left_twice(c.lines(), some, others);
    law_lines_tell_all(c.all_removed(first).all_removed(rest), c.all_removed(first + rest));
    let all = c.nodes.dom();
    let now = all.intersect(some);
    let later = all.difference(some).intersect(others);
    assert(now.disjoint(later));
    assert(now.union(later) =~= all.intersect(some.union(others)));
    vstd::set_lib::lemma_set_disjoint_lens(now, later);
}

/// The lines after some left and then others are the lines after all of them left.
proof fn lemma_left_twice<A>(lines: Map<VoteWeight, Seq<A>>, some: Set<A>, others: Set<A>)
    ensures
        all_left(all_left(lines, some), others) == all_left(lines, some.union(others)),
{
    let once = all_left(lines, some.union(others));
    let twice = all_left(all_left(lines, some), others);
    assert forall|u: VoteWeight| lines.contains_key(u) implies #[trigger] staying(
        staying(lines[u], some),
        others,
    ) == staying(lines[u], some.union(others)) by {
        lemma_staying_twice(lines[u], some, others);
    }
    assert forall|u: VoteWeight| #[trigger] once.contains_key(u) <==> twice.contains_key(u) by {
        if lines.contains_key(u) {
            assert(staying(staying(lines[u], some), others) == staying(
                lines[u],
                some.union(others),
            ));
            if staying(lines[u], some).len() == 0 {
                reveal(Seq::filter);
                assert(staying(staying(lines[u], some), others).len() == 0);
            }
        }
    }
    assert(once =~= twice);
}

proof fn lemma_staying_twice<A>(s: Seq<A>, some: Set<A>, others: Set<A>)
    ensures
        staying(staying(s, some), others) == staying(s, some.union(others)),
    decreases s.len(),
{
    reveal(Seq::filter);
    if s.len() > 0 {
        lemma_staying_twice(s.drop_last(), some, others);
        let rest = staying(s.drop_last(), some);
        if !some.contains(s.last()) {
            assert(rest.push(s.last()).drop_last() =~= rest);
        }
    }
}

/// Inserting several voters is inserting the first ones and then the rest: one insertion of many is
/// as good as repeated ones.
pub proof fn law_insertions_add_up<A>(
    c: Contents<A>,
    thresholds: Seq<VoteWeight>,
    first: Seq<A>,
    first_weights: Seq<VoteWeight>,
    rest: Seq<A>,
    rest_weights: Seq<VoteWeight>,
)
    requires
        first.len() == first_weights.len(),
        rest.len() == rest_weights.len(),
    ensures
        c.all_inserted(thresholds, first, first_weights).all_inserted(
            thresholds,
            rest,
            rest_weights,
        ) == c.all_inserted(thresholds, first + rest, first_weights + rest_weights),
        rest.len() == 1 ==> c.all_inserted(thresholds, first + rest, first_weights + rest_weights)
            == c.all_inserted(thresholds, first, first_weights).inserted(
            thresholds,
            rest[0],
            rest_weights[0],
        ),
    decreases rest.len(),
{
    if rest.len() == 0 {
        assert(first + rest =~= first);
        assert(first_weights + rest_weights =~= first_weights);
    } else {
        law_insertions_add_up(
            c,
            thresholds,
            first,
            first_weights,
            rest.drop_last(),
            rest_weights.drop_last(),
        );
        assert((first + rest).drop_last() =~= first + rest.drop_last());
        assert((first_weights + rest_weights).drop_last() =~= first_weights
            + rest_weights.drop_last());
        if rest.len() == 1 {
            assert(first + rest.drop_last() =~= first);
            assert(first_weights + rest_weights.drop_last() =~= first_weights);
        }
    }
}

/// Updating the position of a voter is as good as removing it and inserting it with its new weight:
/// the nodes and the lines are the same, and the counter too, unless it said that nobody was there.
pub proof fn law_update_is_remove_and_insert<A>(
    c: Contents<A>,
    thresholds: Seq<VoteWeight>,
    id: A,
    weight: VoteWeight,
)
    requires
        c.linked(),
        c.nodes.contains_key(id),
    ensures
        ({
            let updated = c.moved(thresholds, c.nodes[id], weight);
            let replaced = c.all_removed(seq![id]).inserted(thresholds, id, weight);
            &&& updated.linked() && replaced.linked()
            &&& updated.lines() == replaced.lines()
            &&& updated.nodes == replaced.nodes
            &&& c.counter > 0 ==> updated.counter == replaced.counter
        }),
{
    let removed = c.all_removed(seq![id]);
    assert(seq![id][0] == id);
    assert(seq![id].to_set() =~= Set::empty().insert(id));
    law_move_joins_the_end(c, thresholds, id, weight);
    law_remove_leaves_the_others(c, seq![id]);
    law_insert_joins_the_end(removed, thresholds, id, weight);
    law_lines_tell_all(
        removed.inserted(thresholds, id, weight),
        c.moved(thresholds, c.nodes[id], weight),
    );
    assert(removed.nodes.dom() =~= c.nodes.dom().remove(id));
    assert(c.nodes.dom().intersect(seq![id].to_set()) =~= Set::empty().insert(id));
}

/// A voter that is inserted stands in the bag for its weight, at the end; everybody else stands where
/// they stood.
pub proof fn law_inserting_places_one<A>(
    c: Contents<A>,
    thresholds: Seq<VoteWeight>,
    id: A,
    weight: VoteWeight,
    other: A,
)
    requires
        c.linked(),
        !c.nodes.contains_key(id),
    ensures
        ({
            let after = c.inserted(thresholds, id, weight);
            &&& after.nodes.contains_key(id)
            &&& after.nodes[id].bag_upper == notional_bag(thresholds, weight)
            &&& after.nodes[id].next is None
            &&& other != id ==> after.nodes.contains_key(other) == c.nodes.contains_key(other)
            &&& other != id && c.nodes.contains_key(other) ==> {
                &&& after.nodes[other].bag_upper == c.nodes[other].bag_upper
                &&& after.nodes[other].prev == c.nodes[other].prev
                &&& c.nodes[other].next is Some ==> after.nodes[other].next == c.nodes[other].next
            }
        }),
{
    let upper = notional_bag(thresholds, weight);
    let after = c.inserted(thresholds, id, weight);
    law_insert_joins_the_end(c, thresholds, id, weight);
    let s = line(c.lines(), upper);
    let t = s.push(id);
    assert(after.lines()[upper] == t);
    assert(t[s.len() as int] == id);
    assert(chain(after.nodes, t, upper, after.bags[upper].head, after.bags[upper].tail)) by {
        assert(after.lines().contains_key(upper));
    }
    assert(after.nodes[t[s.len() as int]] == link(t, s.len() as int, upper));
    if other != id && c.nodes.contains_key(other) {
        let u = c.nodes[other].bag_upper;
        let old_line = c.lines()[u];
        let i = choose|i: int| 0 <= i < old_line.len() && old_line[i] == other;
        assert(c.lines().contains_key(u) && after.lines().contains_key(u));
        assert(chain(c.nodes, old_line, u, c.bags[u].head, c.bags[u].tail));
        assert(c.nodes[old_line[i]] == link(old_line, i, u));
        let new_line = after.lines()[u];
        assert(chain(after.nodes, new_line, u, after.bags[u].head, after.bags[u].tail));
        assert(new_line[i] == other);
        assert(after.nodes[new_line[i]] == link(new_line, i, u));
        if i > 0 {
            assert(new_line[i - 1] == old_line[i - 1]);
        }
        if i + 1 < old_line.len() {
            assert(new_line[i + 1] == old_line[i + 1]);
        }
    }
}

/// Voters who are removed are gone, and everybody else stays in their bag.
pub proof fn law_removing_keeps_the_others<A>(c: Contents<A>, voters: Seq<A>, id: A)
    requires
        c.linked(),
    ensures
        ({
            let after = c.all_removed(voters);
            &&& after.nodes.contains_key(id) <==> c.nodes.contains_key(id) && !voters.contains(id)
            &&& after.nodes.contains_key(id) ==> after.nodes[id].bag_upper == c.nodes[id].bag_upper
        }),
{
    let after = c.all_removed(voters);
    let gone = voters.to_set();
    law_remove_leaves_the_others(c, voters);
    if after.nodes.contains_key(id) {
        let u = after.nodes[id].bag_upper;
        assert(after.lines()[u].contains(id));
        lemma_staying(c.lines()[u], gone);
        law_one_bag_each(c, id, u);
    }
}

/// The nodes of one bag, as following its links lists them.
proof fn lemma_part<A>(c: Contents<A>, upper: VoteWeight)
    requires
        c.linked(),
    ensures
        ids(traversal(c.nodes, c.bag_or_new(upper).head)) == line(c.lines(), upper),
        forall|i: int|
            0 <= i < traversal(c.nodes, c.bag_or_new(upper).head).len() ==> {
                let node = #[trigger] traversal(c.nodes, c.bag_or_new(upper).head)[i];
                &&& node.bag_upper == upper
                &&& c.nodes.contains_key(node.id)
                &&& c.nodes[node.id] == node
            },
{
    let part = traversal(c.nodes, c.bag_or_new(upper).head);
    if c.bags.contains_key(upper) {
        let s = c.lines()[upper];
        let bag = c.bags[upper];
        assert(c.lines().contains_key(upper));
        lemma_chain_traversal(c.nodes, s, upper, bag.head, bag.tail);
        assert forall|i: int| 0 <= i < part.len() implies {
            let node = #[trigger] part[i];
            &&& node.bag_upper == upper
            &&& c.nodes.contains_key(node.id)
            &&& c.nodes[node.id] == node
        } by {
            assert(part[i] == c.nodes[s[i]]);
            assert(c.nodes[s[i]] == link(s, i, upper));
        }
    } else {
        assert(walk(c.nodes, None, 1).len() < 1);
        lemma_traversal(c.nodes, None, 1);
        assert(ids(part) =~= Seq::empty());
    }
}

/// What the listing of the first `k` bags holds.
proof fn lemma_listing<A>(c: Contents<A>, uppers: Seq<VoteWeight>, k: nat)
    requires
        c.linked(),
        k <= uppers.len(),
    ensures
        forall|i: int|
            0 <= i < c.listing_of(uppers, k).len() ==> {
                let node = #[trigger] c.listing_of(uppers, k)[i];
                &&& c.nodes.contains_key(node.id)
                &&& c.nodes[node.id] == node
                &&& exists|j: int| 0 <= j < k && #[trigger] uppers[j] == node.bag_upper
            },
        forall|id: A, j: int|
            0 <= j < k && #[trigger] line(c.lines(), uppers[j]).contains(id) ==> ids(
                c.listing_of(uppers, k),
            ).contains(id),
    decreases k,
{
    let all = c.listing_of(uppers, k);
    if k > 0 {
        let before = c.listing_of(uppers, (k - 1) as nat);
        let upper = uppers[k - 1];
        let part = traversal(c.nodes, c.bag_or_new(upper).head);
        lemma_listing(c, uppers, (k - 1) as nat);
        lemma_part(c, upper);
        assert(all == before + part);
        assert(ids(all) =~= ids(before) + ids(part));
        assert forall|i: int| 0 <= i < all.len() implies {
            let node = #[trigger] all[i];
            &&& c.nodes.contains_key(node.id)
            &&& c.nodes[node.id] == node
            &&& exists|j: int| 0 <= j < k && #[trigger] uppers[j] == node.bag_upper
        } by {
            if i < before.len() {
                assert(all[i] == before[i]);
            } else {
                assert(all[i] == part[i - before.len()]);
                assert(uppers[k - 1] == all[i].bag_upper);
            }
        }
        assert forall|id: A, j: int|
            0 <= j < k && #[trigger] line(c.lines(), uppers[j]).contains(id) implies ids(
            all,
        ).contains(id) by {
            if j < k - 1 {
                let i = choose|i: int| 0 <= i < ids(before).len() && ids(before)[i] == id;
                assert(ids(all)[i] == id);
            } else {
                let i = choose|i: int| 0 <= i < ids(part).len() && ids(part)[i] == id;
                assert(ids(all)[before.len() + i] == id);
            }
        }
    }
}

/// Where no stored bag comes twice, the listing of the first `k` bags has nobody twice.
proof fn lemma_listing_once<A>(c: Contents<A>, uppers: Seq<VoteWeight>, k: nat)
    requires
        c.linked(),
        k <= uppers.len(),
        forall|i: int, j: int|
            0 <= i < j < uppers.len() && uppers[i] == uppers[j] ==> !c.bags.contains_key(uppers[i]),
    ensures
        ids(c.listing_of(uppers, k)).no_duplicates(),
    decreases k,
{
    let all = c.listing_of(uppers, k);
    if k == 0 {
        assert(ids(all) =~= Seq::empty());
    } else {
        let before = c.listing_of(uppers, (k - 1) as nat);
        let upper = uppers[k - 1];
        let part = traversal(c.nodes, c.bag_or_new(upper).head);
        lemma_listing_once(c, uppers, (k - 1) as nat);
        lemma_listing(c, uppers, (k - 1) as nat);
        lemma_part(c, upper);
        assert(ids(all) =~= ids(before) + ids(part));
        lemma_joined_once(ids(before), ids(part));
        assert(ids(part).no_duplicates()) by {
            if part.len() > 0 {
                law_one_bag_each(c, part[0].id, upper);
            }
        }
        assert forall|id: A| !(#[trigger] ids(part).to_set().contains(id) && ids(
            before,
        ).to_set().contains(id)) by {
            if ids(part).contains(id) && ids(before).contains(id) {
                let i = choose|i: int| 0 <= i < ids(before).len() && ids(before)[i] == id;
                let j = choose|j: int| 0 <= j < ids(part).len() && ids(part)[j] == id;
                assert(before[i].id == id && part[j].id == id);
                let m = choose|m: int|
                    0 <= m < k - 1 && #[trigger] uppers[m] == before[i].bag_upper;
                assert(uppers[m] == uppers[k - 1]);
                assert(line(c.lines(), upper).contains(id));
                assert(c.bags.contains_key(upper));
            }
        }
    }
}

/// Where the bags descend, so does the listing of the first `k` of them.
proof fn lemma_listing_descends<A>(c: Contents<A>, uppers: Seq<VoteWeight>, k: nat)
    requires
        c.linked(),
        k <= uppers.len(),
        forall|i: int, j: int| 0 <= i < j < uppers.len() ==> uppers[i] >= uppers[j],
    ensures
        forall|i: int, j: int|
            0 <= i < j < c.listing_of(uppers, k).len() ==> (#[trigger] c.listing_of(
                uppers,
                k,
            )[i]).bag_upper >= (#[trigger] c.listing_of(uppers, k)[j]).bag_upper,
    decreases k,
{
    let all = c.listing_of(uppers, k);
    if k > 0 {
        let before = c.listing_of(uppers, (k - 1) as nat);
        let upper = uppers[k - 1];
        let part = traversal(c.nodes, c.bag_or_new(upper).head);
        lemma_listing_descends(c, uppers, (k - 1) as nat);
        lemma_listing(c, uppers, (k - 1) as nat);
        lemma_part(c, upper);
        assert forall|i: int, j: int| 0 <= i < j < all.len() implies (#[trigger] all[i]).bag_upper
            >= (#[trigger] all[j]).bag_upper by {
            if j < before.len() {
                assert(all[i] == before[i] && all[j] == before[j]);
            } else {
                assert(all[j] == part[j - before.len()]);
                if i < before.len() {
                    assert(all[i] == before[i]);
                    let m = choose|m: int|
                        0 <= m < k - 1 && #[trigger] uppers[m] == before[i].bag_upper;
                    assert(uppers[m] >= uppers[k - 1]);
                } else {
                    assert(all[i] == part[i - before.len()]);
                }
            }
        }
    }
}

/// No stored bag has its threshold listed twice.
pub open spec fn bags_listed_once<A>(c: Contents<A>, thresholds: Seq<VoteWeight>) -> bool {
    forall|i: int, j: int|
        0 <= i < j < all_uppers(thresholds).len() && #[trigger] all_uppers(thresholds)[i]
            == #[trigger] all_uppers(thresholds)[j] ==> !c.bags.contains_key(
            all_uppers(thresholds)[i],
        )
}

/// Going through the list meets every voter, none of them twice, and nobody else.
pub proof fn law_listing_is_complete<A>(c: Contents<A>, thresholds: Seq<VoteWeight>)
    requires
        c.linked(),
        c.bagged_by(thresholds),
        bags_listed_once(c, thresholds),
    ensures
        ids(c.listing(thresholds)).no_duplicates(),
        ids(c.listing(thresholds)).to_set() == c.nodes.dom(),
        c.listing(thresholds).len() == c.nodes.dom().len(),
        forall|i: int|
            0 <= i < c.listing(thresholds).len() ==> {
                let node = #[trigger] c.listing(thresholds)[i];
                c.nodes.contains_key(node.id) && c.nodes[node.id] == node
            },
{
    let ups = all_uppers(thresholds);
    let uppers = ups.reverse();
    let all = c.listing(thresholds);
    assert forall|i: int, j: int|
        0 <= i < j < uppers.len() && uppers[i] == uppers[j] implies !c.bags.contains_key(
        uppers[i],
    ) by {
        assert(ups[ups.len() - 1 - j] == ups[ups.len() - 1 - i]);
    }
    lemma_listing(c, uppers, uppers.len());
    lemma_listing_once(c, uppers, uppers.len());
    lemma_all_uppers(thresholds);
    assert forall|id: A| #[trigger] ids(all).to_set().contains(id) <==> c.nodes.dom().contains(
        id,
    ) by {
        if ids(all).contains(id) {
            let i = choose|i: int| 0 <= i < ids(all).len() && ids(all)[i] == id;
            assert(all[i].id == id);
        }
        if c.nodes.contains_key(id) {
            let upper = c.nodes[id].bag_upper;
            assert(c.lines().contains_key(upper));
            assert(c.bags.contains_key(upper));
            assert(ups.contains(upper));
            let i = choose|i: int| 0 <= i < ups.len() && ups[i] == upper;
            assert(line(c.lines(), uppers[ups.len() - 1 - i]).contains(id));
        }
    }
    assert(ids(all).to_set() =~= c.nodes.dom());
    ids(all).unique_seq_to_set();
}

/// Going through the list reaches the bags from the greatest to the least: where every voter stands
/// in the bag for its weight, whoever comes later weighs less, unless both stand in the same bag. So
/// cutting the listing off at any point leaves out nobody who weighs more than somebody listed,
/// apart from voters of the bag in which it was cut off.
pub proof fn law_listing_descends<A>(
    c: Contents<A>,
    thresholds: Seq<VoteWeight>,
    weight: spec_fn(A) -> VoteWeight,
    i: int,
    j: int,
)
    requires
        c.linked(),
        sorted(thresholds),
        0 <= i < j < c.listing(thresholds).len(),
    ensures
        c.listing(thresholds)[i].bag_upper >= c.listing(thresholds)[j].bag_upper,
        placed(c, thresholds, weight) && c.listing(thresholds)[i].bag_upper != c.listing(
            thresholds,
        )[j].bag_upper ==> weight(c.listing(thresholds)[i].id) > weight(
            c.listing(thresholds)[j].id,
        ),
{
    let uppers = all_uppers(thresholds).reverse();
    let all = c.listing(thresholds);
    lemma_all_uppers(thresholds);
    lemma_listing(c, uppers, uppers.len());
    lemma_listing_descends(c, uppers, uppers.len());
    assert(all[i].bag_upper >= all[j].bag_upper);
    if placed(c, thresholds, weight) && all[i].bag_upper != all[j].bag_upper {
        assert(c.nodes.contains_key(all[i].id) && c.nodes.contains_key(all[j].id));
        law_greater_bag_greater_weight(thresholds, weight(all[j].id), weight(all[i].id));
    }
}

/// The weights of a greater bag are greater than the threshold of a lesser one, and so than all of
/// its weights: each bag has a range of weights of its own.
pub proof fn law_greater_bag_greater_weight(
    thresholds: Seq<VoteWeight>,
    lesser: VoteWeight,
    greater: VoteWeight,
)
    requires
        sorted(thresholds),
        notional_bag(thresholds, lesser) < notional_bag(thresholds, greater),
    ensures
        lesser <= notional_bag(thresholds, lesser) < greater,
{
    law_notional_bag_is_least(thresholds, lesser);
    law_notional_bag_is_least(thresholds, greater);
    if notional_bag(thresholds, lesser) >= greater {
        assert(is_bag(thresholds, notional_bag(thresholds, lesser)));
    }
}

/// It makes no difference to the bag for a weight whether the thresholds list the greatest vote
/// weight.
pub proof fn law_greatest_weight_is_implied(thresholds: Seq<VoteWeight>, weight: VoteWeight)
    requires
        sorted(thresholds),
    ensures
        notional_bag(all_uppers(thresholds), weight) == notional_bag(thresholds, weight),
{
    lemma_all_uppers(thresholds);
    law_notional_bag_is_least(thresholds, weight);
    law_notional_bag_is_least(all_uppers(thresholds), weight);
    let here = notional_bag(thresholds, weight);
    let there = notional_bag(all_uppers(thresholds), weight);
    assert(is_bag(thresholds, here) && is_bag(all_uppers(thresholds), there));
    assert(all_uppers(thresholds).contains(here) && is_bag(all_uppers(thresholds), here));
    assert(all_uppers(thresholds).contains(there) || there == VoteWeight::MAX);
    assert(is_bag(thresholds, there));
}

/// The sanity check finds no fault with a list whose links are sound, whose counter is in sync and
/// whose bags are those of its thresholds.
pub proof fn law_sound_lists_pass<A>(c: Contents<A>, thresholds: Seq<VoteWeight>)
    requires
        c.linked(),
        c.counted(),
        c.bagged_by(thresholds),
        bags_listed_once(c, thresholds),
    ensures
        c.fault(thresholds) is None,
{
    lemma_linked_ends(c, thresholds);
    law_listing_is_complete(c, thresholds);
    lemma_no_fault(c, all_uppers(thresholds));
}

proof fn lemma_no_fault<A>(c: Contents<A>, uppers: Seq<VoteWeight>)
    requires
        c.linked(),
    ensures
        c.first_fault(uppers) is None,
    decreases uppers.len(),
{
    if uppers.len() > 0 {
        let upper = uppers[0];
        let bag = c.bag_or_new(upper);
        if c.bags.contains_key(upper) {
            let s = c.lines()[upper];
            assert(c.lines().contains_key(upper));
            assert(chain(c.nodes, s, upper, bag.head, bag.tail));
            lemma_chain_traversal(c.nodes, s, upper, bag.head, bag.tail);
            assert(c.nodes[s[0]] == link(s, 0, upper));
            assert(c.nodes[s[s.len() - 1]] == link(s, s.len() - 1, upper));
        } else {
            assert(walk(c.nodes, None, 1).len() < 1);
            lemma_part(c, upper);
        }
        assert(bag_fault(c.nodes, bag) is None);
        lemma_no_fault(c, uppers.drop_first());
    }
}

/// A list that passes the sanity check lists nobody twice, and as many as were counted.
pub proof fn law_passing_lists_are_counted<A>(c: Contents<A>, thresholds: Seq<VoteWeight>)
    requires
        c.fault(thresholds) is None,
    ensures
        c.listing_ends(thresholds),
        ids(c.listing(thresholds)).no_duplicates(),
        c.listing(thresholds).len() == c.counter,
{
}

/// Inserting a voter uses a bag of the thresholds.
pub proof fn law_insert_keeps_to_the_thresholds<A>(
    c: Contents<A>,
    thresholds: Seq<VoteWeight>,
    id: A,
    weight: VoteWeight,
)
    requires
        sorted(thresholds),
        c.bagged_by(thresholds),
    ensures
        c.inserted(thresholds, id, weight).bagged_by(thresholds),
{
    law_notional_bag_is_least(thresholds, weight);
}

/// Removing voters uses no new bag.
pub proof fn law_remove_keeps_to_the_thresholds<A>(
    c: Contents<A>,
    thresholds: Seq<VoteWeight>,
    voters: Seq<A>,
)
    requires
        c.linked(),
        c.bagged_by(thresholds),
    ensures
        c.all_removed(voters).bagged_by(thresholds),
{
    let after = c.all_removed(voters);
    law_remove_leaves_the_others(c, voters);
    assert forall|upper: VoteWeight| #[trigger] after.bags.contains_key(upper) implies is_bag(
        thresholds,
        upper,
    ) by {
        assert(after.lines().contains_key(upper));
        assert(c.lines().contains_key(upper));
        assert(c.bags.contains_key(upper));
    }
}

/// Moving a voter uses a bag of the thresholds.
pub proof fn law_update_keeps_to_the_thresholds<A>(
    c: Contents<A>,
    thresholds: Seq<VoteWeight>,
    node: Node<A>,
    weight: VoteWeight,
)
    requires
        sorted(thresholds),
        c.bagged_by(thresholds),
    ensures
        c.moved(thresholds, node, weight).bagged_by(thresholds),
{
    let detached = c.detached(node);
    assert forall|upper: VoteWeight| #[trigger] detached.bags.contains_key(upper) implies is_bag(
        thresholds,
        upper,
    ) by {
        assert(c.bags.contains_key(upper));
    }
    law_insert_keeps_to_the_thresholds(detached, thresholds, node.id, weight);
}

/// Inserting new voters with their weights puts each into the bag for its weight; where everybody else
/// stood in theirs, everybody does afterwards.
pub proof fn law_insertions_place_everybody<A>(
    c: Contents<A>,
    thresholds: Seq<VoteWeight>,
    voters: Seq<A>,
    weights: Seq<VoteWeight>,
    weight: spec_fn(A) -> VoteWeight,
)
    requires
        c.linked(),
        placed(c, thresholds, weight),
        voters.no_duplicates(),
        voters.len() == weights.len(),
        forall|i: int| 0 <= i < voters.len() ==> !c.nodes.contains_key(#[trigger] voters[i]),
        forall|i: int| 0 <= i < voters.len() ==> #[trigger] weights[i] == weight(voters[i]),
    ensures
        placed(c.all_inserted(thresholds, voters, weights), thresholds, weight),
{
    let after = c.all_inserted(thresholds, voters, weights);
    law_insert_many_joins_in_turn(c, thresholds, voters, weights);
    assert forall|id: A| #[trigger] after.nodes.contains_key(id) implies after.nodes[id].bag_upper
        == notional_bag(thresholds, weight(id)) by {
        let upper = after.nodes[id].bag_upper;
        law_one_bag_each(after, id, upper);
        lemma_joined_members(c.lines(), thresholds, voters, weights, upper);
        assert(line(after.lines(), upper).contains(id));
        if line(c.lines(), upper).contains(id) {
            law_one_bag_each(c, id, upper);
        } else {
            let i = choose|i: int|
                0 <= i < voters.len() && #[trigger] voters[i] == id && notional_bag(
                    thresholds,
                    weights[i],
                ) == upper;
            assert(weights[i] == weight(voters[i]));
        }
    }
}

/// Removing voters leaves everybody else in the bag for their weight.
pub proof fn law_removals_keep_everybody_placed<A>(
    c: Contents<A>,
    thresholds: Seq<VoteWeight>,
    voters: Seq<A>,
    weight: spec_fn(A) -> VoteWeight,
)
    requires
        c.linked(),
        placed(c, thresholds, weight),
    ensures
        placed(c.all_removed(voters), thresholds, weight),
{
    let after = c.all_removed(voters);
    assert forall|id: A| #[trigger] after.nodes.contains_key(id) implies after.nodes[id].bag_upper
        == notional_bag(thresholds, weight(id)) by {
        law_removing_keeps_the_others(c, voters, id);
    }
}

/// Updating the position of a voter puts it into the bag for its weight; where everybody else stood
/// in theirs, everybody does afterwards.
pub proof fn law_update_places_the_voter<A>(
    c: Contents<A>,
    thresholds: Seq<VoteWeight>,
    id: A,
    weight: spec_fn(A) -> VoteWeight,
)
    requires
        c.linked(),
        c.nodes.contains_key(id),
        forall|other: A| #[trigger]
            c.nodes.contains_key(other) && other != id ==> c.nodes[other].bag_upper == notional_bag(
                thresholds,
                weight(other),
            ),
    ensures
        placed(c.moved(thresholds, c.nodes[id], weight(id)), thresholds, weight),
{
    let after = c.moved(thresholds, c.nodes[id], weight(id));
    let gone = Set::empty().insert(id);
    let left = all_left(c.lines(), gone);
    let new_upper = notional_bag(thresholds, weight(id));
    law_move_joins_the_end(c, thresholds, id, weight(id));
    assert forall|other: A| #[trigger] after.nodes.contains_key(
        other,
    ) implies after.nodes[other].bag_upper == notional_bag(thresholds, weight(other)) by {
        let upper = after.nodes[other].bag_upper;
        law_one_bag_each(after, other, upper);
        let s = line(after.lines(), upper);
        if other == id {
            let t = line(left, new_upper).push(id);
            assert(t[t.len() - 1] == id);
            law_one_bag_each(after, id, new_upper);
        } else {
            let i = choose|i: int| 0 <= i < s.len() && s[i] == other;
            assert(line(left, upper)[i] == other);
            assert(line(left, upper).contains(other));
            lemma_staying(c.lines()[upper], gone);
            assert(line(c.lines(), upper).contains(other));
            law_one_bag_each(c, other, upper);
        }
    }
}

/// The links are sound if and only if the voters of each stored bag stand in a row: nobody twice, the
/// head first and the tail last, each naming the one before and the one behind, and every voter
/// stands in the row of the bag that it names.
pub proof fn law_sound_links_are_rows<A>(c: Contents<A>)
    ensures
        c.linked() <==> c.nodes.dom().finite() && exists|rows: Map<VoteWeight, Seq<A>>|
            #[trigger] in_rows(c, rows),
{
    if c.linked() {
        let rows = c.lines();
        assert forall|upper: VoteWeight| #[trigger] rows.contains_key(upper) implies {
            let s = rows[upper];
            &&& s.len() > 0
            &&& c.bags[upper].head == Some(s[0])
            &&& c.bags[upper].tail == Some(s[s.len() - 1])
            &&& forall|i: int, j: int| 0 <= i < j < s.len() ==> s[i] != s[j]
        } by {
            assert(chain(c.nodes, rows[upper], upper, c.bags[upper].head, c.bags[upper].tail));
        }
        assert forall|upper: VoteWeight, i: int|
            rows.contains_key(upper) && 0 <= i < rows[upper].len() implies c.nodes.contains_key(rows[upper][i])
            && c.nodes[rows[upper][i]] == #[trigger] node_in_row(rows[upper], i, upper) by {
            assert(chain(c.nodes, rows[upper], upper, c.bags[upper].head, c.bags[upper].tail));
            assert(c.nodes[rows[upper][i]] == link(rows[upper], i, upper));
        }
        assert(in_rows(c, rows));
    }
    if c.nodes.dom().finite() && exists|rows: Map<VoteWeight, Seq<A>>| #[trigger] in_rows(c, rows) {
        let rows = choose|rows: Map<VoteWeight, Seq<A>>| #[trigger] in_rows(c, rows);
        assert(rows.dom() =~= c.bags.dom());
        assert forall|upper: VoteWeight| #[trigger] rows.contains_key(upper) implies chain(
            c.nodes,
            rows[upper],
            upper,
            c.bags[upper].head,
            c.bags[upper].tail,
        ) by {
            let s = rows[upper];
            assert forall|i: int| 0 <= i < s.len() implies c.nodes.contains_key(s[i])
                && c.nodes[s[i]] == #[trigger] link(s, i, upper) by {
                assert(c.nodes[s[i]] == node_in_row(s, i, upper));
            }
        }
        assert(chains(c.nodes, c.bags, rows));
        lemma_lines(c, rows);
    }
}

/// The node of whoever stands at place `i` of a row: it names the one before and the one behind.
pub open spec fn node_in_row<A>(row: Seq<A>, i: int, upper: VoteWeight) -> Node<A> {
    Node {
        id: row[i],
        prev: if i > 0 {
            Some(row[i - 1])
        } else {
            None
        },
        next: if i + 1 < row.len() {
            Some(row[i + 1])
        } else {
            None
        },
        bag_upper: upper,
    }
}

/// The voters of each stored bag stand in the row that `rows` gives, and nobody stands elsewhere.
pub open spec fn in_rows<A>(c: Contents<A>, rows: Map<VoteWeight, Seq<A>>) -> bool {
    &&& forall|upper: VoteWeight| #[trigger]
        rows.contains_key(upper) <==> c.bags.contains_key(upper)
    &&& forall|upper: VoteWeight| #[trigger]
        rows.contains_key(upper) ==> {
            let s = rows[upper];
            &&& s.len() > 0
            &&& c.bags[upper].head == Some(s[0])
            &&& c.bags[upper].tail == Some(s[s.len() - 1])
            &&& forall|i: int, j: int| 0 <= i < j < s.len() ==> s[i] != s[j]
        }
    &&& forall|upper: VoteWeight, i: int|
        rows.contains_key(upper) && 0 <= i < rows[upper].len() ==> c.nodes.contains_key(rows[upper][i])
            && c.nodes[rows[upper][i]] == #[trigger] node_in_row(rows[upper], i, upper)
    &&& forall|id: A| #[trigger]
        c.nodes.contains_key(id) ==> rows.contains_key(c.nodes[id].bag_upper)
            && rows[c.nodes[id].bag_upper].contains(id)
}

/// Where the links are sound, every node is kept under its own id, and neighbours name each other and
/// the same bag; whoever has nobody before is the head of that bag, and whoever has nobody behind is
/// the tail.
pub proof fn law_neighbours_name_each_other<A>(c: Contents<A>, id: A)
    requires
        c.linked(),
        c.nodes.contains_key(id),
    ensures
        ({
            let node = c.nodes[id];
            &&& node.id == id
            &&& c.bags.contains_key(node.bag_upper)
            &&& match node.prev {
                Some(prev) => c.nodes.contains_key(prev) && c.nodes[prev].next == Some(id)
                    && c.nodes[prev].bag_upper == node.bag_upper && prev != id,
                None => c.bags[node.bag_upper].head == Some(id),
            }
            &&& match node.next {
                Some(next) => c.nodes.contains_key(next) && c.nodes[next].prev == Some(id)
                    && c.nodes[next].bag_upper == node.bag_upper && next != id,
                None => c.bags[node.bag_upper].tail == Some(id),
            }
        }),
{
    let upper = c.nodes[id].bag_upper;
    let s = c.lines()[upper];
    let i = choose|i: int| 0 <= i < s.len() && s[i] == id;
    assert(c.lines().contains_key(upper));
    assert(chain(c.nodes, s, upper, c.bags[upper].head, c.bags[upper].tail));
    assert(c.nodes[s[i]] == link(s, i, upper));
    if i > 0 {
        assert(c.nodes.contains_key(s[i - 1]) && c.nodes[s[i - 1]] == link(s, i - 1, upper));
    }
    if i + 1 < s.len() {
        assert(c.nodes.contains_key(s[i + 1]) && c.nodes[s[i + 1]] == link(s, i + 1, upper));
    }
}

/// The listing of the first `k` of two sequences of bags is the same where these are.
proof fn lemma_listing_of_same<A>(
    c: Contents<A>,
    uppers: Seq<VoteWeight>,
    others: Seq<VoteWeight>,
    k: nat,
    limit: nat,
)
    requires
        k <= uppers.len(),
        k <= others.len(),
        forall|i: int| 0 <= i < k ==> uppers[i] == others[i],
    ensures
        c.listing_of(uppers, k) == c.listing_of(others, k),
        c.start_of(uppers, k, limit) == c.start_of(others, k, limit),
    decreases k,
{
    if k > 0 {
        lemma_listing_of_same(c, uppers, others, (k - 1) as nat, limit);
    }
}

/// Going through the bags goes through one more, below the rest, after the rest; without thresholds
/// it goes through the bag of the greatest vote weight alone, as it does where that is the only
/// threshold. Stopping after `limit` voters does likewise, each bag adding no more than are wanted
/// yet.
pub proof fn law_listing_adds_up<A>(
    c: Contents<A>,
    least: VoteWeight,
    rest: Seq<VoteWeight>,
    limit: nat,
)
    ensures
        ({
            let head = bag_at(c, least).head;
            let last = bag_at(c, VoteWeight::MAX).head;
            let more = seq![least] + rest;
            &&& c.listing(Seq::empty()) == traversal(c.nodes, last)
            &&& c.listing(seq![VoteWeight::MAX]) == traversal(c.nodes, last)
            &&& c.listing_start(Seq::empty(), limit) == walk(c.nodes, last, limit)
            &&& c.listing_start(seq![VoteWeight::MAX], limit) == walk(c.nodes, last, limit)
            &&& rest.len() > 0 || least != VoteWeight::MAX ==> {
                &&& c.listing(more) == c.listing(rest) + traversal(c.nodes, head)
                &&& c.listing_start(rest, limit).len() <= limit
                &&& c.listing_start(more, limit) == c.listing_start(rest, limit) + walk(
                    c.nodes,
                    head,
                    (limit - c.listing_start(rest, limit).len()) as nat,
                )
            }
        }),
{
    let none = Seq::<VoteWeight>::empty();
    let only = seq![VoteWeight::MAX];
    let last = bag_at(c, VoteWeight::MAX).head;
    assert(all_uppers(none) =~= only);
    assert(all_uppers(only) =~= only);
    assert(only.reverse() =~= only);
    reveal_with_fuel(Contents::listing_of, 2);
    reveal_with_fuel(Contents::start_of, 2);
    assert(c.listing(none) =~= traversal(c.nodes, last));
    assert(c.listing_start(none, limit) =~= walk(c.nodes, last, limit));
    if rest.len() > 0 || least != VoteWeight::MAX {
        let more = seq![least] + rest;
        let ups = all_uppers(rest).reverse();
        let longer = all_uppers(more).reverse();
        if rest.len() > 0 {
            assert(more.last() == rest.last());
        } else {
            assert(more.last() == least);
        }
        assert(all_uppers(more) =~= seq![least] + all_uppers(rest));
        assert(longer =~= ups.push(least));
        lemma_listing_of_same(c, ups, longer, ups.len(), limit);
        lemma_start_of(c, ups, ups.len(), ups.len(), limit);
        assert(longer.len() == ups.len() + 1);
    }
}

/// Where the thresholds strictly increase and the links are sound, going through the list meets every
/// voter exactly once, as it stands in the list.
pub proof fn law_listing_has_everybody_once<A>(c: Contents<A>, thresholds: Seq<VoteWeight>)
    requires
        c.linked(),
        forall|i: int, j: int|
            0 <= i < j < thresholds.len() ==> thresholds[i] < thresholds[j],
        forall|upper: VoteWeight| #[trigger]
            c.bags.contains_key(upper) ==> thresholds.contains(upper) || upper == VoteWeight::MAX,
    ensures
        ({
            let all = c.listing(thresholds);
            &&& all.len() == c.nodes.dom().len()
            &&& forall|i: int|
                0 <= i < all.len() ==> c.nodes.contains_key((#[trigger] all[i]).id)
                    && c.nodes[all[i].id] == all[i]
            &&& forall|i: int, j: int|
                0 <= i < j < all.len() ==> (#[trigger] all[i]).id != (#[trigger] all[j]).id
            &&& forall|id: A| #[trigger]
                c.nodes.contains_key(id) ==> exists|i: int|
                    0 <= i < all.len() && #[trigger] all[i] == c.nodes[id]
        }),
{
    let all = c.listing(thresholds);
    law_bags_are_the_thresholds(thresholds);
    let uppers = all_uppers(thresholds);
    assert forall|i: int, j: int|
        0 <= i < j < uppers.len() && #[trigger] uppers[i] == #[trigger] uppers[j] implies
        !c.bags.contains_key(uppers[i]) by {
        assert(uppers[i] < uppers[j]);
    }
    law_listing_is_complete(c, thresholds);
    assert forall|i: int, j: int| 0 <= i < j < all.len() implies (#[trigger] all[i]).id != (
    #[trigger] all[j]).id by {
        assert(ids(all)[i] != ids(all)[j]);
    }
    assert forall|id: A| #[trigger] c.nodes.contains_key(id) implies exists|i: int|
        0 <= i < all.len() && #[trigger] all[i] == c.nodes[id] by {
        assert(ids(all).to_set().contains(id));
        let i = choose|i: int| 0 <= i < ids(all).len() && ids(all)[i] == id;
        assert(all[i] == c.nodes[id]);
    }
}

/// Where the links are sound, going through the list goes along them: it begins with a head, each
/// voter is followed by the one that it names, and a tail by the head of the next bag.
pub proof fn law_listing_goes_along_the_links<A>(
    c: Contents<A>,
    thresholds: Seq<VoteWeight>,
    i: int,
)
    requires
        c.linked(),
        0 <= i < c.listing(thresholds).len(),
    ensures
        ({
            let all = c.listing(thresholds);
            &&& i == 0 ==> all[i].prev is None
            &&& all[i].next is Some ==> i + 1 < all.len() && Some(all[i + 1].id) == all[i].next
            &&& all[i].next is None && i + 1 < all.len() ==> all[i + 1].prev is None
        }),
{
    let uppers = all_uppers(thresholds).reverse();
    lemma_listing_along(c, uppers, uppers.len(), i);
}

proof fn lemma_listing_along<A>(c: Contents<A>, uppers: Seq<VoteWeight>, k: nat, i: int)
    requires
        c.linked(),
        k <= uppers.len(),
        0 <= i < c.listing_of(uppers, k).len(),
    ensures
        ({
            let all = c.listing_of(uppers, k);
            &&& i == 0 ==> all[i].prev is None
            &&& all[i].next is Some ==> i + 1 < all.len() && Some(all[i + 1].id) == all[i].next
            &&& all[i].next is None && i + 1 < all.len() ==> all[i + 1].prev is None
        }),
    decreases k,
{
    if k > 0 {
        let all = c.listing_of(uppers, k);
        let before = c.listing_of(uppers, (k - 1) as nat);
        let upper = uppers[k - 1];
        let part = traversal(c.nodes, c.bag_or_new(upper).head);
        assert(all == before + part);
        if i < before.len() {
            lemma_listing_along(c, uppers, (k - 1) as nat, i);
        }
        if part.len() > 0 {
            let s = c.lines()[upper];
            lemma_part(c, upper);
            assert(ids(part) == line(c.lines(), upper));
            assert(c.lines().contains_key(upper));
            assert(chain(c.nodes, s, upper, c.bags[upper].head, c.bags[upper].tail));
            lemma_chain_traversal(c.nodes, s, upper, c.bags[upper].head, c.bags[upper].tail);
            assert(c.nodes[s[0]] == link(s, 0, upper));
            assert(part[0] == c.nodes[s[0]]);
            if i >= before.len() {
                let m = i - before.len();
                assert(c.nodes[s[m]] == link(s, m, upper));
                assert(part[m] == c.nodes[s[m]]);
                if m + 1 < s.len() {
                    assert(c.nodes[s[m + 1]] == link(s, m + 1, upper));
                    assert(part[m + 1] == c.nodes[s[m + 1]]);
                    assert(all[i + 1] == part[m + 1]);
                }
            }
        }
    }
}

/// Where the links are sound, stopping after `limit` voters gives the first of all that are met, as
/// many as are wanted or as there are.
pub proof fn law_stopping_early_gives_the_first<A>(
    c: Contents<A>,
    thresholds: Seq<VoteWeight>,
    limit: nat,
)
    requires
        c.linked(),
    ensures
        ({
            let all = c.listing(thresholds);
            let first = c.listing_start(thresholds, limit);
            &&& first.len() == (if limit < all.len() {
                limit
            } else {
                all.len()
            })
            &&& forall|i: int| 0 <= i < first.len() ==> #[trigger] first[i] == all[i]
        }),
{
    let uppers = all_uppers(thresholds).reverse();
    lemma_linked_ends(c, thresholds);
    lemma_all_uppers(thresholds);
    assert forall|i: int| 0 <= i < uppers.len() implies walk_ends(
        c.nodes,
        c.bag_or_new(#[trigger] uppers[i]).head,
    ) by {
        let ups = all_uppers(thresholds);
        assert(ups.contains(ups[ups.len() - 1 - i]));
        assert(is_bag(thresholds, uppers[i]));
    }
    lemma_start_of_listing(c, uppers, uppers.len(), limit);
}

/// The lines hold, for each stored bag and no other, the ids on the way from its head.
pub proof fn law_lines_are_the_ways<A>(c: Contents<A>, upper: VoteWeight)
    ensures
        c.lines().contains_key(upper) <==> c.bags.contains_key(upper),
        c.bags.contains_key(upper) ==> {
            let way = traversal(c.nodes, c.bags[upper].head);
            &&& c.lines()[upper].len() == way.len()
            &&& forall|i: int| 0 <= i < way.len() ==> #[trigger] c.lines()[upper][i] == way[i].id
        },
        line(c.lines(), upper) == (if c.bags.contains_key(upper) {
            c.lines()[upper]
        } else {
            Seq::empty()
        }),
{
}

} // verus!
