//! What removing voters does to the lines.

use crate::bag::Bag;
use crate::links::{lemma_append, lemma_excise, lemma_lines, lemma_one_place};
use crate::model::{
    all_left, bag_unlinked, chain, chains, excised, joined, line, link, nodes_appended,
    settled, staying, stored, Contents,
};
use crate::thresholds::notional_bag;
use crate::node::Node;
use frame_election_provider_support::VoteWeight;
use vstd::prelude::*;

verus! {

/// The lines after all of `gone` left, bags that nobody stays in included.
pub open spec fn thinned<A>(
    lines: Map<VoteWeight, Seq<A>>,
    gone: Set<A>,
) -> Map<VoteWeight, Seq<A>> {
    Map::new(
        |upper: VoteWeight| lines.contains_key(upper),
        |upper: VoteWeight| staying(lines[upper], gone),
    )
}

/// Those who stay are those of the line who are not gone, none of them twice.
pub proof fn lemma_staying<A>(s: Seq<A>, gone: Set<A>)
    ensures
        forall|id: A| #[trigger]
            staying(s, gone).contains(id) <==> s.contains(id) && !gone.contains(id),
        s.no_duplicates() ==> staying(s, gone).no_duplicates(),
    decreases s.len(),
{
    reveal(Seq::filter);
    let kept = staying(s, gone);
    if s.len() > 0 {
        let rest = staying(s.drop_last(), gone);
        lemma_staying(s.drop_last(), gone);
        assert forall|id: A| #[trigger] kept.contains(id) <==> s.contains(id) && !gone.contains(
            id,
        ) by {
            if kept.contains(id) {
                let i = choose|i: int| 0 <= i < kept.len() && kept[i] == id;
                if i < rest.len() {
                    assert(rest[i] == id);
                    assert(rest.contains(id));
                    let j = choose|j: int| 0 <= j < s.drop_last().len() && s.drop_last()[j] == id;
                    assert(s[j] == id);
                } else {
                    assert(s[s.len() - 1] == id);
                }
            }
            if s.contains(id) && !gone.contains(id) {
                let j = choose|j: int| 0 <= j < s.len() && s[j] == id;
                if j < s.len() - 1 {
                    assert(s.drop_last()[j] == id);
                    assert(rest.contains(id));
                    let i = choose|i: int| 0 <= i < rest.len() && rest[i] == id;
                    assert(kept[i] == id);
                } else {
                    assert(kept[kept.len() - 1] == id);
                }
            }
        }
        if s.no_duplicates() {
            assert(s.drop_last().no_duplicates());
            if !gone.contains(s.last()) {
                assert(!rest.contains(s.last())) by {
                    if rest.contains(s.last()) {
                        let j = choose|j: int|
                            0 <= j < s.drop_last().len() && s.drop_last()[j] == s.last();
                        assert(s[j] == s[s.len() - 1]);
                    }
                }
                assert forall|i: int, j: int| 0 <= i < j < kept.len() implies kept[i] != kept[j] by {
                    assert(rest[i] == kept[i]);
                    if j < rest.len() {
                        assert(rest[j] == kept[j]);
                    } else {
                        assert(rest.contains(kept[i]));
                    }
                }
            }
        }
    }
}

/// Who is not in the line makes no difference by leaving.
pub proof fn lemma_staying_absent<A>(s: Seq<A>, gone: Set<A>, id: A)
    requires
        !s.contains(id),
    ensures
        staying(s, gone.insert(id)) == staying(s, gone),
    decreases s.len(),
{
    reveal(Seq::filter);
    if s.len() > 0 {
        assert(s[s.len() - 1] != id);
        assert(!s.drop_last().contains(id)) by {
            if s.drop_last().contains(id) {
                let j = choose|j: int| 0 <= j < s.drop_last().len() && s.drop_last()[j] == id;
                assert(s[j] == id);
            }
        }
        lemma_staying_absent(s.drop_last(), gone, id);
    }
}

/// When one more leaves, the line closes up where it stood.
pub proof fn lemma_staying_one_less<A>(s: Seq<A>, gone: Set<A>, k: int)
    requires
        s.no_duplicates(),
        0 <= k < staying(s, gone).len(),
    ensures
        staying(s, gone.insert(staying(s, gone)[k])) == staying(s, gone).remove(k),
    decreases s.len(),
{
    reveal(Seq::filter);
    let kept = staying(s, gone);
    let id = kept[k];
    if s.len() > 0 {
        let rest = staying(s.drop_last(), gone);
        let last = s.last();
        assert(s.drop_last().no_duplicates());
        if gone.contains(last) {
            lemma_staying_one_less(s.drop_last(), gone, k);
        } else {
            assert(kept == rest.push(last));
            if k < rest.len() {
                assert(rest[k] == id);
                lemma_staying(s.drop_last(), gone);
                assert(rest.contains(id));
                assert(last != id) by {
                    let j = choose|j: int|
                        0 <= j < s.drop_last().len() && s.drop_last()[j] == id;
                    assert(s[j] != s[s.len() - 1]);
                }
                lemma_staying_one_less(s.drop_last(), gone, k);
                assert(kept.remove(k) =~= rest.remove(k).push(last));
            } else {
                assert(id == last);
                assert(!s.drop_last().contains(id)) by {
                    if s.drop_last().contains(id) {
                        let j = choose|j: int|
                            0 <= j < s.drop_last().len() && s.drop_last()[j] == id;
                        assert(s[j] != s[s.len() - 1]);
                    }
                }
                lemma_staying_absent(s.drop_last(), gone, id);
                assert(kept.remove(k) =~= rest);
            }
        }
    }
}

/// Chains depend on the ends of the bags alone.
pub proof fn lemma_same_ends<A>(
    nodes: Map<A, Node<A>>,
    bags: Map<VoteWeight, Bag<A>>,
    others: Map<VoteWeight, Bag<A>>,
    lines: Map<VoteWeight, Seq<A>>,
)
    requires
        chains(nodes, bags, lines),
        bags.dom() == others.dom(),
        forall|upper: VoteWeight| #[trigger]
            bags.contains_key(upper) ==> bags[upper].head == others[upper].head
                && bags[upper].tail == others[upper].tail,
    ensures
        chains(nodes, others, lines),
{
    assert forall|upper: VoteWeight| #[trigger] lines.contains_key(upper) implies chain(
        nodes,
        lines[upper],
        upper,
        others[upper].head,
        others[upper].tail,
    ) by {
        assert(bags.contains_key(upper));
    }
}

/// When the voter at place `k` of the bag `upper` leaves after all of `gone`, that line alone gets
/// shorter.
pub proof fn lemma_one_leaves<A>(
    nodes: Map<A, Node<A>>,
    bags: Map<VoteWeight, Bag<A>>,
    lines: Map<VoteWeight, Seq<A>>,
    gone: Set<A>,
    upper: VoteWeight,
    k: int,
)
    requires
        chains(nodes, bags, lines),
        lines.contains_key(upper),
        0 <= k < staying(lines[upper], gone).len(),
    ensures
        thinned(lines, gone.insert(staying(lines[upper], gone)[k])) == thinned(lines, gone).insert(
            upper,
            staying(lines[upper], gone).remove(k),
        ),
{
    let id = staying(lines[upper], gone)[k];
    lemma_staying(lines[upper], gone);
    assert(staying(lines[upper], gone).contains(id));
    assert forall|u: VoteWeight| lines.contains_key(u) implies #[trigger] thinned(
        lines,
        gone.insert(id),
    )[u] == thinned(lines, gone).insert(upper, staying(lines[upper], gone).remove(k))[u] by {
        assert(chain(nodes, lines[u], u, bags[u].head, bags[u].tail));
        if u == upper {
            lemma_staying_one_less(lines[u], gone, k);
        } else {
            assert(!lines[u].contains(id)) by {
                if lines[u].contains(id) {
                    let i = choose|i: int| 0 <= i < lines[u].len() && lines[u][i] == id;
                    let j = choose|j: int| 0 <= j < lines[upper].len() && lines[upper][j] == id;
                    lemma_one_place(nodes, bags, lines, u, i, upper, j);
                }
            }
            lemma_staying_absent(lines[u], gone, id);
        }
    }
    assert(thinned(lines, gone.insert(id)) =~= thinned(lines, gone).insert(
        upper,
        staying(lines[upper], gone).remove(k),
    ));
}

/// Who is in no line makes no difference by leaving.
pub proof fn lemma_nobody_leaves<A>(
    nodes: Map<A, Node<A>>,
    bags: Map<VoteWeight, Bag<A>>,
    lines: Map<VoteWeight, Seq<A>>,
    gone: Set<A>,
    id: A,
)
    requires
        chains(nodes, bags, lines),
        !nodes.contains_key(id) || gone.contains(id),
    ensures
        thinned(lines, gone.insert(id)) == thinned(lines, gone),
{
    if gone.contains(id) {
        assert(gone.insert(id) =~= gone);
    } else {
        assert forall|u: VoteWeight| lines.contains_key(u) implies #[trigger] thinned(
            lines,
            gone.insert(id),
        )[u] == thinned(lines, gone)[u] by {
            assert(chain(nodes, lines[u], u, bags[u].head, bags[u].tail));
            assert(!lines[u].contains(id)) by {
                if lines[u].contains(id) {
                    let i = choose|i: int| 0 <= i < lines[u].len() && lines[u][i] == id;
                    assert(nodes[lines[u][i]] == link(lines[u], i, u));
                }
            }
            lemma_staying_absent(lines[u], gone, id);
        }
        assert(thinned(lines, gone.insert(id)) =~= thinned(lines, gone));
    }
}

/// With nobody gone, everybody stays.
pub proof fn lemma_thinned_by_nobody<A>(lines: Map<VoteWeight, Seq<A>>)
    ensures
        thinned(lines, Set::empty()) == lines,
{
    assert forall|upper: VoteWeight| lines.contains_key(upper) implies #[trigger] thinned(
        lines,
        Set::empty(),
    )[upper] == lines[upper] by {
        lemma_nobody_gone(lines[upper]);
    }
    assert(thinned(lines, Set::empty()) =~= lines);
}

/// With nobody gone, the whole line stays.
pub proof fn lemma_nobody_gone<A>(s: Seq<A>)
    ensures
        staying(s, Set::empty()) == s,
    decreases s.len(),
{
    reveal(Seq::filter);
    if s.len() > 0 {
        lemma_nobody_gone(s.drop_last());
        assert(s.drop_last().push(s.last()) =~= s);
    }
}

/// One more at the end is one more in the set.
pub proof fn lemma_push_to_set<A>(s: Seq<A>, id: A)
    ensures
        s.push(id).to_set() == s.to_set().insert(id),
{
    let longer = s.push(id);
    assert forall|other: A| #[trigger] longer.to_set().contains(other) <==> s.to_set().insert(
        id,
    ).contains(other) by {
        if longer.contains(other) {
            let j = choose|j: int| 0 <= j < longer.len() && longer[j] == other;
            if j < s.len() {
                assert(s[j] == other);
            }
        }
        if s.contains(other) {
            let j = choose|j: int| 0 <= j < s.len() && s[j] == other;
            assert(longer[j] == other);
        }
        assert(longer[s.len() as int] == id);
    }
    assert(longer.to_set() =~= s.to_set().insert(id));
}

/// Taking one more of a sequence is one more in the set.
pub proof fn lemma_take_one_more<A>(s: Seq<A>, i: int)
    requires
        0 <= i < s.len(),
    ensures
        s.take(i + 1).to_set() == s.take(i).to_set().insert(s[i]),
{
    assert(s.take(i + 1) =~= s.take(i).push(s[i]));
    lemma_push_to_set(s.take(i), s[i]);
}

/// Once the changed bags are put back, the bags that are left are those somebody stays in.
pub proof fn lemma_settled<A>(
    nodes: Map<A, Node<A>>,
    start: Contents<A>,
    changed: Map<VoteWeight, Bag<A>>,
    gone: Set<A>,
)
    requires
        start.linked(),
        forall|upper: VoteWeight| #[trigger]
            changed.contains_key(upper) ==> start.bags.contains_key(upper),
        chains(nodes, start.bags.union_prefer_right(changed), thinned(start.lines(), gone)),
    ensures
        chains(
            nodes,
            settled(start.bags, changed, changed.dom()),
            all_left(start.lines(), gone),
        ),
{
    let lines = start.lines();
    let bags = settled(start.bags, changed, changed.dom());
    let current = start.bags.union_prefer_right(changed);
    let left = all_left(lines, gone);
    assert forall|upper: VoteWeight| #[trigger] bags.contains_key(upper) <==> left.contains_key(
        upper,
    ) by {
        if lines.contains_key(upper) {
            assert(thinned(lines, gone).contains_key(upper));
            assert(chain(
                start.nodes,
                lines[upper],
                upper,
                start.bags[upper].head,
                start.bags[upper].tail,
            ));
        }
    }
    assert(left.dom() =~= bags.dom());
    assert forall|upper: VoteWeight| #[trigger] left.contains_key(upper) implies chain(
        nodes,
        left[upper],
        upper,
        bags[upper].head,
        bags[upper].tail,
    ) by {
        assert(thinned(lines, gone).contains_key(upper));
    }
    assert forall|id: A| #[trigger] nodes.contains_key(id) implies left.contains_key(
        nodes[id].bag_upper,
    ) && left[nodes[id].bag_upper].contains(id) by {
        assert(thinned(lines, gone)[nodes[id].bag_upper].contains(id));
    }
}

/// Those who are left and those who left make up the whole.
pub proof fn lemma_counts<A>(all: Set<A>, gone: Set<A>)
    requires
        all.finite(),
    ensures
        all.difference(gone).finite(),
        all.difference(gone).len() + all.intersect(gone).len() == all.len(),
{
    assert(all.difference(gone).disjoint(all.intersect(gone)));
    assert(all.difference(gone).union(all.intersect(gone)) =~= all);
    vstd::set_lib::lemma_set_disjoint_lens(all.difference(gone), all.intersect(gone));
}

/// What the removal of some voters has come to, where the links are sound: they are gone, and those
/// who stay are linked in the order in which they were.
pub proof fn lemma_removal<A>(c: Contents<A>, voters: Seq<A>)
    requires
        c.linked(),
    ensures
        ({
            let removal = c.removal(voters);
            let gone = voters.to_set();
            &&& removal.nodes.dom() == c.nodes.dom().difference(gone)
            &&& removal.count == c.nodes.dom().intersect(gone).len()
            &&& removal.count <= c.nodes.dom().len()
            &&& forall|upper: VoteWeight| #[trigger]
                removal.bags.contains_key(upper) ==> c.bags.contains_key(upper)
                    && removal.bags[upper].bag_upper == upper
            &&& chains(
                removal.nodes,
                c.bags.union_prefer_right(removal.bags),
                thinned(c.lines(), gone),
            )
        }),
    decreases voters.len(),
{
    let lines = c.lines();
    let removal = c.removal(voters);
    if voters.len() == 0 {
        assert(voters.to_set() =~= Set::empty());
        assert(c.bags.union_prefer_right(removal.bags) =~= c.bags);
        lemma_thinned_by_nobody(lines);
        assert(c.nodes.dom().difference(voters.to_set()) =~= c.nodes.dom());
        assert(c.nodes.dom().intersect(voters.to_set()) =~= Set::empty());
    } else {
        let fewer = voters.drop_last();
        let id = voters.last();
        let so_far = c.removal(fewer);
        let gone = fewer.to_set();
        let current = c.bags.union_prefer_right(so_far.bags);
        lemma_removal(c, fewer);
        lemma_push_to_set(fewer, id);
        assert(fewer.push(id) =~= voters);
        assert(c.nodes.dom().difference(gone.insert(id)) =~= c.nodes.dom().difference(gone).remove(
            id,
        ));
        match stored(so_far.nodes, Some(id)) {
            Some(node) => {
                let upper = node.bag_upper;
                let ends = Bag { bag_upper: upper, ..current[upper] };
                assert(so_far.nodes.contains_key(id));
                assert(thinned(lines, gone)[upper].contains(id));
                let k = choose|k: int|
                    0 <= k < thinned(lines, gone)[upper].len() && thinned(lines, gone)[upper][k]
                        == id;
                lemma_excise(so_far.nodes, current, thinned(lines, gone), ends, k);
                lemma_one_leaves(c.nodes, c.bags, lines, gone, upper, k);
                assert(c.nodes.dom().intersect(gone.insert(id)) =~= c.nodes.dom().intersect(
                    gone,
                ).insert(id));
                let unlinked = current.insert(upper, bag_unlinked(ends, node));
                assert(unlinked.dom() =~= c.bags.union_prefer_right(removal.bags).dom());
                lemma_same_ends(
                    removal.nodes,
                    unlinked,
                    c.bags.union_prefer_right(removal.bags),
                    thinned(lines, gone.insert(id)),
                );
            },
            None => {
                lemma_nobody_leaves(c.nodes, c.bags, lines, gone, id);
                assert(c.nodes.dom().intersect(gone.insert(id)) =~= c.nodes.dom().intersect(gone));
            },
        }
        vstd::set_lib::lemma_len_subset(
            c.nodes.dom().intersect(voters.to_set()),
            c.nodes.dom(),
        );
    }
}

/// Removing voters takes exactly them out of their bags, and everybody else stays in the order in
/// which they were; a bag that nobody stays in is no more.
pub proof fn law_remove_leaves_the_others<A>(c: Contents<A>, voters: Seq<A>)
    requires
        c.linked(),
    ensures
        c.all_removed(voters).linked(),
        c.all_removed(voters).lines() == all_left(c.lines(), voters.to_set()),
        c.all_removed(voters).nodes.dom() == c.nodes.dom().difference(voters.to_set()),
        c.removal(voters).count == c.nodes.dom().intersect(voters.to_set()).len(),
        c.counted() ==> c.all_removed(voters).counted(),
{
    let gone = voters.to_set();
    let removal = c.removal(voters);
    lemma_removal(c, voters);
    lemma_settled(removal.nodes, c, removal.bags, gone);
    lemma_lines(c.all_removed(voters), all_left(c.lines(), gone));
    lemma_counts(c.nodes.dom(), gone);
}

/// Moving a voter takes it out of its bag and puts it at the end of the bag for its weight.
pub proof fn law_move_joins_the_end<A>(
    c: Contents<A>,
    thresholds: Seq<VoteWeight>,
    id: A,
    weight: VoteWeight,
)
    requires
        c.linked(),
        c.nodes.contains_key(id),
    ensures
        ({
            let after = c.moved(thresholds, c.nodes[id], weight);
            &&& after.linked()
            &&& after.lines() == joined(
                all_left(c.lines(), Set::empty().insert(id)),
                notional_bag(thresholds, weight),
                id,
            )
            &&& after.nodes.dom() == c.nodes.dom()
        }),
{
    let node = c.nodes[id];
    let lines = c.lines();
    let gone = Set::empty().insert(id);
    let upper = node.bag_upper;
    let ends = c.bag_or_new(upper);
    let changed = Map::empty().insert(upper, bag_unlinked(ends, node));
    let detached = c.detached(node);
    let after = c.moved(thresholds, node, weight);
    assert(lines[upper].contains(id));
    let k = choose|k: int| 0 <= k < lines[upper].len() && lines[upper][k] == id;
    lemma_excise(c.nodes, c.bags, lines, ends, k);
    lemma_thinned_by_nobody(lines);
    assert(thinned(lines, Set::empty())[upper] == lines[upper]);
    lemma_one_leaves(c.nodes, c.bags, lines, Set::empty(), upper, k);
    assert(c.bags.union_prefer_right(changed) =~= c.bags.insert(upper, bag_unlinked(ends, node)));
    lemma_settled(excised(c.nodes, node).remove(id), c, changed, gone);
    assert(settled(c.bags, changed, changed.dom()).dom() =~= detached.bags.dom());
    lemma_same_ends(
        excised(c.nodes, node).remove(id),
        settled(c.bags, changed, changed.dom()),
        detached.bags,
        all_left(lines, gone),
    );
    let new_upper = notional_bag(thresholds, weight);
    let bag = detached.bag_or_new(new_upper);
    let new_node = Node { id, prev: bag.tail, next: None, bag_upper: new_upper };
    lemma_append(detached.nodes.remove(id), detached.bags, all_left(lines, gone), bag, id);
    assert(detached.nodes.remove(id).insert(id, new_node) =~= detached.nodes.insert(id, new_node));
    assert(nodes_appended(detached.nodes, bag, id) == nodes_appended(
        detached.nodes.remove(id),
        bag,
        id,
    ));
    assert(detached.nodes.dom().remove(id).insert(id) =~= detached.nodes.dom());
    lemma_lines(after, joined(all_left(lines, gone), new_upper, id));
    assert(line(all_left(lines, gone), new_upper).push(id).len() > 0);
}

} // verus!
