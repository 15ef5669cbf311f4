//! What following links meets, and what the sanity checks tell of it.

use crate::bag::Bag;
use crate::links::lemma_traversal;
use crate::model::{bag_fault, ids, last_of, traversal, walk, walk_ends, Contents};
use crate::node::Node;
use crate::thresholds::{all_uppers, is_bag, law_bags_are_the_thresholds, sorted};
use frame_election_provider_support::VoteWeight;
use vstd::prelude::*;

verus! {

/// `link` names somebody who has a node.
pub open spec fn leads<A>(nodes: Map<A, Node<A>>, link: Option<A>) -> bool {
    link is Some && nodes.contains_key(link->0)
}

/// `path` is a way along the links: it begins with the node that `start` leads to, and each node is
/// followed by the one that its own link leads to.
pub open spec fn along<A>(nodes: Map<A, Node<A>>, start: Option<A>, path: Seq<Node<A>>) -> bool {
    &&& path.len() > 0 ==> leads(nodes, start) && path[0] == nodes[start->0]
    &&& forall|i: int|
        0 <= i && i + 1 < path.len() ==> leads(nodes, (#[trigger] path[i]).next) && path[i + 1]
            == nodes[path[i].next->0]
}

/// Nothing comes after `path`.
pub open spec fn goes_no_further<A>(
    nodes: Map<A, Node<A>>,
    start: Option<A>,
    path: Seq<Node<A>>,
) -> bool {
    if path.len() == 0 {
        !leads(nodes, start)
    } else {
        !leads(nodes, path.last().next)
    }
}

/// `path` is the whole way along the links from `start` to where they end.
pub open spec fn whole_way<A>(
    nodes: Map<A, Node<A>>,
    start: Option<A>,
    path: Seq<Node<A>>,
) -> bool {
    along(nodes, start, path) && goes_no_further(nodes, start, path)
}

/// No two nodes of `path` have the same id.
pub open spec fn meets_once<A>(path: Seq<Node<A>>) -> bool {
    forall|i: int, j: int|
        0 <= i < j < path.len() ==> (#[trigger] path[i]).id != (#[trigger] path[j]).id
}

/// The node of the head has nobody before it; without such a node there is no tail.
pub open spec fn head_is_first<A>(nodes: Map<A, Node<A>>, bag: Bag<A>) -> bool {
    if leads(nodes, bag.head) {
        !leads(nodes, nodes[bag.head->0].prev)
    } else {
        bag.tail is None
    }
}

/// The node of the tail has nobody behind it; without such a node there is no head.
pub open spec fn tail_is_last<A>(nodes: Map<A, Node<A>>, bag: Bag<A>) -> bool {
    if leads(nodes, bag.tail) {
        !leads(nodes, nodes[bag.tail->0].next)
    } else {
        bag.head is None
    }
}

/// The way from the head ends without meeting anybody twice.
pub open spec fn has_no_loop<A>(nodes: Map<A, Node<A>>, bag: Bag<A>) -> bool {
    exists|path: Seq<Node<A>>| #[trigger] whole_way(nodes, bag.head, path) && meets_once(path)
}

/// The way from the head ends at the tail.
pub open spec fn comes_to_tail<A>(nodes: Map<A, Node<A>>, bag: Bag<A>) -> bool {
    exists|path: Seq<Node<A>>|
        {
            &&& #[trigger] whole_way(nodes, bag.head, path)
            &&& path.len() > 0 ==> bag.tail == Some(path.last().id)
            &&& path.len() == 0 ==> bag.tail is None
        }
}

/// Nothing is wrong with the bag.
pub open spec fn sound_bag<A>(nodes: Map<A, Node<A>>, bag: Bag<A>) -> bool {
    &&& head_is_first(nodes, bag)
    &&& tail_is_last(nodes, bag)
    &&& has_no_loop(nodes, bag)
    &&& comes_to_tail(nodes, bag)
}

/// A walk goes along the links, as far as its limit lets it or as there are links.
pub proof fn law_walk_goes_along_the_links<A>(
    nodes: Map<A, Node<A>>,
    start: Option<A>,
    limit: nat,
)
    ensures
        walk(nodes, start, limit).len() <= limit,
        along(nodes, start, walk(nodes, start, limit)),
        walk(nodes, start, limit).len() < limit ==> goes_no_further(
            nodes,
            start,
            walk(nodes, start, limit),
        ),
    decreases limit,
{
    let found = walk(nodes, start, limit);
    if limit > 0 && leads(nodes, start) {
        let node = nodes[start->0];
        let rest = walk(nodes, node.next, (limit - 1) as nat);
        law_walk_goes_along_the_links(nodes, node.next, (limit - 1) as nat);
        assert(found == seq![node] + rest);
        assert forall|i: int| 0 <= i && i + 1 < found.len() implies leads(
            nodes,
            (#[trigger] found[i]).next,
        ) && found[i + 1] == nodes[found[i].next->0] by {
            assert(found[i + 1] == rest[i]);
            if i > 0 {
                assert(found[i] == rest[i - 1]);
            }
        }
        if rest.len() > 0 {
            assert(found.last() == rest.last());
        }
    }
}

/// There is at most one way of a given length along the links, and a whole way has no longer one.
proof fn lemma_one_way<A>(
    nodes: Map<A, Node<A>>,
    start: Option<A>,
    path: Seq<Node<A>>,
    other: Seq<Node<A>>,
)
    requires
        whole_way(nodes, start, path),
        along(nodes, start, other),
    ensures
        other.len() <= path.len(),
        forall|i: int| 0 <= i < other.len() ==> other[i] == path[i],
{
    lemma_same_beginning(nodes, start, path, other, other.len());
}

proof fn lemma_same_beginning<A>(
    nodes: Map<A, Node<A>>,
    start: Option<A>,
    path: Seq<Node<A>>,
    other: Seq<Node<A>>,
    n: nat,
)
    requires
        whole_way(nodes, start, path),
        along(nodes, start, other),
        n <= other.len(),
    ensures
        n <= path.len(),
        forall|i: int| 0 <= i < n ==> other[i] == path[i],
    decreases n,
{
    if n > 0 {
        lemma_same_beginning(nodes, start, path, other, (n - 1) as nat);
        if n > 1 {
            assert(leads(nodes, other[n - 2].next) && other[n - 2 + 1] == nodes[other[n - 2].next->0]);
            assert(other[n - 2] == path[n - 2]);
            if n - 1 < path.len() {
                assert(path[n - 2 + 1] == nodes[path[n - 2].next->0]);
            } else {
                assert(path.last() == path[n - 2]);
            }
        }
    }
}

/// Following the links ends if and only if there is a whole way, and the traversal is that way and no
/// other.
pub proof fn law_traversal_is_the_whole_way<A>(
    nodes: Map<A, Node<A>>,
    start: Option<A>,
    path: Seq<Node<A>>,
)
    ensures
        walk_ends(nodes, start) ==> whole_way(nodes, start, traversal(nodes, start)),
        whole_way(nodes, start, path) ==> walk_ends(nodes, start) && traversal(nodes, start)
            == path,
{
    if walk_ends(nodes, start) {
        let limit = choose|limit: nat| #[trigger] walk(nodes, start, limit).len() < limit;
        law_walk_goes_along_the_links(nodes, start, limit);
    }
    if whole_way(nodes, start, path) {
        let limit = path.len() + 1;
        let found = walk(nodes, start, limit);
        law_walk_goes_along_the_links(nodes, start, limit);
        lemma_one_way(nodes, start, path, found);
        lemma_traversal(nodes, start, limit);
        lemma_one_way(nodes, start, found, path);
        assert(found =~= path);
    }
}

/// A way that meets the same entry twice does not end.
pub proof fn law_circles_do_not_end<A>(
    nodes: Map<A, Node<A>>,
    start: Option<A>,
    path: Seq<Node<A>>,
    i: int,
    j: int,
)
    requires
        along(nodes, start, path),
        0 <= i < j < path.len(),
        path[i] == path[j],
    ensures
        !walk_ends(nodes, start),
{
    if walk_ends(nodes, start) {
        let whole = traversal(nodes, start);
        law_traversal_is_the_whole_way(nodes, start, whole);
        lemma_one_way(nodes, start, whole, path);
        lemma_shifted(nodes, start, whole, i, j, (whole.len() - j) as nat);
    }
}

/// A whole way has the same node at no two places: it would go on from both in the same manner.
proof fn lemma_shifted<A>(
    nodes: Map<A, Node<A>>,
    start: Option<A>,
    whole: Seq<Node<A>>,
    i: int,
    j: int,
    left: nat,
)
    requires
        whole_way(nodes, start, whole),
        0 <= i < j < whole.len(),
        left == whole.len() - j,
    ensures
        whole[i] != whole[j],
    decreases left,
{
    assert(leads(nodes, whole[i].next) && whole[i + 1] == nodes[whole[i].next->0]);
    if j + 1 < whole.len() {
        assert(whole[j + 1] == nodes[whole[j].next->0]);
        lemma_shifted(nodes, start, whole, i + 1, j + 1, (left - 1) as nat);
    } else {
        assert(whole.last() == whole[j]);
    }
}

/// The bag check tells what is wrong with a bag: that its head has somebody before it, that its tail
/// has somebody behind it, that the way from its head has a loop, or that it does not come to the
/// tail, whichever is the case first; and it passes a bag if and only if none of that is so.
pub proof fn law_bag_check_tells_the_fault<A>(nodes: Map<A, Node<A>>, bag: Bag<A>)
    ensures
        bag_fault(nodes, bag) is None <==> sound_bag(nodes, bag),
        bag_fault(nodes, bag) == Some("head has a prev"@) <==> !head_is_first(nodes, bag),
        bag_fault(nodes, bag) == Some("tail has a next"@) <==> head_is_first(nodes, bag)
            && !tail_is_last(nodes, bag),
        bag_fault(nodes, bag) == Some("duplicate found in bag"@) <==> head_is_first(nodes, bag)
            && tail_is_last(nodes, bag) && !has_no_loop(nodes, bag),
        bag_fault(nodes, bag) == Some("tail is not reached from head"@) <==> head_is_first(nodes, bag)
            && tail_is_last(nodes, bag) && has_no_loop(nodes, bag) && !comes_to_tail(nodes, bag),
{
    lemma_fault_texts();
    let whole = traversal(nodes, bag.head);
    law_traversal_is_the_whole_way(nodes, bag.head, whole);
    assert(has_no_loop(nodes, bag) <==> walk_ends(nodes, bag.head) && ids(whole).no_duplicates())
        by {
        if has_no_loop(nodes, bag) {
            let path = choose|path: Seq<Node<A>>| #[trigger]
                whole_way(nodes, bag.head, path) && meets_once(path);
            law_traversal_is_the_whole_way(nodes, bag.head, path);
            assert forall|i: int, j: int| 0 <= i < j < ids(whole).len() implies ids(whole)[i]
                != ids(whole)[j] by {
                assert(whole[i].id != whole[j].id);
            }
        }
        if walk_ends(nodes, bag.head) && ids(whole).no_duplicates() {
            assert forall|i: int, j: int| 0 <= i < j < whole.len() implies (#[trigger] whole[i]).id
                != (#[trigger] whole[j]).id by {
                assert(ids(whole)[i] != ids(whole)[j]);
            }
        }
    }
    if walk_ends(nodes, bag.head) {
        assert(comes_to_tail(nodes, bag) <==> last_of(ids(whole)) == bag.tail) by {
            if whole.len() > 0 {
                assert(ids(whole).last() == whole.last().id);
            }
            if comes_to_tail(nodes, bag) {
                let path = choose|path: Seq<Node<A>>|
                    {
                        &&& #[trigger] whole_way(nodes, bag.head, path)
                        &&& path.len() > 0 ==> bag.tail == Some(path.last().id)
                        &&& path.len() == 0 ==> bag.tail is None
                    };
                law_traversal_is_the_whole_way(nodes, bag.head, path);
            }
        }
    }
}

/// The texts of the faults differ.
proof fn lemma_fault_texts()
    ensures
        "head has a prev"@ != "tail has a next"@,
        "head has a prev"@ != "duplicate found in bag"@,
        "head has a prev"@ != "tail is not reached from head"@,
        "tail has a next"@ != "duplicate found in bag"@,
        "tail has a next"@ != "tail is not reached from head"@,
        "duplicate found in bag"@ != "tail is not reached from head"@,
        "duplicate identified"@ != "iter_count != stored_count"@,
        "duplicate identified"@ != "head has a prev"@,
        "duplicate identified"@ != "tail has a next"@,
        "duplicate identified"@ != "duplicate found in bag"@,
        "duplicate identified"@ != "tail is not reached from head"@,
        "iter_count != stored_count"@ != "head has a prev"@,
        "iter_count != stored_count"@ != "tail has a next"@,
        "iter_count != stored_count"@ != "duplicate found in bag"@,
        "iter_count != stored_count"@ != "tail is not reached from head"@,
{
    reveal_strlit("head has a prev");
    reveal_strlit("tail has a next");
    reveal_strlit("duplicate found in bag");
    reveal_strlit("tail is not reached from head");
    reveal_strlit("duplicate identified");
    reveal_strlit("iter_count != stored_count");
    assert("head has a prev"@[0] != "tail has a next"@[0]);
    assert("head has a prev"@.len() == 15);
    assert("tail has a next"@.len() == 15);
    assert("duplicate found in bag"@.len() == 22);
    assert("tail is not reached from head"@.len() == 29);
    assert("duplicate identified"@.len() == 20);
    assert("iter_count != stored_count"@.len() == 26);
}

/// The stored bag `upper`, or an empty one where none is stored.
pub open spec fn bag_at<A>(c: Contents<A>, upper: VoteWeight) -> Bag<A> {
    if c.bags.contains_key(upper) {
        Bag { head: c.bags[upper].head, tail: c.bags[upper].tail, bag_upper: upper }
    } else {
        Bag { head: None, tail: None, bag_upper: upper }
    }
}

/// The way through each bag of the thresholds ends, the greatest vote weight being one of them.
pub open spec fn every_way_ends<A>(c: Contents<A>, thresholds: Seq<VoteWeight>) -> bool {
    forall|upper: VoteWeight|
        (thresholds.contains(upper) || upper == VoteWeight::MAX)
            && #[trigger] c.bags.contains_key(upper) ==> exists|path: Seq<Node<A>>|
            whole_way(c.nodes, c.bags[upper].head, path)
}

/// Each bag of the thresholds is sound, the greatest vote weight being one of them.
pub open spec fn every_bag_is_sound<A>(c: Contents<A>, thresholds: Seq<VoteWeight>) -> bool {
    forall|upper: VoteWeight|
        thresholds.contains(upper) || upper == VoteWeight::MAX ==> #[trigger] sound_bag(
            c.nodes,
            bag_at(c, upper),
        )
}

proof fn lemma_every_way_ends<A>(c: Contents<A>, thresholds: Seq<VoteWeight>)
    ensures
        c.listing_ends(thresholds) <==> every_way_ends(c, thresholds),
{
    assert forall|upper: VoteWeight| c.bags.contains_key(upper) implies (#[trigger] walk_ends(
        c.nodes,
        c.bag_or_new(upper).head,
    ) <==> exists|path: Seq<Node<A>>| whole_way(c.nodes, c.bags[upper].head, path)) by {
        let head = c.bags[upper].head;
        law_traversal_is_the_whole_way(c.nodes, head, traversal(c.nodes, head));
        if exists|path: Seq<Node<A>>| whole_way(c.nodes, head, path) {
            let path = choose|path: Seq<Node<A>>| whole_way(c.nodes, head, path);
            law_traversal_is_the_whole_way(c.nodes, head, path);
        }
    }
    assert forall|upper: VoteWeight| !c.bags.contains_key(upper) implies #[trigger] walk_ends(
        c.nodes,
        c.bag_or_new(upper).head,
    ) by {
        assert(whole_way(c.nodes, None, Seq::<Node<A>>::empty()));
        law_traversal_is_the_whole_way(c.nodes, None, Seq::empty());
    }
    if c.listing_ends(thresholds) {
        assert forall|upper: VoteWeight|
            (thresholds.contains(upper) || upper == VoteWeight::MAX)
                && #[trigger] c.bags.contains_key(upper) implies exists|path: Seq<Node<A>>|
            whole_way(c.nodes, c.bags[upper].head, path) by {
            assert(is_bag(thresholds, upper));
            assert(walk_ends(c.nodes, c.bag_or_new(upper).head));
        }
    }
    if every_way_ends(c, thresholds) {
        assert forall|upper: VoteWeight| #[trigger]
            is_bag(thresholds, upper) implies walk_ends(
            c.nodes,
            c.bag_or_new(upper).head,
        ) by {
            if c.bags.contains_key(upper) {
                assert(thresholds.contains(upper) || upper == VoteWeight::MAX);
            }
        }
    }
}

/// The faults of bags come in the order of the bags: the first bag that has one tells it.
proof fn lemma_first_fault<A>(c: Contents<A>, uppers: Seq<VoteWeight>)
    ensures
        c.first_fault(uppers) is None <==> forall|i: int|
            0 <= i < uppers.len() ==> sound_bag(c.nodes, bag_at(c, #[trigger] uppers[i])),
        c.first_fault(uppers) is Some ==> exists|i: int|
            {
                &&& 0 <= i < uppers.len()
                &&& c.first_fault(uppers) == bag_fault(c.nodes, bag_at(c, #[trigger] uppers[i]))
                &&& forall|j: int|
                    0 <= j < i ==> sound_bag(c.nodes, bag_at(c, #[trigger] uppers[j]))
            },
    decreases uppers.len(),
{
    if uppers.len() > 0 {
        let rest = uppers.drop_first();
        assert(c.bag_or_new(uppers[0]) == bag_at(c, uppers[0]));
        law_bag_check_tells_the_fault(c.nodes, bag_at(c, uppers[0]));
        lemma_first_fault(c, rest);
        assert(forall|i: int| 0 <= i < rest.len() ==> rest[i] == #[trigger] uppers[i + 1]);
        if sound_bag(c.nodes, bag_at(c, uppers[0])) {
            assert(c.first_fault(uppers) == c.first_fault(rest));
            if c.first_fault(rest) is None {
                assert forall|i: int| 0 <= i < uppers.len() implies sound_bag(
                    c.nodes,
                    bag_at(c, #[trigger] uppers[i]),
                ) by {
                    if i > 0 {
                        assert(sound_bag(c.nodes, bag_at(c, rest[i - 1])));
                    }
                }
            } else {
                let k = choose|k: int|
                    {
                        &&& 0 <= k < rest.len()
                        &&& c.first_fault(rest) == bag_fault(
                            c.nodes,
                            bag_at(c, #[trigger] rest[k]),
                        )
                        &&& forall|j: int|
                            0 <= j < k ==> sound_bag(c.nodes, bag_at(c, #[trigger] rest[j]))
                    };
                assert forall|j: int| 0 <= j < k + 1 implies sound_bag(
                    c.nodes,
                    bag_at(c, #[trigger] uppers[j]),
                ) by {
                    if j > 0 {
                        assert(sound_bag(c.nodes, bag_at(c, rest[j - 1])));
                    }
                }
                assert(c.first_fault(uppers) == bag_fault(c.nodes, bag_at(c, uppers[k + 1])));
                law_bag_check_tells_the_fault(c.nodes, bag_at(c, uppers[k + 1]));
            }
        } else {
            assert(c.first_fault(uppers) == bag_fault(c.nodes, bag_at(c, uppers[0])));
        }
    }
}

/// The list check passes a list if and only if going through its bags ends and meets nobody twice,
/// as many voters are met as were counted, and each bag of the thresholds is sound.
pub proof fn law_list_check_passes_sound_lists_alone<A>(
    c: Contents<A>,
    thresholds: Seq<VoteWeight>,
)
    ensures
        c.fault(thresholds) is None <==> {
            &&& every_way_ends(c, thresholds)
            &&& meets_once(c.listing(thresholds))
            &&& c.listing(thresholds).len() == c.counter
            &&& every_bag_is_sound(c, thresholds)
        },
{
    law_list_check_tells_the_fault(c, thresholds);
}

/// The list check tells what is wrong with a list: that going through its bags does not end or meets
/// somebody twice, that another number of voters is met than was counted, or else the fault of the
/// first bag, from the least threshold on, that has one.
pub proof fn law_list_check_tells_the_fault<A>(c: Contents<A>, thresholds: Seq<VoteWeight>)
    ensures
        ({
            let all = c.listing(thresholds);
            let fault = c.fault(thresholds);
            let once = every_way_ends(c, thresholds) && meets_once(all);
            &&& fault == Some("duplicate identified"@) <==> !once
            &&& fault == Some("iter_count != stored_count"@) <==> once && all.len() != c.counter
            &&& fault is None <==> once && all.len() == c.counter && every_bag_is_sound(
                c,
                thresholds,
            )
            &&& once && all.len() == c.counter && fault is Some ==> exists|upper: VoteWeight|
                {
                    &&& thresholds.contains(upper) || upper == VoteWeight::MAX
                    &&& fault == #[trigger] bag_fault(c.nodes, bag_at(c, upper))
                    &&& sorted(thresholds) ==> forall|lesser: VoteWeight|
                        thresholds.contains(lesser) && lesser < upper ==> #[trigger] sound_bag(
                            c.nodes,
                            bag_at(c, lesser),
                        )
                }
        }),
{
    let all = c.listing(thresholds);
    let uppers = all_uppers(thresholds);
    lemma_fault_texts();
    lemma_every_way_ends(c, thresholds);
    lemma_first_fault(c, uppers);
    law_bags_are_the_thresholds(thresholds);
    assert(meets_once(all) <==> ids(all).no_duplicates()) by {
        if meets_once(all) {
            assert forall|i: int, j: int| 0 <= i < j < ids(all).len() implies ids(all)[i] != ids(
                all,
            )[j] by {
                assert(all[i].id != all[j].id);
            }
        }
        if ids(all).no_duplicates() {
            assert forall|i: int, j: int| 0 <= i < j < all.len() implies (#[trigger] all[i]).id != (
            #[trigger] all[j]).id by {
                assert(ids(all)[i] != ids(all)[j]);
            }
        }
    }
    assert(every_bag_is_sound(c, thresholds) <==> forall|i: int|
        0 <= i < uppers.len() ==> sound_bag(c.nodes, bag_at(c, #[trigger] uppers[i]))) by {
        if every_bag_is_sound(c, thresholds) {
            assert forall|i: int| 0 <= i < uppers.len() implies sound_bag(
                c.nodes,
                bag_at(c, #[trigger] uppers[i]),
            ) by {
                assert(uppers.contains(uppers[i]));
            }
        }
        if forall|i: int|
            0 <= i < uppers.len() ==> sound_bag(c.nodes, bag_at(c, #[trigger] uppers[i])) {
            assert forall|upper: VoteWeight|
                thresholds.contains(upper) || upper == VoteWeight::MAX implies #[trigger] sound_bag(
                c.nodes,
                bag_at(c, upper),
            ) by {
                assert(uppers.contains(upper));
                let i = choose|i: int| 0 <= i < uppers.len() && uppers[i] == upper;
                assert(sound_bag(c.nodes, bag_at(c, uppers[i])));
            }
        }
    }
    if c.listing_ends(thresholds) && meets_once(all) && all.len() == c.counter
        && c.first_fault(uppers) is Some {
        let i = choose|i: int|
            {
                &&& 0 <= i < uppers.len()
                &&& c.first_fault(uppers) == bag_fault(c.nodes, bag_at(c, #[trigger] uppers[i]))
                &&& forall|j: int|
                    0 <= j < i ==> sound_bag(c.nodes, bag_at(c, #[trigger] uppers[j]))
            };
        let upper = uppers[i];
        assert(uppers.contains(upper));
        law_bag_check_tells_the_fault(c.nodes, bag_at(c, upper));
        lemma_bag_faults(c.nodes, bag_at(c, upper));
        if sorted(thresholds) {
            assert forall|lesser: VoteWeight|
                thresholds.contains(lesser) && lesser < upper implies #[trigger] sound_bag(
                c.nodes,
                bag_at(c, lesser),
            ) by {
                assert(uppers.contains(lesser));
                let j = choose|j: int| 0 <= j < uppers.len() && uppers[j] == lesser;
                if j >= i {
                    assert(uppers[i] <= uppers[j]);
                }
                assert(sound_bag(c.nodes, bag_at(c, uppers[j])));
            }
        }
        assert(c.fault(thresholds) == bag_fault(c.nodes, bag_at(c, upper)));
    }
}

/// The fault of a bag is one of four.
proof fn lemma_bag_faults<A>(nodes: Map<A, Node<A>>, bag: Bag<A>)
    ensures
        bag_fault(nodes, bag) != Some("duplicate identified"@),
        bag_fault(nodes, bag) != Some("iter_count != stored_count"@),
{
    lemma_fault_texts();
}

} // verus!
