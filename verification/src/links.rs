//! How following and changing links acts on the lines of voters.

use crate::bag::Bag;
use crate::model::{
    bag_appended, bag_unlinked, chain, chains, excised, first_n, first_of, ids, joined, line, link,
    nodes_appended, stored, traversal, walk, walk_ends, Contents,
};
use crate::node::Node;
use crate::thresholds::is_bag;
use frame_election_provider_support::VoteWeight;
use vstd::prelude::*;

verus! {

/// A walk never has more nodes than its limit, and one that stopped short of its limit is the same
/// for any greater one.
pub proof fn lemma_walk_stable<A>(
    nodes: Map<A, Node<A>>,
    start: Option<A>,
    limit: nat,
    greater: nat,
)
    requires
        limit <= greater,
        walk(nodes, start, limit).len() < limit,
    ensures
        walk(nodes, start, greater) == walk(nodes, start, limit),
    decreases limit,
{
    if let Some(node) = stored(nodes, start) {
        lemma_walk_stable(nodes, node.next, (limit - 1) as nat, (greater - 1) as nat);
    }
}

/// A walk that stopped short of its limit is the whole traversal.
pub proof fn lemma_traversal<A>(nodes: Map<A, Node<A>>, start: Option<A>, limit: nat)
    requires
        walk(nodes, start, limit).len() < limit,
    ensures
        walk_ends(nodes, start),
        traversal(nodes, start) == walk(nodes, start, limit),
{
    let chosen = choose|l: nat| #[trigger] walk(nodes, start, l).len() < l;
    assert(walk(nodes, start, chosen).len() < chosen);
    if chosen <= limit {
        lemma_walk_stable(nodes, start, chosen, limit);
    } else {
        lemma_walk_stable(nodes, start, limit, chosen);
    }
}

/// A walk never has more nodes than its limit.
pub proof fn lemma_walk_len<A>(nodes: Map<A, Node<A>>, start: Option<A>, limit: nat)
    ensures
        walk(nodes, start, limit).len() <= limit,
    decreases limit,
{
    if limit > 0 {
        if let Some(node) = stored(nodes, start) {
            lemma_walk_len(nodes, node.next, (limit - 1) as nat);
        }
    }
}

/// A walk with a lesser limit is the beginning of one with a greater limit.
pub proof fn lemma_shorter_walk<A>(
    nodes: Map<A, Node<A>>,
    start: Option<A>,
    limit: nat,
    greater: nat,
)
    requires
        limit <= greater,
    ensures
        walk(nodes, start, limit) == first_n(walk(nodes, start, greater), limit),
    decreases limit,
{
    if limit > 0 {
        if let Some(node) = stored(nodes, start) {
            lemma_shorter_walk(nodes, node.next, (limit - 1) as nat, (greater - 1) as nat);
            assert(walk(nodes, start, limit) =~= first_n(walk(nodes, start, greater), limit));
        }
    } else {
        assert(walk(nodes, start, 0) =~= first_n(walk(nodes, start, greater), 0));
    }
}

/// Where following the links ends, a walk is the beginning of the traversal.
pub proof fn lemma_walk_starts_traversal<A>(nodes: Map<A, Node<A>>, start: Option<A>, limit: nat)
    requires
        walk_ends(nodes, start),
    ensures
        walk(nodes, start, limit) == first_n(traversal(nodes, start), limit),
{
    let whole = choose|l: nat| #[trigger] walk(nodes, start, l).len() < l;
    if limit <= whole {
        lemma_shorter_walk(nodes, start, limit, whole);
    } else {
        lemma_walk_stable(nodes, start, whole, limit);
    }
}

/// The beginning of a listing has no more nodes than its limit, and once it has as many, further bags
/// add none.
pub proof fn lemma_start_of<A>(
    c: Contents<A>,
    uppers: Seq<VoteWeight>,
    k: nat,
    more: nat,
    limit: nat,
)
    requires
        k <= more,
    ensures
        c.start_of(uppers, more, limit).len() <= limit,
        c.start_of(uppers, k, limit).len() == limit ==> c.start_of(uppers, more, limit)
            == c.start_of(uppers, k, limit),
    decreases more,
{
    if more > 0 {
        let before = c.start_of(uppers, (more - 1) as nat, limit);
        let head = c.bag_or_new(uppers[more - 1]).head;
        if k < more {
            lemma_start_of(c, uppers, k, (more - 1) as nat, limit);
        } else {
            lemma_start_of(c, uppers, (more - 1) as nat, (more - 1) as nat, limit);
        }
        lemma_walk_len(c.nodes, head, (limit - before.len()) as nat);
        if before.len() == limit {
            assert(before + walk(c.nodes, head, 0) =~= before);
        }
    }
}

/// Where following the links of each bag ends, the beginning of a listing is what its name says.
pub proof fn lemma_start_of_listing<A>(
    c: Contents<A>,
    uppers: Seq<VoteWeight>,
    k: nat,
    limit: nat,
)
    requires
        k <= uppers.len(),
        forall|i: int|
            0 <= i < uppers.len() ==> walk_ends(
                c.nodes,
                c.bag_or_new(#[trigger] uppers[i]).head,
            ),
    ensures
        c.start_of(uppers, k, limit) == first_n(c.listing_of(uppers, k), limit),
    decreases k,
{
    if k > 0 {
        let head = c.bag_or_new(uppers[k - 1]).head;
        let before = c.start_of(uppers, (k - 1) as nat, limit);
        lemma_start_of_listing(c, uppers, (k - 1) as nat, limit);
        lemma_walk_starts_traversal(c.nodes, head, (limit - before.len()) as nat);
    }
    assert(c.start_of(uppers, k, limit) =~= first_n(c.listing_of(uppers, k), limit));
}

/// What is met first stands first in the traversal.
pub proof fn lemma_prefix<A>(
    nodes: Map<A, Node<A>>,
    start: Option<A>,
    met: Seq<Node<A>>,
    next: Option<A>,
)
    requires
        walk_ends(nodes, start),
        forall|limit: nat|
            limit >= met.len() ==> #[trigger] walk(nodes, start, limit) == met + walk(
                nodes,
                next,
                (limit - met.len()) as nat,
            ),
    ensures
        traversal(nodes, start).len() >= met.len(),
        forall|i: int| 0 <= i < met.len() ==> #[trigger] traversal(nodes, start)[i] == met[i],
{
    let limit = choose|limit: nat| #[trigger] walk(nodes, start, limit).len() < limit;
    let greater = limit + met.len();
    lemma_walk_stable(nodes, start, limit, greater);
    assert(walk(nodes, start, greater) == met + walk(nodes, next, limit));
}

/// The walk along a chain, from its place `k` on.
proof fn lemma_chain_walk<A>(
    nodes: Map<A, Node<A>>,
    s: Seq<A>,
    upper: VoteWeight,
    head: Option<A>,
    tail: Option<A>,
    k: int,
)
    requires
        chain(nodes, s, upper, head, tail),
        0 <= k <= s.len(),
    ensures
        walk(nodes, first_of(s.skip(k)), (s.skip(k).len() + 1) as nat) == s.skip(k).map_values(
            |id: A| nodes[id],
        ),
    decreases s.len() - k,
{
    let rest = s.skip(k);
    if k < s.len() {
        lemma_chain_walk(nodes, s, upper, head, tail, k + 1);
        assert(nodes.contains_key(s[k]) && nodes[s[k]] == link(s, k, upper));
        assert(rest[0] == s[k]);
        assert(nodes[s[k]].next == first_of(s.skip(k + 1)));
        assert(walk(nodes, Some(s[k]), (rest.len() + 1) as nat) == seq![nodes[s[k]]] + walk(
            nodes,
            nodes[s[k]].next,
            rest.len(),
        ));
        assert(rest.map_values(|id: A| nodes[id]) =~= seq![nodes[s[k]]] + s.skip(k + 1).map_values(
            |id: A| nodes[id],
        ));
    } else {
        assert(rest.map_values(|id: A| nodes[id]) =~= Seq::empty());
    }
}

/// Following the links of a chain from its head meets its voters in order, and ends.
pub proof fn lemma_chain_traversal<A>(
    nodes: Map<A, Node<A>>,
    s: Seq<A>,
    upper: VoteWeight,
    head: Option<A>,
    tail: Option<A>,
)
    requires
        chain(nodes, s, upper, head, tail),
    ensures
        walk_ends(nodes, head),
        traversal(nodes, head) == s.map_values(|id: A| nodes[id]),
        ids(traversal(nodes, head)) == s,
{
    lemma_chain_walk(nodes, s, upper, head, tail, 0);
    assert(s.skip(0) =~= s);
    lemma_traversal(nodes, head, s.len() + 1);
    let found = traversal(nodes, head);
    assert forall|i: int| 0 <= i < s.len() implies #[trigger] ids(found)[i] == s[i] by {
        assert(nodes[s[i]] == link(s, i, upper));
    }
    assert(ids(found) =~= s);
}

/// The lines that the nodes and the bags hold are the lines that following the links gives.
pub proof fn lemma_lines<A>(c: Contents<A>, lines: Map<VoteWeight, Seq<A>>)
    requires
        chains(c.nodes, c.bags, lines),
    ensures
        c.lines() == lines,
{
    assert forall|upper: VoteWeight| lines.contains_key(upper) implies #[trigger] c.lines()[upper]
        == lines[upper] by {
        lemma_chain_traversal(
            c.nodes,
            lines[upper],
            upper,
            c.bags[upper].head,
            c.bags[upper].tail,
        );
    }
    assert(c.lines() =~= lines);
}

/// A voter stands in one place of one line.
pub proof fn lemma_one_place<A>(
    nodes: Map<A, Node<A>>,
    bags: Map<VoteWeight, Bag<A>>,
    lines: Map<VoteWeight, Seq<A>>,
    u1: VoteWeight,
    i1: int,
    u2: VoteWeight,
    i2: int,
)
    requires
        chains(nodes, bags, lines),
        lines.contains_key(u1),
        lines.contains_key(u2),
        0 <= i1 < lines[u1].len(),
        0 <= i2 < lines[u2].len(),
        lines[u1][i1] == lines[u2][i2],
    ensures
        u1 == u2,
        i1 == i2,
{
    assert(nodes[lines[u1][i1]] == link(lines[u1], i1, u1));
    assert(nodes[lines[u2][i2]] == link(lines[u2], i2, u2));
}

/// Putting a new voter behind the tail of a bag puts it at the end of the line.
pub proof fn lemma_append<A>(
    nodes: Map<A, Node<A>>,
    bags: Map<VoteWeight, Bag<A>>,
    lines: Map<VoteWeight, Seq<A>>,
    bag: Bag<A>,
    id: A,
)
    requires
        chains(nodes, bags, lines),
        !nodes.contains_key(id),
        bags.contains_key(bag.bag_upper) ==> bag.head == bags[bag.bag_upper].head && bag.tail
            == bags[bag.bag_upper].tail,
        !bags.contains_key(bag.bag_upper) ==> bag.head is None && bag.tail is None,
    ensures
        bag.tail != Some(id),
        chains(
            nodes_appended(nodes, bag, id),
            bags.insert(bag.bag_upper, bag_appended(bag, id)),
            joined(lines, bag.bag_upper, id),
        ),
        nodes_appended(nodes, bag, id).dom() == nodes.dom().insert(id),
{
    let u = bag.bag_upper;
    let s = line(lines, u);
    let t = s.push(id);
    let nodes2 = nodes_appended(nodes, bag, id);
    let bags2 = bags.insert(u, bag_appended(bag, id));
    let lines2 = joined(lines, u, id);
    assert(lines.contains_key(u) == bags.contains_key(u));
    assert(chain(nodes, s, u, bag.head, bag.tail));
    if s.len() > 0 {
        assert(nodes.contains_key(s[s.len() - 1]) && nodes[s[s.len() - 1]] == link(
            s,
            s.len() - 1,
            u,
        ));
    }
    assert(nodes2.dom() =~= nodes.dom().insert(id));
    assert(lines2.dom() =~= bags2.dom());
    assert forall|upper: VoteWeight| #[trigger] lines2.contains_key(upper) implies chain(
        nodes2,
        lines2[upper],
        upper,
        bags2[upper].head,
        bags2[upper].tail,
    ) by {
        let v = lines2[upper];
        if upper == u {
            assert(v == t);
            assert(t.no_duplicates()) by {
                assert forall|i: int| 0 <= i < s.len() implies s[i] != id by {
                    assert(nodes[s[i]] == link(s, i, u));
                }
            }
            assert forall|i: int| 0 <= i < t.len() implies nodes2.contains_key(t[i])
                && nodes2[t[i]] == #[trigger] link(t, i, u) by {
                if i < s.len() {
                    assert(t[i] == s[i]);
                    assert(nodes.contains_key(s[i]) && nodes[s[i]] == link(s, i, u));
                    if i + 1 < s.len() {
                        assert(s[i] != s[s.len() - 1]);
                        assert(t[i + 1] == s[i + 1]);
                    }
                    if i > 0 {
                        assert(t[i - 1] == s[i - 1]);
                    }
                } else {
                    assert(t[i] == id);
                }
            }
            assert(t.last() == id);
            if s.len() > 0 {
                assert(t[0] == s[0]);
            }
        } else {
            assert(lines.contains_key(upper));
            assert(v == lines[upper]);
            assert forall|i: int| 0 <= i < v.len() implies nodes2.contains_key(v[i])
                && nodes2[v[i]] == #[trigger] link(v, i, upper) by {
                assert(nodes.contains_key(v[i]) && nodes[v[i]] == link(v, i, upper));
            }
        }
    }
    assert forall|k: A| #[trigger] nodes2.contains_key(k) implies lines2.contains_key(
        nodes2[k].bag_upper,
    ) && lines2[nodes2[k].bag_upper].contains(k) by {
        if k == id {
            assert(t[s.len() as int] == id);
        } else {
            assert(nodes.contains_key(k));
            let w = nodes[k].bag_upper;
            assert(nodes2[k].bag_upper == w);
            let i = choose|i: int| 0 <= i < lines[w].len() && lines[w][i] == k;
            if w == u {
                assert(t[i] == k);
            }
        }
    }
}

/// The line that a voter left is linked anew around its place.
proof fn lemma_excise_line<A>(
    nodes: Map<A, Node<A>>,
    s: Seq<A>,
    upper: VoteWeight,
    bag: Bag<A>,
    i: int,
)
    requires
        chain(nodes, s, upper, bag.head, bag.tail),
        0 <= i < s.len(),
    ensures
        ({
            let node = nodes[s[i]];
            &&& node == link(s, i, upper)
            &&& chain(
                excised(nodes, node).remove(s[i]),
                s.remove(i),
                upper,
                bag_unlinked(bag, node).head,
                bag_unlinked(bag, node).tail,
            )
            &&& 0 < i && i + 1 < s.len() ==> bag_unlinked(bag, node) == bag
        }),
{
    let id = s[i];
    let node = nodes[id];
    let t = s.remove(i);
    let nodes2 = excised(nodes, node).remove(id);
    assert(nodes.contains_key(id) && node == link(s, i, upper));
    if i > 0 {
        assert(nodes.contains_key(s[i - 1]) && nodes[s[i - 1]] == link(s, i - 1, upper));
        assert(s[0] != id);
    }
    if i + 1 < s.len() {
        assert(nodes.contains_key(s[i + 1]) && nodes[s[i + 1]] == link(s, i + 1, upper));
        assert(s[s.len() - 1] != id);
    }
    assert forall|j: int| 0 <= j < t.len() implies nodes2.contains_key(t[j])
        && nodes2[t[j]] == #[trigger] link(t, j, upper) by {
        let k = if j < i {
            j
        } else {
            j + 1
        };
        assert(nodes.contains_key(s[k]) && nodes[s[k]] == link(s, k, upper));
        assert(s[k] != id);
        if i > 0 && k != i - 1 {
            assert(s[k] != s[i - 1]);
        }
        if i + 1 < s.len() && k != i + 1 {
            assert(s[k] != s[i + 1]);
        }
    }
}

/// Taking a voter out of its bag takes it out of its place in the line.
pub proof fn lemma_excise<A>(
    nodes: Map<A, Node<A>>,
    bags: Map<VoteWeight, Bag<A>>,
    lines: Map<VoteWeight, Seq<A>>,
    bag: Bag<A>,
    i: int,
)
    requires
        chains(nodes, bags, lines),
        lines.contains_key(bag.bag_upper),
        0 <= i < lines[bag.bag_upper].len(),
        bag.head == bags[bag.bag_upper].head,
        bag.tail == bags[bag.bag_upper].tail,
    ensures
        ({
            let u = bag.bag_upper;
            let id = lines[u][i];
            let node = nodes[id];
            &&& nodes.contains_key(id)
            &&& node == link(lines[u], i, u)
            &&& excised(nodes, node).dom() == nodes.dom()
            &&& chains(
                excised(nodes, node).remove(id),
                bags.insert(u, bag_unlinked(bag, node)),
                lines.insert(u, lines[u].remove(i)),
            )
            &&& node.prev is Some && node.next is Some ==> bag_unlinked(bag, node) == bag
        }),
{
    let u = bag.bag_upper;
    let s = lines[u];
    let id = s[i];
    let node = nodes[id];
    let t = s.remove(i);
    let nodes1 = excised(nodes, node);
    let nodes2 = nodes1.remove(id);
    let bags2 = bags.insert(u, bag_unlinked(bag, node));
    let lines2 = lines.insert(u, t);
    assert(chain(nodes, s, u, bag.head, bag.tail));
    lemma_excise_line(nodes, s, u, bag, i);
    assert(nodes.contains_key(id));
    if i > 0 {
        assert(nodes.contains_key(s[i - 1]) && nodes[s[i - 1]] == link(s, i - 1, u));
    }
    if i + 1 < s.len() {
        assert(nodes.contains_key(s[i + 1]) && nodes[s[i + 1]] == link(s, i + 1, u));
    }
    assert(nodes1.dom() =~= nodes.dom());
    assert(lines2.dom() =~= bags2.dom());
    assert forall|upper: VoteWeight| #[trigger] lines2.contains_key(upper) implies chain(
        nodes2,
        lines2[upper],
        upper,
        bags2[upper].head,
        bags2[upper].tail,
    ) by {
        let v = lines2[upper];
        if upper != u {
            assert(lines.contains_key(upper));
            assert forall|j: int| 0 <= j < v.len() implies nodes2.contains_key(v[j])
                && nodes2[v[j]] == #[trigger] link(v, j, upper) by {
                assert(nodes.contains_key(v[j]) && nodes[v[j]] == link(v, j, upper));
            }
        }
    }
    assert forall|k: A| #[trigger] nodes2.contains_key(k) implies lines2.contains_key(
        nodes2[k].bag_upper,
    ) && lines2[nodes2[k].bag_upper].contains(k) by {
        assert(nodes.contains_key(k) && k != id);
        let w = nodes[k].bag_upper;
        assert(nodes2[k].bag_upper == w);
        let j = choose|j: int| 0 <= j < lines[w].len() && lines[w][j] == k;
        if w == u {
            if j < i {
                assert(t[j] == k);
            } else {
                assert(t[j - 1] == k);
            }
        }
    }
}

/// In a list with sound links, a node is stored under its own id.
pub proof fn lemma_stored_under_id<A>(c: Contents<A>, id: A)
    requires
        c.linked(),
        c.nodes.contains_key(id),
    ensures
        c.nodes[id].id == id,
{
    let upper = c.nodes[id].bag_upper;
    let s = c.lines()[upper];
    let i = choose|i: int| 0 <= i < s.len() && s[i] == id;
    assert(chain(c.nodes, s, upper, c.bags[upper].head, c.bags[upper].tail));
    assert(c.nodes[s[i]] == link(s, i, upper));
}

/// In a list with sound links, following the links of any bag ends.
pub proof fn lemma_linked_ends<A>(c: Contents<A>, thresholds: Seq<VoteWeight>)
    requires
        c.linked(),
    ensures
        c.listing_ends(thresholds),
{
    assert forall|upper: VoteWeight| #[trigger] is_bag(thresholds, upper) implies walk_ends(
        c.nodes,
        c.bag_or_new(upper).head,
    ) by {
        if c.bags.contains_key(upper) {
            assert(c.lines().contains_key(upper));
            lemma_chain_traversal(
                c.nodes,
                c.lines()[upper],
                upper,
                c.bags[upper].head,
                c.bags[upper].tail,
            );
        } else {
            assert(walk(c.nodes, None, 1).len() < 1);
        }
    }
}

/// What is listed first stays first as more bags are listed.
pub proof fn lemma_listing_grows<A>(c: Contents<A>, uppers: Seq<VoteWeight>, k: nat, n: nat)
    requires
        k <= n,
    ensures
        c.listing_of(uppers, k).len() <= c.listing_of(uppers, n).len(),
        forall|i: int|
            0 <= i < c.listing_of(uppers, k).len() ==> #[trigger] c.listing_of(uppers, n)[i]
                == c.listing_of(uppers, k)[i],
    decreases n,
{
    if k < n {
        lemma_listing_grows(c, uppers, k, (n - 1) as nat);
    }
}

/// Two sequences have nobody twice between them if neither has and they share nobody.
pub proof fn lemma_joined_once<A>(s: Seq<A>, t: Seq<A>)
    requires
        s.no_duplicates(),
    ensures
        (s + t).no_duplicates() <==> t.no_duplicates() && t.to_set().disjoint(s.to_set()),
        (s + t).to_set() == s.to_set().union(t.to_set()),
{
    let both = s + t;
    assert forall|id: A| #[trigger] both.to_set().contains(id) <==> s.to_set().union(
        t.to_set(),
    ).contains(id) by {
        if s.contains(id) {
            let i = choose|i: int| 0 <= i < s.len() && s[i] == id;
            assert(both[i] == id);
        }
        if t.contains(id) {
            let i = choose|i: int| 0 <= i < t.len() && t[i] == id;
            assert(both[s.len() + i] == id);
        }
        if both.contains(id) {
            let i = choose|i: int| 0 <= i < both.len() && both[i] == id;
            if i < s.len() {
                assert(s[i] == id);
            } else {
                assert(t[i - s.len()] == id);
            }
        }
    }
    assert(both.to_set() =~= s.to_set().union(t.to_set()));
    if both.no_duplicates() {
        assert forall|i: int, j: int| 0 <= i < j < t.len() implies t[i] != t[j] by {
            assert(both[s.len() + i] == t[i]);
            assert(both[s.len() + j] == t[j]);
        }
        assert forall|id: A| !(#[trigger] t.to_set().contains(id) && s.to_set().contains(id)) by {
            if t.contains(id) && s.contains(id) {
                let i = choose|i: int| 0 <= i < s.len() && s[i] == id;
                let j = choose|j: int| 0 <= j < t.len() && t[j] == id;
                assert(both[i] == both[s.len() + j]);
            }
        }
    }
    if t.no_duplicates() && t.to_set().disjoint(s.to_set()) {
        assert forall|i: int, j: int| 0 <= i < j < both.len() implies both[i] != both[j] by {
            if i < s.len() && j >= s.len() {
                assert(s.to_set().contains(s[i]));
                assert(t.to_set().contains(t[j - s.len()]));
            }
        }
    }
}

} // verus!
