//! The thresholds that separate the bags.

use frame_election_provider_support::VoteWeight;
use vstd::prelude::*;

verus! {

/// The thresholds never decrease.
pub open spec fn sorted(thresholds: Seq<VoteWeight>) -> bool {
    forall|i: int, j: int| 0 <= i <= j < thresholds.len() ==> thresholds[i] <= thresholds[j]
}

/// `upper` identifies a bag: it is a threshold, or the greatest vote weight there is, which ends the
/// thresholds whether or not they list it.
pub open spec fn is_bag(thresholds: Seq<VoteWeight>, upper: VoteWeight) -> bool {
    thresholds.contains(upper) || upper == VoteWeight::MAX
}

/// The bag for `weight`: the first threshold that is not below it, or the greatest vote weight where
/// every threshold is below it.
pub open spec fn notional_bag(thresholds: Seq<VoteWeight>, weight: VoteWeight) -> VoteWeight
    decreases thresholds.len(),
{
    if thresholds.len() == 0 {
        VoteWeight::MAX
    } else if weight <= thresholds[0] {
        thresholds[0]
    } else {
        notional_bag(thresholds.drop_first(), weight)
    }
}

/// The thresholds, ended by the greatest vote weight.
pub open spec fn all_uppers(thresholds: Seq<VoteWeight>) -> Seq<VoteWeight> {
    if thresholds.len() > 0 && thresholds.last() == VoteWeight::MAX {
        thresholds
    } else {
        thresholds.push(VoteWeight::MAX)
    }
}

/// The thresholds ended by the greatest vote weight are the bags.
pub proof fn lemma_all_uppers(thresholds: Seq<VoteWeight>)
    ensures
        forall|upper: VoteWeight| #[trigger]
            all_uppers(thresholds).contains(upper) <==> is_bag(thresholds, upper),
        sorted(thresholds) ==> sorted(all_uppers(thresholds)),
{
    let uppers = all_uppers(thresholds);
    assert forall|upper: VoteWeight| #[trigger] uppers.contains(upper) <==> is_bag(
        thresholds,
        upper,
    ) by {
        if uppers.contains(upper) {
            let i = choose|i: int| 0 <= i < uppers.len() && uppers[i] == upper;
            if i < thresholds.len() {
                assert(thresholds[i] == upper);
            }
        }
        if thresholds.contains(upper) {
            let i = choose|i: int| 0 <= i < thresholds.len() && thresholds[i] == upper;
            assert(uppers[i] == upper);
        }
        assert(uppers[uppers.len() - 1] == VoteWeight::MAX);
    }
}

/// The bags that are gone through are the thresholds, in their order and each as often as it is listed,
/// ended by the greatest vote weight, which is added only where it does not end them already. So
/// thresholds that strictly increase name no bag twice.
pub proof fn law_bags_are_the_thresholds(thresholds: Seq<VoteWeight>)
    ensures
        ({
            let uppers = all_uppers(thresholds);
            let ended = thresholds.len() > 0 && thresholds[thresholds.len() - 1]
                == VoteWeight::MAX;
            &&& uppers.len() == (if ended {
                thresholds.len()
            } else {
                thresholds.len() + 1
            })
            &&& forall|i: int| 0 <= i < thresholds.len() ==> #[trigger] uppers[i] == thresholds[i]
            &&& uppers[uppers.len() - 1] == VoteWeight::MAX
            &&& forall|upper: VoteWeight| #[trigger]
                uppers.contains(upper) <==> thresholds.contains(upper) || upper == VoteWeight::MAX
            &&& forall|upper: VoteWeight| #[trigger]
                is_bag(thresholds, upper) <==> thresholds.contains(upper) || upper
                    == VoteWeight::MAX
            &&& (forall|i: int, j: int|
                0 <= i < j < thresholds.len() ==> thresholds[i] <= thresholds[j]) ==> forall|
                i: int,
                j: int,
            |
                0 <= i < j < uppers.len() ==> uppers[i] <= uppers[j]
            &&& (forall|i: int, j: int|
                0 <= i < j < thresholds.len() ==> thresholds[i] < thresholds[j]) ==> forall|
                i: int,
                j: int,
            |
                0 <= i < j < uppers.len() ==> uppers[i] < uppers[j]
        }),
{
    lemma_all_uppers(thresholds);
}

/// The notional bag is the one at the number of thresholds below the weight.
proof fn lemma_notional_at(thresholds: Seq<VoteWeight>, weight: VoteWeight, k: int)
    requires
        0 <= k <= thresholds.len(),
        forall|i: int| 0 <= i < k ==> weight > thresholds[i],
        k < thresholds.len() ==> weight <= thresholds[k],
    ensures
        notional_bag(thresholds, weight) == (if k < thresholds.len() {
            thresholds[k]
        } else {
            VoteWeight::MAX
        }),
    decreases thresholds.len(),
{
    if k > 0 {
        assert(weight > thresholds[0]);
        lemma_notional_at(thresholds.drop_first(), weight, k - 1);
    }
}

/// Given a certain vote weight, which bag should contain this voter?
///
/// Bags are identified by their upper threshold. Even if the thresholds do not have
/// `VoteWeight::MAX` as their final member, this function behaves as if they do.
pub fn notional_bag_for(thresholds: &[VoteWeight], weight: VoteWeight) -> (upper: VoteWeight)
    requires
        sorted(thresholds@),
    ensures
        upper == notional_bag(thresholds@, weight),
        thresholds@.contains(upper) || upper == VoteWeight::MAX,
        weight <= upper,
        forall|i: int|
            0 <= i < thresholds@.len() && weight <= #[trigger] thresholds@[i] ==> upper
                <= thresholds@[i],
{
    let mut low: usize = 0;
    let mut high: usize = thresholds.len();
    while low < high
        invariant
            low <= high <= thresholds@.len(),
            sorted(thresholds@),
            forall|i: int| 0 <= i < low ==> weight > thresholds@[i],
            high < thresholds@.len() ==> weight <= thresholds@[high as int],
        decreases high - low,
    {
        let middle: usize = low + (high - low) / 2;
        if weight > thresholds[middle] {
            low = middle + 1;
        } else {
            high = middle;
        }
    }
    proof {
        lemma_notional_at(thresholds@, weight, low as int);
        law_notional_bag_is_least(thresholds@, weight);
    }
    if low < thresholds.len() {
        thresholds[low]
    } else {
        VoteWeight::MAX
    }
}

/// The upper thresholds of all bags, from the least to the greatest. The greatest vote weight is
/// there even if the thresholds omit it.
pub(crate) fn uppers_of(thresholds: &[VoteWeight]) -> (r: Vec<VoteWeight>)
    ensures
        r@ == all_uppers(thresholds@),
{
    let mut uppers: Vec<VoteWeight> = Vec::new();
    let mut i: usize = 0;
    while i < thresholds.len()
        invariant
            i <= thresholds@.len(),
            uppers@ == thresholds@.take(i as int),
        decreases thresholds@.len() - i,
    {
        uppers.push(thresholds[i]);
        i += 1;
        assert(thresholds@.take(i as int) =~= thresholds@.take(i - 1).push(thresholds@[i - 1]));
    }
    assert(thresholds@.take(thresholds@.len() as int) =~= thresholds@);
    let len: usize = thresholds.len();
    if len == 0 || thresholds[len - 1] != VoteWeight::MAX {
        uppers.push(VoteWeight::MAX);
    }
    uppers
}

/// The bag for a weight is the least bag that is not below the weight.
pub proof fn law_notional_bag_is_least(thresholds: Seq<VoteWeight>, weight: VoteWeight)
    requires
        sorted(thresholds),
    ensures
        is_bag(thresholds, notional_bag(thresholds, weight)),
        thresholds.contains(notional_bag(thresholds, weight)) || notional_bag(thresholds, weight)
            == VoteWeight::MAX,
        weight <= notional_bag(thresholds, weight),
        forall|i: int|
            0 <= i < thresholds.len() && weight <= #[trigger] thresholds[i] ==> notional_bag(
                thresholds,
                weight,
            ) <= thresholds[i],
        forall|upper: VoteWeight|
            #[trigger] is_bag(thresholds, upper) && weight <= upper ==> notional_bag(
                thresholds,
                weight,
            ) <= upper,
    decreases thresholds.len(),
{
    if thresholds.len() > 0 {
        let rest = thresholds.drop_first();
        assert(thresholds.contains(thresholds[0]));
        assert forall|upper: VoteWeight| #[trigger] rest.contains(upper) implies thresholds.contains(
            upper,
        ) by {
            let i = choose|i: int| 0 <= i < rest.len() && rest[i] == upper;
            assert(thresholds[i + 1] == upper);
        }
        assert forall|upper: VoteWeight| #[trigger] thresholds.contains(upper) implies upper
            == thresholds[0] || rest.contains(upper) by {
            let i = choose|i: int| 0 <= i < thresholds.len() && thresholds[i] == upper;
            if i > 0 {
                assert(rest[i - 1] == upper);
            }
        }
        if weight > thresholds[0] {
            law_notional_bag_is_least(rest, weight);
            assert forall|upper: VoteWeight|
                #[trigger] is_bag(thresholds, upper) && weight <= upper implies notional_bag(
                thresholds,
                weight,
            ) <= upper by {
                assert(is_bag(rest, upper));
            }
        }
    }
    assert forall|i: int|
        0 <= i < thresholds.len() && weight <= #[trigger] thresholds[i] implies notional_bag(
        thresholds,
        weight,
    ) <= thresholds[i] by {
        assert(is_bag(thresholds, thresholds[i]));
    }
}

} // verus!
