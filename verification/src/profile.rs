//! Exact port and link accounting of fixed node profiles.

use vstd::prelude::*;

use crate::exact::{big_lt, big_mul, BigNat};
use crate::problem::{frac_lt, positive, zero, Rate};

verus! {

/// Numbers of 2- and 3-way splitters and mergers of one fixed profile.
#[derive(Clone, Copy, Debug, Default, PartialEq, Eq, PartialOrd, Ord, Hash)]
pub struct NodeProfile {
    pub splitter2: u32,
    pub splitter3: u32,
    pub merger2: u32,
    pub merger3: u32,
}

/// Total number of nodes of a profile.
pub open spec fn nodes_of(profile: NodeProfile) -> int {
    profile.splitter2 + profile.splitter3 + profile.merger2 + profile.merger3
}

/// Producer ports of a profile's nodes: two or three per splitter, one per merger.
pub open spec fn producers_of(profile: NodeProfile) -> int {
    2 * profile.splitter2 + 3 * profile.splitter3 + profile.merger2 + profile.merger3
}

/// Consumer ports of a profile's nodes: one per splitter, two or three per merger.
pub open spec fn consumers_of(profile: NodeProfile) -> int {
    profile.splitter2 + profile.splitter3 + 2 * profile.merger2 + 3 * profile.merger3
}

impl NodeProfile {
    /// Total number of nodes.
    pub fn node_count(&self) -> (count: u64)
        ensures
            count == nodes_of(*self),
    {
        self.splitter2 as u64 + self.splitter3 as u64 + self.merger2 as u64 + self.merger3 as u64
    }
}

/// The derived order of node profiles: field by field.
pub open spec fn profile_before(a: NodeProfile, b: NodeProfile) -> bool {
    ||| a.splitter2 < b.splitter2
    ||| a.splitter2 == b.splitter2 && a.splitter3 < b.splitter3
    ||| a.splitter2 == b.splitter2 && a.splitter3 == b.splitter3 && a.merger2 < b.merger2
    ||| a.splitter2 == b.splitter2 && a.splitter3 == b.splitter3 && a.merger2 == b.merger2
        && a.merger3 < b.merger3
}

/// Whether `a` and `b` are the same profile.
pub fn same_profile(a: NodeProfile, b: NodeProfile) -> (same: bool)
    ensures
        same == (a == b),
{
    a.splitter2 == b.splitter2 && a.splitter3 == b.splitter3 && a.merger2 == b.merger2 && a.merger3
        == b.merger3
}

/// Whether profile `a` comes strictly before profile `b`.
pub fn profile_below(a: NodeProfile, b: NodeProfile) -> (below: bool)
    ensures
        below == profile_before(a, b),
{
    if a.splitter2 != b.splitter2 {
        a.splitter2 < b.splitter2
    } else if a.splitter3 != b.splitter3 {
        a.splitter3 < b.splitter3
    } else if a.merger2 != b.merger2 {
        a.merger2 < b.merger2
    } else {
        a.merger3 < b.merger3
    }
}

/// Exact operator-link and physical-link accounting for one fixed node profile.
#[derive(Clone, Copy, Debug, PartialEq, Eq)]
pub struct ProfileLinkAccounting {
    /// Belts whose producer and consumer are both physical operators.
    pub link_count: u32,
    /// Anonymous discard links excluded from the structural group count.
    pub discard_link_count: u32,
    /// All physical belts, including terminal stubs and discard lines.
    pub physical_link_count: u32,
}

/// One fixed profile paired with its exact discard/link accounting.
#[derive(Clone, Copy, Debug, PartialEq, Eq)]
pub struct AccountedProfile {
    pub profile: NodeProfile,
    pub accounting: ProfileLinkAccounting,
}

/// Profiles with one exact operator-to-operator link count, ordered deterministically.
#[derive(Clone, Debug, PartialEq, Eq)]
pub struct ProfileGroup {
    pub link_count: u32,
    pub profiles: Vec<NodeProfile>,
}

/// Accounted profiles with one exact operator-to-operator link count.
#[derive(Clone, Debug, PartialEq, Eq)]
pub struct AccountedProfileGroup {
    pub link_count: u32,
    pub profiles: Vec<AccountedProfile>,
}

/// Checked-arithmetic failure while deriving profile port or link counts.
#[derive(Clone, Copy, Debug, PartialEq, Eq)]
pub enum ProfileArithmeticError {
    NodeCountOverflow,
    ProducerPortCountOverflow,
    ConsumerPortCountOverflow,
    LinkCountOverflow,
    NegativeSurplus,
    NonPositiveCapacity,
}

/// The node count, when it fits `u32`.
pub fn checked_node_count(profile: NodeProfile) -> (count: Result<u32, ProfileArithmeticError>)
    ensures
        count is Ok <==> nodes_of(profile) <= u32::MAX,
        count matches Ok(n) ==> n == nodes_of(profile),
        count matches Err(e) ==> e == ProfileArithmeticError::NodeCountOverflow,
{
    let total = profile.splitter2 as u64 + profile.splitter3 as u64 + profile.merger2 as u64
        + profile.merger3 as u64;
    if total > u32::MAX as u64 {
        Err(ProfileArithmeticError::NodeCountOverflow)
    } else {
        Ok(total as u32)
    }
}

/// The producer port count, when every partial sum fits `u32`.
pub fn producer_port_count(profile: NodeProfile) -> (count: Result<u32, ProfileArithmeticError>)
    ensures
        count is Ok <==> producers_of(profile) <= u32::MAX,
        count matches Ok(n) ==> n == producers_of(profile),
        count matches Err(e) ==> e == ProfileArithmeticError::ProducerPortCountOverflow,
{
    let total = 2 * (profile.splitter2 as u64) + 3 * (profile.splitter3 as u64)
        + profile.merger2 as u64 + profile.merger3 as u64;
    if total > u32::MAX as u64 {
        Err(ProfileArithmeticError::ProducerPortCountOverflow)
    } else {
        Ok(total as u32)
    }
}

/// The consumer port count, when every partial sum fits `u32`.
pub fn consumer_port_count(profile: NodeProfile) -> (count: Result<u32, ProfileArithmeticError>)
    ensures
        count is Ok <==> consumers_of(profile) <= u32::MAX,
        count matches Ok(n) ==> n == consumers_of(profile),
        count matches Err(e) ==> e == ProfileArithmeticError::ConsumerPortCountOverflow,
{
    let total = profile.splitter2 as u64 + profile.splitter3 as u64 + 2 * (profile.merger2 as u64)
        + 3 * (profile.merger3 as u64);
    if total > u32::MAX as u64 {
        Err(ProfileArithmeticError::ConsumerPortCountOverflow)
    } else {
        Ok(total as u32)
    }
}

/// The first arithmetic failure that accounting for a port-balanced profile
/// meets, in the order the counts are derived.
pub open spec fn balance_failure(
    profile: NodeProfile,
    input_count: u32,
    output_count: u32,
) -> Option<ProfileArithmeticError> {
    if nodes_of(profile) > u32::MAX {
        Some(ProfileArithmeticError::NodeCountOverflow)
    } else if producers_of(profile) > u32::MAX {
        Some(ProfileArithmeticError::ProducerPortCountOverflow)
    } else if input_count + producers_of(profile) > u32::MAX {
        Some(ProfileArithmeticError::LinkCountOverflow)
    } else if consumers_of(profile) > u32::MAX {
        Some(ProfileArithmeticError::ConsumerPortCountOverflow)
    } else if output_count + consumers_of(profile) > u32::MAX {
        Some(ProfileArithmeticError::LinkCountOverflow)
    } else {
        None
    }
}

/// Fewest operator-to-operator links of a profile with no discard lines:
/// every node consumer not fed by an input, and every node producer not
/// feeding an output, needs an operator link.
pub open spec fn fewest_operator_links(profile: NodeProfile, input_count: u32, output_count: u32) -> int {
    let by_consumers = if consumers_of(profile) > input_count {
        consumers_of(profile) - input_count
    } else {
        0
    };
    let by_producers = if producers_of(profile) > output_count {
        producers_of(profile) - output_count
    } else {
        0
    };
    if by_consumers > by_producers {
        by_consumers
    } else {
        by_producers
    }
}

/// Most operator-to-operator links of a profile: no more than its node
/// producers or its node consumers.
pub open spec fn most_operator_links(profile: NodeProfile) -> int {
    if producers_of(profile) < consumers_of(profile) {
        producers_of(profile)
    } else {
        consumers_of(profile)
    }
}

/// The rate is below zero.
pub open spec fn rate_negative(rate: (bool, nat, nat)) -> bool {
    rate.0 && rate.1 > 0
}

/// The first failure that accounting for a profile under `surplus` and link
/// capacity `capacity` meets: the rates are checked first, then the counts in
/// the order they are derived.
pub open spec fn accounting_failure(
    profile: NodeProfile,
    input_count: u32,
    output_count: u32,
    surplus: (bool, nat, nat),
    capacity: (bool, nat, nat),
) -> Option<ProfileArithmeticError> {
    if rate_negative(surplus) {
        Some(ProfileArithmeticError::NegativeSurplus)
    } else if !positive(capacity) {
        Some(ProfileArithmeticError::NonPositiveCapacity)
    } else {
        balance_failure(profile, input_count, output_count)
    }
}

/// Physical links `inputs + producers` beyond the modeled consumer links
/// `outputs + consumers`: the discard lines a profile leaves.
pub open spec fn discard_links_of(profile: NodeProfile, input_count: u32, output_count: u32) -> int {
    input_count + producers_of(profile) - (output_count + consumers_of(profile))
}

/// The surplus leaves through the profile's discard lines: without surplus
/// there are none; with it there is at least one, and the lines together, each
/// strictly positive and within `capacity`, can carry it (`surplus <= D*B`).
pub open spec fn surplus_fits(
    profile: NodeProfile,
    input_count: u32,
    output_count: u32,
    surplus: (bool, nat, nat),
    capacity: (bool, nat, nat),
) -> bool {
    let d = discard_links_of(profile, input_count, output_count);
    if surplus.1 == 0 {
        d == 0
    } else {
        d > 0 && !frac_lt(((capacity.1 * (d as nat)) as nat, capacity.2), (surplus.1, surplus.2))
    }
}

/// Fewest operator-to-operator links with `d` discard lines: every node
/// consumer not fed by an input, and every node producer feeding neither an
/// output nor a discard line, needs an operator link.
pub open spec fn fewest_links_with_discards(profile: NodeProfile, input_count: u32, output_count: u32, d: int) -> int {
    let by_consumers = if consumers_of(profile) > input_count {
        consumers_of(profile) - input_count
    } else {
        0
    };
    let by_producers = if producers_of(profile) > output_count + d {
        producers_of(profile) - (output_count + d)
    } else {
        0
    };
    if by_consumers > by_producers {
        by_consumers
    } else {
        by_producers
    }
}

/// `list` holds, ascending, every operator-link count a profile admits under
/// the surplus, each with the profile's discard and physical link counts, and
/// nothing when the surplus does not fit.
pub open spec fn accounting_list(
    profile: NodeProfile,
    input_count: u32,
    output_count: u32,
    surplus: (bool, nat, nat),
    capacity: (bool, nat, nat),
    list: Seq<ProfileLinkAccounting>,
) -> bool {
    let physical = input_count + producers_of(profile);
    let d = discard_links_of(profile, input_count, output_count);
    let fewest = fewest_links_with_discards(profile, input_count, output_count, d);
    let most = most_operator_links(profile);
    &&& !surplus_fits(profile, input_count, output_count, surplus, capacity) ==> list.len() == 0
    &&& surplus_fits(profile, input_count, output_count, surplus, capacity) ==> list.len() == if most
        >= fewest {
        most - fewest + 1
    } else {
        0
    }
    &&& forall|k: int|
        0 <= k < list.len() ==> list[k] == (ProfileLinkAccounting {
            link_count: (fewest + k) as u32,
            discard_link_count: d as u32,
            physical_link_count: physical as u32,
        })
}

/// Enumerates every exact operator-link count admitted by one fixed profile.
///
/// With `P` physical links and `C` modeled consumer links, zero surplus admits
/// exactly `P = C`. Positive surplus requires `D = P - C > 0` discard lines,
/// and `surplus <= D*B` is the exact condition for splitting it among `D`
/// strictly positive lines of capacity `B`.
pub fn profile_link_accountings(
    profile: NodeProfile,
    input_count: u32,
    output_count: u32,
    surplus: &Rate,
    max_link_rate: &Rate,
) -> (accountings: Result<Vec<ProfileLinkAccounting>, ProfileArithmeticError>)
    ensures
        accountings is Err <==> accounting_failure(profile, input_count, output_count, surplus@, max_link_rate@) is Some,
        accountings matches Err(e) ==> Some(e) == accounting_failure(
            profile,
            input_count,
            output_count,
            surplus@,
            max_link_rate@,
        ),
        accountings matches Ok(list) ==> accounting_list(
            profile,
            input_count,
            output_count,
            surplus@,
            max_link_rate@,
            list@,
        ),
{
    let surplus_zero = surplus.numerator.is_zero();
    if surplus.negative && !surplus_zero {
        return Err(ProfileArithmeticError::NegativeSurplus);
    }
    if max_link_rate.negative || max_link_rate.numerator.is_zero() {
        return Err(ProfileArithmeticError::NonPositiveCapacity);
    }
    checked_node_count(profile)?;
    let producers = producer_port_count(profile)?;
    if input_count as u64 + producers as u64 > u32::MAX as u64 {
        return Err(ProfileArithmeticError::LinkCountOverflow);
    }
    let physical_link_count = input_count + producers;
    let consumers = consumer_port_count(profile)?;
    if output_count as u64 + consumers as u64 > u32::MAX as u64 {
        return Err(ProfileArithmeticError::LinkCountOverflow);
    }
    let modeled = output_count + consumers;
    let mut list: Vec<ProfileLinkAccounting> = Vec::new();
    if surplus_zero && physical_link_count != modeled {
        return Ok(list);
    }
    if physical_link_count < modeled {
        return Ok(list);
    }
    let discard_link_count = physical_link_count - modeled;
    if !surplus_zero {
        if discard_link_count == 0 {
            return Ok(list);
        }
        let carried = big_mul(&max_link_rate.numerator, &BigNat::small(discard_link_count));
        let left = big_mul(&carried, &surplus.denominator);
        let right = big_mul(&surplus.numerator, &max_link_rate.denominator);
        if big_lt(&left, &right) {
            return Ok(list);
        }
    }
    let external_consumers = output_count + discard_link_count;
    let by_consumers = if consumers > input_count {
        consumers - input_count
    } else {
        0
    };
    let by_producers = if producers > external_consumers {
        producers - external_consumers
    } else {
        0
    };
    let minimum = if by_consumers > by_producers {
        by_consumers
    } else {
        by_producers
    };
    let maximum = if producers < consumers {
        producers
    } else {
        consumers
    };
    let ghost d = discard_links_of(profile, input_count, output_count);
    assert(minimum == fewest_links_with_discards(profile, input_count, output_count, d));
    let mut operator_links: u64 = minimum as u64;
    while operator_links <= maximum as u64
        invariant
            minimum <= operator_links,
            operator_links <= maximum + 1 || operator_links == minimum,
            minimum == fewest_links_with_discards(profile, input_count, output_count, d),
            maximum == most_operator_links(profile),
            maximum <= u32::MAX,
            physical_link_count == input_count + producers_of(profile),
            discard_link_count == d,
            list@.len() == operator_links - minimum,
            forall|k: int|
                0 <= k < list@.len() ==> list@[k] == (ProfileLinkAccounting {
                    link_count: (minimum + k) as u32,
                    discard_link_count,
                    physical_link_count,
                }),
        decreases maximum + 1 - operator_links,
    {
        list.push(
            ProfileLinkAccounting {
                link_count: operator_links as u32,
                discard_link_count,
                physical_link_count,
            },
        );
        operator_links = operator_links + 1;
    }
    Ok(list)
}

/// Returns the smallest operator-link obligation admitted by one fixed profile.
pub fn profile_link_accounting(
    profile: NodeProfile,
    input_count: u32,
    output_count: u32,
    surplus: &Rate,
    max_link_rate: &Rate,
) -> (accounting: Result<Option<ProfileLinkAccounting>, ProfileArithmeticError>)
    ensures
        accounting is Err <==> accounting_failure(profile, input_count, output_count, surplus@, max_link_rate@) is Some,
        accounting matches Err(e) ==> Some(e) == accounting_failure(
            profile,
            input_count,
            output_count,
            surplus@,
            max_link_rate@,
        ),
        accounting matches Ok(first) ==> (first is Some <==> surplus_fits(
            profile,
            input_count,
            output_count,
            surplus@,
            max_link_rate@,
        ) && most_operator_links(profile) >= fewest_links_with_discards(
            profile,
            input_count,
            output_count,
            discard_links_of(profile, input_count, output_count),
        )),
        accounting matches Ok(Some(a)) ==> a == (ProfileLinkAccounting {
            link_count: fewest_links_with_discards(
                profile,
                input_count,
                output_count,
                discard_links_of(profile, input_count, output_count),
            ) as u32,
            discard_link_count: discard_links_of(profile, input_count, output_count) as u32,
            physical_link_count: (input_count + producers_of(profile)) as u32,
        }),
{
    let list = profile_link_accountings(profile, input_count, output_count, surplus, max_link_rate)?;
    if list.len() == 0 {
        Ok(None)
    } else {
        Ok(Some(list[0]))
    }
}

/// The rate zero.
pub(crate) fn zero_rate() -> (rate: Rate)
    ensures
        rate@ == (false, 0nat, 1nat),
{
    Rate { negative: false, numerator: zero(), denominator: BigNat::small(1) }
}

/// The rate one.
pub(crate) fn one_rate() -> (rate: Rate)
    ensures
        rate@ == (false, 1nat, 1nat),
{
    Rate { negative: false, numerator: BigNat::small(1), denominator: BigNat::small(1) }
}

/// Every exact operator-link count of a profile whose ports balance with no
/// surplus, at unit capacity.
fn balanced_accountings(
    profile: NodeProfile,
    input_count: u32,
    output_count: u32,
) -> (accountings: Result<Vec<ProfileLinkAccounting>, ProfileArithmeticError>)
    ensures
        accountings is Err <==> balance_failure(profile, input_count, output_count) is Some,
        accountings matches Err(e) ==> Some(e) == balance_failure(profile, input_count, output_count),
        accountings matches Ok(list) ==> balanced_list(profile, input_count, output_count, list@),
{
    let nothing = zero_rate();
    let unit = one_rate();
    let list = profile_link_accountings(profile, input_count, output_count, &nothing, &unit)?;
    proof {
        let d = discard_links_of(profile, input_count, output_count);
        if d == 0 {
            assert(fewest_links_with_discards(profile, input_count, output_count, d)
                == fewest_operator_links(profile, input_count, output_count));
        }
    }
    Ok(list)
}

/// `list` holds, ascending, every operator-link count admitted by a profile
/// whose ports balance with no surplus, and nothing when they do not balance.
pub open spec fn balanced_list(
    profile: NodeProfile,
    input_count: u32,
    output_count: u32,
    list: Seq<ProfileLinkAccounting>,
) -> bool {
    let physical = input_count + producers_of(profile);
    let balanced = physical == output_count + consumers_of(profile);
    let fewest = fewest_operator_links(profile, input_count, output_count);
    let most = most_operator_links(profile);
    &&& !balanced ==> list.len() == 0
    &&& balanced ==> list.len() == if most >= fewest {
        most - fewest + 1
    } else {
        0
    }
    &&& forall|k: int|
        0 <= k < list.len() ==> list[k] == (ProfileLinkAccounting {
            link_count: (fewest + k) as u32,
            discard_link_count: 0,
            physical_link_count: physical as u32,
        })
}

/// Returns the smallest exact operator-link count for a balanced profile.
pub fn balanced_link_count(
    profile: NodeProfile,
    input_count: u32,
    output_count: u32,
) -> (count: Result<Option<u32>, ProfileArithmeticError>)
    ensures
        count is Err <==> balance_failure(profile, input_count, output_count) is Some,
        count matches Err(e) ==> Some(e) == balance_failure(profile, input_count, output_count),
        count matches Ok(c) ==> (c is Some <==> input_count + producers_of(profile) == output_count
            + consumers_of(profile) && most_operator_links(profile) >= fewest_operator_links(
            profile,
            input_count,
            output_count,
        )),
        count matches Ok(Some(c)) ==> c == fewest_operator_links(profile, input_count, output_count),
{
    let list = balanced_accountings(profile, input_count, output_count)?;
    if list.len() == 0 {
        Ok(None)
    } else {
        Ok(Some(list[0].link_count))
    }
}

/// `profile` admits exactly `link` operator links with balanced ports and
/// no surplus.
pub open spec fn admits(profile: NodeProfile, input_count: u32, output_count: u32, link: int) -> bool {
    &&& input_count + producers_of(profile) == output_count + consumers_of(profile)
    &&& fewest_operator_links(profile, input_count, output_count) <= link
    &&& link <= most_operator_links(profile)
}

/// Some group of `groups` has link count `link` and holds `profile`.
pub open spec fn in_groups(groups: Seq<ProfileGroup>, link: int, profile: NodeProfile) -> bool {
    exists|i: int|
        0 <= i < groups.len() && (#[trigger] groups[i]).link_count == link && groups[i].profiles@.contains(
            profile,
        )
}

/// Groups ordered by link count, each with distinct profiles in ascending order.
pub open spec fn ordered_groups(groups: Seq<ProfileGroup>) -> bool {
    &&& forall|i: int, j: int|
        0 <= i < j < groups.len() ==> (#[trigger] groups[i]).link_count < (#[trigger] groups[j]).link_count
    &&& forall|i: int|
        0 <= i < groups.len() ==> {
            let profiles = (#[trigger] groups[i]).profiles@;
            &&& profiles.len() > 0
            &&& forall|a: int, b: int|
                0 <= a < b < profiles.len() ==> profile_before(#[trigger] profiles[a], #[trigger] profiles[b])
        }
}

/// Adds `profile`, which follows every profile already grouped, to the group of `link`.
fn add_to_group(groups: &mut Vec<ProfileGroup>, link: u32, profile: NodeProfile)
    requires
        ordered_groups(old(groups)@),
        forall|i: int, q: NodeProfile|
            0 <= i < old(groups)@.len() && #[trigger] old(groups)@[i].profiles@.contains(q) ==> (q
                == profile && old(groups)@[i].link_count != link) || profile_before(q, profile),
    ensures
        ordered_groups(final(groups)@),
        forall|l: int, q: NodeProfile|
            #[trigger] in_groups(final(groups)@, l, q) <==> in_groups(old(groups)@, l, q) || (l == link
                && q == profile),
        forall|i: int, q: NodeProfile|
            0 <= i < final(groups)@.len() && #[trigger] final(groups)@[i].profiles@.contains(q) ==> q
                == profile || profile_before(q, profile),
{
    let ghost before = groups@;
    let mut at: usize = 0;
    while at < groups.len() && groups[at].link_count < link
        invariant
            at <= groups@.len(),
            forall|i: int| 0 <= i < at ==> (#[trigger] groups@[i]).link_count < link,
        decreases groups@.len() - at,
    {
        at = at + 1;
    }
    if at < groups.len() && groups[at].link_count == link {
        let mut group = groups.remove(at);
        let ghost old_profiles = group.profiles@;
        group.profiles.push(profile);
        groups.insert(at, group);
        proof {
            assert(groups@ =~= before.update(at as int, groups@[at as int]));
            assert(groups@[at as int].profiles@ =~= old_profiles.push(profile));
            assert forall|a: int, b: int|
                0 <= a < b < groups@[at as int].profiles@.len() implies profile_before(
                #[trigger] groups@[at as int].profiles@[a],
                #[trigger] groups@[at as int].profiles@[b],
            ) by {
                if b == old_profiles.len() {
                    assert(old_profiles.contains(old_profiles[a]));
                }
            }
            assert forall|l: int, q: NodeProfile| #[trigger] in_groups(groups@, l, q) <==> in_groups(before, l, q) || (
            l == link && q == profile) by {
                if in_groups(groups@, l, q) {
                    let i = choose|i: int|
                        0 <= i < groups@.len() && (#[trigger] groups@[i]).link_count == l
                            && groups@[i].profiles@.contains(q);
                    if i == at && q != profile {
                        let k = choose|k: int| 0 <= k < groups@[i].profiles@.len() && groups@[i].profiles@[k] == q;
                        assert(old_profiles[k] == q);
                        assert(before[i].profiles@.contains(q));
                    }
                }
                if in_groups(before, l, q) {
                    let i = choose|i: int|
                        0 <= i < before.len() && (#[trigger] before[i]).link_count == l
                            && before[i].profiles@.contains(q);
                    if i == at {
                        let k = choose|k: int| 0 <= k < old_profiles.len() && old_profiles[k] == q;
                        assert(groups@[i].profiles@[k] == q);
                    }
                    assert(groups@[i].profiles@.contains(q));
                }
                if l == link && q == profile {
                    assert(groups@[at as int].profiles@[old_profiles.len() as int] == q);
                    assert(groups@[at as int].profiles@.contains(q));
                }
            }
            assert forall|i: int, q: NodeProfile|
                0 <= i < groups@.len() && #[trigger] groups@[i].profiles@.contains(q) implies q == profile
                || profile_before(q, profile) by {
                if i == at && q != profile {
                    let k = choose|k: int| 0 <= k < groups@[i].profiles@.len() && groups@[i].profiles@[k] == q;
                    assert(old_profiles[k] == q);
                    assert(before[i].profiles@.contains(q));
                }
            }
        }
    } else {
        let mut profiles: Vec<NodeProfile> = Vec::new();
        profiles.push(profile);
        groups.insert(at, ProfileGroup { link_count: link, profiles });
        proof {
            assert(groups@ =~= before.insert(at as int, groups@[at as int]));
            assert forall|a: int, b: int|
                0 <= a < b < groups@.len() implies (#[trigger] groups@[a]).link_count < (
                #[trigger] groups@[b]).link_count by {
                if b < at {
                    assert(groups@[a] == before[a] && groups@[b] == before[b]);
                } else if b == at {
                    assert(groups@[a] == before[a]);
                } else if a < at {
                    assert(groups@[a] == before[a] && groups@[b] == before[b - 1]);
                } else if a == at {
                    assert(groups@[b] == before[b - 1]);
                    if b - 1 > at {
                        assert(before[at as int].link_count < before[b - 1].link_count);
                    }
                } else {
                    assert(groups@[a] == before[a - 1] && groups@[b] == before[b - 1]);
                }
            }
            assert forall|i: int| 0 <= i < groups@.len() implies {
                let profiles = (#[trigger] groups@[i]).profiles@;
                &&& profiles.len() > 0
                &&& forall|a: int, b: int|
                    0 <= a < b < profiles.len() ==> profile_before(#[trigger] profiles[a], #[trigger] profiles[b])
            } by {
                if i < at {
                    assert(groups@[i] == before[i]);
                } else if i > at {
                    assert(groups@[i] == before[i - 1]);
                }
            }
            assert forall|l: int, q: NodeProfile| #[trigger] in_groups(groups@, l, q) <==> in_groups(before, l, q) || (
            l == link && q == profile) by {
                if in_groups(groups@, l, q) {
                    let i = choose|i: int|
                        0 <= i < groups@.len() && (#[trigger] groups@[i]).link_count == l
                            && groups@[i].profiles@.contains(q);
                    if i < at {
                        assert(groups@[i] == before[i]);
                    } else if i > at {
                        assert(groups@[i] == before[i - 1]);
                    } else {
                        assert(groups@[i].profiles@ =~= seq![profile]);
                    }
                }
                if in_groups(before, l, q) {
                    let i = choose|i: int|
                        0 <= i < before.len() && (#[trigger] before[i]).link_count == l
                            && before[i].profiles@.contains(q);
                    if i < at {
                        assert(groups@[i] == before[i]);
                    } else {
                        assert(groups@[i + 1] == before[i]);
                    }
                }
                if l == link && q == profile {
                    assert(groups@[at as int].profiles@[0] == q);
                }
            }
            assert forall|i: int, q: NodeProfile|
                0 <= i < groups@.len() && #[trigger] groups@[i].profiles@.contains(q) implies q == profile
                || profile_before(q, profile) by {
                if i < at {
                    assert(groups@[i] == before[i]);
                } else if i > at {
                    assert(groups@[i] == before[i - 1]);
                } else {
                    assert(groups@[i].profiles@ =~= seq![profile]);
                }
            }
        }
    }
}

/// Profile `q` of `node_count` nodes comes before position `(s2, s3, m2)`
/// of the enumeration by splitters, then 3-splitters, then 2-mergers.
pub open spec fn enumerated_before(q: NodeProfile, node_count: int, s2: int, s3: int, m2: int) -> bool {
    &&& nodes_of(q) == node_count
    &&& q.splitter2 < s2 || (q.splitter2 == s2 && (q.splitter3 < s3 || (q.splitter3 == s3
        && q.merger2 < m2)))
}

/// `profile` admits exactly `link` operator links under the surplus.
pub open spec fn admits_with(
    profile: NodeProfile,
    input_count: u32,
    output_count: u32,
    surplus: (bool, nat, nat),
    capacity: (bool, nat, nat),
    link: int,
) -> bool {
    &&& surplus_fits(profile, input_count, output_count, surplus, capacity)
    &&& fewest_links_with_discards(
        profile,
        input_count,
        output_count,
        discard_links_of(profile, input_count, output_count),
    ) <= link
    &&& link <= most_operator_links(profile)
}

/// Enumerates every profile of `node_count` nodes that admits the surplus,
/// grouped by ascending exact link count; profiles within a group ascend in
/// field order. A profile whose derived counts overflow fails the enumeration,
/// the first such profile naming the error.
fn enumerate_groups(
    node_count: u32,
    input_count: u32,
    output_count: u32,
    surplus: &Rate,
    max_link_rate: &Rate,
) -> (result:
    Result<Vec<ProfileGroup>, ProfileArithmeticError>)
    ensures
        result is Err <==> exists|q: NodeProfile|
            nodes_of(q) == node_count && (#[trigger] accounting_failure(q, input_count, output_count, surplus@, max_link_rate@)) is Some,
        result matches Err(e) ==> exists|q: NodeProfile|
            nodes_of(q) == node_count && #[trigger] accounting_failure(q, input_count, output_count, surplus@, max_link_rate@) == Some(e)
                && forall|r: NodeProfile|
                nodes_of(r) == node_count && profile_before(r, q) ==> (#[trigger] accounting_failure(r, input_count, output_count, surplus@, max_link_rate@)) is None,
        result matches Ok(groups) ==> ordered_groups(groups@) && forall|l: int, q: NodeProfile|
            #[trigger] in_groups(groups@, l, q) <==> nodes_of(q) == node_count && admits_with(q, input_count, output_count, surplus@, max_link_rate@, l),
        result is Ok ==> forall|q: NodeProfile|
            nodes_of(q) == node_count ==> (#[trigger] accounting_failure(
                q,
                input_count,
                output_count,
                surplus@,
                max_link_rate@,
            )) is None,
{
    let mut groups: Vec<ProfileGroup> = Vec::new();
    let n: u64 = node_count as u64;
    let mut s2: u64 = 0;
    while s2 <= n
        invariant
            n == node_count,
            s2 <= n + 1,
            ordered_groups(groups@),
            forall|l: int, q: NodeProfile|
                #[trigger] in_groups(groups@, l, q) <==> enumerated_before(q, n as int, s2 as int, 0, 0)
                    && admits_with(q, input_count, output_count, surplus@, max_link_rate@, l),
            forall|q: NodeProfile|
                enumerated_before(q, n as int, s2 as int, 0, 0) ==> (#[trigger] accounting_failure(q, input_count, output_count, surplus@, max_link_rate@)) is None,
        decreases n + 1 - s2,
    {
        let rest = n - s2;
        let mut s3: u64 = 0;
        while s3 <= rest
            invariant
                n == node_count,
                s2 <= n,
                rest == n - s2,
                s3 <= rest + 1,
                ordered_groups(groups@),
                forall|l: int, q: NodeProfile|
                    #[trigger] in_groups(groups@, l, q) <==> enumerated_before(
                        q,
                        n as int,
                        s2 as int,
                        s3 as int,
                        0,
                    ) && admits_with(q, input_count, output_count, surplus@, max_link_rate@, l),
                forall|q: NodeProfile|
                    enumerated_before(q, n as int, s2 as int, s3 as int, 0) ==> (#[trigger] accounting_failure(q, input_count, output_count, surplus@, max_link_rate@)) is None,
            decreases rest + 1 - s3,
        {
            let total = rest - s3;
            let mut m2: u64 = 0;
            while m2 <= total
                invariant
                    n == node_count,
                    s2 <= n,
                    rest == n - s2,
                    s3 <= rest,
                    total == rest - s3,
                    m2 <= total + 1,
                    ordered_groups(groups@),
                    forall|l: int, q: NodeProfile|
                        #[trigger] in_groups(groups@, l, q) <==> enumerated_before(
                            q,
                            n as int,
                            s2 as int,
                            s3 as int,
                            m2 as int,
                        ) && admits_with(q, input_count, output_count, surplus@, max_link_rate@, l),
                    forall|q: NodeProfile|
                        enumerated_before(q, n as int, s2 as int, s3 as int, m2 as int)
                            ==> (#[trigger] accounting_failure(q, input_count, output_count, surplus@, max_link_rate@)) is None,
                decreases total + 1 - m2,
            {
                let profile = NodeProfile {
                    splitter2: s2 as u32,
                    splitter3: s3 as u32,
                    merger2: m2 as u32,
                    merger3: (total - m2) as u32,
                };
                assert(nodes_of(profile) == node_count);
                let list = match profile_link_accountings(profile, input_count, output_count, surplus, max_link_rate) {
                    Ok(list) => list,
                    Err(e) => {
                        proof {
                            assert forall|r: NodeProfile|
                                nodes_of(r) == node_count && profile_before(r, profile) implies (
                                #[trigger] accounting_failure(r, input_count, output_count, surplus@, max_link_rate@)) is None by {
                                assert(enumerated_before(r, n as int, s2 as int, s3 as int, m2 as int));
                            }
                        }
                        return Err(e);
                    },
                };
                let ghost start = groups@;
                let mut k: usize = 0;
                while k < list.len()
                    invariant
                        k <= list@.len(),
                        accounting_list(profile, input_count, output_count, surplus@, max_link_rate@, list@),
                        accounting_failure(profile, input_count, output_count, surplus@, max_link_rate@) is None,
                        ordered_groups(groups@),
                        nodes_of(profile) == n,
                        profile.splitter2 == s2 && profile.splitter3 == s3 && profile.merger2 == m2,
                        forall|l: int, q: NodeProfile|
                            #[trigger] in_groups(groups@, l, q) <==> (enumerated_before(
                                q,
                                n as int,
                                s2 as int,
                                s3 as int,
                                m2 as int,
                            ) && admits_with(q, input_count, output_count, surplus@, max_link_rate@, l)) || (q == profile && admits_with(profile, input_count, output_count, surplus@, max_link_rate@, l) && l < fewest_links_with_discards(profile, input_count, output_count, discard_links_of(profile, input_count, output_count)) + k),
                    decreases list@.len() - k,
                {
                    proof {
                        assert(list@[k as int].link_count == fewest_links_with_discards(profile, input_count, output_count, discard_links_of(profile, input_count, output_count)) + k);
                        assert forall|i: int, q: NodeProfile|
                            0 <= i < groups@.len() && #[trigger] groups@[i].profiles@.contains(q) implies (q
                                == profile && groups@[i].link_count != list@[k as int].link_count)
                                || profile_before(q, profile) by {
                            assert(in_groups(groups@, groups@[i].link_count as int, q));
                        }
                    }
                    add_to_group(&mut groups, list[k].link_count, profile);
                    k = k + 1;
                }
                proof {
                    assert forall|l: int, q: NodeProfile|
                        #[trigger] in_groups(groups@, l, q) <==> enumerated_before(
                            q,
                            n as int,
                            s2 as int,
                            s3 as int,
                            m2 + 1,
                        ) && admits_with(q, input_count, output_count, surplus@, max_link_rate@, l) by {
                        if enumerated_before(q, n as int, s2 as int, s3 as int, m2 + 1) && !enumerated_before(
                            q,
                            n as int,
                            s2 as int,
                            s3 as int,
                            m2 as int,
                        ) {
                            assert(q == profile);
                        }
                    }
                    assert forall|q: NodeProfile|
                        enumerated_before(q, n as int, s2 as int, s3 as int, m2 + 1) implies (
                        #[trigger] accounting_failure(q, input_count, output_count, surplus@, max_link_rate@)) is None by {
                        if !enumerated_before(q, n as int, s2 as int, s3 as int, m2 as int) {
                            assert(q == profile);
                        }
                    }
                }
                m2 = m2 + 1;
            }
            s3 = s3 + 1;
        }
        s2 = s2 + 1;
    }
    proof {
        assert forall|q: NodeProfile| nodes_of(q) == node_count implies (#[trigger] accounting_failure(
            q,
            input_count,
            output_count,
            surplus@,
            max_link_rate@,
        )) is None by {
            assert(enumerated_before(q, n as int, s2 as int, 0, 0));
        }
    }
    Ok(groups)
}

/// Enumerates every port-balanced profile of `node_count` nodes, grouped by
/// ascending exact link count; profiles within a group ascend in field
/// order. A profile whose derived counts overflow fails the enumeration,
/// the first such profile naming the error.
pub fn enumerate_profile_groups(node_count: u32, input_count: u32, output_count: u32) -> (result:
    Result<Vec<ProfileGroup>, ProfileArithmeticError>)
    ensures
        result is Err <==> exists|q: NodeProfile|
            nodes_of(q) == node_count && (#[trigger] balance_failure(q, input_count, output_count)) is Some,
        result matches Err(e) ==> exists|q: NodeProfile|
            nodes_of(q) == node_count && #[trigger] balance_failure(q, input_count, output_count) == Some(e)
                && forall|r: NodeProfile|
                nodes_of(r) == node_count && profile_before(r, q) ==> (#[trigger] balance_failure(
                    r,
                    input_count,
                    output_count,
                )) is None,
        result matches Ok(groups) ==> ordered_groups(groups@) && forall|l: int, q: NodeProfile|
            #[trigger] in_groups(groups@, l, q) <==> nodes_of(q) == node_count && admits(
                q,
                input_count,
                output_count,
                l,
            ),
{
    let nothing = zero_rate();
    let unit = one_rate();
    let result = enumerate_groups(node_count, input_count, output_count, &nothing, &unit);
    proof {
        assert forall|q: NodeProfile| #[trigger] balance_failure(q, input_count, output_count)
            == accounting_failure(q, input_count, output_count, nothing@, unit@) by {}
        assert forall|l: int, q: NodeProfile| #[trigger] admits(q, input_count, output_count, l)
            == admits_with(q, input_count, output_count, nothing@, unit@, l) by {
            let d = discard_links_of(q, input_count, output_count);
            if d == 0 {
                assert(fewest_links_with_discards(q, input_count, output_count, d)
                    == fewest_operator_links(q, input_count, output_count));
            }
        }
    }
    result
}

/// The accounting of `profile` with `link` operator links: its discard lines
/// and all its physical links.
pub open spec fn accounting_for(profile: NodeProfile, input_count: u32, output_count: u32, link: int) -> ProfileLinkAccounting {
    ProfileLinkAccounting {
        link_count: link as u32,
        discard_link_count: discard_links_of(profile, input_count, output_count) as u32,
        physical_link_count: (input_count + producers_of(profile)) as u32,
    }
}

/// The profiles of some accounted profiles, in order.
pub open spec fn profiles_of(accounted: Seq<AccountedProfile>) -> Seq<NodeProfile> {
    accounted.map_values(|a: AccountedProfile| a.profile)
}

/// Some group of `groups` has link count `link` and holds `profile`.
pub open spec fn in_accounted_groups(groups: Seq<AccountedProfileGroup>, link: int, profile: NodeProfile) -> bool {
    exists|i: int|
        0 <= i < groups.len() && (#[trigger] groups[i]).link_count == link && profiles_of(
            groups[i].profiles@,
        ).contains(profile)
}

/// Groups ordered by link count, each with distinct profiles in ascending
/// order, each profile carrying its own accounting at the group's link count.
pub open spec fn ordered_accounted_groups(
    groups: Seq<AccountedProfileGroup>,
    input_count: u32,
    output_count: u32,
) -> bool {
    &&& forall|i: int, j: int|
        0 <= i < j < groups.len() ==> (#[trigger] groups[i]).link_count < (#[trigger] groups[j]).link_count
    &&& forall|i: int|
        0 <= i < groups.len() ==> {
            let profiles = (#[trigger] groups[i]).profiles@;
            &&& profiles.len() > 0
            &&& forall|a: int, b: int|
                0 <= a < b < profiles.len() ==> profile_before(
                    (#[trigger] profiles[a]).profile,
                    (#[trigger] profiles[b]).profile,
                )
            &&& forall|a: int|
                0 <= a < profiles.len() ==> (#[trigger] profiles[a]).accounting == accounting_for(
                    profiles[a].profile,
                    input_count,
                    output_count,
                    groups[i].link_count as int,
                )
        }
}

/// The accounting of a profile that admits `link` operator links.
fn accounting_of(profile: NodeProfile, input_count: u32, output_count: u32, link: u32) -> (accounting:
    ProfileLinkAccounting)
    requires
        balance_failure(profile, input_count, output_count) is None,
        discard_links_of(profile, input_count, output_count) >= 0,
    ensures
        accounting == accounting_for(profile, input_count, output_count, link as int),
{
    let producers = 2 * (profile.splitter2 as u64) + 3 * (profile.splitter3 as u64)
        + profile.merger2 as u64 + profile.merger3 as u64;
    let consumers = profile.splitter2 as u64 + profile.splitter3 as u64 + 2 * (profile.merger2 as u64)
        + 3 * (profile.merger3 as u64);
    let physical = input_count as u64 + producers;
    let discard = physical - (output_count as u64 + consumers);
    ProfileLinkAccounting {
        link_count: link,
        discard_link_count: discard as u32,
        physical_link_count: physical as u32,
    }
}

/// Enumerates every profile of `node_count` nodes feasible under the exact
/// surplus and the capacity of each discard line, grouped by ascending exact
/// operator-link count. Equal link counts stay in one group even when their
/// discard counts differ, since discard lines never enter the link objective;
/// profiles within a group ascend in field order.
pub fn enumerate_accounted_profile_groups(
    node_count: u32,
    input_count: u32,
    output_count: u32,
    surplus: &Rate,
    max_link_rate: &Rate,
) -> (result: Result<Vec<AccountedProfileGroup>, ProfileArithmeticError>)
    ensures
        result is Err <==> exists|q: NodeProfile|
            nodes_of(q) == node_count && (#[trigger] accounting_failure(
                q,
                input_count,
                output_count,
                surplus@,
                max_link_rate@,
            )) is Some,
        result matches Err(e) ==> exists|q: NodeProfile|
            nodes_of(q) == node_count && #[trigger] accounting_failure(
                q,
                input_count,
                output_count,
                surplus@,
                max_link_rate@,
            ) == Some(e) && forall|r: NodeProfile|
                nodes_of(r) == node_count && profile_before(r, q) ==> (#[trigger] accounting_failure(
                    r,
                    input_count,
                    output_count,
                    surplus@,
                    max_link_rate@,
                )) is None,
        result matches Ok(groups) ==> ordered_accounted_groups(groups@, input_count, output_count)
            && forall|l: int, q: NodeProfile|
            #[trigger] in_accounted_groups(groups@, l, q) <==> nodes_of(q) == node_count && admits_with(
                q,
                input_count,
                output_count,
                surplus@,
                max_link_rate@,
                l,
            ),
{
    let plain = enumerate_groups(node_count, input_count, output_count, surplus, max_link_rate)?;
    let mut groups: Vec<AccountedProfileGroup> = Vec::new();
    let mut i: usize = 0;
    while i < plain.len()
        invariant
            i <= plain@.len(),
            groups@.len() == i,
            ordered_groups(plain@),
            forall|l: int, q: NodeProfile| #[trigger] in_groups(plain@, l, q) <==> nodes_of(q) == node_count && admits_with(q, input_count, output_count, surplus@, max_link_rate@, l),
            forall|q: NodeProfile|
                nodes_of(q) == node_count ==> (#[trigger] accounting_failure(
                    q,
                    input_count,
                    output_count,
                    surplus@,
                    max_link_rate@,
                )) is None,
            forall|j: int|
                0 <= j < i ==> {
                    &&& (#[trigger] groups@[j]).link_count == plain@[j].link_count
                    &&& profiles_of(groups@[j].profiles@) == plain@[j].profiles@
                    &&& forall|a: int|
                        0 <= a < groups@[j].profiles@.len() ==> (#[trigger] groups@[j].profiles@[a]).accounting
                            == accounting_for(
                            groups@[j].profiles@[a].profile,
                            input_count,
                            output_count,
                            groups@[j].link_count as int,
                        )
                },
        decreases plain@.len() - i,
    {
        let link = plain[i].link_count;
        let mut profiles: Vec<AccountedProfile> = Vec::new();
        let mut k: usize = 0;
        while k < plain[i].profiles.len()
            invariant
                i < plain@.len(),
                link == plain@[i as int].link_count,
                k <= plain@[i as int].profiles@.len(),
                profiles_of(profiles@) == plain@[i as int].profiles@.subrange(0, k as int),
                forall|l: int, q: NodeProfile| #[trigger] in_groups(plain@, l, q) <==> nodes_of(q) == node_count && admits_with(q, input_count, output_count, surplus@, max_link_rate@, l),
                forall|q: NodeProfile|
                    nodes_of(q) == node_count ==> (#[trigger] accounting_failure(
                        q,
                        input_count,
                        output_count,
                        surplus@,
                        max_link_rate@,
                    )) is None,
                forall|a: int|
                    0 <= a < profiles@.len() ==> (#[trigger] profiles@[a]).accounting == accounting_for(
                        profiles@[a].profile,
                        input_count,
                        output_count,
                        link as int,
                    ),
            decreases plain@[i as int].profiles@.len() - k,
        {
            let profile = plain[i].profiles[k];
            proof {
                assert(plain@[i as int].profiles@.contains(profile));
                assert(in_groups(plain@, link as int, profile));
                assert(nodes_of(profile) == node_count);
                assert(accounting_failure(profile, input_count, output_count, surplus@, max_link_rate@) is None);
            }
            let accounting = accounting_of(profile, input_count, output_count, link);
            let ghost before = profiles@;
            profiles.push(AccountedProfile { profile, accounting });
            k = k + 1;
            proof {
                assert(profiles_of(profiles@) =~= profiles_of(before).push(profile));
                assert(profiles_of(profiles@) =~= plain@[i as int].profiles@.subrange(0, k as int));
            }
        }
        proof {
            assert(plain@[i as int].profiles@.subrange(0, k as int) =~= plain@[i as int].profiles@);
        }
        groups.push(AccountedProfileGroup { link_count: link, profiles });
        i = i + 1;
    }
    proof {
        assert forall|j: int| 0 <= j < groups@.len() implies profiles_of((#[trigger] groups@[j]).profiles@).len()
            == groups@[j].profiles@.len() by {}
        assert forall|l: int, q: NodeProfile| #[trigger] in_accounted_groups(groups@, l, q) <==> in_groups(
            plain@,
            l,
            q,
        ) by {
            if in_accounted_groups(groups@, l, q) {
                let j = choose|j: int|
                    0 <= j < groups@.len() && (#[trigger] groups@[j]).link_count == l && profiles_of(
                        groups@[j].profiles@,
                    ).contains(q);
                assert(plain@[j].link_count == l && plain@[j].profiles@.contains(q));
            }
            if in_groups(plain@, l, q) {
                let j = choose|j: int|
                    0 <= j < plain@.len() && (#[trigger] plain@[j]).link_count == l && plain@[j].profiles@.contains(q);
                assert(groups@[j].link_count == l && profiles_of(groups@[j].profiles@).contains(q));
            }
        }
        assert forall|j: int| 0 <= j < groups@.len() implies {
            let profiles = (#[trigger] groups@[j]).profiles@;
            &&& profiles.len() > 0
            &&& forall|a: int, b: int|
                0 <= a < b < profiles.len() ==> profile_before(
                    (#[trigger] profiles[a]).profile,
                    (#[trigger] profiles[b]).profile,
                )
        } by {
            let profiles = groups@[j].profiles@;
            assert(profiles_of(profiles).len() == profiles.len());
            assert forall|a: int, b: int| 0 <= a < b < profiles.len() implies profile_before(
                (#[trigger] profiles[a]).profile,
                (#[trigger] profiles[b]).profile,
            ) by {
                assert(profiles_of(profiles)[a] == profiles[a].profile);
                assert(profiles_of(profiles)[b] == profiles[b].profile);
            }
        }
    }
    Ok(groups)
}

/// A profile stands in the enumeration's group of `link` operator links
/// exactly when `link` is one of the counts that its own accounting lists.
pub proof fn law_grouped_links_are_listed_accountings(
    profile: NodeProfile,
    input_count: u32,
    output_count: u32,
    surplus: (bool, nat, nat),
    capacity: (bool, nat, nat),
    list: Seq<ProfileLinkAccounting>,
    link: int,
)
    requires
        balance_failure(profile, input_count, output_count) is None,
        accounting_list(profile, input_count, output_count, surplus, capacity, list),
        0 <= link <= u32::MAX,
    ensures
        admits_with(profile, input_count, output_count, surplus, capacity, link) <==> exists|k: int|
            0 <= k < list.len() && (#[trigger] list[k]).link_count == link,
{
    let d = discard_links_of(profile, input_count, output_count);
    let fewest = fewest_links_with_discards(profile, input_count, output_count, d);
    if admits_with(profile, input_count, output_count, surplus, capacity, link) {
        let k = link - fewest;
        assert(list[k].link_count == link);
    }
    if exists|k: int| 0 <= k < list.len() && (#[trigger] list[k]).link_count == link {
        let k = choose|k: int| 0 <= k < list.len() && (#[trigger] list[k]).link_count == link;
        assert(fewest + k <= most_operator_links(profile));
    }
}

} // verus!
