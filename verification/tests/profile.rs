use solver_core::exact::BigNat;
use solver_core::problem::Rate;
use solver_core::profile::{
    balanced_link_count, checked_node_count, consumer_port_count, enumerate_accounted_profile_groups,
    enumerate_profile_groups, producer_port_count, profile_link_accounting, profile_link_accountings, NodeProfile,
    ProfileArithmeticError, ProfileGroup, ProfileLinkAccounting,
};

fn digits(value: u32) -> BigNat {
    BigNat { digits: if value == 0 { Vec::new() } else { vec![value] } }
}

fn fraction(numerator: u32, denominator: u32) -> Rate {
    Rate { negative: false, numerator: digits(numerator), denominator: digits(denominator) }
}

fn whole(value: u32) -> Rate {
    fraction(value, 1)
}

fn profile(splitter2: u32, splitter3: u32, merger2: u32, merger3: u32) -> NodeProfile {
    NodeProfile { splitter2, splitter3, merger2, merger3 }
}

#[test]
fn derived_counts_never_wrap() {
    let oversized = profile(u32::MAX, 1, 0, 0);
    assert_eq!(balanced_link_count(oversized, 1, 1), Err(ProfileArithmeticError::NodeCountOverflow));

    let too_many_splitter_ports = profile(0, u32::MAX, 0, 0);
    assert_eq!(
        balanced_link_count(too_many_splitter_ports, 0, 0),
        Err(ProfileArithmeticError::ProducerPortCountOverflow)
    );

    let link_overflow = profile(0, 0, 1, 0);
    assert_eq!(
        balanced_link_count(link_overflow, u32::MAX, u32::MAX),
        Err(ProfileArithmeticError::LinkCountOverflow)
    );
}

#[test]
fn port_counts_follow_node_arities() {
    let p = profile(2, 1, 3, 1);
    assert_eq!(p.node_count(), 7);
    assert_eq!(checked_node_count(p), Ok(7));
    assert_eq!(producer_port_count(p), Ok(2 * 2 + 3 + 3 + 1));
    assert_eq!(consumer_port_count(p), Ok(2 + 1 + 2 * 3 + 3));
    assert_eq!(
        consumer_port_count(profile(0, 0, 0, u32::MAX)),
        Err(ProfileArithmeticError::ConsumerPortCountOverflow)
    );
}

#[test]
fn balanced_link_counts_start_at_the_fewest_operator_links() {
    // One input, two outputs, one 2-way splitter: producers 2, consumers 1.
    assert_eq!(balanced_link_count(profile(1, 0, 0, 0), 1, 2), Ok(Some(0)));
    // Two splitters in series: producers 4, consumers 2, links 1..=2.
    assert_eq!(balanced_link_count(profile(2, 0, 0, 0), 1, 3), Ok(Some(1)));
    // Unbalanced ports admit no layout.
    assert_eq!(balanced_link_count(profile(1, 0, 0, 0), 1, 1), Ok(None));
    assert_eq!(balanced_link_count(NodeProfile::default(), 1, 1), Ok(Some(0)));
}

#[test]
fn balanced_profiles_are_grouped_by_ascending_exact_link_count() {
    assert_eq!(
        enumerate_profile_groups(3, 1, 2).unwrap(),
        vec![
            ProfileGroup { link_count: 3, profiles: vec![profile(2, 0, 1, 0)] },
            ProfileGroup { link_count: 4, profiles: vec![profile(1, 1, 0, 1), profile(2, 0, 1, 0)] },
            ProfileGroup { link_count: 5, profiles: vec![profile(1, 1, 0, 1)] },
        ]
    );
    assert_eq!(
        enumerate_profile_groups(0, 1, 1).unwrap(),
        vec![ProfileGroup { link_count: 0, profiles: vec![NodeProfile::default()] }]
    );
    assert!(enumerate_profile_groups(0, 1, 2).unwrap().is_empty());
}

#[test]
fn enumeration_fails_on_the_first_overflowing_profile() {
    assert_eq!(
        enumerate_profile_groups(u32::MAX, 0, 0),
        Err(ProfileArithmeticError::ConsumerPortCountOverflow)
    );
    assert_eq!(enumerate_profile_groups(1, u32::MAX, 0), Err(ProfileArithmeticError::LinkCountOverflow));
}

#[test]
fn exact_surplus_requires_and_accounts_for_anonymous_discard_links() {
    assert_eq!(
        profile_link_accounting(NodeProfile::default(), 2, 1, &whole(1), &whole(1)).unwrap(),
        Some(ProfileLinkAccounting { link_count: 0, discard_link_count: 1, physical_link_count: 2 })
    );
    assert_eq!(profile_link_accounting(NodeProfile::default(), 2, 1, &whole(0), &whole(1)).unwrap(), None);
}

#[test]
fn discard_capacity_selects_the_minimum_feasible_port_surplus() {
    let surplus = fraction(3, 2);
    let capacity = whole(1);
    assert_eq!(
        profile_link_accounting(profile(1, 0, 0, 0), 1, 1, &surplus, &capacity).unwrap(),
        None,
        "one discard line cannot carry three halves at unit capacity"
    );
    assert_eq!(
        profile_link_accounting(profile(0, 1, 0, 0), 1, 1, &surplus, &capacity).unwrap(),
        Some(ProfileLinkAccounting { link_count: 0, discard_link_count: 2, physical_link_count: 4 })
    );
}

#[test]
fn accounted_groups_are_ordered_by_exact_operator_links() {
    let groups = enumerate_accounted_profile_groups(1, 1, 1, &fraction(3, 2), &whole(1)).unwrap();
    assert_eq!(groups.len(), 2);
    assert_eq!(groups[0].link_count, 0);
    assert_eq!(groups[0].profiles.len(), 1);
    assert_eq!(groups[0].profiles[0].profile, profile(0, 1, 0, 0));
    assert_eq!(groups[0].profiles[0].accounting.discard_link_count, 2);

    let equal_link_group = enumerate_accounted_profile_groups(1, 1, 1, &fraction(1, 2), &whole(1)).unwrap();
    assert_eq!(equal_link_group.len(), 2);
    assert_eq!(equal_link_group[0].link_count, 0);
    let mut discard_counts =
        equal_link_group[0].profiles.iter().map(|candidate| candidate.accounting.discard_link_count).collect::<Vec<_>>();
    discard_counts.sort_unstable();
    assert_eq!(discard_counts, vec![1, 2], "different physical discard counts remain one equal-L proof obligation");
}

#[test]
fn surplus_and_capacity_signs_are_checked_first() {
    let negative = Rate { negative: true, numerator: digits(1), denominator: digits(2) };
    assert_eq!(
        profile_link_accountings(profile(u32::MAX, 1, 0, 0), 1, 1, &negative, &whole(1)),
        Err(ProfileArithmeticError::NegativeSurplus)
    );
    assert_eq!(
        profile_link_accountings(profile(1, 0, 0, 0), 1, 1, &whole(1), &whole(0)),
        Err(ProfileArithmeticError::NonPositiveCapacity)
    );
    let negative_zero = Rate { negative: true, numerator: digits(0), denominator: digits(1) };
    assert_eq!(
        profile_link_accountings(NodeProfile::default(), 1, 1, &negative_zero, &whole(1)),
        Ok(vec![ProfileLinkAccounting { link_count: 0, discard_link_count: 0, physical_link_count: 1 }])
    );
}

#[test]
fn surplus_at_exact_discard_capacity_is_admitted_and_lists_every_link_count() {
    // One 2-splitter from one input to one output: two producer ports, one
    // consumer port, so one discard line that must carry the whole surplus.
    assert_eq!(
        profile_link_accountings(profile(1, 0, 0, 0), 1, 1, &whole(2), &whole(2)),
        Ok(vec![
            ProfileLinkAccounting { link_count: 0, discard_link_count: 1, physical_link_count: 3 },
            ProfileLinkAccounting { link_count: 1, discard_link_count: 1, physical_link_count: 3 },
        ])
    );
    assert_eq!(profile_link_accountings(profile(1, 0, 0, 0), 1, 1, &fraction(5, 2), &whole(2)), Ok(vec![]));
    let balanced = profile_link_accountings(profile(2, 0, 1, 0), 1, 2, &whole(0), &whole(1)).unwrap();
    assert_eq!(balanced.iter().map(|a| a.link_count).collect::<Vec<_>>(), vec![3, 4]);
}

#[test]
fn grouped_link_counts_are_the_listed_accountings() {
    let surplus = fraction(1, 2);
    let capacity = whole(1);
    let groups = enumerate_accounted_profile_groups(2, 1, 1, &surplus, &capacity).unwrap();
    assert!(!groups.is_empty());
    for group in &groups {
        for accounted in &group.profiles {
            let listed = profile_link_accountings(accounted.profile, 1, 1, &surplus, &capacity).unwrap();
            assert!(listed.contains(&accounted.accounting));
            assert_eq!(accounted.accounting.link_count, group.link_count);
        }
    }
}
