use solver_core::exact::BigNat;
use solver_core::lower_bound::{
    baseline_lower_bounds, profile_impossibility, required_source_denominator, splitter_path_can_produce,
    BaselineLowerBounds, ProfileImpossibilityProof,
};
use solver_core::profile::{profile_link_accounting, NodeProfile, ProfileLinkAccounting};
use solver_core::problem::{prepare_problem, NormalizedProblem, Preparation, Problem, Rate};

fn integer(value: u32) -> Rate {
    Rate {
        negative: false,
        numerator: BigNat { digits: if value == 0 { Vec::new() } else { vec![value] } },
        denominator: BigNat { digits: vec![1] },
    }
}

fn normalized(inputs: &[u32], outputs: &[u32], capacity: u32) -> NormalizedProblem {
    let problem = Problem {
        inputs: inputs.iter().copied().map(integer).collect(),
        outputs: outputs.iter().copied().map(integer).collect(),
        max_link_rate: integer(capacity),
    };
    match prepare_problem(&problem).unwrap() {
        Preparation::Prepared(problem) => problem,
        Preparation::GloballyUnsat(_) => panic!("test problem must pass global checks"),
    }
}

#[test]
fn independent_terminal_deficits_are_combined_by_max() {
    let split = normalized(&[4], &[1, 1, 1, 1], 4);
    assert_eq!(
        baseline_lower_bounds(&split).unwrap(),
        BaselineLowerBounds {
            minimum_discard_links: 0,
            splitter_branch_deficit: 2,
            merger_deficit: 0,
            arithmetic_nodes: 2,
            combined_nodes: 2,
        }
    );
    let merge = normalized(&[1, 1, 1, 1], &[4], 4);
    assert_eq!(baseline_lower_bounds(&merge).unwrap().combined_nodes, 2);
}

#[test]
fn positive_surplus_discard_partitions_do_not_invent_a_merger_bound() {
    let problem = normalized(&[1, 1, 1, 1], &[1], 4);
    let bounds = baseline_lower_bounds(&problem).unwrap();
    assert_eq!(bounds.minimum_discard_links, 1);
    assert_eq!(bounds.merger_deficit, 0);
    assert_eq!(bounds.combined_nodes, 0);
}

#[test]
fn cyclic_safe_source_grain_starts_216_case_at_seven_nodes() {
    let problem = normalized(&[216], &[66, 150], 1_200);
    let bounds = baseline_lower_bounds(&problem).unwrap();
    assert_eq!(required_source_denominator(&problem).digits, vec![36]);
    assert_eq!(bounds.arithmetic_nodes, 7);
    assert_eq!(bounds.combined_nodes, 7);
}

#[test]
fn source_grain_uses_the_gcd_of_every_input() {
    let problem = normalized(&[72, 144], &[66, 150], 1_200);
    let bounds = baseline_lower_bounds(&problem).unwrap();
    assert_eq!(required_source_denominator(&problem).digits, vec![12]);
    assert_eq!(bounds.arithmetic_nodes, 5);
    assert_eq!(bounds.combined_nodes, 5);

    let permuted = normalized(&[144, 72], &[150, 66], 1_200);
    assert_eq!(baseline_lower_bounds(&permuted).unwrap(), bounds);
}

#[test]
fn source_grain_bound_is_invariant_under_common_rate_scaling() {
    let base = normalized(&[216], &[66, 150], 1_200);
    let scaled = normalized(&[2_160], &[660, 1_500], 12_000);
    assert_eq!(baseline_lower_bounds(&base).unwrap(), baseline_lower_bounds(&scaled).unwrap());
}

#[test]
fn surplus_needs_enough_discard_links_of_one_capacity() {
    let problem = normalized(&[4, 4], &[1], 4);
    let bounds = baseline_lower_bounds(&problem).unwrap();
    assert_eq!(bounds.minimum_discard_links, 2);
    assert_eq!(bounds.splitter_branch_deficit, 1);
}

fn accounting(problem: &NormalizedProblem, profile: NodeProfile) -> ProfileLinkAccounting {
    profile_link_accounting(
        profile,
        u32::try_from(problem.inputs.len()).unwrap(),
        u32::try_from(problem.outputs.len()).unwrap(),
        &problem.surplus,
        &problem.max_link_rate,
    )
    .unwrap()
    .unwrap()
}

#[test]
fn profile_bound_rejects_insufficient_cyclic_determinant_magnitude() {
    let problem = normalized(&[216], &[66, 150], 1_200);
    let profile = NodeProfile { splitter3: 1, merger2: 1, ..NodeProfile::default() };
    let accounting =
        profile_link_accounting(profile, 1, 2, &problem.surplus, &problem.max_link_rate).unwrap().unwrap();
    assert!(matches!(
        profile_impossibility(&problem, profile, accounting),
        Some(ProfileImpossibilityProof::SplitterDeterminantMagnitude {
            required_denominator,
            available_product,
        }) if required_denominator.digits == vec![36] && available_product.digits == vec![3]
    ));
}

#[test]
fn pure_splitter_depth_rejects_non_two_three_denominators() {
    let problem = normalized(&[5], &[1], 5);
    let profile = NodeProfile { splitter2: 1, ..NodeProfile::default() };
    assert!(matches!(
        profile_impossibility(&problem, profile, accounting(&problem, profile)),
        Some(ProfileImpossibilityProof::AcyclicSplitterDepth { output_index: 0 })
    ));
    assert!(splitter_path_can_produce(&integer(6), &integer(1), 1, 1));
}

#[test]
fn pure_merger_subset_proof_uses_exact_input_sums() {
    let problem = normalized(&[2, 3, 5], &[4], 6);
    let profile = NodeProfile { merger2: 1, ..NodeProfile::default() };
    assert!(matches!(
        profile_impossibility(&problem, profile, accounting(&problem, profile)),
        Some(ProfileImpossibilityProof::AcyclicMergerSubset { output_index: 0 })
    ));
}

#[test]
fn terminal_deficits_come_before_the_arithmetic_checks() {
    let split = normalized(&[4], &[1, 1, 1, 1], 4);
    let lone = NodeProfile { splitter2: 1, ..NodeProfile::default() };
    let accounting = ProfileLinkAccounting { link_count: 0, discard_link_count: 0, physical_link_count: 3 };
    assert_eq!(
        profile_impossibility(&split, lone, accounting),
        Some(ProfileImpossibilityProof::SplitterBranchDeficit { required: 3, available: 1 })
    );
    let merge = normalized(&[1, 1, 1, 1], &[4], 4);
    let lone_merger = NodeProfile { merger3: 1, ..NodeProfile::default() };
    assert_eq!(
        profile_impossibility(&merge, lone_merger, accounting),
        Some(ProfileImpossibilityProof::MergerDeficit { required: 3, available: 2 })
    );
}

#[test]
fn pure_merger_depth_counts_the_fewest_summands() {
    // 1 + 2 + 4 = 7 needs three inputs, so two reductions; one 2-merger has
    // one, which is enough for the terminals once two discard lines take 8.
    let problem = normalized(&[1, 2, 4, 8], &[7], 8);
    let profile = NodeProfile { merger2: 1, ..NodeProfile::default() };
    let accounting = ProfileLinkAccounting { link_count: 0, discard_link_count: 2, physical_link_count: 5 };
    assert_eq!(
        profile_impossibility(&problem, profile, accounting),
        Some(ProfileImpossibilityProof::AcyclicMergerDepth {
            output_index: 0,
            required_reductions: 2,
            available_reductions: 1,
        })
    );
    assert!(!splitter_path_can_produce(&integer(5), &integer(1), 4, 4));
    assert!(!splitter_path_can_produce(&integer(12), &integer(1), 1, 1));
}
