use num::{BigInt, BigRational, Signed, Zero};
use solver_core::exact::BigNat;
use solver_core::problem::{
    prepare_problem, ExternalTerminal, GlobalUnsatReason, InvalidProblem, NormalizedProblem, Preparation, Problem,
    Rate,
};
use solver_core::topology::{InputTerminalIndex, OutputTerminalIndex};

fn big_rational(value: &str) -> BigRational {
    if let Some((whole, fraction)) = value.split_once('.') {
        let digits = format!("{whole}{fraction}");
        let scale = BigInt::from(10u32).pow(fraction.len() as u32);
        BigRational::new(digits.parse::<BigInt>().unwrap(), scale)
    } else if let Some((numerator, denominator)) = value.split_once('/') {
        BigRational::new(numerator.parse().unwrap(), denominator.parse().unwrap())
    } else {
        BigRational::from_integer(value.parse().unwrap())
    }
}

fn rational(value: &str) -> Rate {
    let exact = big_rational(value);
    Rate {
        negative: exact.is_negative(),
        numerator: BigNat { digits: exact.numer().magnitude().to_u32_digits() },
        denominator: BigNat { digits: exact.denom().magnitude().to_u32_digits() },
    }
}

fn text(rate: &Rate) -> String {
    let numerator = num::BigUint::new(rate.numerator.digits.clone());
    let denominator = num::BigUint::new(rate.denominator.digits.clone());
    let sign = if rate.negative && !numerator.is_zero() { "-" } else { "" };
    if denominator == num::BigUint::from(1u32) {
        format!("{sign}{numerator}")
    } else {
        format!("{sign}{numerator}/{denominator}")
    }
}

fn problem(inputs: &[&str], outputs: &[&str], max_link_rate: &str) -> Problem {
    Problem {
        inputs: inputs.iter().map(|value| rational(value)).collect(),
        outputs: outputs.iter().map(|value| rational(value)).collect(),
        max_link_rate: rational(max_link_rate),
    }
}

fn prepared(problem: &Problem) -> NormalizedProblem {
    match prepare_problem(problem).unwrap() {
        Preparation::Prepared(problem) => problem,
        Preparation::GloballyUnsat(proof) => panic!("unexpected global proof: {proof:?}"),
    }
}

fn exact_values(rates: &[Rate]) -> Vec<String> {
    rates.iter().map(text).collect()
}

#[test]
fn normalizes_fraction_and_decimal_rates_with_one_global_scale() {
    let normalized = prepared(&problem(&["0.5", "1/3"], &["1/6", "2/3"], "1"));
    assert_eq!(exact_values(&normalized.inputs), vec!["2", "3"]);
    assert_eq!(exact_values(&normalized.outputs), vec!["1", "4"]);
    assert_eq!(normalized.original_scale, rational("1/6"));
    assert_eq!(normalized.max_link_rate, rational("6"));
}

#[test]
fn normalization_is_invariant_under_one_common_scale() {
    let base = prepared(&problem(&["2", "3"], &["1", "4"], "6"));
    let scaled = prepared(&problem(&["20", "30"], &["10", "40"], "60"));

    assert_eq!(base.inputs, scaled.inputs);
    assert_eq!(base.outputs, scaled.outputs);
    assert_eq!(base.max_link_rate, scaled.max_link_rate);
    assert_eq!(base.original_scale, rational("1"));
    assert_eq!(scaled.original_scale, rational("10"));

    let surplus_base = prepared(&problem(&["2", "3"], &["1"], "6"));
    let surplus_scaled = prepared(&problem(&["20", "30"], &["10"], "60"));
    assert_eq!(surplus_base.inputs, surplus_scaled.inputs);
    assert_eq!(surplus_base.outputs, surplus_scaled.outputs);
    assert_eq!(surplus_base.surplus, surplus_scaled.surplus);
    assert_eq!(surplus_base.max_link_rate, surplus_scaled.max_link_rate);
    assert_eq!(surplus_base.surplus, rational("4"));
}

#[test]
fn equal_rates_map_by_original_index_after_rate_sorting() {
    let normalized = prepared(&problem(&["5", "2", "5"], &["5", "5", "2"], "10"));

    assert_eq!(exact_values(&normalized.inputs), vec!["2", "5", "5"]);
    assert_eq!(exact_values(&normalized.outputs), vec!["2", "5", "5"]);
    assert_eq!(normalized.terminal_mapping.normalized_inputs_to_original(), &[1, 0, 2]);
    assert_eq!(normalized.terminal_mapping.normalized_outputs_to_original(), &[2, 0, 1]);
    assert_eq!(normalized.terminal_mapping.normalized_input(0), Some(1));
    assert_eq!(normalized.terminal_mapping.normalized_input(2), Some(2));
    assert_eq!(normalized.terminal_mapping.normalized_output(1), Some(2));
}

#[test]
fn input_deficit_is_a_global_unsat_proof_but_surplus_is_prepared() {
    assert!(matches!(
        prepare_problem(&problem(&["2"], &["3"], "10")),
        Ok(Preparation::GloballyUnsat(GlobalUnsatReason::InsufficientInput { ref total_input, ref total_output }))
            if *total_input == rational("2") && *total_output == rational("3")
    ));

    let surplus = prepared(&problem(&["3"], &["2"], "10"));
    assert_eq!(surplus.surplus, rational("1"));
}

#[test]
fn surplus_and_capacity_use_the_same_global_normalization_scale() {
    let normalized = prepared(&problem(&["0.5", "1/3"], &["1/6"], "1"));
    assert_eq!(exact_values(&normalized.inputs), vec!["2", "3"]);
    assert_eq!(exact_values(&normalized.outputs), vec!["1"]);
    assert_eq!(normalized.surplus, rational("4"));
    assert_eq!(normalized.max_link_rate, rational("6"));
    assert_eq!(normalized.original_scale, rational("1/6"));
}

fn refused(problem: &Problem) -> InvalidProblem {
    match prepare_problem(problem) {
        Err(error) => error,
        Ok(_) => panic!("the problem must be refused"),
    }
}

#[test]
fn rejects_empty_terminal_sides() {
    assert_eq!(refused(&problem(&[], &["1"], "1")), InvalidProblem::MissingInputs);
    assert_eq!(refused(&problem(&["1"], &[], "1")), InvalidProblem::MissingOutputs);
}

#[test]
fn rejects_non_positive_external_rates_and_capacity() {
    assert_eq!(
        refused(&problem(&["0"], &["1"], "1")),
        InvalidProblem::NonPositiveInputRate { index: 0, rate: rational("0") }
    );
    assert_eq!(
        refused(&problem(&["1"], &["-1"], "1")),
        InvalidProblem::NonPositiveOutputRate { index: 0, rate: rational("-1") }
    );
    assert_eq!(
        refused(&problem(&["1"], &["1"], "0")),
        InvalidProblem::NonPositiveMaxLinkRate { rate: rational("0") }
    );
    assert_eq!(
        refused(&problem(&["1"], &["1"], "-1")),
        InvalidProblem::NonPositiveMaxLinkRate { rate: rational("-1") }
    );
}

fn unsat(problem: &Problem) -> GlobalUnsatReason {
    match prepare_problem(problem) {
        Ok(Preparation::GloballyUnsat(reason)) => reason,
        _ => panic!("the problem must be globally infeasible"),
    }
}

#[test]
fn accepts_external_rate_at_capacity_and_proves_rate_above_it_unsat() {
    assert!(matches!(prepare_problem(&problem(&["5"], &["5"], "5")), Ok(Preparation::Prepared(_))));
    assert_eq!(
        unsat(&problem(&["5"], &["5"], "4")),
        GlobalUnsatReason::ExternalRateExceedsCapacity {
            terminal: ExternalTerminal::Input(InputTerminalIndex(0)),
            rate: rational("5"),
            max_link_rate: rational("4"),
        }
    );
    assert_eq!(
        unsat(&problem(&["3", "3"], &["6"], "4")),
        GlobalUnsatReason::ExternalRateExceedsCapacity {
            terminal: ExternalTerminal::Output(OutputTerminalIndex(0)),
            rate: rational("6"),
            max_link_rate: rational("4"),
        }
    );
}

#[test]
fn the_first_non_positive_rate_is_named_after_the_capacity() {
    assert_eq!(
        refused(&problem(&["1", "0", "-2"], &["0"], "0")),
        InvalidProblem::NonPositiveMaxLinkRate { rate: rational("0") }
    );
    assert_eq!(
        refused(&problem(&["1", "0", "-2"], &["0"], "1")),
        InvalidProblem::NonPositiveInputRate { index: 1, rate: rational("0") }
    );
}

#[test]
fn too_little_input_is_reported_before_a_rate_above_capacity() {
    assert_eq!(
        unsat(&problem(&["9", "1/2"], &["10"], "4")),
        GlobalUnsatReason::InsufficientInput { total_input: rational("19/2"), total_output: rational("10") }
    );
}
