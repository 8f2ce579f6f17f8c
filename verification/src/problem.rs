//! Validation of a problem's shape and signs, its global infeasibility
//! checks, and terminal renumbering between caller-visible and canonical
//! positions.

use vstd::prelude::*;

use crate::exact::{
    BigNat, big_add, big_div, big_gcd, big_lt, big_mul, big_sub, gcd, lemma_gcd_at_most_first,
    lemma_gcd_at_most_second, lemma_gcd_positive,
};
use crate::topology::{InputTerminalIndex, OutputTerminalIndex};

verus! {

/// The position that `invert_mapping` stores for original index `j`: the last
/// normalized index mapped to it, or zero when none is.
pub open spec fn inverse_at(normalized_to_original: Seq<usize>, j: int, n: int) -> int
    decreases n,
{
    if n <= 0 {
        0
    } else if normalized_to_original[n - 1] == j {
        n - 1
    } else {
        inverse_at(normalized_to_original, j, n - 1)
    }
}

/// Every entry is an index of the sequence itself and no entry repeats.
pub open spec fn is_permutation(mapping: Seq<usize>) -> bool {
    &&& forall|i: int| 0 <= i < mapping.len() ==> mapping[i] < mapping.len()
    &&& forall|i: int, k: int| 0 <= i < k < mapping.len() ==> mapping[i] != mapping[k]
}

proof fn lemma_inverse_of_permutation(mapping: Seq<usize>, i: int, n: int)
    requires
        is_permutation(mapping),
        0 <= i < n <= mapping.len(),
    ensures
        inverse_at(mapping, mapping[i] as int, n) == i,
    decreases n,
{
    if n - 1 != i {
        lemma_inverse_of_permutation(mapping, i, n - 1);
    }
}

/// Some position of `mapping` holds `j`.
spec fn maps_to(mapping: Seq<usize>, j: int) -> bool {
    exists|i: int| 0 <= i < mapping.len() && mapping[i] == j
}

/// A permutation reaches every index of its range.
proof fn lemma_permutation_onto(mapping: Seq<usize>)
    requires
        is_permutation(mapping),
    ensures
        forall|j: int| 0 <= j < mapping.len() ==> #[trigger] maps_to(mapping, j),
{
    let n = mapping.len() as int;
    let ms = mapping.map_values(|x: usize| x as int);
    assert(ms.no_duplicates()) by {
        assert forall|a: int, b: int| 0 <= a < ms.len() && 0 <= b < ms.len() && a != b implies ms[a] != ms[b] by {
            if a < b {
                assert(mapping[a] != mapping[b]);
            } else {
                assert(mapping[b] != mapping[a]);
            }
        }
    }
    ms.unique_seq_to_set();
    vstd::set_lib::lemma_int_range(0, n);
    let range = vstd::set_lib::set_int_range(0, n);
    assert(ms.to_set().subset_of(range)) by {
        assert forall|x: int| ms.to_set().contains(x) implies range.contains(x) by {
            let i = choose|i: int| 0 <= i < ms.len() && ms[i] == x;
            assert(mapping[i] < n);
        }
    }
    vstd::seq_lib::seq_to_set_is_finite(ms);
    vstd::set_lib::lemma_subset_equality(ms.to_set(), range);
    assert forall|j: int| 0 <= j < n implies #[trigger] maps_to(mapping, j) by {
        assert(range.contains(j));
        assert(ms.to_set().contains(j));
        let i = choose|i: int| 0 <= i < ms.len() && ms[i] == j;
        assert(mapping[i] == j);
    }
}

/// Inverts a normalized-to-original index mapping.
pub fn invert_mapping(normalized_to_original: &Vec<usize>) -> (original_to_normalized: Vec<usize>)
    requires
        forall|i: int|
            0 <= i < normalized_to_original@.len() ==> normalized_to_original@[i]
                < normalized_to_original@.len(),
    ensures
        original_to_normalized@.len() == normalized_to_original@.len(),
        forall|j: int|
            0 <= j < original_to_normalized@.len() ==> original_to_normalized@[j] == inverse_at(
                normalized_to_original@,
                j,
                normalized_to_original@.len() as int,
            ),
{
    let n = normalized_to_original.len();
    let mut inverse: Vec<usize> = Vec::new();
    while inverse.len() < n
        invariant
            inverse.len() <= n,
            forall|j: int| 0 <= j < inverse@.len() ==> inverse@[j] == 0,
        decreases n - inverse.len(),
    {
        inverse.push(0);
    }
    let mut normalized_index: usize = 0;
    while normalized_index < n
        invariant
            n == normalized_to_original@.len(),
            inverse@.len() == n,
            normalized_index <= n,
            forall|i: int| 0 <= i < n ==> normalized_to_original@[i] < n,
            forall|j: int|
                0 <= j < n ==> inverse@[j] == inverse_at(
                    normalized_to_original@,
                    j,
                    normalized_index as int,
                ),
        decreases n - normalized_index,
    {
        let original_index = normalized_to_original[normalized_index];
        inverse.set(original_index, normalized_index);
        normalized_index = normalized_index + 1;
    }
    inverse
}

/// Maps canonical terminal positions to and from caller-visible positions.
///
/// Equal-rate terminals use their original index as the deterministic tie-break.
#[derive(Clone, Debug, PartialEq, Eq)]
pub struct TerminalMapping {
    normalized_inputs_to_original: Vec<usize>,
    normalized_outputs_to_original: Vec<usize>,
    original_inputs_to_normalized: Vec<usize>,
    original_outputs_to_normalized: Vec<usize>,
}

impl TerminalMapping {
    /// Original input index of each normalized input.
    pub closed spec fn inputs_to_original(&self) -> Seq<usize> {
        self.normalized_inputs_to_original@
    }

    /// Original output index of each normalized output.
    pub closed spec fn outputs_to_original(&self) -> Seq<usize> {
        self.normalized_outputs_to_original@
    }

    /// Normalized input index of each original input.
    pub closed spec fn inputs_to_normalized(&self) -> Seq<usize> {
        self.original_inputs_to_normalized@
    }

    /// Normalized output index of each original output.
    pub closed spec fn outputs_to_normalized(&self) -> Seq<usize> {
        self.original_outputs_to_normalized@
    }

    /// Builds the two-way mapping from the normalized-to-original orders of
    /// both terminal sides.
    pub fn from_orders(inputs: Vec<usize>, outputs: Vec<usize>) -> (mapping: Self)
        requires
            is_permutation(inputs@),
            is_permutation(outputs@),
        ensures
            mapping.inputs_to_original() == inputs@,
            mapping.outputs_to_original() == outputs@,
            mapping.inputs_to_normalized().len() == inputs@.len(),
            mapping.outputs_to_normalized().len() == outputs@.len(),
            forall|i: int|
                0 <= i < inputs@.len() ==> mapping.inputs_to_normalized()[inputs@[i] as int] == i,
            forall|i: int|
                0 <= i < outputs@.len() ==> mapping.outputs_to_normalized()[outputs@[i] as int] == i,
            forall|j: int|
                0 <= j < inputs@.len() ==> #[trigger] mapping.inputs_to_normalized()[j] < inputs@.len()
                    && inputs@[mapping.inputs_to_normalized()[j] as int] == j,
            forall|j: int|
                0 <= j < outputs@.len() ==> #[trigger] mapping.outputs_to_normalized()[j] < outputs@.len()
                    && outputs@[mapping.outputs_to_normalized()[j] as int] == j,
    {
        let original_inputs_to_normalized = invert_mapping(&inputs);
        let original_outputs_to_normalized = invert_mapping(&outputs);
        proof {
            assert forall|i: int| 0 <= i < inputs@.len() implies original_inputs_to_normalized@[inputs@[i] as int] == i by {
                lemma_inverse_of_permutation(inputs@, i, inputs@.len() as int);
            }
            assert forall|i: int| 0 <= i < outputs@.len() implies original_outputs_to_normalized@[outputs@[i] as int] == i by {
                lemma_inverse_of_permutation(outputs@, i, outputs@.len() as int);
            }
            lemma_permutation_onto(inputs@);
            lemma_permutation_onto(outputs@);
            assert forall|j: int| 0 <= j < inputs@.len() implies #[trigger] original_inputs_to_normalized@[j]
                < inputs@.len() && inputs@[original_inputs_to_normalized@[j] as int] == j by {
                assert(maps_to(inputs@, j));
                let i = choose|i: int| 0 <= i < inputs@.len() && inputs@[i] == j;
                assert(original_inputs_to_normalized@[inputs@[i] as int] == i);
            }
            assert forall|j: int| 0 <= j < outputs@.len() implies #[trigger] original_outputs_to_normalized@[j]
                < outputs@.len() && outputs@[original_outputs_to_normalized@[j] as int] == j by {
                assert(maps_to(outputs@, j));
                let i = choose|i: int| 0 <= i < outputs@.len() && outputs@[i] == j;
                assert(original_outputs_to_normalized@[outputs@[i] as int] == i);
            }
        }
        TerminalMapping {
            normalized_inputs_to_original: inputs,
            normalized_outputs_to_original: outputs,
            original_inputs_to_normalized,
            original_outputs_to_normalized,
        }
    }

    pub fn original_input(&self, normalized_index: usize) -> (index: Option<usize>)
        ensures
            index is Some <==> normalized_index < self.inputs_to_original().len(),
            index matches Some(i) ==> i == self.inputs_to_original()[normalized_index as int],
    {
        if normalized_index < self.normalized_inputs_to_original.len() {
            Some(self.normalized_inputs_to_original[normalized_index])
        } else {
            None
        }
    }

    pub fn original_output(&self, normalized_index: usize) -> (index: Option<usize>)
        ensures
            index is Some <==> normalized_index < self.outputs_to_original().len(),
            index matches Some(i) ==> i == self.outputs_to_original()[normalized_index as int],
    {
        if normalized_index < self.normalized_outputs_to_original.len() {
            Some(self.normalized_outputs_to_original[normalized_index])
        } else {
            None
        }
    }

    pub fn normalized_input(&self, original_index: usize) -> (index: Option<usize>)
        ensures
            index is Some <==> original_index < self.inputs_to_normalized().len(),
            index matches Some(i) ==> i == self.inputs_to_normalized()[original_index as int],
    {
        if original_index < self.original_inputs_to_normalized.len() {
            Some(self.original_inputs_to_normalized[original_index])
        } else {
            None
        }
    }

    pub fn normalized_output(&self, original_index: usize) -> (index: Option<usize>)
        ensures
            index is Some <==> original_index < self.outputs_to_normalized().len(),
            index matches Some(i) ==> i == self.outputs_to_normalized()[original_index as int],
    {
        if original_index < self.original_outputs_to_normalized.len() {
            Some(self.original_outputs_to_normalized[original_index])
        } else {
            None
        }
    }

    pub fn normalized_inputs_to_original(&self) -> (order: &[usize])
        ensures
            order@ == self.inputs_to_original(),
    {
        self.normalized_inputs_to_original.as_slice()
    }

    pub fn normalized_outputs_to_original(&self) -> (order: &[usize])
        ensures
            order@ == self.outputs_to_original(),
    {
        self.normalized_outputs_to_original.as_slice()
    }
}

/// Index of the first entry equal to `value`, if any.
pub open spec fn first_index(flags: Seq<bool>, value: bool) -> Option<int> {
    if flags.contains(value) {
        Some(choose|i: int| 0 <= i < flags.len() && flags[i] == value && forall|k: int| 0 <= k < i ==> flags[k] != value)
    } else {
        None
    }
}

/// First index of `flags` holding `value`.
fn find_first(flags: &Vec<bool>, value: bool) -> (found: Option<usize>)
    ensures
        match found {
            Some(i) => i < flags@.len() && flags@[i as int] == value && forall|k: int| 0 <= k < i ==> flags@[k] != value,
            None => !flags@.contains(value),
        },
        found matches Some(i) ==> first_index(flags@, value) == Some(i as int),
        found is None ==> first_index(flags@, value) is None,
{
    let mut i: usize = 0;
    while i < flags.len()
        invariant
            i <= flags@.len(),
            forall|k: int| 0 <= k < i ==> flags@[k] != value,
        decreases flags.len() - i,
    {
        if flags[i] == value {
            proof {
                assert(flags@.contains(value));
                let c = choose|c: int| 0 <= c < flags@.len() && flags@[c] == value && forall|k: int| 0 <= k < c ==> flags@[k] != value;
                assert(0 <= i < flags@.len() && flags@[i as int] == value && forall|k: int| 0 <= k < i ==> flags@[k] != value);
                if c < i {
                } else if c > i {
                    assert(flags@[i as int] != value);
                }
            }
            return Some(i);
        }
        i = i + 1;
    }
    proof {
        if flags@.contains(value) {
            let j = choose|j: int| 0 <= j < flags@.len() && flags@[j] == value;
        }
    }
    None
}

/// An exact rate: a sign and a fraction of natural numbers.
#[derive(Clone, Debug, PartialEq, Eq)]
pub struct Rate {
    pub negative: bool,
    pub numerator: BigNat,
    pub denominator: BigNat,
}

impl View for Rate {
    type V = (bool, nat, nat);

    open spec fn view(&self) -> (bool, nat, nat) {
        (self.negative, self.numerator@, self.denominator@)
    }
}

impl Rate {
    /// An equal rate with the same digits.
    pub fn copied(&self) -> (rate: Rate)
        ensures
            rate@ == self@,
    {
        Rate { negative: self.negative, numerator: self.numerator.copied(), denominator: self.denominator.copied() }
    }
}

/// The rate is above zero.
pub open spec fn positive(rate: (bool, nat, nat)) -> bool {
    !rate.0 && rate.1 > 0
}

/// The fraction of a rate, as numerator and denominator.
pub open spec fn fraction(rate: (bool, nat, nat)) -> (nat, nat) {
    (rate.1, rate.2)
}

/// `a` is below `b`, for fractions with positive denominators.
pub open spec fn frac_lt(a: (nat, nat), b: (nat, nat)) -> bool {
    a.0 * b.1 < b.0 * a.1
}

/// `a` equals `b`, for fractions with positive denominators.
pub open spec fn frac_eq(a: (nat, nat), b: (nat, nat)) -> bool {
    a.0 * b.1 == b.0 * a.1
}

/// The fraction in lowest terms; zero over zero stays so.
pub open spec fn reduced(f: (nat, nat)) -> (nat, nat) {
    let g = gcd(f.0, f.1);
    if g == 0 {
        (0, 0)
    } else {
        (f.0 / g, f.1 / g)
    }
}

/// The views of some rates.
pub open spec fn rate_views(rates: Seq<Rate>) -> Seq<(bool, nat, nat)> {
    rates.map_values(|r: Rate| r@)
}

/// Which of some rates are positive.
pub open spec fn positives(rates: Seq<(bool, nat, nat)>) -> Seq<bool> {
    rates.map_values(|r: (bool, nat, nat)| positive(r))
}

/// The sum of some fractions, over the product of their denominators.
pub open spec fn frac_sum(rates: Seq<(bool, nat, nat)>) -> (nat, nat)
    decreases rates.len(),
{
    if rates.len() == 0 {
        (0, 1)
    } else {
        let s = frac_sum(rates.drop_last());
        let r = rates.last();
        (s.0 * r.2 + r.1 * s.1, s.1 * r.2)
    }
}

/// The least common multiple of the denominators, folded from one.
pub open spec fn denominator_lcm(rates: Seq<(bool, nat, nat)>) -> nat
    decreases rates.len(),
{
    if rates.len() == 0 {
        1
    } else {
        let l = denominator_lcm(rates.drop_last());
        let d = rates.last().2;
        (l / gcd(l, d)) * d
    }
}

/// The greatest common divisor of the rates scaled by `l`, folded from zero.
pub open spec fn rate_grain(rates: Seq<(bool, nat, nat)>, l: nat) -> nat
    decreases rates.len(),
{
    if rates.len() == 0 {
        0
    } else {
        gcd(rate_grain(rates.drop_last(), l), rates.last().1 * (l / rates.last().2))
    }
}

/// The one global scale of a problem's rates, in lowest terms: every rate
/// is an integer multiple of it, and their gcd is one.
pub open spec fn global_scale(rates: Seq<(bool, nat, nat)>) -> (nat, nat) {
    let l = denominator_lcm(rates);
    reduced((rate_grain(rates, l), l))
}

/// `f` divided by the scale, in lowest terms.
pub open spec fn scaled(f: (nat, nat), scale: (nat, nat)) -> (nat, nat) {
    reduced((f.0 * scale.1, f.1 * scale.0))
}

/// `order` lists the positions of `values` ascending by value, equal values
/// by position.
pub open spec fn sorted_order(values: Seq<(nat, nat)>, order: Seq<usize>) -> bool {
    &&& order.len() == values.len()
    &&& is_permutation(order)
    &&& forall|p: int, q: int|
        0 <= p < q < order.len() ==> !frac_lt(values[order[q] as int], values[order[p] as int]) && (frac_eq(
            values[order[p] as int],
            values[order[q] as int],
        ) ==> order[p] < order[q])
}

/// An exact problem: external rates and the capacity of one link.
pub struct Problem {
    pub inputs: Vec<Rate>,
    pub outputs: Vec<Rate>,
    pub max_link_rate: Rate,
}

/// Every rate of the problem has a positive denominator.
pub open spec fn denominators_positive(problem: Problem) -> bool {
    &&& problem.max_link_rate@.2 > 0
    &&& forall|i: int| 0 <= i < problem.inputs@.len() ==> (#[trigger] problem.inputs@[i])@.2 > 0
    &&& forall|i: int| 0 <= i < problem.outputs@.len() ==> (#[trigger] problem.outputs@[i])@.2 > 0
}

/// Why a problem is malformed.
#[derive(Clone, Debug, PartialEq, Eq)]
pub enum InvalidProblem {
    MissingInputs,
    MissingOutputs,
    TooManyInputs { count: usize },
    TooManyOutputs { count: usize },
    NonPositiveMaxLinkRate { rate: Rate },
    NonPositiveInputRate { index: usize, rate: Rate },
    NonPositiveOutputRate { index: usize, rate: Rate },
}

/// The problem is malformed.
pub open spec fn malformed(p: Problem) -> bool {
    ||| p.inputs@.len() == 0
    ||| p.outputs@.len() == 0
    ||| p.inputs@.len() - 1 > u32::MAX
    ||| p.outputs@.len() - 1 > u32::MAX
    ||| !positive(p.max_link_rate@)
    ||| first_index(positives(rate_views(p.inputs@)), false) is Some
    ||| first_index(positives(rate_views(p.outputs@)), false) is Some
}

/// `error` is the first defect of `p`: an empty side, then an oversized
/// side, then a non-positive capacity, input rate or output rate.
pub open spec fn malformed_as(p: Problem, error: InvalidProblem) -> bool {
    if p.inputs@.len() == 0 {
        error is MissingInputs
    } else if p.outputs@.len() == 0 {
        error is MissingOutputs
    } else if p.inputs@.len() - 1 > u32::MAX {
        error == InvalidProblem::TooManyInputs { count: p.inputs@.len() as usize }
    } else if p.outputs@.len() - 1 > u32::MAX {
        error == InvalidProblem::TooManyOutputs { count: p.outputs@.len() as usize }
    } else if !positive(p.max_link_rate@) {
        error matches InvalidProblem::NonPositiveMaxLinkRate { rate } && rate@ == p.max_link_rate@
    } else if let Some(i) = first_index(positives(rate_views(p.inputs@)), false) {
        error matches InvalidProblem::NonPositiveInputRate { index, rate } && index == i && rate@
            == p.inputs@[i]@
    } else if let Some(i) = first_index(positives(rate_views(p.outputs@)), false) {
        error matches InvalidProblem::NonPositiveOutputRate { index, rate } && index == i && rate@
            == p.outputs@[i]@
    } else {
        false
    }
}

/// An external terminal, by side and caller index.
#[derive(Clone, Copy, Debug, PartialEq, Eq)]
pub enum ExternalTerminal {
    Input(InputTerminalIndex),
    Output(OutputTerminalIndex),
}

/// Why a valid problem has no layout at all.
#[derive(Clone, Debug, PartialEq, Eq)]
pub enum GlobalUnsatReason {
    /// The inputs together carry less than the outputs need.
    InsufficientInput { total_input: Rate, total_output: Rate },
    /// One external rate exceeds what any link can carry.
    ExternalRateExceedsCapacity { terminal: ExternalTerminal, rate: Rate, max_link_rate: Rate },
}

/// Which rates exceed the capacity `cap`.
pub open spec fn over_capacity(rates: Seq<(bool, nat, nat)>, cap: (bool, nat, nat)) -> Seq<bool> {
    rates.map_values(|r: (bool, nat, nat)| frac_lt(fraction(cap), fraction(r)))
}

/// A valid problem is globally infeasible.
pub open spec fn infeasible(p: Problem) -> bool {
    let ins = rate_views(p.inputs@);
    let outs = rate_views(p.outputs@);
    ||| frac_lt(frac_sum(ins), frac_sum(outs))
    ||| first_index(over_capacity(ins, p.max_link_rate@), true) is Some
    ||| first_index(over_capacity(outs, p.max_link_rate@), true) is Some
}

/// `reason` is the first infeasibility of a valid `p`: too little input
/// (with both totals in lowest terms), then the first input, then the first
/// output above capacity (with its rate and the capacity).
pub open spec fn infeasible_as(p: Problem, reason: GlobalUnsatReason) -> bool {
    let ins = rate_views(p.inputs@);
    let outs = rate_views(p.outputs@);
    let cap = p.max_link_rate@;
    if frac_lt(frac_sum(ins), frac_sum(outs)) {
        reason matches GlobalUnsatReason::InsufficientInput { total_input, total_output }
            && total_input@ == (false, reduced(frac_sum(ins)).0, reduced(frac_sum(ins)).1)
            && total_output@ == (false, reduced(frac_sum(outs)).0, reduced(frac_sum(outs)).1)
    } else if let Some(i) = first_index(over_capacity(ins, cap), true) {
        reason matches GlobalUnsatReason::ExternalRateExceedsCapacity { terminal, rate, max_link_rate }
            && terminal == ExternalTerminal::Input(InputTerminalIndex(i as u32)) && rate@ == ins[i]
            && max_link_rate@ == cap
    } else if let Some(i) = first_index(over_capacity(outs, cap), true) {
        reason matches GlobalUnsatReason::ExternalRateExceedsCapacity { terminal, rate, max_link_rate }
            && terminal == ExternalTerminal::Output(OutputTerminalIndex(i as u32)) && rate@ == outs[i]
            && max_link_rate@ == cap
    } else {
        false
    }
}

/// The exact canonical problem: every rate divided by one global scale.
pub struct NormalizedProblem {
    /// Normalized input rates, ascending, equal rates by caller index.
    pub inputs: Vec<Rate>,
    /// Normalized output rates, ascending, equal rates by caller index.
    pub outputs: Vec<Rate>,
    /// Input surplus over the outputs, in the same scale.
    pub surplus: Rate,
    pub max_link_rate: Rate,
    /// The scale: each caller rate is its normalized rate times it.
    pub original_scale: Rate,
    pub terminal_mapping: TerminalMapping,
}

/// The normalized fractions of `rates` under `scale`, in caller order.
pub open spec fn scaled_all(rates: Seq<(bool, nat, nat)>, scale: (nat, nat)) -> Seq<(nat, nat)> {
    rates.map_values(|r: (bool, nat, nat)| scaled(fraction(r), scale))
}

/// `rates` are the fractions `values` listed in `order`.
pub open spec fn listed_in_order(rates: Seq<Rate>, values: Seq<(nat, nat)>, order: Seq<usize>) -> bool {
    &&& rates.len() == order.len()
    &&& forall|q: int|
        0 <= q < rates.len() ==> (#[trigger] rates[q])@ == (false, values[order[q] as int].0, values[
            order[q] as int].1)
}

/// `n` is the normalization of the valid, feasible problem `p`.
pub open spec fn normalized_as(p: Problem, n: NormalizedProblem) -> bool {
    let ins = rate_views(p.inputs@);
    let outs = rate_views(p.outputs@);
    let scale = global_scale(ins + outs);
    let in_values = scaled_all(ins, scale);
    let out_values = scaled_all(outs, scale);
    let total_in = frac_sum(ins);
    let total_out = frac_sum(outs);
    let surplus = scaled(
        ((total_in.0 * total_out.1 - total_out.0 * total_in.1) as nat, total_in.1 * total_out.1),
        scale,
    );
    &&& n.original_scale@ == (false, scale.0, scale.1)
    &&& n.max_link_rate@ == (false, scaled(fraction(p.max_link_rate@), scale).0, scaled(
        fraction(p.max_link_rate@),
        scale,
    ).1)
    &&& n.surplus@ == (false, surplus.0, surplus.1)
    &&& sorted_order(in_values, n.terminal_mapping.inputs_to_original())
    &&& sorted_order(out_values, n.terminal_mapping.outputs_to_original())
    &&& listed_in_order(n.inputs@, in_values, n.terminal_mapping.inputs_to_original())
    &&& listed_in_order(n.outputs@, out_values, n.terminal_mapping.outputs_to_original())
    &&& n.terminal_mapping.inputs_to_normalized().len() == p.inputs@.len()
    &&& n.terminal_mapping.outputs_to_normalized().len() == p.outputs@.len()
}

/// The shape every prepared problem has: inputs exist, every normalized
/// rate and the capacity are positive, and every denominator is positive.
pub open spec fn normalized_wf(n: NormalizedProblem) -> bool {
    &&& n.inputs@.len() > 0
    &&& forall|i: int| 0 <= i < n.inputs@.len() ==> (#[trigger] n.inputs@[i])@.1 > 0 && n.inputs@[i]@.2 > 0
    &&& forall|i: int| 0 <= i < n.outputs@.len() ==> (#[trigger] n.outputs@[i])@.1 > 0 && n.outputs@[i]@.2 > 0
    &&& n.surplus@.2 > 0
    &&& n.max_link_rate@.1 > 0
    &&& n.max_link_rate@.2 > 0
}

proof fn lemma_sum_denominator_positive(rates: Seq<(bool, nat, nat)>)
    requires
        forall|i: int| 0 <= i < rates.len() ==> (#[trigger] rates[i]).2 > 0,
    ensures
        frac_sum(rates).1 > 0,
    decreases rates.len(),
{
    if rates.len() > 0 {
        let prev = rates.drop_last();
        assert forall|i: int| 0 <= i < prev.len() implies (#[trigger] prev[i]).2 > 0 by {
            assert(prev[i] == rates[i]);
        }
        lemma_sum_denominator_positive(prev);
        assert(rates.last() == rates[rates.len() - 1]);
        lemma_product_positive(frac_sum(prev).1, rates.last().2);
    }
}

/// A problem prepared for search, or its global infeasibility proof.
pub enum Preparation {
    Prepared(NormalizedProblem),
    GloballyUnsat(GlobalUnsatReason),
}

pub(crate) proof fn lemma_quotient_at_least_one(x: nat, g: nat)
    requires
        0 < g <= x,
    ensures
        x / g >= 1,
{
    vstd::arithmetic::div_mod::lemma_div_is_ordered(g as int, x as int, g as int);
    vstd::arithmetic::div_mod::lemma_div_basics(g as int);
}

/// Lowest terms keep a positive denominator (and a positive numerator).
pub(crate) proof fn lemma_reduced_positive(f: (nat, nat))
    requires
        f.1 > 0,
    ensures
        reduced(f).1 > 0,
        f.0 > 0 ==> reduced(f).0 > 0,
        gcd(f.0, f.1) > 0,
{
    lemma_gcd_positive(f.0, f.1);
    lemma_gcd_at_most_second(f.0, f.1);
    lemma_quotient_at_least_one(f.1, gcd(f.0, f.1));
    if f.0 > 0 {
        lemma_gcd_at_most_first(f.0, f.1);
        lemma_quotient_at_least_one(f.0, gcd(f.0, f.1));
    }
}

pub(crate) proof fn lemma_product_positive(a: nat, b: nat)
    requires
        a > 0,
        b > 0,
    ensures
        a * b > 0,
        a * b >= b,
{
    assert(a * b >= b) by (nonlinear_arith)
        requires
            a > 0,
            b > 0,
    ;
}

/// The folded multiple of positive denominators is positive and at least
/// the last denominator.
proof fn lemma_lcm_positive(rates: Seq<(bool, nat, nat)>)
    requires
        forall|i: int| 0 <= i < rates.len() ==> (#[trigger] rates[i]).2 > 0,
    ensures
        denominator_lcm(rates) > 0,
        rates.len() > 0 ==> denominator_lcm(rates) >= rates.last().2,
    decreases rates.len(),
{
    if rates.len() > 0 {
        let prev = rates.drop_last();
        assert forall|i: int| 0 <= i < prev.len() implies (#[trigger] prev[i]).2 > 0 by {
            assert(prev[i] == rates[i]);
        }
        lemma_lcm_positive(prev);
        let l = denominator_lcm(prev);
        let d = rates.last().2;
        assert(d == rates[rates.len() - 1].2);
        lemma_gcd_positive(l, d);
        lemma_gcd_at_most_first(l, d);
        lemma_quotient_at_least_one(l, gcd(l, d));
        lemma_product_positive(l / gcd(l, d), d);
    }
}

/// The grain of rates whose last numerator is positive, under a multiple of
/// its denominator, is positive.
proof fn lemma_grain_positive(rates: Seq<(bool, nat, nat)>, l: nat)
    requires
        rates.len() > 0,
        rates.last().1 > 0,
        rates.last().2 > 0,
        l >= rates.last().2,
    ensures
        rate_grain(rates, l) > 0,
{
    lemma_quotient_at_least_one(l, rates.last().2);
    lemma_product_positive(rates.last().1, l / rates.last().2);
    lemma_gcd_positive(rate_grain(rates.drop_last(), l), rates.last().1 * (l / rates.last().2));
}

/// The scale of positive rates has a positive numerator and denominator.
proof fn lemma_scale_positive(rates: Seq<(bool, nat, nat)>)
    requires
        rates.len() > 0,
        forall|i: int| 0 <= i < rates.len() ==> (#[trigger] rates[i]).2 > 0 && rates[i].1 > 0,
    ensures
        global_scale(rates).0 > 0,
        global_scale(rates).1 > 0,
{
    assert forall|i: int| 0 <= i < rates.len() implies (#[trigger] rates[i]).2 > 0 by {}
    lemma_lcm_positive(rates);
    let l = denominator_lcm(rates);
    assert(rates.last() == rates[rates.len() - 1]);
    lemma_grain_positive(rates, l);
    lemma_reduced_positive((rate_grain(rates, l), l));
}

/// Ordering fractions with positive denominators is transitive.
proof fn lemma_frac_lt_le(a: (nat, nat), b: (nat, nat), c: (nat, nat))
    requires
        a.1 > 0,
        b.1 > 0,
        c.1 > 0,
        frac_lt(a, b),
        !frac_lt(c, b),
    ensures
        frac_lt(a, c),
{
    let (a0, a1, b0, b1, c0, c1) = (a.0 as int, a.1 as int, b.0 as int, b.1 as int, c.0 as int, c.1 as int);
    assert(a0 * c1 < c0 * a1) by (nonlinear_arith)
        requires
            a1 > 0,
            b1 > 0,
            c1 > 0,
            a0 >= 0,
            b0 >= 0,
            c0 >= 0,
            a0 * b1 < b0 * a1,
            b0 * c1 <= c0 * b1,
    {
        assert(a0 * b1 * c1 < b0 * a1 * c1);
        assert(b0 * c1 * a1 <= c0 * b1 * a1);
        assert(a0 * c1 * b1 < c0 * a1 * b1);
    }
}

pub(crate) fn zero() -> (n: BigNat)
    ensures
        n@ == 0,
{
    BigNat { digits: Vec::new() }
}

fn rate_positive(rate: &Rate) -> (p: bool)
    ensures
        p == positive(rate@),
{
    !rate.negative && !rate.numerator.is_zero()
}

/// Which of `rates` are positive.
fn positive_flags(rates: &Vec<Rate>) -> (flags: Vec<bool>)
    ensures
        flags@ == positives(rate_views(rates@)),
{
    let mut flags: Vec<bool> = Vec::new();
    let mut i: usize = 0;
    while i < rates.len()
        invariant
            i <= rates@.len(),
            flags@.len() == i,
            forall|k: int| 0 <= k < i ==> flags@[k] == positive(rates@[k]@),
        decreases rates.len() - i,
    {
        flags.push(rate_positive(&rates[i]));
        i = i + 1;
    }
    assert(flags@ =~= positives(rate_views(rates@)));
    flags
}

/// Which of `rates` exceed `cap`.
fn over_flags(rates: &Vec<Rate>, cap: &Rate) -> (flags: Vec<bool>)
    ensures
        flags@ == over_capacity(rate_views(rates@), cap@),
{
    let mut flags: Vec<bool> = Vec::new();
    let mut i: usize = 0;
    while i < rates.len()
        invariant
            i <= rates@.len(),
            flags@.len() == i,
            forall|k: int| 0 <= k < i ==> flags@[k] == frac_lt(fraction(cap@), fraction(rates@[k]@)),
        decreases rates.len() - i,
    {
        flags.push(rate_below(cap, &rates[i]));
        i = i + 1;
    }
    assert(flags@ =~= over_capacity(rate_views(rates@), cap@));
    flags
}

/// Whether the fraction of `a` is below that of `b`.
fn rate_below(a: &Rate, b: &Rate) -> (below: bool)
    ensures
        below == frac_lt(fraction(a@), fraction(b@)),
{
    let left = big_mul(&a.numerator, &b.denominator);
    let right = big_mul(&b.numerator, &a.denominator);
    big_lt(&left, &right)
}

/// The positive rate `numerator/denominator` in lowest terms.
pub(crate) fn lowest_terms(numerator: &BigNat, denominator: &BigNat) -> (rate: Rate)
    ensures
        rate@ == (false, reduced((numerator@, denominator@)).0, reduced((numerator@, denominator@)).1),
{
    let g = big_gcd(numerator, denominator);
    if g.is_zero() {
        Rate { negative: false, numerator: zero(), denominator: zero() }
    } else {
        Rate { negative: false, numerator: big_div(numerator, &g), denominator: big_div(denominator, &g) }
    }
}

/// The sum of the fractions of `rates`, over the product of their denominators.
fn sum_rates(rates: &Vec<Rate>) -> (sum: (BigNat, BigNat))
    ensures
        (sum.0@, sum.1@) == frac_sum(rate_views(rates@)),
{
    let mut n = zero();
    let mut d = BigNat::small(1);
    let mut i: usize = 0;
    while i < rates.len()
        invariant
            i <= rates@.len(),
            (n@, d@) == frac_sum(rate_views(rates@).subrange(0, i as int)),
        decreases rates.len() - i,
    {
        let ghost prefix = rate_views(rates@).subrange(0, i + 1);
        assert(prefix.drop_last() =~= rate_views(rates@).subrange(0, i as int));
        assert(prefix.last() == rates@[i as int]@);
        let r = &rates[i];
        let scaled_sum = big_mul(&n, &r.denominator);
        let scaled_rate = big_mul(&r.numerator, &d);
        n = big_add(&scaled_sum, &scaled_rate);
        d = big_mul(&d, &r.denominator);
        i = i + 1;
    }
    assert(rate_views(rates@).subrange(0, i as int) =~= rate_views(rates@));
    (n, d)
}

/// One step of the folded multiple of denominators.
pub(crate) fn lcm_step(l: &BigNat, rate: &Rate) -> (next: BigNat)
    requires
        rate@.2 > 0,
    ensures
        next@ == (l@ / gcd(l@, rate@.2)) * rate@.2,
{
    let g = big_gcd(l, &rate.denominator);
    proof {
        lemma_gcd_positive(l@, rate@.2);
    }
    let q = big_div(l, &g);
    big_mul(&q, &rate.denominator)
}

/// One step of the folded grain of scaled rates.
pub(crate) fn grain_step(grain: &BigNat, l: &BigNat, rate: &Rate) -> (next: BigNat)
    requires
        rate@.2 > 0,
    ensures
        next@ == gcd(grain@, rate@.1 * (l@ / rate@.2)),
{
    let multiple = big_div(l, &rate.denominator);
    let term = big_mul(&rate.numerator, &multiple);
    big_gcd(grain, &term)
}

/// The one global scale of the inputs followed by the outputs.
fn scale_of(inputs: &Vec<Rate>, outputs: &Vec<Rate>) -> (scale: Rate)
    requires
        forall|k: int|
            0 <= k < (rate_views(inputs@) + rate_views(outputs@)).len() ==> (#[trigger] (rate_views(inputs@)
                + rate_views(outputs@))[k]).2 > 0,
    ensures
        scale@ == (false, global_scale(rate_views(inputs@) + rate_views(outputs@)).0, global_scale(
            rate_views(inputs@) + rate_views(outputs@),
        ).1),
{
    let ghost all = rate_views(inputs@) + rate_views(outputs@);
    let ghost n_in = inputs@.len() as int;
    let mut l = BigNat::small(1);
    let mut k: usize = 0;
    while k < inputs.len()
        invariant
            all == rate_views(inputs@) + rate_views(outputs@),
            n_in == inputs@.len(),
            k <= inputs@.len(),
            forall|j: int| 0 <= j < all.len() ==> (#[trigger] all[j]).2 > 0,
            l@ == denominator_lcm(all.subrange(0, k as int)),
        decreases inputs.len() - k,
    {
        let ghost prefix = all.subrange(0, k + 1);
        assert(prefix.drop_last() =~= all.subrange(0, k as int));
        assert(all[k as int] == inputs@[k as int]@);
        l = lcm_step(&l, &inputs[k]);
        k = k + 1;
    }
    let mut k: usize = 0;
    while k < outputs.len()
        invariant
            all == rate_views(inputs@) + rate_views(outputs@),
            n_in == inputs@.len(),
            k <= outputs@.len(),
            forall|j: int| 0 <= j < all.len() ==> (#[trigger] all[j]).2 > 0,
            l@ == denominator_lcm(all.subrange(0, n_in + k)),
        decreases outputs.len() - k,
    {
        let ghost prefix = all.subrange(0, n_in + k + 1);
        assert(prefix.drop_last() =~= all.subrange(0, n_in + k));
        assert(all[n_in + k] == outputs@[k as int]@);
        l = lcm_step(&l, &outputs[k]);
        k = k + 1;
    }
    assert(all.subrange(0, all.len() as int) =~= all);
    let mut grain = zero();
    let mut k: usize = 0;
    while k < inputs.len()
        invariant
            all == rate_views(inputs@) + rate_views(outputs@),
            n_in == inputs@.len(),
            k <= inputs@.len(),
            forall|j: int| 0 <= j < all.len() ==> (#[trigger] all[j]).2 > 0,
            l@ == denominator_lcm(all),
            grain@ == rate_grain(all.subrange(0, k as int), l@),
        decreases inputs.len() - k,
    {
        let ghost prefix = all.subrange(0, k + 1);
        assert(prefix.drop_last() =~= all.subrange(0, k as int));
        assert(all[k as int] == inputs@[k as int]@);
        grain = grain_step(&grain, &l, &inputs[k]);
        k = k + 1;
    }
    let mut k: usize = 0;
    while k < outputs.len()
        invariant
            all == rate_views(inputs@) + rate_views(outputs@),
            n_in == inputs@.len(),
            k <= outputs@.len(),
            forall|j: int| 0 <= j < all.len() ==> (#[trigger] all[j]).2 > 0,
            l@ == denominator_lcm(all),
            grain@ == rate_grain(all.subrange(0, n_in + k), l@),
        decreases outputs.len() - k,
    {
        let ghost prefix = all.subrange(0, n_in + k + 1);
        assert(prefix.drop_last() =~= all.subrange(0, n_in + k));
        assert(all[n_in + k] == outputs@[k as int]@);
        grain = grain_step(&grain, &l, &outputs[k]);
        k = k + 1;
    }
    assert(all.subrange(0, all.len() as int) =~= all);
    lowest_terms(&grain, &l)
}

/// `rate` divided by `scale`, in lowest terms.
fn scaled_rate(rate: &Rate, scale: &Rate) -> (result: Rate)
    ensures
        result@ == (false, scaled(fraction(rate@), fraction(scale@)).0, scaled(fraction(rate@), fraction(scale@)).1),
{
    let n = big_mul(&rate.numerator, &scale.denominator);
    let d = big_mul(&rate.denominator, &scale.numerator);
    lowest_terms(&n, &d)
}

/// Every rate divided by `scale`, in caller order.
fn scaled_rates(rates: &Vec<Rate>, scale: &Rate) -> (result: Vec<Rate>)
    ensures
        result@.len() == rates@.len(),
        forall|k: int|
            0 <= k < rates@.len() ==> (#[trigger] result@[k])@ == (false, scaled(fraction(rates@[k]@), fraction(scale@)).0,
                scaled(fraction(rates@[k]@), fraction(scale@)).1),
{
    let mut result: Vec<Rate> = Vec::new();
    let mut i: usize = 0;
    while i < rates.len()
        invariant
            i <= rates@.len(),
            result@.len() == i,
            forall|k: int|
                0 <= k < i ==> (#[trigger] result@[k])@ == (false, scaled(fraction(rates@[k]@), fraction(scale@)).0,
                    scaled(fraction(rates@[k]@), fraction(scale@)).1),
        decreases rates.len() - i,
    {
        result.push(scaled_rate(&rates[i], &scale));
        i = i + 1;
    }
    result
}

/// The fractions of some rates.
pub open spec fn fractions(rates: Seq<Rate>) -> Seq<(nat, nat)> {
    rates.map_values(|r: Rate| fraction(r@))
}

/// `order` sorts the first `i` positions of `values`.
spec fn sorted_prefix(values: Seq<(nat, nat)>, order: Seq<usize>, i: int) -> bool {
    &&& order.len() == i
    &&& forall|p: int| 0 <= p < order.len() ==> order[p] < i
    &&& forall|p: int, q: int| 0 <= p < q < order.len() ==> order[p] != order[q]
    &&& forall|p: int, q: int|
        0 <= p < q < order.len() ==> !frac_lt(values[order[q] as int], values[order[p] as int]) && (frac_eq(
            values[order[p] as int],
            values[order[q] as int],
        ) ==> order[p] < order[q])
}

proof fn lemma_sorted_insert(values: Seq<(nat, nat)>, order: Seq<usize>, pos: int, i: int)
    requires
        0 <= i < values.len(),
        i < usize::MAX,
        forall|k: int| 0 <= k < values.len() ==> (#[trigger] values[k]).1 > 0,
        sorted_prefix(values, order, i),
        0 <= pos <= order.len(),
        forall|p: int| 0 <= p < pos ==> !frac_lt(values[i], values[order[p] as int]),
        pos < order.len() ==> frac_lt(values[i], values[order[pos] as int]),
    ensures
        sorted_prefix(values, order.insert(pos, i as usize), i + 1),
{
    let next = order.insert(pos, i as usize);
    assert forall|p: int| 0 <= p < next.len() implies next[p] < i + 1 by {
        if p < pos {
            assert(next[p] == order[p]);
        } else if p > pos {
            assert(next[p] == order[p - 1]);
        }
    }
    assert forall|p: int, q: int| 0 <= p < q < next.len() implies next[p] != next[q] by {
        if p < pos && q < pos {
            assert(next[p] == order[p] && next[q] == order[q]);
        } else if p < pos && q == pos {
            assert(next[p] == order[p]);
        } else if p < pos {
            assert(next[p] == order[p] && next[q] == order[q - 1]);
        } else if p == pos {
            assert(next[q] == order[q - 1]);
        } else {
            assert(next[p] == order[p - 1] && next[q] == order[q - 1]);
        }
    }
    assert forall|p: int, q: int| 0 <= p < q < next.len() implies !frac_lt(
        values[next[q] as int],
        values[next[p] as int],
    ) && (frac_eq(values[next[p] as int], values[next[q] as int]) ==> next[p] < next[q]) by {
        if p < pos && q < pos {
            assert(next[p] == order[p] && next[q] == order[q]);
        } else if p < pos && q == pos {
            assert(next[p] == order[p]);
        } else if p < pos {
            assert(next[p] == order[p] && next[q] == order[q - 1]);
        } else if p == pos {
            assert(next[q] == order[q - 1]);
            let a = values[i];
            let b = values[order[pos] as int];
            let c = values[order[q - 1] as int];
            if q - 1 > pos {
                assert(!frac_lt(c, b));
            }
            lemma_frac_lt_le(a, b, c);
        } else {
            assert(next[p] == order[p - 1] && next[q] == order[q - 1]);
        }
    }
}

/// Positions of `values` ascending by fraction, equal fractions by position.
fn sort_positions(values: &Vec<Rate>) -> (order: Vec<usize>)
    requires
        forall|k: int| 0 <= k < values@.len() ==> (#[trigger] values@[k])@.2 > 0,
    ensures
        sorted_order(fractions(values@), order@),
{
    let ghost fr = fractions(values@);
    let mut order: Vec<usize> = Vec::new();
    let mut i: usize = 0;
    while i < values.len()
        invariant
            fr == fractions(values@),
            i <= values@.len(),
            forall|k: int| 0 <= k < fr.len() ==> (#[trigger] fr[k]).1 > 0,
            sorted_prefix(fr, order@, i as int),
        decreases values.len() - i,
    {
        let mut pos: usize = 0;
        while pos < order.len() && !rate_below(&values[i], &values[order[pos]])
            invariant
                fr == fractions(values@),
                i < values@.len(),
                sorted_prefix(fr, order@, i as int),
                pos <= order@.len(),
                forall|p: int| 0 <= p < pos ==> !frac_lt(fr[i as int], fr[order@[p] as int]),
            decreases order.len() - pos,
        {
            pos = pos + 1;
        }
        proof {
            lemma_sorted_insert(fr, order@, pos as int, i as int);
        }
        order.insert(pos, i);
        i = i + 1;
    }
    order
}

/// The rates of `values` listed in `order`.
fn listed(values: &Vec<Rate>, order: &Vec<usize>) -> (rates: Vec<Rate>)
    requires
        forall|q: int| 0 <= q < order@.len() ==> (#[trigger] order@[q]) < values@.len(),
    ensures
        rates@.len() == order@.len(),
        forall|q: int| 0 <= q < order@.len() ==> (#[trigger] rates@[q])@ == values@[order@[q] as int]@,
{
    let mut rates: Vec<Rate> = Vec::new();
    let mut q: usize = 0;
    while q < order.len()
        invariant
            q <= order@.len(),
            forall|k: int| 0 <= k < order@.len() ==> (#[trigger] order@[k]) < values@.len(),
            rates@.len() == q,
            forall|k: int| 0 <= k < q ==> (#[trigger] rates@[k])@ == values@[order@[k] as int]@,
        decreases order.len() - q,
    {
        rates.push(values[order[q]].copied());
        q = q + 1;
    }
    rates
}

/// Validates a problem and builds its exact canonical form, or proves it
/// globally infeasible. Malformed problems (an empty or oversized terminal
/// side, a non-positive rate) are refused. Too little total input, or an
/// external rate above the link capacity, is a finite proof that no layout
/// exists; surplus input is not, since links may discard it. Otherwise
/// every rate is divided by the one global scale whose rates are coprime
/// integers, and each side is sorted ascending, equal rates by caller index.
pub fn prepare_problem(problem: &Problem) -> (prepared: Result<Preparation, InvalidProblem>)
    requires
        denominators_positive(*problem),
    ensures
        prepared is Err <==> malformed(*problem),
        prepared matches Err(error) ==> malformed_as(*problem, error),
        !malformed(*problem) ==> (prepared matches Ok(Preparation::GloballyUnsat(_)) <==> infeasible(*problem)),
        prepared matches Ok(Preparation::GloballyUnsat(reason)) ==> infeasible_as(*problem, reason),
        prepared matches Ok(Preparation::Prepared(normalized)) ==> normalized_as(*problem, normalized)
            && normalized_wf(normalized),
{
    let inputs = &problem.inputs;
    let outputs = &problem.outputs;
    let cap = &problem.max_link_rate;
    if inputs.len() == 0 {
        return Err(InvalidProblem::MissingInputs);
    }
    if outputs.len() == 0 {
        return Err(InvalidProblem::MissingOutputs);
    }
    if inputs.len() - 1 > 0xffff_ffffusize {
        return Err(InvalidProblem::TooManyInputs { count: inputs.len() });
    }
    if outputs.len() - 1 > 0xffff_ffffusize {
        return Err(InvalidProblem::TooManyOutputs { count: outputs.len() });
    }
    if !rate_positive(cap) {
        return Err(InvalidProblem::NonPositiveMaxLinkRate { rate: cap.copied() });
    }
    let input_positive = positive_flags(inputs);
    if let Some(index) = find_first(&input_positive, false) {
        return Err(InvalidProblem::NonPositiveInputRate { index, rate: inputs[index].copied() });
    }
    let output_positive = positive_flags(outputs);
    if let Some(index) = find_first(&output_positive, false) {
        return Err(InvalidProblem::NonPositiveOutputRate { index, rate: outputs[index].copied() });
    }
    let ghost ins = rate_views(inputs@);
    let ghost outs = rate_views(outputs@);
    let ghost all = ins + outs;
    proof {
        assert forall|k: int| 0 <= k < all.len() implies (#[trigger] all[k]).2 > 0 && all[k].1 > 0 by {
            if k < ins.len() {
                assert(all[k] == inputs@[k]@);
                assert(!input_positive@.contains(false));
                assert(input_positive@[k] == positive(inputs@[k]@));
            } else {
                assert(all[k] == outputs@[k - ins.len()]@);
                assert(!output_positive@.contains(false));
                assert(output_positive@[k - ins.len()] == positive(outputs@[k - ins.len()]@));
            }
        }
    }
    let (total_in, denominator_in) = sum_rates(inputs);
    let (total_out, denominator_out) = sum_rates(outputs);
    let supplied = big_mul(&total_in, &denominator_out);
    let demanded = big_mul(&total_out, &denominator_in);
    if big_lt(&supplied, &demanded) {
        return Ok(
            Preparation::GloballyUnsat(
                GlobalUnsatReason::InsufficientInput {
                    total_input: lowest_terms(&total_in, &denominator_in),
                    total_output: lowest_terms(&total_out, &denominator_out),
                },
            ),
        );
    }
    let input_over = over_flags(inputs, cap);
    if let Some(index) = find_first(&input_over, true) {
        return Ok(
            Preparation::GloballyUnsat(
                GlobalUnsatReason::ExternalRateExceedsCapacity {
                    terminal: ExternalTerminal::Input(InputTerminalIndex(index as u32)),
                    rate: inputs[index].copied(),
                    max_link_rate: cap.copied(),
                },
            ),
        );
    }
    let output_over = over_flags(outputs, cap);
    if let Some(index) = find_first(&output_over, true) {
        return Ok(
            Preparation::GloballyUnsat(
                GlobalUnsatReason::ExternalRateExceedsCapacity {
                    terminal: ExternalTerminal::Output(OutputTerminalIndex(index as u32)),
                    rate: outputs[index].copied(),
                    max_link_rate: cap.copied(),
                },
            ),
        );
    }
    let scale = scale_of(inputs, outputs);
    let ghost sc = global_scale(all);
    proof {
        lemma_scale_positive(all);
    }
    let input_values = scaled_rates(inputs, &scale);
    let output_values = scaled_rates(outputs, &scale);
    proof {
        assert forall|k: int| 0 <= k < input_values@.len() implies (#[trigger] input_values@[k])@.2 > 0
            && input_values@[k]@.1 > 0 by {
            assert(all[k] == inputs@[k]@);
            lemma_product_positive(inputs@[k]@.2, sc.0);
            lemma_product_positive(inputs@[k]@.1, sc.1);
            lemma_reduced_positive((inputs@[k]@.1 * sc.1, inputs@[k]@.2 * sc.0));
        }
        assert forall|k: int| 0 <= k < output_values@.len() implies (#[trigger] output_values@[k])@.2 > 0
            && output_values@[k]@.1 > 0 by {
            assert(all[ins.len() + k] == outputs@[k]@);
            lemma_product_positive(outputs@[k]@.2, sc.0);
            lemma_product_positive(outputs@[k]@.1, sc.1);
            lemma_reduced_positive((outputs@[k]@.1 * sc.1, outputs@[k]@.2 * sc.0));
        }
        assert forall|k: int| 0 <= k < ins.len() implies (#[trigger] ins[k]).2 > 0 by {
            assert(all[k] == ins[k]);
        }
        assert forall|k: int| 0 <= k < outs.len() implies (#[trigger] outs[k]).2 > 0 by {
            assert(all[ins.len() + k] == outs[k]);
        }
        lemma_sum_denominator_positive(ins);
        lemma_sum_denominator_positive(outs);
        lemma_product_positive(frac_sum(ins).1, frac_sum(outs).1);
        lemma_product_positive(frac_sum(ins).1 * frac_sum(outs).1, sc.0);
        lemma_reduced_positive(((frac_sum(ins).0 * frac_sum(outs).1 - frac_sum(outs).0 * frac_sum(ins).1) as nat * sc.1, frac_sum(ins).1 * frac_sum(outs).1 * sc.0));
        lemma_product_positive(cap@.1, sc.1);
        lemma_product_positive(cap@.2, sc.0);
        lemma_reduced_positive((cap@.1 * sc.1, cap@.2 * sc.0));
        assert(fractions(input_values@) =~= scaled_all(ins, sc));
        assert(fractions(output_values@) =~= scaled_all(outs, sc));
    }
    let input_order = sort_positions(&input_values);
    let output_order = sort_positions(&output_values);
    let sorted_inputs = listed(&input_values, &input_order);
    let sorted_outputs = listed(&output_values, &output_order);
    let terminal_mapping = TerminalMapping::from_orders(input_order, output_order);
    let excess = big_sub(&supplied, &demanded);
    let common = big_mul(&denominator_in, &denominator_out);
    let surplus = lowest_terms(&big_mul(&excess, &scale.denominator), &big_mul(&common, &scale.numerator));
    let max_link_rate = scaled_rate(cap, &scale);
    Ok(
        Preparation::Prepared(
            NormalizedProblem {
                inputs: sorted_inputs,
                outputs: sorted_outputs,
                surplus,
                max_link_rate,
                original_scale: scale,
                terminal_mapping,
            },
        ),
    )
}

} // verus!
