//! Baseline node-count lower bounds of a prepared problem, combined only by
//! `max`, and their checked-count failures.

use vstd::prelude::*;

use crate::exact::{
    BigNat, big_add, big_div, big_gcd, big_lt, big_mul, big_rem, big_sub, divides, gcd,
    lemma_divides_at_least, lemma_divides_transitive, lemma_gcd_at_most_first, lemma_gcd_positive,
    lemma_lcm_step,
};
use crate::profile::{NodeProfile, ProfileLinkAccounting};
use crate::problem::{
    NormalizedProblem, Rate, denominator_lcm, grain_step, lcm_step, lemma_quotient_at_least_one,
    normalized_wf, rate_grain, rate_views, zero,
};

verus! {

/// Baseline independent node-count lower bounds combined only by `max`.
#[derive(Clone, Debug, PartialEq, Eq)]
pub struct BaselineLowerBounds {
    /// Minimum number of strictly-positive capacity-bounded discard lines.
    pub minimum_discard_links: u32,
    /// Nodes forced by a net terminal branch deficit.
    pub splitter_branch_deficit: u32,
    /// Nodes forced by a net terminal merge deficit.
    pub merger_deficit: u32,
    /// Nodes forced jointly by exact source grain and port balance.
    pub arithmetic_nodes: u32,
    /// Sound combined starting point, never a sum of dependent arguments.
    pub combined_nodes: u32,
}

/// Checked-count failure while deriving a proof-only bound.
#[derive(Clone, Debug, PartialEq, Eq)]
pub enum LowerBoundError {
    TerminalCountOverflow,
    DiscardCountOverflow,
    ArithmeticNodeCountOverflow,
}

/// `a / b` rounded up.
pub open spec fn ceil_div(a: nat, b: nat) -> nat {
    ((a + b - 1) as nat) / b
}

/// `b` to the power `e`.
pub open spec fn pow(b: nat, e: nat) -> nat
    decreases e,
{
    if e == 0 {
        1
    } else {
        b * pow(b, (e - 1) as nat)
    }
}

/// `e` is the least exponent with `b^e >= v`.
pub open spec fn is_ceil_log(v: nat, b: nat, e: nat) -> bool {
    pow(b, e) >= v && (e == 0 || pow(b, (e - 1) as nat) < v)
}

/// The least exponent with `b^e >= v`.
pub open spec fn ceil_log(v: nat, b: nat) -> nat {
    choose|e: nat| is_ceil_log(v, b, e)
}

/// `v` with every factor `p` divided out.
pub open spec fn strip(v: nat, p: nat) -> nat
    decreases v,
{
    if p >= 2 && v > 0 && v % p == 0 {
        proof {
            vstd::arithmetic::div_mod::lemma_div_decreases(v as int, p as int);
        }
        strip(v / p, p)
    } else {
        v
    }
}

/// `v` has no prime factor but two and three.
pub open spec fn two_three_smooth(v: nat) -> bool {
    strip(strip(v, 2), 3) == 1
}

/// The fewest positive discard links of capacity `cap` that carry `surplus`.
pub open spec fn discard_links(surplus: (bool, nat, nat), cap: (bool, nat, nat)) -> nat {
    if surplus.1 == 0 {
        0
    } else {
        ceil_div(surplus.1 * cap.2, surplus.2 * cap.1)
    }
}

/// Every external rate followed by the surplus.
pub open spec fn endpoints(p: NormalizedProblem) -> Seq<(bool, nat, nat)> {
    rate_views(p.inputs@) + rate_views(p.outputs@) + seq![p.surplus@]
}

/// The source grain: the gcd of the inputs over the gcd of every endpoint,
/// all cleared to integers by one common denominator.
pub open spec fn required_denominator(p: NormalizedProblem) -> nat {
    let all = endpoints(p);
    let l = denominator_lcm(all);
    rate_grain(rate_views(p.inputs@), l) / rate_grain(all, l)
}

/// `a - b`, floored at zero.
pub open spec fn saturating(a: int, b: int) -> nat {
    if a > b {
        (a - b) as nat
    } else {
        0
    }
}

/// `x / 2` rounded up.
pub open spec fn half_up(x: nat) -> nat {
    (x + 1) / 2
}

/// What the arithmetic bound reads of a problem.
pub struct ArithmeticContext {
    pub required: nat,
    pub inputs: nat,
    pub outputs: nat,
    pub discard: nat,
    pub surplus: bool,
}

/// The branch gain every feasible profile needs.
pub open spec fn required_gain(c: ArithmeticContext) -> nat {
    let feedback: int = if two_three_smooth(c.required) { 0 } else { 1 };
    let delta = c.outputs - c.inputs;
    if c.surplus {
        saturating(delta + c.discard + feedback, 0)
    } else {
        saturating(delta + feedback, 0)
    }
}

/// The node total with `s3` three-way splitters, or `None` when a count
/// leaves `u32`.
pub open spec fn candidate(c: ArithmeticContext, s3: nat) -> Option<nat> {
    let remaining = ceil_div(c.required, pow(3, s3));
    let gain = required_gain(c);
    let branch_twos = saturating(gain as int, (2 * s3) as int);
    if pow(2, u32::MAX as nat) < remaining || branch_twos > u32::MAX {
        None
    } else {
        let s2 = if ceil_log(remaining, 2) >= branch_twos { ceil_log(remaining, 2) } else { branch_twos };
        let branch_gain = s2 + 2 * s3;
        let reduction = branch_gain - (c.outputs - c.inputs);
        let mergers: int = if c.surplus {
            if two_three_smooth(c.required) { 0 } else { 1 }
        } else {
            half_up(reduction as nat) as int
        };
        if !c.surplus && (reduction < 0 || reduction > u32::MAX) {
            None
        } else if s2 + s3 + mergers > u32::MAX {
            None
        } else {
            Some((s2 + s3 + mergers) as nat)
        }
    }
}

/// The least candidate over `s3` below `k`, `Err` at the first failing one.
pub open spec fn least_candidate(c: ArithmeticContext, k: nat) -> Result<Option<nat>, ()>
    decreases k,
{
    if k == 0 {
        Ok(None)
    } else {
        match least_candidate(c, (k - 1) as nat) {
            Err(()) => Err(()),
            Ok(best) => match candidate(c, (k - 1) as nat) {
                None => Err(()),
                Some(total) => Ok(
                    Some(
                        match best {
                            Some(b) => if b <= total { b } else { total },
                            None => total,
                        },
                    ),
                ),
            },
        }
    }
}

/// The arithmetic node bound: the least node total over every three-way
/// splitter count up to what the source grain or the branch gain could need.
pub open spec fn arithmetic_bound(c: ArithmeticContext) -> Result<nat, LowerBoundError> {
    let gain = required_gain(c);
    if pow(3, u32::MAX as nat) < c.required || gain > u32::MAX {
        Err(LowerBoundError::ArithmeticNodeCountOverflow)
    } else {
        let threes = ceil_log(c.required, 3);
        let max_threes = if threes >= half_up(gain) { threes } else { half_up(gain) };
        match least_candidate(c, max_threes + 1) {
            Ok(Some(best)) => Ok(best),
            _ => Err(LowerBoundError::ArithmeticNodeCountOverflow),
        }
    }
}

/// The baseline bounds of a prepared problem.
pub open spec fn baseline(p: NormalizedProblem) -> Result<BaselineLowerBounds, LowerBoundError> {
    let inputs = p.inputs@.len();
    let outputs = p.outputs@.len();
    let discard = discard_links(p.surplus@, p.max_link_rate@);
    if inputs > u32::MAX || outputs > u32::MAX {
        Err(LowerBoundError::TerminalCountOverflow)
    } else if discard > u32::MAX {
        Err(LowerBoundError::DiscardCountOverflow)
    } else if outputs + discard > u32::MAX {
        Err(LowerBoundError::TerminalCountOverflow)
    } else {
        let split = half_up(saturating((outputs + discard) as int, inputs as int));
        let merge = if p.surplus@.1 == 0 { half_up(saturating(inputs as int, outputs as int)) } else { 0 };
        let c = ArithmeticContext {
            required: required_denominator(p),
            inputs: inputs,
            outputs: outputs,
            discard: discard,
            surplus: p.surplus@.1 != 0,
        };
        match arithmetic_bound(c) {
            Err(e) => Err(e),
            Ok(arithmetic) => {
                let first = if split >= merge { split } else { merge };
                let combined = if first >= arithmetic { first } else { arithmetic };
                Ok(
                    BaselineLowerBounds {
                        minimum_discard_links: discard as u32,
                        splitter_branch_deficit: split as u32,
                        merger_deficit: merge as u32,
                        arithmetic_nodes: arithmetic as u32,
                        combined_nodes: combined as u32,
                    },
                )
            },
        }
    }
}

proof fn lemma_pow_positive(b: nat, e: nat)
    requires
        b >= 1,
    ensures
        pow(b, e) >= 1,
    decreases e,
{
    if e > 0 {
        lemma_pow_positive(b, (e - 1) as nat);
        assert(b * pow(b, (e - 1) as nat) >= 1) by (nonlinear_arith)
            requires
                b >= 1,
                pow(b, (e - 1) as nat) >= 1,
        ;
    }
}

proof fn lemma_pow_monotone(b: nat, i: nat, j: nat)
    requires
        b >= 1,
        i <= j,
    ensures
        pow(b, i) <= pow(b, j),
    decreases j,
{
    if i < j {
        lemma_pow_monotone(b, i, (j - 1) as nat);
        lemma_pow_positive(b, (j - 1) as nat);
        assert(pow(b, (j - 1) as nat) <= b * pow(b, (j - 1) as nat)) by (nonlinear_arith)
            requires
                b >= 1,
                pow(b, (j - 1) as nat) >= 1,
        ;
    }
}

proof fn lemma_ceil_log_unique(v: nat, b: nat, e: nat)
    requires
        b >= 1,
        is_ceil_log(v, b, e),
    ensures
        ceil_log(v, b) == e,
{
    let c = ceil_log(v, b);
    assert(is_ceil_log(v, b, c));
    if c < e {
        lemma_pow_monotone(b, c, (e - 1) as nat);
    } else if e < c {
        lemma_pow_monotone(b, e, (c - 1) as nat);
    }
}

/// The value of `n` as a `u32`, when it fits.
fn to_u32(n: &BigNat) -> (value: Option<u32>)
    ensures
        value is None <==> n@ > u32::MAX,
        value matches Some(v) ==> v == n@,
{
    if big_lt(&BigNat::small(0xffff_ffff), n) {
        return None;
    }
    if n.digits.len() == 0 {
        Some(0)
    } else {
        proof {
            assert(n@ == n.digits@[0] as nat + 0x1_0000_0000 * crate::exact::digits_value(n.digits@.drop_first()));
        }
        Some(n.digits[0])
    }
}

/// `a / b` rounded up.
fn ceil_div_big(a: &BigNat, b: &BigNat) -> (quotient: BigNat)
    requires
        b@ > 0,
    ensures
        quotient@ == ceil_div(a@, b@),
{
    let below = big_sub(b, &BigNat::small(1));
    let sum = big_add(a, &below);
    big_div(&sum, b)
}

/// The fewest positive discard links of capacity `cap` that carry `surplus`.
fn minimum_discard_links(surplus: &Rate, cap: &Rate) -> (count: Result<u32, LowerBoundError>)
    requires
        surplus@.2 > 0,
        cap@.1 > 0,
    ensures
        discard_links(surplus@, cap@) > u32::MAX ==> count == Err::<u32, LowerBoundError>(
            LowerBoundError::DiscardCountOverflow,
        ),
        discard_links(surplus@, cap@) <= u32::MAX ==> count == Ok::<u32, LowerBoundError>(
            discard_links(surplus@, cap@) as u32,
        ),
{
    if surplus.numerator.is_zero() {
        return Ok(0);
    }
    let numerator = big_mul(&surplus.numerator, &cap.denominator);
    let denominator = big_mul(&surplus.denominator, &cap.numerator);
    proof {
        crate::problem::lemma_product_positive(surplus@.2, cap@.1);
    }
    let links = ceil_div_big(&numerator, &denominator);
    match to_u32(&links) {
        Some(count) => Ok(count),
        None => Err(LowerBoundError::DiscardCountOverflow),
    }
}

/// The least exponent `e` with `base^e >= value`, or the overflow failure
/// when no `u32` exponent reaches it.
fn ceil_log_big(value: &BigNat, base: u32) -> (exponent: Result<u32, LowerBoundError>)
    requires
        base >= 2,
    ensures
        exponent is Err <==> pow(base as nat, u32::MAX as nat) < value@,
        exponent is Err ==> exponent == Err::<u32, LowerBoundError>(LowerBoundError::ArithmeticNodeCountOverflow),
        exponent matches Ok(e) ==> e == ceil_log(value@, base as nat) && is_ceil_log(value@, base as nat, e as nat),
{
    let b = BigNat::small(base);
    let mut power = BigNat::small(1);
    let mut e: u32 = 0;
    proof {
        assert(pow(base as nat, 0) == 1);
    }
    while big_lt(&power, value)
        invariant
            b@ == base,
            base >= 2,
            power@ == pow(base as nat, e as nat),
            e == 0 || pow(base as nat, (e - 1) as nat) < value@,
        decreases (if power@ < value@ { value@ - power@ } else { 0 }),
    {
        if e == 0xffff_ffffu32 {
            return Err(LowerBoundError::ArithmeticNodeCountOverflow);
        }
        proof {
            lemma_pow_positive(base as nat, e as nat);
            assert(power@ * base > power@) by (nonlinear_arith)
                requires
                    power@ >= 1,
                    base >= 2,
            ;
            assert(pow(base as nat, (e + 1) as nat) == base * pow(base as nat, e as nat));
        }
        let ghost before = power@;
        power = big_mul(&power, &b);
        proof {
            assert(before * base == base * before) by (nonlinear_arith);
        }
        e = e + 1;
    }
    proof {
        lemma_ceil_log_unique(value@, base as nat, e as nat);
        lemma_pow_monotone(base as nat, e as nat, u32::MAX as nat);
    }
    Ok(e)
}

/// Whether `value` has no prime factor but two and three.
fn is_two_three_smooth(value: &BigNat) -> (smooth: bool)
    requires
        value@ > 0,
    ensures
        smooth == two_three_smooth(value@),
{
    let mut remaining = value.copied();
    let two = BigNat::small(2);
    while big_rem(&remaining, &two).is_zero()
        invariant
            two@ == 2,
            remaining@ > 0,
            strip(remaining@, 2) == strip(value@, 2),
        decreases remaining@,
    {
        proof {
            vstd::arithmetic::div_mod::lemma_div_decreases(remaining@ as int, 2);
            assert(remaining@ / 2 > 0) by (nonlinear_arith)
                requires
                    remaining@ > 0,
                    remaining@ % 2 == 0,
            ;
        }
        remaining = big_div(&remaining, &two);
    }
    let ghost stripped = remaining@;
    assert(strip(stripped, 2) == stripped);
    let three = BigNat::small(3);
    while big_rem(&remaining, &three).is_zero()
        invariant
            three@ == 3,
            remaining@ > 0,
            strip(remaining@, 3) == strip(stripped, 3),
            stripped == strip(value@, 2),
        decreases remaining@,
    {
        proof {
            vstd::arithmetic::div_mod::lemma_div_decreases(remaining@ as int, 3);
            assert(remaining@ / 3 > 0) by (nonlinear_arith)
                requires
                    remaining@ > 0,
                    remaining@ % 3 == 0,
            ;
        }
        remaining = big_div(&remaining, &three);
    }
    assert(strip(remaining@, 3) == remaining@);
    let one = BigNat::small(1);
    !big_lt(&remaining, &one) && !big_lt(&one, &remaining)
}

/// The folded multiple of positive denominators is a positive multiple of
/// each of them.
proof fn lemma_lcm_multiple(rates: Seq<(bool, nat, nat)>)
    requires
        forall|i: int| 0 <= i < rates.len() ==> (#[trigger] rates[i]).2 > 0,
    ensures
        denominator_lcm(rates) > 0,
        forall|i: int| 0 <= i < rates.len() ==> divides(#[trigger] rates[i].2, denominator_lcm(rates)),
    decreases rates.len(),
{
    if rates.len() > 0 {
        let prev = rates.drop_last();
        assert forall|i: int| 0 <= i < prev.len() implies (#[trigger] prev[i]).2 > 0 by {
            assert(prev[i] == rates[i]);
        }
        lemma_lcm_multiple(prev);
        let l = denominator_lcm(prev);
        let d = rates.last().2;
        assert(rates.last() == rates[rates.len() - 1]);
        lemma_lcm_step(l, d);
        assert forall|i: int| 0 <= i < rates.len() implies divides(#[trigger] rates[i].2, denominator_lcm(rates)) by {
            if i < prev.len() {
                assert(prev[i] == rates[i]);
                lemma_divides_transitive(rates[i].2, l, denominator_lcm(rates));
            }
        }
    }
}

/// The source grain of a prepared problem.
pub fn required_source_denominator(p: &NormalizedProblem) -> (required: BigNat)
    requires
        normalized_wf(*p),
    ensures
        required@ == required_denominator(*p),
        required@ > 0,
{
    let ghost all = endpoints(*p);
    let ghost n_in = p.inputs@.len() as int;
    let ghost n_out = p.outputs@.len() as int;
    proof {
        assert forall|k: int| 0 <= k < all.len() implies (#[trigger] all[k]).2 > 0 by {
            if k < n_in {
                assert(all[k] == p.inputs@[k]@);
            } else if k < n_in + n_out {
                assert(all[k] == p.outputs@[k - n_in]@);
            } else {
                assert(all[k] == p.surplus@);
            }
        }
        lemma_lcm_multiple(all);
    }
    let mut l = BigNat::small(1);
    let mut k: usize = 0;
    while k < p.inputs.len()
        invariant
            all == endpoints(*p),
            n_in == p.inputs@.len(),
            n_out == p.outputs@.len(),
            k <= n_in,
            normalized_wf(*p),
            l@ == denominator_lcm(all.subrange(0, k as int)),
        decreases p.inputs.len() - k,
    {
        assert(all.subrange(0, k + 1).drop_last() =~= all.subrange(0, k as int));
        assert(all[k as int] == p.inputs@[k as int]@);
        l = lcm_step(&l, &p.inputs[k]);
        k = k + 1;
    }
    let mut k: usize = 0;
    while k < p.outputs.len()
        invariant
            all == endpoints(*p),
            n_in == p.inputs@.len(),
            n_out == p.outputs@.len(),
            k <= n_out,
            normalized_wf(*p),
            l@ == denominator_lcm(all.subrange(0, n_in + k)),
        decreases p.outputs.len() - k,
    {
        assert(all.subrange(0, n_in + k + 1).drop_last() =~= all.subrange(0, n_in + k));
        assert(all[n_in + k] == p.outputs@[k as int]@);
        l = lcm_step(&l, &p.outputs[k]);
        k = k + 1;
    }
    assert(all.subrange(0, n_in + n_out + 1).drop_last() =~= all.subrange(0, n_in + n_out));
    assert(all[n_in + n_out] == p.surplus@);
    l = lcm_step(&l, &p.surplus);
    assert(all.subrange(0, n_in + n_out + 1) =~= all);
    // The inputs' grain, then every endpoint's.
    let mut grain = zero();
    let mut k: usize = 0;
    while k < p.inputs.len()
        invariant
            all == endpoints(*p),
            n_in == p.inputs@.len(),
            k <= n_in,
            normalized_wf(*p),
            l@ == denominator_lcm(all),
            l@ > 0,
            forall|j: int| 0 <= j < all.len() ==> divides(#[trigger] all[j].2, l@),
            grain@ == rate_grain(all.subrange(0, k as int), l@),
            k > 0 ==> grain@ > 0,
        decreases p.inputs.len() - k,
    {
        assert(all.subrange(0, k + 1).drop_last() =~= all.subrange(0, k as int));
        assert(all[k as int] == p.inputs@[k as int]@);
        proof {
            let r = all[k as int];
            lemma_divides_at_least(r.2, l@);
            lemma_quotient_at_least_one(l@, r.2);
            crate::problem::lemma_product_positive(r.1, l@ / r.2);
            lemma_gcd_positive(grain@, r.1 * (l@ / r.2));
        }
        grain = grain_step(&grain, &l, &p.inputs[k]);
        k = k + 1;
    }
    let input_grain = grain.copied();
    let ghost base = input_grain@;
    assert(all.subrange(0, n_in) =~= rate_views(p.inputs@));
    let mut k: usize = 0;
    while k < p.outputs.len()
        invariant
            all == endpoints(*p),
            n_in == p.inputs@.len(),
            n_out == p.outputs@.len(),
            k <= n_out,
            normalized_wf(*p),
            l@ == denominator_lcm(all),
            grain@ == rate_grain(all.subrange(0, n_in + k), l@),
            0 < grain@ <= base,
        decreases p.outputs.len() - k,
    {
        assert(all.subrange(0, n_in + k + 1).drop_last() =~= all.subrange(0, n_in + k));
        assert(all[n_in + k] == p.outputs@[k as int]@);
        proof {
            let r = all[n_in + k];
            lemma_gcd_positive(grain@, r.1 * (l@ / r.2));
            lemma_gcd_at_most_first(grain@, r.1 * (l@ / r.2));
        }
        grain = grain_step(&grain, &l, &p.outputs[k]);
        k = k + 1;
    }
    assert(all.subrange(0, n_in + n_out + 1).drop_last() =~= all.subrange(0, n_in + n_out));
    assert(all[n_in + n_out] == p.surplus@);
    proof {
        let r = all[n_in + n_out];
        lemma_gcd_positive(grain@, r.1 * (l@ / r.2));
        lemma_gcd_at_most_first(grain@, r.1 * (l@ / r.2));
    }
    grain = grain_step(&grain, &l, &p.surplus);
    assert(all.subrange(0, n_in + n_out + 1) =~= all);
    proof {
        lemma_quotient_at_least_one(base, grain@);
    }
    big_div(&input_grain, &grain)
}

/// Once a candidate fails, every longer scan fails.
proof fn lemma_least_fails_from(c: ArithmeticContext, k: nat, j: nat)
    requires
        least_candidate(c, k) is Ok,
        candidate(c, k) is None,
        k < j,
    ensures
        least_candidate(c, j) is Err,
    decreases j - k,
{
    if j > k + 1 {
        lemma_least_fails_from(c, k, (j - 1) as nat);
    }
}

/// `x / 2` rounded up, for a `u32`.
fn half_up_u32(x: u32) -> (h: u32)
    ensures
        h == half_up(x as nat),
{
    x / 2 + x % 2
}

/// The node total with `k` three-way splitters, or `None` when a count
/// leaves `u32`.
fn candidate_at(
    required: &BigNat,
    power: &BigNat,
    k: u64,
    inputs: u32,
    outputs: u32,
    discard: u32,
    surplus: bool,
    needs_feedback: bool,
) -> (total: Option<u32>)
    requires
        required@ > 0,
        needs_feedback == !two_three_smooth(required@),
        k <= u32::MAX as u64 + 1,
        power@ == pow(3, k as nat),
        required_gain(ArithmeticContext {
            required: required@,
            inputs: inputs as nat,
            outputs: outputs as nat,
            discard: discard as nat,
            surplus,
        }) <= u32::MAX,
    ensures
        ({
            let c = ArithmeticContext {
                required: required@,
                inputs: inputs as nat,
                outputs: outputs as nat,
                discard: discard as nat,
                surplus,
            };
            &&& total is None <==> candidate(c, k as nat) is None
            &&& total matches Some(t) ==> candidate(c, k as nat) == Some(t as nat)
        }),
{
    let ghost c = ArithmeticContext {
        required: required@,
        inputs: inputs as nat,
        outputs: outputs as nat,
        discard: discard as nat,
        surplus,
    };
    let feedback: i64 = if needs_feedback { 1 } else { 0 };
    let delta: i64 = outputs as i64 - inputs as i64;
    let raw_gain: i64 = if surplus { delta + discard as i64 + feedback } else { delta + feedback };
    let gain: i64 = if raw_gain > 0 { raw_gain } else { 0 };
    assert(gain == required_gain(c));
    proof {
        lemma_pow_positive(3, k as nat);
    }
    let remaining = ceil_div_big(required, power);
    let twos = match ceil_log_big(&remaining, 2) {
        Ok(twos) => twos,
        Err(_) => return None,
    };
    let from_threes: i64 = 2 * (k as i64);
    let branch_twos_raw: i64 = gain - from_threes;
    let branch_twos: i64 = if branch_twos_raw > 0 { branch_twos_raw } else { 0 };
    if branch_twos > 0xffff_ffffi64 {
        return None;
    }
    let splitter2: i64 = if twos as i64 >= branch_twos { twos as i64 } else { branch_twos };
    let branch_gain: i64 = splitter2 + from_threes;
    let mergers: i64 = if surplus {
        feedback
    } else {
        let reduction: i64 = branch_gain - delta;
        if reduction < 0 || reduction > 0xffff_ffffi64 {
            return None;
        }
        half_up_u32(reduction as u32) as i64
    };
    let total: i64 = splitter2 + k as i64 + mergers;
    if total > 0xffff_ffffi64 {
        return None;
    }
    Some(total as u32)
}

/// The arithmetic node bound of a source grain `required`, with
/// `inputs`/`outputs` terminals, `discard` discard links and whether the
/// problem has a surplus.
fn arithmetic_node_lower_bound(
    required: &BigNat,
    inputs: u32,
    outputs: u32,
    discard: u32,
    surplus: bool,
) -> (bound: Result<u32, LowerBoundError>)
    requires
        required@ > 0,
    ensures
        ({
            let c = ArithmeticContext {
                required: required@,
                inputs: inputs as nat,
                outputs: outputs as nat,
                discard: discard as nat,
                surplus,
            };
            &&& bound is Ok <==> arithmetic_bound(c) is Ok
            &&& bound matches Ok(v) ==> arithmetic_bound(c) == Ok::<nat, LowerBoundError>(v as nat)
            &&& bound is Err ==> bound == Err::<u32, LowerBoundError>(LowerBoundError::ArithmeticNodeCountOverflow)
        }),
{
    let ghost c = ArithmeticContext {
        required: required@,
        inputs: inputs as nat,
        outputs: outputs as nat,
        discard: discard as nat,
        surplus,
    };
    let needs_feedback = !is_two_three_smooth(required);
    let feedback: i64 = if needs_feedback { 1 } else { 0 };
    let delta: i64 = outputs as i64 - inputs as i64;
    let raw_gain: i64 = if surplus { delta + discard as i64 + feedback } else { delta + feedback };
    let gain: i64 = if raw_gain > 0 { raw_gain } else { 0 };
    assert(gain == required_gain(c));
    let threes = match ceil_log_big(required, 3) {
        Ok(threes) => threes,
        Err(error) => return Err(error),
    };
    if gain > 0xffff_ffffi64 {
        return Err(LowerBoundError::ArithmeticNodeCountOverflow);
    }
    let branch_threes = half_up_u32(gain as u32);
    let max_threes: u32 = if threes >= branch_threes { threes } else { branch_threes };
    let mut power = BigNat::small(1);
    let three = BigNat::small(3);
    let mut best: Option<u32> = None;
    let mut k: u64 = 0;
    proof {
        assert(pow(3, 0) == 1);
    }
    while k <= max_threes as u64
        invariant
            c == (ArithmeticContext {
                required: required@,
                inputs: inputs as nat,
                outputs: outputs as nat,
                discard: discard as nat,
                surplus,
            }),
            required@ > 0,
            three@ == 3,
            k <= max_threes as u64 + 1,
            power@ == pow(3, k as nat),
            gain == required_gain(c),
            0 <= gain <= u32::MAX,
            delta == outputs - inputs,
            feedback == (if two_three_smooth(required@) { 0int } else { 1int }),
            least_candidate(c, k as nat) == Ok::<Option<nat>, ()>(
                match best {
                    Some(b) => Some(b as nat),
                    None => None,
                },
            ),
            k > 0 ==> best is Some,
            needs_feedback == !two_three_smooth(required@),
            threes as nat == ceil_log(c.required, 3),
            !(pow(3, u32::MAX as nat) < c.required),
            max_threes as nat == (if threes as nat >= half_up(gain as nat) { threes as nat } else { half_up(gain as nat) }),
        decreases max_threes as u64 + 1 - k,
    {
        let step = candidate_at(required, &power, k, inputs, outputs, discard, surplus, needs_feedback);
        let total = match step {
            Some(total) => total,
            None => {
                proof { lemma_least_fails_from(c, k as nat, max_threes as nat + 1); }
                return Err(LowerBoundError::ArithmeticNodeCountOverflow);
            },
        };
        best = match best {
            Some(b) => if b <= total { Some(b) } else { Some(total) },
            None => Some(total),
        };
        proof {
            assert(pow(3, (k + 1) as nat) == 3 * pow(3, k as nat));
        }
        power = big_mul(&power, &three);
        k = k + 1;
    }
    match best {
        Some(b) => Ok(b),
        None => Err(LowerBoundError::ArithmeticNodeCountOverflow),
    }
}

/// Computes the terminal-count baseline of a prepared problem without
/// floating point: the splitter branch deficit, the merger deficit (only
/// without surplus, since positive discard partitions may move the branch
/// count), and the node count forced jointly by the source grain and port
/// balance, combined only by `max`.
pub fn baseline_lower_bounds(problem: &NormalizedProblem) -> (bounds: Result<BaselineLowerBounds, LowerBoundError>)
    requires
        normalized_wf(*problem),
    ensures
        bounds == baseline(*problem),
{
    if problem.inputs.len() > 0xffff_ffffusize || problem.outputs.len() > 0xffff_ffffusize {
        return Err(LowerBoundError::TerminalCountOverflow);
    }
    let inputs = problem.inputs.len() as u32;
    let outputs = problem.outputs.len() as u32;
    let discard = match minimum_discard_links(&problem.surplus, &problem.max_link_rate) {
        Ok(discard) => discard,
        Err(error) => return Err(error),
    };
    if outputs as u64 + discard as u64 > 0xffff_ffffu64 {
        return Err(LowerBoundError::TerminalCountOverflow);
    }
    let consumers = outputs + discard;
    let split = half_up_u32(if consumers > inputs { consumers - inputs } else { 0 });
    let has_surplus = !problem.surplus.numerator.is_zero();
    let merge = if has_surplus { 0 } else { half_up_u32(if inputs > outputs { inputs - outputs } else { 0 }) };
    let required = required_source_denominator(problem);
    let arithmetic = match arithmetic_node_lower_bound(&required, inputs, outputs, discard, has_surplus) {
        Ok(arithmetic) => arithmetic,
        Err(error) => return Err(error),
    };
    let first = if split >= merge { split } else { merge };
    let combined = if first >= arithmetic { first } else { arithmetic };
    Ok(
        BaselineLowerBounds {
            minimum_discard_links: discard,
            splitter_branch_deficit: split,
            merger_deficit: merge,
            arithmetic_nodes: arithmetic,
            combined_nodes: combined,
        },
    )
}


/// Past this many distinct subset sums of the inputs the merger subset check
/// is abandoned: running out of room is never an impossibility proof.
pub const MAX_SUBSET_STATES: usize = 100000;

/// The first necessary condition that one accounted profile fails.
#[derive(Clone, Debug, PartialEq, Eq)]
pub enum ProfileImpossibilityProof {
    /// Selected splitters cannot create enough net producer branches.
    SplitterBranchDeficit { required: u32, available: u32 },
    /// Selected mergers cannot consume enough net producer branches.
    MergerDeficit { required: u32, available: u32 },
    /// With no mergers, one output cannot lie on any legal acyclic splitter path.
    AcyclicSplitterDepth { output_index: u32 },
    /// With no splitters, one output is not a sum of any subset of input lines.
    AcyclicMergerSubset { output_index: u32 },
    /// A pure-merger output needs more branch reductions than the profile owns.
    AcyclicMergerDepth { output_index: u32, required_reductions: u32, available_reductions: u32 },
    /// The profile's splitter product is too small for the endpoint source grain.
    SplitterDeterminantMagnitude { required_denominator: BigNat, available_product: BigNat },
}

/// A profile impossibility proof, its numbers taken as naturals.
pub enum ImpossibilityView {
    SplitterBranchDeficit { required: nat, available: nat },
    MergerDeficit { required: nat, available: nat },
    AcyclicSplitterDepth { output_index: nat },
    AcyclicMergerSubset { output_index: nat },
    AcyclicMergerDepth { output_index: nat, required_reductions: nat, available_reductions: nat },
    SplitterDeterminantMagnitude { required_denominator: nat, available_product: nat },
}

impl View for ProfileImpossibilityProof {
    type V = ImpossibilityView;

    open spec fn view(&self) -> ImpossibilityView {
        match *self {
            ProfileImpossibilityProof::SplitterBranchDeficit { required, available } => {
                ImpossibilityView::SplitterBranchDeficit { required: required as nat, available: available as nat }
            },
            ProfileImpossibilityProof::MergerDeficit { required, available } => {
                ImpossibilityView::MergerDeficit { required: required as nat, available: available as nat }
            },
            ProfileImpossibilityProof::AcyclicSplitterDepth { output_index } => {
                ImpossibilityView::AcyclicSplitterDepth { output_index: output_index as nat }
            },
            ProfileImpossibilityProof::AcyclicMergerSubset { output_index } => {
                ImpossibilityView::AcyclicMergerSubset { output_index: output_index as nat }
            },
            ProfileImpossibilityProof::AcyclicMergerDepth {
                output_index,
                required_reductions,
                available_reductions,
            } => ImpossibilityView::AcyclicMergerDepth {
                output_index: output_index as nat,
                required_reductions: required_reductions as nat,
                available_reductions: available_reductions as nat,
            },
            ProfileImpossibilityProof::SplitterDeterminantMagnitude { required_denominator, available_product } => {
                ImpossibilityView::SplitterDeterminantMagnitude {
                    required_denominator: required_denominator@,
                    available_product: available_product@,
                }
            },
        }
    }
}

/// How many times `p` divides `v`.
pub open spec fn factor_count(v: nat, p: nat) -> nat
    decreases v,
{
    if p >= 2 && v > 0 && v % p == 0 {
        proof {
            vstd::arithmetic::div_mod::lemma_div_decreases(v as int, p as int);
        }
        1 + factor_count(v / p, p)
    } else {
        0
    }
}

/// An acyclic path of at most `s2` 2-way and `s3` 3-way splitters carries
/// `output` out of `input`: the ratio `input / output` is a positive integer
/// `2^a * 3^b` with `a <= s2` and `b <= s3`.
pub open spec fn splitter_path(input: (nat, nat), output: (nat, nat), s2: nat, s3: nat) -> bool {
    let num = input.0 * output.1;
    let den = output.0 * input.1;
    &&& den > 0
    &&& num > 0
    &&& num % den == 0
    &&& two_three_smooth(num / den)
    &&& factor_count(num / den, 2) <= s2
    &&& factor_count(strip(num / den, 2), 3) <= s3
}

/// No input of `p` reaches output `j` along a splitter path of `profile`.
pub open spec fn unreachable_output(p: NormalizedProblem, profile: NodeProfile, j: int) -> bool {
    forall|i: int|
        0 <= i < p.inputs@.len() ==> !splitter_path(
            fraction_of(#[trigger] p.inputs@[i]),
            fraction_of(p.outputs@[j]),
            profile.splitter2 as nat,
            profile.splitter3 as nat,
        )
}

/// The fraction of a rate.
pub open spec fn fraction_of(rate: Rate) -> (nat, nat) {
    (rate@.1, rate@.2)
}

/// The product of some denominators.
pub open spec fn denominator_product(rates: Seq<Rate>) -> nat
    decreases rates.len(),
{
    if rates.len() == 0 {
        1
    } else {
        denominator_product(rates.drop_last()) * rates.last()@.2
    }
}

/// The inputs as integers over the common denominator `denominator_product`.
pub open spec fn input_weights(p: NormalizedProblem) -> Seq<nat> {
    let l = denominator_product(p.inputs@);
    Seq::new(p.inputs@.len(), |i: int| p.inputs@[i]@.1 * (l / p.inputs@[i]@.2))
}

/// The fewest of the weights `ws` that sum to `s`, if any subset does.
pub open spec fn fewest_summands(ws: Seq<nat>, s: nat) -> Option<nat>
    decreases ws.len(),
{
    if ws.len() == 0 {
        if s == 0 {
            Some(0)
        } else {
            None
        }
    } else {
        let w = ws.last();
        let keep = fewest_summands(ws.drop_last(), s);
        let take = if s >= w {
            match fewest_summands(ws.drop_last(), (s - w) as nat) {
                Some(c) => Some(c + 1),
                None => None,
            }
        } else {
            None
        };
        min_option(keep, take)
    }
}

/// The smaller of two optional counts, either when only one is present.
pub open spec fn min_option(a: Option<nat>, b: Option<nat>) -> Option<nat> {
    match (a, b) {
        (Some(x), Some(y)) => Some(if x <= y { x } else { y }),
        (Some(x), None) => Some(x),
        (None, y) => y,
    }
}

/// The distinct subset sums of `ws`.
pub open spec fn subset_sums(ws: Seq<nat>) -> Set<nat> {
    Set::new(|s: nat| fewest_summands(ws, s) is Some)
}

/// Some prefix of the weights has more distinct subset sums than the bound.
pub open spec fn subset_states_overflow(ws: Seq<nat>) -> bool {
    exists|i: int| 1 <= i <= ws.len() && (#[trigger] subset_sums(ws.take(i))).len() > MAX_SUBSET_STATES
}

/// Output `j` as an integer over the inputs' common denominator, if it is one.
pub open spec fn output_weight(p: NormalizedProblem, j: int) -> Option<nat> {
    let l = denominator_product(p.inputs@);
    let n = p.outputs@[j]@.1 * l;
    let d = p.outputs@[j]@.2;
    if n % d == 0 {
        Some(n / d)
    } else {
        None
    }
}

/// The fewest inputs of `p` that sum to output `j`, if any subset does.
pub open spec fn output_summands(p: NormalizedProblem, j: int) -> Option<nat> {
    match output_weight(p, j) {
        Some(t) => fewest_summands(input_weights(p), t),
        None => None,
    }
}

/// With `available` merger reductions, output `j` of a pure-merger profile is
/// no subset sum of the inputs, or needs more reductions than that.
pub open spec fn merger_blocked(p: NormalizedProblem, available: nat, j: int) -> bool {
    match output_summands(p, j) {
        None => true,
        Some(c) => available < saturating(c as int, 1),
    }
}

/// The proof for the first output of a pure-merger profile that is blocked.
pub open spec fn merger_proof(p: NormalizedProblem, available: nat, j: int) -> ImpossibilityView {
    match output_summands(p, j) {
        None => ImpossibilityView::AcyclicMergerSubset { output_index: j as nat },
        Some(c) => ImpossibilityView::AcyclicMergerDepth {
            output_index: j as nat,
            required_reductions: saturating(c as int, 1),
            available_reductions: available,
        },
    }
}

/// `j` is the first output that no input reaches along a splitter path.
pub open spec fn first_unreachable(p: NormalizedProblem, profile: NodeProfile, j: int) -> bool {
    &&& 0 <= j < p.outputs@.len()
    &&& unreachable_output(p, profile, j)
    &&& forall|k: int| 0 <= k < j ==> !#[trigger] unreachable_output(p, profile, k)
}

/// `j` is the first output that is blocked for a pure-merger profile.
pub open spec fn first_blocked(p: NormalizedProblem, available: nat, j: int) -> bool {
    &&& 0 <= j < p.outputs@.len()
    &&& merger_blocked(p, available, j)
    &&& forall|k: int| 0 <= k < j ==> !#[trigger] merger_blocked(p, available, k)
}

/// Branch capacity of a profile's splitters: one net branch per 2-way, two per 3-way.
pub open spec fn split_capacity(profile: NodeProfile) -> nat {
    (profile.splitter2 + 2 * profile.splitter3) as nat
}

/// Reduction capacity of a profile's mergers: one per 2-way, two per 3-way.
pub open spec fn merge_capacity(profile: NodeProfile) -> nat {
    (profile.merger2 + 2 * profile.merger3) as nat
}

/// The counts of `impossibility` fit `u32`, and the profile's splitters and
/// mergers cover the terminals' net branch and reduction deficits.
pub open spec fn counts_pass(p: NormalizedProblem, profile: NodeProfile, accounting: ProfileLinkAccounting) -> bool {
    let ins = p.inputs@.len() as int;
    let outs = p.outputs@.len() as int;
    let terminals = outs + accounting.discard_link_count;
    &&& ins <= u32::MAX
    &&& outs <= u32::MAX
    &&& terminals <= u32::MAX
    &&& split_capacity(profile) <= u32::MAX
    &&& split_capacity(profile) >= saturating(terminals, ins)
    &&& merge_capacity(profile) <= u32::MAX
    &&& merge_capacity(profile) >= saturating(ins, terminals)
}

/// An optional impossibility proof, its numbers taken as naturals.
pub open spec fn proof_view(reason: Option<ProfileImpossibilityProof>) -> Option<ImpossibilityView> {
    match reason {
        Some(found) => Some(found@),
        None => None,
    }
}

/// The first exact necessary condition that an accounted profile fails, in
/// the order: splitter branches, merger reductions, pure-splitter paths,
/// pure-merger subset sums, splitter determinant magnitude. A count that does
/// not fit `u32`, or a subset search that runs past its bound, gives no proof.
pub open spec fn impossibility(
    p: NormalizedProblem,
    profile: NodeProfile,
    accounting: ProfileLinkAccounting,
) -> Option<ImpossibilityView> {
    let ins = p.inputs@.len() as int;
    let outs = p.outputs@.len() as int;
    let terminals = outs + accounting.discard_link_count;
    let required_split = saturating(terminals, ins);
    let required_merge = saturating(ins, terminals);
    let product = pow(2, profile.splitter2 as nat) * pow(3, profile.splitter3 as nat);
    if ins > u32::MAX || outs > u32::MAX || terminals > u32::MAX || split_capacity(profile) > u32::MAX {
        None
    } else if split_capacity(profile) < required_split {
        Some(ImpossibilityView::SplitterBranchDeficit { required: required_split, available: split_capacity(profile) })
    } else if merge_capacity(profile) > u32::MAX {
        None
    } else if merge_capacity(profile) < required_merge {
        Some(ImpossibilityView::MergerDeficit { required: required_merge, available: merge_capacity(profile) })
    } else if profile.merger2 == 0 && profile.merger3 == 0 && exists|j: int| first_unreachable(p, profile, j) {
        Some(ImpossibilityView::AcyclicSplitterDepth { output_index: (choose|j: int| first_unreachable(p, profile, j)) as nat })
    } else if profile.splitter2 == 0 && profile.splitter3 == 0 && subset_states_overflow(input_weights(p)) {
        None
    } else if profile.splitter2 == 0 && profile.splitter3 == 0 && exists|j: int| first_blocked(p, merge_capacity(profile), j) {
        Some(merger_proof(p, merge_capacity(profile), choose|j: int| first_blocked(p, merge_capacity(profile), j)))
    } else if product < required_denominator(p) {
        Some(ImpossibilityView::SplitterDeterminantMagnitude {
            required_denominator: required_denominator(p),
            available_product: product,
        })
    } else {
        None
    }
}

/// Whether two numbers are equal.
fn big_eq(a: &BigNat, b: &BigNat) -> (equal: bool)
    ensures
        equal == (a@ == b@),
{
    !big_lt(a, b) && !big_lt(b, a)
}

/// Dividing out one factor `p` keeps the stripped value and counts one factor.
proof fn lemma_strip_step(v: nat, p: nat)
    requires
        p >= 2,
        v > 0,
        v % p == 0,
    ensures
        v / p > 0,
        strip(v, p) == strip(v / p, p),
        factor_count(v, p) == 1 + factor_count(v / p, p),
{
    assert(v / p > 0) by (nonlinear_arith)
        requires
            v > 0,
            p >= 2,
            v % p == 0,
    ;
}

/// Whether an acyclic splitter path of at most `splitter2` 2-way and
/// `splitter3` 3-way splitters carries `output` out of `input`.
pub fn splitter_path_can_produce(input: &Rate, output: &Rate, splitter2: u32, splitter3: u32) -> (can: bool)
    ensures
        can == splitter_path(fraction_of(*input), fraction_of(*output), splitter2 as nat, splitter3 as nat),
{
    let num = big_mul(&input.numerator, &output.denominator);
    let den = big_mul(&output.numerator, &input.denominator);
    if den.is_zero() || num.is_zero() {
        return false;
    }
    if !big_rem(&num, &den).is_zero() {
        return false;
    }
    let mut remaining = big_div(&num, &den);
    let ghost q = remaining@;
    assert(q > 0) by (nonlinear_arith)
        requires
            num@ > 0,
            den@ > 0,
            num@ % den@ == 0,
            q == num@ / den@,
    ;
    let ghost reachable = splitter_path(fraction_of(*input), fraction_of(*output), splitter2 as nat, splitter3 as nat);
    assert(reachable == (two_three_smooth(q) && factor_count(q, 2) <= splitter2 && factor_count(strip(q, 2), 3)
        <= splitter3));
    let two = BigNat::small(2);
    let mut twos: u32 = 0;
    while big_rem(&remaining, &two).is_zero()
        invariant
            reachable == (two_three_smooth(q) && factor_count(q, 2) <= splitter2 && factor_count(strip(q, 2), 3)
                <= splitter3),
            reachable == splitter_path(fraction_of(*input), fraction_of(*output), splitter2 as nat, splitter3 as nat),
            two@ == 2,
            remaining@ > 0,
            strip(remaining@, 2) == strip(q, 2),
            twos + factor_count(remaining@, 2) == factor_count(q, 2),
        decreases remaining@,
    {
        proof {
            lemma_strip_step(remaining@, 2);
            vstd::arithmetic::div_mod::lemma_div_decreases(remaining@ as int, 2);
        }
        let ghost before = remaining@;
        remaining = big_div(&remaining, &two);
        if twos == 0xffff_ffffu32 {
            assert(factor_count(before, 2) >= 1);
            assert(factor_count(q, 2) > splitter2);
            return false;
        }
        twos = twos + 1;
    }
    let ghost stripped = remaining@;
    assert(stripped == strip(q, 2));
    let three = BigNat::small(3);
    let mut threes: u32 = 0;
    while big_rem(&remaining, &three).is_zero()
        invariant
            reachable == (two_three_smooth(q) && factor_count(q, 2) <= splitter2 && factor_count(strip(q, 2), 3)
                <= splitter3),
            reachable == splitter_path(fraction_of(*input), fraction_of(*output), splitter2 as nat, splitter3 as nat),
            three@ == 3,
            remaining@ > 0,
            strip(remaining@, 3) == strip(stripped, 3),
            threes + factor_count(remaining@, 3) == factor_count(stripped, 3),
            twos == factor_count(q, 2),
            stripped == strip(q, 2),
        decreases remaining@,
    {
        proof {
            lemma_strip_step(remaining@, 3);
            vstd::arithmetic::div_mod::lemma_div_decreases(remaining@ as int, 3);
        }
        let ghost before = remaining@;
        remaining = big_div(&remaining, &three);
        if threes == 0xffff_ffffu32 {
            assert(factor_count(before, 3) >= 1);
            assert(factor_count(stripped, 3) > splitter3);
            return false;
        }
        threes = threes + 1;
    }
    assert(strip(remaining@, 3) == remaining@);
    big_eq(&remaining, &BigNat::small(1)) && twos <= splitter2 && threes <= splitter3
}

/// `2^splitter2 * 3^splitter3`, the largest determinant a profile's splitters reach.
fn splitter_product(splitter2: u32, splitter3: u32) -> (product: BigNat)
    ensures
        product@ == pow(2, splitter2 as nat) * pow(3, splitter3 as nat),
{
    let two = BigNat::small(2);
    let three = BigNat::small(3);
    let mut product = BigNat::small(1);
    let mut i: u32 = 0;
    while i < splitter2
        invariant
            i <= splitter2,
            two@ == 2,
            product@ == pow(2, i as nat),
        decreases splitter2 - i,
    {
        proof {
            assert(pow(2, (i + 1) as nat) == 2 * pow(2, i as nat));
        }
        product = big_mul(&product, &two);
        i = i + 1;
    }
    let ghost twos = product@;
    let mut k: u32 = 0;
    while k < splitter3
        invariant
            k <= splitter3,
            three@ == 3,
            twos == pow(2, splitter2 as nat),
            product@ == twos * pow(3, k as nat),
        decreases splitter3 - k,
    {
        proof {
            assert(pow(3, (k + 1) as nat) == 3 * pow(3, k as nat));
            let t = twos;
            let c = pow(3, k as nat);
            assert(t * c * 3 == t * (3 * c)) by (nonlinear_arith);
        }
        product = big_mul(&product, &three);
        k = k + 1;
    }
    product
}

/// Some numbers, as naturals.
pub open spec fn key_views(keys: Seq<BigNat>) -> Seq<nat> {
    keys.map_values(|b: BigNat| b@)
}

/// `keys` lists each subset sum of `ws` once, and `counts` beside it the
/// fewest weights that reach it.
pub open spec fn sum_states(ws: Seq<nat>, keys: Seq<BigNat>, counts: Seq<u32>) -> bool {
    &&& keys.len() == counts.len()
    &&& key_views(keys).no_duplicates()
    &&& forall|k: int| 0 <= k < keys.len() ==> fewest_summands(ws, (#[trigger] keys[k])@) == Some(counts[k] as nat)
    &&& forall|s: nat| #[trigger] fewest_summands(ws, s) is Some ==> key_views(keys).contains(s)
}

/// The count a sum gains from the first `j` old sums shifted by `w`.
spec fn shifted_count(old: Seq<nat>, prev: Seq<nat>, w: nat, j: int, s: nat) -> Option<nat> {
    if s >= w && old.take(j).contains((s - w) as nat) {
        match fewest_summands(prev, (s - w) as nat) {
            Some(c) => Some(c + 1),
            None => None,
        }
    } else {
        None
    }
}

/// The number of states is the number of distinct subset sums.
proof fn lemma_state_count(ws: Seq<nat>, keys: Seq<BigNat>, counts: Seq<u32>)
    requires
        sum_states(ws, keys, counts),
    ensures
        subset_sums(ws) == key_views(keys).to_set(),
        subset_sums(ws).len() == keys.len(),
{
    assert forall|s: nat| subset_sums(ws).contains(s) <==> key_views(keys).to_set().contains(s) by {
        if key_views(keys).contains(s) {
            let k = choose|k: int| 0 <= k < key_views(keys).len() && key_views(keys)[k] == s;
            assert(fewest_summands(ws, keys[k]@) == Some(counts[k] as nat));
        }
    }
    assert(subset_sums(ws) =~= key_views(keys).to_set());
    key_views(keys).unique_seq_to_set();
}

/// Where `key` stands among `keys`, if it does.
fn find_key(keys: &Vec<BigNat>, key: &BigNat) -> (at: Option<usize>)
    ensures
        at is None <==> !key_views(keys@).contains(key@),
        at matches Some(f) ==> f < keys@.len() && keys@[f as int]@ == key@,
{
    let mut k: usize = 0;
    while k < keys.len()
        invariant
            k <= keys@.len(),
            forall|u: int| 0 <= u < k ==> keys@[u]@ != key@,
        decreases keys@.len() - k,
    {
        if big_eq(&keys[k], key) {
            assert(key_views(keys@)[k as int] == key@);
            return Some(k);
        }
        k = k + 1;
    }
    proof {
        if key_views(keys@).contains(key@) {
            let u = choose|u: int| 0 <= u < key_views(keys@).len() && key_views(keys@)[u] == key@;
            assert(keys@[u]@ == key@);
        }
    }
    None
}

/// Every distinct subset sum of `weights` with the fewest weights reaching
/// it, or nothing once some prefix of the weights has more sums than the bound.
#[verifier::spinoff_prover]
#[verifier::rlimit(50)]
fn subset_sum_states(weights: &Vec<BigNat>) -> (states: Option<(Vec<BigNat>, Vec<u32>)>)
    requires
        weights@.len() <= u32::MAX,
    ensures
        states is None <==> subset_states_overflow(key_views(weights@)),
        states matches Some(found) ==> sum_states(key_views(weights@), found.0@, found.1@),
{
    let ghost ws = key_views(weights@);
    let mut keys: Vec<BigNat> = Vec::new();
    keys.push(zero());
    let mut counts: Vec<u32> = Vec::new();
    counts.push(0);
    proof {
        assert(ws.take(0) =~= Seq::<nat>::empty());
        assert(key_views(keys@) =~= seq![0nat]);
        assert forall|s: nat| #[trigger] fewest_summands(ws.take(0), s) is Some implies key_views(keys@).contains(s) by {
            assert(key_views(keys@)[0] == 0);
        }
    }
    let mut i: usize = 0;
    while i < weights.len()
        invariant
            i <= ws.len(),
            ws == key_views(weights@),
            ws.len() <= u32::MAX,
            sum_states(ws.take(i as int), keys@, counts@),
            forall|k: int| 0 <= k < counts@.len() ==> counts@[k] <= i,
            forall|m: int| 1 <= m <= i ==> (#[trigger] subset_sums(ws.take(m))).len() <= MAX_SUBSET_STATES,
        decreases ws.len() - i,
    {
        let w = &weights[i];
        let ghost prev = ws.take(i as int);
        let ghost ok = key_views(keys@);
        let ghost oc = counts@;
        let old_len = keys.len();
        let mut add_keys: Vec<BigNat> = Vec::new();
        let mut add_counts: Vec<u32> = Vec::new();
        let mut t: usize = 0;
        while t < old_len
            invariant
                old_len == keys@.len(),
                keys@.len() == counts@.len(),
                t <= old_len,
                add_keys@.len() == t,
                add_counts@.len() == t,
                i < ws.len(),
                ws.len() <= u32::MAX,
                forall|k: int| 0 <= k < counts@.len() ==> counts@[k] <= i,
                forall|u: int|
                    0 <= u < t ==> (#[trigger] add_keys@[u])@ == keys@[u]@ + w@ && add_counts@[u] == counts@[u]
                        + 1,
            decreases old_len - t,
        {
            add_keys.push(big_add(&keys[t], w));
            add_counts.push(counts[t] + 1);
            t = t + 1;
        }
        let ghost adds = add_keys@;
        let ghost add_totals = add_counts@;
        let mut j: usize = 0;
        while j < add_keys.len()
            invariant
                add_keys@ == adds,
                add_counts@ == add_totals,
                add_keys@.len() == old_len,
                add_counts@.len() == old_len,
                ok.len() == old_len,
                oc.len() == old_len,
                w@ == ws[i as int],
                forall|u: int|
                    0 <= u < old_len ==> (#[trigger] adds[u])@ == ok[u] + w@ && add_totals[u] == oc[u] + 1,
                ok.no_duplicates(),
                forall|u: int| 0 <= u < old_len ==> fewest_summands(prev, #[trigger] ok[u]) == Some(oc[u] as nat),
                forall|s: nat| #[trigger] fewest_summands(prev, s) is Some ==> ok.contains(s),
                forall|u: int| 0 <= u < old_len ==> oc[u] <= i,
                i < ws.len(),
                ws.len() <= u32::MAX,
                j <= old_len,
                keys@.len() == counts@.len(),
                key_views(keys@).no_duplicates(),
                forall|s: nat|
                    #[trigger] key_views(keys@).contains(s) <==> (fewest_summands(prev, s) is Some || shifted_count(
                        ok,
                        prev,
                        w@,
                        j as int,
                        s,
                    ) is Some),
                forall|k: int|
                    0 <= k < keys@.len() ==> min_option(
                        fewest_summands(prev, (#[trigger] keys@[k])@),
                        shifted_count(ok, prev, w@, j as int, keys@[k]@),
                    ) == Some(counts@[k] as nat),
                forall|k: int| 0 <= k < counts@.len() ==> counts@[k] <= i + 1,
            decreases old_len - j,
        {
            let ghost sum = adds[j as int]@;
            let ghost before_keys = keys@;
            let ghost before_counts = counts@;
            proof {
                assert(ok.take(j + 1) =~= ok.take(j as int).push(ok[j as int]));
                assert(!ok.take(j as int).contains(ok[j as int])) by {
                    if ok.take(j as int).contains(ok[j as int]) {
                        let u = choose|u: int| 0 <= u < j && ok.take(j as int)[u] == ok[j as int];
                        assert(ok[u] == ok[j as int]);
                    }
                }
                assert(sum >= w@ && (sum - w@) as nat == ok[j as int]);
                assert forall|s: nat| s != sum implies shifted_count(ok, prev, w@, j + 1, s) == shifted_count(
                    ok,
                    prev,
                    w@,
                    j as int,
                    s,
                ) by {
                    if s >= w@ {
                        assert(ok.take(j + 1).contains((s - w@) as nat) == ok.take(j as int).contains((s - w@) as nat));
                    }
                }
                assert(ok.take(j + 1).contains(ok[j as int])) by {
                    assert(ok.take(j + 1)[j as int] == ok[j as int]);
                }
                assert(shifted_count(ok, prev, w@, j + 1, sum) == Some((oc[j as int] + 1) as nat));
                assert(shifted_count(ok, prev, w@, j as int, sum) is None);
            }
            match find_key(&keys, &add_keys[j]) {
                Some(f) => {
                    if add_counts[j] < counts[f] {
                        counts.set(f, add_counts[j]);
                    }
                    proof {
                        assert(keys@[f as int]@ == sum);
                        assert(fewest_summands(prev, sum) is Some) by {
                            assert(key_views(keys@)[f as int] == sum);
                        }
                        assert forall|k: int| 0 <= k < keys@.len() implies min_option(
                            fewest_summands(prev, (#[trigger] keys@[k])@),
                            shifted_count(ok, prev, w@, j + 1, keys@[k]@),
                        ) == Some(counts@[k] as nat) by {
                            if k != f {
                                assert(key_views(before_keys)[k] != key_views(before_keys)[f as int]);
                            }
                        }
                    }
                },
                None => {
                    keys.push(add_keys[j].copied());
                    counts.push(add_counts[j]);
                    proof {
                        assert(key_views(keys@) =~= key_views(before_keys).push(sum));
                        assert(fewest_summands(prev, sum) is None);
                        assert forall|k: int| 0 <= k < keys@.len() implies min_option(
                            fewest_summands(prev, (#[trigger] keys@[k])@),
                            shifted_count(ok, prev, w@, j + 1, keys@[k]@),
                        ) == Some(counts@[k] as nat) by {
                            if k < before_keys.len() {
                                assert(key_views(before_keys).contains(keys@[k]@)) by {
                                    assert(key_views(before_keys)[k] == keys@[k]@);
                                }
                            }
                        }
                    }
                },
            }
            proof {
                assert forall|s: nat|
                    #[trigger] key_views(keys@).contains(s) <==> (fewest_summands(prev, s) is Some || shifted_count(
                        ok,
                        prev,
                        w@,
                        j + 1,
                        s,
                    ) is Some) by {
                    if s != sum {
                        if key_views(keys@).contains(s) {
                            let k = choose|k: int| 0 <= k < key_views(keys@).len() && key_views(keys@)[k] == s;
                            if k < before_keys.len() {
                                assert(key_views(before_keys)[k] == s);
                            }
                        }
                        if key_views(before_keys).contains(s) {
                            let k = choose|k: int|
                                0 <= k < key_views(before_keys).len() && key_views(before_keys)[k] == s;
                            assert(key_views(keys@)[k] == s);
                        }
                    } else {
                        assert(key_views(keys@).contains(sum)) by {
                            let k = if key_views(before_keys).contains(sum) {
                                choose|k: int| 0 <= k < key_views(before_keys).len() && key_views(before_keys)[k] == sum
                            } else {
                                before_keys.len() as int
                            };
                            assert(key_views(keys@)[k] == sum);
                        }
                    }
                }
            }
            j = j + 1;
        }
        let ghost next = ws.take(i + 1);
        proof {
            assert(next.drop_last() =~= prev);
            assert(next.last() == w@);
            assert(ok.take(old_len as int) =~= ok);
            assert forall|s: nat| shifted_count(ok, prev, w@, old_len as int, s) == (if s >= w@ {
                match fewest_summands(prev, (s - w@) as nat) {
                    Some(c) => Some(c + 1),
                    None => None,
                }
            } else {
                None
            }) by {
                if s >= w@ && fewest_summands(prev, (s - w@) as nat) is Some {
                    assert(ok.contains((s - w@) as nat));
                }
            }
            assert forall|k: int| 0 <= k < keys@.len() implies fewest_summands(next, (#[trigger] keys@[k])@) == Some(
                counts@[k] as nat,
            ) by {
                assert(min_option(fewest_summands(prev, keys@[k]@), shifted_count(ok, prev, w@, old_len as int, keys@[k]@))
                    == Some(counts@[k] as nat));
            }
            assert forall|s: nat| #[trigger] fewest_summands(next, s) is Some implies key_views(keys@).contains(s) by {
                assert(fewest_summands(next, s) == min_option(fewest_summands(prev, s), shifted_count(ok, prev, w@, old_len as int, s)));
            }
            lemma_state_count(next, keys@, counts@);
        }
        if keys.len() > MAX_SUBSET_STATES {
            proof {
                assert(subset_sums(ws.take(i + 1)).len() > MAX_SUBSET_STATES);
            }
            return None;
        }
        i = i + 1;
    }
    proof {
        assert(ws.take(ws.len() as int) =~= ws);
        if subset_states_overflow(ws) {
            let m = choose|m: int| 1 <= m <= ws.len() && (#[trigger] subset_sums(ws.take(m))).len() > MAX_SUBSET_STATES;
            assert(subset_sums(ws.take(m)).len() <= MAX_SUBSET_STATES);
        }
    }
    Some((keys, counts))
}

/// The inputs as integers over the product of their denominators, with that product.
fn input_weights_of(p: &NormalizedProblem) -> (weights: (Vec<BigNat>, BigNat))
    requires
        normalized_wf(*p),
    ensures
        key_views(weights.0@) == input_weights(*p),
        weights.1@ == denominator_product(p.inputs@),
{
    let mut l = BigNat::small(1);
    let mut i: usize = 0;
    while i < p.inputs.len()
        invariant
            i <= p.inputs@.len(),
            l@ == denominator_product(p.inputs@.take(i as int)),
        decreases p.inputs@.len() - i,
    {
        proof {
            assert(p.inputs@.take(i + 1).drop_last() =~= p.inputs@.take(i as int));
        }
        l = big_mul(&l, &p.inputs[i].denominator);
        i = i + 1;
    }
    proof {
        assert(p.inputs@.take(p.inputs@.len() as int) =~= p.inputs@);
    }
    let mut weights: Vec<BigNat> = Vec::new();
    let mut k: usize = 0;
    while k < p.inputs.len()
        invariant
            normalized_wf(*p),
            k <= p.inputs@.len(),
            l@ == denominator_product(p.inputs@),
            key_views(weights@) == input_weights(*p).take(k as int),
        decreases p.inputs@.len() - k,
    {
        assert(p.inputs@[k as int]@.2 > 0);
        let share = big_div(&l, &p.inputs[k].denominator);
        let ghost before = weights@;
        weights.push(big_mul(&p.inputs[k].numerator, &share));
        k = k + 1;
        proof {
            assert(key_views(weights@) =~= key_views(before).push(weights@[k - 1]@));
            assert(key_views(weights@) =~= input_weights(*p).take(k as int));
        }
    }
    proof {
        assert(input_weights(*p).take(p.inputs@.len() as int) =~= input_weights(*p));
    }
    (weights, l)
}

/// The fewest inputs that sum to output `j`, read from the subset-sum states.
fn output_summands_in(
    p: &NormalizedProblem,
    j: usize,
    l: &BigNat,
    keys: &Vec<BigNat>,
    counts: &Vec<u32>,
) -> (count: Option<u32>)
    requires
        normalized_wf(*p),
        j < p.outputs@.len(),
        l@ == denominator_product(p.inputs@),
        sum_states(input_weights(*p), keys@, counts@),
    ensures
        count matches Some(c) ==> output_summands(*p, j as int) == Some(c as nat),
        count is None ==> output_summands(*p, j as int) is None,
{
    let output = &p.outputs[j];
    assert(output@.2 > 0);
    let scaled = big_mul(&output.numerator, l);
    if !big_rem(&scaled, &output.denominator).is_zero() {
        return None;
    }
    let target = big_div(&scaled, &output.denominator);
    match find_key(keys, &target) {
        Some(f) => Some(counts[f]),
        None => {
            proof {
                if fewest_summands(input_weights(*p), target@) is Some {
                    assert(key_views(keys@).contains(target@));
                }
            }
            None
        },
    }
}

/// Returns the first exact necessary condition that one accounted profile
/// fails, or nothing when it passes them all.
///
/// The path and subset checks are restricted to pure splitter or pure merger
/// profiles. Such a positive-flow network cannot contain a live directed
/// cycle: a splitter-only cycle has multiplicative gain below one and no
/// ingress, while a merger-only cycle either has no egress or requires
/// `x = x + p` for positive `p`. Its output equations are therefore acyclic
/// path division or subset addition respectively.
pub fn profile_impossibility(
    problem: &NormalizedProblem,
    profile: NodeProfile,
    accounting: ProfileLinkAccounting,
) -> (reason: Option<ProfileImpossibilityProof>)
    requires
        normalized_wf(*problem),
    ensures
        proof_view(reason) == impossibility(*problem, profile, accounting),
{
    let ghost p = *problem;
    if problem.inputs.len() > 0xffff_ffffusize || problem.outputs.len() > 0xffff_ffffusize {
        return None;
    }
    let input_count = problem.inputs.len() as u32;
    let output_count = problem.outputs.len() as u32;
    if output_count as u64 + accounting.discard_link_count as u64 > 0xffff_ffffu64 {
        return None;
    }
    let terminals = output_count + accounting.discard_link_count;
    let required_split = if terminals > input_count {
        terminals - input_count
    } else {
        0
    };
    let split = profile.splitter2 as u64 + 2 * (profile.splitter3 as u64);
    if split > 0xffff_ffffu64 {
        return None;
    }
    if (split as u32) < required_split {
        return Some(ProfileImpossibilityProof::SplitterBranchDeficit { required: required_split, available: split as u32 });
    }
    let required_merge = if input_count > terminals {
        input_count - terminals
    } else {
        0
    };
    let merge = profile.merger2 as u64 + 2 * (profile.merger3 as u64);
    if merge > 0xffff_ffffu64 {
        return None;
    }
    let available_merge = merge as u32;
    if available_merge < required_merge {
        return Some(ProfileImpossibilityProof::MergerDeficit { required: required_merge, available: available_merge });
    }
    assert(counts_pass(p, profile, accounting));
    if profile.merger2 == 0 && profile.merger3 == 0 {
        let mut j: usize = 0;
        while j < problem.outputs.len()
            invariant
                j <= p.outputs@.len(),
                p.outputs@.len() <= u32::MAX,
                p == *problem,
                counts_pass(p, profile, accounting),
                profile.merger2 == 0 && profile.merger3 == 0,
                forall|k: int| 0 <= k < j ==> !#[trigger] unreachable_output(p, profile, k),
            decreases p.outputs@.len() - j,
        {
            let mut reached = false;
            let mut i: usize = 0;
            while i < problem.inputs.len() && !reached
                invariant
                    i <= p.inputs@.len(),
                    j < p.outputs@.len(),
                    p == *problem,
                    reached ==> !unreachable_output(p, profile, j as int),
                    !reached ==> forall|u: int| 0 <= u < i ==> !splitter_path(
                        fraction_of(#[trigger] p.inputs@[u]),
                        fraction_of(p.outputs@[j as int]),
                        profile.splitter2 as nat,
                        profile.splitter3 as nat,
                    ),
                decreases p.inputs@.len() - i + (if reached {
                    0int
                } else {
                    1int
                }),
            {
                if splitter_path_can_produce(&problem.inputs[i], &problem.outputs[j], profile.splitter2, profile.splitter3) {
                    reached = true;
                } else {
                    i = i + 1;
                }
            }
            if !reached {
                proof {
                    assert(first_unreachable(p, profile, j as int));
                    let c = choose|j: int| first_unreachable(p, profile, j);
                    if c < j {
                        assert(!unreachable_output(p, profile, c));
                    }
                    if c > j {
                        assert(!unreachable_output(p, profile, j as int));
                    }
                }
                return Some(ProfileImpossibilityProof::AcyclicSplitterDepth { output_index: j as u32 });
            }
            j = j + 1;
        }
        proof {
            if exists|c: int| first_unreachable(p, profile, c) {
                let c = choose|c: int| first_unreachable(p, profile, c);
                assert(!unreachable_output(p, profile, c));
            }
        }
    }
    if profile.splitter2 == 0 && profile.splitter3 == 0 {
        let (weights, l) = input_weights_of(problem);
        let (keys, counts) = match subset_sum_states(&weights) {
            Some(found) => found,
            None => {
                return None;
            },
        };
        let mut j: usize = 0;
        while j < problem.outputs.len()
            invariant
                j <= p.outputs@.len(),
                p.outputs@.len() <= u32::MAX,
                p == *problem,
                counts_pass(p, profile, accounting),
                profile.merger2 == 0 && profile.merger3 == 0 ==> !exists|c: int| first_unreachable(p, profile, c),
                !subset_states_overflow(input_weights(p)),
                profile.splitter2 == 0 && profile.splitter3 == 0,
                normalized_wf(p),
                l@ == denominator_product(p.inputs@),
                sum_states(input_weights(p), keys@, counts@),
                available_merge == merge_capacity(profile),
                forall|k: int| 0 <= k < j ==> !#[trigger] merger_blocked(p, merge_capacity(profile), k),
            decreases p.outputs@.len() - j,
        {
            let summands = output_summands_in(problem, j, &l, &keys, &counts);
            let found = match summands {
                None => Some(ProfileImpossibilityProof::AcyclicMergerSubset { output_index: j as u32 }),
                Some(c) => {
                    let required = if c > 1 {
                        c - 1
                    } else {
                        0
                    };
                    if available_merge < required {
                        Some(ProfileImpossibilityProof::AcyclicMergerDepth {
                            output_index: j as u32,
                            required_reductions: required,
                            available_reductions: available_merge,
                        })
                    } else {
                        None
                    }
                },
            };
            if found.is_some() {
                proof {
                    assert(first_blocked(p, merge_capacity(profile), j as int));
                    let c = choose|j: int| first_blocked(p, merge_capacity(profile), j);
                    if c < j {
                        assert(!merger_blocked(p, merge_capacity(profile), c));
                    }
                    if c > j {
                        assert(!merger_blocked(p, merge_capacity(profile), j as int));
                    }
                }
                return found;
            }
            j = j + 1;
        }
        proof {
            if exists|c: int| first_blocked(p, merge_capacity(profile), c) {
                let c = choose|c: int| first_blocked(p, merge_capacity(profile), c);
                assert(!merger_blocked(p, merge_capacity(profile), c));
            }
        }
    }
    let required_denominator = required_source_denominator(problem);
    let available_product = splitter_product(profile.splitter2, profile.splitter3);
    if big_lt(&available_product, &required_denominator) {
        Some(ProfileImpossibilityProof::SplitterDeterminantMagnitude { required_denominator, available_product })
    } else {
        None
    }
}
/// A splitter determinant proof is given only when the profile's splitter
/// product `2^s2 * 3^s3` is strictly below the source grain, and it reports
/// those two numbers; a profile whose product reaches the grain is never
/// refused for it.
pub proof fn law_determinant_proof_only_below_the_grain(
    p: NormalizedProblem,
    profile: NodeProfile,
    accounting: ProfileLinkAccounting,
)
    ensures
        impossibility(p, profile, accounting) matches Some(ImpossibilityView::SplitterDeterminantMagnitude {
            required_denominator: grain,
            available_product,
        }) ==> available_product < grain && grain == required_denominator(p)
            && available_product == pow(2, profile.splitter2 as nat) * pow(3, profile.splitter3 as nat),
        pow(2, profile.splitter2 as nat) * pow(3, profile.splitter3 as nat) >= required_denominator(p) ==> !(
        impossibility(p, profile, accounting) is Some && impossibility(p, profile, accounting)->Some_0 is SplitterDeterminantMagnitude),
{
}

proof fn lemma_ceil_div_least(a: nat, b: nat)
    requires
        a > 0,
        b > 0,
    ensures
        ceil_div(a, b) * b >= a,
        (ceil_div(a, b) - 1) * b < a,
{
    let n = (a + b - 1) as nat;
    vstd::arithmetic::div_mod::lemma_fundamental_div_mod(n as int, b as int);
    let q = n / b;
    let r = n % b;
    assert(0 <= r < b) by {
        vstd::arithmetic::div_mod::lemma_mod_pos_bound(n as int, b as int);
    }
    assert(q * b == b * q) by (nonlinear_arith);
    assert((q - 1) * b == q * b - b) by (nonlinear_arith);
}

/// The minimum discard count is the least number of capacity-bounded lines
/// that can carry the surplus: with a positive surplus `S` and capacity `B`,
/// `d * B >= S` and `(d - 1) * B < S`; with no surplus it is zero.
pub proof fn law_minimum_discard_links_is_least(p: NormalizedProblem)
    requires
        normalized_wf(p),
        baseline(p) is Ok,
    ensures
        p.surplus@.1 == 0 ==> baseline(p)->Ok_0.minimum_discard_links == 0,
        p.surplus@.1 > 0 ==> {
            let d = baseline(p)->Ok_0.minimum_discard_links as int;
            let (s, sd) = (p.surplus@.1 as int, p.surplus@.2 as int);
            let (c, cd) = (p.max_link_rate@.1 as int, p.max_link_rate@.2 as int);
            &&& d * c * sd >= s * cd
            &&& (d - 1) * c * sd < s * cd
        },
{
    if p.surplus@.1 > 0 {
        let s = p.surplus@;
        let c = p.max_link_rate@;
        let a = s.1 * c.2;
        let b = s.2 * c.1;
        assert(a > 0) by (nonlinear_arith)
            requires
                a == s.1 * c.2,
                s.1 > 0,
                c.2 > 0,
        ;
        assert(b > 0) by (nonlinear_arith)
            requires
                b == s.2 * c.1,
                s.2 > 0,
                c.1 > 0,
        ;
        lemma_ceil_div_least(a, b);
        let d = ceil_div(a, b) as int;
        assert(d * c.1 * s.2 == d * b) by (nonlinear_arith)
            requires
                b == s.2 * c.1,
        ;
        assert((d - 1) * c.1 * s.2 == (d - 1) * b) by (nonlinear_arith)
            requires
                b == s.2 * c.1,
        ;
        assert(s.1 * c.2 == a);
    }
}

/// A mixed profile (with splitters and mergers) that covers the terminal
/// deficits and whose splitter product is below the source grain is refused
/// by the determinant check, with exactly the grain and the product.
pub proof fn law_determinant_refuses_small_mixed_profiles(
    p: NormalizedProblem,
    profile: NodeProfile,
    accounting: ProfileLinkAccounting,
)
    requires
        counts_pass(p, profile, accounting),
        profile.splitter2 + profile.splitter3 > 0,
        profile.merger2 + profile.merger3 > 0,
        pow(2, profile.splitter2 as nat) * pow(3, profile.splitter3 as nat) < required_denominator(p),
    ensures
        impossibility(p, profile, accounting) == Some(
            ImpossibilityView::SplitterDeterminantMagnitude {
                required_denominator: required_denominator(p),
                available_product: pow(2, profile.splitter2 as nat) * pow(3, profile.splitter3 as nat),
            },
        ),
{
}

} // verus!
