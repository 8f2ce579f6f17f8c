//! Exact rational matrices of the symbolic flow analysis.

use vstd::prelude::*;

use crate::exact::{big_add, big_lt, big_mul, big_sub, BigNat};
use crate::problem::{lowest_terms, reduced, zero, Rate};

verus! {

/// The magnitude `m` with a sign.
pub open spec fn signed(negative: bool, m: nat) -> int {
    if negative {
        -(m as int)
    } else {
        m as int
    }
}

/// The signed numerator of a rate.
pub open spec fn signed_numerator(rate: (bool, nat, nat)) -> int {
    signed(rate.0, rate.1)
}

proof fn lemma_signed_scale(negative: bool, m: nat, k: nat)
    ensures
        signed(negative, m * k) == signed(negative, m) * k,
{
    if negative {
        assert(-((m * k) as int) == (-(m as int)) * k) by (nonlinear_arith);
    }
}

proof fn lemma_signed_product(x: bool, a: nat, y: bool, b: nat)
    ensures
        signed(x != y, a * b) == signed(x, a) * signed(y, b),
{
    if x && y {
        assert((-(a as int)) * (-(b as int)) == a * b) by (nonlinear_arith);
    } else if x {
        assert((-(a as int)) * (b as int) == -((a * b) as int)) by (nonlinear_arith);
    } else if y {
        assert((a as int) * (-(b as int)) == -((a * b) as int)) by (nonlinear_arith);
    }
}

/// The signed sum of two signed magnitudes.
fn signed_add(a_negative: bool, a: &BigNat, b_negative: bool, b: &BigNat) -> (sum: (bool, BigNat))
    ensures
        signed(sum.0, sum.1@) == signed(a_negative, a@) + signed(b_negative, b@),
{
    if a_negative == b_negative {
        (a_negative, big_add(a, b))
    } else if big_lt(a, b) {
        (b_negative, big_sub(b, a))
    } else {
        (a_negative, big_sub(a, b))
    }
}

/// The sum of the products of `row` and `vector`, entry by entry, as one
/// signed numerator over the product of every denominator.
pub open spec fn dot(row: Seq<(bool, nat, nat)>, vector: Seq<(bool, nat, nat)>) -> (int, nat)
    decreases row.len(),
{
    if row.len() == 0 || vector.len() == 0 {
        (0, 1)
    } else {
        let sum = dot(row.drop_last(), vector.drop_last());
        let c = row.last();
        let v = vector.last();
        let pn = signed_numerator(c) * signed_numerator(v);
        let pd = c.2 * v.2;
        (sum.0 * pd + pn * sum.1, sum.1 * pd)
    }
}

/// A signed fraction in lowest terms, as a rate.
pub open spec fn normal_rate(f: (int, nat)) -> (bool, nat, nat) {
    let magnitude: nat = if f.0 < 0 {
        (-f.0) as nat
    } else {
        f.0 as nat
    };
    (f.0 < 0, reduced((magnitude, f.1)).0, reduced((magnitude, f.1)).1)
}

/// A row-major exact matrix.
#[derive(Clone, Debug, PartialEq, Eq)]
pub struct RationalMatrix {
    rows: usize,
    columns: usize,
    entries: Vec<Rate>,
}

impl RationalMatrix {
    /// The number of rows.
    pub closed spec fn rows_of(&self) -> nat {
        self.rows as nat
    }

    /// The number of columns.
    pub closed spec fn columns_of(&self) -> nat {
        self.columns as nat
    }

    /// The entries, row after row.
    pub closed spec fn entries_of(&self) -> Seq<Rate> {
        self.entries@
    }

    /// Every row has `columns` entries.
    pub open spec fn wf(&self) -> bool {
        self.entries_of().len() == self.rows_of() * self.columns_of()
    }

    /// The matrix of `rows`, each of `columns` entries.
    pub fn from_rows(rows: Vec<Vec<Rate>>, columns: usize) -> (matrix: RationalMatrix)
        requires
            forall|r: int| 0 <= r < rows@.len() ==> (#[trigger] rows@[r])@.len() == columns,
            rows@.len() * columns <= usize::MAX,
        ensures
            matrix.wf(),
            matrix.rows_of() == rows@.len(),
            matrix.columns_of() == columns,
            forall|r: int, c: int|
                0 <= r < rows@.len() && 0 <= c < columns ==> matrix.entries_of()[r * columns + c] == rows@[r]@[c],
    {
        let ghost given = rows@;
        let count = rows.len();
        let mut remaining = rows;
        let mut entries: Vec<Rate> = Vec::new();
        let mut r: usize = 0;
        while remaining.len() > 0
            invariant
                count == given.len(),
                remaining@ == given.subrange(r as int, given.len() as int),
                r <= count,
                count * columns <= usize::MAX,
                forall|k: int| 0 <= k < given.len() ==> (#[trigger] given[k])@.len() == columns,
                entries@.len() == r * columns,
                forall|a: int, c: int|
                    0 <= a < r && 0 <= c < columns ==> entries@[a * columns + c] == given[a]@[c],
            decreases remaining@.len(),
        {
            let mut row = remaining.remove(0);
            assert(row == given[r as int]);
            let ghost base = entries@;
            let mut c: usize = 0;
            proof {
                assert((r + 1) * columns <= count * columns) by (nonlinear_arith)
                    requires
                        r + 1 <= count,
                ;
            }
            while row.len() > 0
                invariant
                    row@ == given[r as int]@.subrange(c as int, columns as int),
                    given[r as int]@.len() == columns,
                    c <= columns,
                    entries@.len() == base.len() + c,
                    base.len() == r * columns,
                    entries@.subrange(0, base.len() as int) == base,
                    forall|k: int| 0 <= k < c ==> entries@[base.len() + k] == given[r as int]@[k],
                decreases row@.len(),
            {
                let entry = row.remove(0);
                entries.push(entry);
                c = c + 1;
                proof {
                    assert(entries@.subrange(0, base.len() as int) =~= base);
                }
            }
            proof {
                assert(r * columns + columns == (r + 1) * columns) by (nonlinear_arith);
                assert forall|a: int, k: int| 0 <= a < r + 1 && 0 <= k < columns implies entries@[a * columns + k]
                    == given[a]@[k] by {
                    if a < r {
                        assert(a * columns + k < r * columns) by (nonlinear_arith)
                            requires
                                a < r,
                                k < columns,
                        ;
                        assert(entries@[a * columns + k] == base[a * columns + k]);
                    }
                }
            }
            r = r + 1;
            assert(remaining@ =~= given.subrange(r as int, given.len() as int));
        }
        RationalMatrix { rows: count, columns, entries }
    }

    /// Returns the number of rows.
    pub fn row_count(&self) -> (count: usize)
        ensures
            count == self.rows_of(),
    {
        self.rows
    }

    /// Returns the number of columns.
    pub fn column_count(&self) -> (count: usize)
        ensures
            count == self.columns_of(),
    {
        self.columns
    }

    /// Borrows one row, or returns `None` when its span leaves the entries.
    pub fn row(&self, row: usize) -> (values: Option<&[Rate]>)
        ensures
            values is Some <==> row * self.columns_of() + self.columns_of() <= self.entries_of().len(),
            values matches Some(v) ==> v@ == self.entries_of().subrange(
                row * self.columns_of(),
                row * self.columns_of() + self.columns_of(),
            ),
    {
        let total = self.entries.len();
        let start = match row.checked_mul(self.columns) {
            Some(start) => start,
            None => {
                return None;
            },
        };
        let end = match start.checked_add(self.columns) {
            Some(end) => end,
            None => {
                return None;
            },
        };
        if end > total {
            return None;
        }
        Some(vstd::slice::slice_subrange(self.entries.as_slice(), start, end))
    }

    /// The views of the entries of row `row`.
    pub open spec fn row_views(&self, row: int) -> Seq<(bool, nat, nat)> {
        self.entries_of().subrange(row * self.columns_of(), row * self.columns_of() + self.columns_of()).map_values(
            |r: Rate| r@,
        )
    }

    /// Multiplies this matrix by an exact column vector, each entry of the
    /// result in lowest terms; `None` when the vector's length differs from
    /// the column count.
    pub fn multiply(&self, vector: &[Rate]) -> (product: Option<Vec<Rate>>)
        requires
            self.wf(),
        ensures
            product is None <==> vector@.len() != self.columns_of(),
            product matches Some(out) ==> out@.len() == self.rows_of() && forall|r: int|
                0 <= r < self.rows_of() ==> (#[trigger] out@[r])@ == normal_rate(
                    dot(self.row_views(r), vector@.map_values(|v: Rate| v@)),
                ),
    {
        if vector.len() != self.columns {
            return None;
        }
        let ghost vs = vector@.map_values(|v: Rate| v@);
        let columns = self.columns;
        let total = self.entries.len();
        let mut out: Vec<Rate> = Vec::new();
        let mut r: usize = 0;
        while r < self.rows
            invariant
                self.wf(),
                total == self.entries_of().len(),
                columns == self.columns_of(),
                vector@.len() == columns,
                vs == vector@.map_values(|v: Rate| v@),
                r <= self.rows_of(),
                out@.len() == r,
                forall|q: int| 0 <= q < r ==> (#[trigger] out@[q])@ == normal_rate(dot(self.row_views(q), vs)),
            decreases self.rows_of() - r,
        {
            proof {
                assert((r + 1) * columns <= self.rows_of() * columns) by (nonlinear_arith)
                    requires
                        r + 1 <= self.rows_of(),
                ;
                assert(r * columns + columns == (r + 1) * columns) by (nonlinear_arith);
                assert(r * columns <= (r + 1) * columns) by (nonlinear_arith);
            }
            let base = r * columns;
            let ghost row = self.row_views(r as int);
            let mut negative = false;
            let mut numerator = zero();
            let mut denominator = BigNat::small(1);
            let mut k: usize = 0;
            while k < columns
                invariant
                    self.wf(),
                    columns == self.columns_of(),
                    vector@.len() == columns,
                    vs == vector@.map_values(|v: Rate| v@),
                    base + columns <= self.entries_of().len(),
                    total == self.entries_of().len(),
                    base == r * columns,
                    row == self.row_views(r as int),
                    row.len() == columns,
                    k <= columns,
                    (signed(negative, numerator@), denominator@) == dot(row.take(k as int), vs.take(k as int)),
                decreases columns - k,
            {
                let entry = &self.entries[base + k];
                let value = &vector[k];
                assert(row[k as int] == entry@);
                assert(vs[k as int] == value@);
                let product_negative = entry.negative != value.negative;
                let product = big_mul(&entry.numerator, &value.numerator);
                let scale = big_mul(&entry.denominator, &value.denominator);
                let left = big_mul(&numerator, &scale);
                let right = big_mul(&product, &denominator);
                proof {
                    lemma_signed_product(entry.negative, entry.numerator@, value.negative, value.numerator@);
                    lemma_signed_scale(negative, numerator@, scale@);
                    lemma_signed_scale(product_negative, product@, denominator@);
                    assert(row.take(k + 1).drop_last() =~= row.take(k as int));
                    assert(vs.take(k + 1).drop_last() =~= vs.take(k as int));
                    assert(signed(product_negative, product@) * denominator@ == denominator@ * signed(
                        product_negative,
                        product@,
                    )) by (nonlinear_arith);
                }
                let (sum_negative, sum) = signed_add(negative, &left, product_negative, &right);
                negative = sum_negative;
                numerator = sum;
                denominator = big_mul(&denominator, &scale);
                k = k + 1;
            }
            proof {
                assert(row.take(columns as int) =~= row);
                assert(vs.take(columns as int) =~= vs);
            }
            let reduced_rate = lowest_terms(&numerator, &denominator);
            let entry = Rate {
                negative: negative && !numerator.is_zero(),
                numerator: reduced_rate.numerator,
                denominator: reduced_rate.denominator,
            };
            out.push(entry);
            r = r + 1;
        }
        Some(out)
    }
}

} // verus!
