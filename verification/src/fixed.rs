use vstd::prelude::*;

verus! {

/// Number of fixed-point units in one real unit: every scalar of the library
/// stands for the real number `value / SCALE`.
pub const SCALE: i64 = 65536;

/// Whether a mathematical value fits in the scalar type.
pub open spec fn in_i64(v: int) -> bool {
    i64::MIN <= v <= i64::MAX
}

/// Division by `SCALE` truncated toward zero: the rounding used when a
/// product of two scaled values is brought back to scale.
pub open spec fn scale_div(v: int) -> int {
    if v >= 0 {
        v / (SCALE as int)
    } else {
        -((-v) / (SCALE as int))
    }
}

/// Bounds of the truncating division: the quotient never grows in magnitude.
pub proof fn lemma_scale_div_bounds(v: int)
    ensures
        v >= 0 ==> 0 <= scale_div(v) <= v,
        v < 0 ==> v <= scale_div(v) <= 0,
{
    if v >= 0 {
        vstd::arithmetic::div_mod::lemma_div_nonincreasing(v, SCALE as int);
        vstd::arithmetic::div_mod::lemma_div_pos_is_pos(v, SCALE as int);
    } else {
        vstd::arithmetic::div_mod::lemma_div_nonincreasing(-v, SCALE as int);
        vstd::arithmetic::div_mod::lemma_div_pos_is_pos(-v, SCALE as int);
    }
}

/// The product of two scalar values always fits in the wide accumulator
/// type, with room to spare for one more scalar-sized summand.
pub proof fn lemma_i64_mul_in_i128(a: int, b: int)
    by (nonlinear_arith)
    requires
        i64::MIN <= a <= i64::MAX,
        i64::MIN <= b <= i64::MAX,
    ensures
        -0x40000000000000000000000000000000 <= a * b <= 0x40000000000000000000000000000000,
{
}

/// Multiplying by zero gives zero.
pub proof fn lemma_mul_zero(a: int, b: int)
    by (nonlinear_arith)
    requires
        b == 0,
    ensures
        a * b == 0,
{
}

/// Multiplying by one changes nothing.
pub proof fn lemma_mul_one(a: int)
    by (nonlinear_arith)
    ensures
        a * 1 == a,
{
}

/// Products commute.
pub proof fn lemma_mul_comm(a: int, b: int)
    by (nonlinear_arith)
    ensures
        a * b == b * a,
{
}

/// One more full row extends the flat store by one row's width.
pub proof fn lemma_mul_step(a: int, b: int)
    by (nonlinear_arith)
    ensures
        (a + 1) * b == a * b + b,
{
}

/// A row-major cell index lies inside the flat store.
pub proof fn lemma_flat_index(i: int, j: int, rows: int, cols: int)
    by (nonlinear_arith)
    requires
        0 <= i < rows,
        0 <= j < cols,
    ensures
        0 <= i * cols + j < rows * cols,
{
}

/// Every flat index decomposes uniquely into a row and a column.
pub proof fn lemma_flat_decompose(n: int, rows: int, cols: int)
    requires
        0 < cols,
        0 <= n < rows * cols,
    ensures
        0 <= n / cols < rows,
        0 <= n % cols < cols,
        n == (n / cols) * cols + n % cols,
{
    vstd::arithmetic::div_mod::lemma_fundamental_div_mod(n, cols);
    vstd::arithmetic::div_mod::lemma_mod_division_less_than_divisor(n, cols);
    vstd::arithmetic::div_mod::lemma_div_pos_is_pos(n, cols);
    assert(n == cols * (n / cols) + n % cols);
    assert(cols * (n / cols) == (n / cols) * cols) by (nonlinear_arith);
    if n / cols >= rows {
        vstd::arithmetic::mul::lemma_mul_inequality(rows, n / cols, cols);
        assert(rows * cols <= (n / cols) * cols);
        assert(false);
    }
}

/// A cell that comes strictly earlier in row-major order has a strictly
/// smaller flat index.
pub proof fn lemma_flat_lex(i2: int, j2: int, i: int, j: int, cols: int)
    by (nonlinear_arith)
    requires
        0 <= j2 < cols,
        0 <= i2,
        0 <= j,
        i2 < i || (i2 == i && j2 < j),
    ensures
        i2 * cols + j2 < i * cols + j,
{
}

/// The row and the column recover the flat index they were packed from.
pub proof fn lemma_flat_recompose(i: int, j: int, cols: int)
    requires
        0 < cols,
        0 <= i,
        0 <= j < cols,
    ensures
        (i * cols + j) / cols == i,
        (i * cols + j) % cols == j,
{
    vstd::arithmetic::div_mod::lemma_fundamental_div_mod_converse(i * cols + j, cols, i, j);
}

/// A value of at most 77 bits keeps its scaled quotient inside the scalar
/// range.
pub proof fn lemma_scale_div_in_range(v: int)
    requires
        -0x20000000000000000000 <= v <= 0x20000000000000000000,
    ensures
        -0x2000000000000000 <= scale_div(v) <= 0x2000000000000000,
        in_i64(scale_div(v)),
{
    if v >= 0 {
        vstd::arithmetic::div_mod::lemma_div_pos_is_pos(v, SCALE as int);
        vstd::arithmetic::div_mod::lemma_div_is_ordered(v, 0x20000000000000000000, SCALE as int);
    } else {
        vstd::arithmetic::div_mod::lemma_div_pos_is_pos(-v, SCALE as int);
        vstd::arithmetic::div_mod::lemma_div_is_ordered(-v, 0x20000000000000000000, SCALE as int);
    }
}

/// Magnitude bound of a product from magnitude bounds of its factors.
pub proof fn lemma_mul_magnitude(a: int, b: int, bound_a: int, bound_b: int)
    by (nonlinear_arith)
    requires
        -bound_a <= a <= bound_a,
        0 <= b <= bound_b,
        0 <= bound_a,
    ensures
        -(bound_a * bound_b) <= a * b <= bound_a * bound_b,
{
}

/// Truncating division of a scaled value by `SCALE`.
pub fn scale_down(v: i64) -> (q: i64)
    ensures
        q == scale_div(v as int),
{
    proof {
        lemma_scale_div_bounds(v as int);
    }
    if v >= 0 {
        ((v as u64) / (SCALE as u64)) as i64
    } else {
        let m: u64 = (-(v as i128)) as u64;
        let d: u64 = m / (SCALE as u64);
        assert(d == ((-(v as int)) / (SCALE as int)));
        -(d as i64)
    }
}

/// Truncating division of a wide product by `SCALE`: the quotient when it
/// fits the scalar range, nothing when it does not.
pub fn scale_down_wide(p: i128) -> (q: Option<i64>)
    requires
        p > i128::MIN,
    ensures
        in_i64(scale_div(p as int)) ==> (q matches Some(v) && v as int == scale_div(p as int)),
        !in_i64(scale_div(p as int)) ==> q is None,
{
    if p >= 0 {
        let d: u128 = (p as u128) / (SCALE as u128);
        proof {
            vstd::arithmetic::div_mod::lemma_div_pos_is_pos(p as int, SCALE as int);
        }
        assert(d == (p as int) / (SCALE as int));
        if d > (i64::MAX as u128) {
            None
        } else {
            Some(d as i64)
        }
    } else {
        let m: u128 = (-p) as u128;
        let d: u128 = m / (SCALE as u128);
        proof {
            vstd::arithmetic::div_mod::lemma_div_pos_is_pos(-(p as int), SCALE as int);
        }
        assert(d == (-(p as int)) / (SCALE as int));
        if d > 0x8000000000000000u128 {
            None
        } else {
            Some((-(d as i128)) as i64)
        }
    }
}

/// Exact product of two scalars, held in the wide accumulator type.
pub fn mul_wide(a: i64, b: i64) -> (p: i128)
    ensures
        p == (a as int) * (b as int),
{
    proof {
        lemma_i64_mul_in_i128(a as int, b as int);
    }
    (a as i128) * (b as i128)
}

} // verus!
