//! Two's-complement arithmetic on 32 bits and the row sums that every
//! multiply engine computes.
use vstd::prelude::*;

verus! {

/// The number of distinct 32-bit words.
pub open spec fn modulus() -> int {
    0x1_0000_0000
}

/// `x` reduced to the 32-bit signed range by two's-complement wraparound.
pub open spec fn wrap_i32(x: int) -> int {
    let m = x % modulus();
    if m > 0x7fff_ffff {
        m - modulus()
    } else {
        m
    }
}

/// The exact (unwrapped) sum of `a[row * n + j] * b[j]` over `j` in `[0, k)`.
pub open spec fn row_dot(a: Seq<i32>, b: Seq<i32>, row: int, n: int, k: int) -> int
    decreases k,
{
    if k <= 0 {
        0
    } else {
        row_dot(a, b, row, n, k - 1) + a[row * n + k - 1] * b[k - 1]
    }
}

/// The product of the `d` by `n` row-major matrix `a` and the vector `b`,
/// each entry wrapped to 32 bits.
pub open spec fn products(a: Seq<i32>, b: Seq<i32>, n: int, d: int) -> Seq<i32> {
    Seq::new(d as nat, |i: int| wrap_i32(row_dot(a, b, i, n, n)) as i32)
}

pub proof fn lemma_wrap_range(x: int)
    ensures
        i32::MIN <= wrap_i32(x) <= i32::MAX,
        (wrap_i32(x) - x) % modulus() == 0,
{
    let m = x % modulus();
    vstd::arithmetic::div_mod::lemma_fundamental_div_mod(x, modulus());
    let q = x / modulus();
    if m > 0x7fff_ffff {
        assert(wrap_i32(x) - x == (-1 - q) * modulus()) by (nonlinear_arith)
            requires
                wrap_i32(x) == m - modulus(),
                x == modulus() * q + m,
        ;
        vstd::arithmetic::div_mod::lemma_mod_multiples_basic(-1 - q, modulus());
    } else {
        assert(wrap_i32(x) - x == (-q) * modulus()) by (nonlinear_arith)
            requires
                wrap_i32(x) == m,
                x == modulus() * q + m,
        ;
        vstd::arithmetic::div_mod::lemma_mod_multiples_basic(-q, modulus());
    }
}

/// Values that differ by a multiple of 2^32 wrap to the same word.
pub proof fn lemma_wrap_congruent(x: int, y: int)
    requires
        (x - y) % modulus() == 0,
    ensures
        wrap_i32(x) == wrap_i32(y),
{
    vstd::arithmetic::div_mod::lemma_fundamental_div_mod(x - y, modulus());
    let k = (x - y) / modulus();
    assert(x == y + k * modulus()) by (nonlinear_arith)
        requires
            x - y == modulus() * k + 0,
    ;
    vstd::arithmetic::div_mod::lemma_mod_multiples_vanish(k, y, modulus());
}

/// Wrapping an intermediate sum does not change the wrapped total.
pub proof fn lemma_wrap_add(x: int, y: int)
    ensures
        wrap_i32(wrap_i32(x) + y) == wrap_i32(x + y),
{
    lemma_wrap_range(x);
    lemma_wrap_congruent(wrap_i32(x) + y, x + y);
}

/// A value already in the 32-bit signed range wraps to itself.
pub proof fn lemma_wrap_small(x: int)
    requires
        i32::MIN <= x <= i32::MAX,
    ensures
        wrap_i32(x) == x,
{
    lemma_wrap_range(x);
    if x >= 0 {
        vstd::arithmetic::div_mod::lemma_small_mod(x as nat, modulus() as nat);
    } else {
        vstd::arithmetic::div_mod::lemma_small_mod((x + modulus()) as nat, modulus() as nat);
        lemma_wrap_congruent(x, x + modulus());
    }
}

/// `i32::wrapping_add` is addition wrapped to 32 bits.
pub proof fn lemma_wrapping_add(x: i32, y: i32)
    ensures
        x.wrapping_add(y) as int == wrap_i32(x + y),
{
    let s = x + y;
    if s > i32::MAX {
        lemma_wrap_small(s - modulus());
        lemma_wrap_congruent(s - modulus(), s);
    } else if s < i32::MIN {
        lemma_wrap_small(s + modulus());
        lemma_wrap_congruent(s + modulus(), s);
    } else {
        lemma_wrap_small(s);
    }
}

/// `i32::wrapping_mul` is multiplication wrapped to 32 bits.
pub proof fn lemma_wrapping_mul(x: i32, y: i32)
    ensures
        x.wrapping_mul(y) as int == wrap_i32(x * y),
{
    lemma_wrap_range(x * y);
}

/// The exact sum that lane `lane` of a four-lane accumulator collects over
/// the first `q` batches of row `row`: the terms at `4 * p + lane`.
pub open spec fn lane_dot(a: Seq<i32>, b: Seq<i32>, row: int, n: int, lane: int, q: int) -> int
    decreases q,
{
    if q <= 0 {
        0
    } else {
        lane_dot(a, b, row, n, lane, q - 1) + a[row * n + 4 * (q - 1) + lane] * b[4 * (q - 1)
            + lane]
    }
}

/// The values `0, 1, 2, ...` of a counter, `count` of them, each wrapped to
/// 32 bits.
pub open spec fn synthetic(count: int) -> Seq<i32> {
    Seq::new(count as nat, |i: int| wrap_i32(i) as i32)
}

/// Wrapping both summands does not change the wrapped sum.
pub proof fn lemma_wrap_add2(x: int, y: int)
    ensures
        wrap_i32(wrap_i32(x) + wrap_i32(y)) == wrap_i32(x + y),
{
    lemma_wrap_add(x, wrap_i32(y));
    lemma_wrap_add(y, x);
}

/// One accumulation step of a wrapped sum: adding the wrapped product of
/// `x` and `y` to an accumulator that holds the wrapped total `t`.
pub proof fn lemma_accumulate(acc: i32, t: int, x: i32, y: i32)
    requires
        acc as int == wrap_i32(t),
    ensures
        acc.wrapping_add(x.wrapping_mul(y)) as int == wrap_i32(t + x * y),
{
    lemma_wrapping_mul(x, y);
    lemma_wrapping_add(acc, x.wrapping_mul(y));
    lemma_wrap_add2(t, x * y);
}

/// Adding a wrapped partial sum `wrap(t2 - t1)` to a wrapped total
/// `wrap(t1)` gives the wrapped total `wrap(t2)`.
pub proof fn lemma_accumulate_part(acc: i32, part: i32, t1: int, t2: int)
    requires
        acc as int == wrap_i32(t1),
        part as int == wrap_i32(t2 - t1),
    ensures
        acc.wrapping_add(part) as int == wrap_i32(t2),
{
    lemma_wrapping_add(acc, part);
    lemma_wrap_add2(t1, t2 - t1);
}

/// Splitting a row into batches of four and summing each lane on its own
/// gives the same exact row sum: row sum over `4 * q` terms is the sum of
/// the four lane sums over `q` batches.
pub proof fn lemma_lanes_sum(a: Seq<i32>, b: Seq<i32>, row: int, n: int, q: int)
    requires
        q >= 0,
    ensures
        row_dot(a, b, row, n, 4 * q) == lane_dot(a, b, row, n, 0, q) + lane_dot(a, b, row, n, 1, q)
            + lane_dot(a, b, row, n, 2, q) + lane_dot(a, b, row, n, 3, q),
    decreases q,
{
    if q > 0 {
        lemma_lanes_sum(a, b, row, n, q - 1);
        let k = 4 * (q - 1);
        assert(row_dot(a, b, row, n, k + 4) == row_dot(a, b, row, n, k + 3) + a[row * n + k + 3]
            * b[k + 3]);
        assert(row_dot(a, b, row, n, k + 3) == row_dot(a, b, row, n, k + 2) + a[row * n + k + 2]
            * b[k + 2]);
        assert(row_dot(a, b, row, n, k + 2) == row_dot(a, b, row, n, k + 1) + a[row * n + k + 1]
            * b[k + 1]);
        assert(row_dot(a, b, row, n, k + 1) == row_dot(a, b, row, n, k) + a[row * n + k] * b[k]);
    }
}

/// Summing a row of a multiple of four terms lane by lane, wrapping each
/// lane and then the sum of the four lanes in order, gives the wrapped row
/// sum: the four-lane and the in-order reductions agree on every input.
pub proof fn lemma_lanes_agree_with_row(a: Seq<i32>, b: Seq<i32>, row: int, n: int)
    requires
        n >= 0,
        n % 4 == 0,
    ensures
        wrap_i32(
            wrap_i32(
                wrap_i32(
                    wrap_i32(lane_dot(a, b, row, n, 0, n / 4)) + wrap_i32(
                        lane_dot(a, b, row, n, 1, n / 4),
                    ),
                ) + wrap_i32(lane_dot(a, b, row, n, 2, n / 4)),
            ) + wrap_i32(lane_dot(a, b, row, n, 3, n / 4)),
        ) == wrap_i32(row_dot(a, b, row, n, n)),
{
    let q = n / 4;
    let l0 = lane_dot(a, b, row, n, 0, q);
    let l1 = lane_dot(a, b, row, n, 1, q);
    let l2 = lane_dot(a, b, row, n, 2, q);
    let l3 = lane_dot(a, b, row, n, 3, q);
    lemma_lanes_sum(a, b, row, n, q);
    assert(4 * q == n);
    lemma_wrap_add2(l0, l1);
    lemma_wrap_add(l0 + l1, wrap_i32(l2));
    lemma_wrap_add2(l0 + l1, l2);
    lemma_wrap_add(l0 + l1 + l2, wrap_i32(l3));
    lemma_wrap_add2(l0 + l1 + l2, l3);
}

/// The element at column `j` of row `i` lies inside the `n * d` matrix.
pub proof fn lemma_row_index(i: int, n: int, d: int, j: int)
    requires
        0 <= i < d,
        0 <= j < n,
    ensures
        0 <= i * n,
        i * n + j < n * d,
        i * n + n <= n * d,
{
    assert(i * n + n <= n * d && 0 <= i * n) by (nonlinear_arith)
        requires
            0 <= i < d,
            0 <= j < n,
    ;
}

} // verus!
