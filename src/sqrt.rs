use vstd::prelude::*;

verus! {

/// `r` is the floor of the square root of `v`.
pub open spec fn is_floor_sqrt(v: int, r: int) -> bool {
    0 <= r && r * r <= v && v < (r + 1) * (r + 1)
}

/// `r` is the ceiling of the square root of `v`.
pub open spec fn is_ceil_sqrt(v: int, r: int) -> bool {
    0 <= r && v <= r * r && (r == 0 || (r - 1) * (r - 1) < v)
}

/// The largest `r` with `r * r <= v`.
pub open spec fn floor_sqrt_of(v: int) -> int {
    choose|r: int| is_floor_sqrt(v, r)
}

/// The smallest `r >= 0` with `r * r >= v`.
pub open spec fn ceil_sqrt_of(v: int) -> int {
    choose|r: int| is_ceil_sqrt(v, r)
}

/// Squares keep the order of non-negative numbers.
proof fn lemma_square_le(a: int, b: int)
    requires
        0 <= a <= b,
    ensures
        a * a <= b * b,
{
    assert(a * a <= a * b) by (nonlinear_arith)
        requires 0 <= a <= b;
    assert(a * b <= b * b) by (nonlinear_arith)
        requires 0 <= a <= b;
}

/// At most one number is the floor of a square root.
pub proof fn lemma_floor_sqrt_unique(v: int, r: int, s: int)
    requires
        is_floor_sqrt(v, r),
        is_floor_sqrt(v, s),
    ensures
        r == s,
{
    if r < s {
        lemma_square_le(r + 1, s);
    } else if s < r {
        lemma_square_le(s + 1, r);
    }
}

/// At most one number is the ceiling of a square root.
pub proof fn lemma_ceil_sqrt_unique(v: int, r: int, s: int)
    requires
        is_ceil_sqrt(v, r),
        is_ceil_sqrt(v, s),
    ensures
        r == s,
{
    if r < s {
        lemma_square_le(r, s - 1);
    } else if s < r {
        lemma_square_le(s, r - 1);
    }
}

/// One Newton step from any positive guess never lands below the floor of the
/// square root: `v < (y + 1)^2` where `y = (x + v / x) / 2`.
proof fn lemma_newton_step_above(v: int, x: int)
    requires
        0 <= v,
        1 <= x,
    ensures
        v < ((x + v / x) / 2 + 1) * ((x + v / x) / 2 + 1),
{
    let q = v / x;
    let y = (x + q) / 2;
    assert(v < x * (q + 1)) by (nonlinear_arith)
        requires q == v / x, 1 <= x, 0 <= v;
    assert(x + q + 1 <= 2 * (y + 1));
    assert(0 <= q) by (nonlinear_arith)
        requires q == v / x, 1 <= x, 0 <= v;
    lemma_square_le(x + q + 1, 2 * (y + 1));
    assert(4 * x * (q + 1) <= (x + q + 1) * (x + q + 1)) by (nonlinear_arith);
    assert((2 * (y + 1)) * (2 * (y + 1)) == 4 * ((y + 1) * (y + 1))) by (nonlinear_arith);
    assert(4 * v < 4 * x * (q + 1)) by (nonlinear_arith)
        requires v < x * (q + 1);
}

/// A Newton step from a guess above the root strictly decreases.
proof fn lemma_newton_step_decreases(v: int, x: int)
    requires
        0 <= v,
        1 <= x,
        v < x * x,
    ensures
        (x + v / x) / 2 < x,
{
    assert(v / x < x) by (nonlinear_arith)
        requires 0 <= v, 1 <= x, v < x * x;
}

/// Floor of the square root of `value`, by Newton's method.
pub fn sqrt_u128(value: u128) -> (r: u128)
    ensures
        is_floor_sqrt(value as int, r as int),
        r == floor_sqrt_of(value as int),
{
    if value < 2 {
        assert(is_floor_sqrt(value as int, value as int)) by (nonlinear_arith)
            requires value < 2;
        proof {
            lemma_floor_sqrt_unique(value as int, value as int, floor_sqrt_of(value as int));
        }
        return value;
    }
    let ghost v: int = value as int;
    let mut prev: u128 = value / 2;
    assert(v < (prev + 1) * (prev + 1)) by (nonlinear_arith)
        requires prev == v / 2, 2 <= v;
    proof {
        lemma_newton_step_above(v, prev as int);
    }
    assert(value / prev <= 3) by (nonlinear_arith)
        requires prev == value / 2, 2 <= value;
    let mut next: u128 = (prev + value / prev) / 2;
    while next < prev
        invariant
            v == value as int,
            2 <= v,
            1 <= prev <= v / 2,
            v < (prev + 1) * (prev + 1),
            next as int == (prev as int + v / (prev as int)) / 2,
            v < (next + 1) * (next + 1),
        decreases prev,
    {
        prev = next;
        assert(1 <= prev) by (nonlinear_arith)
            requires v < (prev + 1) * (prev + 1), 2 <= v, 0 <= prev;
        if prev == 1 {
            assert(v < 4) by (nonlinear_arith)
                requires prev == 1, v < (prev + 1) * (prev + 1);
        } else {
            assert(value / prev <= value / 2) by (nonlinear_arith)
                requires 2 <= prev, 0 <= value;
        }
        proof {
            lemma_newton_step_above(v, prev as int);
        }
        next = (prev + value / prev) / 2;
    }
    assert(prev * prev <= v) by {
        if v < prev * prev {
            lemma_newton_step_decreases(v, prev as int);
        }
    }
    assert(is_floor_sqrt(v, prev as int));
    proof {
        lemma_floor_sqrt_unique(v, prev as int, floor_sqrt_of(v));
    }
    prev
}

/// Ceiling of the square root of `value`: the floor, raised by one when the
/// floor's square falls short of `value`.
pub fn sqrt_u128_ceil(value: u128) -> (r: u128)
    ensures
        is_ceil_sqrt(value as int, r as int),
        r == ceil_sqrt_of(value as int),
{
    let floor = sqrt_u128(value);
    assert(floor < 0x1_0000_0000_0000_0000) by {
        if floor >= 0x1_0000_0000_0000_0000 {
            lemma_square_le(0x1_0000_0000_0000_0000, floor as int);
        }
    }
    let square: u128 = match floor.checked_mul(floor) {
        Some(p) => p,
        None => u128::MAX,
    };
    let r: u128 = if square < value {
        floor + 1
    } else {
        floor
    };
    proof {
        let f = floor as int;
        if r == floor {
            assert(value as int == f * f);
            if f > 0 {
                lemma_square_le(f - 1, f);
                assert((f - 1) * (f - 1) < f * f) by (nonlinear_arith)
                    requires f > 0;
            }
        }
        assert(is_ceil_sqrt(value as int, r as int));
        lemma_ceil_sqrt_unique(value as int, r as int, ceil_sqrt_of(value as int));
    }
    r
}

} // verus!
