//! Square roots rounded to the nearest integer, in integer arithmetic.
//!
//! Room centers and room sizes are defined through rounded multiples of square
//! roots. Every such number is the nearest integer to the square root of a
//! fraction, and that integer is found exactly by comparing squares.

use vstd::prelude::*;

verus! {

/// `r` is the integer nearest to the square root of `num / den`, where a
/// value half-way between two integers goes to the larger one.
///
/// `r - 1/2 <= sqrt(num / den) < r + 1/2`, squared and cleared of fractions.
pub open spec fn is_nearest_root(r: nat, num: nat, den: nat) -> bool {
    &&& 4 * num < (2 * r + 1) * (2 * r + 1) * den
    &&& r > 0 ==> (2 * r - 1) * (2 * r - 1) * den <= 4 * num
}

/// The integer nearest to the square root of `num / den`.
pub open spec fn nearest_root(num: nat, den: nat) -> nat {
    choose|r: nat| is_nearest_root(r, num, den)
}

/// At most one integer is nearest to a square root.
pub proof fn lemma_nearest_root_unique(r1: nat, r2: nat, num: nat, den: nat)
    requires
        den > 0,
        is_nearest_root(r1, num, den),
        is_nearest_root(r2, num, den),
    ensures
        r1 == r2,
{
    if r1 < r2 {
        lemma_odd_squares_grow(r1, r2, den);
    } else if r2 < r1 {
        lemma_odd_squares_grow(r2, r1, den);
    }
}

/// Below a larger integer's lower bound lies the upper bound of each smaller.
proof fn lemma_odd_squares_grow(small: nat, large: nat, den: nat)
    requires
        small < large,
    ensures
        (2 * small + 1) * (2 * small + 1) * den <= (2 * large - 1) * (2 * large - 1) * den,
{
    let a: int = (2 * small + 1) as int;
    let b: int = 2 * large - 1;
    assert(0 <= a <= b);
    assert(a * a <= b * b) by (nonlinear_arith)
        requires
            0 <= a <= b,
    ;
    assert(a * a * den <= b * b * den) by (nonlinear_arith)
        requires
            a * a <= b * b,
            den >= 0,
    ;
}

/// What is known of `r` pins it down as the nearest root.
pub proof fn lemma_nearest_root_is(r: nat, num: nat, den: nat)
    requires
        den > 0,
        is_nearest_root(r, num, den),
    ensures
        nearest_root(num, den) == r,
{
    lemma_nearest_root_unique(r, nearest_root(num, den), num, den);
}

/// The nearest integer to the square root of `num / den` is at most `num`.
pub proof fn lemma_nearest_root_bound(r: nat, num: nat, den: nat)
    requires
        den > 0,
        is_nearest_root(r, num, den),
    ensures
        r <= num,
{
    if r > num {
        let a: int = (2 * r - 1) as int;
        assert(a * a >= (2 * num + 1) * (2 * num + 1)) by (nonlinear_arith)
            requires
                a >= 2 * num + 1,
                num >= 0,
        ;
        assert((2 * num + 1) * (2 * num + 1) > 4 * num) by (nonlinear_arith)
            requires
                num >= 0,
        ;
        assert(a * a * den >= a * a) by (nonlinear_arith)
            requires
                den >= 1,
                a * a >= 0,
        ;
    }
}

/// Every square root has a nearest integer.
pub proof fn lemma_nearest_root_exists(num: nat, den: nat)
    requires
        den > 0,
    ensures
        is_nearest_root(nearest_root(num, den), num, den),
{
    lemma_search_nearest_root(0, num, den);
}

/// From any integer at or below the nearest root, the nearest root is
/// reached by counting up.
proof fn lemma_search_nearest_root(r: nat, num: nat, den: nat)
    requires
        den > 0,
        r > 0 ==> (2 * r - 1) * (2 * r - 1) * den <= 4 * num,
        r <= num,
    ensures
        exists|root: nat| is_nearest_root(root, num, den),
    decreases num - r,
{
    if 4 * num < (2 * r + 1) * (2 * r + 1) * den {
        assert(is_nearest_root(r, num, den));
    } else {
        lemma_next_odd_square(r, num, den);
        lemma_search_nearest_root(r + 1, num, den);
    }
}

/// Computes the integer nearest to the square root of `num / den`.
pub fn rounded_root(num: u32, den: u32) -> (r: u32)
    requires
        den > 0,
    ensures
        is_nearest_root(r as nat, num as nat, den as nat),
        r == nearest_root(num as nat, den as nat),
        r <= num,
{
    let target: u64 = 4 * (num as u64);
    let scale: u64 = den as u64;
    let mut r: u64 = 0;
    let mut odd: u64 = 1;
    assert(odd * odd * scale == scale) by (nonlinear_arith)
        requires
            odd == 1,
    ;
    while odd * odd * scale <= target
        invariant
            target == 4 * num,
            scale == den,
            scale > 0,
            odd == 2 * r + 1,
            r <= num,
            r > 0 ==> (2 * r - 1) * (2 * r - 1) * scale <= target,
            odd * odd <= 0x24_0000_0000,
            odd * odd * scale <= 0x24_0000_0000,
        decreases num - r,
    {
        proof {
            lemma_next_odd_square(r as nat, num as nat, den as nat);
        }
        r = r + 1;
        odd = odd + 2;
    }
    proof {
        lemma_nearest_root_is(r as nat, num as nat, den as nat);
    }
    r as u32
}

/// One more step of the search stays within bounds: while the square of
/// `2r + 1` times `den` is at most `4 num`, `r` is below `num`, and the next
/// odd square times `den` is at most nine times `4 num`.
proof fn lemma_next_odd_square(r: nat, num: nat, den: nat)
    requires
        den > 0,
        (2 * r + 1) * (2 * r + 1) * den <= 4 * num,
    ensures
        r < num,
        (2 * r + 3) * (2 * r + 3) <= 36 * num,
        (2 * r + 3) * (2 * r + 3) * den <= 36 * num,
{
    let a: int = (2 * r + 1) as int;
    assert(a * a >= a) by (nonlinear_arith)
        requires
            a >= 1,
    ;
    assert(a * a * den >= a * a) by (nonlinear_arith)
        requires
            den >= 1,
            a * a >= 0,
    ;
    assert((a + 2) * (a + 2) <= 9 * (a * a)) by (nonlinear_arith)
        requires
            a >= 1,
    ;
    assert((a + 2) * (a + 2) * den <= 9 * (a * a * den)) by (nonlinear_arith)
        requires
            (a + 2) * (a + 2) <= 9 * (a * a),
            den >= 1,
    ;
    assert((a + 2) * (a + 2) <= (a + 2) * (a + 2) * den) by (nonlinear_arith)
        requires
            den >= 1,
    ;
    if r >= num {
        assert(a * a >= (2 * num + 1) * (2 * num + 1)) by (nonlinear_arith)
            requires
                a >= 2 * num + 1,
                num >= 0,
        ;
        assert((2 * num + 1) * (2 * num + 1) > 4 * num) by (nonlinear_arith)
            requires
                num >= 0,
        ;
    }
}

} // verus!
