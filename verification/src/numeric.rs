//! Root-free integer arithmetic: the nearest integer to a square root of a
//! ratio, which is what scaling a lattice vector to a length and measuring
//! its speed both come down to.

use vstd::prelude::*;

verus! {

/// `r - 1/2 <= sqrt(m / n)`, for `r >= 1`, said without a root or a division:
/// whether `r` is the rounded root or lies below it. A root that ends in a
/// half is rounded up.
pub open spec fn reaches(r: int, m: int, n: int) -> bool {
    (2 * r - 1) * (2 * r - 1) * n <= 4 * m
}

/// The largest `r` in `0..=bound` that is `0` or reaches `sqrt(m / n)`.
pub open spec fn nearest_root_upto(m: int, n: int, bound: int) -> int
    decreases bound,
{
    if bound <= 0 {
        0
    } else if reaches(bound, m, n) {
        bound
    } else {
        nearest_root_upto(m, n, bound - 1)
    }
}

/// The integer nearest to `sqrt(m / n)`, for `m >= 0` and `n >= 1`.
///
/// No integer above `m` can reach the root, so the search starts there.
pub open spec fn nearest_root(m: int, n: int) -> int {
    nearest_root_upto(m, n, m)
}

/// A larger candidate that reaches the root makes every smaller one reach it.
pub proof fn lemma_reaches_downward(j: int, k: int, m: int, n: int)
    requires
        1 <= j <= k,
        0 <= n,
        reaches(k, m, n),
    ensures
        reaches(j, m, n),
{
    assert((2 * j - 1) * (2 * j - 1) * n <= (2 * k - 1) * (2 * k - 1) * n) by (nonlinear_arith)
        requires
            1 <= j <= k,
            0 <= n,
    ;
}

/// The search result is pinned by its two neighbours: `r` is `0` or reaches
/// the root, and `r + 1` does not.
pub proof fn lemma_nearest_root_upto_is(m: int, n: int, bound: int, r: int)
    requires
        0 <= n,
        0 <= r <= bound,
        r == 0 || reaches(r, m, n),
        !reaches(r + 1, m, n),
    ensures
        nearest_root_upto(m, n, bound) == r,
    decreases bound,
{
    if bound > r {
        if reaches(bound, m, n) {
            lemma_reaches_downward(r + 1, bound, m, n);
        }
        lemma_nearest_root_upto_is(m, n, bound - 1, r);
    }
}

/// Nothing above `m` reaches the root of `m / n`.
pub proof fn lemma_beyond_m(m: int, n: int, r: int)
    requires
        0 <= m,
        1 <= n,
        r > m,
    ensures
        !reaches(r, m, n),
{
    assert((2 * r - 1) * (2 * r - 1) * n > 4 * m) by (nonlinear_arith)
        requires
            0 <= m,
            1 <= n,
            r >= m + 1,
    ;
}

/// The two neighbours pin `nearest_root` itself.
pub proof fn lemma_nearest_root_is(m: int, n: int, r: int)
    requires
        0 <= m,
        1 <= n,
        0 <= r,
        r == 0 || reaches(r, m, n),
        !reaches(r + 1, m, n),
    ensures
        nearest_root(m, n) == r,
{
    if r > m {
        lemma_beyond_m(m, n, r);
    }
    lemma_nearest_root_upto_is(m, n, m, r);
}

/// `nearest_root` answers with a number that is `0` or reaches the root,
/// whose successor does not.
pub proof fn lemma_nearest_root_bounds(m: int, n: int)
    requires
        0 <= m,
        1 <= n,
    ensures
        0 <= nearest_root(m, n) <= m,
        nearest_root(m, n) == 0 || reaches(nearest_root(m, n), m, n),
        !reaches(nearest_root(m, n) + 1, m, n),
{
    lemma_upto_bounds(m, n, m);
    lemma_beyond_m(m, n, m + 1);
}

proof fn lemma_upto_bounds(m: int, n: int, bound: int)
    requires
        0 <= n,
        0 <= bound,
    ensures
        0 <= nearest_root_upto(m, n, bound) <= bound,
        nearest_root_upto(m, n, bound) == 0 || reaches(nearest_root_upto(m, n, bound), m, n),
        nearest_root_upto(m, n, bound) < bound ==> !reaches(
            nearest_root_upto(m, n, bound) + 1,
            m,
            n,
        ),
    decreases bound,
{
    if bound > 0 && !reaches(bound, m, n) {
        lemma_upto_bounds(m, n, bound - 1);
    }
}

proof fn lemma_square_fits(side: int, n: int, limit: int)
    by (nonlinear_arith)
    requires
        0 <= side,
        1 <= n,
        side * side * n <= limit,
    ensures
        side <= limit,
        side * side <= limit,
{
}

/// Computes `nearest_root(m, n)` by bisection below `bound`, a number that
/// the root is known not to exceed.
pub fn nearest_root_below(m: u128, n: u128, bound: u128) -> (r: u128)
    requires
        1 <= n,
        4 * m <= u128::MAX,
        (2 * bound + 1) * (2 * bound + 1) * n <= u128::MAX,
        !reaches(bound + 1, m as int, n as int),
    ensures
        r == nearest_root(m as int, n as int),
        r <= bound,
{
    proof {
        lemma_square_fits(2 * bound + 1, n as int, u128::MAX as int);
    }
    let goal: u128 = 4 * m;
    let mut lo: u128 = 0;
    let mut hi: u128 = bound + 1;
    while hi - lo > 1
        invariant
            1 <= n,
            goal == 4 * m,
            lo < hi <= bound + 1,
            2 * bound + 1 <= u128::MAX,
            (2 * bound + 1) * (2 * bound + 1) <= u128::MAX,
            (2 * bound + 1) * (2 * bound + 1) * n <= u128::MAX,
            lo == 0 || reaches(lo as int, m as int, n as int),
            !reaches(hi as int, m as int, n as int),
        decreases hi - lo,
    {
        let mid: u128 = lo + (hi - lo) / 2;
        let side: u128 = 2 * mid - 1;
        proof {
            assert(side * side <= (2 * bound + 1) * (2 * bound + 1)) by (nonlinear_arith)
                requires
                    0 <= side <= 2 * bound + 1,
            ;
            assert(side * side * n <= (2 * bound + 1) * (2 * bound + 1) * n) by (nonlinear_arith)
                requires
                    side * side <= (2 * bound + 1) * (2 * bound + 1),
                    0 <= n,
            ;
        }
        if side * side * n <= goal {
            lo = mid;
        } else {
            hi = mid;
        }
    }
    proof {
        lemma_nearest_root_is(m as int, n as int, lo as int);
    }
    lo
}


/// `|x|` as a mathematical integer.
pub open spec fn abs(x: int) -> int {
    if x < 0 {
        -x
    } else {
        x
    }
}

/// One coordinate `x` of a vector of squared length `n2 >= 1`, after the
/// vector is scaled to length `len`: the integer nearest to
/// `x * len / sqrt(n2)`.
pub open spec fn scaled_coord(x: int, n2: int, len: int) -> int {
    if x < 0 {
        -nearest_root(x * x * len * len, n2)
    } else {
        nearest_root(x * x * len * len, n2)
    }
}

/// The vector `(x, y)` scaled to length `len`, each coordinate rounded to
/// the nearest integer. The zero vector has no direction and stays as it is.
pub open spec fn scaled(x: int, y: int, len: int) -> (int, int) {
    if x == 0 && y == 0 {
        (x, y)
    } else {
        (scaled_coord(x, x * x + y * y, len), scaled_coord(y, x * x + y * y, len))
    }
}

/// The vector `(x, y)` if it is no longer than `len`, else scaled to `len`.
pub open spec fn capped(x: int, y: int, len: int) -> (int, int) {
    if x * x + y * y > len * len {
        scaled(x, y, len)
    } else {
        (x, y)
    }
}

/// A scaled coordinate keeps the sign that it had and is no longer than
/// the target length.
pub proof fn lemma_scaled_coord_bounds(x: int, n2: int, len: int)
    requires
        0 <= len,
        1 <= n2,
        x * x <= n2,
    ensures
        abs(scaled_coord(x, n2, len)) <= len,
        x >= 0 ==> scaled_coord(x, n2, len) >= 0,
        x <= 0 ==> scaled_coord(x, n2, len) <= 0,
{
    let m = x * x * len * len;
    assert(0 <= m && (x == 0 ==> m == 0)) by (nonlinear_arith)
        requires
            m == x * x * len * len,
    ;
    lemma_nearest_root_bounds(m, n2);
    let r = nearest_root(m, n2);
    if r > len {
        lemma_length_not_exceeded(x, n2, len);
        lemma_reaches_downward(len + 1, r, m, n2);
    }
}

/// `len + 1` does not reach `|x| * len / sqrt(n2)` when `x * x <= n2`.
pub proof fn lemma_length_not_exceeded(x: int, n2: int, len: int)
    requires
        0 <= len,
        1 <= n2,
        x * x <= n2,
    ensures
        !reaches(len + 1, x * x * len * len, n2),
{
    assert(0 <= x * x) by (nonlinear_arith);
    assert((2 * (len + 1) - 1) * (2 * (len + 1) - 1) * n2 > 4 * (x * x * len * len))
        by (nonlinear_arith)
        requires
            0 <= len,
            1 <= n2,
            0 <= x * x <= n2,
    {
        assert((2 * len + 1) * (2 * len + 1) == 4 * len * len + 4 * len + 1);
        assert(4 * len * len * (x * x) <= 4 * len * len * n2);
        assert(4 * (x * x * len * len) == 4 * len * len * (x * x));
        assert((4 * len * len + 4 * len + 1) * n2 == 4 * len * len * n2 + (4 * len + 1) * n2);
        assert((4 * len + 1) * n2 >= 1);
    }
}

/// Both coordinates of a scaled vector are within the target length.
pub proof fn lemma_scaled_bounds(x: int, y: int, len: int)
    requires
        0 <= len,
        x != 0 || y != 0,
    ensures
        abs(scaled(x, y, len).0) <= len,
        abs(scaled(x, y, len).1) <= len,
        x >= 0 ==> scaled(x, y, len).0 >= 0,
        x <= 0 ==> scaled(x, y, len).0 <= 0,
        y >= 0 ==> scaled(x, y, len).1 >= 0,
        y <= 0 ==> scaled(x, y, len).1 <= 0,
{
    assert(1 <= x * x + y * y && 0 <= x * x && 0 <= y * y) by (nonlinear_arith)
        requires
            x != 0 || y != 0,
    ;
    lemma_scaled_coord_bounds(x, x * x + y * y, len);
    lemma_scaled_coord_bounds(y, x * x + y * y, len);
}

fn magnitude(x: i64) -> (a: u128)
    ensures
        a == abs(x as int),
{
    if x < 0 {
        let wide: i128 = x as i128;
        (-wide) as u128
    } else {
        x as u128
    }
}

fn scale_coord(x: i64, ax: u128, n2: u128, len: u128) -> (r: i64)
    requires
        ax == abs(x as int),
        1 <= n2,
        ax * ax <= n2,
        len <= i64::MAX,
        (2 * len + 1) * (2 * len + 1) * n2 <= u128::MAX,
    ensures
        r == scaled_coord(x as int, n2 as int, len as int),
        abs(r as int) <= len,
{
    proof {
        assert(ax * ax == x * x) by (nonlinear_arith)
            requires
                ax == x || ax == -x,
        ;
        assert(0 <= ax * ax) by (nonlinear_arith);
        lemma_length_not_exceeded(x as int, n2 as int, len as int);
        lemma_scaled_coord_bounds(x as int, n2 as int, len as int);
        assert(4 * (ax * ax * len * len) <= (2 * len + 1) * (2 * len + 1) * n2)
            by (nonlinear_arith)
            requires
                0 <= ax * ax <= n2,
                0 <= len,
        {
            assert(4 * (ax * ax * len * len) == 4 * len * len * (ax * ax));
            assert(4 * len * len * (ax * ax) <= 4 * len * len * n2);
            assert((2 * len + 1) * (2 * len + 1) * n2 == 4 * len * len * n2 + (4 * len + 1) * n2);
        }
        assert(ax * ax * len * len == x * x * len * len) by (nonlinear_arith)
            requires
                ax == x || ax == -x,
        ;
        assert(ax * ax <= ax * ax * len * len || len == 0) by (nonlinear_arith)
            requires
                0 <= ax,
                0 <= len,
        ;
        assert(ax * ax * len <= ax * ax * len * len) by (nonlinear_arith)
            requires
                0 <= ax,
                0 <= len,
        ;
    }
    let square: u128 = ax * ax;
    let m: u128 = square * len * len;
    let r: u128 = nearest_root_below(m, n2, len);
    if x < 0 {
        -(r as i64)
    } else {
        r as i64
    }
}

/// Scales `(x, y)` to length `len`, rounding each coordinate to the nearest
/// integer.
pub fn scale_wide(x: i64, y: i64, len: i64) -> (r: (i64, i64))
    requires
        0 <= len,
        (2 * len + 1) * (2 * len + 1) * (x * x + y * y) <= u128::MAX,
    ensures
        r.0 == scaled(x as int, y as int, len as int).0,
        r.1 == scaled(x as int, y as int, len as int).1,
{
    if x == 0 && y == 0 {
        return (x, y);
    }
    let ax: u128 = magnitude(x);
    let ay: u128 = magnitude(y);
    proof {
        assert(ax * ax + ay * ay == x * x + y * y) by (nonlinear_arith)
            requires
                ax == x || ax == -x,
                ay == y || ay == -y,
        ;
        assert(1 <= ax * ax + ay * ay) by (nonlinear_arith)
            requires
                ax >= 1 || ay >= 1,
                ax >= 0,
                ay >= 0,
        ;
        assert(0 <= ax * ax && 0 <= ay * ay) by (nonlinear_arith);
        lemma_square_fits(2 * len + 1, x * x + y * y, u128::MAX as int);
        assert(x * x + y * y <= (2 * len + 1) * (2 * len + 1) * (x * x + y * y))
            by (nonlinear_arith)
            requires
                0 <= len,
                0 <= x * x + y * y,
        ;
    }
    let n2: u128 = ax * ax + ay * ay;
    let rx: i64 = scale_coord(x, ax, n2, len as u128);
    let ry: i64 = scale_coord(y, ay, n2, len as u128);
    (rx, ry)
}

/// Brings `(x, y)` back to length `len` if it is longer.
pub fn cap_wide(x: i64, y: i64, len: i64) -> (r: (i64, i64))
    requires
        -0x100_0000_0000 <= x <= 0x100_0000_0000,
        -0x100_0000_0000 <= y <= 0x100_0000_0000,
        0 <= len <= 0x10_0000,
    ensures
        r.0 == capped(x as int, y as int, len as int).0,
        r.1 == capped(x as int, y as int, len as int).1,
        abs(r.0 as int) <= len,
        abs(r.1 as int) <= len,
{
    let wx: i128 = x as i128;
    let wy: i128 = y as i128;
    let wl: i128 = len as i128;
    proof {
        lemma_cap_fits(x as int, y as int, len as int);
        lemma_capped_bounds(x as int, y as int, len as int);
    }
    if wx * wx + wy * wy > wl * wl {
        scale_wide(x, y, len)
    } else {
        (x, y)
    }
}

/// The arithmetic of `cap_wide` stays within 128 bits.
pub proof fn lemma_cap_fits(x: int, y: int, len: int)
    requires
        -0x100_0000_0000 <= x <= 0x100_0000_0000,
        -0x100_0000_0000 <= y <= 0x100_0000_0000,
        0 <= len <= 0x10_0000,
    ensures
        0 <= x * x <= 0x1_0000_0000_0000_0000_0000,
        0 <= y * y <= 0x1_0000_0000_0000_0000_0000,
        0 <= len * len <= 0x100_0000_0000,
        (2 * len + 1) * (2 * len + 1) * (x * x + y * y) <= u128::MAX,
{
    assert(0 <= x * x <= 0x1_0000_0000_0000_0000_0000) by (nonlinear_arith)
        requires
            -0x100_0000_0000 <= x <= 0x100_0000_0000,
    ;
    assert(0 <= y * y <= 0x1_0000_0000_0000_0000_0000) by (nonlinear_arith)
        requires
            -0x100_0000_0000 <= y <= 0x100_0000_0000,
    ;
    assert(0 <= len * len <= 0x100_0000_0000) by (nonlinear_arith)
        requires
            0 <= len <= 0x10_0000,
    ;
    assert(0 <= (2 * len + 1) * (2 * len + 1) <= 0x800_0000_0000) by (nonlinear_arith)
        requires
            0 <= len <= 0x10_0000,
    ;
    assert((2 * len + 1) * (2 * len + 1) * (x * x + y * y) <= 0x800_0000_0000
        * 0x2_0000_0000_0000_0000_0000) by (nonlinear_arith)
        requires
            0 <= (2 * len + 1) * (2 * len + 1) <= 0x800_0000_0000,
            0 <= x * x + y * y <= 0x2_0000_0000_0000_0000_0000,
    ;
}

/// A vector no longer than `len` has both coordinates within `len`.
pub proof fn lemma_short_coords(x: int, y: int, len: int)
    by (nonlinear_arith)
    requires
        0 <= len,
        x * x + y * y <= len * len,
    ensures
        abs(x) <= len,
        abs(y) <= len,
{
}

/// Both coordinates of a capped vector are within the cap.
pub proof fn lemma_capped_bounds(x: int, y: int, len: int)
    requires
        0 <= len,
    ensures
        abs(capped(x, y, len).0) <= len,
        abs(capped(x, y, len).1) <= len,
{
    if x * x + y * y > len * len {
        if x == 0 && y == 0 {
            assert(len * len >= 0) by (nonlinear_arith);
        } else {
            lemma_scaled_bounds(x, y, len);
        }
    } else {
        lemma_short_coords(x, y, len);
    }
}

/// The square of `2 * |r| - 1`, or `0` for `r == 0`: four times the squared
/// length that a rounded coordinate `r` is sure to stand for.
pub open spec fn inner_square(r: int) -> int {
    if r == 0 {
        0
    } else {
        (2 * abs(r) - 1) * (2 * abs(r) - 1)
    }
}

/// Rounding moves each coordinate by at most one half: a scaled vector,
/// pulled half a unit toward zero on each axis, is no longer than `len`, so
/// the vector itself is shorter than `len + 1`.
pub proof fn lemma_scaled_length(x: int, y: int, len: int)
    requires
        0 <= len,
        x != 0 || y != 0,
    ensures
        inner_square(scaled(x, y, len).0) + inner_square(scaled(x, y, len).1) <= 4 * len * len,
        scaled(x, y, len).0 * scaled(x, y, len).0 + scaled(x, y, len).1 * scaled(x, y, len).1 < (
        len + 1) * (len + 1),
{
    let n2 = x * x + y * y;
    let a = scaled(x, y, len).0;
    let b = scaled(x, y, len).1;
    lemma_scaled_bounds(x, y, len);
    assert(1 <= n2 && 0 <= x * x && 0 <= y * y) by (nonlinear_arith)
        requires
            x != 0 || y != 0,
            n2 == x * x + y * y,
    ;
    let mx = x * x * len * len;
    let my = y * y * len * len;
    assert(0 <= mx && 0 <= my && mx + my == len * len * n2) by (nonlinear_arith)
        requires
            mx == x * x * len * len,
            my == y * y * len * len,
            n2 == x * x + y * y,
    ;
    lemma_nearest_root_bounds(mx, n2);
    lemma_nearest_root_bounds(my, n2);
    assert(inner_square(a) * n2 <= 4 * mx) by {
        assert(abs(a) == nearest_root(mx, n2));
        assert(0 * n2 == 0);
    }
    assert(inner_square(b) * n2 <= 4 * my) by {
        assert(abs(b) == nearest_root(my, n2));
        assert(0 * n2 == 0);
    }
    let e = inner_square(a) + inner_square(b);
    assert(e * n2 == inner_square(a) * n2 + inner_square(b) * n2) by (nonlinear_arith)
        requires
            e == inner_square(a) + inner_square(b),
    ;
    assert(e <= 4 * len * len) by (nonlinear_arith)
        requires
            e * n2 <= 4 * (len * len * n2),
            1 <= n2,
    ;
    assert(a * a + b * b < (len + 1) * (len + 1)) by (nonlinear_arith)
        requires
            e == inner_square(a) + inner_square(b),
            e <= 4 * len * len,
            abs(a) <= len,
            abs(b) <= len,
            inner_square(a) == if a == 0 {
                0
            } else {
                (2 * abs(a) - 1) * (2 * abs(a) - 1)
            },
            inner_square(b) == if b == 0 {
                0
            } else {
                (2 * abs(b) - 1) * (2 * abs(b) - 1)
            },
            abs(a) == a || abs(a) == -a,
            abs(b) == b || abs(b) == -b,
            0 <= abs(a),
            0 <= abs(b),
    {
        assert(abs(a) * abs(a) == a * a);
        assert(abs(b) * abs(b) == b * b);
        assert((2 * abs(a) - 1) * (2 * abs(a) - 1) == 4 * (a * a) - 4 * abs(a) + 1);
        assert((2 * abs(b) - 1) * (2 * abs(b) - 1) == 4 * (b * b) - 4 * abs(b) + 1);
        assert(a * a <= len * len);
        assert(b * b <= len * len);
        assert((len + 1) * (len + 1) == len * len + 2 * len + 1);
    }
}

/// A capped vector is shorter than `len + 1`, and no longer than `len`
/// where nothing had to be scaled.
pub proof fn lemma_capped_length(x: int, y: int, len: int)
    requires
        0 <= len,
    ensures
        capped(x, y, len).0 * capped(x, y, len).0 + capped(x, y, len).1 * capped(x, y, len).1 < (
        len + 1) * (len + 1),
        x * x + y * y <= len * len ==> capped(x, y, len) == (x, y),
{
    if x * x + y * y > len * len {
        if x == 0 && y == 0 {
            assert(len * len >= 0) by (nonlinear_arith);
        } else {
            lemma_scaled_length(x, y, len);
        }
    } else {
        assert(len * len < (len + 1) * (len + 1)) by (nonlinear_arith)
            requires
                0 <= len,
        ;
    }
}

} // verus!
