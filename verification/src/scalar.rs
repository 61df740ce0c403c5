use vstd::arithmetic::div_mod::{lemma_fundamental_div_mod, lemma_fundamental_div_mod_converse};
use vstd::prelude::*;

verus! {

/// Number of fixed-point units that make up one whole unit of measure.
pub const UNITS: i64 = 1000;

/// Value of a raster cell that holds no sample.
pub const NODATA: i64 = -9_999_000;

/// Largest magnitude of a coordinate, an elevation or a value of a point.
pub const LIMIT: i64 = 0x100_0000_0000;

/// Whether a scalar is small enough to be a coordinate, an elevation or a
/// value of a point.
pub open spec fn in_range(v: int) -> bool {
    -LIMIT <= v <= LIMIT
}

/// The quotient `n / d` rounded down to an integer, for a divisor other than
/// zero of either sign.
pub open spec fn floor_ratio(n: int, d: int) -> int {
    if d > 0 {
        n / d
    } else {
        (-n) / (-d)
    }
}

/// The quotient `n / d` rounded up to an integer, for a positive divisor.
pub open spec fn ceil_ratio(n: int, d: int) -> int {
    -((-n) / d)
}

/// A scalar rounded to the nearest whole unit, halves away from zero.
pub open spec fn rounded(v: int) -> int {
    if v >= 0 {
        (v + UNITS / 2) / (UNITS as int) * UNITS
    } else {
        -((-v + UNITS / 2) / (UNITS as int) * UNITS)
    }
}

/// Whether a scalar is small enough to be a coordinate, an elevation or a
/// value of a point.
pub fn is_in_range(v: i64) -> (b: bool)
    ensures
        b == in_range(v as int),
{
    -LIMIT <= v && v <= LIMIT
}

/// Divides by a positive divisor and rounds down.
pub fn floor_div(n: i128, d: i128) -> (q: i128)
    requires
        d > 0,
    ensures
        q == n as int / d as int,
{
    let q: i128 = n / d;
    let r: i128 = n % d;
    if r < 0 {
        proof {
            let m = -(n as int);
            lemma_fundamental_div_mod(m, d as int);
            assert(n as int == (q - 1) * (d as int) + (d + r) && q - 1 >= i128::MIN)
                by (nonlinear_arith)
                requires
                    m == (d as int) * (m / (d as int)) + (m % (d as int)),
                    n as int == -m,
                    q as int == -(m / (d as int)),
                    r as int == -(m % (d as int)),
                    r < 0,
                    d > 0,
                    n >= i128::MIN,
            ;
            lemma_fundamental_div_mod_converse(n as int, d as int, q - 1, d + r);
        }
        q - 1
    } else {
        proof {
            if n < 0 {
                let m = -(n as int);
                lemma_fundamental_div_mod(m, d as int);
                assert(n as int == (q as int) * (d as int) + 0) by (nonlinear_arith)
                    requires
                        m == (d as int) * (m / (d as int)) + 0,
                        n as int == -m,
                        q as int == -(m / (d as int)),
                ;
                lemma_fundamental_div_mod_converse(n as int, d as int, q as int, 0);
            }
        }
        q
    }
}

/// Divides by a positive divisor and rounds up.
pub fn ceil_div(n: i128, d: i128) -> (q: i128)
    requires
        d > 0,
    ensures
        q == ceil_ratio(n as int, d as int),
{
    let q: i128 = n / d;
    let r: i128 = n % d;
    if r > 0 {
        proof {
            lemma_fundamental_div_mod(n as int, d as int);
            assert(-(n as int) == (-q - 1) * (d as int) + (d - r) && q + 1 <= i128::MAX)
                by (nonlinear_arith)
                requires
                    n as int == (d as int) * (q as int) + (r as int),
                    0 < r < d,
                    n <= i128::MAX,
                    q >= 0,
            ;
            lemma_fundamental_div_mod_converse(-(n as int), d as int, -q - 1, d - r);
        }
        q + 1
    } else {
        proof {
            if n >= 0 {
                lemma_fundamental_div_mod(n as int, d as int);
                assert(-(n as int) == (-(q as int)) * (d as int) + 0) by (nonlinear_arith)
                    requires
                        n as int == (d as int) * (q as int) + 0,
                ;
                lemma_fundamental_div_mod_converse(-(n as int), d as int, -(q as int), 0);
            }
        }
        q
    }
}

/// Rounds a scalar to the nearest whole unit, halves away from zero.
pub fn round_to_whole(v: i64) -> (r: i128)
    ensures
        r == rounded(v as int),
        -0x8000_0000_0000_0400 <= r <= 0x8000_0000_0000_0400,
        r % 1000 == 0,
{
    let wide: i128 = v as i128;
    if wide >= 0 {
        let q: i128 = (wide + 500) / 1000;
        assert((q * 1000) % 1000 == 0) by (nonlinear_arith);
        q * 1000
    } else {
        let q: i128 = (-wide + 500) / 1000;
        assert((-(q * 1000)) % 1000 == 0) by (nonlinear_arith);
        -(q * 1000)
    }
}

} // verus!
