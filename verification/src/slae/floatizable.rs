//! Integers that survive storage in a binary format with a 24-bit significand.
//!
//! A matrix cell is an integer that a solver may read into a single-precision
//! variable. Such a variable holds every integer of magnitude up to 2^24 and,
//! above that, only the multiples of a power of two that doubles with each
//! binade. An integer is *floatizable* when storing it in such a variable and
//! reading it back as a 32-bit integer gives the same integer.
use vstd::prelude::*;

verus! {

/// Distance between neighbouring representable values around the magnitude `a`.
pub open spec fn spacing(a: int) -> int {
    if a < 0x100_0000 {
        1
    } else if a < 0x200_0000 {
        2
    } else if a < 0x400_0000 {
        4
    } else if a < 0x800_0000 {
        8
    } else if a < 0x1000_0000 {
        16
    } else if a < 0x2000_0000 {
        32
    } else if a < 0x4000_0000 {
        64
    } else if a < 0x8000_0000 {
        128
    } else {
        256
    }
}

/// The multiple of `u` nearest to `a`; of two equally near, the even multiple.
pub open spec fn nearest_multiple(a: int, u: int) -> int {
    let q = a / u;
    let r = a % u;
    if 2 * r < u || (2 * r == u && q % 2 == 0) {
        q * u
    } else {
        (q + 1) * u
    }
}

/// The representable value nearest to `v`.
pub open spec fn nearest_representable(v: int) -> int {
    if v >= 0 {
        nearest_multiple(v, spacing(v))
    } else {
        -nearest_multiple(-v, spacing(-v))
    }
}

/// What a 32-bit integer reads back as after it was stored: the nearest
/// representable value, held down to the largest 32-bit integer.
pub open spec fn round_trip(v: int) -> int {
    let r = nearest_representable(v);
    if r > i32::MAX {
        i32::MAX as int
    } else {
        r
    }
}

/// `v` reads back unchanged.
pub open spec fn floatizable(v: int) -> bool {
    round_trip(v) == v
}

proof fn lemma_multiple_bounds(a: int, u: int)
    requires
        0 <= a,
        0 < u,
    ensures
        0 <= (a / u) * u <= a,
        a < (a / u + 1) * u,
        a == (a / u) * u + a % u,
        0 <= a % u < u,
        (a / u + 1) * u == (a / u) * u + u,
{
    vstd::arithmetic::div_mod::lemma_fundamental_div_mod(a, u);
    vstd::arithmetic::div_mod::lemma_mod_bound(a, u);
    assert((a / u) * u == u * (a / u)) by (nonlinear_arith);
    assert((a / u + 1) * u == (a / u) * u + u) by (nonlinear_arith);
    assert(0 <= a / u) by (nonlinear_arith)
        requires
            0 <= a,
            0 < u,
    ;
    assert(0 <= (a / u) * u) by (nonlinear_arith)
        requires
            0 <= a / u,
            0 < u,
    ;
}

/// A value reads back unchanged exactly when its magnitude lies on the grid
/// of representable values, or when it is the largest 32-bit integer, which
/// rounds up and is held down again.
pub proof fn lemma_floatizable_iff_on_grid(v: int)
    requires
        i32::MIN <= v <= i32::MAX,
    ensures
        floatizable(v) <==> (v == i32::MAX || (if v >= 0 {
            v
        } else {
            -v
        }) % spacing(
            if v >= 0 {
                v
            } else {
                -v
            },
        ) == 0),
{
    let a = if v >= 0 {
        v
    } else {
        -v
    };
    let u = spacing(a);
    lemma_multiple_bounds(a, u);
}

/// Every integer of magnitude up to 2^24 is floatizable.
pub proof fn lemma_small_is_floatizable(v: int)
    requires
        -0x100_0000 <= v <= 0x100_0000,
    ensures
        floatizable(v),
{
    lemma_floatizable_iff_on_grid(v);
}

/// What was read back can be stored again without change.
pub proof fn lemma_round_trip_is_floatizable(v: int)
    requires
        i32::MIN <= v <= i32::MAX,
    ensures
        i32::MIN <= round_trip(v) <= i32::MAX,
        floatizable(round_trip(v)),
        floatizable(v) ==> round_trip(v) == v,
{
    let a = if v >= 0 {
        v
    } else {
        -v
    };
    let u = spacing(a);
    lemma_multiple_bounds(a, u);
    let m = nearest_multiple(a, u);
    let k = if m == (a / u) * u {
        a / u
    } else {
        a / u + 1
    };
    assert(m == k * u);
    assert(m % u == 0) by {
        vstd::arithmetic::div_mod::lemma_mod_multiples_basic(k, u);
    }
    let w = round_trip(v);
    lemma_floatizable_iff_on_grid(w);
    let b = if w >= 0 {
        w
    } else {
        -w
    };
    if w != i32::MAX {
        assert(b == m);
        if spacing(m) != u {
            assert(m == 2 * u * 0x80_0000);
            assert(spacing(m) == 2 * u);
        }
        assert(b % spacing(b) == 0);
    }
}

fn spacing_of(a: i64) -> (u: i64)
    requires
        0 <= a <= 0x8000_0000,
    ensures
        u == spacing(a as int),
        1 <= u <= 256,
{
    if a < 0x100_0000 {
        1
    } else if a < 0x200_0000 {
        2
    } else if a < 0x400_0000 {
        4
    } else if a < 0x800_0000 {
        8
    } else if a < 0x1000_0000 {
        16
    } else if a < 0x2000_0000 {
        32
    } else if a < 0x4000_0000 {
        64
    } else if a < 0x8000_0000 {
        128
    } else {
        256
    }
}

/// Stores `v` and reads it back.
pub fn round_trip_of(v: i32) -> (r: i32)
    ensures
        r == round_trip(v as int),
{
    let a: i64 = if v >= 0 {
        v as i64
    } else {
        -(v as i64)
    };
    let u: i64 = spacing_of(a);
    proof {
        lemma_multiple_bounds(a as int, u as int);
    }
    let q: i64 = a / u;
    let r: i64 = a % u;
    let m: i64 = if 2 * r < u || (2 * r == u && q % 2 == 0) {
        q * u
    } else {
        (q + 1) * u
    };
    let s: i64 = if v >= 0 {
        m
    } else {
        -m
    };
    if s > i32::MAX as i64 {
        i32::MAX
    } else {
        s as i32
    }
}

/// Whether `v` reads back unchanged.
pub fn is_floatizable(v: i32) -> (r: bool)
    ensures
        r == floatizable(v as int),
{
    round_trip_of(v) == v
}

} // verus!
