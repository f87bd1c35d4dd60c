//! What binary64 arithmetic means.
//!
//! Every finite binary64 number is a whole multiple of the smallest positive
//! one, which is `2^-1074`. That number is the *unit* here, so the magnitude of
//! a finite number is a natural number of units, and each operation is exact
//! arithmetic on natural numbers followed by one rounding.

use vstd::arithmetic::div_mod::{
    lemma_div_is_ordered, lemma_fundamental_div_mod, lemma_fundamental_div_mod_converse,
};
use vstd::arithmetic::power2::{
    lemma2_to64, lemma2_to64_rest, lemma_pow2_adds, lemma_pow2_pos, lemma_pow2_strictly_increases, lemma_pow2_unfold, pow2,
};
use vstd::prelude::*;

verus! {

/// A binary64 datum: not a number, an infinity, or a signed number of units.
/// The payloads of the various "not a number" patterns are not told apart.
pub enum Real64 {
    Nan,
    Infinite { negative: bool },
    Finite { negative: bool, units: nat },
}

/// `p / q` rounded to a whole number, halfway cases to the even one.
pub open spec fn half_even(p: nat, q: nat) -> nat {
    let whole = p / q;
    let rest = p % q;
    if 2 * rest < q || (2 * rest == q && whole % 2 == 0) {
        whole
    } else {
        whole + 1
    }
}

/// `p / q` units rounded to 53 significant bits: below `2^53` units to a whole
/// number of units, above that on a grid that coarsens with every doubling.
pub open spec fn nearest_units(p: nat, q: nat) -> nat
    decreases p - q,
{
    if q == 0 || p < q * 0x20_0000_0000_0000 {
        half_even(p, q)
    } else {
        2 * nearest_units(p, 2 * q)
    }
}

/// The binary64 number nearest to `p / q` units, with the given sign. What
/// rounds to `2^1024` or more is infinite.
pub open spec fn nearest(negative: bool, p: nat, q: nat) -> Real64 {
    let units = nearest_units(p, q);
    if units < pow2(2098) {
        Real64::Finite { negative, units }
    } else {
        Real64::Infinite { negative }
    }
}

/// The natural number `n`, rounded.
pub open spec fn real_of(n: nat) -> Real64 {
    nearest(false, n * pow2(1074), 1)
}

/// Can a finite number be written with 53 significant bits, within range? Only
/// such numbers are binary64 numbers.
pub open spec fn representable(x: Real64) -> bool {
    x is Finite ==> {
        &&& x->units < pow2(2098)
        &&& exists|m: nat, e: nat|
            m < 0x20_0000_0000_0000 && x->units == #[trigger] (m * pow2(e))
    }
}

impl Real64 {
    /// Is this a number at all?
    pub open spec fn is_number(self) -> bool {
        self !is Nan
    }

    /// The sign bit; that of a "not a number" is taken as clear.
    pub open spec fn is_negative(self) -> bool {
        match self {
            Real64::Nan => false,
            Real64::Infinite { negative } => negative,
            Real64::Finite { negative, units } => negative,
        }
    }

    /// The same number with the sign turned round.
    pub open spec fn neg(self) -> Real64 {
        match self {
            Real64::Nan => Real64::Nan,
            Real64::Infinite { negative } => Real64::Infinite { negative: !negative },
            Real64::Finite { negative, units } => Real64::Finite { negative: !negative, units },
        }
    }

    /// The signed number of units of a finite number.
    pub open spec fn signed(self) -> int {
        match self {
            Real64::Finite { negative, units } => if negative {
                -(units as int)
            } else {
                units as int
            },
            _ => 0,
        }
    }

    /// Where a number lies: below, among or above the finite ones.
    pub open spec fn rank(self) -> int {
        match self {
            Real64::Infinite { negative } => if negative {
                -1int
            } else {
                1int
            },
            _ => 0int,
        }
    }

    /// `self < other`; false where either is not a number.
    pub open spec fn lt(self, other: Real64) -> bool {
        &&& self.is_number()
        &&& other.is_number()
        &&& self.rank() < other.rank() || (self.rank() == other.rank() && self.signed()
            < other.signed())
    }

    /// `self <= other`; false where either is not a number.
    pub open spec fn le(self, other: Real64) -> bool {
        self.is_number() && other.is_number() && !other.lt(self)
    }

    /// The rounded sum. An exact zero is positive unless both terms are
    /// negative, and infinities of opposite sign have no sum.
    pub open spec fn plus(self, other: Real64) -> Real64 {
        match (self, other) {
            (Real64::Nan, _) => Real64::Nan,
            (_, Real64::Nan) => Real64::Nan,
            (Real64::Infinite { negative: a }, Real64::Infinite { negative: b }) => if a == b {
                self
            } else {
                Real64::Nan
            },
            (Real64::Infinite { .. }, _) => self,
            (_, Real64::Infinite { .. }) => other,
            (Real64::Finite { negative: a, .. }, Real64::Finite { negative: b, .. }) => {
                let sum = self.signed() + other.signed();
                if sum == 0 {
                    Real64::Finite { negative: a && b, units: 0 }
                } else if sum < 0 {
                    nearest(true, (-sum) as nat, 1)
                } else {
                    nearest(false, sum as nat, 1)
                }
            },
        }
    }

    /// The rounded difference.
    pub open spec fn minus(self, other: Real64) -> Real64 {
        self.plus(other.neg())
    }

    /// The rounded product. Zero times infinity is not a number.
    pub open spec fn times(self, other: Real64) -> Real64 {
        let negative = self.is_negative() != other.is_negative();
        match (self, other) {
            (Real64::Nan, _) => Real64::Nan,
            (_, Real64::Nan) => Real64::Nan,
            (Real64::Infinite { .. }, Real64::Infinite { .. }) => Real64::Infinite { negative },
            (Real64::Infinite { .. }, Real64::Finite { units, .. }) => if units == 0 {
                Real64::Nan
            } else {
                Real64::Infinite { negative }
            },
            (Real64::Finite { units, .. }, Real64::Infinite { .. }) => if units == 0 {
                Real64::Nan
            } else {
                Real64::Infinite { negative }
            },
            (Real64::Finite { units: a, .. }, Real64::Finite { units: b, .. }) => nearest(
                negative,
                a * b,
                pow2(1074),
            ),
        }
    }

    /// The rounded quotient. `0 / 0` and infinity over infinity are not
    /// numbers; any other number over zero is infinite.
    pub open spec fn over(self, other: Real64) -> Real64 {
        let negative = self.is_negative() != other.is_negative();
        match (self, other) {
            (Real64::Nan, _) => Real64::Nan,
            (_, Real64::Nan) => Real64::Nan,
            (Real64::Infinite { .. }, Real64::Infinite { .. }) => Real64::Nan,
            (Real64::Infinite { .. }, Real64::Finite { .. }) => Real64::Infinite { negative },
            (Real64::Finite { .. }, Real64::Infinite { .. }) => Real64::Finite {
                negative,
                units: 0,
            },
            (Real64::Finite { units: a, .. }, Real64::Finite { units: b, .. }) => if b == 0 {
                if a == 0 {
                    Real64::Nan
                } else {
                    Real64::Infinite { negative }
                }
            } else {
                nearest(negative, a * pow2(1074), b)
            },
        }
    }

    /// The nearest natural number, halfway cases upward, clamped to `0..=max`;
    /// zero for what is not a number.
    pub open spec fn round_clamped(self, max: nat) -> nat {
        match self {
            Real64::Nan => 0,
            Real64::Infinite { negative } => if negative {
                0
            } else {
                max
            },
            Real64::Finite { negative, units } => if negative {
                0
            } else {
                let n = (2 * units + pow2(1074)) / (2 * pow2(1074));
                if n < max {
                    n
                } else {
                    max
                }
            },
        }
    }
}

// ---------------------------------------------------------------------------
// Rounding
// ---------------------------------------------------------------------------

/// A whole quotient is left alone.
pub proof fn lemma_half_even_exact(m: nat, q: nat)
    requires
        q > 0,
    ensures
        half_even(m * q, q) == m,
{
    lemma_fundamental_div_mod_converse((m * q) as int, q as int, m as int, 0);
}

/// A common factor does not matter.
pub proof fn lemma_half_even_scale(p: nat, q: nat, c: nat)
    requires
        q > 0,
        c > 0,
    ensures
        q * c > 0,
        half_even(p * c, q * c) == half_even(p, q),
{
    let whole = (p / q) as int;
    let rest = (p % q) as int;
    lemma_fundamental_div_mod(p as int, q as int);
    assert(q * c > 0) by (nonlinear_arith)
        requires
            q > 0,
            c > 0,
    ;
    assert(p * c == (q * c) * whole + rest * c) by (nonlinear_arith)
        requires
            p == q * whole + rest,
    ;
    assert(0 <= rest * c < q * c) by (nonlinear_arith)
        requires
            0 <= rest < q,
            c > 0,
    ;
    assert((q * c) * whole == whole * (q * c)) by (nonlinear_arith);
    lemma_fundamental_div_mod_converse((p * c) as int, (q * c) as int, whole, rest * c);
    assert(2 * (rest * c) < q * c <==> 2 * rest < q) by (nonlinear_arith)
        requires
            c > 0,
    ;
    assert(2 * (rest * c) == q * c <==> 2 * rest == q) by (nonlinear_arith)
        requires
            c > 0,
    ;
}

/// Rounding can be read off a truncated quotient: its dropped bits, and
/// whether anything was cut off below them.
pub proof fn lemma_half_even_sticky(p: nat, g: nat, t: nat)
    requires
        g > 0,
        t >= 1,
    ensures
        g * pow2(t) > 0,
        half_even(p, g * pow2(t)) == ({
            let m = p / g;
            let d = m / pow2(t);
            let r = m % pow2(t);
            let half = pow2((t - 1) as nat);
            if r < half || (r == half && p % g == 0 && d % 2 == 0) {
                d
            } else {
                d + 1
            }
        }),
{
    lemma_pow2_pos(t);
    lemma_pow2_pos((t - 1) as nat);
    lemma_pow2_unfold(t);
    let unit = pow2(t) as int;
    let half = pow2((t - 1) as nat) as int;
    let m = (p / g) as int;
    let rho = (p % g) as int;
    lemma_fundamental_div_mod(p as int, g as int);
    let d = m / unit;
    let r = m % unit;
    lemma_fundamental_div_mod(m, unit);
    let gi = g as int;
    assert(gi * unit > 0) by (nonlinear_arith)
        requires
            gi > 0,
            unit > 0,
    ;
    let rem = gi * r + rho;
    assert(p == d * (gi * unit) + rem) by (nonlinear_arith)
        requires
            p == gi * m + rho,
            m == unit * d + r,
            rem == gi * r + rho,
    ;
    assert(gi * r + gi <= gi * unit) by (nonlinear_arith)
        requires
            r + 1 <= unit,
            gi > 0,
    ;
    assert(0 <= gi * r) by (nonlinear_arith)
        requires
            0 <= r,
            gi > 0,
    ;
    lemma_fundamental_div_mod_converse(p as int, gi * unit, d, rem);
    assert(gi * unit == 2 * (gi * half)) by (nonlinear_arith)
        requires
            unit == 2 * half,
    ;
    if r < half {
        assert(gi * r + gi <= gi * half) by (nonlinear_arith)
            requires
                r + 1 <= half,
                gi > 0,
        ;
    } else if r > half {
        assert(gi * r >= gi * half + gi) by (nonlinear_arith)
            requires
                r >= half + 1,
                gi > 0,
        ;
    }
}

/// Which grid a quotient is rounded on.
pub proof fn lemma_nearest_scaled(p: nat, q: nat, s: nat)
    requires
        q > 0,
        p < q * pow2(s) * 0x20_0000_0000_0000,
        s > 0 ==> p >= q * pow2(s) * 0x10_0000_0000_0000,
    ensures
        nearest_units(p, q) == half_even(p, q * pow2(s)) * pow2(s),
    decreases s,
{
    if s == 0 {
        lemma2_to64();
        assert(q * pow2(0) == q) by (nonlinear_arith)
            requires
                pow2(0) == 1,
        ;
        assert(half_even(p, q) * pow2(0) == half_even(p, q)) by (nonlinear_arith)
            requires
                pow2(0) == 1,
        ;
    } else {
        let r = (s - 1) as nat;
        lemma_pow2_unfold(s);
        lemma_pow2_pos(r);
        lemma_pow2_pos(s);
        assert(q * pow2(s) == (2 * q) * pow2(r)) by (nonlinear_arith)
            requires
                pow2(s) == 2 * pow2(r),
        ;
        assert(q * pow2(s) >= 2 * q) by (nonlinear_arith)
            requires
                pow2(s) == 2 * pow2(r),
                pow2(r) >= 1,
        ;
        lemma_nearest_scaled(p, 2 * q, r);
        let h = half_even(p, q * pow2(s));
        assert(2 * (h * pow2(r)) == h * pow2(s)) by (nonlinear_arith)
            requires
                pow2(s) == 2 * pow2(r),
        ;
    }
}

/// A number of units that has at most 53 significant bits is left alone.
pub proof fn lemma_nearest_exact(m: nat, e: nat, q: nat)
    requires
        q > 0,
        m < 0x20_0000_0000_0000,
    ensures
        nearest_units(m * pow2(e) * q, q) == m * pow2(e),
    decreases e,
{
    let p = m * pow2(e) * q;
    if p < q * 0x20_0000_0000_0000 {
        lemma_half_even_exact(m * pow2(e), q);
    } else if e == 0 {
        lemma2_to64();
        assert(m * pow2(0) == m) by (nonlinear_arith)
            requires
                pow2(0) == 1,
        ;
        assert(m * q < q * 0x20_0000_0000_0000) by (nonlinear_arith)
            requires
                m < 0x20_0000_0000_0000,
                q > 0,
        ;
    } else {
        let r = (e - 1) as nat;
        lemma_pow2_unfold(e);
        assert(p == m * pow2(r) * (2 * q)) by (nonlinear_arith)
            requires
                p == m * pow2(e) * q,
                pow2(e) == 2 * pow2(r),
        ;
        lemma_nearest_exact(m, r, 2 * q);
        assert(2 * (m * pow2(r)) == m * pow2(e)) by (nonlinear_arith)
            requires
                pow2(e) == 2 * pow2(r),
        ;
    }
}

/// Rounding to a whole number keeps the order.
pub proof fn lemma_half_even_monotone(a: nat, b: nat, q: nat)
    requires
        q > 0,
        a <= b,
    ensures
        half_even(a, q) <= half_even(b, q),
{
    lemma_fundamental_div_mod(a as int, q as int);
    lemma_fundamental_div_mod(b as int, q as int);
    let (x, y) = ((a / q) as int, (b / q) as int);
    let (r, t) = ((a % q) as int, (b % q) as int);
    let d = q as int;
    lemma_div_is_ordered(a as int, b as int, q as int);
    if x == y {
        assert(r <= t) by (nonlinear_arith)
            requires
                a == d * x + r,
                b == d * x + t,
                a <= b,
        ;
    }
}

/// Rounding keeps the order.
pub proof fn lemma_nearest_monotone(a: nat, b: nat, q: nat)
    requires
        q > 0,
        a <= b,
    ensures
        nearest_units(a, q) <= nearest_units(b, q),
    decreases b - q,
{
    let top: nat = 0x20_0000_0000_0000;
    if b < q * top {
        lemma_half_even_monotone(a, b, q);
    } else if a < q * top {
        lemma_half_even_monotone(a, top * q, q);
        lemma_half_even_exact(top, q);
        assert(top * q == q * top) by (nonlinear_arith);
        let half: nat = 0x10_0000_0000_0000;
        lemma_nearest_monotone(half * (2 * q), b, 2 * q);
        assert(half * (2 * q) < (2 * q) * top) by (nonlinear_arith)
            requires
                half < top,
                q > 0,
        ;
        lemma_half_even_exact(half, 2 * q);
    } else {
        lemma_nearest_monotone(a, b, 2 * q);
    }
}

/// The distance between two natural numbers.
pub open spec fn distance(a: nat, b: nat) -> nat {
    if a <= b {
        (b - a) as nat
    } else {
        (a - b) as nat
    }
}

/// Rounding to a whole number moves by half a whole at most.
pub proof fn lemma_half_even_error(p: nat, q: nat)
    requires
        q > 0,
    ensures
        2 * distance(half_even(p, q) * q, p) <= q,
{
    lemma_fundamental_div_mod(p as int, q as int);
    let x = (p / q) as int;
    let d = q as int;
    assert(x * d == d * x) by (nonlinear_arith);
    assert((x + 1) * d == d * x + d) by (nonlinear_arith);
}

/// A normal number is off by one part in `2^53` at most.
pub proof fn lemma_nearest_error(p: nat, q: nat)
    requires
        q > 0,
        p >= q * 0x10_0000_0000_0000,
    ensures
        0x20_0000_0000_0000 * distance(nearest_units(p, q) * q, p) <= p,
    decreases p - q,
{
    if p < q * 0x20_0000_0000_0000 {
        lemma_half_even_error(p, q);
    } else {
        lemma_nearest_error(p, 2 * q);
        let y = nearest_units(p, 2 * q);
        assert((2 * y) * q == y * (2 * q)) by (nonlinear_arith);
    }
}

// ---------------------------------------------------------------------------
// Laws
// ---------------------------------------------------------------------------

/// Every natural number below `2^53` is a binary64 number.
pub proof fn law_small_naturals_are_exact(n: nat)
    requires
        n < 0x20_0000_0000_0000,
    ensures
        real_of(n) == (Real64::Finite { negative: false, units: n * pow2(1074) }),
{
    lemma2_to64_rest();
    lemma_nearest_exact(n, 1074, 1);
    assert(n * pow2(1074) * 1 == n * pow2(1074)) by (nonlinear_arith);
    lemma_pow2_adds(53, 1074);
    lemma_pow2_strictly_increases(1127, 2098);
    lemma_pow2_pos(1074);
    assert(n * pow2(1074) <= pow2(53) * pow2(1074)) by (nonlinear_arith)
        requires
            n <= pow2(53),
    ;
}

/// How far a rounded quotient can be off: by one part in `2^53`, or by half a unit
/// where that is more.
proof fn lemma_nearest_close(p: nat, q: nat)
    requires
        q > 0,
    ensures
        p >= q * 0x10_0000_0000_0000 ==> 0x20_0000_0000_0000 * distance(
            nearest_units(p, q) * q,
            p,
        ) <= p,
        p < q * 0x10_0000_0000_0000 ==> 2 * distance(nearest_units(p, q) * q, p) <= q,
        nearest_units(p, q) >= pow2(2098) ==> 2 * p >= q * pow2(2098),
{
    let x = nearest_units(p, q);
    if p >= q * 0x10_0000_0000_0000 {
        lemma_nearest_error(p, q);
        if x >= pow2(2098) {
            assert(x * q >= q * pow2(2098)) by (nonlinear_arith)
                requires
                    x >= pow2(2098),
            ;
        }
    } else {
        lemma_half_even_error(p, q);
        lemma2_to64();
        lemma_pow2_strictly_increases(2, 2098);
        if x >= pow2(2098) {
            assert(x * q >= q * pow2(2098)) by (nonlinear_arith)
                requires
                    x >= pow2(2098),
            ;
            assert(q * pow2(2098) >= 2 * q) by (nonlinear_arith)
                requires
                    pow2(2098) >= 2,
            ;
        }
    }
}

/// A sum of finite numbers has the sign of the exact sum and is off by one part in
/// `2^53` at most; it is infinite only where the exact sum is out of range.
pub proof fn law_sum_is_close(x: Real64, y: Real64)
    requires
        x is Finite,
        y is Finite,
    ensures
        ({
            let exact = x.signed() + y.signed();
            let size = if exact < 0 {
                (-exact) as nat
            } else {
                exact as nat
            };
            match x.plus(y) {
                Real64::Finite { negative, units } => {
                    &&& exact > 0 ==> !negative
                    &&& exact < 0 ==> negative
                    &&& 0x20_0000_0000_0000 * distance(units, size) <= size
                },
                Real64::Infinite { negative } => negative == (exact < 0) && 2 * size >= pow2(2098),
                Real64::Nan => false,
            }
        }),
{
    let exact = x.signed() + y.signed();
    let size = if exact < 0 {
        (-exact) as nat
    } else {
        exact as nat
    };
    lemma_nearest_close(size, 1);
    let r = nearest_units(size, 1);
    assert(r * 1 == r);
    assert(1 * pow2(2098) == pow2(2098));
    if size < 0x10_0000_0000_0000 {
        lemma_half_even_exact(size, 1);
        assert(size * 1 == size);
    }
}

/// A quotient of finite numbers has the sign of the exact quotient and is off by
/// one part in `2^53`, or by half a unit where that is more.
pub proof fn law_quotient_is_close(x: Real64, y: Real64)
    requires
        x is Finite,
        y is Finite,
        y->units > 0,
    ensures
        ({
            let p = x->units * pow2(1074);
            let q = y->units;
            match x.over(y) {
                Real64::Finite { negative, units } => {
                    &&& negative == (x.is_negative() != y.is_negative())
                    &&& p >= q * 0x10_0000_0000_0000 ==> 0x20_0000_0000_0000 * distance(
                        units * q,
                        p,
                    ) <= p
                    &&& p < q * 0x10_0000_0000_0000 ==> 2 * distance(units * q, p) <= q
                },
                Real64::Infinite { negative } => negative == (x.is_negative() != y.is_negative())
                    && 2 * p >= q * pow2(2098),
                Real64::Nan => false,
            }
        }),
{
    lemma_nearest_close(x->units * pow2(1074), y->units);
}

/// A product of finite numbers has the sign of the exact product and is off by one
/// part in `2^53`, or by half a unit where that is more.
pub proof fn law_product_is_close(x: Real64, y: Real64)
    requires
        x is Finite,
        y is Finite,
    ensures
        ({
            let p = x->units * y->units;
            let q = pow2(1074);
            match x.times(y) {
                Real64::Finite { negative, units } => {
                    &&& negative == (x.is_negative() != y.is_negative())
                    &&& p >= q * 0x10_0000_0000_0000 ==> 0x20_0000_0000_0000 * distance(
                        units * q,
                        p,
                    ) <= p
                    &&& p < q * 0x10_0000_0000_0000 ==> 2 * distance(units * q, p) <= q
                },
                Real64::Infinite { negative } => negative == (x.is_negative() != y.is_negative())
                    && 2 * p >= q * pow2(2098),
                Real64::Nan => false,
            }
        }),
{
    lemma_pow2_pos(1074);
    lemma_nearest_close(x->units * y->units, pow2(1074));
}

/// Finite numbers are ordered by what they stand for; the infinities lie outside;
/// and what is not a number is ordered with nothing.
pub proof fn law_order(x: Real64, y: Real64)
    ensures
        x is Finite && y is Finite ==> {
            &&& x.lt(y) <==> x.signed() < y.signed()
            &&& x.le(y) <==> x.signed() <= y.signed()
        },
        x is Nan || y is Nan ==> !x.lt(y) && !x.le(y),
        x is Finite && y is Infinite ==> x.lt(y) == !y.is_negative() && y.lt(x) == y.is_negative(),
        x is Infinite && y is Infinite ==> x.lt(y) == (x.is_negative() && !y.is_negative()),
{
}

/// A finite number stands for its units with its sign, and turning the sign round
/// turns it round and nothing else.
pub proof fn law_signs(x: Real64)
    ensures
        x is Finite ==> {
            &&& x.neg() is Finite
            &&& x.neg()->units == x->units
            &&& x.neg().is_negative() == !x.is_negative()
            &&& x.neg().signed() == -x.signed()
            &&& x.is_negative() ==> x.signed() == -(x->units as int)
            &&& !x.is_negative() ==> x.signed() == x->units
        },
        x is Infinite ==> x.neg() is Infinite && x.neg().is_negative() == !x.is_negative(),
        x is Nan ==> x.neg() is Nan,
        x.neg().neg() == x,
        x.is_number() <==> x !is Nan,
{
}

/// A difference has the sign of the exact difference and is off by one part in
/// `2^53` at most; it is infinite only where the exact difference is out of range.
pub proof fn law_difference_is_close(x: Real64, y: Real64)
    requires
        x is Finite,
        y is Finite,
    ensures
        ({
            let exact = x.signed() - y.signed();
            let size = if exact < 0 {
                (-exact) as nat
            } else {
                exact as nat
            };
            match x.minus(y) {
                Real64::Finite { negative, units } => {
                    &&& exact > 0 ==> !negative
                    &&& exact < 0 ==> negative
                    &&& 0x20_0000_0000_0000 * distance(units, size) <= size
                },
                Real64::Infinite { negative } => negative == (exact < 0) && 2 * size >= pow2(2098),
                Real64::Nan => false,
            }
        }),
{
    law_sum_is_close(x, y.neg());
}

/// Of what is not a number, nothing that is computed is one.
pub proof fn law_not_a_number_stays(x: Real64, y: Real64)
    requires
        x is Nan || y is Nan,
    ensures
        x.plus(y) is Nan,
        x.minus(y) is Nan,
        x.times(y) is Nan,
        x.over(y) is Nan,
{
}

/// What is computed of infinities. Their sums are infinite unless their signs
/// differ; products are infinite but for zero; quotients are infinite above, zero
/// below, and not a number where both are.
pub proof fn law_infinities(x: Real64, y: Real64)
    requires
        x.is_number(),
        y.is_number(),
    ensures
        ({
            let crossed = x.is_negative() != y.is_negative();
            &&& x is Infinite && y is Infinite ==> {
                &&& crossed ==> x.plus(y) is Nan
                &&& !crossed ==> x.plus(y) == x
                &&& x.times(y) == (Real64::Infinite { negative: crossed })
                &&& x.over(y) is Nan
            }
            &&& x is Infinite && y is Finite ==> {
                &&& x.plus(y) == x
                &&& y.plus(x) == x
                &&& y->units == 0 ==> x.times(y) is Nan && y.times(x) is Nan
                &&& y->units > 0 ==> x.times(y) == (Real64::Infinite { negative: crossed })
                    && y.times(x) == x.times(y)
                &&& x.over(y) == (Real64::Infinite { negative: crossed })
                &&& y.over(x) == (Real64::Finite { negative: crossed, units: 0 })
            }
            &&& x is Finite && y is Finite && y->units == 0 ==> {
                &&& x->units == 0 ==> x.over(y) is Nan
                &&& x->units > 0 ==> x.over(y) == (Real64::Infinite { negative: crossed })
            }
        }),
{
}

/// Rounding to a whole number finds the nearest, halves upwards, but none below
/// zero or above the largest one allowed; what is not a number is zero.
pub proof fn law_round_is_nearest(x: Real64, max: nat)
    ensures
        ({
            let r = x.round_clamped(max) as int;
            let one = pow2(1074) as int;
            &&& r <= max
            &&& x is Nan || x.is_negative() ==> r == 0
            &&& x is Infinite && !x.is_negative() ==> r == max
            &&& x is Finite && !x.is_negative() ==> {
                &&& r > 0 ==> (2 * r - 1) * one <= 2 * x->units
                &&& r < max ==> 2 * x->units < (2 * r + 1) * one
            }
        }),
{
    lemma_pow2_pos(1074);
    if x is Finite && !x.is_negative() {
        let one = pow2(1074) as int;
        let units = x->units as int;
        let n = (2 * units + one) / (2 * one);
        lemma_fundamental_div_mod(2 * units + one, 2 * one);
        let r = x.round_clamped(max) as int;
        assert((2 * one) * n <= 2 * units + one < (2 * one) * n + 2 * one);
        assert((2 * r - 1) * one <= (2 * one) * n - one) by (nonlinear_arith)
            requires
                r <= n,
                one > 0,
        ;
        if r < max {
            assert((2 * one) * n + one <= (2 * r + 1) * one) by (nonlinear_arith)
                requires
                    n == r,
                    one > 0,
            ;
        }
    }
}

/// A sum that is exactly zero is the positive zero, unless both terms are negative.
pub proof fn law_zero_sums(x: Real64, y: Real64)
    requires
        x is Finite,
        y is Finite,
        x.signed() + y.signed() == 0,
    ensures
        x.plus(y) == (Real64::Finite { negative: x.is_negative() && y.is_negative(), units: 0 }),
{
}

/// Every result is rounded to 53 significant bits, or to whole units below that: to
/// the nearest multiple of the grid that the exact value lies on, and between two to
/// the one whose last bit is zero.
pub proof fn law_rounding(p: nat, q: nat, s: nat)
    requires
        q > 0,
        p < q * pow2(s) * 0x20_0000_0000_0000,
        s > 0 ==> p >= q * pow2(s) * 0x10_0000_0000_0000,
    ensures
        exists|k: nat|
            {
                &&& nearest_units(p, q) == #[trigger] (k * pow2(s))
                &&& 2 * distance(k * (q * pow2(s)), p) <= q * pow2(s)
                &&& 2 * distance(k * (q * pow2(s)), p) == q * pow2(s) ==> k % 2 == 0
            },
        nearest(false, p, q) == (if nearest_units(p, q) < pow2(2098) {
            Real64::Finite { negative: false, units: nearest_units(p, q) }
        } else {
            Real64::Infinite { negative: false }
        }),
{
    lemma_nearest_scaled(p, q, s);
    lemma_pow2_pos(s);
    let g = q * pow2(s);
    assert(g > 0) by (nonlinear_arith)
        requires
            g == q * pow2(s),
            q > 0,
            pow2(s) > 0,
    ;
    law_half_even(p, g);
    let k = half_even(p, g);
    assert(nearest_units(p, q) == k * pow2(s));
}

/// Rounding to a whole number finds the nearest, and between two the even one.
pub proof fn law_half_even(p: nat, q: nat)
    requires
        q > 0,
    ensures
        2 * distance(half_even(p, q) * q, p) <= q,
        2 * distance(half_even(p, q) * q, p) == q ==> half_even(p, q) % 2 == 0,
{
    lemma_half_even_error(p, q);
    lemma_fundamental_div_mod(p as int, q as int);
    let x = (p / q) as int;
    let d = q as int;
    assert(x * d == d * x) by (nonlinear_arith);
    assert((x + 1) * d == d * x + d) by (nonlinear_arith);
}

} // verus!
