//! Binary64 numbers held as their bit patterns, with arithmetic on integers.
//!
//! A [`Binary64`] is exchanged with hardware floating point by its 64 bits
//! ([`Binary64::from_bits`], [`Binary64::to_bits`]). Every operation is proved
//! to return the correctly rounded result that [`crate::rounding`] defines.

use crate::rounding::{
    half_even, lemma_half_even_scale, lemma_half_even_sticky, lemma_nearest_exact,
    lemma_nearest_scaled, nearest, nearest_units, real_of, representable, Real64,
};
use vstd::arithmetic::div_mod::{
    lemma_div_is_ordered, lemma_fundamental_div_mod, lemma_fundamental_div_mod_converse,
};
use vstd::arithmetic::power2::{
    lemma2_to64, lemma2_to64_rest, lemma_pow2_adds, lemma_pow2_pos, lemma_pow2_strictly_increases,
    lemma_pow2_unfold, pow2,
};
use vstd::prelude::*;

verus! {

/// A binary64 number.
#[derive(Debug, Clone, Copy)]
pub struct Binary64 {
    bits: u64,
}

/// A binary64 number taken apart. A finite one is `mantissa * 2^shift` units.
pub enum Parts {
    Nan,
    Infinite { negative: bool },
    Finite { negative: bool, mantissa: u64, shift: u32 },
}

/// The datum that a bit pattern stands for: a sign bit, eleven exponent bits
/// and fifty-two fraction bits.
pub open spec fn decoded(bits: u64) -> Real64 {
    let negative = bits >= 0x8000_0000_0000_0000;
    let magnitude = bits as int % 0x8000_0000_0000_0000;
    let exponent = magnitude / 0x10_0000_0000_0000;
    let fraction = magnitude % 0x10_0000_0000_0000;
    if exponent == 2047 {
        if fraction == 0 {
            Real64::Infinite { negative }
        } else {
            Real64::Nan
        }
    } else if exponent == 0 {
        Real64::Finite { negative, units: fraction as nat }
    } else {
        Real64::Finite {
            negative,
            units: (0x10_0000_0000_0000 + fraction) as nat * pow2((exponent - 1) as nat),
        }
    }
}

impl View for Binary64 {
    type V = Real64;

    closed spec fn view(&self) -> Real64 {
        decoded(self.bits)
    }
}

impl Parts {
    /// The mantissa has at most 53 bits, and exactly 53 unless the shift is zero.
    pub open spec fn wf(self) -> bool {
        match self {
            Parts::Finite { mantissa, shift, .. } => {
                &&& mantissa < 0x20_0000_0000_0000
                &&& shift <= 2045
                &&& shift > 0 ==> mantissa >= 0x10_0000_0000_0000
            },
            _ => true,
        }
    }

    /// The datum that these are the parts of.
    pub open spec fn datum(self) -> Real64 {
        match self {
            Parts::Nan => Real64::Nan,
            Parts::Infinite { negative } => Real64::Infinite { negative },
            Parts::Finite { negative, mantissa, shift } => Real64::Finite {
                negative,
                units: mantissa as nat * pow2(shift as nat),
            },
        }
    }
}

/// A power of two.
pub fn power_of_two(k: u32) -> (r: u128)
    requires
        k < 128,
    ensures
        r == pow2(k as nat),
{
    let mut r: u128 = 1;
    let mut i: u32 = 0;
    proof {
        lemma2_to64();
        lemma_pow2_bound(k);
    }
    while i < k
        invariant
            i <= k < 128,
            r == pow2(i as nat),
        decreases k - i,
    {
        proof {
            lemma_pow2_unfold((i + 1) as nat);
            lemma_pow2_bound((i + 1) as u32);
        }
        r = r * 2;
        i = i + 1;
    }
    r
}

/// The powers of two that the code names by value.
proof fn lemma_powers()
    ensures
        pow2(0) == 1,
        pow2(1) == 2,
        pow2(52) == 0x10_0000_0000_0000,
        pow2(53) == 0x20_0000_0000_0000,
        pow2(63) == 0x8000_0000_0000_0000,
        pow2(64) == 0x1_0000_0000_0000_0000,
        pow2(127) == 0x8000_0000_0000_0000_0000_0000_0000_0000,
{
    lemma2_to64();
    lemma2_to64_rest();
    lemma_pow2_adds(63, 64);
}

proof fn lemma_pow2_bound(k: u32)
    requires
        k < 128,
    ensures
        pow2(k as nat) <= 0x8000_0000_0000_0000_0000_0000_0000_0000,
{
    lemma_powers();
    if k < 127 {
        lemma_pow2_strictly_increases(k as nat, 127);
    }
}

/// Does `m` hold `p / q` units in steps of `2^e` units, cut off below a step?
/// `sticky` tells whether anything was cut off.
spec fn truncates(p: nat, q: nat, m: u128, e: int, sticky: bool) -> bool {
    if e >= 0 {
        let step = q * pow2(e as nat);
        m == p / step && sticky == (p % step != 0)
    } else {
        let scaled = p * pow2((-e) as nat);
        m == scaled / q && sticky == (scaled % q != 0)
    }
}

impl Binary64 {
    /// The number with the given bit pattern.
    pub fn from_bits(bits: u64) -> (r: Binary64)
        ensures
            r@ == decoded(bits),
            r.bit_pattern() == bits,
    {
        Binary64 { bits }
    }

    /// The bit pattern that this number was made from.
    pub closed spec fn bit_pattern(self) -> u64 {
        self.bits
    }

    /// The number's bit pattern.
    pub fn to_bits(self) -> (r: u64)
        ensures
            r == self.bit_pattern(),
            decoded(r) == self@,
    {
        self.bits
    }

    /// The number taken apart.
    pub fn parts(self) -> (r: Parts)
        ensures
            r.wf(),
            r.datum() == self@,
    {
        let negative = self.bits >= 0x8000_0000_0000_0000;
        let magnitude: u64 = self.bits % 0x8000_0000_0000_0000;
        let exponent: u64 = magnitude / 0x10_0000_0000_0000;
        let fraction: u64 = magnitude % 0x10_0000_0000_0000;
        if exponent == 2047 {
            if fraction == 0 {
                Parts::Infinite { negative }
            } else {
                Parts::Nan
            }
        } else if exponent == 0 {
            proof {
                lemma2_to64();
                assert(fraction * pow2(0) == fraction) by (nonlinear_arith)
                    requires
                        pow2(0) == 1,
                ;
            }
            Parts::Finite { negative, mantissa: fraction, shift: 0 }
        } else {
            Parts::Finite {
                negative,
                mantissa: 0x10_0000_0000_0000 + fraction,
                shift: (exponent - 1) as u32,
            }
        }
    }

    /// A "not a number".
    pub fn nan() -> (r: Binary64)
        ensures
            r@ == Real64::Nan,
    {
        Binary64 { bits: 0x7ff8_0000_0000_0000 }
    }

    /// An infinity.
    pub fn infinity(negative: bool) -> (r: Binary64)
        ensures
            r@ == (Real64::Infinite { negative }),
    {
        if negative {
            Binary64 { bits: 0xfff0_0000_0000_0000 }
        } else {
            Binary64 { bits: 0x7ff0_0000_0000_0000 }
        }
    }

    /// A zero.
    pub fn zero(negative: bool) -> (r: Binary64)
        ensures
            r@ == (Real64::Finite { negative, units: 0 }),
    {
        if negative {
            Binary64 { bits: 0x8000_0000_0000_0000 }
        } else {
            Binary64 { bits: 0 }
        }
    }

    fn finite(negative: bool, mantissa: u64, shift: u32) -> (r: Binary64)
        requires
            (Parts::Finite { negative, mantissa, shift }).wf(),
        ensures
            r@ == (Parts::Finite { negative, mantissa, shift }).datum(),
    {
        let sign: u64 = if negative {
            0x8000_0000_0000_0000
        } else {
            0
        };
        let magnitude: u64 = shift as u64 * 0x10_0000_0000_0000 + mantissa;
        proof {
            lemma2_to64();
            let bits = (sign + magnitude) as int;
            assert(bits % 0x8000_0000_0000_0000 == magnitude);
            if mantissa < 0x10_0000_0000_0000 {
                assert(shift == 0);
                assert(mantissa * pow2(0) == mantissa) by (nonlinear_arith)
                    requires
                        pow2(0) == 1,
                ;
            } else {
                assert(magnitude == (shift + 1) * 0x10_0000_0000_0000 + (mantissa
                    - 0x10_0000_0000_0000));
                assert(magnitude as int / 0x10_0000_0000_0000 == shift + 1);
                assert(magnitude as int % 0x10_0000_0000_0000 == mantissa - 0x10_0000_0000_0000);
            }
        }
        Binary64 { bits: sign + magnitude }
    }

    /// The number nearest to `p / q` units, of which the caller holds the
    /// leading bits.
    fn rounded(
        negative: bool,
        m: u128,
        e: i32,
        sticky: bool,
        Ghost(p): Ghost<nat>,
        Ghost(q): Ghost<nat>,
    ) -> (r: Binary64)
        requires
            q > 0,
            truncates(p, q, m, e as int, sticky),
            sticky ==> m >= 0x40_0000_0000_0000 || e < 0,
            m < 0x8000_0000_0000_0000_0000_0000_0000_0000,
            -4000 <= e <= 4000,
        ensures
            r@ == nearest(negative, p, q),
    {
        let mut t: u32 = if e < 0 {
            (-e) as u32
        } else {
            0
        };
        if t >= 128 {
            proof {
                lemma_rounds_to_zero(p, q, m, e as int, sticky);
            }
            return Binary64::zero(negative);
        }
        let mut unit: u128 = power_of_two(t);
        proof {
            lemma_pow2_pos(t as nat);
        }
        let ghost t0 = t;
        while m / unit >= 0x20_0000_0000_0000
            invariant
                t0 <= t < 128,
                t0 == (if e < 0 {
                    -e
                } else {
                    0
                }),
                unit == pow2(t as nat),
                unit > 0,
                m < 0x8000_0000_0000_0000_0000_0000_0000_0000,
                t > t0 ==> m >= unit * 0x10_0000_0000_0000,
            decreases 128 - t,
        {
            proof {
                lemma_fundamental_div_mod(m as int, unit as int);
                assert(m >= unit * 0x20_0000_0000_0000) by (nonlinear_arith)
                    requires
                        m == unit * (m as int / unit as int) + m as int % unit as int,
                        m as int / unit as int >= 0x20_0000_0000_0000,
                        0 <= m as int % unit as int,
                        unit > 0,
                ;
                lemma_pow2_unfold((t + 1) as nat);
                lemma_powers();
                lemma_pow2_pos((t + 1) as nat);
            }
            unit = unit * 2;
            t = t + 1;
        }
        let whole: u128 = m / unit;
        let rest: u128 = m % unit;
        let up = if t == 0 {
            false
        } else {
            let half: u128 = unit / 2;
            rest > half || (rest == half && (sticky || whole % 2 == 1))
        };
        let mut mantissa: u64 = if up {
            whole as u64 + 1
        } else {
            whole as u64
        };
        let mut shift: i32 = e + t as i32;
        proof {
            lemma_rounds(p, q, m, e as int, sticky, t as nat, t0 as nat, mantissa as nat);
        }
        if mantissa == 0 {
            assert(mantissa as nat * pow2(shift as nat) == 0) by (nonlinear_arith)
                requires
                    mantissa == 0,
            ;
            proof {
                lemma_pow2_pos(2098);
            }
            return Binary64::zero(negative);
        }
        if mantissa == 0x20_0000_0000_0000 {
            proof {
                lemma_pow2_unfold((shift + 1) as nat);
                assert(0x10_0000_0000_0000nat * pow2((shift + 1) as nat) == mantissa as nat * pow2(
                    shift as nat,
                )) by (nonlinear_arith)
                    requires
                        pow2((shift + 1) as nat) == 2 * pow2(shift as nat),
                        mantissa == 0x20_0000_0000_0000,
                ;
            }
            mantissa = 0x10_0000_0000_0000;
            shift = shift + 1;
        }
        while mantissa < 0x10_0000_0000_0000 && shift > 0
            invariant
                0 < mantissa < 0x20_0000_0000_0000,
                0 <= shift <= 5000,
                mantissa as nat * pow2(shift as nat) == nearest_units(p, q),
            decreases shift,
        {
            proof {
                lemma_pow2_unfold(shift as nat);
                assert((2 * mantissa) as nat * pow2((shift - 1) as nat) == mantissa as nat * pow2(
                    shift as nat,
                )) by (nonlinear_arith)
                    requires
                        pow2(shift as nat) == 2 * pow2((shift - 1) as nat),
                ;
            }
            mantissa = mantissa * 2;
            shift = shift - 1;
        }
        proof {
            lemma_in_range(mantissa as nat, shift as nat);
        }
        if shift > 2045 {
            Binary64::infinity(negative)
        } else {
            Binary64::finite(negative, mantissa, shift as u32)
        }
    }

    /// The same number with the sign turned round.
    pub fn neg(self) -> (r: Binary64)
        ensures
            r@ == self@.neg(),
    {
        match self.parts() {
            Parts::Nan => Binary64::nan(),
            Parts::Infinite { negative } => Binary64::infinity(!negative),
            Parts::Finite { negative, mantissa, shift } => Binary64::finite(
                !negative,
                mantissa,
                shift,
            ),
        }
    }

    /// The number nearest to `n`.
    pub fn of(n: u64) -> (r: Binary64)
        ensures
            r@ == real_of(n as nat),
    {
        proof {
            lemma_pow2_pos(1074);
            let step = 1 * pow2(1074);
            lemma_fundamental_div_mod_converse((n * pow2(1074)) as int, step as int, n as int, 0);
        }
        Binary64::rounded(
            false,
            n as u128,
            1074,
            false,
            Ghost((n as nat) * pow2(1074)),
            Ghost(1nat),
        )
    }

    /// The rounded quotient of two counts.
    pub fn ratio(n: u64, d: u64) -> (r: Binary64)
        ensures
            r@ == real_of(n as nat).over(real_of(d as nat)),
    {
        Binary64::of(n).over(Binary64::of(d))
    }

    /// The rounded product.
    pub fn times(self, other: Binary64) -> (r: Binary64)
        ensures
            r@ == self@.times(other@),
    {
        match (self.parts(), other.parts()) {
            (Parts::Nan, _) => Binary64::nan(),
            (_, Parts::Nan) => Binary64::nan(),
            (Parts::Infinite { negative: a }, Parts::Infinite { negative: b }) => {
                Binary64::infinity(a != b)
            },
            (Parts::Infinite { negative: a }, Parts::Finite { negative: b, mantissa, shift }) => {
                proof {
                    lemma_units_zero(mantissa, shift);
                }
                if mantissa == 0 {
                    Binary64::nan()
                } else {
                    Binary64::infinity(a != b)
                }
            },
            (Parts::Finite { negative: a, mantissa, shift }, Parts::Infinite { negative: b }) => {
                proof {
                    lemma_units_zero(mantissa, shift);
                }
                if mantissa == 0 {
                    Binary64::nan()
                } else {
                    Binary64::infinity(a != b)
                }
            },
            (
                Parts::Finite { negative: a, mantissa: ma, shift: sa },
                Parts::Finite { negative: b, mantissa: mb, shift: sb },
            ) => {
                assert(ma as u128 * mb as u128 <= 0x20_0000_0000_0000u128 * 0x20_0000_0000_0000u128)
                    by (nonlinear_arith)
                    requires
                        ma <= 0x20_0000_0000_0000,
                        mb <= 0x20_0000_0000_0000,
                ;
                let m: u128 = ma as u128 * mb as u128;
                let e: i32 = sa as i32 + sb as i32 - 1074;
                let ghost p = (ma as nat * pow2(sa as nat)) * (mb as nat * pow2(sb as nat));
                let ghost q = pow2(1074);
                proof {
                    lemma_pow2_pos(1074);
                    lemma_pow2_adds(sa as nat, sb as nat);
                    let both = pow2((sa + sb) as nat);
                    lemma_pow2_pos((sa + sb) as nat);
                    assert(p == m * both) by (nonlinear_arith)
                        requires
                            p == (ma as nat * pow2(sa as nat)) * (mb as nat * pow2(sb as nat)),
                            m == ma as nat * mb as nat,
                            both == pow2(sa as nat) * pow2(sb as nat),
                    ;
                    if e >= 0 {
                        lemma_pow2_adds(1074, e as nat);
                        lemma_fundamental_div_mod_converse(p as int, both as int, m as int, 0);
                    } else {
                        let k = (-e) as nat;
                        lemma_pow2_adds((sa + sb) as nat, k);
                        let scaled = p * pow2(k);
                        assert(scaled == m * q) by (nonlinear_arith)
                            requires
                                scaled == p * pow2(k),
                                p == m * both,
                                q == both * pow2(k),
                        ;
                        lemma_fundamental_div_mod_converse(scaled as int, q as int, m as int, 0);
                    }
                }
                Binary64::rounded(a != b, m, e, false, Ghost(p), Ghost(q))
            },
        }
    }

    /// The rounded quotient.
    pub fn over(self, other: Binary64) -> (r: Binary64)
        ensures
            r@ == self@.over(other@),
    {
        match (self.parts(), other.parts()) {
            (Parts::Nan, _) => Binary64::nan(),
            (_, Parts::Nan) => Binary64::nan(),
            (Parts::Infinite { .. }, Parts::Infinite { .. }) => Binary64::nan(),
            (Parts::Infinite { negative: a }, Parts::Finite { negative: b, .. }) => {
                Binary64::infinity(a != b)
            },
            (Parts::Finite { negative: a, .. }, Parts::Infinite { negative: b }) => {
                Binary64::zero(a != b)
            },
            (
                Parts::Finite { negative: a, mantissa: ma, shift: sa },
                Parts::Finite { negative: b, mantissa: mb, shift: sb },
            ) => {
                proof {
                    lemma_units_zero(ma, sa);
                    lemma_units_zero(mb, sb);
                }
                if mb == 0 {
                    if ma == 0 {
                        Binary64::nan()
                    } else {
                        Binary64::infinity(a != b)
                    }
                } else if ma == 0 {
                    proof {
                        lemma_zero_quotient((mb as nat) * pow2(sb as nat));
                    }
                    Binary64::zero(a != b)
                } else {
                    Binary64::quotient(a != b, ma, sa, mb, sb)
                }
            },
        }
    }

    /// The quotient of two finite numbers other than zero.
    fn quotient(negative: bool, ma: u64, sa: u32, mb: u64, sb: u32) -> (r: Binary64)
        requires
            0 < ma < 0x20_0000_0000_0000,
            0 < mb < 0x20_0000_0000_0000,
            sa <= 2045,
            sb <= 2045,
        ensures
            r@ == nearest(
                negative,
                (ma as nat * pow2(sa as nat)) * pow2(1074),
                mb as nat * pow2(sb as nat),
            ),
    {
        let mut top: u64 = ma;
        let mut z: u32 = 0;
        proof {
            lemma_powers();
        }
        while top < 0x10_0000_0000_0000
            invariant
                0 < ma,
                0 < top < 0x20_0000_0000_0000,
                z <= 52,
                top == ma * pow2(z as nat),
            decreases 52 - z,
        {
            proof {
                lemma_pow2_unfold((z + 1) as nat);
                assert(2 * top == ma * pow2((z + 1) as nat)) by (nonlinear_arith)
                    requires
                        top == ma * pow2(z as nat),
                        pow2((z + 1) as nat) == 2 * pow2(z as nat),
                ;
                lemma_powers();
                if z == 52 {
                    assert(top >= pow2(52)) by (nonlinear_arith)
                        requires
                            top == ma * pow2(z as nat),
                            z == 52,
                            ma >= 1,
                    ;
                }
            }
            top = top * 2;
            z = z + 1;
        }
        let n: u128 = top as u128 * 0x8000_0000_0000_0000;
        let m: u128 = n / mb as u128;
        let sticky = n % mb as u128 != 0;
        let e: i32 = sa as i32 - z as i32 - sb as i32 + 1011;
        let ghost p = (ma as nat * pow2(sa as nat)) * pow2(1074);
        let ghost q = mb as nat * pow2(sb as nat);
        proof {
            lemma_quotient(ma as nat, sa as nat, mb as nat, sb as nat, z as nat, n, e as int);
            lemma_fundamental_div_mod(n as int, mb as int);
            assert(m >= 0x40_0000_0000_0000) by (nonlinear_arith)
                requires
                    n == mb * m + n as int % mb as int,
                    (n as int % mb as int) < mb,
                    n >= 0x10_0000_0000_0000 * 0x8000_0000_0000_0000,
                    0 < mb < 0x20_0000_0000_0000,
            ;
            lemma_div_is_ordered(
                n as int,
                0x7fff_ffff_ffff_ffff_ffff_ffff_ffff_ffff,
                mb as int,
            );
            assert(m <= n) by (nonlinear_arith)
                requires
                    n == mb * m + n as int % mb as int,
                    0 <= n as int % mb as int,
                    mb >= 1,
                    m >= 0,
            ;
        }
        Binary64::rounded(negative, m, e, sticky, Ghost(p), Ghost(q))
    }

    /// The rounded sum.
    pub fn plus(self, other: Binary64) -> (r: Binary64)
        ensures
            r@ == self@.plus(other@),
    {
        match (self.parts(), other.parts()) {
            (Parts::Nan, _) => Binary64::nan(),
            (_, Parts::Nan) => Binary64::nan(),
            (Parts::Infinite { negative: a }, Parts::Infinite { negative: b }) => if a == b {
                Binary64::infinity(a)
            } else {
                Binary64::nan()
            },
            (Parts::Infinite { negative }, _) => Binary64::infinity(negative),
            (_, Parts::Infinite { negative }) => Binary64::infinity(negative),
            (
                Parts::Finite { negative: a, mantissa: ma, shift: sa },
                Parts::Finite { negative: b, mantissa: mb, shift: sb },
            ) => if sa >= sb {
                Binary64::sum(a, ma, sa, b, mb, sb)
            } else {
                Binary64::sum(b, mb, sb, a, ma, sa)
            },
        }
    }

    /// The sum of two finite numbers, the one with the larger shift first.
    fn sum(a: bool, ma: u64, sa: u32, b: bool, mb: u64, sb: u32) -> (r: Binary64)
        requires
            (Parts::Finite { negative: a, mantissa: ma, shift: sa }).wf(),
            (Parts::Finite { negative: b, mantissa: mb, shift: sb }).wf(),
            sa >= sb,
        ensures
            r@ == (Parts::Finite { negative: a, mantissa: ma, shift: sa }).datum().plus(
                (Parts::Finite { negative: b, mantissa: mb, shift: sb }).datum(),
            ),
    {
        let d: u32 = sa - sb;
        let k: u32 = if d < 60 {
            d
        } else {
            60
        };
        let j: u32 = d - k;
        let widen: u128 = power_of_two(k);
        let ghost high = ma as nat * pow2(sa as nat);
        let ghost low = mb as nat * pow2(sb as nat);
        proof {
            lemma_powers();
            lemma2_to64();
            lemma2_to64_rest();
            if k < 60 {
                lemma_pow2_strictly_increases(k as nat, 60);
            }
            assert(ma as u128 * widen <= 0x20_0000_0000_0000u128 * 0x1000_0000_0000_0000u128)
                by (nonlinear_arith)
                requires
                    ma <= 0x20_0000_0000_0000,
                    widen <= 0x1000_0000_0000_0000,
            ;
        }
        let wide: u128 = ma as u128 * widen;
        let mut cut: u64 = 0;
        let mut lost = mb != 0;
        if j < 64 {
            let grain: u128 = power_of_two(j);
            proof {
                lemma_pow2_pos(j as nat);
                lemma_fundamental_div_mod(mb as int, grain as int);
                assert(mb as int / grain as int <= mb) by (nonlinear_arith)
                    requires
                        mb == grain * (mb as int / grain as int) + mb as int % grain as int,
                        0 <= mb as int % grain as int,
                        grain >= 1,
                        mb as int / grain as int >= 0,
                ;
            }
            cut = (mb as u128 / grain) as u64;
            lost = mb as u128 % grain != 0;
        } else {
            proof {
                lemma_powers();
                if j > 64 {
                    lemma_pow2_strictly_increases(64, j as nat);
                }
                lemma_fundamental_div_mod_converse(
                    mb as int,
                    pow2(j as nat) as int,
                    0,
                    mb as int,
                );
            }
        }
        let e: i32 = (sa - k) as i32;
        let ghost g = pow2(e as nat);
        proof {
            lemma_pow2_pos(e as nat);
            lemma_pow2_adds(e as nat, k as nat);
            lemma_pow2_adds(sb as nat, j as nat);
            assert(high == wide * g) by (nonlinear_arith)
                requires
                    high == ma as nat * pow2(sa as nat),
                    pow2(sa as nat) == g * widen,
                    wide == ma as nat * widen,
            ;
            lemma_low_bits(mb as nat, sb as nat, j as nat, cut as nat);
            assert(1 * g == g);
            if d > 0 {
                assert(wide >= 0x10_0000_0000_0000 * widen) by (nonlinear_arith)
                    requires
                        wide == ma as nat * widen,
                        ma >= 0x10_0000_0000_0000,
                ;
                if k > 1 {
                    lemma_pow2_strictly_increases(1, k as nat);
                }
            }
            if j == 0 {
                assert(mb as nat % 1 == 0);
            }
            assert(lost ==> wide >= 0x10_0000_0000_0000 * 0x1000_0000_0000_0000);
        }
        if a == b {
            let m: u128 = wide + cut as u128;
            let ghost p = high + low;
            proof {
                let rest = low - cut * g;
                assert(p == m * g + rest) by (nonlinear_arith)
                    requires
                        p == high + low,
                        high == wide * g,
                        rest == low - cut * g,
                        m == wide + cut,
                ;
                lemma_fundamental_div_mod_converse(p as int, g as int, m as int, rest);
                lemma_zero_rounds(1);
            }
            if m == 0 && !lost {
                assert(p == 0) by (nonlinear_arith)
                    requires
                        p == 0 * g + 0,
                ;
                return Binary64::zero(a);
            }
            assert(p > 0) by (nonlinear_arith)
                requires
                    p == m * g + (low - cut * g),
                    m > 0 || low - cut * g > 0,
                    low - cut * g >= 0,
                    g > 0,
            ;
            return Binary64::rounded(a, m, e, lost, Ghost(p), Ghost(1nat));
        }
        if d == 0 {
            assert(pow2(0) == 1 && g == pow2(sa as nat));
            assert(low == cut * g) by {
                assert(cut == mb);
            }
            if wide == cut as u128 {
                assert(high == low);
                return Binary64::zero(false);
            }
            if wide < cut as u128 {
                let m: u128 = cut as u128 - wide;
                let ghost p = (low - high) as nat;
                proof {
                    assert(low - high == m * g) by (nonlinear_arith)
                        requires
                            high == wide * g,
                            low == cut * g,
                            m == cut - wide,
                    ;
                    assert(m * g > 0) by (nonlinear_arith)
                        requires
                            m > 0,
                            g > 0,
                    ;
                    lemma_fundamental_div_mod_converse(p as int, g as int, m as int, 0);
                }
                return Binary64::rounded(b, m, e, false, Ghost(p), Ghost(1nat));
            }
        }
        proof {
            assert(wide > cut);
        }
        let m: u128 = if lost {
            wide - cut as u128 - 1
        } else {
            wide - cut as u128
        };
        let ghost p = (high - low) as nat;
        proof {
            let rest = if lost {
                g - (low - cut * g)
            } else {
                0int
            };
            assert(high - low == m * g + rest) by (nonlinear_arith)
                requires
                    high == wide * g,
                    lost ==> m == wide - cut - 1 && rest == g - (low - cut * g),
                    !lost ==> m == wide - cut && rest == 0 && low == cut * g,
            ;
            assert(m * g >= 0) by (nonlinear_arith)
                requires
                    m >= 0,
                    g > 0,
            ;
            assert(high - low > 0) by (nonlinear_arith)
                requires
                    high - low == m * g + rest,
                    rest > 0 || m > 0,
                    rest >= 0,
                    m >= 0,
                    g > 0,
            ;
            lemma_fundamental_div_mod_converse(p as int, g as int, m as int, rest);
        }
        Binary64::rounded(a, m, e, lost, Ghost(p), Ghost(1nat))
    }

    /// The rounded difference.
    pub fn minus(self, other: Binary64) -> (r: Binary64)
        ensures
            r@ == self@.minus(other@),
    {
        self.plus(other.neg())
    }

    /// `self < other`; false where either is not a number.
    pub fn less_than(self, other: Binary64) -> (r: bool)
        ensures
            r == self@.lt(other@),
    {
        match (self.parts(), other.parts()) {
            (Parts::Nan, _) => false,
            (_, Parts::Nan) => false,
            (Parts::Infinite { negative: a }, Parts::Infinite { negative: b }) => a && !b,
            (Parts::Infinite { negative }, _) => negative,
            (_, Parts::Infinite { negative }) => !negative,
            (
                Parts::Finite { negative: a, mantissa: ma, shift: sa },
                Parts::Finite { negative: b, mantissa: mb, shift: sb },
            ) => {
                proof {
                    lemma_magnitude_order(ma, sa, mb, sb);
                    lemma_magnitude_order(mb, sb, ma, sa);
                    lemma_units_zero(ma, sa);
                    lemma_units_zero(mb, sb);
                }
                if a == b {
                    if a {
                        sb < sa || (sb == sa && mb < ma)
                    } else {
                        sa < sb || (sa == sb && ma < mb)
                    }
                } else {
                    a && (ma != 0 || mb != 0)
                }
            },
        }
    }

    /// Is this a number at all?
    pub fn is_number(self) -> (r: bool)
        ensures
            r == self@.is_number(),
    {
        match self.parts() {
            Parts::Nan => false,
            _ => true,
        }
    }

    /// `self <= other`; false where either is not a number.
    pub fn at_most(self, other: Binary64) -> (r: bool)
        ensures
            r == self@.le(other@),
    {
        self.is_number() && other.is_number() && !other.less_than(self)
    }

    /// The nearest natural number, halfway cases upward, clamped to `0..=max`;
    /// zero for what is not a number.
    pub fn round_clamped(self, max: u64) -> (r: u64)
        ensures
            r == self@.round_clamped(max as nat),
    {
        match self.parts() {
            Parts::Nan => 0,
            Parts::Infinite { negative } => if negative {
                0
            } else {
                max
            },
            Parts::Finite { negative, mantissa, shift } => {
                if negative {
                    return 0;
                }
                if shift >= 1074 {
                    let k: u32 = shift - 1074;
                    proof {
                        lemma_round_whole(mantissa as nat, k as nat);
                        lemma_powers();
                    }
                    if k >= 64 {
                        proof {
                            if k > 64 {
                                lemma_pow2_strictly_increases(64, k as nat);
                            }
                            assert(mantissa as nat * pow2(k as nat) > max) by (nonlinear_arith)
                                requires
                                    mantissa >= 1,
                                    pow2(k as nat) >= 0x1_0000_0000_0000_0000,
                                    max < 0x1_0000_0000_0000_0000,
                            ;
                        }
                        return max;
                    }
                    let factor: u128 = power_of_two(k);
                    proof {
                        lemma_pow2_strictly_increases(k as nat, 64);
                        assert(mantissa as u128 * factor <= 0x20_0000_0000_0000u128
                            * 0x1_0000_0000_0000_0000u128) by (nonlinear_arith)
                            requires
                                mantissa <= 0x20_0000_0000_0000,
                                factor <= 0x1_0000_0000_0000_0000,
                        ;
                    }
                    let n: u128 = mantissa as u128 * factor;
                    if n < max as u128 {
                        n as u64
                    } else {
                        max
                    }
                } else {
                    let k: u32 = 1074 - shift;
                    proof {
                        lemma_round_part(mantissa as nat, shift as nat, k as nat);
                        lemma_powers();
                        lemma_pow2_unfold(k as nat);
                    }
                    if k >= 64 {
                        proof {
                            if k > 64 {
                                lemma_pow2_strictly_increases(63, (k - 1) as nat);
                            }
                            let half = pow2((k - 1) as nat);
                            lemma_fundamental_div_mod_converse(
                                mantissa + half,
                                pow2(k as nat) as int,
                                0,
                                mantissa + half,
                            );
                        }
                        return 0;
                    }
                    let unit: u128 = power_of_two(k);
                    proof {
                        lemma_pow2_strictly_increases(k as nat, 64);
                        lemma_pow2_pos(k as nat);
                    }
                    let n: u128 = (mantissa as u128 + unit / 2) / unit;
                    if n < max as u128 {
                        n as u64
                    } else {
                        max
                    }
                }
            },
        }
    }

}

/// What is below half a unit rounds to zero.
proof fn lemma_rounds_to_zero(p: nat, q: nat, m: u128, e: int, sticky: bool)
    requires
        q > 0,
        e <= -128,
        truncates(p, q, m, e, sticky),
        m < 0x8000_0000_0000_0000_0000_0000_0000_0000,
    ensures
        nearest_units(p, q) == 0,
        0 < pow2(2098),
{
    let k = (-e) as nat;
    lemma_pow2_pos(2098);
    lemma_powers();
    if k > 128 {
        lemma_pow2_strictly_increases(127, (k - 1) as nat);
    }
    assert(m < pow2((k - 1) as nat));
    lemma_pow2_unfold(k);
    lemma_half_even_sticky(p * pow2(k), q, k);
    lemma_fundamental_div_mod_converse(m as int, pow2(k) as int, 0, m as int);
    lemma_pow2_pos(k);
    lemma_half_even_scale(p, q, pow2(k));
    assert(half_even(p, q) == 0);
    lemma_fundamental_div_mod(p as int, q as int);
    assert(p < q * 0x20_0000_0000_0000) by (nonlinear_arith)
        requires
            p == q * (p as int / q as int) + p as int % q as int,
            p as int / q as int == 0,
            (p as int % q as int) < q,
            q > 0,
    ;
}

/// Dropping `t` bits of `m` and rounding them gives the rounded quotient.
proof fn lemma_rounds(
    p: nat,
    q: nat,
    m: u128,
    e: int,
    sticky: bool,
    t: nat,
    t0: nat,
    mantissa: nat,
)
    requires
        q > 0,
        truncates(p, q, m, e, sticky),
        sticky ==> m >= 0x40_0000_0000_0000 || e < 0,
        -4000 <= e <= 4000,
        t0 == (if e < 0 {
            -e
        } else {
            0
        }),
        t0 <= t,
        m as nat / pow2(t) < 0x20_0000_0000_0000,
        t > t0 ==> m >= pow2(t) * 0x10_0000_0000_0000,
        mantissa == ({
            let whole = m as nat / pow2(t);
            let rest = m as nat % pow2(t);
            let half = pow2(t) / 2;
            if t > 0 && (rest > half || (rest == half && (sticky || whole % 2 == 1))) {
                whole + 1
            } else {
                whole
            }
        }),
    ensures
        mantissa <= 0x20_0000_0000_0000,
        e + t >= 0,
        mantissa * pow2((e + t) as nat) == nearest_units(p, q),
{
    let unit = pow2(t);
    lemma_pow2_pos(t);
    let s = (e + t) as nat;
    lemma_pow2_pos(s);
    lemma_fundamental_div_mod(m as int, unit as int);
    let whole = m as nat / unit;
    let rest = m as nat % unit;
    assert(m < unit * 0x20_0000_0000_0000) by (nonlinear_arith)
        requires
            m == unit * whole + rest,
            rest < unit,
            whole + 1 <= 0x20_0000_0000_0000,
    ;
    if t == 0 {
        lemma_powers();
        let step = q * pow2(e as nat);
        assert(step > 0) by (nonlinear_arith)
            requires
                q > 0,
                step == q * pow2(s),
                pow2(s) > 0,
        ;
        lemma_fundamental_div_mod(p as int, step as int);
        assert(m as nat / 1 == m && m as nat % 1 == 0);
        assert(!sticky);
        lemma_nearest_exact(m as nat, s, q);
        assert(p == m as nat * pow2(s) * q) by (nonlinear_arith)
            requires
                p == step * m + 0,
                step == q * pow2(s),
        ;
    } else {
        lemma_pow2_unfold(t);
        if e >= 0 {
            let g = q * pow2(e as nat);
            lemma_pow2_pos(e as nat);
            assert(g > 0) by (nonlinear_arith)
                requires
                    q > 0,
                    g == q * pow2(e as nat),
                    pow2(e as nat) > 0,
            ;
            lemma_half_even_sticky(p, g, t);
            lemma_pow2_adds(e as nat, t);
            assert(g * unit == q * pow2(s)) by (nonlinear_arith)
                requires
                    g == q * pow2(e as nat),
                    pow2(s) == pow2(e as nat) * unit,
            ;
            lemma_fundamental_div_mod(p as int, g as int);
            let rho = p % g;
            assert(p < q * pow2(s) * 0x20_0000_0000_0000) by (nonlinear_arith)
                requires
                    p == g * m + rho,
                    rho < g,
                    m + 1 <= unit * 0x20_0000_0000_0000,
                    g * unit == q * pow2(s),
                    g > 0,
            ;
            assert(p >= q * pow2(s) * 0x10_0000_0000_0000) by (nonlinear_arith)
                requires
                    p == g * m + rho,
                    m >= unit * 0x10_0000_0000_0000,
                    g * unit == q * pow2(s),
                    g > 0,
            ;
            lemma_nearest_scaled(p, q, s);
        } else {
            let k = (-e) as nat;
            let scaled = p * pow2(k);
            lemma_pow2_pos(k);
            lemma_half_even_sticky(scaled, q, t);
            lemma_pow2_adds(s, k);
            let big = q * pow2(s);
            assert(big > 0) by (nonlinear_arith)
                requires
                    q > 0,
                    big == q * pow2(s),
                    pow2(s) > 0,
            ;
            assert(q * unit == big * pow2(k)) by (nonlinear_arith)
                requires
                    big == q * pow2(s),
                    unit == pow2(s) * pow2(k),
            ;
            lemma_half_even_scale(p, big, pow2(k));
            lemma_fundamental_div_mod(scaled as int, q as int);
            let rho = scaled % q;
            assert(p < big * 0x20_0000_0000_0000) by (nonlinear_arith)
                requires
                    p * pow2(k) == q * m + rho,
                    rho < q,
                    m + 1 <= unit * 0x20_0000_0000_0000,
                    q * unit == big * pow2(k),
                    pow2(k) > 0,
            ;
            if s > 0 {
                assert(p >= big * 0x10_0000_0000_0000) by (nonlinear_arith)
                    requires
                        p * pow2(k) == q * m + rho,
                        m >= unit * 0x10_0000_0000_0000,
                        q * unit == big * pow2(k),
                        pow2(k) > 0,
                ;
            }
            lemma_nearest_scaled(p, q, s);
        }
    }
}

/// Every binary64 number can be written with 53 significant bits, within range.
pub proof fn law_numbers_are_representable(x: Binary64)
    ensures
        representable(x@),
{
    let magnitude = x.bits as int % 0x8000_0000_0000_0000;
    let exponent = magnitude / 0x10_0000_0000_0000;
    let fraction = magnitude % 0x10_0000_0000_0000;
    if exponent == 0 {
        lemma_powers();
        lemma_in_range(fraction as nat, 0);
        assert(x@->units == fraction as nat * pow2(0));
    } else if exponent < 2047 {
        let m = (0x10_0000_0000_0000 + fraction) as nat;
        lemma_in_range(m, (exponent - 1) as nat);
        assert(x@->units == m * pow2((exponent - 1) as nat));
    }
}

/// A normalized mantissa overflows exactly above the largest shift.
proof fn lemma_in_range(mantissa: nat, shift: nat)
    requires
        mantissa < 0x20_0000_0000_0000,
        shift > 0 ==> mantissa >= 0x10_0000_0000_0000,
    ensures
        mantissa * pow2(shift) < pow2(2098) <==> shift <= 2045,
{
    lemma_powers();
    lemma_pow2_pos(shift);
    if shift <= 2045 {
        if shift < 2045 {
            lemma_pow2_strictly_increases(shift, 2045);
        }
        lemma_pow2_adds(53, 2045);
        assert(mantissa * pow2(shift) < pow2(53) * pow2(2045)) by (nonlinear_arith)
            requires
                mantissa < pow2(53),
                0 < pow2(shift) <= pow2(2045),
        ;
    } else {
        if shift > 2046 {
            lemma_pow2_strictly_increases(2046, shift);
        }
        lemma_pow2_adds(52, 2046);
        assert(mantissa * pow2(shift) >= pow2(52) * pow2(2046)) by (nonlinear_arith)
            requires
                mantissa >= pow2(52),
                pow2(shift) >= pow2(2046),
        ;
    }
}

proof fn lemma_units_zero(mantissa: u64, shift: u32)
    ensures
        mantissa as nat * pow2(shift as nat) == 0 <==> mantissa == 0,
{
    lemma_pow2_pos(shift as nat);
    assert(mantissa as nat * pow2(shift as nat) == 0 <==> mantissa == 0) by (nonlinear_arith)
        requires
            pow2(shift as nat) > 0,
    ;
}

proof fn lemma_zero_rounds(q: nat)
    requires
        q > 0,
    ensures
        nearest_units(0, q) == 0,
        0 < pow2(2098),
{
    lemma_pow2_pos(2098);
    lemma_fundamental_div_mod_converse(0, q as int, 0, 0);
}

proof fn lemma_zero_quotient(q: nat)
    requires
        q > 0,
    ensures
        nearest_units(0 * pow2(1074), q) == 0,
        0 < pow2(2098),
{
    assert(0 * pow2(1074) == 0) by (nonlinear_arith);
    lemma_zero_rounds(q);
}

/// The long division in `quotient` truncates the quotient of the two numbers.
proof fn lemma_quotient(ma: nat, sa: nat, mb: nat, sb: nat, z: nat, n: u128, e: int)
    requires
        mb > 0,
        z <= 52,
        sa <= 2045,
        sb <= 2045,
        n == (ma * pow2(z)) * 0x8000_0000_0000_0000,
        e == sa - z - sb + 1011,
    ensures
        mb * pow2(sb) > 0,
        ({
            let p = (ma * pow2(sa)) * pow2(1074);
            let q = mb * pow2(sb);
            &&& e >= 0 ==> p / (q * pow2(e as nat)) == n as nat / mb && (p % (q * pow2(e as nat))
                != 0 <==> n as nat % mb != 0)
            &&& e < 0 ==> (p * pow2((-e) as nat)) / q == n as nat / mb && ((p * pow2((-e) as nat))
                % q != 0 <==> n as nat % mb != 0)
        }),
{
    let p = (ma * pow2(sa)) * pow2(1074);
    let q = mb * pow2(sb);
    lemma_powers();
    lemma_pow2_pos(sb);
    assert(q > 0) by (nonlinear_arith)
        requires
            q == mb * pow2(sb),
            mb > 0,
            pow2(sb) > 0,
    ;
    lemma_pow2_adds(z, 63);
    lemma_pow2_adds(sa, 1074);
    assert(n == ma * pow2(z + 63)) by (nonlinear_arith)
        requires
            n == (ma * pow2(z)) * 0x8000_0000_0000_0000,
            pow2(z + 63) == pow2(z) * 0x8000_0000_0000_0000,
    ;
    assert(p == ma * pow2(sa + 1074)) by (nonlinear_arith)
        requires
            p == (ma * pow2(sa)) * pow2(1074),
            pow2(sa + 1074) == pow2(sa) * pow2(1074),
    ;
    if e >= 0 {
        let x = pow2(sb + e as nat);
        lemma_pow2_adds(sb, e as nat);
        lemma_pow2_adds(z + 63, sb + e as nat);
        lemma_pow2_pos(sb + e as nat);
        let step = q * pow2(e as nat);
        assert(step == mb * x) by (nonlinear_arith)
            requires
                step == q * pow2(e as nat),
                q == mb * pow2(sb),
                x == pow2(sb) * pow2(e as nat),
        ;
        assert(p == n * x) by (nonlinear_arith)
            requires
                p == ma * pow2(sa + 1074),
                n == ma * pow2(z + 63),
                pow2(sa + 1074) == pow2(z + 63) * x,
        ;
        lemma_division_scaled(n as nat, mb, x);
    } else {
        let k = (-e) as nat;
        let y = pow2(sb);
        let scaled = p * pow2(k);
        lemma_pow2_adds(sa + 1074, k);
        lemma_pow2_adds(z + 63, sb);
        assert(scaled == n * y) by (nonlinear_arith)
            requires
                scaled == p * pow2(k),
                p == ma * pow2(sa + 1074),
                n == ma * pow2(z + 63),
                pow2(sa + 1074) * pow2(k) == pow2(z + 63) * y,
        ;
        lemma_division_scaled(n as nat, mb, y);
    }
}

/// A common factor scales the remainder and keeps the quotient.
proof fn lemma_division_scaled(n: nat, d: nat, x: nat)
    requires
        d > 0,
        x > 0,
    ensures
        (n * x) / (d * x) == n / d,
        (n * x) % (d * x) != 0 <==> n % d != 0,
{
    lemma_fundamental_div_mod(n as int, d as int);
    let whole = (n / d) as int;
    let rest = (n % d) as int;
    assert(n * x == whole * (d * x) + rest * x) by (nonlinear_arith)
        requires
            n == d * whole + rest,
    ;
    assert(0 <= rest * x < d * x) by (nonlinear_arith)
        requires
            0 <= rest < d,
            x > 0,
    ;
    assert(rest * x != 0 <==> rest != 0) by (nonlinear_arith)
        requires
            x > 0,
    ;
    lemma_fundamental_div_mod_converse((n * x) as int, (d * x) as int, whole, rest * x);
}

/// Cutting `j` bits off the smaller term of a sum.
proof fn lemma_low_bits(mb: nat, sb: nat, j: nat, cut: nat)
    requires
        cut == mb / pow2(j),
    ensures
        0 <= mb * pow2(sb) - cut * pow2(sb + j) < pow2(sb + j),
        mb * pow2(sb) == cut * pow2(sb + j) <==> mb % pow2(j) == 0,
{
    let grain = pow2(j);
    let g = pow2(sb + j);
    lemma_pow2_pos(j);
    lemma_pow2_pos(sb);
    lemma_pow2_adds(sb, j);
    lemma_fundamental_div_mod(mb as int, grain as int);
    let rest = mb % grain;
    assert(mb * pow2(sb) == cut * g + rest * pow2(sb)) by (nonlinear_arith)
        requires
            mb == grain * cut + rest,
            g == pow2(sb) * grain,
    ;
    assert(0 <= rest * pow2(sb) < g) by (nonlinear_arith)
        requires
            0 <= rest < grain,
            g == pow2(sb) * grain,
            pow2(sb) > 0,
    ;
    assert(rest * pow2(sb) == 0 <==> rest == 0) by (nonlinear_arith)
        requires
            pow2(sb) > 0,
    ;
}

/// Magnitudes are ordered by shift, then by mantissa.
proof fn lemma_magnitude_order(ma: u64, sa: u32, mb: u64, sb: u32)
    requires
        (Parts::Finite { negative: false, mantissa: ma, shift: sa }).wf(),
        (Parts::Finite { negative: false, mantissa: mb, shift: sb }).wf(),
    ensures
        sa < sb || (sa == sb && ma < mb) ==> ma as nat * pow2(sa as nat) < mb as nat * pow2(
            sb as nat,
        ),
        sa == sb && ma == mb ==> ma as nat * pow2(sa as nat) == mb as nat * pow2(sb as nat),
{
    lemma_pow2_pos(sa as nat);
    lemma_pow2_pos(sb as nat);
    if sa < sb {
        let low = pow2(sa as nat);
        let high = pow2(sb as nat);
        lemma_pow2_unfold((sa + 1) as nat);
        if sa + 1 < sb {
            lemma_pow2_strictly_increases((sa + 1) as nat, sb as nat);
        }
        assert(ma * low < mb * high) by (nonlinear_arith)
            requires
                ma < 0x20_0000_0000_0000,
                mb >= 0x10_0000_0000_0000,
                high >= 2 * low,
                low > 0,
        ;
    } else if sa == sb && ma < mb {
        assert(ma * pow2(sa as nat) < mb * pow2(sb as nat)) by (nonlinear_arith)
            requires
                ma < mb,
                sa == sb,
                pow2(sa as nat) > 0,
        ;
    }
}

/// Rounding a number of units that is whole already.
proof fn lemma_round_whole(mantissa: nat, k: nat)
    ensures
        (2 * (mantissa * pow2(1074 + k)) + pow2(1074)) / (2 * pow2(1074)) == mantissa * pow2(k),
{
    let one = pow2(1074);
    lemma_pow2_pos(1074);
    lemma_pow2_adds(1074, k);
    let n = mantissa * pow2(k);
    let p = 2 * (mantissa * pow2(1074 + k)) + one;
    assert(p == n * (2 * one) + one) by (nonlinear_arith)
        requires
            p == 2 * (mantissa * pow2(1074 + k)) + one,
            pow2(1074 + k) == one * pow2(k),
            n == mantissa * pow2(k),
    ;
    lemma_fundamental_div_mod_converse(p as int, 2 * one as int, n as int, one as int);
}

/// Rounding a number of units by its mantissa alone.
proof fn lemma_round_part(mantissa: nat, shift: nat, k: nat)
    requires
        shift + k == 1074,
        k >= 1,
    ensures
        (2 * (mantissa * pow2(shift)) + pow2(1074)) / (2 * pow2(1074)) == (mantissa + pow2(
            (k - 1) as nat,
        )) / pow2(k),
{
    let one = pow2(1074);
    let low = pow2(shift);
    let half = pow2((k - 1) as nat);
    lemma_pow2_adds(shift, k);
    lemma_pow2_unfold(k);
    lemma_pow2_pos(shift);
    lemma_pow2_pos(k);
    let n = mantissa + half;
    let d = pow2(k);
    let p = 2 * (mantissa * low) + one;
    assert(p == n * (2 * low)) by (nonlinear_arith)
        requires
            p == 2 * (mantissa * low) + one,
            one == low * d,
            d == 2 * half,
            n == mantissa + half,
    ;
    assert(2 * one == d * (2 * low)) by (nonlinear_arith)
        requires
            one == low * d,
    ;
    lemma_division_scaled(n, d, 2 * low);
}

/// Bit patterns count binary64 numbers up from zero: each stands for one step more
/// than the one before, and the steps double with every binade above the first two.
/// Past the last finite number comes infinity, and after it what is not a number;
/// and the sign bit turns the sign round.
pub proof fn law_bit_patterns(bits: u64)
    requires
        bits < 0x8000_0000_0000_0000,
    ensures
        decoded(0) == (Real64::Finite { negative: false, units: 0 }),
        bits < 0x7fef_ffff_ffff_ffff ==> {
            let binade = bits as int / 0x10_0000_0000_0000;
            let step = if binade == 0 {
                1
            } else {
                pow2((binade - 1) as nat)
            };
            decoded((bits + 1) as u64) == (Real64::Finite {
                negative: false,
                units: decoded(bits)->units + step,
            })
        },
        bits < 0x7ff0_0000_0000_0000 <==> decoded(bits) is Finite,
        bits == 0x7ff0_0000_0000_0000 <==> decoded(bits) == (Real64::Infinite { negative: false }),
        bits > 0x7ff0_0000_0000_0000 <==> decoded(bits) is Nan,
        decoded((bits + 0x8000_0000_0000_0000) as u64) == decoded(bits).neg(),
{
    if bits < 0x7fef_ffff_ffff_ffff {
        let e = bits as int / 0x10_0000_0000_0000;
        let f = bits as int % 0x10_0000_0000_0000;
        lemma_powers();
        if e > 0 {
            let p = pow2((e - 1) as nat);
            lemma_pow2_unfold(e as nat);
            assert((0x10_0000_0000_0000 + f) as nat * p + p == (0x10_0000_0000_0001 + f) as nat * p)
                by (nonlinear_arith)
                requires
                    f >= 0,
            ;
            assert(0x20_0000_0000_0000 * p == 0x10_0000_0000_0000 * (2 * p)) by (nonlinear_arith);
        }
    }
}

/// The parts of a number stand for it: the mantissa times a power of two, with the
/// sign.
pub proof fn law_parts(negative: bool, mantissa: u64, shift: u32)
    ensures
        (Parts::Finite { negative, mantissa, shift }).datum() == (Real64::Finite {
            negative,
            units: mantissa as nat * pow2(shift as nat),
        }),
{
}

} // verus!
