//! Binary64 numbers held by their IEEE 754 bit pattern, with the integer
//! arithmetic that reads them exactly.
use vstd::arithmetic::div_mod::{lemma_fundamental_div_mod, lemma_fundamental_div_mod_converse};
use vstd::arithmetic::power2::{lemma_pow2_adds, lemma_pow2_pos, lemma_pow2_unfold, pow2};
use vstd::prelude::*;

verus! {

/// Two to the fifty-second: one unit of the exponent field, and the hidden bit.
pub const HIDDEN_BIT: u64 = 0x10_0000_0000_0000;

/// The sign bit.
pub const SIGN_BIT: u64 = 0x8000_0000_0000_0000;

/// A binary64 floating-point number, held as its bit pattern.
#[derive(Clone, Copy, Debug, PartialEq, Eq, Structural)]
pub struct Double {
    pub bits: u64,
}

/// `v` held to the range of `i64`.
pub open spec fn clamp_i64(v: int) -> int {
    if v < i64::MIN {
        i64::MIN as int
    } else if v > i64::MAX {
        i64::MAX as int
    } else {
        v
    }
}

impl Double {
    pub open spec fn exponent_field(self) -> int {
        (self.bits as int / HIDDEN_BIT as int) % 2048
    }

    pub open spec fn fraction_field(self) -> int {
        self.bits as int % HIDDEN_BIT as int
    }

    pub open spec fn sign_set(self) -> bool {
        self.bits >= SIGN_BIT
    }

    pub open spec fn finite(self) -> bool {
        self.exponent_field() != 2047
    }

    pub open spec fn nan(self) -> bool {
        self.exponent_field() == 2047 && self.fraction_field() != 0
    }

    /// The integer significand: a finite value's magnitude is
    /// `significand() * 2^scale()`.
    pub open spec fn significand(self) -> int {
        if self.exponent_field() == 0 {
            self.fraction_field()
        } else {
            self.fraction_field() + HIDDEN_BIT as int
        }
    }

    pub open spec fn scale(self) -> int {
        if self.exponent_field() == 0 {
            -1074
        } else {
            self.exponent_field() - 1075
        }
    }

    /// A finite value is exactly `numerator() / denominator()`.
    pub open spec fn numerator(self) -> int {
        let m = if self.sign_set() {
            -self.significand()
        } else {
            self.significand()
        };
        if self.scale() >= 0 {
            m * pow2(self.scale() as nat)
        } else {
            m
        }
    }

    pub open spec fn denominator(self) -> int {
        if self.scale() >= 0 {
            1
        } else {
            pow2((-self.scale()) as nat) as int
        }
    }

    /// The largest integer not above a finite value.
    pub open spec fn floor(self) -> int {
        self.numerator() / self.denominator()
    }

    /// A finite value with no fractional part.
    pub open spec fn whole(self) -> bool {
        self.finite() && self.numerator() % self.denominator() == 0
    }

    /// The nearest integer to `fraction * scale_by`, where `fraction` is the
    /// value minus its floor; halves go up.
    pub open spec fn rounded_fraction_times(self, scale_by: int) -> int {
        let d = self.denominator();
        (2 * (self.numerator() % d) * scale_by + d) / (2 * d)
    }

    /// The integer of a whole value, when it lies in the range of `i64`.
    pub open spec fn whole_i64_spec(self) -> Option<i64> {
        if self.whole() && i64::MIN <= self.floor() <= i64::MAX {
            Some(self.floor() as i64)
        } else {
            None
        }
    }

    pub fn is_finite(&self) -> (r: bool)
        ensures
            r == self.finite(),
    {
        (self.bits / HIDDEN_BIT) % 2048 != 2047
    }

    /// The integer that this number equals, where it is whole and fits in `i64`.
    pub fn whole_i64(&self) -> (r: Option<i64>)
        ensures
            r == self.whole_i64_spec(),
    {
        let e = (self.bits / HIDDEN_BIT) % 2048;
        let f = self.bits % HIDDEN_BIT;
        let neg = self.bits >= SIGN_BIT;
        if e == 2047 {
            return None;
        }
        let m: u64 = if e == 0 {
            f
        } else {
            f + HIDDEN_BIT
        };
        assert(m as int == self.significand());
        if e >= 1075 {
            let k: u64 = e - 1075;
            proof {
                lemma_pow2_pos(k as nat);
            }
            assert(self.denominator() == 1);
            assert(self.numerator() % 1 == 0);
            assert(self.floor() == self.numerator());
            if k <= 10 {
                let p = pow2_u128(k as u32);
                proof {
                    lemma_pow2_mono(k as nat, 10);
                    lemma_small_pow2();
                    assert(m * p <= (HIDDEN_BIT * 2 - 1) * 1024) by (nonlinear_arith)
                        requires
                            m < HIDDEN_BIT * 2,
                            p <= 1024,
                    ;
                }
                let v: u128 = m as u128 * p;
                if neg {
                    assert(self.numerator() == -(v as int)) by (nonlinear_arith)
                        requires
                            self.numerator() == (-(m as int)) * pow2(k as nat),
                            v == m * p,
                            p == pow2(k as nat),
                    ;
                    Some(-(v as i128) as i64)
                } else {
                    assert(self.numerator() == v);
                    Some(v as i64)
                }
            } else {
                proof {
                    lemma_pow2_mono(11, k as nat);
                    lemma_small_pow2();
                }
                if k == 11 && m == HIDDEN_BIT && neg {
                    proof {
                        lemma2_to_63();
                        assert(self.numerator() == -(HIDDEN_BIT * 2048)) by (nonlinear_arith)
                            requires
                                self.numerator() == (-(m as int)) * pow2(k as nat),
                                m == HIDDEN_BIT,
                                pow2(k as nat) == 2048,
                        ;
                    }
                    Some(i64::MIN)
                } else {
                    proof {
                        lemma2_to_63();
                        let pk = pow2(k as nat) as int;
                        let sm: int = if neg { -(m as int) } else { m as int };
                        assert(self.numerator() == sm * pk);
                        assert(sm * pk == if neg { -(m * pk) } else { m * pk }) by (nonlinear_arith)
                            requires
                                sm == (if neg { -(m as int) } else { m as int }),
                        ;
                        if k > 11 {
                            lemma_pow2_mono(12, k as nat);
                            assert(pow2(12) == 4096) by {
                                lemma_pow2_unfold(12);
                            }
                        }
                        if k == 11 {
                            if m > HIDDEN_BIT {
                                assert(m * pk > HIDDEN_BIT * 2048) by (nonlinear_arith)
                                    requires
                                        m > HIDDEN_BIT,
                                        pk == 2048,
                                ;
                            } else {
                                assert(m * pk == HIDDEN_BIT * 2048);
                            }
                        } else {
                            assert(m * pk >= HIDDEN_BIT * 4096) by (nonlinear_arith)
                                requires
                                    m >= HIDDEN_BIT,
                                    pk >= 4096,
                            ;
                        }
                        assert(self.floor() > i64::MAX || self.floor() < i64::MIN);
                    }
                    None
                }
            }
        } else {
            let s: u64 = if e == 0 {
                1074
            } else {
                1075 - e
            };
            assert(-self.scale() == s);
            proof {
                lemma_pow2_pos(s as nat);
                lemma_negated_div_mod(m as int, pow2(s as nat) as int);
            }
            if m == 0 {
                assert(self.numerator() == 0);
                assert(0int % (pow2(s as nat) as int) == 0 && 0int / (pow2(s as nat) as int) == 0)
                    by (nonlinear_arith)
                    requires
                        pow2(s as nat) > 0,
                ;
                return Some(0);
            }
            if s >= 64 {
                proof {
                    lemma_pow2_mono(64, s as nat);
                    lemma_small_pow2();
                    lemma_fundamental_div_mod_converse(m as int, pow2(s as nat) as int, 0, m as int);
                }
                return None;
            }
            let p = pow2_u128(s as u32);
            proof {
                lemma_pow2_mono(s as nat, 64);
                lemma_small_pow2();
            }
            if (m as u128) % p != 0 {
                return None;
            }
            let q = (m as u128 / p) as i64;
            proof {
                assert(m as int / p as int <= m) by (nonlinear_arith)
                    requires
                        p >= 1,
                        m >= 0,
                ;
            }
            if neg {
                Some(-q)
            } else {
                Some(q)
            }
        }
    }
}

/// `2^e` for a small exponent.
pub fn pow2_u128(e: u32) -> (r: u128)
    requires
        e <= 100,
    ensures
        r == pow2(e as nat),
{
    let mut r: u128 = 1;
    let mut i: u32 = 0;
    proof {
        assert(pow2(0) == 1) by {
            vstd::arithmetic::power2::lemma2_to64();
        }
    }
    while i < e
        invariant
            i <= e <= 100,
            r == pow2(i as nat),
        decreases e - i,
    {
        proof {
            lemma_pow2_unfold((i + 1) as nat);
            lemma_pow2_mono((i + 1) as nat, 100);
            lemma_pow2_100();
        }
        r = r * 2;
        i = i + 1;
    }
    r
}

pub proof fn lemma_pow2_mono(a: nat, b: nat)
    requires
        a <= b,
    ensures
        pow2(a) <= pow2(b),
{
    lemma_pow2_adds(a, (b - a) as nat);
    lemma_pow2_pos(a);
    lemma_pow2_pos((b - a) as nat);
    assert(pow2(a) * pow2((b - a) as nat) >= pow2(a)) by (nonlinear_arith)
        requires
            pow2((b - a) as nat) >= 1,
    ;
}

proof fn lemma_small_pow2()
    ensures
        pow2(10) == 1024,
        pow2(11) == 2048,
        pow2(64) == 0x1_0000_0000_0000_0000,
        pow2(72) == 0x100_0000_0000_0000_0000,
{
    vstd::arithmetic::power2::lemma2_to64();
    lemma_pow2_adds(64, 8);
    assert(pow2(8) == 256) by {
        vstd::arithmetic::power2::lemma2_to64();
    }
}

proof fn lemma2_to_63()
    ensures
        pow2(63) == 0x8000_0000_0000_0000,
{
    vstd::arithmetic::power2::lemma2_to64_rest();
}

proof fn lemma_pow2_100()
    ensures
        pow2(100) == 0x10_0000_0000_0000_0000_0000_0000,
{
    vstd::arithmetic::power2::lemma2_to64();
    lemma_pow2_adds(64, 32);
    lemma_pow2_adds(96, 4);
    assert(pow2(4) == 16) by {
        vstd::arithmetic::power2::lemma2_to64();
    }
}

/// Floor division and remainder of a negated natural number.
pub proof fn lemma_negated_div_mod(m: int, p: int)
    requires
        0 <= m,
        0 < p,
    ensures
        m % p == 0 ==> (-m) % p == 0 && (-m) / p == -(m / p),
        m % p != 0 ==> (-m) % p == p - m % p && (-m) / p == -(m / p) - 1,
        0 <= m % p < p,
        m == p * (m / p) + m % p,
{
    lemma_fundamental_div_mod(m, p);
    vstd::arithmetic::div_mod::lemma_mod_pos_bound(m, p);
    let q = m / p;
    let r = m % p;
    if r == 0 {
        assert(-m == (-q) * p + 0) by (nonlinear_arith)
            requires
                m == p * q + r,
                r == 0,
        ;
        lemma_fundamental_div_mod_converse(-m, p, -q, 0);
    } else {
        assert(-m == (-q - 1) * p + (p - r)) by (nonlinear_arith)
            requires
                m == p * q + r,
        ;
        lemma_fundamental_div_mod_converse(-m, p, -q - 1, p - r);
    }
}

} // verus!
