//! 256-bit signed integers, as far as decimals need them.

use vstd::prelude::*;

verus! {

/// Two raised to 128.
pub open spec fn two128() -> int {
    0x1_0000_0000_0000_0000_0000_0000_0000_0000int
}

/// Ten raised to `n`.
pub open spec fn pow10(n: nat) -> int
    decreases n,
{
    if n == 0 {
        1
    } else {
        10 * pow10((n - 1) as nat)
    }
}

/// A power of ten is positive.
pub proof fn lemma_pow10_positive(n: nat)
    ensures
        pow10(n) > 0,
    decreases n,
{
    if n > 0 {
        lemma_pow10_positive((n - 1) as nat);
    }
}

/// A larger power of ten is larger.
pub proof fn lemma_pow10_monotone(m: nat, n: nat)
    requires
        m <= n,
    ensures
        pow10(m) <= pow10(n),
    decreases n,
{
    lemma_pow10_positive(n);
    if m < n {
        lemma_pow10_positive((n - 1) as nat);
        lemma_pow10_monotone(m, (n - 1) as nat);
    }
}

/// A 256-bit signed integer: `high` times two to the 128th, plus `low`.
#[derive(Clone, Copy, Debug, PartialEq, Eq, Structural)]
pub struct I256 {
    pub high: i128,
    pub low: u128,
}

impl View for I256 {
    type V = int;

    open spec fn view(&self) -> int {
        self.high * two128() + self.low
    }
}

/// The smallest and the largest 256-bit signed integers enclose `n`.
pub open spec fn fits_i256(n: int) -> bool {
    -0x8000_0000_0000_0000_0000_0000_0000_0000 * two128() <= n
        < 0x8000_0000_0000_0000_0000_0000_0000_0000 * two128()
}

/// A 256-bit unsigned integer.
#[derive(Clone, Copy, Debug, PartialEq, Eq, Structural)]
struct Magnitude {
    high: u128,
    low: u128,
}

impl Magnitude {
    spec fn value(self) -> int {
        self.high * two128() + self.low
    }

    /// Ten times the number, where that fits.
    fn times_ten(self) -> (r: Option<Magnitude>)
        ensures
            match r {
                Some(m) => m.value() == 10 * self.value(),
                None => 10 * self.value() >= two128() * two128(),
            },
    {
        let base: u128 = 0x1_0000_0000_0000_0000;
        let lo: u128 = self.low % base;
        let hi: u128 = self.low / base;
        let p0: u128 = lo * 10;
        let p1: u128 = hi * 10 + p0 / base;
        let low: u128 = (p1 % base) * base + p0 % base;
        let carry: u128 = p1 / base;
        assert(low + carry * two128() == 10 * self.low);
        match self.high.checked_mul(10) {
            None => None,
            Some(tens) => match tens.checked_add(carry) {
                None => None,
                Some(high) => Some(Magnitude { high, low }),
            },
        }
    }

    /// A tenth of the number, rounded down.
    fn tenth(self) -> (r: Magnitude)
        ensures
            r.value() == self.value() / 10,
    {
        let base: u128 = 0x1_0000_0000_0000_0000;
        let high: u128 = self.high / 10;
        let r: u128 = self.high % 10;
        let t1: u128 = r * base + self.low / base;
        let q1: u128 = t1 / 10;
        let t0: u128 = (t1 % 10) * base + self.low % base;
        let q0: u128 = t0 / 10;
        let low: u128 = q1 * base + q0;
        assert(10 * (high * two128() + low) + t0 % 10 == self.high * two128() + self.low);
        Magnitude { high, low }
    }
}

proof fn lemma_div_mul(m: int, a: int)
    requires
        m >= 0,
        a > 0,
    ensures
        (m / 10) / a == m / (10 * a),
{
    vstd::arithmetic::div_mod::lemma_div_denominator(m, 10, a);
}

impl I256 {
    /// The integer as a 256-bit one.
    pub fn from_i128(n: i128) -> (r: I256)
        ensures
            r@ == n,
    {
        if n < 0 {
            let low: u128 = 0xffff_ffff_ffff_ffff_ffff_ffff_ffff_ffff - ((-(n + 1)) as u128);
            I256 { high: -1, low }
        } else {
            I256 { high: 0, low: n as u128 }
        }
    }

    /// Whether the number is smaller than another.
    pub fn lt(self, other: I256) -> (r: bool)
        ensures
            r == (self@ < other@),
    {
        self.high < other.high || (self.high == other.high && self.low < other.low)
    }

    fn magnitude(self) -> (r: Magnitude)
        ensures
            r.value() == (if self@ < 0 {
                -self@
            } else {
                self@
            }),
    {
        if self.high < 0 {
            let top: u128 = (-(self.high + 1)) as u128;
            if self.low == 0 {
                Magnitude { high: top + 1, low: 0 }
            } else {
                Magnitude {
                    high: top,
                    low: 0xffff_ffff_ffff_ffff_ffff_ffff_ffff_ffff - self.low + 1,
                }
            }
        } else {
            Magnitude { high: self.high as u128, low: self.low }
        }
    }

    /// The number of this magnitude and sign, where it fits.
    fn from_magnitude(negative: bool, m: Magnitude) -> (r: Option<I256>)
        ensures
            match r {
                Some(n) => n@ == (if negative {
                    -m.value()
                } else {
                    m.value()
                }),
                None => !fits_i256(
                    if negative {
                        -m.value()
                    } else {
                        m.value()
                    },
                ),
            },
    {
        let half: u128 = 0x8000_0000_0000_0000_0000_0000_0000_0000;
        if negative {
            if m.high > half || (m.high == half && m.low > 0) {
                None
            } else if m.low == 0 {
                if m.high == half {
                    Some(I256 { high: i128::MIN, low: 0 })
                } else {
                    Some(I256 { high: -(m.high as i128), low: 0 })
                }
            } else {
                Some(
                    I256 {
                        high: -(m.high as i128) - 1,
                        low: 0xffff_ffff_ffff_ffff_ffff_ffff_ffff_ffff - m.low + 1,
                    },
                )
            }
        } else {
            if m.high >= half {
                None
            } else {
                Some(I256 { high: m.high as i128, low: m.low })
            }
        }
    }

    /// The number times ten to the `n`th, where that fits.
    pub fn times_pow10(self, n: u8) -> (r: Option<I256>)
        ensures
            match r {
                Some(p) => p@ == self@ * pow10(n as nat),
                None => !fits_i256(self@ * pow10(n as nat)),
            },
    {
        let negative: bool = self.high < 0;
        let mut m = self.magnitude();
        let ghost start = m.value();
        let mut i: u8 = 0;
        while i < n
            invariant
                i <= n,
                start >= 0,
                m.value() == start * pow10(i as nat),
                negative == (self@ < 0),
                start == (if self@ < 0 {
                    -self@
                } else {
                    self@
                }),
            decreases n - i,
        {
            proof {
                lemma_pow10_positive(i as nat);
                assert(pow10((i + 1) as nat) == 10 * pow10(i as nat));
                assert(start * pow10((i + 1) as nat) == 10 * (start * pow10(i as nat)))
                    by (nonlinear_arith)
                    requires
                        pow10((i + 1) as nat) == 10 * pow10(i as nat),
                ;
            }
            match m.times_ten() {
                Some(next) => {
                    m = next;
                },
                None => {
                    proof {
                        lemma_pow10_monotone((i + 1) as nat, n as nat);
                        assert(start * pow10((i + 1) as nat) <= start * pow10(n as nat))
                            by (nonlinear_arith)
                            requires
                                start >= 0,
                                pow10((i + 1) as nat) <= pow10(n as nat),
                        ;
                        assert(self@ * pow10(n as nat) == (if self@ < 0 {
                            -(start * pow10(n as nat))
                        } else {
                            start * pow10(n as nat)
                        })) by (nonlinear_arith)
                            requires
                                start == (if self@ < 0 {
                                    -self@
                                } else {
                                    self@
                                }),
                        ;
                        assert(two128() * two128() > 0x8000_0000_0000_0000_0000_0000_0000_0000
                            * two128());
                    }
                    return None;
                },
            }
            i = i + 1;
        }
        proof {
            assert(self@ * pow10(n as nat) == (if self@ < 0 {
                -(start * pow10(n as nat))
            } else {
                start * pow10(n as nat)
            })) by (nonlinear_arith)
                requires
                    start == (if self@ < 0 {
                        -self@
                    } else {
                        self@
                    }),
            ;
        }
        Self::from_magnitude(negative, m)
    }

    /// The number divided by ten to the `n`th, rounded towards zero.
    pub fn over_pow10(self, n: u8) -> (r: I256)
        ensures
            r@ == (if self@ < 0 {
                -((-self@) / pow10(n as nat))
            } else {
                self@ / pow10(n as nat)
            }),
    {
        let negative: bool = self.high < 0;
        let mut m = self.magnitude();
        let ghost start = m.value();
        let mut i: u8 = 0;
        while i < n
            invariant
                i <= n,
                start >= 0,
                m.value() >= 0,
                m.value() <= start,
                m.value() / pow10((n - i) as nat) == start / pow10(n as nat),
            decreases n - i,
        {
            proof {
                lemma_pow10_positive((n - i - 1) as nat);
                assert(pow10((n - i) as nat) == 10 * pow10((n - i - 1) as nat));
                lemma_div_mul(m.value(), pow10((n - i - 1) as nat));
            }
            m = m.tenth();
            i = i + 1;
        }
        proof {
            assert(pow10(0) == 1);
            assert(m.value() / 1 == m.value());
        }
        match Self::from_magnitude(negative, m) {
            Some(r) => r,
            None => self,
        }
    }

    /// The number as a 64-bit integer, where it fits.
    pub fn to_i64(self) -> (r: Option<i64>)
        ensures
            match r {
                Some(n) => n == self@,
                None => !(i64::MIN <= self@ <= i64::MAX),
            },
    {
        if self.high == 0 && self.low <= 0x7fff_ffff_ffff_ffff {
            Some(self.low as i64)
        } else if self.high == -1 && self.low >= 0xffff_ffff_ffff_ffff_8000_0000_0000_0000 {
            let back: u128 = 0xffff_ffff_ffff_ffff_ffff_ffff_ffff_ffff - self.low;
            Some(-(back as i64) - 1)
        } else {
            None
        }
    }

    /// The number as a 128-bit integer, where it fits.
    pub fn to_i128(self) -> (r: Option<i128>)
        ensures
            match r {
                Some(n) => n == self@,
                None => !(i128::MIN <= self@ <= i128::MAX),
            },
    {
        if self.high == 0 && self.low <= 0x7fff_ffff_ffff_ffff_ffff_ffff_ffff_ffff {
            Some(self.low as i128)
        } else if self.high == -1 && self.low >= 0x8000_0000_0000_0000_0000_0000_0000_0000 {
            let back: u128 = 0xffff_ffff_ffff_ffff_ffff_ffff_ffff_ffff - self.low;
            Some(-(back as i128) - 1)
        } else {
            None
        }
    }

    /// Whether the number has at most `precision` decimal digits.
    pub fn has_digits(self, precision: u8) -> (r: bool)
        ensures
            r == (-pow10(precision as nat) < self@ < pow10(precision as nat)),
    {
        let m = self.magnitude();
        let mut bound = Magnitude { high: 0, low: 1 };
        let mut i: u8 = 0;
        while i < precision
            invariant
                i <= precision,
                bound.value() == pow10(i as nat),
                m.value() == (if self@ < 0 {
                    -self@
                } else {
                    self@
                }),
            decreases precision - i,
        {
            match bound.times_ten() {
                Some(next) => {
                    bound = next;
                },
                None => {
                    proof {
                        lemma_pow10_monotone((i + 1) as nat, precision as nat);
                        assert(m.value() < two128() * two128());
                    }
                    return true;
                },
            }
            i = i + 1;
        }
        m.high < bound.high || (m.high == bound.high && m.low < bound.low)
    }
}

} // verus!
