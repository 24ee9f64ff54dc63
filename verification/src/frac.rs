//! Exact rational numbers over machine integers.
//!
//! Every arithmetic result is reduced to lowest terms and is reported only when
//! its numerator and denominator fit the machine types; no operation wraps.
use crate::text::{
    all_digits, chars_of, decimal, decimal_int, digits_only, digits_value, parse_digits,
    push_decimal,
};
use vstd::arithmetic::div_mod::{lemma_fundamental_div_mod_converse, lemma_truncate_middle};
use vstd::prelude::*;

verus! {

/// The mathematical content of a `Frac`: a numerator over a denominator.
pub struct Ratio {
    pub num: int,
    pub den: int,
}

/// The four arithmetic operations.
#[derive(Clone, Copy, Debug, PartialEq, Eq, Structural)]
pub enum ArithOp {
    Add,
    Sub,
    Mul,
    Div,
}

/// The four order relations.
#[derive(Clone, Copy, Debug, PartialEq, Eq, Structural)]
pub enum Relation {
    Less,
    Greater,
    LessEq,
    GreaterEq,
}

/// Greatest common divisor, by Euclid's algorithm; `gcd(a, 0) == a`.
pub open spec fn gcd(a: nat, b: nat) -> nat
    decreases b,
{
    if b == 0 {
        a
    } else {
        gcd(b, a % b)
    }
}

pub open spec fn magnitude(i: int) -> nat {
    if i < 0 {
        (-i) as nat
    } else {
        i as nat
    }
}

/// `num/den` divided through by the greatest common divisor of `|num|` and
/// `den`. Meant for `den >= 0`; `0/0` is left as it is.
pub open spec fn reduce(num: int, den: int) -> Ratio {
    let g = gcd(magnitude(num), magnitude(den));
    if g == 0 {
        Ratio { num, den }
    } else if num < 0 {
        Ratio { num: -(magnitude(num) / g), den: magnitude(den) as int / g as int }
    } else {
        Ratio { num: magnitude(num) as int / g as int, den: magnitude(den) as int / g as int }
    }
}

/// Whether a ratio can be stored: numerator within `isize`, denominator
/// positive and within `usize`.
pub open spec fn fits(r: Ratio) -> bool {
    isize::MIN <= r.num <= isize::MAX && 0 < r.den <= usize::MAX
}

pub open spec fn ratio_add(a: Ratio, b: Ratio) -> Ratio {
    reduce(a.num * b.den + b.num * a.den, a.den * b.den)
}

pub open spec fn ratio_sub(a: Ratio, b: Ratio) -> Ratio {
    reduce(a.num * b.den - b.num * a.den, a.den * b.den)
}

pub open spec fn ratio_mul(a: Ratio, b: Ratio) -> Ratio {
    reduce(a.num * b.num, a.den * b.den)
}

/// `a / b`, with the sign carried by the numerator. Meant for `b.num != 0`.
pub open spec fn ratio_div(a: Ratio, b: Ratio) -> Ratio {
    if b.num < 0 {
        reduce(-(a.num * b.den), a.den * magnitude(b.num))
    } else {
        reduce(a.num * b.den, a.den * magnitude(b.num))
    }
}

/// The exact result of one arithmetic step, in lowest terms.
pub open spec fn ratio_apply(op: ArithOp, a: Ratio, b: Ratio) -> Ratio {
    match op {
        ArithOp::Add => ratio_add(a, b),
        ArithOp::Sub => ratio_sub(a, b),
        ArithOp::Mul => ratio_mul(a, b),
        ArithOp::Div => ratio_div(a, b),
    }
}

/// Equality of the rationals denoted, whatever their representation.
pub open spec fn ratio_eq(a: Ratio, b: Ratio) -> bool {
    a.num * b.den == b.num * a.den
}

pub open spec fn ratio_lt(a: Ratio, b: Ratio) -> bool {
    a.num * b.den < b.num * a.den
}

/// Whether `a rel b` holds of the rationals denoted (for positive
/// denominators).
pub open spec fn ratio_holds(rel: Relation, a: Ratio, b: Ratio) -> bool {
    match rel {
        Relation::Less => ratio_lt(a, b),
        Relation::Greater => ratio_lt(b, a),
        Relation::LessEq => !ratio_lt(b, a),
        Relation::GreaterEq => !ratio_lt(a, b),
    }
}

/// The greatest integer not above `num/den` (for `den > 0`).
pub open spec fn ratio_floor(r: Ratio) -> int {
    r.num / r.den
}

/// How a ratio is written: the numerator alone when the denominator is 1,
/// else `num/den`.
pub open spec fn ratio_text(r: Ratio) -> Seq<char> {
    if r.den == 1 {
        decimal_int(r.num)
    } else {
        decimal_int(r.num) + seq!['/'] + decimal(r.den as nat)
    }
}

/// Where the first `/` of a text stands, if it has one.
pub open spec fn slash_at(s: Seq<char>) -> Option<int> {
    s.index_of_first('/')
}

/// The digits of the numerator: what follows an optional leading `-`, up to
/// the `/` or the end.
pub open spec fn numerator_digits(s: Seq<char>) -> Seq<char> {
    let start: int = if s.len() > 0 && s[0] == '-' {
        1
    } else {
        0
    };
    let end: int = match slash_at(s) {
        Some(k) => k,
        None => s.len() as int,
    };
    if start <= end {
        s.subrange(start, end)
    } else {
        Seq::empty()
    }
}

/// The digits after the `/`, if there is one.
pub open spec fn denominator_digits(s: Seq<char>) -> Option<Seq<char>> {
    match slash_at(s) {
        Some(k) => Some(s.subrange(k + 1, s.len() as int)),
        None => None,
    }
}

/// Whether `s` is shaped as a number: an optional `-`, one or more digits,
/// and optionally `/` followed by one or more digits.
pub open spec fn number_shaped(s: Seq<char>) -> bool {
    &&& numerator_digits(s).len() > 0
    &&& all_digits(numerator_digits(s))
    &&& match denominator_digits(s) {
        Some(d) => d.len() > 0 && all_digits(d),
        None => true,
    }
}

/// The ratio that a number-shaped text writes, before reduction.
pub open spec fn written_ratio(s: Seq<char>) -> Ratio {
    let n = digits_value(numerator_digits(s)) as int;
    Ratio {
        num: if s.len() > 0 && s[0] == '-' {
            -n
        } else {
            n
        },
        den: match denominator_digits(s) {
            Some(d) => digits_value(d) as int,
            None => 1,
        },
    }
}

/// The number that a text denotes: it must be shaped as a number and what it
/// writes must fit; the result is in lowest terms.
pub open spec fn parse_number(s: Seq<char>) -> Option<Ratio> {
    if number_shaped(s) && fits(written_ratio(s)) {
        Some(reduce(written_ratio(s).num, written_ratio(s).den))
    } else {
        None
    }
}

pub proof fn lemma_gcd_positive(a: nat, b: nat)
    requires
        a > 0 || b > 0,
    ensures
        gcd(a, b) > 0,
    decreases b,
{
    if b != 0 {
        lemma_gcd_positive(b, a % b);
    }
}

/// The greatest common divisor divides both arguments.
pub proof fn lemma_gcd_divides(a: nat, b: nat)
    requires
        a > 0 || b > 0,
    ensures
        gcd(a, b) > 0,
        a % gcd(a, b) == 0,
        b % gcd(a, b) == 0,
    decreases b,
{
    lemma_gcd_positive(a, b);
    if b != 0 {
        lemma_gcd_divides(b, a % b);
        let g = gcd(a, b);
        let q = a / b;
        let r = a % b;
        assert(a == q * b + r) by (nonlinear_arith)
            requires
                b > 0,
                q == a / b,
                r == a % b,
        ;
        let kb = b / g;
        let kr = r / g;
        assert(b == kb * g) by (nonlinear_arith)
            requires
                g > 0,
                b % g == 0,
                kb == b / g,
        ;
        assert(r == kr * g) by (nonlinear_arith)
            requires
                g > 0,
                r % g == 0,
                kr == r / g,
        ;
        assert(a == (q * kb + kr) * g) by (nonlinear_arith)
            requires
                a == q * b + r,
                b == kb * g,
                r == kr * g,
        ;
        assert(a % g == 0) by (nonlinear_arith)
            requires
                g > 0,
                a == (q * kb + kr) * g,
        ;
    }
}

/// A common factor comes out of the greatest common divisor.
pub proof fn lemma_gcd_scales(k: nat, a: nat, b: nat)
    requires
        k > 0,
    ensures
        gcd(k * a, k * b) == k * gcd(a, b),
    decreases b,
{
    if b == 0 {
        assert(k * b == 0) by (nonlinear_arith)
            requires
                b == 0,
        ;
    } else {
        lemma_truncate_middle(a as int, k as int, b as int);
        assert(k * b > 0) by (nonlinear_arith)
            requires
                k > 0,
                b > 0,
        ;
        lemma_gcd_scales(k, b, a % b);
        assert((k * a) % (k * b) == k * (a % b));
    }
}

/// Whether numerator and denominator have no common factor.
pub open spec fn lowest_terms(r: Ratio) -> bool {
    gcd(magnitude(r.num), magnitude(r.den)) == 1
}

/// A reduced fraction is in lowest terms.
pub proof fn lemma_reduce_lowest_terms(n: int, d: int)
    requires
        d > 0,
    ensures
        lowest_terms(reduce(n, d)),
        reduce(n, d).den > 0,
{
    let m = magnitude(n);
    let g = gcd(m, d as nat);
    lemma_gcd_divides(m, d as nat);
    let qm = m / g;
    let qd = (d as nat) / g;
    lemma_quotient_bounds(m, g);
    lemma_quotient_bounds(d as nat, g);
    lemma_gcd_scales(g, qm, qd);
    assert(g * qm == m && g * qd == d) by (nonlinear_arith)
        requires
            qm * g == m,
            qd * g == d,
    ;
    assert(gcd(qm, qd) == 1) by (nonlinear_arith)
        requires
            g > 0,
            g == g * gcd(qm, qd),
    ;
    assert(magnitude(reduce(n, d).num) == qm);
    assert(magnitude(reduce(n, d).den) == qd);
}

/// A divisor that is at most `b` leaves a quotient that is at most `b`, and a
/// positive one where `b` is positive.
proof fn lemma_quotient_bounds(b: nat, g: nat)
    requires
        g > 0,
        b % g == 0,
    ensures
        b / g <= b,
        b > 0 ==> b / g > 0,
        (b / g) * g == b,
{
    assert((b / g) * g == b && b / g <= b && (b > 0 ==> b / g > 0)) by (nonlinear_arith)
        requires
            g > 0,
            b % g == 0,
    ;
}

/// A rational number held as a signed numerator over a positive denominator.
#[derive(Clone, Copy, Debug)]
pub struct Frac {
    num: isize,
    den: usize,
}

impl View for Frac {
    type V = Ratio;

    closed spec fn view(&self) -> Ratio {
        Ratio { num: self.num as int, den: self.den as int }
    }
}

fn gcd_exec(a: u128, b: u128) -> (g: u128)
    ensures
        g as nat == gcd(a as nat, b as nat),
{
    let mut x: u128 = a;
    let mut y: u128 = b;
    while y > 0
        invariant
            gcd(x as nat, y as nat) == gcd(a as nat, b as nat),
        decreases y,
    {
        let t: u128 = y;
        y = x % y;
        x = t;
    }
    x
}

fn magnitude_of(n: isize) -> (m: u128)
    ensures
        m as nat == magnitude(n as int),
        m <= 0x8000_0000_0000_0000,
{
    if n < 0 {
        (-(n as i128)) as u128
    } else {
        n as u128
    }
}

impl Frac {
    #[verifier::type_invariant]
    spec fn positive_denominator(self) -> bool {
        self.den > 0
    }

    /// Reduces `±mag/den` and stores it if the result fits.
    fn build(negative: bool, mag: u128, den: u128) -> (r: Option<Frac>)
        requires
            den > 0,
        ensures
            match r {
                Some(f) => f@ == reduce(
                    if negative {
                        -(mag as int)
                    } else {
                        mag as int
                    },
                    den as int,
                ) && fits(f@),
                None => !fits(
                    reduce(
                        if negative {
                            -(mag as int)
                        } else {
                            mag as int
                        },
                        den as int,
                    ),
                ),
            },
    {
        let g = gcd_exec(mag, den);
        proof {
            lemma_gcd_divides(mag as nat, den as nat);
            lemma_quotient_bounds(mag as nat, g as nat);
            lemma_quotient_bounds(den as nat, g as nat);
        }
        let m: u128 = mag / g;
        let d: u128 = den / g;
        if d > usize::MAX as u128 {
            return None;
        }
        if negative && m > 0 {
            if m > (isize::MAX as u128) + 1 {
                return None;
            }
            let n: isize = if m == (isize::MAX as u128) + 1 {
                isize::MIN
            } else {
                -(m as isize)
            };
            Some(Frac { num: n, den: d as usize })
        } else {
            if m > isize::MAX as u128 {
                return None;
            }
            Some(Frac { num: m as isize, den: d as usize })
        }
    }

    /// The integer `num`, as a number.
    pub fn num(num: isize) -> (f: Self)
        ensures
            f@ == (Ratio { num: num as int, den: 1 }),
    {
        Self { num, den: 1 }
    }

    pub fn exact_zero(&self) -> (b: bool)
        ensures
            b == (self@.num == 0),
    {
        self.num == 0
    }

    pub fn get_num(&self) -> (n: isize)
        ensures
            n == self@.num,
    {
        self.num
    }

    pub fn get_den(&self) -> (d: usize)
        ensures
            d == self@.den,
            d > 0,
    {
        proof {
            use_type_invariant(self);
        }
        self.den
    }

    /// The same number in lowest terms.
    pub fn simplify(&self) -> (f: Frac)
        ensures
            f@ == reduce(self@.num, self@.den),
    {
        proof {
            use_type_invariant(self);
        }
        let m = magnitude_of(self.num);
        let g = gcd_exec(m, self.den as u128);
        proof {
            lemma_gcd_divides(m as nat, self.den as nat);
            lemma_quotient_bounds(m as nat, g as nat);
            lemma_quotient_bounds(self.den as nat, g as nat);
        }
        let q: u128 = m / g;
        let d: u128 = self.den as u128 / g;
        if self.num < 0 {
            let n: isize = if q == (isize::MAX as u128) + 1 {
                isize::MIN
            } else {
                -(q as isize)
            };
            Frac { num: n, den: d as usize }
        } else {
            Frac { num: q as isize, den: d as usize }
        }
    }

    /// The greatest integer that is not above this number.
    pub fn to_int(&self) -> (i: isize)
        ensures
            i == ratio_floor(self@),
    {
        proof {
            use_type_invariant(self);
        }
        let m = magnitude_of(self.num);
        let d: u128 = self.den as u128;
        let q: u128 = m / d;
        let r: u128 = m % d;
        proof {
            assert(m == q * d + r && q <= m) by (nonlinear_arith)
                requires
                    d > 0,
                    q == m / d,
                    r == m % d,
            ;
            if self.num >= 0 {
                lemma_fundamental_div_mod_converse(self.num as int, d as int, q as int, r as int);
            } else if r == 0 {
                assert(self.num as int == (-(q as int)) * (d as int) + 0) by (nonlinear_arith)
                    requires
                        m == q * d + r,
                        r == 0,
                        self.num as int == -(m as int),
                ;
                lemma_fundamental_div_mod_converse(self.num as int, d as int, -(q as int), 0);
            } else {
                assert(self.num as int == (-(q as int) - 1) * (d as int) + (d - r)) by (nonlinear_arith)
                    requires
                        m == q * d + r,
                        self.num as int == -(m as int),
                ;
                lemma_fundamental_div_mod_converse(
                    self.num as int,
                    d as int,
                    -(q as int) - 1,
                    d - r,
                );
                assert(q < m) by (nonlinear_arith)
                    requires
                        m == q * d + r,
                        r > 0,
                        d > 0,
                ;
            }
        }
        if self.num >= 0 {
            q as isize
        } else if r == 0 {
            if q == (isize::MAX as u128) + 1 {
                isize::MIN
            } else {
                -(q as isize)
            }
        } else {
            -(q as isize) - 1
        }
    }

    /// `self + other` in lowest terms, when it fits.
    pub fn checked_add(&self, other: &Frac) -> (r: Option<Frac>)
        ensures
            match r {
                Some(f) => f@ == ratio_add(self@, other@) && fits(f@),
                None => !fits(ratio_add(self@, other@)),
            },
    {
        self.sum_with(other, false)
    }

    /// `self - other` in lowest terms, when it fits.
    pub fn checked_sub(&self, other: &Frac) -> (r: Option<Frac>)
        ensures
            match r {
                Some(f) => f@ == ratio_sub(self@, other@) && fits(f@),
                None => !fits(ratio_sub(self@, other@)),
            },
    {
        self.sum_with(other, true)
    }

    /// `self + other`, or `self - other` when `negate` is set.
    fn sum_with(&self, other: &Frac, negate: bool) -> (r: Option<Frac>)
        ensures
            match r {
                Some(f) => f@ == (if negate {
                    ratio_sub(self@, other@)
                } else {
                    ratio_add(self@, other@)
                }) && fits(f@),
                None => !fits(
                    if negate {
                        ratio_sub(self@, other@)
                    } else {
                        ratio_add(self@, other@)
                    },
                ),
            },
    {
        proof {
            use_type_invariant(self);
            use_type_invariant(other);
        }
        let m1 = magnitude_of(self.num);
        let m2 = magnitude_of(other.num);
        let d1: u128 = self.den as u128;
        let d2: u128 = other.den as u128;
        assert(m1 * d2 <= 0x8000_0000_0000_0000 * 0xffff_ffff_ffff_ffff) by (nonlinear_arith)
            requires
                m1 <= 0x8000_0000_0000_0000,
                d2 <= 0xffff_ffff_ffff_ffff,
        ;
        assert(m2 * d1 <= 0x8000_0000_0000_0000 * 0xffff_ffff_ffff_ffff) by (nonlinear_arith)
            requires
                m2 <= 0x8000_0000_0000_0000,
                d1 <= 0xffff_ffff_ffff_ffff,
        ;
        assert(d1 * d2 <= 0xffff_ffff_ffff_ffff * 0xffff_ffff_ffff_ffff) by (nonlinear_arith)
            requires
                d1 <= 0xffff_ffff_ffff_ffff,
                d2 <= 0xffff_ffff_ffff_ffff,
        ;
        assert(d1 * d2 > 0) by (nonlinear_arith)
            requires
                d1 > 0,
                d2 > 0,
        ;
        let left_product: u128 = m1 * d2;
        let right_product: u128 = m2 * d1;
        let den: u128 = d1 * d2;
        let neg1: bool = self.num < 0;
        let neg2: bool = (other.num < 0) != negate;
        proof {
            let a = self.num as int;
            let b = other.num as int;
            assert(a * (d2 as int) == if a < 0 {
                -(left_product as int)
            } else {
                left_product as int
            }) by (nonlinear_arith)
                requires
                    left_product == m1 * d2,
                    m1 as int == (if a < 0 {
                        -a
                    } else {
                        a
                    }),
            ;
            assert(b * (d1 as int) == if b < 0 {
                -(right_product as int)
            } else {
                right_product as int
            }) by (nonlinear_arith)
                requires
                    right_product == m2 * d1,
                    m2 as int == (if b < 0 {
                        -b
                    } else {
                        b
                    }),
            ;
        }
        if neg1 == neg2 {
            Frac::build(neg1, left_product + right_product, den)
        } else if left_product >= right_product {
            Frac::build(neg1, left_product - right_product, den)
        } else {
            Frac::build(neg2, right_product - left_product, den)
        }
    }

    /// `self * other` in lowest terms, when it fits.
    pub fn checked_mul(&self, other: &Frac) -> (r: Option<Frac>)
        ensures
            match r {
                Some(f) => f@ == ratio_mul(self@, other@) && fits(f@),
                None => !fits(ratio_mul(self@, other@)),
            },
    {
        proof {
            use_type_invariant(self);
            use_type_invariant(other);
        }
        let m1 = magnitude_of(self.num);
        let m2 = magnitude_of(other.num);
        let d1: u128 = self.den as u128;
        let d2: u128 = other.den as u128;
        assert(m1 * m2 <= 0x8000_0000_0000_0000 * 0x8000_0000_0000_0000) by (nonlinear_arith)
            requires
                m1 <= 0x8000_0000_0000_0000,
                m2 <= 0x8000_0000_0000_0000,
        ;
        assert(d1 * d2 <= 0xffff_ffff_ffff_ffff * 0xffff_ffff_ffff_ffff) by (nonlinear_arith)
            requires
                d1 <= 0xffff_ffff_ffff_ffff,
                d2 <= 0xffff_ffff_ffff_ffff,
        ;
        assert(d1 * d2 > 0) by (nonlinear_arith)
            requires
                d1 > 0,
                d2 > 0,
        ;
        let negative: bool = (self.num < 0) != (other.num < 0);
        proof {
            let a = self.num as int;
            let b = other.num as int;
            assert(a * b == if (a < 0) != (b < 0) {
                -((m1 * m2) as int)
            } else {
                (m1 * m2) as int
            }) by (nonlinear_arith)
                requires
                    m1 as int == (if a < 0 {
                        -a
                    } else {
                        a
                    }),
                    m2 as int == (if b < 0 {
                        -b
                    } else {
                        b
                    }),
            ;
        }
        Frac::build(negative, m1 * m2, d1 * d2)
    }

    /// `self / other` in lowest terms, when `other` is not zero and the
    /// quotient fits.
    pub fn checked_div(&self, other: &Frac) -> (r: Option<Frac>)
        ensures
            match r {
                Some(f) => other@.num != 0 && f@ == ratio_div(self@, other@) && fits(f@),
                None => other@.num == 0 || !fits(ratio_div(self@, other@)),
            },
    {
        proof {
            use_type_invariant(self);
            use_type_invariant(other);
        }
        if other.num == 0 {
            return None;
        }
        let m1 = magnitude_of(self.num);
        let m2 = magnitude_of(other.num);
        let d1: u128 = self.den as u128;
        let d2: u128 = other.den as u128;
        assert(m1 * d2 <= 0x8000_0000_0000_0000 * 0xffff_ffff_ffff_ffff) by (nonlinear_arith)
            requires
                m1 <= 0x8000_0000_0000_0000,
                d2 <= 0xffff_ffff_ffff_ffff,
        ;
        assert(d1 * m2 <= 0xffff_ffff_ffff_ffff * 0x8000_0000_0000_0000) by (nonlinear_arith)
            requires
                d1 <= 0xffff_ffff_ffff_ffff,
                m2 <= 0x8000_0000_0000_0000,
        ;
        assert(d1 * m2 > 0) by (nonlinear_arith)
            requires
                d1 > 0,
                m2 > 0,
        ;
        let negative: bool = (self.num < 0) != (other.num < 0);
        proof {
            let a = self.num as int;
            assert(a * (d2 as int) == if a < 0 {
                -((m1 * d2) as int)
            } else {
                (m1 * d2) as int
            }) by (nonlinear_arith)
                requires
                    m1 as int == (if a < 0 {
                        -a
                    } else {
                        a
                    }),
            ;
        }
        Frac::build(negative, m1 * d2, d1 * m2)
    }

    /// One arithmetic step: `self op other` in lowest terms, when it is
    /// defined and fits.
    pub fn apply(&self, op: ArithOp, other: &Frac) -> (r: Option<Frac>)
        ensures
            match r {
                Some(f) => f@ == ratio_apply(op, self@, other@) && fits(f@) && (op == ArithOp::Div
                    ==> other@.num != 0),
                None => (op == ArithOp::Div && other@.num == 0) || !fits(
                    ratio_apply(op, self@, other@),
                ),
            },
    {
        match op {
            ArithOp::Add => self.checked_add(other),
            ArithOp::Sub => self.checked_sub(other),
            ArithOp::Mul => self.checked_mul(other),
            ArithOp::Div => self.checked_div(other),
        }
    }

    /// Whether both denote the same rational.
    pub fn same(&self, other: &Frac) -> (b: bool)
        ensures
            b == ratio_eq(self@, other@),
    {
        let (l, r) = self.cross(other);
        l == r
    }

    /// Whether `self rel other` holds.
    pub fn holds(&self, rel: Relation, other: &Frac) -> (b: bool)
        ensures
            b == ratio_holds(rel, self@, other@),
    {
        let (l, r) = self.cross(other);
        match rel {
            Relation::Less => l < r,
            Relation::Greater => r < l,
            Relation::LessEq => !(r < l),
            Relation::GreaterEq => !(l < r),
        }
    }

    /// The two cross products by which fractions are compared.
    fn cross(&self, other: &Frac) -> (p: (i128, i128))
        ensures
            p.0 == self@.num * other@.den,
            p.1 == other@.num * self@.den,
    {
        let a: i128 = self.num as i128;
        let b: i128 = other.num as i128;
        let d1: i128 = self.den as i128;
        let d2: i128 = other.den as i128;
        assert(-0x8000_0000_0000_0000 * 0xffff_ffff_ffff_ffff <= a * d2 <= 0x8000_0000_0000_0000
            * 0xffff_ffff_ffff_ffff) by (nonlinear_arith)
            requires
                -0x8000_0000_0000_0000 <= a <= 0x8000_0000_0000_0000,
                0 <= d2 <= 0xffff_ffff_ffff_ffff,
        ;
        assert(-0x8000_0000_0000_0000 * 0xffff_ffff_ffff_ffff <= b * d1 <= 0x8000_0000_0000_0000
            * 0xffff_ffff_ffff_ffff) by (nonlinear_arith)
            requires
                -0x8000_0000_0000_0000 <= b <= 0x8000_0000_0000_0000,
                0 <= d1 <= 0xffff_ffff_ffff_ffff,
        ;
        (a * d2, b * d1)
    }

    /// How the number is written: `num`, or `num/den` when `den` is not 1.
    pub fn to_text(&self) -> (s: String)
        ensures
            s@ == ratio_text(self@),
    {
        let mut out = String::new();
        if self.num < 0 {
            out.push('-');
        }
        push_decimal(&mut out, magnitude_of(self.num));
        if self.den != 1 {
            out.push('/');
            push_decimal(&mut out, self.den as u128);
        }
        assert(out@ =~= ratio_text(self@));
        out
    }

    /// Whether `tk` is shaped as a number, whatever its size.
    pub fn is_shaped(tk: &str) -> (b: bool)
        ensures
            b == number_shaped(tk@),
    {
        let v = chars_of(tk);
        let n: usize = v.len();
        let start: usize = if n > 0 && v[0] == '-' {
            1
        } else {
            0
        };
        let mut slash: usize = 0;
        while slash < n && v[slash] != '/'
            invariant
                slash <= n == v.len(),
                forall|j: int| 0 <= j < slash ==> v@[j] != '/',
            decreases n - slash,
        {
            slash += 1;
        }
        let found: bool = slash < n;
        proof {
            v@.index_of_first_ensures('/');
            if found {
                assert(v@[slash as int] == '/');
                assert(v@.contains('/'));
                assert(slash_at(v@) == Some(slash as int));
            } else {
                assert(slash_at(v@) is None);
            }
        }
        let end: usize = if found {
            slash
        } else {
            n
        };
        if start >= end {
            return false;
        }
        if !digits_only(&v, start, end) {
            return false;
        }
        if found {
            if slash + 1 >= n {
                return false;
            }
            if !digits_only(&v, slash + 1, n) {
                return false;
            }
        }
        true
    }

    /// The number that `tk` writes, in lowest terms: `tk` must be an optional
    /// `-`, digits, and optionally `/` and digits, with a numerator and a
    /// nonzero denominator that fit.
    pub fn from_str(tk: &str) -> (r: Option<Self>)
        ensures
            match r {
                Some(f) => parse_number(tk@) == Some(f@),
                None => parse_number(tk@) is None,
            },
    {
        let v = chars_of(tk);
        let n: usize = v.len();
        let negative: bool = n > 0 && v[0] == '-';
        let start: usize = if negative {
            1
        } else {
            0
        };
        let mut slash: usize = 0;
        while slash < n && v[slash] != '/'
            invariant
                slash <= n == v.len(),
                forall|j: int| 0 <= j < slash ==> v@[j] != '/',
            decreases n - slash,
        {
            slash += 1;
        }
        let found: bool = slash < n;
        proof {
            v@.index_of_first_ensures('/');
            if found {
                assert(v@[slash as int] == '/');
                assert(v@.contains('/'));
                assert(slash_at(v@) == Some(slash as int));
            } else {
                assert(slash_at(v@) is None);
            }
        }
        let end: usize = if found {
            slash
        } else {
            n
        };
        if start >= end {
            return None;
        }
        if !digits_only(&v, start, end) {
            return None;
        }
        let mag = match parse_digits(&v, start, end) {
            Some(m) => m,
            None => {
                return None;
            },
        };
        let den: u128 = if found {
            if slash + 1 >= n {
                return None;
            }
            if !digits_only(&v, slash + 1, n) {
                return None;
            }
            match parse_digits(&v, slash + 1, n) {
                Some(d) => d,
                None => {
                    return None;
                },
            }
        } else {
            1
        };
        if den == 0 || den > usize::MAX as u128 {
            return None;
        }
        if negative {
            if mag > (isize::MAX as u128) + 1 {
                return None;
            }
        } else if mag > isize::MAX as u128 {
            return None;
        }
        let r = Frac::build(negative, mag, den);
        proof {
            lemma_gcd_divides(mag as nat, den as nat);
            lemma_quotient_bounds(mag as nat, gcd(mag as nat, den as nat));
            lemma_quotient_bounds(den as nat, gcd(mag as nat, den as nat));
        }
        r
    }
}

} // verus!
