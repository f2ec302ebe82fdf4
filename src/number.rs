//! Numbers of the language: exact fractions of integers of any size, with
//! the arithmetic, comparisons and text the evaluator needs.

use vstd::prelude::*;
use vstd::arithmetic::div_mod::lemma_fundamental_div_mod_converse;
use crate::natural::{
    digits_ok, val, pow10, nat_add, nat_sub, nat_mul, nat_ge, divmod, is_zero, copy_digits,
    lemma_val_prepend, lemma_pow10_positive, lemma_val_small,
};
use crate::text::{nat_text, digit_char, push_char, digit};

verus! {

/// A rational number as the contracts see it: `num / den`.
pub struct Rat {
    pub num: int,
    pub den: int,
}

pub open spec fn abs(i: int) -> nat {
    if i < 0 {
        (-i) as nat
    } else {
        i as nat
    }
}

pub open spec fn signed(neg: bool, m: nat) -> int {
    if neg {
        -m
    } else {
        m as int
    }
}

pub open spec fn rat_add(x: Rat, y: Rat) -> Rat {
    Rat { num: x.num * y.den + y.num * x.den, den: x.den * y.den }
}

pub open spec fn rat_sub(x: Rat, y: Rat) -> Rat {
    Rat { num: x.num * y.den - y.num * x.den, den: x.den * y.den }
}

pub open spec fn rat_mul(x: Rat, y: Rat) -> Rat {
    Rat { num: x.num * y.num, den: x.den * y.den }
}

/// Defined for `y.num != 0`; the denominator stays positive.
pub open spec fn rat_div(x: Rat, y: Rat) -> Rat {
    if y.num > 0 {
        Rat { num: x.num * y.den, den: x.den * y.num }
    } else {
        Rat { num: -(x.num * y.den), den: -(x.den * y.num) }
    }
}

pub open spec fn rat_neg(x: Rat) -> Rat {
    Rat { num: -x.num, den: x.den }
}

/// `x < y`, for positive denominators.
pub open spec fn rat_less(x: Rat, y: Rat) -> bool {
    x.num * y.den < y.num * x.den
}

/// `x == y` as rational values, for positive denominators.
pub open spec fn rat_eq(x: Rat, y: Rat) -> bool {
    x.num * y.den == y.num * x.den
}

/// `m * 100 / d` rounded to the nearest integer, ties to even.
pub open spec fn hundredths(m: int, d: int) -> int {
    let q = (m * 100) / d;
    let r = (m * 100) % d;
    if 2 * r > d || (2 * r == d && q % 2 == 1) {
        q + 1
    } else {
        q
    }
}

/// How a number is written: an integral value with one decimal place
/// (`99.0`), any other rounded to two decimal places with trailing zeros,
/// and then a trailing point, removed (`99.5`, `0.33`, `3`).
pub open spec fn rat_text(r: Rat) -> Seq<char> {
    let sign: Seq<char> = if r.num < 0 {
        seq!['-']
    } else {
        seq![]
    };
    let m = abs(r.num) as int;
    if m % r.den == 0 {
        sign + nat_text((m / r.den) as nat) + seq!['.', '0']
    } else {
        let h = hundredths(m, r.den);
        let cents = (h % 100) as nat;
        let fraction: Seq<char> = if cents == 0 {
            seq![]
        } else if cents % 10 == 0 {
            seq!['.', digit_char(cents / 10)]
        } else {
            seq!['.', digit_char(cents / 10), digit_char(cents % 10)]
        };
        sign + nat_text((h / 100) as nat) + fraction
    }
}

/// Decimal digit characters only.
pub open spec fn digit_text(s: Seq<char>) -> bool {
    forall|i: int| 0 <= i < s.len() ==> '0' <= #[trigger] s[i] <= '9'
}

/// The value of decimal text, most significant digit first.
pub open spec fn text_value(s: Seq<char>) -> nat
    decreases s.len(),
{
    if s.len() == 0 {
        0
    } else {
        text_value(s.drop_last()) * 10 + ((s.last() as nat) - 48) as nat
    }
}

/// The digits of a natural number, as the lowest digits of a text, least
/// significant first.
pub open spec fn text_le(v: Seq<u8>) -> Seq<char>
    decreases v.len(),
{
    if v.len() == 0 {
        seq![]
    } else {
        text_le(v.drop_first()).push(digit_char(v[0] as nat))
    }
}

/// A number of the language: the fraction `num / den` of decimal texts,
/// with a sign. Fractions are kept as computed, not reduced, and have no
/// size limit, so arithmetic on numbers always gives a number.
///
/// Being exact, they differ from binary floating point where that rounds:
/// `0.1 + 0.2 == 0.3` holds here, and a value halfway between two
/// hundredths (`2.675`) is written rounded to the even one (`2.68`) where a
/// 64-bit float, stored slightly below, would give `2.67`.
#[derive(Debug)]
pub struct Number {
    neg: bool,
    num: String,
    den: String,
}

impl Number {
    #[verifier::type_invariant]
    spec fn inv(self) -> bool {
        digit_text(self.num@) && digit_text(self.den@) && text_value(self.den@) > 0
    }

}

impl View for Number {
    type V = Rat;

    /// The value of the number.
    closed spec fn view(&self) -> Rat {
        Rat { num: signed(self.neg, text_value(self.num@)), den: text_value(self.den@) as int }
    }
}

impl Clone for Number {
    fn clone(&self) -> (r: Self)
        ensures
            r == *self,
    {
        proof {
            use_type_invariant(self);
        }
        Number { neg: self.neg, num: self.num.clone(), den: self.den.clone() }
    }
}

/// Integers add as integers.
pub proof fn lemma_integer_sum(a: int, b: int)
    ensures
        rat_add(Rat { num: a, den: 1 }, Rat { num: b, den: 1 }) == (Rat { num: a + b, den: 1 }),
{
}

/// Integers subtract as integers.
pub proof fn lemma_integer_difference(a: int, b: int)
    ensures
        rat_sub(Rat { num: a, den: 1 }, Rat { num: b, den: 1 }) == (Rat { num: a - b, den: 1 }),
{
}

/// Integers multiply as integers.
pub proof fn lemma_integer_product(a: int, b: int)
    ensures
        rat_mul(Rat { num: a, den: 1 }, Rat { num: b, den: 1 }) == (Rat { num: a * b, den: 1 }),
{
}

/// An integer is written with its decimal digits and `.0`.
pub proof fn lemma_integer_text(i: int)
    ensures
        rat_text(Rat { num: i, den: 1 }) == (if i < 0 {
            seq!['-']
        } else {
            Seq::<char>::empty()
        }) + nat_text(abs(i)) + seq!['.', '0'],
{
    assert((abs(i) as int) % 1 == 0);
    assert((abs(i) as int) / 1 == abs(i));
}

/// Rationals equal in value compare equal, and neither is less than the
/// other.
pub proof fn lemma_equal_values(x: Rat, y: Rat)
    requires
        rat_eq(x, y),
    ensures
        !rat_less(x, y),
        !rat_less(y, x),
{
}

proof fn lemma_text_push(s: Seq<char>, c: char)
    ensures
        text_value(s.push(c)) == text_value(s) * 10 + ((c as nat) - 48) as nat,
{
    assert(s.push(c).drop_last() =~= s);
}

/// The digits of decimal text, least significant first.
fn digits_of(s: &String) -> (r: Vec<u8>)
    requires
        digit_text(s@),
    ensures
        digits_ok(r@),
        val(r@) == text_value(s@),
{
    let n = s.as_str().unicode_len();
    let mut r: Vec<u8> = Vec::new();
    let mut i: usize = 0;
    proof {
        assert(s@.subrange(0, 0) =~= Seq::<char>::empty());
        assert(r@.len() == 0);
        assert(val(r@) == 0);
    }
    while i < n
        invariant
            n == s@.len(),
            i <= n,
            digit_text(s@),
            digits_ok(r@),
            val(r@) == text_value(s@.subrange(0, i as int)),
        decreases n - i,
    {
        let c = s.as_str().get_char(i);
        assert('0' <= s@[i as int] <= '9');
        let d = (c as u32 - 48) as u8;
        let ghost old_r = r@;
        proof {
            lemma_val_prepend(d, old_r);
            assert(s@.subrange(0, i + 1) =~= s@.subrange(0, i as int).push(c));
            lemma_text_push(s@.subrange(0, i as int), c);
        }
        r.insert(0, d);
        assert(r@ =~= seq![d] + old_r);
        i = i + 1;
    }
    assert(s@.subrange(0, n as int) =~= s@);
    r
}

/// Decimal text of digits given least significant first.
fn text_of(v: &Vec<u8>) -> (s: String)
    requires
        digits_ok(v@),
    ensures
        digit_text(s@),
        text_value(s@) == val(v@),
{
    let mut s = String::new();
    let mut j = v.len();
    proof {
        assert(v@.subrange(j as int, v@.len() as int) =~= Seq::<u8>::empty());
        assert(val(v@.subrange(j as int, v@.len() as int)) == 0);
    }
    while j > 0
        invariant
            j <= v@.len(),
            digits_ok(v@),
            digit_text(s@),
            text_value(s@) == val(v@.subrange(j as int, v@.len() as int)),
        decreases j,
    {
        let c = digit(v[j - 1]);
        let ghost s0 = s@;
        proof {
            lemma_text_push(s0, c);
            assert(v@.subrange(j - 1, v@.len() as int) =~= seq![v@[j - 1]] + v@.subrange(
                j as int,
                v@.len() as int,
            ));
            lemma_val_prepend(v@[j - 1], v@.subrange(j as int, v@.len() as int));
        }
        push_char(&mut s, c);
        j = j - 1;
    }
    assert(v@.subrange(0, v@.len() as int) =~= v@);
    s
}

/// The decimal digits of a machine integer, least significant first.
fn digits_of_u64(n: u64) -> (r: Vec<u8>)
    ensures
        digits_ok(r@),
        val(r@) == n,
{
    let mut r: Vec<u8> = Vec::new();
    let mut m = n;
    proof {
        assert(val(r@) == 0);
        assert(pow10(0) == 1);
    }
    while m > 0
        invariant
            digits_ok(r@),
            val(r@) + pow10(r@.len()) * m == n,
        decreases m,
    {
        let ghost r0 = r@;
        let ghost p = pow10(r0.len());
        let d = (m % 10) as u8;
        r.push(d);
        proof {
            assert(r@.drop_last() =~= r0);
            assert(r@.last() == d);
            assert(pow10(r@.len()) == 10 * p);
            assert(p * (m as nat) == (d as nat) * p + (10 * p) * ((m / 10) as nat)) by (nonlinear_arith)
                requires
                    d == m % 10,
            ;
        }
        m = m / 10;
    }
    r
}

proof fn lemma_signed_scale(neg: bool, m: nat, k: nat)
    ensures
        signed(neg, m) * k == signed(neg, m * k),
{
    assert((-(m as int)) * (k as int) == -((m * k) as int)) by (nonlinear_arith);
}

impl Number {
    /// A number from its sign and digit vectors.
    fn build(neg: bool, num: &Vec<u8>, den: &Vec<u8>) -> (r: Number)
        requires
            digits_ok(num@),
            digits_ok(den@),
            val(den@) > 0,
        ensures
            r@ == (Rat { num: signed(neg, val(num@)), den: val(den@) as int }),
    {
        Number { neg, num: text_of(num), den: text_of(den) }
    }

    /// Numerator magnitude and denominator as digits.
    fn parts(&self) -> (r: (Vec<u8>, Vec<u8>))
        ensures
            digits_ok(r.0@),
            digits_ok(r.1@),
            self@.num == signed(self.neg, val(r.0@)),
            self@.den == val(r.1@),
            val(r.1@) > 0,
    {
        proof {
            use_type_invariant(self);
        }
        (digits_of(&self.num), digits_of(&self.den))
    }

    /// The fraction of two decimal texts.
    pub fn from_texts(num: String, den: String) -> (r: Number)
        requires
            digit_text(num@),
            digit_text(den@),
            text_value(den@) > 0,
        ensures
            r@ == (Rat { num: text_value(num@) as int, den: text_value(den@) as int }),
    {
        Number { neg: false, num, den }
    }

    /// The integer `i`.
    pub fn from_int(i: i64) -> (r: Number)
        ensures
            r@ == (Rat { num: i as int, den: 1 }),
    {
        let mag: u64 = if i < 0 {
            (-(i as i128)) as u64
        } else {
            i as u64
        };
        let m = digits_of_u64(mag);
        let one = digits_of_u64(1);
        Number::build(i < 0, &m, &one)
    }

    /// The fraction `num / den`, not reduced.
    pub fn ratio(num: i64, den: i64) -> (r: Number)
        requires
            den > 0,
        ensures
            r@ == (Rat { num: num as int, den: den as int }),
    {
        let mag: u64 = if num < 0 {
            (-(num as i128)) as u64
        } else {
            num as u64
        };
        let m = digits_of_u64(mag);
        let d = digits_of_u64(den as u64);
        Number::build(num < 0, &m, &d)
    }

    /// The sum.
    pub fn add(&self, other: &Number) -> (r: Number)
        ensures
            r@ == rat_add(self@, other@),
    {
        let (n1, d1) = self.parts();
        let (n2, d2) = other.parts();
        let t1 = nat_mul(&n1, &d2);
        let t2 = nat_mul(&n2, &d1);
        let den = nat_mul(&d1, &d2);
        proof {
            lemma_signed_scale(self.neg, val(n1@), val(d2@));
            lemma_signed_scale(other.neg, val(n2@), val(d1@));
            assert(val(den@) > 0) by (nonlinear_arith)
                requires
                    val(den@) == val(d1@) * val(d2@),
                    val(d1@) > 0,
                    val(d2@) > 0,
            ;
        }
        if self.neg == other.neg {
            let s = nat_add(&t1, &t2);
            Number::build(self.neg, &s, &den)
        } else if nat_ge(&t1, &t2) {
            let s = nat_sub(&t1, &t2);
            Number::build(self.neg, &s, &den)
        } else {
            let s = nat_sub(&t2, &t1);
            Number::build(other.neg, &s, &den)
        }
    }

    /// The negation.
    pub fn neg(&self) -> (r: Number)
        ensures
            r@ == rat_neg(self@),
    {
        let (n, d) = self.parts();
        Number::build(!self.neg, &n, &d)
    }

    /// The difference.
    pub fn sub(&self, other: &Number) -> (r: Number)
        ensures
            r@ == rat_sub(self@, other@),
    {
        let o = other.neg();
        let r = self.add(&o);
        assert((-other@.num) * self@.den == -(other@.num * self@.den)) by (nonlinear_arith);
        r
    }

    /// The product.
    pub fn mul(&self, other: &Number) -> (r: Number)
        ensures
            r@ == rat_mul(self@, other@),
    {
        let (n1, d1) = self.parts();
        let (n2, d2) = other.parts();
        let n = nat_mul(&n1, &n2);
        let d = nat_mul(&d1, &d2);
        proof {
            let (a, b) = (val(n1@), val(n2@));
            assert(signed(self.neg, a) * signed(other.neg, b) == signed(self.neg != other.neg, a * b))
                by (nonlinear_arith)
                requires
                    signed(self.neg, a) == if self.neg { -a } else { a as int },
                    signed(other.neg, b) == if other.neg { -b } else { b as int },
                    signed(self.neg != other.neg, a * b) == if self.neg != other.neg {
                        -(a * b)
                    } else {
                        (a * b) as int
                    },
            ;
            assert(val(d@) > 0) by (nonlinear_arith)
                requires
                    val(d@) == val(d1@) * val(d2@),
                    val(d1@) > 0,
                    val(d2@) > 0,
            ;
        }
        Number::build(self.neg != other.neg, &n, &d)
    }

    /// The quotient by a nonzero number.
    pub fn div(&self, other: &Number) -> (r: Number)
        requires
            other@.num != 0,
        ensures
            r@ == rat_div(self@, other@),
    {
        let (n1, d1) = self.parts();
        let (n2, d2) = other.parts();
        let n = nat_mul(&n1, &d2);
        let d = nat_mul(&d1, &n2);
        proof {
            let (a, b, da, db) = (val(n1@), val(n2@), val(d1@), val(d2@));
            assert(b > 0);
            assert(val(d@) > 0) by (nonlinear_arith)
                requires
                    val(d@) == da * b,
                    da > 0,
                    b > 0,
            ;
            lemma_signed_scale(self.neg, a, db);
            if other.neg {
                assert(-(da * (-(b as int))) == da * b) by (nonlinear_arith);
            }
        }
        Number::build(self.neg != other.neg, &n, &d)
    }

    /// Whether `self < other`.
    pub fn less(&self, other: &Number) -> (r: bool)
        ensures
            r == rat_less(self@, other@),
    {
        let (n1, d1) = self.parts();
        let (n2, d2) = other.parts();
        let t1 = nat_mul(&n1, &d2);
        let t2 = nat_mul(&n2, &d1);
        proof {
            lemma_signed_scale(self.neg, val(n1@), val(d2@));
            lemma_signed_scale(other.neg, val(n2@), val(d1@));
        }
        if !self.neg && !other.neg {
            !nat_ge(&t1, &t2)
        } else if self.neg && other.neg {
            !nat_ge(&t2, &t1)
        } else if self.neg {
            !(is_zero(&t1) && is_zero(&t2))
        } else {
            false
        }
    }

    /// Whether the two numbers have the same value.
    pub fn equals(&self, other: &Number) -> (r: bool)
        ensures
            r == rat_eq(self@, other@),
    {
        let (n1, d1) = self.parts();
        let (n2, d2) = other.parts();
        let t1 = nat_mul(&n1, &d2);
        let t2 = nat_mul(&n2, &d1);
        proof {
            lemma_signed_scale(self.neg, val(n1@), val(d2@));
            lemma_signed_scale(other.neg, val(n2@), val(d1@));
        }
        if self.neg == other.neg {
            nat_ge(&t1, &t2) && nat_ge(&t2, &t1)
        } else {
            is_zero(&t1) && is_zero(&t2)
        }
    }

    /// Whether the number is zero.
    pub fn is_zero(&self) -> (r: bool)
        ensures
            r == (self@.num == 0),
    {
        let (n, d) = self.parts();
        is_zero(&n)
    }

    /// The text of the number (see `rat_text`).
    pub fn to_text(&self) -> (s: String)
        ensures
            s@ == rat_text(self@),
    {
        let (m, d) = self.parts();
        let ghost mv = val(m@) as int;
        let ghost dv = val(d@) as int;
        let mut s = String::new();
        let negative = self.neg && !is_zero(&m);
        if negative {
            push_char(&mut s, '-');
        }
        let ghost sign = s@;
        assert(sign == (if self@.num < 0 { seq!['-'] } else { Seq::<char>::empty() }));
        assert(abs(self@.num) == mv);
        let (q, r) = divmod(&m, &d);
        proof {
            lemma_fundamental_div_mod_converse(mv, dv, val(q@) as int, val(r@) as int);
        }
        if is_zero(&r) {
            push_nat_digits(&mut s, &q);
            push_char(&mut s, '.');
            push_char(&mut s, '0');
            assert(s@ =~= rat_text(self@));
        } else {
            let mut m100 = copy_digits(&m);
            let ghost m0 = m100@;
            proof {
                lemma_val_prepend(0, m0);
                lemma_val_prepend(0, seq![0u8] + m0);
            }
            m100.insert(0, 0);
            m100.insert(0, 0);
            assert(m100@ =~= seq![0u8] + (seq![0u8] + m0));
            let (h0, r2) = divmod(&m100, &d);
            proof {
                lemma_fundamental_div_mod_converse(mv * 100, dv, val(h0@) as int, val(r2@) as int);
                lemma_lowest_digit_parity(h0@);
            }
            let twice = nat_add(&r2, &r2);
            let odd = h0.len() > 0 && h0[0] % 2 == 1;
            let above = nat_ge(&twice, &d) && !nat_ge(&d, &twice);
            let tie = nat_ge(&twice, &d) && nat_ge(&d, &twice);
            let mut h = if above || (tie && odd) {
                let one = digits_of_u64(1);
                nat_add(&h0, &one)
            } else {
                h0
            };
            let ghost hv = val(h@) as int;
            assert(hv == hundredths(mv, dv));
            pad_to_two(&mut h);
            let ghost rest = h@.subrange(2, h@.len() as int);
            proof {
                assert(h@ =~= seq![h@[0]] + (seq![h@[1]] + rest));
                lemma_val_prepend(h@[1], rest);
                lemma_val_prepend(h@[0], seq![h@[1]] + rest);
                lemma_fundamental_div_mod_converse(
                    hv,
                    100,
                    val(rest) as int,
                    h@[0] + 10 * h@[1],
                );
            }
            let whole = slice_from(&h, 2);
            push_nat_digits(&mut s, &whole);
            let c0 = h[0];
            let c1 = h[1];
            if c0 != 0 || c1 != 0 {
                push_char(&mut s, '.');
                push_char(&mut s, digit(c1));
                if c0 != 0 {
                    push_char(&mut s, digit(c0));
                }
            }
            assert(s@ =~= rat_text(self@));
        }
        s
    }
}

proof fn lemma_lowest_digit_parity(v: Seq<u8>)
    requires
        digits_ok(v),
    ensures
        v.len() == 0 ==> val(v) == 0,
        v.len() > 0 ==> val(v) % 2 == v[0] % 2,
{
    if v.len() == 0 {
        assert(val(v) == 0);
    } else {
        let rest = v.subrange(1, v.len() as int);
        assert(v =~= seq![v[0]] + rest);
        lemma_val_prepend(v[0], rest);
        assert((v[0] + 10 * val(rest)) % 2 == v[0] % 2) by (nonlinear_arith);
    }
}

/// At least two digits, the value unchanged.
fn pad_to_two(v: &mut Vec<u8>)
    requires
        digits_ok(old(v)@),
    ensures
        digits_ok(final(v)@),
        final(v)@.len() >= 2,
        val(final(v)@) == val(old(v)@),
{
    while v.len() < 2
        invariant
            digits_ok(v@),
            val(v@) == val(old(v)@),
        decreases 2 - v@.len(),
    {
        let ghost v0 = v@;
        v.push(0);
        assert(v@.drop_last() =~= v0);
        assert(v@.last() == 0);
        assert(val(v@) == val(v0) + 0 * pow10(v0.len()));
    }
}

/// The digits from position `k` on.
fn slice_from(v: &Vec<u8>, k: usize) -> (r: Vec<u8>)
    requires
        k <= v@.len(),
    ensures
        r@ == v@.subrange(k as int, v@.len() as int),
{
    let mut r: Vec<u8> = Vec::new();
    let mut i = k;
    while i < v.len()
        invariant
            k <= i <= v@.len(),
            r@ == v@.subrange(k as int, i as int),
        decreases v@.len() - i,
    {
        r.push(v[i]);
        i = i + 1;
        assert(r@ =~= v@.subrange(k as int, i as int));
    }
    r
}

/// Text of a natural number, most significant digit first.
proof fn lemma_text_le(v: Seq<u8>)
    requires
        digits_ok(v),
        v.len() >= 1,
        v.len() == 1 || v.last() != 0,
    ensures
        nat_text(val(v)) == text_le(v),
    decreases v.len(),
{
    let rest = v.drop_first();
    assert(v =~= seq![v[0]] + rest);
    lemma_val_prepend(v[0], rest);
    if v.len() == 1 {
        assert(rest.len() == 0);
        assert(val(rest) == 0);
        assert(text_le(rest) =~= Seq::<char>::empty());
    } else {
        lemma_text_le(rest);
        assert(rest.last() == v.last());
        assert(val(rest) >= 1) by {
            lemma_pow10_positive((rest.len() - 1) as nat);
            assert(val(rest) == val(rest.drop_last()) + (rest.last() as nat) * pow10(
                (rest.len() - 1) as nat,
            ));
            assert((rest.last() as nat) * pow10((rest.len() - 1) as nat) >= 1) by (nonlinear_arith)
                requires
                    rest.last() >= 1,
                    pow10((rest.len() - 1) as nat) >= 1,
            ;
        }
        let x = val(v);
        assert(x / 10 == val(rest) && x % 10 == v[0]) by (nonlinear_arith)
            requires
                x == v[0] + 10 * val(rest),
                v[0] < 10,
        ;
    }
}

/// Appends the decimal text of the digits' value.
fn push_nat_digits(s: &mut String, v: &Vec<u8>)
    requires
        digits_ok(v@),
    ensures
        final(s)@ == old(s)@ + nat_text(val(v@)),
{
    let mut w = copy_digits(v);
    while w.len() > 1 && w[w.len() - 1] == 0
        invariant
            digits_ok(w@),
            val(w@) == val(v@),
        decreases w@.len(),
    {
        let ghost w0 = w@;
        assert(w0.last() == 0);
        w.pop();
        assert(w0.drop_last() =~= w@);
        assert(val(w0) == val(w0.drop_last()) + (w0.last() as nat) * pow10((w0.len() - 1) as nat));
    }
    if w.len() == 0 {
        w.push(0);
        assert(w@ =~= seq![0u8]);
        proof {
            lemma_val_small(w@);
        }
    }
    proof {
        lemma_text_le(w@);
    }
    let mut j = w.len();
    assert(w@.subrange(j as int, w@.len() as int) =~= Seq::<u8>::empty());
    let ghost s0 = s@;
    while j > 0
        invariant
            j <= w@.len(),
            digits_ok(w@),
            s@ == s0 + text_le(w@.subrange(j as int, w@.len() as int)),
        decreases j,
    {
        let c = digit(w[j - 1]);
        proof {
            let sub = w@.subrange(j - 1, w@.len() as int);
            assert(sub.drop_first() =~= w@.subrange(j as int, w@.len() as int));
            assert(sub[0] == w@[j - 1]);
        }
        push_char(s, c);
        j = j - 1;
        assert(s@ =~= s0 + text_le(w@.subrange(j as int, w@.len() as int)));
    }
    assert(w@.subrange(0, w@.len() as int) =~= w@);
}

impl PartialEq for Number {
    fn eq(&self, other: &Number) -> (r: bool) {
        self.equals(other)
    }
}

impl vstd::std_specs::cmp::PartialEqSpecImpl for Number {
    open spec fn obeys_eq_spec() -> bool {
        true
    }

    open spec fn eq_spec(&self, other: &Number) -> bool {
        rat_eq(self@, other@)
    }
}

} // verus!
