//! Natural numbers of any size, held as decimal digits, least significant
//! first, with the arithmetic that exact fractions need.

use vstd::prelude::*;

verus! {

pub open spec fn pow10(k: nat) -> nat
    decreases k,
{
    if k == 0 {
        1
    } else {
        10 * pow10((k - 1) as nat)
    }
}

/// Every entry is a decimal digit.
pub open spec fn digits_ok(v: Seq<u8>) -> bool {
    forall|i: int| 0 <= i < v.len() ==> #[trigger] v[i] < 10
}

/// The value of digits, least significant first.
pub open spec fn val(v: Seq<u8>) -> nat
    decreases v.len(),
{
    if v.len() == 0 {
        0
    } else {
        val(v.drop_last()) + (v.last() as nat) * pow10((v.len() - 1) as nat)
    }
}

pub proof fn lemma_val_small(v: Seq<u8>)
    ensures
        v.len() == 0 ==> val(v) == 0,
        v.len() == 1 ==> val(v) == v[0] as nat,
{
    if v.len() == 1 {
        assert(v.drop_last() =~= Seq::<u8>::empty());
        assert(val(v.drop_last()) == 0);
        assert(pow10(0) == 1);
        assert(v.last() == v[0]);
        assert(val(v) == val(v.drop_last()) + (v.last() as nat) * pow10(0));
    }
}

pub proof fn lemma_pow10_positive(k: nat)
    ensures
        pow10(k) >= 1,
    decreases k,
{
    if k > 0 {
        lemma_pow10_positive((k - 1) as nat);
    }
}

/// Digits have a value below ten to the number of digits.
pub proof fn lemma_val_bound(v: Seq<u8>)
    requires
        digits_ok(v),
    ensures
        val(v) < pow10(v.len()),
    decreases v.len(),
{
    if v.len() > 0 {
        let p = pow10((v.len() - 1) as nat);
        lemma_val_bound(v.drop_last());
        assert(v.last() < 10);
        assert((v.last() as nat) * p <= 9 * p) by (nonlinear_arith)
            requires
                v.last() < 10,
                p >= 0,
        ;
    }
}

/// A digit put in front (as the least significant one) adds ten times the
/// rest.
pub proof fn lemma_val_prepend(d: u8, v: Seq<u8>)
    ensures
        val(seq![d] + v) == d + 10 * val(v),
    decreases v.len(),
{
    let w = seq![d] + v;
    if v.len() == 0 {
        assert(w =~= seq![d]);
        lemma_val_small(w);
        lemma_val_small(v);
    } else {
        assert(w.drop_last() =~= seq![d] + v.drop_last());
        lemma_val_prepend(d, v.drop_last());
        let p = pow10((v.len() - 1) as nat);
        let l = v.last() as nat;
        assert(w.last() == v.last());
        assert(pow10(v.len()) == 10 * p);
        assert(l * (10 * p) == 10 * (l * p)) by (nonlinear_arith);
        assert(w.len() - 1 == v.len());
        assert(val(w) == val(w.drop_last()) + l * pow10(v.len()));
        assert(val(v) == val(v.drop_last()) + l * p);
    }
}

proof fn lemma_val_push_zero(v: Seq<u8>)
    ensures
        val(v.push(0)) == val(v),
{
    assert(v.push(0).drop_last() =~= v);
    assert(v.push(0).last() == 0);
    assert(val(v.push(0)) == val(v) + 0 * pow10(v.len()));
}

proof fn lemma_prefix_step(v: Seq<u8>, i: int)
    requires
        0 <= i < v.len(),
    ensures
        val(v.subrange(0, i + 1)) == val(v.subrange(0, i)) + (v[i] as nat) * pow10(i as nat),
{
    assert(v.subrange(0, i + 1).drop_last() =~= v.subrange(0, i));
}

proof fn lemma_suffix_step(v: Seq<u8>, j: int)
    requires
        0 <= j < v.len(),
    ensures
        val(v.subrange(j, v.len() as int)) == v[j] + 10 * val(v.subrange(j + 1, v.len() as int)),
{
    assert(v.subrange(j, v.len() as int) =~= seq![v[j]] + v.subrange(j + 1, v.len() as int));
    lemma_val_prepend(v[j], v.subrange(j + 1, v.len() as int));
}

/// A copy of the digits.
pub fn copy_digits(a: &Vec<u8>) -> (r: Vec<u8>)
    ensures
        r@ == a@,
{
    let mut r: Vec<u8> = Vec::new();
    let mut i: usize = 0;
    while i < a.len()
        invariant
            i <= a@.len(),
            r@ == a@.subrange(0, i as int),
        decreases a@.len() - i,
    {
        r.push(a[i]);
        i = i + 1;
        assert(r@ =~= a@.subrange(0, i as int));
    }
    assert(a@.subrange(0, a@.len() as int) =~= a@);
    r
}

/// Zeros added at the most significant end, up to `n` digits.
fn pad(v: &mut Vec<u8>, n: usize)
    requires
        digits_ok(old(v)@),
    ensures
        digits_ok(final(v)@),
        val(final(v)@) == val(old(v)@),
        final(v)@.len() == if old(v)@.len() < n {
            n as int
        } else {
            old(v)@.len() as int
        },
{
    while v.len() < n
        invariant
            digits_ok(v@),
            val(v@) == val(old(v)@),
            v@.len() <= if old(v)@.len() < n {
                n as int
            } else {
                old(v)@.len() as int
            },
            old(v)@.len() <= v@.len(),
        decreases n - v@.len(),
    {
        proof {
            lemma_val_push_zero(v@);
        }
        v.push(0);
    }
}

/// `a` and `b` with the same number of digits.
fn same_length(a: &Vec<u8>, b: &Vec<u8>) -> (r: (Vec<u8>, Vec<u8>))
    requires
        digits_ok(a@),
        digits_ok(b@),
    ensures
        digits_ok(r.0@),
        digits_ok(r.1@),
        r.0@.len() == r.1@.len(),
        val(r.0@) == val(a@),
        val(r.1@) == val(b@),
{
    let n = if a.len() < b.len() {
        b.len()
    } else {
        a.len()
    };
    let mut x = copy_digits(a);
    pad(&mut x, n);
    let mut y = copy_digits(b);
    pad(&mut y, n);
    (x, y)
}

/// The sum.
pub fn nat_add(a: &Vec<u8>, b: &Vec<u8>) -> (r: Vec<u8>)
    requires
        digits_ok(a@),
        digits_ok(b@),
    ensures
        digits_ok(r@),
        val(r@) == val(a@) + val(b@),
{
    let (x, y) = same_length(a, b);
    let n = x.len();
    let mut r: Vec<u8> = Vec::new();
    let mut carry: u8 = 0;
    let mut i: usize = 0;
    proof {
        lemma_val_small(r@);
        lemma_val_small(x@.subrange(0, 0));
        lemma_val_small(y@.subrange(0, 0));
    }
    while i < n
        invariant
            n == x@.len(),
            n == y@.len(),
            digits_ok(x@),
            digits_ok(y@),
            digits_ok(r@),
            i <= n,
            r@.len() == i,
            carry <= 1,
            val(r@) + carry * pow10(i as nat) == val(x@.subrange(0, i as int)) + val(
                y@.subrange(0, i as int),
            ),
        decreases n - i,
    {
        let s: u8 = x[i] + y[i] + carry;
        let ghost r0 = r@;
        let ghost p = pow10(i as nat);
        let ghost c = carry;
        proof {
            lemma_prefix_step(x@, i as int);
            lemma_prefix_step(y@, i as int);
            assert(r0.push(s % 10).drop_last() =~= r0);
            assert(r0.push(s % 10).last() == s % 10);
            assert(val(r0.push(s % 10)) == val(r0) + ((s % 10) as nat) * p);
            assert(pow10((i + 1) as nat) == 10 * p);
            assert(((s % 10) as nat) * p + ((s / 10) as nat) * (10 * p) == (s as nat) * p)
                by (nonlinear_arith);
            assert((s as nat) * p == (x@[i as int] as nat) * p + (y@[i as int] as nat) * p + (c as nat) * p)
                by (nonlinear_arith)
                requires
                    s == x@[i as int] + y@[i as int] + c,
            ;
        }
        r.push(s % 10);
        carry = s / 10;
        i = i + 1;
    }
    proof {
        assert(x@.subrange(0, n as int) =~= x@);
        assert(y@.subrange(0, n as int) =~= y@);
    }
    let ghost r0 = r@;
    r.push(carry);
    assert(r@.drop_last() =~= r0);
    assert(r@.last() == carry);
    r
}

/// `a - b` with a borrow out of the top digit: both have `n` digits, and
/// `val(r) + val(b) == val(a) + borrow * 10^n`.
fn sub_borrow(a: &Vec<u8>, b: &Vec<u8>) -> (r: (Vec<u8>, u8))
    requires
        digits_ok(a@),
        digits_ok(b@),
        a@.len() == b@.len(),
    ensures
        digits_ok(r.0@),
        r.0@.len() == a@.len(),
        r.1 <= 1,
        val(r.0@) + val(b@) == val(a@) + r.1 * pow10(a@.len()),
{
    let n = a.len();
    let mut r: Vec<u8> = Vec::new();
    let mut borrow: u8 = 0;
    let mut i: usize = 0;
    proof {
        lemma_val_small(r@);
        lemma_val_small(a@.subrange(0, 0));
        lemma_val_small(b@.subrange(0, 0));
    }
    while i < n
        invariant
            n == a@.len(),
            n == b@.len(),
            digits_ok(a@),
            digits_ok(b@),
            digits_ok(r@),
            i <= n,
            r@.len() == i,
            borrow <= 1,
            val(r@) + val(b@.subrange(0, i as int)) == val(a@.subrange(0, i as int)) + borrow
                * pow10(i as nat),
        decreases n - i,
    {
        let ghost r0 = r@;
        let ghost p = pow10(i as nat);
        proof {
            lemma_prefix_step(a@, i as int);
            lemma_prefix_step(b@, i as int);
        }
        let need = b[i] + borrow;
        if a[i] >= need {
            let e = a[i] - need;
            r.push(e);
            proof {
                assert(r@.drop_last() =~= r0);
                assert(r@.last() == e);
                assert((e as nat) * p + (b@[i as int] as nat) * p + (borrow as nat) * p == (
                a@[i as int] as nat) * p) by (nonlinear_arith)
                    requires
                        e + need == a@[i as int],
                        need == b@[i as int] + borrow,
                ;
            }
            borrow = 0;
        } else {
            let e = a[i] + 10 - need;
            r.push(e);
            proof {
                assert(r@.drop_last() =~= r0);
                assert(r@.last() == e);
                assert(pow10((i + 1) as nat) == 10 * p);
                assert((e as nat) * p + (b@[i as int] as nat) * p + (borrow as nat) * p == (
                a@[i as int] as nat) * p + 1 * (10 * p)) by (nonlinear_arith)
                    requires
                        e + need == a@[i as int] + 10,
                        need == b@[i as int] + borrow,
                ;
            }
            borrow = 1;
        }
        i = i + 1;
    }
    proof {
        assert(a@.subrange(0, n as int) =~= a@);
        assert(b@.subrange(0, n as int) =~= b@);
    }
    (r, borrow)
}

/// Whether `val(a) >= val(b)`.
pub fn nat_ge(a: &Vec<u8>, b: &Vec<u8>) -> (r: bool)
    requires
        digits_ok(a@),
        digits_ok(b@),
    ensures
        r == (val(a@) >= val(b@)),
{
    let (x, y) = same_length(a, b);
    let (d, borrow) = sub_borrow(&x, &y);
    proof {
        lemma_val_bound(d@);
        if borrow == 1 {
            assert(val(d@) + val(y@) == val(x@) + pow10(x@.len()));
        } else {
            assert(borrow == 0);
            assert(val(d@) + val(y@) == val(x@) + 0 * pow10(x@.len()));
        }
    }
    borrow == 0
}

/// The difference, when `b` is not larger.
pub fn nat_sub(a: &Vec<u8>, b: &Vec<u8>) -> (r: Vec<u8>)
    requires
        digits_ok(a@),
        digits_ok(b@),
        val(a@) >= val(b@),
    ensures
        digits_ok(r@),
        val(r@) == val(a@) - val(b@),
{
    let (x, y) = same_length(a, b);
    let (d, borrow) = sub_borrow(&x, &y);
    proof {
        lemma_val_bound(d@);
        if borrow == 1 {
            assert(val(d@) + val(y@) == val(x@) + pow10(x@.len()));
        } else {
            assert(borrow == 0);
            assert(val(d@) + val(y@) == val(x@) + 0 * pow10(x@.len()));
        }
    }
    d
}

/// The product with one digit.
fn mul_digit(a: &Vec<u8>, d: u8) -> (r: Vec<u8>)
    requires
        digits_ok(a@),
        d < 10,
    ensures
        digits_ok(r@),
        val(r@) == val(a@) * d,
{
    let n = a.len();
    let mut r: Vec<u8> = Vec::new();
    let mut carry: u8 = 0;
    let mut i: usize = 0;
    proof {
        lemma_val_small(r@);
        lemma_val_small(a@.subrange(0, 0));
        assert(a@.subrange(0, 0).len() == 0);
        assert(val(a@.subrange(0, 0)) == 0);
        assert(0 * (d as nat) == 0) by (nonlinear_arith);
        assert(0 * pow10(0) == 0);
    }
    while i < n
        invariant
            n == a@.len(),
            digits_ok(a@),
            digits_ok(r@),
            d < 10,
            i <= n,
            r@.len() == i,
            carry <= 9,
            val(r@) + carry * pow10(i as nat) == val(a@.subrange(0, i as int)) * d,
        decreases n - i,
    {
        let ghost r0 = r@;
        let ghost p = pow10(i as nat);
        let ghost c = carry;
        proof {
            lemma_prefix_step(a@, i as int);
        }
        assert(a@[i as int] * d <= 81) by (nonlinear_arith)
            requires
                a@[i as int] < 10,
                d < 10,
        ;
        let s: u8 = a[i] * d + carry;
        r.push(s % 10);
        carry = s / 10;
        proof {
            assert(r@.drop_last() =~= r0);
            assert(r@.last() == s % 10);
            assert(pow10((i + 1) as nat) == 10 * p);
            assert(((s % 10) as nat) * p + ((s / 10) as nat) * (10 * p) == (s as nat) * p)
                by (nonlinear_arith);
            assert((val(a@.subrange(0, i as int)) + (a@[i as int] as nat) * p) * d == val(
                a@.subrange(0, i as int),
            ) * d + ((a@[i as int] * d) as nat) * p) by (nonlinear_arith);
            assert((s as nat) * p == ((a@[i as int] * d) as nat) * p + (c as nat) * p)
                by (nonlinear_arith)
                requires
                    s == a@[i as int] * d + c,
            ;
        }
        i = i + 1;
    }
    assert(a@.subrange(0, n as int) =~= a@);
    let ghost r0 = r@;
    r.push(carry);
    assert(r@.drop_last() =~= r0);
    assert(r@.last() == carry);
    r
}

/// The product.
pub fn nat_mul(a: &Vec<u8>, b: &Vec<u8>) -> (r: Vec<u8>)
    requires
        digits_ok(a@),
        digits_ok(b@),
    ensures
        digits_ok(r@),
        val(r@) == val(a@) * val(b@),
{
    let mut res: Vec<u8> = Vec::new();
    let mut j = b.len();
    assert(b@.subrange(j as int, b@.len() as int) =~= Seq::<u8>::empty());
    proof {
        lemma_val_small(res@);
        lemma_val_small(b@.subrange(j as int, b@.len() as int));
    }
    while j > 0
        invariant
            j <= b@.len(),
            digits_ok(a@),
            digits_ok(b@),
            digits_ok(res@),
            val(res@) == val(a@) * val(b@.subrange(j as int, b@.len() as int)),
        decreases j,
    {
        let ghost old_res = res@;
        proof {
            lemma_suffix_step(b@, j - 1);
            lemma_val_prepend(0, old_res);
        }
        res.insert(0, 0);
        assert(res@ =~= seq![0u8] + old_res);
        let part = mul_digit(a, b[j - 1]);
        res = nat_add(&res, &part);
        proof {
            let v = val(b@.subrange(j as int, b@.len() as int));
            let bd = b@[j - 1] as nat;
            assert(10 * (val(a@) * v) + val(a@) * bd == val(a@) * (bd + 10 * v)) by (nonlinear_arith);
        }
        j = j - 1;
    }
    assert(b@.subrange(0, b@.len() as int) =~= b@);
    res
}

/// Quotient and remainder of `a` by a positive `d`.
pub fn divmod(a: &Vec<u8>, d: &Vec<u8>) -> (r: (Vec<u8>, Vec<u8>))
    requires
        digits_ok(a@),
        digits_ok(d@),
        val(d@) > 0,
    ensures
        digits_ok(r.0@),
        digits_ok(r.1@),
        val(a@) == val(r.0@) * val(d@) + val(r.1@),
        val(r.1@) < val(d@),
{
    let mut q: Vec<u8> = Vec::new();
    let mut rem: Vec<u8> = Vec::new();
    let mut j = a.len();
    assert(a@.subrange(j as int, a@.len() as int) =~= Seq::<u8>::empty());
    proof {
        lemma_val_small(q@);
        lemma_val_small(rem@);
        lemma_val_small(a@.subrange(j as int, a@.len() as int));
    }
    while j > 0
        invariant
            j <= a@.len(),
            digits_ok(a@),
            digits_ok(d@),
            digits_ok(q@),
            digits_ok(rem@),
            val(d@) > 0,
            val(a@.subrange(j as int, a@.len() as int)) == val(q@) * val(d@) + val(rem@),
            val(rem@) < val(d@),
        decreases j,
    {
        let ghost q0 = val(q@);
        let ghost r0 = val(rem@);
        let ghost dd = val(d@);
        let ghost rem_old = rem@;
        proof {
            lemma_suffix_step(a@, j - 1);
            lemma_val_prepend(a@[j - 1], rem_old);
        }
        rem.insert(0, a[j - 1]);
        assert(rem@ =~= seq![a@[j - 1]] + rem_old);
        let ghost start = val(rem@);
        assert(start == a@[j - 1] + 10 * r0);
        assert(start < 10 * dd);
        let mut qd: u8 = 0;
        while nat_ge(&rem, d)
            invariant
                digits_ok(rem@),
                digits_ok(d@),
                dd == val(d@),
                dd > 0,
                start < 10 * dd,
                val(rem@) + qd * dd == start,
                qd <= 9,
            decreases val(rem@),
        {
            let ghost before = val(rem@);
            rem = nat_sub(&rem, d);
            assert(val(rem@) + (qd + 1) * dd == start) by (nonlinear_arith)
                requires
                    val(rem@) == before - dd,
                    before + qd * dd == start,
            ;
            assert(qd + 1 <= 9) by (nonlinear_arith)
                requires
                    val(rem@) + (qd + 1) * dd == start,
                    start < 10 * dd,
                    dd > 0,
            ;
            qd = qd + 1;
        }
        let ghost q_old = q@;
        proof {
            lemma_val_prepend(qd, q_old);
        }
        q.insert(0, qd);
        assert(q@ =~= seq![qd] + q_old);
        proof {
            let av = val(a@.subrange(j as int, a@.len() as int));
            assert(a@[j - 1] + 10 * av == (qd + 10 * q0) * dd + val(rem@)) by (nonlinear_arith)
                requires
                    av == q0 * dd + r0,
                    val(rem@) + qd * dd == a@[j - 1] + 10 * r0,
            ;
        }
        j = j - 1;
    }
    assert(a@.subrange(0, a@.len() as int) =~= a@);
    (q, rem)
}

/// Whether the value is zero.
pub fn is_zero(a: &Vec<u8>) -> (r: bool)
    requires
        digits_ok(a@),
    ensures
        r == (val(a@) == 0),
{
    let one: Vec<u8> = vec![1u8];
    proof {
        assert(one@.len() == 1);
        lemma_val_small(one@);
    }
    !nat_ge(a, &one)
}

} // verus!
