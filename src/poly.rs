//! Polynomials over the scalar field, lowest-degree coefficient first.
use crate::field::{field_modulus, Fr};
use vstd::arithmetic::div_mod::{lemma_sub_mod_noop, lemma_fundamental_div_mod_converse, lemma_add_mod_noop, lemma_mod_mod, lemma_mul_mod_noop, lemma_mod_bound, lemma_small_mod};
use vstd::arithmetic::mul::{lemma_mul_is_associative, lemma_mul_is_commutative, lemma_mul_is_distributive_add, lemma_mul_is_distributive_add_other_way, lemma_mul_unary_negation};
use vstd::arithmetic::power::{lemma_pow0, lemma_pow1, pow};
use vstd::prelude::*;

verus! {

/// The values of a sequence of field elements.
pub open spec fn values(v: Seq<Fr>) -> Seq<int> {
    v.map_values(|f: Fr| f.val())
}

/// Every element of the sequence is in canonical form.
pub open spec fn all_wf(v: Seq<Fr>) -> bool {
    forall|i: int| 0 <= i < v.len() ==> (#[trigger] v[i]).wf()
}

/// The coefficient of `x^i`, zero beyond the stored ones.
pub open spec fn coeff(p: Seq<int>, i: int) -> int {
    if 0 <= i < p.len() {
        p[i]
    } else {
        0
    }
}

/// The value of the polynomial at `x`, reduced by the field modulus (Horner's rule).
pub open spec fn eval(p: Seq<int>, x: int) -> int
    decreases p.len(),
{
    if p.len() == 0 {
        0
    } else {
        (p[0] + x * eval(p.drop_first(), x)) % field_modulus()
    }
}

/// The coefficients after the first one.
pub open spec fn tail(p: Seq<int>) -> Seq<int> {
    if p.len() == 0 {
        p
    } else {
        p.drop_first()
    }
}

/// The polynomial multiplied by `x^k`.
pub open spec fn shifted(p: Seq<int>, k: nat) -> Seq<int> {
    Seq::new(k, |i: int| 0int) + p
}

/// The coefficient of `x^k` in the product of `a` and `b`: the sum of `a[i] * b[k - i]`.
pub open spec fn product_coeff(a: Seq<int>, b: Seq<int>, k: int) -> int
    decreases a.len(),
{
    if a.len() == 0 {
        0
    } else {
        a[0] * coeff(b, k) + product_coeff(a.drop_first(), b, k - 1)
    }
}

proof fn lemma_product_coeff_negative(a: Seq<int>, b: Seq<int>, k: int)
    requires
        k < 0,
    ensures
        product_coeff(a, b, k) == 0,
    decreases a.len(),
{
    if a.len() > 0 {
        lemma_product_coeff_negative(a.drop_first(), b, k - 1);
        assert(a[0] * 0 == 0);
    }
}

proof fn lemma_product_coeff_empty(a: Seq<int>, b: Seq<int>, k: int)
    requires
        b.len() == 0,
    ensures
        product_coeff(a, b, k) == 0,
    decreases a.len(),
{
    if a.len() > 0 {
        lemma_product_coeff_empty(a.drop_first(), b, k - 1);
        assert(a[0] * 0 == 0);
    }
}

/// No stored coefficient is a trailing zero, so the length is the degree plus one.
pub open spec fn trimmed(p: Seq<int>) -> bool {
    p.len() == 0 || p.last() != 0
}

/// Every coefficient is a canonical field value, in `0..field_modulus()`.
pub open spec fn canonical(p: Seq<int>) -> bool {
    forall|k: int| 0 <= k < p.len() ==> 0 <= #[trigger] p[k] < field_modulus()
}

pub(crate) proof fn lemma_modulus_pos()
    ensures
        field_modulus() > 1,
{
}

pub(crate) proof fn lemma_add_cong(p: int, q: int, u: int, v: int)
    requires
        p % field_modulus() == u % field_modulus(),
        q % field_modulus() == v % field_modulus(),
    ensures
        (p + q) % field_modulus() == (u + v) % field_modulus(),
{
    let m = field_modulus();
    lemma_add_mod_noop(p, q, m);
    lemma_add_mod_noop(u, v, m);
}

pub(crate) proof fn lemma_mul_cong(p: int, q: int, u: int, v: int)
    requires
        p % field_modulus() == u % field_modulus(),
        q % field_modulus() == v % field_modulus(),
    ensures
        (p * q) % field_modulus() == (u * v) % field_modulus(),
{
    let m = field_modulus();
    lemma_mul_mod_noop(p, q, m);
    lemma_mul_mod_noop(u, v, m);
}

pub(crate) proof fn lemma_mod_idem(p: int)
    ensures
        (p % field_modulus()) % field_modulus() == p % field_modulus(),
        0 <= p % field_modulus() < field_modulus(),
{
    lemma_mod_mod(p, field_modulus(), 1);
    lemma_mod_bound(p, field_modulus());
}

pub(crate) proof fn lemma_eval_range(p: Seq<int>, x: int)
    ensures
        0 <= eval(p, x) < field_modulus(),
{
    if p.len() > 0 {
        lemma_mod_bound(p[0] + x * eval(p.drop_first(), x), field_modulus());
    }
}

proof fn lemma_eval_unfold(p: Seq<int>, x: int)
    ensures
        eval(p, x) == (coeff(p, 0) + x * eval(tail(p), x)) % field_modulus(),
{
    if p.len() == 0 {
        assert(eval(p, x) == 0);
        assert((0 + x * 0) % field_modulus() == 0);
    }
}

proof fn lemma_regroup(ca: int, cb: int, a0: int, b0: int, ea: int, eb: int, x: int)
    ensures
        ca * (a0 + x * ea) + cb * (b0 + x * eb) == (ca * a0 + cb * b0) + x * (ca * ea + cb * eb),
{
    lemma_mul_is_distributive_add(ca, a0, x * ea);
    lemma_mul_is_distributive_add(cb, b0, x * eb);
    lemma_mul_is_distributive_add(x, ca * ea, cb * eb);
    lemma_mul_is_associative(ca, x, ea);
    lemma_mul_is_associative(x, ca, ea);
    lemma_mul_is_associative(cb, x, eb);
    lemma_mul_is_associative(x, cb, eb);
    lemma_mul_is_commutative(ca, x);
    lemma_mul_is_commutative(cb, x);
}

/// Evaluation is linear: a polynomial whose coefficients are a combination of two others
/// evaluates to that combination of their values.
pub proof fn lemma_eval_linear(r: Seq<int>, a: Seq<int>, b: Seq<int>, ca: int, cb: int, x: int)
    requires
        forall|i: int| 0 <= i ==> #[trigger] coeff(r, i) == (ca * coeff(a, i) + cb * coeff(b, i)) % field_modulus(),
    ensures
        eval(r, x) == (ca * eval(a, x) + cb * eval(b, x)) % field_modulus(),
    decreases r.len() + a.len() + b.len(),
{
    let m = field_modulus();
    if r.len() == 0 && a.len() == 0 && b.len() == 0 {
        assert((ca * 0 + cb * 0) % m == 0);
    } else {
        let (rt, at, bt) = (tail(r), tail(a), tail(b));
        assert forall|i: int| 0 <= i implies #[trigger] coeff(rt, i) == (ca * coeff(at, i) + cb * coeff(bt, i)) % m by {
            assert(coeff(r, i + 1) == (ca * coeff(a, i + 1) + cb * coeff(b, i + 1)) % m);
        }
        lemma_eval_linear(rt, at, bt, ca, cb, x);
        lemma_eval_unfold(r, x);
        lemma_eval_unfold(a, x);
        lemma_eval_unfold(b, x);
        assert(coeff(r, 0) == (ca * coeff(a, 0) + cb * coeff(b, 0)) % m);
        let (r0, a0, b0) = (coeff(r, 0), coeff(a, 0), coeff(b, 0));
        let (er, ea, eb) = (eval(rt, x), eval(at, x), eval(bt, x));
        let s = ca * a0 + cb * b0;
        let t = ca * ea + cb * eb;
        lemma_mod_idem(s);
        lemma_mod_idem(t);
        lemma_mul_cong(x, er, x, t);
        lemma_add_cong(r0, x * er, s, x * t);
        lemma_mod_idem(a0 + x * ea);
        lemma_mod_idem(b0 + x * eb);
        lemma_mul_cong(ca, eval(a, x), ca, a0 + x * ea);
        lemma_mul_cong(cb, eval(b, x), cb, b0 + x * eb);
        lemma_add_cong(ca * eval(a, x), cb * eval(b, x), ca * (a0 + x * ea), cb * (b0 + x * eb));
        lemma_regroup(ca, cb, a0, b0, ea, eb, x);
    }
}

/// Multiplying by `x^k` multiplies the value by `x^k`.
pub proof fn lemma_eval_shifted(p: Seq<int>, k: nat, x: int)
    ensures
        eval(shifted(p, k), x) == (pow(x, k) * eval(p, x)) % field_modulus(),
    decreases k,
{
    let m = field_modulus();
    lemma_eval_range(p, x);
    if k == 0 {
        assert(shifted(p, 0) =~= p);
        lemma_small_mod(eval(p, x) as nat, m as nat);
        lemma_pow0(x);
    } else {
        let k1 = (k - 1) as nat;
        assert(shifted(p, k).drop_first() =~= shifted(p, k1));
        lemma_eval_shifted(p, k1, x);
        let e = eval(p, x);
        assert(eval(shifted(p, k), x) == (0 + x * eval(shifted(p, k1), x)) % m);
        lemma_mod_idem(x);
        lemma_mul_cong(x, eval(shifted(p, k1), x), x, pow(x, k1) * e);
        assert(pow(x, k) == x * pow(x, k1)) by {
            reveal(pow);
        }
        assert(x * (pow(x, k1) * e) == (x * pow(x, k1)) * e) by (nonlinear_arith);
    }
}

proof fn lemma_values_canonical(v: Seq<Fr>)
    requires
        all_wf(v),
    ensures
        forall|i: int| 0 <= #[trigger] coeff(values(v), i) < field_modulus(),
{
    assert forall|i: int| 0 <= #[trigger] coeff(values(v), i) < field_modulus() by {
        if 0 <= i < v.len() {
            assert(v[i].wf());
        }
    }
}

/// Two coefficient sequences that agree everywhere evaluate alike.
proof fn lemma_eval_same_coeffs(r: Seq<int>, a: Seq<int>, x: int)
    requires
        forall|i: int| 0 <= i ==> #[trigger] coeff(r, i) == coeff(a, i),
        forall|i: int| 0 <= #[trigger] coeff(a, i) < field_modulus(),
    ensures
        eval(r, x) == eval(a, x),
{
    let m = field_modulus();
    assert forall|i: int| 0 <= i implies #[trigger] coeff(r, i) == (1 * coeff(a, i) + 0 * coeff(a, i)) % m by {
        lemma_small_mod(coeff(a, i) as nat, m as nat);
    }
    lemma_eval_linear(r, a, a, 1, 0, x);
    lemma_eval_range(a, x);
    lemma_small_mod(eval(a, x) as nat, m as nat);
}

/// The value after adding `c * x^k * s` to `p`, from the coefficient relation.
proof fn lemma_eval_add_scaled_shifted(r: Seq<int>, p: Seq<int>, s: Seq<int>, c: int, k: nat, x: int)
    requires
        forall|i: int| 0 <= i ==> #[trigger] coeff(r, i) == (coeff(p, i) + c * coeff(s, i - k)) % field_modulus(),
    ensures
        eval(r, x) == (eval(p, x) + c * ((pow(x, k) * eval(s, x)) % field_modulus())) % field_modulus(),
{
    let m = field_modulus();
    let sh = shifted(s, k);
    assert forall|i: int| 0 <= i implies #[trigger] coeff(r, i) == (1 * coeff(p, i) + c * coeff(sh, i)) % m by {
        assert(coeff(sh, i) == coeff(s, i - k));
    }
    lemma_eval_linear(r, p, sh, 1, c, x);
    lemma_eval_shifted(s, k, x);
}

/// `p + c * x^k * s`, coefficient by coefficient, without trimming.
fn add_scaled_shifted(p: &Vec<Fr>, s: &Vec<Fr>, c: &Fr, k: usize) -> (r: Vec<Fr>)
    requires
        all_wf(p@),
        all_wf(s@),
        c.wf(),
        s@.len() + k <= usize::MAX,
    ensures
        all_wf(r@),
        r@.len() == if p@.len() >= s@.len() + k { p@.len() } else { (s@.len() + k) as nat },
        forall|i: int| 0 <= i ==> #[trigger] coeff(values(r@), i) == (coeff(values(p@), i) + c.val() * coeff(values(s@), i - k)) % field_modulus(),
{
    let n = if p.len() >= s.len() + k { p.len() } else { s.len() + k };
    let mut r: Vec<Fr> = Vec::new();
    let mut i: usize = 0;
    while i < n
        invariant
            all_wf(p@),
            all_wf(s@),
            c.wf(),
            n == if p@.len() >= s@.len() + k { p@.len() } else { (s@.len() + k) as nat },
            i <= n,
            r@.len() == i,
            forall|j: int| 0 <= j < i ==> (#[trigger] r@[j]).wf() && r@[j].val() == (coeff(values(p@), j) + c.val() * coeff(values(s@), j - k)) % field_modulus(),
        decreases n - i,
    {
        let a = if i < p.len() { p[i] } else { Fr::zero() };
        let b = if i >= k && i - k < s.len() { c.mul(&s[i - k]) } else { Fr::zero() };
        let v = a.add(&b);
        proof {
            let m = field_modulus();
            lemma_modulus_pos();
            if i < p.len() {
                assert(p@[i as int].wf());
            }
            if i >= k && i - k < s.len() {
                assert(s@[i - k].wf());
                lemma_add_mod_noop(coeff(values(p@), i as int), c.val() * coeff(values(s@), i - k), m);
                lemma_mod_idem(coeff(values(p@), i as int));
                lemma_mod_idem(c.val() * coeff(values(s@), i - k));
            } else {
                assert(coeff(values(s@), i - k) == 0);
                assert(c.val() * 0 == 0);
            }
        }
        r.push(v);
        i = i + 1;
    }
    proof {
        lemma_modulus_pos();
        assert forall|i: int| 0 <= i implies #[trigger] coeff(values(r@), i) == (coeff(values(p@), i) + c.val() * coeff(values(s@), i - k)) % field_modulus() by {
            if i >= n {
                assert(c.val() * 0 == 0);
            } else {
                assert(r@[i].wf());
            }
        }
    }
    r
}

/// Drops trailing zero coefficients.
fn trim(v: Vec<Fr>) -> (r: Vec<Fr>)
    requires
        all_wf(v@),
    ensures
        all_wf(r@),
        r@.len() <= v@.len(),
        trimmed(values(r@)),
        forall|i: int| 0 <= i ==> #[trigger] coeff(values(r@), i) == coeff(values(v@), i),
{
    let mut r = v;
    while r.len() > 0 && r[r.len() - 1].is_zero()
        invariant
            all_wf(r@),
            r@.len() <= v@.len(),
            forall|i: int| 0 <= i ==> #[trigger] coeff(values(r@), i) == coeff(values(v@), i),
        decreases r@.len(),
    {
        assert(r@[r@.len() - 1].wf());
        let ghost prev = r@;
        r.pop();
        assert forall|i: int| 0 <= i implies #[trigger] coeff(values(r@), i) == coeff(values(prev), i) by {
            if i < r@.len() {
                assert(r@[i] == prev[i]);
            }
        }
    }
    if r.len() > 0 {
        assert(r@[r@.len() - 1].wf());
    }
    r
}

proof fn lemma_horner_step(ai: int, b: int, ea: int, x: int, esb: int, eacc: int, eacc2: int, enew: int)
    requires
        0 <= b < field_modulus(),
        eacc == (ea * b) % field_modulus(),
        esb == (0 + ai * ((pow(x, 0) * b) % field_modulus())) % field_modulus(),
        eacc2 == (esb + 1 * ((pow(x, 1) * eacc) % field_modulus())) % field_modulus(),
        enew == (ai + x * ea) % field_modulus(),
    ensures
        eacc2 == (enew * b) % field_modulus(),
{
    let m = field_modulus();
    lemma_pow0(x);
    lemma_pow1(x);
    lemma_small_mod(b as nat, m as nat);
    lemma_mod_idem(ai * b);
    lemma_mod_idem(x * eacc);
    lemma_mod_idem(ea * b);
    lemma_mod_idem(ai + x * ea);
    lemma_mul_cong(x, eacc, x, ea * b);
    lemma_add_cong(esb, (x * eacc) % m, ai * b, x * (ea * b));
    lemma_mul_cong(enew, b, ai + x * ea, b);
    lemma_mul_is_distributive_add_other_way(b, ai, x * ea);
    lemma_mul_is_associative(x, ea, b);
}

/// The full product of two coefficient sequences, without trimming.
fn mul_raw(a: &Vec<Fr>, b: &Vec<Fr>) -> (r: Vec<Fr>)
    requires
        all_wf(a@),
        all_wf(b@),
        a@.len() + b@.len() <= usize::MAX,
    ensures
        all_wf(r@),
        r@.len() == if a@.len() == 0 || b@.len() == 0 { 0 } else { (a@.len() + b@.len() - 1) as nat },
        r@.len() > 0 ==> coeff(values(r@), r@.len() - 1) == (coeff(values(a@), a@.len() - 1) * coeff(values(b@), b@.len() - 1)) % field_modulus(),
        forall|k: int| 0 <= k ==> #[trigger] coeff(values(r@), k) == product_coeff(values(a@), values(b@), k) % field_modulus(),
        forall|x: int| #[trigger] eval(values(r@), x) == (eval(values(a@), x) * eval(values(b@), x)) % field_modulus(),
{
    let m = a.len();
    if m == 0 || b.len() == 0 {
        let r: Vec<Fr> = Vec::new();
        assert forall|x: int| #[trigger] eval(values(r@), x) == (eval(values(a@), x) * eval(values(b@), x)) % field_modulus() by {
            if m == 0 {
                assert(values(a@) =~= Seq::<int>::empty());
            } else {
                assert(values(b@) =~= Seq::<int>::empty());
            }
            assert(eval(values(a@), x) * 0 == 0);
            assert(0 * eval(values(b@), x) == 0);
        }
        assert forall|k: int| 0 <= k implies #[trigger] coeff(values(r@), k) == product_coeff(values(a@), values(b@), k) % field_modulus() by {
            if m != 0 {
                lemma_product_coeff_empty(values(a@), values(b@), k);
            }
        }
        return r;
    }
    let one = Fr::one();
    let empty: Vec<Fr> = Vec::new();
    let mut acc: Vec<Fr> = Vec::new();
    let mut i: usize = m;
    assert forall|x: int| #[trigger] eval(values(acc@), x) == (eval(values(a@).subrange(i as int, m as int), x) * eval(values(b@), x)) % field_modulus() by {
        assert(values(a@).subrange(i as int, m as int) =~= Seq::<int>::empty());
        assert(0 * eval(values(b@), x) == 0);
    }
    assert forall|k: int| 0 <= k implies #[trigger] coeff(values(acc@), k) == product_coeff(values(a@).subrange(i as int, m as int), values(b@), k) % field_modulus() by {
        assert(values(a@).subrange(i as int, m as int) =~= Seq::<int>::empty());
    }
    while i > 0
        invariant
            all_wf(a@),
            all_wf(b@),
            all_wf(empty@),
            empty@.len() == 0,
            one.wf(),
            one.val() == 1,
            m == a@.len(),
            b@.len() > 0,
            m + b@.len() <= usize::MAX,
            i <= m,
            all_wf(acc@),
            acc@.len() == if i == m { 0 } else { (b@.len() + m - i - 1) as nat },
            acc@.len() > 0 ==> coeff(values(acc@), acc@.len() - 1) == (coeff(values(a@), m - 1) * coeff(values(b@), b@.len() - 1)) % field_modulus(),
            forall|x: int| #[trigger] eval(values(acc@), x) == (eval(values(a@).subrange(i as int, m as int), x) * eval(values(b@), x)) % field_modulus(),
            forall|k: int| 0 <= k ==> #[trigger] coeff(values(acc@), k) == product_coeff(values(a@).subrange(i as int, m as int), values(b@), k) % field_modulus(),
        decreases i,
    {
        i = i - 1;
        assert(a@[i as int].wf());
        let sb = add_scaled_shifted(&empty, b, &a[i], 0);
        let acc2 = add_scaled_shifted(&sb, &acc, &one, 1);
        proof {
            let mm = field_modulus();
            let top = acc2@.len() - 1;
            assert(coeff(values(acc2@), top) == (coeff(values(sb@), top) + 1 * coeff(values(acc@), top - 1)) % mm);
            assert(coeff(values(sb@), top) == (coeff(values(empty@), top) + a@[i as int].val() * coeff(values(b@), top)) % mm);
            lemma_values_canonical(acc@);
            lemma_values_canonical(sb@);
            if acc@.len() == 0 {
                assert(i == m - 1);
                assert(top == b@.len() - 1);
                lemma_small_mod(coeff(values(sb@), top) as nat, mm as nat);
            } else {
                assert(coeff(values(sb@), top) == 0) by {
                    assert(a@[i as int].val() * 0 == 0);
                }
                lemma_small_mod(coeff(values(acc@), top - 1) as nat, mm as nat);
            }
        }
        proof {
            let av = values(a@);
            let mm = field_modulus();
            let sub = av.subrange(i as int, m as int);
            let rest = av.subrange(i + 1, m as int);
            assert(sub.drop_first() =~= rest);
            assert forall|k: int| 0 <= k implies #[trigger] coeff(values(acc2@), k) == product_coeff(sub, values(b@), k) % mm by {
                let sbk = coeff(values(sb@), k);
                let accp = coeff(values(acc@), k - 1);
                let pr = product_coeff(rest, values(b@), k - 1);
                assert(coeff(values(acc2@), k) == (sbk + 1 * accp) % mm);
                assert(sbk == (coeff(values(empty@), k) + av[i as int] * coeff(values(b@), k - 0)) % mm);
                assert(coeff(values(empty@), k) == 0);
                if k == 0 {
                    lemma_product_coeff_negative(rest, values(b@), k - 1);
                    assert(accp == 0);
                    lemma_small_mod(0, mm as nat);
                } else {
                    assert(accp == pr % mm);
                }
                lemma_mod_idem(av[i as int] * coeff(values(b@), k));
                lemma_mod_idem(pr);
                lemma_add_cong(sbk, accp, av[i as int] * coeff(values(b@), k), pr);
            }
        }
        proof {
            let av = values(a@);
            assert forall|x: int| #[trigger] eval(values(acc2@), x) == (eval(av.subrange(i as int, m as int), x) * eval(values(b@), x)) % field_modulus() by {
                let bv = values(b@);
                lemma_eval_range(bv, x);
                lemma_eval_add_scaled_shifted(values(sb@), values(empty@), bv, a@[i as int].val(), 0, x);
                lemma_eval_add_scaled_shifted(values(acc2@), values(sb@), values(acc@), 1, 1, x);
                assert(values(empty@) =~= Seq::<int>::empty());
                let sub = av.subrange(i as int, m as int);
                assert(sub.drop_first() =~= av.subrange(i + 1, m as int));
                lemma_horner_step(
                    av[i as int],
                    eval(bv, x),
                    eval(av.subrange(i + 1, m as int), x),
                    x,
                    eval(values(sb@), x),
                    eval(values(acc@), x),
                    eval(values(acc2@), x),
                    eval(sub, x),
                );
            }
        }
        acc = acc2;
    }
    assert(values(a@).subrange(0, m as int) =~= values(a@));
    acc
}

proof fn lemma_cancel(r: int, c: int, nc: int, lead: int, inv: int)
    requires
        (lead * inv) % field_modulus() == 1,
        c == (r * inv) % field_modulus(),
        nc == (-c) % field_modulus(),
    ensures
        (r + nc * lead) % field_modulus() == 0,
{
    let m = field_modulus();
    lemma_modulus_pos();
    lemma_mod_idem(-c);
    lemma_mul_cong(nc, lead, -c, lead);
    lemma_mod_idem(r * inv);
    lemma_mul_cong(c, lead, r * inv, lead);
    lemma_mul_is_associative(r, inv, lead);
    lemma_mul_is_commutative(inv, lead);
    lemma_small_mod(1, m as nat);
    lemma_mul_cong(r, inv * lead, r, 1);
    lemma_mul_unary_negation(c, lead);
    lemma_mul_cong(-1, c * lead, -1, r);
    lemma_add_cong(r, nc * lead, r, -r);
}

proof fn lemma_div_step(a: int, q: int, rem: int, bb: int, c: int, nc: int, xk: int, e1: int, q2: int, rem2: int)
    requires
        a == (q * bb + rem) % field_modulus(),
        e1 == 1,
        q2 == (q + c * ((xk * e1) % field_modulus())) % field_modulus(),
        rem2 == (rem + nc * ((xk * bb) % field_modulus())) % field_modulus(),
        nc == (-c) % field_modulus(),
    ensures
        a == (q2 * bb + rem2) % field_modulus(),
{
    let m = field_modulus();
    lemma_mod_idem(xk);
    lemma_mul_cong(c, (xk * e1) % m, c, xk);
    lemma_mod_idem(q);
    lemma_add_cong(q, c * ((xk * e1) % m), q, c * xk);
    lemma_mod_idem(q + c * xk);
    lemma_mod_idem(xk * bb);
    lemma_mod_idem(-c);
    lemma_mul_cong(nc, (xk * bb) % m, -c, xk * bb);
    lemma_mod_idem(rem);
    lemma_add_cong(rem, nc * ((xk * bb) % m), rem, (-c) * (xk * bb));
    lemma_mod_idem(rem + (-c) * (xk * bb));
    lemma_mul_cong(q2, bb, q + c * xk, bb);
    lemma_add_cong(q2 * bb, rem2, (q + c * xk) * bb, rem + (-c) * (xk * bb));
    lemma_mul_is_distributive_add_other_way(bb, q, c * xk);
    lemma_mul_is_associative(c, xk, bb);
    lemma_mul_unary_negation(c, xk * bb);
}

/// The points have canonical coordinates and pairwise distinct `x` values.
pub open spec fn distinct_points(points: Seq<(Fr, Fr)>) -> bool {
    &&& forall|i: int| 0 <= i < points.len() ==> (#[trigger] points[i]).0.wf() && points[i].1.wf()
    &&& forall|i: int, j: int|
        0 <= i < points.len() && 0 <= j < points.len() && i != j ==> (#[trigger] points[i]).0.val() != (#[trigger] points[j]).0.val()
}

pub(crate) proof fn lemma_diff_nonzero(a: int, b: int)
    requires
        0 <= a < field_modulus(),
        0 <= b < field_modulus(),
        a != b,
    ensures
        (a - b) % field_modulus() != 0,
{
    let m = field_modulus();
    if a > b {
        lemma_small_mod((a - b) as nat, m as nat);
    } else {
        lemma_fundamental_div_mod_converse(a - b, m, -1, a - b + m);
    }
}

pub(crate) proof fn lemma_eval_pair(c0: int, c1: int, x: int)
    requires
        0 <= c1 < field_modulus(),
    ensures
        eval(seq![c0, c1], x) == (c0 + x * c1) % field_modulus(),
{
    let s = seq![c0, c1];
    assert(s.drop_first() =~= seq![c1]);
    assert(seq![c1].drop_first() =~= Seq::<int>::empty());
    assert(eval(Seq::<int>::empty(), x) == 0);
    assert(x * 0 == 0);
    lemma_small_mod(c1 as nat, field_modulus() as nat);
    assert(eval(seq![c1], x) == (c1 + x * 0) % field_modulus());
    assert(eval(seq![c1], x) == c1);
    assert(eval(s, x) == (c0 + x * eval(seq![c1], x)) % field_modulus());
}

proof fn lemma_factor_values(xi: int, xj: int, d: int, inv: int, c0: int)
    requires
        d == (xj - xi) % field_modulus(),
        (d * inv) % field_modulus() == 1,
        c0 == (((-xi) % field_modulus()) * inv) % field_modulus(),
    ensures
        (c0 + xj * inv) % field_modulus() == 1,
        (c0 + xi * inv) % field_modulus() == 0,
{
    let m = field_modulus();
    lemma_mod_idem(-xi);
    lemma_mul_cong((-xi) % m, inv, -xi, inv);
    lemma_mod_idem((-xi) * inv);
    lemma_mod_idem(xj * inv);
    lemma_mod_idem(xi * inv);
    lemma_add_cong(c0, xj * inv, (-xi) * inv, xj * inv);
    lemma_add_cong(c0, xi * inv, (-xi) * inv, xi * inv);
    lemma_mul_is_distributive_add_other_way(inv, -xi, xj);
    lemma_mul_unary_negation(xi, inv);
    lemma_mod_idem(xj - xi);
    lemma_mul_cong(xj - xi, inv, d, inv);
}

proof fn lemma_product_coeff_unfold(p: Seq<int>, b: Seq<int>, k: int)
    ensures
        product_coeff(p, b, k) == coeff(p, 0) * coeff(b, k) + product_coeff(tail(p), b, k - 1),
{
    if p.len() == 0 {
        assert(0 * coeff(b, k) == 0);
    }
}

/// The product's coefficients are linear in the first factor.
proof fn lemma_product_coeff_linear(p: Seq<int>, u: Seq<int>, v: Seq<int>, c: int, b: Seq<int>, k: int)
    requires
        forall|j: int| 0 <= j ==> #[trigger] coeff(p, j) == (coeff(u, j) + c * coeff(v, j)) % field_modulus(),
    ensures
        product_coeff(p, b, k) % field_modulus() == (product_coeff(u, b, k) + c * product_coeff(v, b, k)) % field_modulus(),
    decreases p.len() + u.len() + v.len(),
{
    let m = field_modulus();
    if p.len() == 0 && u.len() == 0 && v.len() == 0 {
        assert(c * 0 == 0);
    } else {
        let (pt, ut, vt) = (tail(p), tail(u), tail(v));
        assert forall|j: int| 0 <= j implies #[trigger] coeff(pt, j) == (coeff(ut, j) + c * coeff(vt, j)) % m by {
            assert(coeff(p, j + 1) == (coeff(u, j + 1) + c * coeff(v, j + 1)) % m);
        }
        lemma_product_coeff_linear(pt, ut, vt, c, b, k - 1);
        lemma_product_coeff_unfold(p, b, k);
        lemma_product_coeff_unfold(u, b, k);
        lemma_product_coeff_unfold(v, b, k);
        let bk = coeff(b, k);
        let (p0, u0, v0) = (coeff(p, 0), coeff(u, 0), coeff(v, 0));
        let (pp, up, vp) = (product_coeff(pt, b, k - 1), product_coeff(ut, b, k - 1), product_coeff(vt, b, k - 1));
        assert(p0 == (u0 + c * v0) % m);
        lemma_mod_idem(u0 + c * v0);
        lemma_mul_cong(p0, bk, u0 + c * v0, bk);
        lemma_mod_idem(up + c * vp);
        lemma_add_cong(p0 * bk, pp, (u0 + c * v0) * bk, up + c * vp);
        lemma_regroup(1, c, u0 * bk, v0 * bk, up, vp, 1);
        lemma_mul_is_distributive_add_other_way(bk, u0, c * v0);
        lemma_mul_is_associative(c, v0, bk);
        lemma_mul_is_distributive_add(c, v0 * bk, vp);
    }
}

/// Multiplying by the monomial `x^t` moves each coefficient up by `t`.
proof fn lemma_product_coeff_monomial(t: nat, b: Seq<int>, k: int)
    ensures
        product_coeff(shifted(seq![1int], t), b, k) == coeff(b, k - t),
    decreases t,
{
    if t == 0 {
        assert(shifted(seq![1int], 0) =~= seq![1int]);
        assert(seq![1int].drop_first() =~= Seq::<int>::empty());
        assert(product_coeff(Seq::<int>::empty(), b, k - 1) == 0);
        assert(product_coeff(seq![1int], b, k) == 1 * coeff(b, k) + product_coeff(Seq::<int>::empty(), b, k - 1));
    } else {
        let t1 = (t - 1) as nat;
        let st = shifted(seq![1int], t);
        assert(st.drop_first() =~= shifted(seq![1int], t1));
        assert(st[0] == 0);
        lemma_product_coeff_monomial(t1, b, k - 1);
        assert(0 * coeff(b, k) == 0);
        assert(product_coeff(st, b, k) == st[0] * coeff(b, k) + product_coeff(st.drop_first(), b, k - 1));
    }
}

proof fn lemma_div_step_coeff(a: int, pq: int, rem: int, t: int, c: int, nc: int, pq2: int, rem2: int)
    requires
        a == (pq + rem) % field_modulus(),
        pq2 % field_modulus() == (pq + c * t) % field_modulus(),
        rem2 == (rem + nc * t) % field_modulus(),
        nc == (-c) % field_modulus(),
    ensures
        a == (pq2 + rem2) % field_modulus(),
{
    let m = field_modulus();
    lemma_mod_idem(-c);
    lemma_mul_cong(nc, t, -c, t);
    lemma_mod_idem(rem);
    lemma_add_cong(rem, nc * t, rem, (-c) * t);
    lemma_mod_idem(rem + (-c) * t);
    lemma_add_cong(pq2, rem2, pq + c * t, rem + (-c) * t);
    lemma_mul_unary_negation(c, t);
}

/// The quotient of `r` by `x - c` (synthetic division).
pub open spec fn linear_quotient(r: Seq<int>, c: int) -> Seq<int>
    decreases r.len(),
{
    if r.len() <= 1 {
        Seq::empty()
    } else {
        seq![eval(r.drop_first(), c)] + linear_quotient(r.drop_first(), c)
    }
}

/// `r(y) == (y - c) * s(y) + r(c)` for the quotient `s` of `r` by `x - c`.
proof fn lemma_linear_quotient_eval(r: Seq<int>, c: int, y: int)
    ensures
        eval(r, y) == ((y - c) * eval(linear_quotient(r, c), y) + eval(r, c)) % field_modulus(),
    decreases r.len(),
{
    let m = field_modulus();
    let s = linear_quotient(r, c);
    if r.len() <= 1 {
        assert(s.len() == 0);
        assert((y - c) * 0 == 0);
        if r.len() == 1 {
            assert(r.drop_first() =~= Seq::<int>::empty());
            assert(y * 0 == 0 && c * 0 == 0);
        }
        lemma_eval_range(r, c);
        lemma_eval_range(r, y);
        lemma_small_mod(eval(r, c) as nat, m as nat);
        if r.len() == 1 {
            assert(eval(r, y) == (r[0] + y * eval(r.drop_first(), y)) % m);
            assert(eval(r, c) == (r[0] + c * eval(r.drop_first(), c)) % m);
            assert(eval(r, y) == eval(r, c));
        }
        assert(eval(r, y) == ((y - c) * eval(s, y) + eval(r, c)) % m);
    } else {
        let rt = r.drop_first();
        let st = linear_quotient(rt, c);
        lemma_linear_quotient_eval(rt, c, y);
        assert(s.drop_first() =~= st);
        assert(s[0] == eval(rt, c));
        let (ry, rc, sy, sty) = (eval(rt, y), eval(rt, c), eval(s, y), eval(st, y));
        assert(sy == (rc + y * sty) % m);
        assert(eval(r, y) == (r[0] + y * ry) % m);
        assert(eval(r, c) == (r[0] + c * rc) % m);
        // r(y) = r0 + y*rt(y); rt(y) = (y-c)*st(y) + rt(c); s(y) = rt(c) + y*st(y)
        // r(c) = r0 + c*rt(c).  r(y) - r(c) = y*rt(y) - c*rt(c) == (y - c) * s(y)  (mod m)
        lemma_mod_idem((y - c) * sty + rc);
        lemma_mul_cong(y, ry, y, (y - c) * sty + rc);
        lemma_add_cong(r[0], y * ry, r[0], y * ((y - c) * sty + rc));
        lemma_mod_idem(rc + y * sty);
        lemma_mul_cong(y - c, sy, y - c, rc + y * sty);
        lemma_mod_idem(r[0] + c * rc);
        lemma_add_cong((y - c) * sy, eval(r, c), (y - c) * (rc + y * sty), r[0] + c * rc);
        lemma_factor_regroup(r[0], y, c, sty, rc);
    }
}

proof fn lemma_factor_regroup(r0: int, y: int, c: int, sty: int, rc: int)
    ensures
        r0 + y * ((y - c) * sty + rc) == (y - c) * (rc + y * sty) + (r0 + c * rc),
{
    assert(r0 + y * ((y - c) * sty + rc) == (y - c) * (rc + y * sty) + (r0 + c * rc)) by (nonlinear_arith);
}

/// Coefficient form of synthetic division: `r[k] == s[k - 1] - c * s[k]`, and
/// `r[0] == r(c) - c * s[0]`.
proof fn lemma_linear_quotient_coeff(r: Seq<int>, c: int, k: int)
    requires
        0 <= k,
        canonical(r),
    ensures
        coeff(r, k) % field_modulus() == (coeff(linear_quotient(r, c), k - 1) - c * coeff(linear_quotient(r, c), k)
            + if k == 0 { eval(r, c) } else { 0 }) % field_modulus(),
    decreases r.len(),
{
    let m = field_modulus();
    let s = linear_quotient(r, c);
    lemma_modulus_pos();
    lemma_small_mod(0, m as nat);
    if r.len() <= 1 {
        assert(s.len() == 0);
        assert(coeff(s, k) == 0 && coeff(s, k - 1) == 0);
        assert(c * 0 == 0);
        if k == 0 && r.len() == 1 {
            assert(r.drop_first() =~= Seq::<int>::empty());
            assert(eval(r, c) == (r[0] + c * eval(r.drop_first(), c)) % m);
            lemma_mod_idem(r[0]);
            lemma_mod_idem(eval(r, c));
        } else if k == 0 {
            assert(eval(r, c) == 0);
        }
    } else {
        let rt = r.drop_first();
        let st = linear_quotient(rt, c);
        assert(s.drop_first() =~= st);
        assert(canonical(rt));
        let s0 = eval(rt, c);
        assert(s[0] == s0);
        assert forall|j: int| 1 <= j implies #[trigger] coeff(s, j) == coeff(st, j - 1) by {
            if j < s.len() {
                assert(s[j] == s.drop_first()[j - 1]);
            }
        }
        if k == 0 {
            assert(coeff(s, 0) == s0);
            assert(coeff(s, -1) == 0);
            assert(eval(r, c) == (r[0] + c * s0) % m);
            lemma_mod_idem(r[0] + c * s0);
            lemma_add_cong(-(c * s0), eval(r, c), -(c * s0), r[0] + c * s0);
            assert(0 - c * s0 + eval(r, c) == -(c * s0) + eval(r, c));
            assert(-(c * s0) + (r[0] + c * s0) == r[0]);
            assert(coeff(r, 0) == r[0]);
        } else {
            lemma_linear_quotient_coeff(rt, c, k - 1);
            assert(coeff(r, k) == coeff(rt, k - 1));
            assert(coeff(s, k) == coeff(st, k - 1));
            if k == 1 {
                assert(coeff(s, 0) == s0);
                assert(coeff(st, -1) == 0);
                assert(0 - c * coeff(st, 0) + s0 == s0 - c * coeff(st, 0) + 0);
            } else {
                assert(coeff(s, k - 1) == coeff(st, k - 2));
            }
        }
    }
}

/// A canonical polynomial with at most `n` coefficients that vanishes at `n` distinct points
/// has only zero coefficients, given an inverse of the difference of each pair of points.
pub proof fn lemma_vanishing_everywhere_zero(r: Seq<int>, xs: Seq<int>, inv: spec_fn(int, int) -> int)
    requires
        canonical(r),
        r.len() <= xs.len(),
        forall|t: int| 0 <= t < xs.len() ==> #[trigger] eval(r, xs[t]) == 0,
        forall|t: int, j: int| 0 <= j < t < xs.len() ==> ((xs[j] - xs[t]) * #[trigger] inv(j, t)) % field_modulus() == 1,
    ensures
        forall|k: int| 0 <= k ==> #[trigger] coeff(r, k) % field_modulus() == 0,
    decreases xs.len(),
{
    let m = field_modulus();
    lemma_modulus_pos();
    if r.len() == 0 {
        assert forall|k: int| 0 <= k implies #[trigger] coeff(r, k) % m == 0 by {}
    } else {
        let n = xs.len();
        let c = xs[n - 1];
        let s = linear_quotient(r, c);
        let ys = xs.drop_last();
        assert(s.len() == r.len() - 1) by {
            lemma_linear_quotient_len(r, c);
        }
        assert(canonical(s)) by {
            lemma_linear_quotient_canonical(r, c);
        }
        assert forall|t: int| 0 <= t < ys.len() implies #[trigger] eval(s, ys[t]) == 0 by {
            let y = xs[t];
            assert(ys[t] == y);
            lemma_linear_quotient_eval(r, c, y);
            assert(eval(r, y) == 0);
            assert(eval(r, c) == 0);
            let e = eval(s, y);
            let iv = inv(t, n - 1);
            assert(((y - c) * iv) % m == 1);
            // (y - c) * e == 0 (mod m), so e == e * ((y - c) * iv) == ((y - c) * e) * iv == 0
            assert(((y - c) * e + 0) % m == 0);
            lemma_mod_idem((y - c) * e);
            lemma_mul_cong((y - c) * e, iv, 0, iv);
            lemma_mul_cong(e, (y - c) * iv, e, 1);
            assert(e * ((y - c) * iv) == ((y - c) * e) * iv) by (nonlinear_arith);
            assert(0 * iv == 0);
            lemma_eval_range(s, y);
            lemma_small_mod(e as nat, m as nat);
            lemma_small_mod(0, m as nat);
        }
        assert forall|t: int, j: int| 0 <= j < t < ys.len() implies ((ys[j] - ys[t]) * #[trigger] inv(j, t)) % m == 1 by {
            assert(ys[j] == xs[j] && ys[t] == xs[t]);
        }
        lemma_vanishing_everywhere_zero(s, ys, inv);
        assert forall|k: int| 0 <= k implies #[trigger] coeff(r, k) % m == 0 by {
            lemma_linear_quotient_coeff(r, c, k);
            let a = coeff(s, k - 1);
            let b = coeff(s, k);
            if k > 0 {
                assert(a % m == 0);
            } else {
                assert(a == 0);
                lemma_small_mod(0, m as nat);
            }
            assert(b % m == 0);
            lemma_mod_idem(a);
            lemma_mul_cong(c, b, c, 0);
            assert(c * 0 == 0);
            assert(eval(r, c) == 0);
            lemma_sub_zero_cong(a, c * b, if k == 0 { eval(r, c) } else { 0 });
        }
    }
}

proof fn lemma_sub_zero_cong(a: int, b: int, e: int)
    requires
        a % field_modulus() == 0,
        b % field_modulus() == 0,
        e == 0,
    ensures
        (a - b + e) % field_modulus() == 0,
{
    let m = field_modulus();
    lemma_sub_mod_noop(a, b, m);
    lemma_small_mod(0, m as nat);
}

proof fn lemma_linear_quotient_len(r: Seq<int>, c: int)
    requires
        r.len() >= 1,
    ensures
        linear_quotient(r, c).len() == r.len() - 1,
    decreases r.len(),
{
    if r.len() > 1 {
        lemma_linear_quotient_len(r.drop_first(), c);
    }
}

proof fn lemma_linear_quotient_canonical(r: Seq<int>, c: int)
    ensures
        canonical(linear_quotient(r, c)),
    decreases r.len(),
{
    if r.len() > 1 {
        lemma_linear_quotient_canonical(r.drop_first(), c);
        lemma_eval_range(r.drop_first(), c);
        let s = linear_quotient(r, c);
        assert(s.drop_first() =~= linear_quotient(r.drop_first(), c));
        assert forall|k: int| 0 <= k < s.len() implies 0 <= #[trigger] s[k] < field_modulus() by {
            if k > 0 {
                assert(s[k] == s.drop_first()[k - 1]);
            }
        }
    }
}

/// A polynomial over the scalar field. Its coefficients are kept without trailing zeros,
/// so the zero polynomial has none.
#[derive(Clone, Debug)]
pub struct Poly {
    coeffs: Vec<Fr>,
}

impl View for Poly {
    type V = Seq<int>;

    closed spec fn view(&self) -> Seq<int> {
        values(self.coeffs@)
    }
}

impl Poly {
    pub closed spec fn wf(&self) -> bool {
        all_wf(self.coeffs@) && trimmed(self@)
    }

    /// Every coefficient of a well-formed polynomial is a canonical field value.
    pub proof fn lemma_wf_canonical(&self)
        requires
            self.wf(),
        ensures
            trimmed(self@),
            canonical(self@),
            forall|i: int| 0 <= #[trigger] coeff(self@, i) < field_modulus(),
    {
        lemma_values_canonical(self.coeffs@);
        assert forall|k: int| 0 <= k < self@.len() implies 0 <= #[trigger] self@[k] < field_modulus() by {
            assert(coeff(self@, k) == self@[k]);
        }
    }

    /// The polynomial with the given coefficients, lowest degree first.
    pub fn new(coeffs: Vec<Fr>) -> (r: Poly)
        requires
            all_wf(coeffs@),
        ensures
            r.wf(),
            r@.len() <= coeffs@.len(),
            forall|i: int| 0 <= i ==> #[trigger] coeff(r@, i) == coeff(values(coeffs@), i),
            forall|x: int| #[trigger] eval(r@, x) == eval(values(coeffs@), x),
    {
        let c = trim(coeffs);
        proof {
            lemma_values_canonical(coeffs@);
            assert forall|x: int| #[trigger] eval(values(c@), x) == eval(values(coeffs@), x) by {
                lemma_eval_same_coeffs(values(c@), values(coeffs@), x);
            }
        }
        Poly { coeffs: c }
    }

    /// The zero polynomial.
    pub fn zero() -> (r: Poly)
        ensures
            r.wf(),
            r@ == Seq::<int>::empty(),
    {
        let r = Poly { coeffs: Vec::new() };
        assert(r@ =~= Seq::<int>::empty());
        r
    }

    /// The constant polynomial `1`.
    pub fn one() -> (r: Poly)
        ensures
            r.wf(),
            r@ == seq![1int],
    {
        let mut v: Vec<Fr> = Vec::new();
        v.push(Fr::one());
        let r = Poly { coeffs: v };
        assert(r@ =~= seq![1int]);
        r
    }

    /// The coefficients, lowest degree first.
    pub fn coeffs(&self) -> (r: &Vec<Fr>)
        requires
            self.wf(),
        ensures
            all_wf(r@),
            values(r@) == self@,
    {
        &self.coeffs
    }

    /// Whether every coefficient is zero.
    pub fn is_zero(&self) -> (r: bool)
        requires
            self.wf(),
        ensures
            r == (forall|i: int| 0 <= i ==> #[trigger] coeff(self@, i) == 0),
            r == (self@.len() == 0),
    {
        let r = self.coeffs.len() == 0;
        if !r {
            assert(coeff(self@, self@.len() - 1) != 0);
        }
        r
    }

    /// The value of the polynomial at `x`, by Horner's rule.
    pub fn evaluate(&self, x: &Fr) -> (r: Fr)
        requires
            self.wf(),
            x.wf(),
        ensures
            r.wf(),
            r.val() == eval(self@, x.val()),
    {
        let n = self.coeffs.len();
        let mut acc = Fr::zero();
        let mut i: usize = n;
        proof {
            assert(self@.subrange(n as int, n as int) =~= Seq::<int>::empty());
        }
        while i > 0
            invariant
                all_wf(self.coeffs@),
                x.wf(),
                n == self.coeffs@.len(),
                i <= n,
                acc.wf(),
                acc.val() == eval(self@.subrange(i as int, n as int), x.val()),
            decreases i,
        {
            i = i - 1;
            assert(self.coeffs@[i as int].wf());
            let next = self.coeffs[i].add(&x.mul(&acc));
            proof {
                let m = field_modulus();
                let sub = self@.subrange(i as int, n as int);
                assert(sub.drop_first() =~= self@.subrange(i + 1, n as int));
                lemma_mod_idem(x.val() * acc.val());
                lemma_mod_idem(self@[i as int]);
                lemma_add_cong(self@[i as int], (x.val() * acc.val()) % m, self@[i as int], x.val() * acc.val());
            }
            acc = next;
        }
        assert(self@.subrange(0, n as int) =~= self@);
        acc
    }

    /// The sum of two polynomials.
    pub fn add(&self, o: &Poly) -> (r: Poly)
        requires
            self.wf(),
            o.wf(),
        ensures
            r.wf(),
            r@.len() <= self@.len() || r@.len() <= o@.len(),
            forall|i: int| 0 <= i ==> #[trigger] coeff(r@, i) == (coeff(self@, i) + coeff(o@, i)) % field_modulus(),
            forall|x: int| #[trigger] eval(r@, x) == (eval(self@, x) + eval(o@, x)) % field_modulus(),
    {
        let one = Fr::one();
        let _ = o.coeffs.len();
        let v = trim(add_scaled_shifted(&self.coeffs, &o.coeffs, &one, 0));
        let r = Poly { coeffs: v };
        proof {
            assert forall|x: int| #[trigger] eval(r@, x) == (1 * eval(self@, x) + 1 * eval(o@, x)) % field_modulus() by {
                lemma_eval_linear(r@, self@, o@, 1, 1, x);
            }
        }
        r
    }

    /// The difference of two polynomials.
    pub fn sub(&self, o: &Poly) -> (r: Poly)
        requires
            self.wf(),
            o.wf(),
        ensures
            r.wf(),
            r@.len() <= self@.len() || r@.len() <= o@.len(),
            forall|i: int| 0 <= i ==> #[trigger] coeff(r@, i) == (coeff(self@, i) - coeff(o@, i)) % field_modulus(),
            forall|x: int| #[trigger] eval(r@, x) == (eval(self@, x) - eval(o@, x)) % field_modulus(),
    {
        let minus_one = Fr::one().neg();
        let _ = o.coeffs.len();
        let v = trim(add_scaled_shifted(&self.coeffs, &o.coeffs, &minus_one, 0));
        let r = Poly { coeffs: v };
        proof {
            let m = field_modulus();
            lemma_modulus_pos();
            assert forall|i: int| 0 <= i implies #[trigger] coeff(r@, i) == (1 * coeff(self@, i) + (-1) * coeff(o@, i)) % m by {
                lemma_mod_idem(-1);
                lemma_mod_idem(coeff(self@, i));
                lemma_mul_cong(minus_one.val(), coeff(o@, i), -1, coeff(o@, i));
                lemma_add_cong(coeff(self@, i), minus_one.val() * coeff(o@, i), coeff(self@, i), (-1) * coeff(o@, i));
            }
            assert forall|x: int| #[trigger] eval(r@, x) == (1 * eval(self@, x) + (-1) * eval(o@, x)) % m by {
                lemma_eval_linear(r@, self@, o@, 1, -1, x);
            }
        }
        r
    }

    /// The product of two polynomials.
    pub fn mul(&self, o: &Poly) -> (r: Poly)
        requires
            self.wf(),
            o.wf(),
            self@.len() + o@.len() <= usize::MAX,
        ensures
            r.wf(),
            r@.len() <= if self@.len() == 0 || o@.len() == 0 { 0 } else { (self@.len() + o@.len() - 1) as nat },
            self@.len() > 0 && o@.len() > 0 && (self@.last() * o@.last()) % field_modulus() != 0 ==> r@.len() == self@.len() + o@.len() - 1
                && r@.last() == (self@.last() * o@.last()) % field_modulus(),
            forall|k: int| 0 <= k ==> #[trigger] coeff(r@, k) == product_coeff(self@, o@, k) % field_modulus(),
            forall|x: int| #[trigger] eval(r@, x) == (eval(self@, x) * eval(o@, x)) % field_modulus(),
    {
        let raw = mul_raw(&self.coeffs, &o.coeffs);
        let v = trim(raw);
        let r = Poly { coeffs: v };
        proof {
            lemma_values_canonical(raw@);
            if self@.len() > 0 && o@.len() > 0 && (self@.last() * o@.last()) % field_modulus() != 0 {
                let t = raw@.len() - 1;
                assert(coeff(values(raw@), t) != 0);
                assert(coeff(r@, t) != 0);
            }
            assert forall|x: int| #[trigger] eval(r@, x) == (eval(self@, x) * eval(o@, x)) % field_modulus() by {
                lemma_eval_same_coeffs(r@, values(raw@), x);
            }
        }
        r
    }
    /// Euclidean division: the quotient and remainder of `self` by a non-zero divisor.
    pub fn div(&self, b: &Poly) -> (res: (Poly, Poly))
        requires
            self.wf(),
            b.wf(),
            b@.len() > 0,
        ensures
            res.0.wf(),
            res.1.wf(),
            res.0@.len() <= self@.len(),
            res.0@.len() <= if self@.len() >= b@.len() { self@.len() - b@.len() + 1 } else { 0 },
            res.1@.len() < b@.len(),
            forall|k: int| 0 <= k ==> #[trigger] coeff(self@, k) == (product_coeff(res.0@, b@, k) + coeff(res.1@, k)) % field_modulus(),
            forall|x: int| #[trigger] eval(self@, x) == (eval(res.0@, x) * eval(b@, x) + eval(res.1@, x)) % field_modulus(),
    {
        let n = b.coeffs.len();
        let lead = b.coeffs[n - 1];
        assert(b.coeffs@[n - 1].wf());
        assert(lead.val() == b@.last());
        let inv = lead.invert().unwrap();
        let one = Fr::one();
        let empty: Vec<Fr> = Vec::new();
        let mut one_v: Vec<Fr> = Vec::new();
        one_v.push(one);
        proof {
            assert(values(one_v@) =~= seq![1int]);
            assert(values(empty@) =~= Seq::<int>::empty());
        }
        let _ = self.coeffs.len();
        let mut q: Vec<Fr> = Vec::new();
        let mut rem = add_scaled_shifted(&self.coeffs, &empty, &one, 0);
        proof {
            let m = field_modulus();
            lemma_values_canonical(self.coeffs@);
            assert forall|i: int| 0 <= i implies #[trigger] coeff(values(rem@), i) == coeff(self@, i) by {
                lemma_small_mod(coeff(self@, i) as nat, m as nat);
            }
            assert forall|k: int| 0 <= k implies #[trigger] coeff(self@, k) == (product_coeff(values(q@), b@, k) + coeff(values(rem@), k)) % m by {
                assert(values(q@) =~= Seq::<int>::empty());
                lemma_small_mod(coeff(self@, k) as nat, m as nat);
            }
            assert forall|x: int| #[trigger] eval(self@, x) == (eval(values(q@), x) * eval(b@, x) + eval(values(rem@), x)) % m by {
                lemma_eval_same_coeffs(values(rem@), self@, x);
                assert(values(q@) =~= Seq::<int>::empty());
                assert(0 * eval(b@, x) == 0);
                lemma_eval_range(self@, x);
                lemma_small_mod(eval(self@, x) as nat, m as nat);
            }
        }
        while rem.len() >= n
            invariant
                self.wf(),
                b.wf(),
                n == b@.len(),
                n > 0,
                lead.wf(),
                inv.wf(),
                lead.val() == b@[n - 1],
                (lead.val() * inv.val()) % field_modulus() == 1,
                all_wf(one_v@),
                one_v@.len() == 1,
                values(one_v@) == seq![1int],
                all_wf(q@),
                all_wf(rem@),
                q@.len() <= self@.len(),
                q@.len() <= if self@.len() >= n { self@.len() - n + 1 } else { 0 },
                rem@.len() <= self@.len(),
                forall|k: int| 0 <= k ==> #[trigger] coeff(self@, k) == (product_coeff(values(q@), b@, k) + coeff(values(rem@), k)) % field_modulus(),
                forall|x: int| #[trigger] eval(self@, x) == (eval(values(q@), x) * eval(b@, x) + eval(values(rem@), x)) % field_modulus(),
            decreases rem@.len(),
        {
            let top = rem.len() - 1;
            let k = rem.len() - n;
            assert(rem@[top as int].wf());
            let c = rem[top].mul(&inv);
            let nc = c.neg();
            let rem2 = add_scaled_shifted(&rem, &b.coeffs, &nc, k);
            let q2 = add_scaled_shifted(&q, &one_v, &c, k);
            proof {
                assert(coeff(values(rem2@), top as int) == (coeff(values(rem@), top as int) + nc.val() * coeff(b@, top - k)) % field_modulus());
                lemma_cancel(rem@[top as int].val(), c.val(), nc.val(), lead.val(), inv.val());
            }
            let mut rem3 = rem2;
            rem3.pop();
            proof {
                let m = field_modulus();
                lemma_values_canonical(rem2@);
                assert forall|i: int| 0 <= i implies #[trigger] coeff(values(rem3@), i) == coeff(values(rem2@), i) by {
                    if i < rem3@.len() {
                        assert(rem3@[i] == rem2@[i]);
                    }
                }
                let mono = shifted(seq![1int], k as nat);
                assert forall|j: int| 0 <= j implies #[trigger] coeff(values(q2@), j) == (coeff(values(q@), j) + c.val() * coeff(mono, j)) % m by {
                    assert(coeff(mono, j) == coeff(values(one_v@), j - k));
                }
                assert forall|kk: int| 0 <= kk implies #[trigger] coeff(self@, kk) == (product_coeff(values(q2@), b@, kk) + coeff(values(rem3@), kk)) % m by {
                    lemma_product_coeff_linear(values(q2@), values(q@), mono, c.val(), b@, kk);
                    lemma_product_coeff_monomial(k as nat, b@, kk);
                    assert(coeff(values(rem2@), kk) == (coeff(values(rem@), kk) + nc.val() * coeff(b@, kk - k)) % m);
                    lemma_div_step_coeff(
                        coeff(self@, kk),
                        product_coeff(values(q@), b@, kk),
                        coeff(values(rem@), kk),
                        coeff(b@, kk - k),
                        c.val(),
                        nc.val(),
                        product_coeff(values(q2@), b@, kk),
                        coeff(values(rem3@), kk),
                    );
                }
                assert forall|x: int| #[trigger] eval(self@, x) == (eval(values(q2@), x) * eval(b@, x) + eval(values(rem3@), x)) % m by {
                    lemma_eval_same_coeffs(values(rem3@), values(rem2@), x);
                    lemma_eval_add_scaled_shifted(values(rem2@), values(rem@), b@, nc.val(), k as nat, x);
                    lemma_eval_add_scaled_shifted(values(q2@), values(q@), values(one_v@), c.val(), k as nat, x);
                    assert(eval(seq![1int], x) == 1) by {
                        assert(seq![1int].drop_first() =~= Seq::<int>::empty());
                        assert(eval(Seq::<int>::empty(), x) == 0);
                        assert(x * 0 == 0);
                        lemma_small_mod(1, m as nat);
                    }
                    lemma_div_step(
                        eval(self@, x),
                        eval(values(q@), x),
                        eval(values(rem@), x),
                        eval(b@, x),
                        c.val(),
                        nc.val(),
                        pow(x, k as nat),
                        eval(values(one_v@), x),
                        eval(values(q2@), x),
                        eval(values(rem2@), x),
                    );
                }
            }
            q = q2;
            rem = rem3;
        }
        let qp = Poly::new(q);
        let rp = Poly::new(rem);
        proof {
            let m = field_modulus();
            assert forall|k: int| 0 <= k implies #[trigger] coeff(self@, k) == (product_coeff(qp@, b@, k) + coeff(rp@, k)) % m by {
                lemma_values_canonical(q@);
                assert forall|j: int| 0 <= j implies #[trigger] coeff(qp@, j) == (coeff(values(q@), j) + 0 * coeff(values(q@), j)) % m by {
                    lemma_small_mod(coeff(values(q@), j) as nat, m as nat);
                }
                lemma_product_coeff_linear(qp@, values(q@), values(q@), 0, b@, k);
                assert(0 * product_coeff(values(q@), b@, k) == 0);
                lemma_mod_idem(product_coeff(qp@, b@, k));
                lemma_mod_idem(coeff(rp@, k));
                lemma_add_cong(product_coeff(qp@, b@, k), coeff(rp@, k), product_coeff(values(q@), b@, k), coeff(rp@, k));
            }
        }
        (qp, rp)
    }
    /// The interpolating polynomial of degree below the number of points that passes
    /// through each of them, as the sum of `y_j` times the Lagrange basis polynomial of `x_j`.
    pub fn lagrange(points: &Vec<(Fr, Fr)>) -> (r: Poly)
        requires
            distinct_points(points@),
            points@.len() + 2 <= usize::MAX,
        ensures
            r.wf(),
            r@.len() <= points@.len(),
            forall|t: int| 0 <= t < points@.len() ==> #[trigger] eval(r@, points@[t].0.val()) == points@[t].1.val(),
    {
        let k = points.len();
        let mut acc: Vec<Fr> = Vec::new();
        let mut j: usize = 0;
        while j < k
            invariant
                distinct_points(points@),
                k == points@.len(),
                k + 2 <= usize::MAX,
                j <= k,
                all_wf(acc@),
                acc@.len() <= k,
                forall|t: int| 0 <= t < k ==> #[trigger] eval(values(acc@), points@[t].0.val()) == if t < j { points@[t].1.val() } else { 0 },
            decreases k - j,
        {
            let xj = points[j].0;
            let yj = points[j].1;
            assert(points@[j as int].0.wf() && points@[j as int].1.wf());
            let mut basis: Vec<Fr> = Vec::new();
            basis.push(Fr::one());
            proof {
                let m = field_modulus();
                assert(values(basis@) =~= seq![1int]);
                assert(seq![1int].drop_first() =~= Seq::<int>::empty());
                assert(eval(Seq::<int>::empty(), xj.val()) == 0);
                assert(xj.val() * 0 == 0);
                lemma_small_mod(1, m as nat);
            }
            let mut i: usize = 0;
            while i < k
                invariant
                    distinct_points(points@),
                    k == points@.len(),
                    k + 2 <= usize::MAX,
                    j < k,
                    i <= k,
                    xj == points@[j as int].0,
                    xj.wf(),
                    all_wf(basis@),
                    basis@.len() == if i <= j { i + 1 } else { i as int },
                    eval(values(basis@), xj.val()) == 1,
                    forall|t: int| 0 <= t < i && t != j ==> #[trigger] eval(values(basis@), points@[t].0.val()) == 0,
                decreases k - i,
            {
                if i != j {
                    let xi = points[i].0;
                    assert(points@[i as int].0.wf());
                    let d = xj.sub(&xi);
                    proof {
                        lemma_diff_nonzero(xj.val(), xi.val());
                    }
                    let inv = d.invert().unwrap();
                    let c0 = xi.neg().mul(&inv);
                    let mut factor: Vec<Fr> = Vec::new();
                    factor.push(c0);
                    factor.push(inv);
                    let next = mul_raw(&basis, &factor);
                    proof {
                        let m = field_modulus();
                        assert(values(factor@) =~= seq![c0.val(), inv.val()]);
                        lemma_factor_values(xi.val(), xj.val(), d.val(), inv.val(), c0.val());
                        lemma_small_mod(1, m as nat);
                        lemma_eval_pair(c0.val(), inv.val(), xj.val());
                        lemma_eval_pair(c0.val(), inv.val(), xi.val());
                        assert(eval(values(next@), xj.val()) == 1);
                        assert forall|t: int| 0 <= t < i + 1 && t != j implies #[trigger] eval(values(next@), points@[t].0.val()) == 0 by {
                            let xt = points@[t].0.val();
                            assert(eval(values(next@), xt) == (eval(values(basis@), xt) * eval(values(factor@), xt)) % m);
                            if t == i {
                                assert(eval(values(basis@), xt) * 0 == 0);
                            } else {
                                assert(0 * eval(values(factor@), xt) == 0);
                            }
                        }
                    }
                    basis = next;
                }
                i = i + 1;
            }
            let acc2 = add_scaled_shifted(&acc, &basis, &yj, 0);
            proof {
                let m = field_modulus();
                lemma_pow0(xj.val());
                lemma_small_mod(1, m as nat);
                assert forall|t: int| 0 <= t < k implies #[trigger] eval(values(acc2@), points@[t].0.val()) == if t < j + 1 { points@[t].1.val() } else { 0 } by {
                    let xt = points@[t].0.val();
                    lemma_eval_add_scaled_shifted(values(acc2@), values(acc@), values(basis@), yj.val(), 0, xt);
                    lemma_pow0(xt);
                    lemma_eval_range(values(acc@), xt);
                    lemma_small_mod(eval(values(acc@), xt) as nat, m as nat);
                    assert(points@[t].1.wf());
                    lemma_small_mod(yj.val() as nat, m as nat);
                    let e = eval(values(acc2@), xt);
                    if t != j {
                        assert(eval(values(basis@), xt) == 0);
                        assert(pow(xt, 0) * 0 == 0);
                        assert(0int % m == 0);
                        assert(yj.val() * 0 == 0);
                        assert(e == (eval(values(acc@), xt) + 0) % m);
                    } else {
                        assert(xt == xj.val());
                        assert(eval(values(basis@), xt) == 1);
                        assert(pow(xt, 0) * 1 == 1);
                        assert(yj.val() * 1 == yj.val());
                        assert(eval(values(acc@), xt) == 0);
                        assert(e == (0 + yj.val()) % m);
                    }
                }
            }
            acc = acc2;
            j = j + 1;
        }
        Poly::new(acc)
    }
}

} // verus!
