//! Polynomials as coefficient sequences, their evaluation, and the even/odd
//! split that the radix-2 transform rests on.
use vstd::prelude::*;
use vstd::arithmetic::power::*;
use vstd::arithmetic::power2::*;
use crate::bitrev::rev;
use crate::field::{congruent, lemma_congruent_ops, lemma_modp_congruent, modp, values_of, Felt};

verus! {

/// The value at `x` of the polynomial with coefficients `a` (low degree first),
/// over the integers.
pub open spec fn eval(a: Seq<int>, x: int) -> int
    decreases a.len(),
{
    if a.len() == 0 {
        0
    } else {
        a[0] + x * eval(a.subrange(1, a.len() as int), x)
    }
}

/// The coefficients at even indices.
pub open spec fn evens(a: Seq<int>) -> Seq<int> {
    Seq::new(((a.len() + 1) / 2) as nat, |j: int| a[2 * j])
}

/// The coefficients at odd indices.
pub open spec fn odds(a: Seq<int>) -> Seq<int> {
    Seq::new((a.len() / 2) as nat, |j: int| a[2 * j + 1])
}

/// The values of `a` at the powers `w^rev(j, b)`, reduced: the transform of `a`
/// in bit-reversed order, for `a` of length `2^b`.
pub open spec fn ntt_bitrev(a: Seq<int>, w: int, b: nat) -> Seq<int> {
    Seq::new(a.len(), |j: int| modp(eval(a, pow(w, rev(j as nat, b)))))
}

/// The values of `a` at `g^0, g^1, ...`, reduced: the transform in natural order.
pub open spec fn evaluations(a: Seq<int>, g: int) -> Seq<int> {
    Seq::new(a.len(), |k: int| modp(eval(a, pow(g, k as nat))))
}

/// `g^0, g^1, ..., g^(k-1)`, reduced.
pub open spec fn power_series_spec(g: int, k: nat) -> Seq<int> {
    Seq::new(k, |j: int| modp(pow(g, j as nat)))
}

/// `a(x) == evens(a)(x^2) + x * odds(a)(x^2)`.
pub proof fn lemma_eval_split(a: Seq<int>, x: int)
    ensures
        eval(a, x) == eval(evens(a), x * x) + x * eval(odds(a), x * x),
    decreases a.len(),
{
    if a.len() == 0 {
    } else if a.len() == 1 {
        assert(evens(a).subrange(1, 1) =~= Seq::<int>::empty());
        assert(a.subrange(1, 1) =~= Seq::<int>::empty());
        assert(odds(a).len() == 0);
        assert(evens(a).len() == 1 && evens(a)[0] == a[0]);
        assert(eval(a.subrange(1, 1), x) == 0);
        assert(eval(evens(a).subrange(1, 1), x * x) == 0);
        assert(eval(a, x) == a[0] + x * 0);
        assert(eval(evens(a), x * x) == a[0] + (x * x) * 0);
        assert(x * 0 == 0 && (x * x) * 0 == 0) by (nonlinear_arith);
    } else {
        let rest = a.subrange(2, a.len() as int);
        lemma_eval_split(rest, x);
        let t = a.subrange(1, a.len() as int);
        assert(t.subrange(1, t.len() as int) =~= rest);
        assert(evens(a).subrange(1, evens(a).len() as int) =~= evens(rest));
        assert(odds(a).subrange(1, odds(a).len() as int) =~= odds(rest));
        let er = eval(evens(rest), x * x);
        let or = eval(odds(rest), x * x);
        assert(eval(t, x) == a[1] + x * eval(rest, x));
        assert(eval(a, x) == a[0] + x * (a[1] + x * eval(rest, x)));
        assert(eval(evens(a), x * x) == a[0] + (x * x) * er);
        assert(eval(odds(a), x * x) == a[1] + (x * x) * or);
        assert(a[0] + x * (a[1] + x * (er + x * or)) == (a[0] + (x * x) * er) + x * (a[1] + (x * x)
            * or)) by (nonlinear_arith);
    }
}

/// Evaluation at congruent points gives congruent values.
pub proof fn lemma_eval_congruent(a: Seq<int>, x: int, y: int)
    requires
        congruent(x, y),
    ensures
        congruent(eval(a, x), eval(a, y)),
    decreases a.len(),
{
    if a.len() > 0 {
        let t = a.subrange(1, a.len() as int);
        lemma_eval_congruent(t, x, y);
        lemma_congruent_ops(x, y, eval(t, x), eval(t, y));
        lemma_congruent_ops(a[0], a[0], x * eval(t, x), y * eval(t, y));
    }
}

/// The two outputs of one butterfly of the combine step are the transform's
/// values at indices `2i` and `2i + 1` (bit-reversed order).
pub proof fn lemma_butterfly(a: Seq<int>, w: int, b: nat, i: nat, e: int, o: int, t: int)
    requires
        b >= 1,
        a.len() == pow2(b),
        congruent(pow(w, pow2((b - 1) as nat)), -1),
        e == modp(eval(evens(a), pow(w * w, rev(i, (b - 1) as nat)))),
        o == modp(eval(odds(a), pow(w * w, rev(i, (b - 1) as nat)))),
        t == modp(pow(w, rev(i, (b - 1) as nat))),
    ensures
        modp(e + modp(t * o)) == modp(eval(a, pow(w, rev(2 * i, b)))),
        modp(e - modp(t * o)) == modp(eval(a, pow(w, rev(2 * i + 1, b)))),
{
    let r = rev(i, (b - 1) as nat);
    let h = pow2((b - 1) as nat);
    crate::bitrev::lemma_rev_even_odd(i, b);
    let x = pow(w, r);
    lemma_pow_adds(w, r, r);
    lemma_square_is_pow2(w);
    lemma_pow_multiplies(w, 2, r);
    assert(pow(w * w, r) == x * x);
    let ev = eval(evens(a), x * x);
    let od = eval(odds(a), x * x);
    lemma_eval_split(a, x);
    lemma_modp_congruent(eval(evens(a), x * x));
    lemma_modp_congruent(eval(odds(a), x * x));
    lemma_modp_congruent(x);
    lemma_congruent_ops(t, x, o, od);
    lemma_modp_congruent(t * o);
    lemma_congruent_ops(modp(t * o), t * o, 0, 0);
    lemma_congruent_ops(e, ev, modp(t * o), x * od);
    // the odd output: the point is w^h * x, congruent to -x
    let x2 = pow(w, h + r);
    lemma_pow_adds(w, h, r);
    lemma_congruent_ops(pow(w, h), -1, x, x);
    assert(congruent(x2, -x));
    lemma_congruent_ops(x2, -x, x2, -x);
    assert((-x) * (-x) == x * x) by (nonlinear_arith);
    lemma_eval_congruent(evens(a), x2 * x2, x * x);
    lemma_eval_congruent(odds(a), x2 * x2, x * x);
    lemma_eval_split(a, x2);
    lemma_congruent_ops(x2, -x, eval(odds(a), x2 * x2), od);
    assert((-x) * od == -(x * od)) by (nonlinear_arith);
    lemma_congruent_ops(eval(evens(a), x2 * x2), ev, x2 * eval(odds(a), x2 * x2), -(x * od));
    lemma_congruent_ops(e, ev, modp(t * o), x * od);
    lemma_modp_congruent(e + modp(t * o));
    lemma_modp_congruent(e - modp(t * o));
}

/// `[g^0, g^1, ..., g^(k-1)]`, each from the one before by one multiplication.
pub fn power_series(g: Felt, k: usize) -> (r: Vec<Felt>)
    ensures
        values_of(r@) == power_series_spec(g@, k as nat),
{
    let mut r: Vec<Felt> = Vec::new();
    let mut acc = Felt::one();
    let mut j: usize = 0;
    proof {
        lemma_pow0(g@);
        crate::field::lemma_small_canonical(1);
    }
    while j < k
        invariant
            j <= k,
            r.len() == j,
            acc@ == modp(pow(g@, j as nat)),
            forall|i: int| 0 <= i < j ==> #[trigger] r@[i]@ == modp(pow(g@, i as nat)),
        decreases k - j,
    {
        r.push(acc);
        let ghost prev = acc@;
        acc = acc.mul(g);
        proof {
            lemma_pow_adds(g@, j as nat, 1);
            lemma_pow1(g@);
            lemma_modp_congruent(pow(g@, j as nat));
            lemma_congruent_ops(prev, pow(g@, j as nat), g@, g@);
        }
        j = j + 1;
    }
    proof {
        assert(values_of(r@) =~= power_series_spec(g@, k as nat));
    }
    r
}

/// The value of the polynomial with coefficients `coeffs` at `x`, by Horner's rule.
pub fn evaluate(coeffs: &Vec<Felt>, x: Felt) -> (r: Felt)
    ensures
        r@ == modp(eval(values_of(coeffs@), x@)),
{
    let ghost c = values_of(coeffs@);
    let n = coeffs.len();
    let mut acc = Felt::zero();
    let mut j: usize = n;
    proof {
        assert(c.subrange(n as int, n as int) =~= Seq::<int>::empty());
        crate::field::lemma_small_canonical(0);
    }
    while j > 0
        invariant
            j <= n,
            n == coeffs.len(),
            c == values_of(coeffs@),
            acc@ == modp(eval(c.subrange(j as int, n as int), x@)),
        decreases j,
    {
        j = j - 1;
        let ghost prev = acc@;
        let t = x.mul(acc);
        acc = coeffs[j].add(t);
        proof {
            let tail = c.subrange(j + 1, n as int);
            let here = c.subrange(j as int, n as int);
            assert(here.subrange(1, here.len() as int) =~= tail);
            assert(eval(here, x@) == c[j as int] + x@ * eval(tail, x@));
            lemma_modp_congruent(eval(tail, x@));
            lemma_congruent_ops(x@, x@, prev, eval(tail, x@));
            lemma_modp_congruent(x@ * prev);
            lemma_congruent_ops(c[j as int], c[j as int], t@, x@ * eval(tail, x@));
            lemma_modp_congruent(c[j as int] + t@);
        }
    }
    proof {
        assert(c.subrange(0, n as int) =~= c);
    }
    acc
}

/// The polynomial with coefficients `coeffs` evaluated at each of `points`.
pub fn eval_many(coeffs: &Vec<Felt>, points: &Vec<Felt>) -> (r: Vec<Felt>)
    ensures
        r.len() == points.len(),
        forall|i: int| 0 <= i < points.len() ==> #[trigger] r@[i]@ == modp(eval(values_of(coeffs@), points@[i]@)),
{
    let mut r: Vec<Felt> = Vec::new();
    let mut i: usize = 0;
    while i < points.len()
        invariant
            i <= points.len(),
            r.len() == i,
            forall|k: int| 0 <= k < i ==> #[trigger] r@[k]@ == modp(eval(values_of(coeffs@), points@[k]@)),
        decreases points.len() - i,
    {
        let v = evaluate(coeffs, points[i]);
        r.push(v);
        i = i + 1;
    }
    r
}

} // verus!
