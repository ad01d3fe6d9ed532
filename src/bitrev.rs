//! Bit reversal of indices and the in-place permutation it induces.
use vstd::prelude::*;
use vstd::arithmetic::power2::*;

verus! {

/// The integer formed by reversing the low `b` bits of `i`.
pub open spec fn rev(i: nat, b: nat) -> nat
    decreases b,
{
    if b == 0 {
        0
    } else {
        (i % 2) * pow2((b - 1) as nat) + rev(i / 2, (b - 1) as nat)
    }
}

/// The base-two logarithm of `n`, rounded down (and 0 for 0).
pub open spec fn log2(n: nat) -> nat
    decreases n,
{
    if n <= 1 {
        0
    } else {
        1 + log2(n / 2)
    }
}

/// `n` is a power of two.
pub open spec fn is_power_of_two(n: nat) -> bool {
    pow2(log2(n)) == n
}

/// The sequence whose element at index `i` is `s[rev(i, b)]`, for `s` of length `2^b`.
pub open spec fn permuted<T>(s: Seq<T>, b: nat) -> Seq<T> {
    Seq::new(s.len(), |i: int| s[rev(i as nat, b) as int])
}

/// A reversal of `b` bits is below `2^b`.
pub proof fn lemma_rev_bound(i: nat, b: nat)
    ensures
        rev(i, b) < pow2(b),
    decreases b,
{
    if b > 0 {
        lemma_rev_bound(i / 2, (b - 1) as nat);
        lemma_pow2_unfold(b);
        assert((i % 2) * pow2((b - 1) as nat) <= pow2((b - 1) as nat)) by (nonlinear_arith)
            requires
                i % 2 <= 1,
        ;
    } else {
        lemma_pow2_pos(0);
        lemma2_to64();
    }
}

/// Reversing `y < 2^(b-1)` with a top bit `c` set in front puts `c` at the bottom.
pub proof fn lemma_rev_top_bit(c: nat, y: nat, b: nat)
    requires
        b >= 1,
        c <= 1,
        y < pow2((b - 1) as nat),
    ensures
        rev(c * pow2((b - 1) as nat) + y, b) == 2 * rev(y, (b - 1) as nat) + c,
    decreases b,
{
    let x = c * pow2((b - 1) as nat) + y;
    if b == 1 {
        lemma2_to64();
        assert(rev(x / 2, 0) == 0);
    } else {
        lemma_pow2_unfold((b - 1) as nat);
        let h = pow2((b - 2) as nat);
        let y2 = y / 2;
        assert(x / 2 == c * h + y2 && x % 2 == y % 2) by (nonlinear_arith)
            requires
                x == c * pow2((b - 1) as nat) + y,
                pow2((b - 1) as nat) == 2 * h,
                y2 == y / 2,
        ;
        assert(y2 < h);
        lemma_rev_top_bit(c, y2, (b - 1) as nat);
        assert(rev(y, (b - 1) as nat) == (y % 2) * h + rev(y2, (b - 2) as nat));
        assert(rev(x, b) == (y % 2) * pow2((b - 1) as nat) + 2 * rev(y2, (b - 2) as nat) + c);
        assert((y % 2) * pow2((b - 1) as nat) == 2 * ((y % 2) * h)) by (nonlinear_arith)
            requires
                pow2((b - 1) as nat) == 2 * h,
        ;
    }
}

/// Bit reversal is an involution on `[0, 2^b)`.
pub proof fn lemma_rev_involution(i: nat, b: nat)
    requires
        i < pow2(b),
    ensures
        rev(rev(i, b), b) == i,
    decreases b,
{
    if b == 0 {
        lemma2_to64();
    } else {
        lemma_pow2_unfold(b);
        let q = i / 2;
        let r0 = i % 2;
        lemma_rev_bound(q, (b - 1) as nat);
        lemma_rev_involution(q, (b - 1) as nat);
        lemma_rev_top_bit(r0, rev(q, (b - 1) as nat), b);
    }
}

/// An even index `2i` reverses to `rev(i, b-1)`, and its odd neighbour `2i + 1`
/// to the same plus `2^(b-1)`.
pub proof fn lemma_rev_even_odd(i: nat, b: nat)
    requires
        b >= 1,
    ensures
        rev(2 * i, b) == rev(i, (b - 1) as nat),
        rev(2 * i + 1, b) == pow2((b - 1) as nat) + rev(i, (b - 1) as nat),
{
    assert((2 * i) / 2 == i && (2 * i) % 2 == 0);
    assert((2 * i + 1) / 2 == i && (2 * i + 1) % 2 == 1);
}

/// For `i < 2^(b-1)`, one more bit of width doubles the reversal.
pub proof fn lemma_rev_widen(i: nat, b: nat)
    requires
        b >= 1,
        i < pow2((b - 1) as nat),
    ensures
        rev(i, b) == 2 * rev(i, (b - 1) as nat),
{
    lemma_rev_top_bit(0, i, b);
}

/// The logarithm of `2^m` is `m`.
pub proof fn lemma_log2_pow2(m: nat)
    ensures
        log2(pow2(m)) == m,
    decreases m,
{
    if m == 0 {
        lemma2_to64();
    } else {
        lemma_pow2_unfold(m);
        lemma_pow2_pos((m - 1) as nat);
        lemma_log2_pow2((m - 1) as nat);
    }
}

/// The low `bits` bits of `i`, reversed.
pub fn reverse_bits(i: usize, bits: u32) -> (r: usize)
    requires
        pow2(bits as nat) <= usize::MAX,
    ensures
        r == rev(i as nat, bits as nat),
{
    let mut x: usize = i;
    let mut r: usize = 0;
    let mut t: u32 = 0;
    proof {
        lemma2_to64();
    }
    while t < bits
        invariant
            t <= bits,
            pow2(bits as nat) <= usize::MAX,
            r < pow2(t as nat),
            rev(i as nat, bits as nat) == r * pow2((bits - t) as nat) + rev(x as nat, (bits - t) as nat),
        decreases bits - t,
    {
        proof {
            lemma_pow2_unfold((bits - t) as nat);
            lemma_pow2_unfold((t + 1) as nat);
            if t + 1 < bits {
                lemma_pow2_strictly_increases((t + 1) as nat, bits as nat);
            }
            let k = pow2((bits - t - 1) as nat);
            assert(r * pow2((bits - t) as nat) == (2 * r) * k) by (nonlinear_arith)
                requires
                    pow2((bits - t) as nat) == 2 * k,
            ;
            assert((2 * r + x % 2) * k == (2 * r) * k + (x % 2) * k) by (nonlinear_arith);
            assert(x % 2 <= 1);
            assert(2 * r + x % 2 < pow2((t + 1) as nat));
        }
        let bit: usize = x % 2;
        r = r * 2 + bit;
        x = x / 2;
        t = t + 1;
    }
    proof {
        lemma2_to64();
        assert(t == bits);
        assert(rev(x as nat, 0) == 0);
        assert(r * pow2(0) == r);
    }
    r
}

/// The exponent `m` with `n == 2^m`, for `n` a power of two.
pub fn log2_exact(n: usize) -> (m: u32)
    requires
        is_power_of_two(n as nat),
    ensures
        m as nat == log2(n as nat),
        m < 64,
        pow2(m as nat) == n,
{
    let mut p: usize = 1;
    let mut m: u32 = 0;
    proof {
        lemma_pow2_pos(log2(n as nat));
        lemma2_to64();
        lemma2_to64_rest();
        if log2(n as nat) > 64 {
            lemma_pow2_strictly_increases(64, log2(n as nat));
        }
    }
    while p < n
        invariant
            p == pow2(m as nat),
            m <= log2(n as nat),
            pow2(log2(n as nat)) == n,
            log2(n as nat) < 64,
        decreases n - p,
    {
        proof {
            if m == log2(n as nat) {
                assert(false);
            }
            lemma_pow2_unfold((m + 1) as nat);
            lemma_pow2_pos(m as nat);
            if m + 1 < log2(n as nat) {
                lemma_pow2_strictly_increases((m + 1) as nat, log2(n as nat));
            }
        }
        p = p * 2;
        m = m + 1;
    }
    proof {
        if m < log2(n as nat) {
            lemma_pow2_strictly_increases(m as nat, log2(n as nat));
        }
    }
    m
}

/// Reorders `values` in place so that the element at index `i` moves to index
/// `rev(i, log2(n))`, swapping each pair once.
pub fn bit_reverse_permute<T: Copy>(values: &mut Vec<T>)
    requires
        is_power_of_two(old(values).len() as nat),
    ensures
        final(values)@ == permuted(old(values)@, log2(old(values).len() as nat)),
{
    let n = values.len();
    let bits = log2_exact(n);
    let ghost b = bits as nat;
    let ghost orig = values@;
    let mut k: usize = 0;
    while k < n
        invariant
            n == values.len(),
            n == orig.len(),
            pow2(b) == n,
            bits as nat == b,
            k <= n,
            forall|q: int|
                0 <= q < n ==> #[trigger] values@[q] == if q < k || rev(q as nat, b) < k {
                    orig[rev(q as nat, b) as int]
                } else {
                    orig[q]
                },
        decreases n - k,
    {
        let j = reverse_bits(k, bits);
        proof {
            lemma_rev_bound(k as nat, b);
            lemma_rev_involution(k as nat, b);
            assert forall|q: int| 0 <= q < n implies #[trigger] rev(rev(q as nat, b), b) == q by {
                lemma_rev_involution(q as nat, b);
            }
        }
        if k < j {
            let a = values[k];
            let c = values[j];
            values.set(k, c);
            values.set(j, a);
        }
        k = k + 1;
    }
    proof {
        assert(values@ =~= permuted(orig, b));
    }
}

/// Applying the permutation twice gives back the original sequence.
pub proof fn lemma_permuted_twice<T>(s: Seq<T>, b: nat)
    requires
        s.len() == pow2(b),
    ensures
        permuted(permuted(s, b), b) == s,
{
    assert forall|i: int| 0 <= i < s.len() implies #[trigger] permuted(permuted(s, b), b)[i] == s[i] by {
        lemma_rev_bound(i as nat, b);
        lemma_rev_involution(i as nat, b);
    }
    assert(permuted(permuted(s, b), b) =~= s);
}

/// Indices paired by the permutation square alike modulo the length: for
/// `n = 2^b` with `b >= 2` and `k < n / 2`, `rev(2k)^2` and `rev(2k + 1)^2`
/// agree modulo `n`, since the two differ by exactly `n / 2`.
pub proof fn lemma_paired_squares(k: nat, b: nat)
    requires
        b >= 2,
        k < pow2((b - 1) as nat),
    ensures
        (rev(2 * k, b) * rev(2 * k, b)) % pow2(b) == (rev(2 * k + 1, b) * rev(2 * k + 1, b)) % pow2(b),
{
    lemma_rev_even_odd(k, b);
    lemma_pow2_unfold(b);
    lemma_pow2_unfold((b - 1) as nat);
    let r = rev(2 * k, b) as int;
    let h = pow2((b - 2) as nat) as int;
    let n = pow2(b) as int;
    lemma_pow2_pos((b - 2) as nat);
    assert((r + 2 * h) * (r + 2 * h) == r * r + n * (r + h)) by (nonlinear_arith)
        requires
            n == 4 * h,
    ;
    vstd::arithmetic::div_mod::lemma_mod_multiples_vanish(r + h, r * r, n);
}

} // verus!
