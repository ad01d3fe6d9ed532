//! The in-place radix-2 decimation-in-time transform over strided views of one
//! buffer, with a size threshold above which the two half-size transforms run
//! on task-local buffers of their own.
use vstd::prelude::*;
use vstd::arithmetic::div_mod::{lemma_fundamental_div_mod_converse, lemma_mod_mod};
use vstd::arithmetic::power::*;
use vstd::arithmetic::power2::*;
use crate::bitrev::{
    bit_reverse_permute, is_power_of_two, lemma_log2_pow2, lemma_rev_bound, lemma_rev_involution,
    lemma_rev_widen, log2, log2_exact, permuted, rev,
};
use crate::field::{
    congruent, lemma_root_of_unity_order, lemma_small_canonical, modp, root_spec, values_of, Felt,
    TWO_ADICITY,
};
use crate::poly::{
    eval, evaluations, evens, lemma_butterfly, lemma_eval_congruent, ntt_bitrev, odds, power_series,
    power_series_spec,
};

verus! {

/// Half-sizes from this one up are transformed on separate buffers, ready to
/// be handed to separate tasks.
pub const MIN_CONCURRENT_SIZE: usize = 1024;

/// The values at `o, o + st, o + 2 st, ...`, `n` of them.
pub open spec fn strided(s: Seq<Felt>, o: int, st: int, n: nat) -> Seq<int> {
    Seq::new(n, |j: int| s[o + j * st]@)
}

/// The twiddle table for a transform of size `2^m`: the first `2^(m-1)` powers
/// of the root of unity of order `2^m`, in bit-reversed order.
pub open spec fn twiddles_spec(m: nat) -> Seq<int> {
    permuted(power_series_spec(root_spec(m), pow2((m - 1) as nat)), (m - 1) as nat)
}

/// `tw` holds, at each `i < 2^(b-1)`, the reduced power `w^rev(i, b-1)`, and
/// `w^(2^(b-1))` stands for `-1`: what a transform of size `2^b` with root `w` needs.
pub open spec fn twiddles_fit(tw: Seq<Felt>, w: int, b: nat) -> bool {
    &&& (b >= 1 ==> congruent(pow(w, pow2((b - 1) as nat)), -1))
    &&& pow2(b) / 2 <= tw.len()
    &&& forall|i: int|
        0 <= i < pow2(b) / 2 ==> #[trigger] tw[i]@ == modp(pow(w, rev(i as nat, (b - 1) as nat)))
}

/// Position `o + k st` of a view with `o < st` lies in residue class `o`, at index `k`.
proof fn lemma_position(o: int, st: int, k: int)
    requires
        0 <= o < st,
        k >= 0,
    ensures
        (o + k * st) % st == o,
        (o + k * st) / st == k,
{
    lemma_fundamental_div_mod_converse(o + k * st, st, k, o);
}

/// Where the `i`-th elements of the even and odd half-views of a view
/// `(o, st)` of size `2 half` stand.
proof fn lemma_half_positions(o: int, st: int, half: int, i: int)
    requires
        0 <= o < st,
        0 <= i < half,
    ensures
        (o + i * (2 * st)) % (2 * st) == o,
        (o + i * (2 * st)) / (2 * st) == i,
        (o + st + i * (2 * st)) % (2 * st) == o + st,
        (o + st + i * (2 * st)) / (2 * st) == i,
        (o + i * (2 * st)) % st == o,
        (o + st + i * (2 * st)) % st == o,
        o + st + i * (2 * st) < st * (2 * half),
        0 <= o + i * (2 * st),
        0 <= i * (2 * st),
        2 * st <= st * (2 * half),
{
    lemma_position(o, 2 * st, i);
    lemma_position(o + st, 2 * st, i);
    lemma_position(o, st, 2 * i);
    lemma_position(o, st, 2 * i + 1);
    assert(o + i * (2 * st) == o + (2 * i) * st) by (nonlinear_arith);
    assert(o + st + i * (2 * st) == o + (2 * i + 1) * st) by (nonlinear_arith);
    assert(o + st + i * (2 * st) < st * (2 * half)) by (nonlinear_arith)
        requires
            0 <= o < st,
            0 <= i < half,
    ;
    assert(0 <= i * (2 * st)) by (nonlinear_arith)
        requires
            0 <= i,
            0 < st,
    ;
    assert(2 * st <= st * (2 * half)) by (nonlinear_arith)
        requires
            0 <= i < half,
            0 < st,
    ;
}

/// A position outside the view `(o, st)` is outside both of its half-views.
proof fn lemma_outside_halves(p: int, o: int, st: int)
    requires
        0 <= o < st,
        p >= 0,
        p % st != o,
    ensures
        p % (2 * st) != o,
        p % (2 * st) != o + st,
{
    lemma_mod_mod(p, st, 2);
    assert(st * 2 == 2 * st);
    lemma_position(o, st, 0);
    lemma_position(o, st, 1);
}

/// The even and odd half-views of a view are the even and odd parts of its values.
proof fn lemma_interleave(s: Seq<Felt>, o: int, st: int, half: nat)
    ensures
        evens(strided(s, o, st, 2 * half)) =~= strided(s, o, 2 * st, half),
        odds(strided(s, o, st, 2 * half)) =~= strided(s, o + st, 2 * st, half),
        forall|i: int|
            0 <= i < half ==> #[trigger] strided(s, o, st, 2 * half)[2 * i] == strided(s, o, 2 * st, half)[i],
        forall|i: int|
            0 <= i < half ==> #[trigger] strided(s, o, st, 2 * half)[2 * i + 1] == strided(s, o + st, 2 * st, half)[i],
{
    assert forall|i: int| 0 <= i < half implies #[trigger] strided(s, o, st, 2 * half)[2 * i] == strided(
        s,
        o,
        2 * st,
        half,
    )[i] by {
        assert(o + (2 * i) * st == o + i * (2 * st)) by (nonlinear_arith);
    }
    assert forall|i: int| 0 <= i < half implies #[trigger] strided(s, o, st, 2 * half)[2 * i + 1] == strided(
        s,
        o + st,
        2 * st,
        half,
    )[i] by {
        assert(o + (2 * i + 1) * st == o + st + i * (2 * st)) by (nonlinear_arith);
    }
}

/// The table that fits a transform of size `2^b` with root `w` fits the half-size
/// transforms with root `w^2`: they read its first half.
proof fn lemma_twiddles_fit_square(tw: Seq<Felt>, w: int, b: nat)
    requires
        b >= 1,
        twiddles_fit(tw, w, b),
    ensures
        twiddles_fit(tw, w * w, (b - 1) as nat),
{
    lemma_pow2_unfold(b);
    lemma_square_is_pow2(w);
    if b >= 2 {
        lemma_pow2_unfold((b - 1) as nat);
        lemma_pow_multiplies(w, 2, pow2((b - 2) as nat));
        assert forall|i: int| 0 <= i < pow2((b - 1) as nat) / 2 implies #[trigger] tw[i]@ == modp(
            pow(w * w, rev(i as nat, (b - 2) as nat))) by {
            lemma_rev_widen(i as nat, (b - 1) as nat);
            lemma_pow_multiplies(w, 2, rev(i as nat, (b - 2) as nat));
        }
    } else {
        lemma2_to64();
    }
}

/// Transforms the view `(offset, stride)` of `size` elements in place into
/// bit-reversed order; the rest of `values` is left as it was.
fn transform_view(
    values: &mut Vec<Felt>,
    twiddles: &Vec<Felt>,
    offset: usize,
    stride: usize,
    size: usize,
    threshold: usize,
    Ghost(b): Ghost<nat>,
    Ghost(w): Ghost<int>,
)
    requires
        offset < stride,
        old(values).len() == stride * size,
        size == pow2(b),
        twiddles_fit(twiddles@, w, b),
    ensures
        final(values).len() == old(values).len(),
        strided(final(values)@, offset as int, stride as int, size as nat) == ntt_bitrev(
            strided(old(values)@, offset as int, stride as int, size as nat),
            w,
            b,
        ),
        forall|p: int|
            0 <= p < old(values).len() && p % (stride as int) != offset ==> #[trigger] final(values)@[p]
                == old(values)@[p],
    decreases size, 1nat,
{
    let ghost a = strided(values@, offset as int, stride as int, size as nat);
    if size == 1 {
        assert(stride * size == stride) by (nonlinear_arith)
            requires
                size == 1,
        ;
        let c: u64 = values[offset].as_int();
        proof {
            assert(offset + 0 * stride == offset);
            assert(a[0] == c);
            assert(a.subrange(1, 1) =~= Seq::<int>::empty());
            assert(eval(a.subrange(1, 1), pow(w, rev(0, b))) == 0);
            assert(eval(a, pow(w, rev(0, b))) == a[0] + pow(w, rev(0, b)) * 0);
            assert(pow(w, rev(0, b)) * 0 == 0) by (nonlinear_arith);
            lemma_small_canonical(c as int);
            assert(strided(values@, offset as int, stride as int, size as nat) =~= ntt_bitrev(a, w, b));
        }
        return;
    }
    proof {
        if b == 0 {
            lemma2_to64();
        }
        lemma_pow2_unfold(b);
    }
    let half = size / 2;
    if half >= threshold {
        transform_halves_apart(values, twiddles, offset, stride, half, threshold, Ghost(b), Ghost(w));
    } else {
        transform_halves_in_place(values, twiddles, offset, stride, half, threshold, Ghost(b), Ghost(w));
    }
    butterflies(values, twiddles, offset, stride, half, Ghost(b), Ghost(w), Ghost(a));
    proof {
        let t = ntt_bitrev(a, w, b);
        lemma_interleave(values@, offset as int, stride as int, half as nat);
        assert forall|j: int| 0 <= j < size implies #[trigger] strided(
            values@,
            offset as int,
            stride as int,
            size as nat,
        )[j] == t[j] by {
            let i = j / 2;
            assert(size == 2 * half);
            if j % 2 == 0 {
                assert(j == 2 * i);
                assert(strided(values@, offset as int, stride as int, (2 * half) as nat)[2 * i] == t[2 * i]);
            } else {
                assert(j == 2 * i + 1);
                assert(strided(values@, offset as int, stride as int, (2 * half) as nat)[2 * i + 1] == t[2 * i + 1]);
            }
        }
        assert(strided(values@, offset as int, stride as int, size as nat) =~= t);
    }
}

/// The two half-size transforms of the view, each on the buffer itself with a
/// doubled stride.
fn transform_halves_in_place(
    values: &mut Vec<Felt>,
    twiddles: &Vec<Felt>,
    offset: usize,
    stride: usize,
    half: usize,
    threshold: usize,
    Ghost(b): Ghost<nat>,
    Ghost(w): Ghost<int>,
)
    requires
        offset < stride,
        b >= 1,
        old(values).len() == stride * (2 * half),
        half == pow2((b - 1) as nat),
        twiddles_fit(twiddles@, w, b),
    ensures
        final(values).len() == old(values).len(),
        strided(final(values)@, offset as int, 2 * stride, half as nat) == ntt_bitrev(
            evens(strided(old(values)@, offset as int, stride as int, 2 * half as nat)),
            w * w,
            (b - 1) as nat,
        ),
        strided(final(values)@, offset + stride, 2 * stride, half as nat) == ntt_bitrev(
            odds(strided(old(values)@, offset as int, stride as int, 2 * half as nat)),
            w * w,
            (b - 1) as nat,
        ),
        forall|p: int|
            0 <= p < old(values).len() && p % (stride as int) != offset ==> #[trigger] final(values)@[p]
                == old(values)@[p],
    decreases 2 * half, 0nat,
{
    let ghost s0 = values@;
    proof {
        lemma_twiddles_fit_square(twiddles@, w, b);
        lemma_interleave(s0, offset as int, stride as int, half as nat);
        lemma_pow2_pos((b - 1) as nat);
        assert(stride * (2 * half) == (2 * stride) * half) by (nonlinear_arith);
        assert(stride * (2 * half) >= 2 * stride) by (nonlinear_arith)
            requires
                half >= 1,
        ;
        lemma_pow2_pos((b - 1) as nat);
    }
    let st2 = 2 * stride;
    transform_view(values, twiddles, offset, st2, half, threshold, Ghost((b - 1) as nat), Ghost(w * w));
    let ghost s1 = values@;
    proof {
        assert forall|k: int| 0 <= k < half implies #[trigger] strided(s1, offset + stride, 2 * stride, half as nat)[k]
            == strided(s0, offset + stride, 2 * stride, half as nat)[k] by {
            lemma_half_positions(offset as int, stride as int, half as int, k);
        }
        assert(strided(s1, offset + stride, 2 * stride, half as nat) =~= strided(s0, offset + stride, 2 * stride, half as nat));
    }
    transform_view(values, twiddles, offset + stride, st2, half, threshold, Ghost((b - 1) as nat), Ghost(w * w));
    proof {
        assert forall|k: int| 0 <= k < half implies #[trigger] strided(values@, offset as int, 2 * stride, half as nat)[k]
            == strided(s1, offset as int, 2 * stride, half as nat)[k] by {
            lemma_half_positions(offset as int, stride as int, half as int, k);
        }
        assert(strided(values@, offset as int, 2 * stride, half as nat) =~= strided(s1, offset as int, 2 * stride, half as nat));
        assert forall|p: int| 0 <= p < s0.len() && p % (stride as int) != offset implies #[trigger] values@[p] == s0[p] by {
            lemma_outside_halves(p, offset as int, stride as int);
        }
    }
}

/// The two half-size transforms of the view, each on a buffer of its own: the
/// halves are copied out, transformed apart from each other and copied back.
fn transform_halves_apart(
    values: &mut Vec<Felt>,
    twiddles: &Vec<Felt>,
    offset: usize,
    stride: usize,
    half: usize,
    threshold: usize,
    Ghost(b): Ghost<nat>,
    Ghost(w): Ghost<int>,
)
    requires
        offset < stride,
        b >= 1,
        old(values).len() == stride * (2 * half),
        half == pow2((b - 1) as nat),
        twiddles_fit(twiddles@, w, b),
    ensures
        final(values).len() == old(values).len(),
        strided(final(values)@, offset as int, 2 * stride, half as nat) == ntt_bitrev(
            evens(strided(old(values)@, offset as int, stride as int, 2 * half as nat)),
            w * w,
            (b - 1) as nat,
        ),
        strided(final(values)@, offset + stride, 2 * stride, half as nat) == ntt_bitrev(
            odds(strided(old(values)@, offset as int, stride as int, 2 * half as nat)),
            w * w,
            (b - 1) as nat,
        ),
        forall|p: int|
            0 <= p < old(values).len() && p % (stride as int) != offset ==> #[trigger] final(values)@[p]
                == old(values)@[p],
    decreases 2 * half, 0nat,
{
    let ghost s0 = values@;
    proof {
        lemma_twiddles_fit_square(twiddles@, w, b);
        lemma_interleave(s0, offset as int, stride as int, half as nat);
        lemma_pow2_pos((b - 1) as nat);
        lemma_half_positions(offset as int, stride as int, half as int, 0);
    }
    let st2 = 2 * stride;
    let mut even: Vec<Felt> = Vec::new();
    let mut odd: Vec<Felt> = Vec::new();
    let mut j: usize = 0;
    while j < half
        invariant
            values@ == s0,
            st2 == 2 * stride,
            s0.len() == stride * (2 * half),
            offset < stride,
            j <= half,
            even.len() == j,
            odd.len() == j,
            forall|k: int| 0 <= k < j ==> #[trigger] even@[k] == s0[offset + k * (2 * stride)],
            forall|k: int| 0 <= k < j ==> #[trigger] odd@[k] == s0[offset + stride + k * (2 * stride)],
        decreases half - j,
    {
        proof {
            lemma_half_positions(offset as int, stride as int, half as int, j as int);
            assert(j * st2 == j * (2 * stride));
            assert(offset + stride + j * st2 < values.len());
        }
        even.push(values[offset + j * st2]);
        odd.push(values[offset + stride + j * st2]);
        j = j + 1;
    }
    let ghost e0 = even@;
    let ghost o0 = odd@;
    proof {
        assert(strided(e0, 0, 1, half as nat) =~= strided(s0, offset as int, 2 * stride, half as nat));
        assert(strided(o0, 0, 1, half as nat) =~= strided(s0, offset + stride, 2 * stride, half as nat));
    }
    transform_view(&mut even, twiddles, 0, 1, half, threshold, Ghost((b - 1) as nat), Ghost(w * w));
    transform_view(&mut odd, twiddles, 0, 1, half, threshold, Ghost((b - 1) as nat), Ghost(w * w));
    proof {
        assert forall|k: int| 0 <= k < half implies #[trigger] strided(even@, 0, 1, half as nat)[k] == even@[k]@
            && strided(odd@, 0, 1, half as nat)[k] == odd@[k]@ by {}
    }
    let mut j: usize = 0;
    while j < half
        invariant
            values.len() == s0.len(),
            s0.len() == stride * (2 * half),
            offset < stride,
            st2 == 2 * stride,
            j <= half,
            even.len() == half,
            odd.len() == half,
            forall|k: int| 0 <= k < half ==> #[trigger] strided(values@, offset as int, 2 * stride, half as nat)[k]
                == if k < j { even@[k]@ } else { strided(s0, offset as int, 2 * stride, half as nat)[k] },
            forall|k: int| 0 <= k < half ==> #[trigger] strided(values@, offset + stride, 2 * stride, half as nat)[k]
                == if k < j { odd@[k]@ } else { strided(s0, offset + stride, 2 * stride, half as nat)[k] },
            forall|p: int| 0 <= p < s0.len() && p % (stride as int) != offset ==> #[trigger] values@[p] == s0[p],
        decreases half - j,
    {
        proof {
            lemma_half_positions(offset as int, stride as int, half as int, j as int);
        }
        let ghost before = values@;
        values.set(offset + j * st2, even[j]);
        values.set(offset + stride + j * st2, odd[j]);
        proof {
            assert forall|k: int| 0 <= k < half implies #[trigger] strided(values@, offset as int, 2 * stride, half as nat)[k]
                == if k < j + 1 { even@[k]@ } else { strided(s0, offset as int, 2 * stride, half as nat)[k] } by {
                lemma_half_positions(offset as int, stride as int, half as int, k);
                assert(strided(before, offset as int, 2 * stride, half as nat)[k] == before[offset + k * (2 * stride)]@);
            }
            assert forall|k: int| 0 <= k < half implies #[trigger] strided(values@, offset + stride, 2 * stride, half as nat)[k]
                == if k < j + 1 { odd@[k]@ } else { strided(s0, offset + stride, 2 * stride, half as nat)[k] } by {
                lemma_half_positions(offset as int, stride as int, half as int, k);
                assert(strided(before, offset + stride, 2 * stride, half as nat)[k] == before[offset + stride + k * (2 * stride)]@);
            }
        }
        j = j + 1;
    }
    proof {
        assert forall|k: int| 0 <= k < half implies #[trigger] strided(values@, offset as int, 2 * stride, half as nat)[k]
            == strided(even@, 0, 1, half as nat)[k] && strided(values@, offset + stride, 2 * stride, half as nat)[k]
            == strided(odd@, 0, 1, half as nat)[k] by {}
        assert(strided(values@, offset as int, 2 * stride, half as nat) =~= strided(even@, 0, 1, half as nat));
        assert(strided(values@, offset + stride, 2 * stride, half as nat) =~= strided(odd@, 0, 1, half as nat));
        assert forall|p: int| 0 <= p < s0.len() && p % (stride as int) != offset implies #[trigger] values@[p] == s0[p] by {
            lemma_outside_halves(p, offset as int, stride as int);
        }
    }
}

/// The combine step: `half` butterflies over the transformed half-views,
/// each with the next twiddle of the table.
fn butterflies(
    values: &mut Vec<Felt>,
    twiddles: &Vec<Felt>,
    offset: usize,
    stride: usize,
    half: usize,
    Ghost(b): Ghost<nat>,
    Ghost(w): Ghost<int>,
    Ghost(a): Ghost<Seq<int>>,
)
    requires
        offset < stride,
        b >= 1,
        old(values).len() == stride * (2 * half),
        half == pow2((b - 1) as nat),
        a.len() == 2 * half,
        twiddles_fit(twiddles@, w, b),
        strided(old(values)@, offset as int, 2 * stride, half as nat) == ntt_bitrev(evens(a), w * w, (b - 1) as nat),
        strided(old(values)@, offset + stride, 2 * stride, half as nat) == ntt_bitrev(odds(a), w * w, (b - 1) as nat),
    ensures
        final(values).len() == old(values).len(),
        forall|i: int| 0 <= i < half ==> #[trigger] strided(final(values)@, offset as int, 2 * stride, half as nat)[i]
            == ntt_bitrev(a, w, b)[2 * i],
        forall|i: int| 0 <= i < half ==> #[trigger] strided(final(values)@, offset + stride, 2 * stride, half as nat)[i]
            == ntt_bitrev(a, w, b)[2 * i + 1],
        forall|p: int|
            0 <= p < old(values).len() && p % (stride as int) != offset ==> #[trigger] final(values)@[p]
                == old(values)@[p],
{
    let ghost s0 = values@;
    let ghost t = ntt_bitrev(a, w, b);
    proof {
        lemma_pow2_unfold(b);
        lemma_pow2_pos((b - 1) as nat);
        lemma_half_positions(offset as int, stride as int, half as int, 0);
    }
    let st2 = 2 * stride;
    let mut i: usize = 0;
    while i < half
        invariant
            values.len() == s0.len(),
            s0.len() == stride * (2 * half),
            offset < stride,
            i <= half,
            st2 == 2 * stride,
            b >= 1,
            pow2(b) == 2 * half,
            half == pow2((b - 1) as nat),
            a.len() == 2 * half,
            t == ntt_bitrev(a, w, b),
            twiddles_fit(twiddles@, w, b),
            strided(s0, offset as int, 2 * stride, half as nat) == ntt_bitrev(evens(a), w * w, (b - 1) as nat),
            strided(s0, offset + stride, 2 * stride, half as nat) == ntt_bitrev(odds(a), w * w, (b - 1) as nat),
            forall|k: int| 0 <= k < half ==> #[trigger] strided(values@, offset as int, 2 * stride, half as nat)[k]
                == if k < i { t[2 * k] } else { strided(s0, offset as int, 2 * stride, half as nat)[k] },
            forall|k: int| 0 <= k < half ==> #[trigger] strided(values@, offset + stride, 2 * stride, half as nat)[k]
                == if k < i { t[2 * k + 1] } else { strided(s0, offset + stride, 2 * stride, half as nat)[k] },
            forall|p: int| 0 <= p < s0.len() && p % (stride as int) != offset ==> #[trigger] values@[p] == s0[p],
        decreases half - i,
    {
        proof {
            lemma_half_positions(offset as int, stride as int, half as int, i as int);
        }
        let p1 = offset + i * st2;
        let p2 = offset + stride + i * st2;
        let e = values[p1];
        let o = values[p2];
        let tw = twiddles[i];
        let m = tw.mul(o);
        let ghost before = values@;
        values.set(p1, e.add(m));
        values.set(p2, e.sub(m));
        proof {
            assert(strided(before, offset as int, 2 * stride, half as nat)[i as int] == e@);
            assert(strided(before, offset + stride, 2 * stride, half as nat)[i as int] == o@);
            lemma_butterfly(a, w, b, i as nat, e@, o@, tw@);
            assert forall|k: int| 0 <= k < half implies #[trigger] strided(values@, offset as int, 2 * stride, half as nat)[k]
                == if k < i + 1 { t[2 * k] } else { strided(s0, offset as int, 2 * stride, half as nat)[k] } by {
                lemma_half_positions(offset as int, stride as int, half as int, k);
                assert(strided(before, offset as int, 2 * stride, half as nat)[k] == before[offset + k * (2 * stride)]@);
            }
            assert forall|k: int| 0 <= k < half implies #[trigger] strided(values@, offset + stride, 2 * stride, half as nat)[k]
                == if k < i + 1 { t[2 * k + 1] } else { strided(s0, offset + stride, 2 * stride, half as nat)[k] } by {
                lemma_half_positions(offset as int, stride as int, half as int, k);
                assert(strided(before, offset + stride, 2 * stride, half as nat)[k] == before[offset + stride + k * (2 * stride)]@);
            }
        }
        i = i + 1;
    }
}

/// The points `g^0, ..., g^(n-1)` of the domain of size `n`, `g` the root of
/// unity of order `n`.
pub fn build_domain(n: usize) -> (r: Vec<Felt>)
    requires
        is_power_of_two(n as nat),
        log2(n as nat) <= TWO_ADICITY,
    ensures
        values_of(r@) == power_series_spec(root_spec(log2(n as nat)), n as nat),
{
    let m = log2_exact(n);
    let g = Felt::root_of_unity(m);
    power_series(g, n)
}

/// The twiddle table for transforms of size `n`: the powers `g^0 .. g^(n/2-1)`
/// of the root of unity of order `n`, permuted into bit-reversed order.
pub fn build_twiddles(n: usize) -> (r: Vec<Felt>)
    requires
        is_power_of_two(n as nat),
        n >= 2,
        log2(n as nat) <= TWO_ADICITY,
    ensures
        r.len() == n / 2,
        values_of(r@) == twiddles_spec(log2(n as nat)),
{
    let m = log2_exact(n);
    proof {
        if m == 0 {
            lemma2_to64();
        }
        lemma_pow2_unfold(m as nat);
        lemma_log2_pow2((m - 1) as nat);
    }
    let g = Felt::root_of_unity(m);
    let mut r = power_series(g, n / 2);
    let ghost before = r@;
    proof {
        assert(r@.len() == values_of(r@).len());
        assert(n / 2 == pow2((m - 1) as nat));
        assert(log2((n / 2) as nat) == (m - 1) as nat);
    }
    bit_reverse_permute(&mut r);
    proof {
        assert(values_of(before).len() == n / 2);
        assert forall|i: int| 0 <= i < n / 2 implies #[trigger] values_of(r@)[i] == permuted(
            values_of(before),
            (m - 1) as nat,
        )[i] by {
            lemma_rev_bound(i as nat, (m - 1) as nat);
        }
        assert(values_of(r@) =~= permuted(values_of(before), (m - 1) as nat));
    }
    r
}

/// The transform of `values` in place, into bit-reversed order, with the
/// half-size transforms of sizes from `threshold` up done on buffers of their
/// own. The result is the same for every `threshold`.
pub fn transform_in_place_with_threshold(values: &mut Vec<Felt>, twiddles: &Vec<Felt>, threshold: usize)
    requires
        is_power_of_two(old(values).len() as nat),
        old(values).len() == 2 * twiddles.len(),
        log2(old(values).len() as nat) <= TWO_ADICITY,
        values_of(twiddles@) == twiddles_spec(log2(old(values).len() as nat)),
    ensures
        final(values).len() == old(values).len(),
        values_of(final(values)@) == ntt_bitrev(
            values_of(old(values)@),
            root_spec(log2(old(values).len() as nat)),
            log2(old(values).len() as nat),
        ),
{
    let n = values.len();
    let ghost m = log2(n as nat);
    let ghost g = root_spec(m);
    let ghost s0 = values@;
    proof {
        if m == 0 {
            lemma2_to64();
        }
        lemma_pow2_unfold(m);
        lemma_root_of_unity_order(m);
        assert forall|i: int| 0 <= i < pow2(m) / 2 implies #[trigger] twiddles@[i]@ == modp(
            pow(g, rev(i as nat, (m - 1) as nat))) by {
            lemma_rev_bound(i as nat, (m - 1) as nat);
            assert(values_of(twiddles@)[i] == twiddles@[i]@);
        }
        assert(twiddles_fit(twiddles@, g, m));
        assert(n * 1 == 1 * n);
        assert(strided(s0, 0, 1, n as nat) =~= values_of(s0));
    }
    transform_view(values, twiddles, 0, 1, n, threshold, Ghost(m), Ghost(g));
    proof {
        assert(strided(values@, 0, 1, n as nat) =~= values_of(values@));
    }
}

/// The transform of `values` in place, into bit-reversed order.
pub fn transform_in_place(values: &mut Vec<Felt>, twiddles: &Vec<Felt>)
    requires
        is_power_of_two(old(values).len() as nat),
        old(values).len() == 2 * twiddles.len(),
        log2(old(values).len() as nat) <= TWO_ADICITY,
        values_of(twiddles@) == twiddles_spec(log2(old(values).len() as nat)),
    ensures
        final(values).len() == old(values).len(),
        values_of(final(values)@) == ntt_bitrev(
            values_of(old(values)@),
            root_spec(log2(old(values).len() as nat)),
            log2(old(values).len() as nat),
        ),
{
    transform_in_place_with_threshold(values, twiddles, MIN_CONCURRENT_SIZE);
}

/// The transform followed by the bit-reversal permutation gives the values of
/// the polynomial at `g^0, ..., g^(n-1)`, with `g` the root of unity of order
/// `n`: the points that `build_domain` lists.
pub proof fn lemma_transform_then_permute(a: Seq<int>, m: nat)
    requires
        a.len() == pow2(m),
        m <= TWO_ADICITY,
    ensures
        permuted(ntt_bitrev(a, root_spec(m), m), m) == evaluations(a, root_spec(m)),
        evaluations(a, root_spec(m)) == Seq::new(
            a.len(),
            |k: int| modp(eval(a, power_series_spec(root_spec(m), a.len())[k])),
        ),
{
    let g = root_spec(m);
    assert forall|k: int| 0 <= k < a.len() implies #[trigger] permuted(ntt_bitrev(a, g, m), m)[k] == evaluations(
        a,
        g,
    )[k] by {
        lemma_rev_bound(k as nat, m);
        lemma_rev_involution(k as nat, m);
    }
    assert(permuted(ntt_bitrev(a, g, m), m) =~= evaluations(a, g));
    assert forall|k: int| 0 <= k < a.len() implies #[trigger] evaluations(a, g)[k] == modp(
        eval(a, power_series_spec(g, a.len())[k])) by {
        crate::field::lemma_modp_congruent(pow(g, k as nat));
        lemma_eval_congruent(a, pow(g, k as nat), modp(pow(g, k as nat)));
    }
    assert(evaluations(a, g) =~= Seq::new(
        a.len(),
        |k: int| modp(eval(a, power_series_spec(g, a.len())[k])),
    ));
}

/// The elements at even and at odd indices of `values`, as two new buffers.
pub fn split_halves(values: &Vec<Felt>) -> (r: (Vec<Felt>, Vec<Felt>))
    requires
        values.len() % 2 == 0,
    ensures
        values_of(r.0@) == evens(values_of(values@)),
        values_of(r.1@) == odds(values_of(values@)),
{
    let half = values.len() / 2;
    let mut even: Vec<Felt> = Vec::new();
    let mut odd: Vec<Felt> = Vec::new();
    let mut j: usize = 0;
    while j < half
        invariant
            half * 2 == values.len(),
            j <= half,
            even.len() == j,
            odd.len() == j,
            forall|k: int| 0 <= k < j ==> #[trigger] even@[k] == values@[2 * k],
            forall|k: int| 0 <= k < j ==> #[trigger] odd@[k] == values@[2 * k + 1],
        decreases half - j,
    {
        even.push(values[2 * j]);
        odd.push(values[2 * j + 1]);
        j = j + 1;
    }
    proof {
        assert(values_of(even@) =~= evens(values_of(values@)));
        assert(values_of(odd@) =~= odds(values_of(values@)));
    }
    (even, odd)
}

/// The combine step on whole buffers: for each `i`, with `t = twiddles[i] * odd[i]`,
/// `values[2i] = even[i] + t` and `values[2i + 1] = even[i] - t`.
pub fn combine_halves(values: &mut Vec<Felt>, even: &Vec<Felt>, odd: &Vec<Felt>, twiddles: &Vec<Felt>)
    requires
        even.len() == odd.len(),
        old(values).len() == 2 * even.len(),
        twiddles.len() >= even.len(),
    ensures
        final(values).len() == old(values).len(),
        forall|i: int|
            0 <= i < even.len() ==> #[trigger] final(values)@[2 * i]@ == modp(
                even@[i]@ + modp(twiddles@[i]@ * odd@[i]@),
            ) && final(values)@[2 * i + 1]@ == modp(even@[i]@ - modp(twiddles@[i]@ * odd@[i]@)),
{
    let half = even.len();
    let mut i: usize = 0;
    while i < half
        invariant
            half == even.len(),
            half == odd.len(),
            values.len() == 2 * half,
            twiddles.len() >= half,
            i <= half,
            forall|k: int|
                0 <= k < i ==> #[trigger] values@[2 * k]@ == modp(even@[k]@ + modp(twiddles@[k]@ * odd@[k]@))
                    && values@[2 * k + 1]@ == modp(even@[k]@ - modp(twiddles@[k]@ * odd@[k]@)),
        decreases half - i,
    {
        let t = twiddles[i].mul(odd[i]);
        let ghost before = values@;
        values.set(2 * i, even[i].add(t));
        values.set(2 * i + 1, even[i].sub(t));
        proof {
            assert forall|k: int| 0 <= k < i + 1 implies #[trigger] values@[2 * k]@ == modp(
                even@[k]@ + modp(twiddles@[k]@ * odd@[k]@),
            ) && values@[2 * k + 1]@ == modp(even@[k]@ - modp(twiddles@[k]@ * odd@[k]@)) by {
                if k < i {
                    assert(values@[2 * k] == before[2 * k]);
                    assert(values@[2 * k + 1] == before[2 * k + 1]);
                    assert(before[2 * k]@ == modp(even@[k]@ + modp(twiddles@[k]@ * odd@[k]@)));
                    assert(before[2 * k + 1]@ == modp(even@[k]@ - modp(twiddles@[k]@ * odd@[k]@)));
                } else {
                    assert(k == i);
                    assert(values@[2 * k] == before.update(2 * k, values@[2 * k])[2 * k]);
                    assert(t@ == modp(twiddles@[k]@ * odd@[k]@));
                    assert(values@[2 * k]@ == modp(even@[k]@ + t@));
                    assert(values@[2 * k + 1]@ == modp(even@[k]@ - t@));
                }
            }
        }
        i = i + 1;
    }
}

/// Transforming the even and the odd halves as transforms of half the size,
/// then combining them with the full-size twiddle table, gives the transform
/// of the whole.
pub proof fn lemma_combine_halves(a: Seq<int>, m: nat, e: Seq<int>, o: Seq<int>, r: Seq<int>)
    requires
        1 <= m <= TWO_ADICITY,
        a.len() == pow2(m),
        e == ntt_bitrev(evens(a), root_spec((m - 1) as nat), (m - 1) as nat),
        o == ntt_bitrev(odds(a), root_spec((m - 1) as nat), (m - 1) as nat),
        r.len() == a.len(),
        forall|i: int|
            0 <= i < a.len() / 2 ==> #[trigger] r[2 * i] == modp(e[i] + modp(twiddles_spec(m)[i] * o[i]))
                && r[2 * i + 1] == modp(e[i] - modp(twiddles_spec(m)[i] * o[i])),
    ensures
        r == ntt_bitrev(a, root_spec(m), m),
{
    let g = root_spec(m);
    let h = (m - 1) as nat;
    lemma_pow2_unfold(m);
    lemma_root_of_unity_order(m);
    assert(root_spec(h) == modp(g * g));
    crate::field::lemma_modp_congruent(g * g);
    assert forall|j: int| 0 <= j < a.len() implies #[trigger] r[j] == ntt_bitrev(a, g, m)[j] by {
        let i = j / 2;
        let ri = rev(i as nat, h);
        lemma_rev_bound(i as nat, h);
        crate::field::lemma_pow_congruent(modp(g * g), g * g, ri);
        lemma_eval_congruent(evens(a), pow(modp(g * g), ri), pow(g * g, ri));
        lemma_eval_congruent(odds(a), pow(modp(g * g), ri), pow(g * g, ri));
        assert(e[i] == modp(eval(evens(a), pow(g * g, ri))));
        assert(o[i] == modp(eval(odds(a), pow(g * g, ri))));
        assert(twiddles_spec(m)[i] == modp(pow(g, ri)));
        lemma_butterfly(a, g, m, i as nat, e[i], o[i], twiddles_spec(m)[i]);
        let t = twiddles_spec(m)[i];
        assert(r[2 * i] == modp(e[i] + modp(t * o[i])));
        if j % 2 == 0 {
            assert(j == 2 * i);
        } else {
            assert(j == 2 * i + 1);
        }
    }
    assert(r =~= ntt_bitrev(a, g, m));
}

} // verus!
