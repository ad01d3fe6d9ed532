//! A prime field of order `2^64 - 2^32 + 1`, whose multiplicative group has a
//! cyclic subgroup of every order `2^k` with `k <= 32`.
use vstd::prelude::*;
use vstd::arithmetic::div_mod::*;
use vstd::arithmetic::power::*;

verus! {

/// The field's characteristic.
pub const MODULUS: u64 = 18446744069414584321;

/// The largest `k` for which the field holds a root of unity of order `2^k`.
pub const TWO_ADICITY: u32 = 32;

/// A generator of the subgroup of order `2^32`: `7^((MODULUS - 1) / 2^32)`.
pub const TWO_ADIC_ROOT: u64 = 1753635133440165772;

/// The modulus as a mathematical integer.
pub open spec fn p() -> int {
    MODULUS as int
}

/// Reduction to the canonical representative in `[0, p)`.
pub open spec fn modp(x: int) -> int {
    x % p()
}

/// Two integers that stand for the same field element.
pub open spec fn congruent(a: int, b: int) -> bool {
    a % p() == b % p()
}

/// `x` squared `t` times in the field: `x^(2^t)` reduced.
pub open spec fn square_iter(x: int, t: nat) -> int
    decreases t,
{
    if t == 0 {
        modp(x)
    } else {
        let y = square_iter(x, (t - 1) as nat);
        modp(y * y)
    }
}

/// The canonical value of the primitive root of unity of order `2^k`.
pub open spec fn root_spec(k: nat) -> int {
    square_iter(TWO_ADIC_ROOT as int, (TWO_ADICITY - k) as nat)
}

/// The canonical values of a sequence of elements.
pub open spec fn values_of(s: Seq<Felt>) -> Seq<int> {
    s.map_values(|f: Felt| f@)
}

/// An element of the field, held as its canonical representative.
#[derive(Clone, Copy, Debug, PartialEq, Eq)]
pub struct Felt {
    v: u64,
}

impl View for Felt {
    type V = int;

    closed spec fn view(&self) -> int {
        self.v as int
    }
}

/// Congruence is kept by addition, subtraction and multiplication.
pub proof fn lemma_congruent_ops(a: int, b: int, c: int, d: int)
    requires
        congruent(a, b),
        congruent(c, d),
    ensures
        congruent(a + c, b + d),
        congruent(a - c, b - d),
        congruent(a * c, b * d),
{
    lemma_add_mod_noop(a, c, p());
    lemma_add_mod_noop(b, d, p());
    lemma_sub_mod_noop(a, c, p());
    lemma_sub_mod_noop(b, d, p());
    lemma_mul_mod_noop(a, c, p());
    lemma_mul_mod_noop(b, d, p());
}

/// Reduction gives a congruent value in `[0, p)`.
pub proof fn lemma_modp_congruent(a: int)
    ensures
        congruent(modp(a), a),
        0 <= modp(a) < p(),
{
    lemma_mod_twice(a, p());
    lemma_mod_bound(a, p());
}

/// A value in `[0, p)` is its own reduction.
pub proof fn lemma_small_canonical(a: int)
    requires
        0 <= a < p(),
    ensures
        modp(a) == a,
{
    lemma_small_mod(a as nat, p() as nat);
}

/// Squaring `t` times raises to the power `2^t`.
pub proof fn lemma_square_iter_pow(x: int, t: nat)
    ensures
        square_iter(x, t) == modp(pow(x, vstd::arithmetic::power2::pow2(t))),
    decreases t,
{
    if t == 0 {
        reveal(pow);
        assert(vstd::arithmetic::power2::pow2(0) == 1) by {
            reveal(pow);
        }
        lemma_pow1(x);
    } else {
        let e = vstd::arithmetic::power2::pow2((t - 1) as nat);
        lemma_square_iter_pow(x, (t - 1) as nat);
        let y = square_iter(x, (t - 1) as nat);
        lemma_modp_congruent(pow(x, e));
        lemma_congruent_ops(y, pow(x, e), y, pow(x, e));
        lemma_pow_adds(x, e, e);
        assert(vstd::arithmetic::power2::pow2(t) == e + e) by {
            vstd::arithmetic::power2::lemma_pow2_unfold(t);
        }
    }
}

/// The fixed root squared 31 times is `-1` and 32 times is `1`.
proof fn lemma_two_adic_root()
    ensures
        square_iter(TWO_ADIC_ROOT as int, 31) == p() - 1,
        square_iter(TWO_ADIC_ROOT as int, 32) == 1,
{
    let r = TWO_ADIC_ROOT as int;
    lemma_small_canonical(r);
    assert(square_iter(r, 0) == 1753635133440165772);
    assert(square_iter(r, 1) == 4614640910117430873);
    assert(square_iter(r, 2) == 9123114210336311365);
    assert(square_iter(r, 3) == 16116352524544190054);
    assert(square_iter(r, 4) == 6414415596519834757);
    assert(square_iter(r, 5) == 1213594585890690845);
    assert(square_iter(r, 6) == 17096174751763063430);
    assert(square_iter(r, 7) == 5456943929260765144);
    assert(square_iter(r, 8) == 9713644485405565297);
    assert(square_iter(r, 9) == 16905767614792059275);
    assert(square_iter(r, 10) == 5416168637041100469);
    assert(square_iter(r, 11) == 17654865857378133588);
    assert(square_iter(r, 12) == 3511170319078647661);
    assert(square_iter(r, 13) == 18146160046829613826);
    assert(square_iter(r, 14) == 9306717745644682924);
    assert(square_iter(r, 15) == 12380578893860276750);
    assert(square_iter(r, 16) == 6115771955107415310);
    assert(square_iter(r, 17) == 17776499369601055404);
    assert(square_iter(r, 18) == 16207902636198568418);
    assert(square_iter(r, 19) == 1532612707718625687);
    assert(square_iter(r, 20) == 17492915097719143606);
    assert(square_iter(r, 21) == 455906449640507599);
    assert(square_iter(r, 22) == 11353340290879379826);
    assert(square_iter(r, 23) == 1803076106186727246);
    assert(square_iter(r, 24) == 13797081185216407910);
    assert(square_iter(r, 25) == 17870292113338400769);
    assert(square_iter(r, 26) == 549755813888);
    assert(square_iter(r, 27) == 70368744161280);
    assert(square_iter(r, 28) == 17293822564807737345);
    assert(square_iter(r, 29) == 18446744069397807105);
    assert(square_iter(r, 30) == 281474976710656);
    assert(square_iter(r, 31) == 18446744069414584320);
    lemma_fundamental_div_mod_converse((p() - 1) * (p() - 1), p(), p() - 2, 1);
    assert(square_iter(r, 32) == 1);
}

/// Squaring `a` times and then `c` times is squaring `a + c` times.
proof fn lemma_square_iter_add(x: int, a: nat, c: nat)
    ensures
        square_iter(square_iter(x, a), c) == square_iter(x, a + c),
    decreases c,
{
    if c == 0 {
        if a == 0 {
            lemma_mod_twice(x, p());
        } else {
            let y = square_iter(x, (a - 1) as nat);
            lemma_mod_twice(y * y, p());
        }
    } else {
        lemma_square_iter_add(x, a, (c - 1) as nat);
    }
}

/// Powers of congruent bases are congruent.
pub proof fn lemma_pow_congruent(x: int, y: int, n: nat)
    requires
        congruent(x, y),
    ensures
        congruent(pow(x, n), pow(y, n)),
    decreases n,
{
    reveal(pow);
    if n > 0 {
        lemma_pow_congruent(x, y, (n - 1) as nat);
        lemma_congruent_ops(x, y, pow(x, (n - 1) as nat), pow(y, (n - 1) as nat));
    }
}

/// `(-1)^e == -1` for odd `e`.
proof fn lemma_pow_minus_one_odd(e: nat)
    requires
        e % 2 == 1,
    ensures
        pow(-1, e) == -1,
    decreases e,
{
    reveal(pow);
    if e > 1 {
        lemma_pow_minus_one_odd((e - 2) as nat);
        assert(pow(-1, (e - 1) as nat) == -1 * pow(-1, (e - 2) as nat));
        assert(pow(-1, e) == -1 * pow(-1, (e - 1) as nat));
    } else {
        assert(pow(-1, 0) == 1);
        assert(pow(-1, 1) == -1 * pow(-1, 0));
    }
}

/// If `h^(2^(k-1))` stands for `-1`, no power `h^e` with `0 < e < 2^k` stands for `1`.
proof fn lemma_no_smaller_order(h: int, k: nat, e: nat)
    requires
        k >= 1,
        congruent(pow(h, vstd::arithmetic::power2::pow2((k - 1) as nat)), -1),
        0 < e < vstd::arithmetic::power2::pow2(k),
    ensures
        modp(pow(h, e)) != 1,
    decreases k,
{
    let half = vstd::arithmetic::power2::pow2((k - 1) as nat);
    vstd::arithmetic::power2::lemma_pow2_unfold(k);
    if e % 2 == 0 {
        let e2 = (e / 2) as nat;
        if k == 1 {
            vstd::arithmetic::power2::lemma2_to64();
        } else {
            vstd::arithmetic::power2::lemma_pow2_unfold((k - 1) as nat);
            lemma_square_is_pow2(h);
            lemma_pow_multiplies(h, 2, vstd::arithmetic::power2::pow2((k - 2) as nat));
            lemma_no_smaller_order(h * h, (k - 1) as nat, e2);
            lemma_pow_multiplies(h, 2, e2);
        }
    } else {
        if modp(pow(h, e)) == 1 {
            lemma_pow_multiplies(h, e, half);
            lemma_pow_multiplies(h, half, e);
            lemma_pow_congruent(pow(h, e), 1, half);
            lemma1_pow(half);
            lemma_pow_congruent(pow(h, half), -1, e);
            lemma_pow_minus_one_odd(e);
            assert(e * half == half * e) by (nonlinear_arith);
            assert(congruent(1, -1));
            lemma_small_canonical(1);
            lemma_fundamental_div_mod_converse(-1, p(), -1, p() - 1);
        }
    }
}

/// The root of unity of order `2^k` has exactly that order: its `2^k`-th power
/// is one, and no smaller positive power is.
pub proof fn lemma_root_of_unity_order(k: nat)
    requires
        1 <= k <= TWO_ADICITY,
    ensures
        modp(pow(root_spec(k), vstd::arithmetic::power2::pow2(k))) == 1,
        congruent(pow(root_spec(k), vstd::arithmetic::power2::pow2((k - 1) as nat)), -1),
        forall|e: nat|
            0 < e < vstd::arithmetic::power2::pow2(k) ==> modp(#[trigger] pow(root_spec(k), e)) != 1,
{
    let t = (TWO_ADICITY - k) as nat;
    lemma_two_adic_root();
    lemma_square_iter_add(TWO_ADIC_ROOT as int, t, k);
    lemma_square_iter_add(TWO_ADIC_ROOT as int, t, (k - 1) as nat);
    lemma_square_iter_pow(root_spec(k), k);
    lemma_square_iter_pow(root_spec(k), (k - 1) as nat);
    lemma_fundamental_div_mod_converse(-1, p(), -1, p() - 1);
    assert forall|e: nat| 0 < e < vstd::arithmetic::power2::pow2(k) implies modp(#[trigger] pow(root_spec(k), e))
        != 1 by {
        lemma_no_smaller_order(root_spec(k), k, e);
    }
}

impl Felt {
    #[verifier::type_invariant]
    spec fn inv(self) -> bool {
        self.v < MODULUS
    }

    /// The additive identity.
    pub fn zero() -> (r: Felt)
        ensures
            r@ == 0,
    {
        Felt { v: 0 }
    }

    /// The multiplicative identity.
    pub fn one() -> (r: Felt)
        ensures
            r@ == 1,
    {
        Felt { v: 1 }
    }

    /// The element that `x` stands for, reduced modulo the characteristic.
    pub fn new(x: u64) -> (r: Felt)
        ensures
            r@ == modp(x as int),
    {
        Felt { v: x % MODULUS }
    }

    /// The canonical representative, an integer in `[0, MODULUS)`.
    pub fn as_int(&self) -> (r: u64)
        ensures
            r as int == self@,
            r < MODULUS,
    {
        proof {
            use_type_invariant(self);
        }
        self.v
    }

    /// The sum in the field.
    pub fn add(self, o: Felt) -> (r: Felt)
        ensures
            r@ == modp(self@ + o@),
    {
        proof {
            use_type_invariant(&self);
            use_type_invariant(&o);
        }
        let s: u128 = (self.v as u128 + o.v as u128) % (MODULUS as u128);
        Felt { v: s as u64 }
    }

    /// The difference in the field.
    pub fn sub(self, o: Felt) -> (r: Felt)
        ensures
            r@ == modp(self@ - o@),
    {
        proof {
            use_type_invariant(&self);
            use_type_invariant(&o);
            lemma_mod_add_multiples_vanish(self@ - o@, p());
        }
        let s: u128 = (self.v as u128 + MODULUS as u128 - o.v as u128) % (MODULUS as u128);
        Felt { v: s as u64 }
    }

    /// `self` raised to the power `e`, by repeated squaring.
    pub fn exp(self, e: u64) -> (r: Felt)
        ensures
            r@ == modp(pow(self@, e as nat)),
    {
        let mut acc = Felt::one();
        let mut base = self;
        let mut k: u64 = e;
        proof {
            use_type_invariant(&self);
            lemma_small_canonical(self@);
            lemma_small_canonical(1);
            lemma_pow0(self@);
        }
        while k > 0
            invariant
                0 <= acc@ < p(),
                congruent(acc@ * pow(base@, k as nat), pow(self@, e as nat)),
            decreases k,
        {
            proof {
                use_type_invariant(&base);
                let b = base@;
                let h = (k / 2) as nat;
                lemma_pow_adds(b, h, h);
                lemma_square_is_pow2(b);
                lemma_pow_multiplies(b, 2, h);
                lemma_pow_adds(b, 2 * h, (k % 2) as nat);
                lemma_modp_congruent(b * b);
                lemma_pow_congruent(modp(b * b), b * b, h);
                lemma_pow1(b);
                lemma_pow0(b);
            }
            let ghost acc0 = acc@;
            let ghost b0 = base@;
            if k % 2 == 1 {
                acc = acc.mul(base);
                proof {
                    lemma_modp_congruent(acc0 * b0);
                    let q = pow(modp(b0 * b0), (k / 2) as nat);
                    lemma_congruent_ops(acc@, acc0 * b0, q, pow(b0 * b0, (k / 2) as nat));
                    assert(pow(b0, k as nat) == pow(b0 * b0, (k / 2) as nat) * b0);
                    assert(acc0 * b0 * pow(b0 * b0, (k / 2) as nat) == acc0 * pow(b0, k as nat)) by (nonlinear_arith)
                        requires
                            pow(b0, k as nat) == pow(b0 * b0, (k / 2) as nat) * b0,
                    ;
                }
            } else {
                proof {
                    let q = pow(modp(b0 * b0), (k / 2) as nat);
                    lemma_congruent_ops(acc0, acc0, q, pow(b0 * b0, (k / 2) as nat));
                    assert(pow(b0, k as nat) == pow(b0 * b0, (k / 2) as nat) * 1);
                }
            }
            base = base.mul(base);
            k = k / 2;
            proof {
                lemma_modp_congruent(acc0);
            }
        }
        proof {
            lemma_pow0(base@);
            lemma_small_canonical(acc@);
        }
        acc
    }

    /// The generator of the subgroup of order `2^log2_order`.
    pub fn root_of_unity(log2_order: u32) -> (r: Felt)
        requires
            log2_order <= TWO_ADICITY,
        ensures
            r@ == root_spec(log2_order as nat),
    {
        let mut r = Felt { v: TWO_ADIC_ROOT };
        let mut t: u32 = 0;
        let steps: u32 = TWO_ADICITY - log2_order;
        proof {
            lemma_small_canonical(TWO_ADIC_ROOT as int);
        }
        while t < steps
            invariant
                t <= steps,
                steps == TWO_ADICITY - log2_order,
                r@ == square_iter(TWO_ADIC_ROOT as int, t as nat),
            decreases steps - t,
        {
            r = r.mul(r);
            t = t + 1;
        }
        r
    }

    /// The product in the field.
    pub fn mul(self, o: Felt) -> (r: Felt)
        ensures
            r@ == modp(self@ * o@),
    {
        proof {
            use_type_invariant(&self);
            use_type_invariant(&o);
        }
        let a: u128 = self.v as u128;
        let b: u128 = o.v as u128;
        assert(a * b < 0x1_0000_0000_0000_0000_0000_0000_0000_0000) by (nonlinear_arith)
            requires
                a < 0x1_0000_0000_0000_0000,
                b < 0x1_0000_0000_0000_0000,
        ;
        let s: u128 = (a * b) % (MODULUS as u128);
        Felt { v: s as u64 }
    }
}

} // verus!
