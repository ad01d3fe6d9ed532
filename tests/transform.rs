use ntt::bitrev::{bit_reverse_permute, log2_exact, reverse_bits};
use ntt::fft::{
    build_domain, build_twiddles, combine_halves, split_halves, transform_in_place,
    transform_in_place_with_threshold, MIN_CONCURRENT_SIZE,
};
use ntt::field::{Felt, MODULUS, TWO_ADICITY};
use ntt::poly::{eval_many, evaluate, power_series};
use winter_rand_utils::rand_vector;

fn random_elements(n: usize) -> Vec<Felt> {
    rand_vector::<u64>(n).into_iter().map(Felt::new).collect()
}

fn ilog2(n: usize) -> u32 {
    n.ilog2()
}

fn check_against_direct_evaluation(n: usize) {
    let mut p = random_elements(n);
    let domain = build_domain(n);
    let expected = eval_many(&p, &domain);
    let twiddles = build_twiddles(n);
    transform_in_place(&mut p, &twiddles);
    bit_reverse_permute(&mut p);
    assert_eq!(expected, p);
}

#[test]
fn fft_in_place() {
    // degree 3
    check_against_direct_evaluation(4);
    // degree 7
    check_against_direct_evaluation(8);
    // degree 15
    check_against_direct_evaluation(16);
    // degree 1023
    check_against_direct_evaluation(1024);
}

#[test]
fn permutate() {
    let s = 16usize;
    let mut data: Vec<Felt> = (0..s).map(|i| Felt::new(i as u64)).collect();
    bit_reverse_permute(&mut data);
    for i in (0..s).step_by(2) {
        let a = data[i].as_int() as u128;
        let b = data[i + 1].as_int() as u128;
        assert_eq!(a.pow(2).checked_rem(s as u128).unwrap(), b.pow(2).checked_rem(s as u128).unwrap());
    }
}

#[test]
fn fft_get_twiddles() {
    let n = MIN_CONCURRENT_SIZE * 2;
    let g = Felt::root_of_unity(ilog2(n));
    assert_eq!(g.exp(n as u64), Felt::one());

    let mut expected = power_series(g, n / 2);
    assert_eq!(expected[3], g.exp(3));
    assert_eq!(*expected.last().unwrap(), g.exp(((n / 2) - 1) as u64));
    bit_reverse_permute(&mut expected);

    let twiddles = build_twiddles(n);
    assert_eq!(expected, twiddles);
}

#[test]
fn transform_of_size_four_matches_horner() {
    let n = 4;
    let p = random_elements(n);
    let g = Felt::root_of_unity(2);
    let mut values = p.clone();
    let twiddles = build_twiddles(n);
    transform_in_place(&mut values, &twiddles);
    bit_reverse_permute(&mut values);
    let mut x = Felt::one();
    for k in 0..n {
        // Horner by hand: p0 + x (p1 + x (p2 + x p3))
        let v = p[0].add(x.mul(p[1].add(x.mul(p[2].add(x.mul(p[3]))))));
        assert_eq!(values[k], v);
        x = x.mul(g);
    }
}

#[test]
fn transform_of_size_two_is_one_butterfly() {
    let mut values = vec![Felt::new(5), Felt::new(7)];
    let twiddles = build_twiddles(2);
    assert_eq!(twiddles, vec![Felt::one()]);
    transform_in_place(&mut values, &twiddles);
    assert_eq!(values, vec![Felt::new(12), Felt::new(MODULUS - 2)]);
}

#[test]
fn transform_of_known_polynomial() {
    // 1 + 2x + 3x^2 + 4x^3 at 1, g, g^2 = -1, g^3 = -g
    let mut values = vec![Felt::new(1), Felt::new(2), Felt::new(3), Felt::new(4)];
    let twiddles = build_twiddles(4);
    transform_in_place(&mut values, &twiddles);
    bit_reverse_permute(&mut values);
    assert_eq!(values[0], Felt::new(10));
    assert_eq!(values[2], Felt::new(MODULUS - 2));
    let g = Felt::root_of_unity(2);
    let coeffs = vec![Felt::new(1), Felt::new(2), Felt::new(3), Felt::new(4)];
    assert_eq!(values[1], evaluate(&coeffs, g));
    assert_eq!(values[3], evaluate(&coeffs, g.exp(3)));
}

#[test]
fn concurrent_and_sequential_paths_agree() {
    for n in [2usize, 8, 64, 256] {
        let p = random_elements(n);
        let twiddles = build_twiddles(n);
        let mut a = p.clone();
        let mut b = p.clone();
        let mut c = p.clone();
        transform_in_place_with_threshold(&mut a, &twiddles, 1);
        transform_in_place_with_threshold(&mut b, &twiddles, usize::MAX);
        transform_in_place_with_threshold(&mut c, &twiddles, n / 4 + 1);
        assert_eq!(a, b);
        assert_eq!(a, c);
    }
}

#[test]
fn large_transform_takes_the_concurrent_path() {
    let n = 2 * MIN_CONCURRENT_SIZE;
    let p = random_elements(n);
    let twiddles = build_twiddles(n);
    let mut a = p.clone();
    let mut b = p.clone();
    transform_in_place(&mut a, &twiddles);
    transform_in_place_with_threshold(&mut b, &twiddles, usize::MAX);
    assert_eq!(a, b);
    bit_reverse_permute(&mut a);
    assert_eq!(a, eval_many(&p, &build_domain(n)));
}

#[test]
fn permutation_is_self_inverse() {
    for n in [1usize, 2, 4, 32, 128] {
        let original = random_elements(n);
        let mut data = original.clone();
        bit_reverse_permute(&mut data);
        bit_reverse_permute(&mut data);
        assert_eq!(data, original);
    }
}

#[test]
fn permutation_of_eight() {
    let mut data: Vec<Felt> = (0..8u64).map(Felt::new).collect();
    bit_reverse_permute(&mut data);
    let got: Vec<u64> = data.iter().map(|x| x.as_int()).collect();
    assert_eq!(got, vec![0, 4, 2, 6, 1, 5, 3, 7]);
}

#[test]
fn reverse_bits_and_log2() {
    assert_eq!(reverse_bits(1, 3), 4);
    assert_eq!(reverse_bits(6, 3), 3);
    assert_eq!(reverse_bits(5, 0), 0);
    assert_eq!(log2_exact(1), 0);
    assert_eq!(log2_exact(1024), 10);
}

#[test]
fn root_of_unity_has_exact_order() {
    for k in 1..=10u32 {
        let g = Felt::root_of_unity(k);
        let n = 1u64 << k;
        assert_eq!(g.exp(n), Felt::one());
        let mut x = g;
        for _ in 1..n {
            assert_ne!(x, Felt::one());
            x = x.mul(g);
        }
    }
    let g = Felt::root_of_unity(TWO_ADICITY);
    assert_eq!(g.exp(1u64 << 32), Felt::one());
    assert_eq!(g.exp(1u64 << 31), Felt::new(MODULUS - 1));
    assert_eq!(Felt::root_of_unity(0), Felt::one());
    assert_eq!(Felt::root_of_unity(1), Felt::new(MODULUS - 1));
}

#[test]
fn twiddles_are_bit_reversed_powers() {
    let n = 16;
    let g = Felt::root_of_unity(4);
    let mut expected = power_series(g, n / 2);
    bit_reverse_permute(&mut expected);
    assert_eq!(build_twiddles(n), expected);
    assert_eq!(build_twiddles(n)[1], g.exp(4));
}

#[test]
fn field_arithmetic() {
    let a = Felt::new(MODULUS - 1);
    let b = Felt::new(2);
    assert_eq!(a.add(b), Felt::new(1));
    assert_eq!(b.sub(Felt::new(3)), Felt::new(MODULUS - 1));
    assert_eq!(a.mul(a), Felt::one());
    assert_eq!(Felt::new(MODULUS), Felt::zero());
    assert_eq!(Felt::new(MODULUS + 5).as_int(), 5);
    assert_eq!(b.exp(10), Felt::new(1024));
    assert_eq!(b.exp(0), Felt::one());
    assert_eq!(Felt::new(1u64 << 32).mul(Felt::new(1u64 << 32)), Felt::new((1u64 << 32) - 1));
}

#[test]
fn power_series_and_domain() {
    let s = power_series(Felt::new(3), 5);
    assert_eq!(s, vec![Felt::new(1), Felt::new(3), Felt::new(9), Felt::new(27), Felt::new(81)]);
    assert!(power_series(Felt::new(3), 0).is_empty());
    let d = build_domain(4);
    let g = Felt::root_of_unity(2);
    assert_eq!(d, vec![Felt::one(), g, g.mul(g), g.mul(g).mul(g)]);
}

#[test]
fn evaluation_by_horner() {
    let coeffs = vec![Felt::new(1), Felt::new(2), Felt::new(3)];
    assert_eq!(evaluate(&coeffs, Felt::new(2)), Felt::new(17));
    assert_eq!(evaluate(&Vec::new(), Felt::new(2)), Felt::zero());
    let points = vec![Felt::new(0), Felt::new(1), Felt::new(MODULUS - 1)];
    assert_eq!(eval_many(&coeffs, &points), vec![Felt::new(1), Felt::new(6), Felt::new(2)]);
}

#[test]
fn halves_transformed_apart_then_combined() {
    for n in [2usize, 4, 32, 512] {
        let p = random_elements(n);
        let twiddles = build_twiddles(n);
        let mut whole = p.clone();
        transform_in_place(&mut whole, &twiddles);

        let (mut even, mut odd) = split_halves(&p);
        assert_eq!(even.len(), n / 2);
        assert_eq!(even[0], p[0]);
        assert_eq!(odd[0], p[1]);
        if n >= 4 {
            let half_twiddles = build_twiddles(n / 2);
            transform_in_place(&mut even, &half_twiddles);
            transform_in_place(&mut odd, &half_twiddles);
        }
        let mut combined = vec![Felt::zero(); n];
        combine_halves(&mut combined, &even, &odd, &twiddles);
        assert_eq!(combined, whole);
    }
}

#[test]
fn combine_of_single_elements() {
    let mut out = vec![Felt::zero(); 2];
    combine_halves(&mut out, &vec![Felt::new(3)], &vec![Felt::new(4)], &vec![Felt::new(5)]);
    assert_eq!(out, vec![Felt::new(23), Felt::new(MODULUS - 17)]);
}
