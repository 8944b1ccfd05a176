use mba::perm_poly::{
    composes_to_identity, invert, invert_fermat, invert_lagrange, invert_newton, invert_poly,
    invert_poly_impl, is_perm_poly, random_permutation, Algorithm, InvertError,
};
use mba::obfuscate::Bitness;
use mba::poly_parser::{parse_poly, PolyError};
use mba::polynomial::Polynomial;
use mba::reduction::compose;
use mba::zero_ideal::ZeroIdeal;

fn poly(c: &[u8]) -> Polynomial<u8> {
    Polynomial::from_coeffs(c)
}

#[test]
fn polynomial_basics() {
    assert!(Polynomial::<u8>::zero().is_zero());
    assert_eq!(Polynomial::<u8>::zero().degree(), -1);
    assert_eq!(Polynomial::<u8>::constant(5).coeffs, vec![5]);
    assert_eq!(Polynomial::<u8>::one().coeffs, vec![1]);
    assert_eq!(poly(&[1, 2, 3]).len(), 3);
    assert_eq!(poly(&[1, 2, 3]).degree(), 2);
    assert!(poly(&[0, 1]).is_id());
    assert!(!poly(&[0, 1, 0]).is_id());
    assert!(!poly(&[1, 1]).is_id());
    assert_eq!(poly(&[1, 0, 2, 0, 0]).truncated().coeffs, vec![1, 0, 2]);
    assert_eq!(poly(&[0, 0]).truncated().coeffs, Vec::<u8>::new());
}

#[test]
fn polynomial_evaluation_by_horner() {
    let p = poly(&[3, 2, 4]);
    for x in 0u16..256 {
        let x = x as u8;
        let expected = 3u8
            .wrapping_add(2u8.wrapping_mul(x))
            .wrapping_add(4u8.wrapping_mul(x).wrapping_mul(x));
        assert_eq!(p.eval(x), expected);
    }
    assert_eq!(Polynomial::<u8>::zero().eval(17), 0);
}

#[test]
fn polynomial_times_linear_factor() {
    let mut p = poly(&[1, 2]);
    p.mul_lin(3);
    // (1 + 2X)(X - 3) = -3 - 5X + 2X^2
    assert_eq!(p.coeffs, vec![253, 251, 2]);
    let mut z = Polynomial::<u8>::zero();
    z.mul_lin(9);
    assert_eq!(z.coeffs, vec![0]);
}

#[test]
fn polynomial_derivative() {
    assert_eq!(poly(&[7, 3, 2, 100]).derivative().coeffs, vec![3, 4, 44]);
    assert_eq!(Polynomial::<u8>::zero().derivative().coeffs, Vec::<u8>::new());
    assert_eq!(poly(&[7]).derivative().coeffs, Vec::<u8>::new());
}

#[test]
fn polynomial_arithmetic() {
    let a = poly(&[1, 2, 3]);
    let b = poly(&[250, 10]);
    assert_eq!(a.add(&b).coeffs, vec![251, 12, 3]);
    assert_eq!(a.sub(&b).coeffs, vec![7, 248, 3]);
    assert_eq!(b.sub(&a).coeffs, vec![249, 8, 253]);
    assert_eq!(a.mul(&b).coeffs, vec![250, 254, 2, 30]);
    assert_eq!(a.mul(&Polynomial::zero()).coeffs, Vec::<u8>::new());
    let mut c = a.copy();
    c.add_assign(&b);
    assert_eq!(c.coeffs, vec![251, 12, 3]);
    c.sub_assign(&b);
    assert_eq!(c.coeffs, vec![1, 2, 3]);
    c.add_const(255);
    assert_eq!(c.coeffs, vec![0, 2, 3]);
    c.shl_assign(7);
    assert_eq!(c.coeffs, vec![0, 0, 128]);
    c.mul_assign(&b);
    assert_eq!(c.coeffs, vec![0, 0, 0, 0]);
    let mut z = Polynomial::<u8>::zero();
    z.add_const(4);
    assert_eq!(z.coeffs, vec![4]);
}

#[test]
fn zero_ideal_of_a_byte() {
    let zi = ZeroIdeal::<u8>::init();
    assert_eq!(zi.n, 8);
    // the factorials of 2, 4, 6, 8, 10 have 1, 3, 4, 7, 8 factors two
    assert_eq!(zi.gen.len(), 5);
    for (k, g) in zi.gen.iter().enumerate() {
        assert_eq!(g.len(), 2 * k + 3);
    }
    assert_eq!(zi.gen[0].coeffs, vec![0, 128, 128]);
    assert_eq!(*zi.gen[4].coeffs.last().unwrap(), 1);
    assert_eq!(*zi.gen[1].coeffs.last().unwrap(), 32);
}

#[test]
fn zero_ideal_generators_vanish_on_the_ring() {
    let zi = ZeroIdeal::<u8>::init();
    for g in zi.gen.iter() {
        for x in 0u16..256 {
            assert_eq!(g.eval(x as u8), 0);
        }
    }
    let zi = ZeroIdeal::<u16>::init();
    for g in zi.gen.iter() {
        for x in 0u32..65536 {
            assert_eq!(g.eval(x as u16), 0);
        }
    }
    let zi = ZeroIdeal::<u64>::init();
    for g in zi.gen.iter() {
        for x in [0u64, 1, 2, 3, 0xdead_beef, u64::MAX, 1 << 63, 0x0123_4567_89ab_cdef] {
            assert_eq!(g.eval(x), 0);
        }
    }
    let zi = ZeroIdeal::<u128>::init();
    for g in zi.gen.iter() {
        for x in [0u128, 1, u128::MAX, 1 << 127, 0x0123_4567_89ab_cdef_0011_2233_4455_6677] {
            assert_eq!(g.eval(x), 0);
        }
    }
}

#[test]
fn simplification_keeps_the_values() {
    let zi = ZeroIdeal::<u8>::init();
    let p = poly(&[1, 2, 3, 4, 5, 6, 7, 8, 9, 10, 11, 12, 13, 200, 100]);
    let q = p.copy().simplified(&zi);
    assert!(q.len() <= 10);
    for x in 0u16..256 {
        assert_eq!(q.eval(x as u8), p.eval(x as u8));
    }
    let mut r = p.copy();
    r.reduce(&zi);
    assert!(r.len() <= 10);
    for x in 0u16..256 {
        assert_eq!(r.eval(x as u8), p.eval(x as u8));
    }
    let mut z = Polynomial::<u8>::zero();
    z.simplify(&zi);
    assert!(z.is_zero());
}

#[test]
fn composition_is_the_value_of_the_value() {
    let zi = ZeroIdeal::<u8>::init();
    let p = poly(&[3, 2, 4]);
    let q = poly(&[1, 7, 0, 5]);
    let c = compose(&p, &q, &zi);
    for x in 0u16..256 {
        assert_eq!(c.eval(x as u8), p.eval(q.eval(x as u8)));
    }
}

#[test]
fn permutation_criterion() {
    assert!(is_perm_poly(&poly(&[3, 2, 4]).derivative()) == false);
    assert!(is_perm_poly(&poly(&[3, 1, 4, 2])));
    assert!(is_perm_poly(&poly(&[0, 1])));
    assert!(!is_perm_poly(&poly(&[3, 2, 4])));
    assert!(!is_perm_poly(&poly(&[3, 1, 1])));
    assert!(!is_perm_poly(&poly(&[3, 1, 0, 1])));
    assert!(is_perm_poly(&poly(&[3, 1, 1, 1, 1, 1])));
    assert!(!is_perm_poly(&poly(&[5])));
    assert!(!is_perm_poly(&Polynomial::<u8>::zero()));
}

fn permutes(p: &Polynomial<u8>) -> bool {
    let mut seen = [false; 256];
    for x in 0u16..256 {
        seen[p.eval(x as u8) as usize] = true;
    }
    seen.iter().all(|b| *b)
}

#[test]
fn permutation_criterion_means_a_permutation() {
    for a0 in [0u8, 3] {
        for a1 in 0u8..4 {
            for a2 in 0u8..4 {
                for a3 in 0u8..4 {
                    let p = poly(&[a0, a1, a2, a3]);
                    assert_eq!(is_perm_poly(&p), permutes(&p), "{:?}", p.coeffs);
                }
            }
        }
    }
}

#[test]
fn permutation_polynomial_inversion_by_newton() {
    let zi = ZeroIdeal::<u8>::init();
    // 3 + X + 4X^2 does permute the ring; 3 + 2X + 4X^2 does not
    assert!(!is_perm_poly(&poly(&[3, 2, 4])));
    let p = poly(&[3, 1, 4]);
    assert!(is_perm_poly(&p));
    let q = invert_newton(&p, &zi).expect("Newton's method inverts a permutation polynomial");
    assert!(compose(&p, &q, &zi).simplified(&zi).is_id());
    for x in 0u16..256 {
        assert_eq!(p.eval(q.eval(x as u8)), x as u8);
        assert_eq!(q.eval(p.eval(x as u8)), x as u8);
    }
}

#[test]
fn inverse_composed_with_the_polynomial_is_the_identity() {
    let zi = ZeroIdeal::<u8>::init();
    for c in [vec![3u8, 1, 4], vec![0, 1], vec![7, 5, 2, 4], vec![1, 3, 6, 2, 4], vec![9, 255, 0, 2]] {
        let p = poly(&c).simplified(&zi);
        assert!(is_perm_poly(&poly(&c)));
        for alg in [Algorithm::Newton, Algorithm::Fermat, Algorithm::Lagrange] {
            let q = invert(&p, &zi, alg).expect("an inverse");
            assert!(compose(&p, &q, &zi).simplified(&zi).is_id(), "{:?} {:?}", c, alg);
            for x in 0u16..256 {
                assert_eq!(p.eval(q.eval(x as u8)), x as u8);
            }
        }
        let f = invert_fermat(&p, &zi).unwrap();
        let l = invert_lagrange(&p, &zi).unwrap();
        for x in 0u16..256 {
            assert_eq!(f.eval(p.eval(x as u8)), x as u8);
            assert_eq!(l.eval(p.eval(x as u8)), x as u8);
        }
    }
}

#[test]
fn inversion_over_a_wider_ring() {
    let zi = ZeroIdeal::<u32>::init();
    let p = Polynomial::<u32>::from_coeffs(&[12345, 7, 2, 4, 6]);
    assert!(is_perm_poly(&p));
    let q = invert(&p, &zi, Algorithm::Newton).unwrap();
    for x in [0u32, 1, 2, 0xffff_ffff, 0x8000_0000, 123_456_789] {
        assert_eq!(p.eval(q.eval(x)), x);
    }
}

#[test]
fn inversion_from_text() {
    assert!(invert_poly("4x^2 + x + 3".to_string(), Bitness::U8, "Newton".to_string()).is_ok());
    assert!(invert_poly("4 1 3".to_string(), Bitness::U8, "Fermat".to_string()).is_ok());
    assert!(invert_poly("4 1 3".to_string(), Bitness::U16, "Lagrange".to_string()).is_ok());
    assert_eq!(
        invert_poly("4x^2 + 2x + 3".to_string(), Bitness::U8, "Newton".to_string()),
        Err("The input is not a permutation polynomial".to_string())
    );
    assert_eq!(
        invert_poly("4x^2 + x + 3".to_string(), Bitness::U8, "Euler".to_string()),
        Err("Invalid algorithm.".to_string())
    );
    assert_eq!(
        invert_poly("4x^ + x".to_string(), Bitness::U8, "Newton".to_string()),
        Err("Failed to parse exponent.".to_string())
    );
    assert_eq!(invert_poly("x".to_string(), Bitness::U8, "Newton".to_string()), Ok("X".to_string()));
}

#[test]
fn random_permutation_polynomials_permute() {
    let zi = ZeroIdeal::<u8>::init();
    for _ in 0..20 {
        let p = random_permutation(&zi);
        assert!(permutes(&p));
        assert!(p.len() <= 10);
    }
    let text = mba::perm_poly::rand_poly(Bitness::U8);
    let p = parse_poly::<u8>(&text).unwrap();
    assert!(permutes(&p));
}

#[test]
fn polynomial_parser_reads_both_notations() {
    assert_eq!(parse_poly::<u8>("4x^2 + 3x + 2").unwrap().coeffs, vec![2, 3, 4]);
    assert_eq!(parse_poly::<u8>("4*X^2+3*x+2").unwrap().coeffs, vec![2, 3, 4]);
    assert_eq!(parse_poly::<u8>("4 3 2").unwrap().coeffs, vec![2, 3, 4]);
    assert_eq!(parse_poly::<u8>("  4\t3\n2 ").unwrap().coeffs, vec![2, 3, 4]);
    assert_eq!(parse_poly::<u8>("x").unwrap().coeffs, vec![0, 1]);
    assert_eq!(parse_poly::<u8>("-x^3").unwrap().coeffs, vec![0, 0, 0, 255]);
    assert_eq!(parse_poly::<u8>("x - 1").unwrap().coeffs, vec![255, 1]);
    assert_eq!(parse_poly::<u8>("300x").unwrap().coeffs, vec![0, 44]);
    assert_eq!(parse_poly::<u8>("0 0 5").unwrap().coeffs, vec![5]);
    assert_eq!(parse_poly::<u8>("").unwrap().coeffs, Vec::<u8>::new());
    assert_eq!(parse_poly::<u8>("0x^5").unwrap().coeffs, Vec::<u8>::new());
    // a later term of the same power takes the place of an earlier one
    assert_eq!(parse_poly::<u8>("4x + 3x").unwrap().coeffs, vec![0, 3]);
}

#[test]
fn polynomial_parser_errors() {
    assert_eq!(parse_poly::<u8>("4x^2 + 3\u{e9}").err(), Some(PolyError::NonAscii));
    assert_eq!(parse_poly::<u8>("4x^").err(), Some(PolyError::Exponent));
    assert_eq!(parse_poly::<u8>("4x^y").err(), Some(PolyError::Exponent));
    assert_eq!(parse_poly::<u8>("x?").err(), Some(PolyError::Stuck));
    assert_eq!(parse_poly::<u8>("4 a 3").err(), Some(PolyError::Coefficient));
    assert_eq!(parse_poly::<u8>("4 3b").err(), Some(PolyError::Coefficient));
    assert_eq!(
        parse_poly::<u8>("x^99999999999999999999999999").err(),
        Some(PolyError::Exponent)
    );
    assert_eq!(PolyError::NonAscii.message(), "Non-ascii input.");
    assert_eq!(PolyError::Coefficient.message(), "Failed to parse coefficient.");
}

#[test]
fn polynomial_round_trips_through_its_text() {
    for c in [vec![2u8, 3, 4], vec![0, 1], vec![255, 0, 0, 7], vec![9], vec![]] {
        let p = poly(&c);
        let text = p.to_string();
        assert_eq!(parse_poly::<u8>(&text).unwrap().coeffs, c, "{}", text);
    }
    assert_eq!(poly(&[2, 3, 4]).to_string(), "4x^2 + 3x^1 + 2");
    assert_eq!(poly(&[0, 0]).to_string(), "0");
}

#[test]
fn polynomial_in_latex() {
    assert_eq!(poly(&[3, 2, 4]).to_tex(), "4X^{2}+2X+3");
    assert_eq!(poly(&[0, 1]).to_tex(), "X");
    assert_eq!(poly(&[0, 0, 1, 0, 9]).to_tex(), "9X^{4}+X^{2}");
    assert_eq!(poly(&[1]).to_tex(), "1");
    assert_eq!(Polynomial::<u8>::zero().to_tex(), "0");
    assert_eq!(poly(&[0, 0]).to_tex(), "0");
    assert_eq!(poly(&[200, 0, 0, 0, 0, 0, 0, 0, 0, 0, 0, 0, 3]).to_tex(), "3X^{12}+200");
}

#[test]
fn a_polynomial_is_read_as_it_is_written() {
    for coeffs in [
        vec![],
        vec![0u8],
        vec![5],
        vec![5, 0, 0],
        vec![0, 1],
        vec![3, 1, 4],
        vec![0, 0, 255],
        vec![7, 0, 0, 9, 0],
        vec![1; 12],
    ] {
        let p = Polynomial::<u8>::from_coeffs(&coeffs);
        let text = p.to_string();
        let q = parse_poly::<u8>(&text).expect(&text);
        let mut want = coeffs.clone();
        while want.last() == Some(&0) {
            want.pop();
        }
        assert_eq!(q.coeffs, want, "{}", text);
    }
}

#[test]
fn inversion_errors_have_their_messages() {
    assert_eq!(
        invert_poly_impl::<u8>("4x^", "Newton"),
        Err(InvertError::Parse(PolyError::Exponent))
    );
    assert_eq!(
        invert_poly_impl::<u8>("x\u{e9}", "Newton"),
        Err(InvertError::Parse(PolyError::NonAscii))
    );
    assert_eq!(invert_poly_impl::<u8>("2x + 1", "Newton"), Err(InvertError::NotPermutation));
    assert_eq!(invert_poly_impl::<u8>("x + 1", "newton"), Err(InvertError::InvalidAlgorithm));
    assert_eq!(invert_poly_impl::<u16>("x + 1", "Fermat"), Ok("X+65535".to_string()));
    assert_eq!(InvertError::Parse(PolyError::Stuck).message(), "Got stuck while parsing polynomial.");
    assert_eq!(InvertError::NotPermutation.message(), "The input is not a permutation polynomial");
    assert_eq!(InvertError::InvalidAlgorithm.message(), "Invalid algorithm.");
    assert_eq!(InvertError::NoInverse.message(), "Failed to invert the polynomial.");
}

#[test]
fn composing_to_the_identity_is_inverting() {
    let zi = ZeroIdeal::<u8>::init();
    let p = poly(&[3, 1, 4]);
    let q = invert_newton(&p, &zi).expect("an inverse");
    assert!(composes_to_identity(&p, &q, &zi));
    assert!(composes_to_identity(&q, &p, &zi));
    // X + 1 and X + 255 invert each other; X + 1 and X + 2 do not.
    assert!(composes_to_identity(&poly(&[1, 1]), &poly(&[255, 1]), &zi));
    assert!(!composes_to_identity(&poly(&[1, 1]), &poly(&[2, 1]), &zi));
    assert!(!composes_to_identity(&p, &p, &zi));
    // A polynomial with the values of X, not in reduced form: X plus a generator.
    let mut big = zi.gen[0].copy();
    big.add_assign(&poly(&[0, 1]));
    assert!(!big.is_id());
    assert!(composes_to_identity(&big, &poly(&[0, 1]), &zi));
    assert!(composes_to_identity(&poly(&[0, 1]), &big, &zi));
}

#[test]
fn a_polynomial_that_permutes_nothing_has_no_inverse() {
    let zi = ZeroIdeal::<u8>::init();
    // 2X takes even values only.
    let p = poly(&[0, 2]);
    assert!(invert_lagrange(&p, &zi).is_none());
    assert!(invert_newton(&p, &zi).is_none());
    assert!(invert_fermat(&p, &zi).is_none());
    for alg in [Algorithm::Newton, Algorithm::Fermat, Algorithm::Lagrange] {
        assert!(invert(&p, &zi, alg).is_none());
    }
    // The constant polynomial.
    let c = poly(&[7]);
    assert!(invert_lagrange(&c, &zi).is_none());
    assert!(invert_newton(&c, &zi).is_none());
    assert!(invert_fermat(&c, &zi).is_none());
}

#[test]
fn the_methods_find_the_inverse_of_the_identity_at_once() {
    let zi = ZeroIdeal::<u8>::init();
    let x = poly(&[0, 1]);
    assert_eq!(invert_newton(&x, &zi).unwrap().coeffs, vec![0, 1]);
    assert_eq!(invert_fermat(&x, &zi).unwrap().coeffs, vec![0, 1]);
    assert_eq!(invert_lagrange(&x, &zi).unwrap().coeffs, vec![0, 1]);
    // The inverse of X + 1 is X - 1, by each method.
    let p = poly(&[1, 1]);
    for alg in [Algorithm::Newton, Algorithm::Fermat, Algorithm::Lagrange] {
        assert_eq!(invert(&p, &zi, alg).unwrap().coeffs, vec![255, 1]);
    }
}
