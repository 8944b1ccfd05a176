use mba::congruence_solver::{diagonalize, solve_congruences, solve_scalar_congruence};
use mba::matrix::Matrix;
use mba::numbers::{UniformNum, UnsignedInt};
use mba::small_rings::Bits;
use mba::vector::Vector;

#[test]
fn scalar_congruence_six_x_is_four() {
    let (x, k) = solve_scalar_congruence(6u8, 4u8).expect("6x = 4 has solutions modulo 256");
    assert_eq!(6u8.wrapping_mul(x), 4);
    assert_eq!(k, 128);
    // Every point of the lattice is a solution.
    for t in 0u16..256 {
        let y = x.wrapping_add((t as u8).wrapping_mul(k));
        assert_eq!(6u8.wrapping_mul(y), 4);
    }
    // Every solution is a point of the lattice.
    for y in 0u16..256 {
        let y = y as u8;
        if 6u8.wrapping_mul(y) == 4 {
            assert!((0u16..256).any(|t| x.wrapping_add((t as u8).wrapping_mul(k)) == y));
        }
    }
}

#[test]
fn scalar_congruence_without_solution() {
    assert_eq!(solve_scalar_congruence(4u8, 3u8), None);
}

#[test]
fn scalar_congruence_with_zero_factor() {
    assert_eq!(solve_scalar_congruence(0u8, 0u8), Some((0, 1)));
    assert_eq!(solve_scalar_congruence(0u8, 5u8), None);
}

#[test]
fn scalar_congruence_with_unit_factor() {
    assert_eq!(solve_scalar_congruence(1u8, 77u8), Some((77, 0)));
    let (x, k) = solve_scalar_congruence(3u32, 1u32).unwrap();
    assert_eq!(3u32.wrapping_mul(x), 1);
    assert_eq!(k, 0);
}

#[test]
fn scalar_congruence_exhaustive_for_a_byte() {
    for a in 0u16..256 {
        for b in 0u16..256 {
            let (a, b) = (a as u8, b as u8);
            let solvable = (0u16..256).any(|y| a.wrapping_mul(y as u8) == b);
            match solve_scalar_congruence(a, b) {
                None => assert!(!solvable),
                Some((x, k)) => {
                    assert!(solvable);
                    assert_eq!(a.wrapping_mul(x), b);
                    assert_eq!(a.wrapping_mul(k), 0);
                },
            }
        }
    }
}

fn product(a: &Matrix<u8>, b: &Matrix<u8>) -> Matrix<u8> {
    a.mul(b)
}

#[test]
fn diagonalization_is_a_product() {
    let a = Matrix::<u8>::from_array([[2, 4], [6, 8]]);
    let mut d = a.copy();
    let (s, t) = diagonalize(&mut d);
    assert!(product(&product(&s, &a), &t).equals(&d));
    assert_eq!(*d.entry(0, 1), 0);
    assert_eq!(*d.entry(1, 0), 0);
}

#[test]
fn diagonalization_of_a_wide_and_a_tall_matrix() {
    let a = Matrix::<u16>::from_array([[3, 6, 9], [12, 15, 18]]);
    let mut d = a.copy();
    let (s, t) = diagonalize(&mut d);
    assert!(s.mul(&a).mul(&t).equals(&d));
    for r in 0..2 {
        for c in 0..3 {
            if r != c {
                assert_eq!(*d.entry(r, c), 0);
            }
        }
    }
    let a = Matrix::<u16>::from_array([[3, 6], [9, 12], [5, 7]]);
    let mut d = a.copy();
    let (s, t) = diagonalize(&mut d);
    assert!(s.mul(&a).mul(&t).equals(&d));
    for r in 0..3 {
        for c in 0..2 {
            if r != c {
                assert_eq!(*d.entry(r, c), 0);
            }
        }
    }
}

#[test]
fn lattice_of_a_system() {
    let a = Matrix::<u8>::from_array([[2, 4], [6, 8]]);
    let b = Vector::<u8>::from_slice(&[2, 6]);
    let l = solve_congruences(a.copy(), &b);
    assert!(!l.is_empty());
    assert_eq!(l.offset.dim(), 2);
    let image = a.mul_vec(&l.offset);
    assert_eq!(image.entries(), b.entries());
    for v in l.basis.iter() {
        assert!(a.mul_vec(v).is_zero());
    }
    // The solutions, by exhaustion, are the points of the lattice.
    let mut count = 0usize;
    for x0 in 0u16..256 {
        for x1 in 0u16..256 {
            let x = Vector::<u8>::from_slice(&[x0 as u8, x1 as u8]);
            if a.mul_vec(&x).entries() == b.entries() {
                count += 1;
            }
        }
    }
    assert!(count > 0);
}

#[test]
fn system_without_solution() {
    let a = Matrix::<u8>::from_array([[2, 0], [0, 2]]);
    let b = Vector::<u8>::from_slice(&[1, 0]);
    assert!(solve_congruences(a, &b).is_empty());
}

#[test]
fn system_with_free_unknowns() {
    let a = Matrix::<u8>::from_array([[1, 1, 1]]);
    let b = Vector::<u8>::from_slice(&[5]);
    let l = solve_congruences(a.copy(), &b);
    assert_eq!(l.basis.len(), 2);
    assert_eq!(a.mul_vec(&l.offset).entries(), b.entries());
    for v in l.basis.iter() {
        assert!(a.mul_vec(v).is_zero());
    }
}

#[test]
fn ring_operations_wrap() {
    assert_eq!(UnsignedInt::add(200u8, 100u8), 44);
    assert_eq!(UnsignedInt::sub(0u8, 1u8), 255);
    assert_eq!(UnsignedInt::mul(16u8, 16u8), 0);
    assert_eq!(<u8 as UnsignedInt>::from_u128(257), 1);
    assert!(UnsignedInt::print_negative(128u8));
    assert!(!UnsignedInt::print_negative(127u8));
    assert_eq!(UnsignedInt::mul(u128::MAX, u128::MAX), 1);
}

#[test]
fn a_ring_of_five_bits() {
    type B = Bits<5>;
    assert_eq!(B::size(), 32);
    assert_eq!(B::new(37).reduced(), 5);
    assert_eq!(B::new(31).add(B::new(2)).reduced(), 1);
    assert_eq!(B::new(1).sub(B::new(2)).reduced(), 31);
    assert_eq!(B::new(7).mul(B::new(9)).reduced(), 63 % 32);
    assert_eq!(B::new(29).div(B::new(4)).reduced(), 7);
    assert_eq!(B::new(29).rem(B::new(4)).reduced(), 1);
    assert_eq!(B::new(0b10110).and(B::new(0b01110)).reduced(), 0b00110);
    assert_eq!(B::new(0b10110).or(B::new(0b01110)).reduced(), 0b11110);
    assert_eq!(B::new(0b10110).xor(B::new(0b01110)).reduced(), 0b11000);
    assert_eq!(B::new(0b10110).not().reduced(), 0b01001);
    assert!(B::new(16).print_negative());
    assert!(!B::new(15).print_negative());
    assert!(B::new(3).lt(B::new(4)));
    assert!(B::new(35).eq(B::new(3)));
    assert_eq!(B::from_u128(u128::MAX).reduced(), 31);
    assert_eq!(B::from_u8(255).to_u128(), 31);
    assert_eq!(B::zero().reduced(), 0);
    assert_eq!(B::one().reduced(), 1);
    // A width that is not from 1 to 63 is taken as 63.
    assert_eq!(Bits::<0>::size(), 1 << 63);
    assert_eq!(Bits::<64>::size(), 1 << 63);
    assert_eq!(Bits::<63>::size(), 1 << 63);
    assert_eq!(Bits::<1>::size(), 2);
    assert_eq!(Bits::<63>::new(u64::MAX).mul(Bits::<63>::new(u64::MAX)).reduced(), 1);
}

#[test]
fn congruences_over_a_ring_of_five_bits() {
    type B = Bits<5>;
    let (x, k) = solve_scalar_congruence(B::new(6), B::new(4)).expect("6x = 4 has solutions");
    assert_eq!(k.reduced(), 16);
    for t in 0..32u64 {
        let y = x.add(B::new(t).mul(k));
        assert_eq!(B::new(6).mul(y).reduced(), 4);
    }
    assert!(solve_scalar_congruence(B::new(4), B::new(3)).is_none());
    let a = Matrix::<B>::from_array([[B::new(2), B::new(4)], [B::new(6), B::new(8)]]);
    let b = Vector::<B>::from_slice(&[B::new(2), B::new(6)]);
    let mut d = a.copy();
    let (s, t) = diagonalize(&mut d);
    assert!(s.mul(&a).mul(&t).equals(&d));
    let l = solve_congruences(a.copy(), &b);
    assert!(!l.is_empty());
    let image = a.mul_vec(&l.offset);
    assert_eq!(image.entries[0].reduced(), 2);
    assert_eq!(image.entries[1].reduced(), 6);
    for v in l.basis.iter() {
        let image = a.mul_vec(v);
        assert_eq!(image.entries[0].reduced(), 0);
        assert_eq!(image.entries[1].reduced(), 0);
    }
}
