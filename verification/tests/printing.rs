use mba::congruence_solver::{solve_congruences, solve_scalar_congruence_mod};
use mba::lattice::AffineLattice;
use mba::matrix::Matrix;
use mba::vector::Vector;

#[test]
fn vector_basics() {
    let v = Vector::<u8>::from_slice(&[1, 2, 3]);
    assert_eq!(v.dim(), 3);
    assert!(!v.is_empty());
    assert!(Vector::<u8>::empty().is_empty());
    assert_eq!(v.entries(), &[1, 2, 3]);
    assert_eq!(*v.entry(1), 2);
    assert!(Vector::<u8>::zero(4).is_zero());
    assert!(!v.is_zero());
    assert_eq!(Vector::<u8>::uniform(2, 9).entries(), &[9, 9]);
    let mut w = v.copy();
    *w.entry_mut(0) = 200;
    w.entries_mut()[2] = 7;
    assert_eq!(w.entries(), &[200, 2, 7]);
    w.add_assign(&v);
    assert_eq!(w.entries(), &[201, 4, 10]);
    assert_eq!(w.mul(3).entries(), &[91, 12, 30]);
    assert_eq!(v.map(|e| *e as u16 * 100).entries(), &[100, 200, 300]);
    let r: Result<Vector<u8>, (usize, String)> =
        v.try_map(|e| if *e == 3 { Err("three".to_string()) } else { Ok(*e) });
    assert_eq!(r.err(), Some((2, "three".to_string())));
    let r: Result<Vector<u8>, (usize, String)> = v.try_map(|e| Ok(*e + 1));
    assert_eq!(r.unwrap().entries(), &[2, 3, 4]);
}

#[test]
fn matrix_basics() {
    let mut m = Matrix::<u8>::from_array([[1, 2, 3], [4, 5, 6]]);
    assert_eq!((m.rows, m.cols), (2, 3));
    assert_eq!(m.min_dim(), 2);
    assert_eq!(*m.entry(1, 2), 6);
    assert_eq!(m.row(1), &[4, 5, 6]);
    let mut walk = m.col(1);
    assert_eq!(walk.next(), Some(&2));
    assert_eq!(walk.next(), Some(&5));
    assert_eq!(walk.next(), None);
    assert_eq!(walk.next(), None);
    *m.entry_mut(0, 0) = 9;
    m.set(0, 1, 8);
    assert_eq!(m.row(0), &[9, 8, 3]);
    m.swap_rows(0, 1);
    assert_eq!(m.entries, vec![4, 5, 6, 9, 8, 3]);
    m.swap_columns(0, 2);
    assert_eq!(m.entries, vec![6, 5, 4, 3, 8, 9]);
    m.row_multiply_add(0, 1, 2);
    assert_eq!(m.entries, vec![6, 5, 4, 15, 18, 17]);
    m.col_multiply_add(2, 0, 255);
    assert_eq!(m.entries, vec![2, 5, 4, 254, 18, 17]);
    assert_eq!(Matrix::<u8>::empty().entries.len(), 0);
    assert_eq!(Matrix::<u8>::uniform(2, 2, 7).entries, vec![7; 4]);
    assert_eq!(Matrix::<u8>::zero(2, 3).entries, vec![0; 6]);
    assert_eq!(Matrix::<u8>::zero(0, 3).cols, 0);
    assert_eq!(Matrix::<u8>::id(3).entries, vec![1, 0, 0, 0, 1, 0, 0, 0, 1]);
    assert!(Matrix::<u8>::id(2).equals(&Matrix::from_array([[1, 0], [0, 1]])));
    assert!(!Matrix::<u8>::id(2).equals(&Matrix::id(3)));
    let n = m.map(|e| *e as u32 + 1);
    assert_eq!(n.entries, vec![3, 6, 5, 255, 19, 18]);
    let r: Result<Matrix<u8>, (usize, usize, ())> =
        m.try_map(|e| if *e == 18 { Err(()) } else { Ok(*e) });
    assert_eq!(r.err(), Some((2, 1, ())));
}

#[test]
fn matrix_products() {
    let a = Matrix::<u8>::from_array([[1, 2], [3, 4], [5, 6]]);
    let b = Matrix::<u8>::from_array([[7, 8, 9, 10], [11, 12, 13, 14]]);
    let c = a.mul(&b);
    assert_eq!((c.rows, c.cols), (3, 4));
    assert_eq!(c.entries, vec![29, 32, 35, 38, 65, 72, 79, 86, 101, 112, 123, 134]);
    let v = Vector::<u8>::from_slice(&[100, 200]);
    assert_eq!(a.mul_vec(&v).entries(), &[244, 76, 164]);
    assert!(a.mul(&Matrix::<u8>::id(2)).equals(&a));
}

#[test]
fn vector_in_latex() {
    let v = Vector::<u8>::from_slice(&[1, 255, 128, 127, 0]);
    assert_eq!(
        v.to_tex(),
        "\\left[\\begin{array}{}1\\\\-1\\\\-128\\\\127\\\\0\\\\\\end{array}\\right]"
    );
    assert_eq!(Vector::<u8>::empty().to_tex(), "\\left[\\begin{array}{}\\end{array}\\right]");
    let v = Vector::<u128>::from_slice(&[u128::MAX, 1 << 126]);
    assert_eq!(
        v.to_tex(),
        "\\left[\\begin{array}{}-1\\\\85070591730234615865843651857942052864\\\\\\end{array}\\right]"
    );
}

#[test]
fn matrix_in_latex() {
    let m = Matrix::<u8>::from_array([[1, 2], [254, 4]]);
    assert_eq!(m.to_tex(), "\\left[\\begin{array}{}1 & 2\\\\-2 & 4\\\\\\end{array}\\right]");
    assert_eq!(Matrix::<u8>::empty().to_tex(), "\\left[\\begin{array}{}\\end{array}\\right]");
}

#[test]
fn lattice_in_latex() {
    let l = AffineLattice::<u8> {
        offset: Vector::from_slice(&[1, 2]),
        basis: vec![Vector::from_slice(&[3, 4]), Vector::from_slice(&[5, 6])],
    };
    let v = |a: u8, b: u8| format!("\\left[\\begin{{array}}{{}}{}\\\\{}\\\\\\end{{array}}\\right]", a, b);
    assert_eq!(l.to_tex(), format!("{}+a_1{}+a_2{}", v(1, 2), v(3, 4), v(5, 6)));
    assert_eq!(
        l.to_tex_brace(),
        format!("\\left({}+a_1{}+a_2{}\\right)", v(1, 2), v(3, 4), v(5, 6))
    );
    let l = AffineLattice::<u8> { offset: Vector::from_slice(&[1, 2]), basis: vec![] };
    assert_eq!(l.to_tex_brace(), v(1, 2));
    assert!(AffineLattice::<u8>::empty().is_empty());
}

#[test]
fn lattice_points_are_the_solutions() {
    let a = Matrix::<u8>::from_array([[2, 4], [6, 8]]);
    let b = Vector::<u8>::from_slice(&[2, 6]);
    let l = solve_congruences(a.copy(), &b);
    // every solution is a point of the lattice, and every sampled point a solution
    let mut points = std::collections::BTreeSet::new();
    let coefficients: Vec<Vec<u8>> = match l.basis.len() {
        0 => vec![vec![]],
        1 => (0u16..256).map(|c| vec![c as u8]).collect(),
        _ => (0u16..256)
            .flat_map(|c| (0u16..256).map(move |d| vec![c as u8, d as u8]))
            .collect(),
    };
    assert!(l.basis.len() <= 2);
    for cs in coefficients {
        let x = l.sample(&cs);
        assert_eq!(a.mul_vec(&x).entries(), b.entries());
        points.insert((x.entries()[0], x.entries()[1]));
    }
    for x0 in 0u16..256 {
        for x1 in 0u16..256 {
            let x = Vector::<u8>::from_slice(&[x0 as u8, x1 as u8]);
            let solves = a.mul_vec(&x).entries() == b.entries();
            assert_eq!(solves, points.contains(&(x0 as u8, x1 as u8)));
        }
    }
}

#[test]
fn scalar_congruence_by_a_division_chain() {
    assert_eq!(solve_scalar_congruence_mod(0u8, 0u8, 7u8), Some((0, 1)));
    assert_eq!(solve_scalar_congruence_mod(0u8, 1u8, 7u8), None);
    for a in 1u8..20 {
        for b in 0u8..20 {
            if let Some((x, _)) = solve_scalar_congruence_mod(a, b, 13u8) {
                assert_eq!(a.wrapping_mul(x), b);
            }
        }
    }
}

#[test]
fn column_walk_from_matrix() {
    let m = Matrix::<u16>::from_array([[1, 2], [3, 4], [5, 6]]);
    let mut walk = mba::matrix::Column::from_matrix(&m, 0);
    let mut seen = Vec::new();
    while let Some(e) = walk.next() {
        seen.push(*e);
    }
    assert_eq!(seen, vec![1, 3, 5]);
}

#[test]
fn column_walk_writes_entries() {
    let mut m = Matrix::<u16>::from_array([[1, 2], [3, 4], [5, 6]]);
    {
        let mut walk = m.col_mut(1);
        let mut k = 0;
        while let Some(e) = walk.next() {
            *e += 10 * k;
            k += 1;
        }
        assert_eq!(k, 3);
    }
    assert_eq!(m.entries, vec![1, 2, 3, 14, 5, 26]);
    let mut walk = mba::matrix::ColumnMut::from_matrix(&mut m, 0);
    *walk.next().unwrap() = 0;
    assert_eq!(m.entries, vec![0, 2, 3, 14, 5, 26]);
}

#[test]
fn row_can_be_written_to() {
    let mut m = Matrix::<u8>::from_array([[1, 2, 3], [4, 5, 6]]);
    {
        let row = m.row_mut(1);
        assert_eq!(row, &[4, 5, 6]);
        row[0] = 7;
        row[2] = 9;
    }
    assert_eq!(m.entries, vec![1, 2, 3, 7, 5, 9]);
    assert_eq!(m.row_mut(0), &[1, 2, 3]);
}

#[test]
fn vector_walk() {
    let v = Vector::<u8>::from_slice(&[1, 2, 3]);
    let seen: Vec<u8> = v.iter().cloned().collect();
    assert_eq!(seen, vec![1, 2, 3]);
    assert_eq!(Vector::<u8>::empty().iter().next(), None);
}
