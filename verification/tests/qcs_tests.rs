use qcs::circuit::QCS;
use qcs::matrix::Matrix;
use qcs::scalar::Scalar;
use qcs::Error;

fn z() -> Scalar {
    Scalar::zero()
}

fn o() -> Scalar {
    Scalar::one()
}

#[test]
fn test_cnot() {
    let s_not = QCS::new(3).cnot(1, 2).unwrap().cnot(2, 1).unwrap().cnot(1, 2).unwrap();
    let swap = QCS::new(3).swap(2, 1).unwrap();
    assert_eq!(s_not, swap);
}

#[test]
fn test_controled_gate() {
    let s_not = QCS::new(5).cnot(1, 4).unwrap().cnot(2, 4).unwrap();
    let not_gate = QCS::new(1).not(0).unwrap();
    let c_not = QCS::new(5)
        .controled_gate(&not_gate, &vec![4], &vec![1])
        .unwrap()
        .controled_gate(&not_gate, &vec![4], &vec![2])
        .unwrap();
    assert_eq!(s_not, c_not);
}

#[test]
fn test_swap() {
    let swap = QCS::new(4).swap(2, 1).unwrap();
    let res = swap.run_once(&swap.value_to_tensor(0b010)).unwrap();
    let exp = swap.value_to_bit_vector(0b100);
    assert_eq!(res, exp);
}

#[test]
fn test_value_to_tensor() {
    let test = QCS::new(2);
    let res = test.value_to_tensor(0b00);
    assert_eq!(res, vec![o(), z(), z(), z()]);
    let res = test.value_to_tensor(0b01);
    assert_eq!(res, vec![z(), o(), z(), z()]);
}

fn deutsch(uf: Matrix) -> Vec<u8> {
    let test = QCS::new(2)
        .hadamard(0)
        .unwrap()
        .hadamard(1)
        .unwrap()
        .gate(&QCS::from(uf).unwrap(), &vec![0, 1])
        .unwrap()
        .hadamard(0)
        .unwrap()
        .hadamard(1)
        .unwrap();
    test.run_once(&test.value_to_tensor(0b01)).unwrap()
}

#[test]
fn test_deutsch_0() {
    let uf = Matrix::new(vec![
        vec![o(), z(), z(), z()],
        vec![z(), o(), z(), z()],
        vec![z(), z(), o(), z()],
        vec![z(), z(), z(), o()],
    ])
    .unwrap();
    assert_eq!(deutsch(uf), vec![1, 0]);
}

#[test]
fn test_deutsch_1() {
    let uf = Matrix::new(vec![
        vec![z(), o(), z(), z()],
        vec![o(), z(), z(), z()],
        vec![z(), z(), z(), o()],
        vec![z(), z(), o(), z()],
    ])
    .unwrap();
    assert_eq!(deutsch(uf), vec![1, 0]);
}

#[test]
fn test_deutsch_i() {
    let uf = Matrix::new(vec![
        vec![o(), z(), z(), z()],
        vec![z(), o(), z(), z()],
        vec![z(), z(), z(), o()],
        vec![z(), z(), o(), z()],
    ])
    .unwrap();
    assert_eq!(deutsch(uf), vec![1, 1]);
}

#[test]
fn test_deutsch_not() {
    let uf = Matrix::new(vec![
        vec![z(), o(), z(), z()],
        vec![o(), z(), z(), z()],
        vec![z(), z(), o(), z()],
        vec![z(), z(), z(), o()],
    ])
    .unwrap();
    assert_eq!(deutsch(uf), vec![1, 1]);
}

#[test]
fn test_swap_same_wire_is_identity() {
    // Swapping a wire with itself builds the identity unitary.
    for w in 0..3u8 {
        assert_eq!(QCS::new(3).swap(w, w).unwrap(), QCS::new(3));
    }
}

#[test]
fn test_run_swap_on_basis_state() {
    // Deterministic evolution: swap(2, 1) carries |010> to |100>.
    let swap = QCS::new(3).swap(2, 1).unwrap();
    let out = swap.run(&swap.value_to_tensor(0b010)).unwrap();
    assert_eq!(out, swap.value_to_tensor(0b100));
}

#[test]
fn test_run_once_with_injected_draw() {
    let swap = QCS::new(3).swap(2, 1).unwrap();
    let input = swap.value_to_tensor(0b010);
    // Any nonzero draw lands on the single nonzero-probability index.
    for u in [1u64, 0x10_0000_0000_0000, 0x1f_ffff_ffff_ffff] {
        let res = swap.run_once_with(&input, u).unwrap();
        assert_eq!(res, swap.value_to_bit_vector(0b100));
    }
    // A zero draw is met already by the zero mass before the first index.
    let res = swap.run_once_with(&input, 0).unwrap();
    assert_eq!(res, swap.value_to_bit_vector(0));
}

#[test]
fn test_measurement_spread() {
    // After a Hadamard both outcomes carry probability 1/2, so repeated
    // measurement must produce both (chance of failure about 2^-199).
    let q = QCS::new(1).hadamard(0).unwrap();
    let input = q.value_to_tensor(0);
    let mut seen_zero = false;
    let mut seen_one = false;
    for _ in 0..200 {
        let bits = q.run_once(&input).unwrap();
        match bits[0] {
            0 => seen_zero = true,
            _ => seen_one = true,
        }
    }
    assert!(seen_zero && seen_one);
}

#[test]
fn test_value_to_bit_vector() {
    let q = QCS::new(3);
    assert_eq!(q.value_to_bit_vector(0b101), vec![1, 0, 1]);
    assert_eq!(q.value_to_bit_vector(0), vec![0, 0, 0]);
    assert_eq!(QCS::new(2).value_to_bit_vector(0b111), vec![1, 1]);
}

#[test]
fn test_pow2() {
    assert_eq!(qcs::algebra::pow2(0), 1);
    assert_eq!(qcs::algebra::pow2(5), 32);
    assert_eq!(qcs::algebra::pow2(31), 0x8000_0000);
}

#[test]
fn test_linear_search() {
    let list = vec![3u8, 1, 4, 1, 5];
    assert_eq!(qcs::algebra::linear_search(&list, 1), Some(1));
    assert_eq!(qcs::algebra::linear_search(&list, 5), Some(4));
    assert_eq!(qcs::algebra::linear_search(&list, 9), None);
}

#[test]
fn test_create_swap_sequence() {
    // Wires already leading: nothing to do.
    assert_eq!(qcs::algebra::create_swap_sequence(4, &vec![0, 1]), vec![]);
    // Wire 1 must move to position 0.
    assert_eq!(qcs::algebra::create_swap_sequence(2, &vec![1]), vec![(1, 0)]);
    // Reversing the leading pair takes one swap.
    assert_eq!(qcs::algebra::create_swap_sequence(3, &vec![1, 0]), vec![(1, 0)]);
}

#[test]
fn test_invalid_wire_errors() {
    assert_eq!(QCS::new(2).cnot(0, 0).unwrap_err(), Error::InvalidWire);
    assert_eq!(QCS::new(2).cnot(5, 1).unwrap_err(), Error::InvalidWire);
    assert_eq!(QCS::new(2).hadamard(2).unwrap_err(), Error::InvalidWire);
    assert_eq!(QCS::new(2).swap(0, 2).unwrap_err(), Error::InvalidWire);
    assert_eq!(
        QCS::new(3).gate(&QCS::new(2), &vec![1, 1]).unwrap_err(),
        Error::InvalidWire
    );
}

#[test]
fn test_dimension_errors() {
    // A one-wire gate handed two wires.
    assert_eq!(
        QCS::new(3).gate(&QCS::new(1), &vec![0, 1]).unwrap_err(),
        Error::DimensionError
    );
    // A ragged grid is rejected.
    assert_eq!(
        Matrix::new(vec![vec![o(), z()], vec![o()]]).unwrap_err(),
        Error::DimensionError
    );
    // A three-row matrix is no power-of-two unitary.
    let m3 = Matrix::new(vec![
        vec![o(), z(), z()],
        vec![z(), o(), z()],
        vec![z(), z(), o()],
    ])
    .unwrap();
    assert_eq!(QCS::from(m3).unwrap_err(), Error::DimensionError);
    // An evolved vector must match the space dimension.
    assert_eq!(
        QCS::new(2).run(&vec![o(), z()]).unwrap_err(),
        Error::DimensionError
    );
}

#[test]
fn test_non_square_matrix_error() {
    let wide = Matrix::new(vec![vec![o(), z()]]).unwrap();
    assert_eq!(
        qcs::algebra::conjugate_transpose(&wide).unwrap_err(),
        Error::NonSquareMatrix
    );
    assert_eq!(
        qcs::algebra::stack_mat(2, &wide).unwrap_err(),
        Error::NonSquareMatrix
    );
}

#[test]
fn test_overflow_error() {
    // A diagonal entry of 2^40 squares past the representable coefficient
    // range when the phase unitary is applied to a matching vector.
    let big = Scalar::new(1 << 40, 0, 0, 0, 0).unwrap();
    let q = QCS::new(1).phase(&big);
    assert_eq!(q.run(&vec![big, big]).unwrap_err(), Error::Overflow);
}

#[test]
fn test_scalar_arithmetic() {
    let h = Scalar::inv_sqrt2();
    // (1/sqrt2)^2 = 1/2.
    let half = h.mul(&h).unwrap();
    assert_eq!(half, Scalar::new(1, 0, 0, 0, 1).unwrap());
    // 1/2 + 1/2 = 1.
    assert_eq!(half.add(&half).unwrap(), o());
    // Conjugation negates the imaginary coefficients only.
    let s = Scalar::new(1, 2, 3, 4, 2).unwrap();
    assert_eq!(s.conj(), Scalar::new(1, 2, -3, -4, 2).unwrap());
    // Representations are canonical: 2/4 reduces to 1/2.
    assert_eq!(Scalar::new(2, 0, 0, 0, 2).unwrap(), half);
    // Coefficients past 2^62 are rejected.
    assert!(Scalar::new(i64::MAX, 0, 0, 0, 0).is_none());
}

#[test]
fn test_conjugate_transpose_values() {
    // [[i, 0], [1, 0]] has conjugate transpose [[-i, 1], [0, 0]].
    let i_unit = Scalar::new(0, 0, 1, 0, 0).unwrap();
    let m = Matrix::new(vec![vec![i_unit, z()], vec![o(), z()]]).unwrap();
    let ct = qcs::algebra::conjugate_transpose(&m).unwrap();
    let exp = Matrix::new(vec![
        vec![Scalar::new(0, 0, -1, 0, 0).unwrap(), o()],
        vec![z(), z()],
    ])
    .unwrap();
    assert_eq!(ct, exp);
}

#[test]
fn test_hadamard_twice_is_identity() {
    // H applied twice to one wire restores the identity unitary.
    let hh = QCS::new(1).hadamard(0).unwrap().hadamard(0).unwrap();
    assert_eq!(hh, QCS::new(1));
}
