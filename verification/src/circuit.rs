use vstd::prelude::*;
use vstd::arithmetic::power2::pow2 as pow2_nat;
use crate::algebra::{apply_matrix_to, apply_spec, create_controled_gate, create_swap_matrix,
    ctrl_model, id_model, identity_matrix, pow2, swap_matrix_model};
use crate::matrix::{MatModel, Matrix, dot, mat_cols, mat_mul_val, mat_rows, mat_wf, mul_defined,
    row_model, rows_model};
use crate::sampling::{sample_index, sample_spec, sample_uniform_below};
use crate::scalar::{SModel, Scalar, sc_conj, sc_mul_spec, sc_neg, sc_one, sc_wf, sc_zero};
use crate::Error;

verus! {

/// Mathematical content of a `QCS`: the wire count and the accumulated
/// unitary as a grid of exact scalars.
pub ghost struct QModel {
    pub n: nat,
    pub m: MatModel,
}

/// Every wire below the wire count and no wire listed twice.
pub open spec fn wires_ok(wires: Seq<u8>, n: nat) -> bool {
    &&& forall|i: int| 0 <= i < wires.len() ==> (#[trigger] wires[i]) < n
    &&& forall|i: int, j: int| 0 <= i < j < wires.len() ==> wires[i] != wires[j]
}

/// Distinct wires below `n` number at most `n`.
pub proof fn lemma_wires_count(wires: Seq<u8>, n: nat)
    requires
        wires_ok(wires, n),
    ensures
        wires.len() <= n,
{
    let ints = wires.map_values(|x: u8| x as int);
    assert forall|i: int, j: int| 0 <= i < j < ints.len() implies ints[i] != ints[j] by {
        assert(wires[i] != wires[j]);
    }
    assert(ints.no_duplicates());
    ints.unique_seq_to_set();
    assert forall|x: int| ints.to_set().contains(x) implies vstd::set_lib::set_int_range(
        0,
        n as int,
    ).contains(x) by {
        let i = choose|i: int| 0 <= i < ints.len() && ints[i] == x;
        assert(wires[i] < n);
    }
    vstd::set_lib::lemma_int_range(0, n as int);
    vstd::set_lib::lemma_len_subset(ints.to_set(), vstd::set_lib::set_int_range(0, n as int));
}

pub open spec fn qres_model(r: Result<QCS, Error>) -> Result<QModel, Error> {
    match r {
        Ok(q) => Ok(q@),
        Err(e) => Err(e),
    }
}

/// Applying `g` to the wires of `wires`: validate, conjugate the embedded
/// gate onto those wires, and left-multiply it onto the accumulated unitary.
pub open spec fn gate_spec(s: QModel, g: QModel, wires: Seq<u8>) -> Result<QModel, Error> {
    if !wires_ok(wires, s.n) {
        Err(Error::InvalidWire)
    } else if g.n != wires.len() {
        Err(Error::DimensionError)
    } else {
        match apply_spec(s.n, g.m, wires) {
            Err(e) => Err(e),
            Ok(am) => if mul_defined(am, s.m) {
                Ok(QModel { n: s.n, m: mat_mul_val(am, s.m) })
            } else {
                Err(Error::Overflow)
            },
        }
    }
}

/// Applying the controlled form of `g`: the targets first, the controls
/// after them, and the enlarged gate conjugated onto that combined list.
pub open spec fn controled_gate_spec(
    s: QModel,
    g: QModel,
    wires: Seq<u8>,
    control_wires: Seq<u8>,
) -> Result<QModel, Error> {
    let all = wires + control_wires;
    if !wires_ok(all, s.n) {
        Err(Error::InvalidWire)
    } else if g.n != wires.len() {
        Err(Error::DimensionError)
    } else {
        let cg = ctrl_model(pow2_nat(control_wires.len()), g.m);
        match apply_spec(s.n, cg, all) {
            Err(e) => Err(e),
            Ok(am) => if mul_defined(am, s.m) {
                Ok(QModel { n: s.n, m: mat_mul_val(am, s.m) })
            } else {
                Err(Error::Overflow)
            },
        }
    }
}

/// The Hadamard coefficient 1/sqrt(2).
pub open spec fn sc_hinv() -> SModel {
    SModel { a: 0, b: 1, c: 0, d: 0, k: 1 }
}

pub open spec fn hadamard_model() -> MatModel {
    seq![seq![sc_hinv(), sc_hinv()], seq![sc_hinv(), sc_neg(sc_hinv())]]
}

pub open spec fn not_model() -> MatModel {
    seq![seq![sc_zero(), sc_one()], seq![sc_one(), sc_zero()]]
}

/// The controlled-not on two wires: target is wire 0, control is wire 1.
pub open spec fn cnot_model() -> MatModel {
    seq![
        seq![sc_one(), sc_zero(), sc_zero(), sc_zero()],
        seq![sc_zero(), sc_one(), sc_zero(), sc_zero()],
        seq![sc_zero(), sc_zero(), sc_zero(), sc_one()],
        seq![sc_zero(), sc_zero(), sc_one(), sc_zero()],
    ]
}

pub open spec fn phase_model(s: SModel) -> MatModel {
    seq![seq![sc_one(), sc_zero()], seq![sc_zero(), s]]
}

/// Wire count of a state space of `dim` basis states: floor(log2(dim)).
pub open spec fn qbits_of(dim: nat) -> nat
    decreases dim,
{
    if dim <= 1 {
        0
    } else {
        qbits_of(dim / 2) + 1
    }
}

/// The input vector as a single-column grid.
pub open spec fn col_model(v: Seq<SModel>) -> MatModel {
    Seq::new(v.len(), |i: int| seq![v[i]])
}

/// Evolving `v` through the accumulated unitary of `q`.
pub open spec fn run_spec(q: QModel, v: Seq<SModel>) -> Result<Seq<SModel>, Error> {
    if v.len() != pow2_nat(q.n) {
        Err(Error::DimensionError)
    } else if mul_defined(q.m, col_model(v)) {
        Ok(Seq::new(v.len(), |i: int| dot(q.m, col_model(v), i, 0)->Some_0))
    } else {
        Err(Error::Overflow)
    }
}

/// The one-hot basis column for basis index `v` (all zero when `v` lies
/// outside the space).
pub open spec fn basis_model(dim: nat, v: int) -> Seq<SModel> {
    Seq::new(dim, |i: int| if i == v { sc_one() } else { sc_zero() })
}

/// The little-endian bit decomposition of `value` into `n` bits.
pub open spec fn bits_model(n: nat, value: int) -> Seq<u8> {
    Seq::new(n, |i: int| (((value / (pow2_nat(i as nat) as int)) % 2) as u8))
}

/// The Born-rule weight of one amplitude: z times its conjugate.
pub open spec fn prob_of(z: SModel) -> Option<SModel> {
    sc_mul_spec(z, sc_conj(z))
}

pub open spec fn probs_defined(v: Seq<SModel>) -> bool {
    forall|i: int| 0 <= i < v.len() ==> (#[trigger] prob_of(v[i])) is Some
}

pub open spec fn probs_val(v: Seq<SModel>) -> Seq<SModel> {
    Seq::new(v.len(), |i: int| prob_of(v[i])->Some_0)
}

/// Evolve, weigh each outcome by the Born rule, walk the cumulative
/// distribution against the draw u/2^53, and decompose the selected index.
pub open spec fn run_once_spec(q: QModel, v: Seq<SModel>, u: u64) -> Result<Seq<u8>, Error> {
    match run_spec(q, v) {
        Err(e) => Err(e),
        Ok(out) => if !probs_defined(out) {
            Err(Error::Overflow)
        } else {
            match sample_spec(probs_val(out), u) {
                Err(e) => Err(e),
                Ok(i) => Ok(bits_model(q.n, i)),
            }
        },
    }
}

/// An n-wire quantum circuit simulator: the accumulated unitary over the
/// 2^n-dimensional state space. Every operation returns a new value.
#[derive(Debug)]
pub struct QCS {
    total_qbits: u8,
    matrix: Matrix,
}

impl PartialEq for QCS {
    /// Same wire count and entrywise-equal unitaries.
    fn eq(&self, other: &QCS) -> (r: bool)
        ensures
            r == (self@ == other@),
    {
        self.total_qbits == other.total_qbits && self.matrix == other.matrix
    }
}

impl vstd::std_specs::cmp::PartialEqSpecImpl for QCS {
    open spec fn obeys_eq_spec() -> bool {
        true
    }

    open spec fn eq_spec(&self, other: &QCS) -> bool {
        self@ == other@
    }
}

impl View for QCS {
    type V = QModel;

    closed spec fn view(&self) -> QModel {
        QModel { n: self.total_qbits as nat, m: self.matrix@ }
    }
}

fn check_wires(wires: &Vec<u8>, n: u8) -> (r: bool)
    ensures
        r == wires_ok(wires@, n as nat),
{
    let mut i: usize = 0;
    while i < wires.len()
        invariant
            0 <= i <= wires@.len(),
            forall|i2: int| 0 <= i2 < i ==> (#[trigger] wires@[i2]) < n,
            forall|i2: int, j2: int| 0 <= i2 < j2 < wires@.len() && i2 < i ==> wires@[i2] != wires@[j2],
        decreases wires@.len() - i,
    {
        if wires[i] >= n {
            return false;
        }
        let mut j: usize = i + 1;
        while j < wires.len()
            invariant
                i < j <= wires@.len(),
                forall|j2: int| i < j2 < j ==> wires@[i as int] != wires@[j2],
            decreases wires@.len() - j,
        {
            if wires[j] == wires[i] {
                return false;
            }
            j += 1;
        }
        i += 1;
    }
    true
}

impl QCS {
    /// Holds of every `QCS` by construction: the unitary is a well-formed
    /// square grid of dimension 2^n.
    #[verifier::type_invariant]
    pub open spec fn type_wf(self) -> bool {
        &&& self@.n < 32
        &&& mat_wf(self@.m)
        &&& mat_rows(self@.m) == pow2_nat(self@.n)
        &&& mat_cols(self@.m) == pow2_nat(self@.n)
    }

    /// A fresh n-wire circuit: the identity unitary on 2^n basis states.
    pub fn new(total_qbits: u8) -> (r: QCS)
        requires
            total_qbits < 32,
        ensures
            r@.n == total_qbits as nat,
            r@.m == id_model(pow2_nat(total_qbits as nat)),
    {
        let matrix = identity_matrix(total_qbits);
        proof {
            use_type_invariant(&matrix);
            vstd::arithmetic::power2::lemma_pow2_pos(total_qbits as nat);
        }
        QCS { total_qbits, matrix }
    }

    /// Adopt a unitary directly; its dimension must be a power of two.
    pub fn from(matrix: Matrix) -> (r: Result<QCS, Error>)
        ensures
            ({
                let q = qbits_of(mat_rows(matrix@));
                &&& ((mat_rows(matrix@) == mat_cols(matrix@) && mat_rows(matrix@) == pow2_nat(q)
                    && q < 32) ==> r is Ok && r->Ok_0@.n == q && r->Ok_0@.m == matrix@)
                &&& (!(mat_rows(matrix@) == mat_cols(matrix@) && mat_rows(matrix@) == pow2_nat(q)
                    && q < 32) ==> r == Err::<QCS, Error>(Error::DimensionError))
            }),
    {
        proof {
            use_type_invariant(&matrix);
        }
        let rows = matrix.rows();
        let mut total_qbits: u8 = 0;
        let mut dim = rows;
        proof {
            vstd::arithmetic::power2::lemma2_to64();
        }
        while dim > 1
            invariant
                1 <= dim <= rows,
                total_qbits < 64,
                qbits_of(rows as nat) == qbits_of(dim as nat) + total_qbits as nat,
                pow2_nat(total_qbits as nat) * dim as nat <= rows as nat,
            decreases dim,
        {
            proof {
                vstd::arithmetic::power2::lemma_pow2_pos(total_qbits as nat);
                assert(pow2_nat((total_qbits + 1) as nat) == 2 * pow2_nat(total_qbits as nat)) by {
                    vstd::arithmetic::power2::lemma_pow2_adds(total_qbits as nat, 1);
                    vstd::arithmetic::power2::lemma2_to64();
                }
                assert(2 * (dim as nat / 2) <= dim as nat);
                assert(pow2_nat((total_qbits + 1) as nat) * (dim as int / 2) <= pow2_nat(
                    total_qbits as nat,
                ) * dim as int) by (nonlinear_arith)
                    requires
                        pow2_nat((total_qbits + 1) as nat) == 2 * pow2_nat(total_qbits as nat),
                        2 * (dim as int / 2) <= dim as int,
                        pow2_nat(total_qbits as nat) > 0,
                        dim as int / 2 >= 0,
                ;
            }
            total_qbits += 1;
            dim = dim / 2;
            proof {
                if total_qbits >= 64 {
                    vstd::arithmetic::power2::lemma2_to64();
                    vstd::arithmetic::power2::lemma2_to64_rest();
                    assert(pow2_nat(total_qbits as nat) * dim as nat >= pow2_nat(64)) by (
                    nonlinear_arith)
                        requires
                            dim as nat >= 1,
                            pow2_nat(total_qbits as nat) >= pow2_nat(64),
                    ;
                    assert(false);
                }
            }
        }
        if total_qbits >= 32 {
            return Err(Error::DimensionError);
        }
        if rows != matrix.columns() {
            return Err(Error::DimensionError);
        }
        let p = pow2(total_qbits);
        if rows as u64 != p {
            return Err(Error::DimensionError);
        }
        proof {
            use_type_invariant(&matrix);
        }
        Ok(QCS { total_qbits, matrix })
    }

    /// Apply `gate` to the listed wires: its full-space form is
    /// left-multiplied onto the accumulated unitary.
    pub fn gate(&self, gate: &QCS, wires: &Vec<u8>) -> (r: Result<QCS, Error>)
        ensures
            qres_model(r) == gate_spec(self@, gate@, wires@),
    {
        proof {
            use_type_invariant(self);
            use_type_invariant(gate);
        }
        if !check_wires(wires, self.total_qbits) {
            return Err(Error::InvalidWire);
        }
        if gate.total_qbits as usize != wires.len() {
            return Err(Error::DimensionError);
        }
        let am = match apply_matrix_to(self.total_qbits, &gate.matrix, wires) {
            Ok(m) => m,
            Err(e) => {
                return Err(e);
            },
        };
        proof {
            use_type_invariant(&am);
            crate::algebra::lemma_swap_prod_dims(
                self@.n,
                crate::algebra::plan_spec(self@.n, wires@).swaps,
            );
            vstd::arithmetic::power2::lemma_pow2_pos(self@.n);
        }
        let prod = match am.mul(&self.matrix) {
            Ok(m) => m,
            Err(_) => {
                return Err(Error::Overflow);
            },
        };
        proof {
            use_type_invariant(&prod);
        }
        Ok(QCS { total_qbits: self.total_qbits, matrix: prod })
    }

    /// Apply the controlled form of `gate`: identity unless every control
    /// wire is one, in which case it acts on the target wires.
    pub fn controled_gate(&self, gate: &QCS, wires: &Vec<u8>, control_wires: &Vec<u8>) -> (r:
        Result<QCS, Error>)
        ensures
            qres_model(r) == controled_gate_spec(self@, gate@, wires@, control_wires@),
    {
        proof {
            use_type_invariant(self);
            use_type_invariant(gate);
        }
        let mut all_wires: Vec<u8> = Vec::new();
        let mut i: usize = 0;
        while i < wires.len()
            invariant
                0 <= i <= wires@.len(),
                all_wires@ == wires@.take(i as int),
            decreases wires@.len() - i,
        {
            all_wires.push(wires[i]);
            i += 1;
        }
        proof {
            assert(wires@.take(wires@.len() as int) =~= wires@);
        }
        let mut j: usize = 0;
        while j < control_wires.len()
            invariant
                0 <= j <= control_wires@.len(),
                all_wires@ == wires@ + control_wires@.take(j as int),
            decreases control_wires@.len() - j,
        {
            all_wires.push(control_wires[j]);
            proof {
                assert(wires@ + control_wires@.take(j as int) + seq![control_wires@[j as int]]
                    =~= wires@ + control_wires@.take(j + 1));
            }
            j += 1;
        }
        proof {
            assert(control_wires@.take(control_wires@.len() as int) =~= control_wires@);
            assert(all_wires@ == wires@ + control_wires@);
        }
        if !check_wires(&all_wires, self.total_qbits) {
            return Err(Error::InvalidWire);
        }
        if gate.total_qbits as usize != wires.len() {
            return Err(Error::DimensionError);
        }
        proof {
            lemma_wires_count(all_wires@, self@.n);
            let c = control_wires@.len();
            let g = gate@.n;
            assert(c + g <= 31);
            vstd::arithmetic::power2::lemma_pow2_pos(c);
            vstd::arithmetic::power2::lemma_pow2_adds(c, g);
            vstd::arithmetic::power2::lemma_pow2_adds((c + g) as nat, (31 - c - g) as nat);
            vstd::arithmetic::power2::lemma_pow2_pos((31 - c - g) as nat);
            assert(pow2_nat((c + g) as nat) * 1 <= pow2_nat((c + g) as nat) * pow2_nat(
                (31 - c - g) as nat,
            )) by (nonlinear_arith)
                requires
                    pow2_nat((31 - c - g) as nat) >= 1,
                    pow2_nat((c + g) as nat) >= 0,
            ;
            vstd::arithmetic::power2::lemma2_to64();
            vstd::arithmetic::power2::lemma2_to64_rest();
            assert(pow2_nat(31) == 0x8000_0000);
            assert(pow2_nat(c) * mat_rows(gate@.m) <= 0x8000_0000);
        }
        let num_controls = control_wires.len() as u8;
        let controled = match create_controled_gate(num_controls, &gate.matrix) {
            Ok(m) => m,
            Err(_) => {
                proof {
                    assert(false);
                }
                return Err(Error::Overflow);
            },
        };
        let am = match apply_matrix_to(self.total_qbits, &controled, &all_wires) {
            Ok(m) => m,
            Err(e) => {
                return Err(e);
            },
        };
        proof {
            use_type_invariant(&am);
            crate::algebra::lemma_swap_prod_dims(
                self@.n,
                crate::algebra::plan_spec(self@.n, all_wires@).swaps,
            );
            vstd::arithmetic::power2::lemma_pow2_pos(self@.n);
        }
        let prod = match am.mul(&self.matrix) {
            Ok(m) => m,
            Err(_) => {
                return Err(Error::Overflow);
            },
        };
        proof {
            use_type_invariant(&prod);
        }
        Ok(QCS { total_qbits: self.total_qbits, matrix: prod })
    }

    /// Apply the Hadamard gate to one wire.
    pub fn hadamard(&self, wire: u8) -> (r: Result<QCS, Error>)
        ensures
            qres_model(r) == gate_spec(
                self@,
                QModel { n: 1, m: hadamard_model() },
                seq![wire],
            ),
    {
        let hp = Scalar::inv_sqrt2();
        let hn = hp.neg();
        let mut r0: Vec<Scalar> = Vec::new();
        r0.push(hp);
        r0.push(hp);
        let mut r1: Vec<Scalar> = Vec::new();
        r1.push(hp);
        r1.push(hn);
        let mut data: Vec<Vec<Scalar>> = Vec::new();
        data.push(r0);
        data.push(r1);
        proof {
            use_type_invariant(&hp);
            use_type_invariant(&hn);
            assert(rows_model(data@) =~~= hadamard_model());
        }
        let m = Matrix::new_exact(data);
        proof {
            use_type_invariant(&m);
            vstd::arithmetic::power2::lemma2_to64();
        }
        let g = QCS { total_qbits: 1, matrix: m };
        let mut ws: Vec<u8> = Vec::new();
        ws.push(wire);
        proof {
            assert(ws@ =~= seq![wire]);
        }
        self.gate(&g, &ws)
    }

    /// Apply the NOT (Pauli X) gate to one wire.
    pub fn not(&self, wire: u8) -> (r: Result<QCS, Error>)
        ensures
            qres_model(r) == gate_spec(self@, QModel { n: 1, m: not_model() }, seq![wire]),
    {
        let z = Scalar::zero();
        let o = Scalar::one();
        let mut r0: Vec<Scalar> = Vec::new();
        r0.push(z);
        r0.push(o);
        let mut r1: Vec<Scalar> = Vec::new();
        r1.push(o);
        r1.push(z);
        let mut data: Vec<Vec<Scalar>> = Vec::new();
        data.push(r0);
        data.push(r1);
        proof {
            use_type_invariant(&z);
            use_type_invariant(&o);
            assert(rows_model(data@) =~~= not_model());
        }
        let m = Matrix::new_exact(data);
        proof {
            use_type_invariant(&m);
            vstd::arithmetic::power2::lemma2_to64();
        }
        let g = QCS { total_qbits: 1, matrix: m };
        let mut ws: Vec<u8> = Vec::new();
        ws.push(wire);
        proof {
            assert(ws@ =~= seq![wire]);
        }
        self.gate(&g, &ws)
    }

    /// Apply a controlled-not: flip `wire` where `control` is one.
    pub fn cnot(&self, control: u8, wire: u8) -> (r: Result<QCS, Error>)
        ensures
            qres_model(r) == gate_spec(
                self@,
                QModel { n: 2, m: cnot_model() },
                seq![wire, control],
            ),
    {
        let z = Scalar::zero();
        let o = Scalar::one();
        let mut data: Vec<Vec<Scalar>> = Vec::new();
        let mut r0: Vec<Scalar> = Vec::new();
        r0.push(o);
        r0.push(z);
        r0.push(z);
        r0.push(z);
        data.push(r0);
        let mut r1: Vec<Scalar> = Vec::new();
        r1.push(z);
        r1.push(o);
        r1.push(z);
        r1.push(z);
        data.push(r1);
        let mut r2: Vec<Scalar> = Vec::new();
        r2.push(z);
        r2.push(z);
        r2.push(z);
        r2.push(o);
        data.push(r2);
        let mut r3: Vec<Scalar> = Vec::new();
        r3.push(z);
        r3.push(z);
        r3.push(o);
        r3.push(z);
        data.push(r3);
        proof {
            use_type_invariant(&z);
            use_type_invariant(&o);
            assert(rows_model(data@) =~~= cnot_model());
        }
        let m = Matrix::new_exact(data);
        proof {
            use_type_invariant(&m);
            vstd::arithmetic::power2::lemma2_to64();
        }
        let g = QCS { total_qbits: 2, matrix: m };
        let mut ws: Vec<u8> = Vec::new();
        ws.push(wire);
        ws.push(control);
        proof {
            assert(ws@ =~= seq![wire, control]);
        }
        self.gate(&g, &ws)
    }

    /// The one-wire phase gate with the given diagonal factor: it leaves
    /// basis state 0 alone and multiplies basis state 1 by `factor`.
    pub fn phase(&self, factor: &Scalar) -> (r: QCS)
        ensures
            r@.n == 1,
            r@.m == phase_model(factor@),
    {
        let z = Scalar::zero();
        let o = Scalar::one();
        let mut r0: Vec<Scalar> = Vec::new();
        r0.push(o);
        r0.push(z);
        let mut r1: Vec<Scalar> = Vec::new();
        r1.push(z);
        r1.push(*factor);
        let mut data: Vec<Vec<Scalar>> = Vec::new();
        data.push(r0);
        data.push(r1);
        proof {
            use_type_invariant(&z);
            use_type_invariant(&o);
            use_type_invariant(factor);
            assert(rows_model(data@) =~~= phase_model(factor@));
        }
        let m = Matrix::new_exact(data);
        proof {
            use_type_invariant(&m);
            vstd::arithmetic::power2::lemma2_to64();
        }
        QCS { total_qbits: 1, matrix: m }
    }

    /// Replace the unitary by the permutation that swaps wires `x` and `y`
    /// (the identity when they coincide).
    pub fn swap(&self, x: u8, y: u8) -> (r: Result<QCS, Error>)
        ensures
            ((x >= self@.n || y >= self@.n) ==> r == Err::<QCS, Error>(Error::InvalidWire)),
            (x < self@.n && y < self@.n ==> r is Ok && r->Ok_0@.n == self@.n && r->Ok_0@.m
                == swap_matrix_model(pow2_nat(self@.n), x as u64, y as u64)),
    {
        proof {
            use_type_invariant(self);
        }
        let matrix = match create_swap_matrix(self.total_qbits, x, y) {
            Ok(m) => m,
            Err(e) => {
                return Err(e);
            },
        };
        proof {
            use_type_invariant(&matrix);
            vstd::arithmetic::power2::lemma_pow2_pos(self@.n);
        }
        Ok(QCS { total_qbits: self.total_qbits, matrix })
    }

    /// Evolve a state vector through the accumulated unitary.
    pub fn run(&self, input: &Vec<Scalar>) -> (r: Result<Vec<Scalar>, Error>)
        ensures
            (match run_spec(self@, row_model(*input)) {
                Ok(s) => r is Ok && row_model(r->Ok_0) == s,
                Err(e) => r == Err::<Vec<Scalar>, Error>(e),
            }),
    {
        proof {
            use_type_invariant(self);
            vstd::arithmetic::power2::lemma_pow2_pos(self@.n);
        }
        let dim = self.matrix.rows();
        if input.len() != dim {
            return Err(Error::DimensionError);
        }
        let mut data: Vec<Vec<Scalar>> = Vec::new();
        let mut i: usize = 0;
        while i < input.len()
            invariant
                0 <= i <= input@.len(),
                rows_model(data@).len() == i,
                forall|i2: int| 0 <= i2 < i ==> sc_wf(#[trigger] row_model(*input)[i2]),
                forall|i2: int|
                    0 <= i2 < i ==> #[trigger] rows_model(data@)[i2] == col_model(
                        row_model(*input),
                    )[i2],
            decreases input@.len() - i,
        {
            let s = input[i];
            proof {
                use_type_invariant(&s);
                assert(s@ == row_model(*input)[i as int]);
            }
            let mut row: Vec<Scalar> = Vec::new();
            row.push(s);
            proof {
                crate::matrix::lemma_rows_model_push(data@, row);
                assert(row_model(row) =~= col_model(row_model(*input))[i as int]);
            }
            data.push(row);
            i += 1;
        }
        proof {
            assert(rows_model(data@) =~= col_model(row_model(*input)));
            assert forall|i2: int, j2: int|
                0 <= i2 < rows_model(data@).len() && 0 <= j2 < rows_model(data@)[i2].len()
                    implies sc_wf(#[trigger] rows_model(data@)[i2][j2]) by {
                assert(rows_model(data@)[i2] == col_model(row_model(*input))[i2]);
                assert(rows_model(data@)[i2][j2] == row_model(*input)[i2]);
                assert(sc_wf(row_model(*input)[i2]));
            }
        }
        let input_mat = Matrix::new_exact(data);
        let output_mat = match self.matrix.mul(&input_mat) {
            Ok(m) => m,
            Err(_) => {
                return Err(Error::Overflow);
            },
        };
        let mut out: Vec<Scalar> = Vec::new();
        let mut i: usize = 0;
        while i < dim
            invariant
                0 <= i <= dim,
                dim == mat_rows(self@.m),
                dim == input@.len(),
                mat_cols(self@.m) == dim,
                (output_mat@ == mat_mul_val(self@.m, col_model(row_model(*input)))),
                mul_defined(self@.m, col_model(row_model(*input))),
                out@.len() == i,
                forall|i2: int|
                    0 <= i2 < i ==> (#[trigger] out@[i2])@ == dot(
                        self@.m,
                        col_model(row_model(*input)),
                        i2,
                        0,
                    )->Some_0,
            decreases dim - i,
        {
            let s = output_mat.value_at(i, 0);
            out.push(s);
            i += 1;
        }
        proof {
            assert(row_model(out) =~= run_spec(self@, row_model(*input))->Ok_0);
        }
        Ok(out)
    }

    /// The little-endian bits of `value`, one per wire.
    pub fn value_to_bit_vector(&self, value: usize) -> (r: Vec<u8>)
        ensures
            r@ == bits_model(self@.n, value as int),
    {
        proof {
            use_type_invariant(self);
        }
        let n = self.total_qbits;
        let mut v = value;
        let mut result: Vec<u8> = Vec::new();
        let mut i: u8 = 0;
        proof {
            vstd::arithmetic::power2::lemma2_to64();
            assert(value as int / 1 == value as int);
        }
        while i < n
            invariant
                0 <= i <= n,
                result@.len() == i as nat,
                v == (value as int) / (pow2_nat(i as nat) as int),
                forall|j: int| 0 <= j < i ==> result@[j] == bits_model(n as nat, value as int)[j],
            decreases n - i,
        {
            proof {
                vstd::arithmetic::power2::lemma2_to64();
                vstd::arithmetic::power2::lemma_pow2_pos(i as nat);
                vstd::arithmetic::power2::lemma_pow2_adds(i as nat, 1);
                vstd::arithmetic::div_mod::lemma_div_denominator(
                    value as int,
                    pow2_nat(i as nat) as int,
                    2,
                );
                assert(pow2_nat((i + 1) as nat) == pow2_nat(i as nat) * 2);
            }
            result.push((v % 2) as u8);
            v = v / 2;
            i += 1;
        }
        proof {
            assert(result@ =~= bits_model(self@.n, value as int));
        }
        result
    }

    /// The one-hot state vector of basis index `value` (all zero when the
    /// index lies outside the space).
    pub fn value_to_tensor(&self, value: usize) -> (r: Vec<Scalar>)
        ensures
            row_model(r) == basis_model(pow2_nat(self@.n), value as int),
    {
        proof {
            use_type_invariant(self);
        }
        let dim = self.matrix.rows();
        let mut result: Vec<Scalar> = Vec::new();
        let mut i: usize = 0;
        while i < dim
            invariant
                0 <= i <= dim,
                result@.len() == i,
                forall|j: int|
                    0 <= j < i ==> (#[trigger] result@[j])@ == (if j == value as int {
                        sc_one()
                    } else {
                        sc_zero()
                    }),
            decreases dim - i,
        {
            if i == value {
                result.push(Scalar::one());
            } else {
                result.push(Scalar::zero());
            }
            i += 1;
        }
        proof {
            assert(row_model(result) =~= basis_model(pow2_nat(self@.n), value as int));
        }
        result
    }

    /// One measured run with an injected draw `u` from [0, 2^53): evolve the
    /// state, collapse by the Born rule at threshold u/2^53, and return the
    /// bits of the selected basis index (one past the last when the
    /// cumulative sum never reaches the draw).
    pub fn run_once_with(&self, input: &Vec<Scalar>, u: u64) -> (r: Result<Vec<u8>, Error>)
        requires
            u < 0x20_0000_0000_0000,
        ensures
            (match run_once_spec(self@, row_model(*input), u) {
                Ok(bits) => r is Ok && r->Ok_0@ == bits,
                Err(e) => r == Err::<Vec<u8>, Error>(e),
            }),
    {
        proof {
            use_type_invariant(self);
        }
        let output = match self.run(input) {
            Ok(o) => o,
            Err(e) => {
                return Err(e);
            },
        };
        let ghost outm = run_spec(self@, row_model(*input))->Ok_0;
        let mut probabilities: Vec<Scalar> = Vec::new();
        let mut i: usize = 0;
        while i < output.len()
            invariant
                0 <= i <= output@.len(),
                (run_spec(self@, row_model(*input)) == Ok::<Seq<SModel>, Error>(outm)),
                row_model(output) == outm,
                probabilities@.len() == i,
                forall|j: int| 0 <= j < i ==> (#[trigger] prob_of(outm[j])) is Some,
                forall|j: int|
                    0 <= j < i ==> (#[trigger] probabilities@[j])@ == prob_of(outm[j])->Some_0,
            decreases output@.len() - i,
        {
            let x = output[i];
            proof {
                assert(x@ == outm[i as int]);
            }
            let c = x.conj();
            let p = match x.mul(&c) {
                Some(p) => p,
                None => {
                    proof {
                        assert(prob_of(outm[i as int]) is None);
                        assert(!probs_defined(outm));
                    }
                    return Err(Error::Overflow);
                },
            };
            probabilities.push(p);
            i += 1;
        }
        proof {
            assert(probs_defined(outm));
            assert(row_model(probabilities) =~= probs_val(outm));
        }
        let idx = match sample_index(&probabilities, u) {
            Ok(i) => i,
            Err(e) => {
                return Err(e);
            },
        };
        Ok(self.value_to_bit_vector(idx))
    }

    /// One measured run with a fresh uniform draw: probabilistic Born-rule
    /// collapse of the evolved state to a classical bit vector.
    pub fn run_once(&self, input: &Vec<Scalar>) -> (r: Result<Vec<u8>, Error>)
        ensures
            exists|u: u64|
                #![trigger run_once_spec(self@, row_model(*input), u)]
                u < 0x20_0000_0000_0000 && (match run_once_spec(self@, row_model(*input), u) {
                    Ok(bits) => r is Ok && r->Ok_0@ == bits,
                    Err(e) => r == Err::<Vec<u8>, Error>(e),
                }),
    {
        let u = sample_uniform_below(0x20_0000_0000_0000);
        let r = self.run_once_with(input, u);
        proof {
            assert(u < 0x20_0000_0000_0000 && (match run_once_spec(
                self@,
                row_model(*input),
                u,
            ) {
                Ok(bits) => r is Ok && r->Ok_0@ == bits,
                Err(e) => r == Err::<Vec<u8>, Error>(e),
            }));
        }
        r
    }
}

} // verus!
