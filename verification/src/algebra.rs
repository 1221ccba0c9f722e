use vstd::prelude::*;
use vstd::arithmetic::power2::pow2 as pow2_nat;
use crate::matrix::{MatModel, Matrix, mat_cols, mat_mul_val, mat_rows, mat_square, mat_wf, mul_defined, res_model, rows_model};
use crate::scalar::{Scalar, SModel, sc_conj, sc_one, sc_wf, sc_zero};
use crate::Error;

verus! {

/// Dimension of an `x`-wire state space: 2^x.
pub fn pow2(x: u8) -> (r: u64)
    requires
        x < 64,
    ensures
        r == pow2_nat(x as nat),
{
    proof {
        vstd::arithmetic::power2::lemma2_to64();
        vstd::arithmetic::power2::lemma2_to64_rest();
        vstd::arithmetic::power2::lemma_pow2_strictly_increases(x as nat, 64);
        vstd::bits::lemma_u64_shl_is_mul(1u64, x as u64);
    }
    1u64 << x
}

/// The basis index `i` with the bits at positions `x` and `y` exchanged
/// and every other bit unchanged.
pub open spec fn sbits(i: u64, x: u64, y: u64) -> u64 {
    let xr = 1u64 << x;
    let yr = 1u64 << y;
    let bit_x = (i & xr) >> x;
    let bit_y = (i & yr) >> y;
    let shift_x = (i ^ (i & xr)) | (bit_y << x);
    (shift_x ^ (i & yr)) | (bit_x << y)
}

/// The dim-by-dim identity grid.
pub open spec fn id_model(dim: nat) -> MatModel {
    Seq::new(
        dim,
        |i: int| Seq::new(dim, |j: int| if i == j { sc_one() } else { sc_zero() }),
    )
}

/// The permutation grid that carries basis vector e_j to e_(sbits(j, x, y)).
pub open spec fn swap_matrix_model(dim: nat, x: u64, y: u64) -> MatModel {
    Seq::new(
        dim,
        |i: int| Seq::new(
            dim,
            |j: int| if i == sbits(j as u64, x, y) as int { sc_one() } else { sc_zero() },
        ),
    )
}

/// One column of a permutation matrix: all zero but a one at `one_position`
/// (or all zero when `one_position` lies outside the column).
fn get_column_for_one(size: u64, one_position: u64) -> (v: Vec<Scalar>)
    requires
        size <= 0x8000_0000,
    ensures
        v@.len() == size,
        forall|l: int|
            0 <= l < size ==> (#[trigger] v@[l])@ == (if l == one_position as int {
                sc_one()
            } else {
                sc_zero()
            }),
{
    let mut v: Vec<Scalar> = Vec::new();
    let n = size as usize;
    let mut i: usize = 0;
    while i < n
        invariant
            0 <= i <= n,
            n == size,
            v@.len() == i,
            forall|l: int|
                0 <= l < i ==> (#[trigger] v@[l])@ == (if l == one_position as int {
                    sc_one()
                } else {
                    sc_zero()
                }),
        decreases n - i,
    {
        if i as u64 == one_position {
            v.push(Scalar::one());
        } else {
            v.push(Scalar::zero());
        }
        i += 1;
    }
    v
}

/// The 2^n-dimensional identity matrix.
pub fn identity_matrix(total_qbits: u8) -> (r: Matrix)
    requires
        total_qbits < 32,
    ensures
        r@ == id_model(pow2_nat(total_qbits as nat)),
{
    let dim = pow2(total_qbits);
    proof {
        vstd::arithmetic::power2::lemma2_to64();
        vstd::arithmetic::power2::lemma_pow2_adds(total_qbits as nat, (31 - total_qbits) as nat);
        vstd::arithmetic::power2::lemma_pow2_pos((31 - total_qbits) as nat);
        assert(pow2_nat(total_qbits as nat) <= pow2_nat(31));
        vstd::arithmetic::power2::lemma_pow2_pos(total_qbits as nat);
    }
    let n = dim as usize;
    let mut data: Vec<Vec<Scalar>> = Vec::new();
    let mut i: usize = 0;
    while i < n
        invariant
            0 <= i <= n,
            n == pow2_nat(total_qbits as nat),
            n <= 0x8000_0000,
            rows_model(data@).len() == i,
            forall|i2: int|
                0 <= i2 < i ==> #[trigger] rows_model(data@)[i2] == id_model(n as nat)[i2],
        decreases n - i,
    {
        let row = get_column_for_one(n as u64, i as u64);
        proof {
            crate::matrix::lemma_rows_model_push(data@, row);
            assert(crate::matrix::row_model(row) =~= id_model(n as nat)[i as int]);
        }
        data.push(row);
        i += 1;
    }
    proof {
        assert(rows_model(data@) =~= id_model(n as nat));
        assert forall|i2: int, j2: int|
            0 <= i2 < n && 0 <= j2 < n implies sc_wf(#[trigger] id_model(n as nat)[i2][j2]) by {
            assert(id_model(n as nat)[i2][j2] == (if i2 == j2 { sc_one() } else { sc_zero() }));
        }
    }
    Matrix::new_exact(data)
}

/// Exchange the bits at positions `qbit_x` and `qbit_y` of `i`, exactly as
/// `sbits` describes.
fn swap_bits_exec(i: u64, qbit_x: u8, qbit_y: u8) -> (r: u64)
    requires
        qbit_x < 64,
        qbit_y < 64,
    ensures
        r == sbits(i, qbit_x as u64, qbit_y as u64),
{
    let x_rep = 1u64 << qbit_x;
    let y_rep = 1u64 << qbit_y;
    let bit_x = (i & x_rep) >> qbit_x;
    let bit_y = (i & y_rep) >> qbit_y;
    let to_x = bit_x << qbit_y;
    let to_y = bit_y << qbit_x;
    proof {
        assert((((i & (1u64 << qbit_x)) >> qbit_x) << qbit_y) <= 0xffff_ffff_ffff_ffff
            && (((i & (1u64 << qbit_y)) >> qbit_y) << qbit_x) <= 0xffff_ffff_ffff_ffff) by (bit_vector);
    }
    let shift_x = (i ^ (i & x_rep)) | to_y;
    let shift_y = (shift_x ^ (i & y_rep)) | to_x;
    shift_y
}

/// The 2^n-dimensional permutation matrix that swaps wires `qbit_x` and
/// `qbit_y`: it maps each basis vector e_i to e_(sbits(i, x, y)).
/// With `qbit_x == qbit_y` it is the identity.
pub fn create_swap_matrix(total_qbits: u8, qbit_x: u8, qbit_y: u8) -> (r: Result<Matrix, Error>)
    requires
        total_qbits < 32,
    ensures
        ((qbit_x >= total_qbits || qbit_y >= total_qbits) ==> r == Err::<Matrix, Error>(
            Error::InvalidWire,
        )),
        (qbit_x < total_qbits && qbit_y < total_qbits ==> r is Ok && r->Ok_0@
            == swap_matrix_model(pow2_nat(total_qbits as nat), qbit_x as u64, qbit_y as u64)),
{
    if qbit_x >= total_qbits || qbit_y >= total_qbits {
        return Err(Error::InvalidWire);
    }
    let dim = pow2(total_qbits);
    proof {
        vstd::arithmetic::power2::lemma2_to64();
        vstd::arithmetic::power2::lemma_pow2_adds(total_qbits as nat, (31 - total_qbits) as nat);
        vstd::arithmetic::power2::lemma_pow2_pos((31 - total_qbits) as nat);
        assert(pow2_nat(total_qbits as nat) <= pow2_nat(31));
        vstd::arithmetic::power2::lemma_pow2_pos(total_qbits as nat);
    }
    let n = dim as usize;
    let ghost pre = Seq::new(
        n as nat,
        |i: int| Seq::new(
            n as nat,
            |j: int| if j == sbits(i as u64, qbit_x as u64, qbit_y as u64) as int {
                sc_one()
            } else {
                sc_zero()
            },
        ),
    );
    let mut data: Vec<Vec<Scalar>> = Vec::new();
    let mut i: usize = 0;
    while i < n
        invariant
            0 <= i <= n,
            n == pow2_nat(total_qbits as nat),
            n <= 0x8000_0000,
            qbit_x < 64,
            qbit_y < 64,
            (pre == Seq::new(
                n as nat,
                |i: int| Seq::new(
                    n as nat,
                    |j: int| if j == sbits(i as u64, qbit_x as u64, qbit_y as u64) as int {
                        sc_one()
                    } else {
                        sc_zero()
                    },
                ),
            )),
            rows_model(data@).len() == i,
            forall|i2: int| 0 <= i2 < i ==> #[trigger] rows_model(data@)[i2] == pre[i2],
        decreases n - i,
    {
        let pos = swap_bits_exec(i as u64, qbit_x, qbit_y);
        let row = get_column_for_one(n as u64, pos);
        proof {
            crate::matrix::lemma_rows_model_push(data@, row);
            assert(crate::matrix::row_model(row) =~= pre[i as int]);
        }
        data.push(row);
        i += 1;
    }
    proof {
        assert(rows_model(data@) =~= pre);
        assert forall|i2: int, j2: int|
            0 <= i2 < n && 0 <= j2 < n implies sc_wf(#[trigger] pre[i2][j2]) by {
            assert(pre[i2][j2] == (if j2 == sbits(
                i2 as u64,
                qbit_x as u64,
                qbit_y as u64,
            ) as int {
                sc_one()
            } else {
                sc_zero()
            }));
        }
    }
    let m = Matrix::new_exact(data);
    let t = m.transpose();
    proof {
        use_type_invariant(&t);
        let sm = swap_matrix_model(pow2_nat(total_qbits as nat), qbit_x as u64, qbit_y as u64);
        assert(mat_rows(m@) == n);
        assert(mat_cols(m@) == pre[0].len());
        assert(mat_cols(m@) == n);
        assert forall|i2: int, j2: int|
            0 <= i2 < n && 0 <= j2 < n implies #[trigger] t@[i2][j2] == sm[i2][j2] by {
            assert(t@[i2][j2] == m@[j2][i2]);
            assert(pre[j2][i2] == (if i2 == sbits(j2 as u64, qbit_x as u64, qbit_y as u64) as int {
                sc_one()
            } else {
                sc_zero()
            }));
        }
        assert forall|i2: int| 0 <= i2 < n implies (#[trigger] t@[i2]).len() == n by {
            assert(t@[i2].len() == mat_cols(m@));
        }
        assert(t@ =~~= sm);
    }
    Ok(t)
}

/// First index at which `v` occurs in `s`.
pub open spec fn find_pos(s: Seq<u8>, v: u8) -> Option<int>
    decreases s.len(),
{
    if s.len() == 0 {
        None
    } else if s[0] == v {
        Some(0)
    } else {
        match find_pos(s.drop_first(), v) {
            Some(i) => Some(i + 1),
            None => None,
        }
    }
}

pub proof fn lemma_find_pos(s: Seq<u8>, v: u8)
    ensures
        (match find_pos(s, v) {
            Some(i) => 0 <= i < s.len() && s[i] == v && (forall|j: int| 0 <= j < i ==> s[j] != v),
            None => forall|j: int| 0 <= j < s.len() ==> s[j] != v,
        }),
    decreases s.len(),
{
    if s.len() > 0 && s[0] != v {
        lemma_find_pos(s.drop_first(), v);
        match find_pos(s.drop_first(), v) {
            Some(i) => {
                assert(s[i + 1] == s.drop_first()[i]);
                assert forall|j: int| 0 <= j < i + 1 implies s[j] != v by {
                    if j > 0 {
                        assert(s.drop_first()[j - 1] != v);
                        assert(s[j] == s.drop_first()[j - 1]);
                    }
                }
            },
            None => {
                assert forall|j: int| 0 <= j < s.len() implies s[j] != v by {
                    if j > 0 {
                        assert(s.drop_first()[j - 1] != v);
                        assert(s[j] == s.drop_first()[j - 1]);
                    }
                }
            },
        }
    }
}

/// Find the first occurrence of `value`, as an index.
pub fn linear_search(list: &Vec<u8>, value: u8) -> (r: Option<u8>)
    requires
        list@.len() <= 256,
    ensures
        (match r {
            Some(i) => i < list@.len() && list@[i as int] == value && (forall|j: int|
                0 <= j < i ==> list@[j] != value),
            None => forall|j: int| 0 <= j < list@.len() ==> list@[j] != value,
        }),
{
    let mut i: usize = 0;
    while i < list.len()
        invariant
            0 <= i <= list@.len(),
            list@.len() <= 256,
            forall|j: int| 0 <= j < i ==> list@[j] != value,
        decreases list@.len() - i,
    {
        if list[i] == value {
            return Some(i as u8);
        }
        i += 1;
    }
    None
}

/// State of the swap planner: which original wire now sits at each position,
/// how many requested wires are already placed, and the swaps recorded so far.
pub ghost struct PlanState {
    pub cp: Seq<u8>,
    pub next: nat,
    pub swaps: Seq<(u8, u8)>,
}

pub open spec fn plan_init(n: nat) -> PlanState {
    PlanState { cp: Seq::new(n, |i: int| i as u8), next: 0, swaps: Seq::empty() }
}

/// One planning step: place wire `e` at position `next` by an elementary
/// swap, unless it is absent or already there. Once every position is
/// placed, further entries are ignored.
pub open spec fn plan_step(st: PlanState, e: u8) -> PlanState {
    if st.next >= st.cp.len() {
        st
    } else {
        match find_pos(st.cp, e) {
            None => st,
            Some(pos) => {
                if pos == st.next as int {
                    PlanState { cp: st.cp, next: st.next + 1, swaps: st.swaps }
                } else {
                    PlanState {
                        cp: st.cp.update(pos, st.cp[st.next as int]).update(
                            st.next as int,
                            st.cp[pos],
                        ),
                        next: st.next + 1,
                        swaps: st.swaps.push((pos as u8, st.next as u8)),
                    }
                }
            },
        }
    }
}

/// The planner folded over the requested wires, left to right.
pub open spec fn plan_spec(n: nat, entries: Seq<u8>) -> PlanState
    decreases entries.len(),
{
    if entries.len() == 0 {
        plan_init(n)
    } else {
        plan_step(plan_spec(n, entries.drop_last()), entries.last())
    }
}

/// The planner keeps the position table at length `n`, places at most `n`
/// wires, and records only swaps between positions below `n`.
pub proof fn lemma_plan_bounds(n: nat, entries: Seq<u8>)
    requires
        n <= 255,
    ensures
        plan_spec(n, entries).cp.len() == n,
        plan_spec(n, entries).next <= n,
        forall|i: int|
            0 <= i < plan_spec(n, entries).swaps.len()
                ==> (#[trigger] plan_spec(n, entries).swaps[i]).0 < n
                && plan_spec(n, entries).swaps[i].1 < n,
    decreases entries.len(),
{
    if entries.len() > 0 {
        lemma_plan_bounds(n, entries.drop_last());
        let st = plan_spec(n, entries.drop_last());
        let e = entries.last();
        if st.next < st.cp.len() {
            lemma_find_pos(st.cp, e);
        }
    }
}

/// The ordered list of elementary swaps that moves the wires of `entries`
/// to the leading positions, in the given order.
pub fn create_swap_sequence(total_qbits: u8, entries: &Vec<u8>) -> (r: Vec<(u8, u8)>)
    ensures
        r@ == plan_spec(total_qbits as nat, entries@).swaps,
{
    let mut swaps: Vec<(u8, u8)> = Vec::new();
    let mut currect_pos: Vec<u8> = Vec::new();
    let mut i: u8 = 0;
    while i < total_qbits
        invariant
            0 <= i <= total_qbits,
            currect_pos@.len() == i as nat,
            forall|j: int| 0 <= j < i ==> currect_pos@[j] == j as u8,
        decreases total_qbits - i,
    {
        currect_pos.push(i);
        i += 1;
    }
    proof {
        assert(currect_pos@ =~= plan_init(total_qbits as nat).cp);
    }
    let mut next: u8 = 0;
    let mut idx: usize = 0;
    while idx < entries.len()
        invariant
            0 <= idx <= entries@.len(),
            (PlanState { cp: currect_pos@, next: next as nat, swaps: swaps@ } == plan_spec(
                total_qbits as nat,
                entries@.take(idx as int),
            )),
            currect_pos@.len() == total_qbits as nat,
            next as nat <= total_qbits as nat,
        decreases entries@.len() - idx,
    {
        let ghost pre = PlanState { cp: currect_pos@, next: next as nat, swaps: swaps@ };
        let e = entries[idx];
        proof {
            assert(entries@.take(idx + 1).drop_last() =~= entries@.take(idx as int));
            assert(entries@.take(idx + 1).last() == e);
        }
        if (next as usize) < currect_pos.len() {
            match linear_search(&currect_pos, e) {
                Some(pos) => {
                    proof {
                        lemma_find_pos(currect_pos@, e);
                        assert(find_pos(currect_pos@, e) == Some(pos as int));
                    }
                    if next != pos {
                        swaps.push((pos, next));
                        let va = currect_pos[pos as usize];
                        let vb = currect_pos[next as usize];
                        currect_pos.set(pos as usize, vb);
                        currect_pos.set(next as usize, va);
                    }
                    next += 1;
                },
                None => {
                    proof {
                        lemma_find_pos(currect_pos@, e);
                        assert(find_pos(currect_pos@, e) is None);
                    }
                },
            }
        }
        idx += 1;
        proof {
            assert(PlanState { cp: currect_pos@, next: next as nat, swaps: swaps@ } == plan_step(
                pre,
                e,
            ));
        }
    }
    proof {
        assert(entries@.take(entries@.len() as int) =~= entries@);
    }
    swaps
}

/// The product of the elementary swap matrices of `swaps`, applied left to
/// right onto the identity (each new factor multiplied from the left).
pub open spec fn swap_prod_spec(n: nat, swaps: Seq<(u8, u8)>) -> Option<MatModel>
    decreases swaps.len(),
{
    if swaps.len() == 0 {
        Some(id_model(pow2_nat(n)))
    } else {
        match swap_prod_spec(n, swaps.drop_last()) {
            None => None,
            Some(acc) => {
                let s = swaps.last();
                let sm = swap_matrix_model(pow2_nat(n), s.0 as u64, s.1 as u64);
                if mul_defined(sm, acc) {
                    Some(mat_mul_val(sm, acc))
                } else {
                    None
                }
            },
        }
    }
}

pub proof fn lemma_swap_prod_dims(n: nat, swaps: Seq<(u8, u8)>)
    requires
        swap_prod_spec(n, swaps) is Some,
    ensures
        mat_rows(swap_prod_spec(n, swaps)->Some_0) == pow2_nat(n),
        mat_cols(swap_prod_spec(n, swaps)->Some_0) == pow2_nat(n),
    decreases swaps.len(),
{
    vstd::arithmetic::power2::lemma_pow2_pos(n);
    if swaps.len() > 0 {
        lemma_swap_prod_dims(n, swaps.drop_last());
    }
}

pub proof fn lemma_swap_prod_none(n: nat, swaps: Seq<(u8, u8)>, t: int)
    requires
        0 <= t <= swaps.len(),
        swap_prod_spec(n, swaps.take(t)) is None,
    ensures
        swap_prod_spec(n, swaps) is None,
    decreases swaps.len() - t,
{
    if t < swaps.len() {
        assert(swaps.take(t + 1).drop_last() =~= swaps.take(t));
        lemma_swap_prod_none(n, swaps, t + 1);
    } else {
        assert(swaps.take(t) =~= swaps);
    }
}

/// The permutation matrix that moves the wires of `entries` to the leading
/// positions in the given order: the planned elementary swaps composed onto
/// the identity.
pub fn create_swap_matrix_for_entries(total_qbits: u8, entries: &Vec<u8>) -> (r: Result<
    Matrix,
    Error,
>)
    requires
        total_qbits < 32,
    ensures
        ({
            let sp = swap_prod_spec(
                total_qbits as nat,
                plan_spec(total_qbits as nat, entries@).swaps,
            );
            &&& (sp is Some ==> r is Ok && r->Ok_0@ == sp->Some_0)
            &&& (sp is None ==> r == Err::<Matrix, Error>(Error::Overflow))
        }),
{
    let swap_seq = create_swap_sequence(total_qbits, entries);
    proof {
        lemma_plan_bounds(total_qbits as nat, entries@);
        vstd::arithmetic::power2::lemma_pow2_pos(total_qbits as nat);
    }
    let mut prod = identity_matrix(total_qbits);
    proof {
        assert(swap_seq@.take(0) =~= Seq::<(u8, u8)>::empty());
    }
    let mut idx: usize = 0;
    while idx < swap_seq.len()
        invariant
            0 <= idx <= swap_seq@.len(),
            total_qbits < 32,
            swap_seq@ == plan_spec(total_qbits as nat, entries@).swaps,
            forall|i2: int|
                0 <= i2 < swap_seq@.len() ==> (#[trigger] swap_seq@[i2]).0 < total_qbits
                    && swap_seq@[i2].1 < total_qbits,
            (swap_prod_spec(total_qbits as nat, swap_seq@.take(idx as int)) == Some(prod@)),
            mat_rows(prod@) == pow2_nat(total_qbits as nat),
            mat_cols(prod@) == pow2_nat(total_qbits as nat),
        decreases swap_seq@.len() - idx,
    {
        let s = swap_seq[idx];
        proof {
            assert(swap_seq@.take(idx + 1).drop_last() =~= swap_seq@.take(idx as int));
            assert(swap_seq@.take(idx + 1).last() == s);
        }
        let sm = match create_swap_matrix(total_qbits, s.0, s.1) {
            Ok(m) => m,
            Err(_) => {
                proof {
                    assert(false);
                }
                return Err(Error::Overflow);
            },
        };
        proof {
            vstd::arithmetic::power2::lemma_pow2_pos(total_qbits as nat);
            assert(mat_cols(sm@) == pow2_nat(total_qbits as nat));
        }
        prod = match sm.mul(&prod) {
            Ok(p) => p,
            Err(_) => {
                proof {
                    assert(swap_prod_spec(total_qbits as nat, swap_seq@.take(idx + 1)) is None);
                    lemma_swap_prod_none(total_qbits as nat, swap_seq@, idx + 1);
                }
                return Err(Error::Overflow);
            },
        };
        idx += 1;
    }
    proof {
        assert(swap_seq@.take(swap_seq@.len() as int) =~= swap_seq@);
    }
    Ok(prod)
}

/// The conjugate transpose grid of a square grid.
pub open spec fn ct_model(m: MatModel) -> MatModel {
    Seq::new(mat_rows(m), |i: int| Seq::new(mat_rows(m), |j: int| sc_conj(m[j][i])))
}

/// For a real permutation matrix this is its inverse; the complex conjugate
/// is taken entrywise so the routine also serves general unitaries.
pub fn conjugate_transpose(matrix: &Matrix) -> (r: Result<Matrix, Error>)
    ensures
        (!mat_square(matrix@) ==> r == Err::<Matrix, Error>(Error::NonSquareMatrix)),
        (mat_square(matrix@) ==> r is Ok && r->Ok_0@ == ct_model(matrix@)),
{
    proof {
        use_type_invariant(matrix);
    }
    let n = matrix.rows();
    if n != matrix.columns() {
        return Err(Error::NonSquareMatrix);
    }
    let mut data: Vec<Vec<Scalar>> = Vec::new();
    let mut i: usize = 0;
    while i < n
        invariant
            0 <= i <= n,
            mat_wf(matrix@),
            n == mat_rows(matrix@),
            n == mat_cols(matrix@),
            rows_model(data@).len() == i,
            forall|i2: int|
                0 <= i2 < i ==> #[trigger] rows_model(data@)[i2] == ct_model(matrix@)[i2],
        decreases n - i,
    {
        let mut row: Vec<Scalar> = Vec::new();
        let mut j: usize = 0;
        while j < n
            invariant
                0 <= j <= n,
                i < n,
                mat_wf(matrix@),
                n == mat_rows(matrix@),
                n == mat_cols(matrix@),
                row@.len() == j,
                forall|j2: int|
                    0 <= j2 < j ==> (#[trigger] row@[j2])@ == sc_conj(matrix@[j2][i as int]),
            decreases n - j,
        {
            let s = matrix.value_at(j, i).conj();
            row.push(s);
            j += 1;
        }
        proof {
            crate::matrix::lemma_rows_model_push(data@, row);
            assert(crate::matrix::row_model(row) =~= ct_model(matrix@)[i as int]);
        }
        data.push(row);
        i += 1;
    }
    proof {
        assert(rows_model(data@) =~= ct_model(matrix@));
        assert forall|i2: int, j2: int|
            0 <= i2 < n && 0 <= j2 < n implies sc_wf(#[trigger] rows_model(data@)[i2][j2]) by {
            assert(rows_model(data@)[i2][j2] == sc_conj(matrix@[j2][i2]));
        }
    }
    Ok(Matrix::new_exact(data))
}

/// A k-wire gate block-replicated along the diagonal of the full
/// `dim`-dimensional space: it acts on the leading wires, identity on the
/// rest.
pub open spec fn stack_model(dim: nat, m: MatModel) -> MatModel {
    let mr = mat_rows(m) as int;
    Seq::new(
        dim,
        |i: int| Seq::new(
            dim,
            |j: int| if i / mr == j / mr { m[i % mr][j % mr] } else { sc_zero() },
        ),
    )
}

/// Embed a square gate matrix into the 2^n-dimensional space by block
/// replication along the diagonal.
pub fn stack_mat(total_qbits: u8, matrix: &Matrix) -> (r: Result<Matrix, Error>)
    requires
        total_qbits < 32,
    ensures
        (!mat_square(matrix@) ==> r == Err::<Matrix, Error>(Error::NonSquareMatrix)),
        (mat_square(matrix@) ==> r is Ok && r->Ok_0@ == stack_model(
            pow2_nat(total_qbits as nat),
            matrix@,
        )),
{
    proof {
        use_type_invariant(matrix);
    }
    let mr = matrix.rows();
    if mr != matrix.columns() {
        return Err(Error::NonSquareMatrix);
    }
    let dim = pow2(total_qbits);
    proof {
        vstd::arithmetic::power2::lemma2_to64();
        vstd::arithmetic::power2::lemma_pow2_adds(total_qbits as nat, (31 - total_qbits) as nat);
        vstd::arithmetic::power2::lemma_pow2_pos((31 - total_qbits) as nat);
        assert(pow2_nat(total_qbits as nat) <= pow2_nat(31));
        vstd::arithmetic::power2::lemma_pow2_pos(total_qbits as nat);
    }
    let n = dim as usize;
    let ghost sm = stack_model(pow2_nat(total_qbits as nat), matrix@);
    let mut data: Vec<Vec<Scalar>> = Vec::new();
    let mut i: usize = 0;
    while i < n
        invariant
            0 <= i <= n,
            mat_wf(matrix@),
            mr == mat_rows(matrix@),
            mr == mat_cols(matrix@),
            mr > 0,
            n == pow2_nat(total_qbits as nat),
            (sm == stack_model(pow2_nat(total_qbits as nat), matrix@)),
            rows_model(data@).len() == i,
            forall|i2: int| 0 <= i2 < i ==> #[trigger] rows_model(data@)[i2] == sm[i2],
        decreases n - i,
    {
        let mut row: Vec<Scalar> = Vec::new();
        let mut j: usize = 0;
        while j < n
            invariant
                0 <= j <= n,
                i < n,
                mat_wf(matrix@),
                mr == mat_rows(matrix@),
                mr == mat_cols(matrix@),
                mr > 0,
                n == pow2_nat(total_qbits as nat),
                (sm == stack_model(pow2_nat(total_qbits as nat), matrix@)),
                row@.len() == j,
                forall|j2: int| 0 <= j2 < j ==> (#[trigger] row@[j2])@ == sm[i as int][j2],
            decreases n - j,
        {
            let s = if i / mr == j / mr {
                matrix.value_at(i % mr, j % mr)
            } else {
                Scalar::zero()
            };
            row.push(s);
            j += 1;
        }
        proof {
            crate::matrix::lemma_rows_model_push(data@, row);
            assert(crate::matrix::row_model(row) =~= sm[i as int]);
        }
        data.push(row);
        i += 1;
    }
    proof {
        assert(rows_model(data@) =~= sm);
        assert forall|i2: int, j2: int|
            0 <= i2 < n && 0 <= j2 < n implies sc_wf(#[trigger] rows_model(data@)[i2][j2]) by {
            assert(rows_model(data@)[i2][j2] == sm[i2][j2]);
            let mri = mat_rows(matrix@) as int;
            if i2 / mri == j2 / mri {
                assert(sm[i2][j2] == matrix@[i2 % mri][j2 % mri]);
            } else {
                assert(sm[i2][j2] == sc_zero());
            }
        }
    }
    Ok(Matrix::new_exact(data))
}

/// A gate preceded by `blocks - 1` identity blocks: it acts as the identity
/// unless every control wire is one, in which case it applies.
pub open spec fn ctrl_model(blocks: nat, m: MatModel) -> MatModel {
    let mr = mat_rows(m) as int;
    let dim = blocks * mat_rows(m);
    Seq::new(
        dim,
        |i: int| Seq::new(
            dim,
            |j: int| if i / mr == blocks - 1 && j / mr == blocks - 1 {
                m[i % mr][j % mr]
            } else if i == j {
                sc_one()
            } else {
                sc_zero()
            },
        ),
    )
}

/// The controlled form of a gate for `num_controls` control wires: a
/// 2^(c + k)-dimensional matrix, identity on every diagonal block except the
/// last, which holds the small matrix.
pub fn create_controled_gate(num_controls: u8, gate: &Matrix) -> (r: Result<Matrix, Error>)
    requires
        num_controls < 32,
        pow2_nat(num_controls as nat) * mat_rows(gate@) <= 0x8000_0000,
    ensures
        (!mat_square(gate@) ==> r == Err::<Matrix, Error>(Error::NonSquareMatrix)),
        (mat_square(gate@) ==> r is Ok && r->Ok_0@ == ctrl_model(
            pow2_nat(num_controls as nat),
            gate@,
        )),
{
    proof {
        use_type_invariant(gate);
    }
    let mr = gate.rows();
    if mr != gate.columns() {
        return Err(Error::NonSquareMatrix);
    }
    proof {
        vstd::arithmetic::power2::lemma_pow2_pos(num_controls as nat);
        assert(pow2_nat(num_controls as nat) * 1 <= pow2_nat(num_controls as nat) * mat_rows(
            gate@,
        )) by (nonlinear_arith)
            requires
                mat_rows(gate@) >= 1,
                pow2_nat(num_controls as nat) >= 0,
        ;
    }
    let blocks = pow2(num_controls) as usize;
    let dim = blocks * mr;
    let ghost cm = ctrl_model(blocks as nat, gate@);
    let mut data: Vec<Vec<Scalar>> = Vec::new();
    let mut i: usize = 0;
    while i < dim
        invariant
            0 <= i <= dim,
            mat_wf(gate@),
            mr == mat_rows(gate@),
            mr == mat_cols(gate@),
            mr > 0,
            blocks > 0,
            dim == blocks * mr,
            (cm == ctrl_model(blocks as nat, gate@)),
            rows_model(data@).len() == i,
            forall|i2: int| 0 <= i2 < i ==> #[trigger] rows_model(data@)[i2] == cm[i2],
        decreases dim - i,
    {
        let mut row: Vec<Scalar> = Vec::new();
        let mut j: usize = 0;
        while j < dim
            invariant
                0 <= j <= dim,
                i < dim,
                mat_wf(gate@),
                mr == mat_rows(gate@),
                mr == mat_cols(gate@),
                mr > 0,
                blocks > 0,
                dim == blocks * mr,
                (cm == ctrl_model(blocks as nat, gate@)),
                row@.len() == j,
                forall|j2: int| 0 <= j2 < j ==> (#[trigger] row@[j2])@ == cm[i as int][j2],
            decreases dim - j,
        {
            let s = if i / mr == blocks - 1 && j / mr == blocks - 1 {
                proof {
                    vstd::arithmetic::div_mod::lemma_mod_bound(i as int, mr as int);
                    vstd::arithmetic::div_mod::lemma_mod_bound(j as int, mr as int);
                }
                gate.value_at(i % mr, j % mr)
            } else if i == j {
                Scalar::one()
            } else {
                Scalar::zero()
            };
            row.push(s);
            j += 1;
        }
        proof {
            crate::matrix::lemma_rows_model_push(data@, row);
            assert(crate::matrix::row_model(row) =~= cm[i as int]);
        }
        data.push(row);
        i += 1;
    }
    proof {
        assert(rows_model(data@) =~= cm);
        assert forall|i2: int, j2: int|
            0 <= i2 < dim && 0 <= j2 < dim implies sc_wf(#[trigger] rows_model(data@)[i2][j2]) by {
            assert(rows_model(data@)[i2][j2] == cm[i2][j2]);
            let mri = mat_rows(gate@) as int;
            if i2 / mri == blocks - 1 && j2 / mri == blocks - 1 {
                vstd::arithmetic::div_mod::lemma_mod_bound(i2, mri);
                vstd::arithmetic::div_mod::lemma_mod_bound(j2, mri);
                assert(cm[i2][j2] == gate@[i2 % mri][j2 % mri]);
            }
        }
    }
    Ok(Matrix::new_exact(data))
}

/// The full 2^n-dimensional matrix of `matrix` acting on the wires of
/// `bits`: P_inv * embed(matrix) * P, with P the permutation that moves
/// those wires to the leading positions.
pub open spec fn apply_spec(n: nat, m: MatModel, bits: Seq<u8>) -> Result<MatModel, Error> {
    match swap_prod_spec(n, plan_spec(n, bits).swaps) {
        None => Err(Error::Overflow),
        Some(p) => if !mat_square(m) {
            Err(Error::NonSquareMatrix)
        } else {
            let pinv = ct_model(p);
            let emb = stack_model(pow2_nat(n), m);
            if !mul_defined(emb, p) {
                Err(Error::Overflow)
            } else {
                let gp = mat_mul_val(emb, p);
                if !mul_defined(pinv, gp) {
                    Err(Error::Overflow)
                } else {
                    Ok(mat_mul_val(pinv, gp))
                }
            }
        },
    }
}

/// Conjugate the embedded gate by the wire permutation so that it acts on
/// the requested wires, wherever they lie.
pub fn apply_matrix_to(total_qbits: u8, matrix: &Matrix, bits_to_apply2: &Vec<u8>) -> (r: Result<
    Matrix,
    Error,
>)
    requires
        total_qbits < 32,
    ensures
        res_model(r) == apply_spec(total_qbits as nat, matrix@, bits_to_apply2@),
{
    let ghost n = total_qbits as nat;
    let ghost plan = plan_spec(n, bits_to_apply2@);
    let swaps = match create_swap_matrix_for_entries(total_qbits, bits_to_apply2) {
        Ok(m) => m,
        Err(e) => {
            return Err(Error::Overflow);
        },
    };
    proof {
        lemma_swap_prod_dims(n, plan.swaps);
    }
    let inv_swaps = match conjugate_transpose(&swaps) {
        Ok(m) => m,
        Err(_) => {
            proof {
                assert(false);
            }
            return Err(Error::Overflow);
        },
    };
    let ramped_mat = match stack_mat(total_qbits, matrix) {
        Ok(m) => m,
        Err(e) => {
            return Err(e);
        },
    };
    proof {
        vstd::arithmetic::power2::lemma_pow2_pos(n);
        assert(mat_rows(ramped_mat@) == pow2_nat(n));
        assert(mat_cols(ramped_mat@) == pow2_nat(n));
        assert(mat_rows(inv_swaps@) == pow2_nat(n));
        assert(mat_cols(inv_swaps@) == pow2_nat(n));
    }
    let gp = match ramped_mat.mul(&swaps) {
        Ok(m) => m,
        Err(_) => {
            return Err(Error::Overflow);
        },
    };
    let r = match inv_swaps.mul(&gp) {
        Ok(m) => m,
        Err(_) => {
            return Err(Error::Overflow);
        },
    };
    Ok(r)
}

} // verus!
