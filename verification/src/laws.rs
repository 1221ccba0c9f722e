use vstd::prelude::*;
use vstd::arithmetic::power2::pow2 as pow2_nat;
use crate::algebra::{PlanState, apply_spec, find_pos, id_model, lemma_find_pos, plan_init, plan_spec, plan_step,
    sbits, swap_matrix_model, swap_prod_spec};
use crate::circuit::{QModel, basis_model, bits_model, cnot_model, col_model, controled_gate_spec,
    gate_spec, not_model, prob_of, probs_defined, probs_val, run_once_spec, run_spec};
use crate::matrix::{MatModel, dot, dot_prefix, mat_cols, mat_mul_val, mat_rows, mul_defined};
use crate::sampling::{sample_from, sample_spec};
use crate::scalar::{SModel, lemma_add_zero_right, lemma_mul_one_left, lemma_mul_one_right,
    lemma_mul_zero_left, lemma_mul_zero_right, lemma_norm_zero_comps, lemma_wf_fixpoint,
    real_ge_spec, sc_add_spec, sc_conj, sc_is_zero, sc_mul_spec, sc_one, sc_raw_mul, sc_wf,
    sc_zero};

verus! {

/// Swapping a wire with itself moves no bit at all.
pub proof fn lemma_sbits_same_wire(i: u64, w: u64)
    requires
        w < 64,
    ensures
        sbits(i, w, w) == i,
{
    assert(sbits(i, w, w) == i) by (bit_vector)
        requires
            w < 64,
    ;
}

/// The wire-swap matrix of a wire with itself is the identity matrix, for
/// every space dimension; this is why a self-swap serves as the initial
/// unitary of a fresh circuit.
pub proof fn lemma_swap_same_wire_is_identity(dim: nat, w: u64)
    requires
        w < 64,
        dim <= 0x1_0000_0000_0000_0000,
    ensures
        swap_matrix_model(dim, w, w) == id_model(dim),
{
    assert forall|i: int, j: int|
        0 <= i < dim && 0 <= j < dim implies swap_matrix_model(dim, w, w)[i][j] == id_model(
        dim,
    )[i][j] by {
        lemma_sbits_same_wire(j as u64, w);
        assert(j as u64 as int == j);
    }
    assert(swap_matrix_model(dim, w, w) =~~= id_model(dim));
}

/// The index map of a controlled-not: flip bit `t` wherever bit `c` is set.
pub open spec fn cnot_bits(i: u64, c: u64, t: u64) -> u64 {
    if (i >> c) & 1 == 1 {
        i ^ (1u64 << t)
    } else {
        i
    }
}

/// Three alternating controlled-nots on a pair of bit positions compose to
/// the plain bit swap of those positions: the index-map heart of the
/// swap-as-three-controlled-nots identity.
pub proof fn lemma_three_cnots_swap_bits(i: u64, a: u64, b: u64)
    requires
        a < 64,
        b < 64,
        a != b,
    ensures
        cnot_bits(cnot_bits(cnot_bits(i, a, b), b, a), a, b) == sbits(i, a, b),
{
    assert(cnot_bits(cnot_bits(cnot_bits(i, a, b), b, a), a, b) == sbits(i, a, b)) by (bit_vector)
        requires
            a < 64,
            b < 64,
            a != b,
    ;
}

/// The controlled form of the one-wire NOT, for a single control, is
/// exactly the two-wire controlled-not matrix.
pub proof fn lemma_controlled_not_is_cnot()
    ensures
        crate::algebra::ctrl_model(pow2_nat(1), not_model()) == cnot_model(),
{
    vstd::arithmetic::power2::lemma2_to64();
    let cm = crate::algebra::ctrl_model(pow2_nat(1), not_model());
    assert forall|i: int, j: int| 0 <= i < 4 && 0 <= j < 4 implies cm[i][j] == cnot_model()[i][j]
        by {
        assert(cm[i][j] == (if i / 2 == 1 && j / 2 == 1 {
            not_model()[i % 2][j % 2]
        } else if i == j {
            sc_one()
        } else {
            sc_zero()
        }));
    }
    assert(cm =~~= cnot_model());
}

/// Applying the controlled NOT gate through `controled_gate` with target
/// `t` and control `c` is the same operation as the plain controlled-not on
/// `(c, t)`: both validate the same wire pair and conjugate the same
/// four-by-four matrix onto it.
pub proof fn lemma_controlled_not_gate_equivalence(s: QModel, t: u8, c: u8)
    ensures
        controled_gate_spec(s, QModel { n: 1, m: not_model() }, seq![t], seq![c]) == gate_spec(
            s,
            QModel { n: 2, m: cnot_model() },
            seq![t, c],
        ),
{
    assert(seq![t] + seq![c] =~= seq![t, c]);
    lemma_controlled_not_is_cnot();
}

/// Composing `controled_gate` with the NOT gate twice, for two controls,
/// equals the two plain controlled-not applications in sequence: each step
/// is the same operation, so the chains agree stepwise.
pub proof fn lemma_controlled_not_twice_equals_two_cnots(s: QModel, t: u8, c1: u8, c2: u8)
    ensures
        ({
            let l1 = controled_gate_spec(s, QModel { n: 1, m: not_model() }, seq![t], seq![c1]);
            let r1 = gate_spec(s, QModel { n: 2, m: cnot_model() }, seq![t, c1]);
            &&& l1 == r1
            &&& (l1 is Ok ==> controled_gate_spec(
                l1->Ok_0,
                QModel { n: 1, m: not_model() },
                seq![t],
                seq![c2],
            ) == gate_spec(r1->Ok_0, QModel { n: 2, m: cnot_model() }, seq![t, c2]))
        }),
{
    lemma_controlled_not_gate_equivalence(s, t, c1);
    let l1 = controled_gate_spec(s, QModel { n: 1, m: not_model() }, seq![t], seq![c1]);
    if l1 is Ok {
        lemma_controlled_not_gate_equivalence(l1->Ok_0, t, c2);
    }
}


/// Exchanging two bit positions twice restores the index.
pub proof fn lemma_sbits_involution(i: u64, x: u64, y: u64)
    requires
        x < 64,
        y < 64,
    ensures
        sbits(sbits(i, x, y), x, y) == i,
{
    assert(sbits(sbits(i, x, y), x, y) == i) by (bit_vector)
        requires
            x < 64,
            y < 64,
    ;
}

/// Exchanging bits below `n` keeps an index below 2^n.
pub proof fn lemma_sbits_bound(i: u64, x: u64, y: u64, n: u64)
    requires
        x < n,
        y < n,
        n <= 63,
        i < (1u64 << n),
    ensures
        sbits(i, x, y) < (1u64 << n),
{
    assert(sbits(i, x, y) < (1u64 << n)) by (bit_vector)
        requires
            x < n,
            y < n,
            n <= 63,
            i < (1u64 << n),
    ;
}

proof fn lemma_pow2_u64(n: nat)
    requires
        n < 64,
    ensures
        pow2_nat(n) == (1u64 << n as u64) as nat,
{
    vstd::arithmetic::power2::lemma2_to64();
    vstd::arithmetic::power2::lemma2_to64_rest();
    vstd::arithmetic::power2::lemma_pow2_strictly_increases(n, 64);
    vstd::bits::lemma_u64_shl_is_mul(1u64, n as u64);
}

/// A dot product against a one-hot row picks out one entry of the column.
pub proof fn lemma_dot_prefix_one_hot(a: MatModel, b: MatModel, r: int, c: int, l0: int, t: int)
    requires
        0 <= l0 < mat_cols(a),
        0 <= t <= mat_cols(a),
        forall|l: int|
            0 <= l < mat_cols(a) ==> #[trigger] a[r][l] == (if l == l0 {
                sc_one()
            } else {
                sc_zero()
            }),
        forall|l: int| 0 <= l < mat_cols(a) ==> sc_wf(#[trigger] b[l][c]),
    ensures
        dot_prefix(a, b, r, c, t) == Some(
            if l0 < t {
                b[l0][c]
            } else {
                sc_zero()
            },
        ),
    decreases t,
{
    if t > 0 {
        lemma_dot_prefix_one_hot(a, b, r, c, l0, t - 1);
        let acc = if l0 < t - 1 {
            b[l0][c]
        } else {
            sc_zero()
        };
        if t - 1 == l0 {
            lemma_mul_one_left(b[l0][c]);
            assert(sc_mul_spec(a[r][t - 1], b[t - 1][c]) == Some(b[l0][c]));
        } else {
            lemma_mul_zero_left(b[t - 1][c]);
            assert(sc_mul_spec(a[r][t - 1], b[t - 1][c]) == Some(sc_zero()));
            if l0 < t - 1 {
                lemma_add_zero_right(acc);
            }
        }
    }
}

pub proof fn lemma_dot_one_hot(a: MatModel, b: MatModel, r: int, c: int, l0: int)
    requires
        0 <= l0 < mat_cols(a),
        forall|l: int|
            0 <= l < mat_cols(a) ==> #[trigger] a[r][l] == (if l == l0 {
                sc_one()
            } else {
                sc_zero()
            }),
        forall|l: int| 0 <= l < mat_cols(a) ==> sc_wf(#[trigger] b[l][c]),
    ensures
        dot(a, b, r, c) == Some(b[l0][c]),
{
    lemma_dot_prefix_one_hot(a, b, r, c, l0, mat_cols(a) as int);
}

/// The Born weight of an amplitude of one is one, of zero is zero.
proof fn lemma_prob_of_unit()
    ensures
        prob_of(sc_one()) == Some(sc_one()),
        prob_of(sc_zero()) == Some(sc_zero()),
{
    assert(sc_conj(sc_one()) == sc_one());
    assert(sc_raw_mul(sc_one(), sc_one()) == sc_one());
    lemma_wf_fixpoint(sc_one());
    let rz = sc_raw_mul(sc_zero(), sc_conj(sc_zero()));
    assert(sc_is_zero(rz));
    lemma_norm_zero_comps(rz);
}

/// Walking a one-hot distribution with a nonzero draw stops exactly at the
/// one nonzero-probability index.
proof fn lemma_sample_one_hot(ps: Seq<SModel>, u: u64, t: int, i: int)
    requires
        0 <= i <= t < ps.len(),
        0 < u < 0x20_0000_0000_0000,
        forall|l: int|
            0 <= l < ps.len() ==> #[trigger] ps[l] == (if l == t {
                sc_one()
            } else {
                sc_zero()
            }),
    ensures
        sample_from(ps, u, sc_zero(), i) == Ok::<int, crate::Error>(t),
    decreases t - i,
{
    vstd::arithmetic::power2::lemma2_to64();
    vstd::arithmetic::power2::lemma2_to64_rest();
    if i < t {
        assert(sc_add_spec(sc_zero(), ps[i]) == Some(sc_zero()));
        assert(real_ge_spec(sc_zero(), u) == Some(false)) by {
            assert(pow2_nat(53) == 0x20_0000_0000_0000);
        }
        lemma_sample_one_hot(ps, u, t, i + 1);
    } else {
        assert(sc_add_spec(sc_zero(), ps[i]) == Some(sc_one()));
        assert(real_ge_spec(sc_one(), u) == Some(true)) by {
            assert(pow2_nat(53) == 0x20_0000_0000_0000);
        }
    }
}

/// Measuring a wire-swap circuit on a basis state is deterministic: for
/// every nonzero draw, the collapse lands on the swapped basis index and
/// the returned bits are its decomposition.
pub proof fn lemma_swap_measurement(n: nat, x: u64, y: u64, v: int, u: u64)
    requires
        x < n,
        y < n,
        n < 32,
        0 <= v < pow2_nat(n),
        0 < u < 0x20_0000_0000_0000,
    ensures
        run_once_spec(
            QModel { n, m: swap_matrix_model(pow2_nat(n), x, y) },
            basis_model(pow2_nat(n), v),
            u,
        ) == Ok::<Seq<u8>, crate::Error>(bits_model(n, sbits(v as u64, x, y) as int)),
{
    lemma_pow2_u64(n);
    let dim = pow2_nat(n);
    let m = swap_matrix_model(dim, x, y);
    let q = QModel { n, m };
    let inv = basis_model(dim, v);
    let col = col_model(inv);
    let t = sbits(v as u64, x, y) as int;
    lemma_sbits_bound(v as u64, x, y, n as u64);
    assert(0 <= t < dim);

    assert forall|i: int| 0 <= i < dim implies #[trigger] dot(m, col, i, 0) == Some(
        if i == t {
            sc_one()
        } else {
            sc_zero()
        },
    ) by {
        let l0 = sbits(i as u64, x, y) as int;
        lemma_sbits_bound(i as u64, x, y, n as u64);
        assert forall|l: int|
            0 <= l < mat_cols(m) implies #[trigger] m[i][l] == (if l == l0 {
            sc_one()
        } else {
            sc_zero()
        }) by {
            lemma_sbits_involution(i as u64, x, y);
            lemma_sbits_involution(l as u64, x, y);
        }
        assert forall|l: int| 0 <= l < mat_cols(m) implies sc_wf(#[trigger] col[l][0]) by {
            assert(col[l][0] == inv[l]);
        }
        lemma_dot_one_hot(m, col, i, 0, l0);
        assert(col[l0][0] == inv[l0]);
        lemma_sbits_involution(i as u64, x, y);
        lemma_sbits_involution(v as u64, x, y);
        assert((l0 == v) == (i == t));
    }
    assert(mul_defined(m, col));
    let out = run_spec(q, inv)->Ok_0;
    assert(out =~= basis_model(dim, t));

    assert forall|l: int| 0 <= l < out.len() implies (#[trigger] prob_of(out[l])) is Some by {
        lemma_prob_of_unit();
    }
    assert(probs_defined(out));
    let ps = probs_val(out);
    assert forall|l: int|
        0 <= l < ps.len() implies #[trigger] ps[l] == (if l == t {
        sc_one()
    } else {
        sc_zero()
    }) by {
        lemma_prob_of_unit();
    }
    lemma_sample_one_hot(ps, u, t, 0);
    assert(sample_spec(ps, u) == Ok::<int, crate::Error>(t));
}


/// A dot product against a one-hot column picks out one entry of the row.
pub proof fn lemma_dot_prefix_one_hot_col(a: MatModel, b: MatModel, r: int, c: int, l0: int, t: int)
    requires
        0 <= l0 < mat_cols(a),
        0 <= t <= mat_cols(a),
        forall|l: int|
            0 <= l < mat_cols(a) ==> #[trigger] b[l][c] == (if l == l0 {
                sc_one()
            } else {
                sc_zero()
            }),
        forall|l: int| 0 <= l < mat_cols(a) ==> sc_wf(#[trigger] a[r][l]),
    ensures
        dot_prefix(a, b, r, c, t) == Some(
            if l0 < t {
                a[r][l0]
            } else {
                sc_zero()
            },
        ),
    decreases t,
{
    if t > 0 {
        lemma_dot_prefix_one_hot_col(a, b, r, c, l0, t - 1);
        let acc = if l0 < t - 1 {
            a[r][l0]
        } else {
            sc_zero()
        };
        if t - 1 == l0 {
            lemma_mul_one_right(a[r][l0]);
            assert(sc_mul_spec(a[r][t - 1], b[t - 1][c]) == Some(a[r][l0]));
        } else {
            lemma_mul_zero_right(a[r][t - 1]);
            assert(sc_mul_spec(a[r][t - 1], b[t - 1][c]) == Some(sc_zero()));
            if l0 < t - 1 {
                lemma_add_zero_right(acc);
            }
        }
    }
}

pub proof fn lemma_dot_one_hot_col(a: MatModel, b: MatModel, r: int, c: int, l0: int)
    requires
        0 <= l0 < mat_cols(a),
        forall|l: int|
            0 <= l < mat_cols(a) ==> #[trigger] b[l][c] == (if l == l0 {
                sc_one()
            } else {
                sc_zero()
            }),
        forall|l: int| 0 <= l < mat_cols(a) ==> sc_wf(#[trigger] a[r][l]),
    ensures
        dot(a, b, r, c) == Some(a[r][l0]),
{
    lemma_dot_prefix_one_hot_col(a, b, r, c, l0, mat_cols(a) as int);
}

/// Multiplying by the identity on the right changes nothing.
pub proof fn lemma_mul_id_right(a: MatModel, dim: nat)
    requires
        mat_rows(a) == dim,
        mat_cols(a) == dim,
        dim > 0,
        forall|i: int| 0 <= i < dim ==> (#[trigger] a[i]).len() == dim,
        forall|i: int, l: int| 0 <= i < dim && 0 <= l < dim ==> sc_wf(#[trigger] a[i][l]),
    ensures
        mul_defined(a, id_model(dim)),
        mat_mul_val(a, id_model(dim)) == a,
{
    let idm = id_model(dim);
    assert forall|i: int, j: int| 0 <= i < dim && 0 <= j < dim implies #[trigger] dot(
        a,
        idm,
        i,
        j,
    ) == Some(a[i][j]) by {
        assert forall|l: int|
            0 <= l < mat_cols(a) implies #[trigger] idm[l][j] == (if l == j {
            sc_one()
        } else {
            sc_zero()
        }) by {}
        lemma_dot_one_hot_col(a, idm, i, j, j);
    }
    assert(mat_mul_val(a, idm) =~~= a);
}




/// The index map of the controlled-not on the two leading wires: flip bit 0
/// wherever bit 1 is set.
pub open spec fn cnot_low(i: u64) -> u64 {
    i ^ ((i >> 1) & 1)
}

/// `cnot_low` keeps an index inside the space.
proof fn lemma_cnot_low_bound(i: u64, nn: u64)
    requires
        2 <= nn < 32,
        i < (1u64 << nn),
    ensures
        cnot_low(i) < (1u64 << nn),
{
    assert(cnot_low(i) < (1u64 << nn)) by (bit_vector)
        requires
            2 <= nn < 32,
            i < (1u64 << nn),
    ;
}


/// The embedded controlled-not is the permutation matrix of `cnot_low`.
proof fn lemma_embed_cnot(n: nat)
    requires
        2 <= n < 32,
    ensures
        ({
            let emb = crate::algebra::stack_model(pow2_nat(n), cnot_model());
            forall|i: int, l: int|
                0 <= i < pow2_nat(n) && 0 <= l < pow2_nat(n) ==> #[trigger] emb[i][l] == (if l
                    == cnot_low(i as u64) as int {
                    sc_one()
                } else {
                    sc_zero()
                })
        }),
{
    lemma_pow2_u64(n);
    let dim = pow2_nat(n);
    let cm = cnot_model();
    assert(mat_rows(cm) == 4);
    let emb = crate::algebra::stack_model(dim, cm);
    assert forall|i: int, l: int|
        0 <= i < dim && 0 <= l < dim implies #[trigger] emb[i][l] == (if l == cnot_low(
        i as u64,
    ) as int {
        sc_one()
    } else {
        sc_zero()
    }) by {
        let iu = i as u64;
        let lu = l as u64;
        assert(emb[i][l] == (if i / 4 == l / 4 {
            cm[i % 4][l % 4]
        } else {
            sc_zero()
        }));
        assert(cnot_low(iu) / 4 == iu / 4 && cnot_low(iu) % 4 == ((iu % 4) ^ (((iu % 4) >> 1)
            & 1)) && (iu % 4) < 4 && (lu % 4) < 4) by (bit_vector);
        let rv = iu % 4;
        assert((rv ^ ((rv >> 1) & 1)) == (if rv == 2 {
            3
        } else if rv == 3 {
            2
        } else {
            rv
        })) by (bit_vector)
            requires
                rv < 4,
        ;
        assert(i % 4 == rv as int && l % 4 == (lu % 4) as int && i / 4 == (iu / 4) as int && l / 4
            == (lu / 4) as int);
        let r = i % 4;
        if r == 0 {
            assert(cm[r] =~= seq![sc_one(), sc_zero(), sc_zero(), sc_zero()]);
        } else if r == 1 {
            assert(cm[r] =~= seq![sc_zero(), sc_one(), sc_zero(), sc_zero()]);
        } else if r == 2 {
            assert(cm[r] =~= seq![sc_zero(), sc_zero(), sc_zero(), sc_one()]);
        } else {
            assert(cm[r] =~= seq![sc_zero(), sc_zero(), sc_one(), sc_zero()]);
        }
    }
}

/// Entries of a zero-one permutation grid are well formed.
proof fn lemma_perm_entries_wf(p: MatModel, dim: nat, f: spec_fn(int) -> int)
    requires
        forall|i: int, j: int|
            0 <= i < dim && 0 <= j < dim ==> #[trigger] p[i][j] == (if j == f(i) {
                sc_one()
            } else {
                sc_zero()
            }),
    ensures
        forall|i: int, j: int| 0 <= i < dim && 0 <= j < dim ==> sc_wf(#[trigger] p[i][j]),
{
    assert forall|i: int, j: int| 0 <= i < dim && 0 <= j < dim implies sc_wf(#[trigger] p[i][j]) by {
        assert(p[i][j] == (if j == f(i) {
            sc_one()
        } else {
            sc_zero()
        }));
    }
}

/// The product of a row-one-hot permutation grid with any grid: row `i` of
/// the product is row `f(i)` of the right factor.
proof fn lemma_perm_mul(p: MatModel, b: MatModel, dim: nat, f: spec_fn(int) -> int)
    requires
        dim > 0,
        mat_rows(p) == dim,
        mat_cols(p) == dim,
        mat_rows(b) == dim,
        mat_cols(b) == dim,
        forall|i: int| 0 <= i < dim ==> (#[trigger] p[i]).len() == dim,
        forall|i: int| 0 <= i < dim ==> (#[trigger] b[i]).len() == dim,
        forall|i: int| 0 <= i < dim ==> 0 <= #[trigger] f(i) < dim,
        forall|i: int, j: int|
            0 <= i < dim && 0 <= j < dim ==> #[trigger] p[i][j] == (if j == f(i) {
                sc_one()
            } else {
                sc_zero()
            }),
        forall|i: int, j: int| 0 <= i < dim && 0 <= j < dim ==> sc_wf(#[trigger] b[i][j]),
    ensures
        mul_defined(p, b),
        mat_rows(mat_mul_val(p, b)) == dim,
        mat_cols(mat_mul_val(p, b)) == dim,
        forall|i: int, j: int|
            0 <= i < dim && 0 <= j < dim ==> #[trigger] mat_mul_val(p, b)[i][j] == b[f(i)][j],
{
    assert forall|i: int, j: int| 0 <= i < dim && 0 <= j < dim implies #[trigger] dot(
        p,
        b,
        i,
        j,
    ) == Some(b[f(i)][j]) by {
        assert forall|l: int|
            0 <= l < mat_cols(p) implies #[trigger] p[i][l] == (if l == f(i) {
            sc_one()
        } else {
            sc_zero()
        }) by {}
        assert forall|l: int| 0 <= l < mat_cols(p) implies sc_wf(#[trigger] b[l][j]) by {}
        lemma_dot_one_hot(p, b, i, j, f(i));
    }
    assert(mul_defined(p, b));
    assert forall|i: int, j: int|
        0 <= i < dim && 0 <= j < dim implies #[trigger] mat_mul_val(p, b)[i][j] == b[f(i)][j] by {
        assert(dot(p, b, i, j) == Some(b[f(i)][j]));
    }
}




/// The first occurrence characterizes `find_pos`.
proof fn lemma_find_pos_at(s: Seq<u8>, v: u8, p: int)
    requires
        0 <= p < s.len(),
        s[p] == v,
        forall|q: int| 0 <= q < p ==> s[q] != v,
    ensures
        find_pos(s, v) == Some(p),
{
    lemma_find_pos(s, v);
    match find_pos(s, v) {
        Some(p2) => {
            if p2 < p {
                assert(s[p2] != v);
            } else if p < p2 {
                assert(s[p] != v);
            }
        },
        None => {
            assert(s[p] != v);
        },
    }
}

/// The elementary swaps that the planner records for the two-wire list
/// (t, c), by the positions of the two wires.
pub open spec fn pair_swaps(t: u8, c: u8) -> Seq<(u8, u8)> {
    if t == 0 && c == 1 {
        Seq::empty()
    } else if t == 0 {
        seq![(c, 1u8)]
    } else if c == 0 && t == 1 {
        seq![(1u8, 0u8)]
    } else if c == 0 {
        seq![(t, 0u8), (t, 1u8)]
    } else if c == 1 {
        seq![(t, 0u8)]
    } else {
        seq![(t, 0u8), (c, 1u8)]
    }
}

/// What the planner does on a list of two distinct wires: move the first to
/// position 0, then the second to position 1.
proof fn lemma_plan_pair(n: nat, t: u8, c: u8)
    requires
        2 <= n <= 255,
        t < n,
        c < n,
        t != c,
    ensures
        plan_spec(n, seq![t, c]).swaps == pair_swaps(t, c),
{
    let cp0 = plan_init(n).cp;
    assert(plan_spec(n, Seq::<u8>::empty()) == plan_init(n));
    assert(cp0.len() == n);
    assert(forall|q: int| 0 <= q < n ==> cp0[q] == q as u8);

    let st = seq![t];
    assert(st.len() == 1 && st.last() == t);
    assert(st.drop_last() =~= Seq::<u8>::empty());
    let es = seq![t, c];
    assert(es.len() == 2 && es.last() == c);
    assert(es.drop_last() =~= st);

    lemma_find_pos_at(cp0, t, t as int);
    let st1 = plan_spec(n, st);
    assert(st1 == plan_step(plan_init(n), t));

    if t == 0 {
        assert(st1 == (PlanState { cp: cp0, next: 1nat, swaps: Seq::<(u8, u8)>::empty() }));
        lemma_find_pos_at(cp0, c, c as int);
        let st2 = plan_spec(n, es);
        assert(st2 == plan_step(st1, c));
        if c == 1 {
            assert(st2.swaps =~= pair_swaps(t, c));
        } else {
            assert(st2.swaps =~= pair_swaps(t, c));
        }
    } else {
        let cp1 = cp0.update(t as int, cp0[0]).update(0, cp0[t as int]);
        assert(st1 == (PlanState {
            cp: cp1,
            next: 1nat,
            swaps: Seq::<(u8, u8)>::empty().push((t, 0u8)),
        }));
        assert(cp1[0] == t);
        assert(cp1[t as int] == 0);
        assert(forall|q: int| 0 <= q < n && q != 0 && q != t ==> cp1[q] == q as u8);
        let st2 = plan_spec(n, es);
        assert(st2 == plan_step(st1, c));
        if c == 0 {
            lemma_find_pos_at(cp1, 0, t as int);
            if t == 1 {
                assert(st2.swaps =~= pair_swaps(t, c));
            } else {
                assert(st2.swaps =~= pair_swaps(t, c));
            }
        } else {
            lemma_find_pos_at(cp1, c, c as int);
            if c == 1 {
                assert(st2.swaps =~= pair_swaps(t, c));
            } else {
                assert(st2.swaps =~= pair_swaps(t, c));
            }
        }
    }
}

/// The conjugate transpose of a real permutation grid is the grid of the
/// inverse permutation.
proof fn lemma_ct_perm(p: MatModel, dim: nat, f: spec_fn(int) -> int, finv: spec_fn(int) -> int)
    requires
        mat_rows(p) == dim,
        forall|i: int| 0 <= i < dim ==> 0 <= #[trigger] f(i) < dim,
        forall|i: int| 0 <= i < dim ==> 0 <= #[trigger] finv(i) < dim,
        forall|i: int| 0 <= i < dim ==> f(#[trigger] finv(i)) == i,
        forall|i: int| 0 <= i < dim ==> finv(#[trigger] f(i)) == i,
        forall|i: int, j: int|
            0 <= i < dim && 0 <= j < dim ==> #[trigger] p[i][j] == (if j == f(i) {
                sc_one()
            } else {
                sc_zero()
            }),
    ensures
        forall|i: int, j: int|
            0 <= i < dim && 0 <= j < dim ==> #[trigger] crate::algebra::ct_model(p)[i][j] == (if j
                == finv(i) {
                sc_one()
            } else {
                sc_zero()
            }),
{
    let ct = crate::algebra::ct_model(p);
    assert forall|i: int, j: int|
        0 <= i < dim && 0 <= j < dim implies #[trigger] ct[i][j] == (if j == finv(i) {
        sc_one()
    } else {
        sc_zero()
    }) by {
        assert(ct[i][j] == sc_conj(p[j][i]));
        assert(p[j][i] == (if i == f(j) {
            sc_one()
        } else {
            sc_zero()
        }));
        if i == f(j) {
            assert(finv(i) == j);
        }
        if j == finv(i) {
            assert(f(j) == i);
        }
    }
}

/// The wire-swap grid, packaged as a row-one-hot permutation.
proof fn lemma_swap_perm_char(n: nat, x: u64, y: u64, f: spec_fn(int) -> int)
    requires
        n < 32,
        x < n,
        y < n,
        forall|i: int| #[trigger] f(i) == sbits(i as u64, x, y) as int,
    ensures
        ({
            let dim = pow2_nat(n);
            let sw = swap_matrix_model(dim, x, y);
            &&& mat_rows(sw) == dim
            &&& mat_cols(sw) == dim
            &&& (forall|i: int| 0 <= i < dim ==> (#[trigger] sw[i]).len() == dim)
            &&& (forall|i: int| 0 <= i < dim ==> 0 <= #[trigger] f(i) < dim)
            &&& (forall|i: int| 0 <= i < dim ==> f(#[trigger] f(i)) == i)
            &&& (forall|i: int, j: int|
                0 <= i < dim && 0 <= j < dim ==> #[trigger] sw[i][j] == (if j == f(i) {
                    sc_one()
                } else {
                    sc_zero()
                }))
            &&& (forall|i: int, j: int|
                0 <= i < dim && 0 <= j < dim ==> sc_wf(#[trigger] sw[i][j]))
        }),
{
    lemma_pow2_u64(n);
    let dim = pow2_nat(n);
    let sw = swap_matrix_model(dim, x, y);
    assert forall|i: int| 0 <= i < dim implies 0 <= #[trigger] f(i) < dim by {
        lemma_sbits_bound(i as u64, x, y, n as u64);
    }
    assert forall|i: int| 0 <= i < dim implies f(#[trigger] f(i)) == i by {
        lemma_sbits_bound(i as u64, x, y, n as u64);
        lemma_sbits_involution(i as u64, x, y);
    }
    assert forall|i: int, j: int|
        0 <= i < dim && 0 <= j < dim implies #[trigger] sw[i][j] == (if j == f(i) {
        sc_one()
    } else {
        sc_zero()
    }) by {
        lemma_sbits_involution(i as u64, x, y);
        lemma_sbits_involution(j as u64, x, y);
    }
    lemma_perm_entries_wf(sw, dim, f);
}

/// Conjugating the embedded controlled-not by a wire permutation built from
/// the planned swaps gives the permutation grid of pf . cnot_low . pfinv.
proof fn lemma_apply_cnot_with_perm(
    n: nat,
    bits: Seq<u8>,
    p: MatModel,
    pf: spec_fn(int) -> int,
    pfinv: spec_fn(int) -> int,
)
    requires
        2 <= n < 32,
        swap_prod_spec(n, plan_spec(n, bits).swaps) == Some(p),
        mat_rows(p) == pow2_nat(n),
        mat_cols(p) == pow2_nat(n),
        forall|i: int| 0 <= i < pow2_nat(n) ==> (#[trigger] p[i]).len() == pow2_nat(n),
        forall|i: int| 0 <= i < pow2_nat(n) ==> 0 <= #[trigger] pf(i) < pow2_nat(n),
        forall|i: int| 0 <= i < pow2_nat(n) ==> 0 <= #[trigger] pfinv(i) < pow2_nat(n),
        forall|i: int| 0 <= i < pow2_nat(n) ==> pf(#[trigger] pfinv(i)) == i,
        forall|i: int| 0 <= i < pow2_nat(n) ==> pfinv(#[trigger] pf(i)) == i,
        forall|i: int, j: int|
            0 <= i < pow2_nat(n) && 0 <= j < pow2_nat(n) ==> #[trigger] p[i][j] == (if j == pf(i) {
                sc_one()
            } else {
                sc_zero()
            }),
    ensures
        apply_spec(n, cnot_model(), bits) is Ok,
        ({
            let am = apply_spec(n, cnot_model(), bits)->Ok_0;
            &&& mat_rows(am) == pow2_nat(n)
            &&& mat_cols(am) == pow2_nat(n)
            &&& (forall|i: int| 0 <= i < pow2_nat(n) ==> (#[trigger] am[i]).len() == pow2_nat(n))
            &&& (forall|i: int, j: int|
                0 <= i < pow2_nat(n) && 0 <= j < pow2_nat(n) ==> #[trigger] am[i][j] == (if j
                    == pf(cnot_low(pfinv(i) as u64) as int) {
                    sc_one()
                } else {
                    sc_zero()
                }))
        }),
{
    lemma_pow2_u64(n);
    let dim = pow2_nat(n);
    vstd::arithmetic::power2::lemma_pow2_pos(n);
    lemma_perm_entries_wf(p, dim, pf);
    assert(mat_rows(cnot_model()) == 4 && mat_cols(cnot_model()) == 4);

    lemma_ct_perm(p, dim, pf, pfinv);
    let pinv = crate::algebra::ct_model(p);
    lemma_perm_entries_wf(pinv, dim, pfinv);
    assert(mat_rows(pinv) == dim && mat_cols(pinv) == dim);
    assert(forall|i: int| 0 <= i < dim ==> (#[trigger] pinv[i]).len() == dim);

    let emb = crate::algebra::stack_model(dim, cnot_model());
    lemma_embed_cnot(n);
    let f = |i: int| cnot_low(i as u64) as int;
    assert forall|i: int| 0 <= i < dim implies 0 <= #[trigger] f(i) < dim by {
        lemma_cnot_low_bound(i as u64, n as u64);
    }
    assert forall|i: int, j: int|
        0 <= i < dim && 0 <= j < dim implies #[trigger] emb[i][j] == (if j == f(i) {
        sc_one()
    } else {
        sc_zero()
    }) by {}
    lemma_perm_entries_wf(emb, dim, f);

    lemma_perm_mul(emb, p, dim, f);
    let gp = mat_mul_val(emb, p);
    let gf = |i: int| pf(cnot_low(i as u64) as int);
    assert forall|i: int, j: int|
        0 <= i < dim && 0 <= j < dim implies #[trigger] gp[i][j] == (if j == gf(i) {
        sc_one()
    } else {
        sc_zero()
    }) by {
        assert(gp[i][j] == p[f(i)][j]);
    }
    assert forall|i: int| 0 <= i < dim implies 0 <= #[trigger] gf(i) < dim by {
        lemma_cnot_low_bound(i as u64, n as u64);
    }
    lemma_perm_entries_wf(gp, dim, gf);

    lemma_perm_mul(pinv, gp, dim, pfinv);
    let am = mat_mul_val(pinv, gp);
    assert forall|i: int, j: int|
        0 <= i < dim && 0 <= j < dim implies #[trigger] am[i][j] == (if j == pf(cnot_low(
        pfinv(i) as u64,
    ) as int) {
        sc_one()
    } else {
        sc_zero()
    }) by {
        assert(am[i][j] == gp[pfinv(i)][j]);
    }
    assert(apply_spec(n, cnot_model(), bits) == Ok::<MatModel, crate::Error>(am));
}

/// Applying the controlled-not to any two distinct wires (target first)
/// yields the permutation grid of the index map that flips the target bit
/// wherever the control bit is set.
#[verifier::rlimit(80)]
proof fn lemma_apply_cnot_general(n: nat, t: u8, c: u8)
    requires
        2 <= n < 32,
        t < n,
        c < n,
        t != c,
    ensures
        apply_spec(n, cnot_model(), seq![t, c]) is Ok,
        ({
            let am = apply_spec(n, cnot_model(), seq![t, c])->Ok_0;
            &&& mat_rows(am) == pow2_nat(n)
            &&& mat_cols(am) == pow2_nat(n)
            &&& (forall|i: int| 0 <= i < pow2_nat(n) ==> (#[trigger] am[i]).len() == pow2_nat(n))
            &&& (forall|i: int, j: int|
                0 <= i < pow2_nat(n) && 0 <= j < pow2_nat(n) ==> #[trigger] am[i][j] == (if j
                    == cnot_bits(i as u64, c as u64, t as u64) as int {
                    sc_one()
                } else {
                    sc_zero()
                }))
        }),
{
    lemma_pow2_u64(n);
    let dim = pow2_nat(n);
    vstd::arithmetic::power2::lemma_pow2_pos(n);
    lemma_plan_pair(n, t, c);
    let nn = n as u64;
    let tu = t as u64;
    let cu = c as u64;

    let sw1f = |i: int| sbits(i as u64, tu, 0) as int;
    let sw2f_c1 = |i: int| sbits(i as u64, cu, 1) as int;
    let sw2f_t1 = |i: int| sbits(i as u64, tu, 1) as int;

    // The permutation that the planned swaps compose to, and its inverse.
    let pf: spec_fn(int) -> int = if t == 0 && c == 1 {
        |i: int| i
    } else if t == 0 {
        |i: int| sbits(i as u64, cu, 1) as int
    } else if c == 0 && t == 1 {
        |i: int| sbits(i as u64, 1, 0) as int
    } else if c == 0 {
        |i: int| sbits(sbits(i as u64, tu, 1) as u64, tu, 0) as int
    } else if c == 1 {
        |i: int| sbits(i as u64, tu, 0) as int
    } else {
        |i: int| sbits(sbits(i as u64, cu, 1) as u64, tu, 0) as int
    };
    let pfinv: spec_fn(int) -> int = if t == 0 && c == 1 {
        |i: int| i
    } else if t == 0 {
        |i: int| sbits(i as u64, cu, 1) as int
    } else if c == 0 && t == 1 {
        |i: int| sbits(i as u64, 1, 0) as int
    } else if c == 0 {
        |i: int| sbits(sbits(i as u64, tu, 0) as u64, tu, 1) as int
    } else if c == 1 {
        |i: int| sbits(i as u64, tu, 0) as int
    } else {
        |i: int| sbits(sbits(i as u64, tu, 0) as u64, cu, 1) as int
    };

    // The composed product matches pf in every case.
    let p: MatModel = if t == 0 && c == 1 {
        id_model(dim)
    } else if t == 0 {
        swap_matrix_model(dim, cu, 1)
    } else if c == 0 && t == 1 {
        swap_matrix_model(dim, 1, 0)
    } else if c == 0 {
        mat_mul_val(swap_matrix_model(dim, tu, 1), swap_matrix_model(dim, tu, 0))
    } else if c == 1 {
        swap_matrix_model(dim, tu, 0)
    } else {
        mat_mul_val(swap_matrix_model(dim, cu, 1), swap_matrix_model(dim, tu, 0))
    };

    if t == 0 && c == 1 {
        assert(swap_prod_spec(n, plan_spec(n, seq![t, c]).swaps) == Some(p));
        assert forall|i: int, j: int|
            0 <= i < dim && 0 <= j < dim implies #[trigger] p[i][j] == (if j == pf(i) {
            sc_one()
        } else {
            sc_zero()
        }) by {}
    } else if t == 0 || c == 1 || (c == 0 && t == 1) {
        // One elementary swap.
        let (x, y): (u64, u64) = if t == 0 {
            (cu, 1)
        } else if c == 1 {
            (tu, 0)
        } else {
            (1, 0)
        };
        let sf = |i: int| sbits(i as u64, x, y) as int;
        lemma_swap_perm_char(n, x, y, sf);
        assert(pair_swaps(t, c) =~= seq![(x as u8, y as u8)]);
        assert(seq![(x as u8, y as u8)].drop_last() =~= Seq::<(u8, u8)>::empty());
        assert(seq![(x as u8, y as u8)].last() == (x as u8, y as u8));
        lemma_mul_id_right(swap_matrix_model(dim, x, y), dim);
        assert(swap_prod_spec(n, Seq::<(u8, u8)>::empty()) == Some(id_model(dim)));
        assert(swap_prod_spec(n, plan_spec(n, seq![t, c]).swaps) == Some(
            swap_matrix_model(dim, x, y),
        ));
        assert(p == swap_matrix_model(dim, x, y));
        assert(forall|i: int| 0 <= i < dim ==> #[trigger] pf(i) == sf(i));
        assert(forall|i: int| 0 <= i < dim ==> #[trigger] pfinv(i) == sf(i));
    } else {
        // Two elementary swaps: (t, 0) first, then the second.
        let (x2, y2): (u64, u64) = if c == 0 {
            (tu, 1)
        } else {
            (cu, 1)
        };
        let s1 = swap_matrix_model(dim, tu, 0);
        let s2 = swap_matrix_model(dim, x2, y2);
        let s1f = |i: int| sbits(i as u64, tu, 0) as int;
        let s2f = |i: int| sbits(i as u64, x2, y2) as int;
        lemma_swap_perm_char(n, tu, 0, s1f);
        lemma_swap_perm_char(n, x2, y2, s2f);
        assert(pair_swaps(t, c) =~= seq![(t, 0u8), (x2 as u8, y2 as u8)]);
        let sw_all = seq![(t, 0u8), (x2 as u8, y2 as u8)];
        assert(sw_all.drop_last() =~= seq![(t, 0u8)]);
        assert(sw_all.last() == (x2 as u8, y2 as u8));
        assert(seq![(t, 0u8)].drop_last() =~= Seq::<(u8, u8)>::empty());
        assert(seq![(t, 0u8)].last() == (t, 0u8));
        lemma_mul_id_right(s1, dim);
        assert(swap_prod_spec(n, Seq::<(u8, u8)>::empty()) == Some(id_model(dim)));
        assert(swap_prod_spec(n, seq![(t, 0u8)]) == Some(s1));
        lemma_perm_mul(s2, s1, dim, s2f);
        assert(swap_prod_spec(n, plan_spec(n, seq![t, c]).swaps) == Some(mat_mul_val(s2, s1)));
        assert(p == mat_mul_val(s2, s1));
        assert forall|i: int, j: int|
            0 <= i < dim && 0 <= j < dim implies #[trigger] p[i][j] == (if j == pf(i) {
            sc_one()
        } else {
            sc_zero()
        }) by {
            assert(p[i][j] == s1[s2f(i)][j]);
        }
    }

    // Shared facts for every case shape.
    assert forall|i: int|
        #![trigger pf(i)]
        #![trigger pfinv(i)]
        0 <= i < dim implies 0 <= pf(i) < dim && 0 <= pfinv(i) < dim && pf(pfinv(i)) == i
        && pfinv(pf(i)) == i by {
        if t == 0 && c == 1 {
        } else if t == 0 || c == 1 || (c == 0 && t == 1) {
            let (x, y): (u64, u64) = if t == 0 {
                (cu, 1)
            } else if c == 1 {
                (tu, 0)
            } else {
                (1, 0)
            };
            lemma_sbits_bound(i as u64, x, y, nn);
            lemma_sbits_involution(i as u64, x, y);
            lemma_sbits_bound(sbits(i as u64, x, y), x, y, nn);
        } else {
            let (x2, y2): (u64, u64) = if c == 0 {
                (tu, 1)
            } else {
                (cu, 1)
            };
            lemma_sbits_bound(i as u64, x2, y2, nn);
            lemma_sbits_bound(i as u64, tu, 0, nn);
            lemma_sbits_bound(sbits(i as u64, x2, y2), tu, 0, nn);
            lemma_sbits_bound(sbits(i as u64, tu, 0), x2, y2, nn);
            lemma_sbits_involution(i as u64, x2, y2);
            lemma_sbits_involution(i as u64, tu, 0);
            lemma_sbits_involution(sbits(i as u64, x2, y2), tu, 0);
            lemma_sbits_involution(sbits(i as u64, tu, 0), x2, y2);
        }
    }

    lemma_apply_cnot_with_perm(n, seq![t, c], p, pf, pfinv);
    let am = apply_spec(n, cnot_model(), seq![t, c])->Ok_0;
    assert forall|i: int, j: int|
        0 <= i < dim && 0 <= j < dim implies #[trigger] am[i][j] == (if j == cnot_bits(
        i as u64,
        cu,
        tu,
    ) as int {
        sc_one()
    } else {
        sc_zero()
    }) by {
        let iu = i as u64;
        assert(am[i][j] == (if j == pf(cnot_low(pfinv(i) as u64) as int) {
            sc_one()
        } else {
            sc_zero()
        }));
        if t == 0 && c == 1 {
            assert(cnot_low(iu) == cnot_bits(iu, cu, tu)) by (bit_vector)
                requires
                    cu == 1,
                    tu == 0,
            ;
        } else if t == 0 {
            assert(sbits(cnot_low(sbits(iu, cu, 1)), cu, 1) == cnot_bits(iu, cu, tu))
                by (bit_vector)
                requires
                    tu == 0,
                    2 <= cu < 32,
            ;
        } else if c == 0 && t == 1 {
            assert(sbits(cnot_low(sbits(iu, 1, 0)), 1, 0) == cnot_bits(iu, cu, tu)) by (bit_vector)
                requires
                    cu == 0,
                    tu == 1,
            ;
        } else if c == 0 {
            assert(sbits(sbits(cnot_low(sbits(sbits(iu, tu, 0), tu, 1)), tu, 1), tu, 0)
                == cnot_bits(iu, cu, tu)) by (bit_vector)
                requires
                    cu == 0,
                    2 <= tu < 32,
            ;
        } else if c == 1 {
            assert(sbits(cnot_low(sbits(iu, tu, 0)), tu, 0) == cnot_bits(iu, cu, tu))
                by (bit_vector)
                requires
                    cu == 1,
                    2 <= tu < 32,
            ;
        } else {
            assert(sbits(sbits(cnot_low(sbits(sbits(iu, tu, 0), cu, 1)), cu, 1), tu, 0)
                == cnot_bits(iu, cu, tu)) by (bit_vector)
                requires
                    2 <= cu < 32,
                    1 <= tu < 32,
                    cu != tu,
            ;
        }
    }
}

/// Swap as three controlled-nots: on a fresh register, for any two distinct
/// wires a and b, applying the controlled-not as (a,b), (b,a), (a,b) builds
/// exactly the unitary of the wire swap of a and b.
#[verifier::rlimit(60)]
pub proof fn lemma_swap_as_three_cnots(n: nat, a: u8, b: u8)
    requires
        2 <= n < 32,
        a < n,
        b < n,
        a != b,
    ensures
        ({
            let s0 = QModel { n, m: id_model(pow2_nat(n)) };
            let g = QModel { n: 2, m: cnot_model() };
            let q1 = gate_spec(s0, g, seq![b, a]);
            &&& q1 is Ok
            &&& ({
                let q2 = gate_spec(q1->Ok_0, g, seq![a, b]);
                &&& q2 is Ok
                &&& ({
                    let q3 = gate_spec(q2->Ok_0, g, seq![b, a]);
                    &&& q3 is Ok
                    &&& q3->Ok_0.n == n
                    &&& q3->Ok_0.m == swap_matrix_model(pow2_nat(n), a as u64, b as u64)
                })
            })
        }),
{
    lemma_pow2_u64(n);
    let dim = pow2_nat(n);
    vstd::arithmetic::power2::lemma_pow2_pos(n);
    let s0 = QModel { n, m: id_model(dim) };
    let g = QModel { n: 2, m: cnot_model() };
    let au = a as u64;
    let bu = b as u64;
    let nn = n as u64;

    let f1 = |i: int| cnot_bits(i as u64, au, bu) as int;
    let f2 = |i: int| cnot_bits(i as u64, bu, au) as int;
    assert forall|i: int|
        #![trigger f1(i)]
        #![trigger f2(i)]
        0 <= i < dim implies 0 <= f1(i) < dim && 0 <= f2(i) < dim by {
        let iu = i as u64;
        assert(cnot_bits(iu, au, bu) < (1u64 << nn) && cnot_bits(iu, bu, au) < (1u64 << nn))
            by (bit_vector)
            requires
                iu < (1u64 << nn),
                au < nn,
                bu < nn,
                nn < 32,
        ;
    }

    lemma_apply_cnot_general(n, b, a);
    let r1 = apply_spec(n, cnot_model(), seq![b, a])->Ok_0;
    lemma_perm_entries_wf(r1, dim, f1);
    lemma_mul_id_right(r1, dim);
    let q1 = gate_spec(s0, g, seq![b, a]);
    assert(q1 == Ok::<QModel, crate::Error>(QModel { n, m: r1 }));

    lemma_apply_cnot_general(n, a, b);
    let r2 = apply_spec(n, cnot_model(), seq![a, b])->Ok_0;
    lemma_perm_entries_wf(r2, dim, f2);
    lemma_perm_mul(r2, r1, dim, f2);
    let m2 = mat_mul_val(r2, r1);
    let q2 = gate_spec(q1->Ok_0, g, seq![a, b]);
    assert(q2 == Ok::<QModel, crate::Error>(QModel { n, m: m2 }));
    let f21 = |i: int| f1(f2(i));
    assert forall|i: int, j: int|
        0 <= i < dim && 0 <= j < dim implies #[trigger] m2[i][j] == (if j == f21(i) {
        sc_one()
    } else {
        sc_zero()
    }) by {
        assert(m2[i][j] == r1[f2(i)][j]);
    }
    assert forall|i: int| 0 <= i < dim implies 0 <= #[trigger] f21(i) < dim by {
        assert(0 <= f2(i) < dim);
    }
    lemma_perm_entries_wf(m2, dim, f21);

    let q3 = gate_spec(q2->Ok_0, g, seq![b, a]);
    lemma_perm_mul(r1, m2, dim, f1);
    let m3 = mat_mul_val(r1, m2);
    assert(q3 == Ok::<QModel, crate::Error>(QModel { n, m: m3 }));

    let target = swap_matrix_model(dim, au, bu);
    assert forall|i: int, j: int|
        0 <= i < dim && 0 <= j < dim implies #[trigger] m3[i][j] == target[i][j] by {
        assert(m3[i][j] == m2[f1(i)][j]);
        let iu = i as u64;
        let ju = j as u64;
        assert(m2[f1(i)][j] == (if j == f21(f1(i)) {
            sc_one()
        } else {
            sc_zero()
        }));
        assert(f21(f1(i)) == cnot_bits(cnot_bits(cnot_bits(iu, au, bu), bu, au), au, bu) as int);
        lemma_three_cnots_swap_bits(iu, au, bu);
        lemma_sbits_involution(iu, au, bu);
        lemma_sbits_involution(ju, au, bu);
        lemma_sbits_bound(iu, au, bu, nn);
    }
    assert(m3 =~~= target);
}

} // verus!
