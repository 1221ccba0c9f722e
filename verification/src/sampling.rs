use vstd::prelude::*;
use crate::matrix::row_model;
use crate::scalar::{SModel, Scalar, real_ge_spec, sc_add_spec, sc_zero};
use crate::Error;
use rand::Rng;

verus! {

/// Relies on rand::Rng::gen_range over the thread-local generator: it
/// returns a uniformly distributed value within the given range and panics
/// only when the range is empty.
#[verifier::external_body]
pub(crate) fn sample_uniform_below(bound: u64) -> (r: u64)
    requires
        bound > 0,
    ensures
        r < bound,
{
    rand::thread_rng().gen_range(0..bound)
}

/// Inverse-CDF walk over the probabilities from index `i` on, with `acc`
/// the probability mass before `i`: the first index whose running sum
/// reaches u/2^53, or one past the last index when the sum never does.
pub open spec fn sample_from(ps: Seq<SModel>, u: u64, acc: SModel, i: int) -> Result<int, Error>
    decreases ps.len() - i,
{
    if i < 0 || i >= ps.len() {
        Ok(ps.len() as int)
    } else {
        match sc_add_spec(acc, ps[i]) {
            None => Err(Error::Overflow),
            Some(acc2) => match real_ge_spec(acc2, u) {
                None => Err(Error::Overflow),
                Some(true) => Ok(i),
                Some(false) => sample_from(ps, u, acc2, i + 1),
            },
        }
    }
}

/// The index that the Born-rule draw u/2^53 selects from `ps`.
pub open spec fn sample_spec(ps: Seq<SModel>, u: u64) -> Result<int, Error> {
    sample_from(ps, u, sc_zero(), 0)
}

/// Walk the cumulative distribution of `probs` and return the first index
/// whose running sum reaches u/2^53, or `probs.len()` as the documented
/// fallback when it never does.
pub fn sample_index(probs: &Vec<Scalar>, u: u64) -> (r: Result<usize, Error>)
    requires
        u < 0x20_0000_0000_0000,
    ensures
        (match sample_spec(row_model(*probs), u) {
            Ok(i) => r is Ok && r->Ok_0 == i,
            Err(e) => r == Err::<usize, Error>(e),
        }),
{
    let ghost ps = row_model(*probs);
    let mut acc = Scalar::zero();
    let mut i: usize = 0;
    while i < probs.len()
        invariant
            0 <= i <= ps.len(),
            ps == row_model(*probs),
            ps.len() == probs@.len(),
            u < 0x20_0000_0000_0000,
            (sample_spec(ps, u) == sample_from(ps, u, acc@, i as int)),
        decreases ps.len() - i,
    {
        let p = probs[i];
        proof {
            assert(p@ == ps[i as int]);
        }
        let acc2 = match acc.add(&p) {
            Some(s) => s,
            None => {
                return Err(Error::Overflow);
            },
        };
        match acc2.real_ge(u) {
            Ok(true) => {
                return Ok(i);
            },
            Ok(false) => {},
            Err(e) => {
                return Err(e);
            },
        }
        acc = acc2;
        i += 1;
    }
    Ok(probs.len())
}

} // verus!
