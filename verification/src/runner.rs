//! The conformance runner: resolves a test-case identifier, decodes
//! the caller's bytes against that case's shape, checks them against
//! the reference value, and returns the canonical encoding of the
//! reference.

use vstd::prelude::*;
use crate::codec::{DecodeError, dec_top, enc_top, decode_top, encode};
use crate::registry::{case_count, reg_shape, reg_value, lookup, lemma_reg_conforms};
use crate::laws::{lemma_round_trip, lemma_dec_canonical};

verus! {

/// The ways a conformance run can fail. Each of these is fatal for the
/// harness: the caller is expected to halt on any of them.
#[derive(Clone, Copy, PartialEq, Eq, Structural, Debug)]
pub enum RunError {
    /// The identifier names no registry case.
    UnknownTestCase,
    /// The input bytes did not decode as one whole value of the case's
    /// shape.
    Decode(DecodeError),
    /// The input bytes decoded, but to a value other than the case's
    /// reference value.
    RoundtripMismatch,
}

/// Compares a byte slice with a byte vector.
fn bytes_eq(a: &[u8], b: &Vec<u8>) -> (r: bool)
    ensures
        r == (a@ == b@),
{
    let n = a.len();
    if n != b.len() {
        return false;
    }
    let mut j: usize = 0;
    while j < n
        invariant
            j <= n,
            n == a@.len() == b@.len(),
            forall|k: int| 0 <= k < j ==> a@[k] == b@[k],
        decreases n - j,
    {
        if a[j] != b[j] {
            return false;
        }
        j = j + 1;
    }
    proof {
        assert(a@ =~= b@);
    }
    true
}

/// Runs one conformance check: decodes `input` as a value of the shape
/// of case `id`, requires it to equal the case's reference value, and
/// returns the canonical encoding of that reference value.
///
/// Success is owed exactly when `input` is the canonical encoding of
/// the reference value; every failure names its cause, and on success
/// the returned bytes equal both that encoding and `input` itself.
pub fn run_test(id: u8, input: &[u8]) -> (r: Result<Vec<u8>, RunError>)
    ensures
        (id as int) >= case_count() ==> r == Err::<Vec<u8>, RunError>(RunError::UnknownTestCase),
        (id as int) < case_count() ==> match dec_top(reg_shape(id as int), input@) {
            Err(e) => r == Err::<Vec<u8>, RunError>(RunError::Decode(e)),
            Ok(d) => if d == reg_value(id as int) {
                r matches Ok(out) && out@ == enc_top(reg_shape(id as int), reg_value(id as int))
                    && out@ == input@
            } else {
                r == Err::<Vec<u8>, RunError>(RunError::RoundtripMismatch)
            },
        },
{
    match lookup(id) {
        Option::None => Err(RunError::UnknownTestCase),
        Option::Some((shape, reference)) => {
            proof {
                lemma_reg_conforms(id as int);
            }
            match decode_top(&shape, input) {
                Err(e) => Err(RunError::Decode(e)),
                Ok(decoded) => {
                    let mut out: Vec<u8> = Vec::new();
                    encode(&shape, &shape, &reference, &mut out);
                    if bytes_eq(input, &out) {
                        proof {
                            lemma_round_trip(reg_shape(id as int), reg_value(id as int));
                        }
                        Ok(out)
                    } else {
                        proof {
                            lemma_dec_canonical(reg_shape(id as int), input@);
                        }
                        Err(RunError::RoundtripMismatch)
                    }
                },
            }
        },
    }
}

} // verus!
