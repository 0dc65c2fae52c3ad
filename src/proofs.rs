//! The wire form of a batch of proofs: per proof eight words,
//! `[Ax, Ay, Bx.c1, Bx.c0, By.c1, By.c0, Cx, Cy]`.
use crate::abi::{abi_encode_rows, abi_rows_layout, abi_rows_payload_len, rows_payload, rows_shaped, rows_width, words_view};
use crate::error::ProverError;
use crate::transcript::MAX_BATCH;
use crate::word::Word;
use vstd::prelude::*;

verus! {

/// A point of G1 in affine coordinates, each the canonical big-endian bytes
/// of a base-field element.
#[derive(Clone, Copy, Debug, PartialEq, Eq)]
pub struct G1Point {
    pub x: Word,
    pub y: Word,
}

/// A point of G2 in affine coordinates; each coordinate lies in the quadratic
/// extension and has the parts `c0` and `c1`.
#[derive(Clone, Copy, Debug, PartialEq, Eq)]
pub struct G2Point {
    pub x_c0: Word,
    pub x_c1: Word,
    pub y_c0: Word,
    pub y_c1: Word,
}

/// The three points of one proof.
#[derive(Clone, Copy, Debug, PartialEq, Eq)]
pub struct ProofPoints {
    pub a: G1Point,
    pub b: G2Point,
    pub c: G1Point,
}

/// The eight words of one proof, the G2 coordinates with `c1` before `c0`.
pub open spec fn proof_row(p: ProofPoints) -> Seq<Seq<u8>> {
    seq![p.a.x@, p.a.y@, p.b.x_c1@, p.b.x_c0@, p.b.y_c1@, p.b.y_c0@, p.c.x@, p.c.y@]
}

/// The wire bytes of a batch of proofs.
pub open spec fn encoded_proofs(s: Seq<ProofPoints>) -> Seq<u8> {
    abi_rows_layout(s.map_values(|p: ProofPoints| proof_row(p)), 8)
}

fn proof_words(p: &ProofPoints) -> (r: Vec<Word>)
    ensures
        r@.map_values(|w: Word| w@) == proof_row(*p),
{
    let mut r: Vec<Word> = Vec::new();
    r.push(p.a.x);
    r.push(p.a.y);
    r.push(p.b.x_c1);
    r.push(p.b.x_c0);
    r.push(p.b.y_c1);
    r.push(p.b.y_c0);
    r.push(p.c.x);
    r.push(p.c.y);
    proof {
        assert(r@.map_values(|w: Word| w@) =~= proof_row(*p));
    }
    r
}

/// Encodes the proofs of a batch, in their order.
pub fn multiple_proofs_to_abi_bytes(proofs: &[ProofPoints]) -> (r: Vec<u8>)
    requires
        proofs@.len() <= MAX_BATCH,
    ensures
        r@ == encoded_proofs(proofs@),
{
    let ghost v = proofs@;
    let mut rows: Vec<Vec<Word>> = Vec::new();
    let mut i: usize = 0;
    proof {
        assert(words_view(&rows) =~= v.subrange(0, 0).map_values(|p: ProofPoints| proof_row(p)));
    }
    while i < proofs.len()
        invariant
            v == proofs@,
            i <= proofs.len(),
            words_view(&rows) == v.subrange(0, i as int).map_values(|p: ProofPoints| proof_row(p)),
        decreases proofs.len() - i,
    {
        let row = proof_words(&proofs[i]);
        let ghost before = rows@;
        rows.push(row);
        proof {
            assert(rows@ == before.push(row));
            assert(v.subrange(0, i + 1) =~= v.subrange(0, i as int).push(v[i as int]));
            assert(words_view(&rows) =~= before.map_values(|r: Vec<Word>| r@.map_values(|w: Word| w@)).push(
                row@.map_values(|w: Word| w@),
            ));
            assert(words_view(&rows) =~= v.subrange(0, i + 1).map_values(|p: ProofPoints| proof_row(p)));
        }
        i = i + 1;
    }
    proof {
        assert(v.subrange(0, proofs.len() as int) =~= v);
        let wv = words_view(&rows);
        let n = wv.len();
        assert forall|k: int| 0 <= k < n implies #[trigger] wv[k].len() == 8 by {
            assert(wv[k] == proof_row(v[k]));
        }
        assert forall|k: int, j: int| 0 <= k < n && 0 <= j < rows_width(wv) implies #[trigger] wv[k][j].len() == 32 by {
            assert(wv[k] == proof_row(v[k]));
        }
        assert(rows_shaped(wv, rows_width(wv)));
        abi_rows_payload_len(wv, rows_width(wv));
        abi_rows_payload_len(wv, 8);
        if n == 0 {
            assert(rows_payload(wv, rows_width(wv)) =~= rows_payload(wv, 8));
        }
        let w32 = rows_width(wv) * 32;
        assert(w32 <= 256);
        assert(n * w32 <= n * 256) by (nonlinear_arith)
            requires
                w32 <= 256,
        ;
        assert(64 + n * w32 <= 0xffff_ffff);
    }
    abi_encode_rows(&rows)
}

/// What a round comes to once the proving engine and the check of its proof
/// have run: `Proving` when no proof came, `VerificationMismatch` when the
/// proof did not verify, else the proof.
pub fn settle_round(produced: Option<ProofPoints>, verified: bool) -> (r: Result<ProofPoints, ProverError>)
    ensures
        produced is None ==> r == Err::<ProofPoints, ProverError>(ProverError::Proving),
        produced is Some && !verified ==> r == Err::<ProofPoints, ProverError>(ProverError::VerificationMismatch),
        verified && produced is Some ==> r == Ok::<ProofPoints, ProverError>(produced.unwrap()),
{
    match produced {
        None => Err(ProverError::Proving),
        Some(p) => {
            if verified {
                Ok(p)
            } else {
                Err(ProverError::VerificationMismatch)
            }
        },
    }
}

} // verus!
