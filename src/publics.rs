//! Per-round public inputs: rows of words on the wire, read as elements of
//! the proving system's scalar field (BN254's `Fr`).
use crate::abi::{abi_decode_rows, abi_rows_accepts, abi_rows_read, words_view};
use crate::error::ProverError;
use crate::word::{be_value, Word};
use ark_bn254::Fr;
use ark_ff::{BigInteger, PrimeField};
use vstd::prelude::*;

verus! {

/// The order of BN254's scalar field,
/// 21888242871839275222246405745257275088548364400416034343698204186575808495617.
pub open spec fn scalar_modulus() -> nat {
    0x30644e72e131a029b85045b68181585d * (0x1_0000_0000_0000_0000 * 0x1_0000_0000_0000_0000)
        + 0x2833e84879b9709143e1f593f0000001
}

/// A canonical residue modulo `scalar_modulus()`, as 32 big-endian bytes.
#[derive(Clone, Copy, Debug, PartialEq, Eq)]
pub struct FieldElement {
    bytes: Word,
}

impl FieldElement {
    pub closed spec fn value(&self) -> nat {
        be_value(self.bytes@)
    }

    pub open spec fn wf(&self) -> bool {
        self.value() < scalar_modulus()
    }

    /// The element that a big-endian word stands for: its value reduced
    /// modulo the field's order, a value at or above the order included.
    pub fn from_be_word_mod_order(w: &Word) -> (r: FieldElement)
        ensures
            r.wf(),
            r.value() == be_value(w@) % scalar_modulus(),
    {
        FieldElement { bytes: reduce_to_scalar(w) }
    }

    /// The residue as 32 big-endian bytes.
    pub fn to_be_bytes(&self) -> (r: Word)
        ensures
            be_value(r@) == self.value(),
    {
        self.bytes
    }
}

/// Relies on `PrimeField::from_be_bytes_mod_order` for BN254's `Fr`: it reads
/// the bytes as a big-endian integer and reduces it modulo the field's order;
/// `into_bigint().to_bytes_be()` gives that residue back as 32 big-endian
/// bytes.
#[verifier::external_body]
fn reduce_to_scalar(w: &Word) -> (r: Word)
    ensures
        be_value(r@) == be_value(w@) % scalar_modulus(),
{
    let bytes = Fr::from_be_bytes_mod_order(w).into_bigint().to_bytes_be();
    let mut out = [0u8; 32];
    out.copy_from_slice(&bytes);
    out
}

/// Every row holds `size` elements, each the residue of the matching word.
pub open spec fn publics_match(v: Seq<Vec<FieldElement>>, rows: Seq<Seq<Seq<u8>>>, size: nat) -> bool {
    &&& v.len() == rows.len()
    &&& forall|i: int| 0 <= i < v.len() ==> (#[trigger] v[i])@.len() == size
    &&& forall|i: int, j: int|
        0 <= i < v.len() && 0 <= j < size ==> (#[trigger] v[i]@[j]).value() == be_value(rows[i][j])
            % scalar_modulus()
}

/// Reads a batch of public-input vectors of `size` words each. Fails with
/// `Decode` exactly when the bytes are not an array of such rows.
pub fn decode_multiple_prove_publics(bytes: &[u8], size: usize) -> (r: Result<
    Vec<Vec<FieldElement>>,
    ProverError,
>)
    requires
        size >= 1,
    ensures
        r is Ok <==> abi_rows_accepts(bytes@, size as nat),
        r matches Ok(v) ==> publics_match(v@, abi_rows_read(bytes@, size as nat), size as nat),
        r matches Err(e) ==> e == ProverError::Decode,
{
    let rows = match abi_decode_rows(bytes, size) {
        Some(rows) => rows,
        None => {
            return Err(ProverError::Decode);
        },
    };
    let ghost wv = words_view(&rows);
    let mut publics: Vec<Vec<FieldElement>> = Vec::new();
    let mut i: usize = 0;
    while i < rows.len()
        invariant
            wv == words_view(&rows),
            wv == abi_rows_read(bytes@, size as nat),
            i <= rows.len(),
            publics_match(publics@, wv.subrange(0, i as int), size as nat),
        decreases rows.len() - i,
    {
        let row = &rows[i];
        proof {
            assert(wv.len() == rows@.len());
            assert(wv[i as int] == row@.map_values(|w: Word| w@));
            assert(wv[i as int] == abi_rows_read(bytes@, size as nat)[i as int]);
            assert(wv[i as int].len() == size);
            assert(row@.len() == size);
        }
        let mut public: Vec<FieldElement> = Vec::new();
        let mut j: usize = 0;
        while j < row.len()
            invariant
                j <= row.len(),
                row.len() == size,
                wv[i as int] == row@.map_values(|w: Word| w@),
                public@.len() == j,
                forall|k: int| 0 <= k < j ==> (#[trigger] public@[k]).value() == be_value(row@[k]@) % scalar_modulus(),
            decreases row.len() - j,
        {
            public.push(FieldElement::from_be_word_mod_order(&row[j]));
            j = j + 1;
        }
        let ghost before = publics@;
        publics.push(public);
        proof {
            let sub = wv.subrange(0, i + 1);
            assert(sub =~= wv.subrange(0, i as int).push(wv[i as int]));
            assert forall|a: int, b: int| 0 <= a < publics@.len() && 0 <= b < size implies (#[trigger] publics@[a]@[b]).value() == be_value(sub[a][b]) % scalar_modulus() by {
                if a < i {
                    assert(publics@[a] == before[a]);
                    assert(sub[a] == wv.subrange(0, i as int)[a]);
                } else {
                    assert(publics@[a] == public);
                    assert(sub[a][b] == row@[b]@);
                }
            }
            assert forall|a: int| 0 <= a < publics@.len() implies (#[trigger] publics@[a])@.len() == size by {
                if a < i {
                    assert(publics@[a] == before[a]);
                }
            }
        }
        i = i + 1;
    }
    proof {
        assert(wv.subrange(0, rows.len() as int) =~= wv);
    }
    Ok(publics)
}

} // verus!
