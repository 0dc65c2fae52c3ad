//! A job as it arrives: a 4-byte big-endian length `L`, `L` bytes of
//! transcript batch, then the public-input batch. Everything up to the first
//! proving call is decided here.
use crate::abi::{abi_rows_accepts, abi_rows_read};
use crate::error::ProverError;
use crate::publics::{decode_multiple_prove_publics, publics_match, FieldElement};
use crate::transcript::{
    all_shaped, decode_prove_inputs, decoded_input, lemma_decoded_shaped, rows_decodable, views,
    Input,
};
use crate::word::be_value;
use vstd::prelude::*;

verus! {

/// Public inputs per round.
pub const PUBLIC_INPUT_LEN: usize = 2;

/// The decoded batch: round `i`'s transcript is proved against round `i`'s
/// public inputs.
pub struct Job {
    pub inputs: Vec<Input>,
    pub publics: Vec<Vec<FieldElement>>,
}

/// The length prefix of a payload.
pub open spec fn frame_len(p: Seq<u8>) -> nat {
    be_value(p.subrange(0, 4))
}

/// The payload holds its length prefix and the segment it announces.
pub open spec fn frame_ok(p: Seq<u8>) -> bool {
    p.len() >= 4 && 4 + frame_len(p) <= p.len()
}

pub open spec fn frame_inputs(p: Seq<u8>) -> Seq<u8> {
    p.subrange(4, 4 + frame_len(p) as int)
}

pub open spec fn frame_publics(p: Seq<u8>) -> Seq<u8> {
    p.subrange(4 + frame_len(p) as int, p.len() as int)
}

/// The transcript segment decodes.
pub open spec fn inputs_decode(b: Seq<u8>) -> bool {
    abi_rows_accepts(b, 3) && rows_decodable(abi_rows_read(b, 3))
}

fn copy_range(p: &[u8], lo: usize, hi: usize) -> (r: Vec<u8>)
    requires
        lo <= hi <= p@.len(),
    ensures
        r@ == p@.subrange(lo as int, hi as int),
{
    let mut r: Vec<u8> = Vec::new();
    let mut k: usize = lo;
    while k < hi
        invariant
            lo <= k <= hi <= p@.len(),
            r@ == p@.subrange(lo as int, k as int),
        decreases hi - k,
    {
        r.push(p[k]);
        proof {
            assert(p@.subrange(lo as int, k + 1) =~= p@.subrange(lo as int, k as int).push(p@[k as int]));
        }
        k = k + 1;
    }
    r
}

/// Splits a payload into its transcript segment and its public-input
/// segment. Fails with `Decode` when the payload is shorter than its length
/// prefix says.
pub fn split_frame(payload: &[u8]) -> (r: Result<(Vec<u8>, Vec<u8>), ProverError>)
    ensures
        r is Ok <==> frame_ok(payload@),
        r matches Ok(parts) ==> parts.0@ == frame_inputs(payload@) && parts.1@ == frame_publics(
            payload@,
        ),
        r matches Err(e) ==> e == ProverError::Decode,
{
    if payload.len() < 4 {
        return Err(ProverError::Decode);
    }
    let len: u64 = ((payload[0] as u64 * 256 + payload[1] as u64) * 256 + payload[2] as u64) * 256
        + payload[3] as u64;
    proof {
        let p = payload@.subrange(0, 4);
        assert(p.drop_last() =~= payload@.subrange(0, 3));
        assert(payload@.subrange(0, 3).drop_last() =~= payload@.subrange(0, 2));
        assert(payload@.subrange(0, 2).drop_last() =~= payload@.subrange(0, 1));
        assert(payload@.subrange(0, 1).drop_last() =~= Seq::<u8>::empty());
        assert(be_value(Seq::<u8>::empty()) == 0);
        let b0 = payload@[0] as nat;
        let b1 = payload@[1] as nat;
        let b2 = payload@[2] as nat;
        let b3 = payload@[3] as nat;
        assert(be_value(payload@.subrange(0, 1)) == b0);
        assert(be_value(payload@.subrange(0, 2)) == b0 * 256 + b1);
        assert(be_value(payload@.subrange(0, 3)) == (b0 * 256 + b1) * 256 + b2);
        assert(be_value(p) == ((b0 * 256 + b1) * 256 + b2) * 256 + b3);
        assert(len == frame_len(payload@));
    }
    if len > (payload.len() - 4) as u64 {
        return Err(ProverError::Decode);
    }
    let end: usize = 4 + len as usize;
    let inputs = copy_range(payload, 4, end);
    let publics = copy_range(payload, end, payload.len());
    Ok((inputs, publics))
}

/// Splits and decodes a payload, with `PUBLIC_INPUT_LEN` public inputs per
/// round. Fails with `Decode` when the frame, the transcript batch or the
/// public-input batch does not decode, and with `Shape` when the two batches
/// differ in length; either way before any proving. Every decoded
/// transcript has the fixed symbol counts.
pub fn prepare_job(payload: &[u8]) -> (r: Result<Job, ProverError>)
    ensures
        r == Err::<Job, ProverError>(ProverError::Decode) <==> !frame_ok(payload@) || !inputs_decode(
            frame_inputs(payload@),
        ) || !abi_rows_accepts(frame_publics(payload@), PUBLIC_INPUT_LEN as nat),
        r == Err::<Job, ProverError>(ProverError::Shape) <==> frame_ok(payload@) && inputs_decode(
            frame_inputs(payload@),
        ) && abi_rows_accepts(frame_publics(payload@), PUBLIC_INPUT_LEN as nat) && abi_rows_read(
            frame_inputs(payload@),
            3,
        ).len() != abi_rows_read(frame_publics(payload@), PUBLIC_INPUT_LEN as nat).len(),
        r is Ok || r == Err::<Job, ProverError>(ProverError::Decode) || r == Err::<Job, ProverError>(
            ProverError::Shape,
        ),
        r matches Ok(job) ==> job.inputs@.len() == job.publics@.len() && all_shaped(
            views(job.inputs@),
        ) && views(job.inputs@)
            == abi_rows_read(frame_inputs(payload@), 3).map_values(
            |row: Seq<Seq<u8>>| decoded_input(row),
        ) && publics_match(
            job.publics@,
            abi_rows_read(frame_publics(payload@), PUBLIC_INPUT_LEN as nat),
            PUBLIC_INPUT_LEN as nat,
        ),
{
    let (input_bytes, public_bytes) = match split_frame(payload) {
        Ok(parts) => parts,
        Err(e) => {
            return Err(e);
        },
    };
    let inputs = match decode_prove_inputs(input_bytes.as_slice()) {
        Ok(v) => v,
        Err(e) => {
            return Err(e);
        },
    };
    let publics = match decode_multiple_prove_publics(public_bytes.as_slice(), PUBLIC_INPUT_LEN) {
        Ok(v) => v,
        Err(e) => {
            return Err(e);
        },
    };
    proof {
        let fi = frame_inputs(payload@);
        let fp = frame_publics(payload@);
        assert(input_bytes@ == fi && public_bytes@ == fp);
        assert(views(inputs@).len() == inputs@.len());
        assert(abi_rows_read(fi, 3).map_values(|row: Seq<Seq<u8>>| decoded_input(row)).len()
            == abi_rows_read(fi, 3).len());
        assert(inputs@.len() == abi_rows_read(fi, 3).len());
        assert(publics@.len() == abi_rows_read(fp, PUBLIC_INPUT_LEN as nat).len());
        lemma_decoded_shaped(abi_rows_read(fi, 3));
    }
    if inputs.len() != publics.len() {
        return Err(ProverError::Shape);
    }
    Ok(Job { inputs, publics })
}

} // verus!
