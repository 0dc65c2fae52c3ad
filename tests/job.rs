use ethabi::ethereum_types::U256;
use ethabi::Token;
use prover::error::ProverError;
use prover::job::{prepare_job, split_frame};
use prover::transcript::{encode_prove_inputs, Input};

fn input(nonce: &str) -> Input {
    Input {
        operations: vec![vec![1, 2, 3]; 16],
        pieces: (0..16).collect(),
        nonce: nonce.to_string(),
    }
}

fn transcripts(n: usize) -> Vec<u8> {
    let inputs: Vec<Input> = (0..n).map(|k| input(&k.to_string())).collect();
    hex::decode(&encode_prove_inputs(&inputs).unwrap()[2..]).unwrap()
}

fn publics(n: usize) -> Vec<u8> {
    let rows = (0..n)
        .map(|k| Token::FixedArray(vec![Token::Uint(U256::from(k)), Token::Uint(U256::from(7))]))
        .collect();
    ethabi::encode(&[Token::Array(rows)])
}

fn frame(a: &[u8], b: &[u8]) -> Vec<u8> {
    let mut p = (a.len() as u32).to_be_bytes().to_vec();
    p.extend_from_slice(a);
    p.extend_from_slice(b);
    p
}

#[test]
fn split_frame_parts() {
    let (a, b) = split_frame(&[0, 0, 0, 2, 9, 8, 7]).unwrap();
    assert_eq!(a, vec![9, 8]);
    assert_eq!(b, vec![7]);
    let (a, b) = split_frame(&[0, 0, 0, 0]).unwrap();
    assert!(a.is_empty() && b.is_empty());
    assert_eq!(split_frame(&[0, 0, 1]), Err(ProverError::Decode));
    assert_eq!(split_frame(&[0, 0, 1, 0, 5]), Err(ProverError::Decode));
}

#[test]
fn prepare_job_decodes_both_batches() {
    let job = prepare_job(&frame(&transcripts(3), &publics(3))).unwrap();
    assert_eq!(job.inputs.len(), 3);
    assert_eq!(job.publics.len(), 3);
    assert_eq!(job.inputs[2], input("2"));
    let mut seven = [0u8; 32];
    seven[31] = 7;
    assert_eq!(job.publics[1][1].to_be_bytes(), seven);
}

#[test]
fn prepare_job_rejects_batch_length_mismatch() {
    assert!(matches!(prepare_job(&frame(&transcripts(2), &publics(3))), Err(ProverError::Shape)));
    assert!(matches!(prepare_job(&frame(&transcripts(1), &publics(0))), Err(ProverError::Shape)));
}

#[test]
fn prepare_job_decode_errors() {
    assert!(matches!(prepare_job(&[0, 0]), Err(ProverError::Decode)));
    assert!(matches!(prepare_job(&frame(&[1, 2, 3], &publics(1))), Err(ProverError::Decode)));
    assert!(matches!(prepare_job(&frame(&transcripts(1), &[0u8; 20])), Err(ProverError::Decode)));
    assert!(matches!(prepare_job(&frame(&transcripts(1), &[0u8; 64])), Err(ProverError::Shape)));
}
