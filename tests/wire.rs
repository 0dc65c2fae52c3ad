use ethabi::ethereum_types::U256;
use ethabi::Token;
use prover::error::ProverError;
use prover::proofs::{multiple_proofs_to_abi_bytes, settle_round, G1Point, G2Point, ProofPoints};
use prover::publics::{decode_multiple_prove_publics, FieldElement};
use prover::transcript::{decode_prove_inputs, encode_prove_inputs, Input};

fn turns(t: &[[u8; 3]]) -> Vec<Vec<u8>> {
    t.iter().map(|x| x.to_vec()).collect()
}

fn zero_input() -> Input {
    Input {
        operations: turns(&[[0, 0, 0]; 16]),
        pieces: vec![0; 16],
        nonce: "1".to_string(),
    }
}

fn mixed_input() -> Input {
    Input {
        operations: turns(&[
            [1, 2, 3], [0, 0, 0], [1, 1, 1], [2, 2, 2], [3, 3, 3], [1, 2, 3], [2, 2, 2], [3, 3, 3],
            [0, 0, 0], [0, 0, 0], [0, 0, 3], [2, 0, 0], [2, 1, 0], [1, 2, 0], [1, 2, 0], [1, 2, 0],
        ]),
        pieces: vec![1, 2, 3, 4, 5, 6, 7, 8, 9, 10, 50, 51, 52, 53, 54, 0],
        nonce: "123456789987654321".to_string(),
    }
}

fn round_trip(inputs: &[Input]) -> Vec<Input> {
    let hex = encode_prove_inputs(inputs).unwrap();
    let bytes = hex::decode(hex.trim_start_matches("0x")).unwrap();
    decode_prove_inputs(&bytes).unwrap()
}

fn word(v: u128) -> [u8; 32] {
    let mut w = [0u8; 32];
    w[16..].copy_from_slice(&v.to_be_bytes());
    w
}

#[test]
fn test_serialize() {
    let input = zero_input();
    let inputs = vec![input.clone(), input];
    let hex = encode_prove_inputs(&inputs).unwrap();
    println!("input:{}", hex);
    let inputs_bytes = hex::decode(hex.trim_start_matches("0x")).unwrap();
    let decode = decode_prove_inputs(&inputs_bytes).unwrap();
    assert_eq!(decode, inputs);

    let input = mixed_input();
    let inputs = vec![input.clone(), input];
    assert_eq!(round_trip(&inputs), inputs);
}

#[test]
fn encoded_batch_has_abi_layout() {
    let hex = encode_prove_inputs(&[zero_input()]).unwrap();
    assert!(hex.starts_with("0x"));
    let bytes = hex::decode(&hex[2..]).unwrap();
    assert_eq!(bytes.len(), 64 + 96);
    assert_eq!(&bytes[0..32], &word(32));
    assert_eq!(&bytes[32..64], &word(1));
    assert_eq!(&bytes[64..128], &[0u8; 64][..]);
    assert_eq!(&bytes[128..160], &word(1));
    let mixed = hex::decode(&encode_prove_inputs(&[mixed_input()]).unwrap()[2..]).unwrap();
    assert_eq!(&mixed[128..160], &word(123456789987654321));
    let pieces = 1u128 + 2 * 64 + 3 * 64u128.pow(2);
    assert_eq!(&mixed[96 + 16 + 14..128], &pieces.to_be_bytes()[14..]);
}

#[test]
fn encode_empty_batch() {
    let hex = encode_prove_inputs(&[]).unwrap();
    let bytes = hex::decode(&hex[2..]).unwrap();
    assert_eq!(bytes.len(), 64);
    assert_eq!(decode_prove_inputs(&bytes).unwrap(), vec![]);
}

#[test]
fn nonce_round_trips_large_and_zero() {
    let mut a = zero_input();
    a.nonce = "115792089237316195423570985008687907853269984665640564039457584007913129639935".to_string();
    let mut b = zero_input();
    b.nonce = "0".to_string();
    let inputs = vec![a, b];
    assert_eq!(round_trip(&inputs), inputs);
}

#[test]
fn shape_error_on_wrong_operation_count() {
    let mut input = zero_input();
    input.operations.pop();
    assert_eq!(encode_prove_inputs(&[zero_input(), input]), Err(ProverError::Shape));
}

#[test]
fn shape_error_on_wrong_piece_count() {
    let mut input = zero_input();
    input.pieces.push(0);
    assert_eq!(encode_prove_inputs(&[input]), Err(ProverError::Shape));
}

#[test]
fn shape_checked_before_anything_else() {
    let mut bad_nonce = zero_input();
    bad_nonce.nonce = "x".to_string();
    let mut bad_shape = zero_input();
    bad_shape.pieces.clear();
    assert_eq!(encode_prove_inputs(&[bad_nonce, bad_shape]), Err(ProverError::Shape));
}

#[test]
fn regrouped_operations_keep_their_count() {
    let mut input = zero_input();
    input.operations = vec![vec![1; 6]; 8];
    let out = round_trip(&[input]);
    assert_eq!(out[0].operations, turns(&[[1, 1, 1]; 16]));
}

#[test]
fn symbol_range_errors() {
    let mut input = zero_input();
    input.operations[3][1] = 4;
    assert_eq!(encode_prove_inputs(&[input]), Err(ProverError::SymbolRange));
    let mut input = zero_input();
    input.pieces[15] = 64;
    assert_eq!(encode_prove_inputs(&[input]), Err(ProverError::SymbolRange));
}

#[test]
fn nonce_errors() {
    let mut input = zero_input();
    input.nonce = "12a".to_string();
    assert_eq!(encode_prove_inputs(&[input]), Err(ProverError::Nonce));
    let mut input = zero_input();
    input.nonce = "115792089237316195423570985008687907853269984665640564039457584007913129639936".to_string();
    assert_eq!(encode_prove_inputs(&[input]), Err(ProverError::Nonce));
}

#[test]
fn decode_reference_payload() {
    let input_bytes = hex::decode("00000000000000000000000000000000000000000000000000000000000000200000000000000000000000000000000000000000000000000000000000000002000000000000000000000000000000000000000000000000000000000000000000000000000000000000000000000000000000000000000000000000000000000000000000000000000000000000000000000000000000000000000000000001000000000000000000000000000000000000000000000000000000000000000000000000000000000000000000000000000000000000000000000000000000000000000000000000000000000000000000000000000000000000000000000001").unwrap();
    let inputs = decode_prove_inputs(&input_bytes).unwrap();
    assert_eq!(inputs, vec![zero_input(), zero_input()]);
}

#[test]
fn decode_errors() {
    assert_eq!(decode_prove_inputs(&[]), Err(ProverError::Decode));
    let mut bytes = hex::decode(&encode_prove_inputs(&[zero_input()]).unwrap()[2..]).unwrap();
    bytes.truncate(150);
    assert_eq!(decode_prove_inputs(&bytes), Err(ProverError::Decode));
    let mut bytes = hex::decode(&encode_prove_inputs(&[zero_input()]).unwrap()[2..]).unwrap();
    bytes[64 + 19] = 1;
    assert_eq!(decode_prove_inputs(&bytes), Err(ProverError::Decode));
}

fn publics_bytes(rows: &[[U256; 2]]) -> Vec<u8> {
    let tokens = rows.iter().map(|r| Token::FixedArray(r.iter().map(|u| Token::Uint(*u)).collect())).collect();
    ethabi::encode(&[Token::Array(tokens)])
}

#[test]
fn public_inputs_decode_to_field_elements() {
    let big = U256::from_dec_str("1092739377885103454644040430160177557655257088").unwrap();
    let bytes = publics_bytes(&[[U256::one(), big], [U256::one(), big]]);
    let publics = decode_multiple_prove_publics(&bytes, 2).unwrap();
    assert_eq!(publics.len(), 2);
    let big_word: [u8; 32] = big.into();
    for p in &publics {
        assert_eq!(p.len(), 2);
        assert_eq!(p[0].to_be_bytes(), word(1));
        assert_eq!(p[1].to_be_bytes(), big_word);
    }
}

#[test]
fn public_input_at_field_order_is_zero() {
    let order = U256::from_dec_str(
        "21888242871839275222246405745257275088548364400416034343698204186575808495617",
    )
    .unwrap();
    let bytes = publics_bytes(&[[order, order + U256::from(5)]]);
    let publics = decode_multiple_prove_publics(&bytes, 2).unwrap();
    assert_eq!(publics[0][0].to_be_bytes(), [0u8; 32]);
    assert_eq!(publics[0][1].to_be_bytes(), word(5));
    let max: [u8; 32] = [0xff; 32];
    let reduced = FieldElement::from_be_word_mod_order(&max).to_be_bytes();
    let expected: [u8; 32] = (U256::MAX % order).into();
    assert_eq!(reduced, expected);
}

#[test]
fn public_inputs_decode_error() {
    assert_eq!(decode_multiple_prove_publics(&[0u8; 10], 2), Err(ProverError::Decode));
    let mut bytes = publics_bytes(&[[U256::one(), U256::one()]]);
    bytes.pop();
    assert_eq!(decode_multiple_prove_publics(&bytes, 2), Err(ProverError::Decode));
}

fn sample_proof(base: u8) -> ProofPoints {
    let w = |k: u8| [base + k; 32];
    ProofPoints {
        a: G1Point { x: w(0), y: w(1) },
        b: G2Point { x_c0: w(2), x_c1: w(3), y_c0: w(4), y_c1: w(5) },
        c: G1Point { x: w(6), y: w(7) },
    }
}

#[test]
fn proofs_encode_with_swapped_g2_parts() {
    let bytes = multiple_proofs_to_abi_bytes(&[sample_proof(0), sample_proof(10)]);
    assert_eq!(bytes.len(), 64 + 2 * 256);
    assert_eq!(&bytes[0..32], &word(32));
    assert_eq!(&bytes[32..64], &word(2));
    let order = [0u8, 1, 3, 2, 5, 4, 6, 7];
    for (p, base) in [0u8, 10].iter().enumerate() {
        for (k, part) in order.iter().enumerate() {
            let at = 64 + p * 256 + k * 32;
            assert_eq!(&bytes[at..at + 32], &[base + part; 32]);
        }
    }
    assert_eq!(multiple_proofs_to_abi_bytes(&[]).len(), 64);
}

#[test]
fn settle_round_outcomes() {
    let p = sample_proof(1);
    assert_eq!(settle_round(Some(p), true), Ok(p));
    assert_eq!(settle_round(Some(p), false), Err(ProverError::VerificationMismatch));
    assert_eq!(settle_round(None, true), Err(ProverError::Proving));
}
