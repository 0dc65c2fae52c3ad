//! One round's transcript and the wire form of a batch of them: per round the
//! triple (packed operations, packed pieces, nonce) of 256-bit words.
use crate::abi::{
    abi_decode_rows, abi_encode_rows, abi_rows_accepts, abi_rows_layout, abi_rows_read, be_bytes,
    hex_encode, hex_string, lemma_abi_rows_round_trip, lemma_be_bytes_of_value,
    lemma_be_bytes_len, lemma_be_bytes_value, rows_payload, rows_shaped, rows_width, words_view,
};
use crate::decimal::{
    all_digits, dec_string, dec_value, decimal_of_word, is_canonical_decimal,
    lemma_decimal_round_trip, parse_decimal_word,
};
use crate::error::ProverError;
use crate::symbol::{
    lemma_pack_unpack_round_trip, lemma_unpack_seq_below, pack, pack_value, symbols_below, unpack, unpack_seq, zeros,
    RadixProfile,
};
use crate::word::{be_value, fits_low_bytes, word_bound, Word};
use vstd::arithmetic::power::*;
use vstd::prelude::*;
use vstd::string::*;

verus! {

/// Turns of moves in one round's transcript.
pub const ROUND_LEN: usize = 16;

/// Symbols per turn.
pub const TURN_LEN: usize = 3;

/// Move symbols in one transcript.
pub const OPERATION_LEN: usize = ROUND_LEN * TURN_LEN;

/// Pieces on the board.
pub const NUM_PIECES: usize = 16;

/// Most transcripts in one batch, so that every offset of the wire form fits
/// 32 bits.
pub const MAX_BATCH: usize = 0x10_0000;

/// One round's claims: the moves of each turn (symbols below 4), the position
/// of each piece (symbols below 64), and the round's nonce in decimal.
#[derive(Debug, Clone, PartialEq)]
pub struct Input {
    pub operations: Vec<Vec<u8>>,
    pub pieces: Vec<u8>,
    pub nonce: String,
}

/// What an `Input` holds.
pub struct InputView {
    pub operations: Seq<Seq<u8>>,
    pub pieces: Seq<u8>,
    pub nonce: Seq<char>,
}

impl View for Input {
    type V = InputView;

    open spec fn view(&self) -> InputView {
        InputView {
            operations: self.operations@.map_values(|t: Vec<u8>| t@),
            pieces: self.pieces@,
            nonce: self.nonce@,
        }
    }
}

pub open spec fn views(s: Seq<Input>) -> Seq<InputView> {
    s.map_values(|i: Input| i@)
}

/// The symbol counts are the fixed ones.
pub open spec fn input_shaped(i: InputView) -> bool {
    &&& i.operations.flatten().len() == OPERATION_LEN
    &&& i.pieces.len() == NUM_PIECES
}

/// Every symbol fits its radix.
pub open spec fn input_in_range(i: InputView) -> bool {
    &&& symbols_below(i.operations.flatten(), 4)
    &&& symbols_below(i.pieces, 64)
}

/// The nonce is a decimal number below 2^256.
pub open spec fn nonce_parses(i: InputView) -> bool {
    all_digits(i.nonce) && dec_value(i.nonce) < word_bound()
}

pub open spec fn all_shaped(s: Seq<InputView>) -> bool {
    forall|k: int| 0 <= k < s.len() ==> input_shaped(#[trigger] s[k])
}

pub open spec fn all_in_range(s: Seq<InputView>) -> bool {
    forall|k: int| 0 <= k < s.len() ==> input_in_range(#[trigger] s[k])
}

pub open spec fn all_nonces_parse(s: Seq<InputView>) -> bool {
    forall|k: int| 0 <= k < s.len() ==> nonce_parses(#[trigger] s[k])
}

/// The wire triple of one transcript.
pub open spec fn encoded_row(i: InputView) -> Seq<Seq<u8>> {
    seq![
        be_bytes(pack_value(i.operations.flatten(), 4), 32),
        be_bytes(pack_value(i.pieces, 64), 32),
        be_bytes(dec_value(i.nonce), 32),
    ]
}

/// The wire bytes of a batch of transcripts.
pub open spec fn encoded_batch(s: Seq<InputView>) -> Seq<u8> {
    abi_rows_layout(s.map_values(|i: InputView| encoded_row(i)), 3)
}

/// `2^96`: the packed operations (48 symbols of 2 bits) and pieces (16 of 6
/// bits) lie below it.
pub open spec fn packed_limit() -> nat {
    pow(256, 12) as nat
}

/// The groups of three consecutive symbols.
pub open spec fn group_triples(s: Seq<u8>) -> Seq<Seq<u8>> {
    Seq::new(s.len() / 3, |g: int| s.subrange(3 * g, 3 * g + 3))
}

/// Both packed words of every triple hold no more symbols than a transcript.
pub open spec fn rows_decodable(rows: Seq<Seq<Seq<u8>>>) -> bool {
    forall|k: int|
        0 <= k < rows.len() ==> be_value(#[trigger] rows[k][0]) < packed_limit() && be_value(
            rows[k][1],
        ) < packed_limit()
}

/// The transcript that a wire triple stands for.
pub open spec fn decoded_input(row: Seq<Seq<u8>>) -> InputView {
    InputView {
        operations: group_triples(unpack_seq(be_value(row[0]), 4, OPERATION_LEN as nat)),
        pieces: unpack_seq(be_value(row[1]), 64, NUM_PIECES as nat),
        nonce: dec_string(be_value(row[2])),
    }
}

proof fn lemma_packed_limit()
    ensures
        packed_limit() == pow(4, 48),
        packed_limit() == pow(64, 16),
        packed_limit() <= word_bound(),
{
    assert(pow(2, 8) == 256 && pow(2, 2) == 4 && pow(2, 6) == 64) by {
        reveal_with_fuel(pow, 9);
    }
    lemma_pow_multiplies(2, 8, 12);
    lemma_pow_multiplies(2, 2, 48);
    lemma_pow_multiplies(2, 6, 16);
    assert(pow(256, 12) == pow(2, 96));
    assert(pow(4, 48) == pow(2, 96));
    assert(pow(64, 16) == pow(2, 96));
    lemma_pow_positive(256, 12);
    lemma_pow_increases(256, 12, 32);
}

/// All move symbols, turn after turn.
pub fn flatten_operations(ops: &Vec<Vec<u8>>) -> (r: Vec<u8>)
    ensures
        r@ == ops@.map_values(|t: Vec<u8>| t@).flatten(),
{
    let ghost v = ops@.map_values(|t: Vec<u8>| t@);
    let mut r: Vec<u8> = Vec::new();
    let mut g: usize = 0;
    proof {
        assert(v.subrange(0, 0) =~= Seq::<Seq<u8>>::empty());
    }
    while g < ops.len()
        invariant
            v == ops@.map_values(|t: Vec<u8>| t@),
            g <= ops.len(),
            r@ == v.subrange(0, g as int).flatten(),
        decreases ops.len() - g,
    {
        let turn = &ops[g];
        let ghost start = r@;
        let mut k: usize = 0;
        while k < turn.len()
            invariant
                k <= turn.len(),
                r@ == start + turn@.subrange(0, k as int),
            decreases turn.len() - k,
        {
            r.push(turn[k]);
            proof {
                assert(start + turn@.subrange(0, k + 1) =~= (start + turn@.subrange(0, k as int)).push(turn@[k as int]));
            }
            k = k + 1;
        }
        proof {
            assert(turn@.subrange(0, turn.len() as int) =~= turn@);
            assert(v.subrange(0, g + 1) =~= v.subrange(0, g as int).push(v[g as int]));
            v.subrange(0, g as int).lemma_flatten_push(v[g as int]);
        }
        g = g + 1;
    }
    proof {
        assert(v.subrange(0, ops.len() as int) =~= v);
    }
    r
}

fn input_symbols_in_range(flat: &Vec<u8>, pieces: &Vec<u8>) -> (r: bool)
    ensures
        r == (symbols_below(flat@, 4) && symbols_below(pieces@, 64)),
{
    let mut k: usize = 0;
    while k < flat.len()
        invariant
            k <= flat.len(),
            symbols_below(flat@.subrange(0, k as int), 4),
        decreases flat.len() - k,
    {
        if flat[k] >= 4 {
            return false;
        }
        proof {
            assert forall|i: int| 0 <= i < k + 1 implies (#[trigger] flat@.subrange(0, k + 1)[i] as nat) < 4 by {
                if i < k {
                    assert(flat@.subrange(0, k + 1)[i] == flat@.subrange(0, k as int)[i]);
                }
            }
        }
        k = k + 1;
    }
    assert(flat@.subrange(0, flat.len() as int) =~= flat@);
    let mut k: usize = 0;
    while k < pieces.len()
        invariant
            k <= pieces.len(),
            symbols_below(flat@, 4),
            symbols_below(pieces@.subrange(0, k as int), 64),
        decreases pieces.len() - k,
    {
        if pieces[k] >= 64 {
            return false;
        }
        proof {
            assert forall|i: int| 0 <= i < k + 1 implies (#[trigger] pieces@.subrange(0, k + 1)[i] as nat) < 64 by {
                if i < k {
                    assert(pieces@.subrange(0, k + 1)[i] == pieces@.subrange(0, k as int)[i]);
                }
            }
        }
        k = k + 1;
    }
    assert(pieces@.subrange(0, pieces.len() as int) =~= pieces@);
    true
}

/// The moves regrouped into turns of three symbols.
pub fn group_turns(u: &Vec<u8>) -> (r: Vec<Vec<u8>>)
    requires
        u@.len() == OPERATION_LEN,
    ensures
        r@.map_values(|t: Vec<u8>| t@) == group_triples(u@),
{
    let mut r: Vec<Vec<u8>> = Vec::new();
    let mut g: usize = 0;
    proof {
        assert(r@.map_values(|t: Vec<u8>| t@) =~= group_triples(u@).subrange(0, 0));
    }
    while g < ROUND_LEN
        invariant
            u@.len() == OPERATION_LEN,
            g <= ROUND_LEN,
            r@.map_values(|t: Vec<u8>| t@) == group_triples(u@).subrange(0, g as int),
        decreases ROUND_LEN - g,
    {
        let mut t: Vec<u8> = Vec::new();
        t.push(u[3 * g]);
        t.push(u[3 * g + 1]);
        t.push(u[3 * g + 2]);
        let ghost before = r@;
        r.push(t);
        proof {
            assert(t@ =~= u@.subrange(3 * g, 3 * g + 3));
            assert(r@.map_values(|t: Vec<u8>| t@) =~= before.map_values(|t: Vec<u8>| t@).push(t@));
            assert(group_triples(u@).subrange(0, g + 1) =~= group_triples(u@).subrange(0, g as int).push(
                group_triples(u@)[g as int],
            ));
        }
        g = g + 1;
    }
    proof {
        assert(group_triples(u@).subrange(0, ROUND_LEN as int) =~= group_triples(u@));
    }
    r
}

/// Packs a batch of transcripts into its wire form, as `0x` and lowercase hex.
/// Fails with `Shape` when some transcript's symbol counts are not the fixed
/// ones, before anything is packed; else with `SymbolRange` when some symbol
/// does not fit its radix; else with `Nonce` when some nonce is not a decimal
/// number below 2^256.
pub fn encode_prove_inputs(inputs: &[Input]) -> (r: Result<String, ProverError>)
    requires
        inputs@.len() <= MAX_BATCH,
    ensures
        !all_shaped(views(inputs@)) <==> r == Err::<String, ProverError>(ProverError::Shape),
        all_shaped(views(inputs@)) && !all_in_range(views(inputs@)) <==> r == Err::<
            String,
            ProverError,
        >(ProverError::SymbolRange),
        all_shaped(views(inputs@)) && all_in_range(views(inputs@)) && !all_nonces_parse(
            views(inputs@),
        ) <==> r == Err::<String, ProverError>(ProverError::Nonce),
        all_shaped(views(inputs@)) && all_in_range(views(inputs@)) && all_nonces_parse(
            views(inputs@),
        ) ==> (r matches Ok(h) && h@ == "0x"@ + hex_string(encoded_batch(views(inputs@)))),
{
    let ghost v = views(inputs@);
    let n = inputs.len();
    let mut flats: Vec<Vec<u8>> = Vec::new();
    let mut i: usize = 0;
    while i < n
        invariant
            n == inputs@.len(),
            v == views(inputs@),
            i <= n,
            flats@.len() == i,
            forall|k: int| 0 <= k < i ==> #[trigger] flats@[k]@ == v[k].operations.flatten(),
            forall|k: int| 0 <= k < i ==> input_shaped(#[trigger] v[k]),
        decreases n - i,
    {
        let flat = flatten_operations(&inputs[i].operations);
        proof {
            assert(v[i as int] == inputs@[i as int]@);
        }
        if flat.len() != OPERATION_LEN || inputs[i].pieces.len() != NUM_PIECES {
            return Err(ProverError::Shape);
        }
        flats.push(flat);
        i = i + 1;
    }
    let mut i: usize = 0;
    while i < n
        invariant
            n == inputs@.len(),
            v == views(inputs@),
            i <= n,
            flats@.len() == n,
            all_shaped(v),
            forall|k: int| 0 <= k < n ==> #[trigger] flats@[k]@ == v[k].operations.flatten(),
            forall|k: int| 0 <= k < i ==> input_in_range(#[trigger] v[k]),
        decreases n - i,
    {
        proof {
            assert(v[i as int] == inputs@[i as int]@);
        }
        if !input_symbols_in_range(&flats[i], &inputs[i].pieces) {
            return Err(ProverError::SymbolRange);
        }
        i = i + 1;
    }
    let ops_profile = RadixProfile::operations();
    let pieces_profile = RadixProfile::pieces();
    let mut rows: Vec<Vec<Word>> = Vec::new();
    let mut i: usize = 0;
    proof {
        assert(words_view(&rows) =~= v.subrange(0, 0).map_values(|x: InputView| encoded_row(x)));
    }
    while i < n
        invariant
            n == inputs@.len(),
            n <= MAX_BATCH,
            v == views(inputs@),
            i <= n,
            flats@.len() == n,
            all_shaped(v),
            all_in_range(v),
            ops_profile.bit == 2 && ops_profile.wf() && ops_profile.radix_spec() == 4,
            pieces_profile.bit == 6 && pieces_profile.wf() && pieces_profile.radix_spec() == 64,
            forall|k: int| 0 <= k < n ==> #[trigger] flats@[k]@ == v[k].operations.flatten(),
            forall|k: int| 0 <= k < i ==> nonce_parses(#[trigger] v[k]),
            words_view(&rows) == v.subrange(0, i as int).map_values(|x: InputView| encoded_row(x)),
        decreases n - i,
    {
        let ghost x = v[i as int];
        proof {
            assert(x == inputs@[i as int]@);
            assert(input_shaped(x) && input_in_range(x));
        }
        let nonce = match parse_decimal_word(inputs[i].nonce.as_str()) {
            Some(w) => w,
            None => {
                return Err(ProverError::Nonce);
            },
        };
        let packed_ops = pack(flats[i].as_slice(), &ops_profile);
        let packed_pieces = pack(inputs[i].pieces.as_slice(), &pieces_profile);
        let mut row: Vec<Word> = Vec::new();
        row.push(packed_ops);
        row.push(packed_pieces);
        row.push(nonce);
        let ghost before = rows@;
        rows.push(row);
        proof {
            lemma_be_bytes_of_value(packed_ops@);
            lemma_be_bytes_of_value(packed_pieces@);
            lemma_be_bytes_of_value(nonce@);
            assert(row@.map_values(|w: Word| w@) =~= encoded_row(x));
            assert(v.subrange(0, i + 1) =~= v.subrange(0, i as int).push(x));
            assert(rows@ == before.push(row));
            assert(words_view(&rows) =~= before.map_values(|r: Vec<Word>| r@.map_values(|w: Word| w@)).push(
                row@.map_values(|w: Word| w@),
            ));
            assert(words_view(&rows) =~= v.subrange(0, i + 1).map_values(
                |x: InputView| encoded_row(x),
            ));
        }
        i = i + 1;
    }
    proof {
        assert(v.subrange(0, n as int) =~= v);
        let wv = words_view(&rows);
        assert(wv.len() == n);
        if n > 0 {
            assert(rows_width(wv) == 3);
        }
        assert forall|k: int| 0 <= k < wv.len() implies #[trigger] wv[k].len() == 3 && wv[k][0].len()
            == 32 && wv[k][1].len() == 32 && wv[k][2].len() == 32 by {
            assert(wv[k] == encoded_row(v[k]));
            lemma_be_bytes_len(pack_value(v[k].operations.flatten(), 4), 32);
            lemma_be_bytes_len(pack_value(v[k].pieces, 64), 32);
            lemma_be_bytes_len(dec_value(v[k].nonce), 32);
        }
        assert forall|k: int, j: int| 0 <= k < wv.len() && 0 <= j < rows_width(wv) implies #[trigger] wv[k][j].len() == 32 by {
            assert(wv[k].len() == 3);
            assert(j == 0 || j == 1 || j == 2);
        }
        assert(rows_shaped(wv, rows_width(wv)));
        lemma_be_bytes_len(32, 32);
        lemma_be_bytes_len(n as nat, 32);
        if n == 0 {
            assert(wv.len() == 0);
            assert(rows_width(wv) == 0);
            let len = wv.len();
            assert(len * (3 * 32) == 0 && len * (0 * 32) == 0) by (nonlinear_arith)
                requires
                    len == 0,
            ;
            assert(rows_payload(wv, rows_width(wv)) =~= rows_payload(wv, 3));
        }
        assert(abi_rows_layout(wv, rows_width(wv)).len() == 64 + n * (rows_width(wv) * 32));
        let w32 = rows_width(wv) * 32;
        assert(w32 <= 96);
        assert(n * w32 <= n * 96) by (nonlinear_arith)
            requires
                w32 <= 96,
        ;
        assert(64 + n * w32 <= 0xffff_ffff);
    }
    let bytes = abi_encode_rows(&rows);
    let h = hex_encode(&bytes);
    let mut out = String::from_str("0x");
    out.append(h.as_str());
    proof {
        reveal_strlit("0x");
    }
    Ok(out)
}

/// The transcripts that decoded wire triples stand for. Fails with `Decode`
/// exactly when some packed word holds more symbols than a transcript has.
pub fn inputs_from_rows(rows: &Vec<Vec<Word>>) -> (r: Result<Vec<Input>, ProverError>)
    requires
        rows_shaped(words_view(rows), 3),
    ensures
        r is Ok <==> rows_decodable(words_view(rows)),
        r matches Ok(v) ==> views(v@) == words_view(rows).map_values(
            |row: Seq<Seq<u8>>| decoded_input(row),
        ),
        r matches Err(e) ==> e == ProverError::Decode,
{
    let ghost wv = words_view(rows);
    let ops_profile = RadixProfile::operations();
    let pieces_profile = RadixProfile::pieces();
    let mut out: Vec<Input> = Vec::new();
    let mut i: usize = 0;
    proof {
        lemma_packed_limit();
        assert(views(out@) =~= wv.subrange(0, 0).map_values(|row: Seq<Seq<u8>>| decoded_input(row)));
    }
    while i < rows.len()
        invariant
            wv == words_view(rows),
            rows_shaped(wv, 3),
            i <= rows.len(),
            packed_limit() == pow(4, 48) && packed_limit() == pow(64, 16),
            ops_profile.bit == 2 && ops_profile.wf() && ops_profile.radix_spec() == 4,
            pieces_profile.bit == 6 && pieces_profile.wf() && pieces_profile.radix_spec() == 64,
            forall|k: int| 0 <= k < i ==> be_value(#[trigger] wv[k][0]) < packed_limit() && be_value(wv[k][1]) < packed_limit(),
            views(out@) == wv.subrange(0, i as int).map_values(|row: Seq<Seq<u8>>| decoded_input(row)),
        decreases rows.len() - i,
    {
        let row = &rows[i];
        proof {
            assert(wv[i as int] == row@.map_values(|w: Word| w@));
            assert(wv[i as int].len() == 3);
            assert(row@.len() == 3);
            assert(wv[i as int][0] == row@[0]@);
            assert(wv[i as int][1] == row@[1]@);
            assert(wv[i as int][2] == row@[2]@);
        }
        let ops_fit = fits_low_bytes(&row[0], 12);
        let pieces_fit = fits_low_bytes(&row[1], 12);
        if !ops_fit || !pieces_fit {
            proof {
                lemma_pow_positive(256, 12);
                assert(ops_fit == (be_value(wv[i as int][0]) < packed_limit()));
                assert(pieces_fit == (be_value(wv[i as int][1]) < packed_limit()));
                assert(!rows_decodable(wv));
            }
            return Err(ProverError::Decode);
        }
        let flat = unpack(&row[0], &ops_profile, OPERATION_LEN);
        let operations = group_turns(&flat);
        let pieces = unpack(&row[1], &pieces_profile, NUM_PIECES);
        let nonce = decimal_of_word(&row[2]);
        let input = Input { operations, pieces, nonce };
        let ghost before = out@;
        out.push(input);
        proof {
            assert(input@ == decoded_input(wv[i as int]));
            assert(wv.subrange(0, i + 1) =~= wv.subrange(0, i as int).push(wv[i as int]));
            assert(views(out@) =~= views(before).push(input@));
            assert(views(out@) =~= wv.subrange(0, i + 1).map_values(|row: Seq<Seq<u8>>| decoded_input(row)));
        }
        i = i + 1;
    }
    proof {
        assert(wv.subrange(0, rows.len() as int) =~= wv);
    }
    Ok(out)
}

/// Reads a batch of transcripts from its wire bytes. Fails with `Decode`
/// exactly when the bytes are not an array of triples of words, or when some
/// packed word holds more symbols than a transcript has.
pub fn decode_prove_inputs(bytes: &[u8]) -> (r: Result<Vec<Input>, ProverError>)
    ensures
        r is Ok <==> abi_rows_accepts(bytes@, 3) && rows_decodable(abi_rows_read(bytes@, 3)),
        r matches Ok(v) ==> views(v@) == abi_rows_read(bytes@, 3).map_values(
            |row: Seq<Seq<u8>>| decoded_input(row),
        ),
        r matches Err(e) ==> e == ProverError::Decode,
{
    match abi_decode_rows(bytes, TURN_LEN) {
        Some(rows) => {
            proof {
                let wv = words_view(&rows);
                assert forall|i: int, j: int| 0 <= i < wv.len() && 0 <= j < 3 implies #[trigger] wv[i][j].len() == 32 by {
                    assert(wv[i] == rows@[i]@.map_values(|w: Word| w@));
                    assert(wv[i].len() == rows@[i]@.len());
                    assert(wv[i][j] == rows@[i]@[j]@);
                }
            }
            inputs_from_rows(&rows)
        },
        None => Err(ProverError::Decode),
    }
}

/// One round's transcript as the data model has it: `ROUND_LEN` turns of
/// `TURN_LEN` move symbols below 4, `NUM_PIECES` piece symbols below 64, and
/// a nonce written as the decimal form of a number below 2^256.
pub open spec fn well_formed(i: InputView) -> bool {
    &&& i.operations.len() == ROUND_LEN
    &&& forall|g: int| 0 <= g < i.operations.len() ==> (#[trigger] i.operations[g]).len() == TURN_LEN
    &&& input_in_range(i)
    &&& i.pieces.len() == NUM_PIECES
    &&& is_canonical_decimal(i.nonce)
    &&& dec_value(i.nonce) < word_bound()
}

proof fn lemma_group_triples_flatten(ops: Seq<Seq<u8>>)
    requires
        forall|g: int| 0 <= g < ops.len() ==> (#[trigger] ops[g]).len() == 3,
    ensures
        ops.flatten().len() == 3 * ops.len(),
        group_triples(ops.flatten()) == ops,
    decreases ops.len(),
{
    if ops.len() == 0 {
        assert(group_triples(ops.flatten()) =~= ops);
    } else {
        let d = ops.drop_last();
        lemma_group_triples_flatten(d);
        assert(ops =~= d.push(ops.last()));
        d.lemma_flatten_push(ops.last());
        let f = ops.flatten();
        assert(f == d.flatten() + ops.last());
        assert(f.len() == 3 * ops.len());
        assert(f.len() / 3 == ops.len());
        assert forall|g: int| 0 <= g < ops.len() implies #[trigger] f.subrange(3 * g, 3 * g + 3)
            == ops[g] by {
            if g < d.len() {
                assert(f.subrange(3 * g, 3 * g + 3) =~= d.flatten().subrange(3 * g, 3 * g + 3));
                assert(group_triples(d.flatten())[g] == d[g]);
            } else {
                assert(f.subrange(3 * g, 3 * g + 3) =~= ops.last());
            }
        }
        assert(group_triples(f) =~= ops);
    }
}

/// Encoding a batch of well-formed transcripts and decoding the bytes gives
/// the batch back, field for field, the nonce as the same decimal string.
/// Such a batch passes every check of `encode_prove_inputs`.
pub proof fn lemma_transcript_wire_round_trip(s: Seq<InputView>)
    requires
        s.len() <= MAX_BATCH,
        forall|k: int| 0 <= k < s.len() ==> well_formed(#[trigger] s[k]),
    ensures
        all_shaped(s),
        all_in_range(s),
        all_nonces_parse(s),
        abi_rows_accepts(encoded_batch(s), 3),
        rows_decodable(abi_rows_read(encoded_batch(s), 3)),
        abi_rows_read(encoded_batch(s), 3).map_values(|row: Seq<Seq<u8>>| decoded_input(row))
            == s,
{
    let rows = s.map_values(|i: InputView| encoded_row(i));
    let ops_profile = RadixProfile { bit: 2 };
    let pieces_profile = RadixProfile { bit: 6 };
    assert(ops_profile.radix_spec() == 4 && pieces_profile.radix_spec() == 64) by {
        reveal_with_fuel(pow, 7);
    }
    lemma_packed_limit();
    lemma_pow_positive(256, 32);
    assert forall|k: int| 0 <= k < s.len() implies #[trigger] rows[k] == encoded_row(s[k])
        && input_shaped(s[k]) && nonce_parses(s[k]) && rows[k].len() == 3 && rows[k][0].len()
        == 32 && rows[k][1].len() == 32 && rows[k][2].len() == 32 && decoded_input(rows[k])
        == s[k] && be_value(rows[k][0]) < packed_limit() && be_value(rows[k][1])
        < packed_limit() by {
        let x = s[k];
        assert(well_formed(x));
        let flat = x.operations.flatten();
        lemma_group_triples_flatten(x.operations);
        lemma_pack_unpack_round_trip(flat, ops_profile, 48);
        lemma_pack_unpack_round_trip(x.pieces, pieces_profile, 16);
        assert(flat + zeros(0) =~= flat);
        assert(x.pieces + zeros(0) =~= x.pieces);
        lemma_be_bytes_value(pack_value(flat, 4), 32);
        lemma_be_bytes_value(pack_value(x.pieces, 64), 32);
        lemma_be_bytes_value(dec_value(x.nonce), 32);
        lemma_decimal_round_trip(x.nonce);
        assert(decoded_input(rows[k]) == x);
    }
    assert forall|k: int, j: int| 0 <= k < rows.len() && 0 <= j < 3 implies #[trigger] rows[k][j].len() == 32 by {
        assert(rows[k] == encoded_row(s[k]));
        assert(j == 0 || j == 1 || j == 2);
    }
    assert(rows_shaped(rows, 3));
    lemma_abi_rows_round_trip(rows, 3);
    assert(abi_rows_read(encoded_batch(s), 3).map_values(|row: Seq<Seq<u8>>| decoded_input(row)) =~= s);
}

proof fn lemma_flatten_group_triples(s: Seq<u8>)
    requires
        s.len() % 3 == 0,
    ensures
        group_triples(s).flatten() == s,
    decreases s.len(),
{
    if s.len() == 0 {
        assert(group_triples(s) =~= Seq::<Seq<u8>>::empty());
        assert(s =~= Seq::<u8>::empty());
    } else {
        let n = s.len() as int;
        let t = s.subrange(0, n - 3);
        lemma_flatten_group_triples(t);
        assert(s.len() / 3 == t.len() / 3 + 1);
        assert(t.len() / 3 * 3 == n - 3);
        assert forall|g: int| 0 <= g < t.len() / 3 implies #[trigger] group_triples(s)[g] == group_triples(t)[g] by {
            assert(3 * g + 3 <= n - 3);
            assert(s.subrange(3 * g, 3 * g + 3) =~= t.subrange(3 * g, 3 * g + 3));
        }
        assert(group_triples(s)[(t.len() / 3) as int] == s.subrange(n - 3, n));
        assert(group_triples(s) =~= group_triples(t).push(s.subrange(n - 3, n)));
        group_triples(t).lemma_flatten_push(s.subrange(n - 3, n));
        assert(t + s.subrange(n - 3, n) =~= s);
    }
}

/// Every transcript that comes out of the decoder has the fixed symbol
/// counts, whatever the words held.
pub proof fn lemma_decoded_shaped(rows: Seq<Seq<Seq<u8>>>)
    ensures
        all_shaped(rows.map_values(|row: Seq<Seq<u8>>| decoded_input(row))),
{
    let d = rows.map_values(|row: Seq<Seq<u8>>| decoded_input(row));
    assert forall|k: int| 0 <= k < d.len() implies input_shaped(#[trigger] d[k]) by {
        let row = rows[k];
        lemma_unpack_seq_below(be_value(row[0]), 4, OPERATION_LEN as nat);
        lemma_unpack_seq_below(be_value(row[1]), 64, NUM_PIECES as nat);
        lemma_flatten_group_triples(unpack_seq(be_value(row[0]), 4, OPERATION_LEN as nat));
    }
}

} // verus!
