//! The contract-ABI layout shared by every batch on the wire: a dynamic array
//! of fixed-width rows of 256-bit words. Encoding and decoding go through
//! `ethabi`; the layout both sides agree on is stated here.
use crate::word::{be_value, Word};
use ethabi::ethereum_types::U256;
use ethabi::{ParamType, Token};
use vstd::arithmetic::power::*;
use vstd::prelude::*;

verus! {

/// `n mod 256^len` as `len` big-endian bytes.
pub open spec fn be_bytes(n: nat, len: nat) -> Seq<u8>
    decreases len,
{
    if len == 0 {
        Seq::empty()
    } else {
        be_bytes(n / 256, (len - 1) as nat).push((n % 256) as u8)
    }
}

pub proof fn lemma_be_bytes_len(n: nat, len: nat)
    ensures
        be_bytes(n, len).len() == len,
    decreases len,
{
    if len > 0 {
        lemma_be_bytes_len(n / 256, (len - 1) as nat);
    }
}

/// The 32-byte word at byte offset `off`.
pub open spec fn word_at(b: Seq<u8>, off: int) -> Seq<u8> {
    b.subrange(off, off + 32)
}

/// `2^32`: the words that `ethabi` reads as offsets and lengths lie below it.
pub open spec fn offset_limit() -> nat {
    0x1_0000_0000
}

/// The bytes of every word of every row.
pub open spec fn words_view(rows: &Vec<Vec<Word>>) -> Seq<Seq<Seq<u8>>> {
    rows@.map_values(|r: Vec<Word>| r@.map_values(|w: Word| w@))
}

/// Two lowercase hexadecimal digits per byte, high nibble first.
pub open spec fn hex_string(b: Seq<u8>) -> Seq<char>
    decreases b.len(),
{
    if b.len() == 0 {
        Seq::empty()
    } else {
        hex_string(b.drop_last()) + seq![hex_digit(b.last() as nat / 16), hex_digit(b.last() as nat % 16)]
    }
}

pub open spec fn hex_digit(d: nat) -> char {
    seq!['0', '1', '2', '3', '4', '5', '6', '7', '8', '9', 'a', 'b', 'c', 'd', 'e', 'f'][d as int]
}

/// A byte string is the big-endian form of its own value.
pub proof fn lemma_be_bytes_of_value(s: Seq<u8>)
    ensures
        be_bytes(be_value(s), s.len()) == s,
    decreases s.len(),
{
    if s.len() > 0 {
        let d = s.drop_last();
        lemma_be_bytes_of_value(d);
        let v = be_value(s);
        assert(v / 256 == be_value(d) && v % 256 == s.last() as nat) by (nonlinear_arith)
            requires
                v == be_value(d) * 256 + s.last() as nat,
                s.last() < 256,
        ;
        assert(be_bytes(v, s.len()) =~= d.push(s.last()));
        assert(d.push(s.last()) =~= s);
    }
}

/// The width shared by the rows (that of the first row).
pub open spec fn rows_width(rows: Seq<Seq<Seq<u8>>>) -> nat {
    if rows.len() == 0 {
        0
    } else {
        rows[0].len()
    }
}

/// Every row has `w` words of 32 bytes.
pub open spec fn rows_shaped(rows: Seq<Seq<Seq<u8>>>, w: nat) -> bool {
    &&& forall|i: int| 0 <= i < rows.len() ==> #[trigger] rows[i].len() == w
    &&& forall|i: int, j: int|
        0 <= i < rows.len() && 0 <= j < w ==> #[trigger] rows[i][j].len() == 32
}

/// All words of all rows, row after row, as one byte string.
pub open spec fn rows_payload(rows: Seq<Seq<Seq<u8>>>, w: nat) -> Seq<u8> {
    Seq::new(
        rows.len() * (w * 32),
        |k: int| rows[k / (w as int * 32)][(k % (w as int * 32)) / 32][k % 32],
    )
}

/// The layout is two words and then the payload, whose length follows from
/// the number of rows and their width; with no rows the width plays no part.
pub proof fn abi_rows_payload_len(rows: Seq<Seq<Seq<u8>>>, w: nat)
    ensures
        rows_payload(rows, w).len() == rows.len() * (w * 32),
        abi_rows_layout(rows, w).len() == 64 + rows.len() * (w * 32),
        rows.len() == 0 ==> rows_payload(rows, w).len() == 0,
{
    lemma_be_bytes_len(32, 32);
    lemma_be_bytes_len(rows.len(), 32);
    let n = rows.len();
    assert(n == 0 ==> n * (w * 32) == 0) by (nonlinear_arith);
}

/// The encoding of a dynamic array of rows of `w` words: the offset of the
/// array (32), its length, then every word in order.
pub open spec fn abi_rows_layout(rows: Seq<Seq<Seq<u8>>>, w: nat) -> Seq<u8> {
    be_bytes(32, 32) + be_bytes(rows.len(), 32) + rows_payload(rows, w)
}

/// The byte strings that `ethabi` decodes as an array of rows of `w` words:
/// the head word gives the array's offset, the word there its length, and
/// that many rows must follow; bytes after them are ignored.
pub open spec fn abi_rows_accepts(b: Seq<u8>, w: nat) -> bool {
    &&& b.len() >= 32
    &&& be_value(word_at(b, 0)) < offset_limit()
    &&& be_value(word_at(b, 0)) + 32 <= b.len()
    &&& be_value(word_at(b, be_value(word_at(b, 0)) as int)) < offset_limit()
    &&& be_value(word_at(b, 0)) + 32 + be_value(word_at(b, be_value(word_at(b, 0)) as int)) * (w
        * 32) <= b.len()
}

/// The rows that an accepted byte string holds.
pub open spec fn abi_rows_read(b: Seq<u8>, w: nat) -> Seq<Seq<Seq<u8>>> {
    let off = be_value(word_at(b, 0)) as int;
    let n = be_value(word_at(b, off));
    Seq::new(
        n,
        |i: int| Seq::new(w, |j: int| word_at(b, off + 32 + (i * w + j) * 32)),
    )
}

pub proof fn lemma_be_bytes_value(n: nat, len: nat)
    requires
        n < pow(256, len),
    ensures
        be_value(be_bytes(n, len)) == n,
        be_bytes(n, len).len() == len,
    decreases len,
{
    reveal(pow);
    if len > 0 {
        let p = pow(256, (len - 1) as nat);
        assert(n / 256 < p) by (nonlinear_arith)
            requires
                n < 256 * p,
        ;
        lemma_be_bytes_value(n / 256, (len - 1) as nat);
        let s = be_bytes(n, len);
        assert(s.drop_last() =~= be_bytes(n / 256, (len - 1) as nat));
        assert(s.last() == (n % 256) as u8);
        assert((n / 256) * 256 + n % 256 == n) by (nonlinear_arith);
    }
}

/// Decoding the layout of well-shaped rows gives the rows back: the layout is
/// accepted, and the rows read from it are the rows that were laid out.
pub proof fn lemma_abi_rows_round_trip(rows: Seq<Seq<Seq<u8>>>, w: nat)
    requires
        w >= 1,
        rows_shaped(rows, w),
        rows.len() < offset_limit(),
    ensures
        abi_rows_accepts(abi_rows_layout(rows, w), w),
        abi_rows_read(abi_rows_layout(rows, w), w) == rows,
{
    let b = abi_rows_layout(rows, w);
    let n = rows.len();
    reveal_with_fuel(pow, 6);
    assert(pow(256, 4) == offset_limit());
    lemma_pow_increases(256, 4, 32);
    lemma_be_bytes_value(32, 32);
    lemma_be_bytes_value(n, 32);
    let h = be_bytes(32, 32);
    let l = be_bytes(n, 32);
    let pay = rows_payload(rows, w);
    assert(word_at(b, 0) =~= h);
    assert(word_at(b, 32) =~= l);
    assert(b.len() == 64 + n * (w * 32));
    assert(be_value(word_at(b, 0)) == 32);
    assert(be_value(word_at(b, 32)) == n);
    let r = abi_rows_read(b, w);
    assert(r.len() == n);
    assert forall|i: int| 0 <= i < n implies #[trigger] r[i] == rows[i] by {
        assert forall|j: int| 0 <= j < w implies #[trigger] r[i][j] == rows[i][j] by {
            assert forall|k: int| 0 <= k < 32 implies r[i][j][k] == rows[i][j][k] by {
                let x = i * (w * 32) + (j * 32 + k);
                assert(64 + (i * w + j) * 32 + k == 64 + x) by (nonlinear_arith)
                    requires
                        x == i * (w * 32) + (j * 32 + k),
                ;
                assert(r[i][j] == word_at(b, 64 + (i * w + j) * 32));
                assert(0 <= (i * w + j) * 32) by (nonlinear_arith)
                    requires
                        0 <= i,
                        0 <= j,
                        w >= 1,
                ;
                assert(j * 32 + 32 <= w * 32) by (nonlinear_arith)
                    requires
                        j + 1 <= w,
                ;
                assert(0 <= j * 32 + k < w * 32) by (nonlinear_arith)
                    requires
                        0 <= j < w,
                        0 <= k < 32,
                ;
                assert(x < n * (w * 32)) by (nonlinear_arith)
                    requires
                        x == i * (w * 32) + (j * 32 + k),
                        j * 32 + k < w * 32,
                        i + 1 <= n,
                ;
                vstd::arithmetic::div_mod::lemma_fundamental_div_mod_converse(
                    x,
                    (w * 32) as int,
                    i,
                    j * 32 + k,
                );
                vstd::arithmetic::div_mod::lemma_fundamental_div_mod_converse(j * 32 + k, 32, j, k);
                assert(x + 32 - k <= n * (w * 32)) by (nonlinear_arith)
                    requires
                        x == i * (w * 32) + (j * 32 + k),
                        j * 32 + 32 <= w * 32,
                        i + 1 <= n,
                ;
                assert(rows[i][j].len() == 32);
                assert(r[i][j][k] == b[64 + x]);
                assert(b[64 + x] == pay[x]);
                assert(pay[x] == rows[i][j][k]);
            }
            assert((i * w + j) * 32 + 32 <= n * (w * 32)) by (nonlinear_arith)
                requires
                    j + 1 <= w,
                    i + 1 <= n,
                    0 <= i,
                    0 <= j,
            ;
            assert(0 <= (i * w + j) * 32) by (nonlinear_arith)
                requires
                    0 <= i,
                    0 <= j,
                    w >= 1,
            ;
            assert(r[i][j].len() == 32);
            assert(r[i][j] =~= rows[i][j]);
        }
        assert(r[i] =~= rows[i]);
    }
    assert(r =~= rows);
}

/// Relies on `ethabi::encode` of one `Token::Array` of `Token::FixedArray`s of
/// `Token::Uint`s: all of them static, so the array's offset, its length and
/// the words follow each other; offsets and lengths are computed in `u32`.
#[verifier::external_body]
pub(crate) fn abi_encode_rows(rows: &Vec<Vec<Word>>) -> (r: Vec<u8>)
    requires
        rows_shaped(words_view(rows), rows_width(words_view(rows))),
        abi_rows_layout(words_view(rows), rows_width(words_view(rows))).len() <= u32::MAX,
    ensures
        r@ == abi_rows_layout(words_view(rows), rows_width(words_view(rows))),
{
    let row_token = |row: &Vec<Word>| Token::FixedArray(row.iter().map(|w| Token::Uint(U256::from(w))).collect());
    let tokens = rows.iter().map(row_token).collect();
    ethabi::encode(&[Token::Array(tokens)])
}

/// Relies on `hex::encode`: two lowercase hexadecimal digits per byte.
#[verifier::external_body]
pub(crate) fn hex_encode(b: &Vec<u8>) -> (r: String)
    ensures
        r@ == hex_string(b@),
{
    hex::encode(b)
}

/// Relies on `ethabi::decode` with `Array(FixedArray(Uint(256), width))`: it
/// reads the offset and length words (each must be below `2^32`), then `width`
/// words per row, and fails when the bytes run out.
#[verifier::external_body]
pub(crate) fn abi_decode_rows(bytes: &[u8], width: usize) -> (r: Option<Vec<Vec<Word>>>)
    requires
        width >= 1,
    ensures
        r is Some <==> abi_rows_accepts(bytes@, width as nat),
        r matches Some(rows) ==> words_view(&rows) == abi_rows_read(bytes@, width as nat),
{
    let param = ParamType::Array(Box::new(ParamType::FixedArray(Box::new(ParamType::Uint(256)), width)));
    let rows = ethabi::decode(&[param], bytes).ok()?.pop()?.into_array()?;
    let words = |row: Token| -> Option<Vec<Word>> {
        row.into_fixed_array()?.into_iter().map(|t| t.into_uint().map(<Word>::from)).collect()
    };
    rows.into_iter().map(words).collect()
}

} // verus!
