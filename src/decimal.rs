//! Decimal strings of 256-bit words, used for the round nonce.
use crate::word::{be_value, word_bound, Word};
use ethabi::ethereum_types::U256;
use num_bigint::BigUint;
use vstd::prelude::*;

verus! {

pub open spec fn is_digit(c: char) -> bool {
    '0' <= c && c <= '9'
}

pub open spec fn all_digits(s: Seq<char>) -> bool {
    forall|i: int| 0 <= i < s.len() ==> is_digit(#[trigger] s[i])
}

pub open spec fn digit_value(c: char) -> nat {
    (c as int - '0' as int) as nat
}

pub open spec fn digit_char(d: nat) -> char {
    seq!['0', '1', '2', '3', '4', '5', '6', '7', '8', '9'][d as int]
}

/// The number that a string of decimal digits spells; the empty string is 0.
pub open spec fn dec_value(s: Seq<char>) -> nat
    decreases s.len(),
{
    if s.len() == 0 {
        0
    } else {
        dec_value(s.drop_last()) * 10 + digit_value(s.last())
    }
}

/// The decimal form of `n`: no leading zeros, and "0" for zero.
pub open spec fn dec_string(n: nat) -> Seq<char>
    decreases n,
{
    if n < 10 {
        seq![digit_char(n)]
    } else {
        dec_string(n / 10).push(digit_char(n % 10))
    }
}

/// A string that is the decimal form of its own value: digits only, at least
/// one, and no leading zero unless it is "0".
pub open spec fn is_canonical_decimal(s: Seq<char>) -> bool {
    &&& s.len() > 0
    &&& all_digits(s)
    &&& (s.len() == 1 || s[0] != '0')
}

/// Relies on `U256::from_dec_str` (uint, through ethabi): it accepts a string
/// of ASCII digits, the empty one as zero, and fails on any other character
/// or on a value of 2^256 or more.
#[verifier::external_body]
pub(crate) fn parse_decimal_word(s: &str) -> (r: Option<Word>)
    ensures
        r is Some <==> (all_digits(s@) && dec_value(s@) < word_bound()),
        r matches Some(w) ==> be_value(w@) == dec_value(s@),
{
    U256::from_dec_str(s).ok().map(<Word>::from)
}

/// Relies on `BigUint::from_bytes_be` and its `to_string`: the decimal form of
/// the word's value.
#[verifier::external_body]
pub(crate) fn decimal_of_word(w: &Word) -> (r: String)
    ensures
        r@ == dec_string(be_value(w@)),
{
    BigUint::from_bytes_be(w).to_string()
}

proof fn lemma_digit_round_trip(c: char)
    requires
        is_digit(c),
    ensures
        digit_value(c) < 10,
        digit_char(digit_value(c)) == c,
{
    let d = digit_value(c);
    assert(d < 10);
    if d == 0 { assert(c == '0'); } else if d == 1 { assert(c == '1'); } else if d == 2 { assert(c == '2'); }
    else if d == 3 { assert(c == '3'); } else if d == 4 { assert(c == '4'); } else if d == 5 { assert(c == '5'); }
    else if d == 6 { assert(c == '6'); } else if d == 7 { assert(c == '7'); } else if d == 8 { assert(c == '8'); }
    else { assert(c == '9'); }
}

proof fn lemma_leading_nonzero(s: Seq<char>)
    requires
        s.len() > 0,
        all_digits(s),
        s[0] != '0',
    ensures
        dec_value(s) >= 1,
    decreases s.len(),
{
    if s.len() > 1 {
        let t = s.drop_last();
        assert(t[0] == s[0]);
        assert(all_digits(t));
        lemma_leading_nonzero(t);
    } else {
        assert(s.drop_last() =~= Seq::<char>::empty());
        assert(dec_value(Seq::<char>::empty()) == 0);
    }
}

/// A canonical decimal string is the decimal form of its value.
pub proof fn lemma_decimal_round_trip(s: Seq<char>)
    requires
        is_canonical_decimal(s),
    ensures
        dec_string(dec_value(s)) == s,
    decreases s.len(),
{
    let c = s.last();
    lemma_digit_round_trip(c);
    let d = digit_value(c);
    if s.len() == 1 {
        assert(s.drop_last() =~= Seq::<char>::empty());
        assert(dec_value(Seq::<char>::empty()) == 0);
        assert(dec_value(s) == d);
        assert(dec_string(d) =~= s);
    } else {
        let t = s.drop_last();
        assert(t[0] == s[0]);
        assert(all_digits(t));
        assert(t.len() == 1 || t[0] != '0');
        lemma_decimal_round_trip(t);
        let v = dec_value(t);
        if t.len() > 1 {
            lemma_leading_nonzero(t);
        } else {
            lemma_digit_round_trip(t[0]);
            assert(t.drop_last() =~= Seq::<char>::empty());
            assert(dec_value(Seq::<char>::empty()) == 0);
            assert(v == digit_value(t[0]));
        }
        assert(v >= 1);
        assert(dec_value(s) == v * 10 + d);
        assert((v * 10 + d) / 10 == v && (v * 10 + d) % 10 == d) by (nonlinear_arith)
            requires
                d < 10,
        ;
        assert(dec_string(dec_value(s)) =~= t.push(c));
    }
}

} // verus!
