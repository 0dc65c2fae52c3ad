//! Fixed-radix symbol codec: a sequence of small symbols folded into one word
//! as `sum v[i] * radix^i`, and read back digit by digit.
use crate::word::{be_value, divmod_small, mul_small_add, word_bound, zero_word, Word};
use vstd::arithmetic::power::*;
use vstd::prelude::*;

verus! {

/// A radix that is a power of two, `radix == 2^bit`, so that reading the
/// packed word back `bit` bits at a time recovers the symbols.
#[derive(Clone, Copy, Debug, PartialEq, Eq)]
pub struct RadixProfile {
    pub bit: u32,
}

impl RadixProfile {
    pub open spec fn wf(&self) -> bool {
        1 <= self.bit <= 8
    }

    pub open spec fn radix_spec(&self) -> nat {
        pow(2, self.bit as nat) as nat
    }

    /// A profile of `bit` bits per symbol; `None` unless `1 <= bit <= 8`.
    pub fn new(bit: u32) -> (r: Option<RadixProfile>)
        ensures
            r matches Some(p) ==> p.bit == bit && p.wf(),
            r is None <==> !(1 <= bit <= 8),
    {
        if 1 <= bit && bit <= 8 {
            Some(RadixProfile { bit })
        } else {
            None
        }
    }

    /// Radix 4, two bits: the move symbols.
    pub fn operations() -> (r: RadixProfile)
        ensures
            r.wf(),
            r.bit == 2,
            r.radix_spec() == 4,
    {
        proof {
            reveal_with_fuel(pow, 3);
        }
        RadixProfile { bit: 2 }
    }

    /// Radix 64, six bits: the piece symbols.
    pub fn pieces() -> (r: RadixProfile)
        ensures
            r.wf(),
            r.bit == 6,
            r.radix_spec() == 64,
    {
        proof {
            reveal_with_fuel(pow, 7);
        }
        RadixProfile { bit: 6 }
    }

    /// The radix `2^bit`.
    pub fn radix(&self) -> (r: u32)
        requires
            self.wf(),
        ensures
            r as nat == self.radix_spec(),
            2 <= r <= 256,
    {
        let mut r: u32 = 1;
        let mut k: u32 = 0;
        proof {
            reveal_with_fuel(pow, 9);
            assert(pow(2, 0) == 1);
            assert(pow(2, 7) == 128);
        }
        while k < self.bit
            invariant
                k <= self.bit <= 8,
                r == pow(2, k as nat),
                pow(2, 7) == 128,
            decreases self.bit - k,
        {
            proof {
                reveal(pow);
                lemma_pow_increases(2, k as nat, 7);
            }
            r = r * 2;
            k = k + 1;
        }
        proof {
            reveal_with_fuel(pow, 9);
            lemma_pow_increases(2, 1, self.bit as nat);
            lemma_pow_increases(2, self.bit as nat, 8);
        }
        r
    }
}

/// `sum s[i] * b^i`: the positional value of a symbol sequence, least
/// significant symbol first.
pub open spec fn pack_value(s: Seq<u8>, b: nat) -> nat
    decreases s.len(),
{
    if s.len() == 0 {
        0
    } else {
        s[0] as nat + b * pack_value(s.drop_first(), b)
    }
}

/// The first `n` base-`b` digits of `v`, least significant first.
pub open spec fn unpack_seq(v: nat, b: nat, n: nat) -> Seq<u8>
    decreases n,
{
    if n == 0 {
        Seq::empty()
    } else {
        seq![(v % b) as u8] + unpack_seq(v / b, b, (n - 1) as nat)
    }
}

/// Every symbol lies in `[0, b)`.
pub open spec fn symbols_below(s: Seq<u8>, b: nat) -> bool {
    forall|i: int| 0 <= i < s.len() ==> (s[i] as nat) < b
}

/// `n` zero symbols.
pub open spec fn zeros(n: nat) -> Seq<u8> {
    Seq::new(n, |i: int| 0u8)
}

proof fn lemma_pack_value_bound(s: Seq<u8>, b: nat)
    requires
        b >= 1,
        symbols_below(s, b),
    ensures
        pack_value(s, b) < pow(b as int, s.len()),
    decreases s.len(),
{
    reveal(pow);
    if s.len() > 0 {
        let t = s.drop_first();
        lemma_pack_value_bound(t, b);
        let p = pow(b as int, t.len());
        assert((s[0] as nat) + b * pack_value(t, b) < b * p) by (nonlinear_arith)
            requires
                (s[0] as nat) < b,
                pack_value(t, b) < p,
                pack_value(t, b) + 1 <= p,
        ;
    }
}

/// Symbols packed in radix `2^bit` fit a word when `n * bit <= 256`.
proof fn lemma_pack_fits(s: Seq<u8>, p: RadixProfile)
    requires
        p.wf(),
        s.len() * p.bit <= 256,
        symbols_below(s, p.radix_spec()),
    ensures
        pack_value(s, p.radix_spec()) < word_bound(),
        pack_value(s, p.radix_spec()) < pow(p.radix_spec() as int, s.len()),
{
    let b = p.radix_spec();
    lemma_pow_positive(2, p.bit as nat);
    lemma_pack_value_bound(s, b);
    lemma_pow_multiplies(2, p.bit as nat, s.len());
    assert(p.bit as nat * s.len() == s.len() * p.bit) by (nonlinear_arith);
    lemma_pow_increases(2, p.bit as nat * s.len(), 256);
    reveal_with_fuel(pow, 9);
    lemma_pow_multiplies(2, 8, 32);
}

/// Folds `val` into one word: `sum val[i] * radix^i`. Every symbol must be
/// below the radix and the symbols must fit 256 bits.
pub fn pack(val: &[u8], profile: &RadixProfile) -> (r: Word)
    requires
        profile.wf(),
        val@.len() * profile.bit <= 256,
        symbols_below(val@, profile.radix_spec()),
    ensures
        be_value(r@) == pack_value(val@, profile.radix_spec()),
{
    let b = profile.radix();
    let n = val.len();
    let mut acc = zero_word();
    let mut i: usize = n;
    proof {
        assert(val@.subrange(n as int, n as int) =~= Seq::<u8>::empty());
    }
    while i > 0
        invariant
            profile.wf(),
            b as nat == profile.radix_spec(),
            2 <= b <= 256,
            n == val@.len(),
            i <= n,
            n * profile.bit <= 256,
            symbols_below(val@, profile.radix_spec()),
            be_value(acc@) == pack_value(val@.subrange(i as int, n as int), b as nat),
        decreases i,
    {
        let ghost next = val@.subrange(i - 1, n as int);
        proof {
            assert(next.drop_first() =~= val@.subrange(i as int, n as int));
            assert(next[0] == val@[i - 1]);
            assert(symbols_below(next, profile.radix_spec()));
            assert(next.len() * profile.bit <= n * profile.bit) by (nonlinear_arith)
                requires
                    next.len() <= n,
            ;
            lemma_pack_fits(next, *profile);
            assert(be_value(acc@) * b + val@[i - 1] == pack_value(next, b as nat)) by (nonlinear_arith)
                requires
                    pack_value(next, b as nat) == (next[0] as nat) + (b as nat) * pack_value(next.drop_first(), b as nat),
                    be_value(acc@) == pack_value(next.drop_first(), b as nat),
                    next[0] == val@[i - 1],
            ;
        }
        acc = mul_small_add(&acc, b, val[i - 1]);
        i = i - 1;
    }
    proof {
        assert(val@.subrange(0, n as int) =~= val@);
    }
    acc
}

/// Reads `len` symbols of `profile`'s radix out of `val`, least significant
/// first; the symbols above the highest non-zero digit come out as zeros. The
/// word must hold no more than `len` digits.
pub fn unpack(val: &Word, profile: &RadixProfile, len: usize) -> (r: Vec<u8>)
    requires
        profile.wf(),
        be_value(val@) < pow(profile.radix_spec() as int, len as nat),
    ensures
        r@ == unpack_seq(be_value(val@), profile.radix_spec(), len as nat),
        r@.len() == len,
        symbols_below(r@, profile.radix_spec()),
{
    let b = profile.radix();
    let mut acc: Word = *val;
    let mut out: Vec<u8> = Vec::new();
    let mut i: usize = 0;
    proof {
        assert(out@ + unpack_seq(be_value(acc@), b as nat, len as nat) =~= unpack_seq(
            be_value(val@),
            b as nat,
            len as nat,
        ));
    }
    while i < len
        invariant
            b as nat == profile.radix_spec(),
            2 <= b <= 256,
            i <= len,
            out@.len() == i,
            out@ + unpack_seq(be_value(acc@), b as nat, (len - i) as nat) == unpack_seq(
                be_value(val@),
                b as nat,
                len as nat,
            ),
        decreases len - i,
    {
        let (q, rm) = divmod_small(&acc, b);
        let ghost x = be_value(acc@);
        proof {
            let rest = unpack_seq(x / (b as nat), b as nat, (len - i - 1) as nat);
            assert(unpack_seq(x, b as nat, (len - i) as nat) == seq![(x % (b as nat)) as u8]
                + rest);
            assert(out@.push(rm as u8) + rest =~= out@ + (seq![(x % (b as nat)) as u8] + rest));
        }
        out.push(rm as u8);
        acc = q;
        i = i + 1;
    }
    proof {
        assert(unpack_seq(be_value(acc@), b as nat, 0) =~= Seq::<u8>::empty());
        assert(out@ + Seq::<u8>::empty() =~= out@);
        lemma_unpack_seq_below(be_value(val@), b as nat, len as nat);
    }
    out
}

pub proof fn lemma_unpack_seq_below(v: nat, b: nat, n: nat)
    requires
        b >= 1,
    ensures
        symbols_below(unpack_seq(v, b, n), b),
        unpack_seq(v, b, n).len() == n,
    decreases n,
{
    if n > 0 {
        lemma_unpack_seq_below(v / b, b, (n - 1) as nat);
        let s = unpack_seq(v, b, n);
        let t = unpack_seq(v / b, b, (n - 1) as nat);
        assert(s == seq![(v % b) as u8] + t);
        assert forall|i: int| 0 <= i < s.len() implies (s[i] as nat) < b by {
            if i > 0 {
                assert(s[i] == t[i - 1]);
            }
        }
    }
}

proof fn lemma_unpack_zero(b: nat, n: nat)
    requires
        b >= 1,
    ensures
        unpack_seq(0, b, n) == zeros(n),
    decreases n,
{
    if n > 0 {
        lemma_unpack_zero(b, (n - 1) as nat);
        assert(0nat / b == 0) by (nonlinear_arith)
            requires
                b >= 1,
        ;
        assert(0nat % b == 0) by (nonlinear_arith)
            requires
                b >= 1,
        ;
        assert(unpack_seq(0, b, n) =~= zeros(n));
    }
}

/// Unpacking a packed sequence gives it back, followed by zeros up to the
/// requested length: `unpack(pack(v, 2^bit), bit, len) == v ++ 0...0` for every
/// `v` whose symbols are below `2^bit` and every `len >= len(v)`.
pub proof fn lemma_pack_unpack_round_trip(v: Seq<u8>, profile: RadixProfile, len: nat)
    requires
        profile.wf(),
        symbols_below(v, profile.radix_spec()),
        v.len() <= len,
    ensures
        unpack_seq(pack_value(v, profile.radix_spec()), profile.radix_spec(), len) == v + zeros(
            (len - v.len()) as nat,
        ),
        pack_value(v, profile.radix_spec()) < pow(profile.radix_spec() as int, len),
    decreases v.len(),
{
    let b = profile.radix_spec();
    lemma_pow_positive(2, profile.bit as nat);
    lemma_pack_value_bound(v, b);
    lemma_pow_increases(b, v.len(), len);
    if v.len() == 0 {
        lemma_unpack_zero(b, len);
        assert(v + zeros(len) =~= zeros(len));
    } else {
        let t = v.drop_first();
        assert(symbols_below(t, b));
        lemma_pack_unpack_round_trip(t, profile, (len - 1) as nat);
        let x = pack_value(v, b);
        let y = pack_value(t, b);
        assert(x == (v[0] as nat) + b * y);
        vstd::arithmetic::div_mod::lemma_fundamental_div_mod_converse(
            x as int,
            b as int,
            y as int,
            v[0] as int,
        );
        assert(unpack_seq(x, b, len) == seq![(x % b) as u8] + unpack_seq(x / b, b, (len - 1) as nat));
        assert(v + zeros((len - v.len()) as nat) =~= seq![v[0]] + (t + zeros(
            ((len - 1) - t.len()) as nat,
        )));
    }
}

} // verus!
