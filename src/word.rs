//! 256-bit unsigned words held as 32 big-endian bytes, with the small-factor
//! arithmetic that the symbol codec needs.
use vstd::arithmetic::power::*;
use vstd::prelude::*;

verus! {

/// A 256-bit unsigned integer as 32 bytes, most significant first.
pub type Word = [u8; 32];

/// The value of a big-endian byte string.
pub open spec fn be_value(s: Seq<u8>) -> nat
    decreases s.len(),
{
    if s.len() == 0 {
        0
    } else {
        be_value(s.drop_last()) * 256 + s.last() as nat
    }
}

/// Splitting a byte string splits its value at the matching power of 256.
pub proof fn lemma_be_value_concat(a: Seq<u8>, b: Seq<u8>)
    ensures
        be_value(a + b) == be_value(a) * pow(256, b.len()) + be_value(b),
    decreases b.len(),
{
    reveal(pow);
    if b.len() == 0 {
        assert(a + b =~= a);
    } else {
        let bl = b.drop_last();
        assert((a + b).drop_last() =~= a + bl);
        assert((a + b).last() == b.last());
        lemma_be_value_concat(a, bl);
        let p = pow(256, bl.len());
        assert(pow(256, b.len()) == 256 * p);
        assert(be_value(a + b) == be_value(a + bl) * 256 + b.last() as nat);
        assert(be_value(b) == be_value(bl) * 256 + b.last() as nat);
        assert(be_value(a + bl) == be_value(a) * p + be_value(bl));
        assert((be_value(a) * p + be_value(bl)) * 256 + b.last() as nat == be_value(a) * (256
            * p) + (be_value(bl) * 256 + b.last() as nat)) by (nonlinear_arith);
    }
}

/// A byte string of length `n` has a value below `256^n`.
pub proof fn lemma_be_value_bound(s: Seq<u8>)
    ensures
        be_value(s) < pow(256, s.len()),
    decreases s.len(),
{
    reveal(pow);
    if s.len() > 0 {
        let d = s.drop_last();
        lemma_be_value_bound(d);
        let p = pow(256, d.len());
        assert(be_value(d) * 256 + (s.last() as nat) < 256 * p) by (nonlinear_arith)
            requires
                be_value(d) < p,
                s.last() < 256,
        ;
    }
}

/// The value of a single byte string of length one.
proof fn lemma_be_value_single(x: u8)
    ensures
        be_value(seq![x]) == x as nat,
{
    assert(seq![x].drop_last() =~= Seq::<u8>::empty());
    assert(be_value(Seq::<u8>::empty()) == 0);
    assert(seq![x].last() == x);
}

/// `256^32`, the number of distinct words.
pub open spec fn word_bound() -> nat {
    pow(256, 32) as nat
}

/// The all-zero word.
pub fn zero_word() -> (r: Word)
    ensures
        be_value(r@) == 0,
{
    let r: Word = [0u8; 32];
    proof {
        assert forall|k: int| 0 <= k <= 32 implies be_value(r@.subrange(0, k)) == 0 by {
            lemma_be_value_prefix_zero(r@, k);
        }
        assert(r@.subrange(0, 32) =~= r@);
    }
    r
}

proof fn lemma_be_value_prefix_zero(s: Seq<u8>, k: int)
    requires
        0 <= k <= s.len(),
        forall|i: int| 0 <= i < s.len() ==> s[i] == 0,
    ensures
        be_value(s.subrange(0, k)) == 0,
    decreases k,
{
    if k > 0 {
        assert(s.subrange(0, k).drop_last() =~= s.subrange(0, k - 1));
        lemma_be_value_prefix_zero(s, k - 1);
    }
}

/// `w * d + v`, where the result fits in a word.
pub fn mul_small_add(w: &Word, d: u32, v: u8) -> (r: Word)
    requires
        1 <= d <= 256,
        be_value(w@) * d + v < word_bound(),
    ensures
        be_value(r@) == be_value(w@) * d + v,
{
    let mut o: Word = *w;
    let mut carry: u32 = v as u32;
    let mut j: usize = 32;
    proof {
        assert(o@.subrange(32, 32) =~= Seq::<u8>::empty());
        assert(w@.subrange(32, 32) =~= Seq::<u8>::empty());
        assert(be_value(Seq::<u8>::empty()) == 0);
        reveal(pow);
        assert(pow(256, 0) == 1);
    }
    while j > 0
        invariant
            1 <= d <= 256,
            j <= 32,
            carry <= 255,
            forall|k: int| 0 <= k < j ==> o@[k] == w@[k],
            be_value(o@.subrange(j as int, 32)) + carry * pow(256, (32 - j) as nat) == be_value(
                w@.subrange(j as int, 32),
            ) * d + v,
        decreases j,
    {
        let wb: u32 = w[j - 1] as u32;
        assert(wb * d + carry <= 255 * 256 + 255) by (nonlinear_arith)
            requires
                wb < 256,
                d <= 256,
                carry <= 255,
        ;
        let t: u32 = wb * d + carry;
        let ghost prev = o@;
        o[j - 1] = (t % 256) as u8;
        let ghost c0 = carry;
        carry = t / 256;
        proof {
            let jj = j as int;
            let p = pow(256, (32 - jj) as nat);
            assert(o@.subrange(jj - 1, 32) =~= seq![o@[jj - 1]] + o@.subrange(jj, 32));
            assert(o@.subrange(jj, 32) =~= prev.subrange(jj, 32));
            assert(w@.subrange(jj - 1, 32) =~= seq![w@[jj - 1]] + w@.subrange(jj, 32));
            lemma_be_value_concat(seq![o@[jj - 1]], o@.subrange(jj, 32));
            lemma_be_value_concat(seq![w@[jj - 1]], w@.subrange(jj, 32));
            lemma_be_value_single(o@[jj - 1]);
            lemma_be_value_single(w@[jj - 1]);
            reveal(pow);
            assert(pow(256, (32 - (jj - 1)) as nat) == 256 * p);
            let ov = be_value(o@.subrange(jj, 32));
            let wv = be_value(w@.subrange(jj, 32));
            assert(ov + c0 * p == wv * d + v);
            let wj = w@[jj - 1] as nat;
            assert(be_value(o@.subrange(jj - 1, 32)) == ((t % 256) as nat) * p + ov);
            assert(be_value(w@.subrange(jj - 1, 32)) == wj * p + wv);
            assert(((t % 256) as nat) * p + ov + ((t / 256) as nat) * (256 * p) == (wj * p + wv)
                * d + v) by (nonlinear_arith)
                requires
                    ov + c0 * p == wv * d + v,
                    t == wj * d + c0,
            ;
        }
        j = j - 1;
    }
    proof {
        assert(o@.subrange(0, 32) =~= o@);
        assert(w@.subrange(0, 32) =~= w@);
        lemma_be_value_bound(o@);
        if carry > 0 {
            assert(carry * pow(256, 32) >= pow(256, 32)) by (nonlinear_arith)
                requires
                    carry >= 1,
                    pow(256, 32) >= 0,
            ;
        }
    }
    o
}

/// Division of a word by a small divisor: quotient and remainder.
pub fn divmod_small(w: &Word, d: u32) -> (r: (Word, u32))
    requires
        1 <= d <= 256,
    ensures
        be_value(r.0@) == be_value(w@) / (d as nat),
        r.1 as nat == be_value(w@) % (d as nat),
{
    let mut q: Word = [0u8; 32];
    let mut rem: u32 = 0;
    let mut j: usize = 0;
    proof {
        assert(w@.subrange(0, 0) =~= Seq::<u8>::empty());
        assert(q@.subrange(0, 0) =~= Seq::<u8>::empty());
        assert(be_value(Seq::<u8>::empty()) == 0);
    }
    while j < 32
        invariant
            1 <= d <= 256,
            j <= 32,
            rem < d,
            be_value(q@.subrange(0, j as int)) * d + rem == be_value(w@.subrange(0, j as int)),
        decreases 32 - j,
    {
        let t: u32 = rem * 256 + w[j] as u32;
        assert(t < d * 256) by (nonlinear_arith)
            requires
                t == rem * 256 + w@[j as int],
                rem < d,
                w@[j as int] < 256,
        ;
        let qd: u32 = t / d;
        assert(qd < 256) by (nonlinear_arith)
            requires
                qd == t / d,
                t < d * 256,
                d >= 1,
        ;
        let ghost prev = q@;
        let ghost r0 = rem;
        q[j] = qd as u8;
        rem = t % d;
        proof {
            let jj = j as int;
            assert(q@.subrange(0, jj + 1).drop_last() =~= prev.subrange(0, jj));
            assert(w@.subrange(0, jj + 1).drop_last() =~= w@.subrange(0, jj));
            let qv = be_value(prev.subrange(0, jj));
            let wv = be_value(w@.subrange(0, jj));
            assert((qv * 256 + qd) * d + t % d == wv * 256 + w@[jj]) by (nonlinear_arith)
                requires
                    qv * d + r0 == wv,
                    t == r0 * 256 + w@[jj],
                    qd == t / d,
                    d >= 1,
            ;
        }
        j = j + 1;
    }
    proof {
        assert(q@.subrange(0, 32) =~= q@);
        assert(w@.subrange(0, 32) =~= w@);
        let qv = be_value(q@);
        vstd::arithmetic::div_mod::lemma_fundamental_div_mod_converse(
            be_value(w@) as int,
            d as int,
            qv as int,
            rem as int,
        );
    }
    (q, rem)
}

proof fn lemma_be_value_nonzero(s: Seq<u8>, i: int)
    requires
        0 <= i < s.len(),
        s[i] != 0,
    ensures
        be_value(s) >= 1,
    decreases s.len(),
{
    let d = s.drop_last();
    if i < s.len() - 1 {
        lemma_be_value_nonzero(d, i);
        assert(be_value(d) * 256 >= 1) by (nonlinear_arith)
            requires
                be_value(d) >= 1,
        ;
    } else {
        assert(s.last() == s[i]);
    }
}

/// Whether the word's value is below `256^k`, that is, whether its first
/// `32 - k` bytes are zero.
pub fn fits_low_bytes(w: &Word, k: usize) -> (r: bool)
    requires
        k <= 32,
    ensures
        r == (be_value(w@) < pow(256, k as nat)),
{
    let hi_len: usize = 32 - k;
    let ghost hi = w@.subrange(0, hi_len as int);
    let ghost lo = w@.subrange(hi_len as int, 32);
    proof {
        assert(w@ =~= hi + lo);
        lemma_be_value_concat(hi, lo);
        lemma_be_value_bound(lo);
        vstd::arithmetic::power::lemma_pow_positive(256, k as nat);
    }
    let mut j: usize = 0;
    while j < hi_len
        invariant
            hi_len <= 32,
            hi == w@.subrange(0, hi_len as int),
            hi_len == 32 - k,
            be_value(w@) == be_value(hi) * pow(256, k as nat) + be_value(lo),
            be_value(lo) < pow(256, (32 - hi_len) as nat),
            pow(256, k as nat) > 0,
            j <= hi_len,
            forall|i: int| 0 <= i < j ==> w@[i] == 0,
        decreases hi_len - j,
    {
        if w[j] != 0 {
            proof {
                assert(hi[j as int] == w@[j as int]);
                lemma_be_value_nonzero(hi, j as int);
                assert(be_value(hi) * pow(256, k as nat) >= pow(256, k as nat)) by (nonlinear_arith)
                    requires
                        be_value(hi) >= 1,
                        pow(256, k as nat) > 0,
                ;
            }
            return false;
        }
        j = j + 1;
    }
    proof {
        lemma_be_value_prefix_zero(hi, hi.len() as int);
        assert(hi.subrange(0, hi.len() as int) =~= hi);
    }
    true
}

} // verus!
