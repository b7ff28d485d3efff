//! Packing of fixed-width fields into a bit sequence, and its rendering
//! through the 64-symbol alphabet `A-Z a-z 0-9 + /`.
use bit_vec::BitVec;
use vstd::arithmetic::div_mod::lemma_div_denominator;
use vstd::arithmetic::power2::{lemma2_to64, lemma_pow2_unfold, pow2};
use vstd::bits::{lemma_u16_shr_is_div, lemma_u8_shr_is_div};
use vstd::prelude::*;

verus! {

#[verifier::external_type_specification]
#[verifier::external_body]
#[verifier::reject_recursive_types(B)]
pub struct ExBitVec<B>(BitVec<B>);

/// The bits held by a `BitVec`, first pushed first.
pub uninterp spec fn bits_of(b: BitVec) -> Seq<bool>;

/// Relies on `BitVec::new`: the new vector holds no bit.
#[verifier::external_body]
pub(crate) fn bv_new() -> (r: BitVec)
    ensures
        bits_of(r) == Seq::<bool>::empty(),
{
    BitVec::new()
}

/// Relies on `BitVec::push`: the bit is added at the end. It panics only when
/// the length would overflow `usize`.
#[verifier::external_body]
pub(crate) fn bv_push(b: &mut BitVec, x: bool)
    requires
        bits_of(*old(b)).len() < usize::MAX,
    ensures
        bits_of(*final(b)) == bits_of(*old(b)).push(x),
{
    b.push(x)
}

/// Relies on `BitVec::len`: the number of bits held.
#[verifier::external_body]
fn bv_len(b: &BitVec) -> (r: usize)
    ensures
        r == bits_of(*b).len(),
{
    b.len()
}

/// Relies on `BitVec::get`: the bit at index `i`, `None` past the end.
#[verifier::external_body]
fn bv_get(b: &BitVec, i: usize) -> (r: Option<bool>)
    ensures
        i < bits_of(*b).len() ==> r == Some(bits_of(*b)[i as int]),
        i >= bits_of(*b).len() ==> r is None,
{
    b.get(i)
}

/// The `len` lowest bits of `n`, most significant first.
pub open spec fn bits_of_nat(n: nat, len: nat) -> Seq<bool>
    decreases len,
{
    if len == 0 {
        Seq::empty()
    } else {
        bits_of_nat(n / 2, (len - 1) as nat).push(n % 2 == 1)
    }
}

/// The number that a bit sequence spells, most significant bit first.
pub open spec fn nat_of_bits(b: Seq<bool>) -> nat
    decreases b.len(),
{
    if b.len() == 0 {
        0
    } else {
        2 * nat_of_bits(b.drop_last()) + if b.last() { 1nat } else { 0nat }
    }
}

pub proof fn lemma_bits_of_nat_len(n: nat, len: nat)
    ensures
        bits_of_nat(n, len).len() == len,
    decreases len,
{
    if len > 0 {
        lemma_bits_of_nat_len(n / 2, (len - 1) as nat);
    }
}

/// Bit `i` of `bits_of_nat(n, len)` is the binary digit of weight `2^(len-1-i)`.
pub proof fn lemma_bits_of_nat_index(n: nat, len: nat, i: int)
    requires
        0 <= i < len,
    ensures
        bits_of_nat(n, len).len() == len,
        bits_of_nat(n, len)[i] == ((n / pow2((len - 1 - i) as nat)) % 2 == 1),
    decreases len,
{
    lemma_bits_of_nat_len(n, len);
    lemma_bits_of_nat_len(n / 2, (len - 1) as nat);
    if i == len - 1 {
        lemma2_to64();
    } else {
        lemma_bits_of_nat_index(n / 2, (len - 1) as nat, i);
        let k = (len - 2 - i) as nat;
        lemma_pow2_unfold(k + 1);
        vstd::arithmetic::power2::lemma_pow2_pos(k);
        lemma_div_denominator(n as int, 2, pow2(k) as int);
        assert(pow2((len - 1 - i) as nat) == 2 * pow2(k));
    }
}

/// Only the `len` lowest bits of `n` matter.
pub proof fn lemma_bits_of_nat_mod(n: nat, len: nat)
    ensures
        bits_of_nat(n % pow2(len), len) == bits_of_nat(n, len),
    decreases len,
{
    if len > 0 {
        let l1 = (len - 1) as nat;
        lemma_pow2_unfold(len);
        vstd::arithmetic::power2::lemma_pow2_pos(l1);
        vstd::arithmetic::div_mod::lemma_mod_breakdown(n as int, 2, pow2(l1) as int);
        let m = n % pow2(len);
        assert(pow2(len) == 2 * pow2(l1));
        assert(m == 2 * ((n / 2) % pow2(l1)) + n % 2);
        assert(m / 2 == (n / 2) % pow2(l1));
        assert(m % 2 == n % 2);
        lemma_bits_of_nat_mod(n / 2, l1);
        assert(bits_of_nat(m, len) == bits_of_nat(m / 2, l1).push(m % 2 == 1));
        assert(bits_of_nat(n, len) == bits_of_nat(n / 2, l1).push(n % 2 == 1));
        assert(bits_of_nat(m / 2, l1) == bits_of_nat((n / 2) % pow2(l1), l1));
        assert(bits_of_nat(m, len) == bits_of_nat(n, len));
    } else {
        lemma2_to64();
        assert(bits_of_nat(n % pow2(len), len) =~= bits_of_nat(n, len));
    }
}

/// The first `len` bits of `n`, most significant first, for `1 <= len <= 8`.
pub fn from_u8(n: u8, len: usize) -> (r: BitVec)
    requires
        1 <= len <= 8,
    ensures
        bits_of(r) == bits_of_nat(n as nat, len as nat),
{
    let mut b = bv_new();
    let mut i: usize = 0;
    while i < len
        invariant
            i <= len <= 8,
            bits_of(b) == bits_of_nat(n as nat, len as nat).subrange(0, i as int),
        decreases len - i,
    {
        let k: u8 = (len - 1 - i) as u8;
        let mask: u8 = 1u8 << k;
        let bit = (n & mask) != 0;
        proof {
            assert((n & (1u8 << k) != 0) == ((n >> k) % 2 == 1)) by (bit_vector)
                requires
                    k < 8,
            ;
            lemma_u8_shr_is_div(n, k);
            lemma_bits_of_nat_index(n as nat, len as nat, i as int);
        }
        bv_push(&mut b, bit);
        i = i + 1;
        assert(bits_of(b) =~= bits_of_nat(n as nat, len as nat).subrange(0, i as int));
    }
    proof {
        lemma_bits_of_nat_len(n as nat, len as nat);
    }
    assert(bits_of(b) =~= bits_of_nat(n as nat, len as nat));
    b
}

/// The first `len` bits of `n`, most significant first, for `1 <= len <= 16`.
pub fn from_u16(n: u16, len: usize) -> (r: BitVec)
    requires
        1 <= len <= 16,
    ensures
        bits_of(r) == bits_of_nat(n as nat, len as nat),
{
    let mut b = bv_new();
    let mut i: usize = 0;
    while i < len
        invariant
            i <= len <= 16,
            bits_of(b) == bits_of_nat(n as nat, len as nat).subrange(0, i as int),
        decreases len - i,
    {
        let k: u16 = (len - 1 - i) as u16;
        let mask: u16 = 1u16 << k;
        let bit = (n & mask) != 0;
        proof {
            assert((n & (1u16 << k) != 0) == ((n >> k) % 2 == 1)) by (bit_vector)
                requires
                    k < 16,
            ;
            lemma_u16_shr_is_div(n, k);
            lemma_bits_of_nat_index(n as nat, len as nat, i as int);
        }
        bv_push(&mut b, bit);
        i = i + 1;
        assert(bits_of(b) =~= bits_of_nat(n as nat, len as nat).subrange(0, i as int));
    }
    proof {
        lemma_bits_of_nat_len(n as nat, len as nat);
    }
    assert(bits_of(b) =~= bits_of_nat(n as nat, len as nat));
    b
}

/// Adds the bits of `dst` after those of `src`.
pub fn append(src: &mut BitVec, dst: BitVec)
    requires
        bits_of(*old(src)).len() + bits_of(dst).len() <= usize::MAX,
    ensures
        bits_of(*final(src)) == bits_of(*old(src)) + bits_of(dst),
{
    let n = bv_len(&dst);
    let mut i: usize = 0;
    while i < n
        invariant
            i <= n == bits_of(dst).len(),
            bits_of(*old(src)).len() + n <= usize::MAX,
            bits_of(*src) == bits_of(*old(src)) + bits_of(dst).subrange(0, i as int),
        decreases n - i,
    {
        match bv_get(&dst, i) {
            Some(x) => bv_push(src, x),
            None => {},
        }
        i = i + 1;
        assert(bits_of(*src) =~= bits_of(*old(src)) + bits_of(dst).subrange(0, i as int));
    }
    assert(bits_of(dst).subrange(0, n as int) =~= bits_of(dst));
}

/// The symbol of the alphabet that stands for `v < 64`.
pub open spec fn sextet_char(v: nat) -> char {
    if v < 26 {
        (65 + v) as char
    } else if v < 52 {
        (97 + (v - 26)) as char
    } else if v < 62 {
        (48 + (v - 52)) as char
    } else if v == 62 {
        '+'
    } else {
        '/'
    }
}

/// The number of zero bits that bring a length to a multiple of six.
pub open spec fn pad_len(len: nat) -> nat {
    ((6 - len % 6) % 6) as nat
}

/// `b` followed by zero bits up to a multiple of six.
pub open spec fn padded(b: Seq<bool>) -> Seq<bool> {
    b + Seq::new(pad_len(b.len()), |i: int| false)
}

/// The value of the `k`-th group of six bits of `p`.
pub open spec fn sextet(p: Seq<bool>, k: int) -> nat {
    nat_of_bits(p.subrange(6 * k, 6 * k + 6))
}

/// The text for a bit sequence: one symbol per group of six bits of the
/// padded sequence; an empty sequence gives the symbol of zero.
pub open spec fn base64_text(b: Seq<bool>) -> Seq<char> {
    let p = padded(b);
    if p.len() == 0 {
        seq![sextet_char(0)]
    } else {
        Seq::new(p.len() / 6, |k: int| sextet_char(sextet(p, k)))
    }
}

fn u8_to_char(n: u8) -> (c: char)
    requires
        n < 64,
    ensures
        c == sextet_char(n as nat),
{
    if n < 26 {
        (65u8 + n) as char
    } else if n < 52 {
        (97u8 + (n - 26)) as char
    } else if n < 62 {
        (48u8 + (n - 52)) as char
    } else if n == 62 {
        '+'
    } else {
        '/'
    }
}

/// Relies on `String`'s `FromIterator<&char>`: the characters in order.
#[verifier::external_body]
pub(crate) fn string_from_chars(v: &Vec<char>) -> (r: String)
    ensures
        r@ == v@,
{
    v.iter().collect()
}

pub proof fn lemma_nat_of_bits_push(s: Seq<bool>, x: bool)
    ensures
        nat_of_bits(s.push(x)) == 2 * nat_of_bits(s) + if x { 1nat } else { 0nat },
{
    assert(s.push(x).drop_last() =~= s);
}

/// Pads `bv` with zero bits to a multiple of six and renders each group of six
/// through the alphabet.
pub fn bitvec_to_base64(bv: BitVec) -> (r: String)
    requires
        bits_of(bv).len() + 6 <= usize::MAX,
    ensures
        r@ == base64_text(bits_of(bv)),
{
    let mut bv = bv;
    let ghost b0 = bits_of(bv);
    let len = bv_len(&bv);
    let pad: usize = (6 - len % 6) % 6;
    let mut j: usize = 0;
    while j < pad
        invariant
            j <= pad == pad_len(b0.len()),
            len == b0.len(),
            len + 6 <= usize::MAX,
            bits_of(bv) == b0 + Seq::new(j as nat, |i: int| false),
        decreases pad - j,
    {
        bv_push(&mut bv, false);
        j = j + 1;
        assert(bits_of(bv) =~= b0 + Seq::new(j as nat, |i: int| false));
    }
    let ghost p = padded(b0);
    assert(bits_of(bv) =~= p);
    let total = len + pad;
    assert(total % 6 == 0);
    let mut charv: Vec<char> = Vec::new();
    if total == 0 {
        charv.push(u8_to_char(0));
    } else {
        let groups = total / 6;
        let mut k: usize = 0;
        while k < groups
            invariant
                k <= groups == p.len() / 6,
                total == p.len(),
                total % 6 == 0,
                bits_of(bv) == p,
                charv@.len() == k,
                forall|m: int| 0 <= m < k ==> charv@[m] == sextet_char(#[trigger] sextet(p, m)),
            decreases groups - k,
        {
            let mut n: u8 = 0;
            let mut i: usize = 0;
            proof {
                lemma2_to64();
            }
            while i < 6
                invariant
                    i <= 6,
                    k < groups,
                    total == p.len(),
                    bits_of(bv) == p,
                    6 * k + 6 <= p.len(),
                    n as nat == nat_of_bits(p.subrange(6 * k, 6 * k + i)),
                    n < pow2(i as nat),
                decreases 6 - i,
            {
                let x = match bv_get(&bv, 6 * k + i) {
                    Some(x) => x,
                    None => false,
                };
                proof {
                    lemma_nat_of_bits_push(p.subrange(6 * k, 6 * k + i), x);
                    assert(p.subrange(6 * k, 6 * k + i).push(x) =~= p.subrange(6 * k, 6 * k + i + 1));
                    lemma2_to64();
                    lemma_pow2_unfold((i + 1) as nat);
                }
                n = if x { 2 * n + 1 } else { 2 * n };
                i = i + 1;
            }
            proof {
                lemma2_to64();
            }
            let c = u8_to_char(n);
            charv.push(c);
            k = k + 1;
        }
    }
    let r = string_from_chars(&charv);
    assert(r@ =~= base64_text(b0));
    r
}

/// The value of a symbol of the alphabet.
pub open spec fn char_value(c: char) -> nat {
    if 65 <= c as int <= 90 {
        (c as int - 65) as nat
    } else if 97 <= c as int <= 122 {
        (c as int - 71) as nat
    } else if 48 <= c as int <= 57 {
        (c as int + 4) as nat
    } else if c == '+' {
        62
    } else {
        63
    }
}

/// The bits that a text stands for: six per symbol.
pub open spec fn text_bits(t: Seq<char>) -> Seq<bool>
    decreases t.len(),
{
    if t.len() == 0 {
        Seq::empty()
    } else {
        text_bits(t.drop_last()) + bits_of_nat(char_value(t.last()), 6)
    }
}

/// Reading back `w` bits written from `n < 2^w` gives `n`.
pub proof fn lemma_nat_of_bits_of_nat(n: nat, w: nat)
    requires
        n < pow2(w),
    ensures
        nat_of_bits(bits_of_nat(n, w)) == n,
    decreases w,
{
    if w == 0 {
        lemma2_to64();
    } else {
        let l1 = (w - 1) as nat;
        lemma_pow2_unfold(w);
        lemma_nat_of_bits_of_nat(n / 2, l1);
        let s = bits_of_nat(n / 2, l1);
        assert(bits_of_nat(n, w) == s.push(n % 2 == 1));
        assert(s.push(n % 2 == 1).drop_last() =~= s);
    }
}

/// Writing back the number that a bit sequence spells gives the sequence.
pub proof fn lemma_bits_of_nat_of_bits(s: Seq<bool>)
    ensures
        bits_of_nat(nat_of_bits(s), s.len()) == s,
        nat_of_bits(s) < pow2(s.len()),
    decreases s.len(),
{
    if s.len() == 0 {
        lemma2_to64();
        assert(bits_of_nat(nat_of_bits(s), 0) =~= s);
    } else {
        let t = s.drop_last();
        lemma_bits_of_nat_of_bits(t);
        lemma_pow2_unfold(s.len());
        let n = nat_of_bits(s);
        assert(n / 2 == nat_of_bits(t));
        assert((n % 2 == 1) == s.last());
        assert(bits_of_nat(n, s.len()) == bits_of_nat(n / 2, t.len()).push(n % 2 == 1));
        assert(s =~= t.push(s.last()));
    }
}

proof fn lemma_char_value(v: nat)
    requires
        v < 64,
    ensures
        char_value(sextet_char(v)) == v,
{
}

proof fn lemma_text_bits_prefix(p: Seq<bool>, m: nat)
    requires
        p.len() % 6 == 0,
        6 * m <= p.len(),
    ensures
        text_bits(Seq::new(m, |k: int| sextet_char(sextet(p, k)))) == p.subrange(0, (6 * m) as int),
    decreases m,
{
    let t = Seq::new(m, |k: int| sextet_char(sextet(p, k)));
    if m == 0 {
        assert(p.subrange(0, 0) =~= Seq::<bool>::empty());
    } else {
        let k = m - 1;
        lemma_text_bits_prefix(p, (m - 1) as nat);
        assert(t.drop_last() =~= Seq::new((m - 1) as nat, |k: int| sextet_char(sextet(p, k))));
        let g = p.subrange(6 * k, 6 * k + 6);
        lemma_bits_of_nat_of_bits(g);
        lemma2_to64();
        lemma_char_value(sextet(p, k));
        assert(bits_of_nat(char_value(t.last()), 6) == g);
        assert(p.subrange(0, 6 * k) + g =~= p.subrange(0, (6 * m) as int));
    }
}

/// Reading a rendered text back gives the bits, padded to a multiple of six.
pub proof fn lemma_text_round_trip(b: Seq<bool>)
    requires
        b.len() > 0,
    ensures
        text_bits(base64_text(b)) == padded(b),
        padded(b).subrange(0, b.len() as int) == b,
{
    let p = padded(b);
    assert(p.len() % 6 == 0);
    lemma_text_bits_prefix(p, p.len() / 6);
    assert(p.subrange(0, (6 * (p.len() / 6)) as int) =~= p);
    assert(p.subrange(0, b.len() as int) =~= b);
}

} // verus!
