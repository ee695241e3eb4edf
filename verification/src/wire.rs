//! Fixed-width integer encodings and a cursor-style reader over byte strings.
//!
//! Every read takes the bytes and a position and yields the value together
//! with the position behind it, or nothing when the bytes run out.
use vstd::prelude::*;
use vstd::slice::{slice_subrange, slice_to_vec};
use vstd::utf8::{
    decode_utf8, decode_utf8_encode_utf8, encode_utf8, encode_utf8_decode_utf8,
    encode_utf8_valid_utf8, valid_utf8,
};

verus! {

/// The two bytes of `x`, least significant first.
pub open spec fn u16_le(x: u16) -> Seq<u8> {
    seq![(x % 256) as u8, (x / 256) as u8]
}

/// The four bytes of `x`, least significant first.
pub open spec fn u32_le(x: u32) -> Seq<u8> {
    seq![
        (x % 256) as u8,
        ((x / 0x100) % 256) as u8,
        ((x / 0x1_0000) % 256) as u8,
        (x / 0x100_0000) as u8,
    ]
}

/// The eight bytes of `x`, least significant first.
pub open spec fn u64_le(x: u64) -> Seq<u8> {
    u32_le((x % 0x1_0000_0000) as u32) + u32_le((x / 0x1_0000_0000) as u32)
}

/// The four bytes of `x`, most significant first.
pub open spec fn u32_be(x: u32) -> Seq<u8> {
    seq![
        (x / 0x100_0000) as u8,
        ((x / 0x1_0000) % 256) as u8,
        ((x / 0x100) % 256) as u8,
        (x % 256) as u8,
    ]
}

/// The sixteen bytes of `x`, most significant first.
pub open spec fn u128_be(x: u128) -> Seq<u8> {
    u32_be((x / 0x1_0000_0000_0000_0000_0000_0000) as u32) + u32_be(
        ((x / 0x1_0000_0000_0000_0000) % 0x1_0000_0000) as u32,
    ) + u32_be(((x / 0x1_0000_0000) % 0x1_0000_0000) as u32) + u32_be((x % 0x1_0000_0000) as u32)
}

/// The number that two bytes encode, least significant first.
pub open spec fn u16_of_le(s: Seq<u8>) -> u16
    recommends
        s.len() == 2,
{
    (s[0] as int + s[1] as int * 256) as u16
}

/// The number that four bytes encode, least significant first.
pub open spec fn u32_of_le(s: Seq<u8>) -> u32
    recommends
        s.len() == 4,
{
    (s[0] as int + s[1] as int * 0x100 + s[2] as int * 0x1_0000 + s[3] as int * 0x100_0000) as u32
}

/// The number that eight bytes encode, least significant first.
pub open spec fn u64_of_le(s: Seq<u8>) -> u64
    recommends
        s.len() == 8,
{
    (u32_of_le(s.subrange(0, 4)) as int + u32_of_le(s.subrange(4, 8)) as int * 0x1_0000_0000) as u64
}

/// The number that four bytes encode, most significant first.
pub open spec fn u32_of_be(s: Seq<u8>) -> u32
    recommends
        s.len() == 4,
{
    (s[3] as int + s[2] as int * 0x100 + s[1] as int * 0x1_0000 + s[0] as int * 0x100_0000) as u32
}

/// The number that sixteen bytes encode, most significant first.
pub open spec fn u128_of_be(s: Seq<u8>) -> u128
    recommends
        s.len() == 16,
{
    (u32_of_be(s.subrange(12, 16)) as int + u32_of_be(s.subrange(8, 12)) as int * 0x1_0000_0000
        + u32_of_be(s.subrange(4, 8)) as int * 0x1_0000_0000_0000_0000 + u32_of_be(
        s.subrange(0, 4),
    ) as int * 0x1_0000_0000_0000_0000_0000_0000) as u128
}

#[verifier::spinoff_prover]
proof fn lemma_digits(x: u32)
    ensures
        x == x % 256 + ((x / 0x100) % 256) * 0x100 + ((x / 0x1_0000) % 256) * 0x1_0000 + (x
            / 0x100_0000) * 0x100_0000,
        x / 0x100_0000 < 256,
{
}

#[verifier::spinoff_prover]
proof fn lemma_undigits(b0: u8, b1: u8, b2: u8, b3: u8)
    ensures
        ({
            let x = b0 as int + b1 as int * 0x100 + b2 as int * 0x1_0000 + b3 as int * 0x100_0000;
            &&& 0 <= x < 0x1_0000_0000
            &&& x % 256 == b0
            &&& (x / 0x100) % 256 == b1
            &&& (x / 0x1_0000) % 256 == b2
            &&& x / 0x100_0000 == b3
        }),
{
    let x1 = b2 as int + 256 * (b3 as int);
    let x2 = b1 as int + 256 * x1;
    let x3 = b0 as int + 256 * x2;
    assert(x3 / 0x100 == x2);
    assert(x2 / 0x100 == x1);
    assert(x1 / 0x100 == b3);
    assert(x3 / 0x1_0000 == x1);
    assert(x3 / 0x100_0000 == b3);
}

#[verifier::spinoff_prover]
proof fn lemma_unwords(w0: u32, w1: u32, w2: u32, w3: u32)
    ensures
        ({
            let x = w0 as int + w1 as int * 0x1_0000_0000 + w2 as int * 0x1_0000_0000_0000_0000
                + w3 as int * 0x1_0000_0000_0000_0000_0000_0000;
            &&& 0 <= x < 0x1_0000_0000_0000_0000_0000_0000_0000_0000
            &&& x % 0x1_0000_0000 == w0
            &&& (x / 0x1_0000_0000) % 0x1_0000_0000 == w1
            &&& (x / 0x1_0000_0000_0000_0000) % 0x1_0000_0000 == w2
            &&& x / 0x1_0000_0000_0000_0000_0000_0000 == w3
        }),
{
    let x1 = w2 as int + 0x1_0000_0000 * (w3 as int);
    let x2 = w1 as int + 0x1_0000_0000 * x1;
    let x3 = w0 as int + 0x1_0000_0000 * x2;
    assert(x3 / 0x1_0000_0000 == x2);
    assert(x2 / 0x1_0000_0000 == x1);
    assert(x1 / 0x1_0000_0000 == w3);
    assert(x3 / 0x1_0000_0000_0000_0000 == x1);
    assert(x3 / 0x1_0000_0000_0000_0000_0000_0000 == w3);
}

#[verifier::spinoff_prover]
proof fn lemma_words(x: u128)
    ensures
        x == x % 0x1_0000_0000 + ((x / 0x1_0000_0000) % 0x1_0000_0000) * 0x1_0000_0000 + ((x
            / 0x1_0000_0000_0000_0000) % 0x1_0000_0000) * 0x1_0000_0000_0000_0000 + (x
            / 0x1_0000_0000_0000_0000_0000_0000) * 0x1_0000_0000_0000_0000_0000_0000,
        x / 0x1_0000_0000_0000_0000_0000_0000 < 0x1_0000_0000,
{
    let q1 = x / 0x1_0000_0000;
    let q2 = q1 / 0x1_0000_0000;
    let q3 = q2 / 0x1_0000_0000;
    assert(q2 == x / 0x1_0000_0000_0000_0000);
    assert(q3 == x / 0x1_0000_0000_0000_0000_0000_0000);
}

/// The two bytes of a number decode to the number.
#[verifier::spinoff_prover]
pub proof fn lemma_u16_le_value(x: u16)
    ensures
        u16_le(x).len() == 2,
        u16_of_le(u16_le(x)) == x,
{
}

/// Two bytes are the encoding of the number they decode to.
#[verifier::spinoff_prover]
pub proof fn lemma_u16_le_bytes(s: Seq<u8>)
    requires
        s.len() == 2,
    ensures
        u16_le(u16_of_le(s)) == s,
{
    assert(u16_le(u16_of_le(s)) =~= s);
}

/// The four bytes of a number, least significant first, decode to the number.
#[verifier::spinoff_prover]
pub proof fn lemma_u32_le_value(x: u32)
    ensures
        u32_le(x).len() == 4,
        u32_of_le(u32_le(x)) == x,
{
    lemma_digits(x);
}

/// Four bytes are the encoding, least significant first, of the number they decode to.
#[verifier::spinoff_prover]
pub proof fn lemma_u32_le_bytes(s: Seq<u8>)
    requires
        s.len() == 4,
    ensures
        u32_le(u32_of_le(s)) == s,
{
    lemma_undigits(s[0], s[1], s[2], s[3]);
    assert(u32_le(u32_of_le(s)) =~= s);
}

/// The four bytes of a number, most significant first, decode to the number.
#[verifier::spinoff_prover]
pub proof fn lemma_u32_be_value(x: u32)
    ensures
        u32_be(x).len() == 4,
        u32_of_be(u32_be(x)) == x,
{
    lemma_digits(x);
}

/// Four bytes are the encoding, most significant first, of the number they decode to.
#[verifier::spinoff_prover]
pub proof fn lemma_u32_be_bytes(s: Seq<u8>)
    requires
        s.len() == 4,
    ensures
        u32_be(u32_of_be(s)) == s,
{
    lemma_undigits(s[3], s[2], s[1], s[0]);
    assert(u32_be(u32_of_be(s)) =~= s);
}

/// The eight bytes of a number decode to the number.
#[verifier::spinoff_prover]
pub proof fn lemma_u64_le_value(x: u64)
    ensures
        u64_le(x).len() == 8,
        u64_of_le(u64_le(x)) == x,
{
    let lo = (x % 0x1_0000_0000) as u32;
    let hi = (x / 0x1_0000_0000) as u32;
    lemma_u32_le_value(lo);
    lemma_u32_le_value(hi);
    assert(u64_le(x).subrange(0, 4) =~= u32_le(lo));
    assert(u64_le(x).subrange(4, 8) =~= u32_le(hi));
    assert(x == lo as int + hi as int * 0x1_0000_0000);
}

#[verifier::spinoff_prover]
proof fn lemma_join_words(lo: u32, hi: u32)
    ensures
        0 <= lo + hi * 0x1_0000_0000 <= u64::MAX,
        (lo + hi * 0x1_0000_0000) % 0x1_0000_0000 == lo,
        (lo + hi * 0x1_0000_0000) / 0x1_0000_0000 == hi,
{
}

/// Eight bytes are the encoding of the number they decode to.
#[verifier::spinoff_prover]
#[verifier::rlimit(50)]
pub proof fn lemma_u64_le_bytes(s: Seq<u8>)
    requires
        s.len() == 8,
    ensures
        u64_le(u64_of_le(s)) == s,
{
    let a = s.subrange(0, 4);
    let b = s.subrange(4, 8);
    lemma_u32_le_bytes(a);
    lemma_u32_le_bytes(b);
    let lo = u32_of_le(a);
    let hi = u32_of_le(b);
    let v = u64_of_le(s);
    lemma_join_words(lo, hi);
    assert(v == lo + hi * 0x1_0000_0000);
    assert((v % 0x1_0000_0000) as u32 == lo);
    assert((v / 0x1_0000_0000) as u32 == hi);
    assert(u64_le(v) == u32_le(lo) + u32_le(hi));
    assert(u64_le(v) == a + b);
    assert(a + b =~= s);
}

/// The sixteen bytes of a number decode to the number.
#[verifier::spinoff_prover]
pub proof fn lemma_u128_be_value(x: u128)
    ensures
        u128_be(x).len() == 16,
        u128_of_be(u128_be(x)) == x,
{
    let d3 = (x / 0x1_0000_0000_0000_0000_0000_0000) as u32;
    let d2 = ((x / 0x1_0000_0000_0000_0000) % 0x1_0000_0000) as u32;
    let d1 = ((x / 0x1_0000_0000) % 0x1_0000_0000) as u32;
    let d0 = (x % 0x1_0000_0000) as u32;
    lemma_words(x);
    lemma_u32_be_value(d3);
    lemma_u32_be_value(d2);
    lemma_u32_be_value(d1);
    lemma_u32_be_value(d0);
    assert(u128_be(x).subrange(0, 4) =~= u32_be(d3));
    assert(u128_be(x).subrange(4, 8) =~= u32_be(d2));
    assert(u128_be(x).subrange(8, 12) =~= u32_be(d1));
    assert(u128_be(x).subrange(12, 16) =~= u32_be(d0));
}

/// Sixteen bytes are the encoding of the number they decode to.
#[verifier::spinoff_prover]
pub proof fn lemma_u128_be_bytes(s: Seq<u8>)
    requires
        s.len() == 16,
    ensures
        u128_be(u128_of_be(s)) == s,
{
    let a = s.subrange(0, 4);
    let b = s.subrange(4, 8);
    let c = s.subrange(8, 12);
    let d = s.subrange(12, 16);
    lemma_u32_be_bytes(a);
    lemma_u32_be_bytes(b);
    lemma_u32_be_bytes(c);
    lemma_u32_be_bytes(d);
    let v = u128_of_be(s);
    lemma_unwords(u32_of_be(d), u32_of_be(c), u32_of_be(b), u32_of_be(a));
    assert((v / 0x1_0000_0000_0000_0000_0000_0000) as u32 == u32_of_be(a));
    assert(((v / 0x1_0000_0000_0000_0000) % 0x1_0000_0000) as u32 == u32_of_be(b));
    assert(((v / 0x1_0000_0000) % 0x1_0000_0000) as u32 == u32_of_be(c));
    assert((v % 0x1_0000_0000) as u32 == u32_of_be(d));
    assert(u128_be(v) =~= a + b + c + d);
    assert(a + b + c + d =~= s);
}

/// Whether `n` bytes lie at position `pos` of `s`.
pub open spec fn has_bytes(s: Seq<u8>, pos: int, n: int) -> bool {
    0 <= pos && 0 <= n && pos + n <= s.len()
}

/// The byte at `pos`, and the position behind it.
pub open spec fn read_u8(s: Seq<u8>, pos: int) -> Option<(u8, int)> {
    if has_bytes(s, pos, 1) {
        Some((s[pos], pos + 1))
    } else {
        None
    }
}

/// The number in the two bytes at `pos`, and the position behind them.
pub open spec fn read_u16(s: Seq<u8>, pos: int) -> Option<(u16, int)> {
    if has_bytes(s, pos, 2) {
        Some((u16_of_le(s.subrange(pos, pos + 2)), pos + 2))
    } else {
        None
    }
}

/// The number in the four bytes at `pos`, and the position behind them.
pub open spec fn read_u32(s: Seq<u8>, pos: int) -> Option<(u32, int)> {
    if has_bytes(s, pos, 4) {
        Some((u32_of_le(s.subrange(pos, pos + 4)), pos + 4))
    } else {
        None
    }
}

/// The number in the eight bytes at `pos`, and the position behind them.
pub open spec fn read_u64(s: Seq<u8>, pos: int) -> Option<(u64, int)> {
    if has_bytes(s, pos, 8) {
        Some((u64_of_le(s.subrange(pos, pos + 8)), pos + 8))
    } else {
        None
    }
}

/// The number in the four bytes at `pos`, most significant first, and the
/// position behind them.
pub open spec fn read_u32_be(s: Seq<u8>, pos: int) -> Option<(u32, int)> {
    if has_bytes(s, pos, 4) {
        Some((u32_of_be(s.subrange(pos, pos + 4)), pos + 4))
    } else {
        None
    }
}

/// The number in the sixteen bytes at `pos`, most significant first, and
/// the position behind them.
pub open spec fn read_u128_be(s: Seq<u8>, pos: int) -> Option<(u128, int)> {
    if has_bytes(s, pos, 16) {
        Some((u128_of_be(s.subrange(pos, pos + 16)), pos + 16))
    } else {
        None
    }
}

/// A byte string behind its length, the length as eight bytes.
pub open spec fn bytes_wire(b: Seq<u8>) -> Seq<u8> {
    u64_le(b.len() as u64) + b
}

/// The byte string at `pos`: a length, and that many bytes behind it.
pub open spec fn read_bytes(s: Seq<u8>, pos: int) -> Option<(Seq<u8>, int)> {
    match read_u64(s, pos) {
        Some((n, p)) => if has_bytes(s, p, n as int) {
            Some((s.subrange(p, p + n), p + n))
        } else {
            None
        },
        None => None,
    }
}

/// The encodings of the numbers of `v`, one after the other.
pub open spec fn u32s_le(v: Seq<u32>) -> Seq<u8> {
    Seq::new(4 * v.len(), |i: int| u32_le(v[i / 4])[i % 4])
}

/// A list of numbers behind its length, the length as eight bytes.
pub open spec fn u32s_wire(v: Seq<u32>) -> Seq<u8> {
    u64_le(v.len() as u64) + u32s_le(v)
}

/// The list of numbers at `pos`: a count, and that many numbers behind it.
pub open spec fn read_u32s(s: Seq<u8>, pos: int) -> Option<(Seq<u32>, int)> {
    match read_u64(s, pos) {
        Some((n, p)) => if has_bytes(s, p, 4 * n) {
            Some((Seq::new(n as nat, |i: int| u32_of_le(s.subrange(p + 4 * i, p + 4 * i + 4))), p + 4 * n))
        } else {
            None
        },
        None => None,
    }
}

/// A text behind the length of its UTF-8 form, the length as eight bytes.
pub open spec fn text_wire(t: Seq<char>) -> Seq<u8> {
    bytes_wire(encode_utf8(t))
}

/// The text at `pos`: a length, and that many bytes of valid UTF-8 behind it.
pub open spec fn read_text(s: Seq<u8>, pos: int) -> Option<(Seq<char>, int)> {
    match read_bytes(s, pos) {
        Some((b, p)) => if valid_utf8(b) {
            Some((decode_utf8(b), p))
        } else {
            None
        },
        None => None,
    }
}

/// What an executable read returned agrees with what the bytes hold.
pub open spec fn agrees<T>(got: Option<(T, usize)>, held: Option<(T, int)>) -> bool {
    match got {
        Some((v, p)) => held == Some((v, p as int)),
        None => held is None,
    }
}

pub fn put_u16(out: &mut Vec<u8>, x: u16)
    ensures
        final(out)@ == old(out)@ + u16_le(x),
{
    out.push((x % 256) as u8);
    out.push((x / 256) as u8);
    assert(out@ =~= old(out)@ + u16_le(x));
}

pub fn put_u32(out: &mut Vec<u8>, x: u32)
    ensures
        final(out)@ == old(out)@ + u32_le(x),
{
    out.push((x % 256) as u8);
    out.push(((x / 0x100) % 256) as u8);
    out.push(((x / 0x1_0000) % 256) as u8);
    out.push((x / 0x100_0000) as u8);
    assert(out@ =~= old(out)@ + u32_le(x));
}

pub fn put_u64(out: &mut Vec<u8>, x: u64)
    ensures
        final(out)@ == old(out)@ + u64_le(x),
{
    put_u32(out, (x % 0x1_0000_0000) as u32);
    put_u32(out, (x / 0x1_0000_0000) as u32);
    assert(out@ =~= old(out)@ + u64_le(x));
}

pub fn put_u32_be(out: &mut Vec<u8>, x: u32)
    ensures
        final(out)@ == old(out)@ + u32_be(x),
{
    out.push((x / 0x100_0000) as u8);
    out.push(((x / 0x1_0000) % 256) as u8);
    out.push(((x / 0x100) % 256) as u8);
    out.push((x % 256) as u8);
    assert(out@ =~= old(out)@ + u32_be(x));
}

pub fn put_u128_be(out: &mut Vec<u8>, x: u128)
    ensures
        final(out)@ == old(out)@ + u128_be(x),
{
    put_u32_be(out, (x / 0x1_0000_0000_0000_0000_0000_0000) as u32);
    put_u32_be(out, ((x / 0x1_0000_0000_0000_0000) % 0x1_0000_0000) as u32);
    put_u32_be(out, ((x / 0x1_0000_0000) % 0x1_0000_0000) as u32);
    put_u32_be(out, (x % 0x1_0000_0000) as u32);
    assert(out@ =~= old(out)@ + u128_be(x));
}

/// Appends `b` behind its length.
pub fn put_bytes(out: &mut Vec<u8>, b: &[u8])
    ensures
        final(out)@ == old(out)@ + bytes_wire(b@),
{
    put_u64(out, b.len() as u64);
    out.extend_from_slice(b);
    assert(out@ =~= old(out)@ + bytes_wire(b@));
}

/// Appends the numbers of `v` behind their count.
pub fn put_u32s(out: &mut Vec<u8>, v: &Vec<u32>)
    ensures
        final(out)@ == old(out)@ + u32s_wire(v@),
{
    put_u64(out, v.len() as u64);
    let ghost head = out@;
    let mut i: usize = 0;
    while i < v.len()
        invariant
            i <= v@.len(),
            out@ == head + u32s_le(v@.take(i as int)),
        decreases v@.len() - i,
    {
        let ghost before = out@;
        put_u32(out, v[i]);
        proof {
            lemma_u32_le_value(v@[i as int]);
            assert(u32s_le(v@.take(i + 1)) =~= u32s_le(v@.take(i as int)) + u32_le(v@[i as int]));
            assert(out@ =~= head + u32s_le(v@.take(i + 1)));
        }
        i += 1;
    }
    assert(v@.take(v@.len() as int) =~= v@);
    assert(out@ =~= old(out)@ + u32s_wire(v@));
}

pub fn get_u8(data: &[u8], pos: usize) -> (r: Option<(u8, usize)>)
    ensures
        agrees(r, read_u8(data@, pos as int)),
{
    if pos < data.len() {
        Some((data[pos], pos + 1))
    } else {
        None
    }
}

pub fn get_u16(data: &[u8], pos: usize) -> (r: Option<(u16, usize)>)
    ensures
        agrees(r, read_u16(data@, pos as int)),
{
    if pos <= data.len() && data.len() - pos >= 2 {
        let v: u16 = data[pos] as u16 + data[pos + 1] as u16 * 256;
        Some((v, pos + 2))
    } else {
        None
    }
}

pub fn get_u32(data: &[u8], pos: usize) -> (r: Option<(u32, usize)>)
    ensures
        agrees(r, read_u32(data@, pos as int)),
{
    if pos <= data.len() && data.len() - pos >= 4 {
        let v: u32 = data[pos] as u32 + data[pos + 1] as u32 * 0x100 + data[pos + 2] as u32
            * 0x1_0000 + data[pos + 3] as u32 * 0x100_0000;
        Some((v, pos + 4))
    } else {
        None
    }
}

pub fn get_u64(data: &[u8], pos: usize) -> (r: Option<(u64, usize)>)
    ensures
        agrees(r, read_u64(data@, pos as int)),
{
    if pos <= data.len() && data.len() - pos >= 8 {
        let lo = get_u32(data, pos).unwrap().0;
        let hi = get_u32(data, pos + 4).unwrap().0;
        proof {
            let s = data@.subrange(pos as int, pos + 8);
            assert(s.subrange(0, 4) =~= data@.subrange(pos as int, pos + 4));
            assert(s.subrange(4, 8) =~= data@.subrange(pos + 4, pos + 8));
        }
        Some((lo as u64 + hi as u64 * 0x1_0000_0000, pos + 8))
    } else {
        None
    }
}

pub fn get_u32_be(data: &[u8], pos: usize) -> (r: Option<(u32, usize)>)
    ensures
        agrees(r, read_u32_be(data@, pos as int)),
{
    if pos <= data.len() && data.len() - pos >= 4 {
        let v: u32 = data[pos + 3] as u32 + data[pos + 2] as u32 * 0x100 + data[pos + 1] as u32
            * 0x1_0000 + data[pos] as u32 * 0x100_0000;
        Some((v, pos + 4))
    } else {
        None
    }
}

pub fn get_u128_be(data: &[u8], pos: usize) -> (r: Option<(u128, usize)>)
    ensures
        agrees(r, read_u128_be(data@, pos as int)),
{
    if pos <= data.len() && data.len() - pos >= 16 {
        let w3 = get_u32_be(data, pos).unwrap().0;
        let w2 = get_u32_be(data, pos + 4).unwrap().0;
        let w1 = get_u32_be(data, pos + 8).unwrap().0;
        let w0 = get_u32_be(data, pos + 12).unwrap().0;
        proof {
            let s = data@.subrange(pos as int, pos + 16);
            assert(s.subrange(0, 4) =~= data@.subrange(pos as int, pos + 4));
            assert(s.subrange(4, 8) =~= data@.subrange(pos + 4, pos + 8));
            assert(s.subrange(8, 12) =~= data@.subrange(pos + 8, pos + 12));
            assert(s.subrange(12, 16) =~= data@.subrange(pos + 12, pos + 16));
        }
        let v: u128 = w0 as u128 + w1 as u128 * 0x1_0000_0000 + w2 as u128
            * 0x1_0000_0000_0000_0000 + w3 as u128 * 0x1_0000_0000_0000_0000_0000_0000;
        Some((v, pos + 16))
    } else {
        None
    }
}

/// Reads a length and that many bytes.
pub fn get_bytes(data: &[u8], pos: usize) -> (r: Option<(Vec<u8>, usize)>)
    ensures
        match r {
            Some((b, p)) => read_bytes(data@, pos as int) == Some((b@, p as int)),
            None => read_bytes(data@, pos as int) is None,
        },
{
    match get_u64(data, pos) {
        Some((n, p)) => {
            if n <= (data.len() - p) as u64 {
                let end: usize = p + n as usize;
                let b = slice_to_vec(slice_subrange(data, p, end));
                Some((b, end))
            } else {
                None
            }
        },
        None => None,
    }
}

/// Reads a count and that many numbers.
pub fn get_u32s(data: &[u8], pos: usize) -> (r: Option<(Vec<u32>, usize)>)
    ensures
        match r {
            Some((v, p)) => read_u32s(data@, pos as int) == Some((v@, p as int)),
            None => read_u32s(data@, pos as int) is None,
        },
{
    match get_u64(data, pos) {
        Some((n, p)) => {
            if n <= ((data.len() - p) / 4) as u64 {
                let count: usize = n as usize;
                let mut v: Vec<u32> = Vec::new();
                let mut i: usize = 0;
                while i < count
                    invariant
                        i <= count,
                        p + 4 * count <= data@.len(),
                        data@.len() <= usize::MAX,
                        v@ == Seq::new(
                            i as nat,
                            |k: int| u32_of_le(data@.subrange(p + 4 * k, p + 4 * k + 4)),
                        ),
                    decreases count - i,
                {
                    let x = get_u32(data, p + 4 * i).unwrap().0;
                    v.push(x);
                    assert(v@ =~= Seq::new(
                        (i + 1) as nat,
                        |k: int| u32_of_le(data@.subrange(p + 4 * k, p + 4 * k + 4)),
                    ));
                    i += 1;
                }
                Some((v, p + 4 * count))
            } else {
                None
            }
        },
        None => None,
    }
}

/// `String::from_utf8` of std: the text whose UTF-8 form is `bytes`, or
/// nothing where `bytes` is not valid UTF-8.
#[verifier::external_body]
fn text_from_utf8(bytes: Vec<u8>) -> (r: Option<String>)
    ensures
        match r {
            Some(t) => valid_utf8(bytes@) && encode_utf8(t@) == bytes@,
            None => !valid_utf8(bytes@),
        },
{
    String::from_utf8(bytes).ok()
}

/// Reads a length and that many bytes of UTF-8.
pub fn get_text(data: &[u8], pos: usize) -> (r: Option<(String, usize)>)
    ensures
        match r {
            Some((t, p)) => read_text(data@, pos as int) == Some((t@, p as int)),
            None => read_text(data@, pos as int) is None,
        },
{
    match get_bytes(data, pos) {
        Some((b, p)) => {
            let ghost bytes = b@;
            match text_from_utf8(b) {
                Some(t) => {
                    proof {
                        encode_utf8_decode_utf8(t@);
                    }
                    Some((t, p))
                },
                None => None,
            }
        },
        None => None,
    }
}

/// Appends the UTF-8 form of `t` behind its length.
pub fn put_text(out: &mut Vec<u8>, t: &str)
    ensures
        final(out)@ == old(out)@ + text_wire(t@),
{
    put_bytes(out, t.as_bytes());
}

/// Whether `part` lies in `s` at position `pos`.
pub open spec fn holds_at(s: Seq<u8>, pos: int, part: Seq<u8>) -> bool {
    has_bytes(s, pos, part.len() as int) && s.subrange(pos, pos + part.len()) == part
}

/// Two parts lie one behind the other exactly where their concatenation lies.
pub proof fn lemma_holds_concat(s: Seq<u8>, pos: int, a: Seq<u8>, b: Seq<u8>)
    ensures
        holds_at(s, pos, a + b) <==> holds_at(s, pos, a) && holds_at(s, pos + a.len(), b),
{
    if holds_at(s, pos, a + b) {
        assert(s.subrange(pos, pos + a.len()) =~= (a + b).subrange(0, a.len() as int));
        assert((a + b).subrange(0, a.len() as int) =~= a);
        assert(s.subrange(pos + a.len(), pos + a.len() + b.len()) =~= (a + b).subrange(
            a.len() as int,
            (a + b).len() as int,
        ));
        assert((a + b).subrange(a.len() as int, (a + b).len() as int) =~= b);
    }
    if holds_at(s, pos, a) && holds_at(s, pos + a.len(), b) {
        assert(s.subrange(pos, pos + a.len() + b.len()) =~= s.subrange(pos, pos + a.len())
            + s.subrange(pos + a.len(), pos + a.len() + b.len()));
    }
}

/// A byte string is where it stands: the whole of `s` is what lies at 0, and
/// what lies at 0 with the length of `s` is `s`.
pub proof fn lemma_holds_whole(s: Seq<u8>, part: Seq<u8>)
    ensures
        holds_at(s, 0, part) && part.len() == s.len() <==> s == part,
{
    if holds_at(s, 0, part) && part.len() == s.len() {
        assert(s.subrange(0, s.len() as int) =~= s);
    }
    if s == part {
        assert(s.subrange(0, s.len() as int) =~= s);
    }
}

/// A read yields `x` exactly where the byte `x` lies.
pub proof fn lemma_read_u8(s: Seq<u8>, pos: int, x: u8)
    ensures
        read_u8(s, pos) == Some((x, pos + 1)) <==> holds_at(s, pos, seq![x]),
        read_u8(s, pos) matches Some((got, p)) ==> p == pos + 1,
{
    if has_bytes(s, pos, 1) {
        assert(s.subrange(pos, pos + 1) =~= seq![s[pos]]);
        assert(seq![x][0] == x);
    }
}

/// A read yields `x` exactly where the encoding of `x` lies.
pub proof fn lemma_read_u16(s: Seq<u8>, pos: int, x: u16)
    ensures
        read_u16(s, pos) == Some((x, pos + 2)) <==> holds_at(s, pos, u16_le(x)),
        read_u16(s, pos) matches Some((got, p)) ==> p == pos + 2,
{
    lemma_u16_le_value(x);
    if has_bytes(s, pos, 2) {
        lemma_u16_le_bytes(s.subrange(pos, pos + 2));
    }
}

/// A read yields `x` exactly where the encoding of `x` lies.
pub proof fn lemma_read_u32(s: Seq<u8>, pos: int, x: u32)
    ensures
        read_u32(s, pos) == Some((x, pos + 4)) <==> holds_at(s, pos, u32_le(x)),
        read_u32(s, pos) matches Some((got, p)) ==> p == pos + 4,
{
    lemma_u32_le_value(x);
    if has_bytes(s, pos, 4) {
        lemma_u32_le_bytes(s.subrange(pos, pos + 4));
    }
}

/// A read yields `x` exactly where the encoding of `x` lies.
pub proof fn lemma_read_u64(s: Seq<u8>, pos: int, x: u64)
    ensures
        read_u64(s, pos) == Some((x, pos + 8)) <==> holds_at(s, pos, u64_le(x)),
        read_u64(s, pos) matches Some((got, p)) ==> p == pos + 8,
{
    lemma_u64_le_value(x);
    if has_bytes(s, pos, 8) {
        lemma_u64_le_bytes(s.subrange(pos, pos + 8));
    }
}

/// A read yields `x` exactly where the encoding of `x` lies.
pub proof fn lemma_read_u32_be(s: Seq<u8>, pos: int, x: u32)
    ensures
        read_u32_be(s, pos) == Some((x, pos + 4)) <==> holds_at(s, pos, u32_be(x)),
        read_u32_be(s, pos) matches Some((got, p)) ==> p == pos + 4,
{
    lemma_u32_be_value(x);
    if has_bytes(s, pos, 4) {
        lemma_u32_be_bytes(s.subrange(pos, pos + 4));
    }
}

/// A read yields `x` exactly where the encoding of `x` lies.
pub proof fn lemma_read_u128_be(s: Seq<u8>, pos: int, x: u128)
    ensures
        read_u128_be(s, pos) == Some((x, pos + 16)) <==> holds_at(s, pos, u128_be(x)),
        read_u128_be(s, pos) matches Some((got, p)) ==> p == pos + 16,
{
    lemma_u128_be_value(x);
    if has_bytes(s, pos, 16) {
        lemma_u128_be_bytes(s.subrange(pos, pos + 16));
    }
}

/// A read of a length-prefixed byte string yields `b` exactly where the
/// encoding of `b` lies.
pub proof fn lemma_read_bytes(s: Seq<u8>, pos: int, b: Seq<u8>)
    requires
        b.len() <= u64::MAX,
    ensures
        read_bytes(s, pos) == Some((b, pos + 8 + b.len())) <==> holds_at(s, pos, bytes_wire(b)),
        read_bytes(s, pos) matches Some((got, p)) ==> p == pos + 8 + got.len() && got.len()
            <= u64::MAX,
{
    let n = b.len() as u64;
    lemma_u64_le_value(n);
    lemma_read_u64(s, pos, n);
    lemma_holds_concat(s, pos, u64_le(n), b);
    if read_bytes(s, pos) == Some((b, pos + 8 + b.len())) {
        let m = read_u64(s, pos).unwrap().0;
        assert(s.subrange(pos + 8, pos + 8 + m).len() == m);
    }
}

/// The encodings of a list's numbers take four bytes each.
pub proof fn lemma_u32s_le(v: Seq<u32>, i: int)
    requires
        0 <= i < v.len(),
    ensures
        u32s_le(v).len() == 4 * v.len(),
        u32s_le(v).subrange(4 * i, 4 * i + 4) == u32_le(v[i]),
{
    lemma_u32_le_value(v[i]);
    assert(u32s_le(v).subrange(4 * i, 4 * i + 4) =~= u32_le(v[i]));
}

/// A read of a counted list of numbers yields `v` exactly where the encoding
/// of `v` lies.
pub proof fn lemma_read_u32s(s: Seq<u8>, pos: int, v: Seq<u32>)
    requires
        v.len() <= u64::MAX,
    ensures
        read_u32s(s, pos) == Some((v, pos + 8 + 4 * v.len())) <==> holds_at(s, pos, u32s_wire(v)),
        read_u32s(s, pos) matches Some((got, p)) ==> p == pos + 8 + 4 * got.len() && got.len()
            <= u64::MAX,
{
    let n = v.len() as u64;
    lemma_u64_le_value(n);
    lemma_read_u64(s, pos, n);
    lemma_holds_concat(s, pos, u64_le(n), u32s_le(v));
    let p = pos + 8;
    if holds_at(s, pos, u32s_wire(v)) {
        let got = Seq::new(n as nat, |i: int| u32_of_le(s.subrange(p + 4 * i, p + 4 * i + 4)));
        assert forall|i: int| 0 <= i < v.len() implies got[i] == v[i] by {
            lemma_u32s_le(v, i);
            assert(s.subrange(p + 4 * i, p + 4 * i + 4) =~= s.subrange(p, p + 4 * v.len()).subrange(
                4 * i,
                4 * i + 4,
            ));
            lemma_u32_le_value(v[i]);
        }
        assert(got =~= v);
    }
    if read_u32s(s, pos) == Some((v, pos + 8 + 4 * v.len())) {
        assert(read_u64(s, pos).unwrap().0 == n);
        let part = s.subrange(p, p + 4 * v.len());
        assert forall|k: int| 0 <= k < 4 * v.len() implies part[k] == u32s_le(v)[k] by {
            let i = k / 4;
            let chunk = s.subrange(p + 4 * i, p + 4 * i + 4);
            lemma_u32_le_bytes(chunk);
            assert(v[i] == u32_of_le(chunk));
            assert(chunk[k % 4] == s[p + k]);
        }
        assert(part =~= u32s_le(v));
    }
}

/// A read of a length-prefixed text yields `t` exactly where the encoding of
/// `t` lies.
pub proof fn lemma_read_text(s: Seq<u8>, pos: int, t: Seq<char>)
    requires
        encode_utf8(t).len() <= u64::MAX,
    ensures
        read_text(s, pos) == Some((t, pos + 8 + encode_utf8(t).len())) <==> holds_at(
            s,
            pos,
            text_wire(t),
        ),
        read_text(s, pos) matches Some((got, p)) ==> p == pos + 8 + encode_utf8(got).len()
            && encode_utf8(got).len() <= u64::MAX,
{
    let b = encode_utf8(t);
    lemma_read_bytes(s, pos, b);
    encode_utf8_valid_utf8(t);
    encode_utf8_decode_utf8(t);
    match read_bytes(s, pos) {
        Some((got, p)) => {
            lemma_read_bytes(s, pos, got);
            if valid_utf8(got) {
                decode_utf8_encode_utf8(got);
            }
        },
        None => {},
    }
}

/// Whether two byte strings are the same.
pub fn same_bytes(a: &[u8], b: &[u8]) -> (r: bool)
    ensures
        r == (a@ == b@),
{
    if a.len() != b.len() {
        return false;
    }
    let mut i: usize = 0;
    while i < a.len()
        invariant
            a@.len() == b@.len(),
            i <= a@.len(),
            forall|k: int| 0 <= k < i ==> a@[k] == b@[k],
        decreases a@.len() - i,
    {
        if a[i] != b[i] {
            return false;
        }
        i += 1;
    }
    assert(a@ =~= b@);
    true
}

} // verus!
