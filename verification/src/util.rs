//! Protocol-agnostic helpers: Base64, random bytes, big-endian integers, and
//! copies between slices and fixed-size arrays.

use vstd::prelude::*;
use vstd::slice::*;

use crate::base64_text;
use crate::crypto::{base64_decode, base64_encode, os_random};

verus! {

/// The two big-endian bytes of `n`.
pub open spec fn be16(n: int) -> Seq<u8> {
    seq![(n / 0x100 % 0x100) as u8, (n % 0x100) as u8]
}

/// The four big-endian bytes of `n`.
pub open spec fn be32(n: int) -> Seq<u8> {
    seq![
        (n / 0x100_0000 % 0x100) as u8,
        (n / 0x1_0000 % 0x100) as u8,
        (n / 0x100 % 0x100) as u8,
        (n % 0x100) as u8,
    ]
}

/// The number that four big-endian bytes stand for.
pub open spec fn be32_value(s: Seq<u8>) -> int {
    s[0] * 0x100_0000 + s[1] * 0x1_0000 + s[2] * 0x100 + s[3]
}

/// The eight big-endian bytes of `n`.
pub open spec fn be64(n: int) -> Seq<u8> {
    be32(n / 0x1_0000_0000) + be32(n % 0x1_0000_0000)
}

/// The number that eight big-endian bytes stand for.
pub open spec fn be64_value(s: Seq<u8>) -> int {
    be32_value(s.take(4)) * 0x1_0000_0000 + be32_value(s.skip(4))
}

/// The base-256 digits of a number.
proof fn lemma_digits(a: int, b: int, c: int, d: int)
    requires
        0 <= a < 0x100,
        0 <= b < 0x100,
        0 <= c < 0x100,
        0 <= d < 0x100,
    ensures
        ({
            let n = a * 0x100_0000 + b * 0x1_0000 + c * 0x100 + d;
            &&& n / 0x100_0000 % 0x100 == a
            &&& n / 0x1_0000 % 0x100 == b
            &&& n / 0x100 % 0x100 == c
            &&& n % 0x100 == d
            &&& 0 <= n < 0x1_0000_0000
        }),
{
    let n = a * 0x100_0000 + b * 0x1_0000 + c * 0x100 + d;
    assert(n / 0x100_0000 == a);
    assert(n / 0x1_0000 == a * 0x100 + b);
    assert(n / 0x100 == a * 0x1_0000 + b * 0x100 + c);
}

/// A number is the sum of its base-256 digits.
proof fn lemma_digit_sum(n: int)
    requires
        0 <= n < 0x1_0000_0000,
    ensures
        (n / 0x100_0000 % 0x100) * 0x100_0000 + (n / 0x1_0000 % 0x100) * 0x1_0000 + (n / 0x100
            % 0x100) * 0x100 + n % 0x100 == n,
{
    let q1 = n / 0x100;
    let q2 = n / 0x1_0000;
    let q3 = n / 0x100_0000;
    assert(q1 / 0x100 == q2);
    assert(q2 / 0x100 == q3);
    assert(q3 % 0x100 == q3);
    assert(q2 == q3 * 0x100 + q2 % 0x100);
    assert(q1 == q2 * 0x100 + q1 % 0x100);
    assert(n == q1 * 0x100 + n % 0x100);
}

/// Four bytes and the number that they stand for determine each other.
pub proof fn lemma_be32(n: int, s: Seq<u8>)
    ensures
        be32(n).len() == 4,
        0 <= n < 0x1_0000_0000 ==> be32_value(be32(n)) == n,
        s.len() == 4 ==> be32(be32_value(s)) == s && 0 <= be32_value(s) < 0x1_0000_0000,
{
    if 0 <= n < 0x1_0000_0000 {
        lemma_digit_sum(n);
    }
    if s.len() == 4 {
        lemma_digits(s[0] as int, s[1] as int, s[2] as int, s[3] as int);
        assert(be32(be32_value(s)) =~= s);
    }
}

/// Eight bytes and the number that they stand for determine each other.
pub proof fn lemma_be64(n: int, s: Seq<u8>)
    ensures
        be64(n).len() == 8,
        0 <= n < 0x1_0000_0000_0000_0000 ==> be64_value(be64(n)) == n,
        s.len() == 8 ==> be64(be64_value(s)) == s && 0 <= be64_value(s) < 0x1_0000_0000_0000_0000,
{
    lemma_be32(n / 0x1_0000_0000, s.take(4));
    lemma_be32(n % 0x1_0000_0000, s.skip(4));
    assert(be64(n).take(4) =~= be32(n / 0x1_0000_0000));
    assert(be64(n).skip(4) =~= be32(n % 0x1_0000_0000));
    if s.len() == 8 {
        let hi = be32_value(s.take(4));
        let lo = be32_value(s.skip(4));
        assert(be64_value(s) / 0x1_0000_0000 == hi);
        assert(be64_value(s) % 0x1_0000_0000 == lo);
        assert(s =~= s.take(4) + s.skip(4));
    }
}

/// The four big-endian bytes of a number.
pub fn be_bytes(x: u32) -> (r: [u8; 4])
    ensures
        r@ == be32(x as int),
{
    let r: [u8; 4] = [
        (x / 0x100_0000) as u8,
        (x / 0x1_0000 % 0x100) as u8,
        (x / 0x100 % 0x100) as u8,
        (x % 0x100) as u8,
    ];
    assert(r@ =~= be32(x as int));
    r
}

/// The eight big-endian bytes of a number.
pub fn be_bytes_64(x: u64) -> (r: [u8; 8])
    ensures
        r@ == be64(x as int),
{
    let hi: [u8; 4] = be_bytes((x / 0x1_0000_0000) as u32);
    let lo: [u8; 4] = be_bytes((x % 0x1_0000_0000) as u32);
    let r: [u8; 8] = [hi[0], hi[1], hi[2], hi[3], lo[0], lo[1], lo[2], lo[3]];
    assert(r@ =~= be64(x as int));
    r
}

/// The number that the first four bytes of `buf` stand for.
pub fn be_value(buf: &[u8]) -> (r: u32)
    requires
        buf@.len() >= 4,
    ensures
        r == be32_value(buf@.take(4)),
{
    buf[0] as u32 * 0x100_0000 + buf[1] as u32 * 0x1_0000 + buf[2] as u32 * 0x100 + buf[3] as u32
}

/// The number that the first eight bytes of `buf` stand for.
pub fn be_value_64(buf: &[u8]) -> (r: u64)
    requires
        buf@.len() >= 8,
    ensures
        r == be64_value(buf@.take(8)),
{
    let hi: u32 = be_value(buf);
    let lo: u32 = be_value(slice_subrange(buf, 4, 8));
    proof {
        assert(buf@.take(8).take(4) =~= buf@.take(4));
        assert(buf@.take(8).skip(4) =~= buf@.subrange(4, 8));
        assert(buf@.subrange(4, 8).take(4) =~= buf@.subrange(4, 8));
    }
    hi as u64 * 0x1_0000_0000 + lo as u64
}

/// Encodes bytes as Base64 with the standard alphabet and padding.
pub fn b64e(x: &[u8]) -> (text: String)
    ensures
        text@ == base64_text::b64(x@),
{
    base64_encode(x)
}

/// Decodes Base64 text. White space is not tolerated, padding is required, and
/// anything but the encoding of some byte string is an error.
pub fn b64d(s: &str) -> (data: Result<Vec<u8>, ()>)
    ensures
        match data {
            Ok(d) => base64_text::b64_bytes(s@) == Some(d@),
            Err(_) => base64_text::b64_bytes(s@) is None,
        },
{
    let data: Result<Vec<u8>, ()> = base64_decode(s);
    proof {
        if data is Ok {
            base64_text::lemma_b64_roundtrip(data->Ok_0@);
        }
    }
    data
}

/// Random bytes from the operating system, for salts, nonces and keys.
pub fn random_bytes(n: usize) -> (v: Vec<u8>)
    ensures
        v@.len() == n,
{
    os_random(n)
}

/// Only the lower 32 bits of a number reach its four bytes.
proof fn lemma_be32_low(n: int)
    requires
        n >= 0,
    ensures
        be32(n % 0x1_0000_0000) == be32(n),
{
    let q = n / 0x1_0000_0000;
    let r = n % 0x1_0000_0000;
    assert(n / 0x100_0000 == q * 0x100 + r / 0x100_0000) by {
        assert(n == q * 0x1_0000_0000 + r);
    }
    assert(n / 0x1_0000 == q * 0x1_0000 + r / 0x1_0000) by {
        assert(n == q * 0x1_0000_0000 + r);
    }
    assert(n / 0x100 == q * 0x100_0000 + r / 0x100) by {
        assert(n == q * 0x1_0000_0000 + r);
    }
    assert((q * 0x100 + r / 0x100_0000) % 0x100 == r / 0x100_0000 % 0x100);
    assert((q * 0x1_0000 + r / 0x1_0000) % 0x100 == r / 0x1_0000 % 0x100);
    assert((q * 0x100_0000 + r / 0x100) % 0x100 == r / 0x100 % 0x100);
    assert(n % 0x100 == r % 0x100);
    assert(be32(r) =~= be32(n));
}

/// The four big-endian bytes of the lower 32 bits of a number.
pub fn be_u32(x: usize) -> (r: [u8; 4])
    ensures
        r@ == be32(x as int),
{
    let low: u64 = x as u64 % 0x1_0000_0000;
    proof {
        lemma_be32_low(x as int);
    }
    be_bytes(low as u32)
}

/// Reads a big-endian 32-bit number at `*off` and moves `*off` past it. Fails,
/// and leaves `*off` alone, where fewer than four bytes remain.
pub fn read_be_u32(buf: &[u8], off: &mut usize) -> (n: Result<usize, ()>)
    ensures
        n is Ok <==> *old(off) + 4 <= buf@.len(),
        n is Err ==> *final(off) == *old(off),
        n matches Ok(v) ==> {
            &&& v == be32_value(buf@.subrange(*old(off) as int, *old(off) + 4))
            &&& *final(off) == *old(off) + 4
        },
{
    let at: usize = *off;
    if at > buf.len() || buf.len() - at < 4 {
        return Err(());
    }
    let v: u32 = be_value(slice_subrange(buf, at, at + 4));
    assert(buf@.subrange(at as int, at + 4).take(4) =~= buf@.subrange(at as int, at + 4));
    *off = at + 4;
    Ok(v as usize)
}

/// The bytes of a slice as a 32-byte array.
pub fn array_32(s: &[u8]) -> (a: [u8; 32])
    requires
        s@.len() == 32,
    ensures
        a@ == s@,
{
    let mut a: [u8; 32] = [0u8; 32];
    let mut i: usize = 0;
    while i < 32
        invariant
            i <= 32,
            s@.len() == 32,
            forall|j: int| 0 <= j < i ==> a@[j] == s@[j],
        decreases 32 - i,
    {
        a[i] = s[i];
        i = i + 1;
    }
    assert(a@ =~= s@);
    a
}

/// The bytes of a slice as a 24-byte array.
pub fn array_24(s: &[u8]) -> (a: [u8; 24])
    requires
        s@.len() == 24,
    ensures
        a@ == s@,
{
    let mut a: [u8; 24] = [0u8; 24];
    let mut i: usize = 0;
    while i < 24
        invariant
            i <= 24,
            s@.len() == 24,
            forall|j: int| 0 <= j < i ==> a@[j] == s@[j],
        decreases 24 - i,
    {
        a[i] = s[i];
        i = i + 1;
    }
    assert(a@ =~= s@);
    a
}

/// The bytes of a slice as a 12-byte array.
pub fn array_12(s: &[u8]) -> (a: [u8; 12])
    requires
        s@.len() == 12,
    ensures
        a@ == s@,
{
    let mut a: [u8; 12] = [0u8; 12];
    let mut i: usize = 0;
    while i < 12
        invariant
            i <= 12,
            s@.len() == 12,
            forall|j: int| 0 <= j < i ==> a@[j] == s@[j],
        decreases 12 - i,
    {
        a[i] = s[i];
        i = i + 1;
    }
    assert(a@ =~= s@);
    a
}

/// The bytes of a slice as a 64-byte array.
pub fn array_64(s: &[u8]) -> (a: [u8; 64])
    requires
        s@.len() == 64,
    ensures
        a@ == s@,
{
    let mut a: [u8; 64] = [0u8; 64];
    let mut i: usize = 0;
    while i < 64
        invariant
            i <= 64,
            s@.len() == 64,
            forall|j: int| 0 <= j < i ==> a@[j] == s@[j],
        decreases 64 - i,
    {
        a[i] = s[i];
        i = i + 1;
    }
    assert(a@ =~= s@);
    a
}

} // verus!
