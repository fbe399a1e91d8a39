//! What the standard Base64 alphabet makes of a byte string.

use vstd::prelude::*;

verus! {

/// The symbol of six bits.
pub open spec fn b64_symbol(v: int) -> char {
    if v < 26 {
        (0x41 + v) as char
    } else if v < 52 {
        (0x61 + v - 26) as char
    } else if v < 62 {
        (0x30 + v - 52) as char
    } else if v == 62 {
        '+'
    } else {
        '/'
    }
}

/// The four symbols of three bytes.
pub open spec fn b64_quad(a: u8, b: u8, c: u8) -> Seq<char> {
    seq![
        b64_symbol(a as int / 4),
        b64_symbol((a as int % 4) * 16 + b as int / 16),
        b64_symbol((b as int % 16) * 4 + c as int / 64),
        b64_symbol(c as int % 64),
    ]
}

/// Base64 (standard alphabet, padded) of `data`.
pub open spec fn b64(data: Seq<u8>) -> Seq<char>
    decreases data.len(),
{
    if data.len() == 0 {
        seq![]
    } else if data.len() == 1 {
        b64_quad(data[0], 0, 0).take(2) + seq!['=', '=']
    } else if data.len() == 2 {
        b64_quad(data[0], data[1], 0).take(3) + seq!['=']
    } else {
        b64_quad(data[0], data[1], data[2]) + b64(data.skip(3))
    }
}

/// Whether `c` occurs in Base64 text.
pub open spec fn is_b64_char(c: char) -> bool {
    ||| 'A' <= c <= 'Z'
    ||| 'a' <= c <= 'z'
    ||| '0' <= c <= '9'
    ||| c == '+'
    ||| c == '/'
    ||| c == '='
}

/// The symbols of different six-bit values differ, and none is the padding.
proof fn lemma_symbol(v: int, w: int)
    requires
        0 <= v < 64,
        0 <= w < 64,
    ensures
        is_b64_char(b64_symbol(v)),
        b64_symbol(v) != '=',
        b64_symbol(v) == b64_symbol(w) ==> v == w,
{
}

/// The length of Base64 text: four symbols for every three bytes begun.
pub proof fn lemma_b64_len(data: Seq<u8>)
    ensures
        b64(data).len() == 4 * ((data.len() + 2) / 3),
    decreases data.len(),
{
    if data.len() > 2 {
        lemma_b64_len(data.skip(3));
    }
}

/// The byte at `i`, or zero past the end.
spec fn byte_or_zero(data: Seq<u8>, i: int) -> u8 {
    if i < data.len() {
        data[i]
    } else {
        0
    }
}

/// The first group of four symbols, and what follows it.
proof fn lemma_b64_head(data: Seq<u8>)
    requires
        data.len() > 0,
    ensures
        b64(data).len() >= 4,
        b64(data)[0] == b64_symbol(data[0] as int / 4),
        b64(data)[1] == b64_symbol((data[0] as int % 4) * 16 + byte_or_zero(data, 1) as int / 16),
        b64(data)[2] == if data.len() > 1 {
            b64_symbol((byte_or_zero(data, 1) as int % 16) * 4 + byte_or_zero(data, 2) as int / 64)
        } else {
            '='
        },
        b64(data)[3] == if data.len() > 2 {
            b64_symbol(byte_or_zero(data, 2) as int % 64)
        } else {
            '='
        },
        data.len() > 2 ==> b64(data).skip(4) == b64(data.skip(3)),
        data.len() <= 2 ==> b64(data).len() == 4,
{
    if data.len() > 2 {
        assert(b64(data).skip(4) =~= b64(data.skip(3)));
    }
}

/// Base64 text holds only symbols of the alphabet and padding.
pub proof fn lemma_b64_chars(data: Seq<u8>)
    ensures
        forall|i: int| 0 <= i < b64(data).len() ==> is_b64_char(#[trigger] b64(data)[i]),
    decreases data.len(),
{
    if data.len() > 0 {
        let b = byte_or_zero(data, 1) as int;
        let c = byte_or_zero(data, 2) as int;
        lemma_b64_head(data);
        lemma_symbol(data[0] as int / 4, 0);
        lemma_symbol((data[0] as int % 4) * 16 + b / 16, 0);
        lemma_symbol((b % 16) * 4 + c / 64, 0);
        lemma_symbol(c % 64, 0);
        if data.len() > 2 {
            lemma_b64_chars(data.skip(3));
        }
        assert forall|i: int| 0 <= i < b64(data).len() implies is_b64_char(
            #[trigger] b64(data)[i],
        ) by {
            if i >= 4 {
                assert(b64(data)[i] == b64(data).skip(4)[i - 4]);
            }
        }
    }
}

/// Three bytes, cut into four values of six bits, can be read back.
proof fn lemma_sextets(a: int, b: int, c: int, x: int, y: int, z: int)
    requires
        0 <= a < 256,
        0 <= b < 256,
        0 <= c < 256,
        0 <= x < 256,
        0 <= y < 256,
        0 <= z < 256,
        a / 4 == x / 4,
        (a % 4) * 16 + b / 16 == (x % 4) * 16 + y / 16,
        (b % 16) * 4 + c / 64 == (y % 16) * 4 + z / 64,
        c % 64 == z % 64,
    ensures
        a == x,
        b == y,
        c == z,
{
}

/// Different byte strings have different Base64 texts.
pub proof fn lemma_b64_injective(x: Seq<u8>, y: Seq<u8>)
    requires
        b64(x) == b64(y),
    ensures
        x == y,
    decreases x.len(),
{
    lemma_b64_len(x);
    lemma_b64_len(y);
    if x.len() > 0 {
        let (a, b, c) = (x[0] as int, byte_or_zero(x, 1) as int, byte_or_zero(x, 2) as int);
        let (d, e, f) = (y[0] as int, byte_or_zero(y, 1) as int, byte_or_zero(y, 2) as int);
        lemma_b64_head(x);
        lemma_b64_head(y);
        lemma_symbol(a / 4, d / 4);
        lemma_symbol((a % 4) * 16 + b / 16, (d % 4) * 16 + e / 16);
        lemma_symbol((b % 16) * 4 + c / 64, (e % 16) * 4 + f / 64);
        lemma_symbol((e % 16) * 4 + f / 64, 0);
        lemma_symbol(c % 64, f % 64);
        lemma_symbol(f % 64, 0);
        lemma_sextets(a, b, c, d, e, f);
        if x.len() > 2 {
            lemma_b64_injective(x.skip(3), y.skip(3));
            assert(x =~= x.take(3) + x.skip(3));
            assert(y =~= y.take(3) + y.skip(3));
            assert(x.take(3) =~= y.take(3));
        } else {
            assert(x =~= y);
        }
    } else {
        assert(x =~= y);
    }
}

/// The bytes that a Base64 text stands for, if it is the encoding of any.
pub open spec fn b64_bytes(text: Seq<char>) -> Option<Seq<u8>> {
    if exists|d: Seq<u8>| b64(d) == text {
        Some(choose|d: Seq<u8>| b64(d) == text)
    } else {
        None
    }
}

/// Bytes are read back from their Base64 text.
pub proof fn lemma_b64_roundtrip(data: Seq<u8>)
    ensures
        b64_bytes(b64(data)) == Some(data),
{
    let d = choose|d: Seq<u8>| b64(d) == b64(data);
    lemma_b64_injective(d, data);
}

} // verus!
