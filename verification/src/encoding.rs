//! Verified helpers for the small numeric encodings the engine uses:
//! hexadecimal digits, decimal byte strings, and big-endian 32-bit fields.

use vstd::prelude::*;

verus! {

/// The lowercase hexadecimal digit for a value below 16.
pub open spec fn hex_digit_char(n: int) -> char
    recommends
        0 <= n < 16,
{
    if n < 10 {
        ((48 + n) as u8) as char
    } else {
        ((87 + n) as u8) as char
    }
}

/// Whether `c` is an ASCII hexadecimal digit, either case.
pub open spec fn is_hex_char(c: char) -> bool {
    (48 <= c as int && c as int <= 57) || (97 <= c as int && c as int <= 102) || (65 <= c as int
        && c as int <= 70)
}

/// The numeric value of a hexadecimal digit character.
pub open spec fn hex_char_val(c: char) -> int
    recommends
        is_hex_char(c),
{
    if 48 <= c as int && c as int <= 57 {
        c as int - 48
    } else if 97 <= c as int && c as int <= 102 {
        c as int - 87
    } else {
        c as int - 55
    }
}

/// The lowercase hexadecimal rendering of a byte sequence, two digits per
/// byte, high digit first.
pub open spec fn spec_hex_encode(b: Seq<u8>) -> Seq<char> {
    Seq::new(
        b.len() * 2,
        |i: int|
            if i % 2 == 0 {
                hex_digit_char(b[i / 2] as int / 16)
            } else {
                hex_digit_char(b[i / 2] as int % 16)
            },
    )
}

/// Whether a character sequence is a well-formed hexadecimal string:
/// even length, hexadecimal digits throughout.
pub open spec fn spec_hex_decode_ok(s: Seq<char>) -> bool {
    s.len() % 2 == 0 && (forall|i: int| 0 <= i < s.len() ==> is_hex_char(#[trigger] s[i]))
}

/// The bytes a well-formed hexadecimal string denotes.
pub open spec fn spec_hex_decode(s: Seq<char>) -> Seq<u8> {
    Seq::new(s.len() / 2, |i: int| (hex_char_val(s[2 * i]) * 16 + hex_char_val(s[2 * i + 1])) as u8)
}

/// Decoding inverts encoding: the hexadecimal rendering of any byte
/// sequence is well formed and decodes to the bytes it came from.
pub proof fn lemma_hex_decode_encode(b: Seq<u8>)
    ensures
        spec_hex_decode_ok(spec_hex_encode(b)),
        spec_hex_decode(spec_hex_encode(b)) == b,
{
    let s = spec_hex_encode(b);
    assert forall|i: int| 0 <= i < s.len() implies is_hex_char(#[trigger] s[i]) by {
        if i % 2 == 0 {
            assert(0 <= b[i / 2] as int / 16 < 16);
        } else {
            assert(0 <= b[i / 2] as int % 16 < 16);
        }
    }
    assert(spec_hex_decode(s) =~= b) by {
        assert forall|i: int| 0 <= i < b.len() implies spec_hex_decode(s)[i] == b[i] by {
            assert(s[2 * i] == hex_digit_char(b[i] as int / 16));
            assert(s[2 * i + 1] == hex_digit_char(b[i] as int % 16));
            assert(hex_char_val(hex_digit_char(b[i] as int / 16)) == b[i] as int / 16);
            assert(hex_char_val(hex_digit_char(b[i] as int % 16)) == b[i] as int % 16);
            assert(b[i] as int / 16 * 16 + b[i] as int % 16 == b[i] as int);
        }
    }
}

/// The lowercase hexadecimal digit byte for a value below 16.
pub open spec fn hex_digit_byte(n: int) -> u8
    recommends
        0 <= n < 16,
{
    if n < 10 {
        (48 + n) as u8
    } else {
        (87 + n) as u8
    }
}

/// Whether `b` is an ASCII hexadecimal digit byte, either case.
pub open spec fn is_hex_byte(b: u8) -> bool {
    (48 <= b && b <= 57) || (97 <= b && b <= 102) || (65 <= b && b <= 70)
}

/// The numeric value of a hexadecimal digit byte.
pub open spec fn hex_byte_val(b: u8) -> int
    recommends
        is_hex_byte(b),
{
    if 48 <= b && b <= 57 {
        b - 48
    } else if 97 <= b && b <= 102 {
        b - 87
    } else {
        b - 55
    }
}

/// The numeric value of a hexadecimal digit byte, or `None` when it is
/// not one.
pub fn parse_hex_digit(b: u8) -> (r: Option<u8>)
    ensures
        r is Some <==> is_hex_byte(b),
        r matches Some(v) ==> v == hex_byte_val(b) && v < 16,
{
    if 48 <= b && b <= 57 {
        Some(b - 48)
    } else if 97 <= b && b <= 102 {
        Some(b - 87)
    } else if 65 <= b && b <= 70 {
        Some(b - 55)
    } else {
        None
    }
}

/// The four lowercase hexadecimal digit bytes of a value below 0x10000,
/// most significant first.
pub open spec fn spec_hex4(n: int) -> Seq<u8>
    recommends
        0 <= n < 0x10000,
{
    seq![
        hex_digit_byte((n / 4096) % 16),
        hex_digit_byte((n / 256) % 16),
        hex_digit_byte((n / 16) % 16),
        hex_digit_byte(n % 16),
    ]
}

/// The rendered digits are hexadecimal and read back as the value that
/// was written.
pub proof fn lemma_hex4_round_trip(n: int)
    requires
        0 <= n < 0x10000,
    ensures
        forall|i: int| 0 <= i < 4 ==> is_hex_byte(#[trigger] spec_hex4(n)[i]),
        hex_byte_val(spec_hex4(n)[0]) * 4096 + hex_byte_val(spec_hex4(n)[1]) * 256 + hex_byte_val(
            spec_hex4(n)[2],
        ) * 16 + hex_byte_val(spec_hex4(n)[3]) == n,
{
    assert(0 <= (n / 4096) % 16 < 16 && 0 <= (n / 256) % 16 < 16 && 0 <= (n / 16) % 16 < 16 && 0
        <= n % 16 < 16);
    assert(forall|v: int| 0 <= v < 16 ==> is_hex_byte(#[trigger] hex_digit_byte(v)));
    assert(forall|v: int| 0 <= v < 16 ==> hex_byte_val(#[trigger] hex_digit_byte(v)) == v);
    assert((n / 4096) % 16 * 4096 + (n / 256) % 16 * 256 + (n / 16) % 16 * 16 + n % 16 == n)
        by (nonlinear_arith)
        requires
            0 <= n < 0x10000,
    ;
}

/// Appends the four hexadecimal digit bytes of `n`.
pub fn push_hex4(out: &mut Vec<u8>, n: usize)
    requires
        n < 0x10000,
    ensures
        final(out)@ == old(out)@ + spec_hex4(n as int),
{
    out.push(hex_digit(((n / 4096) % 16) as u8));
    out.push(hex_digit(((n / 256) % 16) as u8));
    out.push(hex_digit(((n / 16) % 16) as u8));
    out.push(hex_digit((n % 16) as u8));
    assert(out@ =~= old(out)@ + spec_hex4(n as int));
}

/// The lowercase hexadecimal digit byte for a value below 16.
fn hex_digit(v: u8) -> (r: u8)
    requires
        v < 16,
    ensures
        r == hex_digit_byte(v as int),
{
    if v < 10 {
        48 + v
    } else {
        87 + v
    }
}

/// The decimal rendering of a natural number as ASCII bytes, most
/// significant digit first, with no leading zeros except for zero itself.
pub open spec fn spec_dec_bytes(n: nat) -> Seq<u8>
    decreases n,
{
    if n < 10 {
        seq![(48 + n) as u8]
    } else {
        spec_dec_bytes(n / 10).push((48 + n % 10) as u8)
    }
}

/// Renders `n` in decimal.
pub fn dec_bytes(n: usize) -> (r: Vec<u8>)
    ensures
        r@ == spec_dec_bytes(n as nat),
    decreases n,
{
    if n < 10 {
        let mut v: Vec<u8> = Vec::new();
        v.push((48 + n) as u8);
        v
    } else {
        let mut v = dec_bytes(n / 10);
        v.push((48 + n % 10) as u8);
        v
    }
}

/// The four-byte big-endian rendering of a 32-bit value.
pub open spec fn spec_be32(n: u32) -> Seq<u8> {
    seq![
        (n as int / 0x1000000) as u8,
        ((n as int / 0x10000) % 256) as u8,
        ((n as int / 0x100) % 256) as u8,
        (n as int % 256) as u8,
    ]
}

/// The 32-bit value four big-endian bytes denote.
pub open spec fn spec_read_be32(b0: u8, b1: u8, b2: u8, b3: u8) -> u32 {
    (b0 as int * 0x1000000 + b1 as int * 0x10000 + b2 as int * 0x100 + b3 as int) as u32
}

/// Reading four big-endian bytes inverts writing them.
pub proof fn lemma_be32_round_trip(n: u32)
    ensures
        spec_read_be32(spec_be32(n)[0], spec_be32(n)[1], spec_be32(n)[2], spec_be32(n)[3]) == n,
{
    let m = n as int;
    assert(m / 0x1000000 * 0x1000000 + (m / 0x10000) % 256 * 0x10000 + (m / 0x100) % 256 * 0x100 + m
        % 256 == m) by (nonlinear_arith);
}

/// Appends the big-endian rendering of `n` to `out`.
pub fn push_be32(out: &mut Vec<u8>, n: u32)
    ensures
        final(out)@ == old(out)@ + spec_be32(n),
{
    out.push((n / 0x1000000) as u8);
    out.push(((n / 0x10000) % 256) as u8);
    out.push(((n / 0x100) % 256) as u8);
    out.push((n % 256) as u8);
    assert(out@ =~= old(out)@ + spec_be32(n));
}

/// Reads a big-endian 32-bit value from `data` at `pos`.
pub fn read_be32(data: &[u8], pos: usize) -> (r: u32)
    requires
        pos + 4 <= data@.len(),
    ensures
        r == spec_read_be32(data@[pos as int], data@[pos as int + 1], data@[pos as int + 2], data@[pos as int + 3]),
{
    let b0 = data[pos] as u32;
    let b1 = data[pos + 1] as u32;
    let b2 = data[pos + 2] as u32;
    let b3 = data[pos + 3] as u32;
    b0 * 0x1000000 + b1 * 0x10000 + b2 * 0x100 + b3
}

} // verus!
