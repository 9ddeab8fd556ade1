//! Unsigned little-endian base-128 integers.

use crate::stream::ByteReader;
use vstd::prelude::*;

verus! {

/// The encoding of `n`: seven payload bits per byte, least significant group
/// first, the high bit set on every byte but the last.
pub open spec fn varint_bytes(n: nat) -> Seq<u8>
    decreases n,
{
    if n < 128 {
        seq![n as u8]
    } else {
        seq![(n % 128 + 128) as u8] + varint_bytes(n / 128)
    }
}

/// How many bytes a decoder takes from the front of `s`: up to and including
/// the first byte without the high bit, or all of `s` when there is none.
pub open spec fn varint_len(s: Seq<u8>) -> nat
    decreases s.len(),
{
    if s.len() == 0 {
        0
    } else if s[0] < 128 {
        1
    } else {
        1 + varint_len(s.skip(1))
    }
}

/// The number that the bytes taken from the front of `s` spell, without any
/// bound on its size. A sequence that ends before its last group spells the
/// groups that are there.
pub open spec fn varint_value(s: Seq<u8>) -> nat
    decreases s.len(),
{
    if s.len() == 0 {
        0
    } else if s[0] < 128 {
        s[0] as nat
    } else {
        (s[0] - 128) as nat + 128 * varint_value(s.skip(1))
    }
}

/// A decoder never takes more than there is.
pub proof fn lemma_varint_len_bound(s: Seq<u8>)
    ensures
        varint_len(s) <= s.len(),
    decreases s.len(),
{
    if s.len() > 0 && s[0] >= 128 {
        lemma_varint_len_bound(s.skip(1));
    }
}

/// Decoding what was encoded gives the number back and takes exactly the
/// bytes of the encoding, whatever follows them.
pub proof fn lemma_decode_encode(n: nat, rest: Seq<u8>)
    ensures
        varint_value(varint_bytes(n) + rest) == n,
        varint_len(varint_bytes(n) + rest) == varint_bytes(n).len(),
        (varint_bytes(n) + rest).skip(varint_bytes(n).len() as int) == rest,
    decreases n,
{
    let whole = varint_bytes(n) + rest;
    if n < 128 {
        assert(whole[0] == n as u8);
    } else {
        let tail = varint_bytes(n / 128);
        lemma_decode_encode(n / 128, rest);
        assert(whole[0] == (n % 128 + 128) as u8);
        assert(whole.skip(1) =~= tail + rest);
    }
    assert(whole.skip(varint_bytes(n).len() as int) =~= rest);
}

/// An encoding has at least one byte, and at most ten for a number of 64
/// bits and five for one of 32 bits.
pub proof fn lemma_encoding_length(n: nat)
    ensures
        1 <= varint_bytes(n).len(),
        n < 0x1_0000_0000 ==> varint_bytes(n).len() <= 5,
        n < 0x1_0000_0000_0000_0000 ==> varint_bytes(n).len() <= 10,
{
    reveal_with_fuel(varint_bytes, 11);
}

/// Every `u64` survives encoding and decoding, and so does every `u32`.
pub proof fn lemma_round_trip(n: u64, rest: Seq<u8>)
    ensures
        varint_value(varint_bytes(n as nat) + rest) % 0x1_0000_0000_0000_0000 == n,
        n < 0x1_0000_0000 ==> varint_value(varint_bytes(n as nat) + rest) % 0x1_0000_0000 == n,
{
    lemma_decode_encode(n as nat, rest);
}

pub fn encode_u64(value: u64) -> (result: Vec<u8>)
    ensures
        result@ == varint_bytes(value as nat),
{
    let mut result: Vec<u8> = Vec::new();
    let mut value: u64 = value;
    let ghost whole = value;
    while value > 0x7F
        invariant
            varint_bytes(whole as nat) == result@ + varint_bytes(value as nat),
        decreases value,
    {
        let low: u64 = value & 0x7F;
        assert(low == value % 128 && (value >> 7) == value / 128 && (low as u8 | 0x80u8) == low
            + 128) by (bit_vector)
            requires
                low == value & 0x7F,
        ;
        let ghost prefix = result@;
        result.push(low as u8 | 0x80);
        value = value >> 7;
        assert(result@ + varint_bytes(value as nat) =~= prefix + (seq![(low + 128) as u8]
            + varint_bytes(value as nat)));
    }
    result.push(value as u8);
    assert(result@ =~= result@.drop_last() + seq![value as u8]);
    result
}

pub fn encode_u32(value: u32) -> (result: Vec<u8>)
    ensures
        result@ == varint_bytes(value as nat),
{
    encode_u64(value as u64)
}

/// What `value | (digit << shift)` is in arithmetic, for the shifts that a
/// decoder of 64 bits meets below the top group.
proof fn lemma_or_shifted_digit(value: u64, digit: u64, shift: u32)
    requires
        shift <= 56,
        value < (1u64 << shift),
        digit < 128,
    ensures
        (value | (digit << shift)) == value + digit * (1u64 << shift),
        value + digit * (1u64 << shift) < (1u64 << ((shift + 7) as u32)),
        (1u64 << ((shift + 7) as u32)) == 128 * (1u64 << shift),
        shift + 7 == 63 ==> (1u64 << 63) == 0x8000_0000_0000_0000u64,
{
    let unit: u64 = 1u64 << shift;
    let next: u64 = 1u64 << ((shift + 7) as u32);
    assert(digit << shift == digit * unit && (value | (digit << shift)) == value + digit * unit
        && next == 128 * unit && unit <= 0x0100_0000_0000_0000u64 && (shift + 7 == 63 ==> next
        == 0x8000_0000_0000_0000u64)) by (bit_vector)
        requires
            shift <= 56,
            value < (1u64 << shift),
            digit < 128,
            unit == 1u64 << shift,
            next == 1u64 << ((shift + 7) as u32),
    ;
    assert(digit * unit <= 127 * unit) by (nonlinear_arith)
        requires
            digit <= 127,
    ;
}

/// The top group of a 64-bit decoder keeps one bit of its digit.
proof fn lemma_or_top_digit(value: u64, digit: u64)
    requires
        value < 0x8000_0000_0000_0000u64,
        digit < 128,
    ensures
        (value | (digit << 63)) as nat == (value + digit * 0x8000_0000_0000_0000)
            % 0x1_0000_0000_0000_0000,
{
    let parity: u64 = digit % 2;
    let half: u64 = digit / 2;
    assert((value | (digit << 63)) == value + parity * 0x8000_0000_0000_0000u64 && parity <= 1)
        by (bit_vector)
        requires
            value < 0x8000_0000_0000_0000u64,
            digit < 128,
            parity == digit % 2,
    ;
    assert(digit == 2 * half + parity);
    assert(value + digit * 0x8000_0000_0000_0000 == half * 0x1_0000_0000_0000_0000 + (value
        + parity * 0x8000_0000_0000_0000)) by (nonlinear_arith)
        requires
            digit == 2 * half + parity,
    ;
    vstd::arithmetic::div_mod::lemma_mod_multiples_vanish(
        half as int,
        value + parity * 0x8000_0000_0000_0000,
        0x1_0000_0000_0000_0000,
    );
    vstd::arithmetic::div_mod::lemma_small_mod(
        (value + parity * 0x8000_0000_0000_0000) as nat,
        0x1_0000_0000_0000_0000,
    );
}

/// A group whose weight is a multiple of 2^64 leaves the low 64 bits alone.
proof fn lemma_high_digit_vanishes(low: nat, digit: nat, scale: nat)
    requires
        scale % 0x1_0000_0000_0000_0000 == 0,
    ensures
        (low + digit * scale) % 0x1_0000_0000_0000_0000 == low % 0x1_0000_0000_0000_0000,
        (scale * 128) % 0x1_0000_0000_0000_0000 == 0,
{
    let m: int = 0x1_0000_0000_0000_0000;
    let q: int = scale as int / m;
    vstd::arithmetic::div_mod::lemma_fundamental_div_mod(scale as int, m);
    assert(scale == m * q);
    assert(digit * scale == (digit * q) * m && scale * 128 == (128 * q) * m)
        by (nonlinear_arith)
        requires
            scale == m * q,
    ;
    vstd::arithmetic::div_mod::lemma_mod_multiples_vanish(digit * q, low as int, m);
    vstd::arithmetic::div_mod::lemma_mod_multiples_basic(128 * q, m);
}

/// Reads one integer from the front of `stream`.
///
/// The stream is consumed up to and including the first byte without the high
/// bit. Where the data ends before such a byte, everything is consumed and the
/// groups read so far are the value. Payload bits above bit 63 are dropped.
pub fn decode_u64(stream: &mut ByteReader) -> (value: u64)
    ensures
        value == varint_value(old(stream)@) % 0x1_0000_0000_0000_0000,
        final(stream)@ == old(stream)@.skip(varint_len(old(stream)@) as int),
        varint_len(old(stream)@) <= old(stream)@.len(),
{
    let mut result: u64 = 0;
    let mut shift: u32 = 0;
    let ghost start = stream@;
    let ghost mut consumed: nat = 0;
    let ghost mut low: nat = 0;
    let ghost mut scale: nat = 1;
    assert(start.skip(0) =~= start);
    assert((1u64 << 0u32) == 1) by (bit_vector);
    loop
        invariant_except_break
            stream@ == start.skip(consumed as int),
            consumed <= start.len(),
            varint_len(start) == consumed + varint_len(stream@),
            varint_value(start) == low + scale * varint_value(stream@),
            result == low % 0x1_0000_0000_0000_0000,
            shift <= 63 || shift == 70,
            shift % 7 == 0,
            shift <= 56 ==> scale == (1u64 << shift) && low < scale,
            shift == 63 ==> scale == 0x8000_0000_0000_0000 && low < scale,
            shift == 70 ==> scale % 0x1_0000_0000_0000_0000 == 0,
        ensures
            stream@ == start.skip(varint_len(start) as int),
            varint_len(start) <= start.len(),
            result == varint_value(start) % 0x1_0000_0000_0000_0000,
        decreases stream@.len(),
    {
        let ghost rest = stream@;
        match stream.read_u8() {
            None => {
                assert(scale * 0 == 0);
                break ;
            },
            Some(byte) => {
                let digit: u64 = (byte & 0x7F) as u64;
                assert(digit < 128 && (byte < 128 ==> digit == byte) && (byte >= 128 ==> digit
                    == byte - 128) && ((byte & 0x80 == 0) <==> byte < 128)) by (bit_vector)
                    requires
                        digit == (byte & 0x7F) as u64,
                ;
                let ghost tail = varint_value(rest.skip(1));
                let ghost old_low = low;
                let ghost old_scale = scale;
                proof {
                    assert(start.skip(consumed as int).skip(1) =~= start.skip(consumed as int + 1));
                    low = old_low + digit as nat * old_scale;
                    scale = old_scale * 128;
                    if byte >= 128 {
                        assert(old_low + old_scale * (digit + 128 * tail) == (old_low + digit
                            * old_scale) + (old_scale * 128) * tail) by (nonlinear_arith);
                    } else {
                        assert(old_scale * digit == digit * old_scale) by (nonlinear_arith);
                    }
                    if shift <= 56 {
                        lemma_or_shifted_digit(result, digit, shift);
                    } else if shift == 63 {
                        lemma_or_top_digit(result, digit);
                        assert(old_scale * 128 == 0x40 * 0x1_0000_0000_0000_0000);
                    } else {
                        lemma_high_digit_vanishes(old_low, digit as nat, old_scale);
                    }
                    consumed = consumed + 1;
                }
                if shift < 64 {
                    result = result | (digit << shift);
                }
                if byte & 0x80 == 0 {
                    break ;
                }
                if shift < 64 {
                    shift = shift + 7;
                }
            },
        }
    }
    result
}

/// Reads one integer of 32 bits from the front of `stream`, as `decode_u64`
/// does; payload bits above bit 31 are dropped.
pub fn decode_u32(stream: &mut ByteReader) -> (value: u32)
    ensures
        value == varint_value(old(stream)@) % 0x1_0000_0000,
        final(stream)@ == old(stream)@.skip(varint_len(old(stream)@) as int),
        varint_len(old(stream)@) <= old(stream)@.len(),
{
    let wide: u64 = decode_u64(stream);
    let narrow: u64 = wide & 0xFFFF_FFFF;
    assert(narrow == wide % 0x1_0000_0000) by (bit_vector)
        requires
            narrow == wide & 0xFFFF_FFFF,
    ;
    proof {
        vstd::arithmetic::div_mod::lemma_mod_mod(
            varint_value(old(stream)@) as int,
            0x1_0000_0000,
            0x1_0000_0000,
        );
    }
    narrow as u32
}

/// The zig-zag code of a signed number: the numbers from zero up take the
/// even codes, the numbers below zero the odd ones, so that a number near
/// zero has a short encoding whatever its sign.
pub open spec fn zigzag(n: int) -> int {
    if n >= 0 {
        2 * n
    } else {
        -2 * n - 1
    }
}

/// The signed number that a zig-zag code stands for.
pub open spec fn unzigzag(code: int) -> int {
    if code % 2 == 0 {
        code / 2
    } else {
        -(code + 1) / 2
    }
}

/// Every signed number is the number that its code stands for.
pub proof fn lemma_zigzag_round_trip(n: int)
    ensures
        unzigzag(zigzag(n)) == n,
        zigzag(n) >= 0,
{
}

/// The zig-zag code of `value`, which is `(value << 1) ^ (value >> 63)` on
/// 64 bits.
pub fn zigzag_encode(value: i64) -> (code: u64)
    ensures
        code == zigzag(value as int),
{
    if value >= 0 {
        (value as u64) * 2
    } else {
        ((-(value + 1)) as u64) * 2 + 1
    }
}

/// The signed number that `code` stands for.
pub fn zigzag_decode(code: u64) -> (value: i64)
    ensures
        value == unzigzag(code as int),
{
    if code % 2 == 0 {
        (code / 2) as i64
    } else {
        -((code / 2) as i64) - 1
    }
}

/// Encodes a signed number: the varint of its zig-zag code.
pub fn encode_i64(value: i64) -> (result: Vec<u8>)
    ensures
        result@ == varint_bytes(zigzag(value as int) as nat),
{
    encode_u64(zigzag_encode(value))
}

/// Reads one signed number from the front of `stream`, as `decode_u64`
/// reads its zig-zag code.
pub fn decode_i64(stream: &mut ByteReader) -> (value: i64)
    ensures
        value == unzigzag((varint_value(old(stream)@) % 0x1_0000_0000_0000_0000) as int),
        final(stream)@ == old(stream)@.skip(varint_len(old(stream)@) as int),
{
    zigzag_decode(decode_u64(stream))
}

} // verus!
