//! Canonical unsigned LEB128 encoding of `u32` values: seven data bits per
//! byte, least-significant group first, high bit set on every byte but the
//! last.

use vstd::prelude::*;

verus! {

/// Why a byte sequence does not start with a canonical `u32` varint.
#[derive(Debug, Clone, Copy, PartialEq, Eq, Structural)]
pub enum DecodeError {
    Truncated,
    Overflow,
    NonCanonical,
}

/// The seven data bits of `byte`.
pub open spec fn data_bits(byte: u8) -> u8 {
    byte & 0x7f
}

/// Whether `byte` announces a further byte.
pub open spec fn has_continuation(byte: u8) -> bool {
    byte & 0x80 != 0
}

/// The canonical encoding of `value`: the shortest sequence of 7-bit groups,
/// least significant first, with the high bit set on all groups but the last.
pub open spec fn spec_encode(value: u32) -> Seq<u8> {
    if value < 0x80 {
        seq![value as u8]
    } else if value < 0x4000 {
        seq![(value & 0x7f | 0x80) as u8, (value >> 7) as u8]
    } else if value < 0x20_0000 {
        seq![(value & 0x7f | 0x80) as u8, ((value >> 7) & 0x7f | 0x80) as u8, (value >> 14) as u8]
    } else if value < 0x1000_0000 {
        seq![
            (value & 0x7f | 0x80) as u8,
            ((value >> 7) & 0x7f | 0x80) as u8,
            ((value >> 14) & 0x7f | 0x80) as u8,
            (value >> 21) as u8,
        ]
    } else {
        seq![
            (value & 0x7f | 0x80) as u8,
            ((value >> 7) & 0x7f | 0x80) as u8,
            ((value >> 14) & 0x7f | 0x80) as u8,
            ((value >> 21) & 0x7f | 0x80) as u8,
            (value >> 28) as u8,
        ]
    }
}

/// Decoding from byte `index` on, with the groups before it already folded
/// into `value`. At most five bytes are read: the fifth may carry only four
/// data bits, a final byte other than the first may not be zero, and input
/// that ends before a final byte is truncated.
pub open spec fn decode_from(input: Seq<u8>, index: nat, value: u32) -> Result<(u32, nat), DecodeError>
    decreases 5 - index,
{
    if index >= 5 {
        Err(DecodeError::Overflow)
    } else if index >= input.len() {
        Err(DecodeError::Truncated)
    } else {
        let byte = input[index as int];
        let data = data_bits(byte);
        if index == 4 && data > 0x0f {
            Err(DecodeError::Overflow)
        } else {
            let next = value | ((data as u32) << ((7 * index) as u32));
            if !has_continuation(byte) {
                if index > 0 && data == 0 {
                    Err(DecodeError::NonCanonical)
                } else {
                    Ok((next, index + 1))
                }
            } else {
                decode_from(input, index + 1, next)
            }
        }
    }
}

/// The result of decoding one varint from the front of `input`: the value and
/// the number of bytes it occupies.
pub open spec fn spec_decode(input: Seq<u8>) -> Result<(u32, nat), DecodeError> {
    decode_from(input, 0, 0)
}

/// Decodes one varint from the front of `input`, returning the value and the
/// number of bytes read. Bytes after the varint are not looked at.
pub fn decode(input: &[u8]) -> (result: Result<(u32, usize), DecodeError>)
    ensures
        match (result, spec_decode(input@)) {
            (Ok((value, length)), Ok((spec_value, spec_length))) => value == spec_value && length
                == spec_length,
            (Err(error), Err(spec_error)) => error == spec_error,
            _ => false,
        },
{
    let mut value: u32 = 0;
    let mut index: usize = 0;
    let ghost shift: nat = 0;
    while index < 5 && index < input.len()
        invariant
            index <= 5,
            index <= input@.len(),
            decode_from(input@, index as nat, value) == spec_decode(input@),
        decreases 5 - index,
    {
        let byte = input[index];
        let data: u8 = byte & 0x7f;
        if index == 4 && data > 0x0f {
            return Err(DecodeError::Overflow);
        }
        let shift: u32 = (7 * index) as u32;
        assert(shift < 32);
        value = value | ((data as u32) << shift);
        if byte & 0x80 == 0 {
            if index > 0 && data == 0 {
                return Err(DecodeError::NonCanonical);
            }
            return Ok((value, index + 1));
        }
        index = index + 1;
    }
    if input.len() < 5 {
        Err(DecodeError::Truncated)
    } else {
        Err(DecodeError::Overflow)
    }
}

/// The byte that `encode` emits for the group of `value` starting at bit
/// `7 * index`.
proof fn lemma_encode_byte(value: u32, index: u32)
    requires
        index < spec_encode(value).len(),
    ensures
        spec_encode(value).len() <= 5,
        spec_encode(value)[index as int] == (if index + 1 < spec_encode(value).len() {
            ((value >> (7 * index)) & 0x7f | 0x80) as u8
        } else {
            (value >> (7 * index)) as u8
        }),
        (index + 1 < spec_encode(value).len()) <==> (value >> (7 * (index + 1))) != 0,
        index + 1 == spec_encode(value).len() ==> (value >> (7 * index)) < 0x80,
{
    let v = value;
    assert(v >> 0u32 == v) by (bit_vector);
    assert(v < 0x80 <==> v >> 7u32 == 0) by (bit_vector);
    assert(v < 0x4000 <==> v >> 14u32 == 0) by (bit_vector);
    assert(v < 0x20_0000 <==> v >> 21u32 == 0) by (bit_vector);
    assert(v < 0x1000_0000 <==> v >> 28u32 == 0) by (bit_vector);
    assert(v >> 35u32 == 0) by (bit_vector);
    assert(v >> 28u32 < 0x80) by (bit_vector);
    assert(v < 0x4000 ==> v >> 7u32 < 0x80) by (bit_vector);
    assert(v < 0x20_0000 ==> v >> 14u32 < 0x80) by (bit_vector);
    assert(v < 0x1000_0000 ==> v >> 21u32 < 0x80) by (bit_vector);
    assert(v & 0x7f == (v >> 0u32) & 0x7f) by (bit_vector);
}

/// Appends the canonical encoding of `value` to `output`.
pub fn encode(value: u32, output: &mut Vec<u8>)
    ensures
        final(output)@ == old(output)@ + spec_encode(value),
{
    let ghost input_value = value;
    let ghost start = output@;
    let mut remaining = value;
    let mut index: u32 = 0;
    assert(value >> 0u32 == value) by (bit_vector);
    loop
        invariant
            index < spec_encode(input_value).len(),
            spec_encode(input_value).len() <= 5,
            remaining == input_value >> (7 * index),
            output@ == start + spec_encode(input_value).subrange(0, index as int),
            start == old(output)@,
            input_value == value,
        decreases 5 - index,
    {
        proof {
            lemma_encode_byte(input_value, index);
        }
        let mut byte: u8 = (remaining & 0x7f) as u8;
        assert(remaining & 0x7f < 256) by (bit_vector);
        let next = remaining >> 7;
        let ghost r = remaining;
        assert(r >> 7u32 == 0 ==> (r & 0x7f) as u8 == r as u8) by (bit_vector);
        assert(r >> 7u32 != 0 ==> ((r & 0x7f) as u8 | 0x80u8) == ((r & 0x7f) | 0x80) as u8)
            by (bit_vector);
        assert(input_value >> (7 * index) >> 7u32 == input_value >> (7 * (index + 1))) by (bit_vector)
            requires
                index < 5,
        ;
        if next != 0 {
            byte = byte | 0x80;
        }
        assert(byte == spec_encode(input_value)[index as int]);
        output.push(byte);
        assert(spec_encode(input_value).subrange(0, index + 1) =~= spec_encode(input_value).subrange(
            0,
            index as int,
        ).push(byte));
        if next == 0 {
            assert(index + 1 == spec_encode(input_value).len());
            assert(spec_encode(input_value).subrange(0, index + 1) =~= spec_encode(input_value));
            return;
        }
        remaining = next;
        index = index + 1;
    }
}

/// The number of bytes in the canonical encoding of `value`.
pub fn encoded_length(value: u32) -> (length: usize)
    ensures
        length == spec_encode(value).len(),
{
    if value < 0x80 {
        1
    } else if value < 0x4000 {
        2
    } else if value < 0x20_0000 {
        3
    } else if value < 0x1000_0000 {
        4
    } else {
        5
    }
}

/// The number whose base-128 digits, least significant first, are the data
/// bits of `bytes`.
pub open spec fn groups_value(bytes: Seq<u8>) -> nat
    decreases bytes.len(),
{
    if bytes.len() == 0 {
        0
    } else {
        data_bits(bytes[0]) as nat + 128 * groups_value(bytes.drop_first())
    }
}

/// Past the first byte, the encoding of `value` is that of `value >> 7`.
proof fn lemma_encode_step(value: u32)
    ensures
        value < 0x80 ==> spec_encode(value) == seq![value as u8],
        value >= 0x80 ==> spec_encode(value) == seq![(value & 0x7f | 0x80) as u8] + spec_encode(
            value >> 7,
        ),
{
    let v = value;
    if v >= 0x80 {
        let r = v >> 7;
        assert(r >> 7u32 == v >> 14u32 && r >> 14u32 == v >> 21u32 && r >> 21u32 == v >> 28u32)
            by (bit_vector)
            requires
                r == v >> 7u32,
        ;
        assert(v < 0x4000 <==> r < 0x80) by (bit_vector)
            requires
                r == v >> 7u32,
        ;
        assert(v < 0x20_0000 <==> r < 0x4000) by (bit_vector)
            requires
                r == v >> 7u32,
        ;
        assert(v < 0x1000_0000 <==> r < 0x20_0000) by (bit_vector)
            requires
                r == v >> 7u32,
        ;
        assert(r < 0x1000_0000) by (bit_vector)
            requires
                r == v >> 7u32,
        ;
        assert(spec_encode(value) =~= seq![(value & 0x7f | 0x80) as u8] + spec_encode(r));
    }
}

/// The bytes of every encoding: between one and five of them, the high bit
/// set on all but the last, a last byte that is not zero unless it is the
/// only one, and data bits that are the base-128 digits of the value, least
/// significant first.
pub proof fn lemma_encode_bytes(value: u32)
    ensures
        1 <= spec_encode(value).len() <= 5,
        forall|i: int|
            0 <= i < spec_encode(value).len() - 1 ==> has_continuation(
                #[trigger] spec_encode(value)[i],
            ),
        !has_continuation(spec_encode(value).last()),
        spec_encode(value).len() == 1 || data_bits(spec_encode(value).last()) != 0,
        groups_value(spec_encode(value)) == value,
    decreases value,
{
    let v = value;
    lemma_encode_step(v);
    let b = spec_encode(v);
    if v < 0x80 {
        assert(v < 0x80 ==> (v as u8) & 0x80 == 0 && (v as u8) & 0x7f == v) by (bit_vector);
        assert(b.drop_first().len() == 0);
        assert(groups_value(b.drop_first()) == 0);
    } else {
        let r = v >> 7;
        assert(r < v && r != 0) by (bit_vector)
            requires
                r == v >> 7u32,
                v >= 0x80,
        ;
        lemma_encode_bytes(r);
        let rest = spec_encode(r);
        let first = (v & 0x7f | 0x80) as u8;
        assert(first & 0x80 != 0 && first & 0x7f == v % 128 && r == v / 128) by (bit_vector)
            requires
                first == (v & 0x7f | 0x80) as u8,
                r == v >> 7u32,
        ;
        assert(b.drop_first() =~= rest);
        assert(b.last() == rest.last());
        assert forall|i: int| 0 <= i < b.len() - 1 implies has_continuation(#[trigger] b[i]) by {
            if i > 0 {
                assert(b[i] == rest[i - 1]);
            }
        }
        if rest.len() == 1 {
            assert(r < 0x80);
            assert(r < 0x80 && r != 0 ==> (r as u8) & 0x7f != 0) by (bit_vector);
        }
        assert(v == v % 128 + 128 * (v / 128)) by (nonlinear_arith);
    }
}

/// Every encoding is between one and five bytes long.
pub proof fn lemma_encode_length(value: u32)
    ensures
        1 <= spec_encode(value).len() <= 5,
{
}

/// Decoding the canonical encoding of `value`, whatever bytes follow it, gives
/// back `value` and the length of the encoding.
pub proof fn lemma_decode_encode(value: u32, rest: Seq<u8>)
    ensures
        spec_decode(spec_encode(value) + rest) == Ok::<(u32, nat), DecodeError>(
            (value, spec_encode(value).len()),
        ),
{
    let s = spec_encode(value) + rest;
    let v = value;
    reveal_with_fuel(decode_from, 6);
    assert(0u32 | ((((v & 0x7f | 0x80) as u8) & 0x7f) as u32) << 0u32 == v & 0x7f) by (bit_vector);
    assert(v < 0x80 ==> 0u32 | ((v as u8 & 0x7f) as u32) << 0u32 == v) by (bit_vector);
    assert(v < 0x80 ==> v as u8 & 0x80 == 0) by (bit_vector);
    assert(((v & 0x7f | 0x80) as u8) & 0x80 != 0) by (bit_vector);
    assert(((v >> 7u32) & 0x7f | 0x80) as u8 & 0x80 != 0) by (bit_vector);
    assert(((v >> 14u32) & 0x7f | 0x80) as u8 & 0x80 != 0) by (bit_vector);
    assert(((v >> 21u32) & 0x7f | 0x80) as u8 & 0x80 != 0) by (bit_vector);
    if v < 0x80 {
        assert(s[0] == v as u8);
    } else if v < 0x4000 {
        assert(0x80 <= v < 0x4000 ==> ((v >> 7u32) as u8) & 0x80 == 0 && ((v >> 7u32) as u8)
            & 0x7f != 0 && (v & 0x7f) | ((((v >> 7u32) as u8 & 0x7f) as u32) << 7u32) == v)
            by (bit_vector);
    } else if v < 0x20_0000 {
        assert(0x4000 <= v < 0x20_0000 ==> ((v >> 14u32) as u8) & 0x80 == 0 && ((
        v >> 14u32) as u8) & 0x7f != 0 && (v & 0x7f) | (((((v >> 7u32) & 0x7f | 0x80) as u8
            & 0x7f) as u32) << 7u32) | ((((v >> 14u32) as u8 & 0x7f) as u32) << 14u32) == v)
            by (bit_vector);
    } else if v < 0x1000_0000 {
        assert(0x20_0000 <= v < 0x1000_0000 ==> ((v >> 21u32) as u8) & 0x80 == 0 && ((
        v >> 21u32) as u8) & 0x7f != 0 && (v & 0x7f) | (((((v >> 7u32) & 0x7f | 0x80) as u8
            & 0x7f) as u32) << 7u32) | (((((v >> 14u32) & 0x7f | 0x80) as u8 & 0x7f) as u32)
            << 14u32) | ((((v >> 21u32) as u8 & 0x7f) as u32) << 21u32) == v) by (bit_vector);
    } else {
        assert(0x1000_0000 <= v ==> ((v >> 28u32) as u8) & 0x80 == 0 && ((v >> 28u32) as u8)
            & 0x7f != 0 && ((v >> 28u32) as u8) & 0x7f <= 0x0f && (v & 0x7f) | (((((v >> 7u32)
            & 0x7f | 0x80) as u8 & 0x7f) as u32) << 7u32) | (((((v >> 14u32) & 0x7f | 0x80) as u8
            & 0x7f) as u32) << 14u32) | (((((v >> 21u32) & 0x7f | 0x80) as u8 & 0x7f) as u32)
            << 21u32) | ((((v >> 28u32) as u8 & 0x7f) as u32) << 28u32) == v) by (bit_vector);
    }
}

/// A successful decode reads exactly the canonical encoding of the value it
/// returns: no other byte sequence decodes to that value.
pub proof fn lemma_decode_canonical(input: Seq<u8>)
    ensures
        spec_decode(input) matches Ok((value, length)) ==> length == spec_encode(value).len()
            && length <= input.len() && input.subrange(0, length as int) == spec_encode(value),
{
    reveal_with_fuel(decode_from, 6);
    if let Ok((v, n)) = spec_decode(input) {
        let b0 = input[0];
        assert(0u32 | (((b0 & 0x7f) as u32) << 0u32) == (b0 & 0x7f) as u32) by (bit_vector);
        if n == 1 {
            assert(b0 & 0x80 == 0 ==> ((b0 & 0x7f) as u32) < 0x80 && ((b0 & 0x7f) as u32) as u8
                == b0) by (bit_vector);
            assert(input.subrange(0, 1) =~= spec_encode(v));
        } else if n == 2 {
            let b1 = input[1];
            assert(b0 & 0x80 != 0 && b1 & 0x80 == 0 && b1 & 0x7f != 0 ==> ({
                let v2 = (b0 & 0x7f) as u32 | (((b1 & 0x7f) as u32) << 7u32);
                &&& 0x80 <= v2 < 0x4000
                &&& (v2 & 0x7f | 0x80) as u8 == b0
                &&& (v2 >> 7u32) as u8 == b1
            })) by (bit_vector);
            assert(input.subrange(0, 2) =~= spec_encode(v));
        } else if n == 3 {
            let b1 = input[1];
            let b2 = input[2];
            assert(b0 & 0x80 != 0 && b1 & 0x80 != 0 && b2 & 0x80 == 0 && b2 & 0x7f != 0 ==> ({
                let v2 = (b0 & 0x7f) as u32 | (((b1 & 0x7f) as u32) << 7u32) | (((b2 & 0x7f) as u32)
                    << 14u32);
                &&& 0x4000 <= v2 < 0x20_0000
                &&& (v2 & 0x7f | 0x80) as u8 == b0
                &&& ((v2 >> 7u32) & 0x7f | 0x80) as u8 == b1
                &&& (v2 >> 14u32) as u8 == b2
            })) by (bit_vector);
            assert(input.subrange(0, 3) =~= spec_encode(v));
        } else if n == 4 {
            let b1 = input[1];
            let b2 = input[2];
            let b3 = input[3];
            assert(b0 & 0x80 != 0 && b1 & 0x80 != 0 && b2 & 0x80 != 0 && b3 & 0x80 == 0 && b3
                & 0x7f != 0 ==> ({
                let v2 = (b0 & 0x7f) as u32 | (((b1 & 0x7f) as u32) << 7u32) | (((b2 & 0x7f) as u32)
                    << 14u32) | (((b3 & 0x7f) as u32) << 21u32);
                &&& 0x20_0000 <= v2 < 0x1000_0000
                &&& (v2 & 0x7f | 0x80) as u8 == b0
                &&& ((v2 >> 7u32) & 0x7f | 0x80) as u8 == b1
                &&& ((v2 >> 14u32) & 0x7f | 0x80) as u8 == b2
                &&& (v2 >> 21u32) as u8 == b3
            })) by (bit_vector);
            assert(input.subrange(0, 4) =~= spec_encode(v));
        } else {
            let b1 = input[1];
            let b2 = input[2];
            let b3 = input[3];
            let b4 = input[4];
            assert(b0 & 0x80 != 0 && b1 & 0x80 != 0 && b2 & 0x80 != 0 && b3 & 0x80 != 0 && b4
                & 0x80 == 0 && b4 & 0x7f != 0 && b4 & 0x7f <= 0x0f ==> ({
                let v2 = (b0 & 0x7f) as u32 | (((b1 & 0x7f) as u32) << 7u32) | (((b2 & 0x7f) as u32)
                    << 14u32) | (((b3 & 0x7f) as u32) << 21u32) | (((b4 & 0x7f) as u32) << 28u32);
                &&& 0x1000_0000 <= v2
                &&& (v2 & 0x7f | 0x80) as u8 == b0
                &&& ((v2 >> 7u32) & 0x7f | 0x80) as u8 == b1
                &&& ((v2 >> 14u32) & 0x7f | 0x80) as u8 == b2
                &&& ((v2 >> 21u32) & 0x7f | 0x80) as u8 == b3
                &&& (v2 >> 28u32) as u8 == b4
            })) by (bit_vector);
            assert(input.subrange(0, 5) =~= spec_encode(v));
        }
    }
}

} // verus!
