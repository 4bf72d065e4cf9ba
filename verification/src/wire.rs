//! Little-endian fixed-width integers and byte-buffer helpers shared by the
//! segment and manifest formats.

use vstd::bytes::*;
use vstd::prelude::*;

verus! {

/// Appends every byte of `bytes` to `out`.
pub fn push_bytes(out: &mut Vec<u8>, bytes: &[u8])
    ensures
        final(out)@ == old(out)@ + bytes@,
{
    let ghost start = out@;
    let mut i: usize = 0;
    while i < bytes.len()
        invariant
            i <= bytes@.len(),
            out@ == start + bytes@.subrange(0, i as int),
        decreases bytes@.len() - i,
    {
        out.push(bytes[i]);
        i = i + 1;
        assert(bytes@.subrange(0, i as int) =~= bytes@.subrange(0, i - 1) + seq![bytes@[i - 1]]);
    }
    assert(bytes@.subrange(0, i as int) =~= bytes@);
}

/// Appends the little-endian encoding of a `u16`.
pub fn push_u16_le(out: &mut Vec<u8>, value: u16)
    ensures
        final(out)@ == old(out)@ + spec_u16_to_le_bytes(value),
{
    let encoded = u16_to_le_bytes(value);
    push_bytes(out, encoded.as_slice());
}

/// Appends the little-endian encoding of a `u32`.
pub fn push_u32_le(out: &mut Vec<u8>, value: u32)
    ensures
        final(out)@ == old(out)@ + spec_u32_to_le_bytes(value),
{
    let encoded = u32_to_le_bytes(value);
    push_bytes(out, encoded.as_slice());
}

/// Appends the little-endian encoding of a `u64`.
pub fn push_u64_le(out: &mut Vec<u8>, value: u64)
    ensures
        final(out)@ == old(out)@ + spec_u64_to_le_bytes(value),
{
    let encoded = u64_to_le_bytes(value);
    push_bytes(out, encoded.as_slice());
}

/// Reads a little-endian `u16` starting at `position`.
pub fn read_u16_le(bytes: &[u8], position: usize) -> (value: u16)
    requires
        position + 2 <= bytes@.len(),
    ensures
        value == spec_u16_from_le_bytes(bytes@.subrange(position as int, position + 2)),
{
    let _length = bytes.len();
    u16_from_le_bytes(&bytes[position..position + 2])
}

/// Reads a little-endian `u32` starting at `position`.
pub fn read_u32_le(bytes: &[u8], position: usize) -> (value: u32)
    requires
        position + 4 <= bytes@.len(),
    ensures
        value == spec_u32_from_le_bytes(bytes@.subrange(position as int, position + 4)),
{
    let _length = bytes.len();
    u32_from_le_bytes(&bytes[position..position + 4])
}

/// Reads a little-endian `u64` starting at `position`.
pub fn read_u64_le(bytes: &[u8], position: usize) -> (value: u64)
    requires
        position + 8 <= bytes@.len(),
    ensures
        value == spec_u64_from_le_bytes(bytes@.subrange(position as int, position + 8)),
{
    let _length = bytes.len();
    u64_from_le_bytes(&bytes[position..position + 8])
}

/// The fixed-width encodings have the widths their names say and decode back
/// to the value that was encoded.
pub proof fn lemma_le_round_trips()
    ensures
        forall|x: u16|
            #![trigger spec_u16_to_le_bytes(x)]
            spec_u16_to_le_bytes(x).len() == 2 && spec_u16_from_le_bytes(spec_u16_to_le_bytes(x))
                == x,
        forall|x: u32|
            #![trigger spec_u32_to_le_bytes(x)]
            spec_u32_to_le_bytes(x).len() == 4 && spec_u32_from_le_bytes(spec_u32_to_le_bytes(x))
                == x,
        forall|x: u64|
            #![trigger spec_u64_to_le_bytes(x)]
            spec_u64_to_le_bytes(x).len() == 8 && spec_u64_from_le_bytes(spec_u64_to_le_bytes(x))
                == x,
{
    lemma_auto_spec_u16_to_from_le_bytes();
    lemma_auto_spec_u32_to_from_le_bytes();
    lemma_auto_spec_u64_to_from_le_bytes();
}

} // verus!
