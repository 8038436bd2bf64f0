//! Big-endian byte-order conversions used by the wire protocol and the
//! snapshot format, and a helper for splitting byte buffers.

use vstd::prelude::*;
use crate::common::MyError;

verus! {

/// The unsigned 32-bit value that the first four bytes of `s` spell in
/// big-endian order.
pub open spec fn spec_be_u32(s: Seq<u8>) -> u32
    recommends
        s.len() >= 4,
{
    ((s[0] as u32) << 24) | ((s[1] as u32) << 16) | ((s[2] as u32) << 8) | (s[3] as u32)
}

/// The signed 32-bit value that the first four bytes of `s` spell in
/// big-endian two's complement.
pub open spec fn spec_be_i32(s: Seq<u8>) -> i32
    recommends
        s.len() >= 4,
{
    if spec_be_u32(s) >= 0x8000_0000 {
        (spec_be_u32(s) - 0x1_0000_0000) as i32
    } else {
        spec_be_u32(s) as i32
    }
}

/// The unsigned 64-bit value that the first eight bytes of `s` spell in
/// big-endian order.
pub open spec fn spec_be_u64(s: Seq<u8>) -> u64
    recommends
        s.len() >= 8,
{
    ((s[0] as u64) << 56) | ((s[1] as u64) << 48) | ((s[2] as u64) << 40) | ((s[3] as u64) << 32)
        | ((s[4] as u64) << 24) | ((s[5] as u64) << 16) | ((s[6] as u64) << 8) | (s[7] as u64)
}

/// The eight-byte big-endian spelling of `value`.
pub open spec fn spec_u64_to_be_bytes(value: u64) -> Seq<u8> {
    seq![
        ((value >> 56) & 0xFF) as u8,
        ((value >> 48) & 0xFF) as u8,
        ((value >> 40) & 0xFF) as u8,
        ((value >> 32) & 0xFF) as u8,
        ((value >> 24) & 0xFF) as u8,
        ((value >> 16) & 0xFF) as u8,
        ((value >> 8) & 0xFF) as u8,
        (value & 0xFF) as u8,
    ]
}

/// Reading back the eight-byte spelling of a value yields the value, and
/// spelling the value read from any eight bytes yields those bytes.
pub proof fn lemma_u64_be_bytes_roundtrip()
    ensures
        forall|value: u64|
            #![trigger spec_u64_to_be_bytes(value)]
            {
                &&& spec_u64_to_be_bytes(value).len() == 8
                &&& spec_be_u64(spec_u64_to_be_bytes(value)) == value
            },
        forall|s: Seq<u8>|
            #![trigger spec_u64_to_be_bytes(spec_be_u64(s))]
            s.len() == 8 ==> spec_u64_to_be_bytes(spec_be_u64(s)) == s,
{
    assert forall|value: u64|
        {
            &&& #[trigger] spec_u64_to_be_bytes(value).len() == 8
            &&& spec_be_u64(spec_u64_to_be_bytes(value)) == value
        } by {
        assert(((((value >> 56) & 0xFF) as u8) as u64) << 56 | ((((value >> 48) & 0xFF) as u8)
            as u64) << 48 | ((((value >> 40) & 0xFF) as u8) as u64) << 40 | ((((value >> 32)
            & 0xFF) as u8) as u64) << 32 | ((((value >> 24) & 0xFF) as u8) as u64) << 24
            | ((((value >> 16) & 0xFF) as u8) as u64) << 16 | ((((value >> 8) & 0xFF) as u8)
            as u64) << 8 | (((value & 0xFF) as u8) as u64) == value) by (bit_vector);
    }
    assert forall|s: Seq<u8>| s.len() == 8 implies #[trigger] spec_u64_to_be_bytes(
        spec_be_u64(s),
    ) == s by {
        let x = spec_be_u64(s);
        let s0 = s[0];
        let s1 = s[1];
        let s2 = s[2];
        let s3 = s[3];
        let s4 = s[4];
        let s5 = s[5];
        let s6 = s[6];
        let s7 = s[7];
        assert(x == (s0 as u64) << 56 | (s1 as u64) << 48 | (s2 as u64) << 40 | (s3 as u64) << 32
            | (s4 as u64) << 24 | (s5 as u64) << 16 | (s6 as u64) << 8 | (s7 as u64) ==> s0 == ((x
            >> 56) & 0xFF) as u8 && s1 == ((x >> 48) & 0xFF) as u8 && s2 == ((x >> 40) & 0xFF) as u8
            && s3 == ((x >> 32) & 0xFF) as u8 && s4 == ((x >> 24) & 0xFF) as u8 && s5 == ((x >> 16)
            & 0xFF) as u8 && s6 == ((x >> 8) & 0xFF) as u8 && s7 == (x & 0xFF) as u8)
            by (bit_vector);
        assert(spec_u64_to_be_bytes(spec_be_u64(s)) =~= s);
    }
}

/// Big-endian signed 32-bit read of the first four bytes.
///
/// As in the name's origin, "unsafe" means only that too short a buffer is the
/// caller's fault; here that is excluded up front.
pub fn buf_to_i32_unsafe(buffer: &[u8]) -> (r: i32)
    requires
        buffer@.len() >= 4,
    ensures
        r == spec_be_i32(buffer@),
{
    let u: u32 = buf_to_u32_unsafe(buffer);
    if u >= 0x8000_0000 {
        proof {
            assert(u - 0x1_0000_0000 >= -0x8000_0000 && u - 0x1_0000_0000 <= -1);
        }
        ((u as i64) - 0x1_0000_0000) as i32
    } else {
        u as i32
    }
}

/// The eight-byte big-endian spelling of `value`.
pub fn u64_to_buf(value: u64) -> (buffer: [u8; 8])
    ensures
        buffer@ == spec_u64_to_be_bytes(value),
{
    let buffer: [u8; 8] = [
        ((value >> 56) & 0xFF) as u8,
        ((value >> 48) & 0xFF) as u8,
        ((value >> 40) & 0xFF) as u8,
        ((value >> 32) & 0xFF) as u8,
        ((value >> 24) & 0xFF) as u8,
        ((value >> 16) & 0xFF) as u8,
        ((value >> 8) & 0xFF) as u8,
        (value & 0xFF) as u8,
    ];
    proof {
        assert(buffer@ =~= spec_u64_to_be_bytes(value));
    }
    buffer
}

/// Big-endian unsigned 32-bit read of the first four bytes.
pub fn buf_to_u32_unsafe(buffer: &[u8]) -> (r: u32)
    requires
        buffer@.len() >= 4,
    ensures
        r == spec_be_u32(buffer@),
{
    ((buffer[0] as u32) << 24) | ((buffer[1] as u32) << 16) | ((buffer[2] as u32) << 8) | (
    buffer[3] as u32)
}

/// Big-endian unsigned 64-bit read of the first eight bytes, refused when the
/// buffer is shorter than eight bytes.
pub fn buf_to_u64(buffer: &[u8]) -> (r: Result<u64, MyError>)
    ensures
        buffer@.len() >= 8 ==> r == Ok::<u64, MyError>(spec_be_u64(buffer@)),
        buffer@.len() < 8 ==> r == Err::<u64, MyError>(MyError::BufferError),
{
    if buffer.len() < 8 {
        return Err(MyError::BufferError);
    }
    let result: u64 = ((buffer[0] as u64) << 56) | ((buffer[1] as u64) << 48) | ((buffer[2]
        as u64) << 40) | ((buffer[3] as u64) << 32) | ((buffer[4] as u64) << 24) | ((buffer[5]
        as u64) << 16) | ((buffer[6] as u64) << 8) | (buffer[7] as u64);
    Ok(result)
}

/// Appends the eight bytes of a value's spelling.
pub(crate) fn push_bytes(dst: &mut Vec<u8>, buf: &[u8; 8])
    ensures
        final(dst)@ == old(dst)@ + buf@,
{
    let mut i: usize = 0;
    while i < 8
        invariant
            i <= 8,
            dst@ == old(dst)@ + buf@.take(i as int),
        decreases 8 - i,
    {
        dst.push(buf[i]);
        proof {
            assert(dst@ =~= old(dst)@ + buf@.take(i + 1));
        }
        i = i + 1;
    }
    proof {
        assert(buf@.take(8) =~= buf@);
    }
}

/// Appends the eight-byte big-endian spelling of `v`.
pub(crate) fn push_u64(dst: &mut Vec<u8>, v: u64)
    ensures
        final(dst)@ == old(dst)@ + spec_u64_to_be_bytes(v),
{
    let buf = u64_to_buf(v);
    push_bytes(dst, &buf);
}

/// A copy of `src[from..to]` as a fresh vector.
pub fn vec_take(src: &Vec<u8>, from: usize, to: usize) -> (r: Vec<u8>)
    requires
        from <= to <= src@.len(),
    ensures
        r@ == src@.subrange(from as int, to as int),
{
    let mut r: Vec<u8> = Vec::new();
    let mut i: usize = from;
    while i < to
        invariant
            from <= i <= to <= src@.len(),
            r@ == src@.subrange(from as int, i as int),
        decreases to - i,
    {
        r.push(src[i]);
        proof {
            assert(r@ =~= src@.subrange(from as int, (i + 1) as int));
        }
        i = i + 1;
    }
    r
}

} // verus!
