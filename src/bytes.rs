use vstd::prelude::*;

verus! {

/// The four little-endian bytes of `v`.
pub open spec fn u32_le(v: u32) -> Seq<u8> {
    seq![
        (v & 0xff) as u8,
        ((v >> 8u32) & 0xff) as u8,
        ((v >> 16u32) & 0xff) as u8,
        ((v >> 24u32) & 0xff) as u8,
    ]
}

/// The four little-endian bytes of `v`, in two's complement.
pub open spec fn i32_le(v: i32) -> Seq<u8> {
    u32_le(v as u32)
}

/// The `u32` whose little-endian bytes start at `at` in `s`.
pub open spec fn u32_at(s: Seq<u8>, at: int) -> u32 {
    (s[at] as u32) | ((s[at + 1] as u32) << 8u32) | ((s[at + 2] as u32) << 16u32) | ((
    s[at + 3] as u32) << 24u32)
}

/// The `i32` whose little-endian bytes start at `at` in `s`.
pub open spec fn i32_at(s: Seq<u8>, at: int) -> i32 {
    u32_at(s, at) as i32
}

/// Reading back the bytes of a `u32` gives it again.
pub proof fn lemma_u32_round_trip(v: u32)
    ensures
        u32_at(u32_le(v), 0) == v,
{
    let b0 = (v & 0xff) as u8;
    let b1 = ((v >> 8u32) & 0xff) as u8;
    let b2 = ((v >> 16u32) & 0xff) as u8;
    let b3 = ((v >> 24u32) & 0xff) as u8;
    assert((b0 as u32) | ((b1 as u32) << 8u32) | ((b2 as u32) << 16u32) | ((b3 as u32) << 24u32)
        == v) by (bit_vector)
        requires
            b0 == (v & 0xff) as u8,
            b1 == ((v >> 8u32) & 0xff) as u8,
            b2 == ((v >> 16u32) & 0xff) as u8,
            b3 == ((v >> 24u32) & 0xff) as u8,
    ;
}

/// Reading back the bytes of an `i32` gives it again.
pub proof fn lemma_i32_round_trip(v: i32)
    ensures
        i32_at(i32_le(v), 0) == v,
{
    lemma_u32_round_trip(v as u32);
    assert((v as u32) as i32 == v) by (bit_vector);
}

/// Appends the little-endian bytes of `v`.
pub fn push_u32(out: &mut Vec<u8>, v: u32)
    ensures
        final(out)@ == old(out)@ + u32_le(v),
{
    out.push((v & 0xff) as u8);
    out.push(((v >> 8u32) & 0xff) as u8);
    out.push(((v >> 16u32) & 0xff) as u8);
    out.push(((v >> 24u32) & 0xff) as u8);
    assert(out@ =~= old(out)@ + u32_le(v));
}

/// Appends the little-endian bytes of `v`.
pub fn push_i32(out: &mut Vec<u8>, v: i32)
    ensures
        final(out)@ == old(out)@ + i32_le(v),
{
    push_u32(out, v as u32);
}

/// The `u32` whose little-endian bytes start at `at`.
pub fn read_u32(bytes: &Vec<u8>, at: usize) -> (r: u32)
    requires
        at + 4 <= bytes@.len(),
    ensures
        r == u32_at(bytes@, at as int),
{
    let n = bytes.len();
    assert(at + 4 <= n);
    (bytes[at] as u32) | ((bytes[at + 1] as u32) << 8u32) | ((bytes[at + 2] as u32) << 16u32) | ((
    bytes[at + 3] as u32) << 24u32)
}

/// The `i32` whose little-endian bytes start at `at`.
pub fn read_i32(bytes: &Vec<u8>, at: usize) -> (r: i32)
    requires
        at + 4 <= bytes@.len(),
    ensures
        r == i32_at(bytes@, at as int),
{
    read_u32(bytes, at) as i32
}

} // verus!
