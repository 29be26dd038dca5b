//! Bytes on the wire: big-endian integers, padding, and the packet checksum.

use vstd::prelude::*;

verus! {

/// The 16-bit number whose big-endian bytes stand at `at` in `s`.
pub open spec fn be16(s: Seq<u8>, at: int) -> u16 {
    (s[at] * 0x100 + s[at + 1]) as u16
}

/// The 32-bit number whose big-endian bytes stand at `at` in `s`.
pub open spec fn be32(s: Seq<u8>, at: int) -> u32 {
    (s[at] * 0x100_0000 + s[at + 1] * 0x1_0000 + s[at + 2] * 0x100 + s[at + 3]) as u32
}

/// The 32-bit number whose little-endian bytes stand at `at` in `s`.
pub open spec fn le32(s: Seq<u8>, at: int) -> u32 {
    (s[at + 3] * 0x100_0000 + s[at + 2] * 0x1_0000 + s[at + 1] * 0x100 + s[at]) as u32
}

/// The big-endian bytes of a 16-bit number.
pub open spec fn bytes16(v: u16) -> Seq<u8> {
    seq![(v / 0x100) as u8, (v % 0x100) as u8]
}

/// The big-endian bytes of a 32-bit number.
pub open spec fn bytes32(v: u32) -> Seq<u8> {
    seq![
        (v / 0x100_0000) as u8,
        ((v / 0x1_0000) % 0x100) as u8,
        ((v / 0x100) % 0x100) as u8,
        (v % 0x100) as u8,
    ]
}

/// The little-endian bytes of a 32-bit number.
pub open spec fn bytes32_le(v: u32) -> Seq<u8> {
    seq![
        (v % 0x100) as u8,
        ((v / 0x100) % 0x100) as u8,
        ((v / 0x1_0000) % 0x100) as u8,
        (v / 0x100_0000) as u8,
    ]
}

/// `n` rounded up to a multiple of four.
pub open spec fn padded(n: int) -> int {
    (n + 3) / 4 * 4
}

/// `n` zero bytes.
pub open spec fn zeros(n: nat) -> Seq<u8> {
    Seq::new(n, |i: int| 0u8)
}

/// Reads a big-endian 16-bit number.
pub fn read_u16(raw: &Vec<u8>, at: usize) -> (v: u16)
    requires
        at + 2 <= raw.len(),
    ensures
        v == be16(raw@, at as int),
{
    (raw[at] as u16) * 0x100 + raw[at + 1] as u16
}

/// Reads a big-endian 32-bit number.
pub fn read_u32(raw: &Vec<u8>, at: usize) -> (v: u32)
    requires
        at + 4 <= raw.len(),
    ensures
        v == be32(raw@, at as int),
{
    (raw[at] as u32) * 0x100_0000 + (raw[at + 1] as u32) * 0x1_0000 + (raw[at + 2] as u32) * 0x100
        + raw[at + 3] as u32
}

/// Reads a little-endian 32-bit number.
pub fn read_u32_le(raw: &Vec<u8>, at: usize) -> (v: u32)
    requires
        at + 4 <= raw.len(),
    ensures
        v == le32(raw@, at as int),
{
    (raw[at + 3] as u32) * 0x100_0000 + (raw[at + 2] as u32) * 0x1_0000 + (raw[at + 1] as u32) * 0x100
        + raw[at] as u32
}

/// Appends a big-endian 16-bit number.
pub fn write_u16(out: &mut Vec<u8>, v: u16)
    ensures
        final(out)@ == old(out)@ + bytes16(v),
{
    out.push((v / 0x100) as u8);
    out.push((v % 0x100) as u8);
    assert(out@ =~= old(out)@ + bytes16(v));
}

/// Appends a big-endian 32-bit number.
pub fn write_u32(out: &mut Vec<u8>, v: u32)
    ensures
        final(out)@ == old(out)@ + bytes32(v),
{
    out.push((v / 0x100_0000) as u8);
    out.push(((v / 0x1_0000) % 0x100) as u8);
    out.push(((v / 0x100) % 0x100) as u8);
    out.push((v % 0x100) as u8);
    assert(out@ =~= old(out)@ + bytes32(v));
}

/// Appends the bytes of `src` from `from` up to `to`.
pub fn write_range(out: &mut Vec<u8>, src: &Vec<u8>, from: usize, to: usize)
    requires
        from <= to <= src.len(),
    ensures
        final(out)@ == old(out)@ + src@.subrange(from as int, to as int),
{
    let mut i: usize = from;
    while i < to
        invariant
            from <= i <= to <= src.len(),
            out@ == old(out)@ + src@.subrange(from as int, i as int),
        decreases to - i,
    {
        out.push(src[i]);
        assert(out@ =~= old(out)@ + src@.subrange(from as int, i + 1));
        i = i + 1;
    }
}

/// Appends `n` zero bytes.
pub fn write_zeros(out: &mut Vec<u8>, n: usize)
    ensures
        final(out)@ == old(out)@ + zeros(n as nat),
{
    let mut i: usize = 0;
    while i < n
        invariant
            i <= n,
            out@ == old(out)@ + zeros(i as nat),
        decreases n - i,
    {
        out.push(0u8);
        assert(out@ =~= old(out)@ + zeros((i + 1) as nat));
        i = i + 1;
    }
}

/// The bytes of `src` from `from` up to `to`.
pub fn copy_range(src: &Vec<u8>, from: usize, to: usize) -> (out: Vec<u8>)
    requires
        from <= to <= src.len(),
    ensures
        out@ == src@.subrange(from as int, to as int),
{
    let mut out: Vec<u8> = Vec::new();
    write_range(&mut out, src, from, to);
    assert(out@ =~= src@.subrange(from as int, to as int));
    out
}

/// Reading the bytes that were written for a 16-bit number gives the number back.
pub proof fn lemma_be16_bytes16(v: u16, before: Seq<u8>, after: Seq<u8>)
    ensures
        be16(before + bytes16(v) + after, before.len() as int) == v,
{
    let s = before + bytes16(v) + after;
    let n = before.len() as int;
    assert(s[n] == bytes16(v)[0]);
    assert(s[n + 1] == bytes16(v)[1]);
}

/// Reading the bytes that were written for a 32-bit number gives the number back.
pub proof fn lemma_be32_bytes32(v: u32, before: Seq<u8>, after: Seq<u8>)
    ensures
        be32(before + bytes32(v) + after, before.len() as int) == v,
{
    let s = before + bytes32(v) + after;
    let n = before.len() as int;
    assert(s[n] == bytes32(v)[0]);
    assert(s[n + 1] == bytes32(v)[1]);
    assert(s[n + 2] == bytes32(v)[2]);
    assert(s[n + 3] == bytes32(v)[3]);
}

/// The polynomial of the CRC-32C checksum, bits reversed.
pub const CRC32C_POLY: u32 = 0x82f6_3b78;

/// One bit's step of the checksum.
pub open spec fn crc_shift(crc: u32) -> u32 {
    if crc & 1 == 1 {
        (crc >> 1) ^ CRC32C_POLY
    } else {
        crc >> 1
    }
}

/// One byte's step of the checksum.
pub open spec fn crc_byte(crc: u32, b: u8) -> u32 {
    crc_shift(
        crc_shift(crc_shift(crc_shift(crc_shift(crc_shift(crc_shift(crc_shift(crc ^ (b as u32)))))))),
    )
}

/// The checksum register after the bytes of `s`, starting from `crc`.
pub open spec fn crc_fold(crc: u32, s: Seq<u8>) -> u32
    decreases s.len(),
{
    if s.len() == 0 {
        crc
    } else {
        crc_byte(crc_fold(crc, s.drop_last()), s.last())
    }
}

/// The CRC-32C checksum of `s`.
pub open spec fn crc32c(s: Seq<u8>) -> u32 {
    crc_fold(0xffff_ffff, s) ^ 0xffff_ffff
}

/// One bit's step of the checksum.
fn shift(crc: u32) -> (r: u32)
    ensures
        r == crc_shift(crc),
{
    if crc & 1 == 1 {
        (crc >> 1) ^ CRC32C_POLY
    } else {
        crc >> 1
    }
}

/// Feeds the bytes of `raw` from `from` up to `to` into the checksum register `crc`.
pub fn checksum_update(crc: u32, raw: &Vec<u8>, from: usize, to: usize) -> (r: u32)
    requires
        from <= to <= raw.len(),
    ensures
        r == crc_fold(crc, raw@.subrange(from as int, to as int)),
{
    let mut c: u32 = crc;
    let mut i: usize = from;
    assert(raw@.subrange(from as int, from as int) =~= Seq::<u8>::empty());
    while i < to
        invariant
            from <= i <= to <= raw.len(),
            c == crc_fold(crc, raw@.subrange(from as int, i as int)),
        decreases to - i,
    {
        proof {
            let next = raw@.subrange(from as int, i + 1);
            assert(next.drop_last() =~= raw@.subrange(from as int, i as int));
            assert(next.last() == raw@[i as int]);
        }
        c = c ^ (raw[i] as u32);
        c = shift(shift(shift(shift(shift(shift(shift(shift(c))))))));
        i = i + 1;
    }
    c
}

/// The checksum of a packet: the CRC-32C of its bytes with the checksum
/// field, the bytes 8 to 11, taken as zero.
pub open spec fn packet_checksum(raw: Seq<u8>) -> u32 {
    crc32c(raw.subrange(0, 8) + zeros(4) + raw.subrange(12, raw.len() as int))
}

/// Feeding a string into the checksum piece by piece is the same as feeding it whole.
pub proof fn lemma_crc_fold_add(crc: u32, a: Seq<u8>, b: Seq<u8>)
    ensures
        crc_fold(crc, a + b) == crc_fold(crc_fold(crc, a), b),
    decreases b.len(),
{
    if b.len() == 0 {
        assert(a + b =~= a);
    } else {
        lemma_crc_fold_add(crc, a, b.drop_last());
        assert((a + b).drop_last() =~= a + b.drop_last());
        assert((a + b).last() == b.last());
    }
}

/// Computes the checksum of a packet.
pub fn generate_packet_checksum(raw: &Vec<u8>) -> (r: u32)
    requires
        raw.len() >= 12,
    ensures
        r == packet_checksum(raw@),
{
    let zero: Vec<u8> = vec![0u8, 0u8, 0u8, 0u8];
    let c: u32 = checksum_update(0xffff_ffff, raw, 0, 8);
    let c: u32 = checksum_update(c, &zero, 0, 4);
    let c: u32 = checksum_update(c, raw, 12, raw.len());
    proof {
        assert(zero@.subrange(0, 4) =~= zeros(4));
        lemma_crc_fold_add(0xffff_ffff, raw@.subrange(0, 8), zeros(4));
        lemma_crc_fold_add(
            0xffff_ffff,
            raw@.subrange(0, 8) + zeros(4),
            raw@.subrange(12, raw.len() as int),
        );
    }
    c ^ 0xffff_ffff
}

} // verus!
