//! Big-endian integers and byte-string ordering, as used by every on-disk layout.

use vstd::prelude::*;

verus! {

/// The two bytes of `x`, most significant first.
pub open spec fn be16(x: u16) -> Seq<u8> {
    seq![(x / 256) as u8, (x % 256) as u8]
}

/// The four bytes of `x`, most significant first.
pub open spec fn be32(x: u32) -> Seq<u8> {
    seq![
        (x / 0x100_0000) as u8,
        ((x / 0x1_0000) % 256) as u8,
        ((x / 256) % 256) as u8,
        (x % 256) as u8,
    ]
}

/// The 16-bit integer whose big-endian bytes are `high`, `low`.
pub open spec fn from_be16(high: u8, low: u8) -> u16 {
    (high * 256 + low) as u16
}

/// The 32-bit integer whose big-endian bytes are `b0..b3`.
pub open spec fn from_be32(b0: u8, b1: u8, b2: u8, b3: u8) -> u32 {
    (b0 * 0x100_0000 + b1 * 0x1_0000 + b2 * 256 + b3) as u32
}

/// The 16-bit integer stored big-endian at `at` in `s`.
pub open spec fn read_be16(s: Seq<u8>, at: int) -> u16 {
    from_be16(s[at], s[at + 1])
}

/// The 32-bit integer stored big-endian at `at` in `s`.
pub open spec fn read_be32(s: Seq<u8>, at: int) -> u32 {
    from_be32(s[at], s[at + 1], s[at + 2], s[at + 3])
}

/// `s` with the bytes from `at` on replaced by `data`; `s` keeps its length.
pub open spec fn write_at(s: Seq<u8>, at: int, data: Seq<u8>) -> Seq<u8> {
    Seq::new(s.len(), |i: int| if at <= i < at + data.len() { data[i - at] } else { s[i] })
}

/// Strict lexicographic order on byte strings: a proper prefix comes first.
pub open spec fn bytes_lt(a: Seq<u8>, b: Seq<u8>) -> bool
    decreases a.len(),
{
    if b.len() == 0 {
        false
    } else if a.len() == 0 {
        true
    } else if a[0] != b[0] {
        a[0] < b[0]
    } else {
        bytes_lt(a.skip(1), b.skip(1))
    }
}

pub proof fn lemma_be16_round_trip(x: u16)
    ensures
        from_be16(be16(x)[0], be16(x)[1]) == x,
        be16(x).len() == 2,
{
}

pub proof fn lemma_be32_round_trip(x: u32)
    ensures
        from_be32(be32(x)[0], be32(x)[1], be32(x)[2], be32(x)[3]) == x,
        be32(x).len() == 4,
{
}

pub proof fn lemma_from_be32_round_trip(b0: u8, b1: u8, b2: u8, b3: u8)
    ensures
        be32(from_be32(b0, b1, b2, b3)) == seq![b0, b1, b2, b3],
{
    let x: u32 = from_be32(b0, b1, b2, b3);
    assert(x == (b0 as u32) * 0x100_0000 + (b1 as u32) * 0x1_0000 + (b2 as u32) * 256 + (b3 as u32));
    assert((x / 0x100_0000) as u8 == b0 && ((x / 0x1_0000) % 256) as u8 == b1 && ((x / 256) % 256) as u8
        == b2 && (x % 256) as u8 == b3) by (bit_vector)
        requires
            x == (b0 as u32) * 0x100_0000 + (b1 as u32) * 0x1_0000 + (b2 as u32) * 256 + (b3 as u32),
    ;
    assert(be32(x) =~= seq![b0, b1, b2, b3]);
}

/// A write leaves every range that it does not touch as it was.
pub proof fn lemma_write_at_frame(s: Seq<u8>, at: int, data: Seq<u8>, lo: int, hi: int)
    requires
        0 <= lo <= hi <= s.len(),
        hi <= at || at + data.len() <= lo,
    ensures
        write_at(s, at, data).subrange(lo, hi) == s.subrange(lo, hi),
{
    assert(write_at(s, at, data).subrange(lo, hi) =~= s.subrange(lo, hi));
}

/// A write that fits can be read back.
pub proof fn lemma_write_at_read(s: Seq<u8>, at: int, data: Seq<u8>)
    requires
        0 <= at,
        at + data.len() <= s.len(),
    ensures
        write_at(s, at, data).subrange(at, at + data.len()) == data,
        write_at(s, at, data).len() == s.len(),
{
    assert(write_at(s, at, data).subrange(at, at + data.len()) =~= data);
}

/// Combines two bytes into the 16-bit integer that they spell, high byte first.
pub fn combine_bytes(high_byte: u8, low_byte: u8) -> (combined: u16)
    ensures
        combined == from_be16(high_byte, low_byte),
{
    (high_byte as u16) * 256 + (low_byte as u16)
}

/// Reads the big-endian 32-bit integer at `offset`.
pub fn bytes_to_u32(buffer: &[u8], offset: usize) -> (value: u32)
    requires
        offset + 4 <= buffer@.len(),
    ensures
        value == read_be32(buffer@, offset as int),
{
    (buffer[offset] as u32) * 0x100_0000 + (buffer[offset + 1] as u32) * 0x1_0000 + (buffer[offset
        + 2] as u32) * 256 + (buffer[offset + 3] as u32)
}

/// Reads the big-endian 16-bit integer at `offset`.
pub fn bytes_to_u16(buffer: &[u8], offset: usize) -> (value: u16)
    requires
        offset + 2 <= buffer@.len(),
    ensures
        value == read_be16(buffer@, offset as int),
{
    combine_bytes(buffer[offset], buffer[offset + 1])
}

/// The big-endian bytes of `x`.
pub fn u16_to_bytes(x: u16) -> (out: [u8; 2])
    ensures
        out@ == be16(x),
{
    let out: [u8; 2] = [(x / 256) as u8, (x % 256) as u8];
    assert(out@ =~= be16(x));
    out
}

/// The big-endian bytes of `x`.
pub fn u32_to_bytes(x: u32) -> (out: [u8; 4])
    ensures
        out@ == be32(x),
{
    let out: [u8; 4] = [
        (x / 0x100_0000) as u8,
        ((x / 0x1_0000) % 256) as u8,
        ((x / 256) % 256) as u8,
        (x % 256) as u8,
    ];
    assert(out@ =~= be32(x));
    out
}

/// Whether `a` comes strictly before `b` in lexicographic byte order.
pub fn bytes_less(a: &[u8], b: &[u8]) -> (less: bool)
    ensures
        less == bytes_lt(a@, b@),
{
    let mut i: usize = 0;
    assert(a@.skip(0) =~= a@ && b@.skip(0) =~= b@);
    while i < a.len() && i < b.len()
        invariant
            i <= a@.len(),
            i <= b@.len(),
            bytes_lt(a@, b@) == bytes_lt(a@.skip(i as int), b@.skip(i as int)),
        decreases a@.len() - i,
    {
        proof {
            let ra = a@.skip(i as int);
            let rb = b@.skip(i as int);
            assert(ra[0] == a@[i as int]);
            assert(rb[0] == b@[i as int]);
            assert(ra.skip(1) =~= a@.skip(i + 1));
            assert(rb.skip(1) =~= b@.skip(i + 1));
        }
        if a[i] != b[i] {
            return a[i] < b[i];
        }
        i += 1;
    }
    proof {
        assert(a@.skip(i as int).len() == a@.len() - i);
        assert(b@.skip(i as int).len() == b@.len() - i);
    }
    i < b.len()
}

/// Whether `a` and `b` hold the same bytes.
pub fn bytes_equal(a: &[u8], b: &[u8]) -> (same: bool)
    ensures
        same == (a@ == b@),
{
    if a.len() != b.len() {
        return false;
    }
    let mut i: usize = 0;
    while i < a.len()
        invariant
            i <= a@.len(),
            a@.len() == b@.len(),
            a@.subrange(0, i as int) == b@.subrange(0, i as int),
        decreases a@.len() - i,
    {
        if a[i] != b[i] {
            return false;
        }
        assert(a@.subrange(0, i + 1) =~= a@.subrange(0, i as int).push(a@[i as int]));
        assert(b@.subrange(0, i + 1) =~= b@.subrange(0, i as int).push(b@[i as int]));
        i += 1;
    }
    assert(a@ =~= a@.subrange(0, a@.len() as int));
    assert(b@ =~= b@.subrange(0, b@.len() as int));
    true
}

/// Appends `src` to `out`.
pub fn append_bytes(out: &mut Vec<u8>, src: &[u8])
    ensures
        final(out)@ == old(out)@ + src@,
{
    let mut i: usize = 0;
    while i < src.len()
        invariant
            i <= src@.len(),
            out@ == old(out)@ + src@.subrange(0, i as int),
        decreases src@.len() - i,
    {
        out.push(src[i]);
        assert(src@.subrange(0, i + 1) =~= src@.subrange(0, i as int).push(src@[i as int]));
        assert(out@ =~= old(out)@ + src@.subrange(0, i + 1));
        i += 1;
    }
    assert(src@ =~= src@.subrange(0, src@.len() as int));
}

/// The bytes `[from, to)` of `src`, copied out.
pub fn copy_range(src: &[u8], from: usize, to: usize) -> (out: Vec<u8>)
    requires
        from <= to <= src@.len(),
    ensures
        out@ == src@.subrange(from as int, to as int),
{
    let mut out: Vec<u8> = Vec::new();
    let mut i: usize = from;
    while i < to
        invariant
            from <= i <= to <= src@.len(),
            out@ == src@.subrange(from as int, i as int),
        decreases to - i,
    {
        out.push(src[i]);
        assert(src@.subrange(from as int, i + 1) =~= src@.subrange(from as int, i as int).push(
            src@[i as int],
        ));
        i += 1;
    }
    out
}

} // verus!
