//! Little-endian integers inside byte strings, and the checksum.

use vstd::prelude::*;

verus! {

/// The CRC-32 (IEEE) checksum of a byte string, as `crc32fast` computes it.
pub uninterp spec fn crc32(b: Seq<u8>) -> u32;

/// Calls `crc32fast::hash`, which returns the CRC-32 checksum of the bytes. What
/// the checksum is has a name; nothing else is claimed of it.
#[verifier::external_body]
pub(crate) fn crc32_of(b: &[u8]) -> (c: u32)
    ensures
        c == crc32(b@),
{
    crc32fast::hash(b)
}

/// The bytes `[from, from + n)` of a byte string.
pub open spec fn slice(b: Seq<u8>, from: int, n: int) -> Seq<u8> {
    b.subrange(from, from + n)
}

/// The 16-bit integer at an offset, lowest byte first.
pub open spec fn u16_at(b: Seq<u8>, off: int) -> u16 {
    (b[off] as u16) | ((b[off + 1] as u16) << 8)
}

/// The bytes of a 16-bit integer, lowest byte first.
pub open spec fn le16(x: u16) -> Seq<u8> {
    seq![x as u8, (x >> 8) as u8]
}

/// The 32-bit integer at an offset, lowest byte first.
pub open spec fn u32_at(b: Seq<u8>, off: int) -> u32 {
    (b[off] as u32) | ((b[off + 1] as u32) << 8) | ((b[off + 2] as u32) << 16) | ((b[off + 3] as u32) << 24)
}

/// The bytes of a 32-bit integer, lowest byte first.
pub open spec fn le32(x: u32) -> Seq<u8> {
    seq![x as u8, (x >> 8) as u8, (x >> 16) as u8, (x >> 24) as u8]
}

/// The 64-bit integer at an offset, lowest byte first.
pub open spec fn u64_at(b: Seq<u8>, off: int) -> u64 {
    (b[off] as u64) | ((b[off + 1] as u64) << 8) | ((b[off + 2] as u64) << 16) | ((b[off + 3] as u64) << 24) | ((b[off + 4] as u64) << 32) | ((b[off + 5] as u64) << 40) | ((b[off + 6] as u64) << 48) | ((b[off + 7] as u64) << 56)
}

/// The bytes of a 64-bit integer, lowest byte first.
pub open spec fn le64(x: u64) -> Seq<u8> {
    seq![x as u8, (x >> 8) as u8, (x >> 16) as u8, (x >> 24) as u8, (x >> 32) as u8, (x >> 40) as u8, (x >> 48) as u8, (x >> 56) as u8]
}

/// Integers survive being written down.
pub proof fn lemma_le(x: u16, y: u32, z: u64)
    ensures
        le16(x).len() == 2,
        le32(y).len() == 4,
        le64(z).len() == 8,
        u16_at(le16(x), 0) == x,
        u32_at(le32(y), 0) == y,
        u64_at(le64(z), 0) == z,
{
    assert(((x as u8) as u16) | ((((x >> 8) as u8) as u16) << 8) == x) by (bit_vector);
    assert(((y as u8) as u32) | ((((y >> 8) as u8) as u32) << 8) | ((((y >> 16) as u8) as u32) << 16) | ((((y >> 24) as u8) as u32) << 24) == y) by (bit_vector);
    assert(((z as u8) as u64) | ((((z >> 8) as u8) as u64) << 8) | ((((z >> 16) as u8) as u64) << 16) | ((((z >> 24) as u8) as u64) << 24) | ((((z >> 32) as u8) as u64) << 32) | ((((z >> 40) as u8) as u64) << 40) | ((((z >> 48) as u8) as u64) << 48) | ((((z >> 56) as u8) as u64) << 56) == z) by (bit_vector);
}

/// Integers stand lowest byte first: each byte counts 256 times as much as the one before
/// it.
pub proof fn law_integers_stand_lowest_byte_first(b: Seq<u8>, off: int)
    ensures
        u16_at(b, off) == b[off] + 0x100 * b[off + 1],
        u32_at(b, off) == u16_at(b, off) + 0x1_0000 * u16_at(b, off + 2),
        u64_at(b, off) == u32_at(b, off) + 0x1_0000_0000 * u32_at(b, off + 4),
{
    let (a0, a1, a2, a3) = (b[off], b[off + 1], b[off + 2], b[off + 3]);
    let (a4, a5, a6, a7) = (b[off + 4], b[off + 5], b[off + 6], b[off + 7]);
    assert((a0 as u16) | ((a1 as u16) << 8) == a0 + 0x100 * a1) by (bit_vector);
    assert((a0 as u32) | ((a1 as u32) << 8) | ((a2 as u32) << 16) | ((a3 as u32) << 24) == ((a0 as u16) | ((a1 as u16) << 8)) + 0x1_0000 * ((a2 as u16) | ((a3 as u16) << 8))) by (bit_vector);
    assert((a0 as u64) | ((a1 as u64) << 8) | ((a2 as u64) << 16) | ((a3 as u64) << 24) | ((a4 as u64) << 32) | ((a5 as u64) << 40) | ((a6 as u64) << 48) | ((a7 as u64) << 56) == ((a0 as u32) | ((a1 as u32) << 8) | ((a2 as u32) << 16) | ((a3 as u32) << 24)) + 0x1_0000_0000 * ((a4 as u32) | ((a5 as u32) << 8) | ((a6 as u32) << 16) | ((a7 as u32) << 24))) by (bit_vector);
}

/// Writing down an integer that was read gives the bytes that it was read from.
pub proof fn law_integers_give_their_bytes_back(b: Seq<u8>, off: int)
    requires
        0 <= off,
    ensures
        off + 2 <= b.len() ==> le16(u16_at(b, off)) == slice(b, off, 2),
        off + 4 <= b.len() ==> le32(u32_at(b, off)) == slice(b, off, 4),
        off + 8 <= b.len() ==> le64(u64_at(b, off)) == slice(b, off, 8),
{
    let (a0, a1, a2, a3) = (b[off], b[off + 1], b[off + 2], b[off + 3]);
    let (a4, a5, a6, a7) = (b[off + 4], b[off + 5], b[off + 6], b[off + 7]);
    let x = (a0 as u16) | ((a1 as u16) << 8);
    assert(x as u8 == a0 && (x >> 8) as u8 == a1) by (bit_vector)
        requires
            x == (a0 as u16) | ((a1 as u16) << 8),
    ;
    let y = (a0 as u32) | ((a1 as u32) << 8) | ((a2 as u32) << 16) | ((a3 as u32) << 24);
    assert(y as u8 == a0 && (y >> 8) as u8 == a1 && (y >> 16) as u8 == a2 && (y >> 24) as u8 == a3) by (bit_vector)
        requires
            y == (a0 as u32) | ((a1 as u32) << 8) | ((a2 as u32) << 16) | ((a3 as u32) << 24),
    ;
    let z = (a0 as u64) | ((a1 as u64) << 8) | ((a2 as u64) << 16) | ((a3 as u64) << 24) | ((a4 as u64) << 32) | ((a5 as u64) << 40) | ((a6 as u64) << 48) | ((a7 as u64) << 56);
    assert(z as u8 == a0 && (z >> 8) as u8 == a1 && (z >> 16) as u8 == a2 && (z >> 24) as u8 == a3 && (z >> 32) as u8 == a4 && (z >> 40) as u8 == a5 && (z >> 48) as u8 == a6 && (z >> 56) as u8 == a7) by (bit_vector)
        requires
            z == (a0 as u64) | ((a1 as u64) << 8) | ((a2 as u64) << 16) | ((a3 as u64) << 24) | ((a4 as u64) << 32) | ((a5 as u64) << 40) | ((a6 as u64) << 48) | ((a7 as u64) << 56),
    ;
    if off + 2 <= b.len() {
        assert(le16(x) =~= slice(b, off, 2));
    }
    if off + 4 <= b.len() {
        assert(le32(y) =~= slice(b, off, 4));
    }
    if off + 8 <= b.len() {
        assert(le64(z) =~= slice(b, off, 8));
    }
}

/// Zeros read as zero.
pub proof fn lemma_zero_ints(b: Seq<u8>, off: int)
    ensures
        (forall|i: int| off <= i < off + 8 ==> #[trigger] b[i] == 0) ==> u64_at(b, off) == 0,
{
    let z: u8 = 0;
    assert((z as u64) | ((z as u64) << 8) | ((z as u64) << 16) | ((z as u64) << 24) | ((z as u64) << 32) | ((z as u64) << 40) | ((z as u64) << 48) | ((z as u64) << 56) == 0) by (bit_vector)
        requires
            z == 0,
    ;
}

/// Reads a 16-bit integer.
pub fn read_u16(b: &[u8], off: usize) -> (x: u16)
    requires
        off + 2 <= b@.len(),
    ensures
        x == u16_at(b@, off as int),
{
    let n: usize = b.len();
    assert(off + 2 <= n);
    (b[off] as u16) | ((b[off + 1] as u16) << 8)
}

/// Reads a 32-bit integer.
pub fn read_u32(b: &[u8], off: usize) -> (x: u32)
    requires
        off + 4 <= b@.len(),
    ensures
        x == u32_at(b@, off as int),
{
    let n: usize = b.len();
    assert(off + 4 <= n);
    (b[off] as u32) | ((b[off + 1] as u32) << 8) | ((b[off + 2] as u32) << 16) | ((b[off + 3] as u32) << 24)
}

/// Reads a 64-bit integer.
pub fn read_u64(b: &[u8], off: usize) -> (x: u64)
    requires
        off + 8 <= b@.len(),
    ensures
        x == u64_at(b@, off as int),
{
    let n: usize = b.len();
    assert(off + 8 <= n);
    (b[off] as u64) | ((b[off + 1] as u64) << 8) | ((b[off + 2] as u64) << 16) | ((b[off + 3] as u64) << 24) | ((b[off + 4] as u64) << 32) | ((b[off + 5] as u64) << 40) | ((b[off + 6] as u64) << 48) | ((b[off + 7] as u64) << 56)
}

/// Appends a 16-bit integer.
pub fn push_u16(v: &mut Vec<u8>, x: u16)
    ensures
        final(v)@ == old(v)@ + le16(x),
{
    v.push(x as u8);
    v.push((x >> 8) as u8);
    assert(v@ =~= old(v)@ + le16(x));
}

/// Appends a 32-bit integer.
pub fn push_u32(v: &mut Vec<u8>, x: u32)
    ensures
        final(v)@ == old(v)@ + le32(x),
{
    v.push(x as u8);
    v.push((x >> 8) as u8);
    v.push((x >> 16) as u8);
    v.push((x >> 24) as u8);
    assert(v@ =~= old(v)@ + le32(x));
}

/// Appends a 64-bit integer.
pub fn push_u64(v: &mut Vec<u8>, x: u64)
    ensures
        final(v)@ == old(v)@ + le64(x),
{
    v.push(x as u8);
    v.push((x >> 8) as u8);
    v.push((x >> 16) as u8);
    v.push((x >> 24) as u8);
    v.push((x >> 32) as u8);
    v.push((x >> 40) as u8);
    v.push((x >> 48) as u8);
    v.push((x >> 56) as u8);
    assert(v@ =~= old(v)@ + le64(x));
}

pub fn push_bytes(v: &mut Vec<u8>, b: &[u8])
    ensures
        final(v)@ == old(v)@ + b@,
{
    let mut t = vstd::slice::slice_to_vec(b);
    v.append(&mut t);
}

/// Whether a byte string holds another one at an offset.
pub open spec fn holds(b: Seq<u8>, off: int, s: Seq<u8>) -> bool {
    0 <= off && off + s.len() <= b.len() && slice(b, off, s.len() as int) == s
}

/// What stands where a concatenation stands.
pub proof fn lemma_holds_add(b: Seq<u8>, off: int, s: Seq<u8>, t: Seq<u8>)
    requires
        holds(b, off, s + t),
    ensures
        holds(b, off, s),
        holds(b, off + s.len(), t),
{
    let whole = slice(b, off, (s + t).len() as int);
    assert(slice(b, off, s.len() as int) =~= whole.subrange(0, s.len() as int));
    assert((s + t).subrange(0, s.len() as int) =~= s);
    assert(slice(b, off + s.len(), t.len() as int) =~= whole.subrange(
        s.len() as int,
        (s + t).len() as int,
    ));
    assert((s + t).subrange(s.len() as int, (s + t).len() as int) =~= t);
}

/// The integers that are read where they were written.
pub proof fn lemma_holds_int(b: Seq<u8>, off: int, x: u16, y: u32, z: u64)
    ensures
        holds(b, off, le16(x)) ==> u16_at(b, off) == x,
        holds(b, off, le32(y)) ==> u32_at(b, off) == y,
        holds(b, off, le64(z)) ==> u64_at(b, off) == z,
{
    lemma_le(x, y, z);
    if holds(b, off, le16(x)) {
        lemma_same_ints(b, off, le16(x));
    }
    if holds(b, off, le32(y)) {
        lemma_same_ints(b, off, le32(y));
    }
    if holds(b, off, le64(z)) {
        lemma_same_ints(b, off, le64(z));
    }
}

/// Integers are read the same wherever their bytes stand.
proof fn lemma_same_ints(b: Seq<u8>, off: int, s: Seq<u8>)
    requires
        holds(b, off, s),
    ensures
        s.len() >= 2 ==> u16_at(b, off) == u16_at(s, 0),
        s.len() >= 4 ==> u32_at(b, off) == u32_at(s, 0),
        s.len() >= 8 ==> u64_at(b, off) == u64_at(s, 0),
{
    assert forall|i: int| 0 <= i < s.len() implies #[trigger] s[i] == b[off + i] by {
        assert(slice(b, off, s.len() as int)[i] == b[off + i]);
    }
}

/// A single byte.
pub proof fn lemma_holds_byte(b: Seq<u8>, off: int, x: u8)
    requires
        holds(b, off, seq![x]),
    ensures
        0 <= off < b.len(),
        b[off] == x,
{
    assert(slice(b, off, 1)[0] == x);
}

/// A byte string with the bytes from an offset on replaced.
pub open spec fn put(b: Seq<u8>, off: int, x: Seq<u8>) -> Seq<u8> {
    Seq::new(
        b.len(),
        |i: int|
            if off <= i < off + x.len() {
                x[i - off]
            } else {
                b[i]
            },
    )
}

/// Writes bytes at an offset.
pub fn write_bytes(b: &mut Vec<u8>, off: usize, x: &[u8])
    requires
        off + x@.len() <= old(b)@.len(),
    ensures
        final(b)@ == put(old(b)@, off as int, x@),
{
    let mut i: usize = 0;
    while i < x.len()
        invariant
            i <= x@.len(),
            off + x@.len() <= b@.len(),
            b@.len() == old(b)@.len(),
            b@ =~= put(old(b)@, off as int, x@.subrange(0, i as int)),
        decreases x.len() - i,
    {
        let v: u8 = x[i];
        let n: usize = b.len();
        assert(off + i < n);
        b.set(off + i, v);
        i = i + 1;
    }
    assert(x@.subrange(0, i as int) =~= x@);
    assert(b@ =~= put(old(b)@, off as int, x@));
}

pub fn write_u64(b: &mut Vec<u8>, off: usize, x: u64)
    requires
        off + 8 <= old(b)@.len(),
    ensures
        final(b)@ == put(old(b)@, off as int, le64(x)),
{
    let mut t: Vec<u8> = Vec::new();
    push_u64(&mut t, x);
    assert(t@ =~= le64(x));
    write_bytes(b, off, t.as_slice());
}

pub fn write_u32(b: &mut Vec<u8>, off: usize, x: u32)
    requires
        off + 4 <= old(b)@.len(),
    ensures
        final(b)@ == put(old(b)@, off as int, le32(x)),
{
    let mut t: Vec<u8> = Vec::new();
    push_u32(&mut t, x);
    assert(t@ =~= le32(x));
    write_bytes(b, off, t.as_slice());
}

/// Zeros.
pub open spec fn zeros(n: nat) -> Seq<u8> {
    Seq::new(n, |i: int| 0u8)
}

/// Appends zeros up to a length.
pub fn pad_to(v: &mut Vec<u8>, n: usize)
    requires
        old(v)@.len() <= n,
    ensures
        final(v)@ == old(v)@ + zeros((n - old(v)@.len()) as nat),
{
    while v.len() < n
        invariant
            old(v)@.len() <= v@.len() <= n,
            v@ =~= old(v)@ + zeros((v@.len() - old(v)@.len()) as nat),
        decreases n - v.len(),
    {
        v.push(0);
    }
}

/// Sets a byte.
pub fn set_u8(page: &mut [u8], off: usize, x: u8)
    requires
        off < old(page)@.len(),
    ensures
        final(page)@ == put(old(page)@, off as int, seq![x]),
{
    page[off] = x;
    assert(page@ =~= put(old(page)@, off as int, seq![x]));
}

/// Sets a 16-bit integer.
pub fn set_u16(page: &mut [u8], off: usize, x: u16)
    requires
        off + 2 <= old(page)@.len(),
    ensures
        final(page)@ == put(old(page)@, off as int, le16(x)),
{
    let n: usize = page.len();
    assert(off + 2 <= n);
    page[off] = x as u8;
    page[off + 1] = (x >> 8) as u8;
    assert(page@ =~= put(old(page)@, off as int, le16(x)));
}

/// Sets a 64-bit integer.
pub fn set_u64(page: &mut [u8], off: usize, x: u64)
    requires
        off + 8 <= old(page)@.len(),
    ensures
        final(page)@ == put(old(page)@, off as int, le64(x)),
{
    let n: usize = page.len();
    assert(off + 8 <= n);
    page[off] = x as u8;
    page[off + 1] = (x >> 8) as u8;
    page[off + 2] = (x >> 16) as u8;
    page[off + 3] = (x >> 24) as u8;
    page[off + 4] = (x >> 32) as u8;
    page[off + 5] = (x >> 40) as u8;
    page[off + 6] = (x >> 48) as u8;
    page[off + 7] = (x >> 56) as u8;
    assert(page@ =~= put(old(page)@, off as int, le64(x)));
}

/// Sets a run of bytes.
pub fn set_bytes(page: &mut [u8], off: usize, x: &[u8])
    requires
        off + x@.len() <= old(page)@.len(),
    ensures
        final(page)@ == put(old(page)@, off as int, x@),
{
    let n: usize = page.len();
    let mut i: usize = 0;
    while i < x.len()
        invariant
            i <= x@.len(),
            n == page@.len(),
            off + x@.len() <= n,
            page@.len() == old(page)@.len(),
            page@ =~= put(old(page)@, off as int, x@.subrange(0, i as int)),
        decreases x.len() - i,
    {
        page[off + i] = x[i];
        i = i + 1;
    }
    assert(x@.subrange(0, i as int) =~= x@);
    assert(page@ =~= put(old(page)@, off as int, x@));
}

/// Fills a page with zeros.
pub fn clear_bytes(page: &mut [u8])
    ensures
        final(page)@ == zeros(old(page)@.len()),
{
    let n: usize = page.len();
    let mut i: usize = 0;
    while i < n
        invariant
            i <= n,
            n == page@.len(),
            page@.len() == old(page)@.len(),
            forall|k: int| 0 <= k < i ==> #[trigger] page@[k] == 0,
        decreases n - i,
    {
        page[i] = 0;
        i = i + 1;
    }
    assert(page@ =~= zeros(old(page)@.len()));
}

} // verus!
