//! Overflow pages: parts of a value that does not fit into its record.
//!
//! The header is the page type (1 byte), 7 unused bytes, the page id (8), the
//! number of the last record (8), the next page of the chain (8, 0 at its end),
//! the length of the payload (2), 10 unused bytes and the checksum (4). The
//! payload follows.

use vstd::prelude::*;

use crate::bytes::{
    clear_bytes, le16, le64, lemma_holds_int, lemma_le, pad_to, put, read_u16, read_u64, set_bytes,
    set_u16, set_u64, set_u8, slice, u16_at, u64_at, zeros,
};
use crate::change::{Chunk, ChunkView, OVERFLOW_PAYLOAD_SIZE};
use crate::codec::{link, unlink};
use crate::constants::PAGE_SIZE;
use crate::error::PageError;
use crate::page::{blank, OFF_LSN, OFF_PAGE_ID, OFF_PAGE_TYPE, OVERFLOW};

verus! {

/// Offset of the next page of the chain.
pub const OFF_OVERFLOW_NEXT_PAGE_ID: usize = 24;

/// Offset of the length of the payload.
pub const OFF_OVERFLOW_CHUNK_LEN: usize = 32;

/// Offset of the payload.
pub const OVERFLOW_HEADER_SIZE: usize = 48;

/// An overflow page without a payload.
pub open spec fn empty_overflow_page(page_id: u64) -> Seq<u8> {
    put(put(zeros(PAGE_SIZE as nat), 0, seq![OVERFLOW]), 8, le64(page_id))
}

/// A page with another successor in its chain.
pub open spec fn with_next(b: Seq<u8>, next: Option<u64>) -> Seq<u8> {
    put(b, OFF_OVERFLOW_NEXT_PAGE_ID as int, le64(link(next)))
}

/// A page with another payload; what the payload does not fill is zero.
pub open spec fn with_chunk(b: Seq<u8>, chunk: Seq<u8>) -> Seq<u8> {
    put(
        put(b, OFF_OVERFLOW_CHUNK_LEN as int, le16(chunk.len() as u16)),
        OVERFLOW_HEADER_SIZE as int,
        chunk + zeros((OVERFLOW_PAYLOAD_SIZE - chunk.len()) as nat),
    )
}

/// Whether a page is an overflow page.
pub open spec fn is_overflow(b: Seq<u8>) -> bool {
    b.len() == PAGE_SIZE && b[0] == OVERFLOW
}

/// Builds an overflow page.
pub struct OverflowPageBuilder<'a> {
    pub data: &'a mut [u8],
}

impl<'a> OverflowPageBuilder<'a> {
    /// Clears a page and makes it an overflow page.
    pub fn new(page_id: u64, data: &'a mut [u8]) -> (b: OverflowPageBuilder<'a>)
        requires
            old(data)@.len() == PAGE_SIZE,
        ensures
            b.data@ == empty_overflow_page(page_id),
            final(data)@ == final(b.data)@,
    {
        clear_bytes(data);
        set_u8(data, OFF_PAGE_TYPE, OVERFLOW);
        set_u64(data, OFF_PAGE_ID, page_id);
        OverflowPageBuilder { data }
    }

    /// Sets the next page of the chain.
    pub fn set_next_page_id(&mut self, next_page: Option<u64>)
        requires
            is_overflow(old(self).data@),
        ensures
            final(self).data@ == with_next(old(self).data@, next_page),
            is_overflow(final(self).data@),
            final(final(self).data)@ == final(old(self).data)@,
    {
        let next: u64 = match next_page {
            Some(x) => x,
            None => 0,
        };
        set_u64(self.data, OFF_OVERFLOW_NEXT_PAGE_ID, next);
        proof {
            lemma_le(0, 0, next);
        }
    }

    /// Sets the payload and clears what it does not fill. Fails if it does not fit.
    pub fn set_chunk(&mut self, chunk: &[u8]) -> (r: Result<(), PageError>)
        requires
            is_overflow(old(self).data@),
        ensures
            r is Ok <==> chunk@.len() <= OVERFLOW_PAYLOAD_SIZE,
            r is Ok ==> final(self).data@ == with_chunk(old(self).data@, chunk@),
            r matches Err(e) ==> final(self).data@ == old(self).data@ && e
                == (PageError::InsufficientSpace {
                needed: chunk@.len() as usize,
                available: OVERFLOW_PAYLOAD_SIZE,
            }),
            is_overflow(final(self).data@),
            final(final(self).data)@ == final(old(self).data)@,
    {
        if chunk.len() > OVERFLOW_PAYLOAD_SIZE {
            return Err(
                PageError::InsufficientSpace {
                    needed: chunk.len(),
                    available: OVERFLOW_PAYLOAD_SIZE,
                },
            );
        }
        set_u16(self.data, OFF_OVERFLOW_CHUNK_LEN, chunk.len() as u16);
        let mut payload: Vec<u8> = vstd::slice::slice_to_vec(chunk);
        pad_to(&mut payload, OVERFLOW_PAYLOAD_SIZE);
        set_bytes(self.data, OVERFLOW_HEADER_SIZE, payload.as_slice());
        proof {
            lemma_le(chunk@.len() as u16, 0, 0);
        }
        Ok(())
    }

    /// The finished page.
    pub fn finish(self) -> (m: OverflowPageMutator<'a>)
        requires
            is_overflow(self.data@),
        ensures
            m.data@ == old(self.data)@,
            final(m.data)@ == final(self.data)@,
    {
        OverflowPageMutator::new(self.data)
    }
}

/// Reads an overflow page.
pub struct OverflowPageAccessor<'a> {
    pub data: &'a [u8],
}

impl<'a> OverflowPageAccessor<'a> {
    pub fn new(data: &'a [u8]) -> (a: OverflowPageAccessor<'a>)
        requires
            is_overflow(data@),
        ensures
            a.data@ == data@,
    {
        OverflowPageAccessor { data }
    }

    pub fn page_id(&self) -> (id: u64)
        requires
            is_overflow(self.data@),
        ensures
            id == u64_at(self.data@, OFF_PAGE_ID as int),
    {
        read_u64(self.data, OFF_PAGE_ID)
    }

    pub fn lsn(&self) -> (lsn: u64)
        requires
            is_overflow(self.data@),
        ensures
            lsn == u64_at(self.data@, OFF_LSN as int),
    {
        read_u64(self.data, OFF_LSN)
    }

    /// The next page of the chain.
    pub fn next_page_id(&self) -> (next: Option<u64>)
        requires
            is_overflow(self.data@),
        ensures
            next == unlink(u64_at(self.data@, OFF_OVERFLOW_NEXT_PAGE_ID as int)),
    {
        let v: u64 = read_u64(self.data, OFF_OVERFLOW_NEXT_PAGE_ID);
        if v == 0 {
            None
        } else {
            Some(v)
        }
    }

    /// The length of the payload.
    pub fn chunk_len(&self) -> (n: u16)
        requires
            is_overflow(self.data@),
        ensures
            n == u16_at(self.data@, OFF_OVERFLOW_CHUNK_LEN as int),
    {
        read_u16(self.data, OFF_OVERFLOW_CHUNK_LEN)
    }

    /// The payload.
    pub fn payload(&self) -> (b: &'a [u8])
        requires
            is_overflow(self.data@),
            u16_at(self.data@, OFF_OVERFLOW_CHUNK_LEN as int) <= OVERFLOW_PAYLOAD_SIZE,
        ensures
            b@ == slice(
                self.data@,
                OVERFLOW_HEADER_SIZE as int,
                u16_at(self.data@, OFF_OVERFLOW_CHUNK_LEN as int) as int,
            ),
    {
        let n: usize = self.chunk_len() as usize;
        vstd::slice::slice_subrange(self.data, OVERFLOW_HEADER_SIZE, OVERFLOW_HEADER_SIZE + n)
    }
}

/// Changes an overflow page.
pub struct OverflowPageMutator<'a> {
    pub data: &'a mut [u8],
}

impl<'a> OverflowPageMutator<'a> {
    pub fn new(data: &'a mut [u8]) -> (m: OverflowPageMutator<'a>)
        requires
            is_overflow(old(data)@),
        ensures
            m.data@ == old(data)@,
            final(data)@ == final(m.data)@,
    {
        OverflowPageMutator { data }
    }

    /// Notes the record that changed the page.
    pub fn set_lsn(&mut self, lsn: u64)
        requires
            is_overflow(old(self).data@),
        ensures
            final(self).data@ == put(old(self).data@, OFF_LSN as int, le64(lsn)),
            is_overflow(final(self).data@),
            final(final(self).data)@ == final(old(self).data)@,
    {
        set_u64(self.data, OFF_LSN, lsn);
        proof {
            lemma_le(0, 0, lsn);
        }
    }

    pub fn as_accessor(&self) -> (a: OverflowPageAccessor<'_>)
        requires
            is_overflow(self.data@),
        ensures
            a.data@ == old(self.data)@,
    {
        OverflowPageAccessor::new(&*self.data)
    }

    /// Sets the next page of the chain.
    pub fn set_next_page_id(&mut self, next_page: Option<u64>)
        requires
            is_overflow(old(self).data@),
        ensures
            final(self).data@ == with_next(old(self).data@, next_page),
            is_overflow(final(self).data@),
            final(final(self).data)@ == final(old(self).data)@,
    {
        let next: u64 = match next_page {
            Some(x) => x,
            None => 0,
        };
        set_u64(self.data, OFF_OVERFLOW_NEXT_PAGE_ID, next);
        proof {
            lemma_le(0, 0, next);
        }
    }

    /// Sets the payload and clears what it does not fill. Fails if it does not fit.
    pub fn set_chunk(&mut self, chunk: &[u8]) -> (r: Result<(), PageError>)
        requires
            is_overflow(old(self).data@),
        ensures
            r is Ok <==> chunk@.len() <= OVERFLOW_PAYLOAD_SIZE,
            r is Ok ==> final(self).data@ == with_chunk(old(self).data@, chunk@),
            r matches Err(e) ==> final(self).data@ == old(self).data@ && e
                == (PageError::InsufficientSpace {
                needed: chunk@.len() as usize,
                available: OVERFLOW_PAYLOAD_SIZE,
            }),
            is_overflow(final(self).data@),
            final(final(self).data)@ == final(old(self).data)@,
    {
        if chunk.len() > OVERFLOW_PAYLOAD_SIZE {
            return Err(
                PageError::InsufficientSpace {
                    needed: chunk.len(),
                    available: OVERFLOW_PAYLOAD_SIZE,
                },
            );
        }
        set_u16(self.data, OFF_OVERFLOW_CHUNK_LEN, chunk.len() as u16);
        let mut payload: Vec<u8> = vstd::slice::slice_to_vec(chunk);
        pad_to(&mut payload, OVERFLOW_PAYLOAD_SIZE);
        set_bytes(self.data, OVERFLOW_HEADER_SIZE, payload.as_slice());
        proof {
            lemma_le(chunk@.len() as u16, 0, 0);
        }
        Ok(())
    }
}

// ── Chunks ───────────────────────────────────────────────────────────────────
/// The page of a part of a chain, without its checksum.
pub open spec fn chunk_page(id: u64, c: ChunkView) -> Seq<u8> {
    put(
        with_chunk(with_next(empty_overflow_page(id), c.next), c.data),
        OFF_LSN as int,
        le64(c.lsn),
    )
}

/// The part of a chain on a page, if there is one.
pub open spec fn chunk_at(b: Seq<u8>) -> Option<ChunkView> {
    if is_overflow(b) && u16_at(b, 32) <= OVERFLOW_PAYLOAD_SIZE {
        Some(
            ChunkView {
                lsn: u64_at(b, 16),
                next: unlink(u64_at(b, 24)),
                data: slice(b, 48, u16_at(b, 32) as int),
            },
        )
    } else {
        None
    }
}

/// A part of a chain is read back from its page.
pub proof fn law_chunk_roundtrip(id: u64, c: ChunkView)
    requires
        c.wf(),
    ensures
        chunk_page(id, c).len() == PAGE_SIZE,
        chunk_at(chunk_page(id, c)) == Some(c),
        blank(chunk_page(id, c)) == chunk_page(id, c),
        u64_at(chunk_page(id, c), 16) == c.lsn,
        u64_at(chunk_page(id, c), 8) == id,
{
    let n = c.data.len() as u16;
    lemma_le(n, 0, c.lsn);
    lemma_le(0, 0, link(c.next));
    lemma_le(0, 0, id);
    let b = chunk_page(id, c);
    assert(slice(b, 16, 8) =~= le64(c.lsn));
    assert(slice(b, 24, 8) =~= le64(link(c.next)));
    assert(slice(b, 8, 8) =~= le64(id));
    assert(slice(b, 32, 2) =~= le16(n));
    assert(slice(b, 48, n as int) =~= c.data);
    lemma_holds_int(b, 16, 0, 0, c.lsn);
    lemma_holds_int(b, 24, 0, 0, link(c.next));
    lemma_holds_int(b, 8, 0, 0, id);
    lemma_holds_int(b, 32, n, 0, 0);
    assert(b[0] == OVERFLOW);
    assert(blank(b) =~= b);
}

/// The page of a part of a chain, without its checksum.
pub fn encode_chunk(id: u64, c: &Chunk) -> (b: Vec<u8>)
    requires
        c@.wf(),
    ensures
        b@ == chunk_page(id, c@),
        b@.len() == PAGE_SIZE,
{
    let mut page: Vec<u8> = Vec::new();
    pad_to(&mut page, PAGE_SIZE);
    let mut builder = OverflowPageBuilder::new(id, page.as_mut_slice());
    proof {
        lemma_le(0, 0, id);
    }
    builder.set_next_page_id(c.next);
    let r = builder.set_chunk(c.data.as_slice());
    assert(r is Ok);
    let mut m = builder.finish();
    m.set_lsn(c.lsn);
    page
}

/// The part of a chain on a page, if there is one. The checksum is not looked at.
pub fn decode_chunk(b: &Vec<u8>) -> (r: Option<Chunk>)
    requires
        b@.len() == PAGE_SIZE,
    ensures
        match chunk_at(blank(b@)) {
            None => r is None,
            Some(c) => r matches Some(k) && k@ == c,
        },
{
    let mut page: Vec<u8> = crate::node::copy_bytes(b);
    crate::page::clear_checksum(&mut page);
    if page[0] != OVERFLOW {
        return None;
    }
    let acc = OverflowPageAccessor::new(page.as_slice());
    if acc.chunk_len() as usize > OVERFLOW_PAYLOAD_SIZE {
        return None;
    }
    Some(
        Chunk {
            lsn: acc.lsn(),
            next: acc.next_page_id(),
            data: vstd::slice::slice_to_vec(acc.payload()),
        },
    )
}

/// Nothing passes for a part of a chain but a page of type 4 whose length at byte 32 fits the
/// page, with the next page at 24 and the bytes from 48 on.
pub proof fn law_chunks_stand_as_written(b: Seq<u8>, c: ChunkView)
    requires
        b.len() == PAGE_SIZE,
        chunk_at(b) == Some(c),
    ensures
        b[0] == 4,
        u64_at(b, 16) == c.lsn,
        u64_at(b, 24) == (if c.next is Some {
            c.next->0
        } else {
            0
        }),
        u16_at(b, 32) == c.data.len(),
        c.data.len() <= 4048,
        c.data == b.subrange(48, 48 + c.data.len() as int),
{
}

} // verus!
