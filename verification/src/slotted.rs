//! In-memory page forms: internal pages as lists of keys and children, and leaf
//! pages as slotted pages.
//!
//! A slotted page keeps a slot per tuple behind its header and the tuples at its
//! end. Slots grow forward, tuples grow backward, and the free space pointer marks
//! where the tuples begin.

use vstd::prelude::*;

use crate::bytes::slice;
use crate::constants::PAGE_SIZE;
use crate::page::{Lsn, PageId};

verus! {

/// Bytes of the fixed part of a leaf header.
pub const LEAF_HEADER_SIZE: usize = 23;

/// Bytes of a slot.
pub const SLOT_SIZE: usize = 4;

/// A page of either kind.
#[derive(Debug)]
pub enum BPlusTreePage<K> {
    Internal(BPlusTreeInternalPage<K>),
    Leaf(BPlusTreeLeafPage),
}

/// Kinds of pages.
#[derive(Debug, Clone, Copy, PartialEq, Eq, Structural)]
pub enum BPlusTreePageType {
    LeafPage,
    InternalPage,
}

/// A key and the child to its right.
#[derive(Debug, Clone)]
pub struct InternalKV<K> {
    pub key: K,
    pub page_id: PageId,
}

/// The header of an internal page.
#[derive(Debug, Clone)]
pub struct BPlusTreeInternalPageHeader {
    pub page_type: BPlusTreePageType,
    pub current_size: u32,
    pub max_size: u32,
    /// The right sibling.
    pub next_page_id: PageId,
}

/// An internal page. The key of the first element is empty: its child is the
/// leftmost.
#[derive(Debug, Clone)]
pub struct BPlusTreeInternalPage<K> {
    pub header: BPlusTreeInternalPageHeader,
    pub elements: Vec<InternalKV<K>>,
}

/// A leaf page.
#[derive(Debug, Clone)]
pub struct BPlusTreeLeafPage {
    pub header: BPlusTreeLeafPageHeader,
    /// The bytes of the page.
    pub data: Vec<u8>,
}

/// The header of a leaf page.
#[derive(Debug, Clone)]
pub struct BPlusTreeLeafPageHeader {
    pub page_type: BPlusTreePageType,
    pub next_page_id: PageId,
    pub num_tuples: u16,
    pub num_deleted_tuples: u16,
    pub tuple_infos: Vec<TupleInfo>,
    /// Where the tuples begin.
    pub free_space_pointer: u16,
    pub lsn: Lsn,
}

/// A slot: where a tuple is.
#[derive(Debug, Clone, Copy, PartialEq, Eq, Structural)]
pub struct TupleInfo {
    pub offset: u16,
    pub size: u16,
    pub meta: TupleMeta,
}

/// What is known about a tuple besides its bytes.
#[derive(Debug, Clone, Copy, PartialEq, Eq, Structural)]
pub struct TupleMeta {}

/// Why a tuple does not fit, if it does not: it is larger than all free space, or
/// would reach into the slots.
pub open spec fn misfit(free_space_pointer: int, slots: int, tuple_len: int) -> Option<Seq<char>> {
    if free_space_pointer < tuple_len {
        Some("Not enough free space to store tuple"@)
    } else if free_space_pointer - tuple_len < LEAF_HEADER_SIZE + SLOT_SIZE * (slots + 1) {
        Some("Not enough free space: Header collided with Data"@)
    } else {
        None
    }
}

impl BPlusTreeLeafPage {
    /// The header describes the data, and no tuple begins before the free space
    /// pointer.
    pub open spec fn wf(&self) -> bool {
        &&& self.data@.len() == PAGE_SIZE
        &&& self.header.num_tuples == self.header.tuple_infos@.len()
        &&& self.header.free_space_pointer <= PAGE_SIZE
        &&& LEAF_HEADER_SIZE + SLOT_SIZE * self.header.tuple_infos@.len()
            <= self.header.free_space_pointer
        &&& forall|i: int|
            0 <= i < self.header.tuple_infos@.len() ==> self.header.free_space_pointer <= (
            #[trigger] self.header.tuple_infos@[i]).offset && self.header.tuple_infos@[i].offset
                + self.header.tuple_infos@[i].size <= PAGE_SIZE
    }

    /// The bytes of a tuple.
    pub open spec fn tuple_bytes(&self, i: int) -> Seq<u8> {
        slice(
            self.data@,
            self.header.tuple_infos@[i].offset as int,
            self.header.tuple_infos@[i].size as int,
        )
    }

    /// The tuples of the page.
    pub open spec fn tuples(&self) -> Seq<Seq<u8>> {
        Seq::new(self.header.tuple_infos@.len(), |i: int| self.tuple_bytes(i))
    }

    /// An empty page.
    pub fn new(next_page_id: PageId) -> (p: Self)
        ensures
            p.wf(),
            p.tuples() == Seq::<Seq<u8>>::empty(),
            p.header.next_page_id == next_page_id,
            p.header.page_type == BPlusTreePageType::LeafPage,
            p.header.num_deleted_tuples == 0,
            p.header.free_space_pointer == PAGE_SIZE,
            p.header.lsn == 0,
            p.data@ == crate::bytes::zeros(PAGE_SIZE as nat),
    {
        let mut data: Vec<u8> = Vec::new();
        crate::bytes::pad_to(&mut data, PAGE_SIZE);
        let p = BPlusTreeLeafPage {
            header: BPlusTreeLeafPageHeader {
                page_type: BPlusTreePageType::LeafPage,
                next_page_id,
                num_tuples: 0,
                num_deleted_tuples: 0,
                tuple_infos: Vec::new(),
                free_space_pointer: PAGE_SIZE as u16,
                lsn: 0,
            },
            data,
        };
        assert(p.tuples() =~= Seq::<Seq<u8>>::empty());
        assert(p.data@ =~= crate::bytes::zeros(PAGE_SIZE as nat));
        p
    }

    /// Where a tuple of some length would go.
    pub fn next_tuple_offset_with_len(&self, tuple_len: usize) -> (r: Result<usize, &'static str>)
        requires
            self.wf(),
        ensures
            match misfit(
                self.header.free_space_pointer as int,
                self.header.tuple_infos@.len() as int,
                tuple_len as int,
            ) {
                Some(m) => r matches Err(e) && e@ == m,
                None => r matches Ok(o) && o == self.header.free_space_pointer - tuple_len,
            },
    {
        let free: usize = self.header.free_space_pointer as usize;
        if free < tuple_len {
            return Err("Not enough free space to store tuple");
        }
        let tuple_offset: usize = free - tuple_len;
        let slots: usize = self.header.tuple_infos.len();
        let min_tuple_offset: usize = LEAF_HEADER_SIZE + SLOT_SIZE * slots + SLOT_SIZE;
        if tuple_offset < min_tuple_offset {
            return Err("Not enough free space: Header collided with Data");
        }
        Ok(tuple_offset)
    }

    /// Stores a tuple in front of the others and returns its number. The other
    /// tuples stay as they are.
    pub fn insert_tuple_bytes(&mut self, meta: &TupleMeta, tuple_bytes: &[u8]) -> (r: Result<
        u16,
        &'static str,
    >)
        requires
            old(self).wf(),
        ensures
            final(self).wf(),
            match misfit(
                old(self).header.free_space_pointer as int,
                old(self).header.tuple_infos@.len() as int,
                tuple_bytes@.len() as int,
            ) {
                Some(m) => r matches Err(e) && e@ == m && *final(self) == *old(self),
                None => {
                    &&& r matches Ok(id) && id == old(self).header.tuple_infos@.len()
                    &&& final(self).tuples() == old(self).tuples().push(tuple_bytes@)
                    &&& final(self).header.free_space_pointer == old(self).header.free_space_pointer - tuple_bytes@.len()
                    &&& final(self).header.tuple_infos@ == old(self).header.tuple_infos@.push(
                        TupleInfo {
                            offset: final(self).header.free_space_pointer,
                            size: tuple_bytes@.len() as u16,
                            meta: *meta,
                        },
                    )
                    &&& final(self).header.num_deleted_tuples == old(self).header.num_deleted_tuples
                    &&& final(self).header.next_page_id == old(self).header.next_page_id
                    &&& final(self).header.page_type == old(self).header.page_type
                    &&& final(self).header.lsn == old(self).header.lsn
                },
            },
    {
        let ghost p0 = *self;
        let tuple_offset: usize = match self.next_tuple_offset_with_len(tuple_bytes.len()) {
            Ok(o) => o,
            Err(e) => {
                return Err(e);
            },
        };
        let tuple_id: u16 = self.header.num_tuples;
        let n: usize = tuple_bytes.len();
        self.header.tuple_infos.push(
            TupleInfo { offset: tuple_offset as u16, size: n as u16, meta: *meta },
        );
        self.header.num_tuples = tuple_id + 1;
        self.header.free_space_pointer = tuple_offset as u16;
        crate::bytes::set_bytes(self.data.as_mut_slice(), tuple_offset, tuple_bytes);
        proof {
            let infos = self.header.tuple_infos@;
            assert forall|i: int| 0 <= i < infos.len() implies self.header.free_space_pointer <= (
            #[trigger] infos[i]).offset && infos[i].offset + infos[i].size <= PAGE_SIZE by {
                if i < infos.len() - 1 {
                    assert(infos[i] == p0.header.tuple_infos@[i]);
                }
            }
            assert forall|i: int| 0 <= i < infos.len() implies #[trigger] self.tuple_bytes(i)
                == p0.tuples().push(tuple_bytes@)[i] by {
                if i < infos.len() - 1 {
                    assert(infos[i] == p0.header.tuple_infos@[i]);
                    assert(self.tuple_bytes(i) =~= p0.tuple_bytes(i));
                } else {
                    assert(self.tuple_bytes(i) =~= tuple_bytes@);
                }
            }
            assert(self.tuples() =~= p0.tuples().push(tuple_bytes@));
        }
        Ok(tuple_id)
    }

    /// A tuple with what is known about it.
    pub fn tuple(&self, slot_num: u16) -> (r: Result<(TupleMeta, &[u8]), &'static str>)
        requires
            self.wf(),
        ensures
            slot_num < self.tuples().len() ==> (r matches Ok((m, b)) && m
                == self.header.tuple_infos@[slot_num as int].meta && b@
                == self.tuples()[slot_num as int]),
            slot_num >= self.tuples().len() ==> (r matches Err(e) && e@ == "tuple_id out of range"@),
    {
        if slot_num >= self.header.num_tuples {
            return Err("tuple_id out of range");
        }
        let info: TupleInfo = self.header.tuple_infos[slot_num as usize];
        let offset: usize = info.offset as usize;
        let size: usize = info.size as usize;
        let b = vstd::slice::slice_subrange(self.data.as_slice(), offset, offset + size);
        assert(b@ =~= self.tuple_bytes(slot_num as int));
        Ok((info.meta, b))
    }

    pub fn set_lsn(&mut self, lsn: Lsn)
        ensures
            final(self).header.lsn == lsn,
            old(self).wf() ==> final(self).wf(),
            final(self).tuples() == old(self).tuples(),
            *final(self) == (BPlusTreeLeafPage {
                header: BPlusTreeLeafPageHeader { lsn, ..old(self).header },
                ..*old(self)
            }),
    {
        self.header.lsn = lsn;
        assert(self.tuples() =~= old(self).tuples());
    }

    pub fn lsn(&self) -> (lsn: Lsn)
        ensures
            lsn == self.header.lsn,
    {
        self.header.lsn
    }
}

/// A tuple fits exactly if it and its slot of four bytes fit between the slots, which
/// follow a header of 23 bytes, and the tuples.
pub proof fn law_tuples_fit_between_slots_and_tuples(
    free_space_pointer: int,
    slots: int,
    tuple_len: int,
)
    requires
        0 <= slots,
        0 <= tuple_len,
    ensures
        misfit(free_space_pointer, slots, tuple_len) is None <==> 23 + 4 * slots + 4 + tuple_len
            <= free_space_pointer,
{
}

/// Where the bytes of a tuple are: from the offset of its slot on, as many as the slot says.
pub proof fn law_slots_point_at_their_tuples(p: BPlusTreeLeafPage, i: int, j: int)
    requires
        p.wf(),
        0 <= i < p.header.tuple_infos@.len(),
        0 <= j < p.header.tuple_infos@[i].size,
    ensures
        p.tuples().len() == p.header.num_tuples,
        p.tuples()[i].len() == p.header.tuple_infos@[i].size,
        p.tuples()[i][j] == p.data@[p.header.tuple_infos@[i].offset + j],
{
}

} // verus!
