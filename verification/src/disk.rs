//! The data file, mirrored in memory, and the file operations that the host has
//! to carry out, in order.

use vstd::prelude::*;

use crate::bytes::{pad_to, zeros};
use crate::constants::PAGE_SIZE;
use crate::error::DiskError;
use crate::id_map::IdMap;
use crate::node::copy_bytes;

verus! {

/// A file operation.
#[derive(Debug)]
pub enum IoAction {
    /// Append these bytes to the log file.
    AppendLog(Vec<u8>),
    /// Make the log file durable.
    SyncLog,
    /// Write a page of the data file.
    WritePage(u64, Vec<u8>),
    /// Make the data file durable.
    SyncData,
}

/// Mathematical content of an [`IoAction`].
#[verifier::ext_equal]
pub enum IoView {
    AppendLog(Seq<u8>),
    SyncLog,
    WritePage(u64, Seq<u8>),
    SyncData,
}

impl View for IoAction {
    type V = IoView;

    open spec fn view(&self) -> IoView {
        match self {
            IoAction::AppendLog(b) => IoView::AppendLog(b@),
            IoAction::SyncLog => IoView::SyncLog,
            IoAction::WritePage(id, b) => IoView::WritePage(*id, b@),
            IoAction::SyncData => IoView::SyncData,
        }
    }
}

/// File operations that wait for the host.
pub struct Outbox {
    pub actions: Vec<IoAction>,
}

impl View for Outbox {
    type V = Seq<IoView>;

    open spec fn view(&self) -> Seq<IoView> {
        Seq::new(self.actions@.len(), |i: int| self.actions@[i]@)
    }
}

impl Outbox {
    pub fn new() -> (o: Outbox)
        ensures
            o@ == Seq::<IoView>::empty(),
    {
        let o = Outbox { actions: Vec::new() };
        assert(o@ =~= Seq::<IoView>::empty());
        o
    }

    pub fn push(&mut self, a: IoAction)
        ensures
            final(self)@ == old(self)@.push(a@),
    {
        self.actions.push(a);
        assert(self@ =~= old(self)@.push(a@));
    }

    /// Hands the operations to the host.
    pub fn take(&mut self) -> (v: Vec<IoAction>)
        ensures
            final(self)@ == Seq::<IoView>::empty(),
            final(self).actions@ == Seq::<IoAction>::empty(),
            v@ == old(self).actions@,
    {
        let mut v: Vec<IoAction> = Vec::new();
        std::mem::swap(&mut v, &mut self.actions);
        assert(self@ =~= Seq::<IoView>::empty());
        v
    }
}

/// The log bytes among some file operations.
pub open spec fn log_of(actions: Seq<IoView>) -> Seq<u8>
    decreases actions.len(),
{
    if actions.len() == 0 {
        Seq::empty()
    } else {
        match actions.last() {
            IoView::AppendLog(b) => log_of(actions.drop_last()) + b,
            _ => log_of(actions.drop_last()),
        }
    }
}

/// One more operation.
pub proof fn lemma_log_of(actions: Seq<IoView>, a: IoView)
    ensures
        log_of(actions.push(a)) == (match a {
            IoView::AppendLog(b) => log_of(actions) + b,
            _ => log_of(actions),
        }),
{
    assert(actions.push(a).drop_last() =~= actions);
}

/// The data file: pages one after the other. Pages that were skipped are holes
/// and read as zeros.
pub struct DiskManager {
    pub pages: IdMap<Vec<u8>>,
    pub num_pages: u64,
    pub out: Outbox,
}

impl DiskManager {
    pub open spec fn wf(&self) -> bool {
        &&& self.pages.wf()
        &&& forall|id: u64| #[trigger]
            self.pages@.contains_key(id) ==> id < self.num_pages && self.pages@[id]@.len()
                == PAGE_SIZE
    }

    /// The bytes of a page.
    pub open spec fn at(&self, id: u64) -> Seq<u8> {
        if self.pages@.contains_key(id) {
            self.pages@[id]@
        } else {
            zeros(PAGE_SIZE as nat)
        }
    }

    /// An empty file.
    pub fn new() -> (d: DiskManager)
        ensures
            d.wf(),
            d.num_pages == 0,
            d.out@ == Seq::<IoView>::empty(),
            forall|id: u64| #[trigger] d.at(id) == zeros(PAGE_SIZE as nat),
    {
        DiskManager { pages: IdMap::new(), num_pages: 0, out: Outbox::new() }
    }

    /// A file with these pages.
    pub fn open(pages: Vec<Vec<u8>>) -> (d: DiskManager)
        requires
            pages@.len() < u64::MAX,
            forall|i: int| 0 <= i < pages@.len() ==> (#[trigger] pages@[i])@.len() == PAGE_SIZE,
        ensures
            d.wf(),
            d.num_pages == pages@.len(),
            d.out@ == Seq::<IoView>::empty(),
            forall|id: u64| id < pages@.len() ==> #[trigger] d.at(id) == pages@[id as int]@,
    {
        let mut m: IdMap<Vec<u8>> = IdMap::new();
        let mut i: usize = 0;
        while i < pages.len()
            invariant
                i <= pages@.len() < u64::MAX,
                m.wf(),
                forall|k: int| 0 <= k < pages@.len() ==> (#[trigger] pages@[k])@.len() == PAGE_SIZE,
                forall|id: u64| #[trigger] m@.contains_key(id) <==> id < i,
                forall|id: u64| id < i ==> (#[trigger] m@[id])@ == pages@[id as int]@,
            decreases pages.len() - i,
        {
            m.insert(i as u64, copy_bytes(&pages[i]));
            i = i + 1;
        }
        let d = DiskManager { pages: m, num_pages: pages.len() as u64, out: Outbox::new() };
        assert forall|id: u64| id < pages@.len() implies #[trigger] d.at(id) == pages@[id as int]@ by {
            assert(m@.contains_key(id));
        }
        assert forall|id: u64| #[trigger] d.pages@.contains_key(id) implies id < d.num_pages
            && d.pages@[id]@.len() == PAGE_SIZE by {
            assert(m@[id]@ == pages@[id as int]@);
        }
        d
    }

    /// Reads a page.
    pub fn read_page(&self, page_id: u64) -> (r: Result<Vec<u8>, DiskError>)
        requires
            self.wf(),
        ensures
            r is Ok <==> page_id < self.num_pages,
            r matches Ok(b) ==> b@ == self.at(page_id) && b@.len() == PAGE_SIZE,
            r matches Err(e) ==> e == DiskError::OutOfBounds(page_id),
    {
        if page_id >= self.num_pages {
            return Err(DiskError::OutOfBounds(page_id));
        }
        match self.pages.get(page_id) {
            Some(b) => Ok(copy_bytes(b)),
            None => {
                let mut b: Vec<u8> = Vec::new();
                pad_to(&mut b, PAGE_SIZE);
                assert(b@ =~= zeros(PAGE_SIZE as nat));
                Ok(b)
            },
        }
    }

    /// Writes a page, and extends the file where the page lies behind its end.
    pub fn write_page(&mut self, page_id: u64, bytes: &Vec<u8>)
        requires
            old(self).wf(),
            page_id < u64::MAX,
            bytes@.len() == PAGE_SIZE,
        ensures
            final(self).wf(),
            final(self).num_pages == (if page_id < old(self).num_pages {
                old(self).num_pages as int
            } else {
                page_id + 1
            }),
            final(self).at(page_id) == bytes@,
            forall|id: u64| id != page_id ==> #[trigger] final(self).at(id) == old(self).at(id),
            final(self).pages@.dom() == old(self).pages@.dom().insert(page_id),
            final(self).out@ == old(self).out@.push(IoView::WritePage(page_id, bytes@)),
    {
        self.pages.insert(page_id, copy_bytes(bytes));
        if page_id >= self.num_pages {
            self.num_pages = page_id + 1;
        }
        self.out.push(IoAction::WritePage(page_id, copy_bytes(bytes)));
    }

    /// Makes the file durable.
    pub fn sync_data(&mut self)
        requires
            old(self).wf(),
        ensures
            final(self).wf(),
            final(self).pages == old(self).pages,
            final(self).num_pages == old(self).num_pages,
            final(self).out@ == old(self).out@.push(IoView::SyncData),
    {
        self.out.push(IoAction::SyncData);
    }
}

} // verus!
