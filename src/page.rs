//! The header layout of a storage page.
use vstd::prelude::*;

verus! {

/// Log sequence number of the last change to a page.
pub type PageLsn = u64;

/// Byte offset inside a page.
pub type LocationIndex = u16;

/// Transaction identifier.
pub type TransactionId = u32;

/// A line pointer: a packed word locating one tuple inside a page.
pub struct ItemIdData(pub u32);

impl ItemIdData {
    /// The tuple's offset from the start of the page: the word's upper half.
    pub fn lp_off(&self) -> (r: u16)
        ensures
            r == self.0 / 65536,
    {
        let w = self.0;
        assert(w >> 16u32 <= 0xffff && w >> 16u32 == w / 65536) by (bit_vector);
        (w >> 16) as u16
    }
}

/// A page viewed as the bytes of a memory-mapped region.
pub struct RawPage<'a>(pub &'a [u8]);

impl<'a> RawPage<'a> {
    /// Views mapped bytes as a page.
    pub fn from_mmap(map: &'a [u8]) -> (r: RawPage<'a>)
        ensures
            r.0@ == map@,
    {
        RawPage(map)
    }
}

/// A page in the buffer pool: its header, its line pointers and its tuples.
pub struct BufferPage<'a, T> {
    pub pd_lsn: PageLsn,
    pub pd_checksum: u16,
    pub pd_flags: u16,
    /// Offset to the start of free space.
    pub pd_lower: LocationIndex,
    /// Offset to the end of free space.
    pub pd_upper: LocationIndex,
    /// Offset to the start of special space.
    pub pd_special: LocationIndex,
    pub pd_pagesize_version: u16,
    pub pd_prune_xid: TransactionId,
    pub idx: &'a [u16],
    pub datum: &'a [T],
}

impl<'a, T> BufferPage<'a, T> {
    pub open spec fn is_empty_page(&self) -> bool {
        &&& self.pd_lsn == 0
        &&& self.pd_checksum == 0
        &&& self.pd_flags == 0
        &&& self.pd_lower == 0
        &&& self.pd_upper == 0
        &&& self.pd_special == 0
        &&& self.pd_pagesize_version == 0
        &&& self.pd_prune_xid == 0
        &&& self.idx@.len() == 0
        &&& self.datum@.len() == 0
    }

    /// A page with a zeroed header, no line pointers and no tuples.
    pub fn new() -> (r: BufferPage<'a, T>)
        ensures
            r.is_empty_page(),
    {
        BufferPage {
            pd_lsn: 0,
            pd_checksum: 0,
            pd_flags: 0,
            pd_lower: 0,
            pd_upper: 0,
            pd_special: 0,
            pd_pagesize_version: 0,
            pd_prune_xid: 0,
            idx: &[],
            datum: &[],
        }
    }

    /// A page over a buffer; the buffer's contents are not read yet, so the
    /// page starts empty.
    pub fn from_buffer(buffer: &mut [u8]) -> (r: BufferPage<'a, T>)
        ensures
            r.is_empty_page(),
            final(buffer)@ == old(buffer)@,
    {
        BufferPage::new()
    }
}

} // verus!
