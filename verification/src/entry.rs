//! A memtable entry: either a live payload or a tombstone marking a deletion.
//! A tombstone is kept in the mapping rather than removing the key, so that a
//! read against an older frozen snapshot cannot resurrect a deleted key.
use vstd::prelude::*;

verus! {

/// A value stored under a key: a live payload, or a tombstone.
pub enum Entry {
    Present(Vec<u8>),
    Deleted,
}

/// The mathematical shape of an [`Entry`]: the payload as a byte sequence,
/// or the tombstone.
pub ghost enum EntryView {
    Present(Seq<u8>),
    Deleted,
}

impl EntryView {
    /// The accounted size of an entry: the payload length for a live entry,
    /// and one byte for a tombstone, matching its on-disk footprint.
    pub open spec fn byte_len(self) -> nat {
        match self {
            EntryView::Present(v) => v.len(),
            EntryView::Deleted => 1,
        }
    }
}

impl View for Entry {
    type V = EntryView;

    open spec fn view(&self) -> EntryView {
        match self {
            Entry::Present(v) => EntryView::Present(v@),
            Entry::Deleted => EntryView::Deleted,
        }
    }
}

impl Entry {
    /// Returns the entry's size on disk.
    pub fn len(&self) -> (n: usize)
        ensures
            n == self@.byte_len(),
    {
        match self {
            Entry::Present(v) => v.len(),
            Entry::Deleted => 1,
        }
    }
}

} // verus!
