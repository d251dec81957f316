//! Paging of stored messages to and from a backing store.
use crate::serialiser::MmqpSerialisable;
use vstd::prelude::*;

verus! {

/// A store that writes itself out as numbered pages and reads them back.
pub trait Paged<T: MmqpSerialisable>: Sized {
    fn write_page(&mut self, page_id: u32);

    fn read_page(page_id: u32) -> Self;
}

} // verus!
