use vstd::prelude::*;

use crate::primitives::OrderIx;

verus! {

/// What the recording run saw when it admitted one registration.
#[derive(Clone, Copy, Debug)]
pub struct ResolutionRecordItem {
    /// The registration number.
    pub added_at: u32,
    /// The admission number: how many registrations were admitted before it.
    pub accepted_at: u32,
    /// The length of the execution order when it was admitted.
    pub order_len: usize,
    /// Its position in the execution order.
    pub order_ix: OrderIx,
    pub parallelism: u16,
}

impl ResolutionRecordItem {
    pub open spec fn blank() -> ResolutionRecordItem {
        ResolutionRecordItem {
            added_at: 0,
            accepted_at: 0,
            order_len: 0,
            order_ix: OrderIx(0),
            parallelism: 0,
        }
    }

    pub fn default_item() -> (r: ResolutionRecordItem)
        ensures
            r == ResolutionRecordItem::blank(),
    {
        ResolutionRecordItem {
            added_at: 0,
            accepted_at: 0,
            order_len: 0,
            order_ix: OrderIx(0),
            parallelism: 0,
        }
    }
}

/// The trace of a recording run, indexed by registration number.
#[derive(Clone, Debug)]
pub struct ResolutionRecord {
    pub items: Vec<ResolutionRecordItem>,
    pub registrations_count: usize,
    pub values_count: usize,
}

impl ResolutionRecord {
    pub fn new(registrations_count: usize, values_count: usize, size: usize) -> (r:
        ResolutionRecord)
        ensures
            r.registrations_count == registrations_count,
            r.values_count == values_count,
            r.items@.len() == size,
            forall|i: int| 0 <= i < size ==> #[trigger] r.items@[i] == ResolutionRecordItem::blank(),
    {
        let mut items: Vec<ResolutionRecordItem> = Vec::with_capacity(size);
        let mut i: usize = 0;
        while i < size
            invariant
                i <= size,
                items@.len() == i,
                forall|j: int| 0 <= j < i ==> #[trigger] items@[j] == ResolutionRecordItem::blank(),
            decreases size - i,
        {
            items.push(ResolutionRecordItem::default_item());
            i = i + 1;
        }
        ResolutionRecord { items, registrations_count, values_count }
    }
}

/// Where a finished recording is stored.
pub trait ResolutionRecordWriter {
    fn store(&mut self, record: &ResolutionRecord);
}

/// Where a playback run takes its recording from.
pub trait ResolutionRecordSource {
    fn get(&self) -> &ResolutionRecord;
}

} // verus!
