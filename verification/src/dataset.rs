//! A simple row store: whole rows of 32-bit samples are pushed in arrival
//! order and read back by position.

use vstd::prelude::*;

verus! {

/// A growing store of sample rows.
pub struct DataStore {
    /// The rows, in arrival order.
    pub store: Vec<Vec<u32>>,
    /// The number of rows, recomputed from the store after every insertion.
    pub store_len: usize,
    /// The width of the most recently added row, or 0 before the first one.
    pub store_width: usize,
}

impl DataStore {
    /// Internal consistency: `store_len` counts the rows.
    pub open spec fn wf(self) -> bool {
        self.store_len == self.store@.len()
    }

    /// An empty store.
    pub fn new() -> (r: DataStore)
        ensures
            r.wf(),
            r.store@ =~= Seq::<Vec<u32>>::empty(),
            r.store_len == 0,
            r.store_width == 0,
    {
        DataStore { store: Vec::new(), store_len: 0, store_width: 0 }
    }

    /// The sample at `entry_index` of the row at `stream_index`.
    pub fn get_entry(&self, stream_index: usize, entry_index: usize) -> (r: u32)
        requires
            stream_index < self.store@.len(),
            entry_index < self.store@[stream_index as int]@.len(),
        ensures
            r == self.store@[stream_index as int]@[entry_index as int],
    {
        self.store[stream_index][entry_index]
    }

    /// Appends one row and records its width as the store's current width.
    pub fn add_entry(&mut self, data: Vec<u32>)
        ensures
            final(self).wf(),
            final(self).store@ == old(self).store@.push(data),
            final(self).store_len == old(self).store@.len() + 1,
            final(self).store_width == data@.len(),
    {
        self.store_width = data.len();
        self.store.push(data);
        self.store_len = self.store.len();
    }

    /// A summary of the store: row count, current width, and the first and
    /// last rows, when any exist.
    pub fn info(&self) -> (r: (usize, usize, Option<&Vec<u32>>, Option<&Vec<u32>>))
        ensures
            r.0 == self.store_len,
            r.1 == self.store_width,
            match r.2 {
                Some(head) => self.store@.len() > 0 && head@ == self.store@[0]@,
                None => self.store@.len() == 0,
            },
            match r.3 {
                Some(tail) => self.store@.len() > 0 && tail@ == self.store@[self.store@.len()
                    - 1]@,
                None => self.store@.len() == 0,
            },
    {
        let head = if self.store.len() > 0 {
            Some(&self.store[0])
        } else {
            None
        };
        let tail = if self.store.len() > 0 {
            Some(&self.store[self.store.len() - 1])
        } else {
            None
        };
        (self.store_len, self.store_width, head, tail)
    }
}

} // verus!
