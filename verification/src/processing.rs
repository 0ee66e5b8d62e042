//! The processing set: the identifiers of the tasks that are being executed
//! right now, kept in memory for the readers that report on the scheduler.

use crate::bitmap::bitmap_set;
use roaring::RoaringBitmap;
use vstd::prelude::*;

verus! {

/// The set of the tasks in execution.
pub struct ProcessingTasks {
    processing: RoaringBitmap,
}

impl View for ProcessingTasks {
    type V = Set<u32>;

    closed spec fn view(&self) -> Set<u32> {
        bitmap_set(self.processing)
    }
}

impl ProcessingTasks {
    /// An empty processing set.
    pub fn new() -> (p: Self)
        ensures
            p@ == Set::<u32>::empty(),
    {
        ProcessingTasks { processing: RoaringBitmap::new() }
    }

    /// Replaces the whole set.
    pub fn set(&mut self, processing: RoaringBitmap)
        ensures
            final(self)@ == bitmap_set(processing),
    {
        self.processing = processing;
    }

    /// Empties the set.
    pub fn clear(&mut self)
        ensures
            final(self)@ == Set::<u32>::empty(),
    {
        self.processing = RoaringBitmap::new();
    }

    /// A copy of the set for a reader.
    pub fn snapshot(&self) -> (r: RoaringBitmap)
        ensures
            bitmap_set(r) == self@,
    {
        self.processing.clone()
    }

    /// The set itself.
    pub fn ids(&self) -> (r: &RoaringBitmap)
        ensures
            bitmap_set(*r) == self@,
    {
        &self.processing
    }

    /// Whether a task is in execution.
    pub fn contains(&self, uid: u32) -> (b: bool)
        ensures
            b == self@.contains(uid),
    {
        self.processing.contains(uid)
    }
}

} // verus!
