//! A cache of dataized values by vertex number.

use vstd::prelude::*;
use crate::data::Data;

verus! {

/// A vertex number.
pub type VertexId = u32;

/// Dataized values by vertex number; a slot holds `None` until a value is put.
#[derive(Debug)]
pub struct Cache {
    data: Vec<Option<Data>>,
}

impl View for Cache {
    type V = Seq<Option<Data>>;

    closed spec fn view(&self) -> Seq<Option<Data>> {
        self.data@
    }
}

impl Cache {
    /// An empty cache.
    pub fn new() -> (r: Cache)
        ensures
            r@.len() == 0,
    {
        Cache { data: Vec::with_capacity(128) }
    }

    /// Stores a value for a vertex, growing the storage to reach it.
    pub fn put(&mut self, v: VertexId, value: Data)
        ensures
            final(self)@.len() == if (v as int) < old(self)@.len() {
                old(self)@.len() as int
            } else {
                v as int + 1
            },
            final(self)@[v as int] == Some(value),
            forall|i: int| 0 <= i < final(self)@.len() && i != v ==> #[trigger] final(self)@[i] == if i < old(self)@.len() {
                old(self)@[i]
            } else {
                None::<Data>
            },
    {
        let ghost before = self.data@;
        let idx = v as usize;
        while self.data.len() <= idx
            invariant
                before.len() <= self.data@.len(),
                self.data@.len() <= if (idx as int) < before.len() { before.len() as int } else { idx as int + 1 },
                forall|i: int| 0 <= i < self.data@.len() ==> #[trigger] self.data@[i] == if i < before.len() {
                    before[i]
                } else {
                    None::<Data>
                },
            decreases idx + 1 - self.data.len(),
        {
            self.data.push(None);
        }
        self.data.set(idx, Some(value));
    }

    /// The value stored for a vertex, if any.
    pub fn get(&self, v: VertexId) -> (r: Option<Data>)
        ensures
            r == if (v as int) < self@.len() {
                self@[v as int]
            } else {
                None::<Data>
            },
    {
        let idx = v as usize;
        if idx < self.data.len() {
            self.data[idx]
        } else {
            None
        }
    }

    /// The size of the storage: one more than the highest vertex it reaches.
    pub fn len(&self) -> (r: usize)
        ensures
            r == self@.len(),
    {
        self.data.len()
    }

    /// Whether the storage is empty.
    pub fn is_empty(&self) -> (r: bool)
        ensures
            r == (self@.len() == 0),
    {
        self.data.len() == 0
    }

    /// Drops every value.
    pub fn clear(&mut self)
        ensures
            final(self)@.len() == 0,
    {
        self.data.clear();
    }
}

impl Default for Cache {
    fn default() -> (r: Cache)
        ensures
            r@.len() == 0,
    {
        Cache::new()
    }
}

} // verus!
