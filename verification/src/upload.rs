use vstd::prelude::*;

verus! {

/// The prioritized queue of pending GPU uploads.  Worker phases only
/// enqueue `(priority, chunk coordinates)` pairs; each frame the
/// coordinator pops at most its upload budget in descending priority
/// order (ties in any order) and performs the uploads itself.
pub struct UploadQueue {
    pub entries: Vec<(i32, (i32, i32, i32))>,
}

impl UploadQueue {
    pub open spec fn spec_entries(self) -> Seq<(i32, (i32, i32, i32))> {
        self.entries@
    }

    pub fn new() -> (q: UploadQueue)
        ensures
            q.spec_entries().len() == 0,
    {
        UploadQueue { entries: Vec::new() }
    }

    pub fn len(&self) -> (n: usize)
        ensures
            n == self.spec_entries().len(),
    {
        self.entries.len()
    }

    /// Enqueue one upload request.
    pub fn push(&mut self, priority: i32, coords: (i32, i32, i32))
        ensures
            final(self).spec_entries() == old(self).spec_entries().push((priority, coords)),
    {
        self.entries.push((priority, coords));
    }

    /// Remove and return an entry of maximal priority; `None` exactly
    /// when the queue is empty.
    pub fn pop_max(&mut self) -> (r: Option<(i32, (i32, i32, i32))>)
        ensures
            match r {
                None => old(self).spec_entries().len() == 0 && final(self).spec_entries() == old(
                    self,
                ).spec_entries(),
                Some(e) => {
                    &&& old(self).spec_entries().len() > 0
                    &&& exists|i: int|
                        0 <= i < old(self).spec_entries().len() && old(self).spec_entries()[i] == e
                            && final(self).spec_entries() == old(self).spec_entries().remove(i)
                    &&& forall|j: int|
                        0 <= j < old(self).spec_entries().len() ==> (#[trigger] old(
                            self,
                        ).spec_entries()[j]).0 <= e.0
                },
            },
    {
        if self.entries.len() == 0 {
            return None;
        }
        let mut best: usize = 0;
        let mut i: usize = 1;
        while i < self.entries.len()
            invariant
                best < i <= self.entries@.len(),
                forall|j: int|
                    0 <= j < i ==> (#[trigger] self.entries@[j]).0 <= self.entries@[best as int].0,
            decreases self.entries@.len() - i,
        {
            if self.entries[i].0 > self.entries[best].0 {
                best = i;
            }
            i = i + 1;
        }
        let e = self.entries.remove(best);
        proof {
            assert(0 <= best < old(self).spec_entries().len() && old(self).spec_entries()[best as int]
                == e && self.entries@ == old(self).spec_entries().remove(best as int));
        }
        Some(e)
    }
}

} // verus!
