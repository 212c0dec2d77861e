//! A list whose removed values leave holes, so that the indices of the other
//! values stay put; the holes are filled first, oldest first.
use vstd::prelude::*;

use std::collections::VecDeque;

verus! {

/// The values that are present, in index order.
pub open spec fn present<T>(s: Seq<Option<T>>) -> Seq<T>
    decreases s.len(),
{
    if s.len() == 0 {
        Seq::empty()
    } else {
        match s.last() {
            Some(v) => present(s.drop_last()).push(v),
            None => present(s.drop_last()),
        }
    }
}

pub struct OptionalVec<T> {
    values: Vec<Option<T>>,
    holes: VecDeque<usize>,
}

impl<T> OptionalVec<T> {
    pub closed spec fn slots(&self) -> Seq<Option<T>> {
        self.values@
    }

    pub closed spec fn hole_queue(&self) -> Seq<usize> {
        self.holes@
    }

    /// Every queued hole is an empty slot, and no hole is queued twice.
    pub open spec fn wf(&self) -> bool {
        &&& forall|k: int|
            0 <= k < self.hole_queue().len() ==> #[trigger] self.hole_queue()[k] < self.slots().len()
                && self.slots()[self.hole_queue()[k] as int] is None
        &&& self.hole_queue().no_duplicates()
    }

    /// The index that the next insertion will use.
    pub open spec fn next_index(&self) -> int {
        if self.hole_queue().len() > 0 {
            self.hole_queue()[0] as int
        } else {
            self.slots().len() as int
        }
    }

    pub fn new() -> (r: OptionalVec<T>)
        ensures
            r.wf(),
            r.slots() == Seq::<Option<T>>::empty(),
            r.hole_queue() == Seq::<usize>::empty(),
    {
        OptionalVec { values: Vec::new(), holes: VecDeque::new() }
    }

    /// Inserts a value into the oldest hole, or at the end when there is none.
    pub fn insert(&mut self, elem: T) -> (r: usize)
        requires
            old(self).wf(),
        ensures
            final(self).wf(),
            r == old(self).next_index(),
            old(self).hole_queue().len() > 0 ==> final(self).slots() == old(self).slots().update(r as int, Some(elem))
                && final(self).hole_queue() == old(self).hole_queue().drop_first(),
            old(self).hole_queue().len() == 0 ==> final(self).slots() == old(self).slots().push(Some(elem))
                && final(self).hole_queue() == old(self).hole_queue(),
    {
        let idx = match self.holes.pop_front() {
            Some(h) => h,
            None => self.values.len(),
        };
        if idx < self.values.len() {
            self.values.set(idx, Some(elem));
        } else {
            self.values.push(Some(elem));
        }
        proof {
            let q = old(self).hole_queue();
            if q.len() > 0 {
                assert(self.hole_queue() =~= q.drop_first());
                assert forall|k: int| 0 <= k < self.hole_queue().len() implies #[trigger] self.hole_queue()[k]
                    < self.slots().len() && self.slots()[self.hole_queue()[k] as int] is None by {
                    assert(self.hole_queue()[k] == q[k + 1]);
                    assert(q[k + 1] != q[0]);
                }
            }
        }
        idx
    }

    /// The index that the next insertion will use.
    pub fn next_idx(&self) -> (r: usize)
        ensures
            r == self.next_index(),
    {
        if self.holes.len() > 0 {
            self.holes[0]
        } else {
            self.values.len()
        }
    }

    /// Takes the value at `idx` out, leaving a hole there.
    pub fn remove(&mut self, idx: usize) -> (r: T)
        requires
            old(self).wf(),
            idx < old(self).slots().len(),
            old(self).slots()[idx as int] is Some,
        ensures
            final(self).wf(),
            Some(r) == old(self).slots()[idx as int],
            final(self).slots() == old(self).slots().update(idx as int, None),
            final(self).hole_queue() == old(self).hole_queue().push(idx),
    {
        let mut taken: Option<T> = None;
        std::mem::swap(&mut taken, &mut self.values[idx]);
        self.holes.push_back(idx);
        proof {
            let q = old(self).hole_queue();
            assert forall|k: int| 0 <= k < q.len() implies q[k] != idx by {
                assert(old(self).slots()[q[k] as int] is None);
            }
            assert forall|k: int| 0 <= k < self.hole_queue().len() implies #[trigger] self.hole_queue()[k]
                < self.slots().len() && self.slots()[self.hole_queue()[k] as int] is None by {
                if k < q.len() {
                    assert(self.hole_queue()[k] == q[k]);
                }
            }
        }
        taken.unwrap()
    }

    /// The present values, in index order.
    pub fn iter(&self) -> (r: Vec<&T>)
        ensures
            r@.map_values(|x: &T| *x) == present(self.slots()),
    {
        let mut out: Vec<&T> = Vec::new();
        let mut i: usize = 0;
        while i < self.values.len()
            invariant
                i <= self.values@.len(),
                out@.map_values(|x: &T| *x) == present(self.slots().take(i as int)),
            decreases self.values@.len() - i,
        {
            assert(self.slots().take(i + 1).drop_last() =~= self.slots().take(i as int));
            let ghost before = out@;
            match &self.values[i] {
                Some(v) => {
                    out.push(v);
                    assert(out@.map_values(|x: &T| *x) =~= before.map_values(|x: &T| *x).push(*v));
                },
                None => {},
            }
            i = i + 1;
        }
        assert(self.slots().take(self.values@.len() as int) =~= self.slots());
        out
    }
}

} // verus!
