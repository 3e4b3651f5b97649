//! The bounded channel between the transform workers and the assembler,
//! and the worker-pool model around it.
//!
//! The channel is the pipeline's only backpressure mechanism: it never
//! holds more than its capacity, so a producer that finds it full must
//! keep its result in hand (it is blocked) until the assembler drains.
//! Each worker holds at most one undelivered result, so at any moment the
//! number of blocked workers is bounded by the pool size and the number of
//! buffered results by the capacity — memory use cannot grow without
//! bound however far extraction outruns the writer.

use vstd::prelude::*;
use vstd::pervasive::VecAdditionalExecFns;

verus! {

/// A bounded FIFO queue: the model of the channel between the transform
/// workers and the single assembler.
pub struct BoundedQueue<T> {
    items: Vec<T>,
    cap: usize,
}

impl<T> BoundedQueue<T> {
    /// What the channel currently buffers, oldest first.
    pub closed spec fn contents(&self) -> Seq<T> {
        self.items@
    }

    /// The fixed capacity the channel was created with.
    pub closed spec fn capacity(&self) -> nat {
        self.cap as nat
    }

    /// The channel never buffers more than its capacity.
    pub open spec fn wf(&self) -> bool {
        self.contents().len() <= self.capacity()
    }

    /// Create a channel with the given capacity.
    pub fn new(cap: usize) -> (r: BoundedQueue<T>)
        requires
            cap >= 1,
        ensures
            r.contents() == Seq::<T>::empty(),
            r.capacity() == cap as nat,
            r.wf(),
    {
        BoundedQueue { items: Vec::new(), cap }
    }

    /// How many results are currently buffered.
    pub fn len(&self) -> (r: usize)
        ensures
            r == self.contents().len(),
    {
        self.items.len()
    }

    /// Whether the channel is full, in which case a sender blocks.
    pub fn is_full(&self) -> (r: bool)
        ensures
            r == (self.contents().len() >= self.capacity()),
    {
        self.items.len() >= self.cap
    }

    /// Deliver one result into the channel if there is room; a `false`
    /// result is a blocked send and leaves the channel unchanged.
    pub fn try_send(&mut self, item: T) -> (r: Option<T>)
        requires
            old(self).wf(),
        ensures
            final(self).wf(),
            final(self).capacity() == old(self).capacity(),
            if old(self).contents().len() < old(self).capacity() {
                final(self).contents() == old(self).contents().push(item) && r is None
            } else {
                final(self).contents() == old(self).contents() && r == Some(item)
            },
    {
        if self.items.len() < self.cap {
            self.items.push(item);
            None
        } else {
            Some(item)
        }
    }

    /// Take the oldest buffered result, if any.
    pub fn recv(&mut self) -> (r: Option<T>)
        requires
            old(self).wf(),
        ensures
            final(self).wf(),
            final(self).capacity() == old(self).capacity(),
            if old(self).contents().len() > 0 {
                r == Some(old(self).contents()[0]) && final(self).contents() == old(
                    self,
                ).contents().drop_first()
            } else {
                r is None && final(self).contents() == old(self).contents()
            },
    {
        if self.items.len() > 0 {
            Some(self.items.remove(0))
        } else {
            None
        }
    }
}

/// The transform worker pool: each worker holds at most one result that it
/// has produced but not yet delivered into the channel.  A worker holding
/// a result while the channel is full is blocked.
pub struct WorkerPool<T> {
    pub undelivered: Vec<Option<T>>,
}

/// How many workers currently hold an undelivered result.
pub open spec fn spec_holding_count<T>(ws: Seq<Option<T>>) -> nat
    decreases ws.len(),
{
    if ws.len() == 0 {
        0
    } else {
        spec_holding_count(ws.drop_last()) + (if ws.last() is Some {
            1nat
        } else {
            0nat
        })
    }
}

proof fn lemma_holding_count_bound<T>(ws: Seq<Option<T>>)
    ensures
        spec_holding_count(ws) <= ws.len(),
    decreases ws.len(),
{
    if ws.len() > 0 {
        lemma_holding_count_bound(ws.drop_last());
    }
}

impl<T> WorkerPool<T> {
    /// The number of workers in the pool.
    pub open spec fn pool_size(&self) -> nat {
        self.undelivered@.len()
    }

    /// Workers blocked waiting to send, with the channel full.
    pub open spec fn spec_blocked(&self, q: &BoundedQueue<T>) -> nat {
        if q.contents().len() >= q.capacity() {
            spec_holding_count(self.undelivered@)
        } else {
            0
        }
    }

    /// Let worker `i` try to deliver its held result, if it has one.
    pub fn deliver(&mut self, i: usize, q: &mut BoundedQueue<T>)
        requires
            i < old(self).undelivered@.len(),
            old(q).wf(),
        ensures
            final(q).wf(),
            final(q).capacity() == old(q).capacity(),
            final(self).undelivered@.len() == old(self).undelivered@.len(),
            match old(self).undelivered@[i as int] {
                None => final(self).undelivered@ == old(self).undelivered@ && final(q).contents()
                    == old(q).contents(),
                Some(item) => {
                    if old(q).contents().len() < old(q).capacity() {
                        final(self).undelivered@ == old(self).undelivered@.update(i as int, None)
                            && final(q).contents() == old(q).contents().push(item)
                    } else {
                        final(self).undelivered@ == old(self).undelivered@ && final(q).contents()
                            == old(q).contents()
                    }
                },
            },
    {
        let mut taken: Option<T> = None;
        self.undelivered.set_and_swap(i, &mut taken);
        match taken {
            Some(item) => {
                match q.try_send(item) {
                    None => {
                        proof {
                            assert(self.undelivered@ =~= old(self).undelivered@.update(
                                i as int,
                                None,
                            ));
                        }
                    },
                    Some(back) => {
                        self.undelivered.set(i, Some(back));
                        proof {
                            assert(self.undelivered@ =~= old(self).undelivered@);
                        }
                    },
                }
            },
            None => {
                proof {
                    assert(self.undelivered@ =~= old(self).undelivered@);
                }
            },
        }
    }
}

/// Backpressure: however the run is scheduled, the workers blocked waiting
/// to send never exceed the pool size, and the channel never buffers more
/// than its capacity.
pub proof fn lemma_backpressure_bounds<T>(pool: &WorkerPool<T>, q: &BoundedQueue<T>)
    requires
        q.wf(),
    ensures
        pool.spec_blocked(q) <= pool.pool_size(),
        q.contents().len() <= q.capacity(),
{
    lemma_holding_count_bound(pool.undelivered@);
}

} // verus!
