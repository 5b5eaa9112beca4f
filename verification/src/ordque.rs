//! A simple FIFO of orders between two components.

use std::collections::VecDeque;
use vstd::prelude::*;

verus! {

/// Who an order is for.
pub enum Component {
    Storage,
    Waitress,
}

/// One queued message.
pub enum Order {
    Require { target: Component, uni_id: [u8; 8], data: String },
    Send { target: Component, uni_id: [u8; 8], data: String },
}

/// The queue of orders, oldest first.
pub struct OrderQueue {
    queue: VecDeque<Order>,
}

impl OrderQueue {
    /// The queued orders, oldest first.
    pub closed spec fn spec_queue(&self) -> Seq<Order> {
        self.queue@
    }

    /// An empty queue.
    pub fn new() -> (r: OrderQueue)
        ensures
            r.spec_queue().len() == 0,
    {
        OrderQueue { queue: VecDeque::with_capacity(0x10) }
    }

    /// Enqueue an order at the tail.
    pub fn push(&mut self, order: Order)
        ensures
            final(self).spec_queue() == old(self).spec_queue().push(order),
    {
        self.queue.push_back(order);
    }

    /// Pop the oldest order, if any.
    pub fn pop(&mut self) -> (r: Option<Order>)
        ensures
            (match r {
                Some(o) => old(self).spec_queue().len() > 0 && o == old(self).spec_queue()[0]
                    && final(self).spec_queue() == old(self).spec_queue().skip(1),
                None => old(self).spec_queue().len() == 0 && final(self).spec_queue() == old(
                    self,
                ).spec_queue(),
            }),
    {
        let r = self.queue.pop_front();
        proof {
            if old(self).spec_queue().len() > 0 {
                assert(old(self).spec_queue().subrange(1, old(self).spec_queue().len() as int)
                    =~= old(self).spec_queue().skip(1));
            }
        }
        r
    }
}

} // verus!
