//! The broker: the two-queue conveyor between the front ends and the
//! worker.
//!
//! The order queue carries requests toward the single serial worker,
//! the service queue carries its replies back. Both are strictly FIFO;
//! a reply is handed out only to the waiter whose id matches the head
//! (`consume_service`), and a sweeper evicts a head that has sat
//! unclaimed across a full sweep cycle for more than two seconds.

use crate::dtos::{ids_equal, Package};
use std::collections::VecDeque;
use vstd::prelude::*;

verus! {

/// The two FIFO queues of the broker.
pub struct ConveyQueue {
    order_queue: VecDeque<Package>,
    service_queue: VecDeque<Package>,
}

impl ConveyQueue {
    /// The pending orders, oldest first.
    pub closed spec fn spec_orders(&self) -> Seq<Package> {
        self.order_queue@
    }

    /// The pending replies, oldest first.
    pub closed spec fn spec_services(&self) -> Seq<Package> {
        self.service_queue@
    }

    /// An empty conveyor.
    pub fn new() -> (r: ConveyQueue)
        ensures
            r.spec_orders().len() == 0,
            r.spec_services().len() == 0,
    {
        ConveyQueue { order_queue: VecDeque::new(), service_queue: VecDeque::new() }
    }

    /// Enqueue an order at the tail.
    pub fn produce_order(&mut self, order: Package)
        ensures
            final(self).spec_orders() == old(self).spec_orders().push(order),
            final(self).spec_services() == old(self).spec_services(),
    {
        self.order_queue.push_back(order);
    }

    /// Pop the oldest order, if any.
    pub fn consume_order(&mut self) -> (r: Option<Package>)
        ensures
            final(self).spec_services() == old(self).spec_services(),
            (match r {
                Some(p) => old(self).spec_orders().len() > 0 && p == old(self).spec_orders()[0]
                    && final(self).spec_orders() == old(self).spec_orders().skip(1),
                None => old(self).spec_orders().len() == 0 && final(self).spec_orders() == old(
                    self,
                ).spec_orders(),
            }),
    {
        let r = self.order_queue.pop_front();
        proof {
            if old(self).spec_orders().len() > 0 {
                assert(old(self).spec_orders().subrange(
                    1,
                    old(self).spec_orders().len() as int,
                ) =~= old(self).spec_orders().skip(1));
            }
        }
        r
    }

    /// Enqueue a reply at the tail.
    pub fn produce_service(&mut self, order: Package)
        ensures
            final(self).spec_orders() == old(self).spec_orders(),
            final(self).spec_services() == old(self).spec_services().push(order),
    {
        self.service_queue.push_back(order);
    }

    /// Hand out the oldest reply only to its own waiter: the head is
    /// popped exactly when its id matches; any other call leaves the
    /// queue untouched and returns nothing.
    pub fn consume_service(&mut self, uni_id: [u8; 16]) -> (r: Option<Package>)
        ensures
            final(self).spec_orders() == old(self).spec_orders(),
            (match r {
                Some(p) => old(self).spec_services().len() > 0 && p == old(
                    self,
                ).spec_services()[0] && p.uni_id@ == uni_id@ && final(self).spec_services() == old(
                    self,
                ).spec_services().skip(1),
                None => final(self).spec_services() == old(self).spec_services() && (old(
                    self,
                ).spec_services().len() > 0 ==> old(self).spec_services()[0].uni_id@ != uni_id@),
            }),
    {
        let matches_head = if self.service_queue.len() > 0 {
            ids_equal(&self.service_queue[0].uni_id, &uni_id)
        } else {
            false
        };
        if matches_head {
            let r = self.service_queue.pop_front();
            proof {
                assert(old(self).spec_services().subrange(
                    1,
                    old(self).spec_services().len() as int,
                ) =~= old(self).spec_services().skip(1));
            }
            r
        } else {
            None
        }
    }

    /// One sweep cycle over the order queue.
    pub fn sweep_order_queue(&mut self, visited: [u8; 16], now: i64) -> (r: [u8; 16])
        ensures
            final(self).spec_services() == old(self).spec_services(),
            (if old(self).spec_orders().len() == 0 {
                final(self).spec_orders() == old(self).spec_orders() && r@ == visited@
            } else {
                    let head = old(self).spec_orders()[0];
                    &&& r@ == head.uni_id@
                    &&& (if now - head.created_at > 2 && visited@ == head.uni_id@ {
                        final(self).spec_orders() == old(self).spec_orders().skip(1)
                    } else {
                        final(self).spec_orders() == old(self).spec_orders()
                    })
            }),
    {
        if self.order_queue.len() == 0 {
            return visited;
        }
        let head_created = self.order_queue[0].created_at;
        let head_id = self.order_queue[0].uni_id;
        let evict = (now as i128) - (head_created as i128) > 2 && ids_equal(&visited, &head_id);
        if evict {
            self.order_queue.pop_front();
            proof {
                assert(old(self).spec_orders().subrange(
                    1,
                    old(self).spec_orders().len() as int,
                ) =~= old(self).spec_orders().skip(1));
            }
        }
        head_id
    }

    /// One sweep cycle over the service queue.
    pub fn sweep_service_queue(&mut self, visited: [u8; 16], now: i64) -> (r: [u8; 16])
        ensures
            final(self).spec_orders() == old(self).spec_orders(),
            (if old(self).spec_services().len() == 0 {
                final(self).spec_services() == old(self).spec_services() && r@ == visited@
            } else {
                    let head = old(self).spec_services()[0];
                    &&& r@ == head.uni_id@
                    &&& (if now - head.created_at > 2 && visited@ == head.uni_id@ {
                        final(self).spec_services() == old(self).spec_services().skip(1)
                    } else {
                        final(self).spec_services() == old(self).spec_services()
                    })
            }),
    {
        if self.service_queue.len() == 0 {
            return visited;
        }
        let head_created = self.service_queue[0].created_at;
        let head_id = self.service_queue[0].uni_id;
        let evict = (now as i128) - (head_created as i128) > 2 && ids_equal(&visited, &head_id);
        if evict {
            self.service_queue.pop_front();
            proof {
                assert(old(self).spec_services().subrange(
                    1,
                    old(self).spec_services().len() as int,
                ) =~= old(self).spec_services().skip(1));
            }
        }
        head_id
    }
}

} // verus!
