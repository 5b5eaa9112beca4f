//! The worker: the single serial consumer of orders.
//!
//! Each order is translated into one content-store operation; the
//! outcome is posted to the service queue as a reply that carries the
//! order's own id, identifier and flags. The adaptive idle policy that
//! paces the polling loop is a pure function of the worker's credit
//! and of how many consecutive polls came back empty.

use crate::catalog::{matches_name, Link};
use crate::conveyer::ConveyQueue;
use crate::dtos::{Behavior, Package, Status, NAME_SIZE};
use crate::store::{delete_outcome, delete_pred, put_ok_outcome, StoreManager};
use crate::store::blake3_hex_of;
use vstd::prelude::*;
use vstd::utf8::{decode_utf8, valid_utf8};

verus! {

/// Fast idle sleep, in microseconds.
pub const SHORT_SLEEP: u64 = 0x200;

/// Medium idle sleep, in microseconds.
pub const MEDIUM_SLEEP: u64 = 0x2000;

/// Long idle sleep, in microseconds.
pub const LONG_SLEEP: u64 = 0x4000;

/// The credit level below which the worker slows down.
pub const IDLE_THRESHOLD: u64 = 0x6000;

/// The credit granted whenever an order was served.
pub const WORK_CREDIT: u64 = 0x8000;

/// Emit only every this-many-th error to the log.
pub const ERROR_LOG_INTERVAL: u32 = 100;

/// The position of the first NUL at or after `i`, or the length.
pub open spec fn first_nul_from(s: Seq<u8>, i: int) -> int
    decreases s.len() - i,
{
    if i < 0 || i >= s.len() {
        s.len() as int
    } else if s[i] == 0 {
        i
    } else {
        first_nul_from(s, i + 1)
    }
}

/// The effective length of a zero-padded name field: everything up to
/// the first NUL, or the whole field.
pub open spec fn first_nul(s: Seq<u8>) -> int {
    first_nul_from(s, 0)
}

/// The effective length of a fixed-width identifier.
pub fn effective_name_len(identifier: &[u8; NAME_SIZE]) -> (r: usize)
    ensures
        r == first_nul(identifier@),
        r <= NAME_SIZE,
{
    let mut i: usize = 0;
    while i < 255
        invariant
            i <= 255,
            first_nul(identifier@) == first_nul_from(identifier@, i as int),
        decreases 255 - i,
    {
        if identifier[i] == 0 {
            return i;
        }
        i += 1;
    }
    255
}

/// Relies on `String::from_utf8`: it succeeds exactly on valid UTF-8
/// and decodes it.
#[verifier::external_body]
fn bytes_to_string(v: Vec<u8>) -> (r: Option<String>)
    ensures
        r is Some <==> valid_utf8(v@),
        r matches Some(s) ==> s@ == decode_utf8(v@),
{
    match String::from_utf8(v) {
        Ok(s) => Some(s),
        Err(_) => None,
    }
}

/// One idle-policy step: how long to sleep, in microseconds, and the
/// credit left afterwards.
pub fn idle_step(idle_delay: u64, consecutive_empty: u32) -> (r: (u64, u64))
    ensures
        idle_delay > 0 ==> {
            &&& r.0 == (if idle_delay >= IDLE_THRESHOLD {
                SHORT_SLEEP as int
            } else {
                MEDIUM_SLEEP as int
            })
            &&& r.1 == (if idle_delay >= IDLE_THRESHOLD {
                if idle_delay >= SHORT_SLEEP {
                    idle_delay - SHORT_SLEEP
                } else {
                    0
                }
            } else {
                if idle_delay >= MEDIUM_SLEEP {
                    idle_delay - MEDIUM_SLEEP
                } else {
                    0
                }
            })
        },
        idle_delay == 0 ==> r.1 == 0 && r.0 == (if consecutive_empty <= 20 {
            LONG_SLEEP as int
        } else if consecutive_empty <= 100 {
            100000
        } else {
            200000
        }),
{
    if idle_delay > 0 {
        if idle_delay >= IDLE_THRESHOLD {
            let next = if idle_delay >= SHORT_SLEEP {
                idle_delay - SHORT_SLEEP
            } else {
                0
            };
            (SHORT_SLEEP, next)
        } else {
            let next = if idle_delay >= MEDIUM_SLEEP {
                idle_delay - MEDIUM_SLEEP
            } else {
                0
            };
            (MEDIUM_SLEEP, next)
        }
    } else {
        if consecutive_empty <= 20 {
            (LONG_SLEEP, 0)
        } else if consecutive_empty <= 100 {
            (100000, 0)
        } else {
            (200000, 0)
        }
    }
}

/// Dispatch one order against the content store and post the reply.
///
/// The reply carries the order's id, identifier and flags. An empty or
/// malformed effective name yields `FileNameInvalid` without touching
/// the store. A read leaves the store unchanged and, on success,
/// carries the stored bytes; a write maps store failures to
/// `StoreFailed`; a delete always succeeds on a well-formed name.
pub fn process_package(
    pkg: &Package,
    store_manager: &mut StoreManager,
    conveyers: &mut ConveyQueue,
)
    requires
        old(store_manager).wf(),
    ensures
        final(store_manager).wf(),
        final(conveyers).spec_orders() == old(conveyers).spec_orders(),
        final(conveyers).spec_services().len() == old(conveyers).spec_services().len() + 1,
        final(conveyers).spec_services().take(old(conveyers).spec_services().len() as int) == old(conveyers).spec_services(),
        ({
            let reply = final(conveyers).spec_services().last();
            let nend = first_nul(pkg.content.identifier@);
            let name_bytes = pkg.content.identifier@.subrange(0, nend);
            &&& reply.uni_id@ == pkg.uni_id@
            &&& reply.content.identifier@ == pkg.content.identifier@
            &&& reply.content.flags == pkg.content.flags
            &&& (nend == 0 || !valid_utf8(name_bytes) ==> reply.status == Status::FileNameInvalid
                && *final(store_manager) == *old(store_manager) && reply.content.data@.len() == 0)
            &&& (nend > 0 && valid_utf8(name_bytes) ==> {
                let name = decode_utf8(name_bytes);
                &&& (pkg.behavior == Behavior::GetFile ==> *final(store_manager) == *old(store_manager) && {
                    let ms = old(store_manager).spec_links().filter(
                        |l: Link| matches_name(l, name, false),
                    );
                    if name.len() > 0 && ms.len() > 0 {
                        reply.status == Status::Success && reply.content.data@ == old(store_manager).spec_contents()[ms[0].source_id@]
                    } else {
                        reply.status == Status::FileNotFound && reply.content.data@.len() == 0
                    }
                })
                &&& (pkg.behavior == Behavior::PutFile ==> {
                    let cover = pkg.content.flags & 0x02 == 0x02;
                    let compressed = pkg.content.flags & 0x01 == 0x01;
                    &&& reply.content.data@.len() == 0
                    &&& (reply.status == Status::Success || reply.status == Status::StoreFailed)
                    &&& (reply.status == Status::StoreFailed ==> *final(store_manager) == *old(store_manager))
                    &&& (cover && old(store_manager).spec_links().filter(
                        |l: Link| matches_name(l, name, false),
                    ).len() > 0 ==> reply.status == Status::Success)
                    &&& (reply.status == Status::Success && name.len() > 0 ==> put_ok_outcome(
                        *old(store_manager),
                        *final(store_manager),
                        name,
                        blake3_hex_of(pkg.content.data@),
                        cover,
                        compressed,
                        pkg.content.data@,
                    ))
                })
                &&& (pkg.behavior == Behavior::DeleteFile ==> {
                    &&& reply.content.data@.len() == 0
                    &&& (name.len() > 0 ==> reply.status == Status::Success && delete_outcome(
                        *old(store_manager),
                        *final(store_manager),
                        delete_pred(name, false),
                    ))
                    &&& (name.len() == 0 ==> reply.status == Status::FileNotFound && *final(store_manager) == *old(store_manager))
                })
                &&& (pkg.behavior == Behavior::Unspecified ==> reply.status
                    == Status::InternalError && *final(store_manager) == *old(store_manager))
            })
        }),
{
    let mut res_pkg = Package::new_with_id(&pkg.uni_id);
    res_pkg.content.identifier = pkg.content.identifier;
    res_pkg.content.flags = pkg.content.flags;
    let valid_data_end = effective_name_len(&pkg.content.identifier);
    if valid_data_end == 0 {
        res_pkg.status = Status::FileNameInvalid;
        conveyers.produce_service(res_pkg);
        return ;
    }
    let mut name_buf: Vec<u8> = Vec::new();
    let mut i: usize = 0;
    while i < valid_data_end
        invariant
            i <= valid_data_end,
            valid_data_end <= NAME_SIZE,
            name_buf@ == pkg.content.identifier@.subrange(0, i as int),
        decreases valid_data_end - i,
    {
        name_buf.push(pkg.content.identifier[i]);
        proof {
            assert(name_buf@ =~= pkg.content.identifier@.subrange(0, i + 1 as int));
        }
        i += 1;
    }
    let identifier = match bytes_to_string(name_buf) {
        Some(s) => s,
        None => {
            res_pkg.status = Status::FileNameInvalid;
            conveyers.produce_service(res_pkg);
            return ;
        },
    };
    match pkg.behavior {
        Behavior::PutFile => {
            let flags = pkg.content.flags;
            let should_cover = flags & 0x02 == 0x02;
            let should_compress = flags & 0x01 == 0x01;
            match store_manager.put_binary_data(
                identifier.as_str(),
                &pkg.content.data,
                should_cover,
                should_compress,
            ) {
                Ok(()) => {
                    res_pkg.status = Status::Success;
                },
                Err(_) => {
                    res_pkg.status = Status::StoreFailed;
                },
            }
            conveyers.produce_service(res_pkg);
        },
        Behavior::GetFile => {
            match store_manager.get_binary_data(identifier.as_str()) {
                Ok(data) => {
                    res_pkg.status = Status::Success;
                    res_pkg.content.data = data;
                },
                Err(_) => {
                    res_pkg.status = Status::FileNotFound;
                },
            }
            conveyers.produce_service(res_pkg);
        },
        Behavior::DeleteFile => {
            match store_manager.delete(identifier.as_str(), false) {
                Ok(()) => {
                    res_pkg.status = Status::Success;
                },
                Err(_) => {
                    res_pkg.status = Status::FileNotFound;
                },
            }
            conveyers.produce_service(res_pkg);
        },
        Behavior::Unspecified => {
            res_pkg.status = Status::InternalError;
            conveyers.produce_service(res_pkg);
        },
    }
}

} // verus!
