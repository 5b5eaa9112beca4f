use linastore::conveyer::ConveyQueue;
use linastore::dtos::{Behavior, Content, Package, Status, NAME_SIZE};
use linastore::front::name_to_identifier;
use linastore::porter::{effective_name_len, idle_step, process_package};
use linastore::store::StoreManager;

fn package(behavior: Behavior, uni_id: [u8; 16], name: &str, flags: u8, data: Vec<u8>) -> Package {
    Package {
        status: Status::Unspecified,
        uni_id,
        behavior,
        content: Content {
            flags,
            identifier: name_to_identifier(name).expect("name fits"),
            data,
        },
        created_at: 0,
    }
}

#[test]
fn fifo_order_queue() {
    let mut q = ConveyQueue::new();
    let p1 = package(Behavior::GetFile, [1; 16], "a", 0x40, Vec::new());
    let p2 = package(Behavior::GetFile, [2; 16], "b", 0x40, Vec::new());
    q.produce_order(p1);
    q.produce_order(p2);
    assert_eq!(q.consume_order().unwrap().uni_id, [1; 16]);
    assert_eq!(q.consume_order().unwrap().uni_id, [2; 16]);
    assert!(q.consume_order().is_none());
}

#[test]
fn head_match_only_reply_delivery() {
    // A waiter for the second reply gets nothing while the first
    // reply heads the queue; once the first is consumed, the second
    // waiter's next call succeeds.
    let mut q = ConveyQueue::new();
    let r1 = package(Behavior::GetFile, [1; 16], "a", 0x40, Vec::new());
    let r2 = package(Behavior::GetFile, [2; 16], "b", 0x40, Vec::new());
    q.produce_service(r1);
    q.produce_service(r2);
    assert!(q.consume_service([2; 16]).is_none());
    assert_eq!(q.consume_service([1; 16]).unwrap().uni_id, [1; 16]);
    assert_eq!(q.consume_service([2; 16]).unwrap().uni_id, [2; 16]);
}

#[test]
fn sweeper_evicts_stalled_head_after_two_cycles() {
    // The head is evicted only when it is old and was already the head
    // on the previous cycle; afterwards the next reply takes its place.
    let mut q = ConveyQueue::new();
    let mut r1 = package(Behavior::GetFile, [1; 16], "a", 0x40, Vec::new());
    r1.created_at = 0;
    let mut r2 = package(Behavior::GetFile, [2; 16], "b", 0x40, Vec::new());
    r2.created_at = 0;
    q.produce_service(r1);
    q.produce_service(r2);
    let now = 100;
    let seen = q.sweep_service_queue([0; 16], now);
    assert_eq!(seen, [1; 16], "first cycle only remembers the head");
    assert!(q.consume_service([2; 16]).is_none(), "head not yet evicted");
    let seen = q.sweep_service_queue(seen, now);
    assert_eq!(seen, [1; 16], "second cycle evicts the stalled head");
    assert_eq!(q.consume_service([2; 16]).unwrap().uni_id, [2; 16]);
}

#[test]
fn sweeper_leaves_fresh_head_alone() {
    let mut q = ConveyQueue::new();
    let mut r1 = package(Behavior::GetFile, [1; 16], "a", 0x40, Vec::new());
    r1.created_at = 100;
    q.produce_service(r1);
    let seen = q.sweep_service_queue([1; 16], 101);
    assert_eq!(seen, [1; 16]);
    assert_eq!(q.consume_service([1; 16]).unwrap().uni_id, [1; 16]);
}

#[test]
fn worker_round_trip_put_get_delete() {
    let mut store = StoreManager::new();
    let mut q = ConveyQueue::new();
    let data = vec![5u8; 4096];

    let put = package(Behavior::PutFile, [1; 16], "f.bin", 0x80 | 0x01, data.clone());
    process_package(&put, &mut store, &mut q);
    let reply = q.consume_service([1; 16]).unwrap();
    assert_eq!(reply.status, Status::Success);

    let get = package(Behavior::GetFile, [2; 16], "f.bin", 0x40, Vec::new());
    process_package(&get, &mut store, &mut q);
    let reply = q.consume_service([2; 16]).unwrap();
    assert_eq!(reply.status, Status::Success);
    assert_eq!(reply.content.data, data);

    let del = package(Behavior::DeleteFile, [3; 16], "f.bin", 0xC0, Vec::new());
    process_package(&del, &mut store, &mut q);
    let reply = q.consume_service([3; 16]).unwrap();
    assert_eq!(reply.status, Status::Success);

    let get = package(Behavior::GetFile, [4; 16], "f.bin", 0x40, Vec::new());
    process_package(&get, &mut store, &mut q);
    let reply = q.consume_service([4; 16]).unwrap();
    assert_eq!(reply.status, Status::FileNotFound);
}

#[test]
fn worker_rejects_empty_name() {
    let mut store = StoreManager::new();
    let mut q = ConveyQueue::new();
    let pkg = Package {
        status: Status::Unspecified,
        uni_id: [9; 16],
        behavior: Behavior::GetFile,
        content: Content { flags: 0x40, identifier: [0; NAME_SIZE], data: Vec::new() },
        created_at: 0,
    };
    process_package(&pkg, &mut store, &mut q);
    let reply = q.consume_service([9; 16]).unwrap();
    assert_eq!(reply.status, Status::FileNameInvalid);
}

#[test]
fn name_field_padded_and_fully_filled() {
    // A zero-padded identifier ends at the first NUL; a fully filled
    // one uses the entire field.
    let padded = name_to_identifier("short.txt").unwrap();
    assert_eq!(effective_name_len(&padded), 9);

    let long = "a".repeat(255);
    let filled = name_to_identifier(&long).unwrap();
    assert_eq!(effective_name_len(&filled), 255);
    assert!(name_to_identifier(&"a".repeat(256)).is_none());

    let mut store = StoreManager::new();
    let mut q = ConveyQueue::new();
    let put = package(Behavior::PutFile, [1; 16], &long, 0x80, vec![1u8, 2, 3]);
    process_package(&put, &mut store, &mut q);
    assert_eq!(q.consume_service([1; 16]).unwrap().status, Status::Success);
    let get = package(Behavior::GetFile, [2; 16], &long, 0x40, Vec::new());
    process_package(&get, &mut store, &mut q);
    let reply = q.consume_service([2; 16]).unwrap();
    assert_eq!(reply.status, Status::Success);
    assert_eq!(reply.content.data, vec![1u8, 2, 3]);
}

#[test]
fn idle_policy_progression() {
    // With credit, the worker polls fast or at medium pace while the
    // credit drains; with none, it slows with consecutive empty polls.
    assert_eq!(idle_step(0x8000, 0), (0x200, 0x8000 - 0x200));
    assert_eq!(idle_step(0x5000, 0), (0x2000, 0x5000 - 0x2000));
    assert_eq!(idle_step(0x100, 0), (0x2000, 0));
    assert_eq!(idle_step(0, 5), (0x4000, 0));
    assert_eq!(idle_step(0, 50), (100_000, 0));
    assert_eq!(idle_step(0, 500), (200_000, 0));
}
