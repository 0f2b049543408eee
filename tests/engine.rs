use protostore::aio::{AioState, OpKind};
use protostore::dispatch::{processing_unit_for_worker, Dispatcher};

#[test]
fn queue_depth_bounds_operations_in_flight() {
    let mut aio = AioState::new(2);
    let s1 = aio.begin(OpKind::PRead, 1).unwrap();
    let s2 = aio.begin(OpKind::PRead, 2).unwrap();
    assert_ne!(s1, s2);
    assert_eq!(None, aio.begin(OpKind::PRead, 3));
    assert_eq!(None, aio.begin(OpKind::PWrite, 4));
    assert_eq!(2, aio.in_flight());
    assert!(!aio.has_room());

    assert_eq!(Some(1), aio.finish(OpKind::PRead, s1));
    let s3 = aio.begin(OpKind::PRead, 3).unwrap();
    assert_eq!(2, aio.in_flight());
    assert_eq!(Some(2), aio.finish(OpKind::PRead, s2));
    let s4 = aio.begin(OpKind::PRead, 4).unwrap();
    assert!(aio.in_flight() <= 2);
    assert_eq!(Some(3), aio.finish(OpKind::PRead, s3));
    assert_eq!(Some(4), aio.finish(OpKind::PRead, s4));
    assert_eq!(0, aio.in_flight());
}

#[test]
fn reads_and_writes_share_the_depth() {
    let mut aio = AioState::new(3);
    let r = aio.begin(OpKind::PRead, 100).unwrap();
    let w = aio.begin(OpKind::PWrite, 200).unwrap();
    assert_eq!(1, aio.preads_in_flight());
    assert_eq!(1, aio.pwrites_in_flight());
    assert_eq!(None, aio.finish(OpKind::PWrite, w + 1));
    assert_eq!(Some(200), aio.finish(OpKind::PWrite, w));
    assert_eq!(Some(100), aio.finish(OpKind::PRead, r));
    assert_eq!(3, aio.max_queue_depth());
}

#[test]
fn a_completion_is_delivered_once() {
    let mut aio = AioState::new(4);
    let s = aio.begin(OpKind::PRead, 7).unwrap();
    assert_eq!(Some(7), aio.finish(OpKind::PRead, s));
    assert_eq!(None, aio.finish(OpKind::PRead, s));
    assert_eq!(None, aio.finish(OpKind::PWrite, s));
    assert_eq!(0, aio.in_flight());
}

#[test]
fn engine_stays_healthy_after_a_dropped_reply() {
    let mut aio = AioState::new(1);
    let s = aio.begin(OpKind::PRead, 1).unwrap();
    // The requester went away; its completion still frees the slot.
    assert_eq!(Some(1), aio.finish(OpKind::PRead, s));
    let t = aio.begin(OpKind::PRead, 2).unwrap();
    assert_eq!(Some(2), aio.finish(OpKind::PRead, t));
    assert_eq!(0, aio.in_flight());
}

#[test]
fn slot_tables_empty_after_all_connections_finish() {
    let mut aio = AioState::new(8);
    let mut slots = Vec::new();
    for ticket in 0..8u64 {
        let kind = if ticket % 3 == 0 { OpKind::PWrite } else { OpKind::PRead };
        slots.push((kind, aio.begin(kind, ticket).unwrap(), ticket));
    }
    assert_eq!(8, aio.in_flight());
    for (kind, slot, ticket) in slots.into_iter().rev() {
        assert_eq!(Some(ticket), aio.finish(kind, slot));
    }
    assert_eq!(0, aio.preads_in_flight());
    assert_eq!(0, aio.pwrites_in_flight());
}

#[test]
fn statistics_report_deltas() {
    let mut aio = AioState::new(2);
    for _ in 0..9999 {
        assert!(!aio.count_poll());
    }
    assert!(aio.count_poll());
    aio.count_message(OpKind::PRead);
    aio.count_message(OpKind::PRead);
    aio.count_message(OpKind::PWrite);
    let _slot = aio.begin(OpKind::PRead, 1).unwrap();
    let r = aio.take_report();
    assert_eq!((10000, 2, 1, 1, 0), (r.polls, r.preads, r.pwrites, r.preads_in_flight, r.pwrites_in_flight));
    aio.count_poll();
    let r = aio.take_report();
    assert_eq!((1, 0, 0), (r.polls, r.preads, r.pwrites));
    assert_eq!(10001, aio.stats().curr_polls);
}

#[test]
fn connections_go_round_robin() {
    let mut d = Dispatcher::new(3);
    let picks: Vec<usize> = (0..7).map(|_| d.next_worker()).collect();
    assert_eq!(vec![0, 1, 2, 0, 1, 2, 0], picks);
}

#[test]
fn workers_take_the_units_after_the_accepting_one() {
    assert_eq!(1, processing_unit_for_worker(0, 8));
    assert_eq!(5, processing_unit_for_worker(4, 8));
    assert_eq!(7, processing_unit_for_worker(6, 8));
    assert_eq!(7, processing_unit_for_worker(9, 8));
    assert_eq!(0, processing_unit_for_worker(0, 1));
}
