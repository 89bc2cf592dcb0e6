use kernel_core::ipc::{
    IPCIds, MessageBuffer, RecvOutcome, SendOutcome, E2BIG, EINVAL, ENOMSG, IPC_CREATE,
    IPC_NOWAIT, IPC_RMID,
};

fn make_queue(ids: &mut IPCIds, key: i32) -> i32 {
    ids.sys_msgget(key, IPC_CREATE).expect("queue must be creatable")
}

#[test]
fn msgget_creates_and_finds() {
    let mut ids = IPCIds::new();
    let id = make_queue(&mut ids, 7);
    let again = ids.sys_msgget(7, 0).expect("existing key must resolve");
    assert_eq!(id, again);
}

#[test]
fn send_with_zero_mtype_is_inval() {
    let mut ids = IPCIds::new();
    let id = make_queue(&mut ids, 1);
    let buf = MessageBuffer { mtype: 0, data: vec![1, 2, 3] };
    match ids.sys_msgsend(id, &buf, 3, 0, 10) {
        SendOutcome::Failed(e) => assert_eq!(e, EINVAL),
        _ => panic!("a message type below 1 must be refused"),
    }
}

#[test]
fn send_then_receive_round_trips_bytes() {
    let mut ids = IPCIds::new();
    let id = make_queue(&mut ids, 2);
    let payload: Vec<u8> = (0u32..5000).map(|i| (i % 251) as u8).collect();
    let buf = MessageBuffer { mtype: 9, data: payload.clone() };
    match ids.sys_msgsend(id, &buf, payload.len(), 0, 1) {
        SendOutcome::Sent => {},
        _ => panic!("send into an empty queue must succeed"),
    }
    match ids.sys_msgrcv(id, payload.len(), 0, 0, 2) {
        RecvOutcome::Received(got) => {
            assert_eq!(got.mtype, 9);
            assert_eq!(got.data, payload);
        },
        _ => panic!("a held message must be received"),
    }
}

#[test]
fn receive_too_small_is_e2big_and_keeps_message() {
    let mut ids = IPCIds::new();
    let id = make_queue(&mut ids, 3);
    let buf = MessageBuffer { mtype: 4, data: vec![5; 100] };
    match ids.sys_msgsend(id, &buf, 100, 0, 1) {
        SendOutcome::Sent => {},
        _ => panic!("send must succeed"),
    }
    match ids.sys_msgrcv(id, 10, 4, 0, 2) {
        RecvOutcome::Failed(e) => assert_eq!(e, E2BIG),
        _ => panic!("a too-small buffer must fail"),
    }
    // The message is still there for a big enough buffer.
    match ids.sys_msgrcv(id, 100, 4, 0, 2) {
        RecvOutcome::Received(got) => assert_eq!(got.data.len(), 100),
        _ => panic!("the message must not have been detached"),
    }
}

#[test]
fn receive_empty_nowait_is_nomsg() {
    let mut ids = IPCIds::new();
    let id = make_queue(&mut ids, 4);
    match ids.sys_msgrcv(id, 10, 0, IPC_NOWAIT, 2) {
        RecvOutcome::Failed(e) => assert_eq!(e, ENOMSG),
        _ => panic!("an empty queue without patience must fail"),
    }
}

#[test]
fn type_selectors_match_as_specified() {
    let mut ids = IPCIds::new();
    let id = make_queue(&mut ids, 5);
    for t in 1..=3i32 {
        let buf = MessageBuffer { mtype: t, data: vec![t as u8] };
        match ids.sys_msgsend(id, &buf, 1, 0, 1) {
            SendOutcome::Sent => {},
            _ => panic!("send must succeed"),
        }
    }
    // A selector below -1 takes the second message of type at most its
    // magnitude: here, among types 1 and 2, the message of type 2.
    match ids.sys_msgrcv(id, 8, -2, 0, 2) {
        RecvOutcome::Received(got) => assert_eq!(got.mtype, 2),
        _ => panic!("selector -2 must pick the second qualifying message"),
    }
    // A positive selector takes its own type only.
    match ids.sys_msgrcv(id, 8, 3, 0, 2) {
        RecvOutcome::Received(got) => assert_eq!(got.mtype, 3),
        _ => panic!("selector 3 must match type 3"),
    }
}

#[test]
fn removal_wakes_every_waiter_exactly_once() {
    let mut ids = IPCIds::new();
    let id = make_queue(&mut ids, 6);
    // Three receivers block on the empty queue.
    for pid in 1..=3usize {
        match ids.sys_msgrcv(id, 8, 0, 0, pid) {
            RecvOutcome::Blocked => {},
            _ => panic!("an empty queue must block a patient receiver"),
        }
    }
    assert_eq!(ids.woken_receivers.len(), 0);
    ids.sys_msgctl(id, IPC_RMID).expect("removal must succeed");
    assert_eq!(ids.woken_receivers.len(), 3);
    let mut pids: Vec<usize> = ids.woken_receivers.iter().map(|w| w.pid).collect();
    pids.sort();
    assert_eq!(pids, vec![1, 2, 3]);
    for w in &ids.woken_receivers {
        assert!(w.r_msg.is_none());
    }
}

#[test]
fn fan_in_small_scale() {
    // A scaled-down exchange: several senders, one type each, drained by
    // receivers asking for anything.
    let mut ids = IPCIds::new();
    let id = make_queue(&mut ids, 8);
    let mut seen = vec![0i64; 21];
    for i in 1..=20i32 {
        let buf = MessageBuffer { mtype: i, data: (-(i as i64)).to_le_bytes().to_vec() };
        match ids.sys_msgsend(id, &buf, 8, 0, i as usize) {
            SendOutcome::Sent => {},
            _ => panic!("send must succeed"),
        }
    }
    for _ in 0..20 {
        match ids.sys_msgrcv(id, 8, 0, 0, 99) {
            RecvOutcome::Received(got) => {
                let v = i64::from_le_bytes(got.data.try_into().unwrap());
                seen[got.mtype as usize] = v;
            },
            _ => panic!("each message must come back"),
        }
    }
    ids.sys_msgctl(id, IPC_RMID).expect("removal must succeed");
    for t in 1..=20usize {
        assert_eq!(seen[t], -(t as i64));
    }
}
