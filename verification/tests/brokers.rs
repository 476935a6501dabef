use floorcast::broker::{ConnEvents, PollEvent, UdpBroker, WebSocketBroker, WriteEvent};
use floorcast::errors::ProtocolError;

fn healthy() -> ConnEvents {
    ConnEvents {
        poll: PollEvent::NoData,
        write: WriteEvent::Sent { writable: true },
    }
}

#[test]
fn broadcast_delivers_to_all_healthy_connections() {
    let mut b = WebSocketBroker::new(String::from("0.0.0.0:9000"));
    assert_eq!(b.addr, "0.0.0.0:9000");
    for id in [1, 2, 3] {
        b.accept_connection(id);
    }
    assert_eq!(b.connection_count(), 3);
    let delivered = b
        .broadcast_outcome(&vec![healthy(), healthy(), healthy()])
        .unwrap();
    assert_eq!(delivered, vec![1, 2, 3]);
    assert_eq!(b.connection_count(), 3);
}

#[test]
fn closed_connection_is_pruned_and_skipped() {
    let mut b = WebSocketBroker::new(String::from("addr"));
    for id in [10, 20, 30] {
        b.accept_connection(id);
    }
    let events = vec![
        healthy(),
        ConnEvents {
            poll: PollEvent::Closed,
            write: WriteEvent::Sent { writable: true },
        },
        healthy(),
    ];
    let delivered = b.broadcast_outcome(&events).unwrap();
    assert_eq!(delivered, vec![10, 30], "not delivered to the closed one");
    assert_eq!(b.connection_count(), 2);
    assert_eq!(b.sockets, vec![10, 30]);
}

#[test]
fn aborted_write_prunes_without_error() {
    let mut b = WebSocketBroker::new(String::from("addr"));
    b.accept_connection(7);
    b.accept_connection(8);
    let events = vec![
        ConnEvents {
            poll: PollEvent::NoData,
            write: WriteEvent::Aborted,
        },
        healthy(),
    ];
    let delivered = b.broadcast_outcome(&events).unwrap();
    assert_eq!(delivered, vec![8]);
    assert_eq!(b.sockets, vec![8]);
}

#[test]
fn unwritable_connection_receives_but_is_pruned() {
    let mut b = WebSocketBroker::new(String::from("addr"));
    b.accept_connection(5);
    let events = vec![ConnEvents {
        poll: PollEvent::NoData,
        write: WriteEvent::Sent { writable: false },
    }];
    let delivered = b.broadcast_outcome(&events).unwrap();
    assert_eq!(delivered, vec![5]);
    assert_eq!(b.connection_count(), 0);
}

#[test]
fn application_data_is_a_fatal_violation() {
    let mut b = WebSocketBroker::new(String::from("addr"));
    b.accept_connection(1);
    b.accept_connection(2);
    let events = vec![
        healthy(),
        ConnEvents {
            poll: PollEvent::AppData,
            write: WriteEvent::Sent { writable: true },
        },
    ];
    assert_eq!(
        b.broadcast_outcome(&events),
        Err(ProtocolError::UnexpectedData)
    );
    assert_eq!(b.sockets, vec![1, 2], "a fatal event leaves the table alone");
}

#[test]
fn unrecoverable_read_error_is_fatal() {
    let mut b = WebSocketBroker::new(String::from("addr"));
    b.accept_connection(1);
    let events = vec![ConnEvents {
        poll: PollEvent::ReadFailed,
        write: WriteEvent::Sent { writable: true },
    }];
    assert_eq!(b.broadcast_outcome(&events), Err(ProtocolError::ReadFailed));
}

#[test]
fn unrecoverable_write_error_is_fatal() {
    let mut b = WebSocketBroker::new(String::from("addr"));
    b.accept_connection(1);
    let events = vec![ConnEvents {
        poll: PollEvent::NoData,
        write: WriteEvent::Failed,
    }];
    assert_eq!(b.broadcast_outcome(&events), Err(ProtocolError::WriteFailed));
}

#[test]
fn first_fatal_event_decides_the_error() {
    let mut b = WebSocketBroker::new(String::from("addr"));
    for id in [1, 2, 3] {
        b.accept_connection(id);
    }
    let events = vec![
        healthy(),
        ConnEvents {
            poll: PollEvent::ReadFailed,
            write: WriteEvent::Sent { writable: true },
        },
        ConnEvents {
            poll: PollEvent::AppData,
            write: WriteEvent::Sent { writable: true },
        },
    ];
    assert_eq!(b.broadcast_outcome(&events), Err(ProtocolError::ReadFailed));
}

#[test]
fn datagram_broadcast_addresses_every_target_once() {
    let targets = vec![
        String::from("10.0.0.1:41234"),
        String::from("10.0.0.2:41234"),
        String::from("10.0.0.3:41234"),
    ];
    let b = UdpBroker::new(targets.clone());
    let message = String::from("1000:1,2;3,4");
    let plan = b.broadcast_plan(&message);
    assert_eq!(plan.len(), 3);
    for (i, datagram) in plan.iter().enumerate() {
        assert_eq!(datagram.addr, targets[i]);
        assert_eq!(
            datagram.payload.as_bytes(),
            message.as_bytes(),
            "identical payload bytes to each address"
        );
    }
}

#[test]
fn datagram_broadcast_with_no_targets_sends_nothing() {
    let b = UdpBroker::new(vec![]);
    assert_eq!(b.broadcast_plan(&String::from("x")).len(), 0);
}
