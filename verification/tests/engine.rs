use netframe::pk::{encode_frame, try_recv, RecvResult, WireInput};
use netframe::server::{Conn, Dispatch, Server};

#[test]
fn accepted_connections_keep_arrival_order() {
    let mut s: Server<u32, &'static str> = Server::new();
    let a = s.accept(0, "a");
    let b = s.accept(0, "b");
    let c = s.accept(0, "c");
    assert_eq!((a, b, c), (0, 1, 2));
    assert_eq!(s.len(), 3);
    for i in 0..3 {
        assert_eq!(s.conn_at(i).id(), i as u64);
    }
    assert_eq!(*s.conn_at(0).stream(), "a");
    assert_eq!(*s.conn_at(1).stream(), "b");
    assert_eq!(*s.conn_at(2).stream(), "c");
}

#[test]
fn closed_connection_is_evicted_and_not_polled_again() {
    let mut s: Server<u32, ()> = Server::new();
    s.accept(0, ());
    s.accept(0, ());
    s.accept(0, ());
    let d = s.conn_at_mut(1).apply_poll::<Vec<u8>, String>(Ok(RecvResult::Closed));
    assert!(matches!(d, Dispatch::Closed));
    // the terminating connection is skipped for the rest of the iteration
    assert!(s.should_poll(0));
    assert!(!s.should_poll(1));
    assert!(s.should_poll(2));
    s.sweep();
    assert_eq!(s.len(), 2);
    assert_eq!(s.conn_at(0).id(), 0);
    assert_eq!(s.conn_at(1).id(), 2);
    // ids keep growing after an eviction
    let id = s.accept(0, ());
    assert_eq!(id, 3);
}

#[test]
fn abrupt_close_is_evicted() {
    let mut s: Server<u32, ()> = Server::new();
    s.accept(0, ());
    let d = s.conn_at_mut(0).apply_poll::<Vec<u8>, String>(Ok(RecvResult::ClosedWrongly));
    assert!(matches!(d, Dispatch::ClosedUnexpected));
    s.sweep();
    assert_eq!(s.len(), 0);
}

#[test]
fn receive_error_is_evicted_with_the_error() {
    let mut s: Server<u32, ()> = Server::new();
    s.accept(0, ());
    let d = s
        .conn_at_mut(0)
        .apply_poll::<Vec<u8>, String>(Err(String::from("bad payload")));
    match d {
        Dispatch::Failed(e) => assert_eq!(e, "bad payload"),
        _ => panic!("an error must route to the error callback"),
    }
    assert!(!s.should_poll(0));
    s.sweep();
    assert_eq!(s.len(), 0);
}

#[test]
fn explicit_close_is_evicted() {
    let mut s: Server<u32, ()> = Server::new();
    s.accept(0, ());
    s.conn_at_mut(0).close();
    assert!(s.conn_at(0).should_close());
    s.sweep();
    assert_eq!(s.len(), 0);
}

#[test]
fn message_and_silence_keep_the_connection() {
    let mut s: Server<u32, ()> = Server::new();
    s.accept(0, ());
    let d = s
        .conn_at_mut(0)
        .apply_poll::<Vec<u8>, String>(Ok(RecvResult::Message(vec![1, 2])));
    match d {
        Dispatch::Message(m) => assert_eq!(m, vec![1, 2]),
        _ => panic!("a message must route to the message callback"),
    }
    let d = s.conn_at_mut(0).apply_poll::<Vec<u8>, String>(Ok(RecvResult::NoData));
    assert!(matches!(d, Dispatch::Idle));
    s.sweep();
    assert_eq!(s.len(), 1);
}

#[test]
fn connections_are_polled_in_arrival_order() {
    let mut s: Server<u64, WireInput> = Server::new();
    for n in 0..3u8 {
        let mut w = WireInput::new();
        w.deliver(&encode_frame(&[n + 10]));
        s.accept(0, w);
    }
    let mut order = Vec::new();
    for i in 0..s.len() {
        if !s.should_poll(i) {
            continue;
        }
        match try_recv(s.conn_at_mut(i).stream_mut()) {
            RecvResult::Message(p) => order.push(p[0]),
            _ => panic!("each connection has one pending frame"),
        }
    }
    assert_eq!(order, vec![10, 11, 12]);
}

#[test]
fn standalone_connection_lifecycle() {
    let mut c: Conn<u8, ()> = Conn::new(4, 0, ());
    assert_eq!(c.id(), 4);
    assert!(!c.should_close());
    c.close();
    assert!(c.should_close());
}

/// Messages and replies for the counter scenario, as a peer using bincode
/// would encode them: `(0, n)` adds `n`, `(1, 0)` asks for the value;
/// replies are `(0, 0)` for ok and `(2, v)` for the value.
type Msg = (u8, u64);

fn frame_of(m: &Msg) -> Vec<u8> {
    encode_frame(&bincode::serialize(m).unwrap())
}

/// One engine iteration over every live connection: poll, decode, apply the
/// transition table, run the callbacks, then evict the terminated.
fn run_iteration(s: &mut Server<u64, WireInput>, client_rx: &mut WireInput) {
    let n = s.len();
    for i in 0..n {
        if !s.should_poll(i) {
            continue;
        }
        let polled = try_recv(s.conn_at_mut(i).stream_mut());
        let ev: Result<RecvResult<Msg>, String> = match polled {
            RecvResult::Message(p) => match bincode::deserialize::<Msg>(&p) {
                Ok(m) => Ok(RecvResult::Message(m)),
                Err(e) => Err(e.to_string()),
            },
            RecvResult::NoData => Ok(RecvResult::NoData),
            RecvResult::Closed => Ok(RecvResult::Closed),
            RecvResult::ClosedWrongly => Ok(RecvResult::ClosedWrongly),
        };
        match s.conn_at_mut(i).apply_poll(ev) {
            Dispatch::Message((tag, n)) => {
                // the message callback: count additions, report the value
                let conn = s.conn_at_mut(i);
                if tag == 0 {
                    conn.state += n;
                    client_rx.deliver(&frame_of(&(0, 0)));
                } else {
                    let v = conn.state;
                    client_rx.deliver(&frame_of(&(2, v)));
                }
            }
            _ => {}
        }
    }
    s.sweep();
}

#[test]
fn counter_scenario() {
    let mut s: Server<u64, WireInput> = Server::new();
    let mut client_rx = WireInput::new();

    let mut wire = WireInput::new();
    wire.deliver(&frame_of(&(0, 5)));
    wire.deliver(&frame_of(&(0, 3)));
    wire.deliver(&frame_of(&(1, 0)));
    s.accept(0, wire);
    assert_eq!(s.conn_at(0).state, 0);

    for _ in 0..4 {
        run_iteration(&mut s, &mut client_rx);
    }
    assert_eq!(s.len(), 1);
    assert_eq!(s.conn_at(0).state, 8);

    // the client's three reads give ok, ok, value(8), in order
    let mut replies = Vec::new();
    loop {
        match try_recv(&mut client_rx) {
            RecvResult::Message(p) => replies.push(bincode::deserialize::<Msg>(&p).unwrap()),
            _ => break,
        }
    }
    assert_eq!(replies, vec![(0, 0), (0, 0), (2, 8)]);

    // the peer closes cleanly; the connection leaves the collection
    s.conn_at_mut(0).stream_mut().close();
    run_iteration(&mut s, &mut client_rx);
    assert_eq!(s.len(), 0);
}

#[test]
fn truncated_frame_takes_the_abrupt_path_and_counter_is_unchanged() {
    let mut s: Server<u64, WireInput> = Server::new();
    let mut client_rx = WireInput::new();

    // the peer announces 8 payload bytes, sends 5, then closes
    let mut wire = WireInput::new();
    wire.deliver(&8u64.to_le_bytes());
    wire.deliver(&[1, 2, 3, 4, 5]);
    wire.close();
    s.accept(0, wire);

    let polled = try_recv(s.conn_at_mut(0).stream_mut());
    assert!(matches!(polled, RecvResult::ClosedWrongly));
    let d = s.conn_at_mut(0).apply_poll::<Msg, String>(Ok(RecvResult::ClosedWrongly));
    assert!(matches!(d, Dispatch::ClosedUnexpected));
    assert_eq!(s.conn_at(0).state, 0);
    s.sweep();
    assert_eq!(s.len(), 0);
    assert_eq!(client_rx.pending(), 0);
}
