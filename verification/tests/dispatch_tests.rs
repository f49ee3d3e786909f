use rpc_codec::dispatch::DecodeEnd;
use rpc_codec::mem::RpcMem;

#[test]
fn dispatch_invokes_handler_once() {
    let mut rpc = RpcMem::new();
    rpc.reg_event(5);
    let stream = [5, 0, 0, 0, 3, 0, 0, 0, 1, 2, 3];
    let (events, end) = rpc.invoke(&stream);
    assert_eq!(end, DecodeEnd::Complete);
    assert_eq!(events.len(), 1);
    // a handler registered for kind 5 that records received bytes sees [1,2,3]
    let mut received: Vec<Vec<u8>> = Vec::new();
    for e in &events {
        if e.t == 5 {
            received.push(e.payload.clone());
        }
    }
    assert_eq!(received, vec![vec![1, 2, 3]]);
}

#[test]
fn dispatch_truncated_payload_invokes_nothing() {
    let mut rpc = RpcMem::new();
    rpc.reg_event(5);
    // same stream, one payload byte short: malformed, no dispatch
    let stream = [5, 0, 0, 0, 3, 0, 0, 0, 1, 2];
    let (events, end) = rpc.invoke(&stream);
    assert!(events.is_empty());
    assert_eq!(end, DecodeEnd::Truncated);
}

#[test]
fn unregistered_kind_halts_cleanly() {
    let mut rpc = RpcMem::new();
    let stream = [99, 0, 0, 0, 0, 0, 0, 0];
    let (events, end) = rpc.invoke(&stream);
    assert!(events.is_empty());
    assert_eq!(end, DecodeEnd::UnknownKind(99));
}

#[test]
fn unknown_kind_stops_before_later_events() {
    let mut rpc = RpcMem::new();
    rpc.reg_event(5);
    // a well-formed kind-5 event hides behind an unknown kind 99: no skip-ahead
    let stream = [99, 0, 0, 0, 0, 0, 0, 0, 5, 0, 0, 0, 0, 0, 0, 0];
    let (events, end) = rpc.invoke(&stream);
    assert!(events.is_empty());
    assert_eq!(end, DecodeEnd::UnknownKind(99));
}

#[test]
fn dispatch_decodes_several_events_in_order() {
    let mut rpc = RpcMem::new();
    rpc.reg_event(5);
    rpc.reg_event(8);
    rpc.reg_event(8); // duplicate registration is one registration
    let stream = [
        8, 0, 0, 0, 1, 0, 0, 0, 0xFF, // kind 8, payload [255]
        5, 0, 0, 0, 0, 0, 0, 0, // kind 5, empty payload
        5, 0, 0, 0, 2, 0, 0, 0, 7, 9, // kind 5, payload [7,9]
    ];
    let (events, end) = rpc.invoke(&stream);
    assert_eq!(end, DecodeEnd::Complete);
    let shape: Vec<(u32, Vec<u8>)> = events.iter().map(|e| (e.t, e.payload.clone())).collect();
    assert_eq!(
        shape,
        vec![(8, vec![0xFF]), (5, vec![]), (5, vec![7, 9])]
    );
}

#[test]
fn dispatch_truncated_header_invokes_nothing_after() {
    let mut rpc = RpcMem::new();
    rpc.reg_event(5);
    // a whole event, then 3 trailing bytes: the prefix stands, the tail is malformed
    let stream = [5, 0, 0, 0, 1, 0, 0, 0, 42, 5, 0, 0];
    let (events, end) = rpc.invoke(&stream);
    assert_eq!(events.len(), 1);
    assert_eq!(events[0].payload, vec![42]);
    assert_eq!(end, DecodeEnd::Truncated);
    // a kind with its length field cut off is malformed too
    let stream2 = [5, 0, 0, 0, 1, 0];
    let (events2, end2) = rpc.invoke(&stream2);
    assert!(events2.is_empty());
    assert_eq!(end2, DecodeEnd::Truncated);
}

#[test]
fn empty_stream_is_complete() {
    let rpc = RpcMem::new();
    let (events, end) = rpc.invoke(&[]);
    assert!(events.is_empty());
    assert_eq!(end, DecodeEnd::Complete);
}
