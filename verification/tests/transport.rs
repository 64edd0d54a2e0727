use handy_grpc::chunk::{fragment, split_into_chunks};
use handy_grpc::config::ClientBuilder;
use handy_grpc::error::TransferError;
use handy_grpc::mailbox::{Mailbox, SendError};
use handy_grpc::message::{IdGen, PRIORITY_MAX, PRIORITY_MIN};
use handy_grpc::pump::{Pump, PumpAction, PumpEvent, PumpState, BACKOFF_SECS};
use handy_grpc::queue::PriorityQueue;
use handy_grpc::unary::collect_chunk_responses;
use handy_grpc::Message;

#[test]
fn fragment_example_nine_bytes_chunk_four() {
    let mut ids = IdGen::new();
    let msgs = split_into_chunks(b"ABCDEFGHI", 5, 4, &mut ids);
    assert_eq!(msgs.len(), 3);
    let id = msgs[0].id;
    for (i, m) in msgs.iter().enumerate() {
        assert_eq!(m.id, id);
        assert_eq!(m.priority, 5);
        assert_eq!(m.total_chunks, 3);
        assert_eq!(m.chunk_index, i as u32);
    }
    assert_eq!(msgs[0].data.as_deref(), Some(b"ABCD".as_slice()));
    assert_eq!(msgs[1].data.as_deref(), Some(b"EFGH".as_slice()));
    assert_eq!(msgs[2].data.as_deref(), Some(b"I".as_slice()));
}

#[test]
fn fragment_small_payload_rides_whole() {
    let mut ids = IdGen::new();
    let msgs = fragment(b"abc".to_vec(), 9, 4, &mut ids);
    assert_eq!(msgs.len(), 1);
    assert_eq!(msgs[0].total_chunks, 0);
    assert_eq!(msgs[0].chunk_index, 0);
    assert_eq!(msgs[0].priority, 9);
    assert_eq!(msgs[0].data.as_deref(), Some(b"abc".as_slice()));
}

#[test]
fn fragment_round_trip_rebuilds_payload() {
    let mut ids = IdGen::new();
    let data: Vec<u8> = (0u8..=250).collect();
    let msgs = fragment(data.clone(), 0, 7, &mut ids);
    assert_eq!(msgs.len(), (data.len() + 6) / 7);
    let mut rebuilt: Vec<u8> = Vec::new();
    for m in msgs {
        rebuilt.extend_from_slice(m.data.as_deref().unwrap());
    }
    assert_eq!(rebuilt, data);
}

#[test]
fn id_generator_strictly_increases() {
    let mut ids = IdGen::new();
    let a = ids.next_id();
    let b = ids.next_id();
    let c = ids.next_id();
    assert_eq!(a, 1);
    assert!(a < b && b < c);
}

#[test]
fn queue_pops_by_priority_fifo_on_ties() {
    let mut q = PriorityQueue::new();
    let mut ids = IdGen::new();
    let mut entry = |p: u32, tag: u8| Message::unchunked(ids.next_id(), p, vec![tag]);
    q.enqueue(1, entry(1, b'a'));
    q.enqueue(5, entry(5, b'b'));
    q.enqueue(3, entry(3, b'c'));
    q.enqueue(5, entry(5, b'd'));
    assert_eq!(q.len(), 4);

    let order: Vec<(u32, u8)> = std::iter::from_fn(|| q.dequeue())
        .map(|(p, m)| (p, m.data.unwrap()[0]))
        .collect();
    assert_eq!(order, [(5, b'b'), (5, b'd'), (3, b'c'), (1, b'a')]);
    assert!(q.is_empty());
    assert_eq!(q.dequeue(), None);
}

#[test]
fn quick_send_preempts_backlog() {
    let mut mb = Mailbox::new(16, 1024);
    for i in 0..5u8 {
        mb.send(vec![i]).unwrap();
    }
    mb.quick_send(b"urgent".to_vec()).unwrap();
    let first = mb.recv().unwrap();
    assert_eq!(first.priority, PRIORITY_MAX);
    assert_eq!(first.data.as_deref(), Some(b"urgent".as_slice()));
    let second = mb.recv().unwrap();
    assert_eq!(second.priority, PRIORITY_MIN);
    assert_eq!(second.data.as_deref(), Some(&[0u8][..]));
}

#[test]
fn try_send_full_returns_payload_and_leaves_queue_alone() {
    let mut mb = Mailbox::new(2, 1024);
    mb.try_send(b"one".to_vec()).unwrap();
    mb.try_send(b"two".to_vec()).unwrap();
    assert_eq!(mb.queue_len(), 2);

    match mb.try_send(b"three".to_vec()) {
        Err(e) => {
            assert!(e.is_full());
            assert!(!e.is_disconnected());
            assert_eq!(e.into_inner(), Some(b"three".to_vec()));
        },
        Ok(()) => panic!("a full mailbox accepted a payload"),
    }
    assert_eq!(mb.queue_len(), 2);
}

#[test]
fn try_send_partial_chunk_fill_keeps_earlier_chunks() {
    let mut mb = Mailbox::new(3, 1);
    mb.try_send(b"x".to_vec()).unwrap();
    match mb.try_send(b"abc".to_vec()) {
        Err(SendError::Full(bytes)) => assert_eq!(bytes, b"c".to_vec()),
        other => panic!("expected the failing chunk back, got {:?}", other.is_ok()),
    }
    assert_eq!(mb.queue_len(), 3);
    assert_eq!(mb.recv().unwrap().data.as_deref(), Some(b"x".as_slice()));
    assert_eq!(mb.recv().unwrap().data.as_deref(), Some(b"a".as_slice()));
    assert_eq!(mb.recv().unwrap().data.as_deref(), Some(b"b".as_slice()));
}

#[test]
fn closed_mailbox_reports_disconnected() {
    let mut mb = Mailbox::new(4, 1024);
    assert!(!mb.is_closed());
    mb.close();
    assert!(mb.is_closed());
    match mb.send(b"late".to_vec()) {
        Err(SendError::Disconnected(Some(bytes))) => assert_eq!(bytes, b"late".to_vec()),
        _ => panic!("a closed mailbox accepted a payload"),
    }
}

#[test]
fn oversized_send_enqueues_sibling_chunks() {
    let mut mb = Mailbox::new(16, 2);
    mb.send_priority(b"hello".to_vec(), 7).unwrap();
    assert_eq!(mb.queue_len(), 3);
    let a = mb.recv().unwrap();
    let b = mb.recv().unwrap();
    let c = mb.recv().unwrap();
    assert_eq!(mb.recv(), None);
    assert_eq!(a.id, b.id);
    assert_eq!(b.id, c.id);
    assert_eq!((a.total_chunks, b.total_chunks, c.total_chunks), (3, 3, 3));
    assert_eq!((a.chunk_index, b.chunk_index, c.chunk_index), (0, 1, 2));
    let mut rebuilt = Vec::new();
    for m in [a, b, c] {
        rebuilt.extend_from_slice(m.data.as_deref().unwrap());
    }
    assert_eq!(rebuilt, b"hello".to_vec());
}

#[test]
fn pump_retries_after_fixed_backoff_and_keeps_queue() {
    let mut mb = Mailbox::new(8, 1024);
    mb.send(b"resident".to_vec()).unwrap();

    let mut pump = Pump::new();
    assert_eq!(pump.state(), PumpState::Connecting);
    assert_eq!(pump.step(PumpEvent::Connected), PumpAction::Drive);
    assert_eq!(pump.state(), PumpState::Streaming);

    // The stream call fails once: fixed backoff, then reconnect.
    assert_eq!(pump.step(PumpEvent::StreamFailed), PumpAction::Sleep(BACKOFF_SECS));
    assert_eq!(pump.state(), PumpState::Backoff);
    assert_eq!(pump.step(PumpEvent::BackoffElapsed), PumpAction::OpenStream);
    assert_eq!(pump.step(PumpEvent::Connected), PumpAction::Drive);
    assert_eq!(pump.state(), PumpState::Streaming);

    // A second failure backs off the same fixed interval.
    assert_eq!(pump.step(PumpEvent::StreamFailed), PumpAction::Sleep(BACKOFF_SECS));
    assert_eq!(pump.step(PumpEvent::BackoffElapsed), PumpAction::OpenStream);
    assert_eq!(pump.step(PumpEvent::Connected), PumpAction::Drive);

    // Nothing resident in the channel was lost across the recoveries.
    assert_eq!(mb.queue_len(), 1);
    assert_eq!(mb.recv().unwrap().data.as_deref(), Some(b"resident".as_slice()));

    assert_eq!(pump.step(PumpEvent::StreamCompleted), PumpAction::Exit);
    assert!(pump.is_exited());
}

#[test]
fn unary_first_payload_wins() {
    let r = collect_chunk_responses(vec![None, Some(b"first".to_vec()), Some(b"later".to_vec())]);
    assert_eq!(r, Ok(b"first".to_vec()));
}

#[test]
fn unary_all_empty_is_timeout() {
    assert_eq!(collect_chunk_responses(vec![None, None, None]), Err(TransferError::Timeout));
    assert_eq!(collect_chunk_responses(Vec::new()), Err(TransferError::Timeout));
}

#[test]
fn builder_validates_endpoint_settings() {
    let b = ClientBuilder::new("127.0.0.1:9999".to_string());
    assert_eq!(b.concurrency_limit, 10);
    assert_eq!(b.chunk_size, 1024 * 1024);

    let s = b
        .concurrency_limit(0)
        .connect_timeout(5_000)
        .timeout(10_000)
        .auth_token(Some("token".to_string()))
        .chunk_size(512)
        .endpoint_settings()
        .unwrap();
    assert_eq!(s.addr, "127.0.0.1:9999");
    assert_eq!(s.concurrency_limit, 1);
    assert_eq!(s.connect_timeout_ms, Some(5_000));
    assert_eq!(s.timeout_ms, Some(10_000));
    assert_eq!(s.bearer_header, Some("Bearer token".to_string()));

    let bad = ClientBuilder::new("x".to_string()).auth_token(Some(String::new()));
    assert_eq!(bad.endpoint_settings().unwrap_err(), TransferError::EmptyAuthToken);

    let tls = ClientBuilder::new("x".to_string()).tls(Some("ca.pem".to_string()), None);
    let s = tls.endpoint_settings().unwrap();
    assert!(s.tls);
    assert_eq!(s.tls_ca, Some("ca.pem".to_string()));
    assert_eq!(s.bearer_header, None);
}
