use dbqueue::connection::Connection;
use dbqueue::error::Error;
use dbqueue::msg::{ClientMessage, MsgId, ServerMessage};
use dbqueue::queue::QueueSet;

/// Hand one encoded request to the connection and decode its one
/// response; also returns the redelivery timers the caller should arm.
fn exchange(
    conn: &mut Connection,
    queues: &mut QueueSet,
    req: &ClientMessage,
) -> (ServerMessage, Vec<(MsgId, u64)>) {
    let bytes = req.encode().unwrap();
    let (timers, res, _) = conn.readable(queues, &bytes);
    assert_eq!(res, Ok(()));
    let out = conn.pop_outgoing().unwrap();
    assert!(conn.pop_outgoing().is_none());
    let (resp, n) = ServerMessage::decode(&out).unwrap();
    assert_eq!(n, out.len());
    (resp, timers)
}

fn queued_id(resp: ServerMessage) -> MsgId {
    match resp {
        ServerMessage::ObjectQueued(id) => id,
        other => panic!("expected ObjectQueued, got {:?}", other),
    }
}

fn read_message(resp: ServerMessage) -> (MsgId, Vec<u8>) {
    match resp {
        ServerMessage::Read(id, data) => (id, data),
        other => panic!("expected Read, got {:?}", other),
    }
}

#[test]
fn test_single_create_send_read_confirm() {
    let mut queues = QueueSet::single_thread();
    let mut conn = Connection::new();

    let (r, _) = exchange(&mut conn, &mut queues, &ClientMessage::CreateQueue(b"foo".to_vec()));
    assert_eq!(r, ServerMessage::QueueCreated);

    let (r, _) = exchange(
        &mut conn,
        &mut queues,
        &ClientMessage::Enqueue(b"foo".to_vec(), vec![16; 100]),
    );
    let id = queued_id(r);

    let (r, timers) = exchange(&mut conn, &mut queues, &ClientMessage::Read(b"foo".to_vec(), 1000));
    let (rid, data) = read_message(r);
    assert_eq!(rid, id);
    assert_eq!(data, vec![16; 100]);
    assert_eq!(timers, vec![(id, 1000)]);

    let (r, _) = exchange(&mut conn, &mut queues, &ClientMessage::Confirm(id));
    assert_eq!(r, ServerMessage::Confirmed);
}

#[test]
fn test_multiple_items_in_one_queue() {
    let data = [vec![56; 200], vec![243; 200], vec![78; 200]];

    let mut queues = QueueSet::single_thread();
    let mut conn = Connection::new();

    let (r, _) = exchange(&mut conn, &mut queues, &ClientMessage::CreateQueue(b"foo".to_vec()));
    assert_eq!(r, ServerMessage::QueueCreated);

    for datum in &data {
        let (r, _) = exchange(
            &mut conn,
            &mut queues,
            &ClientMessage::Enqueue(b"foo".to_vec(), datum.clone()),
        );
        queued_id(r);
    }

    let mut ids = Vec::new();
    for datum in &data {
        let (r, _) =
            exchange(&mut conn, &mut queues, &ClientMessage::Read(b"foo".to_vec(), 1000));
        let (id, payload) = read_message(r);
        assert_eq!(&payload, datum);
        ids.push(id);
    }

    for id in ids {
        let (r, _) = exchange(&mut conn, &mut queues, &ClientMessage::Confirm(id));
        assert_eq!(r, ServerMessage::Confirmed);
    }
}

#[test]
fn test_read_confirm_timeout() {
    let mut queues = QueueSet::single_thread();
    let mut conn = Connection::new();

    exchange(&mut conn, &mut queues, &ClientMessage::CreateQueue(b"foo".to_vec()));
    exchange(
        &mut conn,
        &mut queues,
        &ClientMessage::Enqueue(b"foo".to_vec(), vec![1; 128]),
    );

    let (r, timers) = exchange(&mut conn, &mut queues, &ClientMessage::Read(b"foo".to_vec(), 10));
    let (id, data) = read_message(r);
    assert_eq!(data, vec![1; 128]);
    assert_eq!(timers, vec![(id, 10)]);

    // The timeout elapses before the confirm arrives.
    conn.timer_fired(&mut queues, id);

    let (r, _) = exchange(&mut conn, &mut queues, &ClientMessage::Confirm(id));
    assert_eq!(r, ServerMessage::Requeued, "confirm after timeout must report the requeue");

    // After a requeue, the next read yields the requeued payload.
    let (r, _) = exchange(&mut conn, &mut queues, &ClientMessage::Read(b"foo".to_vec(), 100));
    let (id2, data2) = read_message(r);
    assert_eq!(data2, vec![1; 128]);
    let (r, _) = exchange(&mut conn, &mut queues, &ClientMessage::Confirm(id2));
    assert_eq!(r, ServerMessage::Confirmed);
}

#[test]
fn test_request_pipelining() {
    let requests_phase_1 = [
        ClientMessage::CreateQueue(b"foo".to_vec()),
        ClientMessage::Enqueue(b"foo".to_vec(), vec![1; 128]),
        ClientMessage::Enqueue(b"foo".to_vec(), vec![2; 128]),
        ClientMessage::Read(b"foo".to_vec(), 1000),
        ClientMessage::Enqueue(b"foo".to_vec(), vec![3; 128]),
        ClientMessage::Read(b"foo".to_vec(), 1000),
        ClientMessage::Read(b"foo".to_vec(), 1000),
    ];

    let mut queues = QueueSet::single_thread();
    let mut conn = Connection::new();

    // Send all requests back to back, in one readable event.
    let mut bytes = Vec::new();
    for request in &requests_phase_1 {
        request.encode_to(&mut bytes).unwrap();
    }
    let (_, res, _) = conn.readable(&mut queues, &bytes);
    assert_eq!(res, Ok(()));

    // Exactly one response per request, in request order.
    let mut responses = Vec::new();
    while let Some(out) = conn.pop_outgoing() {
        let (resp, n) = ServerMessage::decode(&out).unwrap();
        assert_eq!(n, out.len());
        responses.push(resp);
    }
    assert_eq!(responses.len(), 7);

    assert_eq!(responses[0], ServerMessage::QueueCreated);
    let id1 = queued_id(responses[1].clone());
    let id2 = queued_id(responses[2].clone());
    let data1 = read_message(responses[3].clone());
    let id3 = queued_id(responses[4].clone());
    let data2 = read_message(responses[5].clone());
    let data3 = read_message(responses[6].clone());

    assert_eq!(data1.1, vec![1; 128]);
    assert_eq!(data2.1, vec![2; 128]);
    assert_eq!(data3.1, vec![3; 128]);

    for id in [id1, id2, id3] {
        let (r, _) = exchange(&mut conn, &mut queues, &ClientMessage::Confirm(id));
        assert_eq!(r, ServerMessage::Confirmed);
    }
}

#[test]
fn test_full_queue_returns_payload() {
    let mut queues = QueueSet::concurrent(1);
    let mut conn = Connection::new();

    let (r, _) = exchange(&mut conn, &mut queues, &ClientMessage::CreateQueue(b"q".to_vec()));
    assert_eq!(r, ServerMessage::QueueCreated);

    let (r, _) = exchange(
        &mut conn,
        &mut queues,
        &ClientMessage::Enqueue(b"q".to_vec(), vec![1, 2, 3]),
    );
    queued_id(r);

    let (r, _) = exchange(
        &mut conn,
        &mut queues,
        &ClientMessage::Enqueue(b"q".to_vec(), vec![4, 5, 6]),
    );
    match r {
        ServerMessage::Full(_, data) => assert_eq!(data, vec![4, 5, 6]),
        other => panic!("expected Full with the rejected payload, got {:?}", other),
    }
}

#[test]
fn test_delete_queue_no_such_entity() {
    let mut queues = QueueSet::single_thread();
    let mut conn = Connection::new();

    exchange(&mut conn, &mut queues, &ClientMessage::CreateQueue(b"foo".to_vec()));
    let (r, _) = exchange(&mut conn, &mut queues, &ClientMessage::DeleteQueue(b"foo".to_vec()));
    assert_eq!(r, ServerMessage::QueueDeleted);

    let (r, _) = exchange(&mut conn, &mut queues, &ClientMessage::Read(b"foo".to_vec(), 1000));
    assert_eq!(r, ServerMessage::NoSuchEntity);
    let (r, _) = exchange(
        &mut conn,
        &mut queues,
        &ClientMessage::Enqueue(b"foo".to_vec(), vec![1]),
    );
    assert_eq!(r, ServerMessage::NoSuchEntity);
    let (r, _) = exchange(&mut conn, &mut queues, &ClientMessage::DeleteQueue(b"foo".to_vec()));
    assert_eq!(r, ServerMessage::NoSuchEntity);
}

#[test]
fn test_read_empty_and_confirm_unknown() {
    let mut queues = QueueSet::single_thread();
    let mut conn = Connection::new();

    exchange(&mut conn, &mut queues, &ClientMessage::CreateQueue(b"foo".to_vec()));
    let (r, timers) = exchange(&mut conn, &mut queues, &ClientMessage::Read(b"foo".to_vec(), 1000));
    assert_eq!(r, ServerMessage::Empty);
    assert!(timers.is_empty());

    let (r, _) = exchange(
        &mut conn,
        &mut queues,
        &ClientMessage::Confirm(MsgId { hi: 1, lo: 2 }),
    );
    assert_eq!(r, ServerMessage::NoSuchEntity);
}

#[test]
fn test_read_timeout_zero_arms_no_timer() {
    let mut queues = QueueSet::single_thread();
    let mut conn = Connection::new();

    exchange(&mut conn, &mut queues, &ClientMessage::CreateQueue(b"foo".to_vec()));
    exchange(&mut conn, &mut queues, &ClientMessage::Enqueue(b"foo".to_vec(), vec![8; 4]));
    let (r, timers) = exchange(&mut conn, &mut queues, &ClientMessage::Read(b"foo".to_vec(), 0));
    let (id, _) = read_message(r);
    assert!(timers.is_empty());
    let (r, _) = exchange(&mut conn, &mut queues, &ClientMessage::Confirm(id));
    assert_eq!(r, ServerMessage::Confirmed);
}

#[test]
fn test_requeue_concurrent_goes_to_tail() {
    let mut queues = QueueSet::concurrent(16);
    let mut conn = Connection::new();

    exchange(&mut conn, &mut queues, &ClientMessage::CreateQueue(b"q".to_vec()));
    exchange(&mut conn, &mut queues, &ClientMessage::Enqueue(b"q".to_vec(), vec![1]));
    exchange(&mut conn, &mut queues, &ClientMessage::Enqueue(b"q".to_vec(), vec![2]));

    let (r, _) = exchange(&mut conn, &mut queues, &ClientMessage::Read(b"q".to_vec(), 10));
    let (ida, da) = read_message(r);
    assert_eq!(da, vec![1]);
    conn.timer_fired(&mut queues, ida);

    // The concurrent configuration requeues to the tail, so the other
    // payload comes first.
    let (r, _) = exchange(&mut conn, &mut queues, &ClientMessage::Read(b"q".to_vec(), 10));
    assert_eq!(read_message(r).1, vec![2]);
    let (r, _) = exchange(&mut conn, &mut queues, &ClientMessage::Read(b"q".to_vec(), 10));
    assert_eq!(read_message(r).1, vec![1]);
}

#[test]
fn test_timer_after_confirm_is_noop() {
    let mut queues = QueueSet::single_thread();
    let mut conn = Connection::new();

    exchange(&mut conn, &mut queues, &ClientMessage::CreateQueue(b"foo".to_vec()));
    exchange(&mut conn, &mut queues, &ClientMessage::Enqueue(b"foo".to_vec(), vec![5; 8]));
    let (r, _) = exchange(&mut conn, &mut queues, &ClientMessage::Read(b"foo".to_vec(), 50));
    let (id, _) = read_message(r);
    let (r, _) = exchange(&mut conn, &mut queues, &ClientMessage::Confirm(id));
    assert_eq!(r, ServerMessage::Confirmed);

    // A timer firing after the confirm finds nothing to requeue.
    conn.timer_fired(&mut queues, id);
    let (r, _) = exchange(&mut conn, &mut queues, &ClientMessage::Read(b"foo".to_vec(), 50));
    assert_eq!(r, ServerMessage::Empty);
}

#[test]
fn test_requeue_into_full_queue_retried_by_confirm() {
    let mut queues = QueueSet::concurrent(1);
    let mut conn = Connection::new();

    exchange(&mut conn, &mut queues, &ClientMessage::CreateQueue(b"q".to_vec()));
    exchange(&mut conn, &mut queues, &ClientMessage::Enqueue(b"q".to_vec(), vec![7; 3]));
    let (r, _) = exchange(&mut conn, &mut queues, &ClientMessage::Read(b"q".to_vec(), 10));
    let (ida, _) = read_message(r);

    // Fill the queue again, then let the timer fire: the requeue fails.
    exchange(&mut conn, &mut queues, &ClientMessage::Enqueue(b"q".to_vec(), vec![9; 3]));
    conn.timer_fired(&mut queues, ida);

    // Confirm retries the requeue now; the queue is still full, so the
    // payload comes back to the client.
    let (r, _) = exchange(&mut conn, &mut queues, &ClientMessage::Confirm(ida));
    match r {
        ServerMessage::Full(id, data) => {
            assert_eq!(id, ida);
            assert_eq!(data, vec![7; 3]);
        },
        other => panic!("expected Full after failed requeue retry, got {:?}", other),
    }
}

#[test]
fn test_two_connections_share_concurrent_queues() {
    let mut queues = QueueSet::concurrent(64);
    let mut a = Connection::new();
    let mut b = Connection::new();

    let (r, _) = exchange(&mut a, &mut queues, &ClientMessage::CreateQueue(b"q".to_vec()));
    assert_eq!(r, ServerMessage::QueueCreated);

    exchange(&mut a, &mut queues, &ClientMessage::Enqueue(b"q".to_vec(), vec![1; 16]));
    exchange(&mut b, &mut queues, &ClientMessage::Enqueue(b"q".to_vec(), vec![2; 16]));
    exchange(&mut a, &mut queues, &ClientMessage::Enqueue(b"q".to_vec(), vec![3; 16]));

    // Queue order is shared: readers on either connection drain the
    // same FIFO.
    let (r, _) = exchange(&mut b, &mut queues, &ClientMessage::Read(b"q".to_vec(), 100));
    let (id1, d1) = read_message(r);
    assert_eq!(d1, vec![1; 16]);
    let (r, _) = exchange(&mut a, &mut queues, &ClientMessage::Read(b"q".to_vec(), 100));
    let (id2, d2) = read_message(r);
    assert_eq!(d2, vec![2; 16]);
    let (r, _) = exchange(&mut b, &mut queues, &ClientMessage::Read(b"q".to_vec(), 100));
    let (id3, d3) = read_message(r);
    assert_eq!(d3, vec![3; 16]);

    // Each connection confirms what it read; ids are distinct.
    assert!(id1 != id2 && id2 != id3 && id1 != id3);
    let (r, _) = exchange(&mut b, &mut queues, &ClientMessage::Confirm(id1));
    assert_eq!(r, ServerMessage::Confirmed);
    let (r, _) = exchange(&mut a, &mut queues, &ClientMessage::Confirm(id2));
    assert_eq!(r, ServerMessage::Confirmed);
    // A confirm on the connection that did not read the payload does
    // not know the delivery.
    let (r, _) = exchange(&mut a, &mut queues, &ClientMessage::Confirm(id3));
    assert_eq!(r, ServerMessage::NoSuchEntity);
    let (r, _) = exchange(&mut b, &mut queues, &ClientMessage::Confirm(id3));
    assert_eq!(r, ServerMessage::Confirmed);
}

#[test]
fn test_incomplete_request_waits_for_more_bytes() {
    let mut queues = QueueSet::single_thread();
    let mut conn = Connection::new();

    let bytes = ClientMessage::CreateQueue(b"foo".to_vec()).encode().unwrap();
    let (half, rest) = bytes.split_at(3);

    let (timers, res, _) = conn.readable(&mut queues, half);
    assert_eq!(res, Ok(()));
    assert!(timers.is_empty());
    assert!(conn.pop_outgoing().is_none());

    let (_, res, _) = conn.readable(&mut queues, rest);
    assert_eq!(res, Ok(()));
    let out = conn.pop_outgoing().unwrap();
    assert_eq!(ServerMessage::decode(&out).unwrap().0, ServerMessage::QueueCreated);
}

#[test]
fn test_overlong_garbage_fails_connection() {
    let mut queues = QueueSet::single_thread();
    let mut conn = Connection::new();

    // An undecodable byte under the bound only waits for more bytes...
    let (_, res, _) = conn.readable(&mut queues, &[0xff; 100]);
    assert_eq!(res, Ok(()));
    // ...but a buffer over the largest request without a decodable
    // message is fatal.
    let (_, res, _) = conn.readable(&mut queues, &[0xff; 2000]);
    assert_eq!(res, Err(Error::OverLongMessage));
}

#[test]
fn test_outgoing_partial_write_resumes_at_front() {
    let mut queues = QueueSet::single_thread();
    let mut conn = Connection::new();

    let bytes = ClientMessage::CreateQueue(b"foo".to_vec()).encode().unwrap();
    let (_, res, _) = conn.readable(&mut queues, &bytes);
    assert_eq!(res, Ok(()));

    let out = conn.pop_outgoing().unwrap();
    // Only part of it could be written: the residue goes back in front.
    let residue = out[1..].to_vec();
    conn.push_front_outgoing(residue.clone());
    assert_eq!(conn.outgoing_len(), 1);
    assert_eq!(conn.pop_outgoing().unwrap(), residue);
    assert!(conn.pop_outgoing().is_none());
}

#[test]
fn test_enqueue_ids_are_distinct() {
    let mut queues = QueueSet::single_thread();
    let mut conn = Connection::new();

    exchange(&mut conn, &mut queues, &ClientMessage::CreateQueue(b"foo".to_vec()));
    let (r1, _) = exchange(&mut conn, &mut queues, &ClientMessage::Enqueue(b"foo".to_vec(), vec![1]));
    let (r2, _) = exchange(&mut conn, &mut queues, &ClientMessage::Enqueue(b"foo".to_vec(), vec![2]));
    assert_ne!(queued_id(r1), queued_id(r2));
}

#[test]
fn test_unencodable_response_fails_connection() {
    let mut queues = QueueSet::single_thread();
    let mut conn = Connection::new();

    exchange(&mut conn, &mut queues, &ClientMessage::CreateQueue(b"foo".to_vec()));

    // The enqueue fits the request bound exactly, but the Read response
    // carries 17 more bytes of framing than the payload had left over,
    // so it cannot be encoded.
    let payload = vec![3u8; 2036];
    let req = ClientMessage::Enqueue(b"foo".to_vec(), payload.clone());
    assert_eq!(req.encode().unwrap().len(), 2048);
    exchange(&mut conn, &mut queues, &req);

    let bytes = ClientMessage::Read(b"foo".to_vec(), 50).encode().unwrap();
    let (timers, res, _) = conn.readable(&mut queues, &bytes);
    assert_eq!(res, Err(Error::Encoding));
    assert!(conn.pop_outgoing().is_none());

    // The delivery was still registered and its timer handed out.
    assert_eq!(timers.len(), 1);
    assert_eq!(timers[0].1, 50);

    // While the delivery is unconfirmed, the queue is empty...
    let mut conn2 = Connection::new();
    let (r, _) = exchange(&mut conn2, &mut queues, &ClientMessage::Read(b"foo".to_vec(), 0));
    assert_eq!(r, ServerMessage::Empty);

    // ...and once the timer fires, the payload is back: the next read
    // dequeues it and runs into the same response bound.
    conn.timer_fired(&mut queues, timers[0].0);
    let mut conn3 = Connection::new();
    let bytes = ClientMessage::Read(b"foo".to_vec(), 0).encode().unwrap();
    let (_, res, _) = conn3.readable(&mut queues, &bytes);
    assert_eq!(res, Err(Error::Encoding));
}

#[test]
fn test_queue_names_compare_whole() {
    let mut queues = QueueSet::single_thread();
    let mut conn = Connection::new();

    exchange(&mut conn, &mut queues, &ClientMessage::CreateQueue(b"foo".to_vec()));
    exchange(&mut conn, &mut queues, &ClientMessage::CreateQueue(b"foob".to_vec()));
    exchange(&mut conn, &mut queues, &ClientMessage::Enqueue(b"foo".to_vec(), vec![1]));
    exchange(&mut conn, &mut queues, &ClientMessage::Enqueue(b"foob".to_vec(), vec![2]));

    let (r, _) = exchange(&mut conn, &mut queues, &ClientMessage::Read(b"foob".to_vec(), 0));
    assert_eq!(read_message(r).1, vec![2]);
    let (r, _) = exchange(&mut conn, &mut queues, &ClientMessage::Read(b"fo".to_vec(), 0));
    assert_eq!(r, ServerMessage::NoSuchEntity);
    let (r, _) = exchange(&mut conn, &mut queues, &ClientMessage::Read(b"foo".to_vec(), 0));
    assert_eq!(read_message(r).1, vec![1]);
}
