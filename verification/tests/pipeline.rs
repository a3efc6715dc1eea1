use dbqueue::client::{
    confirm_reply, create_reply, delete_reply, read_reply, send_reply, Error, Pipeline,
    PipelinedClient, QueueId,
};
use dbqueue::connection::Connection;
use dbqueue::msg::{ClientMessage, MsgId, ServerMessage};
use dbqueue::queue::QueueSet;

/// Run the bytes a client produced through a broker connection and
/// return the bytes the broker would write back.
fn serve(conn: &mut Connection, queues: &mut QueueSet, bytes: &[u8]) -> Vec<u8> {
    let (_, res, _) = conn.readable(queues, bytes);
    assert_eq!(res, Ok(()));
    let mut reply = Vec::new();
    while let Some(out) = conn.pop_outgoing() {
        reply.extend_from_slice(&out);
    }
    reply
}

#[test]
fn test_pipeline_send_receive() {
    let mut queues = QueueSet::single_thread();
    let mut conn = Connection::new();
    let mut pipeline = Pipeline::new();

    let bytes = pipeline.send(&ClientMessage::CreateQueue(b"foo".to_vec())).unwrap();
    assert_eq!(pipeline.incoming(), 1);

    let reply = serve(&mut conn, &mut queues, &bytes);
    pipeline.feed(&reply);

    let resp = pipeline.receive().unwrap().unwrap();
    assert_eq!(resp, ServerMessage::QueueCreated);
    assert_eq!(pipeline.incoming(), 0);

    assert_eq!(pipeline.receive().unwrap_err(), Error::NoResponseExpected);
}

#[test]
fn test_pipeline_receive_waits_on_partial_response() {
    let mut queues = QueueSet::single_thread();
    let mut conn = Connection::new();
    let mut pipeline = Pipeline::new();

    let bytes = pipeline.send(&ClientMessage::CreateQueue(b"foo".to_vec())).unwrap();
    let reply = serve(&mut conn, &mut queues, &bytes);

    pipeline.feed(&reply[..0]);
    assert_eq!(pipeline.receive().unwrap(), None);
    pipeline.feed(&reply);
    assert_eq!(pipeline.receive().unwrap().unwrap(), ServerMessage::QueueCreated);
}

#[test]
fn test_pipeline_decoding_error() {
    let mut pipeline = Pipeline::new();
    let bytes = pipeline.send(&ClientMessage::CreateQueue(b"foo".to_vec())).unwrap();
    assert!(!bytes.is_empty());
    pipeline.feed(&[0xff, 0xff]);
    assert_eq!(pipeline.receive().unwrap_err(), Error::Decoding);
}

#[test]
fn test_pipeline_send_overlong_is_refused() {
    let mut pipeline = Pipeline::new();
    let err = pipeline
        .send(&ClientMessage::Enqueue(b"foo".to_vec(), vec![0; 5000]))
        .unwrap_err();
    assert_eq!(err, Error::Encoding);
    assert_eq!(pipeline.incoming(), 0);
}

#[test]
fn test_pipelined_client_against_broker() {
    let mut queues = QueueSet::single_thread();
    let mut conn = Connection::new();
    let mut client = PipelinedClient::new();

    let requests = [
        ClientMessage::CreateQueue(b"foo".to_vec()),
        ClientMessage::Enqueue(b"foo".to_vec(), vec![1; 128]),
        ClientMessage::Enqueue(b"foo".to_vec(), vec![2; 128]),
        ClientMessage::Read(b"foo".to_vec(), 1000),
        ClientMessage::Read(b"foo".to_vec(), 1000),
    ];

    let mut wire = Vec::new();
    for request in &requests {
        wire.extend_from_slice(&client.send(request).unwrap());
    }

    let reply = serve(&mut conn, &mut queues, &wire);
    client.feed(&reply);

    // Responses come back in the order the requests were sent.
    let mut iter = client.iter();
    assert_eq!(iter.next().unwrap(), ServerMessage::QueueCreated);
    let id1 = match iter.next().unwrap() {
        ServerMessage::ObjectQueued(id) => id,
        other => panic!("expected ObjectQueued, got {:?}", other),
    };
    let id2 = match iter.next().unwrap() {
        ServerMessage::ObjectQueued(id) => id,
        other => panic!("expected ObjectQueued, got {:?}", other),
    };
    match iter.next().unwrap() {
        ServerMessage::Read(id, data) => {
            assert_eq!(id, id1);
            assert_eq!(data, vec![1; 128]);
        },
        other => panic!("expected Read, got {:?}", other),
    }
    match iter.next().unwrap() {
        ServerMessage::Read(id, data) => {
            assert_eq!(id, id2);
            assert_eq!(data, vec![2; 128]);
        },
        other => panic!("expected Read, got {:?}", other),
    }
    assert_eq!(iter.next(), None);
    let pipeline = iter.into_pipeline();
    assert_eq!(pipeline.incoming(), 0);
}

#[test]
fn test_response_iter_stops_between_responses() {
    let mut queues = QueueSet::single_thread();
    let mut conn = Connection::new();
    let mut client = PipelinedClient::new();

    let mut wire = Vec::new();
    wire.extend_from_slice(&client.send(&ClientMessage::CreateQueue(b"a".to_vec())).unwrap());
    wire.extend_from_slice(
        &client.send(&ClientMessage::Enqueue(b"a".to_vec(), vec![4; 8])).unwrap(),
    );

    let reply = serve(&mut conn, &mut queues, &wire);
    // Hold back the tail of the second response.
    let (first, rest) = reply.split_at(reply.len() - 1);

    client.feed(first);
    let mut iter = client.iter();
    assert_eq!(iter.next().unwrap(), ServerMessage::QueueCreated);
    assert_eq!(iter.next(), None, "a partial response must stop the iteration");
    iter.feed(rest);
    match iter.next().unwrap() {
        ServerMessage::ObjectQueued(_) => {}
        other => panic!("expected ObjectQueued, got {:?}", other),
    }
    assert_eq!(iter.next(), None);
}

#[test]
fn test_reply_interpretation() {
    let id = MsgId { hi: 8, lo: 9 };

    let q = create_reply(b"foo".to_vec(), &ServerMessage::QueueCreated);
    assert_eq!(q, QueueId(b"foo".to_vec()));

    assert_eq!(delete_reply(b"foo".to_vec(), &ServerMessage::QueueDeleted), Ok(()));
    assert_eq!(
        delete_reply(b"foo".to_vec(), &ServerMessage::NoSuchEntity),
        Err(Error::NoQueue(QueueId(b"foo".to_vec())))
    );

    assert_eq!(send_reply(b"foo".to_vec(), ServerMessage::ObjectQueued(id)), Ok(id));
    assert_eq!(
        send_reply(b"foo".to_vec(), ServerMessage::Full(id, vec![1, 2])),
        Err(Error::Full(id, vec![1, 2]))
    );
    assert_eq!(
        send_reply(b"foo".to_vec(), ServerMessage::NoSuchEntity),
        Err(Error::NoQueue(QueueId(b"foo".to_vec())))
    );

    let m = read_reply(b"foo".to_vec(), ServerMessage::Read(id, vec![3, 4])).unwrap();
    assert_eq!(m.id, id);
    assert_eq!(m.data, vec![3, 4]);
    assert_eq!(read_reply(b"foo".to_vec(), ServerMessage::Empty), Err(Error::Empty));
    assert_eq!(
        read_reply(b"foo".to_vec(), ServerMessage::NoSuchEntity),
        Err(Error::NoQueue(QueueId(b"foo".to_vec())))
    );

    assert_eq!(confirm_reply(id, ServerMessage::Confirmed), Ok(()));
    assert_eq!(confirm_reply(id, ServerMessage::Requeued), Err(Error::Requeued));
    assert_eq!(
        confirm_reply(id, ServerMessage::Full(id, vec![5])),
        Err(Error::Full(id, vec![5]))
    );
    assert_eq!(confirm_reply(id, ServerMessage::NoSuchEntity), Err(Error::NoObject(id)));
}
