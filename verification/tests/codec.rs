use dbqueue::msg::{ClientMessage, MsgId, ServerMessage};
use dbqueue::codec::{DecodingError, EncodingError};

fn id(hi: u64, lo: u64) -> MsgId {
    MsgId { hi, lo }
}

fn roundtrip_client(m: ClientMessage) {
    let bytes = m.encode().unwrap();
    let (back, n) = ClientMessage::decode(&bytes).unwrap();
    assert_eq!(back, m);
    assert_eq!(n, bytes.len());
}

fn roundtrip_server(m: ServerMessage) {
    let bytes = m.encode().unwrap();
    let (back, n) = ServerMessage::decode(&bytes).unwrap();
    assert_eq!(back, m);
    assert_eq!(n, bytes.len());
}

#[test]
fn client_messages_roundtrip() {
    roundtrip_client(ClientMessage::CreateQueue(b"foo".to_vec()));
    roundtrip_client(ClientMessage::DeleteQueue(b"a queue".to_vec()));
    roundtrip_client(ClientMessage::Enqueue(b"foo".to_vec(), vec![7; 100]));
    roundtrip_client(ClientMessage::Read(b"foo".to_vec(), 1000));
    roundtrip_client(ClientMessage::Read(b"foo".to_vec(), 0));
    roundtrip_client(ClientMessage::Confirm(id(0x0123456789abcdef, 0xfedcba9876543210)));
    roundtrip_client(ClientMessage::CreateQueue(Vec::new()));
    roundtrip_client(ClientMessage::Enqueue(b"q".to_vec(), Vec::new()));
}

#[test]
fn server_messages_roundtrip() {
    roundtrip_server(ServerMessage::QueueCreated);
    roundtrip_server(ServerMessage::QueueDeleted);
    roundtrip_server(ServerMessage::ObjectQueued(id(1, 2)));
    roundtrip_server(ServerMessage::Read(id(3, 4), vec![16; 100]));
    roundtrip_server(ServerMessage::Confirmed);
    roundtrip_server(ServerMessage::Requeued);
    roundtrip_server(ServerMessage::Full(id(u64::MAX, 0), vec![1, 2, 3]));
    roundtrip_server(ServerMessage::Empty);
    roundtrip_server(ServerMessage::NoSuchEntity);
}

#[test]
fn decode_with_trailing_bytes_consumes_one_message() {
    let m = ClientMessage::Enqueue(b"foo".to_vec(), vec![9; 10]);
    let mut bytes = m.encode().unwrap();
    let len = bytes.len();
    bytes.extend_from_slice(&[0xaa, 0xbb, 0xcc]);
    let (back, n) = ClientMessage::decode(&bytes).unwrap();
    assert_eq!(back, m);
    assert_eq!(n, len);
}

#[test]
fn decode_truncated_is_incomplete() {
    let m = ClientMessage::Enqueue(b"foo".to_vec(), vec![9; 50]);
    let bytes = m.encode().unwrap();
    for cut in 0..bytes.len() {
        assert_eq!(
            ClientMessage::decode(&bytes[..cut]).unwrap_err(),
            DecodingError::Incomplete
        );
    }
    let r = ServerMessage::encode(&ServerMessage::Read(id(1, 1), vec![4; 20])).unwrap();
    for cut in 0..r.len() {
        assert_eq!(
            ServerMessage::decode(&r[..cut]).unwrap_err(),
            DecodingError::Incomplete
        );
    }
}

#[test]
fn decode_bad_tag_is_invalid() {
    assert_eq!(
        ClientMessage::decode(&[5, 0, 0, 0, 0]).unwrap_err(),
        DecodingError::Invalid
    );
    assert_eq!(
        ServerMessage::decode(&[9, 1, 2, 3]).unwrap_err(),
        DecodingError::Invalid
    );
}

#[test]
fn encode_over_limit_is_refused() {
    let m = ClientMessage::Enqueue(b"foo".to_vec(), vec![0; 3000]);
    assert_eq!(m.encode().unwrap_err(), EncodingError::SizeLimit);
    let r = ServerMessage::Full(id(0, 0), vec![0; 4000]);
    assert_eq!(r.encode().unwrap_err(), EncodingError::SizeLimit);

    // Just under the bound still encodes: tag + two length prefixes +
    // name + payload must stay within 2048 bytes.
    let fitting = ClientMessage::Enqueue(b"foo".to_vec(), vec![0; 2036]);
    assert_eq!(fitting.encode().unwrap().len(), 2048);
}

#[test]
fn encode_to_appends() {
    let mut out = vec![0xee];
    let m = ClientMessage::Read(b"foo".to_vec(), 77);
    m.encode_to(&mut out).unwrap();
    assert_eq!(out[0], 0xee);
    let (back, n) = ClientMessage::decode(&out[1..]).unwrap();
    assert_eq!(back, m);
    assert_eq!(n, out.len() - 1);
}
