use bytes::BytesMut;
use rtcp::protocol::CodecError;
use rtcp::protocol::RTCPMessage;
use rtcp::protocol::RTCPType;
use rtcp::stream::read_frames;

fn sample() -> Vec<RTCPMessage> {
    vec![
        RTCPMessage::new(RTCPType::Initialize(3361)),
        RTCPMessage::new(RTCPType::Heartbeat),
        RTCPMessage::with_uuid(RTCPType::NewConnection, 0x550e8400_e29b_41d4_a716_446655440000),
        RTCPMessage::new(RTCPType::CloseConnection),
        RTCPMessage::new(RTCPType::Heartbeat),
    ]
}

fn stream_of(messages: &[RTCPMessage]) -> Vec<u8> {
    let mut out = Vec::new();
    for m in messages {
        out.extend_from_slice(&m.serialize());
    }
    out
}

#[test]
fn several_frames_from_one_read() {
    let messages = sample();
    let mut buf = BytesMut::from(&stream_of(&messages)[..]);
    let batch = read_frames(&mut buf);
    assert_eq!(batch.stop, CodecError::NeedMore);
    assert!(buf.is_empty());
    assert_eq!(batch.messages.len(), 5);
    for (got, sent) in batch.messages.iter().zip(messages.iter()) {
        assert_eq!(got.message_type, sent.message_type);
        assert_eq!(got.connect_id, sent.connect_id);
    }
}

#[test]
fn every_split_of_a_stream_yields_all_messages_in_order() {
    let messages = sample();
    let stream = stream_of(&messages);
    for k in 0..=stream.len() {
        let mut buf = BytesMut::from(&stream[..k]);
        let first = read_frames(&mut buf);
        assert_eq!(first.stop, CodecError::NeedMore, "split at {}", k);
        buf.extend_from_slice(&stream[k..]);
        let second = read_frames(&mut buf);
        assert_eq!(second.stop, CodecError::NeedMore, "split at {}", k);
        assert!(buf.is_empty());
        let all: Vec<&RTCPMessage> = first.messages.iter().chain(second.messages.iter()).collect();
        assert_eq!(all.len(), messages.len(), "split at {}", k);
        for (got, sent) in all.iter().zip(messages.iter()) {
            assert_eq!(got.message_type, sent.message_type);
            assert_eq!(got.connect_id, sent.connect_id);
        }
    }
}

#[test]
fn a_partial_frame_stays_in_the_buffer() {
    let mut buf = BytesMut::from(&b"heartbeat \r\ninitialize:33"[..]);
    let batch = read_frames(&mut buf);
    assert_eq!(batch.messages.len(), 1);
    assert_eq!(batch.messages[0].message_type, RTCPType::Heartbeat);
    assert_eq!(batch.stop, CodecError::NeedMore);
    assert_eq!(&buf[..], b"initialize:33");
    buf.extend_from_slice(b"61 \r\n");
    let batch = read_frames(&mut buf);
    assert_eq!(batch.messages.len(), 1);
    assert_eq!(batch.messages[0].message_type, RTCPType::Initialize(3361));
    assert!(buf.is_empty());
}

#[test]
fn reading_stops_at_what_is_no_message() {
    let mut buf = BytesMut::from(&b"heartbeat \r\nbogus \r\nheartbeat \r\n"[..]);
    let batch = read_frames(&mut buf);
    assert_eq!(batch.messages.len(), 1);
    assert_eq!(batch.stop, CodecError::Invalid);
    assert_eq!(&buf[..], b"bogus \r\nheartbeat \r\n");
}

#[test]
fn an_empty_buffer_yields_nothing() {
    let mut buf = BytesMut::new();
    let batch = read_frames(&mut buf);
    assert!(batch.messages.is_empty());
    assert_eq!(batch.stop, CodecError::NeedMore);
    assert!(buf.is_empty());
}

#[test]
fn reads_of_any_size_yield_all_messages_in_order() {
    let messages = sample();
    let stream = stream_of(&messages);
    for size in [1usize, 2, 3, 5, 7, 11, 16, 40, 1000] {
        let mut buf = BytesMut::new();
        let mut got: Vec<RTCPMessage> = Vec::new();
        for chunk in stream.chunks(size) {
            buf.extend_from_slice(chunk);
            let batch = read_frames(&mut buf);
            assert_eq!(batch.stop, CodecError::NeedMore, "reads of {}", size);
            got.extend(batch.messages);
        }
        assert!(buf.is_empty());
        assert_eq!(got.len(), messages.len(), "reads of {}", size);
        for (read, sent) in got.iter().zip(messages.iter()) {
            assert_eq!(read.message_type, sent.message_type);
            assert_eq!(read.connect_id, sent.connect_id);
        }
    }
}
