use singularity_net::net::http::compression::CompressionAlgorithm;
use singularity_net::net::http::http3::stream::{
    decode_secure_stream, deserialize_stream, encode_secure_stream, encode_secure_stream_auto,
    serialize_stream, Stream, StreamError, StreamState, StreamType,
};

const NONCE: [u8; 24] = [7; 24];

/// A codec that swaps the ends; it stands in for a compressor.
fn swapped(data: &[u8]) -> Vec<u8> {
    data.iter().rev().copied().collect()
}

#[test]
fn test_stream_type_from_id() {
    assert_eq!(StreamType::from_id(0), StreamType::ClientBidirectional);
    assert_eq!(StreamType::from_id(1), StreamType::ServerBidirectional);
    assert_eq!(StreamType::from_id(2), StreamType::ClientUnidirectional);
    assert_eq!(StreamType::from_id(3), StreamType::ServerUnidirectional);
    assert_eq!(StreamType::from_id(4), StreamType::ClientBidirectional);
}

#[test]
fn test_stream_type_properties() {
    assert!(StreamType::ClientBidirectional.is_bidirectional());
    assert!(StreamType::ClientBidirectional.is_client_initiated());
    assert!(!StreamType::ClientBidirectional.is_unidirectional());

    assert!(StreamType::ServerUnidirectional.is_unidirectional());
    assert!(StreamType::ServerUnidirectional.is_server_initiated());
    assert!(!StreamType::ServerUnidirectional.is_bidirectional());
}

#[test]
fn test_stream_write_read() {
    let mut stream = Stream::new(0, 1000, 1000);

    let data = b"hello world";
    let written = stream.write(data).unwrap();
    assert_eq!(written, data.len());

    let frame = stream.generate_frame(1000).unwrap().unwrap();
    assert_eq!(frame.stream_id, 0);
    assert_eq!(frame.offset, 0);
    assert_eq!(frame.data, data);
    assert!(!frame.fin);
    stream.process_frame(frame.offset, frame.data, frame.fin).unwrap();

    let mut buf = vec![0u8; 100];
    let read = stream.read(&mut buf).unwrap();
    assert_eq!(read, data.len());
    assert_eq!(&buf[..read], data);
}

#[test]
fn test_stream_fin() {
    let mut stream = Stream::new(0, 1000, 1000);

    stream.write_fin(b"data").unwrap();
    assert!(stream.fin_queued());

    let frame = stream.generate_frame(1000).unwrap().unwrap();
    assert!(frame.fin);
    assert!(stream.fin_sent());

    assert_eq!(stream.state(), StreamState::SendClosed);
}

#[test]
fn test_stream_flow_control() {
    let mut stream = Stream::new(0, 100, 100);

    let data = vec![0u8; 200];
    let result = stream.write(&data);
    assert!(result.is_ok());
    assert_eq!(result.unwrap(), 100);
}

#[test]
fn test_stream_out_of_order() {
    let mut stream = Stream::new(0, 1000, 1000);

    stream.process_frame(10, vec![3, 4, 5], false).unwrap();
    assert_eq!(stream.readable(), 0);

    stream.process_frame(0, vec![0, 1, 2], false).unwrap();
    assert_eq!(stream.readable(), 3);

    stream.process_frame(3, vec![6, 7, 8, 9], false).unwrap();
    assert_eq!(stream.readable(), 7);
}

#[test]
fn test_stream_reset() {
    let mut stream = Stream::new(0, 1000, 1000);

    stream.write(b"data").unwrap();
    stream.reset(42).unwrap();

    assert_eq!(stream.state(), StreamState::ResetSent);
    assert_eq!(stream.error_code(), Some(42));
    assert_eq!(stream.unsent(), 0);
}

#[test]
fn test_stream_state_transitions() {
    let mut stream = Stream::new(0, 1000, 1000);
    assert_eq!(stream.state(), StreamState::Open);

    stream.close_send().unwrap();
    stream.generate_frame(1000).unwrap();
    assert_eq!(stream.state(), StreamState::SendClosed);

    stream.process_frame(0, vec![], true).unwrap();
    assert_eq!(stream.state(), StreamState::Closed);
}

#[test]
fn test_stream_priority() {
    let mut stream = Stream::new(0, 1000, 1000);
    assert_eq!(stream.priority(), 128);

    stream.set_priority(200);
    assert_eq!(stream.priority(), 200);
}

#[test]
fn test_secure_stream_roundtrip_identity() {
    let mut stream = Stream::new(0, 2048, 2048);
    stream.write(b"abcdef").unwrap();
    stream.generate_frame(3).unwrap();
    stream.process_frame(10, vec![1, 2, 3], false).unwrap();
    stream.set_priority(220);

    let raw = serialize_stream(&stream);
    let (meta, blob) =
        encode_secure_stream(&stream, CompressionAlgorithm::Identity, None, &NONCE, 1).unwrap();
    assert_eq!(meta.algorithm, CompressionAlgorithm::Identity);

    let (_decoded_meta, decoded) = decode_secure_stream(&blob, None).unwrap();
    let decoded_raw = serialize_stream(&decoded);
    assert_eq!(raw, decoded_raw);
}

#[test]
fn test_secure_stream_roundtrip_compressed() {
    let mut stream = Stream::new(4, 4096, 4096);
    stream.write_fin(b"stream-payload").unwrap();
    stream.generate_frame(1024).unwrap().unwrap();
    stream.process_frame(0, b"rx-data".to_vec(), false).unwrap();
    stream.process_frame(7, b"-more".to_vec(), true).unwrap();

    let raw = serialize_stream(&stream);
    let coded = swapped(&raw);
    let (_meta, blob) =
        encode_secure_stream(&stream, CompressionAlgorithm::Gzip, Some(&coded), &NONCE, 1).unwrap();
    let (_decoded_meta, decoded) = decode_secure_stream(&blob, Some(&swapped(&coded))).unwrap();
    let decoded_raw = serialize_stream(&decoded);

    assert_eq!(raw, decoded_raw);
}

#[test]
fn test_secure_stream_tamper_detection() {
    let mut stream = Stream::new(0, 1024, 1024);
    stream.write(b"tamper-me").unwrap();

    let (_meta, blob) =
        encode_secure_stream(&stream, CompressionAlgorithm::Identity, None, &NONCE, 1).unwrap();
    let mut tampered = blob.clone();
    if let Some(last) = tampered.last_mut() {
        *last ^= 0x5A;
    }

    assert!(decode_secure_stream(&tampered, None).is_err());
}

#[test]
fn serialized_stream_is_readable_text() {
    let mut stream = Stream::new(5, 10, 20);
    stream.write(b"ab").unwrap();
    let text = String::from_utf8(serialize_stream(&stream)).unwrap();
    assert_eq!(
        text,
        "id=5\nstream-type=ServerBidirectional\nstate=Open\nsend-offset=0\nsend-max-offset=10\n\
         send-final-offset=-\nreceive-offset=0\nreceive-max-offset=20\nreceive-final-offset=-\n\
         fin-queued=false\nfin-sent=false\nfin-received=false\npriority=128\nerror-code=-\n\
         send-buffer=YWI=\nreceive-buffer=\nreceive-chunks-count=0\n"
    );
}

#[test]
fn stream_record_with_wrong_type_is_refused() {
    let stream = Stream::new(5, 10, 20);
    let text = String::from_utf8(serialize_stream(&stream)).unwrap();
    let wrong = text.replace("ServerBidirectional", "ClientBidirectional");
    assert!(deserialize_stream(wrong.as_bytes()).is_none());
    let missing = text.replace("priority=128\n", "");
    assert!(deserialize_stream(missing.as_bytes()).is_none());
    let malformed = text.replace("priority=128", "priority 128");
    assert!(deserialize_stream(malformed.as_bytes()).is_none());
}

#[test]
fn frame_beyond_the_window_is_refused() {
    let mut stream = Stream::new(0, 10, 4);
    assert!(matches!(
        stream.process_frame(2, vec![1, 2, 3], false),
        Err(StreamError::ReceiveWindowExceeded)
    ));
    assert_eq!(stream.readable(), 0);
}

#[test]
fn final_offset_does_not_move() {
    let mut stream = Stream::new(0, 10, 100);
    stream.process_frame(5, vec![1, 2], true).unwrap();
    assert!(matches!(
        stream.process_frame(0, vec![1], true),
        Err(StreamError::FinOffsetMismatch)
    ));
    assert!(matches!(
        stream.process_frame(7, vec![1], false),
        Err(StreamError::DataExceedsFinalOffset)
    ));
}

#[test]
fn frames_follow_each_other() {
    let mut stream = Stream::new(0, 100, 100);
    stream.write(b"abcdefg").unwrap();
    let a = stream.generate_frame(3).unwrap().unwrap();
    let b = stream.generate_frame(3).unwrap().unwrap();
    let c = stream.generate_frame(3).unwrap().unwrap();
    assert_eq!((a.offset, a.data.as_slice()), (0, &b"abc"[..]));
    assert_eq!((b.offset, b.data.as_slice()), (3, &b"def"[..]));
    assert_eq!((c.offset, c.data.as_slice()), (6, &b"g"[..]));
}

#[test]
fn stream_blob_coding_follows_the_peer() {
    let stream = Stream::new(0, 1, 1);
    let coded = swapped(&serialize_stream(&stream));
    let (meta, _) =
        encode_secure_stream_auto(&stream, "gzip;q=0.5, br", Some(&coded), &NONCE, 1).unwrap();
    assert_eq!(meta.algorithm, CompressionAlgorithm::Brotli);
}

#[test]
fn a_reset_of_the_peer_ends_the_stream() {
    let mut stream = Stream::new(0, 100, 100);
    assert!(stream.handle_reset(9).is_ok());
    assert_eq!(stream.error_code(), Some(9));
    assert!(!stream.state().can_receive());
}

#[test]
fn a_peer_that_stops_reading_ends_the_sending() {
    let mut stream = Stream::new(0, 100, 100);
    assert!(stream.handle_stop_sending(4).is_ok());
    assert_eq!(stream.error_code(), Some(4));
    assert!(!stream.state().can_send());
}

#[test]
fn a_window_to_send_only_grows() {
    let mut stream = Stream::new(0, 10, 10);
    assert_eq!(stream.writable(), 10);
    assert!(stream.update_send_max_offset(25).is_ok());
    assert_eq!(stream.send_max_offset(), 25);
    assert_eq!(stream.writable(), 25);
    stream.update_receive_max_offset(30);
    assert_eq!(stream.receive_max_offset(), 30);
    assert!(stream.update_send_max_offset(24).is_err());
    assert_eq!(stream.send_max_offset(), 25);
    assert!(stream.is_healthy());
    assert!(!stream.is_finished());
}

#[test]
fn frames_put_together_are_what_was_written() {
    let mut s = Stream::new(4, 20, 20);
    let mut sent: Vec<u8> = Vec::new();
    let mut fins: Vec<bool> = Vec::new();
    assert_eq!(s.write(b"hello "), Ok(6));
    for max in [4, 0, 1] {
        if let Some(f) = s.generate_frame(max).unwrap() {
            assert_eq!(f.stream_id, 4);
            assert_eq!(f.offset, sent.len() as u64);
            assert!(f.data.len() <= max);
            sent.extend_from_slice(&f.data);
            fins.push(f.fin);
        }
    }
    assert_eq!(s.write_fin(b"world, and more than fits"), Ok(14));
    for max in [5, 3, 100, 100] {
        if let Some(f) = s.generate_frame(max).unwrap() {
            assert_eq!(f.offset, sent.len() as u64);
            sent.extend_from_slice(&f.data);
            fins.push(f.fin);
        }
    }
    assert_eq!(sent, b"hello world, and mor");
    assert_eq!(s.send_offset(), 20);
    assert_eq!(fins.iter().filter(|f| **f).count(), 1);
    assert_eq!(fins.last(), Some(&true));
    assert!(s.generate_frame(10).unwrap().is_none());
}

#[test]
fn pieces_in_any_order_make_the_message() {
    let msg = b"abcdefghij";
    let pieces: [(usize, usize); 4] = [(0, 2), (2, 3), (3, 7), (7, 10)];
    for first in 0..4 {
        for second in 0..4 {
            for third in 0..4 {
                let mut order = vec![first, second, third];
                order.sort();
                order.dedup();
                if order.len() < 3 {
                    continue;
                }
                let last = 6 - first - second - third;
                let mut s = Stream::new(0, 10, 10);
                let mut here = [false; 10];
                for p in [first, second, third, last] {
                    let (a, b) = pieces[p];
                    s.process_frame(a as u64, msg[a..b].to_vec(), false).unwrap();
                    for i in a..b {
                        here[i] = true;
                    }
                    let covered = here.iter().take_while(|h| **h).count();
                    assert_eq!(s.receive_offset(), covered as u64);
                    assert_eq!(s.readable(), covered);
                }
                let mut buffer = [0u8; 10];
                assert_eq!(s.read(&mut buffer), Ok(10));
                assert_eq!(&buffer, msg);
            }
        }
    }
}

#[test]
fn types_and_states_have_words() {
    assert_eq!(StreamType::from_id(0).to_string(), "ClientBidi");
    assert_eq!(StreamType::from_id(3).to_string(), "ServerUni");
    assert_eq!(StreamState::ResetSent.to_string(), "ResetSent");
}
