use ws_chat::frame::{
    encode_masked_text_frame, encode_text_frame, EncodeError, FrameDecoder, FrameError,
    PartialWebsocketMessage, PollOutcome,
};

fn expect_message(outcome: PollOutcome) -> String {
    match outcome {
        PollOutcome::Message(text) => text,
        PollOutcome::NeedMoreData => panic!("decoder wanted more data"),
        PollOutcome::PeerClosed => panic!("decoder saw a close frame"),
        PollOutcome::Rejected(e) => panic!("decoder rejected the frame: {:?}", e),
    }
}

fn masked_frame(payload: &[u8], key: [u8; 4]) -> Vec<u8> {
    let mut frame = vec![0x81u8, 0x80 | (payload.len() as u8)];
    frame.extend_from_slice(&key);
    for (i, b) in payload.iter().enumerate() {
        frame.push(b ^ key[i % 4]);
    }
    frame
}

#[test]
fn outbound_frame_has_minimal_encoding() {
    let frame = encode_text_frame("Hello").unwrap();
    assert_eq!(frame, vec![0x81u8, 5, b'H', b'e', b'l', b'l', b'o']);
}

#[test]
fn outbound_frame_accepts_125_bytes() {
    let msg = "a".repeat(125);
    let frame = encode_text_frame(&msg).unwrap();
    assert_eq!(frame.len(), 127);
    assert_eq!(frame[1], 125);
}

#[test]
fn outbound_frame_rejects_126_bytes() {
    let msg = "a".repeat(126);
    assert_eq!(encode_text_frame(&msg), Err(EncodeError::MessageTooLong));
}

#[test]
fn masked_encoder_produces_exact_bytes() {
    let frame = encode_masked_text_frame("ab", &[1, 2, 3, 4]);
    assert_eq!(frame, vec![0x81u8, 0x82, 1, 2, 3, 4, b'a' ^ 1, b'b' ^ 2]);
}

#[test]
fn encode_then_decode_round_trips() {
    let message = "hello, wire";
    let frame = encode_masked_text_frame(message, &[0x37, 0xfa, 0x21, 0x3d]);
    let mut decoder = FrameDecoder::new();
    decoder.feed(&frame);
    assert_eq!(expect_message(decoder.poll_message()), message);
}

#[test]
fn round_trip_is_utf8_aware() {
    let message = "메시지 ✓";
    let frame = encode_masked_text_frame(message, &[9, 8, 7, 6]);
    let mut decoder = FrameDecoder::new();
    decoder.feed(&frame);
    assert_eq!(expect_message(decoder.poll_message()), message);
}

#[test]
fn chunking_does_not_change_the_message() {
    let message = "chunked delivery";
    let frame = encode_masked_text_frame(message, &[5, 6, 7, 8]);

    let mut whole = FrameDecoder::new();
    whole.feed(&frame);
    let from_whole = expect_message(whole.poll_message());

    let mut byte_by_byte = FrameDecoder::new();
    for b in &frame {
        byte_by_byte.feed(&[*b]);
    }
    let from_bytes = expect_message(byte_by_byte.poll_message());

    assert_eq!(from_whole, message);
    assert_eq!(from_bytes, message);
}

#[test]
fn decoder_resumes_across_partial_reads() {
    let message = "resumable";
    let frame = encode_masked_text_frame(message, &[1, 1, 2, 2]);
    let mut decoder = FrameDecoder::new();
    for b in &frame {
        assert!(matches!(decoder.poll_message(), PollOutcome::NeedMoreData));
        decoder.feed(&[*b]);
    }
    assert_eq!(expect_message(decoder.poll_message()), message);
}

#[test]
fn fin_clear_is_rejected_as_fragmented() {
    let mut frame = masked_frame(b"hi", [1, 2, 3, 4]);
    frame[0] = 0x01;
    let mut decoder = FrameDecoder::new();
    decoder.feed(&frame);
    assert!(matches!(
        decoder.poll_message(),
        PollOutcome::Rejected(FrameError::Fragmented)
    ));
}

#[test]
fn mask_clear_is_rejected_as_unmasked() {
    let frame = vec![0x81u8, 2, b'h', b'i'];
    let mut decoder = FrameDecoder::new();
    decoder.feed(&frame);
    assert!(matches!(
        decoder.poll_message(),
        PollOutcome::Rejected(FrameError::Unmasked)
    ));
}

#[test]
fn close_frame_signals_peer_disconnect() {
    let mut decoder = FrameDecoder::new();
    decoder.feed(&[0x88, 0x80]);
    assert!(matches!(decoder.poll_message(), PollOutcome::PeerClosed));
}

#[test]
fn unsupported_opcode_is_rejected() {
    let mut decoder = FrameDecoder::new();
    decoder.feed(&[0x82, 0x82, 1, 2, 3, 4, 0, 0]);
    assert!(matches!(
        decoder.poll_message(),
        PollOutcome::Rejected(FrameError::UnsupportedOpcode(2))
    ));
}

#[test]
fn invalid_utf8_payload_is_rejected() {
    let frame = masked_frame(&[0xff, 0xfe], [1, 2, 3, 4]);
    let mut decoder = FrameDecoder::new();
    decoder.feed(&frame);
    assert!(matches!(
        decoder.poll_message(),
        PollOutcome::Rejected(FrameError::InvalidUtf8)
    ));
}

#[test]
fn extended_16_bit_length_reads_exactly_n_bytes() {
    let message = "x".repeat(300);
    let frame = encode_masked_text_frame(&message, &[4, 3, 2, 1]);
    assert_eq!(frame[1], 0x80 | 126);
    assert_eq!(frame.len(), 8 + 300);

    // A following frame must stay untouched and decodable.
    let next = encode_masked_text_frame("after", &[1, 2, 3, 4]);
    let mut stream = frame.clone();
    stream.extend_from_slice(&next);

    let mut decoder = FrameDecoder::new();
    decoder.feed(&stream);
    assert_eq!(expect_message(decoder.poll_message()), message);
    assert_eq!(expect_message(decoder.poll_message()), "after");
}

#[test]
fn extended_64_bit_length_reads_exactly_n_bytes() {
    let message = "y".repeat(70_000);
    let frame = encode_masked_text_frame(&message, &[0x10, 0x20, 0x30, 0x40]);
    assert_eq!(frame[1], 0x80 | 127);
    assert_eq!(frame.len(), 14 + 70_000);

    let next = encode_masked_text_frame("tail", &[9, 9, 9, 9]);
    let mut stream = frame.clone();
    stream.extend_from_slice(&next);

    let mut decoder = FrameDecoder::new();
    decoder.feed(&stream);
    assert_eq!(expect_message(decoder.poll_message()), message);
    assert_eq!(expect_message(decoder.poll_message()), "tail");
}

#[test]
fn two_frames_in_one_read_decode_in_order() {
    let first = encode_masked_text_frame("one", &[1, 2, 3, 4]);
    let second = encode_masked_text_frame("two", &[5, 6, 7, 8]);
    let mut stream = first.clone();
    stream.extend_from_slice(&second);

    let mut decoder = FrameDecoder::new();
    decoder.feed(&stream);
    assert_eq!(expect_message(decoder.poll_message()), "one");
    assert_eq!(expect_message(decoder.poll_message()), "two");
    assert!(matches!(decoder.poll_message(), PollOutcome::NeedMoreData));
}

#[test]
fn partial_state_can_be_reset() {
    let mut partial = PartialWebsocketMessage::new();
    partial.clean_up();
}

#[test]
fn empty_message_round_trips() {
    let frame = encode_masked_text_frame("", &[1, 2, 3, 4]);
    assert_eq!(frame, vec![0x81u8, 0x80, 1, 2, 3, 4]);
    let mut decoder = FrameDecoder::new();
    decoder.feed(&frame);
    assert_eq!(expect_message(decoder.poll_message()), "");
}

#[test]
fn every_length_up_to_125_round_trips() {
    for len in 0..=125usize {
        let message: String = "z".repeat(len);
        let frame = encode_masked_text_frame(&message, &[0xaa, 0x55, 0x01, 0xfe]);
        let mut decoder = FrameDecoder::new();
        decoder.feed(&frame);
        assert_eq!(expect_message(decoder.poll_message()), message);
    }
}

#[test]
fn header_violations_are_rejected_from_the_first_two_bytes() {
    // Nothing beyond the two header bytes is needed to reject.
    let mut fragmented = FrameDecoder::new();
    fragmented.feed(&[0x01, 0x81]);
    assert!(matches!(
        fragmented.poll_message(),
        PollOutcome::Rejected(FrameError::Fragmented)
    ));

    let mut unmasked = FrameDecoder::new();
    unmasked.feed(&[0x81, 0x05]);
    assert!(matches!(
        unmasked.poll_message(),
        PollOutcome::Rejected(FrameError::Unmasked)
    ));
}
