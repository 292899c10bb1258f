use rabbit_net::connection::{
    ack_for, frame_payload, valid_response, Challenge, ChallengeResponse, Delivery, Error, Init,
    OutgoingPayload, SequenceBuilder,
};
use rabbit_net::packet::{into_chunks, Header, MAX_CHUNK_SIZE, MAX_PAYLOAD_SIZE};
use rabbit_net::raw_packet::{read_u32, write_u32, FromRawPacket, IntoRawPacket};

fn sample_payload(len: usize) -> Vec<u8> {
    (0..len).map(|i| (i * 13 % 256) as u8).collect()
}

#[test]
fn u32_is_written_big_endian_and_read_back() {
    let mut bytes = vec![9];
    write_u32(&mut bytes, 0x0102_0304);
    assert_eq!(bytes, vec![9, 1, 2, 3, 4]);
    let (value, rest) = read_u32(&bytes[1..]).unwrap();
    assert_eq!(value, 0x0102_0304);
    assert!(rest.is_empty());
    let (value, rest) = read_u32(&[0xff, 0xff, 0xff, 0xfe, 7]).unwrap();
    assert_eq!(value, 0xffff_fffe);
    assert_eq!(rest, &[7]);
    assert!(read_u32(&[1, 2, 3]).is_err());
}

#[test]
fn handshake_messages_round_trip() {
    let init = Init { salt: 0xdead_beef };
    let bytes = init.serialize();
    assert_eq!(bytes, vec![0xde, 0xad, 0xbe, 0xef]);
    assert_eq!(Init::deserialize(&bytes).unwrap().salt, 0xdead_beef);

    let challenge = Challenge { pepper: 17 };
    assert_eq!(Challenge::deserialize(&challenge.serialize()).unwrap().pepper, 17);

    let response = ChallengeResponse { seasoning: 99 };
    assert_eq!(ChallengeResponse::deserialize(&response.serialize()).unwrap().seasoning, 99);

    assert!(Init::deserialize(&[1, 2]).is_err());
}

#[test]
fn honest_response_is_accepted() {
    let init = Init { salt: 0b1100 };
    let challenge = Challenge { pepper: 0b1010 };
    let response = ChallengeResponse::new(init, challenge);
    assert_eq!(response.seasoning, 0b0110);
    assert!(valid_response(init, challenge, response));
    assert!(!valid_response(init, challenge, ChallengeResponse { seasoning: 0b0111 }));
}

#[test]
fn random_handshake_completes() {
    let init = Init::new();
    let challenge = Challenge::new();
    assert!(valid_response(init, challenge, ChallengeResponse::new(init, challenge)));
}

#[test]
fn frames_carry_header_and_chunk() {
    let data = sample_payload(MAX_CHUNK_SIZE + 3);
    let out = OutgoingPayload::new(data.clone(), Delivery::Reliable);
    assert!(out.needs_ack);
    let frames = frame_payload(300, &out).unwrap();
    assert_eq!(frames.len(), 2);
    assert_eq!(&frames[0][..4], &[1, 0, 1, 44]);
    assert_eq!(&frames[0][4..], &data[..MAX_CHUNK_SIZE]);
    assert_eq!(&frames[1][..4], &[5, 1, 1, 44]);
    assert_eq!(&frames[1][4..], &data[MAX_CHUNK_SIZE..]);

    let best = OutgoingPayload::new(vec![1, 2], Delivery::BestEffort);
    let frames = frame_payload(1, &best).unwrap();
    assert_eq!(frames, vec![vec![4, 0, 0, 1, 1, 2]]);
}

#[test]
fn frame_payload_refuses_oversized_payloads() {
    let out = OutgoingPayload::new(sample_payload(MAX_PAYLOAD_SIZE + 1), Delivery::BestEffort);
    assert!(matches!(frame_payload(0, &out), Err(Error::SplitPayload(_))));
}

#[test]
fn acknowledgements_answer_packets_that_ask() {
    let mut header = Header::new(12, 3);
    assert!(ack_for(header).is_none());
    header.flags.needs_ack = true;
    let ack = ack_for(header).unwrap();
    assert!(ack.is_ack() && ack.flags.last_chunk && !ack.needs_ack());
    assert_eq!((ack.seq, ack.chunk), (12, 3));
}

#[test]
fn window_delivers_each_payload_once() {
    let data = sample_payload(2 * MAX_CHUNK_SIZE);
    let chunks = into_chunks(5, &data).unwrap();
    let mut window = SequenceBuilder::new();
    assert!(window.insert(chunks[1].0, chunks[1].1).unwrap().is_none());
    let delivered = window.insert(chunks[0].0, chunks[0].1).unwrap().unwrap();
    assert_eq!(delivered.bytes, data);
    // A late duplicate of an already delivered sequence is ignored.
    assert!(window.insert(chunks[0].0, chunks[0].1).unwrap().is_none());
    assert!(window.insert(chunks[1].0, chunks[1].1).unwrap().is_none());
}

#[test]
fn window_moves_and_reuses_slots() {
    let mut window = SequenceBuilder::new();
    let mut last = Header::new(3, 0);
    last.flags.last_chunk = true;
    assert_eq!(window.insert(last, &[1]).unwrap().unwrap().bytes, vec![1]);
    assert!(window.insert(last, &[1]).unwrap().is_none());
    // Sequence 3 + 1024 shares the slot of 3; the window moves past 3 and the slot is reused.
    let mut far = Header::new(3 + 1024, 0);
    far.flags.last_chunk = true;
    assert_eq!(window.insert(far, &[2]).unwrap().unwrap().bytes, vec![2]);
    // Wrapping around u16 works the same way.
    let mut wrapped = Header::new(2, 0);
    wrapped.flags.last_chunk = true;
    assert_eq!(window.insert(wrapped, &[3]).unwrap().unwrap().bytes, vec![3]);
}

#[test]
fn window_reports_bad_chunks() {
    let mut window = SequenceBuilder::new();
    assert!(matches!(
        window.insert(Header::new(0, 0), &[1, 2]),
        Err(Error::ReconstructPayload(_))
    ));
}

#[test]
fn frames_reassemble_through_extract_in_any_order() {
    let data = sample_payload(3 * MAX_CHUNK_SIZE + 17);
    let out = OutgoingPayload::new(data.clone(), Delivery::Reliable);
    let frames = frame_payload(4242, &out).unwrap();
    let mut window = SequenceBuilder::new();
    let mut delivered = Vec::new();
    for &i in &[2usize, 0, 3, 0, 1, 2] {
        let (header, body) = Header::extract(&frames[i]).unwrap();
        assert_eq!((header.seq, header.chunk as usize), (4242, i));
        assert!(header.needs_ack());
        assert!(ack_for(header).is_some());
        if let Some(p) = window.insert(header, body).unwrap() {
            delivered.push(p.bytes);
        }
    }
    assert_eq!(delivered, vec![data]);
}
