use rabbit_net::packet::{
    into_chunks, Error, Flags, Header, Sequence, SequenceBuilder, MAX_CHUNK_SIZE, MAX_PAYLOAD_SIZE,
};

fn chunked_payload(len: usize) -> Vec<u8> {
    (0..len).map(|i| (i * 7 % 251) as u8).collect()
}

#[test]
fn header_serializes_flags_chunk_and_big_endian_sequence() {
    let mut header = Header::new(0x1234, 7);
    header.flags.insert(Flags::last_chunk_flag());
    assert_eq!(header.serialize(), [4, 7, 0x12, 0x34]);

    let ack = Header::ack(0xbeef, 3);
    assert_eq!(ack.serialize(), [6, 3, 0xbe, 0xef]);
    assert!(ack.is_ack());
    assert!(!ack.needs_ack());
}

#[test]
fn header_round_trips_through_bytes() {
    let mut header = Header::new(65535, 254);
    header.flags.insert(Flags::needs_ack_flag());
    let back = Header::deserialize(header.serialize());
    assert_eq!(back.seq, 65535);
    assert_eq!(back.chunk, 254);
    assert!(back.flags == header.flags);
}

#[test]
fn deserialize_drops_unknown_flag_bits() {
    let header = Header::deserialize([0xff, 1, 0, 2]);
    assert!(header.flags.needs_ack && header.flags.ack && header.flags.last_chunk);
    assert_eq!(header.flags.bits(), 7);
    assert_eq!(header.seq, 2);
}

#[test]
fn extract_needs_four_bytes() {
    assert!(matches!(Header::extract(&[1, 2, 3]), Err(Error::MissingHeader)));
    let (header, rest) = Header::extract(&[1, 9, 0, 5, 42, 43]).unwrap();
    assert!(header.needs_ack());
    assert_eq!(header.chunk, 9);
    assert_eq!(header.seq, 5);
    assert_eq!(rest, &[42, 43]);
}

#[test]
fn into_chunks_splits_in_full_chunks_and_flags_the_last() {
    let data = chunked_payload(2 * MAX_CHUNK_SIZE + 10);
    let chunks = into_chunks(9, &data).unwrap();
    assert_eq!(chunks.len(), 3);
    for (i, (header, body)) in chunks.iter().enumerate() {
        assert_eq!(header.seq, 9);
        assert_eq!(header.chunk as usize, i);
        assert_eq!(header.flags.last_chunk, i == 2);
        assert!(!header.flags.needs_ack && !header.flags.ack);
        let start = i * MAX_CHUNK_SIZE;
        let end = std::cmp::min(start + MAX_CHUNK_SIZE, data.len());
        assert_eq!(*body, &data[start..end]);
    }
}

#[test]
fn into_chunks_of_exact_multiple_and_empty() {
    let data = chunked_payload(MAX_CHUNK_SIZE);
    let chunks = into_chunks(1, &data).unwrap();
    assert_eq!(chunks.len(), 1);
    assert!(chunks[0].0.flags.last_chunk);
    assert_eq!(chunks[0].1.len(), MAX_CHUNK_SIZE);

    assert!(into_chunks(1, &[]).unwrap().is_empty());
}

#[test]
fn into_chunks_refuses_oversized_payloads() {
    let data = chunked_payload(MAX_PAYLOAD_SIZE);
    assert_eq!(into_chunks(0, &data).unwrap().len(), 255);
    let data = chunked_payload(MAX_PAYLOAD_SIZE + 1);
    assert!(matches!(into_chunks(0, &data), Err(Error::PayloadLimitExceeded)));
}

#[test]
fn sequence_reassembles_out_of_order() {
    let data = chunked_payload(3 * MAX_CHUNK_SIZE + 1);
    let chunks = into_chunks(4, &data).unwrap();
    let mut sequence = Sequence::new();
    for &i in &[3usize, 1, 0] {
        let (header, body) = chunks[i];
        sequence.insert_chunk(header, body).unwrap();
        assert!(!sequence.is_complete());
    }
    assert!(sequence.has_received(0) && sequence.has_received(3) && !sequence.has_received(2));
    let (header, body) = chunks[2];
    sequence.insert_chunk(header, body).unwrap();
    assert!(sequence.is_complete());
    assert_eq!(sequence.payload(), data);
}

#[test]
fn sequence_refuses_bad_chunk_sizes() {
    let mut sequence = Sequence::new();
    let too_long = vec![0u8; MAX_CHUNK_SIZE + 1];
    assert!(matches!(
        sequence.insert_chunk(Header::new(0, 0), &too_long),
        Err(Error::ChunkSizeExceeded { actual }) if actual == MAX_CHUNK_SIZE + 1
    ));
    assert!(matches!(
        sequence.insert_chunk(Header::new(0, 0), &[1, 2, 3]),
        Err(Error::ChunkNotFull { actual: 3 })
    ));
    assert!(!sequence.has_received(0));
    let mut last = Header::new(0, 0);
    last.flags.insert(Flags::last_chunk_flag());
    sequence.insert_chunk(last, &[1, 2, 3]).unwrap();
    assert!(sequence.is_complete());
    assert_eq!(sequence.payload(), vec![1, 2, 3]);
}

#[test]
fn builder_returns_payload_once_complete() {
    let data = chunked_payload(MAX_CHUNK_SIZE + 5);
    let chunks = into_chunks(77, &data).unwrap();
    let mut builder = SequenceBuilder::new();
    let (h1, b1) = chunks[1];
    assert!(builder.try_reconstruct_payload(h1, b1).unwrap().is_none());
    let (h0, b0) = chunks[0];
    assert_eq!(builder.try_reconstruct_payload(h0, b0).unwrap(), Some(data));
}

#[test]
fn builder_keeps_sequences_apart() {
    let a = chunked_payload(MAX_CHUNK_SIZE + 1);
    let b: Vec<u8> = chunked_payload(MAX_CHUNK_SIZE + 2).iter().map(|x| x ^ 0xff).collect();
    let ca = into_chunks(1, &a).unwrap();
    let cb = into_chunks(2, &b).unwrap();
    let mut builder = SequenceBuilder::default();
    assert!(builder.try_reconstruct_payload(ca[0].0, ca[0].1).unwrap().is_none());
    assert!(builder.try_reconstruct_payload(cb[1].0, cb[1].1).unwrap().is_none());
    assert_eq!(builder.try_reconstruct_payload(cb[0].0, cb[0].1).unwrap(), Some(b));
    assert_eq!(builder.try_reconstruct_payload(ca[1].0, ca[1].1).unwrap(), Some(a));
}

#[test]
fn builder_reports_bad_chunks() {
    let mut builder = SequenceBuilder::new();
    assert!(matches!(
        builder.try_reconstruct_payload(Header::new(3, 0), &[0; 10]),
        Err(Error::ChunkNotFull { actual: 10 })
    ));
}

#[test]
fn flags_bits_and_contains() {
    let f = Flags::needs_ack_flag().union(Flags::last_chunk_flag());
    assert_eq!(f.bits(), 5);
    assert!(f.contains(Flags::needs_ack_flag()));
    assert!(!f.contains(Flags::ack_flag()));
    assert!(f == Flags::from_bits_truncate(0b1101));
    assert_eq!(Flags::empty().bits(), 0);
}
