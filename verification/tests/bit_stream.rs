use rabbit_net::packet::{into_chunks, Sequence, SequenceBuilder, MAX_CHUNK_COUNT, MAX_CHUNK_SIZE};
use rabbit_net::rabbit::{from_bytes, to_bytes, Error};
use rabbit_net::read::{BitReader, ReadBits};
use rabbit_net::write::{BitWriter, WriteBits};

const WRITES: [(u32, u8); 6] = [(5, 3), (0x1ff, 8), (0x1234_5678, 32), (7, 2), (1, 1), (0xabc, 40)];

fn masked(bits: u32, count: u8) -> (u32, u8) {
    let count = count.min(32);
    let mask = if count == 0 { 0 } else { u32::MAX >> (32 - count) };
    (bits & mask, count)
}

fn written_bytes() -> Vec<u8> {
    let mut writer = BitWriter::new();
    for &(bits, count) in WRITES.iter() {
        writer.write(bits, count).unwrap();
    }
    writer.finish()
}

#[test]
fn finished_bytes_hold_every_bit_in_write_order() {
    let bytes = written_bytes();
    let mut expected = Vec::new();
    for &(bits, count) in WRITES.iter() {
        let (value, count) = masked(bits, count);
        for i in 0..count {
            expected.push((value >> i) & 1);
        }
    }
    assert_eq!(expected.len(), 78);
    assert_eq!(bytes.len(), (expected.len() + 7) / 8);
    for j in 0..8 * bytes.len() {
        let bit = ((bytes[j / 8] >> (j % 8)) & 1) as u32;
        let want = if j < expected.len() { expected[j] } else { 0 };
        assert_eq!(bit, want, "bit {}", j);
    }
}

#[test]
fn reads_give_back_masked_writes_then_eof() {
    let bytes = written_bytes();
    let mut reader = BitReader::new(&bytes);
    for &(bits, count) in WRITES.iter() {
        let (value, count) = masked(bits, count);
        assert_eq!(reader.read(count).unwrap(), value);
    }
    // 80 bits were finished, 78 written: two zero bits of padding are left.
    assert!(matches!(reader.read(3), Err(Error::Eof)));
    assert_eq!(reader.read(2).unwrap(), 0);
    assert!(matches!(reader.read(1), Err(Error::Eof)));
    assert_eq!(reader.read(0).unwrap(), 0);
}

#[test]
fn from_bytes_reports_eof_when_bits_run_out() {
    assert!(matches!(from_bytes::<u8>(&[]), Err(Error::Eof)));
    // Ten bits are needed for a one-byte `u32`; eight are given.
    assert!(matches!(from_bytes::<u32>(&[0xa8]), Err(Error::Eof)));
    // A present `Option` whose byte is missing.
    assert!(matches!(from_bytes::<Option<u8>>(&[0x01]), Err(Error::Eof)));
    // A sequence of two bytes that holds only one.
    let two = to_bytes(&vec![3u8, 4]).unwrap();
    assert!(matches!(from_bytes::<Vec<u8>>(&two[..two.len() - 1]), Err(Error::Eof)));
    assert!(matches!(from_bytes::<(bool, u16)>(&[0x01]), Err(Error::Eof)));
}

#[test]
fn from_bytes_leaves_trailing_bytes_unread() {
    assert_eq!(from_bytes::<u8>(&[7, 9]).unwrap(), 7);
}

#[test]
fn from_bytes_reports_bad_text_with_a_message() {
    let bytes = to_bytes(&vec![0xffu8]).unwrap();
    assert!(matches!(from_bytes::<String>(&bytes), Err(Error::Message(_))));
    let good = to_bytes(&String::from("héllo")).unwrap();
    assert_eq!(from_bytes::<String>(&good).unwrap(), "héllo");
}

#[test]
fn builder_reassembles_chunks_in_any_order() {
    let data: Vec<u8> = (0..3 * MAX_CHUNK_SIZE + 9).map(|i| (i % 253) as u8).collect();
    let chunks = into_chunks(9, &data).unwrap();
    assert_eq!(chunks.len(), 4);
    let mut builder = SequenceBuilder::new();
    for &i in &[2usize, 0, 3] {
        let (header, body) = chunks[i];
        assert!(builder.try_reconstruct_payload(header, body).unwrap().is_none());
    }
    let (header, body) = chunks[1];
    assert_eq!(builder.try_reconstruct_payload(header, body).unwrap(), Some(data.clone()));
    // The sequence is gone: its first chunk again starts a new one.
    let (header, body) = chunks[0];
    assert!(builder.try_reconstruct_payload(header, body).unwrap().is_none());
}

#[test]
fn sequence_marks_only_the_inserted_chunk() {
    let data: Vec<u8> = vec![1; 7 * MAX_CHUNK_SIZE];
    let chunks = into_chunks(0, &data).unwrap();
    let mut sequence = Sequence::new();
    for x in 0..MAX_CHUNK_COUNT as u8 {
        assert!(!sequence.has_received(x));
    }
    let (header, body) = chunks[5];
    sequence.insert_chunk(header, body).unwrap();
    for x in 0..MAX_CHUNK_COUNT as u8 {
        assert_eq!(sequence.has_received(x), x == 5);
    }
}
