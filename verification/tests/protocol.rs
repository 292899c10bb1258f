use rabbit_net::de::Deserializer;
use rabbit_net::error::Error;
use rabbit_net::protocol::{
    Break, Channel, Direction, EntityId, GameOver, Init, IntoRequest, Move, ObjectKind, Ping,
    PlayerId, PlayerList, Request, RequestKind,
};
use rabbit_net::rabbit::{from_bytes, to_bytes, PackBits, UnpackBits};

fn round_trip<T: PackBits + UnpackBits>(value: &T) -> T {
    let bytes = to_bytes(value).unwrap();
    from_bytes(&bytes).unwrap()
}

#[test]
fn requests_know_whether_they_must_arrive() {
    let ping = Request { channel: Channel(1), kind: Ping.into_request() };
    let init = Request { channel: Channel(2), kind: Init.into_request() };
    assert!(!ping.must_arrive());
    assert!(init.must_arrive());
    assert_eq!(ping.kind.name(), "Ping");
    assert_eq!(init.kind.name(), "Init");
}

#[test]
fn protocol_values_round_trip() {
    assert_eq!(round_trip(&PlayerId(4711)), PlayerId(4711));
    assert_eq!(round_trip(&Channel(9)), Channel(9));
    assert_eq!(round_trip(&EntityId(u32::MAX)), EntityId(u32::MAX));

    let request = round_trip(&Request { channel: Channel(77), kind: RequestKind::Init });
    assert_eq!(request.channel, Channel(77));
    assert!(matches!(request.kind, RequestKind::Init));

    assert!(matches!(round_trip(&GameOver::Winner), GameOver::Winner));
    assert!(matches!(round_trip(&GameOver::Loser), GameOver::Loser));
    assert!(matches!(round_trip(&ObjectKind::Mushroom), ObjectKind::Mushroom));

    let list = round_trip(&PlayerList { players: vec![PlayerId(1), PlayerId(3), PlayerId(300)] });
    assert_eq!(list.players, vec![PlayerId(1), PlayerId(3), PlayerId(300)]);

    assert_eq!(round_trip(&Break { entity: Some(EntityId(5)) }).entity, Some(EntityId(5)));
    assert_eq!(round_trip(&Break { entity: None }).entity, None);

    let mut direction = Direction::north();
    direction.insert(Direction::east());
    assert_eq!(round_trip(&Move { direction }).direction, direction);
}

#[test]
fn enum_variants_take_one_bit() {
    assert_eq!(to_bytes(&GameOver::Loser).unwrap(), vec![0]);
    assert_eq!(to_bytes(&GameOver::Winner).unwrap(), vec![1]);
    assert_eq!(to_bytes(&Ping).unwrap(), Vec::<u8>::new());
}

#[test]
fn direction_flags() {
    let mut d = Direction::default();
    assert!(d.is_empty());
    d.insert(Direction::north());
    d.insert(Direction::south());
    assert_eq!(d.bits(), 5);
    assert!(d.contains(Direction::north()));
    assert!(!d.contains(Direction::west()));
    d.remove(Direction::north());
    assert_eq!(d.bits(), 4);
    assert_eq!(Direction::from_bits_truncate(0xff).bits(), 15);
    assert_eq!(Direction::empty().bits(), 0);
}

#[test]
fn player_id_converts_to_u32() {
    let raw: u32 = PlayerId(42).into();
    assert_eq!(raw, 42);
    assert!(PlayerId(1) < PlayerId(2));
}

#[test]
fn deserializer_reads_primitives() {
    let bytes = [1u8, 0, 2, b'h', b'i', 0xac, 0x02, 5];
    let mut de = Deserializer::from_bytes(&bytes);
    assert_eq!(de.peek_byte().unwrap(), 1);
    assert_eq!(de.parse_bool().unwrap(), true);
    assert_eq!(de.parse_bool().unwrap(), false);
    assert_eq!(de.parse_str().unwrap(), "hi");
    assert_eq!(de.parse_leb128::<u32>().unwrap(), 300);
    assert_eq!(de.next_byte().unwrap(), 5);
    assert!(de.is_empty());
    assert_eq!(de.next_byte().unwrap_err(), Error::Eof);
}

#[test]
fn deserializer_reports_errors() {
    let mut de = Deserializer::from_bytes(&[7]);
    assert_eq!(de.parse_bool().unwrap_err(), Error::InvalidBool(7));

    let mut de = Deserializer::from_bytes(&[2, 0xff, 0xfe]);
    assert!(matches!(de.parse_str(), Err(Error::Utf(_))));

    let mut de = Deserializer::from_bytes(&[3, 1, 2]);
    assert_eq!(de.parse_bytes().unwrap_err(), Error::Eof);

    let mut de = Deserializer::from_bytes(&[1, 2, 3]);
    assert_eq!(de.next_bytes(2).unwrap(), &[1, 2]);
    assert_eq!(de.next_bytes(2).unwrap_err(), Error::Eof);
    assert_eq!(de.next_bytes(1).unwrap(), &[3]);
}

#[test]
fn strings_round_trip_and_invalid_utf8_is_refused() {
    let text = String::from("héllo, wörld");
    let bytes = to_bytes(&text).unwrap();
    let back: String = from_bytes(&bytes).unwrap();
    assert_eq!(back, text);

    // Two bytes, 0xff 0xfe: a length of 2 as a `u32` (count 00, byte 2), then the bytes.
    let mut writer = rabbit_net::write::BitWriter::new();
    2u32.pack(&mut writer).unwrap();
    0xffu8.pack(&mut writer).unwrap();
    0xfeu8.pack(&mut writer).unwrap();
    let bytes = writer.finish();
    assert!(from_bytes::<String>(&bytes).is_err());
}
