//! The messages that clients and the server exchange, and how they are packed into bits.
use vstd::prelude::*;
use vstd::arithmetic::power2::lemma2_to64;
use crate::bits::bits_of;
use crate::rabbit::{PackBits, UnpackBits, RoundTrip, Lossless};
use crate::write::WriteBits;
use crate::read::ReadBits;
use crate::variant::{index_bits, variant_at, pack_variant, unpack_variant, lemma_variant_round_trip};

verus! {

/// A unique identifier for a player.
#[derive(Debug, Copy, Clone, PartialEq, Eq, Structural, PartialOrd, Ord, Hash)]
pub struct PlayerId(pub u32);

/// The id of a channel in which requests and responses are sent.
#[derive(Debug, Copy, Clone, PartialEq, Eq, Structural, Hash)]
pub struct Channel(pub u32);

/// The unique id of an entity.
#[derive(Debug, Copy, Clone, PartialEq, Eq, Structural, Hash)]
pub struct EntityId(pub u32);

impl From<PlayerId> for u32 {
    fn from(id: PlayerId) -> (r: u32) {
        id.0
    }
}

impl vstd::std_specs::convert::FromSpecImpl<PlayerId> for u32 {
    open spec fn obeys_from_spec() -> bool {
        true
    }

    open spec fn from_spec(id: PlayerId) -> u32 {
        id.0
    }
}

/// Sent from the client to the server.
#[derive(Debug, Clone)]
pub struct Request {
    pub channel: Channel,
    pub kind: RequestKind,
}

/// Different kinds of requests.
#[derive(Debug, Clone)]
pub enum RequestKind {
    Ping,
    Init,
}

/// Asks the server for a `Pong`.
#[derive(Debug, Clone)]
pub struct Ping;

/// Asks the server to set up the player.
#[derive(Debug, Clone)]
pub struct Init;

/// Something that can be sent as a request.
pub trait IntoRequest {
    /// The request that this is sent as.
    fn into_request(self) -> RequestKind;
}

impl IntoRequest for Init {
    fn into_request(self) -> (r: RequestKind)
        ensures
            r is Init,
    {
        RequestKind::Init
    }
}

impl IntoRequest for Ping {
    fn into_request(self) -> (r: RequestKind)
        ensures
            r is Ping,
    {
        RequestKind::Ping
    }
}

impl Request {
    /// Whether the request must be delivered reliably: only `Init` must.
    pub fn must_arrive(&self) -> (r: bool)
        ensures
            r == (self.kind is Init),
    {
        match self.kind {
            RequestKind::Ping => false,
            RequestKind::Init => true,
        }
    }
}

impl RequestKind {
    /// The name of the variant.
    pub fn name(&self) -> (r: &'static str)
        ensures
            r@ == (match self {
                RequestKind::Ping => "Ping"@,
                RequestKind::Init => "Init"@,
            }),
    {
        match self {
            RequestKind::Ping => "Ping",
            RequestKind::Init => "Init",
        }
    }
}

/// Why a response could not be turned into the value that was asked for.
#[derive(Debug, Clone)]
pub enum FromResponseError {
    /// The request failed, with the server's message.
    Error(String),
    /// The response is of another kind than expected.
    InvalidResponse { found: &'static str, expected: &'static str },
}

/// A list of the currently connected clients.
#[derive(Debug, Clone)]
pub struct PlayerList {
    pub players: Vec<PlayerId>,
}

/// Response to a Ping.
#[derive(Debug, Clone)]
pub struct Pong;

/// The game session ended.
#[derive(Debug, Clone)]
pub enum GameOver {
    /// The player receiving this lost.
    Loser,
    /// The player receiving this won.
    Winner,
}

/// Different kinds of objects.
#[derive(Debug, Clone)]
pub enum ObjectKind {
    Tree,
    Mushroom,
}

/// The specified entity is being broken.
#[derive(Debug, Clone)]
pub struct Break {
    pub entity: Option<EntityId>,
}

/// Attempt to move in the given direction.
#[derive(Debug, Clone)]
pub struct Move {
    pub direction: Direction,
}

/// Different directions an entity can move, as a set of flags.
#[derive(Debug, Copy, Clone, PartialEq, Eq, Structural, Hash)]
pub struct Direction {
    bits: u8,
}

impl Direction {
    /// The bits of the flags: north is bit 0, west bit 1, south bit 2 and east bit 3.
    pub closed spec fn bits_spec(self) -> u8 {
        self.bits
    }

    /// No direction.
    pub fn empty() -> (d: Direction)
        ensures
            d.bits_spec() == 0,
    {
        Direction { bits: 0 }
    }

    /// North.
    pub fn north() -> (d: Direction)
        ensures
            d.bits_spec() == 1,
    {
        Direction { bits: 1 }
    }

    /// West.
    pub fn west() -> (d: Direction)
        ensures
            d.bits_spec() == 2,
    {
        Direction { bits: 2 }
    }

    /// South.
    pub fn south() -> (d: Direction)
        ensures
            d.bits_spec() == 4,
    {
        Direction { bits: 4 }
    }

    /// East.
    pub fn east() -> (d: Direction)
        ensures
            d.bits_spec() == 8,
    {
        Direction { bits: 8 }
    }

    /// The bits of the flags.
    pub fn bits(&self) -> (b: u8)
        ensures
            b == self.bits_spec(),
    {
        self.bits
    }

    /// The directions whose bits are set in `bits`; other bits are dropped.
    pub fn from_bits_truncate(bits: u8) -> (d: Direction)
        ensures
            d.bits_spec() == bits & 15,
    {
        Direction { bits: bits & 15 }
    }

    /// Whether every direction of `other` is set here.
    pub fn contains(&self, other: Direction) -> (r: bool)
        ensures
            r == (self.bits_spec() & other.bits_spec() == other.bits_spec()),
    {
        self.bits & other.bits == other.bits
    }

    /// Whether no direction is set.
    pub fn is_empty(&self) -> (r: bool)
        ensures
            r == (self.bits_spec() == 0),
    {
        self.bits == 0
    }

    /// Set every direction of `other`.
    pub fn insert(&mut self, other: Direction)
        ensures
            final(self).bits_spec() == old(self).bits_spec() | other.bits_spec(),
    {
        self.bits = self.bits | other.bits;
    }

    /// Clear every direction of `other`.
    pub fn remove(&mut self, other: Direction)
        ensures
            final(self).bits_spec() == old(self).bits_spec() & !other.bits_spec(),
    {
        self.bits = self.bits & !other.bits;
    }
}

impl Default for Direction {
    fn default() -> (d: Direction)
        ensures
            d.bits_spec() == 0,
    {
        Direction { bits: 0 }
    }
}

impl PackBits for Request {
    open spec fn obeys_pack_spec() -> bool {
        true
    }

    open spec fn packed_bits(&self) -> Seq<bool> {
        self.channel.packed_bits() + self.kind.packed_bits()
    }

    fn pack<W: WriteBits>(&self, writer: &mut W) -> (r: Result<(), W::Error>) {
        let ghost w0 = old(writer).written();
        match self.channel.pack(writer) {
            Ok(()) => {},
            Err(e) => return Err(e),
        }
        match self.kind.pack(writer) {
            Ok(()) => {},
            Err(e) => return Err(e),
        }
        proof {
            assert(writer.written() =~= w0 + (self.channel.packed_bits() + self.kind.packed_bits()));
        }
        Ok(())
    }
}

impl UnpackBits for Request {
    open spec fn obeys_unpack_spec() -> bool {
        true
    }

    open spec fn unpacked_len(bits: Seq<bool>) -> Option<nat> {
        <(Channel, RequestKind) as UnpackBits>::unpacked_len(bits)
    }

    open spec fn unpacks_to(bits: Seq<bool>, v: Request) -> bool {
        <(Channel, RequestKind) as UnpackBits>::unpacks_to(bits, (v.channel, v.kind))
    }

    open spec fn runs_out(bits: Seq<bool>) -> bool {
        <(Channel, RequestKind) as UnpackBits>::runs_out(bits)
    }

    fn unpack<R: ReadBits>(reader: &mut R) -> (r: Result<Request, R::Error>) {
        match <(Channel, RequestKind) as UnpackBits>::unpack(reader) {
            Ok((channel, kind)) => Ok(Request { channel, kind }),
            Err(e) => Err(e),
        }
    }
}

impl RoundTrip for Request {
    open spec fn round_trips(&self) -> bool {
        true
    }

    proof fn lemma_round_trip(v: Request, rest: Seq<bool>) {
        <(Channel, RequestKind) as RoundTrip>::lemma_round_trip((v.channel, v.kind), rest);
    }
}

impl Lossless for Request {
    proof fn lemma_lossless(v: Request, rest: Seq<bool>, x: Request) {
        <(Channel, RequestKind) as Lossless>::lemma_lossless((v.channel, v.kind), rest, (x.channel, x.kind));
    }

    proof fn lemma_obeys() {
        <(Channel, RequestKind) as Lossless>::lemma_obeys();
    }
}

impl PackBits for PlayerId {
    open spec fn obeys_pack_spec() -> bool {
        true
    }

    open spec fn packed_bits(&self) -> Seq<bool> {
        self.0.packed_bits()
    }

    fn pack<W: WriteBits>(&self, writer: &mut W) -> (r: Result<(), W::Error>) {
        self.0.pack(writer)
    }
}

impl UnpackBits for PlayerId {
    open spec fn obeys_unpack_spec() -> bool {
        true
    }

    open spec fn unpacked_len(bits: Seq<bool>) -> Option<nat> {
        <u32 as UnpackBits>::unpacked_len(bits)
    }

    open spec fn unpacks_to(bits: Seq<bool>, v: PlayerId) -> bool {
        <u32 as UnpackBits>::unpacks_to(bits, v.0)
    }

    open spec fn runs_out(bits: Seq<bool>) -> bool {
        <u32 as UnpackBits>::runs_out(bits)
    }

    fn unpack<R: ReadBits>(reader: &mut R) -> (r: Result<PlayerId, R::Error>) {
        match <u32 as UnpackBits>::unpack(reader) {
            Ok(x) => Ok(PlayerId(x)),
            Err(e) => Err(e),
        }
    }
}

impl RoundTrip for PlayerId {
    open spec fn round_trips(&self) -> bool {
        self.0.round_trips()
    }

    proof fn lemma_round_trip(v: PlayerId, rest: Seq<bool>) {
        <u32 as RoundTrip>::lemma_round_trip(v.0, rest);
    }
}

impl Lossless for PlayerId {
    proof fn lemma_lossless(v: PlayerId, rest: Seq<bool>, x: PlayerId) {
        <u32 as Lossless>::lemma_lossless(v.0, rest, x.0);
    }

    proof fn lemma_obeys() {}
}

impl PackBits for Channel {
    open spec fn obeys_pack_spec() -> bool {
        true
    }

    open spec fn packed_bits(&self) -> Seq<bool> {
        self.0.packed_bits()
    }

    fn pack<W: WriteBits>(&self, writer: &mut W) -> (r: Result<(), W::Error>) {
        self.0.pack(writer)
    }
}

impl UnpackBits for Channel {
    open spec fn obeys_unpack_spec() -> bool {
        true
    }

    open spec fn unpacked_len(bits: Seq<bool>) -> Option<nat> {
        <u32 as UnpackBits>::unpacked_len(bits)
    }

    open spec fn unpacks_to(bits: Seq<bool>, v: Channel) -> bool {
        <u32 as UnpackBits>::unpacks_to(bits, v.0)
    }

    open spec fn runs_out(bits: Seq<bool>) -> bool {
        <u32 as UnpackBits>::runs_out(bits)
    }

    fn unpack<R: ReadBits>(reader: &mut R) -> (r: Result<Channel, R::Error>) {
        match <u32 as UnpackBits>::unpack(reader) {
            Ok(x) => Ok(Channel(x)),
            Err(e) => Err(e),
        }
    }
}

impl RoundTrip for Channel {
    open spec fn round_trips(&self) -> bool {
        self.0.round_trips()
    }

    proof fn lemma_round_trip(v: Channel, rest: Seq<bool>) {
        <u32 as RoundTrip>::lemma_round_trip(v.0, rest);
    }
}

impl Lossless for Channel {
    proof fn lemma_lossless(v: Channel, rest: Seq<bool>, x: Channel) {
        <u32 as Lossless>::lemma_lossless(v.0, rest, x.0);
    }

    proof fn lemma_obeys() {}
}

impl PackBits for EntityId {
    open spec fn obeys_pack_spec() -> bool {
        true
    }

    open spec fn packed_bits(&self) -> Seq<bool> {
        self.0.packed_bits()
    }

    fn pack<W: WriteBits>(&self, writer: &mut W) -> (r: Result<(), W::Error>) {
        self.0.pack(writer)
    }
}

impl UnpackBits for EntityId {
    open spec fn obeys_unpack_spec() -> bool {
        true
    }

    open spec fn unpacked_len(bits: Seq<bool>) -> Option<nat> {
        <u32 as UnpackBits>::unpacked_len(bits)
    }

    open spec fn unpacks_to(bits: Seq<bool>, v: EntityId) -> bool {
        <u32 as UnpackBits>::unpacks_to(bits, v.0)
    }

    open spec fn runs_out(bits: Seq<bool>) -> bool {
        <u32 as UnpackBits>::runs_out(bits)
    }

    fn unpack<R: ReadBits>(reader: &mut R) -> (r: Result<EntityId, R::Error>) {
        match <u32 as UnpackBits>::unpack(reader) {
            Ok(x) => Ok(EntityId(x)),
            Err(e) => Err(e),
        }
    }
}

impl RoundTrip for EntityId {
    open spec fn round_trips(&self) -> bool {
        self.0.round_trips()
    }

    proof fn lemma_round_trip(v: EntityId, rest: Seq<bool>) {
        <u32 as RoundTrip>::lemma_round_trip(v.0, rest);
    }
}

impl Lossless for EntityId {
    proof fn lemma_lossless(v: EntityId, rest: Seq<bool>, x: EntityId) {
        <u32 as Lossless>::lemma_lossless(v.0, rest, x.0);
    }

    proof fn lemma_obeys() {}
}

impl PackBits for Direction {
    open spec fn obeys_pack_spec() -> bool {
        true
    }

    open spec fn packed_bits(&self) -> Seq<bool> {
        self.bits_spec().packed_bits()
    }

    fn pack<W: WriteBits>(&self, writer: &mut W) -> (r: Result<(), W::Error>) {
        self.bits.pack(writer)
    }
}

impl UnpackBits for Direction {
    open spec fn obeys_unpack_spec() -> bool {
        true
    }

    open spec fn unpacked_len(bits: Seq<bool>) -> Option<nat> {
        <u8 as UnpackBits>::unpacked_len(bits)
    }

    open spec fn unpacks_to(bits: Seq<bool>, v: Direction) -> bool {
        <u8 as UnpackBits>::unpacks_to(bits, v.bits_spec())
    }

    open spec fn runs_out(bits: Seq<bool>) -> bool {
        <u8 as UnpackBits>::runs_out(bits)
    }

    fn unpack<R: ReadBits>(reader: &mut R) -> (r: Result<Direction, R::Error>) {
        match <u8 as UnpackBits>::unpack(reader) {
            Ok(x) => Ok(Direction { bits: x }),
            Err(e) => Err(e),
        }
    }
}

impl RoundTrip for Direction {
    open spec fn round_trips(&self) -> bool {
        self.bits_spec().round_trips()
    }

    proof fn lemma_round_trip(v: Direction, rest: Seq<bool>) {
        <u8 as RoundTrip>::lemma_round_trip(v.bits_spec(), rest);
    }
}

impl Lossless for Direction {
    proof fn lemma_lossless(v: Direction, rest: Seq<bool>, x: Direction) {
        <u8 as Lossless>::lemma_lossless(v.bits_spec(), rest, x.bits_spec());
    }

    proof fn lemma_obeys() {}
}

impl PackBits for Break {
    open spec fn obeys_pack_spec() -> bool {
        true
    }

    open spec fn packed_bits(&self) -> Seq<bool> {
        self.entity.packed_bits()
    }

    fn pack<W: WriteBits>(&self, writer: &mut W) -> (r: Result<(), W::Error>) {
        self.entity.pack(writer)
    }
}

impl UnpackBits for Break {
    open spec fn obeys_unpack_spec() -> bool {
        true
    }

    open spec fn unpacked_len(bits: Seq<bool>) -> Option<nat> {
        <Option<EntityId> as UnpackBits>::unpacked_len(bits)
    }

    open spec fn unpacks_to(bits: Seq<bool>, v: Break) -> bool {
        <Option<EntityId> as UnpackBits>::unpacks_to(bits, v.entity)
    }

    open spec fn runs_out(bits: Seq<bool>) -> bool {
        <Option<EntityId> as UnpackBits>::runs_out(bits)
    }

    fn unpack<R: ReadBits>(reader: &mut R) -> (r: Result<Break, R::Error>) {
        match <Option<EntityId> as UnpackBits>::unpack(reader) {
            Ok(x) => Ok(Break { entity: x }),
            Err(e) => Err(e),
        }
    }
}

impl RoundTrip for Break {
    open spec fn round_trips(&self) -> bool {
        self.entity.round_trips()
    }

    proof fn lemma_round_trip(v: Break, rest: Seq<bool>) {
        <Option<EntityId> as RoundTrip>::lemma_round_trip(v.entity, rest);
    }
}

impl Lossless for Break {
    proof fn lemma_lossless(v: Break, rest: Seq<bool>, x: Break) {
        <Option<EntityId> as Lossless>::lemma_lossless(v.entity, rest, x.entity);
    }

    proof fn lemma_obeys() {}
}

impl PackBits for Move {
    open spec fn obeys_pack_spec() -> bool {
        true
    }

    open spec fn packed_bits(&self) -> Seq<bool> {
        self.direction.packed_bits()
    }

    fn pack<W: WriteBits>(&self, writer: &mut W) -> (r: Result<(), W::Error>) {
        self.direction.pack(writer)
    }
}

impl UnpackBits for Move {
    open spec fn obeys_unpack_spec() -> bool {
        true
    }

    open spec fn unpacked_len(bits: Seq<bool>) -> Option<nat> {
        <Direction as UnpackBits>::unpacked_len(bits)
    }

    open spec fn unpacks_to(bits: Seq<bool>, v: Move) -> bool {
        <Direction as UnpackBits>::unpacks_to(bits, v.direction)
    }

    open spec fn runs_out(bits: Seq<bool>) -> bool {
        <Direction as UnpackBits>::runs_out(bits)
    }

    fn unpack<R: ReadBits>(reader: &mut R) -> (r: Result<Move, R::Error>) {
        match <Direction as UnpackBits>::unpack(reader) {
            Ok(x) => Ok(Move { direction: x }),
            Err(e) => Err(e),
        }
    }
}

impl RoundTrip for Move {
    open spec fn round_trips(&self) -> bool {
        self.direction.round_trips()
    }

    proof fn lemma_round_trip(v: Move, rest: Seq<bool>) {
        <Direction as RoundTrip>::lemma_round_trip(v.direction, rest);
    }
}

impl Lossless for Move {
    proof fn lemma_lossless(v: Move, rest: Seq<bool>, x: Move) {
        <Direction as Lossless>::lemma_lossless(v.direction, rest, x.direction);
    }

    proof fn lemma_obeys() {}
}

impl PackBits for PlayerList {
    open spec fn obeys_pack_spec() -> bool {
        true
    }

    open spec fn packed_bits(&self) -> Seq<bool> {
        self.players.packed_bits()
    }

    fn pack<W: WriteBits>(&self, writer: &mut W) -> (r: Result<(), W::Error>) {
        self.players.pack(writer)
    }
}

impl UnpackBits for PlayerList {
    open spec fn obeys_unpack_spec() -> bool {
        true
    }

    open spec fn unpacked_len(bits: Seq<bool>) -> Option<nat> {
        <Vec<PlayerId> as UnpackBits>::unpacked_len(bits)
    }

    open spec fn unpacks_to(bits: Seq<bool>, v: PlayerList) -> bool {
        <Vec<PlayerId> as UnpackBits>::unpacks_to(bits, v.players)
    }

    open spec fn runs_out(bits: Seq<bool>) -> bool {
        <Vec<PlayerId> as UnpackBits>::runs_out(bits)
    }

    fn unpack<R: ReadBits>(reader: &mut R) -> (r: Result<PlayerList, R::Error>) {
        match <Vec<PlayerId> as UnpackBits>::unpack(reader) {
            Ok(x) => Ok(PlayerList { players: x }),
            Err(e) => Err(e),
        }
    }
}

impl RoundTrip for PlayerList {
    open spec fn round_trips(&self) -> bool {
        self.players.round_trips()
    }

    proof fn lemma_round_trip(v: PlayerList, rest: Seq<bool>) {
        <Vec<PlayerId> as RoundTrip>::lemma_round_trip(v.players, rest);
    }
}

impl PackBits for Ping {
    open spec fn obeys_pack_spec() -> bool {
        true
    }

    open spec fn packed_bits(&self) -> Seq<bool> {
        Seq::empty()
    }

    fn pack<W: WriteBits>(&self, writer: &mut W) -> (r: Result<(), W::Error>)
        ensures
            r is Ok,
    {
        proof {
            assert(writer.written() + Seq::<bool>::empty() =~= writer.written());
        }
        Ok(())
    }
}

impl UnpackBits for Ping {
    open spec fn obeys_unpack_spec() -> bool {
        true
    }

    open spec fn unpacked_len(bits: Seq<bool>) -> Option<nat> {
        Some(0)
    }

    open spec fn unpacks_to(bits: Seq<bool>, v: Ping) -> bool {
        true
    }

    open spec fn runs_out(bits: Seq<bool>) -> bool {
        false
    }

    fn unpack<R: ReadBits>(reader: &mut R) -> (r: Result<Ping, R::Error>) {
        proof {
            assert(reader.remaining().skip(0) =~= reader.remaining());
        }
        Ok(Ping)
    }
}

impl RoundTrip for Ping {
    open spec fn round_trips(&self) -> bool {
        true
    }

    proof fn lemma_round_trip(v: Ping, rest: Seq<bool>) {
        assert(Seq::<bool>::empty() + rest =~= rest);
    }
}

impl Lossless for Ping {
    proof fn lemma_lossless(v: Ping, rest: Seq<bool>, x: Ping) {}

    proof fn lemma_obeys() {}
}

impl PackBits for Init {
    open spec fn obeys_pack_spec() -> bool {
        true
    }

    open spec fn packed_bits(&self) -> Seq<bool> {
        Seq::empty()
    }

    fn pack<W: WriteBits>(&self, writer: &mut W) -> (r: Result<(), W::Error>)
        ensures
            r is Ok,
    {
        proof {
            assert(writer.written() + Seq::<bool>::empty() =~= writer.written());
        }
        Ok(())
    }
}

impl UnpackBits for Init {
    open spec fn obeys_unpack_spec() -> bool {
        true
    }

    open spec fn unpacked_len(bits: Seq<bool>) -> Option<nat> {
        Some(0)
    }

    open spec fn unpacks_to(bits: Seq<bool>, v: Init) -> bool {
        true
    }

    open spec fn runs_out(bits: Seq<bool>) -> bool {
        false
    }

    fn unpack<R: ReadBits>(reader: &mut R) -> (r: Result<Init, R::Error>) {
        proof {
            assert(reader.remaining().skip(0) =~= reader.remaining());
        }
        Ok(Init)
    }
}

impl RoundTrip for Init {
    open spec fn round_trips(&self) -> bool {
        true
    }

    proof fn lemma_round_trip(v: Init, rest: Seq<bool>) {
        assert(Seq::<bool>::empty() + rest =~= rest);
    }
}

impl Lossless for Init {
    proof fn lemma_lossless(v: Init, rest: Seq<bool>, x: Init) {}

    proof fn lemma_obeys() {}
}

impl PackBits for Pong {
    open spec fn obeys_pack_spec() -> bool {
        true
    }

    open spec fn packed_bits(&self) -> Seq<bool> {
        Seq::empty()
    }

    fn pack<W: WriteBits>(&self, writer: &mut W) -> (r: Result<(), W::Error>)
        ensures
            r is Ok,
    {
        proof {
            assert(writer.written() + Seq::<bool>::empty() =~= writer.written());
        }
        Ok(())
    }
}

impl UnpackBits for Pong {
    open spec fn obeys_unpack_spec() -> bool {
        true
    }

    open spec fn unpacked_len(bits: Seq<bool>) -> Option<nat> {
        Some(0)
    }

    open spec fn unpacks_to(bits: Seq<bool>, v: Pong) -> bool {
        true
    }

    open spec fn runs_out(bits: Seq<bool>) -> bool {
        false
    }

    fn unpack<R: ReadBits>(reader: &mut R) -> (r: Result<Pong, R::Error>) {
        proof {
            assert(reader.remaining().skip(0) =~= reader.remaining());
        }
        Ok(Pong)
    }
}

impl RoundTrip for Pong {
    open spec fn round_trips(&self) -> bool {
        true
    }

    proof fn lemma_round_trip(v: Pong, rest: Seq<bool>) {
        assert(Seq::<bool>::empty() + rest =~= rest);
    }
}

impl Lossless for Pong {
    proof fn lemma_lossless(v: Pong, rest: Seq<bool>, x: Pong) {}

    proof fn lemma_obeys() {}
}

impl RequestKind {
    /// The index of the variant, in declaration order.
    pub open spec fn variant_index(self) -> nat {
        match self {
            RequestKind::Ping => 0,
            RequestKind::Init => 1,
        }
    }
}

impl PackBits for RequestKind {
    open spec fn obeys_pack_spec() -> bool {
        true
    }

    open spec fn packed_bits(&self) -> Seq<bool> {
        bits_of(self.variant_index(), index_bits(2))
    }

    fn pack<W: WriteBits>(&self, writer: &mut W) -> (r: Result<(), W::Error>) {
        let index: u32 = match self {
            RequestKind::Ping => 0,
            RequestKind::Init => 1,
        };
        pack_variant(index, 2, writer)
    }
}

impl UnpackBits for RequestKind {
    open spec fn obeys_unpack_spec() -> bool {
        true
    }

    open spec fn unpacked_len(bits: Seq<bool>) -> Option<nat> {
        match variant_at(bits, 2) {
            Some(_) => Some(index_bits(2)),
            None => None,
        }
    }

    open spec fn unpacks_to(bits: Seq<bool>, v: RequestKind) -> bool {
        variant_at(bits, 2) == Some(v.variant_index())
    }

    open spec fn runs_out(bits: Seq<bool>) -> bool {
        bits.len() < index_bits(2)
    }

    fn unpack<R: ReadBits>(reader: &mut R) -> (r: Result<RequestKind, R::Error>) {
        match unpack_variant(2, reader) {
            Ok(0) => Ok(RequestKind::Ping),
            Ok(_) => Ok(RequestKind::Init),
            Err(e) => Err(e),
        }
    }
}

impl RoundTrip for RequestKind {
    open spec fn round_trips(&self) -> bool {
        true
    }

    proof fn lemma_round_trip(v: RequestKind, rest: Seq<bool>) {
        lemma2_to64();
        lemma_variant_round_trip(v.variant_index(), 2, rest);
    }
}

impl Lossless for RequestKind {
    proof fn lemma_lossless(v: RequestKind, rest: Seq<bool>, x: RequestKind) {
        Self::lemma_round_trip(v, rest);
    }

    proof fn lemma_obeys() {}
}

impl GameOver {
    /// The index of the variant, in declaration order.
    pub open spec fn variant_index(self) -> nat {
        match self {
            GameOver::Loser => 0,
            GameOver::Winner => 1,
        }
    }
}

impl PackBits for GameOver {
    open spec fn obeys_pack_spec() -> bool {
        true
    }

    open spec fn packed_bits(&self) -> Seq<bool> {
        bits_of(self.variant_index(), index_bits(2))
    }

    fn pack<W: WriteBits>(&self, writer: &mut W) -> (r: Result<(), W::Error>) {
        let index: u32 = match self {
            GameOver::Loser => 0,
            GameOver::Winner => 1,
        };
        pack_variant(index, 2, writer)
    }
}

impl UnpackBits for GameOver {
    open spec fn obeys_unpack_spec() -> bool {
        true
    }

    open spec fn unpacked_len(bits: Seq<bool>) -> Option<nat> {
        match variant_at(bits, 2) {
            Some(_) => Some(index_bits(2)),
            None => None,
        }
    }

    open spec fn unpacks_to(bits: Seq<bool>, v: GameOver) -> bool {
        variant_at(bits, 2) == Some(v.variant_index())
    }

    open spec fn runs_out(bits: Seq<bool>) -> bool {
        bits.len() < index_bits(2)
    }

    fn unpack<R: ReadBits>(reader: &mut R) -> (r: Result<GameOver, R::Error>) {
        match unpack_variant(2, reader) {
            Ok(0) => Ok(GameOver::Loser),
            Ok(_) => Ok(GameOver::Winner),
            Err(e) => Err(e),
        }
    }
}

impl RoundTrip for GameOver {
    open spec fn round_trips(&self) -> bool {
        true
    }

    proof fn lemma_round_trip(v: GameOver, rest: Seq<bool>) {
        lemma2_to64();
        lemma_variant_round_trip(v.variant_index(), 2, rest);
    }
}

impl Lossless for GameOver {
    proof fn lemma_lossless(v: GameOver, rest: Seq<bool>, x: GameOver) {
        Self::lemma_round_trip(v, rest);
    }

    proof fn lemma_obeys() {}
}

impl ObjectKind {
    /// The index of the variant, in declaration order.
    pub open spec fn variant_index(self) -> nat {
        match self {
            ObjectKind::Tree => 0,
            ObjectKind::Mushroom => 1,
        }
    }
}

impl PackBits for ObjectKind {
    open spec fn obeys_pack_spec() -> bool {
        true
    }

    open spec fn packed_bits(&self) -> Seq<bool> {
        bits_of(self.variant_index(), index_bits(2))
    }

    fn pack<W: WriteBits>(&self, writer: &mut W) -> (r: Result<(), W::Error>) {
        let index: u32 = match self {
            ObjectKind::Tree => 0,
            ObjectKind::Mushroom => 1,
        };
        pack_variant(index, 2, writer)
    }
}

impl UnpackBits for ObjectKind {
    open spec fn obeys_unpack_spec() -> bool {
        true
    }

    open spec fn unpacked_len(bits: Seq<bool>) -> Option<nat> {
        match variant_at(bits, 2) {
            Some(_) => Some(index_bits(2)),
            None => None,
        }
    }

    open spec fn unpacks_to(bits: Seq<bool>, v: ObjectKind) -> bool {
        variant_at(bits, 2) == Some(v.variant_index())
    }

    open spec fn runs_out(bits: Seq<bool>) -> bool {
        bits.len() < index_bits(2)
    }

    fn unpack<R: ReadBits>(reader: &mut R) -> (r: Result<ObjectKind, R::Error>) {
        match unpack_variant(2, reader) {
            Ok(0) => Ok(ObjectKind::Tree),
            Ok(_) => Ok(ObjectKind::Mushroom),
            Err(e) => Err(e),
        }
    }
}

impl RoundTrip for ObjectKind {
    open spec fn round_trips(&self) -> bool {
        true
    }

    proof fn lemma_round_trip(v: ObjectKind, rest: Seq<bool>) {
        lemma2_to64();
        lemma_variant_round_trip(v.variant_index(), 2, rest);
    }
}

impl Lossless for ObjectKind {
    proof fn lemma_lossless(v: ObjectKind, rest: Seq<bool>, x: ObjectKind) {
        Self::lemma_round_trip(v, rest);
    }

    proof fn lemma_obeys() {}
}

} // verus!
