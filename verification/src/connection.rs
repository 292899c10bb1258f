//! The connection layer: the handshake that opens a connection, the framing of outgoing
//! payloads into packets, and the window of sequences from which incoming payloads are
//! reassembled.
use vstd::prelude::*;
use crate::packet;
use crate::packet::{
    Header, Flags, Sequence, SequenceView, chunk_count, chunk_bytes, chunk_header, empty_sequence,
    header_bytes, header_from_bytes, insert_error, inserted, is_complete_spec, into_chunks,
    lemma_header_round_trip, after_chunks, lemma_reassembly, lemma_chunks_accepted, covers, delivers_at, lemma_covers_prefix,
    lemma_delivers_prefix, lemma_contains_push, MAX_CHUNK_COUNT,
    MAX_PAYLOAD_SIZE,
};
use crate::raw_packet::{self, FromRawPacket, IntoRawPacket, read_u32, write_u32, u32_be_bytes, u32_from_be};

verus! {

/// The number of sequences to buffer on in the receive buffer.
pub const SEQUENCE_BUFFER_SIZE: usize = 1024;

/// What a connection can fail with.
#[derive(Debug, Clone)]
pub enum Error {
    /// The connection was closed.
    Closed,
    /// The connection timed out.
    Timeout,
    /// An error occurred when closing the connection.
    Shutdown,
    /// Failed to split a payload.
    SplitPayload(packet::Error),
    /// Failed to reconstruct a payload.
    ReconstructPayload(packet::Error),
    /// Failed to deserialize a packet.
    Deserialize(raw_packet::Error),
    /// The client did not respond correctly to the challenge.
    InvalidChallengeResponse,
}

/// How a payload is delivered.
#[derive(Debug, Copy, Clone)]
pub enum Delivery {
    /// Guarantee that the data arrives in the same order as it was sent.
    Reliable,
    /// Send the packet once. Use when the payload should arrive as soon as possible, but dropping
    /// it has no consequence.
    BestEffort,
}

/// The first message of a handshake, sent by the side that connects.
#[derive(Debug, Copy, Clone)]
pub struct Init {
    pub salt: u32,
}

/// The answer of the accepting side.
#[derive(Debug, Copy, Clone)]
pub struct Challenge {
    pub pepper: u32,
}

/// The connecting side's answer to the challenge.
#[derive(Debug, Copy, Clone)]
pub struct ChallengeResponse {
    pub seasoning: u32,
}

/// A payload to send, and whether its packets must be acknowledged.
pub struct OutgoingPayload {
    pub bytes: Vec<u8>,
    pub needs_ack: bool,
}

/// A payload that arrived whole.
pub struct IncomingPayload {
    pub bytes: Vec<u8>,
}

/// `rand::Rng::gen::<u32>` on `rand::thread_rng()`.
///
/// Trusted only to return: the value is random, and nothing is stated of it.
#[verifier::external_body]
fn random_u32() -> u32 {
    rand::Rng::gen::<u32>(&mut rand::thread_rng())
}

impl Init {
    /// A handshake start with a random salt.
    pub fn new() -> (i: Init) {
        Init { salt: random_u32() }
    }
}

impl Challenge {
    /// A challenge with a random pepper.
    pub fn new() -> (c: Challenge) {
        Challenge { pepper: random_u32() }
    }
}

/// The response that the side that sent `init` gives to `challenge`.
pub open spec fn response_for(init: Init, challenge: Challenge) -> ChallengeResponse {
    ChallengeResponse { seasoning: init.salt ^ challenge.pepper }
}

/// Whether the side that sent `challenge` accepts `response` from the side that sent `init`.
pub open spec fn accepts(init: Init, challenge: Challenge, response: ChallengeResponse) -> bool {
    response.seasoning == init.salt ^ challenge.pepper
}

impl ChallengeResponse {
    /// The response to `challenge` of the side that sent `init`.
    pub fn new(init: Init, challenge: Challenge) -> (r: ChallengeResponse)
        ensures
            r == response_for(init, challenge),
    {
        ChallengeResponse { seasoning: init.salt ^ challenge.pepper }
    }
}

/// Whether `response` answers `challenge` for the side that sent `init`.
pub fn valid_response(init: Init, challenge: Challenge, response: ChallengeResponse) -> (r: bool)
    ensures
        r == accepts(init, challenge, response),
{
    let expected = ChallengeResponse::new(init, challenge);
    expected.seasoning == response.seasoning
}

/// The handshake succeeds between honest sides: the response made from an init and a challenge
/// is accepted, and it is the only one that is.
pub proof fn lemma_handshake(init: Init, challenge: Challenge, response: ChallengeResponse)
    ensures
        accepts(init, challenge, response_for(init, challenge)),
        accepts(init, challenge, response) <==> response == response_for(init, challenge),
{
}

impl FromRawPacket for Init {
    open spec fn from_packet(bytes: Seq<u8>) -> Option<Init> {
        if bytes.len() < 4 { None } else { Some(Init { salt: u32_from_be(bytes) }) }
    }

    fn deserialize(bytes: &[u8]) -> (r: Result<Init, raw_packet::Error>) {
        match read_u32(bytes) {
            Ok((salt, _)) => Ok(Init { salt }),
            Err(e) => Err(e),
        }
    }
}

impl IntoRawPacket for Init {
    open spec fn packet_bytes(&self) -> Seq<u8> {
        u32_be_bytes(self.salt)
    }

    fn serialize(&self) -> (r: Vec<u8>) {
        let mut bytes = Vec::new();
        write_u32(&mut bytes, self.salt);
        proof {
            assert(bytes@ =~= u32_be_bytes(self.salt));
        }
        bytes
    }
}

impl FromRawPacket for Challenge {
    open spec fn from_packet(bytes: Seq<u8>) -> Option<Challenge> {
        if bytes.len() < 4 { None } else { Some(Challenge { pepper: u32_from_be(bytes) }) }
    }

    fn deserialize(bytes: &[u8]) -> (r: Result<Challenge, raw_packet::Error>) {
        match read_u32(bytes) {
            Ok((pepper, _)) => Ok(Challenge { pepper }),
            Err(e) => Err(e),
        }
    }
}

impl IntoRawPacket for Challenge {
    open spec fn packet_bytes(&self) -> Seq<u8> {
        u32_be_bytes(self.pepper)
    }

    fn serialize(&self) -> (r: Vec<u8>) {
        let mut bytes = Vec::new();
        write_u32(&mut bytes, self.pepper);
        proof {
            assert(bytes@ =~= u32_be_bytes(self.pepper));
        }
        bytes
    }
}

impl FromRawPacket for ChallengeResponse {
    open spec fn from_packet(bytes: Seq<u8>) -> Option<ChallengeResponse> {
        if bytes.len() < 4 { None } else { Some(ChallengeResponse { seasoning: u32_from_be(bytes) }) }
    }

    fn deserialize(bytes: &[u8]) -> (r: Result<ChallengeResponse, raw_packet::Error>) {
        match read_u32(bytes) {
            Ok((seasoning, _)) => Ok(ChallengeResponse { seasoning }),
            Err(e) => Err(e),
        }
    }
}

impl IntoRawPacket for ChallengeResponse {
    open spec fn packet_bytes(&self) -> Seq<u8> {
        u32_be_bytes(self.seasoning)
    }

    fn serialize(&self) -> (r: Vec<u8>) {
        let mut bytes = Vec::new();
        write_u32(&mut bytes, self.seasoning);
        proof {
            assert(bytes@ =~= u32_be_bytes(self.seasoning));
        }
        bytes
    }
}

/// Each handshake message is read back from the packet it is written as.
pub proof fn lemma_handshake_packets_round_trip(init: Init, challenge: Challenge, response: ChallengeResponse)
    ensures
        Init::from_packet(init.packet_bytes()) == Some(init),
        Challenge::from_packet(challenge.packet_bytes()) == Some(challenge),
        ChallengeResponse::from_packet(response.packet_bytes()) == Some(response),
{
    raw_packet::lemma_u32_round_trip(init.salt, Seq::empty());
    raw_packet::lemma_u32_round_trip(challenge.pepper, Seq::empty());
    raw_packet::lemma_u32_round_trip(response.seasoning, Seq::empty());
    assert(u32_be_bytes(init.salt) + Seq::<u8>::empty() =~= u32_be_bytes(init.salt));
    assert(u32_be_bytes(challenge.pepper) + Seq::<u8>::empty() =~= u32_be_bytes(challenge.pepper));
    assert(u32_be_bytes(response.seasoning) + Seq::<u8>::empty() =~= u32_be_bytes(response.seasoning));
}


/// A place in the receive window: the sequence it holds, that sequence's chunks so far, and
/// whether the sequence was already delivered.
pub struct Slot {
    sequence: Option<u16>,
    entry: Box<Sequence>,
    complete: bool,
}

/// What a slot holds.
pub struct SlotView {
    pub sequence: Option<u16>,
    pub entry: SequenceView,
    pub complete: bool,
}

impl View for Slot {
    type V = SlotView;

    closed spec fn view(&self) -> SlotView {
        SlotView { sequence: self.sequence, entry: self.entry@, complete: self.complete }
    }
}

/// A slot that holds no sequence.
pub open spec fn empty_slot() -> SlotView {
    SlotView { sequence: None, entry: empty_sequence(), complete: false }
}

impl Default for Slot {
    fn default() -> (s: Slot)
        ensures
            s@ == empty_slot(),
    {
        Slot { sequence: None, entry: Box::new(Sequence::new()), complete: false }
    }
}

/// The window of sequences that incoming packets are reassembled in. Sequence `q` lives in slot
/// `q % SEQUENCE_BUFFER_SIZE`; `start` is the oldest sequence that may still occupy a slot.
pub struct SequenceBuilder {
    slots: Vec<Slot>,
    start: u16,
}

/// What a window holds: its first sequence and its slots.
pub struct WindowView {
    pub start: u16,
    pub slots: Seq<SlotView>,
}

impl View for SequenceBuilder {
    type V = WindowView;

    closed spec fn view(&self) -> WindowView {
        WindowView { start: self.start, slots: self.slots@.map_values(|s: Slot| s@) }
    }
}

/// The slot of sequence `seq`.
pub open spec fn slot_index(seq: u16) -> int {
    seq as int % 1024
}

/// How far sequence `seq` comes after `start`, counting around the wrap of `u16`.
pub open spec fn window_offset(start: u16, seq: u16) -> int {
    (seq - start) % 0x1_0000
}

/// How many sequences the window must move past so that `current` falls inside it.
pub open spec fn clear_count(start: u16, current: u16) -> nat {
    if window_offset(start, current) >= 1024 {
        (window_offset(start, current) - 1023) as nat
    } else {
        0
    }
}

/// Slot `i` belongs to one of the `n` sequences from `start` on.
pub open spec fn moved_past(start: u16, n: nat, i: int) -> bool {
    (i - start) % 1024 < n
}

/// The window after moving past `n` sequences: the slots of those sequences are emptied.
pub open spec fn cleared(w: WindowView, n: nat) -> WindowView {
    WindowView {
        start: ((w.start + n) % 0x1_0000) as u16,
        slots: Seq::new(w.slots.len(), |i: int| if moved_past(w.start, n, i) { empty_slot() } else { w.slots[i] }),
    }
}

/// The window after `seq` takes its slot: a slot that holds another sequence is reset for it.
pub open spec fn entered(w: WindowView, seq: u16) -> WindowView {
    let i = slot_index(seq);
    if w.slots[i].sequence == Some(seq) {
        w
    } else {
        WindowView { slots: w.slots.update(i, SlotView { sequence: Some(seq), entry: empty_sequence(), complete: false }), ..w }
    }
}

/// What inserting a chunk into the window returns, and the window after it: the window moves so
/// that the chunk's sequence falls inside, the sequence takes its slot, and a sequence that was
/// already delivered ignores the chunk. Otherwise the chunk goes into the sequence; once that is
/// complete its payload is delivered and the slot keeps only that it was.
pub open spec fn window_insert(w: WindowView, header: Header, body: Seq<u8>) -> (Result<Option<Seq<u8>>, Error>, WindowView) {
    let w1 = entered(cleared(w, clear_count(w.start, header.seq)), header.seq);
    let i = slot_index(header.seq);
    let slot = w1.slots[i];
    if slot.complete {
        (Ok(None), w1)
    } else {
        match insert_error(header, body) {
            Some(e) => (Err(Error::ReconstructPayload(e)), w1),
            None => {
                let s = inserted(slot.entry, header, body);
                if is_complete_spec(s) {
                    (
                        Ok(Some(s.payload)),
                        WindowView {
                            slots: w1.slots.update(i, SlotView { sequence: slot.sequence, entry: empty_sequence(), complete: true }),
                            ..w1
                        },
                    )
                } else {
                    (Ok(None), WindowView { slots: w1.slots.update(i, SlotView { entry: s, ..slot }), ..w1 })
                }
            },
        }
    }
}

/// The bytes of a delivered payload, if any.
pub open spec fn delivered(r: Result<Option<IncomingPayload>, Error>) -> Result<Option<Seq<u8>>, Error> {
    match r {
        Ok(Some(p)) => Ok(Some(p.bytes@)),
        Ok(None) => Ok(None),
        Err(e) => Err(e),
    }
}

/// A well-formed window: one slot per place, and no sequence expecting more chunks than it can
/// hold.
pub open spec fn window_wf(w: WindowView) -> bool {
    &&& w.slots.len() == SEQUENCE_BUFFER_SIZE
    &&& forall|i: int| 0 <= i < w.slots.len() ==> (#[trigger] w.slots[i]).entry.max_chunks <= MAX_CHUNK_COUNT
}

proof fn lemma_clear_step(s0: u16, k: nat, i: int)
    requires
        0 <= i < 1024,
    ensures
        ((i - s0) % 1024 < k + 1) <==> ((i - s0) % 1024 < k || i == ((s0 + k) % 0x1_0000) % 1024),
{
    let z = (s0 + k) % 1024;
    assert(((s0 + k) % 0x1_0000) % 1024 == z) by {
        vstd::arithmetic::div_mod::lemma_mod_mod((s0 + k) as int, 1024, 64);
    }
    let d = (i - s0) % 1024;
    assert(d == (i - z + k) % 1024) by {
        vstd::arithmetic::div_mod::lemma_fundamental_div_mod((s0 + k) as int, 1024);
        vstd::arithmetic::div_mod::lemma_mod_add_multiples_vanish(i - z + k, 1024);
        let q = (s0 + k) / 1024;
        vstd::arithmetic::div_mod::lemma_mod_sub_multiples_vanish(i - z + k, 1024);
        assert(i - s0 == (i - z + k) - 1024 * q);
        vstd::arithmetic::div_mod::lemma_mod_multiples_vanish(-q, i - z + k, 1024);
    }
    if i == z {
        assert(d == k % 1024);
    } else {
        if k < 1024 {
            assert(d != k) by {
                if d == k {
                    vstd::arithmetic::div_mod::lemma_fundamental_div_mod(i - z + k, 1024);
                    let q2 = (i - z + k) / 1024;
                    assert(i - z == 1024 * q2);
                    assert(q2 == 0) by (nonlinear_arith)
                        requires
                            i - z == 1024 * q2,
                            -1024 < i - z < 1024,
                    ;
                }
            }
        }
    }
}

impl SequenceBuilder {
    /// The builder is well formed.
    pub open spec fn wf(&self) -> bool {
        window_wf(self@)
    }

    /// An empty window that starts at sequence 0.
    pub fn new() -> (b: SequenceBuilder)
        ensures
            b.wf(),
            b@.start == 0,
            b@.slots == Seq::new(SEQUENCE_BUFFER_SIZE as nat, |i: int| empty_slot()),
    {
        let mut slots: Vec<Slot> = Vec::new();
        while slots.len() < SEQUENCE_BUFFER_SIZE
            invariant
                slots.len() <= SEQUENCE_BUFFER_SIZE,
                forall|i: int| 0 <= i < slots.len() ==> (#[trigger] slots@[i])@ == empty_slot(),
            decreases SEQUENCE_BUFFER_SIZE - slots.len(),
        {
            slots.push(Slot::default());
        }
        let b = SequenceBuilder { slots, start: 0 };
        proof {
            assert(b@.slots =~= Seq::new(SEQUENCE_BUFFER_SIZE as nat, |i: int| empty_slot()));
        }
        b
    }

    /// The slot of a sequence.
    pub fn index(sequence: u16) -> (i: usize)
        ensures
            i == slot_index(sequence),
    {
        sequence as usize % SEQUENCE_BUFFER_SIZE
    }

    /// Move the window until `current` falls inside it, emptying the slots it moves past.
    pub fn clear_complete(&mut self, current: u16)
        requires
            old(self).wf(),
        ensures
            final(self).wf(),
            final(self)@ == cleared(old(self)@, clear_count(old(self)@.start, current)),
            window_offset(final(self)@.start, current) < 1024,
    {
        let ghost w0 = self@;
        let ghost n = clear_count(w0.start, current);
        let ghost mut k: nat = 0;
        proof {
            assert(self@.slots =~= cleared(w0, 0).slots);
        }
        while current.wrapping_sub(self.start) as usize >= SEQUENCE_BUFFER_SIZE
            invariant
                window_wf(w0),
                self.slots@.len() == SEQUENCE_BUFFER_SIZE,
                k <= n,
                n == clear_count(w0.start, current),
                self@ == cleared(w0, k),
                self.start == (w0.start + k) % 0x1_0000,
                k < n <==> window_offset(self.start, current) >= 1024,
            decreases n - k,
        {
            let index = Self::index(self.start);
            let ghost before = self@.slots;
            self.slots.set(index, Slot::default());
            assert(self@.slots =~= before.update(index as int, empty_slot()));
            self.start = self.start.wrapping_add(1);
            proof {
                assert forall|i: int| 0 <= i < 1024 implies #[trigger] moved_past(w0.start, k + 1, i) <==> (
                moved_past(w0.start, k, i) || i == index) by {
                    lemma_clear_step(w0.start, k, i);
                }
                assert forall|i: int| 0 <= i < 1024 implies self@.slots[i] == cleared(w0, (k + 1) as nat).slots[i] by {
                    if i == index {
                    } else {
                        assert(before[i] == cleared(w0, k).slots[i]);
                    }
                }
                k = k + 1;
                assert(self@.slots =~= cleared(w0, k).slots);
            }
        }
        proof {
            assert forall|i: int| 0 <= i < self@.slots.len() implies (#[trigger] self@.slots[i]).entry.max_chunks
                <= MAX_CHUNK_COUNT by {
                assert(self@.slots[i] == cleared(w0, k).slots[i]);
            }
        }
    }

    /// Make `sequence` own its slot; a slot that holds another sequence is reset for it.
    fn entry(&mut self, sequence: u16) -> (i: usize)
        requires
            old(self).wf(),
        ensures
            final(self).wf(),
            final(self)@ == entered(old(self)@, sequence),
            i == slot_index(sequence),
    {
        let index = Self::index(sequence);
        let held = self.slots[index].sequence;
        let owned = match held {
            Some(seq) => seq == sequence,
            None => false,
        };
        if !owned {
            let mut slot = Slot::default();
            slot.sequence = Some(sequence);
            let ghost before = self@.slots;
            self.slots.set(index, slot);
            proof {
                assert(self@.slots =~= before.update(index as int, SlotView { sequence: Some(sequence), entry: empty_sequence(), complete: false }));
            }
        } else {
            proof {
                assert(self@.slots[index as int].sequence == Some(sequence));
            }
        }
        index
    }

    /// Insert a chunk into its sequence; returns the sequence's payload once it is complete.
    ///
    /// The window first moves so that the chunk's sequence falls inside it. A chunk of a
    /// sequence that was already delivered is ignored.
    pub fn insert(&mut self, header: Header, body: &[u8]) -> (r: Result<Option<IncomingPayload>, Error>)
        requires
            old(self).wf(),
            header.chunk < MAX_CHUNK_COUNT,
        ensures
            final(self).wf(),
            (delivered(r), final(self)@) == window_insert(old(self)@, header, body@),
    {
        self.clear_complete(header.seq);
        let index = self.entry(header.seq);
        let ghost w1 = self@;
        if self.slots[index].complete {
            return Ok(None);
        }
        let mut slot = Slot::default();
        std::mem::swap(&mut slot, &mut self.slots[index]);
        let ghost taken = slot@;
        assert(taken == w1.slots[index as int]);
        let result = (&mut *slot.entry).insert_chunk(header, body);
        match result {
            Err(e) => {
                self.slots.set(index, slot);
                proof {
                    assert(self@.slots =~= w1.slots);
                }
                Err(Error::ReconstructPayload(e))
            },
            Ok(()) => {
                if slot.entry.is_complete() {
                    slot.complete = true;
                    let mut done = Box::new(Sequence::new());
                    std::mem::swap(&mut done, &mut slot.entry);
                    self.slots.set(index, slot);
                    let bytes = (*done).payload();
                    proof {
                        assert(self@.slots =~= w1.slots.update(index as int, SlotView { sequence: taken.sequence, entry: empty_sequence(), complete: true }));
                    }
                    Ok(Some(IncomingPayload { bytes }))
                } else {
                    let ghost s = slot.entry@;
                    self.slots.set(index, slot);
                    proof {
                        assert(self@.slots =~= w1.slots.update(index as int, SlotView { entry: s, ..taken }));
                    }
                    Ok(None)
                }
            },
        }
    }
}


proof fn lemma_offset_after_move(start: u16, seq: u16, n: nat)
    requires
        n <= window_offset(start, seq),
    ensures
        window_offset(((start + n) % 0x1_0000) as u16, seq) == window_offset(start, seq) - n,
{
    let o = window_offset(start, seq);
    let s2 = (start + n) % 0x1_0000;
    vstd::arithmetic::div_mod::lemma_fundamental_div_mod((seq - start) as int, 0x1_0000);
    vstd::arithmetic::div_mod::lemma_fundamental_div_mod((start + n) as int, 0x1_0000);
    let q1 = (seq - start) / 0x1_0000;
    let q2 = (start + n) / 0x1_0000;
    assert(seq - s2 == (o - n) + 0x1_0000 * (q1 + q2)) by (nonlinear_arith)
        requires
            seq - start == 0x1_0000 * q1 + o,
            start + n == 0x1_0000 * q2 + s2,
    ;
    vstd::arithmetic::div_mod::lemma_mod_multiples_vanish(q1 + q2, o - n, 0x1_0000);
    vstd::arithmetic::div_mod::lemma_small_mod((o - n) as nat, 0x1_0000);
}

/// After a chunk is inserted, its sequence lies inside the window.
pub proof fn lemma_insert_in_window(w: WindowView, header: Header, body: Seq<u8>)
    ensures
        window_offset(window_insert(w, header, body).1.start, header.seq) < 1024,
{
    let n = clear_count(w.start, header.seq);
    if window_offset(w.start, header.seq) >= 1024 {
        lemma_offset_after_move(w.start, header.seq, n);
    } else {
        lemma_offset_after_move(w.start, header.seq, 0);
    }
}

/// A payload is delivered once: after a chunk completes its sequence, any further chunk of that
/// sequence is ignored and leaves the window as it is.
pub proof fn lemma_delivered_once(w: WindowView, header: Header, body: Seq<u8>, later: Header, later_body: Seq<u8>)
    requires
        window_wf(w),
        window_insert(w, header, body).0 matches Ok(Some(_)),
        later.seq == header.seq,
    ensures
        window_insert(window_insert(w, header, body).1, later, later_body) == (
            Ok::<Option<Seq<u8>>, Error>(None),
            window_insert(w, header, body).1,
        ),
{
    let w2 = window_insert(w, header, body).1;
    lemma_insert_in_window(w, header, body);
    assert(clear_count(w2.start, later.seq) == 0);
    let c = cleared(w2, 0);
    assert(c.start == w2.start);
    assert(c.slots =~= w2.slots);
    assert(c == w2);
    assert(entered(c, later.seq) == w2);
}

/// The window moves as little as it can: a chunk of a sequence inside the window leaves its start
/// where it was, and a chunk of a sequence beyond it moves the start to the 1023rd sequence before
/// the chunk's, so that the chunk's sequence is the last of the window.
pub proof fn lemma_window_moves_minimally(w: WindowView, header: Header, body: Seq<u8>)
    ensures
        window_offset(w.start, header.seq) < 1024 ==> window_insert(w, header, body).1.start == w.start,
        window_offset(w.start, header.seq) >= 1024 ==> window_offset(
            window_insert(w, header, body).1.start,
            header.seq,
        ) == 1023,
{
    let n = clear_count(w.start, header.seq);
    assert(window_insert(w, header, body).1.start == cleared(w, n).start);
    if window_offset(w.start, header.seq) >= 1024 {
        lemma_offset_after_move(w.start, header.seq, n);
    } else {
        assert((w.start + 0) % 0x1_0000 == w.start);
    }
}

proof fn lemma_recent_sequence(start: u16, q: u16, cur: u16)
    requires
        window_offset(start, q) < 1024,
        1 <= window_offset(q, cur) <= 1023,
    ensures
        window_offset(start, cur) == window_offset(start, q) + window_offset(q, cur),
        (slot_index(q) - start) % 1024 == window_offset(start, q),
        slot_index(q) != slot_index(cur),
{
    let a = window_offset(start, q);
    let d = window_offset(q, cur);
    vstd::arithmetic::div_mod::lemma_fundamental_div_mod((q - start) as int, 0x1_0000);
    vstd::arithmetic::div_mod::lemma_fundamental_div_mod((cur - q) as int, 0x1_0000);
    let k1 = (q - start) / 0x1_0000;
    let k2 = (cur - q) / 0x1_0000;
    assert(cur - start == (a + d) + 0x1_0000 * (k1 + k2)) by (nonlinear_arith)
        requires
            q - start == 0x1_0000 * k1 + a,
            cur - q == 0x1_0000 * k2 + d,
    ;
    vstd::arithmetic::div_mod::lemma_mod_multiples_vanish(k1 + k2, a + d, 0x1_0000);
    vstd::arithmetic::div_mod::lemma_small_mod((a + d) as nat, 0x1_0000);
    vstd::arithmetic::div_mod::lemma_fundamental_div_mod(q as int, 1024);
    vstd::arithmetic::div_mod::lemma_fundamental_div_mod(cur as int, 1024);
    let jq = q as int / 1024;
    let jc = cur as int / 1024;
    assert(slot_index(q) - start == a + 1024 * (64 * k1 - jq)) by (nonlinear_arith)
        requires
            q - start == 0x1_0000 * k1 + a,
            q == 1024 * jq + slot_index(q),
    ;
    vstd::arithmetic::div_mod::lemma_mod_multiples_vanish(64 * k1 - jq, a, 1024);
    vstd::arithmetic::div_mod::lemma_small_mod(a as nat, 1024);
    if slot_index(q) == slot_index(cur) {
        assert(d == 1024 * (jc - jq - 64 * k2)) by (nonlinear_arith)
            requires
                cur - q == 0x1_0000 * k2 + d,
                q == 1024 * jq + slot_index(q),
                cur == 1024 * jc + slot_index(cur),
                slot_index(q) == slot_index(cur),
        ;
        assert(false) by (nonlinear_arith)
            requires
                d == 1024 * (jc - jq - 64 * k2),
                1 <= d <= 1023,
        ;
    }
}

/// A chunk leaves alone every sequence of the window among the 1023 before its own: their slots,
/// with what they hold and whether they were delivered, stay as they were. So a delivered payload
/// of such a sequence is never delivered again, whatever other sequences arrive in between.
pub proof fn lemma_window_keeps_recent(w: WindowView, header: Header, body: Seq<u8>, q: u16)
    requires
        window_wf(w),
        window_offset(w.start, q) < 1024,
        1 <= window_offset(q, header.seq) <= 1023,
    ensures
        window_insert(w, header, body).1.slots[slot_index(q)] == w.slots[slot_index(q)],
        window_insert(w, header, body).1.slots.len() == w.slots.len(),
{
    lemma_recent_sequence(w.start, q, header.seq);
    let n = clear_count(w.start, header.seq);
    let iq = slot_index(q);
    assert(!moved_past(w.start, n, iq));
    assert(cleared(w, n).slots[iq] == w.slots[iq]);
    let w1 = entered(cleared(w, n), header.seq);
    assert(w1.slots[iq] == w.slots[iq]);
    assert(w1.slots.len() == w.slots.len());
}


impl OutgoingPayload {
    /// A payload to send with the given delivery: reliable payloads need acknowledgements.
    pub fn new(bytes: Vec<u8>, delivery: Delivery) -> (p: OutgoingPayload)
        ensures
            p.bytes@ == bytes@,
            p.needs_ack == (delivery is Reliable),
    {
        let needs_ack = match delivery {
            Delivery::Reliable => true,
            Delivery::BestEffort => false,
        };
        OutgoingPayload { bytes, needs_ack }
    }
}

/// The header that chunk `i` of a payload of `len` bytes is sent with: the chunk's header,
/// flagged for acknowledgement when the payload needs it.
pub open spec fn framed_header(seq: u16, len: nat, i: int, needs_ack: bool) -> Header {
    let h = chunk_header(seq, len, i);
    Header { flags: Flags { needs_ack, ..h.flags }, ..h }
}

/// The packet that carries chunk `i` of payload `p`: its header's bytes, then the chunk.
pub open spec fn frame(seq: u16, p: Seq<u8>, i: int, needs_ack: bool) -> Seq<u8> {
    header_bytes(framed_header(seq, p.len(), i, needs_ack)) + chunk_bytes(p, i)
}

/// Split a payload into the packets that carry it, under sequence number `sequence`.
pub fn frame_payload(sequence: u16, payload: &OutgoingPayload) -> (r: Result<Vec<Vec<u8>>, Error>)
    ensures
        payload.bytes@.len() > MAX_PAYLOAD_SIZE <==> r is Err,
        r matches Err(e) ==> e == Error::SplitPayload(packet::Error::PayloadLimitExceeded),
        r matches Ok(frames) ==> {
            &&& frames@.len() == chunk_count(payload.bytes@.len())
            &&& forall|i: int|
                0 <= i < frames@.len() ==> (#[trigger] frames@[i])@ == frame(sequence, payload.bytes@, i, payload.needs_ack)
        },
{
    let chunks = match into_chunks(sequence, payload.bytes.as_slice()) {
        Ok(chunks) => chunks,
        Err(e) => return Err(Error::SplitPayload(e)),
    };
    let ghost p = payload.bytes@;
    let mut frames: Vec<Vec<u8>> = Vec::new();
    let mut i: usize = 0;
    while i < chunks.len()
        invariant
            p == payload.bytes@,
            chunks@.len() == chunk_count(p.len()),
            forall|j: int|
                0 <= j < chunks@.len() ==> (#[trigger] chunks@[j]).0 == chunk_header(sequence, p.len(), j)
                    && chunks@[j].1@ == chunk_bytes(p, j),
            i <= chunks@.len(),
            frames@.len() == i,
            forall|j: int| 0 <= j < i ==> (#[trigger] frames@[j])@ == frame(sequence, p, j, payload.needs_ack),
        decreases chunks@.len() - i,
    {
        let (mut header, body) = chunks[i];
        if payload.needs_ack {
            header.flags.insert(Flags::needs_ack_flag());
        }
        proof {
            assert(header == framed_header(sequence, p.len(), i as int, payload.needs_ack));
        }
        let bytes = header.serialize();
        let mut buffer: Vec<u8> = Vec::new();
        buffer.push(bytes[0]);
        buffer.push(bytes[1]);
        buffer.push(bytes[2]);
        buffer.push(bytes[3]);
        let mut k: usize = 0;
        while k < body.len()
            invariant
                buffer@.len() == 4 + k,
                k <= body@.len(),
                forall|j: int| 0 <= j < 4 ==> buffer@[j] == bytes@[j],
                forall|j: int| 0 <= j < k ==> buffer@[4 + j] == body@[j],
            decreases body@.len() - k,
        {
            buffer.push(body[k]);
            k = k + 1;
        }
        proof {
            assert(buffer@ =~= header_bytes(header) + body@);
        }
        frames.push(buffer);
        i = i + 1;
    }
    Ok(frames)
}

/// The header that acknowledges a packet, when the packet asks for one.
pub fn ack_for(header: Header) -> (r: Option<Header>)
    ensures
        r == (if header.flags.needs_ack {
            Some(Header { flags: Flags { needs_ack: false, ack: true, last_chunk: true }, chunk: header.chunk, seq: header.seq })
        } else {
            None::<Header>
        }),
{
    if header.needs_ack() {
        Some(Header::ack(header.seq, header.chunk))
    } else {
        None
    }
}

/// A packet made by `frame_payload` is read back by `Header::extract` as the chunk's header and
/// the chunk's bytes.
pub proof fn lemma_frame_round_trip(seq: u16, p: Seq<u8>, i: int, needs_ack: bool)
    ensures
        frame(seq, p, i, needs_ack).len() >= 4,
        header_from_bytes(frame(seq, p, i, needs_ack)) == framed_header(seq, p.len(), i, needs_ack),
        frame(seq, p, i, needs_ack).skip(4) == chunk_bytes(p, i),
{
    let h = framed_header(seq, p.len(), i, needs_ack);
    let f = frame(seq, p, i, needs_ack);
    lemma_header_round_trip(h);
    assert(f.subrange(0, 4) =~= header_bytes(h));
    assert(header_from_bytes(f) == header_from_bytes(header_bytes(h)));
    assert(f.skip(4) =~= chunk_bytes(p, i));
}


/// The window after the packets of payload `p`, framed as sequence `seq`, arrived with their
/// chunks in `order`, and what each insert returned.
pub open spec fn window_after_chunks(w: WindowView, seq: u16, p: Seq<u8>, needs_ack: bool, order: Seq<int>) -> (
    WindowView,
    Seq<Result<Option<Seq<u8>>, Error>>,
)
    decreases order.len(),
{
    if order.len() == 0 {
        (w, Seq::empty())
    } else {
        let (w1, outs) = window_after_chunks(w, seq, p, needs_ack, order.drop_last());
        let i = order.last();
        let (r, w2) = window_insert(w1, framed_header(seq, p.len(), i, needs_ack), chunk_bytes(p, i));
        (w2, outs.push(r))
    }
}

/// What the window holds of sequence `seq` after some of its chunks arrived, and what each
/// insert returned: the payload came out once, when the last missing chunk arrived.
spec fn window_state(w: WindowView, seq: u16, p: Seq<u8>, order: Seq<int>, outs: Seq<Result<Option<Seq<u8>>, Error>>) -> bool {
    let i = slot_index(seq);
    &&& w.slots.len() == SEQUENCE_BUFFER_SIZE
    &&& window_offset(w.start, seq) < 1024
    &&& w.slots[i].sequence == Some(seq)
    &&& w.slots[i].complete == covers(order, p.len())
    &&& !covers(order, p.len()) ==> w.slots[i].entry == after_chunks(seq, p, order)
    &&& outs.len() == order.len()
    &&& forall|k: int| 0 <= k < order.len() ==> #[trigger] outs[k] == Ok::<Option<Seq<u8>>, Error>(delivers_at(order, p, k))
}

/// The chunk's framed header is accepted like its plain one, and inserts the same way.
proof fn lemma_framed_like_plain(seq: u16, p: Seq<u8>, c: int, needs_ack: bool, s: SequenceView)
    requires
        p.len() <= MAX_PAYLOAD_SIZE,
        0 <= c < chunk_count(p.len()),
    ensures
        insert_error(framed_header(seq, p.len(), c, needs_ack), chunk_bytes(p, c)) is None,
        inserted(s, framed_header(seq, p.len(), c, needs_ack), chunk_bytes(p, c)) == inserted(
            s,
            chunk_header(seq, p.len(), c),
            chunk_bytes(p, c),
        ),
        framed_header(seq, p.len(), c, needs_ack).seq == seq,
{
    lemma_chunks_accepted(seq, p, c);
}

proof fn lemma_first_chunk(w: WindowView, seq: u16, p: Seq<u8>, needs_ack: bool, order: Seq<int>)
    requires
        w.slots.len() == SEQUENCE_BUFFER_SIZE,
        w.slots[slot_index(seq)].sequence != Some(seq),
        1 <= p.len() <= MAX_PAYLOAD_SIZE,
        order.len() == 1,
        0 <= order[0] < chunk_count(p.len()),
    ensures
        window_state(window_after_chunks(w, seq, p, needs_ack, order).0, seq, p, order, window_after_chunks(w, seq, p, needs_ack, order).1),
{
    let c = order[0];
    let si = slot_index(seq);
    let h = framed_header(seq, p.len(), c, needs_ack);
    let body = chunk_bytes(p, c);
    lemma_framed_like_plain(seq, p, c, needs_ack, empty_sequence());
    lemma_reassembly(seq, p, order);
    assert(order.drop_last() =~= Seq::<int>::empty());
    assert(after_chunks(seq, p, order.drop_last()) == empty_sequence());
    assert(order.last() == c);
    lemma_insert_in_window(w, h, body);
    let w0 = cleared(w, clear_count(w.start, seq));
    assert(w0.slots[si].sequence != Some(seq));
    let w1 = entered(w0, seq);
    assert(w1.slots[si] == SlotView { sequence: Some(seq), entry: empty_sequence(), complete: false });
    assert(after_chunks(seq, p, order) == inserted(empty_sequence(), chunk_header(seq, p.len(), c), body));
    assert(order.take(0) =~= Seq::<int>::empty());
    assert(order.take(1) =~= order);
    assert(!covers(order.take(0), p.len())) by {
        assert(!order.take(0).contains(0));
    }
    assert(covers(order, p.len()) <==> is_complete_spec(after_chunks(seq, p, order)));
    assert(window_after_chunks(w, seq, p, needs_ack, order.drop_last()) == (w, Seq::<Result<Option<Seq<u8>>, Error>>::empty()));
    let (w2, outs) = window_after_chunks(w, seq, p, needs_ack, order);
    assert(outs[0] == Ok::<Option<Seq<u8>>, Error>(delivers_at(order, p, 0)));
}

proof fn lemma_next_chunk(w: WindowView, seq: u16, p: Seq<u8>, needs_ack: bool, order: Seq<int>)
    requires
        1 <= p.len() <= MAX_PAYLOAD_SIZE,
        order.len() >= 2,
        forall|k: int| 0 <= k < order.len() ==> 0 <= #[trigger] order[k] < chunk_count(p.len()),
        window_state(
            window_after_chunks(w, seq, p, needs_ack, order.drop_last()).0,
            seq,
            p,
            order.drop_last(),
            window_after_chunks(w, seq, p, needs_ack, order.drop_last()).1,
        ),
    ensures
        window_state(window_after_chunks(w, seq, p, needs_ack, order).0, seq, p, order, window_after_chunks(w, seq, p, needs_ack, order).1),
{
    let rest = order.drop_last();
    let c = order.last();
    let n = chunk_count(p.len());
    let si = slot_index(seq);
    let h = framed_header(seq, p.len(), c, needs_ack);
    let body = chunk_bytes(p, c);
    let (w1, outs1) = window_after_chunks(w, seq, p, needs_ack, rest);
    let (w2, outs) = window_after_chunks(w, seq, p, needs_ack, order);
    lemma_framed_like_plain(seq, p, c, needs_ack, w1.slots[si].entry);
    assert(clear_count(w1.start, seq) == 0);
    let c1 = cleared(w1, 0);
    assert(c1.slots =~= w1.slots);
    assert(c1 == w1);
    assert(entered(w1, seq) == w1);
    lemma_reassembly(seq, p, order);
    assert forall|i: int| 0 <= i < n implies (#[trigger] order.contains(i) <==> (rest.contains(i) || c == i)) by {
        lemma_contains_push(order, i);
    }
    assert(order.take(order.len() - 1) =~= rest);
    assert(order.take(order.len() as int) =~= order);
    if covers(rest, p.len()) {
        assert(covers(order, p.len()));
    }
    assert(outs =~= outs1.push(window_insert(w1, h, body).0));
    assert forall|k: int| 0 <= k < order.len() implies #[trigger] outs[k] == Ok::<Option<Seq<u8>>, Error>(delivers_at(order, p, k)) by {
        if k < rest.len() {
            lemma_delivers_prefix(order, p, k);
            assert(outs[k] == outs1[k]);
        }
    }
}

proof fn lemma_window_chunks_state(w: WindowView, seq: u16, p: Seq<u8>, needs_ack: bool, order: Seq<int>)
    requires
        w.slots.len() == SEQUENCE_BUFFER_SIZE,
        w.slots[slot_index(seq)].sequence != Some(seq),
        1 <= p.len() <= MAX_PAYLOAD_SIZE,
        forall|k: int| 0 <= k < order.len() ==> 0 <= #[trigger] order[k] < chunk_count(p.len()),
        order.len() >= 1,
    ensures
        window_state(window_after_chunks(w, seq, p, needs_ack, order).0, seq, p, order, window_after_chunks(w, seq, p, needs_ack, order).1),
    decreases order.len(),
{
    if order.len() == 1 {
        lemma_first_chunk(w, seq, p, needs_ack, order);
    } else {
        let rest = order.drop_last();
        assert forall|k: int| 0 <= k < rest.len() implies 0 <= #[trigger] rest[k] < chunk_count(p.len()) by {
            assert(rest[k] == order[k]);
        }
        lemma_window_chunks_state(w, seq, p, needs_ack, rest);
        lemma_next_chunk(w, seq, p, needs_ack, order);
    }
}

/// The packets of a payload, framed as a new sequence, deliver the payload through the window
/// exactly once, whatever order and repetitions they arrive in: each insert returns nothing
/// until the one that brings the last missing chunk, which returns the payload.
pub proof fn lemma_window_reassembly(w: WindowView, seq: u16, p: Seq<u8>, needs_ack: bool, order: Seq<int>)
    requires
        w.slots.len() == SEQUENCE_BUFFER_SIZE,
        w.slots[slot_index(seq)].sequence != Some(seq),
        1 <= p.len() <= MAX_PAYLOAD_SIZE,
        forall|k: int| 0 <= k < order.len() ==> 0 <= #[trigger] order[k] < chunk_count(p.len()),
    ensures
        window_after_chunks(w, seq, p, needs_ack, order).1.len() == order.len(),
        forall|k: int|
            0 <= k < order.len() ==> #[trigger] window_after_chunks(w, seq, p, needs_ack, order).1[k] == Ok::<Option<Seq<u8>>, Error>(delivers_at(order, p, k)),
{
    if order.len() >= 1 {
        lemma_window_chunks_state(w, seq, p, needs_ack, order);
    }
}

} // verus!
