//! The packet layer: payloads split into numbered chunks, each sent behind a small header,
//! and the chunks of a sequence put back together in whatever order they arrive.
use vstd::prelude::*;
use vstd::set_lib::{set_int_range, lemma_int_range, lemma_len_subset, lemma_subset_equality};
use std::collections::HashMap;

verus! {

/// What splitting or reassembling payloads can fail with.
#[derive(Debug, Copy, Clone)]
pub enum Error {
    /// The payload needs more chunks than a chunk id can number.
    PayloadLimitExceeded,
    /// A chunk is longer than a chunk may be; its length is given.
    ChunkSizeExceeded { actual: usize },
    /// A chunk other than the last one is shorter than a full chunk; its length is given.
    ChunkNotFull { actual: usize },
    /// A packet is too short to hold a header.
    MissingHeader,
}

/// The maximum number of chunks in a sequence.
pub const MAX_CHUNK_COUNT: usize = 255;

/// The size of the packet header, in bytes.
pub const HEADER_SIZE: usize = 4;

/// The maximum size (in bytes) of a chunk's payload: what remains of the smallest MTU (576
/// bytes) after the largest IP header (60 bytes), the UDP header (8 bytes) and the packet
/// header.
pub const MAX_CHUNK_SIZE: usize = 508 - HEADER_SIZE;

/// The maximum size of a payload. A payload with more bytes can not be split into chunks.
pub const MAX_PAYLOAD_SIZE: usize = MAX_CHUNK_COUNT * MAX_CHUNK_SIZE;

/// The flags of a packet.
#[derive(Debug, Copy, Clone, PartialEq, Eq, Structural)]
pub struct Flags {
    /// This packet needs to be acknowledged by the receiver.
    pub needs_ack: bool,
    /// This packet acknowledges another.
    pub ack: bool,
    /// This is the last chunk of the message.
    pub last_chunk: bool,
}

impl Flags {
    /// No flag set.
    pub fn empty() -> (f: Flags)
        ensures
            !f.needs_ack && !f.ack && !f.last_chunk,
    {
        Flags { needs_ack: false, ack: false, last_chunk: false }
    }

    /// Only `needs_ack`.
    pub fn needs_ack_flag() -> (f: Flags)
        ensures
            f.needs_ack && !f.ack && !f.last_chunk,
    {
        Flags { needs_ack: true, ack: false, last_chunk: false }
    }

    /// Only `ack`.
    pub fn ack_flag() -> (f: Flags)
        ensures
            !f.needs_ack && f.ack && !f.last_chunk,
    {
        Flags { needs_ack: false, ack: true, last_chunk: false }
    }

    /// Only `last_chunk`.
    pub fn last_chunk_flag() -> (f: Flags)
        ensures
            !f.needs_ack && !f.ack && f.last_chunk,
    {
        Flags { needs_ack: false, ack: false, last_chunk: true }
    }

    /// The flags as a byte: `needs_ack` is bit 0, `ack` bit 1 and `last_chunk` bit 2.
    pub fn bits(&self) -> (b: u8)
        ensures
            b == flag_bits(*self),
    {
        (if self.needs_ack { 1u8 } else { 0 }) + (if self.ack { 2u8 } else { 0 }) + (if self.last_chunk { 4u8 } else { 0 })
    }

    /// The flags whose bits are set in `bits`; other bits are dropped.
    pub fn from_bits_truncate(bits: u8) -> (f: Flags)
        ensures
            f == flags_from_bits(bits),
    {
        Flags { needs_ack: bits % 2 == 1, ack: (bits / 2) % 2 == 1, last_chunk: (bits / 4) % 2 == 1 }
    }

    /// Whether every flag of `other` is set here.
    pub fn contains(&self, other: Flags) -> (r: bool)
        ensures
            r == ((other.needs_ack ==> self.needs_ack) && (other.ack ==> self.ack) && (other.last_chunk
                ==> self.last_chunk)),
    {
        (!other.needs_ack || self.needs_ack) && (!other.ack || self.ack) && (!other.last_chunk || self.last_chunk)
    }

    /// Set every flag of `other`.
    pub fn insert(&mut self, other: Flags)
        ensures
            *final(self) == old(self).union_spec(other),
    {
        self.needs_ack = self.needs_ack || other.needs_ack;
        self.ack = self.ack || other.ack;
        self.last_chunk = self.last_chunk || other.last_chunk;
    }

    /// The flags set in either.
    pub fn union(self, other: Flags) -> (f: Flags)
        ensures
            f == self.union_spec(other),
    {
        Flags {
            needs_ack: self.needs_ack || other.needs_ack,
            ack: self.ack || other.ack,
            last_chunk: self.last_chunk || other.last_chunk,
        }
    }

    /// The flags set in either.
    pub open spec fn union_spec(self, other: Flags) -> Flags {
        Flags {
            needs_ack: self.needs_ack || other.needs_ack,
            ack: self.ack || other.ack,
            last_chunk: self.last_chunk || other.last_chunk,
        }
    }
}

/// The byte that holds the flags.
pub open spec fn flag_bits(f: Flags) -> u8 {
    ((if f.needs_ack { 1int } else { 0 }) + (if f.ack { 2int } else { 0 }) + (if f.last_chunk { 4int } else { 0 })) as u8
}

/// The flags held by a byte.
pub open spec fn flags_from_bits(bits: u8) -> Flags {
    Flags { needs_ack: bits % 2 == 1, ack: (bits / 2) % 2 == 1, last_chunk: (bits / 4) % 2 == 1 }
}

/// The header of every packet.
#[derive(Debug, Copy, Clone)]
pub struct Header {
    pub flags: Flags,
    pub chunk: u8,
    pub seq: u16,
}

/// The four bytes of a header: flags, chunk id, then the sequence number, high byte first.
pub open spec fn header_bytes(h: Header) -> Seq<u8> {
    seq![flag_bits(h.flags), h.chunk, (h.seq / 256) as u8, (h.seq % 256) as u8]
}

/// The header held by four bytes.
pub open spec fn header_from_bytes(b: Seq<u8>) -> Header {
    Header { flags: flags_from_bits(b[0]), chunk: b[1], seq: (b[2] * 256 + b[3]) as u16 }
}

impl Header {
    /// A header for chunk `chunk` of sequence `seq`, with no flag set.
    pub fn new(seq: u16, chunk: u8) -> (h: Header)
        ensures
            h == (Header { flags: Flags { needs_ack: false, ack: false, last_chunk: false }, chunk, seq }),
    {
        Header { flags: Flags::empty(), seq, chunk }
    }

    /// The header that acknowledges chunk `chunk` of sequence `seq`.
    pub fn ack(seq: u16, chunk: u8) -> (h: Header)
        ensures
            h == (Header { flags: Flags { needs_ack: false, ack: true, last_chunk: true }, chunk, seq }),
    {
        Header { flags: Flags::ack_flag().union(Flags::last_chunk_flag()), seq, chunk }
    }

    /// Whether the packet must be acknowledged.
    pub fn needs_ack(self) -> (r: bool)
        ensures
            r == self.flags.needs_ack,
    {
        self.flags.contains(Flags::needs_ack_flag())
    }

    /// Whether the packet acknowledges another.
    pub fn is_ack(self) -> (r: bool)
        ensures
            r == self.flags.ack,
    {
        self.flags.contains(Flags::ack_flag())
    }

    /// The header as bytes.
    pub fn serialize(self) -> (b: [u8; 4])
        ensures
            b@ == header_bytes(self),
    {
        let hi = (self.seq / 256) as u8;
        let lo = (self.seq % 256) as u8;
        let b = [self.flags.bits(), self.chunk, hi, lo];
        proof {
            assert(b@ =~= header_bytes(self));
        }
        b
    }

    /// The header that four bytes hold.
    pub fn deserialize(bytes: [u8; 4]) -> (h: Header)
        ensures
            h == header_from_bytes(bytes@),
    {
        let seq = (bytes[2] as u16) * 256 + bytes[3] as u16;
        Header { flags: Flags::from_bits_truncate(bytes[0]), chunk: bytes[1], seq }
    }

    /// The header at the front of a packet, and the bytes after it.
    pub fn extract(bytes: &[u8]) -> (r: Result<(Header, &[u8]), Error>)
        ensures
            bytes@.len() < 4 ==> (r matches Err(e) && e is MissingHeader),
            bytes@.len() >= 4 ==> (r matches Ok((h, rest)) && h == header_from_bytes(bytes@) && rest@
                == bytes@.skip(4)),
    {
        if bytes.len() < 4 {
            Err(Error::MissingHeader)
        } else {
            let (header, rest) = bytes.split_at(4);
            let h = Header::deserialize([header[0], header[1], header[2], header[3]]);
            Ok((h, rest))
        }
    }
}

/// Flags survive being written as their byte and read back.
pub proof fn lemma_flags_round_trip(f: Flags)
    ensures
        flags_from_bits(flag_bits(f)) == f,
{
}

/// A header survives being written as bytes and read back.
pub proof fn lemma_header_round_trip(h: Header)
    ensures
        header_from_bytes(header_bytes(h)) == h,
{
    lemma_flags_round_trip(h.flags);
}


/// How many chunks a payload of `len` bytes is split into.
pub open spec fn chunk_count(len: nat) -> nat {
    ((len + 503) / 504) as nat
}

/// Where chunk `i` starts in the payload.
pub open spec fn chunk_start(i: int) -> int {
    i * 504
}

/// Where chunk `i` of a payload of `len` bytes ends: after a full chunk, or at the payload's end.
pub open spec fn chunk_end(len: nat, i: int) -> int {
    if (i + 1) * 504 < len { (i + 1) * 504 } else { len as int }
}

/// The bytes of chunk `i` of payload `p`.
pub open spec fn chunk_bytes(p: Seq<u8>, i: int) -> Seq<u8> {
    p.subrange(chunk_start(i), chunk_end(p.len(), i))
}

/// The header sent with chunk `i` of a payload of `len` bytes in sequence `seq`: only the
/// last chunk carries a flag.
pub open spec fn chunk_header(seq: u16, len: nat, i: int) -> Header {
    Header {
        flags: Flags { needs_ack: false, ack: false, last_chunk: i + 1 == chunk_count(len) },
        chunk: i as u8,
        seq,
    }
}

proof fn lemma_chunk_bounds(len: nat, i: int)
    requires
        0 <= i < chunk_count(len),
    ensures
        chunk_start(i) < chunk_end(len, i) <= len,
        chunk_end(len, i) - chunk_start(i) <= 504,
        (i + 1 == chunk_count(len)) <==> chunk_end(len, i) == len,
        i + 1 < chunk_count(len) ==> chunk_end(len, i) - chunk_start(i) == 504,
{
}

/// Split a payload into a sequence of chunks: full chunks of `MAX_CHUNK_SIZE` bytes and a last
/// one with the rest, each with its header; the last one is flagged as such.
pub fn into_chunks(sequence: u16, payload: &[u8]) -> (r: Result<Vec<(Header, &[u8])>, Error>)
    ensures
        payload@.len() > MAX_PAYLOAD_SIZE <==> r is Err,
        r matches Err(e) ==> e is PayloadLimitExceeded,
        r matches Ok(v) ==> {
            &&& v@.len() == chunk_count(payload@.len())
            &&& forall|i: int|
                0 <= i < v@.len() ==> (#[trigger] v@[i]).0 == chunk_header(sequence, payload@.len(), i)
                    && v@[i].1@ == chunk_bytes(payload@, i)
        },
{
    let len = payload.len();
    if len > MAX_PAYLOAD_SIZE {
        return Err(Error::PayloadLimitExceeded);
    }
    let mut chunks: Vec<(Header, &[u8])> = Vec::new();
    let mut start: usize = 0;
    let mut index: usize = 0;
    while start < len
        invariant
            len == payload@.len(),
            len <= MAX_PAYLOAD_SIZE,
            start == (if index * 504 <= len { index * 504 } else { len as int }),
            start <= len,
            index <= chunk_count(len as nat),
            start < len ==> index < chunk_count(len as nat),
            start == len ==> index == chunk_count(len as nat),
            chunks@.len() == index,
            forall|i: int|
                0 <= i < index ==> (#[trigger] chunks@[i]).0 == chunk_header(sequence, len as nat, i)
                    && chunks@[i].1@ == chunk_bytes(payload@, i),
        decreases len - start,
    {
        proof {
            lemma_chunk_bounds(len as nat, index as int);
        }
        let end = if len - start > 504 { start + 504 } else { len };
        let last = end == len;
        let header = Header {
            flags: Flags { needs_ack: false, ack: false, last_chunk: last },
            chunk: index as u8,
            seq: sequence,
        };
        chunks.push((header, vstd::slice::slice_subrange(payload, start, end)));
        start = end;
        index = index + 1;
    }
    Ok(chunks)
}


/// A sequence of chunks that is being partially constructed by packets.
#[derive(Clone)]
pub struct Sequence {
    max_chunks: usize,
    payload: Vec<u8>,
    received: [bool; MAX_CHUNK_COUNT],
}

/// What a sequence holds: how many chunks it expects (all it can hold until the last one
/// arrives), the payload so far, and which chunks have arrived.
pub struct SequenceView {
    pub max_chunks: nat,
    pub payload: Seq<u8>,
    pub received: Seq<bool>,
}

impl View for Sequence {
    type V = SequenceView;

    closed spec fn view(&self) -> SequenceView {
        SequenceView { max_chunks: self.max_chunks as nat, payload: self.payload@, received: self.received@ }
    }
}

/// A sequence before any chunk arrived.
pub open spec fn empty_sequence() -> SequenceView {
    SequenceView { max_chunks: 255, payload: Seq::empty(), received: Seq::new(255, |i: int| false) }
}

/// Every expected chunk has arrived.
pub open spec fn is_complete_spec(s: SequenceView) -> bool {
    forall|i: int| 0 <= i < s.max_chunks ==> #[trigger] s.received[i]
}

/// `payload` with `chunk` written at `start`, grown with zeros first where it is too short.
pub open spec fn placed(payload: Seq<u8>, start: int, chunk: Seq<u8>) -> Seq<u8> {
    let end = start + chunk.len();
    let len = if payload.len() < end { end } else { payload.len() as int };
    Seq::new(
        len as nat,
        |k: int|
            if start <= k < end {
                chunk[k - start]
            } else if k < payload.len() {
                payload[k]
            } else {
                0u8
            },
    )
}

/// Why a chunk with this header and these bytes is refused, if it is.
pub open spec fn insert_error(header: Header, chunk: Seq<u8>) -> Option<Error> {
    if chunk.len() > MAX_CHUNK_SIZE {
        Some(Error::ChunkSizeExceeded { actual: chunk.len() as usize })
    } else if !header.flags.last_chunk && chunk.len() != MAX_CHUNK_SIZE {
        Some(Error::ChunkNotFull { actual: chunk.len() as usize })
    } else {
        None
    }
}

/// The sequence after an accepted chunk: the last chunk fixes how many are expected, the chunk
/// is marked as received and its bytes are written at its place in the payload.
pub open spec fn inserted(s: SequenceView, header: Header, chunk: Seq<u8>) -> SequenceView {
    SequenceView {
        max_chunks: if header.flags.last_chunk { header.chunk as nat + 1 } else { s.max_chunks },
        payload: placed(s.payload, chunk_start(header.chunk as int), chunk),
        received: s.received.update(header.chunk as int, true),
    }
}

impl Sequence {
    /// A sequence with no chunk yet.
    pub fn new() -> (s: Sequence)
        ensures
            s@ == empty_sequence(),
    {
        let s = Sequence { max_chunks: MAX_CHUNK_COUNT, payload: Vec::new(), received: [false; MAX_CHUNK_COUNT] };
        proof {
            assert(s@.received =~= empty_sequence().received);
        }
        s
    }

    /// Get the current payload of the sequence.
    pub fn payload(self) -> (p: Vec<u8>)
        ensures
            p@ == self@.payload,
    {
        self.payload
    }

    /// Sets the index of the last expected chunk. This is used to determine if the sequence is
    /// complete or not.
    pub fn set_last_packet(&mut self, chunk: u8)
        ensures
            final(self)@ == (SequenceView { max_chunks: chunk as nat + 1, ..old(self)@ }),
    {
        self.max_chunks = 1 + chunk as usize;
    }

    /// Determines if the sequence is complete.
    pub fn is_complete(&self) -> (r: bool)
        requires
            self@.max_chunks <= MAX_CHUNK_COUNT,
        ensures
            r == is_complete_spec(self@),
    {
        let mut i: usize = 0;
        while i < self.max_chunks
            invariant
                self.max_chunks <= MAX_CHUNK_COUNT,
                i <= self.max_chunks,
                forall|j: int| 0 <= j < i ==> #[trigger] self@.received[j],
            decreases self.max_chunks - i,
        {
            if !self.received[i] {
                assert(!self@.received[i as int]);
                return false;
            }
            i = i + 1;
        }
        true
    }

    /// Returns true if a specific chunk of this sequence has been received.
    pub fn has_received(&self, chunk: u8) -> (r: bool)
        requires
            chunk < MAX_CHUNK_COUNT,
        ensures
            r == self@.received[chunk as int],
    {
        self.received[chunk as usize]
    }

    /// Adds a chunk to the sequence.
    pub fn insert_chunk(&mut self, header: Header, chunk: &[u8]) -> (r: Result<(), Error>)
        requires
            header.chunk < MAX_CHUNK_COUNT,
        ensures
            insert_error(header, chunk@) matches Some(e) ==> r == Err::<(), Error>(e) && final(self)@ == old(self)@,
            insert_error(header, chunk@) is None ==> r is Ok && final(self)@ == inserted(old(self)@, header, chunk@),
    {
        if chunk.len() > MAX_CHUNK_SIZE {
            return Err(Error::ChunkSizeExceeded { actual: chunk.len() });
        }
        if header.flags.last_chunk {
            self.set_last_packet(header.chunk);
        } else if chunk.len() != MAX_CHUNK_SIZE {
            return Err(Error::ChunkNotFull { actual: chunk.len() });
        }
        let chunk_index = header.chunk as usize;
        self.received[chunk_index] = true;
        let insert_start = MAX_CHUNK_SIZE * chunk_index;
        let required_size = insert_start + chunk.len();
        let ghost before = self.payload@;
        let ghost received = self.received@;
        let ghost max_chunks = self.max_chunks;
        assert(received =~= old(self)@.received.update(header.chunk as int, true));
        if self.payload.len() < required_size {
            self.payload.resize(required_size, 0);
        }
        let mut k: usize = 0;
        while k < chunk.len()
            invariant
                insert_start + chunk@.len() == required_size,
                insert_start == chunk_start(header.chunk as int),
                k <= chunk@.len(),
                self.received@ == received,
                self.max_chunks == max_chunks,
                self.payload@.len() == (if before.len() < required_size { required_size as int } else { before.len() as int }),
                forall|j: int| 0 <= j < self.payload@.len() ==> #[trigger] self.payload@[j] == (
                    if insert_start <= j < insert_start + k {
                        chunk@[j - insert_start]
                    } else if j < before.len() {
                        before[j]
                    } else {
                        0u8
                    }),
            decreases chunk.len() - k,
        {
            self.payload.set(insert_start + k, chunk[k]);
            k = k + 1;
        }
        proof {
            assert(self.payload@ =~= placed(before, insert_start as int, chunk@));
        }
        Ok(())
    }
}

/// A sequence keeps one received mark per chunk it can hold.
pub proof fn lemma_received_len(s: &Sequence)
    ensures
        s@.received.len() == MAX_CHUNK_COUNT,
{
}

/// No chunk of a new sequence has been received; an accepted chunk is marked received and
/// every other mark stays as it was.
pub proof fn lemma_received_marks(s: SequenceView, header: Header, chunk: Seq<u8>, x: int)
    requires
        s.received.len() == MAX_CHUNK_COUNT,
        header.chunk < MAX_CHUNK_COUNT,
        0 <= x < MAX_CHUNK_COUNT,
    ensures
        !empty_sequence().received[x],
        inserted(s, header, chunk).received.len() == MAX_CHUNK_COUNT,
        inserted(s, header, chunk).received[header.chunk as int],
        x != header.chunk ==> inserted(s, header, chunk).received[x] == s.received[x],
{
}

impl Default for Sequence {
    fn default() -> (s: Sequence)
        ensures
            s@ == empty_sequence(),
    {
        Sequence::new()
    }
}


/// Builds multiple sequences from an unordered stream.
pub struct SequenceBuilder {
    sequences: HashMap<u16, Sequence>,
}

/// The sequence that a builder holds under `seq`, or an empty one where it holds none.
pub open spec fn current_sequence(m: Map<u16, SequenceView>, seq: u16) -> SequenceView {
    if m.contains_key(seq) { m[seq] } else { empty_sequence() }
}

impl View for SequenceBuilder {
    type V = Map<u16, SequenceView>;

    closed spec fn view(&self) -> Map<u16, SequenceView> {
        self.sequences@.map_values(|s: Sequence| s@)
    }
}

impl SequenceBuilder {
    /// Every sequence held expects no more chunks than a sequence can hold.
    #[verifier::type_invariant]
    spec fn expects_at_most_max(self) -> bool {
        forall|k: u16| #[trigger] self.sequences@.contains_key(k) ==> self.sequences@[k]@.max_chunks <= MAX_CHUNK_COUNT
    }

    /// A builder with no sequence in progress.
    pub fn new() -> (b: SequenceBuilder)
        ensures
            b@ == Map::<u16, SequenceView>::empty(),
    {
        let b = SequenceBuilder { sequences: HashMap::new() };
        proof {
            assert(b@ =~= Map::<u16, SequenceView>::empty());
        }
        b
    }

    /// Attempt to reconstruct a payload from a chunk.
    ///
    /// The chunk goes into the sequence of its header (a new one where there is none yet). A
    /// refused chunk leaves that sequence as it was. Once every expected chunk of the sequence
    /// has arrived, the sequence is dropped and its payload returned; until then the result is
    /// `Ok(None)`.
    pub fn try_reconstruct_payload(&mut self, header: Header, chunk: &[u8]) -> (r: Result<Option<Vec<u8>>, Error>)
        requires
            header.chunk < MAX_CHUNK_COUNT,
        ensures
            insert_error(header, chunk@) matches Some(e) ==> r == Err::<Option<Vec<u8>>, Error>(e)
                && final(self)@ == old(self)@.insert(header.seq, current_sequence(old(self)@, header.seq)),
            (reconstructed(r), final(self)@) == reconstruct_step(old(self)@, header, chunk@),
            insert_error(header, chunk@) is None ==> ({
                let s = inserted(current_sequence(old(self)@, header.seq), header, chunk@);
                if is_complete_spec(s) {
                    &&& r matches Ok(Some(p)) && p@ == s.payload
                    &&& final(self)@ == old(self)@.remove(header.seq)
                } else {
                    &&& r matches Ok(None)
                    &&& final(self)@ == old(self)@.insert(header.seq, s)
                }
            }),
    {
        broadcast use vstd::std_specs::hash::group_hash_axioms;
        proof {
            use_type_invariant(&*self);
        }
        let mut sequences: HashMap<u16, Sequence> = HashMap::new();
        std::mem::swap(&mut sequences, &mut self.sequences);
        let removed = sequences.remove(&header.seq);
        let mut sequence = match removed {
            Some(s) => s,
            None => Sequence::new(),
        };
        proof {
            assert(sequence@ == current_sequence(old(self)@, header.seq));
        }
        match sequence.insert_chunk(header, chunk) {
            Err(e) => {
                sequences.insert(header.seq, sequence);
                self.sequences = sequences;
                proof {
                    assert(self@ =~= old(self)@.insert(header.seq, current_sequence(old(self)@, header.seq)));
                }
                Err(e)
            },
            Ok(()) => {
                if sequence.is_complete() {
                    self.sequences = sequences;
                    proof {
                        assert(self@ =~= old(self)@.remove(header.seq));
                    }
                    Ok(Some(sequence.payload()))
                } else {
                    sequences.insert(header.seq, sequence);
                    self.sequences = sequences;
                    proof {
                        assert(self@ =~= old(self)@.insert(header.seq, sequence@));
                    }
                    Ok(None)
                }
            },
        }
    }
}

impl Clone for SequenceBuilder {
    fn clone(&self) -> (b: SequenceBuilder)
        ensures
            b@ == self@,
    {
        proof {
            use_type_invariant(self);
        }
        SequenceBuilder { sequences: self.sequences.clone() }
    }
}

impl Default for SequenceBuilder {
    fn default() -> (b: SequenceBuilder)
        ensures
            b@ == Map::<u16, SequenceView>::empty(),
    {
        SequenceBuilder::new()
    }
}


/// The sequence after the chunks of payload `p` numbered in `order` arrived one after another,
/// starting from an empty sequence, each with the header that `into_chunks` gives it.
pub open spec fn after_chunks(seq: u16, p: Seq<u8>, order: Seq<int>) -> SequenceView
    decreases order.len(),
{
    if order.len() == 0 {
        empty_sequence()
    } else {
        let i = order.last();
        inserted(after_chunks(seq, p, order.drop_last()), chunk_header(seq, p.len(), i), chunk_bytes(p, i))
    }
}

/// What a sequence fed with the chunks of `p` numbered in `order` holds: the chunks it marks
/// received are those of `order`, it expects every chunk once the last one arrived, and each
/// received chunk sits at its place in a payload no longer than `p`.
spec fn agrees(s: SequenceView, p: Seq<u8>, order: Seq<int>) -> bool {
    let n = chunk_count(p.len());
    &&& s.received.len() == 255
    &&& forall|i: int| 0 <= i < 255 ==> (#[trigger] s.received[i] <==> order.contains(i))
    &&& s.max_chunks == (if order.contains(n - 1) { n } else { 255 })
    &&& s.payload.len() <= p.len()
    &&& forall|i: int|
        0 <= i < n && #[trigger] s.received[i] ==> chunk_end(p.len(), i) <= s.payload.len()
            && forall|k: int| chunk_start(i) <= k < chunk_end(p.len(), i) ==> s.payload[k] == p[k]
}

/// Each chunk that `into_chunks` makes of a payload is accepted by a sequence.
pub proof fn lemma_chunks_accepted(seq: u16, p: Seq<u8>, i: int)
    requires
        p.len() <= MAX_PAYLOAD_SIZE,
        0 <= i < chunk_count(p.len()),
    ensures
        insert_error(chunk_header(seq, p.len(), i), chunk_bytes(p, i)) is None,
        chunk_header(seq, p.len(), i).chunk == i,
        chunk_header(seq, p.len(), i).chunk < MAX_CHUNK_COUNT,
{
    lemma_chunk_bounds(p.len(), i);
}

/// An element of a sequence is in its front part or is its last element.
pub proof fn lemma_contains_push(order: Seq<int>, x: int)
    requires
        order.len() > 0,
    ensures
        order.contains(x) <==> (order.drop_last().contains(x) || order.last() == x),
{
    if order.contains(x) {
        let j = choose|j: int| 0 <= j < order.len() && order[j] == x;
        if j < order.len() - 1 {
            assert(order.drop_last()[j] == x);
        }
    }
    if order.drop_last().contains(x) {
        let j = choose|j: int| 0 <= j < order.drop_last().len() && order.drop_last()[j] == x;
        assert(order[j] == x);
    }
    if order.last() == x {
        assert(order[order.len() - 1] == x);
    }
}

proof fn lemma_after_chunks_agree(seq: u16, p: Seq<u8>, order: Seq<int>)
    requires
        1 <= p.len() <= MAX_PAYLOAD_SIZE,
        forall|k: int| 0 <= k < order.len() ==> 0 <= #[trigger] order[k] < chunk_count(p.len()),
    ensures
        agrees(after_chunks(seq, p, order), p, order),
    decreases order.len(),
{
    let n = chunk_count(p.len());
    if order.len() == 0 {
        let s = empty_sequence();
        assert forall|i: int| 0 <= i < 255 implies (#[trigger] s.received[i] <==> order.contains(i)) by {}
        assert(!order.contains(n - 1));
    } else {
        let rest = order.drop_last();
        let i = order.last();
        assert(0 <= i < n);
        lemma_after_chunks_agree(seq, p, rest);
        let s0 = after_chunks(seq, p, rest);
        let h = chunk_header(seq, p.len(), i);
        let c = chunk_bytes(p, i);
        let s = after_chunks(seq, p, order);
        lemma_chunks_accepted(seq, p, i);
        lemma_chunk_bounds(p.len(), i);
        assert(s == inserted(s0, h, c));
        assert forall|j: int| 0 <= j < 255 implies (#[trigger] s.received[j] <==> order.contains(j)) by {
            lemma_contains_push(order, j);
        }
        lemma_contains_push(order, n - 1);
        assert forall|j: int|
            0 <= j < n && #[trigger] s.received[j] implies chunk_end(p.len(), j) <= s.payload.len()
                && forall|k: int| chunk_start(j) <= k < chunk_end(p.len(), j) ==> s.payload[k] == p[k] by {
            lemma_chunk_bounds(p.len(), j);
            if j != i {
                assert(s0.received[j]);
            }
        }
    }
}

/// Chunks of a payload put back together in any order give the payload back: a sequence fed
/// with chunks made by `into_chunks` is complete exactly when every chunk has arrived at least
/// once, and then its payload is the one that was split.
pub proof fn lemma_reassembly(seq: u16, p: Seq<u8>, order: Seq<int>)
    requires
        1 <= p.len() <= MAX_PAYLOAD_SIZE,
        forall|k: int| 0 <= k < order.len() ==> 0 <= #[trigger] order[k] < chunk_count(p.len()),
    ensures
        after_chunks(seq, p, order).max_chunks <= MAX_CHUNK_COUNT,
        is_complete_spec(after_chunks(seq, p, order)) <==> (forall|i: int|
            0 <= i < chunk_count(p.len()) ==> #[trigger] order.contains(i)),
        is_complete_spec(after_chunks(seq, p, order)) ==> after_chunks(seq, p, order).payload == p,
{
    let n = chunk_count(p.len());
    let s = after_chunks(seq, p, order);
    lemma_after_chunks_agree(seq, p, order);
    if is_complete_spec(s) {
        if !order.contains(n - 1) {
            assert(s.received[n - 1]);
        }
        assert forall|i: int| 0 <= i < n implies #[trigger] order.contains(i) by {
            assert(s.received[i]);
        }
        lemma_chunk_bounds(p.len(), n - 1);
        assert(s.received[n - 1]);
        assert forall|k: int| 0 <= k < p.len() implies s.payload[k] == p[k] by {
            let i = k / 504;
            lemma_chunk_bounds(p.len(), i);
            assert(s.received[i]);
        }
        assert(s.payload =~= p);
    }
    if forall|i: int| 0 <= i < n ==> #[trigger] order.contains(i) {
        assert(order.contains(n - 1));
        assert forall|i: int| 0 <= i < s.max_chunks implies #[trigger] s.received[i] by {
            assert(order.contains(i));
        }
    }
}


/// Every chunk of a payload of `len` bytes is among `order`.
pub open spec fn covers(order: Seq<int>, len: nat) -> bool {
    forall|i: int| 0 <= i < chunk_count(len) ==> #[trigger] order.contains(i)
}

/// Once every chunk is among the first `k` of `order`, it stays so for the first `k + 1`.
pub proof fn lemma_covers_prefix(order: Seq<int>, len: nat, k: int)
    requires
        0 <= k < order.len(),
        covers(order.take(k), len),
    ensures
        covers(order.take(k + 1), len),
{
    assert forall|i: int| 0 <= i < chunk_count(len) implies #[trigger] order.take(k + 1).contains(i) by {
        assert(order.take(k).contains(i));
        let j = choose|j: int| 0 <= j < order.take(k).len() && order.take(k)[j] == i;
        assert(order.take(k + 1)[j] == i);
    }
}

/// What the `k`-th of the chunks in `order` brings out: the payload when it is the last
/// missing one, and nothing otherwise.
pub open spec fn delivers_at(order: Seq<int>, p: Seq<u8>, k: int) -> Option<Seq<u8>> {
    if covers(order.take(k + 1), p.len()) && !covers(order.take(k), p.len()) {
        Some(p)
    } else {
        None
    }
}

/// What earlier chunks bring out does not depend on later ones.
pub proof fn lemma_delivers_prefix(order: Seq<int>, p: Seq<u8>, k: int)
    requires
        order.len() > 0,
        0 <= k < order.len() - 1,
    ensures
        delivers_at(order, p, k) == delivers_at(order.drop_last(), p, k),
{
    assert(order.take(k + 1) =~= order.drop_last().take(k + 1));
    assert(order.take(k) =~= order.drop_last().take(k));
}

/// The payload a reconstruction returns, if any.
pub open spec fn reconstructed(r: Result<Option<Vec<u8>>, Error>) -> Result<Option<Seq<u8>>, Error> {
    match r {
        Ok(Some(p)) => Ok(Some(p@)),
        Ok(None) => Ok(None),
        Err(e) => Err(e),
    }
}

/// What `try_reconstruct_payload` returns for a chunk, and the sequences afterwards.
pub open spec fn reconstruct_step(m: Map<u16, SequenceView>, header: Header, chunk: Seq<u8>) -> (
    Result<Option<Seq<u8>>, Error>,
    Map<u16, SequenceView>,
) {
    let s0 = current_sequence(m, header.seq);
    match insert_error(header, chunk) {
        Some(e) => (Err(e), m.insert(header.seq, s0)),
        None => {
            let s = inserted(s0, header, chunk);
            if is_complete_spec(s) {
                (Ok(Some(s.payload)), m.remove(header.seq))
            } else {
                (Ok(None), m.insert(header.seq, s))
            }
        },
    }
}

/// The builder's sequences after the chunks of payload `p` (numbered in `order`, with the
/// headers `into_chunks` gives them) were handed to it, and what each call returned.
pub open spec fn builder_after_chunks(m: Map<u16, SequenceView>, seq: u16, p: Seq<u8>, order: Seq<int>) -> (
    Map<u16, SequenceView>,
    Seq<Result<Option<Seq<u8>>, Error>>,
)
    decreases order.len(),
{
    if order.len() == 0 {
        (m, Seq::empty())
    } else {
        let (m1, outs) = builder_after_chunks(m, seq, p, order.drop_last());
        let i = order.last();
        let (r, m2) = reconstruct_step(m1, chunk_header(seq, p.len(), i), chunk_bytes(p, i));
        (m2, outs.push(r))
    }
}

/// A builder fed the chunks of a payload, in any order and with repeats, until the last missing
/// one: every call returns nothing but that last one, which returns the payload; the builder
/// then holds nothing for the sequence, and its other sequences are untouched throughout.
pub proof fn lemma_builder_reassembly(m: Map<u16, SequenceView>, seq: u16, p: Seq<u8>, order: Seq<int>)
    requires
        !m.contains_key(seq),
        1 <= p.len() <= MAX_PAYLOAD_SIZE,
        forall|k: int| 0 <= k < order.len() ==> 0 <= #[trigger] order[k] < chunk_count(p.len()),
        order.len() > 0 ==> !covers(order.drop_last(), p.len()),
    ensures
        builder_after_chunks(m, seq, p, order).1.len() == order.len(),
        forall|k: int|
            0 <= k < order.len() ==> #[trigger] builder_after_chunks(m, seq, p, order).1[k] == Ok::<
                Option<Seq<u8>>,
                Error,
            >(delivers_at(order, p, k)),
        covers(order, p.len()) ==> !builder_after_chunks(m, seq, p, order).0.contains_key(seq),
        !covers(order, p.len()) ==> current_sequence(builder_after_chunks(m, seq, p, order).0, seq) == after_chunks(
            seq,
            p,
            order,
        ),
        builder_after_chunks(m, seq, p, order).0.remove(seq) == m.remove(seq),
    decreases order.len(),
{
    let n = chunk_count(p.len());
    if order.len() == 0 {
        assert(!covers(order, p.len())) by {
            assert(!order.contains(0));
        }
    } else {
        let rest = order.drop_last();
        let c = order.last();
        if rest.len() > 0 {
            assert(rest.drop_last() =~= rest.take(rest.len() - 1));
            assert(rest.take(rest.len() as int) =~= rest);
            if covers(rest.drop_last(), p.len()) {
                lemma_covers_prefix(rest, p.len(), rest.len() - 1);
            }
        }
        assert forall|k: int| 0 <= k < rest.len() implies 0 <= #[trigger] rest[k] < n by {
            assert(rest[k] == order[k]);
        }
        lemma_builder_reassembly(m, seq, p, rest);
        let (m1, outs1) = builder_after_chunks(m, seq, p, rest);
        let (m2, outs) = builder_after_chunks(m, seq, p, order);
        let h = chunk_header(seq, p.len(), c);
        let body = chunk_bytes(p, c);
        lemma_chunks_accepted(seq, p, c);
        lemma_reassembly(seq, p, order);
        assert(current_sequence(m1, seq) == after_chunks(seq, p, rest));
        assert forall|i: int| 0 <= i < n implies (#[trigger] order.contains(i) <==> (rest.contains(i) || c == i)) by {
            lemma_contains_push(order, i);
        }
        assert(order.take(order.len() - 1) =~= rest);
        assert(order.take(order.len() as int) =~= order);
        assert(outs =~= outs1.push(reconstruct_step(m1, h, body).0));
        assert forall|k: int| 0 <= k < order.len() implies #[trigger] outs[k] == Ok::<Option<Seq<u8>>, Error>(
            delivers_at(order, p, k),
        ) by {
            if k < rest.len() {
                lemma_delivers_prefix(order, p, k);
                assert(outs[k] == outs1[k]);
            }
        }
        assert(m2.remove(seq) =~= m1.remove(seq));
    }
}

/// Fewer distinct chunk indices than a payload has chunks do not cover it.
proof fn lemma_few_do_not_cover(order: Seq<int>, len: nat, k: int)
    requires
        order.no_duplicates(),
        0 <= k <= order.len(),
        k < chunk_count(len),
    ensures
        !covers(order.take(k), len),
{
    let n = chunk_count(len) as int;
    let front = order.take(k);
    if covers(front, len) {
        lemma_int_range(0, n);
        front.lemma_cardinality_of_set();
        assert(set_int_range(0, n).subset_of(front.to_set())) by {
            assert forall|i: int| #[trigger] set_int_range(0, n).contains(i) implies front.to_set().contains(i) by {
                assert(front.contains(i));
            }
        }
        lemma_len_subset(set_int_range(0, n), front.to_set());
    }
}

/// As many distinct chunk indices as a payload has chunks cover it.
proof fn lemma_all_cover(order: Seq<int>, len: nat)
    requires
        order.no_duplicates(),
        order.len() == chunk_count(len),
        forall|k: int| 0 <= k < order.len() ==> 0 <= #[trigger] order[k] < chunk_count(len),
    ensures
        covers(order, len),
{
    let n = chunk_count(len) as int;
    lemma_int_range(0, n);
    order.unique_seq_to_set();
    assert(order.to_set().subset_of(set_int_range(0, n))) by {
        assert forall|i: int| #[trigger] order.to_set().contains(i) implies set_int_range(0, n).contains(i) by {
            let j = choose|j: int| 0 <= j < order.len() && order[j] == i;
            assert(0 <= order[j] < n);
        }
    }
    lemma_len_subset(order.to_set(), set_int_range(0, n));
    lemma_subset_equality(order.to_set(), set_int_range(0, n));
    assert forall|i: int| 0 <= i < n implies #[trigger] order.contains(i) by {
        assert(set_int_range(0, n).contains(i));
        assert(order.to_set().contains(i));
    }
}

/// A builder that holds nothing for a sequence, fed each chunk of a payload exactly once in any
/// order: every call but the last returns nothing, the last returns the payload, and the builder
/// ends as it began, holding nothing for the sequence.
pub proof fn lemma_builder_each_chunk_once(m: Map<u16, SequenceView>, seq: u16, p: Seq<u8>, order: Seq<int>)
    requires
        !m.contains_key(seq),
        1 <= p.len() <= MAX_PAYLOAD_SIZE,
        order.len() == chunk_count(p.len()),
        order.no_duplicates(),
        forall|k: int| 0 <= k < order.len() ==> 0 <= #[trigger] order[k] < chunk_count(p.len()),
    ensures
        builder_after_chunks(m, seq, p, order).1.len() == order.len(),
        forall|k: int|
            0 <= k < order.len() - 1 ==> #[trigger] builder_after_chunks(m, seq, p, order).1[k] == Ok::<
                Option<Seq<u8>>,
                Error,
            >(None),
        builder_after_chunks(m, seq, p, order).1[order.len() - 1] == Ok::<Option<Seq<u8>>, Error>(Some(p)),
        builder_after_chunks(m, seq, p, order).0 == m,
{
    let n = order.len() as int;
    assert(n >= 1);
    assert(order.drop_last() =~= order.take(n - 1));
    lemma_few_do_not_cover(order, p.len(), n - 1);
    lemma_all_cover(order, p.len());
    lemma_builder_reassembly(m, seq, p, order);
    let (m2, outs) = builder_after_chunks(m, seq, p, order);
    assert forall|k: int| 0 <= k < n - 1 implies #[trigger] outs[k] == Ok::<Option<Seq<u8>>, Error>(None) by {
        lemma_few_do_not_cover(order, p.len(), k + 1);
        assert(outs[k] == Ok::<Option<Seq<u8>>, Error>(delivers_at(order, p, k)));
    }
    assert(order.take(n) =~= order);
    assert(outs[n - 1] == Ok::<Option<Seq<u8>>, Error>(delivers_at(order, p, n - 1)));
    assert(m2.remove(seq) =~= m2);
    assert(m.remove(seq) =~= m);
}

} // verus!
