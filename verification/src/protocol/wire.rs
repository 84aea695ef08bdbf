//! The encrypted frame, and the codec that seals and opens it.
//!
//! ```text
//! [magic u8 = 0x0A][version u8 = 2][sender u64 LE][type u8][nonce 24][ciphertext and tag 16]
//! ```
//!
//! The nonce is 16 random bytes, drawn once for each start of a process, and a
//! counter that starts at 1. The eleven bytes before the nonce are authenticated
//! but not hidden. A receiver keeps one replay window for each start of its
//! peer that it has seen lately; only the newest start may deliver frames.

use std::collections::VecDeque;

use vstd::prelude::*;

use crate::crypto::primitives::{aead_open, aead_seal, random_bytes, AEAD_MAX_MESSAGE};
use crate::crypto::replay::{ReplayWindow, WindowView};
use crate::crypto::session_keys::SessionKeys;
use crate::endec::{append_bytes, bytes_equal, read_u64_le, to_array, write_u64_le};
use crate::crypto::primitives;
use crate::crypto::replay;
use crate::endec;

verus! {

pub const WIRE_MAGIC: u8 = 0x0A;

pub const WIRE_VERSION: u8 = 2;

pub const BOOT_NONCE_SIZE: usize = 16;

pub const NONCE_SIZE: usize = 24;

pub const TAG_SIZE: usize = 16;

/// Magic, version, sender, type and nonce.
pub const FIXED_HEADER: usize = 1 + 1 + 8 + 1 + NONCE_SIZE;

/// Length of what is authenticated in the clear.
pub const AAD_HEADER: usize = 11;

/// How many starts of a peer are remembered.
pub const BOOT_NONCE_GENERATIONS: usize = 32;

pub const FRAME_PING: u8 = 1;

pub const FRAME_PONG: u8 = 2;

pub const FRAME_DATA: u8 = 3;

pub const FRAME_FLOW: u8 = 4;

/// The frame types that exist.
pub open spec fn is_frame_type(t: u8) -> bool {
    FRAME_PING <= t <= FRAME_FLOW
}

/// Whether `t` is a frame type.
pub fn frame_type_is_valid(t: u8) -> (valid: bool)
    ensures
        valid == is_frame_type(t),
{
    FRAME_PING <= t && t <= FRAME_FLOW
}

/// The fields of a frame that is still sealed.
pub ghost struct FrameView {
    pub sender: u64,
    pub frame_type: u8,
    pub nonce: Seq<u8>,
    pub ciphertext: Seq<u8>,
}

/// The fields of a packet, if it has the shape of a frame.
pub open spec fn parsed_frame(packet: Seq<u8>) -> Option<FrameView> {
    if packet.len() < FIXED_HEADER + TAG_SIZE || packet[0] != WIRE_MAGIC || packet[1]
        != WIRE_VERSION || !is_frame_type(packet[10]) {
        None
    } else {
        Some(
            FrameView {
                sender: endec::le_value(packet.subrange(2, 10)) as u64,
                frame_type: packet[10],
                nonce: packet.subrange(11, 35),
                ciphertext: packet.skip(35),
            },
        )
    }
}

/// The counter at the end of a nonce.
pub open spec fn nonce_counter(nonce: Seq<u8>) -> u64 {
    endec::le_value(nonce.subrange(16, 24)) as u64
}

/// The random part of a nonce.
pub open spec fn nonce_boot(nonce: Seq<u8>) -> Seq<u8> {
    nonce.take(16)
}

/// A frame that is still sealed.
#[derive(Debug, Clone, Copy)]
pub struct RawFrame<'a> {
    pub sender_id: u64,
    pub frame_type: u8,
    /// Boot nonce, then counter.
    pub nonce: [u8; NONCE_SIZE],
    /// Ciphertext with its tag.
    pub ciphertext: &'a [u8],
}

impl<'a> View for RawFrame<'a> {
    type V = FrameView;

    open spec fn view(&self) -> FrameView {
        FrameView {
            sender: self.sender_id,
            frame_type: self.frame_type,
            nonce: self.nonce@,
            ciphertext: self.ciphertext@,
        }
    }
}

impl<'a> RawFrame<'a> {
    /// The counter that the nonce carries.
    pub fn counter(&self) -> (counter: u64)
        ensures
            counter == nonce_counter(self.nonce@),
    {
        let tail = vstd::slice::slice_subrange(self.nonce.as_slice(), BOOT_NONCE_SIZE, NONCE_SIZE);
        assert(tail@.take(8) =~= self.nonce@.subrange(16, 24));
        read_u64_le(tail)
    }

    /// Reads the fields of a packet after checking length, magic, version and type.
    pub fn try_parse(packet: &'a [u8]) -> (frame: Option<RawFrame<'a>>)
        ensures
            match frame {
                Some(f) => parsed_frame(packet@) == Some(f@),
                None => parsed_frame(packet@) is None,
            },
    {
        if packet.len() < FIXED_HEADER + TAG_SIZE {
            return None;
        }
        if packet[0] != WIRE_MAGIC || packet[1] != WIRE_VERSION {
            return None;
        }
        let frame_type = packet[10];
        if !frame_type_is_valid(frame_type) {
            return None;
        }
        let sender_bytes = vstd::slice::slice_subrange(packet, 2, 10);
        let sender_id = read_u64_le(sender_bytes);
        assert(sender_bytes@.take(8) =~= packet@.subrange(2, 10));
        let nonce: [u8; NONCE_SIZE] = to_array(vstd::slice::slice_subrange(packet, 11, FIXED_HEADER));
        let ciphertext = vstd::slice::slice_subrange(packet, FIXED_HEADER, packet.len());
        assert(ciphertext@ =~= packet@.skip(35));
        Some(RawFrame { sender_id, frame_type, nonce, ciphertext })
    }
}

/// One start of the peer: its boot nonce and its replay window.
pub type Generation = (Seq<u8>, WindowView);

/// What a codec holds.
pub ghost struct CodecView {
    pub send_key: Seq<u8>,
    pub recv_key: Seq<u8>,
    pub boot: Seq<u8>,
    pub counter: u64,
    /// The starts of the peer that are remembered, the newest last.
    pub generations: Seq<Generation>,
    pub retired_seen: u64,
    pub retired_lost: u64,
}

/// Whether a start of the peer is remembered.
pub open spec fn knows(generations: Seq<Generation>, boot: Seq<u8>) -> bool {
    exists|i: int| 0 <= i < generations.len() && #[trigger] generations[i].0 == boot
}

/// Frames received over all remembered starts.
pub open spec fn seen_sum(generations: Seq<Generation>) -> int
    decreases generations.len(),
{
    if generations.len() == 0 {
        0
    } else {
        seen_sum(generations.drop_last()) + generations.last().1.seen
    }
}

/// Frames lost over all remembered starts.
pub open spec fn lost_sum(generations: Seq<Generation>) -> int
    decreases generations.len(),
{
    if generations.len() == 0 {
        0
    } else {
        lost_sum(generations.drop_last()) + generations.last().1.lost
    }
}

/// The clear part of a frame.
pub open spec fn clear_header(sender: u64, frame_type: u8) -> Seq<u8> {
    seq![WIRE_MAGIC, WIRE_VERSION] + endec::le_bytes(sender as nat, 8) + seq![frame_type]
}

/// A sealed frame.
pub open spec fn sealed_frame(
    key: Seq<u8>,
    boot: Seq<u8>,
    counter: u64,
    sender: u64,
    frame_type: u8,
    payload: Seq<u8>,
) -> Seq<u8> {
    let header = clear_header(sender, frame_type);
    let nonce = boot + endec::le_bytes(counter as nat, 8);
    header + nonce + primitives::aead_sealed(key, nonce, header, payload)
}

/// Sender, type and content of a packet that is authentic under `key`.
pub open spec fn authentic(key: Seq<u8>, packet: Seq<u8>) -> Option<(u64, u8, Seq<u8>)> {
    match parsed_frame(packet) {
        None => None,
        Some(f) => match primitives::aead_opened(key, f.nonce, packet.take(11), f.ciphertext) {
            None => None,
            Some(plain) => Some((f.sender, f.frame_type, plain)),
        },
    }
}

/// The packet is what the codec makes of a message next: it carries the codec's
/// start and the next counter, and is authentic under the key that the codec sends
/// with.
pub open spec fn is_next_frame(
    c: CodecView,
    packet: Seq<u8>,
    sender: u64,
    frame_type: u8,
    payload: Seq<u8>,
) -> bool {
    &&& packet == sealed_frame(
        c.send_key,
        c.boot,
        (c.counter + 1) as u64,
        sender,
        frame_type,
        payload,
    )
    &&& packet_boot(packet) == c.boot
    &&& packet_counter(packet) == (c.counter + 1) as u64
    &&& is_frame_type(frame_type) ==> authentic(c.send_key, packet) == Some(
        (sender, frame_type, payload),
    )
}

/// A codec has not let a frame with this start and counter through, nor one of a
/// later start.
pub open spec fn is_new_to(c: CodecView, boot: Seq<u8>, counter: u64) -> bool {
    !knows(c.generations, boot) || (c.generations.last().0 == boot
        && c.generations.last().1.accepts(counter))
}

/// The boot nonce that a packet carries.
pub open spec fn packet_boot(packet: Seq<u8>) -> Seq<u8> {
    nonce_boot(packet.subrange(11, 35))
}

/// The counter that a packet carries.
pub open spec fn packet_counter(packet: Seq<u8>) -> u64 {
    nonce_counter(packet.subrange(11, 35))
}

impl CodecView {
    /// What holds of every codec: few enough starts are remembered, no two are
    /// the same, and their windows are in order.
    pub open spec fn valid(self) -> bool {
        &&& self.generations.len() <= BOOT_NONCE_GENERATIONS
        &&& forall|i: int, j: int|
            #![trigger self.generations[i], self.generations[j]]
            0 <= i < j < self.generations.len() ==> self.generations[i].0 != self.generations[j].0
        &&& forall|i: int|
            0 <= i < self.generations.len() ==> #[trigger] self.generations[i].1.valid()
    }

    /// Frames received in all.
    pub open spec fn total_seen(self) -> int {
        self.retired_seen + seen_sum(self.generations)
    }

    /// Frames lost in all.
    pub open spec fn total_lost(self) -> int {
        self.retired_lost + lost_sum(self.generations)
    }

    /// The totals leave room for one more frame.
    pub open spec fn has_room(self) -> bool {
        &&& self.generations.len() > 0 ==> self.generations.last().1.seen < u64::MAX
        &&& self.generations.len() == BOOT_NONCE_GENERATIONS ==> self.retired_seen
            + self.generations[0].1.seen <= u64::MAX && self.retired_lost
            + self.generations[0].1.lost <= u64::MAX
    }

    /// The codec after an unknown start of the peer was put on record. Where too
    /// many are remembered, the oldest is dropped and its totals are kept.
    pub open spec fn with_generation(self, boot: Seq<u8>) -> CodecView {
        let longer = self.generations.push((boot, WindowView::fresh()));
        if longer.len() > BOOT_NONCE_GENERATIONS {
            CodecView {
                generations: longer.skip(1),
                retired_seen: (self.retired_seen + longer[0].1.seen) as u64,
                retired_lost: (self.retired_lost + longer[0].1.lost) as u64,
                ..self
            }
        } else {
            CodecView { generations: longer, ..self }
        }
    }

    /// The codec after the newest window was shown `counter`.
    pub open spec fn with_counter(self, counter: u64) -> CodecView {
        let last = self.generations.last();
        CodecView {
            generations: self.generations.update(
                self.generations.len() - 1,
                (last.0, last.1.step(counter)),
            ),
            ..self
        }
    }

    /// The codec after it was shown `packet`, and what it hands out. A packet
    /// that is not authentic, that comes from an older start or that was let
    /// through before changes nothing and gives nothing.
    pub open spec fn open_step(self, packet: Seq<u8>) -> (CodecView, Option<(u64, u8, Seq<u8>)>) {
        match authentic(self.recv_key, packet) {
            None => (self, None),
            Some(content) => {
                let boot = packet_boot(packet);
                let counter = packet_counter(packet);
                if !knows(self.generations, boot) {
                    (self.with_generation(boot).with_counter(counter), Some(content))
                } else if self.generations.last().0 == boot
                    && self.generations.last().1.accepts(counter) {
                    (self.with_counter(counter), Some(content))
                } else {
                    (self, None)
                }
            },
        }
    }

    /// The codec after it was shown all of `packets`, in order.
    pub open spec fn open_all(self, packets: Seq<Seq<u8>>) -> CodecView
        decreases packets.len(),
    {
        if packets.len() == 0 {
            self
        } else {
            self.open_all(packets.drop_last()).open_step(packets.last()).0
        }
    }
}

/// Seals frames to one peer and opens the frames that come from it.
pub struct PacketCodec {
    keys: SessionKeys,
    boot_nonce: [u8; BOOT_NONCE_SIZE],
    send_counter: u64,
    generations: VecDeque<([u8; BOOT_NONCE_SIZE], ReplayWindow)>,
    retired_seen: u64,
    retired_lost: u64,
}

spec fn generations_view(g: Seq<([u8; 16], ReplayWindow)>) -> Seq<Generation> {
    g.map_values(|e: ([u8; 16], ReplayWindow)| (e.0@, e.1@))
}

impl View for PacketCodec {
    type V = CodecView;

    closed spec fn view(&self) -> CodecView {
        CodecView {
            send_key: self.keys.send_key@,
            recv_key: self.keys.recv_key@,
            boot: self.boot_nonce@,
            counter: self.send_counter,
            generations: generations_view(self.generations@),
            retired_seen: self.retired_seen,
            retired_lost: self.retired_lost,
        }
    }
}

impl PacketCodec {
    /// A codec with a fresh boot nonce. Which nonce it is, is left to chance.
    pub fn new(keys: SessionKeys) -> (codec: PacketCodec)
        ensures
            codec@.valid(),
            codec@.send_key == keys.send_key@,
            codec@.recv_key == keys.recv_key@,
            codec@.boot.len() == BOOT_NONCE_SIZE,
            codec@.counter == 0,
            codec@.generations.len() == 0,
            codec@.retired_seen == 0,
            codec@.retired_lost == 0,
    {
        let boot_nonce: [u8; BOOT_NONCE_SIZE] = random_bytes::<BOOT_NONCE_SIZE>();
        PacketCodec::with_boot_nonce(keys, boot_nonce)
    }

    /// A codec with this boot nonce.
    pub fn with_boot_nonce(keys: SessionKeys, boot_nonce: [u8; BOOT_NONCE_SIZE]) -> (codec:
        PacketCodec)
        ensures
            codec@.valid(),
            codec@ == (CodecView {
                send_key: keys.send_key@,
                recv_key: keys.recv_key@,
                boot: boot_nonce@,
                counter: 0,
                generations: Seq::empty(),
                retired_seen: 0,
                retired_lost: 0,
            }),
    {
        let codec = PacketCodec {
            keys,
            boot_nonce,
            send_counter: 0,
            generations: VecDeque::new(),
            retired_seen: 0,
            retired_lost: 0,
        };
        assert(codec@.generations =~= Seq::empty());
        codec
    }

    /// Seals one frame. The first frame has counter 1. A frame of a known type
    /// is authentic under the key that sealed it.
    pub fn seal(&mut self, sender_id: u64, frame_type: u8, payload: &[u8]) -> (packet: Vec<u8>)
        requires
            old(self)@.boot.len() == BOOT_NONCE_SIZE,
            old(self)@.counter < u64::MAX,
            payload@.len() <= AEAD_MAX_MESSAGE,
            payload@.len() + FIXED_HEADER + TAG_SIZE <= usize::MAX,
        ensures
            final(self)@ == (CodecView { counter: (old(self)@.counter + 1) as u64, ..old(self)@ }),
            is_next_frame(old(self)@, packet@, sender_id, frame_type, payload@),
            packet@.len() == payload@.len() + FIXED_HEADER + TAG_SIZE,
    {
        self.send_counter += 1;
        let mut header: Vec<u8> = Vec::new();
        header.push(WIRE_MAGIC);
        header.push(WIRE_VERSION);
        write_u64_le(&mut header, sender_id);
        header.push(frame_type);
        let mut nonce: Vec<u8> = Vec::new();
        append_bytes(&mut nonce, self.boot_nonce.as_slice());
        write_u64_le(&mut nonce, self.send_counter);
        proof {
            endec::lemma_le_bytes_len(sender_id as nat, 8);
            endec::lemma_le_bytes_len(self.send_counter as nat, 8);
            endec::lemma_byte_spans();
            endec::lemma_le_round_trip(sender_id as nat, 8);
            endec::lemma_le_round_trip(self.send_counter as nat, 8);
            assert(header@ =~= clear_header(sender_id, frame_type));
            assert(nonce@ =~= self.boot_nonce@ + endec::le_bytes(self.send_counter as nat, 8));
        }
        let nonce_array: [u8; NONCE_SIZE] = to_array(nonce.as_slice());
        let sealed = aead_seal(
            &self.keys.send_key,
            &nonce_array,
            header.as_slice(),
            payload,
        );
        let mut out: Vec<u8> = Vec::new();
        append_bytes(&mut out, header.as_slice());
        append_bytes(&mut out, nonce.as_slice());
        append_bytes(&mut out, sealed.as_slice());
        proof {
            assert(out@.take(11) =~= header@);
            assert(out@.subrange(11, 35) =~= nonce@);
            assert(out@.skip(35) =~= sealed@);
            assert(out@.subrange(2, 10) =~= endec::le_bytes(sender_id as nat, 8));
            assert(nonce@.take(16) =~= self.boot_nonce@);
            assert(nonce@.subrange(16, 24) =~= endec::le_bytes(self.send_counter as nat, 8));
            assert(out@[0] == header@[0]);
            assert(out@[1] == header@[1]);
            assert(out@[10] == header@[10]);
        }
        out
    }

    /// Whether the counter leaves room for one more frame.
    pub fn can_seal(&self) -> (can: bool)
        ensures
            can == (self@.counter < u64::MAX),
    {
        self.send_counter < u64::MAX
    }

    /// Whether the totals leave room for one more frame.
    pub fn can_open(&self) -> (can: bool)
        ensures
            can == self@.has_room(),
    {
        let n = self.generations.len();
        if n > 0 {
            let (seen, _lost) = self.generations[n - 1].1.stats();
            if seen == u64::MAX {
                return false;
            }
        }
        if n == BOOT_NONCE_GENERATIONS {
            let (seen, lost) = self.generations[0].1.stats();
            if seen > u64::MAX - self.retired_seen || lost > u64::MAX - self.retired_lost {
                return false;
            }
        }
        true
    }

    fn position(&self, boot: &[u8]) -> (index: Option<usize>)
        ensures
            match index {
                Some(i) => i < self@.generations.len() && self@.generations[i as int].0 == boot@,
                None => !knows(self@.generations, boot@),
            },
    {
        let n = self.generations.len();
        let mut i: usize = 0;
        while i < n
            invariant
                i <= n,
                n == self.generations@.len(),
                forall|j: int| 0 <= j < i ==> #[trigger] self@.generations[j].0 != boot@,
            decreases n - i,
        {
            if bytes_equal(self.generations[i].0.as_slice(), boot) {
                return Some(i);
            }
            i += 1;
        }
        None
    }

    /// Opens a packet: decrypts it first and only then consults, and changes, the
    /// replay state. Nothing is handed out, and nothing changes, for a packet
    /// that is malformed, not authentic, stale or replayed.
    pub fn try_open(&mut self, packet: &[u8]) -> (content: Option<(u64, u8, Vec<u8>)>)
        requires
            old(self)@.valid(),
            old(self)@.has_room(),
            packet@.len() <= AEAD_MAX_MESSAGE,
        ensures
            final(self)@.valid(),
            final(self)@ == old(self)@.open_step(packet@).0,
            match content {
                Some((sender, frame_type, plain)) => old(self)@.open_step(packet@).1 == Some(
                    (sender, frame_type, plain@),
                ),
                None => old(self)@.open_step(packet@).1 is None,
            },
            content matches Some((_, _, plain)) ==> plain@.len() + FIXED_HEADER + TAG_SIZE
                == packet@.len(),
    {
        let frame = match RawFrame::try_parse(packet) {
            Some(f) => f,
            None => {
                return None;
            },
        };
        let counter = frame.counter();
        let aad = vstd::slice::slice_subrange(packet, 0, AAD_HEADER);
        assert(aad@ =~= packet@.take(11));
        let plain = match aead_open(&self.keys.recv_key, &frame.nonce, aad, frame.ciphertext) {
            Some(p) => p,
            None => {
                return None;
            },
        };
        let boot: [u8; BOOT_NONCE_SIZE] = to_array(
            vstd::slice::slice_subrange(frame.nonce.as_slice(), 0, BOOT_NONCE_SIZE),
        );
        let ghost before = self@;
        let ghost b = packet_boot(packet@);
        assert(boot@ =~= b);
        match self.position(boot.as_slice()) {
            Some(i) => {
                if i + 1 != self.generations.len() {
                    return None;
                }
            },
            None => {
                self.generations.push_back((boot, ReplayWindow::new()));
                assert(self@.generations =~= before.generations.push((b, WindowView::fresh())));
                if self.generations.len() > BOOT_NONCE_GENERATIONS {
                    let ghost long = self@.generations;
                    match self.generations.pop_front() {
                        Some((_, retired)) => {
                            let (seen, lost) = retired.stats();
                            self.retired_seen = self.retired_seen + seen;
                            self.retired_lost = self.retired_lost + lost;
                        },
                        None => {},
                    }
                    assert(self@.generations =~= long.skip(1));
                }
                assert(self@ == before.with_generation(b));
                proof {
                    lemma_with_generation(before, b);
                }
            },
        }
        let ghost mid = self@;
        let accepted = match self.generations.pop_back() {
            Some((nonce, mut window)) => {
                let ghost w0 = window@;
                let accepted = window.check_and_set(counter);
                self.generations.push_back((nonce, window));
                proof {
                    assert(mid.generations.last() == (nonce@, w0));
                    replay::lemma_step_valid(w0, counter);
                }
                assert(self@.generations =~= mid.with_counter(counter).generations);
                accepted
            },
            None => false,
        };
        proof {
            if !accepted {
                assert(mid.with_counter(counter).generations =~= mid.generations);
            }
        }
        if !accepted {
            return None;
        }
        Some((frame.sender_id, frame.frame_type, plain))
    }

    /// The totals, unless they have outgrown their type.
    pub fn checked_stats(&self) -> (totals: Option<(u64, u64)>)
        ensures
            totals == (if self@.total_seen() <= u64::MAX && self@.total_lost() <= u64::MAX {
                Some((self@.total_seen() as u64, self@.total_lost() as u64))
            } else {
                None
            }),
    {
        let mut seen: u64 = self.retired_seen;
        let mut lost: u64 = self.retired_lost;
        let n = self.generations.len();
        let ghost g = self@.generations;
        let mut i: usize = 0;
        assert(g.take(0) =~= Seq::empty());
        while i < n
            invariant
                i <= n,
                n == self.generations@.len(),
                g == self@.generations,
                seen == self.retired_seen + seen_sum(g.take(i as int)),
                lost == self.retired_lost + lost_sum(g.take(i as int)),
            decreases n - i,
        {
            let (s, l) = self.generations[i].1.stats();
            proof {
                assert(g.take(i + 1).drop_last() =~= g.take(i as int));
                assert(g.take(i + 1).last() == g[i as int]);
                lemma_prefix_sums(g, i + 1);
            }
            if s > u64::MAX - seen || l > u64::MAX - lost {
                return None;
            }
            seen = seen + s;
            lost = lost + l;
            i += 1;
        }
        assert(g.take(n as int) =~= g);
        Some((seen, lost))
    }

    /// Frames received and frames lost, over all starts of the peer.
    pub fn stats(&self) -> (totals: (u64, u64))
        requires
            self@.total_seen() <= u64::MAX,
            self@.total_lost() <= u64::MAX,
        ensures
            totals == (self@.total_seen() as u64, self@.total_lost() as u64),
    {
        match self.checked_stats() {
            Some(totals) => totals,
            None => (0, 0),
        }
    }
}

proof fn lemma_prefix_sums(g: Seq<Generation>, n: int)
    requires
        0 <= n <= g.len(),
    ensures
        seen_sum(g.take(n)) <= seen_sum(g),
        lost_sum(g.take(n)) <= lost_sum(g),
    decreases g.len() - n,
{
    if n < g.len() {
        lemma_prefix_sums(g, n + 1);
        assert(g.take(n + 1).drop_last() =~= g.take(n));
    } else {
        assert(g.take(n) =~= g);
    }
}

proof fn lemma_with_generation(c: CodecView, boot: Seq<u8>)
    requires
        c.valid(),
        !knows(c.generations, boot),
    ensures
        c.with_generation(boot).valid(),
        c.with_generation(boot).generations.len() > 0,
        c.with_generation(boot).generations.last() == (boot, WindowView::fresh()),
{
    let longer = c.generations.push((boot, WindowView::fresh()));
    let g = c.with_generation(boot).generations;
    let shift: int = if longer.len() > BOOT_NONCE_GENERATIONS {
        1
    } else {
        0
    };
    assert forall|i: int, j: int|
        #![trigger g[i], g[j]]
        0 <= i < j < g.len() implies g[i].0 != g[j].0 by {
        assert(g[i] == longer[i + shift]);
        assert(g[j] == longer[j + shift]);
        assert(c.generations[i + shift].0 != boot);
        if j + shift < c.generations.len() {
            assert(c.generations[i + shift].0 != c.generations[j + shift].0);
        }
    }
    assert forall|i: int| 0 <= i < g.len() implies #[trigger] g[i].1.valid() by {
        assert(g[i] == longer[i + shift]);
        if i + shift < c.generations.len() {
            assert(c.generations[i + shift].1.valid());
        }
    }
}

/// Showing a packet to a codec keeps it in order.
pub proof fn lemma_open_step_valid(c: CodecView, packet: Seq<u8>)
    requires
        c.valid(),
    ensures
        c.open_step(packet).0.valid(),
{
    let boot = packet_boot(packet);
    let counter = packet_counter(packet);
    if !knows(c.generations, boot) {
        lemma_with_generation(c, boot);
        lemma_with_counter_valid(c.with_generation(boot), counter);
    } else if c.generations.last().0 == boot {
        lemma_with_counter_valid(c, counter);
    }
}

proof fn lemma_with_counter_valid(c: CodecView, counter: u64)
    requires
        c.valid(),
        c.generations.len() > 0,
    ensures
        c.with_counter(counter).valid(),
{
    let last = c.generations.len() - 1;
    assert(c.generations[last].1.valid());
    replay::lemma_step_valid(c.generations[last].1, counter);
    let g = c.with_counter(counter).generations;
    assert forall|i: int, j: int|
        #![trigger g[i], g[j]]
        0 <= i < j < g.len() implies g[i].0 != g[j].0 by {
        assert(c.generations[i].0 != c.generations[j].0);
    }
    assert forall|i: int| 0 <= i < g.len() implies #[trigger] g[i].1.valid() by {
        assert(c.generations[i].1.valid());
    }
}

/// What was sealed for a peer opens at the peer: a packet that is authentic
/// under the receiving key, from an unknown start or from the newest one with a
/// counter that the window accepts, is handed out.
pub proof fn lemma_fresh_frame_opens(c: CodecView, packet: Seq<u8>, content: (u64, u8, Seq<u8>))
    requires
        c.valid(),
        authentic(c.recv_key, packet) == Some(content),
        is_new_to(c, packet_boot(packet), packet_counter(packet)),
    ensures
        c.open_step(packet).1 == Some(content),
{
}

/// A packet that is not authentic under the receiving key leaves no trace, so a
/// node may try the codecs of several networks on one packet.
pub proof fn lemma_unauthentic_packet_leaves_no_trace(c: CodecView, packet: Seq<u8>)
    requires
        authentic(c.recv_key, packet) is None,
    ensures
        c.open_step(packet) == (c, None::<(u64, u8, Seq<u8>)>),
{
}

/// A packet that is refused, for whatever reason, leaves the codec as it was.
pub proof fn lemma_refused_packet_leaves_no_trace(c: CodecView, packet: Seq<u8>)
    requires
        c.open_step(packet).1 is None,
    ensures
        c.open_step(packet).0 == c,
{
}

/// Frames of a start that a newer one has overtaken are refused, and refusing
/// them changes nothing.
pub proof fn lemma_older_start_is_refused(c: CodecView, packet: Seq<u8>)
    requires
        c.valid(),
        knows(c.generations, packet_boot(packet)),
        c.generations.last().0 != packet_boot(packet),
    ensures
        c.open_step(packet) == (c, None::<(u64, u8, Seq<u8>)>),
{
}

/// The codec would refuse this packet, now and as long as it remembers the
/// packet's start.
pub open spec fn refuses(c: CodecView, packet: Seq<u8>) -> bool {
    exists|i: int|
        0 <= i < c.generations.len() && #[trigger] c.generations[i].0 == packet_boot(packet) && (i
            < c.generations.len() - 1 || !c.generations[i].1.accepts(packet_counter(packet)))
}

proof fn lemma_refuses_gives_nothing(c: CodecView, packet: Seq<u8>)
    requires
        c.valid(),
        refuses(c, packet),
    ensures
        c.open_step(packet).1 is None,
        c.open_step(packet).0 == c,
{
    let i = choose|i: int|
        0 <= i < c.generations.len() && #[trigger] c.generations[i].0 == packet_boot(packet) && (i
            < c.generations.len() - 1 || !c.generations[i].1.accepts(packet_counter(packet)));
    let last = c.generations.len() - 1;
    if i < last {
        assert(c.generations[i].0 != c.generations[last].0);
    }
}

proof fn lemma_refusal_stays(c: CodecView, packet: Seq<u8>, other: Seq<u8>)
    requires
        c.valid(),
        refuses(c, packet),
        knows(c.open_step(other).0.generations, packet_boot(packet)),
    ensures
        refuses(c.open_step(other).0, packet),
{
    let boot = packet_boot(packet);
    let ctr = packet_counter(packet);
    let d = c.open_step(other).0;
    lemma_open_step_valid(c, other);
    let i = choose|i: int|
        0 <= i < c.generations.len() && #[trigger] c.generations[i].0 == boot && (i
            < c.generations.len() - 1 || !c.generations[i].1.accepts(ctr));
    let j = choose|j: int| 0 <= j < d.generations.len() && #[trigger] d.generations[j].0 == boot;
    let o = packet_boot(other);
    if d != c {
        if !knows(c.generations, o) {
            assert(o != boot);
            assert(d.generations.last().0 == o);
            assert(j < d.generations.len() - 1);
        } else {
            let last = c.generations.len() - 1;
            assert(d.generations[i].0 == boot);
            if i == last {
                assert(c.generations[last].1.valid());
                lemma_refused_window_stays(
                    c.generations[last].1,
                    ctr,
                    packet_counter(other),
                );
            }
        }
    }
}

proof fn lemma_refused_window_stays(w: WindowView, ctr: u64, other: u64)
    requires
        w.valid(),
        !w.accepts(ctr),
    ensures
        !w.step(other).accepts(ctr),
{
    assert(w.step(ctr) == w);
    replay::lemma_never_accepted_twice(w, ctr, seq![other]);
    assert(seq![other].drop_last() =~= Seq::empty());
    reveal_with_fuel(WindowView::run, 2);
    assert(w.run(seq![other]) == w.step(other));
}

/// A packet is handed out once: whatever packets come in between, it is refused
/// as long as the codec remembers the start that it came from.
pub proof fn lemma_packet_opens_once(c: CodecView, packet: Seq<u8>, between: Seq<Seq<u8>>)
    requires
        c.valid(),
        c.open_step(packet).1 is Some,
        forall|k: int|
            0 <= k <= between.len() ==> knows(
                (#[trigger] c.open_step(packet).0.open_all(between.take(k))).generations,
                packet_boot(packet),
            ),
    ensures
        c.open_step(packet).0.open_all(between).open_step(packet).1 is None,
{
    let d = c.open_step(packet).0;
    lemma_open_step_valid(c, packet);
    lemma_opened_is_refused(c, packet);
    lemma_refused_through(d, packet, between, between.len() as int);
    assert(between.take(between.len() as int) =~= between);
    lemma_refuses_gives_nothing(d.open_all(between), packet);
}

/// A packet that was handed out is refused when it comes again.
pub proof fn lemma_handed_out_is_refused(c: CodecView, packet: Seq<u8>)
    requires
        c.valid(),
        c.open_step(packet).1 is Some,
    ensures
        c.open_step(packet).0.open_step(packet).1 is None,
{
    lemma_open_step_valid(c, packet);
    lemma_opened_is_refused(c, packet);
    lemma_refuses_gives_nothing(c.open_step(packet).0, packet);
}

proof fn lemma_opened_is_refused(c: CodecView, packet: Seq<u8>)
    requires
        c.valid(),
        c.open_step(packet).1 is Some,
    ensures
        refuses(c.open_step(packet).0, packet),
{
    let boot = packet_boot(packet);
    let ctr = packet_counter(packet);
    let mid = if !knows(c.generations, boot) {
        c.with_generation(boot)
    } else {
        c
    };
    if !knows(c.generations, boot) {
        lemma_with_generation(c, boot);
    }
    let last = mid.generations.len() - 1;
    let d = c.open_step(packet).0;
    assert(mid.generations[last].1.valid());
    replay::lemma_never_accepted_twice(mid.generations[last].1, ctr, Seq::empty());
    assert(d.generations[last] == (boot, mid.generations[last].1.step(ctr)));
    assert(d.generations[last].0 == boot);
}

proof fn lemma_refused_through(d: CodecView, packet: Seq<u8>, between: Seq<Seq<u8>>, n: int)
    requires
        d.valid(),
        refuses(d, packet),
        0 <= n <= between.len(),
        forall|k: int|
            0 <= k <= between.len() ==> knows(
                (#[trigger] d.open_all(between.take(k))).generations,
                packet_boot(packet),
            ),
    ensures
        d.open_all(between.take(n)).valid(),
        refuses(d.open_all(between.take(n)), packet),
    decreases n,
{
    if n == 0 {
        assert(between.take(0) =~= Seq::empty());
    } else {
        lemma_refused_through(d, packet, between, n - 1);
        let before = d.open_all(between.take(n - 1));
        assert(between.take(n).drop_last() =~= between.take(n - 1));
        let next = d.open_all(between.take(n));
        assert(next == before.open_step(between[n - 1]).0);
        lemma_open_step_valid(before, between[n - 1]);
        lemma_refusal_stays(before, packet, between[n - 1]);
    }
}

proof fn lemma_sums_split(g: Seq<Generation>)
    requires
        g.len() > 0,
    ensures
        seen_sum(g) == g[0].1.seen + seen_sum(g.skip(1)),
        lost_sum(g) == g[0].1.lost + lost_sum(g.skip(1)),
    decreases g.len(),
{
    if g.len() > 1 {
        lemma_sums_split(g.drop_last());
        assert(g.drop_last().skip(1) =~= g.skip(1).drop_last());
    } else {
        assert(g.skip(1) =~= Seq::empty());
        assert(g.drop_last() =~= Seq::empty());
        assert(seen_sum(g.drop_last()) == 0);
        assert(lost_sum(g.drop_last()) == 0);
    }
}

/// The totals survive the dropping of old starts: each frame that is handed out
/// adds one to the frames received, and nothing else does.
pub proof fn lemma_totals_survive_retirement(c: CodecView, packet: Seq<u8>)
    requires
        c.valid(),
        c.has_room(),
    ensures
        c.open_step(packet).0.total_seen() == c.total_seen() + (if c.open_step(packet).1 is Some {
            1int
        } else {
            0int
        }),
        !knows(c.generations, packet_boot(packet)) ==> c.open_step(packet).0.total_lost()
            == c.total_lost(),
{
    let boot = packet_boot(packet);
    let ctr = packet_counter(packet);
    if authentic(c.recv_key, packet) is Some {
        if !knows(c.generations, boot) {
            let longer = c.generations.push((boot, WindowView::fresh()));
            assert(longer.drop_last() =~= c.generations);
            if longer.len() > BOOT_NONCE_GENERATIONS {
                lemma_sums_split(longer);
            }
            let mid = c.with_generation(boot);
            lemma_with_generation(c, boot);
            lemma_with_counter_sums(mid, ctr);
        } else if c.generations.last().0 == boot && c.generations.last().1.accepts(ctr) {
            lemma_with_counter_sums(c, ctr);
        }
    }
}

/// What the arrival at `i` gives, after all arrivals before it were shown to the
/// codec.
pub open spec fn opened(c: CodecView, arrivals: Seq<Seq<u8>>, i: int) -> Option<
    (u64, u8, Seq<u8>),
> {
    c.open_all(arrivals.take(i)).open_step(arrivals[i]).1
}

/// The arrival at `i` was handed out, and comes from this start.
pub open spec fn opened_from(c: CodecView, arrivals: Seq<Seq<u8>>, i: int, boot: Seq<u8>) -> bool {
    opened(c, arrivals, i) is Some && packet_boot(arrivals[i]) == boot
}

/// Before the arrival at `i`, no other start has followed this one.
pub open spec fn is_current(c: CodecView, arrivals: Seq<Seq<u8>>, i: int, boot: Seq<u8>) -> bool {
    forall|j: int, k: int|
        #![trigger opened_from(c, arrivals, j, boot), opened(c, arrivals, k)]
        0 <= j < k < i && opened_from(c, arrivals, j, boot) && opened(c, arrivals, k) is Some
            ==> packet_boot(arrivals[k]) == boot
}

/// Before the arrival at `i`, nothing of this start with this counter was handed out,
/// nor anything that is a whole window ahead of it.
pub open spec fn is_awaited(
    c: CodecView,
    arrivals: Seq<Seq<u8>>,
    i: int,
    boot: Seq<u8>,
    counter: u64,
) -> bool {
    forall|j: int| #[trigger]
        opened_from(c, arrivals, j, boot) && 0 <= j < i ==> packet_counter(arrivals[j]) != counter
            && packet_counter(arrivals[j]) - counter < replay::WINDOW_BITS
}

/// All authentic arrivals come from these starts of the peer.
pub open spec fn come_from(key: Seq<u8>, arrivals: Seq<Seq<u8>>, boots: Seq<Seq<u8>>) -> bool {
    forall|j: int|
        0 <= j < arrivals.len() && authentic(key, #[trigger] arrivals[j]) is Some ==> boots.contains(
            packet_boot(arrivals[j]),
        )
}

/// What a codec hands out over a whole run of arrivals, in whatever order they come
/// and whatever else comes with them: an authentic frame is handed out if and only if
/// no later start of the peer was heard of, no frame with its counter was handed out,
/// and none that is a whole window ahead of it.
pub proof fn lemma_run(c: CodecView, arrivals: Seq<Seq<u8>>, boots: Seq<Seq<u8>>, i: int)
    requires
        c.generations.len() == 0,
        come_from(c.recv_key, arrivals, boots),
        boots.len() <= BOOT_NONCE_GENERATIONS,
        0 <= i < arrivals.len(),
    ensures
        opened(c, arrivals, i) == (if is_current(c, arrivals, i, packet_boot(arrivals[i]))
            && is_awaited(
            c,
            arrivals,
            i,
            packet_boot(arrivals[i]),
            packet_counter(arrivals[i]),
        ) {
            authentic(c.recv_key, arrivals[i])
        } else {
            None
        }),
{
    lemma_run_state(c, arrivals, boots, i);
    lemma_opened_when(c, arrivals, i);
}

/// The first frame of a start that was not heard of is handed out, whatever its counter
/// is and however far an earlier start had counted.
pub proof fn lemma_new_start_opens(c: CodecView, arrivals: Seq<Seq<u8>>, boots: Seq<Seq<u8>>, i: int)
    requires
        c.generations.len() == 0,
        come_from(c.recv_key, arrivals, boots),
        boots.len() <= BOOT_NONCE_GENERATIONS,
        0 <= i < arrivals.len(),
        forall|j: int| 0 <= j < i ==> !#[trigger] opened_from(c, arrivals, j, packet_boot(arrivals[i])),
    ensures
        opened(c, arrivals, i) == authentic(c.recv_key, arrivals[i]),
{
    lemma_run(c, arrivals, boots, i);
}

/// A frame opens at most once: of two arrivals with one start and one counter, the
/// later is refused if the earlier was handed out.
pub proof fn lemma_frame_opens_at_most_once(
    c: CodecView,
    arrivals: Seq<Seq<u8>>,
    boots: Seq<Seq<u8>>,
    i: int,
    j: int,
)
    requires
        c.generations.len() == 0,
        come_from(c.recv_key, arrivals, boots),
        boots.len() <= BOOT_NONCE_GENERATIONS,
        0 <= i < j < arrivals.len(),
        packet_boot(arrivals[i]) == packet_boot(arrivals[j]),
        packet_counter(arrivals[i]) == packet_counter(arrivals[j]),
        opened(c, arrivals, i) is Some,
    ensures
        opened(c, arrivals, j) is None,
{
    lemma_run(c, arrivals, boots, j);
    assert(opened_from(c, arrivals, i, packet_boot(arrivals[j])));
}

/// Once a frame of a later start was handed out, no frame of an earlier one is, whether
/// or not it came before.
pub proof fn lemma_later_start_ends_the_earlier(
    c: CodecView,
    arrivals: Seq<Seq<u8>>,
    boots: Seq<Seq<u8>>,
    earlier: int,
    later: int,
    i: int,
)
    requires
        c.generations.len() == 0,
        come_from(c.recv_key, arrivals, boots),
        boots.len() <= BOOT_NONCE_GENERATIONS,
        0 <= earlier < later < i < arrivals.len(),
        opened(c, arrivals, earlier) is Some,
        opened(c, arrivals, later) is Some,
        packet_boot(arrivals[later]) != packet_boot(arrivals[earlier]),
        packet_boot(arrivals[i]) == packet_boot(arrivals[earlier]),
    ensures
        opened(c, arrivals, i) is None,
{
    lemma_run(c, arrivals, boots, i);
    assert(opened_from(c, arrivals, earlier, packet_boot(arrivals[i])));
}

/// The packets are what a codec makes of these messages, one after the other.
pub open spec fn are_sealed(
    a: CodecView,
    sealed: Seq<Seq<u8>>,
    sent: Seq<(u64, u8, Seq<u8>)>,
) -> bool {
    &&& sealed.len() == sent.len()
    &&& a.counter + sealed.len() <= u64::MAX
    &&& forall|k: int|
        0 <= k < sealed.len() ==> is_next_frame(
            (CodecView { counter: (a.counter + k) as u64, ..a }),
            #[trigger] sealed[k],
            sent[k].0,
            sent[k].1,
            sent[k].2,
        ) && is_frame_type(sent[k].1)
}

/// The frames that a peer seals open exactly once at the other side, each with what
/// was sealed into it, and in any order: where nobody else makes frames of that start,
/// a frame that arrives is handed out the first time, unless a later start was heard
/// of or a frame that is a whole window ahead of it was handed out; every other time
/// it is refused.
pub proof fn lemma_sealed_frames_open_once(
    c: CodecView,
    a: CodecView,
    sealed: Seq<Seq<u8>>,
    sent: Seq<(u64, u8, Seq<u8>)>,
    arrivals: Seq<Seq<u8>>,
    boots: Seq<Seq<u8>>,
    i: int,
    k: int,
)
    requires
        c.generations.len() == 0,
        come_from(c.recv_key, arrivals, boots),
        boots.len() <= BOOT_NONCE_GENERATIONS,
        a.send_key == c.recv_key,
        are_sealed(a, sealed, sent),
        forall|j: int|
            0 <= j < arrivals.len() && authentic(c.recv_key, #[trigger] arrivals[j]) is Some
                && packet_boot(arrivals[j]) == a.boot ==> sealed.contains(arrivals[j]),
        0 <= i < arrivals.len(),
        0 <= k < sealed.len(),
        arrivals[i] == sealed[k],
    ensures
        opened(c, arrivals, i) == (if is_current(c, arrivals, i, a.boot) && (forall|j: int|
            #![trigger opened(c, arrivals, j)]
            0 <= j < i && opened(c, arrivals, j) is Some ==> arrivals[j] != sealed[k]) && (forall|
            j: int,
            m: int,
        |
            #![trigger opened(c, arrivals, j), sealed[m]]
            0 <= j < i && opened(c, arrivals, j) is Some && 0 <= m < sealed.len() && arrivals[j]
                == sealed[m] ==> m - k < replay::WINDOW_BITS) {
            Some(sent[k])
        } else {
            None
        }),
{
    lemma_run(c, arrivals, boots, i);
    let boot = a.boot;
    let counter = packet_counter(arrivals[i]);
    assert(packet_boot(sealed[k]) == boot);
    assert(counter == a.counter + k + 1);
    let first = forall|j: int|
        #![trigger opened(c, arrivals, j)]
        0 <= j < i && opened(c, arrivals, j) is Some ==> arrivals[j] != sealed[k];
    let near = forall|j: int, m: int|
        #![trigger opened(c, arrivals, j), sealed[m]]
        0 <= j < i && opened(c, arrivals, j) is Some && 0 <= m < sealed.len() && arrivals[j]
            == sealed[m] ==> m - k < replay::WINDOW_BITS;
    if first && near {
        assert forall|j: int| #[trigger] opened_from(c, arrivals, j, boot) && 0 <= j < i implies
            packet_counter(arrivals[j]) != counter && packet_counter(arrivals[j]) - counter
            < replay::WINDOW_BITS by {
            lemma_opened_is_authentic(c, arrivals, j);
            let m = choose|m: int| 0 <= m < sealed.len() && sealed[m] == arrivals[j];
            assert(packet_counter(sealed[m]) == a.counter + m + 1);
            assert(opened(c, arrivals, j) is Some);
            assert(m - k < replay::WINDOW_BITS);
            if m == k {
                assert(arrivals[j] == sealed[k]);
            }
        }
    }
    if is_awaited(c, arrivals, i, boot, counter) {
        assert forall|j: int|
            #![trigger opened(c, arrivals, j)]
            0 <= j < i && opened(c, arrivals, j) is Some implies arrivals[j] != sealed[k] by {
            if arrivals[j] == sealed[k] {
                assert(opened_from(c, arrivals, j, boot));
            }
        }
        assert forall|j: int, m: int|
            #![trigger opened(c, arrivals, j), sealed[m]]
            0 <= j < i && opened(c, arrivals, j) is Some && 0 <= m < sealed.len() && arrivals[j]
                == sealed[m] implies m - k < replay::WINDOW_BITS by {
            assert(packet_boot(sealed[m]) == boot);
            assert(packet_counter(sealed[m]) == a.counter + m + 1);
            assert(opened_from(c, arrivals, j, boot));
        }
    }
}

proof fn lemma_opened_is_authentic(c: CodecView, arrivals: Seq<Seq<u8>>, j: int)
    requires
        0 <= j < arrivals.len(),
        opened(c, arrivals, j) is Some,
    ensures
        authentic(c.recv_key, arrivals[j]) == opened(c, arrivals, j),
{
    lemma_key_stays(c, arrivals.take(j));
}

proof fn lemma_key_stays(c: CodecView, arrivals: Seq<Seq<u8>>)
    ensures
        c.open_all(arrivals).recv_key == c.recv_key,
    decreases arrivals.len(),
{
    if arrivals.len() > 0 {
        lemma_key_stays(c, arrivals.drop_last());
    }
}

/// What the codec remembers of the arrivals before the one at `k`: the starts that were
/// heard of, and of the newest of them the counters that were handed out.
spec fn remembers(c: CodecView, arrivals: Seq<Seq<u8>>, k: int) -> bool {
    let d = c.open_all(arrivals.take(k));
    &&& d.valid()
    &&& d.recv_key == c.recv_key
    &&& forall|b: Seq<u8>| #[trigger]
        knows(d.generations, b) ==> exists|j: int| 0 <= j < k && #[trigger] opened_from(c, arrivals, j, b)
    &&& forall|j: int|
        0 <= j < k && #[trigger] opened(c, arrivals, j) is Some ==> knows(
            d.generations,
            packet_boot(arrivals[j]),
        )
    &&& d.generations.len() > 0 ==> {
        &&& is_current(c, arrivals, k, d.generations.last().0)
        &&& forall|n: u64| #[trigger]
            d.generations.last().1.accepts(n) == is_awaited(c, arrivals, k, d.generations.last().0, n)
        &&& forall|b: Seq<u8>| #[trigger]
            knows(d.generations, b) && b != d.generations.last().0 ==> !is_current(c, arrivals, k, b)
    }
}

proof fn lemma_opened_when(c: CodecView, arrivals: Seq<Seq<u8>>, i: int)
    requires
        0 <= i < arrivals.len(),
        remembers(c, arrivals, i),
    ensures
        opened(c, arrivals, i) == (if is_current(c, arrivals, i, packet_boot(arrivals[i]))
            && is_awaited(
            c,
            arrivals,
            i,
            packet_boot(arrivals[i]),
            packet_counter(arrivals[i]),
        ) {
            authentic(c.recv_key, arrivals[i])
        } else {
            None
        }),
{
    let d = c.open_all(arrivals.take(i));
    let boot = packet_boot(arrivals[i]);
    let counter = packet_counter(arrivals[i]);
    if !knows(d.generations, boot) {
        assert forall|j: int| #[trigger] opened_from(c, arrivals, j, boot) && 0 <= j < i implies false by {
            assert(opened(c, arrivals, j) is Some);
        }
    } else if d.generations.last().0 == boot {
        assert(d.generations.last().1.accepts(counter) == is_awaited(c, arrivals, i, boot, counter));
    }
}

proof fn lemma_few_starts(c: CodecView, arrivals: Seq<Seq<u8>>, boots: Seq<Seq<u8>>, k: int)
    requires
        come_from(c.recv_key, arrivals, boots),
        boots.len() <= BOOT_NONCE_GENERATIONS,
        0 <= k < arrivals.len(),
        remembers(c, arrivals, k),
        authentic(c.recv_key, arrivals[k]) is Some,
        !knows(c.open_all(arrivals.take(k)).generations, packet_boot(arrivals[k])),
    ensures
        c.open_all(arrivals.take(k)).generations.len() < BOOT_NONCE_GENERATIONS,
{
    let d = c.open_all(arrivals.take(k));
    let boot = packet_boot(arrivals[k]);
    let known = d.generations.map_values(|g: Generation| g.0);
    let all = known.push(boot);
    assert forall|x: int| 0 <= x < all.len() implies boots.contains(#[trigger] all[x]) by {
        if x < known.len() {
            assert(d.generations[x].0 == all[x]);
            assert(knows(d.generations, all[x]));
            let j = choose|j: int| 0 <= j < k && #[trigger] opened_from(c, arrivals, j, all[x]);
            lemma_opened_is_authentic(c, arrivals, j);
        }
    }
    assert forall|x: int, y: int| 0 <= x < y < all.len() implies all[x] != all[y] by {
        assert(d.generations[x].0 == all[x]);
        if y < known.len() {
            assert(d.generations[x].0 != d.generations[y].0);
        } else {
            assert(knows(d.generations, all[x]));
        }
    }
    assert(all.no_duplicates());
    assert(all.to_set().subset_of(boots.to_set())) by {
        assert forall|b: Seq<u8>| all.to_set().contains(b) implies boots.to_set().contains(b) by {
            let x = choose|x: int| 0 <= x < all.len() && all[x] == b;
            assert(boots.contains(all[x]));
        }
    }
    all.unique_seq_to_set();
    boots.lemma_cardinality_of_set();
    vstd::seq_lib::seq_to_set_is_finite(boots);
    vstd::set_lib::lemma_len_subset(all.to_set(), boots.to_set());
}

/// A refused arrival leaves what the codec remembers as it was.
proof fn lemma_run_refused(c: CodecView, arrivals: Seq<Seq<u8>>, k: int)
    requires
        0 < k <= arrivals.len(),
        remembers(c, arrivals, k - 1),
        c.open_all(arrivals.take(k)) == c.open_all(arrivals.take(k - 1)).open_step(arrivals[k - 1]).0,
        opened(c, arrivals, k - 1) is None,
    ensures
        remembers(c, arrivals, k),
{
    let d = c.open_all(arrivals.take(k - 1));
    assert(c.open_all(arrivals.take(k)) == d);
    assert forall|b: Seq<u8>| is_current(c, arrivals, k, b) == is_current(c, arrivals, k - 1, b) by {
        lemma_current_step(c, arrivals, k, b);
    }
    assert forall|b: Seq<u8>, n: u64|
        is_awaited(c, arrivals, k, b, n) == is_awaited(c, arrivals, k - 1, b, n) by {
        lemma_awaited_step(c, arrivals, k, b, n);
    }
    assert forall|b: Seq<u8>| #[trigger] knows(d.generations, b) implies exists|j: int|
        0 <= j < k && #[trigger] opened_from(c, arrivals, j, b) by {
        let j = choose|j: int| 0 <= j < k - 1 && #[trigger] opened_from(c, arrivals, j, b);
        assert(opened_from(c, arrivals, j, b));
    }
}

/// How one more arrival bears on whether a start is the newest.
proof fn lemma_current_step(c: CodecView, arrivals: Seq<Seq<u8>>, k: int, boot: Seq<u8>)
    requires
        0 < k <= arrivals.len(),
    ensures
        is_current(c, arrivals, k, boot) == (is_current(c, arrivals, k - 1, boot) && (opened(
            c,
            arrivals,
            k - 1,
        ) is Some && packet_boot(arrivals[k - 1]) != boot ==> forall|j: int|
            0 <= j < k - 1 ==> !#[trigger] opened_from(c, arrivals, j, boot))),
{
}

/// How one more arrival bears on whether a counter is awaited.
proof fn lemma_awaited_step(c: CodecView, arrivals: Seq<Seq<u8>>, k: int, boot: Seq<u8>, n: u64)
    requires
        0 < k <= arrivals.len(),
    ensures
        is_awaited(c, arrivals, k, boot, n) == (is_awaited(c, arrivals, k - 1, boot, n) && (opened_from(
            c,
            arrivals,
            k - 1,
            boot,
        ) ==> packet_counter(arrivals[k - 1]) != n && packet_counter(arrivals[k - 1]) - n
            < replay::WINDOW_BITS)),
{
}

/// What a window accepts after it has let a counter through.
proof fn lemma_window_step(w: WindowView, counter: u64, n: u64)
    requires
        w.valid(),
        w.accepts(counter),
    ensures
        w.step(counter).accepts(n) == (w.accepts(n) && counter != n && counter - n
            < replay::WINDOW_BITS),
{
}

#[verifier::rlimit(40)]
proof fn lemma_run_new_start(c: CodecView, arrivals: Seq<Seq<u8>>, k: int)
    requires
        0 < k <= arrivals.len(),
        remembers(c, arrivals, k - 1),
        c.open_all(arrivals.take(k)) == c.open_all(arrivals.take(k - 1)).open_step(arrivals[k - 1]).0,
        c.open_all(arrivals.take(k)).valid(),
        opened(c, arrivals, k - 1) is Some,
        !knows(c.open_all(arrivals.take(k - 1)).generations, packet_boot(arrivals[k - 1])),
        c.open_all(arrivals.take(k - 1)).generations.len() < BOOT_NONCE_GENERATIONS,
    ensures
        remembers(c, arrivals, k),
{
    let d = c.open_all(arrivals.take(k - 1));
    let e = c.open_all(arrivals.take(k));
    let boot = packet_boot(arrivals[k - 1]);
    let counter = packet_counter(arrivals[k - 1]);
    let g = d.generations;
    assert(e.generations =~= g.push((boot, WindowView::fresh().step(counter))));
    assert(opened_from(c, arrivals, k - 1, boot));
    assert forall|j: int| 0 <= j < k - 1 implies !#[trigger] opened_from(c, arrivals, j, boot) by {
        if opened_from(c, arrivals, j, boot) {
            assert(opened(c, arrivals, j) is Some);
        }
    }
    assert forall|b: Seq<u8>| #[trigger] knows(e.generations, b) == (b == boot || knows(g, b)) by {
        lemma_knows_push(g, boot, WindowView::fresh().step(counter), b);
    }
    assert forall|b: Seq<u8>| #[trigger] knows(e.generations, b) implies exists|j: int|
        0 <= j < k && #[trigger] opened_from(c, arrivals, j, b) by {
        if b == boot {
            assert(opened_from(c, arrivals, k - 1, b));
        } else {
            assert(knows(g, b));
            let j = choose|j: int| 0 <= j < k - 1 && #[trigger] opened_from(c, arrivals, j, b);
            assert(opened_from(c, arrivals, j, b));
        }
    }
    assert forall|j: int| 0 <= j < k && #[trigger] opened(c, arrivals, j) is Some implies knows(
        e.generations,
        packet_boot(arrivals[j]),
    ) by {
        if j < k - 1 {
            assert(knows(g, packet_boot(arrivals[j])));
        }
    }
    lemma_current_step(c, arrivals, k, boot);
    assert(is_current(c, arrivals, k - 1, boot));
    assert forall|n: u64| #[trigger]
        e.generations.last().1.accepts(n) == is_awaited(c, arrivals, k, boot, n) by {
        lemma_awaited_step(c, arrivals, k, boot, n);
        assert(is_awaited(c, arrivals, k - 1, boot, n));
        lemma_window_step(WindowView::fresh(), counter, n);
    }
    assert forall|b: Seq<u8>| #[trigger] knows(e.generations, b) && b != boot implies !is_current(
        c,
        arrivals,
        k,
        b,
    ) by {
        assert(knows(g, b));
        lemma_current_step(c, arrivals, k, b);
        let j = choose|j: int| 0 <= j < k - 1 && #[trigger] opened_from(c, arrivals, j, b);
        assert(opened_from(c, arrivals, j, b));
    }
}

proof fn lemma_knows_push(g: Seq<Generation>, boot: Seq<u8>, w: WindowView, b: Seq<u8>)
    ensures
        knows(g.push((boot, w)), b) == (b == boot || knows(g, b)),
{
    let more = g.push((boot, w));
    if b == boot {
        assert(more[g.len() as int].0 == b);
    } else if knows(g, b) {
        let i = choose|i: int| 0 <= i < g.len() && #[trigger] g[i].0 == b;
        assert(more[i].0 == b);
    } else if knows(more, b) {
        let i = choose|i: int| 0 <= i < more.len() && #[trigger] more[i].0 == b;
        assert(g[i].0 == b);
    }
}

proof fn lemma_knows_update(g: Seq<Generation>, w: WindowView, b: Seq<u8>)
    requires
        g.len() > 0,
    ensures
        knows(g.update(g.len() - 1, (g.last().0, w)), b) == knows(g, b),
{
    let changed = g.update(g.len() - 1, (g.last().0, w));
    if knows(g, b) {
        let x = choose|x: int| 0 <= x < g.len() && #[trigger] g[x].0 == b;
        assert(changed[x].0 == b);
    }
    if knows(changed, b) {
        let x = choose|x: int| 0 <= x < g.len() && #[trigger] changed[x].0 == b;
        assert(g[x].0 == b);
    }
}

/// The codec has taken in one more frame of the newest start.
spec fn goes_on(c: CodecView, arrivals: Seq<Seq<u8>>, k: int) -> bool {
    let d = c.open_all(arrivals.take(k - 1));
    let e = c.open_all(arrivals.take(k));
    let boot = packet_boot(arrivals[k - 1]);
    let counter = packet_counter(arrivals[k - 1]);
    &&& 0 < k <= arrivals.len()
    &&& opened(c, arrivals, k - 1) is Some
    &&& d.generations.len() > 0
    &&& d.generations.last().0 == boot
    &&& d.generations.last().1.accepts(counter)
    &&& e.recv_key == d.recv_key
    &&& e.generations == d.generations.update(
        d.generations.len() - 1,
        (boot, d.generations.last().1.step(counter)),
    )
}

proof fn lemma_same_start_keeps_starts(c: CodecView, arrivals: Seq<Seq<u8>>, k: int, b: Seq<u8>, j: int)
    requires
        goes_on(c, arrivals, k),
        remembers(c, arrivals, k - 1),
    ensures
        knows(c.open_all(arrivals.take(k)).generations, b) ==> exists|i: int|
            0 <= i < k && #[trigger] opened_from(c, arrivals, i, b),
        0 <= j < k && opened(c, arrivals, j) is Some ==> knows(
            c.open_all(arrivals.take(k)).generations,
            packet_boot(arrivals[j]),
        ),
{
    let g = c.open_all(arrivals.take(k - 1)).generations;
    let w = g.last().1.step(packet_counter(arrivals[k - 1]));
    lemma_knows_update(g, w, b);
    if knows(g, b) {
        let i = choose|i: int| 0 <= i < k - 1 && #[trigger] opened_from(c, arrivals, i, b);
        assert(opened_from(c, arrivals, i, b));
    }
    lemma_knows_update(g, w, packet_boot(arrivals[j]));
    assert(g[g.len() - 1].0 == packet_boot(arrivals[k - 1]));
}

proof fn lemma_same_start_awaits(c: CodecView, arrivals: Seq<Seq<u8>>, k: int, n: u64)
    requires
        goes_on(c, arrivals, k),
        remembers(c, arrivals, k - 1),
    ensures
        c.open_all(arrivals.take(k)).generations.last().1.accepts(n) == is_awaited(
            c,
            arrivals,
            k,
            packet_boot(arrivals[k - 1]),
            n,
        ),
{
    let g = c.open_all(arrivals.take(k - 1)).generations;
    let boot = packet_boot(arrivals[k - 1]);
    let w = g.last().1;
    assert(g[g.len() - 1].1.valid());
    assert(w.accepts(n) == is_awaited(c, arrivals, k - 1, boot, n));
    lemma_awaited_step(c, arrivals, k, boot, n);
    assert(opened_from(c, arrivals, k - 1, boot));
    lemma_window_step(w, packet_counter(arrivals[k - 1]), n);
}

proof fn lemma_same_start_stays_newest(c: CodecView, arrivals: Seq<Seq<u8>>, k: int, b: Seq<u8>)
    requires
        goes_on(c, arrivals, k),
        remembers(c, arrivals, k - 1),
    ensures
        is_current(c, arrivals, k, packet_boot(arrivals[k - 1])),
        knows(c.open_all(arrivals.take(k)).generations, b) && b != packet_boot(arrivals[k - 1])
            ==> !is_current(c, arrivals, k, b),
{
    let g = c.open_all(arrivals.take(k - 1)).generations;
    lemma_current_step(c, arrivals, k, packet_boot(arrivals[k - 1]));
    lemma_current_step(c, arrivals, k, b);
    lemma_knows_update(g, g.last().1.step(packet_counter(arrivals[k - 1])), b);
}

#[verifier::rlimit(40)]
proof fn lemma_run_same_start(c: CodecView, arrivals: Seq<Seq<u8>>, k: int)
    requires
        goes_on(c, arrivals, k),
        remembers(c, arrivals, k - 1),
        c.open_all(arrivals.take(k)).valid(),
    ensures
        remembers(c, arrivals, k),
{
    let e = c.open_all(arrivals.take(k));
    let boot = packet_boot(arrivals[k - 1]);
    assert forall|b: Seq<u8>| #[trigger] knows(e.generations, b) implies exists|j: int|
        0 <= j < k && #[trigger] opened_from(c, arrivals, j, b) by {
        lemma_same_start_keeps_starts(c, arrivals, k, b, 0);
    }
    assert forall|j: int| 0 <= j < k && #[trigger] opened(c, arrivals, j) is Some implies knows(
        e.generations,
        packet_boot(arrivals[j]),
    ) by {
        lemma_same_start_keeps_starts(c, arrivals, k, boot, j);
    }
    assert(e.generations.last().0 == boot);
    lemma_same_start_stays_newest(c, arrivals, k, boot);
    assert forall|n: u64| #[trigger]
        e.generations.last().1.accepts(n) == is_awaited(c, arrivals, k, boot, n) by {
        lemma_same_start_awaits(c, arrivals, k, n);
    }
    assert forall|b: Seq<u8>| #[trigger] knows(e.generations, b) && b != boot implies !is_current(
        c,
        arrivals,
        k,
        b,
    ) by {
        lemma_same_start_stays_newest(c, arrivals, k, b);
    }
}

proof fn lemma_run_state(c: CodecView, arrivals: Seq<Seq<u8>>, boots: Seq<Seq<u8>>, k: int)
    requires
        c.generations.len() == 0,
        come_from(c.recv_key, arrivals, boots),
        boots.len() <= BOOT_NONCE_GENERATIONS,
        0 <= k <= arrivals.len(),
    ensures
        remembers(c, arrivals, k),
    decreases k,
{
    if k == 0 {
        assert(arrivals.take(0) =~= Seq::empty());
    } else {
        lemma_run_state(c, arrivals, boots, k - 1);
        let d = c.open_all(arrivals.take(k - 1));
        let e = c.open_all(arrivals.take(k));
        assert(arrivals.take(k).drop_last() =~= arrivals.take(k - 1));
        assert(arrivals.take(k).last() == arrivals[k - 1]);
        assert(e == d.open_step(arrivals[k - 1]).0);
        lemma_open_step_valid(d, arrivals[k - 1]);
        if opened(c, arrivals, k - 1) is None {
            lemma_run_refused(c, arrivals, k);
        } else {
            let boot = packet_boot(arrivals[k - 1]);
            if !knows(d.generations, boot) {
                lemma_few_starts(c, arrivals, boots, k - 1);
                lemma_run_new_start(c, arrivals, k);
            } else {
                lemma_run_same_start(c, arrivals, k);
            }
        }
    }
}

/// How many of the packets a codec hands out.
pub open spec fn handed_out(c: CodecView, packets: Seq<Seq<u8>>) -> int
    decreases packets.len(),
{
    if packets.len() == 0 {
        0
    } else {
        let rest = packets.drop_last();
        handed_out(c, rest) + (if c.open_all(rest).open_step(packets.last()).1 is Some {
            1int
        } else {
            0int
        })
    }
}

/// The frames received are the frames that were handed out, over every start of the
/// peer, those that are no longer remembered with the others.
pub proof fn lemma_received_is_handed_out(c: CodecView, packets: Seq<Seq<u8>>)
    requires
        c.valid(),
        forall|k: int| 0 <= k < packets.len() ==> (#[trigger] c.open_all(packets.take(k))).has_room(),
    ensures
        c.open_all(packets).valid(),
        c.open_all(packets).total_seen() == c.total_seen() + handed_out(c, packets),
    decreases packets.len(),
{
    if packets.len() > 0 {
        let rest = packets.drop_last();
        assert forall|k: int| 0 <= k < rest.len() implies (#[trigger] c.open_all(
            rest.take(k),
        )).has_room() by {
            assert(rest.take(k) =~= packets.take(k));
        }
        lemma_received_is_handed_out(c, rest);
        let before = c.open_all(rest);
        assert(rest =~= packets.take(packets.len() - 1));
        assert(before.has_room());
        lemma_open_step_valid(before, packets.last());
        lemma_totals_survive_retirement(before, packets.last());
    }
}

proof fn lemma_with_counter_sums(c: CodecView, counter: u64)
    requires
        c.generations.len() > 0,
        c.generations.last().1.accepts(counter),
        c.generations.last().1.seen < u64::MAX,
    ensures
        c.with_counter(counter).total_seen() == c.total_seen() + 1,
        c.with_counter(counter).total_lost() == c.total_lost() - c.generations.last().1.lost
            + c.generations.last().1.lost_after(counter),
{
    let g = c.with_counter(counter).generations;
    assert(g.drop_last() =~= c.generations.drop_last());
}

/// A frame on the wire: two bytes that tell what it is, the sender in eight bytes, the
/// type, the sixteen bytes of the sender's start, the counter in eight bytes, and what is
/// sealed. Numbers have their lowest byte first. All that is in the clear before the
/// start is sealed along.
pub proof fn lemma_frame_on_the_wire(
    key: Seq<u8>,
    boot: Seq<u8>,
    counter: u64,
    sender: u64,
    frame_type: u8,
    payload: Seq<u8>,
)
    requires
        boot.len() == 16,
    ensures
        ({
            let p = sealed_frame(key, boot, counter, sender, frame_type, payload);
            &&& p[0] == 0x0A && p[1] == 2
            &&& sender == p[2] + 0x100 * p[3] + 0x1_0000 * p[4] + 0x100_0000 * p[5] + 0x1_0000_0000 * p[6]
                + 0x100_0000_0000 * p[7] + 0x1_0000_0000_0000 * p[8] + 0x100_0000_0000_0000 * p[9]
            &&& p[10] == frame_type
            &&& p.subrange(11, 27) == boot
            &&& counter == p[27] + 0x100 * p[28] + 0x1_0000 * p[29] + 0x100_0000 * p[30] + 0x1_0000_0000 * p[31]
                + 0x100_0000_0000 * p[32] + 0x1_0000_0000_0000 * p[33] + 0x100_0000_0000_0000 * p[34]
            &&& p.skip(35) == primitives::aead_sealed(key, p.subrange(11, 35), p.take(11), payload)
            &&& packet_boot(p) == boot
            &&& packet_counter(p) == counter
        }),
{
    let header = clear_header(sender, frame_type);
    let count = endec::le_bytes(counter as nat, 8);
    let id = endec::le_bytes(sender as nat, 8);
    let nonce = boot + count;
    let sealed = primitives::aead_sealed(key, nonce, header, payload);
    let p = sealed_frame(key, boot, counter, sender, frame_type, payload);
    endec::lemma_le_bytes_len(sender as nat, 8);
    endec::lemma_le_bytes_len(counter as nat, 8);
    lemma_eight_bytes(sender, id);
    lemma_eight_bytes(counter, count);
    assert(p =~= header + nonce + sealed);
    assert(p.take(11) =~= header);
    assert(p.subrange(11, 35) =~= nonce);
    assert(p.subrange(11, 27) =~= boot);
    assert(p.skip(35) =~= sealed);
    assert(nonce.take(16) =~= boot);
    assert(nonce.subrange(16, 24) =~= count);
    endec::lemma_byte_spans();
    endec::lemma_le_round_trip(counter as nat, 8);
    assert forall|i: int| 0 <= i < 8 implies p[2 + i] == #[trigger] id[i] by {}
    assert(p[2] == id[0] && p[3] == id[1] && p[4] == id[2] && p[5] == id[3] && p[6] == id[4] && p[7] == id[5]
        && p[8] == id[6] && p[9] == id[7]);
    assert forall|i: int| 0 <= i < 8 implies p[27 + i] == #[trigger] count[i] by {}
    assert(p[27] == count[0] && p[28] == count[1] && p[29] == count[2] && p[30] == count[3] && p[31] == count[4]
        && p[32] == count[5] && p[33] == count[6] && p[34] == count[7]);
}

proof fn lemma_eight_bytes(value: u64, b: Seq<u8>)
    requires
        b == endec::le_bytes(value as nat, 8),
    ensures
        value == b[0] + 0x100 * b[1] + 0x1_0000 * b[2] + 0x100_0000 * b[3] + 0x1_0000_0000 * b[4] + 0x100_0000_0000
            * b[5] + 0x1_0000_0000_0000 * b[6] + 0x100_0000_0000_0000 * b[7],
{
    endec::lemma_lowest_byte_first(value as nat);
}

/// A packet is taken for a frame if and only if it is long enough, begins as a frame does,
/// and is of one of the four types. What is read from it stands where it is written.
pub proof fn lemma_which_packets_are_frames(p: Seq<u8>)
    ensures
        parsed_frame(p) is Some <==> p.len() >= 51 && p[0] == 0x0A && p[1] == 2 && 1 <= p[10] <= 4,
        parsed_frame(p) matches Some(f) ==> endec::le_bytes(f.sender as nat, 8) == p.subrange(2, 10)
            && f.frame_type == p[10] && f.nonce == p.subrange(11, 35) && f.ciphertext == p.skip(35),
{
    if parsed_frame(p) is Some {
        endec::lemma_byte_spans();
        endec::lemma_le_bytes_of_value(p.subrange(2, 10));
    }
}

/// A frame counts as genuine only where what is sealed in it opens under the key, with
/// its own nonce and its own header. What comes out is what was sealed.
pub proof fn lemma_genuine_frames_open(key: Seq<u8>, p: Seq<u8>)
    ensures
        authentic(key, p) is Some <==> parsed_frame(p) is Some && primitives::aead_opened(
            key,
            p.subrange(11, 35),
            p.take(11),
            p.skip(35),
        ) is Some,
        authentic(key, p) matches Some((sender, frame_type, plain)) ==> primitives::aead_opened(
            key,
            p.subrange(11, 35),
            p.take(11),
            p.skip(35),
        ) == Some(plain) && frame_type == p[10] && endec::le_bytes(sender as nat, 8) == p.subrange(2, 10),
{
    lemma_which_packets_are_frames(p);
}

/// A start that is new is remembered as the newest, before every other. Up to 32 starts
/// are remembered; then the oldest is forgotten.
pub proof fn lemma_new_start_is_the_newest(c: CodecView, p: Seq<u8>)
    requires
        c.valid(),
        authentic(c.recv_key, p) is Some,
        !knows(c.generations, packet_boot(p)),
    ensures
        ({
            let d = c.open_step(p).0;
            &&& c.open_step(p).1 == authentic(c.recv_key, p)
            &&& d.generations.len() > 0 && d.generations.last().0 == packet_boot(p)
            &&& !d.generations.last().1.accepts(packet_counter(p))
            &&& c.generations.len() < 32 ==> d.generations.drop_last() == c.generations
            &&& c.generations.len() == 32 ==> d.generations.drop_last() == c.generations.skip(1)
            &&& d.recv_key == c.recv_key && d.send_key == c.send_key && d.counter == c.counter && d.boot == c.boot
        }),
{
    let boot = packet_boot(p);
    let d = c.open_step(p).0;
    let longer = c.generations.push((boot, WindowView::fresh()));
    if c.generations.len() < 32 {
        assert(d.generations.drop_last() =~= c.generations);
    } else {
        assert(longer.skip(1).drop_last() =~= c.generations.skip(1));
        assert(d.generations.drop_last() =~= c.generations.skip(1));
    }
}

/// A frame of the newest start is let through as its counters say, and changes only what
/// is known of that start.
pub proof fn lemma_newest_start_goes_on(c: CodecView, p: Seq<u8>)
    requires
        c.valid(),
        authentic(c.recv_key, p) is Some,
        c.generations.len() > 0,
        c.generations.last().0 == packet_boot(p),
    ensures
        ({
            let d = c.open_step(p).0;
            let w = c.generations.last().1;
            &&& c.open_step(p).1 is Some <==> w.accepts(packet_counter(p))
            &&& c.open_step(p).1 is Some ==> c.open_step(p).1 == authentic(c.recv_key, p)
            &&& d.generations.len() == c.generations.len()
            &&& d.generations.drop_last() == c.generations.drop_last()
            &&& d.generations.last() == (packet_boot(p), w.step(packet_counter(p)))
        }),
{
    let n = c.generations.len() - 1;
    assert(c.generations[n].0 == packet_boot(p));
    assert(knows(c.generations, packet_boot(p)));
    let d = c.open_step(p).0;
    assert(d.generations.drop_last() =~= c.generations.drop_last());
}

} // verus!
