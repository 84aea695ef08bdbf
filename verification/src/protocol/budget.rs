//! What the layers of the protocol leave to one another.

use vstd::prelude::*;

use crate::consts::{FLOW_CHUNK, FLOW_CHUNK_UDP, FLOW_MAX_DATAGRAM};
use crate::endec;
use crate::protocol::flow;
use crate::protocol::relay_tcp;
use crate::protocol::relay_udp;
use crate::protocol::wire;
use crate::protocol::wire::{FIXED_HEADER, TAG_SIZE};

verus! {

/// The longest datagram that IPv4 carries.
pub const MAX_DATAGRAM: usize = 65507;

/// The longest datagram that crosses an ordinary link in one piece.
pub const MAX_UNFRAGMENTED: usize = 1472;

/// A message of a flow, sealed and wrapped for the relay, fits into a datagram. One
/// that was cut for UDP crosses an ordinary link in one piece.
pub proof fn lemma_flow_fits_datagram(
    src: u64,
    dst: u64,
    flow_id: u32,
    flags: u8,
    data: Seq<u8>,
    frame: Seq<u8>,
)
    requires
        data.len() <= FLOW_MAX_DATAGRAM,
        frame.len() == FIXED_HEADER + flow::flow_message(flow_id, flags, data).len() + TAG_SIZE,
    ensures
        relay_udp::relay_packet(src, dst, frame).len() <= MAX_DATAGRAM,
        data.len() <= FLOW_CHUNK_UDP ==> relay_udp::relay_packet(src, dst, frame).len()
            <= MAX_UNFRAGMENTED,
        FLOW_CHUNK_UDP < FLOW_CHUNK < FLOW_MAX_DATAGRAM,
{
    endec::lemma_le_bytes_len(flow_id as nat, 4);
    endec::lemma_le_bytes_len(src as nat, 8);
    endec::lemma_le_bytes_len(dst as nat, 8);
}

/// A frame of a peer is never taken for a message of the relay, nor the other way
/// round.
pub proof fn lemma_first_byte_tells_apart(packet: Seq<u8>)
    ensures
        wire::parsed_frame(packet) is Some ==> relay_udp::parsed_relay(packet) is None
            && relay_tcp::parsed_cmd(packet) is None,
        0x04 <= wire::WIRE_MAGIC <= 0x13,
        0x04 <= relay_udp::RELAY_MAGIC <= 0x13,
{
}

} // verus!
