//! The direct connection with a peer: frames behind their length.

use vstd::prelude::*;

use crate::protocol::relay_tcp;
use crate::protocol::relay_tcp::write_length_prefixed;
use crate::protocol::wire;
use crate::protocol::wire::RawFrame;

verus! {

/// The peer at the other end, once a frame has said so. Zero stands for nobody.
pub open spec fn identified(peer_id: u64, frame: Seq<u8>) -> u64 {
    if peer_id == 0 {
        match wire::parsed_frame(frame) {
            Some(f) => f.sender,
            None => 0,
        }
    } else {
        peer_id
    }
}

/// The peer at the other end, after a frame has come: the first that says so
/// decides.
pub fn identify(peer_id: u64, frame: &[u8]) -> (peer: u64)
    ensures
        peer == identified(peer_id, frame@),
{
    if peer_id != 0 {
        return peer_id;
    }
    match RawFrame::try_parse(frame) {
        Some(raw) => raw.sender_id,
        None => 0,
    }
}

/// A frame as it goes over the connection.
pub fn framed(frame: &[u8]) -> (message: Vec<u8>)
    ensures
        message@ == relay_tcp::prefixed(frame@),
{
    let mut message: Vec<u8> = Vec::new();
    write_length_prefixed(&mut message, frame);
    assert(message@ =~= relay_tcp::prefixed(frame@));
    message
}

/// The first frame that can be read tells who is at the other end; a later one does not
/// change that, and what is no frame tells nothing.
pub proof fn lemma_first_frame_names_the_peer(peer_id: u64, frame: Seq<u8>)
    ensures
        peer_id != 0 ==> identified(peer_id, frame) == peer_id,
        wire::parsed_frame(frame) matches Some(f) ==> identified(0, frame) == f.sender,
        wire::parsed_frame(frame) is None ==> identified(0, frame) == 0,
        identified(identified(peer_id, frame), frame) == identified(peer_id, frame),
{
}

} // verus!
