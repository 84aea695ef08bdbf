//! The connection with the TCP relay. It is made when something is to be sent,
//! and made again after it was lost.

use vstd::prelude::*;
use vstd::slice::{slice_subrange, slice_to_vec};

use crate::addr::SocketAddr;
use crate::crypto::primitives::random_bytes;
use crate::protocol::relay_tcp;
use crate::protocol::relay_tcp::{
    build_send_body, encode_cmd, parse, write_length_prefixed, RelayTcpMsg, TcpView, CMD_TCP_KEEPALIVE,
    CMD_TCP_KEEPALIVE_RESP, CMD_TCP_SEND,
};
use crate::protocol::relay_udp;
use crate::protocol::relay_udp::{build_register_with, CMD_REGISTER};
use crate::text;
use crate::text::{join, text_lossy};

verus! {

/// Seconds without a sign of life after which the connection with the relay counts
/// as dead.
pub const RELAY_IDLE_SECS: u64 = 90;

/// A command on the connection.
pub open spec fn command(cmd: u8, data: Seq<u8>) -> Seq<u8> {
    relay_tcp::prefixed(relay_udp::relay_header(cmd) + data)
}

fn framed(cmd: u8, data: &[u8]) -> (message: Vec<u8>)
    ensures
        message@ == command(cmd, data@),
{
    let inner = encode_cmd(cmd, data);
    let mut message: Vec<u8> = Vec::new();
    write_length_prefixed(&mut message, inner.as_slice());
    assert(message@ =~= command(cmd, data@));
    message
}

/// What the node says first on a connection: who it is. The nonce is new on every
/// connection, for the relay takes none twice.
pub fn register_message(device_id: u64, nonce: &[u8; 16], relay_key: &[u8; 32]) -> (message: Vec<u8>)
    ensures
        message@ == command(
            CMD_REGISTER,
            relay_udp::register_packet(device_id, nonce@, relay_key@).skip(3),
        ),
{
    let packet = build_register_with(device_id, nonce, relay_key);
    let whole = packet.as_slice();
    let body = slice_subrange(whole, 3, whole.len());
    assert(body@ =~= relay_udp::register_packet(device_id, nonce@, relay_key@).skip(3));
    framed(CMD_REGISTER, body)
}

/// A frame for a peer.
pub fn send_message(dst_id: u64, frame: &[u8]) -> (message: Vec<u8>)
    ensures
        message@ == command(CMD_TCP_SEND, relay_tcp::send_body(dst_id, frame@)),
{
    let body = build_send_body(dst_id, frame);
    framed(CMD_TCP_SEND, body.as_slice())
}

/// A sign of life.
pub fn keepalive_message() -> (message: Vec<u8>)
    ensures
        message@ == command(CMD_TCP_KEEPALIVE, Seq::empty()),
{
    let none: Vec<u8> = Vec::new();
    framed(CMD_TCP_KEEPALIVE, none.as_slice())
}

/// What a message from the relay asks for.
#[derive(Debug)]
pub enum RelayAction {
    /// A frame came over the relay.
    Deliver(Vec<u8>),
    /// Send this back.
    Answer(Vec<u8>),
    Nothing,
    /// Give the connection up; there may be something to log.
    Drop(Option<String>),
}

/// What a message from the relay asks for, as values.
pub ghost enum RelayActionView {
    Deliver(Seq<u8>),
    Answer(Seq<u8>),
    Nothing,
    Drop(Option<Seq<char>>),
}

impl View for RelayAction {
    type V = RelayActionView;

    open spec fn view(&self) -> RelayActionView {
        match *self {
            RelayAction::Deliver(frame) => RelayActionView::Deliver(frame@),
            RelayAction::Answer(message) => RelayActionView::Answer(message@),
            RelayAction::Nothing => RelayActionView::Nothing,
            RelayAction::Drop(log) => RelayActionView::Drop(
                match log {
                    Some(line) => Some(line@),
                    None => None,
                },
            ),
        }
    }
}

/// What a message from the relay asks for. The relay's answers to what the node
/// sends of itself keep the connection up; what it has no reason to send ends it.
pub open spec fn relay_step(inner: Seq<u8>) -> RelayActionView {
    match relay_tcp::parsed_cmd(inner) {
        Some(TcpView::Frame { frame }) => RelayActionView::Deliver(frame),
        Some(TcpView::Keepalive) => RelayActionView::Answer(
            command(CMD_TCP_KEEPALIVE_RESP, Seq::empty()),
        ),
        Some(TcpView::KeepaliveResp) => RelayActionView::Nothing,
        Some(TcpView::Ack { .. }) => RelayActionView::Nothing,
        Some(TcpView::Error { body }) => RelayActionView::Drop(
            Some("中继 TCP 错误: "@ + text::lossy_text(body)),
        ),
        _ => RelayActionView::Drop(None),
    }
}

/// Deals with a message from the relay.
pub fn on_message(inner: &[u8]) -> (action: RelayAction)
    ensures
        action@ == relay_step(inner@),
{
    match parse(inner) {
        Some(RelayTcpMsg::Frame { frame }) => RelayAction::Deliver(slice_to_vec(frame)),
        Some(RelayTcpMsg::Keepalive) => {
            let none: Vec<u8> = Vec::new();
            assert(none@ =~= Seq::empty());
            RelayAction::Answer(framed(CMD_TCP_KEEPALIVE_RESP, none.as_slice()))
        },
        Some(RelayTcpMsg::KeepaliveResp) => RelayAction::Nothing,
        Some(RelayTcpMsg::Ack { .. }) => RelayAction::Nothing,
        Some(RelayTcpMsg::Error { body }) => RelayAction::Drop(
            Some(join("中继 TCP 错误: ", text_lossy(body).as_str())),
        ),
        _ => RelayAction::Drop(None),
    }
}

/// The node's end of the connection with the relay.
pub struct RelayTcpClient {
    /// What the node registers with.
    pub device_id: u64,
    pub relay_key: [u8; 32],
    /// Where the relay is, once that is known.
    pub addr: Option<SocketAddr>,
    pub connected: bool,
    pub connecting: bool,
}

impl RelayTcpClient {
    /// Who the node is stays as it was.
    pub open spec fn same_node(self, other: RelayTcpClient) -> bool {
        self.device_id == other.device_id && self.relay_key == other.relay_key && self.addr == other.addr
    }

    /// There is no connection yet.
    pub fn new(device_id: u64, relay_key: &[u8; 32]) -> (client: RelayTcpClient)
        ensures
            client == (RelayTcpClient {
                device_id,
                relay_key: *relay_key,
                addr: None,
                connected: false,
                connecting: false,
            }),
    {
        RelayTcpClient {
            device_id,
            relay_key: *relay_key,
            addr: None,
            connected: false,
            connecting: false,
        }
    }

    /// The relay is at this address.
    pub fn configure(&mut self, addr: SocketAddr)
        ensures
            *final(self) == (RelayTcpClient { addr: Some(addr), ..*old(self) }),
    {
        self.addr = Some(addr);
    }

    /// Whether there is a connection.
    pub fn is_connected(&self) -> (yes: bool)
        ensures
            yes == self.connected,
    {
        self.connected
    }

    /// Where a connection is to be made now, if one is. One attempt at a time, and
    /// none before the relay's address is known.
    pub fn begin(&mut self) -> (at: Option<SocketAddr>)
        ensures
            at == (if !old(self).connected && !old(self).connecting {
                old(self).addr
            } else {
                None
            }),
            final(self).same_node(*old(self)),
            final(self).connected == old(self).connected,
            final(self).connecting == (old(self).connecting || at is Some),
    {
        if self.connected || self.connecting {
            return None;
        }
        if self.addr.is_some() {
            self.connecting = true;
        }
        self.addr
    }

    /// What the node says first on a new connection. Which nonce it has is left to
    /// chance.
    pub fn register(&self) -> (message: Vec<u8>)
        ensures
            exists|nonce: Seq<u8>|
                nonce.len() == 16 && message@ == command(
                    CMD_REGISTER,
                    (#[trigger] relay_udp::register_packet(self.device_id, nonce, self.relay_key@)).skip(3),
                ),
    {
        let nonce: [u8; 16] = random_bytes();
        let message = register_message(self.device_id, &nonce, &self.relay_key);
        assert(message@ == command(
            CMD_REGISTER,
            relay_udp::register_packet(self.device_id, nonce@, self.relay_key@).skip(3),
        ));
        message
    }

    /// A frame for a peer, if there is a connection.
    pub fn send(&self, dst_id: u64, frame: &[u8]) -> (message: Option<Vec<u8>>)
        ensures
            message is Some == self.connected,
            message matches Some(m) ==> m@ == command(
                CMD_TCP_SEND,
                relay_tcp::send_body(dst_id, frame@),
            ),
    {
        if self.connected {
            Some(send_message(dst_id, frame))
        } else {
            None
        }
    }

    /// A sign of life, if there is a connection.
    pub fn keepalive(&self) -> (message: Option<Vec<u8>>)
        ensures
            message is Some == self.connected,
            message matches Some(m) ==> m@ == command(CMD_TCP_KEEPALIVE, Seq::empty()),
    {
        if self.connected {
            Some(keepalive_message())
        } else {
            None
        }
    }

    /// The attempt has come to an end.
    pub fn finish(&mut self, ok: bool)
        ensures
            final(self).same_node(*old(self)),
            !final(self).connecting,
            final(self).connected == (old(self).connected || ok),
    {
        self.connecting = false;
        if ok {
            self.connected = true;
        }
    }

    /// The connection is gone. The next frame makes a new one.
    pub fn lost(&mut self)
        ensures
            final(self).same_node(*old(self)),
            !final(self).connected,
            final(self).connecting == old(self).connecting,
    {
        self.connected = false;
    }
}

/// What the node writes on the connection, the other end reads as that one message.
pub proof fn lemma_command_is_one_message(cmd: u8, data: Seq<u8>)
    requires
        data.len() + 3 <= 524_288,
    ensures
        relay_tcp::split_stream(command(cmd, data)).frames == seq![seq![0x0Bu8, 1u8, cmd] + data],
        relay_tcp::split_stream(command(cmd, data)).rest == Seq::<u8>::empty(),
        !relay_tcp::split_stream(command(cmd, data)).oversize,
{
    let inner = relay_udp::relay_header(cmd) + data;
    let msgs = seq![inner];
    assert(msgs.drop_last() =~= Seq::empty());
    assert(relay_tcp::stream_of(msgs.drop_last()) =~= Seq::empty());
    assert(relay_tcp::stream_of(msgs) =~= relay_tcp::prefixed(inner));
    relay_tcp::lemma_stream_round_trip(msgs);
    assert(inner =~= seq![0x0Bu8, 1u8, cmd] + data);
}

/// What is done about a message from the relay. A frame is handed on as it is, a sign of
/// life is answered with one, and an answer calls for nothing. An error ends the
/// connection and is logged, and so does, without a word, whatever the relay has no
/// reason to send.
pub proof fn lemma_what_the_relay_is_answered(cmd: u8, data: Seq<u8>)
    ensures
        ({
            let inner = seq![0x0Bu8, 1u8, cmd] + data;
            &&& cmd == 6 ==> relay_step(inner) == RelayActionView::Deliver(data)
            &&& cmd == 7 ==> relay_step(inner) is Answer
            &&& cmd == 8 || cmd == 3 ==> relay_step(inner) == RelayActionView::Nothing
            &&& cmd == 4 ==> relay_step(inner) == RelayActionView::Drop(
                Some("中继 TCP 错误: "@ + text::lossy_text(data)),
            )
            &&& cmd < 3 || cmd == 5 || cmd > 8 ==> relay_step(inner) == RelayActionView::Drop(None)
            &&& relay_step(inner) matches RelayActionView::Answer(message) ==> relay_tcp::split_stream(
                message,
            ).frames == seq![seq![0x0Bu8, 1u8, 8u8]]
        }),
{
    relay_tcp::lemma_third_byte_tells_the_message(cmd, data);
    lemma_command_is_one_message(8, Seq::empty());
    assert(seq![0x0Bu8, 1u8, 8u8] + Seq::<u8>::empty() =~= seq![0x0Bu8, 1u8, 8u8]);
}

/// Making and losing a connection leaves the node who it is and the relay where it is.
pub proof fn lemma_who_and_where_stay(a: RelayTcpClient, b: RelayTcpClient)
    requires
        a.same_node(b),
    ensures
        a.device_id == b.device_id,
        a.relay_key == b.relay_key,
        a.addr == b.addr,
{
}

} // verus!
