//! Length-prefixed messages over TCP, and the relay's commands in them.
//!
//! Between peers a message is a sealed frame; to the relay it is
//! `[magic u8 = 0x0B][version u8 = 1][command u8][data]`.

use vstd::prelude::*;

use crate::consts::TCP_MAX_PAYLOAD;
use crate::endec::{append_bytes, read_u32_le, read_u64_le, write_u32_le, write_u64_le};
use crate::protocol::relay_udp::{CMD_ACK, CMD_ERROR, CMD_REGISTER, RELAY_MAGIC, RELAY_VERSION};
use crate::endec;
use crate::protocol::relay_udp;

verus! {

pub const CMD_TCP_SEND: u8 = 5;

pub const CMD_TCP_FRAME: u8 = 6;

pub const CMD_TCP_KEEPALIVE: u8 = 7;

pub const CMD_TCP_KEEPALIVE_RESP: u8 = 8;

pub const LENGTH_HEADER: usize = 4;

/// A message behind its length.
pub open spec fn prefixed(inner: Seq<u8>) -> Seq<u8> {
    endec::le_bytes(inner.len(), 4) + inner
}

/// Appends a message behind its length. The length is written modulo 2^32; no
/// reader accepts a message that long.
pub fn write_length_prefixed(out: &mut Vec<u8>, inner: &[u8])
    ensures
        final(out)@ == old(out)@ + prefixed(inner@),
{
    let n: u64 = inner.len() as u64;
    let low: u32 = (n % 0x1_0000_0000) as u32;
    proof {
        endec::lemma_byte_spans();
        endec::lemma_le_bytes_low(n as nat, 4);
    }
    write_u32_le(out, low);
    append_bytes(out, inner);
    assert(out@ =~= old(out)@ + prefixed(inner@));
}

/// Writes a command of the relay.
pub fn encode_cmd(cmd: u8, data: &[u8]) -> (out: Vec<u8>)
    ensures
        out@ == relay_udp::relay_header(cmd) + data@,
{
    let mut out: Vec<u8> = Vec::new();
    out.push(RELAY_MAGIC);
    out.push(RELAY_VERSION);
    out.push(cmd);
    append_bytes(&mut out, data);
    assert(out@ =~= relay_udp::relay_header(cmd) + data@);
    out
}

/// The data of a SEND command.
pub open spec fn send_body(dst: u64, frame: Seq<u8>) -> Seq<u8> {
    endec::le_bytes(dst as nat, 8) + frame
}

/// Writes the data of a SEND command.
pub fn build_send_body(dst_id: u64, frame: &[u8]) -> (out: Vec<u8>)
    ensures
        out@ == send_body(dst_id, frame@),
{
    let mut out: Vec<u8> = Vec::new();
    write_u64_le(&mut out, dst_id);
    append_bytes(&mut out, frame);
    assert(out@ =~= send_body(dst_id, frame@));
    out
}

/// Reads the data of a SEND command.
pub fn parse_send_body<'a>(body: &'a [u8]) -> (parts: Option<(u64, &'a [u8])>)
    ensures
        parts is Some == (body@.len() >= 8),
        parts matches Some((dst, frame)) ==> dst == endec::le_value(body@.take(8)) && frame@ == body@.skip(
            8,
        ),
{
    if body.len() < 8 {
        return None;
    }
    let frame = vstd::slice::slice_subrange(body, 8, body.len());
    assert(frame@ =~= body@.skip(8));
    Some((read_u64_le(body), frame))
}

/// A command of the relay.
#[derive(Debug)]
pub enum RelayTcpMsg<'a> {
    Register { body: &'a [u8] },
    Ack { body: &'a [u8] },
    Error { body: &'a [u8] },
    Send { dst: u64, frame: &'a [u8] },
    Frame { frame: &'a [u8] },
    Keepalive,
    KeepaliveResp,
}

/// A command of the relay, as values.
pub ghost enum TcpView {
    Register { body: Seq<u8> },
    Ack { body: Seq<u8> },
    Error { body: Seq<u8> },
    Send { dst: u64, frame: Seq<u8> },
    Frame { frame: Seq<u8> },
    Keepalive,
    KeepaliveResp,
}

impl<'a> View for RelayTcpMsg<'a> {
    type V = TcpView;

    open spec fn view(&self) -> TcpView {
        match *self {
            RelayTcpMsg::Register { body } => TcpView::Register { body: body@ },
            RelayTcpMsg::Ack { body } => TcpView::Ack { body: body@ },
            RelayTcpMsg::Error { body } => TcpView::Error { body: body@ },
            RelayTcpMsg::Send { dst, frame } => TcpView::Send { dst, frame: frame@ },
            RelayTcpMsg::Frame { frame } => TcpView::Frame { frame: frame@ },
            RelayTcpMsg::Keepalive => TcpView::Keepalive,
            RelayTcpMsg::KeepaliveResp => TcpView::KeepaliveResp,
        }
    }
}

/// The command that these bytes are.
pub open spec fn parsed_cmd(inner: Seq<u8>) -> Option<TcpView> {
    if inner.len() < 3 || inner[0] != RELAY_MAGIC || inner[1] != RELAY_VERSION {
        None
    } else {
        let data = inner.skip(3);
        if inner[2] == CMD_REGISTER {
            Some(TcpView::Register { body: data })
        } else if inner[2] == CMD_ACK {
            Some(TcpView::Ack { body: data })
        } else if inner[2] == CMD_ERROR {
            Some(TcpView::Error { body: data })
        } else if inner[2] == CMD_TCP_SEND {
            if data.len() < 8 {
                None
            } else {
                Some(TcpView::Send { dst: endec::le_value(data.take(8)) as u64, frame: data.skip(8) })
            }
        } else if inner[2] == CMD_TCP_FRAME {
            Some(TcpView::Frame { frame: data })
        } else if inner[2] == CMD_TCP_KEEPALIVE {
            Some(TcpView::Keepalive)
        } else if inner[2] == CMD_TCP_KEEPALIVE_RESP {
            Some(TcpView::KeepaliveResp)
        } else {
            None
        }
    }
}

/// Reads a command of the relay.
pub fn parse<'a>(inner: &'a [u8]) -> (msg: Option<RelayTcpMsg<'a>>)
    ensures
        match msg {
            Some(m) => parsed_cmd(inner@) == Some(m@),
            None => parsed_cmd(inner@) is None,
        },
{
    if inner.len() < 3 || inner[0] != RELAY_MAGIC || inner[1] != RELAY_VERSION {
        return None;
    }
    let data = vstd::slice::slice_subrange(inner, 3, inner.len());
    assert(data@ =~= inner@.skip(3));
    let cmd = inner[2];
    if cmd == CMD_REGISTER {
        Some(RelayTcpMsg::Register { body: data })
    } else if cmd == CMD_ACK {
        Some(RelayTcpMsg::Ack { body: data })
    } else if cmd == CMD_ERROR {
        Some(RelayTcpMsg::Error { body: data })
    } else if cmd == CMD_TCP_SEND {
        match parse_send_body(data) {
            Some((dst, frame)) => Some(RelayTcpMsg::Send { dst, frame }),
            None => None,
        }
    } else if cmd == CMD_TCP_FRAME {
        Some(RelayTcpMsg::Frame { frame: data })
    } else if cmd == CMD_TCP_KEEPALIVE {
        Some(RelayTcpMsg::Keepalive)
    } else if cmd == CMD_TCP_KEEPALIVE_RESP {
        Some(RelayTcpMsg::KeepaliveResp)
    } else {
        None
    }
}

/// A SEND command reads back as it was written.
pub proof fn lemma_send_round_trip(dst: u64, frame: Seq<u8>)
    ensures
        parsed_cmd(relay_udp::relay_header(CMD_TCP_SEND) + send_body(dst, frame)) == Some(
            TcpView::Send { dst, frame },
        ),
{
    endec::lemma_byte_spans();
    endec::lemma_le_round_trip(dst as nat, 8);
    let inner = relay_udp::relay_header(CMD_TCP_SEND) + send_body(dst, frame);
    assert(inner.skip(3) =~= send_body(dst, frame));
    assert(send_body(dst, frame).take(8) =~= endec::le_bytes(dst as nat, 8));
    assert(send_body(dst, frame).skip(8) =~= frame);
}

/// What a byte stream holds so far: whole messages, and what is left over.
pub ghost struct Split {
    pub frames: Seq<Seq<u8>>,
    pub rest: Seq<u8>,
    pub oversize: bool,
}

/// The messages at the front of a byte stream. A message that announces more
/// than the limit spoils the stream.
pub open spec fn split_stream(stream: Seq<u8>) -> Split
    decreases stream.len(),
{
    if stream.len() < LENGTH_HEADER {
        Split { frames: Seq::empty(), rest: stream, oversize: false }
    } else {
        let n = endec::le_value(stream.take(4));
        if n > TCP_MAX_PAYLOAD {
            Split { frames: Seq::empty(), rest: Seq::empty(), oversize: true }
        } else if stream.len() < LENGTH_HEADER + n {
            Split { frames: Seq::empty(), rest: stream, oversize: false }
        } else {
            let tail = split_stream(stream.skip(LENGTH_HEADER + n as int));
            Split { frames: seq![stream.subrange(4, 4 + n as int)] + tail.frames, ..tail }
        }
    }
}

/// Messages as byte sequences.
pub open spec fn frame_views(frames: Seq<Vec<u8>>) -> Seq<Seq<u8>> {
    frames.map_values(|f: Vec<u8>| f@)
}

/// Puts a byte stream back together into messages.
pub struct FrameReassembler {
    pub buf: Vec<u8>,
}

impl Default for FrameReassembler {
    fn default() -> (r: Self)
        ensures
            r.buf@ == Seq::<u8>::empty(),
    {
        FrameReassembler { buf: Vec::new() }
    }
}

impl FrameReassembler {
    /// A reassembler that holds nothing.
    pub fn new() -> (r: Self)
        ensures
            r.buf@ == Seq::<u8>::empty(),
    {
        FrameReassembler { buf: Vec::new() }
    }

    /// Takes the next bytes of the stream and hands out the messages that are now
    /// complete. After an error the stream cannot be read on: the caller drops
    /// the connection.
    pub fn feed(&mut self, chunk: &[u8]) -> (frames: Result<Vec<Vec<u8>>, &'static str>)
        ensures
            match frames {
                Ok(fs) => {
                    &&& !split_stream(old(self).buf@ + chunk@).oversize
                    &&& frame_views(fs@) == split_stream(old(self).buf@ + chunk@).frames
                    &&& final(self).buf@ == split_stream(old(self).buf@ + chunk@).rest
                },
                Err(e) => {
                    &&& split_stream(old(self).buf@ + chunk@).oversize
                    &&& final(self).buf@ == Seq::<u8>::empty()
                    &&& e@ == "frame too large"@
                },
            },
    {
        append_bytes(&mut self.buf, chunk);
        let ghost total = self.buf@;
        let mut frames: Vec<Vec<u8>> = Vec::new();
        let mut start: usize = 0;
        assert(total.skip(0) =~= total);
        assert(frame_views(frames@) =~= Seq::empty());
        assert(frame_views(frames@) + split_stream(total).frames =~= split_stream(total).frames);
        loop
            invariant
                total == old(self).buf@ + chunk@,
                self.buf@ == total,
                start <= total.len(),
                split_stream(total).frames == frame_views(frames@) + split_stream(
                    total.skip(start as int),
                ).frames,
                split_stream(total).rest == split_stream(total.skip(start as int)).rest,
                split_stream(total).oversize == split_stream(total.skip(start as int)).oversize,
            ensures
                !split_stream(total).oversize,
                split_stream(total).frames == frame_views(frames@),
                split_stream(total).rest == total.skip(start as int),
                start <= total.len(),
                self.buf@ == total,
            decreases total.len() - start,
        {
            let left: usize = self.buf.len() - start;
            let ghost s = total.skip(start as int);
            if left < LENGTH_HEADER {
                assert(frame_views(frames@) + Seq::<Seq<u8>>::empty() =~= frame_views(frames@));
                break;
            }
            let head = vstd::slice::slice_subrange(self.buf.as_slice(), start, start + 4);
            let len: usize = read_u32_le(head) as usize;
            assert(head@.take(4) =~= s.take(4));
            if len > TCP_MAX_PAYLOAD {
                self.buf.clear();
                return Err("frame too large");
            }
            if left < LENGTH_HEADER + len {
                assert(frame_views(frames@) + Seq::<Seq<u8>>::empty() =~= frame_views(frames@));
                break;
            }
            let mut frame: Vec<u8> = Vec::new();
            append_bytes(
                &mut frame,
                vstd::slice::slice_subrange(self.buf.as_slice(), start + 4, start + 4 + len),
            );
            let ghost before = frames@;
            let ghost piece = frame@;
            frames.push(frame);
            proof {
                assert(piece =~= s.subrange(4, 4 + len as int));
                let tail = total.skip(start + 4 + len);
                assert(s.skip(4 + len as int) =~= tail);
                assert(frame_views(frames@) =~= frame_views(before).push(piece));
                assert(split_stream(s).frames == seq![piece] + split_stream(tail).frames);
                assert(frame_views(before) + (seq![piece] + split_stream(tail).frames)
                    =~= frame_views(frames@) + split_stream(tail).frames);
            }
            start = start + 4 + len;
        }
        let mut rest: Vec<u8> = Vec::new();
        append_bytes(&mut rest, vstd::slice::slice_subrange(self.buf.as_slice(), start, self.buf.len()));
        assert(rest@ =~= total.skip(start as int));
        self.buf = rest;
        Ok(frames)
    }
}

/// How a stream is cut into chunks does not matter: reading on from what was
/// left over gives the messages of the whole stream.
pub proof fn lemma_chunking_does_not_matter(x: Seq<u8>, y: Seq<u8>)
    requires
        !split_stream(x).oversize,
    ensures
        split_stream(x + y).oversize == split_stream(split_stream(x).rest + y).oversize,
        split_stream(x + y).frames == split_stream(x).frames + split_stream(
            split_stream(x).rest + y,
        ).frames,
        split_stream(x + y).rest == split_stream(split_stream(x).rest + y).rest,
    decreases x.len(),
{
    let whole = x + y;
    let later = split_stream(split_stream(x).rest + y);
    if x.len() < LENGTH_HEADER {
        assert(Seq::<Seq<u8>>::empty() + later.frames =~= later.frames);
    } else {
        let n = endec::le_value(x.take(4));
        assert(whole.take(4) =~= x.take(4));
        if x.len() < LENGTH_HEADER + n {
            assert(Seq::<Seq<u8>>::empty() + later.frames =~= later.frames);
        } else {
            let cut = LENGTH_HEADER + n as int;
            lemma_chunking_does_not_matter(x.skip(cut), y);
            assert(whole.skip(cut) =~= x.skip(cut) + y);
            assert(whole.subrange(4, cut) =~= x.subrange(4, cut));
            assert(split_stream(whole).frames == seq![x.subrange(4, cut)] + split_stream(
                x.skip(cut) + y,
            ).frames);
            assert(seq![x.subrange(4, cut)] + (split_stream(x.skip(cut)).frames + later.frames)
                =~= (seq![x.subrange(4, cut)] + split_stream(x.skip(cut)).frames) + later.frames);
        }
    }
}

/// A stream that a message spoiled stays spoiled.
pub proof fn lemma_oversize_stays(x: Seq<u8>, y: Seq<u8>)
    requires
        split_stream(x).oversize,
    ensures
        split_stream(x + y).oversize,
    decreases x.len(),
{
    let whole = x + y;
    let n = endec::le_value(x.take(4));
    assert(whole.take(4) =~= x.take(4));
    if n <= TCP_MAX_PAYLOAD {
        let cut = LENGTH_HEADER + n as int;
        assert(whole.skip(cut) =~= x.skip(cut) + y);
        lemma_oversize_stays(x.skip(cut), y);
    }
}

/// The stream that a list of messages is written as.
pub open spec fn stream_of(msgs: Seq<Seq<u8>>) -> Seq<u8>
    decreases msgs.len(),
{
    if msgs.len() == 0 {
        Seq::empty()
    } else {
        stream_of(msgs.drop_last()) + prefixed(msgs.last())
    }
}

/// The messages that were written to a stream come out of it, all of them, in
/// order and unchanged.
pub proof fn lemma_stream_round_trip(msgs: Seq<Seq<u8>>)
    requires
        forall|i: int| 0 <= i < msgs.len() ==> (#[trigger] msgs[i]).len() <= TCP_MAX_PAYLOAD,
    ensures
        split_stream(stream_of(msgs)) == (Split {
            frames: msgs,
            rest: Seq::empty(),
            oversize: false,
        }),
    decreases msgs.len(),
{
    if msgs.len() == 0 {
        assert(msgs =~= Seq::empty());
    } else {
        let front = msgs.drop_last();
        let last = msgs.last();
        assert forall|i: int| 0 <= i < front.len() implies (#[trigger] front[i]).len()
            <= TCP_MAX_PAYLOAD by {
            assert(front[i] == msgs[i]);
        }
        lemma_stream_round_trip(front);
        assert(last == msgs[msgs.len() - 1]);
        lemma_one_message(last);
        lemma_chunking_does_not_matter(stream_of(front), prefixed(last));
        assert(Seq::<u8>::empty() + prefixed(last) =~= prefixed(last));
        assert(front + seq![last] =~= msgs);
    }
}

proof fn lemma_one_message(msg: Seq<u8>)
    requires
        msg.len() <= TCP_MAX_PAYLOAD,
    ensures
        split_stream(prefixed(msg)) == (Split {
            frames: seq![msg],
            rest: Seq::empty(),
            oversize: false,
        }),
{
    endec::lemma_byte_spans();
    endec::lemma_le_round_trip(msg.len(), 4);
    let s = prefixed(msg);
    assert(s.take(4) =~= endec::le_bytes(msg.len(), 4));
    let cut = 4 + msg.len() as int;
    assert(s.skip(cut) =~= Seq::empty());
    assert(s.subrange(4, cut) =~= msg);
    assert(seq![msg] + Seq::<Seq<u8>>::empty() =~= seq![msg]);
    assert(split_stream(s.skip(cut)) == (Split {
        frames: Seq::empty(),
        rest: Seq::empty(),
        oversize: false,
    }));
}

/// What a message is, its third byte tells; a frame that is to be sent on names its
/// receiver in eight bytes.
pub proof fn lemma_third_byte_tells_the_message(cmd: u8, data: Seq<u8>)
    ensures
        ({
            let inner = seq![0x0Bu8, 1u8, cmd] + data;
            &&& cmd == 1 ==> parsed_cmd(inner) == Some(TcpView::Register { body: data })
            &&& cmd == 3 ==> parsed_cmd(inner) == Some(TcpView::Ack { body: data })
            &&& cmd == 4 ==> parsed_cmd(inner) == Some(TcpView::Error { body: data })
            &&& cmd == 5 && data.len() >= 8 ==> parsed_cmd(inner) == Some(
                TcpView::Send { dst: endec::le_value(data.take(8)) as u64, frame: data.skip(8) },
            )
            &&& cmd == 5 && data.len() < 8 ==> parsed_cmd(inner) is None
            &&& cmd == 6 ==> parsed_cmd(inner) == Some(TcpView::Frame { frame: data })
            &&& cmd == 7 ==> parsed_cmd(inner) == Some(TcpView::Keepalive)
            &&& cmd == 8 ==> parsed_cmd(inner) == Some(TcpView::KeepaliveResp)
            &&& cmd == 0 || cmd == 2 || cmd > 8 ==> parsed_cmd(inner) is None
        }),
{
    let inner = seq![0x0Bu8, 1u8, cmd] + data;
    assert(inner.skip(3) =~= data);
}

/// A message begins with its length in four bytes, the lowest first.
pub proof fn lemma_length_comes_first(inner: Seq<u8>)
    requires
        inner.len() < 0x1_0000_0000,
    ensures
        ({
            let p = prefixed(inner);
            &&& p.len() == 4 + inner.len()
            &&& inner.len() == p[0] + 0x100 * p[1] + 0x1_0000 * p[2] + 0x100_0000 * p[3]
            &&& p.skip(4) == inner
        }),
{
    endec::lemma_lowest_byte_first(inner.len());
    assert(prefixed(inner).skip(4) =~= inner);
}

/// A stream is given up if and only if the next message that it announces is longer than
/// half a mebibyte; until the message is whole, the stream waits for the rest.
pub proof fn lemma_long_messages_are_refused(stream: Seq<u8>)
    requires
        stream.len() >= 4,
    ensures
        ({
            let n = stream[0] + 0x100 * stream[1] + 0x1_0000 * stream[2] + 0x100_0000 * stream[3];
            &&& n > 524_288 ==> split_stream(stream).oversize && split_stream(stream).frames.len() == 0
            &&& n <= 524_288 && stream.len() < 4 + n ==> split_stream(stream) == (Split {
                frames: Seq::empty(),
                rest: stream,
                oversize: false,
            })
            &&& n <= 524_288 && stream.len() >= 4 + n ==> split_stream(stream).frames.len() > 0 && split_stream(
                stream,
            ).frames[0] == stream.subrange(4, 4 + n)
        }),
{
    let head = stream.take(4);
    endec::lemma_byte_spans();
    endec::lemma_le_bytes_of_value(head);
    endec::lemma_lowest_byte_first(endec::le_value(head));
    assert(head[0] == stream[0] && head[1] == stream[1] && head[2] == stream[2] && head[3] == stream[3]);
}

} // verus!
