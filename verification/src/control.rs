//! What the node asks of the server, and how it keeps in touch with it.

use vstd::prelude::*;
use vstd::utf8::encode_utf8;

use crate::models::{HeartbeatRequest, PeerPathReport};
use crate::node_config;
use crate::node_config::{as_text, json_field};
use crate::runtime;
use crate::text::{chars_of, join, owned, string_of};

verus! {

/// A byte that stands for itself in a query.
pub open spec fn is_unreserved(b: u8) -> bool {
    (65 <= b <= 90) || (97 <= b <= 122) || (48 <= b <= 57) || b == 45 || b == 95 || b == 46 || b
        == 126
}

/// A digit of a percent code.
pub open spec fn upper_hex(n: int) -> char {
    if n < 10 {
        (48 + n) as char
    } else {
        (55 + n) as char
    }
}

/// A byte in a query.
pub open spec fn byte_code(b: u8) -> Seq<char> {
    if is_unreserved(b) {
        seq![b as char]
    } else {
        seq!['%', upper_hex(b as int / 16), upper_hex(b as int % 16)]
    }
}

/// Bytes in a query.
pub open spec fn percent_encoded(bytes: Seq<u8>) -> Seq<char>
    decreases bytes.len(),
{
    if bytes.len() == 0 {
        Seq::empty()
    } else {
        percent_encoded(bytes.drop_last()) + byte_code(bytes.last())
    }
}

fn hex_upper(n: u8) -> (c: char)
    requires
        n < 16,
    ensures
        c == upper_hex(n as int),
{
    if n < 10 {
        (48 + n) as char
    } else {
        (55 + n) as char
    }
}

/// A text as part of a query.
pub fn urlencode(s: &str) -> (out: String)
    ensures
        out@ == percent_encoded(encode_utf8(s@)),
{
    let bytes = s.as_bytes();
    let mut out: String = String::new();
    let mut i: usize = 0;
    assert(out@ =~= percent_encoded(bytes@.take(0)));
    while i < bytes.len()
        invariant
            i <= bytes@.len(),
            out@ == percent_encoded(bytes@.take(i as int)),
        decreases bytes@.len() - i,
    {
        let b: u8 = bytes[i];
        let ghost before = out@;
        assert(bytes@.take(i + 1).drop_last() =~= bytes@.take(i as int));
        if (65 <= b && b <= 90) || (97 <= b && b <= 122) || (48 <= b && b <= 57) || b == 45 || b == 95
            || b == 46 || b == 126 {
            out.push(b as char);
        } else {
            out.push('%');
            out.push(hex_upper(b / 16));
            out.push(hex_upper(b % 16));
        }
        assert(out@ =~= before + byte_code(b));
        i += 1;
    }
    assert(bytes@.take(i as int) =~= bytes@);
    out
}

/// What a query holds is made of unreserved characters and percent codes.
pub proof fn lemma_encoded_chars(bytes: Seq<u8>, i: int)
    requires
        0 <= i < percent_encoded(bytes).len(),
    ensures
        ({
            let c = percent_encoded(bytes)[i];
            c == '%' || ((c as u32) < 128 && is_unreserved(c as u8))
        }),
    decreases bytes.len(),
{
    let front = percent_encoded(bytes.drop_last());
    let code = byte_code(bytes.last());
    if i < front.len() {
        lemma_encoded_chars(bytes.drop_last(), i);
        assert(percent_encoded(bytes)[i] == front[i]);
    } else {
        assert(percent_encoded(bytes)[i] == code[i - front.len()]);
        let b = bytes.last();
        assert(0 <= b as int / 16 < 16);
        assert(0 <= b as int % 16 < 16);
    }
}

/// A text without the slashes at its end.
pub open spec fn without_slashes(s: Seq<char>) -> Seq<char>
    decreases s.len(),
{
    if s.len() > 0 && s.last() == '/' {
        without_slashes(s.drop_last())
    } else {
        s
    }
}

/// The address of the server, as it is stored.
pub fn server_base(server: &str) -> (base: String)
    ensures
        base@ == without_slashes(server@),
{
    let chars = chars_of(server);
    let mut to: usize = chars.len();
    assert(chars@.subrange(0, to as int) =~= server@);
    while to > 0 && chars[to - 1] == '/'
        invariant
            to <= chars@.len(),
            without_slashes(chars@.subrange(0, to as int)) == without_slashes(server@),
        decreases to,
    {
        assert(chars@.subrange(0, to as int).drop_last() =~= chars@.subrange(0, to - 1));
        to -= 1;
    }
    string_of(chars.as_slice(), 0, to)
}

/// How the server is talked to.
#[derive(Debug, Clone, Copy, PartialEq, Eq, Structural)]
pub enum Scheme {
    Plain,
    Secure,
    Other,
}

/// How the server at an address is talked to.
pub open spec fn scheme_of(base: Seq<char>) -> Scheme {
    if runtime::starts_with(base, "https://"@) {
        Scheme::Secure
    } else if runtime::starts_with(base, "http://"@) {
        Scheme::Plain
    } else {
        Scheme::Other
    }
}

/// How the server at an address is talked to.
pub fn server_scheme(base: &str) -> (scheme: Scheme)
    ensures
        scheme == scheme_of(base@),
{
    if runtime::has_head(base, "https://") {
        Scheme::Secure
    } else if runtime::has_head(base, "http://") {
        Scheme::Plain
    } else {
        Scheme::Other
    }
}

/// The address of the configuration of a network.
pub fn config_url(base: &str, network: &str) -> (url: String)
    ensures
        url@ == base@ + "/api/config?network="@ + percent_encoded(encode_utf8(network@)),
{
    let head = join(base, "/api/config?network=");
    join(head.as_str(), urlencode(network).as_str())
}

/// The address of the peers of a network.
pub fn peers_url(base: &str, network: &str) -> (url: String)
    ensures
        url@ == base@ + "/api/peers?network="@ + percent_encoded(encode_utf8(network@)),
{
    let head = join(base, "/api/peers?network=");
    join(head.as_str(), urlencode(network).as_str())
}

/// The address of the event channel: the server's, with the scheme of a
/// WebSocket.
pub open spec fn channel_base(base: Seq<char>) -> Seq<char> {
    match scheme_of(base) {
        Scheme::Secure => "wss://"@ + base.skip(8),
        Scheme::Plain => "ws://"@ + base.skip(7),
        Scheme::Other => base,
    }
}

/// The address of the event channel of a network.
pub fn events_url(base: &str, network: &str, token: &str) -> (url: String)
    requires
        scheme_of(base@) != Scheme::Other,
    ensures
        url@ == channel_base(base@) + "/api/events?network="@ + percent_encoded(encode_utf8(network@))
            + "&token="@ + percent_encoded(encode_utf8(token@)),
{
    proof {
        reveal_strlit("https://");
        reveal_strlit("http://");
    }
    let chars = chars_of(base);
    let mut url = match server_scheme(base) {
        Scheme::Secure => join("wss://", string_of(chars.as_slice(), 8, chars.len()).as_str()),
        _ => join("ws://", string_of(chars.as_slice(), 7, chars.len()).as_str()),
    };
    assert(url@ =~= channel_base(base@));
    url.append("/api/events?network=");
    url.append(urlencode(network).as_str());
    url.append("&token=");
    url.append(urlencode(token).as_str());
    url
}

/// A heartbeat that says nothing but what the links are like.
pub fn paths_report(reports: Vec<PeerPathReport>) -> (request: HeartbeatRequest)
    ensures
        request.local_addrs@ == Seq::<String>::empty(),
        request.listen_udp_port is None,
        request.listen_tcp_port is None,
        request.paths == Some(reports),
        request.settings_revision is None,
        request.restart_pending is None,
        request.mode is None,
        request.proto_version is None,
        request.node_version is None,
{
    HeartbeatRequest {
        local_addrs: Vec::new(),
        listen_udp_port: None,
        listen_tcp_port: None,
        paths: Some(reports),
        settings_revision: None,
        restart_pending: None,
        mode: None,
        proto_version: None,
        node_version: None,
    }
}

/// What a refused request is told: what the server says, or else a text of ours.
pub fn refusal(error: Option<&str>, fallback: &str) -> (text: String)
    ensures
        text@ == (match error {
            Some(e) => e@,
            None => fallback@,
        }),
{
    match error {
        Some(e) => owned(e),
        None => owned(fallback),
    }
}

/// What a refused request is told, out of the body of the answer.
pub fn refusal_in(body: &str, fallback: &str) -> (text: String)
    ensures
        text@ == (match node_config::json_text(body@, "error"@) {
            Some(e) => e,
            None => fallback@,
        }),
{
    let error = json_field(body, "error");
    refusal(as_text(&error), fallback)
}

/// The status of an answer, and what the server says with it.
pub open spec fn status_text(status: Seq<char>, error: Option<Seq<char>>) -> Seq<char> {
    match error {
        Some(e) => "HTTP "@ + status + ": "@ + e,
        None => "HTTP "@ + status,
    }
}

/// What a refused request is told, with the status of the answer in front.
pub fn status_refusal(status: &str, error: Option<&str>) -> (text: String)
    ensures
        text@ == status_text(status@, node_config::str_of(error)),
{
    let mut text = join("HTTP ", status);
    if let Some(e) = error {
        text.append(": ");
        text.append(e);
    }
    text
}

/// What a refused request is told, with the status of the answer in front, out of the
/// body of the answer.
pub fn status_refusal_in(status: &str, body: &str) -> (text: String)
    ensures
        text@ == status_text(status@, node_config::json_text(body@, "error"@)),
{
    let error = json_field(body, "error");
    status_refusal(status, as_text(&error))
}

/// Nanoseconds in a second.
pub const SECOND_NS: u64 = 1_000_000_000;

/// How long to wait before the event channel is opened again. The times are in
/// nanoseconds.
pub struct Reconnect {
    pub backoff: u64,
}

impl Reconnect {
    /// The waits are between one second and half a minute.
    pub open spec fn wf(&self) -> bool {
        SECOND_NS <= self.backoff <= 30 * SECOND_NS
    }

    /// Nothing has failed yet.
    pub fn new() -> (r: Reconnect)
        ensures
            r.wf(),
            r.backoff == 3 * SECOND_NS,
    {
        Reconnect { backoff: 3 * SECOND_NS }
    }

    /// The channel stood, and was closed.
    pub fn after_close(&mut self) -> (wait: u64)
        ensures
            final(self).wf(),
            final(self).backoff == SECOND_NS,
            wait == SECOND_NS,
    {
        self.backoff = SECOND_NS;
        SECOND_NS
    }

    /// The channel could not be opened: the next wait is half as long again, and
    /// at most half a minute.
    pub fn after_failure(&mut self) -> (wait: u64)
        requires
            old(self).wf(),
        ensures
            final(self).wf(),
            wait == old(self).backoff,
            final(self).backoff == (if old(self).backoff * 3 / 2 < 30 * SECOND_NS {
                old(self).backoff * 3 / 2
            } else {
                30 * SECOND_NS as int
            }),
    {
        let wait = self.backoff;
        let longer: u64 = wait * 3 / 2;
        self.backoff = if longer < 30 * SECOND_NS {
            longer
        } else {
            30 * SECOND_NS
        };
        wait
    }
}

/// Seconds between two pings over the event channel.
pub const CHANNEL_PING_SECS: u64 = 25;

/// Nanoseconds without a sign of life after which the event channel counts as dead.
pub const CHANNEL_IDLE_NS: u128 = 60_000_000_000;

/// What comes over the event channel.
#[derive(Debug, Clone, Copy, PartialEq, Eq, Structural)]
pub enum ChannelInput {
    /// An event.
    Text,
    /// Anything else: the server is there.
    Other,
    /// The channel was closed, or broke.
    End,
    /// It is time for a ping.
    PingDue,
}

/// What to do next with the event channel.
#[derive(Debug, Clone, Copy, PartialEq, Eq, Structural)]
pub enum ChannelStep {
    /// Hand the event over.
    Deliver,
    Wait,
    Ping,
    Leave,
}

/// A watch over the event channel. Times are nanoseconds since the channel was
/// opened.
pub struct ChannelWatch {
    /// When the server was last heard.
    pub heard_ns: u128,
}

impl ChannelWatch {
    /// The channel was just opened.
    pub fn new() -> (w: ChannelWatch)
        ensures
            w.heard_ns == 0,
    {
        ChannelWatch { heard_ns: 0 }
    }

    /// What to do about what has come. A mapping that was dropped leaves the channel
    /// half open, so one that stays silent is left when the next ping is due.
    pub fn step(&mut self, input: ChannelInput, now_ns: u128) -> (next: ChannelStep)
        ensures
            final(self).heard_ns == (if input == ChannelInput::Text || input == ChannelInput::Other {
                now_ns
            } else {
                old(self).heard_ns
            }),
            next == (match input {
                ChannelInput::Text => ChannelStep::Deliver,
                ChannelInput::Other => ChannelStep::Wait,
                ChannelInput::End => ChannelStep::Leave,
                ChannelInput::PingDue => if now_ns - old(self).heard_ns > CHANNEL_IDLE_NS {
                    ChannelStep::Leave
                } else {
                    ChannelStep::Ping
                },
            }),
    {
        match input {
            ChannelInput::Text => {
                self.heard_ns = now_ns;
                ChannelStep::Deliver
            },
            ChannelInput::Other => {
                self.heard_ns = now_ns;
                ChannelStep::Wait
            },
            ChannelInput::End => ChannelStep::Leave,
            ChannelInput::PingDue => {
                if now_ns > self.heard_ns && now_ns - self.heard_ns > CHANNEL_IDLE_NS {
                    ChannelStep::Leave
                } else {
                    ChannelStep::Ping
                }
            },
        }
    }
}

/// What a digit of a percent code stands for.
pub open spec fn upper_hex_value(c: char) -> int {
    if '0' <= c <= '9' {
        c as int - '0' as int
    } else {
        c as int - 'A' as int + 10
    }
}

/// Bytes go into a query one after the other. A letter, a digit, a hyphen, an
/// underscore, a dot and a tilde stand for themselves; any other byte is a percent sign
/// and two hexadecimal digits, which give the byte.
pub proof fn lemma_each_byte_in_a_query(a: Seq<u8>, b: Seq<u8>, byte: u8)
    ensures
        percent_encoded(a + b) == percent_encoded(a) + percent_encoded(b),
        ({
            let c = byte as char;
            let code = percent_encoded(seq![byte]);
            if 'A' <= c <= 'Z' || 'a' <= c <= 'z' || '0' <= c <= '9' || c == '-' || c == '_' || c == '.' || c
                == '~' {
                code == seq![c]
            } else {
                code.len() == 3 && code[0] == '%' && upper_hex_value(code[1]) * 16 + upper_hex_value(code[2])
                    == byte
            }
        }),
    decreases b.len(),
{
    let one = seq![byte];
    assert(one.drop_last() =~= Seq::empty());
    assert(percent_encoded(one.drop_last()) =~= Seq::empty());
    assert(percent_encoded(one) =~= byte_code(byte));
    if b.len() == 0 {
        assert(a + b =~= a);
        assert(percent_encoded(a) + percent_encoded(b) =~= percent_encoded(a));
    } else {
        lemma_each_byte_in_a_query(a, b.drop_last(), byte);
        assert((a + b).drop_last() =~= a + b.drop_last());
        assert((a + b).last() == b.last());
        assert(percent_encoded(a + b) =~= percent_encoded(a) + percent_encoded(b));
    }
}

/// Two names that differ make two queries that differ.
pub proof fn lemma_query_tells_names_apart(a: Seq<u8>, b: Seq<u8>)
    requires
        percent_encoded(a) == percent_encoded(b),
    ensures
        a == b,
    decreases a.len(),
{
    lemma_encoded_ends(a);
    lemma_encoded_ends(b);
    if a.len() > 0 && b.len() > 0 {
        let s = percent_encoded(a);
        let x = a.last();
        let y = b.last();
        let n = s.len() as int;
        assert(s[n - 1] == byte_code(x).last());
        assert(s[n - 1] == byte_code(y).last());
        assert(is_unreserved(x) == is_unreserved(y));
        assert(byte_code(x).len() == byte_code(y).len());
        let k = n - byte_code(x).len();
        assert(s.take(k) =~= percent_encoded(a.drop_last()));
        assert(s.take(k) =~= percent_encoded(b.drop_last()));
        assert(s.skip(k) =~= byte_code(x));
        assert(s.skip(k) =~= byte_code(y));
        assert(byte_code(x)[0] == byte_code(y)[0]);
        if !is_unreserved(x) {
            assert(byte_code(x)[1] == byte_code(y)[1]);
            assert(byte_code(x)[2] == byte_code(y)[2]);
        }
        assert(x == y);
        lemma_query_tells_names_apart(a.drop_last(), b.drop_last());
        assert(a =~= a.drop_last().push(x));
        assert(b =~= b.drop_last().push(y));
    } else {
        assert(a =~= b);
    }
}

/// The end of a query shows what its last byte was: a percent sign is third from the end
/// if and only if that byte has a code.
proof fn lemma_encoded_ends(bytes: Seq<u8>)
    ensures
        bytes.len() > 0 ==> ({
            let s = percent_encoded(bytes);
            &&& s.len() >= 1
            &&& is_unreserved(bytes.last()) <==> !(s.len() >= 3 && s[s.len() - 3] == '%')
            &&& s.last() != '%'
            &&& s.len() >= 2 ==> (s[s.len() - 2] == '%') == false
        }),
        bytes.len() == 0 ==> percent_encoded(bytes).len() == 0,
    decreases bytes.len(),
{
    if bytes.len() > 0 {
        let front = percent_encoded(bytes.drop_last());
        let s = percent_encoded(bytes);
        let code = byte_code(bytes.last());
        lemma_encoded_ends(bytes.drop_last());
        let n = s.len() as int;
        let f = front.len() as int;
        assert(s == front + code);
        if is_unreserved(bytes.last()) {
            assert(n == f + 1);
            assert(s[n - 1] == code[0]);
            if n >= 2 {
                assert(s[n - 2] == front[f - 1]);
            }
            if n >= 3 {
                assert(s[n - 3] == front[f - 2]);
            }
        } else {
            assert(n == f + 3);
            assert(s[n - 3] == code[0]);
            assert(s[n - 2] == code[1]);
            assert(s[n - 1] == code[2]);
        }
    }
}

/// The address of a server is kept but for the slashes at its end.
pub proof fn lemma_slashes_at_the_end_are_dropped(s: Seq<char>)
    ensures
        without_slashes(s).len() <= s.len(),
        without_slashes(s) == s.take(without_slashes(s).len() as int),
        without_slashes(s).len() > 0 ==> without_slashes(s).last() != '/',
        forall|i: int| without_slashes(s).len() <= i < s.len() ==> #[trigger] s[i] == '/',
    decreases s.len(),
{
    if s.len() > 0 && s.last() == '/' {
        let rest = s.drop_last();
        lemma_slashes_at_the_end_are_dropped(rest);
        let n = without_slashes(s).len() as int;
        assert(rest.take(n) =~= s.take(n));
        assert forall|i: int| n <= i < s.len() implies #[trigger] s[i] == '/' by {
            if i < rest.len() {
                assert(rest[i] == s[i]);
            }
        }
    } else {
        assert(s.take(s.len() as int) =~= s);
    }
}

/// Where the server is talked to in secret, so is its event channel, and at the same
/// place.
pub proof fn lemma_channel_is_as_secret_as_the_server(rest: Seq<char>)
    ensures
        scheme_of("https://"@ + rest) == Scheme::Secure,
        scheme_of("http://"@ + rest) == Scheme::Plain,
        channel_base("https://"@ + rest) == "wss://"@ + rest,
        channel_base("http://"@ + rest) == "ws://"@ + rest,
        scheme_of(rest) == Scheme::Other ==> channel_base(rest) == rest,
{
    reveal_strlit("https://");
    reveal_strlit("http://");
    let a = "https://"@ + rest;
    let b = "http://"@ + rest;
    assert(a.take(8) =~= "https://"@);
    assert(a.skip(8) =~= rest);
    assert(b.take(7) =~= "http://"@);
    assert(b.skip(7) =~= rest);
    assert(b[4] == ':');
    if b.len() >= 8 {
        assert(b.take(8)[4] == ':');
        assert("https://"@[4] == 's');
    }
}

/// A refusal is told with its status, and with what the server says where it says
/// anything.
pub proof fn lemma_refusal_is_told(status: Seq<char>, error: Seq<char>)
    ensures
        status_text(status, None) == "HTTP "@ + status,
        status_text(status, Some(error)) == "HTTP "@ + status + ": "@ + error,
{
}

} // verus!
