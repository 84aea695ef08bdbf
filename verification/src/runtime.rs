//! What the server's settings come to on a running node: what takes effect at
//! once, what takes a restart, and why the node stops.

use std::collections::HashSet;

use vstd::prelude::*;

use crate::addr;
use crate::addr::{
    decimal_text, find_char, parse_ipv4, parse_socket, SocketAddr, SocketView,
};
use crate::consts::{DEFAULT_LISTEN_PORT, DEFAULT_MTU};
use crate::crypto::primitives;
use crate::crypto::primitives::hex_decode;
use crate::endec::to_array;
use crate::engine;
use crate::models;
use crate::models::{ClientMode, DeviceSettings, ForwardRule, Identity, NodeConfig};
use crate::protocol::relay_udp::relay_key_from_token;
use crate::proxy::socks5;
use crate::supervisor::{EXIT_OK, EXIT_RESTART};
use crate::text;
use crate::text::{chars_of, join, owned, same_text, string_of};
use crate::ws_events::{
    CONFIG_CHANGED, CONNECTED, DEVICE_OFFLINE, DEVICE_ONLINE, NETWORKS_CHANGED, PEERS_CHANGED,
    RECONNECT_REQUESTED, RESTART_REQUESTED, SETTINGS_CHANGED,
};

verus! {

/// The transport of a listen address.
#[derive(Debug, Clone, Copy, PartialEq, Eq, Structural)]
pub enum ListenProto {
    Udp,
    Tcp,
}

/// `text` begins with `head`.
pub open spec fn starts_with(text: Seq<char>, head: Seq<char>) -> bool {
    text.len() >= head.len() && text.take(head.len() as int) == head
}

/// Whether the characters from `from` on begin with `head`.
fn begins(chars: &[char], from: usize, head: &[char]) -> (yes: bool)
    requires
        from <= chars@.len(),
    ensures
        yes == starts_with(chars@.skip(from as int), head@),
{
    let ghost rest = chars@.skip(from as int);
    let n = chars.len();
    if n - from < head.len() {
        return false;
    }
    let mut i: usize = 0;
    while i < head.len()
        invariant
            i <= head@.len() <= n - from,
            n == chars@.len(),
            rest == chars@.skip(from as int),
            forall|j: int| 0 <= j < i ==> rest[j] == head@[j],
        decreases head@.len() - i,
    {
        if chars[from + i] != head[i] {
            assert(rest[i as int] != head@[i as int]);
            assert(rest.take(head@.len() as int)[i as int] == rest[i as int]);
            return false;
        }
        i += 1;
    }
    assert(rest.take(head@.len() as int) =~= head@);
    true
}

/// Whether a text begins with another.
pub fn has_head(text: &str, head: &str) -> (yes: bool)
    ensures
        yes == starts_with(text@, head@),
{
    let chars = chars_of(text);
    let front = chars_of(head);
    assert(chars@.skip(0) =~= text@);
    begins(chars.as_slice(), 0, front.as_slice())
}

/// What a listen address names: `udp://` or `tcp://`, and an address.
pub open spec fn listen_url(text: Seq<char>) -> Option<(ListenProto, SocketView)> {
    if starts_with(text, "udp://"@) {
        match addr::socket_value(text.skip(6)) {
            Some(at) => Some((ListenProto::Udp, at)),
            None => None,
        }
    } else if starts_with(text, "tcp://"@) {
        match addr::socket_value(text.skip(6)) {
            Some(at) => Some((ListenProto::Tcp, at)),
            None => None,
        }
    } else {
        None
    }
}

/// What is said of a listen address that cannot be read.
pub open spec fn bad_listen(text: Seq<char>) -> Seq<char> {
    "listen 不是合法的 udp://ip:port 或 tcp://ip:port（"@ + text + "）"@
}

/// Reads a listen address.
pub fn parse_listen_url(text: &str) -> (parsed: Result<(ListenProto, SocketAddr), String>)
    ensures
        match parsed {
            Ok((proto, at)) => listen_url(text@) == Some((proto, at@)),
            Err(e) => listen_url(text@) is None && e@ == bad_listen(text@),
        },
{
    proof {
        reveal_strlit("udp://");
        reveal_strlit("tcp://");
    }
    let chars = chars_of(text);
    let udp = chars_of("udp://");
    let tcp = chars_of("tcp://");
    assert(chars@.skip(0) =~= chars@);
    let is_udp = begins(chars.as_slice(), 0, udp.as_slice());
    let is_tcp = begins(chars.as_slice(), 0, tcp.as_slice());
    if is_udp || is_tcp {
        let rest = string_of(chars.as_slice(), 6, chars.len());
        assert(rest@ =~= text@.skip(6));
        if let Some(at) = parse_socket(rest.as_str()) {
            let proto = if is_udp {
                ListenProto::Udp
            } else {
                ListenProto::Tcp
            };
            return Ok((proto, at));
        }
    }
    let e = join("listen 不是合法的 udp://ip:port 或 tcp://ip:port（", text);
    Err(join(e.as_str(), "）"))
}

/// The listen addresses of a node that was told none.
pub open spec fn default_listen_texts() -> Seq<Seq<char>> {
    seq![
        "udp://0.0.0.0:"@ + addr::decimal(DEFAULT_LISTEN_PORT as nat),
        "tcp://0.0.0.0:"@ + addr::decimal(DEFAULT_LISTEN_PORT as nat),
    ]
}

/// The listen addresses of a node that was told none.
pub fn default_listen() -> (list: Vec<String>)
    ensures
        text::texts(list@) == default_listen_texts(),
{
    let port = decimal_text(DEFAULT_LISTEN_PORT as u64);
    let mut list: Vec<String> = Vec::new();
    list.push(join("udp://0.0.0.0:", port.as_str()));
    list.push(join("tcp://0.0.0.0:", port.as_str()));
    assert(text::texts(list@) =~= default_listen_texts());
    list
}

/// The listen addresses that apply: those that the server names, or the default
/// if it names none.
pub open spec fn listen_texts(settings: DeviceSettings) -> Seq<Seq<char>> {
    if settings.listen is Some && settings.listen->0@.len() > 0 {
        text::texts(settings.listen->0@)
    } else {
        default_listen_texts()
    }
}

fn copy_texts(list: &Vec<String>) -> (copy: Vec<String>)
    ensures
        text::texts(copy@) == text::texts(list@),
        copy@.len() == list@.len(),
{
    let mut copy: Vec<String> = Vec::new();
    let mut i: usize = 0;
    while i < list.len()
        invariant
            i <= list@.len(),
            copy@.len() == i,
            forall|j: int| 0 <= j < i ==> (#[trigger] copy@[j])@ == list@[j]@,
        decreases list@.len() - i,
    {
        copy.push(list[i].clone());
        i += 1;
    }
    assert(text::texts(copy@) =~= text::texts(list@));
    copy
}

/// The listen addresses that apply, as text.
pub fn effective_listen_raw(settings: &DeviceSettings) -> (list: Vec<String>)
    ensures
        text::texts(list@) == listen_texts(*settings),
{
    match &settings.listen {
        Some(list) => {
            if list.len() > 0 {
                copy_texts(list)
            } else {
                default_listen()
            }
        },
        None => default_listen(),
    }
}

/// The addresses in a list that are for one transport, in the order of the list.
pub open spec fn listened(list: Seq<Seq<char>>, proto: ListenProto) -> Seq<SocketView>
    decreases list.len(),
{
    if list.len() == 0 {
        Seq::empty()
    } else {
        let before = listened(list.drop_last(), proto);
        match listen_url(list.last()) {
            Some((p, at)) => if p == proto {
                before.push(at)
            } else {
                before
            },
            None => before,
        }
    }
}

/// The first `n` listen addresses can be read.
pub open spec fn readable(list: Seq<Seq<char>>, n: int) -> bool {
    forall|i: int| 0 <= i < n ==> listen_url(#[trigger] list[i]) is Some
}

/// The addresses to listen on.
#[derive(Debug)]
pub struct EffectiveListen {
    pub udp: Vec<SocketAddr>,
    pub tcp: Vec<SocketAddr>,
    /// The addresses as text, to tell a change by.
    pub raw: Vec<String>,
}

/// The addresses to listen on. There must be one for UDP.
pub fn effective_listen_addrs(settings: &DeviceSettings) -> (listen: Result<EffectiveListen, String>)
    ensures
        match listen {
            Ok(l) => {
                let raw = listen_texts(*settings);
                &&& text::texts(l.raw@) == raw
                &&& readable(raw, raw.len() as int)
                &&& engine::address_views(l.udp@) == listened(raw, ListenProto::Udp)
                &&& engine::address_views(l.tcp@) == listened(raw, ListenProto::Tcp)
                &&& l.udp@.len() > 0
            },
            Err(e) => {
                let raw = listen_texts(*settings);
                if readable(raw, raw.len() as int) {
                    listened(raw, ListenProto::Udp).len() == 0 && e@ == "监听列表中没有任何 UDP 地址"@
                } else {
                    exists|i: int|
                        0 <= i < raw.len() && #[trigger] readable(raw, i) && listen_url(raw[i]) is None
                            && e@ == bad_listen(raw[i])
                }
            },
        },
{
    let raw = effective_listen_raw(settings);
    let ghost list = listen_texts(*settings);
    let mut udp: Vec<SocketAddr> = Vec::new();
    let mut tcp: Vec<SocketAddr> = Vec::new();
    let mut i: usize = 0;
    assert(engine::address_views(udp@) =~= listened(list.take(0), ListenProto::Udp));
    assert(engine::address_views(tcp@) =~= listened(list.take(0), ListenProto::Tcp));
    while i < raw.len()
        invariant
            i <= raw@.len(),
            list == listen_texts(*settings),
            text::texts(raw@) == list,
            readable(list, i as int),
            engine::address_views(udp@) == listened(list.take(i as int), ListenProto::Udp),
            engine::address_views(tcp@) == listened(list.take(i as int), ListenProto::Tcp),
        decreases raw@.len() - i,
    {
        assert(list[i as int] == raw@[i as int]@);
        assert(list.take(i + 1).drop_last() =~= list.take(i as int));
        assert(list.take(i + 1).last() == list[i as int]);
        match parse_listen_url(raw[i].as_str()) {
            Ok((proto, at)) => {
                let ghost udp0 = udp@;
                let ghost tcp0 = tcp@;
                match proto {
                    ListenProto::Udp => {
                        udp.push(at);
                        assert(engine::address_views(udp@) =~= engine::address_views(udp0).push(at@));
                    },
                    ListenProto::Tcp => {
                        tcp.push(at);
                        assert(engine::address_views(tcp@) =~= engine::address_views(tcp0).push(at@));
                    },
                }
            },
            Err(e) => {
                assert(readable(list, i as int));
                assert(!readable(list, list.len() as int));
                return Err(e);
            },
        }
        i += 1;
    }
    assert(list.take(list.len() as int) =~= list);
    assert(engine::address_views(udp@).len() == udp@.len());
    if udp.len() == 0 {
        return Err(owned("监听列表中没有任何 UDP 地址"));
    }
    Ok(EffectiveListen { udp, tcp, raw })
}

/// The mode that applies.
pub fn effective_mode_of(settings: &DeviceSettings) -> (mode: ClientMode)
    ensures
        mode == (match settings.mode {
            Some(m) => m,
            None => ClientMode::Proxy,
        }),
{
    match settings.mode {
        Some(m) => m,
        None => ClientMode::Proxy,
    }
}

/// The address of the SOCKS listener of a node that was told none.
pub const DEFAULT_SOCKS_LISTEN: &'static str = "127.0.0.1:1080";

/// The address of the SOCKS listener that applies; none if it is switched off.
pub open spec fn socks_text(settings: DeviceSettings) -> Option<Seq<char>> {
    match settings.socks_listen {
        Some(at) => if at@.len() == 0 {
            None
        } else {
            Some(at@)
        },
        None => Some(DEFAULT_SOCKS_LISTEN@),
    }
}

/// A text that may be absent, by its characters.
pub open spec fn text_view(text: Option<String>) -> Option<Seq<char>> {
    match text {
        Some(t) => Some(t@),
        None => None,
    }
}

/// The address of the SOCKS listener that applies.
pub fn effective_socks(settings: &DeviceSettings) -> (at: Option<String>)
    ensures
        text_view(at) == socks_text(*settings),
{
    match &settings.socks_listen {
        Some(at) => {
            if at.as_str().is_empty() {
                None
            } else {
                Some(at.clone())
            }
        },
        None => Some(owned(DEFAULT_SOCKS_LISTEN)),
    }
}

/// A forwarding rule, by its texts.
pub open spec fn rule_texts(r: ForwardRule) -> (Seq<char>, Seq<char>, Seq<char>) {
    (r.listen@, r.proto@, r.dest@)
}

/// Forwarding rules, by their texts.
pub open spec fn rules_texts(list: Seq<ForwardRule>) -> Seq<(Seq<char>, Seq<char>, Seq<char>)> {
    list.map_values(|r: ForwardRule| rule_texts(r))
}

fn copy_rules(list: &Vec<ForwardRule>) -> (copy: Vec<ForwardRule>)
    ensures
        copy@ == list@,
{
    let mut copy: Vec<ForwardRule> = Vec::new();
    let mut i: usize = 0;
    while i < list.len()
        invariant
            i <= list@.len(),
            copy@ == list@.take(i as int),
        decreases list@.len() - i,
    {
        copy.push(list[i].clone());
        assert(list@.take(i + 1) =~= list@.take(i as int).push(list@[i as int]));
        i += 1;
    }
    assert(list@.take(i as int) =~= list@);
    copy
}

fn same_rules(a: &Vec<ForwardRule>, b: &Vec<ForwardRule>) -> (same: bool)
    ensures
        same == (rules_texts(a@) == rules_texts(b@)),
{
    let ghost x = rules_texts(a@);
    let ghost y = rules_texts(b@);
    if a.len() != b.len() {
        assert(x.len() != y.len());
        return false;
    }
    let mut i: usize = 0;
    while i < a.len()
        invariant
            i <= a@.len() == b@.len(),
            x == rules_texts(a@),
            y == rules_texts(b@),
            forall|j: int| 0 <= j < i ==> x[j] == y[j],
        decreases a@.len() - i,
    {
        if !same_text(a[i].listen.as_str(), b[i].listen.as_str()) || !same_text(
            a[i].proto.as_str(),
            b[i].proto.as_str(),
        ) || !same_text(a[i].dest.as_str(), b[i].dest.as_str()) {
            assert(x[i as int] != y[i as int]);
            return false;
        }
        assert(x[i as int] == y[i as int]);
        i += 1;
    }
    assert(x =~= y);
    true
}

fn same_texts(a: &Vec<String>, b: &Vec<String>) -> (same: bool)
    ensures
        same == (text::texts(a@) == text::texts(b@)),
{
    let ghost x = text::texts(a@);
    let ghost y = text::texts(b@);
    if a.len() != b.len() {
        assert(x.len() != y.len());
        return false;
    }
    let mut i: usize = 0;
    while i < a.len()
        invariant
            i <= a@.len() == b@.len(),
            x == text::texts(a@),
            y == text::texts(b@),
            forall|j: int| 0 <= j < i ==> x[j] == y[j],
        decreases a@.len() - i,
    {
        if !same_text(a[i].as_str(), b[i].as_str()) {
            assert(x[i as int] != y[i as int]);
            return false;
        }
        assert(x[i as int] == y[i as int]);
        i += 1;
    }
    assert(x =~= y);
    true
}

/// What became of settings that came in.
#[derive(Debug, Clone, Copy, PartialEq, Eq, Structural)]
pub enum Applied {
    /// They are not newer than what is in force.
    Known,
    /// They take a restart, which will acknowledge them.
    Restart,
    /// They are in force.
    InForce,
}

/// The settings that the node was started with, and what came after them.
pub struct Runtime {
    pub mtu: u32,
    pub socks: Option<String>,
    pub forwards: Vec<ForwardRule>,
    pub mode: ClientMode,
    pub listen: Vec<String>,
    /// The newest revision that is in force.
    pub applied_revision: u64,
    /// Whether something waits for a restart.
    pub restart_pending: bool,
    /// The networks of the node, as the server lists them.
    pub roster: Vec<u128>,
}

impl Runtime {
    /// The settings name a value that takes a restart. An empty list of listen
    /// addresses stands for the default ones.
    pub open spec fn needs_restart(self, s: DeviceSettings) -> bool {
        ||| s.mtu is Some && s.mtu->0 != self.mtu
        ||| s.socks_listen is Some && text_view(self.socks) != socks_text(s)
        ||| s.forwards is Some && rules_texts(self.forwards@) != rules_texts(s.forwards->0@)
        ||| s.mode is Some && s.mode->0 != self.mode
        ||| s.listen is Some && text::texts(self.listen@) != listen_texts(s)
    }

    /// Nothing but the revision, the mark and the roster differs.
    pub open spec fn same_start(self, other: Runtime) -> bool {
        &&& self.mtu == other.mtu
        &&& self.socks == other.socks
        &&& self.forwards == other.forwards
        &&& self.mode == other.mode
        &&& self.listen == other.listen
    }

    /// What holds of a node that was started with these settings.
    pub open spec fn started_with(self, s: DeviceSettings) -> bool {
        &&& self.mtu == (match s.mtu {
            Some(mtu) => mtu,
            None => DEFAULT_MTU,
        })
        &&& text_view(self.socks) == socks_text(s)
        &&& rules_texts(self.forwards@) == (match s.forwards {
            Some(list) => rules_texts(list@),
            None => Seq::empty(),
        })
        &&& self.mode == (match s.mode {
            Some(m) => m,
            None => ClientMode::Proxy,
        })
        &&& text::texts(self.listen@) == listen_texts(s)
    }

    /// The node as it starts. That it starts acknowledges the settings.
    pub fn start(settings: &DeviceSettings) -> (runtime: Runtime)
        ensures
            runtime.started_with(*settings),
            runtime.applied_revision == (if settings.revision > 0 {
                settings.revision as u64
            } else {
                0
            }),
            !runtime.restart_pending,
            runtime.roster@ == Seq::<u128>::empty(),
    {
        let forwards = match &settings.forwards {
            Some(list) => copy_rules(list),
            None => Vec::new(),
        };
        let runtime = Runtime {
            mtu: match settings.mtu {
                Some(mtu) => mtu,
                None => DEFAULT_MTU,
            },
            socks: effective_socks(settings),
            forwards,
            mode: effective_mode_of(settings),
            listen: effective_listen_raw(settings),
            applied_revision: if settings.revision > 0 {
                settings.revision as u64
            } else {
                0
            },
            restart_pending: false,
            roster: Vec::new(),
        };
        assert(rules_texts(runtime.forwards@) =~= (match settings.forwards {
            Some(list) => rules_texts(list@),
            None => Seq::empty(),
        }));
        runtime
    }

    /// Whether settings of this revision are new to the node.
    pub fn is_news(&self, revision: i64) -> (news: bool)
        ensures
            news == (self.applied_revision < revision as u64),
    {
        self.applied_revision < revision as u64
    }

    fn differs(&self, settings: &DeviceSettings) -> (yes: bool)
        ensures
            yes == self.needs_restart(*settings),
    {
        if let Some(mtu) = settings.mtu {
            if mtu != self.mtu {
                return true;
            }
        }
        if let Some(at) = &settings.socks_listen {
            let same = match &self.socks {
                Some(now) => !at.as_str().is_empty() && same_text(now.as_str(), at.as_str()),
                None => at.as_str().is_empty(),
            };
            if !same {
                return true;
            }
        }
        if let Some(list) = &settings.forwards {
            if !same_rules(&self.forwards, list) {
                return true;
            }
        }
        if let Some(mode) = settings.mode {
            if mode != self.mode {
                return true;
            }
        }
        if settings.listen.is_some() && !same_texts(&self.listen, &effective_listen_raw(settings)) {
            return true;
        }
        false
    }

    /// Takes settings in. Where they take a restart they are not acknowledged: the
    /// node that comes up with them does that.
    pub fn apply(&mut self, settings: &DeviceSettings) -> (applied: Applied)
        ensures
            final(self).same_start(*old(self)),
            final(self).roster == old(self).roster,
            applied == (if old(self).applied_revision >= settings.revision as u64 {
                Applied::Known
            } else if old(self).needs_restart(*settings) {
                Applied::Restart
            } else {
                Applied::InForce
            }),
            final(self).applied_revision == (if applied is InForce {
                settings.revision as u64
            } else {
                old(self).applied_revision
            }),
            final(self).restart_pending == (old(self).restart_pending || applied is Restart),
    {
        if !self.is_news(settings.revision) {
            return Applied::Known;
        }
        if self.differs(settings) {
            self.restart_pending = true;
            return Applied::Restart;
        }
        self.applied_revision = settings.revision as u64;
        Applied::InForce
    }

    /// Takes the server's list of networks. Whether it differs from the last one
    /// comes back; a network that is new takes a restart.
    pub fn reconcile(&mut self, networks: Vec<u128>) -> (changed: bool)
        ensures
            final(self).same_start(*old(self)),
            final(self).applied_revision == old(self).applied_revision,
            final(self).roster@.to_set() == networks@.to_set(),
            changed == (old(self).roster@.to_set() != networks@.to_set()),
            final(self).restart_pending == (old(self).restart_pending || changed),
    {
        let changed = !(covers(&self.roster, &networks) && covers(&networks, &self.roster));
        assert(!changed ==> self.roster@.to_set() =~= networks@.to_set());
        self.roster = networks;
        if changed {
            self.restart_pending = true;
        }
        changed
    }
}

/// The networks in a list.
pub fn network_set(list: &Vec<u128>) -> (set: HashSet<u128>)
    ensures
        set@ == list@.to_set(),
{
    broadcast use vstd::std_specs::hash::group_hash_axioms;

    let mut set: HashSet<u128> = HashSet::new();
    let mut i: usize = 0;
    assert(set@ =~= list@.take(0).to_set());
    while i < list.len()
        invariant
            i <= list@.len(),
            set@ == list@.take(i as int).to_set(),
        decreases list@.len() - i,
    {
        broadcast use vstd::std_specs::hash::group_hash_axioms;

        let n = list[i];
        assert(list@.take(i + 1) =~= list@.take(i as int).push(n));
        proof {
            lemma_push_set(list@.take(i as int), n);
        }
        set.insert(n);
        i += 1;
    }
    assert(list@.take(i as int) =~= list@);
    set
}

/// Whether every network of `b` is one of `a`.
fn covers(a: &Vec<u128>, b: &Vec<u128>) -> (yes: bool)
    ensures
        yes == b@.to_set().subset_of(a@.to_set()),
{
    broadcast use vstd::std_specs::hash::group_hash_axioms;

    let set = network_set(a);
    let mut i: usize = 0;
    while i < b.len()
        invariant
            i <= b@.len(),
            set@ == a@.to_set(),
            forall|j: int| 0 <= j < i ==> set@.contains(#[trigger] b@[j]),
        decreases b@.len() - i,
    {
        broadcast use vstd::std_specs::hash::group_hash_axioms;

        if !set.contains(&b[i]) {
            assert(b@.to_set().contains(b@[i as int]));
            return false;
        }
        i += 1;
    }
    true
}

proof fn lemma_push_set(s: Seq<u128>, x: u128)
    ensures
        s.push(x).to_set() == s.to_set().insert(x),
{
    assert forall|y: u128| s.push(x).to_set().contains(y) == s.to_set().insert(x).contains(y) by {
        if s.contains(y) {
            let j = choose|j: int| 0 <= j < s.len() && s[j] == y;
            assert(s.push(x)[j] == y);
        }
        if y == x {
            assert(s.push(x)[s.len() as int] == y);
        }
        if s.push(x).contains(y) && y != x {
            let j = choose|j: int| 0 <= j < s.push(x).len() && s.push(x)[j] == y;
            assert(s[j] == y);
        }
    }
    assert(s.push(x).to_set() =~= s.to_set().insert(x));
}

/// A node that takes in the settings that it was started with does not restart
/// for them.
pub proof fn lemma_start_settings_are_in_force(r: Runtime, s: DeviceSettings)
    requires
        r.started_with(s),
    ensures
        !r.needs_restart(s),
{
}

/// Why a node stops.
#[derive(Debug, Clone, Copy, PartialEq, Eq, Structural)]
pub enum StopReason {
    /// It was told to.
    Stopped,
    /// It is to come up again.
    Restart,
}

/// Whether and why a node stops.
pub struct StopState {
    pub stopping: bool,
    pub reason: Option<StopReason>,
}

impl StopState {
    /// The node runs.
    pub fn new() -> (state: StopState)
        ensures
            !state.stopping,
            state.reason is None,
    {
        StopState { stopping: false, reason: None }
    }

    /// Asks the node to stop. The first reason stands; whether this was the first
    /// comes back.
    pub fn request_stop(&mut self, reason: StopReason) -> (first: bool)
        ensures
            first == !old(self).stopping,
            final(self).stopping,
            final(self).reason == (if old(self).stopping || old(self).reason is Some {
                old(self).reason
            } else {
                Some(reason)
            }),
    {
        if self.stopping {
            return false;
        }
        self.stopping = true;
        if self.reason.is_none() {
            self.reason = Some(reason);
        }
        true
    }

    /// The exit code of the process.
    pub fn exit_code(&self) -> (code: i32)
        ensures
            code == (if self.reason == Some(StopReason::Restart) {
                EXIT_RESTART
            } else {
                EXIT_OK
            }),
    {
        match self.reason {
            Some(StopReason::Restart) => EXIT_RESTART,
            _ => EXIT_OK,
        }
    }
}

/// Lets one refresh of the peers run at a time. What asks for another while one
/// runs is answered by one more round.
pub struct RefreshGate {
    pub running: bool,
    pub pending: bool,
}

impl RefreshGate {
    /// Nothing runs, and nothing was asked for.
    pub fn new() -> (gate: RefreshGate)
        ensures
            !gate.running,
            !gate.pending,
    {
        RefreshGate { running: false, pending: false }
    }

    /// A refresh is asked for; true if the caller is to run it.
    pub fn ask(&mut self) -> (run: bool)
        ensures
            final(self).pending,
            final(self).running,
            run == !old(self).running,
    {
        self.pending = true;
        if self.running {
            return false;
        }
        self.running = true;
        true
    }

    /// Whether there is one more round to run. Without one the run is over.
    pub fn next_round(&mut self) -> (go: bool)
        ensures
            go == old(self).pending,
            !final(self).pending,
            final(self).running == (old(self).running && go),
    {
        if self.pending {
            self.pending = false;
            true
        } else {
            self.running = false;
            false
        }
    }
}

/// What an event from the server asks for.
#[derive(Debug, Clone, Copy, PartialEq, Eq, Structural)]
pub enum Reaction {
    /// Register with the relays, refresh the peers, take in settings and roster.
    CatchUp,
    RefreshPeers,
    TakeSettings,
    /// Register with the relays and refresh the peers.
    Reconnect,
    TakeRoster,
    Restart,
    TakeConfig,
    Nothing,
}

/// What an event of this kind asks for.
pub open spec fn reaction_to(event: Seq<char>) -> Reaction {
    if event == CONNECTED@ {
        Reaction::CatchUp
    } else if event == PEERS_CHANGED@ || event == DEVICE_ONLINE@ || event == DEVICE_OFFLINE@ {
        Reaction::RefreshPeers
    } else if event == SETTINGS_CHANGED@ {
        Reaction::TakeSettings
    } else if event == RECONNECT_REQUESTED@ {
        Reaction::Reconnect
    } else if event == NETWORKS_CHANGED@ {
        Reaction::TakeRoster
    } else if event == RESTART_REQUESTED@ {
        Reaction::Restart
    } else if event == CONFIG_CHANGED@ {
        Reaction::TakeConfig
    } else {
        Reaction::Nothing
    }
}

/// What an event of this kind asks for.
pub fn react(event: &str) -> (reaction: Reaction)
    ensures
        reaction == reaction_to(event@),
{
    if same_text(event, CONNECTED) {
        Reaction::CatchUp
    } else if same_text(event, PEERS_CHANGED) || same_text(event, DEVICE_ONLINE) || same_text(
        event,
        DEVICE_OFFLINE,
    ) {
        Reaction::RefreshPeers
    } else if same_text(event, SETTINGS_CHANGED) {
        Reaction::TakeSettings
    } else if same_text(event, RECONNECT_REQUESTED) {
        Reaction::Reconnect
    } else if same_text(event, NETWORKS_CHANGED) {
        Reaction::TakeRoster
    } else if same_text(event, RESTART_REQUESTED) {
        Reaction::Restart
    } else if same_text(event, CONFIG_CHANGED) {
        Reaction::TakeConfig
    } else {
        Reaction::Nothing
    }
}

/// A text without every `head` that it begins with.
pub open spec fn stripped(text: Seq<char>, head: Seq<char>) -> Seq<char>
    decreases text.len(),
{
    if head.len() > 0 && starts_with(text, head) {
        stripped(text.skip(head.len() as int), head)
    } else {
        text
    }
}

fn strip(chars: &[char], from: usize, head: &[char]) -> (at: usize)
    requires
        from <= chars@.len(),
        head@.len() > 0,
    ensures
        from <= at <= chars@.len(),
        chars@.skip(at as int) == stripped(chars@.skip(from as int), head@),
{
    let n = chars.len();
    let mut at: usize = from;
    while begins(chars, at, head)
        invariant
            from <= at <= n,
            n == chars@.len(),
            head@.len() > 0,
            stripped(chars@.skip(at as int), head@) == stripped(chars@.skip(from as int), head@),
        ensures
            !starts_with(chars@.skip(at as int), head@),
        decreases chars@.len() - at,
    {
        assert(chars@.skip(at as int).skip(head@.len() as int) =~= chars@.skip(at + head@.len()));
        assert(at + head@.len() <= n);
        at = at + head.len();
    }
    at
}

/// The host in the address of the server: without scheme, path and port.
pub open spec fn host_of(url: Seq<char>) -> Seq<char> {
    let bare = stripped(stripped(url, "https://"@), "http://"@);
    let front = bare.take(addr::first_of(bare, '/'));
    front.take(addr::first_of(front, ':'))
}

/// Where a relay is to be found.
#[derive(Debug)]
pub enum RelayHost {
    /// At this address.
    Address(u32),
    /// At the address that this name stands for.
    Name(String),
}

/// Where the relay of a server is: a server at no particular address is on this
/// machine.
pub fn relay_host(url: &str) -> (host: RelayHost)
    ensures
        match host {
            RelayHost::Address(ip) => match addr::ipv4_value(host_of(url@)) {
                Some(a) => ip == (if a == 0 {
                    0x7f00_0001u32
                } else {
                    a
                }),
                None => false,
            },
            RelayHost::Name(name) => addr::ipv4_value(host_of(url@)) is None && name@ == host_of(url@),
        },
{
    proof {
        reveal_strlit("https://");
        reveal_strlit("http://");
    }
    let chars = chars_of(url);
    let https = chars_of("https://");
    let http = chars_of("http://");
    let n = chars.len();
    let a = strip(chars.as_slice(), 0, https.as_slice());
    assert(chars@.skip(0) =~= url@);
    let b = strip(chars.as_slice(), a, http.as_slice());
    let ghost bare = stripped(stripped(url@, "https://"@), "http://"@);
    assert(chars@.subrange(b as int, n as int) =~= bare);
    let c = find_char(chars.as_slice(), b, n, '/');
    let ghost front = bare.take(addr::first_of(bare, '/'));
    assert(chars@.subrange(b as int, c as int) =~= front);
    let d = find_char(chars.as_slice(), b, c, ':');
    let host = string_of(chars.as_slice(), b, d);
    assert(host@ =~= host_of(url@));
    match parse_ipv4(host.as_str()) {
        Some(0) => RelayHost::Address(0x7f00_0001),
        Some(ip) => RelayHost::Address(ip),
        None => RelayHost::Name(host),
    }
}

/// Where a packet from the virtual interface goes: IPv4 alone has a destination.
pub open spec fn destination(packet: Seq<u8>) -> Option<u32> {
    if packet.len() >= 20 && packet[0] / 16 == 4 {
        Some(
            (packet[16] * 0x100_0000 + packet[17] * 0x1_0000 + packet[18] * 0x100 + packet[19]) as u32,
        )
    } else {
        None
    }
}

/// Where a packet from the virtual interface goes.
pub fn packet_destination(packet: &[u8]) -> (ip: Option<u32>)
    ensures
        ip == destination(packet@),
        ip matches Some(a) ==> forall|i: int|
            0 <= i < 4 ==> packet@[16 + i] as nat == #[trigger] addr::octet_of(a, i),
{
    proof {
        lemma_packet_goes_where_it_says(packet@, (destination(packet@))->0);
    }
    if packet.len() >= 20 && packet[0] / 16 == 4 {
        Some(
            packet[16] as u32 * 0x100_0000 + packet[17] as u32 * 0x1_0000 + packet[18] as u32 * 0x100
                + packet[19] as u32,
        )
    } else {
        None
    }
}

/// What a node needs to come up.
pub struct StartupPlan {
    pub dh_priv: [u8; 32],
    pub dh_pub: [u8; 32],
    pub relay_key: [u8; 32],
    pub listen: EffectiveListen,
}

/// What is wrong with a key in hexadecimal: `bad` if it is none, `short` if it
/// does not have 32 bytes.
pub open spec fn key_error(text: Seq<char>, bad: Seq<char>, short: Seq<char>) -> Option<Seq<char>> {
    if !primitives::is_hex_text(text) {
        Some(bad)
    } else if primitives::hex_bytes(text).len() != 32 {
        Some(short)
    } else {
        None
    }
}

fn read_identity_key(text: &str, bad: &str, short: &str) -> (key: Result<[u8; 32], String>)
    ensures
        match key {
            Ok(k) => key_error(text@, bad@, short@) is None && k@ == primitives::hex_bytes(text@),
            Err(e) => key_error(text@, bad@, short@) == Some(e@),
        },
{
    match hex_decode(text) {
        Some(bytes) => {
            if bytes.len() != 32 {
                return Err(owned(short));
            }
            Ok(to_array(bytes.as_slice()))
        },
        None => Err(owned(bad)),
    }
}

/// What is wrong with the keys of an identity.
pub open spec fn identity_error(id: Identity) -> Option<Seq<char>> {
    let private = key_error(
        id.dh_private_key.0@,
        "身份中的 DH 私钥无效"@,
        "身份中的 DH 私钥不是 32 字节"@,
    );
    if private is Some {
        private
    } else {
        key_error(id.dh_public_key@, "身份中的 DH 公钥无效"@, "身份中的 DH 公钥不是 32 字节"@)
    }
}

/// Checks what a node is started with, before anything is opened.
pub fn plan_startup(config: &NodeConfig, settings: &DeviceSettings) -> (plan: Result<StartupPlan, String>)
    ensures
        match plan {
            Ok(p) => {
                let raw = listen_texts(*settings);
                &&& !models::is_blank(config.server@)
                &&& identity_error(config.identity) is None
                &&& p.dh_priv@ == primitives::hex_bytes(config.identity.dh_private_key.0@)
                &&& p.dh_pub@ == primitives::hex_bytes(config.identity.dh_public_key@)
                &&& p.relay_key@ == primitives::sha256_digest(
                    vstd::utf8::encode_utf8(config.identity.device_token.0@),
                )
                &&& text::texts(p.listen.raw@) == raw
                &&& readable(raw, raw.len() as int)
                &&& engine::address_views(p.listen.udp@) == listened(raw, ListenProto::Udp)
                &&& engine::address_views(p.listen.tcp@) == listened(raw, ListenProto::Tcp)
                &&& p.listen.udp@.len() > 0
            },
            Err(e) => {
                let raw = listen_texts(*settings);
                if models::is_blank(config.server@) {
                    e@ == "配置缺少 server"@
                } else if identity_error(config.identity) is Some {
                    Some(e@) == identity_error(config.identity)
                } else if readable(raw, raw.len() as int) {
                    listened(raw, ListenProto::Udp).len() == 0 && e@ == "监听列表中没有任何 UDP 地址"@
                } else {
                    exists|i: int|
                        0 <= i < raw.len() && #[trigger] readable(raw, i) && listen_url(raw[i]) is None
                            && e@ == bad_listen(raw[i])
                }
            },
        },
{
    if let Err(e) = config.validate() {
        return Err(e);
    }
    let dh_priv = match read_identity_key(
        config.identity.dh_private_key.expose(),
        "身份中的 DH 私钥无效",
        "身份中的 DH 私钥不是 32 字节",
    ) {
        Ok(key) => key,
        Err(e) => {
            return Err(e);
        },
    };
    let dh_pub = match read_identity_key(
        config.identity.dh_public_key.as_str(),
        "身份中的 DH 公钥无效",
        "身份中的 DH 公钥不是 32 字节",
    ) {
        Ok(key) => key,
        Err(e) => {
            return Err(e);
        },
    };
    let listen = match effective_listen_addrs(settings) {
        Ok(listen) => listen,
        Err(e) => {
            return Err(e);
        },
    };
    let relay_key = relay_key_from_token(config.identity.device_token.expose());
    Ok(StartupPlan { dh_priv, dh_pub, relay_key, listen })
}

/// What is wrong with starting in `n` networks.
pub open spec fn networks_error(mode: ClientMode, n: nat) -> Option<Seq<char>> {
    if n == 0 {
        Some("配置中没有网络"@)
    } else if mode == ClientMode::Tun && n > 1 {
        Some(
            "TUN 模式当前仅支持单网络，但服务端名单包含 "@ + addr::decimal(n)
                + " 个网络（请在管理页移出多余网络后重启）"@,
        )
    } else {
        None
    }
}

/// Checks that the node can run in `n` networks: the virtual interface is for one.
pub fn check_networks(mode: ClientMode, n: usize) -> (result: Result<(), String>)
    ensures
        match result {
            Ok(()) => networks_error(mode, n as nat) is None,
            Err(e) => networks_error(mode, n as nat) == Some(e@),
        },
{
    if n == 0 {
        return Err(owned("配置中没有网络"));
    }
    if mode == ClientMode::Tun && n > 1 {
        let head = join(
            "TUN 模式当前仅支持单网络，但服务端名单包含 ",
            decimal_text(n as u64).as_str(),
        );
        return Err(join(head.as_str(), " 个网络（请在管理页移出多余网络后重启）"));
    }
    Ok(())
}

/// Whether a failure to listen on an address ends the start: one on every
/// address of the machine is passed over, one that was asked for is not.
pub fn bind_failure_is_fatal(at: &SocketAddr) -> (fatal: bool)
    ensures
        fatal == !is_unspecified(at@),
{
    match at {
        SocketAddr::V4 { ip, .. } => *ip != 0,
        SocketAddr::V6 { groups, .. } => {
            let mut i: usize = 0;
            while i < 8
                invariant
                    i <= 8,
                    at@ matches SocketView::V6 { groups: g, .. } && g == groups@,
                    groups@.len() == 8,
                    forall|j: int| 0 <= j < i ==> groups@[j] == 0,
                decreases 8 - i,
            {
                if groups[i] != 0 {
                    assert(groups@[i as int] != 0);
                    return true;
                }
                i += 1;
            }
            false
        },
    }
}

/// The address stands for every address of the machine.
pub open spec fn is_unspecified(at: SocketView) -> bool {
    match at {
        SocketView::V4 { ip, .. } => ip == 0,
        SocketView::V6 { groups, .. } => forall|i: int| 0 <= i < groups.len() ==> groups[i] == 0,
    }
}

/// A packet goes to the address that its header names: the four bytes of the
/// destination are the four numbers of the address, in the order in which they are
/// written with dots. Only IPv4 has such a header.
pub proof fn lemma_packet_goes_where_it_says(packet: Seq<u8>, ip: u32)
    ensures
        packet.len() >= 20 && packet[0] / 16 == 4 && (forall|i: int|
            0 <= i < 4 ==> packet[16 + i] as nat == #[trigger] addr::octet_of(ip, i)) ==> destination(packet)
            == Some(ip),
        destination(packet) == Some(ip) ==> forall|i: int|
            0 <= i < 4 ==> packet[16 + i] as nat == #[trigger] addr::octet_of(ip, i),
        destination(packet) is Some <==> packet.len() >= 20 && 64 <= packet[0] < 80,
{
    if packet.len() >= 20 && packet[0] / 16 == 4 {
        let a = packet[16] as nat;
        let b = packet[17] as nat;
        let c = packet[18] as nat;
        let d = packet[19] as nat;
        addr::lemma_dotted_form(ip, a, b, c, d);
        assert(a * 0x100_0000 + b * 0x1_0000 + c * 0x100 + d <= u32::MAX);
        if forall|i: int| 0 <= i < 4 ==> packet[16 + i] as nat == #[trigger] addr::octet_of(ip, i) {
            assert(a == addr::octet_of(ip, 0));
            assert(b == addr::octet_of(ip, 1));
            assert(c == addr::octet_of(ip, 2));
            assert(d == addr::octet_of(ip, 3));
        }
        if destination(packet) == Some(ip) {
            assert forall|i: int| 0 <= i < 4 implies packet[16 + i] as nat == #[trigger] addr::octet_of(
                ip,
                i,
            ) by {
                assert(i == 0 || i == 1 || i == 2 || i == 3);
            }
        }
    }
}

/// An address that is written into a header, the highest byte first, is where the
/// packet goes, and is the address that the dotted text stands for.
pub proof fn lemma_written_destination_is_read(packet: Seq<u8>, ip: u32, port: u16)
    requires
        packet.len() >= 20,
        packet[0] / 16 == 4,
        packet.subrange(16, 20) == socks5::address_bytes(ip, port).take(4),
    ensures
        destination(packet) == Some(ip),
        destination(packet) == addr::ipv4_value(addr::ipv4_text(ip)),
{
    let four = packet.subrange(16, 20);
    let bytes = socks5::address_bytes(ip, port);
    assert forall|i: int| 0 <= i < 4 implies packet[16 + i] as nat == #[trigger] addr::octet_of(ip, i) by {
        assert(packet[16 + i] == four[i]);
        assert(four[i] == bytes[i]);
        assert(i == 0 || i == 1 || i == 2 || i == 3);
    }
    lemma_packet_goes_where_it_says(packet, ip);
    addr::lemma_ipv4_round_trip(ip);
}

/// A listen address is read as it is written: the scheme is the transport, and what
/// follows it is the address.
pub proof fn lemma_listen_url_is_read(ip: u32, port: u16)
    ensures
        listen_url("udp://"@ + addr::socket_v4_text(ip, port)) == Some(
            (ListenProto::Udp, SocketView::V4 { ip, port }),
        ),
        listen_url("tcp://"@ + addr::socket_v4_text(ip, port)) == Some(
            (ListenProto::Tcp, SocketView::V4 { ip, port }),
        ),
        listen_url(addr::socket_v4_text(ip, port)) is None,
{
    reveal_strlit("udp://");
    reveal_strlit("tcp://");
    let at = addr::socket_v4_text(ip, port);
    let udp = "udp://"@ + at;
    let tcp = "tcp://"@ + at;
    addr::lemma_socket_v4_round_trip(ip, port);
    addr::lemma_decimal_value(addr::octet_of(ip, 0));
    assert(udp.take(6) =~= "udp://"@);
    assert(udp.skip(6) =~= at);
    assert(tcp.take(6) =~= "tcp://"@);
    assert(tcp.skip(6) =~= at);
    assert(tcp.take(6)[0] != "udp://"@[0]);
    addr::lemma_ipv4_chars(ip, 0);
    assert(at[0] == addr::ipv4_text(ip)[0]);
    if at.len() >= 6 {
        assert(at.take(6)[0] == at[0]);
        assert(at.take(6)[0] != "udp://"@[0]);
        assert(at.take(6)[0] != "tcp://"@[0]);
    }
}

/// A list of listen addresses is taken apart by transport, in order: what stands in a
/// list is what stands in its parts.
pub proof fn lemma_listened_in_order(a: Seq<Seq<char>>, b: Seq<Seq<char>>, proto: ListenProto)
    ensures
        listened(a + b, proto) == listened(a, proto) + listened(b, proto),
        forall|url: Seq<char>|
            #![trigger listen_url(url)]
            listened(seq![url], proto) == (match listen_url(url) {
                Some((p, at)) => if p == proto {
                    seq![at]
                } else {
                    Seq::<SocketView>::empty()
                },
                None => Seq::<SocketView>::empty(),
            }),
    decreases b.len(),
{
    assert forall|url: Seq<char>|
        #![trigger listen_url(url)]
        listened(seq![url], proto) == (match listen_url(url) {
            Some((p, at)) => if p == proto {
                seq![at]
            } else {
                Seq::<SocketView>::empty()
            },
            None => Seq::<SocketView>::empty(),
        }) by {
        let one = seq![url];
        assert(one.drop_last() =~= Seq::<Seq<char>>::empty());
        assert(listened(one.drop_last(), proto) =~= Seq::<SocketView>::empty());
        assert(one.last() == url);
        match listen_url(url) {
            Some((p, at)) => {
                assert(Seq::<SocketView>::empty().push(at) =~= seq![at]);
            },
            None => {},
        }
    }
    if b.len() == 0 {
        assert(a + b =~= a);
        assert(listened(b, proto) =~= Seq::<SocketView>::empty());
        assert(listened(a, proto) + listened(b, proto) =~= listened(a, proto));
    } else {
        lemma_listened_in_order(a, b.drop_last(), proto);
        assert((a + b).drop_last() =~= a + b.drop_last());
        assert((a + b).last() == b.last());
        assert(listened(a + b, proto) =~= listened(a, proto) + listened(b, proto));
    }
}

/// A node that was told nothing listens on port 24933 of all addresses, for UDP and for
/// TCP, and so does one that was told an empty list.
pub proof fn lemma_default_listen(s: DeviceSettings)
    requires
        s.listen is None || s.listen->0@.len() == 0,
    ensures
        listened(listen_texts(s), ListenProto::Udp) == seq![SocketView::V4 { ip: 0, port: 24933 }],
        listened(listen_texts(s), ListenProto::Tcp) == seq![SocketView::V4 { ip: 0, port: 24933 }],
        readable(listen_texts(s), listen_texts(s).len() as int),
{
    let udp = "udp://"@ + addr::socket_v4_text(0, 24933);
    let tcp = "tcp://"@ + addr::socket_v4_text(0, 24933);
    lemma_listen_url_is_read(0, 24933);
    assert(addr::ipv4_text(0) =~= seq!['0', '.', '0', '.', '0', '.', '0']);
    reveal_strlit("udp://0.0.0.0:");
    reveal_strlit("tcp://0.0.0.0:");
    reveal_strlit("udp://");
    reveal_strlit("tcp://");
    assert("udp://0.0.0.0:"@ + addr::decimal(24933) =~= udp);
    assert("tcp://0.0.0.0:"@ + addr::decimal(24933) =~= tcp);
    assert(listen_texts(s) =~= seq![udp] + seq![tcp]);
    lemma_listened_in_order(seq![udp], seq![tcp], ListenProto::Udp);
    lemma_listened_in_order(seq![udp], seq![tcp], ListenProto::Tcp);
    assert(listen_url(udp) is Some && listen_url(tcp) is Some);
    assert(listened(listen_texts(s), ListenProto::Udp) =~= seq![SocketView::V4 { ip: 0, port: 24933 }]);
    assert(listened(listen_texts(s), ListenProto::Tcp) =~= seq![SocketView::V4 { ip: 0, port: 24933 }]);
    assert forall|i: int| 0 <= i < listen_texts(s).len() implies listen_url(
        #[trigger] listen_texts(s)[i],
    ) is Some by {
        assert(i == 0 || i == 1);
    }
}

/// The settings that a device has after new ones came: each value that the new ones
/// name, and for the rest the old.
pub open spec fn overlaid(s: DeviceSettings, new: DeviceSettings) -> DeviceSettings {
    DeviceSettings {
        mtu: if new.mtu is Some {
            new.mtu
        } else {
            s.mtu
        },
        socks_listen: if new.socks_listen is Some {
            new.socks_listen
        } else {
            s.socks_listen
        },
        forwards: if new.forwards is Some {
            new.forwards
        } else {
            s.forwards
        },
        mode: if new.mode is Some {
            new.mode
        } else {
            s.mode
        },
        listen: if new.listen is Some {
            new.listen
        } else {
            s.listen
        },
        ..new
    }
}

/// A running node restarts for new settings exactly if it would have come up otherwise
/// under them.
pub proof fn lemma_restart_is_for_a_difference(r: Runtime, s: DeviceSettings, new: DeviceSettings)
    requires
        r.started_with(s),
    ensures
        r.needs_restart(new) <==> !r.started_with(overlaid(s, new)),
{
}

/// What a node starts with is what the settings name; for what they do not name there
/// is a usual value.
pub proof fn lemma_node_starts_as_told(r: Runtime, s: DeviceSettings)
    requires
        r.started_with(s),
    ensures
        s.mtu matches Some(mtu) ==> r.mtu == mtu,
        s.mtu is None ==> r.mtu == 1300,
        s.mode matches Some(mode) ==> r.mode == mode,
        s.mode is None ==> r.mode == ClientMode::Proxy,
        s.forwards matches Some(list) ==> r.forwards@.len() == list@.len() && forall|i: int|
            0 <= i < list@.len() ==> (#[trigger] r.forwards@[i]).listen@ == list@[i].listen@
                && r.forwards@[i].proto@ == list@[i].proto@ && r.forwards@[i].dest@ == list@[i].dest@,
        s.forwards is None ==> r.forwards@.len() == 0,
        s.socks_listen is None ==> text_view(r.socks) == Some("127.0.0.1:1080"@),
        s.socks_listen matches Some(at) ==> if at@.len() == 0 {
            r.socks is None
        } else {
            text_view(r.socks) == Some(at@)
        },
        s.listen matches Some(list) ==> list@.len() > 0 ==> r.listen@.len() == list@.len() && forall|i: int|
            0 <= i < list@.len() ==> (#[trigger] r.listen@[i])@ == list@[i]@,
{
    if let Some(list) = s.forwards {
        let mine = rules_texts(r.forwards@);
        let told = rules_texts(list@);
        assert(mine.len() == told.len());
        assert forall|i: int| 0 <= i < list@.len() implies (#[trigger] r.forwards@[i]).listen@ == list@[i].listen@
            && r.forwards@[i].proto@ == list@[i].proto@ && r.forwards@[i].dest@ == list@[i].dest@ by {
            assert(mine[i] == told[i]);
        }
    } else {
        assert(rules_texts(r.forwards@).len() == 0);
    }
    if let Some(list) = s.listen {
        if list@.len() > 0 {
            let mine = text::texts(r.listen@);
            let told = text::texts(list@);
            assert(mine.len() == told.len());
            assert forall|i: int| 0 <= i < list@.len() implies (#[trigger] r.listen@[i])@ == list@[i]@ by {
                assert(mine[i] == told[i]);
            }
        }
    }
}

/// What each event from the server asks for.
pub proof fn lemma_events_are_heeded(event: Seq<char>)
    ensures
        reaction_to(event) == Reaction::RefreshPeers <==> event == "peers_changed"@ || event
            == "device_online"@ || event == "device_offline"@,
        reaction_to(event) == Reaction::TakeSettings <==> event == "settings_changed"@,
        reaction_to(event) == Reaction::Restart <==> event == "restart_requested"@,
        reaction_to(event) == Reaction::Reconnect <==> event == "reconnect_requested"@,
        reaction_to(event) == Reaction::TakeRoster <==> event == "networks_changed"@,
        reaction_to(event) == Reaction::TakeConfig <==> event == "config_changed"@,
        reaction_to(event) == Reaction::CatchUp <==> event == "connected"@,
{
    reveal_strlit("peers_changed");
    reveal_strlit("device_online");
    reveal_strlit("device_offline");
    reveal_strlit("settings_changed");
    reveal_strlit("restart_requested");
    reveal_strlit("reconnect_requested");
    reveal_strlit("networks_changed");
    reveal_strlit("config_changed");
    reveal_strlit("connected");
    assert("peers_changed"@[0] == 'p');
    assert("device_online"@[0] == 'd' && "device_online"@.len() == 13);
    assert("device_offline"@[0] == 'd' && "device_offline"@.len() == 14);
    assert("settings_changed"@[0] == 's');
    assert("restart_requested"@[0] == 'r' && "restart_requested"@.len() == 17);
    assert("reconnect_requested"@[0] == 'r' && "reconnect_requested"@.len() == 19);
    assert("networks_changed"@[0] == 'n');
    assert("config_changed"@[0] == 'c' && "config_changed"@.len() == 14);
    assert("connected"@[0] == 'c' && "connected"@.len() == 9);
}

/// The host of a server is what stands between the scheme and the port or the path.
pub proof fn lemma_host_is_found(host: Seq<char>, rest: Seq<char>)
    requires
        host.len() > 0,
        !host.contains(':'),
        !host.contains('/'),
        rest.len() == 0 || rest[0] == '/' || (rest[0] == ':' && rest.len() > 1 && rest[1] != '/'),
    ensures
        host_of(host + rest) == host,
        host_of("https://"@ + host + rest) == host,
        host_of("http://"@ + host + rest) == host,
{
    reveal_strlit("https://");
    reveal_strlit("http://");
    let bare = host + rest;
    lemma_no_scheme(host, rest, 5, "https://"@);
    lemma_no_scheme(host, rest, 4, "http://"@);
    assert(stripped(bare, "https://"@) == bare);
    assert(stripped(bare, "http://"@) == bare);
    lemma_front_is_host(host, rest);
    let s = "https://"@ + host + rest;
    assert(s.take(8) =~= "https://"@);
    assert(s.skip(8) =~= bare);
    assert(stripped(s, "https://"@) == stripped(bare, "https://"@));
    let p = "http://"@ + host + rest;
    assert(p.take(7) =~= "http://"@);
    assert(p.skip(7) =~= bare);
    assert(p[4] == ':');
    if p.len() >= 8 {
        assert(p.take(8)[4] == p[4]);
        assert("https://"@[4] == 's');
    }
    assert(!starts_with(p, "https://"@));
    assert(stripped(p, "https://"@) == p);
    assert(stripped(p, "http://"@) == stripped(bare, "http://"@));
}

proof fn lemma_no_scheme(host: Seq<char>, rest: Seq<char>, n: int, head: Seq<char>)
    requires
        !host.contains(':'),
        !host.contains('/'),
        rest.len() == 0 || rest[0] == '/' || (rest[0] == ':' && rest.len() > 1 && rest[1] != '/'),
        0 <= n,
        head.len() == n + 3,
        head[n] == ':',
        head[n + 1] == '/',
        forall|i: int| 0 <= i < n ==> head[i] != ':' && head[i] != '/',
    ensures
        !starts_with(host + rest, head),
{
    let bare = host + rest;
    if starts_with(bare, head) {
        let front = bare.take(head.len() as int);
        assert(front[n] == bare[n]);
        assert(front[n + 1] == bare[n + 1]);
        if n < host.len() {
            assert(bare[n] == host[n]);
            assert(host.contains(':'));
        } else if host.len() < n {
            assert(front[host.len() as int] == bare[host.len() as int]);
            assert(bare[host.len() as int] == rest[0]);
        } else {
            assert(bare[n] == rest[0]);
            assert(bare[n + 1] == rest[1]);
        }
    }
}

proof fn lemma_front_is_host(host: Seq<char>, rest: Seq<char>)
    requires
        !host.contains(':'),
        !host.contains('/'),
        rest.len() == 0 || rest[0] == '/' || rest[0] == ':',
    ensures
        ({
            let bare = host + rest;
            let front = bare.take(addr::first_of(bare, '/'));
            front.take(addr::first_of(front, ':')) == host
        }),
{
    let bare = host + rest;
    let k = addr::first_of(bare, '/');
    lemma_first_of_mark(bare, '/');
    assert(k >= host.len()) by {
        if k < host.len() {
            assert(bare[k] == host[k]);
            assert(host.contains('/'));
        }
    }
    let front = bare.take(k);
    assert forall|j: int| 0 <= j < host.len() implies front[j] != ':' by {
        assert(front[j] == host[j]);
        if host[j] == ':' {
            assert(host.contains(':'));
        }
    }
    if k > host.len() {
        assert(bare[host.len() as int] == rest[0]);
        assert(front[host.len() as int] == rest[0]);
    }
    addr::lemma_first_of(front, ':', host.len() as int);
    assert(front.take(host.len() as int) =~= host);
}

proof fn lemma_first_of_mark(s: Seq<char>, c: char)
    ensures
        0 <= addr::first_of(s, c) <= s.len(),
        addr::first_of(s, c) < s.len() ==> s[addr::first_of(s, c)] == c,
        forall|j: int| 0 <= j < addr::first_of(s, c) ==> s[j] != c,
    decreases s.len(),
{
    if s.len() > 0 && s[0] != c {
        lemma_first_of_mark(s.skip(1), c);
        assert forall|j: int| 0 <= j < addr::first_of(s, c) implies s[j] != c by {
            if j > 0 {
                assert(s[j] == s.skip(1)[j - 1]);
            }
        }
    }
}

/// An identity can be started with exactly if both of its keys are 64 hexadecimal
/// digits.
pub proof fn lemma_identity_needs_both_keys(id: Identity)
    ensures
        identity_error(id) is None <==> primitives::is_hex_text(id.dh_private_key.0@)
            && id.dh_private_key.0@.len() == 64 && primitives::is_hex_text(id.dh_public_key@)
            && id.dh_public_key@.len() == 64,
{
}

/// A node runs in any number of networks but none; with a virtual interface, in one.
pub proof fn lemma_networks_that_can_be_run(mode: ClientMode, n: nat)
    ensures
        networks_error(ClientMode::Tun, n) is None <==> n == 1,
        networks_error(ClientMode::Proxy, n) is None <==> n >= 1,
        networks_error(mode, 0) is Some,
{
}

/// The addresses that stand for every address of the machine are 0.0.0.0 and ::, with
/// whatever port.
pub proof fn lemma_unspecified_addresses(ip: u32, port: u16, groups: Seq<u16>, scope: u32)
    requires
        groups.len() == 8,
    ensures
        is_unspecified(SocketView::V4 { ip, port }) <==> ip == 0,
        is_unspecified(SocketView::V6 { groups, scope, port }) <==> groups == seq![
            0u16,
            0u16,
            0u16,
            0u16,
            0u16,
            0u16,
            0u16,
            0u16,
        ],
{
    let none = seq![0u16, 0u16, 0u16, 0u16, 0u16, 0u16, 0u16, 0u16];
    let at = SocketView::V6 { groups, scope, port };
    if is_unspecified(at) {
        let all = at->V6_groups;
        assert(all == groups);
        assert forall|i: int| 0 <= i < 8 implies all[i] == none[i] by {
            assert(all[i] == 0);
            assert(none[i] == 0);
        }
        assert(groups =~= none);
    }
}

/// A text loses what it begins with as often as it begins with it, and nothing else.
pub proof fn lemma_heads_are_taken_off(text: Seq<char>, head: Seq<char>)
    requires
        head.len() > 0,
    ensures
        stripped(head + text, head) == stripped(text, head),
        !starts_with(text, head) ==> stripped(text, head) == text,
        !starts_with(stripped(text, head), head),
    decreases text.len(),
{
    let s = head + text;
    assert(s.take(head.len() as int) =~= head);
    assert(s.skip(head.len() as int) =~= text);
    if starts_with(text, head) {
        lemma_heads_are_taken_off(text.skip(head.len() as int), head);
    }
}

/// What a node was started with decides what takes a restart, and nothing else does.
pub proof fn lemma_same_start_same_restart(a: Runtime, b: Runtime, s: DeviceSettings)
    requires
        a.same_start(b),
    ensures
        a.mtu == b.mtu && a.socks == b.socks && a.forwards == b.forwards && a.mode == b.mode && a.listen == b.listen,
        a.needs_restart(s) == b.needs_restart(s),
        a.started_with(s) == b.started_with(s),
{
}

/// A listen address that cannot be read is told of as it was written.
pub proof fn lemma_bad_listen_is_told(text: Seq<char>)
    ensures
        bad_listen(text) == "listen 不是合法的 udp://ip:port 或 tcp://ip:port（"@ + text + "）"@,
{
}

} // verus!
