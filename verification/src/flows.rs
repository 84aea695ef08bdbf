//! Streams and datagrams between peers.
//!
//! The initiator of a flow picks its id, and both sides use it. A flow belongs to
//! one network and one peer. An OPEN is sent again until it is answered, so one
//! that comes twice is the rule: it must not lead to a second connection with the
//! local service.

use vstd::prelude::*;
use vstd::slice::slice_to_vec;
use vstd::utf8::encode_utf8;

use crate::addr;
use crate::addr::{
    decimal_text, find_last_char, parse_socket, read_number, socket_v4_to_text, SocketAddr, SocketView,
};
use crate::consts::FLOW_MAX_DATAGRAM;
use crate::crypto::primitives::random_u32;
use crate::models;
use crate::models::{ExposeRule, NetId};
use crate::protocol::flow;
use crate::protocol::flow::{
    build_datagram, build_open, build_opened_fail, decode, encode, parse_datagram, parse_open, FLAG_CLOSE,
    FLAG_DATA, FLAG_DATAGRAM, FLAG_OPEN, FLAG_OPENED_FAIL, FLAG_OPENED_OK, PROTO_TCP, PROTO_UDP,
};
use crate::tables;
use crate::tables::{
    exposes_insert, exposes_new, exposes_remove, flows_get, flows_insert, flows_keys, flows_new,
    flows_remove, ids_insert, ids_new, ids_remove, ExposeTable, FlowTable, IdTable,
};
use crate::text;
use crate::text::{chars_of, join, owned, same_text, text_lossy};

verus! {

/// What a flow is to this node.
#[derive(Debug, Clone, Copy, PartialEq, Eq, Structural)]
pub enum FlowKind {
    /// A stream that this node asked for.
    OutTcp { answered: bool },
    /// A stream to a local service.
    InTcp,
    /// Datagrams, asked for by this node or not.
    Udp { outbound: bool },
}

/// A flow.
#[derive(Debug, Clone, Copy)]
pub struct FlowCtx {
    pub network: NetId,
    pub peer: u64,
    pub kind: FlowKind,
}

/// A message to a peer.
#[derive(Debug)]
pub struct FlowMessage {
    pub network: NetId,
    pub peer: u64,
    pub payload: Vec<u8>,
}

/// A message to a peer, as values.
pub ghost struct MessageView {
    pub network: NetId,
    pub peer: u64,
    pub payload: Seq<u8>,
}

impl View for FlowMessage {
    type V = MessageView;

    open spec fn view(&self) -> MessageView {
        MessageView { network: self.network, peer: self.peer, payload: self.payload@ }
    }
}

/// A message that may be absent, as values.
pub open spec fn message_view(m: Option<FlowMessage>) -> Option<MessageView> {
    match m {
        Some(m) => Some(m@),
        None => None,
    }
}

/// What a message asks for.
#[derive(Debug)]
pub enum FlowAction {
    Nothing,
    Send { message: Option<FlowMessage> },
    /// Connect to a local service for this flow.
    Connect { flow_id: u32, service: String },
    /// The peer has answered: it agrees, or says why not.
    Answered { flow_id: u32, failure: Option<String> },
    /// The flow has ended; the peer may have to be told.
    Closed { flow_id: u32, notice: Option<FlowMessage> },
    /// Content for the stream.
    Deliver { flow_id: u32, data: Vec<u8> },
    /// A datagram for whoever asked for the flow.
    Hand { flow_id: u32, source: String, data: Vec<u8> },
    /// A datagram for a local service, and the address that answers carry.
    Local { flow_id: u32, port: u16, dest: SocketAddr, reply: String, data: Vec<u8> },
}

/// What a message asks for, as values.
pub ghost enum ActionView {
    Nothing,
    Send { message: Option<MessageView> },
    Connect { flow_id: u32, service: Seq<char> },
    Answered { flow_id: u32, failure: Option<Seq<char>> },
    Closed { flow_id: u32, notice: Option<MessageView> },
    Deliver { flow_id: u32, data: Seq<u8> },
    Hand { flow_id: u32, source: Seq<char>, data: Seq<u8> },
    Local { flow_id: u32, port: u16, dest: SocketView, reply: Seq<char>, data: Seq<u8> },
}

impl View for FlowAction {
    type V = ActionView;

    open spec fn view(&self) -> ActionView {
        match *self {
            FlowAction::Nothing => ActionView::Nothing,
            FlowAction::Send { message } => ActionView::Send { message: message_view(message) },
            FlowAction::Connect { flow_id, service } => ActionView::Connect { flow_id, service: service@ },
            FlowAction::Answered { flow_id, failure } => ActionView::Answered {
                flow_id,
                failure: match failure {
                    Some(f) => Some(f@),
                    None => None,
                },
            },
            FlowAction::Closed { flow_id, notice } => ActionView::Closed {
                flow_id,
                notice: message_view(notice),
            },
            FlowAction::Deliver { flow_id, data } => ActionView::Deliver { flow_id, data: data@ },
            FlowAction::Hand { flow_id, source, data } => ActionView::Hand {
                flow_id,
                source: source@,
                data: data@,
            },
            FlowAction::Local { flow_id, port, dest, reply, data } => ActionView::Local {
                flow_id,
                port,
                dest: dest@,
                reply: reply@,
                data: data@,
            },
        }
    }
}

/// The flows of the node, as values.
#[verifier::ext_equal]
pub ghost struct FlowsView {
    pub flows: Map<u32, FlowCtx>,
    /// Flows whose local service is being connected to.
    pub connecting: Set<u32>,
    /// Services by the number of their network.
    pub exposes: Map<u128, Seq<ExposeRule>>,
}

/// A message, unless it is too long for a datagram.
pub open spec fn message_for(network: NetId, peer: u64, flow_id: u32, flags: u8, payload: Seq<u8>) -> Option<
    MessageView,
> {
    if payload.len() > FLOW_MAX_DATAGRAM {
        None
    } else {
        Some(MessageView { network, peer, payload: flow::flow_message(flow_id, flags, payload) })
    }
}

/// A message, unless it is too long for a datagram, which cannot be taken apart.
pub fn flow_frame(network: &NetId, peer: u64, flow_id: u32, flags: u8, payload: &[u8]) -> (message: Option<
    FlowMessage,
>)
    ensures
        message_view(message) == message_for(*network, peer, flow_id, flags, payload@),
{
    if payload.len() > FLOW_MAX_DATAGRAM {
        return None;
    }
    Some(FlowMessage { network: *network, peer, payload: encode(flow_id, flags, payload) })
}

/// A message without content.
pub open spec fn bare_message(network: NetId, peer: u64, flow_id: u32, flags: u8) -> Option<MessageView> {
    message_for(network, peer, flow_id, flags, Seq::empty())
}

fn bare_frame(network: &NetId, peer: u64, flow_id: u32, flags: u8) -> (message: Option<FlowMessage>)
    ensures
        message_view(message) == bare_message(*network, peer, flow_id, flags),
{
    let none: Vec<u8> = Vec::new();
    assert(none@ =~= Seq::empty());
    flow_frame(network, peer, flow_id, flags, none.as_slice())
}

/// The port behind the last colon of an address.
pub open spec fn port_of(address: Seq<char>) -> Option<u16> {
    match addr::signed_number(address.skip(addr::last_of(address, ':') + 1), 65535) {
        Some(port) => Some(port as u16),
        None => None,
    }
}

fn read_port(address: &str) -> (port: Option<u16>)
    ensures
        port == port_of(address@),
{
    let chars = chars_of(address);
    let n = chars.len();
    let from: usize = match find_last_char(chars.as_slice(), ':') {
        Some(k) => k + 1,
        None => 0,
    };
    assert(chars@.subrange(from as int, n as int) =~= address@.skip(from as int));
    match read_number(chars.as_slice(), from, n, 65535) {
        Some(port) => Some(port as u16),
        None => None,
    }
}

/// The first rule for a protocol and a port.
pub open spec fn rule_for(rules: Seq<ExposeRule>, proto: Seq<char>, port: u16) -> Option<ExposeRule>
    decreases rules.len(),
{
    if rules.len() == 0 {
        None
    } else if rules[0].proto@ == proto && rules[0].port == port {
        Some(rules[0])
    } else {
        rule_for(rules.skip(1), proto, port)
    }
}

fn find_rule(rules: &Vec<ExposeRule>, proto: &str, port: u16) -> (at: Option<usize>)
    ensures
        match at {
            Some(i) => i < rules@.len() && rule_for(rules@, proto@, port) == Some(rules@[i as int]),
            None => rule_for(rules@, proto@, port) is None,
        },
        match at {
            Some(i) => is_rule(rules@, i as int, proto@, port) && forall|j: int|
                0 <= j < i ==> !is_rule(rules@, j, proto@, port),
            None => forall|j: int| !is_rule(rules@, j, proto@, port),
        },
{
    let mut i: usize = 0;
    assert(rules@.skip(0) =~= rules@);
    while i < rules.len()
        invariant
            i <= rules@.len(),
            rule_for(rules@.skip(i as int), proto@, port) == rule_for(rules@, proto@, port),
            forall|j: int| 0 <= j < i ==> !is_rule(rules@, j, proto@, port),
        decreases rules@.len() - i,
    {
        assert(rules@.skip(i as int)[0] == rules@[i as int]);
        assert(rules@.skip(i as int).skip(1) =~= rules@.skip(i + 1));
        if rules[i].port == port && same_text(rules[i].proto.as_str(), proto) {
            return Some(i);
        }
        i += 1;
    }
    None
}

/// What is said where no service is on a port.
pub open spec fn no_service(port: u16) -> Seq<char> {
    "no tcp service on port "@ + addr::decimal(port as nat)
}

/// Where a datagram for a service goes: to its address, or to its port on this
/// machine if the address cannot be read.
pub open spec fn service_address(rule: ExposeRule) -> SocketView {
    match addr::socket_value(rule.dest@) {
        Some(at) => at,
        None => SocketView::V4 { ip: 0x7f00_0001, port: rule.port },
    }
}

impl FlowsView {
    /// The services that a network may reach.
    pub open spec fn rules_of(self, network: NetId) -> Seq<ExposeRule> {
        if self.exposes.dom().contains(network.key() as u128) {
            self.exposes[network.key() as u128]
        } else {
            Seq::empty()
        }
    }

    /// The flows without one.
    pub open spec fn without(self, flow_id: u32) -> FlowsView {
        FlowsView { flows: self.flows.remove(flow_id), ..self }
    }

    /// The flows with one more, or with another value for one.
    pub open spec fn with(self, flow_id: u32, flow: FlowCtx) -> FlowsView {
        FlowsView { flows: self.flows.insert(flow_id, flow), ..self }
    }

    /// What an OPEN comes to.
    pub open spec fn on_open(self, network: NetId, peer: u64, flow_id: u32, payload: Seq<u8>) -> (
        FlowsView,
        ActionView,
    ) {
        let agreed = ActionView::Send { message: bare_message(network, peer, flow_id, FLAG_OPENED_OK) };
        match flow::parsed_open(payload) {
            None => (self, ActionView::Nothing),
            Some((proto, address)) => if proto == PROTO_TCP {
                match port_of(address) {
                    None => (self, ActionView::Nothing),
                    Some(port) => if self.flows.dom().contains(flow_id) {
                        if self.flows[flow_id].kind is InTcp {
                            (self, agreed)
                        } else {
                            (self, ActionView::Nothing)
                        }
                    } else {
                        match rule_for(self.rules_of(network), "tcp"@, port) {
                            None => (
                                self,
                                ActionView::Send {
                                    message: message_for(
                                        network,
                                        peer,
                                        flow_id,
                                        FLAG_OPENED_FAIL,
                                        flow::opened_fail_payload(no_service(port)),
                                    ),
                                },
                            ),
                            Some(rule) => if self.connecting.contains(flow_id) {
                                (self, ActionView::Nothing)
                            } else {
                                (
                                    FlowsView { connecting: self.connecting.insert(flow_id), ..self },
                                    ActionView::Connect { flow_id, service: rule.dest@ },
                                )
                            },
                        }
                    },
                }
            } else if self.flows.dom().contains(flow_id) {
                (self, agreed)
            } else {
                (
                    self.with(
                        flow_id,
                        FlowCtx { network, peer, kind: FlowKind::Udp { outbound: false } },
                    ),
                    agreed,
                )
            },
        }
    }

    /// Where a datagram for a local service goes.
    pub open spec fn routed(
        self,
        network: NetId,
        flow_id: u32,
        address: Seq<char>,
        data: Seq<u8>,
        self_ip: Option<u32>,
    ) -> ActionView {
        match port_of(address) {
            None => ActionView::Nothing,
            Some(port) => match (rule_for(self.rules_of(network), "udp"@, port), self_ip) {
                (Some(rule), Some(ip)) => ActionView::Local {
                    flow_id,
                    port,
                    dest: service_address(rule),
                    reply: addr::socket_v4_text(ip, port),
                    data,
                },
                _ => ActionView::Nothing,
            },
        }
    }

    /// What a DATAGRAM comes to.
    pub open spec fn on_datagram(
        self,
        network: NetId,
        flow_id: u32,
        payload: Seq<u8>,
        self_ip: Option<u32>,
    ) -> ActionView {
        match flow::parsed_datagram(payload) {
            None => ActionView::Nothing,
            Some((address, data)) => if self.flows.dom().contains(flow_id)
                && self.flows[flow_id].kind == (FlowKind::Udp { outbound: true }) {
                ActionView::Hand { flow_id, source: address, data }
            } else {
                self.routed(network, flow_id, address, data, self_ip)
            },
        }
    }

    /// What an answer to an OPEN comes to. The first one counts.
    pub open spec fn on_answer(self, flow_id: u32, agreed: bool, payload: Seq<u8>) -> (
        FlowsView,
        ActionView,
    ) {
        if self.flows.dom().contains(flow_id) && self.flows[flow_id].kind == (FlowKind::OutTcp {
            answered: false,
        }) {
            (
                self.with(
                    flow_id,
                    FlowCtx { kind: FlowKind::OutTcp { answered: true }, ..self.flows[flow_id] },
                ),
                ActionView::Answered {
                    flow_id,
                    failure: if agreed {
                        None
                    } else {
                        Some(text::lossy_text(payload))
                    },
                },
            )
        } else {
            (self, ActionView::Nothing)
        }
    }

    /// What the end of a flow comes to.
    pub open spec fn on_close(self, flow_id: u32, notify: bool) -> (FlowsView, ActionView) {
        if self.flows.dom().contains(flow_id) {
            let flow = self.flows[flow_id];
            (
                self.without(flow_id),
                ActionView::Closed {
                    flow_id,
                    notice: if notify {
                        bare_message(flow.network, flow.peer, flow_id, FLAG_CLOSE)
                    } else {
                        None
                    },
                },
            )
        } else {
            (self, ActionView::Nothing)
        }
    }

    /// What a DATA comes to. A flow of datagrams has no stream: it ends.
    pub open spec fn on_data(self, flow_id: u32, payload: Seq<u8>) -> (FlowsView, ActionView) {
        if !self.flows.dom().contains(flow_id) {
            (self, ActionView::Nothing)
        } else if self.flows[flow_id].kind is Udp {
            self.on_close(flow_id, true)
        } else {
            (self, ActionView::Deliver { flow_id, data: payload })
        }
    }

    /// What a message from a peer comes to.
    pub open spec fn step(self, network: NetId, peer: u64, message: Seq<u8>, self_ip: Option<u32>) -> (
        FlowsView,
        ActionView,
    ) {
        match flow::parsed_flow(message) {
            None => (self, ActionView::Nothing),
            Some((flow_id, flags, payload)) => if flags == FLAG_OPEN {
                self.on_open(network, peer, flow_id, payload)
            } else if flags == FLAG_OPENED_OK || flags == FLAG_OPENED_FAIL {
                self.on_answer(flow_id, flags == FLAG_OPENED_OK, payload)
            } else if flags == FLAG_CLOSE {
                self.on_close(flow_id, false)
            } else if flags == FLAG_DATA {
                self.on_data(flow_id, payload)
            } else {
                (self, self.on_datagram(network, flow_id, payload, self_ip))
            },
        }
    }
}

/// The flows of the node.
pub struct FlowManager {
    flows: FlowTable,
    connecting: IdTable,
    exposes: ExposeTable,
}

/// Services, as values.
pub open spec fn rules_view(m: Map<u128, Vec<ExposeRule>>) -> Map<u128, Seq<ExposeRule>> {
    m.map_values(|rules: Vec<ExposeRule>| rules@)
}

impl View for FlowManager {
    type V = FlowsView;

    closed spec fn view(&self) -> FlowsView {
        FlowsView {
            flows: tables::flow_entries(self.flows),
            connecting: tables::held_ids(self.connecting),
            exposes: rules_view(tables::expose_entries(self.exposes)),
        }
    }
}

impl FlowManager {
    /// There are no flows, and no services.
    pub fn new() -> (mgr: FlowManager)
        ensures
            mgr@.flows.dom() == Set::<u32>::empty(),
            mgr@.connecting == Set::<u32>::empty(),
            mgr@.exposes.dom() == Set::<u128>::empty(),
    {
        let mgr = FlowManager { flows: flows_new(), connecting: ids_new(), exposes: exposes_new() };
        assert(mgr@.exposes.dom() =~= Set::<u128>::empty());
        mgr
    }

    /// Sets what a network may reach.
    pub fn set_exposes(&mut self, network: &NetId, rules: Vec<ExposeRule>)
        ensures
            final(self)@ == (FlowsView {
                exposes: old(self)@.exposes.insert(network.key() as u128, rules@),
                ..old(self)@
            }),
    {
        let ghost before = tables::expose_entries(self.exposes);
        let net = network.number();
        let ghost list = rules@;
        exposes_insert(&mut self.exposes, net, rules);
        assert(self@.exposes =~= rules_view(before).insert(net, list));
    }

    /// The address of the service of a network for a protocol and a port.
    fn service(&mut self, network: &NetId, proto: &str, port: u16) -> (rule: Option<ExposeRule>)
        ensures
            final(self)@ == old(self)@,
            rule == rule_for(old(self)@.rules_of(*network), proto@, port),
    {
        let net = network.number();
        let ghost before = tables::expose_entries(self.exposes);
        match exposes_remove(&mut self.exposes, net) {
            Some(rules) => {
                assert(rules@ == rules_view(before)[net]);
                let found = match find_rule(&rules, proto, port) {
                    Some(i) => Some(rules[i].clone()),
                    None => None,
                };
                exposes_insert(&mut self.exposes, net, rules);
                assert(tables::expose_entries(self.exposes) =~= before);
                found
            },
            None => {
                assert(tables::expose_entries(self.exposes) =~= before);
                None
            },
        }
    }

    /// Deals with an OPEN.
    fn handle_open(&mut self, network: &NetId, peer: u64, flow_id: u32, payload: &[u8]) -> (action: FlowAction)
        ensures
            (final(self)@, action@) == old(self)@.on_open(*network, peer, flow_id, payload@),
    {
        let ghost before = self@;
        let info = match parse_open(payload) {
            Some(info) => info,
            None => {
                return FlowAction::Nothing;
            },
        };
        if info.proto == PROTO_TCP {
            let port = match read_port(info.addr) {
                Some(port) => port,
                None => {
                    return FlowAction::Nothing;
                },
            };
            if let Some(flow) = flows_get(&self.flows, flow_id) {
                return match flow.kind {
                    FlowKind::InTcp => FlowAction::Send {
                        message: bare_frame(network, peer, flow_id, FLAG_OPENED_OK),
                    },
                    _ => FlowAction::Nothing,
                };
            }
            match self.service(network, "tcp", port) {
                None => {
                    let reason = join("no tcp service on port ", decimal_text(port as u64).as_str());
                    let why = build_opened_fail(reason.as_str());
                    FlowAction::Send {
                        message: flow_frame(network, peer, flow_id, FLAG_OPENED_FAIL, why.as_slice()),
                    }
                },
                Some(rule) => {
                    if ids_insert(&mut self.connecting, flow_id) {
                        assert(before.connecting.insert(flow_id) =~= before.connecting);
                        return FlowAction::Nothing;
                    }
                    FlowAction::Connect { flow_id, service: rule.dest }
                },
            }
        } else {
            if flows_get(&self.flows, flow_id).is_none() {
                flows_insert(
                    &mut self.flows,
                    flow_id,
                    FlowCtx { network: *network, peer, kind: FlowKind::Udp { outbound: false } },
                );
            }
            FlowAction::Send { message: bare_frame(network, peer, flow_id, FLAG_OPENED_OK) }
        }
    }

    /// Finds the local service that a datagram is for.
    pub fn route_datagram(
        &mut self,
        network: &NetId,
        flow_id: u32,
        address: &str,
        data: &[u8],
        self_ip: Option<u32>,
    ) -> (action: FlowAction)
        ensures
            final(self)@ == old(self)@,
            action@ == old(self)@.routed(*network, flow_id, address@, data@, self_ip),
    {
        let port = match read_port(address) {
            Some(port) => port,
            None => {
                return FlowAction::Nothing;
            },
        };
        let rule = match self.service(network, "udp", port) {
            Some(rule) => rule,
            None => {
                return FlowAction::Nothing;
            },
        };
        let ip = match self_ip {
            Some(ip) => ip,
            None => {
                return FlowAction::Nothing;
            },
        };
        let dest = match parse_socket(rule.dest.as_str()) {
            Some(at) => at,
            None => SocketAddr::V4 { ip: 0x7f00_0001, port: rule.port },
        };
        FlowAction::Local {
            flow_id,
            port,
            dest,
            reply: socket_v4_to_text(ip, port),
            data: slice_to_vec(data),
        }
    }

    fn handle_datagram(
        &mut self,
        network: &NetId,
        flow_id: u32,
        payload: &[u8],
        self_ip: Option<u32>,
    ) -> (action: FlowAction)
        ensures
            final(self)@ == old(self)@,
            action@ == old(self)@.on_datagram(*network, flow_id, payload@, self_ip),
    {
        let info = match parse_datagram(payload) {
            Some(info) => info,
            None => {
                return FlowAction::Nothing;
            },
        };
        if let Some(flow) = flows_get(&self.flows, flow_id) {
            if flow.kind == (FlowKind::Udp { outbound: true }) {
                return FlowAction::Hand {
                    flow_id,
                    source: owned(info.addr),
                    data: slice_to_vec(info.data),
                };
            }
        }
        self.route_datagram(network, flow_id, info.addr, info.data, self_ip)
    }

    /// Ends a flow. The peer is told if `notify` says so, in the flow's own
    /// network.
    pub fn close_flow(&mut self, flow_id: u32, notify: bool) -> (action: FlowAction)
        ensures
            (final(self)@, action@) == old(self)@.on_close(flow_id, notify),
    {
        let ghost before = self@;
        match flows_remove(&mut self.flows, flow_id) {
            Some(flow) => {
                let notice = if notify {
                    bare_frame(&flow.network, flow.peer, flow_id, FLAG_CLOSE)
                } else {
                    None
                };
                FlowAction::Closed { flow_id, notice }
            },
            None => {
                assert(before.flows.remove(flow_id) =~= before.flows);
                FlowAction::Nothing
            },
        }
    }

    fn handle_answer(&mut self, flow_id: u32, agreed: bool, payload: &[u8]) -> (action: FlowAction)
        ensures
            (final(self)@, action@) == old(self)@.on_answer(flow_id, agreed, payload@),
    {
        if let Some(flow) = flows_get(&self.flows, flow_id) {
            if flow.kind == (FlowKind::OutTcp { answered: false }) {
                flows_insert(
                    &mut self.flows,
                    flow_id,
                    FlowCtx { kind: FlowKind::OutTcp { answered: true }, ..flow },
                );
                let failure = if agreed {
                    None
                } else {
                    Some(text_lossy(payload))
                };
                return FlowAction::Answered { flow_id, failure };
            }
        }
        FlowAction::Nothing
    }

    /// Deals with a message from a peer. `self_ip` is the node's own address in the
    /// network.
    pub fn on_frame(&mut self, network: &NetId, peer: u64, message: &[u8], self_ip: Option<u32>) -> (action: FlowAction)
        ensures
            (final(self)@, action@) == old(self)@.step(*network, peer, message@, self_ip),
    {
        let msg = match decode(message) {
            Some(msg) => msg,
            None => {
                return FlowAction::Nothing;
            },
        };
        if msg.flags == FLAG_OPEN {
            self.handle_open(network, peer, msg.flow_id, msg.payload)
        } else if msg.flags == FLAG_OPENED_OK || msg.flags == FLAG_OPENED_FAIL {
            self.handle_answer(msg.flow_id, msg.flags == FLAG_OPENED_OK, msg.payload)
        } else if msg.flags == FLAG_CLOSE {
            self.close_flow(msg.flow_id, false)
        } else if msg.flags == FLAG_DATA {
            match flows_get(&self.flows, msg.flow_id) {
                None => FlowAction::Nothing,
                Some(flow) => match flow.kind {
                    FlowKind::Udp { .. } => self.close_flow(msg.flow_id, true),
                    _ => FlowAction::Deliver { flow_id: msg.flow_id, data: slice_to_vec(msg.payload) },
                },
            }
        } else {
            self.handle_datagram(network, msg.flow_id, msg.payload, self_ip)
        }
    }

    /// The local service has taken the connection of a flow.
    pub fn connected(&mut self, network: &NetId, peer: u64, flow_id: u32) -> (message: Option<FlowMessage>)
        ensures
            final(self)@ == (FlowsView {
                connecting: old(self)@.connecting.remove(flow_id),
                ..old(self)@.with(flow_id, FlowCtx { network: *network, peer, kind: FlowKind::InTcp })
            }),
            message_view(message) == bare_message(*network, peer, flow_id, FLAG_OPENED_OK),
    {
        flows_insert(
            &mut self.flows,
            flow_id,
            FlowCtx { network: *network, peer, kind: FlowKind::InTcp },
        );
        ids_remove(&mut self.connecting, flow_id);
        bare_frame(network, peer, flow_id, FLAG_OPENED_OK)
    }

    /// The local service could not be reached for a flow.
    pub fn connect_failed(&mut self, network: &NetId, peer: u64, flow_id: u32) -> (message: Option<FlowMessage>)
        ensures
            final(self)@ == (FlowsView {
                connecting: old(self)@.connecting.remove(flow_id),
                ..old(self)@
            }),
            message_view(message) == message_for(
                *network,
                peer,
                flow_id,
                FLAG_OPENED_FAIL,
                flow::opened_fail_payload("local service unreachable"@),
            ),
    {
        ids_remove(&mut self.connecting, flow_id);
        let why = build_opened_fail("local service unreachable");
        flow_frame(network, peer, flow_id, FLAG_OPENED_FAIL, why.as_slice())
    }

    /// An id that a new flow may have.
    pub fn is_free(&self, flow_id: u32) -> (free: bool)
        ensures
            free == (flow_id != 0 && !self@.flows.dom().contains(flow_id)),
    {
        flow_id != 0 && flows_get(&self.flows, flow_id).is_none()
    }

    /// Begins a flow under an id, if the id may be had.
    pub fn open_as(&mut self, flow_id: u32, network: &NetId, peer: u64, udp: bool, dest: &str) -> (opened: Option<
        Option<FlowMessage>,
    >)
        ensures
            opened is Some == (flow_id != 0 && !old(self)@.flows.dom().contains(flow_id)),
            opened is None ==> final(self)@ == old(self)@,
            opened matches Some(message) ==> {
                &&& final(self)@ == old(self)@.with(flow_id, new_flow(*network, peer, udp))
                &&& message_view(message) == open_message(*network, peer, flow_id, udp, dest@)
            },
    {
        if !self.is_free(flow_id) {
            return None;
        }
        let kind = if udp {
            FlowKind::Udp { outbound: true }
        } else {
            FlowKind::OutTcp { answered: false }
        };
        flows_insert(&mut self.flows, flow_id, FlowCtx { network: *network, peer, kind });
        Some(open_frame(network, peer, flow_id, udp, dest))
    }

    /// The id of a new flow: the first of the drawn ones that may be had.
    pub fn new_flow_id(&self, drawn: &[u32]) -> (id: Option<u32>)
        ensures
            id == self@.first_free(drawn@),
            id matches Some(i) ==> i != 0 && !self@.flows.dom().contains(i) && drawn@.contains(i),
            id is None ==> forall|k: int|
                0 <= k < drawn@.len() ==> !self@.may_have(#[trigger] drawn@[k]),
    {
        let mut n: usize = 0;
        assert(drawn@.take(0) =~= Seq::<u32>::empty());
        while n < drawn.len()
            invariant
                n <= drawn@.len(),
                self@.first_free(drawn@.take(n as int)) is None,
                forall|k: int| 0 <= k < n ==> !self@.may_have(#[trigger] drawn@[k]),
            decreases drawn@.len() - n,
        {
            let id: u32 = drawn[n];
            proof {
                assert(drawn@.take(n + 1).drop_last() =~= drawn@.take(n as int));
                assert(drawn@.take(n + 1).last() == id);
            }
            if self.is_free(id) {
                proof {
                    self@.lemma_first_free_stays(drawn@, n + 1);
                }
                return Some(id);
            }
            n += 1;
        }
        assert(drawn@.take(n as int) =~= drawn@);
        None
    }

    /// Begins a flow under the first of the drawn ids that may be had.
    pub fn open_from(
        &mut self,
        drawn: &[u32],
        network: &NetId,
        peer: u64,
        udp: bool,
        dest: &str,
    ) -> (opened: Option<(u32, Option<FlowMessage>)>)
        ensures
            opened_from(old(self)@, final(self)@, drawn@, *network, peer, udp, dest@, opened),
            opened matches Some((flow_id, _)) ==> flow_id != 0 && !old(self)@.flows.dom().contains(
                flow_id,
            ),
    {
        match self.new_flow_id(drawn) {
            Some(flow_id) => match self.open_as(flow_id, network, peer, udp, dest) {
                Some(message) => Some((flow_id, message)),
                None => None,
            },
            None => None,
        }
    }

    /// Begins a flow under an id drawn at random. Where none of the drawn ids may be
    /// had there is no flow. Which ids are drawn is left to chance.
    fn open_at_random(&mut self, network: &NetId, peer: u64, udp: bool, dest: &str) -> (opened: Option<
        (u32, Option<FlowMessage>),
    >)
        ensures
            exists|drawn: Seq<u32>|
                drawn.len() == OPEN_TRIES && #[trigger] opened_from(
                    old(self)@,
                    final(self)@,
                    drawn,
                    *network,
                    peer,
                    udp,
                    dest@,
                    opened,
                ),
            opened is None ==> final(self)@ == old(self)@,
            opened matches Some((flow_id, message)) ==> {
                &&& flow_id != 0
                &&& !old(self)@.flows.dom().contains(flow_id)
                &&& final(self)@ == old(self)@.with(flow_id, new_flow(*network, peer, udp))
                &&& message_view(message) == open_message(*network, peer, flow_id, udp, dest@)
            },
    {
        let mut drawn: Vec<u32> = Vec::new();
        let mut tries: u32 = 0;
        while tries < OPEN_TRIES
            invariant
                tries <= OPEN_TRIES,
                drawn@.len() == tries,
            decreases OPEN_TRIES - tries,
        {
            drawn.push(random_u32());
            tries += 1;
        }
        self.open_from(drawn.as_slice(), network, peer, udp, dest)
    }

    /// Asks a peer for a stream to one of its services. The id is drawn at random;
    /// there is no flow only where none of the drawn ids may be had.
    pub fn open_tcp(&mut self, network: &NetId, peer: u64, dest: &str) -> (opened: Option<
        (u32, Option<FlowMessage>),
    >)
        ensures
            exists|drawn: Seq<u32>|
                drawn.len() == OPEN_TRIES && #[trigger] opened_from(
                    old(self)@,
                    final(self)@,
                    drawn,
                    *network,
                    peer,
                    false,
                    dest@,
                    opened,
                ),
            opened is None ==> final(self)@ == old(self)@,
            opened matches Some((flow_id, message)) ==> {
                &&& flow_id != 0
                &&& !old(self)@.flows.dom().contains(flow_id)
                &&& final(self)@ == old(self)@.with(flow_id, new_flow(*network, peer, false))
                &&& message_view(message) == open_message(*network, peer, flow_id, false, dest@)
            },
    {
        self.open_at_random(network, peer, false, dest)
    }

    /// Asks a peer for a flow of datagrams. The id is drawn at random; there is no
    /// flow only where none of the drawn ids may be had.
    pub fn open_udp(&mut self, network: &NetId, peer: u64, dest: &str) -> (opened: Option<
        (u32, Option<FlowMessage>),
    >)
        ensures
            exists|drawn: Seq<u32>|
                drawn.len() == OPEN_TRIES && #[trigger] opened_from(
                    old(self)@,
                    final(self)@,
                    drawn,
                    *network,
                    peer,
                    true,
                    dest@,
                    opened,
                ),
            opened is None ==> final(self)@ == old(self)@,
            opened matches Some((flow_id, message)) ==> {
                &&& flow_id != 0
                &&& !old(self)@.flows.dom().contains(flow_id)
                &&& final(self)@ == old(self)@.with(flow_id, new_flow(*network, peer, true))
                &&& message_view(message) == open_message(*network, peer, flow_id, true, dest@)
            },
    {
        self.open_at_random(network, peer, true, dest)
    }

    /// Whether a flow still waits for the answer to its OPEN.
    pub fn awaits_answer(&self, flow_id: u32) -> (waits: bool)
        ensures
            waits == (self@.flows.dom().contains(flow_id) && self@.flows[flow_id].kind == (
            FlowKind::OutTcp { answered: false })),
    {
        match flows_get(&self.flows, flow_id) {
            Some(flow) => flow.kind == (FlowKind::OutTcp { answered: false }),
            None => false,
        }
    }

    /// Whether the OPEN of a flow is sent once more, `elapsed` after the first one: it
    /// waits for its answer, and its time is not over.
    pub fn resends_open(&self, flow_id: u32, elapsed: u128, timeout: u128) -> (again: bool)
        ensures
            again == (self@.flows.dom().contains(flow_id) && self@.flows[flow_id].kind == (
            FlowKind::OutTcp { answered: false }) && elapsed < timeout),
    {
        self.awaits_answer(flow_id) && elapsed < timeout
    }

    /// Whether there is a flow of this id.
    pub fn has_flow(&self, flow_id: u32) -> (there: bool)
        ensures
            there == self@.flows.dom().contains(flow_id),
    {
        flows_get(&self.flows, flow_id).is_some()
    }

    /// Ends the flows of a peer that has left a network. Its flows in other
    /// networks stay.
    pub fn close_peer(&mut self, network: &NetId, peer: u64) -> (closed: Vec<(u32, Option<FlowMessage>)>)
        ensures
            final(self)@ == old(self)@.without_peer(*network, peer),
            forall|i: int|
                0 <= i < closed@.len() ==> {
                    &&& old(self)@.is_with((#[trigger] closed@[i]).0, *network, peer)
                    &&& message_view(closed@[i].1) == bare_message(
                        *network,
                        peer,
                        closed@[i].0,
                        FLAG_CLOSE,
                    )
                },
            forall|id: u32| #[trigger]
                old(self)@.is_with(id, *network, peer) ==> exists|i: int|
                    0 <= i < closed@.len() && (#[trigger] closed@[i]).0 == id,
            forall|i: int, j: int|
                0 <= i < j < closed@.len() ==> (#[trigger] closed@[i]).0 != (
                #[trigger] closed@[j]).0,
    {
        let ghost before = self@;
        let ids = flows_keys(&self.flows);
        let mut closed: Vec<(u32, Option<FlowMessage>)> = Vec::new();
        let mut n: usize = 0;
        while n < ids.len()
            invariant
                n <= ids@.len(),
                ids@.no_duplicates(),
                ids@.to_set() == before.flows.dom(),
                self@ == (FlowsView { flows: self@.flows, ..before }),
                forall|id: u32| #[trigger]
                    self@.flows.dom().contains(id) ==> before.flows.dom().contains(id)
                        && self@.flows[id] == before.flows[id],
                forall|j: int|
                    #![trigger ids@[j]]
                    0 <= j < ids@.len() ==> self@.flows.dom().contains(ids@[j]) == (j >= n
                        || !before.is_with(ids@[j], *network, peer)),
                forall|i: int|
                    0 <= i < closed@.len() ==> {
                        &&& before.is_with((#[trigger] closed@[i]).0, *network, peer)
                        &&& !self@.flows.dom().contains(closed@[i].0)
                        &&& message_view(closed@[i].1) == bare_message(
                            *network,
                            peer,
                            closed@[i].0,
                            FLAG_CLOSE,
                        )
                    },
                forall|j: int|
                    #![trigger ids@[j]]
                    0 <= j < n && before.is_with(ids@[j], *network, peer) ==> exists|i: int|
                        0 <= i < closed@.len() && (#[trigger] closed@[i]).0 == ids@[j],
                forall|i: int, j: int|
                    0 <= i < j < closed@.len() ==> (#[trigger] closed@[i]).0 != (
                    #[trigger] closed@[j]).0,
            decreases ids@.len() - n,
        {
            let id = ids[n];
            let ghost now = self@;
            let ghost closed0 = closed@;
            assert(ids@.to_set().contains(id));
            assert(now.flows.dom().contains(ids@[n as int]));
            if let Some(flow) = flows_get(&self.flows, id) {
                if flow.network.same(network) && flow.peer == peer {
                    assert(before.is_with(id, *network, peer));
                    flows_remove(&mut self.flows, id);
                    assert(self@.flows == now.flows.remove(id));
                    let notice = bare_frame(network, peer, id, FLAG_CLOSE);
                    closed.push((id, notice));
                    proof {
                        assert(closed@[closed0.len() as int].0 == id);
                        assert forall|j: int|
                            #![trigger ids@[j]]
                            0 <= j < n + 1 && before.is_with(ids@[j], *network, peer) implies exists|
                            i: int,
                        |
                            0 <= i < closed@.len() && (#[trigger] closed@[i]).0 == ids@[j] by {
                            if j < n {
                                let i = choose|i: int|
                                    0 <= i < closed0.len() && (#[trigger] closed0[i]).0 == ids@[j];
                                assert(closed@[i] == closed0[i]);
                            }
                        }
                        assert forall|i: int| 0 <= i < closed@.len() implies {
                            &&& before.is_with((#[trigger] closed@[i]).0, *network, peer)
                            &&& !self@.flows.dom().contains(closed@[i].0)
                            &&& message_view(closed@[i].1) == bare_message(
                                *network,
                                peer,
                                closed@[i].0,
                                FLAG_CLOSE,
                            )
                        } by {
                            if i < closed0.len() {
                                assert(closed@[i] == closed0[i]);
                            }
                        }
                        assert forall|i: int, j: int| 0 <= i < j < closed@.len() implies (
                        #[trigger] closed@[i]).0 != (#[trigger] closed@[j]).0 by {
                            assert(closed@[i] == closed0[i]);
                            if j < closed0.len() {
                                assert(closed@[j] == closed0[j]);
                            }
                        }
                    }
                }
            }
            n += 1;
        }
        proof {
            assert forall|id: u32| self@.flows.dom().contains(id) == (#[trigger] before.flows.dom().contains(id)
                && !before.is_with(id, *network, peer)) by {
                if before.flows.dom().contains(id) {
                    assert(ids@.to_set().contains(id));
                    let j = choose|j: int| 0 <= j < ids@.len() && ids@[j] == id;
                    assert(ids@[j] == id);
                }
            }
            assert forall|id: u32| #[trigger] before.is_with(id, *network, peer) implies exists|i: int|
                0 <= i < closed@.len() && (#[trigger] closed@[i]).0 == id by {
                assert(ids@.to_set().contains(id));
                let j = choose|j: int| 0 <= j < ids@.len() && ids@[j] == id;
                assert(before.is_with(ids@[j], *network, peer));
            }
            assert(self@.flows =~= before.without_peer(*network, peer).flows);
        }
        closed
    }
}

impl FlowsView {
    /// The flow is one with this peer, in this network.
    pub open spec fn is_with(self, id: u32, network: NetId, peer: u64) -> bool {
        self.flows.dom().contains(id) && self.flows[id].network == network && self.flows[id].peer == peer
    }

    /// The flows without those with a peer in a network.
    pub open spec fn without_peer(self, network: NetId, peer: u64) -> FlowsView {
        FlowsView {
            flows: self.flows.restrict(
                self.flows.dom().filter(|id: u32| !self.is_with(id, network, peer)),
            ),
            ..self
        }
    }
}

/// Milliseconds after which an OPEN without an answer is sent again.
pub const OPEN_RESEND_MS: u64 = 700;

/// How often an id is drawn for a new flow.
pub const OPEN_TRIES: u32 = 16;

impl FlowsView {
    /// An id that a new flow may have.
    pub open spec fn may_have(self, id: u32) -> bool {
        id != 0 && !self.flows.dom().contains(id)
    }

    /// The first of the drawn ids that a new flow may have.
    pub open spec fn first_free(self, drawn: Seq<u32>) -> Option<u32>
        decreases drawn.len(),
    {
        if drawn.len() == 0 {
            None
        } else {
            match self.first_free(drawn.drop_last()) {
                Some(id) => Some(id),
                None => if self.may_have(drawn.last()) {
                    Some(drawn.last())
                } else {
                    None
                },
            }
        }
    }

    proof fn lemma_first_free_stays(self, drawn: Seq<u32>, n: int)
        requires
            0 <= n <= drawn.len(),
            self.first_free(drawn.take(n)) is Some,
        ensures
            self.first_free(drawn) == self.first_free(drawn.take(n)),
        decreases drawn.len() - n,
    {
        if n < drawn.len() {
            assert(drawn.take(n + 1).drop_last() =~= drawn.take(n));
            self.lemma_first_free_stays(drawn, n + 1);
        } else {
            assert(drawn.take(n) =~= drawn);
        }
    }
}

/// What asking for a flow comes to, once ids were drawn for it: the flows before and
/// after, and what is opened.
pub open spec fn opened_from(
    before: FlowsView,
    after: FlowsView,
    drawn: Seq<u32>,
    network: NetId,
    peer: u64,
    udp: bool,
    dest: Seq<char>,
    opened: Option<(u32, Option<FlowMessage>)>,
) -> bool {
    match opened {
        None => before.first_free(drawn) is None && after == before,
        Some((flow_id, message)) => {
            &&& before.first_free(drawn) == Some(flow_id)
            &&& after == before.with(flow_id, new_flow(network, peer, udp))
            &&& message_view(message) == open_message(network, peer, flow_id, udp, dest)
        },
    }
}

/// A flow that this node asks for.
pub open spec fn new_flow(network: NetId, peer: u64, udp: bool) -> FlowCtx {
    FlowCtx {
        network,
        peer,
        kind: if udp {
            FlowKind::Udp { outbound: true }
        } else {
            FlowKind::OutTcp { answered: false }
        },
    }
}

/// The OPEN of a flow.
pub open spec fn open_message(network: NetId, peer: u64, flow_id: u32, udp: bool, dest: Seq<char>) -> Option<
    MessageView,
> {
    message_for(
        network,
        peer,
        flow_id,
        FLAG_OPEN,
        flow::open_payload(
            if udp {
                PROTO_UDP
            } else {
                PROTO_TCP
            },
            dest,
        ),
    )
}

/// The OPEN of a flow.
pub fn open_frame(network: &NetId, peer: u64, flow_id: u32, udp: bool, dest: &str) -> (message: Option<
    FlowMessage,
>)
    ensures
        message_view(message) == open_message(*network, peer, flow_id, udp, dest@),
{
    let proto: u8 = if udp {
        PROTO_UDP
    } else {
        PROTO_TCP
    };
    let payload = build_open(proto, dest);
    flow_frame(network, peer, flow_id, FLAG_OPEN, payload.as_slice())
}

/// A datagram from or to `address`.
pub fn datagram_frame(network: &NetId, peer: u64, flow_id: u32, address: &str, data: &[u8]) -> (message: Option<
    FlowMessage,
>)
    ensures
        message_view(message) == message_for(
            *network,
            peer,
            flow_id,
            FLAG_DATAGRAM,
            flow::datagram_payload(address@, data@),
        ),
{
    let payload = build_datagram(address, data);
    flow_frame(network, peer, flow_id, FLAG_DATAGRAM, payload.as_slice())
}

/// An OPEN that comes again changes nothing, and never leads to a second
/// connection with the local service.
pub proof fn lemma_open_is_idempotent(
    v: FlowsView,
    network: NetId,
    peer: u64,
    flow_id: u32,
    payload: Seq<u8>,
)
    ensures
        ({
            let first = v.on_open(network, peer, flow_id, payload);
            let second = first.0.on_open(network, peer, flow_id, payload);
            second.0 == first.0 && !(second.1 is Connect)
        }),
{
}

/// Once the local service is connected, an OPEN that comes again is answered like
/// the first, and changes nothing.
pub proof fn lemma_open_of_standing_stream_is_answered(
    v: FlowsView,
    network: NetId,
    peer: u64,
    flow_id: u32,
    address: Seq<char>,
)
    requires
        v.flows.dom().contains(flow_id),
        v.flows[flow_id].kind is InTcp,
        address.contains(':'),
        encode_utf8(address).len() <= 255,
        port_of(address) is Some,
    ensures
        v.on_open(network, peer, flow_id, flow::open_payload(PROTO_TCP, address)) == (
            v,
            ActionView::Send { message: bare_message(network, peer, flow_id, FLAG_OPENED_OK) },
        ),
{
    flow::lemma_open_round_trip(PROTO_TCP, address);
}

/// A peer that leaves a network takes its flows in that network with it, and no
/// other flow.
pub proof fn lemma_leaving_is_scoped(v: FlowsView, network: NetId, peer: u64, id: u32)
    ensures
        v.without_peer(network, peer).flows.dom().contains(id) <==> v.flows.dom().contains(id) && (
        v.flows[id].network != network || v.flows[id].peer != peer),
        v.without_peer(network, peer).flows.dom().contains(id) ==> v.without_peer(
            network,
            peer,
        ).flows[id] == v.flows[id],
{
}

/// A message concerns the flow that it names: the others are as they were.
pub proof fn lemma_step_touches_one_flow(
    v: FlowsView,
    network: NetId,
    peer: u64,
    message: Seq<u8>,
    self_ip: Option<u32>,
    id: u32,
)
    requires
        flow::parsed_flow(message) is Some ==> (flow::parsed_flow(message)->0).0 != id,
    ensures
        ({
            let after = v.step(network, peer, message, self_ip).0;
            &&& after.flows.dom().contains(id) == v.flows.dom().contains(id)
            &&& v.flows.dom().contains(id) ==> after.flows[id] == v.flows[id]
            &&& after.connecting.contains(id) == v.connecting.contains(id)
            &&& after.exposes == v.exposes
        }),
{
}

/// What one side writes into a stream, the other side gets, in one piece.
pub proof fn lemma_data_is_delivered(
    v: FlowsView,
    network: NetId,
    peer: u64,
    flow_id: u32,
    data: Seq<u8>,
    self_ip: Option<u32>,
)
    requires
        v.flows.dom().contains(flow_id),
        !(v.flows[flow_id].kind is Udp),
        data.len() <= FLOW_MAX_DATAGRAM,
    ensures
        message_for(network, peer, flow_id, FLAG_DATA, data) is Some,
        v.step(
            network,
            peer,
            (message_for(network, peer, flow_id, FLAG_DATA, data)->0).payload,
            self_ip,
        ) == (v, ActionView::Deliver { flow_id, data }),
{
    flow::lemma_flow_round_trip(flow_id, FLAG_DATA, data);
}

/// The rule at `i` is for a protocol and a port.
pub open spec fn is_rule(rules: Seq<ExposeRule>, i: int, proto: Seq<char>, port: u16) -> bool {
    0 <= i < rules.len() && rules[i].proto@ == proto && rules[i].port == port
}

/// A service is found if and only if there is a rule for its protocol and port, wherever
/// in the list that stands, and the first such rule counts.
pub proof fn lemma_service_is_found(rules: Seq<ExposeRule>, proto: Seq<char>, port: u16)
    ensures
        rule_for(rules, proto, port) is Some <==> exists|i: int| #[trigger] is_rule(rules, i, proto, port),
        forall|i: int| #[trigger]
            is_rule(rules, i, proto, port) && (forall|j: int| 0 <= j < i ==> !is_rule(rules, j, proto, port))
                ==> rule_for(rules, proto, port) == Some(rules[i]),
{
    if rule_for(rules, proto, port) is Some {
        let k = lemma_found_is_a_rule(rules, proto, port);
        assert(is_rule(rules, k, proto, port));
    } else {
        assert forall|i: int| !(#[trigger] is_rule(rules, i, proto, port)) by {
            lemma_none_is_no_rule(rules, proto, port, i);
        }
    }
    assert forall|i: int| #[trigger]
        is_rule(rules, i, proto, port) && (forall|j: int| 0 <= j < i ==> !is_rule(rules, j, proto, port)) implies rule_for(
        rules,
        proto,
        port,
    ) == Some(rules[i]) by {
        lemma_first_rule_counts(rules, proto, port, i);
    }
}

proof fn lemma_found_is_a_rule(rules: Seq<ExposeRule>, proto: Seq<char>, port: u16) -> (k: int)
    requires
        rule_for(rules, proto, port) is Some,
    ensures
        is_rule(rules, k, proto, port),
    decreases rules.len(),
{
    if is_rule(rules, 0, proto, port) {
        0
    } else {
        let k = lemma_found_is_a_rule(rules.skip(1), proto, port);
        assert(rules.skip(1)[k] == rules[k + 1]);
        k + 1
    }
}

proof fn lemma_none_is_no_rule(rules: Seq<ExposeRule>, proto: Seq<char>, port: u16, i: int)
    requires
        rule_for(rules, proto, port) is None,
    ensures
        !is_rule(rules, i, proto, port),
    decreases rules.len(),
{
    if 0 < i < rules.len() {
        lemma_none_is_no_rule(rules.skip(1), proto, port, i - 1);
        assert(rules.skip(1)[i - 1] == rules[i]);
    }
}

proof fn lemma_first_rule_counts(rules: Seq<ExposeRule>, proto: Seq<char>, port: u16, i: int)
    requires
        is_rule(rules, i, proto, port),
        forall|j: int| 0 <= j < i ==> !is_rule(rules, j, proto, port),
    ensures
        rule_for(rules, proto, port) == Some(rules[i]),
    decreases i,
{
    if i > 0 {
        assert(!is_rule(rules, 0, proto, port));
        assert(rules.skip(1)[i - 1] == rules[i]);
        assert forall|j: int| 0 <= j < i - 1 implies !is_rule(rules.skip(1), j, proto, port) by {
            assert(!is_rule(rules, j + 1, proto, port));
            assert(rules.skip(1)[j] == rules[j + 1]);
        }
        lemma_first_rule_counts(rules.skip(1), proto, port, i - 1);
    }
}

/// The port of an address is the number behind its last colon, whatever stands before
/// that.
pub proof fn lemma_port_is_behind_the_colon(host: Seq<char>, port: u16)
    ensures
        port_of(host + seq![':'] + addr::decimal(port as nat)) == Some(port),
        (host + seq![':'] + addr::decimal(port as nat)).contains(':'),
{
    let tail = addr::decimal(port as nat);
    let s = host + seq![':'] + tail;
    let k = host.len() as int;
    addr::lemma_decimal_value(port as nat);
    assert forall|j: int| k < j < s.len() implies s[j] != ':' by {
        assert(s[j] == tail[j - k - 1]);
    }
    assert(s[k] == ':');
    addr::lemma_last_of(s, ':', k);
    assert(s.skip(k + 1) =~= tail);
    assert(addr::is_digit(tail[0]));
}

/// The services of a network are what was set for it last, and no other network's.
pub proof fn lemma_services_are_per_network(
    v: FlowsView,
    network: NetId,
    other: NetId,
    rules: Seq<ExposeRule>,
)
    ensures
        ({
            let after = FlowsView { exposes: v.exposes.insert(network.key() as u128, rules), ..v };
            &&& after.rules_of(network) == rules
            &&& network != other ==> after.rules_of(other) == v.rules_of(other)
        }),
{
    models::lemma_networks_are_apart(network, other);
}

/// A peer that asks for a stream to a port that is exposed is connected with the service
/// of the first rule for that port, and once only while that goes on.
pub proof fn lemma_stream_reaches_its_service(
    v: FlowsView,
    network: NetId,
    peer: u64,
    flow_id: u32,
    host: Seq<char>,
    port: u16,
    i: int,
    self_ip: Option<u32>,
)
    requires
        encode_utf8(host + seq![':'] + addr::decimal(port as nat)).len() <= 255,
        !v.flows.dom().contains(flow_id),
        !v.connecting.contains(flow_id),
        is_rule(v.rules_of(network), i, "tcp"@, port),
        forall|j: int| 0 <= j < i ==> !is_rule(v.rules_of(network), j, "tcp"@, port),
    ensures
        ({
            let address = host + seq![':'] + addr::decimal(port as nat);
            let message = open_message(network, peer, flow_id, false, address);
            &&& message is Some
            &&& (message->0).peer == peer && (message->0).network == network
            &&& v.step(network, peer, (message->0).payload, self_ip) == (
                FlowsView { connecting: v.connecting.insert(flow_id), ..v },
                ActionView::Connect { flow_id, service: v.rules_of(network)[i].dest@ },
            )
        }),
{
    let address = host + seq![':'] + addr::decimal(port as nat);
    lemma_port_is_behind_the_colon(host, port);
    flow::lemma_open_round_trip(PROTO_TCP, address);
    flow::lemma_flow_round_trip(flow_id, FLAG_OPEN, flow::open_payload(PROTO_TCP, address));
    lemma_service_is_found(v.rules_of(network), "tcp"@, port);
}

/// A peer that asks for a stream to a port that is not exposed is told that it failed,
/// and there is no stream.
pub proof fn lemma_stream_to_nothing_is_refused(
    v: FlowsView,
    w: FlowsView,
    network: NetId,
    peer: u64,
    flow_id: u32,
    host: Seq<char>,
    port: u16,
    self_ip: Option<u32>,
)
    requires
        encode_utf8(host + seq![':'] + addr::decimal(port as nat)).len() <= 255,
        !v.flows.dom().contains(flow_id),
        forall|j: int| !is_rule(v.rules_of(network), j, "tcp"@, port),
        w.flows.dom().contains(flow_id),
        w.flows[flow_id].kind == (FlowKind::OutTcp { answered: false }),
    ensures
        ({
            let address = host + seq![':'] + addr::decimal(port as nat);
            let message = open_message(network, peer, flow_id, false, address);
            let after = v.step(network, peer, (message->0).payload, self_ip);
            &&& after.0 == v
            &&& after.1 matches ActionView::Send { message: Some(answer) } && answer.network == network
                && answer.peer == peer && (w.step(network, peer, answer.payload, self_ip).1 matches ActionView::Answered {
                flow_id: told,
                failure: Some(_),
            } && told == flow_id)
        }),
{
    let address = host + seq![':'] + addr::decimal(port as nat);
    lemma_port_is_behind_the_colon(host, port);
    flow::lemma_open_round_trip(PROTO_TCP, address);
    flow::lemma_flow_round_trip(flow_id, FLAG_OPEN, flow::open_payload(PROTO_TCP, address));
    lemma_service_is_found(v.rules_of(network), "tcp"@, port);
    let why = flow::opened_fail_payload(no_service(port));
    text::lemma_fitted(no_service(port), 200);
    flow::lemma_flow_round_trip(flow_id, FLAG_OPENED_FAIL, why);
}

/// A service that took the connection, or could not be reached, is answered for once:
/// the side that asked learns it from the first answer and takes no second one.
pub proof fn lemma_first_answer_counts(
    w: FlowsView,
    network: NetId,
    peer: u64,
    flow_id: u32,
    agreed: bool,
    payload: Seq<u8>,
    self_ip: Option<u32>,
)
    requires
        w.flows.dom().contains(flow_id),
        w.flows[flow_id].kind == (FlowKind::OutTcp { answered: false }),
    ensures
        ({
            let flag = if agreed {
                FLAG_OPENED_OK
            } else {
                FLAG_OPENED_FAIL
            };
            let after = w.step(network, peer, flow::flow_message(flow_id, flag, payload), self_ip);
            &&& after.1 matches ActionView::Answered { flow_id: told, failure } && told == flow_id
                && failure is None == agreed
            &&& after.0.flows.dom().contains(flow_id)
            &&& after.0.flows[flow_id] == (FlowCtx {
                kind: FlowKind::OutTcp { answered: true },
                ..w.flows[flow_id]
            })
            &&& after.0.step(network, peer, flow::flow_message(flow_id, FLAG_OPENED_OK, payload), self_ip)
                == (after.0, ActionView::Nothing)
            &&& after.0.step(network, peer, flow::flow_message(flow_id, FLAG_OPENED_FAIL, payload), self_ip)
                == (after.0, ActionView::Nothing)
        }),
{
    flow::lemma_flow_round_trip(flow_id, FLAG_OPENED_OK, payload);
    flow::lemma_flow_round_trip(flow_id, FLAG_OPENED_FAIL, payload);
}

/// A CLOSE ends the flow that it names, whatever kind of flow that is, and no other;
/// the peer that sent it is told nothing. One for a flow that is not there does nothing.
pub proof fn lemma_close_ends_the_flow(
    v: FlowsView,
    network: NetId,
    peer: u64,
    flow_id: u32,
    payload: Seq<u8>,
    self_ip: Option<u32>,
)
    ensures
        ({
            let after = v.step(network, peer, flow::flow_message(flow_id, FLAG_CLOSE, payload), self_ip);
            &&& !after.0.flows.dom().contains(flow_id)
            &&& v.flows.dom().contains(flow_id) ==> after.1 == (ActionView::Closed {
                flow_id,
                notice: None,
            })
            &&& !v.flows.dom().contains(flow_id) ==> after == (v, ActionView::Nothing)
            &&& forall|other: u32| #![auto]
                other != flow_id ==> after.0.flows.dom().contains(other) == v.flows.dom().contains(other)
                    && after.0.flows[other] == v.flows[other]
            &&& after.0.connecting == v.connecting
            &&& after.0.exposes == v.exposes
        }),
{
    flow::lemma_flow_round_trip(flow_id, FLAG_CLOSE, payload);
}

/// A flow that ends on this side, of whatever kind, is gone, and so is the other side's
/// once the notice has come: it goes to the flow's own peer in the flow's own network,
/// and ends the flow there.
pub proof fn lemma_close_is_passed_on(
    v: FlowsView,
    w: FlowsView,
    flow_id: u32,
    network: NetId,
    peer: u64,
    self_ip: Option<u32>,
)
    requires
        v.flows.dom().contains(flow_id),
        w.flows.dom().contains(flow_id),
    ensures
        !v.on_close(flow_id, true).0.flows.dom().contains(flow_id),
        !v.on_close(flow_id, false).0.flows.dom().contains(flow_id),
        v.on_close(flow_id, false).1 == (ActionView::Closed { flow_id, notice: None }),
        v.on_close(flow_id, true).0.on_close(flow_id, true).1 is Nothing,
        v.on_close(flow_id, true).1 matches ActionView::Closed { flow_id: ended, notice: Some(notice) }
            && ended == flow_id && notice.network == v.flows[flow_id].network && notice.peer
            == v.flows[flow_id].peer && w.step(network, peer, notice.payload, self_ip).1 == (
        ActionView::Closed { flow_id, notice: None }) && !w.step(
            network,
            peer,
            notice.payload,
            self_ip,
        ).0.flows.dom().contains(flow_id),
{
    flow::lemma_flow_round_trip(flow_id, FLAG_CLOSE, Seq::empty());
}

/// A flow of datagrams has no stream: content for one ends it, and the peer is told.
pub proof fn lemma_datagram_flow_takes_no_stream(
    v: FlowsView,
    network: NetId,
    peer: u64,
    flow_id: u32,
    data: Seq<u8>,
    self_ip: Option<u32>,
)
    requires
        v.flows.dom().contains(flow_id),
        v.flows[flow_id].kind is Udp,
    ensures
        ({
            let after = v.step(network, peer, flow::flow_message(flow_id, FLAG_DATA, data), self_ip);
            &&& !after.0.flows.dom().contains(flow_id)
            &&& after.1 matches ActionView::Closed { flow_id: ended, notice: Some(notice) } && ended
                == flow_id && notice.peer == v.flows[flow_id].peer && notice.network
                == v.flows[flow_id].network
        }),
{
    flow::lemma_flow_round_trip(flow_id, FLAG_DATA, data);
}

/// A datagram for a port that is exposed goes to the service of the first rule for that
/// port, with the node's own address and that port as where the answer comes from; one
/// for a port that is not exposed goes nowhere. No flow has to be open for that.
pub proof fn lemma_datagram_reaches_its_service(
    v: FlowsView,
    network: NetId,
    peer: u64,
    flow_id: u32,
    host: Seq<char>,
    port: u16,
    data: Seq<u8>,
    own: u32,
    i: int,
)
    requires
        encode_utf8(host + seq![':'] + addr::decimal(port as nat)).len() <= 255,
        v.flows.dom().contains(flow_id) ==> v.flows[flow_id].kind != (FlowKind::Udp { outbound: true }),
    ensures
        ({
            let address = host + seq![':'] + addr::decimal(port as nat);
            let message = flow::flow_message(
                flow_id,
                FLAG_DATAGRAM,
                flow::datagram_payload(address, data),
            );
            let rules = v.rules_of(network);
            let after = v.step(network, peer, message, Some(own));
            &&& after.0 == v
            &&& is_rule(rules, i, "udp"@, port) && (forall|j: int|
                0 <= j < i ==> !is_rule(rules, j, "udp"@, port)) ==> (after.1 matches ActionView::Local {
                flow_id: id,
                port: to,
                dest,
                reply,
                data: content,
            } && id == flow_id && to == port && content == data && reply == addr::socket_v4_text(own, port)
                && dest == (match addr::socket_value(rules[i].dest@) {
                Some(at) => at,
                None => SocketView::V4 { ip: 0x7f00_0001, port },
            }))
            &&& (forall|j: int| !is_rule(rules, j, "udp"@, port)) ==> after.1 is Nothing
            &&& v.step(network, peer, message, None).1 is Nothing
        }),
{
    let address = host + seq![':'] + addr::decimal(port as nat);
    lemma_port_is_behind_the_colon(host, port);
    flow::lemma_datagram_round_trip(address, data);
    flow::lemma_flow_round_trip(flow_id, FLAG_DATAGRAM, flow::datagram_payload(address, data));
    lemma_service_is_found(v.rules_of(network), "udp"@, port);
}

/// A datagram on a flow that this node asked for is handed to whoever asked, with the
/// address that it comes from.
pub proof fn lemma_answer_is_handed_over(
    v: FlowsView,
    network: NetId,
    peer: u64,
    flow_id: u32,
    source: Seq<char>,
    data: Seq<u8>,
    self_ip: Option<u32>,
)
    requires
        source.contains(':'),
        encode_utf8(source).len() <= 255,
        v.flows.dom().contains(flow_id),
        v.flows[flow_id].kind == (FlowKind::Udp { outbound: true }),
    ensures
        v.step(
            network,
            peer,
            flow::flow_message(flow_id, FLAG_DATAGRAM, flow::datagram_payload(source, data)),
            self_ip,
        ) == (v, ActionView::Hand { flow_id, source, data }),
{
    flow::lemma_datagram_round_trip(source, data);
    flow::lemma_flow_round_trip(flow_id, FLAG_DATAGRAM, flow::datagram_payload(source, data));
}

/// A peer that asks for datagrams gets a flow of its own, in the network that it asked
/// in, and is told so; asking again changes nothing.
pub proof fn lemma_datagrams_are_agreed_to(
    v: FlowsView,
    network: NetId,
    peer: u64,
    flow_id: u32,
    dest: Seq<char>,
    self_ip: Option<u32>,
)
    requires
        dest.contains(':'),
        encode_utf8(dest).len() <= 255,
        !v.flows.dom().contains(flow_id),
    ensures
        ({
            let message = flow::flow_message(flow_id, FLAG_OPEN, flow::open_payload(PROTO_UDP, dest));
            let agreed = ActionView::Send {
                message: Some(
                    MessageView {
                        network,
                        peer,
                        payload: flow::flow_message(flow_id, FLAG_OPENED_OK, Seq::empty()),
                    },
                ),
            };
            let after = v.step(network, peer, message, self_ip);
            &&& after.1 == agreed
            &&& after.0.flows == v.flows.insert(
                flow_id,
                FlowCtx { network, peer, kind: FlowKind::Udp { outbound: false } },
            )
            &&& after.0.connecting == v.connecting && after.0.exposes == v.exposes
            &&& after.0.step(network, peer, message, self_ip) == (after.0, agreed)
        }),
{
    flow::lemma_open_round_trip(PROTO_UDP, dest);
    flow::lemma_flow_round_trip(flow_id, FLAG_OPEN, flow::open_payload(PROTO_UDP, dest));
}

/// A message that cannot be read does nothing, and content for a flow that is not there
/// goes nowhere.
pub proof fn lemma_strange_messages_do_nothing(
    v: FlowsView,
    network: NetId,
    peer: u64,
    message: Seq<u8>,
    flow_id: u32,
    data: Seq<u8>,
    self_ip: Option<u32>,
)
    ensures
        message.len() < 5 || message[4] == 0 || message[4] > 6 ==> v.step(
            network,
            peer,
            message,
            self_ip,
        ) == (v, ActionView::Nothing),
        !v.flows.dom().contains(flow_id) ==> v.step(
            network,
            peer,
            flow::flow_message(flow_id, FLAG_DATA, data),
            self_ip,
        ) == (v, ActionView::Nothing),
{
    flow::lemma_flow_round_trip(flow_id, FLAG_DATA, data);
}

/// A new flow gets the first of the drawn ids that is neither zero nor taken, and gets
/// none only where there is no such id.
pub proof fn lemma_first_free_id(v: FlowsView, drawn: Seq<u32>, i: int)
    requires
        0 <= i < drawn.len(),
        drawn[i] != 0,
        !v.flows.dom().contains(drawn[i]),
        forall|j: int| 0 <= j < i ==> #[trigger] drawn[j] == 0 || v.flows.dom().contains(drawn[j]),
    ensures
        v.first_free(drawn) == Some(drawn[i]),
    decreases drawn.len(),
{
    if i < drawn.len() - 1 {
        lemma_first_free_id(v, drawn.drop_last(), i);
    } else {
        lemma_none_free(v, drawn.drop_last());
    }
}

proof fn lemma_none_free(v: FlowsView, drawn: Seq<u32>)
    requires
        forall|j: int| 0 <= j < drawn.len() ==> #[trigger] drawn[j] == 0 || v.flows.dom().contains(drawn[j]),
    ensures
        v.first_free(drawn) is None,
    decreases drawn.len(),
{
    if drawn.len() > 0 {
        lemma_none_free(v, drawn.drop_last());
    }
}

/// A message of a flow goes out as long as its content fits into a datagram, and never
/// beyond that.
pub proof fn lemma_long_messages_are_held_back(
    network: NetId,
    peer: u64,
    flow_id: u32,
    flags: u8,
    payload: Seq<u8>,
)
    ensures
        message_for(network, peer, flow_id, flags, payload) is Some <==> payload.len() <= FLOW_MAX_DATAGRAM,
        message_for(network, peer, flow_id, flags, payload) matches Some(m) ==> m.network == network
            && m.peer == peer && m.payload == flow::flow_message(flow_id, flags, payload),
{
}

/// A flow is opened with the first of the drawn ids that is free. The peer is asked for
/// it, and from then on it is one of the flows; no other changes. Where none of the ids is
/// free, nothing happens.
pub proof fn lemma_flow_is_opened(
    before: FlowsView,
    after: FlowsView,
    drawn: Seq<u32>,
    network: NetId,
    peer: u64,
    udp: bool,
    dest: Seq<char>,
    opened: Option<(u32, Option<FlowMessage>)>,
    other: u32,
)
    requires
        opened_from(before, after, drawn, network, peer, udp, dest, opened),
    ensures
        opened is None <==> forall|i: int|
            0 <= i < drawn.len() ==> #[trigger] drawn[i] == 0 || before.flows.dom().contains(drawn[i]),
        opened is None ==> after == before,
        opened matches Some((id, _)) ==> {
            &&& id != 0 && !before.flows.dom().contains(id) && drawn.contains(id)
            &&& after.flows.dom().contains(id)
            &&& after.flows[id].network == network && after.flows[id].peer == peer
            &&& udp ==> after.flows[id].kind == (FlowKind::Udp { outbound: true })
            &&& !udp ==> after.flows[id].kind == (FlowKind::OutTcp { answered: false })
            &&& other != id ==> after.flows.dom().contains(other) == before.flows.dom().contains(other)
                && after.flows[other] == before.flows[other]
        },
        opened matches Some((id, Some(m))) ==> m@.network == network && m@.peer == peer && flow::parsed_flow(
            m@.payload,
        ) == Some(
            (
                id,
                1u8,
                flow::open_payload(
                    if udp {
                        2u8
                    } else {
                        1u8
                    },
                    dest,
                ),
            ),
        ),
{
    if forall|i: int| 0 <= i < drawn.len() ==> #[trigger] drawn[i] == 0 || before.flows.dom().contains(drawn[i]) {
        lemma_none_free(before, drawn);
    }
    if let Some((id, _)) = opened {
        lemma_free_is_drawn(before, drawn);
    } else {
        assert forall|i: int| 0 <= i < drawn.len() implies #[trigger] drawn[i] == 0 || before.flows.dom().contains(
            drawn[i],
        ) by {
            lemma_none_is_not_free(before, drawn, i);
        }
    }
    if let Some((id, Some(m))) = opened {
        let proto = if udp {
            2u8
        } else {
            1u8
        };
        flow::lemma_flow_round_trip(id, 1, flow::open_payload(proto, dest));
    }
}

proof fn lemma_free_is_drawn(v: FlowsView, drawn: Seq<u32>)
    requires
        v.first_free(drawn) is Some,
    ensures
        drawn.contains(v.first_free(drawn)->0),
        v.first_free(drawn)->0 != 0,
        !v.flows.dom().contains(v.first_free(drawn)->0),
    decreases drawn.len(),
{
    let front = drawn.drop_last();
    if v.first_free(front) is Some {
        lemma_free_is_drawn(v, front);
        let i = choose|i: int| 0 <= i < front.len() && front[i] == v.first_free(front)->0;
        assert(drawn[i] == front[i]);
    } else {
        assert(drawn[drawn.len() - 1] == drawn.last());
    }
}

proof fn lemma_none_is_not_free(v: FlowsView, drawn: Seq<u32>, i: int)
    requires
        v.first_free(drawn) is None,
        0 <= i < drawn.len(),
    ensures
        drawn[i] == 0 || v.flows.dom().contains(drawn[i]),
    decreases drawn.len(),
{
    if i < drawn.len() - 1 {
        lemma_none_is_not_free(v, drawn.drop_last(), i);
    }
}

} // verus!
