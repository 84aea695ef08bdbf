//! A running node: its networks and peers, its flows, and the settings in force.
//! What concerns more than one of them is here.

use vstd::prelude::*;

use crate::engine;
use crate::engine::{Mesh, MeshView, Pruned, Refreshed};
use crate::flows;
use crate::flows::{FlowManager, FlowMessage, FlowsView};
use crate::heartbeat::Heartbeat;
use crate::models::{DeviceSettings, ExposeRule, NetId, NetworkExposes, PathPolicy, PeerInfo, PeerPolicy};
use crate::protocol::flow::FLAG_CLOSE;
use crate::runtime::{network_set, Applied, Runtime, StopReason, StopState};
use crate::protocol::flow;
use crate::session::{PathKind, PeerView};
use crate::text;

verus! {

/// A running node.
pub struct Node {
    pub mesh: Mesh,
    pub flows: FlowManager,
    pub runtime: Runtime,
    pub heartbeat: Heartbeat,
    pub stop: StopState,
}

/// What came of settings.
#[derive(Debug)]
pub struct SettingsReport {
    pub applied: Applied,
    /// Devices whose policy could not be read.
    pub skipped: Vec<String>,
    /// Whether some peer is now to be reached over the TCP relay.
    pub relay_tcp: bool,
}

/// The flows without those with peers that have left a network.
pub open spec fn without_left(v: FlowsView, network: NetId, left: Seq<(u64, Option<u64>)>) -> FlowsView
    decreases left.len(),
{
    if left.len() == 0 {
        v
    } else {
        without_left(v, network, left.drop_last()).without_peer(network, left.last().0)
    }
}

/// The flow is one with a peer that has left a network.
pub open spec fn flow_left(v: FlowsView, network: NetId, left: Seq<(u64, Option<u64>)>, id: u32) -> bool {
    exists|i: int| 0 <= i < left.len() && v.is_with(id, network, (#[trigger] left[i]).0)
}

/// A peer that leaves takes its flows in the network with it: those and no others.
pub proof fn lemma_without_left(v: FlowsView, network: NetId, left: Seq<(u64, Option<u64>)>, id: u32)
    ensures
        without_left(v, network, left).flows.dom().contains(id) <==> v.flows.dom().contains(id)
            && !flow_left(v, network, left, id),
        without_left(v, network, left).flows.dom().contains(id) ==> without_left(
            v,
            network,
            left,
        ).flows[id] == v.flows[id],
        without_left(v, network, left).connecting == v.connecting,
        without_left(v, network, left).exposes == v.exposes,
    decreases left.len(),
{
    if left.len() > 0 {
        let front = left.drop_last();
        let mid = without_left(v, network, front);
        lemma_without_left(v, network, front, id);
        flows::lemma_leaving_is_scoped(mid, network, left.last().0, id);
        if flow_left(v, network, front, id) {
            let i = choose|i: int| 0 <= i < front.len() && v.is_with(id, network, (#[trigger] front[i]).0);
            assert(left[i] == front[i]);
        }
        if flow_left(v, network, left, id) {
            let i = choose|i: int| 0 <= i < left.len() && v.is_with(id, network, (#[trigger] left[i]).0);
            if i < front.len() {
                assert(front[i] == left[i]);
            }
        }
        if v.is_with(id, network, left.last().0) {
            assert(left[left.len() - 1] == left.last());
        }
    }
}

/// A flow that was ended, and what its peer is told.
pub open spec fn is_notice(v: FlowsView, network: NetId, closed: (u32, Option<FlowMessage>)) -> bool {
    &&& v.flows.dom().contains(closed.0)
    &&& v.flows[closed.0].network == network
    &&& flows::message_view(closed.1) == flows::bare_message(
        network,
        v.flows[closed.0].peer,
        closed.0,
        FLAG_CLOSE,
    )
}

/// `closed` names every flow that has ended between `v` and `after`, once, with what
/// its peer is told.
pub open spec fn all_told(
    v: FlowsView,
    after: FlowsView,
    network: NetId,
    closed: Seq<(u32, Option<FlowMessage>)>,
) -> bool {
    &&& forall|i: int|
        0 <= i < closed.len() ==> is_notice(v, network, #[trigger] closed[i])
            && !after.flows.dom().contains(closed[i].0)
    &&& forall|i: int, j: int|
        0 <= i < j < closed.len() ==> (#[trigger] closed[i]).0 != (#[trigger] closed[j]).0
    &&& forall|id: u32| #[trigger]
        v.flows.dom().contains(id) && !after.flows.dom().contains(id) ==> exists|i: int|
            0 <= i < closed.len() && (#[trigger] closed[i]).0 == id
}

/// Ends the flows with peers that have left a network.
fn close_left(mgr: &mut FlowManager, network: &NetId, left: &Vec<(u64, Option<u64>)>) -> (closed: Vec<
    (u32, Option<FlowMessage>),
>)
    ensures
        final(mgr)@ == without_left(old(mgr)@, *network, left@),
        all_told(old(mgr)@, final(mgr)@, *network, closed@),
{
    let ghost before = mgr@;
    let mut closed: Vec<(u32, Option<FlowMessage>)> = Vec::new();
    let mut n: usize = 0;
    while n < left.len()
        invariant
            n <= left@.len(),
            mgr@ == without_left(before, *network, left@.take(n as int)),
            all_told(before, mgr@, *network, closed@),
        decreases left@.len() - n,
    {
        let ghost now = mgr@;
        let ghost closed0 = closed@;
        assert(left@.take(n + 1).drop_last() =~= left@.take(n as int));
        assert(left@.take(n + 1).last() == left@[n as int]);
        let mut some = mgr.close_peer(network, left[n].0);
        let ghost gone = some@;
        closed.append(&mut some);
        proof {
            assert(closed@ =~= closed0 + gone);
            assert forall|i: int| 0 <= i < closed@.len() implies is_notice(
                before,
                *network,
                #[trigger] closed@[i],
            ) && !mgr@.flows.dom().contains(closed@[i].0) by {
                flows::lemma_leaving_is_scoped(now, *network, left@[n as int].0, closed@[i].0);
                if i < closed0.len() {
                    assert(closed@[i] == closed0[i]);
                } else {
                    let g = gone[i - closed0.len()];
                    assert(closed@[i] == g);
                    assert(now.is_with(g.0, *network, left@[n as int].0));
                    lemma_without_left(before, *network, left@.take(n as int), g.0);
                }
            }
            assert forall|i: int, j: int| 0 <= i < j < closed@.len() implies (
            #[trigger] closed@[i]).0 != (#[trigger] closed@[j]).0 by {
                if j < closed0.len() {
                    assert(closed@[i] == closed0[i] && closed@[j] == closed0[j]);
                } else {
                    let g = gone[j - closed0.len()];
                    assert(closed@[j] == g);
                    assert(now.is_with(g.0, *network, left@[n as int].0));
                    if i < closed0.len() {
                        assert(closed@[i] == closed0[i]);
                    } else {
                        assert(closed@[i] == gone[i - closed0.len()]);
                    }
                }
            }
            assert forall|id: u32| #[trigger]
                before.flows.dom().contains(id) && !mgr@.flows.dom().contains(id) implies exists|i: int|
                0 <= i < closed@.len() && (#[trigger] closed@[i]).0 == id by {
                if !now.flows.dom().contains(id) {
                    let i = choose|i: int| 0 <= i < closed0.len() && (#[trigger] closed0[i]).0 == id;
                    assert(closed@[i] == closed0[i]);
                } else {
                    flows::lemma_leaving_is_scoped(now, *network, left@[n as int].0, id);
                    assert(now.is_with(id, *network, left@[n as int].0));
                    let i = choose|i: int| 0 <= i < gone.len() && (#[trigger] gone[i]).0 == id;
                    assert(closed@[closed0.len() + i] == gone[i]);
                }
            }
        }
        n += 1;
    }
    assert(left@.take(n as int) =~= left@);
    closed
}

/// The services after settings have named some, for networks that the node takes
/// part in.
pub open spec fn exposed(
    exposes: Map<u128, Seq<ExposeRule>>,
    networks: Set<u128>,
    list: Seq<NetworkExposes>,
) -> Map<u128, Seq<ExposeRule>>
    decreases list.len(),
{
    if list.len() == 0 {
        exposes
    } else {
        let before = exposed(exposes, networks, list.drop_last());
        let n = list.last();
        if networks.contains(n.network_id.key() as u128) {
            before.insert(n.network_id.key() as u128, n.rules@)
        } else {
            before
        }
    }
}

fn copy_services(list: &Vec<ExposeRule>) -> (copy: Vec<ExposeRule>)
    ensures
        copy@ == list@,
{
    let mut copy: Vec<ExposeRule> = Vec::new();
    let mut i: usize = 0;
    while i < list.len()
        invariant
            i <= list@.len(),
            copy@ == list@.take(i as int),
        decreases list@.len() - i,
    {
        copy.push(list[i].clone());
        assert(list@.take(i + 1) =~= list@.take(i as int).push(list@[i as int]));
        i += 1;
    }
    assert(list@.take(i as int) =~= list@);
    copy
}

/// The policies that settings name.
pub open spec fn peer_policies_of(s: DeviceSettings) -> Seq<PeerPolicy> {
    match s.peer_policies {
        Some(list) => list@,
        None => Seq::empty(),
    }
}

/// The general policy that settings name.
pub open spec fn policy_of(s: DeviceSettings) -> PathPolicy {
    match s.path_policy {
        Some(p) => p,
        None => PathPolicy::Auto,
    }
}

/// The services that settings name.
pub open spec fn exposes_of(s: DeviceSettings) -> Seq<NetworkExposes> {
    match s.exposes {
        Some(list) => list@,
        None => Seq::empty(),
    }
}

/// What settings make of the peers: the policies are in force, and each peer is on
/// the path that its policy asks for.
pub open spec fn policies_in_force(before: MeshView, after: MeshView, s: DeviceSettings) -> bool {
    &&& after == (MeshView {
        policy: policy_of(s),
        overrides: engine::overrides_of(peer_policies_of(s)),
        peers: after.peers,
        ..before
    })
    &&& after.peers.dom() == before.peers.dom()
    &&& forall|k: (u128, u64)| #[trigger]
        before.peers.dom().contains(k) ==> after.peers[k] == (PeerView {
            path: before.peers[k].path_under(after.policy_for(k.1)),
            ..before.peers[k]
        })
}

impl Node {
    /// Puts into force what takes no restart: the policies, and the services.
    fn put_in_force(&mut self, settings: &DeviceSettings) -> (report: (Vec<String>, bool))
        requires
            old(self).mesh@.wf(),
        ensures
            final(self).mesh@.wf(),
            final(self).runtime == old(self).runtime,
            final(self).heartbeat == old(self).heartbeat,
            final(self).stop == old(self).stop,
            policies_in_force(old(self).mesh@, final(self).mesh@, *settings),
            final(self).flows@ == (FlowsView {
                exposes: exposed(
                    old(self).flows@.exposes,
                    old(self).mesh@.networks.dom(),
                    exposes_of(*settings),
                ),
                ..old(self).flows@
            }),
            text::texts(report.0@) == engine::misnamed(peer_policies_of(*settings)),
            report.1 == (policy_of(*settings) == PathPolicy::RelayTcp || exists|k: (u128, u64)| #[trigger]
                old(self).mesh@.peers.dom().contains(k) && final(self).mesh@.policy_for(k.1)
                    == PathPolicy::RelayTcp),
    {
        let ghost before = self.flows@;
        let general = match settings.path_policy {
            Some(p) => p,
            None => PathPolicy::Auto,
        };
        let none: Vec<PeerPolicy> = Vec::new();
        assert(none@ =~= Seq::empty());
        let report = match &settings.peer_policies {
            Some(list) => self.mesh.set_policies(general, list),
            None => self.mesh.set_policies(general, &none),
        };
        let ghost mesh = self.mesh@;
        if let Some(list) = &settings.exposes {
            let mut i: usize = 0;
            assert(self.flows@ == (FlowsView {
                exposes: exposed(before.exposes, mesh.networks.dom(), list@.take(0)),
                ..before
            }));
            while i < list.len()
                invariant
                    i <= list@.len(),
                    self.mesh@ == mesh,
                    self.runtime == old(self).runtime,
                    self.heartbeat == old(self).heartbeat,
                    self.stop == old(self).stop,
                    self.flows@ == (FlowsView {
                        exposes: exposed(before.exposes, mesh.networks.dom(), list@.take(i as int)),
                        ..before
                    }),
                decreases list@.len() - i,
            {
                assert(list@.take(i + 1).drop_last() =~= list@.take(i as int));
                assert(list@.take(i + 1).last() == list@[i as int]);
                if self.mesh.has_network(&list[i].network_id) {
                    let rules = copy_services(&list[i].rules);
                    self.flows.set_exposes(&list[i].network_id, rules);
                }
                i += 1;
            }
            assert(list@.take(i as int) =~= list@);
        }
        report
    }

    /// Puts the settings into force that the node starts with.
    pub fn start_with(&mut self, settings: &DeviceSettings) -> (report: (Vec<String>, bool))
        requires
            old(self).mesh@.wf(),
        ensures
            final(self).mesh@.wf(),
            final(self).runtime == old(self).runtime,
            final(self).heartbeat == old(self).heartbeat,
            final(self).stop == old(self).stop,
            policies_in_force(old(self).mesh@, final(self).mesh@, *settings),
            final(self).flows@ == (FlowsView {
                exposes: exposed(
                    old(self).flows@.exposes,
                    old(self).mesh@.networks.dom(),
                    exposes_of(*settings),
                ),
                ..old(self).flows@
            }),
            text::texts(report.0@) == engine::misnamed(peer_policies_of(*settings)),
            report.1 == (policy_of(*settings) == PathPolicy::RelayTcp || exists|k: (u128, u64)| #[trigger]
                old(self).mesh@.peers.dom().contains(k) && final(self).mesh@.policy_for(k.1)
                    == PathPolicy::RelayTcp),
    {
        self.put_in_force(settings)
    }

    /// Takes settings from the server. What is not newer than what is in force is
    /// passed over. What takes a restart stops the node, and is left for the next
    /// start to acknowledge; the rest is in force at once either way.
    pub fn apply_settings(&mut self, settings: &DeviceSettings) -> (report: SettingsReport)
        requires
            old(self).mesh@.wf(),
        ensures
            final(self).mesh@.wf(),
            final(self).heartbeat == old(self).heartbeat,
            final(self).runtime.same_start(old(self).runtime),
            final(self).runtime.roster == old(self).runtime.roster,
            report.applied == (if old(self).runtime.applied_revision >= settings.revision as u64 {
                Applied::Known
            } else if old(self).runtime.needs_restart(*settings) {
                Applied::Restart
            } else {
                Applied::InForce
            }),
            final(self).runtime.applied_revision == (if report.applied is InForce {
                settings.revision as u64
            } else {
                old(self).runtime.applied_revision
            }),
            final(self).runtime.restart_pending == (old(self).runtime.restart_pending
                || report.applied is Restart),
            final(self).stop.stopping == (old(self).stop.stopping || report.applied is Restart),
            final(self).stop.reason == (if report.applied is Restart && !old(self).stop.stopping
                && old(self).stop.reason is None {
                Some(StopReason::Restart)
            } else {
                old(self).stop.reason
            }),
            report.applied is Known ==> final(self).mesh@ == old(self).mesh@ && final(self).flows@ == old(
                self,
            ).flows@ && report.skipped@.len() == 0 && !report.relay_tcp,
            !(report.applied is Known) ==> {
                &&& final(self).flows@ == (FlowsView {
                    exposes: exposed(
                        old(self).flows@.exposes,
                        old(self).mesh@.networks.dom(),
                        exposes_of(*settings),
                    ),
                    ..old(self).flows@
                })
                &&& text::texts(report.skipped@) == engine::misnamed(peer_policies_of(*settings))
                &&& report.relay_tcp == (policy_of(*settings) == PathPolicy::RelayTcp || exists|
                    k: (u128, u64),
                | #[trigger]
                    old(self).mesh@.peers.dom().contains(k) && final(self).mesh@.policy_for(k.1)
                        == PathPolicy::RelayTcp)
                &&& report.applied is InForce ==> policies_in_force(
                    old(self).mesh@,
                    final(self).mesh@,
                    *settings,
                )
                &&& report.applied is Restart ==> policies_in_force(
                    old(self).mesh@,
                    (MeshView { stopping: old(self).mesh@.stopping, ..final(self).mesh@ }),
                    *settings,
                ) && final(self).mesh@.stopping
            },
    {
        if !self.runtime.is_news(settings.revision) {
            return SettingsReport { applied: Applied::Known, skipped: Vec::new(), relay_tcp: false };
        }
        let (skipped, relay_tcp) = self.put_in_force(settings);
        let ghost mid = self.mesh@;
        let applied = self.runtime.apply(settings);
        if applied == Applied::Restart {
            self.stop.request_stop(StopReason::Restart);
            self.mesh.stop();
            assert((MeshView { stopping: mid.stopping, ..self.mesh@ }) == mid);
        }
        SettingsReport { applied, skipped, relay_tcp }
    }

    /// Brings the peers of a network in line with the server's list, and ends the
    /// flows with those that are gone.
    pub fn refresh(&mut self, network: &NetId, list: &Vec<PeerInfo>) -> (report: (
        Refreshed,
        Vec<(u32, Option<FlowMessage>)>,
    ))
        requires
            old(self).mesh@.wf(),
        ensures
            final(self).mesh@.wf(),
            final(self).runtime == old(self).runtime,
            final(self).heartbeat == old(self).heartbeat,
            final(self).stop == old(self).stop,
            engine::refreshed(old(self).mesh@, *network, list@, final(self).mesh@.peers),
            final(self).mesh@.networks == (if old(self).mesh@.networks.dom().contains(
                network.key() as u128,
            ) {
                old(self).mesh@.networks.insert(
                    network.key() as u128,
                    engine::NetworkView {
                        ip_map: engine::addresses_of(list@),
                        ..old(self).mesh@.networks[network.key() as u128]
                    },
                )
            } else {
                old(self).mesh@.networks
            }),
            final(self).mesh@ == (MeshView {
                peers: final(self).mesh@.peers,
                networks: final(self).mesh@.networks,
                ..old(self).mesh@
            }),
            forall|d: u64|
                #![trigger report.0.joined@.contains(d)]
                report.0.joined@.contains(d) <==> final(self).mesh@.peers.dom().contains(
                    engine::peer_key(*network, d),
                ) && !old(self).mesh@.peers.dom().contains(engine::peer_key(*network, d)),
            forall|d: u64, link: Option<u64>|
                #![trigger report.0.left@.contains((d, link))]
                report.0.left@.contains((d, link)) <==> old(self).mesh@.peers.dom().contains(
                    engine::peer_key(*network, d),
                ) && !final(self).mesh@.peers.dom().contains(engine::peer_key(*network, d)) && old(
                    self,
                ).mesh@.peers[engine::peer_key(*network, d)].link == link,
            report.0.joined@ == engine::newcomers(old(self).mesh@, *network, list@),
            engine::one_each(report.0.left@),
            final(self).flows@ == without_left(old(self).flows@, *network, report.0.left@),
            all_told(old(self).flows@, final(self).flows@, *network, report.1@),
    {
        let refreshed = self.mesh.refresh_network(network, list);
        let closed = close_left(&mut self.flows, network, &refreshed.left);
        (refreshed, closed)
    }

    /// Ends the networks that the server does not list any more, the sessions in
    /// them, and the flows of those sessions.
    #[verifier::spinoff_prover]
    #[verifier::rlimit(40)]
    pub fn prune(&mut self) -> (report: Vec<(Pruned, Vec<(u32, Option<FlowMessage>)>)>)
        requires
            old(self).mesh@.wf(),
        ensures
            final(self).mesh@.wf(),
            final(self).runtime == old(self).runtime,
            final(self).heartbeat == old(self).heartbeat,
            final(self).stop == old(self).stop,
            final(self).mesh@ == (MeshView {
                peers: final(self).mesh@.peers,
                networks: final(self).mesh@.networks,
                ..old(self).mesh@
            }),
            final(self).mesh@.networks == old(self).mesh@.networks.restrict(
                old(self).runtime.roster@.to_set(),
            ),
            forall|k: (u128, u64)| #[trigger]
                final(self).mesh@.peers.dom().contains(k) <==> old(self).mesh@.peers.dom().contains(k)
                    && !engine::is_stale(old(self).mesh@, old(self).runtime.roster@.to_set(), k.0),
            forall|k: (u128, u64)| #[trigger]
                final(self).mesh@.peers.dom().contains(k) ==> final(self).mesh@.peers[k] == old(
                    self,
                ).mesh@.peers[k],
            forall|i: int|
                0 <= i < report@.len() ==> engine::ends(old(self).mesh@, (#[trigger] report@[i]).0),
            forall|n: u128| #[trigger]
                engine::is_stale(old(self).mesh@, old(self).runtime.roster@.to_set(), n) ==> exists|
                    i: int,
                |
                    0 <= i < report@.len() && (#[trigger] report@[i]).0.network.key() == n,
            forall|i: int|
                0 <= i < report@.len() ==> !old(self).runtime.roster@.contains(
                    (#[trigger] report@[i]).0.network.key() as u128,
                ),
            forall|i: int, j: int|
                0 <= i < j < report@.len() ==> (#[trigger] report@[i]).0.network.key() != (
                #[trigger] report@[j]).0.network.key(),
            final(self).flows@ == without_pruned(old(self).flows@, report@),
            each_told(old(self).flows@, report@),
    {
        let roster = network_set(&self.runtime.roster);
        let ended = self.mesh.prune(&roster);
        let ghost list = ended@;
        let ghost before = self.flows@;
        let mut report: Vec<(Pruned, Vec<(u32, Option<FlowMessage>)>)> = Vec::new();
        let mut rest = ended;
        let ghost mesh = self.mesh@;
        let mut i: usize = 0;
        let n = rest.len();
        while i < n
            invariant
                i <= n,
                n == list.len(),
                rest@ == list.skip(i as int),
                report@.len() == i,
                self.mesh@ == mesh,
                self.runtime == old(self).runtime,
                self.heartbeat == old(self).heartbeat,
                self.stop == old(self).stop,
                forall|j: int| 0 <= j < i ==> (#[trigger] report@[j]).0 == list[j],
                self.flows@ == without_pruned(before, report@),
                each_told(before, report@),
            decreases n - i,
        {
            let ghost report0 = report@;
            let one = rest.remove(0);
            assert(one == list[i as int]);
            assert(rest@ =~= list.skip(i + 1));
            let closed = close_left(&mut self.flows, &one.network, &one.peers);
            report.push((one, closed));
            assert(report@ == report0.push((one, closed)));
            proof {
                lemma_told_step(before, report0, one, closed);
            }
            i += 1;
        }
        proof {
            assert forall|j: int| 0 <= j < report@.len() implies engine::ends(
                old(self).mesh@,
                (#[trigger] report@[j]).0,
            ) by {
                assert(report@[j].0 == list[j]);
            }
            assert forall|j: int| 0 <= j < report@.len() implies !old(self).runtime.roster@.contains(
                (#[trigger] report@[j]).0.network.key() as u128,
            ) by {
                assert(report@[j].0 == list[j]);
                assert(old(self).runtime.roster@.to_set().contains(
                    list[j].network.key() as u128,
                ) == old(self).runtime.roster@.contains(list[j].network.key() as u128));
            }
            assert forall|x: int, y: int| 0 <= x < y < report@.len() implies (
            #[trigger] report@[x]).0.network.key() != (#[trigger] report@[y]).0.network.key() by {
                assert(report@[x].0 == list[x]);
                assert(report@[y].0 == list[y]);
            }
            assert forall|k: u128| #[trigger]
                engine::is_stale(old(self).mesh@, old(self).runtime.roster@.to_set(), k) implies exists|
                j: int,
            |
                0 <= j < report@.len() && (#[trigger] report@[j]).0.network.key() == k by {
                let j = choose|j: int| 0 <= j < list.len() && (#[trigger] list[j]).network.key() == k;
                assert(report@[j].0 == list[j]);
            }
        }
        report
    }
}

/// The flows without those in networks that have ended.
pub open spec fn without_pruned(
    v: FlowsView,
    ended: Seq<(Pruned, Vec<(u32, Option<FlowMessage>)>)>,
) -> FlowsView
    decreases ended.len(),
{
    if ended.len() == 0 {
        v
    } else {
        without_left(
            without_pruned(v, ended.drop_last()),
            ended.last().0.network,
            ended.last().0.peers@,
        )
    }
}

/// Network by network, the flows that have ended are named, each once, with what their
/// peers are told.
pub open spec fn each_told(v: FlowsView, ended: Seq<(Pruned, Vec<(u32, Option<FlowMessage>)>)>) -> bool {
    forall|i: int|
        0 <= i < ended.len() ==> all_told(
            without_pruned(v, ended.take(i)),
            without_pruned(v, ended.take(i + 1)),
            (#[trigger] ended[i]).0.network,
            ended[i].1@,
        )
}

proof fn lemma_told_step(
    v: FlowsView,
    ended: Seq<(Pruned, Vec<(u32, Option<FlowMessage>)>)>,
    one: Pruned,
    closed: Vec<(u32, Option<FlowMessage>)>,
)
    requires
        each_told(v, ended),
        all_told(
            without_pruned(v, ended),
            without_left(without_pruned(v, ended), one.network, one.peers@),
            one.network,
            closed@,
        ),
    ensures
        each_told(v, ended.push((one, closed))),
        without_pruned(v, ended.push((one, closed))) == without_left(
            without_pruned(v, ended),
            one.network,
            one.peers@,
        ),
{
    let more = ended.push((one, closed));
    let n = ended.len() as int;
    assert(more.drop_last() =~= ended);
    assert(more.take(n) =~= ended);
    assert(more.take(n + 1) =~= more);
    assert forall|j: int| 0 <= j < more.len() implies all_told(
        without_pruned(v, more.take(j)),
        without_pruned(v, more.take(j + 1)),
        (#[trigger] more[j]).0.network,
        more[j].1@,
    ) by {
        if j < n {
            assert(more[j] == ended[j]);
            assert(more.take(j) =~= ended.take(j));
            assert(more.take(j + 1) =~= ended.take(j + 1));
        }
    }
}

/// The entry of a list of services is for a network.
pub open spec fn names_network(list: Seq<NetworkExposes>, i: int, net: u128) -> bool {
    0 <= i < list.len() && list[i].network_id.key() as u128 == net
}

/// A network that the node takes part in has the services that the settings name for it,
/// and keeps those that it has where they name none. The last of several entries counts.
/// A network that the node takes no part in gets none.
pub proof fn lemma_services_as_settings_say(
    before: Map<u128, Seq<ExposeRule>>,
    networks: Set<u128>,
    list: Seq<NetworkExposes>,
    net: u128,
)
    ensures
        !networks.contains(net) || (forall|i: int| !(#[trigger] names_network(list, i, net))) ==> exposed(
            before,
            networks,
            list,
        ).dom().contains(net) == before.dom().contains(net) && exposed(before, networks, list)[net]
            == before[net],
        forall|i: int| #[trigger]
            names_network(list, i, net) && networks.contains(net) && (forall|j: int|
                i < j ==> !names_network(list, j, net)) ==> exposed(before, networks, list).dom().contains(net)
                && exposed(before, networks, list)[net] == list[i].rules@,
    decreases list.len(),
{
    if list.len() > 0 {
        let rest = list.drop_last();
        let last = list.len() - 1;
        lemma_services_as_settings_say(before, networks, rest, net);
        assert forall|i: int| i < last implies #[trigger] names_network(rest, i, net) == names_network(
            list,
            i,
            net,
        ) by {}
        if forall|i: int| !(#[trigger] names_network(list, i, net)) {
            assert(!names_network(list, last, net));
            assert forall|i: int| !(#[trigger] names_network(rest, i, net)) by {
                if i < last {
                    assert(!names_network(list, i, net));
                }
            }
        }
        assert forall|i: int| #[trigger]
            names_network(list, i, net) && networks.contains(net) && (forall|j: int|
                i < j ==> !names_network(list, j, net)) implies exposed(before, networks, list).dom().contains(
            net,
        ) && exposed(before, networks, list)[net] == list[i].rules@ by {
            if i < last {
                assert(!names_network(list, last, net));
                assert(names_network(rest, i, net));
                assert forall|j: int| i < j implies !names_network(rest, j, net) by {
                    if j < last {
                        assert(!names_network(list, j, net));
                    }
                }
            }
        }
    }
}

/// Settings that name no policy ask for `Auto`, and for no peer in particular.
pub proof fn lemma_settings_without_policies(s: DeviceSettings)
    ensures
        s.path_policy is None ==> policy_of(s) == PathPolicy::Auto,
        s.path_policy matches Some(p) ==> policy_of(s) == p,
        s.peer_policies is None ==> engine::overrides_of(peer_policies_of(s)).dom() == Set::<u64>::empty(),
        s.peer_policies matches Some(list) ==> peer_policies_of(s) == list@,
        s.exposes is None ==> exposes_of(s).len() == 0,
        s.exposes matches Some(list) ==> exposes_of(s) == list@,
{
    if s.peer_policies is None {
        assert(engine::overrides_of(peer_policies_of(s)).dom() =~= Set::<u64>::empty());
    }
}

/// Once settings are in force, a peer is on the path that its policy asks for: that of
/// the last entry for it, or else the general one. Nothing else of it changes.
pub proof fn lemma_policy_takes_hold(before: MeshView, after: MeshView, s: DeviceSettings, k: (u128, u64))
    requires
        policies_in_force(before, after, s),
        before.peers.dom().contains(k),
    ensures
        ({
            let own = engine::overrides_of(peer_policies_of(s));
            let policy = if own.dom().contains(k.1) {
                own[k.1]
            } else if s.path_policy is Some {
                s.path_policy->0
            } else {
                PathPolicy::Auto
            };
            let p = before.peers[k];
            let q = after.peers[k];
            &&& after.peers.dom().contains(k)
            &&& policy == PathPolicy::RelayUdp ==> q.path == PathKind::RelayUdp
            &&& policy == PathPolicy::RelayTcp ==> q.path == PathKind::RelayTcp
            &&& policy == PathPolicy::DirectUdp ==> q.path == PathKind::DirectUdp
            &&& policy == PathPolicy::DirectTcp ==> q.path == PathKind::DirectTcp
            &&& policy == PathPolicy::DirectAny ==> q.path == p.path
            &&& policy == PathPolicy::Auto && p.path != PathKind::RelayTcp ==> q.path == p.path
            &&& q.codec == p.codec && q.link == p.link && q.direct == p.direct && q.endpoints == p.endpoints
                && q.last_pong_ms == p.last_pong_ms && q.online == p.online
            &&& after.networks == before.networks && after.stopping == before.stopping
        }),
{
}

/// The peer of a flow that has ended is told so, and no other is: in the network of the
/// flow, under its id, and with nothing else said.
pub proof fn lemma_notice_goes_to_the_peer(v: FlowsView, network: NetId, closed: (u32, Option<FlowMessage>))
    requires
        is_notice(v, network, closed),
    ensures
        v.flows.dom().contains(closed.0) && v.flows[closed.0].network == network,
        closed.1 matches Some(m) ==> m@.network == network && m@.peer == v.flows[closed.0].peer && flow::parsed_flow(
            m@.payload,
        ) == Some((closed.0, 4u8, Seq::<u8>::empty())),
        closed.1 is Some,
{
    flow::lemma_flow_round_trip(closed.0, 4, Seq::empty());
}

/// The flow is one with a peer of a network that has ended.
pub open spec fn flow_ended(
    v: FlowsView,
    ended: Seq<(Pruned, Vec<(u32, Option<FlowMessage>)>)>,
    id: u32,
) -> bool {
    exists|i: int|
        0 <= i < ended.len() && flow_left(v, (#[trigger] ended[i]).0.network, ended[i].0.peers@, id)
}

/// The networks that end take with them the flows with the peers in them, and no others.
pub proof fn lemma_ended_networks_take_their_flows(
    v: FlowsView,
    ended: Seq<(Pruned, Vec<(u32, Option<FlowMessage>)>)>,
    id: u32,
)
    ensures
        without_pruned(v, ended).flows.dom().contains(id) <==> v.flows.dom().contains(id) && !flow_ended(
            v,
            ended,
            id,
        ),
        without_pruned(v, ended).flows.dom().contains(id) ==> without_pruned(v, ended).flows[id] == v.flows[id],
        without_pruned(v, ended).exposes == v.exposes,
        without_pruned(v, ended).connecting == v.connecting,
    decreases ended.len(),
{
    if ended.len() > 0 {
        let front = ended.drop_last();
        let last = ended.last();
        let mid = without_pruned(v, front);
        lemma_ended_networks_take_their_flows(v, front, id);
        lemma_without_left(mid, last.0.network, last.0.peers@, id);
        if flow_ended(v, front, id) {
            let i = choose|i: int|
                0 <= i < front.len() && flow_left(v, (#[trigger] front[i]).0.network, front[i].0.peers@, id);
            assert(ended[i] == front[i]);
        }
        if flow_left(v, last.0.network, last.0.peers@, id) {
            assert(ended[ended.len() - 1] == last);
            if mid.flows.dom().contains(id) {
                let j = choose|j: int|
                    0 <= j < last.0.peers@.len() && v.is_with(id, last.0.network, (#[trigger] last.0.peers@[j]).0);
                assert(mid.is_with(id, last.0.network, last.0.peers@[j].0));
            }
        }
        if mid.flows.dom().contains(id) && flow_left(mid, last.0.network, last.0.peers@, id) {
            let j = choose|j: int|
                0 <= j < last.0.peers@.len() && mid.is_with(id, last.0.network, (#[trigger] last.0.peers@[j]).0);
            assert(v.is_with(id, last.0.network, last.0.peers@[j].0));
            assert(ended[ended.len() - 1] == last);
        }
        if flow_ended(v, ended, id) && !flow_ended(v, front, id) {
            let i = choose|i: int|
                0 <= i < ended.len() && flow_left(v, (#[trigger] ended[i]).0.network, ended[i].0.peers@, id);
            if i < front.len() {
                assert(front[i] == ended[i]);
            }
        }
    }
}

/// Whoever had a flow that has ended is told, once; nobody is told of a flow that goes
/// on.
pub proof fn lemma_each_end_is_told_once(
    v: FlowsView,
    after: FlowsView,
    network: NetId,
    closed: Seq<(u32, Option<FlowMessage>)>,
    id: u32,
    i: int,
    j: int,
)
    requires
        all_told(v, after, network, closed),
    ensures
        v.flows.dom().contains(id) && !after.flows.dom().contains(id) ==> exists|n: int|
            0 <= n < closed.len() && (#[trigger] closed[n]).0 == id && is_notice(v, network, closed[n]),
        0 <= i < closed.len() ==> !after.flows.dom().contains(closed[i].0) && v.flows.dom().contains(closed[i].0),
        0 <= i < closed.len() && 0 <= j < closed.len() && closed[i].0 == closed[j].0 ==> i == j,
{
    if v.flows.dom().contains(id) && !after.flows.dom().contains(id) {
        let n = choose|n: int| 0 <= n < closed.len() && (#[trigger] closed[n]).0 == id;
        assert(is_notice(v, network, closed[n]));
    }
    if 0 <= i < closed.len() {
        assert(is_notice(v, network, closed[i]));
    }
}

} // verus!
