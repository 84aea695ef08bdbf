//! What a running node says of itself, in its status file and in its log.

use vstd::prelude::*;

use crate::addr;
use crate::addr::{decimal_text, ipv4_to_text, signed_text};
use crate::heartbeat;
use crate::ipam;
use crate::ipam::{subnets_overlap, Cidr};
use crate::models::{ForwardRule, NetId, NetworkStatus, PeerStatus, StatusReport};
use crate::text;
use crate::text::{join, owned};

verus! {

/// A truth value in words.
pub open spec fn bool_text(b: bool) -> Seq<char> {
    if b {
        "true"@
    } else {
        "false"@
    }
}

/// The log line on a peer.
pub open spec fn stats_text(p: PeerStatus, uptime: i64) -> Seq<char> {
    "STATS peer="@ + p.name@ + " net="@ + p.network@ + " ip="@ + p.ip@ + " online="@ + bool_text(p.online)
        + " path="@ + p.path@ + " ep="@ + p.endpoint@ + " rtt_ms="@ + addr::signed_decimal(
        p.rtt_ms as int,
    ) + " tx="@ + addr::decimal(p.tx_bytes as nat) + " rx="@ + addr::decimal(p.rx_bytes as nat)
        + " tx_pkts="@ + addr::decimal(p.tx_packets as nat) + " rx_pkts="@ + addr::decimal(
        p.rx_packets as nat,
    ) + " uptime_s="@ + addr::signed_decimal(uptime as int)
}

/// The log line on a peer.
pub fn stats_line(p: &PeerStatus, uptime: i64) -> (line: String)
    ensures
        line@ == stats_text(*p, uptime),
{
    let mut line = owned("STATS peer=");
    line.append(p.name.as_str());
    line.append(" net=");
    line.append(p.network.as_str());
    line.append(" ip=");
    line.append(p.ip.as_str());
    line.append(" online=");
    line.append(
        if p.online {
            "true"
        } else {
            "false"
        },
    );
    line.append(" path=");
    line.append(p.path.as_str());
    line.append(" ep=");
    line.append(p.endpoint.as_str());
    line.append(" rtt_ms=");
    line.append(signed_text(p.rtt_ms).as_str());
    line.append(" tx=");
    line.append(decimal_text(p.tx_bytes).as_str());
    line.append(" rx=");
    line.append(decimal_text(p.rx_bytes).as_str());
    line.append(" tx_pkts=");
    line.append(decimal_text(p.tx_packets).as_str());
    line.append(" rx_pkts=");
    line.append(decimal_text(p.rx_packets).as_str());
    line.append(" uptime_s=");
    line.append(signed_text(uptime).as_str());
    line
}

/// The log line of a node without peers.
pub fn no_peers_line(uptime: i64) -> (line: String)
    ensures
        line@ == "STATS peers=0 uptime_s="@ + addr::signed_decimal(uptime as int),
{
    join("STATS peers=0 uptime_s=", signed_text(uptime).as_str())
}

/// What the status file says of a network.
pub fn network_status(name: &str, self_ip: Option<u32>, cidr: &Option<Cidr>) -> (status: NetworkStatus)
    ensures
        status.network@ == name@,
        status.ip@ == (match self_ip {
            Some(ip) => addr::ipv4_text(ip),
            None => Seq::empty(),
        }),
        status.cidr@ == (match *cidr {
            Some(c) => c.text(),
            None => Seq::empty(),
        }),
{
    NetworkStatus {
        network: owned(name),
        ip: match self_ip {
            Some(ip) => ipv4_to_text(ip),
            None => String::new(),
        },
        cidr: match cidr {
            Some(c) => c.to_string(),
            None => String::new(),
        },
    }
}

/// A forwarding rule in the status file.
pub open spec fn forward_text(r: ForwardRule) -> Seq<char> {
    r.proto@ + " "@ + r.listen@ + "->"@ + r.dest@
}

fn forward_lines(rules: &Vec<ForwardRule>) -> (lines: Vec<String>)
    ensures
        text::texts(lines@) == rules@.map_values(|r: ForwardRule| forward_text(r)),
{
    let ghost want = rules@.map_values(|r: ForwardRule| forward_text(r));
    let mut lines: Vec<String> = Vec::new();
    let mut i: usize = 0;
    assert(text::texts(lines@) =~= want.take(0));
    while i < rules.len()
        invariant
            i <= rules@.len(),
            want == rules@.map_values(|r: ForwardRule| forward_text(r)),
            text::texts(lines@) == want.take(i as int),
        decreases rules@.len() - i,
    {
        let mut line = owned(rules[i].proto.as_str());
        line.append(" ");
        line.append(rules[i].listen.as_str());
        line.append("->");
        line.append(rules[i].dest.as_str());
        let ghost before = text::texts(lines@);
        let ghost text = line@;
        lines.push(line);
        assert(text::texts(lines@) =~= before.push(text));
        assert(want.take(i + 1) =~= want.take(i as int).push(want[i as int]));
        i += 1;
    }
    assert(want.take(i as int) =~= want);
    lines
}

/// Whole seconds between two times in milliseconds.
pub open spec fn seconds_between(from_ms: i64, to_ms: i64) -> int {
    let d = to_ms - from_ms;
    if d >= 0 {
        d / 1000
    } else {
        -((-d) / 1000)
    }
}

/// Whole seconds that a node has been up.
pub fn uptime_secs(started_ms: i64, now_ms: i64) -> (secs: i64)
    requires
        i64::MIN <= now_ms - started_ms <= i64::MAX,
    ensures
        secs == seconds_between(started_ms, now_ms),
{
    let d: i64 = now_ms - started_ms;
    if d >= 0 {
        d / 1000
    } else if d == i64::MIN {
        -9_223_372_036_854_775
    } else {
        -((-d) / 1000)
    }
}

/// Puts the status file together.
pub fn status_report(
    pid: u32,
    started_ms: i64,
    uptime_sec: i64,
    server: &str,
    mode: &str,
    networks: Vec<NetworkStatus>,
    udp_port: u16,
    observed_endpoint: Option<String>,
    socks_port: u16,
    forwards: &Vec<ForwardRule>,
    peers: Vec<PeerStatus>,
) -> (report: StatusReport)
    ensures
        report.running,
        report.pid == pid,
        report.started_at == started_ms,
        report.uptime_sec == uptime_sec,
        report.server@ == server@,
        report.mode@ == mode@,
        report.networks == networks,
        report.udp_port == udp_port,
        report.observed_endpoint == observed_endpoint,
        socks_port == 0 ==> report.socks is None,
        socks_port != 0 ==> report.socks is Some && report.socks->0@ == "127.0.0.1:"@ + addr::decimal(
            socks_port as nat,
        ),
        text::texts(report.forwards@) == forwards@.map_values(|r: ForwardRule| forward_text(r)),
        report.peers == peers,
{
    let socks = if socks_port > 0 {
        Some(join("127.0.0.1:", decimal_text(socks_port as u64).as_str()))
    } else {
        None
    };
    StatusReport {
        running: true,
        pid,
        started_at: started_ms,
        uptime_sec,
        server: owned(server),
        networks,
        mode: owned(mode),
        udp_port,
        observed_endpoint,
        socks,
        forwards: forward_lines(forwards),
        peers,
    }
}

/// What is said of two networks whose subnets overlap.
pub open spec fn overlap_text(an: Seq<char>, a: Cidr, bn: Seq<char>, b: Cidr) -> Seq<char> {
    "警告：网络 "@ + an + "（"@ + a.text() + "）与 "@ + bn + "（"@ + b.text()
        + "）网段重叠，虚拟 IP 解析将取先命中者"@
}

/// A network with its subnet, as values.
pub open spec fn named_subnet(n: (NetId, String, Option<Cidr>)) -> (Seq<char>, Option<Cidr>) {
    (n.1@, n.2)
}

/// The warnings on one network and those before it.
pub open spec fn warnings_on(list: Seq<(Seq<char>, Option<Cidr>)>, i: int, j: int) -> Seq<Seq<char>>
    decreases j - i,
{
    if j <= i || i < 0 || j > list.len() {
        Seq::empty()
    } else {
        let before = warnings_on(list, i, j - 1);
        match (list[i], list[j - 1]) {
            ((an, Some(a)), (bn, Some(b))) => if j - 1 > i && ipam::overlap(a, b) {
                before.push(overlap_text(an, a, bn, b))
            } else {
                before
            },
            _ => before,
        }
    }
}

/// The warnings on the first `n` networks, each with those behind it.
pub open spec fn warnings(list: Seq<(Seq<char>, Option<Cidr>)>, n: int) -> Seq<Seq<char>>
    decreases n,
{
    if n <= 0 {
        Seq::empty()
    } else {
        warnings(list, n - 1) + warnings_on(list, n - 1, list.len() as int)
    }
}

/// Warns of networks whose subnets overlap.
pub fn overlap_warnings(list: &Vec<(NetId, String, Option<Cidr>)>) -> (lines: Vec<String>)
    requires
        forall|i: int|
            0 <= i < list@.len() ==> ((#[trigger] list@[i]).2 matches Some(c) ==> c.prefix <= 32),
    ensures
        text::texts(lines@) == warnings(
            list@.map_values(|n: (NetId, String, Option<Cidr>)| named_subnet(n)),
            list@.len() as int,
        ),
{
    let ghost nets = list@.map_values(|n: (NetId, String, Option<Cidr>)| named_subnet(n));
    let mut lines: Vec<String> = Vec::new();
    let mut i: usize = 0;
    assert(text::texts(lines@) =~= warnings(nets, 0));
    while i < list.len()
        invariant
            i <= list@.len(),
            nets == list@.map_values(|n: (NetId, String, Option<Cidr>)| named_subnet(n)),
            text::texts(lines@) == warnings(nets, i as int),
            forall|k: int|
                0 <= k < list@.len() ==> ((#[trigger] list@[k]).2 matches Some(c) ==> c.prefix <= 32),
        decreases list@.len() - i,
    {
        let ghost done = warnings(nets, i as int);
        let mut j: usize = i + 1;
        proof {
            assert(warnings_on(nets, i as int, i as int) =~= Seq::empty());
            assert(warnings_on(nets, i as int, i + 1) =~= Seq::empty());
            assert(done + Seq::<Seq<char>>::empty() =~= done);
        }
        while j < list.len()
            invariant
                i < j <= list@.len(),
                nets == list@.map_values(|n: (NetId, String, Option<Cidr>)| named_subnet(n)),
                text::texts(lines@) == done + warnings_on(nets, i as int, j as int),
                forall|k: int|
                    0 <= k < list@.len() ==> ((#[trigger] list@[k]).2 matches Some(c) ==> c.prefix
                        <= 32),
            decreases list@.len() - j,
        {
            let ghost so_far = warnings_on(nets, i as int, j as int);
            assert(nets[i as int] == named_subnet(list@[i as int]));
            assert(nets[j as int] == named_subnet(list@[j as int]));
            if let (Some(a), Some(b)) = (&list[i].2, &list[j].2) {
                if subnets_overlap(a, b) {
                    let mut line = owned("警告：网络 ");
                    line.append(list[i].1.as_str());
                    line.append("（");
                    line.append(a.to_string().as_str());
                    line.append("）与 ");
                    line.append(list[j].1.as_str());
                    line.append("（");
                    line.append(b.to_string().as_str());
                    line.append("）网段重叠，虚拟 IP 解析将取先命中者");
                    let ghost text = line@;
                    let ghost before = text::texts(lines@);
                    lines.push(line);
                    assert(text::texts(lines@) =~= before.push(text));
                    assert(before.push(text) =~= done + so_far.push(text));
                }
            }
            j += 1;
        }
        i += 1;
    }
    lines
}

/// Every how many reports the statistics are logged.
pub const STATS_ROUNDS: u64 = 60;

/// A report was written, after `rounds` others: how many there are now, and whether the
/// statistics are to be logged with it.
pub fn after_report(rounds: u64) -> (next: (u64, bool))
    ensures
        next.0 == heartbeat::next_round(rounds),
        next.1 == (rounds % STATS_ROUNDS == 0),
{
    let now: u64 = if rounds == u64::MAX {
        0
    } else {
        rounds + 1
    };
    (now, rounds % STATS_ROUNDS == 0)
}

/// Seconds are whole and rounded towards nothing, and count the other way for a clock
/// that went back.
pub proof fn lemma_whole_seconds(from_ms: i64, to_ms: i64)
    ensures
        from_ms <= to_ms ==> 0 <= seconds_between(from_ms, to_ms) && seconds_between(from_ms, to_ms) * 1000
            <= to_ms - from_ms < seconds_between(from_ms, to_ms) * 1000 + 1000,
        seconds_between(from_ms, to_ms) == -seconds_between(to_ms, from_ms),
{
}

/// The line on a peer tells its fields one after the other, each behind its name.
pub proof fn lemma_line_tells_the_fields(p: PeerStatus, uptime: i64)
    ensures
        stats_text(p, uptime) == "STATS peer="@ + p.name@ + " net="@ + p.network@ + " ip="@ + p.ip@ + " online="@
            + (if p.online {
            "true"@
        } else {
            "false"@
        }) + " path="@ + p.path@ + " ep="@ + p.endpoint@ + " rtt_ms="@ + addr::signed_decimal(p.rtt_ms as int)
            + " tx="@ + addr::decimal(p.tx_bytes as nat) + " rx="@ + addr::decimal(p.rx_bytes as nat)
            + " tx_pkts="@ + addr::decimal(p.tx_packets as nat) + " rx_pkts="@ + addr::decimal(
            p.rx_packets as nat,
        ) + " uptime_s="@ + addr::signed_decimal(uptime as int),
{
}

/// A warning names both networks, each with its subnet, in the order of the list.
pub proof fn lemma_warning_names_both(an: Seq<char>, a: Cidr, bn: Seq<char>, b: Cidr)
    ensures
        overlap_text(an, a, bn, b) == "警告：网络 "@ + an + "（"@ + addr::ipv4_text(a.network) + seq!['/']
            + addr::decimal(a.prefix as nat) + "）与 "@ + bn + "（"@ + addr::ipv4_text(b.network) + seq!['/']
            + addr::decimal(b.prefix as nat) + "）网段重叠，虚拟 IP 解析将取先命中者"@,
{
    assert(overlap_text(an, a, bn, b) =~= "警告：网络 "@ + an + "（"@ + addr::ipv4_text(a.network) + seq!['/']
        + addr::decimal(a.prefix as nat) + "）与 "@ + bn + "（"@ + addr::ipv4_text(b.network) + seq!['/']
        + addr::decimal(b.prefix as nat) + "）网段重叠，虚拟 IP 解析将取先命中者"@);
}

/// Two networks whose subnets have an address in common.
pub open spec fn clash(list: Seq<(Seq<char>, Option<Cidr>)>, i: int, j: int) -> bool {
    0 <= i < j < list.len() && list[i].1 is Some && list[j].1 is Some && exists|ip: u32|
        #[trigger] ipam::holds(list[i].1->0, ip) && ipam::holds(list[j].1->0, ip)
}

/// There is a warning for every two networks whose subnets have an address in common,
/// and no other.
pub proof fn lemma_every_clash_is_warned_of(list: Seq<(Seq<char>, Option<Cidr>)>, line: Seq<char>)
    requires
        forall|i: int| 0 <= i < list.len() ==> ((#[trigger] list[i]).1 matches Some(c) ==> c.wf()),
    ensures
        warnings(list, list.len() as int).contains(line) <==> exists|i: int, j: int| #[trigger]
            clash(list, i, j) && line == overlap_text(list[i].0, list[i].1->0, list[j].0, list[j].1->0),
{
    lemma_warnings_up_to(list, list.len() as int, line);
}

proof fn lemma_warnings_up_to(list: Seq<(Seq<char>, Option<Cidr>)>, n: int, line: Seq<char>)
    requires
        0 <= n <= list.len(),
        forall|i: int| 0 <= i < list.len() ==> ((#[trigger] list[i]).1 matches Some(c) ==> c.wf()),
    ensures
        warnings(list, n).contains(line) <==> exists|i: int, j: int|
            i < n && #[trigger] clash(list, i, j) && line == overlap_text(
                list[i].0,
                list[i].1->0,
                list[j].0,
                list[j].1->0,
            ),
    decreases n,
{
    if n > 0 {
        lemma_warnings_up_to(list, n - 1, line);
        lemma_warnings_on_one(list, n - 1, list.len() as int, line);
        let a = warnings(list, n - 1);
        let b = warnings_on(list, n - 1, list.len() as int);
        if a.contains(line) {
            let k = choose|k: int| 0 <= k < a.len() && a[k] == line;
            assert((a + b)[k] == line);
        }
        if b.contains(line) {
            let k = choose|k: int| 0 <= k < b.len() && b[k] == line;
            assert((a + b)[a.len() + k] == line);
        }
        if (a + b).contains(line) {
            let k = choose|k: int| 0 <= k < (a + b).len() && (a + b)[k] == line;
            if k < a.len() {
                assert(a[k] == line);
            } else {
                assert(b[k - a.len()] == line);
            }
        }
    }
}

proof fn lemma_warnings_on_one(list: Seq<(Seq<char>, Option<Cidr>)>, i: int, n: int, line: Seq<char>)
    requires
        0 <= i,
        0 <= n <= list.len(),
        forall|k: int| 0 <= k < list.len() ==> ((#[trigger] list[k]).1 matches Some(c) ==> c.wf()),
    ensures
        warnings_on(list, i, n).contains(line) <==> exists|j: int|
            j < n && #[trigger] clash(list, i, j) && line == overlap_text(
                list[i].0,
                list[i].1->0,
                list[j].0,
                list[j].1->0,
            ),
    decreases n,
{
    if n > i {
        lemma_warnings_on_one(list, i, n - 1, line);
        let before = warnings_on(list, i, n - 1);
        let now = warnings_on(list, i, n);
        if list[i].1 is Some && list[n - 1].1 is Some {
            ipam::lemma_overlap_is_a_shared_address(list[i].1->0, list[n - 1].1->0);
        }
        if now != before {
            let last = overlap_text(list[i].0, list[i].1->0, list[n - 1].0, list[n - 1].1->0);
            assert(now == before.push(last));
            assert(clash(list, i, n - 1));
            if before.contains(line) {
                let k = choose|k: int| 0 <= k < before.len() && before[k] == line;
                assert(now[k] == line);
            }
            if line == last {
                assert(now[before.len() as int] == line);
            }
            if now.contains(line) {
                let k = choose|k: int| 0 <= k < now.len() && now[k] == line;
                if k < before.len() {
                    assert(before[k] == line);
                }
            }
        } else if clash(list, i, n - 1) {
            assert(now.len() == before.len() + 1);
        }
    }
}

/// A forwarding rule is shown as its protocol, where it listens, and where it leads.
pub proof fn lemma_rule_is_shown(r: ForwardRule)
    ensures
        forward_text(r) == r.proto@ + " "@ + r.listen@ + "->"@ + r.dest@,
{
}

} // verus!
