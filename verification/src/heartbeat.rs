//! What a node tells the server about its links, and how often.

use vstd::prelude::*;

use crate::consts::{HEARTBEAT_MAX_SECS, HEARTBEAT_MIN_SECS, HEARTBEAT_SLOW_SECS, PROTOCOL_VERSION};
use crate::models::{ClientMode, HeartbeatRequest, HeartbeatResponse, PeerPathReport};
use crate::session;

verus! {

/// The counters of a peer at the last report.
#[derive(Clone, Copy, Debug, PartialEq, Eq, Structural)]
pub struct HbCounters {
    pub tx_bytes: u64,
    pub rx_bytes: u64,
    pub rx_seen: u64,
    pub rx_lost: u64,
}

/// Bytes per second between two counts; nothing if the count went back.
pub open spec fn rate(prev: u64, cur: u64, dt_ms: nat) -> Option<u64> {
    if cur < prev {
        None
    } else {
        Some(((cur - prev) * 1000 / dt_ms as int) as u64)
    }
}

/// Bytes per second, sent and received. Nothing without an earlier count, or
/// within less than a second of it.
pub open spec fn rates(prev: Option<(u64, u64)>, cur: (u64, u64), dt_ms: nat) -> (
    Option<u64>,
    Option<u64>,
) {
    match prev {
        None => (None, None),
        Some(p) => if dt_ms < 1000 {
            (None, None)
        } else {
            (rate(p.0, cur.0, dt_ms), rate(p.1, cur.1, dt_ms))
        },
    }
}

fn one_rate(prev: u64, cur: u64, dt_ms: u128) -> (bps: Option<u64>)
    requires
        dt_ms >= 1000,
    ensures
        bps == rate(prev, cur, dt_ms as nat),
{
    if cur < prev {
        return None;
    }
    let scaled: u128 = (cur - prev) as u128 * 1000;
    let bps: u128 = scaled / dt_ms;
    proof {
        let d = (cur - prev) as int;
        assert(d * 1000 / dt_ms as int <= d) by {
            vstd::arithmetic::div_mod::lemma_div_is_ordered_by_denominator(
                d * 1000,
                1000,
                dt_ms as int,
            );
            assert(d * 1000 / 1000 == d);
        }
    }
    Some(bps as u64)
}

/// Bytes per second, sent and received, over `dt_ms` milliseconds.
pub fn rate_bps(prev: Option<(u64, u64)>, cur: (u64, u64), dt_ms: u128) -> (bps: (
    Option<u64>,
    Option<u64>,
))
    ensures
        bps == rates(prev, cur, dt_ms as nat),
{
    let prev = match prev {
        Some(prev) => prev,
        None => {
            return (None, None);
        },
    };
    if dt_ms < 1000 {
        return (None, None);
    }
    (one_rate(prev.0, cur.0, dt_ms), one_rate(prev.1, cur.1, dt_ms))
}

/// Lost frames out of ten thousand between two counts of received and lost
/// frames. Nothing without an earlier count, without any frame, or if a count
/// went back.
pub open spec fn loss_out_of_ten_thousand(prev: Option<(u64, u64)>, cur: (u64, u64)) -> Option<u16> {
    match prev {
        None => None,
        Some(p) => if cur.0 < p.0 || cur.1 < p.1 {
            None
        } else {
            let lost = cur.1 - p.1;
            let total = cur.0 - p.0 + lost;
            if total == 0 {
                None
            } else {
                Some((lost * 10_000 / total) as u16)
            }
        },
    }
}

/// Lost frames out of ten thousand.
pub fn loss_permille(prev: Option<(u64, u64)>, cur: (u64, u64)) -> (loss: Option<u16>)
    ensures
        loss == loss_out_of_ten_thousand(prev, cur),
        loss matches Some(l) ==> l <= 10_000,
{
    let (p_seen, p_lost) = match prev {
        Some(p) => p,
        None => {
            return None;
        },
    };
    let (c_seen, c_lost) = cur;
    if c_seen < p_seen || c_lost < p_lost {
        return None;
    }
    let lost: u128 = (c_lost - p_lost) as u128;
    let total: u128 = (c_seen - p_seen) as u128 + lost;
    if total == 0 {
        return None;
    }
    let share: u128 = lost * 10_000 / total;
    proof {
        lemma_share(lost as int, total as int);
    }
    Some(share as u16)
}

proof fn lemma_share(lost: int, total: int)
    requires
        0 <= lost <= total,
        total > 0,
    ensures
        0 <= lost * 10_000 / total <= 10_000,
{
    vstd::arithmetic::div_mod::lemma_div_is_ordered(lost * 10_000, total * 10_000, total);
    vstd::arithmetic::div_mod::lemma_div_multiples_vanish(10_000, total);
    assert(total * 10_000 == 10_000 * total);
    vstd::arithmetic::div_mod::lemma_div_pos_is_pos(lost * 10_000, total);
}

/// An interval that the server may ask for.
pub open spec fn clamped(secs: u32) -> u32 {
    if secs < HEARTBEAT_MIN_SECS {
        HEARTBEAT_MIN_SECS
    } else if secs > HEARTBEAT_MAX_SECS {
        HEARTBEAT_MAX_SECS
    } else {
        secs
    }
}

fn clamp_secs(secs: u32) -> (kept: u32)
    ensures
        kept == clamped(secs),
        HEARTBEAT_MIN_SECS <= kept <= HEARTBEAT_MAX_SECS,
{
    if secs < HEARTBEAT_MIN_SECS {
        HEARTBEAT_MIN_SECS
    } else if secs > HEARTBEAT_MAX_SECS {
        HEARTBEAT_MAX_SECS
    } else {
        secs
    }
}

/// The milliseconds between two log lines about failing heartbeats.
pub const ERROR_LOG_INTERVAL_MS: i64 = 60_000;

/// How the heartbeats go.
pub struct Heartbeat {
    pub secs: u32,
    pub failures: u64,
    pub last_error_log_ms: i64,
    /// The node's address as the server sees it.
    pub observed_endpoint: Option<String>,
}

/// What a heartbeat that went through changes.
#[derive(Debug, Clone, Copy, PartialEq, Eq)]
pub struct HeartbeatChange {
    /// The interval before and after, if it changed.
    pub interval: Option<(u32, u32)>,
    /// How many heartbeats had failed before, if any.
    pub recovered: Option<u64>,
}

impl Heartbeat {
    /// Nothing was heard yet.
    pub fn new() -> (hb: Heartbeat)
        ensures
            hb.secs == HEARTBEAT_SLOW_SECS,
            hb.failures == 0,
            hb.last_error_log_ms == 0,
            hb.observed_endpoint is None,
    {
        Heartbeat {
            secs: HEARTBEAT_SLOW_SECS,
            failures: 0,
            last_error_log_ms: 0,
            observed_endpoint: None,
        }
    }

    /// Seconds until the next heartbeat.
    pub fn interval(&self) -> (secs: u32)
        ensures
            secs == clamped(self.secs),
            HEARTBEAT_MIN_SECS <= secs <= HEARTBEAT_MAX_SECS,
    {
        clamp_secs(self.secs)
    }

    /// Takes in the server's answer.
    pub fn on_response(&mut self, response: HeartbeatResponse) -> (change: HeartbeatChange)
        ensures
            final(self).secs == clamped(response.heartbeat_secs),
            final(self).failures == 0,
            final(self).last_error_log_ms == old(self).last_error_log_ms,
            final(self).observed_endpoint == (match response.observed_udp_endpoint {
                Some(e) => Some(e),
                None => old(self).observed_endpoint,
            }),
            change.interval == (if old(self).secs != clamped(response.heartbeat_secs) {
                Some((old(self).secs, clamped(response.heartbeat_secs)))
            } else {
                None
            }),
            change.recovered == (if old(self).failures > 0 {
                Some(old(self).failures)
            } else {
                None
            }),
    {
        if let Some(endpoint) = response.observed_udp_endpoint {
            self.observed_endpoint = Some(endpoint);
        }
        let want = clamp_secs(response.heartbeat_secs);
        let was = self.secs;
        self.secs = want;
        let failed = self.failures;
        self.failures = 0;
        HeartbeatChange {
            interval: if was != want {
                Some((was, want))
            } else {
                None
            },
            recovered: if failed > 0 {
                Some(failed)
            } else {
                None
            },
        }
    }

    /// Takes note of a heartbeat that failed. Where a log line is due, the number
    /// of failures comes back.
    pub fn on_error(&mut self, now_ms: i64) -> (logged: Option<u64>)
        ensures
            final(self).failures == session::counter_sum(old(self).failures, 1),
            final(self).secs == old(self).secs,
            final(self).observed_endpoint == old(self).observed_endpoint,
            now_ms - old(self).last_error_log_ms > ERROR_LOG_INTERVAL_MS ==> logged == Some(
                session::counter_sum(old(self).failures, 1),
            ) && final(self).last_error_log_ms == now_ms,
            now_ms - old(self).last_error_log_ms <= ERROR_LOG_INTERVAL_MS ==> logged is None
                && final(self).last_error_log_ms == old(self).last_error_log_ms,
    {
        self.failures = self.failures.wrapping_add(1);
        if now_ms as i128 - self.last_error_log_ms as i128 > ERROR_LOG_INTERVAL_MS as i128 {
            self.last_error_log_ms = now_ms;
            Some(self.failures)
        } else {
            None
        }
    }
}

/// Puts a heartbeat together.
pub fn heartbeat_request(
    local_addrs: Vec<String>,
    udp_port: u16,
    tcp_port: u16,
    paths: Vec<PeerPathReport>,
    applied_revision: u64,
    restart_pending: bool,
    mode: ClientMode,
    node_version: String,
) -> (request: HeartbeatRequest)
    ensures
        request.local_addrs == local_addrs,
        request.listen_udp_port == Some(udp_port),
        request.listen_tcp_port == (if tcp_port > 0 {
            Some(tcp_port)
        } else {
            None
        }),
        request.paths == Some(paths),
        request.settings_revision == Some(applied_revision as i64),
        request.restart_pending == Some(restart_pending),
        request.mode == Some(mode),
        request.proto_version == Some(PROTOCOL_VERSION),
        request.node_version == Some(node_version),
{
    HeartbeatRequest {
        local_addrs,
        listen_udp_port: Some(udp_port),
        listen_tcp_port: if tcp_port > 0 {
            Some(tcp_port)
        } else {
            None
        },
        paths: Some(paths),
        settings_revision: Some(applied_revision as i64),
        restart_pending: Some(restart_pending),
        mode: Some(mode),
        proto_version: Some(PROTOCOL_VERSION),
        node_version: Some(node_version),
    }
}

/// Every how many heartbeats the node registers with its relays again.
pub const RELAY_ROUNDS: u64 = 2;

/// One more round. The count starts over when it is full.
pub open spec fn next_round(rounds: u64) -> u64 {
    if rounds == u64::MAX {
        0
    } else {
        (rounds + 1) as u64
    }
}

/// A heartbeat was sent, after `rounds` others: how many there are now, and whether the
/// node is to register with its relays again.
pub fn after_heartbeat(rounds: u64) -> (next: (u64, bool))
    ensures
        next.0 == next_round(rounds),
        next.1 == (next_round(rounds) % RELAY_ROUNDS == 0),
{
    let now: u64 = if rounds == u64::MAX {
        0
    } else {
        rounds + 1
    };
    (now, now % RELAY_ROUNDS == 0)
}

/// Of two heartbeats in a row, one registers with the relays.
pub proof fn lemma_every_second_heartbeat_registers(rounds: u64)
    ensures
        (next_round(rounds) % RELAY_ROUNDS == 0) != (next_round(next_round(rounds)) % RELAY_ROUNDS == 0),
{
}

/// The server's wish is kept where it lies between five seconds and a minute; a wish
/// beyond that is met as nearly as can be.
pub proof fn lemma_interval_is_the_nearest(secs: u32, other: u32)
    requires
        5 <= other <= 60,
    ensures
        5 <= clamped(secs) <= 60,
        5 <= secs <= 60 ==> clamped(secs) == secs,
        secs <= other ==> clamped(secs) <= other,
        secs >= other ==> clamped(secs) >= other,
{
}

/// A rate is told if and only if there is an earlier count, at least a second old, that
/// is not larger. It is the whole number of bytes for each second that went by.
pub proof fn lemma_rate_is_bytes_over_time(prev: (u64, u64), cur: (u64, u64), dt_ms: nat)
    ensures
        rates(None, cur, dt_ms) == (None::<u64>, None::<u64>),
        rates(Some(prev), cur, dt_ms).0 is Some <==> dt_ms >= 1000 && prev.0 <= cur.0,
        rates(Some(prev), cur, dt_ms).1 is Some <==> dt_ms >= 1000 && prev.1 <= cur.1,
        rates(Some(prev), cur, dt_ms).0 matches Some(bps) ==> bps * dt_ms <= (cur.0 - prev.0) * 1000 < (bps
            + 1) * dt_ms,
        rates(Some(prev), cur, dt_ms).1 matches Some(bps) ==> bps * dt_ms <= (cur.1 - prev.1) * 1000 < (bps
            + 1) * dt_ms,
{
    if dt_ms >= 1000 {
        if prev.0 <= cur.0 {
            lemma_rate_bounds(cur.0 - prev.0, dt_ms as int);
        }
        if prev.1 <= cur.1 {
            lemma_rate_bounds(cur.1 - prev.1, dt_ms as int);
        }
    }
}

proof fn lemma_rate_bounds(d: int, dt: int)
    requires
        0 <= d <= u64::MAX,
        dt >= 1000,
    ensures
        0 <= d * 1000 / dt <= u64::MAX,
        (d * 1000 / dt) * dt <= d * 1000 < (d * 1000 / dt + 1) * dt,
{
    let q = d * 1000 / dt;
    vstd::arithmetic::div_mod::lemma_fundamental_div_mod(d * 1000, dt);
    vstd::arithmetic::div_mod::lemma_mod_bound(d * 1000, dt);
    vstd::arithmetic::div_mod::lemma_div_pos_is_pos(d * 1000, dt);
    vstd::arithmetic::div_mod::lemma_div_is_ordered_by_denominator(d * 1000, 1000, dt);
    assert(dt * q == q * dt) by (nonlinear_arith);
    assert((q + 1) * dt == q * dt + dt) by (nonlinear_arith);
}

/// The share of lost frames is told if and only if any frame came or was lost since the
/// earlier count, and no count went back. It is none where nothing was lost, ten thousand
/// where nothing came, and in between it is the share of all, rounded down.
pub proof fn lemma_loss_is_the_share(prev: (u64, u64), cur: (u64, u64))
    ensures
        loss_out_of_ten_thousand(None, cur) is None,
        loss_out_of_ten_thousand(Some(prev), cur) is Some <==> prev.0 <= cur.0 && prev.1 <= cur.1 && prev
            != cur,
        loss_out_of_ten_thousand(Some(prev), cur) matches Some(share) ==> {
            let came = cur.0 - prev.0;
            let lost = cur.1 - prev.1;
            &&& share <= 10_000
            &&& lost == 0 ==> share == 0
            &&& came == 0 ==> share == 10_000
            &&& share * (came + lost) <= lost * 10_000 < (share + 1) * (came + lost)
        },
{
    if prev.0 <= cur.0 && prev.1 <= cur.1 && prev != cur {
        let lost = cur.1 - prev.1;
        let total = cur.0 - prev.0 + lost;
        lemma_share(lost, total);
        let q = lost * 10_000 / total;
        vstd::arithmetic::div_mod::lemma_fundamental_div_mod(lost * 10_000, total);
        vstd::arithmetic::div_mod::lemma_mod_bound(lost * 10_000, total);
        assert(total * q == q * total) by (nonlinear_arith);
        assert((q + 1) * total == q * total + total) by (nonlinear_arith);
        if lost == 0 {
            assert(q == 0) by (nonlinear_arith)
                requires
                    q * total <= 0,
                    q >= 0,
                    total > 0,
            ;
        }
        if cur.0 == prev.0 {
            assert(q == 10_000) by (nonlinear_arith)
                requires
                    q * total <= total * 10_000 < (q + 1) * total,
                    total > 0,
            ;
        }
    }
}

/// The rounds are counted one by one.
pub proof fn lemma_rounds_are_counted(rounds: u64)
    ensures
        rounds < u64::MAX ==> next_round(rounds) == rounds + 1,
        rounds == u64::MAX ==> next_round(rounds) == 0,
{
}

} // verus!
