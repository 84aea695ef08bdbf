//! How a device becomes a node: what it asks the server, and the configuration
//! that comes of the answer.

use vstd::prelude::*;

use crate::addr;
use crate::addr::parse_ipv4;
use crate::consts::DEFAULT_LISTEN_PORT;
use crate::control;
use crate::control::server_base;
use crate::crypto::node_keys::NodeKeys;
use crate::crypto::primitives;
use crate::crypto::primitives::hex_encode;
use crate::crypto::tokens;
use crate::crypto::tokens::{lower, split_token};
use crate::ipam;
use crate::ipam::Cidr;
use crate::models;
use crate::models::{ClientMode, EnrollRequest, EnrollResponse, Identity, MembershipInfo, NodeConfig};
use crate::runtime;
use crate::secret::Secret;
use crate::text;
use crate::text::{chars_of, join, owned};
use crate::tls_verifier;
use crate::tls_verifier::{TrustState, TrustView};

verus! {

/// What the device asks the server.
pub fn enroll_request(token: &str, name: &str, keys: &NodeKeys, requested_ip: Option<String>) -> (request: EnrollRequest)
    ensures
        request.token@ == token@,
        request.name@ == name@,
        request.sign_pubkey@ == primitives::hex_text(keys.sign_public@),
        request.dh_pubkey@ == primitives::hex_text(keys.dh_public@),
        request.requested_ip == requested_ip,
{
    EnrollRequest {
        token: owned(token),
        name: owned(name),
        sign_pubkey: keys.sign_public_hex(),
        dh_pubkey: keys.dh_public_hex(),
        requested_ip,
    }
}

/// A text in lowercase, ASCII letters only.
pub open spec fn lowered(s: Seq<char>) -> Seq<char> {
    s.map_values(|c: char| tokens::ascii_lower(c))
}

fn to_lower(s: &str) -> (low: String)
    ensures
        low@ == lowered(s@),
{
    let chars = chars_of(s);
    let mut low = String::new();
    let mut i: usize = 0;
    while i < chars.len()
        invariant
            i <= chars@.len(),
            chars@ == s@,
            low@ == lowered(s@.take(i as int)),
        decreases chars@.len() - i,
    {
        low.push(lower(chars[i]));
        assert(low@ =~= lowered(s@.take(i + 1)));
        i += 1;
    }
    assert(s@.take(i as int) =~= s@);
    low
}

/// The fingerprint to fix: that of the token, or the one that was trusted on first
/// use.
pub fn chosen_pin(token: &str, tofu: Option<String>) -> (pin: Option<String>)
    ensures
        match tokens::split_spec(token@).1 {
            Some(fp) => pin is Some && pin->0@ == lowered(fp),
            None => pin == tofu,
        },
{
    let (_bare, fingerprint) = split_token(token);
    match fingerprint {
        Some(fp) => Some(to_lower(fp.as_str())),
        None => tofu,
    }
}

/// What a device trusts when it reaches the server for the first time: the
/// certificate that the token names, and no other. Only a token without a
/// fingerprint leaves it to the first contact.
pub fn first_contact(token: &str) -> (trust: TrustState)
    ensures
        trust@.tofu is None,
        match tokens::split_spec(token@).1 {
            Some(fp) => trust@.pin == Some(lowered(fp)),
            None => trust@.pin is None,
        },
{
    TrustState { pin: chosen_pin(token, None), tofu_fingerprint: None }
}

/// A token with a fingerprint leaves nothing to the first contact: a certificate
/// with another fingerprint is refused, whoever vouches for it, and refusing it
/// changes nothing.
pub proof fn lemma_first_contact_refuses_others(
    fingerprint: Seq<char>,
    trust: TrustView,
    cert: Seq<u8>,
    authority: bool,
)
    requires
        trust.pin == Some(lowered(fingerprint)),
    ensures
        trust.shown(tls_verifier::fingerprint(cert), authority).1 is None
            <==> tokens::same_ignoring_case(tls_verifier::fingerprint(cert), fingerprint),
        trust.shown(tls_verifier::fingerprint(cert), authority).0 == trust,
{
    let actual = tls_verifier::fingerprint(cert);
    let low = lowered(fingerprint);
    assert forall|c: char| #[trigger] tokens::ascii_lower(tokens::ascii_lower(c)) == tokens::ascii_lower(
        c,
    ) by {}
    if tokens::same_ignoring_case(actual, low) {
        assert forall|i: int| 0 <= i < actual.len() implies tokens::ascii_lower(#[trigger] actual[i])
            == tokens::ascii_lower(fingerprint[i]) by {
            assert(low[i] == tokens::ascii_lower(fingerprint[i]));
        }
    }
    if tokens::same_ignoring_case(actual, fingerprint) {
        assert forall|i: int| 0 <= i < actual.len() implies tokens::ascii_lower(#[trigger] actual[i])
            == tokens::ascii_lower(low[i]) by {
            assert(low[i] == tokens::ascii_lower(fingerprint[i]));
        }
    }
}

/// The configuration of a device that the server has taken in: how to reach the
/// server, what is particular to the machine, and the identity. Everything else is
/// the server's to say.
pub fn enrolled_config(
    server: &str,
    name: &str,
    answer: &EnrollResponse,
    keys: &NodeKeys,
    pin: Option<String>,
) -> (config: NodeConfig)
    ensures
        config.server@ == control::without_slashes(server@),
        config.mode == ClientMode::Proxy,
        config.mtu == answer.mtu,
        config.data_dir@ == Seq::<char>::empty(),
        config.listen_udp_port == DEFAULT_LISTEN_PORT,
        config.listen_tcp_port == DEFAULT_LISTEN_PORT,
        config.log_file is None,
        config.identity.device_id == answer.device_id,
        config.identity.name@ == name@,
        config.identity.device_token.0@ == answer.device_token@,
        config.identity.server_cert_pin == pin,
        identifies(config.identity, *keys),
{
    NodeConfig {
        server: server_base(server),
        mode: ClientMode::Proxy,
        mtu: answer.mtu,
        data_dir: String::new(),
        listen_udp_port: DEFAULT_LISTEN_PORT,
        listen_tcp_port: DEFAULT_LISTEN_PORT,
        log_file: None,
        identity: Identity {
            device_id: answer.device_id,
            name: owned(name),
            device_token: Secret::new(answer.device_token.clone()),
            sign_public_key: keys.sign_public_hex(),
            sign_private_key: Secret::new(hex_encode(keys.sign_secret.as_slice())),
            dh_public_key: keys.dh_public_hex(),
            dh_private_key: Secret::new(hex_encode(keys.dh_secret.as_slice())),
            server_cert_pin: pin,
        },
    }
}

/// The identity holds these keys.
pub open spec fn identifies(id: Identity, keys: NodeKeys) -> bool {
    &&& id.sign_public_key@ == primitives::hex_text(keys.sign_public@)
    &&& id.sign_private_key.0@ == primitives::hex_text(keys.sign_secret@)
    &&& id.dh_public_key@ == primitives::hex_text(keys.dh_public@)
    &&& id.dh_private_key.0@ == primitives::hex_text(keys.dh_secret@)
}

/// A device that was taken in can start, with the keys that it was taken in with.
pub proof fn lemma_enrolled_identity_starts(id: Identity, keys: NodeKeys)
    requires
        identifies(id, keys),
    ensures
        runtime::identity_error(id) is None,
        primitives::hex_bytes(id.dh_private_key.0@) == keys.dh_secret@,
        primitives::hex_bytes(id.dh_public_key@) == keys.dh_public@,
{
    models::lemma_hex_round_trip(keys.dh_secret@);
    models::lemma_hex_round_trip(keys.dh_public@);
}

/// A file holds an identity: the device is taken in already.
pub fn has_identity(config: &NodeConfig) -> (yes: bool)
    ensures
        yes == (config.identity.device_id != 0),
{
    config.identity.device_id != 0
}

/// Where the log goes.
#[derive(Debug)]
pub enum LogTarget {
    File(String),
    /// A file in this directory, or in the usual one.
    ServiceFile(Option<String>),
    Console,
}

/// Where the log goes: a path that was asked for comes first, then that of the
/// configuration, then the file of the service, then the console alone.
pub fn log_target(explicit: Option<&str>, configured: Option<&str>, as_service: bool, data_dir: &str) -> (target: LogTarget)
    ensures
        match target {
            LogTarget::File(path) => match (explicit, configured) {
                (Some(p), _) => path@ == p@,
                (None, Some(p)) => path@ == p@,
                (None, None) => false,
            },
            LogTarget::ServiceFile(dir) => {
                &&& explicit is None
                &&& configured is None
                &&& as_service
                &&& data_dir@.len() == 0 ==> dir is None
                &&& data_dir@.len() > 0 ==> dir is Some && dir->0@ == data_dir@
            },
            LogTarget::Console => explicit is None && configured is None && !as_service,
        },
{
    if let Some(path) = explicit {
        return LogTarget::File(owned(path));
    }
    if let Some(path) = configured {
        return LogTarget::File(owned(path));
    }
    if as_service {
        if data_dir.is_empty() {
            return LogTarget::ServiceFile(None);
        }
        return LogTarget::ServiceFile(Some(owned(data_dir)));
    }
    LogTarget::Console
}

/// The address and the subnet of the virtual interface.
pub fn tun_network(first: &MembershipInfo) -> (net: Result<(u32, Cidr), String>)
    ensures
        match net {
            Ok((ip, cidr)) => addr::ipv4_value(first.ip@) == Some(ip) && cidr.wf() && ipam::parsed_cidr(
                first.cidr@,
            ) == Ok::<(u32, u32), Seq<char>>((cidr.network, cidr.prefix)),
            Err(e) => (addr::ipv4_value(first.ip@) is None || ipam::parsed_cidr(first.cidr@) is Err) && e@
                == "网络 "@ + first.network_name@ + " 的 IP/网段无效: "@ + first.ip@ + "/"@ + first.cidr@,
        },
{
    match (parse_ipv4(first.ip.as_str()), Cidr::parse(first.cidr.as_str())) {
        (Some(ip), Ok(cidr)) => Ok((ip, cidr)),
        _ => {
            let mut e = join("网络 ", first.network_name.as_str());
            e.append(" 的 IP/网段无效: ");
            e.append(first.ip.as_str());
            e.append("/");
            e.append(first.cidr.as_str());
            Err(e)
        },
    }
}

/// Names with a plus sign between them.
pub open spec fn plus_joined(names: Seq<Seq<char>>) -> Seq<char>
    decreases names.len(),
{
    if names.len() == 0 {
        Seq::empty()
    } else if names.len() == 1 {
        names[0]
    } else {
        plus_joined(names.drop_last()) + "+"@ + names.last()
    }
}

/// The name of a Windows service for networks of these names.
pub open spec fn service_name_of(networks: Seq<Seq<char>>) -> Seq<char> {
    if networks.len() == 0 {
        "Starskiff"@
    } else {
        "Starskiff-"@ + plus_joined(networks)
    }
}

/// The name of a Windows service for these networks.
pub fn windows_service_name(networks: &Vec<String>) -> (name: String)
    ensures
        name@ == service_name_of(text::texts(networks@)),
{
    if networks.len() == 0 {
        return owned("Starskiff");
    }
    let ghost all = text::texts(networks@);
    let mut joined = networks[0].clone();
    assert(all.take(1)[0] == networks@[0]@);
    assert(joined@ =~= plus_joined(all.take(1)));
    let mut i: usize = 1;
    while i < networks.len()
        invariant
            1 <= i <= networks@.len(),
            all == text::texts(networks@),
            joined@ == plus_joined(all.take(i as int)),
        decreases networks@.len() - i,
    {
        assert(all.take(i + 1).drop_last() =~= all.take(i as int));
        assert(all.take(i + 1).last() == networks@[i as int]@);
        joined.append("+");
        joined.append(networks[i].as_str());
        i += 1;
    }
    assert(all.take(i as int) =~= all);
    join("Starskiff-", joined.as_str())
}

/// A text in lowercase is as long as it was, and differs only where an ASCII letter was
/// in uppercase.
pub proof fn lemma_lowered_letter_by_letter(s: Seq<char>, i: int)
    requires
        0 <= i < s.len(),
    ensures
        lowered(s).len() == s.len(),
        'A' <= s[i] <= 'Z' ==> lowered(s)[i] as int == s[i] as int + 32,
        !('A' <= s[i] <= 'Z') ==> lowered(s)[i] == s[i],
        lowered(lowered(s)) == lowered(s),
        tokens::same_ignoring_case(lowered(s), s),
{
    assert(lowered(lowered(s)) =~= lowered(s));
}

/// Names are joined with a plus sign between any two, and none at either end.
pub proof fn lemma_names_are_joined(a: Seq<Seq<char>>, b: Seq<Seq<char>>, name: Seq<char>)
    ensures
        a.len() > 0 && b.len() > 0 ==> plus_joined(a + b) == plus_joined(a) + "+"@ + plus_joined(b),
        plus_joined(seq![name]) == name,
        service_name_of(Seq::empty()) == "Starskiff"@,
        service_name_of(seq![name]) == "Starskiff-"@ + name,
    decreases b.len(),
{
    if a.len() > 0 && b.len() > 0 {
        assert((a + b).drop_last() =~= a + b.drop_last());
        assert((a + b).last() == b.last());
        if b.len() == 1 {
            assert(a + b.drop_last() =~= a);
            assert(plus_joined(a + b) =~= plus_joined(a) + "+"@ + plus_joined(b));
        } else {
            lemma_names_are_joined(a, b.drop_last(), name);
            assert(plus_joined(a + b) =~= plus_joined(a) + "+"@ + plus_joined(b));
        }
    }
}

/// The identity gives back every key that it holds.
pub proof fn lemma_identity_gives_back_the_keys(id: Identity, keys: NodeKeys)
    requires
        identifies(id, keys),
    ensures
        primitives::hex_bytes(id.sign_public_key@) == keys.sign_public@,
        primitives::hex_bytes(id.sign_private_key.0@) == keys.sign_secret@,
        primitives::hex_bytes(id.dh_public_key@) == keys.dh_public@,
        primitives::hex_bytes(id.dh_private_key.0@) == keys.dh_secret@,
{
    models::lemma_hex_round_trip(keys.sign_public@);
    models::lemma_hex_round_trip(keys.sign_secret@);
    models::lemma_hex_round_trip(keys.dh_public@);
    models::lemma_hex_round_trip(keys.dh_secret@);
}

} // verus!
