//! IPv4 subnets and the addresses in them.

use std::collections::HashSet;

use vstd::arithmetic::power2::pow2;
use vstd::prelude::*;

use crate::addr::{decimal_text, find_char, ipv4_to_text, parse_ipv4, read_ipv4, read_number};
use crate::text::{chars_of, join, string_of};
use crate::addr;

verus! {

/// How many addresses a prefix leaves open.
pub open spec fn block(prefix: u32) -> nat {
    pow2((32 - prefix) as nat)
}

/// An IPv4 subnet: its network address and the length of its prefix.
#[derive(Debug, Clone, Copy, PartialEq, Eq, Structural)]
pub struct Cidr {
    pub network: u32,
    pub prefix: u32,
}

/// What is known of the size of a block.
proof fn lemma_block(prefix: u32)
    requires
        prefix <= 32,
    ensures
        0 < block(prefix) <= 0x1_0000_0000,
        prefix == 32 ==> block(prefix) == 1,
        prefix == 31 ==> block(prefix) == 2,
        prefix < 31 ==> block(prefix) >= 4,
        prefix == 0 ==> block(prefix) == 0x1_0000_0000,
        prefix > 0 ==> block(prefix) <= u32::MAX,
{
    vstd::arithmetic::power2::lemma2_to64();
    vstd::arithmetic::power2::lemma_pow2_pos((32 - prefix) as nat);
    if prefix > 0 {
        vstd::arithmetic::power2::lemma_pow2_strictly_increases((32 - prefix) as nat, 32);
    }
    if prefix < 30 {
        vstd::arithmetic::power2::lemma_pow2_strictly_increases(2, (32 - prefix) as nat);
    }
}

/// Masking takes off the remainder of a division by the block.
proof fn lemma_mask(prefix: u32, addr: u32)
    requires
        0 < prefix <= 32,
    ensures
        (u32::MAX << (32 - prefix) as u32) == 0x1_0000_0000 - block(prefix),
        (addr & (u32::MAX << (32 - prefix) as u32)) == addr - addr as nat % block(prefix),
        (addr | !(u32::MAX << (32 - prefix) as u32)) == addr - addr as nat % block(prefix) + block(
            prefix,
        ) - 1,
{
    let s = (32 - prefix) as u32;
    lemma_block(prefix);
    let one = 1u32 << s;
    assert(1u32 << s >= 1 && (1u32 << s) as u64 == 1u64 << s) by (bit_vector)
        requires
            s < 32,
    ;
    vstd::bits::lemma_u32_shl_is_mul(1, s);
    assert(one == block(prefix));
    let low = (one - 1) as u32;
    let mask = u32::MAX << s;
    assert(mask == 0xffff_ffffu32 - low && (addr & mask) + (addr & low) == addr && (addr | !mask)
        == (addr & mask) + low) by (bit_vector)
        requires
            s < 32,
            one == 1u32 << s,
            low + 1 == one,
            mask == 0xffff_ffffu32 << s,
    ;
    vstd::bits::lemma_u32_low_bits_mask_is_mod(addr, s as nat);
    assert(low == vstd::bits::low_bits_mask(s as nat));
}

impl Cidr {
    /// The network address is the first of its block.
    pub open spec fn wf(&self) -> bool {
        self.prefix <= 32 && self.network as nat % block(self.prefix) == 0
    }

    /// The last address of the block.
    pub open spec fn last_addr(&self) -> int {
        self.network - self.network as nat % block(self.prefix) + block(self.prefix) - 1
    }

    /// The subnet as text.
    pub open spec fn text(&self) -> Seq<char> {
        addr::ipv4_text(self.network) + seq!['/'] + addr::decimal(self.prefix as nat)
    }

    /// The subnet of this prefix that holds `network`.
    pub fn new(network: u32, prefix: u32) -> (cidr: Cidr)
        requires
            prefix <= 32,
        ensures
            cidr.wf(),
            cidr.prefix == prefix,
            cidr.network == network - network as nat % block(prefix),
    {
        let mask = Self::mask_of(prefix);
        proof {
            lemma_block(prefix);
            if prefix == 0 {
                assert(network & 0u32 == 0) by (bit_vector);
                vstd::arithmetic::div_mod::lemma_small_mod(network as nat, block(prefix));
            } else {
                lemma_mask(prefix, network);
            }
            lemma_aligned(network as nat, block(prefix));
        }
        Cidr { network: network & mask, prefix }
    }

    /// The mask of a prefix.
    pub fn mask_of(prefix: u32) -> (mask: u32)
        requires
            prefix <= 32,
        ensures
            mask == 0x1_0000_0000 - block(prefix),
            prefix > 0 ==> mask == u32::MAX << (32 - prefix) as u32,
    {
        proof {
            lemma_block(prefix);
            if prefix > 0 {
                lemma_mask(prefix, 0);
            }
        }
        if prefix == 0 {
            0
        } else {
            u32::MAX << (32 - prefix)
        }
    }

    /// The mask of the subnet.
    pub fn netmask(&self) -> (mask: u32)
        requires
            self.prefix <= 32,
        ensures
            mask == 0x1_0000_0000 - block(self.prefix),
            self.prefix > 0 ==> mask == u32::MAX << (32 - self.prefix) as u32,
    {
        Self::mask_of(self.prefix)
    }

    /// The broadcast address.
    pub fn broadcast(&self) -> (addr: u32)
        requires
            self.prefix <= 32,
        ensures
            addr == self.last_addr(),
    {
        let mask = self.netmask();
        proof {
            lemma_block(self.prefix);
            let n = self.network;
            if self.prefix == 0 {
                assert(n | !0u32 == 0xffff_ffff) by (bit_vector);
                vstd::arithmetic::div_mod::lemma_small_mod(n as nat, block(self.prefix));
            } else {
                lemma_mask(self.prefix, n);
            }
        }
        self.network | !mask
    }

    /// How many devices can have an address in the subnet.
    pub fn host_count(&self) -> (count: u64)
        requires
            self.prefix <= 32,
        ensures
            count == (if self.prefix >= 31 {
                block(self.prefix) as int
            } else {
                block(self.prefix) - 2
            }),
    {
        let s: u32 = 32 - self.prefix;
        proof {
            lemma_block(self.prefix);
            assert(s <= 32 ==> (1u64 << s) <= 0x1_0000_0000u64) by (bit_vector);
            vstd::bits::lemma_u64_shl_is_mul(1, s as u64);
            assert((1u64 << s) == (1u64 << (s as u64))) by (bit_vector)
                requires
                    s <= 32,
            ;
        }
        if self.prefix >= 31 {
            1u64 << s
        } else {
            (1u64 << s) - 2
        }
    }

    /// The first address that a device can have.
    pub fn first_host(&self) -> (addr: u32)
        requires
            self.wf(),
        ensures
            addr == self.network + (if self.prefix >= 31 {
                0int
            } else {
                1int
            }),
    {
        proof {
            lemma_block(self.prefix);
            lemma_block_end(self.network as nat, self.prefix);
        }
        if self.prefix >= 31 {
            self.network
        } else {
            self.network + 1
        }
    }

    /// The last address that a device can have.
    pub fn last_host(&self) -> (addr: u32)
        requires
            self.prefix <= 32,
        ensures
            addr == self.last_addr() - (if self.prefix >= 31 {
                0int
            } else {
                1int
            }),
    {
        proof {
            lemma_block(self.prefix);
            lemma_aligned(self.network as nat, block(self.prefix));
        }
        if self.prefix >= 31 {
            self.broadcast()
        } else {
            self.broadcast() - 1
        }
    }

    /// Whether `addr` lies in the subnet.
    pub fn contains(&self, addr: u32) -> (inside: bool)
        requires
            self.prefix <= 32,
        ensures
            inside == (addr - addr as nat % block(self.prefix) == self.network),
    {
        let mask = self.netmask();
        proof {
            lemma_block(self.prefix);
            if self.prefix == 0 {
                assert(addr & 0u32 == 0) by (bit_vector);
                vstd::arithmetic::div_mod::lemma_small_mod(addr as nat, block(self.prefix));
            } else {
                lemma_mask(self.prefix, addr);
            }
        }
        addr & mask == self.network
    }

    /// The network address.
    pub fn network_addr(&self) -> (addr: u32)
        ensures
            addr == self.network,
    {
        self.network
    }

    /// The subnet as text, `a.b.c.d/prefix`.
    pub fn to_string(&self) -> (text: String)
        ensures
            text@ == self.text(),
    {
        let mut text = ipv4_to_text(self.network);
        text.push('/');
        text.append(decimal_text(self.prefix as u64).as_str());
        assert(text@ =~= self.text());
        text
    }

    /// Reads `a.b.c.d/prefix`; host bits are cleared.
    pub fn parse(text: &str) -> (cidr: Result<Cidr, String>)
        ensures
            match cidr {
                Ok(c) => c.wf() && parsed_cidr(text@) == Ok::<(u32, u32), Seq<char>>(
                    (c.network, c.prefix),
                ),
                Err(e) => parsed_cidr(text@) == Err::<(u32, u32), Seq<char>>(e@),
            },
    {
        let chars = chars_of(text);
        let n = chars.len();
        let ghost s = chars@;
        assert(s.subrange(0, n as int) =~= s);
        let k = find_char(chars.as_slice(), 0, n, '/');
        if k == n {
            return Err(join(join("invalid CIDR '", text).as_str(), "': expected a.b.c.d/prefix"));
        }
        assert(s.take(k as int) =~= s.subrange(0, k as int));
        assert(s.skip(k + 1) =~= s.subrange(k + 1, n as int));
        let addr = match read_ipv4(chars.as_slice(), 0, k) {
            Some(bits) => bits,
            None => {
                let part = string_of(chars.as_slice(), 0, k);
                return Err(join(join("invalid IPv4 address '", part.as_str()).as_str(), "'"));
            },
        };
        let prefix = match read_number(chars.as_slice(), k + 1, n, u32::MAX) {
            Some(p) => p,
            None => {
                let part = string_of(chars.as_slice(), k + 1, n);
                return Err(join(join("invalid prefix '", part.as_str()).as_str(), "'"));
            },
        };
        if prefix > 32 {
            let part = decimal_text(prefix as u64);
            return Err(
                join(join("invalid prefix /", part.as_str()).as_str(), ": must be 0..=32"),
            );
        }
        Ok(Cidr::new(addr, prefix))
    }
}

/// What a text says of a subnet: network and prefix, or what is wrong with it.
pub open spec fn parsed_cidr(text: Seq<char>) -> Result<(u32, u32), Seq<char>> {
    let k = addr::first_of(text, '/');
    if k >= text.len() {
        Err("invalid CIDR '"@ + text + "': expected a.b.c.d/prefix"@)
    } else {
        match addr::ipv4_value(text.take(k)) {
            None => Err("invalid IPv4 address '"@ + text.take(k) + "'"@),
            Some(addr) => match addr::signed_number(text.skip(k + 1), u32::MAX as nat) {
                None => Err("invalid prefix '"@ + text.skip(k + 1) + "'"@),
                Some(prefix) => if prefix > 32 {
                    Err("invalid prefix /"@ + addr::decimal(prefix) + ": must be 0..=32"@)
                } else {
                    Ok(
                        (
                            (addr - addr as nat % block(prefix as u32)) as u32,
                            prefix as u32,
                        ),
                    )
                },
            },
        }
    }
}

proof fn lemma_aligned(n: nat, b: nat)
    requires
        b > 0,
    ensures
        n >= n % b,
        ((n - n % b) as nat) % b == 0,
{
    vstd::arithmetic::div_mod::lemma_fundamental_div_mod(n as int, b as int);
    vstd::arithmetic::div_mod::lemma_mod_bound(n as int, b as int);
    let q = n as int / b as int;
    assert(b as int * q >= 0) by (nonlinear_arith)
        requires
            b > 0,
            q >= 0,
    ;
    vstd::arithmetic::div_mod::lemma_mod_multiples_basic(q, b as int);
    assert(b as int * q == q * b as int) by (nonlinear_arith);
}

/// An aligned block of a power of two ends inside the address space.
proof fn lemma_block_end(n: nat, prefix: u32)
    requires
        prefix <= 32,
        n <= u32::MAX,
        n % block(prefix) == 0,
    ensures
        n + block(prefix) <= 0x1_0000_0000,
{
    let b = block(prefix);
    lemma_block(prefix);
    vstd::arithmetic::power2::lemma2_to64();
    vstd::arithmetic::power2::lemma_pow2_adds(prefix as nat, (32 - prefix) as nat);
    let m = pow2(prefix as nat);
    assert(m * b == 0x1_0000_0000);
    vstd::arithmetic::div_mod::lemma_fundamental_div_mod(n as int, b as int);
    let q = n as int / b as int;
    assert(q + 1 <= m) by (nonlinear_arith)
        requires
            b > 0,
            n == b * q,
            n < m * b,
    ;
    assert(n + b <= m * b) by (nonlinear_arith)
        requires
            n == b * q,
            q + 1 <= m,
            b > 0,
    ;
}

/// A subnet holds exactly the addresses from its network address to its
/// broadcast address.
pub proof fn lemma_contains_is_a_range(c: Cidr, addr: u32)
    requires
        c.wf(),
    ensures
        (addr - addr as nat % block(c.prefix) == c.network) == (c.network <= addr <= c.last_addr()),
        c.last_addr() == c.network + block(c.prefix) - 1,
        c.last_addr() <= u32::MAX,
{
    let b = block(c.prefix);
    lemma_block(c.prefix);
    lemma_block_end(c.network as nat, c.prefix);
    vstd::arithmetic::div_mod::lemma_mod_bound(addr as int, b as int);
    if c.network <= addr < c.network + b {
        let r = addr - c.network;
        vstd::arithmetic::div_mod::lemma_add_mod_noop(c.network as int, r as int, b as int);
        vstd::arithmetic::div_mod::lemma_small_mod(r as nat, b);
    }
}

/// Whether an address is in a subnet.
pub open spec fn holds(c: Cidr, addr: u32) -> bool {
    addr - addr as nat % block(c.prefix) == c.network
}

/// Two subnets overlap.
pub open spec fn overlap(a: Cidr, b: Cidr) -> bool {
    holds(a, b.network) || holds(b, a.network)
}

/// Whether two subnets overlap.
pub fn subnets_overlap(a: &Cidr, b: &Cidr) -> (yes: bool)
    requires
        a.prefix <= 32,
        b.prefix <= 32,
    ensures
        yes == overlap(*a, *b),
{
    a.contains(b.network) || b.contains(a.network)
}

/// Two subnets overlap if and only if there is an address that is in both.
pub proof fn lemma_overlap_is_a_shared_address(a: Cidr, b: Cidr)
    requires
        a.wf(),
        b.wf(),
    ensures
        overlap(a, b) <==> exists|ip: u32| #[trigger] holds(a, ip) && holds(b, ip),
{
    lemma_contains_is_a_range(a, b.network);
    lemma_contains_is_a_range(b, a.network);
    lemma_contains_is_a_range(a, a.network);
    lemma_contains_is_a_range(b, b.network);
    lemma_block(a.prefix);
    lemma_block(b.prefix);
    if holds(a, b.network) {
        assert(holds(a, b.network) && holds(b, b.network));
    }
    if holds(b, a.network) {
        assert(holds(a, a.network) && holds(b, a.network));
    }
    if exists|ip: u32| #[trigger] holds(a, ip) && holds(b, ip) {
        let ip = choose|ip: u32| #[trigger] holds(a, ip) && holds(b, ip);
        lemma_contains_is_a_range(a, ip);
        lemma_contains_is_a_range(b, ip);
    }
}

/// A subnet is read as it was written.
pub proof fn lemma_cidr_round_trip(c: Cidr)
    requires
        c.wf(),
    ensures
        parsed_cidr(c.text()) == Ok::<(u32, u32), Seq<char>>((c.network, c.prefix)),
{
    let s = c.text();
    let head = addr::ipv4_text(c.network);
    let k = head.len() as int;
    addr::lemma_ipv4_round_trip(c.network);
    addr::lemma_decimal_value(c.prefix as nat);
    assert forall|j: int| 0 <= j < k implies s[j] != '/' by {
        crate::addr::lemma_ipv4_chars(c.network, j);
        assert(s[j] == head[j]);
    }
    addr::lemma_first_of(s, '/', k);
    assert(s.take(k) =~= head);
    assert(s.skip(k + 1) =~= addr::decimal(c.prefix as nat));
    assert(addr::decimal(c.prefix as nat)[0] != '+');
}

/// Hands out and checks addresses.
pub struct IpPool;

impl IpPool {
    /// The lowest address of the subnet that a device can have and that is not
    /// in use. There is none in a subnet of one or two addresses.
    pub fn allocate(cidr: &Cidr, used: &HashSet<u32>) -> (addr: Option<u32>)
        requires
            cidr.wf(),
        ensures
            match addr {
                Some(a) => {
                    &&& cidr.prefix < 31
                    &&& cidr.network < a < cidr.last_addr()
                    &&& !used@.contains(a)
                    &&& forall|b: u32| cidr.network < b < a ==> used@.contains(b)
                },
                None => cidr.prefix >= 31 || forall|b: u32|
                    cidr.network < b < cidr.last_addr() ==> used@.contains(b),
            },
    {
        broadcast use vstd::std_specs::hash::group_hash_axioms;

        if cidr.prefix >= 31 {
            return None;
        }
        proof {
            lemma_contains_is_a_range(*cidr, 0);
            lemma_block(cidr.prefix);
        }
        let end = cidr.broadcast();
        let mut candidate: u32 = cidr.network + 1;
        while candidate < end
            invariant
                cidr.prefix < 31,
                cidr.network < candidate <= end,
                end == cidr.last_addr(),
                forall|b: u32| cidr.network < b < candidate ==> used@.contains(b),
            decreases end - candidate,
        {
            if !used.contains(&candidate) {
                return Some(candidate);
            }
            candidate += 1;
        }
        None
    }

    /// Checks an address that was asked for. `current` is the address that the
    /// device has, which it may ask for again.
    pub fn validate_manual(
        ip_text: &str,
        cidr: &Cidr,
        used: &HashSet<u32>,
        current: Option<u32>,
    ) -> (addr: Result<u32, String>)
        requires
            cidr.prefix <= 32,
        ensures
            match addr {
                Ok(bits) => manual_choice(ip_text@, *cidr, used@, current) == Ok::<u32, Seq<char>>(
                    bits,
                ),
                Err(e) => manual_choice(ip_text@, *cidr, used@, current) == Err::<u32, Seq<char>>(
                    e@,
                ),
            },
    {
        broadcast use vstd::std_specs::hash::group_hash_axioms;

        let bits = match parse_ipv4(ip_text) {
            Some(bits) => bits,
            None => {
                return Err(join(join("'", ip_text).as_str(), "' 不是合法的 IPv4 地址"));
            },
        };
        let text = ipv4_to_text(bits);
        proof {
            if let Some(b) = addr::ipv4_value(ip_text@) {
                assert(ip_text@ == addr::ipv4_text(b));
            }
        }
        if !cidr.contains(bits) {
            let mut msg = join(text.as_str(), " 不在网段 ");
            msg.append(cidr.to_string().as_str());
            msg.append(" 内");
            return Err(msg);
        }
        if bits == cidr.network {
            return Err(join(text.as_str(), " 是网络地址，不能分配给设备"));
        }
        if cidr.prefix < 31 && bits == cidr.broadcast() {
            return Err(join(text.as_str(), " 是广播地址，不能分配给设备"));
        }
        let own = match current {
            Some(c) => c == bits,
            None => false,
        };
        if !own && used.contains(&bits) {
            return Err(join(text.as_str(), " 已被其他设备占用"));
        }
        Ok(bits)
    }
}

/// What becomes of a request for an address.
pub open spec fn manual_choice(
    text: Seq<char>,
    cidr: Cidr,
    used: Set<u32>,
    current: Option<u32>,
) -> Result<u32, Seq<char>> {
    match addr::ipv4_value(text) {
        None => Err("'"@ + text + "' 不是合法的 IPv4 地址"@),
        Some(bits) => if bits - bits as nat % block(cidr.prefix) != cidr.network {
            Err(text + " 不在网段 "@ + cidr.text() + " 内"@)
        } else if bits == cidr.network {
            Err(text + " 是网络地址，不能分配给设备"@)
        } else if cidr.prefix < 31 && bits == cidr.last_addr() {
            Err(text + " 是广播地址，不能分配给设备"@)
        } else if current != Some(bits) && used.contains(bits) {
            Err(text + " 已被其他设备占用"@)
        } else {
            Ok(bits)
        },
    }
}

/// An address that the pool hands out passes its own check.
pub proof fn lemma_allocated_passes_check(cidr: Cidr, used: Set<u32>, a: u32)
    requires
        cidr.wf(),
        cidr.network < a < cidr.last_addr(),
        !used.contains(a),
    ensures
        manual_choice(addr::ipv4_text(a), cidr, used, None) == Ok::<u32, Seq<char>>(a),
{
    addr::lemma_ipv4_round_trip(a);
    lemma_contains_is_a_range(cidr, a);
}

/// An address that was asked for is granted if and only if it is in the subnet, is
/// neither the network's own nor, in a subnet that has one, the broadcast address, and is
/// nobody else's. It is then the one that was asked for.
pub proof fn lemma_request_is_granted(cidr: Cidr, ip: u32, used: Set<u32>, current: Option<u32>)
    requires
        cidr.wf(),
    ensures
        ({
            let answer = manual_choice(addr::ipv4_text(ip), cidr, used, current);
            let last = cidr.network + pow2((32 - cidr.prefix) as nat) - 1;
            let inside = cidr.network < ip <= last && (cidr.prefix <= 30 ==> ip < last);
            &&& answer is Ok <==> inside && (current == Some(ip) || !used.contains(ip))
            &&& answer matches Ok(bits) ==> bits == ip
            &&& inside && answer is Err ==> answer == Err::<u32, Seq<char>>(
                addr::ipv4_text(ip) + " 已被其他设备占用"@,
            )
            &&& ip == cidr.network ==> answer == Err::<u32, Seq<char>>(
                addr::ipv4_text(ip) + " 是网络地址，不能分配给设备"@,
            )
            &&& cidr.prefix <= 30 && ip == last ==> answer == Err::<u32, Seq<char>>(
                addr::ipv4_text(ip) + " 是广播地址，不能分配给设备"@,
            )
            &&& !(cidr.network <= ip <= last) ==> answer == Err::<u32, Seq<char>>(
                addr::ipv4_text(ip) + " 不在网段 "@ + cidr.text() + " 内"@,
            )
        }),
{
    addr::lemma_ipv4_round_trip(ip);
    lemma_contains_is_a_range(cidr, ip);
    lemma_block(cidr.prefix);
}

/// A text that is no address is granted to nobody.
pub proof fn lemma_no_address_is_granted(text: Seq<char>, cidr: Cidr, used: Set<u32>, current: Option<u32>)
    requires
        forall|ip: u32| text != #[trigger] addr::ipv4_text(ip),
    ensures
        manual_choice(text, cidr, used, current) == Err::<u32, Seq<char>>(
            "'"@ + text + "' 不是合法的 IPv4 地址"@,
        ),
{
}

/// A subnet may be written with any of its addresses: what is read is the block of that
/// size which holds the address. A prefix of more than 32 bits is refused.
pub proof fn lemma_host_bits_are_cleared(ip: u32, prefix: u32)
    ensures
        ({
            let read = parsed_cidr(addr::ipv4_text(ip) + seq!['/'] + addr::decimal(prefix as nat));
            let size = pow2((32 - prefix) as nat);
            &&& read is Ok <==> prefix <= 32
            &&& read matches Ok((network, p)) ==> p == prefix && network <= ip < network + size && network as nat
                % size == 0
            &&& prefix > 32 ==> read == Err::<(u32, u32), Seq<char>>(
                "invalid prefix /"@ + addr::decimal(prefix as nat) + ": must be 0..=32"@,
            )
        }),
{
    let head = addr::ipv4_text(ip);
    let s = head + seq!['/'] + addr::decimal(prefix as nat);
    let k = head.len() as int;
    addr::lemma_ipv4_round_trip(ip);
    addr::lemma_decimal_value(prefix as nat);
    assert forall|j: int| 0 <= j < k implies s[j] != '/' by {
        addr::lemma_ipv4_chars(ip, j);
        assert(s[j] == head[j]);
    }
    addr::lemma_first_of(s, '/', k);
    assert(s.take(k) =~= head);
    assert(s.skip(k + 1) =~= addr::decimal(prefix as nat));
    assert(addr::decimal(prefix as nat)[0] != '+');
    if prefix <= 32 {
        lemma_block(prefix);
        lemma_aligned(ip as nat, block(prefix));
        vstd::arithmetic::div_mod::lemma_mod_bound(ip as int, block(prefix) as int);
    }
}

/// A subnet holds as many addresses as its prefix leaves open: those from its network
/// address on.
pub proof fn lemma_subnet_is_a_block(cidr: Cidr, ip: u32)
    requires
        cidr.wf(),
    ensures
        holds(cidr, ip) <==> cidr.network <= ip < cidr.network + pow2((32 - cidr.prefix) as nat),
        cidr.last_addr() == cidr.network + pow2((32 - cidr.prefix) as nat) - 1,
{
    lemma_contains_is_a_range(cidr, ip);
    lemma_block(cidr.prefix);
}

/// What is wrong with a subnet is told: that there is no slash, or which part of it cannot
/// be read.
pub proof fn lemma_subnet_fault_in_words(head: Seq<char>, tail: Seq<char>, text: Seq<char>)
    ensures
        !text.contains('/') ==> parsed_cidr(text) == Err::<(u32, u32), Seq<char>>(
            "invalid CIDR '"@ + text + "': expected a.b.c.d/prefix"@,
        ),
        !head.contains('/') && addr::ipv4_value(head) is None ==> parsed_cidr(head + seq!['/'] + tail) == Err::<
            (u32, u32),
            Seq<char>,
        >("invalid IPv4 address '"@ + head + "'"@),
        !head.contains('/') && addr::ipv4_value(head) is Some && addr::signed_number(tail, u32::MAX as nat) is None
            ==> parsed_cidr(head + seq!['/'] + tail) == Err::<(u32, u32), Seq<char>>(
            "invalid prefix '"@ + tail + "'"@,
        ),
{
    if !text.contains('/') {
        assert forall|j: int| 0 <= j < text.len() implies text[j] != '/' by {
            assert(text.contains(text[j]));
        }
        addr::lemma_first_of(text, '/', text.len() as int);
    }
    if !head.contains('/') {
        let s = head + seq!['/'] + tail;
        let k = head.len() as int;
        assert forall|j: int| 0 <= j < k implies s[j] != '/' by {
            assert(head.contains(head[j]));
            assert(s[j] == head[j]);
        }
        assert(s[k] == '/');
        addr::lemma_first_of(s, '/', k);
        assert(s.take(k) =~= head);
        assert(s.skip(k + 1) =~= tail);
    }
}

} // verus!
