//! Which addresses of this machine the peers are told of.

use vstd::prelude::*;

use crate::addr;
use crate::addr::ipv4_to_text;
use crate::text;
use crate::text::{comes_first, same_text};

verus! {

/// An address of the kind that a machine gives itself: `169.254.x.x`.
pub open spec fn link_local(ip: u32) -> bool {
    ip / 0x1_0000 == 0xa9fe
}

/// Whether an address is one that a machine gives itself.
pub fn is_link_local(ip: u32) -> (yes: bool)
    ensures
        yes == link_local(ip),
{
    ip / 0x1_0000 == 0xa9fe
}

/// An address that another machine may reach this one under: none that it gave
/// itself, none that stays inside it, and not the one that stands for all.
pub open spec fn is_reachable(ip: u32) -> bool {
    !link_local(ip) && ip / 0x100_0000 != 127 && ip != 0
}

/// Each text comes before the next.
pub open spec fn ascending(list: Seq<Seq<char>>) -> bool {
    forall|i: int, j: int| 0 <= i < j < list.len() ==> text::text_less(#[trigger] list[i], #[trigger] list[j])
}

/// Puts a text where it belongs, unless it is there.
fn insert_text(list: &mut Vec<String>, new: String)
    requires
        ascending(text::texts(old(list)@)),
    ensures
        ascending(text::texts(final(list)@)),
        forall|t: Seq<char>| #[trigger]
            text::texts(final(list)@).contains(t) <==> text::texts(old(list)@).contains(t) || t == new@,
{
    let ghost before = text::texts(list@);
    let mut at: usize = 0;
    while at < list.len() && comes_first(list[at].as_str(), new.as_str())
        invariant
            at <= list@.len(),
            before == text::texts(list@),
            forall|j: int| 0 <= j < at ==> text::text_less(#[trigger] before[j], new@),
        decreases list@.len() - at,
    {
        assert(before[at as int] == list@[at as int]@);
        at += 1;
    }
    if at < list.len() && same_text(list[at].as_str(), new.as_str()) {
        assert(before[at as int] == new@);
        return;
    }
    let ghost text = new@;
    proof {
        if at < list@.len() {
            assert(before[at as int] == list@[at as int]@);
            text::lemma_text_order_total(before[at as int], text);
        }
    }
    list.insert(at, new);
    let ghost after = text::texts(list@);
    proof {
        assert(after =~= before.insert(at as int, text));
        assert forall|i: int, j: int| 0 <= i < j < after.len() implies text::text_less(
            #[trigger] after[i],
            #[trigger] after[j],
        ) by {
            if j < at {
                assert(after[i] == before[i] && after[j] == before[j]);
            } else if j == at {
                assert(after[i] == before[i]);
            } else {
                assert(after[j] == before[j - 1]);
                if i < at {
                    assert(after[i] == before[i]);
                } else if i > at {
                    assert(after[i] == before[i - 1]);
                } else if j - 1 > at {
                    assert(text::text_less(before[at as int], before[j - 1]));
                    text::lemma_text_order_transitive(text, before[at as int], before[j - 1]);
                }
            }
        }
        assert forall|t: Seq<char>| #[trigger] after.contains(t) <==> before.contains(t) || t == text by {
            if before.contains(t) {
                let k = choose|k: int| 0 <= k < before.len() && before[k] == t;
                if k < at {
                    assert(after[k] == t);
                } else {
                    assert(after[k + 1] == t);
                }
            }
            if t == text {
                assert(after[at as int] == t);
            }
            if after.contains(t) {
                let k = choose|k: int| 0 <= k < after.len() && after[k] == t;
                if k < at {
                    assert(before[k] == t);
                } else if k > at {
                    assert(before[k - 1] == t);
                }
            }
        }
    }
}

/// The addresses that the peers are told of, in order and each once.
pub fn announced_addrs(ips: &Vec<u32>) -> (list: Vec<String>)
    ensures
        ascending(text::texts(list@)),
        forall|t: Seq<char>| #[trigger]
            text::texts(list@).contains(t) <==> exists|i: int|
                0 <= i < ips@.len() && is_reachable(#[trigger] ips@[i]) && t == addr::ipv4_text(ips@[i]),
{
    let mut list: Vec<String> = Vec::new();
    let mut i: usize = 0;
    while i < ips.len()
        invariant
            i <= ips@.len(),
            ascending(text::texts(list@)),
            forall|t: Seq<char>| #[trigger]
                text::texts(list@).contains(t) <==> exists|j: int|
                    0 <= j < i && is_reachable(#[trigger] ips@[j]) && t == addr::ipv4_text(ips@[j]),
        decreases ips@.len() - i,
    {
        let ip: u32 = ips[i];
        let ghost before = text::texts(list@);
        if !is_link_local(ip) && ip / 0x100_0000 != 127 && ip != 0 {
            insert_text(&mut list, ipv4_to_text(ip));
            assert(is_reachable(ips@[i as int]));
        }
        assert forall|t: Seq<char>| #[trigger] text::texts(list@).contains(t) <==> exists|j: int|
            0 <= j < i + 1 && is_reachable(#[trigger] ips@[j]) && t == addr::ipv4_text(ips@[j]) by {
            if text::texts(list@).contains(t) {
                if before.contains(t) {
                    let j = choose|j: int|
                        0 <= j < i && is_reachable(#[trigger] ips@[j]) && t == addr::ipv4_text(ips@[j]);
                    assert(is_reachable(ips@[j]));
                } else {
                    assert(t == addr::ipv4_text(ips@[i as int]));
                }
            }
            if exists|j: int|
                0 <= j < i + 1 && is_reachable(#[trigger] ips@[j]) && t == addr::ipv4_text(ips@[j]) {
                let j = choose|j: int|
                    0 <= j < i + 1 && is_reachable(#[trigger] ips@[j]) && t == addr::ipv4_text(ips@[j]);
                if j < i {
                    assert(before.contains(t));
                }
            }
        }
        i += 1;
    }
    list
}

/// The entry `i` is an address of an interface that is up, under which another
/// machine may reach this one.
pub open spec fn is_told(found: Seq<(u32, bool)>, i: int) -> bool {
    0 <= i < found.len() && found[i].1 && is_reachable(found[i].0)
}

/// The addresses that the peers are told of, in order and each once, out of the
/// addresses of all interfaces. With each comes whether its interface is up; one
/// that is down has no part in this.
pub fn local_ipv4_addrs(found: &Vec<(u32, bool)>) -> (list: Vec<String>)
    ensures
        ascending(text::texts(list@)),
        forall|t: Seq<char>| #[trigger]
            text::texts(list@).contains(t) <==> exists|i: int| #[trigger]
                is_told(found@, i) && t == addr::ipv4_text(found@[i].0),
{
    let mut ips: Vec<u32> = Vec::new();
    let mut i: usize = 0;
    while i < found.len()
        invariant
            i <= found@.len(),
            forall|ip: u32| #[trigger]
                ips@.contains(ip) <==> exists|j: int|
                    0 <= j < i && (#[trigger] found@[j]) == (ip, true),
        decreases found@.len() - i,
    {
        let (ip, up) = found[i];
        let ghost before = ips@;
        if up {
            ips.push(ip);
        }
        assert forall|x: u32| #[trigger] ips@.contains(x) <==> exists|j: int|
            0 <= j < i + 1 && (#[trigger] found@[j]) == (x, true) by {
            if before.contains(x) {
                let k = choose|k: int| 0 <= k < before.len() && before[k] == x;
                assert(ips@[k] == x);
                let j = choose|j: int| 0 <= j < i && (#[trigger] found@[j]) == (x, true);
                assert(found@[j] == (x, true));
            }
            if ips@.contains(x) && !before.contains(x) {
                let k = choose|k: int| 0 <= k < ips@.len() && ips@[k] == x;
                assert(k == before.len());
                assert(found@[i as int] == (x, true));
            }
            if exists|j: int| 0 <= j < i + 1 && (#[trigger] found@[j]) == (x, true) {
                let j = choose|j: int| 0 <= j < i + 1 && (#[trigger] found@[j]) == (x, true);
                if j < i {
                    assert(before.contains(x));
                } else {
                    assert(ips@[before.len() as int] == x);
                }
            }
        }
        i += 1;
    }
    let list = announced_addrs(&ips);
    assert forall|t: Seq<char>| #[trigger] text::texts(list@).contains(t) <==> exists|k: int| #[trigger]
        is_told(found@, k) && t == addr::ipv4_text(found@[k].0) by {
        if text::texts(list@).contains(t) {
            let k = choose|k: int|
                0 <= k < ips@.len() && is_reachable(#[trigger] ips@[k]) && t == addr::ipv4_text(ips@[k]);
            assert(ips@.contains(ips@[k]));
            let j = choose|j: int| 0 <= j < found@.len() && (#[trigger] found@[j]) == (ips@[k], true);
            assert(is_told(found@, j));
        }
        if exists|k: int| #[trigger] is_told(found@, k) && t == addr::ipv4_text(found@[k].0) {
            let k = choose|k: int| #[trigger] is_told(found@, k) && t == addr::ipv4_text(found@[k].0);
            assert(found@[k] == (found@[k].0, true));
            assert(ips@.contains(found@[k].0));
            let j = choose|j: int| 0 <= j < ips@.len() && ips@[j] == found@[k].0;
            assert(is_reachable(ips@[j]));
        }
    }
    list
}

/// Peers are told of every address but those that begin with 127 or with 169.254, and
/// 0.0.0.0.
pub proof fn lemma_which_addresses_are_told(a: int, b: int, c: int, d: int)
    requires
        0 <= a < 256,
        0 <= b < 256,
        0 <= c < 256,
        0 <= d < 256,
    ensures
        ({
            let ip = (a * 0x100_0000 + b * 0x1_0000 + c * 0x100 + d) as u32;
            &&& is_reachable(ip) <==> a != 127 && !(a == 169 && b == 254) && !(a == 0 && b == 0 && c == 0 && d
                == 0)
            &&& link_local(ip) <==> a == 169 && b == 254
        }),
{
    let ip = (a * 0x100_0000 + b * 0x1_0000 + c * 0x100 + d) as u32;
    assert(ip / 0x100_0000 == a);
    assert(ip / 0x1_0000 == a * 256 + b);
}

/// An address of an interface that is down is never told, and neither is one that nobody
/// can reach.
pub proof fn lemma_what_is_down_is_not_told(found: Seq<(u32, bool)>, i: int)
    requires
        0 <= i < found.len(),
    ensures
        is_told(found, i) <==> found[i].1 && is_reachable(found[i].0),
{
}

/// In an ordered list no text comes twice.
pub proof fn lemma_each_comes_once(list: Seq<Seq<char>>, i: int, j: int)
    requires
        ascending(list),
        0 <= i < list.len(),
        0 <= j < list.len(),
        list[i] == list[j],
    ensures
        i == j,
{
    text::lemma_text_order_total(list[i], list[j]);
    if i < j {
        assert(text::text_less(list[i], list[j]));
    }
    if j < i {
        assert(text::text_less(list[j], list[i]));
    }
}

} // verus!
