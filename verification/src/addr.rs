//! Numbers, IP addresses and socket addresses as text.
//!
//! An IPv4 address is a `u32`, the first octet in its high byte. Its text is the
//! usual dotted one, without leading zeros, and no other text is accepted for it.

use vstd::prelude::*;
use crate::crypto::primitives;

verus! {

/// The digit for `v`.
pub open spec fn digit(v: int) -> char {
    (48 + v) as char
}

/// A decimal digit.
pub open spec fn is_digit(c: char) -> bool {
    '0' <= c <= '9'
}

/// A number in decimal.
pub open spec fn decimal(n: nat) -> Seq<char>
    decreases n,
{
    if n < 10 {
        seq![digit(n as int)]
    } else {
        decimal(n / 10).push(digit((n % 10) as int))
    }
}

/// The number that a string of digits stands for.
pub open spec fn digits_value(s: Seq<char>) -> nat
    decreases s.len(),
{
    if s.len() == 0 {
        0
    } else {
        10 * digits_value(s.drop_last()) + (s.last() as int - 48) as nat
    }
}

/// Whether a text is one digit or more and nothing else.
pub open spec fn all_digits(s: Seq<char>) -> bool {
    s.len() > 0 && forall|i: int| 0 <= i < s.len() ==> is_digit(#[trigger] s[i])
}

/// A number of digits only, at most `max`.
pub open spec fn plain_number(s: Seq<char>, max: nat) -> Option<nat> {
    if all_digits(s) && digits_value(s) <= max {
        Some(digits_value(s))
    } else {
        None
    }
}

/// A number, at most `max`, that may start with a plus sign.
pub open spec fn signed_number(s: Seq<char>, max: nat) -> Option<nat> {
    if s.len() > 0 && s[0] == '+' {
        plain_number(s.skip(1), max)
    } else {
        plain_number(s, max)
    }
}

/// A decimal text stands for the number that it was made of.
pub proof fn lemma_decimal_value(n: nat)
    ensures
        all_digits(decimal(n)),
        digits_value(decimal(n)) == n,
    decreases n,
{
    if n < 10 {
        let s = decimal(n);
        assert(s.drop_last() =~= Seq::empty());
        assert(digits_value(s.drop_last()) == 0);
    } else {
        lemma_decimal_value(n / 10);
        let s = decimal(n);
        assert(s.drop_last() =~= decimal(n / 10));
        assert forall|i: int| 0 <= i < s.len() implies is_digit(#[trigger] s[i]) by {
            if i < s.len() - 1 {
                assert(s[i] == decimal(n / 10)[i]);
            }
        }
    }
}

/// Writes a number in decimal.
pub fn decimal_text(n: u64) -> (text: String)
    ensures
        text@ == decimal(n as nat),
    decreases n,
{
    let mut text = if n < 10 {
        String::new()
    } else {
        decimal_text(n / 10)
    };
    let d: u8 = (n % 10) as u8 + 48;
    text.push(d as char);
    assert(text@ =~= decimal(n as nat));
    text
}

/// A number in decimal, with a minus sign in front if it is negative.
pub open spec fn signed_decimal(n: int) -> Seq<char> {
    if n < 0 {
        seq!['-'] + decimal((-n) as nat)
    } else {
        decimal(n as nat)
    }
}

/// Writes a signed number in decimal.
pub fn signed_text(n: i64) -> (text: String)
    ensures
        text@ == signed_decimal(n as int),
{
    if n < 0 {
        let mut text = String::new();
        text.push('-');
        let back: u64 = (-(n + 1)) as u64;
        text.append(decimal_text(back + 1).as_str());
        assert(text@ =~= signed_decimal(n as int));
        text
    } else {
        decimal_text(n as u64)
    }
}

/// Reads the digits in `chars[from..to]`.
pub fn read_long_number(chars: &[char], from: usize, to: usize, max: u64) -> (value: Option<u64>)
    requires
        from <= to <= chars@.len(),
    ensures
        match value {
            Some(v) => plain_number(chars@.subrange(from as int, to as int), max as nat) == Some(
                v as nat,
            ),
            None => plain_number(chars@.subrange(from as int, to as int), max as nat) is None,
        },
{
    let ghost s = chars@.subrange(from as int, to as int);
    if from == to {
        return None;
    }
    let mut acc: u128 = 0;
    let mut over = false;
    let mut i: usize = from;
    assert(s.take(0) =~= Seq::empty());
    while i < to
        invariant
            from <= i <= to <= chars@.len(),
            s == chars@.subrange(from as int, to as int),
            forall|j: int| 0 <= j < i - from ==> is_digit(#[trigger] s[j]),
            acc <= max,
            !over ==> acc == digits_value(s.take(i - from)),
            over ==> digits_value(s.take(i - from)) > max,
        decreases to - i,
    {
        let c = chars[i];
        assert(c == s[i - from]);
        if !('0' <= c && c <= '9') {
            assert(!is_digit(s[i - from]));
            return None;
        }
        let d: u128 = (c as u32 - 48) as u128;
        assert(s.take(i - from + 1).drop_last() =~= s.take(i - from));
        assert(s.take(i - from + 1).last() == c);
        if !over {
            let next: u128 = acc * 10 + d;
            if next > max as u128 {
                over = true;
            } else {
                acc = next;
            }
        }
        i += 1;
    }
    assert(s.take(to - from) =~= s);
    if over {
        None
    } else {
        Some(acc as u64)
    }
}

/// Reads the digits in `chars[from..to]` as a short number.
pub fn read_plain_number(chars: &[char], from: usize, to: usize, max: u32) -> (value: Option<u32>)
    requires
        from <= to <= chars@.len(),
    ensures
        match value {
            Some(v) => plain_number(chars@.subrange(from as int, to as int), max as nat) == Some(
                v as nat,
            ),
            None => plain_number(chars@.subrange(from as int, to as int), max as nat) is None,
        },
{
    match read_long_number(chars, from, to, max as u64) {
        Some(v) => Some(v as u32),
        None => None,
    }
}

/// Reads the number in `chars[from..to]`, which may start with a plus sign.
pub fn read_number(chars: &[char], from: usize, to: usize, max: u32) -> (value: Option<u32>)
    requires
        from <= to <= chars@.len(),
    ensures
        match value {
            Some(v) => signed_number(chars@.subrange(from as int, to as int), max as nat) == Some(
                v as nat,
            ),
            None => signed_number(chars@.subrange(from as int, to as int), max as nat) is None,
        },
{
    if from < to && chars[from] == '+' {
        assert(chars@.subrange(from as int, to as int).skip(1) =~= chars@.subrange(
            from + 1,
            to as int,
        ));
        read_plain_number(chars, from + 1, to, max)
    } else {
        read_plain_number(chars, from, to, max)
    }
}

/// Reads a text as a number of 64 bits, which may start with a plus sign.
pub fn parse_u64(text: &str) -> (value: Option<u64>)
    ensures
        match value {
            Some(v) => signed_number(text@, u64::MAX as nat) == Some(v as nat),
            None => signed_number(text@, u64::MAX as nat) is None,
        },
{
    let chars = crate::text::chars_of(text);
    let n = chars.len();
    assert(chars@.subrange(0, n as int) =~= text@);
    if n > 0 && chars[0] == '+' {
        assert(text@.skip(1) =~= chars@.subrange(1, n as int));
        read_long_number(chars.as_slice(), 1, n, u64::MAX)
    } else {
        read_long_number(chars.as_slice(), 0, n, u64::MAX)
    }
}

/// Octet `i` of an address, the first in the high byte.
pub open spec fn octet_of(bits: u32, i: int) -> nat {
    if i == 0 {
        bits as nat / 0x100_0000
    } else if i == 1 {
        bits as nat / 0x1_0000 % 256
    } else if i == 2 {
        bits as nat / 256 % 256
    } else {
        bits as nat % 256
    }
}

/// An address in dotted form.
pub open spec fn ipv4_text(bits: u32) -> Seq<char> {
    decimal(octet_of(bits, 0)) + seq!['.'] + decimal(octet_of(bits, 1)) + seq!['.'] + decimal(
        octet_of(bits, 2),
    ) + seq!['.'] + decimal(octet_of(bits, 3))
}

/// The address that a text is the dotted form of.
pub open spec fn ipv4_value(text: Seq<char>) -> Option<u32> {
    if exists|bits: u32| text == #[trigger] ipv4_text(bits) {
        Some(choose|bits: u32| text == #[trigger] ipv4_text(bits))
    } else {
        None
    }
}

/// Writes an address in dotted form.
pub fn ipv4_to_text(bits: u32) -> (text: String)
    ensures
        text@ == ipv4_text(bits),
{
    let mut text = decimal_text((bits / 0x100_0000) as u64);
    text.push('.');
    text.append(decimal_text((bits / 0x1_0000 % 256) as u64).as_str());
    text.push('.');
    text.append(decimal_text((bits / 256 % 256) as u64).as_str());
    text.push('.');
    text.append(decimal_text((bits % 256) as u64).as_str());
    assert(text@ =~= ipv4_text(bits));
    text
}

/// The text of an octet stands at `pos`, and no further digit follows it.
#[verifier::opaque]
spec fn octet_at(s: Seq<char>, pos: int, v: nat) -> bool {
    let d = decimal(v);
    &&& v <= 255
    &&& 0 <= pos
    &&& pos + d.len() <= s.len()
    &&& s.subrange(pos, pos + d.len()) == d
    &&& (pos + d.len() == s.len() || !is_digit(s[pos + d.len()]))
}

proof fn lemma_octet_digits(v: nat)
    requires
        v <= 255,
    ensures
        v < 10 ==> decimal(v) =~= seq![digit(v as int)],
        10 <= v < 100 ==> decimal(v) =~= seq![digit((v / 10) as int), digit((v % 10) as int)],
        100 <= v ==> decimal(v) =~= seq![
            digit((v / 100) as int),
            digit((v / 10 % 10) as int),
            digit((v % 10) as int),
        ],
{
    reveal_with_fuel(decimal, 4);
    assert(v / 10 / 10 == v / 100);
}

/// What `octet_at` says of the characters, digit by digit.
proof fn lemma_octet_at_chars(s: Seq<char>, pos: int, v: nat)
    requires
        octet_at(s, pos, v),
    ensures
        v <= 255,
        0 <= pos < s.len(),
        is_digit(s[pos]),
        v < 10 ==> s[pos] == digit(v as int) && (pos + 1 == s.len() || !is_digit(s[pos + 1])),
        10 <= v < 100 ==> pos + 2 <= s.len() && s[pos] == digit((v / 10) as int) && s[pos + 1]
            == digit((v % 10) as int) && (pos + 2 == s.len() || !is_digit(s[pos + 2])),
        100 <= v ==> pos + 3 <= s.len() && s[pos] == digit((v / 100) as int) && s[pos + 1] == digit(
            (v / 10 % 10) as int,
        ) && s[pos + 2] == digit((v % 10) as int) && (pos + 3 == s.len() || !is_digit(s[pos + 3])),
{
    reveal(octet_at);
    lemma_octet_digits(v);
    let d = decimal(v);
    let t = s.subrange(pos, pos + d.len());
    assert(t[0] == s[pos]);
    if v >= 10 {
        assert(t[1] == s[pos + 1]);
    }
    if v >= 100 {
        assert(t[2] == s[pos + 2]);
    }
}

proof fn lemma_octet_unique(s: Seq<char>, pos: int, v: nat, w: nat)
    requires
        octet_at(s, pos, v),
        octet_at(s, pos, w),
    ensures
        v == w,
{
    lemma_octet_at_chars(s, pos, v);
    lemma_octet_at_chars(s, pos, w);
}

/// Reads one octet at `pos`; with it comes where it ends.
fn read_octet(chars: &[char], pos: usize, end: usize) -> (octet: Option<(u32, usize)>)
    requires
        pos <= end <= chars@.len(),
    ensures
        match octet {
            Some((v, next)) => octet_at(chars@.take(end as int), pos as int, v as nat) && next == pos
                + decimal(v as nat).len() && next <= end,
            None => forall|v: nat| !#[trigger] octet_at(chars@.take(end as int), pos as int, v),
        },
{
    let ghost s = chars@.take(end as int);
    let mut n: usize = pos;
    let mut v: u32 = 0;
    while n < end && n - pos < 4 && '0' <= chars[n] && chars[n] <= '9'
        invariant
            pos <= n <= end <= chars@.len(),
            n <= pos + 4,
            s == chars@.take(end as int),
            forall|j: int| pos <= j < n ==> is_digit(#[trigger] s[j]),
            n == pos ==> v == 0,
            n == pos + 1 ==> v == s[pos as int] as int - 48,
            n == pos + 2 ==> v == 10 * (s[pos as int] as int - 48) + (s[pos + 1] as int - 48),
            n == pos + 3 ==> v == 100 * (s[pos as int] as int - 48) + 10 * (s[pos + 1] as int - 48)
                + (s[pos + 2] as int - 48),
            v < 10000,
        decreases end - n,
    {
        let c = chars[n];
        assert(c == s[n as int]);
        if n - pos < 3 {
            v = v * 10 + (c as u32 - 48);
        }
        n += 1;
    }
    assert(n < end && n < pos + 4 ==> !is_digit(s[n as int]));
    if n == pos || n - pos == 4 || (n - pos > 1 && chars[pos] == '0') || v > 255 {
        assert forall|w: nat| !#[trigger] octet_at(s, pos as int, w) by {
            if octet_at(s, pos as int, w) {
                lemma_octet_at_chars(s, pos as int, w);
            }
        }
        return None;
    }
    proof {
        reveal(octet_at);
        lemma_octet_digits(v as nat);
        assert(n == pos + decimal(v as nat).len());
        assert(s.subrange(pos as int, n as int) =~= decimal(v as nat));
    }
    Some((v, n))
}

/// How the dotted form of `bits` lies in a text.
proof fn lemma_ipv4_shape(s: Seq<char>, bits: u32)
    requires
        s == ipv4_text(bits),
    ensures
        ({
            let p1 = decimal(octet_of(bits, 0)).len() as int;
            let p2 = p1 + 1 + decimal(octet_of(bits, 1)).len() as int;
            let p3 = p2 + 1 + decimal(octet_of(bits, 2)).len() as int;
            let p4 = p3 + 1 + decimal(octet_of(bits, 3)).len() as int;
            &&& octet_at(s, 0, octet_of(bits, 0))
            &&& p1 < s.len() && s[p1] == '.'
            &&& octet_at(s, p1 + 1, octet_of(bits, 1))
            &&& p2 < s.len() && s[p2] == '.'
            &&& octet_at(s, p2 + 1, octet_of(bits, 2))
            &&& p3 < s.len() && s[p3] == '.'
            &&& octet_at(s, p3 + 1, octet_of(bits, 3))
            &&& p4 == s.len()
        }),
{
    reveal(octet_at);
    let a = decimal(octet_of(bits, 0));
    let b = decimal(octet_of(bits, 1));
    let c = decimal(octet_of(bits, 2));
    let d = decimal(octet_of(bits, 3));
    let p1 = a.len() as int;
    let p2 = p1 + 1 + b.len() as int;
    let p3 = p2 + 1 + c.len() as int;
    assert(s.subrange(0, p1) =~= a);
    assert(s.subrange(p1 + 1, p2) =~= b);
    assert(s.subrange(p2 + 1, p3) =~= c);
    assert(s.subrange(p3 + 1, p3 + 1 + d.len()) =~= d);
}

proof fn lemma_octets_to_bits(bits: u32, a: nat, b: nat, c: nat, d: nat)
    requires
        a <= 255,
        b <= 255,
        c <= 255,
        d <= 255,
        bits == a * 0x100_0000 + b * 0x1_0000 + c * 0x100 + d,
    ensures
        octet_of(bits, 0) == a,
        octet_of(bits, 1) == b,
        octet_of(bits, 2) == c,
        octet_of(bits, 3) == d,
{
    lemma_division(bits as int, 256, (a * 0x1_0000 + b * 0x100 + c) as int, d as int);
    lemma_division(bits as int, 0x1_0000, (a * 0x100 + b) as int, (c * 0x100 + d) as int);
    lemma_division(bits as int, 0x100_0000, a as int, (b * 0x1_0000 + c * 0x100 + d) as int);
    lemma_division((a * 0x100 + b) as int, 256, a as int, b as int);
    lemma_division((a * 0x1_0000 + b * 0x100 + c) as int, 256, (a * 0x100 + b) as int, c as int);
}

proof fn lemma_division(x: int, m: int, q: int, r: int)
    requires
        m > 0,
        0 <= r < m,
        x == q * m + r,
    ensures
        x / m == q,
        x % m == r,
{
    vstd::arithmetic::div_mod::lemma_fundamental_div_mod_converse(x, m, q, r);
}

proof fn lemma_bits_of_octets(bits: u32)
    ensures
        bits == octet_of(bits, 0) * 0x100_0000 + octet_of(bits, 1) * 0x1_0000 + octet_of(bits, 2)
            * 0x100 + octet_of(bits, 3),
{
}

/// Four numbers below 256 with dots between them are the address that has the first of
/// them in its highest byte and the last in its lowest.
pub proof fn lemma_dotted_form(bits: u32, a: nat, b: nat, c: nat, d: nat)
    requires
        a <= 255,
        b <= 255,
        c <= 255,
        d <= 255,
    ensures
        bits == a * 0x100_0000 + b * 0x1_0000 + c * 0x100 + d <==> octet_of(bits, 0) == a && octet_of(bits, 1)
            == b && octet_of(bits, 2) == c && octet_of(bits, 3) == d,
        bits == a * 0x100_0000 + b * 0x1_0000 + c * 0x100 + d ==> ipv4_value(
            decimal(a) + seq!['.'] + decimal(b) + seq!['.'] + decimal(c) + seq!['.'] + decimal(d),
        ) == Some(bits),
{
    lemma_bits_of_octets(bits);
    if bits == a * 0x100_0000 + b * 0x1_0000 + c * 0x100 + d {
        lemma_octets_to_bits(bits, a, b, c, d);
        lemma_ipv4_round_trip(bits);
    }
}

/// The dotted form starts at an octet that was found, so it starts with it.
proof fn lemma_ipv4_octets(s: Seq<char>, bits: u32, e1: int, e2: int, e3: int, a: nat, b: nat, c: nat)
    requires
        s == ipv4_text(bits),
        octet_at(s, 0, a),
        e1 == decimal(a).len(),
    ensures
        a == octet_of(bits, 0),
        e1 < s.len() && s[e1] == '.',
        octet_at(s, e1 + 1, octet_of(bits, 1)),
        octet_at(s, e1 + 1, b) && e2 == e1 + 1 + decimal(b).len() ==> b == octet_of(bits, 1) && e2
            < s.len() && s[e2] == '.' && octet_at(s, e2 + 1, octet_of(bits, 2)) && (octet_at(
            s,
            e2 + 1,
            c,
        ) && e3 == e2 + 1 + decimal(c).len() ==> c == octet_of(bits, 2) && e3 < s.len() && s[e3]
            == '.' && octet_at(s, e3 + 1, octet_of(bits, 3)) && e3 + 1 + decimal(
            octet_of(bits, 3),
        ).len() == s.len()),
{
    lemma_ipv4_shape(s, bits);
    lemma_octet_unique(s, 0, a, octet_of(bits, 0));
    if octet_at(s, e1 + 1, b) && e2 == e1 + 1 + decimal(b).len() {
        lemma_octet_unique(s, e1 + 1, b, octet_of(bits, 1));
        if octet_at(s, e2 + 1, c) && e3 == e2 + 1 + decimal(c).len() {
            lemma_octet_unique(s, e2 + 1, c, octet_of(bits, 2));
        }
    }
}

/// No two addresses have the same text.
pub proof fn lemma_ipv4_text_injective(x: u32, y: u32)
    requires
        ipv4_text(x) == ipv4_text(y),
    ensures
        x == y,
{
    let s = ipv4_text(x);
    lemma_ipv4_shape(s, x);
    let e1 = decimal(octet_of(x, 0)).len() as int;
    let e2 = e1 + 1 + decimal(octet_of(x, 1)).len() as int;
    let e3 = e2 + 1 + decimal(octet_of(x, 2)).len() as int;
    lemma_ipv4_octets(s, y, e1, e2, e3, octet_of(x, 0), octet_of(x, 1), octet_of(x, 2));
    lemma_octet_unique(s, e3 + 1, octet_of(x, 3), octet_of(y, 3));
    lemma_bits_of_octets(x);
    lemma_bits_of_octets(y);
}

/// The dotted form of an address is read as that address.
pub proof fn lemma_ipv4_round_trip(bits: u32)
    ensures
        ipv4_value(ipv4_text(bits)) == Some(bits),
{
    let text = ipv4_text(bits);
    let found = choose|b: u32| text == #[trigger] ipv4_text(b);
    lemma_ipv4_text_injective(found, bits);
}

/// Reads `chars[from..to]` as an address in dotted form.
#[verifier::rlimit(40)]
pub fn read_ipv4(chars: &[char], from: usize, to: usize) -> (bits: Option<u32>)
    requires
        from <= to <= chars@.len(),
    ensures
        bits == ipv4_value(chars@.subrange(from as int, to as int)),
{
    let part = vstd::slice::slice_subrange(chars, from, to);
    let n = part.len();
    let ghost s = part@;
    assert(part@.take(n as int) =~= s);
    let (a, e1) = match read_octet(part, 0, n) {
        Some(found) => found,
        None => {
            assert forall|x: u32| s != #[trigger] ipv4_text(x) by {
                if s == ipv4_text(x) {
                    lemma_ipv4_shape(s, x);
                }
            }
            return None;
        },
    };
    if e1 >= n || part[e1] != '.' {
            assert forall|x: u32| s != #[trigger] ipv4_text(x) by {
                if s == ipv4_text(x) {
                    lemma_ipv4_octets(s, x, e1 as int, 0, 0, a as nat, 0, 0);
                }
            }
        return None;
    }
    let (b, e2) = match read_octet(part, e1 + 1, n) {
        Some(found) => found,
        None => {
            assert forall|x: u32| s != #[trigger] ipv4_text(x) by {
                if s == ipv4_text(x) {
                    lemma_ipv4_octets(s, x, e1 as int, 0, 0, a as nat, 0, 0);
                }
            }
            return None;
        },
    };
    if e2 >= n || part[e2] != '.' {
            assert forall|x: u32| s != #[trigger] ipv4_text(x) by {
                if s == ipv4_text(x) {
                    lemma_ipv4_octets(s, x, e1 as int, e2 as int, 0, a as nat, b as nat, 0);
                }
            }
        return None;
    }
    let (c, e3) = match read_octet(part, e2 + 1, n) {
        Some(found) => found,
        None => {
            assert forall|x: u32| s != #[trigger] ipv4_text(x) by {
                if s == ipv4_text(x) {
                    lemma_ipv4_octets(s, x, e1 as int, e2 as int, 0, a as nat, b as nat, 0);
                }
            }
            return None;
        },
    };
    if e3 >= n || part[e3] != '.' {
            assert forall|x: u32| s != #[trigger] ipv4_text(x) by {
                if s == ipv4_text(x) {
                    lemma_ipv4_octets(s, x, e1 as int, e2 as int, e3 as int, a as nat, b as nat, c as nat);
                }
            }
        return None;
    }
    let (d, e4) = match read_octet(part, e3 + 1, n) {
        Some(found) => found,
        None => {
            assert forall|x: u32| s != #[trigger] ipv4_text(x) by {
                if s == ipv4_text(x) {
                    lemma_ipv4_octets(s, x, e1 as int, e2 as int, e3 as int, a as nat, b as nat, c as nat);
                }
            }
            return None;
        },
    };
    if e4 != n {
            assert forall|x: u32| s != #[trigger] ipv4_text(x) by {
                if s == ipv4_text(x) {
                    lemma_ipv4_octets(s, x, e1 as int, e2 as int, e3 as int, a as nat, b as nat, c as nat);
                    lemma_octet_unique(s, e3 + 1, d as nat, octet_of(x, 3));
                }
            }
        return None;
    }
    proof {
        reveal(octet_at);
    }
    let bits: u32 = a * 0x100_0000 + b * 0x1_0000 + c * 0x100 + d;
    proof {
        lemma_octets_to_bits(bits, a as nat, b as nat, c as nat, d as nat);
        assert(s =~= s.subrange(0, e1 as int) + seq!['.'] + s.subrange(e1 + 1, e2 as int) + seq!['.']
            + s.subrange(e2 + 1, e3 as int) + seq!['.'] + s.subrange(e3 + 1, e4 as int));
        assert(s == ipv4_text(bits));
        lemma_ipv4_round_trip(bits);
    }
    Some(bits)
}

/// Reads a text as an address in dotted form.
pub fn parse_ipv4(text: &str) -> (bits: Option<u32>)
    ensures
        bits == ipv4_value(text@),
{
    let chars = crate::text::chars_of(text);
    assert(chars@.subrange(0, chars@.len() as int) =~= text@);
    read_ipv4(chars.as_slice(), 0, chars.len())
}

/// Where `c` first occurs in `s`; the length of `s` if it does not.
pub open spec fn first_of(s: Seq<char>, c: char) -> int
    decreases s.len(),
{
    if s.len() == 0 || s[0] == c {
        0
    } else {
        1 + first_of(s.skip(1), c)
    }
}

/// What marks the first occurrence.
pub proof fn lemma_first_of(s: Seq<char>, c: char, k: int)
    requires
        0 <= k <= s.len(),
        forall|j: int| 0 <= j < k ==> s[j] != c,
        k < s.len() ==> s[k] == c,
    ensures
        first_of(s, c) == k,
    decreases s.len(),
{
    if k > 0 {
        assert forall|j: int| 0 <= j < k - 1 implies s.skip(1)[j] != c by {
            assert(s.skip(1)[j] == s[j + 1]);
        }
        lemma_first_of(s.skip(1), c, k - 1);
    }
}

/// Finds `c` in `chars[from..to]`; gives `to` if it does not occur.
pub fn find_char(chars: &[char], from: usize, to: usize, c: char) -> (at: usize)
    requires
        from <= to <= chars@.len(),
    ensures
        from <= at <= to,
        at - from == first_of(chars@.subrange(from as int, to as int), c),
        at < to ==> chars@[at as int] == c,
{
    let ghost s = chars@.subrange(from as int, to as int);
    let mut i: usize = from;
    while i < to && chars[i] != c
        invariant
            from <= i <= to <= chars@.len(),
            s == chars@.subrange(from as int, to as int),
            forall|j: int| 0 <= j < i - from ==> s[j] != c,
        decreases to - i,
    {
        assert(s[i - from] == chars@[i as int]);
        i += 1;
    }
    proof {
        if i < to {
            assert(s[i - from] == chars@[i as int]);
        }
        lemma_first_of(s, c, i - from);
    }
    i
}

/// Where `c` last occurs in `s`, or -1.
pub open spec fn last_of(s: Seq<char>, c: char) -> int
    decreases s.len(),
{
    if s.len() == 0 {
        -1
    } else if s.last() == c {
        s.len() - 1
    } else {
        last_of(s.drop_last(), c)
    }
}

/// What marks the last occurrence.
pub proof fn lemma_last_of(s: Seq<char>, c: char, k: int)
    requires
        -1 <= k < s.len(),
        k >= 0 ==> s[k] == c,
        forall|j: int| k < j < s.len() ==> s[j] != c,
    ensures
        last_of(s, c) == k,
    decreases s.len(),
{
    if s.len() > 0 && s.last() != c {
        lemma_last_of(s.drop_last(), c, k);
    }
}

/// Finds the last `c` in `chars`.
pub fn find_last_char(chars: &[char], c: char) -> (at: Option<usize>)
    ensures
        match at {
            Some(i) => i < chars@.len() && last_of(chars@, c) == i && chars@[i as int] == c,
            None => last_of(chars@, c) == -1,
        },
{
    let n = chars.len();
    let mut pos: usize = n;
    while pos > 0 && chars[pos - 1] != c
        invariant
            pos <= n,
            n == chars@.len(),
            forall|j: int| pos <= j < n ==> chars@[j] != c,
        decreases pos,
    {
        pos -= 1;
    }
    proof {
        lemma_last_of(chars@, c, pos - 1);
    }
    if pos == 0 {
        None
    } else {
        Some(pos - 1)
    }
}

/// A group of an IPv6 address: one to four hexadecimal digits.
pub open spec fn is_group(s: Seq<char>) -> bool {
    1 <= s.len() <= 4 && forall|i: int| 0 <= i < s.len() ==> primitives::is_hex_char(#[trigger] s[i])
}

/// The number that hexadecimal digits stand for.
pub open spec fn hex_value(s: Seq<char>) -> nat
    decreases s.len(),
{
    if s.len() == 0 {
        0
    } else {
        16 * hex_value(s.drop_last()) + primitives::hex_char_value(s.last()) as nat
    }
}

/// Groups with single colons between them, at least one. The last may be an
/// IPv4 address in dotted form, which makes two groups.
pub open spec fn group_list(s: Seq<char>, dotted: bool) -> Option<Seq<u16>>
    decreases s.len(),
{
    let k = first_of(s, ':');
    if !(0 <= k < s.len()) {
        if is_group(s) {
            Some(seq![hex_value(s) as u16])
        } else if dotted && ipv4_value(s) is Some {
            let bits = ipv4_value(s)->0;
            Some(seq![(bits / 0x1_0000) as u16, (bits % 0x1_0000) as u16])
        } else {
            None
        }
    } else if is_group(s.take(k)) {
        match group_list(s.skip(k + 1), dotted) {
            Some(rest) => Some(seq![hex_value(s.take(k)) as u16] + rest),
            None => None,
        }
    } else {
        None
    }
}

/// As `group_list`, where no group at all is also a list.
pub open spec fn groups_of(s: Seq<char>, dotted: bool) -> Option<Seq<u16>> {
    if s.len() == 0 {
        Some(Seq::empty())
    } else {
        group_list(s, dotted)
    }
}

/// Where two colons in a row first occur; -1 if they do not.
pub open spec fn double_colon(s: Seq<char>) -> int
    decreases s.len(),
{
    if s.len() < 2 {
        -1
    } else if s[0] == ':' && s[1] == ':' {
        0
    } else {
        let k = double_colon(s.skip(1));
        if k < 0 {
            -1
        } else {
            k + 1
        }
    }
}

/// The eight groups of an IPv6 address. Two colons in a row stand for one zero
/// group or more.
pub open spec fn ipv6_value(s: Seq<char>) -> Option<Seq<u16>> {
    let k = double_colon(s);
    if k < 0 {
        match group_list(s, true) {
            Some(groups) => if groups.len() == 8 {
                Some(groups)
            } else {
                None
            },
            None => None,
        }
    } else {
        match (groups_of(s.take(k), false), groups_of(s.skip(k + 2), true)) {
            (Some(head), Some(tail)) => if head.len() + tail.len() <= 7 {
                Some(
                    head + Seq::new((8 - head.len() - tail.len()) as nat, |i: int| 0u16) + tail,
                )
            } else {
                None
            },
            _ => None,
        }
    }
}

/// An IP address with a port.
#[derive(Debug, Clone, Copy, PartialEq, Eq, Hash)]
pub enum SocketAddr {
    V4 { ip: u32, port: u16 },
    V6 { groups: [u16; 8], scope: u32, port: u16 },
}

/// A socket address, as values.
pub ghost enum SocketView {
    V4 { ip: u32, port: u16 },
    V6 { groups: Seq<u16>, scope: u32, port: u16 },
}

impl View for SocketAddr {
    type V = SocketView;

    open spec fn view(&self) -> SocketView {
        match *self {
            SocketAddr::V4 { ip, port } => SocketView::V4 { ip, port },
            SocketAddr::V6 { groups, scope, port } => SocketView::V6 { groups: groups@, scope, port },
        }
    }
}

impl SocketAddr {
    /// Whether two addresses are the same.
    pub fn same(&self, other: &SocketAddr) -> (same: bool)
        ensures
            same == (self@ == other@),
            same == (*self == *other),
    {
        match (self, other) {
            (SocketAddr::V4 { ip: a, port: p }, SocketAddr::V4 { ip: b, port: q }) => *a == *b && *p
                == *q,
            (
                SocketAddr::V6 { groups: a, scope: s, port: p },
                SocketAddr::V6 { groups: b, scope: t, port: q },
            ) => {
                if *s != *t || *p != *q {
                    return false;
                }
                let mut i: usize = 0;
                while i < 8
                    invariant
                        i <= 8,
                        a@.len() == 8,
                        b@.len() == 8,
                        *self == (SocketAddr::V6 { groups: *a, scope: *s, port: *p }),
                        *other == (SocketAddr::V6 { groups: *b, scope: *t, port: *q }),
                        *s == *t,
                        *p == *q,
                        forall|j: int| 0 <= j < i ==> a@[j] == b@[j],
                    decreases 8 - i,
                {
                    if a[i] != b[i] {
                        assert(a@[i as int] != b@[i as int]);
                        return false;
                    }
                    i += 1;
                }
                assert(a@ =~= b@);
                assert(*a == *b);
                true
            },
            _ => false,
        }
    }
}

/// What stands between the square brackets of an IPv6 socket address: the
/// address, and perhaps a percent sign and a scope.
pub open spec fn scoped_ipv6(s: Seq<char>) -> Option<(Seq<u16>, u32)> {
    let p = first_of(s, '%');
    if p >= s.len() {
        match ipv6_value(s) {
            Some(groups) => Some((groups, 0)),
            None => None,
        }
    } else {
        match (ipv6_value(s.take(p)), plain_number(s.skip(p + 1), u32::MAX as nat)) {
            (Some(groups), Some(scope)) => Some((groups, scope as u32)),
            _ => None,
        }
    }
}

/// The socket address that a text stands for: `a.b.c.d:port` or `[ipv6]:port`.
pub open spec fn socket_value(s: Seq<char>) -> Option<SocketView> {
    if s.len() > 0 && s[0] == '[' {
        let k = first_of(s, ']');
        if k + 1 < s.len() && s[k + 1] == ':' {
            match (scoped_ipv6(s.subrange(1, k)), plain_number(s.skip(k + 2), 65535)) {
                (Some((groups, scope)), Some(port)) => Some(
                    SocketView::V6 { groups, scope, port: port as u16 },
                ),
                _ => None,
            }
        } else {
            None
        }
    } else {
        let k = first_of(s, ':');
        if k < s.len() {
            match (ipv4_value(s.take(k)), plain_number(s.skip(k + 1), 65535)) {
                (Some(ip), Some(port)) => Some(SocketView::V4 { ip, port: port as u16 }),
                _ => None,
            }
        } else {
            None
        }
    }
}

fn read_group(chars: &[char], from: usize, to: usize) -> (group: Option<u16>)
    requires
        from <= to <= chars@.len(),
    ensures
        match group {
            Some(g) => is_group(chars@.subrange(from as int, to as int)) && g == hex_value(
                chars@.subrange(from as int, to as int),
            ),
            None => !is_group(chars@.subrange(from as int, to as int)),
        },
{
    let ghost s = chars@.subrange(from as int, to as int);
    if to - from < 1 || to - from > 4 {
        return None;
    }
    let mut v: u32 = 0;
    let mut i: usize = from;
    assert(s.take(0) =~= Seq::empty());
    while i < to
        invariant
            from <= i <= to <= chars@.len(),
            to - from <= 4,
            s == chars@.subrange(from as int, to as int),
            forall|j: int| 0 <= j < i - from ==> primitives::is_hex_char(#[trigger] s[j]),
            v == hex_value(s.take(i - from)),
            i - from == 0 ==> v == 0,
            i - from == 1 ==> v < 16,
            i - from == 2 ==> v < 256,
            i - from == 3 ==> v < 4096,
            i - from == 4 ==> v < 65536,
        decreases to - i,
    {
        let c = chars[i];
        assert(c == s[i - from]);
        let d: u32 = if '0' <= c && c <= '9' {
            c as u32 - 48
        } else if 'a' <= c && c <= 'f' {
            c as u32 - 97 + 10
        } else if 'A' <= c && c <= 'F' {
            c as u32 - 65 + 10
        } else {
            assert(!primitives::is_hex_char(s[i - from]));
            return None;
        };
        assert(s.take(i - from + 1).drop_last() =~= s.take(i - from));
        assert(s.take(i - from + 1).last() == c);
        v = v * 16 + d;
        i += 1;
    }
    assert(s.take(to - from) =~= s);
    Some(v as u16)
}

/// The list that starts with `front` and goes on as `rest` says.
spec fn prepend(front: Seq<u16>, rest: Option<Seq<u16>>) -> Option<Seq<u16>> {
    match rest {
        Some(r) => Some(front + r),
        None => None,
    }
}

fn read_group_list(chars: &[char], from: usize, to: usize, dotted: bool) -> (groups: Option<
    Vec<u16>,
>)
    requires
        from <= to <= chars@.len(),
    ensures
        match groups {
            Some(g) => group_list(chars@.subrange(from as int, to as int), dotted) == Some(g@),
            None => group_list(chars@.subrange(from as int, to as int), dotted) is None,
        },
{
    let ghost whole = chars@.subrange(from as int, to as int);
    let mut groups: Vec<u16> = Vec::new();
    let mut at: usize = from;
    proof {
        assert(prepend(groups@, group_list(whole, dotted)) == group_list(whole, dotted)) by {
            if let Some(r) = group_list(whole, dotted) {
                assert(Seq::<u16>::empty() + r =~= r);
            }
        }
    }
    loop
        invariant
            from <= at <= to <= chars@.len(),
            whole == chars@.subrange(from as int, to as int),
            group_list(whole, dotted) == prepend(
                groups@,
                group_list(chars@.subrange(at as int, to as int), dotted),
            ),
        decreases to - at,
    {
        let ghost s = chars@.subrange(at as int, to as int);
        let k = find_char(chars, at, to, ':');
        if k == to {
            match read_group(chars, at, to) {
                Some(g) => {
                    let ghost before = groups@;
                    groups.push(g);
                    assert(before + seq![g] =~= groups@);
                    return Some(groups);
                },
                None => {},
            }
            if dotted {
                match read_ipv4(chars, at, to) {
                    Some(bits) => {
                        let ghost before = groups@;
                        let high: u16 = (bits / 0x1_0000) as u16;
                        let low: u16 = (bits % 0x1_0000) as u16;
                        groups.push(high);
                        groups.push(low);
                        assert(before + seq![high, low] =~= groups@);
                        return Some(groups);
                    },
                    None => {},
                }
            }
            return None;
        }
        assert(s.take(k - at) =~= chars@.subrange(at as int, k as int));
        match read_group(chars, at, k) {
            Some(g) => {
                let ghost before = groups@;
                let ghost rest = group_list(chars@.subrange(k + 1, to as int), dotted);
                groups.push(g);
                proof {
                    assert(s.skip(k - at + 1) =~= chars@.subrange(k + 1, to as int));
                    if let Some(r) = rest {
                        assert(before + (seq![g] + r) =~= groups@ + r);
                    }
                }
                at = k + 1;
            },
            None => {
                return None;
            },
        }
    }
}

fn read_groups(chars: &[char], from: usize, to: usize, dotted: bool) -> (groups: Option<Vec<u16>>)
    requires
        from <= to <= chars@.len(),
    ensures
        match groups {
            Some(g) => groups_of(chars@.subrange(from as int, to as int), dotted) == Some(g@),
            None => groups_of(chars@.subrange(from as int, to as int), dotted) is None,
        },
{
    if from == to {
        let empty: Vec<u16> = Vec::new();
        assert(empty@ =~= Seq::empty());
        Some(empty)
    } else {
        read_group_list(chars, from, to, dotted)
    }
}

proof fn lemma_double_colon(s: Seq<char>, k: int)
    requires
        -1 <= k <= s.len() - 2 || k == -1,
        forall|j: int| 0 <= j < (if k < 0 { s.len() as int - 1 } else { k }) ==> !(#[trigger] s[j] == ':' && s[j + 1] == ':'),
        k >= 0 ==> s[k] == ':' && s[k + 1] == ':',
    ensures
        double_colon(s) == k,
    decreases s.len(),
{
    if s.len() >= 2 && k != 0 {
        let t = s.skip(1);
        assert(!(s[0] == ':' && s[1] == ':'));
        let k2 = if k < 0 { -1 } else { k - 1 };
        assert forall|j: int| 0 <= j < (if k2 < 0 { t.len() as int - 1 } else { k2 }) implies !(#[trigger] t[j]
            == ':' && t[j + 1] == ':') by {
            assert(t[j] == s[j + 1]);
            assert(t[j + 1] == s[j + 2]);
            assert(!(s[j + 1] == ':' && s[j + 1 + 1] == ':'));
        }
        lemma_double_colon(t, k2);
    }
}

fn find_double_colon(chars: &[char], from: usize, to: usize) -> (at: Option<usize>)
    requires
        from <= to <= chars@.len(),
    ensures
        match at {
            Some(i) => from <= i && i + 2 <= to && double_colon(
                chars@.subrange(from as int, to as int),
            ) == i - from,
            None => double_colon(chars@.subrange(from as int, to as int)) == -1,
        },
{
    let ghost s = chars@.subrange(from as int, to as int);
    let mut i: usize = from;
    while i < to && to - i >= 2
        invariant
            from <= i <= to <= chars@.len(),
            s == chars@.subrange(from as int, to as int),
            forall|j: int| 0 <= j < i - from && j + 1 < s.len() ==> !(#[trigger] s[j] == ':' && s[j + 1] == ':'),
        decreases to - i,
    {
        assert(s[i - from] == chars@[i as int]);
        assert(s[i - from + 1] == chars@[i + 1]);
        if chars[i] == ':' && chars[i + 1] == ':' {
            proof {
                lemma_double_colon(s, i - from);
            }
            return Some(i);
        }
        i += 1;
    }
    proof {
        lemma_double_colon(s, -1);
    }
    None
}

fn eight_groups(head: &Vec<u16>, tail: &Vec<u16>) -> (groups: [u16; 8])
    requires
        head@.len() + tail@.len() <= 8,
    ensures
        groups@ == head@ + Seq::new((8 - head@.len() - tail@.len()) as nat, |i: int| 0u16) + tail@,
{
    let mut groups: [u16; 8] = [0u16; 8];
    let h = head.len();
    let t = tail.len();
    let mut i: usize = 0;
    while i < 8
        invariant
            i <= 8,
            h == head@.len(),
            t == tail@.len(),
            h + t <= 8,
            forall|j: int|
                0 <= j < i ==> groups@[j] == (if j < h {
                    head@[j]
                } else if j < 8 - t {
                    0u16
                } else {
                    tail@[j - (8 - t)]
                }),
        decreases 8 - i,
    {
        groups[i] = if i < h {
            head[i]
        } else if i < 8 - t {
            0
        } else {
            tail[i - (8 - t)]
        };
        i += 1;
    }
    assert(groups@ =~= head@ + Seq::new((8 - head@.len() - tail@.len()) as nat, |i: int| 0u16)
        + tail@);
    groups
}

fn read_ipv6(chars: &[char], from: usize, to: usize) -> (groups: Option<[u16; 8]>)
    requires
        from <= to <= chars@.len(),
    ensures
        match groups {
            Some(g) => ipv6_value(chars@.subrange(from as int, to as int)) == Some(g@),
            None => ipv6_value(chars@.subrange(from as int, to as int)) is None,
        },
{
    let ghost s = chars@.subrange(from as int, to as int);
    match find_double_colon(chars, from, to) {
        None => match read_group_list(chars, from, to, true) {
            Some(list) => {
                if list.len() == 8 {
                    let none: Vec<u16> = Vec::new();
                    let groups = eight_groups(&list, &none);
                    assert(groups@ =~= list@);
                    Some(groups)
                } else {
                    None
                }
            },
            None => None,
        },
        Some(k) => {
            assert(s.take(k - from) =~= chars@.subrange(from as int, k as int));
            assert(s.skip(k - from + 2) =~= chars@.subrange(k + 2, to as int));
            match (read_groups(chars, from, k, false), read_groups(chars, k + 2, to, true)) {
                (Some(head), Some(tail)) => {
                    if head.len() <= 7 && tail.len() <= 7 - head.len() {
                        Some(eight_groups(&head, &tail))
                    } else {
                        None
                    }
                },
                _ => None,
            }
        },
    }
}

fn read_scoped(chars: &[char], from: usize, to: usize) -> (parts: Option<([u16; 8], u32)>)
    requires
        from <= to <= chars@.len(),
    ensures
        match parts {
            Some((g, scope)) => scoped_ipv6(chars@.subrange(from as int, to as int)) == Some(
                (g@, scope),
            ),
            None => scoped_ipv6(chars@.subrange(from as int, to as int)) is None,
        },
{
    let ghost s = chars@.subrange(from as int, to as int);
    let p = find_char(chars, from, to, '%');
    if p == to {
        match read_ipv6(chars, from, to) {
            Some(groups) => Some((groups, 0)),
            None => None,
        }
    } else {
        assert(s.take(p - from) =~= chars@.subrange(from as int, p as int));
        assert(s.skip(p - from + 1) =~= chars@.subrange(p + 1, to as int));
        match (read_ipv6(chars, from, p), read_plain_number(chars, p + 1, to, u32::MAX)) {
            (Some(groups), Some(scope)) => Some((groups, scope)),
            _ => None,
        }
    }
}

/// Reads a text as a socket address.
pub fn parse_socket(text: &str) -> (addr: Option<SocketAddr>)
    ensures
        match addr {
            Some(a) => socket_value(text@) == Some(a@),
            None => socket_value(text@) is None,
        },
{
    let chars = crate::text::chars_of(text);
    let n = chars.len();
    let ghost s = chars@;
    assert(s.subrange(0, n as int) =~= s);
    if n > 0 && chars[0] == '[' {
        let k = find_char(chars.as_slice(), 0, n, ']');
        if n - k < 2 || chars[k + 1] != ':' {
            return None;
        }
        assert(s.skip(k + 2) =~= s.subrange(k + 2, n as int));
        match (
            read_scoped(chars.as_slice(), 1, k),
            read_plain_number(chars.as_slice(), k + 2, n, 65535),
        ) {
            (Some((groups, scope)), Some(port)) => Some(
                SocketAddr::V6 { groups, scope, port: port as u16 },
            ),
            _ => None,
        }
    } else {
        let k = find_char(chars.as_slice(), 0, n, ':');
        if k == n {
            return None;
        }
        assert(s.take(k as int) =~= s.subrange(0, k as int));
        assert(s.skip(k + 1) =~= s.subrange(k + 1, n as int));
        match (
            read_ipv4(chars.as_slice(), 0, k),
            read_plain_number(chars.as_slice(), k + 1, n, 65535),
        ) {
            (Some(ip), Some(port)) => Some(SocketAddr::V4 { ip, port: port as u16 }),
            _ => None,
        }
    }
}

/// An IPv4 socket address as text.
pub open spec fn socket_v4_text(ip: u32, port: u16) -> Seq<char> {
    ipv4_text(ip) + seq![':'] + decimal(port as nat)
}

/// Writes an IPv4 socket address.
pub fn socket_v4_to_text(ip: u32, port: u16) -> (text: String)
    ensures
        text@ == socket_v4_text(ip, port),
{
    let mut text = ipv4_to_text(ip);
    text.push(':');
    text.append(decimal_text(port as u64).as_str());
    assert(text@ =~= socket_v4_text(ip, port));
    text
}

/// An IPv4 socket address is read as it was written.
pub proof fn lemma_socket_v4_round_trip(ip: u32, port: u16)
    ensures
        socket_value(socket_v4_text(ip, port)) == Some(SocketView::V4 { ip, port }),
{
    let s = socket_v4_text(ip, port);
    let head = ipv4_text(ip);
    let k = head.len() as int;
    lemma_ipv4_round_trip(ip);
    lemma_decimal_value(port as nat);
    lemma_ipv4_shape(head, ip);
    assert(s[0] == head[0]);
    assert forall|j: int| 0 <= j < k implies s[j] != ':' && is_digit(head[j]) || head[j] == '.' by {
        lemma_ipv4_chars(ip, j);
        assert(s[j] == head[j]);
    }
    assert forall|j: int| 0 <= j < k implies s[j] != ':' by {
        lemma_ipv4_chars(ip, j);
        assert(s[j] == head[j]);
    }
    lemma_ipv4_chars(ip, 0);
    lemma_first_of(s, ':', k);
    assert(s.take(k) =~= head);
    assert(s.skip(k + 1) =~= decimal(port as nat));
}

/// An address in dotted form consists of digits and dots.
pub proof fn lemma_ipv4_chars(bits: u32, j: int)
    requires
        0 <= j < ipv4_text(bits).len(),
    ensures
        is_digit(ipv4_text(bits)[j]) || ipv4_text(bits)[j] == '.',
{
    let a = decimal(octet_of(bits, 0));
    let b = decimal(octet_of(bits, 1));
    let c = decimal(octet_of(bits, 2));
    let d = decimal(octet_of(bits, 3));
    lemma_decimal_value(octet_of(bits, 0));
    lemma_decimal_value(octet_of(bits, 1));
    lemma_decimal_value(octet_of(bits, 2));
    lemma_decimal_value(octet_of(bits, 3));
    let p1 = a.len() as int;
    let p2 = p1 + 1 + b.len() as int;
    let p3 = p2 + 1 + c.len() as int;
    let s = ipv4_text(bits);
    if j < p1 {
        assert(s[j] == a[j]);
    } else if p1 < j < p2 {
        assert(s[j] == b[j - p1 - 1]);
    } else if p2 < j < p3 {
        assert(s[j] == c[j - p2 - 1]);
    } else if p3 < j {
        assert(s[j] == d[j - p3 - 1]);
    }
}

/// A number is read from its digits, with or without a plus sign in front where one is
/// allowed, up to the largest that is allowed.
pub proof fn lemma_numbers_are_read(n: nat, max: nat)
    ensures
        plain_number(decimal(n), max) == (if n <= max {
            Some(n)
        } else {
            None
        }),
        signed_number(decimal(n), max) == plain_number(decimal(n), max),
        signed_number(seq!['+'] + decimal(n), max) == plain_number(decimal(n), max),
        plain_number(seq!['+'] + decimal(n), max) is None,
        plain_number(Seq::empty(), max) is None,
        signed_number(Seq::empty(), max) is None,
        signed_number(seq!['+'], max) is None,
        n > 0 ==> decimal(n)[0] != '0',
{
    lemma_decimal_value(n);
    lemma_no_zero_in_front(n);
    let s = seq!['+'] + decimal(n);
    assert(s.skip(1) =~= decimal(n));
    assert(!is_digit(s[0]));
    assert(is_digit(decimal(n)[0]));
    assert(seq!['+'].skip(1) =~= Seq::empty());
}

proof fn lemma_no_zero_in_front(n: nat)
    ensures
        n > 0 ==> decimal(n)[0] != '0',
        decimal(n).len() > 0,
    decreases n,
{
    if n >= 10 {
        lemma_no_zero_in_front(n / 10);
        assert(decimal(n)[0] == decimal(n / 10)[0]);
    }
}

/// A number below nothing has a minus sign in front of its digits.
pub proof fn lemma_sign_is_shown(n: int)
    ensures
        n >= 0 ==> signed_decimal(n) == decimal(n as nat),
        n < 0 ==> signed_decimal(n) == seq!['-'] + decimal((-n) as nat),
{
}

/// An IPv6 address has eight groups, however it is written. Two colons stand for one
/// group at least.
pub proof fn lemma_eight_groups(s: Seq<char>)
    ensures
        ipv6_value(s) matches Some(groups) ==> groups.len() == 8,
        double_colon(s) >= 0 && ipv6_value(s) is Some ==> ({
            let k = double_colon(s);
            let head = groups_of(s.take(k), false);
            let tail = groups_of(s.skip(k + 2), true);
            &&& head is Some && tail is Some
            &&& head->0.len() + tail->0.len() <= 7
            &&& ipv6_value(s)->0.take(head->0.len() as int) == head->0
            &&& ipv6_value(s)->0.skip(8 - tail->0.len()) == tail->0
            &&& forall|i: int| head->0.len() <= i < 8 - tail->0.len() ==> #[trigger] ipv6_value(s)->0[i] == 0
        }),
{
    let k = double_colon(s);
    if k >= 0 && ipv6_value(s) is Some {
        let head = groups_of(s.take(k), false)->0;
        let tail = groups_of(s.skip(k + 2), true)->0;
        let all = ipv6_value(s)->0;
        assert(all.take(head.len() as int) =~= head);
        assert(all.skip(8 - tail.len()) =~= tail);
    }
}

/// The groups of an IPv6 address are read one after the other, each from one to four
/// hexadecimal digits, with a colon between any two.
pub proof fn lemma_groups_one_after_the_other(group: Seq<char>, rest: Seq<char>, dotted: bool)
    requires
        !group.contains(':'),
    ensures
        ({
            let whole = 1 <= group.len() <= 4 && forall|i: int|
                0 <= i < group.len() ==> '0' <= #[trigger] group[i] <= '9' || 'a' <= group[i] <= 'f' || 'A'
                    <= group[i] <= 'F';
            &&& whole ==> group_list(group, dotted) == Some(seq![hex_value(group) as u16])
            &&& !whole ==> group_list(group, false) is None
            &&& whole && group_list(rest, dotted) is Some ==> group_list(group + seq![':'] + rest, dotted) == Some(
                seq![hex_value(group) as u16] + group_list(rest, dotted)->0,
            )
            &&& !whole || group_list(rest, dotted) is None ==> group_list(group + seq![':'] + rest, dotted) is None
        }),
        groups_of(Seq::empty(), dotted) == Some(Seq::<u16>::empty()),
        group.len() > 0 ==> groups_of(group, dotted) == group_list(group, dotted),
{
    let k = group.len() as int;
    assert forall|j: int| 0 <= j < k implies group[j] != ':' by {
        assert(group.contains(group[j]));
    }
    lemma_first_of(group, ':', k);
    let s = group + seq![':'] + rest;
    assert forall|j: int| 0 <= j < k implies s[j] != ':' by {
        assert(s[j] == group[j]);
    }
    assert(s[k] == ':');
    lemma_first_of(s, ':', k);
    assert(s.take(k) =~= group);
    assert(s.skip(k + 1) =~= rest);
}

/// Four hexadecimal digits give the two bytes that they are written for, the high one
/// first.
pub proof fn lemma_group_of_two_bytes(high: u8, low: u8)
    ensures
        hex_value(primitives::hex_text(seq![high, low])) == high * 256 + low,
        is_group(primitives::hex_text(seq![high, low])),
{
    let bytes = seq![high, low];
    let s = primitives::hex_text(bytes);
    primitives::lemma_hex_is_two_digits_a_byte(bytes, 0);
    primitives::lemma_hex_is_two_digits_a_byte(bytes, 1);
    assert(s.len() == 4);
    let a = primitives::hex_char_value(s[0]);
    let b = primitives::hex_char_value(s[1]);
    let c = primitives::hex_char_value(s[2]);
    let d = primitives::hex_char_value(s[3]);
    assert(primitives::is_hex_char(s[0]) && primitives::is_hex_char(s[1]) && primitives::is_hex_char(s[2])
        && primitives::is_hex_char(s[3]));
    reveal_with_fuel(hex_value, 5);
    assert(s.drop_last().drop_last().drop_last().drop_last() =~= Seq::empty());
    assert(s.drop_last().drop_last().drop_last().last() == s[0]);
    assert(s.drop_last().drop_last().last() == s[1]);
    assert(s.drop_last().last() == s[2]);
    assert(hex_value(s) == 16 * (16 * (16 * a + b) + c) + d);
}

/// Two colons are found where they stand first; an address has them at one place at most.
pub proof fn lemma_first_double_colon(s: Seq<char>)
    ensures
        -1 <= double_colon(s) <= s.len() - 2 || double_colon(s) == -1,
        double_colon(s) >= 0 ==> s[double_colon(s)] == ':' && s[double_colon(s) + 1] == ':',
        forall|j: int|
            0 <= j < s.len() - 1 && (double_colon(s) < 0 || j < double_colon(s)) ==> !(#[trigger] s[j] == ':' && s[j
                + 1] == ':'),
    decreases s.len(),
{
    if s.len() >= 2 && !(s[0] == ':' && s[1] == ':') {
        let t = s.skip(1);
        lemma_first_double_colon(t);
        assert forall|j: int|
            0 <= j < s.len() - 1 && (double_colon(s) < 0 || j < double_colon(s)) implies !(#[trigger] s[j] == ':'
            && s[j + 1] == ':') by {
            if j > 0 {
                assert(t[j - 1] == s[j] && t[j] == s[j + 1]);
            }
        }
        if double_colon(s) >= 0 {
            let k = double_colon(s);
            assert(t[k - 1] == s[k] && t[k] == s[k + 1]);
        }
    }
}

/// An address in brackets is of IPv6, and may name an interface behind a percent sign; it
/// is on no particular one where it names none.
pub proof fn lemma_address_in_brackets(inside: Seq<char>, scope: u32, port: u16)
    requires
        !inside.contains(']'),
        !inside.contains('%'),
        ipv6_value(inside) is Some,
    ensures
        socket_value(seq!['['] + inside + seq![']', ':'] + decimal(port as nat)) == Some(
            SocketView::V6 { groups: ipv6_value(inside)->0, scope: 0, port },
        ),
        socket_value(
            seq!['['] + (inside + seq!['%'] + decimal(scope as nat)) + seq![']', ':'] + decimal(port as nat),
        ) == Some(SocketView::V6 { groups: ipv6_value(inside)->0, scope, port }),
{
    assert forall|j: int| 0 <= j < inside.len() implies inside[j] != '%' && inside[j] != ']' by {
        assert(inside.contains(inside[j]));
    }
    lemma_first_of(inside, '%', inside.len() as int);
    lemma_bracketed(inside, port);
    let scoped = inside + seq!['%'] + decimal(scope as nat);
    let k = inside.len() as int;
    lemma_decimal_value(scope as nat);
    assert forall|j: int| 0 <= j < scoped.len() implies scoped[j] != ']' by {
        if j < k {
            assert(scoped[j] == inside[j]);
        } else if j > k {
            assert(scoped[j] == decimal(scope as nat)[j - k - 1]);
            assert(is_digit(decimal(scope as nat)[j - k - 1]));
        }
    }
    assert forall|j: int| 0 <= j < k implies scoped[j] != '%' by {
        assert(scoped[j] == inside[j]);
    }
    assert(scoped[k] == '%');
    lemma_first_of(scoped, '%', k);
    assert(scoped.take(k) =~= inside);
    assert(scoped.skip(k + 1) =~= decimal(scope as nat));
    lemma_bracketed(scoped, port);
}

proof fn lemma_bracketed(inside: Seq<char>, port: u16)
    requires
        forall|j: int| 0 <= j < inside.len() ==> inside[j] != ']',
        scoped_ipv6(inside) is Some,
    ensures
        socket_value(seq!['['] + inside + seq![']', ':'] + decimal(port as nat)) == Some(
            SocketView::V6 { groups: (scoped_ipv6(inside)->0).0, scope: (scoped_ipv6(inside)->0).1, port },
        ),
{
    let s = seq!['['] + inside + seq![']', ':'] + decimal(port as nat);
    let k = inside.len() as int + 1;
    lemma_decimal_value(port as nat);
    assert(s[0] == '[');
    assert forall|j: int| 0 <= j < k implies s[j] != ']' by {
        if j > 0 {
            assert(s[j] == inside[j - 1]);
        }
    }
    assert(s[k] == ']' && s[k + 1] == ':');
    lemma_first_of(s, ']', k);
    assert(s.subrange(1, k) =~= inside);
    assert(s.skip(k + 2) =~= decimal(port as nat));
}

} // verus!
