//! Little-endian integers in byte buffers.

use vstd::prelude::*;

verus! {

/// The number that a little-endian byte sequence stands for.
pub open spec fn le_value(bytes: Seq<u8>) -> nat
    decreases bytes.len(),
{
    if bytes.len() == 0 {
        0
    } else {
        bytes[0] as nat + 256 * le_value(bytes.skip(1))
    }
}

/// The low `width` bytes of `value`, least significant first.
pub open spec fn le_bytes(value: nat, width: nat) -> Seq<u8>
    decreases width,
{
    if width == 0 {
        Seq::empty()
    } else {
        seq![(value % 256) as u8] + le_bytes(value / 256, (width - 1) as nat)
    }
}

/// How many numbers `width` bytes can hold.
pub open spec fn byte_span(width: nat) -> nat
    decreases width,
{
    if width == 0 {
        1
    } else {
        256 * byte_span((width - 1) as nat)
    }
}

/// An encoding has the width that was asked for.
pub proof fn lemma_le_bytes_len(value: nat, width: nat)
    ensures
        le_bytes(value, width).len() == width,
    decreases width,
{
    if width > 0 {
        lemma_le_bytes_len(value / 256, (width - 1) as nat);
    }
}

/// Reading back an encoding gives the encoded number.
pub proof fn lemma_le_round_trip(value: nat, width: nat)
    requires
        value < byte_span(width),
    ensures
        le_value(le_bytes(value, width)) == value,
        le_bytes(value, width).len() == width,
    decreases width,
{
    if width > 0 {
        let rest = le_bytes(value / 256, (width - 1) as nat);
        assert(value / 256 < byte_span((width - 1) as nat)) by (nonlinear_arith)
            requires
                value < 256 * byte_span((width - 1) as nat),
        ;
        lemma_le_round_trip(value / 256, (width - 1) as nat);
        assert(le_bytes(value, width).skip(1) =~= rest);
    }
}

/// Encoding the number that a byte sequence stands for gives the sequence back.
pub proof fn lemma_le_bytes_of_value(bytes: Seq<u8>)
    ensures
        le_bytes(le_value(bytes), bytes.len()) == bytes,
        le_value(bytes) < byte_span(bytes.len()),
    decreases bytes.len(),
{
    if bytes.len() > 0 {
        let rest = bytes.skip(1);
        lemma_le_bytes_of_value(rest);
        let v = le_value(bytes);
        assert(v == bytes[0] as nat + 256 * le_value(rest));
        assert(v % 256 == bytes[0] as nat);
        assert(v / 256 == le_value(rest));
        assert(seq![bytes[0]] + rest =~= bytes);
    }
}

/// An encoding depends only on the part of a number that its width can hold.
pub proof fn lemma_le_bytes_low(value: nat, width: nat)
    ensures
        le_bytes(value % byte_span(width), width) == le_bytes(value, width),
        byte_span(width) > 0,
    decreases width,
{
    if width > 0 {
        let rest = (width - 1) as nat;
        let span = byte_span(rest);
        lemma_le_bytes_low(value / 256, rest);
        vstd::arithmetic::div_mod::lemma_mod_breakdown(value as int, 256, span as int);
        lemma_byte_and_rest(value % byte_span(width), (value / 256) % span, value % 256);
    }
}

proof fn lemma_byte_and_rest(value: nat, rest: nat, byte: nat)
    requires
        value == 256 * rest + byte,
        byte < 256,
    ensures
        value % 256 == byte,
        value / 256 == rest,
{
}

/// The sizes of the integer types that the wire formats use.
pub proof fn lemma_byte_spans()
    ensures
        byte_span(2) == 0x1_0000,
        byte_span(4) == 0x1_0000_0000,
        byte_span(8) == 0x1_0000_0000_0000_0000,
{
    reveal_with_fuel(byte_span, 9);
}

/// Reads the `u16` at the front of `bytes`.
pub fn read_u16_le(bytes: &[u8]) -> (value: u16)
    requires
        bytes@.len() >= 2,
    ensures
        value == le_value(bytes@.take(2)),
{
    proof {
        reveal_with_fuel(le_value, 3);
        assert(bytes@.take(2).skip(1) =~= seq![bytes@[1]]);
        assert(seq![bytes@[1]].skip(1) =~= Seq::<u8>::empty());
    }
    bytes[0] as u16 + 0x100 * bytes[1] as u16
}

/// Reads the `u32` at the front of `bytes`.
pub fn read_u32_le(bytes: &[u8]) -> (value: u32)
    requires
        bytes@.len() >= 4,
    ensures
        value == le_value(bytes@.take(4)),
{
    let low = read_u16_le(bytes);
    let high = read_u16_le(vstd::slice::slice_subrange(bytes, 2, 4));
    proof {
        let b = bytes@.take(4);
        reveal_with_fuel(le_value, 3);
        assert(bytes@.take(2) =~= seq![b[0], b[1]]);
        assert(bytes@.subrange(2, 4).take(2) =~= seq![b[2], b[3]]);
        assert(b.skip(1).skip(1) =~= seq![b[2], b[3]]);
        assert(seq![b[0], b[1]].skip(1) =~= seq![b[1]]);
        assert(seq![b[1]].skip(1) =~= Seq::<u8>::empty());
        assert(b.skip(1)[0] == b[1]);
        assert(le_value(b) == b[0] as nat + 256 * le_value(b.skip(1)));
    }
    low as u32 + 0x1_0000 * high as u32
}

/// Reads the `u64` at the front of `bytes`.
pub fn read_u64_le(bytes: &[u8]) -> (value: u64)
    requires
        bytes@.len() >= 8,
    ensures
        value == le_value(bytes@.take(8)),
{
    let low = read_u32_le(bytes);
    let high = read_u32_le(vstd::slice::slice_subrange(bytes, 4, 8));
    proof {
        let b = bytes@.take(8);
        reveal_with_fuel(le_value, 5);
        let f = bytes@.take(4);
        let g = bytes@.subrange(4, 8).take(4);
        assert(b.skip(1).skip(1).skip(1).skip(1) =~= g);
        assert(f.skip(1).skip(1).skip(1).skip(1) =~= Seq::<u8>::empty());
    }
    low as u64 + 0x1_0000_0000 * high as u64
}

/// Appends `value` as two bytes.
pub fn write_u16_le(out: &mut Vec<u8>, value: u16)
    ensures
        final(out)@ == old(out)@ + le_bytes(value as nat, 2),
{
    proof {
        reveal_with_fuel(le_bytes, 3);
    }
    out.push((value % 256) as u8);
    out.push((value / 256 % 256) as u8);
}

/// Appends `value` as four bytes.
pub fn write_u32_le(out: &mut Vec<u8>, value: u32)
    ensures
        final(out)@ == old(out)@ + le_bytes(value as nat, 4),
{
    proof {
        reveal_with_fuel(le_bytes, 5);
    }
    let mut rest: u32 = value;
    out.push((rest % 256) as u8);
    rest = rest / 256;
    out.push((rest % 256) as u8);
    rest = rest / 256;
    out.push((rest % 256) as u8);
    rest = rest / 256;
    out.push((rest % 256) as u8);
}

/// Appends `value` as eight bytes.
pub fn write_u64_le(out: &mut Vec<u8>, value: u64)
    ensures
        final(out)@ == old(out)@ + le_bytes(value as nat, 8),
{
    proof {
        reveal_with_fuel(le_bytes, 9);
    }
    let mut rest: u64 = value;
    out.push((rest % 256) as u8);
    rest = rest / 256;
    out.push((rest % 256) as u8);
    rest = rest / 256;
    out.push((rest % 256) as u8);
    rest = rest / 256;
    out.push((rest % 256) as u8);
    rest = rest / 256;
    out.push((rest % 256) as u8);
    rest = rest / 256;
    out.push((rest % 256) as u8);
    rest = rest / 256;
    out.push((rest % 256) as u8);
    rest = rest / 256;
    out.push((rest % 256) as u8);
}

/// Whether two byte slices hold the same bytes.
pub fn bytes_equal(a: &[u8], b: &[u8]) -> (equal: bool)
    ensures
        equal == (a@ == b@),
{
    if a.len() != b.len() {
        return false;
    }
    let mut i: usize = 0;
    while i < a.len()
        invariant
            i <= a@.len(),
            a@.len() == b@.len(),
            forall|j: int| 0 <= j < i ==> a@[j] == b@[j],
        decreases a@.len() - i,
    {
        if a[i] != b[i] {
            return false;
        }
        i += 1;
    }
    assert(a@ =~= b@);
    true
}

/// Appends a copy of `extra`.
pub fn append_bytes(out: &mut Vec<u8>, extra: &[u8])
    ensures
        final(out)@ == old(out)@ + extra@,
{
    out.extend_from_slice(extra);
    assert(out@ =~= old(out)@ + extra@);
}

/// A copy of `bytes` as an array.
pub fn to_array<const N: usize>(bytes: &[u8]) -> (array: [u8; N])
    requires
        bytes@.len() == N,
    ensures
        array@ == bytes@,
{
    let mut array: [u8; N] = vstd::array::array_fill_for_copy_types::<u8, N>(0);
    let mut i: usize = 0;
    while i < N
        invariant
            i <= N,
            bytes@.len() == N,
            forall|j: int| 0 <= j < i ==> array@[j] == bytes@[j],
        decreases N - i,
    {
        array[i] = bytes[i];
        i += 1;
    }
    assert(array@ =~= bytes@);
    array
}

/// The bytes of a number on the wire: the lowest first.
pub proof fn lemma_lowest_byte_first(value: nat)
    ensures
        value < 0x1_0000 ==> ({
            let b = le_bytes(value, 2);
            b.len() == 2 && value == b[0] + 0x100 * b[1]
        }),
        value < 0x1_0000_0000 ==> ({
            let b = le_bytes(value, 4);
            b.len() == 4 && value == b[0] + 0x100 * b[1] + 0x1_0000 * b[2] + 0x100_0000 * b[3]
        }),
        value < 0x1_0000_0000_0000_0000 ==> ({
            let b = le_bytes(value, 8);
            &&& b.len() == 8
            &&& value == b[0] + 0x100 * b[1] + 0x1_0000 * b[2] + 0x100_0000 * b[3] + 0x1_0000_0000 * b[4]
                + 0x100_0000_0000 * b[5] + 0x1_0000_0000_0000 * b[6] + 0x100_0000_0000_0000 * b[7]
        }),
{
    if value < 0x1_0000 {
        lemma_bytes_of_two(value);
    }
    if value < 0x1_0000_0000 {
        lemma_bytes_of_four(value);
    }
    if value < 0x1_0000_0000_0000_0000 {
        lemma_bytes_of_eight(value);
    }
}

proof fn lemma_bytes_of_two(value: nat)
    requires
        value < 0x1_0000,
    ensures
        le_bytes(value, 2) == seq![(value % 256) as u8, (value / 256) as u8],
{
    reveal_with_fuel(le_bytes, 3);
    assert(le_bytes(value / 256 / 256, 0) =~= Seq::<u8>::empty());
    assert(value / 256 % 256 == value / 256);
    assert(le_bytes(value, 2) =~= seq![(value % 256) as u8, (value / 256) as u8]);
}

proof fn lemma_bytes_of_four(value: nat)
    requires
        value < 0x1_0000_0000,
    ensures
        le_bytes(value, 4) == le_bytes(value % 0x1_0000, 2) + le_bytes(value / 0x1_0000, 2),
        ({
            let b = le_bytes(value, 4);
            b.len() == 4 && value == b[0] + 0x100 * b[1] + 0x1_0000 * b[2] + 0x100_0000 * b[3]
        }),
{
    lemma_bytes_of_two(value % 0x1_0000);
    lemma_bytes_of_two(value / 0x1_0000);
    reveal_with_fuel(le_bytes, 5);
    assert(value / 256 / 256 == value / 0x1_0000);
    assert(value % 0x1_0000 % 256 == value % 256);
    assert(value % 0x1_0000 / 256 == value / 256 % 256);
    assert(le_bytes(value, 4) =~= seq![(value % 256) as u8, (value / 256 % 256) as u8] + le_bytes(
        value / 256 / 256,
        2,
    ));
    assert(le_bytes(value, 4) =~= le_bytes(value % 0x1_0000, 2) + le_bytes(value / 0x1_0000, 2));
}

proof fn lemma_bytes_of_eight(value: nat)
    requires
        value < 0x1_0000_0000_0000_0000,
    ensures
        ({
            let b = le_bytes(value, 8);
            &&& b.len() == 8
            &&& value == b[0] + 0x100 * b[1] + 0x1_0000 * b[2] + 0x100_0000 * b[3] + 0x1_0000_0000 * b[4]
                + 0x100_0000_0000 * b[5] + 0x1_0000_0000_0000 * b[6] + 0x100_0000_0000_0000 * b[7]
        }),
{
    let low = value % 0x1_0000_0000;
    let high = value / 0x1_0000_0000;
    lemma_bytes_of_four(low);
    lemma_bytes_of_four(high);
    lemma_split_bytes(value, 4, 4);
    lemma_byte_spans();
    lemma_le_bytes_low(value, 4);
    assert(le_bytes(value, 8) =~= le_bytes(low, 4) + le_bytes(high, 4));
}

/// The first bytes of a number stand for its low part, the others for the rest.
proof fn lemma_split_bytes(value: nat, n: nat, m: nat)
    ensures
        le_bytes(value, n + m) == le_bytes(value, n) + le_bytes(value / byte_span(n), m),
    decreases n,
{
    if n == 0 {
        assert(byte_span(0) == 1 && value / 1 == value);
        assert(le_bytes(value, 0) + le_bytes(value, m) =~= le_bytes(value, m));
    } else {
        let k = (n - 1) as nat;
        lemma_split_bytes(value / 256, k, m);
        lemma_le_bytes_low(value, k);
        vstd::arithmetic::div_mod::lemma_div_denominator(value as int, 256, byte_span(k) as int);
        assert((n + m - 1) as nat == k + m);
        assert(le_bytes(value, n + m) =~= le_bytes(value, n) + le_bytes(value / byte_span(n), m));
    }
}

} // verus!
