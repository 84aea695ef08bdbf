//! Strings as sequences of characters.

use vstd::prelude::*;
use vstd::utf8::{decode_utf8, encode_utf8, encode_utf8_decode_utf8, encode_utf8_valid_utf8, valid_utf8};

verus! {

/// What `String::from_utf8_lossy` makes of bytes that are not UTF-8.
pub uninterp spec fn utf8_repaired(bytes: Seq<u8>) -> Seq<char>;

/// Text out of bytes, repaired where they are not UTF-8.
pub open spec fn lossy_text(bytes: Seq<u8>) -> Seq<char> {
    if valid_utf8(bytes) {
        decode_utf8(bytes)
    } else {
        utf8_repaired(bytes)
    }
}

/// `String::from_utf8_lossy`.
///
/// Believed: bytes that are UTF-8 give their text; what others give depends on
/// the bytes alone.
#[verifier::external_body]
pub(crate) fn text_lossy(bytes: &[u8]) -> (text: String)
    ensures
        valid_utf8(bytes@) ==> text@ == decode_utf8(bytes@),
        !valid_utf8(bytes@) ==> text@ == utf8_repaired(bytes@),
{
    String::from_utf8_lossy(bytes).into_owned()
}

/// `std::str::from_utf8`.
///
/// Believed: it succeeds exactly on UTF-8, with the text that the bytes encode.
#[verifier::external_body]
pub(crate) fn text_of_utf8<'a>(bytes: &'a [u8]) -> (text: Option<&'a str>)
    ensures
        text is Some == valid_utf8(bytes@),
        text matches Some(s) ==> s@ == decode_utf8(bytes@),
{
    std::str::from_utf8(bytes).ok()
}

/// The bytes of a text are UTF-8 and give the text back.
pub proof fn lemma_text_bytes(text: Seq<char>)
    ensures
        valid_utf8(encode_utf8(text)),
        decode_utf8(encode_utf8(text)) == text,
{
    encode_utf8_valid_utf8(text);
    encode_utf8_decode_utf8(text);
}

/// `String::push`: appends one character and changes nothing else.
pub assume_specification[ String::push ](s: &mut String, c: char)
    ensures
        final(s)@ == old(s)@.push(c),
;

/// The characters of `s`.
pub fn chars_of(s: &str) -> (chars: Vec<char>)
    ensures
        chars@ == s@,
{
    let mut chars: Vec<char> = Vec::new();
    for c in it: s.chars()
        invariant
            chars@.len() == it.index(),
            it.seq() == s@,
            forall|i: int| 0 <= i < chars@.len() ==> chars@[i] == s@[i],
    {
        chars.push(c);
    }
    assert(chars@ =~= s@);
    chars
}

/// The string that is made of `chars[from..to]`.
pub fn string_of(chars: &[char], from: usize, to: usize) -> (s: String)
    requires
        from <= to <= chars@.len(),
    ensures
        s@ == chars@.subrange(from as int, to as int),
{
    let mut s: String = String::new();
    let mut i: usize = from;
    while i < to
        invariant
            from <= i <= to <= chars@.len(),
            s@ == chars@.subrange(from as int, i as int),
        decreases to - i,
    {
        s.push(chars[i]);
        i += 1;
        assert(s@ =~= chars@.subrange(from as int, i as int));
    }
    s
}

/// A copy of `s`.
pub fn owned(s: &str) -> (copy: String)
    ensures
        copy@ == s@,
{
    s.to_owned()
}

/// `a` followed by `b`.
pub fn join(a: &str, b: &str) -> (joined: String)
    ensures
        joined@ == a@ + b@,
{
    let mut joined: String = a.to_owned();
    joined.append(b);
    joined
}

/// Whether `c` occurs in `s`.
pub fn contains_char(s: &str, c: char) -> (found: bool)
    ensures
        found == s@.contains(c),
{
    let chars = chars_of(s);
    let mut i: usize = 0;
    while i < chars.len()
        invariant
            i <= chars@.len(),
            chars@ == s@,
            forall|j: int| 0 <= j < i ==> chars@[j] != c,
        decreases chars@.len() - i,
    {
        if chars[i] == c {
            assert(s@[i as int] == c);
            return true;
        }
        i += 1;
    }
    false
}

/// Whether two strings are the same.
pub fn same_text(a: &str, b: &str) -> (same: bool)
    ensures
        same == (a@ == b@),
{
    let x = chars_of(a);
    let y = chars_of(b);
    if x.len() != y.len() {
        return false;
    }
    let mut i: usize = 0;
    while i < x.len()
        invariant
            i <= x@.len(),
            x@.len() == y@.len(),
            x@ == a@,
            y@ == b@,
            forall|j: int| 0 <= j < i ==> x@[j] == y@[j],
        decreases x@.len() - i,
    {
        if x[i] != y[i] {
            return false;
        }
        i += 1;
    }
    assert(x@ =~= y@);
    true
}

/// White space, as Unicode has it.
pub open spec fn is_white_space(c: char) -> bool {
    let n = c as u32;
    9 <= n <= 13 || n == 0x20 || n == 0x85 || n == 0xA0 || n == 0x1680 || 0x2000 <= n <= 0x200A || n
        == 0x2028 || n == 0x2029 || n == 0x202F || n == 0x205F || n == 0x3000
}

/// Whether a character is white space.
pub fn is_space(c: char) -> (space: bool)
    ensures
        space == is_white_space(c),
{
    let n: u32 = c as u32;
    (9 <= n && n <= 13) || n == 0x20 || n == 0x85 || n == 0xA0 || n == 0x1680 || (0x2000 <= n && n
        <= 0x200A) || n == 0x2028 || n == 0x2029 || n == 0x202F || n == 0x205F || n == 0x3000
}

/// The words of a text: what stands between white space.
pub open spec fn words(s: Seq<char>) -> Seq<Seq<char>>
    decreases s.len(),
{
    if s.len() == 0 {
        Seq::empty()
    } else {
        let before = words(s.drop_last());
        let c = s.last();
        if is_white_space(c) {
            before
        } else if s.len() == 1 || is_white_space(s[s.len() - 2]) {
            before.push(seq![c])
        } else {
            before.drop_last().push(before.last().push(c))
        }
    }
}

/// A text that ends in a word has one.
proof fn lemma_last_word(s: Seq<char>)
    requires
        s.len() > 0,
        !is_white_space(s.last()),
    ensures
        words(s).len() > 0,
    decreases s.len(),
{
    if s.len() > 1 && !is_white_space(s[s.len() - 2]) {
        lemma_last_word(s.drop_last());
    }
}

/// White space parts the words before it from those behind it.
pub proof fn lemma_words_apart(a: Seq<char>, c: char, b: Seq<char>)
    requires
        is_white_space(c),
    ensures
        words(a.push(c) + b) == words(a) + words(b),
    decreases b.len(),
{
    let s = a.push(c) + b;
    if b.len() == 0 {
        assert(s =~= a.push(c));
        assert(s.drop_last() =~= a);
        assert(words(a) + words(b) =~= words(a));
    } else {
        lemma_words_apart(a, c, b.drop_last());
        assert(s.drop_last() =~= a.push(c) + b.drop_last());
        assert(s.last() == b.last());
        if b.len() > 1 {
            assert(s[s.len() - 2] == b[b.len() - 2]);
            if !is_white_space(b.last()) && !is_white_space(b[b.len() - 2]) {
                lemma_last_word(b.drop_last());
            }
        } else {
            assert(s[s.len() - 2] == c);
        }
        assert(words(s) =~= words(a) + words(b));
    }
}

/// A text without white space is one word.
pub proof fn lemma_one_word(s: Seq<char>)
    requires
        s.len() > 0,
        forall|i: int| 0 <= i < s.len() ==> !is_white_space(#[trigger] s[i]),
    ensures
        words(s) == seq![s],
    decreases s.len(),
{
    if s.len() == 1 {
        assert(s.drop_last() =~= Seq::empty());
        assert(words(s.drop_last()) =~= Seq::empty());
        assert(seq![s.last()] =~= s);
        assert(!is_white_space(s[0]));
        assert(words(s) =~= seq![s]);
    } else {
        assert forall|i: int| 0 <= i < s.drop_last().len() implies !is_white_space(
            #[trigger] s.drop_last()[i],
        ) by {
            assert(s.drop_last()[i] == s[i]);
        }
        lemma_one_word(s.drop_last());
        assert(!is_white_space(s[s.len() - 2]));
        assert(s.drop_last().push(s.last()) =~= s);
        assert(words(s.drop_last()).last() == s.drop_last());
        assert(words(s) =~= seq![s]);
    }
}

/// Texts, by their characters.
pub open spec fn texts(list: Seq<String>) -> Seq<Seq<char>> {
    list.map_values(|s: String| s@)
}

/// The words of a text.
pub fn split_words(s: &str) -> (list: Vec<String>)
    ensures
        texts(list@) == words(s@),
{
    let chars = chars_of(s);
    let mut list: Vec<String> = Vec::new();
    let mut word: String = String::new();
    let mut in_word: bool = false;
    let mut i: usize = 0;
    assert(texts(list@) =~= words(chars@.take(0)));
    while i < chars.len()
        invariant
            i <= chars@.len(),
            chars@ == s@,
            in_word == (i > 0 && !is_white_space(chars@[i - 1])),
            in_word ==> texts(list@).push(word@) == words(chars@.take(i as int)),
            !in_word ==> texts(list@) == words(chars@.take(i as int)) && word@ == Seq::<char>::empty(),
        decreases chars@.len() - i,
    {
        let c = chars[i];
        let ghost now = chars@.take(i + 1);
        assert(now.drop_last() =~= chars@.take(i as int));
        assert(now.last() == c);
        assert(i > 0 ==> now[now.len() - 2] == chars@[i - 1]);
        let ghost list0 = list@;
        let ghost word0 = word@;
        if is_space(c) {
            if in_word {
                list.push(word);
                word = String::new();
                assert(texts(list@) =~= texts(list0).push(word0));
            }
            in_word = false;
        } else {
            word.push(c);
            if in_word {
                let ghost before = words(now.drop_last());
                assert(before.drop_last() =~= texts(list0));
                assert(before.last() == word0);
            } else {
                assert(word@ =~= seq![c]);
            }
            in_word = true;
        }
        i += 1;
    }
    assert(chars@.take(i as int) =~= s@);
    let ghost list0 = list@;
    let ghost word0 = word@;
    if in_word {
        list.push(word);
        assert(texts(list@) =~= texts(list0).push(word0));
    }
    list
}

/// A text without the white space at its ends.
pub open spec fn trimmed(s: Seq<char>) -> Seq<char>
    decreases s.len(),
{
    if s.len() == 0 {
        s
    } else if is_white_space(s[0]) {
        trimmed(s.skip(1))
    } else if is_white_space(s.last()) {
        trimmed(s.drop_last())
    } else {
        s
    }
}

/// A text without the white space at its ends.
pub fn trim(s: &str) -> (short: String)
    ensures
        short@ == trimmed(s@),
{
    let chars = chars_of(s);
    let mut from: usize = 0;
    let mut to: usize = chars.len();
    assert(chars@.subrange(0, to as int) =~= s@);
    while from < to && is_space(chars[from])
        invariant
            from <= to == chars@.len(),
            trimmed(chars@.subrange(from as int, to as int)) == trimmed(s@),
        decreases to - from,
    {
        assert(chars@.subrange(from as int, to as int).skip(1) =~= chars@.subrange(
            from + 1,
            to as int,
        ));
        from += 1;
    }
    while to > from && is_space(chars[to - 1])
        invariant
            from <= to <= chars@.len(),
            from < to ==> !is_white_space(chars@[from as int]),
            trimmed(chars@.subrange(from as int, to as int)) == trimmed(s@),
        decreases to - from,
    {
        assert(chars@.subrange(from as int, to as int).drop_last() =~= chars@.subrange(
            from as int,
            to - 1,
        ));
        to -= 1;
    }
    string_of(chars.as_slice(), from, to)
}

/// The order of texts, character by character.
pub open spec fn text_less(a: Seq<char>, b: Seq<char>) -> bool
    decreases a.len(),
{
    if b.len() == 0 {
        false
    } else if a.len() == 0 {
        true
    } else if a[0] != b[0] {
        a[0] < b[0]
    } else {
        text_less(a.skip(1), b.skip(1))
    }
}

/// No text comes before itself.
proof fn lemma_text_order_strict(a: Seq<char>)
    ensures
        !text_less(a, a),
    decreases a.len(),
{
    if a.len() > 0 {
        lemma_text_order_strict(a.skip(1));
    }
}

/// Of two texts that differ one comes first, and only one.
pub proof fn lemma_text_order_total(a: Seq<char>, b: Seq<char>)
    ensures
        a == b || text_less(a, b) || text_less(b, a),
        !(text_less(a, b) && text_less(b, a)),
        !text_less(a, a),
    decreases a.len(),
{
    lemma_text_order_strict(a);
    if a.len() > 0 && b.len() > 0 && a[0] == b[0] {
        lemma_text_order_total(a.skip(1), b.skip(1));
        if a.skip(1) == b.skip(1) {
            assert(a =~= seq![a[0]] + a.skip(1));
            assert(b =~= seq![b[0]] + b.skip(1));
        }
    } else if a.len() == 0 && b.len() == 0 {
        assert(a =~= b);
    }
}

/// The order of texts is transitive.
pub proof fn lemma_text_order_transitive(a: Seq<char>, b: Seq<char>, c: Seq<char>)
    requires
        text_less(a, b),
        text_less(b, c),
    ensures
        text_less(a, c),
    decreases a.len(),
{
    if a.len() > 0 && a[0] == b[0] && b[0] == c[0] {
        lemma_text_order_transitive(a.skip(1), b.skip(1), c.skip(1));
    }
}

/// Whether a text comes before another.
pub fn comes_first(a: &str, b: &str) -> (first: bool)
    ensures
        first == text_less(a@, b@),
{
    let x = chars_of(a);
    let y = chars_of(b);
    let mut i: usize = 0;
    assert(x@.skip(0) =~= a@);
    assert(y@.skip(0) =~= b@);
    while i < x.len() && i < y.len() && x[i] == y[i]
        invariant
            i <= x@.len(),
            i <= y@.len(),
            text_less(x@.skip(i as int), y@.skip(i as int)) == text_less(a@, b@),
        decreases x@.len() - i,
    {
        assert(x@.skip(i as int).skip(1) =~= x@.skip(i + 1));
        assert(y@.skip(i as int).skip(1) =~= y@.skip(i + 1));
        i += 1;
    }
    if i >= y.len() {
        return false;
    }
    if i >= x.len() {
        return true;
    }
    x[i] < y[i]
}

/// How many bytes of UTF-8 a character takes.
pub open spec fn char_bytes(c: char) -> int {
    if (c as u32) < 0x80 {
        1
    } else if (c as u32) < 0x800 {
        2
    } else if (c as u32) < 0x1_0000 {
        3
    } else {
        4
    }
}

/// How many characters fit into `room` bytes.
pub open spec fn fitting(s: Seq<char>, room: int) -> int
    decreases s.len(),
{
    if s.len() == 0 || char_bytes(s[0]) > room {
        0
    } else {
        1 + fitting(s.skip(1), room - char_bytes(s[0]))
    }
}

/// The beginning of a text that fits into `room` bytes: whole characters, and as
/// many as there is room for.
pub open spec fn fitted(s: Seq<char>, room: int) -> Seq<char> {
    s.take(fitting(s, room))
}

/// The beginning that fits is made of whole characters, takes no more than the room
/// that there is, and is the whole text where that fits. Where it is not, the next
/// character would not fit.
pub proof fn lemma_fitted(s: Seq<char>, room: int)
    requires
        0 <= room,
    ensures
        0 <= fitting(s, room) <= s.len(),
        encode_utf8(fitted(s, room)).len() <= room,
        valid_utf8(encode_utf8(fitted(s, room))),
        encode_utf8(fitted(s, room)).is_prefix_of(encode_utf8(s)),
        encode_utf8(s).len() <= room ==> fitted(s, room) == s,
        fitting(s, room) < s.len() ==> encode_utf8(fitted(s, room)).len() + char_bytes(
            s[fitting(s, room)],
        ) > room,
        vstd::utf8::is_ascii_chars(s) && s.len() >= room ==> encode_utf8(fitted(s, room)).len()
            == room,
    decreases s.len(),
{
    let n = fitting(s, room);
    encode_utf8_valid_utf8(fitted(s, room));
    if s.len() == 0 {
        assert(fitted(s, room) =~= s);
    } else {
        let c = s[0];
        vstd::utf8::char_is_scalar(c);
        assert(vstd::utf8::encode_scalar(c as u32).len() == char_bytes(c));
        assert(s.drop_first() =~= s.skip(1));
        let rest = s.skip(1);
        if char_bytes(c) > room {
            assert(fitted(s, room) =~= Seq::<char>::empty());
        } else {
            let left = room - char_bytes(c);
            lemma_fitted(rest, left);
            assert(fitted(s, room).drop_first() =~= fitted(rest, left));
            assert(fitted(s, room)[0] == c);
            let a = encode_utf8(fitted(rest, left));
            let b = encode_utf8(rest);
            let head = vstd::utf8::encode_scalar(c as u32);
            assert(encode_utf8(fitted(s, room)) == head + a);
            assert(encode_utf8(s) == head + b);
            assert(a =~= b.take(a.len() as int));
            assert((head + a) =~= (head + b).take((head + a).len() as int));
            if encode_utf8(s).len() <= room {
                assert(fitted(rest, left) == rest);
                assert(fitting(rest, left) == rest.len());
                assert(fitted(s, room) =~= s);
            }
            if n < s.len() {
                assert(s[n] == rest[n - 1]);
            }
            if vstd::utf8::is_ascii_chars(s) {
                assert(vstd::utf8::is_ascii_chars(rest)) by {
                    assert forall|i: int| 0 <= i < rest.len() implies '\0' <= #[trigger] rest[i]
                        <= '\u{7f}' by {
                        assert(rest[i] == s[i + 1]);
                    }
                }
                assert('\0' <= s[0] <= '\u{7f}');
            }
        }
    }
}

/// The beginning of a text that fits into `room` bytes.
pub fn head_of(s: &str, room: u32) -> (head: String)
    ensures
        head@ == fitted(s@, room as int),
{
    let chars = chars_of(s);
    let mut n: usize = 0;
    let mut left: u32 = room;
    assert(chars@.skip(0) =~= s@);
    while n < chars.len()
        invariant
            n <= chars@.len(),
            n + fitting(chars@.skip(n as int), left as int) == fitting(s@, room as int),
        ensures
            n <= chars@.len(),
            n == fitting(s@, room as int),
        decreases chars@.len() - n,
    {
        let c: u32 = chars[n] as u32;
        let size: u32 = if c < 0x80 {
            1
        } else if c < 0x800 {
            2
        } else if c < 0x1_0000 {
            3
        } else {
            4
        };
        assert(chars@.skip(n as int)[0] == chars@[n as int]);
        assert(chars@.skip(n as int).skip(1) =~= chars@.skip(n + 1));
        if size > left {
            break;
        }
        left = left - size;
        n += 1;
    }
    let head = string_of(chars.as_slice(), 0, n);
    assert(head@ =~= fitted(s@, room as int));
    head
}

/// The first difference decides the order of two texts; a text comes before every longer
/// one that begins with it.
pub proof fn lemma_first_difference_orders(a: Seq<char>, b: Seq<char>, i: int)
    requires
        0 <= i <= a.len(),
        i < b.len(),
        forall|j: int| 0 <= j < i ==> #[trigger] a[j] == b[j],
        i == a.len() || a[i] < b[i],
    ensures
        text_less(a, b),
        !text_less(b, a),
    decreases i,
{
    if i > 0 {
        assert forall|j: int| 0 <= j < i - 1 implies #[trigger] a.skip(1)[j] == b.skip(1)[j] by {
            assert(a[j + 1] == b[j + 1]);
        }
        assert(a[0] == b[0]);
        lemma_first_difference_orders(a.skip(1), b.skip(1), i - 1);
    }
}

/// White space is taken off both ends of a text, and nothing else is.
pub proof fn lemma_trimmed_at_both_ends(s: Seq<char>) -> (ends: (int, int))
    ensures
        0 <= ends.0 <= ends.1 <= s.len(),
        trimmed(s) == s.subrange(ends.0, ends.1),
        forall|i: int| 0 <= i < ends.0 ==> is_white_space(#[trigger] s[i]),
        forall|i: int| ends.1 <= i < s.len() ==> is_white_space(#[trigger] s[i]),
        ends.0 < ends.1 ==> !is_white_space(s[ends.0]) && !is_white_space(s[ends.1 - 1]),
    decreases s.len(),
{
    if s.len() == 0 {
        assert(s =~= s.subrange(0, 0));
        (0, 0)
    } else if is_white_space(s[0]) {
        let rest = s.skip(1);
        let e = lemma_trimmed_at_both_ends(rest);
        assert(rest.subrange(e.0, e.1) =~= s.subrange(e.0 + 1, e.1 + 1));
        assert forall|i: int| 0 <= i < e.0 + 1 implies is_white_space(#[trigger] s[i]) by {
            if i > 0 {
                assert(rest[i - 1] == s[i]);
            }
        }
        assert forall|i: int| e.1 + 1 <= i < s.len() implies is_white_space(#[trigger] s[i]) by {
            assert(rest[i - 1] == s[i]);
        }
        (e.0 + 1, e.1 + 1)
    } else if is_white_space(s.last()) {
        let rest = s.drop_last();
        let e = lemma_trimmed_at_both_ends(rest);
        assert(rest.subrange(e.0, e.1) =~= s.subrange(e.0, e.1));
        assert forall|i: int| 0 <= i < e.0 implies is_white_space(#[trigger] s[i]) by {
            assert(rest[i] == s[i]);
        }
        assert forall|i: int| e.1 <= i < s.len() implies is_white_space(#[trigger] s[i]) by {
            if i < rest.len() {
                assert(rest[i] == s[i]);
            }
        }
        e
    } else {
        assert(s =~= s.subrange(0, s.len() as int));
        (0, s.len() as int)
    }
}

/// Among the ASCII characters, the space and those that move on the page are white space,
/// and none that can be seen is.
pub proof fn lemma_ascii_white_space(c: char)
    requires
        (c as u32) < 0x80,
    ensures
        is_white_space(c) <==> c == ' ' || c == '\t' || c == '\n' || c == '\r' || c as u32 == 0x0b || c as u32
            == 0x0c,
{
}

} // verus!
