//! Strings: their bytes, their order, and the pieces the rest of the library cuts them into.

use vstd::prelude::*;
use vstd::string::*;
use vstd::utf8::*;

verus! {

/// The number of bytes that `s` takes in UTF-8.
pub open spec fn byte_len(s: Seq<char>) -> nat {
    encode_utf8(s).len()
}

/// The views of a sequence of strings.
pub open spec fn names(strings: Seq<&str>) -> Seq<Seq<char>> {
    strings.map_values(|s: &str| s@)
}

/// The characters of each of a sequence of strings.
pub open spec fn string_views(strings: Seq<String>) -> Seq<Seq<char>> {
    strings.map_values(|s: String| s@)
}

/// Encoding distributes over concatenation.
pub proof fn lemma_encode_concat(a: Seq<char>, b: Seq<char>)
    ensures
        encode_utf8(a + b) == encode_utf8(a) + encode_utf8(b),
        byte_len(a + b) == byte_len(a) + byte_len(b),
    decreases a.len(),
{
    if a.len() == 0 {
        assert(a + b == b);
    } else {
        assert((a + b).drop_first() == a.drop_first() + b);
        lemma_encode_concat(a.drop_first(), b);
    }
}

/// A string has at least as many bytes as characters.
pub proof fn lemma_chars_in_bytes(s: Seq<char>)
    ensures
        s.len() <= byte_len(s),
    decreases s.len(),
{
    if s.len() > 0 {
        lemma_chars_in_bytes(s.drop_first());
    }
}

/// Two strings with the same encoding are the same string.
pub proof fn lemma_encode_injective(a: Seq<char>, b: Seq<char>)
    requires
        encode_utf8(a) == encode_utf8(b),
    ensures
        a == b,
{
    encode_utf8_decode_utf8(a);
    encode_utf8_decode_utf8(b);
}

/// A string that is cut after as many bytes is cut into the same two pieces.
pub proof fn lemma_same_cut(a: Seq<char>, b: Seq<char>, c: Seq<char>, d: Seq<char>)
    requires
        a + b == c + d,
        byte_len(a) == byte_len(c),
    ensures
        a == c,
        b == d,
{
    lemma_encode_concat(a, b);
    lemma_encode_concat(c, d);
    let n = byte_len(a) as int;
    assert(encode_utf8(a) == (encode_utf8(a) + encode_utf8(b)).take(n));
    assert(encode_utf8(c) == (encode_utf8(c) + encode_utf8(d)).take(n));
    lemma_encode_injective(a, c);
    assert(b == (a + b).skip(a.len() as int));
    assert(d == (c + d).skip(c.len() as int));
}

/// The end of a piece is a character boundary of the whole.
pub proof fn lemma_boundary(a: Seq<char>, b: Seq<char>)
    ensures
        is_char_boundary(encode_utf8(a + b), byte_len(a) as int),
    decreases a.len(),
{
    encode_utf8_valid_utf8(a + b);
    lemma_encode_concat(a, b);
    if a.len() > 0 {
        let bytes = encode_utf8(a + b);
        encode_utf8_first_scalar(a + b);
        encode_utf8_first_scalar(a);
        assert((a + b).drop_first() == a.drop_first() + b);
        assert(pop_first_scalar(bytes) == encode_utf8((a + b).drop_first()));
        lemma_boundary(a.drop_first(), b);
    }
}

/// The number of bytes that `s` takes in UTF-8.
pub fn len(s: &str) -> (r: usize)
    ensures
        r == byte_len(s@),
{
    s.as_bytes().len()
}

/// Whether two strings hold the same characters.
pub fn same(a: &str, b: &str) -> (r: bool)
    ensures
        r == (a@ == b@),
{
    let x: &[u8] = a.as_bytes();
    let y: &[u8] = b.as_bytes();
    if x.len() != y.len() {
        return false;
    }
    let mut i: usize = 0;
    while i < x.len()
        invariant
            i <= x@.len(),
            x@.len() == y@.len(),
            x@ == encode_utf8(a@),
            y@ == encode_utf8(b@),
            forall|j: int| 0 <= j < i ==> x@[j] == y@[j],
        decreases x@.len() - i,
    {
        if x[i] != y[i] {
            return false;
        }
        i += 1;
    }
    proof {
        assert(x@ =~= y@);
        lemma_encode_injective(a@, b@);
    }
    true
}

/// Cuts `s` after `at` bytes.
pub fn cut<'a>(s: &'a str, at: usize) -> (r: (&'a str, &'a str))
    requires
        is_char_boundary(encode_utf8(s@), at as int),
    ensures
        s@ == r.0@ + r.1@,
        byte_len(r.0@) == at,
{
    let (a, b) = s.split_at(at);
    proof {
        let bytes = encode_utf8(s@);
        encode_utf8_valid_utf8(s@);
        lemma_encode_concat(a@, b@);
        lemma_boundary_in_range(bytes, at as int);
        assert(bytes.subrange(0, at as int) + bytes.subrange(at as int, bytes.len() as int) =~= bytes);
        lemma_encode_injective(s@, a@ + b@);
    }
    (a, b)
}

/// The characters of `s` from byte `from` to byte `to`, where both are character boundaries.
pub open spec fn byte_slice(s: Seq<char>, from: int, to: int) -> Option<Seq<char>> {
    let bytes = encode_utf8(s);
    if from <= to && is_char_boundary(bytes, from) && is_char_boundary(bytes, to) {
        Some(decode_utf8(bytes.subrange(from, to)))
    } else {
        None
    }
}

/// A piece of a string is found where its bytes are.
pub proof fn lemma_byte_slice(a: Seq<char>, piece: Seq<char>, b: Seq<char>)
    ensures
        byte_slice(a + piece + b, byte_len(a) as int, (byte_len(a) + byte_len(piece)) as int)
            == Some(piece),
{
    lemma_boundary(a + piece, b);
    lemma_boundary(a, piece + b);
    assert(a + (piece + b) =~= a + piece + b);
    lemma_encode_concat(a, piece);
    lemma_encode_concat(a + piece, b);
    let bytes = encode_utf8(a + piece + b);
    assert(bytes.subrange(byte_len(a) as int, (byte_len(a) + byte_len(piece)) as int)
        =~= encode_utf8(piece));
    encode_utf8_decode_utf8(piece);
}

/// What is cut out of a string is no longer than the string.
pub proof fn lemma_slice_in_range(s: Seq<char>, from: int, to: int)
    requires
        byte_slice(s, from, to) is Some,
    ensures
        0 <= from <= to <= byte_len(s),
{
    encode_utf8_valid_utf8(s);
    lemma_boundary_in_range(encode_utf8(s), from);
    lemma_boundary_in_range(encode_utf8(s), to);
}

/// The characters of `s` from byte `from` to byte `to`.
pub fn slice<'a>(s: &'a str, from: usize, to: usize) -> (r: &'a str)
    requires
        byte_slice(s@, from as int, to as int) is Some,
    ensures
        byte_slice(s@, from as int, to as int) == Some(r@),
{
    let (x, y) = cut(s, from);
    let (p, q) = cut(s, to);
    let ghost piece = p@.skip(x@.len() as int);
    proof {
        if x@.len() > p@.len() {
            let more = x@.skip(p@.len() as int);
            assert(x@ =~= p@ + more) by {
                assert(x@ =~= s@.take(x@.len() as int));
                assert(p@ =~= s@.take(p@.len() as int));
            }
            lemma_encode_concat(p@, more);
            lemma_chars_in_bytes(more);
        }
        assert(p@ =~= x@ + piece) by {
            assert(x@ =~= s@.take(x@.len() as int));
            assert(p@ =~= s@.take(p@.len() as int));
        }
        lemma_boundary(x@, piece);
        lemma_encode_concat(x@, piece);
        lemma_byte_slice(x@, piece, q@);
    }
    let (head, r) = cut(p, from);
    proof {
        lemma_same_cut(head@, r@, x@, piece);
    }
    r
}

/// Whether `s` starts with the characters of `prefix`.
pub fn starts_with(s: &str, prefix: &str) -> (r: bool)
    ensures
        r == prefix@.is_prefix_of(s@),
{
    let at: usize = len(prefix);
    if !s.is_char_boundary(at) {
        proof {
            if prefix@.is_prefix_of(s@) {
                assert(s@ =~= prefix@ + s@.skip(prefix@.len() as int));
                lemma_boundary(prefix@, s@.skip(prefix@.len() as int));
            }
        }
        return false;
    }
    let (head, tail) = cut(s, at);
    let r: bool = same(head, prefix);
    proof {
        if prefix@.is_prefix_of(s@) {
            assert(s@ =~= prefix@ + s@.skip(prefix@.len() as int));
            lemma_same_cut(head@, tail@, prefix@, s@.skip(prefix@.len() as int));
        }
        if r {
            assert(prefix@ =~= s@.subrange(0, prefix@.len() as int));
        }
    }
    r
}

/// A character boundary lies inside the bytes or at their end.
proof fn lemma_boundary_in_range(bytes: Seq<u8>, at: int)
    requires
        valid_utf8(bytes),
        is_char_boundary(bytes, at),
    ensures
        0 <= at <= bytes.len(),
    decreases bytes.len(),
{
}

/// Whether `a` comes before `b` when bytes are compared one after the other.
pub open spec fn bytes_before(a: Seq<u8>, b: Seq<u8>) -> bool
    decreases a.len(),
{
    if b.len() == 0 {
        false
    } else if a.len() == 0 {
        true
    } else if a[0] != b[0] {
        a[0] < b[0]
    } else {
        bytes_before(a.skip(1), b.skip(1))
    }
}

/// Whether `a` comes before `b` in the order of strings, which is that of their bytes.
pub open spec fn is_before(a: Seq<char>, b: Seq<char>) -> bool {
    bytes_before(encode_utf8(a), encode_utf8(b))
}

/// Nothing comes before itself.
pub proof fn lemma_bytes_irreflexive(a: Seq<u8>)
    ensures
        !bytes_before(a, a),
    decreases a.len(),
{
    if a.len() > 0 {
        lemma_bytes_irreflexive(a.skip(1));
    }
}

/// What comes before something comes before all that comes after it.
pub proof fn lemma_bytes_transitive(a: Seq<u8>, b: Seq<u8>, c: Seq<u8>)
    requires
        bytes_before(a, b),
        bytes_before(b, c),
    ensures
        bytes_before(a, c),
    decreases a.len(),
{
    if a.len() > 0 && a[0] == b[0] && b[0] == c[0] {
        lemma_bytes_transitive(a.skip(1), b.skip(1), c.skip(1));
    }
}

/// Of two different strings of bytes one comes before the other.
pub proof fn lemma_bytes_total(a: Seq<u8>, b: Seq<u8>)
    ensures
        a == b || bytes_before(a, b) || bytes_before(b, a),
    decreases a.len(),
{
    if a.len() > 0 && b.len() > 0 {
        if a[0] == b[0] {
            lemma_bytes_total(a.skip(1), b.skip(1));
            if a.skip(1) == b.skip(1) {
                assert(a =~= seq![a[0]] + a.skip(1));
                assert(b =~= seq![b[0]] + b.skip(1));
            }
        }
    } else if a.len() == 0 && b.len() == 0 {
        assert(a =~= b);
    }
}

/// What two strings of bytes begin with alike does not count in their order.
proof fn lemma_bytes_alike(same: Seq<u8>, a: Seq<u8>, b: Seq<u8>)
    ensures
        bytes_before(same + a, same + b) == bytes_before(a, b),
    decreases same.len(),
{
    if same.len() == 0 {
        assert(same + a =~= a);
        assert(same + b =~= b);
    } else {
        assert((same + a).skip(1) =~= same.skip(1) + a);
        assert((same + b).skip(1) =~= same.skip(1) + b);
        lemma_bytes_alike(same.skip(1), a, b);
    }
}

/// The order of strings is that of a dictionary: what they begin with alike does not count, a string
/// comes before what it is the beginning of, and otherwise the smaller of the first two bytes that
/// differ comes first.
pub proof fn law_first_difference_decides(same: Seq<char>, a: Seq<char>, b: Seq<char>)
    ensures
        is_before(same + a, same + b) == is_before(a, b),
        a.len() > 0 ==> is_before(same, same + a) && !is_before(same + a, same),
        ({
            let x = encode_utf8(a);
            let y = encode_utf8(b);
            a.len() > 0 && b.len() > 0 && x[0] != y[0] ==> is_before(same + a, same + b) == (x[0]
                < y[0])
        }),
{
    lemma_encode_concat(same, a);
    lemma_encode_concat(same, b);
    lemma_bytes_alike(encode_utf8(same), encode_utf8(a), encode_utf8(b));
    lemma_chars_in_bytes(a);
    lemma_chars_in_bytes(b);
    lemma_bytes_alike(encode_utf8(same), Seq::empty(), encode_utf8(a));
    lemma_bytes_alike(encode_utf8(same), encode_utf8(a), Seq::empty());
    assert(encode_utf8(same) + Seq::<u8>::empty() =~= encode_utf8(same));
}

/// The order of strings is a strict total order.
pub proof fn law_order_of_strings(a: Seq<char>, b: Seq<char>, c: Seq<char>)
    ensures
        !is_before(a, a),
        is_before(a, b) && is_before(b, c) ==> is_before(a, c),
        a == b || is_before(a, b) || is_before(b, a),
{
    lemma_bytes_irreflexive(encode_utf8(a));
    if is_before(a, b) && is_before(b, c) {
        lemma_bytes_transitive(encode_utf8(a), encode_utf8(b), encode_utf8(c));
    }
    lemma_bytes_total(encode_utf8(a), encode_utf8(b));
    if encode_utf8(a) == encode_utf8(b) {
        lemma_encode_injective(a, b);
    }
}

/// Whether `a` comes before `b` in the order of strings.
pub fn before(a: &str, b: &str) -> (r: bool)
    ensures
        r == is_before(a@, b@),
{
    let x: &[u8] = a.as_bytes();
    let y: &[u8] = b.as_bytes();
    let mut i: usize = 0;
    proof {
        assert(x@.skip(0) =~= x@);
        assert(y@.skip(0) =~= y@);
    }
    while i < x.len() && i < y.len()
        invariant
            i <= x@.len(),
            i <= y@.len(),
            x@ == encode_utf8(a@),
            y@ == encode_utf8(b@),
            bytes_before(x@, y@) == bytes_before(x@.skip(i as int), y@.skip(i as int)),
        decreases x@.len() - i,
    {
        if x[i] != y[i] {
            return x[i] < y[i];
        }
        proof {
            assert(x@.skip(i as int).skip(1) =~= x@.skip(i + 1));
            assert(y@.skip(i as int).skip(1) =~= y@.skip(i + 1));
        }
        i += 1;
    }
    i < y.len()
}

/// Whether `text` is neither all spaces nor all tabs.
pub open spec fn is_mixed(text: Seq<char>) -> bool {
    &&& exists|i: int| 0 <= i < text.len() && text[i] != ' '
    &&& exists|i: int| 0 <= i < text.len() && text[i] != '\t'
}

/// Whether leading whitespace is neither all spaces nor all tabs.
pub fn mixed_whitespace(text: &str) -> (r: bool)
    ensures
        r == is_mixed(text@),
{
    let mut other_than_space: bool = false;
    let mut other_than_tab: bool = false;
    for c in it: text.chars()
        invariant
            it.seq() == text@,
            other_than_space == exists|i: int| 0 <= i < it.index() && text@[i] != ' ',
            other_than_tab == exists|i: int| 0 <= i < it.index() && text@[i] != '\t',
    {
        if c != ' ' {
            assert(text@[it.index() as int] != ' ');
            other_than_space = true;
        }
        if c != '\t' {
            assert(text@[it.index() as int] != '\t');
            other_than_tab = true;
        }
    }
    other_than_space && other_than_tab
}

/// `text` with a `t` for each tab and an `s` for each space.
pub open spec fn visible(text: Seq<char>) -> Seq<char> {
    text.map_values(
        |c: char|
            if c == '\t' {
                't'
            } else if c == ' ' {
                's'
            } else {
                c
            },
    )
}

/// `text` with a `t` for each tab and an `s` for each space.
pub fn show_whitespace(text: &str) -> (r: String)
    ensures
        r@ == visible(text@),
{
    let mut shown: String = String::new();
    let mut i: usize = 0;
    for c in it: text.chars()
        invariant
            it.seq() == text@,
            i == it.index(),
            shown@ == visible(text@).take(i as int),
    {
        let ghost had = shown@;
        proof {
            reveal_strlit("t");
            reveal_strlit("s");
        }
        // the bytes of a text can be counted
        let _size: usize = crate::text::len(text);
        proof {
            lemma_chars_in_bytes(text@);
        }
        if c == '\t' {
            shown.append("t");
        } else if c == ' ' {
            shown.append("s");
        } else {
            shown.append(text.substring_char(i, i + 1));
        }
        proof {
            assert(shown@ =~= had.push(visible(text@)[i as int]));
            assert(shown@ =~= visible(text@).take(i + 1));
        }
        i += 1;
    }
    proof {
        assert(visible(text@).take(i as int) =~= visible(text@));
    }
    shown
}

/// The digit `n`.
pub open spec fn digit(n: nat) -> char {
    ('0' as nat + n) as char
}

/// `n` in decimal digits.
pub open spec fn decimal(n: nat) -> Seq<char>
    decreases n,
{
    if n < 10 {
        seq![digit(n)]
    } else {
        decimal(n / 10).push(digit(n % 10))
    }
}

/// `n` in decimal digits, with a minus sign if it is negative.
pub open spec fn signed_decimal(n: int) -> Seq<char> {
    if n < 0 {
        "-"@ + decimal((-n) as nat)
    } else {
        decimal(n as nat)
    }
}

/// The digit `n`.
fn digit_str(n: u64) -> (r: &'static str)
    requires
        n < 10,
    ensures
        r@ == seq![digit(n as nat)],
{
    proof {
        reveal_strlit("0");
        reveal_strlit("1");
        reveal_strlit("2");
        reveal_strlit("3");
        reveal_strlit("4");
        reveal_strlit("5");
        reveal_strlit("6");
        reveal_strlit("7");
        reveal_strlit("8");
        reveal_strlit("9");
    }
    match n {
        0 => "0",
        1 => "1",
        2 => "2",
        3 => "3",
        4 => "4",
        5 => "5",
        6 => "6",
        7 => "7",
        8 => "8",
        _ => "9",
    }
}

/// `n` in decimal digits.
pub fn show_decimal(n: u64) -> (r: String)
    ensures
        r@ == decimal(n as nat),
    decreases n,
{
    if n < 10 {
        String::from_str(digit_str(n))
    } else {
        let mut shown: String = show_decimal(n / 10);
        let ghost had = shown@;
        shown.append(digit_str(n % 10));
        proof {
            assert(shown@ =~= had.push(digit(n as nat % 10)));
        }
        shown
    }
}

/// `n` in decimal digits, with a minus sign if it is negative.
pub fn show_signed(n: i32) -> (r: String)
    ensures
        r@ == signed_decimal(n as int),
{
    if n < 0 {
        let mut shown: String = String::from_str("-");
        let positive: String = show_decimal((-(n as i64)) as u64);
        shown.append(positive.as_str());
        shown
    } else {
        show_decimal(n as u64)
    }
}

/// `parts`, with `separator` between each two.
pub open spec fn joined_by(parts: Seq<Seq<char>>, separator: Seq<char>) -> Seq<char>
    decreases parts.len(),
{
    if parts.len() == 0 {
        Seq::empty()
    } else if parts.len() == 1 {
        parts[0]
    } else {
        joined_by(parts.drop_last(), separator) + separator + parts.last()
    }
}

/// `parts`, with `separator` between each two.
pub fn join(parts: &Vec<&str>, separator: &str) -> (r: String)
    ensures
        r@ == joined_by(names(parts@), separator@),
{
    let ghost all = names(parts@);
    let mut joined: String = String::new();
    let mut i: usize = 0;
    proof {
        assert(joined@ =~= joined_by(all.take(0), separator@));
    }
    while i < parts.len()
        invariant
            i <= parts@.len(),
            all == names(parts@),
            joined@ == joined_by(all.take(i as int), separator@),
        decreases parts@.len() - i,
    {
        proof {
            assert(all.take(i + 1).drop_last() =~= all.take(i as int));
            if i == 0 {
                assert(joined_by(all.take(0), separator@) =~= Seq::empty());
                assert(Seq::<char>::empty() + all[0] =~= all[0]);
            }
        }
        if i > 0 {
            joined.append(separator);
        }
        joined.append(parts[i]);
        i += 1;
    }
    proof {
        assert(all.take(i as int) =~= all);
    }
    joined
}

/// `parts`, with `separator` between each two.
pub fn join_strings(parts: &Vec<String>, separator: &str) -> (r: String)
    ensures
        r@ == joined_by(string_views(parts@), separator@),
{
    let mut slices: Vec<&str> = Vec::new();
    let mut i: usize = 0;
    while i < parts.len()
        invariant
            i <= parts@.len(),
            names(slices@) == string_views(parts@).take(i as int),
        decreases parts@.len() - i,
    {
        let ghost had = names(slices@);
        slices.push(parts[i].as_str());
        i += 1;
        proof {
            assert(names(slices@) =~= had.push(parts@[i - 1]@));
            assert(names(slices@) =~= string_views(parts@).take(i as int));
        }
    }
    proof {
        assert(names(slices@) =~= string_views(parts@));
    }
    join(&slices, separator)
}

/// Each of `parts` with a space before it.
pub open spec fn spaced(parts: Seq<Seq<char>>) -> Seq<char>
    decreases parts.len(),
{
    if parts.len() == 0 {
        Seq::empty()
    } else {
        spaced(parts.drop_last()) + " "@ + parts.last()
    }
}

/// Each of `parts` with a space before it.
pub fn show_spaced(parts: &Vec<&str>) -> (r: String)
    ensures
        r@ == spaced(names(parts@)),
{
    let ghost all = names(parts@);
    let mut shown: String = String::new();
    let mut i: usize = 0;
    proof {
        assert(shown@ =~= spaced(all.take(0)));
    }
    while i < parts.len()
        invariant
            i <= parts@.len(),
            all == names(parts@),
            shown@ == spaced(all.take(i as int)),
        decreases parts@.len() - i,
    {
        proof {
            assert(all.take(i + 1).drop_last() =~= all.take(i as int));
        }
        shown.append(" ");
        shown.append(parts[i]);
        i += 1;
    }
    proof {
        assert(all.take(i as int) =~= all);
    }
    shown
}

/// Where the line that `from` stands on ends: at a line feed, or at the end of the text.
pub open spec fn line_end(text: Seq<char>, from: int) -> int
    decreases text.len() - from,
{
    if from >= text.len() || text[from] == '\n' {
        from
    } else {
        line_end(text, from + 1)
    }
}

/// The line from `from` to `end`. A carriage return before a line feed belongs to neither line.
pub open spec fn line_between(text: Seq<char>, from: int, end: int) -> Seq<char> {
    if from < end < text.len() && text[end - 1] == '\r' {
        text.subrange(from, end - 1)
    } else {
        text.subrange(from, end)
    }
}

/// The line that is `n` lines after the one that starts at `from`.
pub open spec fn line_after(text: Seq<char>, from: int, n: nat) -> Option<Seq<char>>
    decreases n,
{
    if from >= text.len() {
        None
    } else if n == 0 {
        Some(line_between(text, from, line_end(text, from)))
    } else {
        line_after(text, line_end(text, from) + 1, (n - 1) as nat)
    }
}

/// The line of `text` that has `n` lines before it.
pub fn nth_line<'a>(text: &'a str, n: usize) -> (r: Option<&'a str>)
    ensures
        match r {
            Some(line) => line_after(text@, 0, n as nat) == Some(line@),
            None => line_after(text@, 0, n as nat) is None,
        },
{
    // the bytes of a text can be counted
    let _size: usize = crate::text::len(text);
    proof {
        lemma_chars_in_bytes(text@);
    }
    let mut start: usize = 0;
    let mut left: usize = n;
    let mut found: bool = false;
    let mut end: usize = 0;
    let mut returned: bool = false;
    let mut i: usize = 0;
    for c in it: text.chars()
        invariant
            it.seq() == text@,
            i == it.index(),
            i <= text@.len() <= usize::MAX,
            start <= i,
            !found ==> {
                &&& line_after(text@, 0, n as nat) == line_after(text@, start as int, left as nat)
                &&& line_end(text@, start as int) == line_end(text@, i as int)
                &&& returned == (start < i && text@[i - 1] == '\r')
            },
            found ==> {
                &&& start <= end < text@.len()
                &&& line_after(text@, 0, n as nat) == Some(
                    line_between(text@, start as int, end as int),
                )
                &&& returned == (start < end && text@[end - 1] == '\r')
            },
    {
        if !found {
            if c == '\n' {
                if left == 0 {
                    found = true;
                    end = i;
                } else {
                    left = left - 1;
                    start = i + 1;
                    returned = false;
                }
            } else {
                returned = c == '\r';
            }
        }
        i += 1;
    }
    if found {
        let last: usize = if returned { end - 1 } else { end };
        let line: &'a str = text.substring_char(start, last);
        assert(line@ == line_between(text@, start as int, end as int));
        Some(line)
    } else if start < i && left == 0 {
        let line: &'a str = text.substring_char(start, i);
        assert(line@ == line_between(text@, start as int, i as int));
        assert(line_end(text@, start as int) == i);
        Some(line)
    } else {
        proof {
            assert(line_end(text@, i as int) == i);
            assert(line_after(text@, i as int + 1, (left - 1) as nat) is None);
        }
        None
    }
}

} // verus!
