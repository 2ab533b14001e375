//! Text helpers: strings as sequences of characters, numbers in decimal and
//! hexadecimal, white space, and ASCII case.

use vstd::prelude::*;
use vstd::slice::{slice_subrange, slice_to_vec};
use vstd::string::*;
use vstd::utf8::{decode_utf8, encode_utf8, encode_utf8_decode_utf8, valid_utf8};

verus! {

/// `String::push`: the string grows by one character.
#[verifier::external_body]
pub(crate) fn push_char(s: &mut String, c: char)
    ensures
        final(s)@ == old(s)@.push(c),
{
    s.push(c)
}

/// The text that bytes stand for, with a replacement character for what is not UTF-8.
pub uninterp spec fn lossy_text(bytes: Seq<u8>) -> Seq<char>;

/// `String::from_utf8_lossy`: the text of the bytes, where they are UTF-8 just that.
#[verifier::external_body]
pub(crate) fn lossy(bytes: &[u8]) -> (r: String)
    ensures
        r@ == lossy_text(bytes@),
        valid_utf8(bytes@) ==> r@ == decode_utf8(bytes@),
{
    String::from_utf8_lossy(bytes).into_owned()
}

/// `String::from_utf8`: it gives the characters that the bytes encode, and refuses
/// exactly the byte strings that are not UTF-8.
#[verifier::external_body]
pub(crate) fn utf8_string(bytes: Vec<u8>) -> (r: Option<String>)
    ensures
        r is Some <==> valid_utf8(bytes@),
        r is Some ==> r->Some_0@ == decode_utf8(bytes@),
{
    String::from_utf8(bytes).ok()
}

/// The characters of a string.
pub fn chars_of(s: &str) -> (r: Vec<char>)
    ensures
        r@ == s@,
{
    let mut r: Vec<char> = Vec::new();
    for c in it: s.chars()
        invariant
            r@ == s@.take(it.index()),
            it.seq() == s@,
    {
        r.push(c);
        proof {
            assert(s@.take(it.index() + 1) =~= s@.take(it.index()).push(c));
        }
    }
    proof {
        assert(s@.take(s@.len() as int) =~= s@);
    }
    r
}

/// Append characters to a string.
pub fn push_chars(out: &mut String, chars: &[char])
    ensures
        final(out)@ == old(out)@ + chars@,
{
    let mut i: usize = 0;
    proof {
        assert(out@ =~= old(out)@ + chars@.take(0));
    }
    while i < chars.len()
        invariant
            i <= chars@.len(),
            out@ == old(out)@ + chars@.take(i as int),
        decreases chars@.len() - i,
    {
        push_char(out, chars[i]);
        proof {
            assert(chars@.take(i + 1) =~= chars@.take(i as int).push(chars@[i as int]));
            assert(out@ =~= old(out)@ + chars@.take(i + 1));
        }
        i = i + 1;
    }
    proof {
        assert(chars@.take(i as int) =~= chars@);
    }
}

/// The string of a character sequence.
pub fn string_of(chars: &[char]) -> (r: String)
    ensures
        r@ == chars@,
{
    let mut r = String::new();
    push_chars(&mut r, chars);
    proof {
        assert(r@ =~= chars@);
    }
    r
}

/// A copy of `chars[from..to]` as a string.
pub fn string_range(chars: &[char], from: usize, to: usize) -> (r: String)
    requires
        from <= to <= chars@.len(),
    ensures
        r@ == chars@.subrange(from as int, to as int),
{
    string_of(vstd::slice::slice_subrange(chars, from, to))
}

/// An owned copy of a string.
pub fn owned(s: &str) -> (r: String)
    ensures
        r@ == s@,
{
    s.to_owned()
}

/// Two strings, one after the other.
pub fn concat(a: &str, b: &str) -> (r: String)
    ensures
        r@ == a@ + b@,
{
    let mut r = a.to_owned();
    r.append(b);
    r
}

/// Whether two strings hold the same characters.
pub fn same(a: &str, b: &str) -> (r: bool)
    ensures
        r == (a@ == b@),
{
    let r = crate::wire::ct_eq(a.as_bytes(), b.as_bytes());
    proof {
        lemma_utf8_injective(a@, b@);
    }
    r
}

/// Different texts have different UTF-8 encodings.
pub proof fn lemma_utf8_injective(a: Seq<char>, b: Seq<char>)
    ensures
        encode_utf8(a) == encode_utf8(b) ==> a == b,
{
    encode_utf8_decode_utf8(a);
    encode_utf8_decode_utf8(b);
}

/// Whether two character sequences are equal.
pub fn same_chars(a: &[char], b: &[char]) -> (r: bool)
    ensures
        r == (a@ == b@),
{
    if a.len() != b.len() {
        return false;
    }
    let mut i: usize = 0;
    while i < a.len()
        invariant
            i <= a@.len(),
            a@.len() == b@.len(),
            forall|j: int| 0 <= j < i ==> a@[j] == b@[j],
        decreases a@.len() - i,
    {
        if a[i] != b[i] {
            return false;
        }
        i = i + 1;
    }
    proof {
        assert(a@ =~= b@);
    }
    true
}

/// Whether `chars` holds `pattern` at `at`.
pub fn chars_at(chars: &[char], at: usize, pattern: &str) -> (r: bool)
    requires
        at <= chars@.len(),
    ensures
        r == (at + pattern@.len() <= chars@.len() && chars@.subrange(
            at as int,
            at + pattern@.len(),
        ) == pattern@),
{
    let p = chars_of(pattern);
    if p.len() > chars.len() - at {
        return false;
    }
    same_chars(vstd::slice::slice_subrange(chars, at, at + p.len()), &p)
}

/// The index of the first `c` in `chars[from..]`, or the length.
pub open spec fn index_from(chars: Seq<char>, c: char, from: int) -> int
    decreases chars.len() - from,
{
    if from >= chars.len() || chars[from] == c {
        from
    } else {
        index_from(chars, c, from + 1)
    }
}

pub proof fn lemma_index_from(chars: Seq<char>, c: char, from: int)
    requires
        0 <= from <= chars.len(),
    ensures
        from <= index_from(chars, c, from) <= chars.len(),
        index_from(chars, c, from) < chars.len() ==> chars[index_from(chars, c, from)] == c,
        forall|j: int| from <= j < index_from(chars, c, from) ==> chars[j] != c,
    decreases chars.len() - from,
{
    if from < chars.len() && chars[from] != c {
        lemma_index_from(chars, c, from + 1);
    }
}

/// The index of the first `c` at or behind `from`, or the length.
pub fn find(chars: &[char], c: char, from: usize) -> (r: usize)
    requires
        from <= chars@.len(),
    ensures
        r == index_from(chars@, c, from as int),
        from <= r <= chars@.len(),
        r < chars@.len() ==> chars@[r as int] == c,
        forall|j: int| from <= j < r ==> chars@[j] != c,
{
    let mut i: usize = from;
    proof {
        lemma_index_from(chars@, c, from as int);
    }
    while i < chars.len() && chars[i] != c
        invariant
            from <= i <= chars@.len(),
            index_from(chars@, c, from as int) == index_from(chars@, c, i as int),
            forall|j: int| from <= j < i ==> chars@[j] != c,
        decreases chars@.len() - i,
    {
        i = i + 1;
    }
    i
}

/// Whether a sequence holds `c`.
pub fn holds(chars: &[char], c: char) -> (r: bool)
    ensures
        r == chars@.contains(c),
{
    let i: usize = find(chars, c, 0);
    proof {
        if chars@.contains(c) {
            let k = chars@.index_of(c);
            assert(chars@[k] == c);
        }
        if i < chars@.len() {
            assert(chars@[i as int] == c);
        }
    }
    i < chars.len()
}

// ---------------------------------------------------------------------------
// White space and case
// ---------------------------------------------------------------------------

/// The characters with the Unicode property White_Space.
pub open spec fn is_white(c: char) -> bool {
    ||| '\u{9}' <= c <= '\u{d}'
    ||| c == '\u{20}'
    ||| c == '\u{85}'
    ||| c == '\u{a0}'
    ||| c == '\u{1680}'
    ||| '\u{2000}' <= c <= '\u{200a}'
    ||| c == '\u{2028}'
    ||| c == '\u{2029}'
    ||| c == '\u{202f}'
    ||| c == '\u{205f}'
    ||| c == '\u{3000}'
}

pub fn white(c: char) -> (r: bool)
    ensures
        r == is_white(c),
{
    ('\u{9}' <= c && c <= '\u{d}') || c == '\u{20}' || c == '\u{85}' || c == '\u{a0}' || c
        == '\u{1680}' || ('\u{2000}' <= c && c <= '\u{200a}') || c == '\u{2028}' || c == '\u{2029}'
        || c == '\u{202f}' || c == '\u{205f}' || c == '\u{3000}'
}

/// A text without the white space at its start.
pub open spec fn trim_start(s: Seq<char>) -> Seq<char>
    decreases s.len(),
{
    if s.len() > 0 && is_white(s[0]) {
        trim_start(s.drop_first())
    } else {
        s
    }
}

/// A text without the white space at its end.
pub open spec fn trim_end(s: Seq<char>) -> Seq<char>
    decreases s.len(),
{
    if s.len() > 0 && is_white(s.last()) {
        trim_end(s.drop_last())
    } else {
        s
    }
}

/// A text without the white space at both of its ends.
pub open spec fn trimmed(s: Seq<char>) -> Seq<char> {
    trim_end(trim_start(s))
}

/// Remove the white space at both ends of a text.
pub fn trim(chars: &[char]) -> (r: Vec<char>)
    ensures
        r@ == trimmed(chars@),
{
    let mut from: usize = 0;
    proof {
        assert(chars@.skip(0) =~= chars@);
    }
    while from < chars.len() && white(chars[from])
        invariant
            from <= chars@.len(),
            trim_start(chars@) == trim_start(chars@.skip(from as int)),
        decreases chars@.len() - from,
    {
        proof {
            assert(chars@.skip(from as int).drop_first() =~= chars@.skip(from + 1));
        }
        from = from + 1;
    }
    let mut to: usize = chars.len();
    proof {
        assert(chars@.subrange(from as int, to as int) =~= chars@.skip(from as int));
        assert(trim_start(chars@) == chars@.skip(from as int));
    }
    while to > from && white(chars[to - 1])
        invariant
            from <= to <= chars@.len(),
            trimmed(chars@) == trim_end(chars@.subrange(from as int, to as int)),
        decreases to,
    {
        proof {
            let s = chars@.subrange(from as int, to as int);
            assert(s.last() == chars@[to - 1]);
            assert(s.drop_last() =~= chars@.subrange(from as int, to - 1));
        }
        to = to - 1;
    }
    proof {
        let s = chars@.subrange(from as int, to as int);
        if to > from {
            assert(s.last() == chars@[to - 1]);
        }
    }
    vstd::slice::slice_to_vec(vstd::slice::slice_subrange(chars, from, to))
}

/// `c` in ASCII lower case.
pub open spec fn lower_char(c: char) -> char {
    if 'A' <= c <= 'Z' {
        (c as u8 + 32) as char
    } else {
        c
    }
}

/// `c` in ASCII upper case.
pub open spec fn upper_char(c: char) -> char {
    if 'a' <= c <= 'z' {
        (c as u8 - 32) as char
    } else {
        c
    }
}

pub open spec fn lower(s: Seq<char>) -> Seq<char> {
    s.map_values(|c: char| lower_char(c))
}

pub fn to_lower_char(c: char) -> (r: char)
    ensures
        r == lower_char(c),
{
    if 'A' <= c && c <= 'Z' {
        (c as u8 + 32) as char
    } else {
        c
    }
}

pub fn to_upper_char(c: char) -> (r: char)
    ensures
        r == upper_char(c),
{
    if 'a' <= c && c <= 'z' {
        (c as u8 - 32) as char
    } else {
        c
    }
}

/// A text in ASCII lower case.
pub fn to_lower(chars: &[char]) -> (r: Vec<char>)
    ensures
        r@ == lower(chars@),
{
    let mut r: Vec<char> = Vec::new();
    let mut i: usize = 0;
    while i < chars.len()
        invariant
            i <= chars@.len(),
            r@ == lower(chars@.take(i as int)),
        decreases chars@.len() - i,
    {
        r.push(to_lower_char(chars[i]));
        proof {
            assert(lower(chars@.take(i + 1)) =~= lower(chars@.take(i as int)).push(
                lower_char(chars@[i as int]),
            ));
        }
        i = i + 1;
    }
    proof {
        assert(chars@.take(i as int) =~= chars@);
    }
    r
}

/// Whether two texts are equal but for ASCII case.
pub fn same_ignoring_case(a: &[char], b: &str) -> (r: bool)
    ensures
        r == (lower(a@) == lower(b@)),
{
    let x = to_lower(a);
    let y = to_lower(&chars_of(b));
    same_chars(&x, &y)
}

// ---------------------------------------------------------------------------
// Numbers
// ---------------------------------------------------------------------------

/// The digit of a value below sixteen.
pub open spec fn digit_char(d: nat) -> char {
    if d < 10 {
        (48 + d) as char
    } else {
        (87 + d) as char
    }
}

/// A number in decimal.
pub open spec fn decimal(n: nat) -> Seq<char>
    decreases n,
{
    if n < 10 {
        seq![digit_char(n)]
    } else {
        decimal(n / 10).push(digit_char(n % 10))
    }
}

/// The low `width` decimal digits of a number, with leading zeros.
pub open spec fn decimal_padded(n: nat, width: nat) -> Seq<char>
    decreases width,
{
    if width == 0 {
        Seq::empty()
    } else {
        decimal_padded(n / 10, (width - 1) as nat).push(digit_char(n % 10))
    }
}

fn digit(d: u64) -> (c: char)
    requires
        d < 16,
    ensures
        c == digit_char(d as nat),
{
    if d < 10 {
        (48 + d as u8) as char
    } else {
        (87 + d as u8) as char
    }
}

/// Append a number in decimal.
pub fn push_decimal(out: &mut String, n: u64)
    ensures
        final(out)@ == old(out)@ + decimal(n as nat),
    decreases n,
{
    if n >= 10 {
        push_decimal(out, n / 10);
    }
    push_char(out, digit(n % 10));
    proof {
        assert(out@ =~= old(out)@ + decimal(n as nat));
    }
}

/// Append the low `width` decimal digits of a number, with leading zeros.
pub fn push_padded(out: &mut String, n: u64, width: u32)
    ensures
        final(out)@ == old(out)@ + decimal_padded(n as nat, width as nat),
    decreases width,
{
    if width > 0 {
        push_padded(out, n / 10, width - 1);
        push_char(out, digit(n % 10));
    }
    proof {
        assert(out@ =~= old(out)@ + decimal_padded(n as nat, width as nat));
    }
}

/// A number in decimal.
pub fn to_decimal(n: u64) -> (r: String)
    ensures
        r@ == decimal(n as nat),
{
    let mut r = String::new();
    push_decimal(&mut r, n);
    proof {
        assert(r@ =~= decimal(n as nat));
    }
    r
}

/// A number in lower-case hexadecimal.
pub open spec fn hexadecimal(n: nat) -> Seq<char>
    decreases n,
{
    if n < 16 {
        seq![digit_char(n)]
    } else {
        hexadecimal(n / 16).push(digit_char(n % 16))
    }
}

/// Append a number in lower-case hexadecimal.
pub fn push_hexadecimal(out: &mut String, n: u64)
    ensures
        final(out)@ == old(out)@ + hexadecimal(n as nat),
    decreases n,
{
    if n >= 16 {
        push_hexadecimal(out, n / 16);
    }
    push_char(out, digit(n % 16));
    proof {
        assert(out@ =~= old(out)@ + hexadecimal(n as nat));
    }
}

/// The low `width` hexadecimal digits of a number, with leading zeros.
pub open spec fn hex_padded(n: nat, width: nat) -> Seq<char>
    decreases width,
{
    if width == 0 {
        Seq::empty()
    } else {
        hex_padded(n / 16, (width - 1) as nat).push(digit_char(n % 16))
    }
}

/// Append the low `width` hexadecimal digits of a number, with leading zeros.
pub fn push_hex_padded(out: &mut String, n: u64, width: u32)
    ensures
        final(out)@ == old(out)@ + hex_padded(n as nat, width as nat),
    decreases width,
{
    if width > 0 {
        push_hex_padded(out, n / 16, width - 1);
        push_char(out, digit(n % 16));
    }
    proof {
        assert(out@ =~= old(out)@ + hex_padded(n as nat, width as nat));
    }
}

/// The value of a hexadecimal digit in either case.
pub open spec fn hex_value(c: u8) -> Option<u8> {
    if 48 <= c <= 57 {
        Some((c - 48) as u8)
    } else if 97 <= c <= 102 {
        Some((c - 87) as u8)
    } else if 65 <= c <= 70 {
        Some((c - 55) as u8)
    } else {
        None
    }
}

pub fn hex_digit(c: u8) -> (r: Option<u8>)
    ensures
        r == hex_value(c),
{
    if 48 <= c && c <= 57 {
        Some(c - 48)
    } else if 97 <= c && c <= 102 {
        Some(c - 87)
    } else if 65 <= c && c <= 70 {
        Some(c - 55)
    } else {
        None
    }
}

/// A text that may be absent, as a mathematical value.
pub open spec fn opt_text(s: Option<String>) -> Option<Seq<char>> {
    match s {
        Some(s) => Some(s@),
        None => None,
    }
}

/// The same text once more, where there is one.
pub fn copy_opt(s: &Option<String>) -> (r: Option<String>)
    ensures
        opt_text(r) == opt_text(*s),
{
    match s {
        Some(s) => Some(owned(s.as_str())),
        None => None,
    }
}

/// A list of strings as mathematical values.
pub open spec fn strings_view(v: Seq<String>) -> Seq<Seq<char>> {
    Seq::new(v.len(), |i: int| v[i]@)
}

/// The same strings in a list of their own.
pub fn copy_strings(list: &[String]) -> (r: Vec<String>)
    ensures
        strings_view(r@) == strings_view(list@),
{
    let mut r: Vec<String> = Vec::new();
    let mut i: usize = 0;
    while i < list.len()
        invariant
            i <= list@.len(),
            strings_view(r@) == strings_view(list@).take(i as int),
        decreases list@.len() - i,
    {
        let ghost before = strings_view(r@);
        r.push(owned(list[i].as_str()));
        proof {
            assert(strings_view(r@) =~= before.push(list@[i as int]@));
            assert(strings_view(r@) =~= strings_view(list@).take(i + 1));
        }
        i = i + 1;
    }
    proof {
        assert(strings_view(list@).take(i as int) =~= strings_view(list@));
    }
    r
}

// ---------------------------------------------------------------------------
// Parts of a text
// ---------------------------------------------------------------------------

/// Texts as mathematical values.
pub open spec fn pieces_view(v: Seq<Vec<char>>) -> Seq<Seq<char>> {
    Seq::new(v.len(), |i: int| v[i]@)
}

/// The index of a character in the rest of a text.
pub proof fn lemma_index_skip(s: Seq<char>, c: char, from: int)
    requires
        0 <= from <= s.len(),
    ensures
        index_from(s, c, from) == from + index_from(s.skip(from), c, 0),
        from <= index_from(s, c, from) <= s.len(),
{
    lemma_index_from(s, c, from);
    lemma_index_from(s.skip(from), c, 0);
    let i = index_from(s, c, from);
    let j = index_from(s.skip(from), c, 0);
    if i < from + j {
        assert(s.skip(from)[i - from] == s[i]);
    }
    if i > from + j {
        assert(s.skip(from)[j] == s[from + j]);
    }
}

/// The parts of a text between occurrences of `c`.
pub open spec fn split_on(s: Seq<char>, c: char) -> Seq<Seq<char>>
    decreases s.len(),
{
    let i = index_from(s, c, 0);
    if i < 0 || i >= s.len() {
        seq![s]
    } else {
        seq![s.take(i)] + split_on(s.skip(i + 1), c)
    }
}

/// The parts of a text between occurrences of `c`.
pub fn split(chars: &[char], c: char) -> (r: Vec<Vec<char>>)
    ensures
        pieces_view(r@) == split_on(chars@, c),
        r@.len() >= 1,
{
    let mut r: Vec<Vec<char>> = Vec::new();
    let mut from: usize = 0;
    let ghost s = chars@;
    proof {
        assert(s.skip(0) =~= s);
        assert(pieces_view(r@) + split_on(s, c) =~= split_on(s, c));
    }
    loop
        invariant
            s == chars@,
            from <= chars.len(),
            pieces_view(r@) + split_on(s.skip(from as int), c) == split_on(s, c),
        decreases chars.len() - from,
    {
        let at: usize = find(chars, c, from);
        let ghost before = pieces_view(r@);
        let ghost rest = s.skip(from as int);
        proof {
            lemma_index_skip(s, c, from as int);
        }
        let piece = slice_to_vec(slice_subrange(chars, from, at));
        proof {
            assert(piece@ =~= rest.take(at - from));
        }
        r.push(piece);
        proof {
            assert(pieces_view(r@) =~= before.push(rest.take(at - from)));
            if at >= s.len() {
                assert(rest.take(at - from) =~= rest);
                assert(before + seq![rest] =~= pieces_view(r@));
            } else {
                assert(rest.skip(at - from + 1) =~= s.skip(at + 1));
                let tail = split_on(s.skip(at + 1), c);
                assert(before + (seq![rest.take(at - from)] + tail) =~= pieces_view(r@) + tail);
            }
        }
        if at >= chars.len() {
            return r;
        }
        from = at + 1;
    }
}

/// A line without a carriage return at its end.
pub open spec fn strip_cr(s: Seq<char>) -> Seq<char> {
    if s.len() > 0 && s.last() == '\r' {
        s.drop_last()
    } else {
        s
    }
}

/// The lines of a text. A line feed ends a line, with a carriage return before it or not;
/// nothing behind the last line feed is no line.
pub open spec fn lines_of(s: Seq<char>) -> Seq<Seq<char>>
    decreases s.len(),
{
    let i = index_from(s, '\n', 0);
    if s.len() == 0 {
        Seq::empty()
    } else if i < 0 || i >= s.len() {
        seq![s]
    } else {
        seq![strip_cr(s.take(i))] + lines_of(s.skip(i + 1))
    }
}

/// The lines of a text.
pub fn lines(chars: &[char]) -> (r: Vec<Vec<char>>)
    ensures
        pieces_view(r@) == lines_of(chars@),
{
    let mut r: Vec<Vec<char>> = Vec::new();
    let mut from: usize = 0;
    let ghost s = chars@;
    proof {
        assert(s.skip(0) =~= s);
        assert(pieces_view(r@) + lines_of(s) =~= lines_of(s));
    }
    while from < chars.len()
        invariant
            s == chars@,
            from <= chars.len(),
            pieces_view(r@) + lines_of(s.skip(from as int)) == lines_of(s),
        decreases chars.len() - from,
    {
        let at: usize = find(chars, '\n', from);
        let ghost before = pieces_view(r@);
        let ghost rest = s.skip(from as int);
        proof {
            lemma_index_skip(s, '\n', from as int);
        }
        let end: usize = if at < chars.len() && at > from && chars[at - 1] == '\r' {
            at - 1
        } else {
            at
        };
        let piece = slice_to_vec(slice_subrange(chars, from, end));
        proof {
            if at < s.len() {
                if at > from {
                    assert(rest.take(at - from).last() == s[at - 1]);
                }
                assert(piece@ =~= strip_cr(rest.take(at - from)));
            } else {
                assert(piece@ =~= rest);
            }
        }
        r.push(piece);
        proof {
            assert(pieces_view(r@) =~= before.push(r@.last()@));
            if at < s.len() {
                assert(rest.skip(at - from + 1) =~= s.skip(at + 1));
                let tail = lines_of(s.skip(at + 1));
                assert(before + (seq![r@.last()@] + tail) =~= pieces_view(r@) + tail);
            } else {
                assert(before + seq![rest] =~= pieces_view(r@) + Seq::<Seq<char>>::empty());
                assert(s.skip(s.len() as int) =~= Seq::empty());
            }
        }
        if at < chars.len() {
            from = at + 1;
        } else {
            from = at;
        }
    }
    proof {
        assert(s.skip(from as int) =~= Seq::empty());
        assert(pieces_view(r@) + Seq::<Seq<char>>::empty() =~= pieces_view(r@));
    }
    r
}

/// The index of the first carriage return and line feed at or behind `from`, or the
/// length.
pub open spec fn crlf_from(s: Seq<char>, from: int) -> int
    decreases s.len() - from,
{
    if from + 1 >= s.len() {
        s.len() as int
    } else if s[from] == '\r' && s[from + 1] == '\n' {
        from
    } else {
        crlf_from(s, from + 1)
    }
}

/// The parts of a text between pairs of carriage return and line feed.
pub open spec fn split_crlf(s: Seq<char>) -> Seq<Seq<char>>
    decreases s.len(),
{
    let i = crlf_from(s, 0);
    if i < 0 || i + 1 >= s.len() {
        seq![s]
    } else {
        seq![s.take(i)] + split_crlf(s.skip(i + 2))
    }
}

proof fn lemma_crlf_skip(s: Seq<char>, from: int, k: int)
    requires
        0 <= from,
        0 <= k,
        from + k <= s.len(),
    ensures
        crlf_from(s, from + k) == from + crlf_from(s.skip(from), k),
        from + k <= crlf_from(s, from + k) <= s.len(),
    decreases s.len() - from - k,
{
    if from + k + 1 < s.len() && !(s[from + k] == '\r' && s[from + k + 1] == '\n') {
        lemma_crlf_skip(s, from, k + 1);
    }
}

/// The parts of a text between pairs of carriage return and line feed.
pub fn split_at_crlf(chars: &[char]) -> (r: Vec<Vec<char>>)
    ensures
        pieces_view(r@) == split_crlf(chars@),
        r@.len() >= 1,
{
    let mut r: Vec<Vec<char>> = Vec::new();
    let mut from: usize = 0;
    let ghost s = chars@;
    proof {
        assert(s.skip(0) =~= s);
        assert(pieces_view(r@) + split_crlf(s) =~= split_crlf(s));
    }
    loop
        invariant
            s == chars@,
            from <= chars.len(),
            pieces_view(r@) + split_crlf(s.skip(from as int)) == split_crlf(s),
        decreases chars.len() - from,
    {
        let mut at: usize = from;
        while at < chars.len() && !(at + 1 >= chars.len() || (chars[at] == '\r' && chars[at + 1]
            == '\n'))
            invariant
                from <= at <= chars.len(),
                s == chars@,
                crlf_from(s, from as int) == crlf_from(s, at as int),
            decreases chars.len() - at,
        {
            at = at + 1;
        }
        if at < chars.len() && at + 1 >= chars.len() {
            at = chars.len();
        }
        let ghost before = pieces_view(r@);
        let ghost rest = s.skip(from as int);
        proof {
            lemma_crlf_skip(s, from as int, 0);
            assert(crlf_from(s, from as int) == at);
        }
        let piece = slice_to_vec(slice_subrange(chars, from, at));
        proof {
            assert(piece@ =~= rest.take(at - from));
        }
        r.push(piece);
        proof {
            assert(pieces_view(r@) =~= before.push(rest.take(at - from)));
            if at >= s.len() {
                assert(rest.take(at - from) =~= rest);
                assert(before + seq![rest] =~= pieces_view(r@));
            } else {
                assert(rest.skip(at - from + 2) =~= s.skip(at + 2));
                let tail = split_crlf(s.skip(at + 2));
                assert(before + (seq![rest.take(at - from)] + tail) =~= pieces_view(r@) + tail);
            }
        }
        if at >= chars.len() {
            return r;
        }
        from = at + 2;
    }
}

/// The length of the word at the front of a text.
pub open spec fn word_len(s: Seq<char>) -> nat
    decreases s.len(),
{
    if s.len() == 0 || is_white(s[0]) {
        0
    } else {
        1 + word_len(s.skip(1))
    }
}

/// The second word of a text, words being separated by white space.
pub open spec fn second_word(s: Seq<char>) -> Option<Seq<char>> {
    let t = trim_start(s);
    let u = trim_start(t.skip(word_len(t) as int));
    if t.len() == 0 || u.len() == 0 {
        None
    } else {
        Some(u.take(word_len(u) as int))
    }
}

fn skip_white(chars: &[char], from: usize) -> (r: usize)
    requires
        from <= chars@.len(),
    ensures
        from <= r <= chars@.len(),
        chars@.skip(r as int) == trim_start(chars@.skip(from as int)),
{
    let mut i: usize = from;
    while i < chars.len() && white(chars[i])
        invariant
            from <= i <= chars.len(),
            trim_start(chars@.skip(i as int)) == trim_start(chars@.skip(from as int)),
        decreases chars.len() - i,
    {
        proof {
            assert(chars@.skip(i as int).drop_first() =~= chars@.skip(i + 1));
        }
        i = i + 1;
    }
    i
}

fn word_end(chars: &[char], from: usize) -> (r: usize)
    requires
        from <= chars@.len(),
    ensures
        from <= r <= chars@.len(),
        r == from + word_len(chars@.skip(from as int)),
{
    let mut i: usize = from;
    while i < chars.len() && !white(chars[i])
        invariant
            from <= i <= chars.len(),
            from + word_len(chars@.skip(from as int)) == i + word_len(chars@.skip(i as int)),
        decreases chars.len() - i,
    {
        proof {
            assert(chars@.skip(i as int).skip(1) =~= chars@.skip(i + 1));
        }
        i = i + 1;
    }
    i
}

/// Whether `word` is the second word of a text.
pub fn has_second_word(chars: &[char], word: &str) -> (r: bool)
    ensures
        r == (second_word(chars@) == Some(word@)),
{
    let a: usize = skip_white(chars, 0);
    let ghost t = chars@.skip(a as int);
    proof {
        assert(chars@.skip(0) =~= chars@);
    }
    let b: usize = word_end(chars, a);
    let c: usize = skip_white(chars, b);
    let d: usize = word_end(chars, c);
    proof {
        assert(t.skip(word_len(t) as int) =~= chars@.skip(b as int));
        let u = chars@.skip(c as int);
        assert(u.take(word_len(u) as int) =~= chars@.subrange(c as int, d as int));
    }
    if a >= chars.len() || c >= chars.len() {
        return false;
    }
    same_chars(slice_subrange(chars, c, d), &chars_of(word))
}

} // verus!
