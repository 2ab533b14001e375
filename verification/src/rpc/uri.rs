//! Percent-encoding, paths and query strings.

use crate::text::{
    chars_at, chars_of, find, hex_digit, hex_value, holds, index_from, owned, pieces_view,
    same_chars, split, split_on, string_of, string_range, strings_view, utf8_string,
};
use vstd::prelude::*;
use vstd::slice::slice_subrange;
use vstd::string::*;
use vstd::utf8::{decode_utf8, encode_utf8, valid_utf8};

verus! {

/// Bytes with every `%XX` replaced by the byte that it stands for. A percent sign with
/// anything else behind it stands for itself.
pub open spec fn unescaped(b: Seq<u8>) -> Seq<u8>
    decreases b.len(),
{
    if b.len() == 0 {
        Seq::empty()
    } else if b[0] == 37 && b.len() > 2 && hex_value(b[1]) is Some && hex_value(b[2]) is Some {
        seq![(hex_value(b[1])->Some_0 * 16 + hex_value(b[2])->Some_0) as u8] + unescaped(b.skip(3))
    } else {
        seq![b[0]] + unescaped(b.skip(1))
    }
}

/// A text with its escapes decoded, or the text itself where that is no UTF-8.
pub open spec fn percent_decoded(s: Seq<char>) -> Seq<char> {
    if !s.contains('%') || !valid_utf8(unescaped(encode_utf8(s))) {
        s
    } else {
        decode_utf8(unescaped(encode_utf8(s)))
    }
}

fn unescape(b: &[u8]) -> (r: Vec<u8>)
    ensures
        r@ == unescaped(b@),
{
    let mut out: Vec<u8> = Vec::new();
    let mut i: usize = 0;
    proof {
        assert(b@.skip(0) =~= b@);
        assert(out@ + unescaped(b@) =~= unescaped(b@));
    }
    while i < b.len()
        invariant
            i <= b@.len(),
            unescaped(b@) == out@ + unescaped(b@.skip(i as int)),
        decreases b@.len() - i,
    {
        let ghost rest = b@.skip(i as int);
        let ghost before = out@;
        if b[i] == 37 && b.len() - i > 2 {
            let high = hex_digit(b[i + 1]);
            let low = hex_digit(b[i + 2]);
            if let (Some(high), Some(low)) = (high, low) {
                out.push(high * 16 + low);
                proof {
                    assert(rest.skip(3) =~= b@.skip(i + 3));
                    assert(before + (seq![(high * 16 + low) as u8] + unescaped(b@.skip(i + 3)))
                        =~= out@ + unescaped(b@.skip(i + 3)));
                }
                i = i + 3;
                continue;
            }
        }
        out.push(b[i]);
        proof {
            assert(rest.skip(1) =~= b@.skip(i + 1));
            assert(before + (seq![b@[i as int]] + unescaped(b@.skip(i + 1))) =~= out@ + unescaped(
                b@.skip(i + 1),
            ));
        }
        i = i + 1;
    }
    proof {
        assert(b@.skip(i as int) =~= Seq::empty());
        assert(out@ + Seq::<u8>::empty() =~= out@);
    }
    out
}

/// Decode the `%XX` escapes of a text. Names are user data: they hold spaces and
/// characters beyond ASCII, which clients escape. A text that is no UTF-8 once decoded is
/// taken as it is.
pub fn percent_decode(input: &str) -> (r: String)
    ensures
        r@ == percent_decoded(input@),
{
    let chars = chars_of(input);
    if !holds(&chars, '%') {
        return owned(input);
    }
    match utf8_string(unescape(input.as_bytes())) {
        Some(s) => s,
        None => owned(input),
    }
}

/// The texts of a list that are not empty, decoded.
pub open spec fn decoded_parts(parts: Seq<Seq<char>>) -> Seq<Seq<char>>
    decreases parts.len(),
{
    if parts.len() == 0 {
        Seq::empty()
    } else if parts[0].len() == 0 {
        decoded_parts(parts.skip(1))
    } else {
        seq![percent_decoded(parts[0])] + decoded_parts(parts.skip(1))
    }
}

/// The names of a path, in order.
pub open spec fn path_segments(path: Seq<char>) -> Seq<Seq<char>> {
    decoded_parts(split_on(path, '/'))
}

/// The names of a path, in order.
pub fn segments(path: &str) -> (r: Vec<String>)
    ensures
        strings_view(r@) == path_segments(path@),
{
    let parts = split(&chars_of(path), '/');
    let ghost all = pieces_view(parts@);
    let mut out: Vec<String> = Vec::new();
    let mut i: usize = 0;
    proof {
        assert(all.skip(0) =~= all);
        assert(strings_view(out@) + decoded_parts(all) =~= decoded_parts(all));
    }
    while i < parts.len()
        invariant
            i <= parts@.len(),
            all == pieces_view(parts@),
            decoded_parts(all) == strings_view(out@) + decoded_parts(
                all.skip(i as int),
            ),
        decreases parts@.len() - i,
    {
        let ghost rest = all.skip(i as int);
        let ghost before = strings_view(out@);
        assert(rest.skip(1) =~= all.skip(i + 1));
        assert(rest[0] == parts@[i as int]@);
        if parts[i].len() > 0 {
            let s = percent_decode(&string_of(&parts[i]));
            out.push(s);
            proof {
                assert(strings_view(out@) =~= before.push(s@));
                assert(before + (seq![s@] + decoded_parts(all.skip(i + 1)))
                    =~= strings_view(out@) + decoded_parts(all.skip(i + 1)));
            }
        }
        i = i + 1;
    }
    proof {
        assert(all.skip(i as int) =~= Seq::empty());
        assert(strings_view(out@) + Seq::<Seq<char>>::empty()
            =~= strings_view(out@));
    }
    out
}

/// The value of the first pair with a name, as it stands in the query.
pub open spec fn raw_value(pairs: Seq<Seq<char>>, key: Seq<char>) -> Option<Seq<char>>
    decreases pairs.len(),
{
    if pairs.len() == 0 {
        None
    } else {
        let k = index_from(pairs[0], '=', 0);
        if k < pairs[0].len() && pairs[0].take(k) == key {
            Some(pairs[0].skip(k + 1))
        } else {
            raw_value(pairs.skip(1), key)
        }
    }
}

/// The value of a query parameter.
pub open spec fn query_param(query: Seq<char>, key: Seq<char>) -> Option<Seq<char>> {
    match raw_value(split_on(query, '&'), key) {
        Some(v) => Some(percent_decoded(v)),
        None => None,
    }
}

/// The value of a query parameter.
pub fn query_value(query: &str, key: &str) -> (r: Option<String>)
    ensures
        match query_param(query@, key@) {
            None => r is None,
            Some(v) => r is Some && r->Some_0@ == v,
        },
{
    let pairs = split(&chars_of(query), '&');
    let name = chars_of(key);
    let ghost all = pieces_view(pairs@);
    let mut i: usize = 0;
    proof {
        assert(all.skip(0) =~= all);
    }
    while i < pairs.len()
        invariant
            i <= pairs@.len(),
            name@ == key@,
            all == pieces_view(pairs@),
            all == split_on(query@, '&'),
            raw_value(all, key@) == raw_value(all.skip(i as int), key@),
        decreases pairs@.len() - i,
    {
        let k: usize = find(&pairs[i], '=', 0);
        proof {
            assert(all.skip(i as int)[0] == pairs@[i as int]@);
            assert(all.skip(i as int).skip(1) =~= all.skip(i + 1));
        }
        if k < pairs[i].len() && same_chars(slice_subrange(&pairs[i], 0, k), &name) {
            let value = string_range(&pairs[i], k + 1, pairs[i].len());
            proof {
                assert(pairs@[i as int]@.subrange(0, k as int) =~= pairs@[i as int]@.take(
                    k as int,
                ));
                assert(value@ =~= pairs@[i as int]@.skip(k + 1));
            }
            return Some(percent_decode(&value));
        }
        proof {
            assert(pairs@[i as int]@.subrange(0, k as int) =~= pairs@[i as int]@.take(k as int));
        }
        i = i + 1;
    }
    None
}

/// What stands behind a prefix in the first part that has it.
pub open spec fn first_with(parts: Seq<Seq<char>>, prefix: Seq<char>) -> Option<Seq<char>>
    decreases parts.len(),
{
    if parts.len() == 0 {
        None
    } else if prefix.is_prefix_of(parts[0]) {
        Some(parts[0].skip(prefix.len() as int))
    } else {
        first_with(parts.skip(1), prefix)
    }
}

/// What stands behind a prefix in the first part of a query that has it, undecoded.
pub fn query_after(query: &str, prefix: &str) -> (r: Option<String>)
    ensures
        match first_with(split_on(query@, '&'), prefix@) {
            None => r is None,
            Some(v) => r is Some && r->Some_0@ == v,
        },
{
    let parts = split(&chars_of(query), '&');
    let ghost all = pieces_view(parts@);
    let n: usize = chars_of(prefix).len();
    let mut i: usize = 0;
    proof {
        assert(all.skip(0) =~= all);
    }
    while i < parts.len()
        invariant
            i <= parts@.len(),
            n == prefix@.len(),
            all == pieces_view(parts@),
            all == split_on(query@, '&'),
            first_with(all, prefix@) == first_with(all.skip(i as int), prefix@),
        decreases parts@.len() - i,
    {
        let ghost part = parts@[i as int]@;
        proof {
            assert(all.skip(i as int)[0] == part);
            assert(all.skip(i as int).skip(1) =~= all.skip(i + 1));
            assert(prefix@.is_prefix_of(part) <==> n <= part.len() && part.subrange(0, n as int)
                =~= prefix@);
        }
        if chars_at(&parts[i], 0, prefix) {
            let value = string_range(&parts[i], n, parts[i].len());
            proof {
                assert(value@ =~= part.skip(n as int));
            }
            return Some(value);
        }
        i = i + 1;
    }
    None
}

/// The number that digits denote, where they do.
pub open spec fn digits_value(s: Seq<char>) -> Option<nat>
    decreases s.len(),
{
    if s.len() == 0 {
        Some(0)
    } else if '0' <= s.last() <= '9' {
        match digits_value(s.drop_last()) {
            Some(n) => Some(n * 10 + (s.last() as nat - 48) as nat),
            None => None,
        }
    } else {
        None
    }
}

/// The number that a text denotes: digits, perhaps with a plus sign before them, that come
/// to no more than sixty-four bits.
pub open spec fn number_of(s: Seq<char>) -> Option<u64> {
    let digits = if s.len() > 0 && s[0] == '+' {
        s.skip(1)
    } else {
        s
    };
    if digits.len() == 0 {
        None
    } else {
        match digits_value(digits) {
            Some(n) => if n <= u64::MAX {
                Some(n as u64)
            } else {
                None
            },
            None => None,
        }
    }
}

/// A longer run of digits denotes no smaller a number.
proof fn lemma_digits_grow(s: Seq<char>, k: int)
    requires
        0 <= k <= s.len(),
    ensures
        digits_value(s) is Some ==> digits_value(s.take(k)) is Some && digits_value(
            s.take(k),
        )->Some_0 <= digits_value(s)->Some_0,
    decreases s.len(),
{
    if k == s.len() {
        assert(s.take(k) =~= s);
    } else {
        lemma_digits_grow(s.drop_last(), k);
        assert(s.drop_last().take(k) =~= s.take(k));
    }
}

/// The number that a text denotes.
pub fn parse_number(text: &str) -> (r: Option<u64>)
    ensures
        r == number_of(text@),
{
    let chars = chars_of(text);
    let from: usize = if chars.len() > 0 && chars[0] == '+' {
        1
    } else {
        0
    };
    let ghost digits = chars@.skip(from as int);
    proof {
        assert(chars@.skip(0) =~= chars@);
        assert(digits.take(0) =~= Seq::empty());
    }
    if from == chars.len() {
        return None;
    }
    let mut n: u64 = 0;
    let mut i: usize = from;
    while i < chars.len()
        invariant
            from <= i <= chars@.len(),
            from < chars@.len(),
            digits == chars@.skip(from as int),
            chars@ == text@,
            from == (if text@.len() > 0 && text@[0] == '+' {
                1int
            } else {
                0int
            }),
            digits_value(digits.take(i - from)) == Some(n as nat),
            number_of(text@) == match digits_value(digits) {
                Some(n) => if n <= u64::MAX {
                    Some(n as u64)
                } else {
                    None
                },
                None => None,
            },
        decreases chars@.len() - i,
    {
        let c = chars[i];
        let ghost longer = digits.take(i - from + 1);
        proof {
            lemma_digits_grow(digits, i - from + 1);
            assert(longer.drop_last() =~= digits.take(i - from));
            assert(longer.last() == c);
        }
        if c < '0' || '9' < c {
            return None;
        }
        let d: u64 = c as u64 - 48;
        if n > (0xffff_ffff_ffff_ffff - d) / 10 {
            assert(n * 10 + d > u64::MAX);
            return None;
        }
        n = n * 10 + d;
        i = i + 1;
    }
    proof {
        assert(digits.take(i - from) =~= digits);
    }
    Some(n)
}

} // verus!
