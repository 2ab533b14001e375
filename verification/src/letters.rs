//! What the text functions mean: white space, letter case, words, lines and numbers.

use crate::text::{
    decimal, decimal_padded, digit_char, hex_padded, hex_value, index_from, is_white,
    lemma_index_from, lines_of, lower_char, second_word, split_on, strip_cr, trim_end, trim_start,
    trimmed, upper_char, word_len,
};
use vstd::prelude::*;
use vstd::string::*;

verus! {

/// White space is what Unicode calls so.
pub proof fn lemma_white_space(c: char)
    ensures
        is_white(c) <==> {
            let n = c as u32;
            ||| 9 <= n <= 13
            ||| n == 32
            ||| n == 0x85
            ||| n == 0xa0
            ||| n == 0x1680
            ||| 0x2000 <= n <= 0x200a
            ||| n == 0x2028
            ||| n == 0x2029
            ||| n == 0x202f
            ||| n == 0x205f
            ||| n == 0x3000
        },
{
}

/// Only the letters of ASCII have a case, and the two cases lead to each other.
pub proof fn lemma_letter_case(c: char)
    ensures
        'A' <= c <= 'Z' ==> lower_char(c) as u32 == c as u32 + 32,
        'a' <= c <= 'z' ==> upper_char(c) as u32 == c as u32 - 32,
        !('A' <= c <= 'Z') ==> lower_char(c) == c,
        !('a' <= c <= 'z') ==> upper_char(c) == c,
        lower_char(upper_char(c)) == lower_char(c),
        upper_char(lower_char(c)) == upper_char(c),
{
}

proof fn lemma_trim_start(s: Seq<char>, t: Seq<char>)
    requires
        forall|i: int| 0 <= i < s.len() ==> is_white(#[trigger] s[i]),
        t.len() == 0 || !is_white(t[0]),
    ensures
        trim_start(s + t) == t,
    decreases s.len(),
{
    let all = s + t;
    if s.len() == 0 {
        assert(all =~= t);
    } else {
        assert(all[0] == s[0]);
        assert(all.drop_first() =~= s.drop_first() + t);
        assert forall|i: int| 0 <= i < s.drop_first().len() implies is_white(
            #[trigger] s.drop_first()[i],
        ) by {
            assert(s.drop_first()[i] == s[i + 1]);
        }
        lemma_trim_start(s.drop_first(), t);
    }
}

proof fn lemma_trim_end(t: Seq<char>, s: Seq<char>)
    requires
        forall|i: int| 0 <= i < s.len() ==> is_white(#[trigger] s[i]),
        t.len() == 0 || !is_white(t.last()),
    ensures
        trim_end(t + s) == t,
    decreases s.len(),
{
    let all = t + s;
    if s.len() == 0 {
        assert(all =~= t);
    } else {
        assert(all.last() == s[s.len() - 1]);
        assert(all.drop_last() =~= t + s.drop_last());
        assert forall|i: int| 0 <= i < s.drop_last().len() implies is_white(
            #[trigger] s.drop_last()[i],
        ) by {
            assert(s.drop_last()[i] == s[i]);
        }
        lemma_trim_end(t, s.drop_last());
    }
}

/// White space at both ends of a text is taken off, and nothing else.
pub proof fn lemma_trimmed(before: Seq<char>, text: Seq<char>, behind: Seq<char>)
    requires
        forall|i: int| 0 <= i < before.len() ==> is_white(#[trigger] before[i]),
        forall|i: int| 0 <= i < behind.len() ==> is_white(#[trigger] behind[i]),
        text.len() > 0,
        !is_white(text[0]),
        !is_white(text.last()),
    ensures
        trimmed(before + text + behind) == text,
        trimmed(before) == Seq::<char>::empty(),
{
    assert(before + text + behind =~= before + (text + behind));
    assert((text + behind)[0] == text[0]);
    lemma_trim_start(before, text + behind);
    lemma_trim_end(text, behind);
    let none = Seq::<char>::empty();
    assert(before + none =~= before);
    lemma_trim_start(before, none);
    assert(trim_end(none) == none);
}

proof fn lemma_word_len(word: Seq<char>, rest: Seq<char>)
    requires
        forall|i: int| 0 <= i < word.len() ==> !is_white(#[trigger] word[i]),
        rest.len() == 0 || is_white(rest[0]),
    ensures
        word_len(word + rest) == word.len(),
    decreases word.len(),
{
    let all = word + rest;
    if word.len() == 0 {
        assert(all =~= rest);
    } else {
        assert(all[0] == word[0]);
        let tail = word.skip(1);
        assert forall|i: int| 0 <= i < tail.len() implies !is_white(#[trigger] tail[i]) by {
            assert(tail[i] == word[i + 1]);
        }
        assert(all.skip(1) =~= tail + rest);
        lemma_word_len(tail, rest);
    }
}

/// The second of two words is found behind the space between them, whatever follows behind
/// more space.
pub proof fn lemma_second_word(first: Seq<char>, second: Seq<char>, rest: Seq<char>)
    requires
        first.len() > 0,
        second.len() > 0,
        forall|i: int| 0 <= i < first.len() ==> !is_white(#[trigger] first[i]),
        forall|i: int| 0 <= i < second.len() ==> !is_white(#[trigger] second[i]),
    ensures
        second_word(first + seq![' '] + second) == Some(second),
        second_word(first + seq![' '] + second + seq![' '] + rest) == Some(second),
        second_word(first) is None,
{
    let none = Seq::<char>::empty();
    lemma_second_found(first, second, none);
    lemma_second_found(first, second, seq![' '] + rest);
    assert(first + seq![' '] + second + none =~= first + seq![' '] + second);
    assert(first + seq![' '] + second + (seq![' '] + rest) =~= first + seq![' '] + second + seq![' ']
        + rest);
    assert(!is_white(first[0]));
    assert(first + none =~= first);
    lemma_word_len(first, none);
    assert(first.skip(first.len() as int) =~= none);
}

proof fn lemma_second_found(first: Seq<char>, second: Seq<char>, rest: Seq<char>)
    requires
        first.len() > 0,
        second.len() > 0,
        forall|i: int| 0 <= i < first.len() ==> !is_white(#[trigger] first[i]),
        forall|i: int| 0 <= i < second.len() ==> !is_white(#[trigger] second[i]),
        rest.len() == 0 || is_white(rest[0]),
    ensures
        second_word(first + seq![' '] + second + rest) == Some(second),
{
    let s = first + seq![' '] + second + rest;
    assert(s[0] == first[0] && !is_white(first[0]));
    assert(trim_start(s) == s);
    assert(s =~= first + (seq![' '] + second + rest));
    lemma_word_len(first, seq![' '] + second + rest);
    let tail = s.skip(first.len() as int);
    assert(tail =~= seq![' '] + (second + rest));
    assert((second + rest)[0] == second[0] && !is_white(second[0]));
    lemma_trim_start(seq![' '], second + rest);
    lemma_word_len(second, rest);
    assert((second + rest).take(second.len() as int) =~= second);
}

/// A line ends at a line feed, with a carriage return before it or not, and the lines behind
/// it are those of the rest.
pub proof fn lemma_first_line(line: Seq<char>, rest: Seq<char>)
    requires
        !line.contains('\n'),
        line.len() == 0 || line.last() != '\r',
    ensures
        lines_of(line + seq!['\n'] + rest) == seq![line] + lines_of(rest),
        lines_of(line + seq!['\r', '\n'] + rest) == seq![line] + lines_of(rest),
        line.len() > 0 ==> lines_of(line) == seq![line],
        lines_of(Seq::empty()).len() == 0,
{
    lemma_line_cut(line, rest);
    let wide = line.push('\r');
    assert(!wide.contains('\n')) by {
        if wide.contains('\n') {
            let i = choose|i: int| 0 <= i < wide.len() && wide[i] == '\n';
            assert(line[i] == '\n');
            assert(line.contains(line[i]));
        }
    }
    lemma_line_cut(wide, rest);
    assert(wide + seq!['\n'] + rest =~= line + seq!['\r', '\n'] + rest);
    assert(wide.drop_last() =~= line);
    lemma_index_from(line, '\n', 0);
    let k = index_from(line, '\n', 0);
    if k < line.len() {
        assert(line.contains(line[k]));
    }
}

proof fn lemma_line_cut(line: Seq<char>, rest: Seq<char>)
    requires
        !line.contains('\n'),
    ensures
        lines_of(line + seq!['\n'] + rest) == seq![strip_cr(line)] + lines_of(rest),
{
    let s = line + seq!['\n'] + rest;
    let n = line.len() as int;
    lemma_index_from(s, '\n', 0);
    let i = index_from(s, '\n', 0);
    assert(s[n] == '\n');
    if i < n {
        assert(s[i] == line[i]);
        assert(line.contains(line[i]));
    }
    assert(s.take(n) =~= line);
    assert(s.skip(n + 1) =~= rest);
}

/// The parts of a text are those between its separators: joined by them they are the text.
pub proof fn lemma_parts_join(s: Seq<char>, c: char)
    ensures
        joined(split_on(s, c), c) == s,
        split_on(s, c).len() > 0,
        forall|i: int| 0 <= i < split_on(s, c).len() ==> !(#[trigger] split_on(s, c)[i]).contains(c),
    decreases s.len(),
{
    lemma_index_from(s, c, 0);
    let i = index_from(s, c, 0);
    let parts = split_on(s, c);
    if i >= s.len() {
        assert(parts.skip(1) =~= Seq::empty());
        assert(!s.contains(c)) by {
            if s.contains(c) {
                let k = choose|k: int| 0 <= k < s.len() && s[k] == c;
                assert(s[k] != c);
            }
        }
    } else {
        let rest = s.skip(i + 1);
        lemma_parts_join(rest, c);
        let first = s.take(i);
        assert(parts.skip(1) =~= split_on(rest, c));
        assert(first + seq![c] + rest =~= s);
        assert(!first.contains(c)) by {
            if first.contains(c) {
                let k = choose|k: int| 0 <= k < first.len() && first[k] == c;
                assert(s[k] == c);
            }
        }
        assert forall|k: int| 0 <= k < parts.len() implies !(#[trigger] parts[k]).contains(c) by {
            if k > 0 {
                assert(parts[k] == split_on(rest, c)[k - 1]);
            }
        }
    }
}

/// Parts with a separator between them.
pub open spec fn joined(parts: Seq<Seq<char>>, c: char) -> Seq<char>
    decreases parts.len(),
{
    if parts.len() == 0 {
        Seq::empty()
    } else if parts.len() == 1 {
        parts[0]
    } else {
        parts[0] + seq![c] + joined(parts.skip(1), c)
    }
}

/// A digit stands for its number, in hexadecimal and in decimal, and in both cases.
pub proof fn lemma_digits(d: nat)
    requires
        d < 16,
    ensures
        hex_value(digit_char(d) as u8) == Some(d as u8),
        hex_value(upper_char(digit_char(d)) as u8) == Some(d as u8),
        d < 10 ==> digit_char(d) as u32 == 48 + d,
{
}

/// A number in a fixed width is its last digit behind the rest in one less.
pub proof fn lemma_padded(n: nat, width: nat)
    requires
        width > 0,
    ensures
        decimal_padded(n, width).len() == width,
        decimal_padded(n, width).last() as u32 == 48 + n % 10,
        decimal_padded(n, width).drop_last() == decimal_padded(n / 10, (width - 1) as nat),
        n < 10 ==> decimal(n) == decimal_padded(n, 1),
        n >= 10 ==> decimal(n) == decimal(n / 10) + decimal_padded(n, 1),
        hex_padded(n, width).len() == width,
        hex_value(hex_padded(n, width).last() as u8) == Some((n % 16) as u8),
        hex_padded(n, width).drop_last() == hex_padded(n / 16, (width - 1) as nat),
    decreases width,
{
    reveal_with_fuel(decimal_padded, 2);
    reveal_with_fuel(hex_padded, 2);
    if width > 1 {
        lemma_padded(n / 10, (width - 1) as nat);
        lemma_padded(n / 16, (width - 1) as nat);
    }
    assert(decimal_padded(n, width).drop_last() =~= decimal_padded(n / 10, (width - 1) as nat));
    assert(hex_padded(n, width).drop_last() =~= hex_padded(n / 16, (width - 1) as nat));
    assert(decimal_padded(n, 1) =~= seq![digit_char(n % 10)]);
    if n >= 10 {
        assert(decimal(n) =~= decimal(n / 10) + decimal_padded(n, 1));
    }
}

} // verus!
