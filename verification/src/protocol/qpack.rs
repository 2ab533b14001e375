//! QPACK header blocks (RFC 9204) over the static table.
//!
//! * [`encode_literal_fields`] writes a block of never-indexed literal field
//!   lines, without a dynamic table and without Huffman coding;
//! * [`decode_block`] reads a block of indexed and literal field lines, with
//!   Huffman-coded names and values.
//!
//! The peer's dynamic table is not kept: a block that refers to it is refused.

use crate::text::{concat, decimal, owned, to_decimal};
use crate::wire::{copy_range, extend};
use vstd::arithmetic::power2::{lemma2_to64, lemma2_to64_rest, lemma_pow2_pos, pow2};
use vstd::prelude::*;
use vstd::slice::slice_subrange;
use vstd::string::*;

pub use super::huffman::{huffman_decode, HUFFMAN_CODES};

verus! {

/// Why a header block could not be decoded.
#[derive(Debug)]
pub enum QpackError {
    /// Input ended in the middle of an integer or string.
    Truncated,
    /// Integer or string exceeded the implementation limit.
    Overflow,
    /// The block references the peer's dynamic table, which is not kept here.
    DynamicTableUnsupported,
    /// Unknown static-table index.
    BadIndex(u64),
    /// Invalid Huffman encoding.
    InvalidHuffman,
    /// Malformed field line prefix or string.
    Protocol(&'static str),
}

impl QpackError {
    /// The error in words.
    pub open spec fn text(self) -> Seq<char> {
        match self {
            QpackError::Truncated => "truncated QPACK data"@,
            QpackError::Overflow => "QPACK integer/string overflow"@,
            QpackError::DynamicTableUnsupported => "QPACK dynamic table is not supported"@,
            QpackError::BadIndex(i) => "QPACK static table index "@ + decimal(i as nat)
                + " out of range"@,
            QpackError::InvalidHuffman => "invalid HPACK Huffman encoding"@,
            QpackError::Protocol(m) => "QPACK protocol error: "@ + m@,
        }
    }

    /// The error in words.
    pub fn message(&self) -> (r: String)
        ensures
            r@ == self.text(),
    {
        match self {
            QpackError::Truncated => owned("truncated QPACK data"),
            QpackError::Overflow => owned("QPACK integer/string overflow"),
            QpackError::DynamicTableUnsupported => owned("QPACK dynamic table is not supported"),
            QpackError::BadIndex(i) => concat(
                &concat("QPACK static table index ", &to_decimal(*i)),
                " out of range",
            ),
            QpackError::InvalidHuffman => owned("invalid HPACK Huffman encoding"),
            QpackError::Protocol(m) => concat("QPACK protocol error: ", *m),
        }
    }
}

/// The static table: `(name, value)`, indexed from one.
pub const STATIC_TABLE: [(&'static str, &'static str); 61] = [
    (":authority", ""),
    (":method", "GET"),
    (":method", "POST"),
    (":path", "/"),
    (":path", "/index.html"),
    (":scheme", "http"),
    (":scheme", "https"),
    (":status", "200"),
    (":status", "204"),
    (":status", "206"),
    (":status", "304"),
    (":status", "400"),
    (":status", "404"),
    (":status", "500"),
    ("accept-charset", ""),
    ("accept-encoding", "gzip, deflate"),
    ("accept-language", ""),
    ("accept-ranges", ""),
    ("accept", ""),
    ("access-control-allow-origin", ""),
    ("age", ""),
    ("allow", ""),
    ("authorization", ""),
    ("cache-control", ""),
    ("content-disposition", ""),
    ("content-encoding", ""),
    ("content-language", ""),
    ("content-length", ""),
    ("content-location", ""),
    ("content-range", ""),
    ("content-type", ""),
    ("cookie", ""),
    ("date", ""),
    ("etag", ""),
    ("expect", ""),
    ("expires", ""),
    ("from", ""),
    ("host", ""),
    ("if-match", ""),
    ("if-modified-since", ""),
    ("if-none-match", ""),
    ("if-range", ""),
    ("if-unmodified-since", ""),
    ("last-modified", ""),
    ("link", ""),
    ("location", ""),
    ("max-forwards", ""),
    ("proxy-authenticate", ""),
    ("proxy-authorization", ""),
    ("range", ""),
    ("referer", ""),
    ("refresh", ""),
    ("retry-after", ""),
    ("server", ""),
    ("set-cookie", ""),
    ("strict-transport-security", ""),
    ("transfer-encoding", ""),
    ("user-agent", ""),
    ("vary", ""),
    ("via", ""),
    ("www-authenticate", ""),
];

// ---------------------------------------------------------------------------
// Integers (RFC 7541 section 5.1)
// ---------------------------------------------------------------------------

/// `128` to the power `k`.
pub open spec fn pow128(k: nat) -> nat
    decreases k,
{
    if k == 0 {
        1
    } else {
        128 * pow128((k - 1) as nat)
    }
}

/// What the continuation octet `b` adds as the `k`-th of its integer.
pub open spec fn int_term(b: u8, k: nat) -> nat {
    (b % 128) as nat * pow128(k)
}

/// The integer whose continuation octets start at `p`, `acc` having been read before.
pub open spec fn int_tail(data: Seq<u8>, p: int, k: nat, acc: nat) -> Result<
    (nat, int),
    QpackError,
>
    decreases 10 - k,
{
    if p >= data.len() {
        Err(QpackError::Truncated)
    } else if acc + int_term(data[p], k) > u64::MAX {
        Err(QpackError::Overflow)
    } else if data[p] < 128 {
        Ok((acc + int_term(data[p], k), p + 1))
    } else if k >= 9 {
        Err(QpackError::Overflow)
    } else {
        int_tail(data, p + 1, k + 1, acc + int_term(data[p], k))
    }
}

/// The integer with a `prefix`-bit prefix at `pos`, and where it ends.
pub open spec fn int_at(data: Seq<u8>, pos: int, prefix: nat) -> Result<(nat, int), QpackError> {
    if pos >= data.len() {
        Err(QpackError::Truncated)
    } else if data[pos] as nat % pow2(prefix) < pow2(prefix) - 1 {
        Ok((data[pos] as nat % pow2(prefix), pos + 1))
    } else {
        int_tail(data, pos + 1, 0, (pow2(prefix) - 1) as nat)
    }
}

/// The octets that continue an integer by `v`, seven bits at a time, lowest first.
pub open spec fn int_more(v: nat) -> Seq<u8>
    decreases v,
{
    if v < 128 {
        seq![v as u8]
    } else {
        seq![(v % 128 + 128) as u8] + int_more(v / 128)
    }
}

/// `v` with a `prefix`-bit prefix, the first octet sharing its high bits with `base`.
pub open spec fn int_bytes(base: u8, prefix: nat, v: nat) -> Seq<u8> {
    let max = (pow2(prefix) - 1) as nat;
    if v < max {
        seq![base | (v as u8)]
    } else {
        seq![base | (max as u8)] + int_more((v - max) as nat)
    }
}

fn prefix_range(prefix: u32) -> (m: u64)
    requires
        prefix < 64,
    ensures
        m == pow2(prefix as nat),
        m > 0,
{
    proof {
        lemma2_to64();
        lemma2_to64_rest();
        lemma_pow2_pos(prefix as nat);
        if prefix < 63 {
            vstd::arithmetic::power2::lemma_pow2_strictly_increases(prefix as nat, 63);
        }
        vstd::bits::lemma_u64_shl_is_mul(1, prefix as u64);
    }
    1u64 << prefix
}

/// Read an integer with a `prefix`-bit prefix. `pos` moves behind it on success.
pub fn read_int(data: &[u8], pos: &mut usize, prefix: u32) -> (r: Result<u64, QpackError>)
    requires
        prefix < 64,
    ensures
        match int_at(data@, *old(pos) as int, prefix as nat) {
            Ok((v, end)) => r is Ok && r->Ok_0 == v && *final(pos) == end,
            Err(e) => r == Err::<u64, QpackError>(e) && *final(pos) == *old(pos),
        },
{
    if *pos >= data.len() {
        return Err(QpackError::Truncated);
    }
    let m: u64 = prefix_range(prefix);
    let max: u64 = m - 1;
    let first: u8 = data[*pos];
    let mut value: u64 = first as u64 % m;
    proof {
        assert(value < m);
    }
    if value < max {
        *pos = *pos + 1;
        return Ok(value);
    }
    let mut scale: u64 = 1;
    let mut k: usize = 0;
    let mut p: usize = *pos + 1;
    let ghost goal = int_at(data@, *pos as int, prefix as nat);
    loop
        invariant
            k <= 9,
            p <= data@.len(),
            scale == pow128(k as nat),
            k < 9 ==> scale <= 0x100_0000_0000_0000,
            k == 9 ==> scale == 0x8000_0000_0000_0000,
            *pos == *old(pos),
            goal == int_at(data@, *old(pos) as int, prefix as nat),
            goal == int_tail(data@, p as int, k as nat, value as nat),
        decreases 10 - k,
    {
        if p >= data.len() {
            return Err(QpackError::Truncated);
        }
        let b: u8 = data[p];
        proof {
            if k < 9 {
                assert((b % 128) as nat * scale as nat <= 127 * 0x100_0000_0000_0000) by (nonlinear_arith)
                    requires
                        b % 128 <= 127,
                        scale <= 0x100_0000_0000_0000,
                ;
            }
        }
        if k == 9 && b % 128 > 1 {
            proof {
                assert((b % 128) as nat * pow128(9) >= 2 * 0x8000_0000_0000_0000) by (nonlinear_arith)
                    requires
                        b % 128 >= 2,
                        pow128(9) == 0x8000_0000_0000_0000,
                ;
            }
            return Err(QpackError::Overflow);
        }
        proof {
            if k == 9 {
                assert((b % 128) as nat * scale as nat <= 0x8000_0000_0000_0000) by (nonlinear_arith)
                    requires
                        b % 128 <= 1,
                        scale == 0x8000_0000_0000_0000,
                ;
            }
        }
        let term: u64 = (b % 128) as u64 * scale;
        assert(term == int_term(b, k as nat));
        value = match value.checked_add(term) {
            Some(v) => v,
            None => return Err(QpackError::Overflow),
        };
        p = p + 1;
        if b < 128 {
            *pos = p;
            return Ok(value);
        }
        if k >= 9 {
            return Err(QpackError::Overflow);
        }
        proof {
            lemma_pow128((k + 1) as nat);
        }
        scale = scale * 128;
        k = k + 1;
    }
}

proof fn lemma_pow128(k: nat)
    ensures
        0 < k <= 9 ==> pow128(k) == 128 * pow128((k - 1) as nat),
        k < 9 ==> pow128(k) <= 0x100_0000_0000_0000,
        k == 9 ==> pow128(k) == 0x8000_0000_0000_0000,
{
    reveal_with_fuel(pow128, 10);
    if k < 9 {
        assert(k == 0 || k == 1 || k == 2 || k == 3 || k == 4 || k == 5 || k == 6 || k == 7 || k == 8);
    }
}

/// Append `value` as an integer with a `prefix`-bit prefix, onto `base`.
pub fn write_int(out: &mut Vec<u8>, base: u8, prefix: u32, value: u64)
    requires
        prefix < 64,
    ensures
        final(out)@ == old(out)@ + int_bytes(base, prefix as nat, value as nat),
{
    let max: u64 = prefix_range(prefix) - 1;
    let ghost start = out@;
    if value < max {
        out.push(base | (value as u8));
        proof {
            assert(out@ =~= start + int_bytes(base, prefix as nat, value as nat));
        }
        return;
    }
    out.push(base | (max as u8));
    let mut v: u64 = value - max;
    let ghost goal = start + int_bytes(base, prefix as nat, value as nat);
    proof {
        assert(goal =~= out@ + int_more(v as nat));
    }
    while v >= 128
        invariant
            out@ + int_more(v as nat) == goal,
        decreases v,
    {
        let ghost before = out@;
        let ghost rest = int_more(v as nat / 128);
        out.push((v % 128) as u8 + 128);
        proof {
            assert(before + int_more(v as nat) =~= out@ + rest);
        }
        v = v / 128;
    }
    out.push(v as u8);
    proof {
        assert(out@ =~= goal);
    }
}

// ---------------------------------------------------------------------------
// Strings (RFC 7541 section 5.2)
// ---------------------------------------------------------------------------

/// The text that a Huffman-coded byte string stands for.
pub open spec fn huffman_text(raw: Seq<u8>) -> Option<Seq<u8>> {
    if exists|text: Seq<u8>| super::huffman::huffman_encodes(super::huffman::bits_of(raw), text) {
        Some(
            choose|text: Seq<u8>|
                super::huffman::huffman_encodes(super::huffman::bits_of(raw), text),
        )
    } else {
        None
    }
}

/// The string literal at `pos` whose length has a `prefix`-bit prefix, and where it ends.
pub open spec fn string_at(data: Seq<u8>, pos: int, prefix: nat) -> Result<
    (Seq<u8>, int),
    QpackError,
> {
    match int_at(data, pos, prefix) {
        Err(e) => Err(e),
        Ok((len, at)) => if len > data.len() - at {
            Err(QpackError::Truncated)
        } else {
            let raw = data.subrange(at, at + len);
            if data[pos] < 128 {
                Ok((raw, at + len))
            } else {
                match huffman_text(raw) {
                    Some(text) => Ok((text, at + len)),
                    None => Err(QpackError::InvalidHuffman),
                }
            }
        },
    }
}

/// Read the string literal at `pos` whose length has a `prefix`-bit prefix. `pos` moves behind it on success.
fn read_string_with(data: &[u8], pos: &mut usize, prefix: u32) -> (r: Result<Vec<u8>, QpackError>)
    requires
        0 < prefix < 64,
    ensures
        match string_at(data@, *old(pos) as int, prefix as nat) {
            Ok((text, end)) => r is Ok && r->Ok_0@ == text && *final(pos) == end,
            Err(e) => r is Err && r->Err_0 == e,
        },
{
    if *pos >= data.len() {
        return Err(QpackError::Truncated);
    }
    let huffman: bool = data[*pos] >= 128;
    let len: u64 = match read_int(data, pos, prefix) {
        Ok(v) => v,
        Err(e) => return Err(e),
    };
    proof {
        lemma_int_end(data@, *old(pos) as int, prefix as nat);
    }
    if len > (data.len() - *pos) as u64 {
        return Err(QpackError::Truncated);
    }
    let n: usize = len as usize;
    let from: usize = *pos;
    *pos = from + n;
    if huffman {
        let raw = slice_subrange(data, from, from + n);
        let decoded = huffman_decode(raw);
        proof {
            if decoded is Ok {
                let text = decoded->Ok_0;
                super::huffman::lemma_huffman_unique(
                    super::huffman::bits_of(raw@),
                    text@,
                    huffman_text(raw@)->Some_0,
                );
            }
        }
        decoded
    } else {
        Ok(copy_range(data, from, from + n))
    }
}

proof fn lemma_int_tail_end(data: Seq<u8>, p: int, k: nat, acc: nat)
    ensures
        int_tail(data, p, k, acc) matches Ok((v, end)) ==> p < end <= data.len() && v <= u64::MAX,
    decreases 10 - k,
{
    if p < data.len() && data[p] >= 128 && k < 9 && acc + int_term(data[p], k) <= u64::MAX {
        lemma_int_tail_end(data, p + 1, k + 1, acc + int_term(data[p], k));
    }
}

/// An integer takes at least one octet and ends inside the data.
proof fn lemma_int_end(data: Seq<u8>, pos: int, prefix: nat)
    ensures
        int_at(data, pos, prefix) matches Ok((v, end)) ==> pos < end <= data.len() && v <= u64::MAX,
{
    lemma_int_tail_end(data, pos + 1, 0, (pow2(prefix) - 1) as nat);
    lemma_pow2_pos(prefix);
    if pos < data.len() {
        vstd::arithmetic::div_mod::lemma_mod_decreases(data[pos] as nat, pow2(prefix));
    }
}

/// Read a string literal: a Huffman flag and a 7-bit length, then the octets.
pub fn read_string(data: &[u8], pos: &mut usize) -> (r: Result<Vec<u8>, QpackError>)
    ensures
        match string_at(data@, *old(pos) as int, 7) {
            Ok((text, end)) => r is Ok && r->Ok_0@ == text && *final(pos) == end,
            Err(e) => r is Err && r->Err_0 == e,
        },
{
    read_string_with(data, pos, 7)
}

/// Read the name of a literal field line, whose first octet holds the line's pattern
/// and the first four bits of the length.
pub fn read_string_raw4(data: &[u8], pos: &mut usize) -> (r: Result<Vec<u8>, QpackError>)
    ensures
        match string_at(data@, *old(pos) as int, 4) {
            Ok((text, end)) => r is Ok && r->Ok_0@ == text && *final(pos) == end,
            Err(e) => r is Err && r->Err_0 == e,
        },
{
    read_string_with(data, pos, 4)
}

/// A string literal that is not Huffman coded.
pub open spec fn string_bytes(text: Seq<u8>) -> Seq<u8> {
    int_bytes(0, 7, text.len()) + text
}

/// Append a plain string literal.
pub fn write_string(out: &mut Vec<u8>, bytes: &[u8])
    ensures
        final(out)@ == old(out)@ + string_bytes(bytes@),
{
    write_int(out, 0x00, 7, bytes.len() as u64);
    extend(out, bytes);
    proof {
        assert(out@ =~= old(out)@ + string_bytes(bytes@));
    }
}

// ---------------------------------------------------------------------------
// Header blocks
// ---------------------------------------------------------------------------

/// A decoded header field: `(name, value)`.
pub type HeaderField = (Vec<u8>, Vec<u8>);

/// The static-table entry of `index`.
pub open spec fn static_field(index: nat) -> Option<(Seq<u8>, Seq<u8>)> {
    if 1 <= index <= 61 {
        let (name, value) = STATIC_TABLE@[index - 1];
        Some((name.spec_bytes(), value.spec_bytes()))
    } else {
        None
    }
}

pub fn static_entry(index: u64) -> (r: Result<(&'static str, &'static str), QpackError>)
    ensures
        match static_field(index as nat) {
            Some((name, value)) => r is Ok && r->Ok_0.0.spec_bytes() == name
                && r->Ok_0.1.spec_bytes() == value,
            None => r == Err::<(&'static str, &'static str), QpackError>(QpackError::BadIndex(index)),
        },
{
    if index == 0 || index > 61 {
        return Err(QpackError::BadIndex(index));
    }
    Ok(STATIC_TABLE[(index - 1) as usize])
}

/// The field line at `pos`, and where it ends.
pub open spec fn field_at(block: Seq<u8>, pos: int) -> Result<
    ((Seq<u8>, Seq<u8>), int),
    QpackError,
> {
    let b = block[pos];
    if b >= 0x80 {
        match int_at(block, pos, 6) {
            Err(e) => Err(e),
            Ok((index, end)) => if (b / 0x40) % 2 == 0 {
                Err(QpackError::DynamicTableUnsupported)
            } else {
                match static_field(index) {
                    None => Err(QpackError::BadIndex(index as u64)),
                    Some(field) => Ok((field, end)),
                }
            },
        }
    } else if b >= 0x40 {
        match int_at(block, pos, 4) {
            Err(e) => Err(e),
            Ok((index, at)) => if (b / 0x10) % 2 == 0 {
                Err(QpackError::DynamicTableUnsupported)
            } else {
                match static_field(index) {
                    None => Err(QpackError::BadIndex(index as u64)),
                    Some((name, _)) => match string_at(block, at, 7) {
                        Err(e) => Err(e),
                        Ok((value, end)) => Ok(((name, value), end)),
                    },
                }
            },
        }
    } else if b >= 0x20 {
        match string_at(block, pos, 4) {
            Err(e) => Err(e),
            Ok((name, at)) => match string_at(block, at, 7) {
                Err(e) => Err(e),
                Ok((value, end)) => Ok(((name, value), end)),
            },
        }
    } else {
        Err(QpackError::Protocol("invalid field line prefix"))
    }
}

/// The field lines from `pos` to the end of the block.
pub open spec fn fields_from(block: Seq<u8>, pos: int) -> Result<
    Seq<(Seq<u8>, Seq<u8>)>,
    QpackError,
>
    decreases block.len() - pos,
{
    if pos >= block.len() {
        Ok(Seq::empty())
    } else {
        match field_at(block, pos) {
            Err(e) => Err(e),
            Ok((field, end)) => if pos < end <= block.len() {
                match fields_from(block, end) {
                    Err(e) => Err(e),
                    Ok(rest) => Ok(seq![field] + rest),
                }
            } else {
                Ok(Seq::empty())
            },
        }
    }
}

/// The fields of a header block.
pub open spec fn block_fields(block: Seq<u8>) -> Result<Seq<(Seq<u8>, Seq<u8>)>, QpackError> {
    match int_at(block, 0, 8) {
        Err(e) => Err(e),
        Ok((required, at)) => if required != 0 {
            Err(QpackError::DynamicTableUnsupported)
        } else {
            match int_at(block, at, 7) {
                Err(e) => Err(e),
                Ok((_, start)) => fields_from(block, start),
            }
        },
    }
}

/// The names and values of decoded fields.
pub open spec fn fields_view(fields: Seq<HeaderField>) -> Seq<(Seq<u8>, Seq<u8>)> {
    fields.map_values(|f: HeaderField| (f.0@, f.1@))
}

proof fn lemma_string_end(data: Seq<u8>, pos: int, prefix: nat)
    requires
        0 <= pos,
    ensures
        string_at(data, pos, prefix) matches Ok((text, end)) ==> pos < end <= data.len(),
{
    lemma_int_end(data, pos, prefix);
}

proof fn lemma_field_end(block: Seq<u8>, pos: int)
    requires
        0 <= pos < block.len(),
    ensures
        field_at(block, pos) matches Ok((field, end)) ==> pos < end <= block.len(),
{
    lemma_int_end(block, pos, 6);
    lemma_int_end(block, pos, 4);
    lemma_string_end(block, pos, 4);
    if let Ok((_, at)) = int_at(block, pos, 4) {
        lemma_string_end(block, at, 7);
    }
    if let Ok((_, at)) = string_at(block, pos, 4) {
        lemma_string_end(block, at, 7);
    }
}

/// Read the field line at `pos`. `pos` moves behind it on success.
fn read_field(block: &[u8], pos: &mut usize) -> (r: Result<HeaderField, QpackError>)
    requires
        *old(pos) < block@.len(),
    ensures
        match field_at(block@, *old(pos) as int) {
            Ok(((name, value), end)) => r is Ok && r->Ok_0.0@ == name && r->Ok_0.1@ == value
                && *final(pos) == end,
            Err(e) => r is Err && r->Err_0 == e,
        },
{
    let b: u8 = block[*pos];
    proof {
        lemma_int_end(block@, *pos as int, 6);
        lemma_int_end(block@, *pos as int, 4);
    }
    if b >= 0x80 {
        let index: u64 = match read_int(block, pos, 6) {
            Ok(v) => v,
            Err(e) => return Err(e),
        };
        if (b / 0x40) % 2 == 0 {
            return Err(QpackError::DynamicTableUnsupported);
        }
        match static_entry(index) {
            Ok((name, value)) => Ok((name.as_bytes_vec(), value.as_bytes_vec())),
            Err(e) => Err(e),
        }
    } else if b >= 0x40 {
        let index: u64 = match read_int(block, pos, 4) {
            Ok(v) => v,
            Err(e) => return Err(e),
        };
        if (b / 0x10) % 2 == 0 {
            return Err(QpackError::DynamicTableUnsupported);
        }
        let name = match static_entry(index) {
            Ok((name, _)) => name,
            Err(e) => return Err(e),
        };
        match read_string(block, pos) {
            Ok(value) => Ok((name.as_bytes_vec(), value)),
            Err(e) => Err(e),
        }
    } else if b >= 0x20 {
        let name = match read_string_raw4(block, pos) {
            Ok(name) => name,
            Err(e) => return Err(e),
        };
        match read_string(block, pos) {
            Ok(value) => Ok((name, value)),
            Err(e) => Err(e),
        }
    } else {
        Err(QpackError::Protocol("invalid field line prefix"))
    }
}

/// Decode a header block into `(name, value)` pairs.
///
/// Only the static table is consulted; a non-zero Required Insert Count or a
/// dynamic-table reference is refused with [`QpackError::DynamicTableUnsupported`].
pub fn decode_block(block: &[u8]) -> (r: Result<Vec<HeaderField>, QpackError>)
    ensures
        match block_fields(block@) {
            Ok(fields) => r is Ok && fields_view(r->Ok_0@) == fields,
            Err(e) => r is Err && r->Err_0 == e,
        },
{
    let mut pos: usize = 0;
    let required: u64 = match read_int(block, &mut pos, 8) {
        Ok(v) => v,
        Err(e) => return Err(e),
    };
    if required != 0 {
        return Err(QpackError::DynamicTableUnsupported);
    }
    proof {
        lemma_int_end(block@, 0, 8);
        lemma_int_end(block@, pos as int, 7);
    }
    match read_int(block, &mut pos, 7) {
        Ok(_) => {},
        Err(e) => return Err(e),
    }
    let mut fields: Vec<HeaderField> = Vec::new();
    let ghost goal = fields_from(block@, pos as int);
    proof {
        if let Ok(all) = goal {
            assert(fields_view(fields@) + all =~= all);
        }
    }
    while pos < block.len()
        invariant
            pos <= block@.len(),
            goal == block_fields(block@),
            match fields_from(block@, pos as int) {
                Ok(rest) => goal == Ok::<Seq<(Seq<u8>, Seq<u8>)>, QpackError>(
                    fields_view(fields@) + rest,
                ),
                Err(e) => goal == Err::<Seq<(Seq<u8>, Seq<u8>)>, QpackError>(e),
            },
        decreases block@.len() - pos,
    {
        let ghost before = fields@;
        let ghost at = pos as int;
        proof {
            lemma_field_end(block@, at);
        }
        match read_field(block, &mut pos) {
            Ok(field) => {
                fields.push(field);
                proof {
                    if let Ok(rest) = fields_from(block@, pos as int) {
                        assert(fields_view(before) + (seq![(field.0@, field.1@)] + rest)
                            =~= fields_view(fields@) + rest);
                    }
                }
            },
            Err(e) => return Err(e),
        }
    }
    proof {
        assert(fields_view(fields@) + Seq::empty() =~= fields_view(fields@));
    }
    Ok(fields)
}

/// A never-indexed literal field line with a literal name.
pub open spec fn field_line(name: Seq<u8>, value: Seq<u8>) -> Seq<u8> {
    int_bytes(0x30, 4, name.len()) + name + string_bytes(value)
}

/// Field lines, one after another.
pub open spec fn field_lines(fields: Seq<(Seq<u8>, Seq<u8>)>) -> Seq<u8>
    decreases fields.len(),
{
    if fields.len() == 0 {
        Seq::empty()
    } else {
        field_line(fields[0].0, fields[0].1) + field_lines(fields.drop_first())
    }
}

/// The names and values of fields to be written.
pub open spec fn slices_view(fields: Seq<(&[u8], &[u8])>) -> Seq<(Seq<u8>, Seq<u8>)> {
    fields.map_values(|f: (&[u8], &[u8])| (f.0@, f.1@))
}

/// Encode a header block of never-indexed literal field lines: a Required Insert
/// Count and a Delta Base of zero, then the lines.
pub fn encode_literal_fields(fields: &[(&[u8], &[u8])]) -> (r: Vec<u8>)
    ensures
        r@ == seq![0u8, 0u8] + field_lines(slices_view(fields@)),
{
    let mut out: Vec<u8> = Vec::new();
    out.push(0x00);
    out.push(0x00);
    let ghost all = slices_view(fields@);
    let ghost goal = seq![0u8, 0u8] + field_lines(all);
    let mut i: usize = 0;
    proof {
        assert(all.skip(0) =~= all);
        assert(out@ =~= seq![0u8, 0u8]);
    }
    while i < fields.len()
        invariant
            i <= fields@.len(),
            all == slices_view(fields@),
            out@ + field_lines(all.skip(i as int)) == goal,
        decreases fields@.len() - i,
    {
        let (name, value) = fields[i];
        let ghost before = out@;
        write_int(&mut out, 0x30, 4, name.len() as u64);
        extend(&mut out, name);
        write_string(&mut out, value);
        proof {
            let rest = all.skip(i as int);
            assert(rest.drop_first() =~= all.skip(i + 1));
            assert(rest[0] == (name@, value@));
            assert(out@ =~= before + field_line(name@, value@));
            assert(before + field_lines(rest) =~= out@ + field_lines(all.skip(i + 1)));
        }
        i = i + 1;
    }
    proof {
        assert(out@ + field_lines(all.skip(i as int)) =~= out@);
    }
    out
}

// ---------------------------------------------------------------------------
// What is written is read back
// ---------------------------------------------------------------------------

proof fn lemma_or_is_sum(base: u8, x: u8, m: u8)
    requires
        m == 1 || m == 2 || m == 4 || m == 8 || m == 16 || m == 32 || m == 64 || m == 128,
        base % m == 0,
        x < m,
    ensures
        base | x == base + x,
        (base | x) % m == x,
{
    assert(base | x == base + x && (base | x) % m == x) by (bit_vector)
        requires
            m == 1 || m == 2 || m == 4 || m == 8 || m == 16 || m == 32 || m == 64 || m == 128,
            base % m == 0,
            x < m,
    ;
}

/// The octets of a prefix come apart again.
proof fn lemma_prefix_octet(base: u8, prefix: nat, x: u8)
    requires
        prefix <= 8,
        base as nat % pow2(prefix) == 0,
        x < pow2(prefix),
    ensures
        base | x == base + x,
        (base + x) as nat % pow2(prefix) == x,
{
    lemma2_to64();
    if prefix == 8 {
        assert(pow2(prefix) == 256);
        assert(base as nat % 256 == base as nat);
        assert(base | x == x) by (bit_vector)
            requires
                base == 0,
        ;
    } else {
        assert(prefix == 0 || prefix == 1 || prefix == 2 || prefix == 3 || prefix == 4 || prefix == 5
            || prefix == 6 || prefix == 7);
        let m = pow2(prefix) as u8;
        assert(base as nat % pow2(prefix) == (base % m) as nat);
        lemma_or_is_sum(base, x, m);
        assert((base | x) as nat % pow2(prefix) == ((base | x) % m) as nat);
    }
}

/// The continuation octets of `v`, read from the `k`-th on, add `v` in its place.
proof fn lemma_int_more_read(data: Seq<u8>, p: int, k: nat, acc: nat, v: nat)
    requires
        0 <= p,
        k <= 9,
        acc + v * pow128(k) <= u64::MAX,
        p + int_more(v).len() <= data.len(),
        data.subrange(p, p + int_more(v).len()) == int_more(v),
    ensures
        int_tail(data, p, k, acc) == Ok::<(nat, int), QpackError>(
            (acc + v * pow128(k), p + int_more(v).len()),
        ),
    decreases v,
{
    let s = int_more(v);
    let h = pow128(k) as int;
    lemma_pow128(k);
    assert(data[p] == s[0]) by {
        assert(data.subrange(p, p + s.len())[0] == data[p]);
    }
    if v < 128 {
        if k == 9 {
            assert(v <= 1) by (nonlinear_arith)
                requires
                    v * h <= u64::MAX,
                    h == 0x8000_0000_0000_0000,
            ;
        }
    } else {
        let (q, r) = (v as int / 128, v as int % 128);
        assert(v * h == r * h + q * (128 * h)) by (nonlinear_arith)
            requires
                v == 128 * q + r,
        ;
        assert(q * (128 * h) >= 128 * h && r * h >= 0) by (nonlinear_arith)
            requires
                q >= 1,
                r >= 0,
                h >= 0,
        ;
        if k == 9 {
            assert(false);
        }
        lemma_pow128(k + 1);
        let rest = int_more(v / 128);
        assert(data.subrange(p + 1, p + 1 + rest.len()) =~= rest) by {
            assert(s =~= seq![s[0]] + rest);
            assert forall|i: int| 0 <= i < rest.len() implies data[p + 1 + i] == rest[i] by {
                assert(data.subrange(p, p + s.len())[i + 1] == s[i + 1]);
            }
        }
        lemma_int_more_read(data, p + 1, k + 1, acc + r as nat * pow128(k), v / 128);
    }
}

/// An integer that was written is read back, whatever stands around it, for every
/// prefix of at most eight bits and every base that leaves those bits clear.
pub proof fn lemma_int_round_trip(data: Seq<u8>, pos: int, base: u8, prefix: nat, v: nat)
    requires
        0 <= pos,
        0 < prefix <= 8,
        base as nat % pow2(prefix) == 0,
        v <= u64::MAX,
        pos + int_bytes(base, prefix, v).len() <= data.len(),
        data.subrange(pos, pos + int_bytes(base, prefix, v).len()) == int_bytes(base, prefix, v),
    ensures
        int_at(data, pos, prefix) == Ok::<(nat, int), QpackError>(
            (v, pos + int_bytes(base, prefix, v).len()),
        ),
        data[pos] == base + (if v < pow2(prefix) - 1 {
            v as int
        } else {
            pow2(prefix) - 1
        }),
{
    let s = int_bytes(base, prefix, v);
    let max = (pow2(prefix) - 1) as nat;
    lemma2_to64();
    assert(data[pos] == s[0]) by {
        assert(data.subrange(pos, pos + s.len())[0] == data[pos]);
    }
    if v < max {
        lemma_prefix_octet(base, prefix, v as u8);
    } else {
        lemma_prefix_octet(base, prefix, max as u8);
        let rest = int_more((v - max) as nat);
        assert(data.subrange(pos + 1, pos + 1 + rest.len()) =~= rest) by {
            assert forall|i: int| 0 <= i < rest.len() implies data[pos + 1 + i] == rest[i] by {
                assert(data.subrange(pos, pos + s.len())[i + 1] == s[i + 1]);
            }
        }
        assert((v - max) * pow128(0) == v - max) by {
            assert(pow128(0) == 1);
            assert((v - max) * 1 == v - max);
        }
        lemma_int_more_read(data, pos + 1, 0, max, (v - max) as nat);
    }
}

proof fn lemma_string_round_trip(data: Seq<u8>, pos: int, base: u8, prefix: nat, text: Seq<u8>)
    requires
        0 <= pos,
        0 < prefix <= 7,
        base as nat % pow2(prefix) == 0,
        base < 0x80,
        text.len() <= u64::MAX,
        pos + int_bytes(base, prefix, text.len()).len() + text.len() <= data.len(),
        data.subrange(pos, pos + int_bytes(base, prefix, text.len()).len() + text.len())
            == int_bytes(base, prefix, text.len()) + text,
    ensures
        string_at(data, pos, prefix) == Ok::<(Seq<u8>, int), QpackError>(
            (text, pos + int_bytes(base, prefix, text.len()).len() + text.len()),
        ),
{
    let s = int_bytes(base, prefix, text.len());
    let all = s + text;
    let n = s.len() as int;
    assert(data.subrange(pos, pos + n) =~= s) by {
        assert forall|i: int| 0 <= i < n implies data[pos + i] == s[i] by {
            assert(data.subrange(pos, pos + n + text.len())[i] == all[i]);
        }
    }
    lemma_int_round_trip(data, pos, base, prefix, text.len());
    assert(data.subrange(pos + n, pos + n + text.len()) =~= text) by {
        assert forall|i: int| 0 <= i < text.len() implies data[pos + n + i] == text[i] by {
            assert(data.subrange(pos, pos + n + text.len())[n + i] == all[n + i]);
        }
    }
    lemma2_to64();
    assert(data[pos] < 128) by {
        assert(base as int + pow2(prefix) - 1 < 128) by {
            lemma_base_room(base, prefix);
        }
    }
}

proof fn lemma_base_room(base: u8, prefix: nat)
    requires
        0 < prefix <= 7,
        base as nat % pow2(prefix) == 0,
        base < 0x80,
    ensures
        base as int + pow2(prefix) - 1 < 128,
{
    lemma2_to64();
    let m = pow2(prefix) as u8;
    assert(base + m - 1 < 128) by (bit_vector)
        requires
            m == 2 || m == 4 || m == 8 || m == 16 || m == 32 || m == 64 || m == 128,
            base % m == 0,
            base < 128,
    ;
}

proof fn lemma_field_lines_read(block: Seq<u8>, pos: int, fields: Seq<(Seq<u8>, Seq<u8>)>)
    requires
        0 <= pos <= block.len(),
        block.skip(pos) == field_lines(fields),
        forall|i: int|
            0 <= i < fields.len() ==> (#[trigger] fields[i]).0.len() <= u64::MAX && fields[i].1.len()
                <= u64::MAX,
    ensures
        fields_from(block, pos) == Ok::<Seq<(Seq<u8>, Seq<u8>)>, QpackError>(fields),
    decreases fields.len(),
{
    if fields.len() == 0 {
        assert(block.len() == pos) by {
            assert(block.skip(pos).len() == 0);
        }
        assert(fields =~= Seq::empty());
    } else {
        let (name, value) = fields[0];
        let rest = fields.drop_first();
        let a = int_bytes(0x30, 4, name.len());
        let b = int_bytes(0, 7, value.len());
        let tail = block.skip(pos);
        assert(tail =~= (a + name + (b + value)) + field_lines(rest));
        lemma2_to64();
        assert(a.len() >= 1 && b.len() >= 1);
        assert(block.subrange(pos, pos + a.len() + name.len()) =~= a + name) by {
            assert forall|i: int| 0 <= i < a.len() + name.len() implies block[pos + i] == (a + name)[i] by {
                assert(tail[i] == block[pos + i]);
            }
        }
        lemma_string_round_trip(block, pos, 0x30, 4, name);
        let at = pos + a.len() + name.len();
        assert(block.subrange(at, at + b.len() + value.len()) =~= b + value) by {
            assert forall|i: int| 0 <= i < b.len() + value.len() implies block[at + i] == (b
                + value)[i] by {
                assert(tail[a.len() + name.len() + i] == block[at + i]);
            }
        }
        lemma_string_round_trip(block, at, 0, 7, value);
        let end = at + b.len() + value.len();
        assert(0x20 <= block[pos] < 0x40) by {
            assert(block.subrange(pos, pos + a.len()) =~= a);
            lemma_int_round_trip(block, pos, 0x30, 4, name.len());
        }
        assert(block.skip(end) =~= field_lines(rest)) by {
            assert forall|i: int| 0 <= i < field_lines(rest).len() implies block[end + i]
                == field_lines(rest)[i] by {
                assert(tail[end - pos + i] == block[end + i]);
            }
        }
        assert forall|i: int| 0 <= i < rest.len() implies (#[trigger] rest[i]).0.len() <= u64::MAX
            && rest[i].1.len() <= u64::MAX by {
            assert(rest[i] == fields[i + 1]);
        }
        lemma_field_lines_read(block, end, rest);
        assert(seq![fields[0]] + rest =~= fields);
    }
}

/// A block written by [`encode_literal_fields`] decodes to the fields it was made of.
pub proof fn lemma_literal_fields_round_trip(fields: Seq<(Seq<u8>, Seq<u8>)>)
    requires
        forall|i: int|
            0 <= i < fields.len() ==> (#[trigger] fields[i]).0.len() <= u64::MAX && fields[i].1.len()
                <= u64::MAX,
    ensures
        block_fields(seq![0u8, 0u8] + field_lines(fields)) == Ok::<
            Seq<(Seq<u8>, Seq<u8>)>,
            QpackError,
        >(fields),
{
    let block = seq![0u8, 0u8] + field_lines(fields);
    lemma2_to64();
    assert(block.skip(2) =~= field_lines(fields));
    lemma_field_lines_read(block, 2, fields);
}

// ---------------------------------------------------------------------------
// Every form of a field line
// ---------------------------------------------------------------------------

/// A string as a peer may write it: as it is, or Huffman coded.
#[verifier::ext_equal]
pub struct WireText {
    /// What the string says.
    pub text: Seq<u8>,
    /// Whether it is Huffman coded.
    pub coded: bool,
    /// The octets on the wire behind the length.
    pub raw: Seq<u8>,
}

impl WireText {
    /// Whether the octets stand for the text.
    pub open spec fn wf(self) -> bool {
        &&& self.raw.len() <= u64::MAX
        &&& if self.coded {
            super::huffman::huffman_encodes(super::huffman::bits_of(self.raw), self.text)
        } else {
            self.raw == self.text
        }
    }

    /// A flag for the coding and a 7-bit length, then the octets.
    pub open spec fn octets(self) -> Seq<u8> {
        int_bytes(
            if self.coded {
                0x80
            } else {
                0
            },
            7,
            self.raw.len(),
        ) + self.raw
    }
}

/// A field line that needs no dynamic table.
#[verifier::ext_equal]
pub enum FieldLine {
    /// A name and a value of the static table.
    Indexed { index: nat },
    /// A name of the static table, and a value.
    NameReference { index: nat, never_indexed: bool, value: WireText },
    /// A name and a value.
    Literal { name: Seq<u8>, never_indexed: bool, value: WireText },
}

impl FieldLine {
    /// Whether the line refers to an entry that there is, and its strings are sound.
    pub open spec fn wf(self) -> bool {
        match self {
            FieldLine::Indexed { index } => 1 <= index <= 61,
            FieldLine::NameReference { index, never_indexed, value } => 1 <= index <= 61
                && value.wf(),
            FieldLine::Literal { name, never_indexed, value } => name.len() <= u64::MAX
                && value.wf(),
        }
    }

    /// The line on the wire (RFC 9204 sections 4.5.2, 4.5.4 and 4.5.6).
    pub open spec fn octets(self) -> Seq<u8> {
        match self {
            FieldLine::Indexed { index } => int_bytes(0xc0, 6, index),
            FieldLine::NameReference { index, never_indexed, value } => int_bytes(
                if never_indexed {
                    0x70
                } else {
                    0x50
                },
                4,
                index,
            ) + value.octets(),
            FieldLine::Literal { name, never_indexed, value } => int_bytes(
                if never_indexed {
                    0x30
                } else {
                    0x20
                },
                4,
                name.len(),
            ) + name + value.octets(),
        }
    }

    /// The name that the line gives.
    pub open spec fn name(self) -> Seq<u8> {
        match self {
            FieldLine::Indexed { index } => STATIC_TABLE@[index - 1].0.spec_bytes(),
            FieldLine::NameReference { index, never_indexed, value } => STATIC_TABLE@[index
                - 1].0.spec_bytes(),
            FieldLine::Literal { name, never_indexed, value } => name,
        }
    }

    /// The value that the line gives.
    pub open spec fn value(self) -> Seq<u8> {
        match self {
            FieldLine::Indexed { index } => STATIC_TABLE@[index - 1].1.spec_bytes(),
            FieldLine::NameReference { index, never_indexed, value } => value.text,
            FieldLine::Literal { name, never_indexed, value } => value.text,
        }
    }
}

/// Lines, one after another.
pub open spec fn lines_octets(lines: Seq<FieldLine>) -> Seq<u8>
    decreases lines.len(),
{
    if lines.len() == 0 {
        Seq::empty()
    } else {
        lines[0].octets() + lines_octets(lines.drop_first())
    }
}

proof fn lemma_inside(data: Seq<u8>, pos: int, head: Seq<u8>, part: Seq<u8>, rest: Seq<u8>)
    requires
        0 <= pos <= data.len(),
        data.skip(pos) == head + part + rest,
    ensures
        pos + head.len() + part.len() <= data.len(),
        data.subrange(pos + head.len(), pos + head.len() + part.len()) == part,
        data.skip(pos + head.len() + part.len() as int) == rest,
{
    let tail = data.skip(pos);
    assert(tail.len() == data.len() - pos);
    assert(data.subrange(pos + head.len(), pos + head.len() + part.len()) =~= part) by {
        assert forall|i: int| 0 <= i < part.len() implies data[pos + head.len() + i] == part[i] by {
            assert(tail[head.len() + i] == data[pos + head.len() + i]);
        }
    }
    assert(data.skip(pos + head.len() + part.len() as int) =~= rest) by {
        assert forall|i: int| 0 <= i < rest.len() implies data[pos + head.len() + part.len() + i]
            == rest[i] by {
            assert(tail[head.len() + part.len() + i] == data[pos + head.len() + part.len() + i]);
        }
    }
}

proof fn lemma_wire_text_read(data: Seq<u8>, pos: int, w: WireText)
    requires
        0 <= pos,
        w.wf(),
        pos + w.octets().len() <= data.len(),
        data.subrange(pos, pos + w.octets().len()) == w.octets(),
    ensures
        string_at(data, pos, 7) == Ok::<(Seq<u8>, int), QpackError>(
            (w.text, pos + w.octets().len()),
        ),
{
    lemma2_to64();
    if w.coded {
        let s = int_bytes(0x80, 7, w.raw.len());
        let n = s.len() as int;
        assert(data.subrange(pos, pos + n) =~= s) by {
            assert forall|i: int| 0 <= i < n implies data[pos + i] == s[i] by {
                assert(data.subrange(pos, pos + w.octets().len())[i] == w.octets()[i]);
            }
        }
        lemma_int_round_trip(data, pos, 0x80, 7, w.raw.len());
        assert(data.subrange(pos + n, pos + n + w.raw.len()) =~= w.raw) by {
            assert forall|i: int| 0 <= i < w.raw.len() implies data[pos + n + i] == w.raw[i] by {
                assert(data.subrange(pos, pos + w.octets().len())[n + i] == w.octets()[n + i]);
            }
        }
        super::huffman::lemma_huffman_unique(
            super::huffman::bits_of(w.raw),
            w.text,
            huffman_text(w.raw)->Some_0,
        );
    } else {
        lemma_string_round_trip(data, pos, 0, 7, w.raw);
    }
}

proof fn lemma_indexed_read(block: Seq<u8>, pos: int, index: nat, rest: Seq<u8>)
    requires
        0 <= pos <= block.len(),
        index <= u64::MAX,
        block.skip(pos) == int_bytes(0xc0, 6, index) + rest,
    ensures
        ({
            let a = int_bytes(0xc0, 6, index);
            &&& a.len() > 0
            &&& pos + a.len() <= block.len()
            &&& block.skip(pos + a.len() as int) == rest
            &&& block[pos] >= 0xc0
            &&& int_at(block, pos, 6) == Ok::<(nat, int), QpackError>((index, pos + a.len()))
        }),
{
    lemma2_to64();
    let none = Seq::<u8>::empty();
    let a = int_bytes(0xc0, 6, index);
    assert(none + a + rest =~= block.skip(pos));
    lemma_inside(block, pos, none, a, rest);
    lemma_int_round_trip(block, pos, 0xc0, 6, index);
}

proof fn lemma_reference_read(
    block: Seq<u8>,
    pos: int,
    base: u8,
    index: nat,
    value: WireText,
    rest: Seq<u8>,
)
    requires
        0 <= pos <= block.len(),
        base == 0x50 || base == 0x70,
        index <= u64::MAX,
        value.wf(),
        block.skip(pos) == int_bytes(base, 4, index) + value.octets() + rest,
    ensures
        ({
            let a = int_bytes(base, 4, index);
            let end = pos + a.len() + value.octets().len();
            &&& a.len() > 0
            &&& end <= block.len()
            &&& block.skip(end) == rest
            &&& base <= block[pos] < base + 0x10
            &&& int_at(block, pos, 4) == Ok::<(nat, int), QpackError>((index, pos + a.len()))
            &&& string_at(block, pos + a.len(), 7) == Ok::<(Seq<u8>, int), QpackError>(
                (value.text, end),
            )
        }),
{
    lemma2_to64();
    let none = Seq::<u8>::empty();
    let a = int_bytes(base, 4, index);
    let v = value.octets();
    assert(none + a + (v + rest) =~= block.skip(pos));
    lemma_inside(block, pos, none, a, v + rest);
    lemma_int_round_trip(block, pos, base, 4, index);
    lemma_inside(block, pos, a, v, rest);
    lemma_wire_text_read(block, pos + a.len(), value);
}

proof fn lemma_literal_read(
    block: Seq<u8>,
    pos: int,
    base: u8,
    name: Seq<u8>,
    value: WireText,
    rest: Seq<u8>,
)
    requires
        0 <= pos <= block.len(),
        base == 0x20 || base == 0x30,
        name.len() <= u64::MAX,
        value.wf(),
        block.skip(pos) == int_bytes(base, 4, name.len()) + name + value.octets() + rest,
    ensures
        ({
            let a = int_bytes(base, 4, name.len()) + name;
            let end = pos + a.len() + value.octets().len();
            &&& a.len() > 0
            &&& end <= block.len()
            &&& block.skip(end) == rest
            &&& 0x20 <= block[pos] < 0x40
            &&& string_at(block, pos, 4) == Ok::<(Seq<u8>, int), QpackError>((name, pos + a.len()))
            &&& string_at(block, pos + a.len(), 7) == Ok::<(Seq<u8>, int), QpackError>(
                (value.text, end),
            )
        }),
{
    lemma2_to64();
    let none = Seq::<u8>::empty();
    let i = int_bytes(base, 4, name.len());
    let a = i + name;
    let v = value.octets();
    assert(none + i + (name + v + rest) =~= block.skip(pos));
    lemma_inside(block, pos, none, i, name + v + rest);
    lemma_int_round_trip(block, pos, base, 4, name.len());
    assert(none + a + (v + rest) =~= block.skip(pos));
    lemma_inside(block, pos, none, a, v + rest);
    lemma_string_round_trip(block, pos, base, 4, name);
    lemma_inside(block, pos, a, v, rest);
    lemma_wire_text_read(block, pos + a.len(), value);
}

proof fn lemma_line_read(block: Seq<u8>, pos: int, line: FieldLine, rest: Seq<u8>)
    requires
        0 <= pos <= block.len(),
        line.wf(),
        block.skip(pos) == line.octets() + rest,
    ensures
        line.octets().len() > 0,
        pos + line.octets().len() <= block.len(),
        block.skip(pos + line.octets().len() as int) == rest,
        field_at(block, pos) == Ok::<((Seq<u8>, Seq<u8>), int), QpackError>(
            ((line.name(), line.value()), pos + line.octets().len()),
        ),
{
    match line {
        FieldLine::Indexed { index } => {
            lemma_indexed_read(block, pos, index, rest);
            assert(static_field(index) is Some);
        },
        FieldLine::NameReference { index, never_indexed, value } => {
            let base: u8 = if never_indexed {
                0x70
            } else {
                0x50
            };
            lemma_reference_read(block, pos, base, index, value, rest);
            assert(static_field(index) is Some);
        },
        FieldLine::Literal { name, never_indexed, value } => {
            let base: u8 = if never_indexed {
                0x30
            } else {
                0x20
            };
            lemma_literal_read(block, pos, base, name, value, rest);
        },
    }
}

/// The fields of a block are those of the lines it begins with, then those of the rest.
proof fn lemma_lines_first(block: Seq<u8>, pos: int, lines: Seq<FieldLine>, rest: Seq<u8>)
    requires
        0 <= pos <= block.len(),
        forall|i: int| 0 <= i < lines.len() ==> (#[trigger] lines[i]).wf(),
        block.skip(pos) == lines_octets(lines) + rest,
    ensures
        pos + lines_octets(lines).len() <= block.len(),
        block.skip(pos + lines_octets(lines).len() as int) == rest,
        match fields_from(block, pos + lines_octets(lines).len()) {
            Ok(more) => fields_from(block, pos) == Ok::<Seq<(Seq<u8>, Seq<u8>)>, QpackError>(
                lines.map_values(|l: FieldLine| (l.name(), l.value())) + more,
            ),
            Err(e) => fields_from(block, pos) == Err::<Seq<(Seq<u8>, Seq<u8>)>, QpackError>(e),
        },
    decreases lines.len(),
{
    let all = lines.map_values(|l: FieldLine| (l.name(), l.value()));
    if lines.len() == 0 {
        assert(lines_octets(lines) + rest =~= rest);
        if let Ok(more) = fields_from(block, pos) {
            assert(all + more =~= more);
        }
    } else {
        let others = lines.drop_first();
        assert(lines[0].octets() + (lines_octets(others) + rest) =~= block.skip(pos));
        lemma_line_read(block, pos, lines[0], lines_octets(others) + rest);
        let at = pos + lines[0].octets().len();
        assert forall|i: int| 0 <= i < others.len() implies (#[trigger] others[i]).wf() by {
            assert(others[i] == lines[i + 1]);
        }
        lemma_lines_first(block, at, others, rest);
        if let Ok(more) = fields_from(block, at + lines_octets(others).len()) {
            assert(all + more =~= seq![(lines[0].name(), lines[0].value())] + (others.map_values(
                |l: FieldLine| (l.name(), l.value()),
            ) + more));
        }
    }
}

/// What stands before the lines: a Required Insert Count of zero and any base.
proof fn lemma_block_starts(base: nat, below: bool, lines: Seq<u8>)
    requires
        base <= u64::MAX,
    ensures
        ({
            let sign: u8 = if below {
                0x80
            } else {
                0
            };
            let start = seq![0u8] + int_bytes(sign, 7, base);
            block_fields(start + lines) == fields_from(start + lines, start.len() as int)
        }),
{
    let sign: u8 = if below {
        0x80
    } else {
        0
    };
    let b = int_bytes(sign, 7, base);
    let block = seq![0u8] + b + lines;
    lemma2_to64();
    assert(block.skip(0) =~= seq![0u8] + b + lines);
    lemma_inside(block, 0, seq![0u8], b, lines);
    lemma_int_round_trip(block, 1, sign, 7, base);
}

/// A block of any lines that need no dynamic table, whatever its base, decodes to the name
/// and the value of each line, in their order. A name reference takes its name from the
/// static table and its value from the wire.
pub proof fn lemma_lines_round_trip(base: nat, below: bool, lines: Seq<FieldLine>)
    requires
        base <= u64::MAX,
        forall|i: int| 0 <= i < lines.len() ==> (#[trigger] lines[i]).wf(),
    ensures
        ({
            let sign: u8 = if below {
                0x80
            } else {
                0
            };
            let fields = block_fields(
                seq![0u8] + int_bytes(sign, 7, base) + lines_octets(lines),
            );
            &&& fields is Ok
            &&& fields->Ok_0.len() == lines.len()
            &&& forall|i: int|
                0 <= i < lines.len() ==> #[trigger] fields->Ok_0[i] == (
                    lines[i].name(),
                    lines[i].value(),
                )
        }),
{
    let sign: u8 = if below {
        0x80
    } else {
        0
    };
    let start = seq![0u8] + int_bytes(sign, 7, base);
    let block = start + lines_octets(lines);
    lemma_block_starts(base, below, lines_octets(lines));
    let none = Seq::<u8>::empty();
    assert(block.skip(start.len() as int) =~= lines_octets(lines) + none);
    lemma_lines_first(block, start.len() as int, lines, none);
    assert(block.len() == start.len() + lines_octets(lines).len());
}

proof fn lemma_one_line(line: FieldLine)
    requires
        line.wf(),
    ensures
        block_fields(seq![0u8, 0u8] + line.octets()) == Ok::<Seq<(Seq<u8>, Seq<u8>)>, QpackError>(
            seq![(line.name(), line.value())],
        ),
{
    let block = seq![0u8, 0u8] + line.octets();
    let none = Seq::<u8>::empty();
    lemma2_to64();
    assert(block.skip(2) =~= line.octets() + none);
    lemma_line_read(block, 2, line, none);
    let end = 2 + line.octets().len();
    assert(block.len() == end);
    assert(fields_from(block, end as int) == Ok::<Seq<(Seq<u8>, Seq<u8>)>, QpackError>(
        Seq::empty(),
    ));
    assert(seq![(line.name(), line.value())] + Seq::<(Seq<u8>, Seq<u8>)>::empty()
        =~= seq![(line.name(), line.value())]);
}

/// A line with a name of the static table and a value of its own gives that name and that
/// value, whatever value the table lists beside the name.
pub proof fn lemma_name_reference_round_trip(index: nat, value: Seq<u8>)
    requires
        1 <= index <= 61,
        value.len() <= u64::MAX,
    ensures
        block_fields(seq![0u8, 0u8] + int_bytes(0x50, 4, index) + string_bytes(value)) == Ok::<
            Seq<(Seq<u8>, Seq<u8>)>,
            QpackError,
        >(seq![(STATIC_TABLE@[index - 1].0.spec_bytes(), value)]),
        block_fields(seq![0u8, 0u8] + int_bytes(0xc0, 6, index)) == Ok::<
            Seq<(Seq<u8>, Seq<u8>)>,
            QpackError,
        >(
            seq![
                (
                    STATIC_TABLE@[index - 1].0.spec_bytes(),
                    STATIC_TABLE@[index - 1].1.spec_bytes(),
                ),
            ],
        ),
{
    let w = WireText { text: value, coded: false, raw: value };
    let named = FieldLine::NameReference { index, never_indexed: false, value: w };
    lemma_one_line(named);
    assert(seq![0u8, 0u8] + named.octets() =~= seq![0u8, 0u8] + int_bytes(0x50, 4, index)
        + string_bytes(value));
    lemma_one_line(FieldLine::Indexed { index });
}

/// A block is refused where it counts on the dynamic table, and where a line behind any
/// sound ones refers to that table, to an entry that the static table has not, or begins
/// as no line does.
pub proof fn lemma_lines_refused(
    count: nat,
    base: nat,
    below: bool,
    lines: Seq<FieldLine>,
    index: nat,
    first: u8,
    rest: Seq<u8>,
)
    requires
        0 < count <= u64::MAX,
        base <= u64::MAX,
        index <= u64::MAX,
        first < 0x20,
        forall|i: int| 0 <= i < lines.len() ==> (#[trigger] lines[i]).wf(),
    ensures
        ({
            let sign: u8 = if below {
                0x80
            } else {
                0
            };
            let start = seq![0u8] + int_bytes(sign, 7, base) + lines_octets(lines);
            let dynamic = Err::<Seq<(Seq<u8>, Seq<u8>)>, QpackError>(
                QpackError::DynamicTableUnsupported,
            );
            let unknown = Err::<Seq<(Seq<u8>, Seq<u8>)>, QpackError>(
                QpackError::BadIndex(index as u64),
            );
            &&& block_fields(int_bytes(0, 8, count) + rest) == dynamic
            &&& block_fields(start + (int_bytes(0x80, 6, index) + rest)) == dynamic
            &&& block_fields(start + (int_bytes(0x40, 4, index) + rest)) == dynamic
            &&& block_fields(start + (int_bytes(0x60, 4, index) + rest)) == dynamic
            &&& index == 0 || index > 61 ==> block_fields(
                start + (int_bytes(0xc0, 6, index) + rest),
            ) == unknown
            &&& index == 0 || index > 61 ==> block_fields(
                start + (int_bytes(0x50, 4, index) + rest),
            ) == unknown
            &&& block_fields(start + (seq![first] + rest)) is Err
        }),
{
    lemma2_to64();
    let c = int_bytes(0, 8, count);
    let block = c + rest;
    let none = Seq::<u8>::empty();
    assert(block.skip(0) =~= none + c + rest);
    lemma_inside(block, 0, none, c, rest);
    lemma_int_round_trip(block, 0, 0, 8, count);
    lemma_line_refused(base, below, lines, 0x80, 6, index, rest);
    lemma_line_refused(base, below, lines, 0x40, 4, index, rest);
    lemma_line_refused(base, below, lines, 0x60, 4, index, rest);
    lemma_line_refused(base, below, lines, 0xc0, 6, index, rest);
    lemma_line_refused(base, below, lines, 0x50, 4, index, rest);
    lemma_refusing_line(base, below, lines, seq![first] + rest);
}

proof fn lemma_line_refused(
    base: nat,
    below: bool,
    lines: Seq<FieldLine>,
    kind: u8,
    prefix: nat,
    index: nat,
    rest: Seq<u8>,
)
    requires
        base <= u64::MAX,
        index <= u64::MAX,
        (kind == 0x80 || kind == 0xc0) && prefix == 6 || (kind == 0x40 || kind == 0x60 || kind
            == 0x50) && prefix == 4,
        forall|i: int| 0 <= i < lines.len() ==> (#[trigger] lines[i]).wf(),
    ensures
        ({
            let sign: u8 = if below {
                0x80
            } else {
                0
            };
            let start = seq![0u8] + int_bytes(sign, 7, base) + lines_octets(lines);
            let r = block_fields(start + (int_bytes(kind, prefix, index) + rest));
            &&& kind == 0x80 || kind == 0x40 || kind == 0x60 ==> r == Err::<
                Seq<(Seq<u8>, Seq<u8>)>,
                QpackError,
            >(QpackError::DynamicTableUnsupported)
            &&& (kind == 0xc0 || kind == 0x50) && (index == 0 || index > 61) ==> r == Err::<
                Seq<(Seq<u8>, Seq<u8>)>,
                QpackError,
            >(QpackError::BadIndex(index as u64))
        }),
{
    let sign: u8 = if below {
        0x80
    } else {
        0
    };
    let before = seq![0u8] + int_bytes(sign, 7, base);
    let start = before + lines_octets(lines);
    let a = int_bytes(kind, prefix, index);
    let whole = start + (a + rest);
    let at = start.len() as int;
    assert(a.len() > 0);
    lemma_refusing_line(base, below, lines, a + rest);
    lemma_field_refused(whole, at, kind, prefix, index, rest);
}

proof fn lemma_field_refused(
    data: Seq<u8>,
    at: int,
    kind: u8,
    prefix: nat,
    index: nat,
    rest: Seq<u8>,
)
    requires
        0 <= at <= data.len(),
        index <= u64::MAX,
        (kind == 0x80 || kind == 0xc0) && prefix == 6 || (kind == 0x40 || kind == 0x60 || kind
            == 0x50) && prefix == 4,
        data.skip(at) == int_bytes(kind, prefix, index) + rest,
    ensures
        kind == 0x80 || kind == 0x40 || kind == 0x60 ==> field_at(data, at) == Err::<
            ((Seq<u8>, Seq<u8>), int),
            QpackError,
        >(QpackError::DynamicTableUnsupported),
        (kind == 0xc0 || kind == 0x50) && (index == 0 || index > 61) ==> field_at(data, at) == Err::<
            ((Seq<u8>, Seq<u8>), int),
            QpackError,
        >(QpackError::BadIndex(index as u64)),
{
    lemma2_to64();
    lemma_int_first(data, at, kind, prefix, index, rest);
}

/// What the line behind sound ones comes to decides on the block.
proof fn lemma_refusing_line(base: nat, below: bool, lines: Seq<FieldLine>, last: Seq<u8>)
    requires
        base <= u64::MAX,
        last.len() > 0,
        forall|i: int| 0 <= i < lines.len() ==> (#[trigger] lines[i]).wf(),
    ensures
        ({
            let sign: u8 = if below {
                0x80
            } else {
                0
            };
            let start = seq![0u8] + int_bytes(sign, 7, base) + lines_octets(lines);
            let at = start.len() as int;
            &&& (start + last).skip(at) == last
            &&& (start + last)[at] == last[0]
            &&& field_at(start + last, at) matches Err(e) ==> block_fields(start + last) == Err::<
                Seq<(Seq<u8>, Seq<u8>)>,
                QpackError,
            >(e)
        }),
{
    let sign: u8 = if below {
        0x80
    } else {
        0
    };
    let before = seq![0u8] + int_bytes(sign, 7, base);
    let start = before + lines_octets(lines);
    let whole = start + last;
    assert(whole =~= before + (lines_octets(lines) + last));
    lemma_block_starts(base, below, lines_octets(lines) + last);
    assert(whole.skip(before.len() as int) =~= lines_octets(lines) + last);
    lemma_lines_first(whole, before.len() as int, lines, last);
    assert(whole.skip(start.len() as int) =~= last);
}

proof fn lemma_int_first(
    data: Seq<u8>,
    at: int,
    kind: u8,
    prefix: nat,
    index: nat,
    rest: Seq<u8>,
)
    requires
        0 <= at <= data.len(),
        index <= u64::MAX,
        0 < prefix <= 8,
        kind as nat % pow2(prefix) == 0,
        data.skip(at) == int_bytes(kind, prefix, index) + rest,
    ensures
        at < data.len(),
        int_at(data, at, prefix) matches Ok((v, end)) && v == index,
        kind <= data[at] < kind + pow2(prefix),
{
    let a = int_bytes(kind, prefix, index);
    let none = Seq::<u8>::empty();
    assert(data.skip(at) =~= none + a + rest);
    lemma_inside(data, at, none, a, rest);
    lemma_pow2_pos(prefix);
    lemma_int_round_trip(data, at, kind, prefix, index);
}

/// Whether the static table has a name and a value under an index.
pub open spec fn listed(index: nat, name: &str, value: &str) -> bool {
    static_field(index) == Some((name.spec_bytes(), value.spec_bytes()))
}

/// The entries of the static table by their numbers (RFC 7541 appendix A). There are no
/// others.
pub proof fn lemma_static_entries(index: nat)
    ensures
        listed(1, ":authority", ""),
        listed(2, ":method", "GET"),
        listed(3, ":method", "POST"),
        listed(4, ":path", "/"),
        listed(5, ":path", "/index.html"),
        listed(6, ":scheme", "http"),
        listed(7, ":scheme", "https"),
        listed(8, ":status", "200"),
        listed(9, ":status", "204"),
        listed(10, ":status", "206"),
        listed(11, ":status", "304"),
        listed(12, ":status", "400"),
        listed(13, ":status", "404"),
        listed(14, ":status", "500"),
        listed(15, "accept-charset", ""),
        listed(16, "accept-encoding", "gzip, deflate"),
        listed(17, "accept-language", ""),
        listed(18, "accept-ranges", ""),
        listed(19, "accept", ""),
        listed(20, "access-control-allow-origin", ""),
        listed(21, "age", ""),
        listed(22, "allow", ""),
        listed(23, "authorization", ""),
        listed(24, "cache-control", ""),
        listed(25, "content-disposition", ""),
        listed(26, "content-encoding", ""),
        listed(27, "content-language", ""),
        listed(28, "content-length", ""),
        listed(29, "content-location", ""),
        listed(30, "content-range", ""),
        listed(31, "content-type", ""),
        listed(32, "cookie", ""),
        listed(33, "date", ""),
        listed(34, "etag", ""),
        listed(35, "expect", ""),
        listed(36, "expires", ""),
        listed(37, "from", ""),
        listed(38, "host", ""),
        listed(39, "if-match", ""),
        listed(40, "if-modified-since", ""),
        listed(41, "if-none-match", ""),
        listed(42, "if-range", ""),
        listed(43, "if-unmodified-since", ""),
        listed(44, "last-modified", ""),
        listed(45, "link", ""),
        listed(46, "location", ""),
        listed(47, "max-forwards", ""),
        listed(48, "proxy-authenticate", ""),
        listed(49, "proxy-authorization", ""),
        listed(50, "range", ""),
        listed(51, "referer", ""),
        listed(52, "refresh", ""),
        listed(53, "retry-after", ""),
        listed(54, "server", ""),
        listed(55, "set-cookie", ""),
        listed(56, "strict-transport-security", ""),
        listed(57, "transfer-encoding", ""),
        listed(58, "user-agent", ""),
        listed(59, "vary", ""),
        listed(60, "via", ""),
        listed(61, "www-authenticate", ""),
        static_field(index) is Some <==> 1 <= index <= 61,
{
}

} // verus!
