//! Which DER can be handed to a certificate parser.
//!
//! The parser reads elements of tag, length and content, and cuts the text of time fields
//! at fixed positions. Two things must not be in its way: a length that, counted from its
//! own position, goes beyond the address space, and a time field whose first characters
//! are not ASCII. What the parser does not read may hold anything.

use crate::wire::{be_value, ct_eq, read_be};
use vstd::prelude::*;
use vstd::slice::slice_subrange;

verus! {

/// An element as it stands in bytes.
#[derive(Debug, Clone, Copy)]
pub struct Element {
    pub tag: u8,
    /// Where the content starts.
    pub from: usize,
    /// Where the content ends.
    pub to: usize,
}

/// What stands at a position.
pub enum Found {
    /// A whole element: tag, start and end of its content.
    Whole(u8, int, int),
    /// No element; reading goes on at the position.
    Broken(int),
    /// A length beyond the address space.
    Beyond,
}

/// A length as the machine holds it.
pub open spec fn machine_length(b: Seq<u8>) -> int {
    be_value(b) as int % (usize::MAX + 1)
}

/// What stands at a position.
pub open spec fn found_at(b: Seq<u8>, p: int) -> Found {
    if p + 1 >= b.len() {
        Found::Broken(p + 1)
    } else {
        let n = b[p + 1] - 0x80;
        if n < 0 {
            if p + 2 + b[p + 1] > b.len() {
                Found::Broken(p + 2)
            } else {
                Found::Whole(b[p], p + 2, p + 2 + b[p + 1])
            }
        } else if n == 0 || n > 8 || p + 2 + n > b.len() {
            Found::Broken(p + 2)
        } else {
            let from = p + 2 + n;
            let len = machine_length(b.subrange(p + 2, from));
            if from + len > usize::MAX {
                Found::Beyond
            } else if from + len > b.len() {
                Found::Broken(from)
            } else {
                Found::Whole(b[p], from, from + len)
            }
        }
    }
}

/// Whether `k` elements from a position on can be read, reading stopping at what is none:
/// no length goes beyond the address space.
pub open spec fn reads_fit(b: Seq<u8>, p: int, k: nat) -> bool
    decreases k,
{
    if k == 0 || p < 0 || p >= b.len() {
        true
    } else {
        match found_at(b, p) {
            Found::Beyond => false,
            Found::Broken(_) => true,
            Found::Whole(_, _, to) => reads_fit(b, to, (k - 1) as nat),
        }
    }
}

/// Whether `k` elements from a position on can be read, reading going on behind what is
/// none.
pub open spec fn walk_fits(b: Seq<u8>, p: int, k: nat) -> bool
    decreases k,
{
    if k == 0 || p < 0 || p >= b.len() {
        true
    } else {
        match found_at(b, p) {
            Found::Beyond => false,
            Found::Broken(next) => walk_fits(b, next, (k - 1) as nat),
            Found::Whole(_, _, to) => walk_fits(b, to, (k - 1) as nat),
        }
    }
}

/// Where the elements from a position on go on behind `k` of them.
pub open spec fn after(b: Seq<u8>, p: int, k: nat) -> int
    decreases k,
{
    if k == 0 {
        p
    } else {
        match found_at(b, p) {
            Found::Whole(_, _, to) => after(b, to, (k - 1) as nat),
            Found::Broken(next) => after(b, next, (k - 1) as nat),
            Found::Beyond => b.len() as int,
        }
    }
}

/// The content of the element at a position, empty where there is none.
pub open spec fn content_at(b: Seq<u8>, p: int) -> Seq<u8> {
    if 0 <= p < b.len() {
        match found_at(b, p) {
            Found::Whole(_, from, to) => b.subrange(from, to),
            _ => Seq::empty(),
        }
    } else {
        Seq::empty()
    }
}

/// The tag of the element at a position, nothing where there is none.
pub open spec fn tag_at(b: Seq<u8>, p: int) -> Option<u8> {
    if 0 <= p < b.len() {
        match found_at(b, p) {
            Found::Whole(tag, _, _) => Some(tag),
            _ => None,
        }
    } else {
        None
    }
}

/// The content of the sequence at a position, empty where there is none.
pub open spec fn sequence_at(b: Seq<u8>, p: int) -> Seq<u8> {
    if tag_at(b, p) == Some(0x30u8) {
        content_at(b, p)
    } else {
        Seq::empty()
    }
}

/// The content of the element behind `k` others.
pub open spec fn nth(b: Seq<u8>, k: nat) -> Seq<u8> {
    content_at(b, after(b, 0, k))
}

/// The content of the sequence behind `k` elements.
pub open spec fn nth_sequence(b: Seq<u8>, k: nat) -> Seq<u8> {
    sequence_at(b, after(b, 0, k))
}

/// Whether the time field at a position starts with ASCII, as far as it is cut.
pub open spec fn plain_time(b: Seq<u8>, p: int) -> bool {
    forall|i: int|
        0 <= i < 14 && i < content_at(b, p).len() ==> #[trigger] content_at(b, p)[i] < 0x80
}

/// The extension for basic constraints.
pub const OID_BASIC_CONSTRAINTS: [u8; 3] = [0x55, 0x1d, 0x13];

/// The extension for the key usage.
pub const OID_KEY_USAGE: [u8; 3] = [0x55, 0x1d, 0x0f];

/// The extension for alternative names of the subject.
pub const OID_SUBJECT_ALT_NAME: [u8; 3] = [0x55, 0x1d, 0x11];

/// The extension for the extended key usage.
pub const OID_EXTENDED_KEY_USAGE: [u8; 3] = [0x55, 0x1d, 0x25];

/// The extension for name constraints.
pub const OID_NAME_CONSTRAINTS: [u8; 3] = [0x55, 0x1d, 0x1e];

/// The subtrees of a name constraint from a position on: of each sequence the first
/// element is read.
pub open spec fn subtrees_fit(b: Seq<u8>, p: int) -> bool
    decreases b.len() - p,
{
    if p < 0 || p >= b.len() {
        true
    } else {
        match found_at(b, p) {
            Found::Beyond => false,
            Found::Broken(next) => p < next && subtrees_fit(b, next),
            Found::Whole(_, _, to) => {
                &&& p < to
                &&& reads_fit(sequence_at(b, p), 0, 1)
                &&& subtrees_fit(b, to)
            },
        }
    }
}

/// The parts of a name constraint from a position on: the permitted and the excluded
/// subtrees are read.
pub open spec fn constraints_fit(b: Seq<u8>, p: int) -> bool
    decreases b.len() - p,
{
    if p < 0 || p >= b.len() {
        true
    } else {
        match found_at(b, p) {
            Found::Beyond => false,
            Found::Broken(_) => true,
            Found::Whole(tag, from, to) => {
                &&& p < to
                &&& tag == 0xa0 || tag == 0xa1 ==> subtrees_fit(b.subrange(from, to), 0)
                &&& constraints_fit(b, to)
            },
        }
    }
}

/// Whether the value of an extension can be read. Only the known ones are.
pub open spec fn value_fits(oid: Seq<u8>, value: Seq<u8>) -> bool {
    let inner = sequence_at(value, 0);
    if oid == OID_BASIC_CONSTRAINTS@ {
        reads_fit(value, 0, 1) && walk_fits(inner, 0, 2)
    } else if oid == OID_KEY_USAGE@ {
        reads_fit(value, 0, 1)
    } else if oid == OID_SUBJECT_ALT_NAME@ || oid == OID_EXTENDED_KEY_USAGE@ {
        reads_fit(value, 0, 1) && walk_fits(inner, 0, inner.len())
    } else if oid == OID_NAME_CONSTRAINTS@ {
        reads_fit(value, 0, 1) && constraints_fit(inner, 0)
    } else {
        true
    }
}

/// Whether the value of an extension can be found from a position on, the flag before it
/// skipped, and be read.
pub open spec fn flagged_value_fits(oid: Seq<u8>, b: Seq<u8>, p: int) -> bool
    decreases b.len() - p,
{
    if p < 0 || p >= b.len() {
        true
    } else {
        match found_at(b, p) {
            Found::Beyond => false,
            Found::Broken(_) => true,
            Found::Whole(tag, from, to) => {
                &&& p < to
                &&& tag == 0x01 ==> flagged_value_fits(oid, b, to)
                &&& tag == 0x04 ==> value_fits(oid, b.subrange(from, to))
            },
        }
    }
}

/// Whether the extensions from a position on can be read.
pub open spec fn extensions_fit(b: Seq<u8>, p: int) -> bool
    decreases b.len() - p,
{
    if p < 0 || p >= b.len() {
        true
    } else {
        match found_at(b, p) {
            Found::Beyond => false,
            Found::Broken(_) => true,
            Found::Whole(_, from, to) => {
                let ext = sequence_at(b, p);
                &&& p < to
                &&& reads_fit(ext, 0, 1)
                &&& flagged_value_fits(content_at(ext, 0), ext, after(ext, 0, 1))
                &&& extensions_fit(b, to)
            },
        }
    }
}

/// How many fields stand before the serial number: the version, where there is one.
pub open spec fn versions(body: Seq<u8>) -> nat {
    if tag_at(body, 0) == Some(0xa0u8) {
        1
    } else {
        0
    }
}

/// The body of a certificate, which is what its signature covers.
pub open spec fn body_of(der: Seq<u8>) -> Seq<u8> {
    nth_sequence(content_at(der, 0), 0)
}

/// The content of the validity field of a certificate.
pub open spec fn validity(der: Seq<u8>) -> Seq<u8> {
    nth(body_of(der), versions(body_of(der)) + 3)
}

/// The public key field of a certificate.
pub open spec fn key_info(der: Seq<u8>) -> Seq<u8> {
    nth_sequence(body_of(der), versions(body_of(der)) + 5)
}

/// The extensions of a certificate.
pub open spec fn extensions(der: Seq<u8>) -> Seq<u8> {
    let body = body_of(der);
    let at = after(body, 0, versions(body) + 6);
    if tag_at(body, at) == Some(0xa3u8) {
        content_at(body, at)
    } else {
        Seq::empty()
    }
}

/// Whether the fields in the body of a certificate can be read.
pub open spec fn body_fits(body: Seq<u8>) -> bool {
    &&& reads_fit(body, 0, versions(body) + 7)
    &&& versions(body) == 1 ==> reads_fit(content_at(body, 0), 0, 1)
    &&& reads_fit(nth_sequence(body, versions(body) + 1), 0, 1)
}

/// Whether a certificate can be handed to the parser: whatever it reads has a length within
/// the address space, and the time fields start with ASCII.
pub open spec fn readable(der: Seq<u8>) -> bool {
    &&& reads_fit(der, 0, 1)
    &&& reads_fit(content_at(der, 0), 0, 3)
    &&& reads_fit(nth_sequence(content_at(der, 0), 1), 0, 1)
    &&& body_fits(body_of(der))
    &&& reads_fit(validity(der), 0, 2)
    &&& plain_time(validity(der), 0)
    &&& plain_time(validity(der), after(validity(der), 0, 1))
    &&& reads_fit(key_info(der), 0, 2)
    &&& reads_fit(nth_sequence(key_info(der), 0), 0, 2)
    &&& reads_fit(extensions(der), 0, 1)
    &&& extensions_fit(sequence_at(extensions(der), 0), 0)
}

/// Whether a sequence of two numbers can be read: a signature by an elliptic curve, or the
/// modulus and the exponent of a key.
pub open spec fn pair_fits(b: Seq<u8>) -> bool {
    reads_fit(b, 0, 1) && reads_fit(sequence_at(b, 0), 0, 2)
}

/// A bit string without the byte that counts its unused bits.
pub open spec fn bits_of(b: Seq<u8>) -> Seq<u8> {
    if b.len() == 0 {
        b
    } else {
        b.skip(1)
    }
}

/// Whether a signature by an elliptic curve is announced.
pub open spec fn is_ecdsa(oid: Seq<u8>) -> bool {
    oid == OID_ECDSA_SHA256@ || oid == OID_ECDSA_SHA384@ || oid == OID_ECDSA_SHA512@
}

/// ECDSA with SHA-256.
pub const OID_ECDSA_SHA256: [u8; 8] = [0x2a, 0x86, 0x48, 0xce, 0x3d, 0x04, 0x03, 0x02];

/// ECDSA with SHA-384.
pub const OID_ECDSA_SHA384: [u8; 8] = [0x2a, 0x86, 0x48, 0xce, 0x3d, 0x04, 0x03, 0x03];

/// ECDSA with SHA-512.
pub const OID_ECDSA_SHA512: [u8; 8] = [0x2a, 0x86, 0x48, 0xce, 0x3d, 0x04, 0x03, 0x04];

/// A key for RSA.
pub const OID_RSA: [u8; 9] = [0x2a, 0x86, 0x48, 0x86, 0xf7, 0x0d, 0x01, 0x01, 0x01];

/// Whether signatures can be verified under the key of a certificate: the numbers of an RSA
/// key are read too.
pub open spec fn anchorable(der: Seq<u8>) -> bool {
    &&& readable(der)
    &&& content_at(nth_sequence(key_info(der), 0), 0) == OID_RSA@ ==> pair_fits(
        bits_of(nth(key_info(der), 1)),
    )
}

/// Whether a certificate can be part of a chain: its own signature is verified too, and that
/// of an elliptic curve is read.
pub open spec fn checkable(der: Seq<u8>) -> bool {
    let outer = content_at(der, 0);
    &&& anchorable(der)
    &&& is_ecdsa(content_at(nth_sequence(outer, 1), 0)) ==> pair_fits(bits_of(nth(outer, 2)))
}

/// The result of [`look`].
pub enum Look {
    Whole(Element),
    Broken(usize),
    Beyond,
}

/// Look at what stands at a position.
fn look(b: &[u8], p: usize) -> (r: Look)
    requires
        p < b@.len(),
    ensures
        match found_at(b@, p as int) {
            Found::Whole(tag, from, to) => r is Whole && r->Whole_0.tag == tag && r->Whole_0.from
                == from && r->Whole_0.to == to && p < from <= to <= b@.len(),
            Found::Broken(next) => r is Broken && r->Broken_0 == next && p < next <= b@.len(),
            Found::Beyond => r is Beyond,
        },
{
    let total: usize = b.len();
    if total - p < 2 {
        return Look::Broken(p + 1);
    }
    let tag = b[p];
    let first = b[p + 1];
    if first < 0x80 {
        if total - p - 2 < first as usize {
            return Look::Broken(p + 2);
        }
        return Look::Whole(Element { tag, from: p + 2, to: p + 2 + first as usize });
    }
    let n: usize = (first - 0x80) as usize;
    if n == 0 || n > 8 || n > total - p - 2 {
        return Look::Broken(p + 2);
    }
    let from: usize = p + 2 + n;
    let value: u64 = read_be(b, p + 2, n);
    let len: u128 = value as u128 % (usize::MAX as u128 + 1);
    if from as u128 + len > usize::MAX as u128 {
        return Look::Beyond;
    }
    if from as u128 + len > total as u128 {
        return Look::Broken(from);
    }
    Look::Whole(Element { tag, from, to: from + len as usize })
}

fn reads(b: &[u8], k: u32) -> (r: bool)
    ensures
        r == reads_fit(b@, 0, k as nat),
{
    let mut p: usize = 0;
    let mut left: u32 = k;
    while left > 0 && p < b.len()
        invariant
            left <= k,
            p <= b@.len(),
            reads_fit(b@, 0, k as nat) == reads_fit(b@, p as int, left as nat),
        decreases left,
    {
        match look(b, p) {
            Look::Beyond => {
                return false;
            },
            Look::Broken(_) => {
                return true;
            },
            Look::Whole(e) => {
                p = e.to;
            },
        }
        left = left - 1;
    }
    true
}

fn walks(b: &[u8], k: usize) -> (r: bool)
    ensures
        r == walk_fits(b@, 0, k as nat),
{
    let mut p: usize = 0;
    let mut left: usize = k;
    while left > 0 && p < b.len()
        invariant
            left <= k,
            p <= b@.len(),
            walk_fits(b@, 0, k as nat) == walk_fits(b@, p as int, left as nat),
        decreases left,
    {
        match look(b, p) {
            Look::Beyond => {
                return false;
            },
            Look::Broken(next) => {
                p = next;
            },
            Look::Whole(e) => {
                p = e.to;
            },
        }
        left = left - 1;
    }
    true
}

/// Where the elements go on behind `k` of them.
fn skip_elements(b: &[u8], k: u32) -> (r: usize)
    ensures
        after(b@, 0, k as nat) < b@.len() ==> r == after(b@, 0, k as nat),
        after(b@, 0, k as nat) >= b@.len() ==> r >= b@.len(),
{
    let mut p: usize = 0;
    let mut left: u32 = k;
    while left > 0 && p < b.len()
        invariant
            left <= k,
            p <= b@.len(),
            after(b@, 0, k as nat) == after(b@, p as int, left as nat),
        decreases left,
    {
        p = match look(b, p) {
            Look::Whole(e) => e.to,
            Look::Broken(next) => next,
            Look::Beyond => {
                proof {
                    assert(after(b@, 0, k as nat) == b@.len());
                }
                return b.len();
            },
        };
        left = left - 1;
    }
    proof {
        if p >= b@.len() {
            lemma_after_end(b@, p as int, left as nat);
        }
    }
    p
}

/// Behind the end there is nothing to come back from.
proof fn lemma_after_end(b: Seq<u8>, p: int, k: nat)
    requires
        p >= b.len(),
    ensures
        after(b, p, k) >= b.len(),
    decreases k,
{
    if k > 0 {
        lemma_after_end(b, p + 1, (k - 1) as nat);
    }
}

fn content(b: &[u8], p: usize) -> (r: &[u8])
    ensures
        r@ == content_at(b@, p as int),
{
    if p < b.len() {
        if let Look::Whole(e) = look(b, p) {
            return slice_subrange(b, e.from, e.to);
        }
    }
    let r = slice_subrange(b, 0, 0);
    proof {
        assert(r@ =~= Seq::empty());
    }
    r
}

fn starts_plain(b: &[u8], p: usize) -> (r: bool)
    ensures
        r == plain_time(b@, p as int),
{
    let field = content(b, p);
    let mut i: usize = 0;
    while i < 14 && i < field.len()
        invariant
            i <= 14,
            i <= field@.len(),
            field@ == content_at(b@, p as int),
            forall|j: int| 0 <= j < i ==> #[trigger] field@[j] < 0x80,
        decreases 14 - i,
    {
        if field[i] >= 0x80 {
            assert(content_at(b@, p as int)[i as int] >= 0x80);
            return false;
        }
        i = i + 1;
    }
    true
}

fn sequence(b: &[u8], p: usize) -> (r: &[u8])
    ensures
        r@ == sequence_at(b@, p as int),
{
    if p < b.len() {
        if let Look::Whole(e) = look(b, p) {
            if e.tag == 0x30 {
                return slice_subrange(b, e.from, e.to);
            }
        }
    }
    let r = slice_subrange(b, 0, 0);
    proof {
        assert(r@ =~= Seq::empty());
    }
    r
}

fn has_tag(b: &[u8], p: usize, tag: u8) -> (r: bool)
    ensures
        r == (tag_at(b@, p as int) == Some(tag)),
{
    if p < b.len() {
        if let Look::Whole(e) = look(b, p) {
            return e.tag == tag;
        }
    }
    false
}

fn nth_content(b: &[u8], k: u32) -> (r: &[u8])
    ensures
        r@ == nth(b@, k as nat),
{
    content(b, skip_elements(b, k))
}

fn nth_sequence_content(b: &[u8], k: u32) -> (r: &[u8])
    ensures
        r@ == nth_sequence(b@, k as nat),
{
    sequence(b, skip_elements(b, k))
}

fn subtrees(b: &[u8]) -> (r: bool)
    ensures
        r == subtrees_fit(b@, 0),
{
    let mut p: usize = 0;
    while p < b.len()
        invariant
            p <= b@.len(),
            subtrees_fit(b@, 0) == subtrees_fit(b@, p as int),
        decreases b@.len() - p,
    {
        match look(b, p) {
            Look::Beyond => {
                return false;
            },
            Look::Broken(next) => {
                p = next;
            },
            Look::Whole(e) => {
                if !reads(sequence(b, p), 1) {
                    return false;
                }
                p = e.to;
            },
        }
    }
    true
}

fn constraints(b: &[u8]) -> (r: bool)
    ensures
        r == constraints_fit(b@, 0),
{
    let mut p: usize = 0;
    while p < b.len()
        invariant
            p <= b@.len(),
            constraints_fit(b@, 0) == constraints_fit(b@, p as int),
        decreases b@.len() - p,
    {
        match look(b, p) {
            Look::Beyond => {
                return false;
            },
            Look::Broken(_) => {
                return true;
            },
            Look::Whole(e) => {
                if e.tag == 0xa0 || e.tag == 0xa1 {
                    if !subtrees(slice_subrange(b, e.from, e.to)) {
                        return false;
                    }
                }
                p = e.to;
            },
        }
    }
    true
}

fn known_value(oid: &[u8], value: &[u8]) -> (r: bool)
    ensures
        r == value_fits(oid@, value@),
{
    if ct_eq(oid, &OID_BASIC_CONSTRAINTS) {
        reads(value, 1) && walks(sequence(value, 0), 2)
    } else if ct_eq(oid, &OID_KEY_USAGE) {
        reads(value, 1)
    } else if ct_eq(oid, &OID_SUBJECT_ALT_NAME) || ct_eq(oid, &OID_EXTENDED_KEY_USAGE) {
        let inner = sequence(value, 0);
        reads(value, 1) && walks(inner, inner.len())
    } else if ct_eq(oid, &OID_NAME_CONSTRAINTS) {
        reads(value, 1) && constraints(sequence(value, 0))
    } else {
        true
    }
}

fn flagged_value(oid: &[u8], b: &[u8], from: usize) -> (r: bool)
    ensures
        r == flagged_value_fits(oid@, b@, from as int),
{
    let mut p: usize = from;
    while p < b.len()
        invariant
            flagged_value_fits(oid@, b@, from as int) == flagged_value_fits(oid@, b@, p as int),
        decreases b@.len() - p,
    {
        match look(b, p) {
            Look::Beyond => {
                return false;
            },
            Look::Broken(_) => {
                return true;
            },
            Look::Whole(e) => {
                if e.tag == 0x04 {
                    return known_value(oid, slice_subrange(b, e.from, e.to));
                }
                if e.tag != 0x01 {
                    return true;
                }
                p = e.to;
            },
        }
    }
    true
}

fn extension_list(b: &[u8]) -> (r: bool)
    ensures
        r == extensions_fit(b@, 0),
{
    let mut p: usize = 0;
    while p < b.len()
        invariant
            p <= b@.len(),
            extensions_fit(b@, 0) == extensions_fit(b@, p as int),
        decreases b@.len() - p,
    {
        match look(b, p) {
            Look::Beyond => {
                return false;
            },
            Look::Broken(_) => {
                return true;
            },
            Look::Whole(e) => {
                let ext = sequence(b, p);
                if !reads(ext, 1) {
                    return false;
                }
                let behind: usize = skip_elements(ext, 1);
                if !flagged_value(content(ext, 0), ext, behind) {
                    return false;
                }
                p = e.to;
            },
        }
    }
    true
}

fn version_fields(body: &[u8]) -> (r: u32)
    ensures
        r == versions(body@),
        r <= 1,
{
    if has_tag(body, 0, 0xa0) {
        1
    } else {
        0
    }
}

fn body(der: &[u8]) -> (r: &[u8])
    ensures
        r@ == body_of(der@),
{
    nth_sequence_content(content(der, 0), 0)
}

fn key_field(der: &[u8]) -> (r: &[u8])
    ensures
        r@ == key_info(der@),
{
    let b = body(der);
    nth_sequence_content(b, version_fields(b) + 5)
}

fn extension_field(der: &[u8]) -> (r: &[u8])
    ensures
        r@ == extensions(der@),
{
    let b = body(der);
    let at: usize = skip_elements(b, version_fields(b) + 6);
    if has_tag(b, at, 0xa3) {
        content(b, at)
    } else {
        let r = slice_subrange(b, 0, 0);
        proof {
            assert(r@ =~= Seq::empty());
        }
        r
    }
}

/// Whether a certificate can be handed to the parser.
pub fn is_readable(der: &[u8]) -> (r: bool)
    ensures
        r == readable(der@),
{
    let outer = content(der, 0);
    if !reads(der, 1) || !reads(outer, 3) || !reads(nth_sequence_content(outer, 1), 1) {
        return false;
    }
    let b = body(der);
    let n: u32 = version_fields(b);
    if !reads(b, n + 7) || (n == 1 && !reads(content(b, 0), 1)) || !reads(
        nth_sequence_content(b, n + 1),
        1,
    ) {
        return false;
    }
    let times = nth_content(b, n + 3);
    let second: usize = skip_elements(times, 1);
    if !reads(times, 2) || !starts_plain(times, 0) || !starts_plain(times, second) {
        return false;
    }
    let key = key_field(der);
    if !reads(key, 2) || !reads(nth_sequence_content(key, 0), 2) {
        return false;
    }
    let exts = extension_field(der);
    reads(exts, 1) && extension_list(sequence(exts, 0))
}

/// Whether a sequence of two numbers can be read.
pub fn is_pair(b: &[u8]) -> (r: bool)
    ensures
        r == pair_fits(b@),
{
    reads(b, 1) && reads(sequence(b, 0), 2)
}

fn bits(b: &[u8]) -> (r: &[u8])
    ensures
        r@ == bits_of(b@),
{
    if b.len() == 0 {
        b
    } else {
        let r = slice_subrange(b, 1, b.len());
        proof {
            assert(r@ =~= b@.skip(1));
        }
        r
    }
}

/// Whether signatures can be verified under the key of a certificate.
pub fn is_anchorable(der: &[u8]) -> (r: bool)
    ensures
        r == anchorable(der@),
{
    if !is_readable(der) {
        return false;
    }
    let key = key_field(der);
    if ct_eq(content(nth_sequence_content(key, 0), 0), &OID_RSA) {
        return is_pair(bits(nth_content(key, 1)));
    }
    true
}

/// Whether a certificate can be part of a chain.
pub fn is_checkable(der: &[u8]) -> (r: bool)
    ensures
        r == checkable(der@),
{
    if !is_anchorable(der) {
        return false;
    }
    let outer = content(der, 0);
    let signed = content(nth_sequence_content(outer, 1), 0);
    if ct_eq(signed, &OID_ECDSA_SHA256) || ct_eq(signed, &OID_ECDSA_SHA384) || ct_eq(
        signed,
        &OID_ECDSA_SHA512,
    ) {
        return is_pair(bits(nth_content(outer, 2)));
    }
    true
}

} // verus!
