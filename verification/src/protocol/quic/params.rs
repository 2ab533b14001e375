//! Variable-length integers (RFC 9000 section 16) and transport parameters (section 18).

use super::error::{protocol, QuicFault, Result};
use crate::wire::{be_bytes, be_value, extend, lemma_be_bytes_len, lemma_be_round_trip,
    lemma_be_value_bytes, lemma_pow256, pow256, push_be, read_be};
use vstd::prelude::*;
use vstd::slice::*;

verus! {

/// One more than the largest variable-length integer.
pub const VARINT_LIMIT: u64 = 0x4000_0000_0000_0000;

/// A variable-length integer on the wire: the two high bits of the first byte give the
/// length. Of a number that is too large, the low 62 bits are written.
pub open spec fn varint_bytes(v: u64) -> Seq<u8> {
    if v < 0x40 {
        be_bytes(v as nat, 1)
    } else if v < 0x4000 {
        be_bytes((0x4000 + v) as nat, 2)
    } else if v < 0x4000_0000 {
        be_bytes((0x8000_0000 + v) as nat, 4)
    } else {
        be_bytes((0xc000_0000_0000_0000 + v % VARINT_LIMIT) as nat, 8)
    }
}

/// The length that the first byte of a variable-length integer gives.
pub open spec fn varint_size(first: u8) -> nat {
    if first < 0x40 {
        1
    } else if first < 0x80 {
        2
    } else if first < 0xc0 {
        4
    } else {
        8
    }
}

/// One more than the largest value that fits in `n` bytes.
pub open spec fn varint_range(n: nat) -> nat {
    if n == 1 {
        0x40
    } else if n == 2 {
        0x4000
    } else if n == 4 {
        0x4000_0000
    } else {
        0x4000_0000_0000_0000
    }
}

/// The variable-length integer at `pos`: its value and the position behind it.
pub open spec fn varint_at(buf: Seq<u8>, pos: int) -> Option<(u64, int)> {
    if pos < 0 || pos >= buf.len() {
        None
    } else {
        let n = varint_size(buf[pos]);
        if buf.len() - pos < n {
            None
        } else {
            Some(((be_value(buf.subrange(pos, pos + n)) % varint_range(n)) as u64, pos + n))
        }
    }
}

proof fn lemma_first_byte(v: nat, n: nat)
    requires
        n >= 1,
        v < pow256(n),
    ensures
        be_bytes(v, n).len() == n,
        be_bytes(v, n)[0] == v / pow256((n - 1) as nat),
    decreases n,
{
    lemma_be_bytes_len(v, n);
    if n > 1 {
        let p = pow256((n - 2) as nat);
        assert(v / 256 < pow256((n - 1) as nat));
        lemma_first_byte(v / 256, (n - 1) as nat);
        lemma_be_bytes_len(v / 256, (n - 1) as nat);
        assert(p > 0) by {
            lemma_pow256_positive((n - 2) as nat);
        }
        vstd::arithmetic::div_mod::lemma_div_denominator(v as int, 256, p as int);
        assert(pow256((n - 1) as nat) == 256 * p);
        assert(be_bytes(v, n)[0] == be_bytes(v / 256, (n - 1) as nat)[0]);
        assert(be_bytes(v, n)[0] == (v / 256) / p);
        assert(be_bytes(v, n)[0] == v / (256 * p));
    } else {
        reveal_with_fuel(be_bytes, 2);
        reveal_with_fuel(pow256, 2);
        assert(pow256(0) == 1 && n == 1);
        assert(v / 1 == v);
    }
}

proof fn lemma_pow256_positive(n: nat)
    ensures
        pow256(n) > 0,
    decreases n,
{
    if n > 0 {
        lemma_pow256_positive((n - 1) as nat);
    }
}

/// A number is read back as it was written, whatever follows it.
pub proof fn lemma_varint_round_trip(v: u64, rest: Seq<u8>)
    ensures
        varint_at(varint_bytes(v) + rest, 0) == Some(
            ((v % VARINT_LIMIT) as u64, varint_bytes(v).len() as int),
        ),
        1 <= varint_bytes(v).len() <= 8,
{
    reveal_with_fuel(pow256, 9);
    let (x, n): (nat, nat) = if v < 0x40 {
        (v as nat, 1)
    } else if v < 0x4000 {
        ((0x4000 + v) as nat, 2)
    } else if v < 0x4000_0000 {
        ((0x8000_0000 + v) as nat, 4)
    } else {
        ((0xc000_0000_0000_0000 + v % VARINT_LIMIT) as nat, 8)
    };
    lemma_first_byte(x, n);
    lemma_be_round_trip(x, n);
    let buf = varint_bytes(v) + rest;
    assert(buf.subrange(0, n as int) =~= varint_bytes(v));
    assert(buf[0] == be_bytes(x, n)[0]);
    assert(pow256(0) == 1 && pow256(1) == 0x100 && pow256(3) == 0x100_0000 && pow256(7)
        == 0x100_0000_0000_0000);
    if v < 0x40 {
        assert(buf[0] == x / 1);
    } else if v < 0x4000 {
        assert(buf[0] == x / 0x100);
        assert(x % 0x4000 == v);
    } else if v < 0x4000_0000 {
        assert(buf[0] == x / 0x100_0000);
        assert(x % 0x4000_0000 == v);
    } else {
        let low = v % VARINT_LIMIT;
        assert(0 <= low < 0x4000_0000_0000_0000);
        assert(buf[0] == x / 0x100_0000_0000_0000);
        assert(x % 0x4000_0000_0000_0000 == low);
    }
    assert(v < 0x4000_0000 ==> v % VARINT_LIMIT == v);
    assert(varint_size(buf[0]) == n);
    assert(x % varint_range(n) == v % VARINT_LIMIT);
}

/// Encode a variable-length integer.
pub fn varint(v: u64) -> (r: Vec<u8>)
    ensures
        r@ == varint_bytes(v),
{
    let mut out: Vec<u8> = Vec::new();
    if v < 0x40 {
        push_be(&mut out, v, 1);
    } else if v < 0x4000 {
        push_be(&mut out, 0x4000 + v, 2);
    } else if v < 0x4000_0000 {
        push_be(&mut out, 0x8000_0000 + v, 4);
    } else {
        push_be(&mut out, 0xc000_0000_0000_0000 + v % VARINT_LIMIT, 8);
    }
    proof {
        assert(out@ =~= varint_bytes(v));
    }
    out
}

/// Parse a variable-length integer at `*pos`, moving `*pos` behind it.
pub fn read_varint(buf: &[u8], pos: &mut usize) -> (r: Result<u64>)
    ensures
        match varint_at(buf@, *old(pos) as int) {
            Some((v, next)) => r is Ok && r->Ok_0 == v && *final(pos) == next,
            None => r is Err && r->Err_0@ == QuicFault::Protocol("truncated varint"@),
        },
        r is Ok ==> r->Ok_0 < VARINT_LIMIT && *old(pos) < *final(pos) <= buf@.len(),
{
    if *pos >= buf.len() {
        return Err(protocol("truncated varint"));
    }
    let first: u8 = buf[*pos];
    let (len, range): (usize, u64) = if first < 0x40 {
        (1, 0x40)
    } else if first < 0x80 {
        (2, 0x4000)
    } else if first < 0xc0 {
        (4, 0x4000_0000)
    } else {
        (8, 0x4000_0000_0000_0000)
    };
    if buf.len() - *pos < len {
        return Err(protocol("truncated varint"));
    }
    proof {
        lemma_pow256();
        lemma_be_value_bytes(buf@.subrange(*pos as int, *pos + len));
    }
    let v: u64 = read_be(buf, *pos, len) % range;
    *pos = *pos + len;
    Ok(v)
}

/// Transport parameters exchanged during the handshake.
#[derive(Debug, Clone)]
pub struct TransportParameters {
    pub initial_max_data: u64,
    pub initial_max_stream_data_bidi_local: u64,
    pub initial_max_stream_data_bidi_remote: u64,
    pub initial_max_stream_data_uni: u64,
    pub initial_max_streams_bidi: u64,
    pub initial_max_streams_uni: u64,
    pub max_udp_payload_size: u64,
    pub ack_delay_exponent: u64,
    pub max_ack_delay: u64,
    pub initial_source_connection_id: Vec<u8>,
    pub disable_active_migration: bool,
}

/// Transport parameters as a mathematical value.
#[verifier::ext_equal]
pub struct ParamsView {
    pub initial_max_data: u64,
    pub initial_max_stream_data_bidi_local: u64,
    pub initial_max_stream_data_bidi_remote: u64,
    pub initial_max_stream_data_uni: u64,
    pub initial_max_streams_bidi: u64,
    pub initial_max_streams_uni: u64,
    pub max_udp_payload_size: u64,
    pub ack_delay_exponent: u64,
    pub max_ack_delay: u64,
    pub initial_source_connection_id: Seq<u8>,
    pub disable_active_migration: bool,
}

impl View for TransportParameters {
    type V = ParamsView;

    open spec fn view(&self) -> ParamsView {
        ParamsView {
            initial_max_data: self.initial_max_data,
            initial_max_stream_data_bidi_local: self.initial_max_stream_data_bidi_local,
            initial_max_stream_data_bidi_remote: self.initial_max_stream_data_bidi_remote,
            initial_max_stream_data_uni: self.initial_max_stream_data_uni,
            initial_max_streams_bidi: self.initial_max_streams_bidi,
            initial_max_streams_uni: self.initial_max_streams_uni,
            max_udp_payload_size: self.max_udp_payload_size,
            ack_delay_exponent: self.ack_delay_exponent,
            max_ack_delay: self.max_ack_delay,
            initial_source_connection_id: self.initial_source_connection_id@,
            disable_active_migration: self.disable_active_migration,
        }
    }
}

/// Every parameter absent.
pub open spec fn no_params() -> ParamsView {
    ParamsView {
        initial_max_data: 0,
        initial_max_stream_data_bidi_local: 0,
        initial_max_stream_data_bidi_remote: 0,
        initial_max_stream_data_uni: 0,
        initial_max_streams_bidi: 0,
        initial_max_streams_uni: 0,
        max_udp_payload_size: 0,
        ack_delay_exponent: 0,
        max_ack_delay: 0,
        initial_source_connection_id: Seq::empty(),
        disable_active_migration: false,
    }
}

impl Default for TransportParameters {
    fn default() -> (r: Self)
        ensures
            r@ == (ParamsView {
                max_udp_payload_size: 1200,
                ack_delay_exponent: 3,
                max_ack_delay: 25,
                ..no_params()
            }),
    {
        let mut r = Self::empty();
        r.max_udp_payload_size = 1200;
        r.ack_delay_exponent = 3;
        r.max_ack_delay = 25;
        r
    }
}

impl TransportParameters {
    fn empty() -> (r: Self)
        ensures
            r@ == no_params(),
    {
        let r = Self {
            initial_max_data: 0,
            initial_max_stream_data_bidi_local: 0,
            initial_max_stream_data_bidi_remote: 0,
            initial_max_stream_data_uni: 0,
            initial_max_streams_bidi: 0,
            initial_max_streams_uni: 0,
            max_udp_payload_size: 0,
            ack_delay_exponent: 0,
            max_ack_delay: 0,
            initial_source_connection_id: Vec::new(),
            disable_active_migration: false,
        };
        proof {
            assert(r@ =~= no_params());
        }
        r
    }
}

/// `max_udp_payload_size`.
pub const TP_MAX_UDP_PAYLOAD_SIZE: u64 = 0x03;

/// `initial_max_data`.
pub const TP_INITIAL_MAX_DATA: u64 = 0x04;

/// `initial_max_stream_data_bidi_local`.
pub const TP_INITIAL_MAX_STREAM_DATA_BIDI_LOCAL: u64 = 0x05;

/// `initial_max_stream_data_bidi_remote`.
pub const TP_INITIAL_MAX_STREAM_DATA_BIDI_REMOTE: u64 = 0x06;

/// `initial_max_stream_data_uni`.
pub const TP_INITIAL_MAX_STREAM_DATA_UNI: u64 = 0x07;

/// `initial_max_streams_bidi`.
pub const TP_INITIAL_MAX_STREAMS_BIDI: u64 = 0x08;

/// `initial_max_streams_uni`.
pub const TP_INITIAL_MAX_STREAMS_UNI: u64 = 0x09;

/// `ack_delay_exponent`.
pub const TP_ACK_DELAY_EXPONENT: u64 = 0x0a;

/// `max_ack_delay`.
pub const TP_MAX_ACK_DELAY: u64 = 0x0b;

/// `disable_active_migration`.
pub const TP_DISABLE_ACTIVE_MIGRATION: u64 = 0x0c;

/// `initial_source_connection_id`.
pub const TP_INITIAL_SOURCE_CONNECTION_ID: u64 = 0x0f;

/// One transport parameter on the wire.
pub open spec fn param_bytes(id: u64, value: Seq<u8>) -> Seq<u8> {
    varint_bytes(id) + varint_bytes(value.len() as u64) + value
}

/// The transport parameters of a client whose source connection identifier is `scid`.
pub open spec fn client_params(tp: ParamsView, scid: Seq<u8>) -> Seq<u8> {
    param_bytes(TP_INITIAL_MAX_DATA, varint_bytes(tp.initial_max_data)) + param_bytes(
        TP_INITIAL_MAX_STREAM_DATA_BIDI_LOCAL,
        varint_bytes(tp.initial_max_stream_data_bidi_local),
    ) + param_bytes(
        TP_INITIAL_MAX_STREAM_DATA_BIDI_REMOTE,
        varint_bytes(tp.initial_max_stream_data_bidi_remote),
    ) + param_bytes(
        TP_INITIAL_MAX_STREAM_DATA_UNI,
        varint_bytes(tp.initial_max_stream_data_uni),
    ) + param_bytes(TP_INITIAL_MAX_STREAMS_BIDI, varint_bytes(tp.initial_max_streams_bidi))
        + param_bytes(TP_INITIAL_MAX_STREAMS_UNI, varint_bytes(tp.initial_max_streams_uni))
        + param_bytes(TP_MAX_UDP_PAYLOAD_SIZE, varint_bytes(tp.max_udp_payload_size)) + param_bytes(
        TP_ACK_DELAY_EXPONENT,
        varint_bytes(tp.ack_delay_exponent),
    ) + param_bytes(TP_MAX_ACK_DELAY, varint_bytes(tp.max_ack_delay)) + param_bytes(
        TP_DISABLE_ACTIVE_MIGRATION,
        Seq::empty(),
    ) + param_bytes(TP_INITIAL_SOURCE_CONNECTION_ID, scid)
}

fn push_tp(out: &mut Vec<u8>, id: u64, value: &[u8])
    ensures
        final(out)@ == old(out)@ + param_bytes(id, value@),
{
    extend(out, &varint(id));
    extend(out, &varint(value.len() as u64));
    extend(out, value);
    proof {
        assert(out@ =~= old(out)@ + param_bytes(id, value@));
    }
}

/// Encode the client's transport parameters: the extension body.
pub fn encode_client_tp(tp: &TransportParameters, scid: &[u8]) -> (r: Vec<u8>)
    ensures
        r@ == client_params(tp@, scid@),
{
    let mut out: Vec<u8> = Vec::new();
    push_tp(&mut out, TP_INITIAL_MAX_DATA, &varint(tp.initial_max_data));
    push_tp(
        &mut out,
        TP_INITIAL_MAX_STREAM_DATA_BIDI_LOCAL,
        &varint(tp.initial_max_stream_data_bidi_local),
    );
    push_tp(
        &mut out,
        TP_INITIAL_MAX_STREAM_DATA_BIDI_REMOTE,
        &varint(tp.initial_max_stream_data_bidi_remote),
    );
    push_tp(
        &mut out,
        TP_INITIAL_MAX_STREAM_DATA_UNI,
        &varint(tp.initial_max_stream_data_uni),
    );
    push_tp(&mut out, TP_INITIAL_MAX_STREAMS_BIDI, &varint(tp.initial_max_streams_bidi));
    push_tp(&mut out, TP_INITIAL_MAX_STREAMS_UNI, &varint(tp.initial_max_streams_uni));
    push_tp(&mut out, TP_MAX_UDP_PAYLOAD_SIZE, &varint(tp.max_udp_payload_size));
    push_tp(&mut out, TP_ACK_DELAY_EXPONENT, &varint(tp.ack_delay_exponent));
    push_tp(&mut out, TP_MAX_ACK_DELAY, &varint(tp.max_ack_delay));
    let nothing: Vec<u8> = Vec::new();
    push_tp(&mut out, TP_DISABLE_ACTIVE_MIGRATION, &nothing);
    push_tp(&mut out, TP_INITIAL_SOURCE_CONNECTION_ID, scid);
    proof {
        assert(nothing@ =~= Seq::empty());
        assert(out@ =~= client_params(tp@, scid@));
    }
    out
}

/// The number that a parameter's bytes denote: one variable-length integer and no more.
pub open spec fn param_number(value: Seq<u8>) -> core::result::Result<u64, QuicFault> {
    match varint_at(value, 0) {
        None => Err(QuicFault::Protocol("truncated varint"@)),
        Some((n, end)) => if end < value.len() {
            Err(QuicFault::Protocol("transport parameter value too long"@))
        } else {
            Ok(n)
        },
    }
}

/// The parameters after one more is read. Unknown ones are ignored.
pub open spec fn with_param(tp: ParamsView, id: u64, value: Seq<u8>) -> core::result::Result<
    ParamsView,
    QuicFault,
> {
    if id == TP_DISABLE_ACTIVE_MIGRATION {
        Ok(ParamsView { disable_active_migration: true, ..tp })
    } else if id == TP_INITIAL_SOURCE_CONNECTION_ID {
        Ok(ParamsView { initial_source_connection_id: value, ..tp })
    } else if id < TP_MAX_UDP_PAYLOAD_SIZE || id > TP_MAX_ACK_DELAY {
        Ok(tp)
    } else {
        match param_number(value) {
            Err(f) => Err(f),
            Ok(n) => Ok(
                if id == TP_INITIAL_MAX_DATA {
                    ParamsView { initial_max_data: n, ..tp }
                } else if id == TP_INITIAL_MAX_STREAM_DATA_BIDI_LOCAL {
                    ParamsView { initial_max_stream_data_bidi_local: n, ..tp }
                } else if id == TP_INITIAL_MAX_STREAM_DATA_BIDI_REMOTE {
                    ParamsView { initial_max_stream_data_bidi_remote: n, ..tp }
                } else if id == TP_INITIAL_MAX_STREAM_DATA_UNI {
                    ParamsView { initial_max_stream_data_uni: n, ..tp }
                } else if id == TP_INITIAL_MAX_STREAMS_BIDI {
                    ParamsView { initial_max_streams_bidi: n, ..tp }
                } else if id == TP_INITIAL_MAX_STREAMS_UNI {
                    ParamsView { initial_max_streams_uni: n, ..tp }
                } else if id == TP_MAX_UDP_PAYLOAD_SIZE {
                    ParamsView { max_udp_payload_size: n, ..tp }
                } else if id == TP_ACK_DELAY_EXPONENT {
                    ParamsView { ack_delay_exponent: n, ..tp }
                } else {
                    ParamsView { max_ack_delay: n, ..tp }
                },
            ),
        }
    }
}

/// The parameters after everything from `pos` on is read.
pub open spec fn params_from(data: Seq<u8>, pos: int, tp: ParamsView) -> core::result::Result<
    ParamsView,
    QuicFault,
>
    decreases data.len() - pos,
{
    if pos < 0 || pos >= data.len() {
        Ok(tp)
    } else {
        match varint_at(data, pos) {
            None => Err(QuicFault::Protocol("truncated varint"@)),
            Some((id, at)) => match varint_at(data, at) {
                None => Err(QuicFault::Protocol("truncated varint"@)),
                Some((len, from)) => if data.len() - from < len {
                    Err(QuicFault::Protocol("truncated transport parameter"@))
                } else {
                    match with_param(tp, id, data.subrange(from, from + len)) {
                        Err(f) => Err(f),
                        Ok(next) => params_from(data, from + len, next),
                    }
                },
            },
        }
    }
}

/// What an extension body says of the peer's transport parameters.
pub open spec fn params_of(data: Seq<u8>) -> core::result::Result<ParamsView, QuicFault> {
    params_from(data, 0, no_params())
}

fn parse_tp_u64(value: &[u8]) -> (r: Result<u64>)
    ensures
        match param_number(value@) {
            Ok(n) => r is Ok && r->Ok_0 == n,
            Err(f) => r is Err && r->Err_0@ == f,
        },
{
    let mut pos: usize = 0;
    let n: u64 = match read_varint(value, &mut pos) {
        Ok(n) => n,
        Err(e) => return Err(e),
    };
    if pos < value.len() {
        return Err(protocol("transport parameter value too long"));
    }
    Ok(n)
}

fn set_param(tp: &mut TransportParameters, id: u64, value: &[u8]) -> (r: Result<()>)
    ensures
        match with_param(old(tp)@, id, value@) {
            Ok(next) => r is Ok && final(tp)@ == next,
            Err(f) => r is Err && r->Err_0@ == f,
        },
{
    if id == TP_DISABLE_ACTIVE_MIGRATION {
        tp.disable_active_migration = true;
        return Ok(());
    }
    if id == TP_INITIAL_SOURCE_CONNECTION_ID {
        tp.initial_source_connection_id = slice_to_vec(value);
        return Ok(());
    }
    if id < TP_MAX_UDP_PAYLOAD_SIZE || id > TP_MAX_ACK_DELAY {
        return Ok(());
    }
    let n: u64 = match parse_tp_u64(value) {
        Ok(n) => n,
        Err(e) => return Err(e),
    };
    if id == TP_INITIAL_MAX_DATA {
        tp.initial_max_data = n;
    } else if id == TP_INITIAL_MAX_STREAM_DATA_BIDI_LOCAL {
        tp.initial_max_stream_data_bidi_local = n;
    } else if id == TP_INITIAL_MAX_STREAM_DATA_BIDI_REMOTE {
        tp.initial_max_stream_data_bidi_remote = n;
    } else if id == TP_INITIAL_MAX_STREAM_DATA_UNI {
        tp.initial_max_stream_data_uni = n;
    } else if id == TP_INITIAL_MAX_STREAMS_BIDI {
        tp.initial_max_streams_bidi = n;
    } else if id == TP_INITIAL_MAX_STREAMS_UNI {
        tp.initial_max_streams_uni = n;
    } else if id == TP_MAX_UDP_PAYLOAD_SIZE {
        tp.max_udp_payload_size = n;
    } else if id == TP_ACK_DELAY_EXPONENT {
        tp.ack_delay_exponent = n;
    } else {
        tp.max_ack_delay = n;
    }
    Ok(())
}

/// Parse the peer's transport parameters from an extension body.
pub fn parse_tp(data: &[u8]) -> (r: Result<TransportParameters>)
    ensures
        match params_of(data@) {
            Ok(tp) => r is Ok && r->Ok_0@ == tp,
            Err(f) => r is Err && r->Err_0@ == f,
        },
{
    let mut tp = TransportParameters::empty();
    let mut pos: usize = 0;
    while pos < data.len()
        invariant
            pos <= data@.len(),
            params_of(data@) == params_from(data@, pos as int, tp@),
        decreases data@.len() - pos,
    {
        let ghost start = pos;
        let id: u64 = match read_varint(data, &mut pos) {
            Ok(id) => id,
            Err(e) => return Err(e),
        };
        let len: u64 = match read_varint(data, &mut pos) {
            Ok(len) => len,
            Err(e) => return Err(e),
        };
        if len > (data.len() - pos) as u64 {
            return Err(protocol("truncated transport parameter"));
        }
        let value = slice_subrange(data, pos, pos + len as usize);
        match set_param(&mut tp, id, value) {
            Ok(_) => {},
            Err(e) => return Err(e),
        }
        pos = pos + len as usize;
    }
    Ok(tp)
}

/// One parameter of a list on the wire.
#[verifier::opaque]
spec fn entry_bytes(entry: (u64, Seq<u8>)) -> Seq<u8> {
    param_bytes(entry.0, entry.1)
}

/// Parameters one after another.
spec fn list_bytes(list: Seq<(u64, Seq<u8>)>) -> Seq<u8>
    decreases list.len(),
{
    if list.len() == 0 {
        Seq::empty()
    } else {
        entry_bytes(list[0]) + list_bytes(list.skip(1))
    }
}

/// The parameters after those of a list are read.
spec fn with_params(tp: ParamsView, list: Seq<(u64, Seq<u8>)>) -> core::result::Result<
    ParamsView,
    QuicFault,
>
    decreases list.len(),
{
    if list.len() == 0 {
        Ok(tp)
    } else {
        match with_param(tp, list[0].0, list[0].1) {
            Err(f) => Err(f),
            Ok(next) => with_params(next, list.skip(1)),
        }
    }
}

proof fn lemma_varint_behind(before: Seq<u8>, v: u64, rest: Seq<u8>)
    requires
        v < VARINT_LIMIT,
    ensures
        varint_at(before + varint_bytes(v) + rest, before.len() as int) == Some(
            (v, (before.len() + varint_bytes(v).len()) as int),
        ),
        varint_bytes(v).len() >= 1,
{
    lemma_varint_round_trip(v, rest);
    let whole = before + varint_bytes(v) + rest;
    let tail = varint_bytes(v) + rest;
    let at = before.len() as int;
    assert(whole[at] == tail[0]);
    let n = varint_size(tail[0]) as int;
    assert(whole.subrange(at, at + n) =~= tail.subrange(0, n));
}

proof fn lemma_list_read(before: Seq<u8>, list: Seq<(u64, Seq<u8>)>, tp: ParamsView)
    requires
        forall|i: int|
            0 <= i < list.len() ==> (#[trigger] list[i]).0 < VARINT_LIMIT && list[i].1.len()
                < VARINT_LIMIT,
    ensures
        params_from(before + list_bytes(list), before.len() as int, tp) == with_params(tp, list),
    decreases list.len(),
{
    let data = before + list_bytes(list);
    if list.len() > 0 {
        let (id, value) = list[0];
        reveal(entry_bytes);
        let rest = list_bytes(list.skip(1));
        let len = value.len() as u64;
        let a = before + varint_bytes(id);
        let b = a + varint_bytes(len);
        assert(data =~= before + varint_bytes(id) + (varint_bytes(len) + value + rest));
        assert(data =~= a + varint_bytes(len) + (value + rest));
        lemma_varint_behind(before, id, varint_bytes(len) + value + rest);
        lemma_varint_behind(a, len, value + rest);
        assert(data.subrange(b.len() as int, b.len() + len) =~= value);
        assert(data =~= (b + value) + rest);
        match with_param(tp, id, value) {
            Err(_) => {},
            Ok(next) => {
                assert forall|i: int| 0 <= i < list.skip(1).len() implies (#[trigger] list.skip(
                    1,
                )[i]).0 < VARINT_LIMIT && list.skip(1)[i].1.len() < VARINT_LIMIT by {
                    assert(list.skip(1)[i] == list[i + 1]);
                }
                lemma_list_read(b + value, list.skip(1), next);
            },
        }
    } else {
        assert(data =~= before);
    }
}

proof fn lemma_number(v: u64)
    requires
        v < VARINT_LIMIT,
    ensures
        param_number(varint_bytes(v)) == Ok::<u64, QuicFault>(v),
        varint_bytes(v).len() <= 8,
{
    lemma_varint_round_trip(v, Seq::empty());
    assert(varint_bytes(v) + Seq::<u8>::empty() =~= varint_bytes(v));
}

/// The parameters of a client one by one.
spec fn client_list(tp: ParamsView, scid: Seq<u8>) -> Seq<(u64, Seq<u8>)> {
    seq![
        (TP_INITIAL_MAX_DATA, varint_bytes(tp.initial_max_data)),
        (
            TP_INITIAL_MAX_STREAM_DATA_BIDI_LOCAL,
            varint_bytes(tp.initial_max_stream_data_bidi_local),
        ),
        (
            TP_INITIAL_MAX_STREAM_DATA_BIDI_REMOTE,
            varint_bytes(tp.initial_max_stream_data_bidi_remote),
        ),
        (TP_INITIAL_MAX_STREAM_DATA_UNI, varint_bytes(tp.initial_max_stream_data_uni)),
        (TP_INITIAL_MAX_STREAMS_BIDI, varint_bytes(tp.initial_max_streams_bidi)),
        (TP_INITIAL_MAX_STREAMS_UNI, varint_bytes(tp.initial_max_streams_uni)),
        (TP_MAX_UDP_PAYLOAD_SIZE, varint_bytes(tp.max_udp_payload_size)),
        (TP_ACK_DELAY_EXPONENT, varint_bytes(tp.ack_delay_exponent)),
        (TP_MAX_ACK_DELAY, varint_bytes(tp.max_ack_delay)),
        (TP_DISABLE_ACTIVE_MIGRATION, Seq::<u8>::empty()),
        (TP_INITIAL_SOURCE_CONNECTION_ID, scid),
    ]
}

proof fn lemma_list_step(list: Seq<(u64, Seq<u8>)>, i: int)
    requires
        0 <= i < list.len(),
    ensures
        list_bytes(list.skip(i)) == entry_bytes(list[i]) + list_bytes(list.skip(i + 1)),
        forall|tp: ParamsView| #[trigger]
            with_params(tp, list.skip(i)) == match with_param(tp, list[i].0, list[i].1) {
                Err(f) => Err(f),
                Ok(next) => with_params(next, list.skip(i + 1)),
            },
{
    assert(list.skip(i).skip(1) =~= list.skip(i + 1));
    assert(list.skip(i)[0] == list[i]);
}

/// A peer reads the client's parameters as they were written, its connection identifier
/// and that it does not migrate included.
#[verifier::rlimit(60)]
#[verifier::spinoff_prover]
pub proof fn lemma_params_round_trip(tp: ParamsView, scid: Seq<u8>)
    requires
        tp.initial_max_data < VARINT_LIMIT,
        tp.initial_max_stream_data_bidi_local < VARINT_LIMIT,
        tp.initial_max_stream_data_bidi_remote < VARINT_LIMIT,
        tp.initial_max_stream_data_uni < VARINT_LIMIT,
        tp.initial_max_streams_bidi < VARINT_LIMIT,
        tp.initial_max_streams_uni < VARINT_LIMIT,
        tp.max_udp_payload_size < VARINT_LIMIT,
        tp.ack_delay_exponent < VARINT_LIMIT,
        tp.max_ack_delay < VARINT_LIMIT,
        scid.len() < VARINT_LIMIT,
    ensures
        params_of(client_params(tp, scid)) == Ok::<ParamsView, QuicFault>(
            ParamsView {
                initial_source_connection_id: scid,
                disable_active_migration: true,
                ..tp
            },
        ),
{
    let list = client_list(tp, scid);
    let t0 = no_params();
    let t1 = ParamsView { initial_max_data: tp.initial_max_data, ..t0 };
    let t2 = ParamsView {
        initial_max_stream_data_bidi_local: tp.initial_max_stream_data_bidi_local,
        ..t1
    };
    let t3 = ParamsView {
        initial_max_stream_data_bidi_remote: tp.initial_max_stream_data_bidi_remote,
        ..t2
    };
    let t4 = ParamsView { initial_max_stream_data_uni: tp.initial_max_stream_data_uni, ..t3 };
    let t5 = ParamsView { initial_max_streams_bidi: tp.initial_max_streams_bidi, ..t4 };
    let t6 = ParamsView { initial_max_streams_uni: tp.initial_max_streams_uni, ..t5 };
    let t7 = ParamsView { max_udp_payload_size: tp.max_udp_payload_size, ..t6 };
    let t8 = ParamsView { ack_delay_exponent: tp.ack_delay_exponent, ..t7 };
    let t9 = ParamsView { max_ack_delay: tp.max_ack_delay, ..t8 };
    let t10 = ParamsView { disable_active_migration: true, ..t9 };
    let t11 = ParamsView { initial_source_connection_id: scid, ..t10 };
    lemma_number(tp.initial_max_data);
    lemma_number(tp.initial_max_stream_data_bidi_local);
    lemma_number(tp.initial_max_stream_data_bidi_remote);
    lemma_number(tp.initial_max_stream_data_uni);
    lemma_number(tp.initial_max_streams_bidi);
    lemma_number(tp.initial_max_streams_uni);
    lemma_number(tp.max_udp_payload_size);
    lemma_number(tp.ack_delay_exponent);
    lemma_number(tp.max_ack_delay);
    assert(with_params(t0, list.skip(0)) == Ok::<ParamsView, QuicFault>(t11)) by {
        lemma_list_step(list, 0);
        assert(with_params(t0, list.skip(0)) == with_params(t1, list.skip(1)));
        lemma_list_step(list, 1);
        assert(with_params(t1, list.skip(1)) == with_params(t2, list.skip(2)));
        lemma_list_step(list, 2);
        assert(with_params(t2, list.skip(2)) == with_params(t3, list.skip(3)));
        lemma_list_step(list, 3);
        assert(with_params(t3, list.skip(3)) == with_params(t4, list.skip(4)));
        lemma_list_step(list, 4);
        assert(with_params(t4, list.skip(4)) == with_params(t5, list.skip(5)));
        lemma_list_step(list, 5);
        assert(with_params(t5, list.skip(5)) == with_params(t6, list.skip(6)));
        lemma_list_step(list, 6);
        assert(with_params(t6, list.skip(6)) == with_params(t7, list.skip(7)));
        lemma_list_step(list, 7);
        assert(with_params(t7, list.skip(7)) == with_params(t8, list.skip(8)));
        lemma_list_step(list, 8);
        assert(with_params(t8, list.skip(8)) == with_params(t9, list.skip(9)));
        lemma_list_step(list, 9);
        assert(with_params(t9, list.skip(9)) == with_params(t10, list.skip(10)));
        lemma_list_step(list, 10);
        assert(with_params(t10, list.skip(10)) == with_params(t11, list.skip(11)));
    }
    assert(list.skip(0) =~= list);
    lemma_list_read(Seq::empty(), list, t0);
    lemma_client_bytes(tp, scid);
    assert(Seq::<u8>::empty() + list_bytes(list) =~= list_bytes(list));
    assert(t11 =~= ParamsView {
        initial_source_connection_id: scid,
        disable_active_migration: true,
        ..tp
    });
}

proof fn lemma_eleven(list: Seq<(u64, Seq<u8>)>)
    requires
        list.len() == 11,
    ensures
        list_bytes(list) == entry_bytes(list[0]) + entry_bytes(list[1]) + entry_bytes(list[2])
            + entry_bytes(list[3]) + entry_bytes(list[4]) + entry_bytes(list[5]) + entry_bytes(
            list[6],
        ) + entry_bytes(list[7]) + entry_bytes(list[8]) + entry_bytes(list[9]) + entry_bytes(
            list[10],
        ),
{
    assert(list.skip(0) =~= list);
    lemma_list_step(list, 0);
    lemma_list_step(list, 1);
    lemma_list_step(list, 2);
    lemma_list_step(list, 3);
    lemma_list_step(list, 4);
    lemma_list_step(list, 5);
    lemma_list_step(list, 6);
    lemma_list_step(list, 7);
    lemma_list_step(list, 8);
    lemma_list_step(list, 9);
    lemma_list_step(list, 10);
    assert(list_bytes(list.skip(11)) =~= Seq::empty());
    let a = entry_bytes(list[0]) + entry_bytes(list[1]) + entry_bytes(list[2]);
    assert(list_bytes(list) =~= a + list_bytes(list.skip(3)));
    let b = a + entry_bytes(list[3]) + entry_bytes(list[4]) + entry_bytes(list[5]);
    assert(list_bytes(list) =~= b + list_bytes(list.skip(6)));
    let c = b + entry_bytes(list[6]) + entry_bytes(list[7]) + entry_bytes(list[8]);
    assert(list_bytes(list) =~= c + list_bytes(list.skip(9)));
}

proof fn lemma_entry(id: u64, value: Seq<u8>)
    ensures
        entry_bytes((id, value)) == param_bytes(id, value),
{
    reveal(entry_bytes);
}

proof fn lemma_client_bytes(tp: ParamsView, scid: Seq<u8>)
    ensures
        client_params(tp, scid) == list_bytes(client_list(tp, scid)),
{
    let list = client_list(tp, scid);
    lemma_eleven(list);
    lemma_entry(list[0].0, list[0].1);
    lemma_entry(list[1].0, list[1].1);
    lemma_entry(list[2].0, list[2].1);
    lemma_entry(list[3].0, list[3].1);
    lemma_entry(list[4].0, list[4].1);
    lemma_entry(list[5].0, list[5].1);
    lemma_entry(list[6].0, list[6].1);
    lemma_entry(list[7].0, list[7].1);
    lemma_entry(list[8].0, list[8].1);
    lemma_entry(list[9].0, list[9].1);
    lemma_entry(list[10].0, list[10].1);
}

} // verus!
