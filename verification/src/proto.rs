//! Wire framing. Two message shapes and no handshake: the identity layer already
//! authenticated both ends, and the port mapping lives on the connecting side.
use bytes::Bytes;
use vstd::prelude::*;
use vstd::slice::slice_to_vec;

verus! {

/// `u32` session id plus `u16` target port, in front of every datagram. The port
/// travels in each one rather than being negotiated once, because a setup message
/// could be the datagram that gets lost.
pub const DATAGRAM_HEADER: usize = 6;

/// The size of a buffer that receives UDP datagrams: an oversize one arrives whole and
/// is refused by the datagram cap rather than silently truncated.
pub const UDP_BUF: usize = 65_535;

/// The reference-counted buffer of the `bytes` crate, opaque here; what it holds is
/// named by [`bytes_content`].
#[verifier::external_type_specification]
#[verifier::external_body]
pub struct ExBytes(Bytes);

/// The bytes that a buffer holds, first to last.
pub uninterp spec fn bytes_content(b: Bytes) -> Seq<u8>;

/// `<bytes::Bytes as From<Vec<u8>>>::from`: the buffer holds exactly the bytes of
/// the vector it was made from.
#[verifier::external_body]
pub(crate) fn bytes_from_vec(v: Vec<u8>) -> (b: Bytes)
    ensures
        bytes_content(b) == v@,
{
    Bytes::from(v)
}

/// `<bytes::Bytes as Deref>::deref`: the whole content as a slice.
#[verifier::external_body]
pub(crate) fn bytes_as_slice(b: &Bytes) -> (s: &[u8])
    ensures
        s@ == bytes_content(*b),
{
    b
}

/// `bytes::Bytes::slice` on the range from `from` to the end, which panics on a
/// start beyond the end: the buffer returned holds everything from `from` on.
#[verifier::external_body]
pub(crate) fn bytes_slice_from(b: &Bytes, from: usize) -> (s: Bytes)
    requires
        from <= bytes_content(*b).len(),
    ensures
        bytes_content(s) == bytes_content(*b).skip(from as int),
{
    b.slice(from..)
}

/// The big-endian bytes of a port.
pub open spec fn be_port(port: u16) -> Seq<u8> {
    seq![(port / 256) as u8, (port % 256) as u8]
}

/// The port that two big-endian bytes stand for.
pub open spec fn port_of_be(b: Seq<u8>) -> int {
    b[0] * 256 + b[1]
}

/// The big-endian bytes of a session id.
pub open spec fn be_session(session: u32) -> Seq<u8> {
    seq![
        (session / 0x100_0000) as u8,
        ((session / 0x1_0000) % 256) as u8,
        ((session / 0x100) % 256) as u8,
        (session % 256) as u8,
    ]
}

/// The session id that four big-endian bytes stand for.
pub open spec fn session_of_be(b: Seq<u8>) -> int {
    b[0] * 0x100_0000 + b[1] * 0x1_0000 + b[2] * 0x100 + b[3]
}

/// A datagram on the wire: session id, target port, payload.
pub open spec fn datagram_frame(session: u32, port: u16, payload: Seq<u8>) -> Seq<u8> {
    be_session(session) + be_port(port) + payload
}

/// What a receiver reads out of a datagram, `None` where the header is cut short.
pub open spec fn datagram_parts(dg: Seq<u8>) -> Option<(u32, u16, Seq<u8>)> {
    if dg.len() < DATAGRAM_HEADER {
        None
    } else {
        Some(
            (
                session_of_be(dg.take(4)) as u32,
                port_of_be(dg.subrange(4, 6)) as u16,
                dg.skip(DATAGRAM_HEADER as int),
            ),
        )
    }
}

/// The two bytes that open a TCP data stream: the target port on the serving side.
pub fn encode_target_port(port: u16) -> (b: [u8; 2])
    ensures
        b@ == be_port(port),
{
    [(port / 256) as u8, (port % 256) as u8]
}

/// The target port named by the two bytes that open a TCP data stream.
pub fn decode_target_port(b: [u8; 2]) -> (port: u16)
    ensures
        port == port_of_be(b@),
{
    b[0] as u16 * 256 + b[1] as u16
}

/// Frames one datagram.
pub fn encode_datagram(session: u32, port: u16, payload: &[u8]) -> (dg: Bytes)
    ensures
        bytes_content(dg) == datagram_frame(session, port, payload@),
{
    let mut b: Vec<u8> = Vec::new();
    b.push((session / 0x100_0000) as u8);
    b.push(((session / 0x1_0000) % 256) as u8);
    b.push(((session / 0x100) % 256) as u8);
    b.push((session % 256) as u8);
    b.push((port / 256) as u8);
    b.push((port % 256) as u8);
    let mut rest: Vec<u8> = slice_to_vec(payload);
    b.append(&mut rest);
    proof {
        assert(b@ =~= datagram_frame(session, port, payload@));
    }
    bytes_from_vec(b)
}

/// `None` for anything shorter than the header: a truncated datagram has no session
/// to route it to. The payload is a slice of the datagram, not a copy.
pub fn decode_datagram(dg: &Bytes) -> (parts: Option<(u32, u16, Bytes)>)
    ensures
        match parts {
            None => datagram_parts(bytes_content(*dg)) is None,
            Some((session, port, payload)) => datagram_parts(bytes_content(*dg)) == Some(
                (session, port, bytes_content(payload)),
            ),
        },
{
    let raw: &[u8] = bytes_as_slice(dg);
    if raw.len() < DATAGRAM_HEADER {
        return None;
    }
    let session: u32 = raw[0] as u32 * 0x100_0000 + raw[1] as u32 * 0x1_0000 + raw[2] as u32 * 0x100
        + raw[3] as u32;
    let port: u16 = raw[4] as u16 * 256 + raw[5] as u16;
    Some((session, port, bytes_slice_from(dg, DATAGRAM_HEADER)))
}

/// Whatever was framed is read back: session, port and payload all survive, an
/// empty payload as much as any other.
pub proof fn datagram_round_trips(session: u32, port: u16, payload: Seq<u8>)
    ensures
        datagram_parts(datagram_frame(session, port, payload)) == Some((session, port, payload)),
{
    let dg = datagram_frame(session, port, payload);
    assert(dg.skip(6) =~= payload);
    assert(dg.take(4) =~= be_session(session));
    assert(dg.subrange(4, 6) =~= be_port(port));
}

/// A datagram is routable exactly when it carries a whole header, and nothing but
/// the frame of what was read from it has those bytes.
pub proof fn datagram_frame_is_the_only_preimage(dg: Seq<u8>)
    ensures
        datagram_parts(dg) is None <==> dg.len() < DATAGRAM_HEADER,
        datagram_parts(dg) matches Some((session, port, payload)) ==> datagram_frame(
            session,
            port,
            payload,
        ) == dg,
{
    if dg.len() >= DATAGRAM_HEADER {
        let (session, port, payload) = datagram_parts(dg).unwrap();
        lemma_session_bytes(dg[0], dg[1], dg[2], dg[3]);
        lemma_port_bytes(dg[4], dg[5]);
        assert(dg.take(4) =~= seq![dg[0], dg[1], dg[2], dg[3]]);
        assert(dg.subrange(4, 6) =~= seq![dg[4], dg[5]]);
        assert(seq![dg[0], dg[1], dg[2], dg[3]] + seq![dg[4], dg[5]] + payload =~= dg);
    }
}

proof fn lemma_session_bytes(a: u8, b: u8, c: u8, d: u8)
    ensures
        be_session(session_of_be(seq![a, b, c, d]) as u32) == seq![a, b, c, d],
{
    let s: int = a * 0x100_0000 + b * 0x1_0000 + c * 0x100 + d;
    assert(0 <= s <= u32::MAX);
    assert(s / 0x100_0000 == a);
    assert(s / 0x1_0000 == a * 0x100 + b);
    assert((a * 0x100 + b) % 256 == b);
    assert(s / 0x100 == a * 0x1_0000 + b * 0x100 + c);
    assert((a * 0x1_0000 + b * 0x100 + c) % 256 == c);
    assert(s % 256 == d);
    assert(be_session(s as u32) =~= seq![a, b, c, d]);
}

proof fn lemma_port_bytes(a: u8, b: u8)
    ensures
        be_port(port_of_be(seq![a, b]) as u16) == seq![a, b],
{
    assert(be_port((a * 256 + b) as u16) =~= seq![a, b]);
}

/// A target port written at the head of a stream is the port read from it.
pub proof fn target_port_round_trips(port: u16)
    ensures
        port_of_be(be_port(port)) == port,
{
}

/// A port on the wire is its high byte, then its low byte.
pub proof fn a_port_is_sent_high_byte_first(port: u16, high: u8, low: u8)
    ensures
        be_port(port).len() == 2,
        be_port(port)[0] * 256 + be_port(port)[1] == port,
        port_of_be(seq![high, low]) == high * 256 + low,
{
}

/// A datagram on the wire is four bytes of session id, high byte first, two bytes of
/// port, high byte first, then the payload as it is.
pub proof fn a_datagram_is_laid_out_in_order(session: u32, port: u16, payload: Seq<u8>)
    ensures
        ({
            let d = datagram_frame(session, port, payload);
            &&& d.len() == 6 + payload.len()
            &&& d[0] * 0x100_0000 + d[1] * 0x1_0000 + d[2] * 0x100 + d[3] == session
            &&& d[4] * 0x100 + d[5] == port
            &&& forall|i: int| 0 <= i < payload.len() ==> d[6 + i] == payload[i]
        }),
{
}

/// What is read from a datagram of at least six bytes: the first four as a session id,
/// the next two as a port, each high byte first, and what follows as it is. A shorter one
/// says nothing.
pub proof fn a_datagram_is_read_in_order(d: Seq<u8>)
    ensures
        d.len() < 6 ==> datagram_parts(d) is None,
        d.len() >= 6 ==> (datagram_parts(d) matches Some((session, port, payload)) && session
            == d[0] * 0x100_0000 + d[1] * 0x1_0000 + d[2] * 0x100 + d[3] && port == d[4] * 0x100
            + d[5] && payload.len() == d.len() - 6 && forall|i: int|
            0 <= i < payload.len() ==> payload[i] == d[6 + i]),
{
    if d.len() >= 6 {
        let (a, b) = (d.take(4), d.subrange(4, 6));
        assert(a[0] == d[0] && a[1] == d[1] && a[2] == d[2] && a[3] == d[3]);
        assert(b[0] == d[4] && b[1] == d[5]);
    }
}

/// The buffer that receives datagrams takes the largest that UDP has, and six bytes go in
/// front of each.
pub proof fn the_buffer_takes_any_datagram()
    ensures
        UDP_BUF == 0xffff,
        DATAGRAM_HEADER == 4 + 2,
{
}

} // verus!
