//! The escape (byte-stuffing) codec and the frame grammar built on it.
//!
//! Two byte values are reserved on the wire: the SYNC marker that starts
//! every frame and the MARK byte that escapes literal occurrences of
//! either. These spec functions give the exact wire encoding, the decoder
//! over a raw byte stream, and the shape of a whole framed packet; the
//! lemmas establish that decoding inverts encoding.

use vstd::prelude::*;

use crate::packet::MARK_BYTE;
use crate::packet::PacketError;
use crate::packet::SYNC_BYTE;
use crate::packet::spec_packet_len;
use crate::packet::wrapping_sum;

verus! {

/// True of the byte values that must be escaped inside a frame's body.
pub open spec fn escapes(b: u8) -> bool {
    b == SYNC_BYTE || b == MARK_BYTE
}

/// The wire encoding of one logical byte: reserved values become a MARK
/// byte followed by the value less one; every other byte passes through.
pub open spec fn encode_byte(b: u8) -> Seq<u8> {
    if escapes(b) {
        seq![MARK_BYTE, (b - 1) as u8]
    } else {
        seq![b]
    }
}

/// The wire encoding of a logical byte sequence.
pub open spec fn encode_seq(s: Seq<u8>) -> Seq<u8>
    decreases s.len(),
{
    if s.len() == 0 {
        seq![]
    } else {
        encode_byte(s[0]) + encode_seq(s.skip(1))
    }
}

/// Decode one logical byte of `s` at position `p`: a MARK byte starts an
/// escaped pair, any other byte stands for itself. `None` when the stream
/// ends first.
pub open spec fn decode_step(s: Seq<u8>, p: int) -> Option<(u8, int)> {
    if !(0 <= p < s.len()) {
        None
    } else if s[p] == MARK_BYTE {
        if p + 1 < s.len() {
            Some(((((s[p + 1] + 1) % 256) as u8, p + 2)))
        } else {
            None
        }
    } else {
        Some((s[p], p + 1))
    }
}

/// Decode `n` logical bytes of `s` starting at position `p`.
pub open spec fn decode_run(s: Seq<u8>, p: int, n: nat) -> Option<(Seq<u8>, int)>
    decreases n,
{
    if n == 0 {
        Some((seq![], p))
    } else {
        match decode_step(s, p) {
            None => None,
            Some((b, q)) => match decode_run(s, q, (n - 1) as nat) {
                None => None,
                Some((d, r)) => Some((seq![b] + d, r)),
            },
        }
    }
}

/// A decoded run yields exactly `n` bytes and moves the position forward,
/// never past the end of the stream.
pub proof fn lemma_decode_run_bounds(s: Seq<u8>, p: int, n: nat)
    requires
        p <= s.len(),
        decode_run(s, p, n) is Some,
    ensures
        decode_run(s, p, n)->Some_0.0.len() == n,
        p <= decode_run(s, p, n)->Some_0.1 <= s.len(),
    decreases n,
{
    if n != 0 {
        let (b, q) = decode_step(s, p)->Some_0;
        lemma_decode_run_bounds(s, q, (n - 1) as nat);
    }
}

/// A successful run followed by one more decodable byte extends to a
/// successful run of one more byte.
pub proof fn lemma_decode_run_extend(
    s: Seq<u8>,
    p: int,
    n: nat,
    d: Seq<u8>,
    q: int,
    b: u8,
    q2: int,
)
    requires
        decode_run(s, p, n) == Some((d, q)),
        decode_step(s, q) == Some((b, q2)),
    ensures
        decode_run(s, p, (n + 1) as nat) == Some((d.push(b), q2)),
    decreases n,
{
    if n == 0 {
        assert(decode_run(s, q2, 0) == Some((Seq::<u8>::empty(), q2)));
        assert(seq![b] + seq![] =~= seq![].push(b));
        assert(d =~= seq![]);
    } else {
        let (b0, q0) = decode_step(s, p)->Some_0;
        let (d0, _r0) = decode_run(s, q0, (n - 1) as nat)->Some_0;
        lemma_decode_run_extend(s, q0, (n - 1) as nat, d0, q, b, q2);
        assert(seq![b0] + d0.push(b) =~= (seq![b0] + d0).push(b));
        assert(d =~= seq![b0] + d0);
    }
}

/// Once decoding is stuck, every longer run fails too.
pub proof fn lemma_decode_run_stuck(s: Seq<u8>, p: int, n: nat, m: nat)
    requires
        decode_run(s, p, n) is Some,
        decode_step(s, decode_run(s, p, n)->Some_0.1) is None,
        n < m,
    ensures
        decode_run(s, p, m) is None,
    decreases n,
{
    if n == 0 {
        let q = decode_run(s, p, n)->Some_0.1;
        assert(q == p);
        assert(decode_run(s, p, m) is None);
    } else {
        let (b0, q0) = decode_step(s, p)->Some_0;
        lemma_decode_run_stuck(s, q0, (n - 1) as nat, (m - 1) as nat);
    }
}

/// Encoding distributes over concatenation.
pub proof fn lemma_encode_seq_concat(a: Seq<u8>, b: Seq<u8>)
    ensures
        encode_seq(a + b) == encode_seq(a) + encode_seq(b),
    decreases a.len(),
{
    if a.len() == 0 {
        assert(a + b =~= b);
        assert(encode_seq(a) + encode_seq(b) =~= encode_seq(b));
    } else {
        assert((a + b).skip(1) =~= a.skip(1) + b);
        lemma_encode_seq_concat(a.skip(1), b);
        assert(encode_seq(a + b) =~= encode_seq(a) + encode_seq(b));
    }
}

/// Encoding one more byte appends its encoding.
pub proof fn lemma_encode_seq_push(s: Seq<u8>, b: u8)
    ensures
        encode_seq(s.push(b)) == encode_seq(s) + encode_byte(b),
{
    assert(s.push(b) =~= s + seq![b]);
    lemma_encode_seq_concat(s, seq![b]);
    assert(seq![b].skip(1) =~= Seq::<u8>::empty());
    assert(encode_seq(Seq::<u8>::empty()) == Seq::<u8>::empty());
    assert(encode_seq(seq![b]) == encode_byte(b) + encode_seq(seq![b].skip(1)));
    assert(encode_byte(b) + Seq::<u8>::empty() =~= encode_byte(b));
}

/// A single encoded byte decodes back to itself.
pub proof fn lemma_decode_step_encoded(t: Seq<u8>, p: int, b: u8)
    requires
        0 <= p,
        p + encode_byte(b).len() <= t.len(),
        t.subrange(p, p + encode_byte(b).len()) == encode_byte(b),
    ensures
        decode_step(t, p) == Some((b, p + encode_byte(b).len())),
{
    if escapes(b) {
        assert(t[p] == encode_byte(b)[0]);
        assert(t[p + 1] == encode_byte(b)[1]);
        assert(t[p] == MARK_BYTE);
        assert(t[p + 1] == (b - 1) as u8);
        assert((((b - 1) as u8 + 1) % 256) as u8 == b);
    } else {
        assert(t[p] == encode_byte(b)[0]);
        assert(t[p] == b);
        assert(t[p] != MARK_BYTE);
    }
}

/// An encoded sequence embedded in a stream decodes back to itself.
pub proof fn lemma_decode_run_encoded(t: Seq<u8>, p: int, s: Seq<u8>)
    requires
        0 <= p,
        p + encode_seq(s).len() <= t.len(),
        t.subrange(p, p + encode_seq(s).len()) == encode_seq(s),
    ensures
        decode_run(t, p, s.len()) == Some((s, p + encode_seq(s).len())),
    decreases s.len(),
{
    if s.len() == 0 {
        assert(s =~= seq![]);
    } else {
        let head = encode_byte(s[0]);
        let rest = encode_seq(s.skip(1));
        assert(encode_seq(s) == head + rest);
        assert(t.subrange(p, p + head.len()) =~= head);
        lemma_decode_step_encoded(t, p, s[0]);
        let p1 = p + head.len();
        assert forall|i: int| 0 <= i < rest.len() implies t[p1 + i] == rest[i] by {
            assert(t.subrange(p, p + encode_seq(s).len())[head.len() + i] == encode_seq(s)[
                head.len() + i
            ]);
            assert(encode_seq(s)[head.len() + i] == rest[i]);
        }
        assert(t.subrange(p1, p1 + rest.len()) =~= rest);
        lemma_decode_run_encoded(t, p1, s.skip(1));
        assert(seq![s[0]] + s.skip(1) =~= s);
    }
}

/// Escape round trip for one byte: decoding its encoding returns it.
pub proof fn lemma_escape_byte_round_trip(b: u8)
    ensures
        decode_step(encode_byte(b), 0) == Some((b, encode_byte(b).len() as int)),
{
    assert(encode_byte(b).subrange(0, encode_byte(b).len() as int) =~= encode_byte(b));
    lemma_decode_step_encoded(encode_byte(b), 0, b);
}

/// Escape round trip for a whole sequence: decoding an encoded stream
/// returns the original bytes and consumes the stream exactly.
pub proof fn lemma_escape_stream_round_trip(s: Seq<u8>)
    ensures
        decode_run(encode_seq(s), 0, s.len()) == Some((s, encode_seq(s).len() as int)),
{
    assert(encode_seq(s).subrange(0, encode_seq(s).len() as int) =~= encode_seq(s));
    lemma_decode_run_encoded(encode_seq(s), 0, s);
}

/// The SYNC marker never appears inside an encoded body, so it marks
/// frame starts unambiguously.
pub proof fn lemma_encoded_no_sync(s: Seq<u8>)
    ensures
        forall|i: int| 0 <= i < encode_seq(s).len() ==> encode_seq(s)[i] != SYNC_BYTE,
    decreases s.len(),
{
    if s.len() != 0 {
        lemma_encoded_no_sync(s.skip(1));
        assert forall|i: int| 0 <= i < encode_seq(s).len() implies encode_seq(s)[i]
            != SYNC_BYTE by {
            let head = encode_byte(s[0]);
            if i >= head.len() {
                assert(encode_seq(s)[i] == encode_seq(s.skip(1))[i - head.len()]);
            }
        }
    }
}

/// How a reader consumes one frame from stream `s` at position `p`, for a
/// packet shape whose SIZE byte sits at offset `si`, into a buffer of
/// capacity `cap`: the raw SYNC byte, then the escaped fixed header
/// through the SIZE byte, then the escaped tail whose length the SIZE
/// byte gave.
pub enum ParseResult {
    /// The frame was rejected; `end` is the stream position afterwards.
    Fail { err: PacketError, end: int },
    /// A whole frame: its logical bytes and the stream position after it.
    Complete { bytes: Seq<u8>, end: int },
}

pub open spec fn parse_packet(s: Seq<u8>, p: int, si: int, cap: int) -> ParseResult
    recommends
        0 <= p <= s.len(),
        1 <= si,
{
    if p >= s.len() {
        ParseResult::Fail { err: PacketError::TruncatedStream, end: p }
    } else if s[p] != SYNC_BYTE {
        ParseResult::Fail { err: PacketError::InvalidSync, end: p + 1 }
    } else {
        match decode_run(s, p + 1, si as nat) {
            None => ParseResult::Fail {
                err: PacketError::TruncatedStream,
                end: s.len() as int,
            },
            Some((hdr, p1)) => {
                let size = hdr[si - 1] as int;
                if si + size + 1 > cap {
                    ParseResult::Fail { err: PacketError::BufferOverflow, end: p1 }
                } else {
                    match decode_run(s, p1, size as nat) {
                        None => ParseResult::Fail {
                            err: PacketError::TruncatedStream,
                            end: s.len() as int,
                        },
                        Some((tail, p2)) => ParseResult::Complete {
                            bytes: seq![SYNC_BYTE] + hdr + tail,
                            end: p2,
                        },
                    }
                }
            },
        }
    }
}

/// A completely parsed frame holds at least the fixed header and fits the
/// buffer it was parsed for, and parsing never runs past the stream.
pub proof fn lemma_parse_complete_len(s: Seq<u8>, p: int, si: int, cap: int)
    requires
        0 <= p <= s.len(),
        1 <= si,
    ensures
        parse_packet(s, p, si, cap) matches ParseResult::Complete { bytes, end } ==> 1 + si
            <= bytes.len() <= cap && p <= end <= s.len(),
{
    if parse_packet(s, p, si, cap) is Complete {
        let hr = decode_run(s, p + 1, si as nat);
        let (hdr, p1) = hr->Some_0;
        lemma_decode_run_bounds(s, p + 1, si as nat);
        let size = hdr[si - 1] as int;
        lemma_decode_run_bounds(s, p1, size as nat);
    }
}

/// The wire image of a packet buffer: the raw SYNC byte, then the whole
/// logical body (checksum slot included) through the escape codec.
pub open spec fn emit_packet(buf: Seq<u8>, si: int) -> Seq<u8> {
    seq![SYNC_BYTE] + encode_seq(buf.subrange(1, spec_packet_len(buf, si)))
}

/// The wire image of a packet buffer with the checksum computed on the
/// fly: the stored checksum byte is ignored and the wraparound sum of the
/// body is emitted in its place.
pub open spec fn emit_packet_with_checksum(buf: Seq<u8>, si: int) -> Seq<u8> {
    seq![SYNC_BYTE] + encode_seq(buf.subrange(1, spec_packet_len(buf, si) - 1))
        + encode_byte(wrapping_sum(buf.subrange(1, spec_packet_len(buf, si) - 1)))
}

/// Read/write round trip: a frame written with the on-the-fly checksum
/// parses back into the original logical packet, except that its checksum
/// slot now holds the computed sum, and consumes the whole frame.
pub proof fn lemma_write_read_round_trip(buf: Seq<u8>, si: int, cap: int)
    requires
        1 <= si,
        si + 2 <= spec_packet_len(buf, si),
        spec_packet_len(buf, si) <= buf.len(),
        spec_packet_len(buf, si) <= cap,
        buf[0] == SYNC_BYTE,
    ensures
        parse_packet(emit_packet_with_checksum(buf, si), 0, si, cap)
            == (ParseResult::Complete {
            bytes: buf.subrange(0, spec_packet_len(buf, si)).update(
                spec_packet_len(buf, si) - 1,
                wrapping_sum(buf.subrange(1, spec_packet_len(buf, si) - 1)),
            ),
            end: emit_packet_with_checksum(buf, si).len() as int,
        }),
{
    let len = spec_packet_len(buf, si);
    let body = buf.subrange(1, len - 1);
    let cs = wrapping_sum(body);
    let whole = body.push(cs);
    let t = emit_packet_with_checksum(buf, si);

    lemma_encode_seq_push(body, cs);
    assert(t =~= seq![SYNC_BYTE] + encode_seq(whole));
    assert(t[0] == SYNC_BYTE);

    let hdr = whole.subrange(0, si);
    let rest = whole.subrange(si as int, whole.len() as int);
    assert(whole =~= hdr + rest);
    lemma_encode_seq_concat(hdr, rest);

    let ehdr = encode_seq(hdr);
    let erest = encode_seq(rest);
    assert(t.subrange(1, 1 + ehdr.len() as int) =~= ehdr);
    lemma_decode_run_encoded(t, 1, hdr);
    let p1: int = 1 + ehdr.len() as int;

    assert(hdr[si - 1] == whole[si - 1]);
    assert(whole[si - 1] == body[si - 1]);
    assert(body[si - 1] == buf[si]);
    assert(rest.len() == buf[si]);

    assert(t.subrange(p1, p1 + erest.len() as int) =~= erest);
    lemma_decode_run_encoded(t, p1, rest);

    assert(seq![SYNC_BYTE] + hdr + rest =~= buf.subrange(0, len).update(len - 1, cs));
    assert(p1 + erest.len() as int == t.len() as int);
}

} // verus!
