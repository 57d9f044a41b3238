//! Byte streams and the framed packet reader/writer built on the escape
//! codec: reading fills a packet buffer from a byte source, writing emits
//! a buffer's logical bytes to a byte sink, both escaping everything
//! after the leading SYNC marker.

use vstd::prelude::*;
use vstd::slice::slice_index_get;

use crate::codec::ParseResult;
use crate::codec::decode_run;
use crate::codec::decode_step;
use crate::codec::emit_packet;
use crate::codec::emit_packet_with_checksum;
use crate::codec::encode_byte;
use crate::codec::encode_seq;
use crate::codec::lemma_decode_run_extend;
use crate::codec::lemma_decode_run_stuck;
use crate::codec::lemma_encode_seq_push;
use crate::codec::parse_packet;
use crate::packet::MARK_BYTE;
use crate::packet::Packet;
use crate::packet::PacketError;
use crate::packet::SYNC_BYTE;
use crate::packet::lemma_wrapping_sum_push;
use crate::packet::spec_packet_len;
use crate::packet::wrapping_sum;

verus! {

/// A byte source with a read position, the unit the packet reader works
/// on. Reading never changes the underlying stream, only the position.
pub trait ReadByteExt: Sized {
    /// The whole underlying byte stream.
    spec fn stream(&self) -> Seq<u8>;

    /// The position of the next byte to be read.
    spec fn cursor(&self) -> int;

    spec fn wf(&self) -> bool;

    proof fn wf_bounds(&self)
        requires
            self.wf(),
        ensures
            0 <= self.cursor() <= self.stream().len(),
    ;

    /// Read one raw byte.
    fn read_u8(&mut self) -> (r: Result<u8, PacketError>)
        requires
            old(self).wf(),
        ensures
            final(self).wf(),
            final(self).stream() == old(self).stream(),
            match r {
                Ok(b) => old(self).cursor() < old(self).stream().len() && b == old(self).stream()[old(self).cursor()] && final(self).cursor() == old(self).cursor() + 1,
                Err(e) => e == PacketError::TruncatedStream && old(self).cursor() == old(self).stream().len() && final(self).cursor() == old(self).cursor(),
            },
    ;

    /// Read one escape-decoded logical byte: a MARK byte makes the next
    /// byte count, raised by one.
    fn read_u8_escaped(&mut self) -> (r: Result<u8, PacketError>)
        requires
            old(self).wf(),
        ensures
            final(self).wf(),
            final(self).stream() == old(self).stream(),
            match decode_step(old(self).stream(), old(self).cursor()) {
                Some((b, q)) => r == Ok::<u8, PacketError>(b) && final(self).cursor() == q,
                None => r == Err::<u8, PacketError>(PacketError::TruncatedStream) && final(self).cursor() == old(self).stream().len(),
            },
    {
        proof {
            self.wf_bounds();
        }
        let b = match self.read_u8() {
            Ok(b) => b,
            Err(e) => {
                return Err(e);
            },
        };
        if b == MARK_BYTE {
            let b2 = match self.read_u8() {
                Ok(b2) => b2,
                Err(e) => {
                    return Err(e);
                },
            };
            Ok(b2.wrapping_add(1))
        } else {
            Ok(b)
        }
    }
}

/// A byte sink, the unit the packet writer works on. Writing only ever
/// appends.
pub trait WriteByteExt: Sized {
    /// Everything written so far.
    spec fn out(&self) -> Seq<u8>;

    /// Append one raw byte.
    fn write_u8(&mut self, b: u8)
        ensures
            final(self).out() == old(self).out().push(b),
    ;

    /// Append one logical byte through the escape codec; returns how many
    /// raw bytes that took.
    fn write_u8_escaped(&mut self, b: u8) -> (n: usize)
        ensures
            final(self).out() == old(self).out() + encode_byte(b),
            n == encode_byte(b).len(),
    {
        let ghost o0 = self.out();
        if b == SYNC_BYTE || b == MARK_BYTE {
            self.write_u8(MARK_BYTE);
            self.write_u8(b.wrapping_sub(1));
            proof {
                assert(o0.push(MARK_BYTE).push((b - 1) as u8) =~= o0 + encode_byte(b));
            }
            2
        } else {
            self.write_u8(b);
            proof {
                assert(o0.push(b) =~= o0 + encode_byte(b));
            }
            1
        }
    }
}

/// Reading whole framed packets from a byte source.
pub trait ReadPacket: ReadByteExt {
    /// Read one frame into `packet`: the raw SYNC byte, then the escaped
    /// fixed header through the SIZE byte, then the escaped tail the SIZE
    /// byte announced. Returns the logical packet length.
    ///
    /// Fails with `InvalidSync` when the first byte is no SYNC marker
    /// (consuming exactly that byte), with `TruncatedStream` when the
    /// stream ends first, and with `BufferOverflow` when the announced
    /// frame would not fit the buffer; the checksum is not validated.
    fn read_packet<P: Packet>(&mut self, packet: &mut P) -> (r: Result<usize, PacketError>)
        requires
            old(self).wf(),
            old(packet).wf(),
        ensures
            final(self).wf(),
            final(self).stream() == old(self).stream(),
            final(packet).wf(),
            final(packet).bytes().len() == old(packet).bytes().len(),
            match parse_packet(
                old(self).stream(),
                old(self).cursor(),
                P::spec_size_index(),
                old(packet).bytes().len() as int,
            ) {
                ParseResult::Fail { err, end } => r == Err::<usize, PacketError>(err) && final(self).cursor() == end && (err == PacketError::InvalidSync ==> final(packet).bytes()
                    == old(packet).bytes()),
                ParseResult::Complete { bytes, end } => r == Ok::<usize, PacketError>(
                    bytes.len() as usize,
                ) && final(self).cursor() == end && final(packet).bytes() == bytes + old(packet).bytes().skip(bytes.len() as int),
            },
    {
        proof {
            P::layout_facts();
            packet.wf_facts();
            self.wf_bounds();
        }
        let ghost s = self.stream();
        let ghost p0 = self.cursor();
        let ghost buf0 = packet.bytes();

        let sync = match self.read_u8() {
            Ok(b) => b,
            Err(e) => {
                return Err(e);
            },
        };
        if sync != SYNC_BYTE {
            return Err(PacketError::InvalidSync);
        }
        packet.set_byte(0, sync);

        let si = P::size_index();
        let cap = packet.capacity();
        let mut i: usize = 1;
        while i <= si
            invariant
                self.wf(),
                self.stream() == s,
                s == old(self).stream(),
                p0 == old(self).cursor(),
                buf0 == old(packet).bytes(),
                old(packet).wf(),
                packet.wf(),
                packet.bytes().len() == buf0.len(),
                P::spec_size_index() == si as int,
                1 <= si,
                si + 1 < cap,
                cap == buf0.len(),
                1 <= i <= si + 1,
                0 <= p0 < s.len(),
                s[p0] == SYNC_BYTE,
                decode_run(s, p0 + 1, (i - 1) as nat) == Some(
                    (packet.bytes().subrange(1, i as int), self.cursor()),
                ),
                packet.bytes()[0] == SYNC_BYTE,
                forall|k: int| i <= k < buf0.len() ==> packet.bytes()[k] == buf0[k],
            decreases si + 1 - i,
        {
            let ghost d_prev = packet.bytes().subrange(1, i as int);
            let ghost q_prev = self.cursor();
            let b = match self.read_u8_escaped() {
                Ok(b) => b,
                Err(e) => {
                    proof {
                        lemma_decode_run_stuck(
                            s,
                            p0 + 1,
                            (i - 1) as nat,
                            P::spec_size_index() as nat,
                        );
                    }
                    return Err(e);
                },
            };
            packet.set_byte(i, b);
            proof {
                lemma_decode_run_extend(s, p0 + 1, (i - 1) as nat, d_prev, q_prev, b, self.cursor());
                assert(packet.bytes().subrange(1, i + 1) =~= d_prev.push(b));
            }
            i = i + 1;
        }

        let ghost hdr = packet.bytes().subrange(1, si + 1);
        let ghost p1 = self.cursor();

        let size = packet.size();
        let size_us = size as usize;
        proof {
            assert(hdr[si - 1] == packet.bytes()[si as int]);
        }
        if si + size_us + 1 > cap {
            return Err(PacketError::BufferOverflow);
        }
        let last = si + size_us;

        while i <= last
            invariant
                self.wf(),
                self.stream() == s,
                s == old(self).stream(),
                p0 == old(self).cursor(),
                buf0 == old(packet).bytes(),
                old(packet).wf(),
                packet.wf(),
                packet.bytes().len() == buf0.len(),
                P::spec_size_index() == si as int,
                1 <= si,
                cap == buf0.len(),
                si + 1 <= i <= last + 1,
                last == si + size_us,
                size_us == size,
                last + 1 <= cap,
                0 <= p0 < s.len(),
                s[p0] == SYNC_BYTE,
                decode_run(s, p0 + 1, si as nat) == Some((hdr, p1)),
                hdr == packet.bytes().subrange(1, si + 1),
                hdr[si - 1] == size,
                decode_run(s, p1, (i - si - 1) as nat) == Some(
                    (packet.bytes().subrange(si + 1, i as int), self.cursor()),
                ),
                packet.bytes()[0] == SYNC_BYTE,
                forall|k: int| i <= k < buf0.len() ==> packet.bytes()[k] == buf0[k],
            decreases last + 1 - i,
        {
            let ghost d_prev = packet.bytes().subrange(si + 1, i as int);
            let ghost q_prev = self.cursor();
            let b = match self.read_u8_escaped() {
                Ok(b) => b,
                Err(e) => {
                    proof {
                        lemma_decode_run_stuck(s, p1, (i - si - 1) as nat, size as nat);
                    }
                    return Err(e);
                },
            };
            packet.set_byte(i, b);
            proof {
                lemma_decode_run_extend(s, p1, (i - si - 1) as nat, d_prev, q_prev, b, self.cursor());
                assert(packet.bytes().subrange(si + 1, i + 1) =~= d_prev.push(b));
                assert(packet.bytes().subrange(1, si + 1) =~= hdr);
            }
            i = i + 1;
        }

        let ghost tail = packet.bytes().subrange(si + 1, last + 1);
        proof {
            assert(packet.bytes() =~= (seq![SYNC_BYTE] + hdr + tail) + buf0.skip(last + 1));
            assert((seq![SYNC_BYTE] + hdr + tail).len() == last + 1);
        }
        Ok(last + 1)
    }
}

impl<R: ReadByteExt> ReadPacket for R {

}

/// Writing whole framed packets to a byte sink.
pub trait WritePacket: WriteByteExt {
    /// Write the frame for `packet` as stored: the raw SYNC byte, then
    /// every remaining logical byte (checksum slot included) through the
    /// escape codec. Returns how many raw bytes were written.
    ///
    /// Fails with `InvalidPacketLength` when the logical packet is too
    /// short to hold the fixed fields plus a checksum byte; nothing is
    /// written then.
    fn write_packet<P: Packet>(&mut self, packet: &P) -> (r: Result<usize, PacketError>)
        requires
            packet.wf(),
            spec_packet_len(packet.bytes(), P::spec_size_index()) <= packet.bytes().len(),
        ensures
            match r {
                Ok(n) => P::spec_data_begin_index() + 1 <= spec_packet_len(
                    packet.bytes(),
                    P::spec_size_index(),
                ) && final(self).out() == old(self).out() + emit_packet(
                    packet.bytes(),
                    P::spec_size_index(),
                ) && n == emit_packet(packet.bytes(), P::spec_size_index()).len(),
                Err(e) => e == PacketError::InvalidPacketLength && spec_packet_len(
                    packet.bytes(),
                    P::spec_size_index(),
                ) < P::spec_data_begin_index() + 1 && final(self).out() == old(self).out(),
            },
    {
        proof {
            P::layout_facts();
            packet.wf_facts();
        }
        let len = packet.len_of_packet();
        if len < P::data_begin_index() + 1 {
            return Err(PacketError::InvalidPacketLength);
        }
        let ghost o0 = self.out();
        let ghost buf = packet.bytes();
        let ghost si = P::spec_size_index();

        self.write_u8(SYNC_BYTE);
        proof {
            assert(buf.subrange(1, 1) =~= Seq::<u8>::empty());
            assert(encode_seq(Seq::<u8>::empty()) =~= Seq::<u8>::empty());
            assert(o0.push(SYNC_BYTE) =~= o0 + seq![SYNC_BYTE] + encode_seq(buf.subrange(1, 1)));
        }
        let mut n: usize = 1;
        let mut i: usize = 1;
        while i < len
            invariant
                packet.wf(),
                buf == packet.bytes(),
                o0 == old(self).out(),
                si == P::spec_size_index(),
                len as int == spec_packet_len(buf, si),
                len <= buf.len(),
                len < 512,
                1 <= i <= len,
                self.out() == o0 + seq![SYNC_BYTE] + encode_seq(buf.subrange(1, i as int)),
                n as int == 1 + encode_seq(buf.subrange(1, i as int)).len(),
                n <= 1 + 2 * (i - 1),
            decreases len - i,
        {
            let b = *slice_index_get(packet.as_bytes(), i);
            proof {
                lemma_encode_seq_push(buf.subrange(1, i as int), b);
                assert(buf.subrange(1, i + 1) =~= buf.subrange(1, i as int).push(b));
            }
            let w = self.write_u8_escaped(b);
            proof {
                assert((o0 + seq![SYNC_BYTE] + encode_seq(buf.subrange(1, i as int)))
                    + encode_byte(b) =~= o0 + seq![SYNC_BYTE] + (encode_seq(
                    buf.subrange(1, i as int),
                ) + encode_byte(b)));
            }
            n = n + w;
            i = i + 1;
        }
        proof {
            assert(o0 + seq![SYNC_BYTE] + encode_seq(buf.subrange(1, len as int)) =~= o0
                + emit_packet(buf, si));
        }
        Ok(n)
    }

    /// Write the frame for `packet`, ignoring the stored checksum byte and
    /// emitting, in its place, the wraparound sum of the body computed on
    /// the fly. Returns how many raw bytes were written.
    ///
    /// Fails with `InvalidPacketLength` exactly as `write_packet` does.
    fn write_packet_with_checksum<P: Packet>(&mut self, packet: &P) -> (r: Result<
        usize,
        PacketError,
    >)
        requires
            packet.wf(),
            spec_packet_len(packet.bytes(), P::spec_size_index()) <= packet.bytes().len(),
        ensures
            match r {
                Ok(n) => P::spec_data_begin_index() + 1 <= spec_packet_len(
                    packet.bytes(),
                    P::spec_size_index(),
                ) && final(self).out() == old(self).out() + emit_packet_with_checksum(
                    packet.bytes(),
                    P::spec_size_index(),
                ) && n == emit_packet_with_checksum(packet.bytes(), P::spec_size_index()).len(),
                Err(e) => e == PacketError::InvalidPacketLength && spec_packet_len(
                    packet.bytes(),
                    P::spec_size_index(),
                ) < P::spec_data_begin_index() + 1 && final(self).out() == old(self).out(),
            },
    {
        proof {
            P::layout_facts();
            packet.wf_facts();
        }
        let len = packet.len_of_packet();
        if len < P::data_begin_index() + 1 {
            return Err(PacketError::InvalidPacketLength);
        }
        let ghost o0 = self.out();
        let ghost buf = packet.bytes();
        let ghost si = P::spec_size_index();

        self.write_u8(SYNC_BYTE);
        proof {
            assert(buf.subrange(1, 1) =~= Seq::<u8>::empty());
            assert(encode_seq(Seq::<u8>::empty()) =~= Seq::<u8>::empty());
            assert(o0.push(SYNC_BYTE) =~= o0 + seq![SYNC_BYTE] + encode_seq(buf.subrange(1, 1)));
            assert(wrapping_sum(buf.subrange(1, 1)) == 0u8);
        }
        let mut n: usize = 1;
        let mut checksum: u8 = 0;
        let mut i: usize = 1;
        while i < len - 1
            invariant
                packet.wf(),
                buf == packet.bytes(),
                o0 == old(self).out(),
                si == P::spec_size_index(),
                len as int == spec_packet_len(buf, si),
                len <= buf.len(),
                len < 512,
                2 <= len,
                1 <= i <= len - 1,
                self.out() == o0 + seq![SYNC_BYTE] + encode_seq(buf.subrange(1, i as int)),
                n as int == 1 + encode_seq(buf.subrange(1, i as int)).len(),
                n <= 1 + 2 * (i - 1),
                checksum == wrapping_sum(buf.subrange(1, i as int)),
            decreases len - i,
        {
            let b = *slice_index_get(packet.as_bytes(), i);
            proof {
                lemma_encode_seq_push(buf.subrange(1, i as int), b);
                lemma_wrapping_sum_push(buf.subrange(1, i as int), b);
                assert(buf.subrange(1, i + 1) =~= buf.subrange(1, i as int).push(b));
            }
            let w = self.write_u8_escaped(b);
            proof {
                assert((o0 + seq![SYNC_BYTE] + encode_seq(buf.subrange(1, i as int)))
                    + encode_byte(b) =~= o0 + seq![SYNC_BYTE] + (encode_seq(
                    buf.subrange(1, i as int),
                ) + encode_byte(b)));
            }
            n = n + w;
            checksum = checksum.wrapping_add(b);
            i = i + 1;
        }
        let w = self.write_u8_escaped(checksum);
        proof {
            assert(buf.subrange(1, i as int) =~= buf.subrange(1, len - 1));
            assert((o0 + seq![SYNC_BYTE] + encode_seq(buf.subrange(1, len - 1))) + encode_byte(
                wrapping_sum(buf.subrange(1, len - 1)),
            ) =~= o0 + emit_packet_with_checksum(buf, si));
        }
        let total = n + w;
        Ok(total)
    }
}

impl<W: WriteByteExt> WritePacket for W {

}

/// An in-memory byte source: a buffer and a read position, as the packet
/// reader consumes it.
pub struct ByteReader {
    bytes: Vec<u8>,
    pos: usize,
}

impl ByteReader {
    /// A reader over `bytes`, positioned at the start.
    pub fn new(bytes: Vec<u8>) -> (r: ByteReader)
        ensures
            r.wf(),
            r.stream() == bytes@,
            r.cursor() == 0,
    {
        ByteReader { bytes, pos: 0 }
    }

    /// How many bytes have been consumed.
    pub fn position(&self) -> (r: usize)
        ensures
            r as int == self.cursor(),
    {
        self.pos
    }

    /// The underlying buffer, returned as it was handed in.
    pub fn into_inner(self) -> (r: Vec<u8>)
        ensures
            r@ == self.stream(),
    {
        self.bytes
    }
}

impl ReadByteExt for ByteReader {
    closed spec fn stream(&self) -> Seq<u8> {
        self.bytes@
    }

    closed spec fn cursor(&self) -> int {
        self.pos as int
    }

    closed spec fn wf(&self) -> bool {
        self.pos <= self.bytes@.len()
    }

    proof fn wf_bounds(&self) {
    }

    fn read_u8(&mut self) -> (r: Result<u8, PacketError>) {
        if self.pos < self.bytes.len() {
            let b = self.bytes[self.pos];
            self.pos = self.pos + 1;
            Ok(b)
        } else {
            Err(PacketError::TruncatedStream)
        }
    }
}

/// An in-memory byte sink that the packet writer appends to.
pub struct ByteWriter {
    bytes: Vec<u8>,
}

impl ByteWriter {
    /// An empty sink.
    pub fn new() -> (r: ByteWriter)
        ensures
            r.out() == Seq::<u8>::empty(),
    {
        ByteWriter { bytes: Vec::new() }
    }

    /// Everything written, in order.
    pub fn into_inner(self) -> (r: Vec<u8>)
        ensures
            r@ == self.out(),
    {
        self.bytes
    }
}

impl WriteByteExt for ByteWriter {
    closed spec fn out(&self) -> Seq<u8> {
        self.bytes@
    }

    fn write_u8(&mut self, b: u8) {
        self.bytes.push(b);
    }
}

} // verus!
