//! Packet shapes for the modified protocol family, used by a different
//! device class; it reorders the fixed fields and adds a sequence number,
//! a command byte and (on responses) a status byte.
//!
//! Request (master to slave):
//! `SYNC, SIZE, DEST, SEQ, CMD, DATA .., CHECKSUM`.
//!
//! Response (slave to master):
//! `SYNC, SIZE, DEST, SEQ, STATUS, CMD, REPORT, DATA .., CHECKSUM`.

use vstd::prelude::*;
use vstd::slice::slice_index_get;

use crate::codec::ParseResult;
use crate::codec::lemma_parse_complete_len;
use crate::codec::parse_packet;
use crate::packet::Packet;
use crate::packet::PacketError;
use crate::packet::ReportField;
use crate::packet::zeroed_vec;
use crate::stream::ReadPacket;

verus! {

/// The fields both directions of the modified protocol add to the core
/// packet shape: a command byte and a sequence number, each at a fixed
/// offset inside the fixed header.
pub trait ModifiedPacket: Packet {
    spec fn spec_cmd_index() -> int;

    spec fn spec_sequence_index() -> int;

    /// Both added fields sit inside the fixed header.
    proof fn modified_facts()
        ensures
            1 <= Self::spec_cmd_index(),
            Self::spec_cmd_index() < Self::spec_data_begin_index(),
            1 <= Self::spec_sequence_index(),
            Self::spec_sequence_index() < Self::spec_data_begin_index(),
    ;

    fn cmd_index() -> (r: usize)
        ensures
            r as int == Self::spec_cmd_index(),
    ;

    fn sequence_index() -> (r: usize)
        ensures
            r as int == Self::spec_sequence_index(),
    ;

    /// The command byte.
    fn cmd(&self) -> (r: u8)
        requires
            self.wf(),
        ensures
            r == self.bytes()[Self::spec_cmd_index()],
    {
        proof {
            Self::layout_facts();
            Self::modified_facts();
            self.wf_facts();
        }
        *slice_index_get(self.as_bytes(), Self::cmd_index())
    }

    /// Store the command byte.
    fn set_cmd(&mut self, cmd: u8)
        requires
            old(self).wf(),
        ensures
            final(self).wf(),
            final(self).bytes() == old(self).bytes().update(Self::spec_cmd_index(), cmd),
    {
        proof {
            Self::layout_facts();
            Self::modified_facts();
            self.wf_facts();
        }
        self.set_byte(Self::cmd_index(), cmd);
    }

    /// The sequence number byte.
    fn sequence(&self) -> (r: u8)
        requires
            self.wf(),
        ensures
            r == self.bytes()[Self::spec_sequence_index()],
    {
        proof {
            Self::layout_facts();
            Self::modified_facts();
            self.wf_facts();
        }
        *slice_index_get(self.as_bytes(), Self::sequence_index())
    }

    /// Store the sequence number byte.
    fn set_sequence(&mut self, sequence: u8)
        requires
            old(self).wf(),
        ensures
            final(self).wf(),
            final(self).bytes() == old(self).bytes().update(Self::spec_sequence_index(), sequence),
    {
        proof {
            Self::layout_facts();
            Self::modified_facts();
            self.wf_facts();
        }
        self.set_byte(Self::sequence_index(), sequence);
    }
}

/// A master-to-slave packet of the modified protocol with a fixed
/// capacity of `N` bytes.
#[derive(Debug, Clone)]
pub struct RequestPacket<const N: usize> {
    inner: Vec<u8>,
}

impl<const N: usize> Packet for RequestPacket<N> {
    closed spec fn bytes(&self) -> Seq<u8> {
        self.inner@
    }

    closed spec fn wf(&self) -> bool {
        self.inner@.len() == N && N >= 6
    }

    open spec fn spec_size_index() -> int {
        1
    }

    open spec fn spec_data_begin_index() -> int {
        5
    }

    open spec fn spec_destination_index() -> int {
        2
    }

    proof fn layout_facts() {
        assert(Self::spec_size_index() == 1);
        assert(Self::spec_data_begin_index() == 5);
        assert(Self::spec_destination_index() == 2);
    }

    proof fn wf_facts(&self) {
        assert(Self::spec_data_begin_index() == 5);
        assert(self.bytes().len() == N);
    }

    fn size_index() -> usize {
        1
    }

    fn data_begin_index() -> usize {
        5
    }

    fn destination_index() -> usize {
        2
    }

    fn as_bytes(&self) -> &[u8] {
        self.inner.as_slice()
    }

    fn set_byte(&mut self, i: usize, b: u8) {
        self.inner[i] = b;
    }
}

impl<const N: usize> ModifiedPacket for RequestPacket<N> {
    open spec fn spec_cmd_index() -> int {
        4
    }

    open spec fn spec_sequence_index() -> int {
        3
    }

    proof fn modified_facts() {
        assert(Self::spec_cmd_index() == 4);
        assert(Self::spec_sequence_index() == 3);
        assert(Self::spec_data_begin_index() == 5);
    }

    fn cmd_index() -> usize {
        4
    }

    fn sequence_index() -> usize {
        3
    }
}

impl<const N: usize> RequestPacket<N> {
    /// A zero-filled buffer of capacity `N`.
    pub fn new() -> (r: Self)
        requires
            N >= 6,
        ensures
            r.wf(),
            r.bytes() == Seq::new(N as nat, |i: int| 0u8),
    {
        RequestPacket { inner: zeroed_vec(N) }
    }

    /// A buffer of capacity `N` holding `slice` verbatim as its prefix,
    /// zero elsewhere. Fails with `InvalidPacketLength` on a slice too
    /// short to be any packet, and with `BufferOverflow` on one that does
    /// not fit.
    pub fn from_slice(slice: &[u8]) -> (r: Result<Self, PacketError>)
        requires
            N >= 6,
        ensures
            match r {
                Ok(p) => 4 <= slice@.len() <= N && p.wf() && p.bytes() == slice@ + Seq::new(
                    (N - slice@.len()) as nat,
                    |i: int| 0u8,
                ),
                Err(e) => (slice@.len() < 4 && e == PacketError::InvalidPacketLength) || (
                slice@.len() > N && e == PacketError::BufferOverflow),
            },
    {
        if slice.len() < 4 {
            return Err(PacketError::InvalidPacketLength);
        }
        if slice.len() > N {
            return Err(PacketError::BufferOverflow);
        }
        let mut p = Self::new();
        let mut j: usize = 0;
        while j < slice.len()
            invariant
                p.wf(),
                p.bytes().len() == N,
                j <= slice@.len() <= N,
                forall|k: int| 0 <= k < j ==> p.bytes()[k] == slice@[k],
                forall|k: int| j <= k < N ==> p.bytes()[k] == 0u8,
            decreases slice@.len() - j,
        {
            let b = *slice_index_get(slice, j);
            p.set_byte(j, b);
            j = j + 1;
        }
        proof {
            assert(p.bytes() =~= slice@ + Seq::new((N - slice@.len()) as nat, |i: int| 0u8));
        }
        Ok(p)
    }

    /// Read one frame from `reader` into a fresh zero-filled buffer.
    pub fn from_reader<R: ReadPacket>(reader: &mut R) -> (r: Result<Self, PacketError>)
        requires
            N >= 6,
            old(reader).wf(),
        ensures
            final(reader).wf(),
            final(reader).stream() == old(reader).stream(),
            match parse_packet(
                old(reader).stream(),
                old(reader).cursor(),
                Self::spec_size_index(),
                N as int,
            ) {
                ParseResult::Fail { err, end } => r == Err::<Self, PacketError>(err) && final(reader).cursor() == end,
                ParseResult::Complete { bytes, end } => r is Ok && r->Ok_0.wf()
                    && r->Ok_0.bytes() == bytes + Seq::new((N - bytes.len()) as nat, |i: int| 0u8)
                    && final(reader).cursor() == end,
            },
    {
        proof {
            reader.wf_bounds();
            lemma_parse_complete_len(
                reader.stream(),
                reader.cursor(),
                Self::spec_size_index(),
                N as int,
            );
        }
        let mut p = Self::new();
        match reader.read_packet(&mut p) {
            Ok(_) => {
                proof {
                    let parsed = parse_packet(
                        old(reader).stream(),
                        old(reader).cursor(),
                        Self::spec_size_index(),
                        N as int,
                    );
                    if let ParseResult::Complete { bytes, end } = parsed {
                        assert(Seq::new(N as nat, |i: int| 0u8).skip(bytes.len() as int)
                            =~= Seq::new((N - bytes.len()) as nat, |i: int| 0u8));
                    }
                }
                Ok(p)
            },
            Err(e) => Err(e),
        }
    }
}

/// A slave-to-master packet of the modified protocol with a fixed
/// capacity of `N` bytes; it adds the status and report bytes.
#[derive(Debug, Clone)]
pub struct ResponsePacket<const N: usize> {
    inner: Vec<u8>,
}

impl<const N: usize> Packet for ResponsePacket<N> {
    closed spec fn bytes(&self) -> Seq<u8> {
        self.inner@
    }

    closed spec fn wf(&self) -> bool {
        self.inner@.len() == N && N >= 8
    }

    open spec fn spec_size_index() -> int {
        1
    }

    open spec fn spec_data_begin_index() -> int {
        7
    }

    open spec fn spec_destination_index() -> int {
        2
    }

    proof fn layout_facts() {
        assert(Self::spec_size_index() == 1);
        assert(Self::spec_data_begin_index() == 7);
        assert(Self::spec_destination_index() == 2);
    }

    proof fn wf_facts(&self) {
        assert(Self::spec_data_begin_index() == 7);
        assert(self.bytes().len() == N);
    }

    fn size_index() -> usize {
        1
    }

    fn data_begin_index() -> usize {
        7
    }

    fn destination_index() -> usize {
        2
    }

    fn as_bytes(&self) -> &[u8] {
        self.inner.as_slice()
    }

    fn set_byte(&mut self, i: usize, b: u8) {
        self.inner[i] = b;
    }
}

impl<const N: usize> ModifiedPacket for ResponsePacket<N> {
    open spec fn spec_cmd_index() -> int {
        5
    }

    open spec fn spec_sequence_index() -> int {
        3
    }

    proof fn modified_facts() {
        assert(Self::spec_cmd_index() == 5);
        assert(Self::spec_sequence_index() == 3);
        assert(Self::spec_data_begin_index() == 7);
    }

    fn cmd_index() -> usize {
        5
    }

    fn sequence_index() -> usize {
        3
    }
}

impl<const N: usize> ReportField for ResponsePacket<N> {
    open spec fn spec_report_index() -> int {
        6
    }

    proof fn report_facts() {
        assert(Self::spec_report_index() == 6);
        assert(Self::spec_data_begin_index() == 7);
    }

    fn report_index() -> usize {
        6
    }
}

impl<const N: usize> ResponsePacket<N> {
    /// The status byte, carried by modified-protocol responses only.
    pub fn status(&self) -> (r: u8)
        requires
            self.wf(),
        ensures
            r == self.bytes()[4],
    {
        *slice_index_get(self.as_bytes(), 4)
    }

    /// Store the status byte.
    pub fn set_status(&mut self, status: u8)
        requires
            old(self).wf(),
        ensures
            final(self).wf(),
            final(self).bytes() == old(self).bytes().update(4, status),
    {
        self.set_byte(4, status);
    }

    /// A zero-filled buffer of capacity `N`.
    pub fn new() -> (r: Self)
        requires
            N >= 8,
        ensures
            r.wf(),
            r.bytes() == Seq::new(N as nat, |i: int| 0u8),
    {
        ResponsePacket { inner: zeroed_vec(N) }
    }

    /// A buffer of capacity `N` holding `slice` verbatim as its prefix,
    /// zero elsewhere. Fails with `InvalidPacketLength` on a slice too
    /// short to be any packet, and with `BufferOverflow` on one that does
    /// not fit.
    pub fn from_slice(slice: &[u8]) -> (r: Result<Self, PacketError>)
        requires
            N >= 8,
        ensures
            match r {
                Ok(p) => 4 <= slice@.len() <= N && p.wf() && p.bytes() == slice@ + Seq::new(
                    (N - slice@.len()) as nat,
                    |i: int| 0u8,
                ),
                Err(e) => (slice@.len() < 4 && e == PacketError::InvalidPacketLength) || (
                slice@.len() > N && e == PacketError::BufferOverflow),
            },
    {
        if slice.len() < 4 {
            return Err(PacketError::InvalidPacketLength);
        }
        if slice.len() > N {
            return Err(PacketError::BufferOverflow);
        }
        let mut p = Self::new();
        let mut j: usize = 0;
        while j < slice.len()
            invariant
                p.wf(),
                p.bytes().len() == N,
                j <= slice@.len() <= N,
                forall|k: int| 0 <= k < j ==> p.bytes()[k] == slice@[k],
                forall|k: int| j <= k < N ==> p.bytes()[k] == 0u8,
            decreases slice@.len() - j,
        {
            let b = *slice_index_get(slice, j);
            p.set_byte(j, b);
            j = j + 1;
        }
        proof {
            assert(p.bytes() =~= slice@ + Seq::new((N - slice@.len()) as nat, |i: int| 0u8));
        }
        Ok(p)
    }

    /// Read one frame from `reader` into a fresh zero-filled buffer.
    pub fn from_reader<R: ReadPacket>(reader: &mut R) -> (r: Result<Self, PacketError>)
        requires
            N >= 8,
            old(reader).wf(),
        ensures
            final(reader).wf(),
            final(reader).stream() == old(reader).stream(),
            match parse_packet(
                old(reader).stream(),
                old(reader).cursor(),
                Self::spec_size_index(),
                N as int,
            ) {
                ParseResult::Fail { err, end } => r == Err::<Self, PacketError>(err) && final(reader).cursor() == end,
                ParseResult::Complete { bytes, end } => r is Ok && r->Ok_0.wf()
                    && r->Ok_0.bytes() == bytes + Seq::new((N - bytes.len()) as nat, |i: int| 0u8)
                    && final(reader).cursor() == end,
            },
    {
        proof {
            reader.wf_bounds();
            lemma_parse_complete_len(
                reader.stream(),
                reader.cursor(),
                Self::spec_size_index(),
                N as int,
            );
        }
        let mut p = Self::new();
        match reader.read_packet(&mut p) {
            Ok(_) => {
                proof {
                    let parsed = parse_packet(
                        old(reader).stream(),
                        old(reader).cursor(),
                        Self::spec_size_index(),
                        N as int,
                    );
                    if let ParseResult::Complete { bytes, end } = parsed {
                        assert(Seq::new(N as nat, |i: int| 0u8).skip(bytes.len() as int)
                            =~= Seq::new((N - bytes.len()) as nat, |i: int| 0u8));
                    }
                }
                Ok(p)
            },
            Err(e) => Err(e),
        }
    }
}

} // verus!
