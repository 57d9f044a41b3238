//! The packet-buffer abstraction: a fixed-capacity byte buffer whose
//! meaningful prefix (the logical packet) is addressed through a per-type
//! field layout.

use vstd::prelude::*;
use vstd::slice::slice_index_get;
use vstd::slice::slice_subrange;

verus! {

/// SYNC byte: fixed marker starting every frame; never escaped.
pub const SYNC_BYTE: u8 = 0xE0;

/// MARK byte: escape marker used to encode literal occurrences of
/// [`SYNC_BYTE`] and [`MARK_BYTE`] inside a frame's body.
pub const MARK_BYTE: u8 = 0xD0;

/// Failures surfaced by the codec.
#[derive(Debug, Clone, Copy, PartialEq, Eq, Structural)]
pub enum PacketError {
    /// The first raw byte of a frame was not [`SYNC_BYTE`].
    InvalidSync,
    /// The byte source ended before a frame was fully read.
    TruncatedStream,
    /// A declared logical length is too small to hold the mandatory
    /// fields plus the checksum byte.
    InvalidPacketLength,
    /// Data assigned to a buffer would not fit its capacity.
    BufferOverflow,
}

/// Report code carried by response packets, decoded from one byte.
#[derive(Debug, Clone, PartialEq, Eq, Structural)]
pub enum Report {
    /// The request was processed successfully.
    Normal,
    /// An incorrect number of parameters was sent.
    IncorrectDataSize,
    /// Incorrect data was sent.
    InvalidData,
    /// The device I/O is busy.
    Busy,
    /// Any other report code.
    Unknown,
}

/// The report code a raw byte decodes to.
pub open spec fn report_of(b: u8) -> Report {
    if b == 1 {
        Report::Normal
    } else if b == 2 {
        Report::IncorrectDataSize
    } else if b == 3 {
        Report::InvalidData
    } else if b == 4 {
        Report::Busy
    } else {
        Report::Unknown
    }
}

impl Report {
    /// Decode one report byte.
    pub fn from_u8(value: u8) -> (r: Report)
        ensures
            r == report_of(value),
    {
        if value == 1 {
            Report::Normal
        } else if value == 2 {
            Report::IncorrectDataSize
        } else if value == 3 {
            Report::InvalidData
        } else if value == 4 {
            Report::Busy
        } else {
            Report::Unknown
        }
    }
}

/// Length of the logical packet held in `buf`: the SIZE byte counts the
/// bytes from just after itself through the checksum inclusive.
pub open spec fn spec_packet_len(buf: Seq<u8>, size_index: int) -> int
    recommends
        0 <= size_index < buf.len(),
{
    size_index + buf[size_index] + 1
}

/// 8-bit wraparound sum of a byte sequence.
pub open spec fn wrapping_sum(s: Seq<u8>) -> u8
    decreases s.len(),
{
    if s.len() == 0 {
        0u8
    } else {
        ((wrapping_sum(s.drop_last()) + s.last()) % 256) as u8
    }
}

pub proof fn lemma_wrapping_sum_push(s: Seq<u8>, b: u8)
    ensures
        wrapping_sum(s.push(b)) == ((wrapping_sum(s) + b) % 256) as u8,
{
    assert(s.push(b).drop_last() =~= s);
    assert(s.push(b).last() == b);
}

/// Checksum correctness: after the checksum slot of a buffer is filled
/// with the wraparound sum of the body (every logical byte after SYNC and
/// before the slot), as `calculate_checksum` fills it, the packet length
/// is unchanged and reading the checksum slot back yields exactly the
/// wraparound sum of the unchanged body.
pub proof fn lemma_calculate_checksum_correct(buf: Seq<u8>, si: int)
    requires
        0 <= si < buf.len(),
        si + 2 <= spec_packet_len(buf, si),
        spec_packet_len(buf, si) <= buf.len(),
    ensures
        ({
            let len = spec_packet_len(buf, si);
            let filled = buf.update(len - 1, wrapping_sum(buf.subrange(1, len - 1)));
            &&& spec_packet_len(filled, si) == len
            &&& filled[spec_packet_len(filled, si) - 1] == wrapping_sum(
                filled.subrange(1, spec_packet_len(filled, si) - 1),
            )
        }),
{
    let len = spec_packet_len(buf, si);
    let filled = buf.update(len - 1, wrapping_sum(buf.subrange(1, len - 1)));
    assert(filled[si] == buf[si]);
    assert(filled.subrange(1, len - 1) =~= buf.subrange(1, len - 1));
}

/// `buf` with the range starting at `at` replaced by `d`.
pub open spec fn spec_with_range(buf: Seq<u8>, at: int, d: Seq<u8>) -> Seq<u8>
    recommends
        0 <= at,
        at + d.len() <= buf.len(),
{
    buf.subrange(0, at) + d + buf.subrange(at + d.len(), buf.len() as int)
}

/// A zero-filled byte buffer of length `n`.
pub(crate) fn zeroed_vec(n: usize) -> (v: Vec<u8>)
    ensures
        v@ == Seq::new(n as nat, |i: int| 0u8),
{
    let mut v: Vec<u8> = Vec::new();
    while v.len() < n
        invariant
            v@.len() <= n,
            forall|k: int| 0 <= k < v@.len() ==> v@[k] == 0u8,
        decreases n - v@.len(),
    {
        v.push(0u8);
    }
    proof {
        assert(v@ =~= Seq::new(n as nat, |i: int| 0u8));
    }
    v
}

/// A fixed-capacity byte buffer with a per-type field layout.
///
/// The three layout offsets locate the SIZE, first DATA and DESTINATION
/// bytes; every accessor is derived from them. A buffer never changes its
/// length, and only the logical prefix of `spec_packet_len` bytes is
/// meaningful.
pub trait Packet: Sized {
    /// The full backing buffer.
    spec fn bytes(&self) -> Seq<u8>;

    /// Well-formed buffers keep the capacity they were created with.
    spec fn wf(&self) -> bool;

    spec fn spec_size_index() -> int;

    spec fn spec_data_begin_index() -> int;

    spec fn spec_destination_index() -> int;

    /// Layout constraints every packet shape obeys: SYNC sits at offset 0,
    /// all fixed fields come before the data region, and the fixed header
    /// is short enough that length arithmetic cannot overflow.
    proof fn layout_facts()
        ensures
            1 <= Self::spec_size_index(),
            1 <= Self::spec_destination_index(),
            Self::spec_size_index() < Self::spec_data_begin_index(),
            Self::spec_destination_index() < Self::spec_data_begin_index(),
            Self::spec_data_begin_index() < 256,
    ;

    /// A well-formed buffer has room for the mandatory fields plus the
    /// checksum byte.
    proof fn wf_facts(&self)
        requires
            self.wf(),
        ensures
            Self::spec_data_begin_index() + 1 <= self.bytes().len(),
    ;

    fn size_index() -> (r: usize)
        ensures
            r as int == Self::spec_size_index(),
    ;

    fn data_begin_index() -> (r: usize)
        ensures
            r as int == Self::spec_data_begin_index(),
    ;

    fn destination_index() -> (r: usize)
        ensures
            r as int == Self::spec_destination_index(),
    ;

    /// Read access to the whole backing buffer.
    fn as_bytes(&self) -> (r: &[u8])
        ensures
            r@ == self.bytes(),
    ;

    /// Overwrite one byte of the backing buffer.
    fn set_byte(&mut self, i: usize, b: u8)
        requires
            old(self).wf(),
            i < old(self).bytes().len(),
        ensures
            final(self).wf(),
            final(self).bytes() == old(self).bytes().update(i as int, b),
    ;

    /// The buffer capacity.
    fn capacity(&self) -> (r: usize)
        ensures
            r == self.bytes().len(),
    {
        self.as_bytes().len()
    }

    /// The length of the logical packet, derived from the SIZE byte.
    fn len_of_packet(&self) -> (r: usize)
        requires
            self.wf(),
        ensures
            r as int == spec_packet_len(self.bytes(), Self::spec_size_index()),
    {
        proof {
            Self::layout_facts();
            self.wf_facts();
        }
        let si = Self::size_index();
        let b = *slice_index_get(self.as_bytes(), si);
        si + b as usize + 1
    }

    /// The logical packet: the buffer prefix through the checksum byte.
    fn as_slice(&self) -> (r: &[u8])
        requires
            self.wf(),
            spec_packet_len(self.bytes(), Self::spec_size_index()) <= self.bytes().len(),
        ensures
            r@ == self.bytes().subrange(
                0,
                spec_packet_len(self.bytes(), Self::spec_size_index()),
            ),
    {
        let len = self.len_of_packet();
        slice_subrange(self.as_bytes(), 0, len)
    }

    /// The first byte of the buffer, where the SYNC marker lives.
    fn sync(&self) -> (r: u8)
        requires
            self.wf(),
        ensures
            r == self.bytes()[0],
    {
        proof {
            Self::layout_facts();
            self.wf_facts();
        }
        *slice_index_get(self.as_bytes(), 0)
    }

    /// Stamp the fixed SYNC marker at offset 0.
    fn set_sync(&mut self)
        requires
            old(self).wf(),
        ensures
            final(self).wf(),
            final(self).bytes() == old(self).bytes().update(0, SYNC_BYTE),
    {
        proof {
            Self::layout_facts();
            self.wf_facts();
        }
        self.set_byte(0, SYNC_BYTE);
    }

    /// The raw SIZE byte.
    fn size(&self) -> (r: u8)
        requires
            self.wf(),
        ensures
            r == self.bytes()[Self::spec_size_index()],
    {
        proof {
            Self::layout_facts();
            self.wf_facts();
        }
        *slice_index_get(self.as_bytes(), Self::size_index())
    }

    /// Store a raw SIZE byte. Low-level: bypasses the data-length
    /// consistency that [`Packet::set_data`] maintains.
    fn set_size(&mut self, size: u8)
        requires
            old(self).wf(),
        ensures
            final(self).wf(),
            final(self).bytes() == old(self).bytes().update(Self::spec_size_index(), size),
    {
        proof {
            Self::layout_facts();
            self.wf_facts();
        }
        self.set_byte(Self::size_index(), size);
    }

    /// The destination address byte.
    fn dest(&self) -> (r: u8)
        requires
            self.wf(),
        ensures
            r == self.bytes()[Self::spec_destination_index()],
    {
        proof {
            Self::layout_facts();
            self.wf_facts();
        }
        *slice_index_get(self.as_bytes(), Self::destination_index())
    }

    /// Store the destination address byte.
    fn set_dest(&mut self, dest: u8)
        requires
            old(self).wf(),
        ensures
            final(self).wf(),
            final(self).bytes() == old(self).bytes().update(Self::spec_destination_index(), dest),
    {
        proof {
            Self::layout_facts();
            self.wf_facts();
        }
        self.set_byte(Self::destination_index(), dest);
    }

    /// The data region: the logical packet between the fixed fields and
    /// the checksum byte.
    fn data(&self) -> (r: &[u8])
        requires
            self.wf(),
            Self::spec_data_begin_index() + 1 <= spec_packet_len(
                self.bytes(),
                Self::spec_size_index(),
            ),
            spec_packet_len(self.bytes(), Self::spec_size_index()) <= self.bytes().len(),
        ensures
            r@ == self.bytes().subrange(
                Self::spec_data_begin_index(),
                spec_packet_len(self.bytes(), Self::spec_size_index()) - 1,
            ),
    {
        let len = self.len_of_packet();
        slice_subrange(self.as_bytes(), Self::data_begin_index(), len - 1)
    }

    /// Copy `data` into the data region and store the SIZE byte that makes
    /// the packet end right after it (leaving one checksum slot).
    ///
    /// Fails with [`PacketError::BufferOverflow`] when the data would not
    /// fit the buffer, or when the resulting SIZE does not fit one byte;
    /// the buffer is unchanged then.
    fn set_data(&mut self, data: &[u8]) -> (r: Result<(), PacketError>)
        requires
            old(self).wf(),
        ensures
            final(self).wf(),
            match r {
                Ok(()) => {
                    &&& Self::spec_data_begin_index() + data@.len() <= old(self).bytes().len()
                    &&& Self::spec_data_begin_index() + data@.len() - Self::spec_size_index()
                        <= 255
                    &&& final(self).bytes() == spec_with_range(
                        old(self).bytes(),
                        Self::spec_data_begin_index(),
                        data@,
                    ).update(
                        Self::spec_size_index(),
                        (Self::spec_data_begin_index() + data@.len()
                            - Self::spec_size_index()) as u8,
                    )
                    &&& final(self).bytes()[Self::spec_size_index()] as int
                        == Self::spec_data_begin_index() + data@.len()
                        - Self::spec_size_index()
                    &&& final(self).bytes().subrange(
                        Self::spec_data_begin_index(),
                        Self::spec_data_begin_index() + data@.len() as int,
                    ) == data@
                },
                Err(e) => {
                    &&& e == PacketError::BufferOverflow
                    &&& (Self::spec_data_begin_index() + data@.len() > old(self).bytes().len()
                        || Self::spec_data_begin_index() + data@.len()
                            - Self::spec_size_index() > 255)
                    &&& final(self).bytes() == old(self).bytes()
                },
            },
    {
        proof {
            Self::layout_facts();
            self.wf_facts();
        }
        let dbi = Self::data_begin_index();
        let si = Self::size_index();
        let cap = self.capacity();
        if data.len() > cap - dbi {
            return Err(PacketError::BufferOverflow);
        }
        let size = dbi - si + data.len();
        if size > 255 {
            return Err(PacketError::BufferOverflow);
        }
        let ghost buf0 = self.bytes();
        let mut j: usize = 0;
        while j < data.len()
            invariant
                self.wf(),
                Self::spec_size_index() == si as int,
                Self::spec_data_begin_index() == dbi as int,
                j <= data@.len(),
                dbi + data@.len() <= cap,
                cap == self.bytes().len(),
                dbi + data@.len() <= buf0.len(),
                self.bytes().len() == buf0.len(),
                forall|k: int|
                    0 <= k < j ==> self.bytes()[dbi + k] == data@[k],
                forall|k: int|
                    0 <= k < buf0.len() && !(dbi <= k < dbi + j) ==> self.bytes()[k] == buf0[k],
            decreases data@.len() - j,
        {
            let b = *slice_index_get(data, j);
            self.set_byte(dbi + j, b);
            j = j + 1;
        }
        self.set_byte(si, size as u8);
        proof {
            assert(self.bytes() =~= spec_with_range(buf0, dbi as int, data@).update(
                si as int,
                (dbi + data@.len() - si) as u8,
            ));
            assert(self.bytes().subrange(dbi as int, dbi + data@.len() as int) =~= data@);
        }
        Ok(())
    }

    /// Store, in the checksum slot, the wraparound sum of every logical
    /// byte after SYNC and before the checksum slot itself.
    fn calculate_checksum(&mut self)
        requires
            old(self).wf(),
            spec_packet_len(old(self).bytes(), Self::spec_size_index()) <= old(
                self,
            ).bytes().len(),
        ensures
            final(self).wf(),
            final(self).bytes() == old(self).bytes().update(
                spec_packet_len(old(self).bytes(), Self::spec_size_index()) - 1,
                wrapping_sum(
                    old(self).bytes().subrange(
                        1,
                        spec_packet_len(old(self).bytes(), Self::spec_size_index()) - 1,
                    ),
                ),
            ),
    {
        proof {
            Self::layout_facts();
            self.wf_facts();
        }
        let len = self.len_of_packet();
        let mut acc: u8 = 0;
        let mut i: usize = 1;
        while i < len - 1
            invariant
                self.wf(),
                1 <= i <= len - 1,
                len as int == spec_packet_len(self.bytes(), Self::spec_size_index()),
                len <= self.bytes().len(),
                acc == wrapping_sum(self.bytes().subrange(1, i as int)),
            decreases len - i,
        {
            let b = *slice_index_get(self.as_bytes(), i);
            proof {
                lemma_wrapping_sum_push(self.bytes().subrange(1, i as int), b);
                assert(self.bytes().subrange(1, i + 1) =~= self.bytes().subrange(
                    1,
                    i as int,
                ).push(b));
            }
            acc = acc.wrapping_add(b);
            i = i + 1;
        }
        proof {
            assert(self.bytes().subrange(1, i as int) =~= self.bytes().subrange(
                1,
                spec_packet_len(self.bytes(), Self::spec_size_index()) - 1,
            ));
        }
        self.set_checksum(acc);
    }

    /// The checksum byte: the last byte of the logical packet.
    fn checksum(&self) -> (r: u8)
        requires
            self.wf(),
            spec_packet_len(self.bytes(), Self::spec_size_index()) <= self.bytes().len(),
        ensures
            r == self.bytes()[spec_packet_len(self.bytes(), Self::spec_size_index()) - 1],
    {
        proof {
            Self::layout_facts();
            self.wf_facts();
        }
        let len = self.len_of_packet();
        *slice_index_get(self.as_bytes(), len - 1)
    }

    /// Store a checksum byte in the last slot of the logical packet.
    /// Low-level: [`Packet::calculate_checksum`] computes the sum itself.
    fn set_checksum(&mut self, checksum: u8)
        requires
            old(self).wf(),
            spec_packet_len(old(self).bytes(), Self::spec_size_index()) <= old(
                self,
            ).bytes().len(),
        ensures
            final(self).wf(),
            final(self).bytes() == old(self).bytes().update(
                spec_packet_len(old(self).bytes(), Self::spec_size_index()) - 1,
                checksum,
            ),
    {
        proof {
            Self::layout_facts();
            self.wf_facts();
        }
        let len = self.len_of_packet();
        self.set_byte(len - 1, checksum);
    }
}

/// Response packets carry a report code at a fixed offset before the data
/// region.
pub trait ReportField: Packet {
    spec fn spec_report_index() -> int;

    /// The report byte is one of the fixed fields.
    proof fn report_facts()
        ensures
            1 <= Self::spec_report_index(),
            Self::spec_report_index() < Self::spec_data_begin_index(),
    ;

    fn report_index() -> (r: usize)
        ensures
            r as int == Self::spec_report_index(),
    ;

    /// The raw report byte.
    fn report_raw(&self) -> (r: u8)
        requires
            self.wf(),
        ensures
            r == self.bytes()[Self::spec_report_index()],
    {
        proof {
            Self::layout_facts();
            Self::report_facts();
            self.wf_facts();
        }
        *slice_index_get(self.as_bytes(), Self::report_index())
    }

    /// The decoded report code.
    fn report(&self) -> (r: Report)
        requires
            self.wf(),
        ensures
            r == report_of(self.bytes()[Self::spec_report_index()]),
    {
        Report::from_u8(self.report_raw())
    }

    /// Store a raw report byte.
    fn set_report(&mut self, report: u8)
        requires
            old(self).wf(),
        ensures
            final(self).wf(),
            final(self).bytes() == old(self).bytes().update(Self::spec_report_index(), report),
    {
        proof {
            Self::layout_facts();
            Self::report_facts();
            self.wf_facts();
        }
        self.set_byte(Self::report_index(), report);
    }
}

} // verus!
