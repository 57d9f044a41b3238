//! Byte-level codec for a serial master/slave packet protocol family:
//! fixed-layout packet buffers, an escape (byte-stuffing) codec, and a
//! stream reader/writer that frames packets with a wrapping checksum.

mod codec;
pub mod jvs;
pub mod jvs_modified;
mod packet;
mod stream;

pub use codec::ParseResult;
pub use codec::decode_run;
pub use codec::decode_step;
pub use codec::emit_packet;
pub use codec::emit_packet_with_checksum;
pub use codec::encode_byte;
pub use codec::encode_seq;
pub use codec::escapes;
pub use codec::lemma_escape_byte_round_trip;
pub use codec::lemma_escape_stream_round_trip;
pub use codec::lemma_encoded_no_sync;
pub use codec::lemma_write_read_round_trip;
pub use codec::lemma_parse_complete_len;
pub use codec::parse_packet;
pub use packet::MARK_BYTE;
pub use packet::Packet;
pub use packet::PacketError;
pub use packet::Report;
pub use packet::ReportField;
pub use packet::SYNC_BYTE;
pub use packet::lemma_calculate_checksum_correct;
pub use packet::report_of;
pub use packet::spec_packet_len;
pub use packet::spec_with_range;
pub use packet::wrapping_sum;
pub use stream::ByteReader;
pub use stream::ByteWriter;
pub use stream::ReadByteExt;
pub use stream::ReadPacket;
pub use stream::WriteByteExt;
pub use stream::WritePacket;

