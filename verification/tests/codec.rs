use jvs_packets::Packet;
use jvs_packets::PacketError;
use jvs_packets::ReadByteExt;
use jvs_packets::ReadPacket;
use jvs_packets::Report;
use jvs_packets::ReportField;
use jvs_packets::WriteByteExt;
use jvs_packets::WritePacket;
use jvs_packets::jvs::RequestPacket;
use jvs_packets::jvs::ResponsePacket;
use jvs_packets::ByteReader;
use jvs_packets::ByteWriter;

#[test]
fn escape_encodes_reserved_bytes() {
    let mut writer = ByteWriter::new();
    let n = writer.write_u8_escaped(0xE0);
    assert_eq!(n, 2);
    assert_eq!(writer.into_inner(), vec![0xD0, 0xDF]);

    let mut writer = ByteWriter::new();
    let n = writer.write_u8_escaped(0xD0);
    assert_eq!(n, 2);
    assert_eq!(writer.into_inner(), vec![0xD0, 0xCF]);

    let mut writer = ByteWriter::new();
    let n = writer.write_u8_escaped(0x42);
    assert_eq!(n, 1);
    assert_eq!(writer.into_inner(), vec![0x42]);
}

#[test]
fn escape_decodes_marked_pair() {
    let mut reader = ByteReader::new(vec![0xD0, 0xDF]);
    assert_eq!(reader.read_u8_escaped().unwrap(), 0xE0);
    assert_eq!(reader.position(), 2);
}

#[test]
fn escape_round_trip_every_byte() {
    for b in 0..=255u8 {
        let mut writer = ByteWriter::new();
        writer.write_u8_escaped(b);
        let mut reader = ByteReader::new(writer.into_inner());
        assert_eq!(reader.read_u8_escaped().unwrap(), b);
    }
}

#[test]
fn escape_round_trip_sequence() {
    let bytes: Vec<u8> = vec![0x00, 0xE0, 0x13, 0xD0, 0xFF, 0xD1, 0xCF, 0xE0];
    let mut writer = ByteWriter::new();
    for &b in bytes.iter() {
        writer.write_u8_escaped(b);
    }
    let mut reader = ByteReader::new(writer.into_inner());
    for &b in bytes.iter() {
        assert_eq!(reader.read_u8_escaped().unwrap(), b);
    }
    assert!(reader.read_u8().is_err());
}

#[test]
fn invalid_sync_consumes_one_byte() {
    let mut reader = ByteReader::new(vec![0x00, 0xFF, 0x03, 0x01, 0x02, 0x05]);
    let mut packet = RequestPacket::<256>::new();
    let r = reader.read_packet(&mut packet);
    assert_eq!(r, Err(PacketError::InvalidSync));
    assert_eq!(reader.position(), 1);
}

#[test]
fn truncated_stream_on_short_frame() {
    let mut reader = ByteReader::new(vec![0xE0, 0xFF, 0x03, 0x01]);
    let mut packet = RequestPacket::<256>::new();
    let r = reader.read_packet(&mut packet);
    assert_eq!(r, Err(PacketError::TruncatedStream));

    let mut reader = ByteReader::new(vec![]);
    let mut packet = RequestPacket::<256>::new();
    let r = reader.read_packet(&mut packet);
    assert_eq!(r, Err(PacketError::TruncatedStream));
}

#[test]
fn read_rejects_frame_exceeding_capacity() {
    // SIZE announces 0x20 bytes after it, more than the 8-byte buffer holds.
    let mut reader = ByteReader::new(vec![0xE0, 0xFF, 0x20, 0x01, 0x02, 0x05]);
    let mut packet = RequestPacket::<8>::new();
    let r = reader.read_packet(&mut packet);
    assert_eq!(r, Err(PacketError::BufferOverflow));
}

#[test]
fn set_data_rejects_oversized_data() {
    let mut packet = RequestPacket::<8>::new();
    assert_eq!(
        packet.set_data(&[1, 2, 3, 4, 5, 6]),
        Err(PacketError::BufferOverflow)
    );
    assert_eq!(packet.set_data(&[1, 2, 3, 4]), Ok(()));
    assert_eq!(packet.size(), 5);
    assert_eq!(packet.data(), &[1, 2, 3, 4]);
}

#[test]
fn write_rejects_undersized_packet() {
    let mut packet = RequestPacket::<256>::new();
    packet.set_sync();
    // SIZE 0 leaves no room for data or even the checksum slot.
    let mut writer = ByteWriter::new();
    let r = writer.write_packet(&packet);
    assert_eq!(r, Err(PacketError::InvalidPacketLength));
    assert_eq!(writer.into_inner(), Vec::<u8>::new());
}

#[test]
fn from_slice_rejects_bad_lengths() {
    assert!(matches!(
        RequestPacket::<256>::from_slice(&[0xE0, 0xFF, 0x01]),
        Err(PacketError::InvalidPacketLength)
    ));
    assert!(matches!(
        RequestPacket::<4>::from_slice(&[0xE0, 0xFF, 0x02, 0x00, 0x01]),
        Err(PacketError::BufferOverflow)
    ));
}

#[test]
fn write_packet_uses_stored_checksum() {
    // The stored checksum byte is wrong on purpose; write_packet must
    // emit it as stored.
    let packet = RequestPacket::<256>::from_slice(&[0xE0, 0xFF, 0x03, 0x01, 0x02, 0x99]).unwrap();
    let mut writer = ByteWriter::new();
    let n = writer.write_packet(&packet).unwrap();
    assert_eq!(n, 6);
    assert_eq!(writer.into_inner(), vec![0xE0, 0xFF, 0x03, 0x01, 0x02, 0x99]);
}

#[test]
fn write_read_round_trip_with_escaped_data() {
    // Data holds both reserved byte values, so the frame is longer on the
    // wire than in the buffer.
    let mut packet = RequestPacket::<256>::new();
    packet.set_sync();
    packet.set_dest(0x01);
    packet.set_data(&[0xE0, 0xD0]).unwrap();

    let mut writer = ByteWriter::new();
    let n = writer.write_packet_with_checksum(&packet).unwrap();
    let wire = writer.into_inner();
    assert_eq!(n, wire.len());
    // SYNC, DEST, SIZE, two escaped data bytes, checksum.
    assert_eq!(wire, vec![0xE0, 0x01, 0x03, 0xD0, 0xDF, 0xD0, 0xCF, 0xB4]);

    let mut reader = ByteReader::new(wire);
    let mut back = RequestPacket::<256>::new();
    let len = reader.read_packet(&mut back).unwrap();
    assert_eq!(len, 6);
    assert_eq!(back.as_slice(), &[0xE0, 0x01, 0x03, 0xE0, 0xD0, 0xB4]);
    assert_eq!(back.checksum(), 0xB4);
    // The read consumed the whole wire image.
    assert_eq!(reader.position(), 8);
}

#[test]
fn checksum_is_wrapping_sum_of_body() {
    let mut packet = RequestPacket::<256>::from_slice(&[0xE0, 0xFF, 0x03, 0xFE, 0xFF, 0x00])
        .unwrap();
    packet.calculate_checksum();
    // 0xFF + 0x03 + 0xFE + 0xFF = 0x2FF, wraps to 0xFF.
    assert_eq!(packet.checksum(), 0xFF);
}

#[test]
fn report_decodes_every_code() {
    assert_eq!(Report::from_u8(1), Report::Normal);
    assert_eq!(Report::from_u8(2), Report::IncorrectDataSize);
    assert_eq!(Report::from_u8(3), Report::InvalidData);
    assert_eq!(Report::from_u8(4), Report::Busy);
    assert_eq!(Report::from_u8(0), Report::Unknown);
    assert_eq!(Report::from_u8(5), Report::Unknown);
    assert_eq!(Report::from_u8(0xFF), Report::Unknown);

    let packet = ResponsePacket::<256>::from_slice(&[0xE0, 0xFF, 0x04, 0x02, 0x01, 0x02, 0x07])
        .unwrap();
    assert_eq!(packet.report(), Report::IncorrectDataSize);
}

#[test]
fn from_reader_builds_packet() {
    let mut reader = ByteReader::new(vec![0xE0, 0xFF, 0x03, 0x01, 0x02, 0x05, 0x77]);
    let packet = RequestPacket::<256>::from_reader(&mut reader).unwrap();
    assert_eq!(packet.as_slice(), &[0xE0, 0xFF, 0x03, 0x01, 0x02, 0x05]);
    // One trailing byte was left unread.
    assert_eq!(reader.position(), 6);

    let mut reader = ByteReader::new(vec![0x13]);
    assert!(matches!(
        RequestPacket::<256>::from_reader(&mut reader),
        Err(PacketError::InvalidSync)
    ));
}
