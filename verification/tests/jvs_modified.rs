use jvs_packets::Packet;
use jvs_packets::ReadPacket;
use jvs_packets::ReportField;
use jvs_packets::WritePacket;
use jvs_packets::jvs_modified::ModifiedPacket;
use jvs_packets::jvs_modified::RequestPacket;
use jvs_packets::jvs_modified::ResponsePacket;
use jvs_packets::ByteReader;
use jvs_packets::ByteWriter;

const REQUEST_DATA: [u8; 8] = [0xE0, 0x06, 0xFF, 0x01, 0x02, 0x01, 0x02, 0x0B];
const RESPONSE_DATA: [u8; 10] = [0xE0, 0x08, 0xFF, 0x01, 0x03, 0x02, 0x04, 0x01, 0x02, 0x14];

#[test]
fn jvs_modified_test_request_packet_from_slice() {
    let packet = RequestPacket::<256>::from_slice(&REQUEST_DATA).unwrap();
    assert_eq!(REQUEST_DATA, packet.as_slice());
}

#[test]
fn jvs_modified_test_request_packet_access_methods() {
    let packet = RequestPacket::<256>::from_slice(&REQUEST_DATA).unwrap();

    assert_eq!(packet.sync(), REQUEST_DATA[0]);
    assert_eq!(packet.size(), REQUEST_DATA[1]);
    assert_eq!(packet.dest(), REQUEST_DATA[2]);
    assert_eq!(packet.sequence(), REQUEST_DATA[3]);
    assert_eq!(packet.cmd(), REQUEST_DATA[4]);
    assert_eq!(packet.data(), &[REQUEST_DATA[5], REQUEST_DATA[6]]);
    assert_eq!(packet.checksum(), REQUEST_DATA[7]);
}

#[test]
fn jvs_modified_test_request_packet_setter_methods() {
    let mut packet = RequestPacket::<256>::new();
    packet.set_sync();
    packet.set_dest(REQUEST_DATA[2]);
    packet.set_sequence(REQUEST_DATA[3]);
    packet.set_cmd(REQUEST_DATA[4]);
    packet.set_data(&[REQUEST_DATA[5], REQUEST_DATA[6]]).unwrap();
    packet.set_checksum(REQUEST_DATA[7]);
    packet.set_size(REQUEST_DATA[1]);

    assert_eq!(packet.as_slice(), REQUEST_DATA);
    packet.calculate_checksum();
    assert_eq!(packet.checksum(), REQUEST_DATA[7]);
    packet.set_data(&[0x01]).unwrap();
    assert_eq!(packet.size(), REQUEST_DATA[1] - 1);
}

#[test]
fn jvs_modified_test_request_packet_read() {
    let mut cursor = ByteReader::new(REQUEST_DATA.to_vec());
    let mut packet = RequestPacket::<256>::new();
    cursor.read_packet(&mut packet).unwrap();

    assert_eq!(cursor.into_inner(), packet.as_slice())
}

#[test]
fn jvs_modified_test_request_packet_write() {
    let mut writer = ByteWriter::new();
    let packet = RequestPacket::<256>::from_slice(&REQUEST_DATA).unwrap();
    writer.write_packet_with_checksum(&packet).unwrap();

    assert_eq!(writer.into_inner(), packet.as_slice())
}

#[test]
fn jvs_modified_test_response_packet_from_slice() {
    let packet = ResponsePacket::<256>::from_slice(&REQUEST_DATA).unwrap();
    assert_eq!(REQUEST_DATA, packet.as_slice());
}

#[test]
fn jvs_modified_test_response_packet_access_methods() {
    let packet = ResponsePacket::<256>::from_slice(&RESPONSE_DATA).unwrap();

    assert_eq!(packet.sync(), RESPONSE_DATA[0]);
    assert_eq!(packet.size(), RESPONSE_DATA[1]);
    assert_eq!(packet.dest(), RESPONSE_DATA[2]);
    assert_eq!(packet.sequence(), RESPONSE_DATA[3]);
    assert_eq!(packet.status(), RESPONSE_DATA[4]);
    assert_eq!(packet.cmd(), RESPONSE_DATA[5]);
    assert_eq!(packet.report_raw(), RESPONSE_DATA[6]);
    assert_eq!(packet.data(), &[RESPONSE_DATA[7], RESPONSE_DATA[8]]);
    assert_eq!(packet.checksum(), RESPONSE_DATA[9]);
}

#[test]
fn jvs_modified_test_response_packet_setter_methods() {
    let mut packet = ResponsePacket::<256>::new();
    packet.set_sync();
    packet.set_dest(RESPONSE_DATA[2]);
    packet.set_sequence(RESPONSE_DATA[3]);
    packet.set_status(RESPONSE_DATA[4]);
    packet.set_cmd(RESPONSE_DATA[5]);
    packet.set_report(RESPONSE_DATA[6]);
    packet.set_data(&[RESPONSE_DATA[7], RESPONSE_DATA[8]]).unwrap();
    packet.set_checksum(RESPONSE_DATA[9]);
    packet.set_size(RESPONSE_DATA[1]);

    assert_eq!(packet.as_slice(), RESPONSE_DATA);
    packet.calculate_checksum();
    assert_eq!(packet.checksum(), RESPONSE_DATA[9]);
    packet.set_data(&[0x01]).unwrap();
    assert_eq!(packet.size(), RESPONSE_DATA[1] - 1);
}

#[test]
fn jvs_modified_test_response_packet_read() {
    let mut reader = ByteReader::new(RESPONSE_DATA.to_vec());
    let mut packet = ResponsePacket::<256>::new();
    reader.read_packet(&mut packet).unwrap();

    assert_eq!(reader.into_inner(), packet.as_slice())
}

#[test]
fn jvs_modified_test_response_packet_write() {
    let mut writer = ByteWriter::new();
    let packet = ResponsePacket::<256>::from_slice(&RESPONSE_DATA).unwrap();
    writer.write_packet_with_checksum(&packet).unwrap();

    assert_eq!(writer.into_inner(), packet.as_slice())
}
