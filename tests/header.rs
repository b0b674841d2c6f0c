use rtp_parse::error::RtcpError;
use rtp_parse::header::{get_sender_ssrc, RtcpHeader};

#[test]
fn test_read_rtcp_header() {
    let buf = [0b10_0_00001u8, 202, 0, 42];
    let header = RtcpHeader::read(&buf, 0).unwrap();
    assert_eq!(header.version, 2);
    assert_eq!(header.has_padding, false);
    assert_eq!(header.report_count, 1);
    assert_eq!(header.packet_type, 202);
    assert_eq!(header.length_field, 42);
}

#[test]
fn test_write_rtcp_header() {
    let header = RtcpHeader {
        version: 2,
        has_padding: false,
        report_count: 1,
        packet_type: 1,
        length_field: 2,
    };
    let mut buf = Vec::new();
    header.write(&mut buf);
    let read_header = RtcpHeader::read(&buf, 0).unwrap();
    assert_eq!(header, read_header);
}

#[test]
fn header_scenario_padding_and_count() {
    let buf = [0b10_1_00011u8, 89, 0x00, 0x05];
    let header = RtcpHeader::read(&buf, 0).unwrap();
    assert_eq!(header.version, 2);
    assert!(header.has_padding);
    assert_eq!(header.report_count, 3);
    assert_eq!(header.packet_type, 89);
    assert_eq!(header.length_field, 5);
    // five words after the header: 24 bytes in all
    assert_eq!(header.payload_length_bytes(), Ok(20));
    assert_eq!(4 + header.payload_length_bytes().unwrap() as usize, 24);
}

#[test]
fn header_invalid_version() {
    let buf = [0b01_0_00001u8, 202, 0, 1];
    assert_eq!(RtcpHeader::read(&buf, 0), Err(RtcpError::InvalidVersion(1)));
}

#[test]
fn header_truncated() {
    let buf = [0b10_0_00001u8, 202, 0];
    assert_eq!(RtcpHeader::read(&buf, 0), Err(RtcpError::TruncatedRead));
}

#[test]
fn header_length_overflow() {
    let header = RtcpHeader::default();
    let header = RtcpHeader { length_field: 16384, ..header };
    assert_eq!(header.payload_length_bytes(), Err(RtcpError::LengthOverflow));
    let header = RtcpHeader { length_field: 16383, ..header };
    assert_eq!(header.payload_length_bytes(), Ok(65532));
}

#[test]
fn header_builders_and_sync() {
    let mut header = RtcpHeader::default().packet_type(205).report_count(15);
    assert_eq!(header.version, 2);
    assert_eq!(header.packet_type, 205);
    assert_eq!(header.report_count, 15);
    header.sync(24, 3);
    assert_eq!(header.length_field, 6);
    assert_eq!(header.report_count, 3);
}

#[test]
fn header_sender_ssrc_of_raw_packet() {
    let buf = [0x80u8, 200, 0, 6, 0x01, 0x02, 0x03, 0x04];
    assert_eq!(get_sender_ssrc(&buf), 0x01020304);
}

#[test]
fn test_parse_rtcp_header() {
    let data: Vec<u8> = vec![0b10_1_00011, 90, 0x00, 0x05];
    match RtcpHeader::read(&data, 0) {
        Ok(header) => assert_eq!(header.packet_type, 90),
        Err(e) => println!("{:?}", e),
    }
}
