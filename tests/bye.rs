use rtp_parse::bye::{RtcpByePacket, RtcpByeReason};
use rtp_parse::error::RtcpError;
use rtp_parse::header::RtcpHeader;

const TEST_RTCP_HEADER: RtcpHeader = RtcpHeader {
    version: 2,
    has_padding: false,
    report_count: 2,
    packet_type: 203,
    length_field: 2,
};

#[test]
fn test_read_success() {
    let reason_str = "goodbye";
    let reason_bytes = reason_str.bytes();
    let mut payload = vec![
        // ssrc 1
        0x00,
        0x00,
        0x00,
        0x01,
        // ssrc 2
        0x00,
        0x00,
        0x00,
        0x02,
        // reason length
        reason_bytes.len() as u8,
    ];
    payload.extend(reason_bytes.collect::<Vec<u8>>());
    let (rtcp_bye, _) = RtcpByePacket::read(&payload, 0, TEST_RTCP_HEADER).unwrap();
    assert!(rtcp_bye.ssrcs.contains(&1u32));
    assert!(rtcp_bye.ssrcs.contains(&2u32));
    assert_eq!(rtcp_bye.reason.unwrap().as_str(), reason_str);
}

#[test]
fn test_read_success_no_reason() {
    let payload = vec![0x00, 0x00, 0x00, 0x01, 0x00, 0x00, 0x00, 0x02];
    let (rtcp_bye, _) = RtcpByePacket::read(&payload, 0, TEST_RTCP_HEADER).unwrap();
    assert!(rtcp_bye.ssrcs.contains(&1u32));
    assert!(rtcp_bye.ssrcs.contains(&2u32));
    assert!(rtcp_bye.reason.is_none());
}

#[test]
fn test_read_missing_ssrc() {
    // Report count (source count) is 2 in header, but we'll just have 1 SSRC in the payload
    let bits = [1u8, 2, 3, 4];
    let result = RtcpByePacket::read(&bits, 0, TEST_RTCP_HEADER);
    assert!(result.is_err());
}

#[test]
fn test_read_bad_utf8_reason() {
    let payload = vec![
        0x00, 0x00, 0x00, 0x01, 0x00, 0x00, 0x00, 0x02, // length 2, invalid utf 8
        0x02, 0xFF, 0xFF,
    ];
    let result = RtcpByePacket::read(&payload, 0, TEST_RTCP_HEADER);
    assert!(result.is_err());
    assert_eq!(result.unwrap_err(), RtcpError::InvalidUtf8);
}

#[test]
fn test_read_consume_padding() {
    let reason_str = "g";
    let reason_bytes = reason_str.bytes();
    let mut payload = vec![0x00, 0x00, 0x00, 0x01, 0x00, 0x00, 0x00, 0x02, reason_bytes.len() as u8];
    payload.extend(reason_bytes.collect::<Vec<u8>>());
    // 2 bytes of padding
    payload.extend([0x00, 0x00]);
    let (_rtcp_bye, end) =
        RtcpByePacket::read(&payload, 0, TEST_RTCP_HEADER).expect("Successful read");
    // Make sure the buffer was fully consumed
    assert_eq!(payload.len() - end, 0);
}

#[test]
fn rtcp_bye_test_sync() {
    let mut rtcp_bye = RtcpByePacket::default().add_ssrc(42);
    rtcp_bye.sync();
    assert_eq!(rtcp_bye.header.packet_type, RtcpByePacket::PT);
    assert_eq!(rtcp_bye.header.report_count, 1);
    assert_eq!(rtcp_bye.header.length_field, 1);

    let mut rtcp_bye = rtcp_bye.with_reason("goodbye");
    rtcp_bye.sync();
    assert_eq!(rtcp_bye.header.length_field, 3);
}

fn write_and_read_back(reason: Option<RtcpByeReason>) {
    let mut rtcp_bye = RtcpByePacket { header: TEST_RTCP_HEADER, ssrcs: vec![42], reason };
    rtcp_bye.sync();
    let syncd_rtcp_header = rtcp_bye.header.clone();
    let mut buf = Vec::new();
    rtcp_bye.write(&mut buf).expect("successful write");

    let read_rtcp_header = RtcpHeader::read(&buf, 0).expect("successful read");
    assert_eq!(read_rtcp_header, syncd_rtcp_header);
    let payload_length_bytes = read_rtcp_header.payload_length_bytes().unwrap() as usize;
    let bye_subbuf = &buf[4..4 + payload_length_bytes];
    let (read_rtcp_bye, _) =
        RtcpByePacket::read(bye_subbuf, 0, read_rtcp_header).expect("successful read");
    assert_eq!(rtcp_bye, read_rtcp_bye);
}

#[test]
fn test_write_success() {
    write_and_read_back(None);
}

#[test]
fn test_write_success_with_reason() {
    write_and_read_back(Some(RtcpByeReason::new("Goodbye")));
}

#[test]
fn test_write_success_with_padding() {
    let mut rtcp_bye = RtcpByePacket {
        header: TEST_RTCP_HEADER,
        ssrcs: vec![42],
        reason: Some(RtcpByeReason::new("G")),
    };
    rtcp_bye.sync();
    let mut buf = Vec::new();
    rtcp_bye.write(&mut buf).expect("successful write");
    // Make sure we landed on a word boundary
    assert!(buf.len() % 4 == 0);
    assert_eq!(buf, vec![0x81, 203, 0, 2, 0, 0, 0, 42, 1, b'G', 0, 0]);
}

#[test]
fn bye_reason_too_long() {
    let long = "x".repeat(256);
    let rtcp_bye = RtcpByePacket::default().add_ssrc(1).with_reason(&long);
    let mut buf = Vec::new();
    assert_eq!(rtcp_bye.write(&mut buf), Err(RtcpError::FieldTooLarge));
    assert!(buf.is_empty());
}

#[test]
fn bye_reason_length_in_bytes() {
    let reason = RtcpByeReason::new("h\u{e9}llo");
    assert_eq!(reason.length_bytes(), 6);
}

#[test]
fn test_parse_success() {
    let reason_str = "goodbye";
    let reason_bytes = reason_str.bytes();
    let mut payload = vec![0x00, 0x00, 0x00, 0x01, 0x00, 0x00, 0x00, 0x02, reason_bytes.len() as u8];
    payload.extend(reason_bytes.collect::<Vec<u8>>());
    let (rtcp_bye, _) = RtcpByePacket::read(&payload, 0, TEST_RTCP_HEADER).unwrap();
    assert!(rtcp_bye.ssrcs.contains(&1u32));
    assert!(rtcp_bye.ssrcs.contains(&2u32));
    assert_eq!(rtcp_bye.reason.unwrap().as_str(), reason_str);
}

#[test]
fn test_parse_success_no_reason() {
    let payload = vec![0x00, 0x00, 0x00, 0x01, 0x00, 0x00, 0x00, 0x02];
    let (rtcp_bye, _) = RtcpByePacket::read(&payload, 0, TEST_RTCP_HEADER).unwrap();
    assert!(rtcp_bye.ssrcs.contains(&1u32));
    assert!(rtcp_bye.ssrcs.contains(&2u32));
    assert!(rtcp_bye.reason.is_none());
}

#[test]
fn test_missing_ssrc() {
    // Report count (source count) is 2 in header, but we'll just have 1 SSRC in the payload
    let result = RtcpByePacket::read(&[1, 2, 3, 4], 0, TEST_RTCP_HEADER);
    assert!(result.is_err());
}

#[test]
fn test_bad_utf8_reason() {
    let payload = vec![0x00, 0x00, 0x00, 0x01, 0x00, 0x00, 0x00, 0x02, 0x02, 0xFF, 0xFF];
    let result = RtcpByePacket::read(&payload, 0, TEST_RTCP_HEADER);
    assert!(result.is_err());
}
