use rtp_parse::bye::RtcpByePacket;
use rtp_parse::error::{InvalidLengthValue, RtcpError, UnrecognizedPacketType};
use rtp_parse::fb_header::RtcpFbHeader;
use rtp_parse::header::{RtcpHeader, RTCP_HEADER_SIZE_BYTES};
use rtp_parse::nack::RtcpFbNackPacket;
use rtp_parse::packet::{read_single_rtcp_packet, SomeRtcpPacket};
use rtp_parse::report::{RtcpReportBlock, RtcpRrPacket, RtcpSenderInfo, RtcpSrPacket};
use rtp_parse::util::{looks_like_dtls, looks_like_rtcp, looks_like_rtp};

fn bye_bytes() -> Vec<u8> {
    let mut rtcp_bye = RtcpByePacket::default().add_ssrc(42).add_ssrc(43).with_reason("ciao");
    rtcp_bye.sync();
    let mut buf = Vec::new();
    rtcp_bye.write(&mut buf).expect("successful write");
    buf
}

fn nack_bytes() -> Vec<u8> {
    let mut nack = RtcpFbNackPacket::default();
    nack.fb_header = RtcpFbHeader::new(1, 2);
    nack.add_missing_seq_num(100);
    nack.add_missing_seq_num(101);
    nack.sync();
    let mut buf = Vec::new();
    nack.write(&mut buf).unwrap();
    buf
}

#[test]
fn test_read_rtcp() {
    let mut rtcp_bye = RtcpByePacket::default().add_ssrc(42).add_ssrc(43).with_reason("ciao");
    rtcp_bye.sync();
    let packet_size = RTCP_HEADER_SIZE_BYTES + rtcp_bye.payload_length_bytes() as usize;
    let mut buf = Vec::new();
    rtcp_bye.write(&mut buf).expect("successful write");
    assert_eq!(packet_size, buf.len());
    let result = SomeRtcpPacket::read(&buf).expect("successful read");
    assert_eq!(result, SomeRtcpPacket::RtcpByePacket(rtcp_bye));
}

#[test]
fn compound_two_packets_in_order() {
    let mut buf = bye_bytes();
    buf.extend(nack_bytes());
    let result = SomeRtcpPacket::read(&buf).unwrap();
    let SomeRtcpPacket::CompoundRtcpPacket(packets) = result else {
        panic!("Expected a compound packet");
    };
    assert_eq!(packets.len(), 2);
    assert!(matches!(packets[0], SomeRtcpPacket::RtcpByePacket(_)));
    let SomeRtcpPacket::RtcpFbNackPacket(nack) = &packets[1] else {
        panic!("Expected a NACK packet");
    };
    assert_eq!(nack.missing_seq_nums, vec![100, 101]);
}

#[test]
fn compound_truncated_by_one_byte_fails_whole_call() {
    let mut buf = bye_bytes();
    buf.extend(nack_bytes());
    buf.pop();
    let err = SomeRtcpPacket::read(&buf).unwrap_err();
    assert!(matches!(err, RtcpError::InvalidLengthValue(_) | RtcpError::TruncatedRead));
    assert_eq!(
        err,
        RtcpError::InvalidLengthValue(InvalidLengthValue {
            length_field_bytes: 12,
            buf_remaining_bytes: 11
        })
    );
}

#[test]
fn compound_write_concatenates() {
    let mut bye = RtcpByePacket::default().add_ssrc(7);
    bye.sync();
    let mut rr = RtcpRrPacket { header: RtcpHeader::default().packet_type(201), sender_ssrc: 9, report_blocks: vec![] };
    rr.sync();
    let compound = SomeRtcpPacket::CompoundRtcpPacket(vec![
        SomeRtcpPacket::RtcpByePacket(bye),
        SomeRtcpPacket::RtcpRrPacket(rr),
    ]);
    let mut buf = Vec::new();
    compound.write(&mut buf).unwrap();
    assert_eq!(buf, vec![0x81, 203, 0, 1, 0, 0, 0, 7, 0x80, 201, 0, 1, 0, 0, 0, 9]);
    let back = SomeRtcpPacket::read(&buf).unwrap();
    assert_eq!(back, compound);
}

#[test]
fn no_valid_packets() {
    assert_eq!(SomeRtcpPacket::read(&[]), Err(RtcpError::NoValidPackets));
    assert_eq!(SomeRtcpPacket::read(&[0x80, 203, 0]), Err(RtcpError::NoValidPackets));
}

#[test]
fn unrecognized_packet_type() {
    let buf = [0x80u8, 99, 0, 0];
    assert_eq!(
        SomeRtcpPacket::read(&buf),
        Err(RtcpError::UnrecognizedPacketType(UnrecognizedPacketType(99)))
    );
}

#[test]
fn unsupported_feedback_format() {
    let buf = [0x83u8, 205, 0, 2, 0, 0, 0, 1, 0, 0, 0, 2];
    assert_eq!(
        SomeRtcpPacket::read(&buf),
        Err(RtcpError::UnsupportedFeedbackFormat { packet_type: 205, format: 3 })
    );
}

#[test]
fn buffer_not_fully_consumed() {
    // an RR with no report blocks but a length field of two words
    let buf = [0x80u8, 201, 0, 2, 0, 0, 0, 9, 1, 2, 3, 4];
    assert_eq!(
        read_single_rtcp_packet(&buf, 0).map(|(_, n)| n),
        Err(RtcpError::BufferNotFullyConsumed { remaining: 4 })
    );
}

#[test]
fn nonzero_padding_in_bye() {
    let buf = [0x81u8, 203, 0, 2, 0, 0, 0, 1, 1, b'x', 0, 5];
    assert_eq!(SomeRtcpPacket::read(&buf), Err(RtcpError::NonZeroPadding));
}

#[test]
fn invalid_version_in_buffer() {
    let buf = [0x40u8, 203, 0, 0];
    assert_eq!(SomeRtcpPacket::read(&buf), Err(RtcpError::InvalidVersion(1)));
}

#[test]
fn single_packet_reports_next_offset() {
    let mut buf = bye_bytes();
    let first = buf.len();
    buf.extend(nack_bytes());
    let (_, next) = read_single_rtcp_packet(&buf, 0).unwrap();
    assert_eq!(next, first);
    let (p, next) = read_single_rtcp_packet(&buf, first).unwrap();
    assert_eq!(next, buf.len());
    assert!(matches!(p, SomeRtcpPacket::RtcpFbNackPacket(_)));
}

#[test]
fn sender_report_round_trip() {
    let block = RtcpReportBlock {
        ssrc: 1,
        fraction_lost: 2,
        cumulative_lost: 0x030405,
        extended_highest_seq_num: 6,
        interarrival_jitter: 7,
        last_sr_timestamp: 8,
        delay_since_last_sr: 9,
    };
    let mut sr = RtcpSrPacket {
        header: RtcpHeader::default().packet_type(RtcpSrPacket::PT),
        sender_ssrc: 0xAABBCCDD,
        sender_info: RtcpSenderInfo {
            ntp_timestamp_msw: 10,
            ntp_timestamp_lsw: 11,
            rtp_timestamp: 12,
            sender_packet_count: 13,
            sender_octet_count: 14,
        },
        report_blocks: vec![block],
    };
    sr.sync();
    assert_eq!(sr.header.length_field, 12);
    assert_eq!(sr.header.report_count, 1);
    let mut buf = Vec::new();
    sr.write(&mut buf);
    assert_eq!(buf.len(), 52);
    assert_eq!(&buf[4..8], &[0xAA, 0xBB, 0xCC, 0xDD]);
    assert_eq!(&buf[28..36], &[0, 0, 0, 1, 2, 3, 4, 5]);
    let back = SomeRtcpPacket::read(&buf).unwrap();
    assert_eq!(back, SomeRtcpPacket::RtcpSrPacket(sr));
}

#[test]
fn receiver_report_truncated_block() {
    // count says one block, but only the sender SSRC is there
    let buf = [0x81u8, 201, 0, 1, 0, 0, 0, 9];
    assert_eq!(SomeRtcpPacket::read(&buf), Err(RtcpError::TruncatedRead));
}

#[test]
fn demux_heuristics() {
    let rtcp = [0x80u8, 200, 0, 6];
    assert!(looks_like_rtcp(&rtcp));
    assert!(!looks_like_rtp(&rtcp));
    let mut rtp = vec![0x80u8, 96];
    rtp.extend([0u8; 10]);
    assert!(looks_like_rtp(&rtp));
    assert!(!looks_like_rtcp(&rtp));
    assert!(looks_like_dtls(&[22u8, 254, 253]));
    assert!(!looks_like_dtls(&[]));
    assert!(!looks_like_rtcp(&[0x80u8, 200, 0]));
}
