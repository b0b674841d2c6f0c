use rtp_parse::error::RtcpError;
use rtp_parse::fb_header::{RtcpFbHeader, RTCP_FB_TL_PT};
use rtp_parse::header::RtcpHeader;
use rtp_parse::nack::{chunk_by_max_difference, NackBlock, RtcpFbNackPacket};

#[test]
fn test_read_nack_block() {
    // Missing seq nums 10, 11, 16, 18, 22, 24, 26
    let bits = [0x00u8, 0x0A, 0xA8, 0xA1];
    let nack_block = NackBlock::read(&bits, 0).unwrap();
    assert_eq!(nack_block.missing_seq_nums, vec![10, 11, 16, 18, 22, 24, 26]);
}

#[test]
fn test_put_nack_block() {
    let mut nack_block = NackBlock::default();
    nack_block.add_missing_seq_num(10);
    nack_block.add_missing_seq_num(11);
    nack_block.add_missing_seq_num(16);
    nack_block.add_missing_seq_num(18);
    nack_block.add_missing_seq_num(22);
    nack_block.add_missing_seq_num(24);
    nack_block.add_missing_seq_num(26);

    let mut bits = Vec::new();
    nack_block.write(&mut bits).unwrap();
    let read_nack_block = NackBlock::read(&bits, 0).unwrap();
    assert_eq!(read_nack_block, nack_block);
}

#[test]
fn test_read_nack_packet() {
    let rtcp_header = RtcpHeader {
        report_count: RtcpFbNackPacket::FMT,
        packet_type: RTCP_FB_TL_PT,
        length_field: 3,
        ..Default::default()
    };
    let rtcp_fb_header = RtcpFbHeader::default().media_source_ssrc(42).sender_ssrc(24);
    let nack_payload = vec![
        // packet id 10
        0x00, 0x0A, // Missing seq nums 10, 11, 16, 18, 22, 24, 26
        0xA8, 0xA1, // packet id 40
        0x00, 0x28, // Missing seq nums 40, 42, 48, 51, 54
        0x24, 0x82,
    ];
    let (nack_packet, end) =
        RtcpFbNackPacket::read(&nack_payload, 0, rtcp_header, rtcp_fb_header).unwrap();
    assert_eq!(end, 8);
    assert_eq!(
        nack_packet.missing_seq_nums,
        vec![10, 11, 16, 18, 22, 24, 26, 40, 42, 48, 51, 54]
    );
}

#[test]
fn rtcp_fb_nack_test_default() {
    let rtcp_fb_nack = RtcpFbNackPacket::default();
    assert_eq!(rtcp_fb_nack.header.packet_type, RTCP_FB_TL_PT);
    assert_eq!(rtcp_fb_nack.header.report_count, RtcpFbNackPacket::FMT);
    assert_eq!(rtcp_fb_nack.header.length_field, 0);
}

#[test]
fn rtcp_fb_nack_test_sync() {
    let mut rtcp_fb_nack = RtcpFbNackPacket::default();
    rtcp_fb_nack.add_missing_seq_num(10);
    rtcp_fb_nack.add_missing_seq_num(12);
    rtcp_fb_nack.add_missing_seq_num(13);
    rtcp_fb_nack.add_missing_seq_num(17);
    rtcp_fb_nack.add_missing_seq_num(21);
    rtcp_fb_nack.add_missing_seq_num(23);
    rtcp_fb_nack.sync();
    // Above missing packets should fit in a single block
    assert_eq!(rtcp_fb_nack.header.length_field, 3);
}

#[test]
fn test_sync_multiple_blocks() {
    let mut rtcp_fb_nack = RtcpFbNackPacket::default();
    rtcp_fb_nack.add_missing_seq_num(10);
    rtcp_fb_nack.add_missing_seq_num(12);
    rtcp_fb_nack.add_missing_seq_num(13);
    rtcp_fb_nack.add_missing_seq_num(17);
    rtcp_fb_nack.add_missing_seq_num(21);
    rtcp_fb_nack.add_missing_seq_num(23);
    rtcp_fb_nack.add_missing_seq_num(44);
    rtcp_fb_nack.sync();
    assert_eq!(rtcp_fb_nack.header.length_field, 4);
}

#[test]
fn test_put_rtcp_fb_nack() {
    let mut rtcp_fb_nack = RtcpFbNackPacket::default();
    rtcp_fb_nack.add_missing_seq_num(10);
    rtcp_fb_nack.add_missing_seq_num(12);
    rtcp_fb_nack.add_missing_seq_num(13);
    rtcp_fb_nack.add_missing_seq_num(17);
    rtcp_fb_nack.add_missing_seq_num(21);
    rtcp_fb_nack.add_missing_seq_num(23);
    rtcp_fb_nack.add_missing_seq_num(44);
    rtcp_fb_nack.sync();

    let mut bits = Vec::new();
    rtcp_fb_nack.write(&mut bits).unwrap();
    let header = RtcpHeader::read(&bits, 0).unwrap();
    let fb_header = RtcpFbHeader::read(&bits, 4).unwrap();
    let (read_rtcp_fb_nack, end) = RtcpFbNackPacket::read(&bits, 12, header, fb_header).unwrap();
    assert_eq!(end, bits.len());
    assert_eq!(read_rtcp_fb_nack, rtcp_fb_nack);
}

#[test]
fn nack_block_bitmask_bytes() {
    let mut block = NackBlock::default();
    for s in [10u16, 11, 16, 18, 22, 24, 26] {
        block.add_missing_seq_num(s);
    }
    let mut out = Vec::new();
    block.write(&mut out).unwrap();
    assert_eq!(out, vec![0x00, 0x0A, 0xA8, 0xA1]);
}

#[test]
fn nack_block_single_member_has_empty_mask() {
    let mut block = NackBlock::default();
    block.add_missing_seq_num(300);
    let mut out = Vec::new();
    block.write(&mut out).unwrap();
    assert_eq!(out, vec![0x01, 0x2C, 0x00, 0x00]);
}

#[test]
fn nack_block_span_too_large() {
    let mut block = NackBlock::default();
    block.add_missing_seq_num(10);
    block.add_missing_seq_num(27);
    let mut out = Vec::new();
    assert_eq!(block.write(&mut out), Err(RtcpError::SpanTooLarge));
    assert!(out.is_empty());
}

#[test]
fn nack_block_empty() {
    let block = NackBlock::default();
    let mut out = Vec::new();
    assert_eq!(block.write(&mut out), Err(RtcpError::EmptyNackBlock));
}

#[test]
fn nack_block_wraps_sequence_numbers() {
    // packet id 65534, bits 0 and 2: 65535 and 1
    let bits = [0xFFu8, 0xFE, 0x00, 0x05];
    let block = NackBlock::read(&bits, 0).unwrap();
    assert_eq!(block.missing_seq_nums, vec![1, 65534, 65535]);
}

#[test]
fn nack_block_truncated() {
    let bits = [0x00u8, 0x0A, 0xA8];
    assert_eq!(NackBlock::read(&bits, 0), Err(RtcpError::TruncatedRead));
}

#[test]
fn nack_grouping_chunks() {
    let values = vec![10u16, 12, 13, 17, 21, 23, 26, 27, 44, 60, 61];
    let chunks = chunk_by_max_difference(&values, 16);
    assert_eq!(
        chunks,
        vec![vec![10, 12, 13, 17, 21, 23, 26], vec![27], vec![44, 60], vec![61]]
    );
    let empty: Vec<u16> = Vec::new();
    assert!(chunk_by_max_difference(&empty, 16).is_empty());
}

#[test]
fn nack_grouping_round_trip_preserves_set() {
    let mut packet = RtcpFbNackPacket::default();
    let members = [0u16, 5, 16, 17, 40, 1000, 1016, 1017, 65535];
    for m in members {
        packet.add_missing_seq_num(m);
    }
    packet.sync();
    let mut bits = Vec::new();
    packet.write(&mut bits).unwrap();
    let header = RtcpHeader::read(&bits, 0).unwrap();
    let fb = RtcpFbHeader::read(&bits, 4).unwrap();
    let (read, _) = RtcpFbNackPacket::read(&bits, 12, header, fb).unwrap();
    assert_eq!(read.missing_seq_nums, members.to_vec());
    // six blocks: {0,5,16}, {17}, {40}, {1000,1016}, {1017}, {65535}
    assert_eq!(bits.len(), 12 + 4 * 6);
}
