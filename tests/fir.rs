use rtp_parse::error::RtcpError;
use rtp_parse::fb_header::{RtcpFbHeader, RTCP_FB_PS_PT};
use rtp_parse::fir::{read_rtcp_fb_pli, write_rtcp_fb_pli, RtcpFbFirFci, RtcpFbFirPacket, RtcpFbPliPacket};
use rtp_parse::header::RtcpHeader;

#[test]
fn test_read_fci() {
    let data = vec![
        // ssrc (42)
        0x00, 0x00, 0x00, 0x2a, // seq_num (1)
        0x01, // reserved
        0x00, 0x00, 0x00,
    ];
    let (fci, _) = RtcpFbFirFci::read(&data, 0).expect("successful read");
    assert_eq!(fci.ssrc, 42);
    assert_eq!(fci.seq_num, 1);
}

#[test]
fn test_write_fci() {
    let fci = RtcpFbFirFci::new(42, 1);
    let mut buf = Vec::new();
    fci.write(&mut buf);
    let (read_fci, _) = RtcpFbFirFci::read(&buf, 0).expect("successful read");
    assert_eq!(fci, read_fci);
}

#[test]
fn test_read_rtcp_fb_fir_packet() {
    let data = vec![0x00, 0x00, 0x00, 0x2a, 0x01, 0x00, 0x00, 0x00];
    let header = RtcpHeader {
        report_count: RtcpFbFirPacket::FMT,
        packet_type: RTCP_FB_PS_PT,
        length_field: 4,
        ..Default::default()
    };
    let fb_header = RtcpFbHeader::new(42, 0);
    let (fb_fir_packet, end) =
        RtcpFbFirPacket::read(&data, 0, header, fb_header).expect("successful read");
    assert_eq!(data.len() - end, 0);
    assert_eq!(fb_fir_packet.fcis.len(), 1);
    let fci = &fb_fir_packet.fcis[0];
    assert_eq!(fci.ssrc, 42);
    assert_eq!(fci.seq_num, 1);
}

#[test]
fn test_read_rtcp_fb_fir_packet_multiple_fcis() {
    let data = vec![
        0x00, 0x00, 0x00, 0x2a, 0x01, 0x00, 0x00, 0x00, 0x00, 0x00, 0x00, 0x2b, 0x02, 0x00, 0x00,
        0x00,
    ];
    let header = RtcpHeader {
        report_count: RtcpFbFirPacket::FMT,
        packet_type: RTCP_FB_PS_PT,
        length_field: 6,
        ..Default::default()
    };
    let fb_header = RtcpFbHeader::new(42, 0);
    let (fb_fir_packet, end) =
        RtcpFbFirPacket::read(&data, 0, header, fb_header).expect("successful read");
    assert_eq!(data.len() - end, 0);
    assert_eq!(fb_fir_packet.fcis.len(), 2);
    let fci = &fb_fir_packet.fcis[0];
    assert_eq!(fci.ssrc, 42);
    assert_eq!(fci.seq_num, 1);
    let fci = &fb_fir_packet.fcis[1];
    assert_eq!(fci.ssrc, 43);
    assert_eq!(fci.seq_num, 2);
}

#[test]
fn rtcp_fb_fir_test_default() {
    let rtcp_fb_fir = RtcpFbFirPacket::default();
    assert_eq!(RTCP_FB_PS_PT, rtcp_fb_fir.header.packet_type);
    assert_eq!(RtcpFbFirPacket::FMT, rtcp_fb_fir.header.report_count);
    assert_eq!(0, rtcp_fb_fir.fb_header.media_source_ssrc);
}

#[test]
fn rtcp_fb_fir_test_sync() {
    let mut rtcp_fb_fir = RtcpFbFirPacket::default()
        .add_fci(RtcpFbFirFci::new(42, 1))
        .add_fci(RtcpFbFirFci::new(43, 2));
    rtcp_fb_fir.sync();
    assert_eq!(RTCP_FB_PS_PT, rtcp_fb_fir.header.packet_type);
    assert_eq!(RtcpFbFirPacket::FMT, rtcp_fb_fir.header.report_count);
    assert_eq!(0, rtcp_fb_fir.fb_header.media_source_ssrc);
    assert_eq!(rtcp_fb_fir.header.length_field, 6);
}

#[test]
fn test_write() {
    let mut rtcp_fb_fir = RtcpFbFirPacket::default()
        .add_fci(RtcpFbFirFci::new(42, 1))
        .add_fci(RtcpFbFirFci::new(43, 2));
    rtcp_fb_fir.sync();
    let mut buf = Vec::new();
    rtcp_fb_fir.write(&mut buf);
    let rtcp_header = RtcpHeader::read(&buf, 0).unwrap();
    let rtcp_fb_header = RtcpFbHeader::read(&buf, 4).unwrap();
    let (read_rtcp_fb_fir, _) = RtcpFbFirPacket::read(&buf, 12, rtcp_header, rtcp_fb_header).unwrap();
    assert_eq!(rtcp_fb_fir, read_rtcp_fb_fir);
}

#[test]
fn fir_truncated_entry() {
    let data = vec![0x00, 0x00, 0x00, 0x2a, 0x01];
    let header = RtcpHeader::default();
    assert_eq!(
        RtcpFbFirPacket::read(&data, 0, header, RtcpFbHeader::default()),
        Err(RtcpError::TruncatedRead)
    );
}

#[test]
fn pli_write_and_read() {
    let pli = RtcpFbPliPacket {
        header: RtcpHeader { report_count: RtcpFbPliPacket::FMT, packet_type: RTCP_FB_PS_PT, length_field: 2, ..Default::default() },
        fb_header: RtcpFbHeader::new(1, 2),
    };
    let mut buf = Vec::new();
    write_rtcp_fb_pli(&mut buf, &pli);
    assert_eq!(buf, vec![0x81, 206, 0, 2, 0, 0, 0, 1, 0, 0, 0, 2]);
    let (read, end) = read_rtcp_fb_pli(&buf, 12, pli.header, pli.fb_header).unwrap();
    assert_eq!(read, pli);
    assert_eq!(end, 12);
}
