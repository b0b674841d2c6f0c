use rtp_parse::tcc::PacketReport;
use rtp_parse::tcc_builder::RtcpFbTccBuilder;

#[test]
fn builder_fills_gaps_and_computes_deltas() {
    let mut builder = RtcpFbTccBuilder::new(10, 1_000_000);
    assert!(builder.add_received_packet(10, 1_000_500));
    // 11 and 12 were lost; 13 came 100 ms later
    assert!(builder.add_received_packet(13, 1_100_500));
    // 14 arrived 1 ms before 13
    assert!(builder.add_received_packet(14, 1_099_500));
    let packet = builder.build().unwrap();
    assert_eq!(
        packet.packet_reports,
        vec![
            PacketReport::ReceivedPacketSmallDelta { seq_num: 10, delta_ticks: 2 },
            PacketReport::UnreceivedPacket { seq_num: 11 },
            PacketReport::UnreceivedPacket { seq_num: 12 },
            PacketReport::ReceivedPacketLargeOrNegativeDelta { seq_num: 13, delta_ticks: 400 },
            PacketReport::ReceivedPacketLargeOrNegativeDelta { seq_num: 14, delta_ticks: -4 },
        ]
    );
    assert_eq!(packet.reference_time, 15);
    assert_eq!(packet.header.report_count, 15);
    let mut out = Vec::new();
    packet.write(&mut out).unwrap();
    assert_eq!(out.len(), 4 + packet.header.length_field as usize * 4);
}

#[test]
fn builder_rejects_delta_too_large() {
    let mut builder = RtcpFbTccBuilder::new(0, 0);
    assert!(!builder.add_received_packet(0, 250 * 32768));
    assert!(builder.packet_reports.is_empty());
    assert!(builder.add_received_packet(0, 250 * 32767));
}

#[test]
fn builder_wraps_sequence_numbers() {
    let mut builder = RtcpFbTccBuilder::new(65535, 0);
    assert!(builder.add_received_packet(65535, 0));
    assert!(builder.add_received_packet(1, 250));
    let packet = builder.build().unwrap();
    assert_eq!(packet.packet_reports.len(), 3);
    assert_eq!(packet.packet_reports[1], PacketReport::UnreceivedPacket { seq_num: 0 });
    assert_eq!(packet.packet_reports[2].seq_num(), 1);
}
