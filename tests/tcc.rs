use rtp_parse::chunk::{
    PacketStatusSymbol, RunLengthEncodingChunk, SomePacketStatusChunk, StatusVectorChunk,
};
use rtp_parse::error::RtcpError;
use rtp_parse::fb_header::RtcpFbHeader;
use rtp_parse::header::RtcpHeader;
use rtp_parse::tcc::{PacketReport, RtcpFbTccPacket};

use PacketStatusSymbol::{NotReceived, ReceivedLargeOrNegativeDelta, ReceivedSmallDelta};

#[test]
fn test_sv_chunk_1_bit_symbols() {
    // 1, 0, 1, 1, 0, 0, 1, 1, 0, 0, 1, 1, 0, 0, 1, 1
    let word: u16 = 0b1011_0011_0011_0011;
    let chunk = SomePacketStatusChunk::decode(word, 14).unwrap();
    let SomePacketStatusChunk::StatusVectorChunk(sv_chunk) = &chunk else {
        panic!("Expected status vector chunk");
    };
    assert_eq!(sv_chunk.0.len(), 14);
    assert_eq!(
        sv_chunk.0,
        vec![
            ReceivedSmallDelta,
            ReceivedSmallDelta,
            NotReceived,
            NotReceived,
            ReceivedSmallDelta,
            ReceivedSmallDelta,
            NotReceived,
            NotReceived,
            ReceivedSmallDelta,
            ReceivedSmallDelta,
            NotReceived,
            NotReceived,
            ReceivedSmallDelta,
            ReceivedSmallDelta,
        ]
    );
    let mut out = Vec::new();
    chunk.write(&mut out).unwrap();
    assert_eq!(out, word.to_be_bytes().to_vec());
}

#[test]
fn test_sv_chunk_1_bit_symbols_with_limit() {
    let word: u16 = 0b1011_0011_0011_0011;
    let chunk = SomePacketStatusChunk::decode(word, 3).unwrap();
    let SomePacketStatusChunk::StatusVectorChunk(sv_chunk) = chunk else {
        panic!("Expected status vector chunk");
    };
    assert_eq!(sv_chunk.0.len(), 3);
    assert_eq!(sv_chunk.0, vec![ReceivedSmallDelta, ReceivedSmallDelta, NotReceived]);
}

#[test]
fn test_sv_chunk_2_bit_symbols() {
    // 1, 1, 00, 01, 10, 00, 01, 10, 00
    let word: u16 = 0b1100_0110_0001_1000;
    let chunk = SomePacketStatusChunk::decode(word, 15).unwrap();
    let SomePacketStatusChunk::StatusVectorChunk(sv_chunk) = &chunk else {
        panic!("Expected status vector chunk");
    };
    assert_eq!(sv_chunk.0.len(), 7);
    assert_eq!(
        sv_chunk.0,
        vec![
            NotReceived,
            ReceivedSmallDelta,
            ReceivedLargeOrNegativeDelta,
            NotReceived,
            ReceivedSmallDelta,
            ReceivedLargeOrNegativeDelta,
            NotReceived,
        ]
    );
    let mut out = Vec::new();
    chunk.write(&mut out).unwrap();
    assert_eq!(out, word.to_be_bytes().to_vec());
}

#[test]
fn test_rle_chunk() {
    // 0, 01, 0000000010101
    let word: u16 = 0b0010_0000_0001_0101;
    let chunk = SomePacketStatusChunk::decode(word, 100).unwrap();
    let SomePacketStatusChunk::RunLengthEncodingChunk(rle_chunk) = &chunk else {
        panic!("Expected run length chunk");
    };
    assert_eq!(rle_chunk.symbol, ReceivedSmallDelta);
    assert_eq!(rle_chunk.run_length, 0b0000000010101);
    let mut out = Vec::new();
    chunk.write(&mut out).unwrap();
    assert_eq!(out, word.to_be_bytes().to_vec());
}

fn tcc_data() -> Vec<u8> {
    vec![
        0x01, 0x81, 0x00, 0x08, 0x19, 0xae, 0xe8, 0x45, 0xd9, 0x55, 0x20, 0x01, 0xa8, 0xff, 0xfc,
        0x04, 0x00, 0x50, 0x04, 0x00, 0x00, 0x00, 0x00, 0x00,
    ]
}

#[test]
fn test_rtcp_fb_tcc_packet() {
    let data_buf = tcc_data();
    let (tcc_packet, end) =
        RtcpFbTccPacket::read(&data_buf, 0, RtcpHeader::default(), RtcpFbHeader::default())
            .unwrap();
    assert_eq!(end, data_buf.len());
    assert_eq!(tcc_packet.reference_time, 1683176);
    assert_eq!(tcc_packet.feedback_packet_count, 69);
    assert_eq!(
        tcc_packet.packet_reports,
        [
            PacketReport::ReceivedPacketSmallDelta { seq_num: 385, delta_ticks: 168 },
            PacketReport::ReceivedPacketLargeOrNegativeDelta { seq_num: 386, delta_ticks: -4 },
            PacketReport::ReceivedPacketSmallDelta { seq_num: 387, delta_ticks: 4 },
            PacketReport::ReceivedPacketSmallDelta { seq_num: 388, delta_ticks: 0 },
            PacketReport::ReceivedPacketSmallDelta { seq_num: 389, delta_ticks: 80 },
            PacketReport::ReceivedPacketSmallDelta { seq_num: 390, delta_ticks: 4 },
            PacketReport::ReceivedPacketSmallDelta { seq_num: 391, delta_ticks: 0 },
            PacketReport::ReceivedPacketSmallDelta { seq_num: 392, delta_ticks: 0 },
        ]
    );
}

#[test]
fn tcc_write_then_read_round_trip() {
    let reports = vec![
        PacketReport::ReceivedPacketSmallDelta { seq_num: 65534, delta_ticks: 3 },
        PacketReport::UnreceivedPacket { seq_num: 65535 },
        PacketReport::ReceivedPacketLargeOrNegativeDelta { seq_num: 0, delta_ticks: -300 },
        PacketReport::ReceivedPacketSmallDelta { seq_num: 1, delta_ticks: 250 },
        PacketReport::UnreceivedPacket { seq_num: 2 },
    ];
    let mut packet = RtcpFbTccPacket {
        header: RtcpHeader::default().packet_type(205),
        fb_header: RtcpFbHeader::new(7, 9),
        packet_reports: reports,
        reference_time: 0x123456,
        feedback_packet_count: 12,
    };
    packet.sync().unwrap();
    let mut out = Vec::new();
    packet.write(&mut out).unwrap();
    assert_eq!(out.len() % 4, 0);
    assert_eq!(out.len(), 4 + packet.header.length_field as usize * 4);
    let header = RtcpHeader::read(&out, 0).unwrap();
    let fb = RtcpFbHeader::read(&out, 4).unwrap();
    let (read, end) = RtcpFbTccPacket::read(&out, 12, header, fb).unwrap();
    assert_eq!(end, out.len());
    assert_eq!(read, packet);
}

#[test]
fn tcc_write_exact_bytes() {
    // one small delta then thirteen not received: a one-bit vector chunk
    let mut reports = vec![PacketReport::ReceivedPacketSmallDelta { seq_num: 10, delta_ticks: 5 }];
    for s in 11..24u16 {
        reports.push(PacketReport::UnreceivedPacket { seq_num: s });
    }
    let packet = RtcpFbTccPacket {
        header: RtcpHeader::default(),
        fb_header: RtcpFbHeader::default(),
        packet_reports: reports,
        reference_time: 1,
        feedback_packet_count: 2,
    };
    let mut body = Vec::new();
    packet.write_body(&mut body).unwrap();
    assert_eq!(
        body,
        vec![0x00, 0x0A, 0x00, 0x0E, 0x00, 0x00, 0x01, 0x02, 0xA0, 0x00, 0x05, 0x00]
    );
}

#[test]
fn tcc_non_consecutive_reports() {
    let packet = RtcpFbTccPacket {
        header: RtcpHeader::default(),
        fb_header: RtcpFbHeader::default(),
        packet_reports: vec![
            PacketReport::UnreceivedPacket { seq_num: 1 },
            PacketReport::UnreceivedPacket { seq_num: 3 },
        ],
        reference_time: 0,
        feedback_packet_count: 0,
    };
    let mut out = Vec::new();
    assert_eq!(packet.write(&mut out), Err(RtcpError::NonConsecutiveReports));
    assert!(out.is_empty());
}

#[test]
fn tcc_reference_time_too_large() {
    let packet = RtcpFbTccPacket {
        header: RtcpHeader::default(),
        fb_header: RtcpFbHeader::default(),
        packet_reports: vec![],
        reference_time: 0x1000000,
        feedback_packet_count: 0,
    };
    let mut out = Vec::new();
    assert_eq!(packet.write(&mut out), Err(RtcpError::FieldTooLarge));
}

#[test]
fn tcc_invalid_status_symbol() {
    // run-length chunk with symbol code 3
    assert_eq!(
        SomePacketStatusChunk::decode(0b0110_0000_0000_0001, 5),
        Err(RtcpError::InvalidStatusSymbol(3))
    );
    // two-bit vector with code 3 in its last slot
    assert_eq!(
        SomePacketStatusChunk::decode(0b1100_0000_0000_0011, 5),
        Err(RtcpError::InvalidStatusSymbol(3))
    );
}

#[test]
fn tcc_chunk_capacity_exceeded() {
    let chunk = SomePacketStatusChunk::StatusVectorChunk(StatusVectorChunk(vec![
        ReceivedLargeOrNegativeDelta;
        8
    ]));
    assert_eq!(chunk.encode(), Err(RtcpError::ChunkCapacityExceeded));
    let chunk = SomePacketStatusChunk::RunLengthEncodingChunk(RunLengthEncodingChunk {
        symbol: NotReceived,
        run_length: 8192,
    });
    assert_eq!(chunk.encode(), Err(RtcpError::ChunkCapacityExceeded));
}

#[test]
fn tcc_truncated_deltas() {
    let mut data = tcc_data();
    data.truncate(14);
    assert_eq!(
        RtcpFbTccPacket::read(&data, 0, RtcpHeader::default(), RtcpFbHeader::default()),
        Err(RtcpError::TruncatedRead)
    );
}

#[test]
fn tcc_nonzero_padding() {
    let mut data = tcc_data();
    data[23] = 1;
    assert_eq!(
        RtcpFbTccPacket::read(&data, 0, RtcpHeader::default(), RtcpFbHeader::default()),
        Err(RtcpError::NonZeroPadding)
    );
}

#[test]
fn tcc_symbol_codes() {
    assert_eq!(NotReceived.delta_size_bytes(), 0);
    assert_eq!(ReceivedSmallDelta.delta_size_bytes(), 1);
    assert_eq!(ReceivedLargeOrNegativeDelta.delta_size_bytes(), 2);
    assert_eq!(PacketStatusSymbol::try_from_two_bits(2), Ok(ReceivedLargeOrNegativeDelta));
    assert_eq!(ReceivedLargeOrNegativeDelta.try_one_bit_code(), Err(RtcpError::ChunkCapacityExceeded));
    assert_eq!(PacketStatusSymbol::from_one_bit(1), ReceivedSmallDelta);
    let r = PacketReport::ReceivedPacketLargeOrNegativeDelta { seq_num: 9, delta_ticks: -1 };
    assert_eq!(r.seq_num(), 9);
    assert_eq!(r.symbol(), ReceivedLargeOrNegativeDelta);
}

#[test]
fn tcc_spill_chunk_uses_two_bit_form() {
    // eight mixed symbols without a large delta, then a large delta: the
    // packer spills the first seven as a two-bit vector, which must decode
    // as exactly seven symbols although more follow
    let mut reports = Vec::new();
    for i in 0..8u16 {
        if i % 2 == 0 {
            reports.push(PacketReport::ReceivedPacketSmallDelta { seq_num: 100 + i, delta_ticks: i as u8 });
        } else {
            reports.push(PacketReport::UnreceivedPacket { seq_num: 100 + i });
        }
    }
    reports.push(PacketReport::ReceivedPacketLargeOrNegativeDelta { seq_num: 108, delta_ticks: 1000 });
    let mut packet = RtcpFbTccPacket {
        header: RtcpHeader::default().packet_type(205),
        fb_header: RtcpFbHeader::default(),
        packet_reports: reports,
        reference_time: 5,
        feedback_packet_count: 1,
    };
    packet.sync().unwrap();
    let mut out = Vec::new();
    packet.write(&mut out).unwrap();
    // the first chunk word is a two-bit vector: 1 1 then 01 00 01 00 01 00 01
    assert_eq!(&out[20..22], &[0b1101_0001, 0b0001_0001]);
    let header = RtcpHeader::read(&out, 0).unwrap();
    let fb = RtcpFbHeader::read(&out, 4).unwrap();
    let (read, end) = RtcpFbTccPacket::read(&out, 12, header, fb).unwrap();
    assert_eq!(end, out.len());
    assert_eq!(read, packet);
}

#[test]
fn chunk_iter_lists_symbols() {
    let run = SomePacketStatusChunk::RunLengthEncodingChunk(RunLengthEncodingChunk {
        symbol: ReceivedSmallDelta,
        run_length: 3,
    });
    assert_eq!(run.iter(), vec![ReceivedSmallDelta; 3]);
    let vector = SomePacketStatusChunk::StatusVectorChunk(StatusVectorChunk(vec![NotReceived, ReceivedSmallDelta]));
    assert_eq!(vector.iter(), vec![NotReceived, ReceivedSmallDelta]);
}
