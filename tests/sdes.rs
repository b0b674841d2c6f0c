use rtp_parse::error::RtcpError;
use rtp_parse::header::RtcpHeader;
use rtp_parse::sdes::{RtcpSdesPacket, SdesChunk, SdesItem};

fn create_cname_item_bytes(str: &str) -> Vec<u8> {
    let data = str.bytes();
    let mut item_data = vec![0x1, data.len() as u8];
    item_data.extend(data.collect::<Vec<u8>>());
    item_data
}

#[test]
fn test_read_sdes_item_success() {
    let str = "hello, world!";
    let item_data = create_cname_item_bytes(str);
    let (sdes_item, _) = SdesItem::read(&item_data, 0).expect("successful read");
    match sdes_item {
        SdesItem::Cname(v) => assert_eq!(v, str),
        _ => panic!("Wrong SdesItem type"),
    }
}

#[test]
fn test_read_sdes_item_bad_data() {
    let data: Vec<u8> = vec![0xDE, 0xAD, 0xBE, 0xEF];
    let mut item_data = vec![0x1, data.len() as u8];
    item_data.extend(data);
    let res = SdesItem::read(&item_data, 0);
    assert!(res.is_err());
    assert_eq!(res.unwrap_err(), RtcpError::InvalidUtf8);
}

#[test]
fn test_read_sdes_item() {
    // Cname item
    let data = create_cname_item_bytes("hello");
    let (item, _) = SdesItem::read(&data, 0).expect("successful read");
    match item {
        SdesItem::Cname(s) => assert_eq!("hello", s),
        _ => panic!("Expected cname item"),
    }
    // unknown item
    let data: Vec<u8> = vec![0x6, 0x4, 0xDE, 0xAD, 0xBE, 0xEF];
    let (item, _) = SdesItem::read(&data, 0).expect("successful read");
    match item {
        SdesItem::Unknown { item_type, data } => {
            assert_eq!(item_type, 6);
            assert_eq!(&data[..], [0xDE, 0xAD, 0xBE, 0xEF]);
        }
        _ => panic!("Expected unknown item"),
    }
}

#[test]
fn test_write_sdes_item() {
    let item = SdesItem::cname("hello");
    let mut buf = Vec::new();
    item.write(&mut buf).expect("successful write");
    let (read_item, _) = SdesItem::read(&buf, 0).expect("successful read");
    assert_eq!(item, read_item);
}

#[test]
fn test_write_unknown_sdes_item() {
    let item = SdesItem::Unknown { item_type: 0x5, data: vec![0x42, 0x24] };
    let mut buf = Vec::new();
    item.write(&mut buf).expect("successful write");
    let (read_item, _) = SdesItem::read(&buf, 0).expect("successful read");
    assert_eq!(item, read_item);
}

#[test]
fn test_read_sdes_chunk() {
    let bits = [
        // ssrc (42)
        0x00u8, 0x00, 0x00, 0x2a, // Cname, length 5, value hello
        0x01, 0x5, 0x68, 0x65, 0x6c, 0x6c, 0x6f, // Empty sdes item to finish
        0x00,
    ];
    let (chunk, end) = SdesChunk::read(&bits, 0).expect("successful read");
    assert_eq!(bits.len() - end, 0);
    assert_eq!(chunk.ssrc, 42);
    assert_eq!(chunk.sdes_items.len(), 1);
    let item = &chunk.sdes_items[0];
    assert_eq!(item, &SdesItem::cname("hello"));
}

#[test]
fn tesd_read_sdes_chunks() {
    let bits = [
        0x00u8, 0x00, 0x00, 0x2a, 0x01, 0x5, 0x68, 0x65, 0x6c, 0x6c, 0x6f, // Unknown
        0x04, 0x2, 0x42, 0x24, // Empty sdes item to finish
        0x00,
    ];
    let (chunk, end) = SdesChunk::read(&bits, 0).expect("successful read");
    assert_eq!(bits.len() - end, 0);
    assert_eq!(chunk.ssrc, 42);
    assert_eq!(chunk.sdes_items.len(), 2);
    let item = &chunk.sdes_items[0];
    assert_eq!(item, &SdesItem::cname("hello"));
    let item = &chunk.sdes_items[1];
    assert_eq!(item, &SdesItem::Unknown { item_type: 0x4, data: vec![0x42, 0x24] });
}

#[test]
fn test_read_sdes_chunks_no_termination() {
    let bits = [
        0x00u8, 0x00, 0x00, 0x2a, 0x01, 0x05, 0x68, 0x65, 0x6c, 0x6c, 0x6f, 0x04, 0x2, 0x42, 0x24,
        // No empty item to finish
    ];
    let chunk = SdesChunk::read(&bits, 0);
    assert!(chunk.is_err());
}

#[test]
fn test_write_sdes_chunk() {
    let chunk = SdesChunk::new(42)
        .add_item(SdesItem::cname("hello"))
        .add_item(SdesItem::Unknown { item_type: 5, data: vec![0x42, 0x24] });
    let mut buf = Vec::new();
    chunk.write(&mut buf).expect("successful write");
    let (read_chunk, _) = SdesChunk::read(&buf, 0).expect("successful read");
    assert_eq!(chunk, read_chunk);
}

#[test]
fn test_read_sdes() {
    let header = RtcpHeader {
        version: 2,
        has_padding: false,
        report_count: 1,
        packet_type: 202,
        length_field: 4,
    };
    let sdes_chunk_bits = [
        0x00u8, 0x00, 0x00, 0x2a, 0x01, 0x05, 0x68, 0x65, 0x6c, 0x6c, 0x6f, 0x04, 0x2, 0x42, 0x24,
        0x00,
    ];
    let (sdes, end) = RtcpSdesPacket::read(&sdes_chunk_bits, 0, header).expect("Successful read");
    assert_eq!(sdes_chunk_bits.len() - end, 0);
    assert_eq!(sdes.chunks.len(), 1);
    let chunk = &sdes.chunks[0];
    assert_eq!(chunk.ssrc, 42);
    assert_eq!(chunk.sdes_items.len(), 2);
}

#[test]
fn test_read_sdes_multiple_chunks() {
    let header = RtcpHeader {
        version: 2,
        has_padding: false,
        report_count: 2,
        packet_type: 202,
        length_field: 9,
    };
    let sdes_chunks_bits = [
        0x00u8, 0x00, 0x00, 0x2a, 0x01, 0x05, 0x68, 0x65, 0x6c, 0x6c, 0x6f, 0x04, 0x2, 0x42, 0x24,
        0x00, // ssrc (43)
        0x00, 0x00, 0x00, 0x2b, // Unknown
        0x04, 0x4, 0x42, 0x24, 0x42, 0x24, // Cname hello
        0x01, 0x05, 0x68, 0x65, 0x6c, 0x6c, 0x6f, // Empty item
        0x00, // Padding
        0x00, 0x00,
    ];
    let (sdes, end) = RtcpSdesPacket::read(&sdes_chunks_bits, 0, header).expect("Successful read");
    assert_eq!(sdes_chunks_bits.len() - end, 0);
    assert_eq!(sdes.chunks.len(), 2);
    let chunk = &sdes.chunks[0];
    assert_eq!(chunk.ssrc, 42);
    assert_eq!(chunk.sdes_items.len(), 2);
    let chunk = &sdes.chunks[1];
    assert_eq!(chunk.ssrc, 43);
    assert_eq!(chunk.sdes_items.len(), 2);
}

#[test]
fn test_sync_rtcp_sdes() {
    let mut rtcp_sdes = RtcpSdesPacket::default()
        .add_chunk(SdesChunk::new(42).add_item(SdesItem::cname("hello")))
        .add_chunk(SdesChunk::new(43).add_item(SdesItem::cname("world")));
    rtcp_sdes.sync().expect("successful sync");
    assert_eq!(rtcp_sdes.header.packet_type, RtcpSdesPacket::PT);
    assert_eq!(rtcp_sdes.header.report_count, 2);
    // 2 chunks of ssrc (4) + cname (7) + empty (1) = 12 bytes: 24 bytes, 6 words
    assert_eq!(rtcp_sdes.header.length_field, 6);
}

#[test]
fn test_write_rtcp_sdes() {
    let mut rtcp_sdes = RtcpSdesPacket::default()
        .add_chunk(SdesChunk::new(42).add_item(SdesItem::cname("hello")))
        .add_chunk(SdesChunk::new(43).add_item(SdesItem::cname("world")));
    rtcp_sdes.sync().expect("successful sync");
    let mut buf = Vec::new();
    rtcp_sdes.write(&mut buf).expect("successful write");
    let rtcp_header = RtcpHeader::read(&buf, 0).expect("rtcp header");
    let (read_rtcp_sdes, _) =
        RtcpSdesPacket::read(&buf, 4, rtcp_header).expect("successful read");
    assert_eq!(read_rtcp_sdes, rtcp_sdes);
}

#[test]
fn sdes_chunk_length_counts_terminator() {
    // ssrc 4 + item 2 + 2 = 8, then the empty item needs a ninth byte: 12 with padding
    let chunk = SdesChunk::new(1).add_item(SdesItem::Unknown { item_type: 7, data: vec![1, 2] });
    assert_eq!(chunk.length_bytes(), 12);
    let mut buf = Vec::new();
    chunk.write(&mut buf).unwrap();
    assert_eq!(buf, vec![0, 0, 0, 1, 7, 2, 1, 2, 0, 0, 0, 0]);
}

#[test]
fn sdes_item_too_long() {
    let item = SdesItem::Unknown { item_type: 9, data: vec![0; 256] };
    let mut buf = Vec::new();
    assert_eq!(item.write(&mut buf), Err(RtcpError::FieldTooLarge));
}
