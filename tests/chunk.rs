use rtp_parse::chunk::{PacketStatusSymbol, SomePacketStatusChunk};
use rtp_parse::packer::{pack_symbols, Chunk, MAX_ONE_BIT_CAPACITY, MAX_RUN_LENGTH_CAPACITY};

use PacketStatusSymbol::{NotReceived, ReceivedLargeOrNegativeDelta, ReceivedSmallDelta};

#[test]
fn chunk_test_chunk_default() {
    let chunk = Chunk::default();
    assert!(chunk.is_empty());
}

#[test]
fn chunk_test_chunk_one_bit() {
    let mut chunk = Chunk::default();
    // Add 14 one-bit deltas but not all the same, so run-length can't be used
    assert!(chunk.can_add(NotReceived));
    chunk.add(NotReceived);
    for _ in 1..14 {
        assert!(chunk.can_add(ReceivedSmallDelta));
        chunk.add(ReceivedSmallDelta);
    }
    // Shouldn't be any room left
    assert!(!chunk.can_add(NotReceived));
    let encoded = chunk.emit();
    assert_eq!(encoded.num_symbols(), 14);
    let SomePacketStatusChunk::StatusVectorChunk(sv_chunk) = encoded else {
        panic!("Expected status vector chunk");
    };
    assert_eq!(sv_chunk.0[0], NotReceived);
    for i in 1..14 {
        assert_eq!(sv_chunk.0[i], ReceivedSmallDelta);
    }
}

#[test]
fn chunk_test_chunk_two_bit() {
    let mut chunk = Chunk::default();
    assert!(chunk.can_add(ReceivedLargeOrNegativeDelta));
    chunk.add(ReceivedLargeOrNegativeDelta);
    // Now add 6 more symbols
    for _ in 0..6 {
        assert!(chunk.can_add(ReceivedSmallDelta));
        chunk.add(ReceivedSmallDelta);
    }
    // Next one should fail
    assert!(!chunk.can_add(ReceivedSmallDelta));
    let encoded = chunk.emit();
    assert_eq!(encoded.num_symbols(), 7);
    let SomePacketStatusChunk::StatusVectorChunk(sv_chunk) = encoded else {
        panic!("Expected status vector chunk");
    };
    assert_eq!(sv_chunk.0[0], ReceivedLargeOrNegativeDelta);
    for i in 1..7 {
        assert_eq!(sv_chunk.0[i], ReceivedSmallDelta);
    }
}

#[test]
fn test_chunk_partial() {
    // Emit a chunk with different symbols before it was full
    let mut chunk = Chunk::default();
    chunk.add(NotReceived);
    for _ in 1..5 {
        chunk.add(ReceivedSmallDelta);
    }
    // Should still be room left
    assert!(chunk.can_add(NotReceived));
    let encoded = chunk.emit();
    assert_eq!(encoded.num_symbols(), 5);
    let SomePacketStatusChunk::StatusVectorChunk(sv_chunk) = encoded else {
        panic!("Expected status vector chunk");
    };
    assert_eq!(sv_chunk.0[0], NotReceived);
    for i in 1..5 {
        assert_eq!(sv_chunk.0[i], ReceivedSmallDelta);
    }
}

#[test]
fn test_chunk_leftover() {
    // Emit a chunk where all the current symbols don't fit so there are some left over
    let mut chunk = Chunk::default();
    chunk.add(NotReceived);
    for _ in 1..9 {
        chunk.add(ReceivedSmallDelta);
    }
    chunk.add(NotReceived);
    // Should still be room left
    assert!(chunk.can_add(NotReceived));
    let encoded = chunk.emit();
    assert_eq!(encoded.num_symbols(), 7);
    let SomePacketStatusChunk::StatusVectorChunk(sv_chunk) = encoded else {
        panic!("Expected status vector chunk");
    };
    assert_eq!(sv_chunk.0[0], NotReceived);
    for i in 1..7 {
        assert_eq!(sv_chunk.0[i], ReceivedSmallDelta);
    }
    // There should still be symbols left over
    let encoded = chunk.emit();
    assert_eq!(encoded.num_symbols(), 3);
    // Should be a SV chunk because remaining symbols weren't all the same
    let SomePacketStatusChunk::StatusVectorChunk(sv_chunk) = encoded else {
        panic!("Expected status vector chunk");
    };
    assert_eq!(sv_chunk.0[0], ReceivedSmallDelta);
    assert_eq!(sv_chunk.0[1], ReceivedSmallDelta);
    assert_eq!(sv_chunk.0[2], NotReceived);
}

#[test]
fn chunk_test_chunk_run_length() {
    let mut chunk = Chunk::default();

    for i in 0..MAX_RUN_LENGTH_CAPACITY {
        assert!(chunk.can_add(ReceivedLargeOrNegativeDelta));
        // If we're beyond MAX_ONE_BIT_CAPACITY, we shouldn't be able to add another symbol
        // type
        if i > MAX_ONE_BIT_CAPACITY {
            assert!(!chunk.can_add(NotReceived));
        }
        chunk.add(ReceivedLargeOrNegativeDelta);
    }
    // Shouldn't be able to add any more
    assert!(!chunk.can_add(ReceivedLargeOrNegativeDelta));
    let encoded = chunk.emit();
    assert_eq!(encoded.num_symbols(), MAX_RUN_LENGTH_CAPACITY);
}

#[test]
fn packer_fourteen_large_give_one_run() {
    let symbols = vec![ReceivedLargeOrNegativeDelta; 14];
    let chunks = pack_symbols(&symbols);
    assert_eq!(chunks.len(), 1);
    let SomePacketStatusChunk::RunLengthEncodingChunk(rle) = &chunks[0] else {
        panic!("Expected run length chunk");
    };
    assert_eq!(rle.symbol, ReceivedLargeOrNegativeDelta);
    assert_eq!(rle.run_length, 14);
}

#[test]
fn packer_one_not_received_then_small_give_one_bit_vector() {
    let mut symbols = vec![NotReceived];
    symbols.extend(vec![ReceivedSmallDelta; 13]);
    let chunks = pack_symbols(&symbols);
    assert_eq!(chunks.len(), 1);
    let SomePacketStatusChunk::StatusVectorChunk(sv) = &chunks[0] else {
        panic!("Expected status vector chunk");
    };
    assert_eq!(sv.0, symbols);
    let word = chunks[0].encode().unwrap();
    assert_eq!(word >> 14, 0b10);
}

fn flatten(chunks: &[SomePacketStatusChunk]) -> Vec<PacketStatusSymbol> {
    let mut out = Vec::new();
    for c in chunks {
        match c {
            SomePacketStatusChunk::StatusVectorChunk(v) => out.extend(v.0.iter().copied()),
            SomePacketStatusChunk::RunLengthEncodingChunk(r) => {
                for _ in 0..r.run_length {
                    out.push(r.symbol);
                }
            }
        }
    }
    out
}

#[test]
fn packer_keeps_stream_and_capacity() {
    let mut symbols = Vec::new();
    for i in 0..9000u32 {
        let s = match (i / 7) % 5 {
            0 => ReceivedLargeOrNegativeDelta,
            1 | 2 => ReceivedSmallDelta,
            _ => NotReceived,
        };
        symbols.push(s);
    }
    symbols.extend(vec![NotReceived; 8500]);
    let chunks = pack_symbols(&symbols);
    assert_eq!(flatten(&chunks), symbols);
    for c in &chunks {
        match c {
            SomePacketStatusChunk::RunLengthEncodingChunk(r) => assert!(r.run_length <= 8191),
            SomePacketStatusChunk::StatusVectorChunk(v) => {
                assert!(v.0.len() <= 14);
                if v.0.contains(&ReceivedLargeOrNegativeDelta) {
                    assert!(v.0.len() <= 7);
                }
            }
        }
        assert!(c.encode().is_ok());
    }
}

#[test]
fn packer_add_missing_packets() {
    let mut chunk = Chunk::default();
    chunk.add_missing_packets(20);
    let encoded = chunk.emit();
    let SomePacketStatusChunk::RunLengthEncodingChunk(rle) = encoded else {
        panic!("Expected run length chunk");
    };
    assert_eq!(rle.symbol, NotReceived);
    assert_eq!(rle.run_length, 20);
    assert!(chunk.is_empty());
}
