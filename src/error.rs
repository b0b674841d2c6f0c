use vstd::prelude::*;

verus! {

/// A packet type that the dispatcher does not know.
#[derive(Debug, Clone, Copy, PartialEq, Eq, Structural)]
pub struct UnrecognizedPacketType(pub u8);

/// A header whose length field announces more bytes than the buffer holds.
#[derive(Debug, Clone, Copy, PartialEq, Eq, Structural)]
pub struct InvalidLengthValue {
    pub length_field_bytes: usize,
    pub buf_remaining_bytes: usize,
}

/// Every way in which decoding or encoding can fail.
#[derive(Debug, Clone, Copy, PartialEq, Eq, Structural)]
pub enum RtcpError {
    /// The version bits of a header were not 2; holds the value found.
    InvalidVersion(u8),
    /// The length field times four does not fit in 16 bits.
    LengthOverflow,
    UnrecognizedPacketType(UnrecognizedPacketType),
    /// A feedback packet type with a format that has no codec.
    UnsupportedFeedbackFormat { packet_type: u8, format: u8 },
    InvalidLengthValue(InvalidLengthValue),
    /// A payload codec left bytes of its window unread.
    BufferNotFullyConsumed { remaining: usize },
    /// A padding byte was not zero.
    NonZeroPadding,
    /// The buffer ended in the middle of a field.
    TruncatedRead,
    /// A two-bit status symbol held the unused code 3.
    InvalidStatusSymbol(u8),
    /// A NACK block holds sequence numbers more than 16 apart.
    SpanTooLarge,
    /// A NACK block with no sequence number.
    EmptyNackBlock,
    /// A buffer that held no packet at all.
    NoValidPackets,
    /// Text that is not UTF-8.
    InvalidUtf8,
    /// A status chunk holds more symbols than its form can carry.
    ChunkCapacityExceeded,
    /// Packet reports that do not follow each other by sequence number.
    NonConsecutiveReports,
    /// A count or length that does not fit in its wire field.
    FieldTooLarge,
}

} // verus!
