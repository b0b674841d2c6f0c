//! Builds a TCC feedback packet from packets received in sequence order.
use vstd::prelude::*;

use crate::error::RtcpError;
use crate::fb_header::{RTCP_FB_TL_PT, RtcpFbHeader};
use crate::header::RtcpHeader;
use crate::tcc::{PacketReport, RtcpFbTccPacket, consecutive, next_seq, report_seq_num};

verus! {

/// Microseconds in one receive-delta tick.
pub const TICK_MICROS: u64 = 250;

/// Microseconds in one unit of the 24-bit reference time.
pub const REFERENCE_TIME_MICROS: u64 = 64000;

/// The report for packet `seq` received `recv` microseconds after the epoch,
/// when the previous one came at `last`: the difference in whole ticks (of
/// its magnitude, rounded down), as a small delta where it fits a byte and
/// as a large or negative one where it fits 16 signed bits.
pub open spec fn spec_received_report(seq: u16, last: u64, recv: u64) -> Option<PacketReport> {
    if recv >= last {
        let t = (recv - last) / 250;
        if t <= 255 {
            Some(PacketReport::ReceivedPacketSmallDelta { seq_num: seq, delta_ticks: t as u8 })
        } else if t <= 32767 {
            Some(
                PacketReport::ReceivedPacketLargeOrNegativeDelta { seq_num: seq, delta_ticks: t as i16 },
            )
        } else {
            None
        }
    } else {
        let t = (last - recv) / 250;
        if t <= 32768 {
            Some(
                PacketReport::ReceivedPacketLargeOrNegativeDelta {
                    seq_num: seq,
                    delta_ticks: (0 - t) as i16,
                },
            )
        } else {
            None
        }
    }
}

/// Reports for the sequence numbers from `from` on, `n` of them, none
/// received.
pub open spec fn unreceived_run(from: u16, n: nat) -> Seq<PacketReport>
    decreases n,
{
    if n == 0 {
        Seq::empty()
    } else {
        seq![PacketReport::UnreceivedPacket { seq_num: from }] + unreceived_run(next_seq(from), (n - 1) as nat)
    }
}

/// How many sequence numbers lie from `from` up to, not including, `to`.
pub open spec fn gap(from: u16, to: u16) -> nat {
    ((to as int - from as int) % 65536) as nat
}

/// Collects reports for consecutive sequence numbers from a base on.
#[derive(Debug)]
pub struct RtcpFbTccBuilder {
    pub base_seq_num: u16,
    pub reference_time_us: u64,
    pub expected_next_seq_num: u16,
    pub last_time_us: u64,
    pub packet_reports: Vec<PacketReport>,
}

impl RtcpFbTccBuilder {
    pub open spec fn wf(&self) -> bool {
        &&& self.packet_reports@.len() <= 65535
        &&& self.packet_reports@.len() > 0 ==> report_seq_num(self.packet_reports@[0])
            == self.base_seq_num
        &&& forall|i: int|
            0 <= i < self.packet_reports@.len() ==> report_seq_num(#[trigger] self.packet_reports@[i])
                == ((self.base_seq_num as int + i) % 65536) as u16
        &&& self.expected_next_seq_num == ((self.base_seq_num as int + self.packet_reports@.len())
            % 65536) as u16
    }

    /// A builder whose first report will be for `base_seq_num`, with deltas
    /// counted from `reference_time_us`.
    pub fn new(base_seq_num: u16, reference_time_us: u64) -> (r: Self)
        ensures
            r.wf(),
            r.base_seq_num == base_seq_num,
            r.reference_time_us == reference_time_us,
            r.last_time_us == reference_time_us,
            r.packet_reports@.len() == 0,
    {
        RtcpFbTccBuilder {
            base_seq_num,
            reference_time_us,
            expected_next_seq_num: base_seq_num,
            last_time_us: reference_time_us,
            packet_reports: Vec::new(),
        }
    }

    /// Appends the report for the next expected sequence number.
    fn push_report(&mut self, report: PacketReport)
        requires
            old(self).wf(),
            old(self).packet_reports@.len() < 65535,
            report_seq_num(report) == old(self).expected_next_seq_num,
        ensures
            final(self).wf(),
            final(self).packet_reports@ == old(self).packet_reports@.push(report),
            final(self).expected_next_seq_num == next_seq(old(self).expected_next_seq_num),
            final(self).base_seq_num == old(self).base_seq_num,
            final(self).reference_time_us == old(self).reference_time_us,
            final(self).last_time_us == old(self).last_time_us,
    {
        let ghost before = self.packet_reports@;
        let seq = self.expected_next_seq_num;
        self.packet_reports.push(report);
        self.expected_next_seq_num = seq.wrapping_add(1);
        proof {
            let b = self.base_seq_num as int;
            let n = before.len() as int;
            assert forall|i: int| 0 <= i < self.packet_reports@.len() implies report_seq_num(
                #[trigger] self.packet_reports@[i],
            ) == ((b + i) % 65536) as u16 by {
                if i < n {
                    assert(self.packet_reports@[i] == before[i]);
                }
            }
            assert(((b + n) % 65536 + 1) % 65536 == (b + n + 1) % 65536);
        }
    }

    /// Adds packet `tcc_seq_num`, received at `receive_time_us`: first a
    /// not-received report for each sequence number skipped since the last
    /// one, then its own report. Packets come in sequence order. Returns
    /// false, and changes nothing, where the delta does not fit 16 signed
    /// ticks or the reports would number more than 65535.
    pub fn add_received_packet(&mut self, tcc_seq_num: u16, receive_time_us: u64) -> (r: bool)
        requires
            old(self).wf(),
        ensures
            final(self).wf(),
            final(self).base_seq_num == old(self).base_seq_num,
            final(self).reference_time_us == old(self).reference_time_us,
            ({
                let skipped = gap(old(self).expected_next_seq_num, tcc_seq_num);
                let report = spec_received_report(
                    tcc_seq_num,
                    old(self).last_time_us,
                    receive_time_us,
                );
                &&& r == (report is Some && old(self).packet_reports@.len() + skipped + 1 <= 65535)
                &&& r ==> final(self).packet_reports@ == old(self).packet_reports@ + unreceived_run(
                    old(self).expected_next_seq_num,
                    skipped,
                ).push(report->Some_0)
                &&& r ==> final(self).last_time_us == receive_time_us
                &&& !r ==> final(self).packet_reports@ == old(self).packet_reports@
                    && final(self).last_time_us == old(self).last_time_us
            }),
    {
        let report = match received_report(tcc_seq_num, self.last_time_us, receive_time_us) {
            Some(report) => report,
            None => {
                return false;
            },
        };
        let skipped = tcc_seq_num.wrapping_sub(self.expected_next_seq_num) as usize;
        assert(skipped == gap(self.expected_next_seq_num, tcc_seq_num));
        if self.packet_reports.len() + skipped + 1 > 65535 {
            return false;
        }
        let ghost start = self.packet_reports@;
        let ghost from = self.expected_next_seq_num;
        let mut i: usize = 0;
        while i < skipped
            invariant
                i <= skipped,
                start.len() + skipped + 1 <= 65535,
                self.base_seq_num == old(self).base_seq_num,
                self.reference_time_us == old(self).reference_time_us,
                self.last_time_us == old(self).last_time_us,
                from == old(self).expected_next_seq_num,
                self.packet_reports@ == start + unreceived_run(from, i as nat),
                self.packet_reports@.len() == start.len() + i,
                self.expected_next_seq_num == ((from as int + i) % 65536) as u16,
                self.wf(),
            decreases skipped - i,
        {
            let seq = self.expected_next_seq_num;
            self.push_report(PacketReport::UnreceivedPacket { seq_num: seq });
            proof {
                lemma_unreceived_run_push(from, i as nat);
                assert(self.packet_reports@ =~= start + unreceived_run(from, (i + 1) as nat));
                assert(((from as int + i) % 65536 + 1) % 65536 == (from as int + i + 1) % 65536);
            }
            i = i + 1;
        }
        assert(((from as int + skipped) % 65536) as u16 == tcc_seq_num);
        assert(report_seq_num(report) == tcc_seq_num);
        self.push_report(report);
        self.last_time_us = receive_time_us;
        true
    }

    /// The packet of the collected reports: reference time in 64 ms units
    /// (24 bits, wrapping), feedback count 0, and a synchronised header.
    pub fn build(self) -> (r: Result<RtcpFbTccPacket, RtcpError>)
        requires
            self.wf(),
        ensures
            match r {
                Ok(p) => {
                    &&& p.packet_reports@ == self.packet_reports@
                    &&& p.reference_time == (self.reference_time_us / 64000) % 0x1000000
                    &&& p.feedback_packet_count == 0
                    &&& p.header.packet_type == RTCP_FB_TL_PT
                    &&& p.header.report_count == RtcpFbTccPacket::FMT
                    &&& consecutive(p.packet_reports@)
                },
                Err(e) => e == RtcpError::FieldTooLarge,
            },
    {
        let reference_time = ((self.reference_time_us / REFERENCE_TIME_MICROS) % 0x1000000) as u32;
        let mut packet = RtcpFbTccPacket {
            header: RtcpHeader::default().packet_type(RTCP_FB_TL_PT),
            fb_header: RtcpFbHeader::default(),
            packet_reports: self.packet_reports,
            reference_time,
            feedback_packet_count: 0,
        };
        assert(consecutive(packet.packet_reports@));
        match packet.sync() {
            Ok(()) => Ok(packet),
            Err(e) => Err(e),
        }
    }
}

/// The report for a packet received at `recv` after one at `last`, where
/// its delta fits.
fn received_report(seq: u16, last: u64, recv: u64) -> (r: Option<PacketReport>)
    ensures
        r == spec_received_report(seq, last, recv),
{
    if recv >= last {
        let t = (recv - last) / TICK_MICROS;
        if t <= 255 {
            Some(PacketReport::ReceivedPacketSmallDelta { seq_num: seq, delta_ticks: t as u8 })
        } else if t <= 32767 {
            Some(PacketReport::ReceivedPacketLargeOrNegativeDelta { seq_num: seq, delta_ticks: t as i16 })
        } else {
            None
        }
    } else {
        let t = (last - recv) / TICK_MICROS;
        if t <= 32768 {
            Some(
                PacketReport::ReceivedPacketLargeOrNegativeDelta {
                    seq_num: seq,
                    delta_ticks: (0 - t as i32) as i16,
                },
            )
        } else {
            None
        }
    }
}

proof fn lemma_unreceived_run_push(from: u16, n: nat)
    ensures
        unreceived_run(from, n + 1) == unreceived_run(from, n).push(
            PacketReport::UnreceivedPacket { seq_num: ((from as int + n) % 65536) as u16 },
        ),
    decreases n,
{
    if n == 0 {
        assert(unreceived_run(next_seq(from), 0) =~= Seq::<PacketReport>::empty());
        assert(unreceived_run(from, 1) =~= seq![PacketReport::UnreceivedPacket { seq_num: from }]);
    } else {
        lemma_unreceived_run_push(next_seq(from), (n - 1) as nat);
        assert(((next_seq(from) as int + (n - 1)) % 65536) as u16 == ((from as int + n) % 65536) as u16);
        assert(unreceived_run(from, n + 1) =~= unreceived_run(from, n).push(
            PacketReport::UnreceivedPacket { seq_num: ((from as int + n) % 65536) as u16 },
        ));
    }
}

} // verus!
