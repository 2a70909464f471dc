//! The `.srp` capture log: its in-memory form and its little-endian binary
//! layout (magic `SRP1`, counts, channel table, packet records, statistics).

use vstd::prelude::*;
use vstd::utf8::{decode_utf8, encode_utf8, valid_utf8};
use crate::byte_codec::{
    le_bytes, le_decode_u16, le_decode_u32, le_decode_u64, le_encode_u16, le_encode_u32,
    le_encode_u64, le_value, lemma_le_bytes_len, lemma_le_value_of_bytes, lemma_pow256_values,
    pow256, put_bytes,
};
use crate::config::{
    config_fault, enabled_only, validated_view, ChannelConfigView, Config, ConfigError, SerialConfig,
    SerialConfigView, ValidatedChannel, ValidatedChannelView,
};
use crate::text::{decimal, decimal_string};
use crate::packet::ParserStats;

verus! {

/// A channel as the log describes it.
#[derive(Debug, PartialEq, Eq)]
pub struct ChannelMeta {
    pub id: u16,
    pub name: String,
    pub serial: SerialConfig,
    pub packet_len: usize,
    pub header: Vec<u8>,
    pub tail: Vec<u8>,
}

pub struct ChannelMetaView {
    pub id: u16,
    pub name: Seq<char>,
    pub serial: SerialConfigView,
    pub packet_len: usize,
    pub header: Seq<u8>,
    pub tail: Seq<u8>,
}

impl View for ChannelMeta {
    type V = ChannelMetaView;

    open spec fn view(&self) -> ChannelMetaView {
        ChannelMetaView {
            id: self.id,
            name: self.name@,
            serial: self.serial@,
            packet_len: self.packet_len,
            header: self.header@,
            tail: self.tail@,
        }
    }
}

impl Clone for ChannelMeta {
    fn clone(&self) -> (r: Self)
        ensures
            r@ == self@,
    {
        let header = self.header.clone();
        let tail = self.tail.clone();
        assert(header@ =~= self.header@);
        assert(tail@ =~= self.tail@);
        ChannelMeta {
            id: self.id,
            name: self.name.clone(),
            serial: self.serial.clone(),
            packet_len: self.packet_len,
            header,
            tail,
        }
    }
}

/// One captured packet: its channel, its Unix timestamp in nanoseconds and
/// its complete bytes, header and tail included.
#[derive(Debug, PartialEq, Eq)]
pub struct PacketRecord {
    pub channel_id: u16,
    pub timestamp_unix_ns: u64,
    pub packet: Vec<u8>,
}

pub struct PacketRecordView {
    pub channel_id: u16,
    pub timestamp_unix_ns: u64,
    pub packet: Seq<u8>,
}

impl View for PacketRecord {
    type V = PacketRecordView;

    open spec fn view(&self) -> PacketRecordView {
        PacketRecordView {
            channel_id: self.channel_id,
            timestamp_unix_ns: self.timestamp_unix_ns,
            packet: self.packet@,
        }
    }
}

impl Clone for PacketRecord {
    fn clone(&self) -> (r: Self)
        ensures
            r@ == self@,
    {
        let packet = self.packet.clone();
        assert(packet@ =~= self.packet@);
        PacketRecord {
            channel_id: self.channel_id,
            timestamp_unix_ns: self.timestamp_unix_ns,
            packet,
        }
    }
}

/// Parser counters of one channel at the end of a capture.
#[derive(Debug, Clone, Copy, PartialEq, Eq, Structural)]
pub struct ChannelStats {
    pub channel_id: u16,
    pub packets: u64,
    pub bad_frames: u64,
    pub discarded_bytes: u64,
    pub incomplete_tail_bytes: u64,
}

impl From<(u16, ParserStats)> for ChannelStats {
    fn from(value: (u16, ParserStats)) -> (r: Self) {
        let (channel_id, stats) = value;
        ChannelStats {
            channel_id,
            packets: stats.packets,
            bad_frames: stats.bad_frames,
            discarded_bytes: stats.discarded_bytes,
            incomplete_tail_bytes: stats.incomplete_tail_bytes,
        }
    }
}

impl vstd::std_specs::convert::FromSpecImpl<(u16, ParserStats)> for ChannelStats {
    open spec fn obeys_from_spec() -> bool {
        true
    }

    open spec fn from_spec(v: (u16, ParserStats)) -> ChannelStats {
        ChannelStats {
            channel_id: v.0,
            packets: v.1.packets,
            bad_frames: v.1.bad_frames,
            discarded_bytes: v.1.discarded_bytes,
            incomplete_tail_bytes: v.1.incomplete_tail_bytes,
        }
    }
}

/// A whole capture: the channel table, the packet records and the
/// per-channel statistics.
#[derive(Debug, PartialEq, Eq)]
pub struct CaptureLog {
    pub channels: Vec<ChannelMeta>,
    pub records: Vec<PacketRecord>,
    pub stats: Vec<ChannelStats>,
}

pub struct CaptureLogView {
    pub channels: Seq<ChannelMetaView>,
    pub records: Seq<PacketRecordView>,
    pub stats: Seq<ChannelStats>,
}

impl View for CaptureLog {
    type V = CaptureLogView;

    open spec fn view(&self) -> CaptureLogView {
        CaptureLogView {
            channels: self.channels@.map_values(|c: ChannelMeta| c@),
            records: self.records@.map_values(|r: PacketRecord| r@),
            stats: self.stats@,
        }
    }
}

/// Why a log cannot be built, written or read.
#[derive(Debug)]
pub enum LogError {
    /// The bytes end before the log does.
    UnexpectedEof,
    /// The bytes do not start with `SRP1`.
    InvalidMagic,
    /// A name or setting in the channel table is not UTF-8.
    InvalidUtf8,
    /// A record names a channel that the table does not hold.
    UnknownChannel(u16),
    /// A record's length is not its channel's packet length.
    PacketLenMismatch { packet_len: usize, channel_id: u16, expected_len: usize },
    /// A count or length does not fit its field in the layout.
    OutOfRange,
    /// More channels than a `u16` channel id can number.
    TooManyChannels,
    /// The configuration the log is built from is refused.
    Config(ConfigError),
}

/// The four bytes that open every log: ASCII `SRP1`.
pub open spec fn magic() -> Seq<u8> {
    seq![0x53u8, 0x52u8, 0x50u8, 0x31u8]
}

/// A length-prefixed field: a `u32` length, then the bytes.
pub open spec fn enc_field(bytes: Seq<u8>) -> Seq<u8> {
    le_bytes(bytes.len(), 4) + bytes
}

/// A length-prefixed UTF-8 string.
pub open spec fn enc_text(s: Seq<char>) -> Seq<u8> {
    enc_field(encode_utf8(s))
}

pub open spec fn enc_channel(c: ChannelMetaView) -> Seq<u8> {
    le_bytes(c.id as nat, 2) + enc_text(c.name) + enc_text(c.serial.port) + le_bytes(
        c.serial.baud_rate as nat,
        4,
    ) + seq![c.serial.data_bits] + seq![c.serial.stop_bits] + enc_text(c.serial.parity) + enc_text(
        c.serial.flow_control,
    ) + le_bytes(c.serial.read_timeout_ms as nat, 8) + le_bytes(c.packet_len as nat, 4)
        + enc_field(c.header) + enc_field(c.tail)
}

pub open spec fn enc_record(r: PacketRecordView) -> Seq<u8> {
    le_bytes(r.channel_id as nat, 2) + le_bytes(r.timestamp_unix_ns as nat, 8) + le_bytes(
        r.packet.len(),
        4,
    ) + r.packet
}

pub open spec fn enc_stat(s: ChannelStats) -> Seq<u8> {
    le_bytes(s.channel_id as nat, 2) + le_bytes(s.packets as nat, 8) + le_bytes(
        s.bad_frames as nat,
        8,
    ) + le_bytes(s.discarded_bytes as nat, 8) + le_bytes(s.incomplete_tail_bytes as nat, 8)
}

pub open spec fn enc_channels(cs: Seq<ChannelMetaView>) -> Seq<u8>
    decreases cs.len(),
{
    if cs.len() == 0 {
        Seq::empty()
    } else {
        enc_channels(cs.drop_last()) + enc_channel(cs.last())
    }
}

pub open spec fn enc_records(rs: Seq<PacketRecordView>) -> Seq<u8>
    decreases rs.len(),
{
    if rs.len() == 0 {
        Seq::empty()
    } else {
        enc_records(rs.drop_last()) + enc_record(rs.last())
    }
}

pub open spec fn enc_stats(ss: Seq<ChannelStats>) -> Seq<u8>
    decreases ss.len(),
{
    if ss.len() == 0 {
        Seq::empty()
    } else {
        enc_stats(ss.drop_last()) + enc_stat(ss.last())
    }
}

/// The binary form of a log.
pub open spec fn encode_log_spec(log: CaptureLogView) -> Seq<u8> {
    magic() + le_bytes(log.channels.len(), 2) + le_bytes(log.records.len(), 8) + le_bytes(
        log.stats.len(),
        2,
    ) + enc_channels(log.channels) + enc_records(log.records) + enc_stats(log.stats)
}

/// A string whose UTF-8 length fits a `u32` length prefix.
pub open spec fn text_fits(s: Seq<char>) -> bool {
    encode_utf8(s).len() <= u32::MAX
}

pub open spec fn channel_fits(c: ChannelMetaView) -> bool {
    &&& text_fits(c.name)
    &&& text_fits(c.serial.port)
    &&& text_fits(c.serial.parity)
    &&& text_fits(c.serial.flow_control)
    &&& c.packet_len <= u32::MAX
    &&& c.header.len() <= u32::MAX
    &&& c.tail.len() <= u32::MAX
}

/// Every count and length of the log fits its field in the layout.
pub open spec fn log_fits(log: CaptureLogView) -> bool {
    &&& log.channels.len() <= u16::MAX
    &&& log.records.len() <= u64::MAX
    &&& log.stats.len() <= u16::MAX
    &&& forall|i: int| 0 <= i < log.channels.len() ==> channel_fits(#[trigger] log.channels[i])
    &&& forall|i: int|
        0 <= i < log.records.len() ==> (#[trigger] log.records[i]).packet.len() <= u32::MAX
}

fn put_u16(out: &mut Vec<u8>, v: u16)
    ensures
        final(out)@ == old(out)@ + le_bytes(v as nat, 2),
{
    let b = le_encode_u16(v);
    put_bytes(out, &b);
}

fn put_u32(out: &mut Vec<u8>, v: u32)
    ensures
        final(out)@ == old(out)@ + le_bytes(v as nat, 4),
{
    let b = le_encode_u32(v);
    put_bytes(out, &b);
}

fn put_u64(out: &mut Vec<u8>, v: u64)
    ensures
        final(out)@ == old(out)@ + le_bytes(v as nat, 8),
{
    let b = le_encode_u64(v);
    put_bytes(out, &b);
}

fn put_field(out: &mut Vec<u8>, bytes: &[u8])
    requires
        bytes@.len() <= u32::MAX,
    ensures
        final(out)@ == old(out)@ + enc_field(bytes@),
{
    put_u32(out, bytes.len() as u32);
    put_bytes(out, bytes);
    assert(final(out)@ =~= old(out)@ + enc_field(bytes@));
}


fn put_text(out: &mut Vec<u8>, s: &str) -> (r: bool)
    ensures
        r == text_fits(s@),
        r ==> final(out)@ == old(out)@ + enc_text(s@),
{
    let b = s.as_bytes();
    if b.len() > 0xFFFF_FFFF {
        return false;
    }
    put_field(out, b);
    true
}

#[verifier::spinoff_prover]
#[verifier::rlimit(40)]
fn put_channel(out: &mut Vec<u8>, c: &ChannelMeta) -> (r: bool)
    ensures
        r == channel_fits(c@),
        r ==> final(out)@ == old(out)@ + enc_channel(c@),
{
    if c.packet_len > 0xFFFF_FFFF || c.header.len() > 0xFFFF_FFFF || c.tail.len() > 0xFFFF_FFFF {
        return false;
    }
    put_u16(out, c.id);
    if !put_text(out, c.name.as_str()) {
        return false;
    }
    if !put_text(out, c.serial.port.as_str()) {
        return false;
    }
    put_u32(out, c.serial.baud_rate);
    out.push(c.serial.data_bits);
    out.push(c.serial.stop_bits);
    if !put_text(out, c.serial.parity.as_str()) {
        return false;
    }
    if !put_text(out, c.serial.flow_control.as_str()) {
        return false;
    }
    put_u64(out, c.serial.read_timeout_ms);
    put_u32(out, c.packet_len as u32);
    put_field(out, c.header.as_slice());
    put_field(out, c.tail.as_slice());
    assert(final(out)@ =~= old(out)@ + enc_channel(c@));
    true
}

fn put_record(out: &mut Vec<u8>, r: &PacketRecord)
    requires
        r@.packet.len() <= u32::MAX,
    ensures
        final(out)@ == old(out)@ + enc_record(r@),
{
    put_u16(out, r.channel_id);
    put_u64(out, r.timestamp_unix_ns);
    put_u32(out, r.packet.len() as u32);
    put_bytes(out, r.packet.as_slice());
    assert(final(out)@ =~= old(out)@ + enc_record(r@));
}

fn put_stat(out: &mut Vec<u8>, s: &ChannelStats)
    ensures
        final(out)@ == old(out)@ + enc_stat(*s),
{
    put_u16(out, s.channel_id);
    put_u64(out, s.packets);
    put_u64(out, s.bad_frames);
    put_u64(out, s.discarded_bytes);
    put_u64(out, s.incomplete_tail_bytes);
    assert(final(out)@ =~= old(out)@ + enc_stat(*s));
}

/// The bytes of the log's header: magic and the three counts, as given.
pub open spec fn enc_header(channel_count: u16, record_count: u64, stat_count: u16) -> Seq<u8> {
    magic() + le_bytes(channel_count as nat, 2) + le_bytes(record_count as nat, 8) + le_bytes(
        stat_count as nat,
        2,
    )
}

fn put_header(out: &mut Vec<u8>, channel_count: u16, record_count: u64, stat_count: u16)
    ensures
        final(out)@ == old(out)@ + enc_header(channel_count, record_count, stat_count),
{
    out.push(0x53);
    out.push(0x52);
    out.push(0x50);
    out.push(0x31);
    put_u16(out, channel_count);
    put_u64(out, record_count);
    put_u16(out, stat_count);
    assert(final(out)@ =~= old(out)@ + enc_header(channel_count, record_count, stat_count));
}

/// Appends the channel table; false where a channel does not fit the layout.
fn put_channels(out: &mut Vec<u8>, channels: &Vec<ChannelMeta>) -> (r: bool)
    ensures
        r == forall|i: int| 0 <= i < channels@.len() ==> channel_fits(#[trigger] channels@[i]@),
        r ==> final(out)@ == old(out)@ + enc_channels(channels@.map_values(|c: ChannelMeta| c@)),
{
    let ghost cs = channels@.map_values(|c: ChannelMeta| c@);
    let mut i: usize = 0;
    while i < channels.len()
        invariant
            cs == channels@.map_values(|c: ChannelMeta| c@),
            i <= channels@.len(),
            forall|k: int| 0 <= k < i ==> channel_fits(#[trigger] channels@[k]@),
            out@ == old(out)@ + enc_channels(cs.take(i as int)),
        decreases channels@.len() - i,
    {
        if !put_channel(out, &channels[i]) {
            return false;
        }
        assert(cs.take(i + 1).drop_last() =~= cs.take(i as int));
        assert(out@ =~= old(out)@ + enc_channels(cs.take(i + 1)));
        i = i + 1;
    }
    assert(cs.take(i as int) =~= cs);
    true
}

/// Appends the packet records.
fn put_records(out: &mut Vec<u8>, records: &Vec<PacketRecord>) -> (r: bool)
    ensures
        r == forall|i: int|
            0 <= i < records@.len() ==> (#[trigger] records@[i]@).packet.len() <= u32::MAX,
        r ==> final(out)@ == old(out)@ + enc_records(records@.map_values(|r: PacketRecord| r@)),
{
    let ghost rs = records@.map_values(|r: PacketRecord| r@);
    let mut i: usize = 0;
    while i < records.len()
        invariant
            rs == records@.map_values(|r: PacketRecord| r@),
            i <= records@.len(),
            forall|k: int| 0 <= k < i ==> (#[trigger] records@[k]@).packet.len() <= u32::MAX,
            out@ == old(out)@ + enc_records(rs.take(i as int)),
        decreases records@.len() - i,
    {
        if records[i].packet.len() > 0xFFFF_FFFF {
            return false;
        }
        put_record(out, &records[i]);
        assert(rs.take(i + 1).drop_last() =~= rs.take(i as int));
        assert(out@ =~= old(out)@ + enc_records(rs.take(i + 1)));
        i = i + 1;
    }
    assert(rs.take(i as int) =~= rs);
    true
}

fn put_stats(out: &mut Vec<u8>, stats: &Vec<ChannelStats>)
    ensures
        final(out)@ == old(out)@ + enc_stats(stats@),
{
    let mut i: usize = 0;
    while i < stats.len()
        invariant
            i <= stats@.len(),
            out@ == old(out)@ + enc_stats(stats@.take(i as int)),
        decreases stats@.len() - i,
    {
        put_stat(out, &stats[i]);
        assert(stats@.take(i + 1).drop_last() =~= stats@.take(i as int));
        assert(out@ =~= old(out)@ + enc_stats(stats@.take(i + 1)));
        i = i + 1;
    }
    assert(stats@.take(i as int) =~= stats@);
}

/// The log in its binary form, or `OutOfRange` where a count or length
/// does not fit its field.
pub fn write_log(log: &CaptureLog) -> (r: Result<Vec<u8>, LogError>)
    ensures
        r is Ok <==> log_fits(log@),
        r matches Ok(b) ==> b@ == encode_log_spec(log@),
        r matches Err(e) ==> e is OutOfRange,
{
    if log.channels.len() > 0xFFFF || log.stats.len() > 0xFFFF {
        return Err(LogError::OutOfRange);
    }
    let mut out: Vec<u8> = Vec::new();
    put_header(&mut out, log.channels.len() as u16, log.records.len() as u64, log.stats.len() as u16);
    if !put_channels(&mut out, &log.channels) {
        proof {
            assert(!log_fits(log@)) by {
                let k = choose|k: int| 0 <= k < log.channels@.len() && !channel_fits(#[trigger] log.channels@[k]@);
                assert(log@.channels[k] == log.channels@[k]@);
            }
        }
        return Err(LogError::OutOfRange);
    }
    if !put_records(&mut out, &log.records) {
        proof {
            assert(!log_fits(log@)) by {
                let k = choose|k: int| 0 <= k < log.records@.len() && !((#[trigger] log.records@[k]@).packet.len() <= u32::MAX);
                assert(log@.records[k] == log.records@[k]@);
            }
        }
        return Err(LogError::OutOfRange);
    }
    put_stats(&mut out, &log.stats);
    proof {
        assert(forall|i: int| 0 <= i < log@.channels.len() ==> log@.channels[i] == log.channels@[i]@);
        assert(forall|i: int| 0 <= i < log@.records.len() ==> log@.records[i] == log.records@[i]@);
        assert(out@ =~= encode_log_spec(log@));
    }
    Ok(out)
}


/// `String::from_utf8` (std): succeeds exactly on valid UTF-8, and then the
/// string's UTF-8 bytes are the bytes given.
#[verifier::external_body]
fn string_from_utf8(bytes: Vec<u8>) -> (r: Option<String>)
    ensures
        r is Some <==> valid_utf8(bytes@),
        r matches Some(s) ==> encode_utf8(s@) == bytes@,
{
    String::from_utf8(bytes).ok()
}

/// The `n` bytes at `p`.
pub open spec fn take_bytes(b: Seq<u8>, p: nat, n: nat) -> Result<(Seq<u8>, nat), LogError> {
    if p + n <= b.len() {
        Ok((b.subrange(p as int, (p + n) as int), p + n))
    } else {
        Err(LogError::UnexpectedEof)
    }
}

/// The `n`-byte little-endian number at `p`.
pub open spec fn take_uint(b: Seq<u8>, p: nat, n: nat) -> Result<(nat, nat), LogError> {
    match take_bytes(b, p, n) {
        Ok((s, q)) => Ok((le_value(s), q)),
        Err(e) => Err(e),
    }
}

/// The length-prefixed field at `p`.
pub open spec fn take_field(b: Seq<u8>, p: nat) -> Result<(Seq<u8>, nat), LogError> {
    match take_uint(b, p, 4) {
        Ok((len, q)) => take_bytes(b, q, len),
        Err(e) => Err(e),
    }
}

/// The length-prefixed UTF-8 string at `p`.
pub open spec fn take_text(b: Seq<u8>, p: nat) -> Result<(Seq<char>, nat), LogError> {
    match take_field(b, p) {
        Ok((s, q)) => if valid_utf8(s) {
            Ok((decode_utf8(s), q))
        } else {
            Err(LogError::InvalidUtf8)
        },
        Err(e) => Err(e),
    }
}

/// The channel-table entry at `p`. The log holds no passthrough port.
#[verifier::opaque]
pub open spec fn parse_channel(b: Seq<u8>, p: nat) -> Result<(ChannelMetaView, nat), LogError> {
    match take_uint(b, p, 2) {
        Err(e) => Err(e),
        Ok((id, p1)) => match take_text(b, p1) {
            Err(e) => Err(e),
            Ok((name, p2)) => match take_text(b, p2) {
                Err(e) => Err(e),
                Ok((port, p3)) => match take_uint(b, p3, 4) {
                    Err(e) => Err(e),
                    Ok((baud, p4)) => match take_uint(b, p4, 1) {
                        Err(e) => Err(e),
                        Ok((data_bits, p5)) => match take_uint(b, p5, 1) {
                            Err(e) => Err(e),
                            Ok((stop_bits, p6)) => match take_text(b, p6) {
                                Err(e) => Err(e),
                                Ok((parity, p7)) => match take_text(b, p7) {
                                    Err(e) => Err(e),
                                    Ok((flow, p8)) => match take_uint(b, p8, 8) {
                                        Err(e) => Err(e),
                                        Ok((timeout, p9)) => match take_uint(b, p9, 4) {
                                            Err(e) => Err(e),
                                            Ok((plen, p10)) => match take_field(b, p10) {
                                                Err(e) => Err(e),
                                                Ok((header, p11)) => match take_field(b, p11) {
                                                    Err(e) => Err(e),
                                                    Ok((tail, p12)) => Ok(
                                                        (
                                                            ChannelMetaView {
                                                                id: id as u16,
                                                                name,
                                                                serial: SerialConfigView {
                                                                    port,
                                                                    passthrough_port: None,
                                                                    baud_rate: baud as u32,
                                                                    data_bits: data_bits as u8,
                                                                    stop_bits: stop_bits as u8,
                                                                    parity,
                                                                    flow_control: flow,
                                                                    read_timeout_ms: timeout as u64,
                                                                },
                                                                packet_len: plen as usize,
                                                                header,
                                                                tail,
                                                            },
                                                            p12,
                                                        ),
                                                    ),
                                                },
                                            },
                                        },
                                    },
                                },
                            },
                        },
                    },
                },
            },
        },
    }
}

/// The `n` channel-table entries from `p` on.
pub open spec fn parse_channels(b: Seq<u8>, p: nat, n: nat) -> Result<
    (Seq<ChannelMetaView>, nat),
    LogError,
>
    decreases n,
{
    if n == 0 {
        Ok((Seq::empty(), p))
    } else {
        match parse_channels(b, p, (n - 1) as nat) {
            Err(e) => Err(e),
            Ok((cs, q)) => match parse_channel(b, q) {
                Err(e) => Err(e),
                Ok((c, q2)) => Ok((cs.push(c), q2)),
            },
        }
    }
}

/// The packet length of the last channel in the table with this id.
pub open spec fn channel_packet_len(cs: Seq<ChannelMetaView>, id: u16) -> Option<usize>
    decreases cs.len(),
{
    if cs.len() == 0 {
        None
    } else if cs.last().id == id {
        Some(cs.last().packet_len)
    } else {
        channel_packet_len(cs.drop_last(), id)
    }
}

/// The packet record at `p`; its length must be its channel's packet length.
#[verifier::opaque]
pub open spec fn parse_record(b: Seq<u8>, p: nat, cs: Seq<ChannelMetaView>) -> Result<
    (PacketRecordView, nat),
    LogError,
> {
    match take_uint(b, p, 2) {
        Err(e) => Err(e),
        Ok((id, p1)) => match take_uint(b, p1, 8) {
            Err(e) => Err(e),
            Ok((ts, p2)) => match take_uint(b, p2, 4) {
                Err(e) => Err(e),
                Ok((len, p3)) => match channel_packet_len(cs, id as u16) {
                    None => Err(LogError::UnknownChannel(id as u16)),
                    Some(expected) => if len != expected {
                        Err(
                            LogError::PacketLenMismatch {
                                packet_len: len as usize,
                                channel_id: id as u16,
                                expected_len: expected,
                            },
                        )
                    } else {
                        match take_bytes(b, p3, len) {
                            Err(e) => Err(e),
                            Ok((packet, p4)) => Ok(
                                (
                                    PacketRecordView {
                                        channel_id: id as u16,
                                        timestamp_unix_ns: ts as u64,
                                        packet,
                                    },
                                    p4,
                                ),
                            ),
                        }
                    },
                },
            },
        },
    }
}

/// The `n` packet records from `p` on.
pub open spec fn parse_records(b: Seq<u8>, p: nat, cs: Seq<ChannelMetaView>, n: nat) -> Result<
    (Seq<PacketRecordView>, nat),
    LogError,
>
    decreases n,
{
    if n == 0 {
        Ok((Seq::empty(), p))
    } else {
        match parse_records(b, p, cs, (n - 1) as nat) {
            Err(e) => Err(e),
            Ok((rs, q)) => match parse_record(b, q, cs) {
                Err(e) => Err(e),
                Ok((r, q2)) => Ok((rs.push(r), q2)),
            },
        }
    }
}

/// The statistics entry at `p`.
#[verifier::opaque]
pub open spec fn parse_stat(b: Seq<u8>, p: nat) -> Result<(ChannelStats, nat), LogError> {
    match take_uint(b, p, 2) {
        Err(e) => Err(e),
        Ok((id, p1)) => match take_uint(b, p1, 8) {
            Err(e) => Err(e),
            Ok((packets, p2)) => match take_uint(b, p2, 8) {
                Err(e) => Err(e),
                Ok((bad, p3)) => match take_uint(b, p3, 8) {
                    Err(e) => Err(e),
                    Ok((discarded, p4)) => match take_uint(b, p4, 8) {
                        Err(e) => Err(e),
                        Ok((incomplete, p5)) => Ok(
                            (
                                ChannelStats {
                                    channel_id: id as u16,
                                    packets: packets as u64,
                                    bad_frames: bad as u64,
                                    discarded_bytes: discarded as u64,
                                    incomplete_tail_bytes: incomplete as u64,
                                },
                                p5,
                            ),
                        ),
                    },
                },
            },
        },
    }
}

/// The `n` statistics entries from `p` on.
pub open spec fn parse_stats(b: Seq<u8>, p: nat, n: nat) -> Result<(Seq<ChannelStats>, nat), LogError>
    decreases n,
{
    if n == 0 {
        Ok((Seq::empty(), p))
    } else {
        match parse_stats(b, p, (n - 1) as nat) {
            Err(e) => Err(e),
            Ok((ss, q)) => match parse_stat(b, q) {
                Err(e) => Err(e),
                Ok((st, q2)) => Ok((ss.push(st), q2)),
            },
        }
    }
}

/// What reading a log from `b` gives: the log and the position just past
/// its statistics, or the first error met in reading order.
pub open spec fn parse_log_at(b: Seq<u8>) -> Result<(CaptureLogView, nat), LogError> {
    match take_bytes(b, 0, 4) {
        Err(e) => Err(e),
        Ok((m, p0)) => if m != magic() {
            Err(LogError::InvalidMagic)
        } else {
            match take_uint(b, p0, 2) {
                Err(e) => Err(e),
                Ok((nc, p1)) => match take_uint(b, p1, 8) {
                    Err(e) => Err(e),
                    Ok((nr, p2)) => match take_uint(b, p2, 2) {
                        Err(e) => Err(e),
                        Ok((ns, p3)) => match parse_channels(b, p3, nc) {
                            Err(e) => Err(e),
                            Ok((cs, p4)) => match parse_records(b, p4, cs, nr) {
                                Err(e) => Err(e),
                                Ok((rs, p5)) => match parse_stats(b, p5, ns) {
                                    Err(e) => Err(e),
                                    Ok((ss, p6)) => Ok(
                                        (CaptureLogView { channels: cs, records: rs, stats: ss }, p6),
                                    ),
                                },
                            },
                        },
                    },
                },
            }
        },
    }
}

/// What reading a log from `b` gives: the log, or the first error met in
/// reading order. Bytes after the statistics are not read.
pub open spec fn parse_log(b: Seq<u8>) -> Result<CaptureLogView, LogError> {
    match parse_log_at(b) {
        Ok((log, _end)) => Ok(log),
        Err(e) => Err(e),
    }
}

fn read_u8(b: &[u8], pos: &mut usize) -> (r: Result<u8, LogError>)
    ensures
        match take_uint(b@, *old(pos) as nat, 1) {
            Ok((v, q)) => r == Ok::<u8, LogError>(v as u8) && *final(pos) == q && v < 0x100,
            Err(e) => r == Err::<u8, LogError>(e),
        },
{
    if *pos >= b.len() {
        return Err(LogError::UnexpectedEof);
    }
    let v = b[*pos];
    proof {
        let s = b@.subrange(*pos as int, *pos + 1);
        assert(s.drop_first() =~= Seq::<u8>::empty());
        assert(le_value(s.drop_first()) == 0);
        assert(le_value(s) == v);
    }
    *pos = *pos + 1;
    Ok(v)
}

fn read_u16(b: &[u8], pos: &mut usize) -> (r: Result<u16, LogError>)
    ensures
        match take_uint(b@, *old(pos) as nat, 2) {
            Ok((v, q)) => r == Ok::<u16, LogError>(v as u16) && *final(pos) == q && v < 0x1_0000,
            Err(e) => r == Err::<u16, LogError>(e),
        },
{
    if b.len() < 2 || *pos > b.len() - 2 {
        return Err(LogError::UnexpectedEof);
    }
    let v = le_decode_u16(b, *pos);
    *pos = *pos + 2;
    Ok(v)
}

fn read_u32(b: &[u8], pos: &mut usize) -> (r: Result<u32, LogError>)
    ensures
        match take_uint(b@, *old(pos) as nat, 4) {
            Ok((v, q)) => r == Ok::<u32, LogError>(v as u32) && *final(pos) == q && v
                < 0x1_0000_0000,
            Err(e) => r == Err::<u32, LogError>(e),
        },
{
    if b.len() < 4 || *pos > b.len() - 4 {
        return Err(LogError::UnexpectedEof);
    }
    let v = le_decode_u32(b, *pos);
    *pos = *pos + 4;
    Ok(v)
}

fn read_u64(b: &[u8], pos: &mut usize) -> (r: Result<u64, LogError>)
    ensures
        match take_uint(b@, *old(pos) as nat, 8) {
            Ok((v, q)) => r == Ok::<u64, LogError>(v as u64) && *final(pos) == q && v
                < 0x1_0000_0000_0000_0000,
            Err(e) => r == Err::<u64, LogError>(e),
        },
{
    if b.len() < 8 || *pos > b.len() - 8 {
        return Err(LogError::UnexpectedEof);
    }
    let v = le_decode_u64(b, *pos);
    *pos = *pos + 8;
    Ok(v)
}

fn read_exact(b: &[u8], pos: &mut usize, n: usize) -> (r: Result<Vec<u8>, LogError>)
    ensures
        match take_bytes(b@, *old(pos) as nat, n as nat) {
            Ok((s, q)) => r matches Ok(v) && v@ == s && *final(pos) == q,
            Err(e) => r == Err::<Vec<u8>, LogError>(e),
        },
{
    if *pos > b.len() || n > b.len() - *pos {
        return Err(LogError::UnexpectedEof);
    }
    let start = *pos;
    let blen = b.len();
    let mut out: Vec<u8> = Vec::new();
    let mut i: usize = 0;
    while i < n
        invariant
            blen == b@.len(),
            start + n <= b@.len(),
            i <= n,
            out@ == b@.subrange(start as int, start + i),
        decreases n - i,
    {
        out.push(b[start + i]);
        i = i + 1;
        assert(out@ =~= b@.subrange(start as int, start + i));
    }
    *pos = start + n;
    Ok(out)
}

fn read_field(b: &[u8], pos: &mut usize) -> (r: Result<Vec<u8>, LogError>)
    ensures
        match take_field(b@, *old(pos) as nat) {
            Ok((s, q)) => r matches Ok(v) && v@ == s && *final(pos) == q,
            Err(e) => r == Err::<Vec<u8>, LogError>(e),
        },
{
    let len = match read_u32(b, pos) {
        Ok(v) => v,
        Err(e) => {
            return Err(e);
        },
    };
    read_exact(b, pos, len as usize)
}

fn read_text(b: &[u8], pos: &mut usize) -> (r: Result<String, LogError>)
    ensures
        match take_text(b@, *old(pos) as nat) {
            Ok((s, q)) => r matches Ok(v) && v@ == s && *final(pos) == q,
            Err(e) => r == Err::<String, LogError>(e),
        },
{
    let bytes = match read_field(b, pos) {
        Ok(v) => v,
        Err(e) => {
            return Err(e);
        },
    };
    let ghost raw = bytes@;
    match string_from_utf8(bytes) {
        Some(s) => {
            proof {
                vstd::utf8::encode_utf8_decode_utf8(s@);
            }
            Ok(s)
        },
        None => Err(LogError::InvalidUtf8),
    }
}


#[verifier::spinoff_prover]
#[verifier::rlimit(60)]
fn read_channel(b: &[u8], pos: &mut usize) -> (r: Result<ChannelMeta, LogError>)
    ensures
        match parse_channel(b@, *old(pos) as nat) {
            Ok((c, q)) => r matches Ok(v) && v@ == c && *final(pos) == q,
            Err(e) => r == Err::<ChannelMeta, LogError>(e),
        },
{
    reveal(parse_channel);
    let id = match read_u16(b, pos) {
        Ok(v) => v,
        Err(e) => {
            return Err(e);
        },
    };
    let name = match read_text(b, pos) {
        Ok(v) => v,
        Err(e) => {
            return Err(e);
        },
    };
    let port = match read_text(b, pos) {
        Ok(v) => v,
        Err(e) => {
            return Err(e);
        },
    };
    let baud_rate = match read_u32(b, pos) {
        Ok(v) => v,
        Err(e) => {
            return Err(e);
        },
    };
    let data_bits = match read_u8(b, pos) {
        Ok(v) => v,
        Err(e) => {
            return Err(e);
        },
    };
    let stop_bits = match read_u8(b, pos) {
        Ok(v) => v,
        Err(e) => {
            return Err(e);
        },
    };
    let parity = match read_text(b, pos) {
        Ok(v) => v,
        Err(e) => {
            return Err(e);
        },
    };
    let flow_control = match read_text(b, pos) {
        Ok(v) => v,
        Err(e) => {
            return Err(e);
        },
    };
    let read_timeout_ms = match read_u64(b, pos) {
        Ok(v) => v,
        Err(e) => {
            return Err(e);
        },
    };
    let packet_len = match read_u32(b, pos) {
        Ok(v) => v,
        Err(e) => {
            return Err(e);
        },
    };
    let header = match read_field(b, pos) {
        Ok(v) => v,
        Err(e) => {
            return Err(e);
        },
    };
    let tail = match read_field(b, pos) {
        Ok(v) => v,
        Err(e) => {
            return Err(e);
        },
    };
    Ok(
        ChannelMeta {
            id,
            name,
            serial: SerialConfig {
                port,
                passthrough_port: None,
                baud_rate,
                data_bits,
                stop_bits,
                parity,
                flow_control,
                read_timeout_ms,
            },
            packet_len: packet_len as usize,
            header,
            tail,
        },
    )
}

/// The packet length of the last channel in `cs` with this id.
fn lookup_packet_len(cs: &Vec<ChannelMeta>, id: u16) -> (r: Option<usize>)
    ensures
        r == channel_packet_len(cs@.map_values(|c: ChannelMeta| c@), id),
{
    let ghost all = cs@.map_values(|c: ChannelMeta| c@);
    let mut i = cs.len();
    assert(all.take(i as int) =~= all);
    while i > 0
        invariant
            all == cs@.map_values(|c: ChannelMeta| c@),
            i <= cs@.len(),
            channel_packet_len(all, id) == channel_packet_len(all.take(i as int), id),
        decreases i,
    {
        let ghost pre = all.take(i as int);
        assert(pre.drop_last() =~= all.take(i - 1));
        assert(pre.last() == cs@[i - 1]@);
        i = i - 1;
        if cs[i].id == id {
            return Some(cs[i].packet_len);
        }
    }
    None
}

#[verifier::spinoff_prover]
#[verifier::rlimit(40)]
fn read_record(b: &[u8], pos: &mut usize, cs: &Vec<ChannelMeta>) -> (r: Result<PacketRecord, LogError>)
    ensures
        match parse_record(b@, *old(pos) as nat, cs@.map_values(|c: ChannelMeta| c@)) {
            Ok((rec, q)) => r matches Ok(v) && v@ == rec && *final(pos) == q,
            Err(e) => r == Err::<PacketRecord, LogError>(e),
        },
{
    reveal(parse_record);
    let channel_id = match read_u16(b, pos) {
        Ok(v) => v,
        Err(e) => {
            return Err(e);
        },
    };
    let timestamp_unix_ns = match read_u64(b, pos) {
        Ok(v) => v,
        Err(e) => {
            return Err(e);
        },
    };
    let packet_len = match read_u32(b, pos) {
        Ok(v) => v as usize,
        Err(e) => {
            return Err(e);
        },
    };
    let expected_len = match lookup_packet_len(cs, channel_id) {
        Some(l) => l,
        None => {
            return Err(LogError::UnknownChannel(channel_id));
        },
    };
    if packet_len != expected_len {
        return Err(LogError::PacketLenMismatch { packet_len, channel_id, expected_len });
    }
    let packet = match read_exact(b, pos, packet_len) {
        Ok(v) => v,
        Err(e) => {
            return Err(e);
        },
    };
    Ok(PacketRecord { channel_id, timestamp_unix_ns, packet })
}

fn read_stat(b: &[u8], pos: &mut usize) -> (r: Result<ChannelStats, LogError>)
    ensures
        match parse_stat(b@, *old(pos) as nat) {
            Ok((st, q)) => r == Ok::<ChannelStats, LogError>(st) && *final(pos) == q,
            Err(e) => r == Err::<ChannelStats, LogError>(e),
        },
{
    reveal(parse_stat);
    let channel_id = match read_u16(b, pos) {
        Ok(v) => v,
        Err(e) => {
            return Err(e);
        },
    };
    let packets = match read_u64(b, pos) {
        Ok(v) => v,
        Err(e) => {
            return Err(e);
        },
    };
    let bad_frames = match read_u64(b, pos) {
        Ok(v) => v,
        Err(e) => {
            return Err(e);
        },
    };
    let discarded_bytes = match read_u64(b, pos) {
        Ok(v) => v,
        Err(e) => {
            return Err(e);
        },
    };
    let incomplete_tail_bytes = match read_u64(b, pos) {
        Ok(v) => v,
        Err(e) => {
            return Err(e);
        },
    };
    Ok(ChannelStats { channel_id, packets, bad_frames, discarded_bytes, incomplete_tail_bytes })
}

proof fn lemma_channels_err_stays(b: Seq<u8>, p: nat, n: nat, m: nat)
    requires
        n <= m,
        parse_channels(b, p, n) is Err,
    ensures
        parse_channels(b, p, m) == parse_channels(b, p, n),
    decreases m,
{
    if m > n {
        lemma_channels_err_stays(b, p, n, (m - 1) as nat);
    }
}

proof fn lemma_records_err_stays(b: Seq<u8>, p: nat, cs: Seq<ChannelMetaView>, n: nat, m: nat)
    requires
        n <= m,
        parse_records(b, p, cs, n) is Err,
    ensures
        parse_records(b, p, cs, m) == parse_records(b, p, cs, n),
    decreases m,
{
    if m > n {
        lemma_records_err_stays(b, p, cs, n, (m - 1) as nat);
    }
}

proof fn lemma_stats_err_stays(b: Seq<u8>, p: nat, n: nat, m: nat)
    requires
        n <= m,
        parse_stats(b, p, n) is Err,
    ensures
        parse_stats(b, p, m) == parse_stats(b, p, n),
    decreases m,
{
    if m > n {
        lemma_stats_err_stays(b, p, n, (m - 1) as nat);
    }
}

fn read_channels(b: &[u8], pos: &mut usize, n: u16) -> (r: Result<Vec<ChannelMeta>, LogError>)
    ensures
        match parse_channels(b@, *old(pos) as nat, n as nat) {
            Ok((cs, q)) => r matches Ok(v) && v@.map_values(|c: ChannelMeta| c@) == cs && *final(pos)
                == q,
            Err(e) => r == Err::<Vec<ChannelMeta>, LogError>(e),
        },
{
    let ghost p0 = *pos as nat;
    let mut out: Vec<ChannelMeta> = Vec::new();
    assert(out@.map_values(|c: ChannelMeta| c@) =~= Seq::<ChannelMetaView>::empty());
    let mut i: u16 = 0;
    while i < n
        invariant
            i <= n,
            p0 == *old(pos) as nat,
            parse_channels(b@, p0, i as nat) == Ok::<(Seq<ChannelMetaView>, nat), LogError>(
                (out@.map_values(|c: ChannelMeta| c@), *pos as nat),
            ),
        decreases n - i,
    {
        let ghost before = out@.map_values(|c: ChannelMeta| c@);
        match read_channel(b, pos) {
            Ok(c) => {
                out.push(c);
                assert(out@.map_values(|c: ChannelMeta| c@) =~= before.push(c@));
            },
            Err(e) => {
                proof {
                    assert(parse_channels(b@, p0, (i + 1) as nat) == Err::<(Seq<ChannelMetaView>, nat), LogError>(e));
                    lemma_channels_err_stays(b@, p0, (i + 1) as nat, n as nat);
                }
                return Err(e);
            },
        }
        i = i + 1;
    }
    Ok(out)
}

fn read_records(b: &[u8], pos: &mut usize, cs: &Vec<ChannelMeta>, n: u64) -> (r: Result<
    Vec<PacketRecord>,
    LogError,
>)
    ensures
        match parse_records(b@, *old(pos) as nat, cs@.map_values(|c: ChannelMeta| c@), n as nat) {
            Ok((rs, q)) => r matches Ok(v) && v@.map_values(|r: PacketRecord| r@) == rs
                && *final(pos) == q,
            Err(e) => r == Err::<Vec<PacketRecord>, LogError>(e),
        },
{
    let ghost p0 = *pos as nat;
    let ghost cv = cs@.map_values(|c: ChannelMeta| c@);
    let mut out: Vec<PacketRecord> = Vec::new();
    assert(out@.map_values(|r: PacketRecord| r@) =~= Seq::<PacketRecordView>::empty());
    let mut i: u64 = 0;
    while i < n
        invariant
            i <= n,
            p0 == *old(pos) as nat,
            cv == cs@.map_values(|c: ChannelMeta| c@),
            parse_records(b@, p0, cv, i as nat) == Ok::<(Seq<PacketRecordView>, nat), LogError>(
                (out@.map_values(|r: PacketRecord| r@), *pos as nat),
            ),
        decreases n - i,
    {
        let ghost before = out@.map_values(|r: PacketRecord| r@);
        match read_record(b, pos, cs) {
            Ok(rec) => {
                out.push(rec);
                assert(out@.map_values(|r: PacketRecord| r@) =~= before.push(rec@));
            },
            Err(e) => {
                proof {
                    assert(parse_records(b@, p0, cv, (i + 1) as nat) == Err::<(Seq<PacketRecordView>, nat), LogError>(e));
                    lemma_records_err_stays(b@, p0, cv, (i + 1) as nat, n as nat);
                }
                return Err(e);
            },
        }
        i = i + 1;
    }
    Ok(out)
}

fn read_stats(b: &[u8], pos: &mut usize, n: u16) -> (r: Result<Vec<ChannelStats>, LogError>)
    ensures
        match parse_stats(b@, *old(pos) as nat, n as nat) {
            Ok((ss, q)) => r matches Ok(v) && v@ == ss && *final(pos) == q,
            Err(e) => r == Err::<Vec<ChannelStats>, LogError>(e),
        },
{
    let ghost p0 = *pos as nat;
    let mut out: Vec<ChannelStats> = Vec::new();
    assert(out@ =~= Seq::<ChannelStats>::empty());
    let mut i: u16 = 0;
    while i < n
        invariant
            i <= n,
            p0 == *old(pos) as nat,
            parse_stats(b@, p0, i as nat) == Ok::<(Seq<ChannelStats>, nat), LogError>(
                (out@, *pos as nat),
            ),
        decreases n - i,
    {
        match read_stat(b, pos) {
            Ok(st) => {
                out.push(st);
            },
            Err(e) => {
                proof {
                    assert(parse_stats(b@, p0, (i + 1) as nat) == Err::<(Seq<ChannelStats>, nat), LogError>(e));
                    lemma_stats_err_stays(b@, p0, (i + 1) as nat, n as nat);
                }
                return Err(e);
            },
        }
        i = i + 1;
    }
    Ok(out)
}

/// Reads a log from its binary form (see [`parse_log`]); bytes after the
/// statistics are ignored.
pub fn read_log(bytes: &[u8]) -> (r: Result<CaptureLog, LogError>)
    ensures
        r is Ok <==> parse_log(bytes@) is Ok,
        r matches Ok(log) ==> parse_log(bytes@) == Ok::<CaptureLogView, LogError>(log@),
        r matches Err(e) ==> parse_log(bytes@) == Err::<CaptureLogView, LogError>(e),
{
    let mut pos: usize = 0;
    let m = match read_exact(bytes, &mut pos, 4) {
        Ok(v) => v,
        Err(e) => {
            return Err(e);
        },
    };
    if !(m[0] == 0x53 && m[1] == 0x52 && m[2] == 0x50 && m[3] == 0x31) {
        proof {
            if m@ == magic() {
                assert(m@[0] == 0x53 && m@[1] == 0x52 && m@[2] == 0x50 && m@[3] == 0x31);
            }
        }
        return Err(LogError::InvalidMagic);
    }
    assert(m@ =~= magic());
    let channel_count = match read_u16(bytes, &mut pos) {
        Ok(v) => v,
        Err(e) => {
            return Err(e);
        },
    };
    let record_count = match read_u64(bytes, &mut pos) {
        Ok(v) => v,
        Err(e) => {
            return Err(e);
        },
    };
    let stat_count = match read_u16(bytes, &mut pos) {
        Ok(v) => v,
        Err(e) => {
            return Err(e);
        },
    };
    let channels = match read_channels(bytes, &mut pos, channel_count) {
        Ok(v) => v,
        Err(e) => {
            return Err(e);
        },
    };
    let records = match read_records(bytes, &mut pos, &channels, record_count) {
        Ok(v) => v,
        Err(e) => {
            return Err(e);
        },
    };
    let stats = match read_stats(bytes, &mut pos, stat_count) {
        Ok(v) => v,
        Err(e) => {
            return Err(e);
        },
    };
    Ok(CaptureLog { channels, records, stats })
}


/// A channel as the log stores it: everything but the passthrough port.
pub open spec fn as_logged(c: ChannelMetaView) -> ChannelMetaView {
    ChannelMetaView { serial: SerialConfigView { passthrough_port: None, ..c.serial }, ..c }
}

/// A log as reading back its binary form gives it.
pub open spec fn log_as_stored(log: CaptureLogView) -> CaptureLogView {
    CaptureLogView {
        channels: log.channels.map_values(|c: ChannelMetaView| as_logged(c)),
        records: log.records,
        stats: log.stats,
    }
}

/// Every record names a channel of the table (the last one with its id, if
/// ids repeat) and is as long as that channel's packets.
pub open spec fn records_consistent(log: CaptureLogView) -> bool {
    forall|i: int|
        0 <= i < log.records.len() ==> channel_packet_len(
            log.channels,
            (#[trigger] log.records[i]).channel_id,
        ) == Some(log.records[i].packet.len() as usize)
}

/// `x` stands in `b` at position `p`.
pub open spec fn bytes_at(b: Seq<u8>, p: nat, x: Seq<u8>) -> bool {
    p + x.len() <= b.len() && b.subrange(p as int, (p + x.len()) as int) == x
}

proof fn lemma_at_split(b: Seq<u8>, p: nat, x: Seq<u8>, y: Seq<u8>)
    requires
        bytes_at(b, p, x + y),
    ensures
        bytes_at(b, p, x),
        bytes_at(b, p + x.len(), y),
{
    let whole = b.subrange(p as int, (p + x.len() + y.len()) as int);
    assert(whole == x + y);
    assert(b.subrange(p as int, (p + x.len()) as int) =~= whole.subrange(0, x.len() as int));
    assert(whole.subrange(0, x.len() as int) =~= x);
    assert(b.subrange((p + x.len()) as int, (p + x.len() + y.len()) as int) =~= whole.subrange(
        x.len() as int,
        (x.len() + y.len()) as int,
    ));
    assert(whole.subrange(x.len() as int, (x.len() + y.len()) as int) =~= y);
}

proof fn lemma_take_uint(b: Seq<u8>, p: nat, v: nat, n: nat)
    requires
        bytes_at(b, p, le_bytes(v, n)),
        v < pow256(n),
    ensures
        take_uint(b, p, n) == Ok::<(nat, nat), LogError>((v, p + n)),
        le_bytes(v, n).len() == n,
{
    lemma_le_bytes_len(v, n);
    lemma_le_value_of_bytes(v, n);
}

proof fn lemma_take_field(b: Seq<u8>, p: nat, x: Seq<u8>)
    requires
        bytes_at(b, p, enc_field(x)),
        x.len() <= u32::MAX,
    ensures
        take_field(b, p) == Ok::<(Seq<u8>, nat), LogError>((x, p + 4 + x.len())),
        enc_field(x).len() == 4 + x.len(),
{
    lemma_pow256_values();
    lemma_at_split(b, p, le_bytes(x.len(), 4), x);
    lemma_take_uint(b, p, x.len(), 4);
}

proof fn lemma_take_text(b: Seq<u8>, p: nat, s: Seq<char>)
    requires
        bytes_at(b, p, enc_text(s)),
        text_fits(s),
    ensures
        take_text(b, p) == Ok::<(Seq<char>, nat), LogError>((s, p + enc_text(s).len())),
        enc_text(s).len() == 4 + encode_utf8(s).len(),
{
    lemma_take_field(b, p, encode_utf8(s));
    vstd::utf8::encode_utf8_valid_utf8(s);
    vstd::utf8::encode_utf8_decode_utf8(s);
}

#[verifier::spinoff_prover]
#[verifier::rlimit(80)]
proof fn lemma_parse_channel(b: Seq<u8>, p: nat, c: ChannelMetaView)
    requires
        bytes_at(b, p, enc_channel(c)),
        channel_fits(c),
    ensures
        parse_channel(b, p) == Ok::<(ChannelMetaView, nat), LogError>(
            (as_logged(c), p + enc_channel(c).len()),
        ),
{
    reveal(parse_channel);
    lemma_pow256_values();
    let s1 = le_bytes(c.id as nat, 2);
    let s2 = enc_text(c.name);
    let s3 = enc_text(c.serial.port);
    let s4 = le_bytes(c.serial.baud_rate as nat, 4);
    let s5 = seq![c.serial.data_bits];
    let s6 = seq![c.serial.stop_bits];
    let s7 = enc_text(c.serial.parity);
    let s8 = enc_text(c.serial.flow_control);
    let s9 = le_bytes(c.serial.read_timeout_ms as nat, 8);
    let s10 = le_bytes(c.packet_len as nat, 4);
    let s11 = enc_field(c.header);
    let s12 = enc_field(c.tail);
    let a1 = s1;
    let a2 = a1 + s2;
    let a3 = a2 + s3;
    let a4 = a3 + s4;
    let a5 = a4 + s5;
    let a6 = a5 + s6;
    let a7 = a6 + s7;
    let a8 = a7 + s8;
    let a9 = a8 + s9;
    let a10 = a9 + s10;
    let a11 = a10 + s11;
    let a12 = a11 + s12;
    assert(enc_channel(c) == a12);
    lemma_at_split(b, p, a11, s12);
    lemma_at_split(b, p, a10, s11);
    lemma_at_split(b, p, a9, s10);
    lemma_at_split(b, p, a8, s9);
    lemma_at_split(b, p, a7, s8);
    lemma_at_split(b, p, a6, s7);
    lemma_at_split(b, p, a5, s6);
    lemma_at_split(b, p, a4, s5);
    lemma_at_split(b, p, a3, s4);
    lemma_at_split(b, p, a2, s3);
    lemma_at_split(b, p, a1, s2);
    lemma_take_uint(b, p, c.id as nat, 2);
    lemma_take_text(b, p + a1.len(), c.name);
    lemma_take_text(b, p + a2.len(), c.serial.port);
    lemma_take_uint(b, p + a3.len(), c.serial.baud_rate as nat, 4);
    reveal_with_fuel(le_bytes, 2);
    assert(le_bytes(c.serial.data_bits as nat, 1) =~= s5);
    assert(le_bytes(c.serial.stop_bits as nat, 1) =~= s6);
    lemma_take_uint(b, p + a4.len(), c.serial.data_bits as nat, 1);
    lemma_take_uint(b, p + a5.len(), c.serial.stop_bits as nat, 1);
    lemma_take_text(b, p + a6.len(), c.serial.parity);
    lemma_take_text(b, p + a7.len(), c.serial.flow_control);
    lemma_take_uint(b, p + a8.len(), c.serial.read_timeout_ms as nat, 8);
    lemma_take_uint(b, p + a9.len(), c.packet_len as nat, 4);
    lemma_take_field(b, p + a10.len(), c.header);
    lemma_take_field(b, p + a11.len(), c.tail);
}

proof fn lemma_parse_channels(b: Seq<u8>, p: nat, cs: Seq<ChannelMetaView>)
    requires
        bytes_at(b, p, enc_channels(cs)),
        forall|i: int| 0 <= i < cs.len() ==> channel_fits(#[trigger] cs[i]),
    ensures
        parse_channels(b, p, cs.len()) == Ok::<(Seq<ChannelMetaView>, nat), LogError>(
            (cs.map_values(|c: ChannelMetaView| as_logged(c)), p + enc_channels(cs).len()),
        ),
    decreases cs.len(),
{
    if cs.len() == 0 {
        assert(cs.map_values(|c: ChannelMetaView| as_logged(c)) =~= Seq::<ChannelMetaView>::empty());
    } else {
        let init = cs.drop_last();
        lemma_at_split(b, p, enc_channels(init), enc_channel(cs.last()));
        assert forall|i: int| 0 <= i < init.len() implies channel_fits(#[trigger] init[i]) by {
            assert(init[i] == cs[i]);
        }
        lemma_parse_channels(b, p, init);
        assert(channel_fits(cs[cs.len() - 1]));
        lemma_parse_channel(b, p + enc_channels(init).len(), cs.last());
        assert(init.map_values(|c: ChannelMetaView| as_logged(c)).push(as_logged(cs.last()))
            =~= cs.map_values(|c: ChannelMetaView| as_logged(c)));
    }
}

proof fn lemma_packet_len_as_logged(cs: Seq<ChannelMetaView>, id: u16)
    ensures
        channel_packet_len(cs.map_values(|c: ChannelMetaView| as_logged(c)), id)
            == channel_packet_len(cs, id),
    decreases cs.len(),
{
    if cs.len() > 0 {
        let logged = cs.map_values(|c: ChannelMetaView| as_logged(c));
        assert(logged.drop_last() =~= cs.drop_last().map_values(
            |c: ChannelMetaView| as_logged(c),
        ));
        lemma_packet_len_as_logged(cs.drop_last(), id);
    }
}

proof fn lemma_parse_record(b: Seq<u8>, p: nat, cs: Seq<ChannelMetaView>, r: PacketRecordView)
    requires
        bytes_at(b, p, enc_record(r)),
        r.packet.len() <= u32::MAX,
        channel_packet_len(cs, r.channel_id) == Some(r.packet.len() as usize),
    ensures
        parse_record(b, p, cs) == Ok::<(PacketRecordView, nat), LogError>(
            (r, p + enc_record(r).len()),
        ),
{
    reveal(parse_record);
    lemma_pow256_values();
    let s1 = le_bytes(r.channel_id as nat, 2);
    let s2 = le_bytes(r.timestamp_unix_ns as nat, 8);
    let s3 = le_bytes(r.packet.len(), 4);
    let a2 = s1 + s2;
    let a3 = a2 + s3;
    lemma_at_split(b, p, a3, r.packet);
    lemma_at_split(b, p, a2, s3);
    lemma_at_split(b, p, s1, s2);
    lemma_take_uint(b, p, r.channel_id as nat, 2);
    lemma_take_uint(b, p + s1.len(), r.timestamp_unix_ns as nat, 8);
    lemma_take_uint(b, p + a2.len(), r.packet.len(), 4);
}

proof fn lemma_parse_records(b: Seq<u8>, p: nat, cs: Seq<ChannelMetaView>, rs: Seq<PacketRecordView>)
    requires
        bytes_at(b, p, enc_records(rs)),
        forall|i: int|
            0 <= i < rs.len() ==> (#[trigger] rs[i]).packet.len() <= u32::MAX && channel_packet_len(
                cs,
                rs[i].channel_id,
            ) == Some(rs[i].packet.len() as usize),
    ensures
        parse_records(b, p, cs, rs.len()) == Ok::<(Seq<PacketRecordView>, nat), LogError>(
            (rs, p + enc_records(rs).len()),
        ),
    decreases rs.len(),
{
    if rs.len() == 0 {
        assert(rs =~= Seq::<PacketRecordView>::empty());
    } else {
        let init = rs.drop_last();
        lemma_at_split(b, p, enc_records(init), enc_record(rs.last()));
        assert forall|i: int| 0 <= i < init.len() implies (#[trigger] init[i]).packet.len()
            <= u32::MAX && channel_packet_len(cs, init[i].channel_id) == Some(
            init[i].packet.len() as usize,
        ) by {
            assert(init[i] == rs[i]);
        }
        lemma_parse_records(b, p, cs, init);
        assert(rs[rs.len() - 1] == rs.last());
        lemma_parse_record(b, p + enc_records(init).len(), cs, rs.last());
        assert(init.push(rs.last()) =~= rs);
    }
}

proof fn lemma_parse_stat(b: Seq<u8>, p: nat, st: ChannelStats)
    requires
        bytes_at(b, p, enc_stat(st)),
    ensures
        parse_stat(b, p) == Ok::<(ChannelStats, nat), LogError>((st, p + enc_stat(st).len())),
{
    reveal(parse_stat);
    lemma_pow256_values();
    let s1 = le_bytes(st.channel_id as nat, 2);
    let s2 = le_bytes(st.packets as nat, 8);
    let s3 = le_bytes(st.bad_frames as nat, 8);
    let s4 = le_bytes(st.discarded_bytes as nat, 8);
    let s5 = le_bytes(st.incomplete_tail_bytes as nat, 8);
    let a2 = s1 + s2;
    let a3 = a2 + s3;
    let a4 = a3 + s4;
    lemma_at_split(b, p, a4, s5);
    lemma_at_split(b, p, a3, s4);
    lemma_at_split(b, p, a2, s3);
    lemma_at_split(b, p, s1, s2);
    lemma_take_uint(b, p, st.channel_id as nat, 2);
    lemma_take_uint(b, p + s1.len(), st.packets as nat, 8);
    lemma_take_uint(b, p + a2.len(), st.bad_frames as nat, 8);
    lemma_take_uint(b, p + a3.len(), st.discarded_bytes as nat, 8);
    lemma_take_uint(b, p + a4.len(), st.incomplete_tail_bytes as nat, 8);
}

proof fn lemma_parse_stats(b: Seq<u8>, p: nat, ss: Seq<ChannelStats>)
    requires
        bytes_at(b, p, enc_stats(ss)),
    ensures
        parse_stats(b, p, ss.len()) == Ok::<(Seq<ChannelStats>, nat), LogError>(
            (ss, p + enc_stats(ss).len()),
        ),
    decreases ss.len(),
{
    if ss.len() == 0 {
        assert(ss =~= Seq::<ChannelStats>::empty());
    } else {
        let init = ss.drop_last();
        lemma_at_split(b, p, enc_stats(init), enc_stat(ss.last()));
        lemma_parse_stats(b, p, init);
        lemma_parse_stat(b, p + enc_stats(init).len(), ss.last());
        assert(init.push(ss.last()) =~= ss);
    }
}

/// Reading back the binary form of a log gives the log again, whatever
/// bytes follow it, for every log whose counts and lengths fit the layout
/// and whose records match the channel table. The passthrough port is the
/// one setting the layout does not hold.
#[verifier::spinoff_prover]
#[verifier::rlimit(40)]
pub proof fn lemma_log_roundtrip(log: CaptureLogView, extra: Seq<u8>)
    requires
        log_fits(log),
        records_consistent(log),
    ensures
        parse_log(encode_log_spec(log) + extra) == Ok::<CaptureLogView, LogError>(
            log_as_stored(log),
        ),
        parse_log_at(encode_log_spec(log) + extra) == Ok::<(CaptureLogView, nat), LogError>(
            (log_as_stored(log), encode_log_spec(log).len()),
        ),
{
    lemma_pow256_values();
    let b = encode_log_spec(log) + extra;
    let h1 = magic();
    let h2 = le_bytes(log.channels.len(), 2);
    let h3 = le_bytes(log.records.len(), 8);
    let h4 = le_bytes(log.stats.len(), 2);
    let ch = enc_channels(log.channels);
    let rc = enc_records(log.records);
    let st = enc_stats(log.stats);
    let a2 = h1 + h2;
    let a3 = a2 + h3;
    let a4 = a3 + h4;
    let a5 = a4 + ch;
    let a6 = a5 + rc;
    let a7 = a6 + st;
    assert(encode_log_spec(log) == a7);
    assert(b.subrange(0, a7.len() as int) =~= a7);
    assert(bytes_at(b, 0, a7));
    lemma_at_split(b, 0, a6, st);
    lemma_at_split(b, 0, a5, rc);
    lemma_at_split(b, 0, a4, ch);
    lemma_at_split(b, 0, a3, h4);
    lemma_at_split(b, 0, a2, h3);
    lemma_at_split(b, 0, h1, h2);
    assert(b.subrange(0, 4) =~= magic());
    lemma_take_uint(b, h1.len(), log.channels.len(), 2);
    lemma_take_uint(b, a2.len(), log.records.len(), 8);
    lemma_take_uint(b, a3.len(), log.stats.len(), 2);
    lemma_parse_channels(b, a4.len(), log.channels);
    let logged = log.channels.map_values(|c: ChannelMetaView| as_logged(c));
    assert forall|i: int| 0 <= i < log.records.len() implies (#[trigger] log.records[i]).packet.len()
        <= u32::MAX && channel_packet_len(logged, log.records[i].channel_id) == Some(
        log.records[i].packet.len() as usize,
    ) by {
        lemma_packet_len_as_logged(log.channels, log.records[i].channel_id);
    }
    lemma_parse_records(b, a5.len(), logged, log.records);
    lemma_parse_stats(b, a6.len(), log.stats);
}

/// `a` is the start of `b`.
pub open spec fn starts(a: Seq<u8>, b: Seq<u8>) -> bool {
    a.len() <= b.len() && b.take(a.len() as int) == a
}

proof fn lemma_take_bytes_prefix(a: Seq<u8>, b: Seq<u8>)
    requires
        starts(a, b),
    ensures
        forall|p: nat, n: nat|
            #[trigger] take_bytes(a, p, n) is Ok ==> p + n <= a.len() && take_bytes(b, p, n)
                == take_bytes(a, p, n),
{
    assert forall|p: nat, n: nat| #[trigger] take_bytes(a, p, n) is Ok implies p + n <= a.len()
        && take_bytes(b, p, n) == take_bytes(a, p, n) by {
        assert(forall|i: int| 0 <= i < a.len() ==> a[i] == b.take(a.len() as int)[i]);
        assert(b.subrange(p as int, (p + n) as int) =~= a.subrange(p as int, (p + n) as int));
    }
}

#[verifier::rlimit(40)]
proof fn lemma_parse_channel_prefix(a: Seq<u8>, b: Seq<u8>, p: nat)
    requires
        starts(a, b),
    ensures
        parse_channel(a, p) matches Ok((_c, q)) ==> q <= a.len() && parse_channel(b, p)
            == parse_channel(a, p),
{
    reveal(parse_channel);
    lemma_take_bytes_prefix(a, b);
}

proof fn lemma_parse_channels_prefix(a: Seq<u8>, b: Seq<u8>, p: nat, n: nat)
    requires
        starts(a, b),
        p <= a.len(),
    ensures
        parse_channels(a, p, n) matches Ok((_cs, q)) ==> q <= a.len() && parse_channels(b, p, n)
            == parse_channels(a, p, n),
    decreases n,
{
    if n > 0 {
        lemma_parse_channels_prefix(a, b, p, (n - 1) as nat);
        if let Ok((_cs, q)) = parse_channels(a, p, (n - 1) as nat) {
            lemma_parse_channel_prefix(a, b, q);
        }
    }
}

proof fn lemma_parse_record_prefix(a: Seq<u8>, b: Seq<u8>, p: nat, cs: Seq<ChannelMetaView>)
    requires
        starts(a, b),
    ensures
        parse_record(a, p, cs) matches Ok((_r, q)) ==> q <= a.len() && parse_record(b, p, cs)
            == parse_record(a, p, cs),
{
    reveal(parse_record);
    lemma_take_bytes_prefix(a, b);
}

proof fn lemma_parse_records_prefix(a: Seq<u8>, b: Seq<u8>, p: nat, cs: Seq<ChannelMetaView>, n: nat)
    requires
        starts(a, b),
        p <= a.len(),
    ensures
        parse_records(a, p, cs, n) matches Ok((_rs, q)) ==> q <= a.len() && parse_records(
            b,
            p,
            cs,
            n,
        ) == parse_records(a, p, cs, n),
    decreases n,
{
    if n > 0 {
        lemma_parse_records_prefix(a, b, p, cs, (n - 1) as nat);
        if let Ok((_rs, q)) = parse_records(a, p, cs, (n - 1) as nat) {
            lemma_parse_record_prefix(a, b, q, cs);
        }
    }
}

proof fn lemma_parse_stat_prefix(a: Seq<u8>, b: Seq<u8>, p: nat)
    requires
        starts(a, b),
    ensures
        parse_stat(a, p) matches Ok((_s, q)) ==> q <= a.len() && parse_stat(b, p) == parse_stat(
            a,
            p,
        ),
{
    reveal(parse_stat);
    lemma_take_bytes_prefix(a, b);
}

proof fn lemma_parse_stats_prefix(a: Seq<u8>, b: Seq<u8>, p: nat, n: nat)
    requires
        starts(a, b),
        p <= a.len(),
    ensures
        parse_stats(a, p, n) matches Ok((_ss, q)) ==> q <= a.len() && parse_stats(b, p, n)
            == parse_stats(a, p, n),
    decreases n,
{
    if n > 0 {
        lemma_parse_stats_prefix(a, b, p, (n - 1) as nat);
        if let Ok((_ss, q)) = parse_stats(a, p, (n - 1) as nat) {
            lemma_parse_stat_prefix(a, b, q);
        }
    }
}

/// Reading stops where the log ends: a log read from the start of `b` is
/// read the same from `b`, and it ends within that start.
pub proof fn lemma_parse_log_prefix(a: Seq<u8>, b: Seq<u8>)
    requires
        starts(a, b),
    ensures
        parse_log_at(a) matches Ok((_log, end)) ==> end <= a.len() && parse_log_at(b)
            == parse_log_at(a),
{
    lemma_take_bytes_prefix(a, b);
    if let Ok((_log, _end)) = parse_log_at(a) {
        let p3: nat = 16;
        let nc = le_value(a.subrange(4, 6));
        let nr = le_value(a.subrange(6, 14));
        let ns = le_value(a.subrange(14, 16));
        assert(take_bytes(a, 0, 4) is Ok);
        assert(take_bytes(a, 14, 2) is Ok);
        lemma_parse_channels_prefix(a, b, p3, nc);
        let (cs, p4) = parse_channels(a, p3, nc).unwrap();
        lemma_parse_records_prefix(a, b, p4, cs, nr);
        let (_rs, p5) = parse_records(a, p4, cs, nr).unwrap();
        lemma_parse_stats_prefix(a, b, p5, ns);
    }
}

/// A log is read only from all of its bytes: every shorter start of bytes
/// from which a log is read is refused.
pub proof fn lemma_parse_log_needs_all(b: Seq<u8>, k: nat)
    requires
        parse_log_at(b) matches Ok((_log, end)) && k < end,
    ensures
        parse_log(b.take(k as int)) is Err,
{
    assert(b.take(b.len() as int) =~= b);
    lemma_parse_log_prefix(b, b);
    let a = b.take(k as int);
    assert(a.len() == k);
    assert(b.take(k as int) =~= a);
    lemma_parse_log_prefix(a, b);
}

/// Every strict start of a written log is refused, for every log whose
/// counts and lengths fit the layout and whose records match the channel
/// table: truncation is detected.
pub proof fn lemma_truncated_log_refused(log: CaptureLogView, k: nat)
    requires
        log_fits(log),
        records_consistent(log),
        k < encode_log_spec(log).len(),
    ensures
        parse_log(encode_log_spec(log).take(k as int)) is Err,
{
    let enc = encode_log_spec(log);
    lemma_log_roundtrip(log, Seq::empty());
    assert(enc + Seq::<u8>::empty() =~= enc);
    lemma_parse_log_needs_all(enc, k);
}


/// Byte offset of the record count in the log header.
pub const RECORD_COUNT_OFFSET: u64 = 6;

/// Byte offset of the statistics count in the log header.
pub const STAT_COUNT_OFFSET: u64 = 14;

/// The record count stands at [`RECORD_COUNT_OFFSET`] and the statistics
/// count at [`STAT_COUNT_OFFSET`], so a log written with provisional counts
/// becomes the finished log by overwriting those two fields in place.
pub proof fn lemma_count_fields(
    channels: Seq<ChannelMetaView>,
    records: Seq<PacketRecordView>,
    stats: Seq<ChannelStats>,
    provisional_records: u64,
    provisional_stats: u16,
)
    requires
        channels.len() <= u16::MAX,
        records.len() <= u64::MAX,
        stats.len() <= u16::MAX,
    ensures
        ({
            let live = enc_header(channels.len() as u16, provisional_records, provisional_stats)
                + enc_channels(channels) + enc_records(records) + enc_stats(stats);
            let log = CaptureLogView { channels, records, stats };
            &&& live.len() >= 16
            &&& live.subrange(0, RECORD_COUNT_OFFSET as int) + le_bytes(records.len(), 8)
                + le_bytes(stats.len(), 2) + live.skip(16) == encode_log_spec(log)
        }),
{
    lemma_le_bytes_len(channels.len(), 2);
    lemma_le_bytes_len(provisional_records as nat, 8);
    lemma_le_bytes_len(provisional_stats as nat, 2);
    lemma_le_bytes_len(records.len(), 8);
    lemma_le_bytes_len(stats.len(), 2);
    let live = enc_header(channels.len() as u16, provisional_records, provisional_stats)
        + enc_channels(channels) + enc_records(records) + enc_stats(stats);
    let log = CaptureLogView { channels, records, stats };
    assert(live.subrange(0, 6) =~= magic() + le_bytes(channels.len(), 2));
    assert(live.skip(16) =~= enc_channels(channels) + enc_records(records) + enc_stats(stats));
    assert(live.subrange(0, RECORD_COUNT_OFFSET as int) + le_bytes(records.len(), 8) + le_bytes(
        stats.len(),
        2,
    ) + live.skip(16) =~= encode_log_spec(log));
}

/// `bytes` written over `file` from position `pos` on, as a seek and a
/// write do.
pub open spec fn write_at(file: Seq<u8>, pos: nat, bytes: Seq<u8>) -> Seq<u8> {
    file.take(pos as int) + bytes + file.skip((pos + bytes.len()) as int)
}

/// A log being written while capturing: the header with the record count
/// last written, `c`, and no statistics; the channel table; the records so far.
pub open spec fn live_log(channels: Seq<ChannelMetaView>, records: Seq<PacketRecordView>, c: u64) -> Seq<u8> {
    enc_header(channels.len() as u16, c, 0) + enc_channels(channels) + enc_records(records)
}

/// A live log starts as [`encode_live_start`] writes it and grows by one
/// [`encode_record`] per packet.
pub proof fn lemma_live_log_grows(channels: Seq<ChannelMetaView>, records: Seq<PacketRecordView>, r: PacketRecordView, c: u64)
    ensures
        live_log(channels, Seq::empty(), 0) == enc_header(channels.len() as u16, 0, 0)
            + enc_channels(channels),
        live_log(channels, records.push(r), c) == live_log(channels, records, c) + enc_record(r),
{
    assert(enc_records(Seq::<PacketRecordView>::empty()) =~= Seq::<u8>::empty());
    assert(live_log(channels, Seq::empty(), 0) =~= enc_header(channels.len() as u16, 0, 0)
        + enc_channels(channels));
    assert(records.push(r).drop_last() =~= records);
    assert(live_log(channels, records.push(r), c) =~= live_log(channels, records, c) + enc_record(
        r,
    ));
}

/// A checkpoint, which writes the record count at [`RECORD_COUNT_OFFSET`],
/// changes only that count.
pub proof fn lemma_live_log_checkpoint(channels: Seq<ChannelMetaView>, records: Seq<PacketRecordView>, c: u64, count: u64)
    ensures
        write_at(live_log(channels, records, c), RECORD_COUNT_OFFSET as nat, le_bytes(count as nat, 8))
            == live_log(channels, records, count),
{
    lemma_le_bytes_len(channels.len() as u16 as nat, 2);
    lemma_le_bytes_len(c as nat, 8);
    lemma_le_bytes_len(count as nat, 8);
    lemma_le_bytes_len(0, 2);
    let rest = enc_channels(channels) + enc_records(records);
    let live = live_log(channels, records, c);
    assert(live =~= magic() + le_bytes(channels.len() as u16 as nat, 2) + le_bytes(c as nat, 8)
        + le_bytes(0, 2) + rest);
    assert(live.take(6) =~= magic() + le_bytes(channels.len() as u16 as nat, 2));
    assert(live.skip(14) =~= le_bytes(0, 2) + rest);
    assert(write_at(live, 6, le_bytes(count as nat, 8)) =~= live_log(channels, records, count));
}

/// A live log whose record count was last written with the number of its
/// records reads back as the log of its channels and records, with no
/// statistics: a capture that never finished can still be read.
pub proof fn lemma_live_log_readable(channels: Seq<ChannelMetaView>, records: Seq<PacketRecordView>, c: u64)
    requires
        log_fits(CaptureLogView { channels, records, stats: Seq::empty() }),
        records_consistent(CaptureLogView { channels, records, stats: Seq::empty() }),
    ensures
        ({
            let log = CaptureLogView { channels, records, stats: Seq::empty() };
            let file = write_at(live_log(channels, records, c), RECORD_COUNT_OFFSET as nat, le_bytes(records.len(), 8));
            &&& file == encode_log_spec(log)
            &&& parse_log(file) == Ok::<CaptureLogView, LogError>(log_as_stored(log))
        }),
{
    let log = CaptureLogView { channels, records, stats: Seq::empty() };
    lemma_live_log_checkpoint(channels, records, c, records.len() as u64);
    assert(enc_stats(Seq::<ChannelStats>::empty()) =~= Seq::<u8>::empty());
    assert(live_log(channels, records, records.len() as u64) =~= encode_log_spec(log));
    lemma_log_roundtrip(log, Seq::empty());
    assert(encode_log_spec(log) + Seq::<u8>::empty() =~= encode_log_spec(log));
}

/// Finishing a live log, whatever record count its checkpoints last wrote:
/// the statistics appended, their count written at [`STAT_COUNT_OFFSET`]
/// and the record count at [`RECORD_COUNT_OFFSET`], gives exactly the
/// bytes that [`write_log`] writes for the log, and these read back as it.
pub proof fn lemma_live_log_finalized(
    channels: Seq<ChannelMetaView>,
    records: Seq<PacketRecordView>,
    stats: Seq<ChannelStats>,
    c: u64,
)
    requires
        channels.len() <= u16::MAX,
        records.len() <= u64::MAX,
        stats.len() <= u16::MAX,
    ensures
        ({
            let log = CaptureLogView { channels, records, stats };
            let appended = live_log(channels, records, c) + enc_stats(stats);
            let with_stats = write_at(appended, STAT_COUNT_OFFSET as nat, le_bytes(stats.len(), 2));
            let file = write_at(with_stats, RECORD_COUNT_OFFSET as nat, le_bytes(records.len(), 8));
            &&& file == encode_log_spec(log)
            &&& log_fits(log) && records_consistent(log) ==> parse_log(file) == Ok::<
                CaptureLogView,
                LogError,
            >(log_as_stored(log))
        }),
{
    let log = CaptureLogView { channels, records, stats };
    lemma_le_bytes_len(channels.len() as u16 as nat, 2);
    lemma_le_bytes_len(c as nat, 8);
    lemma_le_bytes_len(records.len(), 8);
    lemma_le_bytes_len(stats.len(), 2);
    lemma_le_bytes_len(0, 2);
    let body = enc_channels(channels) + enc_records(records) + enc_stats(stats);
    let appended = live_log(channels, records, c) + enc_stats(stats);
    let h = magic() + le_bytes(channels.len() as u16 as nat, 2);
    assert(appended =~= h + le_bytes(c as nat, 8) + le_bytes(0, 2) + body);
    let with_stats = write_at(appended, 14, le_bytes(stats.len(), 2));
    assert(appended.take(14) =~= h + le_bytes(c as nat, 8));
    assert(appended.skip(16) =~= body);
    assert(with_stats =~= h + le_bytes(c as nat, 8) + le_bytes(stats.len(), 2) + body);
    let file = write_at(with_stats, 6, le_bytes(records.len(), 8));
    assert(with_stats.take(6) =~= h);
    assert(with_stats.skip(14) =~= le_bytes(stats.len(), 2) + body);
    assert(file =~= encode_log_spec(log));
    if log_fits(log) && records_consistent(log) {
        lemma_log_roundtrip(log, Seq::empty());
        assert(encode_log_spec(log) + Seq::<u8>::empty() =~= encode_log_spec(log));
    }
}

/// The start of a log written while capturing: the header with zero
/// records and zero statistics, then the channel table.
pub fn encode_live_start(log: &CaptureLog) -> (r: Result<Vec<u8>, LogError>)
    ensures
        r is Ok <==> log@.channels.len() <= u16::MAX && forall|i: int|
            0 <= i < log@.channels.len() ==> channel_fits(#[trigger] log@.channels[i]),
        r matches Ok(b) ==> b@ == enc_header(log@.channels.len() as u16, 0, 0) + enc_channels(
            log@.channels,
        ),
        r matches Err(e) ==> e is OutOfRange,
{
    if log.channels.len() > 0xFFFF {
        return Err(LogError::OutOfRange);
    }
    let mut out: Vec<u8> = Vec::new();
    put_header(&mut out, log.channels.len() as u16, 0, 0);
    if !put_channels(&mut out, &log.channels) {
        proof {
            let k = choose|k: int|
                0 <= k < log.channels@.len() && !channel_fits(#[trigger] log.channels@[k]@);
            assert(log@.channels[k] == log.channels@[k]@);
        }
        return Err(LogError::OutOfRange);
    }
    proof {
        assert forall|i: int| 0 <= i < log@.channels.len() implies channel_fits(
            #[trigger] log@.channels[i],
        ) by {
            assert(log@.channels[i] == log.channels@[i]@);
        }
    }
    Ok(out)
}

/// One packet record in its binary form.
pub fn encode_record(record: &PacketRecord) -> (r: Result<Vec<u8>, LogError>)
    ensures
        r is Ok <==> record@.packet.len() <= u32::MAX,
        r matches Ok(b) ==> b@ == enc_record(record@),
        r matches Err(e) ==> e is OutOfRange,
{
    if record.packet.len() > 0xFFFF_FFFF {
        return Err(LogError::OutOfRange);
    }
    let mut out: Vec<u8> = Vec::new();
    put_record(&mut out, record);
    assert(out@ =~= enc_record(record@));
    Ok(out)
}

/// The statistics entries in their binary form.
pub fn encode_stats(stats: &Vec<ChannelStats>) -> (r: Vec<u8>)
    ensures
        r@ == enc_stats(stats@),
{
    let mut out: Vec<u8> = Vec::new();
    put_stats(&mut out, stats);
    assert(out@ =~= enc_stats(stats@));
    out
}

/// The record count field: eight little-endian bytes.
pub fn encode_record_count(n: u64) -> (r: Vec<u8>)
    ensures
        r@ == le_bytes(n as nat, 8),
{
    let mut out: Vec<u8> = Vec::new();
    put_u64(&mut out, n);
    assert(out@ =~= le_bytes(n as nat, 8));
    out
}

/// The statistics count field: two little-endian bytes, or `OutOfRange`
/// above `u16::MAX`.
pub fn encode_stat_count(n: usize) -> (r: Result<Vec<u8>, LogError>)
    ensures
        r is Ok <==> n <= u16::MAX,
        r matches Ok(b) ==> b@ == le_bytes(n as nat, 2),
        r matches Err(e) ==> e is OutOfRange,
{
    if n > 0xFFFF {
        return Err(LogError::OutOfRange);
    }
    let mut out: Vec<u8> = Vec::new();
    put_u16(&mut out, n as u16);
    assert(out@ =~= le_bytes(n as nat, 2));
    Ok(out)
}

/// A validated channel entered in the log's table under id `id`.
pub open spec fn meta_of(v: ValidatedChannelView, id: u16) -> ChannelMetaView {
    ChannelMetaView {
        id,
        name: v.name,
        serial: v.serial,
        packet_len: v.packet_len,
        header: v.header,
        tail: v.tail,
    }
}

/// The index of the first channel with this name.
pub open spec fn first_named(cs: Seq<ChannelMetaView>, name: Seq<char>, i: nat) -> Option<nat>
    decreases cs.len() - i,
{
    if i >= cs.len() {
        None
    } else if cs[i as int].name == name {
        Some(i)
    } else {
        first_named(cs, name, i + 1)
    }
}

/// The index of the first channel with this id.
pub open spec fn first_with_id(cs: Seq<ChannelMetaView>, id: u16, i: nat) -> Option<nat>
    decreases cs.len() - i,
{
    if i >= cs.len() {
        None
    } else if cs[i as int].id == id {
        Some(i)
    } else {
        first_with_id(cs, id, i + 1)
    }
}

/// Timestamps of the records, in log order.
pub open spec fn timestamps(rs: Seq<PacketRecordView>) -> Seq<u64> {
    rs.map_values(|r: PacketRecordView| r.timestamp_unix_ns)
}

/// The earliest timestamp of the records.
pub open spec fn min_timestamp(rs: Seq<PacketRecordView>) -> Option<u64>
    decreases rs.len(),
{
    if rs.len() == 0 {
        None
    } else {
        match min_timestamp(rs.drop_last()) {
            None => Some(rs.last().timestamp_unix_ns),
            Some(m) => Some(if rs.last().timestamp_unix_ns < m { rs.last().timestamp_unix_ns } else { m }),
        }
    }
}

/// The latest timestamp of the records.
pub open spec fn max_timestamp(rs: Seq<PacketRecordView>) -> Option<u64>
    decreases rs.len(),
{
    if rs.len() == 0 {
        None
    } else {
        match max_timestamp(rs.drop_last()) {
            None => Some(rs.last().timestamp_unix_ns),
            Some(m) => Some(if rs.last().timestamp_unix_ns > m { rs.last().timestamp_unix_ns } else { m }),
        }
    }
}

pub proof fn lemma_min_timestamp_is_min(rs: Seq<PacketRecordView>)
    ensures
        min_timestamp(rs) is None <==> rs.len() == 0,
        min_timestamp(rs) matches Some(m) ==> (exists|i: int|
            0 <= i < rs.len() && #[trigger] rs[i].timestamp_unix_ns == m) && forall|i: int|
            0 <= i < rs.len() ==> m <= #[trigger] rs[i].timestamp_unix_ns,
    decreases rs.len(),
{
    if rs.len() > 0 {
        let init = rs.drop_last();
        let last = rs.len() - 1;
        lemma_min_timestamp_is_min(init);
        assert(rs[last] == rs.last());
        let m = min_timestamp(rs)->Some_0;
        match min_timestamp(init) {
            None => {
                assert(init.len() == 0);
                assert(rs[last].timestamp_unix_ns == m);
            },
            Some(m0) => {
                let i0 = choose|i: int| 0 <= i < init.len() && #[trigger] init[i].timestamp_unix_ns == m0;
                assert(init[i0] == rs[i0]);
                if rs.last().timestamp_unix_ns < m0 {
                    assert(rs[last].timestamp_unix_ns == m);
                } else {
                    assert(rs[i0].timestamp_unix_ns == m);
                }
                assert forall|i: int| 0 <= i < rs.len() implies m <= #[trigger] rs[i].timestamp_unix_ns by {
                    if i < init.len() {
                        assert(init[i] == rs[i]);
                    }
                }
            },
        }
    }
}

/// Number of records of the channel with this id.
pub open spec fn count_records(rs: Seq<PacketRecordView>, id: u16) -> nat
    decreases rs.len(),
{
    if rs.len() == 0 {
        0
    } else {
        count_records(rs.drop_last(), id) + if rs.last().channel_id == id { 1nat } else { 0nat }
    }
}

/// One line of the summary per channel.
pub open spec fn channel_summary_line(c: ChannelMetaView, rs: Seq<PacketRecordView>) -> Seq<char> {
    "- "@ + c.name + " id="@ + decimal(c.id as nat) + " packet_len="@ + decimal(c.packet_len as nat)
        + " records="@ + decimal(count_records(rs, c.id)) + "\n"@
}

pub open spec fn channel_summary(cs: Seq<ChannelMetaView>, rs: Seq<PacketRecordView>) -> Seq<char>
    decreases cs.len(),
{
    if cs.len() == 0 {
        Seq::empty()
    } else {
        channel_summary(cs.drop_last(), rs) + channel_summary_line(cs.last(), rs)
    }
}

/// The text that `inspect` prints for a log.
pub open spec fn summary_text(log: CaptureLogView) -> Seq<char> {
    "serial-repack capture\n"@ + "channels: "@ + decimal(log.channels.len()) + "\n"@ + "records: "@
        + decimal(log.records.len()) + "\n"@ + match (min_timestamp(log.records), max_timestamp(log.records)) {
        (Some(first), Some(last)) => "time_range_ns: "@ + decimal(first as nat) + ".."@ + decimal(
            last as nat,
        ) + "\n"@,
        _ => Seq::empty(),
    } + channel_summary(log.channels, log.records)
}

impl CaptureLog {
    /// A log with one channel per enabled channel of a valid configuration,
    /// numbered from 0 in order, and no records or statistics yet.
    pub fn from_config(config: &Config) -> (r: Result<Self, LogError>)
        ensures
            r is Ok <==> config_fault(config@) is None && enabled_only(config@).len() <= 0x1_0000,
            r matches Ok(log) ==> {
                let enabled = enabled_only(config@);
                &&& log@.channels.len() == enabled.len()
                &&& forall|i: int|
                    0 <= i < enabled.len() ==> #[trigger] log@.channels[i] == meta_of(
                        validated_view(enabled[i]),
                        i as u16,
                    )
                &&& log@.records.len() == 0
                &&& log@.stats.len() == 0
            },
            r matches Err(e) ==> match e {
                LogError::Config(ce) => config_fault(config@) == Some(ce.fault()),
                LogError::TooManyChannels => config_fault(config@) is None && enabled_only(
                    config@,
                ).len() > 0x1_0000,
                _ => false,
            },
    {
        let validated = match config.validated_channels() {
            Ok(v) => v,
            Err(e) => {
                return Err(LogError::Config(e));
            },
        };
        let ghost enabled = enabled_only(config@);
        let ghost vv = enabled.map_values(|c: ChannelConfigView| validated_view(c));
        assert(validated@.map_values(|c: ValidatedChannel| c@) == vv);
        assert(validated@.len() == enabled.len());
        assert forall|k: int| 0 <= k < enabled.len() implies #[trigger] validated@[k]@ == validated_view(
            enabled[k],
        ) by {
            assert(validated@.map_values(|c: ValidatedChannel| c@)[k] == vv[k]);
        }
        let mut channels: Vec<ChannelMeta> = Vec::new();
        let mut i: usize = 0;
        while i < validated.len()
            invariant
                i <= validated@.len(),
                i <= 0x1_0000,
                config_fault(config@) is None,
                enabled == enabled_only(config@),
                validated@.len() == enabled.len(),
                forall|k: int|
                    0 <= k < enabled.len() ==> #[trigger] validated@[k]@ == validated_view(
                        enabled[k],
                    ),
                channels@.len() == i,
                forall|k: int|
                    0 <= k < i ==> #[trigger] channels@[k]@ == meta_of(
                        validated_view(enabled[k]),
                        k as u16,
                    ),
            decreases validated@.len() - i,
        {
            if i > 0xFFFF {
                return Err(LogError::TooManyChannels);
            }
            let v = &validated[i];
            assert(v@ == validated_view(enabled[i as int]));
            let meta = ChannelMeta {
                id: i as u16,
                name: v.name.clone(),
                serial: v.serial.clone(),
                packet_len: v.packet_len,
                header: {
                    let h = v.header.clone();
                    assert(h@ =~= v.header@);
                    h
                },
                tail: {
                    let t = v.tail.clone();
                    assert(t@ =~= v.tail@);
                    t
                },
            };
            channels.push(meta);
            i = i + 1;
        }
        let log = CaptureLog { channels, records: Vec::new(), stats: Vec::new() };
        proof {
            assert forall|k: int| 0 <= k < enabled.len() implies #[trigger] log@.channels[k] == meta_of(
                validated_view(enabled[k]),
                k as u16,
            ) by {
                assert(log@.channels[k] == log.channels@[k]@);
            }
        }
        Ok(log)
    }

    /// The first channel with this name.
    pub fn channel_by_name(&self, name: &str) -> (r: Option<&ChannelMeta>)
        ensures
            match first_named(self@.channels, name@, 0) {
                Some(i) => r matches Some(c) && c@ == self@.channels[i as int],
                None => r is None,
            },
    {
        let ghost cs = self@.channels;
        let mut i: usize = 0;
        while i < self.channels.len()
            invariant
                cs == self@.channels,
                i <= cs.len(),
                first_named(cs, name@, 0) == first_named(cs, name@, i as nat),
            decreases cs.len() - i,
        {
            assert(cs[i as int] == self.channels@[i as int]@);
            if crate::text::str_eq(self.channels[i].name.as_str(), name) {
                return Some(&self.channels[i]);
            }
            i = i + 1;
        }
        None
    }

    /// The first channel with this id.
    pub fn channel_by_id(&self, id: u16) -> (r: Option<&ChannelMeta>)
        ensures
            match first_with_id(self@.channels, id, 0) {
                Some(i) => r matches Some(c) && c@ == self@.channels[i as int],
                None => r is None,
            },
    {
        let ghost cs = self@.channels;
        let mut i: usize = 0;
        while i < self.channels.len()
            invariant
                cs == self@.channels,
                i <= cs.len(),
                first_with_id(cs, id, 0) == first_with_id(cs, id, i as nat),
            decreases cs.len() - i,
        {
            assert(cs[i as int] == self.channels@[i as int]@);
            if self.channels[i].id == id {
                return Some(&self.channels[i]);
            }
            i = i + 1;
        }
        None
    }

    /// The earliest record timestamp, if there are records.
    pub fn first_timestamp(&self) -> (r: Option<u64>)
        ensures
            r == min_timestamp(self@.records),
    {
        let ghost rs = self@.records;
        let mut best: Option<u64> = None;
        let mut i: usize = 0;
        while i < self.records.len()
            invariant
                rs == self@.records,
                i <= rs.len(),
                best == min_timestamp(rs.take(i as int)),
            decreases rs.len() - i,
        {
            let t = self.records[i].timestamp_unix_ns;
            assert(rs.take(i + 1).drop_last() =~= rs.take(i as int));
            assert(rs.take(i + 1).last() == self.records@[i as int]@);
            best = match best {
                None => Some(t),
                Some(m) => Some(if t < m { t } else { m }),
            };
            i = i + 1;
        }
        assert(rs.take(rs.len() as int) =~= rs);
        best
    }

    fn last_timestamp(&self) -> (r: Option<u64>)
        ensures
            r == max_timestamp(self@.records),
    {
        let ghost rs = self@.records;
        let mut best: Option<u64> = None;
        let mut i: usize = 0;
        while i < self.records.len()
            invariant
                rs == self@.records,
                i <= rs.len(),
                best == max_timestamp(rs.take(i as int)),
            decreases rs.len() - i,
        {
            let t = self.records[i].timestamp_unix_ns;
            assert(rs.take(i + 1).drop_last() =~= rs.take(i as int));
            assert(rs.take(i + 1).last() == self.records@[i as int]@);
            best = match best {
                None => Some(t),
                Some(m) => Some(if t > m { t } else { m }),
            };
            i = i + 1;
        }
        assert(rs.take(rs.len() as int) =~= rs);
        best
    }

    fn count_channel_records(&self, id: u16) -> (r: u64)
        ensures
            r as nat == count_records(self@.records, id),
    {
        let ghost rs = self@.records;
        let mut n: u64 = 0;
        let mut i: usize = 0;
        while i < self.records.len()
            invariant
                rs == self@.records,
                i <= rs.len(),
                n as nat == count_records(rs.take(i as int), id),
                n <= i,
            decreases rs.len() - i,
        {
            assert(rs.take(i + 1).drop_last() =~= rs.take(i as int));
            assert(rs.take(i + 1).last() == self.records@[i as int]@);
            if self.records[i].channel_id == id {
                n = n + 1;
            }
            i = i + 1;
        }
        assert(rs.take(rs.len() as int) =~= rs);
        n
    }
}

/// A short human-readable description of a log: counts, time range and
/// one line per channel.
pub fn inspect_summary(log: &CaptureLog) -> (r: String)
    ensures
        r@ == summary_text(log@),
{
    let mut out = String::from_str("serial-repack capture\n");
    out.append("channels: ");
    out.append(decimal_string(log.channels.len() as u64).as_str());
    out.append("\n");
    out.append("records: ");
    out.append(decimal_string(log.records.len() as u64).as_str());
    out.append("\n");
    let ghost head = out@;
    match (log.first_timestamp(), log.last_timestamp()) {
        (Some(first), Some(last)) => {
            out.append("time_range_ns: ");
            out.append(decimal_string(first).as_str());
            out.append("..");
            out.append(decimal_string(last).as_str());
            out.append("\n");
        },
        _ => {},
    }
    let ghost with_range = out@;
    let ghost cs = log@.channels;
    let ghost rs = log@.records;
    let mut i: usize = 0;
    while i < log.channels.len()
        invariant
            cs == log@.channels,
            rs == log@.records,
            i <= cs.len(),
            out@ == with_range + channel_summary(cs.take(i as int), rs),
        decreases cs.len() - i,
    {
        let c = &log.channels[i];
        assert(cs[i as int] == c@);
        out.append("- ");
        out.append(c.name.as_str());
        out.append(" id=");
        out.append(decimal_string(c.id as u64).as_str());
        out.append(" packet_len=");
        out.append(decimal_string(c.packet_len as u64).as_str());
        out.append(" records=");
        out.append(decimal_string(log.count_channel_records(c.id)).as_str());
        out.append("\n");
        assert(cs.take(i + 1).drop_last() =~= cs.take(i as int));
        assert(out@ =~= with_range + channel_summary(cs.take(i + 1), rs));
        i = i + 1;
    }
    assert(cs.take(cs.len() as int) =~= cs);
    assert(out@ =~= summary_text(log@));
    out
}


/// The text of a log error (for a refused configuration, the text of the
/// configuration error).
pub open spec fn log_error_text(e: LogError) -> Seq<char> {
    match e {
        LogError::UnexpectedEof => "failed to fill whole buffer"@,
        LogError::InvalidMagic => "invalid SRP magic"@,
        LogError::InvalidUtf8 => "invalid UTF-8 string in log"@,
        LogError::UnknownChannel(id) => "record references unknown channel_id "@ + decimal(id as nat),
        LogError::PacketLenMismatch { packet_len, channel_id, expected_len } => "record packet_len "@
            + decimal(packet_len as nat) + " does not match channel "@ + decimal(channel_id as nat)
            + " length "@ + decimal(expected_len as nat),
        LogError::OutOfRange => "out of range integral type conversion attempted"@,
        LogError::TooManyChannels => "too many channels for u16 channel_id"@,
        LogError::Config(_) => Seq::empty(),
    }
}

impl LogError {
    /// The error's text, as the command line prints it.
    pub fn message(&self) -> (r: String)
        ensures
            !(self is Config) ==> r@ == log_error_text(*self),
            self matches LogError::Config(ce) ==> r@ == crate::config::fault_message(ce.fault()),
    {
        match self {
            LogError::UnexpectedEof => String::from_str("failed to fill whole buffer"),
            LogError::InvalidMagic => String::from_str("invalid SRP magic"),
            LogError::InvalidUtf8 => String::from_str("invalid UTF-8 string in log"),
            LogError::UnknownChannel(id) => {
                let mut s = String::from_str("record references unknown channel_id ");
                s.append(decimal_string(*id as u64).as_str());
                s
            },
            LogError::PacketLenMismatch { packet_len, channel_id, expected_len } => {
                let mut s = String::from_str("record packet_len ");
                s.append(decimal_string(*packet_len as u64).as_str());
                s.append(" does not match channel ");
                s.append(decimal_string(*channel_id as u64).as_str());
                s.append(" length ");
                s.append(decimal_string(*expected_len as u64).as_str());
                s
            },
            LogError::OutOfRange => String::from_str("out of range integral type conversion attempted"),
            LogError::TooManyChannels => String::from_str("too many channels for u16 channel_id"),
            LogError::Config(e) => e.message(),
        }
    }
}


/// A live log's counts are rewritten once `sync_every` packets (when not 0)
/// have been written since the last rewrite, or once `interval_ms` have
/// passed since it.
pub fn checkpoint_due(pending_packets: u64, sync_every: u64, elapsed_ms: u64, interval_ms: u64) -> (r: bool)
    ensures
        r == ((sync_every > 0 && pending_packets >= sync_every) || elapsed_ms >= interval_ms),
{
    (sync_every > 0 && pending_packets >= sync_every) || elapsed_ms >= interval_ms
}

/// The records of channel `id`, in log order.
pub open spec fn records_of(rs: Seq<PacketRecordView>, id: u16) -> Seq<PacketRecordView> {
    rs.filter(|r: PacketRecordView| r.channel_id == id)
}

proof fn lemma_count_is_filter(rs: Seq<PacketRecordView>, id: u16)
    ensures
        count_records(rs, id) == records_of(rs, id).len(),
    decreases rs.len(),
{
    reveal(Seq::filter);
    if rs.len() > 0 {
        lemma_count_is_filter(rs.drop_last(), id);
    }
}

/// The line of a channel in the summary gives its name, id and packet
/// length, and as its record count the number of records of the log that
/// belong to it; the summary has one such line per channel, in table order.
pub proof fn lemma_summary_counts_records(cs: Seq<ChannelMetaView>, rs: Seq<PacketRecordView>)
    ensures
        forall|i: int|
            0 <= i < cs.len() ==> channel_summary_line(#[trigger] cs[i], rs) == "- "@ + cs[i].name
                + " id="@ + decimal(cs[i].id as nat) + " packet_len="@ + decimal(
                cs[i].packet_len as nat,
            ) + " records="@ + decimal(rs.filter(|r: PacketRecordView| r.channel_id == cs[i].id).len())
                + "\n"@,
        cs.len() > 0 ==> channel_summary(cs, rs) == channel_summary(cs.drop_last(), rs)
            + channel_summary_line(cs.last(), rs),
        cs.len() == 0 ==> channel_summary(cs, rs) == Seq::<char>::empty(),
{
    assert forall|i: int| 0 <= i < cs.len() implies channel_summary_line(#[trigger] cs[i], rs) == "- "@
        + cs[i].name + " id="@ + decimal(cs[i].id as nat) + " packet_len="@ + decimal(
        cs[i].packet_len as nat,
    ) + " records="@ + decimal(rs.filter(|r: PacketRecordView| r.channel_id == cs[i].id).len()) + "\n"@ by {
        lemma_count_is_filter(rs, cs[i].id);
        assert(records_of(rs, cs[i].id) == rs.filter(|r: PacketRecordView| r.channel_id == cs[i].id));
    }
}

/// The latest timestamp of a non-empty list of records is one of them and
/// no earlier than any.
pub proof fn lemma_max_timestamp_is_max(rs: Seq<PacketRecordView>)
    ensures
        max_timestamp(rs) is None <==> rs.len() == 0,
        max_timestamp(rs) matches Some(m) ==> (exists|i: int|
            0 <= i < rs.len() && #[trigger] rs[i].timestamp_unix_ns == m) && forall|i: int|
            0 <= i < rs.len() ==> #[trigger] rs[i].timestamp_unix_ns <= m,
    decreases rs.len(),
{
    if rs.len() > 0 {
        let init = rs.drop_last();
        let last = rs.len() - 1;
        lemma_max_timestamp_is_max(init);
        assert(rs[last] == rs.last());
        let m = max_timestamp(rs)->Some_0;
        match max_timestamp(init) {
            None => {
                assert(init.len() == 0);
                assert(rs[last].timestamp_unix_ns == m);
            },
            Some(m0) => {
                let i0 = choose|i: int| 0 <= i < init.len() && #[trigger] init[i].timestamp_unix_ns == m0;
                assert(init[i0] == rs[i0]);
                if rs.last().timestamp_unix_ns > m0 {
                    assert(rs[last].timestamp_unix_ns == m);
                } else {
                    assert(rs[i0].timestamp_unix_ns == m);
                }
                assert forall|i: int| 0 <= i < rs.len() implies #[trigger] rs[i].timestamp_unix_ns <= m by {
                    if i < init.len() {
                        assert(init[i] == rs[i]);
                    }
                }
            },
        }
    }
}

/// The summary names the channel and record counts, then, when there are
/// records, the earliest and the latest of their timestamps, then the line
/// of each channel.
pub proof fn lemma_summary_text(log: CaptureLogView)
    ensures
        ({
            let head = "serial-repack capture\n"@ + "channels: "@ + decimal(log.channels.len()) + "\n"@
                + "records: "@ + decimal(log.records.len()) + "\n"@;
            let rs = log.records;
            &&& rs.len() == 0 ==> summary_text(log) == head + channel_summary(log.channels, rs)
            &&& rs.len() > 0 ==> exists|first: u64, last: u64|
                (exists|i: int| 0 <= i < rs.len() && #[trigger] rs[i].timestamp_unix_ns == first) && (
                exists|i: int| 0 <= i < rs.len() && #[trigger] rs[i].timestamp_unix_ns == last) && (
                forall|i: int|
                    0 <= i < rs.len() ==> first <= #[trigger] rs[i].timestamp_unix_ns
                        <= last) && summary_text(log) == head + "time_range_ns: "@ + decimal(
                    first as nat,
                ) + ".."@ + decimal(last as nat) + "\n"@ + channel_summary(log.channels, rs)
        }),
{
    let rs = log.records;
    lemma_min_timestamp_is_min(rs);
    lemma_max_timestamp_is_max(rs);
    let head = "serial-repack capture\n"@ + "channels: "@ + decimal(log.channels.len()) + "\n"@
        + "records: "@ + decimal(log.records.len()) + "\n"@;
    if rs.len() == 0 {
        assert(summary_text(log) =~= head + channel_summary(log.channels, rs));
    } else {
        let first = min_timestamp(rs)->Some_0;
        let last = max_timestamp(rs)->Some_0;
        assert(summary_text(log) =~= head + "time_range_ns: "@ + decimal(first as nat) + ".."@
            + decimal(last as nat) + "\n"@ + channel_summary(log.channels, rs));
    }
}

} // verus!
