//! Capture decisions: packet timing on the wire, timestamps of the packets
//! of one read, the log kept while capturing, and the channel status line.

use vstd::prelude::*;
use crate::log_format::{timestamps, CaptureLog, ChannelMeta, ChannelMetaView, ChannelStats, PacketRecord, PacketRecordView};
use crate::sorting::{is_stable_order, stable_order};
use crate::text::{decimal, decimal_string};

verus! {

/// `p` is `none` in any mix of ASCII case.
pub open spec fn is_none_ignoring_case(p: Seq<char>) -> bool {
    &&& p.len() == 4
    &&& (p[0] == 'n' || p[0] == 'N')
    &&& (p[1] == 'o' || p[1] == 'O')
    &&& (p[2] == 'n' || p[2] == 'N')
    &&& (p[3] == 'e' || p[3] == 'E')
}

fn none_ignoring_case(p: &str) -> (r: bool)
    ensures
        r == is_none_ignoring_case(p@),
{
    if p.unicode_len() != 4 {
        return false;
    }
    let c0 = p.get_char(0);
    let c1 = p.get_char(1);
    let c2 = p.get_char(2);
    let c3 = p.get_char(3);
    (c0 == 'n' || c0 == 'N') && (c1 == 'o' || c1 == 'O') && (c2 == 'n' || c2 == 'N') && (c3 == 'e'
        || c3 == 'E')
}

/// Nanoseconds that a packet of `packet_len` bytes takes on the wire: a
/// start bit, the data bits, the stop bits and a parity bit unless parity
/// is `none`, per byte, at `baud_rate` bits per second, rounded down and
/// capped at `u64::MAX`; zero when length, baud rate or data bits are zero.
pub open spec fn packet_interval_ns(packet_len: nat, baud_rate: nat, data_bits: nat, stop_bits: nat, parity: Seq<char>) -> nat {
    if packet_len == 0 || baud_rate == 0 || data_bits == 0 {
        0
    } else {
        let parity_bits: nat = if is_none_ignoring_case(parity) { 0 } else { 1 };
        let ns = (packet_len * (1 + data_bits + stop_bits + parity_bits) * 1_000_000_000) / baud_rate;
        if ns > u64::MAX { u64::MAX as nat } else { ns }
    }
}

/// See [`packet_interval_ns`].
pub fn estimated_packet_interval_ns(packet_len: usize, baud_rate: u32, data_bits: u8, stop_bits: u8, parity: &str) -> (r: u64)
    ensures
        r as nat == packet_interval_ns(packet_len as nat, baud_rate as nat, data_bits as nat, stop_bits as nat, parity@),
{
    if packet_len == 0 || baud_rate == 0 || data_bits == 0 {
        return 0;
    }
    let parity_bits: u128 = if none_ignoring_case(parity) { 0 } else { 1 };
    let bits_per_byte: u128 = 1 + data_bits as u128 + stop_bits as u128 + parity_bits;
    let len = packet_len as u128;
    assert(len * bits_per_byte <= 0x1_0000_0000_0000_0000 * 0x200) by (nonlinear_arith)
        requires
            len < 0x1_0000_0000_0000_0000,
            bits_per_byte <= 0x200,
    ;
    let bits_per_packet = len * bits_per_byte;
    assert(bits_per_packet * 1_000_000_000 <= 0x1_0000_0000_0000_0000 * 0x200 * 1_000_000_000) by (nonlinear_arith)
        requires
            bits_per_packet <= 0x1_0000_0000_0000_0000 * 0x200,
    ;
    let ns = (bits_per_packet * 1_000_000_000) / baud_rate as u128;
    if ns > 0xFFFF_FFFF_FFFF_FFFF {
        0xFFFF_FFFF_FFFF_FFFF
    } else {
        ns as u64
    }
}

/// `a * b`, or `u64::MAX` where it does not fit.
pub open spec fn sat_mul(a: u64, b: nat) -> u64 {
    if a * b > u64::MAX { u64::MAX } else { (a * b) as u64 }
}

/// `a - b`, or 0 where `b` is larger.
pub open spec fn sat_sub(a: u64, b: u64) -> u64 {
    if a >= b { (a - b) as u64 } else { 0 }
}

/// `a + b`, or `u64::MAX` where it does not fit.
pub open spec fn sat_add(a: u64, b: u64) -> u64 {
    if a + b > u64::MAX { u64::MAX } else { (a + b) as u64 }
}

/// Timestamp of packet `i` of `count` packets taken from one read at
/// `base_ns`: the last packet gets `base_ns`, each earlier one a packet
/// interval before the next, all in saturating arithmetic.
pub open spec fn packet_timestamp(base_ns: u64, interval_ns: u64, count: nat, i: nat) -> u64 {
    let first = sat_sub(base_ns, sat_mul(interval_ns, if count > 0 { (count - 1) as nat } else { 0 }));
    sat_add(first, sat_mul(interval_ns, i))
}

fn saturating_mul(a: u64, b: u64) -> (r: u64)
    ensures
        r == sat_mul(a, b as nat),
{
    match a.checked_mul(b) {
        Some(v) => v,
        None => 0xFFFF_FFFF_FFFF_FFFF,
    }
}

/// What capture needs to know about one channel.
#[derive(Debug, Clone, PartialEq, Eq)]
pub struct ChannelCaptureSpec {
    pub channel_id: u16,
    pub packet_len: usize,
    pub baud_rate: u32,
    pub data_bits: u8,
    pub stop_bits: u8,
    pub parity: String,
    pub header: Vec<u8>,
    pub tail: Vec<u8>,
}

impl ChannelCaptureSpec {
    /// The capture settings of a channel of the log.
    pub fn from_meta(meta: &ChannelMeta) -> (r: Self)
        ensures
            r.channel_id == meta.id,
            r.packet_len == meta.packet_len,
            r.baud_rate == meta.serial.baud_rate,
            r.data_bits == meta.serial.data_bits,
            r.stop_bits == meta.serial.stop_bits,
            r.parity@ == meta.serial.parity@,
            r.header@ == meta.header@,
            r.tail@ == meta.tail@,
    {
        let header = meta.header.clone();
        let tail = meta.tail.clone();
        assert(header@ =~= meta.header@);
        assert(tail@ =~= meta.tail@);
        ChannelCaptureSpec {
            channel_id: meta.id,
            packet_len: meta.packet_len,
            baud_rate: meta.serial.baud_rate,
            data_bits: meta.serial.data_bits,
            stop_bits: meta.serial.stop_bits,
            parity: meta.serial.parity.clone(),
            header,
            tail,
        }
    }

    /// See [`packet_interval_ns`].
    pub fn interval_ns(&self) -> (r: u64)
        ensures
            r as nat == packet_interval_ns(self.packet_len as nat, self.baud_rate as nat, self.data_bits as nat, self.stop_bits as nat, self.parity@),
    {
        estimated_packet_interval_ns(self.packet_len, self.baud_rate, self.data_bits, self.stop_bits, self.parity.as_str())
    }

    /// Records for the packets of one read, in order, timestamped back from
    /// `base_ns` one packet interval apart (see [`packet_timestamp`]).
    pub fn stamp_packets(&self, packets: &Vec<Vec<u8>>, base_ns: u64) -> (r: Vec<PacketRecord>)
        ensures
            r@.len() == packets@.len(),
            forall|i: int|
                0 <= i < r@.len() ==> (#[trigger] r@[i])@ == (PacketRecordView {
                    channel_id: self.channel_id,
                    timestamp_unix_ns: packet_timestamp(
                        base_ns,
                        packet_interval_ns(self.packet_len as nat, self.baud_rate as nat, self.data_bits as nat, self.stop_bits as nat, self.parity@) as u64,
                        packets@.len(),
                        i as nat,
                    ),
                    packet: packets@[i]@,
                }),
    {
        let interval = self.interval_ns();
        let n = packets.len();
        let back = saturating_mul(interval, if n > 0 { (n - 1) as u64 } else { 0 });
        let first = base_ns.saturating_sub(back);
        let mut out: Vec<PacketRecord> = Vec::new();
        let mut i: usize = 0;
        while i < n
            invariant
                n == packets@.len(),
                i <= n,
                interval as nat == packet_interval_ns(self.packet_len as nat, self.baud_rate as nat, self.data_bits as nat, self.stop_bits as nat, self.parity@),
                first == sat_sub(base_ns, sat_mul(interval, if n > 0 { (n - 1) as nat } else { 0 })),
                out@.len() == i,
                forall|k: int|
                    0 <= k < i ==> (#[trigger] out@[k])@ == (PacketRecordView {
                        channel_id: self.channel_id,
                        timestamp_unix_ns: packet_timestamp(base_ns, interval, n as nat, k as nat),
                        packet: packets@[k]@,
                    }),
            decreases n - i,
        {
            let offset = saturating_mul(interval, i as u64);
            let packet = packets[i].clone();
            assert(packet@ =~= packets@[i as int]@);
            out.push(PacketRecord {
                channel_id: self.channel_id,
                timestamp_unix_ns: first.saturating_add(offset),
                packet,
            });
            i = i + 1;
        }
        out
    }
}

/// `blink[id]`, or off for an id past the end.
pub open spec fn lamp_on(blink: Seq<bool>, id: u16) -> bool {
    (id as int) < blink.len() && blink[id as int]
}

/// Takes in a packet of a running capture: flips the channel's lamp and
/// appends the record to the log.
pub fn note_packet(log: &mut CaptureLog, blink: &mut Vec<bool>, record: PacketRecord)
    ensures
        final(log)@.records == old(log)@.records.push(record@),
        final(log)@.channels == old(log)@.channels,
        final(log)@.stats == old(log)@.stats,
        final(blink)@ == if (record.channel_id as int) < old(blink)@.len() {
            old(blink)@.update(record.channel_id as int, !old(blink)@[record.channel_id as int])
        } else {
            old(blink)@
        },
{
    let id = record.channel_id as usize;
    if id < blink.len() {
        let state = blink[id];
        blink.set(id, !state);
    }
    let ghost before = log.records@.map_values(|r: PacketRecord| r@);
    let ghost rv = record@;
    log.records.push(record);
    assert(log.records@.map_values(|r: PacketRecord| r@) =~= before.push(rv));
}

/// Takes in the final counters of a channel.
pub fn note_channel_done(log: &mut CaptureLog, stats: ChannelStats)
    ensures
        final(log)@.stats == old(log)@.stats.push(stats),
        final(log)@.channels == old(log)@.channels,
        final(log)@.records == old(log)@.records,
{
    log.stats.push(stats);
}

/// Every position chosen.
pub open spec fn all_chosen(n: nat) -> Seq<bool> {
    Seq::new(n, |i: int| true)
}

/// Channel ids of the statistics, in order.
pub open spec fn stat_ids(ss: Seq<ChannelStats>) -> Seq<u64> {
    ss.map_values(|s: ChannelStats| s.channel_id as u64)
}

fn all_true(n: usize) -> (r: Vec<bool>)
    ensures
        r@ == all_chosen(n as nat),
{
    let mut v: Vec<bool> = Vec::new();
    let mut i: usize = 0;
    while i < n
        invariant
            i <= n,
            v@ == all_chosen(i as nat),
        decreases n - i,
    {
        v.push(true);
        i = i + 1;
        assert(v@ =~= all_chosen(i as nat));
    }
    v
}

/// Ends a capture: records in timestamp order and statistics in channel
/// order, both stable, so that equal keys keep the order they came in.
pub fn finish_capture(log: &mut CaptureLog)
    ensures
        final(log)@.channels == old(log)@.channels,
        exists|order: Seq<usize>|
            is_stable_order(timestamps(old(log)@.records), all_chosen(old(log)@.records.len()), order)
                && final(log)@.records == order.map_values(|i: usize| old(log)@.records[i as int]),
        exists|order: Seq<usize>|
            is_stable_order(stat_ids(old(log)@.stats), all_chosen(old(log)@.stats.len()), order)
                && final(log)@.stats == order.map_values(|i: usize| old(log)@.stats[i as int]),
{
    let ghost rs = log@.records;
    let ghost ss = log@.stats;
    let mut keys: Vec<u64> = Vec::new();
    let mut i: usize = 0;
    while i < log.records.len()
        invariant
            rs == log@.records,
            i <= rs.len(),
            keys@ == timestamps(rs).take(i as int),
        decreases rs.len() - i,
    {
        assert(rs[i as int] == log.records@[i as int]@);
        keys.push(log.records[i].timestamp_unix_ns);
        assert(keys@ =~= timestamps(rs).take(i + 1));
        i = i + 1;
    }
    assert(timestamps(rs).take(rs.len() as int) =~= timestamps(rs));
    let chosen = all_true(log.records.len());
    let order = stable_order(&keys, &chosen);
    let mut records: Vec<PacketRecord> = Vec::new();
    let mut k: usize = 0;
    while k < order.len()
        invariant
            rs == log@.records,
            is_stable_order(timestamps(rs), all_chosen(rs.len()), order@),
            k <= order@.len(),
            records@.map_values(|r: PacketRecord| r@) == order@.take(k as int).map_values(|i: usize| rs[i as int]),
        decreases order@.len() - k,
    {
        let ghost before = records@.map_values(|r: PacketRecord| r@);
        let idx = order[k];
        assert(idx < rs.len());
        assert(rs[idx as int] == log.records@[idx as int]@);
        let r = log.records[idx].clone();
        records.push(r);
        assert(records@.map_values(|r: PacketRecord| r@) =~= before.push(rs[idx as int]));
        assert(order@.take(k + 1).map_values(|i: usize| rs[i as int]) =~= order@.take(k as int).map_values(|i: usize| rs[i as int]).push(rs[idx as int]));
        k = k + 1;
    }
    assert(order@.take(order@.len() as int) =~= order@);
    log.records = records;

    let mut ids: Vec<u64> = Vec::new();
    let mut j: usize = 0;
    while j < log.stats.len()
        invariant
            ss == log@.stats,
            j <= ss.len(),
            ids@ == stat_ids(ss).take(j as int),
        decreases ss.len() - j,
    {
        ids.push(log.stats[j].channel_id as u64);
        assert(ids@ =~= stat_ids(ss).take(j + 1));
        j = j + 1;
    }
    assert(stat_ids(ss).take(ss.len() as int) =~= stat_ids(ss));
    let all_stats = all_true(log.stats.len());
    let stat_order = stable_order(&ids, &all_stats);
    let mut stats: Vec<ChannelStats> = Vec::new();
    let mut m: usize = 0;
    while m < stat_order.len()
        invariant
            ss == log@.stats,
            is_stable_order(stat_ids(ss), all_chosen(ss.len()), stat_order@),
            m <= stat_order@.len(),
            stats@ == stat_order@.take(m as int).map_values(|i: usize| ss[i as int]),
        decreases stat_order@.len() - m,
    {
        let idx = stat_order[m];
        assert(idx < ss.len());
        stats.push(log.stats[idx]);
        assert(stats@ =~= stat_order@.take(m + 1).map_values(|i: usize| ss[i as int]));
        m = m + 1;
    }
    assert(stat_order@.take(stat_order@.len() as int) =~= stat_order@);
    log.stats = stats;
}


/// Channel ids of the table, in order.
pub open spec fn channel_ids(cs: Seq<ChannelMetaView>) -> Seq<u64> {
    cs.map_values(|c: ChannelMetaView| c.id as u64)
}

/// The longest channel name, in characters.
pub open spec fn longest_name(cs: Seq<ChannelMetaView>) -> Option<nat>
    decreases cs.len(),
{
    if cs.len() == 0 {
        None
    } else {
        match longest_name(cs.drop_last()) {
            None => Some(cs.last().name.len()),
            Some(m) => Some(if cs.last().name.len() > m { cs.last().name.len() } else { m }),
        }
    }
}

/// The width names are padded to: the longest name, or 1 without channels.
pub open spec fn name_width(cs: Seq<ChannelMetaView>) -> nat {
    match longest_name(cs) {
        Some(m) => m,
        None => 1,
    }
}

/// `n` spaces.
pub open spec fn spaces(n: nat) -> Seq<char> {
    Seq::new(n, |i: int| ' ')
}

/// `name` padded with spaces on the right to `width` characters.
pub open spec fn padded(name: Seq<char>, width: nat) -> Seq<char> {
    if name.len() < width {
        name + spaces((width - name.len()) as nat)
    } else {
        name
    }
}

/// A lit or an unlit lamp.
pub open spec fn lamp(on: bool) -> Seq<char> {
    if on {
        "🟢"@
    } else {
        "⚪"@
    }
}

/// `#id name:lamp` for one channel.
pub open spec fn lamp_entry(c: ChannelMetaView, width: nat, blink: Seq<bool>) -> Seq<char> {
    "#"@ + decimal(c.id as nat) + " "@ + padded(c.name, width) + ":"@ + lamp(lamp_on(blink, c.id))
}

/// The entries of the channels that `order` lists, separated by spaces.
pub open spec fn lamp_entries(cs: Seq<ChannelMetaView>, order: Seq<usize>, width: nat, blink: Seq<bool>) -> Seq<char>
    decreases order.len(),
{
    if order.len() == 0 {
        Seq::empty()
    } else {
        let prev = lamp_entries(cs, order.drop_last(), width, blink);
        let sep = if order.len() > 1 { " "@ } else { Seq::empty() };
        prev + sep + lamp_entry(cs[order.last() as int], width, blink)
    }
}

/// The status line: every channel in id order with its lamp.
pub open spec fn lamp_text(cs: Seq<ChannelMetaView>, order: Seq<usize>, blink: Seq<bool>) -> Seq<char> {
    "\rchannels: "@ + lamp_entries(cs, order, name_width(cs), blink)
}

fn lit_lamp(on: bool) -> (r: &'static str)
    ensures
        r@ == lamp(on),
{
    if on {
        "🟢"
    } else {
        "⚪"
    }
}

fn push_spaces(s: &mut String, n: usize)
    ensures
        final(s)@ == old(s)@ + spaces(n as nat),
{
    let mut i: usize = 0;
    while i < n
        invariant
            i <= n,
            s@ == old(s)@ + spaces(i as nat),
        decreases n - i,
    {
        proof {
            reveal_strlit(" ");
        }
        s.append(" ");
        i = i + 1;
        assert(s@ =~= old(s)@ + spaces(i as nat));
    }
}

fn push_lamp_entry(line: &mut String, c: &ChannelMeta, width: usize, blink: &Vec<bool>, separate: bool)
    ensures
        final(line)@ == old(line)@ + (if separate { " "@ } else { Seq::<char>::empty() }) + lamp_entry(
            c@,
            width as nat,
            blink@,
        ),
{
    let ghost start = line@;
    if separate {
        line.append(" ");
    }
    let ghost sep = line@;
    line.append("#");
    line.append(decimal_string(c.id as u64).as_str());
    line.append(" ");
    line.append(c.name.as_str());
    let name_len = c.name.as_str().unicode_len();
    if name_len < width {
        push_spaces(line, width - name_len);
    }
    assert(line@ =~= sep + "#"@ + decimal(c.id as nat) + " "@ + padded(c.name@, width as nat));
    line.append(":");
    let on = (c.id as usize) < blink.len() && blink[c.id as usize];
    line.append(lit_lamp(on));
    assert(line@ =~= start + (if separate { " "@ } else { Seq::<char>::empty() }) + lamp_entry(
        c@,
        width as nat,
        blink@,
    ));
}

/// The channel status line printed while capturing: each channel, in id
/// order, as `#id name:lamp`, names padded to the longest.
pub fn lamp_line(log: &CaptureLog, blink: &Vec<bool>) -> (r: String)
    ensures
        exists|order: Seq<usize>|
            is_stable_order(channel_ids(log@.channels), all_chosen(log@.channels.len()), order)
                && r@ == lamp_text(log@.channels, order, blink@),
{
    let ghost cs = log@.channels;
    let mut longest: Option<usize> = None;
    let mut ids: Vec<u64> = Vec::new();
    let mut i: usize = 0;
    while i < log.channels.len()
        invariant
            cs == log@.channels,
            i <= cs.len(),
            match longest {
                Some(m) => longest_name(cs.take(i as int)) == Some(m as nat),
                None => longest_name(cs.take(i as int)) is None,
            },
            ids@ == channel_ids(cs).take(i as int),
        decreases cs.len() - i,
    {
        assert(cs[i as int] == log.channels@[i as int]@);
        assert(cs.take(i + 1).drop_last() =~= cs.take(i as int));
        assert(cs.take(i + 1).last() == cs[i as int]);
        let len = log.channels[i].name.as_str().unicode_len();
        longest = match longest {
            None => Some(len),
            Some(m) => Some(if len > m { len } else { m }),
        };
        ids.push(log.channels[i].id as u64);
        assert(ids@ =~= channel_ids(cs).take(i + 1));
        i = i + 1;
    }
    assert(cs.take(cs.len() as int) =~= cs);
    assert(channel_ids(cs).take(cs.len() as int) =~= channel_ids(cs));
    let width: usize = match longest {
        Some(m) => m,
        None => 1,
    };
    let chosen = all_true(log.channels.len());
    let order = stable_order(&ids, &chosen);
    let mut line = String::from_str("\rchannels: ");
    let ghost head = line@;
    let mut k: usize = 0;
    while k < order.len()
        invariant
            cs == log@.channels,
            width as nat == name_width(cs),
            is_stable_order(channel_ids(cs), all_chosen(cs.len()), order@),
            k <= order@.len(),
            line@ == head + lamp_entries(cs, order@.take(k as int), width as nat, blink@),
        decreases order@.len() - k,
    {
        let idx = order[k];
        assert(idx < cs.len());
        let c = &log.channels[idx];
        assert(cs[idx as int] == c@);
        push_lamp_entry(&mut line, c, width, blink, k > 0);
        proof {
            assert(order@.take(k + 1).drop_last() =~= order@.take(k as int));
            assert(order@.take(k + 1).last() == idx);
            if k == 0 {
                assert(lamp_entries(cs, order@.take(0), width as nat, blink@) =~= Seq::<char>::empty());
            }
            assert(line@ =~= head + lamp_entries(cs, order@.take(k + 1), width as nat, blink@));
        }
        k = k + 1;
    }
    assert(order@.take(order@.len() as int) =~= order@);
    assert(is_stable_order(channel_ids(log@.channels), all_chosen(log@.channels.len()), order@)
        && line@ == lamp_text(log@.channels, order@, blink@));
    line
}

/// The wire time of a packet counts a start bit, the data bits, the stop
/// bits and, for every parity but `none` (in any mix of case), one parity
/// bit per byte, at `baud_rate` bits per second, rounded down and capped at
/// `u64::MAX`; so with parity (odd or even) a packet takes longer than
/// without, once a parity bit per packet lasts at least a nanosecond and
/// the cap is not reached.
pub proof fn lemma_parity_bit_counted(
    packet_len: nat,
    baud_rate: nat,
    data_bits: nat,
    stop_bits: nat,
    parity: Seq<char>,
)
    ensures
        ({
            let bits_with = packet_len * (2 + data_bits + stop_bits) * 1_000_000_000;
            let bits_without = packet_len * (1 + data_bits + stop_bits) * 1_000_000_000;
            let with_parity: nat = if bits_with / baud_rate > u64::MAX {
                u64::MAX as nat
            } else {
                bits_with / baud_rate
            };
            let without_parity: nat = if bits_without / baud_rate > u64::MAX {
                u64::MAX as nat
            } else {
                bits_without / baud_rate
            };
            let interval = packet_interval_ns(packet_len, baud_rate, data_bits, stop_bits, parity);
            let is_none = parity.len() == 4 && (parity[0] == 'n' || parity[0] == 'N') && (parity[1]
                == 'o' || parity[1] == 'O') && (parity[2] == 'n' || parity[2] == 'N') && (parity[3]
                == 'e' || parity[3] == 'E');
            &&& packet_len == 0 || baud_rate == 0 || data_bits == 0 ==> interval == 0
            &&& packet_len > 0 && baud_rate > 0 && data_bits > 0 ==> {
                &&& !is_none ==> interval == with_parity
                &&& is_none ==> interval == without_parity
                &&& (parity == "odd"@ || parity == "even"@ || parity == "ODD"@ || parity == "EVEN"@)
                    ==> interval == with_parity
                &&& (parity == "none"@ || parity == "NONE"@ || parity == "None"@) ==> interval
                    == without_parity
                &&& with_parity < u64::MAX && baud_rate <= packet_len * 1_000_000_000
                    ==> with_parity > without_parity
            }
        }),
{
    reveal_strlit("odd");
    reveal_strlit("even");
    reveal_strlit("ODD");
    reveal_strlit("EVEN");
    reveal_strlit("none");
    reveal_strlit("NONE");
    reveal_strlit("None");
    if packet_len > 0 && baud_rate > 0 && data_bits > 0 {
        let bits_with = packet_len * (2 + data_bits + stop_bits) * 1_000_000_000;
        let bits_without = packet_len * (1 + data_bits + stop_bits) * 1_000_000_000;
        let per_packet = packet_len * 1_000_000_000;
        assert(packet_len * (2 + data_bits + stop_bits) * 1_000_000_000 == packet_len * (1
            + data_bits + stop_bits) * 1_000_000_000 + packet_len * 1_000_000_000)
            by (nonlinear_arith);
        if baud_rate <= per_packet {
            vstd::arithmetic::div_mod::lemma_div_is_ordered(
                (bits_without + baud_rate) as int,
                bits_with as int,
                baud_rate as int,
            );
            vstd::arithmetic::div_mod::lemma_div_plus_one(bits_without as int, baud_rate as int);
            assert((baud_rate + bits_without) as int == (bits_without + baud_rate) as int);
        }
    }
}

/// The packets of one read are stamped one packet interval apart, the last
/// at the read time, as long as the first stamp does not fall before zero.
pub proof fn lemma_packet_timestamps_spaced(base_ns: u64, interval_ns: u64, count: nat)
    requires
        count > 0,
        interval_ns * (count - 1) <= base_ns,
    ensures
        packet_timestamp(base_ns, interval_ns, count, (count - 1) as nat) == base_ns,
        packet_timestamp(base_ns, interval_ns, count, 0) == base_ns - interval_ns * (count - 1),
        forall|i: nat|
            i + 1 < count ==> #[trigger] packet_timestamp(base_ns, interval_ns, count, i + 1)
                == packet_timestamp(base_ns, interval_ns, count, i) + interval_ns,
{
    let n1 = (count - 1) as nat;
    assert forall|i: nat| i < count implies #[trigger] packet_timestamp(base_ns, interval_ns, count, i)
        == base_ns - interval_ns * (n1 - i) by {
        assert(interval_ns * i <= interval_ns * n1) by (nonlinear_arith)
            requires
                i <= n1,
        ;
        assert(interval_ns * n1 - interval_ns * i == interval_ns * (n1 - i)) by (nonlinear_arith);
    }
    assert forall|i: nat| i + 1 < count implies #[trigger] packet_timestamp(base_ns, interval_ns, count, i + 1)
        == packet_timestamp(base_ns, interval_ns, count, i) + interval_ns by {
        assert(packet_timestamp(base_ns, interval_ns, count, i + 1) == base_ns - interval_ns * (n1 - (i
            + 1)));
        assert(packet_timestamp(base_ns, interval_ns, count, i) == base_ns - interval_ns * (n1 - i));
        assert(interval_ns * (n1 - i) == interval_ns * (n1 - (i + 1)) + interval_ns) by (nonlinear_arith)
            requires
                i + 1 <= n1,
        ;
    }
    assert(packet_timestamp(base_ns, interval_ns, count, n1) == base_ns - interval_ns * (n1 - n1));
    assert(interval_ns * (n1 - n1) == 0) by (nonlinear_arith);
    assert(packet_timestamp(base_ns, interval_ns, count, 0) == base_ns - interval_ns * (n1 - 0));
}

} // verus!
