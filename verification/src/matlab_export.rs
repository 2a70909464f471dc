//! Per-channel export: the packets of each channel back to back, and their
//! timestamps as little-endian `u64` values.

use vstd::prelude::*;
use crate::byte_codec::{le_bytes, lemma_le_bytes_len, put_bytes};
use crate::log_format::{count_records, CaptureLog, PacketRecordView};

verus! {

/// The packets of channel `id`, in log order, back to back.
pub open spec fn channel_data(rs: Seq<PacketRecordView>, id: u16) -> Seq<u8>
    decreases rs.len(),
{
    if rs.len() == 0 {
        Seq::empty()
    } else {
        channel_data(rs.drop_last(), id) + if rs.last().channel_id == id {
            rs.last().packet
        } else {
            Seq::empty()
        }
    }
}

/// The timestamps of channel `id`, in log order, eight little-endian bytes each.
pub open spec fn channel_timestamps(rs: Seq<PacketRecordView>, id: u16) -> Seq<u8>
    decreases rs.len(),
{
    if rs.len() == 0 {
        Seq::empty()
    } else {
        channel_timestamps(rs.drop_last(), id) + if rs.last().channel_id == id {
            le_bytes(rs.last().timestamp_unix_ns as nat, 8)
        } else {
            Seq::empty()
        }
    }
}

/// The two files of one channel: `data.bin` and `timestamps_ns.bin`.
#[derive(Debug, Clone, PartialEq, Eq)]
pub struct ChannelExport {
    pub name: String,
    pub data: Vec<u8>,
    pub timestamps: Vec<u8>,
}

/// The export of every channel of the log, in table order.
pub fn export_channels(log: &CaptureLog) -> (r: Vec<ChannelExport>)
    ensures
        r@.len() == log@.channels.len(),
        forall|i: int|
            0 <= i < r@.len() ==> {
                &&& (#[trigger] r@[i]).name@ == log@.channels[i].name
                &&& r@[i].data@ == channel_data(log@.records, log@.channels[i].id)
                &&& r@[i].timestamps@ == channel_timestamps(log@.records, log@.channels[i].id)
            },
{
    let ghost rs = log@.records;
    let ghost cs = log@.channels;
    let mut out: Vec<ChannelExport> = Vec::new();
    let mut c: usize = 0;
    while c < log.channels.len()
        invariant
            rs == log@.records,
            cs == log@.channels,
            c <= cs.len(),
            out@.len() == c,
            forall|i: int|
                0 <= i < c ==> {
                    &&& (#[trigger] out@[i]).name@ == cs[i].name
                    &&& out@[i].data@ == channel_data(rs, cs[i].id)
                    &&& out@[i].timestamps@ == channel_timestamps(rs, cs[i].id)
                },
        decreases cs.len() - c,
    {
        let channel = &log.channels[c];
        assert(cs[c as int] == channel@);
        let id = channel.id;
        let mut data: Vec<u8> = Vec::new();
        let mut stamps: Vec<u8> = Vec::new();
        let mut i: usize = 0;
        while i < log.records.len()
            invariant
                rs == log@.records,
                i <= rs.len(),
                data@ == channel_data(rs.take(i as int), id),
                stamps@ == channel_timestamps(rs.take(i as int), id),
            decreases rs.len() - i,
        {
            let record = &log.records[i];
            assert(rs[i as int] == record@);
            assert(rs.take(i + 1).drop_last() =~= rs.take(i as int));
            assert(rs.take(i + 1).last() == record@);
            if record.channel_id == id {
                put_bytes(&mut data, record.packet.as_slice());
                let b = crate::byte_codec::le_encode_u64(record.timestamp_unix_ns);
                put_bytes(&mut stamps, &b);
            } else {
                assert(data@ =~= data@ + Seq::<u8>::empty());
                assert(stamps@ =~= stamps@ + Seq::<u8>::empty());
            }
            i = i + 1;
        }
        assert(rs.take(rs.len() as int) =~= rs);
        out.push(ChannelExport { name: channel.name.clone(), data, timestamps: stamps });
        c = c + 1;
    }
    out
}

/// Where every record of channel `id` is `packet_len` bytes long, its
/// `data.bin` holds `packet_len` bytes per record and its
/// `timestamps_ns.bin` eight bytes per record.
pub proof fn lemma_export_sizes(rs: Seq<PacketRecordView>, id: u16, packet_len: nat)
    requires
        forall|i: int| 0 <= i < rs.len() && (#[trigger] rs[i]).channel_id == id ==> rs[i].packet.len()
            == packet_len,
    ensures
        channel_data(rs, id).len() == packet_len * count_records(rs, id),
        channel_timestamps(rs, id).len() == 8 * count_records(rs, id),
    decreases rs.len(),
{
    if rs.len() == 0 {
        assert(packet_len * 0 == 0) by (nonlinear_arith);
    } else {
        let init = rs.drop_last();
        assert forall|i: int| 0 <= i < init.len() && (#[trigger] init[i]).channel_id == id implies init[i].packet.len()
            == packet_len by {
            assert(init[i] == rs[i]);
        }
        lemma_export_sizes(init, id, packet_len);
        lemma_le_bytes_len(rs.last().timestamp_unix_ns as nat, 8);
        let n = count_records(init, id);
        if rs.last().channel_id == id {
            assert(rs[rs.len() - 1] == rs.last());
            assert(count_records(rs, id) == n + 1);
            assert(channel_data(rs, id).len() == channel_data(init, id).len() + packet_len);
            assert(packet_len * (n + 1) == packet_len * n + packet_len) by (nonlinear_arith);
        } else {
            assert(count_records(rs, id) == n);
            assert(channel_data(rs, id) =~= channel_data(init, id));
            assert(channel_timestamps(rs, id) =~= channel_timestamps(init, id));
        }
    }
}

} // verus!
