use serial_repack::config::SerialConfig;
use serial_repack::log_format::{CaptureLog, ChannelMeta, ChannelStats, PacketRecord};
use serial_repack::recorder::{
    estimated_packet_interval_ns, finish_capture, lamp_line, note_channel_done, note_packet,
    ChannelCaptureSpec,
};

#[test]
fn estimates_packet_interval_from_len_and_baud() {
    assert_eq!(
        estimated_packet_interval_ns(10, 1_000_000, 8, 1, "none"),
        100_000
    );
    assert_eq!(
        estimated_packet_interval_ns(10, 1_000_000, 7, 2, "even"),
        110_000
    );
}

#[test]
fn interval_edge_cases() {
    assert_eq!(estimated_packet_interval_ns(0, 9600, 8, 1, "none"), 0);
    assert_eq!(estimated_packet_interval_ns(10, 0, 8, 1, "none"), 0);
    assert_eq!(estimated_packet_interval_ns(10, 9600, 0, 1, "none"), 0);
    // parity "none" in any case adds no bit; 64 bytes * 10 bits at 921600 baud
    assert_eq!(estimated_packet_interval_ns(64, 921_600, 8, 1, "NoNe"), 694_444);
    assert_eq!(estimated_packet_interval_ns(usize::MAX, 1, 8, 2, "odd"), u64::MAX);
}

fn meta(id: u16, name: &str, packet_len: usize) -> ChannelMeta {
    ChannelMeta {
        id,
        name: name.to_string(),
        serial: SerialConfig {
            port: "unused".to_string(),
            passthrough_port: None,
            baud_rate: 1_000_000,
            data_bits: 8,
            stop_bits: 1,
            parity: "none".to_string(),
            flow_control: "none".to_string(),
            read_timeout_ms: 100,
        },
        packet_len,
        header: vec![0xAA],
        tail: vec![0x55],
    }
}

#[test]
fn packets_of_one_read_are_spaced_back_from_the_read_time() {
    let spec = ChannelCaptureSpec::from_meta(&meta(3, "radar", 10));
    assert_eq!(spec.interval_ns(), 100_000);
    let packets = vec![vec![1], vec![2], vec![3]];
    let records = spec.stamp_packets(&packets, 1_000_000);
    let stamps: Vec<u64> = records.iter().map(|r| r.timestamp_unix_ns).collect();
    assert_eq!(stamps, vec![800_000, 900_000, 1_000_000]);
    assert!(records.iter().all(|r| r.channel_id == 3));
    assert_eq!(records[1].packet, vec![2]);

    // timestamps saturate at zero rather than wrap
    let early = spec.stamp_packets(&packets, 50_000);
    let stamps: Vec<u64> = early.iter().map(|r| r.timestamp_unix_ns).collect();
    assert_eq!(stamps, vec![0, 100_000, 200_000]);
}

#[test]
fn capture_events_update_log_and_lamps() {
    let mut log = CaptureLog { channels: vec![meta(0, "a", 1), meta(1, "b", 1)], records: vec![], stats: vec![] };
    let mut blink = vec![false, false];
    note_packet(&mut log, &mut blink, PacketRecord { channel_id: 1, timestamp_unix_ns: 5, packet: vec![9] });
    note_packet(&mut log, &mut blink, PacketRecord { channel_id: 7, timestamp_unix_ns: 6, packet: vec![8] });
    assert_eq!(blink, vec![false, true]);
    assert_eq!(log.records.len(), 2);
    note_channel_done(
        &mut log,
        ChannelStats { channel_id: 1, packets: 1, bad_frames: 0, discarded_bytes: 0, incomplete_tail_bytes: 0 },
    );
    assert_eq!(log.stats.len(), 1);
}

#[test]
fn finishing_sorts_records_and_stats_stably() {
    let stat = |id: u16, packets: u64| ChannelStats {
        channel_id: id,
        packets,
        bad_frames: 0,
        discarded_bytes: 0,
        incomplete_tail_bytes: 0,
    };
    let rec = |id: u16, ts: u64, b: u8| PacketRecord { channel_id: id, timestamp_unix_ns: ts, packet: vec![b] };
    let mut log = CaptureLog {
        channels: vec![meta(0, "a", 1), meta(1, "b", 1)],
        records: vec![rec(1, 30, 1), rec(0, 10, 2), rec(1, 10, 3), rec(0, 20, 4)],
        stats: vec![stat(1, 5), stat(0, 6), stat(1, 7)],
    };
    finish_capture(&mut log);
    let packets: Vec<u8> = log.records.iter().map(|r| r.packet[0]).collect();
    assert_eq!(packets, vec![2, 3, 4, 1]);
    let stats: Vec<(u16, u64)> = log.stats.iter().map(|s| (s.channel_id, s.packets)).collect();
    assert_eq!(stats, vec![(0, 6), (1, 5), (1, 7)]);
}

#[test]
fn lamp_line_pads_names_and_orders_by_id() {
    let log = CaptureLog {
        channels: vec![meta(1, "radar_b", 1), meta(0, "a", 1)],
        records: vec![],
        stats: vec![],
    };
    let line = lamp_line(&log, &vec![true, false]);
    assert_eq!(line, "\rchannels: #0 a      :🟢 #1 radar_b:⚪");
    let none = CaptureLog { channels: vec![], records: vec![], stats: vec![] };
    assert_eq!(lamp_line(&none, &vec![]), "\rchannels: ");
}
