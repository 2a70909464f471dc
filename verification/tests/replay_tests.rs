use std::time::Duration;

use serial_repack::config::SerialConfig;
use serial_repack::log_format::{CaptureLog, ChannelMeta, PacketRecord};
use serial_repack::replay::{
    parse_channel_mappings, schedule_replay, selected_order, ReplayError, ReplayStep,
};

fn port_of<'a>(mappings: &'a [(String, String)], channel: &str) -> &'a str {
    mappings
        .iter()
        .find(|(name, _)| name == channel)
        .map(|(_, port)| port.as_str())
        .unwrap()
}

// What a replay writes to the channel and how long it sleeps, at speed 1.0:
// the packets of the steps, and each positive delay.
fn packets_of(log: &CaptureLog, steps: &[ReplayStep], channel_id: u16) -> Vec<Vec<u8>> {
    steps
        .iter()
        .map(|step| &log.records[step.record_index])
        .filter(|record| record.channel_id == channel_id)
        .map(|record| record.packet.clone())
        .collect()
}

fn sleeps_of(steps: &[ReplayStep]) -> Vec<Duration> {
    steps
        .iter()
        .filter(|step| step.delay_ns > 0)
        .map(|step| Duration::from_nanos(step.delay_ns))
        .collect()
}

#[test]
fn parses_channel_mappings() {
    let mappings = parse_channel_mappings(&[
        "radar_a=/dev/ttyUSB1".to_string(),
        "radar_b=COM7".to_string(),
    ])
    .unwrap();

    assert_eq!(port_of(&mappings, "radar_a"), "/dev/ttyUSB1");
    assert_eq!(port_of(&mappings, "radar_b"), "COM7");
}

#[test]
fn replays_only_selected_channels_and_keeps_global_offset() {
    let log = sample_log();
    let order = selected_order(&log, &[1]);
    let steps = schedule_replay(&log, &order, None, None);

    assert_eq!(packets_of(&log, &steps, 1), vec![vec![0xB1], vec![0xB2]]);
    assert_eq!(
        sleeps_of(&steps),
        vec![Duration::from_nanos(50), Duration::from_nanos(20)]
    );
}

#[test]
fn replays_events_in_timestamp_order() {
    let log = sample_log();
    let order = selected_order(&log, &[0, 1]);
    let steps = schedule_replay(&log, &order, None, None);

    assert_eq!(packets_of(&log, &steps, 0), vec![vec![0xA0]]);
    assert_eq!(packets_of(&log, &steps, 1), vec![vec![0xB1], vec![0xB2]]);
    assert_eq!(
        sleeps_of(&steps),
        vec![Duration::from_nanos(50), Duration::from_nanos(20)]
    );
}

#[test]
fn replays_from_nearest_unix_timestamp() {
    let log = sample_log();
    let order = selected_order(&log, &[1]);
    // 0.000000160 s
    let steps = schedule_replay(&log, &order, Some(160), Some(160));

    assert_eq!(packets_of(&log, &steps, 1), vec![vec![0xB1]]);
    assert_eq!(sleeps_of(&steps), vec![]);
}

#[test]
fn unsorted_records_replay_in_time_order_with_ties_kept() {
    let mut log = sample_log();
    log.records.push(PacketRecord { channel_id: 0, timestamp_unix_ns: 120, packet: vec![0xA1] });
    log.records.push(PacketRecord { channel_id: 1, timestamp_unix_ns: 120, packet: vec![0xB0] });
    let order = selected_order(&log, &[0, 1]);
    assert_eq!(order, vec![0, 3, 4, 1, 2]);
    let steps = schedule_replay(&log, &order, None, None);
    let delays: Vec<u64> = steps.iter().map(|s| s.delay_ns).collect();
    assert_eq!(delays, vec![0, 20, 0, 30, 20]);
}

#[test]
fn window_keeps_records_between_nearest_timestamps() {
    let log = sample_log();
    let order = selected_order(&log, &[0, 1]);
    let steps = schedule_replay(&log, &order, Some(140), None);
    assert_eq!(
        steps,
        vec![
            ReplayStep { record_index: 1, delay_ns: 0 },
            ReplayStep { record_index: 2, delay_ns: 20 },
        ]
    );
    let steps = schedule_replay(&log, &order, None, Some(155));
    assert_eq!(
        steps,
        vec![
            ReplayStep { record_index: 0, delay_ns: 0 },
            ReplayStep { record_index: 1, delay_ns: 50 },
        ]
    );
}

#[test]
fn nothing_selected_plans_nothing() {
    let log = sample_log();
    let order = selected_order(&log, &[9]);
    assert!(order.is_empty());
    assert!(schedule_replay(&log, &order, Some(1), Some(2)).is_empty());
}

#[test]
fn rejects_malformed_and_duplicate_mappings() {
    for bad in ["radar_a", "=COM7", "radar_a=", ""] {
        let err = parse_channel_mappings(&[bad.to_string()]).unwrap_err();
        assert_eq!(err, ReplayError::InvalidMapping(bad.to_string()));
        assert_eq!(
            err.message(),
            format!("invalid --map value {bad:?}, expected channel=port")
        );
    }
    let err = parse_channel_mappings(&["a=COM1".to_string(), "a=COM2".to_string()]).unwrap_err();
    assert_eq!(err, ReplayError::DuplicateMapping("a".to_string()));
    assert_eq!(err.message(), "duplicate replay mapping for channel a");
}

#[test]
fn mapping_splits_at_first_equals() {
    let mappings = parse_channel_mappings(&["a=b=c".to_string()]).unwrap();
    assert_eq!(mappings, vec![("a".to_string(), "b=c".to_string())]);
}

fn sample_log() -> CaptureLog {
    CaptureLog {
        channels: vec![channel(0, "radar_a"), channel(1, "radar_b")],
        records: vec![
            PacketRecord {
                channel_id: 0,
                timestamp_unix_ns: 100,
                packet: vec![0xA0],
            },
            PacketRecord {
                channel_id: 1,
                timestamp_unix_ns: 150,
                packet: vec![0xB1],
            },
            PacketRecord {
                channel_id: 1,
                timestamp_unix_ns: 170,
                packet: vec![0xB2],
            },
        ],
        stats: vec![],
    }
}

fn channel(id: u16, name: &str) -> ChannelMeta {
    ChannelMeta {
        id,
        name: name.to_string(),
        serial: SerialConfig {
            port: "unused".to_string(),
            passthrough_port: None,
            baud_rate: 115200,
            data_bits: 8,
            stop_bits: 1,
            parity: "none".to_string(),
            flow_control: "none".to_string(),
            read_timeout_ms: 100,
        },
        packet_len: 1,
        header: vec![],
        tail: vec![],
    }
}
