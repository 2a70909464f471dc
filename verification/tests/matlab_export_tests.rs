use serial_repack::config::SerialConfig;
use serial_repack::log_format::{CaptureLog, ChannelMeta, PacketRecord};
use serial_repack::matlab_export::export_channels;

fn channel(id: u16, name: &str, packet_len: usize) -> ChannelMeta {
    ChannelMeta {
        id,
        name: name.to_string(),
        serial: SerialConfig {
            port: "unused".to_string(),
            passthrough_port: None,
            baud_rate: 115200,
            data_bits: 8,
            stop_bits: 1,
            parity: "none".to_string(),
            flow_control: "none".to_string(),
            read_timeout_ms: 100,
        },
        packet_len,
        header: vec![],
        tail: vec![],
    }
}

#[test]
fn exports_channel_data_and_timestamps() {
    let log = CaptureLog {
        channels: vec![channel(0, "radar_a", 4), channel(1, "radar_b", 5)],
        records: vec![
            PacketRecord {
                channel_id: 0,
                timestamp_unix_ns: 100,
                packet: vec![0xAA, 1, 2, 0x55],
            },
            PacketRecord {
                channel_id: 1,
                timestamp_unix_ns: 120,
                packet: vec![0xBB, 1, 2, 3, 0x66],
            },
            PacketRecord {
                channel_id: 0,
                timestamp_unix_ns: 0x0102_0304_0506_0708,
                packet: vec![0xAA, 3, 4, 0x55],
            },
        ],
        stats: vec![],
    };

    let files = export_channels(&log);

    assert_eq!(files.len(), 2);
    assert_eq!(files[0].name, "radar_a");
    assert_eq!(files[0].data, vec![0xAA, 1, 2, 0x55, 0xAA, 3, 4, 0x55]);
    assert_eq!(
        files[0].timestamps,
        vec![100, 0, 0, 0, 0, 0, 0, 0, 8, 7, 6, 5, 4, 3, 2, 1]
    );
    assert_eq!(files[1].name, "radar_b");
    assert_eq!(files[1].data.len(), 5);
    assert_eq!(u64::from_le_bytes(files[1].timestamps[..8].try_into().unwrap()), 120);
}
