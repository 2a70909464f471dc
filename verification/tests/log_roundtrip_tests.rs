use serial_repack::config::SerialConfig;
use serial_repack::log_format::{
    encode_live_start, encode_record, encode_record_count, encode_stat_count, encode_stats,
    inspect_summary, read_log, write_log, CaptureLog, ChannelMeta, ChannelStats, LogError,
    PacketRecord, RECORD_COUNT_OFFSET, STAT_COUNT_OFFSET,
};

fn sample_log() -> CaptureLog {
    CaptureLog {
        channels: vec![
            ChannelMeta {
                id: 0,
                name: "radar_a".to_string(),
                serial: serial("/dev/ttyUSB0"),
                packet_len: 4,
                header: vec![0xAA],
                tail: vec![0x55],
            },
            ChannelMeta {
                id: 1,
                name: "radar_b".to_string(),
                serial: serial("COM7"),
                packet_len: 5,
                header: vec![0xBB],
                tail: vec![0x66],
            },
        ],
        records: vec![
            PacketRecord {
                channel_id: 1,
                timestamp_unix_ns: 100,
                packet: vec![0xBB, 1, 2, 3, 0x66],
            },
            PacketRecord {
                channel_id: 0,
                timestamp_unix_ns: 90,
                packet: vec![0xAA, 1, 2, 0x55],
            },
        ],
        stats: vec![ChannelStats {
            channel_id: 0,
            packets: 1,
            bad_frames: 0,
            discarded_bytes: 2,
            incomplete_tail_bytes: 0,
        }],
    }
}

fn serial(port: &str) -> SerialConfig {
    SerialConfig {
        port: port.to_string(),
        passthrough_port: None,
        baud_rate: 115200,
        data_bits: 8,
        stop_bits: 1,
        parity: "none".to_string(),
        flow_control: "none".to_string(),
        read_timeout_ms: 100,
    }
}

#[test]
fn roundtrips_multi_channel_log() {
    let log = sample_log();

    let bytes = write_log(&log).unwrap();
    let decoded = read_log(bytes.as_slice()).unwrap();

    assert_eq!(decoded, log);
}

#[test]
fn rejects_invalid_magic() {
    let err = read_log(&b"BAD!"[..]).unwrap_err().message();
    assert!(err.contains("invalid SRP magic"));
}

#[test]
fn rejects_wrong_record_packet_len() {
    let mut log = sample_log();
    log.records[0].packet.push(0);
    let bytes = write_log(&log).unwrap();

    let err = read_log(bytes.as_slice()).unwrap_err().message();
    assert!(err.contains("does not match"));
}

#[test]
fn header_layout_is_little_endian() {
    let bytes = write_log(&sample_log()).unwrap();
    assert_eq!(&bytes[0..4], b"SRP1");
    assert_eq!(&bytes[4..6], &[2, 0]);
    assert_eq!(&bytes[6..14], &[2, 0, 0, 0, 0, 0, 0, 0]);
    assert_eq!(&bytes[14..16], &[1, 0]);
    // first channel: id, then the name with its u32 length
    assert_eq!(&bytes[16..18], &[0, 0]);
    assert_eq!(&bytes[18..22], &[7, 0, 0, 0]);
    assert_eq!(&bytes[22..29], b"radar_a");
    // the last statistics entry closes the file
    let tail = &bytes[bytes.len() - 34..];
    assert_eq!(&tail[0..2], &[0, 0]);
    assert_eq!(&tail[2..10], &[1, 0, 0, 0, 0, 0, 0, 0]);
    assert_eq!(&tail[18..26], &[2, 0, 0, 0, 0, 0, 0, 0]);
}

#[test]
fn trailing_bytes_are_ignored() {
    let log = sample_log();
    let mut bytes = write_log(&log).unwrap();
    bytes.extend_from_slice(&[1, 2, 3]);
    assert_eq!(read_log(&bytes).unwrap(), log);
}

#[test]
fn passthrough_port_is_not_stored() {
    let mut log = sample_log();
    log.channels[0].serial.passthrough_port = Some("/dev/pts/3".to_string());
    let decoded = read_log(&write_log(&log).unwrap()).unwrap();
    assert_eq!(decoded.channels[0].serial.passthrough_port, None);
    log.channels[0].serial.passthrough_port = None;
    assert_eq!(decoded, log);
}

#[test]
fn truncated_log_is_reported() {
    let bytes = write_log(&sample_log()).unwrap();
    for cut in [0, 3, 10, 20, bytes.len() - 1] {
        let err = read_log(&bytes[..cut]).unwrap_err();
        assert!(matches!(err, LogError::UnexpectedEof), "cut at {cut}");
        assert_eq!(err.message(), "failed to fill whole buffer");
    }
}

#[test]
fn unknown_channel_is_reported() {
    let mut log = sample_log();
    log.records[1].channel_id = 7;
    let err = read_log(&write_log(&log).unwrap()).unwrap_err();
    assert_eq!(err.message(), "record references unknown channel_id 7");
}

#[test]
fn mismatch_text_names_lengths() {
    let mut log = sample_log();
    log.records[0].packet.push(0);
    let err = read_log(&write_log(&log).unwrap()).unwrap_err();
    assert_eq!(err.message(), "record packet_len 6 does not match channel 1 length 5");
}

#[test]
fn invalid_utf8_name_is_reported() {
    let mut bytes = write_log(&sample_log()).unwrap();
    bytes[22] = 0xFF;
    let err = read_log(&bytes).unwrap_err();
    assert!(matches!(err, LogError::InvalidUtf8));
    assert_eq!(err.message(), "invalid UTF-8 string in log");
}

#[test]
fn unicode_names_roundtrip() {
    let mut log = sample_log();
    log.channels[1].name = "雷达_b".to_string();
    assert_eq!(read_log(&write_log(&log).unwrap()).unwrap(), log);
}

#[test]
fn too_many_channels_do_not_fit() {
    let mut log = sample_log();
    log.records.clear();
    let template = log.channels[0].clone();
    while log.channels.len() <= 0xFFFF {
        log.channels.push(template.clone());
    }
    let err = write_log(&log).unwrap_err();
    assert!(matches!(err, LogError::OutOfRange));
    assert_eq!(err.message(), "out of range integral type conversion attempted");
}

#[test]
fn live_log_with_provisional_counts_becomes_the_log() {
    let log = sample_log();
    let mut live = encode_live_start(&log).unwrap();
    for record in &log.records {
        live.extend(encode_record(record).unwrap());
    }
    // a checkpoint: the record count written in place, no statistics yet
    let at = RECORD_COUNT_OFFSET as usize;
    live[at..at + 8].copy_from_slice(&encode_record_count(log.records.len() as u64));
    let checkpointed = read_log(&live).unwrap();
    assert_eq!(checkpointed.records, log.records);
    assert!(checkpointed.stats.is_empty());

    // finalizing: statistics appended and their count written in place
    live.extend(encode_stats(&log.stats));
    let at = STAT_COUNT_OFFSET as usize;
    live[at..at + 2].copy_from_slice(&encode_stat_count(log.stats.len()).unwrap());
    assert_eq!(live, write_log(&log).unwrap());
}

#[test]
fn lookups_and_first_timestamp() {
    let log = sample_log();
    assert_eq!(log.channel_by_name("radar_b").unwrap().id, 1);
    assert!(log.channel_by_name("radar_c").is_none());
    assert_eq!(log.channel_by_id(0).unwrap().name, "radar_a");
    assert!(log.channel_by_id(9).is_none());
    assert_eq!(log.first_timestamp(), Some(90));
    let empty = CaptureLog { channels: vec![], records: vec![], stats: vec![] };
    assert_eq!(empty.first_timestamp(), None);
}

#[test]
fn inspect_summary_lists_channels() {
    let text = inspect_summary(&sample_log());
    assert_eq!(
        text,
        "serial-repack capture\nchannels: 2\nrecords: 2\ntime_range_ns: 90..100\n\
         - radar_a id=0 packet_len=4 records=1\n- radar_b id=1 packet_len=5 records=1\n"
    );
    let empty = CaptureLog { channels: vec![], records: vec![], stats: vec![] };
    assert_eq!(inspect_summary(&empty), "serial-repack capture\nchannels: 0\nrecords: 0\n");
}

#[test]
fn channel_stats_from_parser_stats() {
    let stats = serial_repack::packet::ParserStats {
        packets: 3,
        bad_frames: 1,
        discarded_bytes: 4,
        incomplete_tail_bytes: 2,
    };
    let channel = ChannelStats::from((5, stats));
    assert_eq!(
        channel,
        ChannelStats {
            channel_id: 5,
            packets: 3,
            bad_frames: 1,
            discarded_bytes: 4,
            incomplete_tail_bytes: 2,
        }
    );
}

#[test]
fn every_strict_prefix_is_refused() {
    let bytes = write_log(&sample_log()).unwrap();
    for cut in 0..bytes.len() {
        assert!(read_log(&bytes[..cut]).is_err(), "cut at {cut}");
    }
    assert!(read_log(&bytes).is_ok());
}
