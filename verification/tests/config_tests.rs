use serial_repack::config::{
    default_data_bits, default_enabled, default_flow_control, default_parity,
    default_read_timeout_ms, default_stop_bits, ChannelConfig, Config, ConfigError, HexError,
    PacketConfig, SerialConfig,
};

fn channel(name: &str, serial: SerialConfig, packet_len: usize, header: &str, tail: &str) -> ChannelConfig {
    ChannelConfig {
        name: name.to_string(),
        enabled: default_enabled(),
        serial,
        packet: PacketConfig {
            packet_len,
            header: header.to_string(),
            tail: tail.to_string(),
        },
    }
}

// The configuration of the TOML text with two channels: `radar_a` with every
// serial field given, `radar_b` with only port and baud rate (the rest at
// their defaults).
fn valid_config() -> Config {
    Config {
        channels: vec![
            channel(
                "radar_a",
                SerialConfig {
                    port: "/dev/ttyUSB0".to_string(),
                    passthrough_port: None,
                    baud_rate: 921600,
                    data_bits: 8,
                    stop_bits: 1,
                    parity: "none".to_string(),
                    flow_control: "none".to_string(),
                    read_timeout_ms: 100,
                },
                8,
                "AA55",
                "55AA",
            ),
            channel(
                "radar_b",
                SerialConfig {
                    port: "COM7".to_string(),
                    passthrough_port: None,
                    baud_rate: 115200,
                    data_bits: default_data_bits(),
                    stop_bits: default_stop_bits(),
                    parity: default_parity(),
                    flow_control: default_flow_control(),
                    read_timeout_ms: default_read_timeout_ms(),
                },
                10,
                "AABB",
                "BBAA",
            ),
        ],
    }
}

fn error_text(config: &Config) -> String {
    config.validate().unwrap_err().message()
}

#[test]
fn parses_valid_multi_channel_config() {
    let config = valid_config();
    config.validate().unwrap();
    let channels = config.validated_channels().unwrap();

    assert_eq!(channels.len(), 2);
    assert_eq!(channels[0].name, "radar_a");
    assert_eq!(channels[0].header, vec![0xAA, 0x55]);
    assert_eq!(channels[1].serial.data_bits, 8);
}

#[test]
fn rejects_duplicate_channel_names() {
    let mut config = valid_config();
    config.channels[1].name = "radar_a".to_string();
    let err = error_text(&config);
    assert!(err.contains("duplicate channel name"));
}

#[test]
fn rejects_invalid_hex() {
    let mut config = valid_config();
    config.channels[0].packet.header = "AA5".to_string();
    let err = error_text(&config);
    assert!(err.contains("invalid hex"));
}

#[test]
fn rejects_packet_len_smaller_than_header_tail() {
    let mut config = valid_config();
    config.channels[0].packet.packet_len = 3;
    let err = error_text(&config);
    assert!(err.contains("smaller than header+tail"));
}

#[test]
fn rejects_invalid_serial_setting() {
    let mut config = valid_config();
    config.channels[0].serial.data_bits = 9;
    let err = error_text(&config);
    assert!(err.contains("unsupported serial setting"));
}

#[test]
fn rejects_zero_read_timeout() {
    let mut config = valid_config();
    config.channels[0].serial.read_timeout_ms = 0;
    let err = error_text(&config);
    assert!(err.contains("unsupported serial setting"));
    assert!(err.contains("read_timeout_ms"));
}

#[test]
fn defaults_match_documentation() {
    assert!(default_enabled());
    assert_eq!(default_data_bits(), 8);
    assert_eq!(default_stop_bits(), 1);
    assert_eq!(default_parity(), "none");
    assert_eq!(default_flow_control(), "none");
    assert_eq!(default_read_timeout_ms(), 100);
}

#[test]
fn error_texts_are_exact() {
    let mut config = valid_config();
    config.channels[0].packet.packet_len = 3;
    assert_eq!(
        error_text(&config),
        "channel radar_a packet_len 3 is smaller than header+tail length 4"
    );

    let mut config = valid_config();
    config.channels[1].serial.parity = "mark".to_string();
    assert_eq!(
        error_text(&config),
        "channel radar_b has unsupported serial setting parity=mark"
    );

    let mut config = valid_config();
    config.channels[0].serial.stop_bits = 3;
    assert_eq!(
        error_text(&config),
        "channel radar_a has unsupported serial setting stop_bits=3"
    );

    let mut config = valid_config();
    config.channels[1].serial.flow_control = "xon".to_string();
    assert_eq!(
        error_text(&config),
        "channel radar_b has unsupported serial setting flow_control=xon"
    );
}

#[test]
fn rejects_configuration_without_enabled_channel() {
    let mut config = valid_config();
    config.channels[0].enabled = false;
    config.channels[1].enabled = false;
    assert!(matches!(config.validate(), Err(ConfigError::NoEnabledChannels)));
    assert_eq!(error_text(&config), "no enabled channels configured");
}

#[test]
fn invalid_tail_names_the_field() {
    let mut config = valid_config();
    config.channels[1].packet.tail = "ZZ".to_string();
    let err = config.validate().unwrap_err();
    match &err {
        ConfigError::InvalidHex { channel, field, .. } => {
            assert_eq!(channel, "radar_b");
            assert_eq!(*field, "tail");
        }
        other => panic!("unexpected error {other:?}"),
    }
    assert!(err.message().starts_with("channel radar_b has invalid hex in tail: "));
}

#[test]
fn first_fault_in_channel_order_wins() {
    let mut config = valid_config();
    config.channels[0].serial.data_bits = 4;
    config.channels[1].name = "radar_a".to_string();
    assert_eq!(
        error_text(&config),
        "channel radar_a has unsupported serial setting data_bits=4"
    );
}

#[test]
fn validated_channels_skip_disabled_and_decode_lowercase_hex() {
    let mut config = valid_config();
    config.channels[0].enabled = false;
    config.channels[1].packet.header = "aabb".to_string();
    let channels = config.validated_channels().unwrap();
    assert_eq!(channels.len(), 1);
    assert_eq!(channels[0].name, "radar_b");
    assert_eq!(channels[0].header, vec![0xAA, 0xBB]);
    assert_eq!(channels[0].tail, vec![0xBB, 0xAA]);
    assert_eq!(channels[0].packet_len, 10);

    let enabled = config.enabled_channels();
    assert_eq!(enabled.len(), 1);
    assert_eq!(enabled[0].name, "radar_b");
}

#[test]
fn empty_tail_is_accepted() {
    let mut config = valid_config();
    config.channels[0].packet.tail = String::new();
    config.channels[0].packet.packet_len = 2;
    let channels = config.validated_channels().unwrap();
    assert!(channels[0].tail.is_empty());
}

#[test]
fn invalid_hex_texts_name_the_decoder_error() {
    let mut config = valid_config();
    config.channels[0].packet.header = "AA5".to_string();
    let err = config.validate().unwrap_err();
    assert!(matches!(
        err,
        ConfigError::InvalidHex { source: HexError::OddLength, .. }
    ));
    assert_eq!(
        err.message(),
        "channel radar_a has invalid hex in header: Odd number of digits"
    );

    let mut config = valid_config();
    config.channels[1].packet.tail = "BZA\n".to_string();
    let err = config.validate().unwrap_err();
    assert!(matches!(
        err,
        ConfigError::InvalidHex { source: HexError::InvalidHexCharacter { c: 'Z', index: 1 }, .. }
    ));
    assert_eq!(
        err.message(),
        "channel radar_b has invalid hex in tail: Invalid character 'Z' at position 1"
    );

    let mut config = valid_config();
    config.channels[1].packet.tail = "BB\nA".to_string();
    assert_eq!(
        error_text(&config),
        "channel radar_b has invalid hex in tail: Invalid character '\\n' at position 2"
    );
}
