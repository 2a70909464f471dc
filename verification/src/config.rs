//! Channel configuration: the settings of each serial channel and the rules
//! that a configuration must meet before capture.

use vstd::prelude::*;
use crate::text::{decimal, decimal_string, str_eq};
use vstd::utf8::encode_utf8;

verus! {

/// A character code of `0`-`9`, `A`-`F` or `a`-`f`.
pub open spec fn is_hex_digit(b: u8) -> bool {
    (48 <= b <= 57) || (65 <= b <= 70) || (97 <= b <= 102)
}

/// The value of a hexadecimal digit.
pub open spec fn hex_digit_value(b: u8) -> nat {
    if b <= 57 {
        (b - 48) as nat
    } else if b <= 70 {
        (b - 55) as nat
    } else {
        (b - 87) as nat
    }
}

/// Text that `hex::decode` accepts: an even number of hexadecimal digits.
pub open spec fn is_hex_text(t: Seq<u8>) -> bool {
    t.len() % 2 == 0 && forall|i: int| 0 <= i < t.len() ==> is_hex_digit(#[trigger] t[i])
}

/// The bytes that hexadecimal text stands for, two digits per byte.
pub open spec fn hex_bytes(t: Seq<u8>) -> Seq<u8> {
    Seq::new(
        t.len() / 2,
        |i: int| (16 * hex_digit_value(t[2 * i]) + hex_digit_value(t[2 * i + 1])) as u8,
    )
}

/// Why hexadecimal text was refused: the variants of `hex::FromHexError`.
#[derive(Debug, Clone, Copy, PartialEq, Eq, Structural)]
pub enum HexError {
    /// A byte that is no hexadecimal digit, read as a `char`, at `index`.
    InvalidHexCharacter { c: char, index: usize },
    /// An odd number of digits.
    OddLength,
    /// A length that does not fit a fixed-size buffer.
    InvalidStringLength,
}

/// The index of the first byte at or after `i` that is no hexadecimal digit.
pub open spec fn first_non_hex(t: Seq<u8>, i: nat) -> Option<nat>
    decreases t.len() - i,
{
    if i >= t.len() {
        None
    } else if !is_hex_digit(t[i as int]) {
        Some(i)
    } else {
        first_non_hex(t, i + 1)
    }
}

/// The error `hex::decode` gives for text it refuses: an odd length first,
/// else the first byte that is no hexadecimal digit.
pub open spec fn hex_fault(t: Seq<u8>) -> HexError {
    if t.len() % 2 != 0 {
        HexError::OddLength
    } else {
        match first_non_hex(t, 0) {
            Some(i) => HexError::InvalidHexCharacter { c: t[i as int] as char, index: i as usize },
            None => HexError::InvalidStringLength,
        }
    }
}

/// The text that `{:?}` writes for a character: quoted and escaped.
pub uninterp spec fn debug_char_quoted(c: char) -> Seq<char>;

/// What `hex::FromHexError` displays.
pub open spec fn hex_error_message(e: HexError) -> Seq<char> {
    match e {
        HexError::InvalidHexCharacter { c, index } => "Invalid character "@ + debug_char_quoted(c)
            + " at position "@ + decimal(index as nat),
        HexError::OddLength => "Odd number of digits"@,
        HexError::InvalidStringLength => "Invalid string length"@,
    }
}

/// `hex::decode` on the UTF-8 bytes of `text`: succeeds exactly on an even
/// number of hexadecimal digits (either case) and gives one byte per pair,
/// high digit first; else it reports an odd length, or the first byte that
/// is no hexadecimal digit with its index. The error is handed on as the
/// same variant with the same fields.
#[verifier::external_body]
fn hex_decode(text: &str) -> (r: Result<Vec<u8>, HexError>)
    ensures
        r is Ok <==> is_hex_text(encode_utf8(text@)),
        r matches Ok(b) ==> b@ == hex_bytes(encode_utf8(text@)),
        r matches Err(e) ==> e == hex_fault(encode_utf8(text@)),
{
    hex::decode(text).map_err(|e| match e {
        hex::FromHexError::InvalidHexCharacter { c, index } => HexError::InvalidHexCharacter { c, index },
        hex::FromHexError::OddLength => HexError::OddLength,
        hex::FromHexError::InvalidStringLength => HexError::InvalidStringLength,
    })
}

/// `to_string` of `hex::FromHexError` (its `Display`), on the error of the
/// same variant and fields; the text of the character is named by
/// [`debug_char_quoted`].
#[verifier::external_body]
fn hex_error_text(e: &HexError) -> (r: String)
    ensures
        r@ == match *e {
            HexError::InvalidHexCharacter { c, index } => "Invalid character "@
                + debug_char_quoted(c) + " at position "@ + decimal(index as nat),
            HexError::OddLength => "Odd number of digits"@,
            HexError::InvalidStringLength => "Invalid string length"@,
        },
{
    let source = match *e {
        HexError::InvalidHexCharacter { c, index } => hex::FromHexError::InvalidHexCharacter { c, index },
        HexError::OddLength => hex::FromHexError::OddLength,
        HexError::InvalidStringLength => hex::FromHexError::InvalidStringLength,
    };
    source.to_string()
}

/// Serial-port settings of one channel.
#[derive(Debug, PartialEq, Eq)]
pub struct SerialConfig {
    pub port: String,
    pub passthrough_port: Option<String>,
    pub baud_rate: u32,
    pub data_bits: u8,
    pub stop_bits: u8,
    pub parity: String,
    pub flow_control: String,
    pub read_timeout_ms: u64,
}

pub struct SerialConfigView {
    pub port: Seq<char>,
    pub passthrough_port: Option<Seq<char>>,
    pub baud_rate: u32,
    pub data_bits: u8,
    pub stop_bits: u8,
    pub parity: Seq<char>,
    pub flow_control: Seq<char>,
    pub read_timeout_ms: u64,
}

impl View for SerialConfig {
    type V = SerialConfigView;

    open spec fn view(&self) -> SerialConfigView {
        SerialConfigView {
            port: self.port@,
            passthrough_port: match self.passthrough_port {
                Some(p) => Some(p@),
                None => None,
            },
            baud_rate: self.baud_rate,
            data_bits: self.data_bits,
            stop_bits: self.stop_bits,
            parity: self.parity@,
            flow_control: self.flow_control@,
            read_timeout_ms: self.read_timeout_ms,
        }
    }
}

impl Clone for SerialConfig {
    fn clone(&self) -> (r: Self)
        ensures
            r@ == self@,
    {
        SerialConfig {
            port: self.port.clone(),
            passthrough_port: match &self.passthrough_port {
                Some(p) => Some(p.clone()),
                None => None,
            },
            baud_rate: self.baud_rate,
            data_bits: self.data_bits,
            stop_bits: self.stop_bits,
            parity: self.parity.clone(),
            flow_control: self.flow_control.clone(),
            read_timeout_ms: self.read_timeout_ms,
        }
    }
}


/// Packet framing of one channel, with header and tail as hexadecimal text.
#[derive(Debug, PartialEq, Eq)]
pub struct PacketConfig {
    pub packet_len: usize,
    pub header: String,
    pub tail: String,
}

pub struct PacketConfigView {
    pub packet_len: usize,
    pub header: Seq<char>,
    pub tail: Seq<char>,
}

impl View for PacketConfig {
    type V = PacketConfigView;

    open spec fn view(&self) -> PacketConfigView {
        PacketConfigView { packet_len: self.packet_len, header: self.header@, tail: self.tail@ }
    }
}

impl Clone for PacketConfig {
    fn clone(&self) -> (r: Self)
        ensures
            r@ == self@,
    {
        PacketConfig {
            packet_len: self.packet_len,
            header: self.header.clone(),
            tail: self.tail.clone(),
        }
    }
}

/// One named channel: a serial port and the framing of its packets.
#[derive(Debug, PartialEq, Eq)]
pub struct ChannelConfig {
    pub name: String,
    pub enabled: bool,
    pub serial: SerialConfig,
    pub packet: PacketConfig,
}

pub struct ChannelConfigView {
    pub name: Seq<char>,
    pub enabled: bool,
    pub serial: SerialConfigView,
    pub packet: PacketConfigView,
}

impl View for ChannelConfig {
    type V = ChannelConfigView;

    open spec fn view(&self) -> ChannelConfigView {
        ChannelConfigView {
            name: self.name@,
            enabled: self.enabled,
            serial: self.serial@,
            packet: self.packet@,
        }
    }
}

impl Clone for ChannelConfig {
    fn clone(&self) -> (r: Self)
        ensures
            r@ == self@,
    {
        ChannelConfig {
            name: self.name.clone(),
            enabled: self.enabled,
            serial: self.serial.clone(),
            packet: self.packet.clone(),
        }
    }
}

/// A capture configuration: its channels, in the order given.
#[derive(Debug, Clone, PartialEq, Eq)]
pub struct Config {
    pub channels: Vec<ChannelConfig>,
}

impl View for Config {
    type V = Seq<ChannelConfigView>;

    open spec fn view(&self) -> Seq<ChannelConfigView> {
        self.channels@.map_values(|c: ChannelConfig| c@)
    }
}

/// An enabled channel whose settings passed validation, with its header and
/// tail decoded to bytes.
#[derive(Debug, PartialEq, Eq)]
pub struct ValidatedChannel {
    pub name: String,
    pub serial: SerialConfig,
    pub packet_len: usize,
    pub header: Vec<u8>,
    pub tail: Vec<u8>,
}

pub struct ValidatedChannelView {
    pub name: Seq<char>,
    pub serial: SerialConfigView,
    pub packet_len: usize,
    pub header: Seq<u8>,
    pub tail: Seq<u8>,
}

impl View for ValidatedChannel {
    type V = ValidatedChannelView;

    open spec fn view(&self) -> ValidatedChannelView {
        ValidatedChannelView {
            name: self.name@,
            serial: self.serial@,
            packet_len: self.packet_len,
            header: self.header@,
            tail: self.tail@,
        }
    }
}

/// `enabled` when the configuration leaves it out.
pub fn default_enabled() -> (r: bool)
    ensures
        r,
{
    true
}

/// `data_bits` when the configuration leaves it out.
pub fn default_data_bits() -> (r: u8)
    ensures
        r == 8,
{
    8
}

/// `stop_bits` when the configuration leaves it out.
pub fn default_stop_bits() -> (r: u8)
    ensures
        r == 1,
{
    1
}

/// `parity` when the configuration leaves it out.
pub fn default_parity() -> (r: String)
    ensures
        r@ == "none"@,
{
    String::from_str("none")
}

/// `flow_control` when the configuration leaves it out.
pub fn default_flow_control() -> (r: String)
    ensures
        r@ == "none"@,
{
    String::from_str("none")
}

/// `read_timeout_ms` when the configuration leaves it out.
pub fn default_read_timeout_ms() -> (r: u64)
    ensures
        r == 100,
{
    100
}

/// Why a configuration is refused.
#[derive(Debug)]
pub enum ConfigError {
    NoEnabledChannels,
    DuplicateChannel(String),
    InvalidHex { channel: String, field: &'static str, source: HexError },
    PacketTooShort { channel: String, packet_len: usize, min_len: usize },
    UnsupportedSerialSetting { channel: String, field: &'static str, value: String },
}

/// The fault that a [`ConfigError`] reports, by its contents.
pub enum ConfigFault {
    NoEnabledChannels,
    DuplicateChannel(Seq<char>),
    InvalidHex { channel: Seq<char>, field: Seq<char>, source: HexError },
    PacketTooShort { channel: Seq<char>, packet_len: nat, min_len: nat },
    UnsupportedSerialSetting { channel: Seq<char>, field: Seq<char>, value: Seq<char> },
}

impl ConfigError {
    pub open spec fn fault(&self) -> ConfigFault {
        match self {
            ConfigError::NoEnabledChannels => ConfigFault::NoEnabledChannels,
            ConfigError::DuplicateChannel(n) => ConfigFault::DuplicateChannel(n@),
            ConfigError::InvalidHex { channel, field, source } => ConfigFault::InvalidHex {
                channel: channel@,
                field: field@,
                source: *source,
            },
            ConfigError::PacketTooShort { channel, packet_len, min_len } =>
                ConfigFault::PacketTooShort {
                channel: channel@,
                packet_len: *packet_len as nat,
                min_len: *min_len as nat,
            },
            ConfigError::UnsupportedSerialSetting { channel, field, value } =>
                ConfigFault::UnsupportedSerialSetting {
                channel: channel@,
                field: field@,
                value: value@,
            },
        }
    }
}

/// The first serial setting of a channel that is out of range, checked in
/// the order data bits, stop bits, parity, flow control, read timeout.
pub open spec fn serial_fault(channel: Seq<char>, s: SerialConfigView) -> Option<ConfigFault> {
    if !(5 <= s.data_bits <= 8) {
        Some(
            ConfigFault::UnsupportedSerialSetting {
                channel,
                field: "data_bits"@,
                value: decimal(s.data_bits as nat),
            },
        )
    } else if !(s.stop_bits == 1 || s.stop_bits == 2) {
        Some(
            ConfigFault::UnsupportedSerialSetting {
                channel,
                field: "stop_bits"@,
                value: decimal(s.stop_bits as nat),
            },
        )
    } else if !(s.parity == "none"@ || s.parity == "odd"@ || s.parity == "even"@) {
        Some(ConfigFault::UnsupportedSerialSetting { channel, field: "parity"@, value: s.parity })
    } else if !(s.flow_control == "none"@ || s.flow_control == "software"@ || s.flow_control
        == "hardware"@) {
        Some(
            ConfigFault::UnsupportedSerialSetting {
                channel,
                field: "flow_control"@,
                value: s.flow_control,
            },
        )
    } else if s.read_timeout_ms == 0 {
        Some(
            ConfigFault::UnsupportedSerialSetting {
                channel,
                field: "read_timeout_ms"@,
                value: decimal(0),
            },
        )
    } else {
        None
    }
}

/// `n`, or `usize::MAX` where `n` does not fit in a `usize`.
pub open spec fn capped(n: nat) -> nat {
    if n <= usize::MAX {
        n
    } else {
        usize::MAX as nat
    }
}

/// Channel `i` has the name of an earlier channel.
pub open spec fn name_taken(chs: Seq<ChannelConfigView>, i: int) -> bool {
    exists|j: int| 0 <= j < i && #[trigger] chs[j].name == chs[i].name
}

/// The first fault of channel `i`: a repeated name, a serial setting, the
/// header or tail text, or a packet too short for header and tail.
pub open spec fn channel_fault(chs: Seq<ChannelConfigView>, i: int) -> Option<ConfigFault> {
    let ch = chs[i];
    let header = encode_utf8(ch.packet.header);
    let tail = encode_utf8(ch.packet.tail);
    if name_taken(chs, i) {
        Some(ConfigFault::DuplicateChannel(ch.name))
    } else if serial_fault(ch.name, ch.serial) is Some {
        serial_fault(ch.name, ch.serial)
    } else if !is_hex_text(header) {
        Some(ConfigFault::InvalidHex { channel: ch.name, field: "header"@, source: hex_fault(header) })
    } else if !is_hex_text(tail) {
        Some(ConfigFault::InvalidHex { channel: ch.name, field: "tail"@, source: hex_fault(tail) })
    } else if ch.packet.packet_len < hex_bytes(header).len() + hex_bytes(tail).len() {
        Some(
            ConfigFault::PacketTooShort {
                channel: ch.name,
                packet_len: ch.packet.packet_len as nat,
                min_len: capped(hex_bytes(header).len() + hex_bytes(tail).len()),
            },
        )
    } else {
        None
    }
}

/// The first fault of the channels from index `i` on.
pub open spec fn first_fault_from(chs: Seq<ChannelConfigView>, i: nat) -> Option<ConfigFault>
    decreases chs.len() - i,
{
    if i >= chs.len() {
        None
    } else {
        match channel_fault(chs, i as int) {
            Some(f) => Some(f),
            None => first_fault_from(chs, i + 1),
        }
    }
}

/// Why a configuration is refused, if it is: the first faulty channel in
/// order, else the lack of any enabled channel.
pub open spec fn config_fault(chs: Seq<ChannelConfigView>) -> Option<ConfigFault> {
    match first_fault_from(chs, 0) {
        Some(f) => Some(f),
        None => if exists|i: int| 0 <= i < chs.len() && #[trigger] chs[i].enabled {
            None
        } else {
            Some(ConfigFault::NoEnabledChannels)
        },
    }
}

/// The enabled channels, in order.
pub open spec fn enabled_only(chs: Seq<ChannelConfigView>) -> Seq<ChannelConfigView>
    decreases chs.len(),
{
    if chs.len() == 0 {
        Seq::empty()
    } else {
        let rest = enabled_only(chs.drop_last());
        if chs.last().enabled {
            rest.push(chs.last())
        } else {
            rest
        }
    }
}

/// A channel as validation hands it on: header and tail decoded.
pub open spec fn validated_view(ch: ChannelConfigView) -> ValidatedChannelView {
    ValidatedChannelView {
        name: ch.name,
        serial: ch.serial,
        packet_len: ch.packet.packet_len,
        header: hex_bytes(encode_utf8(ch.packet.header)),
        tail: hex_bytes(encode_utf8(ch.packet.tail)),
    }
}

fn decode_hex(channel: &str, field: &'static str, value: &str) -> (r: Result<Vec<u8>, ConfigError>)
    ensures
        r is Ok <==> is_hex_text(encode_utf8(value@)),
        r matches Ok(b) ==> b@ == hex_bytes(encode_utf8(value@)),
        r matches Err(e) ==> e.fault() == (ConfigFault::InvalidHex {
            channel: channel@,
            field: field@,
            source: hex_fault(encode_utf8(value@)),
        }),
{
    match hex_decode(value) {
        Ok(b) => Ok(b),
        Err(source) => Err(
            ConfigError::InvalidHex { channel: String::from_str(channel), field, source },
        ),
    }
}

fn unsupported(channel: &str, field: &'static str, value: String) -> (e: ConfigError)
    ensures
        e.fault() == (ConfigFault::UnsupportedSerialSetting {
            channel: channel@,
            field: field@,
            value: value@,
        }),
{
    ConfigError::UnsupportedSerialSetting { channel: String::from_str(channel), field, value }
}

fn validate_serial(channel: &str, serial: &SerialConfig) -> (r: Result<(), ConfigError>)
    ensures
        r is Ok <==> serial_fault(channel@, serial@) is None,
        r matches Err(e) ==> serial_fault(channel@, serial@) == Some(e.fault()),
{
    if !(5 <= serial.data_bits && serial.data_bits <= 8) {
        return Err(unsupported(channel, "data_bits", decimal_string(serial.data_bits as u64)));
    }
    if !(serial.stop_bits == 1 || serial.stop_bits == 2) {
        return Err(unsupported(channel, "stop_bits", decimal_string(serial.stop_bits as u64)));
    }
    let parity = serial.parity.as_str();
    if !(str_eq(parity, "none") || str_eq(parity, "odd") || str_eq(parity, "even")) {
        return Err(unsupported(channel, "parity", serial.parity.clone()));
    }
    let flow = serial.flow_control.as_str();
    if !(str_eq(flow, "none") || str_eq(flow, "software") || str_eq(flow, "hardware")) {
        return Err(unsupported(channel, "flow_control", serial.flow_control.clone()));
    }
    if serial.read_timeout_ms == 0 {
        return Err(
            unsupported(channel, "read_timeout_ms", decimal_string(serial.read_timeout_ms)),
        );
    }
    Ok(())
}


/// The text of a configuration error.
pub open spec fn fault_message(f: ConfigFault) -> Seq<char> {
    match f {
        ConfigFault::NoEnabledChannels => "no enabled channels configured"@,
        ConfigFault::DuplicateChannel(n) => "duplicate channel name: "@ + n,
        ConfigFault::InvalidHex { channel, field, source } => "channel "@ + channel
            + " has invalid hex in "@ + field + ": "@ + hex_error_message(source),
        ConfigFault::PacketTooShort { channel, packet_len, min_len } => "channel "@ + channel
            + " packet_len "@ + decimal(packet_len) + " is smaller than header+tail length "@
            + decimal(min_len),
        ConfigFault::UnsupportedSerialSetting { channel, field, value } => "channel "@ + channel
            + " has unsupported serial setting "@ + field + "="@ + value,
    }
}

impl ConfigError {
    /// The error's text, as the command line prints it.
    pub fn message(&self) -> (r: String)
        ensures
            r@ == fault_message(self.fault()),
    {
        match self {
            ConfigError::NoEnabledChannels => String::from_str("no enabled channels configured"),
            ConfigError::DuplicateChannel(name) => {
                let mut s = String::from_str("duplicate channel name: ");
                s.append(name.as_str());
                s
            },
            ConfigError::InvalidHex { channel, field, source } => {
                let mut s = String::from_str("channel ");
                s.append(channel.as_str());
                s.append(" has invalid hex in ");
                s.append(field);
                s.append(": ");
                s.append(hex_error_text(source).as_str());
                s
            },
            ConfigError::PacketTooShort { channel, packet_len, min_len } => {
                let mut s = String::from_str("channel ");
                s.append(channel.as_str());
                s.append(" packet_len ");
                s.append(decimal_string(*packet_len as u64).as_str());
                s.append(" is smaller than header+tail length ");
                s.append(decimal_string(*min_len as u64).as_str());
                s
            },
            ConfigError::UnsupportedSerialSetting { channel, field, value } => {
                let mut s = String::from_str("channel ");
                s.append(channel.as_str());
                s.append(" has unsupported serial setting ");
                s.append(field);
                s.append("=");
                s.append(value.as_str());
                s
            },
        }
    }
}

/// With no fault from index `k` on, no channel from `k` on has a fault.
pub proof fn lemma_no_fault_from(chs: Seq<ChannelConfigView>, k: nat, i: int)
    requires
        first_fault_from(chs, k) is None,
        k <= i < chs.len(),
    ensures
        channel_fault(chs, i) is None,
    decreases i - k,
{
    if k < i {
        lemma_no_fault_from(chs, k + 1, i);
    }
}

impl Config {
    /// Checks the configuration: unique channel names, supported serial
    /// settings, header and tail in hexadecimal, packets long enough for
    /// header and tail, and at least one enabled channel.
    pub fn validate(&self) -> (r: Result<(), ConfigError>)
        ensures
            r is Ok <==> config_fault(self@) is None,
            r matches Err(e) ==> config_fault(self@) == Some(e.fault()),
    {
        let ghost chs = self@;
        let n = self.channels.len();
        let mut any_enabled = false;
        let mut i: usize = 0;
        while i < n
            invariant
                n == self.channels@.len(),
                chs == self@,
                i <= n,
                first_fault_from(chs, 0) == first_fault_from(chs, i as nat),
                any_enabled == exists|k: int| 0 <= k < i && #[trigger] chs[k].enabled,
            decreases n - i,
        {
            let channel = &self.channels[i];
            assert(chs[i as int] == channel@);
            let mut j: usize = 0;
            while j < i
                invariant
                    i < n,
                    n == self.channels@.len(),
                    chs == self@,
                    j <= i,
                    channel@ == chs[i as int],
                    first_fault_from(chs, 0) == first_fault_from(chs, i as nat),
                    forall|k: int| 0 <= k < j ==> chs[k].name != chs[i as int].name,
                decreases i - j,
            {
                assert(chs[j as int] == self.channels@[j as int]@);
                if str_eq(self.channels[j].name.as_str(), channel.name.as_str()) {
                    assert(chs[j as int].name == chs[i as int].name);
                    assert(name_taken(chs, i as int));
                    assert(first_fault_from(chs, i as nat) == channel_fault(chs, i as int));
                    return Err(ConfigError::DuplicateChannel(channel.name.clone()));
                }
                j = j + 1;
            }
            assert(!name_taken(chs, i as int));
            match validate_serial(channel.name.as_str(), &channel.serial) {
                Ok(()) => {},
                Err(e) => {
                    return Err(e);
                },
            }
            let header = match decode_hex(channel.name.as_str(), "header", channel.packet.header.as_str()) {
                Ok(b) => b,
                Err(e) => {
                    return Err(e);
                },
            };
            let tail = match decode_hex(channel.name.as_str(), "tail", channel.packet.tail.as_str()) {
                Ok(b) => b,
                Err(e) => {
                    return Err(e);
                },
            };
            let packet_len = channel.packet.packet_len;
            if packet_len < header.len() || packet_len - header.len() < tail.len() {
                let min_len = match header.len().checked_add(tail.len()) {
                    Some(m) => m,
                    None => usize::MAX,
                };
                return Err(
                    ConfigError::PacketTooShort {
                        channel: channel.name.clone(),
                        packet_len,
                        min_len,
                    },
                );
            }
            assert(channel_fault(chs, i as int) is None);
            if channel.enabled {
                any_enabled = true;
                assert(chs[i as int].enabled);
            }
            assert(any_enabled == exists|k: int| 0 <= k < i + 1 && #[trigger] chs[k].enabled) by {
                if !channel.enabled {
                    assert(!chs[i as int].enabled);
                }
            }
            i = i + 1;
        }
        if !any_enabled {
            return Err(ConfigError::NoEnabledChannels);
        }
        Ok(())
    }

    /// The enabled channels, in order.
    pub fn enabled_channels(&self) -> (r: Vec<&ChannelConfig>)
        ensures
            r@.map_values(|c: &ChannelConfig| c@) == enabled_only(self@),
    {
        let ghost chs = self@;
        let mut out: Vec<&ChannelConfig> = Vec::new();
        let mut i: usize = 0;
        while i < self.channels.len()
            invariant
                chs == self@,
                i <= chs.len(),
                out@.map_values(|c: &ChannelConfig| c@) == enabled_only(chs.take(i as int)),
            decreases chs.len() - i,
        {
            let ghost before = out@.map_values(|c: &ChannelConfig| c@);
            let channel = &self.channels[i];
            assert(chs.take(i + 1).drop_last() =~= chs.take(i as int));
            assert(chs.take(i + 1).last() == channel@);
            if channel.enabled {
                out.push(channel);
                assert(out@.map_values(|c: &ChannelConfig| c@) =~= before.push(channel@));
            }
            i = i + 1;
        }
        assert(chs.take(chs.len() as int) =~= chs);
        out
    }

    /// The enabled channels with header and tail decoded, once the whole
    /// configuration is valid.
    pub fn validated_channels(&self) -> (r: Result<Vec<ValidatedChannel>, ConfigError>)
        ensures
            r is Ok <==> config_fault(self@) is None,
            r matches Err(e) ==> config_fault(self@) == Some(e.fault()),
            r matches Ok(v) ==> v@.map_values(|c: ValidatedChannel| c@) == enabled_only(
                self@,
            ).map_values(|c: ChannelConfigView| validated_view(c)),
    {
        match self.validate() {
            Ok(()) => {},
            Err(e) => {
                return Err(e);
            },
        }
        let ghost chs = self@;
        let mut out: Vec<ValidatedChannel> = Vec::new();
        let mut i: usize = 0;
        while i < self.channels.len()
            invariant
                chs == self@,
                i <= chs.len(),
                config_fault(chs) is None,
                out@.map_values(|c: ValidatedChannel| c@) == enabled_only(
                    chs.take(i as int),
                ).map_values(|c: ChannelConfigView| validated_view(c)),
            decreases chs.len() - i,
        {
            let ghost before = out@.map_values(|c: ValidatedChannel| c@);
            let channel = &self.channels[i];
            proof {
                lemma_no_fault_from(chs, 0, i as int);
            }
            assert(chs[i as int] == channel@);
            assert(chs.take(i + 1).drop_last() =~= chs.take(i as int));
            assert(chs.take(i + 1).last() == channel@);
            if channel.enabled {
                let header = match decode_hex(channel.name.as_str(), "header", channel.packet.header.as_str()) {
                    Ok(b) => b,
                    Err(e) => {
                        return Err(e);
                    },
                };
                let tail = match decode_hex(channel.name.as_str(), "tail", channel.packet.tail.as_str()) {
                    Ok(b) => b,
                    Err(e) => {
                        return Err(e);
                    },
                };
                let v = ValidatedChannel {
                    name: channel.name.clone(),
                    serial: channel.serial.clone(),
                    packet_len: channel.packet.packet_len,
                    header,
                    tail,
                };
                assert(v@ == validated_view(channel@));
                out.push(v);
                assert(out@.map_values(|c: ValidatedChannel| c@) =~= before.push(v@));
                assert(enabled_only(chs.take(i + 1)) == enabled_only(chs.take(i as int)).push(
                    channel@,
                ));
                assert(enabled_only(chs.take(i + 1)).map_values(
                    |c: ChannelConfigView| validated_view(c),
                ) =~= enabled_only(chs.take(i as int)).map_values(
                    |c: ChannelConfigView| validated_view(c),
                ).push(validated_view(channel@)));
            }
            i = i + 1;
        }
        assert(chs.take(chs.len() as int) =~= chs);
        Ok(out)
    }
}


/// A configuration that validation accepts has unique channel names,
/// supported serial settings, hexadecimal header and tail, packets at least
/// as long as header and tail together, and at least one enabled channel.
pub proof fn lemma_accepted_config(chs: Seq<ChannelConfigView>)
    requires
        config_fault(chs) is None,
    ensures
        forall|i: int, j: int| 0 <= i < j < chs.len() ==> chs[i].name != chs[j].name,
        forall|i: int|
            0 <= i < chs.len() ==> {
                let ch = #[trigger] chs[i];
                let header = encode_utf8(ch.packet.header);
                let tail = encode_utf8(ch.packet.tail);
                &&& serial_fault(ch.name, ch.serial) is None
                &&& 5 <= ch.serial.data_bits <= 8
                &&& ch.serial.stop_bits == 1 || ch.serial.stop_bits == 2
                &&& ch.serial.parity == "none"@ || ch.serial.parity == "odd"@ || ch.serial.parity
                    == "even"@
                &&& ch.serial.flow_control == "none"@ || ch.serial.flow_control == "software"@
                    || ch.serial.flow_control == "hardware"@
                &&& ch.serial.read_timeout_ms > 0
                &&& is_hex_text(header)
                &&& is_hex_text(tail)
                &&& ch.packet.packet_len >= hex_bytes(header).len() + hex_bytes(tail).len()
            },
        exists|i: int| 0 <= i < chs.len() && #[trigger] chs[i].enabled,
{
    assert forall|i: int, j: int| 0 <= i < j < chs.len() implies chs[i].name != chs[j].name by {
        lemma_no_fault_from(chs, 0, j);
        if chs[i].name == chs[j].name {
            assert(name_taken(chs, j));
        }
    }
    assert forall|i: int| 0 <= i < chs.len() implies {
        let ch = #[trigger] chs[i];
        let header = encode_utf8(ch.packet.header);
        let tail = encode_utf8(ch.packet.tail);
        &&& serial_fault(ch.name, ch.serial) is None
        &&& 5 <= ch.serial.data_bits <= 8
        &&& ch.serial.stop_bits == 1 || ch.serial.stop_bits == 2
        &&& ch.serial.parity == "none"@ || ch.serial.parity == "odd"@ || ch.serial.parity
            == "even"@
        &&& ch.serial.flow_control == "none"@ || ch.serial.flow_control == "software"@
            || ch.serial.flow_control == "hardware"@
        &&& ch.serial.read_timeout_ms > 0
        &&& is_hex_text(header)
        &&& is_hex_text(tail)
        &&& ch.packet.packet_len >= hex_bytes(header).len() + hex_bytes(tail).len()
    } by {
        lemma_no_fault_from(chs, 0, i);
    }
}

/// The serial settings that a configuration may hold.
proof fn lemma_supported_serial(channel: Seq<char>, s: SerialConfigView)
    requires
        5 <= s.data_bits <= 8,
        s.stop_bits == 1 || s.stop_bits == 2,
        s.parity == "none"@ || s.parity == "odd"@ || s.parity == "even"@,
        s.flow_control == "none"@ || s.flow_control == "software"@ || s.flow_control == "hardware"@,
        s.read_timeout_ms > 0,
    ensures
        serial_fault(channel, s) is None,
{
}

/// A configuration is accepted whenever its channel names are unique, every
/// channel has 5 to 8 data bits, 1 or 2 stop bits, parity none, odd or
/// even, flow control none, software or hardware, a read timeout above
/// zero, header and tail in hexadecimal and a packet length of at least
/// their bytes together, and at least one channel is enabled.
pub proof fn lemma_valid_config_accepted(chs: Seq<ChannelConfigView>)
    requires
        forall|i: int, j: int| 0 <= i < j < chs.len() ==> chs[i].name != chs[j].name,
        forall|i: int|
            0 <= i < chs.len() ==> {
                let ch = #[trigger] chs[i];
                let s = ch.serial;
                let header = encode_utf8(ch.packet.header);
                let tail = encode_utf8(ch.packet.tail);
                &&& 5 <= s.data_bits <= 8
                &&& s.stop_bits == 1 || s.stop_bits == 2
                &&& s.parity == "none"@ || s.parity == "odd"@ || s.parity == "even"@
                &&& s.flow_control == "none"@ || s.flow_control == "software"@ || s.flow_control
                    == "hardware"@
                &&& s.read_timeout_ms > 0
                &&& is_hex_text(header)
                &&& is_hex_text(tail)
                &&& ch.packet.packet_len >= hex_bytes(header).len() + hex_bytes(tail).len()
            },
        exists|i: int| 0 <= i < chs.len() && #[trigger] chs[i].enabled,
    ensures
        config_fault(chs) is None,
{
    assert forall|i: int| 0 <= i < chs.len() implies #[trigger] channel_fault(chs, i) is None by {
        let ch = chs[i];
        lemma_supported_serial(ch.name, ch.serial);
        if name_taken(chs, i) {
            let j = choose|j: int| 0 <= j < i && #[trigger] chs[j].name == chs[i].name;
            assert(chs[j].name != chs[i].name);
        }
    }
    lemma_no_fault_between(chs, 0);
}

/// With no faulty channel from index `k` on, there is no first fault from `k` on.
proof fn lemma_no_fault_between(chs: Seq<ChannelConfigView>, k: nat)
    requires
        forall|i: int| k <= i < chs.len() ==> #[trigger] channel_fault(chs, i) is None,
    ensures
        first_fault_from(chs, k) is None,
    decreases chs.len() - k,
{
    if k < chs.len() {
        assert(channel_fault(chs, k as int) is None);
        lemma_no_fault_between(chs, k + 1);
    }
}

} // verus!
