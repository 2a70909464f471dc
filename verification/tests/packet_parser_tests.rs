use serial_repack::packet::{PacketParser, ParserStats};

#[test]
fn parses_continuous_packets() {
    let mut parser = PacketParser::new(6, vec![0xAA], vec![0x55]);
    let packets = parser.push_bytes(&[0xAA, 1, 2, 3, 4, 0x55, 0xAA, 5, 6, 7, 8, 0x55]);

    assert_eq!(packets.len(), 2);
    assert_eq!(packets[0], vec![0xAA, 1, 2, 3, 4, 0x55]);
    assert_eq!(parser.stats().packets, 2);
}

#[test]
fn discards_noise_before_packet() {
    let mut parser = PacketParser::new(4, vec![0xAA], vec![0x55]);
    let packets = parser.push_bytes(&[0, 1, 0xAA, 9, 8, 0x55]);

    assert_eq!(packets, vec![vec![0xAA, 9, 8, 0x55]]);
    assert_eq!(parser.stats().discarded_bytes, 2);
}

#[test]
fn resyncs_after_bad_tail() {
    let mut parser = PacketParser::new(4, vec![0xAA], vec![0x55]);
    let packets = parser.push_bytes(&[0xAA, 1, 2, 3, 0xAA, 4, 5, 0x55]);

    assert_eq!(packets, vec![vec![0xAA, 4, 5, 0x55]]);
    assert_eq!(parser.stats().bad_frames, 1);
}

#[test]
fn reports_incomplete_tail() {
    let mut parser = PacketParser::new(4, vec![0xAA], vec![0x55]);
    assert!(parser.push_bytes(&[0xAA, 1]).is_empty());

    let stats = parser.finish();
    assert_eq!(stats.incomplete_tail_bytes, 2);
}

#[test]
fn packets_split_across_reads() {
    let bytes = [7, 0xAA, 0x55, 1, 2, 3, 0x55, 0xAA, 0xAA, 0x55, 9, 9, 9, 0x55, 0xAA];
    let mut whole = PacketParser::new(6, vec![0xAA, 0x55], vec![0x55]);
    let at_once = whole.push_bytes(&bytes);

    let mut split = PacketParser::new(6, vec![0xAA, 0x55], vec![0x55]);
    let mut in_pieces = Vec::new();
    for chunk in bytes.chunks(2) {
        in_pieces.extend(split.push_bytes(chunk));
    }

    assert_eq!(at_once, vec![vec![0xAA, 0x55, 1, 2, 3, 0x55], vec![0xAA, 0x55, 9, 9, 9, 0x55]]);
    assert_eq!(in_pieces, at_once);
    assert_eq!(split.stats(), whole.stats());
    assert_eq!(split.finish(), whole.finish());
}

#[test]
fn every_byte_is_accounted_for() {
    let bytes = [1, 2, 0xAA, 3, 4, 0x55, 0xAA, 5, 5, 5, 0xAA, 6, 6, 0x55, 0xAA, 7];
    let mut parser = PacketParser::new(4, vec![0xAA], vec![0x55]);
    let packets = parser.push_bytes(&bytes);
    let stats = *parser.stats();
    let stats_after = parser.finish();

    let packet_bytes: usize = packets.iter().map(|p| p.len()).sum();
    assert_eq!(packets, vec![vec![0xAA, 3, 4, 0x55], vec![0xAA, 6, 6, 0x55]]);
    assert_eq!(
        packet_bytes as u64 + stats.discarded_bytes + stats_after.incomplete_tail_bytes,
        bytes.len() as u64
    );
    assert_eq!(stats.bad_frames, 1);
    assert_eq!(stats_after.incomplete_tail_bytes, 2);
}

#[test]
fn keeps_possible_header_start_without_header() {
    let mut parser = PacketParser::new(4, vec![0xAA, 0x55], vec![]);
    assert!(parser.push_bytes(&[1, 2, 3, 0xAA]).is_empty());
    assert_eq!(parser.stats().discarded_bytes, 3);
    let packets = parser.push_bytes(&[0x55, 8, 9]);
    assert_eq!(packets, vec![vec![0xAA, 0x55, 8, 9]]);
}

#[test]
fn new_parser_starts_at_zero() {
    let parser = PacketParser::new(4, vec![0xAA], vec![0x55]);
    assert_eq!(*parser.stats(), ParserStats::default());
    assert!(parser.framing_ok());
    assert!(parser.has_room(1024));
    assert!(!PacketParser::new(0, vec![], vec![]).framing_ok());
    assert!(!PacketParser::new(1, vec![], vec![1, 2]).framing_ok());
}

#[test]
fn any_split_point_gives_the_same_packets() {
    let bytes = [3, 0xAA, 0x55, 1, 0x55, 0xAA, 0x55, 2, 2, 0x55, 0xAA, 0x55, 0xAA, 0x55, 4, 0x55, 0xAA];
    let mut whole = PacketParser::new(4, vec![0xAA, 0x55], vec![0x55]);
    let at_once = whole.push_bytes(&bytes);
    assert_eq!(at_once.len(), 2);

    for cut in 0..=bytes.len() {
        let mut split = PacketParser::new(4, vec![0xAA, 0x55], vec![0x55]);
        let mut packets = split.push_bytes(&bytes[..cut]);
        packets.extend(split.push_bytes(&bytes[cut..]));
        assert_eq!(packets, at_once, "split at {cut}");
        assert_eq!(split.stats(), whole.stats(), "split at {cut}");
    }
}

#[test]
fn bytes_over_many_pushes_are_accounted_for() {
    let chunks: [&[u8]; 5] = [
        &[9, 0xAA, 1],
        &[2, 0x55, 0xAA],
        &[7, 7, 7, 0xAA, 3, 3],
        &[0x55, 1, 0xAA],
        &[4],
    ];
    let mut parser = PacketParser::new(4, vec![0xAA], vec![0x55]);
    let mut handed_out = 0u64;
    let mut fed = 0u64;
    for chunk in chunks {
        fed += chunk.len() as u64;
        handed_out += parser.push_bytes(chunk).len() as u64;
    }
    let before = *parser.stats();
    let stats = parser.finish();
    assert_eq!(stats.packets, handed_out);
    assert_eq!(handed_out, 2);
    assert_eq!(fed, stats.packets * 4 + stats.discarded_bytes + stats.incomplete_tail_bytes);
    assert_eq!(stats.incomplete_tail_bytes, 2);
    assert_eq!(stats.packets, before.packets);
    assert_eq!(stats.bad_frames, before.bad_frames);
    assert_eq!(stats.discarded_bytes, before.discarded_bytes);
}
