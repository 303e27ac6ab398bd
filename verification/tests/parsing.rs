use degrader::analyzer_config::Mode;
use degrader::analyzer_config::compute_payload_size;
use degrader::analyzer_config::parse_port_range;
use degrader::analyzer_packet::Packet;
use degrader::analyzer_packet::PacketDecodeError;
use degrader::bandwidth_queuing_model::TokenBucket;
use degrader::config::ConfigError;
use degrader::config::QueuingModelConfig;
use degrader::config::assemble_models;
use degrader::config::validate_bandwidth;
use degrader::config::validate_random;
use degrader::packet::NfqPacket;
use degrader::packet::Verdict;
use degrader::packet_queue::PacketQueue;
use degrader::pattern_file_queuing_model::PatternFileQueuingModel;
use degrader::pattern_file_queuing_model::PatternParseError;
use degrader::protocol::ProtocolInfo;
use degrader::stats_aggregator::Stats;
use degrader::stats_aggregator::StatsAggregator;

#[test]
fn csv_missing_header() {
    assert_eq!(
        PatternFileQueuingModel::parse_packet_info(b"").unwrap_err(),
        PatternParseError::MissingHeader
    );
}

#[test]
fn csv_empty_script() {
    assert_eq!(
        PatternFileQueuingModel::parse_packet_info(b"delay_ms,drop\n").unwrap_err(),
        PatternParseError::EmptyScript
    );
    assert_eq!(
        PatternFileQueuingModel::parse_packet_info(b"delay_ms,drop").unwrap_err(),
        PatternParseError::EmptyScript
    );
}

#[test]
fn csv_field_count() {
    assert_eq!(
        PatternFileQueuingModel::parse_packet_info(b"delay_ms,drop\n1,2,3\n").unwrap_err(),
        PatternParseError::FieldCount
    );
    assert_eq!(
        PatternFileQueuingModel::parse_packet_info(b"delay_ms,drop\n5\n").unwrap_err(),
        PatternParseError::FieldCount
    );
}

#[test]
fn csv_bad_number() {
    assert_eq!(
        PatternFileQueuingModel::parse_packet_info(b"delay_ms,drop\nx,1\n").unwrap_err(),
        PatternParseError::BadNumber
    );
    assert_eq!(
        PatternFileQueuingModel::parse_packet_info(b"delay_ms,drop\n10,\n").unwrap_err(),
        PatternParseError::BadNumber
    );
    // the drop column must fit an unsigned 32-bit value
    assert_eq!(
        PatternFileQueuingModel::parse_packet_info(b"delay_ms,drop\n10,4294967296\n").unwrap_err(),
        PatternParseError::BadNumber
    );
}

#[test]
fn csv_delay_too_large() {
    assert_eq!(
        PatternFileQueuingModel::parse_packet_info(b"delay_ms,drop\n18446744073709551615,0\n")
            .unwrap_err(),
        PatternParseError::DelayTooLarge
    );
}

#[test]
fn csv_trims_blanks_and_carriage_returns() {
    let rows = PatternFileQueuingModel::parse_packet_info(b"delay_ms,drop\r\n 100 ,\t1\r\n\r\n5,0\r\n")
        .unwrap();
    assert_eq!(rows.len(), 2);
    assert_eq!(rows[0].delay, 100_000);
    assert!(rows[0].drop);
    assert_eq!(rows[1].delay, 5_000);
    assert!(!rows[1].drop);
}

#[test]
fn random_config_rules() {
    let c = validate_random(30, 100, 150).unwrap();
    assert_eq!(c.loss_rate, 30);
    assert_eq!(c.delay_range, (100_000, 150_000));
    assert_eq!(validate_random(30, 151, 150).unwrap_err(), ConfigError::DelayRange);
}

#[test]
fn bandwidth_config_rules() {
    let c = validate_bandwidth(10, 2, 4).unwrap();
    assert_eq!((c.rate, c.burst_size, c.buffer_size), (10, 2, 4));
    assert_eq!(validate_bandwidth(0, 2, 4).unwrap_err(), ConfigError::RateZero);
    assert_eq!(validate_bandwidth(10, 0, 4).unwrap_err(), ConfigError::BurstZero);
    assert_eq!(validate_bandwidth(10, 5, 4).unwrap_err(), ConfigError::BurstOverBuffer);
    assert_eq!(
        validate_bandwidth(u64::MAX, 2, 4).unwrap_err(),
        ConfigError::RateTooLarge
    );
    assert_eq!(
        validate_bandwidth(10, 2, u64::MAX).unwrap_err(),
        ConfigError::BufferTooLarge
    );
}

#[test]
fn models_assemble_in_fixed_order() {
    let random = validate_random(10, 20, 100).unwrap();
    let bandwidth = validate_bandwidth(10, 2, 4).unwrap();
    let models = assemble_models(Some(random), None, Some(bandwidth));
    assert_eq!(models.len(), 2);
    assert!(matches!(models[0], QueuingModelConfig::Random(_)));
    assert!(matches!(models[1], QueuingModelConfig::Bandwidth(_)));
}

#[test]
fn port_range_parsing() {
    assert_eq!(parse_port_range(b"30000:30010"), Some((30000, 30010)));
    assert_eq!(parse_port_range(b"1:2:3"), Some((1, 2)));
    assert_eq!(parse_port_range(b"30000"), None);
    assert_eq!(parse_port_range(b"a:b"), None);
    assert_eq!(parse_port_range(b"70000:1"), None);
    let harness_mode = Mode::Both;
    assert!(matches!(harness_mode, Mode::Both));
}

#[test]
fn payload_size_rule() {
    assert_eq!(compute_payload_size(100, 56), 16);
    assert_eq!(compute_payload_size(50, 56), 0);
}

fn udp_bytes(src: [u8; 4], sp: u16, dst: [u8; 4], dp: u16) -> Vec<u8> {
    let total_len: u16 = 28;
    let mut b = vec![
        0x45u8,
        0,
        (total_len >> 8) as u8,
        (total_len & 0xff) as u8,
        0,
        0,
        0,
        0,
        64,
        17,
        0,
        0,
    ];
    b.extend_from_slice(&src);
    b.extend_from_slice(&dst);
    b.extend_from_slice(&sp.to_be_bytes());
    b.extend_from_slice(&dp.to_be_bytes());
    b.extend_from_slice(&8u16.to_be_bytes());
    b.extend_from_slice(&[0, 0]);
    b
}

#[test]
fn flow_key_from_udp() {
    let b = udp_bytes([192, 168, 0, 1], 1111, [10, 0, 0, 7], 2222);
    let info = ProtocolInfo::from_ipv4_header(&b);
    assert_eq!(info.source_ip, [192, 168, 0, 1]);
    assert_eq!(info.source_port, 1111);
    assert_eq!(info.destination_ip, [10, 0, 0, 7]);
    assert_eq!(info.destination_port, 2222);
    assert_eq!(info.protocol, 17);
}

#[test]
fn flow_key_from_tcp() {
    let total_len: u16 = 40;
    let mut b = vec![
        0x45u8,
        0,
        (total_len >> 8) as u8,
        (total_len & 0xff) as u8,
        0,
        0,
        0,
        0,
        64,
        6,
        0,
        0,
    ];
    b.extend_from_slice(&[172, 16, 0, 1]);
    b.extend_from_slice(&[172, 16, 0, 2]);
    b.extend_from_slice(&443u16.to_be_bytes());
    b.extend_from_slice(&8443u16.to_be_bytes());
    b.extend_from_slice(&[0, 0, 0, 0]); // sequence number
    b.extend_from_slice(&[0, 0, 0, 0]); // acknowledgment number
    b.push(0x50); // data offset five words
    b.push(0); // flags
    b.extend_from_slice(&[0x10, 0]); // window
    b.extend_from_slice(&[0, 0]); // checksum
    b.extend_from_slice(&[0, 0]); // urgent pointer
    let info = ProtocolInfo::from_ipv4_header(&b);
    assert_eq!(info.source_ip, [172, 16, 0, 1]);
    assert_eq!(info.source_port, 443);
    assert_eq!(info.destination_ip, [172, 16, 0, 2]);
    assert_eq!(info.destination_port, 8443);
    assert_eq!(info.protocol, 6);
}

#[test]
fn flow_key_failures_coalesce_on_zero() {
    let zero = ProtocolInfo::zero();
    // malformed bytes
    let info = ProtocolInfo::from_ipv4_header(b"garbage");
    assert!(info.same_flow(&zero));
    // a well-formed IPv6 packet is not an IPv4 flow
    let mut v6 = vec![0x60u8, 0, 0, 0];
    v6.extend_from_slice(&8u16.to_be_bytes()); // payload length
    v6.push(17); // next header: UDP
    v6.push(64); // hop limit
    v6.extend_from_slice(&[1u8; 16]);
    v6.extend_from_slice(&[2u8; 16]);
    v6.extend_from_slice(&1111u16.to_be_bytes());
    v6.extend_from_slice(&2222u16.to_be_bytes());
    v6.extend_from_slice(&8u16.to_be_bytes());
    v6.extend_from_slice(&[0, 0]);
    let info = ProtocolInfo::from_ipv4_header(&v6);
    assert!(info.same_flow(&zero));
}

#[test]
fn ip_addresses_render_dotted() {
    let info = ProtocolInfo {
        source_ip: [192, 168, 0, 1],
        source_port: 5,
        destination_ip: [8, 74, 255, 0],
        destination_port: 6,
        protocol: 17,
    };
    assert_eq!(info.source_ip_to_string(), "192.168.0.1");
    assert_eq!(info.destination_ip_to_string(), "8.74.255.0");
}

#[test]
fn verdict_values() {
    assert_eq!(Verdict::Accept.to_nfq_value(), 1);
    assert_eq!(Verdict::Drop.to_nfq_value(), 0);
}

#[test]
fn packet_decode_needs_header() {
    assert_eq!(
        Packet::from_bytes(&[0u8; 10]).unwrap_err(),
        PacketDecodeError::TooShort
    );
}

#[test]
fn packet_round_trip_with_payload() {
    let p = Packet {
        number: 42,
        client_send_time: 7,
        server_send_time: 1 << 60,
        client_receive_time: u64::MAX,
        payload: vec![9, 8, 7],
    };
    let bytes = p.as_bytes();
    assert_eq!(bytes.len(), 56 + 3);
    let q = Packet::from_bytes(&bytes).unwrap();
    assert_eq!(q.number, 42);
    assert_eq!(q.client_send_time, 7);
    assert_eq!(q.server_send_time, 1 << 60);
    assert_eq!(q.client_receive_time, u64::MAX);
    assert_eq!(q.payload, vec![9, 8, 7]);
}

#[test]
fn timed_store_orders_releases() {
    let mut q = PacketQueue::new();
    q.push(NfqPacket { id: 1, payload: vec![0; 4] }, 10);
    q.push(NfqPacket { id: 2, payload: vec![0; 4] }, 5);
    q.push(NfqPacket { id: 3, payload: vec![0; 4] }, 10);
    assert!(q.pop(4).is_empty());
    let out: Vec<u32> = q.pop(10).into_iter().map(|p| p.id).collect();
    // ascending release time, and push order within one release time
    assert_eq!(out, vec![2, 1, 3]);
    assert_eq!(q.len(), 0);
}

#[test]
fn pattern_cyclicity_over_three_records() {
    let script = vec![
        degrader::pattern_file_queuing_model::PacketInfo { delay: 1_000, drop: false },
        degrader::pattern_file_queuing_model::PacketInfo { delay: 2_000, drop: true },
        degrader::pattern_file_queuing_model::PacketInfo { delay: 3_000, drop: false },
    ];
    let mut model = PatternFileQueuingModel::new(&script);
    let mut decisions: Vec<bool> = Vec::new();
    for _ in 0..7 {
        decisions.push(model.drop_packet());
    }
    assert_eq!(decisions, vec![false, true, false, false, true, false, false]);
}

#[test]
fn stats_count_probes() {
    let mut stats = Stats::new();
    let p1 = Packet {
        number: 0,
        client_send_time: 0,
        server_send_time: 0,
        client_receive_time: 10_000_000,
        payload: vec![0; 16],
    };
    let p2 = Packet {
        number: 1,
        client_send_time: 5_000_000,
        server_send_time: 0,
        client_receive_time: 25_000_000,
        payload: vec![0; 16],
    };
    stats.append(&p1);
    stats.append(&p2);
    assert_eq!(stats.received_packets, vec![1, 2]);
    assert_eq!(stats.received_data, 2 * (56 + 16 + 28));
    // round trips of 10 ms and 20 ms average to 15 ms
    assert_eq!(stats.rtt(), 15);
}

#[test]
fn aggregator_reports_once_per_period() {
    let mut agg = StatsAggregator::new(7, 1_000_000_000, 0);
    let p = Packet {
        number: 3,
        client_send_time: 0,
        server_send_time: 0,
        client_receive_time: 12_000_000,
        payload: vec![0; 4],
    };
    assert!(agg.data_received(&p, 500_000_000).is_none());
    let report = agg.data_received(&p, 1_500_000_000).unwrap();
    assert_eq!(report.id, 7);
    assert_eq!(report.packet_count, 2);
    assert_eq!(report.mean_rtt_ms, 12);
    assert_eq!(report.received_data, 2 * (56 + 4 + 28));
    assert_eq!(report.elapsed, 1_500_000_000);
    // a fresh period began
    assert!(agg.data_received(&p, 1_600_000_000).is_none());
}

#[test]
fn token_bucket_refill_formula() {
    // a full second at 1000 bytes per second, capped at the burst
    let mut b = TokenBucket::new(1000, 500);
    b.add_token(1_000_000);
    assert!(b.remove_token(500));
    assert!(!b.remove_token(1));

    // fifty milliseconds at 10 bytes per second earn nothing yet
    let mut b = TokenBucket::new(10, 1000);
    b.add_token(50_000);
    assert!(!b.remove_token(1));
    b.add_token(100_000);
    assert!(b.remove_token(1));

    // a full bucket smaller than the packet is spent to release it anyway
    let mut b = TokenBucket::new(1000, 10);
    b.add_token(1_000_000);
    assert!(b.remove_token(50));
    assert!(!b.remove_token(1));
}
