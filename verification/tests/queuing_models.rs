use degrader::analyzer_packet::Packet;
use degrader::pattern_file_queuing_model::PatternFileQueuingModel;
use degrader::random_queuing_model::RandomQueuingModel;

/// A pattern file with delays between 100 and 150 ms and three drops.
const PATTERN_CSV: &[u8] = b"delay_ms,drop\n\
100,0\n\
150,1\n\
120,0\n\
130,0\n\
110,1\n\
140,0\n\
125,0\n\
135,1\n\
145,0\n\
105,0\n";

#[test]
fn run_degrader_model() {
    let packet_info =
        PatternFileQueuingModel::parse_packet_info(PATTERN_CSV).expect("Error reading csv file");
    let mut model = PatternFileQueuingModel::new(&packet_info);
    for info in packet_info.iter().cycle().take(23) {
        if model.drop_packet() {
            assert!(info.drop)
        } else {
            let delay = model.get_send_time(0);
            assert_eq!(delay, info.delay);
        }
    }
}

#[test]
fn read_csv_file() {
    let packet_info =
        PatternFileQueuingModel::parse_packet_info(PATTERN_CSV).expect("Error reading csv file");
    let delay_range = 100_000u64..=150_000u64;
    let mut drop_counter = 0;
    for info in packet_info {
        if info.drop {
            drop_counter += 1;
        } else {
            assert!(delay_range.contains(&info.delay));
        }
    }
    assert_eq!(drop_counter, 3)
}

fn confidence_interval_for_random_packet_loss(
    packet_count: u64,
    loss_rate: f64,
) -> std::ops::Range<f64> {
    // Packets are dropped randomly. Given the number of packets and the
    // configured loss rate, we can estimate a confidence interval for the
    // loss rate.
    assert!(packet_count > 0);
    assert!(loss_rate > 0.0);
    assert!(loss_rate < 1.0);

    // This z score corresponds to a confidence of 99.9% - we accept one out
    // of 1000 tests to fail.
    let z = 3.29;
    let count = packet_count as f64;

    // The formula used here is the so-called "Wilson score interval", an
    // approximation for the confidence interval of a binomial proportion.
    let a = loss_rate + (z * z) / (2.0 * count);
    let b = z * ((loss_rate * (1.0 - loss_rate) + (z * z) / (4.0 * count)) / count).sqrt();
    let denom = 1.0 + (z * z) / count;

    std::ops::Range { start: (a - b) / denom, end: (a + b) / denom }
}

#[test]
fn run_degrader_model_for_loss_only() {
    let loss_percentage: u32 = 10;
    let mut model = RandomQueuingModel::new(loss_percentage);
    let mut drop_counter: u64 = 0;
    let packet_count = 1000;
    for i in 0..packet_count {
        if model.drop_packet() {
            drop_counter += 1;
        } else {
            let now = i * 1000;
            assert_eq!(model.get_send_time(now), now);
        }
    }
    let confidence_interval =
        confidence_interval_for_random_packet_loss(packet_count, loss_percentage as f64 / 100.0);
    let drop_rate = drop_counter as f64 / packet_count as f64;
    assert!(confidence_interval.contains(&drop_rate));
}

#[test]
fn run_degrader_model_with_delay() {
    let delay = 23_000u64;
    let mut model = RandomQueuingModel::new(0).with_delay(delay);
    let mut drop_counter: u64 = 0;
    for i in 0..1000u64 {
        if model.drop_packet() {
            drop_counter += 1;
        } else {
            let now = i * 1000;
            assert_eq!(model.get_send_time(now), now + delay);
        }
    }
    assert_eq!(drop_counter, 0);
}

#[test]
fn run_degrader_model_with_delay_range() {
    let delay_range = (20_000u64, 100_000u64);
    let mut model = RandomQueuingModel::new(0).with_delay_range(delay_range);
    let mut drop_counter: u64 = 0;
    for i in 0..1000u64 {
        if model.drop_packet() {
            drop_counter += 1;
        } else {
            let now = i * 1000;
            let sent = model.get_send_time(now);
            assert!(sent >= now + delay_range.0);
            assert!(sent <= now + delay_range.1);
        }
    }
    assert_eq!(drop_counter, 0);
}

#[test]
fn serialize_and_deserialize_packet() {
    let p = Packet {
        number: 0,
        client_send_time: 1234567000,
        server_send_time: 876445000,
        client_receive_time: 9871234000,
        payload: Vec::new(),
    };
    let serialized = p.as_bytes();
    let p2 = Packet::from_bytes(serialized.as_slice()).unwrap();
    assert_eq!(p2.client_send_time, p.client_send_time);
    assert_eq!(p2.client_receive_time, p.client_receive_time);
    assert_eq!(p2.server_send_time, p.server_send_time);
}
