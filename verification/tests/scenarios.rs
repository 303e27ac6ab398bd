use degrader::bandwidth_queuing_model::BandwidthQueuingModel;
use degrader::config::PatternQueuingModelConfig;
use degrader::config::QueuingModelConfig;
use degrader::dispatcher::Dispatcher;
use degrader::packet::NfqPacket;
use degrader::pattern_file_queuing_model::PacketInfo;
use degrader::pattern_file_queuing_model::PatternFileQueuingModel;
use degrader::queuing_model_chain::QueuingModelChain;
use degrader::random_queuing_model::RandomQueuingModel;

fn packet(id: u32, size: usize) -> NfqPacket {
    NfqPacket { id, payload: vec![1u8; size] }
}

fn udp_packet(id: u32, src: [u8; 4], sp: u16, dst: [u8; 4], dp: u16) -> NfqPacket {
    let total_len: u16 = 28;
    let mut b = vec![
        0x45u8,
        0,
        (total_len >> 8) as u8,
        (total_len & 0xff) as u8,
        0,
        0,
        0,
        0,
        64,
        17,
        0,
        0,
    ];
    b.extend_from_slice(&src);
    b.extend_from_slice(&dst);
    b.extend_from_slice(&sp.to_be_bytes());
    b.extend_from_slice(&dp.to_be_bytes());
    b.extend_from_slice(&8u16.to_be_bytes());
    b.extend_from_slice(&[0, 0]);
    NfqPacket { id, payload: b }
}

/// Ten packets through an empty configuration: every packet is accepted on
/// the tick it arrived, in order, and nothing is dropped.
#[test]
fn pure_forwarding() {
    let mut chain = QueuingModelChain::new(&Vec::new());
    let mut accepted: Vec<(u32, u64)> = Vec::new();
    for i in 0..10u32 {
        let now = i as u64 * 1000;
        assert!(chain.enqueue(packet(i, 100), now).is_none());
        let (acc, drp) = chain.dequeue(now);
        assert!(drp.is_empty());
        for p in acc {
            accepted.push((p.id, now));
        }
    }
    assert_eq!(accepted.len(), 10);
    for i in 0..10u32 {
        assert_eq!(accepted[i as usize], (i, i as u64 * 1000));
    }
}

/// The deterministic pattern scenario: packets two and five are dropped by
/// the script, the rest are released at their arrival plus the record's
/// delay, in release-time order.
#[test]
fn deterministic_pattern() {
    let script = vec![
        PacketInfo { delay: 100_000, drop: false },
        PacketInfo { delay: 0, drop: true },
        PacketInfo { delay: 150_000, drop: false },
    ];
    let mut model = PatternFileQueuingModel::new(&script);
    let mut dropped: Vec<u32> = Vec::new();
    let mut released: Vec<(u32, u64)> = Vec::new();
    for t in 0..=220u64 {
        let now = t * 1000;
        if t % 10 == 0 && t <= 50 {
            let id = (t / 10 + 1) as u32;
            if let Some(p) = model.enqueue(packet(id, 100), now) {
                dropped.push(p.id);
            }
        }
        for p in model.dequeue(now) {
            released.push((p.id, now));
        }
    }
    assert_eq!(dropped, vec![2, 5]);
    assert_eq!(released, vec![(1, 100_000), (4, 130_000), (3, 170_000), (6, 200_000)]);
}

/// Loss zero with a delay range: nothing is dropped, and everything is out
/// once the largest delay has passed.
#[test]
fn random_loss_zero_pipeline() {
    let mut model = RandomQueuingModel::new(0).with_delay_range((20_000, 100_000));
    for i in 0..1000u32 {
        assert!(model.enqueue(packet(i, 100), 0).is_none());
    }
    assert!(model.dequeue(19_999).is_empty());
    let out = model.dequeue(100_000);
    assert_eq!(out.len(), 1000);
}

/// Ten percent loss over a thousand packets: the drop count lies in the
/// 99.9% Wilson score interval around one hundred.
#[test]
fn random_loss_ten_percent() {
    let mut model = RandomQueuingModel::new(10);
    let mut drops = 0u64;
    for i in 0..1000u32 {
        if model.enqueue(packet(i, 100), 0).is_some() {
            drops += 1;
        }
    }
    // the 99.9% Wilson interval for p = 0.10 and N = 1000, in packets
    assert!(drops >= 76, "drop count {} below the interval", drops);
    assert!(drops <= 128, "drop count {} above the interval", drops);
}

/// The bandwidth scenario: ten back-to-back kilobyte packets against a
/// 10 KB/s, 2 KB burst, 4 KB buffer shaper. Six overflow the buffer, the
/// burst releases two at once, and one more drains out roughly every 100 ms.
#[test]
fn bandwidth_shaping() {
    let mut model = BandwidthQueuingModel::new(10, 2, 4);
    let t0 = 1_000_000u64;
    let mut dropped: Vec<u32> = Vec::new();
    for i in 1..=10u32 {
        if let Some(p) = model.enqueue(packet(i, 1000), t0) {
            dropped.push(p.id);
        }
    }
    assert_eq!(dropped, vec![5, 6, 7, 8, 9, 10]);
    let burst: Vec<u32> = model.dequeue(t0).into_iter().map(|p| p.id).collect();
    assert_eq!(burst, vec![1, 2]);
    assert!(model.dequeue(t0 + 90_000).is_empty());
    let third: Vec<u32> = model.dequeue(t0 + 100_000).into_iter().map(|p| p.id).collect();
    assert_eq!(third, vec![3]);
    let fourth: Vec<u32> = model.dequeue(t0 + 200_000).into_iter().map(|p| p.id).collect();
    assert_eq!(fourth, vec![4]);
    assert!(model.dequeue(t0 + 1_000_000).is_empty());
}

/// The per-flow isolation scenario: two flows against a drop-everything
/// script; each flow gets its own chain and cursor, and both see uniform
/// loss.
#[test]
fn per_flow_isolation() {
    let script = vec![PacketInfo { delay: 0, drop: true }];
    let models = vec![QueuingModelConfig::PatternFile(PatternQueuingModelConfig {
        packet_info: script,
    })];
    let mut d = Dispatcher::new(models, true);
    for i in 0..6u32 {
        let p = if i % 2 == 0 {
            udp_packet(i, [10, 0, 0, 1], 1111, [10, 0, 0, 2], 2222)
        } else {
            udp_packet(i, [10, 0, 0, 3], 3333, [10, 0, 0, 4], 4444)
        };
        let dropped = d.handle_packet(p, i as u64 * 1000);
        assert!(dropped.is_some());
    }
    assert_eq!(d.flow_count(), 2);
    let (acc, drp) = d.poll(10_000);
    assert!(acc.is_empty());
    assert!(drp.is_empty());
}

/// A packet larger than the whole burst is still released once the bucket
/// is full, and the misconfiguration is counted so it can be reported.
#[test]
fn oversized_packet_released_and_counted() {
    let mut model = BandwidthQueuingModel::new(1, 1, 4);
    assert!(model.enqueue(packet(1, 2000), 0).is_none());
    assert_eq!(model.oversized_releases(), 0);
    // half a second earns half the burst; the bucket is not yet full
    assert!(model.dequeue(500_000).is_empty());
    // with the bucket full and still short, the packet is released anyway
    let out = model.dequeue(2_000_000);
    assert_eq!(out.len(), 1);
    assert_eq!(model.oversized_releases(), 1);
}

/// Per-flow cursors advance independently: with a keep-then-drop script and
/// two interleaved flows, both flows see the same keep, drop, keep pattern,
/// which a shared cursor would not give them.
#[test]
fn per_flow_cursors_are_independent() {
    let script = vec![PacketInfo { delay: 0, drop: false }, PacketInfo { delay: 0, drop: true }];
    let models = vec![QueuingModelConfig::PatternFile(PatternQueuingModelConfig {
        packet_info: script.clone(),
    })];
    let mut d = Dispatcher::new(models, true);
    let mut verdicts: Vec<bool> = Vec::new();
    for i in 0..6u32 {
        let p = if i % 2 == 0 {
            udp_packet(i, [10, 0, 0, 1], 1111, [10, 0, 0, 2], 2222)
        } else {
            udp_packet(i, [10, 0, 0, 3], 3333, [10, 0, 0, 4], 4444)
        };
        verdicts.push(d.handle_packet(p, i as u64 * 1000).is_some());
    }
    // flow A saw packets 0, 2, 4 and flow B saw 1, 3, 5: keep, drop, keep each
    assert_eq!(verdicts, vec![false, false, true, true, false, false]);

    // with per-connection mode off both flows share one chain and cursor
    let models = vec![QueuingModelConfig::PatternFile(PatternQueuingModelConfig {
        packet_info: script,
    })];
    let mut d = Dispatcher::new(models, false);
    let mut verdicts: Vec<bool> = Vec::new();
    for i in 0..6u32 {
        let p = if i % 2 == 0 {
            udp_packet(i, [10, 0, 0, 1], 1111, [10, 0, 0, 2], 2222)
        } else {
            udp_packet(i, [10, 0, 0, 3], 3333, [10, 0, 0, 4], 4444)
        };
        verdicts.push(d.handle_packet(p, i as u64 * 1000).is_some());
    }
    assert_eq!(verdicts, vec![false, true, false, true, false, true]);
}

/// An empty chain's dequeue returns nothing, again and again.
#[test]
fn idempotent_empty_dequeue() {
    let mut chain = QueuingModelChain::new(&Vec::new());
    for t in 0..5u64 {
        let (acc, drp) = chain.dequeue(t * 1000);
        assert!(acc.is_empty());
        assert!(drp.is_empty());
    }
}

/// Packets released by one stage enter the next stage with the dequeue-time
/// clock: a packet that waited long in stage one is still delayed the full
/// scripted time by stage two, counted from when it moved on.
#[test]
fn chain_restamps_at_dequeue_time() {
    // stage one defers by 50 ms, stage two by another 100 ms
    let models = vec![
        QueuingModelConfig::PatternFile(PatternQueuingModelConfig {
            packet_info: vec![PacketInfo { delay: 50_000, drop: false }],
        }),
        QueuingModelConfig::PatternFile(PatternQueuingModelConfig {
            packet_info: vec![PacketInfo { delay: 100_000, drop: false }],
        }),
    ];
    let mut chain = QueuingModelChain::new(&models);
    assert!(chain.enqueue(packet(1, 100), 0).is_none());
    // stage one releases at 50 ms; stage two then holds it until 150 ms,
    // measured from the dequeue that moved it, not from its arrival at 0
    let (acc, _) = chain.dequeue(50_000);
    assert!(acc.is_empty());
    let (acc, _) = chain.dequeue(149_000);
    assert!(acc.is_empty());
    let (acc, _) = chain.dequeue(150_000);
    assert_eq!(acc.len(), 1);
    assert_eq!(acc[0].id, 1);
}
