//! Configuration of the pipeline: which models a chain holds and the rules
//! under which the flags are accepted.

use vstd::prelude::*;
use crate::pattern_file_queuing_model::PacketInfo;

verus! {

/// Settings for the random loss and delay model. The delay range is in
/// microseconds, inclusive on both ends.
#[derive(Debug)]
pub struct RandomQueuingModelConfig {
    pub loss_rate: u32,
    pub delay_range: (u64, u64),
}

/// Settings for the scripted pattern model.
#[derive(Debug)]
pub struct PatternQueuingModelConfig {
    pub packet_info: Vec<PacketInfo>,
}

/// Settings for the bandwidth model, all in kilobytes (per second for `rate`).
#[derive(Debug)]
pub struct BandwidthQueuingModelConfig {
    pub rate: u64,
    pub burst_size: u64,
    pub buffer_size: u64,
}

/// One configured model stage.
pub enum QueuingModelConfig {
    PatternFile(PatternQueuingModelConfig),
    Random(RandomQueuingModelConfig),
    Bandwidth(BandwidthQueuingModelConfig),
}

impl QueuingModelConfig {
    /// What a stage needs to be buildable: an ordered delay range, a
    /// non-empty script, a positive rate, a positive burst no larger than
    /// the buffer, and sizes that survive the kilobyte-to-byte conversion.
    pub open spec fn valid(&self) -> bool {
        match *self {
            QueuingModelConfig::Random(ref c) => c.delay_range.0 <= c.delay_range.1,
            QueuingModelConfig::PatternFile(ref c) => c.packet_info@.len() > 0,
            QueuingModelConfig::Bandwidth(ref c) => c.rate > 0 && c.burst_size > 0
                && c.burst_size <= c.buffer_size
                && c.rate <= u64::MAX / 1024
                && c.buffer_size <= u64::MAX / 1024,
        }
    }
}

/// Every configured stage is buildable.
pub open spec fn models_valid(ms: Seq<QueuingModelConfig>) -> bool {
    forall|i: int| 0 <= i < ms.len() ==> (#[trigger] ms[i]).valid()
}

pub enum LogLevel {
    Info,
    Warning,
    Debug,
}

/// Everything one invocation runs with.
pub struct Config {
    pub models: Vec<QueuingModelConfig>,
    pub queue_num: u16,
    pub log_level: LogLevel,
    pub apply_per_connection: bool,
}

/// Why a configuration was rejected.
#[derive(Clone, Copy, PartialEq, Eq, Structural, Debug)]
pub enum ConfigError {
    /// The smallest random delay exceeds the largest.
    DelayRange,
    /// A bandwidth rate of zero.
    RateZero,
    /// A burst of zero, which could never cover a packet.
    BurstZero,
    /// A burst larger than the buffer.
    BurstOverBuffer,
    /// A rate too large to be counted in bytes.
    RateTooLarge,
    /// A buffer too large to be counted in bytes.
    BufferTooLarge,
}

/// The rule for the random flag: the delay bounds arrive in milliseconds,
/// the smallest must not exceed the largest, and they are kept in
/// microseconds.
pub fn validate_random(loss_rate: u32, delay_min_ms: u32, delay_max_ms: u32) -> (r: Result<
    RandomQueuingModelConfig,
    ConfigError,
>)
    ensures
        r is Ok <==> delay_min_ms <= delay_max_ms,
        r matches Ok(c) ==> c.loss_rate == loss_rate
            && c.delay_range.0 == delay_min_ms * 1000
            && c.delay_range.1 == delay_max_ms * 1000,
        r matches Err(e) ==> e == ConfigError::DelayRange,
{
    if delay_min_ms > delay_max_ms {
        Err(ConfigError::DelayRange)
    } else {
        Ok(RandomQueuingModelConfig {
            loss_rate,
            delay_range: ((delay_min_ms as u64) * 1000, (delay_max_ms as u64) * 1000),
        })
    }
}

/// The rules for the bandwidth flag, checked in order: the rate must not be
/// zero, the burst must not be zero, the burst must not exceed the buffer,
/// and rate and buffer must survive the kilobyte-to-byte conversion.
pub fn validate_bandwidth(rate: u64, burst_size: u64, buffer_size: u64) -> (r: Result<
    BandwidthQueuingModelConfig,
    ConfigError,
>)
    ensures
        rate == 0 ==> r == Err::<BandwidthQueuingModelConfig, ConfigError>(ConfigError::RateZero),
        rate != 0 && burst_size == 0 ==> r == Err::<BandwidthQueuingModelConfig, ConfigError>(
            ConfigError::BurstZero,
        ),
        rate != 0 && burst_size != 0 && burst_size > buffer_size ==> r == Err::<
            BandwidthQueuingModelConfig,
            ConfigError,
        >(ConfigError::BurstOverBuffer),
        rate != 0 && burst_size != 0 && burst_size <= buffer_size && rate > u64::MAX / 1024 ==> r
            == Err::<BandwidthQueuingModelConfig, ConfigError>(ConfigError::RateTooLarge),
        rate != 0 && burst_size != 0 && burst_size <= buffer_size && rate <= u64::MAX / 1024
            && buffer_size > u64::MAX / 1024 ==> r == Err::<
            BandwidthQueuingModelConfig,
            ConfigError,
        >(ConfigError::BufferTooLarge),
        r matches Ok(c) ==> c.rate == rate && c.burst_size == burst_size
            && c.buffer_size == buffer_size
            && QueuingModelConfig::Bandwidth(c).valid(),
        r is Ok <==> rate != 0 && burst_size != 0 && burst_size <= buffer_size
            && rate <= u64::MAX / 1024 && buffer_size <= u64::MAX / 1024,
{
    if rate == 0 {
        Err(ConfigError::RateZero)
    } else if burst_size == 0 {
        Err(ConfigError::BurstZero)
    } else if burst_size > buffer_size {
        Err(ConfigError::BurstOverBuffer)
    } else if rate > u64::MAX / 1024 {
        Err(ConfigError::RateTooLarge)
    } else if buffer_size > u64::MAX / 1024 {
        Err(ConfigError::BufferTooLarge)
    } else {
        Ok(BandwidthQueuingModelConfig { rate, burst_size, buffer_size })
    }
}

/// The fixed chain order: random, then pattern, then bandwidth, whatever
/// order the flags were given in.
pub open spec fn model_order(
    random: Option<RandomQueuingModelConfig>,
    pattern: Option<PatternQueuingModelConfig>,
    bandwidth: Option<BandwidthQueuingModelConfig>,
) -> Seq<QueuingModelConfig> {
    (match random {
        Some(c) => seq![QueuingModelConfig::Random(c)],
        None => seq![],
    }) + (match pattern {
        Some(c) => seq![QueuingModelConfig::PatternFile(c)],
        None => seq![],
    }) + (match bandwidth {
        Some(c) => seq![QueuingModelConfig::Bandwidth(c)],
        None => seq![],
    })
}

/// Puts the configured models in the fixed chain order.
pub fn assemble_models(
    random: Option<RandomQueuingModelConfig>,
    pattern: Option<PatternQueuingModelConfig>,
    bandwidth: Option<BandwidthQueuingModelConfig>,
) -> (models: Vec<QueuingModelConfig>)
    ensures
        models@ == model_order(random, pattern, bandwidth),
{
    let ghost r0 = random;
    let ghost p0 = pattern;
    let ghost b0 = bandwidth;
    let mut models: Vec<QueuingModelConfig> = Vec::new();
    if let Some(c) = random {
        models.push(QueuingModelConfig::Random(c));
    }
    if let Some(c) = pattern {
        models.push(QueuingModelConfig::PatternFile(c));
    }
    if let Some(c) = bandwidth {
        models.push(QueuingModelConfig::Bandwidth(c));
    }
    proof {
        assert(models@ =~= model_order(r0, p0, b0));
    }
    models
}

} // verus!
