//! Random degradation policy: every packet is dropped with a probability in
//! whole percent, and released after a base delay plus a random variation.

use vstd::prelude::*;
use crate::degrader_model::DegraderModel;

verus! {

/// Drop with probability `loss_rate` percent; release after `delay` plus a
/// variation drawn below `delay_variation_max` (both in microseconds).
pub struct RandomDegraderModel {
    pub loss_rate: u32,
    pub delay: u64,
    pub delay_variation_max: u64,
    pub packet_counter: u64,
}

impl RandomDegraderModel {
    pub fn new(loss_rate: u32, delay: u64, delay_variation_max: u64) -> (m: RandomDegraderModel)
        ensures
            m.loss_rate == loss_rate,
            m.delay == delay,
            m.delay_variation_max == delay_variation_max,
            m.packet_counter == 0,
    {
        RandomDegraderModel { loss_rate, delay, delay_variation_max, packet_counter: 0 }
    }
}

impl DegraderModel for RandomDegraderModel {
    /// The variation draw needs a positive modulus, and the furthest
    /// possible release time must fit the clock.
    open spec fn time_ok(&self, receive_time: u64) -> bool {
        self.delay_variation_max > 0
            && receive_time + self.delay + self.delay_variation_max <= u64::MAX
    }

    fn drop_packet(&self, _packet_no: u32) -> bool {
        let r = crate::rng::random_u32();
        (r % 100) < self.loss_rate
    }

    fn get_send_time(&self, _packet_no: u32, receive_time: u64) -> (t: u64)
        ensures
            receive_time + self.delay <= t < receive_time + self.delay + self.delay_variation_max,
    {
        let r = crate::rng::random_u128();
        let variation = (r % (self.delay_variation_max as u128)) as u64;
        receive_time + self.delay + variation
    }
}

} // verus!
