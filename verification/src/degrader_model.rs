//! A per-packet degradation policy: a drop decision and a release time for
//! each numbered packet.

use vstd::prelude::*;

verus! {

pub trait DegraderModel {
    /// When a release time can be computed for a packet received at
    /// `receive_time` without outrunning the clock.
    spec fn time_ok(&self, receive_time: u64) -> bool;

    /// Whether the packet numbered `packet_no` is dropped.
    fn drop_packet(&self, packet_no: u32) -> bool;

    /// The release time for a packet received at `receive_time`; never
    /// before the packet arrived.
    fn get_send_time(&self, packet_no: u32, receive_time: u64) -> (t: u64)
        requires
            self.time_ok(receive_time),
        ensures
            t >= receive_time,
    ;
}

} // verus!
