//! The packet the scheduling core works on: an identifier the kernel queue
//! assigned, plus the raw bytes. The verdict-delivery handle stays with the
//! unverified queue glue; the core only decides which verdict each id gets.

use vstd::prelude::*;

verus! {

/// Decision returned to the kernel queue for one packet.
pub enum Verdict {
    Drop,
    Accept,
}

impl Verdict {
    /// The numeric verdict value the netfilter-queue interface expects.
    pub fn to_nfq_value(&self) -> (v: u32)
        ensures
            v == (match *self {
                Verdict::Accept => 1u32,
                Verdict::Drop => 0u32,
            }),
    {
        match *self {
            Verdict::Accept => 1,
            Verdict::Drop => 0,
        }
    }
}

/// An intercepted packet: the kernel-assigned id and the IP payload bytes.
pub struct NfqPacket {
    pub id: u32,
    pub payload: Vec<u8>,
}

impl NfqPacket {
    /// Number of payload bytes; the unit the bandwidth model accounts in.
    pub open spec fn spec_size(&self) -> nat {
        self.payload@.len()
    }

    pub fn size(&self) -> (s: usize)
        ensures
            s == self.spec_size(),
    {
        self.payload.len()
    }
}

} // verus!
