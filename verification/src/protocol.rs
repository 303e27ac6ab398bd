//! Flow identification: the IPv4 5-tuple a packet belongs to, or the zero
//! key when per-connection mode is off or the bytes cannot be read as IPv4,
//! so that non-IPv4 and malformed traffic coalesces onto a single chain.

use vstd::prelude::*;

verus! {

/// One direction of a transport conversation: source and destination
/// address and port, and the IP protocol number.
pub struct ProtocolInfo {
    pub source_ip: [u8; 4],
    pub source_port: u16,
    pub destination_ip: [u8; 4],
    pub destination_port: u16,
    pub protocol: u8,
}

/// The key the zero flow carries: all addresses, ports and the protocol zero.
pub open spec fn zero_flow_key() -> (Seq<u8>, u16, Seq<u8>, u16, u8) {
    (seq![0u8, 0u8, 0u8, 0u8], 0u16, seq![0u8, 0u8, 0u8, 0u8], 0u16, 0u8)
}

/// What `etherparse::PacketHeaders::from_ip_slice` reads out of the bytes:
/// source and destination address, protocol, and the TCP or UDP ports when
/// that transport is present. `None` stands for a parse failure or another
/// IP version. The result is a function of the bytes alone.
pub uninterp spec fn parsed_flow(payload: Seq<u8>) -> Option<([u8; 4], [u8; 4], u8, Option<(u16, u16)>)>;

/// Relies on etherparse::PacketHeaders::from_ip_slice: reads the IPv4
/// header from the start of the bytes and, behind it, the TCP or UDP
/// header; a pure function of the bytes.
#[verifier::external_body]
fn parse_ipv4_flow(payload: &[u8]) -> (r: Option<([u8; 4], [u8; 4], u8, Option<(u16, u16)>)>)
    ensures
        r == parsed_flow(payload@),
{
    match etherparse::PacketHeaders::from_ip_slice(payload) {
        Ok(h) => match h.ip {
            Some(etherparse::IpHeader::Version4(v4, _)) => {
                let ports = match h.transport {
                    Some(etherparse::TransportHeader::Udp(u)) => Some((u.source_port, u.destination_port)),
                    Some(etherparse::TransportHeader::Tcp(t)) => Some((t.source_port, t.destination_port)),
                    _ => None,
                };
                Some((v4.source, v4.destination, v4.protocol, ports))
            },
            _ => None,
        },
        Err(_) => None,
    }
}

/// The flow key the bytes map to: the parsed 5-tuple, ports zero when the
/// transport is neither TCP nor UDP, and the zero key on any failure.
pub open spec fn spec_flow_key(payload: Seq<u8>) -> (Seq<u8>, u16, Seq<u8>, u16, u8) {
    match parsed_flow(payload) {
        None => zero_flow_key(),
        Some((src, dst, proto, ports)) => (
            src@,
            (match ports {
                Some(p) => p.0,
                None => 0u16,
            }),
            dst@,
            (match ports {
                Some(p) => p.1,
                None => 0u16,
            }),
            proto,
        ),
    }
}

/// The decimal digits of one address octet, most significant first.
pub open spec fn octet_bytes(n: u8) -> Seq<u8> {
    if n < 10 {
        seq![(48 + n) as u8]
    } else if n < 100 {
        seq![(48 + n / 10) as u8, (48 + n % 10) as u8]
    } else {
        seq![(48 + n / 100) as u8, (48 + (n / 10) % 10) as u8, (48 + n % 10) as u8]
    }
}

/// An address in dotted decimal, as bytes.
pub open spec fn ip_bytes(ip: Seq<u8>) -> Seq<u8> {
    octet_bytes(ip[0]) + seq![46u8] + octet_bytes(ip[1]) + seq![46u8] + octet_bytes(ip[2])
        + seq![46u8] + octet_bytes(ip[3])
}

/// Relies on String::from_utf8: bytes below 128 convert to the string of
/// exactly those characters.
#[verifier::external_body]
fn ascii_to_string(bytes: Vec<u8>) -> (r: String)
    requires
        forall|i: int| 0 <= i < bytes@.len() ==> bytes@[i] < 128,
    ensures
        r@.len() == bytes@.len(),
        forall|i: int| 0 <= i < bytes@.len() ==> r@[i] == bytes@[i] as char,
{
    match String::from_utf8(bytes) {
        Ok(s) => s,
        Err(_) => String::new(),
    }
}

/// Appends one octet's decimal digits.
fn push_octet(out: &mut Vec<u8>, n: u8)
    ensures
        final(out)@ == old(out)@ + octet_bytes(n),
{
    let ghost before = out@;
    if n < 10 {
        out.push(48 + n);
    } else if n < 100 {
        out.push(48 + n / 10);
        out.push(48 + n % 10);
    } else {
        out.push(48 + n / 100);
        out.push(48 + (n / 10) % 10);
        out.push(48 + n % 10);
    }
    proof {
        assert(out@ =~= before + octet_bytes(n));
    }
}

/// Every byte of the dotted-decimal form is a digit or a dot.
proof fn lemma_ip_bytes_ascii(ip: Seq<u8>)
    ensures
        forall|i: int| 0 <= i < ip_bytes(ip).len() ==> #[trigger] ip_bytes(ip)[i] < 128,
{
}

impl ProtocolInfo {
    /// The value this flow is keyed and compared by.
    pub open spec fn key(&self) -> (Seq<u8>, u16, Seq<u8>, u16, u8) {
        (self.source_ip@, self.source_port, self.destination_ip@, self.destination_port,
        self.protocol)
    }

    /// The zero key: the flow everything coalesces onto when per-connection
    /// mode is off.
    pub fn zero() -> (r: ProtocolInfo)
        ensures
            r.key() == zero_flow_key(),
    {
        let r = ProtocolInfo {
            source_ip: [0, 0, 0, 0],
            source_port: 0,
            destination_ip: [0, 0, 0, 0],
            destination_port: 0,
            protocol: 0,
        };
        proof {
            assert(r.source_ip@ =~= seq![0u8, 0u8, 0u8, 0u8]);
            assert(r.destination_ip@ =~= seq![0u8, 0u8, 0u8, 0u8]);
        }
        r
    }

    /// Whether two packets belong to the same flow.
    pub fn same_flow(&self, other: &ProtocolInfo) -> (r: bool)
        ensures
            r == (self.key() == other.key()),
    {
        let r = self.source_ip[0] == other.source_ip[0] && self.source_ip[1] == other.source_ip[1]
            && self.source_ip[2] == other.source_ip[2] && self.source_ip[3] == other.source_ip[3]
            && self.destination_ip[0] == other.destination_ip[0]
            && self.destination_ip[1] == other.destination_ip[1]
            && self.destination_ip[2] == other.destination_ip[2]
            && self.destination_ip[3] == other.destination_ip[3]
            && self.source_port == other.source_port
            && self.destination_port == other.destination_port
            && self.protocol == other.protocol;
        proof {
            if r {
                assert(self.source_ip@ =~= other.source_ip@);
                assert(self.destination_ip@ =~= other.destination_ip@);
            } else {
                if self.key() == other.key() {
                    assert(self.source_ip@[0] == other.source_ip@[0]);
                    assert(self.source_ip@[1] == other.source_ip@[1]);
                    assert(self.source_ip@[2] == other.source_ip@[2]);
                    assert(self.source_ip@[3] == other.source_ip@[3]);
                    assert(self.destination_ip@[0] == other.destination_ip@[0]);
                    assert(self.destination_ip@[1] == other.destination_ip@[1]);
                    assert(self.destination_ip@[2] == other.destination_ip@[2]);
                    assert(self.destination_ip@[3] == other.destination_ip@[3]);
                }
            }
        }
        r
    }

    /// Reads the packet's flow key: the IPv4 5-tuple on success, with ports
    /// zero when the transport is neither TCP nor UDP; the zero key on any
    /// parse failure or other IP version.
    pub fn from_ipv4_header(payload: &[u8]) -> (r: ProtocolInfo)
        ensures
            r.key() == spec_flow_key(payload@),
    {
        match parse_ipv4_flow(payload) {
            None => Self::zero(),
            Some((src, dst, proto, ports)) => {
                let (sp, dp) = match ports {
                    Some(p) => p,
                    None => (0, 0),
                };
                ProtocolInfo {
                    source_ip: src,
                    source_port: sp,
                    destination_ip: dst,
                    destination_port: dp,
                    protocol: proto,
                }
            },
        }
    }

    /// The source address in dotted decimal.
    pub fn source_ip_to_string(&self) -> (r: String)
        ensures
            r@.len() == ip_bytes(self.source_ip@).len(),
            forall|i: int| 0 <= i < r@.len() ==> r@[i] == ip_bytes(self.source_ip@)[i] as char,
    {
        let mut out: Vec<u8> = Vec::new();
        push_octet(&mut out, self.source_ip[0]);
        out.push(46);
        push_octet(&mut out, self.source_ip[1]);
        out.push(46);
        push_octet(&mut out, self.source_ip[2]);
        out.push(46);
        push_octet(&mut out, self.source_ip[3]);
        proof {
            assert(out@ =~= ip_bytes(self.source_ip@));
            lemma_ip_bytes_ascii(self.source_ip@);
        }
        ascii_to_string(out)
    }

    /// The destination address in dotted decimal.
    pub fn destination_ip_to_string(&self) -> (r: String)
        ensures
            r@.len() == ip_bytes(self.destination_ip@).len(),
            forall|i: int| 0 <= i < r@.len() ==> r@[i] == ip_bytes(self.destination_ip@)[i] as char,
    {
        let mut out: Vec<u8> = Vec::new();
        push_octet(&mut out, self.destination_ip[0]);
        out.push(46);
        push_octet(&mut out, self.destination_ip[1]);
        out.push(46);
        push_octet(&mut out, self.destination_ip[2]);
        out.push(46);
        push_octet(&mut out, self.destination_ip[3]);
        proof {
            assert(out@ =~= ip_bytes(self.destination_ip@));
            lemma_ip_bytes_ascii(self.destination_ip@);
        }
        ascii_to_string(out)
    }
}

} // verus!
