//! Wire format of the measurement probe packet: a packet number, three
//! nanosecond timestamps, and a filler payload, all big-endian. The number
//! travels as eight bytes; each timestamp as sixteen, of which a nanosecond
//! count needs only the low eight.

use vstd::prelude::*;
use vstd::slice::slice_subrange;
use vstd::slice::slice_to_vec;

verus! {

pub open spec fn pow256(n: nat) -> nat
    decreases n,
{
    if n == 0 {
        1
    } else {
        256 * pow256((n - 1) as nat)
    }
}

/// The `n` big-endian bytes of `v`.
pub open spec fn be_bytes(v: nat, n: nat) -> Seq<u8>
    decreases n,
{
    if n == 0 {
        seq![]
    } else {
        be_bytes(v / 256, (n - 1) as nat).push((v % 256) as u8)
    }
}

/// The value a run of big-endian bytes spells.
pub open spec fn be_val(s: Seq<u8>) -> nat
    decreases s.len(),
{
    if s.len() == 0 {
        0
    } else {
        be_val(s.subrange(0, s.len() - 1)) * 256 + (s[s.len() - 1] as nat)
    }
}

pub proof fn lemma_pow256_values()
    ensures
        pow256(8) == 0x1_0000_0000_0000_0000,
        pow256(16) == 0x1_0000_0000_0000_0000_0000_0000_0000_0000,
{
    reveal_with_fuel(pow256, 17);
}

proof fn lemma_pow256_mono(a: nat, b: nat)
    requires
        a <= b,
    ensures
        pow256(a) <= pow256(b),
    decreases b,
{
    if a < b {
        lemma_pow256_mono(a, (b - 1) as nat);
    }
}

pub proof fn lemma_be_bytes_len(v: nat, n: nat)
    ensures
        be_bytes(v, n).len() == n,
    decreases n,
{
    if n > 0 {
        lemma_be_bytes_len(v / 256, (n - 1) as nat);
    }
}

/// A value below `256^n` survives the round trip through its `n` bytes.
pub proof fn lemma_be_round(v: nat, n: nat)
    requires
        v < pow256(n),
    ensures
        be_val(be_bytes(v, n)) == v,
    decreases n,
{
    if n > 0 {
        lemma_be_bytes_len(v / 256, (n - 1) as nat);
        lemma_be_round(v / 256, (n - 1) as nat);
        let s = be_bytes(v, n);
        assert(s.subrange(0, s.len() - 1) =~= be_bytes(v / 256, (n - 1) as nat));
    }
}

/// A run of bytes spells a value below `256^len`.
pub proof fn lemma_be_val_bound(s: Seq<u8>)
    ensures
        be_val(s) < pow256(s.len()),
    decreases s.len(),
{
    if s.len() > 0 {
        lemma_be_val_bound(s.subrange(0, s.len() - 1));
    }
}

proof fn lemma_be_bytes_of_zero(m: nat)
    ensures
        be_bytes(0, m).len() == m,
        forall|i: int| 0 <= i < m ==> be_bytes(0, m)[i] == 0u8,
    decreases m,
{
    if m > 0 {
        lemma_be_bytes_of_zero((m - 1) as nat);
    }
}

/// A value that fits in the low `n` bytes pads with leading zeroes.
proof fn lemma_be_bytes_zero_ext(v: nat, m: nat, n: nat)
    requires
        v < pow256(n),
    ensures
        be_bytes(v, m + n) == be_bytes(0, m) + be_bytes(v, n),
    decreases n,
{
    if n == 0 {
        assert(be_bytes(v, m) + be_bytes(v, 0) =~= be_bytes(v, m));
    } else {
        lemma_be_bytes_zero_ext(v / 256, m, (n - 1) as nat);
        assert(be_bytes(v, m + n)
            == be_bytes(v / 256, (m + n - 1) as nat).push((v % 256) as u8));
        assert((be_bytes(0, m) + be_bytes(v / 256, (n - 1) as nat)).push((v % 256) as u8)
            =~= be_bytes(0, m) + be_bytes(v / 256, (n - 1) as nat).push((v % 256) as u8));
    }
}

/// Appends the eight big-endian bytes of `v`.
fn push_be_u64(out: &mut Vec<u8>, v: u64)
    ensures
        final(out)@ == old(out)@ + be_bytes(v as nat, 8),
{
    let mut tmp: Vec<u8> = Vec::new();
    let mut x: u64 = v;
    let mut k: usize = 0;
    while k < 8
        invariant
            0 <= k <= 8,
            tmp@.len() == k,
            be_bytes(v as nat, 8) == be_bytes(x as nat, (8 - k) as nat) + tmp@,
        decreases 8 - k,
    {
        let ghost t_prev = tmp@;
        let ghost x_prev = x as nat;
        let b = (x % 256) as u8;
        x = x / 256;
        tmp.insert(0, b);
        proof {
            assert(tmp@ =~= seq![b] + t_prev);
            assert(be_bytes(x_prev, (8 - k) as nat)
                == be_bytes(x_prev / 256, (8 - k - 1) as nat).push(b));
            assert(be_bytes(x as nat, (8 - (k + 1)) as nat) + tmp@
                =~= be_bytes(x_prev, (8 - k) as nat) + t_prev);
        }
        k = k + 1;
    }
    proof {
        assert(be_bytes(v as nat, 8) =~= tmp@);
    }
    out.append(&mut tmp);
}

/// Appends `v` as a sixteen-byte big-endian field, high bytes zero.
fn push_be_u64_as_16(out: &mut Vec<u8>, v: u64)
    ensures
        final(out)@ == old(out)@ + be_bytes(v as nat, 16),
{
    let ghost base = out@;
    let mut k: usize = 0;
    while k < 8
        invariant
            0 <= k <= 8,
            out@.len() == base.len() + k,
            out@.subrange(0, base.len() as int) == base,
            forall|i: int| base.len() <= i < out@.len() ==> out@[i] == 0u8,
        decreases 8 - k,
    {
        out.push(0);
        proof {
            assert(out@.subrange(0, base.len() as int) =~= base);
        }
        k = k + 1;
    }
    push_be_u64(out, v);
    proof {
        lemma_pow256_values();
        lemma_be_bytes_zero_ext(v as nat, 8, 8);
        lemma_be_bytes_of_zero(8);
        lemma_be_bytes_len(v as nat, 8);
        assert(out@ =~= base + be_bytes(v as nat, 16));
    }
}

/// Reads `n <= 16` big-endian bytes starting at `start`.
fn read_be(data: &[u8], start: usize, n: usize) -> (r: u128)
    requires
        start + n <= data@.len(),
        n <= 16,
    ensures
        r == be_val(data@.subrange(start as int, (start + n) as int)),
{
    let dlen = data.len();
    let mut acc: u128 = 0;
    let mut i: usize = 0;
    while i < n
        invariant
            0 <= i <= n,
            n <= 16,
            start + n <= data@.len(),
            dlen == data@.len(),
            acc == be_val(data@.subrange(start as int, (start + i) as int)),
            acc < pow256(i as nat),
        decreases n - i,
    {
        proof {
            lemma_pow256_mono((i + 1) as nat, 16);
            lemma_pow256_values();
            assert(data@.subrange(start as int, (start + i + 1) as int)
                .subrange(0, i as int) =~= data@.subrange(start as int, (start + i) as int));
        }
        acc = acc * 256 + (data[start + i] as u128);
        i = i + 1;
    }
    acc
}

/// Why a probe packet's bytes were rejected.
#[derive(Clone, Copy, PartialEq, Eq, Structural, Debug)]
pub enum PacketDecodeError {
    /// Fewer than the fifty-six header bytes.
    TooShort,
}

/// The wire form: number, client send time, server send time, client
/// receive time, then the payload.
pub open spec fn spec_packet_bytes(
    number: u64,
    client_send: u64,
    server_send: u64,
    client_receive: u64,
    payload: Seq<u8>,
) -> Seq<u8> {
    be_bytes(number as nat, 8) + be_bytes(client_send as nat, 16)
        + be_bytes(server_send as nat, 16) + be_bytes(client_receive as nat, 16) + payload
}

/// One measurement probe: a sequence number, three nanosecond timestamps,
/// and filler bytes.
#[derive(Clone, Debug)]
pub struct Packet {
    pub number: u64,
    pub client_send_time: u64,
    pub server_send_time: u64,
    pub client_receive_time: u64,
    pub payload: Vec<u8>,
}

impl Packet {
    /// Decodes the wire form; the bytes must at least cover the header.
    /// Each timestamp field is folded into the nanosecond clock's range.
    pub fn from_bytes(data: &[u8]) -> (r: Result<Packet, PacketDecodeError>)
        ensures
            r is Ok <==> data@.len() >= 56,
            r matches Ok(p) ==> p.number == be_val(data@.subrange(0, 8))
                && p.client_send_time == be_val(data@.subrange(8, 24)) % pow256(8)
                && p.server_send_time == be_val(data@.subrange(24, 40)) % pow256(8)
                && p.client_receive_time == be_val(data@.subrange(40, 56)) % pow256(8)
                && p.payload@ == data@.subrange(56, data@.len() as int),
    {
        if data.len() < 56 {
            return Err(PacketDecodeError::TooShort);
        }
        proof {
            lemma_pow256_values();
            lemma_be_val_bound(data@.subrange(0, 8));
        }
        let number = read_be(data, 0, 8) as u64;
        let cs = read_be(data, 8, 16);
        let ss = read_be(data, 24, 16);
        let cr = read_be(data, 40, 16);
        let payload = slice_to_vec(slice_subrange(data, 56, data.len()));
        Ok(Packet {
            number,
            client_send_time: (cs % 0x1_0000_0000_0000_0000) as u64,
            server_send_time: (ss % 0x1_0000_0000_0000_0000) as u64,
            client_receive_time: (cr % 0x1_0000_0000_0000_0000) as u64,
            payload,
        })
    }

    /// Encodes the wire form.
    pub fn as_bytes(&self) -> (r: Vec<u8>)
        ensures
            r@ == spec_packet_bytes(
                self.number,
                self.client_send_time,
                self.server_send_time,
                self.client_receive_time,
                self.payload@,
            ),
    {
        let mut out: Vec<u8> = Vec::new();
        push_be_u64(&mut out, self.number);
        push_be_u64_as_16(&mut out, self.client_send_time);
        push_be_u64_as_16(&mut out, self.server_send_time);
        push_be_u64_as_16(&mut out, self.client_receive_time);
        out.extend_from_slice(self.payload.as_slice());
        proof {
            assert(out@ =~= spec_packet_bytes(
                self.number,
                self.client_send_time,
                self.server_send_time,
                self.client_receive_time,
                self.payload@,
            ));
        }
        out
    }

    /// Round-trip time: the client clock's reading at receipt less its
    /// reading at sending.
    pub fn rtt(&self) -> (r: u64)
        requires
            self.client_receive_time >= self.client_send_time,
        ensures
            r == self.client_receive_time - self.client_send_time,
    {
        self.client_receive_time - self.client_send_time
    }
}

/// Round trip: the wire form determines the number, the three timestamps
/// and the payload exactly, so decoding an encoded packet gives the fields
/// back.
pub proof fn lemma_packet_round_trip(
    number: u64,
    client_send: u64,
    server_send: u64,
    client_receive: u64,
    payload: Seq<u8>,
)
    ensures
        spec_packet_bytes(number, client_send, server_send, client_receive, payload).len()
            == 56 + payload.len(),
        be_val(
            spec_packet_bytes(number, client_send, server_send, client_receive, payload)
                .subrange(0, 8),
        ) == number,
        be_val(
            spec_packet_bytes(number, client_send, server_send, client_receive, payload)
                .subrange(8, 24),
        ) % pow256(8) == client_send,
        be_val(
            spec_packet_bytes(number, client_send, server_send, client_receive, payload)
                .subrange(24, 40),
        ) % pow256(8) == server_send,
        be_val(
            spec_packet_bytes(number, client_send, server_send, client_receive, payload)
                .subrange(40, 56),
        ) % pow256(8) == client_receive,
        spec_packet_bytes(number, client_send, server_send, client_receive, payload).subrange(
            56,
            spec_packet_bytes(number, client_send, server_send, client_receive, payload).len() as int,
        ) == payload,
{
    lemma_pow256_values();
    lemma_pow256_mono(8, 16);
    let ser = spec_packet_bytes(number, client_send, server_send, client_receive, payload);
    lemma_be_bytes_len(number as nat, 8);
    lemma_be_bytes_len(client_send as nat, 16);
    lemma_be_bytes_len(server_send as nat, 16);
    lemma_be_bytes_len(client_receive as nat, 16);
    assert(ser.subrange(0, 8) =~= be_bytes(number as nat, 8));
    assert(ser.subrange(8, 24) =~= be_bytes(client_send as nat, 16));
    assert(ser.subrange(24, 40) =~= be_bytes(server_send as nat, 16));
    assert(ser.subrange(40, 56) =~= be_bytes(client_receive as nat, 16));
    assert(ser.subrange(56, ser.len() as int) =~= payload);
    lemma_be_round(number as nat, 8);
    lemma_be_round(client_send as nat, 16);
    lemma_be_round(server_send as nat, 16);
    lemma_be_round(client_receive as nat, 16);
}

} // verus!
