//! A packet: a hop budget, a routing header and an opaque payload, with its
//! byte format and the forwarding step.
use vstd::prelude::*;
use crate::engine::path::{
    PathHeader, PathHeaderView, PacketError, PacketErrorView, header_bytes, parse_header, routes_fit,
    lemma_header_roundtrip, lemma_header_reparse,
};

verus! {

/// A packet: how many more hops it may take, its route, and its payload.
#[derive(Debug)]
pub struct NinjaPacket {
    pub ttl: u8,
    pub path: PathHeader,
    pub payload: Vec<u8>,
}

/// A packet as values.
pub struct NinjaPacketView {
    pub ttl: u8,
    pub path: PathHeaderView,
    pub payload: Seq<u8>,
}

impl View for NinjaPacket {
    type V = NinjaPacketView;

    open spec fn view(&self) -> NinjaPacketView {
        NinjaPacketView { ttl: self.ttl, path: self.path@, payload: self.payload@ }
    }
}

/// Whether forwarding `p` succeeds: it has more than one hop left.
pub open spec fn can_forward(p: NinjaPacketView) -> bool {
    p.ttl > 1
}

/// `p` after one forwarding step: one hop fewer and the route's next hop
/// where it can be forwarded; unchanged where it cannot.
pub open spec fn forward_step(p: NinjaPacketView) -> NinjaPacketView {
    if can_forward(p) {
        NinjaPacketView {
            ttl: (p.ttl - 1) as u8,
            path: PathHeaderView { current_hop: (p.path.current_hop + 1) as usize, ..p.path },
            ..p
        }
    } else {
        p
    }
}

/// `p` after `k` forwarding attempts in a row.
pub open spec fn forwarded(p: NinjaPacketView, k: nat) -> NinjaPacketView
    decreases k,
{
    if k == 0 {
        p
    } else {
        forward_step(forwarded(p, (k - 1) as nat))
    }
}

/// A packet with a hop budget of `ttl` (at least one) makes exactly `ttl - 1`
/// hops: after `k` attempts with `k < ttl` every attempt succeeded, leaving
/// `ttl - k` hops and the route `k` hops further on; after those, every
/// further attempt fails and leaves the packet as it is, with one hop left.
pub proof fn lemma_hop_budget(p: NinjaPacketView, k: nat)
    requires
        p.ttl >= 1,
        p.path.current_hop + p.ttl <= usize::MAX,
    ensures
        k < p.ttl ==> forwarded(p, k) == (NinjaPacketView {
            ttl: (p.ttl - k) as u8,
            path: PathHeaderView { current_hop: (p.path.current_hop + k) as usize, ..p.path },
            ..p
        }),
        k < p.ttl - 1 ==> can_forward(forwarded(p, k)),
        k >= p.ttl - 1 ==> !can_forward(forwarded(p, k)) && forwarded(p, k) == forwarded(
            p,
            (p.ttl - 1) as nat,
        ),
    decreases k,
{
    if k > 0 {
        lemma_hop_budget(p, (k - 1) as nat);
    }
}

/// The bytes of a packet: the hop budget, the header, then the payload.
pub open spec fn packet_bytes(p: NinjaPacketView) -> Seq<u8> {
    seq![p.ttl] + header_bytes(p.path) + p.payload
}

/// Reading a packet from `data`: the first byte is the hop budget, a header
/// follows, and every byte after the header is payload.
pub open spec fn parse_packet(data: Seq<u8>) -> Result<NinjaPacketView, PacketErrorView> {
    if data.len() == 0 {
        Err(PacketErrorView::EmptyPacket)
    } else {
        match parse_header(data.subrange(1, data.len() as int)) {
            Err(e) => Err(e),
            Ok((h, n)) => if data.len() < 1 + n {
                Err(PacketErrorView::PayloadTruncated)
            } else {
                Ok(
                    NinjaPacketView {
                        ttl: data[0],
                        path: h,
                        payload: data.subrange(1 + n, data.len() as int),
                    },
                )
            },
        }
    }
}

impl Clone for NinjaPacket {
    fn clone(&self) -> (r: Self)
        ensures
            r@ == self@,
    {
        NinjaPacket {
            ttl: self.ttl,
            path: self.path.clone(),
            payload: vstd::slice::slice_to_vec(self.payload.as_slice()),
        }
    }
}

impl NinjaPacket {
    /// A packet with the given hop budget, route and payload.
    pub fn new(ttl: u8, path: PathHeader, payload: Vec<u8>) -> (r: Self)
        ensures
            r.ttl == ttl,
            r.path == path,
            r.payload == payload,
    {
        NinjaPacket { ttl, path, payload }
    }

    /// The packet's bytes: the hop budget, the header's bytes, the payload.
    pub fn to_bytes(&self) -> (r: Vec<u8>)
        ensures
            r@ == packet_bytes(self@),
    {
        let mut bytes: Vec<u8> = Vec::new();
        bytes.push(self.ttl);
        let mut path_bytes = self.path.to_bytes();
        bytes.append(&mut path_bytes);
        let mut i: usize = 0;
        let ghost before = bytes@;
        while i < self.payload.len()
            invariant
                i <= self.payload@.len(),
                bytes@ == before + self.payload@.take(i as int),
            decreases self.payload@.len() - i,
        {
            bytes.push(self.payload[i]);
            i += 1;
            assert(bytes@ =~= before + self.payload@.take(i as int));
        }
        assert(self.payload@.take(self.payload@.len() as int) =~= self.payload@);
        assert(bytes@ =~= packet_bytes(self@));
        bytes
    }

    /// Reads a packet from `data`.
    pub fn from_bytes(data: &[u8]) -> (r: Result<Self, PacketError>)
        ensures
            match (r, parse_packet(data@)) {
                (Ok(p), Ok(sp)) => p@ == sp,
                (Err(e), Err(se)) => e@ == se,
                _ => false,
            },
    {
        if data.len() == 0 {
            return Err(PacketError::EmptyPacket);
        }
        let ttl = data[0];
        let (path, offset) = match PathHeader::from_bytes(&data[1..data.len()]) {
            Ok(x) => x,
            Err(e) => {
                return Err(e);
            },
        };
        if data.len() - 1 < offset {
            return Err(PacketError::PayloadTruncated);
        }
        let payload_pos = 1 + offset;
        let payload = vstd::slice::slice_to_vec(&data[payload_pos..data.len()]);
        Ok(NinjaPacket { ttl, path, payload })
    }

    /// Spends one hop: lowers the hop budget by one and moves the route to its
    /// next hop. Fails, changing nothing, when the budget is one or less.
    pub fn forward(&mut self) -> (r: Result<(), PacketError>)
        requires
            old(self).ttl > 1 ==> old(self).path.current_hop < usize::MAX,
        ensures
            old(self).ttl <= 1 ==> r == Err::<(), PacketError>(PacketError::TtlExpired) && final(self)@
                == old(self)@,
            r is Ok == can_forward(old(self)@),
            final(self)@ == forward_step(old(self)@),
            old(self).ttl > 1 ==> r is Ok && final(self).ttl == old(self).ttl - 1
                && final(self).path.current_hop == old(self).path.current_hop + 1
                && final(self).path.routes == old(self).path.routes && final(self).payload
                == old(self).payload,
    {
        if self.ttl <= 1 {
            return Err(PacketError::TtlExpired);
        }
        self.ttl -= 1;
        self.path.increment_hop();
        Ok(())
    }
}

/// A packet read back from its bytes is the packet, where its hop and routes
/// fit the header's four-byte counts.
pub proof fn lemma_packet_roundtrip(p: NinjaPacketView)
    requires
        p.path.current_hop <= u32::MAX,
        routes_fit(p.path.routes),
    ensures
        parse_packet(packet_bytes(p)) == Ok::<NinjaPacketView, PacketErrorView>(p),
{
    let data = packet_bytes(p);
    assert(data.subrange(1, data.len() as int) =~= header_bytes(p.path) + p.payload);
    lemma_header_roundtrip(p.path, p.payload);
    let n = header_bytes(p.path).len() as int;
    assert(data.subrange(1 + n, data.len() as int) =~= p.payload);
}

proof fn lemma_split_packet_bytes(data: Seq<u8>, n: int)
    requires
        0 <= n,
        1 + n <= data.len(),
    ensures
        data == seq![data[0]] + data.subrange(1, 1 + n) + data.subrange(1 + n, data.len() as int),
{
    assert(data =~= seq![data[0]] + data.subrange(1, 1 + n) + data.subrange(1 + n, data.len() as int));
}

/// A packet that was read, written back, gives exactly the bytes it was read from.
pub proof fn lemma_packet_reparse(data: Seq<u8>)
    requires
        parse_packet(data) is Ok,
    ensures
        packet_bytes(parse_packet(data)->Ok_0) == data,
{
    let rest = data.subrange(1, data.len() as int);
    let (h, n) = parse_header(rest)->Ok_0;
    let p = parse_packet(data)->Ok_0;
    lemma_header_reparse(rest);
    assert(p == NinjaPacketView { ttl: data[0], path: h, payload: data.subrange(1 + n, data.len() as int) });
    assert(header_bytes(h) == data.subrange(1, 1 + n)) by {
        lemma_header_reparse(rest);
        assert(rest.subrange(0, n) =~= data.subrange(1, 1 + n));
    }
    lemma_split_packet_bytes(data, n);
}

} // verus!
