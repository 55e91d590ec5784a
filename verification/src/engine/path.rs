//! The routing header carried by packets: the list of hops and the position
//! of the current one, and its byte format.
use vstd::prelude::*;
use vstd::utf8::{valid_utf8, decode_utf8, encode_utf8};
use crate::engine::worker::WorkerSession;
use crate::wire::{u32_be, be_u32_at, push_u32_be, read_u32_be, lemma_u32_be_roundtrip, lemma_be_u32_roundtrip};

verus! {

/// Why bytes could not be read as a packet, or a packet not be forwarded.
#[derive(Debug, Clone, PartialEq, Eq)]
pub enum PacketError {
    /// Fewer than the eight bytes of the route header's two counts.
    HeaderTooShort,
    /// A route's four-byte length is cut off.
    RouteLengthTruncated,
    /// A route's bytes are cut off.
    RouteTruncated,
    /// A route's bytes are not UTF-8; with the text of the decoding error.
    InvalidUtf8(String),
    /// No bytes at all where a packet was expected.
    EmptyPacket,
    /// The payload is cut off.
    PayloadTruncated,
    /// The packet may not take another hop.
    TtlExpired,
}

/// A `PacketError` as values.
pub enum PacketErrorView {
    HeaderTooShort,
    RouteLengthTruncated,
    RouteTruncated,
    InvalidUtf8(Seq<char>),
    EmptyPacket,
    PayloadTruncated,
    TtlExpired,
}

impl View for PacketError {
    type V = PacketErrorView;

    open spec fn view(&self) -> PacketErrorView {
        match self {
            PacketError::HeaderTooShort => PacketErrorView::HeaderTooShort,
            PacketError::RouteLengthTruncated => PacketErrorView::RouteLengthTruncated,
            PacketError::RouteTruncated => PacketErrorView::RouteTruncated,
            PacketError::InvalidUtf8(m) => PacketErrorView::InvalidUtf8(m@),
            PacketError::EmptyPacket => PacketErrorView::EmptyPacket,
            PacketError::PayloadTruncated => PacketErrorView::PayloadTruncated,
            PacketError::TtlExpired => PacketErrorView::TtlExpired,
        }
    }
}

/// The kinds of I/O failure that a `PacketError` is reported as.
#[derive(Debug, Clone, Copy, PartialEq, Eq, Structural)]
pub enum PacketErrorKind {
    UnexpectedEof,
    InvalidData,
    Other,
}

/// The text a `PacketError` is reported with.
pub open spec fn packet_error_text(e: PacketErrorView) -> Seq<char> {
    match e {
        PacketErrorView::HeaderTooShort => "PathHeaderのパケット長が足りません"@,
        PacketErrorView::RouteLengthTruncated => "PathHeaderのルート長データが破損しています"@,
        PacketErrorView::RouteTruncated => "PathHeaderのルート文字列データが不足しています"@,
        PacketErrorView::InvalidUtf8(m) => m,
        PacketErrorView::EmptyPacket => "パケットデータが空です"@,
        PacketErrorView::PayloadTruncated => "ペイロードデータが不完全です"@,
        PacketErrorView::TtlExpired => "❌ [Packet] TTL expired (Time To Live が0になりました。パケットを破棄します)"@,
    }
}

impl PacketError {
    /// The text this error is reported with.
    pub fn message(&self) -> (r: String)
        ensures
            r@ == packet_error_text(self@),
    {
        match self {
            PacketError::HeaderTooShort => String::from_str("PathHeaderのパケット長が足りません"),
            PacketError::RouteLengthTruncated => String::from_str("PathHeaderのルート長データが破損しています"),
            PacketError::RouteTruncated => String::from_str("PathHeaderのルート文字列データが不足しています"),
            PacketError::InvalidUtf8(m) => m.clone(),
            PacketError::EmptyPacket => String::from_str("パケットデータが空です"),
            PacketError::PayloadTruncated => String::from_str("ペイロードデータが不完全です"),
            PacketError::TtlExpired => String::from_str("❌ [Packet] TTL expired (Time To Live が0になりました。パケットを破棄します)"),
        }
    }

    /// The kind of I/O failure that this error is reported as.
    pub fn kind(&self) -> (r: PacketErrorKind)
        ensures
            r == (match self@ {
                PacketErrorView::InvalidUtf8(_) => PacketErrorKind::InvalidData,
                PacketErrorView::TtlExpired => PacketErrorKind::Other,
                _ => PacketErrorKind::UnexpectedEof,
            }),
    {
        match self {
            PacketError::InvalidUtf8(_) => PacketErrorKind::InvalidData,
            PacketError::TtlExpired => PacketErrorKind::Other,
            _ => PacketErrorKind::UnexpectedEof,
        }
    }
}

/// The routing header of a packet: the hops to take, and the index of the
/// current one.
#[derive(Debug)]
pub struct PathHeader {
    pub routes: Vec<String>,
    pub current_hop: usize,
}

/// A routing header as values.
pub struct PathHeaderView {
    pub routes: Seq<Seq<char>>,
    pub current_hop: usize,
}

impl View for PathHeader {
    type V = PathHeaderView;

    open spec fn view(&self) -> PathHeaderView {
        PathHeaderView { routes: self.routes.deep_view(), current_hop: self.current_hop }
    }
}

/// The bytes of the routes: each as its UTF-8 length in four big-endian bytes,
/// then its UTF-8 bytes.
pub open spec fn routes_bytes(routes: Seq<Seq<char>>) -> Seq<u8>
    decreases routes.len(),
{
    if routes.len() == 0 {
        Seq::empty()
    } else {
        routes_bytes(routes.drop_last()) + u32_be(encode_utf8(routes.last()).len() as u32)
            + encode_utf8(routes.last())
    }
}

/// The bytes of a header: the current hop and the number of routes, each as
/// four big-endian bytes (taken modulo 2^32), then the routes.
pub open spec fn header_bytes(h: PathHeaderView) -> Seq<u8> {
    u32_be(h.current_hop as u32) + u32_be(h.routes.len() as u32) + routes_bytes(h.routes)
}

/// Reading one route at offset `off`: its length, then that many bytes, which
/// must be UTF-8. Gives the route and the offset after it.
pub open spec fn parse_route(data: Seq<u8>, off: int) -> Result<(Seq<char>, int), PacketErrorView> {
    if data.len() < off + 4 {
        Err(PacketErrorView::RouteLengthTruncated)
    } else {
        let n = be_u32_at(data, off) as int;
        if data.len() < off + 4 + n {
            Err(PacketErrorView::RouteTruncated)
        } else if !valid_utf8(data.subrange(off + 4, off + 4 + n)) {
            Err(PacketErrorView::InvalidUtf8(utf8_error_text(data.subrange(off + 4, off + 4 + n))))
        } else {
            Ok((decode_utf8(data.subrange(off + 4, off + 4 + n)), off + 4 + n))
        }
    }
}

/// Reading `count` routes one after another from offset `off`.
pub open spec fn parse_routes(data: Seq<u8>, off: int, count: nat) -> Result<
    (Seq<Seq<char>>, int),
    PacketErrorView,
>
    decreases count,
{
    if count == 0 {
        Ok((Seq::empty(), off))
    } else {
        match parse_routes(data, off, (count - 1) as nat) {
            Err(e) => Err(e),
            Ok((rs, o)) => match parse_route(data, o) {
                Err(e) => Err(e),
                Ok((r, o2)) => Ok((rs.push(r), o2)),
            },
        }
    }
}

/// Reading a header from the front of `data`: the header and the number of
/// bytes it took, or why it could not be read.
pub open spec fn parse_header(data: Seq<u8>) -> Result<(PathHeaderView, int), PacketErrorView> {
    if data.len() < 8 {
        Err(PacketErrorView::HeaderTooShort)
    } else {
        match parse_routes(data, 8, be_u32_at(data, 4) as nat) {
            Err(e) => Err(e),
            Ok((rs, o)) => Ok(
                (PathHeaderView { routes: rs, current_hop: be_u32_at(data, 0) as usize }, o),
            ),
        }
    }
}

/// The routes of a header, as a string list, fit the header's byte format:
/// fewer than 2^32 of them, each of fewer than 2^32 bytes.
pub open spec fn routes_fit(routes: Seq<Seq<char>>) -> bool {
    routes.len() <= u32::MAX && forall|i: int|
        0 <= i < routes.len() ==> #[trigger] encode_utf8(routes[i]).len() <= u32::MAX
}

/// Once reading routes has failed, reading more of them fails the same way.
proof fn lemma_parse_routes_err(data: Seq<u8>, off: int, i: nat, c: nat)
    requires
        i <= c,
        parse_routes(data, off, i) is Err,
    ensures
        parse_routes(data, off, c) == parse_routes(data, off, i),
    decreases c - i,
{
    if c > i {
        lemma_parse_routes_err(data, off, i, (c - 1) as nat);
    }
}

proof fn lemma_routes_bytes_prefix(routes: Seq<Seq<char>>, k: int)
    requires
        0 <= k <= routes.len(),
    ensures
        routes_bytes(routes.take(k)).len() <= routes_bytes(routes).len(),
        routes_bytes(routes).subrange(0, routes_bytes(routes.take(k)).len() as int)
            == routes_bytes(routes.take(k)),
    decreases routes.len(),
{
    if k == routes.len() {
        assert(routes.take(k) =~= routes);
        assert(routes_bytes(routes).subrange(0, routes_bytes(routes).len() as int) =~= routes_bytes(
            routes,
        ));
    } else {
        let d = routes.drop_last();
        assert(d.take(k) =~= routes.take(k));
        lemma_routes_bytes_prefix(d, k);
        let a = routes_bytes(d.take(k));
        assert(routes_bytes(routes).subrange(0, a.len() as int) =~= routes_bytes(d).subrange(
            0,
            a.len() as int,
        ));
    }
}

proof fn lemma_parse_routes_of_bytes(h: PathHeaderView, rest: Seq<u8>, k: int)
    requires
        routes_fit(h.routes),
        0 <= k <= h.routes.len(),
    ensures
        parse_routes(header_bytes(h) + rest, 8, k as nat) == Ok::<(Seq<Seq<char>>, int), PacketErrorView>(
            (h.routes.take(k), 8 + routes_bytes(h.routes.take(k)).len() as int),
        ),
    decreases k,
{
    let data = header_bytes(h) + rest;
    let routes = h.routes;
    if k == 0 {
        assert(routes.take(0) =~= Seq::<Seq<char>>::empty());
    } else {
        lemma_parse_routes_of_bytes(h, rest, k - 1);
        let prev = routes.take(k - 1);
        let o: int = 8 + routes_bytes(prev).len() as int;
        let r = routes[k - 1];
        let e = encode_utf8(r);
        let n: int = e.len() as int;
        assert(n <= u32::MAX);
        assert(routes.take(k).drop_last() =~= prev);
        assert(routes.take(k).last() == r);
        let rbk = routes_bytes(routes.take(k));
        assert(rbk == routes_bytes(prev) + u32_be(n as u32) + e);
        lemma_routes_bytes_prefix(routes, k);
        lemma_u32_be_roundtrip(n as u32);
        let all = routes_bytes(routes);
        assert(data.len() >= o + 4 + n);
        assert forall|i: int| 0 <= i < 4 implies data[o + i] == #[trigger] u32_be(n as u32)[i] by {
            assert(data[o + i] == all[o + i - 8]);
            assert(all[o + i - 8] == rbk[o + i - 8]);
        }
        assert(be_u32_at(data, o) == be_u32_at(u32_be(n as u32), 0));
        assert(data.subrange(o + 4, o + 4 + n) =~= e) by {
            assert forall|i: int| 0 <= i < n implies data.subrange(o + 4, o + 4 + n)[i] == e[i] by {
                assert(data[o + 4 + i] == all[o + 4 + i - 8]);
                assert(all[o + 4 + i - 8] == rbk[o + 4 + i - 8]);
            }
        }
        vstd::utf8::encode_utf8_valid_utf8(r);
        vstd::utf8::encode_utf8_decode_utf8(r);
        assert(prev.push(r) =~= routes.take(k));
    }
}

/// A header read back from its bytes is the header, and takes exactly its
/// bytes, whatever follows them; this holds where the hop and the routes fit
/// the format's four-byte counts.
pub proof fn lemma_header_roundtrip(h: PathHeaderView, rest: Seq<u8>)
    requires
        h.current_hop <= u32::MAX,
        routes_fit(h.routes),
    ensures
        parse_header(header_bytes(h) + rest) == Ok::<(PathHeaderView, int), PacketErrorView>(
            (h, header_bytes(h).len() as int),
        ),
{
    let data = header_bytes(h) + rest;
    lemma_u32_be_roundtrip(h.current_hop as u32);
    lemma_u32_be_roundtrip(h.routes.len() as u32);
    assert(be_u32_at(data, 0) == be_u32_at(u32_be(h.current_hop as u32), 0));
    assert(be_u32_at(data, 4) == be_u32_at(u32_be(h.routes.len() as u32), 0));
    lemma_parse_routes_of_bytes(h, rest, h.routes.len() as int);
    assert(h.routes.take(h.routes.len() as int) =~= h.routes);
}

proof fn lemma_parse_routes_bytes(data: Seq<u8>, k: nat)
    requires
        data.len() >= 8,
        parse_routes(data, 8, k) is Ok,
    ensures
        ({
            let (rs, o) = parse_routes(data, 8, k)->Ok_0;
            &&& 8 <= o <= data.len()
            &&& rs.len() == k
            &&& (k <= u32::MAX ==> routes_fit(rs))
            &&& forall|i: int| 0 <= i < rs.len() ==> #[trigger] encode_utf8(rs[i]).len() <= u32::MAX
            &&& routes_bytes(rs) == data.subrange(8, o)
        }),
    decreases k,
{
    if k == 0 {
        assert(data.subrange(8, 8) =~= Seq::<u8>::empty());
    } else {
        lemma_parse_routes_bytes(data, (k - 1) as nat);
        let (prev, o1) = parse_routes(data, 8, (k - 1) as nat)->Ok_0;
        let (r, o) = parse_route(data, o1)->Ok_0;
        let rs = prev.push(r);
        let m = be_u32_at(data, o1) as int;
        let bytes = data.subrange(o1 + 4, o1 + 4 + m);
        vstd::utf8::decode_utf8_encode_utf8(bytes);
        assert(encode_utf8(r) == bytes);
        lemma_be_u32_roundtrip(data[o1], data[o1 + 1], data[o1 + 2], data[o1 + 3]);
        assert(u32_be(encode_utf8(r).len() as u32) =~= data.subrange(o1, o1 + 4));
        assert(rs.drop_last() =~= prev);
        assert(routes_bytes(rs) =~= data.subrange(8, o));
        assert forall|i: int| 0 <= i < rs.len() implies #[trigger] encode_utf8(rs[i]).len() <= u32::MAX by {
            if i < prev.len() {
                assert(rs[i] == prev[i]);
            }
        }
    }
}

/// A header that was read, written back, gives exactly the bytes it was read
/// from.
pub proof fn lemma_header_reparse(data: Seq<u8>)
    requires
        parse_header(data) is Ok,
    ensures
        ({
            let (h, n) = parse_header(data)->Ok_0;
            &&& h.current_hop <= u32::MAX
            &&& routes_fit(h.routes)
            &&& 8 <= n <= data.len()
            &&& header_bytes(h) == data.subrange(0, n)
        }),
{
    let count = be_u32_at(data, 4) as nat;
    lemma_parse_routes_bytes(data, count);
    let (h, n) = parse_header(data)->Ok_0;
    lemma_be_u32_roundtrip(data[0], data[1], data[2], data[3]);
    lemma_be_u32_roundtrip(data[4], data[5], data[6], data[7]);
    assert(h.current_hop as u32 == be_u32_at(data, 0));
    assert(h.routes.len() as u32 == be_u32_at(data, 4));
    assert(header_bytes(h) =~= data.subrange(0, n));
}

/// The text of the error that `String::from_utf8` gives for `bytes` (where
/// they are not UTF-8).
pub uninterp spec fn utf8_error_text(bytes: Seq<u8>) -> Seq<char>;

/// `std::string::String::from_utf8`: turns bytes into a string; succeeds
/// exactly when the bytes are valid UTF-8, with the characters they encode;
/// otherwise gives the text of its error (`FromUtf8Error`, as displayed),
/// which depends on the bytes alone and is not stated here.
#[verifier::external_body]
fn string_from_utf8(bytes: Vec<u8>) -> (r: Result<String, String>)
    ensures
        r is Ok <==> valid_utf8(bytes@),
        r matches Ok(s) ==> s@ == decode_utf8(bytes@),
        r matches Err(m) ==> m@ == utf8_error_text(bytes@),
{
    String::from_utf8(bytes).map_err(|e| e.to_string())
}

impl Clone for PathHeader {
    fn clone(&self) -> (r: Self)
        ensures
            r@ == self@,
    {
        PathHeader {
            routes: crate::protocol::clone_strings(&self.routes),
            current_hop: self.current_hop,
        }
    }
}

impl PathHeader {
    /// A header over `routes`, at the first hop.
    pub fn new(routes: Vec<String>) -> (r: Self)
        ensures
            r.routes == routes,
            r.current_hop == 0,
    {
        PathHeader { routes, current_hop: 0 }
    }

    /// The header's bytes: the current hop and the number of routes as four
    /// big-endian bytes each (taken modulo 2^32), then each route as its
    /// length in four big-endian bytes and its UTF-8 bytes.
    pub fn to_bytes(&self) -> (r: Vec<u8>)
        ensures
            r@ == header_bytes(self@),
    {
        let mut bytes: Vec<u8> = Vec::new();
        #[verifier::truncate]
        let hop = self.current_hop as u32;
        #[verifier::truncate]
        let count = self.routes.len() as u32;
        push_u32_be(&mut bytes, hop);
        push_u32_be(&mut bytes, count);
        let ghost rs = self.routes.deep_view();
        let mut i: usize = 0;
        while i < self.routes.len()
            invariant
                i <= rs.len(),
                rs == self.routes.deep_view(),
                bytes@ == u32_be(hop) + u32_be(count) + routes_bytes(rs.take(i as int)),
            decreases rs.len() - i,
        {
            let route_bytes = self.routes[i].as_str().as_bytes();
            #[verifier::truncate]
            let len = route_bytes.len() as u32;
            push_u32_be(&mut bytes, len);
            let mut k: usize = 0;
            let ghost before = bytes@;
            while k < route_bytes.len()
                invariant
                    k <= route_bytes@.len(),
                    bytes@ == before + route_bytes@.take(k as int),
                decreases route_bytes@.len() - k,
            {
                bytes.push(route_bytes[k]);
                k += 1;
                assert(bytes@ =~= before + route_bytes@.take(k as int));
            }
            assert(route_bytes@.take(route_bytes@.len() as int) =~= route_bytes@);
            assert(rs.take(i + 1).drop_last() =~= rs.take(i as int));
            assert(rs.take(i + 1).last() == rs[i as int]);
            assert(bytes@ =~= u32_be(hop) + u32_be(count) + routes_bytes(rs.take(i + 1)));
            i += 1;
        }
        assert(rs.take(rs.len() as int) =~= rs);
        bytes
    }

    /// Reads a header from the front of `data`, giving the header and the
    /// number of bytes it took.
    pub fn from_bytes(data: &[u8]) -> (r: Result<(Self, usize), PacketError>)
        ensures
            match (r, parse_header(data@)) {
                (Ok((h, n)), Ok((sh, sn))) => h@ == sh && n == sn,
                (Err(e), Err(se)) => e@ == se,
                _ => false,
            },
    {
        if data.len() < 8 {
            return Err(PacketError::HeaderTooShort);
        }
        let current_hop = read_u32_be(data, 0) as usize;
        let routes_count = read_u32_be(data, 4);
        let mut offset: usize = 8;
        let mut routes: Vec<String> = Vec::new();
        let mut i: u32 = 0;
        assert(routes.deep_view() =~= Seq::<Seq<char>>::empty());
        while i < routes_count
            invariant
                i <= routes_count,
                routes_count == be_u32_at(data@, 4),
                current_hop == be_u32_at(data@, 0) as usize,
                data@.len() >= 8,
                8 <= offset <= data@.len(),
                parse_routes(data@, 8, i as nat) == Ok::<(Seq<Seq<char>>, int), PacketErrorView>(
                    (routes.deep_view(), offset as int),
                ),
            decreases routes_count - i,
        {
            let ghost off0 = offset as int;
            if data.len() - offset < 4 {
                proof {
                    assert(parse_route(data@, off0) == Err::<(Seq<char>, int), PacketErrorView>(PacketErrorView::RouteLengthTruncated));
                    assert(parse_routes(data@, 8, (i + 1) as nat) == Err::<(Seq<Seq<char>>, int), PacketErrorView>(PacketErrorView::RouteLengthTruncated));
                    lemma_parse_routes_err(data@, 8, (i + 1) as nat, routes_count as nat);
                    assert(routes_count == be_u32_at(data@, 4));
                    assert(parse_header(data@) matches Err(e) && e == parse_routes(data@, 8, (i + 1) as nat)->Err_0);
                }
                return Err(PacketError::RouteLengthTruncated);
            }
            let route_len = read_u32_be(data, offset) as usize;
            offset += 4;
            if data.len() - offset < route_len {
                proof {
                    assert(parse_route(data@, off0) == Err::<(Seq<char>, int), PacketErrorView>(PacketErrorView::RouteTruncated));
                    assert(parse_routes(data@, 8, (i + 1) as nat) == Err::<(Seq<Seq<char>>, int), PacketErrorView>(PacketErrorView::RouteTruncated));
                    lemma_parse_routes_err(data@, 8, (i + 1) as nat, routes_count as nat);
                    assert(routes_count == be_u32_at(data@, 4));
                    assert(parse_header(data@) matches Err(e) && e == parse_routes(data@, 8, (i + 1) as nat)->Err_0);
                }
                return Err(PacketError::RouteTruncated);
            }
            let raw = vstd::slice::slice_to_vec(&data[offset..offset + route_len]);
            let route = match string_from_utf8(raw) {
                Ok(s) => s,
                Err(m) => {
                    proof {
                        lemma_parse_routes_err(data@, 8, (i + 1) as nat, routes_count as nat);
                    }
                    return Err(PacketError::InvalidUtf8(m));
                },
            };
            let ghost before = routes.deep_view();
            routes.push(route);
            assert(routes.deep_view() =~= before.push(route@));
            offset += route_len;
            i += 1;
        }
        Ok((PathHeader { routes, current_hop }, offset))
    }

    /// Moves on to the next hop.
    pub fn increment_hop(&mut self)
        requires
            old(self).current_hop < usize::MAX,
        ensures
            final(self).current_hop == old(self).current_hop + 1,
            final(self).routes == old(self).routes,
    {
        self.current_hop += 1;
    }
}


/// The load by which `LeastLoadStrategy` ranks a worker: ten per active
/// task, plus the latency in milliseconds (as a `usize`).
pub open spec fn worker_load(w: WorkerSession) -> int {
    w.active_tasks * 10 + (w.latency_ms as usize)
}

/// Every live worker's load fits a `usize`.
pub open spec fn loads_fit(ws: Seq<WorkerSession>) -> bool {
    forall|j: int| 0 <= j < ws.len() && ws[j].is_alive ==> worker_load(#[trigger] ws[j]) <= usize::MAX
}

/// Chooses, among the known workers, the one to send work to.
pub trait PathStrategy {
    /// The address of the chosen worker, or why none could be chosen.
    fn select_path(&self, workers: &[WorkerSession]) -> Result<String, String>
        requires
            loads_fit(workers@),
    ;
}

/// Chooses the live worker with the least load, counting ten per active task
/// plus the latency in milliseconds.
pub struct LeastLoadStrategy;

/// The worker at `i` is the first live worker with the least load.
pub open spec fn first_least_loaded(ws: Seq<WorkerSession>, i: int) -> bool {
    &&& 0 <= i < ws.len()
    &&& ws[i].is_alive
    &&& forall|j: int| 0 <= j < i && ws[j].is_alive ==> worker_load(ws[j]) > worker_load(ws[i])
    &&& forall|j: int| i < j < ws.len() && ws[j].is_alive ==> worker_load(ws[j]) >= worker_load(ws[i])
}

/// The worker at `i` is the first least loaded exactly when it is alive,
/// every live worker before it has a greater load and every live worker
/// after it a load at least as great, the load being ten per active task
/// plus the latency in milliseconds.
pub proof fn lemma_least_loaded_by_tasks_and_latency(ws: Seq<WorkerSession>, i: int)
    ensures
        first_least_loaded(ws, i) <==> {
            &&& 0 <= i < ws.len()
            &&& ws[i].is_alive
            &&& forall|j: int|
                0 <= j < i && ws[j].is_alive ==> ws[j].active_tasks * 10 + (ws[j].latency_ms as usize)
                    > ws[i].active_tasks * 10 + (ws[i].latency_ms as usize)
            &&& forall|j: int|
                i < j < ws.len() && ws[j].is_alive ==> ws[j].active_tasks * 10 + (
                ws[j].latency_ms as usize) >= ws[i].active_tasks * 10 + (ws[i].latency_ms as usize)
        },
{
}

/// The message given when no live worker is known.
pub open spec fn no_live_worker_message() -> Seq<char> {
    "❌ 有効な稼働中のワーカーが見つかりません（LeastLoadStrategy）。"@
}

/// `u64 as usize`, which keeps the value wherever it fits.
fn latency_as_usize(x: u64) -> (r: usize)
    ensures
        r == x as usize,
{
    #[verifier::truncate]
    let r = x as usize;
    r
}

impl PathStrategy for LeastLoadStrategy {
    fn select_path(&self, workers: &[WorkerSession]) -> (r: Result<String, String>)
        ensures
            r is Ok <==> exists|j: int| 0 <= j < workers@.len() && workers@[j].is_alive,
            r matches Ok(a) ==> exists|i: int|
                first_least_loaded(workers@, i) && a@ == workers@[i].address@,
            r matches Ok(a) ==> exists|i: int|
                0 <= i < workers@.len() && workers@[i].is_alive && a@ == workers@[i].address@
                    && (forall|j: int|
                    0 <= j < i && workers@[j].is_alive ==> workers@[j].active_tasks * 10 + (
                    workers@[j].latency_ms as usize) > workers@[i].active_tasks * 10 + (
                    workers@[i].latency_ms as usize)) && (forall|j: int|
                    i < j < workers@.len() && workers@[j].is_alive ==> workers@[j].active_tasks * 10
                        + (workers@[j].latency_ms as usize) >= workers@[i].active_tasks * 10 + (
                    workers@[i].latency_ms as usize)),
            r matches Err(m) ==> m@ == no_live_worker_message(),
    {
        let mut best: Option<usize> = None;
        let mut best_key: usize = 0;
        let mut i: usize = 0;
        while i < workers.len()
            invariant
                i <= workers@.len(),
                loads_fit(workers@),
                match best {
                    None => forall|j: int| 0 <= j < i ==> !workers@[j].is_alive,
                    Some(b) => b < i && best_key == worker_load(workers@[b as int])
                        && workers@[b as int].is_alive && (forall|j: int|
                        0 <= j < b && workers@[j].is_alive ==> worker_load(workers@[j]) > best_key)
                        && (forall|j: int|
                        b < j < i && workers@[j].is_alive ==> worker_load(workers@[j]) >= best_key),
                },
            decreases workers@.len() - i,
        {
            let w = &workers[i];
            if w.is_alive {
                assert(worker_load(workers@[i as int]) <= usize::MAX);
                let key = w.active_tasks * 10 + latency_as_usize(w.latency_ms);
                match best {
                    None => {
                        best = Some(i);
                        best_key = key;
                    },
                    Some(_) => {
                        if key < best_key {
                            best = Some(i);
                            best_key = key;
                        }
                    },
                }
            }
            i += 1;
        }
        match best {
            Some(b) => {
                assert(first_least_loaded(workers@, b as int));
                proof {
                    lemma_least_loaded_by_tasks_and_latency(workers@, b as int);
                }
                Ok(workers[b].address.clone())
            },
            None => Err(String::from_str("❌ 有効な稼働中のワーカーが見つかりません（LeastLoadStrategy）。")),
        }
    }
}

} // verus!
