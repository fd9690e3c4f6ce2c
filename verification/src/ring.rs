//! Consistent hashing: which backend a key is routed to.
//!
//! The backends of a set are spread over a hash ring, each with a number
//! of points in proportion to its weight. A key is hashed to a place on
//! the ring; the candidates for the key are the backends of the points
//! that follow that place, in ring order. The ring itself is that of the
//! crate `pingora-ketama`; which candidate is taken is decided here.

use vstd::prelude::*;
use vstd::string::*;
use vstd::utf8::*;
use crate::discovery::{endpoint_of, holds_endpoint, Backend, BackendSet};
use crate::field_ref::split_on;
use crate::status::{all_digits, digits_value, number_of, parse_number};
use crate::text::{find_first_from, first_index_from, lemma_first_index_from};

verus! {

/// `pingora_ketama::Continuum`: a hash ring. What it holds is
/// `ring_nodes`; where a key begins on it is `ring_start`.
#[verifier::external_type_specification]
#[verifier::external_body]
pub struct ExContinuum(pingora_ketama::Continuum);

/// The endpoints of the points of a ring, in ring order, each as the text
/// that `std` writes for a socket address: for an IPv4 endpoint the four
/// numbers of the address with `.` between them, a `:` and the port.
pub uninterp spec fn ring_nodes(c: pingora_ketama::Continuum) -> Seq<Seq<char>>;

/// The point of a ring at which the candidates for a key begin.
pub uninterp spec fn ring_start(c: pingora_ketama::Continuum, key: Seq<u8>) -> int;

/// The points of the ring that `pingora-ketama` builds for a list of
/// backends, each given as address, port and weight.
pub uninterp spec fn ketama_ring(buckets: Seq<(u32, u16, u32)>) -> Seq<Seq<char>>;

/// The point at which the candidates for a key begin on the ring that
/// `pingora-ketama` builds for a list of backends.
pub uninterp spec fn ketama_start(buckets: Seq<(u32, u16, u32)>, key: Seq<u8>) -> int;

/// The backends as the ring is built from them: address, port and weight
/// of each, in order.
pub open spec fn buckets_of(backends: Seq<Backend>) -> Seq<(u32, u16, u32)> {
    backends.map_values(|b: Backend| (b.ip, b.port, b.weight))
}

/// The sum of the weights of `backends`.
pub open spec fn total_weight(backends: Seq<Backend>) -> nat
    decreases backends.len(),
{
    if backends.len() == 0 {
        0
    } else {
        total_weight(backends.drop_last()) + backends.last().weight as nat
    }
}

/// Whether a ring can be built from `backends`: every weight is at least
/// one, there are at most 65536 backends, and 160 points for each unit of
/// weight can be counted in 32 bits.
pub open spec fn ring_buildable(backends: Seq<Backend>) -> bool {
    &&& forall|i: int| 0 <= i < backends.len() ==> (#[trigger] backends[i]).weight >= 1
    &&& backends.len() <= 65536
    &&& total_weight(backends) * 160 <= u32::MAX
}

/// `pingora_ketama::Continuum::new`, on one `Bucket` for each backend: the
/// ring of these backends. Every point of the ring is the endpoint of one
/// of the backends, and where the candidates for a key begin depends on
/// the backends and the key alone.
#[verifier::external_body]
pub(crate) fn continuum_new(backends: &Vec<Backend>) -> (c: pingora_ketama::Continuum)
    requires
        ring_buildable(backends@),
    ensures
        ring_nodes(c) == ketama_ring(buckets_of(backends@)),
        forall|key: Seq<u8>| #[trigger] ring_start(c, key) == ketama_start(buckets_of(backends@), key),
        forall|i: int|
            0 <= i < ring_nodes(c).len() ==> names_one_of(#[trigger] ring_nodes(c)[i], backends@),
{
    let buckets: Vec<pingora_ketama::Bucket> = backends.iter().map(
        |b| pingora_ketama::Bucket::new((b.ip.to_be_bytes(), b.port).into(), b.weight),
    ).collect();
    pingora_ketama::Continuum::new(&buckets)
}

/// `pingora_ketama::Continuum::node_idx`: the point at which the
/// candidates for `key` begin. It is a point of the ring, or 0 on an empty
/// ring.
#[verifier::external_body]
pub(crate) fn continuum_node_idx(c: &pingora_ketama::Continuum, key: &[u8]) -> (r: usize)
    ensures
        r as int == ring_start(*c, key@),
        ring_nodes(*c).len() > 0 ==> r < ring_nodes(*c).len(),
        ring_nodes(*c).len() == 0 ==> r == 0,
{
    c.node_idx(key)
}

/// `pingora_ketama::Continuum::get_addr`, with the address written out as
/// text: the endpoint of the point `idx`, with `idx` moved on to the next
/// point, round the ring. `None`, and `idx` as it was, where `idx` is no
/// point of the ring.
#[verifier::external_body]
pub(crate) fn continuum_get_addr(c: &pingora_ketama::Continuum, idx: &mut usize) -> (r: Option<
    String,
>)
    ensures
        *old(idx) < ring_nodes(*c).len() ==> (r matches Some(text) && text@ == ring_nodes(
            *c,
        )[*old(idx) as int]) && *final(idx) == (*old(idx) + 1) % (ring_nodes(*c).len() as int),
        *old(idx) >= ring_nodes(*c).len() ==> r is None && *final(idx) == *old(idx),
{
    c.get_addr(idx).map(|a| a.to_string())
}

/// The byte `:` that parts address and port.
pub const COLON: u8 = 0x3a;

/// The address that the text `s` writes: four numbers of at most 255 with
/// `.` between them.
pub open spec fn address_of(s: Seq<u8>) -> Option<u32> {
    let parts = split_on(s, crate::qualified_service::DOT);
    if parts.len() == 4 && number_of(parts[0], 255) is Some && number_of(parts[1], 255) is Some
        && number_of(parts[2], 255) is Some && number_of(parts[3], 255) is Some {
        Some(
            (((number_of(parts[0], 255)->0 * 256 + number_of(parts[1], 255)->0) * 256 + number_of(
                parts[2],
                255,
            )->0) * 256 + number_of(parts[3], 255)->0) as u32,
        )
    } else {
        None
    }
}

/// The endpoint that the text `s` writes: an address, a `:` and a port
/// of at most 65535.
pub open spec fn endpoint_of_text(s: Seq<u8>) -> Option<u64> {
    let colon = first_index_from(s, COLON, 0);
    if colon < s.len() && address_of(s.subrange(0, colon)) is Some && number_of(
        s.subrange(colon + 1, s.len() as int),
        65535,
    ) is Some {
        Some(
            endpoint_of(
                address_of(s.subrange(0, colon))->0,
                number_of(s.subrange(colon + 1, s.len() as int), 65535)->0 as u16,
            ),
        )
    } else {
        None
    }
}

/// Whether the text `node` writes the endpoint of one of `backends`.
pub open spec fn names_one_of(node: Seq<char>, backends: Seq<Backend>) -> bool {
    endpoint_of_text(encode_utf8(node)) matches Some(e) && holds_endpoint(backends, e)
}

/// The candidate number `t` for a key that starts at `start`: the node
/// `t` points further on, round the ring. `None` where that node is no
/// IPv4 endpoint.
pub open spec fn candidate(nodes: Seq<Seq<char>>, start: int, t: int) -> Option<u64> {
    endpoint_of_text(encode_utf8(nodes[(start + t) % (nodes.len() as int)]))
}

/// Reads the address that `s[from..to]` writes.
pub fn parse_address(s: &[u8], from: usize, to: usize) -> (r: Option<u32>)
    requires
        from <= to <= s.len(),
    ensures
        r == address_of(s@.subrange(from as int, to as int)),
{
    let ghost text = s@.subrange(from as int, to as int);
    let dot = crate::qualified_service::DOT;
    let mut acc: u32 = 0;
    let mut start: usize = from;
    let mut k: usize = 0;
    let ghost mut done: Seq<Seq<u8>> = seq![];
    proof {
        assert(text.subrange(0, text.len() as int) =~= text);
        assert(done + split_on(text, dot) =~= split_on(text, dot));
    }
    while k < 4
        invariant
            from <= start <= to <= s.len(),
            k <= 4,
            dot == crate::qualified_service::DOT,
            text == s@.subrange(from as int, to as int),
            done.len() == k,
            split_on(text, dot) == done + split_on(s@.subrange(start as int, to as int), dot),
            forall|j: int| 0 <= j < k ==> number_of(#[trigger] done[j], 255) is Some,
            k == 0 ==> acc == 0,
            k == 1 ==> acc == number_of(done[0], 255)->0,
            k == 2 ==> acc == number_of(done[0], 255)->0 * 256 + number_of(done[1], 255)->0,
            k == 3 ==> acc == (number_of(done[0], 255)->0 * 256 + number_of(done[1], 255)->0) * 256
                + number_of(done[2], 255)->0,
        decreases 4 - k,
    {
        let ghost rest = s@.subrange(start as int, to as int);
        let end = find_in_range(s, dot, start, to);
        let ghost piece = s@.subrange(start as int, end as int);
        proof {
            assert(rest.subrange(0, end - start) =~= piece);
            if end < to {
                assert(rest.subrange(end - start + 1, rest.len() as int) =~= s@.subrange(
                    end + 1,
                    to as int,
                ));
                assert(split_on(rest, dot) =~= seq![piece] + split_on(
                    s@.subrange(end + 1, to as int),
                    dot,
                ));
            } else {
                assert(piece =~= rest);
                assert(split_on(rest, dot) =~= seq![rest]);
            }
        }
        let n = match parse_number(s, start, end, 255) {
            Some(n) => n,
            None => {
                proof {
                    assert(split_on(text, dot)[k as int] == piece);
                }
                return None;
            },
        };
        let ghost done_before = done;
        proof {
            done = done.push(piece);
        }
        if k == 3 {
            if end < to {
                proof {
                    assert(split_on(text, dot).len() > 4);
                }
                return None;
            }
            proof {
                assert(split_on(text, dot) =~= done);
                assert(done[0] == done_before[0]);
                assert(done[1] == done_before[1]);
                assert(done[2] == done_before[2]);
            }
            return Some(acc * 256 + n);
        }
        if end >= to {
            proof {
                assert(split_on(text, dot) =~= done);
            }
            return None;
        }
        proof {
            assert(done_before + split_on(rest, dot) =~= done + split_on(
                s@.subrange(end + 1, to as int),
                dot,
            ));
            assert forall|j: int| 0 <= j < k + 1 implies number_of(#[trigger] done[j], 255) is Some by {
                if j < k {
                    assert(done[j] == done_before[j]);
                }
            }
            if k >= 1 {
                assert(done[0] == done_before[0]);
            }
            if k >= 2 {
                assert(done[1] == done_before[1]);
            }
        }
        acc = acc * 256 + n;
        start = end + 1;
        k += 1;
    }
    None
}

/// Finds the first `b` in `s[from..to]`; gives `to` where there is none.
pub fn find_in_range(s: &[u8], b: u8, from: usize, to: usize) -> (r: usize)
    requires
        from <= to <= s.len(),
    ensures
        from <= r <= to,
        r - from == first_index_from(s@.subrange(from as int, to as int), b, 0),
{
    let ghost part = s@.subrange(from as int, to as int);
    let mut i: usize = from;
    while i < to
        invariant
            from <= i <= to <= s.len(),
            part == s@.subrange(from as int, to as int),
            first_index_from(part, b, 0) == first_index_from(part, b, i - from),
        decreases to - i,
    {
        assert(part[i - from] == s@[i as int]);
        if s[i] == b {
            return i;
        }
        i += 1;
    }
    i
}

/// Reads the endpoint that a text writes.
pub fn parse_endpoint(s: &[u8]) -> (r: Option<u64>)
    ensures
        r == endpoint_of_text(s@),
{
    let colon = find_first_from(s, COLON, 0);
    if colon >= s.len() {
        return None;
    }
    proof {
        assert(s@.subrange(0, s@.len() as int) =~= s@);
    }
    let ip = match parse_address(s, 0, colon) {
        Some(ip) => ip,
        None => {
            return None;
        },
    };
    let port = match parse_number(s, colon + 1, s.len(), 65535) {
        Some(p) => p,
        None => {
            return None;
        },
    };
    Some(ip as u64 * 65536 + port as u64)
}

/// Whether an endpoint may be taken: it is among `required` and not among
/// `excluded`.
pub open spec fn accepted(required: Seq<Backend>, excluded: Seq<Backend>, e: u64) -> bool {
    holds_endpoint(required, e) && !holds_endpoint(excluded, e)
}

/// The first of the candidates `from`, `from + 1`, ... below `max` that
/// may be taken.
pub open spec fn first_accepted(
    nodes: Seq<Seq<char>>,
    start: int,
    required: Seq<Backend>,
    excluded: Seq<Backend>,
    from: int,
    max: int,
) -> Option<u64>
    decreases max - from,
{
    if nodes.len() == 0 || from >= max {
        None
    } else if candidate(nodes, start, from) matches Some(e) && accepted(required, excluded, e) {
        candidate(nodes, start, from)
    } else {
        first_accepted(nodes, start, required, excluded, from + 1, max)
    }
}

/// The backend that a key is routed to among `backends`: the first of
/// the first `max` candidates on the ring of `backends` that may be
/// taken. It depends on nothing but the key, the backends, and which
/// endpoints may be taken.
pub open spec fn routed(
    backends: Seq<Backend>,
    key: Seq<u8>,
    required: Seq<Backend>,
    excluded: Seq<Backend>,
    max: int,
) -> Option<u64> {
    first_accepted(
        ketama_ring(buckets_of(backends)),
        ketama_start(buckets_of(backends), key),
        required,
        excluded,
        0,
        max,
    )
}

/// The hash ring of a set of backends.
pub struct HashRing {
    backends: Vec<Backend>,
    ring: pingora_ketama::Continuum,
}

impl HashRing {
    /// The backends of the ring.
    pub closed spec fn backends(&self) -> Seq<Backend> {
        self.backends@
    }

    /// The ring is the ring of its backends.
    pub closed spec fn wf(&self) -> bool {
        &&& ring_nodes(self.ring) == ketama_ring(buckets_of(self.backends@))
        &&& forall|key: Seq<u8>| #[trigger]
            ring_start(self.ring, key) == ketama_start(buckets_of(self.backends@), key)
        &&& forall|i: int|
            0 <= i < ring_nodes(self.ring).len() ==> names_one_of(
                #[trigger] ring_nodes(self.ring)[i],
                self.backends@,
            )
    }

    /// Builds the ring of `backends`. `None` where no ring can be built:
    /// a weight is zero, there are more than 65536 backends, or the
    /// weights are too large in sum.
    pub fn build(backends: &BackendSet) -> (r: Option<HashRing>)
        ensures
            r is Some <==> ring_buildable(backends@),
            r matches Some(ring) ==> ring.wf() && ring.backends() == backends@,
    {
        let mut copy: Vec<Backend> = Vec::new();
        let mut sum: u64 = 0;
        let n = backends.len();
        if n > 65536 {
            return None;
        }
        let mut i: usize = 0;
        proof {
            assert(backends@.subrange(0, 0) =~= Seq::<Backend>::empty());
        }
        while i < n
            invariant
                i <= n,
                n == backends@.len(),
                n <= 65536,
                copy@ == backends@.subrange(0, i as int),
                sum == total_weight(backends@.subrange(0, i as int)),
                sum * 160 <= u32::MAX,
                forall|j: int| 0 <= j < i ==> (#[trigger] backends@[j]).weight >= 1,
            decreases n - i,
        {
            let b = backends.get(i);
            proof {
                assert(backends@.subrange(0, i + 1).drop_last() =~= backends@.subrange(0, i as int));
                assert(backends@.subrange(0, i + 1).last() == b);
            }
            if b.weight == 0 {
                assert(!ring_buildable(backends@));
                return None;
            }
            if (sum + b.weight as u64) * 160 > u32::MAX as u64 {
                proof {
                    lemma_total_weight_grows(backends@, i + 1);
                    assert(total_weight(backends@) * 160 > u32::MAX);
                }
                return None;
            }
            sum = sum + b.weight as u64;
            copy.push(b);
            proof {
                assert(copy@ =~= backends@.subrange(0, i + 1));
            }
            i += 1;
        }
        proof {
            assert(backends@.subrange(0, i as int) =~= backends@);
        }
        let ring = continuum_new(&copy);
        Some(HashRing { backends: copy, ring })
    }

    /// Routes `key`: probes up to `max_iterations` candidates along the
    /// ring and gives the first that is among `required` and not among
    /// `excluded`, or none.
    pub fn select_with(
        &self,
        key: &[u8],
        max_iterations: usize,
        required: &BackendSet,
        excluded: &BackendSet,
    ) -> (r: Option<Backend>)
        requires
            self.wf(),
        ensures
            match routed(self.backends(), key@, required@, excluded@, max_iterations as int) {
                Some(e) => r matches Some(b) && b.endpoint() == e && holds_endpoint(
                    self.backends(),
                    e,
                ) && exists|i: int| 0 <= i < self.backends().len() && self.backends()[i] == b,
                None => r is None,
            },
    {
        let ghost nodes = ring_nodes(self.ring);
        let ghost start = ring_start(self.ring, key@);
        let mut idx = continuum_node_idx(&self.ring, key);
        let mut t: usize = 0;
        proof {
            if nodes.len() > 0 {
                vstd::arithmetic::div_mod::lemma_small_mod(idx as nat, nodes.len());
            }
        }
        while t < max_iterations
            invariant
                self.wf(),
                nodes == ring_nodes(self.ring),
                start == ring_start(self.ring, key@),
                nodes.len() > 0 ==> idx < nodes.len() && idx as int == (start + t) % (
                nodes.len() as int),
                nodes.len() == 0 ==> idx == 0,
                t <= max_iterations,
                0 <= start,
                first_accepted(nodes, start, required@, excluded@, 0, max_iterations as int)
                    == first_accepted(
                    nodes,
                    start,
                    required@,
                    excluded@,
                    t as int,
                    max_iterations as int,
                ),
            decreases max_iterations - t,
        {
            let ghost at = idx as int;
            let node = match continuum_get_addr(&self.ring, &mut idx) {
                Some(node) => node,
                None => {
                    return None;
                },
            };
            proof {
                lemma_next_point(start, t as int, nodes.len() as int);
                assert(names_one_of(nodes[at], self.backends@));
            }
            let e = match parse_endpoint(node.as_str().as_bytes()) {
                Some(e) => e,
                None => {
                    proof {
                        assert(false);
                    }
                    return None;
                },
            };
            proof {
                assert(Some(e) == candidate(nodes, start, t as int));
            }
            if required.contains(e) && !excluded.contains(e) {
                return self.member(e);
            }
            t += 1;
        }
        None
    }

    /// The backend of the ring that has the endpoint `e`.
    pub fn member(&self, e: u64) -> (r: Option<Backend>)
        ensures
            match r {
                Some(b) => b.endpoint() == e && exists|i: int|
                    0 <= i < self.backends().len() && self.backends()[i] == b,
                None => !holds_endpoint(self.backends(), e),
            },
    {
        let mut i: usize = 0;
        while i < self.backends.len()
            invariant
                i <= self.backends.len(),
                forall|j: int| 0 <= j < i ==> (#[trigger] self.backends@[j]).endpoint() != e,
            decreases self.backends.len() - i,
        {
            if self.backends[i].endpoint() == e {
                assert(self.backends()[i as int] == self.backends[i as int]);
                return Some(self.backends[i]);
            }
            i += 1;
        }
        None
    }

    /// The backends of the ring.
    pub fn members(&self) -> (b: &Vec<Backend>)
        ensures
            b@ == self.backends(),
    {
        &self.backends
    }
}

/// What is routed to may be taken.
pub proof fn lemma_first_accepted_is_accepted(
    nodes: Seq<Seq<char>>,
    start: int,
    required: Seq<Backend>,
    excluded: Seq<Backend>,
    from: int,
    max: int,
)
    ensures
        first_accepted(nodes, start, required, excluded, from, max) matches Some(e) ==> accepted(
            required,
            excluded,
            e,
        ),
    decreases max - from,
{
    if nodes.len() != 0 && from < max {
        lemma_first_accepted_is_accepted(nodes, start, required, excluded, from + 1, max);
    }
}

/// One step along the ring from candidate `t` is candidate `t + 1`.
pub proof fn lemma_next_point(start: int, t: int, len: int)
    requires
        len > 0,
        0 <= start,
        0 <= t,
    ensures
        (((start + t) % len) + 1) % len == (start + t + 1) % len,
{
    vstd::arithmetic::div_mod::lemma_add_mod_noop(start + t, 1, len);
    vstd::arithmetic::div_mod::lemma_mod_twice(start + t, len);
    let a = (start + t) % len;
    if len == 1 {
        assert((a + 1) % len == (start + t + 1) % len) by (nonlinear_arith)
            requires
                len == 1,
        ;
    } else {
        vstd::arithmetic::div_mod::lemma_small_mod(1, len as nat);
    }
}

/// The weights of a part of the backends are no more than the weights of
/// all.
pub proof fn lemma_total_weight_grows(backends: Seq<Backend>, n: int)
    requires
        0 <= n <= backends.len(),
    ensures
        total_weight(backends.subrange(0, n)) <= total_weight(backends),
    decreases backends.len() - n,
{
    if n < backends.len() {
        assert(backends.subrange(0, n + 1).drop_last() =~= backends.subrange(0, n));
        lemma_total_weight_grows(backends, n + 1);
    } else {
        assert(backends.subrange(0, n) =~= backends);
    }
}

/// Routing is a function of the key, the backends and the endpoints that
/// may be taken: two rings of the same backends, wherever they were
/// built, route a key to the same backend.
pub proof fn lemma_routing_is_deterministic(
    a: HashRing,
    b: HashRing,
    key: Seq<u8>,
    required: Seq<Backend>,
    excluded: Seq<Backend>,
    max: int,
)
    requires
        a.wf(),
        b.wf(),
        a.backends() == b.backends(),
    ensures
        routed(a.backends(), key, required, excluded, max) == routed(
            b.backends(),
            key,
            required,
            excluded,
            max,
        ),
{
}

/// The decimal digits that write `n`, without leading zeros.
pub open spec fn decimal(n: nat) -> Seq<char>
    decreases n,
{
    if n < 10 {
        seq![(0x30 + n) as u8 as char]
    } else {
        decimal(n / 10).push((0x30 + n % 10) as u8 as char)
    }
}

/// The text of an endpoint: the four numbers of the address with `.`
/// between them, a `:` and the port.
pub open spec fn endpoint_text(ip: u32, port: u16) -> Seq<char> {
    decimal((ip / 0x100_0000) as nat) + seq!['.'] + decimal((ip / 0x1_0000 % 256) as nat) + seq![
        '.',
    ] + decimal((ip / 0x100 % 256) as nat) + seq!['.'] + decimal((ip % 256) as nat) + seq![':']
        + decimal(port as nat)
}

/// Writes `n` in decimal digits behind `out`.
pub fn push_decimal(out: &mut String, n: u32)
    ensures
        final(out)@ == old(out)@ + decimal(n as nat),
    decreases n,
{
    if n >= 10 {
        push_decimal(out, n / 10);
    }
    let digit = (0x30 + (n % 10) as u8) as char;
    let ghost before = out@;
    out.push(digit);
    proof {
        if n >= 10 {
            assert(out@ =~= old(out)@ + decimal(n as nat));
        } else {
            assert(out@ =~= old(out)@ + decimal(n as nat));
        }
    }
}

/// Writes the text of the endpoint of `backend` behind `out`.
pub fn push_endpoint(out: &mut String, backend: Backend)
    ensures
        final(out)@ == old(out)@ + endpoint_text(backend.ip, backend.port),
{
    let ip = backend.ip;
    push_decimal(out, ip / 0x100_0000);
    out.push('.');
    push_decimal(out, ip / 0x1_0000 % 256);
    out.push('.');
    push_decimal(out, ip / 0x100 % 256);
    out.push('.');
    push_decimal(out, ip % 256);
    out.push(':');
    push_decimal(out, backend.port as u32);
    proof {
        assert(out@ =~= old(out)@ + endpoint_text(backend.ip, backend.port));
    }
}

/// The bytes of the decimal digits that write `n`.
pub open spec fn decimal_bytes(n: nat) -> Seq<u8>
    decreases n,
{
    if n < 10 {
        seq![(0x30 + n) as u8]
    } else {
        decimal_bytes(n / 10).push((0x30 + n % 10) as u8)
    }
}

/// The bytes of the text of an endpoint.
pub open spec fn endpoint_bytes(ip: u32, port: u16) -> Seq<u8> {
    address_bytes(ip) + seq![COLON] + decimal_bytes(port as nat)
}

/// The characters that ASCII bytes write.
pub open spec fn chars_of(bytes: Seq<u8>) -> Seq<char> {
    Seq::new(bytes.len(), |i: int| bytes[i] as char)
}

/// The digits of a number are digits, at least one, and write the number.
pub proof fn lemma_decimal_bytes(n: nat)
    ensures
        decimal_bytes(n).len() >= 1,
        all_digits(decimal_bytes(n)),
        digits_value(decimal_bytes(n)) == n,
        decimal(n) == chars_of(decimal_bytes(n)),
    decreases n,
{
    if n < 10 {
        let d = decimal_bytes(n);
        assert(d.drop_last() =~= Seq::<u8>::empty());
        assert(digits_value(d.drop_last()) == 0);
        assert(decimal(n) =~= chars_of(d));
    } else {
        lemma_decimal_bytes(n / 10);
        let head = decimal_bytes(n / 10);
        let d = decimal_bytes(n);
        assert(d.drop_last() =~= head);
        assert forall|i: int| 0 <= i < d.len() implies 0x30 <= #[trigger] d[i] <= 0x39 by {
            if i < head.len() {
                assert(d[i] == head[i]);
            }
        }
        assert(decimal(n) =~= chars_of(d));
    }
}

/// A number within its limit is read back from its digits.
pub proof fn lemma_number_of_decimal(n: nat, limit: nat)
    requires
        n <= limit,
    ensures
        number_of(decimal_bytes(n), limit) == Some(n),
{
    lemma_decimal_bytes(n);
}

/// A string whose first piece holds no separator is cut behind that
/// piece.
pub proof fn lemma_split_first_piece(piece: Seq<u8>, sep: u8, rest: Seq<u8>)
    requires
        forall|i: int| 0 <= i < piece.len() ==> #[trigger] piece[i] != sep,
    ensures
        first_index_from(piece + seq![sep] + rest, sep, 0) == piece.len(),
        split_on(piece + seq![sep] + rest, sep) == seq![piece] + split_on(rest, sep),
{
    let s = piece + seq![sep] + rest;
    lemma_first_index_from(s, sep, 0);
    let r = first_index_from(s, sep, 0);
    assert(s[piece.len() as int] == sep);
    if r < piece.len() {
        assert(s[r] == piece[r]);
    }
    assert(r == piece.len());
    assert(s.subrange(0, r) =~= piece);
    assert(s.subrange(r + 1, s.len() as int) =~= rest);
}

/// A string that holds no separator is one piece.
pub proof fn lemma_split_single_piece(piece: Seq<u8>, sep: u8)
    requires
        forall|i: int| 0 <= i < piece.len() ==> #[trigger] piece[i] != sep,
    ensures
        first_index_from(piece, sep, 0) == piece.len(),
        split_on(piece, sep) == seq![piece],
{
    lemma_first_index_from(piece, sep, 0);
}

/// The bytes of the text of an address.
pub open spec fn address_bytes(ip: u32) -> Seq<u8> {
    decimal_bytes((ip / 0x100_0000) as nat) + seq![crate::qualified_service::DOT] + decimal_bytes(
        (ip / 0x1_0000 % 256) as nat,
    ) + seq![crate::qualified_service::DOT] + decimal_bytes((ip / 0x100 % 256) as nat) + seq![
        crate::qualified_service::DOT,
    ] + decimal_bytes((ip % 256) as nat)
}

/// Four pieces without a dot, joined by dots, are cut into those pieces.
proof fn lemma_split_four(d0: Seq<u8>, d1: Seq<u8>, d2: Seq<u8>, d3: Seq<u8>)
    requires
        all_digits(d0),
        all_digits(d1),
        all_digits(d2),
        all_digits(d3),
    ensures
        split_on(
            d0 + seq![crate::qualified_service::DOT] + d1 + seq![crate::qualified_service::DOT] + d2
                + seq![crate::qualified_service::DOT] + d3,
            crate::qualified_service::DOT,
        ) == seq![d0, d1, d2, d3],
{
    let dot = crate::qualified_service::DOT;
    let whole = d0 + seq![dot] + d1 + seq![dot] + d2 + seq![dot] + d3;
    let tail1 = d1 + seq![dot] + d2 + seq![dot] + d3;
    let tail2 = d2 + seq![dot] + d3;
    assert(whole =~= d0 + seq![dot] + tail1);
    assert(tail1 =~= d1 + seq![dot] + tail2);
    lemma_split_first_piece(d0, dot, tail1);
    lemma_split_first_piece(d1, dot, tail2);
    lemma_split_first_piece(d2, dot, d3);
    lemma_split_single_piece(d3, dot);
    assert(seq![d0] + (seq![d1] + (seq![d2] + seq![d3])) =~= seq![d0, d1, d2, d3]);
}

/// The four numbers of an address make up the address.
proof fn lemma_octets(ip: u32)
    ensures
        ip / 0x100_0000 <= 255,
        ip / 0x1_0000 % 256 <= 255,
        ip / 0x100 % 256 <= 255,
        ip % 256 <= 255,
        ip == ((ip / 0x100_0000 * 256 + ip / 0x1_0000 % 256) * 256 + ip / 0x100 % 256) * 256 + ip
            % 256,
{
    assert(ip / 0x100_0000 <= 255) by (bit_vector);
    assert(ip == (ip / 0x100_0000) * 0x100_0000 + (ip / 0x1_0000 % 256) * 0x1_0000 + (ip / 0x100
        % 256) * 0x100 + ip % 256) by (bit_vector);
}

/// The text that is written for an address is read back as that address,
/// and holds no colon.
pub proof fn lemma_address_bytes_read_back(ip: u32)
    ensures
        address_of(address_bytes(ip)) == Some(ip),
        forall|i: int| 0 <= i < address_bytes(ip).len() ==> #[trigger] address_bytes(ip)[i] != COLON,
        forall|i: int| 0 <= i < address_bytes(ip).len() ==> #[trigger] address_bytes(ip)[i] < 0x80,
{
    let dot = crate::qualified_service::DOT;
    let o0 = (ip / 0x100_0000) as nat;
    let o1 = (ip / 0x1_0000 % 256) as nat;
    let o2 = (ip / 0x100 % 256) as nat;
    let o3 = (ip % 256) as nat;
    lemma_octets(ip);
    let d0 = decimal_bytes(o0);
    let d1 = decimal_bytes(o1);
    let d2 = decimal_bytes(o2);
    let d3 = decimal_bytes(o3);
    lemma_decimal_bytes(o0);
    lemma_decimal_bytes(o1);
    lemma_decimal_bytes(o2);
    lemma_decimal_bytes(o3);
    lemma_number_of_decimal(o0, 255);
    lemma_number_of_decimal(o1, 255);
    lemma_number_of_decimal(o2, 255);
    lemma_number_of_decimal(o3, 255);
    lemma_split_four(d0, d1, d2, d3);
    let address = address_bytes(ip);
    let parts = split_on(address, dot);
    assert(parts[0] == d0 && parts[1] == d1 && parts[2] == d2 && parts[3] == d3);
    assert forall|i: int| 0 <= i < address.len() implies 0x2e <= #[trigger] address[i] <= 0x39 by {
        let a0 = d0.len() as int;
        let a1 = a0 + 1 + d1.len();
        let a2 = a1 + 1 + d2.len();
        if i < a0 {
            assert(address[i] == d0[i]);
        } else if i == a0 {
        } else if i < a1 {
            assert(address[i] == d1[i - a0 - 1]);
        } else if i == a1 {
        } else if i < a2 {
            assert(address[i] == d2[i - a1 - 1]);
        } else if i == a2 {
        } else {
            assert(address[i] == d3[i - a2 - 1]);
        }
    }
}

/// The text that is written for an endpoint is read back as that
/// endpoint.
pub proof fn lemma_endpoint_bytes_read_back(ip: u32, port: u16)
    ensures
        endpoint_of_text(endpoint_bytes(ip, port)) == Some(endpoint_of(ip, port)),
        forall|i: int|
            0 <= i < endpoint_bytes(ip, port).len() ==> #[trigger] endpoint_bytes(ip, port)[i]
                < 0x80,
{
    let address = address_bytes(ip);
    let dp = decimal_bytes(port as nat);
    lemma_address_bytes_read_back(ip);
    lemma_decimal_bytes(port as nat);
    lemma_number_of_decimal(port as nat, 65535);
    let s = endpoint_bytes(ip, port);
    assert(s =~= address + seq![COLON] + dp);
    lemma_split_first_piece(address, COLON, dp);
    let colon = first_index_from(s, COLON, 0);
    assert(s.subrange(0, colon) =~= address);
    assert(s.subrange(colon + 1, s.len() as int) =~= dp);
    assert forall|i: int| 0 <= i < s.len() implies #[trigger] s[i] < 0x80 by {
        if i < address.len() {
            assert(s[i] == address[i]);
        } else if i > address.len() {
            assert(s[i] == dp[i - address.len() - 1]);
        }
    }
}

/// ASCII bytes are the UTF-8 bytes of the characters that they write.
pub proof fn lemma_ascii_bytes_of_chars(bytes: Seq<u8>)
    requires
        forall|i: int| 0 <= i < bytes.len() ==> #[trigger] bytes[i] < 0x80,
    ensures
        encode_utf8(chars_of(bytes)) == bytes,
{
    let chars = chars_of(bytes);
    assert(is_ascii_chars(chars)) by {
        assert forall|i: int| 0 <= i < chars.len() implies '\0' <= #[trigger] chars[i] <= '\u{7f}' by {
            assert(bytes[i] < 0x80);
        }
    }
    is_ascii_chars_encode_utf8(chars);
    assert(encode_utf8(chars) =~= bytes) by {
        assert forall|i: int| 0 <= i < bytes.len() implies encode_utf8(chars)[i] == bytes[i] by {
            assert(chars[i] as u8 == encode_utf8(chars)[i]);
            assert(bytes[i] < 0x80);
        }
    }
}

/// What `push_endpoint` writes for a backend is read back by
/// `parse_endpoint` as the endpoint of that backend.
pub proof fn lemma_endpoint_text_reads_back(ip: u32, port: u16)
    ensures
        endpoint_text(ip, port) == chars_of(endpoint_bytes(ip, port)),
        endpoint_of_text(encode_utf8(endpoint_text(ip, port))) == Some(endpoint_of(ip, port)),
{
    lemma_decimal_bytes((ip / 0x100_0000) as nat);
    lemma_decimal_bytes((ip / 0x1_0000 % 256) as nat);
    lemma_decimal_bytes((ip / 0x100 % 256) as nat);
    lemma_decimal_bytes((ip % 256) as nat);
    lemma_decimal_bytes(port as nat);
    let b = endpoint_bytes(ip, port);
    assert(chars_of(seq![crate::qualified_service::DOT]) =~= seq!['.']);
    assert(chars_of(seq![COLON]) =~= seq![':']);
    assert(endpoint_text(ip, port) =~= chars_of(b));
    lemma_endpoint_bytes_read_back(ip, port);
    lemma_ascii_bytes_of_chars(b);
}

} // verus!
