//! The iterative find-node operation: a bounded, closest-first concurrent
//! lookup converging on the closest live contacts to a target id.

use vstd::prelude::*;
use crate::id::{AddrId, AddrOptId, CompactAddr, Id};
use crate::krpc::{self, KrpcMsg, MsgBody};
use crate::msg_buffer::Buffer;
use crate::routing::dist;
use crate::transaction::{self, Transaction, Transactions};
use crate::{Config, SupportedAddr};

verus! {

/// How many queries a single lookup keeps in flight at once.
pub const ALPHA: usize = 3;

/// How many closest contacts a lookup reports.
pub const K_CLOSEST: usize = 8;

/// A lookup tracks up to twice this many candidates.
pub const MAX_CANDIDATES: usize = 16;

/// The big-endian value of two bytes.
pub open spec fn be16(s: Seq<u8>) -> u16 {
    (s[0] * 0x100 + s[1]) as u16
}

/// The big-endian value of four bytes.
pub open spec fn be32(s: Seq<u8>) -> u32 {
    (s[0] * 0x1000000 + s[1] * 0x10000 + s[2] * 0x100 + s[3]) as u32
}

/// The big-endian value of sixteen bytes.
pub open spec fn be128(s: Seq<u8>) -> u128 {
    (s[0] * 0x1000000000000000000000000000000 + s[1] * 0x10000000000000000000000000000 + s[2]
        * 0x100000000000000000000000000 + s[3] * 0x1000000000000000000000000 + s[4]
        * 0x10000000000000000000000 + s[5] * 0x100000000000000000000 + s[6] * 0x1000000000000000000
        + s[7] * 0x10000000000000000 + s[8] * 0x100000000000000 + s[9] * 0x1000000000000 + s[10]
        * 0x10000000000 + s[11] * 0x100000000 + s[12] * 0x1000000 + s[13] * 0x10000 + s[14] * 0x100
        + s[15]) as u128
}

/// A 26-byte compact IPv4 record: a 20-byte id, 4 address bytes, 2 port
/// bytes.
pub open spec fn v4_record(s: Seq<u8>) -> AddrId {
    AddrId {
        id: crate::id::id_of_bytes(s.subrange(0, 20)),
        addr: CompactAddr::V4 { ip: be32(s.subrange(20, 24)), port: be16(s.subrange(24, 26)) },
    }
}

/// A 38-byte compact IPv6 record: a 20-byte id, 16 address bytes, 2 port
/// bytes.
pub open spec fn v6_record(s: Seq<u8>) -> AddrId {
    AddrId {
        id: crate::id::id_of_bytes(s.subrange(0, 20)),
        addr: CompactAddr::V6 { ip: be128(s.subrange(20, 36)), port: be16(s.subrange(36, 38)) },
    }
}

/// The records of a concatenation of 26-byte compact IPv4 records.
pub open spec fn compact_v4_list(s: Seq<u8>) -> Seq<AddrId> {
    Seq::new((s.len() / 26) as nat, |k: int| v4_record(s.subrange(26 * k, 26 * k + 26)))
}

/// The records of a concatenation of 38-byte compact IPv6 records.
pub open spec fn compact_v6_list(s: Seq<u8>) -> Seq<AddrId> {
    Seq::new((s.len() / 38) as nat, |k: int| v6_record(s.subrange(38 * k, 38 * k + 38)))
}

/// Parses a compact IPv4 node list; the bytes are valid exactly when they
/// are a whole number of 26-byte records.
#[verifier::rlimit(100)]
pub fn parse_compact_v4(s: &[u8]) -> (r: Option<Vec<AddrId>>)
    ensures
        r is Some <==> s@.len() % 26 == 0,
        r matches Some(v) ==> v@ == compact_v4_list(s@),
{
    if s.len() % 26 != 0 {
        return None;
    }
    let count = s.len() / 26;
    let mut out: Vec<AddrId> = Vec::new();
    let mut i: usize = 0;
    while i < count
        invariant
            count == s@.len() / 26,
            s@.len() <= usize::MAX,
            s@.len() % 26 == 0,
            i <= count,
            out@.len() == i,
            forall|k: int|
                0 <= k < i ==> out@[k] == v4_record(#[trigger] s@.subrange(26 * k, 26 * k + 26)),
        decreases count - i,
    {
        proof {
            assert((i + 1) * 26 <= (s@.len() / 26) * 26) by (nonlinear_arith)
                requires
                    i + 1 <= s@.len() / 26,
            ;
            assert((s@.len() / 26) * 26 <= s@.len()) by (nonlinear_arith)
                requires
                    s@.len() % 26 == 0,
            ;
            assert(i * 26 + 26 == (i + 1) * 26) by (nonlinear_arith);
            assert(i * 26 + 26 <= s@.len());
        }
        let base = i * 26;
        let id = Id::from_be_bytes(&s[base..base + 20]);
        let ip: u32 = (s[base + 20] as u32) * 0x1000000 + (s[base + 21] as u32) * 0x10000 + (s[base
            + 22] as u32) * 0x100 + (s[base + 23] as u32);
        let port: u16 = (s[base + 24] as u16) * 0x100 + (s[base + 25] as u16);
        let rec = AddrId { id, addr: CompactAddr::V4 { ip, port } };
        proof {
            let seg = s@.subrange(26 * i as int, 26 * i + 26);
            assert(seg.subrange(0, 20) =~= s@.subrange(base as int, base + 20));
            assert(seg.subrange(20, 24) =~= s@.subrange(base + 20, base + 24));
            assert(seg.subrange(24, 26) =~= s@.subrange(base + 24, base + 26));
            assert(rec == v4_record(seg));
        }
        out.push(rec);
        i += 1;
    }
    proof {
        assert(out@ =~= compact_v4_list(s@));
    }
    Some(out)
}

/// Parses a compact IPv6 node list; the bytes are valid exactly when they
/// are a whole number of 38-byte records.
#[verifier::rlimit(100)]
pub fn parse_compact_v6(s: &[u8]) -> (r: Option<Vec<AddrId>>)
    ensures
        r is Some <==> s@.len() % 38 == 0,
        r matches Some(v) ==> v@ == compact_v6_list(s@),
{
    if s.len() % 38 != 0 {
        return None;
    }
    let count = s.len() / 38;
    let mut out: Vec<AddrId> = Vec::new();
    let mut i: usize = 0;
    while i < count
        invariant
            count == s@.len() / 38,
            s@.len() <= usize::MAX,
            s@.len() % 38 == 0,
            i <= count,
            out@.len() == i,
            forall|k: int|
                0 <= k < i ==> out@[k] == v6_record(#[trigger] s@.subrange(38 * k, 38 * k + 38)),
        decreases count - i,
    {
        proof {
            assert((i + 1) * 38 <= (s@.len() / 38) * 38) by (nonlinear_arith)
                requires
                    i + 1 <= s@.len() / 38,
            ;
            assert((s@.len() / 38) * 38 <= s@.len()) by (nonlinear_arith)
                requires
                    s@.len() % 38 == 0,
            ;
            assert(i * 38 + 38 == (i + 1) * 38) by (nonlinear_arith);
            assert(i * 38 + 38 <= s@.len());
        }
        let base = i * 38;
        let id = Id::from_be_bytes(&s[base..base + 20]);
        let ip: u128 = (s[base + 20] as u128) * 0x1000000000000000000000000000000 + (s[base
            + 21] as u128) * 0x10000000000000000000000000000 + (s[base + 22] as u128)
            * 0x100000000000000000000000000 + (s[base + 23] as u128) * 0x1000000000000000000000000
            + (s[base + 24] as u128) * 0x10000000000000000000000 + (s[base + 25] as u128)
            * 0x100000000000000000000 + (s[base + 26] as u128) * 0x1000000000000000000 + (s[base
            + 27] as u128) * 0x10000000000000000 + (s[base + 28] as u128) * 0x100000000000000 + (
        s[base + 29] as u128) * 0x1000000000000 + (s[base + 30] as u128) * 0x10000000000 + (s[base
            + 31] as u128) * 0x100000000 + (s[base + 32] as u128) * 0x1000000 + (s[base
            + 33] as u128) * 0x10000 + (s[base + 34] as u128) * 0x100 + (s[base + 35] as u128);
        let port: u16 = (s[base + 36] as u16) * 0x100 + (s[base + 37] as u16);
        let rec = AddrId { id, addr: CompactAddr::V6 { ip, port } };
        proof {
            let seg = s@.subrange(38 * i as int, 38 * i + 38);
            assert(seg.subrange(0, 20) =~= s@.subrange(base as int, base + 20));
            assert(seg.subrange(20, 36) =~= s@.subrange(base + 20, base + 36));
            assert(seg.subrange(36, 38) =~= s@.subrange(base + 36, base + 38));
            assert(rec == v6_record(seg));
        }
        out.push(rec);
        i += 1;
    }
    proof {
        assert(out@ =~= compact_v6_list(s@));
    }
    Some(out)
}

/// Where a lookup candidate stands: not yet queried, queried under a
/// transaction id, answered, or given up on.
#[derive(Clone, Copy, Debug)]
pub enum CandidateState {
    Pending,
    InFlight(transaction::Id),
    Responded,
    Failed,
}

/// A lookup candidate: an address with an optional id and its status.
#[derive(Clone, Copy, Debug)]
pub struct Candidate {
    pub addr_opt_id: AddrOptId,
    pub state: CandidateState,
}

/// The distance key a candidate is ordered by: a confirmed id's XOR
/// distance to the target; a candidate with no confirmed id sorts first so
/// that bootstrap seeds are queried.
pub open spec fn dist_opt(target: Id, a: AddrOptId) -> nat {
    match a.id {
        Some(id) => dist(target, id),
        None => 0,
    }
}

/// How a completed transaction of the lookup ended.
pub enum Response<'a> {
    Resp(&'a KrpcMsg),
    Error(&'a KrpcMsg),
    Timeout,
}

/// The number of entries that count as the closest: at most `K_CLOSEST`.
pub open spec fn closest_bound(len: int) -> int {
    if len < K_CLOSEST {
        len
    } else {
        K_CLOSEST as int
    }
}

/// Whether an outbound datagram is a `find_node` query of this node
/// toward the given target, carrying its own transaction id.
pub open spec fn is_lookup_query(msg: crate::msg_buffer::OutboundMsg, config: Config, target: Id) -> bool {
    match msg.tx_id {
        Some(tid) => msg.timeout == config.default_query_timeout && msg.msg_data@
            == krpc::spec_encode(
            krpc::MsgView {
                t: crate::msg_buffer::tx_id_bytes(tid),
                v: crate::msg_buffer::opt_bytes_view(config.client_version),
                body: krpc::BodyView::Query {
                    method: seq![102u8, 105u8, 110u8, 100u8, 95u8, 110u8, 111u8, 100u8, 101u8],
                    id: config.local_id,
                    target: Some(target),
                },
            },
        ),
        None => false,
    }
}

/// Whether a candidate's query is in flight under the given transaction
/// id.
pub open spec fn in_flight_under(c: Candidate, tx_id: transaction::Id) -> bool {
    match c.state {
        CandidateState::InFlight(t) => t.0 == tx_id.0,
        _ => false,
    }
}

/// The candidate sequence after a completion under `tx_id` is marked: the
/// first matching in-flight entry becomes `Responded` or `Failed`; with no
/// match nothing changes.
pub open spec fn spec_marked(s: Seq<Candidate>, tx_id: transaction::Id, ok: bool) -> Seq<
    Candidate,
> {
    if exists|k: int| 0 <= k < s.len() && in_flight_under(#[trigger] s[k], tx_id) {
        let k = choose|k: int|
            0 <= k < s.len() && in_flight_under(#[trigger] s[k], tx_id) && forall|j: int|
                0 <= j < k ==> !in_flight_under(#[trigger] s[j], tx_id);
        s.update(
            k,
            Candidate {
                addr_opt_id: s[k].addr_opt_id,
                state: if ok {
                    CandidateState::Responded
                } else {
                    CandidateState::Failed
                },
            },
        )
    } else {
        s
    }
}

/// The number of `InFlight` candidates among the first `upto`.
pub open spec fn spec_count_in_flight(s: Seq<Candidate>, upto: int) -> int
    decreases upto,
{
    if upto <= 0 {
        0
    } else {
        spec_count_in_flight(s, upto - 1) + if s[upto - 1].state is InFlight {
            1int
        } else {
            0int
        }
    }
}

/// The number of `Pending` candidates among the first `upto`.
pub open spec fn count_pending(s: Seq<Candidate>, upto: int) -> int
    decreases upto,
{
    if upto <= 0 {
        0
    } else {
        count_pending(s, upto - 1) + if s[upto - 1].state is Pending {
            1int
        } else {
            0int
        }
    }
}

/// Replacing a `Pending` entry below `upto` with a non-`Pending` one
/// lowers the pending count by one.
proof fn lemma_count_pending_update(s: Seq<Candidate>, i: int, c: Candidate, upto: int)
    requires
        0 <= i < s.len(),
        i < upto <= s.len(),
        s[i].state is Pending,
        !(c.state is Pending),
    ensures
        count_pending(s.update(i, c), upto) == count_pending(s, upto) - 1,
    decreases upto,
{
    if upto > 0 {
        if i == upto - 1 {
            lemma_count_pending_same(s.update(i, c), s, upto - 1);
        } else {
            lemma_count_pending_update(s, i, c, upto - 1);
        }
    }
}

/// In an all-`Pending` sequence the pending count is the whole prefix
/// and nothing is in flight.
pub proof fn lemma_counts_all_pending(s: Seq<Candidate>, upto: int)
    requires
        0 <= upto <= s.len(),
        forall|k: int| 0 <= k < s.len() ==> (#[trigger] s[k]).state is Pending,
    ensures
        count_pending(s, upto) == upto,
        spec_count_in_flight(s, upto) == 0,
    decreases upto,
{
    if upto > 0 {
        lemma_counts_all_pending(s, upto - 1);
    }
}

/// The pending count is never negative.
proof fn lemma_count_pending_nonneg(s: Seq<Candidate>, upto: int)
    ensures
        count_pending(s, upto) >= 0,
    decreases upto,
{
    if upto > 0 {
        lemma_count_pending_nonneg(s, upto - 1);
    }
}

/// The pending count only reads entries below `upto`.
proof fn lemma_count_pending_same(a: Seq<Candidate>, b: Seq<Candidate>, upto: int)
    requires
        upto <= a.len(),
        upto <= b.len(),
        forall|k: int| 0 <= k < upto ==> a[k] == b[k],
    ensures
        count_pending(a, upto) == count_pending(b, upto),
    decreases upto,
{
    if upto > 0 {
        lemma_count_pending_same(a, b, upto - 1);
    }
}

/// An iterative find-node lookup: the target id, the accepted address
/// families, and the closest known candidates ordered by distance.
#[derive(Debug)]
pub struct FindNodeOp {
    pub target: Id,
    pub supported_addr: SupportedAddr,
    pub candidates: Vec<Candidate>,
}

impl FindNodeOp {
    /// The candidate list is bounded, ordered by ascending distance to the
    /// target, and holds each address at most once.
    pub open spec fn wf(self) -> bool {
        &&& self.candidates@.len() <= MAX_CANDIDATES
        &&& forall|i: int, j: int|
            0 <= i < j < self.candidates@.len() ==> dist_opt(
                self.target,
                #[trigger] self.candidates@[i].addr_opt_id,
            ) <= dist_opt(self.target, #[trigger] self.candidates@[j].addr_opt_id)
        &&& forall|i: int, j: int|
            0 <= i < j < self.candidates@.len() ==> (#[trigger] self.candidates@[i]).addr_opt_id
                != (#[trigger] self.candidates@[j]).addr_opt_id
    }

    /// A lookup toward `target` seeded with the given candidates; when
    /// the seeds fit the candidate bound, every one of them is tracked.
    pub fn new(target: Id, supported_addr: SupportedAddr, seeds: Vec<AddrOptId>) -> (r: FindNodeOp)
        ensures
            r.wf(),
            r.target == target,
            r.supported_addr == supported_addr,
            seeds@.len() <= MAX_CANDIDATES ==> forall|k: int|
                0 <= k < seeds@.len() ==> r.tracks(#[trigger] seeds@[k]),
            forall|c: int|
                0 <= c < r.candidates@.len() ==> (#[trigger] r.candidates@[c]).state is Pending,
            forall|c: int|
                0 <= c < r.candidates@.len() ==> exists|k: int|
                    0 <= k < seeds@.len() && seeds@[k] == (#[trigger] r.candidates@[c]).addr_opt_id,
    {
        let mut op = FindNodeOp { target, supported_addr, candidates: Vec::new() };
        let mut i: usize = 0;
        while i < seeds.len()
            invariant
                op.wf(),
                op.target == target,
                op.supported_addr == supported_addr,
                i <= seeds@.len(),
                op.candidates@.len() <= i,
                seeds@.len() <= MAX_CANDIDATES ==> forall|k: int|
                    0 <= k < i ==> op.tracks(#[trigger] seeds@[k]),
                forall|c: int|
                    0 <= c < op.candidates@.len() ==> (#[trigger] op.candidates@[c]).state
                        is Pending,
                forall|c: int|
                    0 <= c < op.candidates@.len() ==> exists|k: int|
                        0 <= k < i && seeds@[k] == (#[trigger] op.candidates@[c]).addr_opt_id,
            decreases seeds@.len() - i,
        {
            op.add_candidate(seeds[i]);
            i += 1;
        }
        op
    }

    /// Whether some candidate already has this address.
    fn contains_addr(&self, a: &AddrOptId) -> (r: bool)
        ensures
            r == exists|i: int|
                0 <= i < self.candidates@.len() && (#[trigger] self.candidates@[i]).addr_opt_id
                    == *a,
    {
        let mut i: usize = 0;
        while i < self.candidates.len()
            invariant
                i <= self.candidates@.len(),
                forall|k: int| 0 <= k < i ==> (#[trigger] self.candidates@[k]).addr_opt_id != *a,
            decreases self.candidates@.len() - i,
        {
            if self.candidates[i].addr_opt_id == *a {
                return true;
            }
            i += 1;
        }
        false
    }

    /// Whether some candidate carries the given address.
    pub open spec fn tracks(self, a: AddrOptId) -> bool {
        exists|i: int|
            0 <= i < self.candidates@.len() && (#[trigger] self.candidates@[i]).addr_opt_id == a
    }

    /// Merges a newly-learned candidate: ignored when its address is
    /// already known; otherwise inserted at its place in the distance
    /// order, and the list truncated back to its bound. While the list is
    /// below its bound nothing is ever dropped, so the pair is tracked
    /// afterward and every tracked pair stays tracked.
    pub fn add_candidate(&mut self, a: AddrOptId)
        requires
            old(self).wf(),
        ensures
            final(self).wf(),
            final(self).target == old(self).target,
            final(self).supported_addr == old(self).supported_addr,
            final(self).candidates@.len() <= old(self).candidates@.len() + 1,
            old(self).candidates@.len() < MAX_CANDIDATES ==> final(self).tracks(a) && forall|
                b: AddrOptId,
            | old(self).tracks(b) ==> final(self).tracks(b),
            (forall|k: int| 0 <= k < old(self).candidates@.len() ==> (#[trigger] old(
                self,
            ).candidates@[k]).state is Pending) ==> forall|k: int|
                0 <= k < final(self).candidates@.len() ==> (
                #[trigger] final(self).candidates@[k]).state is Pending,
            forall|c: int|
                0 <= c < final(self).candidates@.len() ==> (#[trigger] final(self).candidates@[c]).addr_opt_id == a || exists|c2: int|
                0 <= c2 < old(self).candidates@.len() && old(self).candidates@[c2].addr_opt_id
                    == final(self).candidates@[c].addr_opt_id,
            (old(self).candidates@.len() == MAX_CANDIDATES && !old(self).tracks(a)) ==> exists|
                d: Candidate,
            |
                #[trigger] final(self).candidates@.to_multiset().insert(d) == old(
                    self,
                ).candidates@.to_multiset().insert(
                    (Candidate { addr_opt_id: a, state: CandidateState::Pending }),
                ) && forall|k: int|
                    0 <= k < final(self).candidates@.len() ==> dist_opt(
                        old(self).target,
                        (#[trigger] final(self).candidates@[k]).addr_opt_id,
                    ) <= dist_opt(old(self).target, d.addr_opt_id),
    {
        if self.contains_addr(&a) {
            return;
        }
        let cand = Candidate { addr_opt_id: a, state: CandidateState::Pending };
        let pos = self.insert_position(&a);
        proof {
            self.candidates@.insert_ensures(pos as int, cand);
        }
        let ghost pre = self.candidates@;
        self.candidates.insert(pos, cand);
        proof {
            let post = self.candidates@;
            assert forall|i: int, j: int|
                0 <= i < j < post.len() implies dist_opt(
                self.target,
                #[trigger] post[i].addr_opt_id,
            ) <= dist_opt(self.target, #[trigger] post[j].addr_opt_id) && post[i].addr_opt_id
                != post[j].addr_opt_id by {
                if i < pos as int && j < pos as int {
                    assert(post[i] == pre[i] && post[j] == pre[j]);
                } else if i < pos as int && j == pos as int {
                    assert(post[i] == pre[i] && post[j] == cand);
                } else if i < pos as int {
                    assert(post[i] == pre[i] && post[j] == pre[j - 1]);
                } else if i == pos as int {
                    assert(post[i] == cand && post[j] == pre[j - 1]);
                    assert(dist_opt(self.target, a) < dist_opt(
                        self.target,
                        pre[pos as int].addr_opt_id,
                    ) || pre.len() == pos as int);
                    assert(dist_opt(self.target, pre[pos as int].addr_opt_id) <= dist_opt(
                        self.target,
                        pre[j - 1].addr_opt_id,
                    ));
                } else {
                    assert(post[i] == pre[i - 1] && post[j] == pre[j - 1]);
                }
            }
        }
        proof {
            if pre.len() < MAX_CANDIDATES {
                assert(self.candidates@[pos as int].addr_opt_id == a);
                assert(self.tracks(a));
                assert forall|b: AddrOptId| old(self).tracks(b) implies self.tracks(b) by {
                    let x = choose|x: int|
                        0 <= x < pre.len() && (#[trigger] pre[x]).addr_opt_id == b;
                    if x < pos as int {
                        assert(self.candidates@[x].addr_opt_id == b);
                    } else {
                        assert(self.candidates@[x + 1].addr_opt_id == b);
                    }
                }
            }
        }
        let ghost full_list = self.candidates@;
        if self.candidates.len() > MAX_CANDIDATES {
            self.candidates.truncate(MAX_CANDIDATES);
            proof {
                assert(self.candidates@ =~= full_list.subrange(0, MAX_CANDIDATES as int));
            }
        }
        proof {
            broadcast use vstd::seq_lib::group_to_multiset_ensures;

            if pre.len() == MAX_CANDIDATES {
                // The list was full: the single entry past the bound — the
                // farthest of the old entries and the new one — is dropped.
                let d = full_list.last();
                assert(full_list.remove(pos as int) =~= pre);
                assert(full_list.to_multiset().remove(cand) == pre.to_multiset()) by {
                    assert(full_list.remove(pos as int).to_multiset() =~= full_list.to_multiset().remove(
                        full_list[pos as int],
                    ));
                }
                assert(full_list.contains(cand)) by {
                    assert(full_list[pos as int] == cand);
                }
                assert(full_list.to_multiset() =~= pre.to_multiset().insert(cand)) by {
                    assert(full_list.to_multiset().count(cand) > 0);
                }
                assert(self.candidates@ =~= full_list.drop_last());
                assert(full_list =~= self.candidates@.push(d));
                assert(self.candidates@.to_multiset().insert(d) =~= full_list.to_multiset());
                assert forall|k: int|
                    0 <= k < self.candidates@.len() implies dist_opt(
                    self.target,
                    (#[trigger] self.candidates@[k]).addr_opt_id,
                ) <= dist_opt(self.target, d.addr_opt_id) by {
                    assert(self.candidates@[k] == full_list[k]);
                    assert(dist_opt(self.target, full_list[k].addr_opt_id) <= dist_opt(
                        self.target,
                        full_list[full_list.len() - 1].addr_opt_id,
                    ));
                }
            }
        }
    }

    /// The first index whose candidate is strictly farther from the
    /// target, so equal distances keep their insertion order.
    fn insert_position(&self, a: &AddrOptId) -> (pos: usize)
        ensures
            pos <= self.candidates@.len(),
            forall|k: int|
                0 <= k < pos ==> dist_opt(self.target, #[trigger] self.candidates@[k].addr_opt_id)
                    <= dist_opt(self.target, *a),
            pos < self.candidates@.len() ==> dist_opt(self.target, *a) < dist_opt(
                self.target,
                self.candidates@[pos as int].addr_opt_id,
            ),
    {
        let dist_new = exec_dist_opt(&self.target, a);
        let mut pos: usize = 0;
        while pos < self.candidates.len()
            invariant
                pos <= self.candidates@.len(),
                dist_new@ == dist_opt(self.target, *a),
                forall|k: int|
                    0 <= k < pos ==> dist_opt(self.target, #[trigger] self.candidates@[k].addr_opt_id)
                        <= dist_opt(self.target, *a),
            decreases self.candidates@.len() - pos,
        {
            let d = exec_dist_opt(&self.target, &self.candidates[pos].addr_opt_id);
            if dist_new.lt(&d) {
                return pos;
            }
            pos += 1;
        }
        pos
    }

    /// The number of queries currently in flight.
    pub fn count_in_flight(&self) -> (r: usize)
        ensures
            r == spec_count_in_flight(self.candidates@, self.candidates@.len() as int),
            r <= self.candidates@.len(),
    {
        let mut count: usize = 0;
        let mut i: usize = 0;
        while i < self.candidates.len()
            invariant
                i <= self.candidates@.len(),
                count <= i,
                count == spec_count_in_flight(self.candidates@, i as int),
            decreases self.candidates@.len() - i,
        {
            if matches!(self.candidates[i].state, CandidateState::InFlight(_)) {
                count += 1;
            }
            i += 1;
        }
        count
    }

    /// Whether the lookup is complete: no query is in flight and every
    /// candidate among the closest `K_CLOSEST` has been answered or given
    /// up on.
    pub fn is_done(&self) -> (r: bool)
        ensures
            r == self.spec_done(),
    {
        let mut i: usize = 0;
        let end = if self.candidates.len() < K_CLOSEST {
            self.candidates.len()
        } else {
            K_CLOSEST
        };
        let mut done = true;
        while i < self.candidates.len()
            invariant
                i <= self.candidates@.len(),
                end == if self.candidates@.len() < K_CLOSEST {
                    self.candidates@.len() as int
                } else {
                    K_CLOSEST as int
                },
                done == (forall|k: int|
                    0 <= k < i ==> !((#[trigger] self.candidates@[k].state) is InFlight) && (k < end
                        ==> (self.candidates@[k].state is Responded || self.candidates@[k].state
                        is Failed))),
            decreases self.candidates@.len() - i,
        {
            let st = self.candidates[i].state;
            if matches!(st, CandidateState::InFlight(_)) {
                done = false;
            }
            if i < end && !(matches!(st, CandidateState::Responded) || matches!(
                st,
                CandidateState::Failed,
            )) {
                done = false;
            }
            i += 1;
        }
        done
    }

    /// The lookup's terminal condition as a specification value.
    pub open spec fn spec_done(self) -> bool {
        let end = if self.candidates@.len() < K_CLOSEST {
            self.candidates@.len() as int
        } else {
            K_CLOSEST as int
        };
        forall|k: int|
            0 <= k < self.candidates@.len() ==> !((#[trigger] self.candidates@[k].state)
                is InFlight) && (k < end ==> (self.candidates@[k].state is Responded
                || self.candidates@[k].state is Failed))
    }

    /// Feeds the completion of a transaction into the lookup: the queried
    /// candidate is marked answered or failed, and a response's compact
    /// node list is merged into the candidates.
    pub fn handle(&mut self, tx: &Transaction, resp: Response<'_>)
        requires
            old(self).wf(),
        ensures
            final(self).wf(),
            final(self).target == old(self).target,
            final(self).supported_addr == old(self).supported_addr,
            resp is Timeout ==> final(self).candidates@ == spec_marked(
                old(self).candidates@,
                tx.tx_id,
                false,
            ),
            resp matches Response::Error(_) ==> final(self).candidates@ == spec_marked(
                old(self).candidates@,
                tx.tx_id,
                false,
            ),
            resp matches Response::Resp(m) ==> (match m@.body {
                krpc::BodyView::Resp { nodes, .. } => nodes is None ==> final(self).candidates@
                    == spec_marked(old(self).candidates@, tx.tx_id, true),
                _ => final(self).candidates@ == spec_marked(old(self).candidates@, tx.tx_id, true),
            }),
            resp matches Response::Resp(m) ==> (match m@.body {
                krpc::BodyView::Resp { nodes: Some(n), .. } => (old(self).supported_addr is Ipv4
                    && n.len() % 26 == 0 && old(self).candidates@.len() + n.len() / 26
                    <= MAX_CANDIDATES) ==> (forall|k: int|
                    0 <= k < compact_v4_list(n).len() ==> final(self).tracks(
                        (AddrOptId {
                            addr: (#[trigger] compact_v4_list(n)[k]).addr,
                            id: Some(compact_v4_list(n)[k].id),
                        }),
                    )) && (forall|b: AddrOptId| old(self).tracks(b) ==> final(self).tracks(b)),
                _ => true,
            }),
    {
        match &resp {
            Response::Resp(m) => {
                self.mark(tx.tx_id, true);
                let ghost marked = self.candidates@;
                proof {
                    assert forall|b: AddrOptId| old(self).tracks(b) implies self.tracks(b) by {
                        let x = choose|x: int|
                            0 <= x < old(self).candidates@.len() && (
                            #[trigger] old(self).candidates@[x]).addr_opt_id == b;
                        assert(self.candidates@[x].addr_opt_id == b);
                    }
                }
                match &m.body {
                    MsgBody::Resp { nodes: Some(nodes), .. } => {
                        let parsed = match self.supported_addr {
                            SupportedAddr::Ipv4 => parse_compact_v4(nodes.as_slice()),
                            SupportedAddr::Ipv6 => parse_compact_v6(nodes.as_slice()),
                            SupportedAddr::Ipv4AndIpv6 => {
                                match parse_compact_v4(nodes.as_slice()) {
                                    Some(v) => Some(v),
                                    None => parse_compact_v6(nodes.as_slice()),
                                }
                            },
                        };
                        match parsed {
                            Some(list) => {
                                let ghost bounded = marked.len() + list@.len()
                                    <= MAX_CANDIDATES as int;
                                let mut i: usize = 0;
                                while i < list.len()
                                    invariant
                                        self.wf(),
                                        self.target == old(self).target,
                                        self.supported_addr == old(self).supported_addr,
                                        i <= list@.len(),
                                        self.candidates@.len() <= marked.len() + i,
                                        bounded == (marked.len() + list@.len()
                                            <= MAX_CANDIDATES as int),
                                        bounded ==> forall|k: int|
                                            0 <= k < i ==> self.tracks(
                                                (AddrOptId {
                                                    addr: (#[trigger] list@[k]).addr,
                                                    id: Some(list@[k].id),
                                                }),
                                            ),
                                        bounded ==> forall|b: AddrOptId|
                                            old(self).tracks(b) ==> self.tracks(b),
                                    decreases list@.len() - i,
                                {
                                    let rec = list[i];
                                    proof {
                                        if bounded {
                                            assert(self.candidates@.len() < MAX_CANDIDATES);
                                        }
                                    }
                                    let ghost before = *self;
                                    self.add_candidate(
                                        AddrOptId { addr: rec.addr, id: Some(rec.id) },
                                    );
                                    proof {
                                        if bounded {
                                            assert forall|k: int| 0 <= k < i + 1 implies self.tracks(
                                                (AddrOptId {
                                                    addr: (#[trigger] list@[k]).addr,
                                                    id: Some(list@[k].id),
                                                }),
                                            ) by {
                                                if k < i {
                                                    assert(before.tracks(
                                                        AddrOptId {
                                                            addr: list@[k].addr,
                                                            id: Some(list@[k].id),
                                                        },
                                                    ));
                                                }
                                            }
                                        }
                                    }
                                    i += 1;
                                }
                            },
                            None => {},
                        }
                    },
                    _ => {},
                }
            },
            Response::Error(_) => {
                self.mark(tx.tx_id, false);
            },
            Response::Timeout => {
                self.mark(tx.tx_id, false);
            },
        }
    }

    /// Marks the candidate whose in-flight query has the given transaction
    /// id as answered (`ok`) or failed.
    fn mark(&mut self, tx_id: transaction::Id, ok: bool)
        requires
            old(self).wf(),
        ensures
            final(self).wf(),
            final(self).target == old(self).target,
            final(self).supported_addr == old(self).supported_addr,
            final(self).candidates@ == spec_marked(old(self).candidates@, tx_id, ok),
    {
        let mut i: usize = 0;
        while i < self.candidates.len()
            invariant
                self.wf(),
                *self == *old(self),
                self.target == old(self).target,
                self.supported_addr == old(self).supported_addr,
                i <= self.candidates@.len(),
                forall|j: int|
                    0 <= j < i ==> !in_flight_under(#[trigger] self.candidates@[j], tx_id),
            decreases self.candidates@.len() - i,
        {
            let hit = match self.candidates[i].state {
                CandidateState::InFlight(t) => t.0 == tx_id.0,
                _ => false,
            };
            if hit {
                let ghost pre = self.candidates@;
                let mut c = self.candidates[i];
                c.state = if ok {
                    CandidateState::Responded
                } else {
                    CandidateState::Failed
                };
                self.candidates[i] = c;
                proof {
                    assert forall|x: int, y: int|
                        0 <= x < y < self.candidates@.len() implies dist_opt(
                        self.target,
                        #[trigger] self.candidates@[x].addr_opt_id,
                    ) <= dist_opt(self.target, #[trigger] self.candidates@[y].addr_opt_id)
                        && self.candidates@[x].addr_opt_id != self.candidates@[y].addr_opt_id by {
                        assert(self.candidates@[x].addr_opt_id == pre[x].addr_opt_id);
                        assert(self.candidates@[y].addr_opt_id == pre[y].addr_opt_id);
                    }
                    assert(in_flight_under(pre[i as int], tx_id));
                    let k = choose|k: int|
                        0 <= k < pre.len() && in_flight_under(#[trigger] pre[k], tx_id) && forall|
                            j: int,
                        | 0 <= j < k ==> !in_flight_under(#[trigger] pre[j], tx_id);
                    assert(k == i as int) by {
                        if k < i as int {
                            assert(!in_flight_under(pre[k], tx_id));
                        }
                        if k > i as int {
                            assert(!in_flight_under(pre[i as int], tx_id));
                        }
                    }
                    assert(self.candidates@ =~= spec_marked(pre, tx_id, ok));
                }
                return;
            }
            i += 1;
        }
        proof {
            assert(self.candidates@ == spec_marked(old(self).candidates@, tx_id, ok));
        }
    }

    /// The first `Pending` candidate among the closest `K_CLOSEST`, if
    /// any.
    fn find_pending_in_closest(&self) -> (r: Option<usize>)
        ensures
            r matches Some(i) ==> i < self.candidates@.len() && i < K_CLOSEST
                && self.candidates@[i as int].state is Pending,
            r is None ==> count_pending(
                self.candidates@,
                if self.candidates@.len() < K_CLOSEST {
                    self.candidates@.len() as int
                } else {
                    K_CLOSEST as int
                },
            ) == 0,
    {
        let end = if self.candidates.len() < K_CLOSEST {
            self.candidates.len()
        } else {
            K_CLOSEST
        };
        let mut i: usize = 0;
        while i < end
            invariant
                i <= end,
                end == if self.candidates@.len() < K_CLOSEST {
                    self.candidates@.len() as int
                } else {
                    K_CLOSEST as int
                },
                end <= self.candidates@.len(),
                count_pending(self.candidates@, i as int) == 0,
            decreases end - i,
        {
            if matches!(self.candidates[i].state, CandidateState::Pending) {
                return Some(i);
            }
            i += 1;
        }
        None
    }

    /// Authors one `find_node` query toward the first pending candidate
    /// among the closest, if fewer than `ALPHA` queries are in flight and a
    /// free transaction id exists; reports whether it made progress.
    #[verifier::rlimit(100)]
    fn author_one(&mut self, config: &Config, tx_manager: &Transactions, buffer: &mut Buffer) -> (progress: bool)
        requires
            old(self).wf(),
            match config.client_version {
                Some(vv) => vv@.len() <= crate::krpc::MAX_FIELD_LEN,
                None => true,
            },
        ensures
            final(self).wf(),
            final(self).target == old(self).target,
            final(self).supported_addr == old(self).supported_addr,
            final(self).candidates@.len() == old(self).candidates@.len(),
            forall|k: int|
                0 <= k < old(self).candidates@.len() ==> (
                #[trigger] final(self).candidates@[k]).addr_opt_id
                    == old(self).candidates@[k].addr_opt_id,
            final(buffer).inbound == old(buffer).inbound,
            !progress ==> *final(buffer) == *old(buffer) && final(self).candidates@ == old(
                self,
            ).candidates@,
            !progress ==> spec_count_in_flight(
                final(self).candidates@,
                final(self).candidates@.len() as int,
            ) >= ALPHA as int || count_pending(
                final(self).candidates@,
                closest_bound(final(self).candidates@.len() as int),
            ) == 0 || tx_manager@.len() >= 0x10000,
            progress ==> final(buffer).outbound@.len() == old(buffer).outbound@.len() + 1
                && final(buffer).outbound@.drop_last() == old(buffer).outbound@ && is_lookup_query(
                final(buffer).outbound@.last(),
                *config,
                old(self).target,
            ) && exists|c: int|
                0 <= c < final(self).candidates@.len() && (
                #[trigger] final(self).candidates@[c]).addr_opt_id
                    == final(buffer).outbound@.last().addr_opt_id,
            progress ==> count_pending(
                final(self).candidates@,
                closest_bound(final(self).candidates@.len() as int),
            ) < count_pending(
                old(self).candidates@,
                closest_bound(old(self).candidates@.len() as int),
            ),
    {
        if self.count_in_flight() >= ALPHA {
            return false;
        }
        match self.find_pending_in_closest() {
            None => false,
            Some(i) => {
                let start: u16 = rand::random();
                match tx_manager.next_tx_id(start) {
                    None => false,
                    Some(tx_id) => {
                        let method = find_node_method();
                        buffer.write_query(
                            tx_id,
                            &method,
                            config.local_id,
                            Some(self.target),
                            self.candidates[i].addr_opt_id,
                            config.default_query_timeout,
                            &config.client_version,
                        );
                        let ghost pre = self.candidates@;
                        let ghost upto = closest_bound(pre.len() as int);
                        let mut c = self.candidates[i];
                        c.state = CandidateState::InFlight(tx_id);
                        self.candidates[i] = c;
                        proof {
                            lemma_count_pending_update(pre, i as int, c, upto);
                            assert forall|x: int, y: int|
                                0 <= x < y < self.candidates@.len() implies dist_opt(
                                self.target,
                                #[trigger] self.candidates@[x].addr_opt_id,
                            ) <= dist_opt(
                                self.target,
                                #[trigger] self.candidates@[y].addr_opt_id,
                            ) && self.candidates@[x].addr_opt_id
                                != self.candidates@[y].addr_opt_id by {
                                assert(self.candidates@[x].addr_opt_id == pre[x].addr_opt_id);
                                assert(self.candidates@[y].addr_opt_id == pre[y].addr_opt_id);
                            }
                        }
                        true
                    },
                }
            },
        }
    }

    /// Promotes pending candidates: while fewer than `ALPHA` queries are
    /// in flight and some candidate among the closest is still pending,
    /// authors a `find_node` query toward it. Stops early when no free
    /// transaction id is available.
    pub fn start_queries(&mut self, config: &Config, tx_manager: &Transactions, buffer: &mut Buffer)
        requires
            old(self).wf(),
            match config.client_version {
                Some(vv) => vv@.len() <= crate::krpc::MAX_FIELD_LEN,
                None => true,
            },
        ensures
            final(self).wf(),
            final(self).target == old(self).target,
            final(self).supported_addr == old(self).supported_addr,
            final(self).candidates@.len() == old(self).candidates@.len(),
            forall|k: int|
                0 <= k < old(self).candidates@.len() ==> (
                #[trigger] final(self).candidates@[k]).addr_opt_id
                    == old(self).candidates@[k].addr_opt_id,
            final(buffer).inbound == old(buffer).inbound,
            spec_count_in_flight(final(self).candidates@, final(self).candidates@.len() as int)
                >= ALPHA as int || count_pending(
                final(self).candidates@,
                closest_bound(final(self).candidates@.len() as int),
            ) == 0 || tx_manager@.len() >= 0x10000,
            (spec_count_in_flight(old(self).candidates@, old(self).candidates@.len() as int)
                < ALPHA as int && count_pending(
                old(self).candidates@,
                closest_bound(old(self).candidates@.len() as int),
            ) > 0 && tx_manager@.len() < 0x10000) ==> final(buffer).outbound@.len() > old(
                buffer,
            ).outbound@.len(),
            final(buffer).outbound@.len() >= old(buffer).outbound@.len(),
            final(buffer).outbound@.subrange(0, old(buffer).outbound@.len() as int) == old(
                buffer,
            ).outbound@,
            forall|j: int|
                old(buffer).outbound@.len() <= j < final(buffer).outbound@.len() ==> is_lookup_query(
                    #[trigger] final(buffer).outbound@[j],
                    *config,
                    old(self).target,
                ) && exists|c: int|
                    0 <= c < final(self).candidates@.len() && (
                    #[trigger] final(self).candidates@[c]).addr_opt_id
                        == final(buffer).outbound@[j].addr_opt_id,
    {
        loop
            invariant
                self.wf(),
                self.target == old(self).target,
                self.supported_addr == old(self).supported_addr,
                self.candidates@.len() == old(self).candidates@.len(),
                forall|k: int|
                    0 <= k < old(self).candidates@.len() ==> (
                    #[trigger] self.candidates@[k]).addr_opt_id
                        == old(self).candidates@[k].addr_opt_id,
                buffer.inbound == old(buffer).inbound,
                buffer.outbound@.len() > old(buffer).outbound@.len() || (self.candidates@ == old(
                    self,
                ).candidates@ && buffer.outbound@ == old(buffer).outbound@),
                buffer.outbound@.len() >= old(buffer).outbound@.len(),
                buffer.outbound@.subrange(0, old(buffer).outbound@.len() as int) == old(
                    buffer,
                ).outbound@,
                forall|j: int|
                    old(buffer).outbound@.len() <= j < buffer.outbound@.len() ==> is_lookup_query(
                        #[trigger] buffer.outbound@[j],
                        *config,
                        old(self).target,
                    ) && exists|c: int|
                        0 <= c < self.candidates@.len() && (
                        #[trigger] self.candidates@[c]).addr_opt_id
                            == buffer.outbound@[j].addr_opt_id,
                match config.client_version {
                    Some(vv) => vv@.len() <= crate::krpc::MAX_FIELD_LEN,
                    None => true,
                },
            decreases count_pending(
                self.candidates@,
                closest_bound(self.candidates@.len() as int),
            ),
        {
            let ghost pre_out = buffer.outbound@;
            let ghost pre_cands = self.candidates@;
            let progress = self.author_one(config, tx_manager, buffer);
            proof {
                lemma_count_pending_nonneg(
                    self.candidates@,
                    closest_bound(self.candidates@.len() as int),
                );
                assert(buffer.outbound@.subrange(0, old(buffer).outbound@.len() as int) =~= old(
                    buffer,
                ).outbound@) by {
                    if progress {
                        assert(buffer.outbound@.drop_last() == pre_out);
                        assert(forall|x: int|
                            0 <= x < pre_out.len() ==> #[trigger] buffer.outbound@[x] == pre_out[x]);
                    }
                }
                assert forall|j: int|
                    old(buffer).outbound@.len() <= j < buffer.outbound@.len() implies is_lookup_query(
                    #[trigger] buffer.outbound@[j],
                    *config,
                    old(self).target,
                ) && exists|c: int|
                    0 <= c < self.candidates@.len() && (
                    #[trigger] self.candidates@[c]).addr_opt_id
                        == buffer.outbound@[j].addr_opt_id by {
                    if progress {
                        if j < buffer.outbound@.len() - 1 {
                            assert(buffer.outbound@[j] == pre_out[j]);
                            let c = choose|c: int|
                                0 <= c < pre_cands.len() && (#[trigger] pre_cands[c]).addr_opt_id
                                    == pre_out[j].addr_opt_id;
                            assert(self.candidates@[c].addr_opt_id == pre_cands[c].addr_opt_id);
                        } else {
                            assert(buffer.outbound@[j] == buffer.outbound@.last());
                        }
                    }
                }
            }
            if !progress {
                return;
            }
        }
    }
}

/// The distance key of a candidate, as an id value.
fn exec_dist_opt(target: &Id, a: &AddrOptId) -> (r: Id)
    ensures
        r@ == dist_opt(*target, *a),
{
    match &a.id {
        Some(id) => id.distance(target),
        None => Id { hi: 0, lo: 0 },
    }
}

/// The method name of a `find_node` query.
pub fn find_node_method() -> (r: Vec<u8>)
    ensures
        r@ == seq![102u8, 105u8, 110u8, 100u8, 95u8, 110u8, 111u8, 100u8, 101u8],
        r@.len() <= crate::krpc::MAX_FIELD_LEN,
{
    let mut r: Vec<u8> = Vec::new();
    r.push(102);
    r.push(105);
    r.push(110);
    r.push(100);
    r.push(95);
    r.push(110);
    r.push(111);
    r.push(100);
    r.push(101);
    proof {
        assert(r@ =~= seq![102u8, 105u8, 110u8, 100u8, 95u8, 110u8, 111u8, 100u8, 101u8]);
    }
    r
}

/// The method name of a `ping` query.
pub fn ping_method() -> (r: Vec<u8>)
    ensures
        r@ == seq![112u8, 105u8, 110u8, 103u8],
        r@.len() <= crate::krpc::MAX_FIELD_LEN,
{
    let mut r: Vec<u8> = Vec::new();
    r.push(112);
    r.push(105);
    r.push(110);
    r.push(103);
    proof {
        assert(r@ =~= seq![112u8, 105u8, 110u8, 103u8]);
    }
    r
}

} // verus!
