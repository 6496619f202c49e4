//! The Kademlia routing table: per-contact liveness records, k-buckets
//! over the id space, and the dynamically splitting table around the
//! local pivot id.

use vstd::prelude::*;
use crate::id::{AddrId, Id, IdRange};
use crate::krpc::Kind;
use crate::transaction;
use crate::{Instant, INSTANT_LIMIT, MAX_BUCKET_SIZE, TIMEOUT_INTERVAL_MS};

verus! {

/// The derived liveness of a contact at a given time.
#[derive(Clone, Copy, Debug, PartialEq, Eq, Structural)]
pub enum NodeState {
    Good,
    Questionable,
    Bad,
}

/// A contact held by the routing table: its address and id together with
/// the liveness bookkeeping described by the protocol.
#[derive(Clone, Copy, Debug)]
pub struct Node {
    pub addr_id: AddrId,
    pub karma: i8,
    pub next_response_deadline: Instant,
    pub next_query_deadline: Instant,
    pub ping_tx_id: Option<transaction::Id>,
}

impl Node {
    /// The contact's liveness at time `now`: `Good` while either deadline
    /// lies ahead, otherwise `Bad` once its karma has sunk below `-2`,
    /// otherwise `Questionable`.
    pub open spec fn spec_state(self, now: Instant) -> NodeState {
        if now < self.next_response_deadline {
            NodeState::Good
        } else if now < self.next_query_deadline {
            NodeState::Good
        } else if self.karma < -2 {
            NodeState::Bad
        } else {
            NodeState::Questionable
        }
    }

    /// The deadline after which the contact should be pinged.
    pub open spec fn spec_timeout(self) -> Instant {
        if self.next_response_deadline >= self.next_query_deadline {
            self.next_response_deadline
        } else {
            self.next_query_deadline
        }
    }

    /// A contact's state can only move away from `Good` as time passes
    /// with no messages: `Questionable` and `Bad` are stable.
    pub proof fn lemma_state_monotone(self, t1: Instant, t2: Instant)
        requires
            t1 <= t2,
        ensures
            self.spec_state(t1) is Questionable ==> self.spec_state(t2) is Questionable,
            self.spec_state(t1) is Bad ==> self.spec_state(t2) is Bad,
    {
    }

    /// A fresh record: neutral karma, both deadlines one liveness interval
    /// ahead, no ping in flight.
    pub fn new(addr_id: AddrId, now: Instant) -> (r: Node)
        requires
            now <= INSTANT_LIMIT,
        ensures
            r.addr_id == addr_id,
            r.karma == 0,
            r.next_response_deadline == now + TIMEOUT_INTERVAL_MS,
            r.next_query_deadline == now + TIMEOUT_INTERVAL_MS,
            r.ping_tx_id is None,
    {
        Node {
            addr_id,
            karma: 0,
            next_response_deadline: now + TIMEOUT_INTERVAL_MS,
            next_query_deadline: now + TIMEOUT_INTERVAL_MS,
            ping_tx_id: None,
        }
    }

    /// Returns the contact's address and id.
    pub fn addr_id(&self) -> (r: AddrId)
        ensures
            r == self.addr_id,
    {
        self.addr_id
    }

    /// Returns the transaction id of the in-flight ping, if one is active.
    pub fn ping_tx_id(&self) -> (r: Option<transaction::Id>)
        ensures
            r == self.ping_tx_id,
    {
        self.ping_tx_id
    }

    /// Records that the contact was pinged with the given transaction id.
    pub fn on_ping(&mut self, tx_id: transaction::Id)
        ensures
            *final(self) == (Node { ping_tx_id: Some(tx_id), ..*old(self) }),
    {
        self.ping_tx_id = Some(tx_id);
    }

    /// Returns the next response deadline.
    pub fn next_response_deadline(&self) -> (r: Instant)
        ensures
            r == self.next_response_deadline,
    {
        self.next_response_deadline
    }

    /// Returns the next query deadline.
    pub fn next_query_deadline(&self) -> (r: Instant)
        ensures
            r == self.next_query_deadline,
    {
        self.next_query_deadline
    }

    /// The deadline when the contact should be pinged: the later of its
    /// two liveness deadlines.
    pub fn timeout(&self) -> (r: Instant)
        ensures
            r == self.spec_timeout(),
    {
        if self.next_response_deadline >= self.next_query_deadline {
            self.next_response_deadline
        } else {
            self.next_query_deadline
        }
    }

    /// The contact's liveness at time `now`.
    pub fn state_with_now(&self, now: Instant) -> (r: NodeState)
        ensures
            r == self.spec_state(now),
    {
        if now < self.next_response_deadline {
            NodeState::Good
        } else if now < self.next_query_deadline {
            NodeState::Good
        } else if self.karma < -2 {
            NodeState::Bad
        } else {
            NodeState::Questionable
        }
    }

    /// Whether the given wire transaction id matches the in-flight ping,
    /// in which case the ping is considered answered.
    pub open spec fn spec_ping_after(
        self,
        tx_id: Option<transaction::Id>,
    ) -> Option<transaction::Id> {
        if tx_id is Some && self.ping_tx_id == tx_id {
            None
        } else {
            self.ping_tx_id
        }
    }

    /// Karma one higher, capped at 3.
    pub open spec fn spec_karma_up(self) -> i8 {
        if self.karma >= 3 {
            3
        } else {
            (self.karma + 1) as i8
        }
    }

    /// Karma one lower, saturating at the type's floor.
    pub open spec fn spec_karma_down(self) -> i8 {
        if self.karma == i8::MIN {
            i8::MIN
        } else {
            (self.karma - 1) as i8
        }
    }

    /// The record after a message of the given kind arrives at `now`:
    /// responses refresh the response deadline, reward karma, and clear a
    /// matching ping; queries refresh the query deadline only; errors
    /// refresh the response deadline, penalize karma, and clear a matching
    /// ping; unrecognized kinds only penalize karma and clear the ping.
    pub open spec fn spec_after_msg(
        self,
        kind: Kind<'_>,
        tx_id: Option<transaction::Id>,
        now: Instant,
    ) -> Node {
        match kind {
            Kind::Response => Node {
                ping_tx_id: self.spec_ping_after(tx_id),
                next_response_deadline: (now + TIMEOUT_INTERVAL_MS) as u64,
                karma: self.spec_karma_up(),
                ..self
            },
            Kind::Query => Node { next_query_deadline: (now + TIMEOUT_INTERVAL_MS) as u64, ..self },
            Kind::Error => Node {
                ping_tx_id: self.spec_ping_after(tx_id),
                next_response_deadline: (now + TIMEOUT_INTERVAL_MS) as u64,
                karma: self.spec_karma_down(),
                ..self
            },
            Kind::Unknown(_) => Node {
                ping_tx_id: self.spec_ping_after(tx_id),
                karma: self.spec_karma_down(),
                ..self
            },
        }
    }

    /// Applies a received message of the given kind to the record.
    pub fn on_msg_received(
        &mut self,
        kind: &Kind<'_>,
        tx_id: Option<&transaction::Id>,
        now: Instant,
    )
        requires
            now <= INSTANT_LIMIT,
        ensures
            *final(self) == old(self).spec_after_msg(
                *kind,
                match tx_id {
                    Some(t) => Some(*t),
                    None => None,
                },
                now,
            ),
    {
        match kind {
            Kind::Response => {
                self.clear_matching_ping(tx_id);
                self.next_response_deadline = now + TIMEOUT_INTERVAL_MS;
                if self.karma >= 3 {
                    self.karma = 3;
                } else {
                    self.karma = self.karma + 1;
                }
            },
            Kind::Query => {
                self.next_query_deadline = now + TIMEOUT_INTERVAL_MS;
            },
            Kind::Error => {
                self.clear_matching_ping(tx_id);
                self.next_response_deadline = now + TIMEOUT_INTERVAL_MS;
                if self.karma > i8::MIN {
                    self.karma = self.karma - 1;
                }
            },
            Kind::Unknown(_) => {
                self.clear_matching_ping(tx_id);
                if self.karma > i8::MIN {
                    self.karma = self.karma - 1;
                }
            },
        }
    }

    /// The record after an outbound transaction to this contact timed out:
    /// karma is penalized and a matching ping is cleared.
    pub open spec fn spec_after_timeout(self, tx_id: transaction::Id) -> Node {
        Node {
            karma: self.spec_karma_down(),
            ping_tx_id: self.spec_ping_after(Some(tx_id)),
            ..self
        }
    }

    /// Applies an outbound-transaction timeout to the record.
    pub fn on_resp_timeout(&mut self, tx_id: &transaction::Id)
        ensures
            *final(self) == old(self).spec_after_timeout(*tx_id),
    {
        if self.karma > i8::MIN {
            self.karma = self.karma - 1;
        }
        let clear = match &self.ping_tx_id {
            Some(p) => p.0 == tx_id.0,
            None => false,
        };
        if clear {
            self.ping_tx_id = None;
        }
    }

    /// Clears the in-flight ping if the given transaction id matches it.
    pub fn clear_matching_ping(&mut self, tx_id: Option<&transaction::Id>)
        ensures
            *final(self) == (Node {
                ping_tx_id: old(self).spec_ping_after(
                    match tx_id {
                        Some(t) => Some(*t),
                        None => None,
                    },
                ),
                ..*old(self)
            }),
    {
        let clear = match (tx_id, &self.ping_tx_id) {
            (Some(t), Some(p)) => p.0 == t.0,
            _ => false,
        };
        if clear {
            self.ping_tx_id = None;
        }
    }
}

/// Whether some record in the sequence carries the given address and id.
pub open spec fn seq_contains_addr(s: Seq<Node>, a: AddrId) -> bool {
    exists|i: int| 0 <= i < s.len() && s[i].addr_id == a
}

/// The index of the record with the given address and id.
pub open spec fn index_of_addr(s: Seq<Node>, a: AddrId) -> int {
    choose|i: int| 0 <= i < s.len() && s[i].addr_id == a
}

/// No two records in the sequence share an address-id pair.
pub open spec fn distinct_addrs(s: Seq<Node>) -> bool {
    forall|i: int, j: int| 0 <= i < j < s.len() ==> s[i].addr_id != s[j].addr_id
}

/// The record a fresh contact gets, as a specification value.
pub open spec fn spec_fresh_node(addr_id: AddrId, now: Instant) -> Node {
    Node {
        addr_id,
        karma: 0,
        next_response_deadline: (now + TIMEOUT_INTERVAL_MS) as u64,
        next_query_deadline: (now + TIMEOUT_INTERVAL_MS) as u64,
        ping_tx_id: None,
    }
}

/// The records that are not `Bad` at time `now`.
pub open spec fn spec_purge(s: Seq<Node>, now: Instant) -> Seq<Node> {
    s.filter(|n: Node| n.spec_state(now) != NodeState::Bad)
}

/// Every element of a filtered sequence occurs in the original.
proof fn lemma_filter_sub(s: Seq<Node>, p: spec_fn(Node) -> bool)
    ensures
        forall|i: int| 0 <= i < s.filter(p).len() ==> s.contains(#[trigger] s.filter(p)[i]),
    decreases s.len(),
{
    reveal(Seq::filter);
    if s.len() > 0 {
        let s0 = s.drop_last();
        lemma_filter_sub(s0, p);
        assert forall|i: int|
            0 <= i < s.filter(p).len() implies s.contains(#[trigger] s.filter(p)[i]) by {
            if i < s0.filter(p).len() {
                assert(s0.contains(s0.filter(p)[i]));
                let k = choose|k: int| 0 <= k < s0.len() && s0[k] == s0.filter(p)[i];
                assert(s[k] == s.filter(p)[i]);
            } else {
                assert(s.filter(p)[i] == s.last());
            }
        }
    }
}

/// Filtering keeps address-id pairs pairwise distinct.
proof fn lemma_filter_distinct(s: Seq<Node>, p: spec_fn(Node) -> bool)
    requires
        distinct_addrs(s),
    ensures
        distinct_addrs(s.filter(p)),
    decreases s.len(),
{
    reveal(Seq::filter);
    if s.len() > 0 {
        let s0 = s.drop_last();
        lemma_filter_distinct(s0, p);
        lemma_filter_sub(s0, p);
        if p(s.last()) {
            assert forall|i: int, j: int|
                0 <= i < j < s.filter(p).len() implies s.filter(p)[i].addr_id
                != s.filter(p)[j].addr_id by {
                if j == s.filter(p).len() - 1 {
                    assert(s0.contains(s0.filter(p)[i]));
                    let k = choose|k: int| 0 <= k < s0.len() && s0[k] == s0.filter(p)[i];
                    assert(s[k].addr_id != s[s.len() - 1].addr_id);
                }
            }
        }
    }
}

/// A k-bucket: an inclusive range of the id space, at most
/// `MAX_BUCKET_SIZE` contact records whose ids all lie in that range, and
/// the deadline after which the bucket should be refreshed.
#[derive(Clone, Debug)]
pub struct Bucket {
    pub range: IdRange,
    pub nodes: Vec<Node>,
    pub refresh_deadline: Instant,
}

impl Bucket {
    /// Bucket well-formedness: the range is proper, the bucket is within
    /// capacity, every record's id lies in the range, and no two records
    /// share an address-id pair.
    pub open spec fn wf(self) -> bool {
        &&& self.range.wf()
        &&& self.nodes@.len() <= MAX_BUCKET_SIZE
        &&& forall|i: int|
            0 <= i < self.nodes@.len() ==> self.range.spec_contains(
                #[trigger] self.nodes@[i].addr_id.id,
            )
        &&& distinct_addrs(self.nodes@)
    }

    /// An empty bucket over the given range.
    pub fn new(range: IdRange, refresh_deadline: Instant) -> (r: Bucket)
        requires
            range.start@ <= range.end@,
        ensures
            r.range == range,
            r.nodes@.len() == 0,
            r.refresh_deadline == refresh_deadline,
            r.wf(),
    {
        Bucket { range, nodes: Vec::new(), refresh_deadline }
    }

    /// Resets the refresh deadline.
    pub fn set_refresh_deadline(&mut self, deadline: Instant)
        ensures
            *final(self) == (Bucket { refresh_deadline: deadline, ..*old(self) }),
    {
        self.refresh_deadline = deadline;
    }

    /// The index of the record with the given address-id pair, if present.
    pub fn position_of(&self, addr_id: &AddrId) -> (r: Option<usize>)
        ensures
            r matches Some(i) ==> i < self.nodes@.len() && self.nodes@[i as int].addr_id
                == *addr_id,
            r is None ==> !seq_contains_addr(self.nodes@, *addr_id),
    {
        let mut i: usize = 0;
        while i < self.nodes.len()
            invariant
                i <= self.nodes@.len(),
                forall|j: int| 0 <= j < i ==> self.nodes@[j].addr_id != *addr_id,
            decreases self.nodes@.len() - i,
        {
            if self.nodes[i].addr_id == *addr_id {
                return Some(i);
            }
            i += 1;
        }
        None
    }

    /// The number of records whose state at `now` is `Questionable`; the
    /// protocol allows at most this many replacement records.
    pub fn max_replacement_nodes(&self, now: Instant) -> (r: usize)
        ensures
            r == spec_count_questionable(self.nodes@, now),
    {
        let mut count: usize = 0;
        let mut i: usize = 0;
        while i < self.nodes.len()
            invariant
                i <= self.nodes@.len(),
                count == spec_count_questionable(self.nodes@.subrange(0, i as int), now),
                count <= i,
            decreases self.nodes@.len() - i,
        {
            proof {
                reveal(Seq::filter);
                assert(self.nodes@.subrange(0, i + 1).drop_last() =~= self.nodes@.subrange(
                    0,
                    i as int,
                ));
            }
            if matches!(self.nodes[i].state_with_now(now), NodeState::Questionable) {
                count += 1;
            }
            i += 1;
        }
        proof {
            assert(self.nodes@.subrange(0, self.nodes@.len() as int) =~= self.nodes@);
        }
        count
    }

    /// Appends a fresh record for the contact when the bucket has room and
    /// does not hold the pair yet, and then resets the refresh deadline.
    pub fn try_insert(&mut self, addr_id: AddrId, refresh_deadline: Instant, now: Instant) -> (r:
        bool)
        requires
            old(self).wf(),
            old(self).range.spec_contains(addr_id.id),
            now <= INSTANT_LIMIT,
        ensures
            final(self).wf(),
            r == (old(self).nodes@.len() < MAX_BUCKET_SIZE && !seq_contains_addr(
                old(self).nodes@,
                addr_id,
            )),
            r ==> final(self).nodes@ == old(self).nodes@.push(spec_fresh_node(addr_id, now))
                && final(self).range == old(self).range && final(self).refresh_deadline
                == refresh_deadline,
            !r ==> *final(self) == *old(self),
    {
        if self.nodes.len() >= MAX_BUCKET_SIZE {
            return false;
        }
        match self.position_of(&addr_id) {
            Some(_) => false,
            None => {
                self.nodes.push(Node::new(addr_id, now));
                self.refresh_deadline = refresh_deadline;
                true
            },
        }
    }

    /// Removes every record that is `Bad` at `now`.
    pub fn purge_bad(&mut self, now: Instant)
        ensures
            final(self).nodes@ == spec_purge(old(self).nodes@, now),
            final(self).range == old(self).range,
            final(self).refresh_deadline == old(self).refresh_deadline,
    {
        let ghost p = |n: Node| n.spec_state(now) != NodeState::Bad;
        let mut kept: Vec<Node> = Vec::new();
        let mut i: usize = 0;
        while i < self.nodes.len()
            invariant
                i <= self.nodes@.len(),
                kept@ == self.nodes@.subrange(0, i as int).filter(p),
                p == (|n: Node| n.spec_state(now) != NodeState::Bad),
            decreases self.nodes@.len() - i,
        {
            proof {
                reveal(Seq::filter);
                assert(self.nodes@.subrange(0, i + 1).drop_last() =~= self.nodes@.subrange(
                    0,
                    i as int,
                ));
            }
            let n = self.nodes[i];
            if !matches!(n.state_with_now(now), NodeState::Bad) {
                kept.push(n);
            }
            i += 1;
        }
        proof {
            assert(self.nodes@.subrange(0, self.nodes@.len() as int) =~= self.nodes@);
        }
        self.nodes = kept;
    }
}

/// The number of records in the sequence that are `Questionable` at `now`.
pub open spec fn spec_count_questionable(s: Seq<Node>, now: Instant) -> int {
    s.filter(|n: Node| n.spec_state(now) is Questionable).len() as int
}

/// The record sequence after the on-receive merge reaches a located
/// bucket: a held contact is updated in place; an unrecognized kind never
/// creates a record; otherwise a fresh record is appended if there is
/// room, else every `Bad` record is evicted first and the fresh record is
/// appended only if that opened a slot.
pub open spec fn spec_merge_nodes(
    nodes: Seq<Node>,
    addr_id: AddrId,
    kind: Kind<'_>,
    tx_id: Option<transaction::Id>,
    now: Instant,
) -> Seq<Node> {
    if seq_contains_addr(nodes, addr_id) {
        let i = index_of_addr(nodes, addr_id);
        nodes.update(i, nodes[i].spec_after_msg(kind, tx_id, now))
    } else if kind is Unknown {
        nodes
    } else if nodes.len() < MAX_BUCKET_SIZE {
        nodes.push(spec_fresh_node(addr_id, now))
    } else if spec_purge(nodes, now).len() < MAX_BUCKET_SIZE {
        spec_purge(nodes, now).push(spec_fresh_node(addr_id, now))
    } else {
        spec_purge(nodes, now)
    }
}

/// Whether the merge appends a fresh record, in which case the bucket's
/// refresh deadline is also reset.
pub open spec fn spec_merge_inserts(
    nodes: Seq<Node>,
    addr_id: AddrId,
    kind: Kind<'_>,
    now: Instant,
) -> bool {
    &&& !seq_contains_addr(nodes, addr_id)
    &&& !(kind is Unknown)
    &&& (nodes.len() < MAX_BUCKET_SIZE || spec_purge(nodes, now).len() < MAX_BUCKET_SIZE)
}

/// The midpoint at which a bucket's range is split: `start + (end - start) / 2`.
pub open spec fn mid_of(range: IdRange) -> nat {
    (range.start@ + (range.end@ - range.start@) / 2) as nat
}

impl Bucket {
    /// Applies the on-receive merge to this bucket, which must be the one
    /// whose range holds the contact's id.
    pub fn on_msg_received(
        &mut self,
        addr_id: AddrId,
        kind: &Kind<'_>,
        tx_id: Option<&transaction::Id>,
        refresh_deadline: Instant,
        now: Instant,
    )
        requires
            old(self).wf(),
            old(self).range.spec_contains(addr_id.id),
            now <= INSTANT_LIMIT,
        ensures
            final(self).wf(),
            final(self).nodes@ == spec_merge_nodes(
                old(self).nodes@,
                addr_id,
                *kind,
                match tx_id {
                    Some(t) => Some(*t),
                    None => None,
                },
                now,
            ),
            final(self).range == old(self).range,
            final(self).refresh_deadline == if spec_merge_inserts(
                old(self).nodes@,
                addr_id,
                *kind,
                now,
            ) {
                refresh_deadline
            } else {
                old(self).refresh_deadline
            },
    {
        match self.position_of(&addr_id) {
            Some(i) => {
                proof {
                    let j = index_of_addr(self.nodes@, addr_id);
                    assert(self.nodes@[j].addr_id == addr_id);
                    if j != i as int {
                        assert(self.nodes@[j].addr_id != self.nodes@[i as int].addr_id);
                    }
                }
                let mut n = self.nodes[i];
                n.on_msg_received(kind, tx_id, now);
                self.nodes[i] = n;
            },
            None => {
                if matches!(kind, Kind::Unknown(_)) {
                    return;
                }
                if self.nodes.len() < MAX_BUCKET_SIZE {
                    self.nodes.push(Node::new(addr_id, now));
                    self.refresh_deadline = refresh_deadline;
                } else {
                    self.purge_bad(now);
                    proof {
                        lemma_filter_distinct(
                            old(self).nodes@,
                            |n: Node| n.spec_state(now) != NodeState::Bad,
                        );
                        lemma_filter_sub(
                            old(self).nodes@,
                            |n: Node| n.spec_state(now) != NodeState::Bad,
                        );
                        broadcast use vstd::prelude::Seq::lemma_filter_len;

                        assert forall|i: int|
                            0 <= i < self.nodes@.len() implies old(self).range.spec_contains(
                            #[trigger] self.nodes@[i].addr_id.id,
                        ) && self.nodes@[i].addr_id != addr_id by {
                            assert(old(self).nodes@.contains(self.nodes@[i]));
                            let k = choose|k: int|
                                0 <= k < old(self).nodes@.len() && old(self).nodes@[k]
                                    == self.nodes@[i];
                            assert(old(self).range.spec_contains(old(self).nodes@[k].addr_id.id));
                            assert(!seq_contains_addr(old(self).nodes@, addr_id));
                            assert(old(self).nodes@[k].addr_id != addr_id);
                        }
                    }
                    if self.nodes.len() < MAX_BUCKET_SIZE {
                        self.nodes.push(Node::new(addr_id, now));
                        self.refresh_deadline = refresh_deadline;
                    }
                }
            },
        }
    }

    /// Splits the bucket at the midpoint of its range: the lower half
    /// keeps `[start, mid]`, the upper half `[mid.next, end]`, and every
    /// record moves to the half whose range holds its id.
    pub fn split(self) -> (r: (Bucket, Bucket))
        requires
            self.wf(),
            self.range.start@ < self.range.end@,
        ensures
            r.0.range.start == self.range.start,
            r.0.range.end@ == mid_of(self.range),
            r.1.range.start@ == mid_of(self.range) + 1,
            r.1.range.end == self.range.end,
            r.0.nodes@ == self.nodes@.filter(|n: Node| n.addr_id.id@ <= mid_of(self.range)),
            r.1.nodes@ == self.nodes@.filter(|n: Node| n.addr_id.id@ > mid_of(self.range)),
            r.0.refresh_deadline == self.refresh_deadline,
            r.1.refresh_deadline == self.refresh_deadline,
            r.0.wf(),
            r.1.wf(),
    {
        let ghost p_lo = |n: Node| n.addr_id.id@ <= mid_of(self.range);
        let ghost p_hi = |n: Node| n.addr_id.id@ > mid_of(self.range);
        let mid = self.range.end.middle(&self.range.start);
        let upper_start = mid.next();
        let mut lower_nodes: Vec<Node> = Vec::new();
        let mut upper_nodes: Vec<Node> = Vec::new();
        let mut i: usize = 0;
        while i < self.nodes.len()
            invariant
                i <= self.nodes@.len(),
                lower_nodes@ == self.nodes@.subrange(0, i as int).filter(p_lo),
                upper_nodes@ == self.nodes@.subrange(0, i as int).filter(p_hi),
                mid@ == mid_of(self.range),
                p_lo == (|n: Node| n.addr_id.id@ <= mid_of(self.range)),
                p_hi == (|n: Node| n.addr_id.id@ > mid_of(self.range)),
            decreases self.nodes@.len() - i,
        {
            proof {
                reveal(Seq::filter);
                assert(self.nodes@.subrange(0, i + 1).drop_last() =~= self.nodes@.subrange(
                    0,
                    i as int,
                ));
            }
            let n = self.nodes[i];
            if n.addr_id.id.le(&mid) {
                lower_nodes.push(n);
            } else {
                upper_nodes.push(n);
            }
            i += 1;
        }
        proof {
            assert(self.nodes@.subrange(0, self.nodes@.len() as int) =~= self.nodes@);
            lemma_filter_distinct(self.nodes@, p_lo);
            lemma_filter_distinct(self.nodes@, p_hi);
            lemma_filter_sub(self.nodes@, p_lo);
            lemma_filter_sub(self.nodes@, p_hi);
            broadcast use vstd::prelude::Seq::lemma_filter_len;
            broadcast use vstd::prelude::Seq::lemma_filter_pred;

            crate::id::lemma_id_bound(self.range.end);
        }
        let lower = Bucket {
            range: IdRange { start: self.range.start, end: mid },
            nodes: lower_nodes,
            refresh_deadline: self.refresh_deadline,
        };
        let upper = Bucket {
            range: IdRange { start: upper_start, end: self.range.end },
            nodes: upper_nodes,
            refresh_deadline: self.refresh_deadline,
        };
        proof {
            assert forall|k: int|
                0 <= k < lower.nodes@.len() implies lower.range.spec_contains(
                #[trigger] lower.nodes@[k].addr_id.id,
            ) by {
                assert(self.nodes@.contains(lower.nodes@[k]));
                let m = choose|m: int|
                    0 <= m < self.nodes@.len() && self.nodes@[m] == lower.nodes@[k];
                assert(self.range.spec_contains(self.nodes@[m].addr_id.id));
            }
            assert forall|k: int|
                0 <= k < upper.nodes@.len() implies upper.range.spec_contains(
                #[trigger] upper.nodes@[k].addr_id.id,
            ) by {
                assert(self.nodes@.contains(upper.nodes@[k]));
                let m = choose|m: int|
                    0 <= m < self.nodes@.len() && self.nodes@[m] == upper.nodes@[k];
                assert(self.range.spec_contains(self.nodes@[m].addr_id.id));
            }
        }
        (lower, upper)
    }

    /// The earliest deadline of interest in the bucket: the refresh
    /// deadline, or the ping deadline of a record with no ping in flight,
    /// whichever comes first.
    pub fn timeout(&self) -> (r: Instant)
        ensures
            r == self.spec_bucket_timeout(),
    {
        let mut best: Instant = u64::MAX;
        let mut i: usize = 0;
        while i < self.nodes.len()
            invariant
                i <= self.nodes@.len(),
                best == spec_min_node_timeout(self.nodes@.subrange(0, i as int)),
            decreases self.nodes@.len() - i,
        {
            proof {
                assert(self.nodes@.subrange(0, i + 1).drop_last() =~= self.nodes@.subrange(
                    0,
                    i as int,
                ));
            }
            let n = &self.nodes[i];
            if n.ping_tx_id.is_none() {
                let t = n.timeout();
                if t < best {
                    best = t;
                }
            }
            i += 1;
        }
        proof {
            assert(self.nodes@.subrange(0, self.nodes@.len() as int) =~= self.nodes@);
        }
        if self.refresh_deadline < best {
            self.refresh_deadline
        } else {
            best
        }
    }

    /// The bucket's next deadline as a specification value.
    pub open spec fn spec_bucket_timeout(self) -> Instant {
        if self.refresh_deadline < spec_min_node_timeout(self.nodes@) {
            self.refresh_deadline
        } else {
            spec_min_node_timeout(self.nodes@)
        }
    }

    /// An outbound transaction to the contact timed out: its record, if
    /// held here, is penalized and a matching ping cleared.
    pub fn on_resp_timeout(&mut self, addr_id: &AddrId, tx_id: &transaction::Id)
        requires
            old(self).wf(),
        ensures
            final(self).wf(),
            final(self).range == old(self).range,
            final(self).refresh_deadline == old(self).refresh_deadline,
            !seq_contains_addr(old(self).nodes@, *addr_id) ==> *final(self) == *old(self),
            seq_contains_addr(old(self).nodes@, *addr_id) ==> final(self).nodes@ == old(
                self,
            ).nodes@.update(
                index_of_addr(old(self).nodes@, *addr_id),
                old(self).nodes@[index_of_addr(old(self).nodes@, *addr_id)].spec_after_timeout(
                    *tx_id,
                ),
            ),
    {
        let ghost pre = *self;
        match self.position_of(addr_id) {
            None => {},
            Some(k) => {
                proof {
                    let kk = index_of_addr(pre.nodes@, *addr_id);
                    assert(pre.nodes@[kk].addr_id == *addr_id);
                    if kk != k as int {
                        assert(pre.nodes@[kk].addr_id != pre.nodes@[k as int].addr_id);
                    }
                }
                let mut n = self.nodes[k];
                n.on_resp_timeout(tx_id);
                self.nodes[k] = n;
                proof {
                    assert forall|x: int|
                        0 <= x < self.nodes@.len() implies self.range.spec_contains(
                        #[trigger] self.nodes@[x].addr_id.id,
                    ) by {
                        assert(self.nodes@[x].addr_id == pre.nodes@[x].addr_id);
                    }
                    assert forall|x: int, y: int|
                        0 <= x < y < self.nodes@.len() implies self.nodes@[x].addr_id
                        != self.nodes@[y].addr_id by {
                        assert(self.nodes@[x].addr_id == pre.nodes@[x].addr_id);
                        assert(self.nodes@[y].addr_id == pre.nodes@[y].addr_id);
                    }
                }
            },
        }
    }

    /// The index of the first record that is `Questionable` at `now` and
    /// has no ping in flight, if any.
    pub fn find_node_to_ping(&self, now: Instant) -> (r: Option<usize>)
        ensures
            r matches Some(i) ==> i < self.nodes@.len() && ping_candidate(
                self.nodes@[i as int],
                now,
            ) && forall|j: int| 0 <= j < i ==> !ping_candidate(#[trigger] self.nodes@[j], now),
            r is None ==> forall|i: int|
                0 <= i < self.nodes@.len() ==> !ping_candidate(#[trigger] self.nodes@[i], now),
    {
        let mut i: usize = 0;
        while i < self.nodes.len()
            invariant
                i <= self.nodes@.len(),
                forall|j: int| 0 <= j < i ==> !ping_candidate(#[trigger] self.nodes@[j], now),
            decreases self.nodes@.len() - i,
        {
            let n = &self.nodes[i];
            if n.ping_tx_id.is_none() && matches!(n.state_with_now(now), NodeState::Questionable) {
                return Some(i);
            }
            i += 1;
        }
        None
    }
}

/// Whether a record is the kind the host should ping: `Questionable` at
/// `now` with no ping in flight.
pub open spec fn ping_candidate(n: Node, now: Instant) -> bool {
    n.spec_state(now) is Questionable && n.ping_tx_id is None
}

/// Whether position `(i, k)` holds the first ping candidate in bucket
/// order: no earlier bucket and no earlier slot of bucket `i` holds one.
pub open spec fn first_ping_candidate_at(bs: Seq<Bucket>, now: Instant, i: int, k: int) -> bool {
    &&& 0 <= i < bs.len()
    &&& 0 <= k < bs[i].nodes@.len()
    &&& ping_candidate(bs[i].nodes@[k], now)
    &&& forall|x: int, y: int|
        0 <= x < i && 0 <= y < bs[x].nodes@.len() ==> !ping_candidate(
            #[trigger] bs[x].nodes@[y],
            now,
        )
    &&& forall|y: int| 0 <= y < k ==> !ping_candidate(#[trigger] bs[i].nodes@[y], now)
}

/// The earliest ping deadline among records with no ping in flight, or
/// the largest instant when there is none.
pub open spec fn spec_min_node_timeout(s: Seq<Node>) -> Instant
    decreases s.len(),
{
    if s.len() == 0 {
        u64::MAX
    } else {
        let rest = spec_min_node_timeout(s.drop_last());
        let x = if s.last().ping_tx_id is None {
            s.last().spec_timeout()
        } else {
            u64::MAX
        };
        if x < rest {
            x
        } else {
            rest
        }
    }
}

/// The breadth of an inclusive range, as the difference of its bounds.
pub open spec fn range_size(r: IdRange) -> int {
    r.end@ - r.start@
}

/// Whether the bucket can absorb no fresh record for the id: its range
/// holds the id, it is full, and it may not be split — it either lacks
/// the pivot or spans a single id.
pub open spec fn saturated_for(b: Bucket, id: Id, pivot: Id) -> bool {
    &&& b.range.spec_contains(id)
    &&& b.nodes@.len() == MAX_BUCKET_SIZE
    &&& (!b.range.spec_contains(pivot) || b.range.start@ == b.range.end@)
}

/// Whether every bucket of the sequence holds at most `bound` records.
pub open spec fn buckets_within(bs: Seq<Bucket>, bound: int) -> bool {
    forall|i: int| 0 <= i < bs.len() ==> (#[trigger] bs[i]).nodes@.len() <= bound
}

/// The routing table: buckets that partition the id space, around the
/// local pivot id. Only the bucket holding the pivot — kept last — may be
/// split when it fills.
#[derive(Clone, Debug)]
pub struct Table {
    pub pivot: Id,
    pub buckets: Vec<Bucket>,
}

impl Table {
    /// Whether some bucket's range holds the id.
    pub open spec fn covers(self, id: Id) -> bool {
        exists|i: int| 0 <= i < self.buckets@.len() && self.buckets@[i].range.spec_contains(id)
    }

    /// The index of the bucket whose range holds the id.
    pub open spec fn locate(self, id: Id) -> int {
        choose|i: int| 0 <= i < self.buckets@.len() && self.buckets@[i].range.spec_contains(id)
    }

    /// Whether some bucket holds a record for the address-id pair.
    pub open spec fn has_addr(self, a: AddrId) -> bool {
        exists|i: int| 0 <= i < self.buckets@.len() && seq_contains_addr(
            self.buckets@[i].nodes@,
            a,
        )
    }

    /// The index of the bucket holding the record for the pair.
    pub open spec fn locate_addr(self, a: AddrId) -> int {
        choose|i: int| 0 <= i < self.buckets@.len() && seq_contains_addr(
            self.buckets@[i].nodes@,
            a,
        )
    }

    /// The held record for a pair, at its located bucket and slot.
    pub open spec fn record_of(self, a: AddrId) -> Node {
        self.buckets@[self.locate_addr(a)].nodes@[index_of_addr(
            self.buckets@[self.locate_addr(a)].nodes@,
            a,
        )]
    }

    /// Table well-formedness: at least one bucket, every bucket well
    /// formed, ranges pairwise disjoint and jointly covering the whole id
    /// space, and the pivot lying in the last bucket's range.
    pub open spec fn wf(self) -> bool {
        &&& self.buckets@.len() >= 1
        &&& forall|i: int| 0 <= i < self.buckets@.len() ==> (#[trigger] self.buckets@[i]).wf()
        &&& forall|i: int, j: int|
            0 <= i < j < self.buckets@.len() ==> (#[trigger] self.buckets@[i].range).disjoint(
                #[trigger] self.buckets@[j].range,
            )
        &&& forall|id: Id| #[trigger] self.covers(id)
        &&& self.buckets@[self.buckets@.len() - 1].range.spec_contains(self.pivot)
    }

    /// Two buckets holding the same id are the same bucket.
    pub proof fn lemma_locate_is(self, id: Id, i: int)
        requires
            self.wf(),
            0 <= i < self.buckets@.len(),
            self.buckets@[i].range.spec_contains(id),
        ensures
            self.locate(id) == i,
    {
        assert(self.covers(id));
        let j = self.locate(id);
        if j != i {
            assert(self.buckets@[i].range.disjoint(self.buckets@[j].range) || self.buckets@[
                j
            ].range.disjoint(self.buckets@[i].range));
        }
    }

    /// The record at any slot holding the pair is the held record.
    pub proof fn lemma_record_of_at(self, a: AddrId, i: int, k: int)
        requires
            self.wf(),
            0 <= i < self.buckets@.len(),
            0 <= k < self.buckets@[i].nodes@.len(),
            self.buckets@[i].nodes@[k].addr_id == a,
        ensures
            self.has_addr(a),
            self.record_of(a) == self.buckets@[i].nodes@[k],
    {
        assert(seq_contains_addr(self.buckets@[i].nodes@, a));
        self.lemma_locate_addr_is(a, i);
        let kk = index_of_addr(self.buckets@[i].nodes@, a);
        assert(self.buckets@[i].nodes@[kk].addr_id == a);
        if kk != k {
            assert(self.buckets@[i].nodes@[kk].addr_id != self.buckets@[i].nodes@[k].addr_id);
        }
    }

    /// A record's bucket is the bucket located by its id.
    pub proof fn lemma_locate_addr_is(self, a: AddrId, i: int)
        requires
            self.wf(),
            0 <= i < self.buckets@.len(),
            seq_contains_addr(self.buckets@[i].nodes@, a),
        ensures
            self.locate_addr(a) == i,
            self.buckets@[i].range.spec_contains(a.id),
            self.locate(a.id) == i,
    {
        let k = choose|k: int|
            0 <= k < self.buckets@[i].nodes@.len() && self.buckets@[i].nodes@[k].addr_id == a;
        assert(self.buckets@[i].wf());
        assert(self.buckets@[i].range.spec_contains(self.buckets@[i].nodes@[k].addr_id.id));
        self.lemma_locate_is(a.id, i);
        let j = self.locate_addr(a);
        if j != i {
            let m = choose|m: int|
                0 <= m < self.buckets@[j].nodes@.len() && self.buckets@[j].nodes@[m].addr_id == a;
            assert(self.buckets@[j].range.spec_contains(a.id));
            assert(self.buckets@[i].range.disjoint(self.buckets@[j].range) || self.buckets@[
                j
            ].range.disjoint(self.buckets@[i].range));
        }
    }

    /// A fresh table: the single bucket spanning the whole id space.
    pub fn new(pivot: Id, now: Instant) -> (r: Table)
        requires
            now <= INSTANT_LIMIT,
        ensures
            r.wf(),
            r.pivot == pivot,
            r.buckets@.len() == 1,
            r.buckets@[0].nodes@.len() == 0,
            r.buckets@[0].range.start@ == 0,
            r.buckets@[0].range.end@ == crate::id::id_max_nat(),
            r.buckets@[0].refresh_deadline == now + crate::BUCKET_REFRESH_INTERVAL_MS,
    {
        let full = IdRange::full();
        let bucket = Bucket::new(full, now + crate::BUCKET_REFRESH_INTERVAL_MS);
        let mut buckets: Vec<Bucket> = Vec::new();
        buckets.push(bucket);
        let r = Table { pivot, buckets };
        proof {
            crate::id::lemma_id_bound(pivot);
            assert forall|id: Id| #[trigger] r.covers(id) by {
                crate::id::lemma_id_bound(id);
                assert(r.buckets@[0].range.spec_contains(id));
            }
        }
        r
    }

    /// The index of the bucket whose range holds the id.
    pub fn find_idx(&self, id: &Id) -> (r: usize)
        requires
            self.wf(),
        ensures
            r < self.buckets@.len(),
            self.buckets@[r as int].range.spec_contains(*id),
            self.locate(*id) == r,
    {
        let mut i: usize = 0;
        while i < self.buckets.len()
            invariant
                self.wf(),
                i <= self.buckets@.len(),
                forall|j: int| 0 <= j < i ==> !self.buckets@[j].range.spec_contains(*id),
            decreases self.buckets@.len() - i,
        {
            if self.buckets[i].range.contains(id) {
                proof {
                    self.lemma_locate_is(*id, i as int);
                }
                return i;
            }
            i += 1;
        }
        proof {
            assert(self.covers(*id));
            assert(false);
        }
        0
    }

    /// Splits the last bucket — the pivot's — at the midpoint of its
    /// range. The half that keeps the pivot becomes the new last bucket.
    /// Records are redistributed and none is lost; every id that lay in
    /// the old last range now lies in a strictly narrower bucket.
    pub fn split_last(&mut self)
        requires
            old(self).wf(),
            old(self).buckets@[old(self).buckets@.len() - 1].range.start@ < old(
                self,
            ).buckets@[old(self).buckets@.len() - 1].range.end@,
        ensures
            final(self).wf(),
            final(self).pivot == old(self).pivot,
            final(self).buckets@.len() == old(self).buckets@.len() + 1,
            forall|i: int|
                0 <= i < old(self).buckets@.len() - 1 ==> final(self).buckets@[i] == old(
                    self,
                ).buckets@[i],
            forall|a: AddrId| final(self).has_addr(a) <==> old(self).has_addr(a),
            forall|a: AddrId|
                #[trigger] old(self).has_addr(a) ==> final(self).record_of(a) == old(
                    self,
                ).record_of(a),
            forall|id: Id|
                #[trigger] old(self).buckets@[old(self).buckets@.len() - 1].range.spec_contains(id)
                    ==> exists|j: int|
                    old(self).buckets@.len() - 1 <= j < final(self).buckets@.len() && (
                    #[trigger] final(self).buckets@[j].range).spec_contains(id) && range_size(
                        final(self).buckets@[j].range,
                    ) < range_size(old(self).buckets@[old(self).buckets@.len() - 1].range),
            forall|bound: int|
                #[trigger] buckets_within(old(self).buckets@, bound) ==> buckets_within(
                    final(self).buckets@,
                    bound,
                ),
    {
        let ghost pre = *self;
        let ghost l = pre.buckets@.len() - 1;
        let ghost oldr = pre.buckets@[l].range;
        let last = match self.buckets.pop() {
            Some(b) => b,
            None => {
                proof {
                    assert(false);
                }
                Bucket {
                    range: IdRange { start: Id { hi: 0, lo: 0 }, end: Id { hi: 0, lo: 0 } },
                    nodes: Vec::new(),
                    refresh_deadline: 0,
                }
            },
        };
        let (lower, upper) = last.split();
        let ghost lowr = lower.range;
        let ghost upr = upper.range;
        let pivot_in_lower = lower.range.contains(&self.pivot);
        if pivot_in_lower {
            self.buckets.push(upper);
            self.buckets.push(lower);
        } else {
            self.buckets.push(lower);
            self.buckets.push(upper);
        }
        proof {
            let post = *self;
            let n = post.buckets@.len();
            assert(n == pre.buckets@.len() + 1);
            // The two new buckets sit at n-2 and n-1 and partition the old
            // last range at its midpoint.
            assert(post.buckets@[n - 1].range.spec_contains(post.pivot));
            // Bucket well-formedness everywhere.
            assert(forall|i: int| 0 <= i < n ==> (#[trigger] post.buckets@[i]).wf());
            // Pairwise disjointness: the halves lie within the old last
            // range, which was disjoint from every other bucket.
            assert forall|i: int, j: int|
                0 <= i < j < n implies (#[trigger] post.buckets@[i].range).disjoint(
                #[trigger] post.buckets@[j].range,
            ) by {
                if j < n - 2 {
                    assert(pre.buckets@[i].range.disjoint(pre.buckets@[j].range));
                } else if i < n - 2 {
                    assert(pre.buckets@[i].range.disjoint(oldr));
                } else {
                    assert(lowr.end@ < upr.start@);
                }
            }
            // Coverage: ids in the old last range fall in one half.
            assert forall|id: Id| #[trigger] post.covers(id) by {
                assert(pre.covers(id));
                let i = choose|i: int|
                    0 <= i < pre.buckets@.len() && pre.buckets@[i].range.spec_contains(id);
                if i < l {
                    assert(post.buckets@[i].range.spec_contains(id));
                } else {
                    if id@ <= mid_of(oldr) {
                        assert(lowr.spec_contains(id));
                        assert(post.buckets@[if pivot_in_lower {
                            n - 1
                        } else {
                            n - 2
                        }].range.spec_contains(id));
                    } else {
                        assert(upr.spec_contains(id));
                        assert(post.buckets@[if pivot_in_lower {
                            n - 2
                        } else {
                            n - 1
                        }].range.spec_contains(id));
                    }
                }
            }
            // Record membership is preserved by the redistribution.
            assert forall|a: AddrId| post.has_addr(a) <==> pre.has_addr(a) by {
                broadcast use vstd::prelude::Seq::lemma_filter_pred;

                lemma_filter_sub(pre.buckets@[l].nodes@, |nd: Node| nd.addr_id.id@ <= mid_of(oldr));
                lemma_filter_sub(pre.buckets@[l].nodes@, |nd: Node| nd.addr_id.id@ > mid_of(oldr));
                if pre.has_addr(a) {
                    let i = choose|i: int|
                        0 <= i < pre.buckets@.len() && seq_contains_addr(pre.buckets@[i].nodes@, a);
                    if i < l {
                        assert(seq_contains_addr(post.buckets@[i].nodes@, a));
                    } else {
                        let k = choose|k: int|
                            0 <= k < pre.buckets@[l].nodes@.len() && pre.buckets@[l].nodes@[k].addr_id
                                == a;
                        let nd = pre.buckets@[l].nodes@[k];
                        if nd.addr_id.id@ <= mid_of(oldr) {
                            pre.buckets@[l].nodes@.lemma_filter_contains(
                                |nd: Node| nd.addr_id.id@ <= mid_of(oldr),
                                k,
                            );
                            let f = pre.buckets@[l].nodes@.filter(
                                |nd: Node| nd.addr_id.id@ <= mid_of(oldr),
                            );
                            let m = choose|m: int| 0 <= m < f.len() && f[m] == nd;
                            assert(seq_contains_addr(lower.nodes@, a));
                            assert(lower == post.buckets@[if pivot_in_lower {
                                n - 1
                            } else {
                                n - 2
                            }]);
                        } else {
                            pre.buckets@[l].nodes@.lemma_filter_contains(
                                |nd: Node| nd.addr_id.id@ > mid_of(oldr),
                                k,
                            );
                            let f = pre.buckets@[l].nodes@.filter(
                                |nd: Node| nd.addr_id.id@ > mid_of(oldr),
                            );
                            let m = choose|m: int| 0 <= m < f.len() && f[m] == nd;
                            assert(seq_contains_addr(upper.nodes@, a));
                            assert(upper == post.buckets@[if pivot_in_lower {
                                n - 2
                            } else {
                                n - 1
                            }]);
                        }
                    }
                }
                if post.has_addr(a) {
                    let i = choose|i: int|
                        0 <= i < post.buckets@.len() && seq_contains_addr(
                            post.buckets@[i].nodes@,
                            a,
                        );
                    if i < l {
                        assert(seq_contains_addr(pre.buckets@[i].nodes@, a));
                    } else {
                        let k = choose|k: int|
                            0 <= k < post.buckets@[i].nodes@.len()
                                && post.buckets@[i].nodes@[k].addr_id == a;
                        assert(pre.buckets@[l].nodes@.contains(post.buckets@[i].nodes@[k]));
                        let m = choose|m: int|
                            0 <= m < pre.buckets@[l].nodes@.len() && pre.buckets@[l].nodes@[m]
                                == post.buckets@[i].nodes@[k];
                        assert(seq_contains_addr(pre.buckets@[l].nodes@, a));
                    }
                }
            }
            // Splitting never grows a bucket: the halves are filters of
            // the old last bucket.
            assert forall|bound: int|
                buckets_within(pre.buckets@, bound) implies buckets_within(
                post.buckets@,
                bound,
            ) by {
                broadcast use vstd::prelude::Seq::lemma_filter_len;

                assert forall|x: int|
                    0 <= x < post.buckets@.len() implies (#[trigger] post.buckets@[x]).nodes@.len()
                    <= bound by {
                    if x < n - 2 {
                        assert(post.buckets@[x] == pre.buckets@[x]);
                    } else {
                        assert(pre.buckets@[l].nodes@.len() <= bound);
                    }
                }
            }
            // Record values are untouched by the redistribution.
            assert(post.wf());
            assert forall|a: AddrId| #[trigger] pre.has_addr(a) implies post.record_of(a)
                == pre.record_of(a) by {
                broadcast use vstd::prelude::Seq::lemma_filter_pred;

                lemma_filter_sub(pre.buckets@[l].nodes@, |nd: Node| nd.addr_id.id@ <= mid_of(oldr));
                lemma_filter_sub(pre.buckets@[l].nodes@, |nd: Node| nd.addr_id.id@ > mid_of(oldr));
                let i = choose|i: int|
                    0 <= i < pre.buckets@.len() && seq_contains_addr(pre.buckets@[i].nodes@, a);
                let k = choose|k: int|
                    0 <= k < pre.buckets@[i].nodes@.len() && pre.buckets@[i].nodes@[k].addr_id == a;
                pre.lemma_record_of_at(a, i, k);
                let nd = pre.buckets@[i].nodes@[k];
                if i < l {
                    post.lemma_record_of_at(a, i, k);
                } else {
                    if nd.addr_id.id@ <= mid_of(oldr) {
                        pre.buckets@[l].nodes@.lemma_filter_contains(
                            |nd: Node| nd.addr_id.id@ <= mid_of(oldr),
                            k,
                        );
                        let f = pre.buckets@[l].nodes@.filter(
                            |nd: Node| nd.addr_id.id@ <= mid_of(oldr),
                        );
                        let m = choose|m: int| 0 <= m < f.len() && f[m] == nd;
                        post.lemma_record_of_at(
                            a,
                            if pivot_in_lower {
                                n - 1
                            } else {
                                n - 2
                            },
                            m,
                        );
                    } else {
                        pre.buckets@[l].nodes@.lemma_filter_contains(
                            |nd: Node| nd.addr_id.id@ > mid_of(oldr),
                            k,
                        );
                        let f = pre.buckets@[l].nodes@.filter(
                            |nd: Node| nd.addr_id.id@ > mid_of(oldr),
                        );
                        let m = choose|m: int| 0 <= m < f.len() && f[m] == nd;
                        post.lemma_record_of_at(
                            a,
                            if pivot_in_lower {
                                n - 2
                            } else {
                                n - 1
                            },
                            m,
                        );
                    }
                }
            }
            // Narrowing: each id of the old last range now lies in a half.
            assert forall|id: Id| oldr.spec_contains(id) implies exists|j: int|
                l <= j < n && (#[trigger] post.buckets@[j].range).spec_contains(id) && range_size(
                    post.buckets@[j].range,
                ) < range_size(oldr) by {
                if id@ <= mid_of(oldr) {
                    let j = if pivot_in_lower {
                        n - 1
                    } else {
                        n - 2
                    };
                    assert(post.buckets@[j].range.spec_contains(id));
                    assert(range_size(post.buckets@[j].range) < range_size(oldr));
                } else {
                    let j = if pivot_in_lower {
                        n - 2
                    } else {
                        n - 1
                    };
                    assert(post.buckets@[j].range.spec_contains(id));
                    assert(range_size(post.buckets@[j].range) < range_size(oldr));
                }
            }
        }
    }

    /// Replacing one bucket's records, within the same range, keeps the
    /// table well formed.
    proof fn lemma_wf_after_bucket_update(pre: Table, post: Table, i: int)
        requires
            pre.wf(),
            post.pivot == pre.pivot,
            post.buckets@.len() == pre.buckets@.len(),
            0 <= i < pre.buckets@.len(),
            forall|j: int|
                0 <= j < pre.buckets@.len() && j != i ==> post.buckets@[j] == pre.buckets@[j],
            post.buckets@[i].range == pre.buckets@[i].range,
            post.buckets@[i].wf(),
        ensures
            post.wf(),
    {
        assert forall|j: int| 0 <= j < post.buckets@.len() implies (
        #[trigger] post.buckets@[j]).wf() by {
            if j != i {
                assert(post.buckets@[j] == pre.buckets@[j]);
            }
        }
        assert forall|x: int, y: int|
            0 <= x < y < post.buckets@.len() implies (#[trigger] post.buckets@[x].range).disjoint(
            #[trigger] post.buckets@[y].range,
        ) by {
            assert(post.buckets@[x].range == pre.buckets@[x].range);
            assert(post.buckets@[y].range == pre.buckets@[y].range);
        }
        assert forall|id: Id| #[trigger] post.covers(id) by {
            assert(pre.covers(id));
            let k = choose|k: int|
                0 <= k < pre.buckets@.len() && pre.buckets@[k].range.spec_contains(id);
            assert(post.buckets@[k].range.spec_contains(id));
        }
        assert(post.buckets@[post.buckets@.len() - 1].range == pre.buckets@[pre.buckets@.len()
            - 1].range);
    }

    /// A record for a pair can only sit in the bucket located by its id.
    proof fn lemma_absent_everywhere(self, addr_id: AddrId, i: int)
        requires
            self.wf(),
            0 <= i < self.buckets@.len(),
            self.buckets@[i].range.spec_contains(addr_id.id),
            !seq_contains_addr(self.buckets@[i].nodes@, addr_id),
        ensures
            !self.has_addr(addr_id),
    {
        if self.has_addr(addr_id) {
            let j = choose|j: int|
                0 <= j < self.buckets@.len() && seq_contains_addr(self.buckets@[j].nodes@, addr_id);
            self.lemma_locate_addr_is(addr_id, j);
            self.lemma_locate_is(addr_id.id, i);
        }
    }

    /// Inserts a known contact, as at construction. A pair that is already
    /// held — or one claiming the pivot id itself — changes nothing and is
    /// refused before any split. Otherwise the located bucket is split
    /// while it is full, holds the pivot, and can still be halved, and a
    /// fresh record is appended exactly when the bucket then has room.
    pub fn try_insert(&mut self, addr_id: AddrId, now: Instant) -> (r: bool)
        requires
            old(self).wf(),
            now <= INSTANT_LIMIT,
        ensures
            final(self).wf(),
            final(self).pivot == old(self).pivot,
            addr_id.id == old(self).pivot ==> *final(self) == *old(self) && !r,
            old(self).has_addr(addr_id) ==> *final(self) == *old(self) && !r,
            r ==> !old(self).has_addr(addr_id) && addr_id.id != old(self).pivot,
            r ==> final(self).has_addr(addr_id) && exists|i: int, k: int|
                0 <= i < final(self).buckets@.len() && 0 <= k
                    < final(self).buckets@[i].nodes@.len()
                    && #[trigger] final(self).buckets@[i].nodes@[k] == spec_fresh_node(
                    addr_id,
                    now,
                ),
            (!r && addr_id.id != old(self).pivot && !old(self).has_addr(addr_id)) ==> exists|
                i: int,
            |
                0 <= i < final(self).buckets@.len() && saturated_for(
                    #[trigger] final(self).buckets@[i],
                    addr_id.id,
                    final(self).pivot,
                ),
            (exists|i: int|
                0 <= i < old(self).buckets@.len() && saturated_for(
                    #[trigger] old(self).buckets@[i],
                    addr_id.id,
                    old(self).pivot,
                ) && !seq_contains_addr(old(self).buckets@[i].nodes@, addr_id)) ==> (!r && final(self).buckets@ == old(self).buckets@),
            (!old(self).has_addr(addr_id) && addr_id.id != old(self).pivot && buckets_within(
                old(self).buckets@,
                MAX_BUCKET_SIZE - 1,
            )) ==> r,
            !r ==> (final(self).has_addr(addr_id) <==> old(self).has_addr(addr_id)),
            forall|a: AddrId|
                a != addr_id ==> (final(self).has_addr(a) <==> old(self).has_addr(a)),
            forall|bound: int|
                #[trigger] buckets_within(old(self).buckets@, bound) ==> buckets_within(
                    final(self).buckets@,
                    bound + 1,
                ),
    {
        if addr_id.id == self.pivot {
            return false;
        }
        let ghost pre = *self;
        let i0 = self.find_idx(&addr_id.id);
        if self.buckets[i0].position_of(&addr_id).is_some() {
            proof {
                pre.lemma_locate_addr_is(addr_id, i0 as int);
            }
            return false;
        }
        proof {
            pre.lemma_absent_everywhere(addr_id, i0 as int);
        }
        let ghost presat = exists|i: int|
            0 <= i < pre.buckets@.len() && saturated_for(
                #[trigger] pre.buckets@[i],
                addr_id.id,
                pre.pivot,
            );
        loop
            invariant
                pre == *old(self),
                addr_id.id != pre.pivot,
                !pre.has_addr(addr_id),
                self.wf(),
                self.pivot == pre.pivot,
                now <= INSTANT_LIMIT,
                presat == exists|i: int|
                    0 <= i < pre.buckets@.len() && saturated_for(
                        #[trigger] pre.buckets@[i],
                        addr_id.id,
                        pre.pivot,
                    ),
                presat ==> self.buckets@ == pre.buckets@,
                forall|a: AddrId| self.has_addr(a) <==> pre.has_addr(a),
                forall|bound: int|
                    #[trigger] buckets_within(pre.buckets@, bound) ==> buckets_within(
                        self.buckets@,
                        bound,
                    ),
            decreases range_size(self.buckets@[self.locate(addr_id.id)].range),
        {
            let i = self.find_idx(&addr_id.id);
            let full = self.buckets[i].nodes.len() >= MAX_BUCKET_SIZE;
            let holds_pivot = self.buckets[i].range.contains(&self.pivot);
            let splittable = self.buckets[i].range.start.lt(&self.buckets[i].range.end);
            if full && holds_pivot && splittable {
                proof {
                    // The bucket holding the pivot is the last one.
                    let n = self.buckets@.len();
                    self.lemma_locate_is(self.pivot, i as int);
                    assert(self.buckets@[n - 1].range.spec_contains(self.pivot));
                    self.lemma_locate_is(self.pivot, n - 1);
                    // A saturated bucket for this id cannot be split.
                    if presat {
                        let x = choose|x: int|
                            0 <= x < pre.buckets@.len() && saturated_for(
                                #[trigger] pre.buckets@[x],
                                addr_id.id,
                                pre.pivot,
                            );
                        self.lemma_locate_is(addr_id.id, x);
                        assert(x == i as int);
                        assert(false);
                    }
                }
                let ghost before = *self;
                self.split_last();
                proof {
                    let j = choose|j: int|
                        before.buckets@.len() - 1 <= j < self.buckets@.len() && (
                        #[trigger] self.buckets@[j].range).spec_contains(addr_id.id) && range_size(
                            self.buckets@[j].range,
                        ) < range_size(before.buckets@[before.buckets@.len() - 1].range);
                    self.lemma_locate_is(addr_id.id, j);
                }
            } else {
                let ghost before = *self;
                proof {
                    before.lemma_absent_everywhere(addr_id, i as int);
                    assert(!seq_contains_addr(before.buckets@[i as int].nodes@, addr_id));
                }
                let b = vstd::std_specs::vec::vec_index_mut(&mut self.buckets, i);
                let inserted = b.try_insert(addr_id, now + crate::BUCKET_REFRESH_INTERVAL_MS, now);
                proof {
                    Self::lemma_wf_after_bucket_update(before, *self, i as int);
                    if inserted {
                        let nn = self.buckets@[i as int].nodes@;
                        assert(nn[nn.len() - 1].addr_id == addr_id);
                        assert(nn[nn.len() - 1] == spec_fresh_node(addr_id, now));
                        assert(self.has_addr(addr_id));
                    } else {
                        assert(before.buckets@[i as int].nodes@.len() == MAX_BUCKET_SIZE);
                        assert(self.buckets@[i as int].nodes@.len() == MAX_BUCKET_SIZE);
                        assert(self.buckets@[i as int].range.spec_contains(addr_id.id));
                        assert(!holds_pivot || !splittable);
                        assert(self.buckets@[i as int].range == before.buckets@[i as int].range);
                        assert(saturated_for(self.buckets@[i as int], addr_id.id, self.pivot)) by {
                            if holds_pivot {
                                assert(before.buckets@[i as int].range.start@
                                    >= before.buckets@[i as int].range.end@);
                                assert(before.buckets@[i as int].range.wf());
                            }
                        }
                        assert(self.buckets@ =~= before.buckets@);
                        assert(!self.has_addr(addr_id)) by {
                            if self.has_addr(addr_id) {
                                let x = choose|x: int|
                                    0 <= x < self.buckets@.len() && seq_contains_addr(
                                        self.buckets@[x].nodes@,
                                        addr_id,
                                    );
                                assert(seq_contains_addr(before.buckets@[x].nodes@, addr_id));
                                assert(before.has_addr(addr_id));
                            }
                        }
                    }
                    // When every bucket had room, the located bucket did too.
                    if buckets_within(pre.buckets@, MAX_BUCKET_SIZE - 1) {
                        assert(buckets_within(before.buckets@, MAX_BUCKET_SIZE - 1));
                        assert(before.buckets@[i as int].nodes@.len() <= MAX_BUCKET_SIZE - 1);
                        assert(inserted);
                    }
                    assert forall|bound: int|
                        buckets_within(pre.buckets@, bound) implies buckets_within(
                        self.buckets@,
                        bound + 1,
                    ) by {
                        assert(buckets_within(before.buckets@, bound));
                        assert forall|x: int|
                            0 <= x < self.buckets@.len() implies (
                        #[trigger] self.buckets@[x]).nodes@.len() <= bound + 1 by {
                            if x != i as int {
                                assert(self.buckets@[x] == before.buckets@[x]);
                            }
                            assert(before.buckets@[x].nodes@.len() <= bound);
                        }
                    }
                    assert forall|a: AddrId|
                        a != addr_id implies (self.has_addr(a) <==> before.has_addr(a)) by {
                        if self.has_addr(a) {
                            let x = choose|x: int|
                                0 <= x < self.buckets@.len() && seq_contains_addr(
                                    self.buckets@[x].nodes@,
                                    a,
                                );
                            if x == i as int && inserted {
                                let k = choose|k: int|
                                    0 <= k < self.buckets@[x].nodes@.len()
                                        && self.buckets@[x].nodes@[k].addr_id == a;
                                if k < before.buckets@[x].nodes@.len() {
                                    assert(seq_contains_addr(before.buckets@[x].nodes@, a));
                                }
                            } else {
                                assert(seq_contains_addr(before.buckets@[x].nodes@, a));
                            }
                        }
                        if before.has_addr(a) {
                            let x = choose|x: int|
                                0 <= x < before.buckets@.len() && seq_contains_addr(
                                    before.buckets@[x].nodes@,
                                    a,
                                );
                            if x == i as int && inserted {
                                let k = choose|k: int|
                                    0 <= k < before.buckets@[x].nodes@.len()
                                        && before.buckets@[x].nodes@[k].addr_id == a;
                                assert(self.buckets@[x].nodes@[k].addr_id == a);
                            } else {
                                assert(seq_contains_addr(self.buckets@[x].nodes@, a));
                            }
                        }
                    }
                }
                return inserted;
            }
        }
    }

    /// The on-receive merge: a message of the given kind arrived from the
    /// contact. A held record is updated in place; otherwise the located
    /// bucket is split while it is full, holds the pivot, and can be
    /// halved, and the contact is then recorded if its bucket has room,
    /// evicting records that have gone `Bad`. An unrecognized kind never
    /// creates a record; a contact claiming the pivot id itself is
    /// ignored.
    pub fn on_msg_received(
        &mut self,
        addr_id: AddrId,
        kind: &Kind<'_>,
        tx_id: Option<&transaction::Id>,
        refresh_deadline: Instant,
        now: Instant,
    )
        requires
            old(self).wf(),
            now <= INSTANT_LIMIT,
        ensures
            final(self).wf(),
            final(self).pivot == old(self).pivot,
            addr_id.id == old(self).pivot ==> *final(self) == *old(self),
            (addr_id.id != old(self).pivot && old(self).has_addr(addr_id)) ==> ({
                let i = old(self).locate_addr(addr_id);
                let k = index_of_addr(old(self).buckets@[i].nodes@, addr_id);
                &&& final(self).buckets@.len() == old(self).buckets@.len()
                &&& forall|j: int|
                    0 <= j < old(self).buckets@.len() && j != i ==> final(self).buckets@[j] == old(
                        self,
                    ).buckets@[j]
                &&& final(self).buckets@[i].range == old(self).buckets@[i].range
                &&& final(self).buckets@[i].refresh_deadline == old(
                    self,
                ).buckets@[i].refresh_deadline
                &&& final(self).buckets@[i].nodes@ == old(self).buckets@[i].nodes@.update(
                    k,
                    old(self).buckets@[i].nodes@[k].spec_after_msg(
                        *kind,
                        match tx_id {
                            Some(t) => Some(*t),
                            None => None,
                        },
                        now,
                    ),
                )
            }),
            (addr_id.id != old(self).pivot && !old(self).has_addr(addr_id) && !(kind is Unknown))
                ==> (final(self).has_addr(addr_id) || (exists|i: int|
                0 <= i < final(self).buckets@.len() && (
                #[trigger] final(self).buckets@[i].range).spec_contains(addr_id.id)
                    && final(self).buckets@[i].nodes@.len() == MAX_BUCKET_SIZE && forall|k: int|
                    0 <= k < final(self).buckets@[i].nodes@.len() ==> (
                    #[trigger] final(self).buckets@[i].nodes@[k]).spec_state(now)
                        != NodeState::Bad)),
            (!old(self).has_addr(addr_id) && kind is Unknown) ==> (forall|a: AddrId|
                final(self).has_addr(a) <==> old(self).has_addr(a)),
            forall|a: AddrId| a != addr_id ==> (final(self).has_addr(a) ==> old(self).has_addr(a)),
            forall|a: AddrId|
                (a != addr_id && #[trigger] old(self).has_addr(a) && old(self).record_of(
                    a,
                ).spec_state(now) != NodeState::Bad) ==> final(self).has_addr(a),
            (addr_id.id != old(self).pivot && !old(self).has_addr(addr_id) && final(self).has_addr(
                addr_id,
            )) ==> exists|i: int, k: int|
                0 <= i < final(self).buckets@.len() && 0 <= k
                    < final(self).buckets@[i].nodes@.len()
                    && #[trigger] final(self).buckets@[i].nodes@[k] == spec_fresh_node(
                    addr_id,
                    now,
                ) && final(self).buckets@[i].refresh_deadline == refresh_deadline,
    {
        if addr_id.id == self.pivot {
            return;
        }
        let ghost pre = *self;
        let i0 = self.find_idx(&addr_id.id);
        let found = self.buckets[i0].position_of(&addr_id);
        if found.is_some() {
            proof {
                pre.lemma_locate_addr_is(addr_id, i0 as int);
            }
            let b = vstd::std_specs::vec::vec_index_mut(&mut self.buckets, i0);
            b.on_msg_received(addr_id, kind, tx_id, refresh_deadline, now);
            proof {
                Self::lemma_wf_after_bucket_update(pre, *self, i0 as int);
                let k = index_of_addr(pre.buckets@[i0 as int].nodes@, addr_id);
                assert(self.buckets@[i0 as int].nodes@ == pre.buckets@[i0 as int].nodes@.update(
                    k,
                    pre.buckets@[i0 as int].nodes@[k].spec_after_msg(
                        *kind,
                        match tx_id {
                            Some(t) => Some(*t),
                            None => None,
                        },
                        now,
                    ),
                ));
                assert forall|a: AddrId|
                    a != addr_id implies (self.has_addr(a) ==> pre.has_addr(a)) by {
                    if self.has_addr(a) {
                        let x = choose|x: int|
                            0 <= x < self.buckets@.len() && seq_contains_addr(
                                self.buckets@[x].nodes@,
                                a,
                            );
                        if x == i0 as int {
                            let m = choose|m: int|
                                0 <= m < self.buckets@[x].nodes@.len()
                                    && self.buckets@[x].nodes@[m].addr_id == a;
                            assert(pre.buckets@[x].nodes@[m].addr_id == a);
                        } else {
                            assert(seq_contains_addr(pre.buckets@[x].nodes@, a));
                        }
                    }
                }
                assert forall|a: AddrId|
                    a != addr_id && #[trigger] pre.has_addr(a) implies self.has_addr(a) by {
                    let x = choose|x: int|
                        0 <= x < pre.buckets@.len() && seq_contains_addr(pre.buckets@[x].nodes@, a);
                    let m = choose|m: int|
                        0 <= m < pre.buckets@[x].nodes@.len() && pre.buckets@[x].nodes@[m].addr_id
                            == a;
                    if x == i0 as int {
                        if m != k {
                            assert(self.buckets@[x].nodes@[m].addr_id == a);
                        } else {
                            assert(a == addr_id);
                        }
                    } else {
                        assert(seq_contains_addr(self.buckets@[x].nodes@, a));
                    }
                }
            }
            return;
        }
        proof {
            pre.lemma_absent_everywhere(addr_id, i0 as int);
        }
        loop
            invariant
                pre == *old(self),
                addr_id.id != pre.pivot,
                self.wf(),
                self.pivot == pre.pivot,
                now <= INSTANT_LIMIT,
                !pre.has_addr(addr_id),
                forall|a: AddrId| self.has_addr(a) <==> pre.has_addr(a),
                forall|a: AddrId|
                    #[trigger] pre.has_addr(a) ==> self.record_of(a) == pre.record_of(a),
            decreases range_size(self.buckets@[self.locate(addr_id.id)].range),
        {
            let i = self.find_idx(&addr_id.id);
            let full = self.buckets[i].nodes.len() >= MAX_BUCKET_SIZE;
            let holds_pivot = self.buckets[i].range.contains(&self.pivot);
            let splittable = self.buckets[i].range.start.lt(&self.buckets[i].range.end);
            if full && holds_pivot && splittable {
                proof {
                    let n = self.buckets@.len();
                    self.lemma_locate_is(self.pivot, i as int);
                    assert(self.buckets@[n - 1].range.spec_contains(self.pivot));
                    self.lemma_locate_is(self.pivot, n - 1);
                }
                let ghost before = *self;
                self.split_last();
                proof {
                    let j = choose|j: int|
                        before.buckets@.len() - 1 <= j < self.buckets@.len() && (
                        #[trigger] self.buckets@[j].range).spec_contains(addr_id.id) && range_size(
                            self.buckets@[j].range,
                        ) < range_size(before.buckets@[before.buckets@.len() - 1].range);
                    self.lemma_locate_is(addr_id.id, j);
                    assert forall|a: AddrId| #[trigger] pre.has_addr(a) implies self.record_of(a)
                        == pre.record_of(a) by {
                        assert(before.has_addr(a));
                        assert(self.record_of(a) == before.record_of(a));
                    }
                }
            } else {
                let ghost before = *self;
                proof {
                    before.lemma_absent_everywhere(addr_id, i as int);
                    assert(!seq_contains_addr(before.buckets@[i as int].nodes@, addr_id));
                }
                let b = vstd::std_specs::vec::vec_index_mut(&mut self.buckets, i);
                b.on_msg_received(addr_id, kind, tx_id, refresh_deadline, now);
                proof {
                    Self::lemma_wf_after_bucket_update(before, *self, i as int);
                    let prenodes = before.buckets@[i as int].nodes@;
                    let postnodes = self.buckets@[i as int].nodes@;
                    lemma_filter_sub(prenodes, |n: Node| n.spec_state(now) != NodeState::Bad);
                    broadcast use vstd::prelude::Seq::lemma_filter_pred;

                    if !(kind is Unknown) {
                        if postnodes.len() > 0 && postnodes[postnodes.len() - 1]
                            == spec_fresh_node(addr_id, now) {
                            assert(seq_contains_addr(postnodes, addr_id));
                            assert(self.has_addr(addr_id));
                        }
                        if spec_merge_inserts(prenodes, addr_id, *kind, now) {
                            assert(postnodes[postnodes.len() - 1] == spec_fresh_node(addr_id, now));
                            assert(self.buckets@[i as int].refresh_deadline == refresh_deadline);
                        }
                        if self.has_addr(addr_id) {
                            assert(spec_merge_inserts(prenodes, addr_id, *kind, now)) by {
                                if !spec_merge_inserts(prenodes, addr_id, *kind, now) {
                                    assert(postnodes == spec_purge(prenodes, now));
                                    let x = choose|x: int|
                                        0 <= x < self.buckets@.len() && seq_contains_addr(
                                            self.buckets@[x].nodes@,
                                            addr_id,
                                        );
                                    if x == i as int {
                                        let kk = choose|kk: int|
                                            0 <= kk < postnodes.len() && postnodes[kk].addr_id
                                                == addr_id;
                                        assert(prenodes.contains(postnodes[kk]));
                                        assert(seq_contains_addr(prenodes, addr_id));
                                    } else {
                                        assert(seq_contains_addr(before.buckets@[x].nodes@, addr_id));
                                    }
                                    assert(before.has_addr(addr_id));
                                    assert(false);
                                }
                            }
                        }
                        if !self.has_addr(addr_id) {
                            // The merge fell through: the bucket kept eight
                            // records, none of them `Bad`.
                            assert(postnodes == spec_purge(prenodes, now));
                            assert(postnodes.len() == MAX_BUCKET_SIZE);
                            assert(forall|k: int|
                                0 <= k < postnodes.len() ==> (#[trigger] postnodes[k]).spec_state(
                                    now,
                                ) != NodeState::Bad);
                            assert(self.buckets@[i as int].range.spec_contains(addr_id.id));
                        }
                    }
                    assert forall|a: AddrId|
                        a != addr_id implies (self.has_addr(a) ==> before.has_addr(a)) by {
                        if self.has_addr(a) {
                            let x = choose|x: int|
                                0 <= x < self.buckets@.len() && seq_contains_addr(
                                    self.buckets@[x].nodes@,
                                    a,
                                );
                            if x == i as int {
                                let m = choose|m: int|
                                    0 <= m < postnodes.len() && postnodes[m].addr_id == a;
                                if prenodes.len() < MAX_BUCKET_SIZE && !(kind is Unknown) {
                                    if m < prenodes.len() {
                                        assert(seq_contains_addr(prenodes, a));
                                    }
                                } else if !(kind is Unknown) {
                                    let purged = spec_purge(prenodes, now);
                                    if m < purged.len() {
                                        assert(prenodes.contains(purged[m]));
                                        let w = choose|w: int|
                                            0 <= w < prenodes.len() && prenodes[w] == purged[m];
                                        assert(seq_contains_addr(prenodes, a));
                                    }
                                } else {
                                    assert(seq_contains_addr(prenodes, a));
                                }
                            } else {
                                assert(seq_contains_addr(before.buckets@[x].nodes@, a));
                            }
                        }
                    }
                    assert forall|a: AddrId|
                        (a != addr_id && #[trigger] pre.has_addr(a) && pre.record_of(a).spec_state(
                            now,
                        ) != NodeState::Bad) implies self.has_addr(a) by {
                        assert(before.has_addr(a));
                        assert(before.record_of(a) == pre.record_of(a));
                        let x = choose|x: int|
                            0 <= x < before.buckets@.len() && seq_contains_addr(
                                before.buckets@[x].nodes@,
                                a,
                            );
                        let m = choose|m: int|
                            0 <= m < before.buckets@[x].nodes@.len()
                                && before.buckets@[x].nodes@[m].addr_id == a;
                        before.lemma_record_of_at(a, x, m);
                        let nd = before.buckets@[x].nodes@[m];
                        if x == i as int {
                            if kind is Unknown {
                                assert(seq_contains_addr(self.buckets@[x].nodes@, a));
                            } else if prenodes.len() < MAX_BUCKET_SIZE {
                                assert(postnodes[m].addr_id == a);
                            } else {
                                assert(nd.spec_state(now) != NodeState::Bad);
                                prenodes.lemma_filter_contains(
                                    |n: Node| n.spec_state(now) != NodeState::Bad,
                                    m,
                                );
                                let f = spec_purge(prenodes, now);
                                let w = choose|w: int| 0 <= w < f.len() && f[w] == nd;
                                assert(postnodes[w].addr_id == a);
                            }
                        } else {
                            assert(seq_contains_addr(self.buckets@[x].nodes@, a));
                        }
                    }
                    if kind is Unknown {
                        assert(postnodes == prenodes);
                        assert forall|a: AddrId| self.has_addr(a) <==> before.has_addr(a) by {
                            if self.has_addr(a) {
                                let x = choose|x: int|
                                    0 <= x < self.buckets@.len() && seq_contains_addr(
                                        self.buckets@[x].nodes@,
                                        a,
                                    );
                                assert(seq_contains_addr(before.buckets@[x].nodes@, a));
                            }
                            if before.has_addr(a) {
                                let x = choose|x: int|
                                    0 <= x < before.buckets@.len() && seq_contains_addr(
                                        before.buckets@[x].nodes@,
                                        a,
                                    );
                                assert(seq_contains_addr(self.buckets@[x].nodes@, a));
                            }
                        }
                    }
                }
                return;
            }
        }
    }

    /// An outbound transaction to the contact timed out: its record, if
    /// held, is penalized and a matching ping is cleared; the table is
    /// otherwise untouched.
    pub fn on_resp_timeout(&mut self, addr_id: &AddrId, tx_id: &transaction::Id)
        requires
            old(self).wf(),
        ensures
            final(self).wf(),
            final(self).pivot == old(self).pivot,
            !old(self).has_addr(*addr_id) ==> final(self).buckets@ == old(self).buckets@,
            old(self).has_addr(*addr_id) ==> ({
                let i = old(self).locate_addr(*addr_id);
                let k = index_of_addr(old(self).buckets@[i].nodes@, *addr_id);
                &&& final(self).buckets@.len() == old(self).buckets@.len()
                &&& forall|j: int|
                    0 <= j < old(self).buckets@.len() && j != i ==> final(self).buckets@[j] == old(
                        self,
                    ).buckets@[j]
                &&& final(self).buckets@[i].range == old(self).buckets@[i].range
                &&& final(self).buckets@[i].refresh_deadline == old(
                    self,
                ).buckets@[i].refresh_deadline
                &&& final(self).buckets@[i].nodes@ == old(self).buckets@[i].nodes@.update(
                    k,
                    old(self).buckets@[i].nodes@[k].spec_after_timeout(*tx_id),
                )
            }),
    {
        let ghost pre = *self;
        let i = self.find_idx(&addr_id.id);
        proof {
            if !seq_contains_addr(pre.buckets@[i as int].nodes@, *addr_id) {
                pre.lemma_absent_everywhere(*addr_id, i as int);
            } else {
                pre.lemma_locate_addr_is(*addr_id, i as int);
            }
        }
        let b = vstd::std_specs::vec::vec_index_mut(&mut self.buckets, i);
        b.on_resp_timeout(addr_id, tx_id);
        proof {
            Self::lemma_wf_after_bucket_update(pre, *self, i as int);
            if !pre.has_addr(*addr_id) {
                assert(self.buckets@ =~= pre.buckets@);
            }
        }
    }
}

/// The XOR distance between a record's id and a target, as a value.
pub open spec fn dist(target: Id, a: Id) -> nat {
    (Id { hi: a.hi ^ target.hi, lo: a.lo ^ target.lo })@
}

/// Whether a sequence of pairs is ordered by ascending XOR distance to
/// the target.
pub open spec fn sorted_by_distance(target: Id, s: Seq<AddrId>) -> bool {
    forall|i: int, j: int|
        0 <= i < j < s.len() ==> dist(target, #[trigger] s[i].id) <= dist(target, #[trigger] s[j].id)
}

/// All records of a bucket sequence, flattened in order.
pub open spec fn records_of_buckets(bs: Seq<Bucket>) -> Seq<AddrId>
    decreases bs.len(),
{
    if bs.len() == 0 {
        Seq::empty()
    } else {
        records_of_buckets(bs.drop_last()) + bs.last().nodes@.map(
            |k: int, n: Node| n.addr_id,
        )
    }
}

/// A witness that `r` is the stable sort of `s` by ascending XOR distance
/// to the target: `perm` maps result positions to distinct source
/// positions, and positions with equal distance keep their source order.
pub open spec fn stable_sort_witness(s: Seq<AddrId>, r: Seq<AddrId>, perm: Seq<int>, target: Id) -> bool {
    &&& r.len() == s.len()
    &&& perm.len() == s.len()
    &&& forall|k: int| 0 <= k < perm.len() ==> 0 <= #[trigger] perm[k] < s.len() && r[k] == s[perm[k]]
    &&& forall|i: int, j: int|
        0 <= i < j < perm.len() ==> dist(target, #[trigger] r[i].id) < dist(
            target,
            #[trigger] r[j].id,
        ) || (dist(target, r[i].id) == dist(target, r[j].id) && perm[i] < perm[j])
    &&& forall|i: int, j: int| 0 <= i < j < perm.len() ==> #[trigger] perm[i] != #[trigger] perm[j]
}

/// Sorts address-id pairs by ascending XOR distance to the target; the
/// result holds exactly the input pairs, and equal distances keep their
/// input order: the scan always extracts the earliest remaining minimum.
#[verifier::rlimit(100)]
fn sort_by_distance(target: &Id, input: Vec<AddrId>) -> (r: Vec<AddrId>)
    ensures
        r@.to_multiset() == input@.to_multiset(),
        r@.len() == input@.len(),
        sorted_by_distance(*target, r@),
        exists|perm: Seq<int>| stable_sort_witness(input@, r@, perm, *target),
{
    broadcast use vstd::seq_lib::group_to_multiset_ensures;

    let mut work = input;
    let mut out: Vec<AddrId> = Vec::new();
    // The source position of each remaining and each extracted pair.
    let ghost mut work_idx: Seq<int> = Seq::new(work@.len(), |k: int| k);
    let ghost mut out_idx: Seq<int> = Seq::empty();
    while work.len() > 0
        invariant
            out@.to_multiset().add(work@.to_multiset()) == input@.to_multiset(),
            out@.len() + work@.len() == input@.len(),
            sorted_by_distance(*target, out@),
            forall|x: int, y: int|
                0 <= x < out@.len() && 0 <= y < work@.len() ==> dist(*target, #[trigger] out@[x].id)
                    <= dist(*target, #[trigger] work@[y].id),
            work_idx.len() == work@.len(),
            out_idx.len() == out@.len(),
            forall|k: int|
                0 <= k < work_idx.len() ==> 0 <= #[trigger] work_idx[k] < input@.len() && work@[k]
                    == input@[work_idx[k]],
            forall|i: int, j: int|
                0 <= i < j < work_idx.len() ==> #[trigger] work_idx[i] < #[trigger] work_idx[j],
            forall|k: int|
                0 <= k < out_idx.len() ==> 0 <= #[trigger] out_idx[k] < input@.len() && out@[k]
                    == input@[out_idx[k]],
            forall|i: int, j: int|
                0 <= i < j < out_idx.len() ==> dist(*target, out@[i].id) < dist(*target, out@[j].id)
                    || (dist(*target, out@[i].id) == dist(*target, out@[j].id) && #[trigger] out_idx[i]
                    < #[trigger] out_idx[j]),
            forall|i: int, j: int|
                0 <= i < j < out_idx.len() ==> #[trigger] out_idx[i] != #[trigger] out_idx[j],
            forall|x: int, y: int|
                0 <= x < out_idx.len() && 0 <= y < work_idx.len() ==> #[trigger] out_idx[x]
                    != #[trigger] work_idx[y],
            forall|x: int, y: int|
                0 <= x < out_idx.len() && 0 <= y < work_idx.len() ==> (dist(*target, out@[x].id)
                    == dist(*target, work@[y].id) ==> #[trigger] out_idx[x] < #[trigger] work_idx[y]),
        decreases work@.len(),
    {
        // Index of the first remaining pair at minimal distance.
        let mut m: usize = 0;
        let mut i: usize = 1;
        while i < work.len()
            invariant
                m < i <= work@.len(),
                work@.len() > 0,
                forall|j: int| 0 <= j < i ==> dist(*target, work@[m as int].id) <= dist(
                    *target,
                    #[trigger] work@[j].id,
                ),
                forall|j: int| 0 <= j < m ==> dist(*target, work@[m as int].id) < dist(
                    *target,
                    #[trigger] work@[j].id,
                ),
            decreases work@.len() - i,
        {
            let di = work[i].id.distance(target);
            let dm = work[m].id.distance(target);
            if di.lt(&dm) {
                m = i;
            }
            i += 1;
        }
        let ghost pre_work = work@;
        let ghost pre_out = out@;
        let ghost pre_widx = work_idx;
        let ghost pre_oidx = out_idx;
        let v = work.remove(m);
        out.push(v);
        proof {
            out_idx = pre_oidx.push(pre_widx[m as int]);
            work_idx = pre_widx.remove(m as int);
            pre_out.to_multiset_ensures();
            pre_work.to_multiset_ensures();
            assert(out@ == pre_out.push(v));
            assert(work@ == pre_work.remove(m as int));
            assert(out@.to_multiset() =~= pre_out.to_multiset().insert(v));
            assert(work@.to_multiset() =~= pre_work.to_multiset().remove(v));
            assert(pre_work.contains(v));
            assert(pre_work.to_multiset().count(v) > 0);
            assert(out@.to_multiset().add(work@.to_multiset()) =~= pre_out.to_multiset().add(
                pre_work.to_multiset(),
            ));
            assert(forall|y: int|
                0 <= y < work@.len() ==> #[trigger] work@[y] == (if y < m {
                    pre_work[y]
                } else {
                    pre_work[y + 1]
                }));
            assert(forall|y: int|
                0 <= y < work_idx.len() ==> #[trigger] work_idx[y] == (if y < m {
                    pre_widx[y]
                } else {
                    pre_widx[y + 1]
                }));
            assert forall|y: int| 0 <= y < work@.len() implies dist(*target, out@[out@.len() - 1].id)
                <= dist(*target, #[trigger] work@[y].id) by {
                assert(work@[y] == if y < m { pre_work[y] } else { pre_work[y + 1] });
            }
            // The extracted pair precedes, in source order, every
            // remaining pair at the same distance.
            assert forall|y: int|
                0 <= y < work_idx.len() && dist(*target, out@[out@.len() - 1].id) == dist(
                    *target,
                    work@[y].id,
                ) implies out_idx[out_idx.len() - 1] < work_idx[y] by {
                if y < m {
                    assert(dist(*target, pre_work[m as int].id) < dist(*target, pre_work[y].id));
                } else {
                    assert(pre_widx[m as int] < pre_widx[y + 1]);
                }
            }
        }
    }
    proof {
        assert(out@.to_multiset() =~= input@.to_multiset()) by {
            assert(work@.to_multiset().len() == 0);
            assert(out@.to_multiset().add(work@.to_multiset()) =~= out@.to_multiset());
        }
        assert(stable_sort_witness(input@, out@, out_idx, *target));
    }
    out
}

impl Table {
    /// Every held record's address-id pair, in bucket order.
    pub fn all_addr_ids(&self) -> (r: Vec<AddrId>)
        ensures
            r@ == records_of_buckets(self.buckets@),
    {
        let mut r: Vec<AddrId> = Vec::new();
        let mut i: usize = 0;
        while i < self.buckets.len()
            invariant
                i <= self.buckets@.len(),
                r@ == records_of_buckets(self.buckets@.subrange(0, i as int)),
            decreases self.buckets@.len() - i,
        {
            let b = &self.buckets[i];
            let mut k: usize = 0;
            while k < b.nodes.len()
                invariant
                    k <= b.nodes@.len(),
                    b == &self.buckets[i as int],
                    i < self.buckets@.len(),
                    r@ == records_of_buckets(self.buckets@.subrange(0, i as int))
                        + b.nodes@.map(|x: int, n: Node| n.addr_id).subrange(0, k as int),
                decreases b.nodes@.len() - k,
            {
                r.push(b.nodes[k].addr_id);
                proof {
                    assert(b.nodes@.map(|x: int, n: Node| n.addr_id).subrange(0, k + 1)
                        =~= b.nodes@.map(|x: int, n: Node| n.addr_id).subrange(0, k as int).push(
                        b.nodes@[k as int].addr_id,
                    ));
                }
                k += 1;
            }
            proof {
                assert(self.buckets@.subrange(0, i + 1).drop_last() =~= self.buckets@.subrange(
                    0,
                    i as int,
                ));
                assert(b.nodes@.map(|x: int, n: Node| n.addr_id).subrange(
                    0,
                    b.nodes@.len() as int,
                ) =~= b.nodes@.map(|x: int, n: Node| n.addr_id));
            }
            i += 1;
        }
        proof {
            assert(self.buckets@.subrange(0, self.buckets@.len() as int) =~= self.buckets@);
        }
        r
    }

    /// Neighbor search: every held record, ordered by ascending XOR
    /// distance to the target id. The caller takes the prefix it needs.
    pub fn find_neighbors(&self, id: &Id, _now: Instant) -> (r: Vec<AddrId>)
        ensures
            r@.to_multiset() == records_of_buckets(self.buckets@).to_multiset(),
            r@.len() == records_of_buckets(self.buckets@).len(),
            sorted_by_distance(*id, r@),
            exists|perm: Seq<int>|
                stable_sort_witness(records_of_buckets(self.buckets@), r@, perm, *id),
    {
        broadcast use vstd::seq_lib::group_to_multiset_ensures;

        let all = self.all_addr_ids();
        sort_by_distance(id, all)
    }

    /// The earliest deadline of interest across the table: the soonest
    /// bucket refresh or contact ping deadline.
    pub fn timeout(&self) -> (r: Option<Instant>)
        ensures
            r is Some <==> self.buckets@.len() > 0,
            r matches Some(m) ==> m == min_bucket_timeout(self.buckets@),
    {
        if self.buckets.len() == 0 {
            return None;
        }
        let mut best: Instant = u64::MAX;
        let mut i: usize = 0;
        while i < self.buckets.len()
            invariant
                i <= self.buckets@.len(),
                best == min_bucket_timeout(self.buckets@.subrange(0, i as int)),
            decreases self.buckets@.len() - i,
        {
            proof {
                assert(self.buckets@.subrange(0, i + 1).drop_last() =~= self.buckets@.subrange(
                    0,
                    i as int,
                ));
            }
            let t = self.buckets[i].timeout();
            if t < best {
                best = t;
            }
            i += 1;
        }
        proof {
            assert(self.buckets@.subrange(0, self.buckets@.len() as int) =~= self.buckets@);
        }
        Some(best)
    }

    /// The first contact in bucket order that is `Questionable` at `now`
    /// with no ping in flight, if any: the candidate the host should ping.
    pub fn find_node_to_ping(&self, now: Instant) -> (r: Option<AddrId>)
        ensures
            r matches Some(a) ==> exists|i: int, k: int|
                first_ping_candidate_at(self.buckets@, now, i, k) && (
                #[trigger] self.buckets@[i].nodes@[k]).addr_id == a,
            r is None ==> forall|i: int, k: int|
                0 <= i < self.buckets@.len() && 0 <= k < self.buckets@[i].nodes@.len()
                    ==> !ping_candidate(#[trigger] self.buckets@[i].nodes@[k], now),
    {
        let mut i: usize = 0;
        while i < self.buckets.len()
            invariant
                i <= self.buckets@.len(),
                forall|x: int, k: int|
                    0 <= x < i && 0 <= k < self.buckets@[x].nodes@.len() ==> !ping_candidate(
                        #[trigger] self.buckets@[x].nodes@[k],
                        now,
                    ),
            decreases self.buckets@.len() - i,
        {
            match self.buckets[i].find_node_to_ping(now) {
                Some(k) => {
                    proof {
                        assert(first_ping_candidate_at(self.buckets@, now, i as int, k as int));
                    }
                    return Some(self.buckets[i].nodes[k].addr_id);
                },
                None => {},
            }
            i += 1;
        }
        None
    }

    /// Marks the held record for the pair as pinged with the transaction
    /// id; a pair with no record is ignored.
    pub fn on_ping(&mut self, addr_id: &AddrId, tx_id: transaction::Id)
        requires
            old(self).wf(),
        ensures
            final(self).wf(),
            final(self).pivot == old(self).pivot,
            !old(self).has_addr(*addr_id) ==> *final(self) == *old(self),
            old(self).has_addr(*addr_id) ==> ({
                let i = old(self).locate_addr(*addr_id);
                let k = index_of_addr(old(self).buckets@[i].nodes@, *addr_id);
                &&& final(self).buckets@.len() == old(self).buckets@.len()
                &&& forall|j: int|
                    0 <= j < old(self).buckets@.len() && j != i ==> final(self).buckets@[j] == old(
                        self,
                    ).buckets@[j]
                &&& final(self).buckets@[i].range == old(self).buckets@[i].range
                &&& final(self).buckets@[i].refresh_deadline == old(
                    self,
                ).buckets@[i].refresh_deadline
                &&& final(self).buckets@[i].nodes@ == old(self).buckets@[i].nodes@.update(
                    k,
                    (Node {
                        ping_tx_id: Some(tx_id),
                        ..old(self).buckets@[i].nodes@[k]
                    }),
                )
            }),
    {
        let ghost pre = *self;
        let i = self.find_idx(&addr_id.id);
        let found = self.buckets[i].position_of(addr_id);
        match found {
            None => {
                proof {
                    pre.lemma_absent_everywhere(*addr_id, i as int);
                }
            },
            Some(k) => {
                proof {
                    pre.lemma_locate_addr_is(*addr_id, i as int);
                    let kk = index_of_addr(pre.buckets@[i as int].nodes@, *addr_id);
                    assert(pre.buckets@[i as int].nodes@[kk].addr_id == *addr_id);
                    if kk != k as int {
                        assert(pre.buckets@[i as int].nodes@[kk].addr_id != pre.buckets@[i as int].nodes@[k as int].addr_id);
                    }
                }
                let b = vstd::std_specs::vec::vec_index_mut(&mut self.buckets, i);
                let mut n = b.nodes[k];
                n.on_ping(tx_id);
                b.nodes[k] = n;
                proof {
                    assert(self.buckets@[i as int].wf()) by {
                        let post = self.buckets@[i as int];
                        let prev = pre.buckets@[i as int];
                        assert forall|x: int|
                            0 <= x < post.nodes@.len() implies post.range.spec_contains(
                            #[trigger] post.nodes@[x].addr_id.id,
                        ) by {
                            assert(post.nodes@[x].addr_id == prev.nodes@[x].addr_id);
                        }
                        assert forall|x: int, y: int|
                            0 <= x < y < post.nodes@.len() implies post.nodes@[x].addr_id
                            != post.nodes@[y].addr_id by {
                            assert(post.nodes@[x].addr_id == prev.nodes@[x].addr_id);
                            assert(post.nodes@[y].addr_id == prev.nodes@[y].addr_id);
                        }
                    }
                    Self::lemma_wf_after_bucket_update(pre, *self, i as int);
                }
            },
        }
    }

    /// The index of a bucket whose refresh deadline has passed, if any.
    pub fn find_bucket_to_refresh(&self, now: Instant) -> (r: Option<usize>)
        ensures
            r matches Some(i) ==> i < self.buckets@.len() && self.buckets@[i as int].refresh_deadline
                <= now,
            r is None ==> forall|i: int|
                0 <= i < self.buckets@.len() ==> (#[trigger] self.buckets@[i]).refresh_deadline
                    > now,
    {
        let mut i: usize = 0;
        while i < self.buckets.len()
            invariant
                i <= self.buckets@.len(),
                forall|j: int| 0 <= j < i ==> (#[trigger] self.buckets@[j]).refresh_deadline > now,
            decreases self.buckets@.len() - i,
        {
            if self.buckets[i].refresh_deadline <= now {
                return Some(i);
            }
            i += 1;
        }
        None
    }

    /// The range of the bucket at the given index.
    pub fn bucket_range(&self, i: usize) -> (r: IdRange)
        requires
            i < self.buckets@.len(),
        ensures
            r == self.buckets@[i as int].range,
    {
        self.buckets[i].range
    }

    /// Resets the refresh deadline of the bucket at the given index.
    pub fn set_bucket_refresh_deadline(&mut self, i: usize, deadline: Instant)
        requires
            old(self).wf(),
            i < old(self).buckets@.len(),
        ensures
            final(self).wf(),
            final(self).pivot == old(self).pivot,
            final(self).buckets@.len() == old(self).buckets@.len(),
            forall|j: int|
                0 <= j < old(self).buckets@.len() && j != i ==> final(self).buckets@[j] == old(
                    self,
                ).buckets@[j],
            final(self).buckets@[i as int] == (Bucket {
                refresh_deadline: deadline,
                ..old(self).buckets@[i as int]
            }),
    {
        let ghost pre = *self;
        let b = vstd::std_specs::vec::vec_index_mut(&mut self.buckets, i);
        b.set_refresh_deadline(deadline);
        proof {
            Self::lemma_wf_after_bucket_update(pre, *self, i as int);
        }
    }

    /// Processes bucket-refresh deadlines: each bucket whose refresh
    /// deadline has passed gets it reset to `now` plus the refresh
    /// interval, and the bucket's range is returned so that the caller can
    /// look up a random id inside it.
    pub fn on_timeout(&mut self, now: Instant) -> (r: Vec<IdRange>)
        requires
            old(self).wf(),
            now <= INSTANT_LIMIT,
        ensures
            final(self).wf(),
            final(self).pivot == old(self).pivot,
            final(self).buckets@.len() == old(self).buckets@.len(),
            forall|j: int|
                0 <= j < old(self).buckets@.len() ==> final(self).buckets@[j] == (if old(
                    self,
                ).buckets@[j].refresh_deadline <= now {
                    Bucket {
                        refresh_deadline: (now + crate::BUCKET_REFRESH_INTERVAL_MS) as u64,
                        ..old(self).buckets@[j]
                    }
                } else {
                    old(self).buckets@[j]
                }),
            r@ == expired_ranges(old(self).buckets@, now),
    {
        let ghost pre = *self;
        proof {
            assert(pre.buckets@.subrange(0, pre.buckets@.len() as int) =~= pre.buckets@);
        }
        let mut r: Vec<IdRange> = Vec::new();
        let mut i: usize = 0;
        while i < self.buckets.len()
            invariant
                pre.wf(),
                now <= INSTANT_LIMIT,
                self.pivot == pre.pivot,
                i <= self.buckets@.len(),
                self.buckets@.len() == pre.buckets@.len(),
                forall|j: int|
                    0 <= j < pre.buckets@.len() ==> self.buckets@[j] == (if j < i
                        && pre.buckets@[j].refresh_deadline <= now {
                        Bucket {
                            refresh_deadline: (now + crate::BUCKET_REFRESH_INTERVAL_MS) as u64,
                            ..pre.buckets@[j]
                        }
                    } else {
                        pre.buckets@[j]
                    }),
                r@ == expired_ranges(pre.buckets@.subrange(0, i as int), now),
            decreases self.buckets@.len() - i,
        {
            proof {
                assert(self.buckets@[i as int] == pre.buckets@[i as int]);
                assert(pre.buckets@.subrange(0, i + 1).drop_last() =~= pre.buckets@.subrange(
                    0,
                    i as int,
                ));
            }
            if self.buckets[i].refresh_deadline <= now {
                r.push(self.buckets[i].range);
                let b = vstd::std_specs::vec::vec_index_mut(&mut self.buckets, i);
                b.set_refresh_deadline(now + crate::BUCKET_REFRESH_INTERVAL_MS);
            }
            i += 1;
        }
        proof {
            assert forall|j: int| 0 <= j < self.buckets@.len() implies (
            #[trigger] self.buckets@[j]).wf() by {
                assert(pre.buckets@[j].wf());
            }
            assert forall|x: int, y: int|
                0 <= x < y < self.buckets@.len() implies (
            #[trigger] self.buckets@[x].range).disjoint(#[trigger] self.buckets@[y].range) by {
                assert(self.buckets@[x].range == pre.buckets@[x].range);
                assert(self.buckets@[y].range == pre.buckets@[y].range);
            }
            assert forall|id: Id| #[trigger] self.covers(id) by {
                assert(pre.covers(id));
                let k = choose|k: int|
                    0 <= k < pre.buckets@.len() && pre.buckets@[k].range.spec_contains(id);
                assert(self.buckets@[k].range.spec_contains(id));
            }
            assert(self.buckets@[self.buckets@.len() - 1].range == pre.buckets@[pre.buckets@.len()
                - 1].range);
        }
        r
    }
}

/// The ranges of the buckets whose refresh deadline has passed, in order.
pub open spec fn expired_ranges(bs: Seq<Bucket>, now: Instant) -> Seq<IdRange>
    decreases bs.len(),
{
    if bs.len() == 0 {
        Seq::empty()
    } else {
        expired_ranges(bs.drop_last(), now) + (if bs.last().refresh_deadline <= now {
            seq![bs.last().range]
        } else {
            Seq::empty()
        })
    }
}

/// Every range a refresh pass returns is a bucket's range, hence proper.
pub proof fn lemma_expired_ranges_wf(bs: Seq<Bucket>, now: Instant)
    requires
        forall|i: int| 0 <= i < bs.len() ==> (#[trigger] bs[i]).wf(),
    ensures
        forall|j: int|
            0 <= j < expired_ranges(bs, now).len() ==> (#[trigger] expired_ranges(bs, now)[j]).wf(),
    decreases bs.len(),
{
    if bs.len() > 0 {
        let b0 = bs.drop_last();
        assert(forall|i: int| 0 <= i < b0.len() ==> #[trigger] b0[i] == bs[i]);
        lemma_expired_ranges_wf(b0, now);
        assert forall|j: int|
            0 <= j < expired_ranges(bs, now).len() implies (#[trigger] expired_ranges(bs, now)[j]).wf() by {
            if j < expired_ranges(b0, now).len() {
                assert(expired_ranges(bs, now)[j] == expired_ranges(b0, now)[j]);
            } else {
                assert(expired_ranges(bs, now)[j] == bs.last().range);
                assert(bs[bs.len() - 1].wf());
            }
        }
    }
}

/// The earliest bucket deadline in the sequence, or the largest instant
/// when the sequence is empty.
pub open spec fn min_bucket_timeout(bs: Seq<Bucket>) -> Instant
    decreases bs.len(),
{
    if bs.len() == 0 {
        u64::MAX
    } else {
        let rest = min_bucket_timeout(bs.drop_last());
        if bs.last().spec_bucket_timeout() < rest {
            bs.last().spec_bucket_timeout()
        } else {
            rest
        }
    }
}

/// Law: the bucket ranges of a well-formed routing table partition the id
/// space: every id lies in exactly one bucket's range.
pub proof fn lemma_bucket_ranges_partition(t: Table, id: Id)
    requires
        t.wf(),
    ensures
        exists|i: int| 0 <= i < t.buckets@.len() && (#[trigger] t.buckets@[i].range).spec_contains(
            id,
        ),
        forall|i: int, j: int|
            0 <= i < t.buckets@.len() && 0 <= j < t.buckets@.len() && (
            #[trigger] t.buckets@[i].range).spec_contains(id) && (
            #[trigger] t.buckets@[j].range).spec_contains(id) ==> i == j,
{
    assert(t.covers(id));
    assert forall|i: int, j: int|
        0 <= i < t.buckets@.len() && 0 <= j < t.buckets@.len() && (
        #[trigger] t.buckets@[i].range).spec_contains(id) && (
        #[trigger] t.buckets@[j].range).spec_contains(id) implies i == j by {
        if i != j {
            assert(t.buckets@[i].range.disjoint(t.buckets@[j].range) || t.buckets@[
                j
            ].range.disjoint(t.buckets@[i].range));
        }
    }
}

/// Law: exactly one bucket of a well-formed table contains the pivot — the
/// last one, which is the only bucket the split operation may divide.
pub proof fn lemma_one_pivot_bucket(t: Table)
    requires
        t.wf(),
    ensures
        t.buckets@[t.buckets@.len() - 1].range.spec_contains(t.pivot),
        forall|i: int|
            0 <= i < t.buckets@.len() && (#[trigger] t.buckets@[i].range).spec_contains(t.pivot)
                ==> i == t.buckets@.len() - 1,
{
    lemma_bucket_ranges_partition(t, t.pivot);
}

/// Law: no bucket of a well-formed table holds more than
/// `MAX_BUCKET_SIZE` records.
pub proof fn lemma_bucket_capacity(t: Table)
    requires
        t.wf(),
    ensures
        forall|i: int|
            0 <= i < t.buckets@.len() ==> (#[trigger] t.buckets@[i]).nodes@.len()
                <= MAX_BUCKET_SIZE,
{
}

/// Law: the prefix of a neighbor search is minimal — no entry outside the
/// first `k` lies strictly closer to the target than any of the first
/// `k` — and entries at equal distance keep the order the records are
/// held in.
pub proof fn lemma_neighbors_prefix_minimal(
    target: Id,
    s: Seq<AddrId>,
    r: Seq<AddrId>,
    perm: Seq<int>,
    k: int,
)
    requires
        stable_sort_witness(s, r, perm, target),
        0 <= k <= r.len(),
    ensures
        forall|i: int, j: int|
            0 <= i < k && k <= j < r.len() ==> dist(target, #[trigger] r[i].id) <= dist(
                target,
                #[trigger] r[j].id,
            ),
        forall|i: int, j: int|
            0 <= i < j < r.len() && dist(target, #[trigger] r[i].id) == dist(
                target,
                #[trigger] r[j].id,
            ) ==> perm[i] < perm[j],
{
}

} // verus!
