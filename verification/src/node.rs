//! The node facade: ties the routing table, transaction manager, message
//! buffer, and find-node operations together behind the host-facing API.
//!
//! The host feeds received datagrams in through [`Node::on_recv`] and the
//! clock through explicit `now` parameters; it pulls outbound datagrams
//! with [`Node::send_to`], inbound events with [`Node::read`], and the
//! next deadline with [`Node::timeout`].

use vstd::prelude::*;
use crate::find_node_op::{FindNodeOp, Response};
use crate::id::{AddrId, AddrOptId, CompactAddr, Id};
use crate::krpc::{self, Kind, KrpcMsg, MsgBody};
use crate::msg_buffer::{opt_vclone, vclone, Buffer, OutboundMsg};
use crate::transaction::{self, Transaction, Transactions};
use crate::routing;
use crate::{
    Config, Error, ErrorKind, Instant, MsgEvent, ReadEvent, BUCKET_REFRESH_INTERVAL_MS,
    FIND_LOCAL_ID_INTERVAL_MS, INSTANT_LIMIT,
};

verus! {

/// A copy of a message with the same mathematical value.
fn msg_clone(m: &KrpcMsg) -> (r: KrpcMsg)
    ensures
        r@ == m@,
{
    let body = match &m.body {
        MsgBody::Query { method, id, target } => MsgBody::Query {
            method: vclone(method),
            id: *id,
            target: *target,
        },
        MsgBody::Resp { id, nodes } => MsgBody::Resp {
            id: *id,
            nodes: match nodes {
                Some(n) => Some(vclone(n)),
                None => None,
            },
        },
        MsgBody::Error { code, msg } => MsgBody::Error { code: *code, msg: vclone(msg) },
    };
    KrpcMsg { t: vclone(&m.t), v: opt_vclone(&m.v), body }
}

/// Whether a response with the given wire transaction-id field and
/// claimed id reconciles against the held set: the field names a held
/// transaction and the responder passes the identity checks.
pub open spec fn resp_reconciles(
    txs: Transactions,
    t: Seq<u8>,
    qid: Id,
    config: Config,
) -> bool {
    &&& t.len() == 2
    &&& txs.spec_contains_id(crate::transaction::tx_id_of_bytes(t))
    &&& crate::transaction::resp_accepted(
        txs@[txs.index_of_tx(crate::transaction::tx_id_of_bytes(t))],
        Some(qid),
        config.is_response_queried_node_id_strictly_checked,
        config.local_id,
    )
}

/// The sum of two instants, capped at the largest one.
pub open spec fn sat_add64(a: u64, b: u64) -> u64 {
    if a + b <= u64::MAX {
        (a + b) as u64
    } else {
        u64::MAX
    }
}

/// The distributed hash table node.
#[derive(Debug)]
pub struct Node {
    pub config: Config,
    pub routing_table: routing::Table,
    pub find_pivot_id_deadline: Instant,
    pub tx_manager: Transactions,
    pub find_node_ops: Vec<FindNodeOp>,
    pub buffer: Buffer,
}

impl Node {
    /// The node's composite well-formedness: the routing table partitions
    /// the id space around the configured pivot, transaction ids are
    /// unique, and every lookup is well formed.
    pub open spec fn wf(self) -> bool {
        &&& self.routing_table.wf()
        &&& self.tx_manager.wf()
        &&& self.routing_table.pivot == self.config.local_id
        &&& forall|i: int|
            0 <= i < self.find_node_ops@.len() ==> (#[trigger] self.find_node_ops@[i]).wf()
        &&& match self.config.client_version {
            Some(vv) => vv@.len() <= krpc::MAX_FIELD_LEN,
            None => true,
        }
    }

    /// Instantiates a new node: the known contacts go into the routing
    /// table subject to the split rule, and a lookup toward the local id
    /// itself starts against the bootstrap addresses.
    pub fn new(
        config: Config,
        addr_ids: Vec<AddrId>,
        bootstrap_socket_addrs: Vec<CompactAddr>,
        now: Instant,
    ) -> (r: Node)
        requires
            now <= INSTANT_LIMIT,
            match config.client_version {
                Some(vv) => vv@.len() <= krpc::MAX_FIELD_LEN,
                None => true,
            },
        ensures
            r.wf(),
            r.config == config,
            r.find_pivot_id_deadline == now + FIND_LOCAL_ID_INTERVAL_MS,
            r.tx_manager@.len() == 0,
            r.buffer.inbound@.len() == 0,
            forall|a: AddrId|
                #[trigger] r.routing_table.has_addr(a) ==> a.id != config.local_id && exists|
                    k: int,
                | 0 <= k < addr_ids@.len() && addr_ids@[k] == a,
            addr_ids@.len() <= crate::MAX_BUCKET_SIZE ==> forall|k: int|
                0 <= k < addr_ids@.len() ==> ((#[trigger] addr_ids@[k]).id == config.local_id
                    || r.routing_table.has_addr(addr_ids@[k])),
            r.find_node_ops@.len() == 1,
            r.find_node_ops@[0].target == config.local_id,
            r.find_node_ops@[0].supported_addr == config.supported_addr,
            bootstrap_socket_addrs@.len() + crate::find_node_op::K_CLOSEST
                <= crate::find_node_op::MAX_CANDIDATES ==> forall|k: int|
                0 <= k < bootstrap_socket_addrs@.len() ==> r.find_node_ops@[0].tracks(
                    (AddrOptId { addr: #[trigger] bootstrap_socket_addrs@[k], id: None }),
                ),
            forall|j: int|
                0 <= j < r.buffer.outbound@.len() ==> crate::find_node_op::is_lookup_query(
                    #[trigger] r.buffer.outbound@[j],
                    config,
                    config.local_id,
                ),
            (addr_ids@.len() == 0 && bootstrap_socket_addrs@.len() >= 1
                && bootstrap_socket_addrs@.len() + crate::find_node_op::K_CLOSEST
                <= crate::find_node_op::MAX_CANDIDATES) ==> r.buffer.outbound@.len() >= 1 && forall|
                j: int,
            |
                0 <= j < r.buffer.outbound@.len() ==> exists|k: int|
                    0 <= k < bootstrap_socket_addrs@.len() && (
                    #[trigger] r.buffer.outbound@[j]).addr_opt_id == (AddrOptId {
                        addr: bootstrap_socket_addrs@[k],
                        id: None,
                    }),
    {
        let local_id = config.local_id;
        let mut routing_table = routing::Table::new(local_id, now);
        proof {
            assert(routing::buckets_within(routing_table.buckets@, 0));
        }
        let mut i: usize = 0;
        while i < addr_ids.len()
            invariant
                routing_table.wf(),
                routing_table.pivot == local_id,
                now <= INSTANT_LIMIT,
                i <= addr_ids@.len(),
                routing::buckets_within(routing_table.buckets@, i as int),
                forall|a: AddrId|
                    #[trigger] routing_table.has_addr(a) ==> a.id != local_id && exists|k: int|
                        0 <= k < i && addr_ids@[k] == a,
                addr_ids@.len() <= crate::MAX_BUCKET_SIZE ==> forall|k: int|
                    0 <= k < i ==> ((#[trigger] addr_ids@[k]).id == local_id
                        || routing_table.has_addr(addr_ids@[k])),
                addr_ids@.len() == 0 ==> routing_table.buckets@.len() == 1
                    && routing_table.buckets@[0].nodes@.len() == 0,
            decreases addr_ids@.len() - i,
        {
            let ghost pre_table = routing_table;
            let inserted = routing_table.try_insert(addr_ids[i], now);
            proof {
                assert(routing::buckets_within(routing_table.buckets@, i + 1));
                if addr_ids@.len() <= crate::MAX_BUCKET_SIZE {
                    if addr_ids@[i as int].id != local_id && !pre_table.has_addr(
                        addr_ids@[i as int],
                    ) {
                        assert(routing::buckets_within(
                            pre_table.buckets@,
                            crate::MAX_BUCKET_SIZE - 1,
                        )) by {
                            assert(forall|x: int|
                                0 <= x < pre_table.buckets@.len() ==> (
                                #[trigger] pre_table.buckets@[x]).nodes@.len() <= i);
                        }
                        assert(inserted);
                    }
                }
                assert forall|a: AddrId| #[trigger] routing_table.has_addr(a) implies a.id
                    != local_id && exists|k: int| 0 <= k < i + 1 && addr_ids@[k] == a by {
                    if a != addr_ids@[i as int] {
                        assert(pre_table.has_addr(a));
                    } else {
                        assert(addr_ids@[i as int] == a);
                    }
                }
            }
            i += 1;
        }
        let mut node = Node {
            config,
            routing_table,
            tx_manager: Transactions::new(),
            find_node_ops: Vec::new(),
            buffer: Buffer::new(),
            find_pivot_id_deadline: now + FIND_LOCAL_ID_INTERVAL_MS,
        };
        let ghost table_done = node.routing_table;
        node.find_node_pivot(&bootstrap_socket_addrs, now);
        proof {
            assert(node.find_node_ops@[0] == node.find_node_ops@.last());
            if addr_ids@.len() == 0 && bootstrap_socket_addrs@.len() >= 1
                && bootstrap_socket_addrs@.len() + crate::find_node_op::K_CLOSEST
                <= crate::find_node_op::MAX_CANDIDATES {
                // With no known contacts the table holds no records, so
                // every lookup candidate — and every queued datagram's
                // destination — is a bootstrap address.
                assert(routing::records_of_buckets(table_done.buckets@).len() == 0) by {
                    assert(table_done.buckets@.drop_last() =~= Seq::<routing::Bucket>::empty());
                    assert(routing::records_of_buckets(table_done.buckets@.drop_last())
                        =~= Seq::<AddrId>::empty());
                }
                assert forall|j: int| 0 <= j < node.buffer.outbound@.len() implies exists|k: int|
                    0 <= k < bootstrap_socket_addrs@.len() && (
                    #[trigger] node.buffer.outbound@[j]).addr_opt_id == (AddrOptId {
                        addr: bootstrap_socket_addrs@[k],
                        id: None,
                    }) by {
                    let c = choose|c: int|
                        0 <= c < node.find_node_ops@.last().candidates@.len() && (
                        #[trigger] node.find_node_ops@.last().candidates@[c]).addr_opt_id
                            == node.buffer.outbound@[j].addr_opt_id;
                    assert((exists|k: int|
                        0 <= k < bootstrap_socket_addrs@.len()
                            && node.find_node_ops@.last().candidates@[c].addr_opt_id == (AddrOptId {
                            addr: bootstrap_socket_addrs@[k],
                            id: None,
                        })) || (exists|rec: AddrId|
                        routing::records_of_buckets(table_done.buckets@).contains(rec)
                            && node.find_node_ops@.last().candidates@[c].addr_opt_id == (AddrOptId {
                            addr: rec.addr,
                            id: Some(rec.id),
                        })));
                }
            }
        }
        node
    }

    /// Returns the config.
    pub fn config(&self) -> (r: &Config)
        ensures
            *r == self.config,
    {
        &self.config
    }

    /// A transaction id usable in the next query, drawn at random and
    /// probed against the held set. The id is not reserved until
    /// [`Node::insert_tx`] runs; it fails only when all ids are in use.
    pub fn next_tx_id(&self) -> (r: Result<transaction::Id, Error>)
        ensures
            r matches Ok(tx) ==> !self.tx_manager.spec_contains_id(tx.0),
            self.tx_manager@.len() < 0x10000 ==> r is Ok,
            r matches Err(e) ==> e.kind is TransactionTableFull,
    {
        let start: u16 = rand::random();
        match self.tx_manager.next_tx_id(start) {
            Some(tx_id) => Ok(tx_id),
            None => Err(Error { kind: ErrorKind::TransactionTableFull }),
        }
    }

    /// Inserts a transaction to track an outstanding query; accepted
    /// exactly when its id is free and the table is not full.
    pub fn insert_tx(&mut self, tx: Transaction) -> (r: bool)
        requires
            old(self).wf(),
        ensures
            final(self).wf(),
            *final(self) == (Node { tx_manager: final(self).tx_manager, ..*old(self) }),
            r == (!old(self).tx_manager.spec_contains_id(tx.tx_id.0) && old(self).tx_manager@.len()
                < 0x10000),
            r ==> final(self).tx_manager@ == old(self).tx_manager@.push(tx),
            !r ==> final(self).tx_manager@ == old(self).tx_manager@,
    {
        self.tx_manager.insert(tx)
    }

    /// Adds a lookup the node should drive.
    pub fn insert_find_node_op(&mut self, op: FindNodeOp)
        requires
            old(self).wf(),
            op.wf(),
        ensures
            final(self).wf(),
            final(self).find_node_ops@ == old(self).find_node_ops@.push(op),
            *final(self) == (Node { find_node_ops: final(self).find_node_ops, ..*old(self) }),
    {
        self.find_node_ops.push(op);
    }

    /// Feeds one completed transaction to every lookup and drops the
    /// lookups that became terminal.
    fn dispatch_to_ops(&mut self, tx: &Transaction, resp: Response<'_>)
        requires
            old(self).wf(),
        ensures
            final(self).wf(),
            final(self).config == old(self).config,
            final(self).routing_table == old(self).routing_table,
            final(self).tx_manager == old(self).tx_manager,
            final(self).find_pivot_id_deadline == old(self).find_pivot_id_deadline,
            final(self).buffer.inbound == old(self).buffer.inbound,
            forall|i: int|
                0 <= i < final(self).find_node_ops@.len() ==> !(
                #[trigger] final(self).find_node_ops@[i]).spec_done(),
    {
        let mut i: usize = 0;
        while i < self.find_node_ops.len()
            invariant
                self.wf(),
                self.config == old(self).config,
                self.routing_table == old(self).routing_table,
                self.tx_manager == old(self).tx_manager,
                self.find_pivot_id_deadline == old(self).find_pivot_id_deadline,
                self.buffer.inbound == old(self).buffer.inbound,
                i <= self.find_node_ops@.len(),
            decreases self.find_node_ops@.len() - i,
        {
            let ghost pre = *self;
            let op = vstd::std_specs::vec::vec_index_mut(&mut self.find_node_ops, i);
            match &resp {
                Response::Resp(m) => op.handle(tx, Response::Resp(m)),
                Response::Error(m) => op.handle(tx, Response::Error(m)),
                Response::Timeout => op.handle(tx, Response::Timeout),
            }
            op.start_queries(&self.config, &self.tx_manager, &mut self.buffer);
            proof {
                assert forall|k: int|
                    0 <= k < self.find_node_ops@.len() implies (
                #[trigger] self.find_node_ops@[k]).wf() by {
                    if k != i as int {
                        assert(self.find_node_ops@[k] == pre.find_node_ops@[k]);
                    }
                }
            }
            i += 1;
        }
        self.purge_done_ops();
    }

    /// Drops every lookup that has reached its terminal state.
    fn purge_done_ops(&mut self)
        requires
            old(self).wf(),
        ensures
            final(self).wf(),
            final(self).config == old(self).config,
            final(self).routing_table == old(self).routing_table,
            final(self).tx_manager == old(self).tx_manager,
            final(self).find_pivot_id_deadline == old(self).find_pivot_id_deadline,
            final(self).buffer == old(self).buffer,
            forall|i: int|
                0 <= i < final(self).find_node_ops@.len() ==> !(
                #[trigger] final(self).find_node_ops@[i]).spec_done(),
    {
        let mut kept: Vec<FindNodeOp> = Vec::new();
        loop
            invariant
                self.wf(),
                *self == (Node { find_node_ops: self.find_node_ops, ..*old(self) }),
                forall|k: int| 0 <= k < kept@.len() ==> (#[trigger] kept@[k]).wf(),
                forall|k: int| 0 <= k < kept@.len() ==> !(#[trigger] kept@[k]).spec_done(),
            decreases self.find_node_ops@.len(),
        {
            match self.find_node_ops.pop() {
                None => {
                    break ;
                },
                Some(op) => {
                    if !op.is_done() {
                        kept.push(op);
                    }
                },
            }
        }
        self.find_node_ops = kept;
    }

    /// Processes a received datagram at time `now`.
    ///
    /// A datagram that does not parse raises `Decode`, or `UnknownMsgTy`
    /// when it is a dictionary led by an unrecognized key. A response or
    /// error with no matching transaction — or one failing the strict
    /// identity check — raises `InvalidInput`. Otherwise the routing table
    /// absorbs the contact, every lookup observes the completion, and the
    /// event is queued for [`Node::read`] and returned.
    pub fn on_recv(&mut self, bytes: &[u8], addr: CompactAddr, now: Instant) -> (r: Result<
        ReadEvent,
        Error,
    >)
        requires
            old(self).wf(),
            now <= INSTANT_LIMIT,
        ensures
            final(self).wf(),
            final(self).config == old(self).config,
            r matches Err(e) ==> match e.kind {
                ErrorKind::Decode => krpc::spec_decode(bytes@) is None && !krpc::is_valid_bencode(
                    bytes@,
                ),
                ErrorKind::UnknownMsgTy => krpc::spec_decode(bytes@) is None
                    && krpc::is_valid_bencode(bytes@),
                ErrorKind::InvalidInput(m) => krpc::spec_decode(bytes@) == Some(m@) && (match m@.body {
                    krpc::BodyView::Resp { id: qid, .. } => !resp_reconciles(
                        old(self).tx_manager,
                        m@.t,
                        qid,
                        old(self).config,
                    ),
                    krpc::BodyView::Error { .. } => !(m@.t.len() == 2 && old(
                        self,
                    ).tx_manager.spec_contains_id(crate::transaction::tx_id_of_bytes(m@.t))),
                    _ => false,
                }),
                ErrorKind::TransactionTableFull => false,
            },
            (krpc::spec_decode(bytes@) matches Some(mv) && (match mv.body {
                krpc::BodyView::Query { .. } => true,
                krpc::BodyView::Resp { id: qid, .. } => resp_reconciles(
                    old(self).tx_manager,
                    mv.t,
                    qid,
                    old(self).config,
                ),
                krpc::BodyView::Error { .. } => mv.t.len() == 2 && old(
                    self,
                ).tx_manager.spec_contains_id(crate::transaction::tx_id_of_bytes(mv.t)),
            })) ==> r is Ok,
            krpc::spec_decode(bytes@) is None ==> r is Err && *final(self) == *old(self),
            r matches Ok(ev) ==> (krpc::spec_decode(bytes@) matches Some(mv) && (match ev.msg {
                MsgEvent::Resp(m) => m@ == mv && mv.body is Resp && ev.tx_id is Some,
                MsgEvent::Error(m) => m@ == mv && mv.body is Error && ev.tx_id is Some,
                MsgEvent::Query(m) => m@ == mv && mv.body is Query && ev.tx_id is None
                    && ev.addr_opt_id.addr == addr,
            }) && final(self).buffer.inbound@.len() == old(self).buffer.inbound@.len() + 1),
            r is Err ==> final(self).buffer.inbound == old(self).buffer.inbound,
            r is Ok ==> (krpc::spec_decode(bytes@) matches Some(mv) && (match mv.body {
                krpc::BodyView::Query { .. } => true,
                krpc::BodyView::Resp { id: qid, .. } => resp_reconciles(
                    old(self).tx_manager,
                    mv.t,
                    qid,
                    old(self).config,
                ),
                krpc::BodyView::Error { .. } => mv.t.len() == 2 && old(
                    self,
                ).tx_manager.spec_contains_id(crate::transaction::tx_id_of_bytes(mv.t)),
            })),
            r matches Err(e) ==> (match e.kind {
                ErrorKind::InvalidInput(m) => (m@.body is Resp && m@.t.len() == 2) ==> !final(self).tx_manager.spec_contains_id(crate::transaction::tx_id_of_bytes(m@.t)),
                _ => true,
            }),
            r matches Ok(ev) ==> (match krpc::spec_decode(bytes@) {
                Some(mv) => match mv.body {
                    krpc::BodyView::Query { id: qid, .. } => final(self).tx_manager@ == old(
                        self,
                    ).tx_manager@ && ev.addr_opt_id == (AddrOptId { addr, id: Some(qid) }),
                    _ => ({
                        let i = old(self).tx_manager.index_of_tx(
                            crate::transaction::tx_id_of_bytes(mv.t),
                        );
                        final(self).tx_manager@ == old(self).tx_manager@.remove(i)
                            && ev.addr_opt_id == old(self).tx_manager@[i].addr_opt_id && ev.tx_id
                            == Some(old(self).tx_manager@[i].tx_id)
                    }),
                },
                None => false,
            }),
            r is Ok ==> (match krpc::spec_decode(bytes@) {
                Some(mv) => !(mv.body is Query) ==> forall|i: int|
                    0 <= i < final(self).find_node_ops@.len() ==> !(
                    #[trigger] final(self).find_node_ops@[i]).spec_done(),
                None => true,
            }),
    {
        let m = match krpc::decode(bytes) {
            None => {
                if krpc::is_valid(bytes) {
                    return Err(Error { kind: ErrorKind::UnknownMsgTy });
                } else {
                    return Err(Error { kind: ErrorKind::Decode });
                }
            },
            Some(m) => m,
        };
        let is_resp = matches!(&m.body, MsgBody::Resp { .. });
        let is_error = matches!(&m.body, MsgBody::Error { .. });
        if is_resp {
            let qid = match &m.body {
                MsgBody::Resp { id, .. } => *id,
                _ => Id { hi: 0, lo: 0 },
            };
            let tx = match self.tx_manager.on_recv_resp(
                m.t.as_slice(),
                Some(qid),
                self.config.is_response_queried_node_id_strictly_checked,
                self.config.local_id,
            ) {
                None => {
                    return Err(Error { kind: ErrorKind::InvalidInput(m) });
                },
                Some(tx) => tx,
            };
            let node_id = match tx.addr_opt_id.id {
                Some(expected) => expected,
                None => qid,
            };
            self.routing_table.on_msg_received(
                AddrId::new(addr, node_id),
                &Kind::Response,
                Some(&tx.tx_id),
                now + BUCKET_REFRESH_INTERVAL_MS,
                now,
            );
            self.dispatch_to_ops(&tx, Response::Resp(&m));
            let ev = ReadEvent {
                addr_opt_id: tx.addr_opt_id,
                tx_id: Some(tx.tx_id),
                msg: MsgEvent::Resp(m),
            };
            let queued = ReadEvent {
                addr_opt_id: ev.addr_opt_id,
                tx_id: ev.tx_id,
                msg: match &ev.msg {
                    MsgEvent::Resp(mm) => MsgEvent::Resp(msg_clone(mm)),
                    MsgEvent::Error(mm) => MsgEvent::Error(msg_clone(mm)),
                    MsgEvent::Query(mm) => MsgEvent::Query(msg_clone(mm)),
                },
            };
            self.buffer.push_inbound(queued);
            Ok(ev)
        } else if is_error {
            let tx = match self.tx_manager.on_recv_error(m.t.as_slice()) {
                None => {
                    return Err(Error { kind: ErrorKind::InvalidInput(m) });
                },
                Some(tx) => tx,
            };
            match tx.addr_opt_id.id {
                Some(node_id) => {
                    self.routing_table.on_msg_received(
                        AddrId::new(addr, node_id),
                        &Kind::Error,
                        Some(&tx.tx_id),
                        now + BUCKET_REFRESH_INTERVAL_MS,
                        now,
                    );
                },
                None => {},
            }
            self.dispatch_to_ops(&tx, Response::Error(&m));
            let ev = ReadEvent {
                addr_opt_id: tx.addr_opt_id,
                tx_id: Some(tx.tx_id),
                msg: MsgEvent::Error(m),
            };
            let queued = ReadEvent {
                addr_opt_id: ev.addr_opt_id,
                tx_id: ev.tx_id,
                msg: match &ev.msg {
                    MsgEvent::Resp(mm) => MsgEvent::Resp(msg_clone(mm)),
                    MsgEvent::Error(mm) => MsgEvent::Error(msg_clone(mm)),
                    MsgEvent::Query(mm) => MsgEvent::Query(msg_clone(mm)),
                },
            };
            self.buffer.push_inbound(queued);
            Ok(ev)
        } else {
            let qid = match &m.body {
                MsgBody::Query { id, .. } => *id,
                _ => Id { hi: 0, lo: 0 },
            };
            self.routing_table.on_msg_received(
                AddrId::new(addr, qid),
                &Kind::Query,
                None,
                now + BUCKET_REFRESH_INTERVAL_MS,
                now,
            );
            let ev = ReadEvent {
                addr_opt_id: AddrOptId::new(addr, Some(qid)),
                tx_id: None,
                msg: MsgEvent::Query(m),
            };
            let queued = ReadEvent {
                addr_opt_id: ev.addr_opt_id,
                tx_id: ev.tx_id,
                msg: match &ev.msg {
                    MsgEvent::Resp(mm) => MsgEvent::Resp(msg_clone(mm)),
                    MsgEvent::Error(mm) => MsgEvent::Error(msg_clone(mm)),
                    MsgEvent::Query(mm) => MsgEvent::Query(msg_clone(mm)),
                },
            };
            self.buffer.push_inbound(queued);
            Ok(ev)
        }
    }

    /// The earliest of the transaction deadlines, the routing-table
    /// deadlines, and the periodic pivot lookup, as a value.
    pub open spec fn spec_timeout(self) -> Instant {
        let tx_min = crate::transaction::min_deadline(self.tx_manager@);
        let bucket_min = routing::min_bucket_timeout(self.routing_table.buckets@);
        let sub_min = if tx_min < bucket_min {
            tx_min
        } else {
            bucket_min
        };
        if self.find_pivot_id_deadline < sub_min {
            self.find_pivot_id_deadline
        } else {
            sub_min
        }
    }

    /// The next deadline of interest: exactly the earliest of the
    /// transaction deadlines, the routing-table deadlines, and the
    /// periodic pivot lookup.
    pub fn timeout(&self) -> (r: Option<Instant>)
        requires
            self.wf(),
        ensures
            r == Some(self.spec_timeout()),
            r matches Some(t) ==> t <= self.find_pivot_id_deadline && (forall|i: int|
                0 <= i < self.tx_manager@.len() ==> t <= #[trigger] self.tx_manager@[i].deadline)
                && t <= routing::min_bucket_timeout(self.routing_table.buckets@),
    {
        let mut best: Instant = self.find_pivot_id_deadline;
        match self.tx_manager.timeout() {
            Some(t) => {
                if t < best {
                    best = t;
                }
            },
            None => {},
        }
        match self.routing_table.timeout() {
            Some(t) => {
                if t < best {
                    best = t;
                }
            },
            None => {},
        }
        Some(best)
    }

    /// Processes timeout events at `now`: every timed-out transaction is
    /// popped and fed to the routing table and the lookups, and the pivot
    /// lookup restarts when its deadline has passed.
    pub fn on_timeout(&mut self, now: Instant)
        requires
            old(self).wf(),
            now <= INSTANT_LIMIT,
        ensures
            final(self).wf(),
            final(self).config == old(self).config,
            forall|i: int|
                0 <= i < final(self).tx_manager@.len() ==> (
                #[trigger] final(self).tx_manager@[i]).deadline > now,
            final(self).find_pivot_id_deadline > now,
            old(self).find_pivot_id_deadline <= now ==> final(self).find_pivot_id_deadline == now
                + FIND_LOCAL_ID_INTERVAL_MS && final(self).find_node_ops@.len() >= 1 && final(self).find_node_ops@.last().target == old(self).config.local_id,
            old(self).find_pivot_id_deadline > now ==> final(self).find_pivot_id_deadline == old(
                self,
            ).find_pivot_id_deadline,
    {
        loop
            invariant
                self.wf(),
                self.config == old(self).config,
                self.find_pivot_id_deadline == old(self).find_pivot_id_deadline,
                now <= INSTANT_LIMIT,
            ensures
                self.wf(),
                self.config == old(self).config,
                self.find_pivot_id_deadline == old(self).find_pivot_id_deadline,
                forall|i: int|
                    0 <= i < self.tx_manager@.len() ==> (#[trigger] self.tx_manager@[i]).deadline
                        > now,
            decreases self.tx_manager@.len(),
        {
            match self.pop_timed_out_tx(now) {
                None => {
                    break ;
                },
                Some(_) => {},
            }
        }
        if self.find_pivot_id_deadline <= now {
            let empty: Vec<CompactAddr> = Vec::new();
            self.find_node_pivot(&empty, now);
            self.find_pivot_id_deadline = now + FIND_LOCAL_ID_INTERVAL_MS;
        }
    }

    /// Finds and processes one transaction that has timed out: exactly
    /// that held transaction leaves the set, the remote record is
    /// penalized, every lookup observes the timeout, and terminal lookups
    /// are dropped.
    pub fn pop_timed_out_tx(&mut self, now: Instant) -> (r: Option<Transaction>)
        requires
            old(self).wf(),
        ensures
            final(self).wf(),
            final(self).config == old(self).config,
            r is None ==> final(self).tx_manager@ == old(self).tx_manager@ && final(self).routing_table == old(self).routing_table && final(self).find_node_ops == old(
                self,
            ).find_node_ops && final(self).buffer == old(self).buffer && forall|i: int|
                0 <= i < old(self).tx_manager@.len() ==> (
                #[trigger] old(self).tx_manager@[i]).deadline > now,
            r matches Some(tx) ==> tx.deadline <= now && exists|i: int|
                0 <= i < old(self).tx_manager@.len() && old(self).tx_manager@[i] == tx && final(self).tx_manager@ == old(self).tx_manager@.remove(i),
            r matches Some(tx) ==> (match tx.addr_opt_id.id {
                None => final(self).routing_table == old(self).routing_table,
                Some(nid) => ({
                    let a = (AddrId { addr: tx.addr_opt_id.addr, id: nid });
                    &&& (!old(self).routing_table.has_addr(a) ==> final(self).routing_table.buckets@ == old(self).routing_table.buckets@)
                    &&& (old(self).routing_table.has_addr(a) ==> ({
                        let i = old(self).routing_table.locate_addr(a);
                        let k = routing::index_of_addr(
                            old(self).routing_table.buckets@[i].nodes@,
                            a,
                        );
                        &&& final(self).routing_table.buckets@.len() == old(
                            self,
                        ).routing_table.buckets@.len()
                        &&& forall|j: int|
                            0 <= j < old(self).routing_table.buckets@.len() && j != i ==> final(self).routing_table.buckets@[j] == old(self).routing_table.buckets@[j]
                        &&& final(self).routing_table.buckets@[i].nodes@ == old(
                            self,
                        ).routing_table.buckets@[i].nodes@.update(
                            k,
                            old(self).routing_table.buckets@[i].nodes@[k].spec_after_timeout(
                                tx.tx_id,
                            ),
                        )
                    }))
                }),
            }),
            r is Some ==> forall|i: int|
                0 <= i < final(self).find_node_ops@.len() ==> !(
                #[trigger] final(self).find_node_ops@[i]).spec_done(),
            final(self).find_pivot_id_deadline == old(self).find_pivot_id_deadline,
            final(self).buffer.inbound == old(self).buffer.inbound,
    {
        let tx = match self.tx_manager.pop_timed_out_tx(now) {
            None => {
                return None;
            },
            Some(tx) => tx,
        };
        match tx.addr_opt_id.id {
            Some(node_id) => {
                let addr_id = AddrId::new(tx.addr_opt_id.addr, node_id);
                self.routing_table.on_resp_timeout(&addr_id, &tx.tx_id);
            },
            None => {},
        }
        self.dispatch_to_ops(&tx, Response::Timeout);
        Some(tx)
    }

    /// The index of a bucket whose refresh deadline has passed, if any.
    pub fn find_bucket_to_refresh(&self, now: Instant) -> (r: Option<usize>)
        ensures
            r matches Some(i) ==> i < self.routing_table.buckets@.len()
                && self.routing_table.buckets@[i as int].refresh_deadline <= now,
            r is None ==> forall|i: int|
                0 <= i < self.routing_table.buckets@.len() ==> (
                #[trigger] self.routing_table.buckets@[i]).refresh_deadline > now,
    {
        self.routing_table.find_bucket_to_refresh(now)
    }

    /// Refreshes every bucket whose deadline has passed: each gets a new
    /// deadline and a lookup toward a random id within its range.
    pub fn refresh_buckets(&mut self, now: Instant)
        requires
            old(self).wf(),
            now <= INSTANT_LIMIT,
        ensures
            final(self).wf(),
            final(self).config == old(self).config,
            final(self).tx_manager == old(self).tx_manager,
            final(self).find_pivot_id_deadline == old(self).find_pivot_id_deadline,
            final(self).buffer.inbound == old(self).buffer.inbound,
            final(self).routing_table.buckets@.len() == old(self).routing_table.buckets@.len(),
            forall|j: int|
                0 <= j < old(self).routing_table.buckets@.len() ==> final(self).routing_table.buckets@[j] == (if old(self).routing_table.buckets@[
                    j
                ].refresh_deadline <= now {
                    (routing::Bucket {
                        refresh_deadline: (now + crate::BUCKET_REFRESH_INTERVAL_MS) as u64,
                        ..old(self).routing_table.buckets@[j]
                    })
                } else {
                    old(self).routing_table.buckets@[j]
                }),
            final(self).find_node_ops@.len() == old(self).find_node_ops@.len()
                + routing::expired_ranges(old(self).routing_table.buckets@, now).len(),
            final(self).find_node_ops@.subrange(0, old(self).find_node_ops@.len() as int) == old(
                self,
            ).find_node_ops@,
            forall|j: int|
                0 <= j < routing::expired_ranges(old(self).routing_table.buckets@, now).len()
                    ==> (#[trigger] routing::expired_ranges(
                    old(self).routing_table.buckets@,
                    now,
                )[j]).spec_contains(
                    final(self).find_node_ops@[old(self).find_node_ops@.len() + j].target,
                ),
            forall|j: int|
                old(self).find_node_ops@.len() <= j < final(self).find_node_ops@.len() ==> (
                #[trigger] final(self).find_node_ops@[j]).supported_addr == old(
                    self,
                ).config.supported_addr,
    {
        let ghost pre_buckets = self.routing_table.buckets@;
        let ghost pre_ops_len = self.find_node_ops@.len() as int;
        let ranges = self.routing_table.on_timeout(now);
        proof {
            routing::lemma_expired_ranges_wf(pre_buckets, now);
        }
        let ghost table_after = self.routing_table;
        let mut i: usize = 0;
        while i < ranges.len()
            invariant
                self.wf(),
                self.config == old(self).config,
                self.tx_manager == old(self).tx_manager,
                self.find_pivot_id_deadline == old(self).find_pivot_id_deadline,
                self.buffer.inbound == old(self).buffer.inbound,
                self.routing_table == table_after,
                now <= INSTANT_LIMIT,
                i <= ranges@.len(),
                pre_buckets == old(self).routing_table.buckets@,
                ranges@ == routing::expired_ranges(pre_buckets, now),
                table_after.buckets@.len() == pre_buckets.len(),
                forall|j: int|
                    0 <= j < pre_buckets.len() ==> table_after.buckets@[j] == (if (
                    #[trigger] pre_buckets[j]).refresh_deadline <= now {
                        (routing::Bucket {
                            refresh_deadline: (now + crate::BUCKET_REFRESH_INTERVAL_MS) as u64,
                            ..pre_buckets[j]
                        })
                    } else {
                        pre_buckets[j]
                    }),
                pre_ops_len == old(self).find_node_ops@.len() as int,
                self.find_node_ops@.len() == pre_ops_len + i,
                self.find_node_ops@.subrange(0, pre_ops_len) == old(self).find_node_ops@,
                forall|k: int| 0 <= k < ranges@.len() ==> (#[trigger] ranges@[k]).wf(),
                forall|j: int|
                    pre_ops_len <= j < self.find_node_ops@.len() ==> (
                    #[trigger] self.find_node_ops@[j]).supported_addr == old(
                        self,
                    ).config.supported_addr && ranges@[j - pre_ops_len].spec_contains(
                        self.find_node_ops@[j].target,
                    ),
            decreases ranges@.len() - i,
        {
            let target = Id::rand_in_inclusive_range(&ranges[i]);
            let empty: Vec<CompactAddr> = Vec::new();
            let ghost pre_ops = self.find_node_ops@;
            self.find_node(target, &empty, now);
            proof {
                assert(self.find_node_ops@.drop_last() == pre_ops);
                assert(self.find_node_ops@.subrange(0, pre_ops_len) =~= pre_ops.subrange(
                    0,
                    pre_ops_len,
                ));
                assert forall|j: int|
                    pre_ops_len <= j < self.find_node_ops@.len() implies (
                #[trigger] self.find_node_ops@[j]).supported_addr == old(
                    self,
                ).config.supported_addr && ranges@[j - pre_ops_len].spec_contains(
                    self.find_node_ops@[j].target,
                ) by {
                    if j < self.find_node_ops@.len() - 1 {
                        assert(self.find_node_ops@[j] == self.find_node_ops@.drop_last()[j]);
                        assert(self.find_node_ops@[j] == pre_ops[j]);
                    } else {
                        assert(self.find_node_ops@[j] == self.find_node_ops@.last());
                        assert(j - pre_ops_len == i);
                    }
                }
            }
            i += 1;
        }
        proof {
            assert(routing::expired_ranges(old(self).routing_table.buckets@, now) == ranges@);
            assert forall|j: int|
                0 <= j < routing::expired_ranges(old(self).routing_table.buckets@, now).len()
                implies (#[trigger] routing::expired_ranges(
                old(self).routing_table.buckets@,
                now,
            )[j]).spec_contains(
                self.find_node_ops@[old(self).find_node_ops@.len() + j].target,
            ) by {
                assert(routing::expired_ranges(old(self).routing_table.buckets@, now)[j]
                    == ranges@[j]);
                assert(self.find_node_ops@[pre_ops_len + j].supported_addr == old(
                    self,
                ).config.supported_addr && ranges@[(pre_ops_len + j) - pre_ops_len].spec_contains(
                    self.find_node_ops@[pre_ops_len + j].target,
                ));
            }
        }
    }

    /// The first contact that should be pinged to check it is still
    /// active, if any; the caller reports the ping via [`Node::on_ping`].
    pub fn find_node_to_ping(&self, now: Instant) -> (r: Option<AddrId>)
        ensures
            r matches Some(a) ==> exists|i: int, k: int|
                routing::first_ping_candidate_at(self.routing_table.buckets@, now, i, k) && (
                #[trigger] self.routing_table.buckets@[i].nodes@[k]).addr_id == a,
            r is None ==> forall|i: int, k: int|
                0 <= i < self.routing_table.buckets@.len() && 0 <= k
                    < self.routing_table.buckets@[i].nodes@.len() ==> !routing::ping_candidate(
                    #[trigger] self.routing_table.buckets@[i].nodes@[k],
                    now,
                ),
    {
        self.routing_table.find_node_to_ping(now)
    }

    /// Records that the contact was pinged with the transaction id: the
    /// held record's `ping_tx_id` is set; a pair with no record is
    /// ignored, and nothing else changes.
    pub fn on_ping(&mut self, addr_id: &AddrId, tx_id: transaction::Id)
        requires
            old(self).wf(),
        ensures
            final(self).wf(),
            *final(self) == (Node { routing_table: final(self).routing_table, ..*old(self) }),
            !old(self).routing_table.has_addr(*addr_id) ==> final(self).routing_table == old(
                self,
            ).routing_table,
            old(self).routing_table.has_addr(*addr_id) ==> ({
                let i = old(self).routing_table.locate_addr(*addr_id);
                let k = routing::index_of_addr(old(self).routing_table.buckets@[i].nodes@, *addr_id);
                &&& final(self).routing_table.buckets@.len() == old(
                    self,
                ).routing_table.buckets@.len()
                &&& forall|j: int|
                    0 <= j < old(self).routing_table.buckets@.len() && j != i ==> final(self).routing_table.buckets@[j] == old(self).routing_table.buckets@[j]
                &&& final(self).routing_table.buckets@[i].nodes@ == old(
                    self,
                ).routing_table.buckets@[i].nodes@.update(
                    k,
                    (routing::Node {
                        ping_tx_id: Some(tx_id),
                        ..old(self).routing_table.buckets@[i].nodes@[k]
                    }),
                )
            }),
    {
        self.routing_table.on_ping(addr_id, tx_id);
    }

    /// The closest neighbors to an id: every held record ordered by
    /// ascending XOR distance; the caller takes the prefix it needs.
    pub fn find_neighbors(&self, id: Id, now: Instant) -> (r: Vec<AddrId>)
        ensures
            r@.to_multiset() == routing::records_of_buckets(
                self.routing_table.buckets@,
            ).to_multiset(),
            routing::sorted_by_distance(id, r@),
            exists|perm: Seq<int>|
                routing::stable_sort_witness(
                    routing::records_of_buckets(self.routing_table.buckets@),
                    r@,
                    perm,
                    id,
                ),
    {
        self.routing_table.find_neighbors(&id, now)
    }

    /// Authors a query toward the address: the envelope enters the
    /// outbound FIFO and the returned transaction id is tracked only when
    /// the datagram is dequeued by [`Node::send_to`].
    pub fn write_query(
        &mut self,
        method: &Vec<u8>,
        target: Option<Id>,
        addr_opt_id: AddrOptId,
        timeout: Option<u64>,
    ) -> (r: Result<transaction::Id, Error>)
        requires
            old(self).wf(),
            method@.len() <= krpc::MAX_FIELD_LEN,
        ensures
            final(self).wf(),
            final(self).config == old(self).config,
            final(self).tx_manager == old(self).tx_manager,
            old(self).tx_manager@.len() < 0x10000 ==> r is Ok,
            r matches Err(e) ==> e.kind is TransactionTableFull && *final(self) == *old(self),
            r matches Ok(tx_id) ==> !old(self).tx_manager.spec_contains_id(tx_id.0) && final(self).buffer.outbound@.len() == old(self).buffer.outbound@.len() + 1 && final(self).buffer.outbound@.drop_last() == old(self).buffer.outbound@ && final(self).buffer.outbound@.last().tx_id == Some(tx_id) && final(self).buffer.outbound@.last().addr_opt_id == addr_opt_id && final(self).buffer.outbound@.last().timeout == (match timeout {
                Some(t) => t,
                None => old(self).config.default_query_timeout,
            }) && final(self).buffer.outbound@.last().msg_data@ == krpc::spec_encode(
                krpc::MsgView {
                    t: crate::msg_buffer::tx_id_bytes(tx_id),
                    v: crate::msg_buffer::opt_bytes_view(old(self).config.client_version),
                    body: krpc::BodyView::Query {
                        method: method@,
                        id: old(self).config.local_id,
                        target,
                    },
                },
            ),
    {
        let start: u16 = rand::random();
        let tx_id = match self.tx_manager.next_tx_id(start) {
            None => {
                return Err(Error { kind: ErrorKind::TransactionTableFull });
            },
            Some(tx_id) => tx_id,
        };
        let t = match timeout {
            Some(t) => t,
            None => self.config.default_query_timeout,
        };
        self.buffer.write_query(
            tx_id,
            method,
            self.config.local_id,
            target,
            addr_opt_id,
            t,
            &self.config.client_version,
        );
        Ok(tx_id)
    }

    /// Authors a response to a remote query.
    pub fn write_resp(
        &mut self,
        transaction_id: &Vec<u8>,
        queried_id: Id,
        nodes: Option<Vec<u8>>,
        addr_opt_id: AddrOptId,
    )
        requires
            old(self).wf(),
            transaction_id@.len() <= krpc::MAX_FIELD_LEN,
            match nodes {
                Some(n) => n@.len() <= krpc::MAX_FIELD_LEN,
                None => true,
            },
        ensures
            final(self).wf(),
            final(self).config == old(self).config,
            final(self).tx_manager == old(self).tx_manager,
            final(self).buffer.outbound@.len() == old(self).buffer.outbound@.len() + 1,
            final(self).buffer.outbound@.drop_last() == old(self).buffer.outbound@,
            final(self).buffer.outbound@.last().tx_id is None,
            final(self).buffer.outbound@.last().msg_data@ == krpc::spec_encode(
                krpc::MsgView {
                    t: transaction_id@,
                    v: crate::msg_buffer::opt_bytes_view(old(self).config.client_version),
                    body: krpc::BodyView::Resp {
                        id: queried_id,
                        nodes: crate::msg_buffer::opt_bytes_view(nodes),
                    },
                },
            ),
    {
        self.buffer.write_resp(
            transaction_id,
            queried_id,
            nodes,
            addr_opt_id,
            &self.config.client_version,
        );
    }

    /// Authors an error reply to a remote query.
    pub fn write_err(
        &mut self,
        transaction_id: &Vec<u8>,
        code: i64,
        msg_text: Vec<u8>,
        addr_opt_id: AddrOptId,
    )
        requires
            old(self).wf(),
            transaction_id@.len() <= krpc::MAX_FIELD_LEN,
            msg_text@.len() <= krpc::MAX_FIELD_LEN,
            -(krpc::MAX_FIELD_LEN as int) <= code as int <= krpc::MAX_FIELD_LEN as int,
        ensures
            final(self).wf(),
            final(self).config == old(self).config,
            final(self).tx_manager == old(self).tx_manager,
            final(self).buffer.outbound@.len() == old(self).buffer.outbound@.len() + 1,
            final(self).buffer.outbound@.drop_last() == old(self).buffer.outbound@,
            final(self).buffer.outbound@.last().tx_id is None,
            final(self).buffer.outbound@.last().msg_data@ == krpc::spec_encode(
                krpc::MsgView {
                    t: transaction_id@,
                    v: crate::msg_buffer::opt_bytes_view(old(self).config.client_version),
                    body: krpc::BodyView::Error { code: code as int, msg: msg_text@ },
                },
            ),
    {
        self.buffer.write_err(transaction_id, code, msg_text, addr_opt_id, &self.config.client_version);
    }

    /// Dequeues the next outbound datagram. When it carries a query, the
    /// corresponding transaction enters the manager now, so its deadline
    /// starts when the datagram leaves the core.
    pub fn send_to(&mut self, now: Instant) -> (r: Option<OutboundMsg>)
        requires
            old(self).wf(),
        ensures
            final(self).wf(),
            final(self).config == old(self).config,
            old(self).buffer.outbound@.len() == 0 ==> r is None && final(self).tx_manager == old(
                self,
            ).tx_manager && final(self).buffer.outbound@ == old(self).buffer.outbound@,
            final(self).buffer.inbound == old(self).buffer.inbound,
            old(self).buffer.outbound@.len() > 0 ==> r == Some(old(self).buffer.outbound@[0])
                && final(self).buffer.outbound@ == old(self).buffer.outbound@.subrange(
                1,
                old(self).buffer.outbound@.len() as int,
            ),
            old(self).buffer.outbound@.len() > 0 ==> (match old(self).buffer.outbound@[0].tx_id {
                Some(tid) => (!old(self).tx_manager.spec_contains_id(tid.0) && old(
                    self,
                ).tx_manager@.len() < 0x10000) ==> final(self).tx_manager@ == old(
                    self,
                ).tx_manager@.push(
                    (Transaction {
                        tx_id: tid,
                        addr_opt_id: old(self).buffer.outbound@[0].addr_opt_id,
                        deadline: sat_add64(now, old(self).buffer.outbound@[0].timeout),
                    }),
                ),
                None => final(self).tx_manager@ == old(self).tx_manager@,
            }),
    {
        let msg = match self.buffer.pop_outbound() {
            None => {
                return None;
            },
            Some(msg) => msg,
        };
        match &msg.tx_id {
            Some(tx_id) => {
                let deadline = now.saturating_add(msg.timeout);
                let tx = Transaction { tx_id: *tx_id, addr_opt_id: msg.addr_opt_id, deadline };
                let _ = self.tx_manager.insert(tx);
            },
            None => {},
        }
        Some(msg)
    }

    /// Removes and returns the oldest inbound event.
    pub fn read(&mut self) -> (r: Option<ReadEvent>)
        requires
            old(self).wf(),
        ensures
            final(self).wf(),
            final(self).config == old(self).config,
            old(self).buffer.inbound@.len() == 0 ==> r is None,
            old(self).buffer.inbound@.len() > 0 ==> r == Some(old(self).buffer.inbound@[0])
                && final(self).buffer.inbound@ == old(self).buffer.inbound@.subrange(
                1,
                old(self).buffer.inbound@.len() as int,
            ),
    {
        self.buffer.pop_inbound()
    }

    /// Starts a lookup toward the target: the closest held neighbors seed
    /// it, joined by the given bootstrap addresses; the lookup is appended
    /// and its first `find_node` queries enter the outbound FIFO.
    pub fn find_node(&mut self, target_id: Id, bootstrap_addrs: &Vec<CompactAddr>, now: Instant)
        requires
            old(self).wf(),
            now <= INSTANT_LIMIT,
        ensures
            final(self).wf(),
            final(self).config == old(self).config,
            final(self).tx_manager == old(self).tx_manager,
            final(self).routing_table == old(self).routing_table,
            final(self).find_pivot_id_deadline == old(self).find_pivot_id_deadline,
            final(self).buffer.inbound == old(self).buffer.inbound,
            final(self).find_node_ops@.len() == old(self).find_node_ops@.len() + 1,
            final(self).find_node_ops@.drop_last() == old(self).find_node_ops@,
            final(self).find_node_ops@.last().target == target_id,
            final(self).find_node_ops@.last().supported_addr == old(self).config.supported_addr,
            bootstrap_addrs@.len() + crate::find_node_op::K_CLOSEST
                <= crate::find_node_op::MAX_CANDIDATES ==> forall|k: int|
                0 <= k < bootstrap_addrs@.len() ==> final(self).find_node_ops@.last().tracks(
                    (AddrOptId { addr: #[trigger] bootstrap_addrs@[k], id: None }),
                ),
            final(self).buffer.outbound@.len() >= old(self).buffer.outbound@.len(),
            final(self).buffer.outbound@.subrange(0, old(self).buffer.outbound@.len() as int)
                == old(self).buffer.outbound@,
            forall|j: int|
                old(self).buffer.outbound@.len() <= j < final(self).buffer.outbound@.len()
                    ==> crate::find_node_op::is_lookup_query(
                    #[trigger] final(self).buffer.outbound@[j],
                    old(self).config,
                    target_id,
                ) && exists|c: int|
                    0 <= c < final(self).find_node_ops@.last().candidates@.len() && (
                    #[trigger] final(self).find_node_ops@.last().candidates@[c]).addr_opt_id
                        == final(self).buffer.outbound@[j].addr_opt_id,
            forall|c: int|
                0 <= c < final(self).find_node_ops@.last().candidates@.len() ==> (exists|k: int|
                    0 <= k < bootstrap_addrs@.len() && (#[trigger] final(self).find_node_ops@.last().candidates@[c]).addr_opt_id == (AddrOptId {
                        addr: bootstrap_addrs@[k],
                        id: None,
                    })) || (exists|rec: AddrId|
                    routing::records_of_buckets(old(self).routing_table.buckets@).contains(rec)
                        && final(self).find_node_ops@.last().candidates@[c].addr_opt_id
                        == (AddrOptId { addr: rec.addr, id: Some(rec.id) })),
            (bootstrap_addrs@.len() >= 1 && bootstrap_addrs@.len() + crate::find_node_op::K_CLOSEST
                <= crate::find_node_op::MAX_CANDIDATES && old(self).tx_manager@.len() < 0x10000)
                ==> final(self).buffer.outbound@.len() > old(self).buffer.outbound@.len(),
            crate::find_node_op::spec_count_in_flight(
                final(self).find_node_ops@.last().candidates@,
                final(self).find_node_ops@.last().candidates@.len() as int,
            ) >= crate::find_node_op::ALPHA as int || crate::find_node_op::count_pending(
                final(self).find_node_ops@.last().candidates@,
                crate::find_node_op::closest_bound(
                    final(self).find_node_ops@.last().candidates@.len() as int,
                ),
            ) == 0 || old(self).tx_manager@.len() >= 0x10000,
    {
        let neighbors = self.routing_table.find_neighbors(&target_id, now);
        let mut seeds: Vec<AddrOptId> = Vec::new();
        let mut i: usize = 0;
        while i < neighbors.len() && i < crate::find_node_op::K_CLOSEST
            invariant
                i <= neighbors@.len(),
                i <= crate::find_node_op::K_CLOSEST,
                seeds@.len() == i,
                forall|x: int|
                    0 <= x < i ==> #[trigger] seeds@[x] == (AddrOptId {
                        addr: neighbors@[x].addr,
                        id: Some(neighbors@[x].id),
                    }),
            decreases neighbors@.len() - i,
        {
            seeds.push(AddrOptId::new(neighbors[i].addr, Some(neighbors[i].id)));
            i += 1;
        }
        let ghost n_neighbors = seeds@.len();
        let mut k: usize = 0;
        while k < bootstrap_addrs.len()
            invariant
                k <= bootstrap_addrs@.len(),
                n_neighbors <= crate::find_node_op::K_CLOSEST,
                n_neighbors <= neighbors@.len(),
                seeds@.len() == n_neighbors + k,
                forall|x: int|
                    0 <= x < n_neighbors ==> #[trigger] seeds@[x] == (AddrOptId {
                        addr: neighbors@[x].addr,
                        id: Some(neighbors@[x].id),
                    }),
                forall|x: int|
                    0 <= x < k ==> seeds@[n_neighbors + x] == (AddrOptId {
                        addr: #[trigger] bootstrap_addrs@[x],
                        id: None,
                    }),
            decreases bootstrap_addrs@.len() - k,
        {
            seeds.push(AddrOptId::with_addr(bootstrap_addrs[k]));
            k += 1;
        }
        let mut op = FindNodeOp::new(target_id, self.config.supported_addr, seeds);
        proof {
            if bootstrap_addrs@.len() + crate::find_node_op::K_CLOSEST
                <= crate::find_node_op::MAX_CANDIDATES {
                assert(seeds@.len() <= crate::find_node_op::MAX_CANDIDATES);
                assert forall|x: int| 0 <= x < bootstrap_addrs@.len() implies op.tracks(
                    (AddrOptId { addr: #[trigger] bootstrap_addrs@[x], id: None }),
                ) by {
                    assert(op.tracks(seeds@[n_neighbors + x]));
                }
            }
        }
        let ghost tracked_bootstrap = bootstrap_addrs@.len() + crate::find_node_op::K_CLOSEST
            <= crate::find_node_op::MAX_CANDIDATES;
        proof {
            broadcast use vstd::seq_lib::group_to_multiset_ensures;

            crate::find_node_op::lemma_counts_all_pending(
                op.candidates@,
                crate::find_node_op::closest_bound(op.candidates@.len() as int),
            );
            crate::find_node_op::lemma_counts_all_pending(
                op.candidates@,
                op.candidates@.len() as int,
            );
            if bootstrap_addrs@.len() >= 1 && tracked_bootstrap {
                assert(op.tracks(AddrOptId { addr: bootstrap_addrs@[0], id: None }));
                assert(op.candidates@.len() >= 1);
            }
        }
        let ghost op_before = op;
        op.start_queries(&self.config, &self.tx_manager, &mut self.buffer);
        proof {
            if tracked_bootstrap {
                assert forall|x: int| 0 <= x < bootstrap_addrs@.len() implies op.tracks(
                    (AddrOptId { addr: #[trigger] bootstrap_addrs@[x], id: None }),
                ) by {
                    assert(op_before.tracks(AddrOptId { addr: bootstrap_addrs@[x], id: None }));
                    let c = choose|c: int|
                        0 <= c < op_before.candidates@.len() && (
                        #[trigger] op_before.candidates@[c]).addr_opt_id == (AddrOptId {
                            addr: bootstrap_addrs@[x],
                            id: None,
                        });
                    assert(op.candidates@[c].addr_opt_id == op_before.candidates@[c].addr_opt_id);
                }
            }
        }
        self.find_node_ops.push(op);
        proof {
            broadcast use vstd::seq_lib::group_to_multiset_ensures;

            assert forall|x: int|
                0 <= x < self.find_node_ops@.len() implies (#[trigger] self.find_node_ops@[x]).wf()
            by {
                if x < old(self).find_node_ops@.len() {
                    assert(self.find_node_ops@[x] == old(self).find_node_ops@[x]);
                }
            }
            assert(self.find_node_ops@.drop_last() =~= old(self).find_node_ops@);
            assert(self.find_node_ops@.last() == op);
            assert forall|c: int|
                0 <= c < op.candidates@.len() implies (exists|k: int|
                0 <= k < bootstrap_addrs@.len() && (#[trigger] op.candidates@[c]).addr_opt_id
                    == (AddrOptId { addr: bootstrap_addrs@[k], id: None })) || (exists|rec: AddrId|
                routing::records_of_buckets(old(self).routing_table.buckets@).contains(rec)
                    && op.candidates@[c].addr_opt_id == (AddrOptId {
                        addr: rec.addr,
                        id: Some(rec.id),
                    })) by {
                assert(op.candidates@[c].addr_opt_id == op_before.candidates@[c].addr_opt_id);
                let k = choose|k: int|
                    0 <= k < seeds@.len() && seeds@[k] == (
                    #[trigger] op_before.candidates@[c]).addr_opt_id;
                if k < n_neighbors {
                    assert(seeds@[k] == (AddrOptId {
                        addr: neighbors@[k].addr,
                        id: Some(neighbors@[k].id),
                    }));
                    assert(neighbors@.contains(neighbors@[k]));
                    assert(neighbors@.to_multiset().count(neighbors@[k]) > 0);
                    assert(routing::records_of_buckets(old(self).routing_table.buckets@).contains(
                        neighbors@[k],
                    ));
                } else {
                    assert(seeds@[k] == (AddrOptId {
                        addr: bootstrap_addrs@[k - n_neighbors],
                        id: None,
                    }));
                }
            }
        }
    }

    /// Starts the periodic lookup toward the local pivot id itself.
    pub fn find_node_pivot(&mut self, bootstrap_addrs: &Vec<CompactAddr>, now: Instant)
        requires
            old(self).wf(),
            now <= INSTANT_LIMIT,
        ensures
            final(self).wf(),
            final(self).config == old(self).config,
            final(self).tx_manager == old(self).tx_manager,
            final(self).routing_table == old(self).routing_table,
            final(self).find_pivot_id_deadline == old(self).find_pivot_id_deadline,
            final(self).buffer.inbound == old(self).buffer.inbound,
            final(self).find_node_ops@.len() == old(self).find_node_ops@.len() + 1,
            final(self).find_node_ops@.drop_last() == old(self).find_node_ops@,
            final(self).find_node_ops@.last().target == old(self).config.local_id,
            final(self).find_node_ops@.last().supported_addr == old(self).config.supported_addr,
            bootstrap_addrs@.len() + crate::find_node_op::K_CLOSEST
                <= crate::find_node_op::MAX_CANDIDATES ==> forall|k: int|
                0 <= k < bootstrap_addrs@.len() ==> final(self).find_node_ops@.last().tracks(
                    (AddrOptId { addr: #[trigger] bootstrap_addrs@[k], id: None }),
                ),
            final(self).buffer.outbound@.len() >= old(self).buffer.outbound@.len(),
            final(self).buffer.outbound@.subrange(0, old(self).buffer.outbound@.len() as int)
                == old(self).buffer.outbound@,
            forall|j: int|
                old(self).buffer.outbound@.len() <= j < final(self).buffer.outbound@.len()
                    ==> crate::find_node_op::is_lookup_query(
                    #[trigger] final(self).buffer.outbound@[j],
                    old(self).config,
                    old(self).config.local_id,
                ) && exists|c: int|
                    0 <= c < final(self).find_node_ops@.last().candidates@.len() && (
                    #[trigger] final(self).find_node_ops@.last().candidates@[c]).addr_opt_id
                        == final(self).buffer.outbound@[j].addr_opt_id,
            forall|c: int|
                0 <= c < final(self).find_node_ops@.last().candidates@.len() ==> (exists|k: int|
                    0 <= k < bootstrap_addrs@.len() && (#[trigger] final(self).find_node_ops@.last().candidates@[c]).addr_opt_id == (AddrOptId {
                        addr: bootstrap_addrs@[k],
                        id: None,
                    })) || (exists|rec: AddrId|
                    routing::records_of_buckets(old(self).routing_table.buckets@).contains(rec)
                        && final(self).find_node_ops@.last().candidates@[c].addr_opt_id
                        == (AddrOptId { addr: rec.addr, id: Some(rec.id) })),
            (bootstrap_addrs@.len() >= 1 && bootstrap_addrs@.len() + crate::find_node_op::K_CLOSEST
                <= crate::find_node_op::MAX_CANDIDATES && old(self).tx_manager@.len() < 0x10000)
                ==> final(self).buffer.outbound@.len() > old(self).buffer.outbound@.len(),
    {
        let pivot = self.config.local_id;
        self.find_node(pivot, bootstrap_addrs, now);
    }
}

} // verus!
