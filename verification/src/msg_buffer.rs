//! FIFOs of inbound events and outbound datagrams, and the authoring of
//! outbound queries, responses, and errors.

use std::collections::VecDeque;
use vstd::prelude::*;
use crate::id::{AddrOptId, Id};
use crate::krpc::{self, KrpcMsg, MsgBody, MsgView, BodyView};
use crate::transaction::{self, Transaction};
use crate::{Duration, Instant, ReadEvent};

verus! {

/// Copies a byte vector.
pub fn vclone(v: &Vec<u8>) -> (r: Vec<u8>)
    ensures
        r@ == v@,
{
    let mut r: Vec<u8> = Vec::new();
    r.extend_from_slice(v.as_slice());
    r
}

/// Copies an optional byte vector.
pub fn opt_vclone(v: &Option<Vec<u8>>) -> (r: Option<Vec<u8>>)
    ensures
        opt_bytes_view(r) == opt_bytes_view(*v),
{
    match v {
        Some(vv) => Some(vclone(vv)),
        None => None,
    }
}

/// The mathematical value of an optional byte vector.
pub open spec fn opt_bytes_view(v: Option<Vec<u8>>) -> Option<Seq<u8>> {
    match v {
        Some(vv) => Some(vv@),
        None => None,
    }
}

/// The two big-endian bytes of a transaction id, as a sequence.
pub open spec fn tx_id_bytes(tx_id: transaction::Id) -> Seq<u8> {
    seq![(tx_id.0 / 0x100) as u8, (tx_id.0 % 0x100) as u8]
}

/// An outbound datagram: the encoded message, its destination, and — when
/// it carries a locally-issued query — the transaction id and timeout that
/// start counting when the datagram leaves the core.
#[derive(Debug)]
pub struct OutboundMsg {
    pub tx_id: Option<transaction::Id>,
    pub timeout: Duration,
    pub addr_opt_id: AddrOptId,
    pub msg_data: Vec<u8>,
}

impl OutboundMsg {
    /// The transaction this datagram starts, if it carries a query: the
    /// deadline begins at `now`, the moment the datagram leaves the core.
    pub fn into_transaction(self, now: Instant) -> (r: Option<Transaction>)
        requires
            now + self.timeout <= u64::MAX,
        ensures
            self.tx_id is None ==> r is None,
            self.tx_id matches Some(tx_id) ==> r == Some(
                Transaction { tx_id, addr_opt_id: self.addr_opt_id, deadline: (now + self.timeout) as u64 },
            ),
    {
        let addr_opt_id = self.addr_opt_id;
        let timeout = self.timeout;
        match self.tx_id {
            Some(tx_id) => Some(Transaction { tx_id, addr_opt_id, deadline: now + timeout }),
            None => None,
        }
    }
}

/// The buffer of inbound events and outbound datagrams, each a FIFO.
#[derive(Debug)]
pub struct Buffer {
    pub inbound: VecDeque<ReadEvent>,
    pub outbound: VecDeque<OutboundMsg>,
}

impl Buffer {
    /// An empty buffer.
    pub fn new() -> (r: Buffer)
        ensures
            r.inbound@.len() == 0,
            r.outbound@.len() == 0,
    {
        Buffer { inbound: VecDeque::new(), outbound: VecDeque::new() }
    }

    /// Appends an inbound event.
    pub fn push_inbound(&mut self, msg: ReadEvent)
        ensures
            final(self).inbound@ == old(self).inbound@.push(msg),
            final(self).outbound == old(self).outbound,
    {
        self.inbound.push_back(msg);
    }

    /// Removes and returns the oldest inbound event.
    pub fn pop_inbound(&mut self) -> (r: Option<ReadEvent>)
        ensures
            old(self).inbound@.len() == 0 ==> r is None && final(self).inbound@
                == old(self).inbound@,
            old(self).inbound@.len() > 0 ==> r == Some(old(self).inbound@[0])
                && final(self).inbound@ == old(self).inbound@.subrange(
                1,
                old(self).inbound@.len() as int,
            ),
            final(self).outbound == old(self).outbound,
    {
        self.inbound.pop_front()
    }

    /// Authors a query: encodes the envelope around the given transaction
    /// id and appends the datagram to the outbound FIFO. No transaction is
    /// tracked yet; that happens when the datagram is dequeued.
    pub fn write_query(
        &mut self,
        tx_id: transaction::Id,
        method: &Vec<u8>,
        queried_id: Id,
        target: Option<Id>,
        addr_opt_id: AddrOptId,
        timeout: Duration,
        client_version: &Option<Vec<u8>>,
    )
        requires
            method@.len() <= krpc::MAX_FIELD_LEN,
            match *client_version {
                Some(vv) => vv@.len() <= krpc::MAX_FIELD_LEN,
                None => true,
            },
        ensures
            final(self).inbound == old(self).inbound,
            final(self).outbound@.len() == old(self).outbound@.len() + 1,
            final(self).outbound@.drop_last() == old(self).outbound@,
            final(self).outbound@.last().tx_id == Some(tx_id),
            final(self).outbound@.last().addr_opt_id == addr_opt_id,
            final(self).outbound@.last().timeout == timeout,
            final(self).outbound@.last().msg_data@ == krpc::spec_encode(
                MsgView {
                    t: tx_id_bytes(tx_id),
                    v: opt_bytes_view(*client_version),
                    body: BodyView::Query { method: method@, id: queried_id, target },
                },
            ),
    {
        let msg = KrpcMsg {
            t: tx_id.to_be_bytes(),
            v: opt_vclone(client_version),
            body: MsgBody::Query { method: vclone(method), id: queried_id, target },
        };
        let data = krpc::encode(&msg);
        self.outbound.push_back(
            OutboundMsg { tx_id: Some(tx_id), timeout, addr_opt_id, msg_data: data },
        );
        proof {
            assert(self.outbound@.drop_last() =~= old(self).outbound@);
        }
    }

    /// Authors a response to a remote query and appends the datagram to
    /// the outbound FIFO. No transaction is tracked.
    pub fn write_resp(
        &mut self,
        transaction_id: &Vec<u8>,
        queried_id: Id,
        nodes: Option<Vec<u8>>,
        addr_opt_id: AddrOptId,
        client_version: &Option<Vec<u8>>,
    )
        requires
            transaction_id@.len() <= krpc::MAX_FIELD_LEN,
            match nodes {
                Some(n) => n@.len() <= krpc::MAX_FIELD_LEN,
                None => true,
            },
            match *client_version {
                Some(vv) => vv@.len() <= krpc::MAX_FIELD_LEN,
                None => true,
            },
        ensures
            final(self).inbound == old(self).inbound,
            final(self).outbound@.len() == old(self).outbound@.len() + 1,
            final(self).outbound@.drop_last() == old(self).outbound@,
            final(self).outbound@.last().tx_id is None,
            final(self).outbound@.last().addr_opt_id == addr_opt_id,
            final(self).outbound@.last().msg_data@ == krpc::spec_encode(
                MsgView {
                    t: transaction_id@,
                    v: opt_bytes_view(*client_version),
                    body: BodyView::Resp { id: queried_id, nodes: opt_bytes_view(nodes) },
                },
            ),
    {
        let ghost nodes_view = opt_bytes_view(nodes);
        let msg = KrpcMsg {
            t: vclone(transaction_id),
            v: opt_vclone(client_version),
            body: MsgBody::Resp { id: queried_id, nodes },
        };
        let data = krpc::encode(&msg);
        self.outbound.push_back(
            OutboundMsg { tx_id: None, timeout: 0, addr_opt_id, msg_data: data },
        );
        proof {
            assert(self.outbound@.drop_last() =~= old(self).outbound@);
        }
    }

    /// Authors an error reply to a remote query and appends the datagram
    /// to the outbound FIFO. No transaction is tracked.
    pub fn write_err(
        &mut self,
        transaction_id: &Vec<u8>,
        code: i64,
        msg_text: Vec<u8>,
        addr_opt_id: AddrOptId,
        client_version: &Option<Vec<u8>>,
    )
        requires
            transaction_id@.len() <= krpc::MAX_FIELD_LEN,
            msg_text@.len() <= krpc::MAX_FIELD_LEN,
            -(krpc::MAX_FIELD_LEN as int) <= code as int <= krpc::MAX_FIELD_LEN as int,
            match *client_version {
                Some(vv) => vv@.len() <= krpc::MAX_FIELD_LEN,
                None => true,
            },
        ensures
            final(self).inbound == old(self).inbound,
            final(self).outbound@.len() == old(self).outbound@.len() + 1,
            final(self).outbound@.drop_last() == old(self).outbound@,
            final(self).outbound@.last().tx_id is None,
            final(self).outbound@.last().addr_opt_id == addr_opt_id,
            final(self).outbound@.last().msg_data@ == krpc::spec_encode(
                MsgView {
                    t: transaction_id@,
                    v: opt_bytes_view(*client_version),
                    body: BodyView::Error { code: code as int, msg: msg_text@ },
                },
            ),
    {
        let msg = KrpcMsg {
            t: vclone(transaction_id),
            v: opt_vclone(client_version),
            body: MsgBody::Error { code, msg: msg_text },
        };
        let data = krpc::encode(&msg);
        self.outbound.push_back(
            OutboundMsg { tx_id: None, timeout: 0, addr_opt_id, msg_data: data },
        );
        proof {
            assert(self.outbound@.drop_last() =~= old(self).outbound@);
        }
    }

    /// Removes and returns the oldest outbound datagram.
    pub fn pop_outbound(&mut self) -> (r: Option<OutboundMsg>)
        ensures
            old(self).outbound@.len() == 0 ==> r is None && final(self).outbound@
                == old(self).outbound@,
            old(self).outbound@.len() > 0 ==> r == Some(old(self).outbound@[0])
                && final(self).outbound@ == old(self).outbound@.subrange(
                1,
                old(self).outbound@.len() as int,
            ),
            final(self).inbound == old(self).inbound,
    {
        self.outbound.pop_front()
    }
}

} // verus!
