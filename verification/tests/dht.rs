//! End-to-end tests of the node facade: query authoring, the outbound
//! FIFO, transaction reconciliation, timeouts, and bootstrap.

use sloppy::find_node_op::{find_node_method, ping_method};
use sloppy::id::{AddrId, AddrOptId, CompactAddr, Id, IdRange};
use sloppy::krpc::{decode, encode, KrpcMsg, MsgBody};
use sloppy::transaction::Transaction;
use sloppy::{Config, ErrorKind, Node};

fn rand_id() -> Id {
    Id::rand_in_inclusive_range(&IdRange::full())
}

fn remote_addr() -> CompactAddr {
    CompactAddr::V4 { ip: 0x7f000001, port: 6532 }
}

fn bootstrap_remote_addr() -> CompactAddr {
    CompactAddr::V4 { ip: 0x7f000001, port: 6881 }
}

fn new_config() -> Config {
    let mut config = Config::new(rand_id());
    config.set_is_read_only_node(true);
    config
}

#[test]
fn test_send_message() {
    let id = rand_id();
    let remote_addr = remote_addr();
    let addr_opt_id = AddrOptId::new(remote_addr, Some(id));

    let config = new_config();

    let mut node = Node::new(config, Vec::new(), Vec::new(), 0);
    let tx_id = node.next_tx_id().unwrap();
    node.insert_tx(Transaction {
        tx_id,
        addr_opt_id,
        deadline: node.config().default_query_timeout(),
    });
}

#[test]
fn test_bootstrap() {
    let config = new_config();
    let local_id = config.local_id();
    let mut node = Node::new(config, Vec::new(), vec![bootstrap_remote_addr()], 0);

    let out = node.send_to(0).expect("a bootstrap query should be queued");
    assert_eq!(out.addr_opt_id.addr, bootstrap_remote_addr());
    let msg = decode(&out.msg_data).expect("own datagrams decode");
    match msg.body {
        MsgBody::Query { method, id, target } => {
            assert_eq!(method, find_node_method());
            assert_eq!(id, local_id);
            assert_eq!(target, Some(local_id));
        }
        _ => panic!("expected a query"),
    }
}

#[test]
fn ping_round_trip_envelope() {
    // A ping authored locally leaves as a `q` envelope carrying the
    // local id and the returned transaction id.
    let config = new_config();
    let local_id = config.local_id();
    let remote_id = rand_id();
    let mut node = Node::new(config, Vec::new(), Vec::new(), 0);

    let method = ping_method();
    let tx_id = node
        .write_query(
            &method,
            None,
            AddrOptId::new(remote_addr(), Some(remote_id)),
            None,
        )
        .unwrap();

    let out = node.send_to(0).expect("the ping should be queued");
    assert_eq!(out.tx_id, Some(tx_id));
    let msg = decode(&out.msg_data).expect("own datagrams decode");
    assert_eq!(msg.t, tx_id.to_be_bytes());
    match msg.body {
        MsgBody::Query { method, id, target } => {
            assert_eq!(method, ping_method());
            assert_eq!(id, local_id);
            assert_eq!(target, None);
        }
        _ => panic!("expected a query"),
    }
}

#[test]
fn strict_id_rejection() {
    // A response from the right address but the wrong id is rejected
    // with `InvalidInput`, and the transaction stays consumed.
    let config = new_config();
    let expected_id = rand_id();
    let other_id = rand_id();
    assert_ne!(expected_id, other_id);
    let mut node = Node::new(config, Vec::new(), Vec::new(), 0);

    let method = ping_method();
    let tx_id = node
        .write_query(
            &method,
            None,
            AddrOptId::new(remote_addr(), Some(expected_id)),
            None,
        )
        .unwrap();
    let _ = node.send_to(0).unwrap();

    let resp = KrpcMsg {
        t: tx_id.to_be_bytes(),
        v: None,
        body: MsgBody::Resp { id: other_id, nodes: None },
    };
    let bytes = encode(&resp);
    let err = node.on_recv(&bytes, remote_addr(), 10).unwrap_err();
    assert!(matches!(err.kind, ErrorKind::InvalidInput(_)));

    // The transaction was consumed, not requeued: replaying the response
    // still fails, now for want of a matching transaction.
    let err = node.on_recv(&bytes, remote_addr(), 11).unwrap_err();
    assert!(matches!(err.kind, ErrorKind::InvalidInput(_)));
}

#[test]
fn timeout_accounting() {
    // With a one-second query timeout the deadline surfaces through
    // `timeout()`, the transaction pops exactly once, and the remote
    // record's karma drops by one.
    let mut config = new_config();
    config.set_default_query_timeout(1000);
    let remote_id = rand_id();
    let t0: u64 = 50_000;
    let mut node = Node::new(config, Vec::new(), Vec::new(), t0);

    // A query from the remote creates its record with karma 0.
    let query = KrpcMsg {
        t: vec![7, 7],
        v: None,
        body: MsgBody::Query {
            method: ping_method(),
            id: remote_id,
            target: None,
        },
    };
    let bytes = encode(&query);
    node.on_recv(&bytes, remote_addr(), t0).unwrap();

    let method = ping_method();
    let _tx_id = node
        .write_query(
            &method,
            None,
            AddrOptId::new(remote_addr(), Some(remote_id)),
            None,
        )
        .unwrap();
    let _ = node.send_to(t0).unwrap();

    let deadline = node.timeout().unwrap();
    assert_eq!(deadline, t0 + 1000);

    assert!(node.pop_timed_out_tx(t0 + 500).is_none());
    let tx = node.pop_timed_out_tx(t0 + 1100).expect("the ping timed out");
    assert_eq!(tx.deadline, t0 + 1000);
    assert!(node.pop_timed_out_tx(t0 + 1100).is_none());

    let karma = node
        .routing_table
        .buckets
        .iter()
        .flat_map(|b| b.nodes.iter())
        .find(|n| n.addr_id == AddrId::new(remote_addr(), remote_id))
        .map(|n| n.karma)
        .expect("the remote record exists");
    assert_eq!(karma, -1);
}

#[test]
fn outbound_fifo_and_deferred_insert() {
    // Authored queries enter the outbound FIFO in order, and their
    // transactions enter the manager only when the datagram is dequeued.
    let config = new_config();
    let mut node = Node::new(config, Vec::new(), Vec::new(), 0);

    let method = ping_method();
    let a = AddrOptId::new(remote_addr(), Some(rand_id()));
    let b = AddrOptId::new(bootstrap_remote_addr(), Some(rand_id()));
    let tx_a = node.write_query(&method, None, a, None).unwrap();
    let tx_b = node.write_query(&method, None, b, None).unwrap();
    assert_eq!(node.tx_manager.len(), 0);

    let first = node.send_to(0).unwrap();
    assert_eq!(first.tx_id, Some(tx_a));
    assert_eq!(first.addr_opt_id, a);
    assert_eq!(node.tx_manager.len(), 1);

    let second = node.send_to(0).unwrap();
    assert_eq!(second.tx_id, Some(tx_b));
    assert_eq!(second.addr_opt_id, b);
    assert_eq!(node.tx_manager.len(), 2);

    assert!(node.send_to(0).is_none());
}

#[test]
fn unknown_and_malformed_datagrams() {
    let config = new_config();
    let mut node = Node::new(config, Vec::new(), Vec::new(), 0);

    // Not bencode at all.
    let err = node.on_recv(b"hello", remote_addr(), 0).unwrap_err();
    assert!(err.is_decode_error());
    assert!(matches!(err.kind, ErrorKind::Decode));

    // A truncated dictionary is not a complete bencode value: a decode
    // failure even though its first key parses.
    let err = node.on_recv(b"d1:z", remote_addr(), 0).unwrap_err();
    assert!(matches!(err.kind, ErrorKind::Decode));

    // A complete bencode value that is no recognized message: a
    // dictionary with only unmodeled entries, or a bare integer.
    let err = node.on_recv(b"d1:z1:xe", remote_addr(), 0).unwrap_err();
    assert!(matches!(err.kind, ErrorKind::UnknownMsgTy));
    let err = node.on_recv(b"i5e", remote_addr(), 0).unwrap_err();
    assert!(matches!(err.kind, ErrorKind::UnknownMsgTy));

    // A response that matches no outstanding transaction.
    let resp = KrpcMsg {
        t: vec![1, 2],
        v: None,
        body: MsgBody::Resp { id: rand_id(), nodes: None },
    };
    let err = node.on_recv(&encode(&resp), remote_addr(), 0).unwrap_err();
    assert!(matches!(err.kind, ErrorKind::InvalidInput(_)));
}

#[test]
fn query_event_updates_routing_table() {
    let config = new_config();
    let remote_id = rand_id();
    let mut node = Node::new(config, Vec::new(), Vec::new(), 0);

    let query = KrpcMsg {
        t: vec![9, 9],
        v: Some(b"xx01".to_vec()),
        body: MsgBody::Query {
            method: ping_method(),
            id: remote_id,
            target: None,
        },
    };
    let ev = node.on_recv(&encode(&query), remote_addr(), 0).unwrap();
    assert_eq!(ev.tx_id(), None);
    assert_eq!(*ev.addr_opt_id(), AddrOptId::new(remote_addr(), Some(remote_id)));

    let held = node
        .routing_table
        .buckets
        .iter()
        .flat_map(|b| b.nodes.iter())
        .any(|n| n.addr_id == AddrId::new(remote_addr(), remote_id));
    assert!(held);

    // The same event is queued for `read`.
    let queued = node.read().expect("the event was queued");
    assert_eq!(queued.tx_id(), None);
    assert!(node.read().is_none());
}

#[test]
fn foreign_entries_are_tolerated() {
    // A get_peers-style query carrying an argument beyond the modeled
    // fields still decodes and is delivered as a Query event.
    let config = new_config();
    let remote_id = rand_id();
    let mut node = Node::new(config, Vec::new(), Vec::new(), 0);

    let id_bytes = remote_id.to_be_bytes();
    let mut bytes: Vec<u8> = Vec::new();
    bytes.extend_from_slice(b"d1:ad2:id20:");
    bytes.extend_from_slice(&id_bytes);
    bytes.extend_from_slice(b"9:info_hash20:");
    bytes.extend_from_slice(&[0xaa; 20]);
    bytes.extend_from_slice(b"e1:q9:get_peers1:t2:xy1:y1:qe");
    let ev = node.on_recv(&bytes, remote_addr(), 0).expect("extra args are skipped");
    match ev.msg() {
        sloppy::MsgEvent::Query(m) => {
            assert_eq!(m.t, b"xy".to_vec());
            match &m.body {
                MsgBody::Query { method, id, target } => {
                    assert_eq!(method, &b"get_peers".to_vec());
                    assert_eq!(*id, remote_id);
                    assert_eq!(*target, None);
                }
                _ => panic!("expected a query"),
            }
        }
        _ => panic!("expected a query event"),
    }

    // A response carrying an extra entry in `r` still reconciles its
    // transaction.
    let queried = rand_id();
    let method = ping_method();
    let tx_id = node
        .write_query(&method, None, AddrOptId::new(remote_addr(), Some(queried)), None)
        .unwrap();
    let _ = node.send_to(0).unwrap();
    let qid_bytes = queried.to_be_bytes();
    let mut resp: Vec<u8> = Vec::new();
    resp.extend_from_slice(b"d2:ip6:");
    resp.extend_from_slice(&[1, 2, 3, 4, 5, 6]);
    resp.extend_from_slice(b"1:rd2:id20:");
    resp.extend_from_slice(&qid_bytes);
    resp.extend_from_slice(b"5:token4:abcde1:t");
    resp.extend_from_slice(b"2:");
    resp.extend_from_slice(&tx_id.to_be_bytes());
    resp.extend_from_slice(b"1:y1:re");
    let ev = node.on_recv(&resp, remote_addr(), 1).expect("extra values are skipped");
    assert_eq!(ev.tx_id(), Some(tx_id));
    assert_eq!(node.tx_manager.len(), 0);
}
