//! Tests of the routing table invariants, the neighbor search order, the
//! wire codec round trip, and the iterative lookup.

use sloppy::find_node_op::{parse_compact_v4, FindNodeOp, Response};
use sloppy::id::{AddrId, AddrOptId, CompactAddr, Id, IdRange};
use sloppy::krpc::{decode, encode, Kind, KrpcMsg, MsgBody};
use sloppy::msg_buffer::Buffer;
use sloppy::routing::Table;
use sloppy::transaction::{Transaction, Transactions};
use sloppy::{Config, SupportedAddr, MAX_BUCKET_SIZE};

fn id_from_lead(lead: u8) -> Id {
    let mut bytes = [0u8; 20];
    bytes[0] = lead;
    Id::from_be_bytes(&bytes)
}

fn v4(ip: u32, port: u16) -> CompactAddr {
    CompactAddr::V4 { ip, port }
}

fn xor_dist(a: Id, b: Id) -> (u32, u128) {
    (a.hi ^ b.hi, a.lo ^ b.lo)
}

#[test]
fn bucket_split_on_ninth_insert() {
    // A zero pivot with nine contacts forces at least one split; the
    // pivot keeps the low range and no bucket exceeds its capacity.
    let pivot = Id::min();
    let mut table = Table::new(pivot, 0);
    assert_eq!(table.buckets.len(), 1);

    for k in 1u8..=9 {
        let inserted = table.try_insert(AddrId::new(v4(0x0a000000 + k as u32, 6881), id_from_lead(k)), 0);
        assert!(inserted);
    }

    assert!(table.buckets.len() >= 2);
    for bucket in &table.buckets {
        assert!(bucket.nodes.len() <= MAX_BUCKET_SIZE);
        for n in &bucket.nodes {
            assert!(bucket.range.contains(&n.addr_id.id));
        }
    }
    // The pivot's bucket is the last one and starts at the bottom of the
    // id space.
    let last = table.buckets.last().unwrap();
    assert!(last.range.contains(&pivot));
    assert_eq!(last.range.start, Id::min());
    // Exactly one bucket holds the pivot.
    let holders = table.buckets.iter().filter(|b| b.range.contains(&pivot)).count();
    assert_eq!(holders, 1);
    // Every contact is still held somewhere.
    for k in 1u8..=9 {
        let held = table
            .buckets
            .iter()
            .flat_map(|b| b.nodes.iter())
            .any(|n| n.addr_id.id == id_from_lead(k));
        assert!(held, "contact {k} was lost");
    }
}

#[test]
fn bucket_ranges_partition() {
    // On a concrete table: ranges are pairwise disjoint, cover
    // sample points, and only one bucket holds the pivot.
    let pivot = Id::min();
    let mut table = Table::new(pivot, 0);
    for k in 1u8..=12 {
        table.try_insert(AddrId::new(v4(0x0a000000 + k as u32, 6881), id_from_lead(k)), 0);
    }
    let n = table.buckets.len();
    for i in 0..n {
        for j in (i + 1)..n {
            let a = table.buckets[i].range;
            let b = table.buckets[j].range;
            assert!(a.end.lt(&b.start) || b.end.lt(&a.start));
        }
    }
    for probe in [Id::min(), Id::max(), id_from_lead(3), id_from_lead(200)] {
        let holders = table.buckets.iter().filter(|b| b.range.contains(&probe)).count();
        assert_eq!(holders, 1);
    }
}

#[test]
fn duplicate_construction_insert_is_refused() {
    // A pair that is already held changes nothing: the duplicate is seen
    // before any split, so even a full pivot bucket keeps its layout.
    let pivot = Id::min();
    let mut table = Table::new(pivot, 0);
    for k in 1u8..=8 {
        assert!(table.try_insert(AddrId::new(v4(0x0a000000 + k as u32, 6881), id_from_lead(k)), 0));
    }
    assert_eq!(table.buckets.len(), 1);
    let shape: Vec<(IdRange, usize)> =
        table.buckets.iter().map(|b| (b.range, b.nodes.len())).collect();
    // The bucket is full and holds the pivot, yet a duplicate must not
    // split it.
    assert!(!table.try_insert(AddrId::new(v4(0x0a000003, 6881), id_from_lead(3)), 5));
    let shape_after: Vec<(IdRange, usize)> =
        table.buckets.iter().map(|b| (b.range, b.nodes.len())).collect();
    assert_eq!(shape, shape_after);
}

#[test]
fn repeated_insert_is_idempotent() {
    // Merging the same pair twice leaves the table's shape and
    // membership as after one merge; only the record's liveness moved.
    let pivot = Id::min();
    let mut table = Table::new(pivot, 0);
    let addr_id = AddrId::new(v4(0x0a000001, 6881), id_from_lead(5));
    table.on_msg_received(addr_id, &Kind::Query, None, 900_000, 0);

    let shape_before: Vec<(IdRange, usize)> =
        table.buckets.iter().map(|b| (b.range, b.nodes.len())).collect();

    table.on_msg_received(addr_id, &Kind::Query, None, 1_800_000, 7);

    let shape_after: Vec<(IdRange, usize)> =
        table.buckets.iter().map(|b| (b.range, b.nodes.len())).collect();
    assert_eq!(shape_before, shape_after);
    let copies = table
        .buckets
        .iter()
        .flat_map(|b| b.nodes.iter())
        .filter(|n| n.addr_id == addr_id)
        .count();
    assert_eq!(copies, 1);
}

#[test]
fn neighbors_sorted_by_distance() {
    // On a concrete table: the result is every held record, ordered by
    // ascending XOR distance to the target.
    let pivot = Id::min();
    let mut table = Table::new(pivot, 0);
    let leads = [0x80u8, 0x01, 0x40, 0x03, 0xff, 0x22];
    for (i, lead) in leads.iter().enumerate() {
        table.try_insert(
            AddrId::new(v4(0x0a000000 + i as u32, 6881), id_from_lead(*lead)),
            0,
        );
    }
    let target = id_from_lead(0x02);
    let neighbors = table.find_neighbors(&target, 0);
    assert_eq!(neighbors.len(), leads.len());
    for w in neighbors.windows(2) {
        assert!(xor_dist(w[0].id, target) <= xor_dist(w[1].id, target));
    }
    for lead in leads {
        assert!(neighbors.iter().any(|a| a.id == id_from_lead(lead)));
    }
    // The closest is the contact sharing the most significant bits.
    assert_eq!(neighbors[0].id, id_from_lead(0x03));
}

#[test]
fn tx_ids_unique_and_fresh() {
    // Held ids stay unique and the probe never returns a held id.
    let mut txs = Transactions::new();
    let addr = AddrOptId::new(v4(1, 1), None);
    for raw in [5u16, 6, 7] {
        assert!(txs.insert(Transaction {
            tx_id: sloppy::transaction::Id(raw),
            addr_opt_id: addr,
            deadline: 100,
        }));
    }
    // A duplicate id is refused.
    assert!(!txs.insert(Transaction {
        tx_id: sloppy::transaction::Id(6),
        addr_opt_id: addr,
        deadline: 100,
    }));
    assert_eq!(txs.len(), 3);
    // The probe starting on a held id walks past the run of held ids.
    let fresh = txs.next_tx_id(5).unwrap();
    assert!(![5u16, 6, 7].contains(&fresh.0));
    assert_eq!(fresh.0, 8);
}

#[test]
fn tx_table_full() {
    // With all 65,536 ids in use, no id can be drawn and no transaction
    // inserted.
    let mut txs = Transactions::new();
    let addr = AddrOptId::new(v4(1, 1), None);
    for raw in 0u32..0x10000 {
        txs.txs.push(Transaction {
            tx_id: sloppy::transaction::Id(raw as u16),
            addr_opt_id: addr,
            deadline: 100,
        });
    }
    assert!(txs.next_tx_id(12345).is_none());
    assert!(!txs.insert(Transaction {
        tx_id: sloppy::transaction::Id(1),
        addr_opt_id: addr,
        deadline: 100,
    }));
}

#[test]
fn codec_round_trips_every_shape() {
    // The codec round-trips one message of every shape of the wire format.
    let id = id_from_lead(0xab);
    let target = id_from_lead(0xcd);
    let shapes = vec![
        KrpcMsg {
            t: vec![0, 1],
            v: None,
            body: MsgBody::Query { method: b"ping".to_vec(), id, target: None },
        },
        KrpcMsg {
            t: vec![250, 255],
            v: Some(b"xx01".to_vec()),
            body: MsgBody::Query {
                method: b"find_node".to_vec(),
                id,
                target: Some(target),
            },
        },
        KrpcMsg { t: vec![9], v: None, body: MsgBody::Resp { id, nodes: None } },
        KrpcMsg {
            t: vec![0, 9],
            v: Some(b"v".to_vec()),
            body: MsgBody::Resp { id, nodes: Some(vec![7u8; 26]) },
        },
        KrpcMsg {
            t: vec![1, 1],
            v: None,
            body: MsgBody::Error { code: 201, msg: b"Generic Error".to_vec() },
        },
        KrpcMsg {
            t: vec![1, 2],
            v: Some(b"cl".to_vec()),
            body: MsgBody::Error { code: -7, msg: Vec::new() },
        },
    ];
    for m in shapes {
        let bytes = encode(&m);
        let back = decode(&bytes).expect("an encoded message decodes");
        assert_eq!(back.t, m.t);
        assert_eq!(back.v, m.v);
        match (&back.body, &m.body) {
            (
                MsgBody::Query { method: m1, id: i1, target: t1 },
                MsgBody::Query { method: m2, id: i2, target: t2 },
            ) => {
                assert_eq!(m1, m2);
                assert_eq!(i1, i2);
                assert_eq!(t1, t2);
            }
            (
                MsgBody::Resp { id: i1, nodes: n1 },
                MsgBody::Resp { id: i2, nodes: n2 },
            ) => {
                assert_eq!(i1, i2);
                assert_eq!(n1, n2);
            }
            (
                MsgBody::Error { code: c1, msg: m1 },
                MsgBody::Error { code: c2, msg: m2 },
            ) => {
                assert_eq!(c1, c2);
                assert_eq!(m1, m2);
            }
            _ => panic!("the decoded shape changed"),
        }
    }
}

#[test]
fn codec_bytes_exact() {
    // The ping query of the wire format, byte for byte.
    let mut id_bytes = [0u8; 20];
    id_bytes[0] = 0xab;
    let id = Id::from_be_bytes(&id_bytes);
    let m = KrpcMsg {
        t: vec![b'a', b'a'],
        v: None,
        body: MsgBody::Query { method: b"ping".to_vec(), id, target: None },
    };
    let bytes = encode(&m);
    let mut expected: Vec<u8> = Vec::new();
    expected.extend_from_slice(b"d1:ad2:id20:");
    expected.extend_from_slice(&id_bytes);
    expected.extend_from_slice(b"e1:q4:ping1:t2:aa1:y1:qe");
    assert_eq!(bytes, expected);
}

#[test]
fn codec_agrees_with_bencode_library() {
    // Cross-check the canonical encoding against an independent bencode
    // implementation.
    let mut id_bytes = [3u8; 20];
    id_bytes[0] = 0x17;
    let id = Id::from_be_bytes(&id_bytes);
    let m = KrpcMsg {
        t: vec![0x00, 0x2a],
        v: Some(b"sl01".to_vec()),
        body: MsgBody::Query { method: b"ping".to_vec(), id, target: None },
    };
    let bytes = encode(&m);
    let value: bt_bencode::Value = bt_bencode::from_slice(&bytes).expect("valid bencode");
    let dict = value.as_dict().expect("a dictionary");
    let get = |key: &str| {
        dict.get(&bt_bencode::ByteString::from(key))
            .expect("the key exists")
    };
    assert_eq!(&get("y").as_byte_str().unwrap()[..], b"q");
    assert_eq!(&get("q").as_byte_str().unwrap()[..], b"ping");
    assert_eq!(&get("t").as_byte_str().unwrap()[..], &[0x00, 0x2a]);
    assert_eq!(&get("v").as_byte_str().unwrap()[..], b"sl01");
    let args = get("a").as_dict().expect("args dictionary");
    let arg_id = args
        .get(&bt_bencode::ByteString::from("id"))
        .unwrap()
        .as_byte_str()
        .unwrap();
    assert_eq!(&arg_id[..], &id_bytes);
    // And the library's own serialization of that value parses back here.
    let reserialized = bt_bencode::to_vec(&value).unwrap();
    let back = decode(&reserialized).expect("canonical bencode decodes");
    assert_eq!(back.t, m.t);
}

#[test]
fn kind_values() {
    assert_eq!(Kind::Query.val(), "q");
    assert_eq!(Kind::Response.val(), "r");
    assert_eq!(Kind::Error.val(), "e");
    assert_eq!(Kind::Unknown("x").val(), "x");
}

#[test]
fn compact_nodes_parse() {
    let mut bytes: Vec<u8> = Vec::new();
    let mut id0 = [0u8; 20];
    id0[0] = 1;
    bytes.extend_from_slice(&id0);
    bytes.extend_from_slice(&[10, 0, 0, 1]);
    bytes.extend_from_slice(&[0x1a, 0xe1]);
    let mut id1 = [0u8; 20];
    id1[0] = 2;
    bytes.extend_from_slice(&id1);
    bytes.extend_from_slice(&[10, 0, 0, 2]);
    bytes.extend_from_slice(&[0x1a, 0xe2]);

    let parsed = parse_compact_v4(&bytes).expect("two whole records");
    assert_eq!(parsed.len(), 2);
    assert_eq!(parsed[0].id, Id::from_be_bytes(&id0));
    assert_eq!(parsed[0].addr, CompactAddr::V4 { ip: 0x0a000001, port: 0x1ae1 });
    assert_eq!(parsed[1].addr, CompactAddr::V4 { ip: 0x0a000002, port: 0x1ae2 });

    assert!(parse_compact_v4(&bytes[..30]).is_none());
}

#[test]
fn lookup_converges() {
    // A lookup seeded with ten candidates, answered with a
    // closer batch once, terminates with nothing in flight and its closest
    // prefix answered.
    let target = id_from_lead(0x55);
    let config = Config::new(Id::min());
    let txs = Transactions::new();
    let mut buffer = Buffer::new();

    let mut seeds: Vec<AddrOptId> = Vec::new();
    for k in 1u8..=10 {
        seeds.push(AddrOptId::new(v4(0x0a000000 + k as u32, 6881), Some(id_from_lead(k))));
    }
    let mut op = FindNodeOp::new(target, SupportedAddr::Ipv4, seeds);
    op.start_queries(&config, &txs, &mut buffer);
    assert_eq!(op.count_in_flight(), 3);

    // One batch of closer nodes arrives with the first response.
    let mut closer: Vec<u8> = Vec::new();
    let mut idb = [0u8; 20];
    idb[0] = 0x54;
    closer.extend_from_slice(&idb);
    closer.extend_from_slice(&[10, 0, 1, 1]);
    closer.extend_from_slice(&[0x1a, 0xe1]);

    let mut first = true;
    let mut rounds = 0;
    while !op.is_done() {
        rounds += 1;
        assert!(rounds < 100, "the lookup should converge");
        let out = match buffer.pop_outbound() {
            Some(out) => out,
            None => break,
        };
        let tx_id = out.tx_id.expect("lookup datagrams carry queries");
        let tx = Transaction { tx_id, addr_opt_id: out.addr_opt_id, deadline: 0 };
        let resp = KrpcMsg {
            t: tx_id.to_be_bytes(),
            v: None,
            body: MsgBody::Resp {
                id: out.addr_opt_id.id.unwrap_or(Id::min()),
                nodes: if first { Some(closer.clone()) } else { None },
            },
        };
        first = false;
        op.handle(&tx, Response::Resp(&resp));
        op.start_queries(&config, &txs, &mut buffer);
    }
    assert!(op.is_done());
    assert_eq!(op.count_in_flight(), 0);
    // The closer contact learned along the way sits at the front.
    assert_eq!(op.candidates[0].addr_opt_id.id, Some(Id::from_be_bytes(&idb)));
}

#[test]
fn id_arithmetic() {
    // The midpoint of the full space, the saturating successor, and the
    // byte round trip.
    let min = Id::min();
    let max = Id::max();
    let mid = max.middle(&min);
    assert_eq!(mid, Id { hi: 0x7fffffff, lo: u128::MAX });
    assert_eq!(mid.next(), Id { hi: 0x80000000, lo: 0 });
    assert_eq!(max.next(), max);

    let id = id_from_lead(0x42);
    let bytes = id.to_be_bytes();
    assert_eq!(bytes.len(), 20);
    assert_eq!(Id::from_be_bytes(&bytes), id);

    let range = IdRange { start: id_from_lead(0x10), end: id_from_lead(0x20) };
    for _ in 0..16 {
        let r = Id::rand_in_inclusive_range(&range);
        assert!(range.contains(&r));
    }
}
