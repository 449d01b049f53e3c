use krpc::bencode::{compare_bytes, decode, dict_insert, encode, is_canonical, DecodeError, Value};
use krpc::message::{
    check_args, check_response_for, parse_nodes, parse_peer_at, protocol_error_reply, unknown_method_reply, NodeInfo,
    Package, PackagePayload, QueryMethod,
};
use krpc::transaction::{
    Dispatch, Endpoint, Outcome, SendError, TransactionTable, DEFAULT_MAX_IN_FLIGHT, DEFAULT_TIMEOUT,
};

fn bytes(s: &str) -> Value {
    Value::Bytes(s.as_bytes().to_vec())
}

fn dict(entries: Vec<(&str, Value)>) -> Value {
    Value::Dict(entries.into_iter().map(|(k, v)| (k.as_bytes().to_vec(), v)).collect())
}

fn entry<'a>(v: &'a Value, key: &str) -> &'a Value {
    match v {
        Value::Dict(d) => {
            for (k, x) in d.iter() {
                if k.as_slice() == key.as_bytes() {
                    return x;
                }
            }
            panic!("no key {}", key)
        }
        _ => panic!("not a dictionary: {:?}", v),
    }
}

fn new_package(payload: PackagePayload) -> Package {
    Package { transaction_id: vec![1, 2, 254, 255], payload, version: None }
}

fn common(v: &Value, typ: &str) {
    assert_eq!(*entry(v, "t"), Value::Bytes(vec![1, 2, 254, 255]));
    assert_eq!(*entry(v, "y"), bytes(typ));
}

fn id_args(id: &str) -> Value {
    dict(vec![("id", bytes(id))])
}

const ID_A: &str = "abcdefghij0123456789";
const ID_B: &str = "mnopqrstuvwxyz123456";

#[test]
fn test_error_to_bencode() {
    let p = new_package(PackagePayload::Error(10, b"error".to_vec()));
    let enc = p.to_bencode();
    common(&enc, "e");
    assert_eq!(*entry(&enc, "e"), Value::List(vec![Value::Int(10), bytes("error")]));
}

#[test]
fn test_query_to_bencode() {
    let p = new_package(PackagePayload::Query(QueryMethod::Ping, Value::Dict(vec![])));
    let enc = p.to_bencode();
    common(&enc, "q");
    assert_eq!(*entry(&enc, "a"), Value::Dict(vec![]));
    assert_eq!(*entry(&enc, "q"), bytes("ping"));
}

#[test]
fn test_response_to_bencode() {
    let p = new_package(PackagePayload::Response(Value::Dict(vec![])));
    let enc = p.to_bencode();
    common(&enc, "r");
    assert_eq!(*entry(&enc, "r"), Value::Dict(vec![]));
}

#[test]
fn ping_query_encodes_exactly() {
    let p = Package {
        transaction_id: b"aa".to_vec(),
        payload: PackagePayload::Query(QueryMethod::Ping, id_args(ID_A)),
        version: None,
    };
    assert_eq!(p.encode(), b"d1:ad2:id20:abcdefghij0123456789e1:q4:ping1:t2:aa1:y1:qe".to_vec());
}

#[test]
fn ping_reply_encodes_exactly() {
    let p = Package {
        transaction_id: b"aa".to_vec(),
        payload: PackagePayload::Response(id_args(ID_B)),
        version: None,
    };
    assert_eq!(p.encode(), b"d1:rd2:id20:mnopqrstuvwxyz123456e1:t2:aa1:y1:re".to_vec());
}

#[test]
fn error_encodes_exactly() {
    let p = Package {
        transaction_id: b"aa".to_vec(),
        payload: PackagePayload::Error(201, b"A Generic Error Ocurred".to_vec()),
        version: None,
    };
    assert_eq!(p.encode(), b"d1:eli201e23:A Generic Error Ocurrede1:t2:aa1:y1:ee".to_vec());
}

fn node_record(id: &[u8], ip: [u8; 4], port: u16) -> Vec<u8> {
    let mut r = id.to_vec();
    r.extend_from_slice(&ip);
    r.push((port >> 8) as u8);
    r.push((port & 0xff) as u8);
    r
}

#[test]
fn find_node_response_round_trip() {
    let mut nodes = Vec::new();
    nodes.extend(node_record(b"AAAAAAAAAAAAAAAAAAAA", [10, 0, 0, 1], 6881));
    nodes.extend(node_record(b"BBBBBBBBBBBBBBBBBBBB", [192, 168, 1, 2], 1));
    nodes.extend(node_record(b"CCCCCCCCCCCCCCCCCCCC", [255, 255, 255, 255], 65535));
    let p = Package {
        transaction_id: b"aa".to_vec(),
        payload: PackagePayload::Response(dict(vec![
            ("id", bytes(ID_B)),
            ("nodes", Value::Bytes(nodes)),
        ])),
        version: None,
    };
    let wire = p.encode();
    let back = Package::decode(&wire).unwrap();
    assert_eq!(back, p);
    let vals = match &back.payload {
        PackagePayload::Response(v) => v,
        _ => panic!("not a response"),
    };
    let raw = match entry(vals, "nodes") {
        Value::Bytes(b) => b.clone(),
        _ => panic!("nodes not bytes"),
    };
    let found = parse_nodes(&raw).unwrap();
    assert_eq!(
        found,
        vec![
            NodeInfo {
                id: b"AAAAAAAAAAAAAAAAAAAA".to_vec(),
                endpoint: Endpoint { ip: 0x0a000001, port: 6881 },
            },
            NodeInfo {
                id: b"BBBBBBBBBBBBBBBBBBBB".to_vec(),
                endpoint: Endpoint { ip: 0xc0a80102, port: 1 },
            },
            NodeInfo {
                id: b"CCCCCCCCCCCCCCCCCCCC".to_vec(),
                endpoint: Endpoint { ip: 0xffffffff, port: 65535 },
            },
        ]
    );
}

#[test]
fn nodes_of_wrong_length_are_refused() {
    assert!(parse_nodes(&[0u8; 27]).is_none());
    assert_eq!(parse_nodes(&[]), Some(vec![]));
    let wire = b"d1:rd2:id20:mnopqrstuvwxyz1234565:nodes3:abce1:t2:aa1:y1:re";
    assert_eq!(
        Package::decode(wire),
        Err(DecodeError::LengthMismatch(b"nodes".to_vec(), 0, 3))
    );
}

#[test]
fn compact_peer_is_big_endian() {
    let e = parse_peer_at(&[9, 1, 2, 3, 4, 0x1a, 0xe1], 1);
    assert_eq!(e, Endpoint { ip: 0x01020304, port: 0x1ae1 });
}

fn endpoint(last: u8) -> Endpoint {
    Endpoint { ip: 0x7f000000 + last as u32, port: 6881 }
}

fn response_from(tid: Vec<u8>) -> Package {
    Package { transaction_id: tid, payload: PackagePayload::Response(id_args(ID_B)), version: None }
}

fn tid_of_datagram(wire: &[u8]) -> Vec<u8> {
    Package::decode(wire).unwrap().transaction_id
}

#[test]
fn transaction_matching() {
    let e0 = endpoint(1);
    let e = endpoint(2);
    let e2 = endpoint(3);
    let mut table = TransactionTable::new(65536, 15);
    let (_, w0) = table.send_query(e0, QueryMethod::Ping, id_args(ID_A), 0).unwrap();
    assert_eq!(tid_of_datagram(&w0), vec![0, 0]);
    let (h1, w1) = table.send_query(e, QueryMethod::Ping, id_args(ID_A), 0).unwrap();
    assert_eq!(tid_of_datagram(&w1), vec![0, 1]);
    match table.dispatch_inbound(e, response_from(vec![0, 1])) {
        Dispatch::Completed(c) => {
            assert_eq!(c.handle, h1);
            assert_eq!(c.outcome, Outcome::Response(response_from(vec![0, 1])));
        }
        other => panic!("unexpected {:?}", other),
    }
    assert_eq!(table.dispatch_inbound(e2, response_from(vec![0, 1])), Dispatch::Dropped);
    assert_eq!(table.len(), 1);
}

#[test]
fn timeout_then_late_response_dropped() {
    let e = endpoint(2);
    let mut table = TransactionTable::new(65536, 15);
    let (h, w) = table.send_query(e, QueryMethod::Ping, id_args(ID_A), 0).unwrap();
    let tid = tid_of_datagram(&w);
    assert!(table.tick(14).is_empty());
    let done = table.tick(16);
    assert_eq!(done.len(), 1);
    assert_eq!(done[0].handle, h);
    assert_eq!(done[0].outcome, Outcome::Timeout);
    assert_eq!(table.dispatch_inbound(e, response_from(tid)), Dispatch::Dropped);
    assert_eq!(table.len(), 0);
}

#[test]
fn error_reply_completes_with_remote() {
    let e = endpoint(4);
    let mut table = TransactionTable::new(8, 15);
    let (h, w) = table.send_query(e, QueryMethod::Ping, id_args(ID_A), 0).unwrap();
    let reply = Package {
        transaction_id: tid_of_datagram(&w),
        payload: PackagePayload::Error(202, b"Server Error".to_vec()),
        version: None,
    };
    match table.dispatch_inbound(e, reply) {
        Dispatch::Completed(c) => {
            assert_eq!(c.handle, h);
            assert_eq!(c.outcome, Outcome::Remote(202, b"Server Error".to_vec()));
        }
        other => panic!("unexpected {:?}", other),
    }
}

#[test]
fn inbound_query_goes_to_application() {
    let mut table = TransactionTable::new(8, 15);
    table.send_query(endpoint(1), QueryMethod::Ping, id_args(ID_A), 0).unwrap();
    let q = Package {
        transaction_id: vec![0, 0],
        payload: PackagePayload::Query(QueryMethod::Ping, id_args(ID_B)),
        version: None,
    };
    let expected = Package {
        transaction_id: vec![0, 0],
        payload: PackagePayload::Query(QueryMethod::Ping, id_args(ID_B)),
        version: None,
    };
    assert_eq!(table.dispatch_inbound(endpoint(1), q), Dispatch::Query(expected));
    assert_eq!(table.len(), 1);
}

#[test]
fn unmatched_reply_leaves_table_alone() {
    let e = endpoint(5);
    let mut table = TransactionTable::new(8, 15);
    table.send_query(e, QueryMethod::Ping, id_args(ID_A), 0).unwrap();
    assert_eq!(table.dispatch_inbound(e, response_from(vec![9, 9])), Dispatch::Dropped);
    assert_eq!(table.len(), 1);
    assert!(table.is_pending(e, &[0, 0]));
}

#[test]
fn completion_fires_once() {
    let e = endpoint(6);
    let mut table = TransactionTable::new(8, 15);
    let (h, _) = table.send_query(e, QueryMethod::Ping, id_args(ID_A), 0).unwrap();
    let c = table.cancel(h).unwrap();
    assert_eq!(c.outcome, Outcome::Cancelled);
    assert_eq!(c.handle, h);
    assert!(table.cancel(h).is_none());
    assert!(table.tick(100).is_empty());
    assert_eq!(table.dispatch_inbound(e, response_from(vec![0, 0])), Dispatch::Dropped);
}

#[test]
fn transaction_ids_unique_per_endpoint() {
    let e = endpoint(7);
    let mut table = TransactionTable::new(100, 15);
    let mut seen: Vec<Vec<u8>> = Vec::new();
    for _ in 0..50 {
        let (_, w) = table.send_query(e, QueryMethod::Ping, id_args(ID_A), 0).unwrap();
        let t = tid_of_datagram(&w);
        assert!(!seen.contains(&t));
        seen.push(t);
    }
    assert_eq!(table.len(), 50);
}

#[test]
fn full_table_is_busy() {
    let mut table = TransactionTable::new(1, 15);
    table.send_query(endpoint(1), QueryMethod::Ping, id_args(ID_A), 0).unwrap();
    assert_eq!(
        table.send_query(endpoint(2), QueryMethod::Ping, id_args(ID_A), 0),
        Err(SendError::Busy)
    );
    assert_eq!(table.len(), 1);
}

#[test]
fn deadline_saturates() {
    let mut table = TransactionTable::new(4, 15);
    let (h, _) = table.send_query(endpoint(1), QueryMethod::Ping, id_args(ID_A), u64::MAX - 3).unwrap();
    assert!(table.tick(u64::MAX - 1).is_empty());
    assert_eq!(table.tick(u64::MAX)[0].handle, h);
}

#[test]
fn message_round_trip() {
    let msgs = vec![
        Package {
            transaction_id: b"xy".to_vec(),
            payload: PackagePayload::Query(
                QueryMethod::FindNode,
                dict(vec![("id", bytes(ID_A)), ("target", bytes(ID_B))]),
            ),
            version: Some(b"LT01".to_vec()),
        },
        Package {
            transaction_id: b"z".to_vec(),
            payload: PackagePayload::Query(
                QueryMethod::AnnouncePeer,
                dict(vec![
                    ("id", bytes(ID_A)),
                    ("implied_port", Value::Int(1)),
                    ("info_hash", bytes(ID_B)),
                    ("port", Value::Int(6881)),
                    ("token", bytes("aoeusnth")),
                ]),
            ),
            version: None,
        },
        Package {
            transaction_id: b"aa".to_vec(),
            payload: PackagePayload::Error(-7, b"".to_vec()),
            version: Some(b"v".to_vec()),
        },
        Package {
            transaction_id: b"q1".to_vec(),
            payload: PackagePayload::Query(
                QueryMethod::Unknown(b"vote".to_vec()),
                dict(vec![("id", bytes(ID_A)), ("x", Value::List(vec![Value::Int(0)]))]),
            ),
            version: None,
        },
    ];
    for m in msgs {
        let wire = m.encode();
        assert_eq!(Package::decode(&wire), Ok(m));
    }
}

#[test]
fn canonical_bytes_round_trip() {
    let samples: Vec<&[u8]> = vec![
        b"i0e",
        b"i-9223372036854775808e",
        b"i9223372036854775807e",
        b"0:",
        b"le",
        b"de",
        b"d1:ali1ei2ee1:bd0:0:ee",
        b"l4:spami-42ed3:cow3:mooee",
    ];
    for b in samples {
        let v = decode(b).unwrap();
        assert_eq!(encode(&v), b.to_vec());
    }
}

#[test]
fn emitted_keys_are_sorted() {
    let p = Package {
        transaction_id: b"t1".to_vec(),
        payload: PackagePayload::Query(
            QueryMethod::GetPeers,
            dict(vec![("id", bytes(ID_A)), ("info_hash", bytes(ID_B))]),
        ),
        version: Some(b"AB12".to_vec()),
    };
    let wire = p.encode();
    assert_eq!(
        wire,
        b"d1:ad2:id20:abcdefghij01234567899:info_hash20:mnopqrstuvwxyz123456e1:q9:get_peers1:t2:t11:v4:AB121:y1:qe"
            .to_vec()
    );
    match decode(&wire).unwrap() {
        Value::Dict(d) => {
            for w in d.windows(2) {
                assert!(w[0].0 < w[1].0);
            }
        }
        _ => panic!("not a dictionary"),
    }
}

#[test]
fn integer_encoding() {
    assert_eq!(encode(&Value::Int(-42)), b"i-42e".to_vec());
    assert_eq!(encode(&Value::Int(0)), b"i0e".to_vec());
    assert_eq!(encode(&Value::Int(i64::MIN)), b"i-9223372036854775808e".to_vec());
    assert_eq!(encode(&bytes("spam")), b"4:spam".to_vec());
}

#[test]
fn bencode_errors() {
    assert_eq!(decode(b"i12"), Err(DecodeError::Eof));
    assert_eq!(decode(b""), Err(DecodeError::Eof));
    assert_eq!(decode(b"5:ab"), Err(DecodeError::Eof));
    assert_eq!(decode(b"x"), Err(DecodeError::Syntax));
    assert_eq!(decode(b"i1ei2e"), Err(DecodeError::Syntax));
    assert_eq!(decode(b"i03e"), Err(DecodeError::IntegerFormat));
    assert_eq!(decode(b"i-0e"), Err(DecodeError::IntegerFormat));
    assert_eq!(decode(b"i9223372036854775808e"), Err(DecodeError::IntegerFormat));
    assert!(decode(b"01:a").is_err());
    assert_eq!(decode(b"d1:b0:1:a0:e"), Err(DecodeError::NonCanonical));
    assert_eq!(decode(b"d1:a0:1:a0:e"), Err(DecodeError::DuplicateKey));
}

#[test]
fn message_errors() {
    assert_eq!(
        Package::decode(b"d1:t2:aa1:y1:qe"),
        Err(DecodeError::MissingField(b"q".to_vec()))
    );
    assert_eq!(
        Package::decode(b"d1:q4:ping1:t2:aa1:y1:qe"),
        Err(DecodeError::MissingField(b"a".to_vec()))
    );
    assert_eq!(Package::decode(b"d1:y1:re"), Err(DecodeError::MissingField(b"t".to_vec())));
    assert_eq!(
        Package::decode(b"d1:rd2:id20:mnopqrstuvwxyz123456e1:t2:aa1:x0:1:y1:re"),
        Err(DecodeError::UnknownTopLevelKey)
    );
    assert_eq!(
        Package::decode(b"d1:ad2:id3:abce1:q4:ping1:t2:aa1:y1:qe"),
        Err(DecodeError::LengthMismatch(b"id".to_vec(), 20, 3))
    );
    assert_eq!(
        Package::decode(b"d1:eli201ei5ee1:t2:aa1:y1:ee"),
        Err(DecodeError::TypeMismatch(b"e".to_vec()))
    );
    assert_eq!(
        Package::decode(b"d1:t2:aa1:y1:ze"),
        Err(DecodeError::TypeMismatch(b"y".to_vec()))
    );
    assert_eq!(Package::decode(b"li1ee"), Err(DecodeError::TypeMismatch(vec![])));
}

#[test]
fn schema_checks_by_method() {
    let ok = dict(vec![("id", bytes(ID_A)), ("target", bytes(ID_B))]);
    assert_eq!(check_args(b"find_node", &ok), Ok(()));
    let no_target = id_args(ID_A);
    assert_eq!(
        check_args(b"find_node", &no_target),
        Err(DecodeError::MissingField(b"target".to_vec()))
    );
    assert_eq!(check_args(b"ping", &no_target), Ok(()));
    let bad_port = dict(vec![
        ("id", bytes(ID_A)),
        ("info_hash", bytes(ID_B)),
        ("port", Value::Int(0)),
        ("token", bytes("t")),
    ]);
    assert_eq!(
        check_args(b"announce_peer", &bad_port),
        Err(DecodeError::TypeMismatch(b"port".to_vec()))
    );
}

#[test]
fn method_names() {
    assert_eq!(QueryMethod::from_name(b"get_peers".to_vec()), QueryMethod::GetPeers);
    assert_eq!(
        QueryMethod::from_name(b"sample".to_vec()),
        QueryMethod::Unknown(b"sample".to_vec())
    );
    assert_eq!(QueryMethod::AnnouncePeer.name(), b"announce_peer".to_vec());
}

#[test]
fn byte_order() {
    assert!(compare_bytes(b"a", b"b") < 0);
    assert!(compare_bytes(b"ab", b"a") > 0);
    assert_eq!(compare_bytes(b"id", b"id"), 0);
    assert!(compare_bytes(b"", b"\x00") < 0);
}

#[test]
fn dict_insert_keeps_keys_sorted() {
    let mut d: Vec<(Vec<u8>, Value)> = Vec::new();
    dict_insert(&mut d, b"target".to_vec(), bytes(ID_B));
    dict_insert(&mut d, b"id".to_vec(), bytes("x"));
    dict_insert(&mut d, b"zz".to_vec(), Value::Int(1));
    dict_insert(&mut d, b"id".to_vec(), bytes(ID_A));
    let keys: Vec<Vec<u8>> = d.iter().map(|e| e.0.clone()).collect();
    assert_eq!(keys, vec![b"id".to_vec(), b"target".to_vec(), b"zz".to_vec()]);
    assert_eq!(d[0].1, bytes(ID_A));
    assert_eq!(
        encode(&Value::Dict(d)),
        b"d2:id20:abcdefghij01234567896:target20:mnopqrstuvwxyz1234562:zzi1ee".to_vec()
    );
}

#[test]
fn malformed_query_gets_protocol_error() {
    let reply = protocol_error_reply(b"d1:q4:ping1:t2:aa1:y1:qe").unwrap();
    assert_eq!(
        reply,
        Package {
            transaction_id: b"aa".to_vec(),
            payload: PackagePayload::Error(203, b"Protocol Error".to_vec()),
            version: None,
        }
    );
    assert_eq!(
        reply.encode(),
        b"d1:eli203e14:Protocol Errore1:t2:aa1:y1:ee".to_vec()
    );
    assert!(protocol_error_reply(b"d1:t2:aa1:y1:re").is_none());
    assert!(protocol_error_reply(b"d1:t0:1:y1:qe").is_none());
    assert!(protocol_error_reply(b"garbage").is_none());
}

#[test]
fn unknown_method_gets_error() {
    let q = Package {
        transaction_id: b"ab".to_vec(),
        payload: PackagePayload::Query(QueryMethod::Unknown(b"vote".to_vec()), id_args(ID_A)),
        version: None,
    };
    assert_eq!(
        unknown_method_reply(&q),
        Some(Package {
            transaction_id: b"ab".to_vec(),
            payload: PackagePayload::Error(204, b"Method Unknown".to_vec()),
            version: None,
        })
    );
    let ping = Package {
        transaction_id: b"ab".to_vec(),
        payload: PackagePayload::Query(QueryMethod::Ping, id_args(ID_A)),
        version: None,
    };
    assert!(unknown_method_reply(&ping).is_none());
}

#[test]
fn default_table_settings() {
    assert_eq!(DEFAULT_TIMEOUT, 15);
    assert_eq!(DEFAULT_MAX_IN_FLIGHT, 65536);
    let mut table = TransactionTable::with_defaults();
    let (h, _) = table.send_query(endpoint(9), QueryMethod::Ping, id_args(ID_A), 100).unwrap();
    assert!(table.tick(114).is_empty());
    assert_eq!(table.tick(115)[0].handle, h);
}

#[test]
fn malformed_arguments_are_not_sent() {
    let mut table = TransactionTable::new(8, 15);
    let unsorted = Value::Dict(vec![
        (b"target".to_vec(), bytes(ID_B)),
        (b"id".to_vec(), bytes(ID_A)),
    ]);
    assert_eq!(
        table.send_query(endpoint(1), QueryMethod::FindNode, unsorted, 0),
        Err(SendError::Malformed)
    );
    assert_eq!(
        table.send_query(endpoint(1), QueryMethod::Ping, Value::Dict(vec![]), 0),
        Err(SendError::Malformed)
    );
    assert_eq!(
        table.send_query(endpoint(1), QueryMethod::FindNode, id_args(ID_A), 0),
        Err(SendError::Malformed)
    );
    assert_eq!(table.len(), 0);
    let (_, w) = table.send_query(endpoint(1), QueryMethod::Ping, id_args(ID_A), 0).unwrap();
    assert_eq!(tid_of_datagram(&w), vec![0, 0]);
}

#[test]
fn canonical_check() {
    assert!(is_canonical(&dict(vec![("a", Value::Int(1)), ("b", Value::List(vec![]))])));
    assert!(!is_canonical(&dict(vec![("b", Value::Int(1)), ("a", Value::Int(2))])));
    assert!(!is_canonical(&dict(vec![("a", Value::Int(1)), ("a", Value::Int(2))])));
    assert!(!is_canonical(&Value::List(vec![dict(vec![("z", Value::Int(1)), ("y", Value::Int(2))])])));
    assert!(is_canonical(&bytes("x")));
}

#[test]
fn response_checked_against_method() {
    let with_token = dict(vec![("id", bytes(ID_B)), ("token", bytes("tk")), ("values", Value::List(vec![]))]);
    assert_eq!(check_response_for(b"get_peers", &with_token), Ok(()));
    assert_eq!(
        check_response_for(b"get_peers", &id_args(ID_B)),
        Err(DecodeError::MissingField(b"token".to_vec()))
    );
    assert_eq!(check_response_for(b"ping", &id_args(ID_B)), Ok(()));
    let e = endpoint(8);
    let mut table = TransactionTable::new(8, 15);
    let args = dict(vec![("id", bytes(ID_A)), ("info_hash", bytes(ID_B))]);
    let (h, w) = table.send_query(e, QueryMethod::GetPeers, args, 0).unwrap();
    let tid = tid_of_datagram(&w);
    assert_eq!(table.dispatch_inbound(e, response_from(tid.clone())), Dispatch::Dropped);
    assert_eq!(table.len(), 1);
    let good = Package {
        transaction_id: tid,
        payload: PackagePayload::Response(dict(vec![
            ("id", bytes(ID_B)),
            ("token", bytes("tk")),
            ("values", Value::List(vec![])),
        ])),
        version: None,
    };
    match table.dispatch_inbound(e, good) {
        Dispatch::Completed(c) => {
            assert_eq!(c.handle, h);
            assert!(matches!(c.outcome, Outcome::Response(_)));
        }
        other => panic!("unexpected {:?}", other),
    }
    assert_eq!(table.len(), 0);
}

#[test]
fn decode_error_kinds() {
    assert_eq!(decode(b"i1e0:"), Err(DecodeError::Syntax));
    assert_eq!(Package::decode(b"d1:t2:aa1:x0:1:y1:qe"), Err(DecodeError::UnknownTopLevelKey));
    assert_eq!(Package::decode(b"i5e"), Err(DecodeError::TypeMismatch(vec![])));
    assert_eq!(
        check_args(b"ping", &dict(vec![("id", Value::Int(3))])),
        Err(DecodeError::TypeMismatch(b"id".to_vec()))
    );
}

#[test]
fn well_formed_query_needs_no_protocol_error() {
    let q = Package {
        transaction_id: b"aa".to_vec(),
        payload: PackagePayload::Query(QueryMethod::Ping, id_args(ID_A)),
        version: None,
    };
    assert!(protocol_error_reply(&q.encode()).is_none());
}

#[test]
fn announce_argument_errors() {
    let base = |extra: Vec<(&str, Value)>| {
        let mut d: Vec<(Vec<u8>, Value)> = Vec::new();
        dict_insert(&mut d, b"id".to_vec(), bytes(ID_A));
        dict_insert(&mut d, b"info_hash".to_vec(), bytes(ID_B));
        for (k, v) in extra {
            dict_insert(&mut d, k.as_bytes().to_vec(), v);
        }
        Value::Dict(d)
    };
    assert_eq!(
        check_args(b"announce_peer", &base(vec![("token", bytes("t"))])),
        Err(DecodeError::MissingField(b"port".to_vec()))
    );
    assert_eq!(
        check_args(b"announce_peer", &base(vec![("port", Value::Int(6881))])),
        Err(DecodeError::MissingField(b"token".to_vec()))
    );
    assert_eq!(
        check_args(
            b"announce_peer",
            &base(vec![("port", Value::Int(6881)), ("token", bytes("t")), ("implied_port", Value::Int(2))])
        ),
        Err(DecodeError::TypeMismatch(b"implied_port".to_vec()))
    );
    assert_eq!(
        check_args(b"announce_peer", &base(vec![("port", Value::Int(6881)), ("token", bytes("t"))])),
        Ok(())
    );
}

#[test]
fn missing_type_tag() {
    assert_eq!(Package::decode(b"d1:t2:aae"), Err(DecodeError::MissingField(b"y".to_vec())));
    assert_eq!(decode(b"i05e"), Err(DecodeError::IntegerFormat));
    assert_eq!(decode(b"i-0e"), Err(DecodeError::IntegerFormat));
}

#[test]
fn insertion_order_does_not_matter() {
    let mut a: Vec<(Vec<u8>, Value)> = Vec::new();
    dict_insert(&mut a, b"target".to_vec(), bytes(ID_B));
    dict_insert(&mut a, b"id".to_vec(), bytes(ID_A));
    let mut b: Vec<(Vec<u8>, Value)> = Vec::new();
    dict_insert(&mut b, b"id".to_vec(), bytes(ID_A));
    dict_insert(&mut b, b"target".to_vec(), bytes(ID_B));
    assert_eq!(encode(&Value::Dict(a)), encode(&Value::Dict(b)));
}
