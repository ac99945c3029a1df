use sha1::{Digest, Sha1};
use torrent::addr::PeerAddr;
use torrent::dht::node::{
    answer_query, generate_token, pad_id, reachable, route, Answer, Lookup, LookupReply, Node,
    Query, Route,
};
use torrent::dht::query::{find_node, Reply};
use torrent::dht::rpc::{DhtRpc, MessageKind, RpcAction};
use torrent::error::ErrorKind;
use torrent::time::SECOND;

fn v4(n: u8) -> PeerAddr {
    PeerAddr::V4 { ip: n as u32, port: 6881 }
}

fn v6(n: u8) -> PeerAddr {
    PeerAddr::V6 { ip: n as u128, port: 6881, flowinfo: 0, scope_id: 0 }
}

fn node(n: u8) -> Node {
    Node { id: [n; 20], addr: v4(n) }
}

fn first_bytes(nodes: &[Node]) -> Vec<u8> {
    nodes.iter().map(|n| n.id[0]).collect()
}

fn query(method: &str, target: Option<Vec<u8>>, info_hash: Option<Vec<u8>>) -> Query {
    Query { method: method.to_string(), target, info_hash }
}

#[test]
fn addresses_are_routed_by_family() {
    assert_eq!(route(&v4(1), false), Some(Route::V4));
    assert_eq!(route(&v6(1), true), Some(Route::V6));
    assert_eq!(route(&v6(1), false), None);
    let all = vec![v4(1), v6(2), v4(3)];
    assert_eq!(reachable(&all, false), vec![v4(1), v4(3)]);
    assert_eq!(reachable(&all, true), all);
}

#[test]
fn lookup_queries_each_node_once() {
    let mut lookup = Lookup::new(vec![node(1), node(1), node(2), node(3), node(4)], 0);
    assert_eq!(first_bytes(&lookup.next_batch()), vec![1, 2, 3]);
    let learned = lookup.on_reply(LookupReply::Nodes(vec![node(2), node(5)]));
    assert_eq!(first_bytes(&learned), vec![5]);
    assert!(!lookup.end_round(&vec![node(1), node(4), node(5)], SECOND));
    assert_eq!(first_bytes(&lookup.next_batch()), vec![5, 4]);
    assert!(lookup.end_round(&vec![node(1), node(2)], 2 * SECOND));
    assert!(lookup.next_batch().is_empty());
    assert!(lookup.into_peers().is_empty());
}

#[test]
fn lookup_ends_with_peers_or_time() {
    let mut lookup = Lookup::new(vec![node(1)], 0);
    assert_eq!(lookup.next_batch().len(), 1);
    assert!(lookup.on_reply(LookupReply::Values(vec![v4(7), v4(8), v4(7)])).is_empty());
    assert!(lookup.end_round(&vec![node(2)], 0));
    assert_eq!(lookup.into_peers(), vec![v4(7), v4(8)]);

    let mut late = Lookup::new(vec![node(1)], 0);
    assert!(!late.is_late(14 * SECOND));
    assert!(late.is_late(15 * SECOND));
    assert!(late.end_round(&vec![node(2)], 15 * SECOND));
}

#[test]
fn token_is_the_start_of_a_digest() {
    let secret = [9u8; 20];
    let mut h = Sha1::new();
    h.update(secret);
    h.update(b"127.0.0.1");
    let expected: [u8; 20] = h.finalize().into();
    assert_eq!(generate_token(&secret, b"127.0.0.1"), expected[..4].to_vec());
    assert_ne!(generate_token(&secret, b"127.0.0.2"), expected[..4].to_vec());
}

#[test]
fn queries_are_answered() {
    let secret = [9u8; 20];
    let ip = b"127.0.0.1";
    assert!(matches!(answer_query(&query("ping", None, None), &secret, ip), Some(Answer::Id)));
    assert!(matches!(
        answer_query(&query("announce_peer", None, None), &secret, ip),
        Some(Answer::Id)
    ));
    match answer_query(&query("find_node", Some(vec![1, 2]), None), &secret, ip) {
        Some(Answer::Closest { target }) => assert_eq!(target, pad_id(&[1, 2])),
        _ => panic!("no answer"),
    }
    match answer_query(&query("get_peers", None, Some(vec![3; 30])), &secret, ip) {
        Some(Answer::ClosestWithToken { info_hash, token }) => {
            assert_eq!(info_hash, [3u8; 20]);
            assert_eq!(token, generate_token(&secret, ip));
        }
        _ => panic!("no answer"),
    }
    assert!(answer_query(&query("find_node", None, None), &secret, ip).is_none());
    assert!(answer_query(&query("get_peers", Some(vec![]), None), &secret, ip).is_none());
    assert!(answer_query(&query("other", None, None), &secret, ip).is_none());
    let mut padded = [0u8; 20];
    padded[0] = 1;
    padded[1] = 2;
    assert_eq!(pad_id(&[1, 2]), padded);
}

#[test]
fn answers_reach_the_one_who_waits() {
    let mut rpc: DhtRpc<&str> = DhtRpc::new();
    rpc.begin(1, "a");
    rpc.begin(2, "b");
    rpc.abandon(2);
    match rpc.on_message(MessageKind::Response { transaction_id: 1 }) {
        RpcAction::Deliver { waiting } => assert_eq!(waiting, "a"),
        _ => panic!("not delivered"),
    }
    assert!(matches!(
        rpc.on_message(MessageKind::Response { transaction_id: 1 }),
        RpcAction::Ignore
    ));
    assert!(matches!(
        rpc.on_message(MessageKind::Error { transaction_id: 2 }),
        RpcAction::Ignore
    ));
    assert!(matches!(rpc.on_message(MessageKind::Query), RpcAction::Answer));
}

#[test]
fn find_node_needs_nodes() {
    let found = find_node(Reply::Response { nodes: Some(vec![node(4)]) }).ok().unwrap();
    assert_eq!(first_bytes(&found), vec![4]);
    for reply in [Reply::Response { nodes: None }, Reply::Other] {
        assert_eq!(find_node(reply).err().map(|e| e.kind()), Some(ErrorKind::Protocol));
    }
}
