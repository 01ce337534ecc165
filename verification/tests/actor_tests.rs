use dht_market::actor::{Action, Actor};
use dht_market::codec::encode_requests;
use dht_market::data::{FileRequest, MarketError, User};
use dht_market::get_current_time;

type TestActor = Actor<u32, u32, u32>;

fn user(id: &str) -> User {
    User {
        id: id.to_string(),
        name: "n".to_string(),
        ip: "1.1.1.1".to_string(),
        port: 1,
        price: 1,
    }
}

fn req(id: &str, hash: &str, exp: u64) -> FileRequest {
    FileRequest { user: user(id), file_hash: hash.to_string(), expiration: exp }
}

/// A node primed over the network: the list arrives as an ingress PUT.
fn prime(actor: &mut TestActor, hash: &str, reqs: &Vec<FileRequest>, now: u64) {
    let value = encode_requests(reqs);
    let accepted = actor.on_ingress_put(hash.to_string(), Some(value), now);
    assert!(accepted, "priming the store must pass validation");
}

#[test]
fn fanout_single_outbound_get() {
    let mut actor = TestActor::new();
    let acts1 = actor.on_get_requests("k".to_string(), 1);
    assert_eq!(acts1.len(), 1);
    assert!(matches!(&acts1[0], Action::IssueGet { key } if key == "k"));
    // A second caller for the same key shares the in-flight query.
    let acts2 = actor.on_get_requests("k".to_string(), 2);
    assert!(acts2.is_empty());
    // A different key gets its own query.
    let acts3 = actor.on_get_requests("other".to_string(), 3);
    assert_eq!(acts3.len(), 1);
    // One completion wakes both waiters for "k" with the same result.
    let now = get_current_time();
    let list = vec![req("u1", "k", now + 100)];
    let acts = actor.on_get_found("k".to_string(), Some(encode_requests(&list)));
    assert_eq!(acts.len(), 2);
    let mut seen = vec![];
    for a in &acts {
        match a {
            Action::ReplyGet { resp, result } => {
                let got = result.as_ref().expect("a decodable record is Ok").as_ref();
                let got = got.expect("a found record is Some");
                assert_eq!(got.len(), 1);
                assert_eq!(got[0].user.id, "u1");
                assert_eq!(got[0].expiration, now + 100);
                seen.push(*resp);
            },
            _ => panic!("only replies are expected"),
        }
    }
    assert_eq!(seen, vec![1, 2]);
    // The waiters are drained: a third caller issues a fresh query.
    let acts4 = actor.on_get_requests("k".to_string(), 4);
    assert_eq!(acts4.len(), 1);
}

#[test]
fn get_not_found_and_failed() {
    let mut actor = TestActor::new();
    actor.on_get_requests("a".to_string(), 1);
    let acts = actor.on_get_not_found("a".to_string());
    assert_eq!(acts.len(), 1);
    assert!(matches!(&acts[0], Action::ReplyGet { resp: 1, result: Ok(None) }));

    actor.on_get_requests("b".to_string(), 2);
    let acts = actor.on_get_failed("b".to_string());
    assert_eq!(acts.len(), 1);
    assert!(
        matches!(&acts[0], Action::ReplyGet { resp: 2, result: Err(MarketError::Unavailable) })
    );
}

#[test]
fn get_found_undecodable_is_internal() {
    let mut actor = TestActor::new();
    actor.on_get_requests("k".to_string(), 9);
    let acts = actor.on_get_found("k".to_string(), Some("not a record".to_string()));
    assert_eq!(acts.len(), 1);
    assert!(matches!(&acts[0], Action::ReplyGet { resp: 9, result: Err(MarketError::Internal) }));
}

#[test]
fn set_stores_and_issues_put() {
    let mut actor = TestActor::new();
    let now = get_current_time();
    let list = vec![req("u1", "h1", now + 100), req("u2", "elsewhere", now + 100)];
    let value = encode_requests(&list);
    let acts = actor.on_set_requests("h1".to_string(), value, 7);
    assert_eq!(acts.len(), 1);
    // Only the entry bound to the key is stored and replicated.
    let expected = encode_requests(&vec![req("u1", "h1", now + 100)]);
    assert!(matches!(&acts[0], Action::IssuePut { key, value } if key == "h1" && *value == expected));
    let stored = actor.lookup(&"h1".to_string()).expect("the set must store locally");
    assert_eq!(stored.len(), 1);
    assert_eq!(stored[0].user.id, "u1");
    // The PUT completion wakes the caller.
    let acts = actor.on_put_ok("h1".to_string());
    assert_eq!(acts.len(), 1);
    assert!(matches!(&acts[0], Action::ReplyPut { resp: 7, result: Ok(()) }));
}

#[test]
fn set_undecodable_is_internal() {
    let mut actor = TestActor::new();
    let acts = actor.on_set_requests("h".to_string(), "garbage".to_string(), 3);
    assert_eq!(acts.len(), 1);
    assert!(matches!(&acts[0], Action::ReplyPut { resp: 3, result: Err(MarketError::Internal) }));
    assert!(actor.lookup(&"h".to_string()).is_none());
}

#[test]
fn put_failed_is_unknown() {
    let mut actor = TestActor::new();
    let now = get_current_time();
    let value = encode_requests(&vec![req("u1", "h", now + 10)]);
    actor.on_set_requests("h".to_string(), value, 5);
    let acts = actor.on_put_failed("h".to_string());
    assert_eq!(acts.len(), 1);
    assert!(matches!(&acts[0], Action::ReplyPut { resp: 5, result: Err(MarketError::Unknown) }));
}

#[test]
fn ingress_put_expiration_window() {
    let mut actor = TestActor::new();
    let now = get_current_time();
    // Backdated: rejected.
    let v = encode_requests(&vec![req("u1", "h", now - 1000)]);
    assert!(!actor.on_ingress_put("h".to_string(), Some(v), now));
    // Too far in the future: rejected.
    let v = encode_requests(&vec![req("u1", "h", now + 4000)]);
    assert!(!actor.on_ingress_put("h".to_string(), Some(v), now));
    // Inside the window: accepted.
    let v = encode_requests(&vec![req("u1", "h", now + 1000)]);
    assert!(actor.on_ingress_put("h".to_string(), Some(v), now));
}

#[test]
fn ingress_put_binding_and_bytes() {
    let mut actor = TestActor::new();
    let now = get_current_time();
    // A list for another key is rejected.
    let v = encode_requests(&vec![req("u1", "other", now + 1000)]);
    assert!(!actor.on_ingress_put("h".to_string(), Some(v), now));
    // Bytes that are not text are rejected.
    assert!(!actor.on_ingress_put("h".to_string(), None, now));
    // Bytes that do not decode are rejected.
    assert!(!actor.on_ingress_put("h".to_string(), Some("junk".to_string()), now));
}

#[test]
fn test_malicious_delete() {
    // Peer B holds the replicated list; a later PUT tries to "delete" the
    // entry by replaying it with an expiration in the past.
    let mut node_b = TestActor::new();
    let file_hash = "abcdefghijklmnopqrstuvwxyz012345";
    assert_eq!(file_hash.len(), 32);
    let now = get_current_time();
    let valid_exp = now + 1000;
    let fr1 = req("user-one-0", file_hash, valid_exp);
    prime(&mut node_b, file_hash, &vec![fr1], now);

    let fr2 = req("user-one-0", file_hash, now - 1000);
    let accepted = node_b.on_ingress_put(
        file_hash.to_string(),
        Some(encode_requests(&vec![fr2])),
        now,
    );
    assert!(!accepted);

    match node_b.lookup(&file_hash.to_string()) {
        Some(holders) => {
            assert_eq!(holders.len(), 1);
            assert_eq!(holders[0].expiration, valid_exp);
        },
        None => {
            panic!("Failed to get holders");
        },
    }
}

#[test]
fn test_malicious_delete2() {
    // A later PUT tries to "delete" the entry with an empty list.
    let mut node_b = TestActor::new();
    let file_hash = "abcdefghijklmnopqrstuvwxyz543210";
    assert_eq!(file_hash.len(), 32);
    let now = get_current_time();
    let valid_exp = now + 1000;
    let fr1 = req("user-two-00", file_hash, valid_exp);
    prime(&mut node_b, file_hash, &vec![fr1], now);

    let empty: Vec<FileRequest> = vec![];
    let accepted = node_b.on_ingress_put(
        file_hash.to_string(),
        Some(encode_requests(&empty)),
        now,
    );
    assert!(!accepted);

    match node_b.lookup(&file_hash.to_string()) {
        Some(holders) => {
            assert_eq!(holders.len(), 1);
            assert_eq!(holders[0].expiration, valid_exp);
        },
        None => {
            panic!("Failed to get holders");
        },
    }
}

#[test]
fn test_malicious_spam() {
    // A later PUT tries to push the same entry twice.
    let mut node_b = TestActor::new();
    let file_hash = "abcdefghijklmnopqrstuvwxyz998877";
    assert_eq!(file_hash.len(), 32);
    let now = get_current_time();
    let valid_exp = now + 1000;
    let fr1 = req("user-three0", file_hash, valid_exp);
    prime(&mut node_b, file_hash, &vec![fr1.clone()], now);

    let accepted = node_b.on_ingress_put(
        file_hash.to_string(),
        Some(encode_requests(&vec![fr1.clone(), fr1.clone()])),
        now,
    );
    assert!(!accepted);

    match node_b.lookup(&file_hash.to_string()) {
        Some(holders) => {
            assert_eq!(holders.len(), 1);
            assert_eq!(holders[0].expiration, valid_exp);
        },
        None => {
            panic!("Failed to get holders");
        },
    }
}

#[test]
fn ingress_extension_accepted() {
    // The legitimate path a seller uses to renew: same id, later expiration.
    let mut actor = TestActor::new();
    let now = get_current_time();
    prime(&mut actor, "h", &vec![req("u1", "h", now + 1000)], now);
    let v = encode_requests(&vec![req("u1", "h", now + 2000)]);
    assert!(actor.on_ingress_put("h".to_string(), Some(v), now));
    let holders = actor.lookup(&"h".to_string()).unwrap();
    assert_eq!(holders.len(), 1);
    assert_eq!(holders[0].expiration, now + 2000);
}

#[test]
fn dial_at_most_one_in_flight() {
    let mut actor = TestActor::new();
    let acts = actor.on_dial("peer-a".to_string(), "/ip4/1.2.3.4/tcp/6881".to_string(), 1);
    assert_eq!(acts.len(), 1);
    assert!(matches!(&acts[0], Action::StartDial { peer_id, peer_addr }
        if peer_id == "peer-a" && peer_addr == "/ip4/1.2.3.4/tcp/6881"));
    // A second dial for the same peer is ignored.
    let acts = actor.on_dial("peer-a".to_string(), "/ip4/5.6.7.8/tcp/6881".to_string(), 2);
    assert!(acts.is_empty());
    // The connection resolves the first handle; the table is emptied.
    let acts = actor.on_dial_ok("peer-a".to_string());
    assert_eq!(acts.len(), 1);
    assert!(matches!(&acts[0], Action::ReplyDial { resp: 1, result: Ok(p) } if p == "peer-a"));
    let acts = actor.on_dial_ok("peer-a".to_string());
    assert!(acts.is_empty());
}

#[test]
fn dial_failure_reports_peer() {
    let mut actor = TestActor::new();
    actor.on_dial("peer-b".to_string(), "/ip4/9.9.9.9/tcp/1".to_string(), 4);
    let acts = actor.on_dial_failed("peer-b".to_string());
    assert_eq!(acts.len(), 1);
    assert!(matches!(&acts[0], Action::ReplyDial { resp: 4, result: Err(p) } if p == "peer-b"));
}

#[test]
fn set_then_get_single_node() {
    // The single-node round trip: what a set stores, a completed get returns,
    // pruned to the entries bound to the key.
    let mut actor = TestActor::new();
    let now = get_current_time();
    let list = vec![req("u1", "k", now + 50), req("u2", "k", now + 60)];
    actor.on_set_requests("k".to_string(), encode_requests(&list), 1);
    actor.on_get_requests("k".to_string(), 2);
    // The network serves the GET from the node's own store.
    let served = encode_requests(actor.lookup(&"k".to_string()).unwrap());
    let acts = actor.on_get_found("k".to_string(), Some(served));
    assert_eq!(acts.len(), 1);
    match &acts[0] {
        Action::ReplyGet { resp: 2, result: Ok(Some(got)) } => {
            assert_eq!(got.len(), 2);
            assert_eq!(got[0].user.id, "u1");
            assert_eq!(got[1].user.id, "u2");
            assert_eq!(got[0].expiration, now + 50);
        },
        _ => panic!("the waiter must see the stored list"),
    }
}
