use dht_market::actor::{Action, Actor};
use dht_market::codec::encode_requests;
use dht_market::data::{FileRequest, MarketError, User};
use dht_market::rpc::{check_holders, register_file, validate_holders};
use dht_market::{get_current_time, EXPIRATION_OFFSET};

type TestActor = Actor<u32, u32, u32>;

/// Runs the full `register_file` RPC against a single node: read the current
/// list from the store, compose, and store the result back.
fn do_register(actor: &mut TestActor, u: User, hash: &str, now: u64) -> Result<(), MarketError> {
    let current = actor.lookup(&hash.to_string()).cloned();
    let new_list = register_file(current, Some(u), hash.to_string(), now)?;
    actor.on_set_requests(hash.to_string(), encode_requests(&new_list), 0);
    Ok(())
}

/// Runs the full `check_holders` RPC against a single node: read, prune,
/// store the pruned list back, return the surviving sellers.
fn do_check_holders(actor: &mut TestActor, hash: &str, now: u64) -> Vec<User> {
    let current = actor.lookup(&hash.to_string()).cloned();
    let (kept, users) = check_holders(current, now);
    actor.on_set_requests(hash.to_string(), encode_requests(&kept), 0);
    users
}

#[test]
fn test_register_file() {
    let mut actor = TestActor::new();
    let now = get_current_time();
    let user = User {
        id: "12345".into(),
        name: "Shuai Mu".into(),
        ip: "123.456.789.0".into(),
        port: 8000,
        price: 100,
    };
    let r = do_register(&mut actor, user, "ratcoin.js-hash", now);
    assert!(r.is_ok());
    let stored = actor.lookup(&"ratcoin.js-hash".to_string()).unwrap();
    assert_eq!(stored.len(), 1);
    assert_eq!(stored[0].user.id, "12345");
    assert_eq!(stored[0].expiration, now + EXPIRATION_OFFSET);
}

#[test]
fn check_holders_registered() {
    let mut actor = TestActor::new();
    let now = get_current_time();
    let id = "22222".to_string();
    let name = "Shuai Mu2".to_string();
    let user = User {
        id: id.clone(),
        name: name.clone(),
        ip: "223.456.789.0".into(),
        port: 8000,
        price: 100,
    };
    do_register(&mut actor, user, "ratcoin.js-hash", now).unwrap();
    let holders = do_check_holders(&mut actor, "ratcoin.js-hash", now);
    assert!(
        holders.iter().any(|u| u.id == id && u.name == name),
        "Test 2 Failed: User Shuai Mu2 should be a holder.\n"
    );
}

#[test]
fn check_holders_unregistered() {
    let mut actor = TestActor::new();
    let now = get_current_time();
    let holders = do_check_holders(&mut actor, "shuaimu.jpeg-hash", now);
    assert!(
        holders.is_empty(),
        "Test 3 Failed: There should be no holders for an unregistered file.\n"
    );
}

#[test]
fn check_different_user() {
    let mut actor = TestActor::new();
    let now = get_current_time();
    let id1 = "44444".to_string();
    let user1 = User {
        id: id1.clone(),
        name: "Shuai4".to_string(),
        ip: "444.456.789.0".into(),
        port: 8000,
        price: 100,
    };
    do_register(&mut actor, user1, "ratcoin.js-hash-4", now).unwrap();
    let _user2 = User {
        id: "98765".into(),
        name: "Shumai".into(),
        ip: "100.200.300.400".into(),
        port: 8001,
        price: 101,
    };
    let holders = do_check_holders(&mut actor, "ratcoin.js-hash-4", now);
    assert!(
        holders.iter().any(|u| u.id == id1),
        "Test 4 Failed: Expected to find user with ID '44444' as a holder of the file 'ratcoin.js-hash-4'\n"
    );
}

#[test]
fn test_register_no_user() {
    let now = get_current_time();
    let r = register_file(None, None, "test-5-file-hash".to_string(), now);
    assert!(
        matches!(r, Err(MarketError::InvalidArgument)),
        "Test 5 Failed: Registration of a file without a user should not succeed."
    );
}

#[test]
fn verify_file_holder() {
    let mut actor = TestActor::new();
    let now = get_current_time();
    let user_for_test_6 = User {
        id: "user6".into(),
        name: "Bob".into(),
        ip: "192.168.1.6".into(),
        port: 8002,
        price: 60,
    };
    do_register(&mut actor, user_for_test_6, "file-hash-test-6", now).unwrap();
    let holders = do_check_holders(&mut actor, "file-hash-test-6", now);
    assert!(
        holders.iter().any(|u| u.id == "user6"),
        "Test 6 Failed: User Six should be a holder of the file."
    );
}

#[test]
fn test_nonexistent_file() {
    let mut actor = TestActor::new();
    let now = get_current_time();
    let holders = do_check_holders(&mut actor, "nonexistent-file-hash", now);
    assert!(
        holders.is_empty(),
        "Test 7 Failed: A nonexistent file should have no holders."
    );
}

#[test]
fn register_replaces_own_entry() {
    let mut actor = TestActor::new();
    let now = get_current_time();
    let mk = |price: u64| User {
        id: "seller".into(),
        name: "s".into(),
        ip: "1.1.1.1".into(),
        port: 1,
        price,
    };
    do_register(&mut actor, mk(10), "h", now).unwrap();
    do_register(&mut actor, mk(20), "h", now + 1).unwrap();
    let stored = actor.lookup(&"h".to_string()).unwrap();
    assert_eq!(stored.len(), 1);
    assert_eq!(stored[0].user.price, 20);
    assert_eq!(stored[0].expiration, now + 1 + EXPIRATION_OFFSET);
}

#[test]
fn check_holders_prunes_expired() {
    let now = 1_700_000_000u64;
    let mk = |id: &str, exp: u64| FileRequest {
        user: User { id: id.into(), name: "n".into(), ip: "i".into(), port: 1, price: 1 },
        file_hash: "h".into(),
        expiration: exp,
    };
    let current = vec![mk("a", now - 1), mk("b", now), mk("c", now + 1)];
    let (kept, users) = check_holders(Some(current), now);
    // Entries expiring at or before `now` are dropped.
    assert_eq!(kept.len(), 1);
    assert_eq!(kept[0].user.id, "c");
    assert_eq!(users.len(), 1);
    assert_eq!(users[0].id, "c");
}

#[test]
fn register_keeps_other_sellers() {
    let mut actor = TestActor::new();
    let now = get_current_time();
    let u1 = User { id: "a".into(), name: "A".into(), ip: "1".into(), port: 1, price: 1 };
    let u2 = User { id: "b".into(), name: "B".into(), ip: "2".into(), port: 2, price: 2 };
    do_register(&mut actor, u1, "h", now).unwrap();
    do_register(&mut actor, u2, "h", now).unwrap();
    let stored = actor.lookup(&"h".to_string()).unwrap();
    assert_eq!(stored.len(), 2);
    assert_eq!(stored[0].user.id, "a");
    assert_eq!(stored[1].user.id, "b");
}

#[test]
fn register_drops_expired_entries() {
    let now = 1_700_000_000u64;
    let old_entry = FileRequest {
        user: User { id: "x".into(), name: "X".into(), ip: "i".into(), port: 1, price: 1 },
        file_hash: "h".into(),
        expiration: now - 1,
    };
    let u = User { id: "y".into(), name: "Y".into(), ip: "j".into(), port: 2, price: 2 };
    let out = register_file(Some(vec![old_entry]), Some(u), "h".to_string(), now).unwrap();
    assert_eq!(out.len(), 1);
    assert_eq!(out[0].user.id, "y");
}

#[test]
fn validate_holders_dedups_by_latest() {
    let now = 1_700_000_000u64;
    let mk = |id: &str, exp: u64, price: u64| FileRequest {
        user: User { id: id.into(), name: "n".into(), ip: "i".into(), port: 1, price },
        file_hash: "h".into(),
        expiration: exp,
    };
    let holders = vec![
        mk("a", now + 10, 1),
        mk("b", now - 10, 2),   // expired: dropped
        mk("a", now + 20, 3),   // later than the first "a": wins
        mk("c", now + 5, 4),
        mk("c", now + 5, 5),    // tie: the earlier entry wins
    ];
    let kept = validate_holders(&holders, now);
    assert_eq!(kept.len(), 2);
    assert_eq!(kept[0].user.price, 3);
    assert_eq!(kept[1].user.price, 4);
}

#[test]
fn register_then_lookup_via_network() {
    // The single-node scenario end to end: register, then a holders query
    // answered through a simulated DHT completion.
    let mut actor = TestActor::new();
    let now = get_current_time();
    let user = User {
        id: "u1".into(),
        name: "a".into(),
        ip: "1.1.1.1".into(),
        port: 8000,
        price: 100,
    };
    do_register(&mut actor, user, "h1", now).unwrap();
    // The RPC server's GET for the holders query:
    actor.on_get_requests("h1".to_string(), 11);
    let served = encode_requests(actor.lookup(&"h1".to_string()).unwrap());
    let acts = actor.on_get_found("h1".to_string(), Some(served));
    assert_eq!(acts.len(), 1);
    let fetched = match &acts[0] {
        Action::ReplyGet { resp: 11, result: Ok(Some(v)) } => v.clone(),
        _ => panic!("the registered list must come back"),
    };
    let (_, holders) = check_holders(Some(fetched), now);
    assert_eq!(holders.len(), 1);
    assert_eq!(holders[0].id, "u1");
    assert_eq!(holders[0].name, "a");
    assert_eq!(holders[0].ip, "1.1.1.1");
    assert_eq!(holders[0].port, 8000);
    assert_eq!(holders[0].price, 100);
}
