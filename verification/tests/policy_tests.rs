use dht_market::data::{FileRequest, User};
use dht_market::policy::valid_put;
use dht_market::EXPIRATION_OFFSET;

const NOW: u64 = 1_700_000_000;

fn user(id: &str) -> User {
    User {
        id: id.to_string(),
        name: "n".to_string(),
        ip: "1.1.1.1".to_string(),
        port: 1,
        price: 1,
    }
}

fn req(id: &str, hash: &str, exp: u64) -> FileRequest {
    FileRequest { user: user(id), file_hash: hash.to_string(), expiration: exp }
}

fn key(hash: &str) -> String {
    hash.to_string()
}

#[test]
fn accepts_fresh_list() {
    let proposed = vec![req("u1", "h", NOW + 1000)];
    assert!(valid_put(None, &proposed, &key("h"), NOW, EXPIRATION_OFFSET));
}

#[test]
fn accepts_empty_onto_nothing() {
    let proposed: Vec<FileRequest> = vec![];
    assert!(valid_put(None, &proposed, &key("h"), NOW, EXPIRATION_OFFSET));
}

#[test]
fn rejects_backdated_expiration() {
    let proposed = vec![req("u1", "h", NOW - 1000)];
    assert!(!valid_put(None, &proposed, &key("h"), NOW, EXPIRATION_OFFSET));
}

#[test]
fn rejects_far_future_expiration() {
    let proposed = vec![req("u1", "h", NOW + EXPIRATION_OFFSET + 1)];
    assert!(!valid_put(None, &proposed, &key("h"), NOW, EXPIRATION_OFFSET));
    let boundary = vec![req("u1", "h", NOW + EXPIRATION_OFFSET)];
    assert!(valid_put(None, &boundary, &key("h"), NOW, EXPIRATION_OFFSET));
}

#[test]
fn rejects_wrong_key() {
    let proposed = vec![req("u1", "other", NOW + 1000)];
    assert!(!valid_put(None, &proposed, &key("h"), NOW, EXPIRATION_OFFSET));
}

#[test]
fn rejects_duplicate_ids() {
    let proposed = vec![req("u1", "h", NOW + 1000), req("u1", "h", NOW + 1000)];
    assert!(!valid_put(None, &proposed, &key("h"), NOW, EXPIRATION_OFFSET));
}

#[test]
fn rejects_shortened_expiration() {
    let current = vec![req("u1", "h", NOW + 1000)];
    let proposed = vec![req("u1", "h", NOW + 500)];
    assert!(!valid_put(Some(&current), &proposed, &key("h"), NOW, EXPIRATION_OFFSET));
    let extended = vec![req("u1", "h", NOW + 1500)];
    assert!(valid_put(Some(&current), &extended, &key("h"), NOW, EXPIRATION_OFFSET));
}

#[test]
fn rejects_dropping_live_entry() {
    let current = vec![req("u1", "h", NOW + 1000)];
    let proposed: Vec<FileRequest> = vec![];
    assert!(!valid_put(Some(&current), &proposed, &key("h"), NOW, EXPIRATION_OFFSET));
    let replaced = vec![req("u2", "h", NOW + 1000)];
    assert!(!valid_put(Some(&current), &replaced, &key("h"), NOW, EXPIRATION_OFFSET));
}

#[test]
fn accepts_dropping_only_the_expired() {
    let current = vec![req("u1", "h", NOW - 1), req("u2", "h", NOW + 1000)];
    let proposed = vec![req("u2", "h", NOW + 1000)];
    assert!(valid_put(Some(&current), &proposed, &key("h"), NOW, EXPIRATION_OFFSET));
    // Dropping the live one instead is rejected.
    let proposed = vec![req("u1", "h", NOW + 1000)];
    assert!(!valid_put(Some(&current), &proposed, &key("h"), NOW, EXPIRATION_OFFSET));
}

#[test]
fn accepts_dropping_expired_entry() {
    let current = vec![req("u1", "h", NOW - 1)];
    let proposed: Vec<FileRequest> = vec![];
    assert!(valid_put(Some(&current), &proposed, &key("h"), NOW, EXPIRATION_OFFSET));
}
