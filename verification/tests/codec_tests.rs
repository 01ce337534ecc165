use dht_market::codec::{decode_requests, encode_requests};
use dht_market::data::{FileRequest, User};

fn user(id: &str, name: &str, ip: &str, port: u32, price: u64) -> User {
    User { id: id.to_string(), name: name.to_string(), ip: ip.to_string(), port, price }
}

fn req(u: User, hash: &str, exp: u64) -> FileRequest {
    FileRequest { user: u, file_hash: hash.to_string(), expiration: exp }
}

fn assert_req_eq(a: &FileRequest, b: &FileRequest) {
    assert_eq!(a.user.id, b.user.id);
    assert_eq!(a.user.name, b.user.name);
    assert_eq!(a.user.ip, b.user.ip);
    assert_eq!(a.user.port, b.user.port);
    assert_eq!(a.user.price, b.user.price);
    assert_eq!(a.file_hash, b.file_hash);
    assert_eq!(a.expiration, b.expiration);
}

#[test]
fn encode_exact_output() {
    let reqs = vec![req(user("u1", "a", "1.1.1.1", 8000, 100), "h1", 42)];
    let s = encode_requests(&reqs);
    assert_eq!(
        s,
        "[{\"user\":{\"id\":\"u1\",\"name\":\"a\",\"ip\":\"1.1.1.1\",\"port\":8000,\"price\":100},\"file_hash\":\"h1\",\"expiration\":42}]"
    );
}

#[test]
fn encode_empty_list() {
    let reqs: Vec<FileRequest> = vec![];
    assert_eq!(encode_requests(&reqs), "[]");
}

#[test]
fn round_trip_two_entries() {
    let reqs = vec![
        req(user("12345", "Shuai Mu", "123.456.789.0", 8000, 100), "ratcoin.js-hash", 1000),
        req(user("22222", "Shuai Mu2", "223.456.789.0", 8001, 101), "ratcoin.js-hash", 2000),
    ];
    let s = encode_requests(&reqs);
    let back = decode_requests(&s).expect("an encoded list must decode");
    assert_eq!(back.len(), 2);
    assert_req_eq(&back[0], &reqs[0]);
    assert_req_eq(&back[1], &reqs[1]);
}

#[test]
fn round_trip_escapes_and_unicode() {
    let reqs = vec![req(
        user("a\"b", "back\\slash", "\"\"\\", 1, 2),
        "hash-\u{00e9}\u{4e2d}",
        7,
    )];
    let s = encode_requests(&reqs);
    let back = decode_requests(&s).expect("escaped strings must decode");
    assert_eq!(back.len(), 1);
    assert_req_eq(&back[0], &reqs[0]);
}

#[test]
fn round_trip_extreme_numbers() {
    let reqs = vec![req(user("", "", "", u32::MAX, u64::MAX), "", 0)];
    let s = encode_requests(&reqs);
    let back = decode_requests(&s).expect("boundary numbers must decode");
    assert_req_eq(&back[0], &reqs[0]);
}

#[test]
fn decode_empty_list() {
    let back = decode_requests("[]").expect("the empty list is a record value");
    assert!(back.is_empty());
}

#[test]
fn decode_rejects_trailing_data() {
    assert!(decode_requests("[] ").is_none());
    assert!(decode_requests("[]x").is_none());
}

#[test]
fn decode_rejects_malformed() {
    assert!(decode_requests("").is_none());
    assert!(decode_requests("[").is_none());
    assert!(decode_requests("{}").is_none());
    assert!(decode_requests("[{\"user\":{}}]").is_none());
    // A port past the u32 range is rejected.
    assert!(decode_requests(
        "[{\"user\":{\"id\":\"u\",\"name\":\"n\",\"ip\":\"i\",\"port\":4294967296,\"price\":1},\"file_hash\":\"h\",\"expiration\":1}]"
    )
    .is_none());
    // An expiration past the u64 range is rejected.
    assert!(decode_requests(
        "[{\"user\":{\"id\":\"u\",\"name\":\"n\",\"ip\":\"i\",\"port\":1,\"price\":1},\"file_hash\":\"h\",\"expiration\":18446744073709551616}]"
    )
    .is_none());
}

#[test]
fn encoded_output_is_json() {
    let reqs = vec![
        req(user("u1", "name \"quoted\"", "1.2.3.4", 80, 5), "k", 99),
        req(user("u2", "plain", "5.6.7.8", 81, 6), "k", 100),
    ];
    let s = encode_requests(&reqs);
    let v: serde_json::Value = serde_json::from_str(&s).expect("the encoding must be JSON");
    let arr = v.as_array().expect("a JSON array");
    assert_eq!(arr.len(), 2);
    assert_eq!(arr[0]["user"]["id"], serde_json::Value::String("u1".to_string()));
    assert_eq!(
        arr[0]["user"]["name"],
        serde_json::Value::String("name \"quoted\"".to_string())
    );
    assert_eq!(arr[0]["expiration"].as_u64(), Some(99));
    assert_eq!(arr[1]["user"]["port"].as_u64(), Some(81));
    assert_eq!(arr[1]["file_hash"], serde_json::Value::String("k".to_string()));
}
