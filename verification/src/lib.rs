//! A decentralized file-discovery market over a Kademlia-style distributed
//! hash table: peers advertise that they hold a file at a price, and other
//! peers query for the current advertisers. Per-file advertiser lists are the
//! values of the table; every node validates the records it is asked to
//! store, so that a malicious peer can neither delete nor shorten nor spam
//! someone else's advertisement.
//!
//! The library holds everything that decides: the record codec with a proved
//! round trip, the validation policy, the market operations behind the two
//! RPC methods, the DHT actor's state and transitions, and the start-up
//! decisions. The network, the clock and the event loop around the actor live
//! outside and supply plain values.

use vstd::prelude::*;

pub mod actor;
pub mod bootstrap;
pub mod codec;
pub mod data;
pub mod policy;
pub mod rpc;

verus! {

/// Time in seconds that a freshly registered advertisement is valid for: the
/// expiration window of the validation policy.
pub const EXPIRATION_OFFSET: u64 = 3600;

/// Relies on `std::time::SystemTime::now` and `Duration::as_secs`: the current
/// wall-clock time in whole seconds since the Unix epoch. Nothing can be
/// promised of a clock reading.
#[verifier::external_body]
fn read_clock_seconds() -> u64 {
    let start = std::time::SystemTime::now();
    let since_the_epoch = start
        .duration_since(std::time::UNIX_EPOCH)
        .expect("Time went backwards");
    since_the_epoch.as_secs()
}

/// The current time in whole seconds since the Unix epoch. The reading is an
/// arbitrary value to the verifier, so every function that reasons about time
/// takes it as an argument.
pub fn get_current_time() -> u64 {
    read_clock_seconds()
}

} // verus!
