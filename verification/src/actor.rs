//! The DHT actor: the single owner of the record store and of the pending
//! request tables. Every mutation of that state is a transition here, a
//! function from state and input (a command from the client handle, or a
//! network event) to actions for the surrounding event loop: queries to
//! issue, dials to start, replies to deliver. The loop itself — the select
//! over inbox and swarm, and the sends — performs no decision of its own.
//!
//! Reply handles are opaque type parameters: the actor moves them between
//! tables and hands them back inside actions, and never looks inside.

use vstd::prelude::*;
use crate::codec::{decode_requests, encode_requests, enc_list, sp_decode};
use crate::data::{bound_to_key, ids_distinct, list_wf, within_window, FileRequest, FileRequestView, MarketError};
use crate::policy::{spec_valid_put, valid_put};
use crate::EXPIRATION_OFFSET;

verus! {

// ---------------------------------------------------------------------------
// Association lists with unique string keys, the shape of every table the
// actor owns.
// ---------------------------------------------------------------------------

/// Whether some entry of `m` has key `k`.
pub open spec fn has_key<V>(m: Seq<(String, V)>, k: Seq<char>) -> bool {
    exists|i: int| 0 <= i < m.len() && #[trigger] m[i].0@ == k
}

/// The index of the entry with key `k`.
pub open spec fn key_index<V>(m: Seq<(String, V)>, k: Seq<char>) -> int {
    choose|i: int| 0 <= i < m.len() && #[trigger] m[i].0@ == k
}

/// Pairwise distinct keys: every lookup is unambiguous.
pub open spec fn keys_unique<V>(m: Seq<(String, V)>) -> bool {
    forall|i: int, j: int| 0 <= i < j < m.len() ==> m[i].0@ != m[j].0@
}

/// The handles waiting under key `k`; none, where no entry exists.
pub open spec fn waiters<H>(m: Seq<(String, Vec<H>)>, k: Seq<char>) -> Seq<H> {
    if has_key(m, k) {
        m[key_index(m, k)].1@
    } else {
        Seq::empty()
    }
}

/// The list stored under key `k`, as its mathematical view.
pub open spec fn stored(m: Seq<(String, Vec<FileRequest>)>, k: Seq<char>) -> Option<
    Seq<FileRequestView>,
> {
    if has_key(m, k) {
        Some(m[key_index(m, k)].1.deep_view())
    } else {
        None
    }
}

/// The index of `key`, if any entry has it.
fn find_idx<V>(m: &Vec<(String, V)>, key: &String) -> (r: Option<usize>)
    ensures
        match r {
            Some(i) => i < m@.len() && m@[i as int].0@ == key@,
            None => !has_key(m@, key@),
        },
{
    let mut i: usize = 0;
    while i < m.len()
        invariant
            i <= m.len(),
            forall|w: int| 0 <= w < i ==> #[trigger] m@[w].0@ != key@,
        decreases m.len() - i,
    {
        if m[i].0 == *key {
            return Some(i);
        }
        i += 1;
    }
    None
}

/// With unique keys, any index that holds `k` is the lookup index.
proof fn lemma_key_index_is<V>(m: Seq<(String, V)>, k: Seq<char>, i: int)
    requires
        keys_unique(m),
        0 <= i < m.len(),
        m[i].0@ == k,
    ensures
        has_key(m, k),
        key_index(m, k) == i,
{
    let w = key_index(m, k);
    assert(0 <= w < m.len() && m[w].0@ == k);
    if w != i {
        if w < i {
            assert(m[w].0@ != m[i].0@);
        } else {
            assert(m[i].0@ != m[w].0@);
        }
    }
}

/// Removing the entry at `i` and appending a pair with the same key keeps the
/// keys unique and every other key's entry untouched.
proof fn lemma_replace_entry<V>(m0: Seq<(String, V)>, i: int, p: (String, V))
    requires
        keys_unique(m0),
        0 <= i < m0.len(),
        p.0@ == m0[i].0@,
    ensures
        keys_unique(m0.remove(i).push(p)),
        has_key(m0.remove(i).push(p), p.0@),
        m0.remove(i).push(p)[key_index(m0.remove(i).push(p), p.0@)] == p,
        forall|k2: Seq<char>|
            k2 != p.0@ ==> #[trigger] has_key(m0.remove(i).push(p), k2) == has_key(m0, k2),
        forall|k2: Seq<char>|
            k2 != p.0@ && has_key(m0, k2) ==> #[trigger] m0.remove(i).push(p)[key_index(
                m0.remove(i).push(p),
                k2,
            )] == m0[key_index(m0, k2)],
{
    let m1 = m0.remove(i);
    let m2 = m1.push(p);
    assert(forall|w: int| 0 <= w < i ==> #[trigger] m1[w] == m0[w]);
    assert(forall|w: int| i <= w < m1.len() ==> #[trigger] m1[w] == m0[w + 1]);
    assert(forall|w: int| 0 <= w < m1.len() ==> #[trigger] m1[w].0@ != p.0@);
    assert(keys_unique(m2));
    lemma_key_index_is(m2, p.0@, m2.len() - 1);
    assert forall|k2: Seq<char>| k2 != p.0@ implies #[trigger] has_key(m2, k2) == has_key(
        m0,
        k2,
    ) by {
        if has_key(m2, k2) {
            let w = key_index(m2, k2);
            assert(0 <= w < m2.len() && m2[w].0@ == k2);
            assert(w < m1.len());
            if w < i {
                assert(m0[w].0@ == k2);
            } else {
                assert(m0[w + 1].0@ == k2);
            }
        }
        if has_key(m0, k2) {
            let w = choose|w: int| 0 <= w < m0.len() && #[trigger] m0[w].0@ == k2;
            assert(w != i);
            if w < i {
                assert(m2[w].0@ == k2);
            } else {
                assert(m2[w - 1].0@ == k2);
            }
        }
    }
    assert forall|k2: Seq<char>| k2 != p.0@ && has_key(m0, k2) implies #[trigger] m2[key_index(
        m2,
        k2,
    )] == m0[key_index(m0, k2)] by {
        let w0 = key_index(m0, k2);
        assert(0 <= w0 < m0.len() && m0[w0].0@ == k2);
        assert(w0 != i);
        if w0 < i {
            assert(m2[w0] == m0[w0]);
            lemma_key_index_is(m2, k2, w0);
        } else {
            assert(m2[w0 - 1] == m0[w0]);
            lemma_key_index_is(m2, k2, w0 - 1);
        }
        lemma_key_index_is(m0, k2, w0);
    }
}

/// Appending an entry under a fresh key keeps the keys unique and every other
/// key's entry untouched.
proof fn lemma_append_entry<V>(m0: Seq<(String, V)>, p: (String, V))
    requires
        keys_unique(m0),
        !has_key(m0, p.0@),
    ensures
        keys_unique(m0.push(p)),
        has_key(m0.push(p), p.0@),
        m0.push(p)[key_index(m0.push(p), p.0@)] == p,
        forall|k2: Seq<char>|
            k2 != p.0@ ==> #[trigger] has_key(m0.push(p), k2) == has_key(m0, k2),
        forall|k2: Seq<char>|
            k2 != p.0@ && has_key(m0, k2) ==> #[trigger] m0.push(p)[key_index(m0.push(p), k2)]
                == m0[key_index(m0, k2)],
{
    let m2 = m0.push(p);
    assert(forall|w: int| 0 <= w < m0.len() ==> #[trigger] m2[w] == m0[w]);
    assert(keys_unique(m2));
    lemma_key_index_is(m2, p.0@, m2.len() - 1);
    assert forall|k2: Seq<char>| k2 != p.0@ implies #[trigger] has_key(m2, k2) == has_key(
        m0,
        k2,
    ) by {
        if has_key(m2, k2) {
            let w = key_index(m2, k2);
            assert(0 <= w < m2.len() && m2[w].0@ == k2);
            assert(w < m0.len());
        }
        if has_key(m0, k2) {
            let w = choose|w: int| 0 <= w < m0.len() && #[trigger] m0[w].0@ == k2;
            assert(m2[w].0@ == k2);
        }
    }
    assert forall|k2: Seq<char>| k2 != p.0@ && has_key(m0, k2) implies #[trigger] m2[key_index(
        m2,
        k2,
    )] == m0[key_index(m0, k2)] by {
        let w0 = key_index(m0, k2);
        assert(0 <= w0 < m0.len() && m0[w0].0@ == k2);
        assert(m2[w0] == m0[w0]);
        lemma_key_index_is(m2, k2, w0);
        lemma_key_index_is(m0, k2, w0);
    }
}

/// The single handle registered under key `k`, if any: the shape of the dial
/// table.
pub open spec fn dial_entry<H>(m: Seq<(String, H)>, k: Seq<char>) -> Option<H> {
    if has_key(m, k) {
        Some(m[key_index(m, k)].1)
    } else {
        None
    }
}

/// Appends `h` to the handles waiting under `key`, creating the entry if none
/// exists. Every other key's waiters are untouched.
fn push_waiter<H>(m: &mut Vec<(String, Vec<H>)>, key: String, h: H)
    requires
        keys_unique(old(m)@),
    ensures
        keys_unique(final(m)@),
        has_key(final(m)@, key@),
        waiters(final(m)@, key@) == waiters(old(m)@, key@).push(h),
        forall|k2: Seq<char>| k2 != key@ ==> #[trigger] waiters(final(m)@, k2) == waiters(old(m)@, k2),
        forall|k2: Seq<char>| k2 != key@ ==> #[trigger] has_key(final(m)@, k2) == has_key(old(m)@, k2),
{
    let ghost m0 = m@;
    match find_idx(m, &key) {
        Some(i) => {
            proof {
                lemma_key_index_is(m0, key@, i as int);
            }
            let mut e = m.remove(i);
            e.1.push(h);
            m.push(e);
            proof {
                let p = m@[m@.len() - 1];
                assert(m@ == m0.remove(i as int).push(p));
                lemma_replace_entry(m0, i as int, p);
                assert(waiters(m@, key@) =~= waiters(m0, key@).push(h));
                assert forall|k2: Seq<char>| k2 != key@ implies #[trigger] waiters(m@, k2)
                    == waiters(m0, k2) by {
                    if has_key(m0, k2) {
                        assert(m@[key_index(m@, k2)] == m0[key_index(m0, k2)]);
                    }
                }
            }
        },
        None => {
            let mut v: Vec<H> = Vec::new();
            v.push(h);
            m.push((key, v));
            proof {
                let p = m@[m@.len() - 1];
                assert(m@ == m0.push(p));
                lemma_append_entry(m0, p);
                assert(waiters(m@, p.0@) =~= waiters(m0, p.0@).push(h));
                assert forall|k2: Seq<char>| k2 != p.0@ implies #[trigger] waiters(m@, k2)
                    == waiters(m0, k2) by {
                    if has_key(m0, k2) {
                        assert(m@[key_index(m@, k2)] == m0[key_index(m0, k2)]);
                    }
                }
            }
        },
    }
}

/// Removes and returns the handles waiting under `key`; none, where no entry
/// exists. Every other key's waiters are untouched.
fn take_waiters<H>(m: &mut Vec<(String, Vec<H>)>, key: &String) -> (r: Vec<H>)
    requires
        keys_unique(old(m)@),
    ensures
        keys_unique(final(m)@),
        !has_key(final(m)@, key@),
        r@ == waiters(old(m)@, key@),
        forall|k2: Seq<char>| k2 != key@ ==> #[trigger] waiters(final(m)@, k2) == waiters(old(m)@, k2),
        forall|k2: Seq<char>| k2 != key@ ==> #[trigger] has_key(final(m)@, k2) == has_key(old(m)@, k2),
{
    let ghost m0 = m@;
    match find_idx(m, key) {
        Some(i) => {
            proof {
                lemma_key_index_is(m0, key@, i as int);
                lemma_remove_entry(m0, i as int);
            }
            let e = m.remove(i);
            proof {
                assert forall|k2: Seq<char>| k2 != key@ implies #[trigger] waiters(m@, k2)
                    == waiters(m0, k2) by {
                    if has_key(m0, k2) {
                        assert(m@[key_index(m@, k2)] == m0[key_index(m0, k2)]);
                    }
                }
            }
            e.1
        },
        None => {
            Vec::new()
        },
    }
}

/// Stores `val` under `key`, replacing any previous value. Every other key's
/// value is untouched.
fn store_put(m: &mut Vec<(String, Vec<FileRequest>)>, key: String, val: Vec<FileRequest>)
    requires
        keys_unique(old(m)@),
    ensures
        keys_unique(final(m)@),
        stored(final(m)@, key@) == Some(val.deep_view()),
        forall|k2: Seq<char>| k2 != key@ ==> #[trigger] stored(final(m)@, k2) == stored(old(m)@, k2),
{
    let ghost m0 = m@;
    let ghost vv = val.deep_view();
    match find_idx(m, &key) {
        Some(i) => {
            proof {
                lemma_key_index_is(m0, key@, i as int);
            }
            let mut e = m.remove(i);
            e.1 = val;
            m.push(e);
            proof {
                let p = m@[m@.len() - 1];
                assert(m@ == m0.remove(i as int).push(p));
                lemma_replace_entry(m0, i as int, p);
                assert(stored(m@, key@) == Some(vv));
                assert forall|k2: Seq<char>| k2 != key@ implies #[trigger] stored(m@, k2)
                    == stored(m0, k2) by {
                    if has_key(m0, k2) {
                        assert(m@[key_index(m@, k2)] == m0[key_index(m0, k2)]);
                    }
                }
            }
        },
        None => {
            m.push((key, val));
            proof {
                let p = m@[m@.len() - 1];
                assert(m@ == m0.push(p));
                lemma_append_entry(m0, p);
                assert(stored(m@, p.0@) == Some(vv));
                assert forall|k2: Seq<char>| k2 != p.0@ implies #[trigger] stored(m@, k2)
                    == stored(m0, k2) by {
                    if has_key(m0, k2) {
                        assert(m@[key_index(m@, k2)] == m0[key_index(m0, k2)]);
                    }
                }
            }
        },
    }
}

/// The value stored under `key`, if any.
fn store_get<'a>(m: &'a Vec<(String, Vec<FileRequest>)>, key: &String) -> (r: Option<
    &'a Vec<FileRequest>,
>)
    requires
        keys_unique(m@),
    ensures
        match r {
            Some(v) => stored(m@, key@) == Some(v.deep_view()),
            None => stored(m@, key@) is None,
        },
{
    match find_idx(m, key) {
        Some(i) => {
            proof {
                lemma_key_index_is(m@, key@, i as int);
            }
            Some(&m[i].1)
        },
        None => None,
    }
}

/// Registers the one dial handle for `peer`; the peer must not be dialing.
fn insert_dial<H>(m: &mut Vec<(String, H)>, peer: String, h: H)
    requires
        keys_unique(old(m)@),
        !has_key(old(m)@, peer@),
    ensures
        keys_unique(final(m)@),
        dial_entry(final(m)@, peer@) == Some(h),
        forall|k2: Seq<char>|
            k2 != peer@ ==> #[trigger] dial_entry(final(m)@, k2) == dial_entry(old(m)@, k2),
{
    let ghost m0 = m@;
    m.push((peer, h));
    proof {
        let p = m@[m@.len() - 1];
        lemma_append_entry(m0, p);
        assert forall|k2: Seq<char>| k2 != p.0@ implies #[trigger] dial_entry(m@, k2)
            == dial_entry(m0, k2) by {
            if has_key(m0, k2) {
                assert(m@[key_index(m@, k2)] == m0[key_index(m0, k2)]);
            }
        }
    }
}

/// Removes and returns the dial handle for `peer`, if one is registered.
fn take_dial<H>(m: &mut Vec<(String, H)>, peer: &String) -> (r: Option<H>)
    requires
        keys_unique(old(m)@),
    ensures
        keys_unique(final(m)@),
        !has_key(final(m)@, peer@),
        r == dial_entry(old(m)@, peer@),
        forall|k2: Seq<char>|
            k2 != peer@ ==> #[trigger] dial_entry(final(m)@, k2) == dial_entry(old(m)@, k2),
{
    let ghost m0 = m@;
    match find_idx(m, peer) {
        Some(i) => {
            proof {
                lemma_key_index_is(m0, peer@, i as int);
                lemma_remove_entry(m0, i as int);
            }
            let e = m.remove(i);
            proof {
                assert forall|k2: Seq<char>| k2 != peer@ implies #[trigger] dial_entry(m@, k2)
                    == dial_entry(m0, k2) by {
                    if has_key(m0, k2) {
                        assert(m@[key_index(m@, k2)] == m0[key_index(m0, k2)]);
                    }
                }
            }
            Some(e.1)
        },
        None => None,
    }
}

// ---------------------------------------------------------------------------
// Commands, events, actions.
// ---------------------------------------------------------------------------

/// A command sent from a client handle into the actor's inbox. The reply
/// handles `HG`, `HP`, `HD` are opaque to the actor.
pub enum Command<HG, HP, HD> {
    /// Look up the advertisement list stored under `key`.
    GetRequests { key: String, resp: HG },
    /// Store the encoded advertisement list `val` under `key`.
    SetRequests { key: String, val: String, resp: HP },
    /// Connect to a peer at an address.
    Dial { peer_id: String, peer_addr: String, resp: HD },
}

/// What the event loop must do after a transition: issue queries, start
/// dials, deliver replies.
pub enum Action<HG, HP, HD> {
    IssueGet { key: String },
    IssuePut { key: String, value: String },
    StartDial { peer_id: String, peer_addr: String },
    ReplyGet { resp: HG, result: Result<Option<Vec<FileRequest>>, MarketError> },
    ReplyPut { resp: HP, result: Result<(), MarketError> },
    ReplyDial { resp: HD, result: Result<String, String> },
}

/// The mathematical content of a GET reply.
pub open spec fn get_reply_view(r: Result<Option<Vec<FileRequest>>, MarketError>) -> Result<
    Option<Seq<FileRequestView>>,
    MarketError,
> {
    match r {
        Ok(None) => Ok(None),
        Ok(Some(v)) => Ok(Some(v.deep_view())),
        Err(e) => Err(e),
    }
}

pub open spec fn is_issue_get<HG, HP, HD>(a: Action<HG, HP, HD>, k: Seq<char>) -> bool {
    match a {
        Action::IssueGet { key } => key@ == k,
        _ => false,
    }
}

pub open spec fn is_issue_put<HG, HP, HD>(a: Action<HG, HP, HD>, k: Seq<char>, v: Seq<char>) -> bool {
    match a {
        Action::IssuePut { key, value } => key@ == k && value@ == v,
        _ => false,
    }
}

pub open spec fn is_start_dial<HG, HP, HD>(
    a: Action<HG, HP, HD>,
    peer: Seq<char>,
    addr: Seq<char>,
) -> bool {
    match a {
        Action::StartDial { peer_id, peer_addr } => peer_id@ == peer && peer_addr@ == addr,
        _ => false,
    }
}

pub open spec fn is_reply_get<HG, HP, HD>(
    a: Action<HG, HP, HD>,
    h: HG,
    res: Result<Option<Seq<FileRequestView>>, MarketError>,
) -> bool {
    match a {
        Action::ReplyGet { resp, result } => resp == h && get_reply_view(result) == res,
        _ => false,
    }
}

pub open spec fn is_reply_put<HG, HP, HD>(
    a: Action<HG, HP, HD>,
    h: HP,
    res: Result<(), MarketError>,
) -> bool {
    match a {
        Action::ReplyPut { resp, result } => resp == h && result == res,
        _ => false,
    }
}

pub open spec fn is_reply_dial<HG, HP, HD>(
    a: Action<HG, HP, HD>,
    h: HD,
    res: Result<Seq<char>, Seq<char>>,
) -> bool {
    match a {
        Action::ReplyDial { resp, result } => resp == h && (match (result, res) {
            (Ok(p), Ok(q)) => p@ == q,
            (Err(p), Err(q)) => p@ == q,
            _ => false,
        }),
        _ => false,
    }
}

// ---------------------------------------------------------------------------
// The actor state.
// ---------------------------------------------------------------------------

/// Every stored list is bound to its own key.
pub open spec fn store_bound(m: Seq<(String, Vec<FileRequest>)>) -> bool {
    forall|i: int|
        0 <= i < m.len() ==> bound_to_key(#[trigger] m[i].1.deep_view(), m[i].0@)
}

/// Every stored list has pairwise distinct seller ids.
pub open spec fn store_distinct(m: Seq<(String, Vec<FileRequest>)>) -> bool {
    forall|i: int| 0 <= i < m.len() ==> ids_distinct(#[trigger] m[i].1.deep_view())
}

/// No table keeps an entry with no waiting handle.
pub open spec fn entries_nonempty<H>(m: Seq<(String, Vec<H>)>) -> bool {
    forall|i: int| 0 <= i < m.len() ==> (#[trigger] m[i].1@).len() > 0
}

/// The value stored under `k`, the empty list where none is.
pub open spec fn stored_or_empty(m: Seq<(String, Vec<FileRequest>)>, k: Seq<char>) -> Seq<
    FileRequestView,
> {
    match stored(m, k) {
        Some(v) => v,
        None => Seq::empty(),
    }
}

/// The entries of `l` bound to `key`, in order: what an egress PUT actually
/// stores.
pub open spec fn bound_only(l: Seq<FileRequestView>, key: Seq<char>) -> Seq<FileRequestView>
    decreases l.len(),
{
    if l.len() == 0 {
        Seq::empty()
    } else {
        let init = bound_only(l.drop_last(), key);
        let last = l.last();
        if last.file_hash == key {
            init.push(last)
        } else {
            init
        }
    }
}

/// Every survivor of `bound_only` is an entry of the input list bound to the
/// key, and distinct seller ids stay distinct.
pub proof fn lemma_bound_only(l: Seq<FileRequestView>, key: Seq<char>)
    ensures
        bound_to_key(bound_only(l, key), key),
        forall|k: int|
            0 <= k < bound_only(l, key).len() ==> exists|i: int|
                0 <= i < l.len() && #[trigger] bound_only(l, key)[k] == l[i],
        ids_distinct(l) ==> ids_distinct(bound_only(l, key)),
        bound_to_key(l, key) ==> bound_only(l, key) == l,
    decreases l.len(),
{
    if l.len() > 0 {
        lemma_bound_only(l.drop_last(), key);
        assert(forall|i: int|
            0 <= i < l.drop_last().len() ==> #[trigger] l.drop_last()[i] == l[i]);
        let bl = bound_only(l, key);
        let init = bound_only(l.drop_last(), key);
        let last = l.last();
        if ids_distinct(l) {
            assert(ids_distinct(l.drop_last()));
            if last.file_hash == key {
                assert forall|i: int, j: int| 0 <= i < j < bl.len() implies bl[i].user.id
                    != bl[j].user.id by {
                    if j == bl.len() - 1 {
                        let w = choose|w: int|
                            0 <= w < l.drop_last().len() && init[i] == l.drop_last()[w];
                        assert(l[w].user.id != l[l.len() - 1].user.id);
                    }
                }
            }
        }
        if bound_to_key(l, key) {
            assert(bound_to_key(l.drop_last(), key));
            assert(bound_only(l, key) =~= l);
        }
    }
}

/// The DHT actor's entire mutable state: the local record store and the three
/// pending tables. Nothing else in the library holds or touches them; the
/// event loop owns one value of this type and drives it one input at a time.
pub struct Actor<HG, HP, HD> {
    pub store: Vec<(String, Vec<FileRequest>)>,
    pub pending_get: Vec<(String, Vec<HG>)>,
    pub pending_put: Vec<(String, Vec<HP>)>,
    pub pending_dial: Vec<(String, HD)>,
}

impl<HG, HP, HD> Actor<HG, HP, HD> {
    /// The state invariant: unambiguous tables, no empty waiter entry, and
    /// every stored list bound to its key.
    pub open spec fn wf(&self) -> bool {
        &&& keys_unique(self.store@)
        &&& keys_unique(self.pending_get@)
        &&& keys_unique(self.pending_put@)
        &&& keys_unique(self.pending_dial@)
        &&& store_bound(self.store@)
        &&& entries_nonempty(self.pending_get@)
        &&& entries_nonempty(self.pending_put@)
    }

    /// A fresh actor: empty store, nothing pending.
    pub fn new() -> (r: Self)
        ensures
            r.wf(),
            r.store@.len() == 0,
            r.pending_get@.len() == 0,
            r.pending_put@.len() == 0,
            r.pending_dial@.len() == 0,
    {
        Actor {
            store: Vec::new(),
            pending_get: Vec::new(),
            pending_put: Vec::new(),
            pending_dial: Vec::new(),
        }
    }

    /// The list stored under `key`, for callers that own the actor (the event
    /// loop, and test harnesses standing in for the network).
    pub fn lookup(&self, key: &String) -> (r: Option<&Vec<FileRequest>>)
        requires
            self.wf(),
        ensures
            match r {
                Some(v) => stored(self.store@, key@) == Some(v.deep_view()),
                None => stored(self.store@, key@) is None,
            },
    {
        store_get(&self.store, key)
    }

    /// A `GetRequests` command: the caller's handle joins the waiters for
    /// `key`, and a DHT GET is issued only where no query for `key` is
    /// already in flight.
    pub fn on_get_requests(&mut self, key: String, resp: HG) -> (acts: Vec<Action<HG, HP, HD>>)
        requires
            old(self).wf(),
        ensures
            final(self).wf(),
            final(self).store == old(self).store,
            final(self).pending_put == old(self).pending_put,
            final(self).pending_dial == old(self).pending_dial,
            waiters(final(self).pending_get@, key@) == waiters(old(self).pending_get@, key@).push(
                resp,
            ),
            forall|k2: Seq<char>|
                k2 != key@ ==> #[trigger] waiters(final(self).pending_get@, k2) == waiters(
                    old(self).pending_get@,
                    k2,
                ),
            if has_key(old(self).pending_get@, key@) {
                acts@.len() == 0
            } else {
                acts@.len() == 1 && is_issue_get(acts@[0], key@)
            },
    {
        let ghost pg0 = self.pending_get@;
        let fresh = find_idx(&self.pending_get, &key).is_none();
        let mut acts: Vec<Action<HG, HP, HD>> = Vec::new();
        if fresh {
            acts.push(Action::IssueGet { key: key.clone() });
        }
        push_waiter(&mut self.pending_get, key, resp);
        proof {
            assert forall|i: int| 0 <= i < self.pending_get@.len() implies (
            #[trigger] self.pending_get@[i].1@).len() > 0 by {
                let k = self.pending_get@[i].0@;
                lemma_key_index_is(self.pending_get@, k, i);
                if k == key@ {
                    assert(waiters(self.pending_get@, k).len() > 0);
                } else {
                    assert(waiters(self.pending_get@, k) == waiters(pg0, k));
                    assert(has_key(pg0, k));
                    lemma_key_index_is(pg0, k, key_index(pg0, k));
                }
            }
            if !has_key(pg0, key@) {
                assert(waiters(pg0, key@) =~= Seq::<HG>::empty());
            }
        }
        acts
    }

    /// A found record completing an outbound GET: every waiter for `key` is
    /// woken, in registration order, with one and the same result — the
    /// decoded list, or `Internal` where the value does not decode.
    pub fn on_get_found(&mut self, key: String, value: Option<String>) -> (acts: Vec<
        Action<HG, HP, HD>,
    >)
        requires
            old(self).wf(),
        ensures
            final(self).wf(),
            final(self).store == old(self).store,
            final(self).pending_put == old(self).pending_put,
            final(self).pending_dial == old(self).pending_dial,
            !has_key(final(self).pending_get@, key@),
            forall|k2: Seq<char>|
                k2 != key@ ==> #[trigger] waiters(final(self).pending_get@, k2) == waiters(
                    old(self).pending_get@,
                    k2,
                ),
            acts@.len() == waiters(old(self).pending_get@, key@).len(),
            forall|i: int|
                0 <= i < acts@.len() ==> is_reply_get(
                    #[trigger] acts@[i],
                    waiters(old(self).pending_get@, key@)[i],
                    found_result(value),
                ),
    {
        let ghost pg0 = self.pending_get@;
        let mut ws = take_waiters(&mut self.pending_get, &key);
        let ghost ws0 = ws@;
        proof {
            lemma_nonempty_sub(pg0, self.pending_get@, key@);
        }
        let mut acts: Vec<Action<HG, HP, HD>> = Vec::new();
        while ws.len() > 0
            invariant
                ws@ =~= ws0.skip(acts@.len() as int),
                acts@.len() <= ws0.len(),
                forall|i: int|
                    0 <= i < acts@.len() ==> is_reply_get(
                        #[trigger] acts@[i],
                        ws0[i],
                        found_result(value),
                    ),
            decreases ws@.len(),
        {
            let ghost n0 = acts@.len() as int;
            let h = ws.remove(0);
            let result: Result<Option<Vec<FileRequest>>, MarketError> = match &value {
                None => Err(MarketError::Internal),
                Some(v) => match decode_requests(v.as_str()) {
                    Some(list) => Ok(Some(list)),
                    None => Err(MarketError::Internal),
                },
            };
            acts.push(Action::ReplyGet { resp: h, result });
            proof {
                assert(ws0.skip(n0)[0] == ws0[n0]);
                assert(ws@ =~= ws0.skip(n0 + 1));
            }
        }
        acts
    }

    /// A GET completing with no record: every waiter for `key` is woken with
    /// `Ok(None)`.
    pub fn on_get_not_found(&mut self, key: String) -> (acts: Vec<Action<HG, HP, HD>>)
        requires
            old(self).wf(),
        ensures
            final(self).wf(),
            final(self).store == old(self).store,
            final(self).pending_put == old(self).pending_put,
            final(self).pending_dial == old(self).pending_dial,
            !has_key(final(self).pending_get@, key@),
            forall|k2: Seq<char>|
                k2 != key@ ==> #[trigger] waiters(final(self).pending_get@, k2) == waiters(
                    old(self).pending_get@,
                    k2,
                ),
            acts@.len() == waiters(old(self).pending_get@, key@).len(),
            forall|i: int|
                0 <= i < acts@.len() ==> is_reply_get(
                    #[trigger] acts@[i],
                    waiters(old(self).pending_get@, key@)[i],
                    Ok(None),
                ),
    {
        let ghost pg0 = self.pending_get@;
        let mut ws = take_waiters(&mut self.pending_get, &key);
        let ghost ws0 = ws@;
        proof {
            lemma_nonempty_sub(pg0, self.pending_get@, key@);
        }
        let mut acts: Vec<Action<HG, HP, HD>> = Vec::new();
        while ws.len() > 0
            invariant
                ws@ =~= ws0.skip(acts@.len() as int),
                acts@.len() <= ws0.len(),
                forall|i: int|
                    0 <= i < acts@.len() ==> is_reply_get(#[trigger] acts@[i], ws0[i], Ok(None)),
            decreases ws@.len(),
        {
            let ghost n0 = acts@.len() as int;
            let h = ws.remove(0);
            acts.push(Action::ReplyGet { resp: h, result: Ok(None) });
            proof {
                assert(ws0.skip(n0)[0] == ws0[n0]);
                assert(ws@ =~= ws0.skip(n0 + 1));
            }
        }
        acts
    }

    /// A GET failing for another reason: every waiter for `key` is woken with
    /// `Err(Unavailable)`.
    pub fn on_get_failed(&mut self, key: String) -> (acts: Vec<Action<HG, HP, HD>>)
        requires
            old(self).wf(),
        ensures
            final(self).wf(),
            final(self).store == old(self).store,
            final(self).pending_put == old(self).pending_put,
            final(self).pending_dial == old(self).pending_dial,
            !has_key(final(self).pending_get@, key@),
            forall|k2: Seq<char>|
                k2 != key@ ==> #[trigger] waiters(final(self).pending_get@, k2) == waiters(
                    old(self).pending_get@,
                    k2,
                ),
            acts@.len() == waiters(old(self).pending_get@, key@).len(),
            forall|i: int|
                0 <= i < acts@.len() ==> is_reply_get(
                    #[trigger] acts@[i],
                    waiters(old(self).pending_get@, key@)[i],
                    Err(MarketError::Unavailable),
                ),
    {
        let ghost pg0 = self.pending_get@;
        let mut ws = take_waiters(&mut self.pending_get, &key);
        let ghost ws0 = ws@;
        proof {
            lemma_nonempty_sub(pg0, self.pending_get@, key@);
        }
        let mut acts: Vec<Action<HG, HP, HD>> = Vec::new();
        while ws.len() > 0
            invariant
                ws@ =~= ws0.skip(acts@.len() as int),
                acts@.len() <= ws0.len(),
                forall|i: int|
                    0 <= i < acts@.len() ==> is_reply_get(
                        #[trigger] acts@[i],
                        ws0[i],
                        Err(MarketError::Unavailable),
                    ),
            decreases ws@.len(),
        {
            let ghost n0 = acts@.len() as int;
            let h = ws.remove(0);
            acts.push(Action::ReplyGet { resp: h, result: Err(MarketError::Unavailable) });
            proof {
                assert(ws0.skip(n0)[0] == ws0[n0]);
                assert(ws@ =~= ws0.skip(n0 + 1));
            }
        }
        acts
    }

    /// A PUT completing: every waiter for `key` is woken with `Ok`.
    pub fn on_put_ok(&mut self, key: String) -> (acts: Vec<Action<HG, HP, HD>>)
        requires
            old(self).wf(),
        ensures
            final(self).wf(),
            final(self).store == old(self).store,
            final(self).pending_get == old(self).pending_get,
            final(self).pending_dial == old(self).pending_dial,
            !has_key(final(self).pending_put@, key@),
            forall|k2: Seq<char>|
                k2 != key@ ==> #[trigger] waiters(final(self).pending_put@, k2) == waiters(
                    old(self).pending_put@,
                    k2,
                ),
            acts@.len() == waiters(old(self).pending_put@, key@).len(),
            forall|i: int|
                0 <= i < acts@.len() ==> is_reply_put(
                    #[trigger] acts@[i],
                    waiters(old(self).pending_put@, key@)[i],
                    Ok(()),
                ),
    {
        let ghost pp0 = self.pending_put@;
        let mut ws = take_waiters(&mut self.pending_put, &key);
        let ghost ws0 = ws@;
        proof {
            lemma_nonempty_sub(pp0, self.pending_put@, key@);
        }
        let mut acts: Vec<Action<HG, HP, HD>> = Vec::new();
        while ws.len() > 0
            invariant
                ws@ =~= ws0.skip(acts@.len() as int),
                acts@.len() <= ws0.len(),
                forall|i: int|
                    0 <= i < acts@.len() ==> is_reply_put(#[trigger] acts@[i], ws0[i], Ok(())),
            decreases ws@.len(),
        {
            let ghost n0 = acts@.len() as int;
            let h = ws.remove(0);
            acts.push(Action::ReplyPut { resp: h, result: Ok(()) });
            proof {
                assert(ws0.skip(n0)[0] == ws0[n0]);
                assert(ws@ =~= ws0.skip(n0 + 1));
            }
        }
        acts
    }

    /// A PUT failing: every waiter for `key` is woken with `Err(Unknown)`.
    pub fn on_put_failed(&mut self, key: String) -> (acts: Vec<Action<HG, HP, HD>>)
        requires
            old(self).wf(),
        ensures
            final(self).wf(),
            final(self).store == old(self).store,
            final(self).pending_get == old(self).pending_get,
            final(self).pending_dial == old(self).pending_dial,
            !has_key(final(self).pending_put@, key@),
            forall|k2: Seq<char>|
                k2 != key@ ==> #[trigger] waiters(final(self).pending_put@, k2) == waiters(
                    old(self).pending_put@,
                    k2,
                ),
            acts@.len() == waiters(old(self).pending_put@, key@).len(),
            forall|i: int|
                0 <= i < acts@.len() ==> is_reply_put(
                    #[trigger] acts@[i],
                    waiters(old(self).pending_put@, key@)[i],
                    Err(MarketError::Unknown),
                ),
    {
        let ghost pp0 = self.pending_put@;
        let mut ws = take_waiters(&mut self.pending_put, &key);
        let ghost ws0 = ws@;
        proof {
            lemma_nonempty_sub(pp0, self.pending_put@, key@);
        }
        let mut acts: Vec<Action<HG, HP, HD>> = Vec::new();
        while ws.len() > 0
            invariant
                ws@ =~= ws0.skip(acts@.len() as int),
                acts@.len() <= ws0.len(),
                forall|i: int|
                    0 <= i < acts@.len() ==> is_reply_put(
                        #[trigger] acts@[i],
                        ws0[i],
                        Err(MarketError::Unknown),
                    ),
            decreases ws@.len(),
        {
            let ghost n0 = acts@.len() as int;
            let h = ws.remove(0);
            acts.push(Action::ReplyPut { resp: h, result: Err(MarketError::Unknown) });
            proof {
                assert(ws0.skip(n0)[0] == ws0[n0]);
                assert(ws@ =~= ws0.skip(n0 + 1));
            }
        }
        acts
    }
}

impl<HG, HP, HD> Actor<HG, HP, HD> {
    /// A `SetRequests` command: the actor decodes the value, stores the
    /// key-bound entries locally, registers the caller among the PUT waiters
    /// and issues a DHT PUT with quorum one. The validation policy is not run
    /// here: egress values come from the local RPC path. A value that does
    /// not decode is answered with `Internal` and stores nothing.
    pub fn on_set_requests(&mut self, key: String, val: String, resp: HP) -> (acts: Vec<
        Action<HG, HP, HD>,
    >)
        requires
            old(self).wf(),
        ensures
            final(self).wf(),
            final(self).pending_get == old(self).pending_get,
            final(self).pending_dial == old(self).pending_dial,
            match sp_decode(val@) {
                None => {
                    &&& final(self).store == old(self).store
                    &&& final(self).pending_put == old(self).pending_put
                    &&& acts@.len() == 1
                    &&& is_reply_put(acts@[0], resp, Err(MarketError::Internal))
                },
                Some(list) => {
                    &&& stored(final(self).store@, key@) == Some(bound_only(list, key@))
                    &&& (forall|k2: Seq<char>|
                        k2 != key@ ==> #[trigger] stored(final(self).store@, k2) == stored(
                            old(self).store@,
                            k2,
                        ))
                    &&& waiters(final(self).pending_put@, key@) == waiters(
                        old(self).pending_put@,
                        key@,
                    ).push(resp)
                    &&& (forall|k2: Seq<char>|
                        k2 != key@ ==> #[trigger] waiters(final(self).pending_put@, k2) == waiters(
                            old(self).pending_put@,
                            k2,
                        ))
                    &&& acts@.len() == 1
                    &&& is_issue_put(acts@[0], key@, enc_list(bound_only(list, key@)))
                    &&& (store_distinct(old(self).store@) && ids_distinct(list)
                        ==> store_distinct(final(self).store@))
                },
            },
    {
        let mut list = match decode_requests(val.as_str()) {
            Some(l) => l,
            None => {
                let mut acts: Vec<Action<HG, HP, HD>> = Vec::new();
                acts.push(Action::ReplyPut { resp, result: Err(MarketError::Internal) });
                return acts;
            },
        };
        let ghost l0 = list.deep_view();
        let mut pruned: Vec<FileRequest> = Vec::new();
        let ghost done: int = 0;
        while list.len() > 0
            invariant
                0 <= done <= l0.len(),
                list.deep_view() =~= l0.skip(done),
                pruned.deep_view() =~= bound_only(l0.take(done), key@),
            decreases list@.len(),
        {
            proof {
                assert(list.deep_view().len() == list@.len());
                assert(l0.skip(done).len() == l0.len() - done);
                assert(done < l0.len());
                assert(l0.take(done + 1).drop_last() =~= l0.take(done));
                assert(l0.take(done + 1).last() == l0[done]);
                assert(list.deep_view()[0] == l0.skip(done)[0]);
            }
            let ghost lv_before = list.deep_view();
            let e = list.remove(0);
            proof {
                assert(e@ == lv_before[0]);
                assert(e@ == l0[done]);
                assert(list@.len() == lv_before.len() - 1);
                assert(forall|w: int|
                    0 <= w < list@.len() ==> #[trigger] list.deep_view()[w] == lv_before[w + 1]);
            }
            if e.file_hash == key {
                pruned.push(e);
            }
            proof {
                done = done + 1;
                assert(list.deep_view() =~= l0.skip(done));
            }
        }
        proof {
            assert(done == l0.len());
            assert(l0.take(done) =~= l0);
        }
        let value = encode_requests(&pruned);
        proof {
            lemma_bound_only(l0, key@);
        }
        let ghost st0 = self.store@;
        let ghost prv = pruned.deep_view();
        store_put(&mut self.store, key.clone(), pruned);
        proof {
            lemma_store_bound_update(st0, self.store@, key@, prv);
            if store_distinct(st0) && ids_distinct(l0) {
                lemma_store_distinct_update(st0, self.store@, key@, prv);
            }
        }
        let ghost pp0 = self.pending_put@;
        push_waiter(&mut self.pending_put, key.clone(), resp);
        proof {
            assert forall|i: int| 0 <= i < self.pending_put@.len() implies (
            #[trigger] self.pending_put@[i].1@).len() > 0 by {
                let k = self.pending_put@[i].0@;
                lemma_key_index_is(self.pending_put@, k, i);
                if k == key@ {
                    assert(waiters(self.pending_put@, k).len() > 0);
                } else {
                    assert(waiters(self.pending_put@, k) == waiters(pp0, k));
                    assert(has_key(pp0, k));
                    lemma_key_index_is(pp0, k, key_index(pp0, k));
                }
            }
        }
        let mut acts: Vec<Action<HG, HP, HD>> = Vec::new();
        acts.push(Action::IssuePut { key, value });
        acts
    }

    /// A record arriving from another peer: it is decoded and held to the
    /// validation policy against the currently stored list; only an accepted
    /// record replaces the stored value. A value that is not text or does not
    /// decode is rejected.
    pub fn on_ingress_put(&mut self, key: String, value: Option<String>, now: u64) -> (accepted:
        bool)
        requires
            old(self).wf(),
        ensures
            final(self).wf(),
            final(self).pending_get == old(self).pending_get,
            final(self).pending_put == old(self).pending_put,
            final(self).pending_dial == old(self).pending_dial,
            accepted == (value is Some && sp_decode(value->0@) is Some && spec_valid_put(
                stored_or_empty(old(self).store@, key@),
                sp_decode(value->0@)->0,
                key@,
                now,
                EXPIRATION_OFFSET,
            )),
            accepted ==> {
                &&& stored(final(self).store@, key@) == Some(sp_decode(value->0@)->0)
                &&& (forall|k2: Seq<char>|
                    k2 != key@ ==> #[trigger] stored(final(self).store@, k2) == stored(
                        old(self).store@,
                        k2,
                    ))
                &&& within_window(sp_decode(value->0@)->0, now, EXPIRATION_OFFSET)
                &&& ids_distinct(sp_decode(value->0@)->0)
            },
            !accepted ==> final(self).store == old(self).store,
            store_distinct(old(self).store@) ==> store_distinct(final(self).store@),
    {
        let v = match &value {
            Some(v) => v,
            None => {
                return false;
            },
        };
        let list = match decode_requests(v.as_str()) {
            Some(l) => l,
            None => {
                return false;
            },
        };
        let ok = {
            let cur = store_get(&self.store, &key);
            proof {
                match cur {
                    Some(c) => {
                        assert(stored_or_empty(self.store@, key@) == c.deep_view());
                    },
                    None => {
                        assert(stored_or_empty(self.store@, key@) =~= Seq::<
                            FileRequestView,
                        >::empty());
                    },
                }
            }
            valid_put(cur, &list, &key, now, EXPIRATION_OFFSET)
        };
        if !ok {
            return false;
        }
        let ghost st0 = self.store@;
        let ghost lv = list.deep_view();
        store_put(&mut self.store, key, list);
        proof {
            lemma_store_bound_update(st0, self.store@, key@, lv);
            if store_distinct(st0) {
                lemma_store_distinct_update(st0, self.store@, key@, lv);
            }
        }
        true
    }

    /// A `Dial` command: at most one dial per peer is in flight. A fresh peer
    /// is registered and dialed; a peer already being dialed is ignored.
    pub fn on_dial(&mut self, peer_id: String, peer_addr: String, resp: HD) -> (acts: Vec<
        Action<HG, HP, HD>,
    >)
        requires
            old(self).wf(),
        ensures
            final(self).wf(),
            final(self).store == old(self).store,
            final(self).pending_get == old(self).pending_get,
            final(self).pending_put == old(self).pending_put,
            if has_key(old(self).pending_dial@, peer_id@) {
                final(self).pending_dial == old(self).pending_dial && acts@.len() == 0
            } else {
                &&& dial_entry(final(self).pending_dial@, peer_id@) == Some(resp)
                &&& (forall|k2: Seq<char>|
                    k2 != peer_id@ ==> #[trigger] dial_entry(final(self).pending_dial@, k2)
                        == dial_entry(old(self).pending_dial@, k2))
                &&& acts@.len() == 1
                &&& is_start_dial(acts@[0], peer_id@, peer_addr@)
            },
    {
        let mut acts: Vec<Action<HG, HP, HD>> = Vec::new();
        if find_idx(&self.pending_dial, &peer_id).is_some() {
            return acts;
        }
        insert_dial(&mut self.pending_dial, peer_id.clone(), resp);
        acts.push(Action::StartDial { peer_id, peer_addr });
        acts
    }

    /// An established outbound connection: the waiting dialer, if any, is
    /// answered with the peer id and unregistered.
    pub fn on_dial_ok(&mut self, peer_id: String) -> (acts: Vec<Action<HG, HP, HD>>)
        requires
            old(self).wf(),
        ensures
            final(self).wf(),
            final(self).store == old(self).store,
            final(self).pending_get == old(self).pending_get,
            final(self).pending_put == old(self).pending_put,
            !has_key(final(self).pending_dial@, peer_id@),
            forall|k2: Seq<char>|
                k2 != peer_id@ ==> #[trigger] dial_entry(final(self).pending_dial@, k2)
                    == dial_entry(old(self).pending_dial@, k2),
            match dial_entry(old(self).pending_dial@, peer_id@) {
                Some(h) => acts@.len() == 1 && is_reply_dial(acts@[0], h, Ok(peer_id@)),
                None => acts@.len() == 0,
            },
    {
        let mut acts: Vec<Action<HG, HP, HD>> = Vec::new();
        match take_dial(&mut self.pending_dial, &peer_id) {
            Some(h) => {
                acts.push(Action::ReplyDial { resp: h, result: Ok(peer_id) });
            },
            None => {},
        }
        acts
    }

    /// A failed outbound connection: the waiting dialer, if any, is answered
    /// with an error carrying the peer id and unregistered.
    pub fn on_dial_failed(&mut self, peer_id: String) -> (acts: Vec<Action<HG, HP, HD>>)
        requires
            old(self).wf(),
        ensures
            final(self).wf(),
            final(self).store == old(self).store,
            final(self).pending_get == old(self).pending_get,
            final(self).pending_put == old(self).pending_put,
            !has_key(final(self).pending_dial@, peer_id@),
            forall|k2: Seq<char>|
                k2 != peer_id@ ==> #[trigger] dial_entry(final(self).pending_dial@, k2)
                    == dial_entry(old(self).pending_dial@, k2),
            match dial_entry(old(self).pending_dial@, peer_id@) {
                Some(h) => acts@.len() == 1 && is_reply_dial(acts@[0], h, Err(peer_id@)),
                None => acts@.len() == 0,
            },
    {
        let mut acts: Vec<Action<HG, HP, HD>> = Vec::new();
        match take_dial(&mut self.pending_dial, &peer_id) {
            Some(h) => {
                acts.push(Action::ReplyDial { resp: h, result: Err(peer_id) });
            },
            None => {},
        }
        acts
    }
}

/// Replacing or adding one stored list that is bound to its key keeps the
/// whole store bound.
proof fn lemma_store_bound_update(
    m0: Seq<(String, Vec<FileRequest>)>,
    m1: Seq<(String, Vec<FileRequest>)>,
    key: Seq<char>,
    vv: Seq<FileRequestView>,
)
    requires
        keys_unique(m0),
        keys_unique(m1),
        store_bound(m0),
        stored(m1, key) == Some(vv),
        bound_to_key(vv, key),
        forall|k2: Seq<char>| k2 != key ==> #[trigger] stored(m1, k2) == stored(m0, k2),
    ensures
        store_bound(m1),
{
    assert forall|i: int| 0 <= i < m1.len() implies bound_to_key(
        #[trigger] m1[i].1.deep_view(),
        m1[i].0@,
    ) by {
        let k = m1[i].0@;
        lemma_key_index_is(m1, k, i);
        if k == key {
            assert(m1[i].1.deep_view() == vv);
        } else {
            assert(stored(m1, k) == stored(m0, k));
            assert(has_key(m0, k));
            let w = key_index(m0, k);
            assert(0 <= w < m0.len() && m0[w].0@ == k);
            assert(m1[i].1.deep_view() == m0[w].1.deep_view());
            assert(bound_to_key(m0[w].1.deep_view(), k));
        }
    }
}

/// Replacing or adding one stored list with distinct seller ids keeps every
/// stored list's ids distinct.
proof fn lemma_store_distinct_update(
    m0: Seq<(String, Vec<FileRequest>)>,
    m1: Seq<(String, Vec<FileRequest>)>,
    key: Seq<char>,
    vv: Seq<FileRequestView>,
)
    requires
        keys_unique(m0),
        keys_unique(m1),
        store_distinct(m0),
        stored(m1, key) == Some(vv),
        ids_distinct(vv),
        forall|k2: Seq<char>| k2 != key ==> #[trigger] stored(m1, k2) == stored(m0, k2),
    ensures
        store_distinct(m1),
{
    assert forall|i: int| 0 <= i < m1.len() implies ids_distinct(
        #[trigger] m1[i].1.deep_view(),
    ) by {
        let k = m1[i].0@;
        lemma_key_index_is(m1, k, i);
        if k == key {
            assert(m1[i].1.deep_view() == vv);
        } else {
            assert(stored(m1, k) == stored(m0, k));
            assert(has_key(m0, k));
            let w = key_index(m0, k);
            assert(0 <= w < m0.len() && m0[w].0@ == k);
            assert(m1[i].1.deep_view() == m0[w].1.deep_view());
            assert(ids_distinct(m0[w].1.deep_view()));
        }
    }
}

/// Fan-out, the issuing half: a table whose waiters for `key` are anyone's
/// sequence extended by a handle does hold the key, so a later `GetRequests`
/// for `key` (the query still in flight) issues no second DHT GET — see the
/// contract of `on_get_requests`. The delivering half is the contract of
/// `on_get_found`: one completion wakes every waiter with one and the same
/// result.
pub proof fn lemma_fanout_no_second_issue<H>(m: Seq<(String, Vec<H>)>, k: Seq<char>, prev: Seq<H>, h: H)
    requires
        waiters(m, k) == prev.push(h),
    ensures
        has_key(m, k),
{
    if !has_key(m, k) {
        assert(waiters(m, k).len() == 0);
        assert(prev.push(h).len() > 0);
    }
}

/// Key-value binding and no intra-list duplicates, as one statement over the
/// store: wherever the store is key-bound and id-distinct — binding is part
/// of the state invariant, and distinctness is preserved by every ingress PUT
/// and by every egress PUT whose list has distinct ids — every stored list is
/// well-formed under its key.
pub proof fn lemma_store_lists_wf(m: Seq<(String, Vec<FileRequest>)>, k: Seq<char>)
    requires
        keys_unique(m),
        store_bound(m),
        store_distinct(m),
        has_key(m, k),
    ensures
        stored(m, k) is Some,
        list_wf(stored(m, k)->0, k),
{
    let i = key_index(m, k);
    assert(0 <= i < m.len() && m[i].0@ == k);
    lemma_key_index_is(m, k, i);
}

/// Round trip through the store: a `SetRequests` for `key` stores — and its
/// DHT PUT carries — the caller's list restricted to the entries bound to
/// `key`, and decoding that value gives exactly that restriction back; a list
/// entirely bound to its key travels unchanged.
pub proof fn lemma_set_get_round_trip(l: Seq<FileRequestView>, key: Seq<char>)
    ensures
        sp_decode(enc_list(bound_only(l, key))) == Some(bound_only(l, key)),
        bound_to_key(l, key) ==> bound_only(l, key) == l,
{
    crate::codec::lemma_decode_encode(bound_only(l, key));
    lemma_bound_only(l, key);
}

/// The one result a found record yields for every waiter.
pub open spec fn found_result(value: Option<String>) -> Result<
    Option<Seq<FileRequestView>>,
    MarketError,
> {
    match value {
        None => Err(MarketError::Internal),
        Some(v) => match sp_decode(v@) {
            Some(l) => Ok(Some(l)),
            None => Err(MarketError::Internal),
        },
    }
}

/// Removing one key from a table with no empty entries leaves no empty
/// entries.
proof fn lemma_nonempty_sub<H>(m0: Seq<(String, Vec<H>)>, m1: Seq<(String, Vec<H>)>, key: Seq<char>)
    requires
        keys_unique(m0),
        keys_unique(m1),
        entries_nonempty(m0),
        forall|k2: Seq<char>| k2 != key ==> #[trigger] waiters(m1, k2) == waiters(m0, k2),
        forall|k2: Seq<char>| k2 != key ==> #[trigger] has_key(m1, k2) == has_key(m0, k2),
        !has_key(m1, key),
    ensures
        entries_nonempty(m1),
{
    assert forall|i: int| 0 <= i < m1.len() implies (#[trigger] m1[i].1@).len() > 0 by {
        let k = m1[i].0@;
        lemma_key_index_is(m1, k, i);
        assert(k != key);
        assert(waiters(m1, k) == waiters(m0, k));
        assert(has_key(m0, k));
        lemma_key_index_is(m0, k, key_index(m0, k));
    }
}

/// Removing the entry at `i` keeps the keys unique and every other key's
/// entry untouched; the removed key is gone.
proof fn lemma_remove_entry<V>(m0: Seq<(String, V)>, i: int)
    requires
        keys_unique(m0),
        0 <= i < m0.len(),
    ensures
        keys_unique(m0.remove(i)),
        !has_key(m0.remove(i), m0[i].0@),
        forall|k2: Seq<char>|
            k2 != m0[i].0@ ==> #[trigger] has_key(m0.remove(i), k2) == has_key(m0, k2),
        forall|k2: Seq<char>|
            k2 != m0[i].0@ && has_key(m0, k2) ==> #[trigger] m0.remove(i)[key_index(
                m0.remove(i),
                k2,
            )] == m0[key_index(m0, k2)],
{
    let m1 = m0.remove(i);
    assert(forall|w: int| 0 <= w < i ==> #[trigger] m1[w] == m0[w]);
    assert(forall|w: int| i <= w < m1.len() ==> #[trigger] m1[w] == m0[w + 1]);
    assert(forall|w: int| 0 <= w < m1.len() ==> #[trigger] m1[w].0@ != m0[i].0@);
    assert(keys_unique(m1));
    assert forall|k2: Seq<char>| k2 != m0[i].0@ implies #[trigger] has_key(m1, k2) == has_key(
        m0,
        k2,
    ) by {
        if has_key(m1, k2) {
            let w = key_index(m1, k2);
            assert(0 <= w < m1.len() && m1[w].0@ == k2);
            if w < i {
                assert(m0[w].0@ == k2);
            } else {
                assert(m0[w + 1].0@ == k2);
            }
        }
        if has_key(m0, k2) {
            let w = choose|w: int| 0 <= w < m0.len() && #[trigger] m0[w].0@ == k2;
            assert(w != i);
            if w < i {
                assert(m1[w].0@ == k2);
            } else {
                assert(m1[w - 1].0@ == k2);
            }
        }
    }
    assert forall|k2: Seq<char>| k2 != m0[i].0@ && has_key(m0, k2) implies #[trigger] m1[key_index(
        m1,
        k2,
    )] == m0[key_index(m0, k2)] by {
        let w0 = key_index(m0, k2);
        assert(0 <= w0 < m0.len() && m0[w0].0@ == k2);
        assert(w0 != i);
        if w0 < i {
            assert(m1[w0] == m0[w0]);
            lemma_key_index_is(m1, k2, w0);
        } else {
            assert(m1[w0 - 1] == m0[w0]);
            lemma_key_index_is(m1, k2, w0 - 1);
        }
        lemma_key_index_is(m0, k2, w0);
    }
}

} // verus!
