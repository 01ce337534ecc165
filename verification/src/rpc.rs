//! The market operations behind the two RPC methods: composing the new
//! advertisement list on a registration, and pruning expired entries on a
//! holders query. Both are pure; the surrounding transport performs the DHT
//! reads and writes.

use vstd::prelude::*;
use crate::data::{
    bound_to_key, ids_distinct, FileRequest, FileRequestView, MarketError, User, UserView,
};
use crate::EXPIRATION_OFFSET;

verus! {

/// The stored entries that survive a registration by the seller `id` at time
/// `now`: entries of other sellers that have not yet expired, in stored order.
pub open spec fn keep_live_others(
    cur: Seq<FileRequestView>,
    id: Seq<char>,
    now: u64,
) -> Seq<FileRequestView>
    decreases cur.len(),
{
    if cur.len() == 0 {
        Seq::empty()
    } else {
        let init = keep_live_others(cur.drop_last(), id, now);
        let last = cur.last();
        if last.expiration >= now && last.user.id != id {
            init.push(last)
        } else {
            init
        }
    }
}

/// The entries still live strictly after `now`, in stored order.
pub open spec fn live(cur: Seq<FileRequestView>, now: u64) -> Seq<FileRequestView>
    decreases cur.len(),
{
    if cur.len() == 0 {
        Seq::empty()
    } else {
        let init = live(cur.drop_last(), now);
        let last = cur.last();
        if last.expiration > now {
            init.push(last)
        } else {
            init
        }
    }
}

/// The sellers of a list, in list order.
pub open spec fn users_of(l: Seq<FileRequestView>) -> Seq<UserView> {
    l.map_values(|a: FileRequestView| a.user)
}

/// Every survivor of `keep_live_others` is a stored entry of another live
/// seller, and distinct seller ids stay distinct.
pub proof fn lemma_keep_live_others(cur: Seq<FileRequestView>, id: Seq<char>, now: u64)
    ensures
        forall|k: int|
            0 <= k < keep_live_others(cur, id, now).len() ==> {
                let e = #[trigger] keep_live_others(cur, id, now)[k];
                &&& e.user.id != id
                &&& e.expiration >= now
                &&& exists|i: int| 0 <= i < cur.len() && e == cur[i]
            },
        ids_distinct(cur) ==> ids_distinct(keep_live_others(cur, id, now)),
    decreases cur.len(),
{
    if cur.len() > 0 {
        lemma_keep_live_others(cur.drop_last(), id, now);
        assert(forall|i: int|
            0 <= i < cur.drop_last().len() ==> #[trigger] cur.drop_last()[i] == cur[i]);
        if ids_distinct(cur) {
            assert(ids_distinct(cur.drop_last()));
            let kl = keep_live_others(cur, id, now);
            let init = keep_live_others(cur.drop_last(), id, now);
            let last = cur.last();
            if last.expiration >= now && last.user.id != id {
                assert forall|i: int, j: int| 0 <= i < j < kl.len() implies kl[i].user.id
                    != kl[j].user.id by {
                    if j == kl.len() - 1 {
                        let w = choose|w: int|
                            0 <= w < cur.drop_last().len() && init[i] == cur.drop_last()[w];
                        assert(cur[w].user.id != cur[cur.len() - 1].user.id);
                    }
                }
            }
        }
    }
}

/// Every survivor of `live` is a stored entry that expires after `now`, and
/// distinct seller ids stay distinct.
pub proof fn lemma_live(cur: Seq<FileRequestView>, now: u64)
    ensures
        forall|k: int|
            0 <= k < live(cur, now).len() ==> {
                let e = #[trigger] live(cur, now)[k];
                &&& e.expiration > now
                &&& exists|i: int| 0 <= i < cur.len() && e == cur[i]
            },
        ids_distinct(cur) ==> ids_distinct(live(cur, now)),
    decreases cur.len(),
{
    if cur.len() > 0 {
        lemma_live(cur.drop_last(), now);
        assert(forall|i: int|
            0 <= i < cur.drop_last().len() ==> #[trigger] cur.drop_last()[i] == cur[i]);
        if ids_distinct(cur) {
            assert(ids_distinct(cur.drop_last()));
            let kl = live(cur, now);
            let init = live(cur.drop_last(), now);
            let last = cur.last();
            if last.expiration > now {
                assert forall|i: int, j: int| 0 <= i < j < kl.len() implies kl[i].user.id
                    != kl[j].user.id by {
                    if j == kl.len() - 1 {
                        let w = choose|w: int|
                            0 <= w < cur.drop_last().len() && init[i] == cur.drop_last()[w];
                        assert(cur[w].user.id != cur[cur.len() - 1].user.id);
                    }
                }
            }
        }
    }
}

/// The list stored by a registration: live entries of other sellers, with the
/// fresh advertisement appended.
pub open spec fn spec_register(
    cur: Seq<FileRequestView>,
    u: UserView,
    file_hash: Seq<char>,
    now: u64,
) -> Seq<FileRequestView> {
    keep_live_others(cur, u.id, now).push(
        FileRequestView { user: u, file_hash, expiration: (now + EXPIRATION_OFFSET) as u64 },
    )
}

/// The local RPC path composes well-formed lists: a registration under key
/// `file_hash` keeps seller ids pairwise distinct and keeps every entry bound
/// to the key, provided the stored list it starts from was.
pub proof fn lemma_register_wf(
    cur: Seq<FileRequestView>,
    u: UserView,
    file_hash: Seq<char>,
    now: u64,
)
    ensures
        ids_distinct(cur) ==> ids_distinct(spec_register(cur, u, file_hash, now)),
        bound_to_key(cur, file_hash) ==> bound_to_key(spec_register(cur, u, file_hash, now), file_hash),
{
    lemma_keep_live_others(cur, u.id, now);
    let kl = keep_live_others(cur, u.id, now);
    let out = spec_register(cur, u, file_hash, now);
    if ids_distinct(cur) {
        assert forall|i: int, j: int| 0 <= i < j < out.len() implies out[i].user.id
            != out[j].user.id by {
            if j == out.len() - 1 {
                assert(kl[i].user.id != u.id);
            }
        }
    }
    if bound_to_key(cur, file_hash) {
        assert forall|i: int| 0 <= i < out.len() implies out[i].file_hash == file_hash by {
            if i < kl.len() {
                let w = choose|w: int| 0 <= w < cur.len() && kl[i] == cur[w];
                assert(cur[w].file_hash == file_hash);
            }
        }
    }
}

/// Serves `register_file`: drops the caller's own earlier entry and every
/// expired entry from the stored list, appends a fresh advertisement expiring
/// one window from `now`, and returns the list to store. An absent `user` is
/// the one rejected payload.
#[verifier::loop_isolation(false)]
pub fn register_file(
    current: Option<Vec<FileRequest>>,
    user: Option<User>,
    file_hash: String,
    now: u64,
) -> (r: Result<Vec<FileRequest>, MarketError>)
    requires
        now + EXPIRATION_OFFSET <= u64::MAX,
    ensures
        match r {
            Ok(v) => {
                &&& user is Some
                &&& v.deep_view() == spec_register(
                    match current {
                        Some(c) => c.deep_view(),
                        None => Seq::<FileRequestView>::empty(),
                    },
                    user->0@,
                    file_hash@,
                    now,
                )
            },
            Err(e) => user is None && e == MarketError::InvalidArgument,
        },
{
    let fr = match FileRequest::from_registration(user, file_hash, now) {
        Ok(fr) => fr,
        Err(e) => {
            return Err(e);
        },
    };
    let cur_list: Vec<FileRequest> = match current {
        Some(c) => c,
        None => Vec::new(),
    };
    let ghost cur: Seq<FileRequestView> = cur_list.deep_view();
    proof {
        assert(forall|k: int| 0 <= k < cur_list@.len() ==> #[trigger] cur[k] == cur_list@[k]@);
    }
    let mut out: Vec<FileRequest> = Vec::new();
    let mut i: usize = 0;
    while i < cur_list.len()
        invariant
            i <= cur_list.len(),
            out.deep_view() =~= keep_live_others(cur.take(i as int), fr@.user.id, now),
        decreases cur_list.len() - i,
    {
        proof {
            assert(cur.take(i + 1).drop_last() =~= cur.take(i as int));
            assert(cur.take(i + 1).last() == cur[i as int]);
        }
        if cur_list[i].expiration >= now && !(cur_list[i].user.id == fr.user.id) {
            out.push(cur_list[i].clone());
        }
        i += 1;
    }
    proof {
        assert(cur.take(cur.len() as int) =~= cur);
    }
    out.push(fr);
    Ok(out)
}

/// Serves `check_holders`: returns the stored list with every entry expiring
/// at or before `now` removed, and the sellers of the surviving entries in
/// stored order.
#[verifier::loop_isolation(false)]
pub fn check_holders(current: Option<Vec<FileRequest>>, now: u64) -> (r: (
    Vec<FileRequest>,
    Vec<User>,
))
    ensures
        r.0.deep_view() == live(
            match current {
                Some(c) => c.deep_view(),
                None => Seq::<FileRequestView>::empty(),
            },
            now,
        ),
        r.1.deep_view() == users_of(r.0.deep_view()),
{
    let cur_list: Vec<FileRequest> = match current {
        Some(c) => c,
        None => Vec::new(),
    };
    let ghost cur: Seq<FileRequestView> = cur_list.deep_view();
    proof {
        assert(forall|k: int| 0 <= k < cur_list@.len() ==> #[trigger] cur[k] == cur_list@[k]@);
    }
    let mut kept: Vec<FileRequest> = Vec::new();
    let mut users: Vec<User> = Vec::new();
    let mut i: usize = 0;
    while i < cur_list.len()
        invariant
            i <= cur_list.len(),
            kept.deep_view() =~= live(cur.take(i as int), now),
            users.deep_view() =~= users_of(kept.deep_view()),
        decreases cur_list.len() - i,
    {
        proof {
            assert(cur.take(i + 1).drop_last() =~= cur.take(i as int));
            assert(cur.take(i + 1).last() == cur[i as int]);
        }
        if cur_list[i].expiration > now {
            let ghost kd0 = kept.deep_view();
            let ghost ud0 = users.deep_view();
            kept.push(cur_list[i].clone());
            users.push(cur_list[i].user.clone());
            proof {
                assert(kept.deep_view() =~= kd0.push(cur[i as int]));
                assert(users.deep_view() =~= ud0.push(cur[i as int].user));
                assert(users_of(kd0.push(cur[i as int])) =~= users_of(kd0).push(
                    cur[i as int].user,
                ));
            }
        }
        i += 1;
    }
    proof {
        assert(cur.take(cur.len() as int) =~= cur);
    }
    (kept, users)
}

/// Whether the entry at index `i` survives deduplication at time `now`: it has
/// not expired, and no other unexpired entry of the same seller expires later
/// or ties while standing earlier in the list.
pub open spec fn selected(l: Seq<FileRequestView>, now: u64, i: int) -> bool {
    &&& l[i].expiration >= now
    &&& forall|j: int|
        0 <= j < l.len() && j != i && #[trigger] l[j].user.id == l[i].user.id && l[j].expiration
            >= now ==> (l[j].expiration < l[i].expiration || (l[j].expiration == l[i].expiration
            && j > i))
}

/// The surviving entries among the first `n`, in list order.
pub open spec fn selected_prefix(l: Seq<FileRequestView>, now: u64, n: int) -> Seq<
    FileRequestView,
>
    decreases n,
{
    if n <= 0 {
        Seq::empty()
    } else if selected(l, now, n - 1) {
        selected_prefix(l, now, n - 1).push(l[n - 1])
    } else {
        selected_prefix(l, now, n - 1)
    }
}

/// The deduplicated holder list: for each seller with an unexpired entry,
/// exactly the entry with the latest expiration, earliest-first on ties, in
/// list order of the survivors.
pub open spec fn spec_validate_holders(l: Seq<FileRequestView>, now: u64) -> Seq<
    FileRequestView,
> {
    selected_prefix(l, now, l.len() as int)
}

/// Removes expired and duplicated holders: of all unexpired entries sharing a
/// seller id, only the one with the latest expiration survives, the earliest
/// such entry on a tie.
#[verifier::loop_isolation(false)]
pub fn validate_holders(holders: &Vec<FileRequest>, now: u64) -> (r: Vec<FileRequest>)
    ensures
        r.deep_view() == spec_validate_holders(holders.deep_view(), now),
{
    let ghost l = holders.deep_view();
    proof {
        assert(forall|k: int| 0 <= k < holders@.len() ==> #[trigger] l[k] == holders@[k]@);
    }
    let mut out: Vec<FileRequest> = Vec::new();
    let mut i: usize = 0;
    while i < holders.len()
        invariant
            i <= holders.len(),
            out.deep_view() =~= selected_prefix(l, now, i as int),
        decreases holders.len() - i,
    {
        let mut keep: bool = holders[i].expiration >= now;
        let mut j: usize = 0;
        while j < holders.len()
            invariant
                j <= holders.len(),
                i < holders.len(),
                keep ==> l[i as int].expiration >= now && forall|k: int|
                    0 <= k < j && k != i && #[trigger] l[k].user.id == l[i as int].user.id
                        && l[k].expiration >= now ==> (l[k].expiration < l[i as int].expiration || (
                    l[k].expiration == l[i as int].expiration && k > i)),
                !keep ==> !selected(l, now, i as int),
            decreases holders.len() - j,
        {
            if j != i && holders[j].user.id == holders[i].user.id && holders[j].expiration >= now {
                if holders[j].expiration > holders[i].expiration || (holders[j].expiration
                    == holders[i].expiration && j < i) {
                    proof {
                        assert(l[j as int].user.id == l[i as int].user.id);
                        assert(!selected(l, now, i as int));
                    }
                    keep = false;
                }
            }
            j += 1;
        }
        if keep {
            proof {
                assert(selected(l, now, i as int));
            }
            out.push(holders[i].clone());
        }
        i += 1;
    }
    out
}

} // verus!

