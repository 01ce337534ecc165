//! The validation policy: the pure rule that decides whether a record arriving
//! from another peer may replace the currently stored advertisement list.

use vstd::prelude::*;
use crate::data::{
    bound_to_key, ids_distinct, within_window, FileRequest, FileRequestView,
};

verus! {

/// Rule of monotonic expirations: wherever a seller id occurs in both lists,
/// the proposed expiration is no earlier than the stored one. A malicious peer
/// cannot shorten someone else's advertisement.
pub open spec fn expirations_monotonic(
    current: Seq<FileRequestView>,
    proposed: Seq<FileRequestView>,
) -> bool {
    forall|i: int, j: int|
        0 <= i < current.len() && 0 <= j < proposed.len() && #[trigger] current[i].user.id
            == #[trigger] proposed[j].user.id ==> proposed[j].expiration >= current[i].expiration
}

/// Rule against silent deletion: every stored entry that is still live at
/// `now` keeps an entry under its seller id in the proposed list.
pub open spec fn no_silent_deletion(
    current: Seq<FileRequestView>,
    proposed: Seq<FileRequestView>,
    now: u64,
) -> bool {
    forall|i: int|
        0 <= i < current.len() && #[trigger] current[i].expiration >= now ==> exists|j: int|
            0 <= j < proposed.len() && #[trigger] proposed[j].user.id == current[i].user.id
}

/// The validation policy on an ingress PUT: the proposed list may replace the
/// stored one exactly when every expiration lies inside the window around
/// `now`, every entry is bound to the key, seller ids are pairwise distinct,
/// no expiration of a returning seller moves backwards, and no live entry is
/// dropped.
pub open spec fn spec_valid_put(
    current: Seq<FileRequestView>,
    proposed: Seq<FileRequestView>,
    key: Seq<char>,
    now: u64,
    window: u64,
) -> bool {
    &&& within_window(proposed, now, window)
    &&& bound_to_key(proposed, key)
    &&& ids_distinct(proposed)
    &&& expirations_monotonic(current, proposed)
    &&& no_silent_deletion(current, proposed, now)
}

/// Decides whether the proposed replacement for the value stored under `key`
/// is acceptable, at time `now` and with the given expiration window. The
/// absent stored value is the empty list.
#[verifier::loop_isolation(false)]
pub fn valid_put(
    current: Option<&Vec<FileRequest>>,
    proposed: &Vec<FileRequest>,
    key: &String,
    now: u64,
    window: u64,
) -> (r: bool)
    ensures
        r == spec_valid_put(
            match current {
                Some(c) => c.deep_view(),
                None => Seq::<FileRequestView>::empty(),
            },
            proposed.deep_view(),
            key@,
            now,
            window,
        ),
{
    let ghost cur: Seq<FileRequestView> = match current {
        Some(c) => c.deep_view(),
        None => Seq::<FileRequestView>::empty(),
    };
    let ghost dv: Seq<FileRequestView> = proposed.deep_view();
    let empty_current: Vec<FileRequest> = Vec::new();
    let cur_list: &Vec<FileRequest> = match current {
        Some(c) => c,
        None => &empty_current,
    };
    proof {
        assert(cur =~= cur_list.deep_view());
        assert(forall|k: int| 0 <= k < proposed@.len() ==> #[trigger] dv[k] == proposed@[k]@);
        assert(forall|k: int|
            0 <= k < cur_list@.len() ==> #[trigger] cur[k] == cur_list@[k]@);
    }

    // Expirations inside the window, and every entry bound to the key.
    let mut j: usize = 0;
    while j < proposed.len()
        invariant
            j <= proposed.len(),
            forall|k: int|
                0 <= k < j ==> now <= #[trigger] proposed.deep_view()[k].expiration <= now
                    + window,
            forall|k: int| 0 <= k < j ==> #[trigger] proposed.deep_view()[k].file_hash == key@,
        decreases proposed.len() - j,
    {
        let exp = proposed[j].expiration;
        if exp < now || exp - now > window {
            proof {
                assert(dv[j as int].expiration == exp);
                assert(!within_window(dv, now, window));
            }
            return false;
        }
        if !(proposed[j].file_hash == *key) {
            proof {
                assert(dv[j as int].file_hash != key@);
                assert(!bound_to_key(dv, key@));
            }
            return false;
        }
        j += 1;
    }

    // Seller ids pairwise distinct.
    let mut a: usize = 0;
    while a < proposed.len()
        invariant
            a <= proposed.len(),
            forall|i: int, k: int|
                0 <= i < k < proposed.len() && i < a ==> #[trigger] proposed.deep_view()[i].user.id
                    != #[trigger] proposed.deep_view()[k].user.id,
        decreases proposed.len() - a,
    {
        let mut b: usize = a + 1;
        while b < proposed.len()
            invariant
                a < b || b == a + 1,
                a + 1 <= b <= proposed.len(),
                a < proposed.len(),
                forall|k: int|
                    a < k < b ==> #[trigger] proposed.deep_view()[k].user.id
                        != proposed.deep_view()[a as int].user.id,
            decreases proposed.len() - b,
        {
            if proposed[a].user.id == proposed[b].user.id {
                proof {
                    assert(dv[a as int].user.id == dv[b as int].user.id);
                    assert(!ids_distinct(dv));
                }
                return false;
            }
            proof {
                assert(dv[b as int].user.id != dv[a as int].user.id);
            }
            b += 1;
        }
        a += 1;
    }

    // Returning sellers keep or extend their expiration, and live entries are
    // not dropped.
    let mut i: usize = 0;
    while i < cur_list.len()
        invariant
            i <= cur_list.len(),
            cur =~= cur_list.deep_view(),
            forall|x: int, y: int|
                0 <= x < i && 0 <= y < proposed.len() && #[trigger] cur[x].user.id
                    == #[trigger] proposed.deep_view()[y].user.id
                    ==> proposed.deep_view()[y].expiration >= cur[x].expiration,
            forall|x: int|
                0 <= x < i && #[trigger] cur[x].expiration >= now ==> exists|y: int|
                    0 <= y < proposed.len() && #[trigger] proposed.deep_view()[y].user.id
                        == cur[x].user.id,
        decreases cur_list.len() - i,
    {
        let mut y: usize = 0;
        let mut found: bool = false;
        while y < proposed.len()
            invariant
                y <= proposed.len(),
                i < cur_list.len(),
                cur =~= cur_list.deep_view(),
                forall|k: int|
                    0 <= k < y && #[trigger] proposed.deep_view()[k].user.id == cur[i as int].user.id
                        ==> proposed.deep_view()[k].expiration >= cur[i as int].expiration,
                found == exists|k: int|
                    0 <= k < y && #[trigger] proposed.deep_view()[k].user.id
                        == cur[i as int].user.id,
            decreases proposed.len() - y,
        {
            if proposed[y].user.id == cur_list[i].user.id {
                if proposed[y].expiration < cur_list[i].expiration {
                    proof {
                        assert(cur[i as int].user.id == dv[y as int].user.id);
                        assert(dv[y as int].expiration < cur[i as int].expiration);
                        assert(!expirations_monotonic(cur, dv));
                    }
                    return false;
                }
                found = true;
                proof {
                    assert(dv[y as int].user.id == cur[i as int].user.id);
                }
            } else {
                proof {
                    assert(dv[y as int].user.id != cur[i as int].user.id);
                }
            }
            y += 1;
        }
        if !found && cur_list[i].expiration >= now {
            proof {
                assert(cur[i as int].expiration >= now);
                assert(!(exists|k: int|
                    0 <= k < dv.len() && #[trigger] dv[k].user.id == cur[i as int].user.id));
                assert(!no_silent_deletion(cur, dv, now));
            }
            return false;
        }
        i += 1;
    }

    true
}

/// Key-value binding: a list accepted by the policy is entirely bound to the
/// key it is stored under.
pub proof fn lemma_accepted_bound_to_key(
    current: Seq<FileRequestView>,
    proposed: Seq<FileRequestView>,
    key: Seq<char>,
    now: u64,
    window: u64,
)
    requires
        spec_valid_put(current, proposed, key, now, window),
    ensures
        bound_to_key(proposed, key),
{
}

/// No intra-list duplicates: a list accepted by the policy has pairwise
/// distinct seller ids.
pub proof fn lemma_accepted_ids_distinct(
    current: Seq<FileRequestView>,
    proposed: Seq<FileRequestView>,
    key: Seq<char>,
    now: u64,
    window: u64,
)
    requires
        spec_valid_put(current, proposed, key, now, window),
    ensures
        ids_distinct(proposed),
{
}

/// Expiration bound: every advertisement accepted at time `now` expires no
/// earlier than `now` and no later than `now` plus the window.
pub proof fn lemma_accepted_within_window(
    current: Seq<FileRequestView>,
    proposed: Seq<FileRequestView>,
    key: Seq<char>,
    now: u64,
    window: u64,
)
    requires
        spec_valid_put(current, proposed, key, now, window),
    ensures
        within_window(proposed, now, window),
{
}

/// No silent deletion: a stored entry still live at `now` is superseded, in
/// any accepted replacement, by an entry under the same seller id whose
/// expiration is at least as late.
pub proof fn lemma_no_silent_deletion(
    current: Seq<FileRequestView>,
    proposed: Seq<FileRequestView>,
    key: Seq<char>,
    now: u64,
    window: u64,
    i: int,
)
    requires
        spec_valid_put(current, proposed, key, now, window),
        0 <= i < current.len(),
        current[i].expiration >= now,
    ensures
        exists|j: int|
            0 <= j < proposed.len() && #[trigger] proposed[j].user.id == current[i].user.id
                && proposed[j].expiration >= current[i].expiration,
{
    assert(exists|j: int|
        0 <= j < proposed.len() && #[trigger] proposed[j].user.id == current[i].user.id);
    let j = choose|j: int|
        0 <= j < proposed.len() && #[trigger] proposed[j].user.id == current[i].user.id;
    assert(proposed[j].expiration >= current[i].expiration);
}

} // verus!

