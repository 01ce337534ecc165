//! The data model: sellers, advertisements, and the well-formedness
//! predicates that the store and the validation policy are stated over.

use vstd::prelude::*;
use crate::EXPIRATION_OFFSET;

verus! {

/// One seller's identity and contact information, as carried inside every
/// advertisement. `id` is the uniqueness key within one advertisement list.
#[derive(Debug)]
pub struct User {
    pub id: String,
    pub name: String,
    pub ip: String,
    pub port: u32,
    pub price: u64,
}

/// Mathematical model of a `User`: the same fields, strings as sequences of
/// characters.
pub ghost struct UserView {
    pub id: Seq<char>,
    pub name: Seq<char>,
    pub ip: Seq<char>,
    pub port: u32,
    pub price: u64,
}

impl View for User {
    type V = UserView;

    open spec fn view(&self) -> UserView {
        UserView {
            id: self.id@,
            name: self.name@,
            ip: self.ip@,
            port: self.port,
            price: self.price,
        }
    }
}

impl DeepView for User {
    type V = UserView;

    open spec fn deep_view(&self) -> UserView {
        self@
    }
}

impl Clone for User {
    fn clone(&self) -> (r: Self)
        ensures
            r == *self,
    {
        User {
            id: self.id.clone(),
            name: self.name.clone(),
            ip: self.ip.clone(),
            port: self.port,
            price: self.price,
        }
    }
}

/// One seller's offer to serve a file: the unit stored (in lists) under a key
/// of the distributed hash table. `expiration` is an absolute epoch-seconds
/// deadline.
#[derive(Debug)]
pub struct FileRequest {
    pub user: User,
    pub file_hash: String,
    pub expiration: u64,
}

/// Mathematical model of a `FileRequest`.
pub ghost struct FileRequestView {
    pub user: UserView,
    pub file_hash: Seq<char>,
    pub expiration: u64,
}

impl View for FileRequest {
    type V = FileRequestView;

    open spec fn view(&self) -> FileRequestView {
        FileRequestView { user: self.user@, file_hash: self.file_hash@, expiration: self.expiration }
    }
}

impl DeepView for FileRequest {
    type V = FileRequestView;

    open spec fn deep_view(&self) -> FileRequestView {
        self@
    }
}

impl Clone for FileRequest {
    fn clone(&self) -> (r: Self)
        ensures
            r == *self,
    {
        FileRequest {
            user: self.user.clone(),
            file_hash: self.file_hash.clone(),
            expiration: self.expiration,
        }
    }
}

/// The error kinds that the library surfaces to callers of the client handle
/// and of the local RPC operations.
#[derive(Clone, Copy, Debug, PartialEq, Eq, Structural)]
pub enum MarketError {
    /// An RPC payload missed a required field (an absent `user`).
    InvalidArgument,
    /// A GET failed for network reasons other than the record not existing.
    Unavailable,
    /// A PUT failed (quorum not reached, timeout, and the like).
    Unknown,
    /// A record fetched by an outbound request could not be decoded.
    Internal,
    /// The client handle was used after the actor exited.
    ActorStopped,
}

/// The error kinds that abort process start-up.
#[derive(Clone, Copy, Debug, PartialEq, Eq, Structural)]
pub enum ConfigError {
    /// A bootstrap multiaddr does not terminate in a peer id component.
    InvalidBootstrap,
    /// The RPC port is below 1024.
    InvalidPort,
    /// Bootstrap peers were listed but none was dialable in time.
    BootstrapFailed,
}

/// Within one list, `user.id` values are pairwise distinct.
pub open spec fn ids_distinct(l: Seq<FileRequestView>) -> bool {
    forall|i: int, j: int| 0 <= i < j < l.len() ==> l[i].user.id != l[j].user.id
}

/// Every advertisement in the list is stored under its own file hash.
pub open spec fn bound_to_key(l: Seq<FileRequestView>, key: Seq<char>) -> bool {
    forall|i: int| 0 <= i < l.len() ==> l[i].file_hash == key
}

/// Every expiration lies inside the acceptance window around `now`.
pub open spec fn within_window(l: Seq<FileRequestView>, now: u64, window: u64) -> bool {
    forall|i: int| 0 <= i < l.len() ==> now <= #[trigger] l[i].expiration <= now + window
}

/// The invariant of a list stored under `key`: distinct seller ids, and every
/// advertisement bound to `key`.
pub open spec fn list_wf(l: Seq<FileRequestView>, key: Seq<char>) -> bool {
    ids_distinct(l) && bound_to_key(l, key)
}

impl FileRequest {
    /// Builds the advertisement that a `register_file` call stores: the
    /// expiration is the time of the call plus the expiration window. An
    /// absent user is the one rejected payload.
    pub fn from_registration(user: Option<User>, file_hash: String, now: u64) -> (r: Result<
        FileRequest,
        MarketError,
    >)
        requires
            now + EXPIRATION_OFFSET <= u64::MAX,
        ensures
            match r {
                Ok(fr) => {
                    &&& user is Some
                    &&& fr@ == (FileRequestView {
                        user: user->0@,
                        file_hash: file_hash@,
                        expiration: (now + EXPIRATION_OFFSET) as u64,
                    })
                },
                Err(e) => user is None && e == MarketError::InvalidArgument,
            },
    {
        match user {
            Some(u) => Ok(FileRequest {
                user: u,
                file_hash,
                expiration: now + EXPIRATION_OFFSET,
            }),
            None => Err(MarketError::InvalidArgument),
        }
    }
}

} // verus!
