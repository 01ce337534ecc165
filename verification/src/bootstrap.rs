//! Start-up decisions: validating the configuration, planning the bootstrap
//! dials, and judging their outcome. The dials themselves, and the timeout
//! that races them, are performed by the surrounding runtime; every decision
//! in between is a function here.

use vstd::prelude::*;
use crate::data::ConfigError;

verus! {

/// What the bootstrap wait has seen so far: how many dial results are still
/// owed, and whether any dial succeeded.
pub struct BootstrapWait {
    pub remaining: usize,
    pub connected: bool,
}

/// One observation while waiting for the bootstrap dials.
pub enum BootstrapEvent {
    /// A dial finished, well or badly.
    DialResult { ok: bool },
    /// The time limit ran out first.
    TimedOut,
    /// The dial reply channel closed before all results arrived.
    ChannelClosed,
}

/// What to do after an observation.
pub enum BootstrapOutcome {
    /// Keep waiting for more dial results.
    KeepWaiting,
    /// Joined the network: at least one bootstrap peer was dialed.
    Succeeded,
    /// Bootstrap failed; start-up aborts.
    Failed,
}

/// The RPC port must leave the well-known range.
pub fn validate_port(port: u16) -> (r: Result<(), ConfigError>)
    ensures
        r is Ok <==> port >= 1024,
        r is Err ==> r->Err_0 == ConfigError::InvalidPort,
{
    if port < 1024 {
        Err(ConfigError::InvalidPort)
    } else {
        Ok(())
    }
}

/// Plans the bootstrap dials: each bootstrap address must carry a peer id
/// (`None` marks one that does not); the peers are dialed in list order.
/// A missing peer id is a configuration error.
#[verifier::loop_isolation(false)]
pub fn bootstrap_plan(peer_ids: &Vec<Option<String>>) -> (r: Result<Vec<String>, ConfigError>)
    ensures
        match r {
            Ok(v) => {
                &&& v@.len() == peer_ids@.len()
                &&& forall|i: int|
                    0 <= i < v@.len() ==> (#[trigger] peer_ids@[i]) is Some && v@[i]@
                        == peer_ids@[i]->0@
            },
            Err(e) => e == ConfigError::InvalidBootstrap && exists|i: int|
                0 <= i < peer_ids@.len() && #[trigger] peer_ids@[i] is None,
        },
{
    let mut out: Vec<String> = Vec::new();
    let mut i: usize = 0;
    while i < peer_ids.len()
        invariant
            i <= peer_ids@.len(),
            out@.len() == i,
            forall|w: int|
                0 <= w < i ==> (#[trigger] peer_ids@[w]) is Some && out@[w]@ == peer_ids@[w]->0@,
        decreases peer_ids@.len() - i,
    {
        match &peer_ids[i] {
            Some(p) => {
                out.push(p.clone());
                proof {
                    assert(peer_ids@[i as int] is Some);
                    assert(out@[i as int]@ == peer_ids@[i as int]->0@);
                }
            },
            None => {
                return Err(ConfigError::InvalidBootstrap);
            },
        }
        i += 1;
    }
    Ok(out)
}

/// One step of the bootstrap wait. A dial result is counted, and success is
/// judged once all owed results arrived; the timeout judges early with what
/// was seen; a closed channel fails outright.
pub fn bootstrap_step(st: BootstrapWait, ev: &BootstrapEvent) -> (r: (
    BootstrapWait,
    BootstrapOutcome,
))
    requires
        ev is DialResult ==> st.remaining > 0,
    ensures
        match ev {
            BootstrapEvent::DialResult { ok } => {
                &&& r.0.remaining == st.remaining - 1
                &&& r.0.connected == (st.connected || *ok)
                &&& r.1 == (if r.0.remaining == 0 {
                    if r.0.connected {
                        BootstrapOutcome::Succeeded
                    } else {
                        BootstrapOutcome::Failed
                    }
                } else {
                    BootstrapOutcome::KeepWaiting
                })
            },
            BootstrapEvent::TimedOut => r.0 == st && r.1 == (if st.connected {
                BootstrapOutcome::Succeeded
            } else {
                BootstrapOutcome::Failed
            }),
            BootstrapEvent::ChannelClosed => r.0 == st && r.1 == BootstrapOutcome::Failed,
        },
{
    match ev {
        BootstrapEvent::DialResult { ok } => {
            let next = BootstrapWait { remaining: st.remaining - 1, connected: st.connected || *ok };
            let outcome = if next.remaining == 0 {
                if next.connected {
                    BootstrapOutcome::Succeeded
                } else {
                    BootstrapOutcome::Failed
                }
            } else {
                BootstrapOutcome::KeepWaiting
            };
            (next, outcome)
        },
        BootstrapEvent::TimedOut => {
            let outcome = if st.connected {
                BootstrapOutcome::Succeeded
            } else {
                BootstrapOutcome::Failed
            };
            (st, outcome)
        },
        BootstrapEvent::ChannelClosed => (st, BootstrapOutcome::Failed),
    }
}

/// The start of the bootstrap wait: with no bootstrap peers listed, a fresh
/// network is started and construction succeeds at once.
pub fn bootstrap_start(num_bootstrap: usize) -> (r: (BootstrapWait, BootstrapOutcome))
    ensures
        r.0.remaining == num_bootstrap,
        !r.0.connected,
        r.1 == (if num_bootstrap == 0 {
            BootstrapOutcome::Succeeded
        } else {
            BootstrapOutcome::KeepWaiting
        }),
{
    let outcome = if num_bootstrap == 0 {
        BootstrapOutcome::Succeeded
    } else {
        BootstrapOutcome::KeepWaiting
    };
    (BootstrapWait { remaining: num_bootstrap, connected: false }, outcome)
}

} // verus!
