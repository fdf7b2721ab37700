//! The per-process monitoring engine and the control server's decisions.
//!
//! The surrounding daemon runs the loop: each tick it reads the target
//! process's kernel TCP table (or fails to), hands the outcome in here, and
//! carries out the returned effects — send a one-shot attach response,
//! install host routes, stop the task. Everything decided about a tick is
//! decided here, under the registry lock, as one atomic step.

use vstd::prelude::*;

use crate::address::Ipv4Address;
use crate::messages::{AttachError, DetachError, Message};
use crate::registry::{
    addresses_of, installs_seq, sweep_seq, upsert_seq, wf, Connection, ConnectionManager,
};
use crate::table::{pending_addresses, pending_of};

verus! {

/// The registry after observing each address of `obs`, from `i` on, as
/// pending at time `now`, in order.
pub open spec fn upsert_all_from(
    s: Seq<Connection>,
    obs: Seq<Ipv4Address>,
    now: u64,
    i: int,
) -> Seq<Connection>
    decreases obs.len() - i,
{
    if !(0 <= i < obs.len()) {
        s
    } else {
        upsert_all_from(upsert_seq(s, obs[i], now), obs, now, i + 1)
    }
}

/// The registry after observing every address of `obs` as pending at `now`.
pub open spec fn upsert_all(s: Seq<Connection>, obs: Seq<Ipv4Address>, now: u64) -> Seq<
    Connection,
> {
    upsert_all_from(s, obs, now, 0)
}

/// A whole tick's worth of observations keeps the registry well formed: no
/// sequence of pending observations ever makes two entries share an address
/// or breaks the sorted order.
pub proof fn lemma_upsert_all_preserves_wf(
    s: Seq<Connection>,
    obs: Seq<Ipv4Address>,
    now: u64,
    i: int,
)
    requires
        wf(s),
    ensures
        wf(upsert_all_from(s, obs, now, i)),
    decreases obs.len() - i,
{
    if 0 <= i < obs.len() {
        crate::registry::lemma_upsert_preserves_wf(s, obs[i], now);
        lemma_upsert_all_preserves_wf(upsert_seq(s, obs[i], now), obs, now, i + 1);
    }
}

/// The per-task monitor state: whether the one-shot attach response has
/// already been sent on the held connection.
pub struct Tracker {
    pub response_sent: bool,
}

impl Tracker {
    pub fn new() -> (r: Tracker)
        ensures
            r.response_sent == false,
    {
        Tracker { response_sent: false }
    }
}

/// One tick's reading of the target process's kernel TCP table: its raw
/// text, or the failure to read it at all (no such process, unreadable
/// table).
pub enum PollOutcome {
    Table(Vec<u8>),
    Unreadable,
}

/// What the daemon must do after a tick: send this response on the held
/// connection (at most once ever), install a host route for each of these
/// addresses in order, and stop the task for good if `stop` says so.
pub struct TickEffects {
    pub response: Option<AttachError>,
    pub install_routes: Vec<Ipv4Address>,
    pub stop: bool,
}

/// One tick of the monitoring loop for an attached process.
///
/// On a readable table: every address the table shows in SYN-sent state is
/// observed as pending at `now`, then the escalation sweep runs, and the
/// newly escalated addresses come back as routes to install; the first such
/// tick also answers the client with success. On an unreadable table: before
/// any successful poll this answers the client with process-not-found and
/// stops the task for good; after one, the tick is treated as carrying no
/// observations and the task carries on. In neither failure case does the
/// registry change.
pub fn poll_tick(
    tracker: &mut Tracker,
    registry: &mut ConnectionManager,
    outcome: &PollOutcome,
    now: u64,
    delay: u64,
) -> (effects: TickEffects)
    requires
        wf(old(registry)@),
    ensures
        wf(final(registry)@),
        match *outcome {
            PollOutcome::Table(ref text) => {
                let upserted = upsert_all(old(registry)@, pending_of(text@), now);
                &&& final(registry)@ == sweep_seq(upserted, now, delay)
                &&& effects.install_routes@ == installs_seq(upserted, now, delay)
                &&& effects.response == (if old(tracker).response_sent {
                    None::<AttachError>
                } else {
                    Some(AttachError::Success)
                })
                &&& final(tracker).response_sent == true
                &&& effects.stop == false
            },
            PollOutcome::Unreadable => {
                &&& final(registry)@ == old(registry)@
                &&& effects.install_routes@ == Seq::<Ipv4Address>::empty()
                &&& effects.response == (if old(tracker).response_sent {
                    None::<AttachError>
                } else {
                    Some(AttachError::ProcessNotFound)
                })
                &&& effects.stop == !old(tracker).response_sent
                &&& final(tracker).response_sent == old(tracker).response_sent
            },
        },
{
    match outcome {
        PollOutcome::Unreadable => {
            if !tracker.response_sent {
                TickEffects {
                    response: Some(AttachError::ProcessNotFound),
                    install_routes: Vec::new(),
                    stop: true,
                }
            } else {
                TickEffects { response: None, install_routes: Vec::new(), stop: false }
            }
        },
        PollOutcome::Table(text) => {
            let pending = pending_addresses(text);
            let ghost obs = pending_of(text@);
            let ghost s0 = registry@;
            let n = pending.len();
            let mut i: usize = 0;
            while i < n
                invariant
                    i <= n == obs.len(),
                    pending@ == obs,
                    wf(registry@),
                    upsert_all(s0, obs, now) == upsert_all_from(registry@, obs, now, i as int),
                decreases n - i,
            {
                let ghost before = registry@;
                registry.upsert_pending(pending[i], now);
                proof {
                    assert(upsert_all_from(before, obs, now, i as int) == upsert_all_from(
                        registry@,
                        obs,
                        now,
                        i as int + 1,
                    ));
                }
                i = i + 1;
            }
            proof {
                assert(upsert_all_from(registry@, obs, now, n as int) == registry@);
            }
            let routes = registry.sweep(now, delay);
            let response = if !tracker.response_sent {
                Some(AttachError::Success)
            } else {
                None
            };
            tracker.response_sent = true;
            TickEffects { response, install_routes: routes, stop: false }
        },
    }
}

/// What the control server does with one decoded message.
#[derive(Clone, Copy, PartialEq, Eq, Structural, Debug)]
pub enum Dispatch {
    Attach { pid: u32, delay: u32 },
    Detach { pid: u32 },
    Purge,
    Invalid,
}

/// The dispatch each message gets: the three requests go to their handlers;
/// a response arriving at the server is a protocol error and the exchange
/// aborts with no side effect.
pub open spec fn spec_classify(m: Message) -> Dispatch {
    match m {
        Message::AttachRequest { pid, delay } => Dispatch::Attach { pid, delay },
        Message::DetachRequest { pid } => Dispatch::Detach { pid },
        Message::PurgeRequest => Dispatch::Purge,
        _ => Dispatch::Invalid,
    }
}

pub fn classify_request(m: &Message) -> (d: Dispatch)
    ensures
        d == spec_classify(*m),
{
    match *m {
        Message::AttachRequest { pid, delay } => Dispatch::Attach { pid, delay },
        Message::DetachRequest { pid } => Dispatch::Detach { pid },
        Message::PurgeRequest => Dispatch::Purge,
        _ => Dispatch::Invalid,
    }
}

/// The purge step, under the registry lock: hand back every known address —
/// routed or still pending, one route-removal each — and leave the registry
/// empty.
pub fn purge_step(registry: &mut ConnectionManager) -> (removals: Vec<Ipv4Address>)
    requires
        wf(old(registry)@),
    ensures
        removals@ == addresses_of(old(registry)@),
        final(registry)@ == Seq::<Connection>::empty(),
        wf(final(registry)@),
{
    let removals = registry.all_addresses();
    registry.clear();
    removals
}

/// The detach exchange's answer: not-found when the process id had no
/// monitoring task; success when it had one and the task was joined; the
/// unknown error when the supervisor's record was inconsistent and the task
/// could not be joined.
pub fn detach_response_for(found: bool, join_ok: bool) -> (m: Message)
    ensures
        m == (Message::DetachResponse {
            error: if !found {
                DetachError::ProcessNotFound
            } else if join_ok {
                DetachError::Success
            } else {
                DetachError::UnknownError
            },
        }),
{
    if !found {
        Message::DetachResponse { error: DetachError::ProcessNotFound }
    } else if join_ok {
        Message::DetachResponse { error: DetachError::Success }
    } else {
        Message::DetachResponse { error: DetachError::UnknownError }
    }
}

} // verus!
