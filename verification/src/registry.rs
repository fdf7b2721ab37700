//! The connection registry: a collection of remote addresses with their
//! routing state, kept sorted by address and unique per address.
//!
//! An address enters as `Pending` when it is first observed in a SYN-sent
//! state; a sweep escalates it to `InRoutingTable` once it has stayed pending
//! for the configured delay. Entries never leave except through `clear`, and
//! an entry never moves back from `InRoutingTable` to `Pending`.
//!
//! Times are plain milliseconds on the daemon's monotonic clock; callers pass
//! the current reading in.

use vstd::prelude::*;

use crate::address::{addr_key, lemma_addr_key_injective, Ipv4Address};

verus! {

/// The routing state of one tracked remote address.
#[derive(Clone, Copy, PartialEq, Eq, Structural, Debug)]
pub enum ConnectionState {
    /// Observed in a SYN-sent state since `start_time` (milliseconds); no
    /// route has been installed.
    Pending { start_time: u64 },
    /// A host route for this address has been installed.
    InRoutingTable,
}

/// A tracked remote address paired with its routing state. Identity is the
/// address alone; the state is payload.
#[derive(Clone, Copy, Debug)]
pub struct Connection {
    pub address: Ipv4Address,
    pub state: ConnectionState,
}

impl Connection {
    pub fn new(address: Ipv4Address, state: ConnectionState) -> (r: Connection)
        ensures
            r == (Connection { address, state }),
    {
        Connection { address, state }
    }

    pub fn address(&self) -> (r: &Ipv4Address)
        ensures
            *r == self.address,
    {
        &self.address
    }

    pub fn state(&self) -> (r: &ConnectionState)
        ensures
            *r == self.state,
    {
        &self.state
    }

    pub fn set_state(&mut self, value: ConnectionState)
        ensures
            final(self).address == old(self).address,
            final(self).state == value,
    {
        self.state = value;
    }
}

/// Connections compare by address alone.
impl PartialEq for Connection {
    fn eq(&self, other: &Connection) -> (r: bool) {
        self.address == other.address
    }
}

impl Eq for Connection {

}

impl vstd::std_specs::cmp::PartialEqSpecImpl for Connection {
    open spec fn obeys_eq_spec() -> bool {
        true
    }

    open spec fn eq_spec(&self, other: &Connection) -> bool {
        self.address == other.address
    }
}

/// A fresh entry for an address first observed pending at `now`.
pub open spec fn pending_conn(address: Ipv4Address, now: u64) -> Connection {
    Connection { address, state: ConnectionState::Pending { start_time: now } }
}

/// Well-formedness of the registry contents: strictly increasing by address,
/// which also makes every address unique.
pub open spec fn wf(s: Seq<Connection>) -> bool {
    forall|i: int, j: int|
        0 <= i < j < s.len() ==> addr_key(#[trigger] s[i].address) < addr_key(#[trigger] s[j].address)
}

/// The state recorded for the first entry whose address has numeric value
/// `k`, if any.
pub open spec fn lookup(s: Seq<Connection>, k: int) -> Option<ConnectionState>
    decreases s.len(),
{
    if s.len() == 0 {
        None
    } else if addr_key(s[0].address) == k {
        Some(s[0].state)
    } else {
        lookup(s.drop_first(), k)
    }
}

/// Insertion into the sorted contents: a no-op when the address is already
/// present, in either state.
pub open spec fn insert_seq(s: Seq<Connection>, c: Connection) -> Seq<Connection>
    decreases s.len(),
{
    if s.len() == 0 {
        seq![c]
    } else if addr_key(c.address) < addr_key(s[0].address) {
        seq![c] + s
    } else if addr_key(c.address) == addr_key(s[0].address) {
        s
    } else {
        seq![s[0]] + insert_seq(s.drop_first(), c)
    }
}

/// Observing `address` pending at time `now`: insert a fresh `Pending` entry
/// when absent; keep the existing entry (and its timer) when present.
pub open spec fn upsert_seq(s: Seq<Connection>, address: Ipv4Address, now: u64) -> Seq<Connection> {
    insert_seq(s, pending_conn(address, now))
}

/// Whether a sweep at time `now` escalates this entry: it is pending and has
/// been so for at least `delay` milliseconds.
pub open spec fn due_pending(c: Connection, now: u64, delay: u64) -> bool {
    match c.state {
        ConnectionState::Pending { start_time } => now >= start_time + delay,
        ConnectionState::InRoutingTable => false,
    }
}

/// One entry after a sweep at time `now`: escalated exactly when due.
pub open spec fn escalated(c: Connection, now: u64, delay: u64) -> Connection {
    if due_pending(c, now, delay) {
        Connection { address: c.address, state: ConnectionState::InRoutingTable }
    } else {
        c
    }
}

/// A state after a sweep at time `now`, for stating the escalation rule per
/// address: `Pending{start_time}` becomes `InRoutingTable` if and only if
/// `now >= start_time + delay`; `InRoutingTable` stays.
pub open spec fn escalated_state(st: ConnectionState, now: u64, delay: u64) -> ConnectionState {
    match st {
        ConnectionState::Pending { start_time } => if now >= start_time + delay {
            ConnectionState::InRoutingTable
        } else {
            st
        },
        ConnectionState::InRoutingTable => st,
    }
}

/// The whole contents after a sweep at time `now`.
pub open spec fn sweep_seq(s: Seq<Connection>, now: u64, delay: u64) -> Seq<Connection> {
    s.map_values(|c: Connection| escalated(c, now, delay))
}

/// The addresses, from position `i` on, that a sweep at time `now` escalates
/// and therefore routes, in address order.
pub open spec fn installs_from(s: Seq<Connection>, now: u64, delay: u64, i: int) -> Seq<
    Ipv4Address,
>
    decreases s.len() - i,
{
    if !(0 <= i < s.len()) {
        Seq::empty()
    } else if due_pending(s[i], now, delay) {
        seq![s[i].address] + installs_from(s, now, delay, i + 1)
    } else {
        installs_from(s, now, delay, i + 1)
    }
}

/// The addresses a sweep at time `now` escalates: exactly the route-install
/// calls that sweep issues, one per newly escalated entry.
pub open spec fn installs_seq(s: Seq<Connection>, now: u64, delay: u64) -> Seq<Ipv4Address> {
    installs_from(s, now, delay, 0)
}

/// The addresses of all entries, in registry order.
pub open spec fn addresses_of(s: Seq<Connection>) -> Seq<Ipv4Address> {
    s.map_values(|c: Connection| c.address)
}

/// In a well-formed registry the entries are strictly increasing by address,
/// so no two entries share an address.
pub proof fn lemma_registry_sorted_distinct(s: Seq<Connection>)
    requires
        wf(s),
    ensures
        forall|i: int, j: int|
            0 <= i < j < s.len() ==> addr_key(#[trigger] s[i].address) < addr_key(
                #[trigger] s[j].address,
            ),
        forall|i: int, j: int| 0 <= i < j < s.len() ==> s[i].address != s[j].address,
{
}

proof fn lemma_wf_drop_first(s: Seq<Connection>)
    requires
        wf(s),
        s.len() > 0,
    ensures
        wf(s.drop_first()),
{
    assert forall|i: int, j: int| 0 <= i < j < s.drop_first().len() implies addr_key(
        #[trigger] s.drop_first()[i].address,
    ) < addr_key(#[trigger] s.drop_first()[j].address) by {
        assert(s.drop_first()[i] == s[i + 1]);
        assert(s.drop_first()[j] == s[j + 1]);
    }
}

/// Every element of `insert_seq(s, c)` is `c` or an element of `s`.
proof fn lemma_insert_members(s: Seq<Connection>, c: Connection)
    ensures
        forall|k: int|
            0 <= k < insert_seq(s, c).len() ==> #[trigger] insert_seq(s, c)[k] == c || s.contains(
                insert_seq(s, c)[k],
            ),
    decreases s.len(),
{
    let r = insert_seq(s, c);
    if s.len() == 0 {
    } else if addr_key(c.address) < addr_key(s[0].address) {
        assert forall|k: int| 0 <= k < r.len() implies #[trigger] r[k] == c || s.contains(r[k]) by {
            if k > 0 {
                assert(r[k] == s[k - 1]);
            }
        }
    } else if addr_key(c.address) == addr_key(s[0].address) {
        assert forall|k: int| 0 <= k < r.len() implies #[trigger] r[k] == c || s.contains(r[k]) by {
            assert(s[k] == r[k]);
        }
    } else {
        lemma_insert_members(s.drop_first(), c);
        let rest = insert_seq(s.drop_first(), c);
        assert forall|k: int| 0 <= k < r.len() implies #[trigger] r[k] == c || s.contains(r[k]) by {
            if k == 0 {
                assert(r[0] == s[0]);
                assert(s.contains(s[0]));
            } else {
                assert(r[k] == rest[k - 1]);
                if rest[k - 1] == c {
                } else {
                    let j = choose|j: int|
                        0 <= j < s.drop_first().len() && s.drop_first()[j] == rest[k - 1];
                    assert(s[j + 1] == rest[k - 1]);
                    assert(s.contains(s[j + 1]));
                }
            }
        }
    }
}

/// Inserting an address keeps the registry well formed: it still holds no
/// two entries with the same address and stays strictly increasing.
pub proof fn lemma_insert_wf(s: Seq<Connection>, c: Connection)
    requires
        wf(s),
    ensures
        wf(insert_seq(s, c)),
    decreases s.len(),
{
    let r = insert_seq(s, c);
    if s.len() == 0 {
    } else if addr_key(c.address) < addr_key(s[0].address) {
        assert forall|i: int, j: int| 0 <= i < j < r.len() implies addr_key(
            #[trigger] r[i].address,
        ) < addr_key(#[trigger] r[j].address) by {
            if i > 0 {
                assert(r[i] == s[i - 1]);
            }
            assert(r[j] == s[j - 1]);
        }
    } else if addr_key(c.address) == addr_key(s[0].address) {
    } else {
        lemma_wf_drop_first(s);
        lemma_insert_wf(s.drop_first(), c);
        lemma_insert_members(s.drop_first(), c);
        let rest = insert_seq(s.drop_first(), c);
        assert forall|i: int, j: int| 0 <= i < j < r.len() implies addr_key(
            #[trigger] r[i].address,
        ) < addr_key(#[trigger] r[j].address) by {
            if i == 0 {
                assert(r[j] == rest[j - 1]);
                if rest[j - 1] == c {
                } else {
                    let m = choose|m: int|
                        0 <= m < s.drop_first().len() && s.drop_first()[m] == rest[j - 1];
                    assert(s[m + 1] == rest[j - 1]);
                    assert(addr_key(s[0].address) < addr_key(s[m + 1].address));
                }
            } else {
                assert(r[i] == rest[i - 1]);
                assert(r[j] == rest[j - 1]);
            }
        }
    }
}

/// Observing an address pending keeps the registry well formed: however
/// many observations arrive, no two entries ever share an address and the
/// iteration order stays strictly increasing.
pub proof fn lemma_upsert_preserves_wf(s: Seq<Connection>, address: Ipv4Address, now: u64)
    requires
        wf(s),
    ensures
        wf(upsert_seq(s, address, now)),
{
    lemma_insert_wf(s, pending_conn(address, now));
}

/// Re-observing an address, in either state, leaves the registry contents
/// unchanged entirely.
pub proof fn lemma_insert_found(s: Seq<Connection>, c: Connection, i: int)
    requires
        wf(s),
        0 <= i < s.len(),
        addr_key(s[i].address) == addr_key(c.address),
    ensures
        insert_seq(s, c) == s,
    decreases i,
{
    if i == 0 {
    } else {
        assert(addr_key(s[0].address) < addr_key(s[i].address));
        lemma_wf_drop_first(s);
        assert(s.drop_first()[i - 1] == s[i]);
        lemma_insert_found(s.drop_first(), c, i - 1);
        assert(seq![s[0]] + s.drop_first() =~= s);
    }
}

/// Inserting at the sorted position: when every entry before `i` is smaller
/// and every entry from `i` on is larger, the result is `s` with `c` at `i`.
pub proof fn lemma_insert_point(s: Seq<Connection>, c: Connection, i: int)
    requires
        wf(s),
        0 <= i <= s.len(),
        forall|j: int| 0 <= j < i ==> addr_key(#[trigger] s[j].address) < addr_key(c.address),
        forall|j: int| i <= j < s.len() ==> addr_key(c.address) < addr_key(#[trigger] s[j].address),
    ensures
        insert_seq(s, c) == s.insert(i, c),
    decreases i,
{
    if i == 0 {
        if s.len() == 0 {
            assert(insert_seq(s, c) =~= s.insert(0, c));
        } else {
            assert(addr_key(c.address) < addr_key(s[0].address));
            assert(seq![c] + s =~= s.insert(0, c));
        }
    } else {
        assert(addr_key(s[0].address) < addr_key(c.address));
        lemma_wf_drop_first(s);
        lemma_insert_point(s.drop_first(), c, i - 1);
        assert(seq![s[0]] + s.drop_first().insert(i - 1, c) =~= s.insert(i, c));
    }
}

/// What `lookup` sees at a given index of a well-formed registry.
pub proof fn lemma_lookup_at_index(s: Seq<Connection>, j: int)
    requires
        wf(s),
        0 <= j < s.len(),
    ensures
        lookup(s, addr_key(s[j].address)) == Some(s[j].state),
    decreases j,
{
    if j == 0 {
    } else {
        assert(addr_key(s[0].address) < addr_key(s[j].address));
        lemma_wf_drop_first(s);
        assert(s.drop_first()[j - 1] == s[j]);
        lemma_lookup_at_index(s.drop_first(), j - 1);
    }
}

/// A key that no entry carries is absent from `lookup`.
pub proof fn lemma_lookup_absent(s: Seq<Connection>, k: int)
    requires
        forall|j: int| 0 <= j < s.len() ==> addr_key(#[trigger] s[j].address) != k,
    ensures
        lookup(s, k) is None,
    decreases s.len(),
{
    if s.len() > 0 {
        assert forall|j: int| 0 <= j < s.drop_first().len() implies addr_key(
            #[trigger] s.drop_first()[j].address,
        ) != k by {
            assert(s.drop_first()[j] == s[j + 1]);
        }
        lemma_lookup_absent(s.drop_first(), k);
    }
}

/// Observing an address at time `now` affects exactly that address: absent,
/// it enters as `Pending{now}`; present, it keeps its state (a `Routed`
/// entry is never downgraded and a pending timer is never reset). Every
/// other address is untouched.
pub proof fn lemma_lookup_after_upsert(
    s: Seq<Connection>,
    address: Ipv4Address,
    now: u64,
    k: int,
)
    requires
        wf(s),
    ensures
        lookup(upsert_seq(s, address, now), k) == if k == addr_key(address) {
            if lookup(s, k) is Some {
                lookup(s, k)
            } else {
                Some(ConnectionState::Pending { start_time: now })
            }
        } else {
            lookup(s, k)
        },
{
    lemma_lookup_after_insert(s, pending_conn(address, now), k);
}

proof fn lemma_lookup_after_insert(s: Seq<Connection>, c: Connection, k: int)
    requires
        wf(s),
    ensures
        lookup(insert_seq(s, c), k) == if k == addr_key(c.address) {
            if lookup(s, k) is Some {
                lookup(s, k)
            } else {
                Some(c.state)
            }
        } else {
            lookup(s, k)
        },
    decreases s.len(),
{
    let r = insert_seq(s, c);
    if s.len() == 0 {
        assert(r == seq![c]);
        if k == addr_key(c.address) {
            assert(lookup(r, k) == Some(c.state));
        } else {
            assert(r.drop_first() =~= Seq::<Connection>::empty());
            assert(lookup(r.drop_first(), k) is None);
            assert(lookup(r, k) is None);
        }
    } else if addr_key(c.address) < addr_key(s[0].address) {
        assert(r == seq![c] + s);
        assert(r.drop_first() =~= s);
        assert(r[0] == c);
        if k == addr_key(c.address) {
            assert forall|j: int| 0 <= j < s.len() implies addr_key(#[trigger] s[j].address)
                != k by {
                if j > 0 {
                    assert(addr_key(s[0].address) < addr_key(s[j].address));
                }
            }
            lemma_lookup_absent(s, k);
            assert(lookup(r, k) == Some(c.state));
        } else {
            assert(lookup(r, k) == lookup(s, k));
        }
    } else if addr_key(c.address) == addr_key(s[0].address) {
        assert(r == s);
        if k == addr_key(c.address) {
            assert(lookup(s, k) == Some(s[0].state));
        }
    } else {
        lemma_wf_drop_first(s);
        lemma_lookup_after_insert(s.drop_first(), c, k);
        assert(r == seq![s[0]] + insert_seq(s.drop_first(), c));
        assert(r[0] == s[0]);
        assert(r.drop_first() =~= insert_seq(s.drop_first(), c));
        if addr_key(s[0].address) == k {
            assert(lookup(r, k) == Some(s[0].state));
            assert(lookup(s, k) == Some(s[0].state));
            assert(k != addr_key(c.address));
        } else {
            assert(lookup(r, k) == lookup(insert_seq(s.drop_first(), c), k));
            assert(lookup(s, k) == lookup(s.drop_first(), k));
        }
    }
}

/// The escalation rule, per address (the sweep's exact effect): a pending
/// entry becomes routed if and only if the sweep happens at or after its
/// start time plus the delay; a routed entry stays routed; no entry appears
/// or disappears.
pub proof fn lemma_lookup_after_sweep(s: Seq<Connection>, now: u64, delay: u64, k: int)
    ensures
        lookup(sweep_seq(s, now, delay), k) == match lookup(s, k) {
            Some(st) => Some(escalated_state(st, now, delay)),
            None => None::<ConnectionState>,
        },
    decreases s.len(),
{
    let r = sweep_seq(s, now, delay);
    if s.len() == 0 {
    } else {
        assert(r[0] == escalated(s[0], now, delay));
        assert(r[0].address == s[0].address);
        assert(r.drop_first() =~= sweep_seq(s.drop_first(), now, delay));
        lemma_lookup_after_sweep(s.drop_first(), now, delay, k);
        if addr_key(s[0].address) == k {
            assert(r[0].state == escalated_state(s[0].state, now, delay));
        }
    }
}

/// A sweep relates the new contents to the old pointwise and keeps the
/// registry well formed.
pub proof fn lemma_sweep_wf(s: Seq<Connection>, now: u64, delay: u64)
    requires
        wf(s),
    ensures
        wf(sweep_seq(s, now, delay)),
        sweep_seq(s, now, delay).len() == s.len(),
        forall|i: int|
            0 <= i < s.len() ==> #[trigger] sweep_seq(s, now, delay)[i] == escalated(
                s[i],
                now,
                delay,
            ),
{
    let r = sweep_seq(s, now, delay);
    assert forall|i: int, j: int| 0 <= i < j < r.len() implies addr_key(#[trigger] r[i].address)
        < addr_key(#[trigger] r[j].address) by {
        assert(r[i] == escalated(s[i], now, delay));
        assert(r[j] == escalated(s[j], now, delay));
    }
}

/// Once an address is routed, re-observing any address and sweeping at any
/// later (or any) time leaves it routed: the escalation is one-way.
pub proof fn lemma_routed_stays_routed(
    s: Seq<Connection>,
    address: Ipv4Address,
    now: u64,
    delay: u64,
    k: int,
)
    requires
        wf(s),
        lookup(s, k) == Some(ConnectionState::InRoutingTable),
    ensures
        lookup(upsert_seq(s, address, now), k) == Some(ConnectionState::InRoutingTable),
        lookup(sweep_seq(s, now, delay), k) == Some(ConnectionState::InRoutingTable),
{
    lemma_lookup_after_upsert(s, address, now, k);
    lemma_lookup_after_sweep(s, now, delay, k);
}

proof fn lemma_installs_member_at(s: Seq<Connection>, now: u64, delay: u64, i: int, m: int)
    requires
        0 <= m < installs_from(s, now, delay, i).len(),
    ensures
        exists|j: int|
            i <= j < s.len() && due_pending(#[trigger] s[j], now, delay) && s[j].address
                == installs_from(s, now, delay, i)[m],
    decreases s.len() - i,
{
    let r = installs_from(s, now, delay, i);
    let rest = installs_from(s, now, delay, i + 1);
    if due_pending(s[i], now, delay) {
        assert(r == seq![s[i].address] + rest);
        if m == 0 {
            assert(i <= i < s.len() && due_pending(s[i], now, delay) && s[i].address == r[0]);
        } else {
            lemma_installs_member_at(s, now, delay, i + 1, m - 1);
            let j = choose|j: int|
                i + 1 <= j < s.len() && due_pending(#[trigger] s[j], now, delay) && s[j].address
                    == rest[m - 1];
            assert(r[m] == rest[m - 1]);
            assert(i <= j < s.len() && due_pending(s[j], now, delay) && s[j].address == r[m]);
        }
    } else {
        assert(r == rest);
        lemma_installs_member_at(s, now, delay, i + 1, m);
        let j = choose|j: int|
            i + 1 <= j < s.len() && due_pending(#[trigger] s[j], now, delay) && s[j].address
                == rest[m];
        assert(i <= j < s.len() && due_pending(s[j], now, delay) && s[j].address == r[m]);
    }
}

/// An address that is already routed is never routed a second time: no sweep
/// issues a route-install call for it again.
pub proof fn lemma_no_second_install(s: Seq<Connection>, now: u64, delay: u64, k: int)
    requires
        wf(s),
        lookup(s, k) == Some(ConnectionState::InRoutingTable),
    ensures
        forall|m: int|
            0 <= m < installs_seq(s, now, delay).len() ==> addr_key(
                #[trigger] installs_seq(s, now, delay)[m],
            ) != k,
{
    let r = installs_seq(s, now, delay);
    assert forall|m: int| 0 <= m < r.len() implies addr_key(#[trigger] r[m]) != k by {
        lemma_installs_member_at(s, now, delay, 0, m);
        let j = choose|j: int|
            0 <= j < s.len() && due_pending(#[trigger] s[j], now, delay) && s[j].address == r[m];
        if addr_key(r[m]) == k {
            lemma_lookup_at_index(s, j);
        }
    }
}

/// The registry itself: contents sorted by address, one entry per address.
pub struct ConnectionManager {
    connections: Vec<Connection>,
}

impl View for ConnectionManager {
    type V = Seq<Connection>;

    closed spec fn view(&self) -> Seq<Connection> {
        self.connections@
    }
}

impl Default for ConnectionManager {
    /// An empty registry.
    fn default() -> (r: ConnectionManager)
        ensures
            r@ == Seq::<Connection>::empty(),
            wf(r@),
    {
        ConnectionManager::new()
    }
}

impl ConnectionManager {
    pub fn new() -> (r: ConnectionManager)
        ensures
            r@ == Seq::<Connection>::empty(),
            wf(r@),
    {
        ConnectionManager { connections: Vec::new() }
    }

    pub fn len(&self) -> (r: usize)
        ensures
            r == self@.len(),
    {
        self.connections.len()
    }

    pub fn connection_at(&self, i: usize) -> (r: Connection)
        requires
            i < self@.len(),
        ensures
            r == self@[i as int],
    {
        self.connections[i]
    }

    /// The position of the first entry whose address is not below `key`.
    fn lower_bound(&self, key: u32) -> (r: usize)
        requires
            wf(self@),
        ensures
            r <= self@.len(),
            forall|j: int| 0 <= j < r ==> addr_key(#[trigger] self@[j].address) < key,
            forall|j: int| r <= j < self@.len() ==> addr_key(#[trigger] self@[j].address) >= key,
    {
        let mut lo: usize = 0;
        let mut hi: usize = self.connections.len();
        while lo < hi
            invariant
                lo <= hi <= self@.len(),
                wf(self@),
                forall|j: int| 0 <= j < lo ==> addr_key(#[trigger] self@[j].address) < key,
                forall|j: int| hi <= j < self@.len() ==> addr_key(#[trigger] self@[j].address) >= key,
            decreases hi - lo,
        {
            let mid = lo + (hi - lo) / 2;
            if self.connections[mid].address.key() < key {
                assert forall|j: int| 0 <= j < mid + 1 implies addr_key(#[trigger] self@[j].address)
                    < key by {
                    if j < mid {
                        assert(addr_key(self@[j].address) < addr_key(self@[mid as int].address));
                    }
                }
                lo = mid + 1;
            } else {
                assert forall|j: int| mid <= j < self@.len() implies addr_key(
                    #[trigger] self@[j].address,
                ) >= key by {
                    if j > mid {
                        assert(addr_key(self@[mid as int].address) < addr_key(self@[j].address));
                    }
                }
                hi = mid;
            }
        }
        lo
    }

    /// The entry for `address`, if the registry knows it.
    pub fn get_connection(&self, address: &Ipv4Address) -> (r: Option<&Connection>)
        requires
            wf(self@),
        ensures
            match r {
                Some(c) => c.address == *address && lookup(self@, addr_key(*address)) == Some(
                    c.state,
                ),
                None => lookup(self@, addr_key(*address)) is None,
            },
    {
        let i = self.lower_bound(address.key());
        if i < self.connections.len() && self.connections[i].address.key() == address.key() {
            proof {
                lemma_addr_key_injective(self@[i as int].address, *address);
                lemma_lookup_at_index(self@, i as int);
            }
            Some(&self.connections[i])
        } else {
            proof {
                assert forall|j: int| 0 <= j < self@.len() implies addr_key(
                    #[trigger] self@[j].address,
                ) != addr_key(*address) by {
                    if j >= i {
                        if i < self@.len() {
                            assert(addr_key(self@[i as int].address) >= addr_key(*address));
                            if j > i {
                                assert(addr_key(self@[i as int].address) < addr_key(
                                    self@[j].address,
                                ));
                            }
                        }
                    }
                }
                lemma_lookup_absent(self@, addr_key(*address));
            }
            None
        }
    }

    /// Register a connection: inserted at its sorted position when its
    /// address is new; a silent no-op when the address is already known.
    pub fn add_connection(&mut self, connection: Connection)
        requires
            wf(old(self)@),
        ensures
            final(self)@ == insert_seq(old(self)@, connection),
            wf(final(self)@),
    {
        proof {
            lemma_insert_wf(self@, connection);
        }
        let key = connection.address.key();
        let i = self.lower_bound(key);
        if i < self.connections.len() && self.connections[i].address.key() == key {
            proof {
                lemma_insert_found(self@, connection, i as int);
            }
        } else {
            proof {
                assert forall|j: int| i <= j < self@.len() implies addr_key(connection.address)
                    < addr_key(#[trigger] self@[j].address) by {
                    assert(addr_key(self@[i as int].address) >= key);
                    if j > i {
                        assert(addr_key(self@[i as int].address) < addr_key(self@[j].address));
                    }
                }
                lemma_insert_point(self@, connection, i as int);
            }
            self.connections.insert(i, connection);
        }
    }

    /// Observe `address` pending at time `now`: insert `Pending{now}` when
    /// absent; keep the existing entry untouched when present.
    pub fn upsert_pending(&mut self, address: Ipv4Address, now: u64)
        requires
            wf(old(self)@),
        ensures
            final(self)@ == upsert_seq(old(self)@, address, now),
            wf(final(self)@),
    {
        self.add_connection(Connection::new(address, ConnectionState::Pending { start_time: now }));
    }

    /// The escalation sweep at time `now`: every entry pending for at least
    /// `delay` milliseconds becomes routed, and its address is returned so
    /// the caller can install the host route; routed entries are untouched.
    pub fn sweep(&mut self, now: u64, delay: u64) -> (routes: Vec<Ipv4Address>)
        requires
            wf(old(self)@),
        ensures
            final(self)@ == sweep_seq(old(self)@, now, delay),
            routes@ == installs_seq(old(self)@, now, delay),
            wf(final(self)@),
    {
        proof {
            lemma_sweep_wf(self@, now, delay);
        }
        let ghost s = self@;
        let mut swept: Vec<Connection> = Vec::new();
        let mut routes: Vec<Ipv4Address> = Vec::new();
        let n = self.connections.len();
        let mut i: usize = 0;
        while i < n
            invariant
                n == s.len(),
                self@ == s,
                i <= n,
                swept@.len() == i,
                forall|j: int| 0 <= j < i ==> #[trigger] swept@[j] == escalated(s[j], now, delay),
                installs_seq(s, now, delay) == routes@ + installs_from(s, now, delay, i as int),
            decreases n - i,
        {
            let c = self.connections[i];
            let due = match c.state {
                ConnectionState::Pending { start_time } => now >= start_time && now - start_time
                    >= delay,
                ConnectionState::InRoutingTable => false,
            };
            assert(due == due_pending(s[i as int], now, delay));
            if due {
                routes.push(c.address);
                swept.push(Connection { address: c.address, state: ConnectionState::InRoutingTable });
            } else {
                swept.push(c);
            }
            assert(installs_from(s, now, delay, i as int) == (if due_pending(s[i as int], now, delay) {
                seq![s[i as int].address] + installs_from(s, now, delay, i as int + 1)
            } else {
                installs_from(s, now, delay, i as int + 1)
            }));
            assert(installs_seq(s, now, delay) =~= routes@ + installs_from(
                s,
                now,
                delay,
                i as int + 1,
            ));
            i = i + 1;
        }
        assert(installs_from(s, now, delay, n as int) =~= Seq::<Ipv4Address>::empty());
        assert(routes@ =~= installs_seq(s, now, delay));
        assert(swept@ =~= sweep_seq(s, now, delay));
        self.connections = swept;
        routes
    }

    /// A read-only snapshot of every known address, in registry order: what
    /// a purge must un-route, one entry each.
    pub fn all_addresses(&self) -> (r: Vec<Ipv4Address>)
        ensures
            r@ == addresses_of(self@),
    {
        let mut r: Vec<Ipv4Address> = Vec::new();
        let n = self.connections.len();
        let mut i: usize = 0;
        while i < n
            invariant
                n == self@.len(),
                i <= n,
                r@.len() == i,
                forall|j: int| 0 <= j < i ==> #[trigger] r@[j] == self@[j].address,
            decreases n - i,
        {
            r.push(self.connections[i].address);
            i = i + 1;
        }
        assert(r@ =~= addresses_of(self@));
        r
    }

    /// Remove every entry (the final step of a purge).
    pub fn clear(&mut self)
        ensures
            final(self)@ == Seq::<Connection>::empty(),
            wf(final(self)@),
    {
        self.connections.clear();
    }
}

} // verus!
