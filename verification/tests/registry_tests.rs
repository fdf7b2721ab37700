use synroute::address::Ipv4Address;
use synroute::engine::purge_step;
use synroute::registry::{Connection, ConnectionManager, ConnectionState};

fn addr(o0: u8, o1: u8, o2: u8, o3: u8) -> Ipv4Address {
    Ipv4Address::new(o0, o1, o2, o3)
}

#[test]
fn upsert_keeps_registry_sorted_and_unique() {
    let mut reg = ConnectionManager::new();
    reg.upsert_pending(addr(10, 0, 0, 7), 0);
    reg.upsert_pending(addr(1, 2, 3, 4), 0);
    reg.upsert_pending(addr(10, 0, 0, 5), 0);
    reg.upsert_pending(addr(1, 2, 3, 4), 1);
    reg.upsert_pending(addr(10, 0, 0, 7), 2);
    assert_eq!(reg.len(), 3);
    let mut keys = Vec::new();
    for i in 0..reg.len() {
        keys.push(reg.connection_at(i).address.key());
    }
    assert!(keys.windows(2).all(|w| w[0] < w[1]));
    assert_eq!(reg.connection_at(0).address, addr(1, 2, 3, 4));
    assert_eq!(reg.connection_at(1).address, addr(10, 0, 0, 5));
    assert_eq!(reg.connection_at(2).address, addr(10, 0, 0, 7));
}

#[test]
fn upsert_existing_pending_keeps_timer() {
    let mut reg = ConnectionManager::new();
    reg.upsert_pending(addr(10, 0, 0, 5), 0);
    // Re-observing later must not reset the pending timer.
    reg.upsert_pending(addr(10, 0, 0, 5), 100);
    assert_eq!(
        reg.connection_at(0).state,
        ConnectionState::Pending { start_time: 0 }
    );
    // A sweep at 50 with delay 50 is due only for a timer started at 0.
    let routes = reg.sweep(50, 50);
    assert_eq!(routes.len(), 1);
    assert_eq!(routes[0], addr(10, 0, 0, 5));
}

#[test]
fn sweep_escalates_exactly_when_due() {
    let mut reg = ConnectionManager::new();
    reg.upsert_pending(addr(10, 0, 0, 5), 1000);
    let routes = reg.sweep(1000 + 4999, 5000);
    assert!(routes.is_empty());
    assert_eq!(
        reg.connection_at(0).state,
        ConnectionState::Pending { start_time: 1000 }
    );
    let routes = reg.sweep(1000 + 5000, 5000);
    assert_eq!(routes.len(), 1);
    assert_eq!(routes[0], addr(10, 0, 0, 5));
    assert_eq!(reg.connection_at(0).state, ConnectionState::InRoutingTable);
}

#[test]
fn routed_entry_never_reverts_and_never_reinstalls() {
    let mut reg = ConnectionManager::new();
    reg.upsert_pending(addr(10, 0, 0, 5), 0);
    let routes = reg.sweep(10, 0);
    assert_eq!(routes.len(), 1);
    // Re-observing the routed address must not downgrade it.
    reg.upsert_pending(addr(10, 0, 0, 5), 20);
    assert_eq!(reg.connection_at(0).state, ConnectionState::InRoutingTable);
    // And no later sweep installs a second route for it.
    let routes = reg.sweep(1_000_000, 0);
    assert!(routes.is_empty());
}

#[test]
fn get_connection_finds_known_addresses_only() {
    let mut reg = ConnectionManager::new();
    reg.upsert_pending(addr(10, 0, 0, 5), 7);
    let found = reg.get_connection(&addr(10, 0, 0, 5));
    assert!(found.is_some());
    assert_eq!(
        found.unwrap().state,
        ConnectionState::Pending { start_time: 7 }
    );
    assert!(reg.get_connection(&addr(10, 0, 0, 6)).is_none());
}

#[test]
fn add_connection_is_silent_noop_on_duplicate_address() {
    let mut reg = ConnectionManager::new();
    reg.add_connection(Connection::new(
        addr(9, 9, 9, 9),
        ConnectionState::InRoutingTable,
    ));
    reg.add_connection(Connection::new(
        addr(9, 9, 9, 9),
        ConnectionState::Pending { start_time: 3 },
    ));
    assert_eq!(reg.len(), 1);
    assert_eq!(reg.connection_at(0).state, ConnectionState::InRoutingTable);
}

#[test]
fn connection_identity_is_the_address_alone() {
    let a = Connection::new(addr(1, 1, 1, 1), ConnectionState::Pending { start_time: 5 });
    let b = Connection::new(addr(1, 1, 1, 1), ConnectionState::InRoutingTable);
    let c = Connection::new(addr(1, 1, 1, 2), ConnectionState::InRoutingTable);
    assert!(a == b);
    assert!(b != c);
    assert_eq!(a.address(), &addr(1, 1, 1, 1));
    let mut d = a;
    d.set_state(ConnectionState::InRoutingTable);
    assert_eq!(*d.state(), ConnectionState::InRoutingTable);
    assert_eq!(*d.address(), addr(1, 1, 1, 1));
}

#[test]
fn purge_removes_every_entry_in_either_state() {
    let mut reg = ConnectionManager::new();
    // A becomes routed, B stays pending.
    reg.upsert_pending(addr(10, 0, 0, 1), 0);
    let routes = reg.sweep(100, 0);
    assert_eq!(routes.len(), 1);
    reg.upsert_pending(addr(10, 0, 0, 2), 200);
    let removals = purge_step(&mut reg);
    assert_eq!(removals.len(), 2);
    assert_eq!(removals[0], addr(10, 0, 0, 1));
    assert_eq!(removals[1], addr(10, 0, 0, 2));
    assert_eq!(reg.len(), 0);
    assert!(reg.all_addresses().is_empty());
}

#[test]
fn address_ordering_is_numeric() {
    let low = addr(1, 255, 255, 255);
    let high = addr(2, 0, 0, 0);
    assert!(low.lt(&high));
    assert!(!high.lt(&low));
    assert_eq!(addr(192, 168, 1, 1).key(), 0xC0A8_0101);
    assert_eq!(addr(0, 0, 0, 0).key(), 0);
    assert_eq!(addr(255, 255, 255, 255).key(), u32::MAX);
    assert!(!addr(3, 3, 3, 3).lt(&addr(3, 3, 3, 3)));
}
