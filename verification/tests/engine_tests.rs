use synroute::address::Ipv4Address;
use synroute::engine::{
    classify_request, detach_response_for, poll_tick, Dispatch, PollOutcome, Tracker,
};
use synroute::messages::{AttachError, DetachError, Message};
use synroute::registry::{ConnectionManager, ConnectionState};
use synroute::supervisor::ProcessSupervisor;

fn addr(o0: u8, o1: u8, o2: u8, o3: u8) -> Ipv4Address {
    Ipv4Address::new(o0, o1, o2, o3)
}

fn table_with_syn_sent_ten_zero_zero_five() -> Vec<u8> {
    b"  sl  local_address rem_address   st tx_queue rx_queue\n\
   0: 0100007F:0016 0500000A:01BB 02 00000000:00000000\n"
        .to_vec()
}

#[test]
fn zero_delay_attach_routes_on_first_poll() {
    // Attach with delay 0: the first poll finds 10.0.0.5 in SYN-sent state,
    // escalates it at once, and issues exactly one route install.
    let mut tracker = Tracker::new();
    let mut reg = ConnectionManager::new();
    let outcome = PollOutcome::Table(table_with_syn_sent_ten_zero_zero_five());
    let effects = poll_tick(&mut tracker, &mut reg, &outcome, 0, 0);
    assert_eq!(effects.response, Some(AttachError::Success));
    assert!(!effects.stop);
    assert_eq!(effects.install_routes.len(), 1);
    assert_eq!(effects.install_routes[0], addr(10, 0, 0, 5));
    assert_eq!(reg.len(), 1);
    assert_eq!(reg.connection_at(0).state, ConnectionState::InRoutingTable);
}

#[test]
fn delayed_attach_routes_only_after_the_delay() {
    // Attach with delay 5000 ms: pending at t=0, still unrouted at t=2000,
    // exactly one route installed at t=6000.
    let mut tracker = Tracker::new();
    let mut reg = ConnectionManager::new();
    let table = table_with_syn_sent_ten_zero_zero_five();

    let effects = poll_tick(&mut tracker, &mut reg, &PollOutcome::Table(table.clone()), 0, 5000);
    assert_eq!(effects.response, Some(AttachError::Success));
    assert!(effects.install_routes.is_empty());
    assert_eq!(
        reg.connection_at(0).state,
        ConnectionState::Pending { start_time: 0 }
    );

    let effects = poll_tick(&mut tracker, &mut reg, &PollOutcome::Table(table.clone()), 2000, 5000);
    assert_eq!(effects.response, None);
    assert!(effects.install_routes.is_empty());
    assert_eq!(
        reg.connection_at(0).state,
        ConnectionState::Pending { start_time: 0 }
    );

    let effects = poll_tick(&mut tracker, &mut reg, &PollOutcome::Table(table), 6000, 5000);
    assert_eq!(effects.response, None);
    assert_eq!(effects.install_routes.len(), 1);
    assert_eq!(effects.install_routes[0], addr(10, 0, 0, 5));
    assert_eq!(reg.connection_at(0).state, ConnectionState::InRoutingTable);
}

#[test]
fn unreadable_table_on_first_poll_reports_not_found_and_stops() {
    // Attach on a nonexistent pid: the poll cannot read the table, the
    // client gets process-not-found, and the task performs no registry
    // mutation and stops for good.
    let mut tracker = Tracker::new();
    let mut reg = ConnectionManager::new();
    reg.upsert_pending(addr(9, 9, 9, 9), 0);
    let effects = poll_tick(&mut tracker, &mut reg, &PollOutcome::Unreadable, 5, 0);
    assert_eq!(effects.response, Some(AttachError::ProcessNotFound));
    assert!(effects.stop);
    assert!(effects.install_routes.is_empty());
    assert_eq!(reg.len(), 1);
    assert_eq!(reg.connection_at(0).address, addr(9, 9, 9, 9));
    assert_eq!(
        reg.connection_at(0).state,
        ConnectionState::Pending { start_time: 0 }
    );
}

#[test]
fn unreadable_table_after_success_is_a_quiet_tick() {
    let mut tracker = Tracker::new();
    let mut reg = ConnectionManager::new();
    let table = table_with_syn_sent_ten_zero_zero_five();
    poll_tick(&mut tracker, &mut reg, &PollOutcome::Table(table), 0, 5000);
    let effects = poll_tick(&mut tracker, &mut reg, &PollOutcome::Unreadable, 1000, 5000);
    assert_eq!(effects.response, None);
    assert!(!effects.stop);
    assert!(effects.install_routes.is_empty());
    assert_eq!(
        reg.connection_at(0).state,
        ConnectionState::Pending { start_time: 0 }
    );
}

#[test]
fn detach_of_unattached_pid_reports_not_found_and_changes_nothing() {
    let mut sup = ProcessSupervisor::new();
    sup.register(7, 70);
    let mut reg = ConnectionManager::new();
    reg.upsert_pending(addr(10, 0, 0, 5), 0);

    assert_eq!(sup.remove(8), None);
    assert_eq!(sup.len(), 1);
    assert_eq!(sup.process_at(0).pid, 7);
    assert_eq!(sup.process_at(0).task_id, 70);
    // The detach path never touches the connection registry.
    assert_eq!(reg.len(), 1);
    assert_eq!(
        reg.connection_at(0).state,
        ConnectionState::Pending { start_time: 0 }
    );
    assert_eq!(
        detach_response_for(false, true),
        Message::DetachResponse { error: DetachError::ProcessNotFound }
    );
}

#[test]
fn detach_of_attached_pid_hands_back_its_ticket() {
    let mut sup = ProcessSupervisor::new();
    sup.register(3, 30);
    sup.register(7, 70);
    sup.register(5, 50);
    assert_eq!(sup.find(5), Some(50));
    assert_eq!(sup.remove(5), Some(50));
    assert_eq!(sup.find(5), None);
    assert_eq!(sup.len(), 2);
    assert_eq!(
        detach_response_for(true, true),
        Message::DetachResponse { error: DetachError::Success }
    );
    assert_eq!(
        detach_response_for(true, false),
        Message::DetachResponse { error: DetachError::UnknownError }
    );
}

#[test]
fn second_registration_overwrites_the_ticket() {
    let mut sup = ProcessSupervisor::new();
    sup.register(7, 70);
    sup.register(7, 71);
    assert_eq!(sup.len(), 1);
    assert_eq!(sup.find(7), Some(71));
}

#[test]
fn requests_dispatch_and_responses_are_protocol_errors() {
    assert_eq!(
        classify_request(&Message::AttachRequest { pid: 1, delay: 2 }),
        Dispatch::Attach { pid: 1, delay: 2 }
    );
    assert_eq!(
        classify_request(&Message::DetachRequest { pid: 9 }),
        Dispatch::Detach { pid: 9 }
    );
    assert_eq!(classify_request(&Message::PurgeRequest), Dispatch::Purge);
    assert_eq!(
        classify_request(&Message::AttachResponse { error: AttachError::Success }),
        Dispatch::Invalid
    );
    assert_eq!(
        classify_request(&Message::DetachResponse { error: DetachError::Success }),
        Dispatch::Invalid
    );
    assert_eq!(classify_request(&Message::PurgeResponse), Dispatch::Invalid);
}

#[test]
fn two_processes_tables_feed_one_registry() {
    // Ticks for two attached processes interleave on the shared registry.
    let mut tracker_a = Tracker::new();
    let mut tracker_b = Tracker::new();
    let mut reg = ConnectionManager::new();
    let table_a = table_with_syn_sent_ten_zero_zero_five();
    let table_b = b"header\n   0: 0100007F:0016 0600000A:01BB 02\n".to_vec();
    poll_tick(&mut tracker_a, &mut reg, &PollOutcome::Table(table_a), 0, 1000);
    poll_tick(&mut tracker_b, &mut reg, &PollOutcome::Table(table_b), 500, 1000);
    assert_eq!(reg.len(), 2);
    let effects = poll_tick(
        &mut tracker_a,
        &mut reg,
        &PollOutcome::Table(table_with_syn_sent_ten_zero_zero_five()),
        1200,
        1000,
    );
    // Only 10.0.0.5 (pending since 0) is due at 1200; 10.0.0.6 waits.
    assert_eq!(effects.install_routes.len(), 1);
    assert_eq!(effects.install_routes[0], addr(10, 0, 0, 5));
}
