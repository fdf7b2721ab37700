use synroute::address::Ipv4Address;
use synroute::status::{TcpConnectionStatus};
use synroute::table::{parse_table, pending_addresses, TcpConnectionInfo};

fn addr(o0: u8, o1: u8, o2: u8, o3: u8) -> Ipv4Address {
    Ipv4Address::new(o0, o1, o2, o3)
}

#[test]
fn remote_address_hex_is_reversed_byte_order() {
    // 0101A8C0 must decode to 192.168.1.1: pairs are read from the last to
    // the first. A decoder without the reversal would produce 1.1.168.192.
    let line = b"   1: 00000000:0000 0101A8C0:0050 02".to_vec();
    let info = TcpConnectionInfo::parse_line(&line).unwrap();
    assert_eq!(*info.remote_address(), addr(192, 168, 1, 1));
    assert_ne!(*info.remote_address(), addr(1, 1, 168, 192));
    assert_eq!(*info.status(), TcpConnectionStatus::SynSent);
}

#[test]
fn status_byte_two_selects_syn_sent() {
    let line = b"   7: 0100007F:1F90 0500000A:01BB 02 00000000:00000000".to_vec();
    let info = TcpConnectionInfo::parse_line(&line).unwrap();
    assert_eq!(*info.remote_address(), addr(10, 0, 0, 5));
    assert_eq!(*info.status(), TcpConnectionStatus::SynSent);
}

#[test]
fn status_try_from_maps_exactly_codes_one_through_twelve() {
    let expected = [
        TcpConnectionStatus::Established,
        TcpConnectionStatus::SynSent,
        TcpConnectionStatus::SynRecv,
        TcpConnectionStatus::FinWait1,
        TcpConnectionStatus::FinWait2,
        TcpConnectionStatus::TimeWait,
        TcpConnectionStatus::Close,
        TcpConnectionStatus::CloseWait,
        TcpConnectionStatus::LastAck,
        TcpConnectionStatus::Listen,
        TcpConnectionStatus::Closing,
        TcpConnectionStatus::NewSynRecv,
    ];
    for (i, want) in expected.iter().enumerate() {
        assert_eq!(TcpConnectionStatus::try_from((i + 1) as u8).unwrap(), *want);
    }
    assert!(TcpConnectionStatus::try_from(0).is_err());
    assert!(TcpConnectionStatus::try_from(13).is_err());
    assert!(TcpConnectionStatus::try_from(255).is_err());
}

#[test]
fn lowercase_hex_decodes_too() {
    let line = b"   1: 00000000:0000 0101a8c0:0050 0a".to_vec();
    let info = TcpConnectionInfo::parse_line(&line).unwrap();
    assert_eq!(*info.remote_address(), addr(192, 168, 1, 1));
    assert_eq!(*info.status(), TcpConnectionStatus::Listen);
}

#[test]
fn malformed_lines_are_errors() {
    // Too few columns.
    assert!(TcpConnectionInfo::parse_line(&b"  1: 00000000:0000".to_vec()).is_err());
    // Remote address column shorter than eight hex digits.
    assert!(TcpConnectionInfo::parse_line(&b"  1: 00000000:0000 0101A8:0050 02".to_vec()).is_err());
    // Non-hex in the remote address.
    assert!(
        TcpConnectionInfo::parse_line(&b"  1: 00000000:0000 0101A8GZ:0050 02".to_vec()).is_err()
    );
    // Status byte out of the twelve known codes.
    assert!(
        TcpConnectionInfo::parse_line(&b"  1: 00000000:0000 0101A8C0:0050 0D".to_vec()).is_err()
    );
    // Status value too large for one byte.
    assert!(
        TcpConnectionInfo::parse_line(&b"  1: 00000000:0000 0101A8C0:0050 1FF".to_vec()).is_err()
    );
    // Status column not hex at all.
    assert!(
        TcpConnectionInfo::parse_line(&b"  1: 00000000:0000 0101A8C0:0050 zz".to_vec()).is_err()
    );
}

#[test]
fn parse_table_skips_header_and_bad_lines_and_dedups() {
    let text = b"  sl  local_address rem_address   st tx_queue\n\
   0: 0100007F:0016 0500000A:01BB 02\n\
   0: 0100007F:0016 0500000A:01BB 02\n\
   garbage line\n\
   1: 0100007F:0016 0600000A:01BB 01\n"
        .to_vec();
    let records = parse_table(&text);
    assert_eq!(records.len(), 2);
    assert_eq!(records[0].remote_address, addr(10, 0, 0, 5));
    assert_eq!(records[0].status, TcpConnectionStatus::SynSent);
    assert_eq!(records[1].remote_address, addr(10, 0, 0, 6));
    assert_eq!(records[1].status, TcpConnectionStatus::Established);
}

#[test]
fn pending_addresses_filters_to_syn_sent() {
    let text = b"  sl  local_address rem_address   st\n\
   0: 0100007F:0016 0500000A:01BB 02\n\
   1: 0100007F:0016 0600000A:01BB 01\n\
   2: 0100007F:0016 0700000A:01BB 02\n"
        .to_vec();
    let pending = pending_addresses(&text);
    assert_eq!(pending.len(), 2);
    assert_eq!(pending[0], addr(10, 0, 0, 5));
    assert_eq!(pending[1], addr(10, 0, 0, 7));
}

#[test]
fn pending_addresses_of_header_only_or_empty_table() {
    assert!(pending_addresses(&b"".to_vec()).is_empty());
    assert!(pending_addresses(&b"  sl  local_address rem_address   st\n".to_vec()).is_empty());
}

#[test]
fn carriage_returns_before_newlines_are_stripped() {
    let text = b"header\r\n   0: 0100007F:0016 0500000A:01BB 02\r\n".to_vec();
    let pending = pending_addresses(&text);
    assert_eq!(pending.len(), 1);
    assert_eq!(pending[0], addr(10, 0, 0, 5));
}

#[test]
fn record_equality_is_address_and_status() {
    let a = TcpConnectionInfo::parse_line(&b"0 x 0500000A:01BB 02".to_vec()).unwrap();
    let b = TcpConnectionInfo::parse_line(&b"1 y 0500000A:0050 02".to_vec()).unwrap();
    let c = TcpConnectionInfo::parse_line(&b"2 z 0500000A:0050 01".to_vec()).unwrap();
    assert_eq!(a, b);
    assert_ne!(a, c);
}

#[test]
fn dedup_collapses_only_consecutive_duplicates() {
    let text = b"header\n\
   0: x 0500000A:01BB 02\n\
   1: x 0600000A:01BB 02\n\
   2: x 0500000A:01BB 02\n"
        .to_vec();
    // The two 10.0.0.5 records are separated, so both survive dedup.
    let pending = pending_addresses(&text);
    assert_eq!(pending.len(), 3);
    assert_eq!(pending[0], addr(10, 0, 0, 5));
    assert_eq!(pending[1], addr(10, 0, 0, 6));
    assert_eq!(pending[2], addr(10, 0, 0, 5));
}
