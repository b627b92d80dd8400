use redacted_geyser::packet::{udp_frame_size, write_udp_frame};
use redacted_geyser::redacted_tcp_types::{
    REDACTED_GEYSER_MAX_CLIENTS, REDACTED_GEYSER_PACKET_MAX_SIZE,
    REDACTED_GEYSER_SET_PROGRAM_CONFIG,
};
use redacted_geyser::redacted_udp_server::{
    accepts_packet, sockaddr_from_std, sockaddr_ip_addr_port, RedactedGeyserServer, SendEvent,
    SendState, SockaddrIn, SocketAddress,
};

const HEARTBEAT: u8 = 2;
const TIMEOUT: u64 = 30;
const SECOND: u128 = 1_000_000_000;

fn server(work_orders: usize) -> RedactedGeyserServer {
    RedactedGeyserServer::with_limits(HEARTBEAT, TIMEOUT, 0, 10_000, work_orders)
}

fn address(last: u8) -> SocketAddress {
    SocketAddress::V4 {
        octets: [10, 0, 0, last],
        port: 0x1234,
    }
}

fn sockaddr(last: u8) -> SockaddrIn {
    SockaddrIn {
        sin_addr: [10, 0, 0, last],
        sin_port: [0x12, 0x34],
    }
}

/// A whole packet around a payload.
fn packet(request_type: u8, payload: &[u8]) -> Vec<u8> {
    let mut packet = vec![0x9A, request_type];
    packet.extend((payload.len() as u32 + 1).to_le_bytes());
    packet.extend(payload);
    packet.push(0xA9);
    packet
}

fn publish(server: &mut RedactedGeyserServer, slot: u64, owner: &[u8; 32]) {
    server.send_account_update(
        &[7; 32],
        None,
        slot,
        2,
        &[10, 11],
        owner,
        false,
        3,
        4,
        true,
    );
}

fn published(slot: u64, owner: &[u8; 32]) -> Vec<u8> {
    let mut packet = vec![0; udp_frame_size(false, 2)];
    write_udp_frame(
        &mut packet,
        &[7; 32],
        None,
        slot,
        2,
        &[10, 11],
        owner,
        false,
        3,
        4,
        true,
    );
    packet
}

fn next_packet(server: &RedactedGeyserServer, client_index: usize) -> Option<Vec<u8>> {
    let order = server.work_orders(client_index).try_recv().ok()?;
    assert!(server.holds(order));
    Some(server.order_bytes(order).to_vec())
}

/// Makes the sender at `from` a client, and starts its sender.
fn join(server: &mut RedactedGeyserServer, from: &SocketAddress, now: u128) -> Option<usize> {
    let client_index = server.handle_packet(&packet(9, &[]), from, now);
    if client_index.is_some() {
        assert_eq!(server.start_send(), SendState::AwaitOrder);
    }
    client_index
}

#[test]
fn addresses_are_taken_byte_by_byte() {
    let from = SocketAddress::V4 {
        octets: [127, 0, 0, 1],
        port: 10_000,
    };
    assert_eq!(
        sockaddr_from_std(&from),
        Some(SockaddrIn {
            sin_addr: [127, 0, 0, 1],
            sin_port: 10_000u16.to_be_bytes()
        })
    );
    assert_eq!(
        sockaddr_ip_addr_port(&from),
        ([127, 0, 0, 1], 10_000u16.to_be_bytes())
    );
    assert_eq!(sockaddr_from_std(&SocketAddress::V6), None);
    assert_eq!(
        sockaddr_ip_addr_port(&SocketAddress::V6),
        ([0, 0, 0, 0], [0, 0])
    );
    assert!(sockaddr(1).is_at(&[10, 0, 0, 1], &[0x12, 0x34]));
    assert!(!sockaddr(1).is_at(&[10, 0, 0, 2], &[0x12, 0x34]));
    assert!(!sockaddr(1).is_at(&[10, 0, 0, 1], &[0x12, 0x35]));
}

#[test]
fn whole_packets() {
    assert!(accepts_packet(&packet(0, &[1, 2, 3])));
    assert!(accepts_packet(&packet(0, &[])));
    assert!(!accepts_packet(&[]));
    assert!(!accepts_packet(&[0x9A, 0, 0, 0, 0]));
    // Nothing behind the header: the end guard is missing.
    assert!(!accepts_packet(&[0x9A, 0, 0, 0, 0, 0]));
    assert!(!accepts_packet(&[0x9B, 0, 1, 0, 0, 0, 0xA9]));
    assert!(!accepts_packet(&[0x9A, 0, 1, 0, 0, 0, 0xAA]));
    assert!(!accepts_packet(&[0x9A, 0, 2, 0, 0, 0, 0xA9]));
    assert!(!accepts_packet(&[0x9A, 0, 1, 0, 0, 0, 0, 0xA9]));
    assert!(accepts_packet(&packet(
        0,
        &vec![0; REDACTED_GEYSER_PACKET_MAX_SIZE as usize - 1]
    )));
    assert!(!accepts_packet(&packet(
        0,
        &vec![0; REDACTED_GEYSER_PACKET_MAX_SIZE as usize]
    )));
}

#[test]
fn udp_new_server_has_no_clients() {
    let server = server(4);
    assert_eq!(server.client_count(), 0);
    for i in 0..REDACTED_GEYSER_MAX_CLIENTS {
        assert_eq!(server.client(i), None);
        assert_eq!(server.last_heartbeat(i), 0);
    }
    assert!(!server.wants(&[0; 32]));
}

#[test]
fn udp_request_makes_its_sender_a_client() {
    let mut server = server(4);
    assert_eq!(server.handle_packet(&packet(0, &[]), &address(1), 5), Some(0));
    assert_eq!(server.client(0), Some(sockaddr(1)));
    assert_eq!(server.last_heartbeat(0), 5);
    assert_eq!(server.client_count(), 0);
    assert_eq!(server.start_send(), SendState::AwaitOrder);
    assert_eq!(server.client_count(), 1);
    // The same sender gets no second slot, and its time is not noted.
    assert_eq!(server.handle_packet(&packet(0, &[]), &address(1), 9), None);
    assert_eq!(server.last_heartbeat(0), 5);
    assert_eq!(server.handle_packet(&packet(7, &[1]), &address(2), 10), Some(1));
    assert_eq!(server.client(1), Some(sockaddr(2)));
}

#[test]
fn udp_broken_packets_change_nothing() {
    let mut server = server(4);
    assert_eq!(server.handle_packet(&[0x9A, 0], &address(1), 5), None);
    assert_eq!(
        server.handle_packet(&[0x9A, 0, 1, 0, 0, 0, 0], &address(1), 5),
        None
    );
    assert_eq!(server.client(0), None);
}

#[test]
fn udp_clients_at_ipv6_addresses_are_not_served() {
    let mut server = server(4);
    let key = [6u8; 32];
    assert_eq!(
        server.handle_packet(&packet(0, &key), &SocketAddress::V6, 5),
        None
    );
    assert_eq!(server.client(0), None);
    // The request itself is handled.
    assert_eq!(join(&mut server, &address(1), 6), Some(0));
    assert!(server.wants(&key));
    assert!(!server.wants(&[7; 32]));
}

#[test]
fn udp_no_more_clients_than_slots() {
    let mut server = server(4);
    for i in 0..REDACTED_GEYSER_MAX_CLIENTS {
        assert_eq!(join(&mut server, &address(i as u8), 1), Some(i));
    }
    assert_eq!(server.client_count(), 8);
    assert_eq!(join(&mut server, &address(100), 1), None);
    server.finish_send(5);
    assert_eq!(server.client_count(), 7);
    assert_eq!(join(&mut server, &address(100), 2), Some(5));
    assert_eq!(server.client(5), Some(sockaddr(100)));
}

#[test]
fn udp_no_free_slot() {
    let mut server = server(4);
    // Eight clients whose senders have not been counted yet.
    for i in 0..REDACTED_GEYSER_MAX_CLIENTS {
        assert_eq!(server.register(&address(i as u8), 1), Some(i));
    }
    assert_eq!(server.client_count(), 0);
    assert_eq!(server.register(&address(100), 1), None);
}

#[test]
fn udp_heartbeat_is_noted_for_one_client() {
    let mut server = server(4);
    assert_eq!(join(&mut server, &address(1), 1), Some(0));
    assert_eq!(join(&mut server, &address(2), 1), Some(1));
    assert_eq!(
        server.handle_packet(&packet(HEARTBEAT, &[]), &address(2), 77),
        None
    );
    assert_eq!(server.last_heartbeat(0), 1);
    assert_eq!(server.last_heartbeat(1), 77);
    // A heartbeat of somebody else neither is noted nor makes a client.
    assert_eq!(
        server.handle_packet(&packet(HEARTBEAT, &[]), &address(3), 99),
        None
    );
    server.handle_heartbeat(&SocketAddress::V6, 99);
    assert_eq!(server.last_heartbeat(0), 1);
    assert_eq!(server.last_heartbeat(1), 77);
    assert_eq!(server.client(2), None);
}

#[test]
fn udp_silent_clients_are_let_go_of() {
    let mut server = server(4);
    assert_eq!(join(&mut server, &address(1), SECOND), Some(0));
    assert_eq!(join(&mut server, &address(2), SECOND), Some(1));
    server.handle_heartbeat(&address(2), 2 * SECOND);
    // Only whole seconds count: one nanosecond is missing.
    server.expire_clients(32 * SECOND - 1);
    assert_eq!(server.client(0), Some(sockaddr(1)));
    server.expire_clients(32 * SECOND);
    assert_eq!(server.client(0), None);
    assert_eq!(server.client(1), Some(sockaddr(2)));
    // Its sender still runs.
    assert_eq!(server.client_count(), 2);
    // A clock that stands before the last heartbeat expires nobody.
    server.expire_clients(0);
    assert_eq!(server.client(1), Some(sockaddr(2)));
    server.expire_clients(33 * SECOND);
    assert_eq!(server.client(1), None);
}

#[test]
fn udp_update_reaches_every_client() {
    let mut server = server(4);
    publish(&mut server, 8, &[1; 32]);
    assert_eq!(join(&mut server, &address(1), 1), Some(0));
    assert_eq!(join(&mut server, &address(2), 1), Some(1));
    publish(&mut server, 9, &[1; 32]);
    publish(&mut server, 10, &[1; 32]);
    for i in 0..2 {
        assert_eq!(next_packet(&server, i), Some(published(9, &[1; 32])));
        assert_eq!(next_packet(&server, i), Some(published(10, &[1; 32])));
        assert_eq!(next_packet(&server, i), None);
    }
    assert_eq!(next_packet(&server, 2), None);
}

#[test]
fn udp_slow_client_is_let_go_of() {
    let mut server = server(1);
    assert_eq!(join(&mut server, &address(1), 1), Some(0));
    assert_eq!(join(&mut server, &address(2), 1), Some(1));
    publish(&mut server, 1, &[1; 32]);
    assert_eq!(next_packet(&server, 1), Some(published(1, &[1; 32])));
    publish(&mut server, 2, &[1; 32]);
    assert_eq!(server.client(0), None);
    assert_eq!(server.client(1), Some(sockaddr(2)));
    assert_eq!(server.client_count(), 1);
    assert_eq!(next_packet(&server, 0), Some(published(1, &[1; 32])));
    assert_eq!(next_packet(&server, 0), None);
    assert_eq!(next_packet(&server, 1), Some(published(2, &[1; 32])));
}

#[test]
fn udp_settled_offers() {
    let mut server = server(1);
    assert_eq!(join(&mut server, &address(1), 1), Some(0));
    server.settle_offer(0, true);
    assert_eq!(server.client(0), Some(sockaddr(1)));
    server.settle_offer(0, false);
    assert_eq!(server.client(0), None);
    assert_eq!(server.client_count(), 0);
    // The sender ends later, and is counted off a second time.
    server.finish_send(0);
    assert_eq!(server.client_count(), usize::MAX);
}

#[test]
fn udp_work_orders_are_offered_as_they_are() {
    let mut server = server(1);
    assert_eq!(join(&mut server, &address(1), 1), Some(0));
    server.send_request((3, 5));
    assert_eq!(server.work_orders(0).try_recv(), Ok((3, 5)));
    assert!(server.work_orders(0).try_recv().is_err());
}

#[test]
fn udp_configuration_chooses_programs() {
    let mut server = server(8);
    let mut payload: Vec<u8> = Vec::new();
    payload.extend([1u8; 32]);
    payload.extend([2u8; 32]);
    let request = packet(REDACTED_GEYSER_SET_PROGRAM_CONFIG, &payload);
    assert_eq!(server.handle_packet(&request, &address(1), 1), Some(0));
    assert_eq!(server.start_send(), SendState::AwaitOrder);
    assert!(server.wants(&[1; 32]));
    assert!(server.wants(&[2; 32]));
    assert!(!server.wants(&[3; 32]));
    publish(&mut server, 1, &[3; 32]);
    assert_eq!(next_packet(&server, 0), None);
    publish(&mut server, 2, &[1; 32]);
    assert_eq!(next_packet(&server, 0), Some(published(2, &[1; 32])));
}

#[test]
fn udp_configuration_passes_over_loose_bytes() {
    let mut server = server(8);
    assert_eq!(join(&mut server, &address(1), 1), Some(0));
    let mut payload = vec![1u8; 32];
    payload.extend([5u8; 31]);
    server.handle_set_program_config(&payload);
    assert!(server.wants(&[1; 32]));
    assert!(!server.wants(&[5; 32]));
    server.handle_set_program_config(&[]);
    assert!(server.wants(&[5; 32]));
    assert!(server.handle_request(1, &payload).is_ok());
    assert!(server.wants(&[5; 32]));
}

#[test]
fn udp_sender_sends_each_order_once() {
    let mut server = server(1);
    assert_eq!(join(&mut server, &address(1), 1), Some(0));
    let waiting = SendState::AwaitOrder;
    let sending = server.next_send(0, waiting, SendEvent::Order((1, 2)));
    assert_eq!(sending, SendState::Sending { order: (1, 2) });
    assert_eq!(server.next_send(0, sending, SendEvent::WouldBlock), sending);
    assert_eq!(server.next_send(0, sending, SendEvent::Sent), waiting);
}

#[test]
fn udp_sender_stops() {
    let mut server = server(1);
    assert_eq!(join(&mut server, &address(1), 1), Some(0));
    let waiting = SendState::AwaitOrder;
    let sending = server.next_send(0, waiting, SendEvent::Order((1, 2)));
    assert_eq!(
        server.next_send(0, sending, SendEvent::Failed),
        SendState::Stopped
    );
    assert_eq!(
        server.next_send(0, waiting, SendEvent::ChannelClosed),
        SendState::Stopped
    );
    server.expire_clients(100 * SECOND);
    assert_eq!(
        server.next_send(0, waiting, SendEvent::Order((1, 2))),
        SendState::Stopped
    );
    server.finish_send(0);
    assert_eq!(server.client_count(), 0);
}

#[test]
fn udp_clearing_lets_go_of_everybody() {
    let mut server = server(1);
    assert_eq!(join(&mut server, &address(1), 1), Some(0));
    assert_eq!(join(&mut server, &address(2), 1), Some(1));
    server.clear_clients();
    assert_eq!(server.client(0), None);
    assert_eq!(server.client(1), None);
    assert_eq!(server.client_count(), 2);
}

#[test]
fn udp_room_in_the_pool() {
    let server = server(8);
    assert!(server.has_room(10_000, 1));
    assert!(!server.has_room(10_001, 50));
    assert!(server.holds((0, 10_000)));
    assert!(!server.holds((1, 10_000)));
}
