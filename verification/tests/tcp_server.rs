use redacted_geyser::packet::{create_response, tcp_frame_size, write_tcp_frame, Timespec};
use redacted_geyser::redacted_tcp_server::{
    has_end_guard, is_whole_config, request_size, RedactedGeyserServer, SendEvent, SendState,
};
use redacted_geyser::redacted_tcp_types::{
    RedactedGeyserError, REDACTED_GEYSER_MAX_CLIENTS, REDACTED_GEYSER_NOTIFY_ACCOUNT_UPDATE,
    REDACTED_GEYSER_PACKET_MAX_SIZE, REDACTED_GEYSER_SET_PROGRAM_CONFIG,
};

fn server(work_orders: usize) -> RedactedGeyserServer {
    RedactedGeyserServer::with_limits("127.0.0.1:10000", 10_000, work_orders)
}

/// Publishes an update of an account that belongs to `owner`.
fn publish(server: &mut RedactedGeyserServer, slot: u64, owner: &[u8; 32]) -> Vec<i32> {
    server.send_account_update(
        &[7; 32],
        None,
        slot,
        true,
        2,
        &[10, 11],
        owner,
        false,
        3,
        4,
        None,
    )
}

/// The packet that `publish` makes.
fn published(slot: u64, owner: &[u8; 32]) -> Vec<u8> {
    let mut packet = vec![0; tcp_frame_size(false, 2, false)];
    write_tcp_frame(
        &mut packet,
        &[7; 32],
        None,
        slot,
        2,
        &[10, 11],
        owner,
        false,
        3,
        4,
        true,
        None,
    );
    packet
}

/// The next packet in a slot's queue.
fn next_packet(server: &RedactedGeyserServer, client_index: usize) -> Option<Vec<u8>> {
    let order = server.work_orders(client_index).try_recv().ok()?;
    assert!(server.holds(order));
    Some(server.order_bytes(order).to_vec())
}

fn config(keys: &[[u8; 32]], guard: bool) -> Vec<u8> {
    let mut payload: Vec<u8> = Vec::new();
    for key in keys {
        payload.extend(key);
    }
    if guard {
        payload.push(0xA9);
    }
    payload
}

#[test]
fn tcp_new_server_has_no_clients() {
    let server = server(4);
    assert_eq!(server.listener_host(), "127.0.0.1:10000");
    assert_eq!(server.client_count(), 0);
    for i in 0..REDACTED_GEYSER_MAX_CLIENTS {
        assert_eq!(server.client(i), 0);
        assert_eq!(next_packet(&server, i), None);
    }
    assert!(!server.wants(&[1; 32]));
}

#[test]
fn tcp_update_without_clients_does_nothing() {
    let mut server = server(4);
    assert_eq!(publish(&mut server, 1, &[1; 32]), Vec::<i32>::new());
    assert_eq!(next_packet(&server, 0), None);
}

#[test]
fn tcp_update_reaches_every_client() {
    let mut server = server(4);
    assert_eq!(server.add_client(40), Some(0));
    assert_eq!(server.add_client(41), Some(1));
    assert_eq!(publish(&mut server, 9, &[1; 32]), Vec::<i32>::new());
    assert_eq!(publish(&mut server, 10, &[1; 32]), Vec::<i32>::new());
    for i in 0..2 {
        assert_eq!(next_packet(&server, i), Some(published(9, &[1; 32])));
        assert_eq!(next_packet(&server, i), Some(published(10, &[1; 32])));
        assert_eq!(next_packet(&server, i), None);
    }
    assert_eq!(next_packet(&server, 2), None);
}

#[test]
fn tcp_update_with_signature_and_timestamp() {
    let mut server = server(4);
    assert_eq!(server.add_client(40), Some(0));
    let timestamp = Timespec {
        tv_sec: 5,
        tv_nsec: 6,
    };
    let signature = [9u8; 64];
    let closed = server.send_account_update(
        &[7; 32],
        Some(&signature),
        1,
        false,
        2,
        &[],
        &[8; 32],
        true,
        3,
        4,
        Some(timestamp),
    );
    assert_eq!(closed, Vec::<i32>::new());
    let mut expected = vec![0; 191];
    write_tcp_frame(
        &mut expected,
        &[7; 32],
        Some(&signature),
        1,
        2,
        &[],
        &[8; 32],
        true,
        3,
        4,
        false,
        Some(timestamp),
    );
    assert_eq!(next_packet(&server, 0), Some(expected));
}

#[test]
fn tcp_slow_client_is_let_go_of() {
    let mut server = server(2);
    assert_eq!(server.add_client(40), Some(0));
    assert_eq!(server.add_client(41), Some(1));
    assert_eq!(publish(&mut server, 1, &[1; 32]), Vec::<i32>::new());
    assert_eq!(publish(&mut server, 2, &[1; 32]), Vec::<i32>::new());
    // The first client takes a packet out, the second falls behind.
    assert_eq!(next_packet(&server, 0), Some(published(1, &[1; 32])));
    assert_eq!(publish(&mut server, 3, &[1; 32]), vec![41]);
    assert_eq!(server.client(0), 40);
    assert_eq!(server.client(1), 0);
    assert_eq!(server.client_count(), 2);
    assert_eq!(next_packet(&server, 0), Some(published(2, &[1; 32])));
    assert_eq!(next_packet(&server, 0), Some(published(3, &[1; 32])));
    assert_eq!(next_packet(&server, 1), Some(published(1, &[1; 32])));
    assert_eq!(next_packet(&server, 1), Some(published(2, &[1; 32])));
    assert_eq!(next_packet(&server, 1), None);
    // Its connection ends when its reader notices.
    server.remove_client(1);
    assert_eq!(server.client_count(), 1);
}

#[test]
fn tcp_settled_offers() {
    let mut server = server(2);
    assert_eq!(server.add_client(40), Some(0));
    assert_eq!(server.settle_offer(0, true), None);
    assert_eq!(server.client(0), 40);
    assert_eq!(server.settle_offer(0, false), Some(40));
    assert_eq!(server.client(0), 0);
    assert_eq!(server.client_count(), 1);
}

#[test]
fn tcp_work_orders_are_offered_as_they_are() {
    let mut server = server(1);
    assert_eq!(server.add_client(40), Some(0));
    assert_eq!(server.send_request((3, 5)), Vec::<i32>::new());
    assert_eq!(server.work_orders(0).try_recv(), Ok((3, 5)));
    assert_eq!(server.send_request((4, 6)), Vec::<i32>::new());
    assert_eq!(server.send_request((5, 7)), vec![40]);
}

#[test]
fn tcp_chosen_programs_filter_updates() {
    let mut server = server(8);
    assert_eq!(server.add_client(40), Some(0));
    assert!(server.wants(&[1; 32]));
    let payload = config(&[[1; 32], [2; 32], [1; 32]], true);
    assert!(server
        .handle_request(REDACTED_GEYSER_SET_PROGRAM_CONFIG, &payload)
        .is_ok());
    assert!(server.wants(&[1; 32]));
    assert!(server.wants(&[2; 32]));
    assert!(!server.wants(&[3; 32]));
    assert_eq!(publish(&mut server, 1, &[3; 32]), Vec::<i32>::new());
    assert_eq!(next_packet(&server, 0), None);
    assert_eq!(publish(&mut server, 2, &[2; 32]), Vec::<i32>::new());
    assert_eq!(next_packet(&server, 0), Some(published(2, &[2; 32])));
}

#[test]
fn tcp_configuration_replaces_the_one_before() {
    let mut server = server(8);
    assert_eq!(server.add_client(40), Some(0));
    server.handle_set_program_config(&config(&[[1; 32]], false));
    assert!(server.wants(&[1; 32]));
    server.handle_set_program_config(&config(&[[2; 32]], true));
    assert!(!server.wants(&[1; 32]));
    assert!(server.wants(&[2; 32]));
    // A request with no key lets every update through again.
    server.handle_set_program_config(&config(&[], true));
    assert!(server.wants(&[1; 32]));
}

#[test]
fn tcp_other_requests_do_nothing() {
    let mut server = server(8);
    assert_eq!(server.add_client(40), Some(0));
    server.handle_set_program_config(&config(&[[1; 32]], true));
    assert!(server
        .handle_request(REDACTED_GEYSER_NOTIFY_ACCOUNT_UPDATE, &[1, 2, 3])
        .is_ok());
    assert!(server.handle_request(77, &[]).is_ok());
    assert!(server.wants(&[1; 32]));
    assert!(!server.wants(&[2; 32]));
}

#[test]
fn whole_configurations() {
    assert!(!is_whole_config(&[]));
    assert!(is_whole_config(&[0xA9]));
    assert!(!is_whole_config(&[0; 2]));
    assert!(!is_whole_config(&[0; 31]));
    assert!(is_whole_config(&[0; 32]));
    assert!(is_whole_config(&[0; 33]));
    assert!(!is_whole_config(&[0; 34]));
    assert!(is_whole_config(&[0; 64]));
}

#[test]
fn request_headers() {
    assert_eq!(request_size(&[0x9A, 0, 33, 0, 0, 0]), Some(33));
    assert_eq!(request_size(&[0x9A, 1, 0, 1, 0, 0]), Some(256));
    // The start guard is missing.
    assert_eq!(request_size(&[0, 1, 0, 1, 0, 0]), None);
    assert_eq!(request_size(&[0xA9, 0, 33, 0, 0, 0]), None);
    assert_eq!(request_size(&[0x9A, 2, 33, 0, 0, 0]), None);
    let largest = REDACTED_GEYSER_PACKET_MAX_SIZE.to_le_bytes();
    assert_eq!(
        request_size(&[0x9A, 0, largest[0], largest[1], largest[2], largest[3]]),
        Some(10 * 1024 * 1024)
    );
    let larger = (REDACTED_GEYSER_PACKET_MAX_SIZE + 1).to_le_bytes();
    assert_eq!(
        request_size(&[0x9A, 0, larger[0], larger[1], larger[2], larger[3]]),
        None
    );
}

#[test]
fn tcp_requests_take_a_region_of_the_pool() {
    let mut server = server(8);
    assert_eq!(server.add_client(40), Some(0));
    assert_eq!(server.begin_request(&[0x9A, 9, 33, 0, 0, 0]), None);
    assert_eq!(
        server.begin_request(&[0x9A, 0, 33, 0, 0, 0]),
        Some((0, (0, 33)))
    );
    assert_eq!(
        server.begin_request(&[0x9A, 1, 4, 0, 0, 0]),
        Some((1, (33, 4)))
    );
    let payload = config(&[[3; 32]], true);
    assert!(server.finish_request(0, (0, 33), &payload).is_ok());
    assert_eq!(server.order_bytes((0, 33)).to_vec(), payload);
    assert_eq!(server.order_bytes((33, 4)).to_vec(), vec![0; 4]);
    assert!(server.wants(&[3; 32]));
    assert!(!server.wants(&[4; 32]));
}

#[test]
fn tcp_requests_without_guards_are_refused() {
    let mut server = server(8);
    assert_eq!(server.add_client(40), Some(0));
    server.handle_set_program_config(&config(&[[1; 32]], true));
    assert_eq!(server.begin_request(&[0x9B, 0, 33, 0, 0, 0]), None);
    let request = server.begin_request(&[0x9A, 0, 33, 0, 0, 0]);
    assert_eq!(request, Some((0, (0, 33))));
    let mut payload = config(&[[3; 32]], true);
    payload[32] = 0xAA;
    assert_eq!(
        server.finish_request(0, (0, 33), &payload),
        Err(RedactedGeyserError::InvalidRequest)
    );
    assert!(server.wants(&[1; 32]));
    assert!(!server.wants(&[3; 32]));
    assert_eq!(
        server.finish_request(0, (0, 0), &[]),
        Err(RedactedGeyserError::InvalidRequest)
    );
    assert_eq!(
        server.finish_request(1, (0, 2), &[0xA9, 0]),
        Err(RedactedGeyserError::InvalidRequest)
    );
    assert_eq!(server.finish_request(1, (0, 2), &[0, 0xA9]), Ok(()));
    assert!(server.wants(&[1; 32]));
    payload[32] = 0xA9;
    assert_eq!(server.finish_request(0, (0, 33), &payload), Ok(()));
    assert!(server.wants(&[3; 32]));
    assert!(!server.wants(&[1; 32]));
}

#[test]
fn tcp_configuration_of_whole_keys_to_the_end() {
    let mut server = server(8);
    assert_eq!(server.add_client(40), Some(0));
    let mut key = [3u8; 32];
    key[31] = 0xA9;
    assert_eq!(server.finish_request(0, (0, 32), &key), Ok(()));
    assert!(server.wants(&key));
    assert!(!server.wants(&[3; 32]));
}

#[test]
fn end_guards() {
    assert!(!has_end_guard(&[]));
    assert!(has_end_guard(&[0xA9]));
    assert!(has_end_guard(&[0, 0xA9]));
    assert!(!has_end_guard(&[0xA9, 0]));
}

#[test]
fn built_requests_are_taken_on() {
    let mut packet = [0u8; 39];
    assert_eq!(create_response(0, 39, &mut packet), 6);
    let header = [packet[0], packet[1], packet[2], packet[3], packet[4], packet[5]];
    assert_eq!(request_size(&header), Some(33));
    assert!(has_end_guard(&packet[6..]));
}

#[test]
fn tcp_short_writes_are_continued() {
    let mut server = server(1);
    assert_eq!(server.add_client(5), Some(0));
    let order = (2, 4);
    assert_eq!(server.finish_request(1, order, &[1, 2, 3, 0xA9]), Ok(()));
    let mut received: Vec<u8> = Vec::new();
    let mut sender = server.next_send(0, server.start_send(0), SendEvent::Order(order));
    for sent in [3usize, 0, 1] {
        if let SendState::Sending {
            order, remainder, ..
        } = sender
        {
            let pending = server.pending_bytes(order, remainder);
            assert_eq!(pending.len(), remainder);
            received.extend(&pending[..sent]);
        }
        sender = server.next_send(0, sender, SendEvent::Sent(sent));
    }
    assert_eq!(sender, SendState::AwaitOrder { client: 5 });
    assert_eq!(received, vec![1, 2, 3, 0xA9]);
    assert_eq!(server.pending_bytes(order, 4), server.order_bytes(order));
    assert_eq!(server.pending_bytes(order, 0).len(), 0);
}

#[test]
fn tcp_failed_send_disconnects_the_client() {
    let mut server = server(1);
    assert_eq!(server.add_client(5), Some(0));
    assert_eq!(server.add_client(6), Some(1));
    let sending = server.next_send(0, server.start_send(0), SendEvent::Order((0, 3)));
    assert_eq!(
        server.next_send(0, sending, SendEvent::Failed),
        SendState::Stopped
    );
    assert_eq!(server.end_send(0, 5), Some(5));
    assert_eq!(server.client(0), 0);
    assert_eq!(server.client(1), 6);
    assert_eq!(server.client_count(), 2);
    // The client is gone from the slot, or another one has taken it.
    assert_eq!(server.end_send(0, 5), None);
    server.remove_client(0);
    assert_eq!(server.add_client(7), Some(0));
    assert_eq!(server.end_send(0, 5), None);
    assert_eq!(server.client(0), 7);
}

#[test]
fn tcp_room_in_the_pool() {
    let server = server(8);
    assert!(server.has_room(10_000, 1));
    assert!(!server.has_room(10_001, 50));
    assert!(server.holds((9_999, 1)));
    assert!(!server.holds((9_999, 2)));
    assert!(!server.holds((usize::MAX, usize::MAX)));
}

#[test]
fn tcp_clients_fill_the_slots() {
    let mut server = server(1);
    for i in 0..REDACTED_GEYSER_MAX_CLIENTS {
        assert_eq!(server.add_client(10 + i as i32), Some(i));
    }
    assert_eq!(server.client_count(), 8);
    assert_eq!(server.add_client(99), None);
    assert_eq!(server.client_count(), 8);
    server.remove_client(3);
    assert_eq!(server.client_count(), 7);
    assert_eq!(server.client(3), 0);
    assert_eq!(server.add_client(99), Some(3));
    assert_eq!(server.client(3), 99);
}

#[test]
fn tcp_add_then_remove_restores() {
    let mut server = server(1);
    assert_eq!(server.add_client(5), Some(0));
    assert_eq!(server.add_client(6), Some(1));
    server.remove_client(1);
    assert_eq!(server.client_count(), 1);
    assert_eq!(server.client(0), 5);
    assert_eq!(server.client(1), 0);
}

#[test]
fn tcp_no_slot_is_given_while_connections_are_counted() {
    let mut server = server(1);
    for i in 0..REDACTED_GEYSER_MAX_CLIENTS {
        assert_eq!(server.add_client(10 + i as i32), Some(i));
    }
    // A client that was let go of is counted until its connection ends.
    assert_eq!(server.settle_offer(2, false), Some(12));
    assert_eq!(server.add_client(99), None);
    server.remove_client(2);
    assert_eq!(server.add_client(99), Some(2));
}

#[test]
fn tcp_closing_returns_all_descriptors() {
    let mut server = server(1);
    assert_eq!(server.add_client(5), Some(0));
    assert_eq!(server.add_client(6), Some(1));
    assert_eq!(server.add_client(7), Some(2));
    server.remove_client(1);
    assert_eq!(server.close_all(), vec![5, 7]);
    assert_eq!(server.close_all(), Vec::<i32>::new());
}

#[test]
fn tcp_sender_sends_until_nothing_is_left() {
    let mut server = server(1);
    assert_eq!(server.start_send(0), SendState::Stopped);
    assert_eq!(server.add_client(5), Some(0));
    let waiting = server.start_send(0);
    assert_eq!(waiting, SendState::AwaitOrder { client: 5 });
    let order = (20, 10);
    let sending = server.next_send(0, waiting, SendEvent::Order(order));
    assert_eq!(
        sending,
        SendState::Sending {
            client: 5,
            order,
            remainder: 10
        }
    );
    assert_eq!(server.next_send(0, sending, SendEvent::WouldBlock), sending);
    let rest = server.next_send(0, sending, SendEvent::Sent(4));
    assert_eq!(
        rest,
        SendState::Sending {
            client: 5,
            order,
            remainder: 6
        }
    );
    assert_eq!(server.next_send(0, rest, SendEvent::Sent(0)), rest);
    assert_eq!(server.next_send(0, rest, SendEvent::Sent(6)), waiting);
}

#[test]
fn tcp_sender_stops() {
    let mut server = server(1);
    assert_eq!(server.add_client(5), Some(0));
    let waiting = server.start_send(0);
    assert_eq!(
        server.next_send(0, waiting, SendEvent::ChannelClosed),
        SendState::Stopped
    );
    let sending = server.next_send(0, waiting, SendEvent::Order((0, 3)));
    assert_eq!(
        server.next_send(0, sending, SendEvent::Failed),
        SendState::Stopped
    );
    // The order at hand is finished even if the client is gone; then the sender stops.
    server.remove_client(0);
    let rest = server.next_send(0, sending, SendEvent::Sent(1));
    assert_eq!(
        rest,
        SendState::Sending {
            client: 5,
            order: (0, 3),
            remainder: 2
        }
    );
    assert_eq!(
        server.next_send(0, rest, SendEvent::Sent(2)),
        SendState::Stopped
    );
}
