use redacted_geyser::packet::{
    create_response, has_header, tcp_frame_size, udp_frame_size, write_tcp_frame, write_timestamp,
    write_udp_frame, write_update, Timespec,
};
use redacted_geyser::redacted_udp_server::accepts_packet;

/// The fields of an account update with the given signature, written out by hand.
fn expected_body(signature: Option<&[u8; 64]>) -> Vec<u8> {
    let mut body: Vec<u8> = Vec::new();
    body.extend([7u8; 32]);
    match signature {
        Some(signature) => {
            body.push(1);
            body.extend(signature);
        }
        None => body.push(0),
    }
    body.extend([1, 1, 0, 0, 0, 0, 0, 0]);
    body.extend([2, 0, 0, 0, 0, 0, 0, 0]);
    body.extend([3, 0, 0, 0, 0, 0, 0, 0]);
    body.extend([10, 11, 12]);
    body.extend([8u8; 32]);
    body.push(1);
    body.extend([255; 8]);
    body.extend([4, 0, 0, 0, 0, 0, 0, 0]);
    body.push(0);
    body
}

fn udp_packet(signature: Option<&[u8; 64]>) -> Vec<u8> {
    let mut packet = vec![0xEE; udp_frame_size(signature.is_some(), 3)];
    write_udp_frame(
        &mut packet,
        &[7; 32],
        signature,
        257,
        2,
        &[10, 11, 12],
        &[8; 32],
        true,
        u64::MAX,
        4,
        false,
    );
    packet
}

fn tcp_packet(signature: Option<&[u8; 64]>, timestamp: Option<Timespec>) -> Vec<u8> {
    let mut packet =
        vec![0xEE; tcp_frame_size(signature.is_some(), 3, timestamp.is_some())];
    write_tcp_frame(
        &mut packet,
        &[7; 32],
        signature,
        257,
        2,
        &[10, 11, 12],
        &[8; 32],
        true,
        u64::MAX,
        4,
        false,
        timestamp,
    );
    packet
}

#[test]
fn udp_packet_without_signature() {
    let mut expected = vec![0x9A, 1, 111, 0, 0, 0];
    expected.extend(expected_body(None));
    expected.push(0xA9);
    assert_eq!(expected.len(), 117);
    assert_eq!(udp_packet(None), expected);
}

#[test]
fn udp_packet_with_signature() {
    let signature = [5u8; 64];
    let mut expected = vec![0x9A, 1, 175, 0, 0, 0];
    expected.extend(expected_body(Some(&signature)));
    expected.push(0xA9);
    assert_eq!(udp_packet(Some(&signature)), expected);
}

#[test]
fn tcp_packet_without_timestamp_keeps_its_guard() {
    let mut expected = vec![0x9A, 1, 112, 0, 0, 0];
    expected.extend(expected_body(None));
    expected.push(0);
    expected.push(0xA9);
    assert_eq!(tcp_packet(None, None), expected);
}

#[test]
fn tcp_packet_with_everything() {
    let signature = [6u8; 64];
    let timestamp = Timespec {
        tv_sec: 3,
        tv_nsec: 1_000_000_005,
    };
    let mut expected = vec![0x9A, 1, 188, 0, 0, 0];
    expected.extend(expected_body(Some(&signature)));
    expected.push(1);
    expected.extend([3, 0, 0, 0, 0, 0, 0, 0]);
    expected.extend([5, 0, 0, 0]);
    expected.push(0xA9);
    assert_eq!(tcp_packet(Some(&signature), Some(timestamp)), expected);
}

#[test]
fn negative_clock_readings_keep_their_sign() {
    let mut buffer = [0u8; 14];
    let timestamp = Timespec {
        tv_sec: -2,
        tv_nsec: -1_000_000_003,
    };
    assert_eq!(write_timestamp(&mut buffer, 1, Some(timestamp)), 14);
    let mut expected = vec![0, 1];
    expected.extend((-2i64).to_le_bytes());
    expected.extend((-3i32).to_le_bytes());
    assert_eq!(buffer.to_vec(), expected);
    assert_eq!(write_timestamp(&mut buffer, 0, None), 1);
    assert_eq!(buffer[0], 0);
}

#[test]
fn sizes_of_packets() {
    assert_eq!(udp_frame_size(false, 0), 114);
    assert_eq!(udp_frame_size(true, 10), 188);
    assert_eq!(tcp_frame_size(false, 0, false), 115);
    assert_eq!(tcp_frame_size(false, 0, true), 127);
    assert_eq!(tcp_frame_size(true, 10, true), 201);
}

#[test]
fn response_header() {
    let mut buffer = [1u8; 9];
    assert_eq!(create_response(0, 9, &mut buffer), 6);
    assert_eq!(buffer, [0x9A, 0, 3, 0, 0, 0, 1, 1, 0xA9]);
    assert!(accepts_packet(&buffer));
    let mut buffer = [0u8; 6];
    assert_eq!(create_response(1, 0x0102_0308, &mut buffer), 6);
    assert_eq!(buffer, [0x9A, 1, 2, 3, 2, 0xA9]);
}

#[test]
fn header_needs_a_length_above_its_own() {
    assert!(!has_header(0));
    assert!(!has_header(5));
    assert!(has_header(6));
    assert!(has_header(114));
}

#[test]
fn header_length_has_32_bits() {
    assert!(!has_header(0x1_0000_0005));
    assert!(has_header(0x1_0000_0006));
}

#[test]
fn updates_are_written_at_an_offset() {
    let mut buffer = vec![0xEEu8; 120];
    let end = write_update(
        &mut buffer,
        4,
        &[7; 32],
        None,
        257,
        2,
        &[10, 11, 12],
        &[8; 32],
        true,
        u64::MAX,
        4,
        false,
    );
    assert_eq!(end, 114);
    assert_eq!(buffer[..4], [0xEE; 4]);
    assert_eq!(buffer[4..114].to_vec(), expected_body(None));
    assert_eq!(buffer[114..], [0xEE; 6]);
}

#[test]
fn different_updates_have_different_packets() {
    let signature = [0u8; 64];
    assert_ne!(udp_packet(None), udp_packet(Some(&signature)));
    let early = Timespec {
        tv_sec: 1,
        tv_nsec: 0,
    };
    let late = Timespec {
        tv_sec: 1,
        tv_nsec: 1,
    };
    assert_ne!(tcp_packet(None, Some(early)), tcp_packet(None, Some(late)));
    assert_ne!(tcp_packet(None, None), tcp_packet(None, Some(early)));
}

#[test]
fn update_packets_are_whole_packets() {
    assert!(accepts_packet(&udp_packet(None)));
    assert!(accepts_packet(&udp_packet(Some(&[1; 64]))));
}
