//! The layout of packets: the header, the body of an account update, and the guards.

use crate::redacted_tcp_types::{
    AccountFields, REDACTED_GEYSER_MAGIC_GUARD_END, REDACTED_GEYSER_MAGIC_GUARD_START,
    REDACTED_GEYSER_NOTIFY_ACCOUNT_UPDATE, REDACTED_GEYSER_PACKET_HEADER_SIZE,
};
use crate::wire::{
    append_field, flag, flag_byte, from_le32, i32_to_le, i64_to_le, laid_out, le32, le64, le_i32,
    le_i64, lemma_laid_out, lemma_le32_digits, lemma_le32_round_trip, lemma_le64_injective,
    lemma_le_i32_digits, lemma_le_i32_injective, lemma_le_i64_digits, lemma_le_i64_injective,
    put_field, u32_to_le, u64_to_le, with_field,
};
use vstd::prelude::*;

verus! {

/// A reading of the monotonic clock: whole seconds, and the nanoseconds beyond them.
#[derive(Clone, Copy, Debug)]
pub struct Timespec {
    pub tv_sec: i64,
    pub tv_nsec: i64,
}

/// The six bytes in front of a packet of `request_length` bytes in all.
pub open spec fn header(request_type: u8, request_length: u32) -> Seq<u8> {
    seq![REDACTED_GEYSER_MAGIC_GUARD_START, request_type] + le32(
        (request_length - REDACTED_GEYSER_PACKET_HEADER_SIZE) as u32,
    )
}

/// The bytes behind its header that a packet announces there.
pub open spec fn announced_length(packet: Seq<u8>) -> int {
    from_le32(packet.subrange(2, 6))
}

/// A buffer whose header has been filled in and whose last byte is the end guard.
pub open spec fn guarded(request_type: u8, request_length: u32, buffer: Seq<u8>) -> Seq<u8> {
    with_field(buffer, 0, header(request_type, request_length)).update(
        buffer.len() - 1,
        REDACTED_GEYSER_MAGIC_GUARD_END,
    )
}

/// The length that the header of a packet of `total` bytes is made from: 32 bits of it.
pub open spec fn wire_length(total: int) -> u32 {
    (total % 0x1_0000_0000) as u32
}

/// The field that says whether a signature follows, and the signature.
pub open spec fn signature_field(signature: Option<Seq<u8>>) -> Seq<u8> {
    match signature {
        Some(signature) => seq![1u8] + signature,
        None => seq![0u8],
    }
}

/// The fields of an account update, in the order in which they are sent.
#[verifier::opaque]
pub open spec fn update_body(fields: AccountFields) -> Seq<u8> {
    fields.pubkey
        + signature_field(fields.signature)
        + le64(fields.slot)
        + le64(fields.lamports)
        + le64(fields.data.len() as u64)
        + fields.data
        + fields.owner
        + seq![flag(fields.executable)]
        + le64(fields.rent_epoch)
        + le64(fields.write_version)
        + seq![flag(fields.is_sandwich)]
}

/// The nanoseconds that are sent for a clock reading: what is left of them below one second, with
/// the sign of the reading.
pub open spec fn nanos_of(tv_nsec: i64) -> i32 {
    if tv_nsec >= 0 {
        (tv_nsec % 1_000_000_000) as i32
    } else {
        (-((-tv_nsec) % 1_000_000_000)) as i32
    }
}

/// The field that says whether a clock reading follows, and the reading.
pub open spec fn timestamp_field(timestamp: Option<Timespec>) -> Seq<u8> {
    match timestamp {
        Some(timestamp) => seq![1u8] + le_i64(timestamp.tv_sec) + le_i32(
            nanos_of(timestamp.tv_nsec),
        ),
        None => seq![0u8],
    }
}

/// The packet of a payload: the header, the payload and the end guard.
pub open spec fn notify_frame(payload: Seq<u8>) -> Seq<u8> {
    header(
        REDACTED_GEYSER_NOTIFY_ACCOUNT_UPDATE,
        wire_length(REDACTED_GEYSER_PACKET_HEADER_SIZE + payload.len() + 1),
    ) + payload + seq![REDACTED_GEYSER_MAGIC_GUARD_END]
}

/// The packet that tells a TCP client of an account update.
pub open spec fn tcp_frame(fields: AccountFields, timestamp: Option<Timespec>) -> Seq<u8> {
    notify_frame(update_body(fields) + timestamp_field(timestamp))
}

/// The packet that tells a UDP client of an account update.
pub open spec fn udp_frame(fields: AccountFields) -> Seq<u8> {
    notify_frame(update_body(fields))
}

/// How many bytes a UDP packet takes for an account with so much data: the fixed fields, the data,
/// and the signature where there is one.
pub open spec fn udp_size(has_signature: bool, data_len: int) -> int {
    114 + data_len + (if has_signature {
        64int
    } else {
        0int
    })
}

/// How many bytes a TCP packet takes for an account with so much data: beyond those of a UDP
/// packet, the presence of a clock reading, and the reading where there is one.
pub open spec fn tcp_size(has_signature: bool, data_len: int, include_timestamp: bool) -> int {
    udp_size(has_signature, data_len) + 1 + (if include_timestamp {
        12int
    } else {
        0int
    })
}

/// Fills in the header and the end guard of a packet, and returns the offset of its payload.
/// `request_length` is the length of the whole packet.
pub fn create_response(
    request_type: u8,
    request_length: u32,
    request_mem: &mut [u8],
) -> (offset: usize)
    requires
        request_length >= REDACTED_GEYSER_PACKET_HEADER_SIZE,
        old(request_mem)@.len() >= REDACTED_GEYSER_PACKET_HEADER_SIZE,
    ensures
        offset == REDACTED_GEYSER_PACKET_HEADER_SIZE,
        final(request_mem)@ == guarded(request_type, request_length, old(request_mem)@),
{
    request_mem[0] = REDACTED_GEYSER_MAGIC_GUARD_START;
    request_mem[1] = request_type;
    let length = u32_to_le(request_length - REDACTED_GEYSER_PACKET_HEADER_SIZE as u32);
    let _end = put_field(request_mem, 2, &length);
    let last: usize = request_mem.len() - 1;
    request_mem[last] = REDACTED_GEYSER_MAGIC_GUARD_END;
    assert(request_mem@ =~= guarded(request_type, request_length, old(request_mem)@));
    REDACTED_GEYSER_PACKET_HEADER_SIZE
}

/// The fields of an account update from the arguments of a call.
pub open spec fn fields_of(
    pubkey: Seq<u8>,
    signature: Option<&[u8; 64]>,
    slot: u64,
    lamports: u64,
    data: Seq<u8>,
    owner: Seq<u8>,
    executable: bool,
    rent_epoch: u64,
    write_version: u64,
    is_sandwich: bool,
) -> AccountFields {
    AccountFields {
        pubkey,
        signature: match signature {
            Some(signature) => Some(signature@),
            None => None,
        },
        slot,
        lamports,
        data,
        owner,
        executable,
        rent_epoch,
        write_version,
        is_sandwich,
    }
}

/// Writes the fields of an account update into `request_mem` from `offset` on, and returns the
/// offset behind them.
pub fn write_update(
    request_mem: &mut [u8],
    offset: usize,
    pubkey: &[u8],
    signature: Option<&[u8; 64]>,
    slot: u64,
    lamports: u64,
    data: &[u8],
    owner: &[u8; 32],
    executable: bool,
    rent_epoch: u64,
    write_version: u64,
    is_sandwich: bool,
) -> (end: usize)
    requires
        offset + update_body(
            fields_of(
                pubkey@,
                signature,
                slot,
                lamports,
                data@,
                owner@,
                executable,
                rent_epoch,
                write_version,
                is_sandwich,
            ),
        ).len() <= old(request_mem)@.len(),
    ensures
        ({
            let body = update_body(
                fields_of(
                    pubkey@,
                    signature,
                    slot,
                    lamports,
                    data@,
                    owner@,
                    executable,
                    rent_epoch,
                    write_version,
                    is_sandwich,
                ),
            );
            &&& end == offset + body.len()
            &&& final(request_mem)@ == with_field(old(request_mem)@, offset as int, body)
        }),
{
    proof {
        reveal(update_body);
    }
    let ghost before = request_mem@;
    let ghost at = offset as int;
    let ghost s0 = pubkey@;
    let ghost s1 = s0 + signature_field(
        match signature {
            Some(signature) => Some(signature@),
            None => None,
        },
    );
    let ghost s2 = s1 + le64(slot);
    let ghost s3 = s2 + le64(lamports);
    let ghost s4 = s3 + le64(data@.len() as u64);
    let ghost s5 = s4 + data@;
    let ghost s6 = s5 + owner@;
    let ghost s7 = s6 + seq![flag(executable)];
    let ghost s8 = s7 + le64(rent_epoch);
    let ghost s9 = s8 + le64(write_version);

    proof {
        lemma_laid_out(before, at, s0);
        lemma_laid_out(before, at, s9 + seq![flag(is_sandwich)]);
    }

    let mut offset: usize = put_field(request_mem, offset, pubkey);
    offset = write_signature(
        request_mem,
        offset,
        signature,
        Ghost(before),
        Ghost(at),
        Ghost(s0),
    );

    let slot = u64_to_le(slot);
    offset = append_field(request_mem, offset, &slot, Ghost(before), Ghost(at), Ghost(s1));
    let lamports = u64_to_le(lamports);
    offset = append_field(request_mem, offset, &lamports, Ghost(before), Ghost(at), Ghost(s2));
    let data_length = u64_to_le(data.len() as u64);
    offset = append_field(request_mem, offset, &data_length, Ghost(before), Ghost(at), Ghost(s3));
    offset = append_field(request_mem, offset, data, Ghost(before), Ghost(at), Ghost(s4));
    offset = append_field(request_mem, offset, owner, Ghost(before), Ghost(at), Ghost(s5));

    let executable = [flag_byte(executable)];
    assert(executable@ =~= seq![executable[0]]);
    offset = append_field(request_mem, offset, &executable, Ghost(before), Ghost(at), Ghost(s6));
    let rent_epoch = u64_to_le(rent_epoch);
    offset = append_field(request_mem, offset, &rent_epoch, Ghost(before), Ghost(at), Ghost(s7));
    let write_version = u64_to_le(write_version);
    offset = append_field(request_mem, offset, &write_version, Ghost(before), Ghost(at), Ghost(s8));

    let is_sandwich = [flag_byte(is_sandwich)];
    assert(is_sandwich@ =~= seq![is_sandwich[0]]);
    append_field(request_mem, offset, &is_sandwich, Ghost(before), Ghost(at), Ghost(s9))
}

/// Writes whether there is a signature, and the signature.
fn write_signature(
    request_mem: &mut [u8],
    offset: usize,
    signature: Option<&[u8; 64]>,
    Ghost(before): Ghost<Seq<u8>>,
    Ghost(start): Ghost<int>,
    Ghost(fields): Ghost<Seq<u8>>,
) -> (end: usize)
    requires
        0 <= start,
        offset == start + fields.len(),
        offset + (if signature is Some { 65int } else { 1int }) <= before.len(),
        old(request_mem)@ == laid_out(before, start, fields),
    ensures
        ({
            let field = signature_field(
                match signature {
                    Some(signature) => Some(signature@),
                    None => None,
                },
            );
            &&& end == start + (fields + field).len()
            &&& final(request_mem)@ == laid_out(before, start, fields + field)
        }),
{
    match signature {
        Some(signature) => {
            let present = [1u8];
            assert(present@ =~= seq![1u8]);
            let offset = append_field(
                request_mem,
                offset,
                &present,
                Ghost(before),
                Ghost(start),
                Ghost(fields),
            );
            assert(fields + seq![1u8] + signature@ =~= fields + (seq![1u8] + signature@));
            append_field(
                request_mem,
                offset,
                signature,
                Ghost(before),
                Ghost(start),
                Ghost(fields + seq![1u8]),
            )
        },
        None => {
            let absent = [0u8];
            assert(absent@ =~= seq![0u8]);
            append_field(
                request_mem,
                offset,
                &absent,
                Ghost(before),
                Ghost(start),
                Ghost(fields),
            )
        },
    }
}

/// Writes whether there is a clock reading, and the reading, into `request_mem` at `offset`.
pub fn write_timestamp(
    request_mem: &mut [u8],
    offset: usize,
    timestamp: Option<Timespec>,
) -> (end: usize)
    requires
        offset + timestamp_field(timestamp).len() <= old(request_mem)@.len(),
    ensures
        end == offset + timestamp_field(timestamp).len(),
        final(request_mem)@ == with_field(
            old(request_mem)@,
            offset as int,
            timestamp_field(timestamp),
        ),
{
    let ghost before = request_mem@;
    match timestamp {
        Some(timestamp) => {
            let mut offset: usize = put_field(request_mem, offset, &[1u8]);
            let seconds = i64_to_le(timestamp.tv_sec);
            offset = put_field(request_mem, offset, &seconds);
            let nanos: i32 = (timestamp.tv_nsec % 1_000_000_000) as i32;
            assert(nanos == nanos_of(timestamp.tv_nsec));
            let nanos = i32_to_le(nanos);
            offset = put_field(request_mem, offset, &nanos);
            assert(request_mem@ =~= with_field(
                before,
                offset - 13,
                seq![1u8] + seconds@ + nanos@,
            ));
            offset
        },
        None => {
            let offset = put_field(request_mem, offset, &[0u8]);
            assert([0u8]@ =~= seq![0u8]);
            offset
        },
    }
}

/// How many bytes the fields of an account update take.
pub proof fn lemma_update_body_len(fields: AccountFields)
    requires
        fields.wf(),
    ensures
        update_body(fields).len() == 107 + fields.data.len() + (if fields.signature is Some {
            64int
        } else {
            0int
        }),
{
    reveal(update_body);
}

/// How many bytes the packet of an account update takes over UDP.
pub proof fn lemma_udp_frame_len(fields: AccountFields)
    requires
        fields.wf(),
    ensures
        udp_frame(fields).len() == udp_size(fields.signature is Some, fields.data.len() as int),
{
    lemma_update_body_len(fields);
    lemma_notify_frame_len(update_body(fields));
}

/// How many bytes the packet of an account update takes over TCP.
pub proof fn lemma_tcp_frame_len(fields: AccountFields, timestamp: Option<Timespec>)
    requires
        fields.wf(),
    ensures
        tcp_frame(fields, timestamp).len() == tcp_size(
            fields.signature is Some,
            fields.data.len() as int,
            timestamp is Some,
        ),
{
    lemma_update_body_len(fields);
    lemma_timestamp_field_len(timestamp);
    lemma_notify_frame_len(update_body(fields) + timestamp_field(timestamp));
}

proof fn lemma_notify_frame_len(payload: Seq<u8>)
    ensures
        notify_frame(payload).len() == payload.len() + 7,
{
}

proof fn lemma_timestamp_field_len(timestamp: Option<Timespec>)
    ensures
        timestamp_field(timestamp).len() == (if timestamp is Some { 13int } else { 1int }),
{
}

/// How many bytes the packet of an account update takes over UDP: the fixed fields, the data, and
/// the signature where there is one.
pub fn udp_frame_size(has_signature: bool, data_len: usize) -> (size: usize)
    requires
        udp_size(has_signature, data_len as int) <= usize::MAX,
    ensures
        size == udp_size(has_signature, data_len as int),
{
    let mut total_size: usize = 1  // start magic
    + 1  // request type
    + 4  // length
    + 32  // pubkey
    + 1  // presence of signature
    + 8 + 8 + 8  // slot, lamports, data length
    + data_len + 32  // owner
    + 1  // executable
    + 8  // rent epoch
    + 8  // write version
    + 1  // is sandwich
    + 1;  // end magic
    if has_signature {
        total_size += 64;
    }
    total_size
}

/// How many bytes the packet of an account update takes over TCP: beyond what UDP sends, the
/// presence of a clock reading and the reading.
pub fn tcp_frame_size(has_signature: bool, data_len: usize, include_timestamp: bool) -> (size:
    usize)
    requires
        tcp_size(has_signature, data_len as int, include_timestamp) <= usize::MAX,
    ensures
        size == tcp_size(has_signature, data_len as int, include_timestamp),
{
    let mut total_size: usize = udp_frame_size(has_signature, data_len) + 1;
    if include_timestamp {
        total_size += 8 + 4;
    }
    total_size
}

/// A guarded buffer that has been filled with a body and what follows it is a packet.
proof fn lemma_frame_assembled(buffer: Seq<u8>, body: Seq<u8>, tail: Seq<u8>)
    requires
        buffer.len() == REDACTED_GEYSER_PACKET_HEADER_SIZE + body.len() + tail.len() + 1,
    ensures
        ({
            let filled = guarded(
                REDACTED_GEYSER_NOTIFY_ACCOUNT_UPDATE,
                wire_length(buffer.len() as int),
                buffer,
            );
            let with_body = with_field(filled, REDACTED_GEYSER_PACKET_HEADER_SIZE as int, body);
            &&& filled.len() == buffer.len()
            &&& with_body.len() == buffer.len()
            &&& with_field(with_body, REDACTED_GEYSER_PACKET_HEADER_SIZE + body.len(), tail)
                == notify_frame(body + tail)
        }),
{
    let filled = guarded(
        REDACTED_GEYSER_NOTIFY_ACCOUNT_UPDATE,
        wire_length(buffer.len() as int),
        buffer,
    );
    let with_body = with_field(filled, REDACTED_GEYSER_PACKET_HEADER_SIZE as int, body);
    assert(with_field(with_body, REDACTED_GEYSER_PACKET_HEADER_SIZE + body.len(), tail)
        =~= notify_frame(body + tail));
}

/// Writes the packet of an account update for UDP clients into a buffer of its size.
pub fn write_udp_frame(
    request_mem: &mut [u8],
    pubkey: &[u8],
    signature: Option<&[u8; 64]>,
    slot: u64,
    lamports: u64,
    data: &[u8],
    owner: &[u8; 32],
    executable: bool,
    rent_epoch: u64,
    write_version: u64,
    is_sandwich: bool,
)
    requires
        pubkey@.len() == 32,
        old(request_mem)@.len() == udp_size(signature is Some, data@.len() as int),
        wire_length(old(request_mem)@.len() as int) >= REDACTED_GEYSER_PACKET_HEADER_SIZE,
    ensures
        final(request_mem)@ == udp_frame(
            fields_of(
                pubkey@,
                signature,
                slot,
                lamports,
                data@,
                owner@,
                executable,
                rent_epoch,
                write_version,
                is_sandwich,
            ),
        ),
{
    assert(data@.len() == data.len());
    proof {
        let fields = fields_of(
            pubkey@,
            signature,
            slot,
            lamports,
            data@,
            owner@,
            executable,
            rent_epoch,
            write_version,
            is_sandwich,
        );
        lemma_udp_frame_len(fields);
        lemma_frame_assembled(request_mem@, update_body(fields), Seq::empty());
    }
    let total_size = request_mem.len();
    let length = truncated(total_size);
    let offset = create_response(REDACTED_GEYSER_NOTIFY_ACCOUNT_UPDATE, length, request_mem);
    let _end = write_update(
        request_mem,
        offset,
        pubkey,
        signature,
        slot,
        lamports,
        data,
        owner,
        executable,
        rent_epoch,
        write_version,
        is_sandwich,
    );
    proof {
        let fields = fields_of(
            pubkey@,
            signature,
            slot,
            lamports,
            data@,
            owner@,
            executable,
            rent_epoch,
            write_version,
            is_sandwich,
        );
        assert(update_body(fields) + Seq::<u8>::empty() =~= update_body(fields));
        assert(request_mem@ =~= with_field(
            request_mem@,
            REDACTED_GEYSER_PACKET_HEADER_SIZE + update_body(fields).len(),
            Seq::empty(),
        ));
    }
}

/// Writes the packet of an account update for TCP clients into a buffer of its size.
pub fn write_tcp_frame(
    request_mem: &mut [u8],
    pubkey: &[u8],
    signature: Option<&[u8; 64]>,
    slot: u64,
    lamports: u64,
    data: &[u8],
    owner: &[u8; 32],
    executable: bool,
    rent_epoch: u64,
    write_version: u64,
    is_sandwich: bool,
    timestamp: Option<Timespec>,
)
    requires
        pubkey@.len() == 32,
        old(request_mem)@.len() == tcp_size(
            signature is Some,
            data@.len() as int,
            timestamp is Some,
        ),
        wire_length(old(request_mem)@.len() as int) >= REDACTED_GEYSER_PACKET_HEADER_SIZE,
    ensures
        final(request_mem)@ == tcp_frame(
            fields_of(
                pubkey@,
                signature,
                slot,
                lamports,
                data@,
                owner@,
                executable,
                rent_epoch,
                write_version,
                is_sandwich,
            ),
            timestamp,
        ),
{
    assert(data@.len() == data.len());
    proof {
        let fields = fields_of(
            pubkey@,
            signature,
            slot,
            lamports,
            data@,
            owner@,
            executable,
            rent_epoch,
            write_version,
            is_sandwich,
        );
        lemma_tcp_frame_len(fields, timestamp);
        lemma_frame_assembled(request_mem@, update_body(fields), timestamp_field(timestamp));
    }
    let total_size = request_mem.len();
    let length = truncated(total_size);
    let offset = create_response(REDACTED_GEYSER_NOTIFY_ACCOUNT_UPDATE, length, request_mem);
    let offset = write_update(
        request_mem,
        offset,
        pubkey,
        signature,
        slot,
        lamports,
        data,
        owner,
        executable,
        rent_epoch,
        write_version,
        is_sandwich,
    );
    let _end = write_timestamp(request_mem, offset, timestamp);
}

/// Whether the header of a packet of so many bytes can be made: the low 32 bits of its size, from
/// which the header's length is taken, cover the header itself.
pub fn has_header(total_size: usize) -> (possible: bool)
    ensures
        possible == (wire_length(total_size as int) >= REDACTED_GEYSER_PACKET_HEADER_SIZE),
{
    truncated(total_size) >= REDACTED_GEYSER_PACKET_HEADER_SIZE as u32
}

/// The low 32 bits of a packet's size.
fn truncated(total_size: usize) -> (length: u32)
    ensures
        length == wire_length(total_size as int),
{
    assert((total_size as u32) as int == (total_size as int) % 0x1_0000_0000) by (bit_vector);
    total_size as u32
}

/// Every packet starts with the start guard, names its operation, announces the bytes behind its
/// header, and ends with the end guard.
pub proof fn lemma_frame_is_guarded(payload: Seq<u8>)
    ensures
        ({
            let frame = notify_frame(payload);
            &&& frame.len() == REDACTED_GEYSER_PACKET_HEADER_SIZE + payload.len() + 1
            &&& frame[0] == REDACTED_GEYSER_MAGIC_GUARD_START
            &&& frame[1] == REDACTED_GEYSER_NOTIFY_ACCOUNT_UPDATE
            &&& frame.last() == REDACTED_GEYSER_MAGIC_GUARD_END
            &&& frame.len() <= u32::MAX ==> announced_length(frame) == frame.len()
                - REDACTED_GEYSER_PACKET_HEADER_SIZE
        }),
{
    let frame = notify_frame(payload);
    if frame.len() <= u32::MAX {
        let length = (frame.len() - REDACTED_GEYSER_PACKET_HEADER_SIZE) as u32;
        assert(frame.subrange(2, 6) =~= le32(length));
        lemma_le32_round_trip(length);
    }
}

/// The nanoseconds that are sent differ from those of the clock reading by whole seconds, stay
/// below one second and keep the sign. Those of a reading below one second are sent as they are.
pub proof fn lemma_nanos(tv_nsec: i64)
    ensures
        (tv_nsec - nanos_of(tv_nsec)) % 1_000_000_000 == 0,
        -1_000_000_000 < nanos_of(tv_nsec) < 1_000_000_000,
        tv_nsec >= 0 ==> nanos_of(tv_nsec) >= 0,
        tv_nsec <= 0 ==> nanos_of(tv_nsec) <= 0,
        0 <= tv_nsec < 1_000_000_000 ==> nanos_of(tv_nsec) == tv_nsec,
{
}

/// The length that a header is made from is the packet's, but for multiples of 2 to the power 32.
pub proof fn lemma_wire_length(total: int)
    requires
        0 <= total,
    ensures
        (total - wire_length(total)) % 0x1_0000_0000 == 0,
        total <= u32::MAX ==> wire_length(total) == total,
{
}

/// A buffer whose header and guards were filled in has both guards, names the operation, announces
/// the length without the header, and keeps every other byte. In a buffer that has room for the
/// header alone the end guard stands in the place of the length's last byte.
pub proof fn lemma_guarded_bytes(request_type: u8, request_length: u32, buffer: Seq<u8>)
    requires
        request_length >= 6,
        buffer.len() >= 6,
    ensures
        ({
            let packet = guarded(request_type, request_length, buffer);
            &&& packet.len() == buffer.len()
            &&& packet[0] == REDACTED_GEYSER_MAGIC_GUARD_START
            &&& packet[1] == request_type
            &&& packet[2] + 256 * packet[3] + 65536 * packet[4] == (request_length - 6)
                % 0x100_0000
            &&& packet.len() > 6 ==> packet[5] == (request_length - 6) / 0x100_0000
            &&& packet[packet.len() - 1] == REDACTED_GEYSER_MAGIC_GUARD_END
            &&& forall|j: int| 6 <= j < packet.len() - 1 ==> packet[j] == buffer[j]
        }),
{
    let length = (request_length - 6) as u32;
    let packet = guarded(request_type, request_length, buffer);
    lemma_le32_digits(length);
    assert(packet[2] == le32(length)[0]);
    assert(packet[3] == le32(length)[1]);
    assert(packet[4] == le32(length)[2]);
    assert(packet.len() > 6 ==> packet[5] == le32(length)[3]);
}

/// A packet is its payload between a header of six bytes and the end guard. The header holds the
/// start guard, the operation and the number of bytes that follow it, counted modulo 2 to the power
/// 32.
pub proof fn lemma_frame_around_payload(payload: Seq<u8>)
    ensures
        ({
            let frame = notify_frame(payload);
            &&& frame.len() == payload.len() + 7
            &&& frame[0] == REDACTED_GEYSER_MAGIC_GUARD_START
            &&& frame[1] == REDACTED_GEYSER_NOTIFY_ACCOUNT_UPDATE
            &&& frame.len() % 0x1_0000_0000 >= 6 ==> frame[2] + 256 * frame[3] + 65536 * frame[4]
                + 16777216 * frame[5] == frame.len() % 0x1_0000_0000 - 6
            &&& frame.subrange(6, 6 + payload.len() as int) == payload
            &&& frame[6 + payload.len() as int] == REDACTED_GEYSER_MAGIC_GUARD_END
        }),
{
    let frame = notify_frame(payload);
    assert(frame.subrange(6, 6 + payload.len() as int) =~= payload);
    if frame.len() % 0x1_0000_0000 >= 6 {
        let length = (frame.len() % 0x1_0000_0000 - 6) as u32;
        lemma_le32_digits(length);
        assert(frame[2] == le32(length)[0]);
        assert(frame[3] == le32(length)[1]);
        assert(frame[4] == le32(length)[2]);
        assert(frame[5] == le32(length)[3]);
    }
}

/// The fields of an update that is made from the arguments of a call are those arguments.
pub proof fn lemma_fields_of(
    pubkey: Seq<u8>,
    signature: Option<&[u8; 64]>,
    slot: u64,
    lamports: u64,
    data: Seq<u8>,
    owner: Seq<u8>,
    executable: bool,
    rent_epoch: u64,
    write_version: u64,
    is_sandwich: bool,
)
    ensures
        ({
            let fields = fields_of(
                pubkey,
                signature,
                slot,
                lamports,
                data,
                owner,
                executable,
                rent_epoch,
                write_version,
                is_sandwich,
            );
            &&& fields.pubkey == pubkey
            &&& (fields.signature is Some) == (signature is Some)
            &&& signature matches Some(bytes) ==> fields.signature == Some(bytes@)
            &&& fields.slot == slot
            &&& fields.lamports == lamports
            &&& fields.data == data
            &&& fields.owner == owner
            &&& fields.executable == executable
            &&& fields.rent_epoch == rent_epoch
            &&& fields.write_version == write_version
            &&& fields.is_sandwich == is_sandwich
        }),
{
}

/// A piece of the front of a sequence is a piece of the sequence.
proof fn lemma_front_piece(whole: Seq<u8>, front: Seq<u8>, a: Seq<u8>, b: Seq<u8>)
    requires
        front == a + b,
        front.len() <= whole.len(),
        whole.take(front.len() as int) == front,
    ensures
        whole.subrange(a.len() as int, (a.len() + b.len()) as int) == b,
        whole.take(a.len() as int) == a,
{
    assert(whole.subrange(a.len() as int, (a.len() + b.len()) as int) =~= front.subrange(
        a.len() as int,
        (a.len() + b.len()) as int,
    ));
    assert(front.subrange(a.len() as int, (a.len() + b.len()) as int) =~= b);
    assert(whole.take(a.len() as int) =~= front.take(a.len() as int));
    assert(front.take(a.len() as int) =~= a);
}

/// Sequences that are joined are read back one by one.
proof fn lemma_pieces(
    a: Seq<u8>,
    b: Seq<u8>,
    c: Seq<u8>,
    d: Seq<u8>,
    e: Seq<u8>,
    f: Seq<u8>,
    g: Seq<u8>,
    h: Seq<u8>,
    i: Seq<u8>,
    j: Seq<u8>,
    k: Seq<u8>,
    r: Seq<u8>,
)
    ensures
        ({
            let whole = a + b + c + d + e + f + g + h + i + j + k + r;
            let at_b = a.len() as int;
            let at_c = at_b + b.len();
            let at_d = at_c + c.len();
            let at_e = at_d + d.len();
            let at_f = at_e + e.len();
            let at_g = at_f + f.len();
            let at_h = at_g + g.len();
            let at_i = at_h + h.len();
            let at_j = at_i + i.len();
            let at_k = at_j + j.len();
            let at_r = at_k + k.len();
            &&& whole.len() == at_r + r.len()
            &&& whole.subrange(0, at_b) == a
            &&& whole.subrange(at_b, at_c) == b
            &&& whole.subrange(at_c, at_d) == c
            &&& whole.subrange(at_d, at_e) == d
            &&& whole.subrange(at_e, at_f) == e
            &&& whole.subrange(at_f, at_g) == f
            &&& whole.subrange(at_g, at_h) == g
            &&& whole.subrange(at_h, at_i) == h
            &&& whole.subrange(at_i, at_j) == i
            &&& whole.subrange(at_j, at_k) == j
            &&& whole.subrange(at_k, at_r) == k
            &&& whole.subrange(at_r, at_r + r.len()) == r
        }),
{
    let s1 = a + b;
    let s2 = s1 + c;
    let s3 = s2 + d;
    let s4 = s3 + e;
    let s5 = s4 + f;
    let s6 = s5 + g;
    let s7 = s6 + h;
    let s8 = s7 + i;
    let s9 = s8 + j;
    let body = s9 + k;
    let whole = body + r;
    assert(whole.take(body.len() as int) =~= body);
    assert(whole.subrange(body.len() as int, (body.len() + r.len()) as int) =~= r);
    lemma_front_piece(whole, body, s9, k);
    lemma_front_piece(whole, s9, s8, j);
    lemma_front_piece(whole, s8, s7, i);
    lemma_front_piece(whole, s7, s6, h);
    lemma_front_piece(whole, s6, s5, g);
    lemma_front_piece(whole, s5, s4, f);
    lemma_front_piece(whole, s4, s3, e);
    lemma_front_piece(whole, s3, s2, d);
    lemma_front_piece(whole, s2, s1, c);
    lemma_front_piece(whole, s1, a, b);
    assert(whole.subrange(0, a.len() as int) == whole.take(a.len() as int));
}

/// Each field of an account update is read back at its place, whatever follows the update: the key;
/// a byte that says whether a signature follows, and the signature; the slot, the lamports and the
/// length of the data, on eight bytes each; the data; the owner; the executable flag; the rent
/// epoch and the write version; and the sandwich flag.
pub proof fn lemma_update_layout(fields: AccountFields, rest: Seq<u8>)
    requires
        fields.wf(),
    ensures
        ({
            let bytes = update_body(fields) + rest;
            let n = fields.data.len();
            let p: int = if fields.signature is Some {
                97
            } else {
                33
            };
            &&& bytes.len() == p + 74 + n + rest.len()
            &&& bytes.subrange(0, 32) == fields.pubkey
            &&& bytes[32] == if fields.signature is Some {
                1u8
            } else {
                0u8
            }
            &&& fields.signature matches Some(signature) ==> bytes.subrange(33, 97) == signature
            &&& bytes.subrange(p, p + 8) == le64(fields.slot)
            &&& bytes.subrange(p + 8, p + 16) == le64(fields.lamports)
            &&& bytes.subrange(p + 16, p + 24) == le64(n as u64)
            &&& bytes.subrange(p + 24, p + 24 + n) == fields.data
            &&& bytes.subrange(p + 24 + n, p + 56 + n) == fields.owner
            &&& bytes[p + 56 + n] == if fields.executable {
                1u8
            } else {
                0u8
            }
            &&& bytes.subrange(p + 57 + n, p + 65 + n) == le64(fields.rent_epoch)
            &&& bytes.subrange(p + 65 + n, p + 73 + n) == le64(fields.write_version)
            &&& bytes[p + 73 + n] == if fields.is_sandwich {
                1u8
            } else {
                0u8
            }
            &&& bytes.subrange(p + 74 + n, p + 74 + n + rest.len()) == rest
        }),
{
    let f1 = signature_field(fields.signature);
    let f7 = seq![flag(fields.executable)];
    let f10 = seq![flag(fields.is_sandwich)];
    let bytes = update_body(fields) + rest;
    lemma_word(fields.slot);
    lemma_word(fields.lamports);
    lemma_word(fields.data.len() as u64);
    lemma_word(fields.rent_epoch);
    lemma_word(fields.write_version);
    assert(bytes == fields.pubkey + f1 + word(fields.slot) + word(fields.lamports) + word(
        fields.data.len() as u64,
    ) + fields.data + fields.owner + f7 + word(fields.rent_epoch) + word(fields.write_version) + f10
        + rest) by {
        reveal(update_body);
    }
    lemma_pieces(
        fields.pubkey,
        f1,
        word(fields.slot),
        word(fields.lamports),
        word(fields.data.len() as u64),
        fields.data,
        fields.owner,
        f7,
        word(fields.rent_epoch),
        word(fields.write_version),
        f10,
        rest,
    );
    let n = fields.data.len();
    let p: int = if fields.signature is Some {
        97
    } else {
        33
    };
    assert(32 + f1.len() == p);
    assert(bytes.subrange(p + 56 + n, p + 57 + n)[0] == f7[0]);
    assert(bytes.subrange(p + 73 + n, p + 74 + n)[0] == f10[0]);
    assert(bytes.subrange(32, p)[0] == f1[0]);
    if let Some(signature) = fields.signature {
        assert(bytes.subrange(33, 97) =~= bytes.subrange(32, 97).subrange(1, 65));
        assert(f1.subrange(1, 65) =~= signature);
    }
}

/// A UDP packet is a header, the fields of the update and the end guard.
pub proof fn lemma_udp_frame_holds_update(fields: AccountFields)
    requires
        fields.wf(),
    ensures
        ({
            let frame = udp_frame(fields);
            let n = update_body(fields).len() as int;
            &&& frame.len() == n + 7
            &&& frame[0] == REDACTED_GEYSER_MAGIC_GUARD_START
            &&& frame[1] == REDACTED_GEYSER_NOTIFY_ACCOUNT_UPDATE
            &&& frame.len() % 0x1_0000_0000 >= 6 ==> frame[2] + 256 * frame[3] + 65536 * frame[4]
                + 16777216 * frame[5] == frame.len() % 0x1_0000_0000 - 6
            &&& frame.subrange(6, 6 + n) == update_body(fields)
            &&& frame[6 + n] == REDACTED_GEYSER_MAGIC_GUARD_END
        }),
{
    lemma_frame_around_payload(update_body(fields));
}

/// A TCP packet carries the clock reading behind the fields of the update: a byte that says whether
/// there is one, eight bytes of seconds and four of nanoseconds. Nanoseconds below one second are
/// carried as they are.
pub proof fn lemma_tcp_frame_holds_reading(fields: AccountFields, timestamp: Option<Timespec>)
    requires
        fields.wf(),
    ensures
        ({
            let frame = tcp_frame(fields, timestamp);
            let at = 6 + update_body(fields).len() as int;
            &&& frame[0] == REDACTED_GEYSER_MAGIC_GUARD_START
            &&& frame[1] == REDACTED_GEYSER_NOTIFY_ACCOUNT_UPDATE
            &&& frame.len() % 0x1_0000_0000 >= 6 ==> frame[2] + 256 * frame[3] + 65536 * frame[4]
                + 16777216 * frame[5] == frame.len() % 0x1_0000_0000 - 6
            &&& frame.subrange(6, at) == update_body(fields)
            &&& timestamp is None ==> frame.len() == at + 2 && frame[at] == 0
            &&& timestamp matches Some(reading) ==> {
                let nanos = frame[at + 9] + 256 * frame[at + 10] + 65536 * frame[at + 11]
                    + 16777216 * frame[at + 12];
                let signed = if nanos > i32::MAX {
                    nanos - 0x1_0000_0000
                } else {
                    nanos
                };
                &&& frame.len() == at + 14
                &&& frame[at] == 1
                &&& frame.subrange(at + 1, at + 9) == le_i64(reading.tv_sec)
                &&& 0 <= reading.tv_nsec < 1_000_000_000 ==> nanos == reading.tv_nsec
                &&& (reading.tv_nsec - signed) % 1_000_000_000 == 0
                &&& -1_000_000_000 < signed < 1_000_000_000
                &&& reading.tv_nsec >= 0 ==> signed >= 0
                &&& reading.tv_nsec <= 0 ==> signed <= 0
            }
            &&& frame.last() == REDACTED_GEYSER_MAGIC_GUARD_END
        }),
{
    let body = update_body(fields);
    let tail = timestamp_field(timestamp);
    let frame = tcp_frame(fields, timestamp);
    let at = 6 + body.len() as int;
    lemma_frame_around_payload(body + tail);
    lemma_timestamp_field_len(timestamp);
    let payload = frame.subrange(6, 6 + (body + tail).len() as int);
    assert(frame.subrange(6, at) =~= payload.subrange(0, body.len() as int));
    assert(payload.subrange(0, body.len() as int) =~= body);
    assert forall|j: int| 0 <= j < tail.len() implies frame[at + j] == tail[j] by {
        assert(frame[at + j] == payload[body.len() + j]);
    }
    assert(frame[at + 0] == tail[0]);
    if let Some(reading) = timestamp {
        let sec = le_i64(reading.tv_sec);
        let nanos = le_i32(nanos_of(reading.tv_nsec));
        lemma_nanos(reading.tv_nsec);
        lemma_le_i32_digits(nanos_of(reading.tv_nsec));
        lemma_le_i64_digits(reading.tv_sec);
        assert(frame.subrange(at + 1, at + 9) =~= sec) by {
            assert forall|j: int| 0 <= j < 8 implies frame[at + 1 + j] == sec[j] by {
                assert(frame[at + (1 + j)] == tail[1 + j]);
            }
        }
        assert(frame[at + 9] == nanos[0]);
        assert(frame[at + 10] == nanos[1]);
        assert(frame[at + 11] == nanos[2]);
        assert(frame[at + 12] == nanos[3]);
    }
}

/// Two TCP packets with clock readings below one second are equal only if the readings are.
pub proof fn lemma_tcp_readings_are_told_apart(
    a: AccountFields,
    b: AccountFields,
    a_time: Timespec,
    b_time: Timespec,
)
    requires
        a.wf(),
        b.wf(),
        0 <= a_time.tv_nsec < 1_000_000_000,
        0 <= b_time.tv_nsec < 1_000_000_000,
        tcp_frame(a, Some(a_time)) == tcp_frame(b, Some(b_time)),
    ensures
        a_time.tv_sec == b_time.tv_sec,
        a_time.tv_nsec == b_time.tv_nsec,
{
    lemma_tcp_frame_injective(a, b, Some(a_time), Some(b_time));
    lemma_nanos(a_time.tv_nsec);
    lemma_nanos(b_time.tv_nsec);
}

/// Two sequences that start with parts of the same length are equal only if both parts are.
proof fn lemma_split(a: Seq<u8>, x: Seq<u8>, b: Seq<u8>, y: Seq<u8>)
    requires
        a.len() == b.len(),
        a + x == b + y,
    ensures
        a == b,
        x == y,
{
    assert((a + x).take(a.len() as int) =~= a);
    assert((b + y).take(b.len() as int) =~= b);
    assert((a + x).skip(a.len() as int) =~= x);
    assert((b + y).skip(b.len() as int) =~= y);
}

/// The eight bytes of a number.
#[verifier::opaque]
spec fn word(v: u64) -> Seq<u8> {
    le64(v)
}

proof fn lemma_word(v: u64)
    ensures
        word(v) == le64(v),
        word(v).len() == 8,
{
    reveal(word);
}

/// Two sequences that start with a number are equal only if the numbers are, and what follows.
proof fn lemma_split_word(a: u64, x: Seq<u8>, b: u64, y: Seq<u8>)
    requires
        word(a) + x == word(b) + y,
    ensures
        a == b,
        x == y,
{
    lemma_word(a);
    lemma_word(b);
    lemma_split(word(a), x, word(b), y);
    lemma_le64_injective(a, b);
}

/// Two sequences that start with a flag are equal only if the flags are, and what follows.
proof fn lemma_split_flag(a: bool, x: Seq<u8>, b: bool, y: Seq<u8>)
    requires
        seq![flag(a)] + x == seq![flag(b)] + y,
    ensures
        a == b,
        x == y,
{
    lemma_split(seq![flag(a)], x, seq![flag(b)], y);
    assert(seq![flag(a)][0] == flag(a));
    assert(seq![flag(b)][0] == flag(b));
}

/// The fields that follow the data.
spec fn update_tail(fields: AccountFields, rest: Seq<u8>) -> Seq<u8> {
    fields.owner + (seq![flag(fields.executable)] + (word(fields.rent_epoch) + (word(
        fields.write_version,
    ) + (seq![flag(fields.is_sandwich)] + rest))))
}

/// The fields that follow the signature.
spec fn update_middle(fields: AccountFields, rest: Seq<u8>) -> Seq<u8> {
    word(fields.slot) + (word(fields.lamports) + (word(fields.data.len() as u64) + (fields.data
        + update_tail(fields, rest))))
}

proof fn lemma_update_reassociated(fields: AccountFields, rest: Seq<u8>)
    ensures
        update_body(fields) + rest == fields.pubkey + (signature_field(fields.signature)
            + update_middle(fields, rest)),
{
    reveal(update_body);
    lemma_word(fields.slot);
    lemma_word(fields.lamports);
    lemma_word(fields.data.len() as u64);
    lemma_word(fields.rent_epoch);
    lemma_word(fields.write_version);
    lemma_regrouped(
        fields.pubkey,
        signature_field(fields.signature),
        word(fields.slot),
        word(fields.lamports),
        word(fields.data.len() as u64),
        fields.data,
        fields.owner,
        seq![flag(fields.executable)],
        word(fields.rent_epoch),
        word(fields.write_version),
        seq![flag(fields.is_sandwich)],
        rest,
    );
}

proof fn lemma_regrouped(
    a: Seq<u8>,
    b: Seq<u8>,
    c: Seq<u8>,
    d: Seq<u8>,
    e: Seq<u8>,
    f: Seq<u8>,
    g: Seq<u8>,
    h: Seq<u8>,
    i: Seq<u8>,
    j: Seq<u8>,
    k: Seq<u8>,
    r: Seq<u8>,
)
    ensures
        a + b + c + d + e + f + g + h + i + j + k + r == a + (b + (c + (d + (e + (f + (g + (h + (i
            + (j + (k + r)))))))))),
{
    assert(a + b + c + d + e + f + g + h + i + j + k + r =~= a + (b + (c + (d + (e + (f + (g + (h
        + (i + (j + (k + r)))))))))));
}

proof fn lemma_tail_injective(
    a: AccountFields,
    b: AccountFields,
    a_rest: Seq<u8>,
    b_rest: Seq<u8>,
)
    requires
        a.owner.len() == b.owner.len(),
        update_tail(a, a_rest) == update_tail(b, b_rest),
    ensures
        a.owner == b.owner,
        a.executable == b.executable,
        a.rent_epoch == b.rent_epoch,
        a.write_version == b.write_version,
        a.is_sandwich == b.is_sandwich,
        a_rest == b_rest,
{
    let (a5, b5) = (seq![flag(a.is_sandwich)] + a_rest, seq![flag(b.is_sandwich)] + b_rest);
    let (a4, b4) = (word(a.write_version) + a5, word(b.write_version) + b5);
    let (a3, b3) = (word(a.rent_epoch) + a4, word(b.rent_epoch) + b4);
    let (a2, b2) = (seq![flag(a.executable)] + a3, seq![flag(b.executable)] + b3);
    lemma_split(a.owner, a2, b.owner, b2);
    lemma_split_flag(a.executable, a3, b.executable, b3);
    lemma_split_word(a.rent_epoch, a4, b.rent_epoch, b4);
    lemma_split_word(a.write_version, a5, b.write_version, b5);
    lemma_split_flag(a.is_sandwich, a_rest, b.is_sandwich, b_rest);
}

proof fn lemma_middle_injective(
    a: AccountFields,
    b: AccountFields,
    a_rest: Seq<u8>,
    b_rest: Seq<u8>,
)
    requires
        a.wf(),
        b.wf(),
        update_middle(a, a_rest) == update_middle(b, b_rest),
    ensures
        a.slot == b.slot,
        a.lamports == b.lamports,
        a.data == b.data,
        update_tail(a, a_rest) == update_tail(b, b_rest),
{
    let (a4, b4) = (update_tail(a, a_rest), update_tail(b, b_rest));
    let (a3, b3) = (
        word(a.data.len() as u64) + (a.data + a4),
        word(b.data.len() as u64) + (b.data + b4),
    );
    let (a2, b2) = (word(a.lamports) + a3, word(b.lamports) + b3);
    lemma_split_word(a.slot, a2, b.slot, b2);
    lemma_split_word(a.lamports, a3, b.lamports, b3);
    lemma_split_word(a.data.len() as u64, a.data + a4, b.data.len() as u64, b.data + b4);
    lemma_split(a.data, a4, b.data, b4);
}

/// An account update can be read back from its bytes, whatever follows them: two updates whose
/// bytes agree agree in every field, and so does what follows.
pub proof fn lemma_update_body_injective(
    a: AccountFields,
    b: AccountFields,
    a_rest: Seq<u8>,
    b_rest: Seq<u8>,
)
    requires
        a.wf(),
        b.wf(),
        update_body(a) + a_rest == update_body(b) + b_rest,
    ensures
        a == b,
        a_rest == b_rest,
{
    lemma_update_reassociated(a, a_rest);
    lemma_update_reassociated(b, b_rest);
    let (am, bm) = (update_middle(a, a_rest), update_middle(b, b_rest));
    let (asig, bsig) = (signature_field(a.signature), signature_field(b.signature));
    lemma_split(a.pubkey, asig + am, b.pubkey, bsig + bm);
    assert((asig + am)[0] == asig[0]);
    assert((bsig + bm)[0] == bsig[0]);
    assert((a.signature is Some) == (b.signature is Some));
    lemma_split(asig, am, bsig, bm);
    if a.signature is Some {
        lemma_split(seq![1u8], a.signature->0, seq![1u8], b.signature->0);
    }
    lemma_middle_injective(a, b, a_rest, b_rest);
    lemma_tail_injective(a, b, a_rest, b_rest);
}

proof fn lemma_payload_injective(a: Seq<u8>, b: Seq<u8>)
    requires
        notify_frame(a) == notify_frame(b),
    ensures
        a == b,
{
    assert(notify_frame(a).len() == a.len() + 7);
    assert(notify_frame(b).len() == b.len() + 7);
    assert(notify_frame(a).subrange(6, 6 + a.len() as int) =~= a);
    assert(notify_frame(b).subrange(6, 6 + b.len() as int) =~= b);
}

/// A UDP packet carries every field of the update that it was made from.
pub proof fn lemma_udp_frame_injective(a: AccountFields, b: AccountFields)
    requires
        a.wf(),
        b.wf(),
        udp_frame(a) == udp_frame(b),
    ensures
        a == b,
{
    lemma_payload_injective(update_body(a), update_body(b));
    lemma_update_body_injective(a, b, Seq::empty(), Seq::empty());
}

proof fn lemma_timestamp_field_injective(a: Option<Timespec>, b: Option<Timespec>)
    requires
        timestamp_field(a) == timestamp_field(b),
    ensures
        (a is Some) == (b is Some),
        a is Some ==> a->0.tv_sec == b->0.tv_sec && nanos_of(a->0.tv_nsec) == nanos_of(
            b->0.tv_nsec,
        ),
{
    assert(timestamp_field(a)[0] == flag(a is Some));
    assert(timestamp_field(b)[0] == flag(b is Some));
    if a is Some {
        let (x, y) = (a->0, b->0);
        lemma_split(
            seq![1u8] + le_i64(x.tv_sec),
            le_i32(nanos_of(x.tv_nsec)),
            seq![1u8] + le_i64(y.tv_sec),
            le_i32(nanos_of(y.tv_nsec)),
        );
        lemma_split(seq![1u8], le_i64(x.tv_sec), seq![1u8], le_i64(y.tv_sec));
        lemma_le_i64_injective(x.tv_sec, y.tv_sec);
        lemma_le_i32_injective(nanos_of(x.tv_nsec), nanos_of(y.tv_nsec));
    }
}

/// A TCP packet carries every field of the update that it was made from, whether the clock was
/// read, the seconds of the reading and its nanoseconds below one second.
pub proof fn lemma_tcp_frame_injective(
    a: AccountFields,
    b: AccountFields,
    a_time: Option<Timespec>,
    b_time: Option<Timespec>,
)
    requires
        a.wf(),
        b.wf(),
        tcp_frame(a, a_time) == tcp_frame(b, b_time),
    ensures
        a == b,
        (a_time is Some) == (b_time is Some),
        a_time is Some ==> a_time->0.tv_sec == b_time->0.tv_sec && nanos_of(a_time->0.tv_nsec)
            == nanos_of(b_time->0.tv_nsec),
{
    let (at, bt) = (timestamp_field(a_time), timestamp_field(b_time));
    lemma_payload_injective(update_body(a) + at, update_body(b) + bt);
    lemma_update_body_injective(a, b, at, bt);
    lemma_timestamp_field_injective(a_time, b_time);
}

} // verus!
