//! Limits, operation types and messages of the protocol.

use vstd::prelude::*;

verus! {

/// The largest payload that a packet may announce: 10 MB.
pub const REDACTED_GEYSER_PACKET_MAX_SIZE: u32 = 10 * 1024 * 1024;

/// 20 GB. A full pool drains in less than the time it takes to fill again, unless a receiver
/// makes back pressure.
pub const REDACTED_GEYSER_MEMORY_POOL_SIZE: u64 = 20 * 1024 * 1024 * 1024;

/// 1 GB on each socket of the server, for receivers that are slow to acknowledge.
pub const REDACTED_GEYSER_SERVER_BACKPRESSURE: usize = 1024 * 1024 * 1024;

/// How many work orders may wait for one client.
pub const REDACTED_GEYSER_SERVER_WORK_ORDERS: usize = 1_000_000;

/// How many clients are served at a time. Every packet walks over all of them, so it is kept low.
pub const REDACTED_GEYSER_MAX_CLIENTS: usize = 8;

/// Operation type: a client chooses the programs that it wants updates of.
pub const REDACTED_GEYSER_SET_PROGRAM_CONFIG: u8 = 0;

/// Operation type: the server tells of an account that changed.
pub const REDACTED_GEYSER_NOTIFY_ACCOUNT_UPDATE: u8 = 1;

/// The first byte of every packet.
pub const REDACTED_GEYSER_MAGIC_GUARD_START: u8 = 0x9A;

/// The last byte of every packet.
pub const REDACTED_GEYSER_MAGIC_GUARD_END: u8 = 0xA9;

/// The size of a packet's header: the start guard, the operation type and the payload's length.
pub const REDACTED_GEYSER_PACKET_HEADER_SIZE: usize = 6;

/// Why a request of a client was refused.
#[derive(Clone, Copy, Debug, PartialEq, Eq, Structural)]
pub enum RedactedGeyserError {
    InvalidRequest,
    AbruptDisconnect,
}

/// The programs that a client asks for, each by the 32 bytes of its key.
#[derive(Clone, Debug)]
pub struct RedactedGeyserRequestProgramConfig {
    pub program_list: Vec<[u8; 32]>,
}

/// One account update, keys and signature as bytes.
#[derive(Debug)]
pub struct RedactedGeyserAccountUpdate {
    pub pubkey: [u8; 32],
    pub signature: Option<[u8; 64]>,
    pub slot: u64,
    pub lamports: u64,
    pub data: Vec<u8>,
    pub owner: [u8; 32],
    pub executable: bool,
    pub rent_epoch: u64,
    pub write_version: u64,
    pub is_sandwich: bool,
}

/// What an account update says: the view of [`RedactedGeyserAccountUpdate`].
#[verifier::ext_equal]
pub struct AccountFields {
    pub pubkey: Seq<u8>,
    pub signature: Option<Seq<u8>>,
    pub slot: u64,
    pub lamports: u64,
    pub data: Seq<u8>,
    pub owner: Seq<u8>,
    pub executable: bool,
    pub rent_epoch: u64,
    pub write_version: u64,
    pub is_sandwich: bool,
}

/// The limits of the protocol in bytes and numbers, and how they hang together: a header is two
/// single bytes and a length of four, the guards differ, the operations differ, and the pool has
/// room for two thousand and forty-eight of the largest payloads.
pub proof fn lemma_limits()
    ensures
        REDACTED_GEYSER_PACKET_MAX_SIZE == 10_485_760,
        REDACTED_GEYSER_MEMORY_POOL_SIZE == 2048 * REDACTED_GEYSER_PACKET_MAX_SIZE,
        REDACTED_GEYSER_SERVER_BACKPRESSURE == 1_073_741_824,
        REDACTED_GEYSER_SERVER_WORK_ORDERS == 1_000_000,
        REDACTED_GEYSER_MAX_CLIENTS == 8,
        REDACTED_GEYSER_PACKET_HEADER_SIZE == 1 + 1 + 4,
        REDACTED_GEYSER_SET_PROGRAM_CONFIG == 0,
        REDACTED_GEYSER_NOTIFY_ACCOUNT_UPDATE == 1,
        REDACTED_GEYSER_MAGIC_GUARD_START == 0x9A,
        REDACTED_GEYSER_MAGIC_GUARD_END == 0xA9,
{
}

impl View for RedactedGeyserRequestProgramConfig {
    type V = Seq<Seq<u8>>;

    open spec fn view(&self) -> Seq<Seq<u8>> {
        Seq::new(self.program_list@.len(), |i: int| self.program_list@[i]@)
    }
}

impl View for RedactedGeyserAccountUpdate {
    type V = AccountFields;

    open spec fn view(&self) -> AccountFields {
        AccountFields {
            pubkey: self.pubkey@,
            signature: match self.signature {
                Some(signature) => Some(signature@),
                None => None,
            },
            slot: self.slot,
            lamports: self.lamports,
            data: self.data@,
            owner: self.owner@,
            executable: self.executable,
            rent_epoch: self.rent_epoch,
            write_version: self.write_version,
            is_sandwich: self.is_sandwich,
        }
    }
}

impl AccountFields {
    /// Keys have 32 bytes, a signature has 64.
    pub open spec fn wf(self) -> bool {
        &&& self.pubkey.len() == 32
        &&& self.owner.len() == 32
        &&& self.signature matches Some(signature) ==> signature.len() == 64
        &&& self.data.len() <= usize::MAX
    }
}

} // verus!
