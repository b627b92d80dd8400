//! The server for UDP clients: who has asked to be told of updates, when they were last heard of,
//! which programs they want to hear of, and what is queued for them.

use crate::channel::{accepted_by_each, limits_of_each, order_channels, try_send, OrderChannel};
use crate::packet::{
    announced_length, fields_of, guarded, header, lemma_frame_is_guarded, lemma_udp_frame_len,
    udp_frame, udp_frame_size, udp_size, update_body, wire_length, write_udp_frame,
};
use crate::program_list::{
    are_keys, configured, joined, key_at, keys_in, lemma_configuration_selects, lemma_configured,
    lemma_named_keys, lemma_selects, selects, ProgramList,
};
use crate::redacted_memory_pool::{
    lemma_allocated_region_is_inside, lemma_can_alloc_is_bounded,
    lemma_read_gives_what_was_written, lemma_write_keeps_size, lemma_written_bytes, PoolView,
    RedactedMemoryPool, WorkOrder,
};
use crate::redacted_tcp_types::{
    AccountFields, RedactedGeyserError, REDACTED_GEYSER_MAGIC_GUARD_END,
    REDACTED_GEYSER_MAGIC_GUARD_START, REDACTED_GEYSER_MAX_CLIENTS,
    REDACTED_GEYSER_MEMORY_POOL_SIZE, REDACTED_GEYSER_PACKET_HEADER_SIZE,
    REDACTED_GEYSER_PACKET_MAX_SIZE, REDACTED_GEYSER_SERVER_WORK_ORDERS,
    REDACTED_GEYSER_SET_PROGRAM_CONFIG,
};
use crate::wire::{le32, lemma_le32_round_trip, u32_from_le};
use crossbeam_channel::Receiver;
use vstd::prelude::*;

verus! {

/// Where a datagram came from.
#[derive(Clone, Copy, Debug, PartialEq, Eq)]
pub enum SocketAddress {
    V4 { octets: [u8; 4], port: u16 },
    V6,
}

/// Where a client is reached: the address and the port, byte by byte as they are sent.
#[derive(Clone, Copy, Debug, PartialEq, Eq)]
pub struct SockaddrIn {
    pub sin_addr: [u8; 4],
    pub sin_port: [u8; 2],
}

/// An address and a port, byte by byte: the view of [`SockaddrIn`].
#[verifier::ext_equal]
pub struct Endpoint {
    pub addr: Seq<u8>,
    pub port: Seq<u8>,
}

impl View for SockaddrIn {
    type V = Endpoint;

    open spec fn view(&self) -> Endpoint {
        Endpoint { addr: self.sin_addr@, port: self.sin_port@ }
    }
}

/// The two bytes of a port, the most significant first.
pub open spec fn port_bytes(port: u16) -> Seq<u8> {
    seq![(port / 256) as u8, (port % 256) as u8]
}

/// The endpoint of an IPv4 address. Clients at IPv6 addresses are not served.
pub open spec fn endpoint(addr: SocketAddress) -> Option<Endpoint> {
    match addr {
        SocketAddress::V4 { octets, port } => Some(
            Endpoint { addr: octets@, port: port_bytes(port) },
        ),
        SocketAddress::V6 => None,
    }
}

/// The endpoint that a heartbeat is looked up by: all zeros for an IPv6 address.
pub open spec fn heartbeat_endpoint(addr: SocketAddress) -> Endpoint {
    match endpoint(addr) {
        Some(endpoint) => endpoint,
        None => Endpoint { addr: seq![0u8, 0u8, 0u8, 0u8], port: seq![0u8, 0u8] },
    }
}

/// The two bytes of a port, the most significant first.
fn port_to_be(port: u16) -> (bytes: [u8; 2])
    ensures
        bytes@ == port_bytes(port),
{
    let bytes: [u8; 2] = [(port / 256) as u8, (port % 256) as u8];
    assert(bytes@ =~= port_bytes(port));
    bytes
}

/// Where the sender of a datagram is reached, if that is an IPv4 address.
pub fn sockaddr_from_std(addr: &SocketAddress) -> (sockaddr: Option<SockaddrIn>)
    ensures
        (sockaddr is Some) == (endpoint(*addr) is Some),
        sockaddr is Some ==> sockaddr->0@ == endpoint(*addr)->0,
{
    match addr {
        SocketAddress::V4 { octets, port } => Some(
            SockaddrIn { sin_addr: *octets, sin_port: port_to_be(*port) },
        ),
        SocketAddress::V6 => None,
    }
}

/// The address and the port that a heartbeat is looked up by.
pub fn sockaddr_ip_addr_port(addr: &SocketAddress) -> (ip_port: ([u8; 4], [u8; 2]))
    ensures
        heartbeat_endpoint(*addr) == (Endpoint { addr: ip_port.0@, port: ip_port.1@ }),
{
    match addr {
        SocketAddress::V4 { octets, port } => (*octets, port_to_be(*port)),
        SocketAddress::V6 => {
            let none: ([u8; 4], [u8; 2]) = ([0, 0, 0, 0], [0, 0]);
            assert(none.0@ =~= seq![0u8, 0u8, 0u8, 0u8]);
            assert(none.1@ =~= seq![0u8, 0u8]);
            none
        },
    }
}

impl SockaddrIn {
    /// Whether this is the endpoint with the given address and port.
    pub fn is_at(&self, sin_addr: &[u8; 4], sin_port: &[u8; 2]) -> (same: bool)
        ensures
            same == (self@ == Endpoint { addr: sin_addr@, port: sin_port@ }),
    {
        let same = self.sin_addr[0] == sin_addr[0] && self.sin_addr[1] == sin_addr[1]
            && self.sin_addr[2] == sin_addr[2] && self.sin_addr[3] == sin_addr[3]
            && self.sin_port[0] == sin_port[0] && self.sin_port[1] == sin_port[1];
        proof {
            if same {
                assert(self.sin_addr@ =~= sin_addr@);
                assert(self.sin_port@ =~= sin_port@);
            }
        }
        same
    }
}

/// A packet is whole: it has both guards, and announces as many bytes as it has, which are not more
/// than a packet may have.
pub open spec fn packet_accepted(packet: Seq<u8>) -> bool {
    &&& packet.len() >= REDACTED_GEYSER_PACKET_HEADER_SIZE
    &&& packet[0] == REDACTED_GEYSER_MAGIC_GUARD_START
    &&& announced_length(packet) <= REDACTED_GEYSER_PACKET_MAX_SIZE
    &&& packet.len() == REDACTED_GEYSER_PACKET_HEADER_SIZE + announced_length(packet)
    &&& packet.last() == REDACTED_GEYSER_MAGIC_GUARD_END
}

/// The bytes behind a packet's header, the end guard among them.
pub open spec fn payload_of(packet: Seq<u8>) -> Seq<u8> {
    packet.skip(REDACTED_GEYSER_PACKET_HEADER_SIZE as int)
}

/// Whether a packet is whole.
pub fn accepts_packet(packet: &[u8]) -> (accepted: bool)
    ensures
        accepted == packet_accepted(packet@),
{
    let len: usize = packet.len();
    if len < REDACTED_GEYSER_PACKET_HEADER_SIZE {
        return false;
    }
    if packet[0] != REDACTED_GEYSER_MAGIC_GUARD_START {
        return false;
    }
    assert(packet@.subrange(2, 6) =~= seq![packet@[2], packet@[3], packet@[4], packet@[5]]);
    let payload_len: u32 = u32_from_le(packet[2], packet[3], packet[4], packet[5]);
    if payload_len > REDACTED_GEYSER_PACKET_MAX_SIZE {
        return false;
    }
    if len != REDACTED_GEYSER_PACKET_HEADER_SIZE + payload_len as usize {
        return false;
    }
    packet[len - 1] == REDACTED_GEYSER_MAGIC_GUARD_END
}

/// What the sender of a slot is about.
#[derive(Clone, Copy, Debug, PartialEq, Eq)]
pub enum SendState {
    /// It waits for the next work order.
    AwaitOrder,
    /// It hands the bytes of `order` to the socket, for the client that is in the slot.
    Sending { order: WorkOrder },
    /// It has ended.
    Stopped,
}

/// What a sender meets.
#[derive(Clone, Copy, Debug, PartialEq, Eq)]
pub enum SendEvent {
    /// A work order came.
    Order(WorkOrder),
    /// No work order will come any more.
    ChannelClosed,
    /// The socket took the datagram.
    Sent,
    /// The socket cannot take a datagram at the moment: the sender yields and tries again.
    WouldBlock,
    /// The socket failed.
    Failed,
}

impl SendState {
    /// The event can come in this state.
    pub open spec fn allows(self, event: SendEvent) -> bool {
        match event {
            SendEvent::Order(_) => self is AwaitOrder,
            SendEvent::ChannelClosed => self is AwaitOrder,
            SendEvent::Sent => self is Sending,
            SendEvent::WouldBlock => self is Sending,
            SendEvent::Failed => self is Sending,
        }
    }

    /// The state after an event, where `slot` is the client in the sender's slot. An order that
    /// comes after the client was let go of is not sent.
    pub open spec fn after(self, event: SendEvent, slot: Option<Endpoint>) -> SendState {
        match event {
            SendEvent::Order(order) => if slot is Some {
                SendState::Sending { order }
            } else {
                SendState::Stopped
            },
            SendEvent::ChannelClosed => SendState::Stopped,
            SendEvent::Sent => SendState::AwaitOrder,
            SendEvent::WouldBlock => self,
            SendEvent::Failed => SendState::Stopped,
        }
    }
}

/// The server's state. Times are in nanoseconds, from any fixed moment on.
#[derive(Debug)]
pub struct RedactedGeyserServer {
    listener_clients: [Option<SockaddrIn>; REDACTED_GEYSER_MAX_CLIENTS],
    listener_client_count: usize,
    listener_clients_channels: Vec<OrderChannel>,
    listener_clients_heartbeats: [u128; REDACTED_GEYSER_MAX_CLIENTS],
    memory_pool: RedactedMemoryPool,
    geyser_program_list: ProgramList,
    heartbeat: u8,
    heartbeat_timeout: u64,
}

/// What the server knows.
#[verifier::ext_equal]
pub struct UdpView {
    /// The client in each slot.
    pub clients: Seq<Option<Endpoint>>,
    /// How many senders are counted as running.
    pub client_count: usize,
    /// The work orders that were queued in each slot so far.
    pub accepted: Seq<Seq<WorkOrder>>,
    /// How many work orders each slot has room for.
    pub limits: Seq<nat>,
    /// When the client of each slot was last heard of.
    pub heartbeats: Seq<u128>,
    /// The memory that packets are built in.
    pub pool: PoolView,
    /// The programs that were chosen.
    pub programs: Set<Seq<u8>>,
    /// The operation type of a heartbeat.
    pub heartbeat: u8,
    /// For how many seconds a client may stay silent.
    pub timeout: u64,
}

/// The endpoints in a row of slots.
pub open spec fn endpoints(slots: Seq<Option<SockaddrIn>>) -> Seq<Option<Endpoint>> {
    Seq::new(
        slots.len(),
        |i: int|
            match slots[i] {
                Some(sockaddr) => Some(sockaddr@),
                None => None,
            },
    )
}

impl View for RedactedGeyserServer {
    type V = UdpView;

    closed spec fn view(&self) -> UdpView {
        UdpView {
            clients: endpoints(self.listener_clients@),
            client_count: self.listener_client_count,
            accepted: accepted_by_each(self.listener_clients_channels@),
            limits: limits_of_each(self.listener_clients_channels@),
            heartbeats: self.listener_clients_heartbeats@,
            pool: self.memory_pool@,
            programs: self.geyser_program_list@,
            heartbeat: self.heartbeat,
            timeout: self.heartbeat_timeout,
        }
    }
}

/// No client has two slots.
pub open spec fn distinct(clients: Seq<Option<Endpoint>>) -> bool {
    forall|i: int, j: int|
        0 <= i < j < clients.len() && (#[trigger] clients[i]) is Some ==> clients[i]
            != #[trigger] clients[j]
}

/// A client that was last heard of at `last` has been silent for too long at `now`. Only whole
/// seconds count.
pub open spec fn expired(last: int, now: int, timeout: int) -> bool {
    now >= last && (now - last) / 1_000_000_000 > timeout
}

/// The count of running senders after one was taken off for each client that was let go of between
/// two states of the clients, looking at the first `slots` slots. It wraps below 0.
pub open spec fn count_after_drops(
    count: usize,
    before: Seq<Option<Endpoint>>,
    after: Seq<Option<Endpoint>>,
    slots: nat,
) -> usize
    decreases slots,
{
    if slots == 0 {
        count
    } else {
        let earlier = count_after_drops(count, before, after, (slots - 1) as nat);
        if before[slots - 1] is Some && after[slots - 1] is None {
            earlier.wrapping_sub(1)
        } else {
            earlier
        }
    }
}

impl UdpView {
    /// Every slot has its queue and its time, and no client has two slots.
    pub open spec fn wf(self) -> bool {
        &&& self.clients.len() == REDACTED_GEYSER_MAX_CLIENTS
        &&& self.accepted.len() == REDACTED_GEYSER_MAX_CLIENTS
        &&& self.limits.len() == REDACTED_GEYSER_MAX_CLIENTS
        &&& self.heartbeats.len() == REDACTED_GEYSER_MAX_CLIENTS
        &&& distinct(self.clients)
    }

    /// There is a client, and updates of accounts of `owner` are wanted.
    pub open spec fn wants(self, owner: Seq<u8>) -> bool {
        self.client_count != 0 && selects(self.programs, owner)
    }

    /// The state after a request of a client.
    pub open spec fn after_request(self, request_type: u8, request_mem: Seq<u8>) -> UdpView {
        if request_type == REDACTED_GEYSER_SET_PROGRAM_CONFIG {
            UdpView { programs: configured(request_mem), ..self }
        } else {
            self
        }
    }

    /// The state after a heartbeat from `from`: the client there, if there is one, has been heard
    /// of.
    pub open spec fn after_heartbeat(self, from: Endpoint, now: u128) -> UdpView {
        match self.clients.index_of_first(Some(from)) {
            Some(i) => UdpView { heartbeats: self.heartbeats.update(i, now), ..self },
            None => self,
        }
    }

    /// The slot that a client at `from` is given. There is none if enough senders run, the address
    /// is not served, the client has one, or all are taken.
    pub open spec fn slot_for(self, from: SocketAddress) -> Option<int> {
        if self.client_count < REDACTED_GEYSER_MAX_CLIENTS && endpoint(from) is Some
            && !self.clients.contains(endpoint(from)) {
            self.clients.index_of_first(None)
        } else {
            None
        }
    }

    /// The state after a client at `from` was given the slot that it gets, if it gets one.
    pub open spec fn after_registration(self, from: SocketAddress, now: u128) -> UdpView {
        match self.slot_for(from) {
            Some(i) => UdpView {
                clients: self.clients.update(i, endpoint(from)),
                heartbeats: self.heartbeats.update(i, now),
                ..self
            },
            None => self,
        }
    }

    /// The state after a packet came. One that is not whole changes nothing. A heartbeat is noted.
    /// Any other request is handled, and its sender becomes a client.
    pub open spec fn after_packet(
        self,
        packet: Seq<u8>,
        from: SocketAddress,
        now: u128,
    ) -> UdpView {
        if !packet_accepted(packet) {
            self
        } else if packet[1] == self.heartbeat {
            self.after_heartbeat(heartbeat_endpoint(from), now)
        } else {
            self.after_request(packet[1], payload_of(packet)).after_registration(from, now)
        }
    }

    /// The slot whose sender is to be started after a packet came.
    pub open spec fn sender_to_start(self, packet: Seq<u8>, from: SocketAddress) -> Option<int> {
        if packet_accepted(packet) && packet[1] != self.heartbeat {
            self.slot_for(from)
        } else {
            None
        }
    }

    /// The state after the clients that have been silent for too long were let go of. Their senders
    /// run on, and are still counted.
    pub open spec fn after_expiry(self, now: u128) -> UdpView {
        UdpView {
            clients: Seq::new(
                self.clients.len(),
                |i: int|
                    if self.clients[i] is Some && expired(
                        self.heartbeats[i] as int,
                        now as int,
                        self.timeout as int,
                    ) {
                        None
                    } else {
                        self.clients[i]
                    },
            ),
            ..self
        }
    }

    /// Every work order that was ever queued lies inside the pool.
    pub open spec fn orders_inside(self) -> bool {
        forall|i: int, k: int|
            0 <= i < self.accepted.len() && 0 <= k < self.accepted[i].len() ==> self.pool.has(
                #[trigger] self.accepted[i][k],
            )
    }

    /// Slot `i` and its queue are the same in both states.
    pub open spec fn same_slot(self, other: UdpView, i: int) -> bool {
        self.clients[i] == other.clients[i] && self.accepted[i] == other.accepted[i]
    }

    /// What became of slot `i` when `order` was offered to all clients: a free slot stays as it
    /// is; a client gets the order behind its earlier ones, or, if its queue has had as many orders
    /// as it has room for, may be let go of.
    pub open spec fn offered(self, order: WorkOrder, after: UdpView, i: int) -> bool {
        if self.clients[i] is None {
            after.clients[i] is None && after.accepted[i] == self.accepted[i]
        } else {
            ||| {
                &&& after.clients[i] == self.clients[i]
                &&& after.accepted[i] == self.accepted[i].push(order)
            }
            ||| {
                &&& after.clients[i] is None
                &&& after.accepted[i] == self.accepted[i]
                &&& self.accepted[i].len() >= self.limits[i]
            }
        }
    }

    /// `order` was offered to all clients.
    pub open spec fn distributes(self, order: WorkOrder, after: UdpView) -> bool {
        &&& after == UdpView {
            clients: after.clients,
            accepted: after.accepted,
            client_count: after.client_count,
            ..self
        }
        &&& after.wf()
        &&& forall|i: int|
            #![trigger self.offered(order, after, i)]
            #![trigger after.clients[i]]
            #![trigger after.accepted[i]]
            0 <= i < REDACTED_GEYSER_MAX_CLIENTS ==> self.offered(order, after, i)
        &&& after.client_count == count_after_drops(
            self.client_count,
            self.clients,
            after.clients,
            REDACTED_GEYSER_MAX_CLIENTS as nat,
        )
    }

    /// `frame` was put into the next free region of the pool, and that region offered to all
    /// clients.
    pub open spec fn publishes(self, frame: Seq<u8>, after: UdpView) -> bool {
        exists|order: WorkOrder, reserved: PoolView|
            {
                &&& #[trigger] self.pool.allocates(frame.len() as int, order, reserved)
                &&& (UdpView { pool: reserved.with_region(order, frame), ..self }).distributes(
                    order,
                    after,
                )
            }
    }
}

impl RedactedGeyserServer {
    /// The parts of the server fit together, and no client has two slots.
    pub closed spec fn wf(&self) -> bool {
        &&& self.listener_clients_channels@.len() == REDACTED_GEYSER_MAX_CLIENTS
        &&& self.memory_pool.wf()
        &&& self.geyser_program_list.wf()
        &&& distinct(endpoints(self.listener_clients@))
    }

    /// What is known of every server.
    pub proof fn lemma_wf(&self)
        requires
            self.wf(),
        ensures
            self@.wf(),
    {
    }

    /// A server without clients. `heartbeat` is the operation type of a heartbeat, and
    /// `heartbeat_timeout` says for how many seconds a client may stay silent.
    pub fn new(heartbeat: u8, heartbeat_timeout: u64, now: u128) -> (server: Self)
        requires
            REDACTED_GEYSER_MEMORY_POOL_SIZE <= isize::MAX,
        ensures
            server.wf(),
            server@ == (UdpView {
                clients: Seq::new(REDACTED_GEYSER_MAX_CLIENTS as nat, |i: int| None),
                client_count: 0,
                accepted: Seq::new(
                    REDACTED_GEYSER_MAX_CLIENTS as nat,
                    |i: int| Seq::<WorkOrder>::empty(),
                ),
                limits: Seq::new(
                    REDACTED_GEYSER_MAX_CLIENTS as nat,
                    |i: int| REDACTED_GEYSER_SERVER_WORK_ORDERS as nat,
                ),
                heartbeats: Seq::new(REDACTED_GEYSER_MAX_CLIENTS as nat, |i: int| now),
                pool: PoolView {
                    memory: Seq::new(REDACTED_GEYSER_MEMORY_POOL_SIZE as nat, |i: int| 0u8),
                    next: 0,
                },
                programs: Set::empty(),
                heartbeat,
                timeout: heartbeat_timeout,
            }),
    {
        Self::with_limits(
            heartbeat,
            heartbeat_timeout,
            now,
            REDACTED_GEYSER_MEMORY_POOL_SIZE as usize,
            REDACTED_GEYSER_SERVER_WORK_ORDERS,
        )
    }

    /// A server with a pool of `pool_size` bytes and room for `work_orders` orders per client.
    pub fn with_limits(
        heartbeat: u8,
        heartbeat_timeout: u64,
        now: u128,
        pool_size: usize,
        work_orders: usize,
    ) -> (server: Self)
        requires
            pool_size <= isize::MAX,
            work_orders <= REDACTED_GEYSER_SERVER_WORK_ORDERS,
        ensures
            server.wf(),
            server@ == (UdpView {
                clients: Seq::new(REDACTED_GEYSER_MAX_CLIENTS as nat, |i: int| None),
                client_count: 0,
                accepted: Seq::new(
                    REDACTED_GEYSER_MAX_CLIENTS as nat,
                    |i: int| Seq::<WorkOrder>::empty(),
                ),
                limits: Seq::new(
                    REDACTED_GEYSER_MAX_CLIENTS as nat,
                    |i: int| work_orders as nat,
                ),
                heartbeats: Seq::new(REDACTED_GEYSER_MAX_CLIENTS as nat, |i: int| now),
                pool: PoolView {
                    memory: Seq::new(pool_size as nat, |i: int| 0u8),
                    next: 0,
                },
                programs: Set::empty(),
                heartbeat,
                timeout: heartbeat_timeout,
            }),
    {
        let memory_pool = RedactedMemoryPool::new(pool_size);
        let client_channels = order_channels(REDACTED_GEYSER_MAX_CLIENTS, work_orders);
        let server = RedactedGeyserServer {
            listener_clients: [None; REDACTED_GEYSER_MAX_CLIENTS],
            listener_client_count: 0,
            listener_clients_channels: client_channels,
            listener_clients_heartbeats: [now; REDACTED_GEYSER_MAX_CLIENTS],
            memory_pool,
            geyser_program_list: ProgramList::new(),
            heartbeat,
            heartbeat_timeout,
        };
        assert(server@.clients =~= Seq::new(REDACTED_GEYSER_MAX_CLIENTS as nat, |i: int| None));
        assert(server@.heartbeats =~= Seq::new(REDACTED_GEYSER_MAX_CLIENTS as nat, |i: int| now));
        server
    }

    /// Puts the programs that a configuration request names in the place of those chosen before.
    /// Bytes that are too few for a key are passed over.
    pub fn handle_set_program_config(&mut self, request_mem: &[u8])
        requires
            old(self).wf(),
        ensures
            final(self).wf(),
            final(self)@ == (UdpView { programs: configured(request_mem@), ..old(self)@ }),
    {
        let len: usize = request_mem.len();
        self.geyser_program_list.clear();
        let mut offset: usize = 0;
        while len - offset >= 32
            invariant
                self.wf(),
                len == request_mem@.len(),
                offset % 32 == 0,
                offset <= len,
                self@ == (UdpView {
                    programs: keys_in(request_mem@, offset as nat / 32),
                    ..old(self)@
                }),
            decreases len - offset,
        {
            let program = key_at(request_mem, offset);
            self.geyser_program_list.insert(program);
            offset += 32;
        }
        assert(offset as nat / 32 == request_mem@.len() / 32);
    }

    /// Handles a request of a client. Only a configuration request does anything.
    pub fn handle_request(
        &mut self,
        request_type: u8,
        request_mem: &[u8],
    ) -> (result: Result<(), RedactedGeyserError>)
        requires
            old(self).wf(),
        ensures
            final(self).wf(),
            result is Ok,
            final(self)@ == old(self)@.after_request(request_type, request_mem@),
    {
        if request_type == REDACTED_GEYSER_SET_PROGRAM_CONFIG {
            self.handle_set_program_config(request_mem);
        }
        Ok(())
    }

    /// The first slot of the client with the given address and port.
    fn slot_of(&self, sin_addr: &[u8; 4], sin_port: &[u8; 2]) -> (slot: Option<usize>)
        requires
            self.wf(),
        ensures
            ({
                let wanted = Some(Endpoint { addr: sin_addr@, port: sin_port@ });
                match slot {
                    Some(i) => self@.clients.index_of_first(wanted) == Some(i as int),
                    None => self@.clients.index_of_first(wanted) is None,
                }
            }),
            slot matches Some(i) ==> i < REDACTED_GEYSER_MAX_CLIENTS,
    {
        let ghost wanted = Some(Endpoint { addr: sin_addr@, port: sin_port@ });
        proof {
            self@.clients.index_of_first_ensures(wanted);
        }
        let mut i: usize = 0;
        while i < REDACTED_GEYSER_MAX_CLIENTS
            invariant
                i <= REDACTED_GEYSER_MAX_CLIENTS,
                self@.clients.len() == REDACTED_GEYSER_MAX_CLIENTS,
                wanted == Some(Endpoint { addr: sin_addr@, port: sin_port@ }),
                forall|j: int| 0 <= j < i ==> self@.clients[j] != wanted,
                match self@.clients.index_of_first(wanted) {
                    Some(index) => {
                        &&& 0 <= index < REDACTED_GEYSER_MAX_CLIENTS
                        &&& self@.clients[index] == wanted
                        &&& forall|j: int| 0 <= j < index ==> self@.clients[j] != wanted
                    },
                    None => !self@.clients.contains(wanted),
                },
            decreases REDACTED_GEYSER_MAX_CLIENTS - i,
        {
            if let Some(client) = self.listener_clients[i] {
                if client.is_at(sin_addr, sin_port) {
                    assert(self@.clients[i as int] == wanted);
                    return Some(i);
                }
            }
            i += 1;
        }
        None
    }

    /// The first free slot.
    fn free_slot(&self) -> (slot: Option<usize>)
        requires
            self.wf(),
        ensures
            match slot {
                Some(i) => self@.clients.index_of_first(None) == Some(i as int),
                None => self@.clients.index_of_first(None) is None,
            },
            slot matches Some(i) ==> i < REDACTED_GEYSER_MAX_CLIENTS,
    {
        let ghost free: Option<Endpoint> = None;
        proof {
            self@.clients.index_of_first_ensures(free);
        }
        let mut i: usize = 0;
        while i < REDACTED_GEYSER_MAX_CLIENTS
            invariant
                i <= REDACTED_GEYSER_MAX_CLIENTS,
                self@.clients.len() == REDACTED_GEYSER_MAX_CLIENTS,
                free is None,
                forall|j: int| 0 <= j < i ==> self@.clients[j] != free,
                match self@.clients.index_of_first(free) {
                    Some(index) => {
                        &&& 0 <= index < REDACTED_GEYSER_MAX_CLIENTS
                        &&& self@.clients[index] == free
                        &&& forall|j: int| 0 <= j < index ==> self@.clients[j] != free
                    },
                    None => !self@.clients.contains(free),
                },
            decreases REDACTED_GEYSER_MAX_CLIENTS - i,
        {
            if self.listener_clients[i].is_none() {
                assert(self@.clients[i as int] == free);
                return Some(i);
            }
            i += 1;
        }
        None
    }

    /// Notes that the client at `from` has been heard of.
    pub fn handle_heartbeat(&mut self, from: &SocketAddress, now: u128)
        requires
            old(self).wf(),
        ensures
            final(self).wf(),
            final(self)@ == old(self)@.after_heartbeat(heartbeat_endpoint(*from), now),
    {
        let addr = sockaddr_ip_addr_port(from);
        if let Some(i) = self.slot_of(&addr.0, &addr.1) {
            self.listener_clients_heartbeats[i] = now;
        }
    }

    /// Makes the sender of a datagram a client, in the first free slot, unless enough senders run,
    /// its address is not served, it is a client, or no slot is free. Returns the slot, whose
    /// sender is to be started.
    pub fn register(&mut self, from: &SocketAddress, now: u128) -> (client_index: Option<usize>)
        requires
            old(self).wf(),
        ensures
            final(self).wf(),
            final(self)@ == old(self)@.after_registration(*from, now),
            match client_index {
                Some(i) => old(self)@.slot_for(*from) == Some(i as int),
                None => old(self)@.slot_for(*from) is None,
            },
            client_index matches Some(i) ==> i < REDACTED_GEYSER_MAX_CLIENTS,
    {
        if self.listener_client_count >= REDACTED_GEYSER_MAX_CLIENTS {
            return None;
        }
        let ghost before = self@;
        if let Some(addr) = sockaddr_from_std(from) {
            proof {
                before.clients.index_of_first_ensures(Some(addr@));
                before.clients.index_of_first_ensures(None);
                assert(endpoint(*from) == Some(addr@));
            }
            if self.slot_of(&addr.sin_addr, &addr.sin_port).is_none() {
                if let Some(i) = self.free_slot() {
                    self.listener_clients[i] = Some(addr);
                    self.listener_clients_heartbeats[i] = now;
                    proof {
                        assert(self@.clients =~= before.clients.update(i as int, Some(addr@)));
                        lemma_distinct_update(before.clients, i as int, addr@);
                    }
                    return Some(i);
                }
            }
        }
        None
    }

    /// Handles a datagram that came from `from`. One that is not whole is passed over; a heartbeat
    /// is noted; any other request is handled, and makes its sender a client. Returns the slot of a
    /// new client, whose sender is to be started.
    pub fn handle_packet(
        &mut self,
        packet: &[u8],
        from: &SocketAddress,
        now: u128,
    ) -> (client_index: Option<usize>)
        requires
            old(self).wf(),
        ensures
            final(self).wf(),
            final(self)@ == old(self)@.after_packet(packet@, *from, now),
            match client_index {
                Some(i) => old(self)@.sender_to_start(packet@, *from) == Some(i as int),
                None => old(self)@.sender_to_start(packet@, *from) is None,
            },
            client_index matches Some(i) ==> i < REDACTED_GEYSER_MAX_CLIENTS,
    {
        if !accepts_packet(packet) {
            return None;
        }
        let request_type: u8 = packet[1];
        if request_type == self.heartbeat {
            self.handle_heartbeat(from, now);
            return None;
        }
        let (_header, payload) = packet.split_at(REDACTED_GEYSER_PACKET_HEADER_SIZE);
        assert(payload@ =~= payload_of(packet@));
        let _result = self.handle_request(request_type, payload);
        self.register(from, now)
    }

    /// Lets go of the clients that have been silent for too long.
    pub fn expire_clients(&mut self, now: u128)
        requires
            old(self).wf(),
        ensures
            final(self).wf(),
            final(self)@ == old(self)@.after_expiry(now),
    {
        let ghost before = self@;
        let ghost expected = before.after_expiry(now).clients;
        let mut i: usize = 0;
        while i < REDACTED_GEYSER_MAX_CLIENTS
            invariant
                i <= REDACTED_GEYSER_MAX_CLIENTS,
                before == old(self)@,
                before.wf(),
                expected == before.after_expiry(now).clients,
                self.wf(),
                self@ == (UdpView { clients: self@.clients, ..before }),
                self@.clients.len() == REDACTED_GEYSER_MAX_CLIENTS,
                forall|j: int| 0 <= j < i ==> self@.clients[j] == expected[j],
                forall|j: int|
                    i <= j < REDACTED_GEYSER_MAX_CLIENTS ==> self@.clients[j] == before.clients[j],
            decreases REDACTED_GEYSER_MAX_CLIENTS - i,
        {
            let ghost current = self@;
            if self.listener_clients[i].is_some() {
                let last: u128 = self.listener_clients_heartbeats[i];
                let silent: u128 = if now >= last { now - last } else { 0 };
                if silent / 1_000_000_000 > self.heartbeat_timeout as u128 {
                    self.listener_clients[i] = None;
                    proof {
                        assert(self@.clients =~= current.clients.update(i as int, None));
                    }
                }
            }
            i += 1;
        }
        assert(self@.clients =~= expected);
    }

    /// Counts the sender of a slot as running. Returns what it does first. The count wraps at the
    /// end of the machine's word.
    pub fn start_send(&mut self) -> (state: SendState)
        requires
            old(self).wf(),
        ensures
            final(self).wf(),
            state is AwaitOrder,
            final(self)@ == (UdpView {
                client_count: old(self)@.client_count.wrapping_add(1),
                ..old(self)@
            }),
    {
        self.listener_client_count = self.listener_client_count.wrapping_add(1);
        SendState::AwaitOrder
    }

    /// What the sender of slot `client_index` does next, after `event` in `state`.
    pub fn next_send(&self, client_index: usize, state: SendState, event: SendEvent) -> (next:
        SendState)
        requires
            self.wf(),
            client_index < REDACTED_GEYSER_MAX_CLIENTS,
            state.allows(event),
        ensures
            next == state.after(event, self@.clients[client_index as int]),
    {
        match event {
            SendEvent::Order(order) => {
                if self.listener_clients[client_index].is_none() {
                    SendState::Stopped
                } else {
                    SendState::Sending { order }
                }
            },
            SendEvent::ChannelClosed => SendState::Stopped,
            SendEvent::Sent => SendState::AwaitOrder,
            SendEvent::WouldBlock => state,
            SendEvent::Failed => SendState::Stopped,
        }
    }

    /// Frees the slot of a sender that has ended, and counts the sender no more.
    pub fn finish_send(&mut self, client_index: usize)
        requires
            old(self).wf(),
            client_index < REDACTED_GEYSER_MAX_CLIENTS,
        ensures
            final(self).wf(),
            final(self)@ == (UdpView {
                clients: old(self)@.clients.update(client_index as int, None),
                client_count: old(self)@.client_count.wrapping_sub(1),
                ..old(self)@
            }),
    {
        self.listener_clients[client_index] = None;
        self.listener_client_count = self.listener_client_count.wrapping_sub(1);
        assert(self@.clients =~= old(self)@.clients.update(client_index as int, None));
    }

    /// Settles what an offer of a work order to the client in slot `client_index` came to. A client
    /// that did not take the order is falling behind and is let go of.
    pub fn settle_offer(&mut self, client_index: usize, accepted: bool)
        requires
            old(self).wf(),
            client_index < REDACTED_GEYSER_MAX_CLIENTS,
            old(self)@.clients[client_index as int] is Some,
        ensures
            final(self).wf(),
            accepted ==> final(self)@ == old(self)@,
            !accepted ==> final(self)@ == (UdpView {
                clients: old(self)@.clients.update(client_index as int, None),
                client_count: old(self)@.client_count.wrapping_sub(1),
                ..old(self)@
            }),
    {
        if !accepted {
            self.listener_clients[client_index] = None;
            self.listener_client_count = self.listener_client_count.wrapping_sub(1);
            assert(self@.clients =~= old(self)@.clients.update(client_index as int, None));
        }
    }

    /// Offers a work order to every client.
    pub fn send_request(&mut self, data: WorkOrder)
        requires
            old(self).wf(),
        ensures
            final(self).wf(),
            old(self)@.distributes(data, final(self)@),
    {
        let ghost before = self@;
        let mut i: usize = 0;
        while i < REDACTED_GEYSER_MAX_CLIENTS
            invariant
                i <= REDACTED_GEYSER_MAX_CLIENTS,
                before == old(self)@,
                before.wf(),
                self.wf(),
                self@.wf(),
                self@ == (UdpView {
                    clients: self@.clients,
                    accepted: self@.accepted,
                    client_count: self@.client_count,
                    ..before
                }),
                forall|j: int| 0 <= j < i ==> #[trigger] before.offered(data, self@, j),
                forall|j: int|
                    i <= j < REDACTED_GEYSER_MAX_CLIENTS ==> #[trigger] before.same_slot(self@, j),
                self@.client_count == count_after_drops(
                    before.client_count,
                    before.clients,
                    self@.clients,
                    i as nat,
                ),
            decreases REDACTED_GEYSER_MAX_CLIENTS - i,
        {
            let ghost current = self@;
            if self.listener_clients[i].is_some() {
                let accepted = try_send(&mut self.listener_clients_channels[i], data);
                proof {
                    assert(self@.limits =~= current.limits);
                    assert(self@.accepted =~= current.accepted.update(
                        i as int,
                        self@.accepted[i as int],
                    ));
                }
                self.settle_offer(i, accepted);
            }
            proof {
                assert forall|j: int|
                    i < j < REDACTED_GEYSER_MAX_CLIENTS implies #[trigger] before.same_slot(
                    self@,
                    j,
                ) by {
                    assert(before.same_slot(current, j));
                }
                assert(before.same_slot(current, i as int));
                lemma_count_prefix(
                    before.client_count,
                    before.clients,
                    current.clients,
                    self@.clients,
                    i as nat,
                );
                assert forall|j: int| 0 <= j < i + 1 implies #[trigger] before.offered(
                    data,
                    self@,
                    j,
                ) by {
                    if j < i {
                        assert(before.offered(data, current, j));
                        assert(self@.clients[j] == current.clients[j]);
                        assert(self@.accepted[j] == current.accepted[j]);
                    }
                }
            }
            i += 1;
        }
    }

    /// Whether there is a client, and updates of accounts of `owner` are wanted.
    pub fn wants(&self, owner: &[u8; 32]) -> (wanted: bool)
        ensures
            wanted == self@.wants(owner@),
    {
        if self.listener_client_count == 0 {
            return false;
        }
        self.geyser_program_list.is_empty() || self.geyser_program_list.contains(owner)
    }

    /// Tells the clients of an account update, if there is a client and the account's owner is
    /// among the chosen programs or none was chosen.
    pub fn send_account_update(
        &mut self,
        pubkey: &[u8],
        signature: Option<&[u8; 64]>,
        slot: u64,
        lamports: u64,
        data: &[u8],
        owner: &[u8; 32],
        executable: bool,
        rent_epoch: u64,
        write_version: u64,
        is_sandwich: bool,
    )
        requires
            old(self).wf(),
            old(self)@.wants(owner@) ==> pubkey@.len() == 32,
            old(self)@.wants(owner@) ==> ({
                let size = udp_size(signature is Some, data@.len() as int);
                &&& old(self)@.pool.can_alloc(size)
                &&& wire_length(size) >= REDACTED_GEYSER_PACKET_HEADER_SIZE
            }),
        ensures
            final(self).wf(),
            !old(self)@.wants(owner@) ==> final(self)@ == old(self)@,
            old(self)@.wants(owner@) ==> old(self)@.publishes(
                udp_frame(
                    fields_of(
                        pubkey@,
                        signature,
                        slot,
                        lamports,
                        data@,
                        owner@,
                        executable,
                        rent_epoch,
                        write_version,
                        is_sandwich,
                    ),
                ),
                final(self)@,
            ),
    {
        if !self.wants(owner) {
            return ;
        }
        let data_len: usize = data.len();
        let ghost before = self@;
        let ghost fields = fields_of(
            pubkey@,
            signature,
            slot,
            lamports,
            data@,
            owner@,
            executable,
            rent_epoch,
            write_version,
            is_sandwich,
        );
        proof {
            self.memory_pool.lemma_word_sized();
            assert(fields.wf());
            lemma_udp_frame_len(fields);
            lemma_can_alloc_is_bounded(before.pool, udp_frame(fields).len() as int);
        }
        let total_size = udp_frame_size(signature.is_some(), data_len);
        assert(udp_frame(fields).len() == total_size);
        let order = self.memory_pool.allocate(total_size);
        let ghost reserved = self.memory_pool@;
        let request_mem = self.memory_pool.bytes_mut(order);
        write_udp_frame(
            request_mem,
            pubkey,
            signature,
            slot,
            lamports,
            data,
            owner,
            executable,
            rent_epoch,
            write_version,
            is_sandwich,
        );
        assert(self@ == (UdpView {
            pool: reserved.with_region(order, udp_frame(fields)),
            ..before
        }));
        self.send_request(order);
        assert(before.pool.allocates(udp_frame(fields).len() as int, order, reserved));
    }

    /// Lets go of every client.
    pub fn clear_clients(&mut self)
        requires
            old(self).wf(),
        ensures
            final(self).wf(),
            final(self)@ == (UdpView {
                clients: Seq::new(REDACTED_GEYSER_MAX_CLIENTS as nat, |i: int| None),
                ..old(self)@
            }),
    {
        self.listener_clients = [None; REDACTED_GEYSER_MAX_CLIENTS];
        assert(self@.clients =~= Seq::new(REDACTED_GEYSER_MAX_CLIENTS as nat, |i: int| None));
    }

    /// How many senders are counted as running.
    pub fn client_count(&self) -> (count: usize)
        ensures
            count == self@.client_count,
    {
        self.listener_client_count
    }

    /// The client in a slot.
    pub fn client(&self, client_index: usize) -> (client: Option<SockaddrIn>)
        requires
            client_index < REDACTED_GEYSER_MAX_CLIENTS,
        ensures
            match client {
                Some(sockaddr) => self@.clients[client_index as int] == Some(sockaddr@),
                None => self@.clients[client_index as int] is None,
            },
    {
        self.listener_clients[client_index]
    }

    /// When the client in a slot was last heard of.
    pub fn last_heartbeat(&self, client_index: usize) -> (last: u128)
        requires
            client_index < REDACTED_GEYSER_MAX_CLIENTS,
        ensures
            last == self@.heartbeats[client_index as int],
    {
        self.listener_clients_heartbeats[client_index]
    }

    /// Whether one of the next `attempts` attempts at `size` bytes of the pool would find room.
    pub fn has_room(&self, size: usize, attempts: usize) -> (found: bool)
        requires
            self.wf(),
        ensures
            found == (self@.pool.memory.len() > 0 && exists|attempt: nat|
                attempt < attempts && #[trigger] self@.pool.fits(size as int, attempt)),
            found ==> self@.pool.can_alloc(size as int),
    {
        self.memory_pool.fits_within(size, attempts)
    }

    /// Whether a work order lies inside the pool.
    pub fn holds(&self, order: WorkOrder) -> (inside: bool)
        requires
            self.wf(),
        ensures
            inside == self@.pool.has(order),
    {
        let capacity = self.memory_pool.capacity();
        order.0 <= capacity && order.1 <= capacity - order.0
    }

    /// The bytes of a work order.
    pub fn order_bytes(&self, order: WorkOrder) -> (bytes: &[u8])
        requires
            self@.pool.has(order),
        ensures
            bytes@ == self@.pool.region(order),
    {
        self.memory_pool.bytes(order)
    }

    /// The end of a slot's queue at which its sender waits for work orders.
    pub fn work_orders(&self, client_index: usize) -> (orders: &Receiver<WorkOrder>)
        requires
            self.wf(),
            client_index < REDACTED_GEYSER_MAX_CLIENTS,
        ensures
            *orders == self.queue_end(client_index as int),
    {
        &self.listener_clients_channels[client_index].1
    }

    /// The receiving end of a slot's queue.
    pub closed spec fn queue_end(&self, client_index: int) -> Receiver<WorkOrder> {
        self.listener_clients_channels@[client_index].1
    }
}

/// Whatever happens, no client gets a second slot.
pub proof fn lemma_no_client_twice(
    server: UdpView,
    packet: Seq<u8>,
    from: SocketAddress,
    now: u128,
    i: int,
)
    requires
        server.wf(),
        0 <= i < REDACTED_GEYSER_MAX_CLIENTS,
    ensures
        distinct(server.after_packet(packet, from, now).clients),
        distinct(server.after_expiry(now).clients),
        distinct(server.clients.update(i, None)),
        forall|j: int, k: int|
            0 <= j < k < REDACTED_GEYSER_MAX_CLIENTS && (#[trigger] server.after_packet(
                packet,
                from,
                now,
            ).clients[j]) is Some ==> server.after_packet(packet, from, now).clients[j]
                != #[trigger] server.after_packet(packet, from, now).clients[k],
{
    let requested = server.after_request(packet[1], payload_of(packet));
    requested.clients.index_of_first_ensures(None);
    if let Some(slot) = requested.slot_for(from) {
        lemma_distinct_update(requested.clients, slot, endpoint(from)->0);
    }
}

/// A client that has been heard of is kept for as long as it may stay silent.
pub proof fn lemma_heartbeat_keeps_client(
    server: UdpView,
    packet: Seq<u8>,
    from: SocketAddress,
    now: u128,
    later: u128,
    i: int,
)
    requires
        server.wf(),
        packet_accepted(packet),
        packet[1] == server.heartbeat,
        0 <= i < REDACTED_GEYSER_MAX_CLIENTS,
        server.clients[i] == Some(heartbeat_endpoint(from)),
        later < now + (server.timeout + 1) * 1_000_000_000,
    ensures
        server.after_packet(packet, from, now).after_expiry(later).clients[i] == server.clients[i],
{
    server.clients.index_of_first_ensures(Some(heartbeat_endpoint(from)));
    assert(server.clients.contains(server.clients[i]));
    let slot = server.clients.index_of_first(Some(heartbeat_endpoint(from)))->0;
    assert(slot == i);
    if later >= now {
        assert((later - now) / 1_000_000_000 <= server.timeout as int);
    }
}

/// A client that has been silent for too long loses its slot, and nobody else does.
pub proof fn lemma_silence_ends_client(server: UdpView, now: u128, i: int)
    requires
        server.wf(),
        0 <= i < REDACTED_GEYSER_MAX_CLIENTS,
        server.clients[i] is Some,
    ensures
        (server.after_expiry(now).clients[i] is None) == (now >= server.heartbeats[i] + (
        server.timeout + 1) * 1_000_000_000),
        server.after_expiry(now).clients[i] is Some ==> server.after_expiry(now).clients[i]
            == server.clients[i],
{
    let (last, timeout) = (server.heartbeats[i] as int, server.timeout as int);
    assert(expired(last, now as int, timeout) == (now >= last + (timeout + 1) * 1_000_000_000));
}

/// A heartbeat does nothing but note the time of one client.
pub proof fn lemma_heartbeat_changes_one_time(
    server: UdpView,
    packet: Seq<u8>,
    from: SocketAddress,
    now: u128,
)
    requires
        server.wf(),
        packet_accepted(packet),
        packet[1] == server.heartbeat,
    ensures
        ({
            let after = server.after_packet(packet, from, now);
            &&& after == UdpView { heartbeats: after.heartbeats, ..server }
            &&& forall|i: int|
                0 <= i < REDACTED_GEYSER_MAX_CLIENTS && #[trigger] server.clients[i] != Some(
                    heartbeat_endpoint(from),
                ) ==> after.heartbeats[i] == server.heartbeats[i]
        }),
{
    server.clients.index_of_first_ensures(Some(heartbeat_endpoint(from)));
}

/// A buffer whose header and guards were filled in for its own length is a whole packet.
pub proof fn lemma_guarded_packet_is_accepted(request_type: u8, buffer: Seq<u8>)
    requires
        REDACTED_GEYSER_PACKET_HEADER_SIZE < buffer.len() <= REDACTED_GEYSER_PACKET_HEADER_SIZE
            + REDACTED_GEYSER_PACKET_MAX_SIZE,
    ensures
        packet_accepted(guarded(request_type, buffer.len() as u32, buffer)),
        guarded(request_type, buffer.len() as u32, buffer)[1] == request_type,
{
    let packet = guarded(request_type, buffer.len() as u32, buffer);
    let length = (buffer.len() - REDACTED_GEYSER_PACKET_HEADER_SIZE) as u32;
    lemma_le32_round_trip(length);
    assert(packet.subrange(2, 6) =~= le32(length));
}

/// The packets that tell of an account update are whole packets, unless the account is too large.
pub proof fn lemma_update_packet_is_accepted(fields: AccountFields)
    requires
        udp_frame(fields).len() <= REDACTED_GEYSER_PACKET_HEADER_SIZE
            + REDACTED_GEYSER_PACKET_MAX_SIZE,
    ensures
        packet_accepted(udp_frame(fields)),
{
    lemma_frame_is_guarded(update_body(fields));
}

/// A packet with nothing behind its header is not whole.
pub proof fn lemma_accepted_packet_has_payload(packet: Seq<u8>)
    requires
        packet_accepted(packet),
    ensures
        payload_of(packet).len() >= 1,
        payload_of(packet).last() == REDACTED_GEYSER_MAGIC_GUARD_END,
{
    if packet.len() == REDACTED_GEYSER_PACKET_HEADER_SIZE {
        assert(packet.subrange(2, 6)[3] == packet[5]);
    }
}

/// The packet of a configuration request: the header, the keys and the end guard.
pub open spec fn config_packet(keys: Seq<Seq<u8>>) -> Seq<u8> {
    header(
        REDACTED_GEYSER_SET_PROGRAM_CONFIG,
        (REDACTED_GEYSER_PACKET_HEADER_SIZE + joined(keys).len() + 1) as u32,
    ) + joined(keys) + seq![REDACTED_GEYSER_MAGIC_GUARD_END]
}

/// A configuration request chooses exactly the programs that it names, and makes its sender a
/// client where a slot is left for it.
pub proof fn lemma_configuration_request(
    server: UdpView,
    keys: Seq<Seq<u8>>,
    from: SocketAddress,
    now: u128,
)
    requires
        server.wf(),
        server.heartbeat != REDACTED_GEYSER_SET_PROGRAM_CONFIG,
        are_keys(keys),
        joined(keys).len() + 1 <= REDACTED_GEYSER_PACKET_MAX_SIZE,
    ensures
        ({
            let after = server.after_packet(config_packet(keys), from, now);
            &&& packet_accepted(config_packet(keys))
            &&& after.programs == keys.to_set()
            &&& endpoint(from) is Some && server.client_count < REDACTED_GEYSER_MAX_CLIENTS && (
            server.clients.contains(None) || server.clients.contains(endpoint(from)))
                ==> after.clients.contains(endpoint(from))
        }),
{
    let packet = config_packet(keys);
    let length = (joined(keys).len() + 1) as u32;
    lemma_le32_round_trip(length);
    assert(packet.subrange(2, 6) =~= le32(length));
    assert(payload_of(packet) =~= joined(keys) + seq![REDACTED_GEYSER_MAGIC_GUARD_END]);
    lemma_configured(keys, seq![REDACTED_GEYSER_MAGIC_GUARD_END]);
    server.clients.index_of_first_ensures(None);
    let after = server.after_packet(packet, from, now);
    if let Some(i) = server.slot_for(from) {
        assert(after.clients[i] == endpoint(from));
    }
}

/// What is queued for the clients always lies inside the pool, whose size never changes.
pub proof fn lemma_queued_orders_are_inside(
    server: UdpView,
    frame: Seq<u8>,
    after: UdpView,
)
    requires
        server.wf(),
        server.orders_inside(),
        server.publishes(frame, after),
    ensures
        after.orders_inside(),
        after.pool.memory.len() == server.pool.memory.len(),
{
    let (order, reserved) = choose|order: WorkOrder, reserved: PoolView|
        {
            &&& #[trigger] server.pool.allocates(frame.len() as int, order, reserved)
            &&& (UdpView { pool: reserved.with_region(order, frame), ..server }).distributes(
                order,
                after,
            )
        };
    let built = UdpView { pool: reserved.with_region(order, frame), ..server };
    lemma_allocated_region_is_inside(server.pool, order, reserved);
    lemma_write_keeps_size(reserved, order, frame);
    assert forall|i: int, k: int|
        0 <= i < after.accepted.len() && 0 <= k < after.accepted[i].len() implies after.pool.has(
        #[trigger] after.accepted[i][k],
    ) by {
        assert(built.offered(order, after, i));
        if k < server.accepted[i].len() {
            assert(after.accepted[i][k] == server.accepted[i][k]);
        } else {
            assert(after.accepted[i][k] == order);
        }
    }
}

/// After a configuration request that names `keys`, an update is told if a sender runs and the
/// account's owner is among the keys, or there are none.
pub proof fn lemma_configuration_decides(
    server: UdpView,
    keys: Seq<Seq<u8>>,
    tail: Seq<u8>,
    owner: Seq<u8>,
)
    requires
        are_keys(keys),
        tail.len() < 32,
    ensures
        server.after_request(REDACTED_GEYSER_SET_PROGRAM_CONFIG, joined(keys) + tail).wants(owner)
            == (server.client_count != 0 && (keys.len() == 0 || keys.contains(owner))),
{
    lemma_configuration_selects(keys, tail, owner);
}

/// A client's queue never loses or reorders what it has accepted, and at most one order is added by
/// one offer.
pub proof fn lemma_queues_only_grow(server: UdpView, order: WorkOrder, after: UdpView, i: int)
    requires
        server.wf(),
        server.distributes(order, after),
        0 <= i < REDACTED_GEYSER_MAX_CLIENTS,
    ensures
        server.accepted[i].is_prefix_of(after.accepted[i]),
        after.accepted[i].len() <= server.accepted[i].len() + 1,
{
    assert(server.offered(order, after, i));
    assert(server.accepted[i].is_prefix_of(server.accepted[i].push(order)));
    assert(server.accepted[i].is_prefix_of(server.accepted[i]));
}

/// A client whose queue has had fewer orders than it has room for is never let go of, and gets the
/// order.
pub proof fn lemma_client_with_room_is_served(
    server: UdpView,
    order: WorkOrder,
    after: UdpView,
    i: int,
)
    requires
        server.wf(),
        server.distributes(order, after),
        0 <= i < REDACTED_GEYSER_MAX_CLIENTS,
        server.clients[i] is Some,
        server.accepted[i].len() < server.limits[i],
    ensures
        after.clients[i] == server.clients[i],
        after.accepted[i] == server.accepted[i].push(order),
{
    assert(server.offered(order, after, i));
}

/// Every client that is still there after an update was published has the update's packet as the
/// last one in its queue.
pub proof fn lemma_published_frame_is_queued(
    server: UdpView,
    frame: Seq<u8>,
    after: UdpView,
    i: int,
)
    requires
        server.wf(),
        server.publishes(frame, after),
        0 <= i < REDACTED_GEYSER_MAX_CLIENTS,
        after.clients[i] is Some,
    ensures
        after.accepted[i].len() == server.accepted[i].len() + 1,
        after.pool.has(after.accepted[i].last()),
        after.pool.region(after.accepted[i].last()) == frame,
{
    let (order, reserved) = choose|order: WorkOrder, reserved: PoolView|
        {
            &&& #[trigger] server.pool.allocates(frame.len() as int, order, reserved)
            &&& (UdpView { pool: reserved.with_region(order, frame), ..server }).distributes(
                order,
                after,
            )
        };
    let built = UdpView { pool: reserved.with_region(order, frame), ..server };
    assert(built.offered(order, after, i));
    assert(after.accepted[i].last() == order);
    lemma_read_gives_what_was_written(reserved, order, frame);
}

/// What an offer of a work order does to a slot: a free slot stays free and gets nothing; a client
/// stays and gets the order behind its earlier ones, or, only if its queue has had as many orders
/// as it has room for, is gone and gets nothing. Nothing else changes.
pub proof fn lemma_offer_reaches_slot(
    server: UdpView,
    order: WorkOrder,
    after: UdpView,
    i: int,
)
    requires
        server.distributes(order, after),
        0 <= i < REDACTED_GEYSER_MAX_CLIENTS,
    ensures
        server.clients[i] is None ==> after.clients[i] is None && after.accepted[i]
            == server.accepted[i],
        !(server.clients[i] is None) ==> {
            ||| after.clients[i] == server.clients[i] && after.accepted[i]
                == server.accepted[i].push(order)
            ||| after.clients[i] is None && after.accepted[i] == server.accepted[i]
                && server.accepted[i].len() >= server.limits[i]
        },
        after.limits == server.limits,
        after.pool == server.pool,
        after.programs == server.programs,
        after.heartbeats == server.heartbeats,
        after.heartbeat == server.heartbeat,
        after.timeout == server.timeout,
        after.client_count == count_after_drops(
            server.client_count,
            server.clients,
            after.clients,
            8,
        ),
{
    assert(server.offered(order, after, i));
}

/// What publishing a packet does: one region of the pool, the next that is free, holds the packet
/// afterwards, and every other byte of the pool stays; each client that stays gets that very region
/// behind its earlier ones; a client is let go of only if its queue has had as many orders as it
/// has room for; and the programs stay.
pub proof fn lemma_publishing(server: UdpView, frame: Seq<u8>, after: UdpView)
    requires
        server.wf(),
        server.publishes(frame, after),
    ensures
        exists|order: WorkOrder|
            {
                &&& #[trigger] server.pool.allocates(
                    frame.len() as int,
                    order,
                    PoolView { memory: server.pool.memory, next: after.pool.next },
                )
                &&& order.1 == frame.len()
                &&& order.0 + order.1 <= server.pool.memory.len()
                &&& after.pool.memory.len() == server.pool.memory.len()
                &&& forall|j: int|
                    0 <= j < server.pool.memory.len() ==> #[trigger] after.pool.memory[j]
                        == if order.0 <= j < order.0 + order.1 {
                        frame[j - order.0]
                    } else {
                        server.pool.memory[j]
                    }
                &&& forall|i: int|
                    0 <= i < REDACTED_GEYSER_MAX_CLIENTS && !(after.clients[i] is None) ==> {
                        &&& after.clients[i] == server.clients[i]
                        &&& #[trigger] after.accepted[i] == server.accepted[i].push(order)
                    }
            },
        forall|i: int|
            0 <= i < REDACTED_GEYSER_MAX_CLIENTS && (after.clients[i] is None) ==> {
                &&& #[trigger] after.accepted[i] == server.accepted[i]
                &&& server.clients[i] is None || server.accepted[i].len() >= server.limits[i]
            },
        after.programs == server.programs,
        after.limits == server.limits,
        after.heartbeats == server.heartbeats,
        after.heartbeat == server.heartbeat,
        after.timeout == server.timeout,
        after.client_count == count_after_drops(
            server.client_count,
            server.clients,
            after.clients,
            8,
        ),
{
    let (order, reserved) = choose|order: WorkOrder, reserved: PoolView|
        {
            &&& #[trigger] server.pool.allocates(frame.len() as int, order, reserved)
            &&& (UdpView { pool: reserved.with_region(order, frame), ..server }).distributes(
                order,
                after,
            )
        };
    let built = UdpView { pool: reserved.with_region(order, frame), ..server };
    lemma_allocated_region_is_inside(server.pool, order, reserved);
    lemma_written_bytes(reserved, order, frame);
    assert(reserved =~= PoolView { memory: server.pool.memory, next: after.pool.next });
    assert forall|i: int| 0 <= i < REDACTED_GEYSER_MAX_CLIENTS implies #[trigger] built.offered(
        order,
        after,
        i,
    ) by {}
}

/// An update is told exactly if somebody is counted as being served, and the account's owner was
/// chosen or nobody was.
pub proof fn lemma_wanted_updates(server: UdpView, owner: Seq<u8>)
    ensures
        server.wants(owner) <==> server.client_count != 0 && (server.programs.contains(owner)
            || forall|key: Seq<u8>| !server.programs.contains(key)),
{
    lemma_selects(server.programs, owner);
}

/// A configuration request puts the keys that stand in it at multiples of 32 bytes in the place of
/// those chosen before, and changes nothing else. Other requests change nothing.
pub proof fn lemma_request_effect(
    server: UdpView,
    request_type: u8,
    request_mem: Seq<u8>,
    key: Seq<u8>,
)
    ensures
        ({
            let after = server.after_request(request_type, request_mem);
            &&& after == UdpView { programs: after.programs, ..server }
            &&& request_type != REDACTED_GEYSER_SET_PROGRAM_CONFIG ==> after == server
            &&& request_type == REDACTED_GEYSER_SET_PROGRAM_CONFIG ==> (after.programs.contains(key)
                <==> exists|offset: int|
                {
                    &&& 0 <= offset
                    &&& offset % 32 == 0
                    &&& offset + 32 <= request_mem.len()
                    &&& (#[trigger] request_mem.skip(offset)).take(32) == key
                })
        }),
{
    lemma_named_keys(request_mem, key);
}

/// The endpoint of an IPv4 address holds the bytes of the address and the two bytes of the port,
/// the most significant first. An IPv6 address has none, and its heartbeats are looked up by zeros.
pub proof fn lemma_endpoint(addr: SocketAddress)
    ensures
        match addr {
            SocketAddress::V4 { octets, port } => {
                &&& endpoint(addr) is Some
                &&& endpoint(addr)->0.addr == octets@
                &&& endpoint(addr)->0.port.len() == 2
                &&& port == 256 * endpoint(addr)->0.port[0] + endpoint(addr)->0.port[1]
                &&& heartbeat_endpoint(addr) == endpoint(addr)->0
            },
            SocketAddress::V6 => {
                &&& endpoint(addr) is None
                &&& heartbeat_endpoint(addr).addr == seq![0u8, 0u8, 0u8, 0u8]
                &&& heartbeat_endpoint(addr).port == seq![0u8, 0u8]
            },
        },
{
}

/// A row of slots holds the addresses and ports of its clients, byte by byte.
pub proof fn lemma_endpoints_of_slots(slots: Seq<Option<SockaddrIn>>, i: int)
    requires
        0 <= i < slots.len(),
    ensures
        endpoints(slots).len() == slots.len(),
        match slots[i] {
            Some(client) => {
                &&& endpoints(slots)[i] is Some
                &&& endpoints(slots)[i]->0.addr == client.sin_addr@
                &&& endpoints(slots)[i]->0.port == client.sin_port@
            },
            None => endpoints(slots)[i] is None,
        },
{
}

/// A packet is whole exactly if it starts with the start guard and ends with the end guard, and the
/// four bytes of its length, the least significant first, are the number of bytes behind the header
/// and at most the largest payload. The payload is what stands behind the header.
pub proof fn lemma_packet_is_read(packet: Seq<u8>)
    requires
        packet.len() >= 6,
    ensures
        packet_accepted(packet) <==> {
            &&& packet[0] == REDACTED_GEYSER_MAGIC_GUARD_START
            &&& packet[2] + 256 * packet[3] + 65536 * packet[4] + 16777216 * packet[5]
                == packet.len() - 6
            &&& packet.len() - 6 <= REDACTED_GEYSER_PACKET_MAX_SIZE
            &&& packet[packet.len() - 1] == REDACTED_GEYSER_MAGIC_GUARD_END
        },
        payload_of(packet) == packet.subrange(6, packet.len() as int),
{
    assert(payload_of(packet) =~= packet.subrange(6, packet.len() as int));
}

/// A packet that is too short for a header, misses a guard or announces another length than it has
/// changes nothing and starts no sender.
pub proof fn lemma_broken_packet_changes_nothing(
    server: UdpView,
    packet: Seq<u8>,
    from: SocketAddress,
    now: u128,
)
    requires
        packet.len() < 6 || packet[0] != REDACTED_GEYSER_MAGIC_GUARD_START || packet[packet.len()
            - 1] != REDACTED_GEYSER_MAGIC_GUARD_END || packet[2] + 256 * packet[3] + 65536
            * packet[4] + 16777216 * packet[5] != packet.len() - 6 || packet.len() - 6
            > REDACTED_GEYSER_PACKET_MAX_SIZE,
    ensures
        server.after_packet(packet, from, now) == server,
        server.sender_to_start(packet, from) is None,
{
    if packet.len() >= 6 {
        lemma_packet_is_read(packet);
    }
}

/// A heartbeat notes the time at which its sender, if it is a client, was heard of, and starts no
/// sender.
pub proof fn lemma_heartbeat_is_noted(
    server: UdpView,
    packet: Seq<u8>,
    from: SocketAddress,
    now: u128,
    i: int,
)
    requires
        server.wf(),
        packet_accepted(packet),
        packet[1] == server.heartbeat,
        0 <= i < REDACTED_GEYSER_MAX_CLIENTS,
        server.clients[i] == Some(heartbeat_endpoint(from)),
    ensures
        server.after_packet(packet, from, now).heartbeats[i] == now,
        server.sender_to_start(packet, from) is None,
{
    server.clients.index_of_first_ensures(Some(heartbeat_endpoint(from)));
    assert(server.clients.contains(server.clients[i]));
}

/// The sender of a request is given the first free slot, and is refused one only if enough senders
/// run, its address is not served, it is a client, or no slot is free.
pub proof fn lemma_slot_for_sender(server: UdpView, from: SocketAddress)
    requires
        server.wf(),
    ensures
        match server.slot_for(from) {
            Some(i) => {
                &&& server.client_count < REDACTED_GEYSER_MAX_CLIENTS
                &&& endpoint(from) is Some
                &&& 0 <= i < REDACTED_GEYSER_MAX_CLIENTS
                &&& server.clients[i] is None
                &&& forall|j: int| 0 <= j < i ==> (#[trigger] server.clients[j]) is Some
                &&& forall|j: int|
                    0 <= j < REDACTED_GEYSER_MAX_CLIENTS ==> #[trigger] server.clients[j]
                        != endpoint(from)
            },
            None => {
                ||| server.client_count >= REDACTED_GEYSER_MAX_CLIENTS
                ||| endpoint(from) is None
                ||| exists|j: int|
                    0 <= j < REDACTED_GEYSER_MAX_CLIENTS && #[trigger] server.clients[j]
                        == endpoint(from)
                ||| forall|j: int|
                    0 <= j < REDACTED_GEYSER_MAX_CLIENTS ==> (#[trigger] server.clients[j]) is Some
            },
        },
{
    server.clients.index_of_first_ensures(None);
    assert forall|j: int| 0 <= j < server.clients.len() implies server.clients.contains(
        #[trigger] server.clients[j],
    ) by {}
}

/// A client that is given a slot by a packet is the one in the slot and was heard of at the time of
/// the packet; it keeps the slot under every look for silent clients before it has been silent for
/// too long. The clients and the times of all other slots stay as they were.
pub proof fn lemma_new_client_is_kept(
    server: UdpView,
    packet: Seq<u8>,
    from: SocketAddress,
    now: u128,
    later: u128,
    i: int,
)
    requires
        server.wf(),
        packet_accepted(packet),
        packet[1] != server.heartbeat,
        server.sender_to_start(packet, from) == Some(i),
    ensures
        ({
            let after = server.after_packet(packet, from, now);
            &&& 0 <= i < REDACTED_GEYSER_MAX_CLIENTS
            &&& server.clients[i] is None
            &&& endpoint(from) is Some
            &&& after.clients[i] == endpoint(from)
            &&& after.heartbeats[i] == now
            &&& forall|j: int|
                0 <= j < REDACTED_GEYSER_MAX_CLIENTS && j != i ==> {
                    &&& #[trigger] after.clients[j] == server.clients[j]
                    &&& after.heartbeats[j] == server.heartbeats[j]
                }
            &&& later < now + (server.timeout + 1) * 1_000_000_000 ==> after.after_expiry(
                later,
            ).clients[i] == endpoint(from)
        }),
{
    lemma_slot_for_sender(server, from);
    let after = server.after_packet(packet, from, now);
    assert(after.clients[i] == endpoint(from));
    if later >= now && later < now + (server.timeout + 1) * 1_000_000_000 {
        assert((later - now) / 1_000_000_000 <= server.timeout as int);
    }
}

/// A request that is no heartbeat starts the sender of the slot that its sender is given, if it is
/// given one; otherwise all clients and times stay. Programs apart, which a configuration request
/// sets to the keys in its payload, nothing else changes.
pub proof fn lemma_request_packet(
    server: UdpView,
    packet: Seq<u8>,
    from: SocketAddress,
    now: u128,
    key: Seq<u8>,
)
    requires
        server.wf(),
        packet_accepted(packet),
        packet[1] != server.heartbeat,
    ensures
        ({
            let after = server.after_packet(packet, from, now);
            let payload = packet.subrange(6, packet.len() as int);
            &&& server.sender_to_start(packet, from) == server.slot_for(from)
            &&& server.slot_for(from) is None ==> after.clients == server.clients
                && after.heartbeats == server.heartbeats
            &&& after == UdpView {
                clients: after.clients,
                heartbeats: after.heartbeats,
                programs: after.programs,
                ..server
            }
            &&& packet[1] != REDACTED_GEYSER_SET_PROGRAM_CONFIG ==> after.programs
                == server.programs
            &&& packet[1] == REDACTED_GEYSER_SET_PROGRAM_CONFIG ==> (after.programs.contains(key)
                <==> exists|offset: int|
                {
                    &&& 0 <= offset
                    &&& offset % 32 == 0
                    &&& offset + 32 <= payload.len()
                    &&& (#[trigger] payload.skip(offset)).take(32) == key
                })
        }),
{
    lemma_packet_is_read(packet);
    lemma_request_effect(server, packet[1], payload_of(packet), key);
}

/// Looking for silent clients is not hearing of them: it can only free slots, and changes nothing
/// else, least of all the times at which clients were last heard of.
pub proof fn lemma_expiry_only_frees_slots(server: UdpView, now: u128, i: int)
    requires
        server.wf(),
        0 <= i < REDACTED_GEYSER_MAX_CLIENTS,
    ensures
        ({
            let after = server.after_expiry(now);
            &&& after.clients.len() == server.clients.len()
            &&& after.clients[i] is None || after.clients[i] == server.clients[i]
            &&& after.heartbeats == server.heartbeats
            &&& after == UdpView { clients: after.clients, ..server }
        }),
{
}

/// The state after looks for silent clients at some times, one after the other.
pub open spec fn after_expiries(server: UdpView, times: Seq<u128>) -> UdpView
    decreases times.len(),
{
    if times.len() == 0 {
        server
    } else {
        after_expiries(server, times.drop_last()).after_expiry(times.last())
    }
}

/// However often silent clients are looked for, a client that is not heard of meanwhile is gone
/// exactly if one of the looks was taken when it had been silent for too long.
pub proof fn lemma_silent_client_is_gone(server: UdpView, times: Seq<u128>, i: int)
    requires
        server.wf(),
        0 <= i < REDACTED_GEYSER_MAX_CLIENTS,
        server.clients[i] is Some,
    ensures
        after_expiries(server, times).clients[i] is None <==> exists|k: int|
            0 <= k < times.len() && #[trigger] times[k] >= server.heartbeats[i] + (server.timeout
                + 1) * 1_000_000_000,
        after_expiries(server, times).clients[i] is Some ==> after_expiries(
            server,
            times,
        ).clients[i] == server.clients[i],
        after_expiries(server, times).heartbeats == server.heartbeats,
        after_expiries(server, times).timeout == server.timeout,
        after_expiries(server, times).wf(),
    decreases times.len(),
{
    if times.len() > 0 {
        let fewer = times.drop_last();
        let before = after_expiries(server, fewer);
        lemma_silent_client_is_gone(server, fewer, i);
        lemma_no_client_twice(before, Seq::empty(), SocketAddress::V6, times.last(), i);
        if before.clients[i] is Some {
            lemma_silence_ends_client(before, times.last(), i);
        }
        if exists|k: int|
            0 <= k < fewer.len() && #[trigger] fewer[k] >= server.heartbeats[i] + (server.timeout
                + 1) * 1_000_000_000 {
            let k = choose|k: int|
                0 <= k < fewer.len() && #[trigger] fewer[k] >= server.heartbeats[i] + (
                server.timeout + 1) * 1_000_000_000;
            assert(times[k] == fewer[k]);
        }
        if exists|k: int|
            0 <= k < times.len() && #[trigger] times[k] >= server.heartbeats[i] + (server.timeout
                + 1) * 1_000_000_000 {
            let k = choose|k: int|
                0 <= k < times.len() && #[trigger] times[k] >= server.heartbeats[i] + (
                server.timeout + 1) * 1_000_000_000;
            if k < fewer.len() {
                assert(fewer[k] == times[k]);
            }
        }
    }
}

/// One sender less is counted for each slot that held a client before and holds none after. The
/// count wraps below 0.
pub proof fn lemma_counted_drops(
    count: usize,
    before: Seq<Option<Endpoint>>,
    after: Seq<Option<Endpoint>>,
)
    ensures
        ({
            let left = |i: int|
                if before[i] is Some && after[i] is None {
                    1int
                } else {
                    0int
                };
            let drops = left(0) + left(1) + left(2) + left(3) + left(4) + left(5) + left(6) + left(
                7,
            );
            count_after_drops(count, before, after, 8) == if count >= drops {
                count - drops
            } else {
                count - drops + usize::MAX + 1
            }
        }),
{
    reveal_with_fuel(drops_below, 9);
    lemma_count_less_drops(count, before, after, 8);
}

/// How many of the first `slots` slots held a client before and hold none after.
spec fn drops_below(
    before: Seq<Option<Endpoint>>,
    after: Seq<Option<Endpoint>>,
    slots: nat,
) -> int
    decreases slots,
{
    if slots == 0 {
        0
    } else {
        drops_below(before, after, (slots - 1) as nat) + if before[slots - 1] is Some
            && after[slots - 1] is None {
            1int
        } else {
            0int
        }
    }
}

proof fn lemma_count_less_drops(
    count: usize,
    before: Seq<Option<Endpoint>>,
    after: Seq<Option<Endpoint>>,
    slots: nat,
)
    requires
        slots <= 8,
    ensures
        0 <= drops_below(before, after, slots) <= slots,
        count_after_drops(count, before, after, slots) == if count >= drops_below(
            before,
            after,
            slots,
        ) {
            count - drops_below(before, after, slots)
        } else {
            count - drops_below(before, after, slots) + usize::MAX + 1
        },
    decreases slots,
{
    if slots > 0 {
        lemma_count_less_drops(count, before, after, (slots - 1) as nat);
    }
}

/// What a sender does after each event. A waiting sender that takes a work order sends it if the
/// client is there, and ends if it is not.
pub proof fn lemma_sender_steps(order: WorkOrder, slot: Option<Endpoint>)
    ensures
        ({
            let waiting = SendState::AwaitOrder;
            let sending = SendState::Sending { order };
            &&& waiting.allows(SendEvent::Order(order))
            &&& slot is Some ==> waiting.after(SendEvent::Order(order), slot) == sending
            &&& slot is None ==> waiting.after(SendEvent::Order(order), slot) == SendState::Stopped
            &&& waiting.allows(SendEvent::ChannelClosed)
            &&& waiting.after(SendEvent::ChannelClosed, slot) == SendState::Stopped
            &&& sending.allows(SendEvent::Sent)
            &&& sending.after(SendEvent::Sent, slot) == waiting
            &&& sending.allows(SendEvent::WouldBlock)
            &&& sending.after(SendEvent::WouldBlock, slot) == sending
            &&& sending.allows(SendEvent::Failed)
            &&& sending.after(SendEvent::Failed, slot) == SendState::Stopped
        }),
{
}

/// A sender sends each work order once, and only to a client that is there when the order comes: it
/// takes the next order only when the socket has taken the one before.
pub proof fn lemma_one_order_at_a_time(
    state: SendState,
    event: SendEvent,
    slot: Option<Endpoint>,
)
    requires
        state.allows(event),
    ensures
        state.after(event, slot) is AwaitOrder ==> state is Sending && event is Sent,
        state.after(event, slot) is Sending ==> {
            ||| event == SendEvent::Order(state.after(event, slot)->order) && slot is Some
            ||| event is WouldBlock && state.after(event, slot) == state
        },
{
}

/// A client that has no slot may be given one.
proof fn lemma_distinct_update(clients: Seq<Option<Endpoint>>, i: int, client: Endpoint)
    requires
        distinct(clients),
        0 <= i < clients.len(),
        !clients.contains(Some(client)),
    ensures
        distinct(clients.update(i, Some(client))),
{
    let after = clients.update(i, Some(client));
    assert forall|j: int, k: int|
        0 <= j < k < after.len() && (#[trigger] after[j]) is Some implies after[j]
        != #[trigger] after[k] by {
        assert(clients.contains(clients[j]));
        assert(clients.contains(clients[k]));
    }
}

/// How many clients were let go of among the first slots depends on these slots alone.
proof fn lemma_count_prefix(
    count: usize,
    before: Seq<Option<Endpoint>>,
    a: Seq<Option<Endpoint>>,
    b: Seq<Option<Endpoint>>,
    slots: nat,
)
    requires
        slots <= before.len(),
        a.len() == before.len(),
        b.len() == before.len(),
        forall|j: int| 0 <= j < slots ==> a[j] == b[j],
    ensures
        count_after_drops(count, before, a, slots) == count_after_drops(count, before, b, slots),
    decreases slots,
{
    if slots > 0 {
        lemma_count_prefix(count, before, a, b, (slots - 1) as nat);
    }
}

} // verus!
