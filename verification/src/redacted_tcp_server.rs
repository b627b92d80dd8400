//! The server for TCP clients: who is connected, which programs they want to hear of, and what is
//! queued for them. Sockets are known by their descriptors; 0 stands for none.

use crate::channel::{accepted_by_each, limits_of_each, order_channels, try_send, OrderChannel};
use crate::packet::{
    announced_length, fields_of, guarded, lemma_tcp_frame_len, tcp_frame, tcp_frame_size,
    tcp_size, wire_length, write_tcp_frame, Timespec,
};
use crate::program_list::{
    are_keys, configured, joined, key_at, keys_in, lemma_configuration_selects, lemma_named_keys,
    lemma_selects, selects, ProgramList,
};
use crate::redacted_memory_pool::{
    lemma_allocated_region_is_inside, lemma_can_alloc_is_bounded,
    lemma_read_gives_what_was_written, lemma_write_keeps_size, lemma_written_bytes, PoolView,
    RedactedMemoryPool, WorkOrder,
};
use crate::redacted_tcp_types::{
    RedactedGeyserError, REDACTED_GEYSER_MAGIC_GUARD_END, REDACTED_GEYSER_MAGIC_GUARD_START,
    REDACTED_GEYSER_MAX_CLIENTS, REDACTED_GEYSER_MEMORY_POOL_SIZE,
    REDACTED_GEYSER_NOTIFY_ACCOUNT_UPDATE, REDACTED_GEYSER_PACKET_HEADER_SIZE,
    REDACTED_GEYSER_PACKET_MAX_SIZE, REDACTED_GEYSER_SERVER_WORK_ORDERS,
    REDACTED_GEYSER_SET_PROGRAM_CONFIG,
};
use crate::wire::{le32, lemma_le32_round_trip, put_field, u32_from_le, with_field};
use crossbeam_channel::Receiver;
use vstd::prelude::*;

verus! {

/// The server's state.
#[derive(Debug)]
pub struct RedactedGeyserServer {
    listener_host: String,
    /// One slot per client; not a rolling window.
    listener_clients: [i32; REDACTED_GEYSER_MAX_CLIENTS],
    listener_client_count: usize,
    listener_clients_channels: Vec<OrderChannel>,
    memory_pool: RedactedMemoryPool,
    geyser_program_list: ProgramList,
}

/// What the server knows.
#[verifier::ext_equal]
pub struct TcpView {
    /// The address to listen at.
    pub host: Seq<char>,
    /// The descriptor in each slot, 0 where the slot is free.
    pub clients: Seq<i32>,
    /// How many connections are being served.
    pub client_count: usize,
    /// The work orders that were queued in each slot so far.
    pub accepted: Seq<Seq<WorkOrder>>,
    /// How many work orders each slot has room for.
    pub limits: Seq<nat>,
    /// The memory that packets are built in.
    pub pool: PoolView,
    /// The programs that were chosen.
    pub programs: Set<Seq<u8>>,
}

impl View for RedactedGeyserServer {
    type V = TcpView;

    closed spec fn view(&self) -> TcpView {
        TcpView {
            host: self.listener_host@,
            clients: self.listener_clients@,
            client_count: self.listener_client_count,
            accepted: accepted_by_each(self.listener_clients_channels@),
            limits: limits_of_each(self.listener_clients_channels@),
            pool: self.memory_pool@,
            programs: self.geyser_program_list@,
        }
    }
}

/// The descriptors of the clients that were let go of between two states of the clients, looking at
/// the first `count` slots, in the order of the slots.
pub open spec fn dropped_clients(before: Seq<i32>, after: Seq<i32>, count: nat) -> Seq<i32>
    decreases count,
{
    if count == 0 {
        Seq::empty()
    } else {
        let earlier = dropped_clients(before, after, (count - 1) as nat);
        if before[count - 1] != 0 && after[count - 1] == 0 {
            earlier.push(before[count - 1])
        } else {
            earlier
        }
    }
}

/// A request's header starts with the start guard and names a known operation and an allowed
/// length.
pub open spec fn header_accepted(buf: Seq<u8>) -> bool {
    &&& buf[0] == REDACTED_GEYSER_MAGIC_GUARD_START
    &&& buf[1] == REDACTED_GEYSER_SET_PROGRAM_CONFIG || buf[1]
        == REDACTED_GEYSER_NOTIFY_ACCOUNT_UPDATE
    &&& announced_length(buf) <= REDACTED_GEYSER_PACKET_MAX_SIZE
}

/// The bytes behind a request's header end with the end guard.
pub open spec fn ends_with_guard(request_mem: Seq<u8>) -> bool {
    request_mem.len() > 0 && request_mem.last() == REDACTED_GEYSER_MAGIC_GUARD_END
}

/// So many bytes are whole keys and the end guard behind them, which belongs to no key. A multiple
/// of 32 is taken as well: then the bytes are whole keys to the end, and the last byte, though it
/// stands where the guard does, is the last byte of the last key.
pub open spec fn whole_keys(length: int) -> bool {
    length >= 1 && length % 32 <= 1
}

/// What the sender of a slot is about.
#[derive(Clone, Copy, Debug, PartialEq, Eq)]
pub enum SendState {
    /// It waits for the next work order for `client`.
    AwaitOrder { client: i32 },
    /// It hands the last `remainder` bytes of `order`, those that the socket has not taken yet, to
    /// the socket of `client`.
    Sending { client: i32, order: WorkOrder, remainder: usize },
    /// It has ended.
    Stopped,
}

/// What a sender meets.
#[derive(Clone, Copy, Debug, PartialEq, Eq)]
pub enum SendEvent {
    /// A work order came.
    Order(WorkOrder),
    /// No work order will come any more.
    ChannelClosed,
    /// The socket took so many bytes.
    Sent(usize),
    /// The socket cannot take bytes at the moment: the sender yields and tries again.
    WouldBlock,
    /// The socket failed: the sender ends, and the client is to be disconnected.
    Failed,
}

/// A sender between two work orders: it ends if the client was let go of elsewhere.
pub open spec fn idle_state(client: i32) -> SendState {
    if client == 0 {
        SendState::Stopped
    } else {
        SendState::AwaitOrder { client }
    }
}

impl SendState {
    /// The sender has a client, and no more bytes are left of a work order than it has.
    pub open spec fn wf(self) -> bool {
        match self {
            SendState::AwaitOrder { client } => client != 0,
            SendState::Sending { client, order, remainder } => client != 0 && remainder <= order.1,
            SendState::Stopped => true,
        }
    }

    /// The event can come in this state. A socket takes no more bytes than it is handed.
    pub open spec fn allows(self, event: SendEvent) -> bool {
        match event {
            SendEvent::Order(_) => self is AwaitOrder,
            SendEvent::ChannelClosed => self is AwaitOrder,
            SendEvent::Sent(sent) => self is Sending && sent <= self->remainder,
            SendEvent::WouldBlock => self is Sending,
            SendEvent::Failed => self is Sending,
        }
    }

    /// The state after an event, where `slot` is what the sender's slot holds. A work order is done
    /// when the socket has taken as many bytes as the order has.
    pub open spec fn after(self, event: SendEvent, slot: i32) -> SendState {
        match event {
            SendEvent::Order(order) => SendState::Sending {
                client: self->AwaitOrder_client,
                order,
                remainder: order.1,
            },
            SendEvent::ChannelClosed => SendState::Stopped,
            SendEvent::Sent(sent) => if sent == self->remainder {
                idle_state(slot)
            } else {
                SendState::Sending {
                    client: self->Sending_client,
                    order: self->order,
                    remainder: (self->remainder - sent) as usize,
                }
            },
            SendEvent::WouldBlock => self,
            SendEvent::Failed => SendState::Stopped,
        }
    }
}

impl TcpView {
    /// Every slot has its queue.
    pub open spec fn wf(self) -> bool {
        &&& self.clients.len() == REDACTED_GEYSER_MAX_CLIENTS
        &&& self.accepted.len() == REDACTED_GEYSER_MAX_CLIENTS
        &&& self.limits.len() == REDACTED_GEYSER_MAX_CLIENTS
    }

    /// There is a client, and updates of accounts of `owner` are wanted.
    pub open spec fn wants(self, owner: Seq<u8>) -> bool {
        self.client_count != 0 && selects(self.programs, owner)
    }

    /// The state after a request of a client.
    pub open spec fn after_request(self, request_type: u8, request_mem: Seq<u8>) -> TcpView {
        if request_type == REDACTED_GEYSER_SET_PROGRAM_CONFIG {
            TcpView { programs: configured(request_mem), ..self }
        } else {
            self
        }
    }

    /// The slot that the next connection is given: the first free one, unless enough connections
    /// are served.
    pub open spec fn next_slot(self) -> Option<int> {
        if self.client_count < REDACTED_GEYSER_MAX_CLIENTS {
            self.clients.index_of_first(0)
        } else {
            None
        }
    }

    /// The state with a connection more, in slot `i`.
    pub open spec fn with_client(self, i: int, fd: i32) -> TcpView {
        TcpView {
            clients: self.clients.update(i, fd),
            client_count: (self.client_count + 1) as usize,
            ..self
        }
    }

    /// The state with a connection less and slot `i` free. The count wraps below 0.
    pub open spec fn without_client(self, i: int) -> TcpView {
        TcpView {
            clients: self.clients.update(i, 0),
            client_count: if self.client_count == 0 {
                usize::MAX
            } else {
                (self.client_count - 1) as usize
            },
            ..self
        }
    }

    /// The state after the sender of slot `i` failed to send to `client`: the slot is free, unless
    /// the client had left it before.
    pub open spec fn after_failed_send(self, i: int, client: i32) -> TcpView {
        if self.clients[i] == client {
            TcpView { clients: self.clients.update(i, 0), ..self }
        } else {
            self
        }
    }

    /// Every work order that was ever queued lies inside the pool.
    pub open spec fn orders_inside(self) -> bool {
        forall|i: int, k: int|
            0 <= i < self.accepted.len() && 0 <= k < self.accepted[i].len() ==> self.pool.has(
                #[trigger] self.accepted[i][k],
            )
    }

    /// Slot `i` and its queue are the same in both states.
    pub open spec fn same_slot(self, other: TcpView, i: int) -> bool {
        self.clients[i] == other.clients[i] && self.accepted[i] == other.accepted[i]
    }

    /// What became of slot `i` when `order` was offered to all clients: a free slot stays as it
    /// is; a client gets the order behind its earlier ones, or, if its queue has had as many orders
    /// as it has room for, may be let go of.
    pub open spec fn offered(self, order: WorkOrder, after: TcpView, i: int) -> bool {
        if self.clients[i] == 0 {
            after.clients[i] == 0 && after.accepted[i] == self.accepted[i]
        } else {
            ||| {
                &&& after.clients[i] == self.clients[i]
                &&& after.accepted[i] == self.accepted[i].push(order)
            }
            ||| {
                &&& after.clients[i] == 0
                &&& after.accepted[i] == self.accepted[i]
                &&& self.accepted[i].len() >= self.limits[i]
            }
        }
    }

    /// `order` was offered to all clients; `closed` are the descriptors of those let go of.
    pub open spec fn distributes(
        self,
        order: WorkOrder,
        after: TcpView,
        closed: Seq<i32>,
    ) -> bool {
        &&& after == TcpView { clients: after.clients, accepted: after.accepted, ..self }
        &&& after.wf()
        &&& forall|i: int|
            #![trigger self.offered(order, after, i)]
            #![trigger after.clients[i]]
            #![trigger after.accepted[i]]
            0 <= i < REDACTED_GEYSER_MAX_CLIENTS ==> self.offered(order, after, i)
        &&& closed == dropped_clients(
            self.clients,
            after.clients,
            REDACTED_GEYSER_MAX_CLIENTS as nat,
        )
    }

    /// `frame` was put into the next free region of the pool, and that region offered to all
    /// clients.
    pub open spec fn publishes(self, frame: Seq<u8>, after: TcpView, closed: Seq<i32>) -> bool {
        exists|order: WorkOrder, reserved: PoolView|
            {
                &&& #[trigger] self.pool.allocates(frame.len() as int, order, reserved)
                &&& (TcpView { pool: reserved.with_region(order, frame), ..self }).distributes(
                    order,
                    after,
                    closed,
                )
            }
    }
}

impl RedactedGeyserServer {
    /// The parts of the server fit together.
    pub closed spec fn wf(&self) -> bool {
        &&& self.listener_clients_channels@.len() == REDACTED_GEYSER_MAX_CLIENTS
        &&& self.memory_pool.wf()
        &&& self.geyser_program_list.wf()
    }

    /// What is known of every server.
    pub proof fn lemma_wf(&self)
        requires
            self.wf(),
        ensures
            self@.wf(),
    {
    }

    /// A server that will listen at `address`.
    pub fn new(address: &str) -> (server: Self)
        requires
            REDACTED_GEYSER_MEMORY_POOL_SIZE <= isize::MAX,
        ensures
            server.wf(),
            server@ == (TcpView {
                host: address@,
                clients: Seq::new(REDACTED_GEYSER_MAX_CLIENTS as nat, |i: int| 0i32),
                client_count: 0,
                accepted: Seq::new(
                    REDACTED_GEYSER_MAX_CLIENTS as nat,
                    |i: int| Seq::<WorkOrder>::empty(),
                ),
                limits: Seq::new(
                    REDACTED_GEYSER_MAX_CLIENTS as nat,
                    |i: int| REDACTED_GEYSER_SERVER_WORK_ORDERS as nat,
                ),
                pool: PoolView {
                    memory: Seq::new(REDACTED_GEYSER_MEMORY_POOL_SIZE as nat, |i: int| 0u8),
                    next: 0,
                },
                programs: Set::empty(),
            }),
    {
        Self::with_limits(
            address,
            REDACTED_GEYSER_MEMORY_POOL_SIZE as usize,
            REDACTED_GEYSER_SERVER_WORK_ORDERS,
        )
    }

    /// A server with a pool of `pool_size` bytes and room for `work_orders` orders per client.
    pub fn with_limits(address: &str, pool_size: usize, work_orders: usize) -> (server: Self)
        requires
            pool_size <= isize::MAX,
            work_orders <= REDACTED_GEYSER_SERVER_WORK_ORDERS,
        ensures
            server.wf(),
            server@ == (TcpView {
                host: address@,
                clients: Seq::new(REDACTED_GEYSER_MAX_CLIENTS as nat, |i: int| 0i32),
                client_count: 0,
                accepted: Seq::new(
                    REDACTED_GEYSER_MAX_CLIENTS as nat,
                    |i: int| Seq::<WorkOrder>::empty(),
                ),
                limits: Seq::new(
                    REDACTED_GEYSER_MAX_CLIENTS as nat,
                    |i: int| work_orders as nat,
                ),
                pool: PoolView {
                    memory: Seq::new(pool_size as nat, |i: int| 0u8),
                    next: 0,
                },
                programs: Set::empty(),
            }),
    {
        let memory_pool = RedactedMemoryPool::new(pool_size);
        let client_channels = order_channels(REDACTED_GEYSER_MAX_CLIENTS, work_orders);
        let clients: [i32; REDACTED_GEYSER_MAX_CLIENTS] = [0; REDACTED_GEYSER_MAX_CLIENTS];
        assert(clients@ =~= Seq::new(REDACTED_GEYSER_MAX_CLIENTS as nat, |i: int| 0i32));
        RedactedGeyserServer {
            listener_host: address.to_string(),
            listener_clients: clients,
            listener_client_count: 0,
            listener_clients_channels: client_channels,
            memory_pool,
            geyser_program_list: ProgramList::new(),
        }
    }

    /// Settles what an offer of a work order to the client in slot `client_index` came to. A client
    /// that did not take the order is falling behind: it is let go of, and its descriptor is
    /// handed back to be closed.
    pub fn settle_offer(&mut self, client_index: usize, accepted: bool) -> (closed: Option<i32>)
        requires
            old(self).wf(),
            client_index < REDACTED_GEYSER_MAX_CLIENTS,
            old(self)@.clients[client_index as int] != 0,
        ensures
            final(self).wf(),
            accepted ==> final(self)@ == old(self)@ && closed is None,
            !accepted ==> closed == Some(old(self)@.clients[client_index as int]),
            !accepted ==> final(self)@ == (TcpView {
                clients: old(self)@.clients.update(client_index as int, 0),
                ..old(self)@
            }),
    {
        if accepted {
            None
        } else {
            let client: i32 = self.listener_clients[client_index];
            self.listener_clients[client_index] = 0;
            Some(client)
        }
    }

    /// Offers a work order to every client. Returns the descriptors of the clients that were let go
    /// of, which are to be closed.
    pub fn send_request(&mut self, data: WorkOrder) -> (closed: Vec<i32>)
        requires
            old(self).wf(),
        ensures
            final(self).wf(),
            old(self)@.distributes(data, final(self)@, closed@),
    {
        let ghost before = self@;
        let mut closed: Vec<i32> = Vec::new();
        let mut i: usize = 0;
        while i < REDACTED_GEYSER_MAX_CLIENTS
            invariant
                i <= REDACTED_GEYSER_MAX_CLIENTS,
                before == old(self)@,
                before.wf(),
                self.wf(),
                self@.wf(),
                self@ == (TcpView {
                    clients: self@.clients,
                    accepted: self@.accepted,
                    ..before
                }),
                forall|j: int| 0 <= j < i ==> #[trigger] before.offered(data, self@, j),
                forall|j: int|
                    i <= j < REDACTED_GEYSER_MAX_CLIENTS ==> #[trigger] before.same_slot(self@, j),
                closed@ == dropped_clients(before.clients, self@.clients, i as nat),
            decreases REDACTED_GEYSER_MAX_CLIENTS - i,
        {
            let ghost current = self@;
            let client: i32 = self.listener_clients[i];
            if client != 0 {
                let accepted = try_send(&mut self.listener_clients_channels[i], data);
                proof {
                    assert(self@.limits =~= current.limits);
                    assert(self@.accepted =~= current.accepted.update(
                        i as int,
                        self@.accepted[i as int],
                    ));
                }
                match self.settle_offer(i, accepted) {
                    Some(fd) => {
                        closed.push(fd);
                    },
                    None => {},
                }
            }
            proof {
                assert forall|j: int|
                    i < j < REDACTED_GEYSER_MAX_CLIENTS implies #[trigger] before.same_slot(
                    self@,
                    j,
                ) by {
                    assert(before.same_slot(current, j));
                }
                assert(before.same_slot(current, i as int));
                lemma_dropped_prefix(before.clients, current.clients, self@.clients, i as nat);
                assert forall|j: int| 0 <= j < i + 1 implies #[trigger] before.offered(
                    data,
                    self@,
                    j,
                ) by {
                    if j < i {
                        assert(before.offered(data, current, j));
                        assert(self@.clients[j] == current.clients[j]);
                        assert(self@.accepted[j] == current.accepted[j]);
                    }
                }
            }
            i += 1;
        }
        closed
    }

    /// Whether there is a client, and updates of accounts of `owner` are wanted.
    pub fn wants(&self, owner: &[u8; 32]) -> (wanted: bool)
        ensures
            wanted == self@.wants(owner@),
    {
        if self.listener_client_count == 0 {
            return false;
        }
        self.geyser_program_list.is_empty() || self.geyser_program_list.contains(owner)
    }

    /// Tells the clients of an account update, if there is a client and the account's owner is
    /// among the chosen programs or none was chosen. `timestamp` is a reading of the clock, for
    /// packets that are to carry one. Returns the descriptors of the clients that were let go of,
    /// which are to be closed.
    pub fn send_account_update(
        &mut self,
        pubkey: &[u8],
        signature: Option<&[u8; 64]>,
        slot: u64,
        is_sandwich: bool,
        lamports: u64,
        data: &[u8],
        owner: &[u8; 32],
        executable: bool,
        rent_epoch: u64,
        write_version: u64,
        timestamp: Option<Timespec>,
    ) -> (closed: Vec<i32>)
        requires
            old(self).wf(),
            old(self)@.wants(owner@) ==> pubkey@.len() == 32,
            old(self)@.wants(owner@) ==> ({
                let size = tcp_size(
                    signature is Some,
                    data@.len() as int,
                    timestamp is Some,
                );
                &&& old(self)@.pool.can_alloc(size)
                &&& wire_length(size) >= REDACTED_GEYSER_PACKET_HEADER_SIZE
            }),
        ensures
            final(self).wf(),
            !old(self)@.wants(owner@) ==> final(self)@ == old(self)@ && closed@.len() == 0,
            old(self)@.wants(owner@) ==> old(self)@.publishes(
                tcp_frame(
                    fields_of(
                        pubkey@,
                        signature,
                        slot,
                        lamports,
                        data@,
                        owner@,
                        executable,
                        rent_epoch,
                        write_version,
                        is_sandwich,
                    ),
                    timestamp,
                ),
                final(self)@,
                closed@,
            ),
    {
        if !self.wants(owner) {
            return Vec::new();
        }
        let data_len: usize = data.len();
        let ghost before = self@;
        let ghost fields = fields_of(
            pubkey@,
            signature,
            slot,
            lamports,
            data@,
            owner@,
            executable,
            rent_epoch,
            write_version,
            is_sandwich,
        );
        proof {
            self.memory_pool.lemma_word_sized();
            assert(fields.wf());
            lemma_tcp_frame_len(fields, timestamp);
            lemma_can_alloc_is_bounded(before.pool, tcp_frame(fields, timestamp).len() as int);
        }
        let total_size = tcp_frame_size(signature.is_some(), data_len, timestamp.is_some());
        assert(tcp_frame(fields, timestamp).len() == total_size);
        let order = self.memory_pool.allocate(total_size);
        let ghost reserved = self.memory_pool@;
        let request_mem = self.memory_pool.bytes_mut(order);
        write_tcp_frame(
            request_mem,
            pubkey,
            signature,
            slot,
            lamports,
            data,
            owner,
            executable,
            rent_epoch,
            write_version,
            is_sandwich,
            timestamp,
        );
        assert(self@ == (TcpView {
            pool: reserved.with_region(order, tcp_frame(fields, timestamp)),
            ..before
        }));
        let closed = self.send_request(order);
        assert(before.pool.allocates(
            tcp_frame(fields, timestamp).len() as int,
            order,
            reserved,
        ));
        closed
    }

    /// Puts the programs that a configuration request names in the place of those chosen before.
    pub fn handle_set_program_config(&mut self, request_mem: &[u8])
        requires
            old(self).wf(),
            whole_keys(request_mem@.len() as int),
        ensures
            final(self).wf(),
            final(self)@ == (TcpView { programs: configured(request_mem@), ..old(self)@ }),
    {
        self.geyser_program_list.clear();
        let mut offset: usize = 0;
        while offset < request_mem.len() - 1
            invariant
                self.wf(),
                whole_keys(request_mem@.len() as int),
                offset % 32 == 0,
                offset <= request_mem@.len(),
                self@ == (TcpView {
                    programs: keys_in(request_mem@, offset as nat / 32),
                    ..old(self)@
                }),
            decreases request_mem@.len() - offset,
        {
            assert(offset + 32 <= request_mem@.len());
            let program = key_at(request_mem, offset);
            self.geyser_program_list.insert(program);
            offset += 32;
        }
        assert(offset as nat / 32 == request_mem@.len() / 32);
    }

    /// Handles a request of a client. Only a configuration request does anything: of account
    /// updates a client is told, it sends none.
    pub fn handle_request(
        &mut self,
        request_type: u8,
        request_mem: &[u8],
    ) -> (result: Result<(), RedactedGeyserError>)
        requires
            old(self).wf(),
            request_type == REDACTED_GEYSER_SET_PROGRAM_CONFIG ==> whole_keys(
                request_mem@.len() as int,
            ),
        ensures
            final(self).wf(),
            result is Ok,
            final(self)@ == old(self)@.after_request(request_type, request_mem@),
    {
        if request_type == REDACTED_GEYSER_SET_PROGRAM_CONFIG {
            self.handle_set_program_config(request_mem);
        }
        Ok(())
    }

    /// Reads the header of a request. If it starts with the start guard, the operation is known and
    /// the length allowed, a region is taken for the bytes that follow and returned with the
    /// operation; otherwise the client is to be disconnected.
    pub fn begin_request(&mut self, buf: &[u8; 6]) -> (request: Option<(u8, WorkOrder)>)
        requires
            old(self).wf(),
            header_accepted(buf@) ==> old(self)@.pool.can_alloc(announced_length(buf@)),
        ensures
            final(self).wf(),
            (request is Some) == header_accepted(buf@),
            request is None ==> final(self)@ == old(self)@,
            request matches Some((request_type, order)) ==> {
                &&& request_type == buf@[1]
                &&& old(self)@.pool.allocates(announced_length(buf@), order, final(self)@.pool)
                &&& final(self)@.pool.has(order)
                &&& final(self)@ == (TcpView { pool: final(self)@.pool, ..old(self)@ })
            },
    {
        match request_size(buf) {
            Some(size) => {
                let order = self.memory_pool.allocate(size);
                Some((buf[1], order))
            },
            None => None,
        }
    }

    /// Puts the bytes of a request into the region that was taken for them, and handles it if they
    /// end with the end guard. Otherwise the client is to be disconnected.
    pub fn finish_request(
        &mut self,
        request_type: u8,
        order: WorkOrder,
        request_mem: &[u8],
    ) -> (result: Result<(), RedactedGeyserError>)
        requires
            old(self).wf(),
            old(self)@.pool.has(order),
            request_mem@.len() == order.1,
            request_type == REDACTED_GEYSER_SET_PROGRAM_CONFIG && ends_with_guard(request_mem@)
                ==> whole_keys(order.1 as int),
        ensures
            final(self).wf(),
            (result is Ok) == ends_with_guard(request_mem@),
            result matches Err(error) ==> error == RedactedGeyserError::InvalidRequest,
            ({
                let read = TcpView {
                    pool: old(self)@.pool.with_region(order, request_mem@),
                    ..old(self)@
                };
                final(self)@ == if result is Ok {
                    read.after_request(request_type, request_mem@)
                } else {
                    read
                }
            }),
    {
        let region = self.memory_pool.bytes_mut(order);
        let _end = put_field(region, 0, request_mem);
        assert(with_field(old(self)@.pool.region(order), 0, request_mem@) =~= request_mem@);
        assert(self@ == (TcpView {
            pool: old(self)@.pool.with_region(order, request_mem@),
            ..old(self)@
        }));
        if !has_end_guard(request_mem) {
            return Err(RedactedGeyserError::InvalidRequest);
        }
        self.handle_request(request_type, request_mem)
    }

    /// Takes a connection in, in the first free slot, unless as many are served as there may be or
    /// no slot is free.
    pub fn add_client(&mut self, fd: i32) -> (client_index: Option<usize>)
        requires
            old(self).wf(),
        ensures
            final(self).wf(),
            match client_index {
                Some(i) => {
                    &&& old(self)@.next_slot() == Some(i as int)
                    &&& final(self)@ == old(self)@.with_client(i as int, fd)
                },
                None => old(self)@.next_slot() is None && final(self)@ == old(self)@,
            },
            client_index matches Some(i) ==> i < REDACTED_GEYSER_MAX_CLIENTS,
    {
        if self.listener_client_count >= REDACTED_GEYSER_MAX_CLIENTS {
            return None;
        }
        proof {
            self@.clients.index_of_first_ensures(0);
        }
        let mut i: usize = 0;
        while i < REDACTED_GEYSER_MAX_CLIENTS
            invariant
                i <= REDACTED_GEYSER_MAX_CLIENTS,
                self.wf(),
                self@ == old(self)@,
                self@.wf(),
                self@.client_count < REDACTED_GEYSER_MAX_CLIENTS,
                forall|j: int| 0 <= j < i ==> self@.clients[j] != 0,
                match self@.clients.index_of_first(0) {
                    Some(index) => {
                        &&& 0 <= index < REDACTED_GEYSER_MAX_CLIENTS
                        &&& self@.clients[index] == 0
                        &&& forall|j: int| 0 <= j < index ==> self@.clients[j] != 0
                    },
                    None => !self@.clients.contains(0),
                },
            decreases REDACTED_GEYSER_MAX_CLIENTS - i,
        {
            if self.listener_clients[i] == 0 {
                assert(self@.clients[i as int] == 0);
                self.listener_clients[i] = fd;
                self.listener_client_count = self.listener_client_count + 1;
                return Some(i);
            }
            i += 1;
        }
        None
    }

    /// Frees the slot of a connection that has ended.
    pub fn remove_client(&mut self, client_index: usize)
        requires
            old(self).wf(),
            client_index < REDACTED_GEYSER_MAX_CLIENTS,
        ensures
            final(self).wf(),
            final(self)@ == old(self)@.without_client(client_index as int),
    {
        self.listener_clients[client_index] = 0;
        self.listener_client_count = self.listener_client_count.wrapping_sub(1);
    }

    /// What the sender of slot `client_index` does next, after `event` in `state`.
    pub fn next_send(&self, client_index: usize, state: SendState, event: SendEvent) -> (next:
        SendState)
        requires
            self.wf(),
            client_index < REDACTED_GEYSER_MAX_CLIENTS,
            state.allows(event),
        ensures
            next == state.after(event, self@.clients[client_index as int]),
    {
        match event {
            SendEvent::ChannelClosed => SendState::Stopped,
            SendEvent::Failed => SendState::Stopped,
            SendEvent::WouldBlock => state,
            SendEvent::Order(order) => match state {
                SendState::AwaitOrder { client } => SendState::Sending {
                    client,
                    order,
                    remainder: order.1,
                },
                _ => SendState::Stopped,
            },
            SendEvent::Sent(sent) => match state {
                SendState::Sending { client, order, remainder } => {
                    if remainder - sent == 0 {
                        self.start_send(client_index)
                    } else {
                        SendState::Sending { client, order, remainder: remainder - sent }
                    }
                },
                _ => SendState::Stopped,
            },
        }
    }

    /// What the sender of slot `client_index` does first, and again after each work order.
    pub fn start_send(&self, client_index: usize) -> (state: SendState)
        requires
            self.wf(),
            client_index < REDACTED_GEYSER_MAX_CLIENTS,
        ensures
            state == idle_state(self@.clients[client_index as int]),
    {
        let client: i32 = self.listener_clients[client_index];
        if client == 0 {
            SendState::Stopped
        } else {
            SendState::AwaitOrder { client }
        }
    }

    /// Disconnects `client` after the sender of slot `client_index` failed to send to it: frees the
    /// slot, and returns the descriptor, which is to be closed. If the client has left the slot
    /// before, there is nothing to do.
    pub fn end_send(&mut self, client_index: usize, client: i32) -> (closed: Option<i32>)
        requires
            old(self).wf(),
            client_index < REDACTED_GEYSER_MAX_CLIENTS,
            client != 0,
        ensures
            final(self).wf(),
            final(self)@ == old(self)@.after_failed_send(client_index as int, client),
            closed == if old(self)@.clients[client_index as int] == client {
                Some(client)
            } else {
                None
            },
    {
        if self.listener_clients[client_index] == client {
            self.listener_clients[client_index] = 0;
            Some(client)
        } else {
            None
        }
    }

    /// The bytes of a work order that are still to be sent when `remainder` bytes are left of it.
    pub fn pending_bytes(&self, order: WorkOrder, remainder: usize) -> (bytes: &[u8])
        requires
            self@.pool.has(order),
            remainder <= order.1,
        ensures
            bytes@ == self@.pool.region(order).skip(order.1 - remainder),
    {
        let whole = self.memory_pool.bytes(order);
        let (_sent, rest) = whole.split_at(order.1 - remainder);
        assert(rest@ =~= self@.pool.region(order).skip(order.1 - remainder));
        rest
    }

    /// Lets go of every client. Returns their descriptors, which are to be closed.
    pub fn close_all(&mut self) -> (closed: Vec<i32>)
        requires
            old(self).wf(),
        ensures
            final(self).wf(),
            final(self)@ == (TcpView {
                clients: Seq::new(REDACTED_GEYSER_MAX_CLIENTS as nat, |i: int| 0i32),
                ..old(self)@
            }),
            closed@ == dropped_clients(
                old(self)@.clients,
                final(self)@.clients,
                REDACTED_GEYSER_MAX_CLIENTS as nat,
            ),
    {
        let ghost before = self@;
        let mut closed: Vec<i32> = Vec::new();
        let mut i: usize = 0;
        while i < REDACTED_GEYSER_MAX_CLIENTS
            invariant
                i <= REDACTED_GEYSER_MAX_CLIENTS,
                before == old(self)@,
                before.wf(),
                self.wf(),
                self@.wf(),
                self@ == (TcpView { clients: self@.clients, ..before }),
                forall|j: int| 0 <= j < i ==> self@.clients[j] == 0,
                forall|j: int|
                    i <= j < REDACTED_GEYSER_MAX_CLIENTS ==> self@.clients[j] == before.clients[j],
                closed@ == dropped_clients(before.clients, self@.clients, i as nat),
            decreases REDACTED_GEYSER_MAX_CLIENTS - i,
        {
            let ghost current = self@;
            if self.listener_clients[i] != 0 {
                closed.push(self.listener_clients[i]);
                self.listener_clients[i] = 0;
            }
            proof {
                lemma_dropped_prefix(before.clients, current.clients, self@.clients, i as nat);
            }
            i += 1;
        }
        assert(self@.clients =~= Seq::new(REDACTED_GEYSER_MAX_CLIENTS as nat, |i: int| 0i32));
        closed
    }

    /// The address to listen at.
    pub fn listener_host(&self) -> (host: &str)
        ensures
            host@ == self@.host,
    {
        self.listener_host.as_str()
    }

    /// How many connections are being served.
    pub fn client_count(&self) -> (count: usize)
        ensures
            count == self@.client_count,
    {
        self.listener_client_count
    }

    /// The descriptor in a slot, 0 where the slot is free.
    pub fn client(&self, client_index: usize) -> (fd: i32)
        requires
            client_index < REDACTED_GEYSER_MAX_CLIENTS,
        ensures
            fd == self@.clients[client_index as int],
    {
        self.listener_clients[client_index]
    }

    /// Whether one of the next `attempts` attempts at `size` bytes of the pool would find room.
    pub fn has_room(&self, size: usize, attempts: usize) -> (found: bool)
        requires
            self.wf(),
        ensures
            found == (self@.pool.memory.len() > 0 && exists|attempt: nat|
                attempt < attempts && #[trigger] self@.pool.fits(size as int, attempt)),
            found ==> self@.pool.can_alloc(size as int),
    {
        self.memory_pool.fits_within(size, attempts)
    }

    /// Whether a work order lies inside the pool.
    pub fn holds(&self, order: WorkOrder) -> (inside: bool)
        requires
            self.wf(),
        ensures
            inside == self@.pool.has(order),
    {
        let capacity = self.memory_pool.capacity();
        order.0 <= capacity && order.1 <= capacity - order.0
    }

    /// The bytes of a work order.
    pub fn order_bytes(&self, order: WorkOrder) -> (bytes: &[u8])
        requires
            self@.pool.has(order),
        ensures
            bytes@ == self@.pool.region(order),
    {
        self.memory_pool.bytes(order)
    }

    /// The end of a slot's queue at which its sender waits for work orders.
    pub fn work_orders(&self, client_index: usize) -> (orders: &Receiver<WorkOrder>)
        requires
            self.wf(),
            client_index < REDACTED_GEYSER_MAX_CLIENTS,
        ensures
            *orders == self.queue_end(client_index as int),
    {
        &self.listener_clients_channels[client_index].1
    }

    /// The receiving end of a slot's queue.
    pub closed spec fn queue_end(&self, client_index: int) -> Receiver<WorkOrder> {
        self.listener_clients_channels@[client_index].1
    }
}

/// How many bytes follow the header of a request, if the server takes the request on.
pub fn request_size(buf: &[u8; 6]) -> (size: Option<usize>)
    ensures
        (size is Some) == header_accepted(buf@),
        size matches Some(size) ==> size == announced_length(buf@),
{
    if buf[0] != REDACTED_GEYSER_MAGIC_GUARD_START {
        return None;
    }
    let request_type: u8 = buf[1];
    if request_type != REDACTED_GEYSER_SET_PROGRAM_CONFIG && request_type
        != REDACTED_GEYSER_NOTIFY_ACCOUNT_UPDATE {
        return None;
    }
    assert(buf@.subrange(2, 6) =~= seq![buf@[2], buf@[3], buf@[4], buf@[5]]);
    let request_length: u32 = u32_from_le(buf[2], buf[3], buf[4], buf[5]);
    if request_length > REDACTED_GEYSER_PACKET_MAX_SIZE {
        return None;
    }
    Some(request_length as usize)
}

/// Whether the bytes behind a request's header end with the end guard.
pub fn has_end_guard(request_mem: &[u8]) -> (guarded: bool)
    ensures
        guarded == ends_with_guard(request_mem@),
{
    let len: usize = request_mem.len();
    len > 0 && request_mem[len - 1] == REDACTED_GEYSER_MAGIC_GUARD_END
}

/// Whether the bytes behind a configuration request's header are whole keys and the end guard, or
/// whole keys to the end.
pub fn is_whole_config(request_mem: &[u8]) -> (whole: bool)
    ensures
        whole == whole_keys(request_mem@.len() as int),
{
    request_mem.len() >= 1 && request_mem.len() % 32 <= 1
}

/// A connection that is taken in and ends leaves everything as it was.
pub proof fn lemma_add_then_remove(server: TcpView, i: int, fd: i32)
    requires
        server.wf(),
        server.next_slot() == Some(i),
    ensures
        server.with_client(i, fd).without_client(i) == server,
{
    server.clients.index_of_first_ensures(0);
    assert(server.with_client(i, fd).without_client(i).clients =~= server.clients);
}

/// Whatever happens, no more connections are served than there are slots. A connection ends only
/// after it was taken in.
pub proof fn lemma_client_limit(
    server: TcpView,
    i: int,
    fd: i32,
    request_type: u8,
    request_mem: Seq<u8>,
    order: WorkOrder,
    after: TcpView,
    closed: Seq<i32>,
)
    requires
        server.client_count <= REDACTED_GEYSER_MAX_CLIENTS,
    ensures
        server.next_slot() is Some ==> server.with_client(i, fd).client_count
            <= REDACTED_GEYSER_MAX_CLIENTS,
        server.client_count > 0 ==> server.without_client(i).client_count
            <= REDACTED_GEYSER_MAX_CLIENTS,
        server.after_request(request_type, request_mem).client_count
            <= REDACTED_GEYSER_MAX_CLIENTS,
        server.distributes(order, after, closed) ==> after.client_count
            <= REDACTED_GEYSER_MAX_CLIENTS,
{
}

/// A client's queue never loses or reorders what it has accepted, and at most one order is added by
/// one offer.
pub proof fn lemma_queues_only_grow(
    server: TcpView,
    order: WorkOrder,
    after: TcpView,
    closed: Seq<i32>,
    i: int,
)
    requires
        server.wf(),
        server.distributes(order, after, closed),
        0 <= i < REDACTED_GEYSER_MAX_CLIENTS,
    ensures
        server.accepted[i].is_prefix_of(after.accepted[i]),
        after.accepted[i].len() <= server.accepted[i].len() + 1,
{
    assert(server.offered(order, after, i));
    assert(server.accepted[i].is_prefix_of(server.accepted[i].push(order)));
    assert(server.accepted[i].is_prefix_of(server.accepted[i]));
}

/// A client whose queue has had fewer orders than it has room for is never let go of, and gets the
/// order.
pub proof fn lemma_client_with_room_is_served(
    server: TcpView,
    order: WorkOrder,
    after: TcpView,
    closed: Seq<i32>,
    i: int,
)
    requires
        server.wf(),
        server.distributes(order, after, closed),
        0 <= i < REDACTED_GEYSER_MAX_CLIENTS,
        server.clients[i] != 0,
        server.accepted[i].len() < server.limits[i],
    ensures
        after.clients[i] == server.clients[i],
        after.accepted[i] == server.accepted[i].push(order),
{
    assert(server.offered(order, after, i));
}

/// Every client that is still there after an update was published has the update's packet as the
/// last one in its queue.
pub proof fn lemma_published_frame_is_queued(
    server: TcpView,
    frame: Seq<u8>,
    after: TcpView,
    closed: Seq<i32>,
    i: int,
)
    requires
        server.wf(),
        server.publishes(frame, after, closed),
        0 <= i < REDACTED_GEYSER_MAX_CLIENTS,
        after.clients[i] != 0,
    ensures
        after.accepted[i].len() == server.accepted[i].len() + 1,
        after.pool.has(after.accepted[i].last()),
        after.pool.region(after.accepted[i].last()) == frame,
{
    let (order, reserved) = choose|order: WorkOrder, reserved: PoolView|
        {
            &&& #[trigger] server.pool.allocates(frame.len() as int, order, reserved)
            &&& (TcpView { pool: reserved.with_region(order, frame), ..server }).distributes(
                order,
                after,
                closed,
            )
        };
    let built = TcpView { pool: reserved.with_region(order, frame), ..server };
    assert(built.offered(order, after, i));
    assert(after.accepted[i].last() == order);
    lemma_read_gives_what_was_written(reserved, order, frame);
}

/// What is queued for the clients always lies inside the pool, whose size never changes.
pub proof fn lemma_queued_orders_are_inside(
    server: TcpView,
    frame: Seq<u8>,
    after: TcpView,
    closed: Seq<i32>,
)
    requires
        server.wf(),
        server.orders_inside(),
        server.publishes(frame, after, closed),
    ensures
        after.orders_inside(),
        after.pool.memory.len() == server.pool.memory.len(),
{
    let (order, reserved) = choose|order: WorkOrder, reserved: PoolView|
        {
            &&& #[trigger] server.pool.allocates(frame.len() as int, order, reserved)
            &&& (TcpView { pool: reserved.with_region(order, frame), ..server }).distributes(
                order,
                after,
                closed,
            )
        };
    let built = TcpView { pool: reserved.with_region(order, frame), ..server };
    lemma_allocated_region_is_inside(server.pool, order, reserved);
    lemma_write_keeps_size(reserved, order, frame);
    assert forall|i: int, k: int|
        0 <= i < after.accepted.len() && 0 <= k < after.accepted[i].len() implies after.pool.has(
        #[trigger] after.accepted[i][k],
    ) by {
        assert(built.offered(order, after, i));
        if k < server.accepted[i].len() {
            assert(after.accepted[i][k] == server.accepted[i][k]);
        } else {
            assert(after.accepted[i][k] == order);
        }
    }
}

/// After a configuration request that names `keys`, an update is told if there is a client and the
/// account's owner is among the keys, or there are none.
pub proof fn lemma_configuration_decides(
    server: TcpView,
    keys: Seq<Seq<u8>>,
    tail: Seq<u8>,
    owner: Seq<u8>,
)
    requires
        are_keys(keys),
        tail.len() < 32,
    ensures
        server.after_request(REDACTED_GEYSER_SET_PROGRAM_CONFIG, joined(keys) + tail).wants(owner)
            == (server.client_count != 0 && (keys.len() == 0 || keys.contains(owner))),
{
    lemma_configuration_selects(keys, tail, owner);
}

/// A sender never hands more bytes to the socket than the work order has, and the bytes that the
/// socket takes and those that are left add up to what was left before.
pub proof fn lemma_sent_bytes_add_up(state: SendState, event: SendEvent, slot: i32)
    requires
        state.wf(),
        state.allows(event),
    ensures
        state.after(event, slot).wf(),
        event matches SendEvent::Sent(sent) ==> (match state.after(event, slot) {
            SendState::Sending { client, order, remainder } => {
                &&& client == state->Sending_client
                &&& order == state->order
                &&& remainder + sent == state->remainder
            },
            _ => sent == state->remainder,
        }),
{
}

/// Events come in order while one work order is sent, each with what the sender's slot holds then:
/// the sender is sending at each of them.
pub open spec fn sends_one_order(state: SendState, events: Seq<(SendEvent, i32)>) -> bool
    decreases events.len(),
{
    events.len() > 0 ==> {
        &&& state is Sending
        &&& state.allows(events[0].0)
        &&& sends_one_order(state.after(events[0].0, events[0].1), events.skip(1))
    }
}

/// The state of a sender after events came.
pub open spec fn state_after(state: SendState, events: Seq<(SendEvent, i32)>) -> SendState
    decreases events.len(),
{
    if events.len() == 0 {
        state
    } else {
        state_after(state.after(events[0].0, events[0].1), events.skip(1))
    }
}

/// The bytes that the socket takes while events come, one take behind the other, where `region` are
/// the bytes of the work order: each time it is handed the bytes that are left, and takes the first
/// of them.
pub open spec fn bytes_taken(
    state: SendState,
    events: Seq<(SendEvent, i32)>,
    region: Seq<u8>,
) -> Seq<u8>
    decreases events.len(),
{
    if events.len() == 0 {
        Seq::empty()
    } else {
        let taken = match events[0].0 {
            SendEvent::Sent(sent) => region.skip(region.len() - state->remainder).take(
                sent as int,
            ),
            _ => Seq::empty(),
        };
        taken + bytes_taken(
            state.after(events[0].0, events[0].1),
            events.skip(1),
            region,
        )
    }
}

/// The client receives the packet: however the socket cuts a work order up, the bytes that it takes
/// over all sends, joined, are the order's region when the last send has completed the order, and
/// the first bytes of the region, as many as are not left, before that. Where a send fails, they
/// are the first bytes of the region.
pub proof fn lemma_client_receives_the_packet(
    client: i32,
    order: WorkOrder,
    events: Seq<(SendEvent, i32)>,
    region: Seq<u8>,
)
    requires
        region.len() == order.1,
        sends_one_order(SendState::Sending { client, order, remainder: order.1 }, events),
    ensures
        ({
            let start = SendState::Sending { client, order, remainder: order.1 };
            let taken = bytes_taken(start, events, region);
            &&& taken.is_prefix_of(region)
            &&& events.len() > 0 && events.last().0 is Sent && !(state_after(start, events)
                is Sending) ==> taken == region
            &&& state_after(start, events) matches SendState::Sending { remainder, .. } ==> taken
                == region.take(region.len() - remainder)
        }),
{
    let start = SendState::Sending { client, order, remainder: order.1 };
    lemma_taken_so_far(client, order, order.1, events, region);
    assert(region.take(0) + bytes_taken(start, events, region) =~= bytes_taken(
        start,
        events,
        region,
    ));
}

/// What the socket had taken before, and what it takes while events come, are the first bytes of
/// the region.
proof fn lemma_taken_so_far(
    client: i32,
    order: WorkOrder,
    remainder: usize,
    events: Seq<(SendEvent, i32)>,
    region: Seq<u8>,
)
    requires
        region.len() == order.1,
        remainder <= order.1,
        sends_one_order(SendState::Sending { client, order, remainder }, events),
    ensures
        ({
            let state = SendState::Sending { client, order, remainder };
            let taken = region.take(region.len() - remainder) + bytes_taken(state, events, region);
            &&& taken.is_prefix_of(region)
            &&& events.len() > 0 && events.last().0 is Sent && !(state_after(state, events)
                is Sending) ==> taken == region
            &&& state_after(state, events) matches SendState::Sending { remainder, .. } ==> taken
                == region.take(region.len() - remainder)
        }),
    decreases events.len(),
{
    reveal_with_fuel(sends_one_order, 2);
    reveal_with_fuel(state_after, 2);
    let state = SendState::Sending { client, order, remainder };
    let before = region.take(region.len() - remainder);
    assert(before.is_prefix_of(region));
    assert(region.is_prefix_of(region));
    if events.len() == 0 {
        assert(before + bytes_taken(state, events, region) =~= before);
    } else {
        let (event, slot) = events[0];
        let next = state.after(event, slot);
        let rest = events.skip(1);
        let later = bytes_taken(next, rest, region);
        if rest.len() > 0 {
            assert(rest.last() == events.last());
        } else {
            assert(later =~= Seq::<u8>::empty());
        }
        match event {
            SendEvent::Sent(sent) => {
                let taken = region.skip(region.len() - remainder).take(sent as int);
                let after = region.take(region.len() - remainder + sent);
                assert(before + taken =~= after);
                assert(before + (taken + later) =~= after + later);
                if sent == remainder {
                    assert(after + later =~= region);
                } else {
                    lemma_taken_so_far(client, order, (remainder - sent) as usize, rest, region);
                }
            },
            SendEvent::WouldBlock => {
                assert(before + (Seq::<u8>::empty() + later) =~= before + later);
                lemma_taken_so_far(client, order, remainder, rest, region);
            },
            _ => {
                assert(before + (Seq::<u8>::empty() + later) =~= before);
            },
        }
    }
}

/// A client to which a send failed is gone from the slot, its sender has ended, and no other slot
/// is touched.
pub proof fn lemma_failed_send_disconnects(
    server: TcpView,
    i: int,
    client: i32,
    order: WorkOrder,
    remainder: usize,
)
    requires
        server.wf(),
        0 <= i < REDACTED_GEYSER_MAX_CLIENTS,
        client != 0,
    ensures
        (SendState::Sending { client, order, remainder }).after(
            SendEvent::Failed,
            server.clients[i],
        ) is Stopped,
        server.after_failed_send(i, client).clients[i] != client,
        server.clients[i] == client ==> server.after_failed_send(i, client).clients[i] == 0,
        server.clients[i] != client ==> server.after_failed_send(i, client) == server,
        server.after_failed_send(i, client) == (TcpView {
            clients: server.after_failed_send(i, client).clients,
            ..server
        }),
        forall|j: int|
            0 <= j < REDACTED_GEYSER_MAX_CLIENTS && j != i ==> server.after_failed_send(
                i,
                client,
            ).clients[j] == server.clients[j],
{
}

/// A request whose header and guards were filled in for its own length is taken on, if it names a
/// known operation.
pub proof fn lemma_guarded_request_is_accepted(request_type: u8, buffer: Seq<u8>)
    requires
        request_type == REDACTED_GEYSER_SET_PROGRAM_CONFIG || request_type
            == REDACTED_GEYSER_NOTIFY_ACCOUNT_UPDATE,
        REDACTED_GEYSER_PACKET_HEADER_SIZE < buffer.len() <= REDACTED_GEYSER_PACKET_HEADER_SIZE
            + REDACTED_GEYSER_PACKET_MAX_SIZE,
    ensures
        ({
            let packet = guarded(request_type, buffer.len() as u32, buffer);
            let buf = packet.take(REDACTED_GEYSER_PACKET_HEADER_SIZE as int);
            let request_mem = packet.skip(REDACTED_GEYSER_PACKET_HEADER_SIZE as int);
            &&& header_accepted(buf)
            &&& announced_length(buf) == request_mem.len()
            &&& ends_with_guard(request_mem)
        }),
{
    let packet = guarded(request_type, buffer.len() as u32, buffer);
    let buf = packet.take(REDACTED_GEYSER_PACKET_HEADER_SIZE as int);
    let length = (buffer.len() - REDACTED_GEYSER_PACKET_HEADER_SIZE) as u32;
    lemma_le32_round_trip(length);
    assert(buf.subrange(2, 6) =~= le32(length));
}

/// What an offer of a work order does to a slot: a free slot stays free and gets nothing; a client
/// stays and gets the order behind its earlier ones, or, only if its queue has had as many orders
/// as it has room for, is gone and gets nothing. Nothing else changes.
pub proof fn lemma_offer_reaches_slot(
    server: TcpView,
    order: WorkOrder,
    after: TcpView,
    closed: Seq<i32>,
    i: int,
)
    requires
        server.distributes(order, after, closed),
        0 <= i < REDACTED_GEYSER_MAX_CLIENTS,
    ensures
        server.clients[i] == 0 ==> after.clients[i] == 0 && after.accepted[i] == server.accepted[i],
        !(server.clients[i] == 0) ==> {
            ||| after.clients[i] == server.clients[i] && after.accepted[i]
                == server.accepted[i].push(order)
            ||| after.clients[i] == 0 && after.accepted[i] == server.accepted[i]
                && server.accepted[i].len() >= server.limits[i]
        },
        after.limits == server.limits,
        after.pool == server.pool,
        after.programs == server.programs,
        after.host == server.host,
        after.client_count == server.client_count,
        closed == dropped_clients(server.clients, after.clients, 8),
{
    assert(server.offered(order, after, i));
}

/// What publishing a packet does: one region of the pool, the next that is free, holds the packet
/// afterwards, and every other byte of the pool stays; each client that stays gets that very region
/// behind its earlier ones; a client is let go of only if its queue has had as many orders as it
/// has room for; and the programs stay.
pub proof fn lemma_publishing(server: TcpView, frame: Seq<u8>, after: TcpView, closed: Seq<i32>)
    requires
        server.wf(),
        server.publishes(frame, after, closed),
    ensures
        exists|order: WorkOrder|
            {
                &&& #[trigger] server.pool.allocates(
                    frame.len() as int,
                    order,
                    PoolView { memory: server.pool.memory, next: after.pool.next },
                )
                &&& order.1 == frame.len()
                &&& order.0 + order.1 <= server.pool.memory.len()
                &&& after.pool.memory.len() == server.pool.memory.len()
                &&& forall|j: int|
                    0 <= j < server.pool.memory.len() ==> #[trigger] after.pool.memory[j]
                        == if order.0 <= j < order.0 + order.1 {
                        frame[j - order.0]
                    } else {
                        server.pool.memory[j]
                    }
                &&& forall|i: int|
                    0 <= i < REDACTED_GEYSER_MAX_CLIENTS && !(after.clients[i] == 0) ==> {
                        &&& after.clients[i] == server.clients[i]
                        &&& #[trigger] after.accepted[i] == server.accepted[i].push(order)
                    }
            },
        forall|i: int|
            0 <= i < REDACTED_GEYSER_MAX_CLIENTS && (after.clients[i] == 0) ==> {
                &&& #[trigger] after.accepted[i] == server.accepted[i]
                &&& server.clients[i] == 0 || server.accepted[i].len() >= server.limits[i]
            },
        after.programs == server.programs,
        after.limits == server.limits,
        after.host == server.host,
        after.client_count == server.client_count,
        closed == dropped_clients(server.clients, after.clients, 8),
{
    let (order, reserved) = choose|order: WorkOrder, reserved: PoolView|
        {
            &&& #[trigger] server.pool.allocates(frame.len() as int, order, reserved)
            &&& (TcpView { pool: reserved.with_region(order, frame), ..server }).distributes(
                order,
                after, closed,
            )
        };
    let built = TcpView { pool: reserved.with_region(order, frame), ..server };
    lemma_allocated_region_is_inside(server.pool, order, reserved);
    lemma_written_bytes(reserved, order, frame);
    assert(reserved =~= PoolView { memory: server.pool.memory, next: after.pool.next });
    assert forall|i: int| 0 <= i < REDACTED_GEYSER_MAX_CLIENTS implies #[trigger] built.offered(
        order,
        after,
        i,
    ) by {}
}

/// An update is told exactly if somebody is counted as being served, and the account's owner was
/// chosen or nobody was.
pub proof fn lemma_wanted_updates(server: TcpView, owner: Seq<u8>)
    ensures
        server.wants(owner) <==> server.client_count != 0 && (server.programs.contains(owner)
            || forall|key: Seq<u8>| !server.programs.contains(key)),
{
    lemma_selects(server.programs, owner);
}

/// A configuration request puts the keys that stand in it at multiples of 32 bytes in the place of
/// those chosen before, and changes nothing else. Other requests change nothing.
pub proof fn lemma_request_effect(
    server: TcpView,
    request_type: u8,
    request_mem: Seq<u8>,
    key: Seq<u8>,
)
    ensures
        ({
            let after = server.after_request(request_type, request_mem);
            &&& after == TcpView { programs: after.programs, ..server }
            &&& request_type != REDACTED_GEYSER_SET_PROGRAM_CONFIG ==> after == server
            &&& request_type == REDACTED_GEYSER_SET_PROGRAM_CONFIG ==> (after.programs.contains(key)
                <==> exists|offset: int|
                {
                    &&& 0 <= offset
                    &&& offset % 32 == 0
                    &&& offset + 32 <= request_mem.len()
                    &&& (#[trigger] request_mem.skip(offset)).take(32) == key
                })
        }),
{
    lemma_named_keys(request_mem, key);
}

/// A connection that is taken into a slot is the one in the slot, and every other slot holds what
/// it held before. One connection more is counted, and nothing else changes.
pub proof fn lemma_connection_is_in_its_slot(server: TcpView, i: int, fd: i32)
    requires
        0 <= i < server.clients.len(),
        server.client_count < usize::MAX,
    ensures
        ({
            let after = server.with_client(i, fd);
            &&& after.clients.len() == server.clients.len()
            &&& after.clients[i] == fd
            &&& forall|j: int|
                0 <= j < server.clients.len() && j != i ==> #[trigger] after.clients[j]
                    == server.clients[j]
            &&& after.client_count == server.client_count + 1
            &&& after == TcpView {
                clients: after.clients,
                client_count: after.client_count,
                ..server
            }
        }),
{
}

/// A connection that ends leaves its slot free, and every other slot holds what it held before. One
/// connection less is counted, and nothing else changes.
pub proof fn lemma_ended_connection_frees_its_slot(server: TcpView, i: int)
    requires
        0 <= i < server.clients.len(),
    ensures
        ({
            let after = server.without_client(i);
            &&& after.clients.len() == server.clients.len()
            &&& after.clients[i] == 0
            &&& forall|j: int|
                0 <= j < server.clients.len() && j != i ==> #[trigger] after.clients[j]
                    == server.clients[j]
            &&& server.client_count > 0 ==> after.client_count == server.client_count - 1
            &&& server.client_count == 0 ==> after.client_count == usize::MAX
            &&& after == TcpView {
                clients: after.clients,
                client_count: after.client_count,
                ..server
            }
        }),
{
}

/// The next connection is given the first slot that is free, and is refused only if enough
/// connections are served or no slot is free.
pub proof fn lemma_next_slot_is_free(server: TcpView)
    requires
        server.wf(),
    ensures
        match server.next_slot() {
            Some(i) => {
                &&& server.client_count < REDACTED_GEYSER_MAX_CLIENTS
                &&& 0 <= i < REDACTED_GEYSER_MAX_CLIENTS
                &&& server.clients[i] == 0
                &&& forall|j: int| 0 <= j < i ==> server.clients[j] != 0
            },
            None => {
                ||| server.client_count >= REDACTED_GEYSER_MAX_CLIENTS
                ||| forall|j: int|
                    0 <= j < REDACTED_GEYSER_MAX_CLIENTS ==> #[trigger] server.clients[j] != 0
            },
        },
{
    server.clients.index_of_first_ensures(0);
    assert forall|j: int| 0 <= j < server.clients.len() implies server.clients.contains(
        #[trigger] server.clients[j],
    ) by {}
}

/// The descriptors that are handed back to be closed are those of the slots that held a client
/// before and hold none after, slot by slot.
pub proof fn lemma_closed_descriptors(before: Seq<i32>, after: Seq<i32>)
    ensures
        ({
            let left = |i: int|
                if before[i] != 0 && after[i] == 0 {
                    seq![before[i]]
                } else {
                    Seq::<i32>::empty()
                };
            dropped_clients(before, after, 8) == left(0) + left(1) + left(2) + left(3) + left(4)
                + left(5) + left(6) + left(7)
        }),
{
    reveal_with_fuel(dropped_clients, 9);
    let left = |i: int|
        if before[i] != 0 && after[i] == 0 {
            seq![before[i]]
        } else {
            Seq::<i32>::empty()
        };
    assert forall|n: nat| n < 8 implies dropped_clients(before, after, n + 1)
        == #[trigger] dropped_clients(before, after, n) + left(n as int) by {
        assert(dropped_clients(before, after, n + 1) =~= dropped_clients(before, after, n) + left(
            n as int,
        ));
    }
    assert(dropped_clients(before, after, 0) + left(0) =~= left(0));
    assert(dropped_clients(before, after, 1) == left(0));
    assert(dropped_clients(before, after, 2) == left(0) + left(1));
    assert(dropped_clients(before, after, 3) == left(0) + left(1) + left(2));
    assert(dropped_clients(before, after, 4) == left(0) + left(1) + left(2) + left(3));
    assert(dropped_clients(before, after, 5) == left(0) + left(1) + left(2) + left(3) + left(4));
    assert(dropped_clients(before, after, 6) == left(0) + left(1) + left(2) + left(3) + left(4)
        + left(5));
    assert(dropped_clients(before, after, 7) == left(0) + left(1) + left(2) + left(3) + left(4)
        + left(5) + left(6));
}

/// A request is taken on exactly if its header starts with the start guard, the operation is a
/// configuration or an update, and the four bytes of the length, the least significant first, are
/// at most the largest payload.
pub proof fn lemma_header_is_read(buf: Seq<u8>)
    requires
        buf.len() == 6,
    ensures
        announced_length(buf) == buf[2] + 256 * buf[3] + 65536 * buf[4] + 16777216 * buf[5],
        header_accepted(buf) <==> {
            &&& buf[0] == REDACTED_GEYSER_MAGIC_GUARD_START
            &&& buf[1] == REDACTED_GEYSER_SET_PROGRAM_CONFIG || buf[1]
                == REDACTED_GEYSER_NOTIFY_ACCOUNT_UPDATE
            &&& buf[2] + 256 * buf[3] + 65536 * buf[4] + 16777216 * buf[5]
                <= REDACTED_GEYSER_PACKET_MAX_SIZE
        },
{
}

/// The bytes behind a request's header end with the end guard exactly if their last byte is the
/// guard. Keys with up to one byte behind them are whole keys, unless there is no byte at all; keys
/// with more behind them are not.
pub proof fn lemma_request_ends(request_mem: Seq<u8>, keys: int, extra: int)
    requires
        0 <= keys,
        0 <= extra < 32,
    ensures
        ends_with_guard(request_mem) <==> request_mem.len() > 0 && request_mem[request_mem.len()
            - 1] == REDACTED_GEYSER_MAGIC_GUARD_END,
        whole_keys(32 * keys + extra) <==> extra == 1 || extra == 0 && keys > 0,
{
}

/// What a sender does after each event. A waiting sender that takes a work order has all of it to
/// send, to the client that it waited for. A socket that takes some bytes leaves the others to be
/// sent; one that takes all lets the sender wait for the next order of the client that is in the
/// slot by then, if there is one.
pub proof fn lemma_sender_steps(
    client: i32,
    order: WorkOrder,
    remainder: usize,
    sent: usize,
    slot: i32,
)
    requires
        sent <= remainder,
    ensures
        ({
            let waiting = SendState::AwaitOrder { client };
            let sending = SendState::Sending { client, order, remainder };
            &&& waiting.allows(SendEvent::Order(order))
            &&& waiting.after(SendEvent::Order(order), slot) == SendState::Sending {
                client,
                order,
                remainder: order.1,
            }
            &&& waiting.allows(SendEvent::ChannelClosed)
            &&& waiting.after(SendEvent::ChannelClosed, slot) == SendState::Stopped
            &&& sending.allows(SendEvent::WouldBlock)
            &&& sending.after(SendEvent::WouldBlock, slot) == sending
            &&& sending.allows(SendEvent::Failed)
            &&& sending.after(SendEvent::Failed, slot) == SendState::Stopped
            &&& sending.allows(SendEvent::Sent(sent))
            &&& sent < remainder ==> sending.after(SendEvent::Sent(sent), slot)
                == SendState::Sending { client, order, remainder: (remainder - sent) as usize }
            &&& sent == remainder && slot != 0 ==> sending.after(SendEvent::Sent(sent), slot)
                == SendState::AwaitOrder { client: slot }
            &&& sent == remainder && slot == 0 ==> sending.after(SendEvent::Sent(sent), slot)
                == SendState::Stopped
        }),
{
}

/// A sender starts to wait for the client in its slot, or ends if there is none.
pub proof fn lemma_sender_starts(slot: i32)
    ensures
        slot != 0 ==> idle_state(slot) == (SendState::AwaitOrder { client: slot }),
        slot == 0 ==> idle_state(slot) == SendState::Stopped,
{
}

/// Over all events from the one on at which a waiting sender takes a work order, the bytes that the
/// socket takes until the sender waits again are the whole region of the order.
pub proof fn lemma_taken_order_is_received_whole(
    client: i32,
    order: WorkOrder,
    slot: i32,
    events: Seq<(SendEvent, i32)>,
    region: Seq<u8>,
)
    requires
        region.len() == order.1,
        sends_one_order(
            (SendState::AwaitOrder { client }).after(SendEvent::Order(order), slot),
            events,
        ),
    ensures
        ({
            let start = (SendState::AwaitOrder { client }).after(SendEvent::Order(order), slot);
            &&& start is Sending
            &&& state_after(start, events) is AwaitOrder ==> bytes_taken(start, events, region)
                == region
        }),
{
    let start = (SendState::AwaitOrder { client }).after(SendEvent::Order(order), slot);
    lemma_client_receives_the_packet(client, order, events, region);
    if state_after(start, events) is AwaitOrder {
        lemma_last_event_was_a_send(start, events);
    }
}

proof fn lemma_last_event_was_a_send(state: SendState, events: Seq<(SendEvent, i32)>)
    requires
        state is Sending,
        sends_one_order(state, events),
        state_after(state, events) is AwaitOrder,
    ensures
        events.len() > 0,
        events.last().0 is Sent,
    decreases events.len(),
{
    reveal_with_fuel(sends_one_order, 2);
    reveal_with_fuel(state_after, 2);
    if events.len() > 0 {
        let next = state.after(events[0].0, events[0].1);
        let rest = events.skip(1);
        if rest.len() > 0 {
            assert(rest.last() == events.last());
            lemma_last_event_was_a_send(next, rest);
        }
    }
}

/// A sender takes a new work order only when the socket has taken all bytes of the one before, and
/// only for a client that is still there.
pub proof fn lemma_one_order_at_a_time(state: SendState, event: SendEvent, slot: i32)
    requires
        state.allows(event),
        state.after(event, slot) is AwaitOrder,
    ensures
        slot != 0,
        state.after(event, slot)->AwaitOrder_client == slot,
        event == SendEvent::Sent(state->remainder),
{
}

/// Which clients were let go of among the first slots depends on these slots alone.
proof fn lemma_dropped_prefix(before: Seq<i32>, a: Seq<i32>, b: Seq<i32>, count: nat)
    requires
        count <= before.len(),
        a.len() == before.len(),
        b.len() == before.len(),
        forall|j: int| 0 <= j < count ==> a[j] == b[j],
    ensures
        dropped_clients(before, a, count) == dropped_clients(before, b, count),
    decreases count,
{
    if count > 0 {
        lemma_dropped_prefix(before, a, b, (count - 1) as nat);
    }
}

} // verus!
