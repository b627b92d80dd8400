//! The queue of work orders in front of each client: a bounded channel.

use crate::redacted_memory_pool::WorkOrder;
use crossbeam_channel::{Receiver, Sender};
use vstd::prelude::*;

verus! {

/// The end that work orders are put into, as an opaque type.
#[verifier::external_type_specification]
#[verifier::external_body]
#[verifier::reject_recursive_types(T)]
pub struct ExSender<T>(crossbeam_channel::Sender<T>);

/// The end that work orders are taken from, as an opaque type.
#[verifier::external_type_specification]
#[verifier::external_body]
#[verifier::reject_recursive_types(T)]
pub struct ExReceiver<T>(crossbeam_channel::Receiver<T>);

/// The two ends of one channel.
pub type OrderChannel = (Sender<WorkOrder>, Receiver<WorkOrder>);

/// The work orders that the channel has accepted since it was made, the oldest first. Those that
/// were taken out since are among them.
pub uninterp spec fn accepted_orders(channel: OrderChannel) -> Seq<WorkOrder>;

/// How many work orders the channel has room for, as long as both of its ends are there and
/// nothing else puts orders into it.
pub uninterp spec fn order_limit(channel: OrderChannel) -> nat;

/// `crossbeam_channel::bounded`: a channel that holds at most `limit` orders at a time and that
/// has accepted none. The limit keeps clear of the sizes for which `bounded` cannot lay its buffer
/// out, where it panics.
#[verifier::external_body]
pub(crate) fn order_channel(limit: usize) -> (channel: OrderChannel)
    requires
        limit <= 1_000_000,
    ensures
        accepted_orders(channel) == Seq::<WorkOrder>::empty(),
        order_limit(channel) == limit,
{
    crossbeam_channel::bounded(limit)
}

/// `crossbeam_channel::Sender::try_send`: the channel accepts the order, or refuses it and stays as
/// it was. It refuses only when it is full or when its other end is gone. That end is held here,
/// so a channel that has accepted fewer orders than it has room for cannot refuse. Whether a fuller
/// one does depends on how many orders were taken out, which is not said.
#[verifier::external_body]
pub(crate) fn try_send(channel: &mut OrderChannel, order: WorkOrder) -> (accepted: bool)
    ensures
        order_limit(*final(channel)) == order_limit(*old(channel)),
        accepted ==> accepted_orders(*final(channel)) == accepted_orders(*old(channel)).push(order),
        !accepted ==> accepted_orders(*final(channel)) == accepted_orders(*old(channel)),
        accepted_orders(*old(channel)).len() < order_limit(*old(channel)) ==> accepted,
{
    channel.0.try_send(order).is_ok()
}

/// The orders that each of a row of channels has accepted.
pub open spec fn accepted_by_each(channels: Seq<OrderChannel>) -> Seq<Seq<WorkOrder>> {
    Seq::new(channels.len(), |i: int| accepted_orders(channels[i]))
}

/// How many orders each of a row of channels has room for.
pub open spec fn limits_of_each(channels: Seq<OrderChannel>) -> Seq<nat> {
    Seq::new(channels.len(), |i: int| order_limit(channels[i]))
}

/// What is said of a row of channels is said of each of them.
pub proof fn lemma_each_channel(channels: Seq<OrderChannel>, i: int)
    requires
        0 <= i < channels.len(),
    ensures
        accepted_by_each(channels).len() == channels.len(),
        accepted_by_each(channels)[i] == accepted_orders(channels[i]),
        limits_of_each(channels).len() == channels.len(),
        limits_of_each(channels)[i] == order_limit(channels[i]),
{
}

/// A row of `count` channels, each with room for `limit` orders.
pub(crate) fn order_channels(count: usize, limit: usize) -> (channels: Vec<OrderChannel>)
    requires
        limit <= 1_000_000,
    ensures
        channels@.len() == count,
        accepted_by_each(channels@) == Seq::new(count as nat, |i: int| Seq::<WorkOrder>::empty()),
        limits_of_each(channels@) == Seq::new(count as nat, |i: int| limit as nat),
{
    let mut channels: Vec<OrderChannel> = Vec::with_capacity(count);
    let mut i: usize = 0;
    while i < count
        invariant
            i <= count,
            limit <= 1_000_000,
            channels@.len() == i,
            forall|j: int|
                0 <= j < i ==> accepted_orders(#[trigger] channels@[j])
                    == Seq::<WorkOrder>::empty() && order_limit(channels@[j]) == limit,
        decreases count - i,
    {
        channels.push(order_channel(limit));
        i += 1;
    }
    assert(accepted_by_each(channels@) =~= Seq::new(
        count as nat,
        |i: int| Seq::<WorkOrder>::empty(),
    ));
    assert(limits_of_each(channels@) =~= Seq::new(count as nat, |i: int| limit as nat));
    channels
}

} // verus!
