//! A pool of memory that is handed out round and round: a region stays untouched until the pool
//! has gone all the way round, or until the counter that runs round it wraps.

use vstd::prelude::*;

verus! {

/// A region of the pool: where it starts, and how many bytes it has.
pub type WorkOrder = (usize, usize);

/// The memory that packets are built in.
#[derive(Debug)]
pub struct RedactedMemoryPool {
    pool: Vec<u8>,
    pool_size: usize,
    next: usize,
}

/// What a pool holds, and the count of bytes from which the next region is sought.
#[verifier::ext_equal]
pub struct PoolView {
    pub memory: Seq<u8>,
    pub next: int,
}

/// The counter `size` bytes further on. It wraps at the end of the machine's word.
pub open spec fn advance(counter: int, size: int) -> int {
    if counter + size > usize::MAX {
        counter + size - (usize::MAX + 1)
    } else {
        counter + size
    }
}

/// The counter after `tries` attempts at a region of `size` bytes.
pub open spec fn counter_after(counter: int, size: int, tries: nat) -> int
    decreases tries,
{
    if tries == 0 {
        counter
    } else {
        advance(counter_after(counter, size, (tries - 1) as nat), size)
    }
}

impl PoolView {
    /// Where attempt number `attempt` at a region of `size` bytes would start.
    pub open spec fn offset_at(self, size: int, attempt: nat) -> int {
        counter_after(self.next, size, attempt) % (self.memory.len() as int)
    }

    /// The region of attempt number `attempt` does not run over the end of the pool.
    pub open spec fn fits(self, size: int, attempt: nat) -> bool {
        self.offset_at(size, attempt) + size <= self.memory.len()
    }

    /// Attempt number `attempt` is the first that fits.
    pub open spec fn first_fit(self, size: int, attempt: nat) -> bool {
        &&& self.fits(size, attempt)
        &&& forall|earlier: nat| earlier < attempt ==> !#[trigger] self.fits(size, earlier)
    }

    /// Some attempt at a region of `size` bytes fits. Up to half the pool, rounded up, one of the
    /// first two does.
    pub open spec fn can_alloc(self, size: int) -> bool {
        &&& self.memory.len() > 0
        &&& 0 <= 2 * size <= self.memory.len() + 1 || exists|attempt: nat|
            #[trigger] self.fits(size, attempt)
    }

    /// `order` is the region of the first attempt that fits, and `after` is the pool behind it.
    pub open spec fn allocates(self, size: int, order: WorkOrder, after: PoolView) -> bool {
        &&& order.1 == size
        &&& after.memory == self.memory
        &&& exists|attempt: nat|
            {
                &&& #[trigger] self.first_fit(size, attempt)
                &&& order.0 == self.offset_at(size, attempt)
                &&& after.next == counter_after(self.next, size, attempt + 1)
            }
    }

    /// The region lies inside the pool.
    pub open spec fn has(self, order: WorkOrder) -> bool {
        order.0 + order.1 <= self.memory.len()
    }

    /// The bytes of a region.
    pub open spec fn region(self, order: WorkOrder) -> Seq<u8> {
        self.memory.subrange(order.0 as int, order.0 + order.1)
    }

    /// The pool with other bytes in a region.
    pub open spec fn with_region(self, order: WorkOrder, bytes: Seq<u8>) -> PoolView {
        PoolView {
            memory: self.memory.take(order.0 as int) + bytes + self.memory.skip(
                order.0 + order.1,
            ),
            next: self.next,
        }
    }
}

impl View for RedactedMemoryPool {
    type V = PoolView;

    closed spec fn view(&self) -> PoolView {
        PoolView { memory: self.pool@, next: self.next as int }
    }
}

/// A region of at most half the pool, rounded up, is found at the first or at the second attempt.
pub proof fn lemma_half_the_pool_fits(pool: PoolView, size: int)
    requires
        pool.memory.len() > 0,
        pool.memory.len() <= usize::MAX,
        0 <= pool.next <= usize::MAX,
        0 <= 2 * size <= pool.memory.len() + 1,
    ensures
        pool.fits(size, 0) || pool.fits(size, 1),
{
    let total = pool.memory.len() as int;
    reveal_with_fuel(counter_after, 3);
    if !pool.fits(size, 0) {
        if pool.next + size <= usize::MAX {
            let offset = pool.next % total;
            assert((pool.next + size) % total == offset + size - total) by (nonlinear_arith)
                requires
                    total > 0,
                    offset == pool.next % total,
                    offset + size > total,
                    0 <= 2 * size <= total + 1,
                    0 <= offset < total,
            ;
        } else {
            vstd::arithmetic::div_mod::lemma_small_mod(
                (pool.next + size - (usize::MAX + 1)) as nat,
                total as nat,
            );
        }
    }
}

/// No region is larger than the pool.
pub proof fn lemma_can_alloc_is_bounded(pool: PoolView, size: int)
    requires
        pool.can_alloc(size),
    ensures
        size <= pool.memory.len(),
{
    if !(0 <= 2 * size <= pool.memory.len() + 1) {
        let attempt = choose|attempt: nat| #[trigger] pool.fits(size, attempt);
        assert(pool.offset_at(size, attempt) >= 0);
    }
}

/// Of two regions that both fit, where the second was sought behind the first and ends before the
/// pool has gone once round from the first, neither touches the other.
pub proof fn lemma_no_overlap_within_a_round(
    total: int,
    first: int,
    first_size: int,
    second: int,
    second_size: int,
)
    requires
        total > 0,
        0 <= first,
        0 <= first_size,
        0 <= second_size,
        first % total + first_size <= total,
        second % total + second_size <= total,
        first + first_size <= second,
        second + second_size <= first + total,
    ensures
        first % total + first_size <= second % total || second % total + second_size <= first
            % total,
{
    let (a, b) = (first % total, second % total);
    let (q, r) = (first / total, second / total);
    vstd::arithmetic::div_mod::lemma_fundamental_div_mod(first, total);
    vstd::arithmetic::div_mod::lemma_fundamental_div_mod(second, total);
    if q == r {
    } else {
        assert(r == q + 1) by (nonlinear_arith)
            requires
                first == total * q + a,
                second == total * r + b,
                0 <= a < total,
                0 <= b < total,
                first <= second <= first + total,
                q != r,
                total > 0,
        ;
        assert(total * r == total * q + total) by (nonlinear_arith)
            requires
                r == q + 1,
        ;
    }
}

/// A region is not touched by one that is taken later, from the pool as it is by then, as long as
/// the counter has gone no further than once round the pool from the start of the first region. The
/// later region takes at most half the pool, rounded up, and the counter has not wrapped: where it
/// wraps, a region can be touched sooner.
pub proof fn lemma_regions_disjoint_for_a_round(
    pool: PoolView,
    first: WorkOrder,
    behind_first: PoolView,
    later: PoolView,
    second: WorkOrder,
    behind_second: PoolView,
)
    requires
        0 < pool.memory.len() <= usize::MAX,
        later.memory.len() == pool.memory.len(),
        0 <= pool.next <= usize::MAX,
        pool.allocates(first.1 as int, first, behind_first),
        first.1 <= behind_first.next <= later.next,
        later.next + 2 * second.1 <= usize::MAX,
        2 * second.1 <= later.memory.len() + 1,
        later.allocates(second.1 as int, second, behind_second),
        behind_second.next <= behind_first.next - first.1 + pool.memory.len(),
    ensures
        first.0 + first.1 <= second.0 || second.0 + second.1 <= first.0,
{
    let (s, t) = (first.1 as int, second.1 as int);
    let i = choose|attempt: nat|
        {
            &&& #[trigger] pool.first_fit(s, attempt)
            &&& first.0 == pool.offset_at(s, attempt)
            &&& behind_first.next == counter_after(pool.next, s, attempt + 1)
        };
    let c1 = counter_after(pool.next, s, i);
    lemma_counter_in_range(pool.next, s, i);
    assert(behind_first.next == advance(c1, s));
    assert(behind_first.next == c1 + s);
    let j = choose|attempt: nat|
        {
            &&& #[trigger] later.first_fit(t, attempt)
            &&& second.0 == later.offset_at(t, attempt)
            &&& behind_second.next == counter_after(later.next, t, attempt + 1)
        };
    reveal_with_fuel(counter_after, 3);
    lemma_half_the_pool_fits(later, t);
    assert(j <= 1);
    let c2 = counter_after(later.next, t, j);
    lemma_no_overlap_within_a_round(pool.memory.len() as int, c1, s, c2, t);
}

proof fn lemma_counter_in_range(counter: int, size: int, tries: nat)
    requires
        0 <= counter <= usize::MAX,
        0 <= size <= usize::MAX,
    ensures
        0 <= counter_after(counter, size, tries) <= usize::MAX,
    decreases tries,
{
    if tries > 0 {
        lemma_counter_in_range(counter, size, (tries - 1) as nat);
    }
}

/// The bytes of a region stay as they are when a later region is taken and written, under the
/// conditions of [`lemma_regions_disjoint_for_a_round`].
pub proof fn lemma_bytes_stay_for_a_round(
    pool: PoolView,
    first: WorkOrder,
    behind_first: PoolView,
    later: PoolView,
    second: WorkOrder,
    behind_second: PoolView,
    bytes: Seq<u8>,
)
    requires
        0 < pool.memory.len() <= usize::MAX,
        later.memory.len() == pool.memory.len(),
        0 <= pool.next <= usize::MAX,
        pool.allocates(first.1 as int, first, behind_first),
        first.1 <= behind_first.next <= later.next,
        later.next + 2 * second.1 <= usize::MAX,
        2 * second.1 <= later.memory.len() + 1,
        later.allocates(second.1 as int, second, behind_second),
        behind_second.next <= behind_first.next - first.1 + pool.memory.len(),
        bytes.len() == second.1,
    ensures
        behind_second.with_region(second, bytes).region(first) == later.region(first),
{
    lemma_regions_disjoint_for_a_round(pool, first, behind_first, later, second, behind_second);
    lemma_allocated_region_is_inside(pool, first, behind_first);
    lemma_allocated_region_is_inside(later, second, behind_second);
    lemma_write_keeps_other_regions(behind_second, second, bytes, first);
}

/// A region that was taken lies inside the pool.
pub proof fn lemma_allocated_region_is_inside(pool: PoolView, order: WorkOrder, after: PoolView)
    requires
        pool.allocates(order.1 as int, order, after),
    ensures
        pool.has(order),
        after.has(order),
{
}

/// What is written to a region keeps the pool's size and its counter.
pub proof fn lemma_write_keeps_size(pool: PoolView, order: WorkOrder, bytes: Seq<u8>)
    requires
        pool.has(order),
        bytes.len() == order.1,
    ensures
        pool.with_region(order, bytes).memory.len() == pool.memory.len(),
        pool.with_region(order, bytes).next == pool.next,
{
}

/// Where attempt number `k` at `size` bytes starts, in a pool of `total` bytes: the counter has
/// been moved on by `size` for each attempt before, modulo the machine's word.
pub open spec fn start_of(next: int, size: int, total: int, k: nat) -> int {
    ((next + k * size) % (usize::MAX + 1)) % total
}

/// Each attempt moves the counter on by exactly the bytes that were asked for, modulo the machine's
/// word.
pub proof fn lemma_counter_moves_by_size(counter: int, size: int, tries: nat)
    requires
        0 <= counter <= usize::MAX,
        0 <= size <= usize::MAX,
    ensures
        counter_after(counter, size, tries) == (counter + tries * size) % (usize::MAX + 1),
    decreases tries,
{
    let word = usize::MAX + 1;
    if tries == 0 {
        assert(tries * size == 0) by (nonlinear_arith)
            requires
                tries == 0,
        ;
        vstd::arithmetic::div_mod::lemma_small_mod(counter as nat, word as nat);
    } else {
        let fewer = (tries - 1) as nat;
        lemma_counter_moves_by_size(counter, size, fewer);
        lemma_counter_in_range(counter, size, fewer);
        let c = counter_after(counter, size, fewer);
        assert(counter + tries * size == (counter + fewer * size) + size) by (nonlinear_arith)
            requires
                fewer == tries - 1,
        ;
        vstd::arithmetic::div_mod::lemma_add_mod_noop(counter + fewer * size, size, word);
        vstd::arithmetic::div_mod::lemma_add_mod_noop(c, size, word);
        vstd::arithmetic::div_mod::lemma_mod_twice(counter + fewer * size, word);
        if c + size > usize::MAX {
            vstd::arithmetic::div_mod::lemma_mod_add_multiples_vanish(c + size - word, word);
            vstd::arithmetic::div_mod::lemma_small_mod((c + size - word) as nat, word as nat);
        } else {
            vstd::arithmetic::div_mod::lemma_small_mod((c + size) as nat, word as nat);
        }
    }
}

/// A region can be taken exactly if some attempt at it ends inside the pool.
pub proof fn lemma_can_alloc_iff_an_attempt_fits(pool: PoolView, size: int)
    requires
        pool.memory.len() <= usize::MAX,
        0 <= pool.next <= usize::MAX,
        0 <= size <= usize::MAX,
    ensures
        pool.can_alloc(size) <==> pool.memory.len() > 0 && exists|k: nat|
            #[trigger] start_of(pool.next, size, pool.memory.len() as int, k) + size
                <= pool.memory.len(),
{
    let total = pool.memory.len() as int;
    if pool.can_alloc(size) {
        let k = if pool.fits(size, 0) {
            0
        } else if pool.fits(size, 1) {
            1
        } else {
            choose|attempt: nat| #[trigger] pool.fits(size, attempt)
        };
        if 0 <= 2 * size <= total + 1 {
            lemma_half_the_pool_fits(pool, size);
        }
        assert(pool.fits(size, k));
        lemma_counter_moves_by_size(pool.next, size, k);
        assert(start_of(pool.next, size, total, k) + size <= total);
    }
    if total > 0 && exists|k: nat| #[trigger] start_of(pool.next, size, total, k) + size <= total {
        let k = choose|k: nat| #[trigger] start_of(pool.next, size, total, k) + size <= total;
        lemma_counter_moves_by_size(pool.next, size, k);
        assert(pool.fits(size, k));
    }
}

/// A region that is taken has the size that was asked for and starts where the first attempt that
/// ends inside the pool starts; the counter stands one attempt further, and no byte has changed.
pub proof fn lemma_region_is_the_first_that_fits(
    pool: PoolView,
    size: int,
    order: WorkOrder,
    after: PoolView,
)
    requires
        0 < pool.memory.len() <= usize::MAX,
        0 <= pool.next <= usize::MAX,
        0 <= size <= usize::MAX,
        pool.allocates(size, order, after),
    ensures
        order.1 == size,
        after.memory == pool.memory,
        exists|k: nat|
            {
                &&& order.0 == #[trigger] start_of(pool.next, size, pool.memory.len() as int, k)
                &&& order.0 + size <= pool.memory.len()
                &&& after.next == (pool.next + (k + 1) * size) % (usize::MAX + 1)
                &&& forall|earlier: nat|
                    earlier < k ==> #[trigger] start_of(
                        pool.next,
                        size,
                        pool.memory.len() as int,
                        earlier,
                    ) + size > pool.memory.len()
            },
{
    let total = pool.memory.len() as int;
    let k = choose|attempt: nat|
        {
            &&& #[trigger] pool.first_fit(size, attempt)
            &&& order.0 == pool.offset_at(size, attempt)
            &&& after.next == counter_after(pool.next, size, attempt + 1)
        };
    lemma_counter_moves_by_size(pool.next, size, k);
    lemma_counter_moves_by_size(pool.next, size, k + 1);
    assert(order.0 == start_of(pool.next, size, total, k));
    assert forall|earlier: nat| earlier < k implies #[trigger] start_of(
        pool.next,
        size,
        total,
        earlier,
    ) + size > total by {
        lemma_counter_moves_by_size(pool.next, size, earlier);
        assert(!pool.fits(size, earlier));
    }
}

/// A region of at most half the pool, rounded up, starts right at the counter, or, where it would
/// run over the end there, one region further on.
pub proof fn lemma_regions_follow_each_other(
    pool: PoolView,
    size: int,
    order: WorkOrder,
    after: PoolView,
)
    requires
        0 < pool.memory.len() <= usize::MAX,
        0 <= pool.next,
        0 <= 2 * size <= pool.memory.len() + 1,
        pool.next + 2 * size <= usize::MAX,
        pool.allocates(size, order, after),
    ensures
        ({
            let total = pool.memory.len() as int;
            if pool.next % total + size <= total {
                order.0 == pool.next % total && after.next == pool.next + size
            } else {
                order.0 == (pool.next + size) % total && after.next == pool.next + 2 * size
            }
        }),
{
    let k = choose|attempt: nat|
        {
            &&& #[trigger] pool.first_fit(size, attempt)
            &&& order.0 == pool.offset_at(size, attempt)
            &&& after.next == counter_after(pool.next, size, attempt + 1)
        };
    reveal_with_fuel(counter_after, 3);
    lemma_half_the_pool_fits(pool, size);
    assert(k <= 1);
    assert(k == 0 <==> pool.fits(size, 0));
}

/// A region lies inside the pool if its end does, and its bytes are those of the pool from its
/// start on.
pub proof fn lemma_region_bytes(pool: PoolView, order: WorkOrder)
    ensures
        pool.has(order) <==> order.0 + order.1 <= pool.memory.len(),
        pool.has(order) ==> pool.region(order).len() == order.1,
        pool.has(order) ==> forall|j: int|
            0 <= j < order.1 ==> pool.region(order)[j] == pool.memory[order.0 + j],
{
}

/// What is written to a region stands in the pool from the region's start on, and every other byte
/// of the pool stays.
pub proof fn lemma_written_bytes(pool: PoolView, order: WorkOrder, bytes: Seq<u8>)
    requires
        order.0 + order.1 <= pool.memory.len(),
        bytes.len() == order.1,
    ensures
        ({
            let after = pool.with_region(order, bytes);
            &&& after.next == pool.next
            &&& after.memory.len() == pool.memory.len()
            &&& forall|j: int|
                0 <= j < pool.memory.len() ==> #[trigger] after.memory[j] == if order.0 <= j
                    < order.0 + order.1 {
                    bytes[j - order.0]
                } else {
                    pool.memory[j]
                }
        }),
{
}

/// What is written to one region leaves a region that does not overlap it as it was.
pub proof fn lemma_write_keeps_other_regions(
    pool: PoolView,
    written: WorkOrder,
    bytes: Seq<u8>,
    other: WorkOrder,
)
    requires
        pool.has(written),
        pool.has(other),
        bytes.len() == written.1,
        written.0 + written.1 <= other.0 || other.0 + other.1 <= written.0,
    ensures
        pool.with_region(written, bytes).region(other) == pool.region(other),
{
    assert(pool.with_region(written, bytes).region(other) =~= pool.region(other));
}

/// What is written to a region is what is read from it.
pub proof fn lemma_read_gives_what_was_written(pool: PoolView, order: WorkOrder, bytes: Seq<u8>)
    requires
        pool.has(order),
        bytes.len() == order.1,
    ensures
        pool.with_region(order, bytes).region(order) == bytes,
{
    assert(pool.with_region(order, bytes).region(order) =~= bytes);
}

impl RedactedMemoryPool {
    /// The pool owns as many bytes as it was made with.
    pub closed spec fn wf(&self) -> bool {
        self.pool@.len() == self.pool_size
    }

    /// A pool's size and its counter fit into a machine word.
    pub proof fn lemma_word_sized(&self)
        requires
            self.wf(),
        ensures
            self@.memory.len() <= usize::MAX,
            0 <= self@.next <= usize::MAX,
    {
    }

    /// A pool of `pool_size` bytes.
    pub fn new(pool_size: usize) -> (pool: Self)
        requires
            pool_size <= isize::MAX,
        ensures
            pool.wf(),
            pool@.memory == Seq::new(pool_size as nat, |i: int| 0u8),
            pool@.next == 0,
    {
        let pool: Vec<u8> = vec![0u8; pool_size];
        assert(pool@ =~= Seq::new(pool_size as nat, |i: int| 0u8));
        RedactedMemoryPool { pool, pool_size, next: 0 }
    }

    /// Takes the next region of `size` bytes. A region that would run over the end of the pool is
    /// passed over, and the next one tried.
    pub fn allocate(&mut self, size: usize) -> (order: WorkOrder)
        requires
            old(self).wf(),
            old(self)@.can_alloc(size as int),
        ensures
            final(self).wf(),
            final(self)@.has(order),
            old(self)@.allocates(size as int, order, final(self)@),
    {
        let ghost before = self@;
        let ghost last: nat = choose|attempt: nat| #[trigger] before.fits(size as int, attempt);
        proof {
            if 2 * size <= before.memory.len() + 1 {
                lemma_half_the_pool_fits(before, size as int);
            }
            assert(before.fits(size as int, last));
        }
        let ghost mut tries: nat = 0;
        loop
            invariant
                self.wf(),
                before.memory.len() > 0,
                self@.memory == before.memory,
                self.next == counter_after(before.next, size as int, tries),
                tries <= last,
                before.fits(size as int, last),
                forall|earlier: nat|
                    earlier < tries ==> !#[trigger] before.fits(size as int, earlier),
                before == old(self)@,
            decreases last - tries,
        {
            let current: usize = self.next;
            self.next = self.next.wrapping_add(size);
            let offset: usize = current % self.pool_size;
            assert(offset == before.offset_at(size as int, tries));
            assert(self.next == counter_after(before.next, size as int, tries + 1));
            if size <= self.pool_size - offset {
                assert(before.first_fit(size as int, tries));
                return (offset, size);
            }
            assert(!before.fits(size as int, tries));
            proof {
                tries = tries + 1;
            }
        }
    }

    /// Whether one of the next `attempts` attempts at a region of `size` bytes would fit.
    pub fn fits_within(&self, size: usize, attempts: usize) -> (found: bool)
        requires
            self.wf(),
        ensures
            found == (self@.memory.len() > 0 && exists|attempt: nat|
                attempt < attempts && #[trigger] self@.fits(size as int, attempt)),
            found ==> self@.can_alloc(size as int),
    {
        if self.pool_size == 0 {
            return false;
        }
        let mut counter: usize = self.next;
        let mut i: usize = 0;
        while i < attempts
            invariant
                self.wf(),
                self@.memory.len() > 0,
                i <= attempts,
                counter == counter_after(self@.next, size as int, i as nat),
                forall|earlier: nat| earlier < i ==> !#[trigger] self@.fits(size as int, earlier),
            decreases attempts - i,
        {
            let offset: usize = counter % self.pool_size;
            assert(offset == self@.offset_at(size as int, i as nat));
            if size <= self.pool_size - offset {
                assert(self@.fits(size as int, i as nat));
                return true;
            }
            assert(!self@.fits(size as int, i as nat));
            counter = counter.wrapping_add(size);
            i += 1;
        }
        false
    }

    /// How many bytes the pool has.
    pub fn capacity(&self) -> (bytes: usize)
        requires
            self.wf(),
        ensures
            bytes == self@.memory.len(),
    {
        self.pool_size
    }

    /// The bytes of a region.
    pub fn bytes(&self, order: WorkOrder) -> (bytes: &[u8])
        requires
            self@.has(order),
        ensures
            bytes@ == self@.region(order),
    {
        let whole: &[u8] = self.pool.as_slice();
        let (_front, rest) = whole.split_at(order.0);
        let (bytes, _back) = rest.split_at(order.1);
        bytes
    }

    /// The bytes of a region, to be written.
    pub fn bytes_mut(&mut self, order: WorkOrder) -> (bytes: &mut [u8])
        requires
            old(self).wf(),
            old(self)@.has(order),
        ensures
            bytes@ == old(self)@.region(order),
            final(bytes)@.len() == order.1 ==> {
                &&& final(self).wf()
                &&& final(self)@ == old(self)@.with_region(order, final(bytes)@)
            },
    {
        let whole: &mut [u8] = self.pool.as_mut_slice();
        let (_front, rest) = whole.split_at_mut(order.0);
        let (bytes, _back) = rest.split_at_mut(order.1);
        bytes
    }
}

} // verus!
