//! The programs whose accounts the clients want to hear of.

use vstd::prelude::*;

verus! {

/// A set of programs, each named by its 32-byte key.
#[derive(Debug)]
pub struct ProgramList {
    programs: Vec<[u8; 32]>,
}

/// The keys that lie one behind the other in the first `32 * count` bytes of `payload`.
pub open spec fn keys_in(payload: Seq<u8>, count: nat) -> Set<Seq<u8>>
    decreases count,
{
    if count == 0 {
        Set::empty()
    } else {
        keys_in(payload, (count - 1) as nat).insert(
            payload.subrange(32 * (count - 1), 32 * count as int),
        )
    }
}

/// The keys that a configuration request names. Bytes that are too few for a key, such as the end
/// guard, count for nothing.
pub open spec fn configured(payload: Seq<u8>) -> Set<Seq<u8>> {
    keys_in(payload, payload.len() / 32)
}

/// An update of an account is wanted if no program was chosen, or the account's owner was.
pub open spec fn selects(programs: Set<Seq<u8>>, owner: Seq<u8>) -> bool {
    programs == Set::<Seq<u8>>::empty() || programs.contains(owner)
}

/// Keys, one behind the other.
pub open spec fn joined(keys: Seq<Seq<u8>>) -> Seq<u8>
    decreases keys.len(),
{
    if keys.len() == 0 {
        Seq::empty()
    } else {
        joined(keys.drop_last()) + keys.last()
    }
}

/// All keys have 32 bytes.
pub open spec fn are_keys(keys: Seq<Seq<u8>>) -> bool {
    forall|i: int| 0 <= i < keys.len() ==> (#[trigger] keys[i]).len() == 32
}

proof fn lemma_joined_len(keys: Seq<Seq<u8>>)
    requires
        are_keys(keys),
    ensures
        joined(keys).len() == 32 * keys.len(),
    decreases keys.len(),
{
    if keys.len() > 0 {
        lemma_joined_len(keys.drop_last());
    }
}

/// The keys in a payload do not depend on what follows them.
proof fn lemma_keys_in_prefix(a: Seq<u8>, b: Seq<u8>, count: nat)
    requires
        32 * count <= a.len(),
        32 * count <= b.len(),
        a.take(32 * count as int) == b.take(32 * count as int),
    ensures
        keys_in(a, count) == keys_in(b, count),
    decreases count,
{
    if count > 0 {
        let fewer = (count - 1) as nat;
        assert(a.take(32 * fewer as int) =~= a.take(32 * count as int).take(32 * fewer as int));
        assert(b.take(32 * fewer as int) =~= b.take(32 * count as int).take(32 * fewer as int));
        lemma_keys_in_prefix(a, b, fewer);
        assert(a.subrange(32 * (count - 1), 32 * count as int) =~= a.take(
            32 * count as int,
        ).subrange(32 * (count - 1), 32 * count as int));
        assert(b.subrange(32 * (count - 1), 32 * count as int) =~= b.take(
            32 * count as int,
        ).subrange(32 * (count - 1), 32 * count as int));
    }
}

/// A configuration request names the keys that were put into it, whichever fewer than 32 bytes
/// follow them.
pub proof fn lemma_configured(keys: Seq<Seq<u8>>, tail: Seq<u8>)
    requires
        are_keys(keys),
        tail.len() < 32,
    ensures
        configured(joined(keys) + tail) == keys.to_set(),
    decreases keys.len(),
{
    let payload = joined(keys) + tail;
    lemma_joined_len(keys);
    assert(payload.len() / 32 == keys.len());
    if keys.len() == 0 {
        assert(keys.to_set() =~= Set::<Seq<u8>>::empty());
    } else {
        let fewer = keys.drop_last();
        let shorter = joined(fewer) + Seq::<u8>::empty();
        lemma_joined_len(fewer);
        lemma_configured(fewer, Seq::empty());
        assert(payload.take(32 * fewer.len() as int) =~= shorter.take(32 * fewer.len() as int));
        lemma_keys_in_prefix(payload, shorter, fewer.len());
        assert(payload.subrange(32 * (keys.len() - 1), 32 * keys.len() as int) =~= keys.last());
        assert forall|key: Seq<u8>|
            keys.to_set().contains(key) == fewer.to_set().insert(keys.last()).contains(key) by {
            if keys.contains(key) && key != keys.last() {
                let i = choose|i: int| 0 <= i < keys.len() && keys[i] == key;
                assert(fewer[i] == key);
            }
            if fewer.contains(key) {
                let i = choose|i: int| 0 <= i < fewer.len() && fewer[i] == key;
                assert(keys[i] == key);
            }
            assert(keys[keys.len() - 1] == keys.last());
        }
        assert(keys.to_set() =~= fewer.to_set().insert(keys.last()));
    }
}

/// Keys that are joined are read back one by one.
pub proof fn lemma_joined_keys(keys: Seq<Seq<u8>>, i: int)
    requires
        are_keys(keys),
        0 <= i < keys.len(),
    ensures
        joined(keys).len() == 32 * keys.len(),
        joined(keys).subrange(32 * i, 32 * i + 32) == keys[i],
    decreases keys.len(),
{
    lemma_joined_len(keys);
    lemma_joined_len(keys.drop_last());
    if i < keys.len() - 1 {
        lemma_joined_keys(keys.drop_last(), i);
        assert(joined(keys).subrange(32 * i, 32 * i + 32) =~= joined(keys.drop_last()).subrange(
            32 * i,
            32 * i + 32,
        ));
    } else {
        assert(joined(keys).subrange(32 * i, 32 * i + 32) =~= keys[i]);
    }
}

/// A payload names a key exactly if the key's bytes stand in it at a multiple of 32.
pub proof fn lemma_named_keys(payload: Seq<u8>, key: Seq<u8>)
    ensures
        configured(payload).contains(key) <==> exists|offset: int|
            {
                &&& 0 <= offset
                &&& offset % 32 == 0
                &&& offset + 32 <= payload.len()
                &&& (#[trigger] payload.skip(offset)).take(32) == key
            },
{
    lemma_named_keys_below(payload, (payload.len() / 32) as nat, key);
}

proof fn lemma_named_keys_below(payload: Seq<u8>, count: nat, key: Seq<u8>)
    requires
        32 * count <= payload.len(),
    ensures
        keys_in(payload, count).contains(key) <==> exists|offset: int|
            {
                &&& 0 <= offset
                &&& offset % 32 == 0
                &&& offset + 32 <= 32 * count
                &&& (#[trigger] payload.skip(offset)).take(32) == key
            },
    decreases count,
{
    if count > 0 {
        let last = 32 * (count - 1);
        lemma_named_keys_below(payload, (count - 1) as nat, key);
        assert(payload.skip(last).take(32) =~= payload.subrange(last, 32 * count as int));
        if keys_in(payload, (count - 1) as nat).contains(key) {
            let offset = choose|offset: int|
                {
                    &&& 0 <= offset
                    &&& offset % 32 == 0
                    &&& offset + 32 <= 32 * (count - 1)
                    &&& (#[trigger] payload.skip(offset)).take(32) == key
                };
            assert(payload.skip(offset).take(32) == key);
        }
        if exists|offset: int|
            {
                &&& 0 <= offset
                &&& offset % 32 == 0
                &&& offset + 32 <= 32 * count
                &&& (#[trigger] payload.skip(offset)).take(32) == key
            } {
            let offset = choose|offset: int|
                {
                    &&& 0 <= offset
                    &&& offset % 32 == 0
                    &&& offset + 32 <= 32 * count
                    &&& (#[trigger] payload.skip(offset)).take(32) == key
                };
            assert(offset == last || offset + 32 <= 32 * (count - 1));
        }
    }
}

/// Updates of an owner's accounts are wanted exactly if the owner was chosen, or nobody was.
pub proof fn lemma_selects(programs: Set<Seq<u8>>, owner: Seq<u8>)
    ensures
        selects(programs, owner) <==> programs.contains(owner) || forall|key: Seq<u8>|
            !programs.contains(key),
{
    if forall|key: Seq<u8>| !programs.contains(key) {
        assert(programs =~= Set::<Seq<u8>>::empty());
    }
}

/// After a configuration request the updates of an account are wanted if the account's owner is
/// among the keys of the request, or the request named none.
pub proof fn lemma_configuration_selects(keys: Seq<Seq<u8>>, tail: Seq<u8>, owner: Seq<u8>)
    requires
        are_keys(keys),
        tail.len() < 32,
    ensures
        selects(configured(joined(keys) + tail), owner) == (keys.len() == 0 || keys.contains(
            owner,
        )),
{
    lemma_configured(keys, tail);
    if keys.len() > 0 {
        assert(keys.to_set().contains(keys[0]));
    } else {
        assert(keys.to_set() =~= Set::<Seq<u8>>::empty());
    }
}

impl View for ProgramList {
    type V = Set<Seq<u8>>;

    closed spec fn view(&self) -> Set<Seq<u8>> {
        self.programs@.map_values(|key: [u8; 32]| key@).to_set()
    }
}

impl ProgramList {
    /// No program is listed twice.
    pub closed spec fn wf(&self) -> bool {
        forall|i: int, j: int|
            0 <= i < j < self.programs@.len() ==> self.programs@[i]@ != self.programs@[j]@
    }

    proof fn lemma_contains(&self, key: Seq<u8>)
        ensures
            self@.contains(key) <==> exists|i: int|
                0 <= i < self.programs@.len() && #[trigger] self.programs@[i]@ == key,
    {
        let keys = self.programs@.map_values(|key: [u8; 32]| key@);
        if self@.contains(key) {
            let i = choose|i: int| 0 <= i < keys.len() && keys[i] == key;
            assert(self.programs@[i]@ == key);
        }
        if exists|i: int| 0 <= i < self.programs@.len() && #[trigger] self.programs@[i]@ == key {
            let i = choose|i: int|
                0 <= i < self.programs@.len() && #[trigger] self.programs@[i]@ == key;
            assert(keys[i] == key);
        }
    }

    /// The empty list.
    pub fn new() -> (list: Self)
        ensures
            list.wf(),
            list@ == Set::<Seq<u8>>::empty(),
    {
        let list = ProgramList { programs: Vec::new() };
        proof {
            assert forall|key: Seq<u8>| !list@.contains(key) by {
                list.lemma_contains(key);
            }
            assert(list@ =~= Set::<Seq<u8>>::empty());
        }
        list
    }

    /// Whether no program is listed.
    pub fn is_empty(&self) -> (empty: bool)
        ensures
            empty == (self@ == Set::<Seq<u8>>::empty()),
    {
        proof {
            if self.programs@.len() == 0 {
                assert forall|key: Seq<u8>| !self@.contains(key) by {
                    self.lemma_contains(key);
                }
                assert(self@ =~= Set::<Seq<u8>>::empty());
            } else {
                self.lemma_contains(self.programs@[0]@);
            }
        }
        self.programs.len() == 0
    }

    /// Whether a program is listed.
    pub fn contains(&self, key: &[u8; 32]) -> (found: bool)
        ensures
            found == self@.contains(key@),
    {
        let mut i: usize = 0;
        while i < self.programs.len()
            invariant
                i <= self.programs@.len(),
                forall|j: int| 0 <= j < i ==> #[trigger] self.programs@[j]@ != key@,
            decreases self.programs@.len() - i,
        {
            if same_key(&self.programs[i], key) {
                proof {
                    self.lemma_contains(key@);
                }
                return true;
            }
            i += 1;
        }
        proof {
            self.lemma_contains(key@);
        }
        false
    }

    /// Takes every program off the list.
    pub fn clear(&mut self)
        ensures
            final(self).wf(),
            final(self)@ == Set::<Seq<u8>>::empty(),
    {
        self.programs.clear();
        proof {
            assert forall|key: Seq<u8>| !self@.contains(key) by {
                self.lemma_contains(key);
            }
            assert(self@ =~= Set::<Seq<u8>>::empty());
        }
    }

    /// Puts a program on the list, unless it is there.
    pub fn insert(&mut self, key: [u8; 32])
        requires
            old(self).wf(),
        ensures
            final(self).wf(),
            final(self)@ == old(self)@.insert(key@),
    {
        if self.contains(&key) {
            assert(self@ =~= old(self)@.insert(key@));
        } else {
            proof {
                self.lemma_contains(key@);
            }
            self.programs.push(key);
            proof {
                assert forall|k: Seq<u8>|
                    self@.contains(k) == old(self)@.insert(key@).contains(k) by {
                    self.lemma_contains(k);
                    old(self).lemma_contains(k);
                    if old(self)@.contains(k) {
                        let i = choose|i: int|
                            0 <= i < old(self).programs@.len()
                                && #[trigger] old(self).programs@[i]@ == k;
                        assert(self.programs@[i]@ == k);
                    }
                    if k == key@ {
                        assert(self.programs@[self.programs@.len() - 1]@ == k);
                    }
                }
                assert(self@ =~= old(self)@.insert(key@));
            }
        }
    }
}

/// Whether two keys are the same.
fn same_key(a: &[u8; 32], b: &[u8; 32]) -> (same: bool)
    ensures
        same == (a@ == b@),
{
    let mut i: usize = 0;
    while i < 32
        invariant
            i <= 32,
            forall|j: int| 0 <= j < i ==> a@[j] == b@[j],
        decreases 32 - i,
    {
        if a[i] != b[i] {
            return false;
        }
        i += 1;
    }
    assert(a@ =~= b@);
    true
}

/// The key in the 32 bytes of `payload` from `offset` on.
pub fn key_at(payload: &[u8], offset: usize) -> (key: [u8; 32])
    requires
        offset + 32 <= payload@.len(),
    ensures
        key@ == payload@.subrange(offset as int, offset + 32),
{
    let room: usize = payload.len();
    let mut key: [u8; 32] = [0; 32];
    let mut i: usize = 0;
    while i < 32
        invariant
            i <= 32,
            room == payload@.len(),
            offset + 32 <= room,
            forall|j: int| 0 <= j < i ==> key@[j] == payload@[offset + j],
        decreases 32 - i,
    {
        key[i] = payload[offset + i];
        i += 1;
    }
    assert(key@ =~= payload@.subrange(offset as int, offset + 32));
    key
}

} // verus!
