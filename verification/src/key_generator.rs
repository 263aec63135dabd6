use vstd::prelude::*;
use vstd::set_lib::{lemma_int_range, lemma_len_subset, lemma_map_size, set_int_range};

use std::collections::HashSet;
use std::marker::PhantomData;

verus! {

broadcast use vstd::std_specs::hash::group_hash_axioms;

/// A key is a typed wrapper around a 32-bit id.
pub trait Key: Copy + Sized {
    /// The id wrapped by this key.
    spec fn key_id(&self) -> u32;

    /// Two keys with the same id are the same key.
    proof fn lemma_id_determines_key(a: Self, b: Self)
        ensures
            a.key_id() == b.key_id() ==> a == b,
    ;

    /// Wrap an id.
    fn new(id: u32) -> (k: Self)
        ensures
            k.key_id() == id,
    ;

    /// Unwrap the id.
    fn id(&self) -> (r: u32)
        ensures
            r == self.key_id(),
    ;
}

/// The number of distinct 32-bit ids.
pub open spec fn id_space() -> int {
    0x1_0000_0000
}

/// The id reached `steps` increments after `last`, counting modulo 2^32.
pub open spec fn id_after(last: u32, steps: int) -> u32 {
    ((last + steps) % id_space()) as u32
}

/// `id` is the first id after `last` (cyclically, `last` itself coming last) that is not in `used`.
pub open spec fn is_next_free(last: u32, used: Set<u32>, id: u32) -> bool {
    exists|k: int|
        1 <= k <= id_space() && #[trigger] id_after(last, k) == id && !used.contains(id) && (
        forall|j: int| 1 <= j < k ==> used.contains(#[trigger] id_after(last, j)))
}

/// `ids` are the ids that successive calls of [`KeyGenerator::next`] hand out, starting from the
/// counter at `last` with the ids in `used` taken.
#[verifier::opaque]
pub open spec fn is_fresh_run(last: u32, used: Set<u32>, ids: Seq<u32>) -> bool {
    forall|i: int|
        0 <= i < ids.len() ==> is_next_free(
            if i == 0 {
                last
            } else {
                ids[i - 1]
            },
            used.union(ids.take(i).to_set()),
            #[trigger] ids[i],
        )
}

/// No ids form a run from any counter.
pub proof fn lemma_fresh_run_empty(last: u32, used: Set<u32>)
    ensures
        is_fresh_run(last, used, Seq::empty()),
{
    reveal(is_fresh_run);
}

/// A run extends by the next free id after its last one.
pub proof fn lemma_fresh_run_push(last: u32, used: Set<u32>, ids: Seq<u32>, id: u32)
    requires
        is_fresh_run(last, used, ids),
        is_next_free(if ids.len() == 0 { last } else { ids.last() }, used.union(ids.to_set()), id),
    ensures
        is_fresh_run(last, used, ids.push(id)),
{
    reveal(is_fresh_run);
    let ids2 = ids.push(id);
    assert forall|j: int| 0 <= j < ids2.len() implies is_next_free(
        if j == 0 { last } else { ids2[j - 1] },
        used.union(ids2.take(j).to_set()),
        #[trigger] ids2[j],
    ) by {
        if j < ids.len() {
            assert(ids2.take(j) =~= ids.take(j));
            assert(ids2[j] == ids[j]);
            if j > 0 {
                assert(ids2[j - 1] == ids[j - 1]);
            }
        } else {
            assert(ids2.take(j) =~= ids);
        }
    }
}

/// The ids of the keys.
pub open spec fn ids_of<K: Key>(keys: Seq<K>) -> Seq<u32> {
    keys.map_values(|k: K| k.key_id())
}

/// Whether no two of the keys share an id.
pub fn ids_distinct<K: Key>(keys: &Vec<K>) -> (r: bool)
    ensures
        r == ids_of(keys@).no_duplicates(),
{
    let ghost ids = ids_of(keys@);
    let mut i: usize = 0;
    while i < keys.len()
        invariant
            i <= keys.len(),
            ids == ids_of(keys@),
            forall|x: int, y: int| 0 <= x < y < i ==> ids[x] != ids[y],
        decreases keys.len() - i,
    {
        let id = keys[i].id();
        let mut j: usize = 0;
        while j < i
            invariant
                i < keys.len(),
                j <= i,
                ids == ids_of(keys@),
                id == ids[i as int],
                forall|x: int| 0 <= x < j ==> ids[x] != ids[i as int],
            decreases i - j,
        {
            if keys[j].id() == id {
                assert(ids[j as int] == ids[i as int]);
                assert(!ids.no_duplicates());
                return false;
            }
            j = j + 1;
        }
        i = i + 1;
    }
    true
}

/// The largest id in the sequence, or 0 when it is empty.
pub open spec fn max_id(ids: Seq<u32>) -> u32
    decreases ids.len(),
{
    if ids.len() == 0 {
        0
    } else {
        let rest = max_id(ids.drop_last());
        if ids.last() > rest {
            ids.last()
        } else {
            rest
        }
    }
}

/// Produced when no unique key is left.
#[derive(Debug, PartialEq, Eq, Structural)]
pub struct OverflowError;

/// Produced when a key that is not in use is freed.
#[derive(Debug, PartialEq, Eq, Structural)]
pub struct InvalidKeyError<K> {
    pub key: K,
}

/// Produced when a key that is already in use is reserved.
#[derive(Debug, PartialEq, Eq, Structural)]
pub struct KeyCollisionError<K> {
    pub key: K,
}

/// Converts a count to a 32-bit count, or nothing when it does not fit.
///
/// Calls `num_traits::cast`, which for a `usize` source and a `u32` target gives
/// `Some(n as u32)` exactly when `n <= u32::MAX`.
#[verifier::external_body]
fn count_to_u32(n: usize) -> (r: Option<u32>)
    ensures
        r == (if n <= u32::MAX { Some(n as u32) } else { None::<u32> }),
{
    num_traits::cast::<usize, u32>(n)
}

/// Generates unique keys via an incrementing counter, and keeps the set of all keys currently in use.
pub struct KeyGenerator<K: Key> {
    last_id: u32,
    used_ids: HashSet<u32>,
    marker: PhantomData<K>,
}

/// Every set of `u32` values that holds all of them has at least 2^32 elements.
proof fn lemma_full_set_len(s: Set<u32>)
    requires
        s.finite(),
        forall|x: u32| s.contains(x),
    ensures
        s.len() >= id_space(),
{
    let range = set_int_range(0, id_space());
    lemma_int_range(0, id_space());
    let f = |i: int| i as u32;
    let full = range.map(f);
    assert forall|a: int, b: int| range.contains(a) && range.contains(b) && #[trigger] f(a) == #[trigger] f(b)
        implies a == b by {
    }
    assert(vstd::relations::injective_on(f, range));
    assert forall|x: u32| #[trigger] full.contains(x) by {
        assert(range.contains(x as int));
        assert(f(x as int) == x);
    }
    assert forall|x: u32| #[trigger] full.contains(x) implies s.contains(x) by {
    }
    lemma_map_size(range, full, f);
    lemma_len_subset(full, s);
}

impl<K: Key> KeyGenerator<K> {
    /// The ids currently in use.
    pub closed spec fn used(&self) -> Set<u32> {
        self.used_ids@
    }

    /// The last id handed out by [`KeyGenerator::next`] (or the starting point of the counter).
    pub closed spec fn last(&self) -> u32 {
        self.last_id
    }

    /// The set of ids in use is finite and smaller than the id space (one id always stays free).
    pub closed spec fn wf(&self) -> bool {
        &&& self.used_ids@.finite()
        &&& self.used_ids@.len() <= u32::MAX
    }

    /// Whether the key is in use.
    /// The keys in use are finitely many, at most `u32::MAX`.
    pub proof fn lemma_wf(&self)
        requires
            self.wf(),
        ensures
            self.used().finite(),
            self.used().len() <= u32::MAX,
    {
    }

    pub open spec fn key_in_use(&self, key: K) -> bool {
        self.used().contains(key.key_id())
    }

    /// The number of keys that can still be handed out.
    pub open spec fn remaining(&self) -> int {
        u32::MAX - self.used().len()
    }

    /// Create a generator with no keys in use.
    pub fn new() -> (kg: Self)
        ensures
            kg.wf(),
            kg.used() == Set::<u32>::empty(),
            kg.last() == u32::MAX,
    {
        KeyGenerator { last_id: u32::MAX, used_ids: HashSet::new(), marker: PhantomData }
    }

    /// Create a generator with all the given keys reserved; the counter continues after the largest of them.
    pub fn from_keys(keys: &[K]) -> (kg: Self)
        requires
            keys@.len() <= u32::MAX,
            forall|i: int, j: int|
                0 <= i < j < keys@.len() ==> keys@[i].key_id() != keys@[j].key_id(),
        ensures
            kg.wf(),
            kg.used() == keys@.map_values(|k: K| k.key_id()).to_set(),
            kg.last() == max_id(keys@.map_values(|k: K| k.key_id())),
    {
        let mut kg = Self::new();
        let mut max: u32 = 0;
        let ghost ids = keys@.map_values(|k: K| k.key_id());
        let mut i: usize = 0;
        while i < keys.len()
            invariant
                i <= keys@.len(),
                keys@.len() <= u32::MAX,
                ids == keys@.map_values(|k: K| k.key_id()),
                forall|a: int, b: int| 0 <= a < b < keys@.len() ==> ids[a] != ids[b],
                kg.used_ids@ == ids.take(i as int).to_set(),
                kg.used_ids@.finite(),
                kg.used_ids@.len() == i,
                max == max_id(ids.take(i as int)),
            decreases keys@.len() - i,
        {
            let id = keys[i].id();
            assert(ids.take(i as int + 1).drop_last() =~= ids.take(i as int));
            assert(!ids.take(i as int).contains(id)) by {
                if ids.take(i as int).contains(id) {
                    let j = choose|j: int| 0 <= j < i && ids.take(i as int)[j] == id;
                    assert(ids[j] == ids[i as int]);
                }
            }
            assert(ids.take(i as int + 1) =~= ids.take(i as int).push(id));
            proof {
                ids.take(i as int).lemma_push_to_set_commute(id);
            }
            let inserted = kg.used_ids.insert(id);
            if id > max {
                max = id;
            }
            i = i + 1;
        }
        assert(ids.take(keys@.len() as int) =~= ids);
        kg.last_id = max;
        kg
    }

    /// The number of keys currently in use.
    pub fn used_keys(&self) -> (r: u32)
        requires
            self.wf(),
        ensures
            r == self.used().len(),
    {
        count_to_u32(self.used_ids.len()).unwrap()
    }

    /// The number of unique keys that are left; [`KeyGenerator::next`] fails exactly when this is 0.
    pub fn remaining_keys(&self) -> (r: u32)
        requires
            self.wf(),
        ensures
            r == self.remaining(),
    {
        u32::MAX - self.used_keys()
    }

    /// The next free id after the counter, without reserving it.
    fn peek_next_id(&self) -> (r: Result<u32, OverflowError>)
        requires
            self.wf(),
        ensures
            r is Err <==> self.remaining() == 0,
            r matches Ok(id) ==> is_next_free(self.last(), self.used(), id),
    {
        if self.remaining_keys() == 0 {
            return Err(OverflowError);
        }
        let ghost used = self.used_ids@;
        let ghost last = self.last_id;
        proof {
            if forall|x: u32| used.contains(x) {
                lemma_full_set_len(used);
            }
        }
        let mut id = self.last_id;
        let ghost mut k: int = 0;
        loop
            invariant
                self.wf(),
                used == self.used_ids@,
                last == self.last_id,
                0 <= k < id_space(),
                id == id_after(last, k),
                exists|x: u32| !used.contains(x),
                used.len() < u32::MAX,
                forall|j: int| 1 <= j <= k ==> used.contains(#[trigger] id_after(last, j)),
            decreases id_space() - k,
        {
            id = id.wrapping_add(1);
            proof {
                k = k + 1;
            }
            assert(id == id_after(last, k));
            if !self.used_ids.contains(&id) {
                assert(is_next_free(last, used, id)) by {
                    assert(forall|j: int| 1 <= j < k ==> used.contains(#[trigger] id_after(last, j)));
                }
                return Ok(id);
            }
            proof {
                if k == id_space() {
                    let x = choose|x: u32| !used.contains(x);
                    let j = ((x - last) % id_space()) + (if x == last { id_space() } else { 0 });
                    assert(1 <= j <= k);
                    assert(id_after(last, j) == x);
                    assert(false);
                }
            }
        }
    }

    /// Return a new unique key, reserving it until [`KeyGenerator::free`] is called with it.
    pub fn next(&mut self) -> (r: Result<K, OverflowError>)
        requires
            old(self).wf(),
        ensures
            final(self).wf(),
            r is Err <==> old(self).remaining() == 0,
            r is Err ==> *final(self) == *old(self),
            r matches Ok(k) ==> {
                &&& is_next_free(old(self).last(), old(self).used(), k.key_id())
                &&& final(self).used() == old(self).used().insert(k.key_id())
                &&& final(self).last() == k.key_id()
            },
    {
        let id = self.peek_next_id()?;
        let key = K::new(id);
        let inserted = self.used_ids.insert(id);
        self.last_id = id;
        Ok(key)
    }

    /// Hand out `count` new unique keys, in the order in which [`KeyGenerator::next`] would.
    pub fn next_n(&mut self, count: u32) -> (r: Result<Vec<K>, OverflowError>)
        requires
            old(self).wf(),
        ensures
            final(self).wf(),
            r is Err <==> old(self).remaining() < count,
            r is Err ==> *final(self) == *old(self),
            r matches Ok(keys) ==> {
                let ids = ids_of(keys@);
                &&& keys@.len() == count
                &&& is_fresh_run(old(self).last(), old(self).used(), ids)
                &&& final(self).used() == old(self).used().union(ids.to_set())
                &&& final(self).last() == (if count == 0 { old(self).last() } else { ids.last() })
                &&& ids.no_duplicates()
                &&& forall|i: int| 0 <= i < ids.len() ==> !old(self).used().contains(#[trigger] ids[i])
            },
    {
        if self.remaining_keys() < count {
            return Err(OverflowError);
        }
        let mut keys: Vec<K> = Vec::new();
        let mut i: u32 = 0;
        let ghost used0 = self.used();
        let ghost last0 = self.last();
        proof {
            lemma_fresh_run_empty(last0, used0);
            assert(ids_of(keys@) =~= Seq::<u32>::empty());
        }
        while i < count
            invariant
                self.wf(),
                i <= count,
                keys@.len() == i,
                self.remaining() == old(self).remaining() - i,
                old(self).remaining() >= count,
                used0 == old(self).used(),
                last0 == old(self).last(),
                is_fresh_run(last0, used0, ids_of(keys@)),
                self.used() == used0.union(ids_of(keys@).to_set()),
                self.last() == (if i == 0 { last0 } else { ids_of(keys@).last() }),
                ids_of(keys@).no_duplicates(),
                forall|j: int| 0 <= j < i ==> !used0.contains(#[trigger] ids_of(keys@)[j]),
            decreases count - i,
        {
            let ghost ids = ids_of(keys@);
            let ghost before = self.used();
            let key = match self.next() {
                Ok(key) => key,
                Err(e) => {
                    assert(false);
                    return Err(e);
                },
            };
            keys.push(key);
            let ghost ids2 = ids_of(keys@);
            proof {
                assert(ids2 =~= ids.push(key.key_id()));
                assert(!before.contains(key.key_id()));
                assert(before == used0.union(ids.to_set()));
                lemma_fresh_run_push(last0, used0, ids, key.key_id());
                ids.lemma_push_to_set_commute(key.key_id());
                assert(self.used() =~= used0.union(ids2.to_set()));
                assert(ids2.no_duplicates()) by {
                    assert forall|a: int, b: int| 0 <= a < b < ids2.len() implies ids2[a] != ids2[b] by {
                        if b == i {
                            assert(ids.to_set().contains(ids[a]));
                        }
                    }
                }
            }
            i = i + 1;
        }
        Ok(keys)
    }

    /// The key that [`KeyGenerator::next`] would hand out, without reserving it.
    pub fn peek_next(&self) -> (r: Result<K, OverflowError>)
        requires
            self.wf(),
        ensures
            r is Err <==> self.remaining() == 0,
            r matches Ok(k) ==> is_next_free(self.last(), self.used(), k.key_id()),
    {
        match self.peek_next_id() {
            Ok(id) => Ok(K::new(id)),
            Err(e) => Err(e),
        }
    }

    /// Free a key, so that it can be handed out again once the counter wraps around.
    pub fn free(&mut self, key: K) -> (r: Result<(), InvalidKeyError<K>>)
        requires
            old(self).wf(),
        ensures
            final(self).wf(),
            r is Ok <==> old(self).key_in_use(key),
            r matches Err(e) ==> e.key == key,
            final(self).used() == old(self).used().remove(key.key_id()),
            final(self).last() == old(self).last(),
    {
        let id = key.id();
        let removed = self.used_ids.remove(&id);
        if removed {
            Ok(())
        } else {
            Err(InvalidKeyError { key })
        }
    }

    /// Reserve a key, marking it as in use.
    pub fn reserve(&mut self, key: K) -> (r: Result<(), KeyCollisionError<K>>)
        requires
            old(self).wf(),
            old(self).key_in_use(key) || old(self).remaining() > 0,
        ensures
            final(self).wf(),
            r is Ok <==> !old(self).key_in_use(key),
            r matches Err(e) ==> e.key == key,
            final(self).used() == old(self).used().insert(key.key_id()),
            final(self).last() == old(self).last(),
    {
        let id = key.id();
        let inserted = self.used_ids.insert(id);
        if inserted {
            Ok(())
        } else {
            Err(KeyCollisionError { key })
        }
    }

    /// Whether the key is currently in use.
    pub fn in_use(&self, key: K) -> (r: bool)
        requires
            self.wf(),
        ensures
            r == self.key_in_use(key),
    {
        self.used_ids.contains(&key.id())
    }
}

/// A key handed out by [`KeyGenerator::next`] and then freed leaves the keys in use as they
/// were; the counter stays where `next` put it, so the key is not handed out again before the
/// counter wraps around.
pub proof fn lemma_next_then_free<K: Key>(g0: KeyGenerator<K>, g1: KeyGenerator<K>, g2: KeyGenerator<K>, key: K)
    requires
        g0.wf(),
        is_next_free(g0.last(), g0.used(), key.key_id()),
        g1.used() == g0.used().insert(key.key_id()),
        g1.last() == key.key_id(),
        g2.used() == g1.used().remove(key.key_id()),
        g2.last() == g1.last(),
    ensures
        g2.used() == g0.used(),
        g2.last() == key.key_id(),
{
    assert(!g0.used().contains(key.key_id()));
    assert(g2.used() =~= g0.used());
}

} // verus!
