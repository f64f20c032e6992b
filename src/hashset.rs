//! An open-addressing hash set with linear probing over fallible storage.
//!
//! A removed item leaves a `Deleted` marker in its slot, so the probe
//! sequences of the items stored after it stay unbroken. The markers are
//! dropped whenever the table is rebuilt: when it grows, and when an insert
//! finds that markers and items together leave no `Empty` slot.

use vstd::prelude::*;
use crate::djb2::{djb2_extend, lemma_extend_push, DJB2Hasher};
use crate::vec_extra::{AllocError, VecExtra};
use crate::laws::lemma_union_law;

verus! {

/// What an item must offer to be stored: equality, and a byte form that is
/// fed to the hasher.
pub trait SetItem: Copy + Sized {
    /// The bytes that stand for the item when it is hashed.
    spec fn bytes_of(&self) -> Seq<u8>;

    /// Whether two items are equal.
    fn same_item(&self, other: &Self) -> (r: bool)
        ensures
            r == (*self == *other);

    /// Feeds the item's bytes to `hasher`, after whatever it already holds.
    fn hash_into(&self, hasher: &mut DJB2Hasher)
        ensures
            final(hasher).state() == djb2_extend(old(hasher).state(), self.bytes_of());
}

/// The four bytes of `x`, least significant first.
pub open spec fn le_bytes_u32(x: u32) -> Seq<u8> {
    seq![
        (x % 256) as u8,
        ((x / 256) % 256) as u8,
        ((x / 65536) % 256) as u8,
        (x / 16777216) as u8,
    ]
}

/// Feeds the four bytes of `x`, least significant first.
pub fn write_u32(hasher: &mut DJB2Hasher, x: u32)
    ensures
        final(hasher).state() == djb2_extend(old(hasher).state(), le_bytes_u32(x)),
{
    let ghost h0 = hasher.state();
    let b0 = (x % 256) as u8;
    let b1 = ((x / 256) % 256) as u8;
    let b2 = ((x / 65536) % 256) as u8;
    let b3 = (x / 16777216) as u8;
    hasher.write_u8(b0);
    hasher.write_u8(b1);
    hasher.write_u8(b2);
    hasher.write_u8(b3);
    proof {
        let e = Seq::<u8>::empty();
        assert(djb2_extend(h0, e) == h0);
        lemma_extend_push(h0, e, b0);
        lemma_extend_push(h0, e.push(b0), b1);
        lemma_extend_push(h0, e.push(b0).push(b1), b2);
        lemma_extend_push(h0, e.push(b0).push(b1).push(b2), b3);
        assert(le_bytes_u32(x) =~= e.push(b0).push(b1).push(b2).push(b3));
    }
}

impl SetItem for u32 {
    open spec fn bytes_of(&self) -> Seq<u8> {
        le_bytes_u32(*self)
    }

    fn same_item(&self, other: &u32) -> (r: bool) {
        *self == *other
    }

    fn hash_into(&self, hasher: &mut DJB2Hasher) {
        write_u32(hasher, *self);
    }
}

/// One slot of the table.
#[derive(Debug, Clone, Copy)]
pub enum Slot<T> {
    /// Never used since the last growth or drain: a probe stops here.
    Empty,
    /// Held an item that was removed: a probe goes on past it.
    Deleted,
    /// Holds an item.
    Full(T),
}

/// The hash of `x` under a hasher whose accumulator starts at `seed`.
pub open spec fn item_hash<T: SetItem>(seed: u32, x: T) -> u64 {
    djb2_extend(seed, x.bytes_of()) as u64
}

/// The slot where the probe for `x` starts, in a table of `n` slots.
pub open spec fn home<T: SetItem>(seed: u32, x: T, n: int) -> int {
    item_hash(seed, x) as int % n
}

/// The slot `k` steps after `h`, wrapping at `n` (for `k < n`).
pub open spec fn at_offset(h: int, k: int, n: int) -> int {
    if h + k < n {
        h + k
    } else {
        h + k - n
    }
}

/// How many steps forward, wrapping at `n`, lead from `h` to `j`.
pub open spec fn offset_of(h: int, j: int, n: int) -> int {
    if j >= h {
        j - h
    } else {
        j + n - h
    }
}

/// No slot from `h` up to (not including) `j` is `Empty`: a probe that
/// starts at `h` gets to `j`.
pub open spec fn reachable<T>(s: Seq<Slot<T>>, h: int, j: int) -> bool {
    forall|k: int|
        0 <= k < offset_of(h, j, s.len() as int) ==> !(#[trigger] s[at_offset(h, k, s.len() as int)] is Empty)
}

/// The items held by the slots.
pub open spec fn items_in<T>(s: Seq<Slot<T>>) -> Set<T> {
    Set::new(|x: T| exists|i: int| 0 <= i < s.len() && s[i] == Slot::Full(x))
}

/// No item is held by two slots.
pub open spec fn no_dup_slots<T>(s: Seq<Slot<T>>) -> bool {
    forall|i: int, j: int|
        0 <= i < s.len() && 0 <= j < s.len() && #[trigger] s[i] is Full && #[trigger] s[j] is Full
            && s[i]->Full_0 == s[j]->Full_0 ==> i == j
}

/// The number of `Full` slots.
pub open spec fn count_full<T>(s: Seq<Slot<T>>) -> nat
    decreases s.len(),
{
    if s.len() == 0 {
        0
    } else {
        count_full(s.drop_last()) + if s.last() is Full {
            1nat
        } else {
            0nat
        }
    }
}

/// The number of `Deleted` slots.
pub open spec fn count_deleted<T>(s: Seq<Slot<T>>) -> nat
    decreases s.len(),
{
    if s.len() == 0 {
        0
    } else {
        count_deleted(s.drop_last()) + if s.last() is Deleted {
            1nat
        } else {
            0nat
        }
    }
}

proof fn lemma_count_le<T>(s: Seq<Slot<T>>)
    ensures
        count_full(s) + count_deleted(s) <= s.len(),
    decreases s.len(),
{
    if s.len() > 0 {
        lemma_count_le(s.drop_last());
    }
}

proof fn lemma_count_zero<T>(s: Seq<Slot<T>>)
    requires
        forall|i: int| 0 <= i < s.len() ==> (#[trigger] s[i] is Empty),
    ensures
        count_full(s) == 0,
        count_deleted(s) == 0,
    decreases s.len(),
{
    if s.len() > 0 {
        lemma_count_zero(s.drop_last());
    }
}

proof fn lemma_count_update<T>(s: Seq<Slot<T>>, i: int, v: Slot<T>)
    requires
        0 <= i < s.len(),
    ensures
        count_full(s.update(i, v)) + (if s[i] is Full { 1int } else { 0int })
            == count_full(s) + (if v is Full { 1int } else { 0int }),
        count_deleted(s.update(i, v)) + (if s[i] is Deleted { 1int } else { 0int })
            == count_deleted(s) + (if v is Deleted { 1int } else { 0int }),
    decreases s.len(),
{
    let t = s.update(i, v);
    if i == s.len() - 1 {
        assert(t.drop_last() =~= s.drop_last());
    } else {
        assert(t.drop_last() =~= s.drop_last().update(i, v));
        lemma_count_update(s.drop_last(), i, v);
    }
}

/// Without duplicates, the number of `Full` slots is the number of items.
proof fn lemma_items_len<T>(s: Seq<Slot<T>>)
    requires
        no_dup_slots(s),
    ensures
        items_in(s).finite(),
        items_in(s).len() == count_full(s),
    decreases s.len(),
{
    if s.len() == 0 {
        assert(items_in(s) =~= Set::<T>::empty());
    } else {
        let p = s.drop_last();
        assert(no_dup_slots(p)) by {
            assert forall|i: int, j: int|
                0 <= i < p.len() && 0 <= j < p.len() && #[trigger] p[i] is Full && #[trigger] p[j] is Full
                    && p[i]->Full_0 == p[j]->Full_0 implies i == j by {
                assert(s[i] == p[i] && s[j] == p[j]);
            }
        }
        lemma_items_len(p);
        let n = s.len() - 1;
        if let Slot::Full(y) = s.last() {
            assert(!items_in(p).contains(y)) by {
                if items_in(p).contains(y) {
                    let i = choose|i: int| 0 <= i < p.len() && p[i] == Slot::Full(y);
                    assert(s[i] is Full && s[n] is Full);
                }
            }
            assert(items_in(s) =~= items_in(p).insert(y)) by {
                assert forall|x: T| items_in(s).contains(x) implies #[trigger] items_in(p).insert(y).contains(x) by {
                    let i = choose|i: int| 0 <= i < s.len() && s[i] == Slot::Full(x);
                    if i < n {
                        assert(p[i] == Slot::Full(x));
                    }
                }
                assert forall|x: T| #[trigger] items_in(p).insert(y).contains(x) implies items_in(s).contains(x) by {
                    if x == y {
                        assert(s[n] == Slot::Full(x));
                    } else {
                        let i = choose|i: int| 0 <= i < p.len() && p[i] == Slot::Full(x);
                        assert(s[i] == Slot::Full(x));
                    }
                }
            }
        } else {
            assert(items_in(s) =~= items_in(p)) by {
                assert forall|x: T| items_in(s).contains(x) implies #[trigger] items_in(p).contains(x) by {
                    let i = choose|i: int| 0 <= i < s.len() && s[i] == Slot::Full(x);
                    assert(p[i] == Slot::Full(x));
                }
                assert forall|x: T| #[trigger] items_in(p).contains(x) implies items_in(s).contains(x) by {
                    let i = choose|i: int| 0 <= i < p.len() && p[i] == Slot::Full(x);
                    assert(s[i] == Slot::Full(x));
                }
            }
        }
    }
}

/// A hash set of `T` stored in a table of slots with linear probing.
///
/// The table grows, doubling its capacity, when an insert finds every slot
/// full; every allocation reports failure as `Err(AllocError)`.
#[derive(Debug)]
pub struct HashSet<T> {
    buckets: VecExtra<Slot<T>>,
    capacity: usize,
    size: usize,
    deleted: usize,
    hasher: DJB2Hasher,
}

impl<T: SetItem> View for HashSet<T> {
    type V = Set<T>;

    closed spec fn view(&self) -> Set<T> {
        items_in(self.buckets@)
    }
}

impl<T: SetItem> HashSet<T> {
    /// The slots of the table, in storage order.
    pub closed spec fn slots(&self) -> Seq<Slot<T>> {
        self.buckets@
    }

    /// The number of slots.
    pub closed spec fn cap(&self) -> nat {
        self.capacity as nat
    }

    /// The accumulator every hash of an item starts from.
    pub closed spec fn seed(&self) -> u32 {
        self.hasher.state()
    }

    /// The table is consistent: capacity and size agree with the slots, no
    /// item is held twice, and each item can be reached by probing from its
    /// home slot.
    pub closed spec fn wf(&self) -> bool {
        let s = self.buckets@;
        let n = s.len() as int;
        &&& self.capacity == n
        &&& n > 0
        &&& self.size == count_full(s)
        &&& self.deleted == count_deleted(s)
        &&& no_dup_slots(s)
        &&& forall|j: int|
            0 <= j < n && (#[trigger] s[j]) is Full ==> reachable(s, home(self.hasher.state(), s[j]->Full_0, n), j)
    }

    /// The items of a consistent set are exactly those held by its slots,
    /// each by one slot; so they are finitely many, one per `Full` slot.
    pub proof fn lemma_contents(&self)
        requires
            self.wf(),
        ensures
            self@.finite(),
            self@ == items_in(self.slots()),
            no_dup_slots(self.slots()),
            self@.len() == count_full(self.slots()),
    {
        lemma_items_len(self.buckets@);
    }

    proof fn lemma_view_len(&self)
        requires
            self.wf(),
        ensures
            self@.finite(),
            self@.len() == self.size,
            self.size + self.deleted <= self.capacity,
    {
        lemma_items_len(self.buckets@);
        lemma_count_le(self.buckets@);
    }

    fn empty_table(hasher: DJB2Hasher, capacity: usize) -> (r: Result<Self, AllocError>)
        requires
            capacity > 0,
        ensures
            r matches Ok(s) ==> s.wf() && s@ == Set::<T>::empty() && s.cap() == capacity && s.seed()
                == hasher.state() && s.size == 0 && s.deleted == 0,
    {
        let buckets = match VecExtra::try_filled(Slot::Empty, capacity) {
            Ok(b) => b,
            Err(e) => return Err(e),
        };
        let s = HashSet { buckets, capacity, size: 0, deleted: 0, hasher };
        proof {
            lemma_count_zero(s.buckets@);
            assert(s@ =~= Set::<T>::empty());
        }
        Ok(s)
    }

    /// An empty set of `capacity` slots hashing with DJB2 from its usual seed,
    /// or `Err` when the slots cannot be allocated. A zero capacity is a
    /// caller's error.
    pub fn with_capacity(capacity: usize) -> (r: Result<Self, AllocError>)
        requires
            capacity > 0,
        ensures
            r matches Ok(s) ==> s.wf() && s@ == Set::<T>::empty() && s.cap() == capacity && s.seed()
                == crate::djb2::DJB2_SEED,
    {
        HashSet::empty_table(DJB2Hasher::new(), capacity)
    }

    /// An empty set of `capacity` slots whose item hashes start from the
    /// accumulator of `hasher`, or `Err` when the slots cannot be allocated.
    pub fn with_hasher_and_capacity(hasher: DJB2Hasher, capacity: usize) -> (r: Result<Self, AllocError>)
        requires
            capacity > 0,
        ensures
            r matches Ok(s) ==> s.wf() && s@ == Set::<T>::empty() && s.cap() == capacity && s.seed()
                == hasher.state(),
    {
        HashSet::empty_table(hasher, capacity)
    }

    /// The hash of `item`; a pure function of the item and the set's seed.
    pub fn hash(&self, item: &T) -> (r: u64)
        ensures
            r == item_hash(self.seed(), *item),
    {
        let mut hasher = self.hasher;
        item.hash_into(&mut hasher);
        hasher.finish()
    }

    fn calculate_index(&self, item: &T) -> (r: usize)
        requires
            self.wf(),
        ensures
            r == home(self.seed(), *item, self.cap() as int),
            r < self.cap(),
    {
        let h = self.hash(item);
        (h % (self.capacity as u64)) as usize
    }

    /// Shows that `item` is absent once a probe from its home slot has met
    /// neither it nor an `Empty` slot in its first `k` steps, and then either
    /// went all the way round or met an `Empty` slot.
    proof fn lemma_absent(&self, item: T, k: int)
        requires
            self.wf(),
            0 <= k <= self.cap(),
            forall|k2: int|
                0 <= k2 < k ==> #[trigger] self.buckets@[at_offset(
                    home(self.seed(), item, self.cap() as int),
                    k2,
                    self.cap() as int,
                )] != Slot::Full(item),
            k < self.cap() ==> self.buckets@[at_offset(
                home(self.seed(), item, self.cap() as int),
                k,
                self.cap() as int,
            )] is Empty,
        ensures
            !self@.contains(item),
    {
        let s = self.buckets@;
        let n = s.len() as int;
        let h = home(self.seed(), item, n);
        if self@.contains(item) {
            let j = choose|j: int| 0 <= j < n && s[j] == Slot::Full(item);
            assert(s[j] is Full);
            let d = offset_of(h, j, n);
            assert(at_offset(h, d, n) == j);
            if d < k {
                assert(s[at_offset(h, d, n)] != Slot::Full(item));
            } else if d == k {
            } else {
                assert(!(s[at_offset(h, k, n)] is Empty));
            }
        }
    }

    /// Probes for `item` from its home slot. Returns `(true, i)` when slot `i`
    /// holds it. Otherwise returns `false` and the first slot along the probe
    /// where it may be stored (the first `Deleted` one, else the `Empty` one
    /// that ended the probe), or the capacity when there is none.
    fn probe(&self, item: &T) -> (r: (bool, usize))
        requires
            self.wf(),
        ensures
            r.0 ==> r.1 < self.cap() && self.buckets@[r.1 as int] == Slot::Full(*item),
            !r.0 ==> !self@.contains(*item),
            !r.0 && r.1 < self.cap() ==> !(self.buckets@[r.1 as int] is Full) && reachable(
                self.buckets@,
                home(self.seed(), *item, self.cap() as int),
                r.1 as int,
            ),
            !r.0 && self.size < self.capacity ==> r.1 < self.cap(),
    {
        let n = self.capacity;
        let h = self.calculate_index(item);
        let ghost s = self.buckets@;
        let mut i: usize = h;
        let mut k: usize = 0;
        let mut free: usize = n;
        while k < n
            invariant
                self.wf(),
                n == self.cap(),
                s == self.buckets@,
                h == home(self.seed(), *item, n as int),
                k <= n,
                free <= n,
                i == at_offset(h as int, k as int, n as int),
                forall|k2: int|
                    0 <= k2 < k ==> !(#[trigger] s[at_offset(h as int, k2, n as int)] is Empty),
                forall|k2: int|
                    0 <= k2 < k ==> #[trigger] s[at_offset(h as int, k2, n as int)] != Slot::Full(*item),
                free == n ==> forall|k2: int|
                    0 <= k2 < k ==> #[trigger] s[at_offset(h as int, k2, n as int)] is Full,
                free < n ==> !(s[free as int] is Full) && offset_of(h as int, free as int, n as int) < k
                    && free == at_offset(h as int, offset_of(h as int, free as int, n as int), n as int),
            decreases n - k,
        {
            match self.buckets.get(i) {
                Slot::Empty => {
                    proof {
                        self.lemma_absent(*item, k as int);
                    }
                    if free == n {
                        return (false, i);
                    } else {
                        return (false, free);
                    }
                },
                Slot::Deleted => {
                    if free == n {
                        free = i;
                    }
                },
                Slot::Full(y) => {
                    if y.same_item(item) {
                        return (true, i);
                    }
                },
            }
            i = if i + 1 == n {
                0
            } else {
                i + 1
            };
            k = k + 1;
        }
        proof {
            self.lemma_absent(*item, k as int);
            if free == n && self.size < self.capacity {
                assert(forall|j: int| 0 <= j < n ==> (#[trigger] s[j]) is Full) by {
                    assert forall|j: int| 0 <= j < n implies (#[trigger] s[j]) is Full by {
                        assert(at_offset(h as int, offset_of(h as int, j, n as int), n as int) == j);
                    }
                }
                assert(false) by {
                    lemma_full_count(s);
                }
            }
        }
        (false, free)
    }

    /// Stores `item` in slot `i`, found free by a probe for it.
    proof fn lemma_place(&self, item: T, i: int)
        requires
            self.wf(),
            0 <= i < self.cap(),
            !self@.contains(item),
            !(self.buckets@[i] is Full),
            reachable(self.buckets@, home(self.seed(), item, self.cap() as int), i),
        ensures
            ({
                let t = self.buckets@.update(i, Slot::Full(item));
                &&& count_full(t) == count_full(self.buckets@) + 1
                &&& count_deleted(t) + (if self.buckets@[i] is Deleted { 1int } else { 0int })
                    == count_deleted(self.buckets@)
                &&& no_dup_slots(t)
                &&& items_in(t) == self@.insert(item)
                &&& forall|j: int|
                    0 <= j < t.len() && (#[trigger] t[j]) is Full ==> reachable(
                        t,
                        home(self.seed(), t[j]->Full_0, t.len() as int),
                        j,
                    )
            }),
    {
        let s = self.buckets@;
        let n = s.len() as int;
        let t = s.update(i, Slot::Full(item));
        lemma_count_update(s, i, Slot::Full(item));
        assert forall|a: int, b: int|
            0 <= a < n && 0 <= b < n && #[trigger] t[a] is Full && #[trigger] t[b] is Full && t[a]->Full_0
                == t[b]->Full_0 implies a == b by {
            if a != i && b != i {
                assert(s[a] is Full && s[b] is Full);
            } else if a == i && b != i {
                assert(s[b] == Slot::Full(item));
            } else if a != i && b == i {
                assert(s[a] == Slot::Full(item));
            }
        }
        assert(items_in(t) =~= self@.insert(item)) by {
            assert forall|x: T| items_in(t).contains(x) implies #[trigger] self@.insert(item).contains(x) by {
                let a = choose|a: int| 0 <= a < n && t[a] == Slot::Full(x);
                if a != i {
                    assert(s[a] == Slot::Full(x));
                }
            }
            assert forall|x: T| #[trigger] self@.insert(item).contains(x) implies items_in(t).contains(x) by {
                if x == item {
                    assert(t[i] == Slot::Full(x));
                } else {
                    let a = choose|a: int| 0 <= a < n && s[a] == Slot::Full(x);
                    assert(t[a] == Slot::Full(x));
                }
            }
        }
        assert forall|j: int| 0 <= j < n && (#[trigger] t[j]) is Full implies reachable(
            t,
            home(self.seed(), t[j]->Full_0, n),
            j,
        ) by {
            if j == i {
                lemma_reach_kept(s, i, Slot::Full(item), home(self.seed(), item, n), i);
            } else {
                assert(s[j] is Full);
                lemma_reach_kept(s, i, Slot::Full(item), home(self.seed(), s[j]->Full_0, n), j);
            }
        }
    }

    /// Inserts into a table that has a slot to spare.
    fn insert_no_grow(&mut self, item: T)
        requires
            old(self).wf(),
            old(self).size < old(self).capacity,
        ensures
            final(self).wf(),
            final(self)@ == old(self)@.insert(item),
            final(self).cap() == old(self).cap(),
            final(self).seed() == old(self).seed(),
            final(self).size <= old(self).size + 1,
            final(self).deleted <= old(self).deleted,
    {
        let (found, i) = self.probe(&item);
        if found {
            proof {
                assert(self@.contains(item)) by {
                    assert(self.buckets@[i as int] == Slot::Full(item));
                }
                assert(self@.insert(item) =~= self@);
            }
            return;
        }
        proof {
            self.lemma_place(item, i as int);
            lemma_count_le(self.buckets@);
        }
        let reused = match self.buckets.get(i) {
            Slot::Deleted => true,
            _ => false,
        };
        self.buckets.set(i, Slot::Full(item));
        self.size = self.size + 1;
        if reused {
            self.deleted = self.deleted - 1;
        }
    }

    /// Moves every item to a fresh table of twice the capacity. On `Err` the
    /// set is left as it was.
    fn resize(&mut self) -> (r: Result<(), AllocError>)
        requires
            old(self).wf(),
        ensures
            r is Ok ==> final(self).wf() && final(self)@ == old(self)@ && final(self).cap() == 2
                * old(self).cap() && final(self).seed() == old(self).seed(),
            r is Err ==> *final(self) == *old(self),
    {
        if self.capacity > usize::MAX / 2 {
            return Err(AllocError);
        }
        self.rehash(self.capacity * 2)
    }

    /// Moves every item to a fresh table of `new_cap` slots, which drops the
    /// `Deleted` markers. On `Err` the set is left as it was.
    fn rehash(&mut self, new_cap: usize) -> (r: Result<(), AllocError>)
        requires
            old(self).wf(),
            new_cap >= old(self).cap(),
        ensures
            r is Ok ==> final(self).wf() && final(self)@ == old(self)@ && final(self).cap() == new_cap
                && final(self).seed() == old(self).seed(),
            r is Err ==> *final(self) == *old(self),
    {
        let mut grown: HashSet<T> = match HashSet::empty_table(self.hasher, new_cap) {
            Ok(t) => t,
            Err(e) => return Err(e),
        };
        let ghost s = self.buckets@;
        let mut i: usize = 0;
        while i < self.capacity
            invariant
                self.wf(),
                s == self.buckets@,
                i <= self.capacity,
                grown.wf(),
                grown.cap() == new_cap,
                new_cap >= self.capacity,
                grown.seed() == self.seed(),
                grown.size <= i,
                grown@ == Set::new(|x: T| exists|k: int| 0 <= k < i && s[k] == Slot::Full(x)),
            decreases self.capacity - i,
        {
            match self.buckets.get(i) {
                Slot::Full(y) => {
                    grown.insert_no_grow(*y);
                    proof {
                        assert(grown@ =~= Set::new(|x: T| exists|k: int| 0 <= k < i + 1 && s[k] == Slot::Full(x))) by {
                            assert forall|x: T| #[trigger] grown@.contains(x) implies exists|k: int| 0 <= k < i + 1 && s[k] == Slot::Full(x) by {
                                if x == *y {
                                    assert(s[i as int] == Slot::Full(x));
                                }
                            }
                        }
                    }
                },
                _ => {
                    proof {
                        assert(grown@ =~= Set::new(|x: T| exists|k: int| 0 <= k < i + 1 && s[k] == Slot::Full(x))) by {
                            assert forall|x: T| (exists|k: int| 0 <= k < i + 1 && s[k] == Slot::Full(x)) implies #[trigger] grown@.contains(x) by {
                                let k = choose|k: int| 0 <= k < i + 1 && s[k] == Slot::Full(x);
                                assert(k != i);
                            }
                        }
                    }
                },
            }
            i = i + 1;
        }
        proof {
            assert(grown@ =~= self@);
        }
        *self = grown;
        Ok(())
    }

    /// Adds `item`; an item equal to one already held changes nothing. When
    /// every slot is full the table first doubles; if that growth cannot be
    /// allocated, `Err` is returned and the set is left as it was.
    pub fn insert(&mut self, item: T) -> (r: Result<(), AllocError>)
        requires
            old(self).wf(),
        ensures
            final(self).wf(),
            final(self).seed() == old(self).seed(),
            old(self)@.len() < old(self).cap() ==> r is Ok,
            r is Ok ==> final(self)@ == old(self)@.insert(item),
            final(self)@.finite(),
            r is Ok ==> final(self)@.len() == old(self)@.len() + if old(self)@.contains(item) {
                0int
            } else {
                1int
            },
            r is Ok ==> final(self).cap() == if old(self)@.len() < old(self).cap() {
                old(self).cap()
            } else {
                2 * old(self).cap()
            },
            r is Err ==> *final(self) == *old(self),
    {
        proof {
            self.lemma_view_len();
        }
        if self.size >= self.capacity {
            match self.resize() {
                Ok(()) => {},
                Err(e) => return Err(e),
            }
        } else if self.size + self.deleted >= self.capacity {
            // No `Empty` slot is left, so every miss walks the whole table:
            // clear the markers when the storage for that can be had.
            match self.rehash(self.capacity) {
                Ok(()) => {},
                Err(_) => {},
            }
        }
        proof {
            self.lemma_view_len();
        }
        self.insert_no_grow(item);
        proof {
            self.lemma_view_len();
        }
        Ok(())
    }

    /// Removes `item` if it is held; its slot is marked `Deleted`, so the
    /// items stored after it stay reachable.
    pub fn remove(&mut self, item: &T)
        requires
            old(self).wf(),
        ensures
            final(self).wf(),
            final(self)@ == old(self)@.remove(*item),
            final(self)@.finite(),
            final(self)@.len() == old(self)@.len() - if old(self)@.contains(*item) {
                1int
            } else {
                0int
            },
            final(self).cap() == old(self).cap(),
            final(self).seed() == old(self).seed(),
    {
        proof {
            self.lemma_view_len();
        }
        let (found, i) = self.probe(item);
        if !found {
            proof {
                assert(self@.remove(*item) =~= self@);
            }
            return;
        }
        let ghost s = self.buckets@;
        let ghost t = s.update(i as int, Slot::Deleted);
        proof {
            let n = s.len() as int;
            lemma_count_update(s, i as int, Slot::Deleted);
            assert forall|j: int| 0 <= j < n && (#[trigger] t[j]) is Full implies reachable(
                t,
                home(self.seed(), t[j]->Full_0, n),
                j,
            ) by {
                assert(s[j] is Full);
                lemma_reach_kept(s, i as int, Slot::Deleted, home(self.seed(), s[j]->Full_0, n), j);
            }
            assert forall|a: int, b: int|
                0 <= a < n && 0 <= b < n && #[trigger] t[a] is Full && #[trigger] t[b] is Full
                    && t[a]->Full_0 == t[b]->Full_0 implies a == b by {
                assert(s[a] is Full && s[b] is Full);
            }
            assert(items_in(t) =~= self@.remove(*item)) by {
                assert forall|x: T| items_in(t).contains(x) implies #[trigger] self@.remove(*item).contains(x) by {
                    let a = choose|a: int| 0 <= a < n && t[a] == Slot::Full(x);
                    assert(s[a] == Slot::Full(x));
                    assert(s[i as int] is Full && s[a] is Full);
                }
                assert forall|x: T| #[trigger] self@.remove(*item).contains(x) implies items_in(t).contains(x) by {
                    let a = choose|a: int| 0 <= a < n && s[a] == Slot::Full(x);
                    assert(t[a] == Slot::Full(x));
                }
            }
        }
        proof {
            self.lemma_view_len();
        }
        self.buckets.set(i, Slot::Deleted);
        self.size = self.size - 1;
        self.deleted = self.deleted + 1;
        proof {
            self.lemma_view_len();
        }
    }

    /// Empties every slot; the capacity stays.
    pub fn drain(&mut self)
        requires
            old(self).wf(),
        ensures
            final(self).wf(),
            final(self)@ == Set::<T>::empty(),
            final(self)@.len() == 0,
            final(self).cap() == old(self).cap(),
            final(self).seed() == old(self).seed(),
    {
        let mut i: usize = 0;
        while i < self.capacity
            invariant
                self.capacity == self.buckets@.len(),
                self.capacity > 0,
                i <= self.capacity,
                self.capacity == old(self).capacity,
                self.hasher == old(self).hasher,
                forall|k: int| 0 <= k < i ==> (#[trigger] self.buckets@[k]) is Empty,
            decreases self.capacity - i,
        {
            self.buckets.set(i, Slot::Empty);
            i = i + 1;
        }
        self.size = 0;
        self.deleted = 0;
        proof {
            lemma_count_zero(self.buckets@);
            assert(self@ =~= Set::<T>::empty());
        }
    }

    /// Whether the set holds no item.
    pub fn is_empty(&self) -> (r: bool)
        requires
            self.wf(),
        ensures
            self@.finite(),
            r == (self@.len() == 0),
            r == (self@ == Set::<T>::empty()),
    {
        proof {
            self.lemma_view_len();
            if self.size == 0 {
                assert(self@ =~= Set::<T>::empty());
            }
        }
        self.size == 0
    }

    /// The number of items held.
    pub fn len(&self) -> (r: usize)
        requires
            self.wf(),
        ensures
            self@.finite(),
            r == self@.len(),
    {
        proof {
            self.lemma_view_len();
        }
        self.size
    }

    /// The number of slots.
    pub fn capacity(&self) -> (r: usize)
        ensures
            r == self.cap(),
    {
        self.capacity
    }

    /// Appends to `out`, in storage order, each item of this set that is
    /// also (`want == true`) or not (`want == false`) in `filter`, or every
    /// item when there is no filter.
    fn push_items(&self, filter: Option<&HashSet<T>>, want: bool, out: &mut VecExtra<T>) -> (r: Result<
        (),
        AllocError,
    >)
        requires
            self.wf(),
            filter matches Some(f) ==> f.wf(),
            old(out)@.no_duplicates(),
            forall|x: T|
                #[trigger] old(out)@.contains(x) ==> !(self@.contains(x) && passes(filter, want, x)),
        ensures
            r is Ok ==> final(out)@.no_duplicates(),
            (forall|x: T| self@.contains(x) ==> !passes(filter, want, x)) ==> r is Ok && final(out)@ == old(
                out,
            )@,
            r is Ok ==> forall|x: T|
                #[trigger] final(out)@.contains(x) <==> (old(out)@.contains(x) || (self@.contains(x)
                    && passes(filter, want, x))),
    {
        let ghost s = self.buckets@;
        let ghost start = out@;
        let ghost none_pass = forall|x: T| self@.contains(x) ==> !passes(filter, want, x);
        let mut i: usize = 0;
        while i < self.capacity
            invariant
                self.wf(),
                filter matches Some(f) ==> f.wf(),
                none_pass == forall|x: T| self@.contains(x) ==> !passes(filter, want, x),
                none_pass ==> out@ == start,
                s == self.buckets@,
                i <= self.capacity,
                out@.no_duplicates(),
                forall|x: T|
                    #[trigger] start.contains(x) ==> !(self@.contains(x) && passes(filter, want, x)),
                forall|x: T|
                    #[trigger] out@.contains(x) <==> (start.contains(x) || ((exists|k: int|
                        0 <= k < i && s[k] == Slot::Full(x)) && passes(filter, want, x))),
            decreases self.capacity - i,
        {
            let ghost before = out@;
            if let Slot::Full(y) = self.buckets.get(i) {
                let keep = match filter {
                    Some(f) => f.contains(y) == want,
                    None => true,
                };
                assert(keep == passes(filter, want, *y));
                if keep {
                    proof {
                        assert(self@.contains(*y)) by {
                            assert(s[i as int] == Slot::Full(*y));
                        }
                        assert(!none_pass);
                        assert(!before.contains(*y)) by {
                            if before.contains(*y) {
                                if !start.contains(*y) {
                                    let k = choose|k: int| 0 <= k < i && s[k] == Slot::Full(*y);
                                    assert(s[k] is Full && s[i as int] is Full);
                                }
                            }
                        }
                    }
                    match out.try_push(*y) {
                        Ok(()) => {},
                        Err(e) => return Err(e),
                    }
                    proof {
                        assert forall|a: int, b: int|
                            0 <= a < out@.len() && 0 <= b < out@.len() && a != b implies out@[a]
                            != out@[b] by {
                            if a < before.len() && b < before.len() {
                                assert(before[a] != before[b]);
                            } else if a < before.len() {
                                assert(before.contains(before[a]));
                            } else if b < before.len() {
                                assert(before.contains(before[b]));
                            }
                        }
                    }
                }
                proof {
                    assert forall|x: T|
                        #[trigger] out@.contains(x) <==> (start.contains(x) || ((exists|k: int|
                            0 <= k < i + 1 && s[k] == Slot::Full(x)) && passes(filter, want, x))) by {
                        assert(s[i as int] == Slot::Full(*y));
                        if start.contains(x) {
                            assert(before.contains(x));
                            let j = choose|j: int| 0 <= j < before.len() && before[j] == x;
                            assert(out@[j] == x);
                        }
                        if out@.contains(x) && !start.contains(x) {
                            if x != *y || !keep {
                                let j = choose|j: int| 0 <= j < out@.len() && out@[j] == x;
                                if keep {
                                    assert(before.contains(x)) by {
                                        assert(before[j] == x);
                                    }
                                } else {
                                    assert(before.contains(x));
                                }
                                let k = choose|k: int| 0 <= k < i && s[k] == Slot::Full(x);
                                assert(0 <= k < i + 1 && s[k] == Slot::Full(x));
                            } else {
                                assert(0 <= i < i + 1 && s[i as int] == Slot::Full(x));
                            }
                        }
                        if (exists|k: int| 0 <= k < i + 1 && s[k] == Slot::Full(x)) && passes(filter, want, x) && !start.contains(x) {
                            let k = choose|k: int| 0 <= k < i + 1 && s[k] == Slot::Full(x);
                            if k == i {
                                if keep {
                                    assert(out@[out@.len() - 1] == x);
                                }
                            } else {
                                assert(before.contains(x));
                                let j = choose|j: int| 0 <= j < before.len() && before[j] == x;
                                assert(out@[j] == x);
                            }
                        }
                    }
                }
            } else {
                proof {
                    assert forall|x: T|
                        #[trigger] out@.contains(x) <==> (start.contains(x) || ((exists|k: int|
                            0 <= k < i + 1 && s[k] == Slot::Full(x)) && passes(filter, want, x))) by {
                        if exists|k: int| 0 <= k < i + 1 && s[k] == Slot::Full(x) {
                            let k = choose|k: int| 0 <= k < i + 1 && s[k] == Slot::Full(x);
                            assert(k != i);
                        }
                    }
                }
            }
            i = i + 1;
        }
        Ok(())
    }

    /// The items of this set that are not in `other`, or `Err` when the
    /// result cannot be allocated.
    pub fn difference(&self, other: &HashSet<T>) -> (r: Result<VecExtra<T>, AllocError>)
        requires
            self.wf(),
            other.wf(),
        ensures
            r matches Ok(v) ==> v@.no_duplicates() && v@.to_set() == self@.difference(other@),
            self@.subset_of(other@) ==> (r matches Ok(v) && v@.len() == 0),
    {
        let mut out = VecExtra::new();
        match self.push_items(Some(other), false, &mut out) {
            Ok(()) => {},
            Err(e) => return Err(e),
        }
        proof {
            assert(out@.to_set() =~= self@.difference(other@));
        }
        Ok(out)
    }

    /// Every item of either set, each once, or `Err` when the result cannot
    /// be allocated.
    pub fn union(&self, other: &HashSet<T>) -> (r: Result<VecExtra<T>, AllocError>)
        requires
            self.wf(),
            other.wf(),
        ensures
            r matches Ok(v) ==> v@.no_duplicates() && v@.to_set() == self@.union(other@) && v@.len()
                <= self@.len() + other@.len(),
            self@ == Set::<T>::empty() && other@ == Set::<T>::empty() ==> (r matches Ok(v) && v@.len() == 0),
    {
        let mut out = VecExtra::new();
        match self.push_items(None, true, &mut out) {
            Ok(()) => {},
            Err(e) => return Err(e),
        }
        match other.push_items(Some(self), false, &mut out) {
            Ok(()) => {},
            Err(e) => return Err(e),
        }
        proof {
            assert(out@.to_set() =~= self@.union(other@));
            self.lemma_view_len();
            other.lemma_view_len();
            lemma_union_law(self@, other@, out@);
        }
        Ok(out)
    }

    /// The items held by both sets, or `Err` when the result cannot be
    /// allocated.
    pub fn intersection(&self, other: &HashSet<T>) -> (r: Result<VecExtra<T>, AllocError>)
        requires
            self.wf(),
            other.wf(),
        ensures
            r matches Ok(v) ==> v@.no_duplicates() && v@.to_set() == self@.intersect(other@),
            self@.disjoint(other@) ==> (r matches Ok(v) && v@.len() == 0),
    {
        let mut out = VecExtra::new();
        match self.push_items(Some(other), true, &mut out) {
            Ok(()) => {},
            Err(e) => return Err(e),
        }
        proof {
            assert(out@.to_set() =~= self@.intersect(other@));
        }
        Ok(out)
    }

    /// The items held by exactly one of the two sets, or `Err` when the
    /// result cannot be allocated.
    pub fn symmetric_difference(&self, other: &HashSet<T>) -> (r: Result<VecExtra<T>, AllocError>)
        requires
            self.wf(),
            other.wf(),
        ensures
            r matches Ok(v) ==> v@.no_duplicates() && v@.to_set() == self@.difference(other@).union(
                other@.difference(self@),
            ),
            self@ == other@ ==> (r matches Ok(v) && v@.len() == 0),
    {
        let mut out = VecExtra::new();
        match self.push_items(Some(other), false, &mut out) {
            Ok(()) => {},
            Err(e) => return Err(e),
        }
        match other.push_items(Some(self), false, &mut out) {
            Ok(()) => {},
            Err(e) => return Err(e),
        }
        proof {
            assert(out@.to_set() =~= self@.difference(other@).union(other@.difference(self@)));
        }
        Ok(out)
    }

    /// A set holding the items of `items`, with one slot per item (at least
    /// one), or `Err` when storage cannot be allocated.
    pub fn try_from_slice(items: &[T]) -> (r: Result<Self, AllocError>)
        ensures
            r matches Ok(s) ==> s.wf() && s@ == items@.to_set() && s.seed() == crate::djb2::DJB2_SEED
                && s.cap() == if items@.len() == 0 {
                1
            } else {
                items@.len()
            },
    {
        let capacity = if items.len() == 0 {
            1
        } else {
            items.len()
        };
        let mut set: HashSet<T> = match HashSet::with_capacity(capacity) {
            Ok(s) => s,
            Err(e) => return Err(e),
        };
        let mut i: usize = 0;
        while i < items.len()
            invariant
                i <= items@.len(),
                set.wf(),
                set.seed() == crate::djb2::DJB2_SEED,
                set.cap() == capacity,
                items@.len() <= capacity,
                set@ == items@.subrange(0, i as int).to_set(),
            decreases items@.len() - i,
        {
            proof {
                set.lemma_view_len();
                items@.subrange(0, i as int).lemma_cardinality_of_set();
                assert(set@.len() < set.cap());
            }
            match set.insert(items[i]) {
                Ok(()) => {},
                Err(e) => return Err(e),
            }
            proof {
                assert(items@.subrange(0, i + 1) =~= items@.subrange(0, i as int).push(items@[i as int]));
                items@.subrange(0, i as int).lemma_push_to_set_commute(items@[i as int]);
            }
            i = i + 1;
        }
        proof {
            assert(items@.subrange(0, i as int) =~= items@);
        }
        Ok(set)
    }

    /// A copy of the set, or `Err` when the copy's storage cannot be
    /// allocated.
    pub fn try_clone(&self) -> (r: Result<Self, AllocError>)
        requires
            self.wf(),
        ensures
            r matches Ok(c) ==> c.wf() && c@ == self@ && c.slots() == self.slots() && c.seed() == self.seed(),
    {
        let buckets = match self.buckets.try_clone() {
            Ok(b) => b,
            Err(e) => return Err(e),
        };
        Ok(HashSet { buckets, capacity: self.capacity, size: self.size, deleted: self.deleted, hasher: self.hasher })
    }

    /// A traversal of the held items in storage order.
    pub fn iter(&self) -> (r: HashSetIter<'_, T>)
        requires
            self.wf(),
        ensures
            r.wf(),
            r.slots() == self.slots(),
            r.pos() == 0,
            items_in(r.slots()) == self@,
            no_dup_slots(r.slots()),
    {
        HashSetIter { hashset: self, current_pos: 0 }
    }

    /// Whether `item` is in the set. Probing reads the table only.
    pub fn contains(&self, item: &T) -> (r: bool)
        requires
            self.wf(),
        ensures
            r == self@.contains(*item),
    {
        let (found, i) = self.probe(item);
        proof {
            if found {
                assert(self.buckets@[i as int] == Slot::Full(*item));
            }
        }
        found
    }
}

/// Turning a slot from non-`Empty` into anything non-`Empty`, or from
/// `Empty` into `Full`, keeps every probe chain unbroken.
proof fn lemma_reach_kept<T>(s: Seq<Slot<T>>, i: int, v: Slot<T>, h: int, j: int)
    requires
        0 <= i < s.len(),
        0 <= h < s.len(),
        0 <= j < s.len(),
        !(v is Empty),
        reachable(s, h, j),
    ensures
        reachable(s.update(i, v), h, j),
{
    let t = s.update(i, v);
    let n = s.len() as int;
    assert forall|k: int| 0 <= k < offset_of(h, j, n) implies !(#[trigger] t[at_offset(h, k, n)] is Empty) by {
        assert(!(s[at_offset(h, k, n)] is Empty));
    }
}

/// A traversal of the items of a set in storage order. It borrows the set,
/// which cannot change while the traversal lasts.
pub struct HashSetIter<'a, T> {
    hashset: &'a HashSet<T>,
    current_pos: usize,
}

impl<'a, T: SetItem> HashSetIter<'a, T> {
    /// The slots being traversed.
    pub closed spec fn slots(&self) -> Seq<Slot<T>> {
        self.hashset.slots()
    }

    /// The first slot not yet visited.
    pub closed spec fn pos(&self) -> nat {
        self.current_pos as nat
    }

    /// The position is within the table.
    pub closed spec fn wf(&self) -> bool {
        self.current_pos <= self.hashset.capacity && self.hashset.wf()
    }

    /// The next held item at or after the current position, or `None` once
    /// every slot has been visited.
    pub fn next(&mut self) -> (r: Option<&'a T>)
        requires
            old(self).wf(),
        ensures
            final(self).wf(),
            final(self).slots() == old(self).slots(),
            old(self).pos() <= final(self).pos() <= old(self).slots().len(),
            forall|k: int|
                old(self).pos() <= k < final(self).pos() - (if r is Some { 1int } else { 0int })
                    ==> !(#[trigger] old(self).slots()[k] is Full),
            r is Some ==> final(self).pos() > old(self).pos(),
            r matches Some(x) ==> old(self).slots()[final(self).pos() - 1] == Slot::Full(*x),
            r is None ==> final(self).pos() == old(self).slots().len(),
    {
        while self.current_pos < self.hashset.capacity
            invariant
                self.wf(),
                self.hashset == old(self).hashset,
                old(self).current_pos <= self.current_pos,
                forall|k: int|
                    old(self).pos() <= k < self.current_pos ==> !(#[trigger] old(self).slots()[k] is Full),
            decreases self.hashset.capacity - self.current_pos,
        {
            let i = self.current_pos;
            self.current_pos = i + 1;
            match self.hashset.buckets.get(i) {
                Slot::Full(item) => {
                    return Some(item);
                },
                _ => {},
            }
        }
        None
    }
}

/// Whether `x` gets through a filter that asks for membership in `filter`
/// to be `want`; everything gets through no filter.
spec fn passes<T: SetItem>(filter: Option<&HashSet<T>>, want: bool, x: T) -> bool {
    filter matches Some(f) ==> f@.contains(x) == want
}

proof fn lemma_full_count<T>(s: Seq<Slot<T>>)
    requires
        forall|j: int| 0 <= j < s.len() ==> (#[trigger] s[j]) is Full,
    ensures
        count_full(s) == s.len(),
    decreases s.len(),
{
    if s.len() > 0 {
        lemma_full_count(s.drop_last());
    }
}

} // verus!
