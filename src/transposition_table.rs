//! A cache of state values keyed by the states' fingerprints.
//!
//! Each fingerprint has exactly one slot, `fingerprint % len`, and there is no second probe. A new value replaces the
//! slot's occupant (whatever state it belongs to) when its quality is at least the occupant's. Entries that are not read
//! for more than `max_age` aging sweeps are removed.

use vstd::prelude::*;

verus! {

/// The fingerprint that no state may have: it is reserved for unused slots.
pub const UNUSED: u64 = 0xffff_ffff_ffff_ffff;

/// A live entry of the table.
pub struct Slot<V> {
    /// Fingerprint of the state
    pub fingerprint: u64,
    /// Value of the state
    pub value: V,
    /// Plies of search behind the value
    pub quality: i16,
    /// Aging sweeps since the entry was last read or written
    pub age: i16,
}

/// One operation on a table, for stating what a sequence of operations does.
pub enum TableOp<V> {
    /// `check(fingerprint, min_q)`
    Check(u64, i16),
    /// `update(fingerprint, value, quality)`
    Update(u64, V, i16),
    /// `set(fingerprint, value, quality)`
    Overwrite(u64, V, i16),
    /// `age()`
    Age,
}

/// A map of game state values referenced by the states' fingerprints, with room for one entry per slot.
pub struct TranspositionTable<V> {
    table: Vec<Option<Slot<V>>>,
    max_age: i16,
}

impl<V> TranspositionTable<V> {
    /// The slots of the table; `None` is a vacant slot.
    pub closed spec fn slots(&self) -> Seq<Option<Slot<V>>> {
        self.table@
    }

    /// The number of sweeps an entry survives without being read.
    pub closed spec fn max_age_limit(&self) -> i16 {
        self.max_age
    }

    /// The table is well formed.
    pub open spec fn wf(&self) -> bool {
        Self::slots_wf(self.slots(), self.max_age_limit())
    }

    /// At least one slot, a positive maximum age, and every entry in the slot of its fingerprint, with a non-negative
    /// quality and an age of at most `max_age`.
    pub open spec fn slots_wf(slots: Seq<Option<Slot<V>>>, max_age: i16) -> bool {
        &&& slots.len() > 0
        &&& max_age > 0
        &&& forall|j: int|
            0 <= j < slots.len() && (#[trigger] slots[j]) is Some ==> {
                let s = slots[j]->Some_0;
                &&& s.fingerprint != UNUSED
                &&& 0 <= s.quality
                &&& 0 <= s.age <= max_age
                &&& Self::index_of(slots, s.fingerprint) == j
            }
    }

    /// The slot of a fingerprint.
    pub open spec fn index_of(slots: Seq<Option<Slot<V>>>, fingerprint: u64) -> int {
        fingerprint as int % slots.len() as int
    }

    /// The slot of `fingerprint` holds an entry for it.
    pub open spec fn holds(slots: Seq<Option<Slot<V>>>, fingerprint: u64) -> bool {
        let e = slots[Self::index_of(slots, fingerprint)];
        e is Some && e->Some_0.fingerprint == fingerprint
    }

    /// What `check(fingerprint, min_q)` returns on these slots.
    pub open spec fn lookup(slots: Seq<Option<Slot<V>>>, fingerprint: u64, min_q: i16) -> Option<(V, i16)> {
        let s = slots[Self::index_of(slots, fingerprint)]->Some_0;
        if !Self::holds(slots, fingerprint) || (min_q >= 0 && s.quality < min_q) {
            None
        } else {
            Some((s.value, s.quality))
        }
    }

    /// The slots after `check(fingerprint, _)`: a found entry has its age reset.
    pub open spec fn after_check(slots: Seq<Option<Slot<V>>>, fingerprint: u64) -> Seq<Option<Slot<V>>> {
        let i = Self::index_of(slots, fingerprint);
        let s = slots[i]->Some_0;
        if Self::holds(slots, fingerprint) {
            slots.update(i, Some(Slot { fingerprint: s.fingerprint, value: s.value, quality: s.quality, age: 0 }))
        } else {
            slots
        }
    }

    /// The slots after `set(fingerprint, value, quality)`.
    pub open spec fn after_set(slots: Seq<Option<Slot<V>>>, fingerprint: u64, value: V, quality: i16) -> Seq<
        Option<Slot<V>>,
    > {
        slots.update(
            Self::index_of(slots, fingerprint),
            Some(Slot { fingerprint, value, quality, age: 0 }),
        )
    }

    /// `update(fingerprint, _, quality)` writes its entry: the slot is vacant or its quality is at most `quality`.
    pub open spec fn update_writes(slots: Seq<Option<Slot<V>>>, fingerprint: u64, quality: i16) -> bool {
        let e = slots[Self::index_of(slots, fingerprint)];
        e is None || quality >= e->Some_0.quality
    }

    /// The slots after `update(fingerprint, value, quality)`.
    pub open spec fn after_update(slots: Seq<Option<Slot<V>>>, fingerprint: u64, value: V, quality: i16) -> Seq<
        Option<Slot<V>>,
    > {
        if Self::update_writes(slots, fingerprint, quality) {
            Self::after_set(slots, fingerprint, value, quality)
        } else {
            slots
        }
    }

    /// A slot after one aging sweep.
    pub open spec fn aged(e: Option<Slot<V>>, max_age: i16) -> Option<Slot<V>> {
        match e {
            None => None,
            Some(s) => if s.age >= max_age {
                None
            } else {
                Some(Slot { fingerprint: s.fingerprint, value: s.value, quality: s.quality, age: (s.age + 1) as i16 })
            },
        }
    }

    /// The slots after `age()`.
    pub open spec fn after_age(slots: Seq<Option<Slot<V>>>, max_age: i16) -> Seq<Option<Slot<V>>> {
        Seq::new(slots.len(), |j: int| Self::aged(slots[j], max_age))
    }
}

impl<V> TranspositionTable<V> {
    /// The slots after one operation.
    pub open spec fn after_op(slots: Seq<Option<Slot<V>>>, max_age: i16, op: TableOp<V>) -> Seq<Option<Slot<V>>> {
        match op {
            TableOp::Check(f, _) => Self::after_check(slots, f),
            TableOp::Update(f, v, q) => Self::after_update(slots, f, v, q),
            TableOp::Overwrite(f, v, q) => Self::after_set(slots, f, v, q),
            TableOp::Age => Self::after_age(slots, max_age),
        }
    }

    /// The slots after a sequence of operations, first to last.
    pub open spec fn after_ops(slots: Seq<Option<Slot<V>>>, max_age: i16, ops: Seq<TableOp<V>>) -> Seq<
        Option<Slot<V>>,
    >
        decreases ops.len(),
    {
        if ops.len() == 0 {
            slots
        } else {
            Self::after_ops(Self::after_op(slots, max_age, ops[0]), max_age, ops.drop_first())
        }
    }

    /// An entry for `fingerprint` of quality `quality`, now `age` sweeps old in a table of `len` slots, outlives `ops`:
    /// none of them is a `set` to its slot or an `update` of its slot with a quality of at least `quality`, and it is
    /// never more than `max_age` sweeps without a `check` of `fingerprint`.
    pub open spec fn outlives(len: nat, max_age: i16, fingerprint: u64, quality: i16, age: i16, ops: Seq<TableOp<V>>) -> bool
        decreases ops.len(),
    {
        if ops.len() == 0 {
            true
        } else {
            let i = fingerprint as int % len as int;
            let rest = ops.drop_first();
            match ops[0] {
                TableOp::Check(g, _) => Self::outlives(
                    len,
                    max_age,
                    fingerprint,
                    quality,
                    if g == fingerprint { 0 } else { age },
                    rest,
                ),
                TableOp::Update(g, _, q) => !(g as int % len as int == i && q >= quality) && Self::outlives(
                    len,
                    max_age,
                    fingerprint,
                    quality,
                    age,
                    rest,
                ),
                TableOp::Overwrite(g, _, _) => g as int % len as int != i && Self::outlives(
                    len,
                    max_age,
                    fingerprint,
                    quality,
                    age,
                    rest,
                ),
                TableOp::Age => age < max_age && Self::outlives(
                    len,
                    max_age,
                    fingerprint,
                    quality,
                    (age + 1) as i16,
                    rest,
                ),
            }
        }
    }

    /// `n` rounds of `age()` followed by `check(fingerprint, -1)`.
    pub open spec fn age_and_check(fingerprint: u64, n: nat) -> Seq<TableOp<V>>
        decreases n,
    {
        if n == 0 {
            Seq::empty()
        } else {
            seq![TableOp::Age, TableOp::Check(fingerprint, -1i16)] + Self::age_and_check(fingerprint, (n - 1) as nat)
        }
    }

    /// `n` calls of `age()`.
    pub open spec fn sweeps(n: nat) -> Seq<TableOp<V>>
        decreases n,
    {
        if n == 0 {
            Seq::empty()
        } else {
            seq![TableOp::Age] + Self::sweeps((n - 1) as nat)
        }
    }

    /// `set(f, v, q)` overwrites the slot of `f`, whatever it held, with a fresh entry of age 0, and touches no other
    /// slot.
    pub proof fn lemma_set_overwrites(t: Self, f: u64, v: V, q: i16)
        requires
            t.wf(),
            f != UNUSED,
            q >= 0,
        ensures
            ({
                let after = Self::after_set(t.slots(), f, v, q);
                let i = Self::index_of(t.slots(), f);
                &&& after.len() == t.slots().len()
                &&& after[i] == Some(Slot { fingerprint: f, value: v, quality: q, age: 0 })
                &&& forall|j: int| 0 <= j < after.len() && j != i ==> after[j] == t.slots()[j]
            }),
    {
    }

    /// `update(f, v, q)` with `q` below the quality of the entry in the slot of `f` changes nothing, whether that entry
    /// is for `f` or for another fingerprint.
    pub proof fn lemma_update_below_incumbent_is_noop(t: Self, f: u64, v: V, q: i16)
        requires
            t.wf(),
            f != UNUSED,
            q >= 0,
            t.slots()[Self::index_of(t.slots(), f)] is Some,
            q < t.slots()[Self::index_of(t.slots(), f)]->Some_0.quality,
        ensures
            Self::after_update(t.slots(), f, v, q) == t.slots(),
    {
    }

    /// `set(f, v, q)` then `check(f, -1)` gives `(v, q)`.
    pub proof fn lemma_set_then_check(t: Self, f: u64, v: V, q: i16)
        requires
            t.wf(),
            f != UNUSED,
            q >= 0,
        ensures
            Self::lookup(Self::after_set(t.slots(), f, v, q), f, -1i16) == Some((v, q)),
    {
    }

    /// `update(f, v, q)` on a vacant slot then `check(f, -1)` gives `(v, q)`.
    pub proof fn lemma_update_vacant_then_check(t: Self, f: u64, v: V, q: i16)
        requires
            t.wf(),
            f != UNUSED,
            q >= 0,
            t.slots()[Self::index_of(t.slots(), f)] is None,
        ensures
            Self::lookup(Self::after_update(t.slots(), f, v, q), f, -1i16) == Some((v, q)),
    {
    }

    /// An entry that outlives a sequence of operations is still there, with its value and quality, after them.
    proof fn lemma_entry_outlives(
        slots: Seq<Option<Slot<V>>>,
        max_age: i16,
        f: u64,
        v: V,
        q: i16,
        age: i16,
        ops: Seq<TableOp<V>>,
    )
        requires
            slots.len() > 0,
            max_age > 0,
            0 <= age <= max_age,
            slots[Self::index_of(slots, f)] == Some(Slot { fingerprint: f, value: v, quality: q, age }),
            Self::outlives(slots.len(), max_age, f, q, age, ops),
        ensures
            Self::after_ops(slots, max_age, ops).len() == slots.len(),
            Self::lookup(Self::after_ops(slots, max_age, ops), f, -1i16) == Some((v, q)),
        decreases ops.len(),
    {
        let i = Self::index_of(slots, f);
        if ops.len() > 0 {
            let next = Self::after_op(slots, max_age, ops[0]);
            let rest = ops.drop_first();
            match ops[0] {
                TableOp::Check(g, _) => {
                    if g == f {
                        assert(next[i] == Some(Slot { fingerprint: f, value: v, quality: q, age: 0 }));
                        Self::lemma_entry_outlives(next, max_age, f, v, q, 0, rest);
                    } else {
                        assert(next[i] == slots[i]);
                        Self::lemma_entry_outlives(next, max_age, f, v, q, age, rest);
                    }
                },
                TableOp::Update(g, w, r) => {
                    assert(next[i] == slots[i]);
                    Self::lemma_entry_outlives(next, max_age, f, v, q, age, rest);
                },
                TableOp::Overwrite(g, w, r) => {
                    assert(next[i] == slots[i]);
                    Self::lemma_entry_outlives(next, max_age, f, v, q, age, rest);
                },
                TableOp::Age => {
                    let older = (age + 1) as i16;
                    assert(next[i] == Some(Slot { fingerprint: f, value: v, quality: q, age: older }));
                    Self::lemma_entry_outlives(next, max_age, f, v, q, older, rest);
                },
            }
        }
    }

    /// The most recent write is what is read: after `set(f, v, q)`, or an `update(f, v, q)` that was stored, a later
    /// `check(f, -1)` returns `(v, q)` unless a write to the same slot replaced the entry (a `set`, or an `update` with
    /// a quality of at least `q`) or more than `max_age` sweeps passed without a `check` of `f`.
    pub proof fn lemma_latest_write_is_read(t: Self, f: u64, v: V, q: i16, ops: Seq<TableOp<V>>)
        requires
            t.wf(),
            f != UNUSED,
            q >= 0,
            Self::outlives(t.slots().len(), t.max_age_limit(), f, q, 0, ops),
        ensures
            Self::lookup(Self::after_ops(Self::after_set(t.slots(), f, v, q), t.max_age_limit(), ops), f, -1i16) == Some(
                (v, q),
            ),
            Self::update_writes(t.slots(), f, q) ==> Self::lookup(
                Self::after_ops(Self::after_update(t.slots(), f, v, q), t.max_age_limit(), ops),
                f,
                -1i16,
            ) == Some((v, q)),
    {
        let written = Self::after_set(t.slots(), f, v, q);
        Self::lemma_entry_outlives(written, t.max_age_limit(), f, v, q, 0, ops);
    }

    /// An entry that is read after every sweep stays: `max_age` rounds of `age()` and `check(f, -1)` keep it.
    proof fn lemma_read_entry_stays(slots: Seq<Option<Slot<V>>>, max_age: i16, f: u64, v: V, q: i16, n: nat)
        requires
            slots.len() > 0,
            max_age > 0,
            slots[Self::index_of(slots, f)] == Some(Slot { fingerprint: f, value: v, quality: q, age: 0 }),
        ensures
            Self::after_ops(slots, max_age, Self::age_and_check(f, n)).len() == slots.len(),
            Self::after_ops(slots, max_age, Self::age_and_check(f, n))[Self::index_of(slots, f)] == Some(
                Slot { fingerprint: f, value: v, quality: q, age: 0 },
            ),
        decreases n,
    {
        if n > 0 {
            let i = Self::index_of(slots, f);
            let ops = Self::age_and_check(f, n);
            let rest = Self::age_and_check(f, (n - 1) as nat);
            let aged = Self::after_age(slots, max_age);
            let read = Self::after_check(aged, f);
            assert(ops[0] == TableOp::<V>::Age);
            assert(ops.drop_first()[0] == TableOp::<V>::Check(f, -1i16));
            assert(ops.drop_first().drop_first() =~= rest);
            assert(aged[i] == Some(Slot { fingerprint: f, value: v, quality: q, age: 1 }));
            assert(read[i] == Some(Slot { fingerprint: f, value: v, quality: q, age: 0 }));
            assert(Self::after_ops(slots, max_age, ops) == Self::after_ops(aged, max_age, ops.drop_first()));
            assert(Self::after_ops(aged, max_age, ops.drop_first()) == Self::after_ops(read, max_age, rest));
            Self::lemma_read_entry_stays(read, max_age, f, v, q, (n - 1) as nat);
        }
    }

    /// After `n` sweeps with no read, a slot whose entry had age `a` with `a + n > max_age` is vacant, as is a slot
    /// that was vacant.
    proof fn lemma_unread_entry_leaves(slots: Seq<Option<Slot<V>>>, max_age: i16, i: int, n: nat)
        requires
            0 <= i < slots.len(),
            max_age > 0,
            slots[i] is None || (0 <= slots[i]->Some_0.age <= max_age && slots[i]->Some_0.age + n > max_age),
        ensures
            Self::after_ops(slots, max_age, Self::sweeps(n)).len() == slots.len(),
            Self::after_ops(slots, max_age, Self::sweeps(n))[i] is None,
        decreases n,
    {
        if n > 0 {
            let ops = Self::sweeps(n);
            let aged = Self::after_age(slots, max_age);
            assert(ops[0] == TableOp::<V>::Age);
            assert(ops.drop_first() =~= Self::sweeps((n - 1) as nat));
            Self::lemma_unread_entry_leaves(aged, max_age, i, (n - 1) as nat);
        } else {
            assert(slots[i] is None);
        }
    }

    /// Aging an entry that is read: after `set(f, v, q)` and `max_age` rounds of `age()` then `check(f, -1)`, the entry
    /// is still found; `max_age + 1` further sweeps without a read remove it.
    pub proof fn lemma_unread_entry_ages_out(t: Self, f: u64, v: V, q: i16)
        requires
            t.wf(),
            f != UNUSED,
            q >= 0,
        ensures
            ({
                let m = t.max_age_limit();
                let read = Self::after_ops(Self::after_set(t.slots(), f, v, q), m, Self::age_and_check(f, m as nat));
                &&& Self::lookup(read, f, -1i16) == Some((v, q))
                &&& Self::lookup(Self::after_ops(read, m, Self::sweeps((m + 1) as nat)), f, -1i16) is None
            }),
    {
        let m = t.max_age_limit();
        let written = Self::after_set(t.slots(), f, v, q);
        let i = Self::index_of(t.slots(), f);
        Self::lemma_read_entry_stays(written, m, f, v, q, m as nat);
        let read = Self::after_ops(written, m, Self::age_and_check(f, m as nat));
        Self::lemma_unread_entry_leaves(read, m, i, (m + 1) as nat);
    }
}

impl<V: Copy> TranspositionTable<V> {
    /// Creates a table of `size` vacant slots whose entries survive `max_age` sweeps without being read.
    pub fn new(size: usize, max_age: i16) -> (r: Self)
        requires
            size > 0,
            max_age > 0,
        ensures
            r.wf(),
            r.slots().len() == size,
            r.max_age_limit() == max_age,
            forall|j: int| 0 <= j < size ==> r.slots()[j] is None,
    {
        let mut table: Vec<Option<Slot<V>>> = Vec::new();
        while table.len() < size
            invariant
                table@.len() <= size,
                forall|j: int| 0 <= j < table@.len() ==> table@[j] is None,
            decreases size - table@.len(),
        {
            table.push(None);
        }
        TranspositionTable { table, max_age }
    }

    /// Returns the value and quality stored for `fingerprint`, if any and if the quality is at least `min_q`; a
    /// negative `min_q` accepts any quality. A found entry has its age reset, even when its quality is too low.
    pub fn check(&mut self, fingerprint: u64, min_q: i16) -> (r: Option<(V, i16)>)
        requires
            old(self).wf(),
            fingerprint != UNUSED,
        ensures
            final(self).wf(),
            final(self).max_age_limit() == old(self).max_age_limit(),
            final(self).slots() == Self::after_check(old(self).slots(), fingerprint),
            r == Self::lookup(old(self).slots(), fingerprint, min_q),
    {
        let i = self.find(fingerprint);
        let (value, quality) = match &self.table[i] {
            Some(e) => {
                if e.fingerprint != fingerprint {
                    return None;
                }
                (e.value, e.quality)
            },
            None => {
                return None;
            },
        };
        self.table.set(i, Some(Slot { fingerprint, value, quality, age: 0 }));
        if min_q >= 0 && quality < min_q {
            return None;
        }
        Some((value, quality))
    }

    /// Stores the entry if the slot of `fingerprint` is vacant or holds a quality of at most `quality`, whichever
    /// state that slot belongs to.
    pub fn update(&mut self, fingerprint: u64, value: V, quality: i16)
        requires
            old(self).wf(),
            fingerprint != UNUSED,
            quality >= 0,
        ensures
            final(self).wf(),
            final(self).max_age_limit() == old(self).max_age_limit(),
            final(self).slots() == Self::after_update(old(self).slots(), fingerprint, value, quality),
    {
        let i = self.find(fingerprint);
        let writes = match &self.table[i] {
            None => true,
            Some(e) => quality >= e.quality,
        };
        if writes {
            self.table.set(i, Some(Slot { fingerprint, value, quality, age: 0 }));
        }
    }

    /// Stores the entry whatever the slot holds.
    pub fn set(&mut self, fingerprint: u64, value: V, quality: i16)
        requires
            old(self).wf(),
            fingerprint != UNUSED,
            quality >= 0,
        ensures
            final(self).wf(),
            final(self).max_age_limit() == old(self).max_age_limit(),
            final(self).slots() == Self::after_set(old(self).slots(), fingerprint, value, quality),
    {
        let i = self.find(fingerprint);
        self.table.set(i, Some(Slot { fingerprint, value, quality, age: 0 }));
    }

    /// Adds one to the age of every entry and removes those whose age then exceeds the maximum.
    pub fn age(&mut self)
        requires
            old(self).wf(),
        ensures
            final(self).wf(),
            final(self).max_age_limit() == old(self).max_age_limit(),
            final(self).slots() == Self::after_age(old(self).slots(), old(self).max_age_limit()),
    {
        let ghost before = self.table@;
        let n = self.table.len();
        let mut j: usize = 0;
        while j < n
            invariant
                n == self.table@.len(),
                before.len() == n,
                j <= n,
                self.max_age == old(self).max_age,
                Self::slots_wf(before, self.max_age),
                forall|k: int| 0 <= k < j ==> self.table@[k] == Self::aged(before[k], self.max_age),
                forall|k: int| j <= k < n ==> self.table@[k] == before[k],
            decreases n - j,
        {
            let next = match &self.table[j] {
                None => None,
                Some(e) => {
                    if e.age >= self.max_age {
                        None
                    } else {
                        Some(Slot { fingerprint: e.fingerprint, value: e.value, quality: e.quality, age: e.age + 1 })
                    }
                },
            };
            self.table.set(j, next);
            j = j + 1;
        }
        assert(self.table@ =~= Self::after_age(before, self.max_age));
    }

    /// Returns the number of slots.
    pub fn len(&self) -> (r: usize)
        ensures
            r == self.slots().len(),
    {
        self.table.len()
    }

    /// Returns the number of sweeps an entry survives without being read.
    pub fn max_age(&self) -> (r: i16)
        ensures
            r == self.max_age_limit(),
    {
        self.max_age
    }

    /// The slot of `fingerprint`.
    fn find(&self, fingerprint: u64) -> (i: usize)
        requires
            self.table@.len() > 0,
        ensures
            i == Self::index_of(self.slots(), fingerprint),
            i < self.table@.len(),
    {
        (fingerprint % (self.table.len() as u64)) as usize
    }
}

} // verus!
