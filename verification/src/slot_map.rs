//! The arena: a slot map holding items in indexed slots, with an occupancy
//! bitmap (one bit per slot, most-significant bit first) that tracks which
//! indices are free for reuse.

use vstd::prelude::*;

verus! {

/// A single storage position holding zero or one item.
#[derive(Debug)]
pub struct Slot<T> {
    item: Option<T>,
}

impl<T> View for Slot<T> {
    type V = Option<T>;

    closed spec fn view(&self) -> Option<T> {
        self.item
    }
}

impl<T> Slot<T> {
    fn new(item: T) -> (s: Self)
        ensures
            s@ == Some(item),
    {
        Self { item: Some(item) }
    }

    /// Clear this slot
    fn clear(&mut self) -> (r: Option<T>)
        ensures
            r == old(self)@,
            final(self)@ is None,
    {
        self.item.take()
    }

    /// Set the value of this slot
    fn set(&mut self, item: T)
        ensures
            final(self)@ == Some(item),
    {
        self.item = Some(item);
    }
}

/// An opaque handle naming a slot by integer index.
#[derive(Debug, Clone, Copy, Hash, PartialEq, Eq, Structural)]
pub struct SlotKey {
    index: usize,
}

impl View for SlotKey {
    type V = int;

    closed spec fn view(&self) -> int {
        self.index as int
    }
}

impl SlotKey {
    pub(crate) fn new(index: usize) -> (k: Self)
        ensures
            k@ == index,
    {
        Self { index }
    }
}

/// How many of the slots are occupied.
pub open spec fn occupied_in<T>(s: Seq<Option<T>>) -> nat
    decreases s.len(),
{
    if s.len() == 0 {
        0
    } else {
        occupied_in(s.drop_last()) + (if s.last() is Some {
            1nat
        } else {
            0nat
        })
    }
}

/// Whether bit `p` of `w`, counted from the most significant bit down, is
/// zero, which marks slot `64 * chunk + p` free.
pub open spec fn bit_free(w: u64, p: int) -> bool
    recommends
        0 <= p < 64,
{
    (w >> ((63 - p) as u64)) & 1u64 == 0u64
}

proof fn lemma_occupied_push<T>(s: Seq<Option<T>>, v: Option<T>)
    ensures
        occupied_in(s.push(v)) == occupied_in(s) + (if v is Some {
            1nat
        } else {
            0nat
        }),
{
    assert(s.push(v).drop_last() =~= s);
    assert(s.push(v).last() == v);
}

proof fn lemma_occupied_update<T>(s: Seq<Option<T>>, i: int, v: Option<T>)
    requires
        0 <= i < s.len(),
    ensures
        occupied_in(s.update(i, v)) + (if s[i] is Some {
            1nat
        } else {
            0nat
        }) == occupied_in(s) + (if v is Some {
            1nat
        } else {
            0nat
        }),
    decreases s.len(),
{
    if i == s.len() - 1 {
        assert(s.update(i, v).drop_last() =~= s.drop_last());
        assert(s.update(i, v).last() == v);
    } else {
        assert(s.update(i, v).drop_last() =~= s.drop_last().update(i, v));
        assert(s.update(i, v).last() == s.last());
        lemma_occupied_update(s.drop_last(), i, v);
    }
}

proof fn lemma_occupied_bounds<T>(s: Seq<Option<T>>)
    ensures
        occupied_in(s) <= s.len(),
        occupied_in(s) == s.len() <==> (forall|i: int| 0 <= i < s.len() ==> s[i] is Some),
    decreases s.len(),
{
    if s.len() > 0 {
        lemma_occupied_bounds(s.drop_last());
        assert(forall|i: int| 0 <= i < s.len() - 1 ==> s.drop_last()[i] == s[i]);
        if occupied_in(s) == s.len() {
            assert(forall|i: int| 0 <= i < s.len() - 1 ==> s.drop_last()[i] is Some);
        }
        if forall|i: int| 0 <= i < s.len() ==> s[i] is Some {
            assert(forall|i: int| 0 <= i < s.len() - 1 ==> s.drop_last()[i] is Some);
        }
    }
}

/// Setting the bit for position `p` marks it occupied and leaves every other
/// position of the word as it was.
proof fn lemma_set_bit(w: u64, p: u64)
    requires
        p < 64,
    ensures
        !bit_free(w | (1u64 << ((63 - p) as u64)), p as int),
        forall|q: u64|
            q < 64 && q != p ==> (bit_free(w | (1u64 << ((63 - p) as u64)), q as int) <==> bit_free(
                w,
                q as int,
            )),
{
    let j: u64 = (63 - p) as u64;
    assert(j < 64 ==> ((w | (1u64 << j)) >> j) & 1u64 != 0u64) by (bit_vector);
    assert(forall|jq: u64|
        j < 64 && jq < 64 && jq != j ==> (#[trigger] ((w | (1u64 << j)) >> jq) & 1u64) == ((w
            >> jq) & 1u64)) by (bit_vector);
    assert forall|q: u64| q < 64 && q != p implies (bit_free(
        w | (1u64 << ((63 - p) as u64)),
        q as int,
    ) <==> bit_free(w, q as int)) by {
        let jq: u64 = (63 - q) as u64;
        assert(jq < 64 && jq != j);
        assert((((w | (1u64 << j)) >> jq) & 1u64) == ((w >> jq) & 1u64));
    }
}

/// Clearing the bit for position `p` marks it free and leaves every other
/// position of the word as it was.
proof fn lemma_clear_bit(w: u64, p: u64)
    requires
        p < 64,
    ensures
        bit_free(w & !(1u64 << ((63 - p) as u64)), p as int),
        forall|q: u64|
            q < 64 && q != p ==> (bit_free(w & !(1u64 << ((63 - p) as u64)), q as int)
                <==> bit_free(w, q as int)),
{
    let j: u64 = (63 - p) as u64;
    assert(j < 64 ==> ((w & !(1u64 << j)) >> j) & 1u64 == 0u64) by (bit_vector);
    assert(forall|jq: u64|
        j < 64 && jq < 64 && jq != j ==> (#[trigger] ((w & !(1u64 << j)) >> jq) & 1u64) == ((w
            >> jq) & 1u64)) by (bit_vector);
    assert forall|q: u64| q < 64 && q != p implies (bit_free(
        w & !(1u64 << ((63 - p) as u64)),
        q as int,
    ) <==> bit_free(w, q as int)) by {
        let jq: u64 = (63 - q) as u64;
        assert(jq < 64 && jq != j);
        assert((((w & !(1u64 << j)) >> jq) & 1u64) == ((w >> jq) & 1u64));
    }
}

/// An all-ones word marks every position occupied.
proof fn lemma_full_word(p: u64)
    requires
        p < 64,
    ensures
        !bit_free(0xffff_ffff_ffff_ffffu64, p as int),
{
    let j: u64 = (63 - p) as u64;
    assert(j < 64 ==> (0xffff_ffff_ffff_ffffu64 >> j) & 1u64 != 0u64) by (bit_vector);
}

/// Owning storage pool of slots supporting index-based insert, remove and
/// lookup, reusing freed indices before growing.
#[derive(Debug)]
pub struct SlotMap<T> {
    slots: Vec<Slot<T>>,
    item_count: usize,
    /// 1 bit represents a full slot and 0 bit represents an empty slot
    empty_indexes: Vec<u64>,
}

spec fn slots_view<T>(sl: Seq<Slot<T>>) -> Seq<Option<T>> {
    sl.map(|i: int, s: Slot<T>| s@)
}

impl<T> View for SlotMap<T> {
    type V = Seq<Option<T>>;

    closed spec fn view(&self) -> Seq<Option<T>> {
        slots_view(self.slots@)
    }
}

impl<T> SlotMap<T> {
    /// The internal accounting is in step: the item count matches the
    /// occupied slots, and the bitmap's zero bits name exactly the empty
    /// in-range slots.
    pub closed spec fn well_formed(&self) -> bool {
        let s = self@;
        let bm = self.empty_indexes@;
        &&& self.item_count == occupied_in(s)
        &&& forall|i: int|
            0 <= i < s.len() && (#[trigger] s[i]) is None ==> i / 64 < bm.len() && bit_free(
                bm[i / 64],
                i % 64,
            )
        &&& forall|c: int, p: int|
            0 <= c < bm.len() && 0 <= p < 64 && #[trigger] bit_free(bm[c], p) ==> 64 * c + p
                < s.len() && s[64 * c + p] is None
    }

    pub fn new() -> (m: Self)
        ensures
            m.well_formed(),
            m@ == Seq::<Option<T>>::empty(),
    {
        let m = Self { slots: Vec::new(), item_count: 0, empty_indexes: Vec::new() };
        proof {
            assert(m@ =~= Seq::<Option<T>>::empty());
        }
        m
    }

    /// How many slots the storage holds, occupied or not.
    pub fn len(&self) -> (n: usize)
        ensures
            n == self@.len(),
    {
        self.slots.len()
    }

    /// Find the next free slot in the SlotMap
    pub fn find_free_slot(&self) -> (r: Option<usize>)
        requires
            self.well_formed(),
        ensures
            match r {
                Some(i) => i < self@.len() && self@[i as int] is None && (forall|j: int|
                    0 <= j < i ==> self@[j] is Some),
                None => forall|j: int| 0 <= j < self@.len() ==> self@[j] is Some,
            },
    {
        let mut chunk_index: usize = 0;
        while chunk_index < self.empty_indexes.len()
            invariant
                self.well_formed(),
                chunk_index <= self.empty_indexes@.len(),
                forall|c: int, p: int|
                    0 <= c < chunk_index && 0 <= p < 64 ==> !(#[trigger] bit_free(
                        self.empty_indexes@[c],
                        p,
                    )),
            decreases self.empty_indexes@.len() - chunk_index,
        {
            let empty_chunk = self.empty_indexes[chunk_index];
            let free_slot = empty_chunk.leading_ones();

            proof {
                vstd::std_specs::bits::axiom_u64_leading_ones(empty_chunk);
            }

            if free_slot >= 64 {
                // There are no free slots in this chunk
                proof {
                    assert forall|p: int| 0 <= p < 64 implies !bit_free(empty_chunk, p) by {
                        lemma_full_word(p as u64);
                    }
                }
                chunk_index += 1;
                continue;
            }

            proof {
                let ln = vstd::std_specs::bits::u64_leading_ones(empty_chunk) as int;
                assert((empty_chunk >> ((63 - ln) as u64)) & 1u64 == 0u64);
                assert(bit_free(empty_chunk, ln));
                assert(bit_free(self.empty_indexes@[chunk_index as int], ln));
                assert(64 * chunk_index + ln < self@.len());
                assert forall|q: int| 0 <= q < ln implies !bit_free(empty_chunk, q) by {
                    let j = (63 - q) as u64;
                    assert(64 - ln <= j < 64);
                    assert((empty_chunk >> j) & 1u64 == 1u64);
                }
            }

            // There is a free slot at free_slot; apply chunk_index to create
            // the correct offset
            let storage_len = self.slots.len();
            proof {
                let ln = vstd::std_specs::bits::u64_leading_ones(empty_chunk) as int;
                assert(64 * chunk_index + ln < storage_len);
            }
            let free_index = (chunk_index * 64) + (free_slot as usize);

            proof {
                let fi = free_index as int;
                let ci = chunk_index as int;
                let fs = free_slot as int;
                assert(64 * ci + fs < self@.len() && self@[64 * ci + fs] is None);
                assert(fi == 64 * ci + fs);
                assert forall|j: int| 0 <= j < fi implies self@[j] is Some by {
                    vstd::arithmetic::div_mod::lemma_fundamental_div_mod(j, 64);
                    let c = j / 64;
                    let p = j % 64;
                    assert(j == 64 * c + p && 0 <= p < 64);
                    assert(c <= ci) by (nonlinear_arith)
                        requires
                            64 * c + p == j,
                            0 <= p < 64,
                            j < 64 * ci + fs,
                            fs < 64,
                            0 <= c,
                    ;
                    if self@[j] is None {
                        assert(bit_free(self.empty_indexes@[c], p));
                        if c == ci {
                            assert(p < fs) by (nonlinear_arith)
                                requires
                                    64 * c + p == j,
                                    j < 64 * ci + fs,
                                    c == ci,
                            ;
                        }
                    }
                }
            }

            return Some(free_index);
        }

        proof {
            assert forall|j: int| 0 <= j < self@.len() implies self@[j] is Some by {
                if self@[j] is None {
                    vstd::arithmetic::div_mod::lemma_fundamental_div_mod(j, 64);
                    assert(bit_free(self.empty_indexes@[j / 64], j % 64));
                }
            }
        }

        None
    }

    pub fn insert(&mut self, item: T) -> (slot_key: SlotKey)
        requires
            old(self).well_formed(),
        ensures
            final(self).well_formed(),
            0 <= slot_key@ <= old(self)@.len(),
            forall|j: int| 0 <= j < slot_key@ ==> old(self)@[j] is Some,
            slot_key@ < old(self)@.len() ==> old(self)@[slot_key@] is None && final(self)@
                == old(self)@.update(slot_key@, Some(item)),
            slot_key@ == old(self)@.len() ==> final(self)@ == old(self)@.push(Some(item)),
    {
        proof {
            lemma_occupied_bounds(self@);
        }
        let insert_index: usize;

        // Check if there is a slot we can insert into
        let mut reused = false;
        if self.item_count < self.slots.len() {
            match self.find_free_slot() {
                Some(free_index) => {
                    // Update the slot to store this item
                    self.slots[free_index].set(item);
                    // Mark the slot occupied again in the bitmap
                    let chunk: usize = free_index / 64;
                    let offset: u64 = 63 - ((free_index % 64) as u64);
                    proof {
                        vstd::arithmetic::div_mod::lemma_fundamental_div_mod(
                            free_index as int,
                            64,
                        );
                        assert(chunk < self.empty_indexes@.len() && bit_free(
                            self.empty_indexes@[chunk as int],
                            free_index as int % 64,
                        ));
                    }
                    let word = self.empty_indexes[chunk];
                    self.empty_indexes[chunk] = word | (1u64 << offset);
                    proof {
                        lemma_set_bit(word, (free_index % 64) as u64);
                    }
                    insert_index = free_index;
                    reused = true;
                },
                None => {
                    // Unreachable in fact (the count is out of step only if
                    // the invariant broke), but appending is also the right
                    // move when no slot is free.
                    let slot = Slot::new(item);
                    insert_index = self.slots.len();
                    self.slots.push(slot);
                    let grown_len = self.slots.len();
                    proof {
                        assert(self.item_count < grown_len);
                    }
                },
            }
        } else {
            // Just insert the item, as there is no open space
            let slot = Slot::new(item);
            insert_index = self.slots.len();
            self.slots.push(slot);
            let grown_len = self.slots.len();
            proof {
                assert(self.item_count < grown_len);
            }
        }

        // Increment item_count
        proof {
            if reused {
                lemma_occupied_update(
                    old(self)@,
                    insert_index as int,
                    Some(item),
                );
                assert(self@ =~= old(self)@.update(insert_index as int, Some(item)));
            } else {
                lemma_occupied_push(old(self)@, Some(item));
                assert(self@ =~= old(self)@.push(Some(item)));
            }
            lemma_occupied_bounds(self@);
        }
        self.item_count += 1;

        proof {
            let s = self@;
            let bm = self.empty_indexes@;
            assert forall|i: int| 0 <= i < s.len() && (#[trigger] s[i]) is None implies i / 64
                < bm.len() && bit_free(bm[i / 64], i % 64) by {
                assert(old(self)@[i] is None);
                if reused {
                    vstd::arithmetic::div_mod::lemma_fundamental_div_mod(i, 64);
                    vstd::arithmetic::div_mod::lemma_fundamental_div_mod(insert_index as int, 64);
                    if i / 64 == insert_index as int / 64 {
                        assert(i % 64 != insert_index as int % 64) by (nonlinear_arith)
                            requires
                                64 * (i / 64) + i % 64 == i,
                                64 * (insert_index as int / 64) + insert_index as int % 64
                                    == insert_index as int,
                                i / 64 == insert_index as int / 64,
                                i != insert_index as int,
                        ;
                    }
                }
            }
            assert forall|c: int, p: int|
                0 <= c < bm.len() && 0 <= p < 64 && #[trigger] bit_free(bm[c], p) implies 64 * c + p
                < s.len() && s[64 * c + p] is None by {
                if reused {
                    vstd::arithmetic::div_mod::lemma_fundamental_div_mod(insert_index as int, 64);
                    if c == insert_index as int / 64 && p == insert_index as int % 64 {
                        assert(!bit_free(bm[c], p));
                    } else {
                        assert(bit_free(old(self).empty_indexes@[c], p));
                        assert(64 * c + p != insert_index as int) by (nonlinear_arith)
                            requires
                                64 * (insert_index as int / 64) + insert_index as int % 64
                                    == insert_index as int,
                                0 <= p < 64,
                                !(c == insert_index as int / 64 && p == insert_index as int % 64),
                            ;
                    }
                } else {
                    assert(bit_free(old(self).empty_indexes@[c], p));
                }
            }
        }

        // Create a key referring to this item
        SlotKey::new(insert_index)
    }

    /// Remove an item from the SlotMap
    pub fn remove(&mut self, slot_key: SlotKey) -> (item: T)
        requires
            old(self).well_formed(),
            0 <= slot_key@ < old(self)@.len(),
            old(self)@[slot_key@] is Some,
        ensures
            final(self).well_formed(),
            final(self)@ == old(self)@.update(slot_key@, None),
            old(self)@[slot_key@] == Some(item),
    {
        let index = slot_key.index;

        proof {
            lemma_occupied_at(self@, index as int);
            vstd::arithmetic::div_mod::lemma_fundamental_div_mod(index as int, 64);
            assert(index as int / 64 < usize::MAX as int) by (nonlinear_arith)
                requires
                    64 * (index as int / 64) + (index as int % 64) == index as int,
                    0 <= index as int % 64,
                    0 <= index as int / 64,
                    index as int <= usize::MAX as int,
            ;
        }
        self.item_count -= 1;

        // We now need to set a free bit, but if the chunks have not been
        // generated we must generate them
        let slot_chunk = index / 64;
        while self.empty_indexes.len() < slot_chunk + 1
            invariant
                old(self).well_formed(),
                self.slots == old(self).slots,
                self.item_count + 1 == old(self).item_count,
                slot_chunk < usize::MAX,
                self.empty_indexes@.len() >= old(self).empty_indexes@.len(),
                forall|c: int|
                    0 <= c < old(self).empty_indexes@.len() ==> self.empty_indexes@[c] == old(
                        self,
                    ).empty_indexes@[c],
                forall|c: int|
                    old(self).empty_indexes@.len() <= c < self.empty_indexes@.len()
                        ==> self.empty_indexes@[c] == 0xffff_ffff_ffff_ffffu64,
            decreases slot_chunk + 1 - self.empty_indexes@.len(),
        {
            // If we haven't removed any elements from this chunk of elements
            // then it must all be full or outside the range of the SlotMap
            self.empty_indexes.push(0xffff_ffff_ffff_ffff);
        }

        // Convert the index into a bit offset; the most significant bit of a
        // word stands for the lowest index it covers
        let bit_offset: u64 = 63 - ((index % 64) as u64);
        // Locate the bit we must unset
        let slot_mask = 1u64 << bit_offset;
        // Invert the mask so we can use AND to unset the bit
        let unset_mask = !slot_mask;

        let word = self.empty_indexes[slot_chunk];
        self.empty_indexes[slot_chunk] = word & unset_mask;

        let slot = &mut self.slots[index];
        let taken = slot.clear();

        proof {
            vstd::arithmetic::div_mod::lemma_fundamental_div_mod(index as int, 64);
            lemma_clear_bit(word, (index % 64) as u64);
            assert(self@ =~= old(self)@.update(index as int, None));
            lemma_occupied_update(old(self)@, index as int, None);

            let s = self@;
            let bm = self.empty_indexes@;
            assert forall|i: int| 0 <= i < s.len() && (#[trigger] s[i]) is None implies i / 64
                < bm.len() && bit_free(bm[i / 64], i % 64) by {
                vstd::arithmetic::div_mod::lemma_fundamental_div_mod(i, 64);
                if i != index as int {
                    assert(old(self)@[i] is None);
                    if i / 64 == index as int / 64 {
                        assert(i % 64 != index as int % 64) by (nonlinear_arith)
                            requires
                                64 * (i / 64) + i % 64 == i,
                                64 * (index as int / 64) + index as int % 64 == index as int,
                                i / 64 == index as int / 64,
                                i != index as int,
                        ;
                        assert(bit_free(word, i % 64));
                    }
                }
            }
            assert forall|c: int, p: int|
                0 <= c < bm.len() && 0 <= p < 64 && #[trigger] bit_free(bm[c], p) implies 64 * c + p
                < s.len() && s[64 * c + p] is None by {
                if c == index as int / 64 {
                    if p != index as int % 64 {
                        assert(bit_free(word, p));
                        assert(64 * c + p != index as int);
                        if c < old(self).empty_indexes@.len() {
                            assert(bit_free(old(self).empty_indexes@[c], p));
                        } else {
                            lemma_full_word(p as u64);
                            assert(false);
                        }
                    }
                } else if c < old(self).empty_indexes@.len() {
                    assert(bit_free(old(self).empty_indexes@[c], p));
                    assert(64 * c + p != index as int) by (nonlinear_arith)
                        requires
                            64 * (index as int / 64) + index as int % 64 == index as int,
                            0 <= p < 64,
                            c != index as int / 64,
                    ;
                } else {
                    lemma_full_word(p as u64);
                    assert(!bit_free(bm[c], p));
                }
            }
        }

        // This should never return None as the requirement says the slot is
        // occupied
        taken.unwrap()
    }

    /// Get a reference to an item from the SlotMap
    pub fn get(&self, slot_key: SlotKey) -> (item: &T)
        requires
            0 <= slot_key@ < self@.len(),
            self@[slot_key@] is Some,
        ensures
            self@[slot_key@] == Some(*item),
    {
        let slot = &self.slots[slot_key.index];
        match &slot.item {
            Some(item) => item,
            None => unreached(),
        }
    }

    /// Get a mutable reference to an item from the SlotMap
    pub fn get_mut(&mut self, slot_key: SlotKey) -> (item: &mut T)
        requires
            0 <= slot_key@ < old(self)@.len(),
            old(self)@[slot_key@] is Some,
        ensures
            old(self)@[slot_key@] == Some(*item),
            final(self)@ == old(self)@.update(slot_key@, Some(*final(item))),
            old(self).well_formed() ==> final(self).well_formed(),
    {
        proof {
            let va = self.slots@;
            assert forall|sl: Slot<T>| #[trigger] slots_view(va.update(slot_key@, sl)) =~= slots_view(
                va,
            ).update(slot_key@, sl@) by {}
            assert forall|v: T|
                occupied_in(old(self)@.update(slot_key@, Some(v))) == occupied_in(old(self)@) by {
                lemma_occupied_update(old(self)@, slot_key@, Some(v));
            }
        }
        match &mut self.slots[slot_key.index].item {
            Some(item) => item,
            None => unreached(),
        }
    }
}

/// A slot that holds an item makes the occupied count positive.
proof fn lemma_occupied_at<T>(s: Seq<Option<T>>, i: int)
    requires
        0 <= i < s.len(),
        s[i] is Some,
    ensures
        occupied_in(s) >= 1,
    decreases s.len(),
{
    if i < s.len() - 1 {
        lemma_occupied_at(s.drop_last(), i);
    }
}

} // verus!
