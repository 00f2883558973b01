//! The pool of pending transactions: a mapping from index to transaction
//! that hands its transactions out in the byte order of their indexes.

use vstd::prelude::*;
use crate::digest::Keccak256;
use crate::order::{compare_bytes, lemma_lex_asymmetric, lemma_lex_transitive, lex_lt, ByteOrder};
use crate::transaction::{tx_views, Transaction, TransactionView};

verus! {

/// An index with the transaction stored under it.
pub type Slot = (Seq<u8>, TransactionView);

/// The indexes come in strictly ascending byte order.
pub open spec fn ascending(slots: Seq<Slot>) -> bool {
    forall|i: int, j: int|
        0 <= i < j < slots.len() ==> lex_lt((#[trigger] slots[i]).0, (#[trigger] slots[j]).0)
}

/// Some slot holds the index `k`.
pub open spec fn holds(slots: Seq<Slot>, k: Seq<u8>) -> bool {
    exists|i: int| 0 <= i < slots.len() && (#[trigger] slots[i]).0 == k
}

/// The mapping that the slots stand for.
pub open spec fn to_map(slots: Seq<Slot>) -> Map<Seq<u8>, TransactionView> {
    Map::new(
        |k: Seq<u8>| holds(slots, k),
        |k: Seq<u8>| slots[choose|i: int| 0 <= i < slots.len() && (#[trigger] slots[i]).0 == k].1,
    )
}

/// The transactions of the slots, in their order.
pub open spec fn transactions_of(slots: Seq<Slot>) -> Seq<TransactionView> {
    Seq::new(slots.len(), |i: int| slots[i].1)
}

/// The byte strings of a vector of indexes, as a set.
pub open spec fn index_set(indexes: Seq<Keccak256>) -> Set<Seq<u8>> {
    Set::new(|k: Seq<u8>| exists|i: int| 0 <= i < indexes.len() && (#[trigger] indexes[i])@ == k)
}

/// The slots list the pool in the byte order of its indexes: each slot is
/// an entry of the pool, each entry of the pool has its slot, and the
/// indexes ascend.
pub open spec fn lists(slots: Seq<Slot>, pool: Map<Seq<u8>, TransactionView>) -> bool {
    &&& ascending(slots)
    &&& pool.dom().finite()
    &&& slots.len() == pool.len()
    &&& forall|i: int|
        0 <= i < slots.len() ==> pool.contains_key((#[trigger] slots[i]).0) && pool[slots[i].0]
            == slots[i].1
    &&& forall|k: Seq<u8>| #[trigger] pool.contains_key(k) ==> holds(slots, k)
}

/// In ascending slots no index occurs twice, and the mapping gives for each
/// index the transaction of its slot.
pub proof fn lemma_slot_lookup(slots: Seq<Slot>, i: int)
    requires
        ascending(slots),
        0 <= i < slots.len(),
    ensures
        to_map(slots).contains_key(slots[i].0),
        to_map(slots)[slots[i].0] == slots[i].1,
        forall|j: int| 0 <= j < slots.len() && j != i ==> (#[trigger] slots[j]).0 != slots[i].0,
{
    assert forall|j: int| 0 <= j < slots.len() && j != i implies (#[trigger] slots[j]).0
        != slots[i].0 by {
        if j < i {
            lemma_lex_asymmetric(slots[j].0, slots[i].0);
        } else {
            lemma_lex_asymmetric(slots[i].0, slots[j].0);
        }
    }
}

/// Ascending slots stand for a finite mapping with as many entries as
/// there are slots.
pub proof fn lemma_slots_len(slots: Seq<Slot>)
    requires
        ascending(slots),
    ensures
        to_map(slots).dom().finite(),
        to_map(slots).dom().len() == slots.len(),
    decreases slots.len(),
{
    if slots.len() == 0 {
        assert(to_map(slots).dom() =~= Set::<Seq<u8>>::empty());
    } else {
        let front = slots.drop_last();
        let last = slots.last();
        assert(ascending(front)) by {
            assert forall|i: int, j: int| 0 <= i < j < front.len() implies lex_lt(
                (#[trigger] front[i]).0,
                (#[trigger] front[j]).0,
            ) by {
                assert(front[i] == slots[i] && front[j] == slots[j]);
            }
        }
        lemma_slots_len(front);
        lemma_slot_lookup(slots, slots.len() - 1);
        assert(!to_map(front).dom().contains(last.0)) by {
            if holds(front, last.0) {
                let i = choose|i: int| 0 <= i < front.len() && (#[trigger] front[i]).0 == last.0;
            }
        }
        assert(to_map(slots).dom() =~= to_map(front).dom().insert(last.0)) by {
            assert forall|k: Seq<u8>| to_map(slots).dom().contains(k) implies to_map(
                front,
            ).dom().insert(last.0).contains(k) by {
                let i = choose|i: int| 0 <= i < slots.len() && (#[trigger] slots[i]).0 == k;
                if i < front.len() {
                    assert(front[i] == slots[i]);
                }
            }
            assert forall|k: Seq<u8>| to_map(front).dom().insert(last.0).contains(
                k,
            ) implies to_map(slots).dom().contains(k) by {
                if k != last.0 {
                    let i = choose|i: int| 0 <= i < front.len() && (#[trigger] front[i]).0 == k;
                }
            }
        }
    }
}

/// Ascending slots list the mapping they stand for.
pub proof fn lemma_lists(slots: Seq<Slot>)
    requires
        ascending(slots),
    ensures
        lists(slots, to_map(slots)),
{
    lemma_slots_len(slots);
    assert forall|i: int| 0 <= i < slots.len() implies to_map(slots).contains_key(
        (#[trigger] slots[i]).0,
    ) && to_map(slots)[slots[i].0] == slots[i].1 by {
        lemma_slot_lookup(slots, i);
    }
}

/// Putting a new index between the slots before it and the slots after it
/// keeps them ascending and adds the index to the mapping.
pub proof fn lemma_insert_slot(slots: Seq<Slot>, at: int, slot: Slot)
    requires
        ascending(slots),
        0 <= at <= slots.len(),
        forall|i: int| 0 <= i < at ==> lex_lt((#[trigger] slots[i]).0, slot.0),
        at < slots.len() ==> lex_lt(slot.0, slots[at].0),
    ensures
        ascending(slots.insert(at, slot)),
        to_map(slots.insert(at, slot)) == to_map(slots).insert(slot.0, slot.1),
{
    let after = slots.insert(at, slot);
    assert forall|j: int| at <= j < slots.len() implies lex_lt(slot.0, (#[trigger] slots[j]).0) by {
        if j > at {
            lemma_lex_transitive(slot.0, slots[at].0, slots[j].0);
        }
    }
    assert forall|i: int, j: int| 0 <= i < j < after.len() implies lex_lt(
        (#[trigger] after[i]).0,
        (#[trigger] after[j]).0,
    ) by {
        if j < at {
            assert(after[i] == slots[i] && after[j] == slots[j]);
        } else if j == at {
            assert(after[i] == slots[i]);
        } else if i < at {
            assert(after[i] == slots[i] && after[j] == slots[j - 1]);
        } else if i == at {
            assert(after[j] == slots[j - 1]);
        } else {
            assert(after[i] == slots[i - 1] && after[j] == slots[j - 1]);
        }
    }
    assert forall|k: Seq<u8>| #[trigger]
        to_map(after).dom().contains(k) implies to_map(slots).insert(
        slot.0,
        slot.1,
    ).dom().contains(k) by {
        let i = choose|i: int| 0 <= i < after.len() && (#[trigger] after[i]).0 == k;
        if i < at {
            assert(after[i] == slots[i]);
        } else if i > at {
            assert(after[i] == slots[i - 1]);
        }
    }
    assert forall|k: Seq<u8>| #[trigger]
        to_map(slots).insert(slot.0, slot.1).dom().contains(k) implies to_map(
        after,
    ).dom().contains(k) && to_map(after)[k] == to_map(slots).insert(slot.0, slot.1)[k] by {
        if k == slot.0 {
            lemma_slot_lookup(after, at);
        } else {
            let i = choose|i: int| 0 <= i < slots.len() && (#[trigger] slots[i]).0 == k;
            lemma_slot_lookup(slots, i);
            if i < at {
                lemma_slot_lookup(after, i);
            } else {
                lemma_slot_lookup(after, i + 1);
            }
        }
    }
}

/// Putting another transaction under an index that a slot holds keeps the
/// slots ascending and changes the mapping at that index.
pub proof fn lemma_update_slot(slots: Seq<Slot>, at: int, slot: Slot)
    requires
        ascending(slots),
        0 <= at < slots.len(),
        slots[at].0 == slot.0,
    ensures
        ascending(slots.update(at, slot)),
        to_map(slots.update(at, slot)) == to_map(slots).insert(slot.0, slot.1),
{
    let after = slots.update(at, slot);
    assert forall|i: int, j: int| 0 <= i < j < after.len() implies lex_lt(
        (#[trigger] after[i]).0,
        (#[trigger] after[j]).0,
    ) by {
        assert(after[i].0 == slots[i].0 && after[j].0 == slots[j].0);
    }
    assert forall|k: Seq<u8>| #[trigger]
        to_map(after).dom().contains(k) implies to_map(slots).insert(
        slot.0,
        slot.1,
    ).dom().contains(k) by {
        let i = choose|i: int| 0 <= i < after.len() && (#[trigger] after[i]).0 == k;
    }
    assert forall|k: Seq<u8>| #[trigger]
        to_map(slots).insert(slot.0, slot.1).dom().contains(k) implies to_map(
        after,
    ).dom().contains(k) && to_map(after)[k] == to_map(slots).insert(slot.0, slot.1)[k] by {
        if k == slot.0 {
            lemma_slot_lookup(after, at);
        } else {
            let i = choose|i: int| 0 <= i < slots.len() && (#[trigger] slots[i]).0 == k;
            lemma_slot_lookup(slots, i);
            lemma_slot_lookup(after, i);
        }
    }
}

/// Taking a slot out keeps the slots ascending and takes its index out of
/// the mapping.
pub proof fn lemma_remove_slot(slots: Seq<Slot>, at: int)
    requires
        ascending(slots),
        0 <= at < slots.len(),
    ensures
        ascending(slots.remove(at)),
        to_map(slots.remove(at)) == to_map(slots).remove(slots[at].0),
{
    let after = slots.remove(at);
    assert forall|i: int, j: int| 0 <= i < j < after.len() implies lex_lt(
        (#[trigger] after[i]).0,
        (#[trigger] after[j]).0,
    ) by {
        if j < at {
            assert(after[i] == slots[i] && after[j] == slots[j]);
        } else if i < at {
            assert(after[i] == slots[i] && after[j] == slots[j + 1]);
        } else {
            assert(after[i] == slots[i + 1] && after[j] == slots[j + 1]);
        }
    }
    lemma_slot_lookup(slots, at);
    assert forall|k: Seq<u8>| #[trigger]
        to_map(after).dom().contains(k) implies to_map(slots).remove(
        slots[at].0,
    ).dom().contains(k) by {
        let i = choose|i: int| 0 <= i < after.len() && (#[trigger] after[i]).0 == k;
        if i < at {
            assert(after[i] == slots[i]);
        } else {
            assert(after[i] == slots[i + 1]);
        }
    }
    assert forall|k: Seq<u8>| #[trigger]
        to_map(slots).remove(slots[at].0).dom().contains(k) implies to_map(
        after,
    ).dom().contains(k) && to_map(after)[k] == to_map(slots).remove(slots[at].0)[k] by {
        let i = choose|i: int| 0 <= i < slots.len() && (#[trigger] slots[i]).0 == k;
        lemma_slot_lookup(slots, i);
        if i < at {
            lemma_slot_lookup(after, i);
        } else {
            lemma_slot_lookup(after, i - 1);
        }
    }
}

/// Ascending slots are determined by the mapping they stand for.
pub proof fn lemma_slots_unique(a: Seq<Slot>, b: Seq<Slot>)
    requires
        ascending(a),
        ascending(b),
        to_map(a) == to_map(b),
    ensures
        a == b,
    decreases a.len(),
{
    lemma_slots_len(a);
    lemma_slots_len(b);
    if a.len() > 0 {
        let n = a.len() - 1;
        // The last slot of each holds the greatest index of the mapping.
        lemma_slot_lookup(a, n);
        lemma_slot_lookup(b, n);
        let j = choose|j: int| 0 <= j < b.len() && (#[trigger] b[j]).0 == a[n].0;
        let i = choose|i: int| 0 <= i < a.len() && (#[trigger] a[i]).0 == b[n].0;
        if j < n {
            if i < n {
                lemma_lex_transitive(b[j].0, b[n].0, a[n].0);
            }
            lemma_lex_asymmetric(b[j].0, b[n].0);
        }
        lemma_remove_slot(a, n);
        lemma_remove_slot(b, n);
        lemma_slots_unique(a.drop_last(), b.drop_last());
        assert(a =~= a.drop_last().push(a[n]));
    } else {
        assert(a =~= b);
    }
}

/// The slots of a mapping in the byte order of their indexes.
pub open spec fn in_index_order(pool: Map<Seq<u8>, TransactionView>) -> Seq<Slot> {
    choose|slots: Seq<Slot>| ascending(slots) && to_map(slots) == pool
}

/// Ascending slots are the slots of their mapping in index order.
pub proof fn lemma_in_index_order(slots: Seq<Slot>)
    requires
        ascending(slots),
    ensures
        in_index_order(to_map(slots)) == slots,
{
    let chosen = in_index_order(to_map(slots));
    lemma_slots_unique(chosen, slots);
}

/// Taking one more index into account adds its byte string to the set.
pub proof fn lemma_index_set_step(indexes: Seq<Keccak256>, i: int)
    requires
        0 <= i < indexes.len(),
    ensures
        index_set(indexes.take(i + 1)) == index_set(indexes.take(i)).insert(indexes[i]@),
{
    let shorter = indexes.take(i);
    let longer = indexes.take(i + 1);
    assert forall|k: Seq<u8>| #[trigger] index_set(longer).contains(k) implies index_set(
        shorter,
    ).insert(indexes[i]@).contains(k) by {
        let j = choose|j: int| 0 <= j < longer.len() && (#[trigger] longer[j])@ == k;
        if j < i {
            assert(shorter[j] == longer[j]);
        }
    }
    assert forall|k: Seq<u8>| #[trigger]
        index_set(shorter).insert(indexes[i]@).contains(k) implies index_set(longer).contains(
        k,
    ) by {
        if k == indexes[i]@ {
            assert(longer[i] == indexes[i]);
        } else {
            let j = choose|j: int| 0 <= j < shorter.len() && (#[trigger] shorter[j])@ == k;
        }
    }
}

/// An index with the Transaction stored under it.
struct Entry {
    index: Keccak256,
    transaction: Transaction,
}

/// A pool that stores pending Transactions in memory.
pub struct Mempool {
    entries: Vec<Entry>,
}

impl View for Mempool {
    type V = Map<Seq<u8>, TransactionView>;

    open spec fn view(&self) -> Map<Seq<u8>, TransactionView> {
        to_map(self.slots())
    }
}

impl Mempool {
    /// The indexes of the pool with their transactions, in the order in
    /// which the pool hands them out.
    pub closed spec fn slots(&self) -> Seq<Slot> {
        Seq::new(
            self.entries@.len(),
            |i: int| (self.entries@[i].index@, self.entries@[i].transaction@),
        )
    }

    /// What holds of every pool: its indexes come in strictly ascending
    /// byte order.
    pub open spec fn wf(&self) -> bool {
        ascending(self.slots())
    }

    /// A well-formed pool hands its transactions out in the byte order of
    /// the indexes of its mapping.
    pub proof fn lemma_slots_in_index_order(&self)
        requires
            self.wf(),
        ensures
            ascending(self.slots()),
            self.slots() == in_index_order(self@),
            self@.dom().finite(),
            self@.len() == self.slots().len(),
    {
        lemma_in_index_order(self.slots());
        lemma_slots_len(self.slots());
    }

    /// Creates a new Mempool.
    pub fn new() -> (pool: Self)
        ensures
            pool.wf(),
            pool.slots() == Seq::<Slot>::empty(),
            pool@ == Map::<Seq<u8>, TransactionView>::empty(),
    {
        Mempool { entries: Vec::new() }
    }

    /// Finds where `index` stands among the indexes of the pool: the number
    /// of indexes before it, and whether the pool holds it.
    fn search(&self, index: &Keccak256) -> (r: (usize, bool))
        requires
            self.wf(),
        ensures
            r.0 <= self.slots().len(),
            forall|i: int| 0 <= i < r.0 ==> lex_lt((#[trigger] self.slots()[i]).0, index@),
            forall|i: int|
                r.0 + (if r.1 { 1int } else { 0int }) <= i < self.slots().len() ==> lex_lt(
                    index@,
                    (#[trigger] self.slots()[i]).0,
                ),
            r.1 ==> r.0 < self.slots().len() && self.slots()[r.0 as int].0 == index@,
            r.1 == self@.contains_key(index@),
    {
        let mut lo: usize = 0;
        let mut hi: usize = self.entries.len();
        let ghost slots = self.slots();
        while lo < hi
            invariant
                lo <= hi <= slots.len(),
                slots == self.slots(),
                slots.len() == self.entries@.len(),
                ascending(slots),
                forall|i: int| 0 <= i < lo ==> lex_lt((#[trigger] slots[i]).0, index@),
                forall|i: int| hi <= i < slots.len() ==> lex_lt(index@, (#[trigger] slots[i]).0),
            decreases hi - lo,
        {
            let mid = lo + (hi - lo) / 2;
            assert(slots[mid as int].0 == self.entries@[mid as int].index@);
            match compare_bytes(&self.entries[mid].index, index) {
                ByteOrder::Before => {
                    proof {
                        assert forall|i: int| 0 <= i < mid + 1 implies lex_lt(
                            (#[trigger] slots[i]).0,
                            index@,
                        ) by {
                            if i < mid {
                                lemma_lex_transitive(slots[i].0, slots[mid as int].0, index@);
                            }
                        }
                    }
                    lo = mid + 1;
                },
                ByteOrder::After => {
                    proof {
                        assert forall|i: int| mid <= i < slots.len() implies lex_lt(
                            index@,
                            (#[trigger] slots[i]).0,
                        ) by {
                            if i > mid {
                                lemma_lex_transitive(index@, slots[mid as int].0, slots[i].0);
                            }
                        }
                    }
                    hi = mid;
                },
                ByteOrder::Same => {
                    proof {
                        assert forall|i: int| 0 <= i < mid implies lex_lt(
                            (#[trigger] slots[i]).0,
                            index@,
                        ) by {}
                        assert forall|i: int| mid + 1 <= i < slots.len() implies lex_lt(
                            index@,
                            (#[trigger] slots[i]).0,
                        ) by {}
                    }
                    return (mid, true);
                },
            }
        }
        proof {
            if holds(slots, index@) {
                let i = choose|i: int| 0 <= i < slots.len() && (#[trigger] slots[i]).0 == index@;
                if i < lo {
                    lemma_lex_asymmetric(slots[i].0, index@);
                } else {
                    lemma_lex_asymmetric(index@, slots[i].0);
                }
            }
        }
        (lo, false)
    }

    /// Insert a new Transaction into the Mempool.
    pub fn insert(&mut self, index: Keccak256, transaction: Transaction)
        requires
            old(self).wf(),
        ensures
            final(self).wf(),
            final(self)@ == old(self)@.insert(index@, transaction@),
            final(self)@.dom().finite(),
    {
        let (at, found) = self.search(&index);
        let ghost before = self.slots();
        let ghost slot = (index@, transaction@);
        let entry = Entry { index, transaction };
        if found {
            self.entries[at] = entry;
            proof {
                assert(self.slots() =~= before.update(at as int, slot));
                lemma_update_slot(before, at as int, slot);
            }
        } else {
            self.entries.insert(at, entry);
            proof {
                assert(self.slots() =~= before.insert(at as int, slot));
                lemma_insert_slot(before, at as int, slot);
            }
        }
        proof {
            lemma_slots_len(self.slots());
        }
    }

    /// Returns a reference to the Transaction stored under the given index.
    pub fn get(&self, index: &Keccak256) -> (found: Option<&Transaction>)
        requires
            self.wf(),
        ensures
            match found {
                Some(transaction) => self@.contains_key(index@) && self@[index@] == transaction@,
                None => !self@.contains_key(index@),
            },
    {
        let (at, found) = self.search(index);
        if found {
            proof {
                lemma_slot_lookup(self.slots(), at as int);
            }
            Some(&self.entries[at].transaction)
        } else {
            None
        }
    }

    /// Remove all Transactions in the Mempool.
    pub fn clear(&mut self)
        ensures
            final(self).wf(),
            final(self).slots() == Seq::<Slot>::empty(),
            final(self)@ == Map::<Seq<u8>, TransactionView>::empty(),
    {
        self.entries.clear();
    }

    /// Returns the number of Transactions in the Mempool.
    pub fn len(&self) -> (len: usize)
        ensures
            len == self.slots().len(),
            self.wf() ==> len == self@.len(),
    {
        proof {
            if self.wf() {
                lemma_slots_len(self.slots());
            }
        }
        self.entries.len()
    }

    /// Returns whether the Mempool holds no Transaction.
    pub fn is_empty(&self) -> (empty: bool)
        ensures
            empty == (self.slots().len() == 0),
            self.wf() ==> empty == (self@ == Map::<Seq<u8>, TransactionView>::empty()),
    {
        proof {
            if self.wf() {
                lemma_slots_len(self.slots());
                if self.slots().len() == 0 {
                    assert(self@ =~= Map::<Seq<u8>, TransactionView>::empty());
                }
            }
        }
        self.entries.len() == 0
    }

    /// Remove Transactions based on their indexes from the Mempool. Return the
    /// number of removed Transactions.
    pub fn remove_transactions(&mut self, indexes: Vec<Keccak256>) -> (removed: usize)
        requires
            old(self).wf(),
        ensures
            final(self).wf(),
            final(self)@ == old(self)@.remove_keys(index_set(indexes@)),
            removed == old(self)@.len() - final(self)@.len(),
            removed == old(self)@.dom().intersect(index_set(indexes@)).len(),
            removed <= indexes@.len(),
            final(self)@.dom().finite(),
            forall|i: int|
                0 <= i < indexes@.len() ==> !final(self)@.contains_key(#[trigger] indexes@[i]@),
            forall|k: Seq<u8>| #[trigger]
                final(self)@.contains_key(k) ==> old(self)@.contains_key(k) && final(self)@[k]
                    == old(self)@[k],
            old(self)@.dom().subset_of(index_set(indexes@)) ==> final(self)@ == Map::<
                Seq<u8>,
                TransactionView,
            >::empty(),
    {
        let mut removed: usize = 0;
        let mut i: usize = 0;
        let ghost start = self@;
        let ghost start_len = self.slots().len();
        proof {
            lemma_slots_len(self.slots());
            assert(start_len == self.entries.len());
            assert(start.dom().intersect(index_set(indexes@.take(0))) =~= Set::<Seq<u8>>::empty());
        }
        while i < indexes.len()
            invariant
                i <= indexes.len(),
                self.wf(),
                start.dom().finite(),
                start.dom().len() == start_len,
                start_len <= usize::MAX,
                self@ == start.remove_keys(index_set(indexes@.take(i as int))),
                removed + self.slots().len() == start_len,
                removed <= i,
                removed == start.dom().intersect(index_set(indexes@.take(i as int))).len(),
            decreases indexes.len() - i,
        {
            let (at, found) = self.search(&indexes[i]);
            let ghost before = self.slots();
            let ghost key = indexes@[i as int]@;
            let ghost seen = index_set(indexes@.take(i as int));
            proof {
                lemma_index_set_step(indexes@, i as int);
                assert(start.dom().intersect(seen.insert(key)) =~= if start.dom().contains(key) {
                    start.dom().intersect(seen).insert(key)
                } else {
                    start.dom().intersect(seen)
                });
                vstd::set_lib::lemma_len_intersect::<Seq<u8>>(start.dom(), seen);
            }
            if found {
                self.entries.remove(at);
                proof {
                    assert(self.slots() =~= before.remove(at as int));
                    lemma_remove_slot(before, at as int);
                }
                removed += 1;
            } else {
                proof {
                    if start.dom().contains(key) {
                        assert(start.dom().intersect(seen).insert(key) =~= start.dom().intersect(
                            seen,
                        ));
                    }
                }
            }
            i += 1;
        }
        proof {
            assert(indexes@.take(indexes.len() as int) =~= indexes@);
            lemma_slots_len(self.slots());
            if start.dom().subset_of(index_set(indexes@)) {
                assert(self@ =~= Map::<Seq<u8>, TransactionView>::empty());
            }
        }
        removed
    }

    /// Return all Transactions currently available in the Mempool.
    pub fn get_all_transactions(&self) -> (all: Option<Vec<Transaction>>)
        ensures
            self.slots().len() == 0 ==> all is None,
            self.slots().len() > 0 ==> (all matches Some(transactions) && tx_views(transactions@)
                == transactions_of(self.slots())),
            self.wf() ==> self.slots() == in_index_order(self@),
            self.wf() ==> lists(self.slots(), self@),
            self.wf() ==> (all is None <==> self@.len() == 0),
            self.wf() ==> (all matches Some(transactions) ==> transactions@.len() == self@.len()),
    {
        proof {
            if self.wf() {
                lemma_in_index_order(self.slots());
                lemma_lists(self.slots());
            }
        }
        if self.entries.len() == 0 {
            return None;
        }
        let mut transactions: Vec<Transaction> = Vec::new();
        let mut i: usize = 0;
        while i < self.entries.len()
            invariant
                i <= self.entries.len(),
                transactions@.len() == i,
                forall|j: int|
                    0 <= j < i ==> (#[trigger] transactions@[j])@ == self.entries@[j].transaction@,
            decreases self.entries.len() - i,
        {
            transactions.push(self.entries[i].transaction.clone());
            i += 1;
        }
        Some(transactions)
    }
}

} // verus!
