//! Generational slot cache: an arena of reusable slots forming a doubly
//! linked list (head = most recently used), addressed by slot index and
//! generation counter rather than by pointer.

use vstd::prelude::*;

verus! {

use vstd::pervasive::unreached;
use crate::types::{PackageUsageMetrics, UsageModel};

/// One storage cell of the arena. `prev`/`next` are slot indices; a slot is
/// on the usage list iff `occupied`, otherwise on the free list. The
/// generation counter is bumped whenever the slot is recycled, so that a
/// stale `(index, generation)` handle can be recognised.
struct Slot<V> {
    key: String,
    value: V,
    prev: Option<usize>,
    next: Option<usize>,
    generation: u64,
    occupied: bool,
}

/// One entry of the key-to-slot index: key maps to `(slot, generation)`.
struct KeySlot {
    key: String,
    slot: usize,
    generation: u64,
}

/// Some entry of the key index denotes slot `t`.
spec fn key_slots_contain(m: Seq<KeySlot>, t: usize) -> bool {
    exists|j: int| 0 <= j < m.len() && (#[trigger] m[j].slot) == t
}

/// LRU cache over string keys backed by a generational slot arena.
pub struct LruCache<V> {
    capacity: usize,
    slots: Vec<Slot<V>>,
    key_index: Vec<KeySlot>,
    head: Option<usize>,
    tail: Option<usize>,
    free_head: Option<usize>,
    /// Occupied slot indices, most recently used first.
    order: Ghost<Seq<usize>>,
    /// Free slot indices in chain order.
    free: Ghost<Seq<usize>>,
}

impl<V> View for LruCache<V> {
    type V = Seq<(Seq<char>, V)>;

    /// Abstract value: the (key, value) pairs, most recently used first.
    closed spec fn view(&self) -> Seq<(Seq<char>, V)> {
        Seq::new(self.order@.len(), |i: int| (
            self.slots@[self.order@[i] as int].key@,
            self.slots@[self.order@[i] as int].value,
        ))
    }
}

impl<V> LruCache<V> {
    pub closed spec fn capacity(&self) -> usize {
        self.capacity
    }

    /// The usage list: distinct occupied slots chained through prev/next,
    /// rooted at head and tail.
    closed spec fn list_wf(&self) -> bool {
        let s = self.slots@;
        let ord = self.order@;
        &&& ord.no_duplicates()
        &&& forall|i: int| 0 <= i < ord.len() ==> (#[trigger] ord[i]) < s.len()
        &&& forall|i: int| 0 <= i < ord.len() ==> s[#[trigger] ord[i] as int].occupied
        &&& forall|i: int| 0 <= i < ord.len() ==> s[#[trigger] ord[i] as int].prev
            == (if i == 0 { None::<usize> } else { Some(ord[i - 1]) })
        &&& forall|i: int| 0 <= i < ord.len() ==> s[#[trigger] ord[i] as int].next
            == (if i == ord.len() - 1 { None::<usize> } else { Some(ord[i + 1]) })
        &&& self.head == (if ord.len() == 0 { None::<usize> } else { Some(ord[0]) })
        &&& self.tail == (if ord.len() == 0 { None::<usize> } else { Some(ord[ord.len() - 1]) })
    }

    /// The free list: distinct unoccupied slots chained through next,
    /// rooted at free_head.
    closed spec fn free_wf(&self) -> bool {
        let s = self.slots@;
        let fr = self.free@;
        &&& fr.no_duplicates()
        &&& forall|i: int| 0 <= i < fr.len() ==> (#[trigger] fr[i]) < s.len()
        &&& forall|i: int| 0 <= i < fr.len() ==> !s[#[trigger] fr[i] as int].occupied
        &&& forall|i: int| 0 <= i < fr.len() ==> s[#[trigger] fr[i] as int].next
            == (if i == fr.len() - 1 { None::<usize> } else { Some(fr[i + 1]) })
        &&& self.free_head == (if fr.len() == 0 { None::<usize> } else { Some(fr[0]) })
    }

    /// The key index matches the usage list: every entry denotes exactly one
    /// occupied slot with that key and a current generation, and every
    /// occupied slot has exactly one entry.
    closed spec fn index_wf(&self) -> bool {
        let s = self.slots@;
        let ord = self.order@;
        let m = self.key_index@;
        &&& m.len() == ord.len()
        &&& forall|j: int| 0 <= j < m.len() ==> ord.contains(#[trigger] m[j].slot)
        &&& forall|j: int| 0 <= j < m.len() ==> (#[trigger] m[j].key)@ == s[m[j].slot as int].key@
        &&& forall|j: int| 0 <= j < m.len() ==> (#[trigger] m[j].generation) == s[m[j].slot as int].generation
        &&& forall|j1: int, j2: int| 0 <= j1 < j2 < m.len() ==> m[j1].slot != m[j2].slot
        &&& forall|i: int| 0 <= i < ord.len() ==> key_slots_contain(m, #[trigger] ord[i])
    }

    /// Keys on the usage list are distinct.
    closed spec fn keys_wf(&self) -> bool {
        let s = self.slots@;
        let ord = self.order@;
        forall|i1: int, i2: int| 0 <= i1 < i2 < ord.len()
            ==> s[#[trigger] ord[i1] as int].key@ != s[#[trigger] ord[i2] as int].key@
    }

    /// Full well-formedness, including the capacity bound: the number of
    /// live entries never exceeds the configured capacity.
    pub closed spec fn wf(&self) -> bool {
        &&& self.list_wf()
        &&& self.free_wf()
        &&& self.index_wf()
        &&& self.keys_wf()
        &&& self.order@.len() <= self.capacity
    }

    pub fn new(capacity: usize) -> (r: Self)
        ensures
            r.wf(),
            r@ == Seq::<(Seq<char>, V)>::empty(),
            r.capacity() == capacity,
    {
        let r = LruCache {
            capacity,
            slots: Vec::new(),
            key_index: Vec::new(),
            head: None,
            tail: None,
            free_head: None,
            order: Ghost(Seq::empty()),
            free: Ghost(Seq::empty()),
        };
        proof {
            assert(r@ =~= Seq::<(Seq<char>, V)>::empty());
        }
        r
    }

    pub fn len(&self) -> (r: usize)
        requires
            self.wf(),
        ensures
            r == self@.len(),
    {
        self.key_index.len()
    }

    pub fn is_empty(&self) -> (r: bool)
        requires
            self.wf(),
        ensures
            r == (self@.len() == 0),
    {
        self.key_index.len() == 0
    }
}

/// The slot cells of `b` hold the same keys, values, generations and
/// occupancy flags as those of `a`; only prev/next links may differ.
spec fn same_cells<V>(a: Seq<Slot<V>>, b: Seq<Slot<V>>) -> bool {
    &&& b.len() == a.len()
    &&& forall|i: int| 0 <= i < a.len() ==> {
        &&& (#[trigger] b[i]).key@ == a[i].key@
        &&& b[i].value == a[i].value
        &&& b[i].generation == a[i].generation
        &&& b[i].occupied == a[i].occupied
    }
}

/// The links of every unoccupied cell are the same in `a` and `b`.
spec fn free_links_unchanged<V>(a: Seq<Slot<V>>, b: Seq<Slot<V>>) -> bool {
    forall|i: int| 0 <= i < a.len() && !(#[trigger] a[i]).occupied
        ==> b[i].prev == a[i].prev && b[i].next == a[i].next
}

impl<V> LruCache<V> {
    /// Search the key index for `key`.
    fn find_entry(&self, key: &String) -> (r: Option<usize>)
        ensures
            match r {
                Some(j) => j < self.key_index@.len() && self.key_index@[j as int].key@ == key@,
                None => forall|j: int| 0 <= j < self.key_index@.len()
                    ==> (#[trigger] self.key_index@[j].key)@ != key@,
            },
    {
        let n = self.key_index.len();
        let mut j: usize = 0;
        while j < n
            invariant
                n == self.key_index@.len(),
                j <= n,
                forall|j2: int| 0 <= j2 < j ==> (#[trigger] self.key_index@[j2].key)@ != key@,
            decreases n - j,
        {
            if self.key_index[j].key == *key {
                return Some(j);
            }
            j += 1;
        }
        None
    }

    /// Search the key index for the entry that denotes slot `t`.
    fn find_slot_entry(&self, t: usize) -> (r: Option<usize>)
        ensures
            match r {
                Some(j) => j < self.key_index@.len() && self.key_index@[j as int].slot == t,
                None => forall|j: int| 0 <= j < self.key_index@.len()
                    ==> (#[trigger] self.key_index@[j].slot) != t,
            },
    {
        let n = self.key_index.len();
        let mut j: usize = 0;
        while j < n
            invariant
                n == self.key_index@.len(),
                j <= n,
                forall|j2: int| 0 <= j2 < j ==> (#[trigger] self.key_index@[j2].slot) != t,
            decreases n - j,
        {
            if self.key_index[j].slot == t {
                return Some(j);
            }
            j += 1;
        }
        None
    }

    /// Unlink the occupied slot `i`, which stands at position `p` of the
    /// usage list, rewiring its neighbours and the head/tail roots.
    #[verifier::rlimit(100)]
    fn detach(&mut self, i: usize, Ghost(p): Ghost<int>)
        requires
            old(self).list_wf(),
            0 <= p < old(self).order@.len(),
            old(self).order@[p] == i,
        ensures
            final(self).list_wf(),
            final(self).order@ == old(self).order@.remove(p),
            same_cells(old(self).slots@, final(self).slots@),
            free_links_unchanged(old(self).slots@, final(self).slots@),
            final(self).capacity == old(self).capacity,
            final(self).key_index == old(self).key_index,
            final(self).free == old(self).free,
            final(self).free_head == old(self).free_head,
    {
        let ghost ord = self.order@;
        let prev = self.slots[i].prev;
        let next = self.slots[i].next;
        match prev {
            Some(pi) => {
                self.slots[pi].next = next;
            }
            None => {
                self.head = next;
            }
        }
        match next {
            Some(ni) => {
                self.slots[ni].prev = prev;
            }
            None => {
                self.tail = prev;
            }
        }
        self.slots[i].prev = None;
        self.slots[i].next = None;
        proof {
            self.order@ = ord.remove(p);
            let ord2 = self.order@;
            let s = self.slots@;
            assert forall|q: int| 0 <= q < ord2.len() implies #[trigger] ord2[q]
                == (if q < p { ord[q] } else { ord[q + 1] }) by {}
            assert forall|q1: int, q2: int| 0 <= q1 < q2 < ord2.len()
                implies ord2[q1] != ord2[q2] by {}
            assert forall|q: int| 0 <= q < ord2.len() implies (#[trigger] ord2[q]) < s.len()
                && s[ord2[q] as int].occupied by {}
            assert forall|q: int| 0 <= q < ord2.len() implies s[#[trigger] ord2[q] as int].prev
                == (if q == 0 { None::<usize> } else { Some(ord2[q - 1]) }) by {
                if q > 0 {
                    assert(ord2[q - 1] == (if q - 1 < p { ord[q - 1] } else { ord[q] }));
                }
            }
            assert forall|q: int| 0 <= q < ord2.len() implies s[#[trigger] ord2[q] as int].next
                == (if q == ord2.len() - 1 { None::<usize> } else { Some(ord2[q + 1]) }) by {
                if q + 1 < ord2.len() {
                    assert(ord2[q + 1] == (if q + 1 < p { ord[q + 1] } else { ord[q + 2] }));
                }
            }
            assert(ord2.no_duplicates());
        }
    }

    /// Link the occupied, detached slot `i` in at the head of the usage
    /// list.
    fn attach_head(&mut self, i: usize)
        requires
            old(self).list_wf(),
            i < old(self).slots@.len(),
            old(self).slots@[i as int].occupied,
            !old(self).order@.contains(i),
        ensures
            final(self).list_wf(),
            final(self).order@ == seq![i] + old(self).order@,
            same_cells(old(self).slots@, final(self).slots@),
            free_links_unchanged(old(self).slots@, final(self).slots@),
            final(self).capacity == old(self).capacity,
            final(self).key_index == old(self).key_index,
            final(self).free == old(self).free,
            final(self).free_head == old(self).free_head,
    {
        let ghost ord = self.order@;
        let old_head = self.head;
        self.slots[i].prev = None;
        self.slots[i].next = old_head;
        match old_head {
            Some(h) => {
                proof {
                    assert(ord[0] == h);
                    assert(h != i);
                }
                self.slots[h].prev = Some(i);
            }
            None => {
                self.tail = Some(i);
            }
        }
        self.head = Some(i);
        proof {
            self.order@ = seq![i] + ord;
            let ord2 = self.order@;
            let s = self.slots@;
            assert forall|q: int| 0 <= q < ord2.len() implies {
                &&& (#[trigger] ord2[q]) < s.len()
                &&& s[ord2[q] as int].occupied
                &&& s[ord2[q] as int].prev
                    == (if q == 0 { None::<usize> } else { Some(ord2[q - 1]) })
                &&& s[ord2[q] as int].next
                    == (if q == ord2.len() - 1 { None::<usize> } else { Some(ord2[q + 1]) })
            } by {
                if q > 0 {
                    assert(ord2[q] == ord[q - 1]);
                    assert(ord[q - 1] != i);
                }
            }
        }
    }

    /// Pop the head of the free list, if any.
    fn pop_free(&mut self) -> (r: Option<usize>)
        requires
            old(self).free_wf(),
        ensures
            final(self).free_wf(),
            final(self).slots == old(self).slots,
            final(self).key_index == old(self).key_index,
            final(self).order == old(self).order,
            final(self).head == old(self).head,
            final(self).tail == old(self).tail,
            final(self).capacity == old(self).capacity,
            match r {
                None => final(self).free@ == old(self).free@ && old(self).free@.len() == 0,
                Some(j) => {
                    &&& old(self).free@.len() > 0
                    &&& j == old(self).free@[0]
                    &&& final(self).free@ == old(self).free@.drop_first()
                },
            },
    {
        match self.free_head {
            None => None,
            Some(j) => {
                self.free_head = self.slots[j].next;
                proof {
                    self.free@ = self.free@.drop_first();
                    let fr = self.free@;
                    assert forall|q: int| 0 <= q < fr.len() implies
                        s_free_chain_ok(self.slots@, fr, q) by {
                        assert(fr[q] == old(self).free@[q + 1]);
                        if q + 1 < fr.len() {
                            assert(fr[q + 1] == old(self).free@[q + 2]);
                        }
                    }
                }
                Some(j)
            }
        }
    }
}

impl<V> LruCache<V> {
    /// Moving the slot at position `p` of the usage list to its front
    /// preserves the key index and key distinctness invariants, as long as
    /// the cells keep their keys, generations and occupancy.
    proof fn lemma_wf_after_reorder(pre: &Self, post: &Self, p: int)
        requires
            pre.list_wf(),
            pre.free_wf(),
            pre.index_wf(),
            pre.keys_wf(),
            same_cells(pre.slots@, post.slots@),
            free_links_unchanged(pre.slots@, post.slots@),
            post.key_index == pre.key_index,
            post.free == pre.free,
            post.free_head == pre.free_head,
            0 <= p < pre.order@.len(),
            post.order@ == seq![pre.order@[p]] + pre.order@.remove(p),
        ensures
            post.index_wf(),
            post.keys_wf(),
            post.free_wf(),
    {
        let ord = pre.order@;
        let ord2 = post.order@;
        let m = pre.key_index@;
        let s = pre.slots@;
        let s2 = post.slots@;
        assert forall|q: int| 0 <= q < ord2.len() implies #[trigger] ord2[q]
            == (if q == 0 { ord[p] } else if q <= p { ord[q - 1] } else { ord[q] }) by {}
        assert forall|j: int| 0 <= j < m.len() implies ord2.contains(#[trigger] m[j].slot) by {
            let i = choose|i: int| 0 <= i < ord.len() && ord[i] == m[j].slot;
            let q = if i == p { 0int } else if i < p { i + 1 } else { i };
            assert(ord2[q] == ord[i]);
        }
        assert forall|i: int| 0 <= i < ord2.len()
            implies key_slots_contain(m, #[trigger] ord2[i]) by {
            let io = if i == 0 { p } else if i <= p { i - 1 } else { i };
            assert(ord2[i] == ord[io]);
            assert(key_slots_contain(m, ord[io]));
        }
        assert forall|j: int| 0 <= j < m.len() implies (#[trigger] m[j].key)@
            == s2[m[j].slot as int].key@ && m[j].generation == s2[m[j].slot as int].generation by {
            let i = choose|i: int| 0 <= i < ord.len() && ord[i] == m[j].slot;
            assert(s2[m[j].slot as int].key@ == s[m[j].slot as int].key@);
        }
        assert forall|i1: int, i2: int| 0 <= i1 < i2 < ord2.len()
            implies s2[#[trigger] ord2[i1] as int].key@ != s2[#[trigger] ord2[i2] as int].key@ by {
            let a = if i1 == 0 { p } else if i1 <= p { i1 - 1 } else { i1 };
            let b = if i2 == 0 { p } else if i2 <= p { i2 - 1 } else { i2 };
            assert(ord2[i1] == ord[a]);
            assert(ord2[i2] == ord[b]);
            assert(a != b);
            assert(ord[a] < s.len() && ord[b] < s.len());
            if a < b {
                assert(s[ord[a] as int].key@ != s[ord[b] as int].key@);
            } else {
                assert(s[ord[b] as int].key@ != s[ord[a] as int].key@);
            }
        }
    }

    /// A key that no index entry carries is not in the cache.
    proof fn lemma_no_entry_no_key(&self, k: Seq<char>)
        requires
            self.wf(),
            forall|j: int| 0 <= j < self.key_index@.len()
                ==> (#[trigger] self.key_index@[j].key)@ != k,
        ensures
            !has_key(self@, k),
    {
        let m = self.key_index@;
        let ord = self.order@;
        let s = self.slots@;
        assert forall|i: int| 0 <= i < self@.len() implies (#[trigger] self@[i]).0 != k by {
            assert(key_slots_contain(m, ord[i]));
            let j = choose|j: int| 0 <= j < m.len() && (#[trigger] m[j].slot) == ord[i];
            assert(m[j].key@ == s[ord[i] as int].key@);
        }
    }

    /// With distinct keys, the position of a key is the position it is
    /// found at.
    proof fn lemma_key_pos(&self, i: int)
        requires
            self.wf(),
            0 <= i < self@.len(),
        ensures
            has_key(self@, self@[i].0),
            key_pos(self@, self@[i].0) == i,
    {
        assert(has_key(self@, self@[i].0));
        let i0 = key_pos(self@, self@[i].0);
        assert(self@[i0].0 == self@[i].0);
        if i0 < i {
            assert(self.slots@[self.order@[i0] as int].key@
                != self.slots@[self.order@[i] as int].key@);
        } else if i0 > i {
            assert(self.slots@[self.order@[i] as int].key@
                != self.slots@[self.order@[i0] as int].key@);
        }
    }

    /// Moving the slot at position `p` to the front of the usage list moves
    /// the pair at position `p` of the view to its front.
    proof fn lemma_view_move_front(pre: &Self, post: &Self, p: int)
        requires
            pre.list_wf(),
            same_cells(pre.slots@, post.slots@),
            0 <= p < pre.order@.len(),
            post.order@ == seq![pre.order@[p]] + pre.order@.remove(p),
        ensures
            post@ == seq![pre@[p]] + pre@.remove(p),
    {
        let ord = pre.order@;
        let ord2 = post.order@;
        assert forall|q: int| 0 <= q < ord2.len() implies #[trigger] ord2[q]
            == (if q == 0 { ord[p] } else if q <= p { ord[q - 1] } else { ord[q] }) by {}
        assert forall|q: int| 0 <= q < post@.len()
            implies #[trigger] post@[q] == (seq![pre@[p]] + pre@.remove(p))[q] by {
            if q > 0 {
                let io = if q <= p { q - 1 } else { q };
                assert(ord2[q] == ord[io]);
                assert(pre@.remove(p)[q - 1] == pre@[io]);
            }
        }
        assert(post@ =~= seq![pre@[p]] + pre@.remove(p));
    }

    /// Record a use of `key`: on a hit, the entry moves to the front of the
    /// usage list (most recently used) and a reference to its value is
    /// returned; on a miss nothing changes. A hit whose recorded generation
    /// no longer matches the slot is treated as a miss and dropped.
    #[verifier::rlimit(100)]
    pub fn get(&mut self, key: &str) -> (r: Option<&V>)
        requires
            old(self).wf(),
        ensures
            final(self).wf(),
            final(self).capacity() == old(self).capacity(),
            match r {
                None => !has_key(old(self)@, key@) && final(self)@ == old(self)@,
                Some(v) => {
                    let p = key_pos(old(self)@, key@);
                    &&& has_key(old(self)@, key@)
                    &&& *v == old(self)@[p].1
                    &&& final(self)@ == seq![old(self)@[p]] + old(self)@.remove(p)
                },
            },
    {
        let k: String = key.to_owned();
        match self.find_entry(&k) {
            None => {
                proof {
                    self.lemma_no_entry_no_key(key@);
                }
                None
            }
            Some(j) => {
                let t = self.key_index[j].slot;
                if self.key_index[j].generation != self.slots[t].generation
                    || !self.slots[t].occupied {
                    // Stale handle: the index entry no longer denotes a live
                    // slot, so remove it and report a miss.
                    self.key_index.swap_remove(j);
                    return None;
                }
                let ghost pre = *self;
                let ghost ord = self.order@;
                let ghost p = choose|i: int| 0 <= i < ord.len() && ord[i] == t;
                proof {
                    assert(ord.contains(t));
                    assert(self@[p].0 == key@);
                    self.lemma_key_pos(p);
                }
                self.move_to_head(t, Ghost(p));
                proof {
                    assert(self@[0] == pre@[p]);
                    assert(self@[0].1 == self.slots@[t as int].value);
                }
                Some(&self.slots[t].value)
            }
        }
    }
}

/// The slot cells of `b` hold the same keys, generations, occupancy flags
/// and links as those of `a`; only values may differ.
spec fn same_shape<V>(a: Seq<Slot<V>>, b: Seq<Slot<V>>) -> bool {
    &&& b.len() == a.len()
    &&& forall|i: int| 0 <= i < a.len() ==> {
        &&& (#[trigger] b[i]).key@ == a[i].key@
        &&& b[i].generation == a[i].generation
        &&& b[i].occupied == a[i].occupied
        &&& b[i].prev == a[i].prev
        &&& b[i].next == a[i].next
    }
}

impl<V> LruCache<V> {
    /// Overwriting values in place disturbs none of the structural
    /// invariants.
    proof fn lemma_wf_same_shape(pre: &Self, post: &Self)
        requires
            pre.list_wf(),
            pre.free_wf(),
            pre.index_wf(),
            pre.keys_wf(),
            same_shape(pre.slots@, post.slots@),
            post.order == pre.order,
            post.free == pre.free,
            post.key_index == pre.key_index,
            post.head == pre.head,
            post.tail == pre.tail,
            post.free_head == pre.free_head,
        ensures
            post.list_wf(),
            post.free_wf(),
            post.index_wf(),
            post.keys_wf(),
    {
        let ord = pre.order@;
        let m = pre.key_index@;
        assert forall|j: int| 0 <= j < m.len() implies (#[trigger] m[j].slot) < pre.slots@.len() by {
            assert(ord.contains(m[j].slot));
            let i = choose|i: int| 0 <= i < ord.len() && ord[i] == m[j].slot;
        }
    }

    /// Overwriting the value of the cell at position `p` of the usage list
    /// updates position `p` of the view.
    proof fn lemma_view_update_value(pre: &Self, mid: &Self, t: usize, p: int, v: V)
        requires
            pre.list_wf(),
            0 <= p < pre.order@.len(),
            pre.order@[p] == t,
            mid.order == pre.order,
            mid.slots@.len() == pre.slots@.len(),
            forall|i: int| 0 <= i < pre.slots@.len() && i != t
                ==> mid.slots@[i] == pre.slots@[i],
            mid.slots@[t as int].key@ == pre.slots@[t as int].key@,
            mid.slots@[t as int].value == v,
        ensures
            mid@ == pre@.update(p, (pre@[p].0, v)),
    {
        assert forall|q: int| 0 <= q < mid@.len()
            implies #[trigger] mid@[q] == pre@.update(p, (pre@[p].0, v))[q] by {
            if q != p {
                assert(pre.order@[q] != t);
            }
        }
        assert(mid@ =~= pre@.update(p, (pre@[p].0, v)));
    }

    /// Overwrite the value of the live entry that index entry `j` denotes,
    /// and move it to the front of the usage list.
    #[verifier::rlimit(100)]
    fn put_update(&mut self, j: usize, value: V)
        requires
            old(self).wf(),
            j < old(self).key_index@.len(),
        ensures
            final(self).wf(),
            final(self).capacity == old(self).capacity,
            ({
                let k = old(self).key_index@[j as int].key@;
                let p = key_pos(old(self)@, k);
                &&& has_key(old(self)@, k)
                &&& final(self)@ == seq![(k, value)] + old(self)@.remove(p)
            }),
    {
        let t = self.key_index[j].slot;
        let ghost pre = *self;
        let ghost ord = self.order@;
        let ghost p = choose|i: int| 0 <= i < ord.len() && ord[i] == t;
        proof {
            assert(ord.contains(t));
            assert(pre@[p].0 == pre.key_index@[j as int].key@);
            self.lemma_key_pos(p);
        }
        let kk = self.slots[t].key.clone();
        let pv = self.slots[t].prev;
        let nx = self.slots[t].next;
        let g = self.slots[t].generation;
        let mut cell = Slot { key: kk, value, prev: pv, next: nx, generation: g, occupied: true };
        self.slots.set_and_swap(t, &mut cell);
        let ghost mid = *self;
        proof {
            assert(same_shape(pre.slots@, mid.slots@));
            Self::lemma_wf_same_shape(&pre, &mid);
            Self::lemma_view_update_value(&pre, &mid, t, p, value);
        }
        self.move_to_head(t, Ghost(p));
        proof {
            let k = pre.key_index@[j as int].key@;
            lemma_seq_update_remove(pre@, p, (k, value));
            assert(mid@[p] == (k, value));
            assert(final(self)@ =~= seq![(k, value)] + pre@.remove(key_pos(pre@, k)));
        }
    }

    /// Take a cell for a fresh entry: reuse the head of the free list if
    /// there is one, otherwise grow the arena. The chosen cell is populated
    /// with `key` and `value`, detached, occupied, and keeps (or starts) its
    /// generation; its index and generation are returned.
    fn alloc_cell(&mut self, key: String, value: V) -> (r: (usize, u64))
        requires
            old(self).list_wf(),
            old(self).free_wf(),
            old(self).index_wf(),
            old(self).keys_wf(),
        ensures
            final(self).list_wf(),
            final(self).free_wf(),
            final(self).index_wf(),
            final(self).keys_wf(),
            final(self).capacity == old(self).capacity,
            final(self).order == old(self).order,
            final(self).key_index == old(self).key_index,
            r.0 < final(self).slots@.len(),
            old(self).slots@.len() <= final(self).slots@.len(),
            !final(self).order@.contains(r.0),
            ({
                let c = final(self).slots@[r.0 as int];
                &&& c.key@ == key@
                &&& c.value == value
                &&& c.prev == None::<usize>
                &&& c.next == None::<usize>
                &&& c.generation == r.1
                &&& c.occupied
            }),
            forall|i: int| 0 <= i < old(self).slots@.len() && i != r.0
                ==> final(self).slots@[i] == old(self).slots@[i],
    {
        let ghost pre = *self;
        match self.pop_free() {
            Some(fi) => {
                proof {
                    if self.order@.contains(fi) {
                        let i = choose|i: int| 0 <= i < self.order@.len()
                            && self.order@[i] == fi;
                        assert(self.slots@[fi as int].occupied);
                        assert(!pre.slots@[pre.free@[0] as int].occupied);
                    }
                }
                let g = self.slots[fi].generation;
                let mut cell = Slot {
                    key,
                    value,
                    prev: None,
                    next: None,
                    generation: g,
                    occupied: true,
                };
                self.slots.set_and_swap(fi, &mut cell);
                proof {
                    let fr = self.free@;
                    assert forall|q: int| 0 <= q < fr.len() implies (#[trigger] fr[q]) != fi by {
                        assert(pre.free@[q + 1] == fr[q]);
                    }
                    assert forall|q: int| 0 <= q < fr.len() implies
                        s_free_chain_ok(self.slots@, fr, q) by {
                        assert(fr[q] != fi);
                        if q + 1 < fr.len() {
                            assert(fr[q + 1] != fi);
                        }
                    }
                }
                (fi, g)
            }
            None => {
                let idx = self.slots.len();
                self.slots.push(Slot {
                    key,
                    value,
                    prev: None,
                    next: None,
                    generation: 0,
                    occupied: true,
                });
                (idx, 0)
            }
        }
    }

    /// Cells on the usage list keep their key, value, generation and
    /// occupancy across an allocation at `idx` plus a relinking, because
    /// `idx` is not on the list.
    proof fn lemma_listed_cells_kept(pre: &Self, mid: &Self, post: &Self, idx: usize)
        requires
            pre.list_wf(),
            !pre.order@.contains(idx),
            mid.slots@.len() >= pre.slots@.len(),
            forall|i: int| 0 <= i < pre.slots@.len() && i != idx
                ==> mid.slots@[i] == pre.slots@[i],
            same_cells(mid.slots@, post.slots@),
        ensures
            forall|i: int| 0 <= i < pre.order@.len() ==> {
                let c2 = post.slots@[#[trigger] pre.order@[i] as int];
                let c = pre.slots@[pre.order@[i] as int];
                c2.key@ == c.key@ && c2.value == c.value
                    && c2.generation == c.generation && c2.occupied == c.occupied
            },
    {
        let ord = pre.order@;
        assert forall|i: int| 0 <= i < ord.len() implies {
            let c2 = post.slots@[#[trigger] ord[i] as int];
            let c = pre.slots@[ord[i] as int];
            c2.key@ == c.key@ && c2.value == c.value
                && c2.generation == c.generation && c2.occupied == c.occupied
        } by {
            assert(ord[i] != idx);
            assert(mid.slots@[ord[i] as int] == pre.slots@[ord[i] as int]);
            assert(post.slots@[ord[i] as int].key@ == mid.slots@[ord[i] as int].key@);
        }
    }

    /// After a fresh entry is attached at the head and pushed onto the key
    /// index, the key index invariant holds again.
    proof fn lemma_index_after_insert(pre: &Self, post: &Self, idx: usize, g: u64)
        requires
            pre.list_wf(),
            pre.index_wf(),
            !pre.order@.contains(idx),
            post.order@ == seq![idx] + pre.order@,
            pre.slots@.len() <= post.slots@.len(),
            idx < post.slots@.len(),
            post.slots@[idx as int].generation == g,
            post.key_index@.len() == pre.key_index@.len() + 1,
            forall|j: int| 0 <= j < pre.key_index@.len()
                ==> post.key_index@[j] == pre.key_index@[j],
            post.key_index@.last().slot == idx,
            post.key_index@.last().key@ == post.slots@[idx as int].key@,
            post.key_index@.last().generation == g,
            forall|i: int| 0 <= i < pre.order@.len() ==> {
                let c2 = post.slots@[#[trigger] pre.order@[i] as int];
                let c = pre.slots@[pre.order@[i] as int];
                c2.key@ == c.key@ && c2.generation == c.generation
            },
        ensures
            post.index_wf(),
    {
        let ord = pre.order@;
        let ord2 = post.order@;
        let m = pre.key_index@;
        let m2 = post.key_index@;
        let s2 = post.slots@;
        assert forall|j: int| 0 <= j < m2.len() implies ord2.contains(#[trigger] m2[j].slot) by {
            if j < m.len() {
                assert(m2[j] == m[j]);
                let i = choose|i: int| 0 <= i < ord.len() && ord[i] == m[j].slot;
                assert(ord2[i + 1] == m2[j].slot);
            } else {
                assert(ord2[0] == m2[j].slot);
            }
        }
        assert forall|j: int| 0 <= j < m2.len() implies
            (#[trigger] m2[j].key)@ == s2[m2[j].slot as int].key@
            && (#[trigger] m2[j].generation) == s2[m2[j].slot as int].generation by {
            if j < m.len() {
                assert(m2[j] == m[j]);
                let i = choose|i: int| 0 <= i < ord.len() && ord[i] == m[j].slot;
                assert(ord2[i + 1] == ord[i]);
            } else {
                assert(ord2[0] == idx);
            }
        }
        assert forall|j1: int, j2: int| 0 <= j1 < j2 < m2.len()
            implies m2[j1].slot != m2[j2].slot by {
            if j2 == m.len() {
                assert(ord.contains(m[j1].slot));
            }
        }
        assert forall|i: int| 0 <= i < ord2.len()
            implies key_slots_contain(m2, #[trigger] ord2[i]) by {
            if i == 0 {
                assert(0 <= m.len() < m2.len() && m2[m.len() as int].slot == ord2[0]);
            } else {
                assert(key_slots_contain(m, ord[i - 1]));
                let j = choose|j: int| 0 <= j < m.len() && (#[trigger] m[j].slot) == ord[i - 1];
                assert(0 <= j < m2.len() && m2[j].slot == ord2[i]);
            }
        }
    }

    /// After a fresh entry whose key was absent is attached at the head,
    /// the listed keys are still distinct and the view gains the new pair
    /// in front.
    proof fn lemma_keys_view_after_insert(pre: &Self, post: &Self, idx: usize, k: Seq<char>, v: V)
        requires
            pre.list_wf(),
            pre.keys_wf(),
            !has_key(pre@, k),
            !pre.order@.contains(idx),
            post.order@ == seq![idx] + pre.order@,
            idx < post.slots@.len(),
            post.slots@[idx as int].key@ == k,
            post.slots@[idx as int].value == v,
            forall|i: int| 0 <= i < pre.order@.len() ==> {
                let c2 = post.slots@[#[trigger] pre.order@[i] as int];
                let c = pre.slots@[pre.order@[i] as int];
                c2.key@ == c.key@ && c2.value == c.value
            },
        ensures
            post.keys_wf(),
            post@ == seq![(k, v)] + pre@,
    {
        let ord = pre.order@;
        let ord2 = post.order@;
        let s2 = post.slots@;
        assert forall|q: int| 0 <= q < post@.len() implies #[trigger] post@[q]
            == (seq![(k, v)] + pre@)[q] by {
            if q > 0 {
                assert(ord2[q] == ord[q - 1]);
            }
        }
        assert(post@ =~= seq![(k, v)] + pre@);
        assert forall|i1: int, i2: int| 0 <= i1 < i2 < ord2.len()
            implies s2[#[trigger] ord2[i1] as int].key@
                != s2[#[trigger] ord2[i2] as int].key@ by {
            if i1 == 0 {
                assert(pre@[i2 - 1].0 == s2[ord2[i2] as int].key@);
                assert(pre@[i2 - 1].0 != k);
            } else {
                assert(ord2[i1] == ord[i1 - 1] && ord2[i2] == ord[i2 - 1]);
                assert(pre.slots@[ord[i1 - 1] as int].key@
                    != pre.slots@[ord[i2 - 1] as int].key@);
            }
        }
    }

    /// Removing the key index entry of the evicted tail slot restores the
    /// index invariant for the shortened usage list, once the tail cell has
    /// been rewritten.
    proof fn lemma_index_after_swap_remove(pre: &Self, mid: &Self, je: int, t: usize)
        requires
            pre.list_wf(),
            pre.index_wf(),
            pre.order@.len() > 0,
            pre.order@.last() == t,
            0 <= je < pre.key_index@.len(),
            pre.key_index@[je].slot == t,
            mid.order@ == pre.order@.drop_last(),
            mid.key_index@
                == pre.key_index@.update(je, pre.key_index@.last()).drop_last(),
            mid.slots@.len() == pre.slots@.len(),
            forall|i: int| 0 <= i < pre.slots@.len() && i != t
                ==> (#[trigger] mid.slots@[i]).key@ == pre.slots@[i].key@
                    && mid.slots@[i].generation == pre.slots@[i].generation,
        ensures
            mid.index_wf(),
    {
        let ord = pre.order@;
        let ord2 = mid.order@;
        let m = pre.key_index@;
        let m2 = mid.key_index@;
        let p = ord.len() - 1;
        assert forall|j: int| 0 <= j < m2.len() implies #[trigger] m2[j]
            == (if j == je { m[m.len() - 1] } else { m[j] }) by {}
        assert forall|j: int| 0 <= j < m2.len() implies (#[trigger] m2[j].slot) != t by {
            let jo = if j == je { m.len() - 1 } else { j };
            if jo != je {
                assert(m[jo].slot != m[je].slot);
            }
        }
        assert forall|j: int| 0 <= j < m2.len() implies ord2.contains(#[trigger] m2[j].slot) by {
            let jo = if j == je { m.len() - 1 } else { j };
            assert(ord.contains(m[jo].slot));
            let i = choose|i: int| 0 <= i < ord.len() && ord[i] == m[jo].slot;
            assert(i != p);
            assert(ord2[i] == m2[j].slot);
        }
        assert forall|j: int| 0 <= j < m2.len() implies
            (#[trigger] m2[j].key)@ == mid.slots@[m2[j].slot as int].key@
            && (#[trigger] m2[j].generation) == mid.slots@[m2[j].slot as int].generation by {
            let jo = if j == je { m.len() - 1 } else { j };
            assert(ord.contains(m[jo].slot));
            let i = choose|i: int| 0 <= i < ord.len() && ord[i] == m[jo].slot;
            assert(m2[j].slot < pre.slots@.len());
            assert(mid.slots@[m2[j].slot as int].key@ == pre.slots@[m2[j].slot as int].key@
                && mid.slots@[m2[j].slot as int].generation
                    == pre.slots@[m2[j].slot as int].generation);
        }
        assert forall|j1: int, j2: int| 0 <= j1 < j2 < m2.len()
            implies m2[j1].slot != m2[j2].slot by {
            let o1 = if j1 == je { m.len() - 1 } else { j1 };
            let o2 = if j2 == je { m.len() - 1 } else { j2 };
            assert(o1 != o2);
            if o1 < o2 {
                assert(m[o1].slot != m[o2].slot);
            } else {
                assert(m[o2].slot != m[o1].slot);
            }
        }
        assert forall|i: int| 0 <= i < ord2.len()
            implies key_slots_contain(m2, #[trigger] ord2[i]) by {
            assert(ord2[i] == ord[i]);
            assert(key_slots_contain(m, ord[i]));
            let j0 = choose|j: int| 0 <= j < m.len() && (#[trigger] m[j].slot) == ord[i];
            assert(ord[i] != t) by {
                assert(ord[i] != ord[p]);
            }
            assert(j0 != je) by {
                if j0 != je {
                } else {
                    assert(m[je].slot == t);
                }
            }
            if j0 == m.len() - 1 {
                assert(je < m.len() - 1);
                assert(0 <= je < m2.len() && m2[je].slot == ord2[i]);
            } else {
                assert(0 <= j0 < m2.len() && m2[j0].slot == ord2[i]);
            }
        }
    }

    /// Insert a fresh key at capacity: the least recently used entry is
    /// evicted, its cell's generation is bumped, and the cell is reused for
    /// the new entry at the head of the usage list.
    #[verifier::rlimit(100)]
    fn put_evict(&mut self, key: String, value: V) -> (r: (String, V))
        requires
            old(self).wf(),
            !has_key(old(self)@, key@),
            old(self)@.len() == old(self).capacity(),
            old(self).capacity() > 0,
        ensures
            final(self).wf(),
            final(self).capacity == old(self).capacity,
            final(self)@ == seq![(key@, value)] + old(self)@.drop_last(),
            r.0@ == old(self)@.last().0,
            r.1 == old(self)@.last().1,
    {
        let ghost pre = *self;
        let ghost ord = self.order@;
        let ghost p = ord.len() - 1;
        let t = match self.tail {
            Some(t) => t,
            None => unreached(),
        };
        let je = match self.find_slot_entry(t) {
            Some(j) => j,
            None => {
                proof {
                    assert(key_slots_contain(self.key_index@, ord[p]));
                    let j0 = choose|j: int| 0 <= j < self.key_index@.len()
                        && (#[trigger] self.key_index@[j].slot) == ord[p];
                    assert(false);
                }
                unreached()
            }
        };
        let key2 = key.clone();
        self.detach(t, Ghost(p));
        proof {
            assert(ord.remove(p) =~= ord.drop_last());
        }
        let ghost mid1 = *self;
        self.key_index.swap_remove(je);
        let g = self.slots[t].generation;
        let gn = g.wrapping_add(1);
        let mut cell = Slot { key, value, prev: None, next: None, generation: gn, occupied: true };
        self.slots.set_and_swap(t, &mut cell);
        let ghost mid2 = *self;
        proof {
            let ord2 = mid2.order@;
            assert forall|q: int| 0 <= q < ord2.len() implies
                mid2.slots@[#[trigger] ord2[q] as int] == mid1.slots@[ord2[q] as int] by {
                assert(ord2[q] != t);
            }
            assert(mid2.list_wf());
            assert(mid2.free_wf()) by {
                assert forall|q: int| 0 <= q < mid2.free@.len() implies
                    s_free_chain_ok(mid2.slots@, mid2.free@, q) by {
                    assert(!pre.slots@[mid2.free@[q] as int].occupied);
                    assert(pre.slots@[t as int].occupied);
                    assert(mid2.free@[q] != t);
                    if q + 1 < mid2.free@.len() {
                        assert(mid2.free@[q + 1] != t);
                    }
                }
            }
            assert forall|i: int| 0 <= i < pre.slots@.len() && i != t
                implies (#[trigger] mid2.slots@[i]).key@ == pre.slots@[i].key@
                    && mid2.slots@[i].generation == pre.slots@[i].generation by {
                assert(mid1.slots@[i] == mid2.slots@[i]);
                assert(mid1.slots@[i].key@ == pre.slots@[i].key@);
            }
            Self::lemma_index_after_swap_remove(&pre, &mid2, je as int, t);
            // the shortened view drops the last pair and its keys stay
            // distinct; the fresh key is still absent
            assert(mid2@ =~= pre@.drop_last()) by {
                assert forall|q: int| 0 <= q < mid2@.len()
                    implies #[trigger] mid2@[q] == pre@[q] by {
                    assert(ord2[q] == ord[q]);
                    assert(ord2[q] != t);
                }
            }
            assert(mid2.keys_wf()) by {
                assert forall|i1: int, i2: int| 0 <= i1 < i2 < ord2.len()
                    implies mid2.slots@[#[trigger] ord2[i1] as int].key@
                        != mid2.slots@[#[trigger] ord2[i2] as int].key@ by {
                    assert(ord2[i1] == ord[i1] && ord2[i2] == ord[i2]);
                    assert(pre.slots@[ord[i1] as int].key@ != pre.slots@[ord[i2] as int].key@);
                }
            }
            assert(!has_key(mid2@, key@)) by {
                if has_key(mid2@, key@) {
                    let i = choose|i: int| 0 <= i < mid2@.len() && mid2@[i].0 == key@;
                    assert(pre@[i].0 == key@);
                }
            }
        }
        self.attach_head(t);
        self.key_index.push(KeySlot { key: key2, slot: t, generation: gn });
        proof {
            Self::lemma_index_after_insert(&mid2, self, t, gn);
            Self::lemma_keys_view_after_insert(&mid2, self, t, key@, value);
            assert(pre@.last() == (pre.slots@[t as int].key@, pre.slots@[t as int].value));
        }
        let Slot { key: ek, value: ev, .. } = cell;
        (ek, ev)
    }
}

impl<V> LruCache<V> {
    /// Evict the least recently used entry: detach the tail slot, drop its
    /// key index entry, bump the slot's generation and push it onto the
    /// free list. `filler` is parked in the freed cell so that the evicted
    /// value can be moved out.
    #[verifier::rlimit(100)]
    fn pop_tail(&mut self, filler: V) -> (r: (String, V))
        requires
            old(self).wf(),
            old(self)@.len() > 0,
        ensures
            final(self).wf(),
            final(self).capacity == old(self).capacity,
            final(self)@ == old(self)@.drop_last(),
            r.0@ == old(self)@.last().0,
            r.1 == old(self)@.last().1,
    {
        let ghost pre = *self;
        let ghost ord = self.order@;
        let ghost p = ord.len() - 1;
        let t = match self.tail {
            Some(t) => t,
            None => unreached(),
        };
        let je = match self.find_slot_entry(t) {
            Some(j) => j,
            None => {
                proof {
                    assert(key_slots_contain(self.key_index@, ord[p]));
                    let j0 = choose|j: int| 0 <= j < self.key_index@.len()
                        && (#[trigger] self.key_index@[j].slot) == ord[p];
                    assert(false);
                }
                unreached()
            }
        };
        self.detach(t, Ghost(p));
        proof {
            assert(ord.remove(p) =~= ord.drop_last());
        }
        let ghost mid1 = *self;
        self.key_index.swap_remove(je);
        let g = self.slots[t].generation;
        let gn = g.wrapping_add(1);
        let old_free_head = self.free_head;
        let mut cell = Slot {
            key: String::new(),
            value: filler,
            prev: None,
            next: old_free_head,
            generation: gn,
            occupied: false,
        };
        self.slots.set_and_swap(t, &mut cell);
        self.free_head = Some(t);
        proof {
            self.free@ = seq![t] + pre.free@;
            let ord2 = self.order@;
            // cells on the shortened list are untouched since the detach
            assert forall|q: int| 0 <= q < ord2.len() implies
                self.slots@[#[trigger] ord2[q] as int] == mid1.slots@[ord2[q] as int] by {
                assert(ord2[q] == ord[q]);
                assert(ord2[q] != t);
            }
            assert(self.list_wf());
            assert(self.free_wf()) by {
                let fr = self.free@;
                assert forall|q: int| 0 <= q < fr.len() implies
                    s_free_chain_ok(self.slots@, fr, q) by {
                    if q > 0 {
                        assert(fr[q] == pre.free@[q - 1]);
                        assert(!pre.slots@[fr[q] as int].occupied);
                        assert(pre.slots@[t as int].occupied);
                        assert(fr[q] != t);
                        assert(mid1.slots@[fr[q] as int].next == pre.slots@[fr[q] as int].next);
                        assert(self.slots@[fr[q] as int] == mid1.slots@[fr[q] as int]);
                        if q + 1 < fr.len() {
                            assert(fr[q + 1] == pre.free@[q]);
                            assert(fr[q + 1] != t);
                        }
                    }
                }
                assert forall|q1: int, q2: int| 0 <= q1 < q2 < fr.len()
                    implies fr[q1] != fr[q2] by {
                    if q1 == 0 {
                        assert(fr[q2] == pre.free@[q2 - 1]);
                        assert(!pre.slots@[fr[q2] as int].occupied);
                        assert(pre.slots@[t as int].occupied);
                    } else {
                        assert(fr[q1] == pre.free@[q1 - 1]);
                        assert(fr[q2] == pre.free@[q2 - 1]);
                    }
                }
            }
            assert forall|i: int| 0 <= i < pre.slots@.len() && i != t
                implies (#[trigger] self.slots@[i]).key@ == pre.slots@[i].key@
                    && self.slots@[i].generation == pre.slots@[i].generation by {
                assert(self.slots@[i] == mid1.slots@[i]);
                assert(mid1.slots@[i].key@ == pre.slots@[i].key@);
            }
            Self::lemma_index_after_swap_remove(&pre, self, je as int, t);
            assert(self.keys_wf()) by {
                let ord3 = self.order@;
                assert forall|i1: int, i2: int| 0 <= i1 < i2 < ord3.len()
                    implies self.slots@[#[trigger] ord3[i1] as int].key@
                        != self.slots@[#[trigger] ord3[i2] as int].key@ by {
                    assert(ord3[i1] == ord[i1] && ord3[i2] == ord[i2]);
                    assert(ord3[i1] != t && ord3[i2] != t);
                    assert(pre.slots@[ord[i1] as int].key@ != pre.slots@[ord[i2] as int].key@);
                }
            }
            assert(self@ =~= pre@.drop_last()) by {
                assert forall|q: int| 0 <= q < self@.len()
                    implies #[trigger] self@[q] == pre@[q] by {
                    assert(self.order@[q] == ord[q]);
                    assert(self.order@[q] != t);
                    assert(self.slots@[ord[q] as int] == mid1.slots@[ord[q] as int]);
                    assert(mid1.slots@[ord[q] as int].key@ == pre.slots@[ord[q] as int].key@
                        && mid1.slots@[ord[q] as int].value == pre.slots@[ord[q] as int].value);
                }
            }
            assert(pre@.last() == (pre.slots@[t as int].key@, pre.slots@[t as int].value));
        }
        let Slot { key: ek, value: ev, .. } = cell;
        (ek, ev)
    }

    /// Detach the slot at position `p` of the usage list and re-attach it
    /// at the head.
    #[verifier::rlimit(100)]
    fn move_to_head(&mut self, i: usize, Ghost(p): Ghost<int>)
        requires
            old(self).wf(),
            0 <= p < old(self).order@.len(),
            old(self).order@[p] == i,
        ensures
            final(self).wf(),
            final(self).capacity == old(self).capacity,
            final(self).key_index == old(self).key_index,
            final(self)@ == seq![old(self)@[p]] + old(self)@.remove(p),
            final(self).order@[0] == i,
    {
        let ghost pre = *self;
        self.detach(i, Ghost(p));
        self.attach_head(i);
        proof {
            Self::lemma_wf_after_reorder(&pre, self, p);
            Self::lemma_view_move_front(&pre, self, p);
        }
    }
}

/// What `put` does to the listed pairs, and what it evicts: an existing key
/// is overwritten and moved to the front; a fresh key is inserted in front,
/// evicting the last pair when the cache is full.
pub open spec fn spec_put<V>(s: Seq<(Seq<char>, V)>, cap: nat, k: Seq<char>, v: V)
    -> (Seq<(Seq<char>, V)>, Option<(Seq<char>, V)>)
{
    if has_key(s, k) {
        (seq![(k, v)] + s.remove(key_pos(s, k)), None)
    } else if s.len() < cap {
        (seq![(k, v)] + s, None)
    } else if cap == 0 {
        (s, Some((k, v)))
    } else {
        (seq![(k, v)] + s.drop_last(), Some(s.last()))
    }
}

impl<V> LruCache<V> {
    /// Insert or overwrite `key`. The pair becomes the most recently used;
    /// if a fresh key is inserted while the cache is full, the least
    /// recently used pair is evicted and returned. The number of entries
    /// never exceeds the capacity afterwards.
    pub fn put(&mut self, key: String, value: V) -> (r: Option<(String, V)>)
        requires
            old(self).wf(),
        ensures
            final(self).wf(),
            final(self).capacity() == old(self).capacity(),
            final(self)@.len() <= final(self).capacity(),
            final(self)@ == spec_put(old(self)@, old(self).capacity() as nat, key@, value).0,
            match r {
                None => spec_put(old(self)@, old(self).capacity() as nat, key@, value).1
                    is None,
                Some(kv) => spec_put(old(self)@, old(self).capacity() as nat, key@, value).1
                    == Some((kv.0@, kv.1)),
            },
    {
        let ghost pre = *self;
        match self.find_entry(&key) {
            Some(j) => {
                proof {
                    let t = pre.key_index@[j as int].slot;
                    assert(pre.order@.contains(t));
                    let i = choose|i: int| 0 <= i < pre.order@.len() && pre.order@[i] == t;
                    assert(pre@[i].0 == key@);
                    assert(has_key(pre@, key@));
                }
                self.put_update(j, value);
                None
            }
            None => {
                proof {
                    self.lemma_no_entry_no_key(key@);
                }
                let n = self.key_index.len();
                if n < self.capacity {
                    self.put_insert(key, value);
                    None
                } else if self.capacity == 0 {
                    Some((key, value))
                } else {
                    Some(self.put_evict(key, value))
                }
            }
        }
    }
}

impl<V> LruCache<V> {
    /// Insert a fresh key while under capacity: the new entry becomes the
    /// head of the usage list and nothing is evicted.
    #[verifier::rlimit(100)]
    fn put_insert(&mut self, key: String, value: V)
        requires
            old(self).wf(),
            !has_key(old(self)@, key@),
            old(self)@.len() < old(self).capacity(),
        ensures
            final(self).wf(),
            final(self).capacity == old(self).capacity,
            final(self)@ == seq![(key@, value)] + old(self)@,
    {
        let ghost pre = *self;
        let key2 = key.clone();
        let (idx, g) = self.alloc_cell(key, value);
        let ghost mid = *self;
        self.attach_head(idx);
        self.key_index.push(KeySlot { key: key2, slot: idx, generation: g });
        proof {
            Self::lemma_listed_cells_kept(&pre, &mid, self, idx);
            Self::lemma_index_after_insert(&pre, self, idx, g);
            Self::lemma_keys_view_after_insert(&pre, self, idx, key@, value);
        }
    }
}

/// Updating a position and then removing it leaves the same sequence as
/// removing it directly.
proof fn lemma_seq_update_remove<T>(s: Seq<T>, p: int, x: T)
    requires
        0 <= p < s.len(),
    ensures
        s.update(p, x).remove(p) == s.remove(p),
{
    assert(s.update(p, x).remove(p) =~= s.remove(p));
}

/// Chain condition of the free list at position `q`.
spec fn s_free_chain_ok<V>(s: Seq<Slot<V>>, fr: Seq<usize>, q: int) -> bool {
    &&& fr[q] < s.len()
    &&& !s[fr[q] as int].occupied
    &&& s[fr[q] as int].next == (if q == fr.len() - 1 { None::<usize> } else { Some(fr[q + 1]) })
}

/// True iff some pair of `s` has key `k`.
pub open spec fn has_key<V>(s: Seq<(Seq<char>, V)>, k: Seq<char>) -> bool {
    exists|i: int| 0 <= i < s.len() && (#[trigger] s[i]).0 == k
}

/// The position of the pair with key `k` (unique when keys are distinct).
pub open spec fn key_pos<V>(s: Seq<(Seq<char>, V)>, k: Seq<char>) -> int {
    choose|i: int| 0 <= i < s.len() && (#[trigger] s[i]).0 == k
}

/// Pairwise distinct keys.
pub open spec fn distinct_keys<V>(s: Seq<(Seq<char>, V)>) -> bool {
    forall|i: int, j: int| 0 <= i < j < s.len() ==> (#[trigger] s[i]).0 != (#[trigger] s[j]).0
}

impl<V> LruCache<V> {
    /// A well-formed cache never lists a key twice.
    pub proof fn lemma_view_keys_distinct(&self)
        requires
            self.wf(),
        ensures
            distinct_keys(self@),
    {
        assert forall|i: int, j: int| 0 <= i < j < self@.len()
            implies (#[trigger] self@[i]).0 != (#[trigger] self@[j]).0 by {
            assert(self.slots@[self.order@[i] as int].key@
                != self.slots@[self.order@[j] as int].key@);
        }
    }
}

// ---------------------------------------------------------------------------
// Package usage cache: the slot cache plus per-key size accounting.
// ---------------------------------------------------------------------------

/// Sum of the tracked sizes.
pub open spec fn sum_sizes(s: Seq<(Seq<char>, u64)>) -> int
    decreases s.len(),
{
    if s.len() == 0 {
        0
    } else {
        sum_sizes(s.drop_last()) + s.last().1
    }
}

/// True iff the size ledger tracks key `k`.
pub open spec fn assoc_has(s: Seq<(Seq<char>, u64)>, k: Seq<char>) -> bool {
    exists|i: int| 0 <= i < s.len() && (#[trigger] s[i]).0 == k
}

/// The position at which the size ledger tracks key `k`.
pub open spec fn assoc_pos(s: Seq<(Seq<char>, u64)>, k: Seq<char>) -> int {
    choose|i: int| 0 <= i < s.len() && (#[trigger] s[i]).0 == k
}

/// True iff some tracked package has key `k`.
pub open spec fn usage_has(s: Seq<UsageModel>, k: Seq<char>) -> bool {
    exists|i: int| 0 <= i < s.len() && (#[trigger] s[i]).key == k
}

/// The position of the tracked package with key `k`.
pub open spec fn usage_pos(s: Seq<UsageModel>, k: Seq<char>) -> int {
    choose|i: int| 0 <= i < s.len() && (#[trigger] s[i]).key == k
}

/// `a + b`, saturating at the largest `u64`.
pub open spec fn sat_add(a: u64, b: u64) -> u64 {
    if a + b > u64::MAX {
        u64::MAX
    } else {
        (a + b) as u64
    }
}

/// The metrics created on a first observed access.
pub open spec fn fresh_usage(k: Seq<char>, now: i64) -> UsageModel {
    UsageModel {
        key: k,
        last_access_time: now,
        last_script_execution: None,
        access_count: 1,
        script_execution_count: 0,
        last_successful_build: None,
    }
}

/// An access of the package at position `p`: its access count is bumped,
/// its access time refreshed, and it moves to the most recently used spot.
pub open spec fn usage_touch(s: Seq<UsageModel>, p: int, now: i64) -> Seq<UsageModel> {
    seq![UsageModel {
        last_access_time: now,
        access_count: sat_add(s[p].access_count, 1),
        ..s[p]
    }] + s.remove(p)
}

/// What recording a script execution at time `now` does to the tracked
/// packages: the package's script count is bumped, its script time
/// refreshed, and it moves to the most recently used spot; an untracked
/// key changes nothing.
pub open spec fn spec_record_script(s: Seq<UsageModel>, k: Seq<char>, now: i64)
    -> Seq<UsageModel>
{
    if usage_has(s, k) {
        let p = usage_pos(s, k);
        seq![UsageModel {
            last_script_execution: Some(now),
            script_execution_count: sat_add(s[p].script_execution_count, 1),
            ..s[p]
        }] + s.remove(p)
    } else {
        s
    }
}

/// What recording a successful build at time `now` does to the tracked
/// packages: the package's build time is refreshed and it moves to the
/// most recently used spot; an untracked key changes nothing.
pub open spec fn spec_record_build(s: Seq<UsageModel>, k: Seq<char>, now: i64)
    -> Seq<UsageModel>
{
    if usage_has(s, k) {
        let p = usage_pos(s, k);
        seq![UsageModel { last_successful_build: Some(now), ..s[p] }] + s.remove(p)
    } else {
        s
    }
}

/// What a keep-or-evict consultation at time `now` returns and does: for a
/// tracked key, the verdict is the composite rule and the package moves to
/// the most recently used spot; an untracked key is not kept and nothing
/// moves.
pub open spec fn spec_keep_outcome(
    mv: Seq<UsageModel>,
    sv: Seq<(Seq<char>, u64)>,
    total: u64,
    budget: u64,
    k: Seq<char>,
    days_threshold: i64,
    now: i64,
    r: bool,
    post_mv: Seq<UsageModel>,
) -> bool {
    if usage_has(mv, k) {
        let p = usage_pos(mv, k);
        let own = if assoc_has(sv, k) {
            Some(sv[assoc_pos(sv, k)].1)
        } else {
            None::<u64>
        };
        &&& r == spec_should_keep(mv[p], own, total, budget, sv.len(), days_threshold, now)
        &&& post_mv == seq![mv[p]] + mv.remove(p)
    } else {
        &&& r == false
        &&& post_mv == mv
    }
}

/// Remove key `k` from the size ledger, if tracked, subtracting its size
/// from the running total.
pub open spec fn spec_drop_size(sv: Seq<(Seq<char>, u64)>, total: int, k: Seq<char>)
    -> (Seq<(Seq<char>, u64)>, int)
{
    if assoc_has(sv, k) {
        (sv.remove(assoc_pos(sv, k)), total - sv[assoc_pos(sv, k)].1)
    } else {
        (sv, total)
    }
}

/// While the running total exceeds the byte budget, evict the least
/// recently used package and drop its tracked size, until under budget or
/// nothing is left.
pub open spec fn spec_shrink(
    mv: Seq<UsageModel>,
    sv: Seq<(Seq<char>, u64)>,
    total: int,
    budget: u64,
) -> (Seq<UsageModel>, Seq<(Seq<char>, u64)>, int)
    decreases mv.len(),
{
    if total <= budget || mv.len() == 0 {
        (mv, sv, total)
    } else {
        let k = mv.last().key;
        let dropped = spec_drop_size(sv, total, k);
        spec_shrink(mv.drop_last(), dropped.0, dropped.1, budget)
    }
}

/// What recording an access does to the whole usage state: metrics list
/// (most recently used first), size ledger, and running total.
pub open spec fn spec_record_access(
    mv: Seq<UsageModel>,
    sv: Seq<(Seq<char>, u64)>,
    total: int,
    cap: nat,
    budget: u64,
    k: Seq<char>,
    size: u64,
    now: i64,
) -> (Seq<UsageModel>, Seq<(Seq<char>, u64)>, int) {
    if usage_has(mv, k) {
        (usage_touch(mv, usage_pos(mv, k), now), sv, total)
    } else {
        let fresh = fresh_usage(k, now);
        let inserted = if mv.len() < cap {
            (seq![fresh] + mv, None)
        } else if cap == 0 {
            (mv, Some(k))
        } else {
            (seq![fresh] + mv.drop_last(), Some(mv.last().key))
        };
        let after_evict = match inserted.1 {
            Some(ek) => spec_drop_size(sv, total, ek),
            None => (sv, total),
        };
        let replaced = spec_drop_size(after_evict.0, after_evict.1, k);
        let sv2 = replaced.0.push((k, size));
        let t2 = replaced.1 + size;
        spec_shrink(inserted.0, sv2, t2, budget)
    }
}

/// Every tracked size is at most the sum, and removing an entry subtracts
/// exactly its size.
proof fn lemma_sum_remove(s: Seq<(Seq<char>, u64)>, j: int)
    requires
        0 <= j < s.len(),
    ensures
        sum_sizes(s.remove(j)) == sum_sizes(s) - s[j].1,
    decreases s.len(),
{
    if j == s.len() - 1 {
        assert(s.remove(j) =~= s.drop_last());
    } else {
        lemma_sum_remove(s.drop_last(), j);
        assert(s.remove(j).drop_last() =~= s.drop_last().remove(j));
        assert(s.remove(j).last() == s.last());
        assert(sum_sizes(s.remove(j))
            == sum_sizes(s.remove(j).drop_last()) + s.remove(j).last().1);
    }
}

/// The sum of tracked sizes is never negative.
proof fn lemma_sum_nonneg(s: Seq<(Seq<char>, u64)>)
    ensures
        sum_sizes(s) >= 0,
    decreases s.len(),
{
    if s.len() > 0 {
        lemma_sum_nonneg(s.drop_last());
    }
}

/// Division truncating toward zero, as the machine's signed division does.
pub open spec fn trunc_div(a: int, d: int) -> int {
    if a >= 0 {
        a / d
    } else {
        -((-a) / d)
    }
}

/// Whole days from `last` to `now`, truncated toward zero.
pub open spec fn days_since(last: i64, now: i64) -> int {
    trunc_div(now - last, 86400)
}

/// True iff the running total exceeds nine tenths of the byte budget.
pub open spec fn size_pressure(total: u64, budget: u64) -> bool {
    10 * total > 9 * budget
}

/// True iff this package's tracked size exceeds twice the mean tracked
/// size.
pub open spec fn size_outlier(own: Option<u64>, total: u64, n_sizes: nat) -> bool {
    match own {
        Some(s) => n_sizes > 0 && s * n_sizes > 2 * total,
        None => false,
    }
}

/// The effective recency threshold: a third of the base threshold under
/// size pressure, half of it for an outlier-sized package, otherwise the
/// base threshold — a monotonically stricter bar.
pub open spec fn effective_threshold(
    own: Option<u64>,
    total: u64,
    budget: u64,
    n_sizes: nat,
    days_threshold: i64,
) -> int {
    if size_pressure(total, budget) {
        trunc_div(days_threshold as int, 3)
    } else if size_outlier(own, total, n_sizes) {
        trunc_div(days_threshold as int, 2)
    } else {
        days_threshold as int
    }
}

/// The composite keep-or-evict rule: a package is kept iff the whole days
/// since its last access are below the effective threshold.
pub open spec fn spec_should_keep(
    m: UsageModel,
    own: Option<u64>,
    total: u64,
    budget: u64,
    n_sizes: nat,
    days_threshold: i64,
    now: i64,
) -> bool {
    days_since(m.last_access_time, now)
        < effective_threshold(own, total, budget, n_sizes, days_threshold)
}

/// `a / d` truncated toward zero, computed without signed division.
fn div_trunc_exec(a: i64, d: u64) -> (r: i64)
    requires
        1 <= d,
    ensures
        r as int == trunc_div(a as int, d as int),
{
    if a >= 0 {
        ((a as u64) / d) as i64
    } else {
        let m: u128 = (-(a as i128)) as u128;
        let q: u128 = m / (d as u128);
        proof {
            assert(q <= m);
            assert(m <= 0x8000_0000_0000_0000u128);
        }
        let qi: i128 = q as i128;
        (-qi) as i64
    }
}

/// Removing a ledger entry keeps the remaining keys distinct.
proof fn lemma_sizes_remove_distinct(sv: Seq<(Seq<char>, u64)>, j: int)
    requires
        distinct_keys(sv),
        0 <= j < sv.len(),
    ensures
        distinct_keys(sv.remove(j)),
{
    assert forall|i1: int, i2: int| 0 <= i1 < i2 < sv.remove(j).len()
        implies (#[trigger] sv.remove(j)[i1]).0 != (#[trigger] sv.remove(j)[i2]).0 by {
        let o1 = if i1 < j { i1 } else { i1 + 1 };
        let o2 = if i2 < j { i2 } else { i2 + 1 };
        assert(sv.remove(j)[i1] == sv[o1]);
        assert(sv.remove(j)[i2] == sv[o2]);
    }
}

/// A metrics value used only to fill a freed arena cell.
fn blank_metrics() -> PackageUsageMetrics {
    PackageUsageMetrics {
        package_key: String::new(),
        last_access_time: 0,
        last_script_execution: None,
        access_count: 0,
        script_execution_count: 0,
        last_successful_build: None,
    }
}

/// LRU cache specialized for package keys, adding per-key byte-size
/// accounting under a byte budget.
pub struct PackageLruCache {
    cache: LruCache<PackageUsageMetrics>,
    size_map: Vec<(String, u64)>,
    max_size_bytes: u64,
    current_size_bytes: u64,
}

impl PackageLruCache {
    /// The tracked packages, most recently used first.
    pub closed spec fn metrics_view(&self) -> Seq<UsageModel> {
        Seq::new(self.cache@.len(), |i: int| self.cache@[i].1@)
    }

    /// The size ledger: tracked (key, size) pairs in insertion order.
    pub closed spec fn sizes_view(&self) -> Seq<(Seq<char>, u64)> {
        Seq::new(self.size_map@.len(), |i: int| (self.size_map@[i].0@, self.size_map@[i].1))
    }

    /// The running total of tracked sizes.
    pub closed spec fn total_bytes(&self) -> u64 {
        self.current_size_bytes
    }

    /// The configured byte budget.
    pub closed spec fn budget(&self) -> u64 {
        self.max_size_bytes
    }

    /// The configured entry capacity.
    pub closed spec fn count_capacity(&self) -> nat {
        self.cache.capacity() as nat
    }

    /// The size ledger alone is well-formed: it tracks each key at most
    /// once, and the running total equals the sum of all tracked sizes.
    pub closed spec fn sizes_wf(&self) -> bool {
        &&& distinct_keys(self.sizes_view())
        &&& self.current_size_bytes == sum_sizes(self.sizes_view())
    }

    /// Well-formedness: the slot cache is well-formed, each listed pair's
    /// key names its metrics, and the size ledger is well-formed.
    pub closed spec fn wf(&self) -> bool {
        &&& self.cache.wf()
        &&& forall|i: int| 0 <= i < self.cache@.len()
            ==> (#[trigger] self.cache@[i]).0 == self.cache@[i].1.package_key@
        &&& self.sizes_wf()
    }

    pub fn new(max_packages: usize, max_size_bytes: u64) -> (r: Self)
        ensures
            r.wf(),
            r.metrics_view() == Seq::<UsageModel>::empty(),
            r.sizes_view() == Seq::<(Seq<char>, u64)>::empty(),
            r.total_bytes() == 0,
            r.budget() == max_size_bytes,
            r.count_capacity() == max_packages,
    {
        let r = PackageLruCache {
            cache: LruCache::new(max_packages),
            size_map: Vec::new(),
            max_size_bytes,
            current_size_bytes: 0,
        };
        proof {
            assert(r.metrics_view() =~= Seq::<UsageModel>::empty());
            assert(r.sizes_view() =~= Seq::<(Seq<char>, u64)>::empty());
        }
        r
    }

    /// Current total of tracked sizes in bytes.
    pub fn current_size(&self) -> (r: u64)
        ensures
            r == self.total_bytes(),
    {
        self.current_size_bytes
    }

    /// True iff the running total has reached the byte budget.
    pub fn is_size_limited(&self) -> (r: bool)
        ensures
            r == (self.total_bytes() >= self.budget()),
    {
        self.current_size_bytes >= self.max_size_bytes
    }

    /// The tracked size of one package.
    pub fn get_package_size(&self, package_key: &str) -> (r: Option<u64>)
        requires
            self.wf(),
        ensures
            match r {
                Some(s) => assoc_has(self.sizes_view(), package_key@)
                    && s == self.sizes_view()[assoc_pos(self.sizes_view(), package_key@)].1,
                None => !assoc_has(self.sizes_view(), package_key@),
            },
    {
        let k = package_key.to_owned();
        match self.find_size(&k) {
            Some(j) => {
                proof {
                    let sv = self.sizes_view();
                    assert(sv[j as int].0 == package_key@);
                    let j0 = assoc_pos(sv, package_key@);
                    if j0 < j as int {
                        assert(sv[j0].0 != sv[j as int].0);
                    } else if j0 > j as int {
                        assert(sv[j as int].0 != sv[j0].0);
                    }
                }
                Some(self.size_map[j].1)
            }
            None => {
                proof {
                    if assoc_has(self.sizes_view(), package_key@) {
                        let j0 = assoc_pos(self.sizes_view(), package_key@);
                    }
                }
                None
            }
        }
    }

    /// Search the size ledger for `key`.
    fn find_size(&self, key: &String) -> (r: Option<usize>)
        ensures
            match r {
                Some(j) => j < self.size_map@.len() && self.size_map@[j as int].0@ == key@,
                None => forall|j: int| 0 <= j < self.size_map@.len()
                    ==> (#[trigger] self.size_map@[j].0)@ != key@,
            },
    {
        let n = self.size_map.len();
        let mut j: usize = 0;
        while j < n
            invariant
                n == self.size_map@.len(),
                j <= n,
                forall|j2: int| 0 <= j2 < j ==> (#[trigger] self.size_map@[j2].0)@ != key@,
            decreases n - j,
        {
            if self.size_map[j].0 == *key {
                return Some(j);
            }
            j += 1;
        }
        None
    }

    /// The cache never lists a model key twice, and model keys line up with
    /// the listed pair keys.
    proof fn lemma_usage_pos(&self, p: int)
        requires
            self.wf(),
            0 <= p < self.metrics_view().len(),
        ensures
            usage_has(self.metrics_view(), self.metrics_view()[p].key),
            usage_pos(self.metrics_view(), self.metrics_view()[p].key) == p,
            self.metrics_view()[p].key == self.cache@[p].0,
    {
        let mv = self.metrics_view();
        self.cache.lemma_view_keys_distinct();
        assert(usage_has(mv, mv[p].key));
        let p0 = usage_pos(mv, mv[p].key);
        if p0 < p {
            assert(self.cache@[p0].0 != self.cache@[p].0);
        } else if p0 > p {
            assert(self.cache@[p].0 != self.cache@[p0].0);
        }
    }

    /// An absent pair key means an absent model key, and conversely.
    proof fn lemma_usage_has_iff(&self, k: Seq<char>)
        requires
            self.wf(),
        ensures
            usage_has(self.metrics_view(), k) == has_key(self.cache@, k),
    {
        let mv = self.metrics_view();
        if usage_has(mv, k) {
            let i = choose|i: int| 0 <= i < mv.len() && mv[i].key == k;
            assert(self.cache@[i].0 == k);
            assert(has_key(self.cache@, k));
        }
        if has_key(self.cache@, k) {
            let i = choose|i: int| 0 <= i < self.cache@.len() && self.cache@[i].0 == k;
            assert(mv[i].key == k);
            assert(usage_has(mv, k));
        }
    }

    /// Record an access of `package_key` at time `now`: an already tracked
    /// package is touched (count bumped, time refreshed, moved to the most
    /// recently used spot); a fresh one is inserted with fresh metrics and
    /// its size tracked, evicting the least recently used package when the
    /// cache is full, and then evicting further least recently used
    /// packages while the running total exceeds the byte budget.
    #[verifier::rlimit(100)]
    pub fn record_access_at(&mut self, package_key: &str, size_bytes: u64, now: i64)
        requires
            old(self).wf(),
            old(self).total_bytes() + size_bytes <= u64::MAX,
        ensures
            final(self).wf(),
            final(self).budget() == old(self).budget(),
            final(self).count_capacity() == old(self).count_capacity(),
            (final(self).metrics_view(), final(self).sizes_view(), final(self).total_bytes() as int)
                == spec_record_access(
                    old(self).metrics_view(),
                    old(self).sizes_view(),
                    old(self).total_bytes() as int,
                    old(self).count_capacity(),
                    old(self).budget(),
                    package_key@,
                    size_bytes,
                    now,
                ),
    {
        let ghost pre = *self;
        let ghost mv0 = pre.metrics_view();
        let ghost sv0 = pre.sizes_view();
        let ghost t0 = pre.total_bytes() as int;
        let ghost k = package_key@;
        let hit = {
            let r = self.cache.get(package_key);
            match r {
                Some(m) => {
                    let updated = PackageUsageMetrics {
                        package_key: m.package_key.clone(),
                        last_access_time: now,
                        last_script_execution: m.last_script_execution,
                        access_count: if m.access_count < u64::MAX {
                            m.access_count + 1
                        } else {
                            u64::MAX
                        },
                        script_execution_count: m.script_execution_count,
                        last_successful_build: m.last_successful_build,
                    };
                    Some(updated)
                }
                None => None,
            }
        };
        match hit {
            Some(updated) => {
                let ghost p = key_pos(pre.cache@, k);
                proof {
                    pre.lemma_usage_has_iff(k);
                    assert(mv0[p].key == pre.cache@[p].0);
                    pre.lemma_usage_pos(p);
                    self.cache.lemma_view_keys_distinct();
                    assert(self.cache@[0].0 == k);
                    assert(has_key(self.cache@, k));
                    assert(key_pos(self.cache@, k) == 0) by {
                        let i0 = key_pos(self.cache@, k);
                        assert(self.cache@[i0].0 == k);
                        if i0 > 0 {
                            assert(self.cache@[0].0 != self.cache@[i0].0);
                        }
                    }
                }
                let ghost cache1 = self.cache@;
                let kstr = package_key.to_owned();
                let ev = self.cache.put(kstr, updated);
                proof {
                    assert(ev is None);
                    assert(self.cache@ == seq![(k, updated)] + cache1.remove(0));
                    assert(cache1.remove(0) =~= pre.cache@.remove(p));
                    let tgt = usage_touch(mv0, p, now);
                    assert(self.metrics_view() =~= tgt) by {
                        assert(updated@ == tgt[0]);
                        assert forall|q: int| 0 < q < self.metrics_view().len()
                            implies #[trigger] self.metrics_view()[q] == tgt[q] by {
                            assert(self.cache@[q] == pre.cache@.remove(p)[q - 1]);
                            assert(tgt[q] == mv0.remove(p)[q - 1]);
                            if q - 1 < p {
                                assert(mv0.remove(p)[q - 1] == mv0[q - 1]);
                                assert(pre.cache@.remove(p)[q - 1] == pre.cache@[q - 1]);
                            } else {
                                assert(mv0.remove(p)[q - 1] == mv0[q]);
                                assert(pre.cache@.remove(p)[q - 1] == pre.cache@[q]);
                            }
                        }
                    }
                    assert(self.sizes_view() =~= sv0);
                    assert forall|i: int| 0 <= i < self.cache@.len()
                        implies (#[trigger] self.cache@[i]).0
                            == self.cache@[i].1.package_key@ by {
                        if i > 0 {
                            let io = if i - 1 < p { i - 1 } else { i };
                            assert(self.cache@[i] == pre.cache@[io]);
                        }
                    }
                }
            }
            None => {
                proof {
                    pre.lemma_usage_has_iff(k);
                }
                let kstr = package_key.to_owned();
                let krep = package_key.to_owned();
                let kpush = package_key.to_owned();
                let fresh = PackageUsageMetrics {
                    package_key: kstr,
                    last_access_time: now,
                    last_script_execution: None,
                    access_count: 1,
                    script_execution_count: 0,
                    last_successful_build: None,
                };
                let ghost freshm = fresh_usage(k, now);
                let ev = self.cache.put(krep, fresh);
                let ghost spec_ins = (
                    if mv0.len() < pre.count_capacity() {
                        (seq![freshm] + mv0, None::<Seq<char>>)
                    } else if pre.count_capacity() == 0 {
                        (mv0, Some(k))
                    } else {
                        (seq![freshm] + mv0.drop_last(), Some(mv0.last().key))
                    }
                );
                proof {
                    assert(fresh@ == freshm);
                    // the model list after the insert matches the spec's
                    if mv0.len() < pre.count_capacity() {
                        assert(self.cache@ == seq![(k, fresh)] + pre.cache@);
                        assert(self.metrics_view() =~= spec_ins.0);
                        assert(ev is None);
                    } else if pre.count_capacity() == 0 {
                        assert(self.cache@ == pre.cache@);
                        assert(self.metrics_view() =~= spec_ins.0);
                    } else {
                        assert(self.cache@ == seq![(k, fresh)] + pre.cache@.drop_last());
                        assert(self.metrics_view() =~= spec_ins.0) by {
                            assert forall|q: int| 0 <= q < self.metrics_view().len()
                                implies #[trigger] self.metrics_view()[q]
                                    == spec_ins.0[q] by {
                                if q > 0 {
                                    assert(self.cache@[q] == pre.cache@.drop_last()[q - 1]);
                                    assert(mv0.drop_last()[q - 1] == mv0[q - 1]);
                                }
                            }
                        }
                        assert(pre.cache@.last().0 == mv0.last().key);
                    }
                    // listed pairs still name their metrics
                    assert forall|i: int| 0 <= i < self.cache@.len()
                        implies (#[trigger] self.cache@[i]).0
                            == self.cache@[i].1.package_key@ by {}
                }
                match ev {
                    Some(evicted) => {
                        let (ek, _em) = evicted;
                        self.drop_size(&ek);
                        proof {
                            match spec_ins.1 {
                                Some(sk) => {
                                    assert(ek@ == sk);
                                }
                                None => {
                                    assert(false);
                                }
                            }
                        }
                    }
                    None => {
                        proof {
                            assert(spec_ins.1 is None);
                        }
                    }
                }
                let ghost after_evict = (self.sizes_view(), self.total_bytes() as int);
                self.drop_size(&kpush);
                let ghost replaced = (self.sizes_view(), self.total_bytes() as int);
                proof {
                    lemma_sum_nonneg(self.sizes_view());
                    assert(self.total_bytes() <= pre.total_bytes());
                }
                self.size_map.push((kpush, size_bytes));
                self.current_size_bytes = self.current_size_bytes + size_bytes;
                proof {
                    assert(self.sizes_view() =~= replaced.0.push((k, size_bytes)));
                    assert(self.sizes_view().drop_last() =~= replaced.0);
                    assert(sum_sizes(self.sizes_view())
                        == sum_sizes(replaced.0) + size_bytes);
                    assert(distinct_keys(self.sizes_view())) by {
                        assert forall|i1: int, i2: int|
                            0 <= i1 < i2 < self.sizes_view().len()
                            implies (#[trigger] self.sizes_view()[i1]).0
                                != (#[trigger] self.sizes_view()[i2]).0 by {
                            if i2 == self.sizes_view().len() - 1 {
                                assert(self.sizes_view()[i1] == replaced.0[i1]);
                                if assoc_has(replaced.0, k) {
                                    let jj = assoc_pos(replaced.0, k);
                                }
                            }
                        }
                    }
                    assert(self.wf());
                }
                // evict least recently used packages until the total fits
                // the byte budget, or nothing is left
                let ghost mv_s = self.metrics_view();
                let ghost sv_s = self.sizes_view();
                let ghost t_s = self.total_bytes() as int;
                while self.current_size_bytes > self.max_size_bytes && !self.cache.is_empty()
                    invariant
                        self.wf(),
                        self.max_size_bytes == pre.max_size_bytes,
                        self.cache.capacity() == pre.cache.capacity(),
                        spec_shrink(
                            self.metrics_view(),
                            self.sizes_view(),
                            self.total_bytes() as int,
                            pre.max_size_bytes,
                        ) == spec_shrink(mv_s, sv_s, t_s, pre.max_size_bytes),
                    decreases self.cache@.len(),
                {
                    let ghost loop_pre = *self;
                    let filler = blank_metrics();
                    let (ek, _em) = self.cache.pop_tail(filler);
                    proof {
                        assert forall|i: int| 0 <= i < self.cache@.len()
                            implies (#[trigger] self.cache@[i]).0
                                == self.cache@[i].1.package_key@ by {
                            assert(self.cache@[i] == loop_pre.cache@[i]);
                        }
                        assert(self.metrics_view() =~= loop_pre.metrics_view().drop_last());
                        assert(ek@ == loop_pre.metrics_view().last().key);
                    }
                    self.drop_size(&ek);
                }
                proof {
                    assert((self.metrics_view(), self.sizes_view(), self.total_bytes() as int)
                        == spec_shrink(mv_s, sv_s, t_s, pre.max_size_bytes));
                }
            }
        }
    }

    /// Record an access of `package_key` now. The clock decides the access
    /// time; everything else is as `record_access_at` states.
    pub fn record_access(&mut self, package_key: &str, size_bytes: u64)
        requires
            old(self).wf(),
            old(self).total_bytes() + size_bytes <= u64::MAX,
        ensures
            final(self).wf(),
            final(self).budget() == old(self).budget(),
            final(self).count_capacity() == old(self).count_capacity(),
            exists|now: i64|
                (final(self).metrics_view(), final(self).sizes_view(),
                    final(self).total_bytes() as int)
                == spec_record_access(
                    old(self).metrics_view(),
                    old(self).sizes_view(),
                    old(self).total_bytes() as int,
                    old(self).count_capacity(),
                    old(self).budget(),
                    package_key@,
                    size_bytes,
                    now,
                ),
    {
        let now = crate::clock::now_seconds();
        self.record_access_at(package_key, size_bytes, now);
    }

    /// Return a copy of the metrics of `package_key`, touching its LRU
    /// position; the metrics themselves are unchanged.
    #[verifier::rlimit(100)]
    #[verifier::spinoff_prover]
    pub fn get_metrics(&mut self, package_key: &str) -> (r: Option<PackageUsageMetrics>)
        requires
            old(self).wf(),
        ensures
            final(self).wf(),
            final(self).budget() == old(self).budget(),
            final(self).count_capacity() == old(self).count_capacity(),
            final(self).sizes_view() == old(self).sizes_view(),
            final(self).total_bytes() == old(self).total_bytes(),
            match r {
                None => !usage_has(old(self).metrics_view(), package_key@)
                    && final(self).metrics_view() == old(self).metrics_view(),
                Some(m) => {
                    let mv = old(self).metrics_view();
                    let p = usage_pos(mv, package_key@);
                    &&& usage_has(mv, package_key@)
                    &&& m@ == mv[p]
                    &&& final(self).metrics_view() == seq![mv[p]] + mv.remove(p)
                },
            },
    {
        let ghost pre = *self;
        let ghost mv0 = pre.metrics_view();
        let ghost k = package_key@;
        let r = self.cache.get(package_key);
        match r {
            Some(m) => {
                let copy = m.clone();
                proof {
                    pre.lemma_usage_has_iff(k);
                    let pc = key_pos(pre.cache@, k);
                    assert(mv0[pc].key == pre.cache@[pc].0);
                    pre.lemma_usage_pos(pc);
                    assert(copy@ == mv0[pc]);
                    assert(self.metrics_view() =~= seq![mv0[pc]] + mv0.remove(pc)) by {
                        assert forall|q: int| 0 < q < self.metrics_view().len()
                            implies #[trigger] self.metrics_view()[q]
                                == (seq![mv0[pc]] + mv0.remove(pc))[q] by {
                            assert(self.cache@[q] == pre.cache@.remove(pc)[q - 1]);
                            if q - 1 < pc {
                                assert(pre.cache@.remove(pc)[q - 1] == pre.cache@[q - 1]);
                                assert(mv0.remove(pc)[q - 1] == mv0[q - 1]);
                            } else {
                                assert(pre.cache@.remove(pc)[q - 1] == pre.cache@[q]);
                                assert(mv0.remove(pc)[q - 1] == mv0[q]);
                            }
                        }
                    }
                    assert(self.sizes_view() =~= pre.sizes_view());
                    assert forall|i: int| 0 <= i < self.cache@.len()
                        implies (#[trigger] self.cache@[i]).0
                            == self.cache@[i].1.package_key@ by {
                        if i > 0 {
                            let io = if i - 1 < pc { i - 1 } else { i };
                            assert(self.cache@[i] == pre.cache@[io]);
                        }
                    }
                }
                Some(copy)
            }
            None => {
                proof {
                    pre.lemma_usage_has_iff(k);
                    assert(self.sizes_view() =~= pre.sizes_view());
                    assert(self.metrics_view() =~= mv0);
                }
                None
            }
        }
    }

    /// Replace the metrics of the package at the head of the usage list
    /// (the one `get` just touched) with `updated`.
    fn replace_front(&mut self, updated: PackageUsageMetrics)
        requires
            old(self).wf(),
            old(self).metrics_view().len() > 0,
            updated.package_key@ == old(self).metrics_view()[0].key,
        ensures
            final(self).wf(),
            final(self).budget() == old(self).budget(),
            final(self).count_capacity() == old(self).count_capacity(),
            final(self).sizes_view() == old(self).sizes_view(),
            final(self).total_bytes() == old(self).total_bytes(),
            final(self).metrics_view()
                == seq![updated@] + old(self).metrics_view().drop_first(),
    {
        let ghost pre = *self;
        let ghost mv0 = pre.metrics_view();
        let ghost k = pre.cache@[0].0;
        proof {
            self.cache.lemma_view_keys_distinct();
            assert(has_key(pre.cache@, k));
            assert(key_pos(pre.cache@, k) == 0) by {
                let i0 = key_pos(pre.cache@, k);
                assert(pre.cache@[i0].0 == k);
                if i0 > 0 {
                    assert(pre.cache@[0].0 != pre.cache@[i0].0);
                }
            }
        }
        let key = updated.package_key.clone();
        let ev = self.cache.put(key, updated);
        proof {
            assert(ev is None);
            assert(self.cache@ == seq![(k, updated)] + pre.cache@.remove(0));
            assert(pre.cache@.remove(0) =~= pre.cache@.drop_first());
            assert(self.metrics_view() =~= seq![updated@] + mv0.drop_first()) by {
                assert forall|q: int| 0 < q < self.metrics_view().len()
                    implies #[trigger] self.metrics_view()[q]
                        == (seq![updated@] + mv0.drop_first())[q] by {
                    assert(self.cache@[q] == pre.cache@[q]);
                }
            }
            assert(self.sizes_view() =~= pre.sizes_view());
            assert forall|i: int| 0 <= i < self.cache@.len()
                implies (#[trigger] self.cache@[i]).0
                    == self.cache@[i].1.package_key@ by {
                if i > 0 {
                    assert(self.cache@[i] == pre.cache@[i]);
                }
            }
        }
    }

    /// Record a successful script execution for `package_key` at time
    /// `now`: its script count is bumped, its script time refreshed, and it
    /// moves to the most recently used spot. An untracked key is ignored.
    pub fn record_script_execution_at(&mut self, package_key: &str, now: i64)
        requires
            old(self).wf(),
        ensures
            final(self).wf(),
            final(self).budget() == old(self).budget(),
            final(self).count_capacity() == old(self).count_capacity(),
            final(self).sizes_view() == old(self).sizes_view(),
            final(self).total_bytes() == old(self).total_bytes(),
            ({
                let mv = old(self).metrics_view();
                if usage_has(mv, package_key@) {
                    let p = usage_pos(mv, package_key@);
                    final(self).metrics_view() == seq![UsageModel {
                        last_script_execution: Some(now),
                        script_execution_count: sat_add(mv[p].script_execution_count, 1),
                        ..mv[p]
                    }] + mv.remove(p)
                } else {
                    final(self).metrics_view() == mv
                }
            }),
    {
        let r = self.get_metrics(package_key);
        match r {
            Some(m) => {
                let updated = PackageUsageMetrics {
                    package_key: m.package_key,
                    last_access_time: m.last_access_time,
                    last_script_execution: Some(now),
                    access_count: m.access_count,
                    script_execution_count: if m.script_execution_count < u64::MAX {
                        m.script_execution_count + 1
                    } else {
                        u64::MAX
                    },
                    last_successful_build: m.last_successful_build,
                };
                self.replace_front(updated);
                proof {
                    let mv = old(self).metrics_view();
                    let p = usage_pos(mv, package_key@);
                    assert((seq![mv[p]] + mv.remove(p)).drop_first() =~= mv.remove(p));
                }
            }
            None => {}
        }
    }

    /// Record a successful build for `package_key` at time `now`: its build
    /// time is refreshed and it moves to the most recently used spot. An
    /// untracked key is ignored.
    pub fn record_build_at(&mut self, package_key: &str, now: i64)
        requires
            old(self).wf(),
        ensures
            final(self).wf(),
            final(self).budget() == old(self).budget(),
            final(self).count_capacity() == old(self).count_capacity(),
            final(self).sizes_view() == old(self).sizes_view(),
            final(self).total_bytes() == old(self).total_bytes(),
            ({
                let mv = old(self).metrics_view();
                if usage_has(mv, package_key@) {
                    let p = usage_pos(mv, package_key@);
                    final(self).metrics_view() == seq![UsageModel {
                        last_successful_build: Some(now),
                        ..mv[p]
                    }] + mv.remove(p)
                } else {
                    final(self).metrics_view() == mv
                }
            }),
    {
        let r = self.get_metrics(package_key);
        match r {
            Some(m) => {
                let updated = PackageUsageMetrics {
                    package_key: m.package_key,
                    last_access_time: m.last_access_time,
                    last_script_execution: m.last_script_execution,
                    access_count: m.access_count,
                    script_execution_count: m.script_execution_count,
                    last_successful_build: Some(now),
                };
                self.replace_front(updated);
                proof {
                    let mv = old(self).metrics_view();
                    let p = usage_pos(mv, package_key@);
                    assert((seq![mv[p]] + mv.remove(p)).drop_first() =~= mv.remove(p));
                }
            }
            None => {}
        }
    }

    /// Record a successful script execution for `package_key` now: for the
    /// clock's time, exactly what `record_script_execution_at` does.
    pub fn record_script_execution(&mut self, package_key: &str)
        requires
            old(self).wf(),
        ensures
            final(self).wf(),
            final(self).budget() == old(self).budget(),
            final(self).count_capacity() == old(self).count_capacity(),
            final(self).sizes_view() == old(self).sizes_view(),
            final(self).total_bytes() == old(self).total_bytes(),
            exists|now: i64| final(self).metrics_view()
                == spec_record_script(old(self).metrics_view(), package_key@, now),
    {
        let now = crate::clock::now_seconds();
        self.record_script_execution_at(package_key, now);
        proof {
            assert(final(self).metrics_view()
                == spec_record_script(old(self).metrics_view(), package_key@, now));
        }
    }

    /// Record a successful build for `package_key` now: for the clock's
    /// time, exactly what `record_build_at` does.
    pub fn record_build(&mut self, package_key: &str)
        requires
            old(self).wf(),
        ensures
            final(self).wf(),
            final(self).budget() == old(self).budget(),
            final(self).count_capacity() == old(self).count_capacity(),
            final(self).sizes_view() == old(self).sizes_view(),
            final(self).total_bytes() == old(self).total_bytes(),
            exists|now: i64| final(self).metrics_view()
                == spec_record_build(old(self).metrics_view(), package_key@, now),
    {
        let now = crate::clock::now_seconds();
        self.record_build_at(package_key, now);
        proof {
            assert(final(self).metrics_view()
                == spec_record_build(old(self).metrics_view(), package_key@, now));
        }
    }

    /// The keep-or-evict decision over the current size state, for metrics
    /// `m` whose tracked size is `own`.
    #[verifier::rlimit(100)]
    fn keep_decision(&self, m: &PackageUsageMetrics, own: Option<u64>, days_threshold: i64, now: i64)
        -> (r: bool)
        ensures
            r == spec_should_keep(m@, own, self.total_bytes(), self.budget(),
                self.sizes_view().len(), days_threshold, now),
    {
        // whole days since the last access, truncated toward zero
        let diff: i128 = (now as i128) - (m.last_access_time as i128);
        let days: i128 = if diff >= 0 {
            ((diff as u128) / 86400) as i128
        } else {
            -((((-diff) as u128) / 86400) as i128)
        };
        proof {
            assert(days == days_since(m.last_access_time, now));
        }
        // size pressure: the running total against the byte budget
        let pressured = 10 * (self.current_size_bytes as u128)
            > 9 * (self.max_size_bytes as u128);
        // size outlier: more than twice the mean tracked size
        let n_tracked = self.size_map.len();
        let outlier = match own {
            Some(sz) => {
                let szw: u128 = sz as u128;
                let ctw: u128 = n_tracked as u128;
                proof {
                    assert(szw * ctw <= u128::MAX) by (nonlinear_arith)
                        requires
                            szw <= 0xffff_ffff_ffff_ffffu128,
                            ctw <= 0xffff_ffff_ffff_ffffu128,
                    ;
                }
                n_tracked > 0 && szw * ctw > 2 * (self.current_size_bytes as u128)
            }
            None => false,
        };
        let t_eff: i64 = if pressured {
            div_trunc_exec(days_threshold, 3)
        } else if outlier {
            div_trunc_exec(days_threshold, 2)
        } else {
            days_threshold
        };
        days < t_eff as i128
    }

    /// Decide, as of time `now`, whether `package_key` should survive
    /// eviction. Consulting the metrics touches the package's LRU position.
    /// An untracked package is not kept.
    #[verifier::rlimit(100)]
    pub fn should_keep_lru_at(&mut self, package_key: &str, days_threshold: i64, now: i64)
        -> (r: bool)
        requires
            old(self).wf(),
        ensures
            final(self).wf(),
            final(self).budget() == old(self).budget(),
            final(self).count_capacity() == old(self).count_capacity(),
            final(self).sizes_view() == old(self).sizes_view(),
            final(self).total_bytes() == old(self).total_bytes(),
            ({
                let mv = old(self).metrics_view();
                let sv = old(self).sizes_view();
                if usage_has(mv, package_key@) {
                    let p = usage_pos(mv, package_key@);
                    let own = if assoc_has(sv, package_key@) {
                        Some(sv[assoc_pos(sv, package_key@)].1)
                    } else {
                        None::<u64>
                    };
                    &&& r == spec_should_keep(mv[p], own, old(self).total_bytes(),
                        old(self).budget(), sv.len(), days_threshold, now)
                    &&& final(self).metrics_view() == seq![mv[p]] + mv.remove(p)
                } else {
                    &&& r == false
                    &&& final(self).metrics_view() == mv
                }
            }),
    {
        let r = self.get_metrics(package_key);
        match r {
            Some(m) => {
                let own = self.get_package_size(package_key);
                self.keep_decision(&m, own, days_threshold, now)
            }
            None => false,
        }
    }

    /// Decide whether `package_key` should survive eviction as of now: for
    /// the clock's time, exactly what `should_keep_lru_at` decides.
    pub fn should_keep_lru(&mut self, package_key: &str, days_threshold: i64) -> (r: bool)
        requires
            old(self).wf(),
        ensures
            final(self).wf(),
            final(self).budget() == old(self).budget(),
            final(self).count_capacity() == old(self).count_capacity(),
            final(self).sizes_view() == old(self).sizes_view(),
            final(self).total_bytes() == old(self).total_bytes(),
            exists|now: i64| spec_keep_outcome(old(self).metrics_view(),
                old(self).sizes_view(), old(self).total_bytes(), old(self).budget(),
                package_key@, days_threshold, now, r, final(self).metrics_view()),
    {
        let now = crate::clock::now_seconds();
        let r = self.should_keep_lru_at(package_key, days_threshold, now);
        proof {
            assert(spec_keep_outcome(old(self).metrics_view(), old(self).sizes_view(),
                old(self).total_bytes(), old(self).budget(), package_key@,
                days_threshold, now, r, final(self).metrics_view()));
        }
        r
    }

    /// All tracked entries, most recently used first, as owned copies (for
    /// persistence). Read-only: LRU positions are untouched.
    pub fn iter(&self) -> (r: Vec<(String, PackageUsageMetrics)>)
        requires
            self.wf(),
        ensures
            r@.len() == self.metrics_view().len(),
            forall|i: int| 0 <= i < r@.len() ==> (#[trigger] r@[i]).0@
                == self.metrics_view()[i].key && r@[i].1@ == self.metrics_view()[i],
    {
        let ghost ord = self.cache.order@;
        let ghost mv = self.metrics_view();
        let mut out: Vec<(String, PackageUsageMetrics)> = Vec::new();
        let mut cur = self.cache.head;
        let mut qe: usize = 0;
        while cur.is_some()
            invariant
                self.wf(),
                ord == self.cache.order@,
                mv == self.metrics_view(),
                qe <= ord.len(),
                cur == (if qe == ord.len() { None::<usize> } else { Some(ord[qe as int]) }),
                out@.len() == qe,
                forall|x: int| 0 <= x < qe ==> (#[trigger] out@[x]).0@ == mv[x].key
                    && out@[x].1@ == mv[x],
            decreases ord.len() - qe,
        {
            let i = match cur {
                Some(i) => i,
                None => unreached(),
            };
            proof {
                assert(ord[qe as int] == i);
                assert(self.cache@[qe as int].0 == self.cache.slots@[i as int].key@);
            }
            let pair = (self.cache.slots[i].key.clone(), self.cache.slots[i].value.clone());
            out.push(pair);
            cur = self.cache.slots[i].next;
            qe += 1;
        }
        out
    }

    /// The keys of up to `count` least recently used packages, least
    /// recently used first (eviction candidates). Read-only.
    pub fn get_lru_packages(&self, count: usize) -> (r: Vec<String>)
        requires
            self.wf(),
        ensures
            r@.len() == (if count < self.metrics_view().len() {
                count as int
            } else {
                self.metrics_view().len() as int
            }),
            forall|x: int| 0 <= x < r@.len() ==> (#[trigger] r@[x])@
                == self.metrics_view()[self.metrics_view().len() - 1 - x].key,
    {
        let ghost ord = self.cache.order@;
        let ghost mv = self.metrics_view();
        let mut out: Vec<String> = Vec::new();
        let mut cur = self.cache.tail;
        let mut n: usize = 0;
        while cur.is_some() && n < count
            invariant
                self.wf(),
                ord == self.cache.order@,
                mv == self.metrics_view(),
                n <= ord.len(),
                n <= count,
                cur == (if n == ord.len() {
                    None::<usize>
                } else {
                    Some(ord[ord.len() - 1 - n])
                }),
                out@.len() == n,
                forall|x: int| 0 <= x < n ==> (#[trigger] out@[x])@
                    == mv[mv.len() - 1 - x].key,
            decreases ord.len() - n,
        {
            let i = match cur {
                Some(i) => i,
                None => unreached(),
            };
            proof {
                let q = ord.len() - 1 - n;
                assert(ord[q as int] == i);
                assert(self.cache@[q as int].0 == self.cache.slots@[i as int].key@);
            }
            out.push(self.cache.slots[i].key.clone());
            cur = self.cache.slots[i].prev;
            n += 1;
        }
        out
    }

    /// Law: in a well-formed usage cache the running total always equals
    /// the sum of the tracked sizes. Every operation of this type ensures
    /// well-formedness, so the equation holds after every operation.
    pub proof fn lemma_size_ledger_invariant(&self)
        requires
            self.wf(),
        ensures
            self.total_bytes() == sum_sizes(self.sizes_view()),
    {
    }

    /// Remove `key` from the size ledger if it is tracked, subtracting its
    /// size from the running total.
    #[verifier::rlimit(100)]
    fn drop_size(&mut self, key: &String)
        requires
            old(self).sizes_wf(),
        ensures
            final(self).sizes_wf(),
            final(self).cache == old(self).cache,
            final(self).max_size_bytes == old(self).max_size_bytes,
            (final(self).sizes_view(), final(self).total_bytes() as int)
                == spec_drop_size(old(self).sizes_view(), old(self).total_bytes() as int, key@),
    {
        let ghost sv = self.sizes_view();
        match self.find_size(key) {
            Some(j) => {
                proof {
                    assert(sv[j as int].0 == key@);
                    assert(assoc_has(sv, key@));
                    let j0 = assoc_pos(sv, key@);
                    if j0 < j as int {
                        assert(sv[j0].0 != sv[j as int].0);
                    } else if j0 > j as int {
                        assert(sv[j as int].0 != sv[j0].0);
                    }
                    lemma_sum_remove(sv, j as int);
                    lemma_sum_nonneg(sv.remove(j as int));
                }
                let entry = self.size_map.remove(j);
                self.current_size_bytes = self.current_size_bytes - entry.1;
                proof {
                    assert(self.sizes_view() =~= sv.remove(j as int));
                    lemma_sizes_remove_distinct(sv, j as int);
                }
            }
            None => {
                proof {
                    if assoc_has(sv, key@) {
                        let j0 = assoc_pos(sv, key@);
                    }
                }
            }
        }
    }
}


/// Law: after `put(k, v)` the pair stands at the front of a well-formed
/// cache, so a `get` of `k` finds exactly `v` at the most recently used
/// position; with capacity zero and a fresh key, nothing is stored.
pub proof fn lemma_put_get_round_trip<V>(s: Seq<(Seq<char>, V)>, cap: nat, k: Seq<char>, v: V)
    requires
        distinct_keys(s),
        s.len() <= cap,
    ensures
        ({
            let s2 = spec_put(s, cap, k, v).0;
            if cap == 0 && !has_key(s, k) {
                s2 == s
            } else {
                &&& s2[0] == (k, v)
                &&& has_key(s2, k)
                &&& key_pos(s2, k) == 0
                &&& distinct_keys(s2)
            }
        }),
{
    let s2 = spec_put(s, cap, k, v).0;
    if cap == 0 && !has_key(s, k) {
    } else {
        let rest = s2.drop_first();
        assert(s2[0] == (k, v));
        // every later pair keeps a key different from k
        assert forall|i: int| 0 < i < s2.len() implies (#[trigger] s2[i]).0 != k by {
            if has_key(s, k) {
                let p = key_pos(s, k);
                assert(s2[i] == s.remove(p)[i - 1]);
                let o = if i - 1 < p { i - 1 } else { i };
                assert(s.remove(p)[i - 1] == s[o]);
                if o < p {
                    assert(s[o].0 != s[p].0);
                } else if o > p {
                    assert(s[p].0 != s[o].0);
                }
            } else if s.len() < cap {
                assert(s2[i] == s[i - 1]);
                assert(!has_key(s, k));
                if s[i - 1].0 == k {
                    assert(has_key(s, k));
                }
            } else {
                assert(s2[i] == s.drop_last()[i - 1]);
                assert(s.drop_last()[i - 1] == s[i - 1]);
                if s[i - 1].0 == k {
                    assert(has_key(s, k));
                }
            }
        }
        assert(has_key(s2, k));
        let i0 = key_pos(s2, k);
        assert(s2[i0].0 == k);
        assert(i0 == 0);
        // and the pairs stay pairwise distinct
        assert forall|i1: int, i2: int| 0 <= i1 < i2 < s2.len()
            implies (#[trigger] s2[i1]).0 != (#[trigger] s2[i2]).0 by {
            if i1 == 0 {
            } else {
                if has_key(s, k) {
                    let p = key_pos(s, k);
                    let o1 = if i1 - 1 < p { i1 - 1 } else { i1 };
                    let o2 = if i2 - 1 < p { i2 - 1 } else { i2 };
                    assert(s2[i1] == s[o1] && s2[i2] == s[o2]);
                    assert(s[o1].0 != s[o2].0);
                } else if s.len() < cap {
                    assert(s2[i1] == s[i1 - 1] && s2[i2] == s[i2 - 1]);
                } else {
                    assert(s2[i1] == s[i1 - 1] && s2[i2] == s[i2 - 1]);
                }
            }
        }
    }
}


/// How a run of inserts unfolds, first key first.
pub open spec fn spec_fill<V>(
    s: Seq<(Seq<char>, V)>,
    cap: nat,
    ks: Seq<Seq<char>>,
    vs: Seq<V>,
) -> Seq<(Seq<char>, V)>
    decreases ks.len(),
{
    if ks.len() == 0 {
        s
    } else {
        spec_fill(spec_put(s, cap, ks.first(), vs.first()).0, cap, ks.drop_first(),
            vs.drop_first())
    }
}

/// The keys and values of `ks`/`vs` paired up, newest insert first.
pub open spec fn rev_pairs<V>(ks: Seq<Seq<char>>, vs: Seq<V>) -> Seq<(Seq<char>, V)> {
    Seq::new(ks.len(), |i: int| (ks[ks.len() - 1 - i], vs[ks.len() - 1 - i]))
}

/// Inserting distinct fresh keys within capacity evicts nothing and stacks
/// them newest first on top of the existing pairs.
pub proof fn lemma_fill_stacks<V>(
    s: Seq<(Seq<char>, V)>,
    cap: nat,
    ks: Seq<Seq<char>>,
    vs: Seq<V>,
)
    requires
        distinct_keys(s),
        forall|i: int, j: int| 0 <= i < j < ks.len() ==> ks[i] != ks[j],
        forall|i: int, j: int| 0 <= i < ks.len() && 0 <= j < s.len()
            ==> #[trigger] ks[i] != #[trigger] s[j].0,
        vs.len() == ks.len(),
        s.len() + ks.len() <= cap,
    ensures
        spec_fill(s, cap, ks, vs) == rev_pairs(ks, vs) + s,
        distinct_keys(spec_fill(s, cap, ks, vs)),
    decreases ks.len(),
{
    if ks.len() == 0 {
        assert(spec_fill(s, cap, ks, vs) =~= rev_pairs(ks, vs) + s);
    } else {
        let k0 = ks.first();
        let v0 = vs.first();
        assert(!has_key(s, k0)) by {
            if has_key(s, k0) {
                let j = choose|j: int| 0 <= j < s.len() && (#[trigger] s[j]).0 == k0;
            }
        }
        let s1 = spec_put(s, cap, k0, v0).0;
        assert(s1 == seq![(k0, v0)] + s);
        assert(distinct_keys(s1)) by {
            assert forall|i1: int, i2: int| 0 <= i1 < i2 < s1.len()
                implies (#[trigger] s1[i1]).0 != (#[trigger] s1[i2]).0 by {
                if i1 == 0 {
                    assert(s1[i2] == s[i2 - 1]);
                } else {
                    assert(s1[i1] == s[i1 - 1] && s1[i2] == s[i2 - 1]);
                }
            }
        }
        let ks2 = ks.drop_first();
        let vs2 = vs.drop_first();
        assert forall|i: int, j: int| 0 <= i < ks2.len() && 0 <= j < s1.len()
            implies #[trigger] ks2[i] != #[trigger] s1[j].0 by {
            assert(ks2[i] == ks[i + 1]);
            if j == 0 {
                assert(ks[0] != ks[i + 1]);
            } else {
                assert(s1[j] == s[j - 1]);
            }
        }
        lemma_fill_stacks(s1, cap, ks2, vs2);
        assert(spec_fill(s, cap, ks, vs) == rev_pairs(ks2, vs2) + s1);
        assert(rev_pairs(ks, vs) + s =~= rev_pairs(ks2, vs2) + s1) by {
            assert forall|q: int| 0 <= q < (rev_pairs(ks, vs) + s).len()
                implies #[trigger] (rev_pairs(ks, vs) + s)[q]
                    == (rev_pairs(ks2, vs2) + s1)[q] by {
                if q < ks.len() - 1 {
                    assert((rev_pairs(ks2, vs2) + s1)[q] == rev_pairs(ks2, vs2)[q]);
                    assert(ks2[ks2.len() - 1 - q] == ks[ks.len() - 1 - q]);
                    assert(vs2[ks2.len() - 1 - q] == vs[ks.len() - 1 - q]);
                } else if q == ks.len() - 1 {
                    assert((rev_pairs(ks2, vs2) + s1)[q] == s1[0]);
                } else {
                    assert((rev_pairs(ks, vs) + s)[q] == s[q - ks.len()]);
                    assert((rev_pairs(ks2, vs2) + s1)[q] == s1[q - ks.len() + 1]);
                    assert(s1[q - ks.len() + 1] == s[q - ks.len()]);
                }
            }
        }
    }
}

/// Law: inserting `cap + 1` distinct keys into an empty cache with no
/// intervening `get` evicts exactly the first-inserted key, with its value.
pub proof fn lemma_fill_evicts_oldest<V>(
    cap: nat,
    ks: Seq<Seq<char>>,
    vs: Seq<V>,
    k_new: Seq<char>,
    v_new: V,
)
    requires
        cap > 0,
        ks.len() == cap,
        vs.len() == cap,
        forall|i: int, j: int| 0 <= i < j < ks.len() ==> ks[i] != ks[j],
        forall|i: int| 0 <= i < ks.len() ==> #[trigger] ks[i] != k_new,
    ensures
        ({
            let full = spec_fill(Seq::<(Seq<char>, V)>::empty(), cap, ks, vs);
            spec_put(full, cap, k_new, v_new).1 == Some((ks[0], vs[0]))
        }),
{
    let empty = Seq::<(Seq<char>, V)>::empty();
    lemma_fill_stacks(empty, cap, ks, vs);
    let full = spec_fill(empty, cap, ks, vs);
    assert(full =~= rev_pairs(ks, vs));
    assert(full.last() == (ks[0], vs[0]));
    assert(!has_key(full, k_new)) by {
        if has_key(full, k_new) {
            let i = choose|i: int| 0 <= i < full.len() && (#[trigger] full[i]).0 == k_new;
            assert(full[i].0 == ks[ks.len() - 1 - i]);
        }
    }
}

} // verus!
