//! The bounded least-recently-used cache.
//!
//! Values live in an arena of `capacity` slots. The occupied slots are threaded
//! into a doubly linked list by slot index, from the most recently used slot
//! (`head`) to the least recently used one (`tail`). A forward index finds the
//! slot of a key, a reverse index finds the key of a slot, and a stack holds
//! the slots that are free. Every operation is a lookup in the forward index
//! followed by a constant number of link updates.
use crate::error::CacheError;
use crate::recency::{
    after_put, after_remove, evicted_by_put, has_key, keys, lemma_position, position, promoted,
    touched, valid, value_of,
};
use std::collections::HashMap;
use std::hash::Hash;
use vstd::prelude::*;
use vstd::std_specs::hash::obeys_key_model;

verus! {

/// What the cache asks of its key type: hashing and `==` agree with equality
/// of values, and the clone of a key equals the key.
pub open spec fn key_model<K: Clone>() -> bool {
    &&& obeys_key_model::<K>()
    &&& forall|a: K, b: K| #[trigger] cloned::<K>(a, b) ==> a == b
}

/// The free slots of a cache that holds nothing: every slot of the arena,
/// the lowest one on top.
pub open spec fn all_free(capacity: usize) -> Seq<usize> {
    Seq::new(capacity as nat, |i: int| (capacity - 1 - i) as usize)
}

/// Where the entries live after an insertion of `key`, given where they
/// lived before (`slots`, parallel to `entries`) and which slots were free.
/// An existing entry keeps its slot; a new one takes the slot of the entry it
/// evicts or, if nothing is evicted, the top of the free stack.
pub open spec fn slots_after_put<K, V>(
    slots: Seq<usize>,
    free: Seq<usize>,
    entries: Seq<(K, V)>,
    capacity: nat,
    key: K,
) -> Seq<usize> {
    if has_key(entries, key) {
        promoted(slots, position(entries, key))
    } else if entries.len() >= capacity && entries.len() > 0 {
        promoted(slots, slots.len() - 1)
    } else {
        seq![free.last()] + slots
    }
}

/// The free stack after an insertion of `key`: one slot shorter when a new
/// entry found room without an eviction, unchanged otherwise.
pub open spec fn free_after_put<K, V>(
    free: Seq<usize>,
    entries: Seq<(K, V)>,
    capacity: nat,
    key: K,
) -> Seq<usize> {
    if has_key(entries, key) || (entries.len() >= capacity && entries.len() > 0) {
        free
    } else {
        free.drop_last()
    }
}

/// One slot of the arena. A slot is occupied exactly when it holds a value;
/// the links of a free slot mean nothing.
struct Node<V> {
    value: Option<V>,
    prev: Option<usize>,
    next: Option<usize>,
}

/// A cache of at most `capacity` entries that drops the least recently used
/// entry when a new key arrives and no slot is free.
///
/// Its view is the recency sequence of [`crate::recency`]: the entries from
/// the most recently used to the least recently used.
pub struct BoundedLRU<K, V> {
    capacity: usize,
    length: usize,
    nodes: Vec<Node<V>>,
    lookup: HashMap<K, usize>,
    reverse_lookup: HashMap<usize, K>,
    head: Option<usize>,
    tail: Option<usize>,
    free: Vec<usize>,
    /// The occupied slots in list order, head first.
    order: Ghost<Seq<usize>>,
}

/// The links of the slots in `order` form a doubly linked list that runs
/// through `order` from `head` to `tail`.
spec fn linked<V>(
    nodes: Seq<Node<V>>,
    order: Seq<usize>,
    head: Option<usize>,
    tail: Option<usize>,
) -> bool {
    &&& order.no_duplicates()
    &&& forall|i: int| 0 <= i < order.len() ==> (#[trigger] order[i]) < nodes.len()
    &&& order.len() == 0 ==> head is None && tail is None
    &&& order.len() > 0 ==> {
        &&& head == Some(order[0])
        &&& tail == Some(order[order.len() - 1])
        &&& nodes[order[0] as int].prev is None
        &&& nodes[order[order.len() - 1] as int].next is None
    }
    &&& forall|i: int, j: int|
        0 <= i && j == i + 1 && j < order.len() ==> {
            &&& nodes[(#[trigger] order[i]) as int].next == Some(#[trigger] order[j])
            &&& nodes[order[j] as int].prev == Some(order[i])
        }
}

/// The slots met by following `next` links from `from`, at most `steps` of
/// them.
spec fn walk<V>(nodes: Seq<Node<V>>, from: Option<usize>, steps: nat) -> Seq<usize>
    decreases steps,
{
    match from {
        Some(slot) => if steps > 0 && slot < nodes.len() {
            seq![slot] + walk(nodes, nodes[slot as int].next, (steps - 1) as nat)
        } else {
            Seq::empty()
        },
        None => Seq::empty(),
    }
}

/// Following the links of a list from its `i`-th slot visits the rest of
/// `order` and then stops.
proof fn lemma_walk<V>(
    nodes: Seq<Node<V>>,
    order: Seq<usize>,
    head: Option<usize>,
    tail: Option<usize>,
    i: int,
    steps: nat,
)
    requires
        linked(nodes, order, head, tail),
        0 <= i <= order.len(),
        steps >= order.len() - i,
    ensures
        walk(
            nodes,
            if i < order.len() {
                Some(order[i])
            } else {
                None
            },
            steps,
        ) == order.skip(i),
    decreases order.len() - i,
{
    if i < order.len() {
        lemma_walk(nodes, order, head, tail, i + 1, (steps - 1) as nat);
    }
}

impl<K: Clone + Eq + Hash, V> View for BoundedLRU<K, V> {
    type V = Seq<(K, V)>;

    closed spec fn view(&self) -> Seq<(K, V)> {
        self.order@.map_values(|s: usize| self.entry(s))
    }
}

impl<K: Clone + Eq + Hash, V> BoundedLRU<K, V> {
    /// The number of entries the cache can hold.
    pub closed spec fn spec_capacity(&self) -> usize {
        self.capacity
    }

    /// Whether `slot` is a slot of the arena that holds a value.
    spec fn occupied(&self, slot: usize) -> bool {
        slot < self.nodes.len() && self.nodes[slot as int].value is Some
    }

    /// The entry that lives in the occupied `slot`: the key that the reverse
    /// index gives for it, and the value in the arena.
    spec fn entry(&self, slot: usize) -> (K, V) {
        (self.reverse_lookup@[slot], self.nodes[slot as int].value.unwrap())
    }

    /// The representation invariant: the list runs through exactly the
    /// occupied slots, the free stack holds the others, and the two indexes
    /// are inverse to each other on the occupied slots.
    pub closed spec fn inv(&self) -> bool {
        &&& key_model::<K>()
        &&& self.capacity > 0
        &&& self.nodes.len() == self.capacity
        &&& self.length == self.order@.len()
        &&& self.free.len() + self.order@.len() == self.capacity
        &&& linked(self.nodes@, self.order@, self.head, self.tail)
        &&& self.free@.no_duplicates()
        &&& forall|j: int|
            0 <= j < self.free.len() ==> (#[trigger] self.free[j]) < self.nodes.len()
                && !self.occupied(self.free[j])
        &&& forall|i: int| 0 <= i < self.order@.len() ==> self.occupied(#[trigger] self.order@[i])
        &&& forall|s: usize| #[trigger] self.occupied(s) ==> self.order@.contains(s)
        &&& forall|s: usize|
            s < self.nodes.len() && !(#[trigger] self.occupied(s)) ==> self.free@.contains(s)
        &&& forall|s: usize| #[trigger] self.reverse_lookup@.contains_key(s) <==> self.occupied(s)
        &&& forall|k: K| #[trigger]
            self.lookup@.contains_key(k) ==> self.occupied(self.lookup@[k])
                && self.reverse_lookup@[self.lookup@[k]] == k
        &&& forall|s: usize| #[trigger]
            self.occupied(s) ==> self.lookup@.contains_key(self.reverse_lookup@[s])
                && self.lookup@[self.reverse_lookup@[s]] == s
        &&& self.lookup@.len() == self.length
        &&& self.reverse_lookup@.len() == self.length
    }

    /// Well-formedness: the representation invariant, and what it means for
    /// the contents. Constructors establish it and every operation keeps it.
    pub open spec fn wf(&self) -> bool {
        &&& self.inv()
        &&& key_model::<K>()
        &&& self.spec_capacity() > 0
        &&& valid(self@, self.spec_capacity() as nat)
        &&& self.slots().len() == self@.len()
    }

    /// The representation invariant gives the contents distinct keys and
    /// bounds their number by the capacity.
    proof fn lemma_inv_valid(&self)
        requires
            self.inv(),
        ensures
            self.wf(),
            self@.len() == self.order@.len(),
            forall|i: int|
                0 <= i < self.order@.len() ==> #[trigger] self@[i] == self.entry(self.order@[i]),
    {
    }

    /// The slot of each entry, in recency order: `slots()[i]` is where
    /// `self@[i]` lives in the arena.
    pub closed spec fn slots(&self) -> Seq<usize> {
        self.order@
    }

    /// The stack of free slots; the last one is the next to be claimed.
    pub closed spec fn free_slots(&self) -> Seq<usize> {
        self.free@
    }

    /// The forward index: the slot of each cached key.
    pub closed spec fn forward_index(&self) -> Map<K, usize> {
        self.lookup@
    }

    /// The reverse index: the key of each occupied slot.
    pub closed spec fn reverse_index(&self) -> Map<usize, K> {
        self.reverse_lookup@
    }

    /// The slots of the arena that hold a value.
    pub closed spec fn occupied_slots(&self) -> Set<usize> {
        Set::new(|s: usize| self.occupied(s))
    }

    /// The most recently used slot, where the list starts.
    pub closed spec fn head_slot(&self) -> Option<usize> {
        self.head
    }

    /// The least recently used slot, where the list ends.
    pub closed spec fn tail_slot(&self) -> Option<usize> {
        self.tail
    }

    /// The link from `slot` towards the tail.
    pub closed spec fn next_slot(&self, slot: usize) -> Option<usize> {
        self.nodes[slot as int].next
    }

    /// The link from `slot` towards the head.
    pub closed spec fn prev_slot(&self, slot: usize) -> Option<usize> {
        self.nodes[slot as int].prev
    }

    /// The slots met by walking the list from `head` along the `next` links
    /// until it ends.
    pub closed spec fn walked_slots(&self) -> Seq<usize> {
        walk(self.nodes@, self.head, self.nodes.len() as nat)
    }

    /// The keys that the reverse index gives for the slots of the walk.
    pub closed spec fn walked_keys(&self) -> Seq<K> {
        self.walked_slots().map_values(|s: usize| self.reverse_lookup@[s])
    }

    /// In a well-formed cache the two indexes are inverse to each other and
    /// cover exactly the entries: the forward index sends the key of each
    /// entry to the slot where the entry lives, the reverse index sends that
    /// slot back to the key, neither holds anything else, and the number of
    /// entries, of forward keys, of reverse slots and of occupied slots is
    /// the same.
    pub proof fn lemma_indexes_agree(&self)
        requires
            self.wf(),
        ensures
            forall|i: int|
                #![trigger self@[i]]
                #![trigger self.slots()[i]]
                0 <= i < self@.len() ==> {
                    &&& self.forward_index().contains_key(self@[i].0)
                    &&& self.forward_index()[self@[i].0] == self.slots()[i]
                    &&& self.reverse_index().contains_key(self.slots()[i])
                    &&& self.reverse_index()[self.slots()[i]] == self@[i].0
                },
            self.forward_index().dom() == keys(self@).to_set(),
            self.reverse_index().dom() == self.slots().to_set(),
            self.occupied_slots() == self.slots().to_set(),
            self.slots().no_duplicates(),
            self.forward_index().dom().finite(),
            self.reverse_index().dom().finite(),
            self.forward_index().len() == self@.len(),
            self.reverse_index().len() == self@.len(),
            self.occupied_slots().len() == self@.len(),
    {
        self.lemma_inv_valid();
        assert(self.forward_index().dom() =~= keys(self@).to_set()) by {
            assert forall|k: K| self.lookup@.contains_key(k) <==> keys(self@).contains(k) by {
                self.lemma_lookup(k);
            }
        }
    }

    /// In a well-formed cache the list is the recency order: it starts at the
    /// slot of the most recently used entry and ends at the slot of the least
    /// recently used one, both ends are unset exactly when the cache is
    /// empty, each slot is linked to its neighbours in the order and to
    /// nothing else, and a walk from the head along the links meets the slot
    /// and the key of every entry once, in recency order.
    pub proof fn lemma_list_is_recency_order(&self)
        requires
            self.wf(),
        ensures
            self.head_slot() == (if self@.len() == 0 {
                None
            } else {
                Some(self.slots()[0])
            }),
            self.tail_slot() == (if self@.len() == 0 {
                None
            } else {
                Some(self.slots().last())
            }),
            forall|i: int|
                0 <= i < self@.len() ==> self.prev_slot(#[trigger] self.slots()[i]) == (if i == 0 {
                    None
                } else {
                    Some(self.slots()[i - 1])
                }),
            forall|i: int|
                0 <= i < self@.len() ==> self.next_slot(#[trigger] self.slots()[i]) == (if i
                    == self@.len() - 1 {
                    None
                } else {
                    Some(self.slots()[i + 1])
                }),
            self.walked_slots() == self.slots(),
            self.walked_keys() == keys(self@),
            self.walked_keys().to_set() == self.forward_index().dom(),
            self.walked_keys().len() == self@.len(),
    {
        self.lemma_indexes_agree();
        let order = self.order@;
        lemma_walk(self.nodes@, order, self.head, self.tail, 0, self.nodes.len() as nat);
    }

    /// In a well-formed cache the free stack holds exactly the slots that are
    /// not occupied, each of them once.
    pub proof fn lemma_free_slots(&self)
        requires
            self.wf(),
        ensures
            self.free_slots().no_duplicates(),
            self.free_slots().len() + self@.len() == self.spec_capacity(),
            forall|s: usize|
                s < self.spec_capacity() ==> (#[trigger] self.free_slots().contains(s)
                    <==> !self.occupied_slots().contains(s)),
            forall|j: int|
                0 <= j < self.free_slots().len() ==> (#[trigger] self.free_slots()[j])
                    < self.spec_capacity(),
    {
    }

    /// Everything but the links and the list order is the same in `self` and
    /// `other`.
    spec fn same_contents(&self, other: &Self) -> bool {
        &&& self.capacity == other.capacity
        &&& self.length == other.length
        &&& self.lookup == other.lookup
        &&& self.reverse_lookup == other.reverse_lookup
        &&& self.free == other.free
        &&& self.nodes.len() == other.nodes.len()
        &&& forall|s: int|
            0 <= s < self.nodes.len() ==> (#[trigger] self.nodes[s]).value == other.nodes[s].value
    }

    /// Takes `slot` out of the list and joins its neighbours.
    fn detach(&mut self, slot: usize)
        requires
            linked(old(self).nodes@, old(self).order@, old(self).head, old(self).tail),
            old(self).order@.contains(slot),
        ensures
            linked(final(self).nodes@, final(self).order@, final(self).head, final(self).tail),
            final(self).order@ == old(self).order@.remove(old(self).order@.index_of(slot)),
            final(self).same_contents(old(self)),
    {
        let ghost order = self.order@;
        let ghost at: int = order.index_of(slot);
        let ghost before = self.nodes@;
        let prev = self.nodes[slot].prev;
        let next = self.nodes[slot].next;
        proof {
            if at > 0 {
                assert(before[order[at - 1] as int].next == Some(order[at]));
            }
            if at + 1 < order.len() {
                assert(before[order[at + 1] as int].prev == Some(order[at]));
            }
        }
        match prev {
            Some(p) => {
                self.nodes[p].next = next;
            },
            None => {
                self.head = next;
            },
        }
        match next {
            Some(n) => {
                self.nodes[n].prev = prev;
            },
            None => {
                self.tail = prev;
            },
        }
        self.nodes[slot].prev = None;
        self.nodes[slot].next = None;
        self.order = Ghost(order.remove(at));
    }

    /// Puts `slot`, which is not in the list, at its head.
    fn prepend(&mut self, slot: usize)
        requires
            linked(old(self).nodes@, old(self).order@, old(self).head, old(self).tail),
            slot < old(self).nodes.len(),
            !old(self).order@.contains(slot),
        ensures
            linked(final(self).nodes@, final(self).order@, final(self).head, final(self).tail),
            final(self).order@ == seq![slot] + old(self).order@,
            final(self).same_contents(old(self)),
    {
        let ghost order = self.order@;
        let first = self.head;
        self.nodes[slot].prev = None;
        self.nodes[slot].next = first;
        match first {
            Some(h) => {
                self.nodes[h].prev = Some(slot);
            },
            None => {
                self.tail = Some(slot);
            },
        }
        self.head = Some(slot);
        self.order = Ghost(seq![slot] + order);
    }

    /// How the forward index and the contents answer the same question.
    proof fn lemma_lookup(&self, key: K)
        requires
            self.inv(),
        ensures
            self.lookup@.contains_key(key) <==> has_key(self@, key),
            self.lookup@.contains_key(key) ==> {
                let slot = self.lookup@[key];
                &&& self.occupied(slot)
                &&& self.order@.contains(slot)
                &&& position(self@, key) == self.order@.index_of(slot)
                &&& self@[position(self@, key)] == self.entry(slot)
                &&& self.entry(slot).0 == key
            },
    {
        if self.lookup@.contains_key(key) {
            let slot = self.lookup@[key];
            let i: int = self.order@.index_of(slot);
            lemma_position(self@, i);
        }
    }

    /// Moves the occupied `slot` to the head of the list.
    fn touch(&mut self, slot: usize)
        requires
            old(self).inv(),
            old(self).occupied(slot),
        ensures
            final(self).inv(),
            final(self).same_contents(old(self)),
            final(self).order@ == seq![slot] + old(self).order@.remove(
                old(self).order@.index_of(slot),
            ),
            final(self)@ == promoted(old(self)@, old(self).order@.index_of(slot)),
    {
        let ghost order = self.order@;
        let ghost at: int = order.index_of(slot);
        self.detach(slot);
        self.prepend(slot);
        proof {
            let moved = self.order@;
            assert forall|s: usize| self.occupied(s) <==> old(self).occupied(s) by {}
            assert forall|s: usize| #[trigger] self.occupied(s) implies moved.contains(s) by {
                let j: int = order.index_of(s);
                if j < at {
                    assert(moved[j + 1] == s);
                } else if j > at {
                    assert(moved[j] == s);
                }
            }
        }
    }

    /// Replaces the value in the occupied `slot` and hands out the old one.
    fn store(&mut self, slot: usize, value: V) -> (r: V)
        requires
            old(self).inv(),
            old(self).occupied(slot),
        ensures
            final(self).inv(),
            final(self).capacity == old(self).capacity,
            final(self).order@ == old(self).order@,
            final(self).free@ == old(self).free@,
            final(self)@ == old(self)@.update(
                old(self).order@.index_of(slot),
                (old(self).entry(slot).0, value),
            ),
            r == old(self).entry(slot).1,
    {
        let ghost order = self.order@;
        let previous = self.nodes[slot].value.take();
        self.nodes[slot].value = Some(value);
        proof {
            assert forall|s: usize| self.occupied(s) <==> old(self).occupied(s) by {}
        }
        previous.unwrap()
    }

    /// Frees the occupied `slot`: unlinks it, clears both index entries and
    /// hands out the entry it held.
    fn release(&mut self, slot: usize) -> (r: (K, V))
        requires
            old(self).inv(),
            old(self).occupied(slot),
        ensures
            final(self).inv(),
            final(self).capacity == old(self).capacity,
            final(self)@ == old(self)@.remove(old(self).order@.index_of(slot)),
            r == old(self)@[old(self).order@.index_of(slot)],
            r == old(self).entry(slot),
            final(self).length == old(self).length - 1,
            final(self).lookup@ == old(self).lookup@.remove(r.0),
            final(self).order@ == old(self).order@.remove(old(self).order@.index_of(slot)),
            final(self).free@ == old(self).free@.push(slot),
    {
        let ghost order = self.order@;
        let ghost at: int = order.index_of(slot);
        self.detach(slot);
        let ghost rest = self.order@;
        let key = self.reverse_lookup.remove(&slot).unwrap();
        self.lookup.remove(&key);
        let value = self.nodes[slot].value.take().unwrap();
        self.free.push(slot);
        self.length = self.length - 1;
        proof {
            assert forall|s: usize| self.occupied(s) <==> old(self).occupied(s) && s != slot by {}
            assert forall|s: usize| #[trigger] self.occupied(s) implies rest.contains(s) by {
                let j: int = order.index_of(s);
                if j < at {
                    assert(rest[j] == s);
                } else {
                    assert(rest[j - 1] == s);
                }
            }
            assert forall|s: usize|
                s < self.nodes.len() && !(#[trigger] self.occupied(s)) implies self.free@.contains(
                s,
            ) by {
                if s == slot {
                    assert(self.free[self.free.len() - 1] == s);
                } else {
                    assert(self.free[old(self).free@.index_of(s)] == s);
                }
            }
        }
        (key, value)
    }

    /// Puts a new entry into a free slot and at the head of the list.
    fn install(&mut self, key: K, value: V)
        requires
            old(self).inv(),
            !old(self).lookup@.contains_key(key),
            old(self).length < old(self).capacity,
        ensures
            final(self).inv(),
            final(self).capacity == old(self).capacity,
            final(self)@ == seq![(key, value)] + old(self)@,
            final(self).order@ == seq![old(self).free@.last()] + old(self).order@,
            final(self).free@ == old(self).free@.drop_last(),
    {
        let ghost order = self.order@;
        let slot = self.free.pop().unwrap();
        self.nodes[slot].value = Some(value);
        let copy = key.clone();
        assert(cloned::<K>(key, copy));
        self.reverse_lookup.insert(slot, copy);
        self.lookup.insert(key, slot);
        self.prepend(slot);
        self.length = self.length + 1;
        proof {
            let longer = self.order@;
            assert forall|s: usize| self.occupied(s) <==> old(self).occupied(s) || s == slot by {}
            assert forall|s: usize| #[trigger] self.occupied(s) implies longer.contains(s) by {
                if s != slot {
                    assert(longer[order.index_of(s) + 1] == s);
                }
            }
            assert forall|s: usize|
                s < self.nodes.len() && !(#[trigger] self.occupied(s)) implies self.free@.contains(
                s,
            ) by {
                assert(self.free[old(self).free@.index_of(s)] == s);
            }
        }
    }

    /// Builds an empty cache of the given capacity. A cache that could hold
    /// nothing is refused.
    pub fn new(capacity: usize) -> (r: Result<Self, CacheError>)
        requires
            key_model::<K>(),
        ensures
            match r {
                Ok(cache) => capacity > 0 && cache.wf() && cache@ == Seq::<(K, V)>::empty()
                    && cache.spec_capacity() == capacity && cache.free_slots() == all_free(
                    capacity,
                ),
                Err(e) => capacity == 0 && e == CacheError::InvalidCapacity,
            },
    {
        if capacity == 0 {
            return Err(CacheError::InvalidCapacity);
        }
        let mut nodes: Vec<Node<V>> = Vec::new();
        let mut free: Vec<usize> = Vec::new();
        let mut i: usize = 0;
        while i < capacity
            invariant
                i <= capacity,
                nodes.len() == i,
                free.len() == i,
                forall|j: int| 0 <= j < i ==> (#[trigger] nodes[j]).value is None,
                forall|j: int| 0 <= j < i ==> (#[trigger] free[j]) == capacity - 1 - j,
            decreases capacity - i,
        {
            nodes.push(Node { value: None, prev: None, next: None });
            free.push(capacity - 1 - i);
            i += 1;
        }
        let cache = BoundedLRU {
            capacity,
            length: 0,
            nodes,
            lookup: HashMap::new(),
            reverse_lookup: HashMap::new(),
            head: None,
            tail: None,
            free,
            order: Ghost(Seq::empty()),
        };
        proof {
            assert forall|s: usize| s < capacity implies cache.free@.contains(s) by {
                assert(cache.free[capacity - 1 - s] == s);
            }
        }
        Ok(cache)
    }

    /// Looks `key` up without touching the recency order.
    pub fn peek(&self, key: &K) -> (r: Option<&V>)
        requires
            self.wf(),
        ensures
            match r {
                Some(v) => value_of(self@, *key) == Some(*v),
                None => value_of(self@, *key) is None,
            },
    {
        proof {
            self.lemma_lookup(*key);
        }
        match self.lookup.get(key) {
            Some(slot) => self.nodes[*slot].value.as_ref(),
            None => None,
        }
    }

    /// Looks `key` up and, on a hit, makes its entry the most recently used
    /// one. A miss changes nothing.
    pub fn get(&mut self, key: &K) -> (r: Option<&V>)
        requires
            old(self).wf(),
        ensures
            final(self).wf(),
            final(self).spec_capacity() == old(self).spec_capacity(),
            final(self)@ == touched(old(self)@, *key),
            match r {
                Some(v) => value_of(old(self)@, *key) == Some(*v),
                None => value_of(old(self)@, *key) is None,
            },
            final(self).slots() == (if has_key(old(self)@, *key) {
                promoted(old(self).slots(), position(old(self)@, *key))
            } else {
                old(self).slots()
            }),
            final(self).free_slots() == old(self).free_slots(),
    {
        proof {
            self.lemma_lookup(*key);
        }
        let found = match self.lookup.get(key) {
            Some(slot) => Some(*slot),
            None => None,
        };
        match found {
            Some(slot) => {
                self.touch(slot);
                self.nodes[slot].value.as_ref()
            },
            None => None,
        }
    }

    /// Sets `key` to `value` and makes the entry the most recently used one.
    ///
    /// The first component of the result is the value that `key` had before,
    /// if it was present. The second is the entry that had to leave: the
    /// least recently used one, when `key` is new and every slot is taken.
    pub fn put_evicted(&mut self, key: K, value: V) -> (r: (Option<V>, Option<(K, V)>))
        requires
            old(self).wf(),
        ensures
            final(self).wf(),
            final(self).spec_capacity() == old(self).spec_capacity(),
            final(self)@ == after_put(old(self)@, old(self).spec_capacity() as nat, key, value),
            final(self)@.len() <= final(self).spec_capacity(),
            final(self).slots() == slots_after_put(
                old(self).slots(),
                old(self).free_slots(),
                old(self)@,
                old(self).spec_capacity() as nat,
                key,
            ),
            final(self).free_slots() == free_after_put(
                old(self).free_slots(),
                old(self)@,
                old(self).spec_capacity() as nat,
                key,
            ),
            r.0 == value_of(old(self)@, key),
            r.1 == evicted_by_put(old(self)@, old(self).spec_capacity() as nat, key),
    {
        proof {
            self.lemma_lookup(key);
        }
        let found = match self.lookup.get(&key) {
            Some(slot) => Some(*slot),
            None => None,
        };
        match found {
            Some(slot) => {
                self.touch(slot);
                let previous = self.store(slot, value);
                (Some(previous), None)
            },
            None => {
                let evicted = if self.length == self.capacity {
                    let slot = self.tail.unwrap();
                    Some(self.release(slot))
                } else {
                    None
                };
                self.install(key, value);
                (None, evicted)
            },
        }
    }

    /// Sets `key` to `value` and makes the entry the most recently used one,
    /// evicting the least recently used entry if `key` is new and every slot
    /// is taken. Returns the value that `key` had before, if it was present.
    pub fn put(&mut self, key: K, value: V) -> (r: Option<V>)
        requires
            old(self).wf(),
        ensures
            final(self).wf(),
            final(self).spec_capacity() == old(self).spec_capacity(),
            final(self)@ == after_put(old(self)@, old(self).spec_capacity() as nat, key, value),
            final(self)@.len() <= final(self).spec_capacity(),
            final(self).slots() == slots_after_put(
                old(self).slots(),
                old(self).free_slots(),
                old(self)@,
                old(self).spec_capacity() as nat,
                key,
            ),
            final(self).free_slots() == free_after_put(
                old(self).free_slots(),
                old(self)@,
                old(self).spec_capacity() as nat,
                key,
            ),
            r == value_of(old(self)@, key),
    {
        self.put_evicted(key, value).0
    }

    /// Removes `key` and returns its value. Removing an absent key returns
    /// `None` and changes nothing.
    pub fn remove(&mut self, key: &K) -> (r: Option<V>)
        requires
            old(self).wf(),
        ensures
            final(self).wf(),
            final(self).spec_capacity() == old(self).spec_capacity(),
            final(self)@ == after_remove(old(self)@, *key),
            r == value_of(old(self)@, *key),
            !has_key(old(self)@, *key) ==> r is None && final(self)@ == old(self)@,
            final(self).slots() == (if has_key(old(self)@, *key) {
                old(self).slots().remove(position(old(self)@, *key))
            } else {
                old(self).slots()
            }),
            final(self).free_slots() == (if has_key(old(self)@, *key) {
                old(self).free_slots().push(old(self).slots()[position(old(self)@, *key)])
            } else {
                old(self).free_slots()
            }),
    {
        proof {
            self.lemma_lookup(*key);
        }
        let found = match self.lookup.get(key) {
            Some(slot) => Some(*slot),
            None => None,
        };
        match found {
            Some(slot) => {
                let entry = self.release(slot);
                Some(entry.1)
            },
            None => None,
        }
    }

    /// Sets `key` to `value` as [`Self::put`] does, and hands the entry that
    /// has to leave, if any, to `on_evict` before the new entry takes its
    /// slot. The hook cannot reach the cache while it runs.
    pub fn put_with<F: Fn(K, V)>(&mut self, key: K, value: V, on_evict: F) -> (r: Option<V>)
        requires
            old(self).wf(),
            match evicted_by_put(old(self)@, old(self).spec_capacity() as nat, key) {
                Some(e) => call_requires(on_evict, e),
                None => true,
            },
        ensures
            final(self).wf(),
            final(self).spec_capacity() == old(self).spec_capacity(),
            final(self)@ == after_put(old(self)@, old(self).spec_capacity() as nat, key, value),
            final(self)@.len() <= final(self).spec_capacity(),
            final(self).slots() == slots_after_put(
                old(self).slots(),
                old(self).free_slots(),
                old(self)@,
                old(self).spec_capacity() as nat,
                key,
            ),
            final(self).free_slots() == free_after_put(
                old(self).free_slots(),
                old(self)@,
                old(self).spec_capacity() as nat,
                key,
            ),
            r == value_of(old(self)@, key),
            match evicted_by_put(old(self)@, old(self).spec_capacity() as nat, key) {
                Some(e) => call_ensures(on_evict, e, ()),
                None => true,
            },
    {
        proof {
            self.lemma_lookup(key);
        }
        if self.lookup.get(&key).is_none() && self.length == self.capacity {
            let slot = self.tail.unwrap();
            let (old_key, old_value) = self.release(slot);
            on_evict(old_key, old_value);
            self.install(key, value);
            None
        } else {
            self.put(key, value)
        }
    }

    /// Empties the cache. The capacity stays as it is.
    pub fn clear(&mut self)
        requires
            old(self).wf(),
        ensures
            final(self).wf(),
            final(self).spec_capacity() == old(self).spec_capacity(),
            final(self)@ == Seq::<(K, V)>::empty(),
            final(self).free_slots() == all_free(final(self).spec_capacity()),
    {
        self.lookup.clear();
        self.reverse_lookup.clear();
        self.head = None;
        self.tail = None;
        self.length = 0;
        self.free.clear();
        self.order = Ghost(Seq::empty());
        let mut i: usize = 0;
        while i < self.capacity
            invariant
                key_model::<K>(),
                self.capacity == old(self).capacity,
                self.capacity > 0,
                self.nodes.len() == self.capacity,
                i <= self.capacity,
                self.free.len() == i,
                forall|j: int| 0 <= j < i ==> (#[trigger] self.nodes[j]).value is None,
                forall|j: int| 0 <= j < i ==> (#[trigger] self.free[j]) == self.capacity - 1 - j,
                self.lookup@ == Map::<K, usize>::empty(),
                self.reverse_lookup@ == Map::<usize, K>::empty(),
                self.head is None,
                self.tail is None,
                self.length == 0,
                self.order@ == Seq::<usize>::empty(),
            decreases self.capacity - i,
        {
            self.nodes[i].value = None;
            self.nodes[i].prev = None;
            self.nodes[i].next = None;
            self.free.push(self.capacity - 1 - i);
            i += 1;
        }
        proof {
            assert forall|s: usize| s < self.capacity implies self.free@.contains(s) by {
                assert(self.free[self.capacity - 1 - s] == s);
            }
        }
    }

    /// The keys in the cache, from the most recently used to the least
    /// recently used, found by following the list from its head.
    pub fn keys(&self) -> (r: Vec<K>)
        requires
            self.wf(),
        ensures
            r@ == keys(self@),
    {
        let ghost order = self.order@;
        let mut out: Vec<K> = Vec::new();
        let mut cur = self.head;
        let ghost mut i: int = 0;
        while cur.is_some()
            invariant
                self.inv(),
                order == self.order@,
                self@.len() == order.len(),
                forall|j: int| 0 <= j < order.len() ==> #[trigger] self@[j] == self.entry(order[j]),
                0 <= i <= order.len(),
                cur == (if i < order.len() {
                    Some(order[i])
                } else {
                    None
                }),
                out@ == keys(self@).take(i),
            decreases order.len() - i,
        {
            let slot = cur.unwrap();
            let key = self.reverse_lookup.get(&slot).unwrap();
            let copy = key.clone();
            assert(cloned::<K>(*key, copy));
            out.push(copy);
            cur = self.nodes[slot].next;
            proof {
                i = i + 1;
            }
        }
        out
    }

    /// The number of entries the cache can hold, fixed when it was built.
    #[verifier::when_used_as_spec(spec_capacity)]
    pub fn capacity(&self) -> (r: usize)
        ensures
            r == self.spec_capacity(),
    {
        self.capacity
    }

    /// The number of entries in the cache.
    pub fn len(&self) -> (r: usize)
        requires
            self.wf(),
        ensures
            r == self@.len(),
    {
        self.length
    }

    /// Whether the cache holds no entry.
    pub fn is_empty(&self) -> (r: bool)
        requires
            self.wf(),
        ensures
            r <==> self@.len() == 0,
    {
        self.length == 0
    }
}

} // verus!
