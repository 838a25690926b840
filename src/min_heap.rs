//! A binary min-heap whose entries are named by stable handles, so that a
//! caller can update or withdraw an entry it queued earlier in O(log n).
use vstd::prelude::*;

verus! {

/// Names a queued entry; `INVALID` names none.
pub type NodeHandle = usize;

/// The handle that never names an entry.
pub const INVALID: NodeHandle = usize::MAX;

pub open spec fn parent(i: int) -> int {
    (i - 1) / 2
}

/// Entries keyed by an unsigned integer, the lowest key first out.
///
/// `slots[h]` holds the key and value of the entry with handle `h`,
/// `tree` is the heap of handles, and `pos[h]` is where `h` stands in it.
pub struct MinHeap<V> {
    slots: Vec<Option<(u64, V)>>,
    pos: Vec<usize>,
    tree: Vec<NodeHandle>,
}

impl<V: Copy> MinHeap<V> {
    /// The queued entries: each handle in use, with its key and value.
    pub closed spec fn view(&self) -> Map<NodeHandle, (u64, V)> {
        Map::new(
            |h: NodeHandle| 0 <= h < self.slots@.len() && self.slots@[h as int] is Some,
            |h: NodeHandle| self.slots@[h as int].unwrap(),
        )
    }

    /// Number of handles given out so far; a new entry takes one more.
    pub closed spec fn handles_used(&self) -> nat {
        self.slots@.len()
    }

    /// The key of the entry at position `i` of the heap.
    closed spec fn tkey(&self, i: int) -> u64 {
        self.slots@[self.tree@[i] as int].unwrap().0
    }

    /// `tree` and `pos` are inverse to each other over the entries in use.
    closed spec fn links_ok(&self) -> bool {
        &&& self.pos@.len() == self.slots@.len()
        &&& self.slots@.len() < usize::MAX
        &&& forall|i: int|
            #![trigger self.tree@[i]]
            0 <= i < self.tree@.len() ==> {
                let h = self.tree@[i];
                &&& h < self.slots@.len()
                &&& self.slots@[h as int] is Some
                &&& self.pos@[h as int] == i
            }
        &&& forall|h: int|
            #![trigger self.slots@[h]]
            0 <= h < self.slots@.len() && self.slots@[h] is Some ==> self.pos@[h]
                < self.tree@.len() && self.tree@[self.pos@[h] as int] == h
    }

    /// No entry has a lower key than its parent, position `skip` apart.
    closed spec fn ordered_except(&self, skip: int) -> bool {
        forall|j: int|
            #![trigger self.tkey(j)]
            0 < j < self.tree@.len() && j != skip ==> self.tkey(parent(j)) <= self.tkey(j)
    }

    /// No entry has a lower key than its parent, the children of `skip`
    /// apart.
    closed spec fn ordered_below_except(&self, skip: int) -> bool {
        forall|j: int|
            #![trigger self.tkey(j)]
            0 < j < self.tree@.len() && parent(j) != skip ==> self.tkey(parent(j)) <= self.tkey(j)
    }

    pub closed spec fn well_formed(&self) -> bool {
        self.links_ok() && self.ordered_except(-1)
    }

    proof fn lemma_root_is_min(&self, i: int)
        requires
            self.links_ok(),
            self.ordered_except(-1),
            0 <= i < self.tree@.len(),
        ensures
            self.tkey(0) <= self.tkey(i),
        decreases i,
    {
        if i > 0 {
            assert(self.tkey(parent(i)) <= self.tkey(i));
            self.lemma_root_is_min(parent(i));
        }
    }

    /// Exchanges the heap positions `i` and `j`.
    fn swap_nodes(&mut self, i: usize, j: usize)
        requires
            old(self).links_ok(),
            i < old(self).tree@.len(),
            j < old(self).tree@.len(),
            i != j,
        ensures
            final(self).links_ok(),
            final(self).slots@ == old(self).slots@,
            final(self).tree@ == old(self).tree@.update(i as int, old(self).tree@[j as int]).update(
                j as int,
                old(self).tree@[i as int],
            ),
    {
        let a = self.tree[i];
        let b = self.tree[j];
        self.tree.set(i, b);
        self.tree.set(j, a);
        self.pos.set(a, j);
        self.pos.set(b, i);
        proof {
            assert forall|k: int| 0 <= k < self.tree@.len() implies {
                let h = #[trigger] self.tree@[k];
                &&& h < self.slots@.len()
                &&& self.slots@[h as int] is Some
                &&& self.pos@[h as int] == k
            } by {
                if k != i && k != j {
                    assert(old(self).tree@[k] == self.tree@[k]);
                }
            }
            assert forall|h: int| 0 <= h < self.slots@.len() && #[trigger] self.slots@[h] is Some implies self.pos@[h]
                < self.tree@.len() && self.tree@[self.pos@[h] as int] == h by {
                if h != a && h != b {
                    assert(old(self).slots@[h] is Some);
                }
            }
        }
    }

    /// Moves the entry at `i` up until its parent's key is no higher.
    fn sift_up(&mut self, i: usize)
        requires
            old(self).links_ok(),
            i < old(self).tree@.len(),
            old(self).ordered_except(i as int),
            i > 0 ==> forall|c: int|
                0 < c < old(self).tree@.len() && parent(c) == i ==> old(self).tkey(parent(i as int))
                    <= #[trigger] old(self).tkey(c),
        ensures
            final(self).links_ok(),
            final(self).ordered_except(-1),
            final(self).slots@ == old(self).slots@,
            final(self).tree@.len() == old(self).tree@.len(),
    {
        let mut i = i;
        while i > 0
            invariant
                self.links_ok(),
                i < self.tree@.len(),
                self.ordered_except(i as int),
                i > 0 ==> forall|c: int|
                    0 < c < self.tree@.len() && parent(c) == i ==> self.tkey(parent(i as int))
                        <= #[trigger] self.tkey(c),
                self.slots@ == old(self).slots@,
                self.tree@.len() == old(self).tree@.len(),
            decreases i,
        {
            let p = (i - 1) / 2;
            let kp = match self.slots[self.tree[p]] {
                Some((k, _)) => k,
                None => 0,
            };
            let ki = match self.slots[self.tree[i]] {
                Some((k, _)) => k,
                None => 0,
            };
            assert(kp == self.tkey(p as int) && ki == self.tkey(i as int));
            if kp <= ki {
                proof {
                    assert forall|j: int| 0 < j < self.tree@.len() && j != -1 implies self.tkey(
                        parent(j),
                    ) <= #[trigger] self.tkey(j) by {
                        if j != i {
                        }
                    }
                }
                return;
            }
            let ghost before = *self;
            self.swap_nodes(i, p);
            proof {
                assert forall|j: int| 0 <= j < self.tree@.len() implies #[trigger] self.tkey(j)
                    == if j == i {
                    before.tkey(p as int)
                } else if j == p {
                    before.tkey(i as int)
                } else {
                    before.tkey(j)
                } by {}
                assert forall|j: int|
                    0 < j < self.tree@.len() && j != p implies self.tkey(parent(j))
                        <= #[trigger] self.tkey(j) by {
                    if parent(j) == p && j != i {
                        assert(before.tkey(parent(j)) <= before.tkey(j));
                    }
                    if parent(j) == i {
                        assert(before.tkey(p as int) <= before.tkey(j));
                    }
                }
                if p > 0 {
                    assert(before.tkey(parent(p as int)) <= before.tkey(p as int));
                    assert forall|c: int|
                        0 < c < self.tree@.len() && parent(c) == p implies self.tkey(
                            parent(p as int),
                        ) <= #[trigger] self.tkey(c) by {
                        if c != i {
                            assert(before.tkey(p as int) <= before.tkey(c));
                        }
                    }
                }
            }
            i = p;
        }
        proof {
            assert forall|j: int| 0 < j < self.tree@.len() && j != -1 implies self.tkey(parent(j))
                <= #[trigger] self.tkey(j) by {}
        }
    }

    /// After the entry at `i` swaps with its lower child `m`, order holds
    /// everywhere but below `m`.
    proof fn lemma_down_swap(before: Self, after: Self, i: int, m: int)
        requires
            before.links_ok(),
            after.links_ok(),
            0 <= i < m < before.tree@.len(),
            parent(m) == i,
            after.slots@ == before.slots@,
            after.tree@ == before.tree@.update(i, before.tree@[m]).update(m, before.tree@[i]),
            before.ordered_below_except(i),
            i > 0 ==> forall|c: int|
                0 < c < before.tree@.len() && parent(c) == i ==> before.tkey(parent(i))
                    <= #[trigger] before.tkey(c),
            before.tkey(m) < before.tkey(i),
            forall|c: int|
                0 < c < before.tree@.len() && parent(c) == i ==> before.tkey(m)
                    <= #[trigger] before.tkey(c),
        ensures
            after.ordered_below_except(m),
            forall|c: int|
                0 < c < after.tree@.len() && parent(c) == m ==> after.tkey(parent(m))
                    <= #[trigger] after.tkey(c),
    {
        assert forall|j: int| 0 <= j < after.tree@.len() implies #[trigger] after.tkey(j) == if j
            == i {
            before.tkey(m)
        } else if j == m {
            before.tkey(i)
        } else {
            before.tkey(j)
        } by {}
        assert forall|j: int|
            0 < j < after.tree@.len() && parent(j) != m implies after.tkey(parent(j))
                <= #[trigger] after.tkey(j) by {
            if j == i {
                assert(before.tkey(parent(i)) <= before.tkey(m));
            }
        }
        assert forall|c: int| 0 < c < after.tree@.len() && parent(c) == m implies after.tkey(
            parent(m),
        ) <= #[trigger] after.tkey(c) by {
            assert(before.tkey(m) <= before.tkey(c));
        }
    }

    /// Moves the entry at `i` down until no child's key is lower.
    fn sift_down(&mut self, i: usize)
        requires
            old(self).links_ok(),
            i < old(self).tree@.len(),
            old(self).ordered_below_except(i as int),
            i > 0 ==> forall|c: int|
                0 < c < old(self).tree@.len() && parent(c) == i ==> old(self).tkey(parent(i as int))
                    <= #[trigger] old(self).tkey(c),
        ensures
            final(self).links_ok(),
            final(self).ordered_except(-1),
            final(self).slots@ == old(self).slots@,
            final(self).tree@.len() == old(self).tree@.len(),
    {
        let mut i = i;
        let len = self.tree.len();
        loop
            invariant
                self.links_ok(),
                len == self.tree@.len(),
                i < len,
                self.ordered_below_except(i as int),
                i > 0 ==> forall|c: int|
                    0 < c < self.tree@.len() && parent(c) == i ==> self.tkey(parent(i as int))
                        <= #[trigger] self.tkey(c),
                self.slots@ == old(self).slots@,
                self.tree@.len() == old(self).tree@.len(),
            ensures
                self.links_ok(),
                self.ordered_except(-1),
                self.slots@ == old(self).slots@,
                self.tree@.len() == old(self).tree@.len(),
            decreases len - i,
        {
            if i >= len / 2 {
                proof {
                    assert forall|j: int| 0 < j < self.tree@.len() && j != -1 implies self.tkey(
                        parent(j),
                    ) <= #[trigger] self.tkey(j) by {
                        assert(parent(j) != i);
                    }
                }
                return;
            }
            let l = 2 * i + 1;
            let r = l + 1;
            let kl = match self.slots[self.tree[l]] {
                Some((k, _)) => k,
                None => 0,
            };
            let mut m = l;
            let mut km = kl;
            if r < len {
                let kr = match self.slots[self.tree[r]] {
                    Some((k, _)) => k,
                    None => 0,
                };
                if kr < kl {
                    m = r;
                    km = kr;
                }
            }
            let ki = match self.slots[self.tree[i]] {
                Some((k, _)) => k,
                None => 0,
            };
            assert(ki == self.tkey(i as int) && km == self.tkey(m as int) && kl == self.tkey(
                l as int,
            ));
            assert(r < len ==> km <= self.tkey(r as int));
            assert forall|c: int| 0 < c < self.tree@.len() && parent(c) == i implies km
                <= #[trigger] self.tkey(c) by {
                assert(c == l || c == r);
            }
            if ki <= km {
                proof {
                    assert forall|j: int| 0 < j < self.tree@.len() && j != -1 implies self.tkey(
                        parent(j),
                    ) <= #[trigger] self.tkey(j) by {
                        if parent(j) == i {
                            assert(j == l || j == r);
                        }
                    }
                }
                return;
            }
            let ghost before = *self;
            self.swap_nodes(i, m);
            proof {
                Self::lemma_down_swap(before, *self, i as int, m as int);
            }
            i = m;
        }
    }

    /// Takes the entry at heap position `i` out and returns it.
    fn remove_at(&mut self, i: usize) -> (r: (u64, V))
        requires
            old(self).well_formed(),
            i < old(self).tree@.len(),
        ensures
            final(self).well_formed(),
            r == old(self).view()[old(self).tree@[i as int]],
            final(self).view() == old(self).view().remove(old(self).tree@[i as int]),
            final(self).handles_used() == old(self).handles_used(),
    {
        let ghost start = *self;
        let h = self.tree[i];
        let last = self.tree.len() - 1;
        if i != last {
            self.swap_nodes(i, last);
        }
        let ghost swapped = *self;
        self.tree.pop();
        let e = self.slots[h];
        self.slots.set(h, None);
        proof {
            assert(start.slots@[h as int] is Some);
            assert(self.view() =~= start.view().remove(h));
            assert forall|k: int| 0 <= k < self.tree@.len() implies {
                let g = #[trigger] self.tree@[k];
                &&& g < self.slots@.len()
                &&& self.slots@[g as int] is Some
                &&& self.pos@[g as int] == k
            } by {
                assert(swapped.tree@[k] == self.tree@[k]);
                assert(swapped.tree@[k] != h);
            }
            assert forall|g: int| 0 <= g < self.slots@.len() && #[trigger] self.slots@[g] is Some implies self.pos@[g]
                < self.tree@.len() && self.tree@[self.pos@[g] as int] == g by {
                assert(swapped.slots@[g] is Some);
            }
            assert forall|j: int| 0 <= j < self.tree@.len() implies #[trigger] self.tkey(j)
                == swapped.tkey(j) by {
                assert(swapped.tree@[j] != h);
            }
            assert forall|j: int| 0 <= j < self.tree@.len() implies #[trigger] self.tkey(j)
                == if j == i {
                start.tkey(last as int)
            } else {
                start.tkey(j)
            } by {
                assert(self.tkey(j) == swapped.tkey(j));
            }
        }
        if i < self.tree.len() {
            let p = if i > 0 {
                (i - 1) / 2
            } else {
                0
            };
            let kp = match self.slots[self.tree[p]] {
                Some((k, _)) => k,
                None => 0,
            };
            let ki = match self.slots[self.tree[i]] {
                Some((k, _)) => k,
                None => 0,
            };
            assert(kp == self.tkey(p as int) && ki == self.tkey(i as int));
            proof {
                assert forall|j: int|
                    0 < j < self.tree@.len() && j != i && parent(j) != i implies start.tkey(
                        parent(j),
                    ) <= #[trigger] self.tkey(j) by {
                    assert(start.tkey(j) == start.tkey(j));
                }
            }
            if i > 0 && ki < kp {
                proof {
                    assert forall|j: int| 0 < j < self.tree@.len() && j != i implies self.tkey(
                        parent(j),
                    ) <= #[trigger] self.tkey(j) by {
                        assert(start.tkey(j) == start.tkey(j));
                        if parent(j) == i {
                            assert(start.tkey(parent(i as int)) <= start.tkey(i as int));
                            assert(start.tkey(i as int) <= start.tkey(j));
                        }
                    }
                    assert forall|c: int|
                        0 < c < self.tree@.len() && parent(c) == i implies self.tkey(
                            parent(i as int),
                        ) <= #[trigger] self.tkey(c) by {
                        assert(start.tkey(c) == start.tkey(c));
                        assert(start.tkey(parent(i as int)) <= start.tkey(i as int));
                        assert(start.tkey(i as int) <= start.tkey(c));
                    }
                }
                self.sift_up(i);
            } else {
                proof {
                    assert forall|j: int|
                        0 < j < self.tree@.len() && parent(j) != i implies self.tkey(parent(j))
                            <= #[trigger] self.tkey(j) by {
                        assert(start.tkey(j) == start.tkey(j));
                    }
                    if i > 0 {
                        assert forall|c: int|
                            0 < c < self.tree@.len() && parent(c) == i implies self.tkey(
                                parent(i as int),
                            ) <= #[trigger] self.tkey(c) by {
                            assert(start.tkey(c) == start.tkey(c));
                            assert(start.tkey(parent(i as int)) <= start.tkey(i as int));
                            assert(start.tkey(i as int) <= start.tkey(c));
                        }
                    }
                }
                self.sift_down(i);
            }
            proof {
                assert(self.view() =~= start.view().remove(h));
            }
        } else {
            proof {
                assert forall|j: int| 0 < j < self.tree@.len() && j != -1 implies self.tkey(
                    parent(j),
                ) <= #[trigger] self.tkey(j) by {
                    assert(start.tkey(j) == start.tkey(j));
                }
            }
        }
        e.unwrap()
    }

    /// The entry `h` may come out first: no queued key is lower.
    pub open spec fn is_min(m: Map<NodeHandle, (u64, V)>, h: NodeHandle) -> bool {
        &&& m.dom().contains(h)
        &&& forall|h2: NodeHandle| #[trigger] m.dom().contains(h2) ==> m[h].0 <= m[h2].0
    }

    /// An empty queue with room for `capacity` entries.
    pub fn with_capacity(capacity: usize) -> (r: Self)
        ensures
            r.well_formed(),
            r.view() == Map::<NodeHandle, (u64, V)>::empty(),
            r.handles_used() == 0,
    {
        let r = MinHeap {
            slots: Vec::with_capacity(capacity),
            pos: Vec::with_capacity(capacity),
            tree: Vec::with_capacity(capacity),
        };
        proof {
            assert(r.view() =~= Map::<NodeHandle, (u64, V)>::empty());
        }
        r
    }

    /// Replaces the key and value of the entry `handle` names; where it
    /// names none, queues a new entry and stores its handle in `handle`.
    pub fn insert_or_update(&mut self, handle: &mut NodeHandle, key: u64, value: V)
        requires
            old(self).well_formed(),
            old(self).handles_used() + 2 < usize::MAX,
        ensures
            final(self).well_formed(),
            old(self).view().dom().contains(*old(handle)) ==> *final(handle) == *old(handle)
                && final(self).handles_used() == old(self).handles_used(),
            !old(self).view().dom().contains(*old(handle)) ==> !old(self).view().dom().contains(
                *final(handle),
            ) && final(self).handles_used() == old(self).handles_used() + 1,
            *final(handle) != INVALID,
            final(self).view() == old(self).view().insert(*final(handle), (key, value)),
    {
        let ghost start = *self;
        let h = *handle;
        if h < self.slots.len() && self.slots[h].is_some() {
            let i = self.pos[h];
            let old_key = match self.slots[h] {
                Some((k, _)) => k,
                None => 0,
            };
            self.slots.set(h, Some((key, value)));
            proof {
                assert(self.view() =~= start.view().insert(h, (key, value)));
                assert(start.tree@[i as int] == h);
                assert forall|j: int| 0 <= j < self.tree@.len() implies #[trigger] self.tkey(j)
                    == if j == i {
                    key
                } else {
                    start.tkey(j)
                } by {
                    if j != i {
                        assert(start.tree@[j] != h);
                    }
                }
                assert(old_key == start.tkey(i as int));
            }
            if key < old_key {
                proof {
                    assert forall|j: int| 0 < j < self.tree@.len() && j != i implies self.tkey(
                        parent(j),
                    ) <= #[trigger] self.tkey(j) by {
                    }
                    if i > 0 {
                        assert forall|c: int|
                            0 < c < self.tree@.len() && parent(c) == i implies self.tkey(
                                parent(i as int),
                            ) <= #[trigger] self.tkey(c) by {
                        }
                    }
                }
                self.sift_up(i);
            } else {
                proof {
                    assert forall|j: int|
                        0 < j < self.tree@.len() && parent(j) != i implies self.tkey(parent(j))
                            <= #[trigger] self.tkey(j) by {
                    }
                    if i > 0 {
                        assert forall|c: int|
                            0 < c < self.tree@.len() && parent(c) == i implies self.tkey(
                                parent(i as int),
                            ) <= #[trigger] self.tkey(c) by {
                        }
                    }
                }
                self.sift_down(i);
            }
            proof {
                assert(self.view() =~= start.view().insert(h, (key, value)));
            }
            return;
        }
        let nh = self.slots.len();
        let n = self.tree.len();
        self.slots.push(Some((key, value)));
        self.pos.push(n);
        self.tree.push(nh);
        proof {
            assert(!start.view().dom().contains(nh));
            assert forall|k: int| 0 <= k < self.tree@.len() implies {
                let g = #[trigger] self.tree@[k];
                &&& g < self.slots@.len()
                &&& self.slots@[g as int] is Some
                &&& self.pos@[g as int] == k
            } by {
                if k < n {
                    assert(start.tree@[k] == self.tree@[k]);
                }
            }
            assert forall|g: int| 0 <= g < self.slots@.len() && #[trigger] self.slots@[g] is Some implies self.pos@[g]
                < self.tree@.len() && self.tree@[self.pos@[g] as int] == g by {
                if g < nh {
                    assert(start.slots@[g] is Some);
                }
            }
            assert forall|j: int| 0 <= j < n implies #[trigger] self.tkey(j) == start.tkey(j) by {
                assert(start.tree@[j] < nh);
            }
            assert forall|j: int| 0 < j < self.tree@.len() && j != n implies self.tkey(parent(j))
                <= #[trigger] self.tkey(j) by {
            }
            if n > 0 {
                assert forall|c: int|
                    0 < c < self.tree@.len() && parent(c) == n implies self.tkey(parent(n as int))
                        <= #[trigger] self.tkey(c) by {}
            }
        }
        self.sift_up(n);
        *handle = nh;
        proof {
            assert(self.view() =~= start.view().insert(nh, (key, value)));
        }
    }

    /// Withdraws the entry `handle` names, if any.
    pub fn remove(&mut self, handle: NodeHandle)
        requires
            old(self).well_formed(),
        ensures
            final(self).well_formed(),
            final(self).view() == old(self).view().remove(handle),
            final(self).handles_used() == old(self).handles_used(),
    {
        if handle < self.slots.len() && self.slots[handle].is_some() {
            let i = self.pos[handle];
            self.remove_at(i);
        } else {
            proof {
                assert(self.view() =~= old(self).view().remove(handle));
            }
        }
    }

    /// Takes out an entry with the lowest key and returns its key and
    /// value; `None` when the queue is empty.
    pub fn pop_min_with_value(&mut self) -> (r: Option<(u64, V)>)
        requires
            old(self).well_formed(),
        ensures
            final(self).well_formed(),
            r is None <==> old(self).view().dom().is_empty(),
            r is None ==> final(self).view() == old(self).view(),
            r is Some ==> exists|h: NodeHandle|
                Self::is_min(old(self).view(), h) && old(self).view()[h] == r.unwrap()
                    && final(self).view() == old(self).view().remove(h),
            final(self).handles_used() == old(self).handles_used(),
    {
        if self.tree.len() == 0 {
            proof {
                assert forall|h: NodeHandle| !self.view().dom().contains(h) by {
                    if self.view().dom().contains(h) {
                        assert(self.slots@[h as int] is Some);
                    }
                }
                assert(self.view().dom() =~= Set::<NodeHandle>::empty());
            }
            return None;
        }
        let ghost start = *self;
        let ghost h = self.tree@[0];
        proof {
            assert forall|h2: NodeHandle| #[trigger] start.view().dom().contains(h2) implies start.view()[h].0
                <= start.view()[h2].0 by {
                assert(start.slots@[h2 as int] is Some);
                let i = start.pos@[h2 as int] as int;
                start.lemma_root_is_min(i);
            }
            assert(start.view().dom().contains(h));
        }
        let r = self.remove_at(0);
        Some(r)
    }

    /// Takes out an entry with the lowest key, as `pop_min_with_value`
    /// does, and returns its value.
    pub fn pop_min(&mut self) -> (r: Option<V>)
        requires
            old(self).well_formed(),
        ensures
            final(self).well_formed(),
            r is None <==> old(self).view().dom().is_empty(),
            r is None ==> final(self).view() == old(self).view(),
            r is Some ==> exists|h: NodeHandle|
                Self::is_min(old(self).view(), h) && old(self).view()[h].1 == r.unwrap()
                    && final(self).view() == old(self).view().remove(h),
            final(self).handles_used() == old(self).handles_used(),
    {
        match self.pop_min_with_value() {
            Some((_, v)) => Some(v),
            None => None,
        }
    }
}

} // verus!
