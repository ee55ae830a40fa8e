//! Indexed min-heap keyed by 2D grid coordinate: a priority queue that also
//! supports O(1) point lookup and mutate-in-place through a coordinate ->
//! array-index table kept consistent with the backing array at all times.

use vstd::prelude::*;

verus! {

use std::collections::HashMap;

broadcast use vstd::std_specs::hash::group_hash_axioms;

/// Relies on `<[T]>::swap` of std: exchanges the elements in positions `a`
/// and `b` of the slice; out-of-bounds positions panic and are excluded.
pub assume_specification<E>[ <[E]>::swap ](s: &mut [E], a: usize, b: usize)
    requires
        a < old(s).len(),
        b < old(s).len(),
    ensures
        final(s)@ == old(s)@.update(a as int, old(s)@[b as int]).update(
            b as int,
            old(s)@[a as int],
        ),
;

/// Errors of the indexed min-heap: popping an empty heap, and mutating a
/// coordinate that is not present.
#[derive(Debug, Clone, Copy, PartialEq, Eq, Structural)]
pub enum HeapError {
    LengthIsZero,
    LookupReturnedNone,
}

/// An element the heap can hold: it carries a 2D coordinate that identifies
/// it uniquely and an ordering key that drives the min-heap.
pub trait Heapable: Sized {
    /// The ordering key the heap sorts by.
    spec fn key(&self) -> int;

    /// The coordinate identifying this element.
    spec fn coord(&self) -> (u32, u32);

    fn x(&self) -> (r: u32)
        ensures
            r == self.coord().0,
    ;

    fn y(&self) -> (r: u32)
        ensures
            r == self.coord().1,
    ;

    fn lookup_key(&self) -> (r: (u32, u32))
        ensures
            r == self.coord(),
    {
        (self.x(), self.y())
    }

    /// Key comparison that drives sifting.
    fn le(&self, other: &Self) -> (r: bool)
        ensures
            r == (self.key() <= other.key()),
    ;
}

/// A coordinate packed into one table key.
pub open spec fn enc(c: (u32, u32)) -> u64 {
    (((c.0 as u64) * 0x1_0000_0000) + (c.1 as u64)) as u64
}

fn encode_key(c: (u32, u32)) -> (r: u64)
    ensures
        r == enc(c),
{
    (c.0 as u64) * 0x1_0000_0000u64 + (c.1 as u64)
}

/// Min-heap over `T` with a coordinate -> array-index lookup table.
#[derive(Debug)]
pub struct MinHeapMap<T> {
    data: Vec<T>,
    lookup: HashMap<u64, usize>,
    length: usize,
}

impl<T: Heapable> MinHeapMap<T> {
    /// Number of elements held.
    pub closed spec fn spec_len(self) -> nat {
        self.data@.len()
    }

    /// The backing array, in heap order.
    pub closed spec fn spec_data(self) -> Seq<T> {
        self.data@
    }

    /// The lookup table mirrors the array: every element's coordinate maps
    /// to its current position, and nothing else is mapped.
    pub closed spec fn lookup_synced(self) -> bool {
        &&& self.length == self.data@.len()
        &&& forall|i: int|
            0 <= i < self.data@.len() ==> {
                &&& self.lookup@.contains_key(enc((#[trigger] self.data@[i]).coord()))
                &&& self.lookup@[enc(self.data@[i].coord())] == i
            }
        &&& forall|k: u64|
            #[trigger] self.lookup@.contains_key(k) ==> 0 <= self.lookup@[k]
                < self.data@.len() && enc(self.data@[self.lookup@[k] as int].coord()) == k
    }

    /// Min-heap ordering: every element's key is at least its parent's.
    pub closed spec fn heap_ordered(self) -> bool {
        forall|i: int|
            1 <= i < self.data@.len() ==> self.data@[(i - 1) / 2].key() <= (
            #[trigger] self.data@[i]).key()
    }

    pub open spec fn well_formed(self) -> bool {
        self.lookup_synced() && self.heap_ordered()
    }

    /// Whether some element with this coordinate is held.
    pub open spec fn spec_contains(self, c: (u32, u32)) -> bool {
        self.contents().contains_key(c)
    }

    /// Whether the array holds an element with this coordinate.
    spec fn array_contains(self, c: (u32, u32)) -> bool {
        exists|i: int| 0 <= i < self.data@.len() && (#[trigger] self.data@[i]).coord() == c
    }

    /// Array position of the element with this coordinate.
    spec fn spec_index_of(self, c: (u32, u32)) -> int {
        choose|i: int| 0 <= i < self.data@.len() && (#[trigger] self.data@[i]).coord() == c
    }

    /// The held elements, as a map from coordinate to element.
    pub closed spec fn contents(self) -> Map<(u32, u32), T> {
        Map::new(
            |c: (u32, u32)| self.array_contains(c),
            |c: (u32, u32)| self.data@[self.spec_index_of(c)],
        )
    }

    /// An empty heap holds nothing.
    pub proof fn lemma_empty_contents(self)
        requires
            self.lookup_synced(),
            self.spec_len() == 0,
        ensures
            self.contents() == Map::<(u32, u32), T>::empty(),
    {
        assert(self.contents() =~= Map::<(u32, u32), T>::empty());
    }

    /// With a synced lookup table, position `i` is the unique home of its
    /// element's coordinate, and the contents map reflects it.
    proof fn lemma_at(self, i: int)
        requires
            self.lookup_synced(),
            0 <= i < self.data@.len(),
        ensures
            self.array_contains(self.data@[i].coord()),
            self.spec_index_of(self.data@[i].coord()) == i,
            self.contents().contains_key(self.data@[i].coord()),
            self.contents()[self.data@[i].coord()] == self.data@[i],
    {
        let c = self.data@[i].coord();
        assert(self.array_contains(c));
        let j = self.spec_index_of(c);
        assert(0 <= j < self.data@.len() && self.data@[j].coord() == c);
        assert(self.lookup@[enc(self.data@[j].coord())] == j);
        assert(self.lookup@[enc(self.data@[i].coord())] == i);
    }

    /// Elements in different positions carry different coordinates.
    proof fn lemma_coords_distinct(self, i: int, j: int)
        requires
            self.lookup_synced(),
            0 <= i < self.data@.len(),
            0 <= j < self.data@.len(),
            i != j,
        ensures
            self.data@[i].coord() != self.data@[j].coord(),
    {
        if self.data@[i].coord() == self.data@[j].coord() {
            assert(self.lookup@[enc(self.data@[i].coord())] == i);
            assert(self.lookup@[enc(self.data@[j].coord())] == j);
        }
    }

    /// Two synced heaps whose arrays hold the same coordinates at possibly
    /// different positions have equal contents maps.
    proof fn lemma_contents_eq(self, other: MinHeapMap<T>)
        requires
            self.lookup_synced(),
            other.lookup_synced(),
            forall|i: int|
                0 <= i < self.data@.len() ==> exists|j: int|
                    0 <= j < other.data@.len() && other.data@[j] == #[trigger] self.data@[i],
            forall|j: int|
                0 <= j < other.data@.len() ==> exists|i: int|
                    0 <= i < self.data@.len() && self.data@[i] == #[trigger] other.data@[j],
        ensures
            self.contents() == other.contents(),
    {
        assert forall|c: (u32, u32)| self.array_contains(c) implies other.array_contains(c)
            && other.contents()[c] == self.contents()[c] by {
            let i = self.spec_index_of(c);
            assert(0 <= i < self.data@.len() && self.data@[i].coord() == c);
            let j = choose|j: int|
                0 <= j < other.data@.len() && other.data@[j] == self.data@[i];
            self.lemma_at(i);
            other.lemma_at(j);
        }
        assert forall|c: (u32, u32)| other.array_contains(c) implies self.array_contains(c) by {
            let j = other.spec_index_of(c);
            assert(0 <= j < other.data@.len() && other.data@[j].coord() == c);
            let i = choose|i: int|
                0 <= i < self.data@.len() && self.data@[i] == other.data@[j];
            assert(self.data@[i].coord() == c);
        }
        assert(self.contents() =~= other.contents());
    }

    pub fn new() -> (r: Self)
        ensures
            r.well_formed(),
            r.spec_len() == 0,
            r.contents() == Map::<(u32, u32), T>::empty(),
    {
        let r = MinHeapMap { data: Vec::new(), lookup: HashMap::new(), length: 0 };
        proof {
            assert(r.contents() =~= Map::<(u32, u32), T>::empty());
        }
        r
    }

    pub fn len(&self) -> (r: usize)
        requires
            self.lookup_synced(),
        ensures
            r == self.spec_len(),
    {
        self.length
    }

    /// Exchanges the elements in two positions, updating the lookup table to
    /// match. The heap ordering is the callers' to restore.
    pub fn swap(&mut self, one: usize, other: usize)
        requires
            old(self).lookup_synced(),
            one < old(self).spec_len(),
            other < old(self).spec_len(),
        ensures
            final(self).lookup_synced(),
            final(self).spec_len() == old(self).spec_len(),
            final(self).spec_data() == old(self).spec_data().update(
                one as int,
                old(self).spec_data()[other as int],
            ).update(other as int, old(self).spec_data()[one as int]),
            final(self).contents() == old(self).contents(),
    {
        let ghost pre = *self;
        let ka = encode_key(self.data[one].lookup_key());
        let kb = encode_key(self.data[other].lookup_key());
        self.data.as_mut_slice().swap(one, other);
        self.lookup.insert(ka, other);
        self.lookup.insert(kb, one);
        proof {
            let d0 = pre.data@;
            let d1 = self.data@;
            assert forall|i: int| 0 <= i < d1.len() implies {
                &&& self.lookup@.contains_key(enc((#[trigger] d1[i]).coord()))
                &&& self.lookup@[enc(d1[i].coord())] == i
            } by {
                if i == one as int {
                    if one != other {
                        pre.lemma_coords_distinct(one as int, other as int);
                    }
                } else if i == other as int {
                } else {
                    pre.lemma_coords_distinct(i, one as int);
                    pre.lemma_coords_distinct(i, other as int);
                }
            }
            assert forall|k: u64| #[trigger] self.lookup@.contains_key(k) implies 0
                <= self.lookup@[k] < d1.len() && enc(d1[self.lookup@[k] as int].coord()) == k by {
                if k == kb {
                } else if k == ka {
                    if one != other {
                        pre.lemma_coords_distinct(one as int, other as int);
                    }
                } else {
                    assert(pre.lookup@.contains_key(k));
                    let i = pre.lookup@[k];
                    assert(enc(d0[i as int].coord()) == k);
                    if i as int == one as int || i as int == other as int {
                        // Those positions' coordinates map to ka or kb.
                        assert(false);
                    }
                }
            }
            assert(self.lookup_synced());
            assert forall|i: int| 0 <= i < self.data@.len() implies exists|j: int|
                0 <= j < pre.data@.len() && pre.data@[j] == #[trigger] self.data@[i] by {
                if i == one as int {
                    assert(pre.data@[other as int] == self.data@[i]);
                } else if i == other as int {
                    assert(pre.data@[one as int] == self.data@[i]);
                } else {
                    assert(pre.data@[i] == self.data@[i]);
                }
            }
            assert forall|j: int| 0 <= j < pre.data@.len() implies exists|i: int|
                0 <= i < self.data@.len() && self.data@[i] == #[trigger] pre.data@[j] by {
                if j == one as int {
                    assert(self.data@[other as int] == pre.data@[j]);
                } else if j == other as int {
                    assert(self.data@[one as int] == pre.data@[j]);
                } else {
                    assert(self.data@[j] == pre.data@[j]);
                }
            }
            self.lemma_contents_eq(pre);
        }
    }

    fn parent_idx(idx: usize) -> (r: usize)
        requires
            idx >= 1,
        ensures
            r == (idx - 1) as int / 2,
    {
        (idx - 1) / 2
    }

    fn left_child_idx(idx: usize) -> (r: usize)
        requires
            idx <= (usize::MAX - 1) / 2,
        ensures
            r == 2 * idx + 1,
    {
        idx * 2 + 1
    }

    fn right_child_idx(idx: usize) -> (r: usize)
        requires
            idx <= (usize::MAX - 2) / 2,
        ensures
            r == 2 * idx + 2,
    {
        idx * 2 + 2
    }

    /// Restores the heap ordering after the element in position `idx` may
    /// have become smaller than its parent.
    fn heapify_up(&mut self, idx: usize)
        requires
            old(self).lookup_synced(),
            idx < old(self).spec_len(),
            forall|i: int|
                1 <= i < old(self).data@.len() && i != idx ==> old(self).data@[(i - 1)
                    / 2].key() <= (#[trigger] old(self).data@[i]).key(),
            forall|i: int|
                1 <= i < old(self).data@.len() && (i - 1) / 2 == idx && idx >= 1 ==> old(
                    self,
                ).data@[(idx - 1) as int / 2].key() <= (#[trigger] old(self).data@[i]).key(),
        ensures
            final(self).lookup_synced(),
            final(self).heap_ordered(),
            final(self).spec_len() == old(self).spec_len(),
            final(self).contents() == old(self).contents(),
        decreases idx,
    {
        if idx == 0 {
            return ;
        }
        let parent_idx = Self::parent_idx(idx);
        let swap_needed = !self.data[parent_idx].le(&self.data[idx]);
        if swap_needed {
            let ghost pre = *self;
            self.swap(idx, parent_idx);
            proof {
                let d0 = pre.data@;
                let d1 = self.data@;
                let p = parent_idx as int;
                assert forall|i: int|
                    1 <= i < d1.len() && i != p implies d1[(i - 1) / 2].key() <= (
                #[trigger] d1[i]).key() by {
                    if (i - 1) / 2 == idx {
                        // Children of the vacated position inherit the old
                        // parent value above them.
                        assert(d0[(i - 1) / 2].key() <= d0[i].key());
                    }
                }
                assert forall|i: int|
                    1 <= i < d1.len() && (i - 1) / 2 == p && p >= 1 implies d1[(p - 1) / 2].key()
                    <= (#[trigger] d1[i]).key() by {
                    if i == idx {
                        assert(d0[(p - 1) / 2].key() <= d0[p].key());
                    } else {
                        assert(d0[(i - 1) / 2].key() <= d0[i].key());
                    }
                }
            }
            self.heapify_up(parent_idx);
        }
    }

    /// Adds an element under a coordinate not yet present.
    pub fn insert(&mut self, val: T)
        requires
            old(self).well_formed(),
            !old(self).spec_contains(val.coord()),
            old(self).spec_len() < usize::MAX,

        ensures
            final(self).well_formed(),
            final(self).spec_len() == old(self).spec_len() + 1,
            final(self).contents() == old(self).contents().insert(val.coord(), val),
    {
        let ghost pre = *self;
        let k = encode_key(val.lookup_key());
        let ghost c = val.coord();
        self.lookup.insert(k, self.length);
        self.data.push(val);
        self.length = self.length + 1;
        proof {
            let n = pre.data@.len() as int;
            assert forall|i: int| 0 <= i < self.data@.len() implies {
                &&& self.lookup@.contains_key(enc((#[trigger] self.data@[i]).coord()))
                &&& self.lookup@[enc(self.data@[i].coord())] == i
            } by {
                if i < n {
                    assert(self.data@[i] == pre.data@[i]);
                    if enc(pre.data@[i].coord()) == k {
                        assert(pre.data@[i].coord() == c);
                        pre.lemma_at(i);
                        assert(false);
                    }
                }
            }
            assert forall|kk: u64| #[trigger] self.lookup@.contains_key(kk) implies 0
                <= self.lookup@[kk] < self.data@.len() && enc(
                self.data@[self.lookup@[kk] as int].coord(),
            ) == kk by {
                if kk != k {
                    assert(pre.lookup@.contains_key(kk));
                }
            }
            assert(self.lookup_synced());
        }
        let ghost mid = *self;
        self.heapify_up(self.length - 1);
        proof {
            // The pushed element's coordinate joins the contents map.
            assert forall|cc: (u32, u32)| mid.array_contains(cc) implies pre.array_contains(cc)
                || cc == c by {
                let i = choose|i: int|
                    0 <= i < mid.data@.len() && (#[trigger] mid.data@[i]).coord() == cc;
                if i < pre.data@.len() {
                    assert(pre.data@[i].coord() == cc);
                }
            }
            assert forall|cc: (u32, u32)|
                #[trigger] mid.contents().contains_key(cc) && cc != c implies mid.contents()[cc]
                == pre.contents()[cc] by {
                let i = mid.spec_index_of(cc);
                assert(0 <= i < mid.data@.len() && mid.data@[i].coord() == cc);
                assert(i < pre.data@.len());
                mid.lemma_at(i);
                pre.lemma_at(i);
            }
            assert forall|cc: (u32, u32)| pre.array_contains(cc) implies mid.array_contains(
                cc,
            ) by {
                let i = choose|i: int|
                    0 <= i < pre.data@.len() && (#[trigger] pre.data@[i]).coord() == cc;
                assert(mid.data@[i] == pre.data@[i]);
            }
            mid.lemma_at(pre.data@.len() as int);
            assert(mid.contents() =~= pre.contents().insert(c, mid.data@[pre.data@.len() as int]));
        }
    }

    /// In a heap-ordered array the root is a minimum.
    proof fn lemma_root_min(self, i: int)
        requires
            self.heap_ordered(),
            0 <= i < self.data@.len(),
        ensures
            self.data@[0].key() <= self.data@[i].key(),
        decreases i,
    {
        if i > 0 {
            self.lemma_root_min((i - 1) / 2);
        }
    }

    /// Restores the heap ordering after the element in position `idx` may
    /// have become larger than its children.
    fn heapify_down(&mut self, idx: usize)
        requires
            old(self).lookup_synced(),
            idx < old(self).spec_len(),
            old(self).spec_len() <= usize::MAX / 2,
            forall|i: int|
                1 <= i < old(self).data@.len() && (i - 1) / 2 != idx ==> old(self).data@[(i - 1)
                    / 2].key() <= (#[trigger] old(self).data@[i]).key(),
            forall|i: int|
                1 <= i < old(self).data@.len() && (i - 1) / 2 == idx && idx >= 1 ==> old(
                    self,
                ).data@[(idx - 1) as int / 2].key() <= (#[trigger] old(self).data@[i]).key(),
        ensures
            final(self).lookup_synced(),
            final(self).heap_ordered(),
            final(self).spec_len() == old(self).spec_len(),
            final(self).contents() == old(self).contents(),
        decreases old(self).spec_len() - idx,
    {
        let l_index = Self::left_child_idx(idx);
        if l_index >= self.length {
            return ;
        }
        let r_index = Self::right_child_idx(idx);
        let mut min_idx = idx;
        if self.data[l_index].le(&self.data[min_idx]) {
            min_idx = l_index;
        }
        if r_index < self.length {
            if self.data[r_index].le(&self.data[min_idx]) {
                min_idx = r_index;
            }
        }
        if min_idx != idx {
            let ghost pre = *self;
            self.swap(idx, min_idx);
            proof {
                let d0 = pre.data@;
                let d1 = self.data@;
                let m = min_idx as int;
                assert((m - 1) / 2 == idx);
                assert forall|i: int|
                    1 <= i < d1.len() && (i - 1) / 2 != m implies d1[(i - 1) / 2].key() <= (
                #[trigger] d1[i]).key() by {
                    if i == idx {
                        // The min child's old value moved up under idx's
                        // unchanged parent: the grandparent bound covers it.
                        assert(d0[(idx - 1) as int / 2].key() <= d0[m].key());
                    } else if i == m {
                        // The swapped pair itself: the min child is smaller.
                    } else if (i - 1) / 2 == idx {
                        // Sibling of the min child: the min choice covers it.
                    } else {
                        assert(d0[(i - 1) / 2].key() <= d0[i].key());
                    }
                }
                assert forall|i: int|
                    1 <= i < d1.len() && (i - 1) / 2 == m && m >= 1 implies d1[(m - 1) / 2].key()
                    <= (#[trigger] d1[i]).key() by {
                    assert(d0[(i - 1) / 2].key() <= d0[i].key());
                }
            }
            self.heapify_down(min_idx);
        }
    }

    /// Removes and returns the minimum element; fails on an empty heap.
    #[verifier::rlimit(50)]
    pub fn pop(&mut self) -> (r: Result<T, HeapError>)
        requires
            old(self).well_formed(),
            old(self).spec_len() <= usize::MAX / 2,
        ensures
            final(self).well_formed(),
            match r {
                Ok(v) => {
                    &&& old(self).spec_len() > 0
                    &&& old(self).spec_contains(v.coord())
                    &&& old(self).contents()[v.coord()] == v
                    &&& forall|c: (u32, u32)|
                        #[trigger] old(self).contents().contains_key(c) ==> v.key() <= old(
                            self,
                        ).contents()[c].key()
                    &&& final(self).contents() == old(self).contents().remove(v.coord())
                    &&& final(self).spec_len() == old(self).spec_len() - 1
                },
                Err(e) => {
                    &&& e == HeapError::LengthIsZero
                    &&& old(self).spec_len() == 0
                    &&& *final(self) == *old(self)
                },
            },
    {
        if self.length == 0 {
            return Err(HeapError::LengthIsZero);
        }
        let ghost pre = *self;
        let last = self.length - 1;
        self.swap(0, last);
        let ghost swapped = *self;
        let out = self.data.pop().unwrap();
        self.length = last;
        let k = encode_key(out.lookup_key());
        self.lookup.remove(&k);
        proof {
            let d0 = swapped.data@;
            let d1 = self.data@;
            let n = d1.len() as int;
            assert(out == d0[n]);
            assert(out == pre.data@[0]);
            // The shortened array stays synced: the removed entry was the
            // only one pointing at the vanished position.
            assert forall|i: int| 0 <= i < n implies {
                &&& self.lookup@.contains_key(enc((#[trigger] d1[i]).coord()))
                &&& self.lookup@[enc(d1[i].coord())] == i
            } by {
                assert(d1[i] == d0[i]);
                swapped.lemma_coords_distinct(i, n);
            }
            assert forall|kk: u64| #[trigger] self.lookup@.contains_key(kk) implies 0
                <= self.lookup@[kk] < n && enc(d1[self.lookup@[kk] as int].coord()) == kk by {
                assert(swapped.lookup@.contains_key(kk));
                let i = swapped.lookup@[kk];
                if i as int == n {
                    assert(enc(d0[n].coord()) == kk);
                    assert(false);
                }
            }
            assert(self.lookup_synced());
        }
        let ghost mid = *self;
        if self.length > 0 {
            proof {
                let d0 = pre.data@;
                let d1 = mid.data@;
                assert forall|i: int|
                    1 <= i < d1.len() && (i - 1) / 2 != 0 implies d1[(i - 1) / 2].key() <= (
                #[trigger] d1[i]).key() by {
                    assert(d1[i] == d0[i]);
                    assert(d1[(i - 1) / 2] == d0[(i - 1) / 2]);
                }
            }
            self.heapify_down(0);
        }
        proof {
            // Contents: everything but the popped coordinate, unchanged.
            let c = out.coord();
            pre.lemma_at(0);
            assert forall|cc: (u32, u32)| mid.array_contains(cc) implies pre.array_contains(cc)
                && cc != c by {
                let i = mid.spec_index_of(cc);
                mid.lemma_at(i);
                if i == 0 {
                    assert(mid.data@[0] == pre.data@[pre.data@.len() - 1]);
                    assert(pre.data@[(pre.data@.len() - 1) as int].coord() == cc);
                } else {
                    assert(mid.data@[i] == pre.data@[i]);
                }
                if cc == c {
                    // The popped coordinate would have to live at two
                    // positions of the old array at once.
                    if i == 0 {
                        pre.lemma_coords_distinct(0, (pre.data@.len() - 1) as int);
                    } else {
                        pre.lemma_coords_distinct(0, i);
                    }
                    assert(false);
                }
            }
            assert forall|cc: (u32, u32)| pre.array_contains(cc) && cc != c implies
                mid.array_contains(cc) by {
                let i = pre.spec_index_of(cc);
                pre.lemma_at(i);
                if i == pre.data@.len() - 1 && i > 0 {
                    assert(mid.data@[0] == pre.data@[i]);
                } else if i < pre.data@.len() - 1 {
                    if i == 0 {
                        pre.lemma_coords_distinct(0, (pre.data@.len() - 1) as int);
                        assert(false);
                    }
                    assert(mid.data@[i] == pre.data@[i]);
                }
            }
            assert forall|cc: (u32, u32)|
                #[trigger] mid.contents().contains_key(cc) implies mid.contents()[cc]
                == pre.contents()[cc] by {
                let i = mid.spec_index_of(cc);
                mid.lemma_at(i);
                if i == 0 {
                    let lastpos = (pre.data@.len() - 1) as int;
                    assert(mid.data@[0] == pre.data@[lastpos]);
                    pre.lemma_at(lastpos);
                } else {
                    assert(mid.data@[i] == pre.data@[i]);
                    pre.lemma_at(i);
                }
            }
            assert(mid.contents() =~= pre.contents().remove(c));
            // The root of the old heap is a minimum of the old contents.
            assert forall|cc: (u32, u32)|
                #[trigger] pre.contents().contains_key(cc) implies out.key() <= pre.contents()[
                cc].key() by {
                let i = pre.spec_index_of(cc);
                pre.lemma_at(i);
                pre.lemma_root_min(i);
            }
        }
        Ok(out)
    }

    /// Borrows the element with the given coordinate, if present.
    pub fn lookup(&self, key: (u32, u32)) -> (r: Option<&T>)
        requires
            self.lookup_synced(),
        ensures
            match r {
                Some(v) => self.spec_contains(key) && *v == self.contents()[key],
                None => !self.spec_contains(key),
            },
    {
        let k = encode_key(key);
        match self.lookup.get(&k) {
            Some(idx) => {
                let i = *idx;
                proof {
                    assert(self.lookup@.contains_key(k));
                    assert(enc(self.data@[self.lookup@[k] as int].coord()) == k);
                    assert(self.data@[i as int].coord() == key) by {
                        let cc = self.data@[i as int].coord();
                        assert(enc(cc) == enc(key));
                    }
                    self.lemma_at(i as int);
                }
                Some(&self.data[i])
            },
            None => {
                proof {
                    if self.array_contains(key) {
                        let i = self.spec_index_of(key);
                        self.lemma_at(i);
                        assert(self.lookup@.contains_key(enc(key)));
                    }
                }
                None
            },
        }
    }

    /// Applies `f` to the element with the given coordinate in place and
    /// restores the heap ordering; `f` must keep the coordinate and must not
    /// increase the key. Fails if the coordinate is absent.
    #[verifier::rlimit(50)]
    pub fn lookup_and_mutate<F: FnOnce(T) -> T>(&mut self, key: (u32, u32), f: F) -> (r: Result<
        (),
        HeapError,
    >)
        requires
            old(self).well_formed(),
            old(self).spec_contains(key) ==> call_requires(f, (old(self).contents()[key],)),
            forall|t: T, u: T|
                #[trigger] call_ensures(f, (t,), u) ==> u.coord() == t.coord() && u.key()
                    <= t.key(),
        ensures
            final(self).well_formed(),
            match r {
                Ok(()) => {
                    &&& old(self).spec_contains(key)
                    &&& exists|u: T|
                        call_ensures(f, (old(self).contents()[key],), u) && final(self).contents()
                            == old(self).contents().insert(key, u)
                    &&& final(self).spec_len() == old(self).spec_len()
                },
                Err(e) => {
                    &&& e == HeapError::LookupReturnedNone
                    &&& !old(self).spec_contains(key)
                    &&& *final(self) == *old(self)
                },
            },
    {
        let ghost pre = *self;
        let k = encode_key(key);
        let idx = match self.lookup.get(&k) {
            Some(i) => *i,
            None => {
                proof {
                    if pre.array_contains(key) {
                        let i = pre.spec_index_of(key);
                        pre.lemma_at(i);
                        assert(pre.lookup@.contains_key(enc(key)));
                    }
                }
                return Err(HeapError::LookupReturnedNone);
            },
        };
        proof {
            assert(self.lookup@.contains_key(k));
            assert(enc(self.data@[self.lookup@[k] as int].coord()) == k);
            assert(self.data@[idx as int].coord() == key) by {
                let cc = self.data@[idx as int].coord();
                assert(enc(cc) == enc(key));
            }
            pre.lemma_at(idx as int);
        }
        // Take the element out, transform it, and put it back in place.
        let last = self.length - 1;
        let v = self.data.swap_remove(idx);
        let u = f(v);
        self.data.push(u);
        self.data.as_mut_slice().swap(idx, last);
        proof {
            let d0 = pre.data@;
            let d1 = self.data@;
            assert(d1.len() == d0.len());
            assert(d1[idx as int].coord() == d0[idx as int].coord());
            assert forall|i: int| 0 <= i < d1.len() && i != idx implies d1[i] == d0[i] by {}
            assert(d1 =~= d0.update(idx as int, d1[idx as int]));
            // The lookup table still matches: only the element at idx
            // changed, and its coordinate is unchanged.
            assert forall|i: int| 0 <= i < d1.len() implies {
                &&& self.lookup@.contains_key(enc((#[trigger] d1[i]).coord()))
                &&& self.lookup@[enc(d1[i].coord())] == i
            } by {
                assert(d1[i].coord() == d0[i].coord());
            }
            assert forall|kk: u64| #[trigger] self.lookup@.contains_key(kk) implies 0
                <= self.lookup@[kk] < d1.len() && enc(d1[self.lookup@[kk] as int].coord())
                == kk by {
                let i = self.lookup@[kk];
                assert(d1[i as int].coord() == d0[i as int].coord());
            }
            assert(self.lookup_synced());
        }
        let ghost mid = *self;
        proof {
            // Heap ordering holds except on the edge into idx, and the key
            // only shrank, so the edges below idx still hold.
            assert forall|i: int|
                1 <= i < mid.data@.len() && i != idx implies mid.data@[(i - 1) / 2].key() <= (
            #[trigger] mid.data@[i]).key() by {
                if (i - 1) / 2 == idx {
                    assert(pre.data@[(i - 1) / 2].key() <= pre.data@[i].key());
                    assert(mid.data@[idx as int].key() <= pre.data@[idx as int].key());
                }
            }
            if idx >= 1 {
                assert forall|i: int|
                    1 <= i < mid.data@.len() && (i - 1) / 2 == idx implies mid.data@[(idx
                    - 1) as int / 2].key() <= (#[trigger] mid.data@[i]).key() by {
                    assert(pre.data@[(idx - 1) as int / 2].key() <= pre.data@[idx as int].key());
                    assert(pre.data@[idx as int].key() <= pre.data@[i].key());
                }
            }
        }
        self.heapify_up(idx);
        proof {
            // Contents: only the mutated coordinate changed.
            assert forall|cc: (u32, u32)| mid.array_contains(cc) implies pre.array_contains(
                cc,
            ) by {
                let i = mid.spec_index_of(cc);
                mid.lemma_at(i);
                if i == idx {
                    assert(pre.data@[i].coord() == cc);
                } else {
                    assert(pre.data@[i] == mid.data@[i]);
                }
            }
            assert forall|cc: (u32, u32)| pre.array_contains(cc) implies mid.array_contains(
                cc,
            ) by {
                let i = pre.spec_index_of(cc);
                pre.lemma_at(i);
                if i == idx {
                    assert(mid.data@[i].coord() == cc);
                } else {
                    assert(mid.data@[i] == pre.data@[i]);
                }
            }
            assert forall|cc: (u32, u32)|
                #[trigger] mid.contents().contains_key(cc) && cc != key implies mid.contents()[
                cc] == pre.contents()[cc] by {
                let i = mid.spec_index_of(cc);
                mid.lemma_at(i);
                if i == idx {
                    assert(mid.data@[i].coord() == key);
                    assert(false);
                }
                pre.lemma_at(i);
            }
            mid.lemma_at(idx as int);
            assert(mid.contents() =~= pre.contents().insert(key, mid.data@[idx as int]));
        }
        Ok(())
    }

    /// Current array position of the element with the given coordinate.
    pub fn index_of(&self, key: (u32, u32)) -> (r: Option<usize>)
        requires
            self.lookup_synced(),
        ensures
            match r {
                Some(i) => i < self.spec_len() && self.spec_data()[i as int].coord() == key,
                None => !self.spec_contains(key),
            },
    {
        let k = encode_key(key);
        match self.lookup.get(&k) {
            Some(idx) => {
                let i = *idx;
                proof {
                    assert(enc(self.data@[self.lookup@[k] as int].coord()) == k);
                    assert(self.data@[i as int].coord() == key) by {
                        let cc = self.data@[i as int].coord();
                        assert(enc(cc) == enc(key));
                    }
                }
                Some(i)
            },
            None => {
                proof {
                    if self.array_contains(key) {
                        let i = self.spec_index_of(key);
                        self.lemma_at(i);
                        assert(self.lookup@.contains_key(enc(key)));
                    }
                }
                None
            },
        }
    }
}

/// A plain scored grid cell: the smallest element shape the heap can hold,
/// ordered by its score.
#[derive(Debug, Clone, Copy, PartialEq, Eq, Structural)]
pub struct ScoredCell {
    pub val: i32,
    pub x: u32,
    pub y: u32,
}

impl Heapable for ScoredCell {
    open spec fn key(&self) -> int {
        self.val as int
    }

    open spec fn coord(&self) -> (u32, u32) {
        (self.x, self.y)
    }

    fn x(&self) -> (r: u32) {
        self.x
    }

    fn y(&self) -> (r: u32) {
        self.y
    }

    fn le(&self, other: &Self) -> (r: bool) {
        self.val <= other.val
    }
}

/// Builds a heap over a `size * size` grid of scored cells, coordinates
/// 1-based, scores taken from `vec` in row-major order.
pub fn create_heap_map(size: u32, vec: &[i32]) -> (r: MinHeapMap<ScoredCell>)
    requires
        vec@.len() == size * size,
        size <= 0xFFFF,
    ensures
        r.well_formed(),
        r.spec_len() == size * size,
        forall|cx: u32, cy: u32|
            1 <= cx <= size && 1 <= cy <= size ==> #[trigger] r.contents().contains_key(
                (cx, cy),
            ) && r.contents()[(cx, cy)] == (ScoredCell {
                val: vec@[(cy - 1) * size + (cx - 1)],
                x: cx,
                y: cy,
            }),
        forall|c: (u32, u32)|
            #[trigger] r.spec_contains(c) ==> 1 <= c.0 <= size && 1 <= c.1 <= size,
{
    let mut heap: MinHeapMap<ScoredCell> = MinHeapMap::new();
    let mut y: u32 = 1;
    while y <= size
        invariant
            heap.well_formed(),
            1 <= y <= size + 1,
            size <= 0xFFFF,
            vec@.len() == size * size,
            heap.spec_len() == (y - 1) * size,
            forall|cx: u32, cy: u32|
                1 <= cx <= size && 1 <= cy < y ==> #[trigger] heap.contents().contains_key(
                    (cx, cy),
                ) && heap.contents()[(cx, cy)] == (ScoredCell {
                    val: vec@[(cy - 1) * size + (cx - 1)],
                    x: cx,
                    y: cy,
                }),
            forall|c: (u32, u32)|
                #[trigger] heap.spec_contains(c) ==> 1 <= c.0 <= size && 1 <= c.1 < y,
        decreases size + 1 - y,
    {
        let mut x: u32 = 1;
        while x <= size
            invariant
                heap.well_formed(),
                1 <= y <= size,
                1 <= x <= size + 1,
                size <= 0xFFFF,
                vec@.len() == size * size,
                heap.spec_len() == (y - 1) * size + (x - 1),
                forall|cx: u32, cy: u32|
                    (1 <= cx <= size && 1 <= cy < y) || (1 <= cx < x && cy == y)
                        ==> #[trigger] heap.contents().contains_key((cx, cy))
                        && heap.contents()[(cx, cy)] == (ScoredCell {
                        val: vec@[(cy - 1) * size + (cx - 1)],
                        x: cx,
                        y: cy,
                    }),
                forall|c: (u32, u32)|
                    #[trigger] heap.spec_contains(c) ==> 1 <= c.0 <= size && 1 <= c.1 && (c.1 < y
                        || (c.1 == y && c.0 < x)),
            decreases size + 1 - x,
        {
            proof {
                assert((y - 1) * size + (x - 1) < size * size) by (nonlinear_arith)
                    requires
                        1 <= x <= size,
                        1 <= y <= size,
                ;
            }
            let i: usize = (((y - 1) as usize) * (size as usize)) + ((x - 1) as usize);
            let val = ScoredCell { val: vec[i], x, y };
            let ghost before = heap;
            heap.insert(val);
            proof {
                assert forall|c: (u32, u32)| #[trigger] heap.spec_contains(c) implies 1 <= c.0
                    <= size && 1 <= c.1 && (c.1 < y || (c.1 == y && c.0 < x + 1)) by {
                    if c != (x, y) {
                        assert(before.spec_contains(c));
                    }
                }
                assert forall|cx: u32, cy: u32|
                    (1 <= cx <= size && 1 <= cy < y) || (1 <= cx < x + 1 && cy == y)
                        implies #[trigger] heap.contents().contains_key((cx, cy))
                        && heap.contents()[(cx, cy)] == (ScoredCell {
                        val: vec@[(cy - 1) * size + (cx - 1)],
                        x: cx,
                        y: cy,
                    }) by {
                    if !(cx == x && cy == y) {
                        assert(before.contents().contains_key((cx, cy)));
                    }
                }
            }
            x = x + 1;
        }
        proof {
            assert((y - 1) * size + size == y * size) by (nonlinear_arith);
        }
        y = y + 1;
    }
    heap
}

} // verus!
