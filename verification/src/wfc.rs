//! Wave Function Collapse grid solver: every cell of a square grid starts as
//! a wave of all possible tiles, and the solver repeatedly collapses the
//! lowest-entropy cell and propagates the constraint to its neighbors,
//! driven by the indexed min-heap.

use rand::Rng;
use vstd::prelude::*;

verus! {

use crate::heap::{Heapable, MinHeapMap};
use crate::tile::{
    TileID, Orientation, spec_connection_map, spec_accepts, spec_is_valid_tile,
    spec_is_connectable, spec_all_valid_ids, all_valid_ids, lemma_tile_eq,
};

/// Whether a candidate tile can sit next to an already collapsed neighbor
/// lying toward `neighbor_orient`: the candidate's socket on the shared edge
/// must accept the neighbor's socket on the opposite edge.
pub open spec fn spec_keeps(cand: TileID, neighbor: TileID, neighbor_orient: Orientation) -> bool {
    spec_accepts(
        spec_connection_map(cand@).spec_at(neighbor_orient),
        spec_connection_map(neighbor@).spec_at(neighbor_orient.spec_invert()),
    )
}

/// The candidates one propagation pass marks for removal: scanning the
/// possibilities in order, every candidate incompatible with the collapsed
/// neighbor is marked, and marking stops once `tries` candidates are marked.
pub open spec fn spec_marked(
    poss: Seq<TileID>,
    neighbor: TileID,
    o: Orientation,
    tries: int,
    sofar: int,
) -> Seq<TileID>
    decreases poss.len(),
{
    if poss.len() == 0 || sofar >= tries {
        Seq::empty()
    } else {
        let keep = spec_keeps(poss[0], neighbor, o);
        if keep {
            spec_marked(poss.drop_first(), neighbor, o, tries, sofar)
        } else {
            seq![poss[0]] + spec_marked(poss.drop_first(), neighbor, o, tries, sofar + 1)
        }
    }
}

/// A possibility list with the first occurrence of one id removed; the list
/// unchanged if the id is absent.
pub open spec fn spec_remove_id(poss: Seq<TileID>, id: TileID) -> Seq<TileID> {
    if poss.contains(id) {
        poss.remove(poss.index_of(id))
    } else {
        poss
    }
}

/// Removal with the last-candidate guard: marked ids leave the possibility
/// list one at a time, but removal stops rather than empty the list.
pub open spec fn spec_strip(poss: Seq<TileID>, ids: Seq<TileID>) -> Seq<TileID>
    decreases ids.len(),
{
    if ids.len() == 0 || poss.len() <= 1 {
        poss
    } else {
        spec_strip(spec_remove_id(poss, ids[0]), ids.drop_first())
    }
}

/// What one propagation pass leaves of a possibility list.
pub open spec fn spec_update(
    poss: Seq<TileID>,
    neighbor: TileID,
    o: Orientation,
    tries: int,
) -> Seq<TileID> {
    spec_strip(poss, spec_marked(poss, neighbor, o, tries, 0))
}

/// Solver state of one uncollapsed cell: the set of still-possible tile
/// ids, initialized to all of them and only ever shrinking.
#[derive(Debug, Clone, PartialEq, Eq)]
pub struct Wave {
    possible: Vec<TileID>,
}

impl View for Wave {
    type V = Seq<TileID>;

    closed spec fn view(&self) -> Seq<TileID> {
        self.possible@
    }
}

impl Wave {
    /// The possibility list holds canonical tile ids, each at most once.
    pub open spec fn wf(self) -> bool {
        &&& forall|i: int| 0 <= i < self@.len() ==> spec_is_valid_tile((#[trigger] self@[i])@)
        &&& forall|i: int, j: int|
            0 <= i < self@.len() && 0 <= j < self@.len() && i != j ==> self@[i] != self@[j]
    }

    /// A fresh wave: every canonical tile id is still possible.
    pub fn new() -> (r: Wave)
        ensures
            r.wf(),
            r@.len() == spec_all_valid_ids().len(),
            forall|i: int| 0 <= i < r@.len() ==> (#[trigger] r@[i])@ == spec_all_valid_ids()[i],
    {
        let possible = all_valid_ids();
        let r = Wave { possible };
        proof {
            assert forall|i: int, j: int|
                0 <= i < r@.len() && 0 <= j < r@.len() && i != j implies r@[i] != r@[j] by {
                assert(r@[i]@ == spec_all_valid_ids()[i]);
                assert(r@[j]@ == spec_all_valid_ids()[j]);
            }
        }
        r
    }

    /// How many tile ids are still possible.
    pub fn possible_count(&self) -> (r: usize)
        ensures
            r == self@.len(),
    {
        self.possible.len()
    }

    /// Whether a tile id is still possible.
    pub fn contains_id(&self, id: TileID) -> (r: bool)
        ensures
            r == self@.contains(id),
    {
        let mut i: usize = 0;
        while i < self.possible.len()
            invariant
                i <= self@.len(),
                forall|j: int| 0 <= j < i ==> self@[j] != id,
            decreases self@.len() - i,
        {
            if self.possible[i] == id {
                return true;
            }
            i = i + 1;
        }
        false
    }

    /// The tile id in one position of the possibility list.
    pub fn id_at(&self, i: usize) -> (r: TileID)
        requires
            i < self@.len(),
        ensures
            r == self@[i as int],
    {
        self.possible[i]
    }

    /// One propagation pass: marks up to `tries_allowed` possibilities that
    /// are incompatible with the newly collapsed neighbor, then removes them
    /// unless that would leave the cell without any possibility.
    pub fn update(
        &mut self,
        collapsed_neighbor_id: TileID,
        collapsed_neighbor_orient: Orientation,
        tries_allowed: usize,
    )
        requires
            old(self).wf(),
            spec_is_connectable(collapsed_neighbor_id@),
            tries_allowed >= 1,
        ensures
            final(self).wf(),
            final(self)@ == spec_update(
                old(self)@,
                collapsed_neighbor_id,
                collapsed_neighbor_orient,
                tries_allowed as int,
            ),
            final(self)@.len() <= old(self)@.len(),
            old(self)@.len() >= 1 ==> final(self)@.len() >= 1,
            forall|t: TileID| final(self)@.contains(t) ==> old(self)@.contains(t),
    {
        let ghost orig = self@;
        let ghost tries = tries_allowed as int;
        let orientation_of_self_relative_to_neighbor = collapsed_neighbor_orient.invert();
        let neighbor_connection = collapsed_neighbor_id.connection_map().at(
            orientation_of_self_relative_to_neighbor,
        );

        let mut ids_to_remove: Vec<TileID> = Vec::new();
        let mut i: usize = 0;
        proof {
            assert(orig.skip(0) =~= orig);
            assert(Seq::<TileID>::empty() + spec_marked(
                orig,
                collapsed_neighbor_id,
                collapsed_neighbor_orient,
                tries,
                0,
            ) =~= spec_marked(orig, collapsed_neighbor_id, collapsed_neighbor_orient, tries, 0));
        }
        while i < self.possible.len() && ids_to_remove.len() < tries_allowed
            invariant
                self.wf(),
                self@ == orig,
                i <= orig.len(),
                tries == tries_allowed as int,
                ids_to_remove@.len() <= tries_allowed,
                spec_is_connectable(collapsed_neighbor_id@),
                neighbor_connection == spec_connection_map(collapsed_neighbor_id@).spec_at(
                    collapsed_neighbor_orient.spec_invert(),
                ),
                spec_marked(orig, collapsed_neighbor_id, collapsed_neighbor_orient, tries, 0)
                    == ids_to_remove@ + spec_marked(
                    orig.skip(i as int),
                    collapsed_neighbor_id,
                    collapsed_neighbor_orient,
                    tries,
                    ids_to_remove@.len() as int,
                ),
            decreases orig.len() - i,
        {
            let ghost pre_ids = ids_to_remove@;
            let id = self.possible[i];
            let connect = id.connection_map().at(collapsed_neighbor_orient);
            if !connect.accepts_incoming_connection(&neighbor_connection) {
                ids_to_remove.push(id);
            }
            proof {
                let n = collapsed_neighbor_id;
                let o = collapsed_neighbor_orient;
                let cnt = pre_ids.len() as int;
                let rest = orig.skip(i as int);
                assert(rest.len() > 0);
                assert(rest[0] == orig[i as int]);
                assert(rest.drop_first() =~= orig.skip(i as int + 1));
                assert(spec_marked(orig, n, o, tries, 0) == pre_ids + spec_marked(
                    rest,
                    n,
                    o,
                    tries,
                    cnt,
                ));
                if spec_keeps(id, n, o) {
                    assert(ids_to_remove@ == pre_ids);
                    assert(spec_marked(rest, n, o, tries, cnt) == spec_marked(
                        rest.drop_first(),
                        n,
                        o,
                        tries,
                        cnt,
                    ));
                    assert(spec_marked(rest.drop_first(), n, o, tries, cnt) == spec_marked(
                        orig.skip(i as int + 1),
                        n,
                        o,
                        tries,
                        cnt,
                    ));
                } else {
                    assert(ids_to_remove@ =~= pre_ids + seq![id]);
                    assert(cnt < tries);
                    assert(rest.len() != 0);
                    assert(!spec_keeps(rest[0], n, o));
                    assert(spec_marked(rest, n, o, tries, cnt) == seq![rest[0]] + spec_marked(
                        rest.drop_first(),
                        n,
                        o,
                        tries,
                        cnt + 1,
                    ));
                    assert(spec_marked(rest.drop_first(), n, o, tries, cnt + 1) == spec_marked(
                        orig.skip(i as int + 1),
                        n,
                        o,
                        tries,
                        cnt + 1,
                    ));
                    assert(pre_ids + (seq![id] + spec_marked(
                        orig.skip(i as int + 1),
                        n,
                        o,
                        tries,
                        cnt + 1,
                    )) =~= (pre_ids + seq![id]) + spec_marked(
                        orig.skip(i as int + 1),
                        n,
                        o,
                        tries,
                        cnt + 1,
                    ));
                }
                assert(spec_marked(orig, n, o, tries, 0) == ids_to_remove@ + spec_marked(
                    orig.skip(i as int + 1),
                    n,
                    o,
                    tries,
                    ids_to_remove@.len() as int,
                ));
            }
            i = i + 1;
        }
        proof {
            if i == orig.len() {
                assert(orig.skip(i as int).len() == 0);
            }
            assert(spec_marked(orig, collapsed_neighbor_id, collapsed_neighbor_orient, tries, 0)
                =~= ids_to_remove@);
        }

        let ghost marked = ids_to_remove@;
        let mut j: usize = 0;
        proof {
            assert(marked.skip(0) =~= marked);
        }
        while j < ids_to_remove.len() && self.possible.len() > 1
            invariant
                self.wf(),
                j <= marked.len(),
                ids_to_remove@ == marked,
                spec_strip(self@, marked.skip(j as int)) == spec_strip(orig, marked),
                self@.len() <= orig.len(),
                orig.len() >= 1 ==> self@.len() >= 1,
                forall|t: TileID| self@.contains(t) ==> orig.contains(t),
            decreases marked.len() - j,
        {
            let ghost pre = self@;
            let target = ids_to_remove[j];
            let mut k: usize = 0;
            let mut found: bool = false;
            while k < self.possible.len() && !found
                invariant
                    self@ == pre,
                    k <= pre.len(),
                    found ==> k < pre.len() && pre[k as int] == target,
                    !found ==> forall|m: int| 0 <= m < k ==> pre[m] != target,
                decreases pre.len() - k + if found { 0int } else { 1int },
            {
                if self.possible[k] == target {
                    found = true;
                } else {
                    k = k + 1;
                }
            }
            if found {
                self.possible.remove(k);
                proof {
                    assert(pre.contains(target));
                    let ix = pre.index_of(target);
                    assert(0 <= ix < pre.len() && pre[ix] == target);
                    assert(ix == k as int);
                    assert(self@ =~= spec_remove_id(pre, target));
                    assert forall|a: int, b: int|
                        0 <= a < self@.len() && 0 <= b < self@.len() && a != b implies self@[a]
                        != self@[b] by {
                        let a0 = if a < k as int {
                            a
                        } else {
                            a + 1
                        };
                        let b0 = if b < k as int {
                            b
                        } else {
                            b + 1
                        };
                        assert(self@[a] == pre[a0]);
                        assert(self@[b] == pre[b0]);
                    }
                    assert forall|t: TileID| self@.contains(t) implies pre.contains(t) by {
                        let a = choose|a: int| 0 <= a < self@.len() && self@[a] == t;
                        let a0 = if a < k as int {
                            a
                        } else {
                            a + 1
                        };
                        assert(pre[a0] == t);
                    }
                }
            } else {
                proof {
                    if pre.contains(target) {
                        let ix = pre.index_of(target);
                        assert(pre[ix] == target);
                        assert(false);
                    }
                    assert(self@ == spec_remove_id(pre, target));
                }
            }
            proof {
                let rest = marked.skip(j as int);
                assert(rest[0] == marked[j as int]);
                assert(rest.drop_first() =~= marked.skip(j as int + 1));
            }
            j = j + 1;
        }
        proof {
            if j == marked.len() {
                assert(marked.skip(j as int).len() == 0);
            }
            assert(spec_strip(self@, marked.skip(j as int)) == self@);
        }
    }
}


/// Relies on `rand::thread_rng` and `rand::Rng::gen_range` over `0..bound`:
/// an index drawn below the bound. Nothing more is promised of the draw.
#[verifier::external_body]
fn random_below(bound: usize) -> (r: usize)
    requires
        bound > 0,
    ensures
        r < bound,
{
    rand::thread_rng().gen_range(0..bound)
}

/// A collapsed grid cell: one concrete tile id at a grid position, `z`
/// being the grid row.
#[derive(Debug, Clone, Copy, PartialEq, Eq, Structural)]
pub struct TileCell {
    pub id: TileID,
    pub x: u32,
    pub z: u32,
}

/// One cell of the solver grid: still a wave of possibilities, or already
/// collapsed to a concrete tile. A cell never leaves the collapsed state.
#[derive(Debug, Clone, PartialEq, Eq)]
pub enum WaveGridCell {
    Collapsed { cell: TileCell, x: u32, y: u32 },
    Wave { wave: Wave, x: u32, y: u32 },
}

impl TileCell {
    pub fn new(id: TileID, x: u32, z: u32) -> (r: Self)
        ensures
            r == (TileCell { id, x, z }),
    {
        TileCell { id, x, z }
    }

    /// The collapsed payload of a grid cell, or nothing while it is still a
    /// wave.
    pub fn try_from_wave_grid_cell(wgc: WaveGridCell) -> (r: Option<TileCell>)
        ensures
            match wgc {
                WaveGridCell::Collapsed { cell, .. } => r == Some(cell),
                WaveGridCell::Wave { .. } => r is None,
            },
    {
        if let WaveGridCell::Collapsed { cell, .. } = wgc {
            return Some(cell);
        }
        None
    }
}

impl WaveGridCell {
    /// Whether this cell is still uncollapsed.
    pub open spec fn is_wave(self) -> bool {
        self is Wave
    }

    /// The possibility list of an uncollapsed cell.
    pub open spec fn wave_view(self) -> Seq<TileID> {
        match self {
            WaveGridCell::Wave { wave, .. } => wave@,
            WaveGridCell::Collapsed { .. } => Seq::empty(),
        }
    }

    /// The tile a collapsed cell carries.
    pub open spec fn collapsed_id(self) -> TileID {
        match self {
            WaveGridCell::Collapsed { cell, .. } => cell.id,
            WaveGridCell::Wave { .. } => arbitrary(),
        }
    }

    /// A wave cell carries a well-formed possibility list; a collapsed cell
    /// carries a canonical tile and its own coordinates.
    pub open spec fn wf(self) -> bool {
        match self {
            WaveGridCell::Wave { wave, .. } => wave.wf(),
            WaveGridCell::Collapsed { cell, x, y } => cell.x == x && cell.z == y
                && spec_is_valid_tile(cell.id@),
        }
    }

    /// A fresh uncollapsed cell with every tile still possible.
    pub fn new(x: u32, y: u32) -> (r: Self)
        ensures
            r.is_wave(),
            r.wf(),
            r.coord() == (x, y),
            r.wave_view().len() == spec_all_valid_ids().len(),
    {
        WaveGridCell::Wave { wave: Wave::new(), x, y }
    }

    /// The tile id of a collapsed cell.
    pub fn tile_id(&self) -> (r: Option<TileID>)
        ensures
            match *self {
                WaveGridCell::Collapsed { cell, .. } => r == Some(cell.id),
                WaveGridCell::Wave { .. } => r is None,
            },
    {
        if let WaveGridCell::Collapsed { cell, .. } = self {
            return Some(cell.id);
        }
        None
    }

    pub fn collapsed(&self) -> (r: bool)
        ensures
            r == !self.is_wave(),
    {
        match self {
            WaveGridCell::Collapsed { .. } => true,
            WaveGridCell::Wave { .. } => false,
        }
    }

    /// Commits an uncollapsed cell to one tile; a collapsed cell is left
    /// alone.
    pub fn collapse_into(&mut self, tile_id: TileID)
        ensures
            old(self).is_wave() ==> *final(self) == (WaveGridCell::Collapsed {
                cell: TileCell { id: tile_id, x: old(self).coord().0, z: old(self).coord().1 },
                x: old(self).coord().0,
                y: old(self).coord().1,
            }),
            !old(self).is_wave() ==> *final(self) == *old(self),
    {
        if let WaveGridCell::Wave { x, y, .. } = self {
            let (cx, cy) = (*x, *y);
            *self = WaveGridCell::Collapsed { cell: TileCell { id: tile_id, x: cx, z: cy }, x: cx, y: cy };
        }
    }

    /// Commits an uncollapsed cell to a tile picked uniformly at random from
    /// its possibilities, skipping the empty tile while other candidates
    /// remain; a cell out of possibilities falls back to the empty tile.
    pub fn force_collapse(&mut self)
        requires
            old(self).is_wave(),
            old(self).wf(),
        ensures
            !final(self).is_wave(),
            final(self).wf(),
            final(self).coord() == old(self).coord(),
            old(self).wave_view().len() == 0 ==> final(self).collapsed_id()@ == TileID::EMPTY,
            old(self).wave_view().len() >= 1 ==> old(self).wave_view().contains(
                final(self).collapsed_id(),
            ),
            old(self).wave_view().len() > 1 ==> final(self).collapsed_id()@ != TileID::EMPTY,
    {
        let chosen: TileID = match &*self {
            WaveGridCell::Wave { wave, .. } => {
                let n = wave.possible_count();
                if n == 0 {
                    TileID::new(TileID::EMPTY)
                } else if n == 1 {
                    let only = wave.id_at(0);
                    proof {
                        assert(wave@.contains(wave@[0]));
                    }
                    only
                } else {
                    // Gather the candidates other than the empty tile; the
                    // ids are distinct, so at most one is skipped.
                    let empty_tile = TileID::new(TileID::EMPTY);
                    let mut candidates: Vec<TileID> = Vec::new();
                    let mut k: usize = 0;
                    let ghost mut empties: int = 0;
                    while k < n
                        invariant
                            wave.wf(),
                            empty_tile@ == TileID::EMPTY,
                            n == wave@.len(),
                            k <= n,
                            candidates@.len() + empties == k,
                            0 <= empties <= 1,
                            empties == 1 ==> exists|j: int|
                                0 <= j < k && (#[trigger] wave@[j])@ == TileID::EMPTY,
                            forall|m: int|
                                0 <= m < candidates@.len() ==> wave@.contains(
                                    #[trigger] candidates@[m],
                                ) && candidates@[m]@ != TileID::EMPTY,
                        decreases n - k,
                    {
                        let id = wave.id_at(k);
                        proof {
                            lemma_tile_eq(id, empty_tile);
                        }
                        if id == empty_tile {
                            proof {
                                assert(wave@[k as int]@ == TileID::EMPTY);
                                if empties == 1 {
                                    let j = choose|j: int|
                                        0 <= j < k && (#[trigger] wave@[j])@ == TileID::EMPTY;
                                    lemma_tile_eq(wave@[j], wave@[k as int]);
                                    assert(wave@[j] == wave@[k as int]);
                                    assert(false);
                                }
                                empties = empties + 1;
                            }
                        } else {
                            candidates.push(id);
                            proof {
                                assert(wave@.contains(wave@[k as int]));
                            }
                        }
                        k = k + 1;
                    }
                    proof {
                        assert(candidates@.len() >= 1);
                    }
                    let idx = random_below(candidates.len());
                    let picked = candidates[idx];
                    proof {
                        assert(wave@.contains(picked));
                    }
                    picked
                }
            },
            WaveGridCell::Collapsed { .. } => {
                proof {
                    assert(false);
                }
                TileID::new(TileID::EMPTY)
            },
        };
        proof {
            assert(spec_all_valid_ids()[0] == TileID::EMPTY);
        }
        self.collapse_into(chosen);
    }
}

impl Heapable for WaveGridCell {
    open spec fn key(&self) -> int {
        match *self {
            WaveGridCell::Wave { wave, .. } => wave@.len() as int,
            WaveGridCell::Collapsed { .. } => 0x10000,
        }
    }

    open spec fn coord(&self) -> (u32, u32) {
        match *self {
            WaveGridCell::Wave { x, y, .. } => (x, y),
            WaveGridCell::Collapsed { x, y, .. } => (x, y),
        }
    }

    fn x(&self) -> (r: u32) {
        match self {
            WaveGridCell::Wave { x, .. } => *x,
            WaveGridCell::Collapsed { x, .. } => *x,
        }
    }

    fn y(&self) -> (r: u32) {
        match self {
            WaveGridCell::Wave { y, .. } => *y,
            WaveGridCell::Collapsed { y, .. } => *y,
        }
    }

    fn le(&self, other: &Self) -> (r: bool) {
        self.rank() <= other.rank()
    }
}

impl WaveGridCell {
    /// The heap rank of this cell: its entropy while uncollapsed, and a
    /// value above any entropy once collapsed, so that collapsed cells sort
    /// after every wave cell and are never picked again.
    fn rank(&self) -> (r: usize)
        ensures
            r == self.key(),
    {
        match self {
            WaveGridCell::Wave { wave, .. } => wave.possible_count(),
            WaveGridCell::Collapsed { .. } => 0x10000,
        }
    }
}


/// The grid-adjacent neighbors of a cell: for each in-range direction, the
/// orientation of the neighbor relative to the cell and its coordinates.
pub open spec fn spec_neighbor_coords(dim: int, x: u32, y: u32) -> Seq<
    (Orientation, (u32, u32)),
> {
    (if x > 1 {
        seq![(Orientation::Left, (((x - 1) as u32), y))]
    } else {
        Seq::empty()
    }) + (if x < dim {
        seq![(Orientation::Right, (((x + 1) as u32), y))]
    } else {
        Seq::empty()
    }) + (if y < dim {
        seq![(Orientation::Top, (x, ((y + 1) as u32)))]
    } else {
        Seq::empty()
    }) + (if y > 1 {
        seq![(Orientation::Bottom, (x, ((y - 1) as u32)))]
    } else {
        Seq::empty()
    })
}

/// Whether a collapsed output list already covers a coordinate.
pub open spec fn spec_output_covers(out: Seq<TileCell>, c: (u32, u32)) -> bool {
    exists|i: int| 0 <= i < out.len() && (#[trigger] out[i]).x == c.0 && out[i].z == c.1
}

/// The square grid of wave cells the solver collapses, driven by the
/// indexed min-heap ordered by cell entropy.
#[derive(Debug)]
pub struct WaveGrid {
    dimension_size: usize,
    heap_map: MinHeapMap<WaveGridCell>,
}

impl WaveGrid {
    /// Side length of the grid.
    pub closed spec fn spec_dim(self) -> int {
        self.dimension_size as int
    }

    /// The cells still held by the heap, by coordinate.
    pub closed spec fn cells(self) -> Map<(u32, u32), WaveGridCell> {
        self.heap_map.contents()
    }

    /// A grid ready to collapse: the heap is consistent and holds exactly
    /// one well-formed wave cell for every coordinate of the square grid.
    pub closed spec fn wf(self) -> bool {
        &&& self.heap_map.well_formed()
        &&& 1 <= self.dimension_size <= 0x7FFF
        &&& self.heap_map.spec_len() == self.dimension_size * self.dimension_size
        &&& forall|c: (u32, u32)|
            #[trigger] self.heap_map.spec_contains(c) <==> (1 <= c.0 <= self.dimension_size && 1
                <= c.1 <= self.dimension_size)
        &&& forall|c: (u32, u32)|
            #[trigger] self.heap_map.spec_contains(c) ==> self.heap_map.contents()[c].is_wave()
                && self.heap_map.contents()[c].wf() && self.heap_map.contents()[c].coord() == c
    }

    /// A fresh grid: every cell of the `size * size` square is a wave with
    /// every tile still possible, keyed by its 1-based coordinates.
    pub fn new(size: u32) -> (r: WaveGrid)
        requires
            1 <= size <= 0x7FFF,
        ensures
            r.wf(),
            r.spec_dim() == size,
    {
        let mut heap_map: MinHeapMap<WaveGridCell> = MinHeapMap::new();
        let mut y: u32 = 1;
        while y <= size
            invariant
                heap_map.well_formed(),
                1 <= y <= size + 1,
                1 <= size <= 0x7FFF,
                heap_map.spec_len() == (y - 1) * size,
                forall|c: (u32, u32)|
                    #[trigger] heap_map.spec_contains(c) <==> (1 <= c.0 <= size && 1 <= c.1
                        < y),
                forall|c: (u32, u32)|
                    #[trigger] heap_map.spec_contains(c) ==> heap_map.contents()[c].is_wave()
                        && heap_map.contents()[c].wf() && heap_map.contents()[c].coord() == c,
            decreases size + 1 - y,
        {
            let mut x: u32 = 1;
            while x <= size
                invariant
                    heap_map.well_formed(),
                    1 <= y <= size,
                    1 <= x <= size + 1,
                    1 <= size <= 0x7FFF,
                    heap_map.spec_len() == (y - 1) * size + (x - 1),
                    forall|c: (u32, u32)|
                        #[trigger] heap_map.spec_contains(c) <==> ((1 <= c.0 <= size && 1 <= c.1
                            < y) || (c.1 == y && 1 <= c.0 < x)),
                    forall|c: (u32, u32)|
                        #[trigger] heap_map.spec_contains(c) ==> heap_map.contents()[
                            c].is_wave() && heap_map.contents()[c].wf() && heap_map.contents()[
                            c].coord() == c,
                decreases size + 1 - x,
            {
                let tile = WaveGridCell::new(x, y);
                proof {
                    assert((y - 1) * size + (x - 1) < size * size <= 0x3FFF_0001) by (
                    nonlinear_arith)
                        requires
                            1 <= x <= size,
                            1 <= y <= size,
                            size <= 0x7FFF,
                    ;
                }
                let ghost before = heap_map;
                heap_map.insert(tile);
                proof {
                    assert forall|c: (u32, u32)| #[trigger] heap_map.spec_contains(c) implies ((1
                        <= c.0 <= size && 1 <= c.1 < y) || (c.1 == y && 1 <= c.0 < x + 1)) by {
                        if c != (x, y) {
                            assert(before.spec_contains(c));
                        }
                    }
                    assert forall|c: (u32, u32)| ((1 <= c.0 <= size && 1 <= c.1 < y) || (c.1 == y
                        && 1 <= c.0 < x + 1)) implies #[trigger] heap_map.spec_contains(c) by {
                        if c != (x, y) {
                            assert(before.spec_contains(c));
                        }
                    }
                    assert forall|c: (u32, u32)| #[trigger] heap_map.spec_contains(c) implies
                        heap_map.contents()[c].is_wave() && heap_map.contents()[c].wf()
                        && heap_map.contents()[c].coord() == c by {
                        if c != (x, y) {
                            assert(before.spec_contains(c));
                            assert(heap_map.contents()[c] == before.contents()[c]);
                        }
                    }
                }
                x = x + 1;
            }
            proof {
                assert((y - 1) * size + size == y * size) by (nonlinear_arith);
            }
            y = y + 1;
        }
        WaveGrid { dimension_size: size as usize, heap_map }
    }

    /// The in-range neighbors of the given cell, each with its orientation
    /// relative to that cell.
    fn neighbor_coords(&self, x: u32, y: u32) -> (r: Vec<(Orientation, (u32, u32))>)
        requires
            1 <= x <= self.spec_dim(),
            1 <= y <= self.spec_dim(),
            self.spec_dim() <= 0x7FFF,
        ensures
            r@ == spec_neighbor_coords(self.spec_dim(), x, y),
            forall|t: int|
                0 <= t < r@.len() ==> 1 <= (#[trigger] r@[t]).1.0 <= self.spec_dim() && 1
                    <= r@[t].1.1 <= self.spec_dim(),
    {
        let dim = self.dimension_size as u32;
        let mut neighbors: Vec<(Orientation, (u32, u32))> = Vec::new();
        if x > 1 {
            neighbors.push((Orientation::Left, (x - 1, y)));
        }
        if x < dim {
            neighbors.push((Orientation::Right, (x + 1, y)));
        }
        if y < dim {
            neighbors.push((Orientation::Top, (x, y + 1)));
        }
        if y > 1 {
            neighbors.push((Orientation::Bottom, (x, y - 1)));
        }
        proof {
            assert(neighbors@ =~= spec_neighbor_coords(self.spec_dim(), x, y));
        }
        neighbors
    }

    /// Collapses the whole grid: repeatedly pops the lowest-entropy cell,
    /// commits it to one of its remaining tiles, and propagates the
    /// constraint to its uncollapsed neighbors. The result assigns exactly
    /// one tile to every coordinate of the grid, in pop order.
    pub fn collapse_all_into_vec(&mut self) -> (r: Vec<TileCell>)
        requires
            old(self).wf(),
        ensures
            r@.len() == old(self).spec_dim() * old(self).spec_dim(),
            forall|i: int|
                0 <= i < r@.len() ==> 1 <= (#[trigger] r@[i]).x <= old(self).spec_dim() && 1
                    <= r@[i].z <= old(self).spec_dim() && spec_is_valid_tile(r@[i].id@),
            forall|i: int, j: int|
                0 <= i < r@.len() && 0 <= j < r@.len() && i != j ==> ((#[trigger] r@[i]).x, r@[
                i].z) != ((#[trigger] r@[j]).x, r@[j].z),
            forall|cx: u32, cy: u32|
                1 <= cx <= old(self).spec_dim() && 1 <= cy <= old(self).spec_dim()
                    ==> spec_output_covers(r@, (cx, cy)),
    {
        let ghost dim = self.spec_dim();
        let mut grid_collapsed: Vec<TileCell> = Vec::new();
        while self.heap_map.len() > 0
            invariant
                self.heap_map.well_formed(),
                1 <= dim <= 0x7FFF,
                self.dimension_size as int == dim,
                grid_collapsed@.len() + self.heap_map.spec_len() == dim * dim,
                forall|c: (u32, u32)|
                    #[trigger] self.heap_map.spec_contains(c) ==> 1 <= c.0 <= dim && 1 <= c.1
                        <= dim,
                forall|c: (u32, u32)|
                    #[trigger] self.heap_map.spec_contains(c) ==> self.heap_map.contents()[
                        c].is_wave() && self.heap_map.contents()[c].wf()
                        && self.heap_map.contents()[c].coord() == c,
                forall|i: int|
                    0 <= i < grid_collapsed@.len() ==> 1 <= (#[trigger] grid_collapsed@[i]).x
                        <= dim && 1 <= grid_collapsed@[i].z <= dim && spec_is_valid_tile(
                        grid_collapsed@[i].id@,
                    ),
                forall|i: int, j: int|
                    0 <= i < grid_collapsed@.len() && 0 <= j < grid_collapsed@.len() && i != j
                        ==> ((#[trigger] grid_collapsed@[i]).x, grid_collapsed@[i].z) != ((
                    #[trigger] grid_collapsed@[j]).x, grid_collapsed@[j].z),
                forall|i: int|
                    0 <= i < grid_collapsed@.len() ==> !self.heap_map.spec_contains(
                        ((#[trigger] grid_collapsed@[i]).x, grid_collapsed@[i].z),
                    ),
                forall|cx: u32, cy: u32|
                    1 <= cx <= dim && 1 <= cy <= dim ==> (self.heap_map.spec_contains((cx, cy))
                        || spec_output_covers(grid_collapsed@, (cx, cy))),
            decreases self.heap_map.spec_len(),
        {
            let ghost pre_heap = self.heap_map;
            proof {
                assert(dim * dim <= 0x7FFF * 0x7FFF) by (nonlinear_arith)
                    requires
                        1 <= dim <= 0x7FFF,
                ;
            }
            let mut current = self.heap_map.pop().unwrap();
            let ghost popped_coord = current.coord();
            proof {
                assert(pre_heap.contents()[popped_coord] == current);
                assert(current.is_wave() && current.wf());
            }
            current.force_collapse();
            let current_id = match current.tile_id() {
                Some(id) => id,
                None => {
                    proof {
                        assert(false);
                    }
                    TileID::new(TileID::EMPTY)
                },
            };
            let cx = current.x();
            let cy = current.y();
            let neighbors = self.neighbor_coords(cx, cy);
            let ghost after_pop = self.heap_map;

            proof {
                assert forall|c: (u32, u32)| #[trigger] self.heap_map.spec_contains(c) implies
                    self.heap_map.contents()[c].is_wave() && self.heap_map.contents()[c].wf()
                    && self.heap_map.contents()[c].coord() == c by {
                    assert(pre_heap.spec_contains(c));
                    assert(self.heap_map.contents()[c] == pre_heap.contents()[c]);
                }
            }
            let mut t: usize = 0;
            while t < neighbors.len()
                invariant
                    self.heap_map.well_formed(),
                    self.dimension_size as int == dim,
                    spec_is_valid_tile(current_id@),
                    self.heap_map.spec_len() == after_pop.spec_len(),
                    forall|c: (u32, u32)|
                        #[trigger] self.heap_map.spec_contains(c) <==> after_pop.spec_contains(
                            c,
                        ),
                    forall|c: (u32, u32)|
                        #[trigger] self.heap_map.spec_contains(c)
                            ==> self.heap_map.contents()[c].is_wave()
                            && self.heap_map.contents()[c].wf() && self.heap_map.contents()[
                            c].coord() == c,
                    t <= neighbors@.len(),
                decreases neighbors@.len() - t,
            {
                let (orient, coords) = neighbors[t];
                let inv_orient = orient.invert();
                let ghost before_mut = self.heap_map;
                let f = |state: WaveGridCell| -> (res2: WaveGridCell)
                    requires
                        state.wf(),
                    ensures
                        res2.coord() == state.coord(),
                        res2.key() <= state.key(),
                        res2.wf(),
                        res2.is_wave() == state.is_wave(),
                    {
                        match state {
                            WaveGridCell::Wave { mut wave, x, y } => {
                                wave.update(current_id, inv_orient, 3);
                                WaveGridCell::Wave { wave, x, y }
                            },
                            other => other,
                        }
                    };
                let res = self.heap_map.lookup_and_mutate(coords, f);
                proof {
                    if res is Ok {
                        let u = choose|u: WaveGridCell|
                            call_ensures(f, (before_mut.contents()[coords],), u)
                                && self.heap_map.contents() == before_mut.contents().insert(
                                coords,
                                u,
                            );
                        let state = before_mut.contents()[coords];
                        assert(state.coord() == coords);
                        assert(u.coord() == coords && u.wf());
                        assert(self.heap_map.contents().dom() =~= before_mut.contents().dom());
                        assert forall|c: (u32, u32)|
                            #[trigger] self.heap_map.spec_contains(c) implies
                            self.heap_map.contents()[c].is_wave()
                            && self.heap_map.contents()[c].wf() && self.heap_map.contents()[
                            c].coord() == c by {
                            if c == coords {
                                assert(self.heap_map.contents()[c] == u);
                                assert(u.is_wave() == state.is_wave());
                            } else {
                                assert(before_mut.spec_contains(c));
                                assert(self.heap_map.contents()[c] == before_mut.contents()[c]);
                            }
                        }
                        assert forall|c: (u32, u32)|
                            #[trigger] self.heap_map.spec_contains(c)
                            <==> after_pop.spec_contains(c) by {
                            assert(self.heap_map.spec_contains(c)
                                == before_mut.spec_contains(c));
                        }
                    }
                }
                t = t + 1;
            }

            let out_cell = match TileCell::try_from_wave_grid_cell(current) {
                Some(cell) => cell,
                None => {
                    proof {
                        assert(false);
                    }
                    TileCell::new(TileID::new(TileID::EMPTY), 1, 1)
                },
            };
            let ghost pre_out = grid_collapsed@;
            grid_collapsed.push(out_cell);
            proof {
                assert forall|c: (u32, u32)| #[trigger] self.heap_map.spec_contains(c) implies 1
                    <= c.0 <= dim && 1 <= c.1 <= dim by {
                    assert(after_pop.spec_contains(c));
                    assert(pre_heap.spec_contains(c));
                }
                assert(out_cell.x == cx && out_cell.z == cy);
                assert((cx, cy) == popped_coord);
                assert(1 <= cx <= dim && 1 <= cy <= dim);
                // The popped coordinate was not yet in the output, and every
                // other coordinate keeps its disposition.
                assert forall|cxx: u32, cyy: u32| 1 <= cxx <= dim && 1 <= cyy <= dim implies (
                self.heap_map.spec_contains((cxx, cyy)) || spec_output_covers(
                    grid_collapsed@,
                    (cxx, cyy),
                )) by {
                    if (cxx, cyy) == popped_coord {
                        assert(grid_collapsed@[grid_collapsed@.len() - 1].x == cxx);
                    } else {
                        if pre_heap.spec_contains((cxx, cyy)) {
                            assert(self.heap_map.spec_contains((cxx, cyy)));
                        } else {
                            assert(spec_output_covers(pre_out, (cxx, cyy)));
                            let i = choose|i: int|
                                0 <= i < pre_out.len() && (#[trigger] pre_out[i]).x == cxx
                                    && pre_out[i].z == cyy;
                            assert(grid_collapsed@[i].x == cxx && grid_collapsed@[i].z == cyy);
                        }
                    }
                }
                assert forall|i: int|
                    0 <= i < grid_collapsed@.len() implies !self.heap_map.spec_contains(
                    ((#[trigger] grid_collapsed@[i]).x, grid_collapsed@[i].z),
                ) by {
                    if i < pre_out.len() {
                        assert(pre_out[i] == grid_collapsed@[i]);
                    }
                }
            }
        }
        proof {
            self.heap_map.lemma_empty_contents();
            assert forall|cx: u32, cy: u32| 1 <= cx <= dim && 1 <= cy <= dim implies
                spec_output_covers(grid_collapsed@, (cx, cy)) by {
                if self.heap_map.spec_contains((cx, cy)) {
                    assert(self.heap_map.contents().contains_key((cx, cy)));
                    assert(false);
                }
            }
        }
        grid_collapsed
    }
}

} // verus!
