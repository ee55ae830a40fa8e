use procgen_core::heap::Heapable;
use procgen_core::tile::{Orientation, TileID};
use procgen_core::wfc::{TileCell, Wave, WaveGrid, WaveGridCell};

#[test]
fn update_tile_cell_works() {
    let mut wave = Wave::new();

    wave.update(TileID::new(TileID::WALL + TileID::ROT_0), Orientation::Top, 3);
    wave.update(TileID::new(TileID::WALL + TileID::ROT_90), Orientation::Right, 3);
    wave.update(TileID::new(TileID::WALL + TileID::ROT_0), Orientation::Bottom, 3);

    let expected = TileID::new(TileID::WALL + TileID::ROT_0);
    if wave.possible_count() == 1 {
        assert_eq!(wave.id_at(0), expected);
    }
}

#[test]
fn update_only_shrinks_possibilities() {
    let mut wave = Wave::new();
    assert_eq!(wave.possible_count(), 9);
    let mut last = wave.possible_count();
    let neighbors = [
        (TileID::new(TileID::WALL + TileID::ROT_0), Orientation::Top),
        (TileID::new(TileID::CORNER + TileID::ROT_90), Orientation::Left),
        (TileID::new(TileID::EMPTY), Orientation::Bottom),
        (TileID::new(TileID::WALL + TileID::ROT_180), Orientation::Right),
    ];
    for (id, orient) in neighbors {
        wave.update(id, orient, 3);
        let now = wave.possible_count();
        assert!(now <= last);
        assert!(now >= 1);
        last = now;
    }
}

/// The termination-ordering invariant the solver leans on: a collapsed
/// cell always sorts after any still-uncollapsed cell.
#[test]
fn collapsed_cells_sort_last() {
    let wave_cell = WaveGridCell::new(1, 2);
    let mut collapsed = WaveGridCell::new(1, 1);
    collapsed.collapse_into(TileID::new(TileID::WALL + TileID::ROT_0));
    assert!(collapsed.collapsed());
    assert!(wave_cell.le(&collapsed));
    assert!(!collapsed.le(&wave_cell));
}

#[test]
fn collapse_covers_grid_exactly_once() {
    for n in 1u32..=6 {
        let mut grid = WaveGrid::new(n);
        let cells = grid.collapse_all_into_vec();
        assert_eq!(cells.len(), (n * n) as usize);
        let mut seen = vec![false; (n * n) as usize];
        for cell in &cells {
            assert!(1 <= cell.x && cell.x <= n);
            assert!(1 <= cell.z && cell.z <= n);
            let slot = ((cell.z - 1) * n + (cell.x - 1)) as usize;
            assert!(!seen[slot], "coordinate assigned twice");
            seen[slot] = true;
            assert!(procgen_core::tile::all_valid_ids().contains(&cell.id));
        }
        assert!(seen.iter().all(|&b| b));
    }
}

/// Whether the tile at `a` accepts the neighbor tile `b` lying toward
/// `orient`, under the solver's matching rule.
fn compatible(a: TileID, b: TileID, orient: Orientation) -> bool {
    let mine = a.connection_map().at(orient);
    let theirs = b.connection_map().at(orient.invert());
    mine.accepts_incoming_connection(&theirs)
}

#[test]
fn adjacency_mostly_compatible() {
    // The tries-allowed relaxation admits rare violations; collapsed grids
    // must still be compatible across the large majority of edges. Several
    // runs are pooled so one unlucky grid cannot tip the rate.
    let n = 8u32;
    let mut total = 0u32;
    let mut violations = 0u32;
    for _ in 0..5 {
        let mut grid = WaveGrid::new(n);
        let cells = grid.collapse_all_into_vec();
        let mut by_coord = vec![TileID::new(TileID::EMPTY); (n * n) as usize];
        for cell in &cells {
            by_coord[((cell.z - 1) * n + (cell.x - 1)) as usize] = cell.id;
        }
        for y in 1..=n {
            for x in 1..=n {
                let here = by_coord[((y - 1) * n + (x - 1)) as usize];
                if x < n {
                    let right = by_coord[((y - 1) * n + x) as usize];
                    total += 1;
                    if !compatible(here, right, Orientation::Right) {
                        violations += 1;
                    }
                }
                if y < n {
                    let top = by_coord[(y * n + (x - 1)) as usize];
                    total += 1;
                    if !compatible(here, top, Orientation::Top) {
                        violations += 1;
                    }
                }
            }
        }
    }
    assert!(total > 0);
    assert!(
        violations * 2 < total,
        "{violations} of {total} adjacent pairs incompatible"
    );
}

#[test]
fn try_from_wave_grid_cell_needs_collapse() {
    let wave_cell = WaveGridCell::new(3, 4);
    assert_eq!(TileCell::try_from_wave_grid_cell(wave_cell), None);

    let mut cell = WaveGridCell::new(3, 4);
    cell.collapse_into(TileID::new(TileID::CORNER + TileID::ROT_180));
    let tile = TileCell::try_from_wave_grid_cell(cell).unwrap();
    assert_eq!(tile.x, 3);
    assert_eq!(tile.z, 4);
    assert_eq!(tile.id, TileID::new(TileID::CORNER + TileID::ROT_180));
}

/// A forced collapse picks among the remaining candidates, skipping the
/// empty tile while any other candidate remains.
#[test]
fn force_collapse_avoids_empty_when_possible() {
    for _ in 0..20 {
        let mut cell = WaveGridCell::new(1, 1);
        cell.force_collapse();
        assert!(cell.collapsed());
        let id = cell.tile_id().unwrap();
        assert_ne!(id, TileID::new(TileID::EMPTY));
    }
}
