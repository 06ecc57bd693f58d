use tile_collapse::candidates::PossibleConnections;
use tile_collapse::canvas::{
    check_tile_set, do_tile_arrs_overlap, most_confident, tile_confidence, ImageCanvasComponent,
    TileSetError,
};
use tile_collapse::tile::{Direction, TileConnection, TileData};

fn tile(index: usize, n: &[TileConnection], s: &[TileConnection], e: &[TileConnection], w: &[TileConnection]) -> TileData {
    TileData {
        image_index: index,
        north_valid_tiles: n.to_vec(),
        south_valid_tiles: s.to_vec(),
        east_valid_tiles: e.to_vec(),
        west_valid_tiles: w.to_vec(),
    }
}

fn neighbours(pos: (usize, usize)) -> Vec<((usize, usize), Direction)> {
    let mut v = Vec::new();
    if pos.0 > 0 {
        v.push(((pos.0 - 1, pos.1), Direction::South));
    }
    if pos.0 < 9 {
        v.push(((pos.0 + 1, pos.1), Direction::North));
    }
    if pos.1 > 0 {
        v.push(((pos.0, pos.1 - 1), Direction::East));
    }
    if pos.1 < 9 {
        v.push(((pos.0, pos.1 + 1), Direction::West));
    }
    v
}

/// A tile that allows itself on every side.
fn self_linked() -> Vec<TileData> {
    vec![tile(
        0,
        &[(0, Direction::North)],
        &[(0, Direction::South)],
        &[(0, Direction::East)],
        &[(0, Direction::West)],
    )]
}

#[test]
fn single_blank_tile_first_step() {
    let tiles = vec![TileData::new(0)];
    let mut canvas = ImageCanvasComponent::default();
    let r = canvas.update(tiles.clone()).unwrap();
    let pos = r.expect("the first step resolves a cell");
    assert_eq!(canvas.placed_at(pos).as_ref().unwrap().image_index, 0);
    assert_eq!(canvas.resolved_count(), 1);
    for (nb, facing) in neighbours(pos) {
        assert_eq!(canvas.cell_at(nb).side(facing), &vec![(0, facing)]);
        assert_eq!(canvas.entropy_at(nb), 1);
    }
}

#[test]
fn single_blank_tile_step_at_corner() {
    let mut canvas = ImageCanvasComponent::default();
    canvas.sync_tile_set(vec![TileData::new(0)]).unwrap();
    assert_eq!(canvas.step_from(0, 0), Some((0, 0)));
    assert_eq!(canvas.entropy_at((1, 0)), 1);
    assert_eq!(canvas.entropy_at((0, 1)), 1);
    assert_eq!(canvas.cell_at((1, 0)).north_connections, vec![(0, Direction::North)]);
    assert_eq!(canvas.cell_at((0, 1)).west_connections, vec![(0, Direction::West)]);
    assert_eq!(canvas.entropy_at((1, 1)), 0);
}

#[test]
fn tile_below_resolves_by_north_overlap() {
    let t0 = tile(0, &[], &[(1, Direction::South)], &[], &[]);
    let t1 = tile(1, &[(0, Direction::North)], &[], &[], &[]);
    let mut canvas = ImageCanvasComponent::default();
    assert_eq!(canvas.sync_tile_set(vec![t0.clone(), t1.clone()]), Ok(true));
    canvas.commit_tile((4, 4), t0.clone());
    assert_eq!(canvas.cell_at((5, 4)).north_connections, vec![(0, Direction::North)]);
    assert_eq!(canvas.get_possible_tiles((5, 4)), vec![t1.clone()]);
    let cell = canvas.cell_at((5, 4)).clone();
    assert_eq!(tile_confidence(&t1, &cell), 1);
    let chosen = canvas.collapse_tile(&cell, (5, 4));
    assert_eq!(chosen, t1);
}

/// Every cell resolved but `open`, committed with a tile that allows itself
/// on every side.
fn all_but(open: (usize, usize)) -> ImageCanvasComponent {
    let tiles = self_linked();
    let mut canvas = ImageCanvasComponent::default();
    canvas.sync_tile_set(tiles.clone()).unwrap();
    for r in 0..10 {
        for c in 0..10 {
            if (r, c) != open {
                canvas.commit_tile((r, c), tiles[0].clone());
            }
        }
    }
    canvas
}

#[test]
fn last_unresolved_cell_found_from_resolved_baseline() {
    let canvas = all_but((0, 0));
    assert_eq!(canvas.entropy_at((0, 0)), 2);
    assert_eq!(canvas.entropy_at((5, 5)), 4);
    assert_eq!(canvas.lowest_entropy_from(5, 5), Some((0, 0)));
}

#[test]
fn selection_stalls_when_baseline_resolved_and_not_beaten() {
    // The baseline is resolved and has lower entropy than the one
    // unresolved cell: the selection reports nothing to resolve.
    let canvas = all_but((5, 5));
    assert_eq!(canvas.lowest_entropy_from(0, 0), None);
    assert_eq!(canvas.lowest_entropy_from(5, 5), Some((5, 5)));
    assert_eq!(canvas.lowest_entropy_from(4, 5), None);
}

#[test]
fn selection_prefers_first_lowest_cell() {
    let mut canvas = ImageCanvasComponent::default();
    canvas.sync_tile_set(self_linked()).unwrap();
    assert_eq!(canvas.lowest_entropy_from(5, 5), Some((0, 0)));
    assert_eq!(canvas.lowest_entropy_from(0, 9), Some((0, 9)));
    assert_eq!(canvas.lowest_entropy_from(3, 0), Some((0, 0)));
}

#[test]
fn completed_grid_steps_are_no_ops() {
    let tiles = self_linked();
    let mut canvas = all_but((9, 9));
    canvas.commit_tile((9, 9), tiles[0].clone());
    assert!(canvas.is_complete());
    assert_eq!(canvas.resolved_count(), 100);
    let before: Vec<PossibleConnections> =
        (0..100).map(|i| canvas.cell_at((i / 10, i % 10)).clone()).collect();
    for _ in 0..5 {
        assert_eq!(canvas.update(tiles.clone()), Ok(None));
    }
    for i in 0..100 {
        assert_eq!(canvas.cell_at((i / 10, i % 10)).clone().north_connections, before[i].north_connections);
        assert_eq!(canvas.cell_at((i / 10, i % 10)).clone().west_connections, before[i].west_connections);
    }
    assert_eq!(canvas.resolved_count(), 100);
}

#[test]
fn each_step_resolves_at_most_one_cell() {
    let tiles = self_linked();
    let mut canvas = ImageCanvasComponent::default();
    let mut count = 0;
    for _ in 0..300 {
        let r = canvas.update(tiles.clone()).unwrap();
        let now = canvas.resolved_count();
        assert!(now == count || now == count + 1);
        assert_eq!(r.is_some(), now == count + 1);
        count = now;
    }
}

#[test]
fn same_tile_set_leaves_grid_untouched() {
    let tiles = self_linked();
    let mut canvas = ImageCanvasComponent::default();
    assert_eq!(canvas.sync_tile_set(tiles.clone()), Ok(true));
    canvas.commit_tile((3, 3), tiles[0].clone());
    assert_eq!(canvas.sync_tile_set(tiles.clone()), Ok(false));
    assert_eq!(canvas.resolved_count(), 1);
    assert_eq!(canvas.entropy_at((2, 3)), 4);
}

#[test]
fn changed_tile_set_rebuilds_grid() {
    let tiles = self_linked();
    let mut canvas = ImageCanvasComponent::default();
    canvas.sync_tile_set(tiles.clone()).unwrap();
    canvas.commit_tile((3, 3), tiles[0].clone());
    let mut changed = tiles.clone();
    changed[0].north_valid_tiles.push((0, Direction::South));
    assert_eq!(canvas.sync_tile_set(changed.clone()), Ok(true));
    assert_eq!(canvas.resolved_count(), 0);
    assert_eq!(canvas.entropy_at((5, 5)), 5);
    assert_eq!(canvas.tile_set(), &changed);
}

#[test]
fn edge_cells_have_fewer_candidates() {
    let mut canvas = ImageCanvasComponent::default();
    canvas.sync_tile_set(self_linked()).unwrap();
    assert_eq!(canvas.entropy_at((4, 4)), 4);
    assert_eq!(canvas.entropy_at((0, 4)), 3);
    assert_eq!(canvas.entropy_at((9, 4)), 3);
    assert_eq!(canvas.entropy_at((4, 0)), 3);
    assert_eq!(canvas.entropy_at((0, 0)), 2);
    assert_eq!(canvas.entropy_at((9, 9)), 2);
    assert!(canvas.cell_at((0, 4)).north_connections.is_empty());
}

#[test]
fn unions_drop_repeats_in_first_seen_order() {
    let tiles = vec![
        tile(0, &[(1, Direction::North), (0, Direction::North)], &[], &[], &[]),
        tile(1, &[(0, Direction::North), (1, Direction::South)], &[], &[], &[]),
    ];
    let mut canvas = ImageCanvasComponent::default();
    canvas.sync_tile_set(tiles).unwrap();
    assert_eq!(
        canvas.cell_at((1, 1)).north_connections,
        vec![(1, Direction::North), (0, Direction::North), (1, Direction::South)]
    );
    assert_eq!(canvas.entropy_at((1, 1)), 3);
}

#[test]
fn remove_dupes_keeps_first_occurrences() {
    let v = vec![
        (2, Direction::East),
        (1, Direction::North),
        (2, Direction::East),
        (2, Direction::West),
        (1, Direction::North),
    ];
    assert_eq!(
        ImageCanvasComponent::remove_dupes(&v),
        vec![(2, Direction::East), (1, Direction::North), (2, Direction::West)]
    );
    assert_eq!(ImageCanvasComponent::remove_dupes(&vec![]), vec![]);
}

#[test]
fn out_of_range_tile_set_is_refused() {
    let mut canvas = ImageCanvasComponent::default();
    let bad = vec![TileData::new(0), tile(1, &[], &[], &[(5, Direction::East)], &[])];
    assert_eq!(canvas.sync_tile_set(bad.clone()), Err(TileSetError::IndexOutOfRange { tile: 1 }));
    assert_eq!(check_tile_set(&bad), Err(TileSetError::IndexOutOfRange { tile: 1 }));
    assert_eq!(canvas.update(vec![TileData::new(3)]), Err(TileSetError::IndexOutOfRange { tile: 0 }));
    assert!(canvas.tile_set().is_empty());
    assert_eq!(check_tile_set(&self_linked()), Ok(()));
}

#[test]
fn empty_tile_set_steps_nothing() {
    let mut canvas = ImageCanvasComponent::default();
    assert_eq!(canvas.update(vec![]), Ok(None));
    assert_eq!(canvas.step_from(3, 3), None);
    assert_eq!(canvas.resolved_count(), 0);
}

#[test]
fn confidence_counts_matching_sides() {
    let t = tile(
        0,
        &[(1, Direction::North)],
        &[(2, Direction::South)],
        &[(3, Direction::East)],
        &[(4, Direction::West)],
    );
    let cell = PossibleConnections {
        north_connections: vec![(1, Direction::North)],
        south_connections: vec![(9, Direction::South), (2, Direction::South)],
        east_connections: vec![(3, Direction::West)],
        west_connections: vec![],
    };
    assert_eq!(tile_confidence(&t, &cell), 2);
    assert!(do_tile_arrs_overlap(&t.south_valid_tiles, &cell.south_connections));
    assert!(!do_tile_arrs_overlap(&t.east_valid_tiles, &cell.east_connections));
}

#[test]
fn first_highest_confidence_wins() {
    let cell = PossibleConnections {
        north_connections: vec![(0, Direction::North)],
        south_connections: vec![(0, Direction::South)],
        east_connections: vec![],
        west_connections: vec![],
    };
    let weak = tile(0, &[(0, Direction::North)], &[], &[], &[]);
    let strong = tile(1, &[(0, Direction::North)], &[(0, Direction::South)], &[], &[]);
    let also_strong = tile(2, &[(0, Direction::North)], &[(0, Direction::South)], &[], &[]);
    assert_eq!(most_confident(&vec![weak.clone(), strong.clone(), also_strong.clone()], &cell), 1);
    assert_eq!(most_confident(&vec![weak.clone()], &cell), 0);
}

#[test]
fn random_tile_of_blank_cell_is_first_tile() {
    let tiles = vec![TileData::new(0), TileData::new(1)];
    let cell = PossibleConnections::default();
    assert!(cell.is_blank());
    assert_eq!(cell.random_tile(&tiles).image_index, 0);
}

#[test]
fn random_tile_draws_from_the_only_entry() {
    let tiles = vec![TileData::new(0), TileData::new(1), TileData::new(2)];
    let cell = PossibleConnections {
        north_connections: vec![],
        south_connections: vec![],
        east_connections: vec![],
        west_connections: vec![(2, Direction::West)],
    };
    for _ in 0..20 {
        assert_eq!(cell.random_tile(&tiles).image_index, 2);
    }
    let two = PossibleConnections {
        north_connections: vec![(1, Direction::North)],
        south_connections: vec![],
        east_connections: vec![(2, Direction::East), (2, Direction::West)],
        west_connections: vec![],
    };
    for _ in 0..20 {
        let i = two.random_tile(&tiles).image_index;
        assert!(i == 1 || i == 2);
    }
}

#[test]
fn rolls_pick_side_then_entry() {
    let cell = PossibleConnections {
        north_connections: vec![],
        south_connections: vec![(4, Direction::South), (5, Direction::South)],
        east_connections: vec![],
        west_connections: vec![(7, Direction::West)],
    };
    assert_eq!(cell.filled_sides(), vec![Direction::South, Direction::West]);
    assert_eq!(cell.tile_from_rolls(0, 1), 5);
    assert_eq!(cell.tile_from_rolls(1, 0), 7);
    assert_eq!(cell.total_len(), 3);
    assert_eq!(cell.entropy(), 3);
}

#[test]
fn directions_from_numbers_and_names() {
    assert_eq!(Direction::from(0), Direction::North);
    assert_eq!(Direction::from(1), Direction::South);
    assert_eq!(Direction::from(2), Direction::East);
    assert_eq!(Direction::from(3), Direction::West);
    assert_eq!(Direction::from(7), Direction::North);
    assert_eq!(Direction::West.name(), "West");
    assert_eq!(Direction::North.name(), "North");
    assert_eq!(Direction::East.opposite(), Direction::West);
    assert_eq!(Direction::North.opposite(), Direction::South);
}

#[test]
fn tile_connections_are_counted_and_edited() {
    let mut t = TileData::new(3);
    assert_eq!(t.total_connections(), 0);
    assert!(t.add_connection(Direction::South, (1, Direction::South)));
    assert!(!t.add_connection(Direction::South, (1, Direction::South)));
    assert!(t.add_connection(Direction::East, (2, Direction::North)));
    assert_eq!(t.total_connections(), 2);
    t.remove_connection(Direction::South, 0);
    assert_eq!(t.total_connections(), 1);
    assert_eq!(t.east_valid_tiles, vec![(2, Direction::North)]);
    assert_eq!(t.duplicate(), t);
    assert!(t.same_as(&t.clone()));
    assert!(!t.same_as(&TileData::new(3)));
}

#[test]
fn rebuild_clears_resolved_cells_and_records_tiles() {
    let tiles = self_linked();
    let mut canvas = ImageCanvasComponent::default();
    canvas.sync_tile_set(tiles.clone()).unwrap();
    canvas.commit_tile((2, 2), tiles[0].clone());
    canvas.commit_tile((7, 1), tiles[0].clone());
    assert_eq!(canvas.resolved_count(), 2);
    let other = vec![TileData::new(0), TileData::new(1)];
    assert_eq!(canvas.fill_representation_array(other.clone()), Ok(()));
    assert_eq!(canvas.resolved_count(), 0);
    assert_eq!(canvas.tile_set(), &other);
    assert_eq!(canvas.entropy_at((4, 4)), 0);
    assert!(canvas.placed_at((2, 2)).is_none());
}

#[test]
fn builder_refuses_out_of_range_tile_set() {
    let tiles = self_linked();
    let mut canvas = ImageCanvasComponent::default();
    canvas.fill_representation_array(tiles.clone()).unwrap();
    canvas.commit_tile((0, 0), tiles[0].clone());
    let bad = vec![tile(0, &[(1, Direction::North)], &[], &[], &[])];
    assert_eq!(
        canvas.fill_representation_array(bad),
        Err(TileSetError::IndexOutOfRange { tile: 0 })
    );
    assert_eq!(canvas.resolved_count(), 1);
    assert_eq!(canvas.tile_set(), &tiles);
    assert_eq!(canvas.entropy_at((4, 4)), 4);
}

#[test]
fn update_with_new_tile_set_rebuilds_then_steps_once() {
    let tiles = self_linked();
    let mut canvas = ImageCanvasComponent::default();
    canvas.sync_tile_set(tiles.clone()).unwrap();
    for r in 0..10 {
        canvas.commit_tile((r, r), tiles[0].clone());
    }
    let fresh = vec![TileData::new(0)];
    let pos = canvas.update(fresh.clone()).unwrap().expect("a fresh grid always resolves a cell");
    assert_eq!(canvas.resolved_count(), 1);
    assert_eq!(canvas.placed_at(pos).as_ref().unwrap(), &fresh[0]);
    assert_eq!(canvas.tile_set(), &fresh);
}
