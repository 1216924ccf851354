use vnstudio::evaluator::{BasicEvaluator, CellGridEvaluator};
use vnstudio::game_of_life::{GameOfLifeEvaluator, GameOfLifeState};
use vnstudio::storage::{
    get_interior_state, interior_cell_index, set_interior_state, ChunkStorage, CHUNK_DEALLOCATION_INTERVAL, CHUNK_SIZE,
    EXTENDED_CHUNK_CELLS, EXTENDED_CHUNK_SIZE,
};

fn evaluate_once(storage: &mut ChunkStorage<GameOfLifeState>) {
    let mut grid_evaluator = BasicEvaluator;
    let rule_evaluator = GameOfLifeEvaluator;
    storage.prepare_next_chunks();
    let chunk_coords = storage.chunk_coords().to_vec();
    let (input, output) = storage.chunk_buffers();
    grid_evaluator.evaluate_all(&chunk_coords, input, output, &rule_evaluator);
    storage.commit_next_chunks();
    storage.rebuild_all_halos();
}

/// A storage with the single chunk (0, 0), whose interior holds Live cells
/// at the given positions, written through the next buffer so that no border
/// and no chunk around is set up for them.
fn chunk_with_interior_cells(cells: &[(usize, usize)]) -> ChunkStorage<GameOfLifeState> {
    let mut storage = ChunkStorage::<GameOfLifeState>::new();
    storage.set_state(10, 10, GameOfLifeState::Live);
    storage.set_state(10, 10, GameOfLifeState::Dead);
    storage.prepare_next_chunks();
    let next = storage.next_cells_flat_mut();
    assert_eq!(next.len(), EXTENDED_CHUNK_CELLS);
    for &(x, y) in cells {
        set_interior_state(next, x, y, GameOfLifeState::Live);
    }
    storage.commit_next_chunks();
    storage
}

#[test]
fn visits_non_default_cells_within_bounds() {
    let mut storage = ChunkStorage::<GameOfLifeState>::new();
    storage.set_state(-1, -1, GameOfLifeState::Live);
    storage.set_state(63, 63, GameOfLifeState::Live);
    storage.set_state(64, 64, GameOfLifeState::Live);

    let mut visited = storage.visit_non_default_cells((-1, -1), (63, 63));
    visited.sort_by_key(|(x, y, _)| (*x, *y));

    assert_eq!(
        visited,
        vec![(-1, -1, GameOfLifeState::Live), (63, 63, GameOfLifeState::Live),]
    );
}

#[test]
fn reports_allocated_chunk_count() {
    let mut storage = ChunkStorage::<GameOfLifeState>::new();
    assert_eq!(storage.chunks().len(), 0);

    storage.set_state(1, 1, GameOfLifeState::Live);

    assert_eq!(storage.chunks().len(), 1);
}

#[test]
fn deallocates_fully_default_chunks() {
    let mut storage = ChunkStorage::<GameOfLifeState>::new();
    storage.set_state(1, 1, GameOfLifeState::Live);
    storage.set_state(1, 1, GameOfLifeState::Dead);

    assert_eq!(storage.chunks().len(), 1);
    assert_eq!(storage.deallocate_default_chunks(), 1);
    assert_eq!(storage.chunks().len(), 0);
}

#[test]
fn deallocates_default_chunks_on_configured_interval() {
    let mut storage = ChunkStorage::<GameOfLifeState>::new();
    storage.set_state(1, 1, GameOfLifeState::Live);
    storage.set_state(1, 1, GameOfLifeState::Dead);

    for _ in 0..CHUNK_DEALLOCATION_INTERVAL - 1 {
        storage.on_evaluate_next();
    }
    assert_eq!(storage.chunks().len(), 1);

    storage.on_evaluate_next();
    assert_eq!(storage.chunks().len(), 0);
}

#[test]
fn rebuilds_chunk_indices_after_deallocation() {
    let mut storage = ChunkStorage::<GameOfLifeState>::new();
    storage.set_state(1, 1, GameOfLifeState::Live);
    storage.set_state(65, 1, GameOfLifeState::Live);
    storage.set_state(1, 1, GameOfLifeState::Dead);

    assert_eq!(storage.deallocate_default_chunks(), 1);
    assert_eq!(storage.chunks().len(), 1);
    assert_eq!(storage.get_state(65, 1), GameOfLifeState::Live);

    storage.set_state(65, 1, GameOfLifeState::Dead);
    assert_eq!(storage.get_state(65, 1), GameOfLifeState::Dead);
}

#[test]
fn flat_cells_follow_chunk_order_without_coordinate_gaps() {
    let mut storage = ChunkStorage::<GameOfLifeState>::new();
    storage.set_state(0, 0, GameOfLifeState::Live);
    storage.set_state(64, 0, GameOfLifeState::Live);

    let first_chunk = storage.find_chunk((0, 0)).unwrap();
    let second_chunk = storage.find_chunk((1, 0)).unwrap();
    let flat = storage.active_cells_flat();

    assert_eq!(
        flat[first_chunk * EXTENDED_CHUNK_CELLS + interior_cell_index(0, 0)],
        GameOfLifeState::Live
    );
    assert_eq!(
        flat[second_chunk * EXTENDED_CHUNK_CELLS + interior_cell_index(0, 0)],
        GameOfLifeState::Live
    );
    assert_eq!(flat.len(), storage.chunks().len() * EXTENDED_CHUNK_CELLS);
}

#[test]
fn next_flat_cells_mutate_output_chunk_cells() {
    let mut storage = ChunkStorage::<GameOfLifeState>::new();
    storage.set_state(0, 0, GameOfLifeState::Live);
    storage.prepare_next_chunks();

    storage.next_cells_flat_mut()[interior_cell_index(1, 1)] = GameOfLifeState::Live;
    let (_, output) = storage.chunk_buffers();
    assert_eq!(
        get_interior_state(&output[..EXTENDED_CHUNK_CELLS], 1, 1),
        GameOfLifeState::Live
    );
}

#[test]
fn next_buffer_commit_preserves_game_of_life_evolution() {
    let mut storage = ChunkStorage::<GameOfLifeState>::new();
    storage.set_state(10, 9, GameOfLifeState::Live);
    storage.set_state(10, 10, GameOfLifeState::Live);
    storage.set_state(10, 11, GameOfLifeState::Live);

    evaluate_once(&mut storage);

    assert_eq!(storage.get_state(9, 10), GameOfLifeState::Live);
    assert_eq!(storage.get_state(10, 10), GameOfLifeState::Live);
    assert_eq!(storage.get_state(11, 10), GameOfLifeState::Live);
    assert_eq!(storage.get_state(10, 9), GameOfLifeState::Dead);
    assert_eq!(storage.get_state(10, 11), GameOfLifeState::Dead);
}

#[test]
fn halo_rebuild_updates_edges_and_corners() {
    let last = CHUNK_SIZE - 1;
    let mut storage = chunk_with_interior_cells(&[
        (2, 0),
        (3, last),
        (0, 4),
        (last, 5),
        (0, 0),
        (last, 0),
        (0, last),
        (last, last),
    ]);
    assert_eq!(storage.chunk_coords(), &[(0, 0)]);

    storage.rebuild_all_halos();

    let chunks = storage.chunks();
    let top = storage.find_chunk((0, -1)).unwrap();
    let bottom = storage.find_chunk((0, 1)).unwrap();
    let left = storage.find_chunk((-1, 0)).unwrap();
    let right = storage.find_chunk((1, 0)).unwrap();
    let top_left = storage.find_chunk((-1, -1)).unwrap();
    let top_right = storage.find_chunk((1, -1)).unwrap();
    let bottom_left = storage.find_chunk((-1, 1)).unwrap();
    let bottom_right = storage.find_chunk((1, 1)).unwrap();

    assert_eq!(
        chunks[top][EXTENDED_CHUNK_SIZE * (EXTENDED_CHUNK_SIZE - 1) + 2 + 1],
        GameOfLifeState::Live
    );
    assert_eq!(chunks[bottom][3 + 1], GameOfLifeState::Live);
    assert_eq!(
        chunks[left][EXTENDED_CHUNK_SIZE * (4 + 1) + EXTENDED_CHUNK_SIZE - 1],
        GameOfLifeState::Live
    );
    assert_eq!(
        chunks[right][EXTENDED_CHUNK_SIZE * (5 + 1)],
        GameOfLifeState::Live
    );
    assert_eq!(
        chunks[top_left][EXTENDED_CHUNK_CELLS - 1],
        GameOfLifeState::Live
    );
    assert_eq!(
        chunks[top_right][EXTENDED_CHUNK_SIZE * (EXTENDED_CHUNK_SIZE - 1)],
        GameOfLifeState::Live
    );
    assert_eq!(
        chunks[bottom_left][EXTENDED_CHUNK_SIZE - 1],
        GameOfLifeState::Live
    );
    assert_eq!(chunks[bottom_right][0], GameOfLifeState::Live);
}

#[test]
fn edge_and_corner_interiors_allocate_required_neighbors() {
    let mut storage = chunk_with_interior_cells(&[(0, 0)]);
    assert_eq!(storage.chunk_coords(), &[(0, 0)]);

    storage.rebuild_all_halos();

    assert!(storage.find_chunk((0, 0)).is_some());
    assert!(storage.find_chunk((0, -1)).is_some());
    assert!(storage.find_chunk((-1, 0)).is_some());
    assert!(storage.find_chunk((-1, -1)).is_some());
}

#[test]
fn deallocates_halo_only_chunks() {
    let mut storage = ChunkStorage::<GameOfLifeState>::new();
    storage.set_state(0, 0, GameOfLifeState::Live);

    assert_eq!(storage.chunks().len(), 4);
    assert_eq!(storage.deallocate_default_chunks(), 3);
    assert_eq!(storage.chunks().len(), 1);
    assert_eq!(storage.get_state(0, 0), GameOfLifeState::Live);
}

#[test]
fn chunk_index_map_remains_valid_after_halo_only_deallocation() {
    let mut storage = ChunkStorage::<GameOfLifeState>::new();
    storage.set_state(0, 0, GameOfLifeState::Live);
    storage.set_state(128, 0, GameOfLifeState::Live);

    storage.deallocate_default_chunks();

    assert_eq!(storage.get_state(0, 0), GameOfLifeState::Live);
    assert_eq!(storage.get_state(128, 0), GameOfLifeState::Live);

    storage.set_state(128, 0, GameOfLifeState::Dead);
    assert_eq!(storage.get_state(128, 0), GameOfLifeState::Dead);
}

#[test]
fn reading_a_written_cell_gives_its_state_and_leaves_others() {
    let mut storage = ChunkStorage::<GameOfLifeState>::new();
    for (x, y) in [(isize::MIN, isize::MIN), (isize::MAX, isize::MAX), (-64, 63), (0, -1)] {
        storage.set_state(x, y, GameOfLifeState::Live);
        assert_eq!(storage.get_state(x, y), GameOfLifeState::Live);
    }
    assert_eq!(storage.get_state(isize::MIN + 1, isize::MIN), GameOfLifeState::Dead);
    assert_eq!(storage.get_state(-65, 63), GameOfLifeState::Dead);
    storage.set_state(-64, 63, GameOfLifeState::Dead);
    assert_eq!(storage.get_state(-64, 63), GameOfLifeState::Dead);
    assert_eq!(storage.get_state(0, -1), GameOfLifeState::Live);
}

#[test]
fn deallocation_keeps_every_cell() {
    let mut storage = ChunkStorage::<GameOfLifeState>::new();
    storage.set_state(5, 5, GameOfLifeState::Live);
    storage.set_state(200, -300, GameOfLifeState::Live);
    storage.set_state(5, 5, GameOfLifeState::Dead);
    storage.deallocate_default_chunks();
    assert_eq!(storage.get_state(5, 5), GameOfLifeState::Dead);
    assert_eq!(storage.get_state(200, -300), GameOfLifeState::Live);
    assert_eq!(storage.deallocate_default_chunks(), 0);
}

#[test]
fn interior_indices_skip_the_border() {
    assert_eq!(interior_cell_index(0, 0), EXTENDED_CHUNK_SIZE + 1);
    assert_eq!(
        interior_cell_index(CHUNK_SIZE - 1, CHUNK_SIZE - 1),
        EXTENDED_CHUNK_SIZE * CHUNK_SIZE + CHUNK_SIZE
    );
}

#[test]
fn a_second_deallocation_frees_nothing() {
    let mut storage = ChunkStorage::<GameOfLifeState>::new();
    storage.set_state(1, 1, GameOfLifeState::Live);
    storage.set_state(70, 1, GameOfLifeState::Live);
    storage.set_state(70, 1, GameOfLifeState::Dead);
    assert_eq!(storage.chunks().len(), 2);
    assert_eq!(storage.deallocate_default_chunks(), 1);
    assert_eq!(storage.deallocate_default_chunks(), 0);
    assert_eq!(storage.chunk_coords(), &[(0, 0)]);
}

#[test]
fn periodic_deallocation_keeps_the_other_chunks_in_order() {
    let mut storage = ChunkStorage::<GameOfLifeState>::new();
    storage.set_state(1, 1, GameOfLifeState::Live);
    storage.set_state(130, 1, GameOfLifeState::Live);
    storage.set_state(260, 1, GameOfLifeState::Live);
    storage.set_state(130, 1, GameOfLifeState::Dead);
    assert_eq!(storage.chunk_coords(), &[(0, 0), (2, 0), (4, 0)]);
    for _ in 0..CHUNK_DEALLOCATION_INTERVAL - 1 {
        assert!(!storage.on_evaluate_next());
    }
    assert!(storage.on_evaluate_next());
    assert_eq!(storage.chunk_coords(), &[(0, 0), (4, 0)]);
    assert_eq!(storage.get_state(1, 1), GameOfLifeState::Live);
    assert_eq!(storage.get_state(260, 1), GameOfLifeState::Live);
}

#[test]
fn writing_the_default_state_into_a_missing_chunk_allocates_nothing() {
    let mut storage = ChunkStorage::<GameOfLifeState>::new();
    storage.set_state(0, 0, GameOfLifeState::Dead);
    assert_eq!(storage.chunks().len(), 0);
    storage.set_state(0, 0, GameOfLifeState::Live);
    assert_eq!(storage.chunk_coords(), &[(0, 0), (0, -1), (-1, -1), (-1, 0)]);
}

#[test]
fn halo_rebuild_adds_only_chunks_next_to_border_cells() {
    let mut storage = ChunkStorage::<GameOfLifeState>::new();
    storage.set_state(10, 10, GameOfLifeState::Live);
    storage.set_state(0, 20, GameOfLifeState::Live);
    assert_eq!(storage.chunk_coords(), &[(0, 0), (-1, 0)]);
    assert_eq!(storage.deallocate_default_chunks(), 1);
    assert_eq!(storage.chunk_coords(), &[(0, 0)]);

    storage.rebuild_all_halos();

    assert_eq!(storage.chunk_coords(), &[(0, 0), (-1, 0)]);
}

#[test]
fn the_last_generation_of_each_period_frees_chunks() {
    let mut storage = ChunkStorage::<GameOfLifeState>::new();
    for k in 0..3 * CHUNK_DEALLOCATION_INTERVAL {
        assert_eq!(
            storage.should_deallocate_next(),
            k % CHUNK_DEALLOCATION_INTERVAL == CHUNK_DEALLOCATION_INTERVAL - 1
        );
        storage.on_evaluate_next();
    }
}
