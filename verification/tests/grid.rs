use game_of_life::{Cell, Universe};

/// Row-major linear index in a grid of width `w`.
fn idx(w: u32, row: u32, col: u32) -> usize {
    (row * w + col) as usize
}

/// A `w`-by-`h` grid with every cell dead.
fn empty_grid(w: u32, h: u32) -> Universe {
    let mut u = Universe::new();
    u.set_width(w);
    u.set_height(h);
    u
}

#[test]
fn new_has_default_dimensions_and_seed() {
    let u = Universe::new();
    assert_eq!(u.width(), 64);
    assert_eq!(u.height(), 64);
    let cells = u.get_cells();
    assert_eq!(cells.len(), 64 * 64);
    for i in 0..cells.len() {
        let expected = if i % 2 == 0 || i % 7 == 0 {
            Cell::Alive
        } else {
            Cell::Dead
        };
        assert_eq!(cells[i], expected);
    }
}

#[test]
fn buffer_length_tracks_dimensions() {
    let mut u = Universe::new();
    assert_eq!(u.get_cells().len(), (u.width() * u.height()) as usize);
    u.set_width(10);
    assert_eq!(u.get_cells().len(), (u.width() * u.height()) as usize);
    u.set_height(3);
    assert_eq!(u.get_cells().len(), (u.width() * u.height()) as usize);
    u.tick();
    assert_eq!(u.get_cells().len(), (u.width() * u.height()) as usize);
}

#[test]
fn set_width_resets_all_cells_to_dead() {
    let mut u = Universe::new();
    assert!(u.get_cells().iter().any(|&c| c == Cell::Alive));
    u.set_width(16);
    assert_eq!(u.width(), 16);
    assert_eq!(u.height(), 64);
    assert_eq!(u.get_cells().len(), 16 * 64);
    assert!(u.get_cells().iter().all(|&c| c == Cell::Dead));
}

#[test]
fn set_height_resets_all_cells_to_dead() {
    let mut u = Universe::new();
    u.set_cells(&[(0, 0), (5, 5)]);
    u.set_height(7);
    assert_eq!(u.width(), 64);
    assert_eq!(u.height(), 7);
    assert_eq!(u.get_cells().len(), 64 * 7);
    assert!(u.get_cells().iter().all(|&c| c == Cell::Dead));
}

#[test]
fn set_cells_marks_given_cells_and_leaves_others() {
    let mut u = empty_grid(4, 4);
    u.set_cells(&[(1, 1)]);
    u.set_cells(&[(2, 3)]);
    let cells = u.get_cells();
    for row in 0..4 {
        for col in 0..4 {
            let expected = if (row, col) == (1, 1) || (row, col) == (2, 3) {
                Cell::Alive
            } else {
                Cell::Dead
            };
            assert_eq!(cells[idx(4, row, col)], expected);
        }
    }
}

#[test]
fn cells_exposes_the_buffer() {
    let mut u = empty_grid(3, 3);
    u.set_cells(&[(0, 2)]);
    let buffer = u.cells();
    assert_eq!(buffer.len(), 9);
    assert_eq!(buffer[idx(3, 0, 2)], Cell::Alive);
    assert_eq!(buffer[idx(3, 0, 0)], Cell::Dead);
}

#[test]
fn neighbor_count_is_toroidal_at_the_origin() {
    // The far corner is a diagonal neighbor of (0, 0) across both edges.
    let mut u = empty_grid(4, 4);
    u.set_cells(&[(3, 3)]);
    assert_eq!(u.live_neighbor_count(0, 0), 1);
    // A cell away from the wrapped neighborhood does not see it.
    assert_eq!(u.live_neighbor_count(1, 1), 0);
}

#[test]
fn neighbor_count_in_the_interior() {
    let mut u = empty_grid(5, 5);
    u.set_cells(&[(1, 1), (1, 2), (1, 3), (2, 1), (3, 3)]);
    // (2, 2) sees all five live cells; none of them is (2, 2) itself.
    assert_eq!(u.live_neighbor_count(2, 2), 5);
    // (1, 2) sees (1, 1), (1, 3) and (2, 1); its own state is not counted.
    assert_eq!(u.live_neighbor_count(1, 2), 3);
    // (4, 4) reaches (3, 3) directly, without wrapping.
    assert_eq!(u.live_neighbor_count(4, 4), 1);
    // (4, 1) reaches none of the live cells, wrapped or not.
    assert_eq!(u.live_neighbor_count(4, 1), 0);
}

#[test]
fn tick_is_deterministic() {
    let mut a = Universe::new();
    let mut b = Universe::new();
    assert_eq!(a.get_cells(), b.get_cells());
    a.tick();
    b.tick();
    assert_eq!(a.get_cells(), b.get_cells());
    a.tick();
    b.tick();
    assert_eq!(a.get_cells(), b.get_cells());
}

#[test]
fn dead_grid_stays_dead() {
    let mut u = empty_grid(8, 8);
    for _ in 0..5 {
        u.tick();
        assert_eq!(u.get_cells().len(), 64);
        assert!(u.get_cells().iter().all(|&c| c == Cell::Dead));
    }
}

#[test]
fn block_is_a_still_life() {
    let mut u = empty_grid(6, 6);
    u.set_cells(&[(2, 2), (2, 3), (3, 2), (3, 3)]);
    let before = u.get_cells().to_vec();
    u.tick();
    assert_eq!(u.get_cells(), before.as_slice());
}

#[test]
fn blinker_oscillates() {
    let mut u = empty_grid(5, 5);
    u.set_cells(&[(2, 1), (2, 2), (2, 3)]);
    let horizontal = u.get_cells().to_vec();

    u.tick();
    let cells = u.get_cells();
    for row in 0..5 {
        for col in 0..5 {
            let expected = if col == 2 && (1..=3).contains(&row) {
                Cell::Alive
            } else {
                Cell::Dead
            };
            assert_eq!(cells[idx(5, row, col)], expected);
        }
    }

    u.tick();
    assert_eq!(u.get_cells(), horizontal.as_slice());
}

#[test]
fn underpopulation_and_overpopulation() {
    // A lone live cell dies; so does one of a pair.
    let mut u = empty_grid(6, 6);
    u.set_cells(&[(2, 2), (2, 3)]);
    u.tick();
    assert!(u.get_cells().iter().all(|&c| c == Cell::Dead));

    // The center of a 3x3 square of live cells has 8 neighbors and dies.
    let mut v = empty_grid(7, 7);
    v.set_cells(&[
        (2, 2),
        (2, 3),
        (2, 4),
        (3, 2),
        (3, 3),
        (3, 4),
        (4, 2),
        (4, 3),
        (4, 4),
    ]);
    assert_eq!(v.live_neighbor_count(3, 3), 8);
    v.tick();
    assert_eq!(v.get_cells()[idx(7, 3, 3)], Cell::Dead);
}

#[test]
fn render_shape_matches_dimensions() {
    let mut u = Universe::new();
    u.set_width(4);
    u.set_height(3);
    u.set_cells(&[(0, 0), (1, 2)]);
    let text = u.render();
    let lines: Vec<&str> = text.lines().collect();
    assert_eq!(lines.len(), 3);
    for line in &lines {
        assert_eq!(line.chars().count(), 4);
    }
}

#[test]
fn render_draws_one_glyph_per_cell() {
    let mut u = Universe::new();
    u.set_width(4);
    u.set_height(3);
    u.set_cells(&[(0, 0), (1, 2)]);
    assert_eq!(u.render(), "◼◻◻◻\n◻◻◼◻\n◻◻◻◻\n");
}

#[test]
fn render_of_default_grid() {
    let u = Universe::new();
    let text = u.render();
    let lines: Vec<&str> = text.lines().collect();
    assert_eq!(lines.len(), 64);
    for line in &lines {
        assert_eq!(line.chars().count(), 64);
    }
}
