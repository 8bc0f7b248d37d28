use fluid_sim::handle::Handle;
use fluid_sim::position_hashing::PositionHashMap;
use fluid_sim::vector::Vector2;

const CELL_SIZE: usize = 10;
const MIN_X: i64 = -200;
const MAX_X: i64 = 200;
const MIN_Y: i64 = -200;
const MAX_Y: i64 = 200;

fn handle(index: u32) -> Handle {
    Handle { index, generation: 0 }
}

fn grid() -> PositionHashMap {
    PositionHashMap::new(CELL_SIZE, MIN_X, MAX_X, MIN_Y, MAX_Y)
}

#[test]
fn particle_is_only_in_the_cell_of_its_center() {
    let mut map = PositionHashMap::new(CELL_SIZE, MIN_X, MAX_X, MIN_Y, MAX_Y);
    let center = Vector2::new(5, 5);
    let radius = 4;
    map.insert(center, radius, handle(0));
    assert_eq!(map.cells_idxs_of(center, radius).len(), 1);
    assert_eq!(map.cells_idxs_of(center, radius)[0], (20, 20));
}

#[test]
fn particle_intersects_left_and_upper_and_left_upper_cells() {
    let mut map = PositionHashMap::new(CELL_SIZE, MIN_X, MAX_X, MIN_Y, MAX_Y);
    let center = Vector2::new(2, 9);
    let radius = 4;
    map.insert(center, radius, handle(0));
    assert_eq!(map.cells_idxs_of(center, radius).len(), 4);
    assert!(map.cells_idxs_of(center, radius).contains(&(20, 20)));
    assert!(map.cells_idxs_of(center, radius).contains(&(20, 21)));
    assert!(map.cells_idxs_of(center, radius).contains(&(19, 20)));
    assert!(map.cells_idxs_of(center, radius).contains(&(19, 21)));
}

#[test]
fn new_grid_has_one_cell_per_side_length() {
    let map = grid();
    assert_eq!(map.map.len(), 40);
    for column in map.map.iter() {
        assert_eq!(column.len(), 40);
        for cell in column.iter() {
            assert!(cell.is_empty());
        }
    }
    let uneven = PositionHashMap::new(6, -400, 400, -200, 200);
    assert_eq!(uneven.map.len(), 133);
    assert_eq!(uneven.map[0].len(), 66);
    let inverted = PositionHashMap::new(6, 10, -10, 0, 60);
    assert_eq!(inverted.map.len(), 0);
}

#[test]
fn cell_of_a_position_counts_from_the_lower_left() {
    let map = grid();
    assert_eq!(map.cell_idxs_of(Vector2::new(-200, -200)), (0, 0));
    assert_eq!(map.cell_idxs_of(Vector2::new(-191, -190)), (0, 1));
    assert_eq!(map.cell_idxs_of(Vector2::new(199, 0)), (39, 20));
    assert_eq!(map.cell_idxs_of(Vector2::new(-1000, 5)), (0, 20));
}

#[test]
fn borders_of_a_cell() {
    let map = grid();
    let borders = map.cell_idxs_to_borders(20, 21);
    assert_eq!(borders.left, 0);
    assert_eq!(borders.right, 10);
    assert_eq!(borders.down, 10);
    assert_eq!(borders.up, 20);
}

#[test]
fn disc_that_crosses_every_side_is_in_nine_cells_in_order() {
    let map = grid();
    let cells = map.cells_idxs_of(Vector2::new(5, 5), 6);
    assert_eq!(
        cells,
        vec![
            (20, 20),
            (19, 20),
            (19, 21),
            (20, 21),
            (21, 21),
            (21, 20),
            (21, 19),
            (20, 19),
            (19, 19)
        ]
    );
}

#[test]
fn disc_that_touches_a_side_is_in_the_cell_beyond() {
    let map = grid();
    assert_eq!(map.cells_idxs_of(Vector2::new(4, 5), 4), vec![(20, 20), (19, 20)]);
    assert_eq!(map.cells_idxs_of(Vector2::new(5, 5), 4), vec![(20, 20)]);
    assert_eq!(map.cells_idxs_of(Vector2::new(6, 5), 4), vec![(20, 20), (21, 20)]);
}

#[test]
fn cells_outside_the_grid_are_left_out() {
    let map = grid();
    assert_eq!(map.cells_idxs_of(Vector2::new(-200, -200), 4), vec![(0, 0)]);
    assert_eq!(map.cells_idxs_of(Vector2::new(199, 199), 4), vec![(39, 39)]);
    assert_eq!(map.cells_idxs_of(Vector2::new(200, 0), 4), vec![(39, 20), (39, 19)]);
    assert_eq!(map.cells_idxs_of(Vector2::new(1000, 1000), 4), Vec::<(usize, usize)>::new());
}

#[test]
fn cells_are_those_that_the_square_around_the_disc_touches() {
    let map = PositionHashMap::new(10, -30, 30, -20, 20);
    for radius in 0..10i64 {
        for x in -30..30i64 {
            for y in -20..20i64 {
                let cells = map.cells_idxs_of(Vector2::new(x, y), radius);
                for i in 0..6usize {
                    for j in 0..4usize {
                        let left = -30 + 10 * i as i64;
                        let down = -20 + 10 * j as i64;
                        let touches = left <= x + radius
                            && x - radius <= left + 10
                            && down <= y + radius
                            && y - radius <= down + 10;
                        assert_eq!(
                            cells.contains(&(i, j)),
                            touches,
                            "disc at ({x}, {y}) of radius {radius}, cell ({i}, {j})"
                        );
                    }
                }
                for k in 0..cells.len() {
                    assert!(cells[k].0 < 6 && cells[k].1 < 4);
                    for m in 0..k {
                        assert_ne!(cells[k], cells[m]);
                    }
                }
            }
        }
    }
}

#[test]
fn insert_lists_the_handle_in_every_cell_of_the_disc() {
    let mut map = grid();
    map.insert(Vector2::new(2, 9), 4, handle(7));
    for i in 0..40usize {
        for j in 0..40usize {
            let listed = [(20, 20), (20, 21), (19, 20), (19, 21)].contains(&(i, j));
            assert_eq!(map.map[i][j], if listed { vec![handle(7)] } else { vec![] });
        }
    }
}

#[test]
fn update_moves_the_handle_to_the_cells_of_the_new_disc() {
    let mut map = grid();
    map.insert(Vector2::new(2, 9), 4, handle(1));
    map.insert(Vector2::new(5, 5), 4, handle(2));
    map.update(Vector2::new(2, 9), Vector2::new(15, 5), 4, handle(1));
    assert_eq!(map.map[20][20], vec![handle(2)]);
    assert_eq!(map.map[21][20], vec![handle(1)]);
    assert!(map.map[19][20].is_empty());
    assert!(map.map[19][21].is_empty());
    assert!(map.map[20][21].is_empty());
    map.update(Vector2::new(15, 5), Vector2::new(5, 5), 4, handle(1));
    assert_eq!(map.map[20][20], vec![handle(2), handle(1)]);
    assert!(map.map[21][20].is_empty());
}

#[test]
fn remove_takes_the_handle_out_of_the_cells_of_the_disc() {
    let mut map = grid();
    map.insert(Vector2::new(2, 9), 4, handle(1));
    map.insert(Vector2::new(2, 9), 4, handle(2));
    map.insert(Vector2::new(2, 9), 4, handle(1));
    assert_eq!(map.map[19][21], vec![handle(1), handle(2), handle(1)]);
    map.remove(Vector2::new(2, 9), 4, handle(1));
    for (i, j) in [(20, 20), (20, 21), (19, 20), (19, 21)] {
        assert_eq!(map.map[i][j], vec![handle(2)]);
    }
}

#[test]
fn neighbouring_cells_are_the_eight_around_a_cell() {
    let map = grid();
    assert_eq!(
        map.neighbouring_cells(5, 7),
        vec![(4, 6), (4, 7), (4, 8), (5, 6), (5, 8), (6, 6), (6, 7), (6, 8)]
    );
    assert_eq!(map.neighbouring_cells(0, 0), vec![(0, 1), (1, 0), (1, 1)]);
    assert_eq!(map.neighbouring_cells(39, 39), vec![(38, 38), (38, 39), (39, 38)]);
    assert_eq!(map.neighbouring_cells(40, 20), vec![(39, 19), (39, 20), (39, 21)]);
    assert_eq!(map.neighbouring_cells(100, 100), Vec::<(usize, usize)>::new());
}

#[test]
fn neighbouring_particles_are_listed_once() {
    let mut map = grid();
    map.insert(Vector2::new(2, 9), 4, handle(1));
    map.insert(Vector2::new(15, 15), 2, handle(2));
    map.insert(Vector2::new(35, 5), 2, handle(3));
    assert_eq!(map.neighbouring_cells_particles(20, 20), vec![handle(1), handle(2)]);
    assert_eq!(map.neighbouring_cells_particles(22, 20), vec![handle(2), handle(3)]);
    assert_eq!(map.neighbouring_cells_particles(0, 0), Vec::<Handle>::new());
}
