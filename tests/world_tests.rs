use kata_game_of_life::cell::{Cell, Status};
use kata_game_of_life::world::{Position, World, WorldError};

const D: Status = Status::Dead;
const A: Status = Status::Alive;

/// The entries of a table, keyed as `World::new` keys them, so that single
/// entries can be replaced or removed before a world is built from them.
fn entries_of(state: Vec<Vec<Status>>) -> Vec<(Position, Cell)> {
    let mut entries = Vec::new();
    for (x, row) in state.iter().enumerate() {
        for (y, status) in row.iter().enumerate() {
            entries.push((Position(x as i32, y as i32), Cell::new(*status)));
        }
    }
    entries
}

#[test]
fn world_given_a_position_get_right() {
    let position = Position(1, 2);
    assert_eq!(position.get_right(), Position(2, 2));
}

#[test]
fn world_given_a_position_get_left() {
    let position = Position(1, 2);
    assert_eq!(position.get_left(), Position(0, 2));
}

#[test]
fn world_given_a_position_get_top() {
    let position = Position(1, 2);
    assert_eq!(position.get_top(), Position(1, 3));
}

#[test]
fn world_given_a_position_get_bottom() {
    let position = Position(1, 2);
    assert_eq!(position.get_bottom(), Position(1, 1));
}

#[test]
fn world_given_empty_initial_state_raises_error() {
    assert_eq!(World::new(Vec::new()), Err(WorldError::EmptyDomain));
    assert_eq!(WorldError::EmptyDomain.message(), "World cannot be empty");
}

#[test]
fn world_given_an_initial_state_i_can_create_a_world() {
    let world = World::new(vec![vec![A]]).unwrap();
    assert_eq!(world.len(), 1);
}

#[test]
fn world_given_a_world_i_can_calculate_next_generation() {
    let world = World::new(vec![vec![A]])
        .unwrap()
        .calculate_next_generation()
        .unwrap();
    assert_eq!(world.generation_count(), 1);
}

#[test]
fn world_given_a_world_i_can_calculate_alive_neighbours_for_a_dead_cell() {
    let mut entries = entries_of(vec![vec![A, A]]);
    entries.push((Position(0, 0), Cell::new(Status::Dead)));
    let world = World::from_cells(entries).unwrap();
    assert_eq!(world.calculate_alive_neighbours(&Position(0, 0)), 1);
}

#[test]
fn world_given_a_1d_world_i_can_calculate_alive_neighbours() {
    let mut entries = entries_of(vec![vec![A, A, A]]);
    let world = World::from_cells(entries.clone()).unwrap();
    assert_eq!(world.calculate_alive_neighbours(&Position(0, 0)), 1);
    assert_eq!(world.calculate_alive_neighbours(&Position(0, 1)), 2);

    // after killing one neighbour the number of alive neighbours is 1 again
    entries.push((Position(0, 0), Cell::new(Status::Dead)));
    let world = World::from_cells(entries).unwrap();
    assert_eq!(world.calculate_alive_neighbours(&Position(0, 1)), 1);
}

#[test]
fn world_given_a_2d_world_i_can_calculate_alive_neighbours() {
    // A A A
    // A A A
    // A A A
    let world = World::new(vec![vec![A, A, A], vec![A, A, A], vec![A, A, A]]).unwrap();
    assert_eq!(world.calculate_alive_neighbours(&Position(1, 1)), 8);
    assert_eq!(world.calculate_alive_neighbours(&Position(2, 2)), 3);
    assert_eq!(world.calculate_alive_neighbours(&Position(0, 1)), 5);

    // A A A
    // D A D
    // A A A
    let world = World::new(vec![vec![A, A, A], vec![D, A, D], vec![A, A, A]]).unwrap();
    assert_eq!(world.calculate_alive_neighbours(&Position(1, 1)), 6);
    assert_eq!(world.calculate_alive_neighbours(&Position(2, 2)), 2);
    assert_eq!(world.calculate_alive_neighbours(&Position(0, 1)), 3);
}

#[test]
fn world_given_a_2d_world_with_empty_spots_i_can_calculate_alive_neighbours() {
    // A A A
    // A A X
    // A A X
    let mut entries = entries_of(vec![vec![A, A, A], vec![A, A, A], vec![A, A, A]]);
    entries.retain(|(position, _)| *position != Position(2, 2));
    entries.retain(|(position, _)| *position != Position(1, 2));
    let world = World::from_cells(entries.clone()).unwrap();
    assert_eq!(world.calculate_alive_neighbours(&Position(1, 1)), 6);
    assert_eq!(world.calculate_alive_neighbours(&Position(2, 2)), 0);
    assert_eq!(world.calculate_alive_neighbours(&Position(0, 1)), 4);

    // after killing two neighbours the number of alive neighbours change
    entries.push((Position(1, 0), Cell::new(Status::Dead)));
    // A A A
    // D A X
    // A A X
    let world = World::from_cells(entries).unwrap();
    assert_eq!(world.calculate_alive_neighbours(&Position(1, 1)), 5);
    assert_eq!(world.calculate_alive_neighbours(&Position(2, 2)), 0);
    assert_eq!(world.calculate_alive_neighbours(&Position(0, 1)), 3);
}
