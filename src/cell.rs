use vstd::prelude::*;

verus! {

/// One cell of the automaton: a state and nothing else.
#[derive(Debug, Clone, Copy, PartialEq, Eq, Structural)]
pub struct Cell {
    pub status: Status,
}

/// The two states a cell can be in.
#[derive(Debug, Clone, Copy, PartialEq, Eq, Structural)]
pub enum Status {
    Alive,
    Dead,
}

/// The state that follows `status` when `neighbours` of the adjacent cells
/// are alive: a live cell survives with two or three live neighbours, a dead
/// cell comes alive with exactly three, and every other cell ends up dead.
pub open spec fn next_status(status: Status, neighbours: int) -> Status {
    match status {
        Status::Alive => if neighbours == 2 || neighbours == 3 {
            Status::Alive
        } else {
            Status::Dead
        },
        Status::Dead => if neighbours == 3 {
            Status::Alive
        } else {
            Status::Dead
        },
    }
}

impl Cell {
    /// The cell that follows this one for a given count of live neighbours.
    pub open spec fn evolved(self, neighbours: int) -> Cell {
        Cell { status: next_status(self.status, neighbours) }
    }

    pub fn new(status: Status) -> (r: Cell)
        ensures
            r.status == status,
    {
        Cell { status }
    }

    /// Applies the transition rule; the rule is total, so counts above eight
    /// are accepted and simply leave the cell dead.
    pub fn evolve(&self, neighbours: u8) -> (r: Cell)
        ensures
            r == self.evolved(neighbours as int),
    {
        let next_status = match self.status {
            Status::Alive => status_for_alive_cell(neighbours),
            Status::Dead => status_for_dead_cell(neighbours),
        };
        Cell::new(next_status)
    }
}

fn status_for_alive_cell(neighbours: u8) -> (r: Status)
    ensures
        r == next_status(Status::Alive, neighbours as int),
{
    if 2 <= neighbours && neighbours <= 3 {
        Status::Alive
    } else {
        Status::Dead
    }
}

fn status_for_dead_cell(neighbours: u8) -> (r: Status)
    ensures
        r == next_status(Status::Dead, neighbours as int),
{
    if neighbours == 3 {
        Status::Alive
    } else {
        Status::Dead
    }
}

} // verus!
