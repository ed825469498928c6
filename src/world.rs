use vstd::prelude::*;

use crate::cell::{Cell, Status};

verus! {

/// A grid coordinate; `.0` is the row (x), `.1` the column (y).
#[derive(Debug, Clone, Copy, PartialEq, Eq, Hash, Structural)]
pub struct Position(pub i32, pub i32);

/// Whether both coordinates lie strictly inside the range of `i32`, so that
/// all eight adjacent coordinates can be computed.
pub open spec fn interior(k: (i32, i32)) -> bool {
    i32::MIN < k.0 < i32::MAX && i32::MIN < k.1 < i32::MAX
}

impl Position {
    /// The map key for this position.
    pub open spec fn key(self) -> (i32, i32) {
        (self.0, self.1)
    }

    pub fn get_right(&self) -> (r: Position)
        requires
            self.0 < i32::MAX,
        ensures
            r.0 == self.0 + 1,
            r.1 == self.1,
    {
        Position(self.0 + 1, self.1)
    }

    pub fn get_right_top(&self) -> (r: Position)
        requires
            self.0 < i32::MAX,
            self.1 < i32::MAX,
        ensures
            r.0 == self.0 + 1,
            r.1 == self.1 + 1,
    {
        Position(self.0 + 1, self.1 + 1)
    }

    pub fn get_right_bottom(&self) -> (r: Position)
        requires
            self.0 < i32::MAX,
            self.1 > i32::MIN,
        ensures
            r.0 == self.0 + 1,
            r.1 == self.1 - 1,
    {
        Position(self.0 + 1, self.1 - 1)
    }

    pub fn get_left(&self) -> (r: Position)
        requires
            self.0 > i32::MIN,
        ensures
            r.0 == self.0 - 1,
            r.1 == self.1,
    {
        Position(self.0 - 1, self.1)
    }

    pub fn get_left_top(&self) -> (r: Position)
        requires
            self.0 > i32::MIN,
            self.1 < i32::MAX,
        ensures
            r.0 == self.0 - 1,
            r.1 == self.1 + 1,
    {
        Position(self.0 - 1, self.1 + 1)
    }

    pub fn get_left_bottom(&self) -> (r: Position)
        requires
            self.0 > i32::MIN,
            self.1 > i32::MIN,
        ensures
            r.0 == self.0 - 1,
            r.1 == self.1 - 1,
    {
        Position(self.0 - 1, self.1 - 1)
    }

    pub fn get_top(&self) -> (r: Position)
        requires
            self.1 < i32::MAX,
        ensures
            r.0 == self.0,
            r.1 == self.1 + 1,
    {
        Position(self.0, self.1 + 1)
    }

    pub fn get_bottom(&self) -> (r: Position)
        requires
            self.1 > i32::MIN,
        ensures
            r.0 == self.0,
            r.1 == self.1 - 1,
    {
        Position(self.0, self.1 - 1)
    }
}

/// The eight coordinates adjacent to `(x, y)`, in the order right, right-top,
/// right-bottom, left, left-top, left-bottom, top, bottom.
pub open spec fn adjacent(x: int, y: int) -> Seq<(int, int)> {
    seq![
        (x + 1, y),
        (x + 1, y + 1),
        (x + 1, y - 1),
        (x - 1, y),
        (x - 1, y + 1),
        (x - 1, y - 1),
        (x, y + 1),
        (x, y - 1),
    ]
}

/// Whether the coordinate `c` is a key of `cells` holding a live cell.
/// Coordinates outside the range of `i32` can be no key and are never alive.
pub open spec fn alive_at(cells: Map<(i32, i32), Cell>, c: (int, int)) -> bool {
    &&& i32::MIN <= c.0 <= i32::MAX
    &&& i32::MIN <= c.1 <= i32::MAX
    &&& cells.contains_key((c.0 as i32, c.1 as i32))
    &&& cells[(c.0 as i32, c.1 as i32)].status == Status::Alive
}

/// How many of the coordinates in `cs` hold a live cell of `cells`.
pub open spec fn count_alive(cells: Map<(i32, i32), Cell>, cs: Seq<(int, int)>) -> nat
    decreases cs.len(),
{
    if cs.len() == 0 {
        0
    } else {
        count_alive(cells, cs.drop_last()) + if alive_at(cells, cs.last()) {
            1nat
        } else {
            0nat
        }
    }
}

/// The number of live cells adjacent to `k`, or 0 where `k` is no key of
/// `cells`.
pub open spec fn alive_neighbours(cells: Map<(i32, i32), Cell>, k: (i32, i32)) -> nat {
    if cells.contains_key(k) {
        count_alive(cells, adjacent(k.0 as int, k.1 as int))
    } else {
        0
    }
}

/// The cells of a table of states: the entry in row `x`, column `y` stands at
/// key `(x, y)`, dead entries included.
pub open spec fn table_cells(table: Seq<Vec<Status>>) -> Map<(i32, i32), Cell> {
    Map::new(
        |k: (i32, i32)| 0 <= k.0 < table.len() && 0 <= k.1 < table[k.0 as int].len(),
        |k: (i32, i32)| Cell { status: table[k.0 as int][k.1 as int] },
    )
}

/// Whether every row of `table` is as long as the first.
pub open spec fn rectangular(table: Seq<Vec<Status>>) -> bool {
    forall|i: int| 0 <= i < table.len() ==> #[trigger] table[i].len() == table[0].len()
}

/// The keys of row `x` with columns below `cols`.
spec fn row_keys(x: int, cols: int) -> Set<(i32, i32)> {
    Set::new(|k: (i32, i32)| k.0 == x && 0 <= k.1 < cols)
}

/// The keys with rows below `rows` and columns below `cols`.
spec fn block_keys(rows: int, cols: int) -> Set<(i32, i32)> {
    Set::new(|k: (i32, i32)| 0 <= k.0 < rows && 0 <= k.1 < cols)
}

proof fn lemma_row_keys_len(x: int, cols: int)
    requires
        0 <= x <= i32::MAX,
        0 <= cols <= i32::MAX,
    ensures
        row_keys(x, cols).finite(),
        row_keys(x, cols).len() == cols,
    decreases cols,
{
    if cols == 0 {
        assert(row_keys(x, cols) == Set::<(i32, i32)>::empty());
    } else {
        lemma_row_keys_len(x, cols - 1);
        assert(row_keys(x, cols) == row_keys(x, cols - 1).insert((x as i32, (cols - 1) as i32)));
    }
}

proof fn lemma_block_keys_len(rows: int, cols: int)
    requires
        0 <= rows <= i32::MAX,
        0 <= cols <= i32::MAX,
    ensures
        block_keys(rows, cols).finite(),
        block_keys(rows, cols).len() == rows * cols,
    decreases rows,
{
    if rows == 0 {
        assert(block_keys(rows, cols) == Set::<(i32, i32)>::empty());
    } else {
        lemma_block_keys_len(rows - 1, cols);
        lemma_row_keys_len(rows - 1, cols);
        assert(block_keys(rows, cols) == block_keys(rows - 1, cols).union(row_keys(rows - 1, cols)));
        assert(block_keys(rows - 1, cols).disjoint(row_keys(rows - 1, cols)));
        vstd::set_lib::lemma_set_disjoint_lens(block_keys(rows - 1, cols), row_keys(rows - 1, cols));
        assert((rows - 1) * cols + cols == rows * cols) by (nonlinear_arith);
    }
}

/// A non-empty rectangular table gives a world with one position for each
/// entry of the table: rows times columns of them.
pub proof fn lemma_table_cells_len(table: Seq<Vec<Status>>)
    requires
        table.len() > 0,
        rectangular(table),
        table.len() <= i32::MAX,
        table[0].len() <= i32::MAX,
    ensures
        table_cells(table).dom().finite(),
        table_cells(table).len() == table.len() * table[0].len(),
{
    lemma_block_keys_len(table.len() as int, table[0].len() as int);
    assert(table_cells(table).dom() == block_keys(table.len() as int, table[0].len() as int));
}

/// The cells of the rows before `x` of `table`, and of the first `y` entries
/// of row `x`.
spec fn table_prefix(table: Seq<Vec<Status>>, x: int, y: int) -> Map<(i32, i32), Cell> {
    Map::new(
        |k: (i32, i32)|
            (0 <= k.0 < x && 0 <= k.1 < table[k.0 as int].len()) || (k.0 == x && 0 <= k.1 < y),
        |k: (i32, i32)| Cell { status: table[k.0 as int][k.1 as int] },
    )
}

/// The cells given as a list of entries; where a position occurs twice, the
/// later entry stands.
pub open spec fn listed_cells(entries: Seq<(Position, Cell)>) -> Map<(i32, i32), Cell>
    decreases entries.len(),
{
    if entries.len() == 0 {
        Map::empty()
    } else {
        listed_cells(entries.drop_last()).insert(entries.last().0.key(), entries.last().1)
    }
}

/// The cells one generation after `cells`: the same keys, each cell evolved
/// by the count of its live neighbours in `cells`.
pub open spec fn next_generation(cells: Map<(i32, i32), Cell>) -> Map<(i32, i32), Cell> {
    Map::new(
        |k: (i32, i32)| cells.contains_key(k),
        |k: (i32, i32)| cells[k].evolved(alive_neighbours(cells, k) as int),
    )
}

/// Two tables with the same entries give worlds with the same cells, and
/// stepping those worlds gives the same cells again.
pub proof fn lemma_step_deterministic(first: Seq<Vec<Status>>, second: Seq<Vec<Status>>)
    requires
        first.len() == second.len(),
        forall|i: int| 0 <= i < first.len() ==> (#[trigger] first[i])@ == second[i]@,
    ensures
        table_cells(first) == table_cells(second),
        next_generation(table_cells(first)) == next_generation(table_cells(second)),
{
    assert(table_cells(first) == table_cells(second));
}

/// Why a world could not be built.
#[derive(Debug, Clone, Copy, PartialEq, Eq, Structural)]
pub enum WorldError {
    /// The initial table has no rows.
    EmptyDomain,
}

impl WorldError {
    /// A sentence that describes the error.
    pub fn message(&self) -> (r: &'static str)
        ensures
            r@ == "World cannot be empty"@,
    {
        match self {
            WorldError::EmptyDomain => "World cannot be empty",
        }
    }
}

/// The generations of the automaton over one fixed domain of coordinates.
#[derive(Debug)]
pub struct World {
    cells: std::collections::BTreeMap<(i32, i32), Cell>,
    generation_count: u32,
}

impl View for World {
    type V = Map<(i32, i32), Cell>;

    closed spec fn view(&self) -> Map<(i32, i32), Cell> {
        self.cells@
    }
}

impl World {
    /// How many generations separate this world from the one it was built as.
    pub closed spec fn generation(&self) -> nat {
        self.generation_count as nat
    }

    pub fn generation_count(&self) -> (r: u32)
        ensures
            r == self.generation(),
    {
        self.generation_count
    }

    /// Every key lies in the interior of the coordinate range.
    pub open spec fn wf(&self) -> bool {
        forall|k: (i32, i32)| #[trigger] self@.contains_key(k) ==> interior(k)
    }

    /// Builds generation 0 from a table of states; row index becomes `x`,
    /// column index `y`, and every entry of the table, dead or alive, becomes
    /// a key of the world.
    pub fn new(initial_state: Vec<Vec<Status>>) -> (r: Result<World, WorldError>)
        requires
            initial_state.len() <= i32::MAX,
            forall|i: int|
                0 <= i < initial_state.len() ==> #[trigger] initial_state[i].len() <= i32::MAX,
        ensures
            r is Err <==> initial_state.len() == 0,
            r matches Err(e) ==> e == WorldError::EmptyDomain,
            r matches Ok(w) ==> {
                &&& w.wf()
                &&& w@ == table_cells(initial_state@)
                &&& w.generation() == 0
            },
    {
        if initial_state.len() == 0 {
            return Err(WorldError::EmptyDomain);
        }
        let ghost table = initial_state@;
        let mut cells: std::collections::BTreeMap<(i32, i32), Cell> =
            std::collections::BTreeMap::new();
        let mut x: usize = 0;
        assert(cells@ == table_prefix(table, 0, 0));
        while x < initial_state.len()
            invariant
                table == initial_state@,
                initial_state.len() <= i32::MAX,
                forall|i: int|
                    0 <= i < initial_state.len() ==> #[trigger] initial_state[i].len() <= i32::MAX,
                x <= initial_state.len(),
                cells@ == table_prefix(table, x as int, 0),
            decreases initial_state.len() - x,
        {
            let row = &initial_state[x];
            let mut y: usize = 0;
            while y < row.len()
                invariant
                    table == initial_state@,
                    *row == initial_state[x as int],
                    initial_state.len() <= i32::MAX,
                    forall|i: int|
                        0 <= i < initial_state.len() ==> #[trigger] initial_state[i].len()
                            <= i32::MAX,
                    x < initial_state.len(),
                    y <= row.len(),
                    cells@ == table_prefix(table, x as int, y as int),
                decreases row.len() - y,
            {
                cells.insert((x as i32, y as i32), Cell::new(row[y]));
                assert(cells@ == table_prefix(table, x as int, y + 1));
                y += 1;
            }
            assert(table_prefix(table, x as int, y as int) == table_prefix(table, x + 1, 0));
            x += 1;
        }
        assert(cells@ == table_cells(table));
        Ok(World { cells, generation_count: 0 })
    }

    /// Builds generation 0 from a list of positions and their cells, in any
    /// shape; where a position is listed twice, the later entry stands. Each
    /// position must lie strictly inside the range of `i32`, so that its
    /// neighbours can be computed.
    pub fn from_cells(initial_state: Vec<(Position, Cell)>) -> (r: Result<World, WorldError>)
        requires
            forall|i: int|
                0 <= i < initial_state.len() ==> interior((#[trigger] initial_state[i]).0.key()),
        ensures
            r is Err <==> initial_state.len() == 0,
            r matches Err(e) ==> e == WorldError::EmptyDomain,
            r matches Ok(w) ==> {
                &&& w.wf()
                &&& w@ == listed_cells(initial_state@)
                &&& w.generation() == 0
            },
    {
        if initial_state.len() == 0 {
            return Err(WorldError::EmptyDomain);
        }
        let ghost entries = initial_state@;
        let mut cells: std::collections::BTreeMap<(i32, i32), Cell> =
            std::collections::BTreeMap::new();
        let mut i: usize = 0;
        assert(entries.take(0) == Seq::<(Position, Cell)>::empty());
        while i < initial_state.len()
            invariant
                entries == initial_state@,
                forall|j: int|
                    0 <= j < initial_state.len() ==> interior(
                        (#[trigger] initial_state[j]).0.key(),
                    ),
                i <= initial_state.len(),
                cells@ == listed_cells(entries.take(i as int)),
                forall|k: (i32, i32)| #[trigger] cells@.contains_key(k) ==> interior(k),
            decreases initial_state.len() - i,
        {
            let (position, cell) = initial_state[i];
            cells.insert((position.0, position.1), cell);
            assert(entries.take(i + 1).drop_last() == entries.take(i as int));
            i += 1;
        }
        assert(entries.take(i as int) == entries);
        Ok(World { cells, generation_count: 0 })
    }

    /// The number of positions the world holds.
    pub fn len(&self) -> (r: usize)
        ensures
            r == self@.len(),
    {
        self.cells.len()
    }

    /// The next generation: a new world over the same keys, each cell evolved
    /// by its count of live neighbours in this world, and the generation count
    /// one higher. This world is left as it was.
    pub fn calculate_next_generation(&self) -> (r: Result<World, WorldError>)
        requires
            self.wf(),
            self.generation() < u32::MAX,
        ensures
            r matches Ok(w) && {
                &&& w.wf()
                &&& w@ == next_generation(self@)
                &&& w@.dom() == self@.dom()
                &&& w.generation() == self.generation() + 1
            },
    {
        let mut next = self.cells.clone();
        for entry in it: self.cells.iter()
            invariant
                self.wf(),
                next@.dom() == self@.dom(),
                forall|i: int|
                    0 <= i < it.index() ==> next@[*(#[trigger] it.seq()[i]).0]
                        == next_generation(self@)[*it.seq()[i].0],
        {
            let (key, cell) = entry;
            let neighbours = self.calculate_alive_neighbours(&Position(key.0, key.1));
            next.insert(*key, cell.evolve(neighbours));
        }
        Ok(World { cells: next, generation_count: self.generation_count + 1 })
    }

    /// The cell at `position`, if the world has one there.
    pub fn cell_at(&self, position: &Position) -> (r: Option<Cell>)
        ensures
            r == (if self@.contains_key(position.key()) {
                Some(self@[position.key()])
            } else {
                None::<Cell>
            }),
    {
        match self.cells.get(&(position.0, position.1)) {
            Some(cell) => Some(*cell),
            None => None,
        }
    }

    fn is_alive(&self, position: &Position) -> (r: bool)
        ensures
            r == alive_at(self@, (position.0 as int, position.1 as int)),
    {
        match self.cells.get(&(position.0, position.1)) {
            Some(cell) => cell.status == Status::Alive,
            None => false,
        }
    }

    /// Counts the live cells among the eight coordinates adjacent to
    /// `position`; a position the world does not hold counts none.
    pub fn calculate_alive_neighbours(&self, position: &Position) -> (r: u8)
        requires
            self.wf(),
        ensures
            r == alive_neighbours(self@, position.key()),
            r <= 8,
            !self@.contains_key(position.key()) ==> r == 0,
    {
        if self.cells.get(&(position.0, position.1)).is_none() {
            return 0;
        }
        assert(self@.contains_key(position.key()));
        assert(interior(position.key()));
        let positions = [
            position.get_right(),
            position.get_right_top(),
            position.get_right_bottom(),
            position.get_left(),
            position.get_left_top(),
            position.get_left_bottom(),
            position.get_top(),
            position.get_bottom(),
        ];
        let ghost around = adjacent(position.0 as int, position.1 as int);
        assert(forall|i: int|
            0 <= i < 8 ==> (#[trigger] positions@[i]).0 == around[i].0 && positions@[i].1
                == around[i].1);
        let mut alive_neighbours: u8 = 0;
        for i in 0..8usize
            invariant
                around == adjacent(position.0 as int, position.1 as int),
                forall|j: int|
                    0 <= j < 8 ==> (#[trigger] positions@[j]).0 == around[j].0 && positions@[j].1
                        == around[j].1,
                alive_neighbours == count_alive(self@, around.take(i as int)),
                alive_neighbours <= i,
        {
            assert(around.take(i + 1).drop_last() == around.take(i as int));
            if self.is_alive(&positions[i]) {
                alive_neighbours += 1;
            }
        }
        assert(around.take(8) == around);
        alive_neighbours
    }
}

/// Two worlds are equal when they hold the same cells at the same positions,
/// whatever their generation counts.
impl PartialEq for World {
    fn eq(&self, other: &World) -> (r: bool) {
        if self.cells.len() != other.cells.len() {
            return false;
        }
        for entry in it: self.cells.iter()
            invariant
                self@.len() == other@.len(),
                forall|i: int|
                    0 <= i < it.index() ==> {
                        &&& other@.contains_key(*(#[trigger] it.seq()[i]).0)
                        &&& other@[*it.seq()[i].0] == self@[*it.seq()[i].0]
                    },
        {
            let (key, cell) = entry;
            match other.cells.get(key) {
                Some(found) => {
                    if *found != *cell {
                        return false;
                    }
                },
                None => {
                    return false;
                },
            }
        }
        proof {
            assert(self@.dom().subset_of(other@.dom()));
            vstd::set_lib::lemma_subset_equality(self@.dom(), other@.dom());
            assert(self@ == other@);
        }
        true
    }
}

impl vstd::std_specs::cmp::PartialEqSpecImpl for World {
    open spec fn obeys_eq_spec() -> bool {
        true
    }

    open spec fn eq_spec(&self, other: &World) -> bool {
        self@ == other@
    }
}

} // verus!
