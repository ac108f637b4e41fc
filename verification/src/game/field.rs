use vstd::prelude::*;

verus! {

/// Declares a field size for the game.
pub const FIELD_SIZE: usize = 10;

/// A type of the cell in the game field.
#[derive(Clone, Copy, PartialEq, Eq, Structural, Debug)]
pub enum CellType {
    Empty,
    Occupied,
}

/// Represents coordinates inside the field: column first, then row.
#[derive(Clone, Copy, PartialEq, Eq, Structural, Debug)]
pub struct XY(pub usize, pub usize);

/// Fixed-size matrix that represents the game field, stored with cell
/// (x, y) at index x + y * FIELD_SIZE.
#[derive(Clone, Debug)]
pub struct Battlefield(pub Vec<CellType>);

impl View for Battlefield {
    type V = Seq<CellType>;

    open spec fn view(&self) -> Seq<CellType> {
        self.0@
    }
}

/// Whether cell (x, y) of the board is occupied; coordinates outside the
/// grid count as empty.
pub open spec fn occ(b: Seq<CellType>, x: int, y: int) -> bool {
    0 <= x < 10 && 0 <= y < 10 && b[x + y * 10] == CellType::Occupied
}

impl Battlefield {
    /// The board covers the full FIELD_SIZE x FIELD_SIZE grid.
    pub open spec fn wf(self) -> bool {
        self.0.len() == 100
    }

    /// Whether cell (x, y) is occupied; the coordinates may lie outside the
    /// grid, in which case the cell counts as empty.
    pub fn is_occ(&self, x: usize, y: usize) -> (r: bool)
        requires
            self.wf(),
        ensures
            r == occ(self@, x as int, y as int),
    {
        if x < FIELD_SIZE && y < FIELD_SIZE {
            match self.0[x + y * FIELD_SIZE] {
                CellType::Occupied => true,
                CellType::Empty => false,
            }
        } else {
            false
        }
    }

    /// Marks cell (x, y) as occupied.
    pub fn set_occupied(&mut self, x: usize, y: usize)
        requires
            old(self).wf(),
            x < FIELD_SIZE,
            y < FIELD_SIZE,
        ensures
            final(self).wf(),
            final(self)@ == old(self)@.update(x + y * 10, CellType::Occupied),
    {
        self.0[x + y * FIELD_SIZE] = CellType::Occupied;
    }
}

impl Default for Battlefield {
    /// An empty board covering the whole grid.
    fn default() -> (r: Self)
        ensures
            r.wf(),
            forall|i: int| 0 <= i < 100 ==> r@[i] == CellType::Empty,
    {
        let mut cells: Vec<CellType> = Vec::new();
        let mut i: usize = 0;
        while i < FIELD_SIZE * FIELD_SIZE
            invariant
                i <= 100,
                cells@.len() == i,
                forall|j: int| 0 <= j < i ==> cells@[j] == CellType::Empty,
            decreases 100 - i,
        {
            cells.push(CellType::Empty);
            i = i + 1;
        }
        Battlefield(cells)
    }
}

/// Turns a two-digit cell code into coordinates, as the command line enters
/// them; codes beyond the grid are rejected.
pub fn xy_from_code(code: usize) -> (r: Option<XY>)
    ensures
        code < 100 ==> r == Some(XY(code / FIELD_SIZE, code % FIELD_SIZE)),
        code >= 100 ==> r is None,
{
    if code > 99 {
        None
    } else {
        Some(XY(code / FIELD_SIZE, code % FIELD_SIZE))
    }
}

} // verus!
