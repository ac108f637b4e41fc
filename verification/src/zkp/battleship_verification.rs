use crate::game::battleship::{board_with_ship, box_occ, covers, covers_upto, fleet_count, place_ok};
use crate::game::field::{occ, Battlefield, CellType, FIELD_SIZE, XY};
use crate::game::ship::{ship_cell_x, ship_cell_y, valid_shape, Ship, ShipType};
use crate::zkp::types::{
    allocate_board, allocate_fleet_entry, allocate_public, assert_equal_true, backend_new,
    boolean_equal, cs_satisfiable, first_unsatisfied_constraint, is_satisfiable, VerifyError,
};
use vstd::prelude::*;

verus! {

// ---------------------------------------------------------------------------
// The board model the circuit counts against.
// ---------------------------------------------------------------------------

/// An in-grid occupied cell with no orthogonal occupied neighbor: a ship of
/// length one.  Diagonal neighbors play no part in this test.
pub open spec fn isolated(b: Seq<CellType>, x: int, y: int) -> bool {
    occ(b, x, y) && !occ(b, x - 1, y) && !occ(b, x + 1, y) && !occ(b, x, y - 1)
        && !occ(b, x, y + 1)
}

/// Whether the cell at scan position k (column k / 10, row k % 10) is
/// isolated.
pub open spec fn iso_at(b: Seq<CellType>, k: int) -> bool {
    isolated(b, k / 10, k % 10)
}

/// Number of isolated cells among the first k cells in scan order
/// (column x = k / 10 outermost, row y = k % 10 within it).
pub open spec fn iso_count_to(b: Seq<CellType>, k: int) -> int
    decreases k,
{
    if k <= 0 {
        0
    } else {
        iso_count_to(b, k - 1) + if iso_at(b, k - 1) {
            1int
        } else {
            0int
        }
    }
}

/// Total number of isolated, length-one ships on the board.
pub open spec fn isolated_count(b: Seq<CellType>) -> int {
    iso_count_to(b, 100)
}

/// Length of the run of occupied cells in line x directly before row y:
/// cells (x, y-1), (x, y-2), ... up to the first empty cell or the edge.
pub open spec fn run_back_y(b: Seq<CellType>, x: int, y: int) -> int
    decreases y,
{
    if y <= 0 || !occ(b, x, y - 1) {
        0
    } else {
        run_back_y(b, x, y - 1) + 1
    }
}

/// A maximal straight run in the y direction: cells (x, y) through
/// (x, y + len - 1) occupied, bordered by empty cells or the edge.
pub open spec fn run_y_at(b: Seq<CellType>, x: int, y: int, len: int) -> bool {
    1 <= len && !occ(b, x, y - 1) && !occ(b, x, y + len) && (forall|j: int|
        y <= j < y + len ==> occ(b, x, j))
}

/// Whether a maximal y-direction run of the given length starts at scan
/// position k (column k / 10, row k % 10).
pub open spec fn run_y_start_at(b: Seq<CellType>, len: int, k: int) -> bool {
    run_y_at(b, k / 10, k % 10, len)
}

/// Number of maximal y-direction runs of exactly `len` cells whose start
/// has scan index below k.
pub open spec fn runs_y_to(b: Seq<CellType>, len: int, k: int) -> int
    decreases k,
{
    if k <= 0 {
        0
    } else {
        runs_y_to(b, len, k - 1) + if run_y_start_at(b, len, k - 1) {
            1int
        } else {
            0int
        }
    }
}

/// Length of the run of occupied cells in row y directly before column x.
pub open spec fn run_back_x(b: Seq<CellType>, x: int, y: int) -> int
    decreases x,
{
    if x <= 0 || !occ(b, x - 1, y) {
        0
    } else {
        run_back_x(b, x - 1, y) + 1
    }
}

/// A maximal straight run in the x direction: cells (x, y) through
/// (x + len - 1, y) occupied, bordered by empty cells or the edge.
pub open spec fn run_x_at(b: Seq<CellType>, x: int, y: int, len: int) -> bool {
    1 <= len && !occ(b, x - 1, y) && !occ(b, x + len, y) && (forall|j: int|
        x <= j < x + len ==> occ(b, j, y))
}

/// Whether a maximal x-direction run of the given length starts at scan
/// position k of the second sweep (row k / 10, column k % 10).
pub open spec fn run_x_start_at(b: Seq<CellType>, len: int, k: int) -> bool {
    run_x_at(b, k % 10, k / 10, len)
}

/// Number of maximal x-direction runs of exactly `len` cells whose start
/// has scan index below k in the second sweep.
pub open spec fn runs_x_to(b: Seq<CellType>, len: int, k: int) -> int
    decreases k,
{
    if k <= 0 {
        0
    } else {
        runs_x_to(b, len, k - 1) + if run_x_start_at(b, len, k - 1) {
            1int
        } else {
            0int
        }
    }
}

/// How many ships of exactly the given length the board holds, the way the
/// circuit counts them: isolated cells for length one, maximal runs along
/// both sweep directions for longer ships.
pub open spec fn ship_count(b: Seq<CellType>, len: int) -> int {
    if len == 1 {
        isolated_count(b)
    } else {
        runs_y_to(b, len, 100) + runs_x_to(b, len, 100)
    }
}

// ---------------------------------------------------------------------------
// Arithmetic and counting lemmas.
// ---------------------------------------------------------------------------

proof fn lemma_div10(q: int, r: int)
    requires
        0 <= r < 10,
    ensures
        (q * 10 + r) / 10 == q,
        (q * 10 + r) % 10 == r,
{
    vstd::arithmetic::div_mod::lemma_fundamental_div_mod_converse(q * 10 + r, 10, q, r);
}

proof fn lemma_iso_count_to_bound(b: Seq<CellType>, k: int)
    ensures
        0 <= iso_count_to(b, k),
        iso_count_to(b, k) <= (if k >= 0 {
            k
        } else {
            0
        }),
    decreases k,
{
    if k > 0 {
        lemma_iso_count_to_bound(b, k - 1);
    }
}

proof fn lemma_runs_y_to_bound(b: Seq<CellType>, len: int, k: int)
    ensures
        0 <= runs_y_to(b, len, k),
        runs_y_to(b, len, k) <= (if k >= 0 {
            k
        } else {
            0
        }),
    decreases k,
{
    if k > 0 {
        lemma_runs_y_to_bound(b, len, k - 1);
    }
}

proof fn lemma_runs_x_to_bound(b: Seq<CellType>, len: int, k: int)
    ensures
        0 <= runs_x_to(b, len, k),
        runs_x_to(b, len, k) <= (if k >= 0 {
            k
        } else {
            0
        }),
    decreases k,
{
    if k > 0 {
        lemma_runs_x_to_bound(b, len, k - 1);
    }
}

proof fn lemma_runs_y_to_constant(b: Seq<CellType>, len: int, k1: int, k2: int)
    requires
        0 <= k1 <= k2,
        forall|k: int| k1 <= k < k2 ==> !run_y_start_at(b, len, k),
    ensures
        runs_y_to(b, len, k2) == runs_y_to(b, len, k1),
    decreases k2 - k1,
{
    if k1 < k2 {
        lemma_runs_y_to_constant(b, len, k1, k2 - 1);
    }
}

proof fn lemma_runs_x_to_constant(b: Seq<CellType>, len: int, k1: int, k2: int)
    requires
        0 <= k1 <= k2,
        forall|k: int| k1 <= k < k2 ==> !run_x_start_at(b, len, k),
    ensures
        runs_x_to(b, len, k2) == runs_x_to(b, len, k1),
    decreases k2 - k1,
{
    if k1 < k2 {
        lemma_runs_x_to_constant(b, len, k1, k2 - 1);
    }
}

/// The run directly before row y is made of occupied cells and is maximal:
/// the cell just before it is empty or off the grid.
proof fn lemma_run_back_y_char(b: Seq<CellType>, x: int, y: int)
    requires
        0 <= y,
    ensures
        0 <= run_back_y(b, x, y) <= y,
        forall|j: int| y - run_back_y(b, x, y) <= j < y ==> occ(b, x, j),
        !occ(b, x, y - run_back_y(b, x, y) - 1),
    decreases y,
{
    if y > 0 && occ(b, x, y - 1) {
        lemma_run_back_y_char(b, x, y - 1);
    }
}

proof fn lemma_run_back_x_char(b: Seq<CellType>, x: int, y: int)
    requires
        0 <= x,
    ensures
        0 <= run_back_x(b, x, y) <= x,
        forall|j: int| x - run_back_x(b, x, y) <= j < x ==> occ(b, j, y),
        !occ(b, x - run_back_x(b, x, y) - 1, y),
    decreases x,
{
    if x > 0 && occ(b, x - 1, y) {
        lemma_run_back_x_char(b, x - 1, y);
    }
}

/// At an empty cell (x, y), a maximal run of exactly s cells ends right
/// before y exactly when the backwards run length there is s.
proof fn lemma_run_tally_y(b: Seq<CellType>, x: int, y: int, s: int)
    requires
        0 <= y,
        1 <= s,
        !occ(b, x, y),
    ensures
        run_y_at(b, x, y - s, s) <==> run_back_y(b, x, y) == s,
{
    lemma_run_back_y_char(b, x, y);
    let rb = run_back_y(b, x, y);
    if run_y_at(b, x, y - s, s) {
        if rb < s {
            assert(occ(b, x, y - rb - 1));
            assert(false);
        }
        if rb > s {
            assert(occ(b, x, y - s - 1));
            assert(false);
        }
    } else {
        if rb == s {
            assert(!occ(b, x, (y - s) - 1));
            assert(!occ(b, x, (y - s) + s));
            assert(forall|j: int| y - s <= j < (y - s) + s ==> occ(b, x, j));
            assert(false);
        }
    }
}

proof fn lemma_run_tally_x(b: Seq<CellType>, x: int, y: int, s: int)
    requires
        0 <= x,
        1 <= s,
        !occ(b, x, y),
    ensures
        run_x_at(b, x - s, y, s) <==> run_back_x(b, x, y) == s,
{
    lemma_run_back_x_char(b, x, y);
    let rb = run_back_x(b, x, y);
    if run_x_at(b, x - s, y, s) {
        if rb < s {
            assert(occ(b, x - rb - 1, y));
            assert(false);
        }
        if rb > s {
            assert(occ(b, x - s - 1, y));
            assert(false);
        }
    } else {
        if rb == s {
            assert(!occ(b, (x - s) - 1, y));
            assert(!occ(b, (x - s) + s, y));
            assert(forall|j: int| x - s <= j < (x - s) + s ==> occ(b, j, y));
            assert(false);
        }
    }
}

// ---------------------------------------------------------------------------
// Executable counters.
// ---------------------------------------------------------------------------

/// Whether any of the four orthogonal neighbors of in-grid cell (x, y) is
/// occupied; neighbors outside the grid count as unoccupied.
pub fn has_neighbors(field: &Battlefield, x: usize, y: usize) -> (r: bool)
    requires
        field.wf(),
        x < FIELD_SIZE,
        y < FIELD_SIZE,
    ensures
        r == (occ(field@, x as int - 1, y as int) || occ(field@, x as int + 1, y as int) || occ(
            field@,
            x as int,
            y as int - 1,
        ) || occ(field@, x as int, y as int + 1)),
{
    let left = x >= 1 && field.is_occ(x - 1, y);
    let right = field.is_occ(x + 1, y);
    let up = y >= 1 && field.is_occ(x, y - 1);
    let down = field.is_occ(x, y + 1);
    left || right || up || down
}

/// Counts the isolated cells: length-one ships.
fn count_isolated(field: &Battlefield) -> (r: u8)
    requires
        field.wf(),
    ensures
        r as int == isolated_count(field@),
{
    let mut count: u8 = 0;
    let mut x: usize = 0;
    while x < FIELD_SIZE
        invariant
            field.wf(),
            x <= 10,
            count as int == iso_count_to(field@, x as int * 10),
            count as int <= x as int * 10,
        decreases 10 - x,
    {
        let mut y: usize = 0;
        while y < FIELD_SIZE
            invariant
                field.wf(),
                x < 10,
                y <= 10,
                count as int == iso_count_to(field@, x as int * 10 + y as int),
                count as int <= x as int * 10 + y as int,
            decreases 10 - y,
        {
            let c = field.is_occ(x, y);
            let n = has_neighbors(field, x, y);
            proof {
                lemma_div10(x as int, y as int);
                assert((x as int * 10 + y as int) / 10 == x as int);
            }
            if c && !n {
                count = count + 1;
            }
            y = y + 1;
        }
        x = x + 1;
    }
    count
}

/// Counts the maximal y-direction runs of exactly `ship_size` cells, the
/// first sweep of the run-length counter.
fn count_runs_y(field: &Battlefield, ship_size: u8) -> (r: u8)
    requires
        field.wf(),
        2 <= ship_size,
    ensures
        r as int == runs_y_to(field@, ship_size as int, 100),
{
    let s = ship_size;
    let mut found: u8 = 0;
    let mut x: usize = 0;
    while x < FIELD_SIZE
        invariant
            field.wf(),
            s == ship_size,
            2 <= s,
            x <= 10,
            found as int == runs_y_to(field@, s as int, x as int * 10),
            found as int <= x as int * 10,
        decreases 10 - x,
    {
        let mut cur: u8 = 0;
        let mut y: usize = 0;
        while y < FIELD_SIZE
            invariant
                field.wf(),
                s == ship_size,
                2 <= s,
                x < 10,
                y <= 10,
                cur as int == run_back_y(field@, x as int, y as int),
                cur as int <= y as int,
                found as int == runs_y_to(
                    field@,
                    s as int,
                    if y as int >= s as int {
                        x as int * 10 + y as int - s as int
                    } else {
                        x as int * 10
                    },
                ),
                found as int <= x as int * 10 + y as int,
            decreases 10 - y,
        {
            if field.is_occ(x, y) {
                proof {
                    let b = field@;
                    let xi = x as int;
                    let yi = y as int;
                    let si = s as int;
                    if yi >= si {
                        let k = xi * 10 + yi - si;
                        lemma_div10(xi, yi - si);
                        assert(!run_y_at(b, xi, yi - si, si));
                        assert(runs_y_to(b, si, k + 1) == runs_y_to(b, si, k));
                    }
                }
                cur = cur + 1;
            } else {
                proof {
                    let b = field@;
                    let xi = x as int;
                    let yi = y as int;
                    let si = s as int;
                    lemma_run_tally_y(b, xi, yi, si);
                    if yi >= si {
                        lemma_div10(xi, yi - si);
                    }
                }
                if cur == s {
                    found = found + 1;
                }
                cur = 0;
            }
            y = y + 1;
        }
        proof {
            let b = field@;
            let xi = x as int;
            let si = s as int;
            lemma_run_tally_y(b, xi, 10, si);
            if si <= 10 {
                lemma_div10(xi, 10 - si);
            }
        }
        if cur == s {
            found = found + 1;
        }
        proof {
            let b = field@;
            let xi = x as int;
            let si = s as int;
            let start = if si <= 10 {
                xi * 10 + 11 - si
            } else {
                xi * 10
            };
            assert forall|k: int| start <= k < (xi + 1) * 10 implies !run_y_start_at(
                b,
                si,
                k,
            ) by {
                lemma_div10(xi, k - xi * 10);
                let yy = k % 10;
                assert(yy + si > 10);
                if run_y_at(b, xi, yy, si) {
                    assert(occ(b, xi, 10));
                    assert(false);
                }
            }
            lemma_runs_y_to_constant(b, si, start, (xi + 1) * 10);
            lemma_runs_y_to_bound(b, si, (xi + 1) * 10);
        }
        x = x + 1;
    }
    found
}

/// Counts the maximal x-direction runs of exactly `ship_size` cells, the
/// second sweep of the run-length counter.
fn count_runs_x(field: &Battlefield, ship_size: u8) -> (r: u8)
    requires
        field.wf(),
        2 <= ship_size,
    ensures
        r as int == runs_x_to(field@, ship_size as int, 100),
{
    let s = ship_size;
    let mut found: u8 = 0;
    let mut y: usize = 0;
    while y < FIELD_SIZE
        invariant
            field.wf(),
            s == ship_size,
            2 <= s,
            y <= 10,
            found as int == runs_x_to(field@, s as int, y as int * 10),
            found as int <= y as int * 10,
        decreases 10 - y,
    {
        let mut cur: u8 = 0;
        let mut x: usize = 0;
        while x < FIELD_SIZE
            invariant
                field.wf(),
                s == ship_size,
                2 <= s,
                y < 10,
                x <= 10,
                cur as int == run_back_x(field@, x as int, y as int),
                cur as int <= x as int,
                found as int == runs_x_to(
                    field@,
                    s as int,
                    if x as int >= s as int {
                        y as int * 10 + x as int - s as int
                    } else {
                        y as int * 10
                    },
                ),
                found as int <= y as int * 10 + x as int,
            decreases 10 - x,
        {
            if field.is_occ(x, y) {
                proof {
                    let b = field@;
                    let xi = x as int;
                    let yi = y as int;
                    let si = s as int;
                    if xi >= si {
                        let k = yi * 10 + xi - si;
                        lemma_div10(yi, xi - si);
                        assert(!run_x_at(b, xi - si, yi, si));
                        assert(runs_x_to(b, si, k + 1) == runs_x_to(b, si, k));
                    }
                }
                cur = cur + 1;
            } else {
                proof {
                    let b = field@;
                    let xi = x as int;
                    let yi = y as int;
                    let si = s as int;
                    lemma_run_tally_x(b, xi, yi, si);
                    if xi >= si {
                        lemma_div10(yi, xi - si);
                    }
                }
                if cur == s {
                    found = found + 1;
                }
                cur = 0;
            }
            x = x + 1;
        }
        proof {
            let b = field@;
            let yi = y as int;
            let si = s as int;
            lemma_run_tally_x(b, 10, yi, si);
            if si <= 10 {
                lemma_div10(yi, 10 - si);
            }
        }
        if cur == s {
            found = found + 1;
        }
        proof {
            let b = field@;
            let yi = y as int;
            let si = s as int;
            let start = if si <= 10 {
                yi * 10 + 11 - si
            } else {
                yi * 10
            };
            assert forall|k: int| start <= k < (yi + 1) * 10 implies !run_x_start_at(
                b,
                si,
                k,
            ) by {
                lemma_div10(yi, k - yi * 10);
                let xx = k % 10;
                assert(xx + si > 10);
                if run_x_at(b, xx, yi, si) {
                    assert(occ(b, 10, yi));
                    assert(false);
                }
            }
            lemma_runs_x_to_constant(b, si, start, (yi + 1) * 10);
            lemma_runs_x_to_bound(b, si, (yi + 1) * 10);
        }
        y = y + 1;
    }
    found
}

/// Counts how many ships of exactly the given length appear in the field:
/// isolated cells for length one, maximal straight runs of occupied cells
/// over both sweeps for lengths of two and more.
pub fn count_ship_in_field(field: &Battlefield, ship_size: u8) -> (r: u8)
    requires
        field.wf(),
        1 <= ship_size,
    ensures
        r as int == ship_count(field@, ship_size as int),
{
    if ship_size == 1 {
        count_isolated(field)
    } else {
        let a = count_runs_y(field, ship_size);
        let c = count_runs_x(field, ship_size);
        proof {
            lemma_runs_y_to_bound(field@, ship_size as int, 100);
            lemma_runs_x_to_bound(field@, ship_size as int, 100);
        }
        a + c
    }
}

// Abbreviations for reasoning about one horizontally placed ship.
spec fn hship_x0(s: Ship) -> int {
    s.xy.0 as int
}

spec fn hship_y0(s: Ship) -> int {
    s.xy.1 as int
}

spec fn hship_l(s: Ship) -> int {
    s.shape.size as int
}

/// Cell (x, y) is one of the cells of the horizontal ship.
spec fn hcovers(s: Ship, x: int, y: int) -> bool {
    y == hship_y0(s) && hship_x0(s) <= x < hship_x0(s) + hship_l(s)
}

/// Cell (x, y) lies within one step, diagonals included, of the horizontal
/// ship.
spec fn hband(s: Ship, x: int, y: int) -> bool {
    hship_x0(s) - 1 <= x <= hship_x0(s) + hship_l(s) && hship_y0(s) - 1 <= y <= hship_y0(s) + 1
}

/// What placing one horizontal ship means on the ground: which cells it
/// covers, that its whole band was clear before, and how the new board's
/// occupancy reads.
proof fn lemma_place_horiz_facts(b: Seq<CellType>, b2: Seq<CellType>, s: Ship)
    requires
        b.len() == 100,
        1 <= s.shape.size,
        s.shape.dxy == XY(1, 0),
        valid_shape(s.shape),
        place_ok(b, s),
        board_with_ship(b, b2, s),
    ensures
        hship_x0(s) + hship_l(s) <= 10,
        0 <= hship_y0(s) < 10,
        forall|x: int, y: int| #[trigger] covers(s, x, y) <==> hcovers(s, x, y),
        forall|x: int, y: int|
            0 <= x < 10 && 0 <= y < 10 ==> #[trigger] occ(b2, x, y) == (occ(b, x, y) || hcovers(
                s,
                x,
                y,
            )),
        forall|x: int, y: int| hband(s, x, y) ==> !(#[trigger] occ(b, x, y)),
{
    let l = hship_l(s);
    let x0 = hship_x0(s);
    let y0 = hship_y0(s);
    assert forall|k: int| 0 <= k < l implies #[trigger] ship_cell_x(s, k) == x0 + k
        && ship_cell_y(s, k) == y0 by {
        assert(s.shape.dxy.0 == 1 && s.shape.dxy.1 == 0);
    }
    assert(ship_cell_x(s, l - 1) == x0 + l - 1);
    assert(ship_cell_x(s, l - 1) < 10);
    assert(ship_cell_y(s, 0) < 10);
    assert forall|x: int, y: int| #[trigger] covers(s, x, y) implies hcovers(s, x, y) by {
        let k = choose|k: int|
            0 <= k < l && #[trigger] ship_cell_x(s, k) == x && ship_cell_y(s, k) == y;
    }
    assert forall|x: int, y: int| hcovers(s, x, y) implies #[trigger] covers(s, x, y) by {
        assert(ship_cell_x(s, x - x0) == x && ship_cell_y(s, x - x0) == y0);
        assert(covers_upto(s, l, x, y));
    }
    assert forall|x: int, y: int| hband(s, x, y) implies !(#[trigger] occ(b, x, y)) by {
        let cx = if x < x0 {
            x0
        } else if x > x0 + l - 1 {
            x0 + l - 1
        } else {
            x
        };
        assert(ship_cell_x(s, cx - x0) == cx && ship_cell_y(s, cx - x0) == y0);
        assert(!box_occ(b, cx, y0));
    }
}

/// The x-direction runs of the new board are those of the old one plus the
/// ship's own, at its start position and its exact length.
proof fn lemma_place_horiz_pw_x(b: Seq<CellType>, b2: Seq<CellType>, s: Ship, len: int, kk: int)
    requires
        b.len() == 100,
        1 <= s.shape.size,
        s.shape.dxy == XY(1, 0),
        valid_shape(s.shape),
        place_ok(b, s),
        board_with_ship(b, b2, s),
        1 <= len,
        0 <= kk < 100,
    ensures
        run_x_start_at(b2, len, kk) == (run_x_start_at(b, len, kk) || (len == hship_l(s) && kk
            == hship_y0(s) * 10 + hship_x0(s))),
{
    lemma_place_horiz_facts(b, b2, s);
    let l = hship_l(s);
    let x0 = hship_x0(s);
    let y0 = hship_y0(s);
    let xx = kk % 10;
    let yy = kk / 10;
    vstd::arithmetic::div_mod::lemma_fundamental_div_mod(kk, 10);
    vstd::arithmetic::div_mod::lemma_mod_bound(kk, 10);
    assert(0 <= xx < 10 && 0 <= yy < 10);
    let k0 = y0 * 10 + x0;
    lemma_div10(y0, x0);
    // The ship's own run stands in the new board.
    if len == l && kk == k0 {
        assert(xx == x0 && yy == y0);
        assert forall|j: int| x0 <= j < x0 + l implies occ(b2, j, y0) by {
            assert(hcovers(s, j, y0));
        }
        assert(!occ(b2, x0 - 1, y0)) by {
            if 0 <= x0 - 1 {
                assert(hband(s, x0 - 1, y0));
            }
        }
        assert(!occ(b2, x0 + l, y0)) by {
            if x0 + l < 10 {
                assert(hband(s, x0 + l, y0));
            }
        }
        assert(run_x_at(b2, x0, y0, l));
    }
    // Every run of the old board survives untouched.
    if run_x_at(b, xx, yy, len) {
        assert forall|j: int| xx <= j < xx + len implies occ(b2, j, yy) by {
            assert(occ(b, j, yy));
        }
        assert(!occ(b2, xx - 1, yy)) by {
            if hcovers(s, xx - 1, yy) {
                assert(occ(b, xx, yy));
                assert(hband(s, xx, yy));
                assert(false);
            }
        }
        assert(!occ(b2, xx + len, yy)) by {
            if hcovers(s, xx + len, yy) {
                assert(occ(b, xx + len - 1, yy));
                assert(hband(s, xx + len - 1, yy));
                assert(false);
            }
        }
        assert(run_x_at(b2, xx, yy, len));
    }
    // A run of the new board is an old one, or the ship itself.
    if run_x_at(b2, xx, yy, len) {
        if yy == y0 && xx < x0 + l && x0 < xx + len {
            // It meets the ship's segment, so it is exactly the ship.
            if xx < x0 {
                assert(occ(b2, x0 - 1, y0));
                assert(hband(s, x0 - 1, y0));
                assert(!hcovers(s, x0 - 1, y0));
                assert(false);
            }
            if xx > x0 {
                assert(hcovers(s, xx - 1, y0));
                assert(occ(b2, xx - 1, y0));
                assert(false);
            }
            if len > l {
                assert(occ(b2, x0 + l, y0));
                assert(hband(s, x0 + l, y0));
                assert(!hcovers(s, x0 + l, y0));
                assert(false);
            }
            if len < l {
                assert(hcovers(s, x0 + len, y0));
                assert(occ(b2, x0 + len, y0));
                assert(false);
            }
            assert(len == l && xx == x0 && yy == y0);
            assert(kk == k0);
        } else {
            // It stays clear of the ship's cells, so it stood before.
            assert forall|j: int| xx <= j < xx + len implies occ(b, j, yy) by {
                assert(occ(b2, j, yy));
                assert(!hcovers(s, j, yy));
            }
            assert(!occ(b, xx - 1, yy)) by {
                if occ(b, xx - 1, yy) {
                    assert(occ(b2, xx - 1, yy));
                    assert(false);
                }
            }
            assert(!occ(b, xx + len, yy)) by {
                if occ(b, xx + len, yy) {
                    assert(occ(b2, xx + len, yy));
                    assert(false);
                }
            }
            assert(run_x_at(b, xx, yy, len));
        }
    }
}

/// The y-direction runs of length two and more are untouched by placing a
/// horizontal ship: its cells' one-cell cross-sections never form one.
proof fn lemma_place_horiz_pw_y(b: Seq<CellType>, b2: Seq<CellType>, s: Ship, len: int, kk: int)
    requires
        b.len() == 100,
        1 <= s.shape.size,
        s.shape.dxy == XY(1, 0),
        valid_shape(s.shape),
        place_ok(b, s),
        board_with_ship(b, b2, s),
        2 <= len,
        0 <= kk < 100,
    ensures
        run_y_start_at(b2, len, kk) == run_y_start_at(b, len, kk),
{
    lemma_place_horiz_facts(b, b2, s);
    let xx = kk / 10;
    let yy = kk % 10;
    vstd::arithmetic::div_mod::lemma_fundamental_div_mod(kk, 10);
    vstd::arithmetic::div_mod::lemma_mod_bound(kk, 10);
    assert(0 <= xx < 10 && 0 <= yy < 10);
    if run_y_at(b, xx, yy, len) {
        assert forall|j: int| yy <= j < yy + len implies occ(b2, xx, j) by {
            assert(occ(b, xx, j));
        }
        assert(!occ(b2, xx, yy - 1)) by {
            if hcovers(s, xx, yy - 1) {
                assert(occ(b, xx, yy));
                assert(hband(s, xx, yy));
                assert(false);
            }
        }
        assert(!occ(b2, xx, yy + len)) by {
            if hcovers(s, xx, yy + len) {
                assert(occ(b, xx, yy + len - 1));
                assert(hband(s, xx, yy + len - 1));
                assert(false);
            }
        }
        assert(run_y_at(b2, xx, yy, len));
    }
    if run_y_at(b2, xx, yy, len) {
        assert forall|j: int| yy <= j < yy + len implies occ(b, xx, j) by {
            assert(occ(b2, xx, j));
            if hcovers(s, xx, j) {
                if yy < j {
                    assert(occ(b2, xx, j - 1));
                    assert(!hcovers(s, xx, j - 1));
                    assert(occ(b, xx, j - 1));
                    assert(hband(s, xx, j - 1));
                    assert(false);
                } else {
                    assert(occ(b2, xx, j + 1));
                    assert(!hcovers(s, xx, j + 1));
                    assert(occ(b, xx, j + 1));
                    assert(hband(s, xx, j + 1));
                    assert(false);
                }
            }
        }
        assert(!occ(b, xx, yy - 1)) by {
            if occ(b, xx, yy - 1) {
                assert(occ(b2, xx, yy - 1));
                assert(false);
            }
        }
        assert(!occ(b, xx, yy + len)) by {
            if occ(b, xx, yy + len) {
                assert(occ(b2, xx, yy + len));
                assert(false);
            }
        }
        assert(run_y_at(b, xx, yy, len));
    }
}

/// The isolated cells are untouched by placing a horizontal ship of length
/// two or more: each of its cells has an occupied neighbor in the ship.
proof fn lemma_place_horiz_pw_iso(b: Seq<CellType>, b2: Seq<CellType>, s: Ship, kk: int)
    requires
        b.len() == 100,
        2 <= s.shape.size,
        s.shape.dxy == XY(1, 0),
        valid_shape(s.shape),
        place_ok(b, s),
        board_with_ship(b, b2, s),
        0 <= kk < 100,
    ensures
        iso_at(b2, kk) == iso_at(b, kk),
{
    lemma_place_horiz_facts(b, b2, s);
    let l = hship_l(s);
    let x0 = hship_x0(s);
    let y0 = hship_y0(s);
    let x = kk / 10;
    let y = kk % 10;
    vstd::arithmetic::div_mod::lemma_fundamental_div_mod(kk, 10);
    vstd::arithmetic::div_mod::lemma_mod_bound(kk, 10);
    assert(0 <= x < 10 && 0 <= y < 10);
    if hcovers(s, x, y) {
        assert(hband(s, x, y));
        assert(!occ(b, x, y));
        if x > x0 {
            assert(hcovers(s, x - 1, y0));
            assert(occ(b2, x - 1, y0));
        } else {
            assert(hcovers(s, x + 1, y0));
            assert(occ(b2, x + 1, y0));
        }
        assert(!isolated(b2, x, y));
        assert(!isolated(b, x, y));
    } else {
        if occ(b, x, y) {
            assert(occ(b2, x, y));
            assert(occ(b2, x - 1, y) == occ(b, x - 1, y)) by {
                if hcovers(s, x - 1, y) {
                    assert(hband(s, x, y));
                    assert(false);
                }
            }
            assert(occ(b2, x + 1, y) == occ(b, x + 1, y)) by {
                if hcovers(s, x + 1, y) {
                    assert(hband(s, x, y));
                    assert(false);
                }
            }
            assert(occ(b2, x, y - 1) == occ(b, x, y - 1)) by {
                if hcovers(s, x, y - 1) {
                    assert(hband(s, x, y));
                    assert(false);
                }
            }
            assert(occ(b2, x, y + 1) == occ(b, x, y + 1)) by {
                if hcovers(s, x, y + 1) {
                    assert(hband(s, x, y));
                    assert(false);
                }
            }
        } else {
            assert(!occ(b2, x, y));
        }
    }
}

proof fn lemma_runs_x_to_shift(b: Seq<CellType>, b2: Seq<CellType>, len: int, k0: int, k: int)
    requires
        0 <= k0 < 100,
        k <= 100,
        forall|kk: int|
            0 <= kk < 100 && kk != k0 ==> #[trigger] run_x_start_at(b2, len, kk) == run_x_start_at(
                b,
                len,
                kk,
            ),
        run_x_start_at(b2, len, k0),
        !run_x_start_at(b, len, k0),
    ensures
        runs_x_to(b2, len, k) == runs_x_to(b, len, k) + if k > k0 {
            1int
        } else {
            0int
        },
    decreases k,
{
    if k > 0 {
        lemma_runs_x_to_shift(b, b2, len, k0, k - 1);
    }
}

proof fn lemma_runs_x_to_equal(b: Seq<CellType>, b2: Seq<CellType>, len: int, k: int)
    requires
        k <= 100,
        forall|kk: int|
            0 <= kk < 100 ==> #[trigger] run_x_start_at(b2, len, kk) == run_x_start_at(b, len, kk),
    ensures
        runs_x_to(b2, len, k) == runs_x_to(b, len, k),
    decreases k,
{
    if k > 0 {
        lemma_runs_x_to_equal(b, b2, len, k - 1);
    }
}

proof fn lemma_runs_y_to_equal(b: Seq<CellType>, b2: Seq<CellType>, len: int, k: int)
    requires
        k <= 100,
        forall|kk: int|
            0 <= kk < 100 ==> #[trigger] run_y_start_at(b2, len, kk) == run_y_start_at(b, len, kk),
    ensures
        runs_y_to(b2, len, k) == runs_y_to(b, len, k),
    decreases k,
{
    if k > 0 {
        lemma_runs_y_to_equal(b, b2, len, k - 1);
    }
}

proof fn lemma_iso_count_equal(b: Seq<CellType>, b2: Seq<CellType>, k: int)
    requires
        k <= 100,
        forall|kk: int| 0 <= kk < 100 ==> #[trigger] iso_at(b2, kk) == iso_at(b, kk),
    ensures
        iso_count_to(b2, k) == iso_count_to(b, k),
    decreases k,
{
    if k > 0 {
        lemma_iso_count_equal(b, b2, k - 1);
    }
}

/// One step of the generator-to-verifier story: placing a horizontally
/// directed ship on a spot the placement rule allows raises the count of
/// exactly its own length by one, and leaves the count of every other
/// length — the isolated cells included — unchanged.
pub proof fn lemma_place_horizontal_ship_increments_count(
    b: Seq<CellType>,
    b2: Seq<CellType>,
    s: Ship,
)
    requires
        b.len() == 100,
        1 <= s.shape.size,
        s.shape.dxy == XY(1, 0),
        valid_shape(s.shape),
        place_ok(b, s),
        board_with_ship(b, b2, s),
    ensures
        forall|len: int|
            1 <= len ==> #[trigger] ship_count(b2, len) == ship_count(b, len) + (if len
                == s.shape.size as int {
                1int
            } else {
                0int
            }),
{
    let l = hship_l(s);
    let x0 = hship_x0(s);
    let y0 = hship_y0(s);
    let k0 = y0 * 10 + x0;
    lemma_place_horiz_facts(b, b2, s);
    lemma_div10(y0, x0);
    assert forall|len: int| 1 <= len implies #[trigger] ship_count(b2, len) == ship_count(b, len)
        + (if len == l {
        1int
    } else {
        0int
    }) by {
        if len == 1 {
            if l == 1 {
                lemma_place_single_increments_isolated_count(b, b2, s);
            } else {
                assert forall|kk: int| 0 <= kk < 100 implies #[trigger] iso_at(b2, kk) == iso_at(
                    b,
                    kk,
                ) by {
                    lemma_place_horiz_pw_iso(b, b2, s, kk);
                }
                lemma_iso_count_equal(b, b2, 100);
            }
        } else {
            assert forall|kk: int| 0 <= kk < 100 implies #[trigger] run_y_start_at(b2, len, kk)
                == run_y_start_at(b, len, kk) by {
                lemma_place_horiz_pw_y(b, b2, s, len, kk);
            }
            lemma_runs_y_to_equal(b, b2, len, 100);
            if len == l {
                assert forall|kk: int| 0 <= kk < 100 && kk != k0 implies #[trigger] run_x_start_at(
                    b2,
                    len,
                    kk,
                ) == run_x_start_at(b, len, kk) by {
                    lemma_place_horiz_pw_x(b, b2, s, len, kk);
                }
                lemma_place_horiz_pw_x(b, b2, s, len, k0);
                assert(run_x_start_at(b2, len, k0));
                assert(!run_x_start_at(b, len, k0)) by {
                    if run_x_at(b, x0, y0, len) {
                        assert(occ(b, x0, y0));
                        assert(hband(s, x0, y0));
                        assert(false);
                    }
                }
                lemma_runs_x_to_shift(b, b2, len, k0, 100);
            } else {
                assert forall|kk: int| 0 <= kk < 100 implies #[trigger] run_x_start_at(b2, len, kk)
                    == run_x_start_at(b, len, kk) by {
                    lemma_place_horiz_pw_x(b, b2, s, len, kk);
                }
                lemma_runs_x_to_equal(b, b2, len, 100);
            }
        }
    }
}

/// Cell (x, y) is one of the cells of the vertical ship.
spec fn vcovers(s: Ship, x: int, y: int) -> bool {
    x == hship_x0(s) && hship_y0(s) <= y < hship_y0(s) + hship_l(s)
}

/// Cell (x, y) lies within one step, diagonals included, of the vertical
/// ship.
spec fn vband(s: Ship, x: int, y: int) -> bool {
    hship_x0(s) - 1 <= x <= hship_x0(s) + 1 && hship_y0(s) - 1 <= y <= hship_y0(s) + hship_l(s)
}

/// The vertical counterpart of `lemma_place_horiz_facts`.
proof fn lemma_place_vert_facts(b: Seq<CellType>, b2: Seq<CellType>, s: Ship)
    requires
        b.len() == 100,
        1 <= s.shape.size,
        s.shape.dxy == XY(0, 1),
        valid_shape(s.shape),
        place_ok(b, s),
        board_with_ship(b, b2, s),
    ensures
        hship_y0(s) + hship_l(s) <= 10,
        0 <= hship_x0(s) < 10,
        forall|x: int, y: int| #[trigger] covers(s, x, y) <==> vcovers(s, x, y),
        forall|x: int, y: int|
            0 <= x < 10 && 0 <= y < 10 ==> #[trigger] occ(b2, x, y) == (occ(b, x, y) || vcovers(
                s,
                x,
                y,
            )),
        forall|x: int, y: int| vband(s, x, y) ==> !(#[trigger] occ(b, x, y)),
{
    let l = hship_l(s);
    let x0 = hship_x0(s);
    let y0 = hship_y0(s);
    assert forall|k: int| 0 <= k < l implies #[trigger] ship_cell_x(s, k) == x0 && ship_cell_y(
        s,
        k,
    ) == y0 + k by {
        assert(s.shape.dxy.0 == 0 && s.shape.dxy.1 == 1);
    }
    assert(ship_cell_x(s, l - 1) == x0 && ship_cell_y(s, l - 1) == y0 + l - 1);
    assert(ship_cell_y(s, l - 1) < 10);
    assert(ship_cell_x(s, 0) < 10);
    assert forall|x: int, y: int| #[trigger] covers(s, x, y) implies vcovers(s, x, y) by {
        let k = choose|k: int|
            0 <= k < l && #[trigger] ship_cell_x(s, k) == x && ship_cell_y(s, k) == y;
    }
    assert forall|x: int, y: int| vcovers(s, x, y) implies #[trigger] covers(s, x, y) by {
        assert(ship_cell_x(s, y - y0) == x0 && ship_cell_y(s, y - y0) == y);
        assert(covers_upto(s, l, x, y));
    }
    assert forall|x: int, y: int| vband(s, x, y) implies !(#[trigger] occ(b, x, y)) by {
        let cy = if y < y0 {
            y0
        } else if y > y0 + l - 1 {
            y0 + l - 1
        } else {
            y
        };
        assert(ship_cell_x(s, cy - y0) == x0 && ship_cell_y(s, cy - y0) == cy);
        assert(!box_occ(b, x0, cy));
    }
}

/// The y-direction runs of the new board are those of the old one plus the
/// vertical ship's own, at its start position and its exact length.
proof fn lemma_place_vert_pw_y(b: Seq<CellType>, b2: Seq<CellType>, s: Ship, len: int, kk: int)
    requires
        b.len() == 100,
        1 <= s.shape.size,
        s.shape.dxy == XY(0, 1),
        valid_shape(s.shape),
        place_ok(b, s),
        board_with_ship(b, b2, s),
        1 <= len,
        0 <= kk < 100,
    ensures
        run_y_start_at(b2, len, kk) == (run_y_start_at(b, len, kk) || (len == hship_l(s) && kk
            == hship_x0(s) * 10 + hship_y0(s))),
{
    lemma_place_vert_facts(b, b2, s);
    let l = hship_l(s);
    let x0 = hship_x0(s);
    let y0 = hship_y0(s);
    let xx = kk / 10;
    let yy = kk % 10;
    vstd::arithmetic::div_mod::lemma_fundamental_div_mod(kk, 10);
    vstd::arithmetic::div_mod::lemma_mod_bound(kk, 10);
    assert(0 <= xx < 10 && 0 <= yy < 10);
    let k0 = x0 * 10 + y0;
    lemma_div10(x0, y0);
    if len == l && kk == k0 {
        assert(xx == x0 && yy == y0);
        assert forall|j: int| y0 <= j < y0 + l implies occ(b2, x0, j) by {
            assert(vcovers(s, x0, j));
        }
        assert(!occ(b2, x0, y0 - 1)) by {
            if 0 <= y0 - 1 {
                assert(vband(s, x0, y0 - 1));
            }
        }
        assert(!occ(b2, x0, y0 + l)) by {
            if y0 + l < 10 {
                assert(vband(s, x0, y0 + l));
            }
        }
        assert(run_y_at(b2, x0, y0, l));
    }
    if run_y_at(b, xx, yy, len) {
        assert forall|j: int| yy <= j < yy + len implies occ(b2, xx, j) by {
            assert(occ(b, xx, j));
        }
        assert(!occ(b2, xx, yy - 1)) by {
            if vcovers(s, xx, yy - 1) {
                assert(occ(b, xx, yy));
                assert(vband(s, xx, yy));
                assert(false);
            }
        }
        assert(!occ(b2, xx, yy + len)) by {
            if vcovers(s, xx, yy + len) {
                assert(occ(b, xx, yy + len - 1));
                assert(vband(s, xx, yy + len - 1));
                assert(false);
            }
        }
        assert(run_y_at(b2, xx, yy, len));
    }
    if run_y_at(b2, xx, yy, len) {
        if xx == x0 && yy < y0 + l && y0 < yy + len {
            if yy < y0 {
                assert(occ(b2, x0, y0 - 1));
                assert(vband(s, x0, y0 - 1));
                assert(!vcovers(s, x0, y0 - 1));
                assert(false);
            }
            if yy > y0 {
                assert(vcovers(s, x0, yy - 1));
                assert(occ(b2, x0, yy - 1));
                assert(false);
            }
            if len > l {
                assert(occ(b2, x0, y0 + l));
                assert(vband(s, x0, y0 + l));
                assert(!vcovers(s, x0, y0 + l));
                assert(false);
            }
            if len < l {
                assert(vcovers(s, x0, y0 + len));
                assert(occ(b2, x0, y0 + len));
                assert(false);
            }
            assert(len == l && xx == x0 && yy == y0);
            assert(kk == k0);
        } else {
            assert forall|j: int| yy <= j < yy + len implies occ(b, xx, j) by {
                assert(occ(b2, xx, j));
                assert(!vcovers(s, xx, j));
            }
            assert(!occ(b, xx, yy - 1)) by {
                if occ(b, xx, yy - 1) {
                    assert(occ(b2, xx, yy - 1));
                    assert(false);
                }
            }
            assert(!occ(b, xx, yy + len)) by {
                if occ(b, xx, yy + len) {
                    assert(occ(b2, xx, yy + len));
                    assert(false);
                }
            }
            assert(run_y_at(b, xx, yy, len));
        }
    }
}

/// The x-direction runs of length two and more are untouched by placing a
/// vertical ship.
proof fn lemma_place_vert_pw_x(b: Seq<CellType>, b2: Seq<CellType>, s: Ship, len: int, kk: int)
    requires
        b.len() == 100,
        1 <= s.shape.size,
        s.shape.dxy == XY(0, 1),
        valid_shape(s.shape),
        place_ok(b, s),
        board_with_ship(b, b2, s),
        2 <= len,
        0 <= kk < 100,
    ensures
        run_x_start_at(b2, len, kk) == run_x_start_at(b, len, kk),
{
    lemma_place_vert_facts(b, b2, s);
    let xx = kk % 10;
    let yy = kk / 10;
    vstd::arithmetic::div_mod::lemma_fundamental_div_mod(kk, 10);
    vstd::arithmetic::div_mod::lemma_mod_bound(kk, 10);
    assert(0 <= xx < 10 && 0 <= yy < 10);
    if run_x_at(b, xx, yy, len) {
        assert forall|j: int| xx <= j < xx + len implies occ(b2, j, yy) by {
            assert(occ(b, j, yy));
        }
        assert(!occ(b2, xx - 1, yy)) by {
            if vcovers(s, xx - 1, yy) {
                assert(occ(b, xx, yy));
                assert(vband(s, xx, yy));
                assert(false);
            }
        }
        assert(!occ(b2, xx + len, yy)) by {
            if vcovers(s, xx + len, yy) {
                assert(occ(b, xx + len - 1, yy));
                assert(vband(s, xx + len - 1, yy));
                assert(false);
            }
        }
        assert(run_x_at(b2, xx, yy, len));
    }
    if run_x_at(b2, xx, yy, len) {
        assert forall|j: int| xx <= j < xx + len implies occ(b, j, yy) by {
            assert(occ(b2, j, yy));
            if vcovers(s, j, yy) {
                if xx < j {
                    assert(occ(b2, j - 1, yy));
                    assert(!vcovers(s, j - 1, yy));
                    assert(occ(b, j - 1, yy));
                    assert(vband(s, j - 1, yy));
                    assert(false);
                } else {
                    assert(occ(b2, j + 1, yy));
                    assert(!vcovers(s, j + 1, yy));
                    assert(occ(b, j + 1, yy));
                    assert(vband(s, j + 1, yy));
                    assert(false);
                }
            }
        }
        assert(!occ(b, xx - 1, yy)) by {
            if occ(b, xx - 1, yy) {
                assert(occ(b2, xx - 1, yy));
                assert(false);
            }
        }
        assert(!occ(b, xx + len, yy)) by {
            if occ(b, xx + len, yy) {
                assert(occ(b2, xx + len, yy));
                assert(false);
            }
        }
        assert(run_x_at(b, xx, yy, len));
    }
}

/// The isolated cells are untouched by placing a vertical ship of length
/// two or more.
proof fn lemma_place_vert_pw_iso(b: Seq<CellType>, b2: Seq<CellType>, s: Ship, kk: int)
    requires
        b.len() == 100,
        2 <= s.shape.size,
        s.shape.dxy == XY(0, 1),
        valid_shape(s.shape),
        place_ok(b, s),
        board_with_ship(b, b2, s),
        0 <= kk < 100,
    ensures
        iso_at(b2, kk) == iso_at(b, kk),
{
    lemma_place_vert_facts(b, b2, s);
    let x0 = hship_x0(s);
    let y0 = hship_y0(s);
    let x = kk / 10;
    let y = kk % 10;
    vstd::arithmetic::div_mod::lemma_fundamental_div_mod(kk, 10);
    vstd::arithmetic::div_mod::lemma_mod_bound(kk, 10);
    assert(0 <= x < 10 && 0 <= y < 10);
    if vcovers(s, x, y) {
        assert(vband(s, x, y));
        assert(!occ(b, x, y));
        if y > y0 {
            assert(vcovers(s, x0, y - 1));
            assert(occ(b2, x0, y - 1));
        } else {
            assert(vcovers(s, x0, y + 1));
            assert(occ(b2, x0, y + 1));
        }
        assert(!isolated(b2, x, y));
        assert(!isolated(b, x, y));
    } else {
        if occ(b, x, y) {
            assert(occ(b2, x, y));
            assert(occ(b2, x - 1, y) == occ(b, x - 1, y)) by {
                if vcovers(s, x - 1, y) {
                    assert(vband(s, x, y));
                    assert(false);
                }
            }
            assert(occ(b2, x + 1, y) == occ(b, x + 1, y)) by {
                if vcovers(s, x + 1, y) {
                    assert(vband(s, x, y));
                    assert(false);
                }
            }
            assert(occ(b2, x, y - 1) == occ(b, x, y - 1)) by {
                if vcovers(s, x, y - 1) {
                    assert(vband(s, x, y));
                    assert(false);
                }
            }
            assert(occ(b2, x, y + 1) == occ(b, x, y + 1)) by {
                if vcovers(s, x, y + 1) {
                    assert(vband(s, x, y));
                    assert(false);
                }
            }
        } else {
            assert(!occ(b2, x, y));
        }
    }
}

proof fn lemma_runs_y_to_shift(b: Seq<CellType>, b2: Seq<CellType>, len: int, k0: int, k: int)
    requires
        0 <= k0 < 100,
        k <= 100,
        forall|kk: int|
            0 <= kk < 100 && kk != k0 ==> #[trigger] run_y_start_at(b2, len, kk) == run_y_start_at(
                b,
                len,
                kk,
            ),
        run_y_start_at(b2, len, k0),
        !run_y_start_at(b, len, k0),
    ensures
        runs_y_to(b2, len, k) == runs_y_to(b, len, k) + if k > k0 {
            1int
        } else {
            0int
        },
    decreases k,
{
    if k > 0 {
        lemma_runs_y_to_shift(b, b2, len, k0, k - 1);
    }
}

/// The vertical counterpart of the placement law: placing a vertically
/// directed ship raises the count of exactly its own length by one and
/// leaves every other length's count unchanged.
pub proof fn lemma_place_vertical_ship_increments_count(
    b: Seq<CellType>,
    b2: Seq<CellType>,
    s: Ship,
)
    requires
        b.len() == 100,
        1 <= s.shape.size,
        s.shape.dxy == XY(0, 1),
        valid_shape(s.shape),
        place_ok(b, s),
        board_with_ship(b, b2, s),
    ensures
        forall|len: int|
            1 <= len ==> #[trigger] ship_count(b2, len) == ship_count(b, len) + (if len
                == s.shape.size as int {
                1int
            } else {
                0int
            }),
{
    let l = hship_l(s);
    let x0 = hship_x0(s);
    let y0 = hship_y0(s);
    let k0 = x0 * 10 + y0;
    lemma_place_vert_facts(b, b2, s);
    lemma_div10(x0, y0);
    assert forall|len: int| 1 <= len implies #[trigger] ship_count(b2, len) == ship_count(b, len)
        + (if len == l {
        1int
    } else {
        0int
    }) by {
        if len == 1 {
            if l == 1 {
                lemma_place_single_increments_isolated_count(b, b2, s);
            } else {
                assert forall|kk: int| 0 <= kk < 100 implies #[trigger] iso_at(b2, kk) == iso_at(
                    b,
                    kk,
                ) by {
                    lemma_place_vert_pw_iso(b, b2, s, kk);
                }
                lemma_iso_count_equal(b, b2, 100);
            }
        } else {
            assert forall|kk: int| 0 <= kk < 100 implies #[trigger] run_x_start_at(b2, len, kk)
                == run_x_start_at(b, len, kk) by {
                lemma_place_vert_pw_x(b, b2, s, len, kk);
            }
            lemma_runs_x_to_equal(b, b2, len, 100);
            if len == l {
                assert forall|kk: int| 0 <= kk < 100 && kk != k0 implies #[trigger] run_y_start_at(
                    b2,
                    len,
                    kk,
                ) == run_y_start_at(b, len, kk) by {
                    lemma_place_vert_pw_y(b, b2, s, len, kk);
                }
                lemma_place_vert_pw_y(b, b2, s, len, k0);
                assert(run_y_start_at(b2, len, k0));
                assert(!run_y_start_at(b, len, k0)) by {
                    if run_y_at(b, x0, y0, len) {
                        assert(occ(b, x0, y0));
                        assert(vband(s, x0, y0));
                        assert(false);
                    }
                }
                lemma_runs_y_to_shift(b, b2, len, k0, 100);
            } else {
                assert forall|kk: int| 0 <= kk < 100 implies #[trigger] run_y_start_at(b2, len, kk)
                    == run_y_start_at(b, len, kk) by {
                    lemma_place_vert_pw_y(b, b2, s, len, kk);
                }
                lemma_runs_y_to_equal(b, b2, len, 100);
            }
        }
    }
}

proof fn lemma_iso_count_none(b: Seq<CellType>, k: int)
    requires
        forall|kk: int| 0 <= kk ==> !(#[trigger] iso_at(b, kk)),
    ensures
        iso_count_to(b, k) == 0,
    decreases k,
{
    if k > 0 {
        lemma_iso_count_none(b, k - 1);
    }
}

/// An empty board holds no ship of any length.
pub proof fn lemma_empty_board_counts(b: Seq<CellType>)
    requires
        b.len() == 100,
        forall|i: int| 0 <= i < 100 ==> b[i] == CellType::Empty,
    ensures
        forall|len: int| 1 <= len ==> #[trigger] ship_count(b, len) == 0,
{
    assert forall|len: int| 1 <= len implies #[trigger] ship_count(b, len) == 0 by {
        assert forall|kk: int| 0 <= kk implies !(#[trigger] iso_at(b, kk)) by {
            if isolated(b, kk / 10, kk % 10) {
                assert(occ(b, kk / 10, kk % 10));
                assert(false);
            }
        }
        lemma_iso_count_none(b, 100);
        assert forall|kk: int| 0 <= kk < 100 implies !(#[trigger] run_y_start_at(b, len, kk)) by {
            if run_y_at(b, kk / 10, kk % 10, len) {
                assert(occ(b, kk / 10, kk % 10));
                assert(false);
            }
        }
        lemma_runs_y_to_constant(b, len, 0, 100);
        assert forall|kk: int| 0 <= kk < 100 implies !(#[trigger] run_x_start_at(b, len, kk)) by {
            if run_x_at(b, kk % 10, kk / 10, len) {
                assert(occ(b, kk % 10, kk / 10));
                assert(false);
            }
        }
        lemma_runs_x_to_constant(b, len, 0, 100);
    }
}

/// The closing step of the generator-to-verifier story: a board that
/// carries exactly the game fleet's counts per length — as `generate`
/// guarantees of every board it returns — matches any fleet spec whose
/// entries declare those counts, so `verify` accepts the pair.
pub proof fn lemma_generated_counts_accepted(b: Seq<CellType>, ships: Seq<ShipType>)
    requires
        forall|len: int| 1 <= len ==> #[trigger] ship_count(b, len) == fleet_count(len),
        forall|i: int|
            0 <= i < ships.len() ==> (#[trigger] ships[i]).ship_size >= 1 && ships[i].count as int
                == fleet_count(ships[i].ship_size as int),
    ensures
        counts_match(b, ships),
{
    assert forall|i: int| 0 <= i < ships.len() implies ship_count(
        b,
        (#[trigger] ships[i]).ship_size as int,
    ) == ships[i].count as int by {
        assert(ship_count(b, ships[i].ship_size as int) == fleet_count(
            ships[i].ship_size as int,
        ));
    }
}

/// The mutation property, for ships that keep the placement rule's
/// clearance: a board holding a ship of some length in clear surroundings,
/// and the same board with that ship's run grown or cut to any other
/// length — all other cells fixed — cannot both match a fleet spec that
/// declares the original length.  Verification therefore rejects the
/// mutated board under the original spec.
pub proof fn lemma_mutated_ship_length_rejected(
    b0: Seq<CellType>,
    b: Seq<CellType>,
    b2: Seq<CellType>,
    s: Ship,
    s2: Ship,
    ships: Seq<ShipType>,
    i: int,
)
    requires
        b0.len() == 100,
        valid_shape(s.shape),
        valid_shape(s2.shape),
        place_ok(b0, s),
        place_ok(b0, s2),
        board_with_ship(b0, b, s),
        board_with_ship(b0, b2, s2),
        s2.shape.size != s.shape.size,
        0 <= i < ships.len(),
        ships[i].ship_size == s.shape.size,
        counts_match(b, ships),
    ensures
        !counts_match(b2, ships),
{
    let l = s.shape.size as int;
    if s.shape.dxy == XY(1, 0) {
        lemma_place_horizontal_ship_increments_count(b0, b, s);
    } else {
        lemma_place_vertical_ship_increments_count(b0, b, s);
    }
    if s2.shape.dxy == XY(1, 0) {
        lemma_place_horizontal_ship_increments_count(b0, b2, s2);
    } else {
        lemma_place_vertical_ship_increments_count(b0, b2, s2);
    }
    assert(ship_count(b, l) == ship_count(b0, l) + 1);
    assert(ship_count(b2, l) == ship_count(b0, l));
    assert(ship_count(b, l) == ships[i].count as int);
    if counts_match(b2, ships) {
        assert(ship_count(b2, (ships[i]).ship_size as int) == ships[i].count as int);
        assert(false);
    }
}

// ---------------------------------------------------------------------------
// The verifier.
// ---------------------------------------------------------------------------

/// A well-formed fleet spec: at least one entry, every length positive.
pub open spec fn fleet_spec_ok(ships: Seq<ShipType>) -> bool {
    ships.len() > 0 && forall|i: int| 0 <= i < ships.len() ==> (#[trigger] ships[i]).ship_size >= 1
}

/// Whether the board's actual ship count matches every declared entry.
pub open spec fn counts_match(b: Seq<CellType>, ships: Seq<ShipType>) -> bool {
    forall|i: int|
        0 <= i < ships.len() ==> ship_count(b, (#[trigger] ships[i]).ship_size as int)
            == ships[i].count as int
}

/// The outcome of a satisfiability check that ran to completion.
#[derive(Clone, PartialEq, Eq, Debug)]
pub enum Verdict {
    /// Every declared count matches the board.
    Accepted,
    /// Some equality constraint failed; carries the backend's label of the
    /// first unsatisfied constraint.
    Rejected(Option<String>),
}

/// ZK-SNARKS circuit for the Battleship game.  It takes a list of ships as
/// a public input and verifies the correctness of their presence in the
/// battlefield provided by the prover as a private input, i.e. it verifies
/// that the field was set according to the game rules without exposing the
/// field information.
pub struct BattleshipVerification {
    /// The public inputs to the circuit.
    pub ships: Vec<ShipType>,
    /// The private inputs to the circuit, i.e. the witness.
    pub field: Battlefield,
}

impl BattleshipVerification {
    /// Builds the circuit — the witness grid, the public fleet entries and
    /// one equality constraint per entry — and asks the backend whether it
    /// is satisfiable.  On a well-formed fleet spec the check always runs
    /// to a verdict, and accepts exactly when every declared count matches
    /// the board; a fleet spec with no entries or with a zero length is
    /// rejected before any allocation.
    pub fn verify(&self) -> (r: Result<Verdict, VerifyError>)
        requires
            self.field.wf(),
        ensures
            (r is Ok) <==> fleet_spec_ok(self.ships@),
            r matches Err(e) ==> e == VerifyError::InvalidFleetSpec,
            r matches Ok(v) ==> ((v is Accepted) <==> counts_match(self.field@, self.ships@)),
            r matches Ok(Verdict::Rejected(c)) ==> c is Some,
    {
        if self.ships.len() == 0 {
            return Err(VerifyError::InvalidFleetSpec);
        }
        let mut i: usize = 0;
        while i < self.ships.len()
            invariant
                i <= self.ships@.len(),
                forall|j: int| 0 <= j < i ==> (#[trigger] self.ships@[j]).ship_size >= 1,
            decreases self.ships@.len() - i,
        {
            if self.ships[i].ship_size == 0 {
                return Err(VerifyError::InvalidFleetSpec);
            }
            i = i + 1;
        }
        let mut sys = backend_new();
        let _board_vars = match allocate_board(&mut sys, &self.field) {
            Ok(vars) => vars,
            Err(e) => {
                return Err(e);
            },
        };
        let mut i: usize = 0;
        while i < self.ships.len()
            invariant
                self.field.wf(),
                i <= self.ships@.len(),
                fleet_spec_ok(self.ships@),
                cs_satisfiable(sys) <==> (forall|j: int|
                    0 <= j < i ==> ship_count(self.field@, (#[trigger] self.ships@[j]).ship_size
                        as int) == self.ships@[j].count as int),
            decreases self.ships@.len() - i,
        {
            let entry = self.ships[i];
            let ship = match allocate_fleet_entry(&mut sys, entry) {
                Ok(v) => v,
                Err(e) => {
                    return Err(e);
                },
            };
            let ships_count = count_ship_in_field(&self.field, entry.ship_size);
            let actual_ships = match allocate_public(&mut sys, ships_count) {
                Ok(v) => v,
                Err(e) => {
                    return Err(e);
                },
            };
            let eq = match boolean_equal(&mut sys, actual_ships, ship.count) {
                Ok(v) => v,
                Err(e) => {
                    return Err(e);
                },
            };
            match assert_equal_true(&mut sys, eq) {
                Ok(u) => u,
                Err(e) => {
                    return Err(e);
                },
            };
            i = i + 1;
        }
        let sat = match is_satisfiable(&sys) {
            Ok(s) => s,
            Err(e) => {
                return Err(e);
            },
        };
        if sat {
            Ok(Verdict::Accepted)
        } else {
            let c = match first_unsatisfied_constraint(&sys) {
                Ok(c) => c,
                Err(e) => {
                    return Err(e);
                },
            };
            Ok(Verdict::Rejected(c))
        }
    }
}

// ---------------------------------------------------------------------------
// Stated properties.
// ---------------------------------------------------------------------------

/// Idempotence of verification: whether a completed check accepts is a
/// function of the board and the fleet spec alone — the characterization
/// `verify` ensures — so two completed checks of the same pair agree.
pub proof fn lemma_verify_idempotent(
    b: Seq<CellType>,
    ships: Seq<ShipType>,
    v1: Verdict,
    v2: Verdict,
)
    requires
        (v1 is Accepted) <==> counts_match(b, ships),
        (v2 is Accepted) <==> counts_match(b, ships),
    ensures
        (v1 is Accepted) <==> (v2 is Accepted),
{
}

/// Orthogonal-isolation boundary: an occupied cell with no orthogonal
/// occupied neighbor counts as an isolated length-one ship, even when a
/// diagonally adjacent cell is occupied — diagonals play no part in the
/// isolation test.
pub proof fn lemma_diagonal_neighbor_still_isolated(b: Seq<CellType>, x: int, y: int)
    requires
        occ(b, x, y),
        !occ(b, x - 1, y),
        !occ(b, x + 1, y),
        !occ(b, x, y - 1),
        !occ(b, x, y + 1),
    ensures
        isolated(b, x, y),
        isolated_count(b) >= 1,
{
    lemma_iso_count_monotone(b, x * 10 + y + 1, 100);
    lemma_iso_count_to_bound(b, x * 10 + y);
    lemma_div10(x, y);
}

proof fn lemma_runs_x_to_single(b: Seq<CellType>, len: int, k0: int, k: int)
    requires
        0 <= k0,
        run_x_start_at(b, len, k0),
        forall|k2: int| 0 <= k2 && #[trigger] run_x_start_at(b, len, k2) ==> k2 == k0,
    ensures
        runs_x_to(b, len, k) == if k > k0 {
            1int
        } else {
            0int
        },
    decreases k,
{
    if k > 0 {
        lemma_runs_x_to_single(b, len, k0, k - 1);
    }
}

/// Row/column double-count guard: a board holding one horizontal ship of
/// length at least two and nothing else is counted exactly once — the run
/// shows up in the x-direction sweep alone, and its one-cell cross-sections
/// never register in the y-direction sweep.
pub proof fn lemma_single_horizontal_ship_counted_once(b: Seq<CellType>, x: int, y: int, len: int)
    requires
        b.len() == 100,
        0 <= x,
        x + len <= 10,
        0 <= y < 10,
        2 <= len,
        forall|i: int, j: int|
            0 <= i < 10 && 0 <= j < 10 ==> (#[trigger] occ(b, i, j) <==> (j == y && x <= i < x
                + len)),
    ensures
        ship_count(b, len) == 1,
{
    let k0 = y * 10 + x;
    lemma_div10(y, x);
    assert(run_x_at(b, x, y, len));
    assert(run_x_start_at(b, len, k0));
    assert forall|k2: int| 0 <= k2 && #[trigger] run_x_start_at(b, len, k2) implies k2 == k0 by {
        let xx = k2 % 10;
        let yy = k2 / 10;
        vstd::arithmetic::div_mod::lemma_fundamental_div_mod(k2, 10);
        vstd::arithmetic::div_mod::lemma_mod_bound(k2, 10);
        assert(occ(b, xx, yy));
        assert(yy == y && x <= xx < x + len);
        if xx > x {
            assert(occ(b, xx - 1, y));
            assert(false);
        }
        assert(k2 == yy * 10 + xx);
    }
    lemma_runs_x_to_single(b, len, k0, 100);
    assert forall|k: int| 0 <= k < 100 implies !run_y_start_at(b, len, k) by {
        let xx = k / 10;
        let yy = k % 10;
        if run_y_at(b, xx, yy, len) {
            assert(occ(b, xx, yy));
            assert(occ(b, xx, yy + 1));
            assert(false);
        }
    }
    lemma_runs_y_to_constant(b, len, 0, 100);
}

/// The counter's result is bounded by the grid: at most one isolated cell
/// per cell, and at most one run start per scan position in each sweep, so
/// every count fits comfortably in a byte.
pub proof fn lemma_ship_count_bound(b: Seq<CellType>, len: int)
    requires
        1 <= len,
    ensures
        0 <= ship_count(b, len) <= 200,
{
    lemma_iso_count_to_bound(b, 100);
    lemma_runs_y_to_bound(b, len, 100);
    lemma_runs_x_to_bound(b, len, 100);
}

proof fn lemma_iso_count_monotone(b: Seq<CellType>, k1: int, k2: int)
    requires
        k1 <= k2,
    ensures
        iso_count_to(b, k1) <= iso_count_to(b, k2),
    decreases k2 - k1,
{
    if k1 < k2 {
        lemma_iso_count_monotone(b, k1, k2 - 1);
    }
}

proof fn lemma_iso_count_shift(b: Seq<CellType>, b2: Seq<CellType>, k0: int, k: int)
    requires
        0 <= k0 < 100,
        k <= 100,
        forall|kk: int| 0 <= kk < 100 && kk != k0 ==> #[trigger] iso_at(b2, kk) == iso_at(b, kk),
        iso_at(b2, k0),
        !iso_at(b, k0),
    ensures
        iso_count_to(b2, k) == iso_count_to(b, k) + if k > k0 {
            1int
        } else {
            0int
        },
    decreases k,
{
    if k > 0 {
        lemma_iso_count_shift(b, b2, k0, k - 1);
    }
}

/// One step of the generator-to-verifier story for length-one ships:
/// placing a single-cell ship on a spot the placement rule allows — a full
/// box of clearance, diagonals included, around it — raises the
/// isolated-cell count by exactly one and disturbs no other cell the
/// counter looks at.
pub proof fn lemma_place_single_increments_isolated_count(
    b: Seq<CellType>,
    b2: Seq<CellType>,
    s: Ship,
)
    requires
        b.len() == 100,
        s.shape.size == 1,
        valid_shape(s.shape),
        place_ok(b, s),
        board_with_ship(b, b2, s),
    ensures
        isolated_count(b2) == isolated_count(b) + 1,
{
    let x0 = s.xy.0 as int;
    let y0 = s.xy.1 as int;
    assert(ship_cell_x(s, 0) == x0 && ship_cell_y(s, 0) == y0);
    assert(x0 < 10 && y0 < 10);
    assert(!box_occ(b, x0, y0));
    assert(covers(s, x0, y0));
    assert forall|x: int, y: int| #[trigger] covers(s, x, y) implies x == x0 && y == y0 by {
        let kk = choose|kk: int|
            0 <= kk < 1 && #[trigger] ship_cell_x(s, kk) == x && ship_cell_y(s, kk) == y;
        assert(kk == 0);
    }
    let k0 = x0 * 10 + y0;
    lemma_div10(x0, y0);
    assert forall|kk: int| 0 <= kk < 100 && kk != k0 implies #[trigger] iso_at(b2, kk) == iso_at(
        b,
        kk,
    ) by {
        let x = kk / 10;
        let y = kk % 10;
        vstd::arithmetic::div_mod::lemma_fundamental_div_mod(kk, 10);
        vstd::arithmetic::div_mod::lemma_mod_bound(kk, 10);
        assert(0 <= y < 10 && 0 <= x < 10);
        assert(!(x == x0 && y == y0));
        if occ(b, x, y) {
            assert(occ(b2, x, y));
            assert(occ(b2, x - 1, y) == occ(b, x - 1, y)) by {
                if x - 1 == x0 && y == y0 {
                    assert(occ(b, x0 + 1, y0));
                    assert(false);
                }
            }
            assert(occ(b2, x + 1, y) == occ(b, x + 1, y)) by {
                if x + 1 == x0 && y == y0 {
                    assert(occ(b, x0 - 1, y0));
                    assert(false);
                }
            }
            assert(occ(b2, x, y - 1) == occ(b, x, y - 1)) by {
                if x == x0 && y - 1 == y0 {
                    assert(occ(b, x0, y0 + 1));
                    assert(false);
                }
            }
            assert(occ(b2, x, y + 1) == occ(b, x, y + 1)) by {
                if x == x0 && y + 1 == y0 {
                    assert(occ(b, x0, y0 - 1));
                    assert(false);
                }
            }
        } else {
            assert(!covers(s, x, y));
            assert(!occ(b2, x, y));
        }
    }
    assert(iso_at(b2, k0)) by {
        assert(occ(b2, x0, y0));
        assert(!occ(b2, x0 - 1, y0)) by {
            if 0 <= x0 - 1 {
                assert(!covers(s, x0 - 1, y0));
            }
        }
        assert(!occ(b2, x0 + 1, y0)) by {
            if x0 + 1 < 10 {
                assert(!covers(s, x0 + 1, y0));
            }
        }
        assert(!occ(b2, x0, y0 - 1)) by {
            if 0 <= y0 - 1 {
                assert(!covers(s, x0, y0 - 1));
            }
        }
        assert(!occ(b2, x0, y0 + 1)) by {
            if y0 + 1 < 10 {
                assert(!covers(s, x0, y0 + 1));
            }
        }
    }
    assert(!iso_at(b, k0)) by {
        assert(!occ(b, x0, y0));
    }
    lemma_iso_count_shift(b, b2, k0, 100);
}

} // verus!
