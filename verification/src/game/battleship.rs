use crate::game::field::{occ, Battlefield, CellType, FIELD_SIZE, XY};
use crate::game::ship::{ship_cell_x, ship_cell_y, valid_shape, Ship, ShipShape, ShipType};
use crate::zkp::battleship_verification::{
    lemma_empty_board_counts, lemma_place_horizontal_ship_increments_count,
    lemma_place_vertical_ship_increments_count, ship_count,
};
use rand::seq::SliceRandom;
use rand::Rng;
use rand::SeedableRng;
use vstd::prelude::*;

verus! {

/// Battleship game: the board and the shots fired at it so far.
pub struct Battleship {
    /// Field with ships for the game.
    pub field: Battlefield,
    /// Array with field shoots.
    pub shoots: Vec<XY>,
}

/// The ship inventory the game rules demand, by ship length.
pub open spec fn fleet_count(len: int) -> int {
    if len == 4 {
        1int
    } else if len == 3 {
        2int
    } else if len == 2 {
        3int
    } else if len == 1 {
        4int
    } else {
        0int
    }
}

/// How many ships of the given length the first i fleet entries demand.
spec fn expected_prefix(ships: Seq<ShipType>, i: int, len: int) -> int
    decreases i,
{
    if i <= 0 {
        0
    } else {
        expected_prefix(ships, i - 1, len) + if ships[i - 1].ship_size as int == len {
            ships[i - 1].count as int
        } else {
            0int
        }
    }
}

/// The list of ships required by the game rules.
pub fn ships_for_game() -> (r: Vec<ShipType>)
    ensures
        r@.len() == 4,
        r@[0] == (ShipType { ship_size: 4, count: 1 }),
        r@[1] == (ShipType { ship_size: 3, count: 2 }),
        r@[2] == (ShipType { ship_size: 2, count: 3 }),
        r@[3] == (ShipType { ship_size: 1, count: 4 }),
{
    let mut r: Vec<ShipType> = Vec::new();
    r.push(ShipType { ship_size: 4, count: 1 });
    r.push(ShipType { ship_size: 3, count: 2 });
    r.push(ShipType { ship_size: 2, count: 3 });
    r.push(ShipType { ship_size: 1, count: 4 });
    r
}

/// Some cell of the three-by-three box centred on (x, y) is occupied.
pub open spec fn box_occ(b: Seq<CellType>, x: int, y: int) -> bool {
    ||| occ(b, x - 1, y - 1)
    ||| occ(b, x, y - 1)
    ||| occ(b, x + 1, y - 1)
    ||| occ(b, x - 1, y)
    ||| occ(b, x, y)
    ||| occ(b, x + 1, y)
    ||| occ(b, x - 1, y + 1)
    ||| occ(b, x, y + 1)
    ||| occ(b, x + 1, y + 1)
}

/// Every cell the ship covers lies inside the grid.
pub open spec fn ship_in_field(s: Ship) -> bool {
    forall|k: int|
        0 <= k < s.shape.size ==> #[trigger] ship_cell_x(s, k) < 10 && ship_cell_y(s, k) < 10
}

/// Around every cell the ship covers, the box of neighbors — diagonals
/// included — and the cell itself hold no occupied cell.
pub open spec fn box_clear(b: Seq<CellType>, s: Ship) -> bool {
    forall|k: int|
        0 <= k < s.shape.size ==> !box_occ(b, #[trigger] ship_cell_x(s, k), ship_cell_y(s, k))
}

/// The ship may be placed: it fits in the grid and keeps one cell of
/// clearance, diagonals included, from every occupied cell.
pub open spec fn place_ok(b: Seq<CellType>, s: Ship) -> bool {
    ship_in_field(s) && box_clear(b, s)
}

/// Some grid cell can take a ship of the given shape on the board.
pub open spec fn shape_placeable(b: Seq<CellType>, shape: ShipShape) -> bool {
    exists|p: XY|
        p.0 < FIELD_SIZE && p.1 < FIELD_SIZE && #[trigger] place_ok(b, (Ship { xy: p, shape }))
}

/// The ship covers cell (x, y) with one of its first n cells.
pub open spec fn covers_upto(s: Ship, n: int, x: int, y: int) -> bool {
    exists|k: int| 0 <= k < n && #[trigger] ship_cell_x(s, k) == x && ship_cell_y(s, k) == y
}

/// The ship covers cell (x, y).
pub open spec fn covers(s: Ship, x: int, y: int) -> bool {
    covers_upto(s, s.shape.size as int, x, y)
}

/// The new board holds exactly the old occupied cells plus the ship's.
pub open spec fn board_with_ship(oldb: Seq<CellType>, newb: Seq<CellType>, s: Ship) -> bool {
    newb.len() == oldb.len() && forall|x: int, y: int|
        0 <= x < 10 && 0 <= y < 10 ==> #[trigger] occ(newb, x, y) == (occ(oldb, x, y) || covers(
            s,
            x,
            y,
        ))
}

/// A placement history: boards[0] is the empty grid, each following board
/// adds the next listed ship with the placement rule's full clearance —
/// diagonals included — from everything placed before it, and the last
/// board is b.
pub open spec fn placement_history(ships: Seq<Ship>, boards: Seq<Seq<CellType>>, b: Seq<CellType>) -> bool {
    &&& boards.len() == ships.len() + 1
    &&& boards[0].len() == 100
    &&& (forall|i: int| 0 <= i < 100 ==> boards[0][i] == CellType::Empty)
    &&& (forall|k: int|
        0 <= k < ships.len() ==> valid_shape((#[trigger] ships[k]).shape) && place_ok(
            boards[k],
            ships[k],
        ) && board_with_ship(boards[k], boards[k + 1], ships[k]))
    &&& boards.last() == b
}

/// The board arises from an empty grid by placing the listed ships one
/// after another, each with the placement rule's full clearance from
/// everything placed before it.  The ships' cells therefore make up
/// exactly the occupied cells, and the ships are pairwise non-touching,
/// even diagonally.
pub open spec fn placed_fleet(ships: Seq<Ship>, b: Seq<CellType>) -> bool {
    exists|boards: Seq<Seq<CellType>>| #[trigger] placement_history(ships, boards, b)
}

/// Some list of ships, each placed with the placement rule's clearance
/// from the ones before it, makes up exactly the board's occupied cells.
pub open spec fn is_placed_fleet_board(b: Seq<CellType>) -> bool {
    exists|fl: Seq<Ship>| #[trigger] placed_fleet(fl, b)
}

/// An empty grid is the placement of no ships at all.
proof fn lemma_placed_fleet_empty(b: Seq<CellType>)
    requires
        b.len() == 100,
        forall|i: int| 0 <= i < 100 ==> b[i] == CellType::Empty,
    ensures
        placed_fleet(Seq::empty(), b),
{
    let boards = seq![b];
    assert(placement_history(Seq::empty(), boards, b));
}

/// Placing one more ship with clearance extends a placed fleet.
proof fn lemma_placed_fleet_push(ships: Seq<Ship>, b0: Seq<CellType>, b: Seq<CellType>, s: Ship)
    requires
        placed_fleet(ships, b0),
        valid_shape(s.shape),
        place_ok(b0, s),
        board_with_ship(b0, b, s),
    ensures
        placed_fleet(ships.push(s), b),
{
    let boards = choose|boards: Seq<Seq<CellType>>| #[trigger] placement_history(ships, boards, b0);
    let boards2 = boards.push(b);
    let ships2 = ships.push(s);
    assert(boards.last() == b0);
    assert(boards2[ships.len() as int] == b0);
    assert forall|k: int|
        0 <= k < ships2.len() implies valid_shape((#[trigger] ships2[k]).shape) && place_ok(
        boards2[k],
        ships2[k],
    ) && board_with_ship(boards2[k], boards2[k + 1], ships2[k]) by {
        if k < ships.len() {
            assert(ships2[k] == ships[k]);
            assert(boards2[k] == boards[k]);
            assert(boards2[k + 1] == boards[k + 1]);
        } else {
            assert(ships2[k] == s);
            assert(boards2[k] == boards[k]);
            assert(boards[k] == b0);
            assert(boards2[k + 1] == b);
        }
    }
    assert(placement_history(ships2, boards2, b));
}

/// Whether some cell in or around (x, y), diagonals included, is occupied;
/// the coordinates may lie up to one grid width outside the grid.
fn any_box_occ(field: &Battlefield, x: usize, y: usize) -> (r: bool)
    requires
        field.wf(),
        x <= 2 * FIELD_SIZE,
        y <= 2 * FIELD_SIZE,
    ensures
        r == box_occ(field@, x as int, y as int),
{
    let nw = x >= 1 && y >= 1 && field.is_occ(x - 1, y - 1);
    let n = y >= 1 && field.is_occ(x, y - 1);
    let ne = y >= 1 && field.is_occ(x + 1, y - 1);
    let w = x >= 1 && field.is_occ(x - 1, y);
    let c = field.is_occ(x, y);
    let e = field.is_occ(x + 1, y);
    let sw = x >= 1 && field.is_occ(x - 1, y + 1);
    let s = field.is_occ(x, y + 1);
    let se = field.is_occ(x + 1, y + 1);
    nw || n || ne || w || c || e || sw || s || se
}

// ---------------------------------------------------------------------------
// Randomness, taken on trust from the rand crate.
// ---------------------------------------------------------------------------

#[verifier::external_type_specification]
#[verifier::external_body]
pub struct ExStdRng(rand::rngs::StdRng);

/// Relies on rand's StdRng::from_entropy: a freshly seeded generator.  It
/// panics when the operating system's entropy source is unavailable, an
/// environmental failure outside this crate's control.
#[verifier::external_body]
fn rng_from_entropy() -> rand::rngs::StdRng {
    rand::rngs::StdRng::from_entropy()
}

/// Relies on rand's Rng::gen for bool: an arbitrary coin flip; nothing is
/// assumed of the outcome.
#[verifier::external_body]
fn rng_coin_flip(rng: &mut rand::rngs::StdRng) -> bool {
    rng.gen()
}

/// Relies on rand's SliceRandom::choose: Some element of the slice exactly
/// when the slice is non-empty; which element comes back is left open.
#[verifier::external_body]
fn rng_choose_xy(cells: &Vec<XY>, rng: &mut rand::rngs::StdRng) -> (r: Option<XY>)
    ensures
        r is Some <==> cells@.len() > 0,
        r matches Some(xy) ==> cells@.contains(xy),
{
    cells.as_slice().choose(rng).copied()
}

// ---------------------------------------------------------------------------
// The game.
// ---------------------------------------------------------------------------

impl Battleship {
    /// The board covers the whole grid.
    pub open spec fn wf(self) -> bool {
        self.field.wf()
    }

    /// Whether the ship fits the grid with free water, diagonals included,
    /// all around and under it.
    pub fn can_place_ship(&self, ship: Ship) -> (r: bool)
        requires
            self.wf(),
            ship.xy.0 < FIELD_SIZE,
            ship.xy.1 < FIELD_SIZE,
            valid_shape(ship.shape),
        ensures
            r == place_ok(self.field@, ship),
    {
        let cells = ship.cells();
        // I. Walk the bounding box of every covered cell.
        let mut i: usize = 0;
        while i < cells.len()
            invariant
                self.wf(),
                ship.xy.0 < FIELD_SIZE,
                ship.xy.1 < FIELD_SIZE,
                valid_shape(ship.shape),
                cells@.len() == ship.shape.size,
                forall|k: int|
                    0 <= k < ship.shape.size ==> (#[trigger] cells@[k]).0 == ship_cell_x(ship, k)
                        && cells@[k].1 == ship_cell_y(ship, k),
                i <= cells@.len(),
                forall|k: int|
                    0 <= k < i ==> !box_occ(
                        self.field@,
                        #[trigger] ship_cell_x(ship, k),
                        ship_cell_y(ship, k),
                    ),
            decreases cells@.len() - i,
        {
            if any_box_occ(&self.field, cells[i].0, cells[i].1) {
                proof {
                    assert(box_occ(self.field@, ship_cell_x(ship, i as int), ship_cell_y(ship, i as int)));
                    assert(!box_clear(self.field@, ship));
                }
                return false;
            }
            i = i + 1;
        }
        // II. Check that the covered cells themselves stay on the grid.
        let mut i: usize = 0;
        while i < cells.len()
            invariant
                cells@.len() == ship.shape.size,
                forall|k: int|
                    0 <= k < ship.shape.size ==> (#[trigger] cells@[k]).0 == ship_cell_x(ship, k)
                        && cells@[k].1 == ship_cell_y(ship, k),
                i <= cells@.len(),
                box_clear(self.field@, ship),
                forall|k: int|
                    0 <= k < i ==> #[trigger] ship_cell_x(ship, k) < 10 && ship_cell_y(ship, k)
                        < 10,
            decreases cells@.len() - i,
        {
            if cells[i].0 >= FIELD_SIZE || cells[i].1 >= FIELD_SIZE {
                proof {
                    assert(ship_cell_x(ship, i as int) >= 10 || ship_cell_y(ship, i as int) >= 10);
                    assert(!ship_in_field(ship));
                }
                return false;
            }
            i = i + 1;
        }
        true
    }

    /// Every grid coordinate the given shape can be placed at, in scan
    /// order: column by column, row within column.
    pub fn get_available_cells(&self, shape: ShipShape) -> (r: Vec<XY>)
        requires
            self.wf(),
            valid_shape(shape),
        ensures
            forall|i: int|
                0 <= i < r@.len() ==> (#[trigger] r@[i]).0 < FIELD_SIZE && r@[i].1 < FIELD_SIZE
                    && place_ok(self.field@, (Ship { xy: r@[i], shape })),
            forall|p: XY|
                p.0 < FIELD_SIZE && p.1 < FIELD_SIZE && place_ok(self.field@, (Ship { xy: p, shape }))
                    ==> #[trigger] r@.contains(p),
            forall|i: int, j: int|
                0 <= i < j < r@.len() ==> (#[trigger] r@[i]).0 * 10 + r@[i].1 < (
                #[trigger] r@[j]).0 * 10 + r@[j].1,
    {
        let mut r: Vec<XY> = Vec::new();
        let mut x: usize = 0;
        while x < FIELD_SIZE
            invariant
                self.wf(),
                valid_shape(shape),
                x <= 10,
                forall|i: int|
                    0 <= i < r@.len() ==> (#[trigger] r@[i]).0 < FIELD_SIZE && r@[i].1 < FIELD_SIZE
                        && place_ok(self.field@, (Ship { xy: r@[i], shape })),
                forall|i: int|
                    0 <= i < r@.len() ==> (#[trigger] r@[i]).0 * 10 + r@[i].1 < x as int * 10,
                forall|p: XY|
                    p.0 * 10 + p.1 < x as int * 10 && p.0 < FIELD_SIZE && p.1 < FIELD_SIZE
                        && place_ok(self.field@, (Ship { xy: p, shape })) ==> #[trigger] r@.contains(
                        p,
                    ),
                forall|i: int, j: int|
                    0 <= i < j < r@.len() ==> (#[trigger] r@[i]).0 * 10 + r@[i].1 < (
                    #[trigger] r@[j]).0 * 10 + r@[j].1,
            decreases 10 - x,
        {
            let mut y: usize = 0;
            while y < FIELD_SIZE
                invariant
                    self.wf(),
                    valid_shape(shape),
                    x < 10,
                    y <= 10,
                    forall|i: int|
                        0 <= i < r@.len() ==> (#[trigger] r@[i]).0 < FIELD_SIZE && r@[i].1
                            < FIELD_SIZE && place_ok(self.field@, (Ship { xy: r@[i], shape })),
                    forall|i: int|
                        0 <= i < r@.len() ==> (#[trigger] r@[i]).0 * 10 + r@[i].1 < x as int * 10
                            + y as int,
                    forall|p: XY|
                        p.0 * 10 + p.1 < x as int * 10 + y as int && p.0 < FIELD_SIZE && p.1
                            < FIELD_SIZE && place_ok(self.field@, (Ship { xy: p, shape }))
                            ==> #[trigger] r@.contains(p),
                    forall|i: int, j: int|
                        0 <= i < j < r@.len() ==> (#[trigger] r@[i]).0 * 10 + r@[i].1 < (
                        #[trigger] r@[j]).0 * 10 + r@[j].1,
                decreases 10 - y,
            {
                let ghost old_r = r@;
                let placeable = self.can_place_ship(Ship { xy: XY(x, y), shape });
                if placeable {
                    r.push(XY(x, y));
                }
                proof {
                    assert forall|p: XY|
                        p.0 * 10 + p.1 < x as int * 10 + y as int + 1 && p.0 < FIELD_SIZE && p.1
                            < FIELD_SIZE && place_ok(
                            self.field@,
                            (Ship { xy: p, shape }),
                        ) implies #[trigger] r@.contains(p) by {
                        if p.0 * 10 + p.1 < x as int * 10 + y as int {
                            assert(old_r.contains(p));
                            let i = choose|i: int| 0 <= i < old_r.len() && old_r[i] == p;
                            assert(r@[i] == p);
                        } else {
                            assert(p.0 == x && p.1 == y);
                            assert(r@[r@.len() - 1] == p);
                        }
                    }
                }
                y = y + 1;
            }
            x = x + 1;
        }
        proof {
            assert forall|p: XY|
                p.0 < FIELD_SIZE && p.1 < FIELD_SIZE && place_ok(
                    self.field@,
                    (Ship { xy: p, shape }),
                ) implies #[trigger] r@.contains(p) by {
                assert(p.0 * 10 + p.1 < 100);
            }
        }
        r
    }

    /// Places one ship of the given size at a random admissible position
    /// with a random direction, keeping clearance around existing ships;
    /// reports false, leaving the board unchanged, only when the randomly
    /// drawn direction has no admissible cell — when both directions have
    /// one, a ship is placed whichever way the coin falls.
    pub fn emplace_ships(&mut self, size: u8, rng: &mut rand::rngs::StdRng) -> (ok: bool)
        requires
            old(self).wf(),
            1 <= size <= FIELD_SIZE,
        ensures
            final(self).wf(),
            final(self).shoots == old(self).shoots,
            !ok ==> final(self).field@ == old(self).field@,
            ok ==> exists|s: Ship|
                valid_shape(s.shape) && s.shape.size == size && #[trigger] place_ok(
                    old(self).field@,
                    s,
                ) && board_with_ship(old(self).field@, final(self).field@, s),
            shape_placeable(old(self).field@, (ShipShape { dxy: XY(1, 0), size }))
                && shape_placeable(old(self).field@, (ShipShape { dxy: XY(0, 1), size })) ==> ok,
    {
        // Flip a coin to determine an alignment (horizontal / vertical).
        let dxy = if rng_coin_flip(rng) {
            XY(1, 0)
        } else {
            XY(0, 1)
        };
        let shape = ShipShape { dxy, size };
        // Get the vector of appropriate cells.
        let cell_coordinates = self.get_available_cells(shape);
        match rng_choose_xy(&cell_coordinates, rng) {
            None => {
                proof {
                    if shape_placeable(self.field@, shape) {
                        let p = choose|p: XY|
                            p.0 < FIELD_SIZE && p.1 < FIELD_SIZE && #[trigger] place_ok(
                                self.field@,
                                (Ship { xy: p, shape }),
                            );
                        assert(cell_coordinates@.contains(p));
                        assert(false);
                    }
                }
                false
            },
            Some(xy) => {
                let ship = Ship { xy, shape };
                proof {
                    let i = choose|i: int|
                        0 <= i < cell_coordinates@.len() && cell_coordinates@[i] == xy;
                    assert(place_ok(self.field@, ship));
                }
                let cells = ship.cells();
                let ghost g0 = self.field@;
                let mut k: usize = 0;
                while k < cells.len()
                    invariant
                        self.field.wf(),
                        self.shoots == old(self).shoots,
                        g0.len() == 100,
                        k <= cells@.len(),
                        cells@.len() == ship.shape.size,
                        forall|j: int|
                            0 <= j < ship.shape.size ==> (#[trigger] cells@[j]).0 == ship_cell_x(
                                ship,
                                j,
                            ) && cells@[j].1 == ship_cell_y(ship, j),
                        ship_in_field(ship),
                        self.field@.len() == 100,
                        forall|x: int, y: int|
                            0 <= x < 10 && 0 <= y < 10 ==> #[trigger] occ(self.field@, x, y) == (
                            occ(g0, x, y) || covers_upto(ship, k as int, x, y)),
                    decreases cells@.len() - k,
                {
                    let cx = cells[k].0;
                    let cy = cells[k].1;
                    let ghost prev = self.field@;
                    self.field.set_occupied(cx, cy);
                    proof {
                        assert forall|x: int, y: int|
                            0 <= x < 10 && 0 <= y < 10 implies #[trigger] occ(self.field@, x, y)
                            == (occ(g0, x, y) || covers_upto(ship, k as int + 1, x, y)) by {
                            if x == cx as int && y == cy as int {
                                assert(ship_cell_x(ship, k as int) == x && ship_cell_y(
                                    ship,
                                    k as int,
                                ) == y);
                                assert(covers_upto(ship, k as int + 1, x, y));
                                assert(occ(self.field@, x, y));
                            } else {
                                assert(x + y * 10 != cx as int + cy as int * 10);
                                assert(occ(self.field@, x, y) == occ(prev, x, y));
                                assert(covers_upto(ship, k as int + 1, x, y) == (covers_upto(
                                    ship,
                                    k as int,
                                    x,
                                    y,
                                ) || (ship_cell_x(ship, k as int) == x && ship_cell_y(
                                    ship,
                                    k as int,
                                ) == y)));
                            }
                        }
                    }
                    k = k + 1;
                }
                proof {
                    assert(board_with_ship(g0, self.field@, ship));
                }
                true
            },
        }
    }

    /// Records a shot at the given coordinates.
    pub fn shoot(&mut self, value: XY)
        ensures
            final(self).field == old(self).field,
            final(self).shoots@ == old(self).shoots@.push(value),
    {
        self.shoots.push(value)
    }

    /// Generates a random board holding the full required fleet — its
    /// occupied cells are a placed fleet counting exactly
    /// `fleet_count(len)` ships of every length — or None when the random
    /// placement runs into a dead end.  Seeding the generator panics when
    /// the operating system's entropy source is unavailable.
    pub fn generate() -> (r: Option<Battleship>)
        ensures
            r matches Some(g) ==> g.wf() && g.shoots@.len() == 0 && (forall|len: int|
                1 <= len ==> #[trigger] ship_count(
                    g.field@,
                    len,
                ) == fleet_count(len)),
            r matches Some(g) ==> is_placed_fleet_board(g.field@),
    {
        /* Generating the field. */
        let mut result = Battleship::default();
        let mut rng = rng_from_entropy();
        let ships = ships_for_game();
        let ghost mut fleet: Seq<Ship> = Seq::empty();
        proof {
            lemma_empty_board_counts(result.field@);
            lemma_placed_fleet_empty(result.field@);
            assert(placed_fleet(fleet, result.field@));
        }
        let mut i: usize = 0;
        while i < ships.len()
            invariant
                result.wf(),
                result.shoots@.len() == 0,
                placed_fleet(fleet, result.field@),
                i <= ships@.len(),
                ships@.len() == 4,
                ships@[0] == (ShipType { ship_size: 4, count: 1 }),
                ships@[1] == (ShipType { ship_size: 3, count: 2 }),
                ships@[2] == (ShipType { ship_size: 2, count: 3 }),
                ships@[3] == (ShipType { ship_size: 1, count: 4 }),
                forall|len: int|
                    1 <= len ==> #[trigger] ship_count(
                        result.field@,
                        len,
                    ) == expected_prefix(ships@, i as int, len),
            decreases ships@.len() - i,
        {
            let ship_type = ships[i];
            let ghost base = result.field@;
            let mut placed: u8 = 0;
            while placed < ship_type.count
                invariant
                    result.wf(),
                    result.shoots@.len() == 0,
                    placed_fleet(fleet, result.field@),
                    1 <= ship_type.ship_size <= 10,
                    placed <= ship_type.count,
                    base.len() == 100,
                    forall|len: int|
                        1 <= len ==> #[trigger] ship_count(
                            result.field@,
                            len,
                        ) == ship_count(base, len) + (if len
                            == ship_type.ship_size as int {
                            placed as int
                        } else {
                            0int
                        }),
                decreases ship_type.count - placed,
            {
                let ghost before = result.field@;
                if !result.emplace_ships(ship_type.ship_size, &mut rng) {
                    return None;
                }
                proof {
                    let s = choose|s: Ship|
                        valid_shape(s.shape) && s.shape.size == ship_type.ship_size
                            && #[trigger] place_ok(before, s) && board_with_ship(
                            before,
                            result.field@,
                            s,
                        );
                    if s.shape.dxy == XY(1, 0) {
                        lemma_place_horizontal_ship_increments_count(
                            before,
                            result.field@,
                            s,
                        );
                    } else {
                        lemma_place_vertical_ship_increments_count(
                            before,
                            result.field@,
                            s,
                        );
                    }
                    lemma_placed_fleet_push(fleet, before, result.field@, s);
                    fleet = fleet.push(s);
                }
                placed = placed + 1;
            }
            i = i + 1;
        }
        proof {
            assert forall|len: int|
                1 <= len implies #[trigger] ship_count(
                result.field@,
                len,
            ) == fleet_count(len) by {
                assert(expected_prefix(ships@, 0, len) == 0);
                assert(expected_prefix(ships@, 1, len) == if 4int == len {
                    1int
                } else {
                    0int
                });
                assert(expected_prefix(ships@, 2, len) == expected_prefix(ships@, 1, len)
                    + if 3int == len {
                    2int
                } else {
                    0int
                });
                assert(expected_prefix(ships@, 3, len) == expected_prefix(ships@, 2, len)
                    + if 2int == len {
                    3int
                } else {
                    0int
                });
                assert(expected_prefix(ships@, 4, len) == expected_prefix(ships@, 3, len)
                    + if 1int == len {
                    4int
                } else {
                    0int
                });
            }
        }
        proof {
            assert(placed_fleet(fleet, result.field@));
            assert(is_placed_fleet_board(result.field@));
        }
        Some(result)
    }
}

impl Default for Battleship {
    /// An empty board and no shots.
    fn default() -> (r: Self)
        ensures
            r.wf(),
            r.shoots@.len() == 0,
            forall|i: int| 0 <= i < 100 ==> r.field@[i] == CellType::Empty,
    {
        Battleship { field: Battlefield::default(), shoots: Vec::new() }
    }
}

} // verus!
