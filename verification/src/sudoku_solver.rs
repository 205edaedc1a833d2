//! The solver engine: a 9x9 grid of candidate-set cells and a stack of
//! full-grid snapshots for backtracking.  The engine repeatedly commits the
//! unresolved square with the fewest candidates, removes the committed
//! digit from every relative, and rolls back to the latest snapshot when a
//! candidate set empties.

use vstd::prelude::*;
use vstd::arithmetic::power2::pow2;
use vstd::arithmetic::power2::lemma_pow2_pos;
use vstd::arithmetic::power2::lemma_pow2_strictly_increases;
use vstd::arithmetic::power2::lemma_pow2_unfold;
use crate::cell::Cell;
use crate::model::DigitBoard;
use crate::model::board_consistent;
use crate::model::board_extends;
use crate::model::dead_square;
use crate::model::lemma_dead_square_unsolvable;
use crate::model::lemma_extends_consistent;
use crate::model::relative_digit;
use crate::model::board_full;
use crate::model::board_wf;
use crate::model::board_solved;
use crate::model::digit_at;
use crate::point::Point;
use crate::point::grid_index;
use crate::point::lemma_same_band;
use crate::point::sees;
use crate::point::valid_point;
use crate::sudoku_errors::ErrorNoSolution;

verus! {

broadcast use vstd::array::group_array_axioms, vstd::seq_lib::lemma_seq_contains_after_push;

/// A full grid of squares, stored row-major.
pub type CellGrid = [Cell; 81];

/// The square at column `x`, row `y` of a grid.
pub open spec fn cell_at(g: Seq<Cell>, x: int, y: int) -> Cell {
    g[grid_index(x, y)]
}

/// The grid has 81 squares and each is well-formed.
pub open spec fn grid_wf(g: Seq<Cell>) -> bool {
    &&& g.len() == 81
    &&& forall|x: int, y: int| valid_point(x, y) ==> (#[trigger] cell_at(g, x, y)).wf()
}

/// No two committed relatives hold the same digit.
pub open spec fn grid_consistent(g: Seq<Cell>) -> bool {
    forall|x1: int, y1: int, x2: int, y2: int|
        sees(x1, y1, x2, y2) && #[trigger] cell_at(g, x1, y1) is Collapsed && #[trigger] cell_at(
            g,
            x2,
            y2,
        ) is Collapsed ==> cell_at(g, x1, y1).digit() != cell_at(g, x2, y2).digit()
}

/// Every committed digit has been removed from the candidate sets of all
/// of its relatives.
pub open spec fn grid_propagated(g: Seq<Cell>) -> bool {
    forall|x1: int, y1: int, x2: int, y2: int|
        sees(x1, y1, x2, y2) && #[trigger] cell_at(g, x1, y1) is Collapsed ==> !(#[trigger] cell_at(
            g,
            x2,
            y2,
        )).has_candidate(cell_at(g, x1, y1).digit())
}

/// Every unresolved square still has at least one candidate.
pub open spec fn grid_nonempty(g: Seq<Cell>) -> bool {
    forall|x: int, y: int|
        valid_point(x, y) && (#[trigger] cell_at(g, x, y)) is Uncollapsed ==> cell_at(
            g,
            x,
            y,
        ).weight() >= 1
}

/// The invariant every grid the search keeps alive satisfies.
pub open spec fn grid_ok(g: Seq<Cell>) -> bool {
    &&& grid_wf(g)
    &&& grid_consistent(g)
    &&& grid_propagated(g)
    &&& grid_nonempty(g)
}

/// Every square is committed to a digit.
pub open spec fn grid_complete(g: Seq<Cell>) -> bool {
    forall|x: int, y: int| valid_point(x, y) ==> (#[trigger] cell_at(g, x, y)) is Collapsed
}

/// `g` keeps every digit that is already committed in `base`: the search
/// never reopens a committed square.
pub open spec fn grid_pins(g: Seq<Cell>, base: Seq<Cell>) -> bool {
    forall|x: int, y: int|
        valid_point(x, y) && (#[trigger] cell_at(base, x, y)) is Collapsed ==> #[trigger] cell_at(
            g,
            x,
            y,
        ) == cell_at(base, x, y)
}

/// Total number of candidates left in squares `i..81`.
pub open spec fn grid_weight_from(g: Seq<Cell>, i: int) -> nat
    decreases 81 - i,
{
    if 0 <= i < 81 {
        g[i].weight() + grid_weight_from(g, i + 1)
    } else {
        0
    }
}

/// Total number of candidates left on the grid: the search's potential.
pub open spec fn grid_weight(g: Seq<Cell>) -> nat {
    grid_weight_from(g, 0)
}

/// Termination measure contributed by a stack of snapshots.
pub open spec fn stack_measure(s: Seq<CellGrid>) -> nat
    decreases s.len(),
{
    if s.len() == 0 {
        0
    } else {
        stack_measure(s.drop_last()) + pow2(grid_weight(s.last()@))
    }
}

/// A pointwise bound on square weights bounds the total.
proof fn lemma_weight_from_le(g1: Seq<Cell>, g2: Seq<Cell>, i: int)
    requires
        g1.len() == 81,
        g2.len() == 81,
        forall|j: int| i <= j < 81 ==> (#[trigger] g2[j]).weight() <= g1[j].weight(),
    ensures
        grid_weight_from(g2, i) <= grid_weight_from(g1, i),
    decreases 81 - i,
{
    if 0 <= i < 81 {
        lemma_weight_from_le(g1, g2, i + 1);
    }
}

/// The total weight dominates the weight of any single square.
proof fn lemma_weight_from_lower(g: Seq<Cell>, i: int, k: int)
    requires
        g.len() == 81,
        0 <= i <= k < 81,
    ensures
        grid_weight_from(g, i) >= g[k].weight(),
    decreases 81 - i,
{
    if i < k {
        lemma_weight_from_lower(g, i + 1, k);
    }
}

/// Updating one square shifts the total weight by the weight difference.
proof fn lemma_weight_from_update(g: Seq<Cell>, i: int, k: int, c: Cell)
    requires
        g.len() == 81,
        0 <= i,
        0 <= k < 81,
    ensures
        grid_weight_from(g.update(k, c), i) + g[k].weight() == grid_weight_from(g, i) + (if i
            <= k {
            c.weight()
        } else {
            g[k].weight()
        }),
    decreases 81 - i,
{
    if 0 <= i < 81 {
        lemma_weight_from_update(g, i + 1, k, c);
    }
}

/// Monotonicity of the power-of-two potential.
proof fn lemma_pow2_le(e1: nat, e2: nat)
    requires
        e1 <= e2,
    ensures
        pow2(e1) <= pow2(e2),
{
    if e1 < e2 {
        lemma_pow2_strictly_increases(e1, e2);
    }
}

/// Pushing a snapshot adds its potential to the stack measure.
proof fn lemma_stack_measure_push(s: Seq<CellGrid>, g: CellGrid)
    ensures
        stack_measure(s.push(g)) == stack_measure(s) + pow2(grid_weight(g@)),
{
    let t = s.push(g);
    assert(t.drop_last() =~= s);
    assert(t.last() == g);
}

/// What propagation leaves behind at a relative: a committed square is
/// untouched and differs from the propagated digit; an unresolved square
/// has lost exactly that digit from its candidates and stays live.
pub open spec fn value_cleared(c: Cell, c0: Cell, value: u8) -> bool {
    &&& (c is Collapsed <==> c0 is Collapsed)
    &&& (c is Collapsed ==> c == c0 && c.digit() != value)
    &&& (c is Uncollapsed ==> {
        &&& c.weight() >= 1
        &&& forall|d: u8| c.has_candidate(d) <==> (c0.has_candidate(d) && d != value)
    })
}

/// Grid `g` still admits the completed board `b`: every committed square
/// agrees with `b`, and every unresolved square still offers `b`'s digit
/// as a candidate.  The search never discards every grid that admits a
/// solution, which is why it finds one whenever one exists.
pub open spec fn grid_admits(g: Seq<Cell>, b: Seq<Option<u8>>) -> bool {
    forall|x: int, y: int|
        valid_point(x, y) ==> {
            let c = #[trigger] cell_at(g, x, y);
            &&& (c is Collapsed ==> digit_at(b, x, y) == Some(c.digit()))
            &&& (c is Uncollapsed ==> c.has_candidate(digit_at(b, x, y)->0))
        }
}

/// Committing the square at (`px`, `py`) to the digit that the completed
/// board `b` puts there, and then propagating it, keeps the grid
/// admitting `b`.
proof fn lemma_admits_after_commit(
    g0: Seq<Cell>,
    g1: Seq<Cell>,
    g2: Seq<Cell>,
    px: int,
    py: int,
    d: u8,
    b: Seq<Option<u8>>,
)
    requires
        valid_point(px, py),
        board_solved(b),
        grid_admits(g0, b),
        digit_at(b, px, py) == Some(d),
        forall|x: int, y: int|
            valid_point(x, y) ==> #[trigger] cell_at(g1, x, y) == (if x == px && y == py {
                Cell::Collapsed(d)
            } else {
                cell_at(g0, x, y)
            }),
        forall|x: int, y: int|
            valid_point(x, y) && !sees(px, py, x, y) ==> #[trigger] cell_at(g2, x, y) == cell_at(
                g1,
                x,
                y,
            ),
        forall|x: int, y: int|
            #[trigger] sees(px, py, x, y) ==> value_cleared(
                cell_at(g2, x, y),
                cell_at(g1, x, y),
                d,
            ),
    ensures
        grid_admits(g2, b),
{
    assert forall|x: int, y: int| valid_point(x, y) implies {
        let c = #[trigger] cell_at(g2, x, y);
        &&& (c is Collapsed ==> digit_at(b, x, y) == Some(c.digit()))
        &&& (c is Uncollapsed ==> c.has_candidate(digit_at(b, x, y)->0))
    } by {
        if sees(px, py, x, y) {
            assert(value_cleared(cell_at(g2, x, y), cell_at(g1, x, y), d));
            assert(cell_at(g1, x, y) == cell_at(g0, x, y));
            if cell_at(g2, x, y) is Uncollapsed {
                let e = digit_at(b, x, y)->0;
                assert(cell_at(g0, x, y).has_candidate(e));
                assert(digit_at(b, x, y) != digit_at(b, px, py));
                assert(e != d);
            }
        } else {
            assert(cell_at(g2, x, y) == cell_at(g1, x, y));
        }
    }
}

/// Some relative of (`qx`, `qy`) that lies strictly before the scan
/// position (`cx`, `cy`) in row-major order holds digit `d` on board `b`.
/// Seeding processes the board in that order, so these are exactly the
/// digits propagation has already removed from the square's candidates.
spec fn seeded_relative_before(
    b: Seq<Option<u8>>,
    qx: int,
    qy: int,
    d: u8,
    cx: int,
    cy: int,
) -> bool {
    exists|rx: int, ry: int|
        #[trigger] sees(qx, qy, rx, ry) && (ry < cy || (ry == cy && rx < cx)) && digit_at(
            b,
            rx,
            ry,
        ) == Some(d)
}

/// Keeping committed squares is transitive across search steps.
proof fn lemma_pins_trans(g2: Seq<Cell>, g1: Seq<Cell>, g0: Seq<Cell>)
    requires
        grid_pins(g2, g1),
        grid_pins(g1, g0),
    ensures
        grid_pins(g2, g0),
{
    assert forall|x: int, y: int|
        valid_point(x, y) && (#[trigger] cell_at(g0, x, y)) is Collapsed implies #[trigger] cell_at(
        g2,
        x,
        y,
    ) == cell_at(g0, x, y) by {
        assert(cell_at(g1, x, y) == cell_at(g0, x, y));
    }
}

/// After committing the unresolved square at (`px`, `py`) to `d` (grid
/// `g0` became `g1`) and successfully propagating `d` to its relatives
/// (grid `g1` became `g2`), the whole search invariant holds again, and
/// every square already committed in `g0` is untouched.
proof fn lemma_grid_ok_after_commit(
    g0: Seq<Cell>,
    g1: Seq<Cell>,
    g2: Seq<Cell>,
    px: int,
    py: int,
    d: u8,
)
    requires
        valid_point(px, py),
        grid_ok(g0),
        cell_at(g0, px, py) is Uncollapsed,
        forall|x: int, y: int|
            valid_point(x, y) ==> #[trigger] cell_at(g1, x, y) == (if x == px && y == py {
                Cell::Collapsed(d)
            } else {
                cell_at(g0, x, y)
            }),
        grid_wf(g2),
        forall|x: int, y: int|
            valid_point(x, y) && !sees(px, py, x, y) ==> #[trigger] cell_at(g2, x, y) == cell_at(
                g1,
                x,
                y,
            ),
        forall|x: int, y: int|
            valid_point(x, y) ==> ((#[trigger] cell_at(g2, x, y)) is Collapsed <==> cell_at(
                g1,
                x,
                y,
            ) is Collapsed),
        forall|x: int, y: int, e: u8|
            valid_point(x, y) && #[trigger] cell_at(g2, x, y).has_candidate(e) ==> cell_at(
                g1,
                x,
                y,
            ).has_candidate(e),
        forall|x: int, y: int|
            #[trigger] sees(px, py, x, y) ==> value_cleared(
                cell_at(g2, x, y),
                cell_at(g1, x, y),
                d,
            ),
    ensures
        grid_ok(g2),
        grid_pins(g2, g0),
{
    assert forall|x1: int, y1: int, x2: int, y2: int|
        sees(x1, y1, x2, y2) && #[trigger] cell_at(g2, x1, y1) is Collapsed && #[trigger] cell_at(
            g2,
            x2,
            y2,
        ) is Collapsed implies cell_at(g2, x1, y1).digit() != cell_at(g2, x2, y2).digit() by {
        if x1 == px && y1 == py {
            assert(value_cleared(cell_at(g2, x2, y2), cell_at(g1, x2, y2), d));
        } else if x2 == px && y2 == py {
            assert(value_cleared(cell_at(g2, x1, y1), cell_at(g1, x1, y1), d));
        } else {
            if sees(px, py, x1, y1) {
                assert(value_cleared(cell_at(g2, x1, y1), cell_at(g1, x1, y1), d));
            } else {
                assert(cell_at(g2, x1, y1) == cell_at(g1, x1, y1));
            }
            if sees(px, py, x2, y2) {
                assert(value_cleared(cell_at(g2, x2, y2), cell_at(g1, x2, y2), d));
            } else {
                assert(cell_at(g2, x2, y2) == cell_at(g1, x2, y2));
            }
            assert(cell_at(g2, x1, y1).digit() == cell_at(g0, x1, y1).digit());
            assert(cell_at(g2, x2, y2).digit() == cell_at(g0, x2, y2).digit());
        }
    }
    assert forall|x1: int, y1: int, x2: int, y2: int|
        sees(x1, y1, x2, y2) && #[trigger] cell_at(g2, x1, y1) is Collapsed implies !(
    #[trigger] cell_at(g2, x2, y2)).has_candidate(cell_at(g2, x1, y1).digit()) by {
        if x1 == px && y1 == py {
            assert(value_cleared(cell_at(g2, x2, y2), cell_at(g1, x2, y2), d));
        } else {
            if sees(px, py, x1, y1) {
                assert(value_cleared(cell_at(g2, x1, y1), cell_at(g1, x1, y1), d));
            } else {
                assert(cell_at(g2, x1, y1) == cell_at(g1, x1, y1));
            }
            assert(cell_at(g2, x1, y1) == cell_at(g0, x1, y1));
            let e = cell_at(g2, x1, y1).digit();
            if cell_at(g2, x2, y2).has_candidate(e) {
                assert(cell_at(g1, x2, y2).has_candidate(e));
                if x2 == px && y2 == py {
                    assert(false);
                } else {
                    assert(cell_at(g1, x2, y2) == cell_at(g0, x2, y2));
                    assert(!cell_at(g0, x2, y2).has_candidate(e));
                }
            }
        }
    }
    assert forall|x: int, y: int|
        valid_point(x, y) && (#[trigger] cell_at(g2, x, y)) is Uncollapsed implies cell_at(
        g2,
        x,
        y,
    ).weight() >= 1 by {
        if sees(px, py, x, y) {
            assert(value_cleared(cell_at(g2, x, y), cell_at(g1, x, y), d));
        } else {
            assert(cell_at(g2, x, y) == cell_at(g1, x, y));
            if !(x == px && y == py) {
                assert(cell_at(g1, x, y) == cell_at(g0, x, y));
            }
        }
    }
    assert forall|x: int, y: int|
        valid_point(x, y) && (#[trigger] cell_at(g0, x, y)) is Collapsed implies #[trigger] cell_at(
        g2,
        x,
        y,
    ) == cell_at(g0, x, y) by {
        assert(cell_at(g1, x, y) == cell_at(g0, x, y));
        if sees(px, py, x, y) {
            assert(value_cleared(cell_at(g2, x, y), cell_at(g1, x, y), d));
        } else {
            assert(cell_at(g2, x, y) == cell_at(g1, x, y));
        }
    }
}

/// Updating the square at (`qx`, `qy`) changes that square and no other.
proof fn lemma_cell_at_update(g: Seq<Cell>, x: int, y: int, qx: int, qy: int, c: Cell)
    requires
        g.len() == 81,
        valid_point(x, y),
        valid_point(qx, qy),
    ensures
        cell_at(g.update(grid_index(qx, qy), c), x, y) == (if x == qx && y == qy {
            c
        } else {
            cell_at(g, x, y)
        }),
{
    if !(x == qx && y == qy) {
        assert(grid_index(x, y) != grid_index(qx, qy));
    }
}

/// The view of a grid as a board of optional digits.
pub open spec fn grid_as_board(g: Seq<Cell>) -> Seq<Option<u8>> {
    Seq::new(
        81,
        |i: int|
            if g[i] is Collapsed {
                Some(g[i].digit())
            } else {
                None
            },
    )
}

/// The solver engine: the working grid plus the backtrack stack of prior
/// full-grid snapshots (at most one per branching collapse).
pub struct SudokuSolver {
    board: CellGrid,
    previous_states: Vec<CellGrid>,
}

impl SudokuSolver {
    /// The working grid.
    pub closed spec fn grid(self) -> Seq<Cell> {
        self.board@
    }

    /// The backtrack stack.
    pub closed spec fn stack(self) -> Seq<CellGrid> {
        self.previous_states@
    }

    /// A freshly constructed engine: a live grid and no history yet.
    pub open spec fn wf(self) -> bool {
        &&& grid_ok(self.grid())
        &&& self.stack().len() == 0
    }

    /// The engine's grid has square (`x`, `y`) committed to digit `d`.
    pub open spec fn fixes(self, x: int, y: int, d: u8) -> bool {
        valid_point(x, y) && cell_at(self.grid(), x, y) == Cell::Collapsed(d)
    }

    /// Every square of the engine's grid is committed.
    pub open spec fn complete(self) -> bool {
        grid_complete(self.grid())
    }

    /// An engine whose every square is unresolved with the candidate set
    /// exactly {1..=9}, and an empty backtrack stack.
    pub fn new_empty() -> (s: Self)
        ensures
            s.wf(),
            forall|x: int, y: int|
                valid_point(x, y) ==> (#[trigger] cell_at(s.grid(), x, y)) is Uncollapsed,
            forall|x: int, y: int|
                valid_point(x, y) ==> (#[trigger] cell_at(s.grid(), x, y)).weight() == 9,
            forall|x: int, y: int, d: u8|
                valid_point(x, y) ==> (#[trigger] cell_at(s.grid(), x, y).has_candidate(d) <==> 1
                    <= d <= 9),
    {
        let s = SudokuSolver { board: [Cell::new_empty(); 81], previous_states: Vec::new() };
        proof {
            assert forall|x: int, y: int| valid_point(x, y) implies (#[trigger] cell_at(
                s.board@,
                x,
                y,
            )).wf() && cell_at(s.board@, x, y) is Uncollapsed && cell_at(s.board@, x, y).weight()
                == 9 && (forall|d: u8|
                cell_at(s.board@, x, y).has_candidate(d) <==> 1 <= d <= 9) by {
                assert(s.board@[grid_index(x, y)].wf());
                assert(s.board@[grid_index(x, y)] is Uncollapsed);
                assert(forall|d: u8| s.board@[grid_index(x, y)].has_candidate(d) <==> 1 <= d <= 9);
            }
        }
        s
    }

    /// An engine seeded from a board of givens: every given digit is
    /// committed and propagated, in row-major order.  On success the
    /// committed squares are exactly the givens, and every other square's
    /// candidate set is exactly 1..=9 minus the digits of its seeded
    /// relatives.  Construction fails exactly when the seed repeats a
    /// digit among relatives or leaves a square no digit at all; in
    /// particular a seed with a rule-abiding completion -- a full
    /// consistent seed included -- always constructs.
    #[verifier::loop_isolation(false)]
    pub fn new(starting_state: &DigitBoard) -> (r: Result<SudokuSolver, ErrorNoSolution>)
        requires
            board_wf(starting_state@),
        ensures
            r matches Ok(s) ==> {
                &&& s.wf()
                &&& forall|x: int, y: int|
                    valid_point(x, y) ==> ((#[trigger] digit_at(
                        starting_state@,
                        x,
                        y,
                    )) matches Some(d) ==> s.fixes(x, y, d))
                &&& (board_full(starting_state@) ==> s.complete())
                &&& forall|x: int, y: int|
                    valid_point(x, y) && (#[trigger] cell_at(s.grid(), x, y)) is Collapsed
                        ==> digit_at(starting_state@, x, y) == Some(cell_at(s.grid(), x, y).digit())
                &&& forall|x: int, y: int, d: u8|
                    valid_point(x, y) && 1 <= d <= 9 && cell_at(s.grid(), x, y) is Uncollapsed
                        ==> (#[trigger] cell_at(s.grid(), x, y).has_candidate(d)
                        <==> !relative_digit(starting_state@, x, y, d))
                &&& forall|sol: Seq<Option<u8>>|
                    board_solved(sol) && #[trigger] board_extends(sol, starting_state@)
                        ==> grid_admits(s.grid(), sol)
            },
            r is Ok ==> board_consistent(starting_state@),
            board_full(starting_state@) && board_consistent(starting_state@) ==> r is Ok,
            forall|sol: Seq<Option<u8>>|
                board_solved(sol) && #[trigger] board_extends(sol, starting_state@) ==> r is Ok,
            r is Err <==> (!board_consistent(starting_state@) || exists|x: int, y: int|
                #[trigger] dead_square(starting_state@, x, y)),
    {
        let mut sudoku = SudokuSolver::new_empty();
        let ghost b = starting_state@;
        let mut y: usize = 0;
        while y < 9
            invariant
                y <= 9,
                grid_ok(sudoku.grid()),
                sudoku.stack().len() == 0,
                forall|qx: int, qy: int|
                    valid_point(qx, qy) && qy < y ==> ((#[trigger] digit_at(
                        b,
                        qx,
                        qy,
                    )) matches Some(d) ==> cell_at(sudoku.grid(), qx, qy) == Cell::Collapsed(d)),
                forall|qx: int, qy: int|
                    valid_point(qx, qy) && (#[trigger] cell_at(
                        sudoku.grid(),
                        qx,
                        qy,
                    )) is Collapsed ==> (qy < y && digit_at(b, qx, qy) is Some),
                forall|qx: int, qy: int, d: u8|
                    valid_point(qx, qy) && 1 <= d <= 9 && cell_at(sudoku.grid(), qx, qy)
                        is Uncollapsed ==> (#[trigger] cell_at(
                        sudoku.grid(),
                        qx,
                        qy,
                    ).has_candidate(d) <==> !seeded_relative_before(b, qx, qy, d, 0, y as int)),
            decreases 9 - y,
        {
            let mut x: usize = 0;
            while x < 9
                invariant
                    y < 9,
                    x <= 9,
                    grid_ok(sudoku.grid()),
                    sudoku.stack().len() == 0,
                    forall|qx: int, qy: int|
                        valid_point(qx, qy) && (qy < y || (qy == y && qx < x)) ==> ((
                        #[trigger] digit_at(b, qx, qy)) matches Some(d) ==> cell_at(
                            sudoku.grid(),
                            qx,
                            qy,
                        ) == Cell::Collapsed(d)),
                    forall|qx: int, qy: int|
                        valid_point(qx, qy) && (#[trigger] cell_at(
                            sudoku.grid(),
                            qx,
                            qy,
                        )) is Collapsed ==> ((qy < y || (qy == y && qx < x)) && digit_at(
                            b,
                            qx,
                            qy,
                        ) is Some),
                    forall|qx: int, qy: int, d: u8|
                        valid_point(qx, qy) && 1 <= d <= 9 && cell_at(sudoku.grid(), qx, qy)
                            is Uncollapsed ==> (#[trigger] cell_at(
                            sudoku.grid(),
                            qx,
                            qy,
                        ).has_candidate(d) <==> !seeded_relative_before(
                            b,
                            qx,
                            qy,
                            d,
                            x as int,
                            y as int,
                        )),
                decreases 9 - x,
            {
                let ghost gpre = sudoku.grid();
                let ghost px = x as int;
                let ghost py = y as int;
                match starting_state[y * 9 + x] {
                    Some(v) => {
                        proof {
                            assert(digit_at(b, px, py) == Some(v));
                            assert(cell_at(gpre, px, py) is Uncollapsed);
                        }
                        let p = Point::new(x, y);
                        sudoku.put_cell(p, Cell::new_filled(v));
                        let ghost g1 = sudoku.grid();
                        proof {
                            assert forall|qx: int, qy: int| valid_point(qx, qy) implies
                            #[trigger] cell_at(g1, qx, qy) == (if qx == px && qy == py {
                                Cell::Collapsed(v)
                            } else {
                                cell_at(gpre, qx, qy)
                            }) by {
                                lemma_cell_at_update(gpre, qx, qy, px, py, Cell::Collapsed(v));
                            }
                            assert(grid_wf(g1));
                        }
                        match sudoku.propagate_collapse(p, v) {
                            Err(()) => {
                                proof {
                                    let (wx, wy) = choose|wx: int, wy: int|
                                        {
                                            &&& #[trigger] sees(px, py, wx, wy)
                                            &&& match cell_at(g1, wx, wy) {
                                                Cell::Collapsed(w) => w == v,
                                                Cell::Uncollapsed(_) => forall|d: u8|
                                                    cell_at(g1, wx, wy).has_candidate(d) ==> d
                                                        == v,
                                            }
                                        };
                                    assert(cell_at(g1, wx, wy) == cell_at(gpre, wx, wy));
                                    assert(sees(wx, wy, px, py));
                                    match cell_at(gpre, wx, wy) {
                                        Cell::Collapsed(w) => {
                                            assert(digit_at(b, wx, wy) is Some);
                                            let dq = digit_at(b, wx, wy)->0;
                                            assert(cell_at(gpre, wx, wy) == Cell::Collapsed(dq));
                                            assert(dq == v);
                                            assert(digit_at(b, wx, wy) == Some(v));
                                            assert(!board_consistent(b));
                                        },
                                        Cell::Uncollapsed(_) => {
                                            assert forall|d: u8|
                                                cell_at(gpre, wx, wy).has_candidate(
                                                    d,
                                                ) implies d == v by {
                                                assert(cell_at(g1, wx, wy).has_candidate(d));
                                            }
                                            match digit_at(b, wx, wy) {
                                                Some(w) => {
                                                    if w == v {
                                                        assert(!board_consistent(b));
                                                    } else {
                                                        assert(!cell_at(
                                                            gpre,
                                                            wx,
                                                            wy,
                                                        ).has_candidate(w));
                                                        assert(seeded_relative_before(
                                                            b,
                                                            wx,
                                                            wy,
                                                            w,
                                                            px,
                                                            py,
                                                        ));
                                                        let (rx, ry) = choose|rx: int, ry: int|
                                                            #[trigger] sees(wx, wy, rx, ry) && (ry
                                                                < py || (ry == py && rx < px))
                                                                && digit_at(b, rx, ry) == Some(w);
                                                        assert(digit_at(b, wx, wy) == Some(w));
                                                        assert(!board_consistent(b));
                                                    }
                                                },
                                                None => {
                                                    assert forall|d: u8|
                                                        1 <= d <= 9 implies #[trigger] relative_digit(
                                                        b,
                                                        wx,
                                                        wy,
                                                        d,
                                                    ) by {
                                                        if d == v {
                                                            assert(sees(wx, wy, px, py)
                                                                && digit_at(b, px, py) == Some(
                                                                d,
                                                            ));
                                                        } else {
                                                            assert(!cell_at(
                                                                gpre,
                                                                wx,
                                                                wy,
                                                            ).has_candidate(d));
                                                            assert(seeded_relative_before(
                                                                b,
                                                                wx,
                                                                wy,
                                                                d,
                                                                px,
                                                                py,
                                                            ));
                                                            let (rx, ry) = choose|
                                                                rx: int,
                                                                ry: int,
                                                            |
                                                                #[trigger] sees(wx, wy, rx, ry)
                                                                    && (ry < py || (ry == py && rx
                                                                    < px)) && digit_at(b, rx, ry)
                                                                    == Some(d);
                                                            assert(sees(wx, wy, rx, ry)
                                                                && digit_at(b, rx, ry) == Some(
                                                                d,
                                                            ));
                                                        }
                                                    }
                                                    assert(dead_square(b, wx, wy));
                                                },
                                            }
                                        },
                                    }
                                    assert(!board_consistent(b) || exists|dx: int, dy: int|
                                        #[trigger] dead_square(b, dx, dy));
                                    if board_consistent(b) {
                                        let (dx2, dy2) = choose|dx2: int, dy2: int|
                                            #[trigger] dead_square(b, dx2, dy2);
                                        assert(digit_at(b, dx2, dy2) is None);
                                        assert(!board_full(b));
                                    }
                                    assert forall|sol: Seq<Option<u8>>|
                                        !(board_solved(sol) && #[trigger] board_extends(
                                            sol,
                                            b,
                                        )) by {
                                        if board_solved(sol) && board_extends(sol, b) {
                                            if !board_consistent(b) {
                                                lemma_extends_consistent(sol, b);
                                            } else {
                                                let (dx2, dy2) = choose|dx2: int, dy2: int|
                                                    #[trigger] dead_square(b, dx2, dy2);
                                                lemma_dead_square_unsolvable(b, dx2, dy2, sol);
                                            }
                                        }
                                    }
                                }
                                return Err(ErrorNoSolution);
                            },
                            Ok(()) => {
                                proof {
                                    let g2 = sudoku.grid();
                                    lemma_grid_ok_after_commit(gpre, g1, g2, px, py, v);
                                    assert(cell_at(g2, px, py) == Cell::Collapsed(v));
                                    assert forall|qx: int, qy: int, d: u8|
                                        valid_point(qx, qy) && 1 <= d <= 9 && cell_at(g2, qx, qy)
                                            is Uncollapsed implies (#[trigger] cell_at(
                                        g2,
                                        qx,
                                        qy,
                                    ).has_candidate(d) <==> !seeded_relative_before(
                                        b,
                                        qx,
                                        qy,
                                        d,
                                        px + 1,
                                        py,
                                    )) by {
                                        assert(cell_at(g1, qx, qy) == cell_at(gpre, qx, qy));
                                        if sees(px, py, qx, qy) {
                                            assert(value_cleared(
                                                cell_at(g2, qx, qy),
                                                cell_at(g1, qx, qy),
                                                v,
                                            ));
                                            assert(sees(qx, qy, px, py));
                                            if cell_at(g2, qx, qy).has_candidate(d) {
                                                assert(cell_at(gpre, qx, qy).has_candidate(d)
                                                    && d != v);
                                                if seeded_relative_before(
                                                    b,
                                                    qx,
                                                    qy,
                                                    d,
                                                    px + 1,
                                                    py,
                                                ) {
                                                    let (rx, ry) = choose|rx: int, ry: int|
                                                        #[trigger] sees(qx, qy, rx, ry) && (ry < py
                                                            || (ry == py && rx < px + 1))
                                                            && digit_at(b, rx, ry) == Some(d);
                                                    assert(!(rx == px && ry == py));
                                                    assert(seeded_relative_before(
                                                        b,
                                                        qx,
                                                        qy,
                                                        d,
                                                        px,
                                                        py,
                                                    ));
                                                    assert(false);
                                                }
                                            } else {
                                                if !seeded_relative_before(
                                                    b,
                                                    qx,
                                                    qy,
                                                    d,
                                                    px + 1,
                                                    py,
                                                ) {
                                                    if d == v {
                                                        assert(sees(qx, qy, px, py) && (py < py
                                                            || (py == py && px < px + 1))
                                                            && digit_at(b, px, py) == Some(d));
                                                        assert(false);
                                                    } else {
                                                        assert(!seeded_relative_before(
                                                            b,
                                                            qx,
                                                            qy,
                                                            d,
                                                            px,
                                                            py,
                                                        ));
                                                        assert(cell_at(gpre, qx, qy).has_candidate(
                                                            d,
                                                        ));
                                                        assert(cell_at(g2, qx, qy).has_candidate(
                                                            d,
                                                        ));
                                                        assert(false);
                                                    }
                                                }
                                            }
                                        } else {
                                            assert(cell_at(g2, qx, qy) == cell_at(gpre, qx, qy));
                                            if seeded_relative_before(b, qx, qy, d, px + 1, py) {
                                                let (rx, ry) = choose|rx: int, ry: int|
                                                    #[trigger] sees(qx, qy, rx, ry) && (ry < py || (
                                                    ry == py && rx < px + 1)) && digit_at(
                                                        b,
                                                        rx,
                                                        ry,
                                                    ) == Some(d);
                                                if rx == px && ry == py {
                                                    assert(sees(px, py, qx, qy));
                                                    assert(false);
                                                }
                                                assert(seeded_relative_before(
                                                    b,
                                                    qx,
                                                    qy,
                                                    d,
                                                    px,
                                                    py,
                                                ));
                                            }
                                            if seeded_relative_before(b, qx, qy, d, px, py) {
                                                let (rx, ry) = choose|rx: int, ry: int|
                                                    #[trigger] sees(qx, qy, rx, ry) && (ry < py || (
                                                    ry == py && rx < px)) && digit_at(b, rx, ry)
                                                        == Some(d);
                                                assert(seeded_relative_before(
                                                    b,
                                                    qx,
                                                    qy,
                                                    d,
                                                    px + 1,
                                                    py,
                                                ));
                                            }
                                        }
                                    }
                                }
                            },
                        }
                    },
                    None => {
                        proof {
                            assert forall|qx: int, qy: int, d: u8|
                                valid_point(qx, qy) && 1 <= d <= 9 && cell_at(
                                    sudoku.grid(),
                                    qx,
                                    qy,
                                ) is Uncollapsed implies (#[trigger] cell_at(
                                sudoku.grid(),
                                qx,
                                qy,
                            ).has_candidate(d) <==> !seeded_relative_before(
                                b,
                                qx,
                                qy,
                                d,
                                px + 1,
                                py,
                            )) by {
                                if seeded_relative_before(b, qx, qy, d, px + 1, py) {
                                    let (rx, ry) = choose|rx: int, ry: int|
                                        #[trigger] sees(qx, qy, rx, ry) && (ry < py || (ry == py
                                            && rx < px + 1)) && digit_at(b, rx, ry) == Some(d);
                                    assert(!(rx == px && ry == py));
                                    assert(seeded_relative_before(b, qx, qy, d, px, py));
                                }
                                if seeded_relative_before(b, qx, qy, d, px, py) {
                                    let (rx, ry) = choose|rx: int, ry: int|
                                        #[trigger] sees(qx, qy, rx, ry) && (ry < py || (ry == py
                                            && rx < px)) && digit_at(b, rx, ry) == Some(d);
                                    assert(seeded_relative_before(b, qx, qy, d, px + 1, py));
                                }
                            }
                        }
                    },
                }
                x = x + 1;
            }
            proof {
                assert forall|qx: int, qy: int, d: u8|
                    valid_point(qx, qy) && 1 <= d <= 9 && cell_at(sudoku.grid(), qx, qy)
                        is Uncollapsed implies (#[trigger] cell_at(
                    sudoku.grid(),
                    qx,
                    qy,
                ).has_candidate(d) <==> !seeded_relative_before(b, qx, qy, d, 0, y as int + 1)) by {
                    if seeded_relative_before(b, qx, qy, d, 0, y as int + 1) {
                        let (rx, ry) = choose|rx: int, ry: int|
                            #[trigger] sees(qx, qy, rx, ry) && (ry < y as int + 1 || (ry == y as int
                                + 1 && rx < 0)) && digit_at(b, rx, ry) == Some(d);
                        assert(seeded_relative_before(b, qx, qy, d, 9, y as int));
                    }
                    if seeded_relative_before(b, qx, qy, d, 9, y as int) {
                        let (rx, ry) = choose|rx: int, ry: int|
                            #[trigger] sees(qx, qy, rx, ry) && (ry < y as int || (ry == y as int
                                && rx < 9)) && digit_at(b, rx, ry) == Some(d);
                        assert(seeded_relative_before(b, qx, qy, d, 0, y as int + 1));
                    }
                }
            }
            y = y + 1;
        }
        proof {
            let g = sudoku.grid();
            assert forall|x1: int, y1: int, x2: int, y2: int|
                sees(x1, y1, x2, y2) && #[trigger] digit_at(b, x1, y1) is Some && #[trigger] digit_at(
                    b,
                    x2,
                    y2,
                ) is Some implies digit_at(b, x1, y1) != digit_at(b, x2, y2) by {
                assert(cell_at(g, x1, y1) == Cell::Collapsed(digit_at(b, x1, y1)->0));
                assert(cell_at(g, x2, y2) == Cell::Collapsed(digit_at(b, x2, y2)->0));
            }
            assert(board_consistent(b));
            if board_full(b) {
                assert forall|x: int, y: int| valid_point(x, y) implies (#[trigger] cell_at(
                    g,
                    x,
                    y,
                )) is Collapsed by {
                    assert(digit_at(b, x, y) is Some);
                }
            }
            assert forall|x: int, y: int, d: u8|
                valid_point(x, y) && 1 <= d <= 9 && cell_at(g, x, y) is Uncollapsed implies (
            #[trigger] cell_at(g, x, y).has_candidate(d) <==> !relative_digit(b, x, y, d)) by {
                if seeded_relative_before(b, x, y, d, 0, 9) {
                    let (rx, ry) = choose|rx: int, ry: int|
                        #[trigger] sees(x, y, rx, ry) && (ry < 9 || (ry == 9 && rx < 0))
                            && digit_at(b, rx, ry) == Some(d);
                    assert(relative_digit(b, x, y, d));
                }
                if relative_digit(b, x, y, d) {
                    let (rx, ry) = choose|rx: int, ry: int|
                        #[trigger] sees(x, y, rx, ry) && digit_at(b, rx, ry) == Some(d);
                    assert(seeded_relative_before(b, x, y, d, 0, 9));
                }
            }
            if exists|dx: int, dy: int| #[trigger] dead_square(b, dx, dy) {
                let (dx2, dy2) = choose|dx2: int, dy2: int| #[trigger] dead_square(b, dx2, dy2);
                assert(cell_at(g, dx2, dy2) is Uncollapsed);
                let c = cell_at(g, dx2, dy2);
                c.lemma_weight_zero();
                c.lemma_candidate_in_range();
                assert(c.weight() >= 1);
                assert(!(forall|e: u8| !c.has_candidate(e)));
                let e = choose|e: u8| c.has_candidate(e);
                assert(1 <= e <= 9);
                assert(relative_digit(b, dx2, dy2, e));
                assert(!c.has_candidate(e));
                assert(false);
            }
            assert forall|sol: Seq<Option<u8>>|
                board_solved(sol) && #[trigger] board_extends(sol, b) implies grid_admits(
                g,
                sol,
            ) by {
                assert forall|x: int, y: int| valid_point(x, y) implies {
                    let c = #[trigger] cell_at(g, x, y);
                    &&& (c is Collapsed ==> digit_at(sol, x, y) == Some(c.digit()))
                    &&& (c is Uncollapsed ==> c.has_candidate(digit_at(sol, x, y)->0))
                } by {
                    let c = cell_at(g, x, y);
                    if c is Collapsed {
                        assert(digit_at(b, x, y) == Some(c.digit()));
                        assert(sol[grid_index(x, y)] == b[grid_index(x, y)]);
                    } else {
                        assert(sol[grid_index(x, y)] is Some);
                        let e0 = digit_at(sol, x, y)->0;
                        assert(sol[grid_index(x, y)] matches Some(dd) ==> 1 <= dd <= 9);
                        if relative_digit(b, x, y, e0) {
                            let (rx, ry) = choose|rx: int, ry: int|
                                #[trigger] sees(x, y, rx, ry) && digit_at(b, rx, ry) == Some(e0);
                            assert(sol[grid_index(rx, ry)] == b[grid_index(rx, ry)]);
                            assert(digit_at(sol, rx, ry) == Some(e0));
                            assert(digit_at(sol, x, y) != digit_at(sol, rx, ry));
                            assert(false);
                        }
                        assert(c.has_candidate(e0));
                    }
                }
            }
        }
        Ok(sudoku)
    }

    /// Copy of the square at `p`.
    fn get_cell(&self, p: Point) -> (c: Cell)
        requires
            valid_point(p.x as int, p.y as int),
            self.grid().len() == 81,
        ensures
            c == cell_at(self.grid(), p.x as int, p.y as int),
    {
        self.board[p.y * 9 + p.x]
    }

    /// Replaces the square at `p`.
    fn put_cell(&mut self, p: Point, c: Cell)
        requires
            valid_point(p.x as int, p.y as int),
            old(self).grid().len() == 81,
        ensures
            final(self).grid() == old(self).grid().update(
                grid_index(p.x as int, p.y as int),
                c,
            ),
            final(self).stack() == old(self).stack(),
    {
        self.board[p.y * 9 + p.x] = c;
    }

    /// Top-left corner of the 3x3 region that `cell_coords` belongs to.
    fn get_region_coords(&self, cell_coords: Point) -> (o: Point)
        requires
            valid_point(cell_coords.x as int, cell_coords.y as int),
        ensures
            o.x == (cell_coords.x as int / 3) * 3,
            o.y == (cell_coords.y as int / 3) * 3,
            o.x <= 6 && o.y <= 6,
    {
        Point::new(cell_coords.x / 3, cell_coords.y / 3).scale(3)
    }

    /// All relatives of `cell_coords`: exactly the 20 distinct squares
    /// that share its row, its column, or its region, the square itself
    /// excluded.
    fn get_relatives(&self, cell_coords: Point) -> (r: Vec<Point>)
        requires
            valid_point(cell_coords.x as int, cell_coords.y as int),
        ensures
            r@.len() == 20,
            forall|i: int, j: int| 0 <= i < j < r@.len() ==> #[trigger] r@[i] != #[trigger] r@[j],
            forall|i: int|
                0 <= i < r@.len() ==> sees(
                    cell_coords.x as int,
                    cell_coords.y as int,
                    (#[trigger] r@[i]).x as int,
                    r@[i].y as int,
                ),
            forall|qx: int, qy: int|
                #[trigger] sees(cell_coords.x as int, cell_coords.y as int, qx, qy)
                    ==> r@.contains(Point { x: qx as usize, y: qy as usize }),
    {
        let x = cell_coords.x;
        let y = cell_coords.y;
        let mut r: Vec<Point> = Vec::new();
        let mut j: usize = 0;
        while j < 9
            invariant
                valid_point(x as int, y as int),
                j <= 9,
                r@.len() as int == j - (if j > x {
                    1int
                } else {
                    0int
                }),
                forall|i: int|
                    0 <= i < r@.len() ==> (#[trigger] r@[i]).y == y && r@[i].x < j && r@[i].x != x,
                forall|i1: int, i2: int| 0 <= i1 < i2 < r@.len() ==> #[trigger] r@[i1] != #[trigger] r@[i2],
                forall|i: int|
                    0 <= i < r@.len() ==> sees(
                        x as int,
                        y as int,
                        (#[trigger] r@[i]).x as int,
                        r@[i].y as int,
                    ),
                forall|q: Point| q.y == y && q.x < j && q.x != x ==> #[trigger] r@.contains(q),
            decreases 9 - j,
        {
            if j != x {
                r.push(Point::new(j, y));
            }
            j = j + 1;
        }
        j = 0;
        while j < 9
            invariant
                valid_point(x as int, y as int),
                j <= 9,
                r@.len() as int == 8 + j - (if j > y {
                    1int
                } else {
                    0int
                }),
                forall|i: int|
                    0 <= i < 8 ==> (#[trigger] r@[i]).y == y && r@[i].x != x,
                forall|i: int|
                    8 <= i < r@.len() ==> (#[trigger] r@[i]).x == x && r@[i].y < j && r@[i].y != y,
                forall|i1: int, i2: int| 0 <= i1 < i2 < r@.len() ==> #[trigger] r@[i1] != #[trigger] r@[i2],
                forall|i: int|
                    0 <= i < r@.len() ==> sees(
                        x as int,
                        y as int,
                        (#[trigger] r@[i]).x as int,
                        r@[i].y as int,
                    ),
                forall|q: Point| q.y == y && q.x < 9 && q.x != x ==> #[trigger] r@.contains(q),
                forall|q: Point| q.x == x && q.y < j && q.y != y ==> #[trigger] r@.contains(q),
            decreases 9 - j,
        {
            if j != y {
                r.push(Point::new(x, j));
            }
            j = j + 1;
        }
        let origin = self.get_region_coords(cell_coords);
        let mut dy: usize = 0;
        while dy < 3
            invariant
                valid_point(x as int, y as int),
                origin.x == (x as int / 3) * 3 && origin.y == (y as int / 3) * 3,
                origin.x <= 6 && origin.y <= 6,
                origin.x <= x < origin.x + 3 && origin.y <= y < origin.y + 3,
                dy <= 3,
                r@.len() as int == 16 + 2 * (dy - (if y - origin.y < dy {
                    1int
                } else {
                    0int
                })),
                forall|i: int|
                    0 <= i < 8 ==> (#[trigger] r@[i]).y == y && r@[i].x != x,
                forall|i: int| 8 <= i < 16 ==> (#[trigger] r@[i]).x == x && r@[i].y != y,
                forall|i: int|
                    16 <= i < r@.len() ==> (#[trigger] r@[i]).x != x && r@[i].y != y && r@[i].y
                        < origin.y + dy,
                forall|i1: int, i2: int| 0 <= i1 < i2 < r@.len() ==> #[trigger] r@[i1] != #[trigger] r@[i2],
                forall|i: int|
                    0 <= i < r@.len() ==> sees(
                        x as int,
                        y as int,
                        (#[trigger] r@[i]).x as int,
                        r@[i].y as int,
                    ),
                forall|q: Point| q.y == y && q.x < 9 && q.x != x ==> #[trigger] r@.contains(q),
                forall|q: Point| q.x == x && q.y < 9 && q.y != y ==> #[trigger] r@.contains(q),
                forall|q: Point|
                    origin.x <= q.x < origin.x + 3 && origin.y <= q.y < origin.y + dy && q.x != x
                        && q.y != y ==> #[trigger] r@.contains(q),
            decreases 3 - dy,
        {
            let ghost outer_len = r@.len();
            let mut dx: usize = 0;
            while dx < 3
                invariant
                    valid_point(x as int, y as int),
                    origin.x == (x as int / 3) * 3 && origin.y == (y as int / 3) * 3,
                    origin.x <= 6 && origin.y <= 6,
                    origin.x <= x < origin.x + 3 && origin.y <= y < origin.y + 3,
                    dy < 3,
                    dx <= 3,
                    outer_len == 16 + 2 * (dy - (if y - origin.y < dy {
                        1int
                    } else {
                        0int
                    })),
                    r@.len() as int == outer_len + (if origin.y + dy == y {
                        0int
                    } else {
                        dx - (if x - origin.x < dx {
                            1int
                        } else {
                            0int
                        })
                    }),
                    forall|i: int|
                        0 <= i < 8 ==> (#[trigger] r@[i]).y == y && r@[i].x != x,
                    forall|i: int| 8 <= i < 16 ==> (#[trigger] r@[i]).x == x && r@[i].y != y,
                    forall|i: int|
                        16 <= i < r@.len() ==> (#[trigger] r@[i]).x != x && r@[i].y != y && (
                        r@[i].y < origin.y + dy || (r@[i].y == origin.y + dy && r@[i].x < origin.x
                            + dx)),
                    forall|i1: int, i2: int|
                        0 <= i1 < i2 < r@.len() ==> #[trigger] r@[i1] != #[trigger] r@[i2],
                    forall|i: int|
                        0 <= i < r@.len() ==> sees(
                            x as int,
                            y as int,
                            (#[trigger] r@[i]).x as int,
                            r@[i].y as int,
                        ),
                    forall|q: Point| q.y == y && q.x < 9 && q.x != x ==> #[trigger] r@.contains(q),
                    forall|q: Point| q.x == x && q.y < 9 && q.y != y ==> #[trigger] r@.contains(q),
                    forall|q: Point|
                        origin.x <= q.x < origin.x + 3 && origin.y <= q.y < origin.y + dy && q.x
                            != x && q.y != y ==> #[trigger] r@.contains(q),
                    forall|q: Point|
                        q.y == origin.y + dy && origin.x <= q.x < origin.x + dx && q.x != x && q.y
                            != y ==> #[trigger] r@.contains(q),
                decreases 3 - dx,
            {
                let cx = origin.x + dx;
                let cy = origin.y + dy;
                if cx != x && cy != y {
                    proof {
                        lemma_same_band(x as int, cx as int);
                        lemma_same_band(y as int, cy as int);
                        assert(sees(x as int, y as int, cx as int, cy as int));
                    }
                    r.push(Point::new(cx, cy));
                }
                dx = dx + 1;
            }
            dy = dy + 1;
        }
        proof {
            assert forall|qx: int, qy: int| #[trigger] sees(
                x as int,
                y as int,
                qx,
                qy,
            ) implies r@.contains(Point { x: qx as usize, y: qy as usize }) by {
                let q = Point { x: qx as usize, y: qy as usize };
                if qy == y as int {
                    assert(q.y == y && q.x < 9 && q.x != x);
                } else if qx == x as int {
                    assert(q.x == x && q.y < 9 && q.y != y);
                } else {
                    lemma_same_band(x as int, qx);
                    lemma_same_band(y as int, qy);
                    assert(origin.x <= q.x < origin.x + 3 && origin.y <= q.y < origin.y + 3);
                }
            }
        }
        r
    }

    /// Commits the square at `cell_coords` to one of its candidates and
    /// propagates the choice to its relatives.  When the square had more
    /// than one candidate the branch may fail, so a snapshot of the grid
    /// -- with that square holding the candidates still left to try -- is
    /// pushed first; the step contradicts exactly when some relative had
    /// no candidate other than the chosen digit.
    fn collapse_cell_and_save_state(&mut self, cell_coords: Point) -> (res: Result<(), ()>)
        requires
            valid_point(cell_coords.x as int, cell_coords.y as int),
            grid_ok(old(self).grid()),
            cell_at(old(self).grid(), cell_coords.x as int, cell_coords.y as int) is Uncollapsed,
        ensures
            old(self).stack().len() <= final(self).stack().len() <= old(self).stack().len() + 1,
            forall|i: int|
                0 <= i < old(self).stack().len() ==> #[trigger] final(self).stack()[i] == old(
                    self,
                ).stack()[i],
            final(self).stack().len() == old(self).stack().len() + 1 ==> {
                &&& grid_ok(final(self).stack().last()@)
                &&& grid_pins(final(self).stack().last()@, old(self).grid())
                &&& grid_weight(final(self).stack().last()@) + 1 == grid_weight(old(self).grid())
                &&& grid_weight(old(self).grid()) >= 2
            },
            grid_wf(final(self).grid()),
            grid_pins(final(self).grid(), old(self).grid()),
            res is Ok ==> grid_ok(final(self).grid()),
            res is Ok && final(self).stack().len() == old(self).stack().len() + 1 ==> grid_weight(
                final(self).grid(),
            ) + 2 <= grid_weight(old(self).grid()),
            res is Ok && final(self).stack().len() == old(self).stack().len() ==> grid_weight(
                final(self).grid(),
            ) + 1 <= grid_weight(old(self).grid()),
            cell_at(
                final(self).grid(),
                cell_coords.x as int,
                cell_coords.y as int,
            ) is Collapsed,
            cell_at(old(self).grid(), cell_coords.x as int, cell_coords.y as int).has_candidate(
                cell_at(final(self).grid(), cell_coords.x as int, cell_coords.y as int).digit(),
            ),
            (final(self).stack().len() == old(self).stack().len() + 1) <==> cell_at(
                old(self).grid(),
                cell_coords.x as int,
                cell_coords.y as int,
            ).weight() > 1,
            final(self).stack().len() == old(self).stack().len() + 1 ==> {
                let snap = final(self).stack().last()@;
                let d = cell_at(
                    final(self).grid(),
                    cell_coords.x as int,
                    cell_coords.y as int,
                ).digit();
                &&& forall|x: int, y: int|
                    valid_point(x, y) && !(x == cell_coords.x as int && y == cell_coords.y as int)
                        ==> #[trigger] cell_at(snap, x, y) == cell_at(old(self).grid(), x, y)
                &&& cell_at(snap, cell_coords.x as int, cell_coords.y as int) is Uncollapsed
                &&& forall|e: u8|
                    #[trigger] cell_at(
                        snap,
                        cell_coords.x as int,
                        cell_coords.y as int,
                    ).has_candidate(e) <==> (cell_at(
                        old(self).grid(),
                        cell_coords.x as int,
                        cell_coords.y as int,
                    ).has_candidate(e) && e != d)
            },
            res is Ok ==> forall|x: int, y: int|
                #[trigger] sees(cell_coords.x as int, cell_coords.y as int, x, y) ==> value_cleared(
                    cell_at(final(self).grid(), x, y),
                    cell_at(old(self).grid(), x, y),
                    cell_at(final(self).grid(), cell_coords.x as int, cell_coords.y as int).digit(),
                ),
            res is Ok ==> forall|x: int, y: int|
                valid_point(x, y) && !sees(cell_coords.x as int, cell_coords.y as int, x, y) && !(x
                    == cell_coords.x as int && y == cell_coords.y as int) ==> #[trigger] cell_at(
                    final(self).grid(),
                    x,
                    y,
                ) == cell_at(old(self).grid(), x, y),
            res is Err <==> exists|x: int, y: int|
                #[trigger] sees(cell_coords.x as int, cell_coords.y as int, x, y) && cell_at(
                    old(self).grid(),
                    x,
                    y,
                ) is Uncollapsed && (forall|e: u8|
                    cell_at(old(self).grid(), x, y).has_candidate(e) ==> e == cell_at(
                        final(self).grid(),
                        cell_coords.x as int,
                        cell_coords.y as int,
                    ).digit()),
            forall|b: Seq<Option<u8>>|
                board_solved(b) && #[trigger] grid_admits(old(self).grid(), b) ==> (if digit_at(
                    b,
                    cell_coords.x as int,
                    cell_coords.y as int,
                ) == Some(
                    cell_at(final(self).grid(), cell_coords.x as int, cell_coords.y as int).digit(),
                ) {
                    res is Ok && grid_admits(final(self).grid(), b)
                } else {
                    final(self).stack().len() == old(self).stack().len() + 1 && grid_admits(
                        final(self).stack().last()@,
                        b,
                    )
                }),
    {
        let ghost g0 = self.grid();
        let ghost stack0 = self.stack();
        let p = cell_coords;
        let ghost px = p.x as int;
        let ghost py = p.y as int;
        let ghost idx = grid_index(px, py);
        let mut cell = self.get_cell(p);
        let entropy = cell.get_entropy();
        proof {
            assert(cell.weight() >= 1);
        }
        let should_save = entropy > 1;
        let rollback = cell.collapse();
        let collapsed_to_num = match cell {
            Cell::Collapsed(d) => d,
            Cell::Uncollapsed(_) => {
                proof {
                    assert(false);
                }
                unreached()
            },
        };
        let ghost d = collapsed_to_num;
        if should_save {
            let mut snapshot = self.board;
            snapshot[p.y * 9 + p.x] = rollback;
            proof {
                let s = snapshot@;
                assert(s == g0.update(idx, rollback));
                assert forall|x: int, y: int| valid_point(x, y) implies #[trigger] cell_at(s, x, y)
                    == (if x == px && y == py {
                    rollback
                } else {
                    cell_at(g0, x, y)
                }) by {
                    lemma_cell_at_update(g0, x, y, px, py, rollback);
                }
                assert(grid_wf(s));
                assert forall|x1: int, y1: int, x2: int, y2: int|
                    sees(x1, y1, x2, y2) && #[trigger] cell_at(s, x1, y1) is Collapsed implies !(
                #[trigger] cell_at(s, x2, y2)).has_candidate(cell_at(s, x1, y1).digit()) by {
                    assert(cell_at(s, x1, y1) == cell_at(g0, x1, y1));
                    if x2 == px && y2 == py {
                        assert(!cell_at(g0, px, py).has_candidate(cell_at(g0, x1, y1).digit()));
                    }
                }
                assert(grid_propagated(s));
                assert(grid_consistent(s));
                assert(grid_nonempty(s));
                lemma_weight_from_update(g0, 0, idx, rollback);
                assert(grid_weight(s) + 1 == grid_weight(g0));
                lemma_weight_from_lower(g0, 0, idx);
                assert(grid_weight(g0) >= 2);
                assert(grid_pins(s, g0));
            }
            self.previous_states.push(snapshot);
        }
        self.put_cell(p, cell);
        let ghost g1 = self.grid();
        proof {
            assert forall|x: int, y: int| valid_point(x, y) implies #[trigger] cell_at(g1, x, y)
                == (if x == px && y == py {
                Cell::Collapsed(d)
            } else {
                cell_at(g0, x, y)
            }) by {
                lemma_cell_at_update(g0, x, y, px, py, cell);
            }
            assert(grid_wf(g1));
            lemma_weight_from_update(g0, 0, idx, cell);
            assert(grid_weight(g1) + cell_at(g0, px, py).weight() == grid_weight(g0));
        }
        let res = self.propagate_collapse(p, collapsed_to_num);
        proof {
            let g2 = self.grid();
            assert(cell_at(g2, px, py) == cell_at(g1, px, py));
            assert(cell_at(g2, px, py) == Cell::Collapsed(d));
            if res is Ok {
                lemma_grid_ok_after_commit(g0, g1, g2, px, py, d);
                assert forall|j: int| 0 <= j < 81 implies (#[trigger] g2[j]).weight()
                    <= g1[j].weight() by {
                    let x = j % 9;
                    let y = j / 9;
                    assert(valid_point(x, y));
                    assert(grid_index(x, y) == j);
                    assert(cell_at(g2, x, y).weight() <= cell_at(g1, x, y).weight());
                }
                lemma_weight_from_le(g1, g2, 0);
                assert(grid_weight(g2) <= grid_weight(g1));
                assert forall|x: int, y: int| #[trigger] sees(px, py, x, y) implies value_cleared(
                    cell_at(g2, x, y),
                    cell_at(g0, x, y),
                    d,
                ) by {
                    assert(value_cleared(cell_at(g2, x, y), cell_at(g1, x, y), d));
                    assert(cell_at(g1, x, y) == cell_at(g0, x, y));
                }
            }
            assert forall|x: int, y: int|
                valid_point(x, y) && (#[trigger] cell_at(g0, x, y)) is Collapsed implies cell_at(
                g2,
                x,
                y,
            ) == cell_at(g0, x, y) by {
                assert(cell_at(g1, x, y) == cell_at(g0, x, y));
            }
            assert(grid_pins(g2, g0));
            // the step contradicts exactly when some relative offered no
            // digit besides the chosen one
            if res is Ok {
                if exists|x: int, y: int|
                    #[trigger] sees(px, py, x, y) && cell_at(g0, x, y) is Uncollapsed && (forall|
                        e: u8,
                    |
                        cell_at(g0, x, y).has_candidate(e) ==> e == d) {
                    let (wx, wy) = choose|wx: int, wy: int|
                        #[trigger] sees(px, py, wx, wy) && cell_at(g0, wx, wy) is Uncollapsed && (
                        forall|e: u8| cell_at(g0, wx, wy).has_candidate(e) ==> e == d);
                    assert(value_cleared(cell_at(g2, wx, wy), cell_at(g0, wx, wy), d));
                    let c2 = cell_at(g2, wx, wy);
                    assert(c2 is Uncollapsed && c2.weight() >= 1);
                    assert forall|e: u8| !c2.has_candidate(e) by {
                        if c2.has_candidate(e) {
                            assert(cell_at(g0, wx, wy).has_candidate(e) && e != d);
                        }
                    }
                    c2.lemma_weight_zero();
                    assert(false);
                }
            } else {
                let (wx, wy) = choose|wx: int, wy: int|
                    {
                        &&& #[trigger] sees(px, py, wx, wy)
                        &&& match cell_at(g1, wx, wy) {
                            Cell::Collapsed(w) => w == d,
                            Cell::Uncollapsed(_) => forall|e: u8|
                                cell_at(g1, wx, wy).has_candidate(e) ==> e == d,
                        }
                    };
                assert(cell_at(g1, wx, wy) == cell_at(g0, wx, wy));
                match cell_at(g0, wx, wy) {
                    Cell::Collapsed(w) => {
                        assert(sees(wx, wy, px, py));
                        assert(!cell_at(g0, px, py).has_candidate(cell_at(g0, wx, wy).digit()));
                        assert(false);
                    },
                    Cell::Uncollapsed(_) => {
                        assert forall|e: u8|
                            cell_at(g0, wx, wy).has_candidate(e) implies e == d by {
                            assert(cell_at(g1, wx, wy).has_candidate(e));
                        }
                    },
                }
            }
            // a completed board the old grid admits survives the step
            assert forall|b: Seq<Option<u8>>|
                board_solved(b) && #[trigger] grid_admits(g0, b) implies (if digit_at(b, px, py)
                == Some(d) {
                res is Ok && grid_admits(g2, b)
            } else {
                self.stack().len() == stack0.len() + 1 && grid_admits(self.stack().last()@, b)
            }) by {
                assert(b[grid_index(px, py)] is Some);
                let e0 = digit_at(b, px, py)->0;
                assert(cell_at(g0, px, py).has_candidate(e0));
                if digit_at(b, px, py) == Some(d) {
                    if res is Err {
                        let (wx, wy) = choose|wx: int, wy: int|
                            #[trigger] sees(px, py, wx, wy) && cell_at(
                                g0,
                                wx,
                                wy,
                            ) is Uncollapsed && (forall|e: u8|
                                cell_at(g0, wx, wy).has_candidate(e) ==> e == d);
                        assert(b[grid_index(wx, wy)] is Some);
                        let ew = digit_at(b, wx, wy)->0;
                        assert(cell_at(g0, wx, wy).has_candidate(ew));
                        assert(ew == d);
                        assert(digit_at(b, wx, wy) == Some(d));
                        assert(digit_at(b, px, py) != digit_at(b, wx, wy));
                        assert(false);
                    }
                    lemma_admits_after_commit(g0, g1, g2, px, py, d, b);
                } else {
                    assert(e0 != d);
                    cell_at(g0, px, py).lemma_weight_two(e0, d);
                    assert(cell_at(g0, px, py).weight() > 1);
                    assert(should_save);
                    let snap = self.stack().last()@;
                    assert forall|x: int, y: int| valid_point(x, y) implies {
                        let c = #[trigger] cell_at(snap, x, y);
                        &&& (c is Collapsed ==> digit_at(b, x, y) == Some(c.digit()))
                        &&& (c is Uncollapsed ==> c.has_candidate(digit_at(b, x, y)->0))
                    } by {
                        if x == px && y == py {
                            assert(cell_at(snap, px, py) == rollback);
                            assert(rollback.has_candidate(e0));
                        } else {
                            assert(cell_at(snap, x, y) == cell_at(g0, x, y));
                        }
                    }
                    assert(grid_admits(snap, b));
                }
            }
        }
        res
    }

    /// Removes a freshly committed digit from every relative of
    /// `cell_coords` (its row, column, and region), reporting a
    /// contradiction as soon as some relative's candidate set empties.
    #[verifier::loop_isolation(false)]
    fn propagate_collapse(&mut self, cell_coords: Point, value: u8) -> (res: Result<(), ()>)
        requires
            valid_point(cell_coords.x as int, cell_coords.y as int),
            1 <= value <= 9,
            grid_wf(old(self).grid()),
        ensures
            final(self).stack() == old(self).stack(),
            grid_wf(final(self).grid()),
            forall|x: int, y: int|
                valid_point(x, y) && !sees(cell_coords.x as int, cell_coords.y as int, x, y)
                    ==> #[trigger] cell_at(final(self).grid(), x, y) == cell_at(
                    old(self).grid(),
                    x,
                    y,
                ),
            forall|x: int, y: int|
                valid_point(x, y) && (#[trigger] cell_at(old(self).grid(), x, y)) is Collapsed
                    ==> cell_at(final(self).grid(), x, y) == cell_at(old(self).grid(), x, y),
            forall|x: int, y: int|
                valid_point(x, y) ==> ((#[trigger] cell_at(final(self).grid(), x, y)) is Collapsed
                    <==> cell_at(old(self).grid(), x, y) is Collapsed),
            forall|x: int, y: int|
                valid_point(x, y) ==> (#[trigger] cell_at(final(self).grid(), x, y)).weight()
                    <= cell_at(old(self).grid(), x, y).weight(),
            forall|x: int, y: int, d: u8|
                valid_point(x, y) && #[trigger] cell_at(final(self).grid(), x, y).has_candidate(d)
                    ==> cell_at(old(self).grid(), x, y).has_candidate(d),
            res is Ok ==> forall|x: int, y: int|
                #[trigger] sees(cell_coords.x as int, cell_coords.y as int, x, y) ==> value_cleared(
                    cell_at(final(self).grid(), x, y),
                    cell_at(old(self).grid(), x, y),
                    value,
                ),
            res is Err ==> exists|x: int, y: int|
                {
                    &&& #[trigger] sees(cell_coords.x as int, cell_coords.y as int, x, y)
                    &&& match cell_at(old(self).grid(), x, y) {
                        Cell::Collapsed(w) => w == value,
                        Cell::Uncollapsed(_) => forall|d: u8|
                            cell_at(old(self).grid(), x, y).has_candidate(d) ==> d == value,
                    }
                },
    {
        let ghost g0 = self.grid();
        let ghost stack0 = self.stack();
        let ghost px = cell_coords.x as int;
        let ghost py = cell_coords.y as int;
        let relatives = self.get_relatives(cell_coords);
        let mut k: usize = 0;
        while k < relatives.len()
            invariant
                valid_point(px, py),
                px == cell_coords.x as int && py == cell_coords.y as int,
                1 <= value <= 9,
                grid_wf(g0),
                grid_wf(self.grid()),
                self.stack() == stack0,
                k <= relatives@.len(),
                forall|i: int|
                    0 <= i < relatives@.len() ==> sees(
                        px,
                        py,
                        (#[trigger] relatives@[i]).x as int,
                        relatives@[i].y as int,
                    ),
                forall|qx: int, qy: int|
                    #[trigger] sees(px, py, qx, qy) ==> relatives@.contains(
                        Point { x: qx as usize, y: qy as usize },
                    ),
                forall|x: int, y: int|
                    valid_point(x, y) && !sees(px, py, x, y) ==> #[trigger] cell_at(
                        self.grid(),
                        x,
                        y,
                    ) == cell_at(g0, x, y),
                forall|x: int, y: int|
                    valid_point(x, y) && (#[trigger] cell_at(g0, x, y)) is Collapsed ==> cell_at(
                        self.grid(),
                        x,
                        y,
                    ) == cell_at(g0, x, y),
                forall|x: int, y: int|
                    valid_point(x, y) ==> ((#[trigger] cell_at(self.grid(), x, y)) is Collapsed
                        <==> cell_at(g0, x, y) is Collapsed),
                forall|x: int, y: int|
                    valid_point(x, y) ==> (#[trigger] cell_at(self.grid(), x, y)).weight()
                        <= cell_at(g0, x, y).weight(),
                forall|x: int, y: int, d: u8|
                    valid_point(x, y) && #[trigger] cell_at(self.grid(), x, y).has_candidate(d)
                        ==> cell_at(g0, x, y).has_candidate(d),
                forall|j: int|
                    0 <= j < k ==> value_cleared(
                        cell_at(
                            self.grid(),
                            (#[trigger] relatives@[j]).x as int,
                            relatives@[j].y as int,
                        ),
                        cell_at(g0, relatives@[j].x as int, relatives@[j].y as int),
                        value,
                    ),
                forall|x: int, y: int|
                    #[trigger] sees(px, py, x, y) ==> (cell_at(self.grid(), x, y) == cell_at(
                        g0,
                        x,
                        y,
                    ) || value_cleared(cell_at(self.grid(), x, y), cell_at(g0, x, y), value)),
            decreases relatives@.len() - k,
        {
            let q = relatives[k];
            proof {
                assert(sees(px, py, q.x as int, q.y as int));
                assert(cell_at(self.grid(), q.x as int, q.y as int).wf());
            }
            let mut c = self.get_cell(q);
            let res = c.remove(value);
            let ghost prev = self.grid();
            self.put_cell(q, c);
            proof {
                let qx = q.x as int;
                let qy = q.y as int;
                assert forall|x: int, y: int| valid_point(x, y) implies #[trigger] cell_at(
                    self.grid(),
                    x,
                    y,
                ) == (if x == qx && y == qy {
                    c
                } else {
                    cell_at(prev, x, y)
                }) by {
                    lemma_cell_at_update(prev, x, y, qx, qy, c);
                }
                if res is Ok {
                    assert(value_cleared(c, cell_at(g0, qx, qy), value));
                } else {
                    c.lemma_weight_zero();
                    if cell_at(prev, qx, qy) != cell_at(g0, qx, qy) {
                        assert(value_cleared(cell_at(prev, qx, qy), cell_at(g0, qx, qy), value));
                        assert(false);
                    }
                    assert(sees(px, py, qx, qy) && match cell_at(g0, qx, qy) {
                        Cell::Collapsed(w) => w == value,
                        Cell::Uncollapsed(_) => forall|d: u8|
                            cell_at(g0, qx, qy).has_candidate(d) ==> d == value,
                    });
                }
            }
            if res.is_err() {
                return Err(());
            }
            k = k + 1;
        }
        proof {
            assert forall|x: int, y: int| #[trigger] sees(px, py, x, y) implies value_cleared(
                cell_at(self.grid(), x, y),
                cell_at(g0, x, y),
                value,
            ) by {
                let q = Point { x: x as usize, y: y as usize };
                assert(relatives@.contains(q));
                let i = choose|i: int| 0 <= i < relatives@.len() && relatives@[i] == q;
                assert(value_cleared(
                    cell_at(self.grid(), relatives@[i].x as int, relatives@[i].y as int),
                    cell_at(g0, relatives@[i].x as int, relatives@[i].y as int),
                    value,
                ));
            }
        }
        Ok(())
    }

    /// The coordinates of the unresolved square with the fewest remaining
    /// candidates, scanning row-major and keeping the first minimum; `None`
    /// exactly when every square is already committed.
    #[verifier::loop_isolation(false)]
    fn get_coords_of_uncollapsed_cell_with_lowest_entropy(&self) -> (r: Option<Point>)
        requires
            grid_wf(self.grid()),
        ensures
            r is None <==> grid_complete(self.grid()),
            r matches Some(p) ==> {
                &&& valid_point(p.x as int, p.y as int)
                &&& cell_at(self.grid(), p.x as int, p.y as int) is Uncollapsed
                &&& forall|x: int, y: int|
                    valid_point(x, y) && (#[trigger] cell_at(self.grid(), x, y)) is Uncollapsed
                        ==> cell_at(self.grid(), p.x as int, p.y as int).weight() <= cell_at(
                        self.grid(),
                        x,
                        y,
                    ).weight()
            },
    {
        let mut best: Option<Point> = None;
        let mut lowest_entropy: u8 = u8::MAX;
        let mut y: usize = 0;
        while y < 9
            invariant
                y <= 9,
                best is None ==> lowest_entropy == u8::MAX,
                best is None ==> forall|qx: int, qy: int|
                    valid_point(qx, qy) && qy < y ==> (#[trigger] cell_at(
                        self.grid(),
                        qx,
                        qy,
                    )) is Collapsed,
                best matches Some(p) ==> {
                    &&& valid_point(p.x as int, p.y as int)
                    &&& p.y < y
                    &&& cell_at(self.grid(), p.x as int, p.y as int) is Uncollapsed
                    &&& lowest_entropy == cell_at(self.grid(), p.x as int, p.y as int).weight()
                    &&& lowest_entropy <= 9
                    &&& forall|qx: int, qy: int|
                        valid_point(qx, qy) && qy < y && (#[trigger] cell_at(
                            self.grid(),
                            qx,
                            qy,
                        )) is Uncollapsed ==> lowest_entropy <= cell_at(
                            self.grid(),
                            qx,
                            qy,
                        ).weight()
                },
            decreases 9 - y,
        {
            let mut x: usize = 0;
            while x < 9
                invariant
                    y < 9,
                    x <= 9,
                    best is None ==> lowest_entropy == u8::MAX,
                    best is None ==> forall|qx: int, qy: int|
                        valid_point(qx, qy) && (qy < y || (qy == y && qx < x)) ==> (
                        #[trigger] cell_at(self.grid(), qx, qy)) is Collapsed,
                    best matches Some(p) ==> {
                        &&& valid_point(p.x as int, p.y as int)
                        &&& (p.y < y || (p.y == y && p.x < x))
                        &&& cell_at(self.grid(), p.x as int, p.y as int) is Uncollapsed
                        &&& lowest_entropy == cell_at(self.grid(), p.x as int, p.y as int).weight()
                        &&& lowest_entropy <= 9
                        &&& forall|qx: int, qy: int|
                            valid_point(qx, qy) && (qy < y || (qy == y && qx < x)) && (
                            #[trigger] cell_at(self.grid(), qx, qy)) is Uncollapsed
                                ==> lowest_entropy <= cell_at(self.grid(), qx, qy).weight()
                    },
                decreases 9 - x,
            {
                let current = self.get_cell(Point::new(x, y));
                match current {
                    Cell::Collapsed(_) => {
                    },
                    Cell::Uncollapsed(_) => {
                        proof {
                            cell_at(self.grid(), x as int, y as int).lemma_weight_bound();
                        }
                        let current_entropy = current.get_entropy();
                        if current_entropy < lowest_entropy {
                            lowest_entropy = current_entropy;
                            best = Some(Point::new(x, y));
                        }
                    },
                }
                x = x + 1;
            }
            y = y + 1;
        }
        best
    }

    /// One step of the main loop: find the unresolved square with the
    /// fewest candidates and commit it.  `Ok(true)` means the grid is
    /// already fully committed, `Ok(false)` means a square was committed
    /// and propagated, and `Err` means the step ran into a contradiction.
    fn solve_iteration(&mut self) -> (r: Result<bool, ()>)
        requires
            grid_ok(old(self).grid()),
        ensures
            old(self).stack().len() <= final(self).stack().len() <= old(self).stack().len() + 1,
            forall|i: int|
                0 <= i < old(self).stack().len() ==> #[trigger] final(self).stack()[i] == old(
                    self,
                ).stack()[i],
            final(self).stack().len() == old(self).stack().len() + 1 ==> {
                &&& grid_ok(final(self).stack().last()@)
                &&& grid_pins(final(self).stack().last()@, old(self).grid())
                &&& grid_weight(final(self).stack().last()@) + 1 == grid_weight(old(self).grid())
                &&& grid_weight(old(self).grid()) >= 2
            },
            grid_wf(final(self).grid()),
            grid_pins(final(self).grid(), old(self).grid()),
            r == Ok::<bool, ()>(true) ==> *final(self) == *old(self) && grid_complete(
                final(self).grid(),
            ),
            r == Ok::<bool, ()>(false) ==> {
                &&& grid_ok(final(self).grid())
                &&& (final(self).stack().len() == old(self).stack().len() + 1 ==> grid_weight(
                    final(self).grid(),
                ) + 2 <= grid_weight(old(self).grid()))
                &&& (final(self).stack().len() == old(self).stack().len() ==> grid_weight(
                    final(self).grid(),
                ) + 1 <= grid_weight(old(self).grid()))
            },
            grid_complete(old(self).grid()) ==> r == Ok::<bool, ()>(true),
            forall|b: Seq<Option<u8>>|
                board_solved(b) && #[trigger] grid_admits(old(self).grid(), b) ==> ((!(r is Err)
                    && grid_admits(final(self).grid(), b)) || (final(self).stack().len() == old(
                    self,
                ).stack().len() + 1 && grid_admits(final(self).stack().last()@, b))),
    {
        match self.get_coords_of_uncollapsed_cell_with_lowest_entropy() {
            Some(cell_coords) => {
                match self.collapse_cell_and_save_state(cell_coords) {
                    Ok(()) => Ok(false),
                    Err(()) => Err(()),
                }
            },
            None => Ok(true),
        }
    }

    /// Runs the engine to completion.  On success the result is a fully
    /// filled board that satisfies the sudoku rules and keeps every digit
    /// that was already committed when solving began.  The engine
    /// succeeds whenever its grid still admits some completed board (a
    /// fully committed grid included): the backtracking is exhaustive, so
    /// failure means no such board exists.
    pub fn solve(self) -> (r: Result<DigitBoard, ErrorNoSolution>)
        requires
            self.wf(),
        ensures
            r matches Ok(b) ==> {
                &&& board_solved(b@)
                &&& forall|x: int, y: int, d: u8|
                    #[trigger] self.fixes(x, y, d) ==> digit_at(b@, x, y) == Some(d)
            },
            self.complete() ==> r is Ok,
            forall|b: Seq<Option<u8>>|
                board_solved(b) && #[trigger] grid_admits(self.grid(), b) ==> r is Ok,
    {
        let ghost g_init = self.grid();
        let mut s = self;
        let mut solved = false;
        loop
            invariant_except_break
                !solved,
                grid_ok(s.grid()),
                grid_pins(s.grid(), g_init),
                forall|i: int|
                    0 <= i < s.stack().len() ==> grid_ok((#[trigger] s.stack()[i])@) && grid_pins(
                        s.stack()[i]@,
                        g_init,
                    ),
                grid_complete(g_init) ==> s.grid() == g_init,
                forall|b: Seq<Option<u8>>|
                    board_solved(b) && #[trigger] grid_admits(g_init, b) ==> (grid_admits(
                        s.grid(),
                        b,
                    ) || exists|i: int|
                        0 <= i < s.stack().len() && grid_admits((#[trigger] s.stack()[i])@, b)),
            ensures
                solved || !grid_complete(g_init),
                solved || (forall|b: Seq<Option<u8>>|
                    !(board_solved(b) && #[trigger] grid_admits(g_init, b))),
                solved ==> grid_ok(s.grid()) && grid_pins(s.grid(), g_init) && grid_complete(
                    s.grid(),
                ),
            decreases pow2(grid_weight(s.grid())) + stack_measure(s.stack()),
        {
            let ghost gpre = s.grid();
            let ghost w0 = grid_weight(s.grid());
            let ghost stack0 = s.stack();
            match s.solve_iteration() {
                Ok(true) => {
                    solved = true;
                    break ;
                },
                Ok(false) => {
                    proof {
                        lemma_pins_trans(s.grid(), gpre, g_init);
                        if s.stack().len() == stack0.len() + 1 {
                            assert(s.stack() =~= stack0.push(s.stack().last()));
                            lemma_stack_measure_push(stack0, s.stack().last());
                            lemma_pow2_le(grid_weight(s.grid()), (w0 - 2) as nat);
                            lemma_pow2_unfold(w0);
                            lemma_pow2_strictly_increases((w0 - 2) as nat, (w0 - 1) as nat);
                            assert forall|i: int| 0 <= i < s.stack().len() implies grid_ok(
                                (#[trigger] s.stack()[i])@,
                            ) && grid_pins(s.stack()[i]@, g_init) by {
                                if i < stack0.len() {
                                    assert(s.stack()[i] == stack0[i]);
                                } else {
                                    assert(s.stack()[i] == s.stack().last());
                                    lemma_pins_trans(s.stack().last()@, gpre, g_init);
                                }
                            }
                        } else {
                            assert(s.stack() =~= stack0);
                            lemma_pow2_strictly_increases(grid_weight(s.grid()), w0);
                        }
                        assert forall|b: Seq<Option<u8>>|
                            board_solved(b) && #[trigger] grid_admits(g_init, b) implies (
                        grid_admits(s.grid(), b) || exists|i: int|
                            0 <= i < s.stack().len() && grid_admits(
                                (#[trigger] s.stack()[i])@,
                                b,
                            )) by {
                            if grid_admits(gpre, b) {
                                if !grid_admits(s.grid(), b) {
                                    assert(s.stack().len() == stack0.len() + 1 && grid_admits(
                                        s.stack().last()@,
                                        b,
                                    ));
                                    assert(grid_admits((s.stack()[s.stack().len() - 1])@, b));
                                }
                            } else {
                                let i = choose|i: int|
                                    0 <= i < stack0.len() && grid_admits(
                                        (#[trigger] stack0[i])@,
                                        b,
                                    );
                                assert(s.stack()[i] == stack0[i]);
                                assert(grid_admits((s.stack()[i])@, b));
                            }
                        }
                    }
                },
                Err(()) => {
                    let ghost stack_mid = s.stack();
                    let ghost pushed = s.stack().len() == stack0.len() + 1;
                    proof {
                        if pushed {
                            assert(s.stack() =~= stack0.push(s.stack().last()));
                            lemma_stack_measure_push(stack0, s.stack().last());
                            lemma_pow2_strictly_increases((w0 - 1) as nat, w0);
                            lemma_pins_trans(s.stack().last()@, gpre, g_init);
                        } else {
                            assert(s.stack() =~= stack0);
                            lemma_pow2_pos(w0);
                        }
                    }
                    match s.previous_states.pop() {
                        Some(previous_state) => {
                            proof {
                                if pushed {
                                    assert(previous_state == stack0.push(previous_state).last());
                                    assert(s.previous_states@ =~= stack0);
                                } else {
                                    assert(previous_state == stack0.last());
                                    assert(s.previous_states@ =~= stack0.drop_last());
                                    assert forall|i: int|
                                        0 <= i < s.previous_states@.len() implies grid_ok(
                                        (#[trigger] s.previous_states@[i])@,
                                    ) && grid_pins(s.previous_states@[i]@, g_init) by {
                                        assert(s.previous_states@[i] == stack0[i]);
                                    }
                                }
                            }
                            s.board = previous_state;
                            proof {
                                assert forall|b: Seq<Option<u8>>|
                                    board_solved(b) && #[trigger] grid_admits(g_init, b) implies (
                                grid_admits(s.grid(), b) || exists|i: int|
                                    0 <= i < s.stack().len() && grid_admits(
                                        (#[trigger] s.stack()[i])@,
                                        b,
                                    )) by {
                                    if grid_admits(gpre, b) {
                                        assert(pushed && grid_admits(stack_mid.last()@, b));
                                        assert(previous_state == stack_mid.last());
                                        assert(grid_admits(s.grid(), b));
                                    } else {
                                        let i = choose|i: int|
                                            0 <= i < stack0.len() && grid_admits(
                                                (#[trigger] stack0[i])@,
                                                b,
                                            );
                                        if pushed {
                                            assert(s.stack()[i] == stack0[i]);
                                            assert(grid_admits((s.stack()[i])@, b));
                                        } else {
                                            if i < stack0.len() - 1 {
                                                assert(s.stack()[i] == stack0[i]);
                                                assert(grid_admits((s.stack()[i])@, b));
                                            } else {
                                                assert(previous_state == stack0.last());
                                                assert(grid_admits(s.grid(), b));
                                            }
                                        }
                                    }
                                }
                            }
                        },
                        None => {
                            proof {
                                assert(stack_mid.len() == 0);
                                assert(stack0.len() == 0);
                                assert forall|b: Seq<Option<u8>>|
                                    !(board_solved(b) && #[trigger] grid_admits(g_init, b)) by {
                                    if board_solved(b) && grid_admits(g_init, b) {
                                        assert(grid_admits(gpre, b));
                                        assert(false);
                                    }
                                }
                            }
                            break ;
                        },
                    }
                },
            }
        }
        if solved {
            let b = s.board_to_option_array();
            proof {
                assert forall|i: int| 0 <= i < 81 implies (#[trigger] b@[i]) is Some by {
                    let x = i % 9;
                    let y = i / 9;
                    assert(valid_point(x, y));
                    assert(grid_index(x, y) == i);
                    assert(cell_at(s.grid(), x, y) is Collapsed);
                }
                assert(board_full(b@));
                assert forall|x1: int, y1: int, x2: int, y2: int|
                    sees(x1, y1, x2, y2) && #[trigger] digit_at(b@, x1, y1) is Some && #[trigger] digit_at(
                        b@,
                        x2,
                        y2,
                    ) is Some implies digit_at(b@, x1, y1) != digit_at(b@, x2, y2) by {
                    assert(cell_at(s.grid(), x1, y1) is Collapsed);
                    assert(cell_at(s.grid(), x2, y2) is Collapsed);
                    assert(digit_at(b@, x1, y1) == Some(cell_at(s.grid(), x1, y1).digit()));
                    assert(digit_at(b@, x2, y2) == Some(cell_at(s.grid(), x2, y2).digit()));
                }
                assert(board_consistent(b@));
                assert forall|x: int, y: int, d: u8| #[trigger] self.fixes(x, y, d) implies digit_at(
                    b@,
                    x,
                    y,
                ) == Some(d) by {
                    assert(cell_at(s.grid(), x, y) == cell_at(g_init, x, y));
                }
            }
            Ok(b)
        } else {
            Err(ErrorNoSolution)
        }
    }

    /// Reads the grid out as a board of optional digits: the committed
    /// digit where a square is collapsed, empty where it is not.
    fn board_to_option_array(&self) -> (b: DigitBoard)
        requires
            grid_wf(self.grid()),
        ensures
            b@ == grid_as_board(self.grid()),
            board_wf(b@),
    {
        let mut b: DigitBoard = [None; 81];
        let mut y: usize = 0;
        while y < 9
            invariant
                y <= 9,
                b@.len() == 81,
                grid_wf(self.grid()),
                forall|i: int|
                    0 <= i < y * 9 ==> #[trigger] b@[i] == grid_as_board(self.grid())[i],
                forall|i: int| y * 9 <= i < 81 ==> #[trigger] b@[i] is None,
            decreases 9 - y,
        {
            let mut x: usize = 0;
            while x < 9
                invariant
                    y < 9,
                    x <= 9,
                    b@.len() == 81,
                    grid_wf(self.grid()),
                    forall|i: int|
                        0 <= i < y * 9 + x ==> #[trigger] b@[i] == grid_as_board(self.grid())[i],
                    forall|i: int| y * 9 + x <= i < 81 ==> #[trigger] b@[i] is None,
                decreases 9 - x,
            {
                let c = self.get_cell(Point::new(x, y));
                proof {
                    assert(cell_at(self.grid(), x as int, y as int).wf());
                }
                match c {
                    Cell::Collapsed(d) => {
                        b[y * 9 + x] = Some(d);
                    },
                    Cell::Uncollapsed(_) => {
                    },
                }
                x = x + 1;
            }
            y = y + 1;
        }
        proof {
            assert(b@ =~= grid_as_board(self.grid()));
            assert forall|i: int| 0 <= i < 81 implies ((#[trigger] b@[i]) matches Some(d) ==> 1 <= d
                <= 9) by {
                let x = i % 9;
                let y = i / 9;
                assert(valid_point(x, y));
                assert(cell_at(self.grid(), x, y).wf());
                assert(grid_index(x, y) == i);
            }
        }
        b
    }
}

} // verus!
