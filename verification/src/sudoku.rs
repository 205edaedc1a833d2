//! The board facade: a 9x9 grid of optional digits plus a parallel
//! read-only mask.  It supports editing with read-only givens, clearing,
//! validity checking, solving in place, and random puzzle generation.

use vstd::prelude::*;
use crate::model::DigitBoard;
use crate::model::board_consistent;
use crate::model::board_extends;
use crate::model::board_full;
use crate::model::board_solved;
use crate::model::board_wf;
use crate::model::column_solved;
use crate::model::digit_at;
use crate::model::digit_present;
use crate::model::lemma_nine_digits_cover;
use crate::model::lemma_nine_digits_distinct;
use crate::model::empty_count;
use crate::model::lemma_empty_count_from_full;
use crate::model::lemma_empty_count_from_update;
use crate::model::lemma_full_extension_is_identity;
use crate::model::lemma_shifted_board_solved;
use crate::model::lemma_solved_by_groups;
use crate::model::region_solved;
use crate::model::shifted_board;
use crate::model::row_solved;
use crate::point::Point;
use crate::point::grid_index;
use crate::point::lemma_div3_decompose;
use crate::point::sees;
use crate::point::valid_point;
use crate::sudoku_errors::ErrorNoSolution;
use crate::sudoku_solver::SudokuSolver;
use crate::sudoku_solver::grid_admits;
use rand::seq::SliceRandom;

verus! {

broadcast use vstd::array::group_array_axioms;

/// Setting one more digit bit keeps exactly the digits already present
/// plus the new one.
proof fn lemma_digit_mask_or(seen: u16, v: u16, d: u16)
    requires
        1 <= v <= 9,
        1 <= d <= 9,
    ensures
        ((seen | (1u16 << v)) & (1u16 << d) != 0) <==> (seen & (1u16 << d) != 0 || d == v),
{
    assert(((seen | (1u16 << v)) & (1u16 << d) != 0) <==> (seen & (1u16 << d) != 0 || d == v))
        by (bit_vector)
        requires
            1 <= v <= 9,
            1 <= d <= 9,
    ;
}

/// The thread-local random generator of the rand crate; declared so that
/// values of it can be passed to the trusted items below.
#[verifier::external_type_specification]
#[verifier::external_body]
pub struct ExThreadRng(rand::rngs::ThreadRng);

/// Relies on rand::rng: it hands out the thread-local random generator.
/// (rand documents a panic only when the operating system's entropy
/// source fails at first seeding; nothing is assumed about the values it
/// produces.)
pub assume_specification[ rand::rng ]() -> rand::rngs::ThreadRng;

/// Relies on rand::seq::SliceRandom::shuffle for slices: a Fisher-Yates
/// shuffle that only swaps elements in place, so the entries afterwards
/// are a permutation of the entries before -- nothing is assumed about
/// their order.
#[verifier::external_body]
fn shuffle_points(points: &mut Vec<(usize, usize)>, rng: &mut rand::rngs::ThreadRng)
    ensures
        final(points)@.to_multiset() == old(points)@.to_multiset(),
        final(points)@.len() == old(points)@.len(),
{
    points.shuffle(rng)
}

/// Some listed square holds digit `d`.
pub open spec fn digit_in_points(b: Seq<Option<u8>>, points: Seq<Point>, d: u8) -> bool {
    exists|i: int|
        0 <= i < points.len() && digit_at(b, (#[trigger] points[i]).x as int, points[i].y as int)
            == Some(d)
}

/// The two-character rendering of one square: its digit (or a blank for
/// an empty square) followed by a space.
pub open spec fn cell_text(o: Option<u8>) -> Seq<char> {
    match o {
        Option::None => "  "@,
        Option::Some(d) => if d == 1 {
            "1 "@
        } else if d == 2 {
            "2 "@
        } else if d == 3 {
            "3 "@
        } else if d == 4 {
            "4 "@
        } else if d == 5 {
            "5 "@
        } else if d == 6 {
            "6 "@
        } else if d == 7 {
            "7 "@
        } else if d == 8 {
            "8 "@
        } else {
            "9 "@
        },
    }
}

/// The rendering of row `y`: its nine squares left to right, with a bar
/// after every third column, ended by a newline.
pub open spec fn row_text(b: Seq<Option<u8>>, y: int) -> Seq<char> {
    cell_text(digit_at(b, 0, y)) + cell_text(digit_at(b, 1, y)) + cell_text(digit_at(b, 2, y))
        + "| "@ + cell_text(digit_at(b, 3, y)) + cell_text(digit_at(b, 4, y)) + cell_text(
        digit_at(b, 5, y),
    ) + "| "@ + cell_text(digit_at(b, 6, y)) + cell_text(digit_at(b, 7, y)) + cell_text(
        digit_at(b, 8, y),
    ) + "\n"@
}

/// The rendering of the whole board, top row first, with a divider line
/// after every third row.
pub open spec fn board_text(b: Seq<Option<u8>>) -> Seq<char> {
    row_text(b, 0) + row_text(b, 1) + row_text(b, 2) + "------+-------+------\n"@ + row_text(b, 3)
        + row_text(b, 4) + row_text(b, 5) + "------+-------+------\n"@ + row_text(b, 6) + row_text(
        b,
        7,
    ) + row_text(b, 8)
}

/// The playing board: the digits and the fixed read-only mask, both
/// stored row-major.
pub struct Sudoku {
    board: DigitBoard,
    read_only: [bool; 81],
}

impl Sudoku {
    /// The digits on the board.
    pub closed spec fn grid(self) -> Seq<Option<u8>> {
        self.board@
    }

    /// Which squares are read-only givens.
    pub closed spec fn mask(self) -> Seq<bool> {
        self.read_only@
    }

    /// Every stored digit lies in 1..=9.
    pub open spec fn wf(self) -> bool {
        &&& board_wf(self.grid())
        &&& self.mask().len() == 81
    }

    /// An empty board: no digits, nothing read-only.
    pub fn new_empty() -> (s: Self)
        ensures
            s.wf(),
            forall|i: int| 0 <= i < 81 ==> (#[trigger] s.grid()[i]) is None,
            forall|i: int| 0 <= i < 81 ==> !(#[trigger] s.mask()[i]),
    {
        Sudoku { board: [None; 81], read_only: [false; 81] }
    }

    /// The digit at column `x`, row `y`, if any.
    pub fn get_cell(&self, x: usize, y: usize) -> (r: Option<u8>)
        requires
            x < 9,
            y < 9,
            self.wf(),
        ensures
            r == digit_at(self.grid(), x as int, y as int),
    {
        self.board[y * 9 + x]
    }

    /// Writes `value` at column `x`, row `y` -- unless that square is a
    /// read-only given, in which case the board is left untouched.
    pub fn set_cell(&mut self, x: usize, y: usize, value: Option<u8>)
        requires
            x < 9,
            y < 9,
            old(self).wf(),
            value matches Some(d) ==> 1 <= d <= 9,
        ensures
            final(self).wf(),
            final(self).mask() == old(self).mask(),
            old(self).mask()[grid_index(x as int, y as int)] ==> final(self).grid() == old(
                self,
            ).grid(),
            !old(self).mask()[grid_index(x as int, y as int)] ==> final(self).grid() == old(
                self,
            ).grid().update(grid_index(x as int, y as int), value),
    {
        if !self.read_only[y * 9 + x] {
            self.board[y * 9 + x] = value;
        }
    }

    /// Whether the square at column `x`, row `y` is a read-only given.
    pub fn is_read_only(&self, x: usize, y: usize) -> (r: bool)
        requires
            x < 9,
            y < 9,
            self.wf(),
        ensures
            r == self.mask()[grid_index(x as int, y as int)],
    {
        self.read_only[y * 9 + x]
    }

    /// Empties every editable square; read-only givens are untouched.
    pub fn clear(&mut self)
        requires
            old(self).wf(),
        ensures
            final(self).wf(),
            final(self).mask() == old(self).mask(),
            forall|i: int|
                0 <= i < 81 && old(self).mask()[i] ==> #[trigger] final(self).grid()[i] == old(
                    self,
                ).grid()[i],
            forall|i: int|
                0 <= i < 81 && !old(self).mask()[i] ==> (#[trigger] final(self).grid()[i]) is None,
    {
        let mut i: usize = 0;
        while i < 81
            invariant
                i <= 81,
                self.wf(),
                self.mask() == old(self).mask(),
                forall|j: int|
                    0 <= j < i && old(self).mask()[j] ==> #[trigger] self.grid()[j] == old(
                        self,
                    ).grid()[j],
                forall|j: int|
                    0 <= j < i && !old(self).mask()[j] ==> (#[trigger] self.grid()[j]) is None,
                forall|j: int| i <= j < 81 ==> #[trigger] self.grid()[j] == old(self).grid()[j],
            decreases 81 - i,
        {
            if !self.read_only[i] {
                self.board[i] = None;
            }
            i = i + 1;
        }
    }

    /// Solves the board in place: a fresh engine is seeded with the
    /// current digits and run to completion.  On success the digit grid is
    /// replaced by the completed one, which keeps every digit that was
    /// already placed; the read-only mask never changes.  On failure the
    /// board is left exactly as it was.  Failure means exactly that no
    /// completed grid obeys the rules and keeps the placed digits: a
    /// board that breaks the rules always fails, a solvable board always
    /// succeeds, and a full rule-abiding board comes back unchanged --
    /// solving is idempotent.
    pub fn solve(&mut self) -> (r: Result<(), ErrorNoSolution>)
        requires
            old(self).wf(),
        ensures
            final(self).wf(),
            final(self).mask() == old(self).mask(),
            r is Err ==> final(self).grid() == old(self).grid(),
            r is Ok ==> {
                &&& board_solved(final(self).grid())
                &&& forall|i: int|
                    0 <= i < 81 && (#[trigger] old(self).grid()[i]) is Some
                        ==> final(self).grid()[i] == old(self).grid()[i]
            },
            !board_consistent(old(self).grid()) ==> r is Err,
            board_full(old(self).grid()) && board_consistent(old(self).grid()) ==> (r is Ok
                && final(self).grid() == old(self).grid()),
            forall|sol: Seq<Option<u8>>|
                board_solved(sol) && #[trigger] board_extends(sol, old(self).grid()) ==> r is Ok,
    {
        match SudokuSolver::new(&self.board) {
            Ok(solver) => {
                let ghost sv = solver;
                match solver.solve() {
                    Ok(solved) => {
                        proof {
                            assert forall|i: int|
                                0 <= i < 81 && (#[trigger] self.board@[i]) is Some implies solved@[i]
                                == self.board@[i] by {
                                let x = i % 9;
                                let y = i / 9;
                                assert(grid_index(x, y) == i);
                                assert(digit_at(self.board@, x, y) == self.board@[i]);
                                let d = self.board@[i]->0;
                                assert(sv.fixes(x, y, d));
                                assert(digit_at(solved@, x, y) == Some(d));
                            }
                            if board_full(self.board@) {
                                lemma_full_extension_is_identity(self.board@, solved@);
                            }
                        }
                        self.board = solved;
                        Ok(())
                    },
                    Err(e) => {
                        proof {
                            assert forall|sol: Seq<Option<u8>>|
                                !(board_solved(sol) && #[trigger] board_extends(
                                    sol,
                                    self.board@,
                                )) by {
                                if board_solved(sol) && board_extends(sol, self.board@) {
                                    assert(grid_admits(sv.grid(), sol));
                                    assert(false);
                                }
                            }
                        }
                        Err(e)
                    },
                }
            },
            Err(e) => {
                proof {
                    assert forall|sol: Seq<Option<u8>>|
                        !(board_solved(sol) && #[trigger] board_extends(sol, self.board@)) by {}
                }
                Err(e)
            },
        }
    }

    /// The nine coordinates of row `y`, leftmost first.
    fn get_row(&self, y: usize) -> (r: Vec<Point>)
        requires
            y < 9,
        ensures
            r@.len() == 9,
            forall|i: int|
                0 <= i < 9 ==> (#[trigger] r@[i]) == (Point { x: i as usize, y: y }),
    {
        let mut r: Vec<Point> = Vec::new();
        let mut x: usize = 0;
        while x < 9
            invariant
                x <= 9,
                r@.len() == x,
                forall|i: int| 0 <= i < x ==> (#[trigger] r@[i]) == (Point { x: i as usize, y: y }),
            decreases 9 - x,
        {
            r.push(Point::new(x, y));
            x = x + 1;
        }
        r
    }

    /// The nine coordinates of column `x`, topmost first.
    fn get_column(&self, x: usize) -> (r: Vec<Point>)
        requires
            x < 9,
        ensures
            r@.len() == 9,
            forall|i: int|
                0 <= i < 9 ==> (#[trigger] r@[i]) == (Point { x: x, y: i as usize }),
    {
        let mut r: Vec<Point> = Vec::new();
        let mut y: usize = 0;
        while y < 9
            invariant
                y <= 9,
                r@.len() == y,
                forall|i: int| 0 <= i < y ==> (#[trigger] r@[i]) == (Point { x: x, y: i as usize }),
            decreases 9 - y,
        {
            r.push(Point::new(x, y));
            y = y + 1;
        }
        r
    }

    /// Top-left corner of the region that `cell_coords` belongs to.
    fn get_region_coords(&self, cell_coords: Point) -> (o: Point)
        requires
            valid_point(cell_coords.x as int, cell_coords.y as int),
        ensures
            o.x == (cell_coords.x as int / 3) * 3,
            o.y == (cell_coords.y as int / 3) * 3,
            o.x <= 6 && o.y <= 6,
    {
        Point::new(cell_coords.x / 3, cell_coords.y / 3).scale(3)
    }

    /// The nine coordinates of the region containing `point`, row-major.
    fn get_region(&self, point: Point) -> (r: Vec<Point>)
        requires
            valid_point(point.x as int, point.y as int),
        ensures
            r@.len() == 9,
            forall|i: int|
                0 <= i < 9 ==> (#[trigger] r@[i]) == (Point {
                    x: ((point.x as int / 3) * 3 + i % 3) as usize,
                    y: ((point.y as int / 3) * 3 + i / 3) as usize,
                }),
    {
        let origin = self.get_region_coords(point);
        let mut r: Vec<Point> = Vec::new();
        let mut dy: usize = 0;
        while dy < 3
            invariant
                dy <= 3,
                origin.x == (point.x as int / 3) * 3 && origin.y == (point.y as int / 3) * 3,
                origin.x <= 6 && origin.y <= 6,
                r@.len() == dy * 3,
                forall|i: int|
                    0 <= i < r@.len() ==> (#[trigger] r@[i]) == (Point {
                        x: (origin.x + (i % 3)) as usize,
                        y: (origin.y + (i / 3)) as usize,
                    }),
            decreases 3 - dy,
        {
            let mut dx: usize = 0;
            while dx < 3
                invariant
                    dy < 3,
                    dx <= 3,
                    origin.x == (point.x as int / 3) * 3 && origin.y == (point.y as int / 3) * 3,
                    origin.x <= 6 && origin.y <= 6,
                    r@.len() == dy * 3 + dx,
                    forall|i: int|
                        0 <= i < r@.len() ==> (#[trigger] r@[i]) == (Point {
                            x: (origin.x + (i % 3)) as usize,
                            y: (origin.y + (i / 3)) as usize,
                        }),
                decreases 3 - dx,
            {
                r.push(Point::new(origin.x + dx, origin.y + dy));
                dx = dx + 1;
            }
            dy = dy + 1;
        }
        r
    }

    /// Collects the digits found at `points` as a bitmask: bit `d` is set
    /// exactly when some listed square holds digit `d`, and bit zero is
    /// set exactly when some listed square is empty.
    fn points_to_digits(&self, points: &Vec<Point>) -> (seen: u16)
        requires
            self.wf(),
            forall|i: int|
                0 <= i < points@.len() ==> valid_point(
                    (#[trigger] points@[i]).x as int,
                    points@[i].y as int,
                ),
        ensures
            forall|d: u8|
                1 <= d <= 9 ==> ((#[trigger] (seen & (1u16 << (d as u16))) != 0) <==> exists|i: int|
                    0 <= i < points@.len() && digit_at(
                        self.grid(),
                        (#[trigger] points@[i]).x as int,
                        points@[i].y as int,
                    ) == Some(d)),
            (seen & 1u16 != 0) <==> exists|i: int|
                0 <= i < points@.len() && (digit_at(
                    self.grid(),
                    (#[trigger] points@[i]).x as int,
                    points@[i].y as int,
                )) is None,
            seen & 0xfc00u16 == 0,
    {
        let mut seen: u16 = 0;
        let mut k: usize = 0;
        proof {
            assert((forall|d: u16| 0u16 & (1u16 << d) == 0) && 0u16 & 1u16 == 0 && 0u16
                & 0xfc00u16 == 0) by (bit_vector);
        }
        while k < points.len()
            invariant
                k <= points@.len(),
                self.wf(),
                forall|i: int|
                    0 <= i < points@.len() ==> valid_point(
                        (#[trigger] points@[i]).x as int,
                        points@[i].y as int,
                    ),
                forall|d: u8|
                    1 <= d <= 9 ==> ((#[trigger] (seen & (1u16 << (d as u16))) != 0) <==> exists|i: int|
                        0 <= i < k && digit_at(
                            self.grid(),
                            (#[trigger] points@[i]).x as int,
                            points@[i].y as int,
                        ) == Some(d)),
                (seen & 1u16 != 0) <==> exists|i: int|
                    0 <= i < k && (digit_at(
                        self.grid(),
                        (#[trigger] points@[i]).x as int,
                        points@[i].y as int,
                    )) is None,
                seen & 0xfc00u16 == 0,
            decreases points@.len() - k,
        {
            let p = points[k];
            let ghost seen0 = seen;
            match self.get_cell(p.x, p.y) {
                Some(d) => {
                    proof {
                        assert(digit_at(self.grid(), p.x as int, p.y as int) matches Some(dd) ==> 1
                            <= dd <= 9);
                    }
                    seen = seen | (1u16 << (d as u16));
                    proof {
                        assert forall|e: u8|
                            1 <= e <= 9 implies ((#[trigger] (seen & (1u16 << (e as u16))) != 0)
                            <==> (seen0 & (1u16 << (e as u16)) != 0 || e == d)) by {
                            lemma_digit_mask_or(seen0, d as u16, e as u16);
                        }
                        assert((seen & 1u16 != 0) <==> (seen0 & 1u16 != 0)) by (bit_vector)
                            requires
                                seen == seen0 | (1u16 << (d as u16)),
                                1 <= d <= 9,
                        ;
                        assert(seen & 0xfc00u16 == 0) by (bit_vector)
                            requires
                                seen == seen0 | (1u16 << (d as u16)),
                                1 <= d <= 9,
                                seen0 & 0xfc00u16 == 0,
                        ;
                    }
                },
                None => {
                    seen = seen | 1u16;
                    proof {
                        assert(seen & 1u16 != 0 && (forall|e: u16|
                            1 <= e <= 9 ==> ((seen & (1u16 << e) != 0) <==> (seen0 & (1u16 << e)
                                != 0)))) by (bit_vector)
                            requires
                                seen == seen0 | 1u16,
                        ;
                        assert(seen & 0xfc00u16 == 0) by (bit_vector)
                            requires
                                seen == seen0 | 1u16,
                                seen0 & 0xfc00u16 == 0,
                        ;
                    }
                },
            }
            k = k + 1;
        }
        seen
    }

    /// Whether a digit bitmask holds exactly the digits 1 through 9 --
    /// all nine present, no empty square seen.
    fn check_if_set_has_all_digits(&self, set: u16) -> (r: bool)
        ensures
            r == (set == 0x3feu16),
    {
        set == 0x3fe
    }

    /// Whether the nine squares at `points` together hold every digit 1
    /// through 9 -- so each exactly once -- and no square is empty.
    fn check_if_points_have_all_digits(&self, points: &Vec<Point>) -> (r: bool)
        requires
            self.wf(),
            forall|i: int|
                0 <= i < points@.len() ==> valid_point(
                    (#[trigger] points@[i]).x as int,
                    points@[i].y as int,
                ),
        ensures
            r == ((forall|d: u8|
                1 <= d <= 9 ==> #[trigger] digit_in_points(self.grid(), points@, d)) && (forall|
                i: int,
            |
                0 <= i < points@.len() ==> (digit_at(
                    self.grid(),
                    (#[trigger] points@[i]).x as int,
                    points@[i].y as int,
                )) is Some)),
    {
        let seen = self.points_to_digits(points);
        let r = self.check_if_set_has_all_digits(seen);
        proof {
            assert(0x3feu16 & 1u16 == 0) by (bit_vector);
            assert(forall|d: u16| 1 <= d <= 9 ==> 0x3feu16 & (1u16 << d) != 0) by (bit_vector);
            if seen == 0x3fe {
                assert forall|d: u8| 1 <= d <= 9 implies #[trigger] digit_in_points(
                    self.grid(),
                    points@,
                    d,
                ) by {
                    assert(0x3feu16 & (1u16 << (d as u16)) != 0);
                    assert(seen & (1u16 << (d as u16)) != 0);
                }
                assert forall|i: int| 0 <= i < points@.len() implies (digit_at(
                    self.grid(),
                    (#[trigger] points@[i]).x as int,
                    points@[i].y as int,
                )) is Some by {
                    if digit_at(self.grid(), points@[i].x as int, points@[i].y as int) is None {
                        assert(seen & 1u16 != 0);
                        assert(false);
                    }
                }
            } else {
                if (forall|d: u8|
                    1 <= d <= 9 ==> #[trigger] digit_in_points(self.grid(), points@, d)) && (forall|
                    i: int,
                |
                    0 <= i < points@.len() ==> (digit_at(
                        self.grid(),
                        (#[trigger] points@[i]).x as int,
                        points@[i].y as int,
                    )) is Some) {
                    assert(seen & 1u16 == 0) by {
                        if seen & 1u16 != 0 {
                            let i = choose|i: int|
                                0 <= i < points@.len() && (digit_at(
                                    self.grid(),
                                    (#[trigger] points@[i]).x as int,
                                    points@[i].y as int,
                                )) is None;
                            assert(false);
                        }
                    }
                    assert forall|d: u16| 1 <= d <= 9 implies seen & (1u16 << d) != 0 by {
                        let du = d as u8;
                        assert(digit_in_points(self.grid(), points@, du));
                        assert(seen & (1u16 << (du as u16)) != 0);
                    }
                    assert(seen == 0x3fe) by (bit_vector)
                        requires
                            seen & 1u16 == 0,
                            seen & (1u16 << 1u16) != 0,
                            seen & (1u16 << 2u16) != 0,
                            seen & (1u16 << 3u16) != 0,
                            seen & (1u16 << 4u16) != 0,
                            seen & (1u16 << 5u16) != 0,
                            seen & (1u16 << 6u16) != 0,
                            seen & (1u16 << 7u16) != 0,
                            seen & (1u16 << 8u16) != 0,
                            seen & (1u16 << 9u16) != 0,
                            seen & 0xfc00u16 == 0,
                    ;
                    assert(false);
                }
            }
        }
        r
    }

    /// Whether every square holds a digit.
    fn is_full(&self) -> (r: bool)
        requires
            self.wf(),
        ensures
            r == board_full(self.grid()),
    {
        let mut i: usize = 0;
        while i < 81
            invariant
                i <= 81,
                self.wf(),
                forall|j: int| 0 <= j < i ==> (#[trigger] self.grid()[j]) is Some,
            decreases 81 - i,
        {
            if self.board[i].is_none() {
                return false;
            }
            i = i + 1;
        }
        true
    }

    /// Whether every row holds the digits 1 through 9, each exactly once.
    fn check_rows(&self) -> (r: bool)
        requires
            self.wf(),
        ensures
            r == (forall|y: int| 0 <= y < 9 ==> #[trigger] row_solved(self.grid(), y)),
    {
        let mut y: usize = 0;
        while y < 9
            invariant
                y <= 9,
                self.wf(),
                forall|qy: int| 0 <= qy < y ==> #[trigger] row_solved(self.grid(), qy),
            decreases 9 - y,
        {
            let row = self.get_row(y);
            let ok = self.check_if_points_have_all_digits(&row);
            proof {
                let b = self.grid();
                let yy = y as int;
                let digits = Seq::new(9, |i: int| digit_at(b, i, yy)->0 as int);
                if ok {
                    assert forall|x: int| 0 <= x < 9 implies (#[trigger] digit_at(
                        b,
                        x,
                        yy,
                    )) is Some by {
                        assert(row@[x] == (Point { x: x as usize, y: y }));
                        assert(digit_at(b, row@[x].x as int, row@[x].y as int) is Some);
                    }
                    assert forall|i: int| 0 <= i < 9 implies 1 <= #[trigger] digits[i] <= 9 by {
                        assert(digit_at(b, i, yy) is Some);
                        assert(b[grid_index(i, yy)] matches Some(dd) ==> 1 <= dd <= 9);
                    }
                    assert forall|d: int| 1 <= d <= 9 implies #[trigger] digit_present(
                        digits,
                        d,
                    ) by {
                        assert(digit_in_points(b, row@, d as u8));
                        let k = choose|k: int|
                            0 <= k < row@.len() && digit_at(
                                b,
                                (#[trigger] row@[k]).x as int,
                                row@[k].y as int,
                            ) == Some(d as u8);
                        assert(digits[k] == d);
                    }
                    lemma_nine_digits_distinct(digits);
                    assert forall|x1: int, x2: int|
                        0 <= x1 < 9 && 0 <= x2 < 9 && x1 != x2 implies #[trigger] digit_at(
                        b,
                        x1,
                        yy,
                    ) != #[trigger] digit_at(b, x2, yy) by {
                        assert(digits[x1] != digits[x2]);
                    }
                    assert(row_solved(b, yy));
                } else {
                    if row_solved(b, yy) {
                        assert forall|i: int| 0 <= i < row@.len() implies (digit_at(
                            b,
                            (#[trigger] row@[i]).x as int,
                            row@[i].y as int,
                        )) is Some by {
                            assert(row@[i] == (Point { x: i as usize, y: y }));
                        }
                        assert forall|i: int| 0 <= i < 9 implies 1 <= #[trigger] digits[i] <= 9 by {
                            assert(digit_at(b, i, yy) is Some);
                            assert(b[grid_index(i, yy)] matches Some(dd) ==> 1 <= dd <= 9);
                        }
                        assert forall|i: int, j: int|
                            0 <= i < 9 && 0 <= j < 9 && i != j implies #[trigger] digits[i]
                            != #[trigger] digits[j] by {
                            assert(digit_at(b, i, yy) != digit_at(b, j, yy));
                            assert(digit_at(b, i, yy) is Some && digit_at(b, j, yy) is Some);
                        }
                        lemma_nine_digits_cover(digits);
                        assert forall|d: u8| 1 <= d <= 9 implies #[trigger] digit_in_points(
                            b,
                            row@,
                            d,
                        ) by {
                            assert(digit_present(digits, d as int));
                            let k = choose|k: int|
                                0 <= k < digits.len() && #[trigger] digits[k] == d as int;
                            assert(digit_at(b, k, yy) is Some);
                            assert(digit_at(b, k, yy) == Some(d));
                            assert(row@[k] == (Point { x: k as usize, y: y }));
                            assert(digit_at(b, row@[k].x as int, row@[k].y as int) == Some(d));
                        }
                        assert(false);
                    }
                }
            }
            if !ok {
                return false;
            }
            y = y + 1;
        }
        true
    }

    /// Whether every column holds the digits 1 through 9, each exactly
    /// once.
    fn check_columns(&self) -> (r: bool)
        requires
            self.wf(),
        ensures
            r == (forall|x: int| 0 <= x < 9 ==> #[trigger] column_solved(self.grid(), x)),
    {
        let mut x: usize = 0;
        while x < 9
            invariant
                x <= 9,
                self.wf(),
                forall|qx: int| 0 <= qx < x ==> #[trigger] column_solved(self.grid(), qx),
            decreases 9 - x,
        {
            let column = self.get_column(x);
            let ok = self.check_if_points_have_all_digits(&column);
            proof {
                let b = self.grid();
                let xx = x as int;
                let digits = Seq::new(9, |i: int| digit_at(b, xx, i)->0 as int);
                if ok {
                    assert forall|y: int| 0 <= y < 9 implies (#[trigger] digit_at(
                        b,
                        xx,
                        y,
                    )) is Some by {
                        assert(column@[y] == (Point { x: x, y: y as usize }));
                        assert(digit_at(b, column@[y].x as int, column@[y].y as int) is Some);
                    }
                    assert forall|i: int| 0 <= i < 9 implies 1 <= #[trigger] digits[i] <= 9 by {
                        assert(digit_at(b, xx, i) is Some);
                        assert(b[grid_index(xx, i)] matches Some(dd) ==> 1 <= dd <= 9);
                    }
                    assert forall|d: int| 1 <= d <= 9 implies #[trigger] digit_present(
                        digits,
                        d,
                    ) by {
                        assert(digit_in_points(b, column@, d as u8));
                        let k = choose|k: int|
                            0 <= k < column@.len() && digit_at(
                                b,
                                (#[trigger] column@[k]).x as int,
                                column@[k].y as int,
                            ) == Some(d as u8);
                        assert(digits[k] == d);
                    }
                    lemma_nine_digits_distinct(digits);
                    assert forall|y1: int, y2: int|
                        0 <= y1 < 9 && 0 <= y2 < 9 && y1 != y2 implies #[trigger] digit_at(
                        b,
                        xx,
                        y1,
                    ) != #[trigger] digit_at(b, xx, y2) by {
                        assert(digits[y1] != digits[y2]);
                    }
                    assert(column_solved(b, xx));
                } else {
                    if column_solved(b, xx) {
                        assert forall|i: int| 0 <= i < column@.len() implies (digit_at(
                            b,
                            (#[trigger] column@[i]).x as int,
                            column@[i].y as int,
                        )) is Some by {
                            assert(column@[i] == (Point { x: x, y: i as usize }));
                        }
                        assert forall|i: int| 0 <= i < 9 implies 1 <= #[trigger] digits[i] <= 9 by {
                            assert(digit_at(b, xx, i) is Some);
                            assert(b[grid_index(xx, i)] matches Some(dd) ==> 1 <= dd <= 9);
                        }
                        assert forall|i: int, j: int|
                            0 <= i < 9 && 0 <= j < 9 && i != j implies #[trigger] digits[i]
                            != #[trigger] digits[j] by {
                            assert(digit_at(b, xx, i) != digit_at(b, xx, j));
                            assert(digit_at(b, xx, i) is Some && digit_at(b, xx, j) is Some);
                        }
                        lemma_nine_digits_cover(digits);
                        assert forall|d: u8| 1 <= d <= 9 implies #[trigger] digit_in_points(
                            b,
                            column@,
                            d,
                        ) by {
                            assert(digit_present(digits, d as int));
                            let k = choose|k: int|
                                0 <= k < digits.len() && #[trigger] digits[k] == d as int;
                            assert(digit_at(b, xx, k) is Some);
                            assert(digit_at(b, xx, k) == Some(d));
                            assert(column@[k] == (Point { x: x, y: k as usize }));
                            assert(digit_at(b, column@[k].x as int, column@[k].y as int) == Some(
                                d,
                            ));
                        }
                        assert(false);
                    }
                }
            }
            if !ok {
                return false;
            }
            x = x + 1;
        }
        true
    }

    /// Whether every 3x3 region holds the digits 1 through 9, each
    /// exactly once.
    #[verifier::rlimit(40)]
    fn check_regions(&self) -> (r: bool)
        requires
            self.wf(),
        ensures
            r == (forall|rx: int, ry: int|
                0 <= rx < 3 && 0 <= ry < 3 ==> #[trigger] region_solved(self.grid(), rx, ry)),
    {
        let mut ry: usize = 0;
        while ry < 3
            invariant
                ry <= 3,
                self.wf(),
                forall|qx: int, qy: int|
                    0 <= qx < 3 && 0 <= qy < ry ==> #[trigger] region_solved(self.grid(), qx, qy),
            decreases 3 - ry,
        {
            let mut rx: usize = 0;
            while rx < 3
                invariant
                    ry < 3,
                    rx <= 3,
                    self.wf(),
                    forall|qx: int, qy: int|
                        0 <= qx < 3 && 0 <= qy < ry ==> #[trigger] region_solved(
                            self.grid(),
                            qx,
                            qy,
                        ),
                    forall|qx: int|
                        0 <= qx < rx ==> #[trigger] region_solved(self.grid(), qx, ry as int),
                decreases 3 - rx,
            {
                let region = self.get_region(Point::new(3 * rx, 3 * ry));
                let ok = self.check_if_points_have_all_digits(&region);
                proof {
                    let b = self.grid();
                    let gx = rx as int;
                    let gy = ry as int;
                    assert((3 * gx) / 3 == gx && (3 * gy) / 3 == gy) by {
                        lemma_div3_decompose(gx, 0);
                        lemma_div3_decompose(gy, 0);
                    }
                    assert forall|i: int| 0 <= i < 9 implies #[trigger] region@[i] == (Point {
                        x: (3 * gx + i % 3) as usize,
                        y: (3 * gy + i / 3) as usize,
                    }) by {}
                    let digits = Seq::new(
                        9,
                        |i: int| digit_at(b, 3 * gx + i % 3, 3 * gy + i / 3)->0 as int,
                    );
                    if ok {
                        assert forall|x: int, y: int|
                            3 * gx <= x < 3 * gx + 3 && 3 * gy <= y < 3 * gy + 3 implies (
                        #[trigger] digit_at(b, x, y)) is Some by {
                            let i = (y - 3 * gy) * 3 + (x - 3 * gx);
                            lemma_div3_decompose(y - 3 * gy, x - 3 * gx);
                            assert(region@[i] == (Point { x: x as usize, y: y as usize }));
                            assert(digit_at(b, region@[i].x as int, region@[i].y as int) is Some);
                        }
                        assert forall|i: int| 0 <= i < 9 implies 1 <= #[trigger] digits[i] <= 9 by {
                            assert(0 <= i % 3 < 3 && 0 <= i / 3 < 3);
                            assert(digit_at(b, 3 * gx + i % 3, 3 * gy + i / 3) is Some);
                            assert(b[grid_index(3 * gx + i % 3, 3 * gy + i / 3)] matches Some(dd)
                                ==> 1 <= dd <= 9);
                        }
                        assert forall|d: int| 1 <= d <= 9 implies #[trigger] digit_present(
                            digits,
                            d,
                        ) by {
                            assert(digit_in_points(b, region@, d as u8));
                            let k = choose|k: int|
                                0 <= k < region@.len() && digit_at(
                                    b,
                                    (#[trigger] region@[k]).x as int,
                                    region@[k].y as int,
                                ) == Some(d as u8);
                            assert(digits[k] == d);
                        }
                        lemma_nine_digits_distinct(digits);
                        assert forall|x1: int, y1: int, x2: int, y2: int|
                            3 * gx <= x1 < 3 * gx + 3 && 3 * gy <= y1 < 3 * gy + 3 && 3 * gx <= x2
                                < 3 * gx + 3 && 3 * gy <= y2 < 3 * gy + 3 && !(x1 == x2 && y1 == y2)
                                implies #[trigger] digit_at(b, x1, y1) != #[trigger] digit_at(
                            b,
                            x2,
                            y2,
                        ) by {
                            let i1 = (y1 - 3 * gy) * 3 + (x1 - 3 * gx);
                            let i2 = (y2 - 3 * gy) * 3 + (x2 - 3 * gx);
                            lemma_div3_decompose(y1 - 3 * gy, x1 - 3 * gx);
                            lemma_div3_decompose(y2 - 3 * gy, x2 - 3 * gx);
                            assert(digits[i1] != digits[i2]);
                            assert(digit_at(b, x1, y1) is Some && digit_at(b, x2, y2) is Some);
                        }
                        assert(region_solved(b, gx, gy));
                    } else {
                        if region_solved(b, gx, gy) {
                            assert forall|i: int| 0 <= i < region@.len() implies (digit_at(
                                b,
                                (#[trigger] region@[i]).x as int,
                                region@[i].y as int,
                            )) is Some by {
                                assert(0 <= i % 3 < 3 && 0 <= i / 3 < 3);
                                assert(region@[i] == (Point {
                                    x: (3 * gx + i % 3) as usize,
                                    y: (3 * gy + i / 3) as usize,
                                }));
                            }
                            assert forall|i: int| 0 <= i < 9 implies 1 <= #[trigger] digits[i]
                                <= 9 by {
                                assert(0 <= i % 3 < 3 && 0 <= i / 3 < 3);
                                assert(digit_at(b, 3 * gx + i % 3, 3 * gy + i / 3) is Some);
                                assert(b[grid_index(3 * gx + i % 3, 3 * gy + i / 3)] matches Some(
                                    dd,
                                ) ==> 1 <= dd <= 9);
                            }
                            assert forall|i: int, j: int|
                                0 <= i < 9 && 0 <= j < 9 && i != j implies #[trigger] digits[i]
                                != #[trigger] digits[j] by {
                                assert(0 <= i % 3 < 3 && 0 <= i / 3 < 3);
                                assert(0 <= j % 3 < 3 && 0 <= j / 3 < 3);
                                assert(!(3 * gx + i % 3 == 3 * gx + j % 3 && 3 * gy + i / 3 == 3
                                    * gy + j / 3));
                                assert(digit_at(b, 3 * gx + i % 3, 3 * gy + i / 3) != digit_at(
                                    b,
                                    3 * gx + j % 3,
                                    3 * gy + j / 3,
                                ));
                                assert(digit_at(b, 3 * gx + i % 3, 3 * gy + i / 3) is Some
                                    && digit_at(b, 3 * gx + j % 3, 3 * gy + j / 3) is Some);
                            }
                            lemma_nine_digits_cover(digits);
                            assert forall|d: u8| 1 <= d <= 9 implies #[trigger] digit_in_points(
                                b,
                                region@,
                                d,
                            ) by {
                                assert(digit_present(digits, d as int));
                                let k = choose|k: int|
                                    0 <= k < digits.len() && #[trigger] digits[k] == d as int;
                                assert(0 <= k % 3 < 3 && 0 <= k / 3 < 3);
                                assert(digit_at(b, 3 * gx + k % 3, 3 * gy + k / 3) is Some);
                                assert(digit_at(b, 3 * gx + k % 3, 3 * gy + k / 3) == Some(d));
                                assert(region@[k] == (Point {
                                    x: (3 * gx + k % 3) as usize,
                                    y: (3 * gy + k / 3) as usize,
                                }));
                                assert(digit_at(b, region@[k].x as int, region@[k].y as int)
                                    == Some(d));
                            }
                            assert(false);
                        }
                    }
                }
                if !ok {
                    return false;
                }
                rx = rx + 1;
            }
            ry = ry + 1;
        }
        true
    }

    /// Whether the board is a correctly completed puzzle: completely
    /// filled, with every row, column, and region a permutation of the
    /// digits 1 through 9.
    pub fn check(&self) -> (r: bool)
        requires
            self.wf(),
        ensures
            r == board_solved(self.grid()),
    {
        let r = self.is_full() && self.check_rows() && self.check_columns()
            && self.check_regions();
        proof {
            lemma_solved_by_groups(self.grid());
        }
        r
    }

    /// The shifted pattern as a concrete grid: a fixed, provably
    /// rule-abiding completed board, used if the engine ever failed to
    /// fill the empty grid (it cannot: the empty grid admits this very
    /// board, so the engine's completeness guarantee forces success).
    fn fallback_grid() -> (b: DigitBoard)
        ensures
            board_wf(b@),
            board_full(b@),
            board_consistent(b@),
    {
        let mut b: DigitBoard = [None; 81];
        let mut y: usize = 0;
        while y < 9
            invariant
                y <= 9,
                b@.len() == 81,
                forall|qx: int, qy: int|
                    valid_point(qx, qy) && qy < y ==> #[trigger] digit_at(b@, qx, qy) == Some(
                        (1 + (qx + 3 * (qy % 3) + qy / 3) % 9) as u8,
                    ),
            decreases 9 - y,
        {
            let mut x: usize = 0;
            while x < 9
                invariant
                    y < 9,
                    x <= 9,
                    b@.len() == 81,
                    forall|qx: int, qy: int|
                        valid_point(qx, qy) && (qy < y || (qy == y && qx < x)) ==> #[trigger] digit_at(
                            b@,
                            qx,
                            qy,
                        ) == Some((1 + (qx + 3 * (qy % 3) + qy / 3) % 9) as u8),
                decreases 9 - x,
            {
                let d: u8 = (1 + (x + 3 * (y % 3) + y / 3) % 9) as u8;
                let ghost b0 = b@;
                b[y * 9 + x] = Some(d);
                proof {
                    assert forall|qx: int, qy: int|
                        valid_point(qx, qy) && (qy < y || (qy == y && qx < x + 1)) implies
                    #[trigger] digit_at(b@, qx, qy) == Some(
                        (1 + (qx + 3 * (qy % 3) + qy / 3) % 9) as u8,
                    ) by {
                        if qx == x as int && qy == y as int {
                            assert(0 <= (qx + 3 * (qy % 3) + qy / 3) % 9 < 9);
                            assert(b@[grid_index(qx, qy)] == Some(d));
                        } else {
                            assert(grid_index(qx, qy) != grid_index(x as int, y as int));
                            assert(b@[grid_index(qx, qy)] == b0[grid_index(qx, qy)]);
                            assert(digit_at(b0, qx, qy) == Some(
                                (1 + (qx + 3 * (qy % 3) + qy / 3) % 9) as u8,
                            ));
                        }
                    }
                }
                x = x + 1;
            }
            y = y + 1;
        }
        proof {
            lemma_shifted_board_solved();
            assert forall|i: int| 0 <= i < 81 implies #[trigger] b@[i] == shifted_board()[i] by {
                let x = i % 9;
                let y = i / 9;
                assert(valid_point(x, y));
                assert(grid_index(x, y) == i);
                assert(digit_at(b@, x, y) == Some((1 + (x + 3 * (y % 3) + y / 3) % 9) as u8));
            }
            assert(b@ =~= shifted_board());
        }
        b
    }

    /// Which squares of `board` hold a digit: those become the read-only
    /// givens of a freshly generated puzzle.
    fn infer_read_only(board: &DigitBoard) -> (m: [bool; 81])
        ensures
            forall|i: int| 0 <= i < 81 ==> ((#[trigger] m@[i]) <==> board@[i] is Some),
    {
        let mut m: [bool; 81] = [false; 81];
        let mut i: usize = 0;
        while i < 81
            invariant
                i <= 81,
                m@.len() == 81,
                forall|j: int| 0 <= j < i ==> ((#[trigger] m@[j]) <==> board@[j] is Some),
                forall|j: int| i <= j < 81 ==> !(#[trigger] m@[j]),
            decreases 81 - i,
        {
            if board[i].is_some() {
                m[i] = true;
            }
            i = i + 1;
        }
        m
    }

    /// Builds the digit grid of a fresh puzzle: one fully solved board,
    /// with `difficulty` squares -- drawn by a uniform shuffle of all 81
    /// coordinates -- emptied again.  `difficulty` is clamped to 81.
    #[verifier::loop_isolation(false)]
    fn create_puzzle(difficulty: u8) -> (b: DigitBoard)
        ensures
            board_wf(b@),
            board_consistent(b@),
            empty_count(b@) == (if difficulty <= 81 {
                difficulty as int
            } else {
                81int
            }),
            exists|sol: Seq<Option<u8>>|
                board_solved(sol) && #[trigger] board_extends(sol, b@),
    {
        let difficulty: u8 = if difficulty > 81 {
            81
        } else {
            difficulty
        };
        let mut rng = rand::rng();
        let mut points: Vec<(usize, usize)> = Vec::new();
        let mut y: usize = 0;
        while y < 9
            invariant
                y <= 9,
                points@.len() == y * 9,
                forall|i: int|
                    0 <= i < points@.len() ==> #[trigger] points@[i] == ((i % 9) as usize, (i
                        / 9) as usize),
            decreases 9 - y,
        {
            let mut x: usize = 0;
            while x < 9
                invariant
                    y < 9,
                    x <= 9,
                    points@.len() == y * 9 + x,
                    forall|i: int|
                        0 <= i < points@.len() ==> #[trigger] points@[i] == ((i % 9) as usize, (i
                            / 9) as usize),
                decreases 9 - x,
            {
                points.push((x, y));
                proof {
                    assert((y * 9 + x) as int % 9 == x as int && (y * 9 + x) as int / 9
                        == y as int) by (nonlinear_arith)
                        requires
                            x < 9,
                            y < 9,
                    ;
                }
                x = x + 1;
            }
            y = y + 1;
        }
        proof {
            assert forall|i: int, j: int|
                0 <= i < points@.len() && 0 <= j < points@.len() && i != j implies points@[i]
                != points@[j] by {
                assert(points@[i] == ((i % 9) as usize, (i / 9) as usize));
                assert(points@[j] == ((j % 9) as usize, (j / 9) as usize));
                assert(i == 9 * (i / 9) + i % 9 && j == 9 * (j / 9) + j % 9);
            }
            assert(points@.no_duplicates());
        }
        let ghost points0 = points@;
        shuffle_points(&mut points, &mut rng);
        proof {
            points0.to_multiset_ensures();
            points@.to_multiset_ensures();
            points0.lemma_multiset_has_no_duplicates();
            points@.lemma_multiset_has_no_duplicates_conv();
            assert(points@.no_duplicates());
            assert forall|i: int|
                0 <= i < points@.len() implies valid_point(
                (#[trigger] points@[i]).0 as int,
                points@[i].1 as int,
            ) by {
                assert(points@.contains(points@[i]));
                assert(points@.to_multiset().count(points@[i]) > 0);
                assert(points0.to_multiset().count(points@[i]) > 0);
                assert(points0.contains(points@[i]));
                let j = choose|j: int| 0 <= j < points0.len() && points0[j] == points@[i];
                assert(points0[j] == ((j % 9) as usize, (j / 9) as usize));
            }
        }
        let base: DigitBoard = match SudokuSolver::new_empty().solve() {
            Ok(grid) => grid,
            Err(_) => Self::fallback_grid(),
        };
        let mut puzzle: DigitBoard = base;
        proof {
            lemma_empty_count_from_full(puzzle@, 0);
        }
        let mut k: u8 = 0;
        while k < difficulty
            invariant
                k <= difficulty,
                points@.len() == 81 - k,
                points@.no_duplicates(),
                forall|i: int|
                    0 <= i < points@.len() ==> valid_point(
                        (#[trigger] points@[i]).0 as int,
                        points@[i].1 as int,
                    ),
                puzzle@.len() == 81,
                board_wf(puzzle@),
                forall|i: int|
                    0 <= i < 81 && (#[trigger] puzzle@[i]) is Some ==> puzzle@[i] == base@[i],
                forall|j: int|
                    0 <= j < points@.len() ==> (#[trigger] puzzle@[grid_index(
                        points@[j].0 as int,
                        points@[j].1 as int,
                    )]) is Some,
                empty_count(puzzle@) == k,
            decreases difficulty - k,
        {
            let ghost pts_pre = points@;
            let ghost puz_pre = puzzle@;
            match points.pop() {
                Some(p) => {
                    let (x, yy) = p;
                    proof {
                        assert(p == pts_pre[pts_pre.len() - 1]);
                        assert(valid_point(x as int, yy as int));
                        assert(puzzle@[grid_index(x as int, yy as int)] is Some);
                        lemma_empty_count_from_update(
                            puzzle@,
                            0,
                            grid_index(x as int, yy as int),
                            None,
                        );
                    }
                    puzzle[yy * 9 + x] = None;
                    proof {
                        assert forall|j: int|
                            0 <= j < points@.len() implies (#[trigger] puzzle@[grid_index(
                            points@[j].0 as int,
                            points@[j].1 as int,
                        )]) is Some by {
                            assert(points@[j] == pts_pre[j]);
                            assert(pts_pre[j] != p);
                            assert(grid_index(points@[j].0 as int, points@[j].1 as int)
                                != grid_index(x as int, yy as int));
                            assert(puzzle@[grid_index(points@[j].0 as int, points@[j].1 as int)]
                                == puz_pre[grid_index(points@[j].0 as int, points@[j].1 as int)]);
                        }
                    }
                },
                None => {
                    proof {
                        assert(false);
                    }
                },
            }
            k = k + 1;
        }
        proof {
            assert forall|x1: int, y1: int, x2: int, y2: int|
                sees(x1, y1, x2, y2) && #[trigger] digit_at(puzzle@, x1, y1) is Some
                    && #[trigger] digit_at(puzzle@, x2, y2) is Some implies digit_at(
                puzzle@,
                x1,
                y1,
            ) != digit_at(puzzle@, x2, y2) by {
                assert(puzzle@[grid_index(x1, y1)] == base@[grid_index(x1, y1)]);
                assert(puzzle@[grid_index(x2, y2)] == base@[grid_index(x2, y2)]);
                assert(digit_at(base@, x1, y1) is Some && digit_at(base@, x2, y2) is Some);
                assert(digit_at(base@, x1, y1) != digit_at(base@, x2, y2));
            }
            assert(board_extends(base@, puzzle@));
        }
        puzzle
    }

    /// A freshly generated puzzle: `difficulty` squares (clamped to 81)
    /// are empty and editable, and the rest hold the digits of one fully
    /// solved board and are read-only.
    pub fn new_puzzle(difficulty: u8) -> (s: Self)
        ensures
            s.wf(),
            board_consistent(s.grid()),
            forall|i: int| 0 <= i < 81 ==> ((#[trigger] s.grid()[i]) is Some <==> s.mask()[i]),
            empty_count(s.grid()) == (if difficulty <= 81 {
                difficulty as int
            } else {
                81int
            }),
            exists|sol: Seq<Option<u8>>|
                board_solved(sol) && #[trigger] board_extends(sol, s.grid()),
    {
        let puzzle = Self::create_puzzle(difficulty);
        let read_only = Self::infer_read_only(&puzzle);
        Sudoku { board: puzzle, read_only }
    }

    /// Appends the two-character rendering of one square: its digit (or a
    /// blank) followed by a space.
    fn append_cell(s: &mut String, o: Option<u8>)
        requires
            o matches Some(d) ==> 1 <= d <= 9,
        ensures
            final(s)@ == old(s)@ + cell_text(o),
    {
        match o {
            None => s.append("  "),
            Some(d) => {
                match d {
                    1 => s.append("1 "),
                    2 => s.append("2 "),
                    3 => s.append("3 "),
                    4 => s.append("4 "),
                    5 => s.append("5 "),
                    6 => s.append("6 "),
                    7 => s.append("7 "),
                    8 => s.append("8 "),
                    9 => s.append("9 "),
                    _ => {
                        proof {
                            assert(false);
                        }
                    },
                }
            },
        }
    }

    /// Appends the rendering of row `y`: nine squares with a bar after
    /// every third column, then a newline.
    #[verifier::rlimit(50)]
    fn append_row(&self, s: &mut String, y: usize)
        requires
            y < 9,
            self.wf(),
        ensures
            final(s)@ == old(s)@ + row_text(self.grid(), y as int),
    {
        let ghost b = self.grid();
        let ghost yy = y as int;
        Self::append_cell(s, self.get_cell(0, y));
        proof {
            assert(s@ =~= old(s)@ + (cell_text(digit_at(b, 0, yy))));
        }
        Self::append_cell(s, self.get_cell(1, y));
        proof {
            assert(s@ =~= old(s)@ + (cell_text(digit_at(b, 0, yy)) + cell_text(digit_at(b, 1, yy))));
        }
        Self::append_cell(s, self.get_cell(2, y));
        proof {
            assert(s@ =~= old(s)@ + (cell_text(digit_at(b, 0, yy)) + cell_text(digit_at(b, 1, yy)) + cell_text(digit_at(b, 2, yy))));
        }
        s.append("| ");
        proof {
            assert(s@ =~= old(s)@ + (cell_text(digit_at(b, 0, yy)) + cell_text(digit_at(b, 1, yy)) + cell_text(digit_at(b, 2, yy)) + "| "@));
        }
        Self::append_cell(s, self.get_cell(3, y));
        proof {
            assert(s@ =~= old(s)@ + (cell_text(digit_at(b, 0, yy)) + cell_text(digit_at(b, 1, yy)) + cell_text(digit_at(b, 2, yy)) + "| "@ + cell_text(digit_at(b, 3, yy))));
        }
        Self::append_cell(s, self.get_cell(4, y));
        proof {
            assert(s@ =~= old(s)@ + (cell_text(digit_at(b, 0, yy)) + cell_text(digit_at(b, 1, yy)) + cell_text(digit_at(b, 2, yy)) + "| "@ + cell_text(digit_at(b, 3, yy)) + cell_text(digit_at(b, 4, yy))));
        }
        Self::append_cell(s, self.get_cell(5, y));
        proof {
            assert(s@ =~= old(s)@ + (cell_text(digit_at(b, 0, yy)) + cell_text(digit_at(b, 1, yy)) + cell_text(digit_at(b, 2, yy)) + "| "@ + cell_text(digit_at(b, 3, yy)) + cell_text(digit_at(b, 4, yy)) + cell_text(digit_at(b, 5, yy))));
        }
        s.append("| ");
        proof {
            assert(s@ =~= old(s)@ + (cell_text(digit_at(b, 0, yy)) + cell_text(digit_at(b, 1, yy)) + cell_text(digit_at(b, 2, yy)) + "| "@ + cell_text(digit_at(b, 3, yy)) + cell_text(digit_at(b, 4, yy)) + cell_text(digit_at(b, 5, yy)) + "| "@));
        }
        Self::append_cell(s, self.get_cell(6, y));
        proof {
            assert(s@ =~= old(s)@ + (cell_text(digit_at(b, 0, yy)) + cell_text(digit_at(b, 1, yy)) + cell_text(digit_at(b, 2, yy)) + "| "@ + cell_text(digit_at(b, 3, yy)) + cell_text(digit_at(b, 4, yy)) + cell_text(digit_at(b, 5, yy)) + "| "@ + cell_text(digit_at(b, 6, yy))));
        }
        Self::append_cell(s, self.get_cell(7, y));
        proof {
            assert(s@ =~= old(s)@ + (cell_text(digit_at(b, 0, yy)) + cell_text(digit_at(b, 1, yy)) + cell_text(digit_at(b, 2, yy)) + "| "@ + cell_text(digit_at(b, 3, yy)) + cell_text(digit_at(b, 4, yy)) + cell_text(digit_at(b, 5, yy)) + "| "@ + cell_text(digit_at(b, 6, yy)) + cell_text(digit_at(b, 7, yy))));
        }
        Self::append_cell(s, self.get_cell(8, y));
        proof {
            assert(s@ =~= old(s)@ + (cell_text(digit_at(b, 0, yy)) + cell_text(digit_at(b, 1, yy)) + cell_text(digit_at(b, 2, yy)) + "| "@ + cell_text(digit_at(b, 3, yy)) + cell_text(digit_at(b, 4, yy)) + cell_text(digit_at(b, 5, yy)) + "| "@ + cell_text(digit_at(b, 6, yy)) + cell_text(digit_at(b, 7, yy)) + cell_text(digit_at(b, 8, yy))));
        }
        s.append("\n");
        proof {
            assert(s@ =~= old(s)@ + (cell_text(digit_at(b, 0, yy)) + cell_text(digit_at(b, 1, yy)) + cell_text(digit_at(b, 2, yy)) + "| "@ + cell_text(digit_at(b, 3, yy)) + cell_text(digit_at(b, 4, yy)) + cell_text(digit_at(b, 5, yy)) + "| "@ + cell_text(digit_at(b, 6, yy)) + cell_text(digit_at(b, 7, yy)) + cell_text(digit_at(b, 8, yy)) + "\n"@));
        }
    }

    /// Renders the board as text, top row first: one character per
    /// square, separated by spaces, with bars after every third column
    /// and a divider line after every third row, so that the 3x3 regions
    /// stand out.
    #[verifier::rlimit(50)]
    pub fn to_text(&self) -> (s: String)
        requires
            self.wf(),
        ensures
            s@ == board_text(self.grid()),
    {
        let ghost b = self.grid();
        let mut s = String::new();
        self.append_row(&mut s, 0);
        proof {
            assert(s@ =~= row_text(b, 0));
        }
        self.append_row(&mut s, 1);
        proof {
            assert(s@ =~= row_text(b, 0) + row_text(b, 1));
        }
        self.append_row(&mut s, 2);
        proof {
            assert(s@ =~= row_text(b, 0) + row_text(b, 1) + row_text(b, 2));
        }
        s.append("------+-------+------\n");
        proof {
            assert(s@ =~= row_text(b, 0) + row_text(b, 1) + row_text(b, 2) + "------+-------+------\n"@);
        }
        self.append_row(&mut s, 3);
        proof {
            assert(s@ =~= row_text(b, 0) + row_text(b, 1) + row_text(b, 2) + "------+-------+------\n"@ + row_text(b, 3));
        }
        self.append_row(&mut s, 4);
        proof {
            assert(s@ =~= row_text(b, 0) + row_text(b, 1) + row_text(b, 2) + "------+-------+------\n"@ + row_text(b, 3) + row_text(b, 4));
        }
        self.append_row(&mut s, 5);
        proof {
            assert(s@ =~= row_text(b, 0) + row_text(b, 1) + row_text(b, 2) + "------+-------+------\n"@ + row_text(b, 3) + row_text(b, 4) + row_text(b, 5));
        }
        s.append("------+-------+------\n");
        proof {
            assert(s@ =~= row_text(b, 0) + row_text(b, 1) + row_text(b, 2) + "------+-------+------\n"@ + row_text(b, 3) + row_text(b, 4) + row_text(b, 5) + "------+-------+------\n"@);
        }
        self.append_row(&mut s, 6);
        proof {
            assert(s@ =~= row_text(b, 0) + row_text(b, 1) + row_text(b, 2) + "------+-------+------\n"@ + row_text(b, 3) + row_text(b, 4) + row_text(b, 5) + "------+-------+------\n"@ + row_text(b, 6));
        }
        self.append_row(&mut s, 7);
        proof {
            assert(s@ =~= row_text(b, 0) + row_text(b, 1) + row_text(b, 2) + "------+-------+------\n"@ + row_text(b, 3) + row_text(b, 4) + row_text(b, 5) + "------+-------+------\n"@ + row_text(b, 6) + row_text(b, 7));
        }
        self.append_row(&mut s, 8);
        proof {
            assert(s@ =~= row_text(b, 0) + row_text(b, 1) + row_text(b, 2) + "------+-------+------\n"@ + row_text(b, 3) + row_text(b, 4) + row_text(b, 5) + "------+-------+------\n"@ + row_text(b, 6) + row_text(b, 7) + row_text(b, 8));
        }
        s
    }
}

} // verus!
