//! The mathematical model of a digit board: a flat, row-major sequence of
//! 81 optional digits, and the rules a completed sudoku must obey.

use vstd::prelude::*;
use crate::point::{grid_index, sees, valid_point};

verus! {

/// A 9x9 board of optional digits, stored row-major.
pub type DigitBoard = [Option<u8>; 81];

/// The digit stored at column `x`, row `y`.
pub open spec fn digit_at(b: Seq<Option<u8>>, x: int, y: int) -> Option<u8> {
    b[grid_index(x, y)]
}

/// Every stored digit lies in 1..=9, and the board has all 81 squares.
pub open spec fn board_wf(b: Seq<Option<u8>>) -> bool {
    &&& b.len() == 81
    &&& forall|i: int| 0 <= i < 81 ==> ((#[trigger] b[i]) matches Some(d) ==> 1 <= d <= 9)
}

/// Every square holds a digit.
pub open spec fn board_full(b: Seq<Option<u8>>) -> bool {
    forall|i: int| 0 <= i < 81 ==> (#[trigger] b[i]) is Some
}

/// No two relatives (same row, column, or region) hold the same digit.
pub open spec fn board_consistent(b: Seq<Option<u8>>) -> bool {
    forall|x1: int, y1: int, x2: int, y2: int|
        sees(x1, y1, x2, y2) && #[trigger] digit_at(b, x1, y1) is Some && #[trigger] digit_at(
            b,
            x2,
            y2,
        ) is Some ==> digit_at(b, x1, y1) != digit_at(b, x2, y2)
}

/// A valid completed puzzle: all squares filled, every digit in range, and
/// every row, column, and region free of duplicates -- with nine squares
/// per group and nine digits, each group is then a permutation of 1..=9.
pub open spec fn board_solved(b: Seq<Option<u8>>) -> bool {
    &&& board_wf(b)
    &&& board_full(b)
    &&& board_consistent(b)
}

/// Row `y` is completely filled with nine distinct digits.
pub open spec fn row_solved(b: Seq<Option<u8>>, y: int) -> bool {
    &&& forall|x: int| 0 <= x < 9 ==> (#[trigger] digit_at(b, x, y)) is Some
    &&& forall|x1: int, x2: int|
        0 <= x1 < 9 && 0 <= x2 < 9 && x1 != x2 ==> #[trigger] digit_at(b, x1, y)
            != #[trigger] digit_at(b, x2, y)
}

/// Column `x` is completely filled with nine distinct digits.
pub open spec fn column_solved(b: Seq<Option<u8>>, x: int) -> bool {
    &&& forall|y: int| 0 <= y < 9 ==> (#[trigger] digit_at(b, x, y)) is Some
    &&& forall|y1: int, y2: int|
        0 <= y1 < 9 && 0 <= y2 < 9 && y1 != y2 ==> #[trigger] digit_at(b, x, y1)
            != #[trigger] digit_at(b, x, y2)
}

/// The 3x3 region with index (`rx`, `ry`) -- its top-left corner sits at
/// column `3 * rx`, row `3 * ry` -- is completely filled with nine
/// distinct digits.
pub open spec fn region_solved(b: Seq<Option<u8>>, rx: int, ry: int) -> bool {
    &&& forall|x: int, y: int|
        3 * rx <= x < 3 * rx + 3 && 3 * ry <= y < 3 * ry + 3 ==> (#[trigger] digit_at(
            b,
            x,
            y,
        )) is Some
    &&& forall|x1: int, y1: int, x2: int, y2: int|
        3 * rx <= x1 < 3 * rx + 3 && 3 * ry <= y1 < 3 * ry + 3 && 3 * rx <= x2 < 3 * rx + 3 && 3
            * ry <= y2 < 3 * ry + 3 && !(x1 == x2 && y1 == y2) ==> #[trigger] digit_at(b, x1, y1)
            != #[trigger] digit_at(b, x2, y2)
}

/// The completed-puzzle rule is exactly: every row, every column, and
/// every region is full of distinct digits.
pub proof fn lemma_solved_by_groups(b: Seq<Option<u8>>)
    requires
        b.len() == 81,
    ensures
        (board_full(b) && board_consistent(b)) <==> ((forall|y: int| 0 <= y < 9 ==> row_solved(b, y))
            && (forall|x: int| 0 <= x < 9 ==> column_solved(b, x)) && (forall|rx: int, ry: int|
            0 <= rx < 3 && 0 <= ry < 3 ==> region_solved(b, rx, ry))),
{
    if board_full(b) && board_consistent(b) {
        assert forall|y: int| 0 <= y < 9 implies row_solved(b, y) by {
            assert forall|x: int| 0 <= x < 9 implies (#[trigger] digit_at(b, x, y)) is Some by {
                assert(b[grid_index(x, y)] is Some);
            }
            assert forall|x1: int, x2: int|
                0 <= x1 < 9 && 0 <= x2 < 9 && x1 != x2 implies #[trigger] digit_at(b, x1, y)
                != #[trigger] digit_at(b, x2, y) by {
                assert(sees(x1, y, x2, y));
            }
        }
        assert forall|x: int| 0 <= x < 9 implies column_solved(b, x) by {
            assert forall|y: int| 0 <= y < 9 implies (#[trigger] digit_at(b, x, y)) is Some by {
                assert(b[grid_index(x, y)] is Some);
            }
            assert forall|y1: int, y2: int|
                0 <= y1 < 9 && 0 <= y2 < 9 && y1 != y2 implies #[trigger] digit_at(b, x, y1)
                != #[trigger] digit_at(b, x, y2) by {
                assert(sees(x, y1, x, y2));
            }
        }
        assert forall|rx: int, ry: int| 0 <= rx < 3 && 0 <= ry < 3 implies region_solved(
            b,
            rx,
            ry,
        ) by {
            assert forall|x: int, y: int|
                3 * rx <= x < 3 * rx + 3 && 3 * ry <= y < 3 * ry + 3 implies (#[trigger] digit_at(
                b,
                x,
                y,
            )) is Some by {
                assert(b[grid_index(x, y)] is Some);
            }
            assert forall|x1: int, y1: int, x2: int, y2: int|
                3 * rx <= x1 < 3 * rx + 3 && 3 * ry <= y1 < 3 * ry + 3 && 3 * rx <= x2 < 3 * rx + 3
                    && 3 * ry <= y2 < 3 * ry + 3 && !(x1 == x2 && y1 == y2) implies #[trigger] digit_at(
                b,
                x1,
                y1,
            ) != #[trigger] digit_at(b, x2, y2) by {
                assert(x1 / 3 == rx && x2 / 3 == rx && y1 / 3 == ry && y2 / 3 == ry);
                assert(sees(x1, y1, x2, y2));
            }
        }
    }
    if (forall|y: int| 0 <= y < 9 ==> row_solved(b, y)) && (forall|x: int|
        0 <= x < 9 ==> column_solved(b, x)) && (forall|rx: int, ry: int|
        0 <= rx < 3 && 0 <= ry < 3 ==> region_solved(b, rx, ry)) {
        assert forall|i: int| 0 <= i < 81 implies (#[trigger] b[i]) is Some by {
            let x = i % 9;
            let y = i / 9;
            assert(row_solved(b, y));
            assert(digit_at(b, x, y) is Some);
            assert(grid_index(x, y) == i);
        }
        assert forall|x1: int, y1: int, x2: int, y2: int|
            sees(x1, y1, x2, y2) && #[trigger] digit_at(b, x1, y1) is Some && #[trigger] digit_at(
                b,
                x2,
                y2,
            ) is Some implies digit_at(b, x1, y1) != digit_at(b, x2, y2) by {
            if y1 == y2 {
                assert(row_solved(b, y1));
            } else if x1 == x2 {
                assert(column_solved(b, x1));
            } else {
                let rx = x1 / 3;
                let ry = y1 / 3;
                assert(0 <= rx < 3 && 0 <= ry < 3);
                assert(region_solved(b, rx, ry));
                assert(3 * rx <= x1 < 3 * rx + 3 && 3 * ry <= y1 < 3 * ry + 3);
                assert(3 * rx <= x2 < 3 * rx + 3 && 3 * ry <= y2 < 3 * ry + 3);
            }
        }
    }
}

/// Value `d` occurs somewhere in `digits`.
pub open spec fn digit_present(digits: Seq<int>, d: int) -> bool {
    exists|i: int| 0 <= i < digits.len() && #[trigger] digits[i] == d
}

/// Nine values from 1..=9 that include every digit are pairwise
/// distinct: there is no room for a repeat.
pub proof fn lemma_nine_digits_distinct(digits: Seq<int>)
    requires
        digits.len() == 9,
        forall|i: int| 0 <= i < 9 ==> 1 <= #[trigger] digits[i] <= 9,
        forall|d: int| 1 <= d <= 9 ==> #[trigger] digit_present(digits, d),
    ensures
        forall|i: int, j: int|
            0 <= i < 9 && 0 <= j < 9 && i != j ==> #[trigger] digits[i] != #[trigger] digits[j],
{
    broadcast use vstd::seq_lib::seq_to_set_is_finite;

    assert forall|i: int, j: int|
        0 <= i < 9 && 0 <= j < 9 && i != j implies #[trigger] digits[i] != #[trigger] digits[j] by {
        if digits[i] == digits[j] {
            let a = if i < j {
                i
            } else {
                j
            };
            let b = if i < j {
                j
            } else {
                i
            };
            let t = digits.remove(b);
            assert(t.len() == 8);
            assert forall|d: int| vstd::set_lib::set_int_range(1, 10).contains(d) implies
            t.to_set().contains(d) by {
                assert(digit_present(digits, d));
                let w = choose|w: int| 0 <= w < digits.len() && #[trigger] digits[w] == d;
                if w == b {
                    assert(t[a] == digits[a]);
                    assert(t.contains(t[a]));
                } else if w < b {
                    assert(t[w] == digits[w]);
                    assert(t.contains(t[w]));
                } else {
                    assert(t[w - 1] == digits[w]);
                    assert(t.contains(t[w - 1]));
                }
            }
            vstd::set_lib::lemma_int_range(1, 10);
            t.lemma_cardinality_of_set();
            vstd::set_lib::lemma_len_subset(vstd::set_lib::set_int_range(1, 10), t.to_set());
            assert(false);
        }
    }
}

/// Nine pairwise-distinct values from 1..=9 include every digit: none can
/// be missing.
pub proof fn lemma_nine_digits_cover(digits: Seq<int>)
    requires
        digits.len() == 9,
        forall|i: int| 0 <= i < 9 ==> 1 <= #[trigger] digits[i] <= 9,
        forall|i: int, j: int|
            0 <= i < 9 && 0 <= j < 9 && i != j ==> #[trigger] digits[i] != #[trigger] digits[j],
    ensures
        forall|d: int| 1 <= d <= 9 ==> #[trigger] digit_present(digits, d),
{
    broadcast use vstd::seq_lib::seq_to_set_is_finite;

    assert forall|d: int| 1 <= d <= 9 implies #[trigger] digit_present(digits, d) by {
        if forall|i: int| 0 <= i < 9 ==> #[trigger] digits[i] != d {
            assert(digits.no_duplicates());
            digits.unique_seq_to_set();
            let missing = vstd::set_lib::set_int_range(1, 10).remove(d);
            assert forall|e: int| digits.to_set().contains(e) implies missing.contains(e) by {
                let w = choose|w: int| 0 <= w < digits.len() && digits[w] == e;
                assert(1 <= e <= 9 && e != d);
            }
            vstd::set_lib::lemma_int_range(1, 10);
            vstd::set_lib::lemma_len_subset(digits.to_set(), missing);
            assert(missing.len() == 8);
            assert(false);
        }
    }
}

/// Number of empty squares at positions `i..81`.
pub open spec fn empty_count_from(b: Seq<Option<u8>>, i: int) -> nat
    decreases 81 - i,
{
    if 0 <= i < 81 {
        (if b[i] is None {
            1nat
        } else {
            0nat
        }) + empty_count_from(b, i + 1)
    } else {
        0
    }
}

/// Number of empty squares on the board.
pub open spec fn empty_count(b: Seq<Option<u8>>) -> nat {
    empty_count_from(b, 0)
}

/// `full` agrees with `partial` on every square `partial` fills: it is
/// one way of completing `partial`.
pub open spec fn board_extends(full: Seq<Option<u8>>, partial: Seq<Option<u8>>) -> bool {
    &&& full.len() == 81
    &&& partial.len() == 81
    &&& forall|i: int| 0 <= i < 81 && (#[trigger] partial[i]) is Some ==> full[i] == partial[i]
}

/// Some relative of (`x`, `y`) -- same row, column, or region -- holds
/// digit `d` on board `b`.
pub open spec fn relative_digit(b: Seq<Option<u8>>, x: int, y: int, d: u8) -> bool {
    exists|rx: int, ry: int| #[trigger] sees(x, y, rx, ry) && digit_at(b, rx, ry) == Some(d)
}

/// Square (`x`, `y`) of `b` is empty, yet its relatives already hold all
/// nine digits: no digit can legally be placed there.
pub open spec fn dead_square(b: Seq<Option<u8>>, x: int, y: int) -> bool {
    &&& valid_point(x, y)
    &&& digit_at(b, x, y) is None
    &&& forall|d: u8| 1 <= d <= 9 ==> #[trigger] relative_digit(b, x, y, d)
}

/// One fixed, rule-abiding completed board: square (`x`, `y`) holds
/// `1 + (x + 3*(y % 3) + y / 3) % 9`, shifting each row of 1..9 by three
/// and each band of rows by one more.
pub open spec fn shifted_board() -> Seq<Option<u8>> {
    Seq::new(81, |i: int| Some((1 + (i % 9 + 3 * ((i / 9) % 3) + (i / 9) / 3) % 9) as u8))
}

/// The shifted board is a correctly completed puzzle; in particular some
/// completed board exists, so a board with no digits at all is always
/// solvable.
#[verifier::rlimit(60)]
pub proof fn lemma_shifted_board_solved()
    ensures
        board_solved(shifted_board()),
        exists|sol: Seq<Option<u8>>| #[trigger] board_solved(sol),
{
    let sol = shifted_board();
    assert forall|x: int, y: int| valid_point(x, y) implies #[trigger] digit_at(sol, x, y) == Some(
        (1 + (x + 3 * (y % 3) + y / 3) % 9) as u8,
    ) by {
        let i = grid_index(x, y);
        assert(i % 9 == x && i / 9 == y) by (nonlinear_arith)
            requires
                0 <= x < 9,
                0 <= y < 9,
                i == y * 9 + x,
        ;
    }
    assert forall|i: int| 0 <= i < 81 implies (#[trigger] sol[i]) is Some && (
    sol[i] matches Some(d) ==> 1 <= d <= 9) by {
        let x = i % 9;
        let y = i / 9;
        assert(valid_point(x, y));
        assert(grid_index(x, y) == i);
        assert(digit_at(sol, x, y) == Some((1 + (x + 3 * (y % 3) + y / 3) % 9) as u8));
    }
    assert forall|x1: int, y1: int, x2: int, y2: int|
        sees(x1, y1, x2, y2) && #[trigger] digit_at(sol, x1, y1) is Some && #[trigger] digit_at(
            sol,
            x2,
            y2,
        ) is Some implies digit_at(sol, x1, y1) != digit_at(sol, x2, y2) by {
        let s1 = x1 + 3 * (y1 % 3) + y1 / 3;
        let s2 = x2 + 3 * (y2 % 3) + y2 / 3;
        assert(0 <= s1 <= 16 && 0 <= s2 <= 16);
        if digit_at(sol, x1, y1) == digit_at(sol, x2, y2) {
            assert(s1 % 9 == s2 % 9);
            assert(s1 == s2 || s1 == s2 + 9 || s2 == s1 + 9);
            if y1 == y2 {
                assert(s1 - s2 == x1 - x2);
                assert(false);
            } else if x1 == x2 {
                assert(s1 - s2 == 3 * (y1 % 3 - y2 % 3) + (y1 / 3 - y2 / 3));
                assert(-2 <= y1 % 3 - y2 % 3 <= 2);
                assert(-2 <= y1 / 3 - y2 / 3 <= 2);
                assert(y1 == 3 * (y1 / 3) + y1 % 3);
                assert(y2 == 3 * (y2 / 3) + y2 % 3);
                assert(false);
            } else {
                assert(x1 / 3 == x2 / 3 && y1 / 3 == y2 / 3);
                assert(s1 - s2 == (x1 - x2) + 3 * (y1 % 3 - y2 % 3));
                assert(x1 == 3 * (x1 / 3) + x1 % 3);
                assert(x2 == 3 * (x2 / 3) + x2 % 3);
                assert(-2 <= x1 - x2 <= 2);
                assert(y1 == 3 * (y1 / 3) + y1 % 3);
                assert(y2 == 3 * (y2 / 3) + y2 % 3);
                assert(false);
            }
        }
    }
    assert(board_solved(sol));
}

/// Completing a board cannot repair a duplicate: a board whose squares
/// are all kept by some duplicate-free completion is itself free of
/// duplicates.
pub proof fn lemma_extends_consistent(full: Seq<Option<u8>>, partial: Seq<Option<u8>>)
    requires
        board_consistent(full),
        board_extends(full, partial),
    ensures
        board_consistent(partial),
{
    assert forall|x1: int, y1: int, x2: int, y2: int|
        sees(x1, y1, x2, y2) && #[trigger] digit_at(partial, x1, y1) is Some && #[trigger] digit_at(
            partial,
            x2,
            y2,
        ) is Some implies digit_at(partial, x1, y1) != digit_at(partial, x2, y2) by {
        assert(full[grid_index(x1, y1)] == partial[grid_index(x1, y1)]);
        assert(full[grid_index(x2, y2)] == partial[grid_index(x2, y2)]);
        assert(digit_at(full, x1, y1) != digit_at(full, x2, y2));
    }
}

/// A board with a dead square -- an empty square whose relatives already
/// hold all nine digits -- has no rule-abiding completion.
pub proof fn lemma_dead_square_unsolvable(
    partial: Seq<Option<u8>>,
    x: int,
    y: int,
    full: Seq<Option<u8>>,
)
    requires
        dead_square(partial, x, y),
        board_solved(full),
    ensures
        !board_extends(full, partial),
{
    if !board_extends(full, partial) {
        return ;
    }
    assert(digit_at(full, x, y) is Some);
    let d = digit_at(full, x, y)->0;
    assert(full[grid_index(x, y)] matches Some(dd) ==> 1 <= dd <= 9);
    assert(relative_digit(partial, x, y, d));
    let (rx, ry) = choose|rx: int, ry: int|
        #[trigger] sees(x, y, rx, ry) && digit_at(partial, rx, ry) == Some(d);
    assert(full[grid_index(rx, ry)] == partial[grid_index(rx, ry)]);
    assert(digit_at(full, rx, ry) == Some(d));
    assert(digit_at(full, x, y) != digit_at(full, rx, ry));
    assert(false);
}

/// Row `y` holds digit `d` somewhere.
pub open spec fn row_has_digit(b: Seq<Option<u8>>, y: int, d: u8) -> bool {
    exists|x: int| 0 <= x < 9 && #[trigger] digit_at(b, x, y) == Some(d)
}

/// Column `x` holds digit `d` somewhere.
pub open spec fn column_has_digit(b: Seq<Option<u8>>, x: int, d: u8) -> bool {
    exists|y: int| 0 <= y < 9 && #[trigger] digit_at(b, x, y) == Some(d)
}

/// The region with index (`rx`, `ry`) holds digit `d` somewhere.
pub open spec fn region_has_digit(b: Seq<Option<u8>>, rx: int, ry: int, d: u8) -> bool {
    exists|x: int, y: int|
        3 * rx <= x < 3 * rx + 3 && 3 * ry <= y < 3 * ry + 3 && #[trigger] digit_at(b, x, y)
            == Some(d)
}

/// On a correctly completed board every row, every column, and every
/// region contains every digit 1 through 9 -- with nine squares per
/// group, each group is a permutation of the nine digits.
pub proof fn lemma_solved_groups_have_all_digits(b: Seq<Option<u8>>)
    requires
        board_solved(b),
    ensures
        forall|y: int, d: u8| 0 <= y < 9 && 1 <= d <= 9 ==> #[trigger] row_has_digit(b, y, d),
        forall|x: int, d: u8| 0 <= x < 9 && 1 <= d <= 9 ==> #[trigger] column_has_digit(b, x, d),
        forall|rx: int, ry: int, d: u8|
            0 <= rx < 3 && 0 <= ry < 3 && 1 <= d <= 9 ==> #[trigger] region_has_digit(
                b,
                rx,
                ry,
                d,
            ),
{
    lemma_solved_by_groups(b);
    assert forall|y: int, d: u8| 0 <= y < 9 && 1 <= d <= 9 implies #[trigger] row_has_digit(
        b,
        y,
        d,
    ) by {
        let digits = Seq::new(9, |x: int| digit_at(b, x, y)->0 as int);
        assert(row_solved(b, y));
        assert forall|x: int| 0 <= x < 9 implies 1 <= #[trigger] digits[x] <= 9 by {
            assert(digit_at(b, x, y) is Some);
            assert(b[grid_index(x, y)] matches Some(dd) ==> 1 <= dd <= 9);
        }
        assert forall|x1: int, x2: int|
            0 <= x1 < 9 && 0 <= x2 < 9 && x1 != x2 implies #[trigger] digits[x1]
            != #[trigger] digits[x2] by {
            assert(digit_at(b, x1, y) != digit_at(b, x2, y));
            assert(digit_at(b, x1, y) is Some && digit_at(b, x2, y) is Some);
        }
        lemma_nine_digits_cover(digits);
        assert(digit_present(digits, d as int));
        let x = choose|x: int| 0 <= x < digits.len() && #[trigger] digits[x] == d as int;
        assert(digit_at(b, x, y) == Some(d));
    }
    assert forall|x: int, d: u8| 0 <= x < 9 && 1 <= d <= 9 implies #[trigger] column_has_digit(
        b,
        x,
        d,
    ) by {
        let digits = Seq::new(9, |y: int| digit_at(b, x, y)->0 as int);
        assert(column_solved(b, x));
        assert forall|y: int| 0 <= y < 9 implies 1 <= #[trigger] digits[y] <= 9 by {
            assert(digit_at(b, x, y) is Some);
            assert(b[grid_index(x, y)] matches Some(dd) ==> 1 <= dd <= 9);
        }
        assert forall|y1: int, y2: int|
            0 <= y1 < 9 && 0 <= y2 < 9 && y1 != y2 implies #[trigger] digits[y1]
            != #[trigger] digits[y2] by {
            assert(digit_at(b, x, y1) != digit_at(b, x, y2));
            assert(digit_at(b, x, y1) is Some && digit_at(b, x, y2) is Some);
        }
        lemma_nine_digits_cover(digits);
        assert(digit_present(digits, d as int));
        let y = choose|y: int| 0 <= y < digits.len() && #[trigger] digits[y] == d as int;
        assert(digit_at(b, x, y) == Some(d));
    }
    assert forall|rx: int, ry: int, d: u8|
        0 <= rx < 3 && 0 <= ry < 3 && 1 <= d <= 9 implies #[trigger] region_has_digit(
        b,
        rx,
        ry,
        d,
    ) by {
        let digits = Seq::new(9, |i: int| digit_at(b, 3 * rx + i % 3, 3 * ry + i / 3)->0 as int);
        assert(region_solved(b, rx, ry));
        assert forall|i: int| 0 <= i < 9 implies 1 <= #[trigger] digits[i] <= 9 by {
            assert(0 <= i % 3 < 3 && 0 <= i / 3 < 3);
            assert(digit_at(b, 3 * rx + i % 3, 3 * ry + i / 3) is Some);
            assert(b[grid_index(3 * rx + i % 3, 3 * ry + i / 3)] matches Some(dd) ==> 1 <= dd
                <= 9);
        }
        assert forall|i: int, j: int|
            0 <= i < 9 && 0 <= j < 9 && i != j implies #[trigger] digits[i]
            != #[trigger] digits[j] by {
            assert(0 <= i % 3 < 3 && 0 <= i / 3 < 3);
            assert(0 <= j % 3 < 3 && 0 <= j / 3 < 3);
            assert(!(3 * rx + i % 3 == 3 * rx + j % 3 && 3 * ry + i / 3 == 3 * ry + j / 3));
            assert(digit_at(b, 3 * rx + i % 3, 3 * ry + i / 3) != digit_at(
                b,
                3 * rx + j % 3,
                3 * ry + j / 3,
            ));
            assert(digit_at(b, 3 * rx + i % 3, 3 * ry + i / 3) is Some && digit_at(
                b,
                3 * rx + j % 3,
                3 * ry + j / 3,
            ) is Some);
        }
        lemma_nine_digits_cover(digits);
        assert(digit_present(digits, d as int));
        let i = choose|i: int| 0 <= i < digits.len() && #[trigger] digits[i] == d as int;
        assert(0 <= i % 3 < 3 && 0 <= i / 3 < 3);
        assert(digit_at(b, 3 * rx + i % 3, 3 * ry + i / 3) == Some(d));
    }
}

/// Emptying or filling one square shifts the empty-square count by the
/// difference at that square.
pub proof fn lemma_empty_count_from_update(b: Seq<Option<u8>>, i: int, k: int, v: Option<u8>)
    requires
        b.len() == 81,
        0 <= i,
        0 <= k < 81,
    ensures
        empty_count_from(b.update(k, v), i) + (if i <= k && b[k] is None {
            1int
        } else {
            0int
        }) == empty_count_from(b, i) + (if i <= k && v is None {
            1int
        } else {
            0int
        }),
    decreases 81 - i,
{
    if 0 <= i < 81 {
        lemma_empty_count_from_update(b, i + 1, k, v);
    }
}

/// A board whose squares from `i` on are all filled has no empty squares
/// there.
pub proof fn lemma_empty_count_from_full(b: Seq<Option<u8>>, i: int)
    requires
        b.len() == 81,
        forall|j: int| i <= j < 81 ==> (#[trigger] b[j]) is Some,
    ensures
        empty_count_from(b, i) == 0,
    decreases 81 - i,
{
    if 0 <= i < 81 {
        lemma_empty_count_from_full(b, i + 1);
    }
}

/// A full board that another full board agrees with on every square it
/// fills is that same board.  This is why solving is idempotent: a second
/// run must keep every digit of the first run's grid, and hence returns
/// the very same grid.
pub proof fn lemma_full_extension_is_identity(b1: Seq<Option<u8>>, b2: Seq<Option<u8>>)
    requires
        b1.len() == 81,
        b2.len() == 81,
        board_full(b1),
        forall|i: int| 0 <= i < 81 && (#[trigger] b1[i]) is Some ==> b2[i] == b1[i],
    ensures
        b1 == b2,
{
    assert(b1 =~= b2);
}

/// A duplicate digit among relatives falsifies the completed-puzzle rule,
/// no matter how the rest of the board is filled.
pub proof fn lemma_duplicate_breaks_check(b: Seq<Option<u8>>, x1: int, y1: int, x2: int, y2: int)
    requires
        sees(x1, y1, x2, y2),
        digit_at(b, x1, y1) is Some,
        digit_at(b, x1, y1) == digit_at(b, x2, y2),
    ensures
        !board_consistent(b),
        !board_solved(b),
{
}

} // verus!
