//! Per-square state: a committed digit, or a set of candidate digits that
//! is still awaiting resolution.  Candidate sets are kept as bitmasks over
//! the digits 1 through 9.

use vstd::prelude::*;

verus! {

/// Digit `d` is a member of candidate mask `m` (bit `d` of `m` is set).
pub open spec fn mask_has(m: u16, d: u8) -> bool {
    1 <= d <= 9 && m & (1u16 << (d as u16)) != 0
}

/// Only bits 1 through 9 may be set in a candidate mask.
pub open spec fn mask_wf(m: u16) -> bool {
    m & 0xfc01 == 0
}

/// Number of candidate digits in `lo..=9` that mask `m` holds.
pub open spec fn mask_count_from(m: u16, lo: int) -> nat
    decreases 10 - lo,
{
    if 1 <= lo <= 9 {
        (if mask_has(m, lo as u8) {
            1nat
        } else {
            0nat
        }) + mask_count_from(m, lo + 1)
    } else {
        0
    }
}

/// Number of candidate digits mask `m` holds.
pub open spec fn mask_count(m: u16) -> nat {
    mask_count_from(m, 1)
}

/// Clearing bit `v` keeps exactly the other digits.
proof fn lemma_mask_remove_has(m: u16, v: u16, d: u16)
    requires
        1 <= v <= 9,
        1 <= d <= 9,
    ensures
        ((m & !(1u16 << v)) & (1u16 << d) != 0) <==> (m & (1u16 << d) != 0 && d != v),
{
    assert(((m & !(1u16 << v)) & (1u16 << d) != 0) <==> (m & (1u16 << d) != 0 && d != v))
        by (bit_vector)
        requires
            1 <= v <= 9,
            1 <= d <= 9,
    ;
}

/// Clearing a bit preserves well-formedness of a mask.
proof fn lemma_mask_remove_wf(m: u16, v: u16)
    requires
        mask_wf(m),
    ensures
        mask_wf(m & !(1u16 << v)),
{
    assert((m & !(1u16 << v)) & 0xfc01 == 0) by (bit_vector)
        requires
            m & 0xfc01 == 0,
    ;
}

/// Masks with the same members in `lo..=9` count the same there.
proof fn lemma_count_from_congruent(m1: u16, m2: u16, lo: int)
    requires
        forall|d: u8| lo <= d <= 9 ==> (#[trigger] mask_has(m1, d) <==> mask_has(m2, d)),
    ensures
        mask_count_from(m1, lo) == mask_count_from(m2, lo),
    decreases 10 - lo,
{
    if 1 <= lo <= 9 {
        lemma_count_from_congruent(m1, m2, lo + 1);
    }
}

/// Clearing bit `v` lowers the count by one exactly when `v` was a member.
proof fn lemma_count_remove(m: u16, v: u8, lo: int)
    requires
        1 <= v <= 9,
        1 <= lo,
    ensures
        mask_count_from(m & !(1u16 << (v as u16)), lo) == mask_count_from(m, lo) - (if lo <= v
            && mask_has(m, v) {
            1int
        } else {
            0int
        }),
    decreases 10 - lo,
{
    if 1 <= lo <= 9 {
        lemma_mask_remove_has(m, v as u16, lo as u16);
        lemma_count_remove(m, v, lo + 1);
    }
}

/// Counting from `lo` sees at most the `10 - lo` digits that remain.
proof fn lemma_count_bound(m: u16, lo: int)
    requires
        1 <= lo <= 10,
    ensures
        mask_count_from(m, lo) <= 10 - lo,
    decreases 10 - lo,
{
    if 1 <= lo <= 9 {
        lemma_count_bound(m, lo + 1);
    }
}

/// A count of zero means no digit in `lo..=9` is a member.
proof fn lemma_count_zero(m: u16, lo: int)
    requires
        1 <= lo,
    ensures
        (mask_count_from(m, lo) == 0) <==> (forall|d: u8| lo <= d <= 9 ==> !(#[trigger] mask_has(
            m,
            d,
        ))),
    decreases 10 - lo,
{
    if 1 <= lo <= 9 {
        lemma_count_zero(m, lo + 1);
    }
}

/// A well-formed mask with no members is the zero mask.
proof fn lemma_mask_empty(m: u16)
    requires
        mask_wf(m),
        forall|d: u8| !(#[trigger] mask_has(m, d)),
    ensures
        m == 0,
{
    assert(!mask_has(m, 1) && !mask_has(m, 2) && !mask_has(m, 3) && !mask_has(m, 4) && !mask_has(
        m,
        5,
    ) && !mask_has(m, 6) && !mask_has(m, 7) && !mask_has(m, 8) && !mask_has(m, 9));
    assert(m == 0) by (bit_vector)
        requires
            m & 0xfc01 == 0,
            m & (1u16 << 1u16) == 0,
            m & (1u16 << 2u16) == 0,
            m & (1u16 << 3u16) == 0,
            m & (1u16 << 4u16) == 0,
            m & (1u16 << 5u16) == 0,
            m & (1u16 << 6u16) == 0,
            m & (1u16 << 7u16) == 0,
            m & (1u16 << 8u16) == 0,
            m & (1u16 << 9u16) == 0,
    ;
}

/// The zero mask has no members.
proof fn lemma_mask_zero_has_none()
    ensures
        forall|d: u8| !(#[trigger] mask_has(0u16, d)),
{
    assert(forall|d: u16| 1 <= d <= 9 ==> 0u16 & (1u16 << d) == 0) by (bit_vector);
    assert forall|d: u8| !(#[trigger] mask_has(0u16, d)) by {
        if 1 <= d <= 9 {
            assert(0u16 & (1u16 << (d as u16)) == 0);
        }
    }
}

/// A mask holding two distinct digits counts at least two.
proof fn lemma_count_two(m: u16, d1: u8, d2: u8)
    requires
        mask_has(m, d1),
        mask_has(m, d2),
        d1 != d2,
    ensures
        mask_count(m) >= 2,
{
    let m2 = m & !(1u16 << (d1 as u16));
    lemma_count_remove(m, d1, 1);
    lemma_mask_remove_has(m, d1 as u16, d2 as u16);
    lemma_count_zero(m2, 1);
    assert(mask_has(m2, d2));
    assert(mask_count(m2) >= 1);
}

/// A square that has not yet been committed to a digit: it carries the set
/// of digits it could still take.
#[derive(Debug, Clone, Copy, PartialEq, Eq, Structural)]
pub struct UncollapsedCell {
    possible_values: u16,
}

impl UncollapsedCell {
    /// Digit `d` is still a candidate for this square.
    pub closed spec fn spec_has(self, d: u8) -> bool {
        mask_has(self.possible_values, d)
    }

    /// Number of candidates left (the square's entropy).
    pub closed spec fn spec_entropy(self) -> nat {
        mask_count(self.possible_values)
    }

    /// The candidate mask only uses the digit bits 1 through 9.
    pub closed spec fn wf(self) -> bool {
        mask_wf(self.possible_values)
    }

    /// There are only nine digits, so the entropy never exceeds nine.
    pub proof fn lemma_entropy_bound(self)
        ensures
            self.spec_entropy() <= 9,
    {
        lemma_count_bound(self.possible_values, 1);
    }

    /// An entropy of zero means no candidate is left, and conversely.
    pub proof fn lemma_entropy_zero(self)
        ensures
            (self.spec_entropy() == 0) <==> (forall|d: u8| !self.spec_has(d)),
    {
        lemma_count_zero(self.possible_values, 1);
        assert forall|d: u8| mask_count(self.possible_values) == 0 implies !self.spec_has(d) by {
            if 1 <= d <= 9 {
                assert(!mask_has(self.possible_values, d));
            }
        }
        if forall|d: u8| !self.spec_has(d) {
            assert forall|d: u8| 1 <= d <= 9 implies !(#[trigger] mask_has(
                self.possible_values,
                d,
            )) by {
                assert(!self.spec_has(d));
            }
        }
    }

    fn new() -> (c: Self)
        ensures
            c.wf(),
            forall|d: u8| c.spec_has(d) <==> 1 <= d <= 9,
            c.spec_entropy() == 9,
    {
        let c = UncollapsedCell { possible_values: 0x3fe };
        proof {
            assert(0x3feu16 & 0xfc01 == 0) by (bit_vector);
            assert(forall|d: u16| 1 <= d <= 9 ==> 0x3feu16 & (1u16 << d) != 0) by (bit_vector);
            assert forall|d: u8| c.spec_has(d) <==> 1 <= d <= 9 by {
                if 1 <= d <= 9 {
                    assert(0x3feu16 & (1u16 << (d as u16)) != 0);
                }
            }
            reveal_with_fuel(mask_count_from, 11);
            assert(mask_count_from(0x3fe, 1) == 9);
        }
        c
    }

    fn get_entropy(&self) -> (n: u8)
        ensures
            n == self.spec_entropy(),
    {
        let m = self.possible_values;
        proof {
            lemma_count_bound(m, 1);
        }
        let mut n: u8 = 0;
        let mut d: u8 = 1;
        while d <= 9
            invariant
                1 <= d <= 10,
                n + mask_count_from(m, d as int) == mask_count(m),
                mask_count(m) <= 9,
            decreases 10 - d,
        {
            if m & (1u16 << (d as u16)) != 0 {
                n = n + 1;
            }
            d = d + 1;
        }
        n
    }

    fn remove(&mut self, value: u8) -> (r: Result<(), ()>)
        requires
            old(self).wf(),
            1 <= value <= 9,
        ensures
            final(self).wf(),
            forall|d: u8| final(self).spec_has(d) <==> (old(self).spec_has(d) && d != value),
            final(self).spec_entropy() == old(self).spec_entropy() - (if old(self).spec_has(value) {
                1int
            } else {
                0int
            }),
            r is Err <==> final(self).spec_entropy() == 0,
    {
        proof {
            lemma_mask_remove_wf(self.possible_values, value as u16);
            lemma_count_remove(self.possible_values, value, 1);
            assert forall|d: u8|
                mask_has(self.possible_values & !(1u16 << (value as u16)), d) <==> (mask_has(
                    self.possible_values,
                    d,
                ) && d != value) by {
                if 1 <= d <= 9 {
                    lemma_mask_remove_has(self.possible_values, value as u16, d as u16);
                }
            }
        }
        self.possible_values = self.possible_values & !(1u16 << (value as u16));
        if self.possible_values == 0 {
            proof {
                lemma_mask_zero_has_none();
                self.lemma_entropy_zero();
            }
            Err(())
        } else {
            proof {
                if self.spec_entropy() == 0 {
                    self.lemma_entropy_zero();
                    assert forall|d: u8| !(#[trigger] mask_has(self.possible_values, d)) by {
                        assert(!self.spec_has(d));
                    }
                    lemma_mask_empty(self.possible_values);
                }
            }
            Ok(())
        }
    }

    /// Commits the square to its smallest remaining candidate.
    fn collapse(self) -> (c: Cell)
        requires
            self.wf(),
            self.spec_entropy() >= 1,
        ensures
            c matches Cell::Collapsed(d) && self.spec_has(d),
    {
        let m = self.possible_values;
        let mut d: u8 = 1;
        while d <= 9
            invariant
                1 <= d <= 10,
                mask_count_from(m, d as int) == mask_count(m),
                mask_count(m) >= 1,
                m == self.possible_values,
            decreases 10 - d,
        {
            if m & (1u16 << (d as u16)) != 0 {
                return Cell::Collapsed(d);
            }
            d = d + 1;
        }
        proof {
            assert(false);
        }
        unreached()
    }
}

/// One sudoku square: either committed to a digit, or still a candidate set.
#[derive(Debug, Clone, Copy, PartialEq, Eq, Structural)]
pub enum Cell {
    Collapsed(u8),
    Uncollapsed(UncollapsedCell),
}

impl Cell {
    /// A committed digit lies in 1..=9 and a candidate set only uses the
    /// digit bits.
    pub open spec fn wf(self) -> bool {
        match self {
            Cell::Collapsed(d) => 1 <= d <= 9,
            Cell::Uncollapsed(u) => u.wf(),
        }
    }

    /// The committed digit (meaningful for collapsed squares only).
    pub open spec fn digit(self) -> u8
        recommends
            self is Collapsed,
    {
        self->Collapsed_0
    }

    /// Digit `d` is still a candidate (false for collapsed squares).
    pub open spec fn has_candidate(self, d: u8) -> bool {
        match self {
            Cell::Collapsed(_) => false,
            Cell::Uncollapsed(u) => u.spec_has(d),
        }
    }

    /// Number of candidates left: zero for a collapsed square.
    pub open spec fn weight(self) -> nat {
        match self {
            Cell::Collapsed(_) => 0,
            Cell::Uncollapsed(u) => u.spec_entropy(),
        }
    }

    /// There are only nine digits, so the weight never exceeds nine.
    pub proof fn lemma_weight_bound(self)
        ensures
            self.weight() <= 9,
    {
        match self {
            Cell::Collapsed(_) => {
            },
            Cell::Uncollapsed(u) => {
                u.lemma_entropy_bound();
            },
        }
    }

    /// A square still offering two distinct candidates has weight at
    /// least two.
    pub proof fn lemma_weight_two(self, d1: u8, d2: u8)
        requires
            self.has_candidate(d1),
            self.has_candidate(d2),
            d1 != d2,
        ensures
            self.weight() >= 2,
    {
        match self {
            Cell::Collapsed(_) => {
            },
            Cell::Uncollapsed(u) => {
                lemma_count_two(u.possible_values, d1, d2);
            },
        }
    }

    /// An unresolved square's weight is zero exactly when no candidate is
    /// left; in particular any candidate at all forces a positive weight.
    pub proof fn lemma_weight_zero(self)
        ensures
            self is Uncollapsed ==> ((self.weight() == 0) <==> (forall|d: u8|
                !self.has_candidate(d))),
            (exists|d: u8| self.has_candidate(d)) ==> self.weight() >= 1,
    {
        match self {
            Cell::Collapsed(_) => {
            },
            Cell::Uncollapsed(u) => {
                u.lemma_entropy_zero();
                if forall|d: u8| !self.has_candidate(d) {
                    assert forall|d: u8| !u.spec_has(d) by {
                        assert(!self.has_candidate(d));
                    }
                }
                if self.weight() == 0 {
                    assert forall|d: u8| !self.has_candidate(d) by {
                        assert(!u.spec_has(d));
                    }
                }
            },
        }
    }

    /// Candidates are always digits: nothing outside 1..=9 is ever a
    /// member of a candidate set.
    pub proof fn lemma_candidate_in_range(self)
        ensures
            forall|d: u8| #[trigger] self.has_candidate(d) ==> 1 <= d <= 9,
    {
    }

    /// A fresh square: uncollapsed, with all nine digits as candidates.
    pub fn new_empty() -> (c: Self)
        ensures
            c is Uncollapsed,
            c.wf(),
            forall|d: u8| c.has_candidate(d) <==> 1 <= d <= 9,
            c.weight() == 9,
    {
        Cell::Uncollapsed(UncollapsedCell::new())
    }

    /// A square committed to `value` from the start (a given).
    pub fn new_filled(value: u8) -> (c: Self)
        requires
            1 <= value <= 9,
        ensures
            c == Cell::Collapsed(value),
    {
        Cell::Collapsed(value)
    }

    /// Entropy of an uncollapsed square.  Calling this on a collapsed
    /// square is a contract violation, so the precondition forbids it.
    pub fn get_entropy(&self) -> (n: u8)
        requires
            self is Uncollapsed,
            self.wf(),
        ensures
            n == self.weight(),
    {
        match self {
            Cell::Uncollapsed(u) => u.get_entropy(),
            Cell::Collapsed(_) => {
                proof {
                    assert(false);
                }
                unreached()
            },
        }
    }

    /// Commits an uncollapsed square to one of its candidates and returns
    /// the rollback square: with more than one candidate, the original set
    /// with the chosen digit removed (what remains to try); with exactly
    /// one, the now-collapsed square itself (no alternative branch).
    pub fn collapse(&mut self) -> (rollback: Cell)
        requires
            (*old(self)) is Uncollapsed,
            old(self).wf(),
            old(self).weight() >= 1,
        ensures
            (*final(self)) is Collapsed,
            final(self).wf(),
            old(self).has_candidate(final(self).digit()),
            old(self).weight() > 1 ==> {
                &&& rollback is Uncollapsed
                &&& rollback.wf()
                &&& forall|d: u8|
                    rollback.has_candidate(d) <==> (old(self).has_candidate(d) && d != final(self).digit())
                &&& rollback.weight() == old(self).weight() - 1
            },
            old(self).weight() == 1 ==> rollback == *final(self),
    {
        let cur = *self;
        match cur {
            Cell::Uncollapsed(u) => {
                let n = u.get_entropy();
                let collapsed = u.collapse();
                let d = match collapsed {
                    Cell::Collapsed(d) => d,
                    Cell::Uncollapsed(_) => {
                        proof {
                            assert(false);
                        }
                        unreached()
                    },
                };
                *self = Cell::Collapsed(d);
                if n > 1 {
                    let mut rb = u;
                    let res = rb.remove(d);
                    proof {
                        assert(res is Ok);
                    }
                    Cell::Uncollapsed(rb)
                } else {
                    Cell::Collapsed(d)
                }
            },
            Cell::Collapsed(_) => {
                proof {
                    assert(false);
                }
                unreached()
            },
        }
    }

    /// Drops `value` from an uncollapsed square's candidates, reporting a
    /// contradiction when the set empties.  On a collapsed square it is a
    /// no-op, a contradiction exactly when `value` is the committed digit.
    pub fn remove(&mut self, value: u8) -> (r: Result<(), ()>)
        requires
            old(self).wf(),
            1 <= value <= 9,
        ensures
            final(self).wf(),
            (*old(self)) is Collapsed ==> {
                &&& *final(self) == *old(self)
                &&& (r is Ok <==> old(self).digit() != value)
            },
            (*old(self)) is Uncollapsed ==> {
                &&& (*final(self)) is Uncollapsed
                &&& forall|d: u8|
                    final(self).has_candidate(d) <==> (old(self).has_candidate(d) && d != value)
                &&& final(self).weight() == old(self).weight() - (if old(self).has_candidate(
                    value,
                ) {
                    1int
                } else {
                    0int
                })
                &&& (r is Err <==> final(self).weight() == 0)
            },
    {
        let cur = *self;
        match cur {
            Cell::Uncollapsed(mut u) => {
                let r = u.remove(value);
                *self = Cell::Uncollapsed(u);
                r
            },
            Cell::Collapsed(v) => {
                if v != value {
                    Ok(())
                } else {
                    Err(())
                }
            },
        }
    }
}

} // verus!
