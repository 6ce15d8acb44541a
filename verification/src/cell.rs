//! One cell of the board: the set of digits it may still hold.

use crate::combinations::{digit_sum, weight_bits, PossibleValues};
use crate::error::SolveError;
use crate::util::{
    count_bits, has_bit, lemma_bit_algebra, lemma_bit_shift, lemma_has_bit_nonzero,
    lemma_nonzero_has_bit, onehot, popcnt64, popcount, reverse_bits,
};
use vstd::prelude::*;

verus! {

/// The mask of the digits 1 to 9.
pub const ALL_DIGITS: u64 = 0x3fe;

/// `m` holds at least one digit, and only digits of 1 to 9.
pub open spec fn is_domain(m: u64) -> bool {
    m != 0 && m & !ALL_DIGITS == 0
}

/// A mask that is a domain has a digit, and each of its bits is a digit of 1 to 9.
pub proof fn lemma_domain_digits(m: u64)
    ensures
        is_domain(m) <==> (exists|d: int| has_bit(m, d)) && (forall|d: int|
            has_bit(m, d) ==> 1 <= d <= 9),
{
    lemma_bit_algebra(m, !ALL_DIGITS);
    lemma_bit_algebra(ALL_DIGITS, 0);
    lemma_digit_mask();
    if is_domain(m) {
        let w = lemma_nonzero_has_bit(m);
        assert forall|d: int| has_bit(m, d) implies 1 <= d <= 9 by {
            if !(1 <= d <= 9) {
                assert(has_bit(!ALL_DIGITS, d));
                assert(has_bit(m & !ALL_DIGITS, d));
            }
        }
    }
    if (exists|d: int| has_bit(m, d)) && (forall|d: int| has_bit(m, d) ==> 1 <= d <= 9) {
        let w = choose|d: int| has_bit(m, d);
        lemma_has_bit_nonzero(m, w);
        assert forall|d: int| 0 <= d < 64 implies has_bit(m & !ALL_DIGITS, d) == has_bit(
            0,
            d,
        ) by {}
        crate::util::lemma_bits_equal(m & !ALL_DIGITS, 0);
    }
}

/// The bits of the mask of all digits are 1 to 9.
pub proof fn lemma_digit_mask()
    ensures
        forall|d: int| has_bit(ALL_DIGITS, d) <==> 1 <= d <= 9,
{
    assert forall|d: int| has_bit(ALL_DIGITS, d) <==> 1 <= d <= 9 by {
        if 0 <= d < 64 {
            lemma_digit_mask_bv(d as u64);
        }
    }
}

/// The mask of all digits below the position `n`: how many digits it holds
/// there, and what they add up to.
proof fn lemma_all_digits_below(n: int)
    requires
        0 <= n <= 64,
    ensures
        count_bits(ALL_DIGITS, n) == if n <= 1 {
            0
        } else if n <= 10 {
            n - 1
        } else {
            9
        },
        weight_bits(ALL_DIGITS, n) == if n <= 1 {
            0
        } else if n <= 10 {
            (n - 1) * n / 2
        } else {
            45
        },
    decreases n,
{
    lemma_digit_mask();
    if n > 0 {
        lemma_all_digits_below(n - 1);
        assert((n - 1) * n == (n - 2) * (n - 1) + 2 * (n - 1)) by (nonlinear_arith);
        assert(9 * 10 == 90) by (nonlinear_arith);
        assert(0 * 1 == 0) by (nonlinear_arith);
    }
}

/// The mask of all digits holds nine digits, which add up to 45.
pub proof fn lemma_all_digits()
    ensures
        popcount(ALL_DIGITS) == 9,
        digit_sum(ALL_DIGITS) == 45,
{
    lemma_all_digits_below(64);
}

/// A mask of nine digits of 1 to 9 is the mask of all digits.
pub proof fn lemma_nine_digits(m: u64)
    requires
        forall|d: int| has_bit(m, d) ==> 1 <= d <= 9,
        popcount(m) == 9,
    ensures
        m == ALL_DIGITS,
{
    lemma_digit_mask();
    lemma_all_digits();
    crate::util::lemma_count_subset(m, ALL_DIGITS, 64);
    crate::util::lemma_bits_equal(m, ALL_DIGITS);
}

proof fn lemma_digit_mask_bv(d: u64)
    by (bit_vector)
    requires
        d < 64,
    ensures
        ((0x3feu64 >> d) & 1 == 1) == (1 <= d <= 9),
{
}

/// Some other digit of `peer` adds up with `d` to one of the sums of `sums`.
pub open spec fn has_partner(peer: Cell, sums: u64, d: int) -> bool {
    exists|e: int| 1 <= e <= 9 && #[trigger] peer.has(e) && e != d && has_bit(sums, d + e)
}

/// The digits that a cell may still hold, as a mask over the bits 1 to 9.
#[derive(Clone, Copy, Debug, PartialEq, Eq, Structural)]
pub struct Cell {
    possible_values: u64,
}

impl Cell {
    /// The mask of the digits that the cell may hold.
    pub closed spec fn bits(&self) -> u64 {
        self.possible_values
    }

    /// The cell that may hold just the digits of `bits`.
    pub closed spec fn of_bits(bits: u64) -> Cell {
        Cell { possible_values: bits }
    }

    /// The digits of 1 to 9, below `n`, that some digit of the cell
    /// completes to `sum`.
    pub open spec fn complement_below(&self, sum: int, n: int) -> u64
        decreases n,
    {
        if n <= 1 {
            0
        } else if n <= 10 && self.has(sum - (n - 1)) {
            self.complement_below(sum, n - 1) | (1u64 << ((n - 1) as u64))
        } else {
            self.complement_below(sum, n - 1)
        }
    }

    /// The digits of 1 to 9 that some digit of the cell completes to `sum`.
    pub open spec fn complement(&self, sum: int) -> u64 {
        self.complement_below(sum, 10)
    }

    /// The cell may hold at least one digit, and only digits of 1 to 9.
    pub open spec fn wf(&self) -> bool {
        is_domain(self.bits())
    }

    /// The cell may hold the digit `d`.
    pub open spec fn has(&self, d: int) -> bool {
        has_bit(self.bits(), d)
    }

    /// The digit of the cell, where only one is left.
    pub fn get_solution(&self) -> (r: Option<usize>)
        ensures
            r is Some <==> popcount(self.bits()) == 1,
            r matches Some(d) ==> d < 64 && self.bits() == 1u64 << d && self.has(d as int),
    {
        let r = onehot(self.possible_values);
        proof {
            if let Some(d) = r {
                lemma_bit_shift(0, d as int);
            }
        }
        r
    }

    /// The mask of the digits that the cell may hold.
    pub fn get_bits(&self) -> (r: u64)
        ensures
            r == self.bits(),
    {
        self.possible_values
    }

    /// Whether the cell may hold the digit `value`.
    pub fn allows(&self, value: usize) -> (r: bool)
        requires
            1 <= value <= 9,
        ensures
            r == self.has(value as int),
    {
        (self.possible_values >> value) & 1 == 1
    }

    /// The number of digits that the cell may hold.
    pub fn num_possible_solutions(&self) -> (r: usize)
        ensures
            r == popcount(self.bits()),
    {
        popcnt64(self.possible_values)
    }

    /// Keeps of the cell's digits those that `possible_values` holds too. Where
    /// none is left, the cell is empty and a contradiction is returned.
    pub fn restrict_to(&mut self, possible_values: u64) -> (r: Result<(), SolveError>)
        ensures
            final(self).bits() == old(self).bits() & possible_values,
            r is Err <==> old(self).bits() & possible_values == 0,
            r is Err ==> r == Err::<(), SolveError>(SolveError::Contradiction),
            r is Ok && old(self).wf() ==> final(self).wf(),
            forall|d: int| final(self).has(d) ==> old(self).has(d),
            forall|d: int| final(self).has(d) ==> has_bit(possible_values, d),
    {
        let restricted: u64 = self.possible_values & possible_values;
        proof {
            lemma_bit_algebra(self.possible_values, possible_values);
            lemma_domain_digits(self.possible_values);
            lemma_domain_digits(restricted);
            if restricted != 0 {
                let d = lemma_nonzero_has_bit(restricted);
            }
        }
        self.possible_values = restricted;
        if restricted == 0 {
            Err(SolveError::Contradiction)
        } else {
            Ok(())
        }
    }

    /// The sums that can be had by adding a digit of the cell to a sum of
    /// `accum`, as a mask; sums of 64 and more are left out.
    pub fn fold_possible_sums(&self, accum: u64) -> (r: u64)
        ensures
            forall|s: int|
                has_bit(r, s) <==> 0 <= s < 64 && exists|d: int|
                    1 <= d <= 9 && #[trigger] self.has(d) && has_bit(accum, s - d),
    {
        let mut out: u64 = 0;
        let mut d: usize = 1;
        proof {
            lemma_bit_algebra(0, 0);
        }
        while d <= 9
            invariant
                1 <= d <= 10,
                forall|s: int|
                    has_bit(out, s) <==> 0 <= s < 64 && exists|e: int|
                        1 <= e < d && #[trigger] self.has(e) && has_bit(accum, s - e),
            decreases 10 - d,
        {
            let ghost prev = out;
            if self.allows(d) {
                out = out | (accum << d);
                proof {
                    lemma_bit_algebra(prev, accum << d);
                    lemma_bit_shift(accum, d as int);
                }
            }
            proof {
                assert forall|s: int|
                    has_bit(out, s) <==> 0 <= s < 64 && exists|e: int|
                        1 <= e < d + 1 && #[trigger] self.has(e) && has_bit(accum, s - e) by {
                    if has_bit(out, s) {
                        if has_bit(prev, s) {
                            let e = choose|e: int|
                                1 <= e < d && #[trigger] self.has(e) && has_bit(accum, s - e);
                            assert(1 <= e < d + 1 && self.has(e) && has_bit(accum, s - e));
                        } else {
                            assert(1 <= d < d + 1 && self.has(d as int) && has_bit(
                                accum,
                                s - d,
                            ));
                        }
                    }
                    if 0 <= s < 64 && exists|e: int|
                        1 <= e < d + 1 && #[trigger] self.has(e) && has_bit(accum, s - e) {
                        let e = choose|e: int|
                            1 <= e < d + 1 && #[trigger] self.has(e) && has_bit(accum, s - e);
                        if e < d {
                            assert(has_bit(prev, s));
                        }
                    }
                }
            }
            d += 1;
        }
        out
    }

    /// The digits that, added to some digit of the cell, give `sum`.
    pub fn complement_to_sum(&self, sum: usize) -> (r: u64)
        ensures
            r == self.complement(sum as int),
            forall|d: int| has_bit(r, d) <==> 1 <= d <= 9 && self.has(sum - d),
    {
        let reversed = reverse_bits(self.possible_values);
        proof {
            lemma_bit_algebra(0, 0);
            lemma_digit_mask();
            lemma_complement(*self, sum as int, 10);
        }
        if sum <= 63 {
            let amount: u64 = (63 - sum) as u64;
            let shifted: u64 = reversed >> amount;
            proof {
                lemma_bit_algebra(shifted, ALL_DIGITS);
                lemma_bit_shift(reversed, amount as int);
                assert forall|d: int|
                    has_bit(shifted & ALL_DIGITS, d) <==> 1 <= d <= 9 && self.has(sum - d) by {
                    if 1 <= d <= 9 {
                        let i = d + amount;
                        assert(has_bit(shifted, d) == has_bit(reversed, i));
                        if 0 <= i < 64 {
                            assert(has_bit(reversed, i) == has_bit(self.possible_values, 63 - i));
                        }
                    }
                }
            }
            proof {
                crate::util::lemma_bits_equal(shifted & ALL_DIGITS, self.complement(sum as int));
            }
            shifted & ALL_DIGITS
        } else if sum <= 72 {
            let amount: u64 = (sum - 63) as u64;
            let shifted: u64 = reversed << amount;
            proof {
                lemma_bit_algebra(shifted, ALL_DIGITS);
                lemma_bit_shift(reversed, amount as int);
                assert forall|d: int|
                    has_bit(shifted & ALL_DIGITS, d) <==> 1 <= d <= 9 && self.has(sum - d) by {
                    if 1 <= d <= 9 {
                        let i = d - amount;
                        assert(has_bit(shifted, d) == (amount <= d && has_bit(reversed, i)));
                        if 0 <= i < 64 {
                            assert(has_bit(reversed, i) == has_bit(self.possible_values, 63 - i));
                        }
                    }
                }
            }
            proof {
                crate::util::lemma_bits_equal(shifted & ALL_DIGITS, self.complement(sum as int));
            }
            shifted & ALL_DIGITS
        } else {
            proof {
                crate::util::lemma_bits_equal(0, self.complement(sum as int));
            }
            0
        }
    }

    /// The cell with only those of its digits that have a partner in
    /// `peer`: another digit with which they add up to one of the sums of
    /// `sums`. A contradiction where no digit has one.
    pub fn pairwise_restriction(&self, peer: Cell, sums: u64) -> (r: Result<Cell, SolveError>)
        requires
            self.wf(),
        ensures
            r matches Ok(cell) ==> cell.wf() && forall|d: int|
                cell.has(d) <==> self.has(d) && has_partner(peer, sums, d),
            r is Err ==> r == Err::<Cell, SolveError>(SolveError::Contradiction) && forall|d: int|
                self.has(d) ==> !has_partner(peer, sums, d),
    {
        let mut mask: u64 = 0;
        let mut d: usize = 1;
        proof {
            lemma_bit_algebra(0, 0);
            lemma_domain_digits(self.bits());
        }
        while d <= 9
            invariant
                1 <= d <= 10,
                forall|x: int|
                    has_bit(mask, x) <==> 1 <= x < d && self.has(x) && has_partner(peer, sums, x),
            decreases 10 - d,
        {
            let mut found = false;
            if self.allows(d) {
                let mut e: usize = 1;
                while e <= 9
                    invariant
                        1 <= e <= 10,
                        1 <= d <= 9,
                        found <==> exists|y: int|
                            1 <= y < e && #[trigger] peer.has(y) && y != d && has_bit(sums, d + y),
                    decreases 10 - e,
                {
                    if e != d && peer.allows(e) && (sums >> (d + e)) & 1 == 1 {
                        found = true;
                    }
                    proof {
                        if exists|y: int|
                            1 <= y < e && #[trigger] peer.has(y) && y != d && has_bit(sums, d + y) {
                            let y = choose|y: int|
                                1 <= y < e && #[trigger] peer.has(y) && y != d && has_bit(
                                    sums,
                                    d + y,
                                );
                            assert(1 <= y < e + 1 && peer.has(y));
                        }
                        if exists|y: int|
                            1 <= y < e + 1 && #[trigger] peer.has(y) && y != d && has_bit(
                                sums,
                                d + y,
                            ) {
                            let y = choose|y: int|
                                1 <= y < e + 1 && #[trigger] peer.has(y) && y != d && has_bit(
                                    sums,
                                    d + y,
                                );
                            if y < e {
                                assert(found);
                            }
                        }
                    }
                    e += 1;
                }
            }
            let ghost prev = mask;
            if found {
                mask = mask | (1u64 << d);
            }
            proof {
                lemma_bit_algebra(prev, 1u64 << d);
                lemma_bit_shift(0, d as int);
                assert forall|x: int|
                    has_bit(mask, x) <==> 1 <= x < d + 1 && self.has(x) && has_partner(
                        peer,
                        sums,
                        x,
                    ) by {
                    if x == d {
                        if has_partner(peer, sums, x) {
                            let y = choose|y: int|
                                1 <= y <= 9 && #[trigger] peer.has(y) && y != x && has_bit(
                                    sums,
                                    x + y,
                                );
                            assert(1 <= y < 10 && peer.has(y));
                        }
                        if found {
                            let y = choose|y: int|
                                1 <= y < 10 && #[trigger] peer.has(y) && y != d && has_bit(
                                    sums,
                                    d + y,
                                );
                            assert(1 <= y <= 9 && peer.has(y));
                        }
                    }
                }
            }
            d += 1;
        }
        let mut cell = *self;
        proof {
            lemma_bit_algebra(self.bits(), mask);
        }
        match cell.restrict_to(mask) {
            Ok(()) => Ok(cell),
            Err(e) => {
                proof {
                    assert forall|x: int| self.has(x) implies !has_partner(peer, sums, x) by {
                        if has_partner(peer, sums, x) {
                            assert(has_bit(self.bits() & mask, x));
                            lemma_has_bit_nonzero(self.bits() & mask, x);
                        }
                    }
                }
                Err(e)
            },
        }
    }

    /// The digits that the cell may hold, to be walked from the least up.
    pub fn possible_values(&self) -> (r: PossibleValues)
        ensures
            r.wf(),
            forall|p: int| r.pending(p) == self.has(p),
    {
        PossibleValues::new(self.possible_values)
    }
}

/// What `complement_below` holds: the digits of 1 to 9 below `n` that some
/// digit of the cell completes to `sum`.
pub proof fn lemma_complement(cell: Cell, sum: int, n: int)
    requires
        n <= 64,
    ensures
        forall|d: int|
            has_bit(cell.complement_below(sum, n), d) <==> 1 <= d <= 9 && d < n && cell.has(
                sum - d,
            ),
    decreases n,
{
    lemma_bit_algebra(0, 0);
    if n > 1 {
        lemma_complement(cell, sum, n - 1);
        let before = cell.complement_below(sum, n - 1);
        let now = cell.complement_below(sum, n);
        lemma_bit_algebra(before, 1u64 << ((n - 1) as u64));
        lemma_bit_shift(0, n - 1);
        assert forall|d: int| has_bit(now, d) <==> 1 <= d <= 9 && d < n && cell.has(sum - d) by {
            if n <= 10 && cell.has(sum - (n - 1)) {
                assert(now == before | (1u64 << ((n - 1) as u64)));
                assert(has_bit(now, d) == (has_bit(before, d) || d == n - 1));
            } else {
                assert(now == before);
            }
        }
    }
}

/// The cell of given digits holds just those digits.
pub proof fn lemma_of_bits(bits: u64)
    ensures
        Cell::of_bits(bits).bits() == bits,
{
}

/// Cells that may hold the same digits are the same cell.
pub proof fn lemma_cell_by_bits(a: Cell, b: Cell)
    requires
        a.bits() == b.bits(),
    ensures
        a == b,
{
}

impl Default for Cell {
    /// A cell that may hold any digit of 1 to 9.
    fn default() -> (r: Self)
        ensures
            r.bits() == ALL_DIGITS,
            r.wf(),
    {
        proof {
            lemma_default_mask();
        }
        Cell { possible_values: (1 << 10) - 2 }
    }
}

proof fn lemma_default_mask()
    by (bit_vector)
    ensures
        ((1u64 << 10) - 2) as u64 == 0x3feu64,
        0x3feu64 & !0x3feu64 == 0,
        (1u64 << 10) >= 2,
{
}

} // verus!
