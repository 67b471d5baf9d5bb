//! Constant-product automated market maker.
//!
//! The pool holds two reserve balances and the invariant constant
//! `k`, fixed at construction as the product of the initial reserves.
//! Every successful swap recomputes the outgoing reserve as `k`
//! divided by the incoming reserve, so the product of the reserves
//! never exceeds `k` and stays within the rounding tolerance
//! `reserve_a + reserve_b` below it. Reserves are integer token
//! amounts; rejected swaps leave the pool untouched.

use vstd::prelude::*;

verus! {

use vstd::arithmetic::div_mod::{
    lemma_div_pos_is_pos,
    lemma_multiply_divide_lt,
    lemma_remainder_lower,
    lemma_remainder_upper,
};

#[derive(Clone, Copy, PartialEq, Eq, Structural, Debug)]
pub struct LiquidityPool {
    pub reserve_a: u128,
    pub reserve_b: u128,
    /// The constant-product invariant `k = reserve_a * reserve_b`,
    /// taken at construction and never reassigned.
    pub k: u128,
}

impl LiquidityPool {
    /// Well-formedness: both reserves are strictly positive and their
    /// product is at most `k`, short of it by less than the rounding
    /// tolerance `reserve_a + reserve_b`.
    pub open spec fn wf(self) -> bool {
        &&& 1 <= self.reserve_a
        &&& 1 <= self.reserve_b
        &&& self.reserve_a * self.reserve_b <= self.k
        &&& self.k - self.reserve_a * self.reserve_b < self.reserve_a + self.reserve_b
    }

    /// A swap of `amount_in` of token A is rejected exactly when the
    /// input is non-positive, the grown reserve would not be
    /// representable, or the constant-product formula would drive the
    /// outgoing reserve or the output amount to zero.
    pub open spec fn rejects_a_for_b(self, amount_in: int) -> bool {
        ||| amount_in <= 0
        ||| self.reserve_a + amount_in > u128::MAX
        ||| self.k as int / (self.reserve_a as int + amount_in) == 0
        ||| self.k as int / (self.reserve_a as int + amount_in) >= self.reserve_b
    }

    /// The pool state committed by a successful swap of `amount_in`
    /// of token A.
    pub open spec fn after_a_for_b(self, amount_in: int) -> LiquidityPool {
        LiquidityPool {
            reserve_a: (self.reserve_a + amount_in) as u128,
            reserve_b: (self.k as int / (self.reserve_a as int + amount_in)) as u128,
            k: self.k,
        }
    }

    /// The amount of token B paid out by a successful swap of
    /// `amount_in` of token A.
    pub open spec fn out_b(self, amount_in: int) -> int {
        self.reserve_b - self.k as int / (self.reserve_a as int + amount_in)
    }

    /// Mirror of `rejects_a_for_b` for swaps of token B.
    pub open spec fn rejects_b_for_a(self, amount_in: int) -> bool {
        ||| amount_in <= 0
        ||| self.reserve_b + amount_in > u128::MAX
        ||| self.k as int / (self.reserve_b as int + amount_in) == 0
        ||| self.k as int / (self.reserve_b as int + amount_in) >= self.reserve_a
    }

    /// Mirror of `after_a_for_b` for swaps of token B.
    pub open spec fn after_b_for_a(self, amount_in: int) -> LiquidityPool {
        LiquidityPool {
            reserve_a: (self.k as int / (self.reserve_b as int + amount_in)) as u128,
            reserve_b: (self.reserve_b + amount_in) as u128,
            k: self.k,
        }
    }

    /// Mirror of `out_b` for swaps of token B.
    pub open spec fn out_a(self, amount_in: int) -> int {
        self.reserve_a - self.k as int / (self.reserve_b as int + amount_in)
    }

    pub fn new(reserve_a: u128, reserve_b: u128) -> (pool: LiquidityPool)
        requires
            1 <= reserve_a,
            1 <= reserve_b,
            reserve_a * reserve_b <= u128::MAX,
        ensures
            pool.reserve_a == reserve_a,
            pool.reserve_b == reserve_b,
            pool.k == reserve_a * reserve_b,
            pool.wf(),
    {
        let k = reserve_a * reserve_b;
        LiquidityPool { reserve_a, reserve_b, k }
    }

    /// Swap `amount_in` of token A for token B. On success the
    /// reserves move along the constant-product curve and the caller
    /// receives the drop in `reserve_b`; on rejection the pool is
    /// left exactly as it was.
    pub fn swap_a_for_b(&mut self, amount_in: i128) -> (amount_out: Option<u128>)
        requires
            old(self).wf(),
        ensures
            final(self).wf(),
            final(self).k == old(self).k,
            amount_out is None <==> old(self).rejects_a_for_b(amount_in as int),
            amount_out is None ==> *final(self) == *old(self),
            amount_out is Some ==> {
                &&& *final(self) == old(self).after_a_for_b(amount_in as int)
                &&& amount_out == Some(old(self).out_b(amount_in as int) as u128)
                &&& 1 <= final(self).reserve_a
                &&& 1 <= final(self).reserve_b
                &&& final(self).reserve_a * final(self).reserve_b <= old(self).k
                &&& old(self).k - final(self).reserve_a * final(self).reserve_b
                    < final(self).reserve_a + final(self).reserve_b
            },
    {
        if amount_in <= 0 {
            return None;
        }
        let amount: u128 = amount_in as u128;
        if amount > u128::MAX - self.reserve_a {
            return None;
        }
        let new_reserve_a: u128 = self.reserve_a + amount;
        let new_reserve_b: u128 = self.k / new_reserve_a;
        if new_reserve_b == 0 {
            return None;
        }
        proof {
            lemma_new_outgoing_reserve_shrinks(
                self.reserve_a as int,
                self.reserve_b as int,
                self.k as int,
                new_reserve_a as int,
            );
        }
        let amount_out: u128 = self.reserve_b - new_reserve_b;
        if amount_out > 0 {
            proof {
                lemma_committed_reserves_wf(self.k as int, new_reserve_a as int);
            }
            self.reserve_a = new_reserve_a;
            self.reserve_b = new_reserve_b;
            Some(amount_out)
        } else {
            None
        }
    }

    /// Swap `amount_in` of token B for token A; the mirror image of
    /// `swap_a_for_b`.
    pub fn swap_b_for_a(&mut self, amount_in: i128) -> (amount_out: Option<u128>)
        requires
            old(self).wf(),
        ensures
            final(self).wf(),
            final(self).k == old(self).k,
            amount_out is None <==> old(self).rejects_b_for_a(amount_in as int),
            amount_out is None ==> *final(self) == *old(self),
            amount_out is Some ==> {
                &&& *final(self) == old(self).after_b_for_a(amount_in as int)
                &&& amount_out == Some(old(self).out_a(amount_in as int) as u128)
                &&& 1 <= final(self).reserve_a
                &&& 1 <= final(self).reserve_b
                &&& final(self).reserve_a * final(self).reserve_b <= old(self).k
                &&& old(self).k - final(self).reserve_a * final(self).reserve_b
                    < final(self).reserve_a + final(self).reserve_b
            },
    {
        if amount_in <= 0 {
            return None;
        }
        let amount: u128 = amount_in as u128;
        if amount > u128::MAX - self.reserve_b {
            return None;
        }
        let new_reserve_b: u128 = self.reserve_b + amount;
        let new_reserve_a: u128 = self.k / new_reserve_b;
        if new_reserve_a == 0 {
            return None;
        }
        proof {
            assert(self.reserve_b as int * self.reserve_a as int
                == self.reserve_a as int * self.reserve_b as int) by (nonlinear_arith);
            lemma_new_outgoing_reserve_shrinks(
                self.reserve_b as int,
                self.reserve_a as int,
                self.k as int,
                new_reserve_b as int,
            );
        }
        let amount_out: u128 = self.reserve_a - new_reserve_a;
        if amount_out > 0 {
            proof {
                lemma_committed_reserves_wf(self.k as int, new_reserve_b as int);
                assert(new_reserve_b as int * (self.k as int / new_reserve_b as int)
                    == (self.k as int / new_reserve_b as int) * new_reserve_b as int)
                    by (nonlinear_arith);
            }
            self.reserve_b = new_reserve_b;
            self.reserve_a = new_reserve_a;
            Some(amount_out)
        } else {
            None
        }
    }
}

/// For a well-formed pool with incoming reserve `r_in`, outgoing
/// reserve `r_out` and constant `k`, growing the incoming reserve to
/// `r_in_grown` can only shrink the quotient `k / r_in_grown`, and
/// never below zero nor above `r_out`.
proof fn lemma_new_outgoing_reserve_shrinks(r_in: int, r_out: int, k: int, r_in_grown: int)
    requires
        1 <= r_in,
        1 <= r_out,
        r_in * r_out <= k,
        k - r_in * r_out < r_in + r_out,
        r_in < r_in_grown,
    ensures
        0 <= k / r_in_grown <= r_out,
{
    assert(k < (r_in + 1) * (r_out + 1)) by (nonlinear_arith)
        requires
            1 <= r_in,
            1 <= r_out,
            k - r_in * r_out < r_in + r_out,
    ;
    assert((r_in + 1) * (r_out + 1) <= r_in_grown * (r_out + 1)) by (nonlinear_arith)
        requires
            1 <= r_out,
            r_in + 1 <= r_in_grown,
    ;
    lemma_multiply_divide_lt(k, r_in_grown, r_out + 1);
    assert(0 <= k / r_in_grown) by {
        lemma_div_pos_is_pos(k, r_in_grown);
    }
}

/// After a commit the grown incoming reserve `r_in_grown` and the
/// recomputed outgoing reserve `k / r_in_grown` satisfy the
/// constant-product bounds again.
proof fn lemma_committed_reserves_wf(k: int, r_in_grown: int)
    requires
        1 <= r_in_grown,
        0 <= k,
    ensures
        r_in_grown * (k / r_in_grown) <= k,
        k - r_in_grown * (k / r_in_grown) < r_in_grown,
{
    lemma_remainder_lower(k, r_in_grown);
    lemma_remainder_upper(k, r_in_grown);
    assert(k / r_in_grown * r_in_grown == r_in_grown * (k / r_in_grown)) by (nonlinear_arith);
}

} // verus!
