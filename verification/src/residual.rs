//! Residual classes: canonical `(modulus, shift)` pairs standing for the
//! arithmetic progression `{ shift + k * modulus : k integer }`, with a
//! modulus of `0` as the sentinel for the empty set.

use vstd::prelude::*;

verus! {

use vstd::string::StrSliceExecFns;
use vstd::string::StringExecFns;

use crate::arith;
use crate::arith::intersection_post;
use crate::arith::spec_lcm;
use crate::text::dec_rep;
use crate::text::u64_to_string;

/// A residual class. Canonical form: `shift < modulus` when `modulus > 0`,
/// and `shift == 0` when `modulus == 0`.
#[derive(Clone, Copy, Debug, PartialEq, Eq, PartialOrd, Ord, Hash, Structural)]
pub struct Residual {
    pub modulus: u64,
    pub shift: u64,
}

impl Residual {
    /// The canonical-form invariant, established by `new` and preserved by
    /// every operation.
    pub open spec fn wf(self) -> bool {
        if self.modulus == 0 {
            self.shift == 0
        } else {
            self.shift < self.modulus
        }
    }

    /// Membership: `value` lies on the progression. The empty class
    /// (`modulus == 0`) contains nothing.
    pub open spec fn spec_contains(self, value: int) -> bool {
        self.modulus > 0 && (value - self.shift) % (self.modulus as int) == 0
    }

    /// The canonical text form `"{modulus}@{shift}"`.
    pub open spec fn spec_text(self) -> Seq<char> {
        dec_rep(self.modulus as nat) + seq!['@'] + dec_rep(self.shift as nat)
    }

    /// Builds a residual class, canonicalizing the shift: it is reduced
    /// modulo the modulus, and forced to `0` for the empty class.
    pub fn new(modulus: u64, shift: u64) -> (r: Residual)
        ensures
            r.wf(),
            r.modulus == modulus,
            r.shift == if modulus == 0 {
                0nat
            } else {
                (shift as nat) % (modulus as nat)
            },
    {
        let s = if modulus == 0 {
            0
        } else {
            shift % modulus
        };
        Residual { modulus, shift: s }
    }

    /// Whether `value` is a member of this residual class, for any integer
    /// `value`, using the mathematical (Euclidean) modulus.
    pub fn contains(&self, value: i128) -> (r: bool)
        requires
            self.wf(),
        ensures
            r == self.spec_contains(value as int),
    {
        if self.modulus == 0 {
            return false;
        }
        let e = arith::mod_euclid(value, self.modulus as i128);
        proof {
            vstd::arithmetic::div_mod::lemma_mod_equivalence(
                value as int,
                self.shift as int,
                self.modulus as int,
            );
            vstd::arithmetic::div_mod::lemma_small_mod(
                self.shift as nat,
                self.modulus as nat,
            );
        }
        e == self.shift as i128
    }

    /// The residual class of integers lying in both classes: the generalized
    /// Chinese-Remainder-Theorem combination computed by
    /// `arith::intersection`.
    pub fn intersect(&self, other: &Residual) -> (r: Residual)
        requires
            self.wf(),
            other.wf(),
            self.modulus >= 1 && other.modulus >= 1 ==> spec_lcm(
                self.modulus as nat,
                other.modulus as nat,
            ) <= u64::MAX,
        ensures
            r.wf(),
            intersection_post(
                self.modulus as nat,
                other.modulus as nat,
                self.shift as nat,
                other.shift as nat,
                r.modulus as nat,
                r.shift as nat,
            ),
    {
        match arith::intersection(self.modulus, other.modulus, self.shift, other.shift) {
            Ok((m, s)) => {
                proof {
                    if m > 0 {
                        vstd::arithmetic::div_mod::lemma_small_mod(s as nat, m as nat);
                    }
                }
                Residual::new(m, s)
            },
            Err(_) => {
                proof {
                    assert(false);
                }
                Residual::new(0, 0)
            },
        }
    }

    /// Renders the canonical text form `"{modulus}@{shift}"`.
    pub fn to_text(&self) -> (r: String)
        ensures
            r@ == self.spec_text(),
    {
        let mut s = u64_to_string(self.modulus);
        s.append("@");
        let t = u64_to_string(self.shift);
        s.append(t.as_str());
        proof {
            reveal_strlit("@");
            assert(s@ =~= self.spec_text());
        }
        s
    }
}


/// With the smaller shift on the left, `intersect` is exact: together with
/// the contract of `Residual::intersect`, the returned class contains
/// precisely the integers lying in both operands. (With the larger shift on
/// the left the documented absolute-span behavior is reproduced instead, and
/// this equivalence need not hold.)
pub proof fn lemma_intersect_exact(r1: Residual, r2: Residual, r: Residual, v: int)
    requires
        r1.wf(),
        r2.wf(),
        r1.shift <= r2.shift,
        intersection_post(
            r1.modulus as nat,
            r2.modulus as nat,
            r1.shift as nat,
            r2.shift as nat,
            r.modulus as nat,
            r.shift as nat,
        ),
    ensures
        r.spec_contains(v) == (r1.spec_contains(v) && r2.spec_contains(v)),
{
    crate::arith::lemma_intersection_exact(
        r1.modulus as nat,
        r2.modulus as nat,
        r1.shift as nat,
        r2.shift as nat,
        r.modulus as nat,
        r.shift as nat,
        v,
    );
}

/// Periodicity: membership in a non-empty residual class is invariant under
/// translation by the modulus.
pub proof fn lemma_residual_periodic(r: Residual, v: int)
    requires
        r.modulus > 0,
    ensures
        r.spec_contains(v) == r.spec_contains(v + r.modulus),
{
    vstd::arithmetic::div_mod::lemma_mod_add_multiples_vanish(
        v - r.shift,
        r.modulus as int,
    );
}

/// The empty residual class (`modulus == 0`) contains no integer at all.
pub proof fn lemma_empty_residual_contains_nothing(r: Residual, v: int)
    requires
        r.modulus == 0,
    ensures
        !r.spec_contains(v),
{
}

} // verus!
