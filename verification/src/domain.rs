//! The evaluation domain: a multiplicative subgroup of the scalar field of
//! power-of-two size, and its vanishing polynomial `x^size - 1`.
use vstd::prelude::*;

use crate::field::{
    fe_from_u64, fmul, fpow, fr_mul, fr_order, fr_sub, fsub, lemma_f_bounds, FieldElement,
};
use crate::Error;

verus! {

/// Whether `n` is a power of two.
pub open spec fn is_pow2(n: nat) -> bool
    decreases n,
{
    if n == 0 {
        false
    } else if n == 1 {
        true
    } else {
        n % 2 == 0 && is_pow2(n / 2)
    }
}

/// A multiplicative subgroup of the scalar field, identified by its size.
/// The scalar field of BLS12-381 has subgroups of every power-of-two size up
/// to 2^32.
#[derive(Debug)]
pub struct Domain {
    pub size: u64,
}

impl Domain {
    /// The size is a power of two no larger than 2^32, so the subgroup
    /// exists in the scalar field.
    pub open spec fn wf(&self) -> bool {
        is_pow2(self.size as nat) && self.size <= 0x1_0000_0000u64
    }
}

/// No power of two lies strictly between `b` and `2 * b`.
proof fn lemma_pow2_le_double(n: nat, b: nat)
    requires
        is_pow2(n),
        is_pow2(b),
        n < 2 * b,
    ensures
        n <= b,
    decreases n,
{
    if n == 1 {
    } else if b == 1 {
    } else {
        lemma_pow2_le_double(n / 2, b / 2);
    }
}

/// Constructs the smallest domain able to hold `min_size` evaluations: its
/// size is the least power of two at or above `min_size`, and no such
/// subgroup exists only when that power exceeds 2^32.
pub fn construct(min_size: u64) -> (r: Result<Domain, Error>)
    ensures
        r matches Ok(d) ==> d.wf() && d.size >= min_size && (d.size == 1 || (d.size as nat) / 2
            < min_size),
        r is Err <==> min_size > 0x1_0000_0000u64,
        r matches Err(e) ==> e == Error::UnsupportedDomainSize,
{
    let mut s: u64 = 1;
    while s < min_size
        invariant
            1 <= s <= 0x1_0000_0000u64,
            is_pow2(s as nat),
            s == 1 || (s as nat) / 2 < min_size,
        decreases 0x2_0000_0000u64 - s,
    {
        if s == 0x1_0000_0000u64 {
            return Err(Error::UnsupportedDomainSize);
        }
        proof {
            reveal_with_fuel(is_pow2, 40);
            assert(is_pow2(0x80000000nat));
            lemma_pow2_le_double(s as nat, 0x80000000nat);
            assert((2 * s as nat) / 2 == s as nat);
        }
        s = s * 2;
    }
    Ok(Domain { size: s })
}

/// Evaluates the vanishing polynomial `x^size - 1` of the domain at a point.
/// The result is zero exactly when the point lies in the domain.
pub fn evaluate_vanishing(dom: &Domain, x: &FieldElement) -> (r: FieldElement)
    requires
        x.wf(),
    ensures
        r.wf(),
        r.val() == fsub(fpow(x.val(), dom.size as nat), 1),
{
    let mut acc = fe_from_u64(1);
    let mut j: u64 = 0;
    while j < dom.size
        invariant
            j <= dom.size,
            x.wf(),
            acc.wf(),
            acc.val() == fpow(x.val(), j as nat),
        decreases dom.size - j,
    {
        let next = fr_mul(&acc, x);
        proof {
            assert(fpow(x.val(), (j + 1) as nat) == fmul(x.val(), fpow(x.val(), j as nat)));
            assert(acc.val() * x.val() == x.val() * acc.val()) by (nonlinear_arith);
        }
        acc = next;
        j = j + 1;
    }
    let one = fe_from_u64(1);
    fr_sub(&acc, &one)
}

} // verus!
