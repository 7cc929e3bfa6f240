//! Small facts about positions that wrap around a buffer of fixed length.

use vstd::prelude::*;

verus! {

/// A position `p` below `2 * n` taken modulo `n` is `p` itself or `p - n`.
pub proof fn lemma_wrap(p: int, n: int)
    requires
        0 < n,
        0 <= p < 2 * n,
    ensures
        p % n == if p < n { p } else { p - n },
{
    if p < n {
        vstd::arithmetic::div_mod::lemma_fundamental_div_mod_converse(p, n, 0, p);
    } else {
        vstd::arithmetic::div_mod::lemma_fundamental_div_mod_converse(p, n, 1, p - n);
    }
}

/// Adding to a position after reducing it modulo `n` lands on the same position
/// as adding first and reducing afterwards.
pub proof fn lemma_mod_shift(a: int, j: int, n: int)
    requires
        0 < n,
    ensures
        (a % n + j) % n == (a + j) % n,
{
    vstd::arithmetic::div_mod::lemma_fundamental_div_mod(a, n);
    let q = a / n;
    let r = a % n;
    vstd::arithmetic::div_mod::lemma_fundamental_div_mod(r + j, n);
    let q2 = (r + j) / n;
    let r2 = (r + j) % n;
    assert(a + j == (q + q2) * n + r2) by (nonlinear_arith)
        requires
            a == n * q + r,
            r + j == n * q2 + r2,
    ;
    vstd::arithmetic::div_mod::lemma_fundamental_div_mod_converse(a + j, n, q + q2, r2);
}

} // verus!
