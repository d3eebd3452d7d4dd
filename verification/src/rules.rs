//! The four rewrite rules' firing conditions, as pure decision functions
//! with exact contracts, and proofs that each identity preserves the value
//! of the rewritten expression.
use vstd::prelude::*;
use vstd::arithmetic::power2::{pow2, lemma_pow2_adds};
use crate::expr::{Expr, ExprV, eval, has_mul, shift_amount, add_expr, int_expr, shl_expr, sub_expr, sym_expr};

verus! {

/// Rule 1, halve via shift: `x * y` with an even literal `v >= 2` in `x`'s
/// class becomes `((v/2) * y) << 1`, or `y << 1` when `v/2 == 1`.
/// Returns the halved literal when the rule fires, nothing otherwise.
pub fn halve_decide(v: usize) -> (r: Option<usize>)
    ensures
        r is Some <==> (v % 2 == 0 && v >= 2),
        r is Some ==> r->Some_0 == v / 2,
{
    if v.is_multiple_of(2) {
        let half = v / 2;
        if half >= 1 {
            return Some(half);
        }
    }
    None
}

/// Rule 2, decrement distribution: `x * y` with literal `v` becomes
/// `(v-1) * y + y`. Unless sharing is allowed it fires only on odd `v`;
/// it never fires on `v == 0` (underflow).
pub fn decrement_decide(v: usize, shared: bool) -> (r: Option<usize>)
    ensures
        r is Some <==> ((shared || v % 2 == 1) && v >= 1),
        r is Some ==> r->Some_0 == v - 1,
{
    if shared || !v.is_multiple_of(2) {
        v.checked_sub(1)
    } else {
        None
    }
}

/// Rule 3, increment distribution: `x * y` with literal `v` becomes
/// `(v+1) * y - y`. Unless sharing is allowed it fires only on odd `v`;
/// it never fires when `v + 1` would overflow.
pub fn increment_decide(v: usize, shared: bool) -> (r: Option<usize>)
    ensures
        r is Some <==> ((shared || v % 2 == 1) && v < usize::MAX),
        r is Some ==> r->Some_0 == v + 1,
{
    if shared || !v.is_multiple_of(2) {
        v.checked_add(1)
    } else {
        None
    }
}

/// Rule 4, shift fusion: `(x << vy) << vz` becomes `x << (vy + vz)`.
/// It fires whenever both shift amounts resolve to literals and their sum
/// does not overflow; overflow is a silent no-op, never a crash.
pub fn fuse_decide(vy: usize, vz: usize) -> (r: Option<usize>)
    ensures
        r is Some <==> vy + vz <= usize::MAX,
        r is Some ==> r->Some_0 == vy + vz,
{
    vz.checked_add(vy)
}

/// Rule 1 preserves the denoted value: for even `v`,
/// `((v/2) * y) << 1` equals `v * y`.
pub proof fn lemma_halve_sound(v: nat, y: int)
    requires
        v % 2 == 0,
    ensures
        (v / 2) as int * y * pow2(1) as int == v as int * y,
{
    vstd::arithmetic::power2::lemma2_to64();
    assert((v / 2) as int * y * 2 == v as int * y) by (nonlinear_arith)
        requires v % 2 == 0;
}

/// Rule 2 preserves the denoted value: for `v >= 1`,
/// `(v-1) * y + y` equals `v * y`.
pub proof fn lemma_decrement_sound(v: nat, y: int)
    requires
        v >= 1,
    ensures
        (v - 1) * y + y == v as int * y,
{
    assert((v - 1) * y + y == v as int * y) by (nonlinear_arith)
        requires v >= 1;
}

/// Rule 3 preserves the denoted value: `(v+1) * y - y` equals `v * y`.
pub proof fn lemma_increment_sound(v: nat, y: int)
    ensures
        (v + 1) * y - y == v as int * y,
{
    assert((v + 1) * y - y == v as int * y) by (nonlinear_arith);
}

/// Rule 4 preserves the denoted value: `(x << vy) << vz` equals
/// `x << (vy + vz)` for any shift amounts.
pub proof fn lemma_fuse_sound(x: int, vy: nat, vz: nat)
    ensures
        x * pow2(vy) as int * pow2(vz) as int == x * pow2((vy + vz) as nat) as int,
{
    lemma_pow2_adds(vy, vz);
    assert(x * pow2(vy) as int * pow2(vz) as int == x * (pow2(vy) * pow2(vz)) as int)
        by (nonlinear_arith);
}

/// Evaluating a shift whose amount is the literal `k` multiplies the
/// shifted value by two to the `k`.
pub proof fn lemma_eval_shl_lit(a: ExprV, k: nat, x: int)
    ensures
        eval(ExprV::Shl(Box::new(a), Box::new(ExprV::Int(k))), x) == eval(a, x) * pow2(k) as int,
{
    assert(eval(ExprV::Int(k), x) == k);
    assert(shift_amount(k as int) == k);
}

/// The recursive decomposition behind the rule set: every positive
/// coefficient has a multiplication-free expression, reachable by repeated
/// halving (Rule 1), decrementing (Rule 2) and incrementing (Rule 3),
/// that denotes exactly `v * x`.
pub fn mul_free_equivalent(v: usize, sym: &String) -> (e: Expr)
    requires
        v >= 1,
    ensures
        !has_mul(e@),
        forall|x: int| #[trigger] eval(e@, x) == v as int * x,
    decreases v,
{
    if v == 1 {
        // the shape Rule 3 reaches through `2 * x`: `(x << 1) - x`
        let two = shl_expr(sym_expr(sym), int_expr(1));
        let ghost two_v = two@;
        let e = sub_expr(two, sym_expr(sym));
        proof {
            assert(!has_mul(ExprV::Sym(sym@)));
            assert(!has_mul(ExprV::Int(1)));
            assert(!has_mul(two_v));
            assert(!has_mul(e@));
            assert forall|x: int| #[trigger] eval(e@, x) == v as int * x by {
                lemma_eval_shl_lit(ExprV::Sym(sym@), 1, x);
                assert(eval(ExprV::Sym(sym@), x) == x);
                assert(eval(e@, x) == eval(two_v, x) - x);
                assert(eval(two_v, x) == x * pow2(1) as int);
                vstd::arithmetic::power2::lemma2_to64();
            }
        }
        e
    } else if v % 2 == 0 {
        let inner = mul_free_equivalent(v / 2, sym);
        let ghost inner_v = inner@;
        let e = shl_expr(inner, int_expr(1));
        proof {
            assert(!has_mul(ExprV::Int(1)));
            assert(!has_mul(e@));
            assert forall|x: int| #[trigger] eval(e@, x) == v as int * x by {
                lemma_eval_shl_lit(inner_v, 1, x);
                assert(eval(inner_v, x) == (v / 2) as int * x);
                lemma_halve_sound(v as nat, x);
            }
        }
        e
    } else {
        let inner = mul_free_equivalent(v - 1, sym);
        let ghost inner_v = inner@;
        let e = add_expr(inner, sym_expr(sym));
        proof {
            assert(!has_mul(ExprV::Sym(sym@)));
            assert(!has_mul(e@));
            assert forall|x: int| #[trigger] eval(e@, x) == v as int * x by {
                assert(eval(ExprV::Sym(sym@), x) == x);
                assert(eval(inner_v, x) == (v - 1) as int * x);
                assert(eval(e@, x) == (v - 1) as int * x + x);
                lemma_decrement_sound(v as nat, x);
            }
        }
        e
    }
}

} // verus!
