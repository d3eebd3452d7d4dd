//! The arithmetic expression domain: concrete expressions, their
//! mathematical view, their meaning, and the cost model that ranks them.
use vstd::prelude::*;
use vstd::arithmetic::power2::{pow2, lemma_pow2_adds};
use vstd::string::StringExecFns;

verus! {

/// A concrete arithmetic expression over one symbolic leaf.
///
/// `Shl(value, amount)` shifts `value` left by `amount` bit positions.
#[derive(Debug, PartialEq, Eq)]
pub enum Expr {
    Mul(Box<Expr>, Box<Expr>),
    Add(Box<Expr>, Box<Expr>),
    Sub(Box<Expr>, Box<Expr>),
    Shl(Box<Expr>, Box<Expr>),
    Int(usize),
    Sym(String),
}

/// The mathematical view of an expression.
pub enum ExprV {
    Mul(Box<ExprV>, Box<ExprV>),
    Add(Box<ExprV>, Box<ExprV>),
    Sub(Box<ExprV>, Box<ExprV>),
    Shl(Box<ExprV>, Box<ExprV>),
    Int(nat),
    Sym(Seq<char>),
}

pub open spec fn expr_view(e: Expr) -> ExprV
    decreases e,
{
    match e {
        Expr::Mul(a, b) => ExprV::Mul(Box::new(expr_view(*a)), Box::new(expr_view(*b))),
        Expr::Add(a, b) => ExprV::Add(Box::new(expr_view(*a)), Box::new(expr_view(*b))),
        Expr::Sub(a, b) => ExprV::Sub(Box::new(expr_view(*a)), Box::new(expr_view(*b))),
        Expr::Shl(a, b) => ExprV::Shl(Box::new(expr_view(*a)), Box::new(expr_view(*b))),
        Expr::Int(v) => ExprV::Int(v as nat),
        Expr::Sym(s) => ExprV::Sym(s@),
    }
}

impl View for Expr {
    type V = ExprV;

    open spec fn view(&self) -> ExprV {
        expr_view(*self)
    }
}

/// Whether a multiplication node occurs anywhere in the expression.
pub open spec fn has_mul(e: ExprV) -> bool
    decreases e,
{
    match e {
        ExprV::Mul(_, _) => true,
        ExprV::Add(a, b) => has_mul(*a) || has_mul(*b),
        ExprV::Sub(a, b) => has_mul(*a) || has_mul(*b),
        ExprV::Shl(a, b) => has_mul(*a) || has_mul(*b),
        ExprV::Int(_) => false,
        ExprV::Sym(_) => false,
    }
}

/// A shift amount read as a natural number; a negative amount cannot arise
/// from well-formed inputs and is read as zero.
pub open spec fn shift_amount(i: int) -> nat {
    if i < 0 {
        0
    } else {
        i as nat
    }
}

/// The value an expression denotes when the symbolic leaf stands for `x`.
pub open spec fn eval(e: ExprV, x: int) -> int
    decreases e,
{
    match e {
        ExprV::Mul(a, b) => eval(*a, x) * eval(*b, x),
        ExprV::Add(a, b) => eval(*a, x) + eval(*b, x),
        ExprV::Sub(a, b) => eval(*a, x) - eval(*b, x),
        ExprV::Shl(a, b) => eval(*a, x) * pow2(shift_amount(eval(*b, x))) as int,
        ExprV::Int(v) => v as int,
        ExprV::Sym(_) => x,
    }
}

/// The sentinel that caps every cost: no finite chain may cost more, and a
/// multiplication always costs exactly this much.
pub open spec fn cost_cap() -> nat {
    usize::MAX as nat
}

/// Saturating addition used by the cost model, so unreachable or
/// multiplication-bearing branches cannot overflow the total.
pub open spec fn sat_add(a: nat, b: nat) -> nat {
    if a + b >= cost_cap() {
        cost_cap()
    } else {
        a + b
    }
}

/// Per-node base cost: the sentinel for `Mul`, 2 for `Add` and `Sub`,
/// 1 for every other kind.
pub open spec fn base_cost(e: ExprV) -> nat {
    match e {
        ExprV::Mul(_, _) => cost_cap(),
        ExprV::Add(_, _) => 2,
        ExprV::Sub(_, _) => 2,
        _ => 1,
    }
}

/// Total cost of an expression: base cost plus the saturating sum of the
/// children's costs.
pub open spec fn cost_v(e: ExprV) -> nat
    decreases e,
{
    match e {
        ExprV::Mul(a, b) => sat_add(sat_add(base_cost(e), cost_v(*a)), cost_v(*b)),
        ExprV::Add(a, b) => sat_add(sat_add(base_cost(e), cost_v(*a)), cost_v(*b)),
        ExprV::Sub(a, b) => sat_add(sat_add(base_cost(e), cost_v(*a)), cost_v(*b)),
        ExprV::Shl(a, b) => sat_add(sat_add(base_cost(e), cost_v(*a)), cost_v(*b)),
        ExprV::Int(_) => base_cost(e),
        ExprV::Sym(_) => base_cost(e),
    }
}

/// Any expression still containing a multiplication costs exactly the
/// sentinel, so it can never undercut a multiplication-free alternative.
pub proof fn lemma_mul_costs_cap(e: ExprV)
    requires
        has_mul(e),
    ensures
        cost_v(e) == cost_cap(),
    decreases e,
{
    match e {
        ExprV::Mul(a, b) => {}
        ExprV::Add(a, b) => {
            if has_mul(*a) {
                lemma_mul_costs_cap(*a);
            } else {
                lemma_mul_costs_cap(*b);
            }
        }
        ExprV::Sub(a, b) => {
            if has_mul(*a) {
                lemma_mul_costs_cap(*a);
            } else {
                lemma_mul_costs_cap(*b);
            }
        }
        ExprV::Shl(a, b) => {
            if has_mul(*a) {
                lemma_mul_costs_cap(*a);
            } else {
                lemma_mul_costs_cap(*b);
            }
        }
        ExprV::Int(_) => {}
        ExprV::Sym(_) => {}
    }
}

/// A strict-cost corollary: whatever costs less than the sentinel is
/// multiplication-free.
pub proof fn lemma_cheap_is_mul_free(e: ExprV)
    requires
        cost_v(e) < cost_cap(),
    ensures
        !has_mul(e),
{
    if has_mul(e) {
        lemma_mul_costs_cap(e);
    }
}

/// Constructor with an exact view: an integer literal.
pub fn int_expr(v: usize) -> (r: Expr)
    ensures
        r@ == ExprV::Int(v as nat),
{
    Expr::Int(v)
}

/// Constructor with an exact view: the symbolic leaf.
pub fn sym_expr(name: &String) -> (r: Expr)
    ensures
        r@ == ExprV::Sym(name@),
{
    Expr::Sym(name.clone())
}

/// Constructor with an exact view: a multiplication.
pub fn mul_expr(a: Expr, b: Expr) -> (r: Expr)
    ensures
        r@ == ExprV::Mul(Box::new(a@), Box::new(b@)),
{
    Expr::Mul(Box::new(a), Box::new(b))
}

/// Constructor with an exact view: an addition.
pub fn add_expr(a: Expr, b: Expr) -> (r: Expr)
    ensures
        r@ == ExprV::Add(Box::new(a@), Box::new(b@)),
{
    Expr::Add(Box::new(a), Box::new(b))
}

/// Constructor with an exact view: a subtraction.
pub fn sub_expr(a: Expr, b: Expr) -> (r: Expr)
    ensures
        r@ == ExprV::Sub(Box::new(a@), Box::new(b@)),
{
    Expr::Sub(Box::new(a), Box::new(b))
}

/// Constructor with an exact view: a left shift.
pub fn shl_expr(a: Expr, b: Expr) -> (r: Expr)
    ensures
        r@ == ExprV::Shl(Box::new(a@), Box::new(b@)),
{
    Expr::Shl(Box::new(a), Box::new(b))
}

/// Structural copy of an expression; the copy has the same view.
pub fn dup(e: &Expr) -> (r: Expr)
    ensures
        r@ == e@,
    decreases *e,
{
    match e {
        Expr::Mul(a, b) => Expr::Mul(Box::new(dup(a)), Box::new(dup(b))),
        Expr::Add(a, b) => Expr::Add(Box::new(dup(a)), Box::new(dup(b))),
        Expr::Sub(a, b) => Expr::Sub(Box::new(dup(a)), Box::new(dup(b))),
        Expr::Shl(a, b) => Expr::Shl(Box::new(dup(a)), Box::new(dup(b))),
        Expr::Int(v) => Expr::Int(*v),
        Expr::Sym(s) => Expr::Sym(s.clone()),
    }
}

/// Executable cost of an expression, equal to the cost model's verdict.
pub fn expr_cost(e: &Expr) -> (r: usize)
    ensures
        r as nat == cost_v(e@),
    decreases *e,
{
    match e {
        Expr::Mul(a, b) => usize::MAX.saturating_add(expr_cost(a)).saturating_add(expr_cost(b)),
        Expr::Add(a, b) => 2usize.saturating_add(expr_cost(a)).saturating_add(expr_cost(b)),
        Expr::Sub(a, b) => 2usize.saturating_add(expr_cost(a)).saturating_add(expr_cost(b)),
        Expr::Shl(a, b) => 1usize.saturating_add(expr_cost(a)).saturating_add(expr_cost(b)),
        Expr::Int(_) => 1,
        Expr::Sym(_) => 1,
    }
}

/// The digit character for one decimal digit.
pub open spec fn digit_char(d: nat) -> char {
    if d == 0 { '0' } else if d == 1 { '1' } else if d == 2 { '2' } else if d == 3 { '3' }
    else if d == 4 { '4' } else if d == 5 { '5' } else if d == 6 { '6' } else if d == 7 { '7' }
    else if d == 8 { '8' } else { '9' }
}

/// The decimal digits of `n`, most significant first, no sign, no padding.
pub open spec fn dec_spec(n: nat) -> Seq<char>
    decreases n,
{
    if n < 10 {
        seq![digit_char(n)]
    } else {
        dec_spec(n / 10).push(digit_char(n % 10))
    }
}

/// Relies on the standard decimal `Display` for `usize`: the digits of the
/// value, most significant first, without sign or padding.
#[verifier::external_body]
pub(crate) fn usize_to_decimal(n: usize) -> (r: String)
    ensures
        r@ == dec_spec(n as nat),
{
    format!("{}", n)
}

/// The prefix (s-expression) text of an expression.
pub open spec fn render_spec(e: ExprV) -> Seq<char>
    decreases e,
{
    match e {
        ExprV::Mul(a, b) => "(* "@ + render_spec(*a) + " "@ + render_spec(*b) + ")"@,
        ExprV::Add(a, b) => "(+ "@ + render_spec(*a) + " "@ + render_spec(*b) + ")"@,
        ExprV::Sub(a, b) => "(- "@ + render_spec(*a) + " "@ + render_spec(*b) + ")"@,
        ExprV::Shl(a, b) => "(<< "@ + render_spec(*a) + " "@ + render_spec(*b) + ")"@,
        ExprV::Int(v) => dec_spec(v),
        ExprV::Sym(s) => s,
    }
}

/// Renders an expression in prefix (s-expression) text form.
pub fn render(e: &Expr) -> (r: String)
    ensures
        r@ == render_spec(e@),
    decreases *e,
{
    match e {
        Expr::Mul(a, b) => {
            let mut out = String::new();
            out.append("(* ");
            let ra = render(a);
            out.append(ra.as_str());
            out.append(" ");
            let rb = render(b);
            out.append(rb.as_str());
            out.append(")");
            proof {
                assert(out@ =~= render_spec(e@));
            }
            out
        }
        Expr::Add(a, b) => {
            let mut out = String::new();
            out.append("(+ ");
            let ra = render(a);
            out.append(ra.as_str());
            out.append(" ");
            let rb = render(b);
            out.append(rb.as_str());
            out.append(")");
            proof {
                assert(out@ =~= render_spec(e@));
            }
            out
        }
        Expr::Sub(a, b) => {
            let mut out = String::new();
            out.append("(- ");
            let ra = render(a);
            out.append(ra.as_str());
            out.append(" ");
            let rb = render(b);
            out.append(rb.as_str());
            out.append(")");
            proof {
                assert(out@ =~= render_spec(e@));
            }
            out
        }
        Expr::Shl(a, b) => {
            let mut out = String::new();
            out.append("(<< ");
            let ra = render(a);
            out.append(ra.as_str());
            out.append(" ");
            let rb = render(b);
            out.append(rb.as_str());
            out.append(")");
            proof {
                assert(out@ =~= render_spec(e@));
            }
            out
        }
        Expr::Int(v) => usize_to_decimal(*v),
        Expr::Sym(s) => s.clone(),
    }
}

} // verus!
