use strength_reduce::driver::{build_input, run, saturate, StopPolicy};
use strength_reduce::expr::{add_expr, expr_cost, int_expr, mul_expr, render, shl_expr, sub_expr,
    sym_expr, Expr};
use strength_reduce::rules::{decrement_decide, fuse_decide, halve_decide, increment_decide,
    mul_free_equivalent};

fn x() -> String {
    "x".to_string()
}

fn sym() -> Expr {
    Expr::Sym("x".to_string())
}

fn lit(v: usize) -> Expr {
    Expr::Int(v)
}

fn shl(a: Expr, b: Expr) -> Expr {
    Expr::Shl(Box::new(a), Box::new(b))
}

fn add(a: Expr, b: Expr) -> Expr {
    Expr::Add(Box::new(a), Box::new(b))
}

fn sub(a: Expr, b: Expr) -> Expr {
    Expr::Sub(Box::new(a), Box::new(b))
}

fn mul(a: Expr, b: Expr) -> Expr {
    Expr::Mul(Box::new(a), Box::new(b))
}

/// Plain recursive evaluation of an extracted expression at a concrete
/// symbol value, written independently of the library.
fn eval_at(e: &Expr, x: i128) -> i128 {
    match e {
        Expr::Mul(a, b) => eval_at(a, x) * eval_at(b, x),
        Expr::Add(a, b) => eval_at(a, x) + eval_at(b, x),
        Expr::Sub(a, b) => eval_at(a, x) - eval_at(b, x),
        Expr::Shl(a, b) => eval_at(a, x) << eval_at(b, x),
        Expr::Int(v) => *v as i128,
        Expr::Sym(_) => x,
    }
}

fn contains_mul(e: &Expr) -> bool {
    match e {
        Expr::Mul(_, _) => true,
        Expr::Add(a, b) | Expr::Sub(a, b) | Expr::Shl(a, b) => {
            contains_mul(a) || contains_mul(b)
        }
        _ => false,
    }
}

#[test]
fn halve_decide_fires_on_even_positive() {
    assert_eq!(halve_decide(6), Some(3));
    assert_eq!(halve_decide(2), Some(1));
    assert_eq!(halve_decide(7), None);
    assert_eq!(halve_decide(1), None);
    assert_eq!(halve_decide(0), None);
}

#[test]
fn decrement_decide_needs_odd_unless_shared() {
    assert_eq!(decrement_decide(7, false), Some(6));
    assert_eq!(decrement_decide(6, false), None);
    assert_eq!(decrement_decide(6, true), Some(5));
    assert_eq!(decrement_decide(0, false), None);
    assert_eq!(decrement_decide(0, true), None);
}

#[test]
fn increment_decide_skips_overflow() {
    assert_eq!(increment_decide(7, false), Some(8));
    assert_eq!(increment_decide(6, false), None);
    assert_eq!(increment_decide(6, true), Some(7));
    assert_eq!(increment_decide(usize::MAX, false), None);
    assert_eq!(increment_decide(usize::MAX, true), None);
}

#[test]
fn fuse_decide_skips_overflow() {
    assert_eq!(fuse_decide(2, 3), Some(5));
    assert_eq!(fuse_decide(0, 0), Some(0));
    assert_eq!(fuse_decide(usize::MAX, 1), None);
}

#[test]
fn cost_of_shift_chain() {
    // (x << 3) - x: subtract 2, shift 1, symbol 1, literal 1, symbol 1
    let e = sub(shl(sym(), lit(3)), sym());
    assert_eq!(expr_cost(&e), 6);
}

#[test]
fn cost_of_multiply_is_sentinel() {
    let e = mul(lit(3), sym());
    assert_eq!(expr_cost(&e), usize::MAX);
    let nested = add(mul(lit(3), sym()), sym());
    assert_eq!(expr_cost(&nested), usize::MAX);
}

#[test]
fn render_decimal_and_shapes() {
    assert_eq!(render(&lit(42)), "42");
    assert_eq!(render(&lit(0)), "0");
    assert_eq!(render(&sym()), "x");
    let e = sub(shl(sym(), lit(3)), sym());
    assert_eq!(render(&e), "(- (<< x 3) x)");
    let m = mul(lit(6), sym());
    assert_eq!(render(&m), "(* 6 x)");
}

#[test]
fn decomposition_is_mul_free_and_exact() {
    for v in 1usize..=40 {
        let e = mul_free_equivalent(v, &x());
        assert!(!contains_mul(&e));
        assert!(expr_cost(&e) < usize::MAX);
        assert_eq!(eval_at(&e, 5), (v as i128) * 5);
        assert_eq!(eval_at(&e, -3), (v as i128) * -3);
    }
}

#[test]
fn coeff_six_reduces_to_cost_eight() {
    let out = run(&vec![6], &x(), false, &StopPolicy::standard());
    assert_eq!(out.results.len(), 1);
    let (c, e) = out.results[0].as_ref().expect("term must extract");
    assert_eq!(*c, 8);
    assert!(!contains_mul(e));
    assert_eq!(eval_at(e, 9), 54);
    assert!(*c < usize::MAX);
}

#[test]
fn coeff_seven_uses_increment_distribution() {
    let out = run(&vec![7], &x(), false, &StopPolicy::standard());
    let (c, e) = out.results[0].as_ref().expect("term must extract");
    assert_eq!(*c, 6);
    assert_eq!(*e, sub(shl(sym(), lit(3)), sym()));
    assert_eq!(render(e), "(- (<< x 3) x)");
}

#[test]
fn coeff_one_folds_to_shift_minus_symbol() {
    // the rule set defines no identity mapping 1*x to the bare symbol;
    // the cheapest derivable form is (x << 1) - x
    let out = run(&vec![1], &x(), false, &StopPolicy::standard());
    let (c, e) = out.results[0].as_ref().expect("term must extract");
    assert_eq!(*c, 6);
    assert_eq!(*e, sub(shl(sym(), lit(1)), sym()));
    assert_eq!(eval_at(e, 11), 11);
}

#[test]
fn coeff_two_degenerate_fold() {
    let out = run(&vec![2], &x(), false, &StopPolicy::standard());
    let (c, e) = out.results[0].as_ref().expect("term must extract");
    assert_eq!(*c, 3);
    assert_eq!(*e, shl(sym(), lit(1)));
}

#[test]
fn coeff_four_fuses_shift_chain() {
    let out = run(&vec![4], &x(), false, &StopPolicy::standard());
    let (c, e) = out.results[0].as_ref().expect("term must extract");
    assert_eq!(*c, 3);
    assert_eq!(*e, shl(sym(), lit(2)));
}

#[test]
fn coeff_zero_falls_back_to_multiply() {
    // no rule covers a literal of zero: the term keeps its multiplied form
    let out = run(&vec![0], &x(), false, &StopPolicy::standard());
    let (c, e) = out.results[0].as_ref().expect("term must extract");
    assert_eq!(*c, usize::MAX);
    assert_eq!(*e, mul(lit(0), sym()));
}

#[test]
fn two_terms_extracted_independently_in_order() {
    let out = run(&vec![6, 7], &x(), false, &StopPolicy::standard());
    assert_eq!(out.results.len(), 2);
    let (c6, e6) = out.results[0].as_ref().expect("first term must extract");
    let (c7, e7) = out.results[1].as_ref().expect("second term must extract");
    assert_eq!(*c6, 8);
    assert_eq!(eval_at(e6, 9), 54);
    assert_eq!(*c7, 6);
    assert_eq!(*e7, sub(shl(sym(), lit(3)), sym()));
}

#[test]
fn resaturating_finds_zero_new_unions() {
    let coeffs = vec![6, 7];
    let (mut s, _terms, _root) = build_input(&coeffs, &x());
    let policy = StopPolicy::standard();
    let first = saturate(&mut s, &policy, false);
    assert!(first.saturated);
    assert!(first.unions > 0);
    let second = saturate(&mut s, &policy, false);
    assert!(second.saturated);
    assert_eq!(second.unions, 0);
    assert_eq!(second.passes, 1);
}

#[test]
fn identical_inputs_yield_identical_extractions() {
    let a = run(&vec![6, 7, 12], &x(), false, &StopPolicy::standard());
    let b = run(&vec![6, 7, 12], &x(), false, &StopPolicy::standard());
    assert_eq!(a.results, b.results);
    assert_eq!(a.size, b.size);
}

#[test]
fn shared_mode_widens_search_without_losing_six() {
    let out = run(&vec![6], &x(), true, &StopPolicy::standard());
    let (c, e) = out.results[0].as_ref().expect("term must extract");
    assert_eq!(*c, 8);
    assert!(!contains_mul(e));
}

#[test]
fn early_stop_still_extracts_validly() {
    // one pass is not enough to reach a multiplication-free form for 7
    let tight = StopPolicy { max_passes: 1, max_nodes: 10000 };
    let out = run(&vec![7], &x(), false, &tight);
    assert!(!out.stats.saturated);
    let (c, e) = out.results[0].as_ref().expect("term must extract");
    assert_eq!(*c, usize::MAX);
    assert!(contains_mul(e));
    assert_eq!(eval_at(e, 4), 28);
}

#[test]
fn node_ceiling_stops_before_any_pass() {
    let tiny = StopPolicy { max_passes: 30, max_nodes: 1 };
    let out = run(&vec![7], &x(), false, &tiny);
    assert_eq!(out.stats.passes, 0);
    let (c, e) = out.results[0].as_ref().expect("term must extract");
    assert_eq!(*c, usize::MAX);
    assert_eq!(*e, mul(lit(7), sym()));
}

#[test]
fn diagnostic_size_counts_materialized_nodes() {
    // [7] builds Int(7), Sym, Mul, Lst; saturation adds more
    let out = run(&vec![7], &x(), false, &StopPolicy::standard());
    assert!(out.size >= 4);
    let small = run(&vec![0], &x(), false, &StopPolicy::standard());
    assert_eq!(small.size, 4);
}

#[test]
fn decomposition_handles_extreme_coefficient() {
    let e = mul_free_equivalent(usize::MAX, &x());
    assert!(!contains_mul(&e));
    assert_eq!(eval_at(&e, 1), usize::MAX as i128);
}

#[test]
fn coeff_twelve_fuses_through_six() {
    // 12*x halves to (6*x) << 1, and the shift chain fuses to (3*x) << 2
    let out = run(&vec![12], &x(), false, &StopPolicy::standard());
    let (c, e) = out.results[0].as_ref().expect("term must extract");
    assert_eq!(*c, 8);
    assert!(!contains_mul(e));
    assert_eq!(eval_at(e, 7), 84);
}

#[test]
fn numeric_symbol_name_stays_distinct_from_literals() {
    // a symbolic leaf named "7" must not merge with the literal 7
    let out = run(&vec![3], &"7".to_string(), false, &StopPolicy::standard());
    let (c, e) = out.results[0].as_ref().expect("term must extract");
    assert_eq!(*c, 6);
    assert!(!contains_mul(e));
    assert_eq!(eval_at(e, 10), 30);
    let out2 = run(&vec![7], &"7".to_string(), false, &StopPolicy::standard());
    let (c2, e2) = out2.results[0].as_ref().expect("term must extract");
    assert_eq!(*c2, 6);
    assert_eq!(eval_at(e2, 10), 70);
}
