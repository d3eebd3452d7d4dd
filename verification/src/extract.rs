//! Minimum-cost extraction: given the canonicalized node table of a
//! saturated (or stopped) graph, pick for a root class the cheapest
//! expression derivable from it under the cost model.
//!
//! The extractor relaxes a per-class best table until one full pass makes
//! no improvement. At that fixpoint the table is both sound — every entry
//! is a derivable expression carrying its true cost — and complete: no
//! derivable expression is cheaper than the entry of its class.
use vstd::prelude::*;
use crate::egraph::{Node, node_ids_below};
use crate::expr::{
    cost_cap, cost_v, dup, has_mul, int_expr, lemma_cheap_is_mul_free, lemma_mul_costs_cap,
    mul_expr, add_expr, sub_expr, shl_expr, sym_expr, sat_add, Expr, ExprV,
};
use crate::sat::entry_ok;

verus! {

/// Every entry of a canonicalized node table names classes below `k`.
pub open spec fn entries_below(entries: Seq<(usize, Node)>, k: nat) -> bool {
    forall|i: int| 0 <= i < entries.len() ==> entry_ok(#[trigger] entries[i], k)
}

/// Class `c` derives expression `e`: some recorded node of class `c`
/// matches `e`'s top, and its operand classes derive `e`'s children.
/// The root list node derives no expression; its entries are extracted
/// one by one.
pub open spec fn derives(entries: Seq<(usize, Node)>, c: nat, e: ExprV) -> bool
    decreases e,
{
    match e {
        ExprV::Int(v) => exists|k: int| 0 <= k < entries.len()
            && (#[trigger] entries[k]).0 as nat == c
            && (entries[k].1 matches Node::Int(w) && w as nat == v),
        ExprV::Sym(name) => exists|k: int| 0 <= k < entries.len()
            && (#[trigger] entries[k]).0 as nat == c
            && (entries[k].1 matches Node::Sym(s) && s@ == name),
        ExprV::Mul(a, b) => exists|k: int| 0 <= k < entries.len()
            && (#[trigger] entries[k]).0 as nat == c
            && (entries[k].1 matches Node::Mul(ca, cb)
                && derives(entries, ca as nat, *a) && derives(entries, cb as nat, *b)),
        ExprV::Add(a, b) => exists|k: int| 0 <= k < entries.len()
            && (#[trigger] entries[k]).0 as nat == c
            && (entries[k].1 matches Node::Add(ca, cb)
                && derives(entries, ca as nat, *a) && derives(entries, cb as nat, *b)),
        ExprV::Sub(a, b) => exists|k: int| 0 <= k < entries.len()
            && (#[trigger] entries[k]).0 as nat == c
            && (entries[k].1 matches Node::Sub(ca, cb)
                && derives(entries, ca as nat, *a) && derives(entries, cb as nat, *b)),
        ExprV::Shl(a, b) => exists|k: int| 0 <= k < entries.len()
            && (#[trigger] entries[k]).0 as nat == c
            && (entries[k].1 matches Node::Shl(ca, cb)
                && derives(entries, ca as nat, *a) && derives(entries, cb as nat, *b)),
    }
}

/// Every filled slot of the best table carries its expression's true cost.
pub open spec fn table_costs_ok(t: Seq<Option<(usize, Expr)>>) -> bool {
    forall|c: int| 0 <= c < t.len() && (#[trigger] t[c]) is Some
        ==> t[c]->Some_0.0 as nat == cost_v(t[c]->Some_0.1@)
}

/// Every filled slot of the best table is derivable from its class.
pub open spec fn table_derives_ok(entries: Seq<(usize, Node)>, t: Seq<Option<(usize, Expr)>>) -> bool {
    forall|c: int| 0 <= c < t.len() && (#[trigger] t[c]) is Some
        ==> derives(entries, c as nat, t[c]->Some_0.1@)
}

/// The cost a node offers its class, given the children's best costs:
/// base cost plus the saturating sum of the operand classes' entries,
/// defined only when every operand class already has one.
pub open spec fn node_candidate(n: Node, t: Seq<Option<(usize, Expr)>>) -> Option<nat> {
    match n {
        Node::Int(_) => Some(1 as nat),
        Node::Sym(_) => Some(1 as nat),
        Node::Mul(a, b) => binary_candidate(cost_cap(), a, b, t),
        Node::Add(a, b) => binary_candidate(2, a, b, t),
        Node::Sub(a, b) => binary_candidate(2, a, b, t),
        Node::Shl(a, b) => binary_candidate(1, a, b, t),
        Node::Lst(_) => None,
    }
}

pub open spec fn binary_candidate(base: nat, a: usize, b: usize, t: Seq<Option<(usize, Expr)>>) -> Option<nat> {
    if a < t.len() && b < t.len() && t[a as int] is Some && t[b as int] is Some {
        Some(sat_add(sat_add(base, t[a as int]->Some_0.0 as nat), t[b as int]->Some_0.0 as nat))
    } else {
        None
    }
}

/// The expression the extractor would build for node `n` from the table.
pub open spec fn node_expr_match(n: Node, t: Seq<Option<(usize, Expr)>>, e: ExprV) -> bool {
    match n {
        Node::Int(v) => e == ExprV::Int(v as nat),
        Node::Sym(s) => e == ExprV::Sym(s@),
        Node::Mul(a, b) => t[a as int] is Some && t[b as int] is Some
            && e == ExprV::Mul(Box::new(t[a as int]->Some_0.1@), Box::new(t[b as int]->Some_0.1@)),
        Node::Add(a, b) => t[a as int] is Some && t[b as int] is Some
            && e == ExprV::Add(Box::new(t[a as int]->Some_0.1@), Box::new(t[b as int]->Some_0.1@)),
        Node::Sub(a, b) => t[a as int] is Some && t[b as int] is Some
            && e == ExprV::Sub(Box::new(t[a as int]->Some_0.1@), Box::new(t[b as int]->Some_0.1@)),
        Node::Shl(a, b) => t[a as int] is Some && t[b as int] is Some
            && e == ExprV::Shl(Box::new(t[a as int]->Some_0.1@), Box::new(t[b as int]->Some_0.1@)),
        Node::Lst(_) => false,
    }
}

/// No class's entry can be improved by any recorded node.
pub open spec fn table_fixpoint(entries: Seq<(usize, Node)>, t: Seq<Option<(usize, Expr)>>) -> bool {
    forall|k: int| 0 <= k < entries.len()
        && node_candidate((#[trigger] entries[k]).1, t) is Some
        ==> t[entries[k].0 as int] is Some
            && t[entries[k].0 as int]->Some_0.0 as nat
                <= node_candidate(entries[k].1, t)->Some_0
}

/// The cost a slot contributes to the termination measure; an empty slot
/// sits just above the sentinel so filling it always makes progress.
pub open spec fn slot_weight(o: Option<(usize, Expr)>) -> nat {
    match o {
        Some(p) => p.0 as nat,
        None => cost_cap() + 1,
    }
}

pub open spec fn table_measure(t: Seq<Option<(usize, Expr)>>) -> nat
    decreases t.len(),
{
    if t.len() == 0 {
        0
    } else {
        slot_weight(t[0]) + table_measure(t.drop_first())
    }
}

proof fn lemma_measure_mono(t1: Seq<Option<(usize, Expr)>>, t2: Seq<Option<(usize, Expr)>>)
    requires
        t1.len() == t2.len(),
        forall|c: int| 0 <= c < t1.len() ==> slot_weight(#[trigger] t1[c]) <= slot_weight(t2[c]),
    ensures
        table_measure(t1) <= table_measure(t2),
    decreases t1.len(),
{
    if t1.len() > 0 {
        assert forall|c: int| 0 <= c < t1.drop_first().len()
            implies slot_weight(#[trigger] t1.drop_first()[c]) <= slot_weight(t2.drop_first()[c]) by {
            assert(t1.drop_first()[c] == t1[c + 1]);
            assert(t2.drop_first()[c] == t2[c + 1]);
        }
        lemma_measure_mono(t1.drop_first(), t2.drop_first());
    }
}

proof fn lemma_measure_strict(t1: Seq<Option<(usize, Expr)>>, t2: Seq<Option<(usize, Expr)>>, j: int)
    requires
        t1.len() == t2.len(),
        forall|c: int| 0 <= c < t1.len() ==> slot_weight(#[trigger] t1[c]) <= slot_weight(t2[c]),
        0 <= j < t1.len(),
        slot_weight(t1[j]) < slot_weight(t2[j]),
    ensures
        table_measure(t1) < table_measure(t2),
    decreases t1.len(),
{
    assert forall|c: int| 0 <= c < t1.drop_first().len()
        implies slot_weight(#[trigger] t1.drop_first()[c]) <= slot_weight(t2.drop_first()[c]) by {
        assert(t1.drop_first()[c] == t1[c + 1]);
        assert(t2.drop_first()[c] == t2[c + 1]);
    }
    if j == 0 {
        lemma_measure_mono(t1.drop_first(), t2.drop_first());
    } else {
        assert(t1.drop_first()[j - 1] == t1[j]);
        assert(t2.drop_first()[j - 1] == t2[j]);
        lemma_measure_strict(t1.drop_first(), t2.drop_first(), j - 1);
    }
}

/// At a fixpoint the table undercuts every derivable expression: whatever
/// class `c` derives, its table entry exists and costs no more.
pub proof fn lemma_fixpoint_complete(
    entries: Seq<(usize, Node)>,
    t: Seq<Option<(usize, Expr)>>,
    c: nat,
    e: ExprV,
)
    requires
        entries_below(entries, t.len() as nat),
        table_fixpoint(entries, t),
        derives(entries, c, e),
    ensures
        c < t.len(),
        t[c as int] is Some,
        t[c as int]->Some_0.0 as nat <= cost_v(e),
    decreases e, 1nat,
{
    match e {
        ExprV::Int(v) => {
            let k = choose|k: int| 0 <= k < entries.len()
                && (#[trigger] entries[k]).0 as nat == c
                && (entries[k].1 matches Node::Int(w) && w as nat == v);
            assert(entry_ok(entries[k], t.len() as nat));
            assert(node_candidate(entries[k].1, t) == Some(1 as nat));
        }
        ExprV::Sym(name) => {
            let k = choose|k: int| 0 <= k < entries.len()
                && (#[trigger] entries[k]).0 as nat == c
                && (entries[k].1 matches Node::Sym(s) && s@ == name);
            assert(entry_ok(entries[k], t.len() as nat));
            assert(node_candidate(entries[k].1, t) == Some(1 as nat));
        }
        ExprV::Mul(a, b) => {
            let k = choose|k: int| 0 <= k < entries.len()
                && (#[trigger] entries[k]).0 as nat == c
                && (entries[k].1 matches Node::Mul(ca, cb)
                    && derives(entries, ca as nat, *a) && derives(entries, cb as nat, *b));
            assert(entry_ok(entries[k], t.len() as nat));
            complete_binary(entries, t, c, e, k);
        }
        ExprV::Add(a, b) => {
            let k = choose|k: int| 0 <= k < entries.len()
                && (#[trigger] entries[k]).0 as nat == c
                && (entries[k].1 matches Node::Add(ca, cb)
                    && derives(entries, ca as nat, *a) && derives(entries, cb as nat, *b));
            assert(entry_ok(entries[k], t.len() as nat));
            complete_binary(entries, t, c, e, k);
        }
        ExprV::Sub(a, b) => {
            let k = choose|k: int| 0 <= k < entries.len()
                && (#[trigger] entries[k]).0 as nat == c
                && (entries[k].1 matches Node::Sub(ca, cb)
                    && derives(entries, ca as nat, *a) && derives(entries, cb as nat, *b));
            assert(entry_ok(entries[k], t.len() as nat));
            complete_binary(entries, t, c, e, k);
        }
        ExprV::Shl(a, b) => {
            let k = choose|k: int| 0 <= k < entries.len()
                && (#[trigger] entries[k]).0 as nat == c
                && (entries[k].1 matches Node::Shl(ca, cb)
                    && derives(entries, ca as nat, *a) && derives(entries, cb as nat, *b));
            assert(entry_ok(entries[k], t.len() as nat));
            complete_binary(entries, t, c, e, k);
        }
    }
}

/// The binary step of the completeness argument: the chosen node's operand
/// classes satisfy the claim by induction, so the node's candidate, and
/// with it the class's entry, costs no more than `e`.
proof fn complete_binary(
    entries: Seq<(usize, Node)>,
    t: Seq<Option<(usize, Expr)>>,
    c: nat,
    e: ExprV,
    k: int,
)
    requires
        entries_below(entries, t.len() as nat),
        table_fixpoint(entries, t),
        0 <= k < entries.len(),
        entries[k].0 as nat == c,
        match e {
            ExprV::Mul(a, b) => (entries[k].1 matches Node::Mul(ca, cb)
                && derives(entries, ca as nat, *a) && derives(entries, cb as nat, *b)),
            ExprV::Add(a, b) => (entries[k].1 matches Node::Add(ca, cb)
                && derives(entries, ca as nat, *a) && derives(entries, cb as nat, *b)),
            ExprV::Sub(a, b) => (entries[k].1 matches Node::Sub(ca, cb)
                && derives(entries, ca as nat, *a) && derives(entries, cb as nat, *b)),
            ExprV::Shl(a, b) => (entries[k].1 matches Node::Shl(ca, cb)
                && derives(entries, ca as nat, *a) && derives(entries, cb as nat, *b)),
            _ => false,
        },
    ensures
        c < t.len(),
        t[c as int] is Some,
        t[c as int]->Some_0.0 as nat <= cost_v(e),
    decreases e, 0nat,
{
    assert(entry_ok(entries[k], t.len() as nat));
    match e {
        ExprV::Mul(a, b) => {
            if let Node::Mul(ca, cb) = entries[k].1 {
                lemma_fixpoint_complete(entries, t, ca as nat, *a);
                lemma_fixpoint_complete(entries, t, cb as nat, *b);
            }
        }
        ExprV::Add(a, b) => {
            if let Node::Add(ca, cb) = entries[k].1 {
                lemma_fixpoint_complete(entries, t, ca as nat, *a);
                lemma_fixpoint_complete(entries, t, cb as nat, *b);
            }
        }
        ExprV::Sub(a, b) => {
            if let Node::Sub(ca, cb) = entries[k].1 {
                lemma_fixpoint_complete(entries, t, ca as nat, *a);
                lemma_fixpoint_complete(entries, t, cb as nat, *b);
            }
        }
        ExprV::Shl(a, b) => {
            if let Node::Shl(ca, cb) = entries[k].1 {
                lemma_fixpoint_complete(entries, t, ca as nat, *a);
                lemma_fixpoint_complete(entries, t, cb as nat, *b);
            }
        }
        _ => {}
    }
}

/// The cheapest expression node `n` offers its class, given the operand
/// classes' current best entries: defined exactly when the node's
/// candidate cost is, carrying that cost, which is the built expression's
/// true cost.
fn node_best(n: &Node, table: &Vec<Option<(usize, Expr)>>) -> (r: Option<(usize, Expr)>)
    requires
        node_ids_below(*n, table@.len() as nat),
        table_costs_ok(table@),
    ensures
        (r is Some) == (node_candidate(*n, table@) is Some),
        r matches Some(p) ==> p.0 as nat == node_candidate(*n, table@)->Some_0,
        r matches Some(p) ==> p.0 as nat == cost_v(p.1@),
        r matches Some(p) ==> node_expr_match(*n, table@, p.1@),
{
    match n {
        Node::Int(v) => Some((1, int_expr(*v))),
        Node::Sym(s) => Some((1, sym_expr(s))),
        Node::Mul(a, b) => {
            match (&table[*a], &table[*b]) {
                (Some(pa), Some(pb)) => {
                    let c = usize::MAX.saturating_add(pa.0).saturating_add(pb.0);
                    let e = mul_expr(dup(&pa.1), dup(&pb.1));
                    proof {
                        assert(c as nat == sat_add(sat_add(cost_cap(), pa.0 as nat), pb.0 as nat));
                    }
                    Some((c, e))
                }
                _ => None,
            }
        }
        Node::Add(a, b) => {
            match (&table[*a], &table[*b]) {
                (Some(pa), Some(pb)) => {
                    let c = 2usize.saturating_add(pa.0).saturating_add(pb.0);
                    let e = add_expr(dup(&pa.1), dup(&pb.1));
                    proof {
                        assert(c as nat == sat_add(sat_add(2, pa.0 as nat), pb.0 as nat));
                    }
                    Some((c, e))
                }
                _ => None,
            }
        }
        Node::Sub(a, b) => {
            match (&table[*a], &table[*b]) {
                (Some(pa), Some(pb)) => {
                    let c = 2usize.saturating_add(pa.0).saturating_add(pb.0);
                    let e = sub_expr(dup(&pa.1), dup(&pb.1));
                    proof {
                        assert(c as nat == sat_add(sat_add(2, pa.0 as nat), pb.0 as nat));
                    }
                    Some((c, e))
                }
                _ => None,
            }
        }
        Node::Shl(a, b) => {
            match (&table[*a], &table[*b]) {
                (Some(pa), Some(pb)) => {
                    let c = 1usize.saturating_add(pa.0).saturating_add(pb.0);
                    let e = shl_expr(dup(&pa.1), dup(&pb.1));
                    proof {
                        assert(c as nat == sat_add(sat_add(1, pa.0 as nat), pb.0 as nat));
                    }
                    Some((c, e))
                }
                _ => None,
            }
        }
        Node::Lst(_) => None,
    }
}

/// An expression built for a recorded node from derivable child entries is
/// itself derivable from the node's class.
proof fn lemma_match_derives(
    entries: Seq<(usize, Node)>,
    t: Seq<Option<(usize, Expr)>>,
    k: int,
    e: ExprV,
)
    requires
        entries_below(entries, t.len() as nat),
        table_derives_ok(entries, t),
        0 <= k < entries.len(),
        node_expr_match(entries[k].1, t, e),
    ensures
        derives(entries, entries[k].0 as nat, e),
{
    assert(entry_ok(entries[k], t.len() as nat));
}

/// One improvement pass over every recorded node, replacing a class's
/// entry whenever a node offers it strictly cheaper. A pass that improves
/// nothing leaves the table exactly as it was — and then the table is at
/// a fixpoint.
fn relax_pass(entries: &Vec<(usize, Node)>, table: &mut Vec<Option<(usize, Expr)>>) -> (changed: bool)
    requires
        entries_below(entries@, old(table)@.len() as nat),
        table_costs_ok(old(table)@),
        table_derives_ok(entries@, old(table)@),
    ensures
        final(table)@.len() == old(table)@.len(),
        table_costs_ok(final(table)@),
        table_derives_ok(entries@, final(table)@),
        forall|c: int| 0 <= c < old(table)@.len()
            ==> slot_weight(final(table)@[c]) <= slot_weight(#[trigger] old(table)@[c]),
        changed ==> exists|c: int| 0 <= c < old(table)@.len()
            && slot_weight(final(table)@[c]) < slot_weight(#[trigger] old(table)@[c]),
        !changed ==> final(table)@ == old(table)@ && table_fixpoint(entries@, final(table)@),
{
    let n = entries.len();
    let mut changed = false;
    let mut k: usize = 0;
    while k < n
        invariant
            n == entries@.len(),
            k <= n,
            table@.len() == old(table)@.len(),
            entries_below(entries@, table@.len() as nat),
            table_costs_ok(table@),
            table_derives_ok(entries@, table@),
            forall|c: int| 0 <= c < old(table)@.len()
                ==> slot_weight(table@[c]) <= slot_weight(#[trigger] old(table)@[c]),
            changed ==> exists|c: int| 0 <= c < old(table)@.len()
                && slot_weight(table@[c]) < slot_weight(#[trigger] old(table)@[c]),
            !changed ==> table@ == old(table)@,
            !changed ==> forall|kk: int| 0 <= kk < k
                && node_candidate((#[trigger] entries@[kk]).1, table@) is Some
                ==> table@[entries@[kk].0 as int] is Some
                    && table@[entries@[kk].0 as int]->Some_0.0 as nat
                        <= node_candidate(entries@[kk].1, table@)->Some_0,
        decreases n - k,
    {
        proof {
            assert(entry_ok(entries@[k as int], table@.len() as nat));
        }
        let (cid, nd) = &entries[k];
        let cand = node_best(nd, table);
        if let Some((nc, ne)) = cand {
            let improve = match &table[*cid] {
                Some(p) => nc < p.0,
                None => true,
            };
            if improve {
                let ghost pre = table@;
                let ghost nev = ne@;
                table.set(*cid, Some((nc, ne)));
                proof {
                    assert forall|c: int| 0 <= c < table@.len() && (#[trigger] table@[c]) is Some
                        implies table@[c]->Some_0.0 as nat == cost_v(table@[c]->Some_0.1@)
                            && derives(entries@, c as nat, table@[c]->Some_0.1@) by {
                        if c != *cid as int {
                            assert(table@[c] == pre[c]);
                        } else {
                            lemma_match_derives(entries@, pre, k as int, nev);
                        }
                    }
                }
                changed = true;
            }
        }
        k = k + 1;
    }
    changed
}

/// Extraction: the minimum-cost expression of class `root`, from the
/// canonicalized node table of a graph with `slots` ids.
///
/// The result carries its exact cost; when that cost lies below the
/// sentinel the expression is multiplication-free; and nothing derivable
/// from `root` is cheaper — so whenever the class holds any
/// multiplication-free representative of finite cost, a representative
/// still containing a multiplication can never be the one extracted.
pub fn extract_best(entries: &Vec<(usize, Node)>, root: usize, slots: usize) -> (r: Option<(usize, Expr)>)
    requires
        entries_below(entries@, slots as nat),
        (root as nat) < slots as nat,
    ensures
        r matches Some(p) ==> p.0 as nat == cost_v(p.1@),
        r matches Some(p) ==> derives(entries@, root as nat, p.1@),
        r matches Some(p) ==> ((p.0 as nat) < cost_cap() ==> !has_mul(p.1@)),
        forall|e: ExprV| #[trigger] derives(entries@, root as nat, e)
            ==> r is Some && r->Some_0.0 as nat <= cost_v(e),
{
    let mut table: Vec<Option<(usize, Expr)>> = Vec::new();
    let mut i: usize = 0;
    while i < slots
        invariant
            i <= slots,
            table@.len() == i as nat,
            forall|c: int| 0 <= c < i ==> (#[trigger] table@[c]) is None,
        decreases slots - i,
    {
        table.push(None);
        i = i + 1;
    }
    let mut fixed = false;
    while !fixed
        invariant
            table@.len() == slots as nat,
            entries_below(entries@, table@.len() as nat),
            table_costs_ok(table@),
            table_derives_ok(entries@, table@),
            fixed ==> table_fixpoint(entries@, table@),
        decreases table_measure(table@) + (if fixed { 0nat } else { 1nat }),
    {
        let ghost pre = table@;
        let changed = relax_pass(entries, &mut table);
        if !changed {
            fixed = true;
        }
        proof {
            if changed {
                let j = choose|c: int| 0 <= c < pre.len()
                    && slot_weight(table@[c]) < slot_weight(#[trigger] pre[c]);
                lemma_measure_strict(table@, pre, j);
            } else {
                lemma_measure_mono(table@, pre);
            }
        }
    }
    let r = match &table[root] {
        Some(p) => Some((p.0, dup(&p.1))),
        None => None,
    };
    proof {
        if r is Some && (r->Some_0.0 as nat) < cost_cap() {
            lemma_cheap_is_mul_free(r->Some_0.1@);
        }
        assert forall|e: ExprV| #[trigger] derives(entries@, root as nat, e)
            implies r is Some && r->Some_0.0 as nat <= cost_v(e) by {
            lemma_fixpoint_complete(entries@, table@, root as nat, e);
        }
    }
    r
}

/// The cost model's ranking guarantee: a representative still containing
/// a multiplication costs strictly more than any multiplication-free
/// alternative of finite cost.
pub proof fn lemma_mul_free_wins(e_mul: ExprV, e_free: ExprV)
    requires
        has_mul(e_mul),
        !has_mul(e_free),
        cost_v(e_free) < cost_cap(),
    ensures
        cost_v(e_free) < cost_v(e_mul),
{
    lemma_mul_costs_cap(e_mul);
}

/// Extraction always prefers the multiplication-free side: when a class
/// derives a multiplication-free expression of finite cost, what satisfies
/// `extract_best`'s contract for that class is multiplication-free —
/// whatever else the class also holds.
pub proof fn lemma_extraction_prefers_mul_free(
    entries: Seq<(usize, Node)>,
    root: nat,
    r: Option<(usize, Expr)>,
    e_free: ExprV,
)
    requires
        derives(entries, root, e_free),
        !has_mul(e_free),
        cost_v(e_free) < cost_cap(),
        r matches Some(p) ==> p.0 as nat == cost_v(p.1@),
        forall|e: ExprV| #[trigger] derives(entries, root, e)
            ==> r is Some && r->Some_0.0 as nat <= cost_v(e),
    ensures
        r is Some,
        !has_mul(r->Some_0.1@),
{
    assert(r is Some && r->Some_0.0 as nat <= cost_v(e_free));
    lemma_cheap_is_mul_free(r->Some_0.1@);
}

/// Extraction outcomes are deterministic in cost: two results that both
/// satisfy `extract_best`'s contract over one node table and root agree on
/// presence and on cost.
pub proof fn lemma_extract_cost_deterministic(
    entries: Seq<(usize, Node)>,
    root: nat,
    r1: Option<(usize, Expr)>,
    r2: Option<(usize, Expr)>,
)
    requires
        r1 matches Some(p) ==> p.0 as nat == cost_v(p.1@) && derives(entries, root, p.1@),
        r2 matches Some(p) ==> p.0 as nat == cost_v(p.1@) && derives(entries, root, p.1@),
        forall|e: ExprV| #[trigger] derives(entries, root, e)
            ==> r1 is Some && r1->Some_0.0 as nat <= cost_v(e),
        forall|e: ExprV| #[trigger] derives(entries, root, e)
            ==> r2 is Some && r2->Some_0.0 as nat <= cost_v(e),
    ensures
        r1 is Some <==> r2 is Some,
        r1 is Some ==> r1->Some_0.0 == r2->Some_0.0,
{
    if r1 is Some {
        assert(derives(entries, root, r1->Some_0.1@));
    }
    if r2 is Some {
        assert(derives(entries, root, r2->Some_0.1@));
    }
}

} // verus!
