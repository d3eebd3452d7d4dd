//! The saturation driver: builds the initial graph from the input
//! coefficients, repeatedly applies the rule set until a full pass yields
//! no new unions or the stop policy fires, and extracts the minimum-cost
//! representative of every term class.
use vstd::prelude::*;
use crate::egraph::{graph_find, graph_ids, node_ids_below, same_class, Node};
use crate::expr::{cost_cap, cost_v, has_mul, Expr, ExprV};
use crate::extract::{derives, entries_below, extract_best};
use crate::sat::{apply_decrement, apply_fuse, apply_halve, apply_increment, entry_ok,
    lemma_records_extends, records, table_extends, SatGraph};

verus! {

/// When the saturation loop halts even though new unions keep appearing:
/// after `max_passes` full passes, or once the graph holds more than
/// `max_nodes` nodes.
pub struct StopPolicy {
    pub max_passes: usize,
    pub max_nodes: usize,
}

impl StopPolicy {
    /// The stock policy: thirty passes, ten thousand nodes.
    pub fn standard() -> (p: StopPolicy)
        ensures
            p.max_passes == 30,
            p.max_nodes == 10000,
    {
        StopPolicy { max_passes: 30, max_nodes: 10000 }
    }
}

/// The graph records term `tid` as the product of the literal `cv` and
/// the symbolic leaf named `name`.
pub open spec fn term_recorded(s: SatGraph, cv: usize, name: String, tid: usize) -> bool {
    exists|ii: usize, si: usize|
        #[trigger] records(s, ii, Node::Int(cv))
        && #[trigger] records(s, si, Node::Sym(name))
        && records(s, tid, Node::Mul(ii, si))
}

/// A recorded term stays recorded when the node table only gains entries.
pub proof fn lemma_term_recorded_extends(
    pre: SatGraph,
    post: SatGraph,
    cv: usize,
    name: String,
    tid: usize,
)
    requires
        term_recorded(pre, cv, name, tid),
        table_extends(pre.nodes@, post.nodes@),
    ensures
        term_recorded(post, cv, name, tid),
{
    let (ii, si) = choose|ii: usize, si: usize|
        #[trigger] records(pre, ii, Node::Int(cv))
        && #[trigger] records(pre, si, Node::Sym(name))
        && records(pre, tid, Node::Mul(ii, si));
    lemma_records_extends(pre, post, ii, Node::Int(cv));
    lemma_records_extends(pre, post, si, Node::Sym(name));
    lemma_records_extends(pre, post, tid, Node::Mul(ii, si));
}

/// Builds the root expression: one `Mul(coefficient, symbol)` term per
/// input coefficient, in input order, all wrapped in one list node.
/// Returns the graph, the term class ids in input order, and the list id.
pub fn build_input(coeffs: &Vec<usize>, sym: &String) -> (r: (SatGraph, Vec<usize>, usize))
    ensures
        r.0.wf(),
        r.1@.len() == coeffs@.len(),
        forall|i: int| 0 <= i < r.1@.len() ==> (#[trigger] r.1@[i] as nat) < r.0.ids(),
        (r.2 as nat) < r.0.ids(),
        forall|i: int| 0 <= i < coeffs@.len()
            ==> #[trigger] term_recorded(r.0, coeffs@[i], *sym, r.1@[i]),
{
    let mut s = SatGraph::empty();
    let mut terms: Vec<usize> = Vec::new();
    let mut lst: Vec<usize> = Vec::new();
    let n = coeffs.len();
    let mut i: usize = 0;
    while i < n
        invariant
            n == coeffs@.len(),
            i <= n,
            s.wf(),
            terms@.len() == i as nat,
            lst@ == terms@,
            forall|j: int| 0 <= j < terms@.len() ==> (#[trigger] terms@[j] as nat) < s.ids(),
            forall|j: int| 0 <= j < i
                ==> #[trigger] term_recorded(s, coeffs@[j], *sym, terms@[j]),
        decreases n - i,
    {
        let ghost s0 = s;
        let ci = s.insert_node(Node::Int(coeffs[i]));
        let ghost s1 = s;
        let sy = s.insert_node(Node::Sym(sym.clone()));
        let ghost s2 = s;
        let m = s.insert_node(Node::Mul(ci, sy));
        terms.push(m);
        lst.push(m);
        proof {
            lemma_records_extends(s1, s, ci, Node::Int(coeffs@[i as int]));
            lemma_records_extends(s2, s, sy, Node::Sym(*sym));
            assert(records(s, m, Node::Mul(ci, sy)));
            assert(term_recorded(s, coeffs@[i as int], *sym, m));
            assert forall|j: int| 0 <= j < i + 1
                implies #[trigger] term_recorded(s, coeffs@[j], *sym, terms@[j]) by {
                if j < i {
                    lemma_term_recorded_extends(s0, s, coeffs@[j], *sym, terms@[j]);
                }
            }
        }
        i = i + 1;
    }
    let ghost s3 = s;
    let root = s.insert_node(Node::Lst(lst));
    proof {
        assert forall|j: int| 0 <= j < coeffs@.len()
            implies #[trigger] term_recorded(s, coeffs@[j], *sym, terms@[j]) by {
            lemma_term_recorded_extends(s3, s, coeffs@[j], *sym, terms@[j]);
        }
    }
    (s, terms, root)
}

/// One full scan over the matches present at the start of the pass. Every
/// `Mul(x, y)` node is offered to Rules 1 to 3 at its class; every
/// `Shl(a, z)` whose operand class records a `Shl(x, y)` is offered to
/// Rule 4. Returns the classes changed by fresh unions, in order.
///
/// A pass that reports no changed classes has performed no union at all:
/// every id keeps exactly the representative it had.
pub fn run_pass(s: &mut SatGraph, shared: bool) -> (changed: Vec<usize>)
    requires
        old(s).wf(),
    ensures
        final(s).wf(),
        old(s).ids() <= final(s).ids(),
        table_extends(old(s).nodes@, final(s).nodes@),
        forall|p: nat, q: nat| p < old(s).ids() && q < old(s).ids()
            && same_class(old(s).graph, p, q) ==> same_class(final(s).graph, p, q),
        changed@.len() == 0 ==> forall|p: nat| p < old(s).ids()
            ==> graph_find(final(s).graph, p) == graph_find(old(s).graph, p),
{
    let n0 = s.nodes.len();
    let mut changed: Vec<usize> = Vec::new();
    let mut k: usize = 0;
    while k < n0
        invariant
            s.wf(),
            n0 <= s.nodes@.len(),
            k <= n0,
            old(s).ids() <= s.ids(),
            table_extends(old(s).nodes@, s.nodes@),
            n0 == old(s).nodes@.len(),
            forall|p: nat, q: nat| p < old(s).ids() && q < old(s).ids()
                && same_class(old(s).graph, p, q) ==> same_class(s.graph, p, q),
            changed@.len() == 0 ==> forall|p: nat| p < old(s).ids()
                ==> graph_find(s.graph, p) == graph_find(old(s).graph, p),
        decreases n0 - k,
    {
        let eid = s.nodes[k].0;
        let info: Option<(usize, usize, bool)> = match &s.nodes[k].1 {
            Node::Mul(a, b) => Some((*a, *b, true)),
            Node::Shl(a, b) => Some((*a, *b, false)),
            _ => None,
        };
        proof {
            assert(entry_ok(s.nodes@[k as int], graph_ids(s.graph)));
        }
        if let Some((a, b, is_mul)) = info {
            if is_mul {
                if let Some(c) = apply_halve(s, eid, a, b) {
                    changed.push(c);
                }
                if let Some(c) = apply_decrement(s, eid, a, b, shared) {
                    changed.push(c);
                }
                if let Some(c) = apply_increment(s, eid, a, b, shared) {
                    changed.push(c);
                }
            } else {
                // Rule 4 matches a nested shift: scan the recorded nodes of
                // the shifted operand's class for an inner shift.
                let ca = s.canonical_of(a);
                let mut j: usize = 0;
                while j < n0
                    invariant
                        s.wf(),
                        n0 <= s.nodes@.len(),
                        j <= n0,
                        old(s).ids() <= s.ids(),
                        table_extends(old(s).nodes@, s.nodes@),
                        n0 == old(s).nodes@.len(),
                        (eid as nat) < s.ids(),
                        (b as nat) < s.ids(),
                        (a as nat) < s.ids(),
                        forall|p: nat, q: nat| p < old(s).ids() && q < old(s).ids()
                            && same_class(old(s).graph, p, q) ==> same_class(s.graph, p, q),
                        changed@.len() == 0 ==> forall|p: nat| p < old(s).ids()
                            ==> graph_find(s.graph, p) == graph_find(old(s).graph, p),
                    decreases n0 - j,
                {
                    let jid = s.nodes[j].0;
                    let inner: Option<(usize, usize)> = match &s.nodes[j].1 {
                        Node::Shl(x, y) => Some((*x, *y)),
                        _ => None,
                    };
                    proof {
                        assert(entry_ok(s.nodes@[j as int], graph_ids(s.graph)));
                    }
                    if let Some((x, y)) = inner {
                        let cj = s.canonical_of(jid);
                        let ca_now = s.canonical_of(a);
                        if cj == ca_now {
                            if let Some(c) = apply_fuse(s, eid, x, y, b) {
                                changed.push(c);
                            }
                        }
                    }
                    j = j + 1;
                }
            }
        }
        k = k + 1;
    }
    changed
}

/// Statistics of one saturation run.
pub struct SatStats {
    /// Full passes performed.
    pub passes: usize,
    /// Fresh unions discovered over all passes.
    pub unions: usize,
    /// True when the loop halted because a full pass found no new union;
    /// false when the stop policy halted it early.
    pub saturated: bool,
}

/// Repeatedly applies the rule set until a full pass yields no new unions
/// or the stop policy fires. Stopping early loses nothing already found:
/// classes once merged stay merged, and the graph remains valid for
/// extraction.
pub fn saturate(s: &mut SatGraph, policy: &StopPolicy, shared: bool) -> (st: SatStats)
    requires
        old(s).wf(),
    ensures
        final(s).wf(),
        old(s).ids() <= final(s).ids(),
        table_extends(old(s).nodes@, final(s).nodes@),
        forall|p: nat, q: nat| p < old(s).ids() && q < old(s).ids()
            && same_class(old(s).graph, p, q) ==> same_class(final(s).graph, p, q),
{
    let mut passes: usize = 0;
    let mut unions: usize = 0;
    let mut saturated = false;
    while passes < policy.max_passes
        invariant
            s.wf(),
            old(s).ids() <= s.ids(),
            table_extends(old(s).nodes@, s.nodes@),
            forall|p: nat, q: nat| p < old(s).ids() && q < old(s).ids()
                && same_class(old(s).graph, p, q) ==> same_class(s.graph, p, q),
        decreases policy.max_passes - passes,
    {
        if s.graph.size() > policy.max_nodes {
            break;
        }
        let changed = run_pass(s, shared);
        passes = passes + 1;
        if changed.len() == 0 {
            saturated = true;
            break;
        }
        unions = unions.saturating_add(changed.len());
        s.settle();
    }
    SatStats { passes, unions, saturated }
}

/// `cn` is `n` with every operand id replaced by its canonical
/// representative.
pub open spec fn canon_node(g: crate::egraph::Graph, n: Node, cn: Node) -> bool {
    match n {
        Node::Lst(cs) => cn matches Node::Lst(ds) && ds@.len() == cs@.len()
            && forall|i: int| 0 <= i < cs@.len()
                ==> ds@[i] as nat == graph_find(g, (#[trigger] cs@[i]) as nat),
        Node::Mul(a, b) => cn matches Node::Mul(ca, cb)
            && ca as nat == graph_find(g, a as nat) && cb as nat == graph_find(g, b as nat),
        Node::Add(a, b) => cn matches Node::Add(ca, cb)
            && ca as nat == graph_find(g, a as nat) && cb as nat == graph_find(g, b as nat),
        Node::Sub(a, b) => cn matches Node::Sub(ca, cb)
            && ca as nat == graph_find(g, a as nat) && cb as nat == graph_find(g, b as nat),
        Node::Shl(a, b) => cn matches Node::Shl(ca, cb)
            && ca as nat == graph_find(g, a as nat) && cb as nat == graph_find(g, b as nat),
        Node::Int(v) => cn matches Node::Int(w) && w == v,
        Node::Sym(nm) => cn matches Node::Sym(t) && t@ == nm@,
    }
}

/// The canonicalized node table: every recorded node with its id and its
/// operand ids replaced by their canonical representatives, paired with a
/// bound lying above every id it mentions. Entry `k` is the canonical
/// image of recorded node `k`.
pub fn canonical_entries(s: &SatGraph) -> (r: (Vec<(usize, Node)>, usize))
    requires
        s.wf(),
    ensures
        entries_below(r.0@, r.1 as nat),
        r.0@.len() == s.nodes@.len(),
        forall|k: int| 0 <= k < s.nodes@.len()
            ==> (#[trigger] r.0@[k]).0 as nat == graph_find(s.graph, s.nodes@[k].0 as nat)
                && canon_node(s.graph, s.nodes@[k].1, r.0@[k].1),
{
    let mut entries: Vec<(usize, Node)> = Vec::new();
    let mut bound: usize = 0;
    let n = s.nodes.len();
    let mut k: usize = 0;
    while k < n
        invariant
            s.wf(),
            n == s.nodes@.len(),
            k <= n,
            entries_below(entries@, bound as nat),
            entries@.len() == k as nat,
            forall|kk: int| 0 <= kk < k
                ==> (#[trigger] entries@[kk]).0 as nat == graph_find(s.graph, s.nodes@[kk].0 as nat)
                    && canon_node(s.graph, s.nodes@[kk].1, entries@[kk].1),
        decreases n - k,
    {
        proof {
            assert(entry_ok(s.nodes@[k as int], graph_ids(s.graph)));
        }
        let cid = s.canonical_of(s.nodes[k].0);
        let cn: Node = match &s.nodes[k].1 {
            Node::Lst(cs) => {
                let mut cl: Vec<usize> = Vec::new();
                let m = cs.len();
                let mut t: usize = 0;
                while t < m
                    invariant
                        s.wf(),
                        m == cs@.len(),
                        t <= m,
                        forall|u: int| 0 <= u < cs@.len() ==> (#[trigger] cs@[u] as nat) < s.ids(),
                        cl@.len() == t as nat,
                        forall|u: int| 0 <= u < cl@.len() ==> (#[trigger] cl@[u] as nat) < s.ids(),
                        forall|u: int| 0 <= u < cl@.len()
                            ==> (#[trigger] cl@[u]) as nat == graph_find(s.graph, cs@[u] as nat),
                    decreases m - t,
                {
                    cl.push(s.canonical_of(cs[t]));
                    t = t + 1;
                }
                Node::Lst(cl)
            }
            Node::Mul(x, y) => Node::Mul(s.canonical_of(*x), s.canonical_of(*y)),
            Node::Add(x, y) => Node::Add(s.canonical_of(*x), s.canonical_of(*y)),
            Node::Sub(x, y) => Node::Sub(s.canonical_of(*x), s.canonical_of(*y)),
            Node::Shl(x, y) => Node::Shl(s.canonical_of(*x), s.canonical_of(*y)),
            Node::Int(v) => Node::Int(*v),
            Node::Sym(nm) => Node::Sym(nm.clone()),
        };
        let ghost bound0 = bound;
        grow_bound(&mut bound, cid, &cn);
        proof {
            assert forall|u: int| 0 <= u < entries@.len()
                implies entry_ok(#[trigger] entries@[u], bound as nat) by {
                assert(entry_ok(entries@[u], bound0 as nat));
                crate::sat::lemma_node_ids_below_mono(entries@[u].1, bound0 as nat, bound as nat);
            }
        }
        entries.push((cid, cn));
        k = k + 1;
    }
    (entries, bound)
}

/// Raises the bound above the entry's id and operand ids, all of which lie
/// below the id count and so below the integer ceiling.
fn grow_bound(bound: &mut usize, cid: usize, cn: &Node)
    requires
        (cid as nat) < usize::MAX,
        node_ids_below(*cn, (usize::MAX) as nat),
    ensures
        *old(bound) <= *final(bound),
        (cid as nat) < *final(bound) as nat,
        node_ids_below(*cn, *final(bound) as nat),
{
    let mut need: usize = cid;
    match cn {
        Node::Lst(cs) => {
            let m = cs.len();
            let mut t: usize = 0;
            while t < m
                invariant
                    m == cs@.len(),
                    t <= m,
                    need >= cid,
                    need < usize::MAX,
                    forall|u: int| 0 <= u < cs@.len() ==> (#[trigger] cs@[u] as nat) < usize::MAX,
                    forall|u: int| 0 <= u < t ==> (#[trigger] cs@[u]) <= need,
                decreases m - t,
            {
                if cs[t] > need {
                    need = cs[t];
                }
                t = t + 1;
            }
        }
        Node::Mul(x, y) => {
            need = max2(need, max2(*x, *y));
        }
        Node::Add(x, y) => {
            need = max2(need, max2(*x, *y));
        }
        Node::Sub(x, y) => {
            need = max2(need, max2(*x, *y));
        }
        Node::Shl(x, y) => {
            need = max2(need, max2(*x, *y));
        }
        Node::Int(_) => {}
        Node::Sym(_) => {}
    }
    if need + 1 > *bound {
        *bound = need + 1;
    }
}

fn max2(a: usize, b: usize) -> (r: usize)
    ensures
        r >= a,
        r >= b,
        r == a || r == b,
{
    if a >= b { a } else { b }
}


/// A recorded term survives canonicalization: the canonical node table
/// derives, from the term's canonical class, the product of its literal
/// and the symbolic leaf.
proof fn lemma_term_derives(
    s: SatGraph,
    entries: Seq<(usize, Node)>,
    cv: usize,
    name: String,
    tid: usize,
)
    requires
        s.wf(),
        entries.len() == s.nodes@.len(),
        forall|k: int| 0 <= k < s.nodes@.len()
            ==> (#[trigger] entries[k]).0 as nat == graph_find(s.graph, s.nodes@[k].0 as nat)
                && canon_node(s.graph, s.nodes@[k].1, entries[k].1),
        term_recorded(s, cv, name, tid),
    ensures
        derives(entries, graph_find(s.graph, tid as nat),
            ExprV::Mul(Box::new(ExprV::Int(cv as nat)), Box::new(ExprV::Sym(name@)))),
        exists|k: int| 0 <= k < entries.len()
            && (#[trigger] entries[k]).0 as nat == graph_find(s.graph, tid as nat),
{
    let (ii, si) = choose|ii: usize, si: usize|
        #[trigger] records(s, ii, Node::Int(cv))
        && #[trigger] records(s, si, Node::Sym(name))
        && records(s, tid, Node::Mul(ii, si));
    let k1 = choose|k: int| 0 <= k < s.nodes@.len()
        && (#[trigger] s.nodes@[k]).0 == ii
        && crate::egraph::node_like(s.nodes@[k].1, Node::Int(cv));
    let k2 = choose|k: int| 0 <= k < s.nodes@.len()
        && (#[trigger] s.nodes@[k]).0 == si
        && crate::egraph::node_like(s.nodes@[k].1, Node::Sym(name));
    let k3 = choose|k: int| 0 <= k < s.nodes@.len()
        && (#[trigger] s.nodes@[k]).0 == tid
        && crate::egraph::node_like(s.nodes@[k].1, Node::Mul(ii, si));
    assert(s.nodes@[k3].1 == Node::Mul(ii, si));
    assert(entries[k1].0 as nat == graph_find(s.graph, ii as nat));
    assert(entries[k1].1 matches Node::Int(w) && w == cv);
    assert(derives(entries, graph_find(s.graph, ii as nat), ExprV::Int(cv as nat)));
    assert(entries[k2].0 as nat == graph_find(s.graph, si as nat));
    assert(derives(entries, graph_find(s.graph, si as nat), ExprV::Sym(name@)));
    assert(entries[k3].0 as nat == graph_find(s.graph, tid as nat));
    assert(entries[k3].1 matches Node::Mul(ca, cb)
        && ca as nat == graph_find(s.graph, ii as nat)
        && cb as nat == graph_find(s.graph, si as nat));
    assert(derives(entries, graph_find(s.graph, tid as nat),
        ExprV::Mul(Box::new(ExprV::Int(cv as nat)), Box::new(ExprV::Sym(name@)))));
}

/// The outcome of one run: per input term, in input order, the extracted
/// minimum-cost expression with its cost; the total number of materialized
/// nodes as a search-size diagnostic; and the saturation statistics.
pub struct RunOutcome {
    pub results: Vec<Option<(usize, Expr)>>,
    pub entries: Vec<(usize, Node)>,
    pub bound: usize,
    pub term_classes: Vec<usize>,
    pub size: usize,
    pub stats: SatStats,
}

/// One whole run: build the graph from the coefficients, saturate it under
/// the stop policy, and extract every term class independently, preserving
/// input order. For every coefficient, in input order: its canonical class
/// in the final node table derives the term's own product, extraction
/// succeeds, and the extracted expression is a cheapest derivable
/// representative of that class, carrying its exact cost — below the
/// sentinel it is multiplication-free.
pub fn run(coeffs: &Vec<usize>, sym: &String, shared: bool, policy: &StopPolicy) -> (out: RunOutcome)
    ensures
        out.results@.len() == coeffs@.len(),
        out.term_classes@.len() == coeffs@.len(),
        entries_below(out.entries@, out.bound as nat),
        forall|i: int| 0 <= i < coeffs@.len()
            ==> derives(out.entries@, (#[trigger] out.term_classes@[i]) as nat,
                ExprV::Mul(Box::new(ExprV::Int(coeffs@[i] as nat)), Box::new(ExprV::Sym(sym@)))),
        forall|i: int| 0 <= i < coeffs@.len() ==> (#[trigger] out.results@[i]) is Some,
        forall|i: int| 0 <= i < coeffs@.len()
            ==> ((#[trigger] out.results@[i]) matches Some(p)
                ==> p.0 as nat == cost_v(p.1@)
                    && ((p.0 as nat) < cost_cap() ==> !has_mul(p.1@))
                    && derives(out.entries@, out.term_classes@[i] as nat, p.1@)),
        forall|i: int, e: ExprV| 0 <= i < coeffs@.len()
            && #[trigger] derives(out.entries@, (#[trigger] out.term_classes@[i]) as nat, e)
            ==> (out.results@[i] matches Some(p) && p.0 as nat <= cost_v(e)),
{
    let (mut s, terms, _root) = build_input(coeffs, sym);
    let ghost sb = s;
    let st = saturate(&mut s, policy, shared);
    proof {
        assert forall|j: int| 0 <= j < coeffs@.len()
            implies #[trigger] term_recorded(s, coeffs@[j], *sym, terms@[j]) by {
            lemma_term_recorded_extends(sb, s, coeffs@[j], *sym, terms@[j]);
        }
    }
    let (entries, bound) = canonical_entries(&s);
    let mut results: Vec<Option<(usize, Expr)>> = Vec::new();
    let mut tclasses: Vec<usize> = Vec::new();
    let n = terms.len();
    let mut i: usize = 0;
    while i < n
        invariant
            n == terms@.len(),
            n == coeffs@.len(),
            i <= n,
            s.wf(),
            forall|j: int| 0 <= j < terms@.len() ==> (#[trigger] terms@[j] as nat) < s.ids(),
            forall|j: int| 0 <= j < coeffs@.len()
                ==> #[trigger] term_recorded(s, coeffs@[j], *sym, terms@[j]),
            entries@.len() == s.nodes@.len(),
            forall|k: int| 0 <= k < s.nodes@.len()
                ==> (#[trigger] entries@[k]).0 as nat == graph_find(s.graph, s.nodes@[k].0 as nat)
                    && canon_node(s.graph, s.nodes@[k].1, entries@[k].1),
            entries_below(entries@, bound as nat),
            results@.len() == i as nat,
            tclasses@.len() == i as nat,
            forall|j: int| 0 <= j < i
                ==> derives(entries@, (#[trigger] tclasses@[j]) as nat,
                    ExprV::Mul(Box::new(ExprV::Int(coeffs@[j] as nat)), Box::new(ExprV::Sym(sym@)))),
            forall|j: int| 0 <= j < i ==> (#[trigger] results@[j]) is Some,
            forall|j: int| 0 <= j < i
                ==> ((#[trigger] results@[j]) matches Some(p)
                    ==> p.0 as nat == cost_v(p.1@)
                        && ((p.0 as nat) < cost_cap() ==> !has_mul(p.1@))
                        && derives(entries@, tclasses@[j] as nat, p.1@)),
            forall|j: int, e: ExprV| 0 <= j < i
                && #[trigger] derives(entries@, (#[trigger] tclasses@[j]) as nat, e)
                ==> (results@[j] matches Some(p) && p.0 as nat <= cost_v(e)),
        decreases n - i,
    {
        let rc = s.canonical_of(terms[i]);
        proof {
            lemma_term_derives(s, entries@, coeffs@[i as int], *sym, terms@[i as int]);
            let k = choose|k: int| 0 <= k < entries@.len()
                && (#[trigger] entries@[k]).0 as nat == graph_find(s.graph, terms@[i as int] as nat);
            assert(entry_ok(entries@[k], bound as nat));
        }
        let r = extract_best(&entries, rc, bound);
        proof {
            assert(derives(entries@, rc as nat,
                ExprV::Mul(Box::new(ExprV::Int(coeffs@[i as int] as nat)),
                    Box::new(ExprV::Sym(sym@)))));
            assert(r is Some);
        }
        results.push(r);
        tclasses.push(rc);
        i = i + 1;
    }
    let size = s.graph.size();
    RunOutcome { results, entries, bound, term_classes: tclasses, size, stats: st }
}

} // verus!
