//! The saturation-side view of the equivalence graph: the verified node
//! table that records every inserted node under its id, the literal lookup
//! that rule conditions read, and the four rule appliers.
use vstd::prelude::*;
use crate::egraph::{Graph, Node, graph_find, graph_ids, lemma_node_like_refl, node_eq, node_ids_below, node_like, same_class};
use crate::rules::{decrement_decide, fuse_decide, halve_decide, increment_decide};

verus! {

/// One saturation run's graph together with the library's own record of
/// every node ever inserted, in insertion order, under the id the graph
/// returned for it.
pub struct SatGraph {
    pub graph: Graph,
    pub nodes: Vec<(usize, Node)>,
}

/// A recorded entry is live: its id and its operand ids lie below `k`.
pub open spec fn entry_ok(e: (usize, Node), k: nat) -> bool {
    (e.0 as nat) < k && node_ids_below(e.1, k)
}

/// A childless node, the only kind a literal can be read from.
pub open spec fn is_leaf(n: Node) -> bool {
    n is Int || n is Sym
}

/// The first recorded leaf lying in class `cls`, in insertion order.
pub open spec fn first_leaf(nodes: Seq<(usize, Node)>, g: Graph, cls: nat) -> Option<Node>
    decreases nodes.len(),
{
    if nodes.len() == 0 {
        None
    } else {
        if is_leaf(nodes[0].1) && same_class(g, nodes[0].0 as nat, cls) {
            Some(nodes[0].1)
        } else {
            first_leaf(nodes.drop_first(), g, cls)
        }
    }
}

/// The integer a class exposes: the value of its first leaf when that leaf
/// is a literal, nothing when the class has no leaf or leads with a symbol.
pub open spec fn lit_of(o: Option<Node>) -> Option<usize> {
    match o {
        Some(Node::Int(v)) => Some(v),
        _ => None,
    }
}

/// The literal the rule conditions read from class `cls`.
pub open spec fn class_lit(s: SatGraph, cls: nat) -> Option<usize> {
    lit_of(first_leaf(s.nodes@, s.graph, cls))
}

/// The node table records node `n` under id `id`.
pub open spec fn records(s: SatGraph, id: usize, n: Node) -> bool {
    exists|k: int| 0 <= k < s.nodes@.len()
        && (#[trigger] s.nodes@[k]).0 == id
        && node_like(s.nodes@[k].1, n)
}

/// A recorded node stays recorded when the table only gains entries.
pub proof fn lemma_records_extends(pre: SatGraph, post: SatGraph, id: usize, n: Node)
    requires
        records(pre, id, n),
        table_extends(pre.nodes@, post.nodes@),
    ensures
        records(post, id, n),
{
    let k = choose|k: int| 0 <= k < pre.nodes@.len()
        && (#[trigger] pre.nodes@[k]).0 == id
        && node_like(pre.nodes@[k].1, n);
    assert(post.nodes@[k] == pre.nodes@[k]);
}

/// Operand-id bounds only loosen as the bound grows.
pub proof fn lemma_node_ids_below_mono(n: Node, k1: nat, k2: nat)
    requires
        node_ids_below(n, k1),
        k1 <= k2,
    ensures
        node_ids_below(n, k2),
{
}

impl SatGraph {
    /// Every recorded entry is live in the graph, and the id count stays
    /// within the machine's range.
    pub open spec fn wf(self) -> bool {
        &&& graph_ids(self.graph) <= usize::MAX
        &&& forall|i: int| 0 <= i < self.nodes@.len()
            ==> entry_ok(#[trigger] self.nodes@[i], graph_ids(self.graph))
    }

    /// The graph's id bound.
    pub open spec fn ids(self) -> nat {
        graph_ids(self.graph)
    }

    pub fn empty() -> (s: SatGraph)
        ensures
            s.wf(),
            s.nodes@.len() == 0,
    {
        SatGraph { graph: Graph::empty(), nodes: Vec::new() }
    }

    /// Inserts a node with hash-consing and records it in the node table,
    /// unless the same id already carries the same node there. Insertion
    /// merges no classes: every old id keeps its representative.
    pub fn insert_node(&mut self, n: Node) -> (id: usize)
        requires
            old(self).wf(),
            node_ids_below(n, old(self).ids()),
        ensures
            final(self).wf(),
            old(self).ids() <= final(self).ids(),
            (id as nat) < final(self).ids(),
            graph_find(final(self).graph, id as nat) == id as nat,
            forall|p: nat| p < old(self).ids()
                ==> graph_find(final(self).graph, p) == graph_find(old(self).graph, p),
            final(self).nodes@ == old(self).nodes@.push((id, n))
                || final(self).nodes@ == old(self).nodes@,
            records(*final(self), id, n),
    {
        let id = self.graph.insert(&n);
        let m = self.nodes.len();
        let mut found = false;
        let mut i: usize = 0;
        while i < m
            invariant
                m == self.nodes@.len(),
                i <= m,
                found ==> exists|k: int| 0 <= k < self.nodes@.len()
                    && (#[trigger] self.nodes@[k]).0 == id
                    && node_like(self.nodes@[k].1, n),
            decreases m - i,
        {
            if self.nodes[i].0 == id && node_eq(&self.nodes[i].1, &n) {
                found = true;
                proof {
                    assert(self.nodes@[i as int].0 == id
                        && node_like(self.nodes@[i as int].1, n));
                }
            }
            i = i + 1;
        }
        if !found {
            let ghost gn = n;
            self.nodes.push((id, n));
            proof {
                lemma_node_like_refl(gn);
                assert(self.nodes@[self.nodes@.len() - 1] == (id, gn));
            }
        }
        proof {
            assert forall|i2: int| 0 <= i2 < self.nodes@.len()
                implies entry_ok(#[trigger] self.nodes@[i2], graph_ids(self.graph)) by {
                if i2 < old(self).nodes@.len() {
                    assert(entry_ok(old(self).nodes@[i2], graph_ids(old(self).graph)));
                    lemma_node_ids_below_mono(
                        old(self).nodes@[i2].1,
                        graph_ids(old(self).graph),
                        graph_ids(self.graph),
                    );
                } else {
                    lemma_node_ids_below_mono(
                        self.nodes@[i2].1,
                        graph_ids(old(self).graph),
                        graph_ids(self.graph),
                    );
                }
            }
        }
        id
    }

    /// Unions the classes of two live ids; the node table is untouched.
    /// Returns true exactly when the classes were distinct, and changes
    /// nothing when they were not.
    pub fn merge_classes(&mut self, a: usize, b: usize) -> (r: bool)
        requires
            old(self).wf(),
            (a as nat) < old(self).ids(),
            (b as nat) < old(self).ids(),
        ensures
            final(self).wf(),
            final(self).ids() == old(self).ids(),
            final(self).nodes@ == old(self).nodes@,
            r == !same_class(old(self).graph, a as nat, b as nat),
            same_class(final(self).graph, a as nat, b as nat),
            forall|p: nat, q: nat| same_class(old(self).graph, p, q)
                ==> same_class(final(self).graph, p, q),
            forall|p: nat, q: nat| same_class(final(self).graph, p, q)
                <==> same_class(old(self).graph, p, q)
                    || (same_class(old(self).graph, p, a as nat)
                        && same_class(old(self).graph, q, b as nat))
                    || (same_class(old(self).graph, p, b as nat)
                        && same_class(old(self).graph, q, a as nat)),
            !r ==> forall|p: nat|
                graph_find(final(self).graph, p) == graph_find(old(self).graph, p),
    {
        self.graph.merge(a, b)
    }

    /// The canonical representative of a live id.
    pub fn canonical_of(&self, id: usize) -> (r: usize)
        requires
            self.wf(),
            (id as nat) < self.ids(),
        ensures
            r as nat == graph_find(self.graph, id as nat),
            (r as nat) < self.ids(),
    {
        self.graph.canonical(id)
    }

    /// Restores the graph's congruence invariants after a round of merges;
    /// equivalent ids stay equivalent and no ids appear or vanish.
    pub fn settle(&mut self)
        requires
            old(self).wf(),
        ensures
            final(self).wf(),
            final(self).ids() == old(self).ids(),
            final(self).nodes@ == old(self).nodes@,
            forall|p: nat, q: nat| same_class(old(self).graph, p, q)
                ==> same_class(final(self).graph, p, q),
    {
        self.graph.restore()
    }

    /// Reads the literal reachable from class `cls`: the value of the first
    /// recorded leaf of that class, if that leaf is an integer literal.
    pub fn class_literal(&self, cls: usize) -> (r: Option<usize>)
        requires
            self.wf(),
            (cls as nat) < self.ids(),
        ensures
            r == class_lit(*self, cls as nat),
    {
        let n = self.nodes.len();
        let cc = self.canonical_of(cls);
        let mut i: usize = 0;
        proof {
            assert(self.nodes@.skip(0) =~= self.nodes@);
        }
        while i < n
            invariant
                self.wf(),
                (cls as nat) < self.ids(),
                cc as nat == graph_find(self.graph, cls as nat),
                n == self.nodes@.len(),
                i <= n,
                first_leaf(self.nodes@, self.graph, cls as nat)
                    == first_leaf(self.nodes@.skip(i as int), self.graph, cls as nat),
            decreases n - i,
        {
            let (eid, en) = &self.nodes[i];
            let leaf = match en {
                Node::Int(_) => true,
                Node::Sym(_) => true,
                _ => false,
            };
            proof {
                assert(self.nodes@.skip(i as int)[0] == self.nodes@[i as int]);
                assert(self.nodes@.skip(i as int).drop_first() =~= self.nodes@.skip(i as int + 1));
            }
            if leaf {
                let ec = self.canonical_of(*eid);
                if ec == cc {
                    return match en {
                        Node::Int(v) => Some(*v),
                        _ => None,
                    };
                }
            }
            i = i + 1;
        }
        proof {
            assert(self.nodes@.skip(n as int) =~= Seq::<(usize, Node)>::empty());
        }
        None
    }
}

/// The entries recorded before a rule application survive it unchanged.
pub open spec fn table_extends(older: Seq<(usize, Node)>, newer: Seq<(usize, Node)>) -> bool {
    older.len() <= newer.len()
        && forall|k: int| 0 <= k < older.len() ==> newer[k] == older[k]
}

/// A merge with the matched class touches no other class: any equality
/// that appears among ids live before the rule ran involves the matched
/// class.
proof fn lemma_applier_locality(
    pre: SatGraph,
    mid: SatGraph,
    post: SatGraph,
    eclass: usize,
    t: usize,
)
    requires
        forall|p: nat| p < pre.ids()
            ==> graph_find(mid.graph, p) == graph_find(pre.graph, p),
        same_class(post.graph, eclass as nat, t as nat),
        forall|p: nat, q: nat| same_class(mid.graph, p, q)
            ==> same_class(post.graph, p, q),
        forall|p: nat, q: nat| same_class(post.graph, p, q)
            <==> same_class(mid.graph, p, q)
                || (same_class(mid.graph, p, eclass as nat)
                    && same_class(mid.graph, q, t as nat))
                || (same_class(mid.graph, p, t as nat)
                    && same_class(mid.graph, q, eclass as nat)),
    ensures
        forall|p: nat, q: nat|
            p < pre.ids() && q < pre.ids() && same_class(post.graph, p, q)
                ==> same_class(pre.graph, p, q) || same_class(post.graph, p, eclass as nat),
{
    assert forall|p: nat, q: nat|
        p < pre.ids() && q < pre.ids() && same_class(post.graph, p, q)
            implies same_class(pre.graph, p, q)
                || same_class(post.graph, p, eclass as nat) by {
        if same_class(mid.graph, p, q) {
            assert(graph_find(mid.graph, p) == graph_find(pre.graph, p));
            assert(graph_find(mid.graph, q) == graph_find(pre.graph, q));
        } else if same_class(mid.graph, p, eclass as nat) {
            assert(same_class(post.graph, p, eclass as nat));
        } else {
            assert(same_class(mid.graph, p, t as nat));
            assert(same_class(post.graph, p, t as nat));
            assert(same_class(post.graph, t as nat, eclass as nat));
        }
    }
}

/// What every rule application guarantees: the graph only grows, the node
/// table only gains entries, classes once equal stay equal, no class other
/// than the matched one gains members, a reported id is a fresh union with
/// the matched class, and a silent outcome left the equivalence relation
/// exactly as it was.
pub open spec fn applier_contract(
    pre: SatGraph,
    post: SatGraph,
    eclass: usize,
    r: Option<usize>,
) -> bool {
    &&& post.wf()
    &&& pre.ids() <= post.ids()
    &&& table_extends(pre.nodes@, post.nodes@)
    &&& (forall|p: nat, q: nat|
        p < pre.ids() && q < pre.ids() && same_class(pre.graph, p, q)
            ==> same_class(post.graph, p, q))
    &&& (forall|p: nat, q: nat|
        p < pre.ids() && q < pre.ids() && same_class(post.graph, p, q)
            ==> same_class(pre.graph, p, q) || same_class(post.graph, p, eclass as nat))
    &&& (r matches Some(id) ==> (id as nat) < post.ids()
        && same_class(post.graph, eclass as nat, id as nat))
    &&& (r is None ==> forall|p: nat| p < pre.ids()
        ==> graph_find(post.graph, p) == graph_find(pre.graph, p))
}

/// What Rule 1 must leave behind when it fires on literal `v`: the halved
/// product — or, for `v == 2`, the bare operand — shifted left by one,
/// recorded in the node table with its operand entries and merged into the
/// matched class.
pub open spec fn halve_recorded(post: SatGraph, eclass: usize, y: usize, v: usize) -> bool {
    if v >= 4 {
        exists|ii: usize, mi: usize, oi: usize, si: usize|
            #[trigger] records(post, ii, Node::Int(v / 2))
            && #[trigger] records(post, mi, Node::Mul(ii, y))
            && #[trigger] records(post, oi, Node::Int(1))
            && #[trigger] records(post, si, Node::Shl(mi, oi))
            && same_class(post.graph, eclass as nat, si as nat)
    } else {
        exists|oi: usize, si: usize|
            #[trigger] records(post, oi, Node::Int(1))
            && #[trigger] records(post, si, Node::Shl(y, oi))
            && same_class(post.graph, eclass as nat, si as nat)
    }
}

/// What Rule 2 must leave behind when it fires on literal `v`:
/// `(v-1)*y + y`, recorded with its operand entries and merged into the
/// matched class.
pub open spec fn decrement_recorded(post: SatGraph, eclass: usize, y: usize, v: usize) -> bool {
    exists|ii: usize, mi: usize, ai: usize|
        #[trigger] records(post, ii, Node::Int((v - 1) as usize))
        && #[trigger] records(post, mi, Node::Mul(ii, y))
        && #[trigger] records(post, ai, Node::Add(mi, y))
        && same_class(post.graph, eclass as nat, ai as nat)
}

/// What Rule 3 must leave behind when it fires on literal `v`:
/// `(v+1)*y - y`, recorded with its operand entries and merged into the
/// matched class.
pub open spec fn increment_recorded(post: SatGraph, eclass: usize, y: usize, v: usize) -> bool {
    exists|ii: usize, mi: usize, ai: usize|
        #[trigger] records(post, ii, Node::Int((v + 1) as usize))
        && #[trigger] records(post, mi, Node::Mul(ii, y))
        && #[trigger] records(post, ai, Node::Sub(mi, y))
        && same_class(post.graph, eclass as nat, ai as nat)
}

/// What Rule 4 must leave behind when it fires with summed amount
/// `total`: `x` shifted by `total`, recorded with its literal entry and
/// merged into the matched class.
pub open spec fn fuse_recorded(post: SatGraph, eclass: usize, x: usize, total: usize) -> bool {
    exists|oi: usize, si: usize|
        #[trigger] records(post, oi, Node::Int(total))
        && #[trigger] records(post, si, Node::Shl(x, oi))
        && same_class(post.graph, eclass as nat, si as nat)
}

/// Rule 1's firing condition over the matched operand class.
pub open spec fn halve_fires(pre: SatGraph, x: usize) -> bool {
    let lit = class_lit(pre, x as nat);
    lit is Some && lit->Some_0 % 2 == 0 && lit->Some_0 >= 2
}

/// Rules 2 and 3 share this gate: a literal, odd unless sharing is allowed.
pub open spec fn distribution_gate(pre: SatGraph, x: usize, shared: bool) -> bool {
    let lit = class_lit(pre, x as nat);
    lit is Some && (shared || lit->Some_0 % 2 == 1)
}

/// Rule 4's firing condition: both shift-amount classes expose literals
/// whose sum does not overflow.
pub open spec fn fuse_fires(pre: SatGraph, ycls: usize, zcls: usize) -> bool {
    let vy = class_lit(pre, ycls as nat);
    let vz = class_lit(pre, zcls as nat);
    vy is Some && vz is Some && vy->Some_0 + vz->Some_0 <= usize::MAX
}

/// Rule 1, halve via shift, applied at `eclass`, a class holding
/// `Mul(x, y)`: when `x`'s class exposes an even literal `v >= 2`, it
/// builds `((v/2) * y) << 1` — or `y << 1` when `v/2 == 1`, eliminating
/// the multiply — and unions it with `eclass`. Any other literal, or
/// none, leaves the state untouched.
pub fn apply_halve(s: &mut SatGraph, eclass: usize, x: usize, y: usize) -> (r: Option<usize>)
    requires
        old(s).wf(),
        (eclass as nat) < old(s).ids(),
        (x as nat) < old(s).ids(),
        (y as nat) < old(s).ids(),
    ensures
        applier_contract(*old(s), *final(s), eclass, r),
        halve_fires(*old(s), x)
            ==> halve_recorded(*final(s), eclass, y, class_lit(*old(s), x as nat)->Some_0),
        !halve_fires(*old(s), x) ==> *final(s) == *old(s) && r is None,
{
    let lit = s.class_literal(x);
    if let Some(v) = lit {
        if let Some(half) = halve_decide(v) {
            if half >= 2 {
                let xi = s.insert_node(Node::Int(half));
                let ghost s1 = *s;
                let xym = s.insert_node(Node::Mul(xi, y));
                let ghost s2 = *s;
                let o = s.insert_node(Node::Int(1));
                let ghost s3 = *s;
                let xyo = s.insert_node(Node::Shl(xym, o));
                let ghost s4 = *s;
                let merged = s.merge_classes(eclass, xyo);
                proof {
                    lemma_records_extends(s1, *s, xi, Node::Int(half));
                    lemma_records_extends(s2, *s, xym, Node::Mul(xi, y));
                    lemma_records_extends(s3, *s, o, Node::Int(1));
                    lemma_records_extends(s4, *s, xyo, Node::Shl(xym, o));
                    assert(records(*s, xi, Node::Int(v / 2)));
                    assert(halve_recorded(*s, eclass, y, v));
                    assert forall|p: nat| p < old(s).ids()
                        implies graph_find(s4.graph, p) == graph_find(old(s).graph, p) by {
                        assert(graph_find(s1.graph, p) == graph_find(old(s).graph, p));
                        assert(graph_find(s2.graph, p) == graph_find(s1.graph, p));
                        assert(graph_find(s3.graph, p) == graph_find(s2.graph, p));
                    }
                    lemma_applier_locality(*old(s), s4, *s, eclass, xyo);
                }
                if merged {
                    return Some(xyo);
                } else {
                    return None;
                }
            } else {
                let o = s.insert_node(Node::Int(1));
                let ghost s3 = *s;
                let xyo = s.insert_node(Node::Shl(y, o));
                let ghost s4 = *s;
                let merged = s.merge_classes(eclass, xyo);
                proof {
                    lemma_records_extends(s3, *s, o, Node::Int(1));
                    lemma_records_extends(s4, *s, xyo, Node::Shl(y, o));
                    assert(halve_recorded(*s, eclass, y, v));
                    assert forall|p: nat| p < old(s).ids()
                        implies graph_find(s4.graph, p) == graph_find(old(s).graph, p) by {
                        assert(graph_find(s3.graph, p) == graph_find(old(s).graph, p));
                    }
                    lemma_applier_locality(*old(s), s4, *s, eclass, xyo);
                }
                if merged {
                    return Some(xyo);
                } else {
                    return None;
                }
            }
        }
    }
    None
}

/// Rule 2, decrement distribution, applied at `eclass`, a class holding
/// `Mul(x, y)`: when `x`'s class exposes a literal `v >= 1` that is odd —
/// or any `v >= 1` when sharing is allowed — it builds `(v-1)*y + y` and
/// unions it with `eclass`; otherwise the state is untouched.
pub fn apply_decrement(
    s: &mut SatGraph,
    eclass: usize,
    x: usize,
    y: usize,
    shared: bool,
) -> (r: Option<usize>)
    requires
        old(s).wf(),
        (eclass as nat) < old(s).ids(),
        (x as nat) < old(s).ids(),
        (y as nat) < old(s).ids(),
    ensures
        applier_contract(*old(s), *final(s), eclass, r),
        distribution_gate(*old(s), x, shared) && class_lit(*old(s), x as nat)->Some_0 >= 1
            ==> decrement_recorded(*final(s), eclass, y, class_lit(*old(s), x as nat)->Some_0),
        !(distribution_gate(*old(s), x, shared) && class_lit(*old(s), x as nat)->Some_0 >= 1)
            ==> *final(s) == *old(s) && r is None,
{
    let lit = s.class_literal(x);
    if let Some(v) = lit {
        if let Some(dec) = decrement_decide(v, shared) {
            let xi = s.insert_node(Node::Int(dec));
            let ghost s1 = *s;
            let xym = s.insert_node(Node::Mul(xi, y));
            let ghost s2 = *s;
            let xyy = s.insert_node(Node::Add(xym, y));
            let ghost s3 = *s;
            let merged = s.merge_classes(eclass, xyy);
            proof {
                lemma_records_extends(s1, *s, xi, Node::Int(dec));
                lemma_records_extends(s2, *s, xym, Node::Mul(xi, y));
                lemma_records_extends(s3, *s, xyy, Node::Add(xym, y));
                assert(records(*s, xi, Node::Int((v - 1) as usize)));
                assert(decrement_recorded(*s, eclass, y, v));
                assert forall|p: nat| p < old(s).ids()
                    implies graph_find(s3.graph, p) == graph_find(old(s).graph, p) by {
                    assert(graph_find(s1.graph, p) == graph_find(old(s).graph, p));
                    assert(graph_find(s2.graph, p) == graph_find(s1.graph, p));
                }
                lemma_applier_locality(*old(s), s3, *s, eclass, xyy);
            }
            if merged {
                return Some(xyy);
            } else {
                return None;
            }
        }
    }
    None
}

/// Rule 3, increment distribution, applied at `eclass`, a class holding
/// `Mul(x, y)`: when `x`'s class exposes an odd literal — or any literal
/// when sharing is allowed — whose successor does not overflow, it builds
/// `(v+1)*y - y` and unions it with `eclass`; otherwise the state is
/// untouched.
pub fn apply_increment(
    s: &mut SatGraph,
    eclass: usize,
    x: usize,
    y: usize,
    shared: bool,
) -> (r: Option<usize>)
    requires
        old(s).wf(),
        (eclass as nat) < old(s).ids(),
        (x as nat) < old(s).ids(),
        (y as nat) < old(s).ids(),
    ensures
        applier_contract(*old(s), *final(s), eclass, r),
        distribution_gate(*old(s), x, shared)
            && class_lit(*old(s), x as nat)->Some_0 < usize::MAX
            ==> increment_recorded(*final(s), eclass, y, class_lit(*old(s), x as nat)->Some_0),
        !(distribution_gate(*old(s), x, shared)
            && class_lit(*old(s), x as nat)->Some_0 < usize::MAX)
            ==> *final(s) == *old(s) && r is None,
{
    let lit = s.class_literal(x);
    if let Some(v) = lit {
        if let Some(inc) = increment_decide(v, shared) {
            let xi = s.insert_node(Node::Int(inc));
            let ghost s1 = *s;
            let xym = s.insert_node(Node::Mul(xi, y));
            let ghost s2 = *s;
            let xyy = s.insert_node(Node::Sub(xym, y));
            let ghost s3 = *s;
            let merged = s.merge_classes(eclass, xyy);
            proof {
                lemma_records_extends(s1, *s, xi, Node::Int(inc));
                lemma_records_extends(s2, *s, xym, Node::Mul(xi, y));
                lemma_records_extends(s3, *s, xyy, Node::Sub(xym, y));
                assert(records(*s, xi, Node::Int((v + 1) as usize)));
                assert(increment_recorded(*s, eclass, y, v));
                assert forall|p: nat| p < old(s).ids()
                    implies graph_find(s3.graph, p) == graph_find(old(s).graph, p) by {
                    assert(graph_find(s1.graph, p) == graph_find(old(s).graph, p));
                    assert(graph_find(s2.graph, p) == graph_find(s1.graph, p));
                }
                lemma_applier_locality(*old(s), s3, *s, eclass, xyy);
            }
            if merged {
                return Some(xyy);
            } else {
                return None;
            }
        }
    }
    None
}

/// Rule 4, shift fusion, applied at `eclass`, a class holding a node
/// `Shl(inner, z)` where `inner`'s class holds `Shl(x, y)`: when both
/// shift-amount classes expose literals whose sum does not overflow, it
/// builds `x << (vy + vz)` and unions it with `eclass`; an overflowing
/// sum, or a missing literal, leaves the state untouched.
pub fn apply_fuse(
    s: &mut SatGraph,
    eclass: usize,
    x: usize,
    ycls: usize,
    zcls: usize,
) -> (r: Option<usize>)
    requires
        old(s).wf(),
        (eclass as nat) < old(s).ids(),
        (x as nat) < old(s).ids(),
        (ycls as nat) < old(s).ids(),
        (zcls as nat) < old(s).ids(),
    ensures
        applier_contract(*old(s), *final(s), eclass, r),
        fuse_fires(*old(s), ycls, zcls)
            ==> fuse_recorded(*final(s), eclass, x,
                (class_lit(*old(s), ycls as nat)->Some_0
                    + class_lit(*old(s), zcls as nat)->Some_0) as usize),
        !fuse_fires(*old(s), ycls, zcls) ==> *final(s) == *old(s) && r is None,
{
    let vz = s.class_literal(zcls);
    if let Some(vz) = vz {
        let vy = s.class_literal(ycls);
        if let Some(vy) = vy {
            if let Some(total) = fuse_decide(vy, vz) {
                let zy = s.insert_node(Node::Int(total));
                let ghost s1 = *s;
                let xzy = s.insert_node(Node::Shl(x, zy));
                let ghost s2 = *s;
                let merged = s.merge_classes(eclass, xzy);
                proof {
                    lemma_records_extends(s1, *s, zy, Node::Int(total));
                    lemma_records_extends(s2, *s, xzy, Node::Shl(x, zy));
                }
                if merged {
                    return Some(xzy);
                } else {
                    return None;
                }
            }
        }
    }
    None
}

} // verus!
