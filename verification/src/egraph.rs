//! The equivalence-graph collaborator: hash-consed node insertion, class
//! union and canonical-id lookup, provided by the `egg` crate behind a small
//! trusted boundary.
//!
//! The graph is modelled by two names: `graph_find`, the canonical
//! representative of every id, and `graph_ids`, the number of ids handed out
//! so far. Everything else the saturation driver knows about the graph — in
//! particular which node an id stands for — it records itself, in verified
//! code, at the moment of insertion.
use vstd::prelude::*;
use egg::{Id, SymbolLang};

verus! {

/// A node of the equivalence graph; operands are equivalence-class ids.
#[derive(Debug)]
pub enum Node {
    /// The ordered root list of one saturation run.
    Lst(Vec<usize>),
    Mul(usize, usize),
    Add(usize, usize),
    Sub(usize, usize),
    Shl(usize, usize),
    Int(usize),
    Sym(String),
}

/// The operator text a node is interned under: the fixed token of its
/// kind, the decimal digits of a literal, or the symbolic leaf's name —
/// the leaf kinds carry distinct prefixes, so a literal never collides
/// with a symbol whose name happens to be its decimal text.
pub open spec fn node_op(n: Node) -> Seq<char> {
    match n {
        Node::Lst(_) => "l"@,
        Node::Mul(_, _) => "*"@,
        Node::Add(_, _) => "+"@,
        Node::Sub(_, _) => "-"@,
        Node::Shl(_, _) => "<<"@,
        Node::Int(v) => "#"@ + crate::expr::dec_spec(v as nat),
        Node::Sym(s) => "$"@ + s@,
    }
}

/// The operand ids of a node, in order.
pub open spec fn node_children(n: Node) -> Seq<usize> {
    match n {
        Node::Lst(cs) => cs@,
        Node::Mul(a, b) => seq![a, b],
        Node::Add(a, b) => seq![a, b],
        Node::Sub(a, b) => seq![a, b],
        Node::Shl(a, b) => seq![a, b],
        Node::Int(_) => Seq::empty(),
        Node::Sym(_) => Seq::empty(),
    }
}

fn copy_ids(v: &Vec<usize>) -> (r: Vec<usize>)
    ensures
        r@ == v@,
{
    let mut out: Vec<usize> = Vec::new();
    let n = v.len();
    let mut i: usize = 0;
    while i < n
        invariant
            n == v@.len(),
            i <= n,
            out@ == v@.subrange(0, i as int),
        decreases n - i,
    {
        out.push(v[i]);
        proof {
            assert(out@ =~= v@.subrange(0, i as int + 1));
        }
        i = i + 1;
    }
    proof {
        assert(out@ =~= v@);
    }
    out
}

impl Node {
    /// The interning key of the node: its operator text and operand ids.
    pub fn parts(&self) -> (r: (String, Vec<usize>))
        ensures
            r.0@ == node_op(*self),
            r.1@ == node_children(*self),
    {
        match self {
            Node::Lst(cs) => ("l".to_owned(), copy_ids(cs)),
            Node::Mul(a, b) => ("*".to_owned(), vec![*a, *b]),
            Node::Add(a, b) => ("+".to_owned(), vec![*a, *b]),
            Node::Sub(a, b) => ("-".to_owned(), vec![*a, *b]),
            Node::Shl(a, b) => ("<<".to_owned(), vec![*a, *b]),
            Node::Int(v) => {
                let mut t = "#".to_owned();
                let d = crate::expr::usize_to_decimal(*v);
                t.append(d.as_str());
                (t, Vec::new())
            }
            Node::Sym(s) => {
                let mut t = "$".to_owned();
                t.append(s.as_str());
                (t, Vec::new())
            }
        }
    }
}

/// Two nodes carry the same kind and the same content.
pub open spec fn node_like(a: Node, b: Node) -> bool {
    match a {
        Node::Lst(x) => b matches Node::Lst(y) && x@ == y@,
        Node::Mul(a1, b1) => b matches Node::Mul(a2, b2) && a1 == a2 && b1 == b2,
        Node::Add(a1, b1) => b matches Node::Add(a2, b2) && a1 == a2 && b1 == b2,
        Node::Sub(a1, b1) => b matches Node::Sub(a2, b2) && a1 == a2 && b1 == b2,
        Node::Shl(a1, b1) => b matches Node::Shl(a2, b2) && a1 == a2 && b1 == b2,
        Node::Int(v) => b matches Node::Int(w) && v == w,
        Node::Sym(s) => b matches Node::Sym(t) && s@ == t@,
    }
}

/// Executable test for `node_like`.
pub fn node_eq(a: &Node, b: &Node) -> (r: bool)
    ensures
        r == node_like(*a, *b),
{
    match a {
        Node::Lst(x) => if let Node::Lst(y) = b { ids_eq(x, y) } else { false },
        Node::Mul(a1, b1) => if let Node::Mul(a2, b2) = b { *a1 == *a2 && *b1 == *b2 } else { false },
        Node::Add(a1, b1) => if let Node::Add(a2, b2) = b { *a1 == *a2 && *b1 == *b2 } else { false },
        Node::Sub(a1, b1) => if let Node::Sub(a2, b2) = b { *a1 == *a2 && *b1 == *b2 } else { false },
        Node::Shl(a1, b1) => if let Node::Shl(a2, b2) = b { *a1 == *a2 && *b1 == *b2 } else { false },
        Node::Int(v) => if let Node::Int(w) = b { *v == *w } else { false },
        Node::Sym(s) => if let Node::Sym(t) = b { s.eq(t) } else { false },
    }
}

/// A node is like itself.
pub proof fn lemma_node_like_refl(n: Node)
    ensures
        node_like(n, n),
{
}

fn ids_eq(x: &Vec<usize>, y: &Vec<usize>) -> (r: bool)
    ensures
        r == (x@ == y@),
{
    if x.len() != y.len() {
        proof {
            assert(x@ != y@);
        }
        return false;
    }
    let n = x.len();
    let mut i: usize = 0;
    while i < n
        invariant
            n == x@.len(),
            n == y@.len(),
            i <= n,
            forall|j: int| 0 <= j < i ==> x@[j] == y@[j],
        decreases n - i,
    {
        if x[i] != y[i] {
            return false;
        }
        i = i + 1;
    }
    proof {
        assert(x@ =~= y@);
    }
    true
}

/// All operand ids of the node lie below `k`.
pub open spec fn node_ids_below(n: Node, k: nat) -> bool {
    match n {
        Node::Lst(cs) => forall|i: int| 0 <= i < cs@.len() ==> (cs@[i] as nat) < k,
        Node::Mul(a, b) => (a as nat) < k && (b as nat) < k,
        Node::Add(a, b) => (a as nat) < k && (b as nat) < k,
        Node::Sub(a, b) => (a as nat) < k && (b as nat) < k,
        Node::Shl(a, b) => (a as nat) < k && (b as nat) < k,
        Node::Int(_) => true,
        Node::Sym(_) => true,
    }
}

/// The equivalence graph owned by one saturation run.
#[verifier::external_body]
pub struct Graph {
    inner: egg::EGraph<egg::SymbolLang, ()>,
}

/// The canonical representative of an id: two ids denote the same
/// equivalence class exactly when their representatives agree.
pub uninterp spec fn graph_find(g: Graph, id: nat) -> nat;

/// How many ids the graph has handed out; every id below this bound is live.
pub uninterp spec fn graph_ids(g: Graph) -> nat;

/// Two ids lie in one equivalence class.
pub open spec fn same_class(g: Graph, a: nat, b: nat) -> bool {
    graph_find(g, a) == graph_find(g, b)
}

/// Every id live in the first graph keeps its representative in the second.
pub open spec fn finds_preserved(g1: Graph, g2: Graph) -> bool {
    forall|p: nat| p < graph_ids(g1) ==> graph_find(g2, p) == graph_find(g1, p)
}

impl Graph {
    /// Relies on egg's `EGraph::new`: a fresh, empty graph with no ids.
    #[verifier::external_body]
    pub fn empty() -> (g: Graph)
        ensures
            graph_ids(g) == 0,
    {
        Graph { inner: egg::EGraph::new(()) }
    }

    /// Relies on egg's `EGraph::add`: inserts the node, interned under its
    /// operator text and operand ids, with hash-consing — a structurally
    /// identical node is not duplicated — and returns the canonical id of
    /// the node's class. Insertion merges nothing, so every existing id
    /// keeps its representative; the id count stays within the length of
    /// the union-find's backing vector.
    #[verifier::external_body]
    pub fn insert(&mut self, n: &Node) -> (id: usize)
        requires
            node_ids_below(*n, graph_ids(*old(self))),
        ensures
            graph_ids(*old(self)) <= graph_ids(*final(self)),
            graph_ids(*final(self)) <= usize::MAX,
            (id as nat) < graph_ids(*final(self)),
            graph_find(*final(self), id as nat) == id as nat,
            finds_preserved(*old(self), *final(self)),
    {
        let (op, cs) = n.parts();
        let ids: Vec<Id> = cs.into_iter().map(Id::from).collect();
        usize::from(self.inner.add(SymbolLang::new(op, ids)))
    }

    /// Relies on egg's `EGraph::union`: merges the classes of the two ids
    /// and nothing else. It returns true exactly when the classes were
    /// distinct; afterwards two ids are equivalent exactly when they
    /// already were, or they bridge the two merged classes; a refused
    /// merge changes nothing.
    #[verifier::external_body]
    pub fn merge(&mut self, a: usize, b: usize) -> (r: bool)
        requires
            (a as nat) < graph_ids(*old(self)),
            (b as nat) < graph_ids(*old(self)),
        ensures
            graph_ids(*final(self)) == graph_ids(*old(self)),
            r == !same_class(*old(self), a as nat, b as nat),
            same_class(*final(self), a as nat, b as nat),
            forall|p: nat, q: nat| same_class(*old(self), p, q)
                ==> same_class(*final(self), p, q),
            forall|p: nat, q: nat| same_class(*final(self), p, q)
                <==> same_class(*old(self), p, q)
                    || (same_class(*old(self), p, a as nat)
                        && same_class(*old(self), q, b as nat))
                    || (same_class(*old(self), p, b as nat)
                        && same_class(*old(self), q, a as nat)),
            !r ==> forall|p: nat| graph_find(*final(self), p) == graph_find(*old(self), p),
    {
        self.inner.union(Id::from(a), Id::from(b))
    }

    /// Relies on egg's `EGraph::find`: the canonical representative of an
    /// id, itself a live id that is its own representative.
    #[verifier::external_body]
    pub fn canonical(&self, id: usize) -> (r: usize)
        requires
            (id as nat) < graph_ids(*self),
        ensures
            r as nat == graph_find(*self, id as nat),
            (r as nat) < graph_ids(*self),
            graph_find(*self, r as nat) == r as nat,
    {
        usize::from(self.inner.find(Id::from(id)))
    }

    /// Relies on egg's `EGraph::rebuild`: restores the congruence
    /// invariants after a round of merges. Rebuilding only merges classes
    /// further; it never separates equivalent ids and hands out no new ids.
    #[verifier::external_body]
    pub fn restore(&mut self)
        ensures
            graph_ids(*final(self)) == graph_ids(*old(self)),
            forall|p: nat, q: nat| same_class(*old(self), p, q)
                ==> same_class(*final(self), p, q),
    {
        self.inner.rebuild();
    }

    /// Relies on egg's `EGraph::total_size`: the size of the hash-cons
    /// index, the search-size diagnostic reported after a run.
    #[verifier::external_body]
    pub fn size(&self) -> usize {
        self.inner.total_size()
    }
}

} // verus!
