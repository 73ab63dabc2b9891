//! Node payloads, typed handles, and the mathematical meaning of a graph:
//! the value every node would have if everything were computed from scratch,
//! and which nodes lie downstream of which.

use std::marker::PhantomData;
use vstd::prelude::*;

verus! {

/// A generator: `offset` plus the values of the `inputs` nodes, added in
/// order with wrapping `i64` arithmetic.
#[derive(Debug)]
pub struct Formula {
    pub offset: i64,
    pub inputs: Vec<usize>,
}

impl Formula {
    /// A formula that always yields `value`.
    pub fn constant(value: i64) -> (r: Formula)
        ensures
            r.offset == value,
            r.inputs@ == Seq::<usize>::empty(),
    {
        Formula { offset: value, inputs: Vec::new() }
    }

    /// A formula that yields the value of `node`.
    pub fn read<Ty>(node: DcgNode<Ty>) -> (r: Formula)
        ensures
            r.offset == 0,
            r.inputs@ == seq![node.id() as usize],
    {
        let mut inputs: Vec<usize> = Vec::new();
        inputs.push(node.index());
        Formula { offset: 0, inputs }
    }

    /// This formula with the value of `node` added last.
    pub fn plus<Ty>(self, node: DcgNode<Ty>) -> (r: Formula)
        ensures
            r.offset == self.offset,
            r.inputs@ == self.inputs@.push(node.id() as usize),
    {
        let mut inputs = self.inputs;
        inputs.push(node.index());
        Formula { offset: self.offset, inputs }
    }

    /// This formula with `k` added to its offset, wrapping on overflow.
    pub fn shifted(self, k: i64) -> (r: Formula)
        ensures
            r.offset == self.offset.wrapping_add(k),
            r.inputs@ == self.inputs@,
    {
        Formula { offset: self.offset.wrapping_add(k), inputs: self.inputs }
    }
}

/// The payload of a graph node.
#[derive(Debug)]
pub enum Node {
    /// A primitive value, replaced by `Dcg::set`.
    Cell(i64),
    /// A generator that is evaluated on every retrieval.
    Thunk(Formula),
    /// A generator whose result is cached until an incoming edge is dirty.
    Memo(Formula),
}

/// Handle marker for a cell.
pub struct Cell {}

/// Handle marker for a thunk.
pub struct Thunk {}

/// Handle marker for a memo.
pub struct Memo {}

/// A copyable reference to a node, tagged with the node's kind.
pub struct DcgNode<Ty>(pub(crate) usize, pub(crate) PhantomData<Ty>);

impl<Ty> Clone for DcgNode<Ty> {
    fn clone(&self) -> (r: Self)
        ensures
            r.id() == self.id(),
    {
        DcgNode(self.0, PhantomData)
    }
}

impl<Ty> Copy for DcgNode<Ty> {}

impl<Ty> DcgNode<Ty> {
    /// The index of the node that the handle refers to.
    pub closed spec fn id(&self) -> int {
        self.0 as int
    }

    pub(crate) fn at(i: usize) -> (r: Self)
        ensures
            r.id() == i,
    {
        DcgNode(i, PhantomData)
    }

    /// The raw index of the node in its graph.
    pub fn index(&self) -> (r: usize)
        ensures
            r == self.id(),
    {
        self.0
    }
}

/// Every node that `f` reads is among `deps`.
pub open spec fn declares<Ty>(deps: Seq<DcgNode<Ty>>, f: Formula) -> bool {
    forall|k: int|
        0 <= k < f.inputs@.len() ==> exists|j: int|
            0 <= j < deps.len() && #[trigger] deps[j].id() == #[trigger] f.inputs@[k]
}

/// The sum that a formula computes, given the values of earlier nodes.
pub open spec fn formula_eval(offset: i64, inputs: Seq<usize>, vals: Seq<i64>) -> i64
    decreases inputs.len(),
{
    if inputs.len() == 0 {
        offset
    } else {
        formula_eval(offset, inputs.drop_last(), vals).wrapping_add(vals[inputs.last() as int])
    }
}

/// The value of a node given the values of the nodes before it.
pub open spec fn node_eval(node: Node, vals: Seq<i64>) -> i64 {
    match node {
        Node::Cell(v) => v,
        Node::Thunk(f) => formula_eval(f.offset, f.inputs@, vals),
        Node::Memo(f) => formula_eval(f.offset, f.inputs@, vals),
    }
}

/// The from-scratch values of the first `n` nodes.
pub open spec fn values(nodes: Seq<Node>, n: nat) -> Seq<i64>
    decreases n,
{
    if n == 0 {
        Seq::empty()
    } else {
        let prev = values(nodes, (n - 1) as nat);
        prev.push(node_eval(nodes[n - 1], prev))
    }
}

/// The from-scratch value of node `i`.
pub open spec fn value(nodes: Seq<Node>, i: int) -> i64 {
    values(nodes, (i + 1) as nat)[i]
}

/// Node `x` is `c` or lies downstream of `c` along edges that point forward.
pub open spec fn reaches(arcs: Seq<(usize, usize, bool)>, c: int, x: int) -> bool
    decreases x,
{
    if x < 0 {
        false
    } else {
        x == c || exists|e: int|
            0 <= e < arcs.len() && #[trigger] arcs[e].1 == x && arcs[e].0 < x && reaches(
                arcs,
                c,
                arcs[e].0 as int,
            )
    }
}

/// The nodes that a node's generator reads.
pub open spec fn inputs_of(node: Node) -> Seq<usize> {
    match node {
        Node::Cell(_) => Seq::empty(),
        Node::Thunk(f) => f.inputs@,
        Node::Memo(f) => f.inputs@,
    }
}

/// Some edge runs from `a` to `b`.
pub open spec fn has_arc(arcs: Seq<(usize, usize, bool)>, a: int, b: int) -> bool {
    exists|e: int| 0 <= e < arcs.len() && #[trigger] arcs[e].0 == a && arcs[e].1 == b
}

/// Some edge into `i` is dirty.
pub open spec fn dirty_in(arcs: Seq<(usize, usize, bool)>, i: int) -> bool {
    exists|e: int| 0 <= e < arcs.len() && #[trigger] arcs[e].1 == i && arcs[e].2
}

/// Every edge runs from a lower index to a higher one below `n`.
pub open spec fn arcs_forward(arcs: Seq<(usize, usize, bool)>, n: int) -> bool {
    forall|e: int| 0 <= e < arcs.len() ==> #[trigger] arcs[e].0 < arcs[e].1 && arcs[e].1 < n
}

/// Every node reads only earlier nodes, each along a declared edge.
pub open spec fn reads_declared(nodes: Seq<Node>, arcs: Seq<(usize, usize, bool)>) -> bool {
    forall|i: int, k: int|
        0 <= i < nodes.len() && 0 <= k < inputs_of(nodes[i]).len() ==> {
            let j = #[trigger] inputs_of(nodes[i])[k];
            &&& j < i
            &&& has_arc(arcs, j as int, i)
        }
}

/// Some edge into `x` leaves a node below `u` that lies downstream of `c`.
pub open spec fn fed(arcs: Seq<(usize, usize, bool)>, c: int, u: int, x: int) -> bool {
    exists|e: int|
        0 <= e < arcs.len() && #[trigger] arcs[e].1 == x && arcs[e].0 < u && reaches(
            arcs,
            c,
            arcs[e].0 as int,
        )
}

/// Nothing before `c` lies downstream of it.
pub proof fn lemma_reaches_above(arcs: Seq<(usize, usize, bool)>, c: int, x: int)
    requires
        reaches(arcs, c, x),
    ensures
        c <= x,
    decreases x,
{
    if x != c {
        let e = choose|e: int|
            0 <= e < arcs.len() && #[trigger] arcs[e].1 == x && arcs[e].0 < x && reaches(
                arcs,
                c,
                arcs[e].0 as int,
            );
        lemma_reaches_above(arcs, c, arcs[e].0 as int);
    }
}

pub proof fn lemma_values_len(nodes: Seq<Node>, n: nat)
    ensures
        values(nodes, n).len() == n,
    decreases n,
{
    if n > 0 {
        lemma_values_len(nodes, (n - 1) as nat);
    }
}

/// Earlier entries of `values` do not depend on how far it is taken.
pub proof fn lemma_values_prefix(nodes: Seq<Node>, m: nat, n: nat, k: int)
    requires
        m <= n,
        0 <= k < m,
    ensures
        values(nodes, n)[k] == values(nodes, m)[k],
    decreases n,
{
    if n > m {
        lemma_values_prefix(nodes, m, (n - 1) as nat, k);
        lemma_values_len(nodes, (n - 1) as nat);
    }
}

/// `values` reads only the nodes below `n`.
pub proof fn lemma_values_agree(a: Seq<Node>, b: Seq<Node>, n: nat)
    requires
        n <= a.len(),
        n <= b.len(),
        forall|k: int| 0 <= k < n ==> a[k] == b[k],
    ensures
        values(a, n) == values(b, n),
    decreases n,
{
    if n > 0 {
        lemma_values_agree(a, b, (n - 1) as nat);
    }
}

/// A formula only looks at the values of its inputs.
pub proof fn lemma_formula_inputs(offset: i64, inputs: Seq<usize>, v: Seq<i64>, w: Seq<i64>)
    requires
        forall|k: int| 0 <= k < inputs.len() ==> v[#[trigger] inputs[k] as int] == w[inputs[k] as int],
    ensures
        formula_eval(offset, inputs, v) == formula_eval(offset, inputs, w),
    decreases inputs.len(),
{
    if inputs.len() > 0 {
        let d = inputs.drop_last();
        assert forall|k: int| 0 <= k < d.len() implies v[#[trigger] d[k] as int] == w[d[k] as int] by {
            assert(d[k] == inputs[k]);
        }
        lemma_formula_inputs(offset, d, v, w);
        assert(inputs.last() == inputs[inputs.len() - 1]);
    }
}

/// Replacing cell `c` changes no value outside the part downstream of `c`.
pub proof fn lemma_values_outside(
    nodes: Seq<Node>,
    arcs: Seq<(usize, usize, bool)>,
    c: int,
    v: i64,
    n: nat,
)
    requires
        n <= nodes.len(),
        0 <= c < nodes.len(),
        nodes[c] is Cell,
        arcs_forward(arcs, nodes.len() as int),
        reads_declared(nodes, arcs),
    ensures
        forall|k: int|
            0 <= k < n && !reaches(arcs, c, k) ==> #[trigger] values(
                nodes.update(c, Node::Cell(v)),
                n,
            )[k] == values(nodes, n)[k],
    decreases n,
{
    if n > 0 {
        let m = (n - 1) as nat;
        let fresh = nodes.update(c, Node::Cell(v));
        lemma_values_outside(nodes, arcs, c, v, m);
        lemma_values_len(nodes, m);
        lemma_values_len(fresh, m);
        let prev_new = values(fresh, m);
        let prev_old = values(nodes, m);
        if !reaches(arcs, c, m as int) {
            assert(fresh[m as int] == nodes[m as int]);
            let ins = inputs_of(nodes[m as int]);
            assert forall|k: int| 0 <= k < ins.len() implies prev_new[#[trigger] ins[k] as int]
                == prev_old[ins[k] as int] by {
                let j = ins[k];
                assert(j < m && has_arc(arcs, j as int, m as int));
                let e = choose|e: int| 0 <= e < arcs.len() && #[trigger] arcs[e].0 == j && arcs[e].1 == m;
                if reaches(arcs, c, j as int) {
                    assert(arcs[e].1 == m && arcs[e].0 < m && reaches(arcs, c, arcs[e].0 as int));
                    assert(reaches(arcs, c, m as int));
                }
            }
            match nodes[m as int] {
                Node::Cell(_) => {},
                Node::Thunk(f) => {
                    lemma_formula_inputs(f.offset, f.inputs@, prev_new, prev_old);
                },
                Node::Memo(f) => {
                    lemma_formula_inputs(f.offset, f.inputs@, prev_new, prev_old);
                },
            }
        }
        assert forall|k: int|
            0 <= k < n && !reaches(arcs, c, k) implies #[trigger] values(fresh, n)[k] == values(
                nodes,
                n,
            )[k] by {
            if k < m {
                assert(values(fresh, n)[k] == prev_new[k]);
                assert(values(nodes, n)[k] == prev_old[k]);
            }
        }
    }
}

} // verus!
