//! The dynamic computation graph: construction, retrieval and mutation.

use crate::graph::{
    add_arc, add_vertex, arc_flags, arc_list, arcs_at, empty_graph, node_total, set_arc_dirty,
    INDEX_LIMIT,
};
use crate::model::{
    arcs_forward, declares, dirty_in, formula_eval, has_arc, inputs_of, lemma_formula_inputs,
    fed, lemma_reaches_above, lemma_values_agree, lemma_values_len, lemma_values_outside, lemma_values_prefix, node_eval, reaches,
    reads_declared, value, values, Cell, DcgNode, Formula, Memo, Node, Thunk,
};
use petgraph::graph::Graph;
use vstd::prelude::*;

verus! {

/// A graph of cells, thunks and memos over `i64` values.
pub struct Dcg {
    graph: Graph<(), bool>,
    nodes: Vec<Node>,
    cache: Vec<Option<i64>>,
}

impl Dcg {
    /// The payload of every node, by index.
    pub closed spec fn kinds(&self) -> Seq<Node> {
        self.nodes@
    }

    /// The cached result of every node (`None` but for computed memos).
    pub closed spec fn caches(&self) -> Seq<Option<i64>> {
        self.cache@
    }

    /// The edges, by index: (dependency, dependent, dirty).
    pub closed spec fn arcs(&self) -> Seq<(usize, usize, bool)> {
        arc_list(self.graph)
    }

    /// A memo whose incoming edges are all clean holds its from-scratch value.
    pub open spec fn caches_valid(&self) -> bool {
        forall|i: int|
            0 <= i < self.kinds().len() && #[trigger] self.kinds()[i] is Memo
                && self.caches()[i] is Some && !dirty_in(self.arcs(), i) ==> self.caches()[i]
                == Some(value(self.kinds(), i))
    }

    /// What retrieving node `i` from `before` returns and leaves behind: the
    /// from-scratch value; node payloads and edge endpoints unchanged; a cell,
    /// or a memo with a cache and clean incoming edges, leaves the graph as it
    /// was (the memo returning its cache); any other memo caches the result
    /// and cleans all its incoming edges.
    pub open spec fn fetched(before: Dcg, after: Dcg, i: int, r: i64) -> bool {
        &&& r == value(before.kinds(), i)
        &&& after.kinds() == before.kinds()
        &&& after.arcs().len() == before.arcs().len()
        &&& forall|e: int|
            0 <= e < before.arcs().len() ==> (#[trigger] after.arcs()[e]).0 == before.arcs()[e].0
                && after.arcs()[e].1 == before.arcs()[e].1
        &&& before.kinds()[i] is Cell ==> after == before
        &&& before.kinds()[i] is Memo ==> if before.caches()[i] is Some && !dirty_in(before.arcs(), i) {
            &&& after == before
            &&& before.caches()[i] == Some(r)
        } else {
            &&& after.caches()[i] == Some(r)
            &&& !dirty_in(after.arcs(), i)
        }
    }

    /// What setting cell `c` of `before` to `v` returns and leaves behind: the
    /// cell's previous value; the cell holding `v`; caches unchanged; and each
    /// edge dirty when it was before or when its source lies downstream of `c`.
    pub open spec fn assigned(before: Dcg, after: Dcg, c: int, v: i64, r: i64) -> bool {
        &&& before.kinds()[c] == Node::Cell(r)
        &&& after.kinds() == before.kinds().update(c, Node::Cell(v))
        &&& after.caches() == before.caches()
        &&& after.arcs().len() == before.arcs().len()
        &&& forall|e: int|
            0 <= e < before.arcs().len() ==> #[trigger] after.arcs()[e] == (
                before.arcs()[e].0,
                before.arcs()[e].1,
                before.arcs()[e].2 || reaches(before.arcs(), c, before.arcs()[e].0 as int),
            )
    }

    /// Payloads, caches and graph nodes line up; counts fit the graph's
    /// indices; every edge points forward; every generator reads only earlier
    /// nodes along declared edges; and clean cached memos are up to date.
    pub closed spec fn wf(&self) -> bool {
        &&& self.nodes@.len() == self.cache@.len()
        &&& self.nodes@.len() == node_total(self.graph)
        &&& self.nodes@.len() < INDEX_LIMIT
        &&& self.arcs().len() < INDEX_LIMIT
        &&& arcs_forward(self.arcs(), self.nodes@.len() as int)
        &&& reads_declared(self.nodes@, self.arcs())
        &&& self.caches_valid()
    }

    /// Creates an empty graph.
    pub fn new() -> (r: Self)
        ensures
            r.wf(),
            r.kinds().len() == 0,
            r.arcs().len() == 0,
    {
        Dcg { graph: empty_graph(), nodes: Vec::new(), cache: Vec::new() }
    }

    /// The number of nodes.
    pub fn node_count(&self) -> (r: usize)
        requires
            self.wf(),
        ensures
            r == self.kinds().len(),
    {
        self.nodes.len()
    }

    /// Adds `node` and an edge into it from each of `deps`, in order; each
    /// edge starts dirty exactly when its dependency has a dirty incoming edge.
    fn insert(&mut self, node: Node, deps: &Vec<usize>) -> (r: usize)
        requires
            old(self).wf(),
            old(self).kinds().len() + 1 < INDEX_LIMIT,
            old(self).arcs().len() + deps@.len() < INDEX_LIMIT,
            forall|k: int| 0 <= k < deps@.len() ==> #[trigger] deps@[k] < old(self).kinds().len(),
            forall|k: int| 0 <= k < inputs_of(node).len() ==> deps@.contains(#[trigger] inputs_of(node)[k]),
        ensures
            final(self).wf(),
            r == old(self).kinds().len(),
            final(self).kinds() == old(self).kinds().push(node),
            final(self).caches() == old(self).caches().push(None),
            final(self).arcs().len() == old(self).arcs().len() + deps@.len(),
            forall|e: int| 0 <= e < old(self).arcs().len() ==> #[trigger] final(self).arcs()[e] == old(self).arcs()[e],
            forall|k: int|
                0 <= k < deps@.len() ==> #[trigger] final(self).arcs()[old(self).arcs().len() + k] == (
                    deps@[k],
                    r,
                    dirty_in(old(self).arcs(), deps@[k] as int),
                ),
    {
        let ghost nodes0 = self.nodes@;
        let ghost arcs0 = self.arcs();
        let mut states: Vec<bool> = Vec::new();
        let mut k: usize = 0;
        while k < deps.len()
            invariant
                self.wf(),
                0 <= k <= deps@.len(),
                states@.len() == k,
                forall|m: int| 0 <= m < deps@.len() ==> #[trigger] deps@[m] < self.kinds().len(),
                forall|m: int| 0 <= m < k ==> #[trigger] states@[m] == dirty_in(self.arcs(), deps@[m] as int),
            decreases deps@.len() - k,
        {
            let d = self.is_dirty(deps[k]);
            states.push(d);
            k += 1;
        }
        let idx = add_vertex(&mut self.graph);
        self.nodes.push(node);
        self.cache.push(None);
        proof {
            lemma_values_agree(nodes0, self.nodes@, nodes0.len());
            assert forall|i: int| 0 <= i < nodes0.len() implies #[trigger] value(self.nodes@, i) == value(nodes0, i) by {
                lemma_values_len(nodes0, nodes0.len());
                lemma_values_prefix(nodes0, (i + 1) as nat, nodes0.len(), i);
                lemma_values_prefix(self.nodes@, (i + 1) as nat, nodes0.len(), i);
            }
        }
        let mut k: usize = 0;
        while k < deps.len()
            invariant
                0 <= k <= deps@.len(),
                states@.len() == deps@.len(),
                idx == nodes0.len(),
                self.nodes@ == nodes0.push(node),
                self.cache@ == old(self).cache@.push(None),
                self.nodes@.len() == node_total(self.graph),
                self.nodes@.len() < INDEX_LIMIT,
                arcs0 == old(self).arcs(),
                arcs0.len() + deps@.len() < INDEX_LIMIT,
                forall|m: int| 0 <= m < deps@.len() ==> #[trigger] deps@[m] < nodes0.len(),
                forall|m: int| 0 <= m < deps@.len() ==> #[trigger] states@[m] == dirty_in(arcs0, deps@[m] as int),
                self.arcs().len() == arcs0.len() + k,
                forall|e: int| 0 <= e < arcs0.len() ==> #[trigger] self.arcs()[e] == arcs0[e],
                forall|m: int| 0 <= m < k ==> #[trigger] self.arcs()[arcs0.len() + m] == (deps@[m], idx, states@[m]),
            decreases deps@.len() - k,
        {
            add_arc(&mut self.graph, deps[k], idx, states[k]);
            k += 1;
        }
        proof {
            let nodes1 = self.nodes@;
            let arcs1 = self.arcs();
            assert(arcs_forward(arcs1, nodes1.len() as int)) by {
                assert forall|e: int| 0 <= e < arcs1.len() implies #[trigger] arcs1[e].0 < arcs1[e].1 && arcs1[e].1 < nodes1.len() by {
                    if e < arcs0.len() {
                        assert(arcs1[e] == arcs0[e]);
                    } else {
                        assert(arcs1[arcs0.len() + (e - arcs0.len())] == (deps@[e - arcs0.len()], idx, states@[e - arcs0.len()]));
                    }
                }
            }
            assert forall|i: int, k: int|
                0 <= i < nodes1.len() && 0 <= k < inputs_of(nodes1[i]).len() implies {
                    let j = #[trigger] inputs_of(nodes1[i])[k];
                    &&& j < i
                    &&& has_arc(arcs1, j as int, i)
                } by {
                let j = inputs_of(nodes1[i])[k];
                if i < nodes0.len() {
                    assert(nodes1[i] == nodes0[i]);
                    assert(inputs_of(nodes0[i])[k] == j);
                    assert(j < i && has_arc(arcs0, j as int, i));
                    let e = choose|e: int| 0 <= e < arcs0.len() && #[trigger] arcs0[e].0 == j && arcs0[e].1 == i;
                    assert(arcs1[e] == arcs0[e]);
                    assert(arcs1[e].0 == j && arcs1[e].1 == i);
                    assert(has_arc(arcs1, j as int, i));
                } else {
                    assert(nodes1[i] == node);
                    assert(deps@.contains(inputs_of(node)[k]));
                    let m = choose|m: int| 0 <= m < deps@.len() && deps@[m] == inputs_of(node)[k];
                    assert(deps@[m] < nodes0.len());
                    let e = arcs0.len() + m;
                    assert(arcs1[e] == (deps@[m], idx, states@[m]));
                    assert(arcs1[e].0 == j && arcs1[e].1 == i);
                    assert(has_arc(arcs1, j as int, i));
                }
            }
            assert forall|i: int| 0 <= i < nodes0.len() implies dirty_in(arcs1, i) == dirty_in(arcs0, i) by {
                if dirty_in(arcs1, i) {
                    let e = choose|e: int| 0 <= e < arcs1.len() && #[trigger] arcs1[e].1 == i && arcs1[e].2;
                    if e >= arcs0.len() {
                        assert(arcs1[arcs0.len() + (e - arcs0.len())].1 == idx);
                    }
                }
                if dirty_in(arcs0, i) {
                    let e = choose|e: int| 0 <= e < arcs0.len() && #[trigger] arcs0[e].1 == i && arcs0[e].2;
                    assert(arcs1[e] == arcs0[e]);
                }
            }
            assert forall|i: int|
                0 <= i < nodes1.len() && #[trigger] nodes1[i] is Memo && self.cache@[i] is Some
                    && !dirty_in(arcs1, i) implies self.cache@[i] == Some(value(nodes1, i)) by {
                assert(value(nodes1, i) == value(nodes0, i));
            }
            assert forall|m: int| 0 <= m < deps@.len() implies #[trigger] arcs1[arcs0.len() + m] == (
                    deps@[m],
                    idx,
                    dirty_in(arcs0, deps@[m] as int),
                ) by {}
        }
        idx
    }

    /// Adds a thunk computing `thunk` and an edge from each dependency, in order;
    /// each edge starts dirty exactly when its dependency has a dirty incoming edge.
    pub fn thunk<Ty>(&mut self, thunk: Formula, dependencies: &[DcgNode<Ty>]) -> (r: DcgNode<Thunk>)
        requires
            old(self).wf(),
            old(self).kinds().len() + 1 < INDEX_LIMIT,
            old(self).arcs().len() + dependencies@.len() < INDEX_LIMIT,
            forall|k: int| 0 <= k < dependencies@.len() ==> 0 <= #[trigger] dependencies@[k].id() < old(self).kinds().len(),
            declares(dependencies@, thunk),
        ensures
            final(self).wf(),
            r.id() == old(self).kinds().len(),
            final(self).kinds() == old(self).kinds().push(Node::Thunk(thunk)),
            final(self).caches() == old(self).caches().push(None),
            final(self).arcs().len() == old(self).arcs().len() + dependencies@.len(),
            forall|e: int| 0 <= e < old(self).arcs().len() ==> #[trigger] final(self).arcs()[e] == old(self).arcs()[e],
            forall|k: int|
                0 <= k < dependencies@.len() ==> {
                    let (a, b, d) = #[trigger] final(self).arcs()[old(self).arcs().len() + k];
                    &&& a == dependencies@[k].id()
                    &&& b == r.id()
                    &&& d == dirty_in(old(self).arcs(), dependencies@[k].id())
                },
    {
        let ids = indices(dependencies);
        let ghost f = thunk;
        let node = Node::Thunk(thunk);
        proof {
            assert forall|k: int| 0 <= k < ids@.len() implies #[trigger] ids@[k] < old(self).kinds().len() by {
                assert(ids@[k] == dependencies@[k].id());
            }
            assert forall|k: int| 0 <= k < inputs_of(node).len() implies ids@.contains(#[trigger] inputs_of(node)[k]) by {
                assert(inputs_of(node) == f.inputs@);
                let x = f.inputs@[k];
                let j = choose|j: int| 0 <= j < dependencies@.len() && #[trigger] dependencies@[j].id() == x;
                assert(ids@[j] == dependencies@[j].id());
            }
        }
        let idx = self.insert(node, &ids);
        DcgNode::at(idx)
    }

    /// Adds a memo computing `memo`, with no cached value yet, and an edge from
    /// each dependency as `thunk` does.
    pub fn memo<Ty>(&mut self, memo: Formula, dependencies: &[DcgNode<Ty>]) -> (r: DcgNode<Memo>)
        requires
            old(self).wf(),
            old(self).kinds().len() + 1 < INDEX_LIMIT,
            old(self).arcs().len() + dependencies@.len() < INDEX_LIMIT,
            forall|k: int| 0 <= k < dependencies@.len() ==> 0 <= #[trigger] dependencies@[k].id() < old(self).kinds().len(),
            declares(dependencies@, memo),
        ensures
            final(self).wf(),
            r.id() == old(self).kinds().len(),
            final(self).kinds() == old(self).kinds().push(Node::Memo(memo)),
            final(self).caches() == old(self).caches().push(None),
            final(self).arcs().len() == old(self).arcs().len() + dependencies@.len(),
            forall|e: int| 0 <= e < old(self).arcs().len() ==> #[trigger] final(self).arcs()[e] == old(self).arcs()[e],
            forall|k: int|
                0 <= k < dependencies@.len() ==> {
                    let (a, b, d) = #[trigger] final(self).arcs()[old(self).arcs().len() + k];
                    &&& a == dependencies@[k].id()
                    &&& b == r.id()
                    &&& d == dirty_in(old(self).arcs(), dependencies@[k].id())
                },
    {
        let ids = indices(dependencies);
        let ghost f = memo;
        let node = Node::Memo(memo);
        proof {
            assert forall|k: int| 0 <= k < ids@.len() implies #[trigger] ids@[k] < old(self).kinds().len() by {
                assert(ids@[k] == dependencies@[k].id());
            }
            assert forall|k: int| 0 <= k < inputs_of(node).len() implies ids@.contains(#[trigger] inputs_of(node)[k]) by {
                assert(inputs_of(node) == f.inputs@);
                let x = f.inputs@[k];
                let j = choose|j: int| 0 <= j < dependencies@.len() && #[trigger] dependencies@[j].id() == x;
                assert(ids@[j] == dependencies@[j].id());
            }
        }
        let idx = self.insert(node, &ids);
        DcgNode::at(idx)
    }

    /// Adds a cell holding `value`.
    pub fn cell(&mut self, value: i64) -> (r: DcgNode<Cell>)
        requires
            old(self).wf(),
            old(self).kinds().len() + 1 < INDEX_LIMIT,
        ensures
            final(self).wf(),
            r.id() == old(self).kinds().len(),
            final(self).kinds() == old(self).kinds().push(Node::Cell(value)),
            final(self).caches() == old(self).caches().push(None),
            final(self).arcs() == old(self).arcs(),
    {
        let none: Vec<usize> = Vec::new();
        let idx = self.insert(Node::Cell(value), &none);
        proof {
            assert(self.arcs() =~= old(self).arcs());
        }
        DcgNode::at(idx)
    }

    /// Adds a thunk that reads no node.
    pub fn lone_thunk(&mut self, thunk: Formula) -> (r: DcgNode<Thunk>)
        requires
            old(self).wf(),
            old(self).kinds().len() + 1 < INDEX_LIMIT,
            thunk.inputs@.len() == 0,
        ensures
            final(self).wf(),
            r.id() == old(self).kinds().len(),
            final(self).kinds() == old(self).kinds().push(Node::Thunk(thunk)),
            final(self).caches() == old(self).caches().push(None),
            final(self).arcs() == old(self).arcs(),
    {
        let none: Vec<usize> = Vec::new();
        let idx = self.insert(Node::Thunk(thunk), &none);
        proof {
            assert(self.arcs() =~= old(self).arcs());
        }
        DcgNode::at(idx)
    }

    /// Adds a memo that reads no node and evaluates it at once, so its cache
    /// holds the result from the start.
    pub fn lone_memo(&mut self, memo: Formula) -> (r: DcgNode<Memo>)
        requires
            old(self).wf(),
            old(self).kinds().len() + 1 < INDEX_LIMIT,
            memo.inputs@.len() == 0,
        ensures
            final(self).wf(),
            r.id() == old(self).kinds().len(),
            final(self).kinds() == old(self).kinds().push(Node::Memo(memo)),
            final(self).caches() == old(self).caches().push(Some(memo.offset)),
            final(self).arcs() == old(self).arcs(),
            !dirty_in(final(self).arcs(), r.id()),
    {
        let none: Vec<usize> = Vec::new();
        let offset = memo.offset;
        let idx = self.insert(Node::Memo(memo), &none);
        proof {
            assert(self.arcs() =~= old(self).arcs());
            lemma_values_len(self.nodes@, idx as nat);
            assert(values(self.nodes@, (idx + 1) as nat) == values(self.nodes@, idx as nat).push(
                node_eval(self.nodes@[idx as int], values(self.nodes@, idx as nat))));
            assert(memo.inputs@ =~= Seq::<usize>::empty());
            assert(value(self.nodes@, idx as int) == offset);
        }
        self.cache.set(idx, Some(offset));
        proof {
            assert(self.cache@ =~= old(self).cache@.push(Some(offset)));
            assert forall|e: int| 0 <= e < self.arcs().len() implies #[trigger] self.arcs()[e].1 != idx by {
                assert(old(self).arcs()[e].0 < old(self).arcs()[e].1);
            }
        }
        DcgNode::at(idx)
    }

    /// Whether some edge runs from `from` to `to`.
    pub fn contains_edge<A, B>(&self, from: DcgNode<A>, to: DcgNode<B>) -> (r: bool)
        requires
            self.wf(),
            0 <= from.id() < self.kinds().len(),
        ensures
            r == has_arc(self.arcs(), from.id(), to.id()),
    {
        match self.edge_dirty(from, to) {
            Some(_) => true,
            None => false,
        }
    }

    /// The dirty flag of an edge from `from` to `to`, if there is one.
    pub fn edge_dirty<A, B>(&self, from: DcgNode<A>, to: DcgNode<B>) -> (r: Option<bool>)
        requires
            self.wf(),
            0 <= from.id() < self.kinds().len(),
        ensures
            r is None <==> !has_arc(self.arcs(), from.id(), to.id()),
            r matches Some(d) ==> exists|e: int|
                0 <= e < self.arcs().len() && #[trigger] self.arcs()[e].0 == from.id()
                    && self.arcs()[e].1 == to.id() && self.arcs()[e].2 == d,
    {
        let a = from.index();
        let b = to.index();
        let outs = arcs_at(&self.graph, a, false);
        let mut k: usize = 0;
        while k < outs.len()
            invariant
                0 <= k <= outs@.len(),
                forall|m: int| 0 <= m < outs@.len() ==> {
                    let (e, x, y, d) = #[trigger] outs@[m];
                    &&& e < self.arcs().len()
                    &&& self.arcs()[e as int] == (x, y, d)
                    &&& x == a
                },
                forall|m: int| 0 <= m < k ==> (#[trigger] outs@[m]).2 != b,
                a == from.id(),
                b == to.id(),
            decreases outs@.len() - k,
        {
            if outs[k].2 == b {
                let ghost e = outs@[k as int].0 as int;
                assert(self.arcs()[e].0 == a && self.arcs()[e].1 == b && self.arcs()[e].2 == outs@[k as int].3);
                assert(has_arc(self.arcs(), a as int, b as int));
                return Some(outs[k].3);
            }
            k += 1;
        }
        proof {
            if has_arc(self.arcs(), a as int, b as int) {
                let e = choose|e: int| 0 <= e < self.arcs().len() && #[trigger] self.arcs()[e].0 == a && self.arcs()[e].1 == b;
                let m = choose|m: int| 0 <= m < outs@.len() && outs@[m].0 == e;
                assert(outs@[m].2 == b);
            }
        }
        None
    }

    /// The cached value of `node` (`None` unless it is a computed memo).
    pub fn cached<Ty>(&self, node: DcgNode<Ty>) -> (r: Option<i64>)
        requires
            self.wf(),
            0 <= node.id() < self.kinds().len(),
        ensures
            r == self.caches()[node.id()],
    {
        self.cache[node.index()]
    }

    /// The dirty flag of every edge, by edge index.
    pub fn edge_weights(&self) -> (r: Vec<bool>)
        ensures
            r@.len() == self.arcs().len(),
            forall|e: int| 0 <= e < r@.len() ==> r@[e] == self.arcs()[e].2,
    {
        arc_flags(&self.graph)
    }

    /// Whether some edge into `node` is dirty.
    fn is_dirty(&self, node: usize) -> (r: bool)
        requires
            self.wf(),
            node < self.kinds().len(),
        ensures
            r == dirty_in(self.arcs(), node as int),
    {
        let ins = arcs_at(&self.graph, node, true);
        let mut k: usize = 0;
        while k < ins.len()
            invariant
                0 <= k <= ins@.len(),
                forall|j: int| 0 <= j < k ==> !(#[trigger] ins@[j]).3,
                forall|m: int| 0 <= m < ins@.len() ==> {
                    let (e, a, b, d) = #[trigger] ins@[m];
                    &&& e < self.arcs().len()
                    &&& self.arcs()[e as int] == (a, b, d)
                    &&& b == node
                },
            decreases ins@.len() - k,
        {
            if ins[k].3 {
                assert(self.arcs()[ins@[k as int].0 as int].1 == node);
                return true;
            }
            k += 1;
        }
        proof {
            assert forall|e: int| 0 <= e < self.arcs().len() && #[trigger] self.arcs()[e].1 == node
                implies !self.arcs()[e].2 by {
                let j = choose|j: int| 0 <= j < ins@.len() && ins@[j].0 == e;
                assert(!ins@[j].3);
            }
        }
        false
    }

    /// The from-scratch value of node `i`, refreshing stale memos on the way.
    fn get_at(&mut self, i: usize) -> (r: i64)
        requires
            old(self).wf(),
            i < old(self).kinds().len(),
        ensures
            final(self).wf(),
            Self::fetched(*old(self), *final(self), i as int, r),
        decreases i,
    {
        let memo = match &self.nodes[i] {
            Node::Cell(v) => {
                proof {
                    lemma_values_len(self.nodes@, i as nat);
                }
                return *v;
            },
            Node::Thunk(_) => false,
            Node::Memo(_) => true,
        };
        if memo {
            if let Some(v) = self.cache[i] {
                if !self.is_dirty(i) {
                    return v;
                }
            }
        }
        let ghost nodes = self.nodes@;
        let ghost arcs0 = self.arcs();
        let ghost vals = values(nodes, i as nat);
        let ghost ins = inputs_of(nodes[i as int]);
        let (offset, count) = match &self.nodes[i] {
            Node::Cell(_) => (0i64, 0usize),
            Node::Thunk(f) => (f.offset, f.inputs.len()),
            Node::Memo(f) => (f.offset, f.inputs.len()),
        };
        proof {
            lemma_values_len(nodes, i as nat);
        }
        let mut acc: i64 = offset;
        let mut k: usize = 0;
        while k < count
            invariant
                self.wf(),
                self.nodes@ == nodes,
                i < nodes.len(),
                !(nodes[i as int] is Cell),
                count == ins.len(),
                ins == inputs_of(nodes[i as int]),
                vals == values(nodes, i as nat),
                vals.len() == i,
                0 <= k <= count,
                acc == formula_eval(offset, ins.take(k as int), vals),
                offset == match nodes[i as int] {
                    Node::Thunk(f) => f.offset,
                    Node::Memo(f) => f.offset,
                    Node::Cell(_) => 0,
                },
                self.arcs().len() == arcs0.len(),
                forall|e: int|
                    0 <= e < arcs0.len() ==> (#[trigger] self.arcs()[e]).0 == arcs0[e].0
                        && self.arcs()[e].1 == arcs0[e].1,
            decreases count - k,
        {
            let j = match &self.nodes[i] {
                Node::Cell(_) => 0usize,
                Node::Thunk(f) => f.inputs[k],
                Node::Memo(f) => f.inputs[k],
            };
            assert(j == ins[k as int]);
            assert(j < i);
            let x = self.get_at(j);
            proof {
                lemma_values_prefix(nodes, (j + 1) as nat, i as nat, j as int);
                assert(ins.take(k + 1).drop_last() == ins.take(k as int));
                assert(ins.take(k + 1).last() == j);
            }
            acc = acc.wrapping_add(x);
            k += 1;
        }
        proof {
            assert(ins.take(count as int) == ins);
            assert(values(nodes, (i + 1) as nat) == vals.push(node_eval(nodes[i as int], vals)));
        }
        if memo {
            let ghost cache0 = self.cache@;
            let ghost arcs1 = self.arcs();
            assert(self.caches_valid());
            self.cache[i] = Some(acc);
            let ins_arcs = arcs_at(&self.graph, i, true);
            let mut k: usize = 0;
            while k < ins_arcs.len()
                invariant
                    self.nodes@ == nodes,
                    i < nodes.len(),
                    nodes[i as int] is Memo,
                    self.cache@ == cache0.update(i as int, Some(acc)),
                    cache0.len() == nodes.len(),
                    forall|n: int|
                        0 <= n < nodes.len() && #[trigger] nodes[n] is Memo && cache0[n] is Some
                            && !dirty_in(arcs1, n) ==> cache0[n] == Some(value(nodes, n)),
                    acc == value(nodes, i as int),
                    self.nodes@.len() == self.cache@.len(),
                    self.nodes@.len() == node_total(self.graph),
                    self.nodes@.len() < INDEX_LIMIT,
                    self.arcs().len() == arcs1.len(),
                    arcs1.len() <= INDEX_LIMIT,
                    forall|e: int|
                        0 <= e < arcs1.len() ==> (#[trigger] self.arcs()[e]).0 == arcs1[e].0
                            && self.arcs()[e].1 == arcs1[e].1 && (self.arcs()[e].1 != i
                            ==> self.arcs()[e] == arcs1[e]),
                    forall|m: int| 0 <= m < ins_arcs@.len() ==> {
                        let (e, a, b, d) = #[trigger] ins_arcs@[m];
                        &&& e < arcs1.len()
                        &&& arcs1[e as int] == (a, b, d)
                        &&& b == i
                    },
                    forall|m: int| 0 <= m < k ==> !self.arcs()[(#[trigger] ins_arcs@[m]).0 as int].2,
                    0 <= k <= ins_arcs@.len(),
                decreases ins_arcs@.len() - k,
            {
                set_arc_dirty(&mut self.graph, ins_arcs[k].0, false);
                k += 1;
            }
            proof {
                let arcs2 = self.arcs();
                assert forall|e: int| 0 <= e < arcs2.len() && #[trigger] arcs2[e].1 == i
                    implies !arcs2[e].2 by {
                    let m = choose|m: int| 0 <= m < ins_arcs@.len() && ins_arcs@[m].0 == e;
                    assert(!arcs2[ins_arcs@[m].0 as int].2);
                }
                assert forall|n: int| 0 <= n < nodes.len() && n != i implies dirty_in(arcs2, n)
                    == dirty_in(arcs1, n) by {
                    if dirty_in(arcs2, n) {
                        let e = choose|e: int| 0 <= e < arcs2.len() && #[trigger] arcs2[e].1 == n && arcs2[e].2;
                        assert(arcs1[e] == arcs2[e]);
                    }
                    if dirty_in(arcs1, n) {
                        let e = choose|e: int| 0 <= e < arcs1.len() && #[trigger] arcs1[e].1 == n && arcs1[e].2;
                        assert(arcs1[e] == arcs2[e]);
                    }
                }
                assert forall|n: int|
                    0 <= n < nodes.len() && #[trigger] nodes[n] is Memo && self.cache@[n] is Some
                        && !dirty_in(arcs2, n) implies self.cache@[n] == Some(value(nodes, n)) by {
                    if n != i {
                        assert(dirty_in(arcs2, n) == dirty_in(arcs1, n));
                    }
                }
                assert forall|a: int, b: int| has_arc(arcs1, a, b) implies has_arc(arcs2, a, b) by {
                    let e = choose|e: int| 0 <= e < arcs1.len() && #[trigger] arcs1[e].0 == a && arcs1[e].1 == b;
                    assert(arcs2[e].0 == a);
                }
                assert(arcs_forward(arcs2, nodes.len() as int)) by {
                    assert forall|e: int| 0 <= e < arcs2.len() implies #[trigger] arcs2[e].0 < arcs2[e].1 && arcs2[e].1 < nodes.len() by {
                        assert(arcs1[e].0 == arcs2[e].0);
                    }
                }
            }
        }
        acc
    }
    /// Marks dirty every edge that leaves a node downstream of `c`, visiting
    /// nodes in index order: every edge points to a higher index, so one
    /// forward sweep from `c` meets each downstream node after all its
    /// downstream sources.
    fn dirty_downstream(&mut self, c: usize)
        requires
            old(self).nodes@.len() == node_total(old(self).graph),
            old(self).nodes@.len() < INDEX_LIMIT,
            old(self).arcs().len() <= INDEX_LIMIT,
            arcs_forward(old(self).arcs(), old(self).nodes@.len() as int),
            c < old(self).nodes@.len(),
        ensures
            final(self).nodes@ == old(self).nodes@,
            final(self).cache@ == old(self).cache@,
            node_total(final(self).graph) == node_total(old(self).graph),
            final(self).arcs().len() == old(self).arcs().len(),
            forall|e: int|
                0 <= e < old(self).arcs().len() ==> #[trigger] final(self).arcs()[e] == (
                    old(self).arcs()[e].0,
                    old(self).arcs()[e].1,
                    old(self).arcs()[e].2 || reaches(old(self).arcs(), c as int, old(self).arcs()[e].0 as int),
                ),
    {
        let ghost arcs0 = self.arcs();
        let n = self.nodes.len();
        let mut reached: Vec<bool> = Vec::new();
        while reached.len() < n
            invariant
                reached@.len() <= n,
                forall|x: int| 0 <= x < reached@.len() ==> reached@[x] == (x == c),
            decreases n - reached@.len(),
        {
            let here = reached.len() == c;
            reached.push(here);
        }
        proof {
            assert forall|x: int| 0 <= x < n implies reached@[x] == (x == c || fed(arcs0, c as int, c as int, x)) by {
                if fed(arcs0, c as int, c as int, x) {
                    let e = choose|e: int| 0 <= e < arcs0.len() && #[trigger] arcs0[e].1 == x && arcs0[e].0 < c && reaches(arcs0, c as int, arcs0[e].0 as int);
                    lemma_reaches_above(arcs0, c as int, arcs0[e].0 as int);
                }
            }
            assert forall|x: int| 0 <= x < c implies !reaches(arcs0, c as int, x) by {
                if reaches(arcs0, c as int, x) {
                    lemma_reaches_above(arcs0, c as int, x);
                }
            }
            assert forall|e: int| 0 <= e < arcs0.len() implies (arcs0[e].0 < c && reaches(arcs0, c as int, arcs0[e].0 as int)) == false by {
                if reaches(arcs0, c as int, arcs0[e].0 as int) {
                    lemma_reaches_above(arcs0, c as int, arcs0[e].0 as int);
                }
            }
        }
        let mut u: usize = c;
        while u < n
            invariant
                c <= u <= n,
                n == self.nodes@.len(),
                self.nodes@ == old(self).nodes@,
                self.cache@ == old(self).cache@,
                node_total(self.graph) == n,
                n < INDEX_LIMIT,
                arcs0 == old(self).arcs(),
                arcs0.len() <= INDEX_LIMIT,
                arcs_forward(arcs0, n as int),
                reached@.len() == n,
                forall|x: int|
                    0 <= x < n ==> #[trigger] reached@[x] == if x < u {
                        reaches(arcs0, c as int, x)
                    } else {
                        x == c || fed(arcs0, c as int, u as int, x)
                    },
                self.arcs().len() == arcs0.len(),
                forall|e: int|
                    0 <= e < arcs0.len() ==> #[trigger] self.arcs()[e] == (
                        arcs0[e].0,
                        arcs0[e].1,
                        arcs0[e].2 || (arcs0[e].0 < u && reaches(arcs0, c as int, arcs0[e].0 as int)),
                    ),
            decreases n - u,
        {
            let ghost reached_u = reached@;
            let ghost arcs_u = self.arcs();
            if reached[u] {
                assert(reaches(arcs0, c as int, u as int));
                let outs = arcs_at(&self.graph, u, false);
                let mut k: usize = 0;
                while k < outs.len()
                    invariant
                        0 <= k <= outs@.len(),
                        n == self.nodes@.len(),
                        self.nodes@ == old(self).nodes@,
                        self.cache@ == old(self).cache@,
                        node_total(self.graph) == n,
                        n < INDEX_LIMIT,
                        arcs0.len() <= INDEX_LIMIT,
                        arcs_forward(arcs0, n as int),
                        reached@.len() == n,
                        arcs_u.len() == arcs0.len(),
                        self.arcs().len() == arcs0.len(),
                        forall|m: int| 0 <= m < outs@.len() ==> {
                            let (e, a, b, d) = #[trigger] outs@[m];
                            &&& e < arcs_u.len()
                            &&& arcs_u[e as int] == (a, b, d)
                            &&& a == u
                        },
                        forall|e: int| 0 <= e < arcs0.len() ==> (#[trigger] arcs_u[e]).0 == arcs0[e].0 && arcs_u[e].1 == arcs0[e].1,
                        forall|x: int|
                            0 <= x < n ==> #[trigger] reached@[x] == (reached_u[x] || exists|j: int| 0 <= j < k && outs@[j].2 == x),
                        forall|e: int|
                            0 <= e < arcs0.len() ==> #[trigger] self.arcs()[e] == (
                                arcs_u[e].0,
                                arcs_u[e].1,
                                arcs_u[e].2 || exists|j: int| 0 <= j < k && outs@[j].0 == e,
                            ),
                    decreases outs@.len() - k,
                {
                    let (e, _a, b, _d) = outs[k];
                    assert(arcs0[e as int].1 == b);
                    set_arc_dirty(&mut self.graph, e, true);
                    reached.set(b, true);
                    proof {
                        assert forall|x: int| 0 <= x < n implies #[trigger] reached@[x] == (reached_u[x] || exists|j: int| 0 <= j < k + 1 && outs@[j].2 == x) by {
                            if x == b {
                                assert(outs@[k as int].2 == x);
                            }
                        }
                        assert forall|e2: int| 0 <= e2 < arcs0.len() implies #[trigger] self.arcs()[e2] == (
                                arcs_u[e2].0,
                                arcs_u[e2].1,
                                arcs_u[e2].2 || exists|j: int| 0 <= j < k + 1 && outs@[j].0 == e2,
                            ) by {
                            if e2 == e {
                                assert(outs@[k as int].0 == e2);
                            }
                        }
                    }
                    k += 1;
                }
                proof {
                    assert forall|e: int| 0 <= e < arcs0.len() implies (exists|j: int| 0 <= j < outs@.len() && outs@[j].0 == e) == (arcs0[e].0 == u) by {
                        if arcs_u[e].0 == u {
                            assert(exists|j: int| 0 <= j < outs@.len() && outs@[j].0 == e);
                        }
                        if exists|j: int| 0 <= j < outs@.len() && outs@[j].0 == e {
                            let j = choose|j: int| 0 <= j < outs@.len() && outs@[j].0 == e;
                            assert(outs@[j].1 == u);
                        }
                    }
                    assert forall|x: int| 0 <= x < n implies #[trigger] reached@[x] == (reached_u[x] || exists|e: int| 0 <= e < arcs0.len() && #[trigger] arcs0[e].1 == x && arcs0[e].0 == u) by {
                        if exists|j: int| 0 <= j < outs@.len() && outs@[j].2 == x {
                            let j = choose|j: int| 0 <= j < outs@.len() && outs@[j].2 == x;
                            let e = outs@[j].0 as int;
                            assert(arcs0[e].1 == x && arcs0[e].0 == u);
                        }
                        if exists|e: int| 0 <= e < arcs0.len() && #[trigger] arcs0[e].1 == x && arcs0[e].0 == u {
                            let e = choose|e: int| 0 <= e < arcs0.len() && #[trigger] arcs0[e].1 == x && arcs0[e].0 == u;
                            assert(arcs_u[e].0 == u);
                            let j = choose|j: int| 0 <= j < outs@.len() && outs@[j].0 == e;
                            assert(outs@[j].2 == x);
                        }
                    }
                    assert forall|e: int| 0 <= e < arcs0.len() implies #[trigger] self.arcs()[e].2 == (arcs_u[e].2 || arcs0[e].0 == u) by {}
                }
            }
            proof {
                let reach_u = reaches(arcs0, c as int, u as int);
                assert(reached_u[u as int] == reach_u);
                assert forall|x: int| 0 <= x < n && x > u implies fed(arcs0, c as int, u + 1, x) == (fed(arcs0, c as int, u as int, x) || (reach_u && exists|e: int| 0 <= e < arcs0.len() && #[trigger] arcs0[e].1 == x && arcs0[e].0 == u)) by {
                    if fed(arcs0, c as int, u + 1, x) {
                        let e = choose|e: int| 0 <= e < arcs0.len() && #[trigger] arcs0[e].1 == x && arcs0[e].0 < u + 1 && reaches(arcs0, c as int, arcs0[e].0 as int);
                        if arcs0[e].0 < u {
                            assert(fed(arcs0, c as int, u as int, x));
                        }
                    }
                    if fed(arcs0, c as int, u as int, x) {
                        let e = choose|e: int| 0 <= e < arcs0.len() && #[trigger] arcs0[e].1 == x && arcs0[e].0 < u && reaches(arcs0, c as int, arcs0[e].0 as int);
                        assert(arcs0[e].0 < u + 1);
                    }
                    if reach_u && exists|e: int| 0 <= e < arcs0.len() && #[trigger] arcs0[e].1 == x && arcs0[e].0 == u {
                        let e = choose|e: int| 0 <= e < arcs0.len() && #[trigger] arcs0[e].1 == x && arcs0[e].0 == u;
                        assert(arcs0[e].0 < u + 1 && reaches(arcs0, c as int, arcs0[e].0 as int));
                    }
                }
                assert forall|x: int| 0 <= x < n implies #[trigger] reached@[x] == if x < u + 1 {
                    reaches(arcs0, c as int, x)
                } else {
                    x == c || fed(arcs0, c as int, u + 1, x)
                } by {
                    assert(reached@[x] == (reached_u[x] || (reach_u && exists|e: int| 0 <= e < arcs0.len() && #[trigger] arcs0[e].1 == x && arcs0[e].0 == u)));
                    if x <= u && reach_u && exists|e: int| 0 <= e < arcs0.len() && #[trigger] arcs0[e].1 == x && arcs0[e].0 == u {
                        let e = choose|e: int| 0 <= e < arcs0.len() && #[trigger] arcs0[e].1 == x && arcs0[e].0 == u;
                        assert(arcs0[e].0 < arcs0[e].1);
                    }
                }
                assert forall|e: int| 0 <= e < arcs0.len() implies #[trigger] self.arcs()[e] == (
                        arcs0[e].0,
                        arcs0[e].1,
                        arcs0[e].2 || (arcs0[e].0 < u + 1 && reaches(arcs0, c as int, arcs0[e].0 as int)),
                    ) by {
                    assert(self.arcs()[e].2 == (arcs_u[e].2 || (reach_u && arcs0[e].0 == u)));
                }
            }
            u += 1;
        }
    }

    /// Replaces the value of cell `node` and returns the value it held,
    /// marking dirty every edge that leaves a node downstream of it.
    pub fn set(&mut self, node: DcgNode<Cell>, new_value: i64) -> (r: i64)
        requires
            old(self).wf(),
            0 <= node.id() < old(self).kinds().len(),
            old(self).kinds()[node.id()] is Cell,
        ensures
            final(self).wf(),
            Self::assigned(*old(self), *final(self), node.id(), new_value, r),
    {
        let c = node.index();
        let previous = match &self.nodes[c] {
            Node::Cell(v) => *v,
            Node::Thunk(_) => 0,
            Node::Memo(_) => 0,
        };
        let ghost nodes0 = self.nodes@;
        let ghost arcs0 = self.arcs();
        self.nodes.set(c, Node::Cell(new_value));
        self.dirty_downstream(c);
        proof {
            let nodes1 = self.nodes@;
            let arcs1 = self.arcs();
            assert forall|i: int, k: int|
                0 <= i < nodes1.len() && 0 <= k < inputs_of(nodes1[i]).len() implies {
                    let j = #[trigger] inputs_of(nodes1[i])[k];
                    &&& j < i
                    &&& has_arc(arcs1, j as int, i)
                } by {
                assert(inputs_of(nodes1[i]) == inputs_of(nodes0[i]));
                let j = inputs_of(nodes0[i])[k];
                assert(has_arc(arcs0, j as int, i));
                let e = choose|e: int| 0 <= e < arcs0.len() && #[trigger] arcs0[e].0 == j && arcs0[e].1 == i;
                assert(arcs1[e].0 == j);
            }
            assert(arcs_forward(arcs1, nodes1.len() as int)) by {
                assert forall|e: int| 0 <= e < arcs1.len() implies #[trigger] arcs1[e].0 < arcs1[e].1 && arcs1[e].1 < nodes1.len() by {
                    assert(arcs0[e].0 < arcs0[e].1);
                }
            }
            lemma_values_outside(nodes0, arcs0, c as int, new_value, nodes0.len());
            assert forall|i: int|
                0 <= i < nodes1.len() && #[trigger] nodes1[i] is Memo && self.cache@[i] is Some
                    && !dirty_in(arcs1, i) implies self.cache@[i] == Some(value(nodes1, i)) by {
                if dirty_in(arcs0, i) {
                    let e = choose|e: int| 0 <= e < arcs0.len() && #[trigger] arcs0[e].1 == i && arcs0[e].2;
                    assert(arcs1[e].1 == i && arcs1[e].2);
                }
                if reaches(arcs0, c as int, i) {
                    let e = choose|e: int|
                        0 <= e < arcs0.len() && #[trigger] arcs0[e].1 == i && arcs0[e].0 < i && reaches(arcs0, c as int, arcs0[e].0 as int);
                    assert(arcs1[e].1 == i && arcs1[e].2);
                }
                lemma_values_len(nodes0, nodes0.len());
                lemma_values_len(nodes1, nodes0.len());
                lemma_values_prefix(nodes0, (i + 1) as nat, nodes0.len(), i);
                lemma_values_prefix(nodes1, (i + 1) as nat, nodes0.len(), i);
            }
        }
        previous
    }

    /// The value of `node`: a cell's value, a thunk's freshly computed
    /// result, or a memo's cache when it is present and every incoming edge
    /// is clean (otherwise the memo recomputes, caches, and cleans them).
    /// Every result equals what a from-scratch evaluation would give.
    pub fn get<Ty>(&mut self, node: DcgNode<Ty>) -> (r: i64)
        requires
            old(self).wf(),
            0 <= node.id() < old(self).kinds().len(),
        ensures
            final(self).wf(),
            Self::fetched(*old(self), *final(self), node.id(), r),
    {
        self.get_at(node.index())
    }
}

/// The node indices of `deps`, in order.
fn indices<Ty>(deps: &[DcgNode<Ty>]) -> (r: Vec<usize>)
    ensures
        r@.len() == deps@.len(),
        forall|k: int| 0 <= k < deps@.len() ==> r@[k] == #[trigger] deps@[k].id(),
{
    let mut r: Vec<usize> = Vec::new();
    let mut k: usize = 0;
    while k < deps.len()
        invariant
            0 <= k <= deps@.len(),
            r@.len() == k,
            forall|m: int| 0 <= m < k ==> r@[m] == #[trigger] deps@[m].id(),
        decreases deps@.len() - k,
    {
        r.push(deps[k].index());
        k += 1;
    }
    r
}

/// Retrieving a cell that was just created gives back the value it was created with.
pub proof fn law_cell_round_trip(nodes: Seq<Node>, v: i64)
    ensures
        value(nodes.push(Node::Cell(v)), nodes.len() as int) == v,
{
    let grown = nodes.push(Node::Cell(v));
    lemma_values_len(grown, nodes.len());
    assert(values(grown, (nodes.len() + 1) as nat) == values(grown, nodes.len()).push(
        node_eval(grown[nodes.len() as int], values(grown, nodes.len()))));
}

/// Two retrievals of a memo in a row: the second one changes nothing and
/// returns what the first returned, so the generator runs at most once.
pub proof fn law_memo_reuse(s0: Dcg, s1: Dcg, s2: Dcg, m: int, r1: i64, r2: i64)
    requires
        0 <= m < s0.kinds().len(),
        s0.kinds()[m] is Memo,
        Dcg::fetched(s0, s1, m, r1),
        Dcg::fetched(s1, s2, m, r2),
    ensures
        s2 == s1,
        r2 == r1,
{
}

/// Setting cell `a` dirties both edges of a chain `a -> b -> c`.
pub proof fn law_set_dirties_chain(s0: Dcg, s1: Dcg, a: int, v: i64, r: i64, e1: int, e2: int)
    requires
        s0.wf(),
        Dcg::assigned(s0, s1, a, v, r),
        0 <= e1 < s0.arcs().len(),
        0 <= e2 < s0.arcs().len(),
        s0.arcs()[e1].0 == a,
        s0.arcs()[e2].0 == s0.arcs()[e1].1,
    ensures
        s1.arcs()[e1].2,
        s1.arcs()[e2].2,
{
    let arcs = s0.arcs();
    assert(arcs_forward(arcs, s0.kinds().len() as int));
    assert(arcs[e1].0 < arcs[e1].1);
    assert(reaches(arcs, a, a));
    assert(reaches(arcs, a, arcs[e1].1 as int));
    assert(s1.arcs()[e1] == (arcs[e1].0, arcs[e1].1, arcs[e1].2 || reaches(arcs, a, arcs[e1].0 as int)));
    assert(s1.arcs()[e2] == (arcs[e2].0, arcs[e2].1, arcs[e2].2 || reaches(arcs, a, arcs[e2].0 as int)));
}

/// A memo with a dirty incoming edge recomputes when retrieved: it returns
/// the from-scratch value, caches it, and is left with clean incoming edges.
pub proof fn law_dirty_memo_recomputes(s1: Dcg, s2: Dcg, m: int, r: i64)
    requires
        0 <= m < s1.kinds().len(),
        s1.kinds()[m] is Memo,
        dirty_in(s1.arcs(), m),
        Dcg::fetched(s1, s2, m, r),
    ensures
        r == value(s1.kinds(), m),
        s2.caches()[m] == Some(r),
        !dirty_in(s2.arcs(), m),
{
}

/// A memo that nothing points to, once cached, is returned from its cache
/// on every retrieval, with the graph left as it was.
pub proof fn law_lone_memo_keeps(s: Dcg, s2: Dcg, m: int, v: i64, r: i64)
    requires
        0 <= m < s.kinds().len(),
        s.kinds()[m] is Memo,
        s.caches()[m] == Some(v),
        forall|e: int| 0 <= e < s.arcs().len() ==> #[trigger] s.arcs()[e].1 != m,
        Dcg::fetched(s, s2, m, r),
    ensures
        s2 == s,
        r == v,
{
}

} // verus!