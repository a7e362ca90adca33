use vstd::prelude::*;

use crate::input::InputView;
use crate::output::{OutputView, next_timestamp};
use crate::port::Value;
use vstd::set_lib::{lemma_int_range, lemma_len_subset, set_int_range};

verus! {

/// The abstract content of a node: the indices of its input and output
/// ports, in the order the node's function sees them.
pub ghost struct NodeView {
    pub inputs: Seq<int>,
    pub outputs: Seq<int>,
}

/// The abstract content of a graph. Ports and nodes are indexed by their
/// identifiers; `connections[i]` is the output that feeds input `i`, and
/// `output_owner[o]` is the node that output `o` belongs to.
pub ghost struct GraphView {
    pub inputs: Seq<InputView>,
    pub outputs: Seq<OutputView>,
    pub connections: Seq<Option<int>>,
    pub nodes: Seq<NodeView>,
    pub output_owner: Seq<int>,
}

impl GraphView {
    /// Every identifier that the graph holds refers to a registered port or
    /// node, and each output lists the node that owns it.
    pub open spec fn wf(self) -> bool {
        &&& self.connections.len() == self.inputs.len()
        &&& self.output_owner.len() == self.outputs.len()
        &&& forall|i: int|
            0 <= i < self.connections.len() && #[trigger] self.connections[i] is Some ==> 0
                <= self.connections[i]->0 < self.outputs.len()
        &&& forall|o: int|
            0 <= o < self.output_owner.len() ==> 0 <= #[trigger] self.output_owner[o]
                < self.nodes.len()
        &&& forall|n: int, k: int|
            0 <= n < self.nodes.len() && 0 <= k < self.nodes[n].inputs.len() ==> 0
                <= #[trigger] self.nodes[n].inputs[k] < self.inputs.len()
        &&& forall|n: int, k: int|
            0 <= n < self.nodes.len() && 0 <= k < self.nodes[n].outputs.len() ==> {
                &&& 0 <= #[trigger] self.nodes[n].outputs[k] < self.outputs.len()
                &&& self.output_owner[self.nodes[n].outputs[k]] == n
            }
        &&& forall|n: int| 0 <= n < self.nodes.len() ==> (#[trigger] self.nodes[n]).outputs.no_duplicates()
        &&& forall|o: int| 0 <= o < self.outputs.len() ==> (#[trigger] self.outputs[o]).well_typed()
        &&& forall|o: int|
            0 <= o < self.outputs.len() ==> #[trigger] self.nodes[self.output_owner[o]].outputs.contains(o)
        &&& forall|n1: int, k1: int, n2: int, k2: int|
            0 <= n1 < self.nodes.len() && 0 <= k1 < self.nodes[n1].inputs.len() && 0 <= n2
                < self.nodes.len() && 0 <= k2 < self.nodes[n2].inputs.len() && #[trigger] self.nodes[n1].inputs[k1]
                == #[trigger] self.nodes[n2].inputs[k2] ==> n1 == n2 && k1 == k2
        &&& forall|i: int|
            0 <= i < self.connections.len() && #[trigger] self.connections[i] is Some
                ==> self.inputs[i].tag == self.outputs[self.connections[i]->0].tag
    }

    /// The output ports of node `n`, in order.
    pub open spec fn node_outputs(self, n: int) -> Seq<OutputView> {
        Seq::new(self.nodes[n].outputs.len(), |k: int| self.outputs[self.nodes[n].outputs[k]])
    }

    /// `after` has one port per output of node `n`, each of the same type.
    pub open spec fn fits(self, n: int, after: Seq<OutputView>) -> bool {
        &&& after.len() == self.nodes[n].outputs.len()
        &&& forall|k: int|
            0 <= k < after.len() ==> (#[trigger] after[k]).tag == self.outputs[self.nodes[n].outputs[k]].tag
    }

    /// `next` is this graph after the outputs of node `n` took the values
    /// and timestamps of `after`, in order; nothing else changed.
    pub open spec fn stores(self, n: int, after: Seq<OutputView>, next: GraphView) -> bool {
        &&& next.inputs == self.inputs
        &&& next.connections == self.connections
        &&& next.nodes == self.nodes
        &&& next.output_owner == self.output_owner
        &&& next.outputs.len() == self.outputs.len()
        &&& forall|k: int|
            0 <= k < self.nodes[n].outputs.len() ==> next.outputs[#[trigger] self.nodes[n].outputs[k]]
                == (OutputView {
                value: after[k].value,
                timestamp: after[k].timestamp,
                ..self.outputs[self.nodes[n].outputs[k]]
            })
        &&& forall|o: int|
            0 <= o < self.outputs.len() && self.output_owner[o] != n ==> #[trigger] next.outputs[o]
                == self.outputs[o]
    }

    /// A node without declared inputs.
    pub open spec fn is_source(self, n: int) -> bool {
        self.nodes[n].inputs.len() == 0
    }

    /// Input `k` of node `b` is connected to an output of node `a`.
    pub open spec fn feeds_via(self, a: int, b: int, k: int) -> bool {
        match self.connections[self.nodes[b].inputs[k]] {
            Some(o) => self.output_owner[o] == a,
            None => false,
        }
    }

    /// Node `a` feeds node `b`: some input of `b` is connected to an output of `a`.
    pub open spec fn feeds(self, a: int, b: int) -> bool {
        &&& 0 <= b < self.nodes.len()
        &&& exists|k: int| 0 <= k < self.nodes[b].inputs.len() && #[trigger] self.feeds_via(a, b, k)
    }

    /// Every input of node `n` has a connection.
    pub open spec fn inputs_connected(self, n: int) -> bool {
        forall|k: int|
            0 <= k < self.nodes[n].inputs.len() ==> #[trigger] self.connections[self.nodes[n].inputs[k]] is Some
    }

    /// Input `i` is the first input of node `n` without a connection.
    pub open spec fn is_first_unconnected(self, n: int, i: int) -> bool {
        exists|k: int|
            0 <= k < self.nodes[n].inputs.len() && #[trigger] self.nodes[n].inputs[k] == i
                && self.connections[i] is None && forall|j: int|
                0 <= j < k ==> #[trigger] self.connections[self.nodes[n].inputs[j]] is Some
    }

    /// Every input of every node has a connection.
    pub open spec fn all_inputs_connected(self) -> bool {
        forall|n: int| 0 <= n < self.nodes.len() ==> #[trigger] self.inputs_connected(n)
    }

    /// The value that input `i` currently reads: that of the output feeding
    /// it, or nothing when it is unconnected or that output is unset.
    pub open spec fn input_value(self, i: int) -> Option<Value> {
        if 0 <= i < self.connections.len() {
            match self.connections[i] {
                Some(o) => self.outputs[o].value,
                None => None,
            }
        } else {
            None
        }
    }

    /// The values that node `n` reads, one per declared input, in order.
    pub open spec fn node_input_values(self, n: int) -> Seq<Option<Value>> {
        Seq::new(self.nodes[n].inputs.len(), |k: int| self.input_value(self.nodes[n].inputs[k]))
    }

    /// The output port that input `i` reads from, if it is connected.
    pub open spec fn source_port(self, i: int) -> Option<OutputView> {
        if 0 <= i < self.connections.len() {
            match self.connections[i] {
                Some(o) => Some(self.outputs[o]),
                None => None,
            }
        } else {
            None
        }
    }

    /// The value of output `o`, or nothing when it is unset or unknown.
    pub open spec fn output_value(self, o: int) -> Option<Value> {
        if 0 <= o < self.outputs.len() {
            self.outputs[o].value
        } else {
            None
        }
    }

    /// `ord` lists every node exactly once, each after every node that feeds
    /// it, with all source nodes ahead of all other nodes.
    pub open spec fn is_update_order(self, ord: Seq<int>) -> bool {
        &&& ord.no_duplicates()
        &&& forall|p: int| 0 <= p < ord.len() ==> 0 <= #[trigger] ord[p] < self.nodes.len()
        &&& forall|n: int| 0 <= n < self.nodes.len() ==> #[trigger] ord.contains(n)
        &&& forall|p: int, q: int|
            0 <= p < ord.len() && 0 <= q < ord.len() && #[trigger] self.feeds(ord[p], ord[q])
                ==> p < q
        &&& forall|p: int, q: int|
            0 <= p < q < ord.len() && #[trigger] self.is_source(ord[q]) ==> #[trigger] self.is_source(
                ord[p],
            )
    }

    /// Some order satisfies [`Self::is_update_order`].
    pub open spec fn has_update_order(self) -> bool {
        exists|ord: Seq<int>| self.is_update_order(ord)
    }

    /// Each node of `path` feeds the next one.
    pub open spec fn is_path(self, path: Seq<int>) -> bool {
        &&& path.len() >= 2
        &&& forall|j: int| #![trigger path[j]] 0 <= j < path.len() - 1 ==> self.feeds(path[j], path[j + 1])
    }

    /// Some node feeds itself, directly or through other nodes.
    pub open spec fn has_cycle(self) -> bool {
        exists|path: Seq<int>| self.is_path(path) && path[0] == path.last()
    }

    /// The graph after registering a node with the given ports: fresh,
    /// consecutive identifiers for its ports, and its inputs unconnected.
    pub open spec fn with_node(self, ins: Seq<InputView>, outs: Seq<OutputView>) -> GraphView {
        GraphView {
            inputs: self.inputs + ins,
            outputs: self.outputs + outs,
            connections: self.connections + Seq::new(ins.len(), |k: int| None),
            nodes: self.nodes.push(
                NodeView {
                    inputs: Seq::new(ins.len(), |k: int| self.inputs.len() + k),
                    outputs: Seq::new(outs.len(), |k: int| self.outputs.len() + k),
                },
            ),
            output_owner: self.output_owner + Seq::new(outs.len(), |k: int| self.nodes.len() as int),
        }
    }

    /// The graph after input `i` is connected to output `o`: an earlier
    /// connection of `i` is replaced, and the input's timestamp advances.
    pub open spec fn with_connection(self, i: int, o: int) -> GraphView {
        GraphView {
            inputs: self.inputs.update(
                i,
                InputView { timestamp: next_timestamp(self.inputs[i].timestamp), ..self.inputs[i] },
            ),
            connections: self.connections.update(i, Some(o)),
            ..self
        }
    }

    /// The two graphs have the same ports, nodes and connections; only the
    /// values and timestamps of outputs may differ.
    pub open spec fn same_shape(self, other: GraphView) -> bool {
        &&& self.inputs == other.inputs
        &&& self.connections == other.connections
        &&& self.nodes == other.nodes
        &&& self.output_owner == other.output_owner
        &&& self.outputs.len() == other.outputs.len()
        &&& forall|o: int|
            0 <= o < self.outputs.len() ==> (#[trigger] self.outputs[o]).tag == other.outputs[o].tag
                && self.outputs[o].name == other.outputs[o].name
    }
}

/// Along a path, each node comes later in an update order than the first:
/// whatever feeds a node, directly or through other nodes, runs before it.
pub proof fn lemma_path_runs_in_order(g: GraphView, ord: Seq<int>, path: Seq<int>, j: int)
    requires
        g.wf(),
        g.is_update_order(ord),
        g.is_path(path),
        1 <= j < path.len(),
    ensures
        forall|p: int, q: int|
            0 <= p < ord.len() && 0 <= q < ord.len() && ord[p] == path[0] && ord[q] == path[j]
                ==> p < q,
    decreases j,
{
    if j == 1 {
        assert(g.feeds(path[0], path[1]));
    } else {
        lemma_path_runs_in_order(g, ord, path, j - 1);
        let prev = path[j - 1];
        assert(g.feeds(prev, path[j]));
        assert(0 <= prev < g.nodes.len()) by {
            assert(g.feeds(path[j - 2], path[j - 1]));
        }
        assert(ord.contains(prev));
        let r = choose|r: int| 0 <= r < ord.len() && ord[r] == prev;
        assert forall|p: int, q: int|
            0 <= p < ord.len() && 0 <= q < ord.len() && ord[p] == path[0] && ord[q] == path[j]
                implies p < q by {
            assert(g.feeds(ord[r], ord[q]));
        }
    }
}

/// A node that feeds itself, directly or through other nodes, leaves the
/// graph without an update order.
pub proof fn lemma_cycle_has_no_update_order(g: GraphView, path: Seq<int>)
    requires
        g.wf(),
        g.is_path(path),
        path[0] == path.last(),
    ensures
        !g.has_update_order(),
{
    if g.has_update_order() {
        let ord = choose|ord: Seq<int>| g.is_update_order(ord);
        let x = path[0];
        assert(g.feeds(path[0], path[1]));
        let k = choose|k: int| 0 <= k < g.nodes[path[1]].inputs.len() && g.feeds_via(x, path[1], k);
        assert(0 <= x < g.nodes.len());
        assert(ord.contains(x));
        let p = choose|p: int| 0 <= p < ord.len() && ord[p] == x;
        lemma_path_runs_in_order(g, ord, path, path.len() - 1);
        assert(p < p);
    }
}

/// A source node comes, in any update order, before every node that depends
/// on it directly or through other nodes.
pub proof fn lemma_sources_run_before_dependents(g: GraphView, ord: Seq<int>, path: Seq<int>)
    requires
        g.wf(),
        g.is_update_order(ord),
        g.is_path(path),
        g.is_source(path[0]),
    ensures
        forall|p: int, q: int|
            0 <= p < ord.len() && 0 <= q < ord.len() && ord[p] == path[0] && ord[q] == path.last()
                ==> p < q,
{
    lemma_path_runs_in_order(g, ord, path, path.len() - 1);
}

/// Two inputs fed by the same output read the same port: the same value
/// and the same timestamp, those of that output.
pub proof fn lemma_fan_out_reads_agree(g: GraphView, i1: int, i2: int, o: int)
    requires
        g.wf(),
        0 <= i1 < g.inputs.len(),
        0 <= i2 < g.inputs.len(),
        g.connections[i1] == Some(o),
        g.connections[i2] == Some(o),
    ensures
        g.input_value(i1) == g.input_value(i2),
        g.input_value(i1) == g.output_value(o),
        g.source_port(i1) == g.source_port(i2),
        g.source_port(i1) == Some(g.outputs[o]),
{
}

/// Outputs that a node is registered with, freshly made and never set, read
/// as absent.
pub proof fn lemma_fresh_outputs_absent(
    g: GraphView,
    ins: Seq<InputView>,
    outs: Seq<OutputView>,
    k: int,
)
    requires
        0 <= k < outs.len(),
        outs[k].value is None,
    ensures
        g.with_node(ins, outs).output_value(g.outputs.len() + k) is None,
{
    assert(g.with_node(ins, outs).outputs[g.outputs.len() + k] == outs[k]);
}

/// Writing only to the outputs of node `n` leaves what `n` reads unchanged,
/// unless `n` feeds itself.
pub proof fn lemma_own_writes_keep_reads(a: GraphView, b: GraphView, n: int)
    requires
        a.wf(),
        b.same_shape(a),
        0 <= n < a.nodes.len(),
        !a.feeds(n, n),
        forall|o: int|
            0 <= o < a.outputs.len() && a.output_owner[o] != n ==> #[trigger] b.outputs[o]
                == a.outputs[o],
    ensures
        b.node_input_values(n) == a.node_input_values(n),
{
    assert forall|k: int| 0 <= k < a.nodes[n].inputs.len() implies b.input_value(a.nodes[n].inputs[k])
        == a.input_value(a.nodes[n].inputs[k]) by {
        let i = a.nodes[n].inputs[k];
        if let Some(o) = a.connections[i] {
            if a.output_owner[o] == n {
                assert(a.feeds_via(n, n, k));
            }
        }
    }
    assert(b.node_input_values(n) =~= a.node_input_values(n));
}

/// Registering a node keeps the graph well-formed.
pub proof fn lemma_with_node_wf(g: GraphView, ins: Seq<InputView>, outs: Seq<OutputView>)
    requires
        g.wf(),
        forall|k: int| 0 <= k < outs.len() ==> (#[trigger] outs[k]).well_typed(),
    ensures
        g.with_node(ins, outs).wf(),
{
    let h = g.with_node(ins, outs);
    let m = g.nodes.len() as int;
    assert forall|n: int| 0 <= n < h.nodes.len() implies (#[trigger] h.nodes[n]).outputs.no_duplicates() by {
        if n < m {
            assert(h.nodes[n] == g.nodes[n]);
        }
    }
    assert forall|o: int| 0 <= o < h.outputs.len() implies (#[trigger] h.outputs[o]).well_typed() by {
        if o < g.outputs.len() {
            assert(h.outputs[o] == g.outputs[o]);
        } else {
            assert(h.outputs[o] == outs[o - g.outputs.len()]);
        }
    }
    assert forall|o: int| 0 <= o < h.outputs.len() implies #[trigger] h.nodes[h.output_owner[o]].outputs.contains(o) by {
        if o < g.outputs.len() {
            assert(h.output_owner[o] == g.output_owner[o]);
            assert(h.nodes[g.output_owner[o]] == g.nodes[g.output_owner[o]]);
            assert(h.outputs[o] == g.outputs[o]);
        } else {
            let k = o - g.outputs.len();
            assert(h.outputs[o] == outs[k]);
            assert(h.output_owner[o] == m);
            assert(h.nodes[m].outputs[k] == o);
        }
    }
    assert forall|n1: int, k1: int, n2: int, k2: int|
        0 <= n1 < h.nodes.len() && 0 <= k1 < h.nodes[n1].inputs.len() && 0 <= n2 < h.nodes.len() && 0
            <= k2 < h.nodes[n2].inputs.len() && #[trigger] h.nodes[n1].inputs[k1]
            == #[trigger] h.nodes[n2].inputs[k2] implies n1 == n2 && k1 == k2 by {
        if n1 < m {
            assert(h.nodes[n1] == g.nodes[n1]);
        }
        if n2 < m {
            assert(h.nodes[n2] == g.nodes[n2]);
        }
        if n1 < m && n2 < m {
            assert(g.nodes[n1].inputs[k1] == g.nodes[n2].inputs[k2]);
        }
    }
    assert forall|i: int| 0 <= i < h.connections.len() && #[trigger] h.connections[i] is Some implies h.inputs[i].tag
        == h.outputs[h.connections[i]->0].tag by {
        if i < g.connections.len() {
            assert(h.connections[i] == g.connections[i]);
            assert(g.connections[i] is Some);
        } else {
            assert(h.connections[i] == None::<int>);
        }
    }
    assert forall|i: int| 0 <= i < h.connections.len() && #[trigger] h.connections[i] is Some implies 0
        <= h.connections[i]->0 < h.outputs.len() by {
        if i < g.connections.len() {
            assert(h.connections[i] == g.connections[i]);
        } else {
            assert(h.connections[i] == None::<int>);
        }
    }
    assert forall|n: int, k: int| 0 <= n < h.nodes.len() && 0 <= k < h.nodes[n].inputs.len() implies 0
        <= #[trigger] h.nodes[n].inputs[k] < h.inputs.len() by {
        if n < m {
            assert(h.nodes[n] == g.nodes[n]);
        }
    }
    assert forall|n: int, k: int| 0 <= n < h.nodes.len() && 0 <= k < h.nodes[n].outputs.len() implies 0
        <= #[trigger] h.nodes[n].outputs[k] < h.outputs.len() && h.output_owner[h.nodes[n].outputs[k]]
        == n by {
        if n < m {
            assert(h.nodes[n] == g.nodes[n]);
            assert(h.output_owner[g.nodes[n].outputs[k]] == g.output_owner[g.nodes[n].outputs[k]]);
        }
    }
    assert forall|o: int| 0 <= o < h.output_owner.len() implies 0 <= #[trigger] h.output_owner[o] < h.nodes.len() by {
        if o < g.output_owner.len() {
            assert(h.output_owner[o] == g.output_owner[o]);
        }
    }
}

/// Connecting an input to an output of the same type keeps the graph
/// well-formed.
pub proof fn lemma_with_connection_wf(g: GraphView, i: int, o: int)
    requires
        g.wf(),
        0 <= i < g.inputs.len(),
        0 <= o < g.outputs.len(),
        g.inputs[i].tag == g.outputs[o].tag,
    ensures
        g.with_connection(i, o).wf(),
{
    let h = g.with_connection(i, o);
    assert forall|j: int| 0 <= j < h.connections.len() && #[trigger] h.connections[j] is Some implies h.inputs[j].tag
        == h.outputs[h.connections[j]->0].tag && 0 <= h.connections[j]->0 < h.outputs.len() by {
        if j != i {
            assert(h.connections[j] == g.connections[j]);
        }
    }
}

/// A graph that differs from a well-formed one only in well-typed output
/// values and timestamps is well-formed.
pub proof fn lemma_same_shape_wf(a: GraphView, b: GraphView)
    requires
        a.wf(),
        b.same_shape(a),
        forall|o: int| 0 <= o < b.outputs.len() ==> (#[trigger] b.outputs[o]).well_typed(),
    ensures
        b.wf(),
{
    assert forall|i: int| 0 <= i < b.connections.len() && #[trigger] b.connections[i] is Some implies b.inputs[i].tag
        == b.outputs[b.connections[i]->0].tag by {
        assert(a.connections[i] is Some);
        assert(b.outputs[b.connections[i]->0].tag == a.outputs[a.connections[i]->0].tag);
    }
}

/// Storing well-typed ports of the right types into node `n`'s outputs
/// changes only those outputs' values and timestamps.
pub proof fn lemma_stores_same_shape(g: GraphView, n: int, after: Seq<OutputView>, next: GraphView)
    requires
        g.wf(),
        0 <= n < g.nodes.len(),
        g.fits(n, after),
        forall|k: int| 0 <= k < after.len() ==> (#[trigger] after[k]).well_typed(),
        g.stores(n, after, next),
    ensures
        next.same_shape(g),
        next.wf(),
        forall|o: int|
            0 <= o < g.outputs.len() && g.output_owner[o] != n ==> #[trigger] next.outputs[o]
                == g.outputs[o],
{
    assert forall|o: int| 0 <= o < next.outputs.len() implies (#[trigger] next.outputs[o]).tag
        == g.outputs[o].tag && next.outputs[o].name == g.outputs[o].name && next.outputs[o].well_typed() by {
        if g.output_owner[o] == n {
            assert(g.nodes[n].outputs.contains(o));
            let k = choose|k: int| 0 <= k < g.nodes[n].outputs.len() && g.nodes[n].outputs[k] == o;
            assert(next.outputs[g.nodes[n].outputs[k]] == (OutputView {
                value: after[k].value,
                timestamp: after[k].timestamp,
                ..g.outputs[g.nodes[n].outputs[k]]
            }));
            assert(after[k].well_typed());
        } else {
            assert(g.outputs[o].well_typed());
        }
    }
    lemma_same_shape_wf(g, next);
}

/// Node `n` may run once the nodes marked in `done` have run: each of its
/// connected inputs is fed by such a node.
pub open spec fn ready(g: GraphView, n: int, done: Seq<bool>) -> bool {
    forall|k: int|
        0 <= k < g.nodes[n].inputs.len() ==> match #[trigger] g.connections[g.nodes[n].inputs[k]] {
            Some(o) => done[g.output_owner[o]],
            None => true,
        }
}

/// When no pending node is ready, every node that some update order could
/// reach has already run; with a pending node left, no update order exists.
proof fn lemma_stuck_prefix(g: GraphView, done: Seq<bool>, ord: Seq<int>, p: int)
    requires
        g.wf(),
        done.len() == g.nodes.len(),
        g.is_update_order(ord),
        forall|n: int| 0 <= n < g.nodes.len() && !done[n] ==> !#[trigger] ready(g, n, done),
        0 <= p < ord.len(),
    ensures
        done[ord[p]],
    decreases p,
{
    let n = ord[p];
    if !done[n] {
        assert(!ready(g, n, done));
        let k = choose|k: int|
            0 <= k < g.nodes[n].inputs.len() && !match #[trigger] g.connections[g.nodes[n].inputs[k]] {
                Some(o) => done[g.output_owner[o]],
                None => true,
            };
        let o = g.connections[g.nodes[n].inputs[k]]->0;
        let a = g.output_owner[o];
        assert(g.feeds_via(a, n, k));
        assert(g.feeds(a, n));
        assert(ord.contains(a));
        let r = choose|r: int| 0 <= r < ord.len() && ord[r] == a;
        assert(g.feeds(ord[r], ord[p]));
        lemma_stuck_prefix(g, done, ord, r);
    }
}

/// What holds of a prefix of an update order while it is being built: the
/// nodes marked in `done` are those of `ord`, each after what feeds it.
pub open spec fn is_partial_update_order(g: GraphView, ord: Seq<int>, done: Seq<bool>) -> bool {
    &&& done.len() == g.nodes.len()
    &&& ord.len() <= g.nodes.len()
    &&& ord.no_duplicates()
    &&& forall|p: int| 0 <= p < ord.len() ==> 0 <= #[trigger] ord[p] < g.nodes.len() && done[ord[p]]
    &&& forall|n: int| 0 <= n < g.nodes.len() && #[trigger] done[n] ==> ord.contains(n)
    &&& forall|p: int, q: int|
        0 <= p < ord.len() && 0 <= q < ord.len() && #[trigger] g.feeds(ord[p], ord[q]) ==> p < q
    &&& forall|p: int, a: int| 0 <= p < ord.len() && #[trigger] g.feeds(a, ord[p]) ==> done[a]
    &&& forall|p: int, q: int|
        0 <= p < q < ord.len() && #[trigger] g.is_source(ord[q]) ==> #[trigger] g.is_source(ord[p])
}

/// A pending node that is ready may be appended to a partial update order.
pub(crate) proof fn lemma_emit(g: GraphView, ord: Seq<int>, done: Seq<bool>, n: int)
    requires
        g.wf(),
        is_partial_update_order(g, ord, done),
        0 <= n < g.nodes.len(),
        !done[n],
        ready(g, n, done),
        g.is_source(n) ==> forall|p: int| 0 <= p < ord.len() ==> #[trigger] g.is_source(ord[p]),
    ensures
        is_partial_update_order(g, ord.push(n), done.update(n, true)),
{
    let ord2 = ord.push(n);
    let done2 = done.update(n, true);
    assert forall|a: int| #[trigger] g.feeds(a, n) implies done[a] by {
        let k = choose|k: int| 0 <= k < g.nodes[n].inputs.len() && #[trigger] g.feeds_via(a, n, k);
        assert(match g.connections[g.nodes[n].inputs[k]] {
            Some(o) => done[g.output_owner[o]],
            None => true,
        });
    }
    assert(!ord.contains(n));
    assert(ord2.no_duplicates());
    assert forall|m: int| 0 <= m < g.nodes.len() && #[trigger] done2[m] implies ord2.contains(m) by {
        if m == n {
            assert(ord2[ord.len() as int] == n);
        } else {
            assert(ord.contains(m));
            let p = choose|p: int| 0 <= p < ord.len() && ord[p] == m;
            assert(ord2[p] == m);
        }
    }
    assert forall|p: int, q: int|
        0 <= p < ord2.len() && 0 <= q < ord2.len() && #[trigger] g.feeds(ord2[p], ord2[q]) implies p
        < q by {
        if p == ord.len() {
            if q < ord.len() {
                assert(g.feeds(n, ord[q]));
            } else {
                assert(g.feeds(n, n));
            }
        } else if q < ord.len() {
            assert(g.feeds(ord[p], ord[q]));
        }
    }
    assert forall|p: int, a: int| 0 <= p < ord2.len() && #[trigger] g.feeds(a, ord2[p]) implies done2[a] by {
        if p < ord.len() {
            assert(g.feeds(a, ord[p]));
        }
    }
    assert forall|p: int, q: int|
        0 <= p < q < ord2.len() && #[trigger] g.is_source(ord2[q]) implies #[trigger] g.is_source(
        ord2[p],
    ) by {
        if q < ord.len() {
            assert(g.is_source(ord[q]));
        } else {
            assert(g.is_source(ord[p]));
        }
    }
    lemma_distinct_nodes_bound(ord2, g.nodes.len() as int);
}

pub(crate) proof fn lemma_stuck_has_no_update_order(g: GraphView, done: Seq<bool>, n: int)
    requires
        g.wf(),
        done.len() == g.nodes.len(),
        forall|m: int| 0 <= m < g.nodes.len() && !done[m] ==> !#[trigger] ready(g, m, done),
        0 <= n < g.nodes.len(),
        !done[n],
    ensures
        !g.has_update_order(),
{
    if g.has_update_order() {
        let ord = choose|ord: Seq<int>| g.is_update_order(ord);
        assert(ord.contains(n));
        let p = choose|p: int| 0 <= p < ord.len() && ord[p] == n;
        lemma_stuck_prefix(g, done, ord, p);
    }
}

/// A pending node that feeds pending node `m`, when one exists.
spec fn pending_feeder(g: GraphView, done: Seq<bool>, m: int) -> int {
    choose|a: int| 0 <= a < g.nodes.len() && !done[a] && g.feeds(a, m)
}

/// Starting at `m`, `t` steps back along pending feeders.
spec fn walk_back(g: GraphView, done: Seq<bool>, m: int, t: nat) -> Seq<int>
    decreases t,
{
    if t == 0 {
        seq![m]
    } else {
        let w = walk_back(g, done, m, (t - 1) as nat);
        w.push(pending_feeder(g, done, w.last()))
    }
}

proof fn lemma_walk_back(g: GraphView, done: Seq<bool>, m: int, t: nat)
    requires
        g.wf(),
        done.len() == g.nodes.len(),
        forall|x: int| 0 <= x < g.nodes.len() && !done[x] ==> !#[trigger] ready(g, x, done),
        0 <= m < g.nodes.len(),
        !done[m],
    ensures
        walk_back(g, done, m, t).len() == t + 1,
        forall|j: int|
            0 <= j <= t ==> 0 <= #[trigger] walk_back(g, done, m, t)[j] < g.nodes.len() && !done[walk_back(
                g,
                done,
                m,
                t,
            )[j]],
        forall|j: int|
            0 <= j < t ==> g.feeds(walk_back(g, done, m, t)[j + 1], #[trigger] walk_back(g, done, m, t)[j]),
    decreases t,
{
    if t > 0 {
        lemma_walk_back(g, done, m, (t - 1) as nat);
        let w = walk_back(g, done, m, (t - 1) as nat);
        let x = w.last();
        assert(0 <= x < g.nodes.len() && !done[x]);
        assert(!ready(g, x, done));
        let k = choose|k: int|
            0 <= k < g.nodes[x].inputs.len() && !match #[trigger] g.connections[g.nodes[x].inputs[k]] {
                Some(o) => done[g.output_owner[o]],
                None => true,
            };
        let o = g.connections[g.nodes[x].inputs[k]]->0;
        let a = g.output_owner[o];
        assert(g.feeds_via(a, x, k));
        assert(0 <= a < g.nodes.len() && !done[a] && g.feeds(a, x));
        let w2 = walk_back(g, done, m, t);
        assert(w2 == w.push(pending_feeder(g, done, x)));
        assert forall|j: int| 0 <= j < t implies g.feeds(w2[j + 1], #[trigger] w2[j]) by {
            if j < t - 1 {
                assert(w2[j] == w[j] && w2[j + 1] == w[j + 1]);
            }
        }
        assert forall|j: int| 0 <= j <= t implies 0 <= #[trigger] w2[j] < g.nodes.len() && !done[w2[j]] by {
            if j < t {
                assert(w2[j] == w[j]);
            }
        }
    }
}

/// When no pending node is ready and one is pending, some node feeds
/// itself, directly or through other nodes.
pub(crate) proof fn lemma_stuck_has_cycle(g: GraphView, done: Seq<bool>, m: int)
    requires
        g.wf(),
        done.len() == g.nodes.len(),
        forall|x: int| 0 <= x < g.nodes.len() && !done[x] ==> !#[trigger] ready(g, x, done),
        0 <= m < g.nodes.len(),
        !done[m],
    ensures
        g.has_cycle(),
{
    let count = g.nodes.len();
    let w = walk_back(g, done, m, count);
    lemma_walk_back(g, done, m, count);
    if w.no_duplicates() {
        lemma_distinct_nodes_bound(w, count as int);
        assert(false);
    }
    let (i0, j0) = choose|i0: int, j0: int| 0 <= i0 < w.len() && 0 <= j0 < w.len() && i0 != j0 && w[i0] == w[j0];
    let i = if i0 < j0 { i0 } else { j0 };
    let j = if i0 < j0 { j0 } else { i0 };
    let path = Seq::new((j - i + 1) as nat, |q: int| w[j - q]);
    assert forall|q: int| #![trigger path[q]] 0 <= q < path.len() - 1 implies g.feeds(path[q], path[q + 1]) by {
        assert(g.feeds(w[j - q - 1 + 1], w[j - q - 1]));
        assert(j - q - 1 + 1 == j - q);
    }
    assert(g.is_path(path));
    assert(path[0] == path.last());
}

/// A duplicate-free list of node indices is no longer than the node count.
pub(crate) proof fn lemma_distinct_nodes_bound(ord: Seq<int>, count: int)
    requires
        0 <= count,
        ord.no_duplicates(),
        forall|p: int| 0 <= p < ord.len() ==> 0 <= #[trigger] ord[p] < count,
    ensures
        ord.len() <= count,
{
    ord.unique_seq_to_set();
    lemma_int_range(0, count);
    assert(ord.to_set().subset_of(set_int_range(0, count)));
    lemma_len_subset(ord.to_set(), set_int_range(0, count));
}

} // verus!
