use vstd::prelude::*;

use crate::input::InputOf;
use crate::model::{
    GraphView, NodeView, is_partial_update_order, lemma_cycle_has_no_update_order, lemma_emit,
    lemma_own_writes_keep_reads, lemma_same_shape_wf, lemma_stuck_has_cycle, lemma_stuck_has_no_update_order, lemma_with_connection_wf,
    lemma_with_node_wf, ready,
};
use crate::node::{Node, NodeFunction};
use crate::output::{Output, OutputOf, OutputView};
use crate::port::{GraphError, Port, Value};

verus! {

/// Identifies a node of one graph; never reused within that graph.
#[derive(Debug, Clone, Copy, PartialEq, Eq, Hash, Structural)]
pub struct NodeId(usize);

/// Identifies an input port of one graph; never reused within that graph.
#[derive(Debug, Clone, Copy, PartialEq, Eq, Hash, Structural)]
pub struct InputId(usize);

/// Identifies an output port of one graph; never reused within that graph.
#[derive(Debug, Clone, Copy, PartialEq, Eq, Hash, Structural)]
pub struct OutputId(usize);

impl View for NodeId {
    type V = int;

    closed spec fn view(&self) -> int {
        self.0 as int
    }
}

impl NodeId {
    /// An identifier stands for a non-negative index.
    pub proof fn lemma_view_nonneg(self)
        ensures
            0 <= self@,
    {
    }
}

impl View for InputId {
    type V = int;

    closed spec fn view(&self) -> int {
        self.0 as int
    }
}

impl InputId {
    /// An identifier stands for a non-negative index.
    pub proof fn lemma_view_nonneg(self)
        ensures
            0 <= self@,
    {
    }
}

impl View for OutputId {
    type V = int;

    closed spec fn view(&self) -> int {
        self.0 as int
    }
}

impl OutputId {
    /// An identifier stands for a non-negative index.
    pub proof fn lemma_view_nonneg(self)
        ensures
            0 <= self@,
    {
    }
}

/// The registry of all nodes, ports and connections, and the engine that
/// evaluates them. Ports and nodes live in arenas indexed by their identifiers.
pub struct Graph<F> {
    inputs: Vec<InputOf>,
    outputs: Vec<OutputOf>,
    input_connections: Vec<Option<OutputId>>,
    nodes: Vec<Node<F>>,
    output_owner: Vec<NodeId>,
}

/// The node indices that a list of node identifiers stands for.
pub open spec fn node_indices(ids: Seq<NodeId>) -> Seq<int> {
    ids.map_values(|n: NodeId| n@)
}

/// One run of node `n` under function `f` takes `g` to `next`: handed the
/// values `n` reads and copies of its outputs, `f` left ports of the same
/// types, whose values and timestamps were stored.
pub open spec fn node_step<F: NodeFunction>(f: F, g: GraphView, n: int, next: GraphView) -> bool {
    exists|after: Seq<OutputView>|
        #![trigger g.stores(n, after, next)]
        f.produces(g.node_input_values(n), g.node_outputs(n), after) && g.fits(n, after) && g.stores(
            n,
            after,
            next,
        )
}

/// Running the nodes of `ord` one after another, with the functions `fs`,
/// passes through the graphs `states`.
pub open spec fn runs_along<F: NodeFunction>(fs: Seq<F>, ord: Seq<int>, states: Seq<GraphView>) -> bool {
    &&& states.len() == ord.len() + 1
    &&& forall|p: int|
        #![trigger ord[p]]
        0 <= p < ord.len() ==> node_step(fs[ord[p]], states[p], ord[p], states[p + 1])
}

pub open spec fn connection_view(c: Option<OutputId>) -> Option<int> {
    match c {
        Some(o) => Some(o@),
        None => None,
    }
}

impl<F> View for Graph<F> {
    type V = GraphView;

    closed spec fn view(&self) -> GraphView {
        GraphView {
            inputs: self.inputs@.map_values(|p: InputOf| p@),
            outputs: self.outputs@.map_values(|p: OutputOf| p@),
            connections: self.input_connections@.map_values(|c: Option<OutputId>| connection_view(c)),
            nodes: self.nodes@.map_values(
                |n: Node<F>|
                    NodeView {
                        inputs: n.inputs@.map_values(|i: InputId| i@),
                        outputs: n.outputs@.map_values(|o: OutputId| o@),
                    },
            ),
            output_owner: self.output_owner@.map_values(|n: NodeId| n@),
        }
    }
}

impl<F: NodeFunction> Graph<F> {
    /// The graph's identifiers all refer to registered ports and nodes.
    pub open spec fn wf(&self) -> bool {
        self@.wf()
    }

    /// An empty graph.
    pub fn new() -> (r: Self)
        ensures
            r.wf(),
            r@.inputs.len() == 0,
            r@.outputs.len() == 0,
            r@.connections.len() == 0,
            r@.nodes.len() == 0,
            r@.output_owner.len() == 0,
    {
        Graph {
            inputs: Vec::new(),
            outputs: Vec::new(),
            input_connections: Vec::new(),
            nodes: Vec::new(),
            output_owner: Vec::new(),
        }
    }

    /// Registers a node with the given ports and function. Returns the new
    /// node's identifier and those of its ports, in the order given.
    pub fn add_node(&mut self, inputs: Vec<InputOf>, outputs: Vec<OutputOf>, function: F) -> (r: (
        NodeId,
        Vec<InputId>,
        Vec<OutputId>,
    ))
        requires
            old(self).wf(),
            old(self)@.nodes.len() < usize::MAX,
            old(self)@.inputs.len() + inputs@.len() <= usize::MAX,
            old(self)@.outputs.len() + outputs@.len() <= usize::MAX,
        ensures
            final(self).wf(),
            final(self)@ == old(self)@.with_node(
                inputs@.map_values(|p: InputOf| p@),
                outputs@.map_values(|p: OutputOf| p@),
            ),
            r.0@ == old(self)@.nodes.len(),
            r.1@.len() == inputs@.len(),
            r.2@.len() == outputs@.len(),
            forall|k: int| 0 <= k < r.1@.len() ==> #[trigger] r.1@[k]@ == old(self)@.inputs.len() + k,
            forall|k: int| 0 <= k < r.2@.len() ==> #[trigger] r.2@[k]@ == old(self)@.outputs.len() + k,
            r.1@.map_values(|i: InputId| i@) == final(self)@.nodes.last().inputs,
            r.2@.map_values(|o: OutputId| o@) == final(self)@.nodes.last().outputs,
    {
        let ghost g0 = self@;
        let mut inputs = inputs;
        let mut outputs = outputs;
        let ghost ins = inputs@.map_values(|p: InputOf| p@);
        let ghost outs = outputs@.map_values(|p: OutputOf| p@);
        let node_id = self.get_next_node_id();
        let mut input_ids: Vec<InputId> = Vec::new();
        let mut node_inputs: Vec<InputId> = Vec::new();
        let mut k: usize = 0;
        while k < inputs.len()
            invariant
                0 <= k <= inputs@.len(),
                g0.inputs.len() + inputs@.len() <= usize::MAX,
                self.input_connections@.len() == g0.connections.len() + k,
                self.input_connections@.map_values(|c: Option<OutputId>| connection_view(c))
                    == g0.connections + Seq::new(k as nat, |j: int| None::<int>),
                input_ids@.len() == k,
                node_inputs@ == input_ids@,
                forall|j: int| 0 <= j < k ==> #[trigger] input_ids@[j]@ == g0.inputs.len() + j,
                self.inputs@.map_values(|p: InputOf| p@) == g0.inputs,
                g0.connections.len() == g0.inputs.len(),
                self.outputs@ == old(self).outputs@,
                self.output_owner@ == old(self).output_owner@,
                self.nodes@ == old(self).nodes@,
                self@.inputs == g0.inputs,
                g0 == old(self)@,
            decreases inputs@.len() - k,
        {
            let input_id = self.get_next_input_id();
            input_ids.push(input_id);
            node_inputs.push(input_id);
            let ghost prev = self.input_connections@;
            self.input_connections.push(None);
            proof {
                assert(prev.map_values(|c: Option<OutputId>| connection_view(c)) == g0.connections
                    + Seq::new(k as nat, |j: int| None::<int>));
                assert forall|j: int| 0 <= j < prev.len() implies connection_view(
                    self.input_connections@[j],
                ) == prev.map_values(|c: Option<OutputId>| connection_view(c))[j] by {}
                assert(self.input_connections@.map_values(|c: Option<OutputId>| connection_view(c))
                    =~= g0.connections + Seq::new((k + 1) as nat, |j: int| None::<int>));
            }
            k = k + 1;
        }
        self.inputs.append(&mut inputs);
        proof {
            assert(self.inputs@.map_values(|p: InputOf| p@) =~= g0.inputs + ins);
        }
        let mut output_ids: Vec<OutputId> = Vec::new();
        let mut node_outputs: Vec<OutputId> = Vec::new();
        k = 0;
        while k < outputs.len()
            invariant
                0 <= k <= outputs@.len(),
                g0.outputs.len() + outputs@.len() <= usize::MAX,
                self.output_owner@.len() == g0.output_owner.len() + k,
                self.output_owner@.map_values(|n: NodeId| n@) == g0.output_owner + Seq::new(
                    k as nat,
                    |j: int| g0.nodes.len() as int,
                ),
                node_id@ == g0.nodes.len(),
                output_ids@.len() == k,
                node_outputs@ == output_ids@,
                forall|j: int| 0 <= j < k ==> #[trigger] output_ids@[j]@ == g0.outputs.len() + j,
                self.outputs@.map_values(|p: OutputOf| p@) == g0.outputs,
                g0.output_owner.len() == g0.outputs.len(),
                outs == outputs@.map_values(|p: OutputOf| p@),
                forall|j: int| 0 <= j < k ==> (#[trigger] outs[j]).well_typed(),
                self.inputs@.map_values(|p: InputOf| p@) == g0.inputs + ins,
                self.input_connections@.map_values(|c: Option<OutputId>| connection_view(c))
                    == g0.connections + Seq::new(ins.len(), |j: int| None::<int>),
                self.nodes@ == old(self).nodes@,
                g0 == old(self)@,
            decreases outputs@.len() - k,
        {
            outputs[k].establish_well_typed();
            proof {
                assert(outs[k as int] == outputs@[k as int]@);
            }
            let output_id = self.get_next_output_id();
            output_ids.push(output_id);
            node_outputs.push(output_id);
            let ghost prev = self.output_owner@;
            self.output_owner.push(node_id);
            proof {
                assert(prev.map_values(|n: NodeId| n@) == g0.output_owner + Seq::new(
                    k as nat,
                    |j: int| g0.nodes.len() as int,
                ));
                assert forall|j: int| 0 <= j < prev.len() implies self.output_owner@[j]@
                    == prev.map_values(|n: NodeId| n@)[j] by {}
                assert(self.output_owner@.map_values(|n: NodeId| n@) =~= g0.output_owner + Seq::new(
                    (k + 1) as nat,
                    |j: int| g0.nodes.len() as int,
                ));
            }
            k = k + 1;
        }
        self.outputs.append(&mut outputs);
        self.nodes.push(Node { inputs: node_inputs, outputs: node_outputs, function });
        proof {
            let g1 = g0.with_node(ins, outs);
            lemma_with_node_wf(g0, ins, outs);
            assert(self@.inputs =~= g1.inputs);
            assert(self@.outputs =~= g1.outputs);
            assert(self@.connections =~= g1.connections);
            assert(self@.output_owner =~= g1.output_owner);
            assert(self@.nodes.last().inputs =~= g1.nodes.last().inputs);
            assert(self@.nodes.last().outputs =~= g1.nodes.last().outputs);
            assert(self@.nodes =~= g1.nodes);
            assert(self@ == g1);
            assert(input_ids@.map_values(|i: InputId| i@) =~= self@.nodes.last().inputs);
            assert(output_ids@.map_values(|o: OutputId| o@) =~= self@.nodes.last().outputs);
        }
        (node_id, input_ids, output_ids)
    }

    /// Connects `input` to `output`, replacing any earlier connection of
    /// `input`. Both ports must exist and carry the same type.
    pub fn connect(&mut self, input: &InputId, output: &OutputId) -> (r: Result<(), GraphError>)
        requires
            old(self).wf(),
        ensures
            final(self).wf(),
            !(input@ < old(self)@.inputs.len() && output@ < old(self)@.outputs.len()) ==> r
                == Err::<(), GraphError>(GraphError::UnknownPort),
            input@ < old(self)@.inputs.len() && output@ < old(self)@.outputs.len()
                && old(self)@.inputs[input@].tag != old(self)@.outputs[output@].tag ==> r == Err::<
                (),
                GraphError,
            >(GraphError::TypeMismatch),
            input@ < old(self)@.inputs.len() && output@ < old(self)@.outputs.len()
                && old(self)@.inputs[input@].tag == old(self)@.outputs[output@].tag ==> r is Ok
                && final(self)@ == old(self)@.with_connection(input@, output@),
            r is Err ==> final(self)@ == old(self)@,
    {
        if input.0 >= self.inputs.len() || output.0 >= self.outputs.len() {
            return Err(GraphError::UnknownPort);
        }
        if self.inputs[input.0].type_tag() != self.outputs[output.0].type_tag() {
            return Err(GraphError::TypeMismatch);
        }
        let ghost prev = self.input_connections@;
        self.input_connections.set(input.0, Some(*output));
        let ghost prev_inputs = self.inputs@;
        let mut port = self.inputs[input.0].duplicate();
        port.mark_connected();
        self.inputs.set(input.0, port);
        proof {
            assert forall|j: int| 0 <= j < prev.len() && j != input@ implies self.input_connections@[j]
                == prev[j] by {}
            assert forall|j: int| 0 <= j < prev_inputs.len() && j != input@ implies self.inputs@[j]
                == prev_inputs[j] by {}
            assert(self@.connections =~= old(self)@.connections.update(input@, Some(output@)));
            assert(self@.inputs =~= old(self)@.with_connection(input@, output@).inputs);
            assert(self@ == old(self)@.with_connection(input@, output@));
            lemma_with_connection_wf(old(self)@, input@, output@);
        }
        Ok(())
    }

    /// The value that `id` currently reads: that of the output it is
    /// connected to; `None` when it is unconnected, unknown, or that output
    /// is not yet set.
    pub fn get_input_value(&self, id: &InputId) -> (r: Option<Value>)
        requires
            self.wf(),
        ensures
            r == self@.input_value(id@),
            r is Some ==> r->0.tag() == self@.inputs[id@].tag,
    {
        if id.0 >= self.input_connections.len() {
            return None;
        }
        match self.input_connections[id.0] {
            Some(o) => self.outputs[o.0].value_any(),
            None => None,
        }
    }

    /// The value of output `id`; `None` when it is unknown or not yet set.
    pub fn get_output_value(&self, id: &OutputId) -> (r: Option<Value>)
        requires
            self.wf(),
        ensures
            r == self@.output_value(id@),
            r is Some ==> r->0.tag() == self@.outputs[id@].tag,
    {
        if id.0 >= self.outputs.len() {
            return None;
        }
        self.outputs[id.0].value_any()
    }

    /// The output that `id` is connected to, if any.
    pub fn get_input_source(&self, id: &InputId) -> (r: Option<OutputId>)
        requires
            self.wf(),
        ensures
            match r {
                Some(o) => id@ < self@.connections.len() && self@.connections[id@] == Some(o@),
                None => id@ >= self@.connections.len() || self@.connections[id@] is None,
            },
    {
        if id.0 >= self.input_connections.len() {
            return None;
        }
        self.input_connections[id.0]
    }

    /// The output port `id`, for its tag, value and timestamp.
    pub fn get_output_port(&self, id: &OutputId) -> (r: Option<&OutputOf>)
        requires
            self.wf(),
        ensures
            match r {
                Some(p) => id@ < self@.outputs.len() && p@ == self@.outputs[id@],
                None => id@ >= self@.outputs.len(),
            },
    {
        if id.0 >= self.outputs.len() {
            return None;
        }
        Some(&self.outputs[id.0])
    }

    /// The input port `id`, for its tag and timestamp.
    pub fn get_input_port(&self, id: &InputId) -> (r: Option<&InputOf>)
        requires
            self.wf(),
        ensures
            match r {
                Some(p) => id@ < self@.inputs.len() && p@ == self@.inputs[id@],
                None => id@ >= self@.inputs.len(),
            },
    {
        if id.0 >= self.inputs.len() {
            return None;
        }
        Some(&self.inputs[id.0])
    }

    /// The functions of the nodes, by node index.
    pub closed spec fn functions(&self) -> Seq<F> {
        self.nodes@.map_values(|n: Node<F>| n.function)
    }

    /// Evaluates the whole graph once: runs every node, each after the nodes
    /// that feed it, with source nodes first. A cycle among the connections
    /// is reported before any node runs. An unconnected input, or a node
    /// function that alters the ports lent to it, stops the evaluation there:
    /// the nodes that ran before keep what they wrote.
    pub fn update(&mut self) -> (r: Result<(), GraphError>)
        requires
            old(self).wf(),
        ensures
            final(self).wf(),
            final(self)@.same_shape(old(self)@),
            final(self).functions() == old(self).functions(),
            r == Err::<(), GraphError>(GraphError::GraphHasCycle) <==> !old(self)@.has_update_order(),
            r == Err::<(), GraphError>(GraphError::GraphHasCycle) <==> old(self)@.has_cycle(),
            r == Err::<(), GraphError>(GraphError::GraphHasCycle) ==> final(self)@ == old(self)@,
            old(self)@.nodes.len() == 0 ==> r is Ok,
            r is Ok ==> exists|ord: Seq<int>, states: Seq<GraphView>|
                #![trigger old(self)@.is_update_order(ord), runs_along(old(self).functions(), ord, states)]
                old(self)@.is_update_order(ord) && runs_along(old(self).functions(), ord, states)
                    && states[0] == old(self)@ && states.last() == final(self)@,
            r is Err && r != Err::<(), GraphError>(GraphError::GraphHasCycle) ==> exists|
                ord: Seq<int>,
                states: Seq<GraphView>,
            |
                #![trigger old(self)@.is_update_order(ord), states[0]]
                old(self)@.is_update_order(ord) && states.len() <= ord.len() && runs_along(
                    old(self).functions(),
                    ord.take(states.len() - 1),
                    states,
                ) && states[0] == old(self)@ && states.last() == final(self)@,
            old(self)@.has_update_order() && old(self)@.all_inputs_connected() ==> r is Ok || r
                == Err::<(), GraphError>(GraphError::TypeMismatch),
            match r {
                Err(GraphError::UnresolvedInput(node, input)) => 0 <= node@ < old(self)@.nodes.len()
                    && old(self)@.is_first_unconnected(node@, input@)
                    && !old(self)@.all_inputs_connected(),
                _ => true,
            },
            r is Ok ==> old(self)@.all_inputs_connected(),
            r != Err::<(), GraphError>(GraphError::UnknownNodeId),
            r != Err::<(), GraphError>(GraphError::UnknownPort),
    {
        proof {
            if self@.nodes.len() == 0 {
                assert(self@.is_update_order(Seq::<int>::empty()));
            }
        }
        let order = match self.calculate_node_update_order() {
            Ok(order) => order,
            Err(e) => {
                proof {
                    if self@.has_cycle() {
                        let path = choose|path: Seq<int>| self@.is_path(path) && path[0] == path.last();
                        lemma_cycle_has_no_update_order(self@, path);
                    }
                }
                return Err(e);
            },
        };
        proof {
            assert(self@.has_update_order());
            if self@.has_cycle() {
                let path = choose|path: Seq<int>| self@.is_path(path) && path[0] == path.last();
                lemma_cycle_has_no_update_order(self@, path);
            }
        }
        let ghost ord = node_indices(order@);
        let ghost fs = self.functions();
        let ghost mut states: Seq<GraphView> = seq![self@];
        proof {
            assert(ord.take(0) =~= Seq::<int>::empty());
        }
        let mut p: usize = 0;
        while p < order.len()
            invariant
                self.wf(),
                self@.same_shape(old(self)@),
                self.functions() == fs,
                fs == old(self).functions(),
                old(self)@.wf(),
                old(self)@.has_update_order(),
                !old(self)@.has_cycle(),
                ord == node_indices(order@),
                old(self)@.is_update_order(ord),
                p <= order@.len(),
                states.len() == p + 1,
                states[0] == old(self)@,
                states.last() == self@,
                runs_along(fs, ord.take(p as int), states),
                forall|q: int| 0 <= q < p ==> old(self)@.inputs_connected(#[trigger] ord[q]),
            decreases order@.len() - p,
        {
            proof {
                assert(ord[p as int] == order@[p as int]@);
            }
            let ghost before = self@;
            match self.run_node(&order[p]) {
                Ok(()) => {},
                Err(e) => {
                    proof {
                        if let GraphError::UnresolvedInput(node, input) = e {
                            let n = order@[p as int]@;
                            assert(!self@.inputs_connected(n));
                            assert(!old(self)@.inputs_connected(n));
                            assert(self@.is_first_unconnected(n, input@));
                            let k = choose|k: int|
                                0 <= k < self@.nodes[n].inputs.len() && #[trigger] self@.nodes[n].inputs[k]
                                    == input@ && self@.connections[input@] is None && forall|j: int|
                                    0 <= j < k ==> #[trigger] self@.connections[self@.nodes[n].inputs[j]] is Some;
                            assert(old(self)@.nodes[n].inputs[k] == input@);
                            assert(old(self)@.is_first_unconnected(n, input@));
                        }
                        assert(states.len() <= ord.len());
                        assert(states.len() - 1 == p);
                        assert(self@ == before);
                        assert(runs_along(fs, ord.take(states.len() - 1), states));
                        assert(old(self)@.is_update_order(ord));
                    }
                    return Err(e);
                },
            }
            proof {
                let n = ord[p as int];
                assert(self@.inputs_connected(n) == old(self)@.inputs_connected(n));
                let states2 = states.push(self@);
                assert(node_step(fs[n], before, n, self@));
                assert forall|q: int| 0 <= q < p + 1 implies #[trigger] node_step(
                    fs[ord.take(p + 1)[q]],
                    states2[q],
                    ord.take(p + 1)[q],
                    states2[q + 1],
                ) by {
                    if q < p {
                        assert(ord.take(p as int)[q] == ord.take(p + 1)[q]);
                        assert(node_step(fs[ord.take(p as int)[q]], states[q], ord.take(p as int)[q], states[q + 1]));
                    }
                }
                states = states2;
            }
            p = p + 1;
        }
        proof {
            assert forall|n: int| 0 <= n < old(self)@.nodes.len() implies #[trigger] old(self)@.inputs_connected(n) by {
                assert(ord.contains(n));
                let q = choose|q: int| 0 <= q < ord.len() && ord[q] == n;
            }
            assert(ord.take(ord.len() as int) =~= ord);
        }
        Ok(())
    }

    /// Runs the function of node `id` once, on the values its inputs read
    /// now and with its own outputs lent to it, and stores what it leaves in
    /// them; no other node runs. Fails with `UnknownNodeId` for an unknown
    /// node, with `UnresolvedInput` when one of its inputs is unconnected,
    /// and with `TypeMismatch` when the function changed the number or the
    /// types of the ports lent to it. On failure the graph is left as it was.
    pub fn run_node(&mut self, id: &NodeId) -> (r: Result<(), GraphError>)
        requires
            old(self).wf(),
        ensures
            final(self).wf(),
            final(self)@.same_shape(old(self)@),
            final(self).functions() == old(self).functions(),
            forall|o: int|
                0 <= o < old(self)@.outputs.len() && old(self)@.output_owner[o] != id@
                    ==> #[trigger] final(self)@.outputs[o] == old(self)@.outputs[o],
            id@ >= old(self)@.nodes.len() ==> r == Err::<(), GraphError>(GraphError::UnknownNodeId),
            id@ < old(self)@.nodes.len() && !old(self)@.inputs_connected(id@) ==> match r {
                Err(GraphError::UnresolvedInput(node, input)) => node == *id
                    && old(self)@.is_first_unconnected(id@, input@),
                _ => false,
            },
            id@ < old(self)@.nodes.len() && old(self)@.inputs_connected(id@) ==> r is Ok || r
                == Err::<(), GraphError>(GraphError::TypeMismatch),
            r is Ok ==> node_step(old(self).functions()[id@], old(self)@, id@, final(self)@),
            r == Err::<(), GraphError>(GraphError::TypeMismatch) ==> exists|after: Seq<OutputView>|
                old(self).functions()[id@].produces(
                    old(self)@.node_input_values(id@),
                    old(self)@.node_outputs(id@),
                    after,
                ) && !old(self)@.fits(id@, after),
            r is Err ==> final(self)@ == old(self)@,
            id@ < old(self)@.nodes.len() && !old(self)@.feeds(id@, id@) ==> final(self)@.node_input_values(id@)
                == old(self)@.node_input_values(id@),
    {
        if id.0 >= self.nodes.len() {
            return Err(GraphError::UnknownNodeId);
        }
        let values = match self.gather_inputs(id) {
            Ok(values) => values,
            Err(e) => {
                return Err(e);
            },
        };
        let mut lent = self.lend_outputs(id);
        let ghost before = lent@.map_values(|p: OutputOf| p@);
        self.nodes[id.0].function.run(&values, &mut lent);
        proof {
            assert(self.functions()[id@] == self.nodes@[id@].function);
        }
        let ghost g = self@;
        let r = self.store_outputs(id, &lent);
        proof {
            let after = lent@.map_values(|p: OutputOf| p@);
            if r is Ok {
                assert(g.fits(id@, after));
                assert(g.stores(id@, after, self@));
                assert(node_step(old(self).functions()[id@], g, id@, self@));
                if !g.feeds(id@, id@) {
                    lemma_own_writes_keep_reads(g, self@, id@);
                }
            }
        }
        r
    }

    /// The values that node `id` reads, one per input in order; fails on the
    /// first input without a connection.
    fn gather_inputs(&self, id: &NodeId) -> (r: Result<Vec<Option<Value>>, GraphError>)
        requires
            self.wf(),
            id@ < self@.nodes.len(),
        ensures
            self@.inputs_connected(id@) ==> r is Ok && r->Ok_0@ == self@.node_input_values(id@),
            !self@.inputs_connected(id@) ==> match r {
                Err(GraphError::UnresolvedInput(node, input)) => node == *id
                    && self@.is_first_unconnected(id@, input@),
                _ => false,
            },
    {
        let n = id.0;
        let ghost g = self@;
        let ghost node = g.nodes[n as int];
        let mut values: Vec<Option<Value>> = Vec::new();
        let ninputs = self.nodes[n].inputs.len();
        let mut k: usize = 0;
        while k < ninputs
            invariant
                self.wf(),
                self@ == g,
                id@ == n,
                n < g.nodes.len(),
                node == g.nodes[n as int],
                ninputs == node.inputs.len(),
                k <= ninputs,
                values@.len() == k,
                forall|j: int|
                    0 <= j < k ==> #[trigger] g.connections[node.inputs[j]] is Some && values@[j]
                        == g.input_value(node.inputs[j]),
            decreases ninputs - k,
        {
            let input = self.nodes[n].inputs[k].0;
            proof {
                assert(node.inputs[k as int] == input as int);
                assert(g.connections[input as int] == connection_view(
                    self.input_connections@[input as int],
                ));
            }
            match self.input_connections[input] {
                Some(o) => {
                    values.push(self.outputs[o.0].value_any());
                },
                None => {
                    proof {
                        assert(g.connections[node.inputs[k as int]] is None);
                        assert(g.nodes[n as int].inputs[k as int] == input as int);
                        assert(g.is_first_unconnected(n as int, input as int));
                    }
                    return Err(GraphError::UnresolvedInput(*id, self.nodes[n].inputs[k]));
                },
            }
            k = k + 1;
        }
        proof {
            assert(values@ =~= g.node_input_values(n as int));
        }
        Ok(values)
    }

    /// Copies of the output ports of node `id`, in order, to lend to its function.
    fn lend_outputs(&self, id: &NodeId) -> (r: Vec<OutputOf>)
        requires
            self.wf(),
            id@ < self@.nodes.len(),
        ensures
            r@.map_values(|p: OutputOf| p@) == self@.node_outputs(id@),
    {
        let n = id.0;
        let ghost g = self@;
        let ghost node = g.nodes[n as int];
        let noutputs = self.nodes[n].outputs.len();
        let mut lent: Vec<OutputOf> = Vec::new();
        let mut k: usize = 0;
        while k < noutputs
            invariant
                self.wf(),
                self@ == g,
                n < g.nodes.len(),
                node == g.nodes[n as int],
                noutputs == node.outputs.len(),
                k <= noutputs,
                lent@.len() == k,
                forall|j: int| 0 <= j < k ==> (#[trigger] lent@[j])@ == g.outputs[node.outputs[j]],
            decreases noutputs - k,
        {
            let o = self.nodes[n].outputs[k].0;
            proof {
                assert(node.outputs[k as int] == o as int);
            }
            lent.push(self.outputs[o].duplicate());
            k = k + 1;
        }
        proof {
            assert(lent@.map_values(|p: OutputOf| p@) =~= g.node_outputs(n as int));
        }
        lent
    }

    /// Takes back the ports lent to node `id`: if they still match its
    /// outputs in number and types, their values and timestamps are stored.
    fn store_outputs(&mut self, id: &NodeId, lent: &Vec<OutputOf>) -> (r: Result<(), GraphError>)
        requires
            old(self).wf(),
            id@ < old(self)@.nodes.len(),
        ensures
            final(self).wf(),
            final(self).functions() == old(self).functions(),
            r is Ok <==> old(self)@.fits(id@, lent@.map_values(|p: OutputOf| p@)),
            r is Ok ==> old(self)@.stores(id@, lent@.map_values(|p: OutputOf| p@), final(self)@),
            r is Ok ==> final(self)@.same_shape(old(self)@),
            r is Err ==> r == Err::<(), GraphError>(GraphError::TypeMismatch) && final(self)@ == old(
                self,
            )@,
    {
        let n = id.0;
        let ghost g = self@;
        let ghost node = g.nodes[n as int];
        let ghost after = lent@.map_values(|p: OutputOf| p@);
        let noutputs = self.nodes[n].outputs.len();
        if lent.len() != noutputs {
            return Err(GraphError::TypeMismatch);
        }
        let mut k: usize = 0;
        while k < noutputs
            invariant
                self.wf(),
                self@ == g,
                g == old(self)@,
                id@ == n,
                n < g.nodes.len(),
                node == g.nodes[n as int],
                noutputs == node.outputs.len(),
                lent@.len() == noutputs,
                after == lent@.map_values(|p: OutputOf| p@),
                k <= noutputs,
                forall|j: int| 0 <= j < k ==> (#[trigger] after[j]).tag == g.outputs[node.outputs[j]].tag,
            decreases noutputs - k,
        {
            let o = self.nodes[n].outputs[k].0;
            proof {
                assert(node.outputs[k as int] == o as int);
            }
            if lent[k].type_tag() != self.outputs[o].type_tag() {
                proof {
                    assert(after[k as int] == lent@[k as int]@);
                    assert(self@.outputs[o as int] == self.outputs@[o as int]@);
                    assert(after[k as int].tag != g.outputs[g.nodes[n as int].outputs[k as int]].tag);
                }
                return Err(GraphError::TypeMismatch);
            }
            k = k + 1;
        }
        k = 0;
        while k < noutputs
            invariant
                self.wf(),
                self@.same_shape(g),
                g.wf(),
                g == old(self)@,
                self.functions() == old(self).functions(),
                id@ == n,
                n < g.nodes.len(),
                node == g.nodes[n as int],
                noutputs == node.outputs.len(),
                lent@.len() == noutputs,
                after == lent@.map_values(|p: OutputOf| p@),
                g.fits(n as int, after),
                k <= noutputs,
                forall|j: int|
                    0 <= j < k ==> self@.outputs[#[trigger] node.outputs[j]] == (OutputView {
                        value: after[j].value,
                        timestamp: after[j].timestamp,
                        ..g.outputs[node.outputs[j]]
                    }),
                forall|j: int|
                    k <= j < noutputs ==> self@.outputs[#[trigger] node.outputs[j]] == g.outputs[node.outputs[j]],
                forall|o: int|
                    0 <= o < g.outputs.len() && g.output_owner[o] != id@
                        ==> #[trigger] self@.outputs[o] == g.outputs[o],
            decreases noutputs - k,
        {
            let o = self.nodes[n].outputs[k].0;
            proof {
                assert(node.outputs[k as int] == o as int);
                assert(g.output_owner[o as int] == n);
                assert(self@.outputs[o as int] == self.outputs@[o as int]@);
                assert(after[k as int] == lent@[k as int]@);
            }
            let mut port = self.outputs[o].duplicate();
            port.take_state(&lent[k]);
            let ghost prev = self.outputs@;
            let ghost prev_view = self@;
            self.outputs.set(o, port);
            proof {
                assert forall|j: int| 0 <= j < prev.len() && j != o implies self.outputs@[j] == prev[j] by {}
                assert(self@.outputs =~= prev_view.outputs.update(o as int, port@));
                assert forall|j: int| 0 <= j < noutputs && j != k implies node.outputs[j] != o by {
                    assert(g.nodes[n as int].outputs.no_duplicates());
                }
                assert forall|x: int| 0 <= x < self@.outputs.len() implies (#[trigger] self@.outputs[x]).well_typed() by {
                    if x != o {
                        assert(prev_view.outputs[x].well_typed());
                    }
                }
                lemma_same_shape_wf(g, self@);
            }
            k = k + 1;
        }
        Ok(())
    }

    /// Whether every connected input of node `n` is fed by a node marked in `done`.
    fn is_ready(&self, n: usize, done: &Vec<bool>) -> (r: bool)
        requires
            self.wf(),
            n < self@.nodes.len(),
            done@.len() == self@.nodes.len(),
        ensures
            r == ready(self@, n as int, done@),
    {
        let node = &self.nodes[n];
        let mut k: usize = 0;
        while k < node.inputs.len()
            invariant
                self.wf(),
                n < self@.nodes.len(),
                done@.len() == self@.nodes.len(),
                *node == self.nodes@[n as int],
                0 <= k <= node.inputs@.len(),
                forall|j: int|
                    0 <= j < k ==> match #[trigger] self@.connections[self@.nodes[n as int].inputs[j]] {
                        Some(o) => done@[self@.output_owner[o]],
                        None => true,
                    },
            decreases node.inputs@.len() - k,
        {
            proof {
                assert(self@.nodes[n as int].inputs[k as int] == node.inputs@[k as int]@);
            }
            let input = node.inputs[k].0;
            proof {
                assert(self@.connections[input as int] == connection_view(
                    self.input_connections@[input as int],
                ));
            }
            match self.input_connections[input] {
                Some(o) => {
                    proof {
                        assert(self@.connections[input as int] == Some(o@));
                        assert(self@.output_owner[o@] == self.output_owner@[o@]@);
                    }
                    if !done[self.output_owner[o.0].0] {
                        return false;
                    }
                },
                None => {},
            }
            k = k + 1;
        }
        true
    }

    /// An order in which to run every node: source nodes first, and each
    /// node after every node that feeds it. Fails exactly when no such order
    /// exists, that is when the connections form a cycle.
    fn calculate_node_update_order(&self) -> (r: Result<Vec<NodeId>, GraphError>)
        requires
            self.wf(),
        ensures
            match r {
                Ok(ord) => self@.is_update_order(node_indices(ord@)),
                Err(e) => e == GraphError::GraphHasCycle && !self@.has_update_order()
                    && self@.has_cycle(),
            },
    {
        let count = self.nodes.len();
        let mut done: Vec<bool> = Vec::new();
        let mut i: usize = 0;
        while i < count
            invariant
                i <= count,
                done@.len() == i,
                forall|j: int| 0 <= j < i ==> !done@[j],
            decreases count - i,
        {
            done.push(false);
            i = i + 1;
        }
        let mut order: Vec<NodeId> = Vec::new();
        proof {
            assert(node_indices(order@) =~= Seq::<int>::empty());
        }
        // Source nodes first, in identifier order.
        i = 0;
        while i < count
            invariant
                self.wf(),
                count == self@.nodes.len(),
                i <= count,
                is_partial_update_order(self@, node_indices(order@), done@),
                forall|j: int| 0 <= j < count ==> (done@[j] <==> (j < i && self@.is_source(j))),
                forall|p: int| 0 <= p < order@.len() ==> #[trigger] self@.is_source(node_indices(order@)[p]),
            decreases count - i,
        {
            if self.nodes[i].inputs.len() == 0 {
                proof {
                    lemma_emit(self@, node_indices(order@), done@, i as int);
                }
                let ghost prev = order@;
                order.push(NodeId(i));
                done.set(i, true);
                proof {
                    assert(node_indices(order@) =~= node_indices(prev).push(i as int));
                }
            }
            i = i + 1;
        }
        // Then, pass after pass, every pending node whose producers have run.
        let mut progress = true;
        while progress
            invariant
                self.wf(),
                count == self@.nodes.len(),
                is_partial_update_order(self@, node_indices(order@), done@),
                forall|j: int| 0 <= j < count && #[trigger] self@.is_source(j) ==> done@[j],
                !progress ==> forall|j: int|
                    0 <= j < count && !done@[j] ==> !#[trigger] ready(self@, j, done@),
            decreases count - order@.len() + (if progress { 1int } else { 0int }),
        {
            progress = false;
            let ghost len0 = order@.len();
            let mut m: usize = 0;
            while m < count
                invariant
                    self.wf(),
                    count == self@.nodes.len(),
                    m <= count,
                    is_partial_update_order(self@, node_indices(order@), done@),
                    forall|j: int| 0 <= j < count && #[trigger] self@.is_source(j) ==> done@[j],
                    order@.len() >= len0,
                    progress ==> order@.len() > len0,
                    !progress ==> forall|j: int|
                        0 <= j < m && !done@[j] ==> !#[trigger] ready(self@, j, done@),
                decreases count - m,
            {
                if !done[m] && self.is_ready(m, &done) {
                    proof {
                        lemma_emit(self@, node_indices(order@), done@, m as int);
                    }
                    let ghost prev = order@;
                    order.push(NodeId(m));
                    done.set(m, true);
                    proof {
                        assert(node_indices(order@) =~= node_indices(prev).push(m as int));
                    }
                    progress = true;
                }
                m = m + 1;
            }
        }
        // A node still pending waits, directly or not, on a cycle.
        i = 0;
        while i < count
            invariant
                self.wf(),
                count == self@.nodes.len(),
                i <= count,
                is_partial_update_order(self@, node_indices(order@), done@),
                forall|j: int| 0 <= j < count && !done@[j] ==> !#[trigger] ready(self@, j, done@),
                forall|j: int| 0 <= j < i ==> done@[j],
            decreases count - i,
        {
            if !done[i] {
                proof {
                    lemma_stuck_has_no_update_order(self@, done@, i as int);
                    lemma_stuck_has_cycle(self@, done@, i as int);
                }
                return Err(GraphError::GraphHasCycle);
            }
            i = i + 1;
        }
        proof {
            let ord = node_indices(order@);
            assert forall|n: int| 0 <= n < count implies #[trigger] ord.contains(n) by {
                assert(done@[n]);
            }
        }
        Ok(order)
    }

    fn get_next_node_id(&self) -> (r: NodeId)
        ensures
            r@ == self.nodes@.len(),
    {
        NodeId(self.nodes.len())
    }

    fn get_next_input_id(&self) -> (r: InputId)
        ensures
            r@ == self.input_connections@.len(),
    {
        InputId(self.input_connections.len())
    }

    fn get_next_output_id(&self) -> (r: OutputId)
        ensures
            r@ == self.output_owner@.len(),
    {
        OutputId(self.output_owner.len())
    }
}

/// Running nodes changes no port, node or connection: every graph passed
/// through has the registry of the first.
pub proof fn lemma_steps_keep_registry<F: NodeFunction>(
    fs: Seq<F>,
    ord: Seq<int>,
    states: Seq<GraphView>,
    q: int,
)
    requires
        runs_along(fs, ord, states),
        0 <= q < states.len(),
    ensures
        states[q].inputs == states[0].inputs,
        states[q].connections == states[0].connections,
        states[q].nodes == states[0].nodes,
        states[q].output_owner == states[0].output_owner,
        states[q].outputs.len() == states[0].outputs.len(),
    decreases q,
{
    if q > 0 {
        lemma_steps_keep_registry(fs, ord, states, q - 1);
        assert(node_step(fs[ord[q - 1]], states[q - 1], ord[q - 1], states[q]));
    }
}

/// Once node `a` has run, its output `o` keeps its value and timestamp to
/// the end of the run: every node that runs later and reads `o` is handed
/// the same value, the one `o` holds at the end.
pub proof fn lemma_output_settles_after_producer<F: NodeFunction>(
    fs: Seq<F>,
    ord: Seq<int>,
    states: Seq<GraphView>,
    pa: int,
    o: int,
    q: int,
)
    requires
        runs_along(fs, ord, states),
        ord.no_duplicates(),
        0 <= pa < ord.len(),
        0 <= o < states[0].outputs.len(),
        states[0].output_owner[o] == ord[pa],
        pa < q < states.len(),
    ensures
        states[q].outputs[o] == states.last().outputs[o],
    decreases states.len() - q,
{
    if q < states.len() - 1 {
        lemma_output_settles_after_producer(fs, ord, states, pa, o, q + 1);
        lemma_steps_keep_registry(fs, ord, states, q);
        assert(node_step(fs[ord[q]], states[q], ord[q], states[q + 1]));
        let after = choose|after: Seq<OutputView>|
            #![trigger states[q].stores(ord[q], after, states[q + 1])]
            fs[ord[q]].produces(states[q].node_input_values(ord[q]), states[q].node_outputs(ord[q]), after)
                && states[q].fits(ord[q], after) && states[q].stores(ord[q], after, states[q + 1]);
        assert(ord[q] != ord[pa]);
        assert(states[q + 1].outputs[o] == states[q].outputs[o]);
    }
}

/// Two inputs fed by the same output are handed the same value, whenever
/// their nodes run after the output's node: the value that output holds at
/// the end of the run.
pub proof fn lemma_fan_out_handed_same<F: NodeFunction>(
    fs: Seq<F>,
    ord: Seq<int>,
    states: Seq<GraphView>,
    pa: int,
    o: int,
    i1: int,
    q1: int,
    i2: int,
    q2: int,
)
    requires
        runs_along(fs, ord, states),
        ord.no_duplicates(),
        0 <= pa < ord.len(),
        0 <= o < states[0].outputs.len(),
        states[0].output_owner[o] == ord[pa],
        0 <= i1 < states[0].connections.len(),
        0 <= i2 < states[0].connections.len(),
        states[0].connections[i1] == Some(o),
        states[0].connections[i2] == Some(o),
        pa < q1 < states.len(),
        pa < q2 < states.len(),
    ensures
        states[q1].input_value(i1) == states[q2].input_value(i2),
        states[q1].input_value(i1) == states.last().output_value(o),
{
    lemma_steps_keep_registry(fs, ord, states, q1);
    lemma_steps_keep_registry(fs, ord, states, q2);
    lemma_steps_keep_registry(fs, ord, states, states.len() - 1);
    lemma_output_settles_after_producer(fs, ord, states, pa, o, q1);
    lemma_output_settles_after_producer(fs, ord, states, pa, o, q2);
}

} // verus!
