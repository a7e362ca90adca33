//! A small dataflow engine: nodes with typed input and output ports, wired
//! by connections and evaluated in dependency order.

mod graph;
mod input;
mod model;
mod node;
mod output;
mod port;

pub use graph::{
    Graph, InputId, NodeId, OutputId, lemma_fan_out_handed_same, lemma_output_settles_after_producer,
    lemma_steps_keep_registry, node_step, runs_along,
};
pub use input::{Input, InputOf, InputView};
pub use model::{
    GraphView, NodeView, lemma_cycle_has_no_update_order, lemma_same_shape_wf,
    lemma_stores_same_shape, lemma_with_connection_wf, lemma_with_node_wf, lemma_fan_out_reads_agree,
    lemma_fresh_outputs_absent, lemma_own_writes_keep_reads, lemma_path_runs_in_order,
    lemma_sources_run_before_dependents,
};
pub use node::{Node, NodeFunction};
pub use output::{Output, OutputOf, OutputView, next_timestamp, set_result};
pub use port::{GraphError, Port, TypeTag, Value};
