use vstd::prelude::*;

use crate::graph::{InputId, OutputId};
use crate::output::{OutputOf, OutputView};
use crate::port::Value;

verus! {

/// The computation attached to a node.
///
/// `inputs` holds one entry per declared input, in declaration order: the
/// value of the output feeding that input, or `None` while that output is
/// unset. `outputs` holds the node's own output ports, in declaration order,
/// lent to the function for the length of the call.
///
/// The function should only read `inputs`, only write through
/// [`OutputOf::set`], and give the same results for the same inputs. It must
/// not change the number of ports or replace a port with one of another type:
/// the graph then refuses the results with [`crate::GraphError::TypeMismatch`].
pub trait NodeFunction {
    /// What one call may leave in the lent ports (`after`), given the input
    /// values and the ports as they were lent (`before`). A function written
    /// outside verified code promises nothing, which is the default; a
    /// verified one may say exactly what it computes.
    open spec fn produces(
        &self,
        inputs: Seq<Option<Value>>,
        before: Seq<OutputView>,
        after: Seq<OutputView>,
    ) -> bool {
        true
    }

    fn run(&self, inputs: &Vec<Option<Value>>, outputs: &mut Vec<OutputOf>)
        ensures
            self.produces(
                inputs@,
                old(outputs)@.map_values(|p: OutputOf| p@),
                final(outputs)@.map_values(|p: OutputOf| p@),
            ),
    ;
}

/// A node: its ports, in the order its function sees them, and its function.
pub struct Node<F> {
    pub(crate) inputs: Vec<InputId>,
    pub(crate) outputs: Vec<OutputId>,
    pub(crate) function: F,
}

} // verus!
