use vstd::prelude::*;

use crate::graph::{InputId, NodeId};

verus! {

/// The runtime identity of the type of value a port carries.
#[derive(Debug, Clone, Copy, PartialEq, Eq, Hash, Structural)]
pub enum TypeTag {
    Bool,
    U32,
    U64,
    I64,
}

/// A type-erased port value: one variant per supported value type.
#[derive(Debug, Clone, Copy, PartialEq, Eq, Hash, Structural)]
pub enum Value {
    Bool(bool),
    U32(u32),
    U64(u64),
    I64(i64),
}

/// The ways in which a graph operation can fail.
#[derive(Debug, Clone, Copy, PartialEq, Eq, Hash, Structural)]
pub enum GraphError {
    /// A node identifier that the graph never handed out.
    UnknownNodeId,
    /// A port identifier that the graph never handed out.
    UnknownPort,
    /// An input without a connection was read while running a node: the
    /// node, and the first of its inputs that has no connection.
    UnresolvedInput(NodeId, InputId),
    /// A value or a connection does not match the type tag of a port.
    TypeMismatch,
    /// The connections form a cycle, so no evaluation order exists.
    GraphHasCycle,
}

impl Value {
    /// The type tag of the variant.
    pub open spec fn tag(self) -> TypeTag {
        match self {
            Value::Bool(_) => TypeTag::Bool,
            Value::U32(_) => TypeTag::U32,
            Value::U64(_) => TypeTag::U64,
            Value::I64(_) => TypeTag::I64,
        }
    }

    pub fn type_tag(&self) -> (r: TypeTag)
        ensures
            r == self.tag(),
    {
        match self {
            Value::Bool(_) => TypeTag::Bool,
            Value::U32(_) => TypeTag::U32,
            Value::U64(_) => TypeTag::U64,
            Value::I64(_) => TypeTag::I64,
        }
    }

    /// Checked read as `bool`.
    pub fn as_bool(&self) -> (r: Result<bool, GraphError>)
        ensures
            match *self {
                Value::Bool(b) => r == Ok::<bool, GraphError>(b),
                _ => r == Err::<bool, GraphError>(GraphError::TypeMismatch),
            },
    {
        match self {
            Value::Bool(b) => Ok(*b),
            _ => Err(GraphError::TypeMismatch),
        }
    }

    /// Checked read as `u32`.
    pub fn as_u32(&self) -> (r: Result<u32, GraphError>)
        ensures
            match *self {
                Value::U32(x) => r == Ok::<u32, GraphError>(x),
                _ => r == Err::<u32, GraphError>(GraphError::TypeMismatch),
            },
    {
        match self {
            Value::U32(x) => Ok(*x),
            _ => Err(GraphError::TypeMismatch),
        }
    }

    /// Checked read as `u64`.
    pub fn as_u64(&self) -> (r: Result<u64, GraphError>)
        ensures
            match *self {
                Value::U64(x) => r == Ok::<u64, GraphError>(x),
                _ => r == Err::<u64, GraphError>(GraphError::TypeMismatch),
            },
    {
        match self {
            Value::U64(x) => Ok(*x),
            _ => Err(GraphError::TypeMismatch),
        }
    }

    /// Checked read as `i64`.
    pub fn as_i64(&self) -> (r: Result<i64, GraphError>)
        ensures
            match *self {
                Value::I64(x) => r == Ok::<i64, GraphError>(x),
                _ => r == Err::<i64, GraphError>(GraphError::TypeMismatch),
            },
    {
        match self {
            Value::I64(x) => Ok(*x),
            _ => Err(GraphError::TypeMismatch),
        }
    }
}

/// What every port exposes: its fixed type tag and the time of its last change.
pub trait Port {
    spec fn tag_spec(&self) -> TypeTag;

    spec fn timestamp_spec(&self) -> u64;

    fn type_tag(&self) -> (r: TypeTag)
        ensures
            r == self.tag_spec(),
    ;

    fn timestamp(&self) -> (r: u64)
        ensures
            r == self.timestamp_spec(),
    ;
}

} // verus!
