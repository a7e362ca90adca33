use vstd::prelude::*;

use crate::port::{GraphError, Port, TypeTag, Value};

verus! {

/// A port that owns the value a node computed, absent until first set.
pub trait Output: Port {
    spec fn value_spec(&self) -> Option<Value>;

    /// The stored value, type-erased; it always has the port's type.
    fn value_any(&self) -> (r: Option<Value>)
        ensures
            r == self.value_spec(),
            r is Some ==> r->0.tag() == self.tag_spec(),
    ;
}

/// The abstract content of an output port. The timestamp counts the writes.
pub ghost struct OutputView {
    pub name: Seq<char>,
    pub tag: TypeTag,
    pub value: Option<Value>,
    pub timestamp: u64,
}

/// An output port of a fixed type.
pub struct OutputOf {
    name: String,
    tag: TypeTag,
    value: Option<Value>,
    timestamp: u64,
}

impl View for OutputOf {
    type V = OutputView;

    closed spec fn view(&self) -> OutputView {
        OutputView { name: self.name@, tag: self.tag, value: self.value, timestamp: self.timestamp }
    }
}

impl OutputView {
    /// A stored value has the port's type.
    pub open spec fn well_typed(self) -> bool {
        match self.value {
            Some(v) => v.tag() == self.tag,
            None => true,
        }
    }
}

/// The timestamp after one more write; it stays put at the largest value.
pub open spec fn next_timestamp(t: u64) -> u64 {
    if t < u64::MAX {
        (t + 1) as u64
    } else {
        t
    }
}

/// The port after a successful write of `value`: the value is stored and
/// the timestamp advances.
pub open spec fn set_result(before: OutputView, value: Value) -> OutputView {
    OutputView { value: Some(value), timestamp: next_timestamp(before.timestamp), ..before }
}

impl OutputOf {
    /// A stored value always has the port's type.
    #[verifier::type_invariant]
    spec fn well_typed(&self) -> bool {
        match self.value {
            Some(v) => v.tag() == self.tag,
            None => true,
        }
    }

    /// Every port holds only values of its own type.
    pub(crate) fn establish_well_typed(&self)
        ensures
            self@.well_typed(),
    {
        proof {
            use_type_invariant(self);
        }
    }

    pub fn new(name: &str, tag: TypeTag) -> (r: OutputOf)
        ensures
            r@ == (OutputView { name: name@, tag: tag, value: None, timestamp: 0 }),
    {
        OutputOf { name: name.to_owned(), tag, value: None, timestamp: 0 }
    }

    /// Stores `value` and advances the timestamp; a value of another type is
    /// refused and leaves the port as it was.
    pub fn set(&mut self, value: Value) -> (r: Result<(), GraphError>)
        ensures
            value.tag() == old(self)@.tag ==> r is Ok && final(self)@ == set_result(
                old(self)@,
                value,
            ),
            value.tag() != old(self)@.tag ==> r == Err::<(), GraphError>(GraphError::TypeMismatch)
                && final(self)@ == old(self)@,
    {
        if value.type_tag() != self.tag {
            return Err(GraphError::TypeMismatch);
        }
        self.value = Some(value);
        self.timestamp = if self.timestamp < u64::MAX {
            self.timestamp + 1
        } else {
            self.timestamp
        };
        Ok(())
    }

    pub fn get(&self) -> (r: Option<&Value>)
        ensures
            match r {
                Some(v) => self@.value == Some(*v),
                None => self@.value is None,
            },
            r is Some ==> r->0.tag() == self@.tag,
    {
        proof {
            use_type_invariant(self);
        }
        self.value.as_ref()
    }

    pub fn name(&self) -> (r: &str)
        ensures
            r@ == self@.name,
    {
        self.name.as_str()
    }

    /// Takes over the value and timestamp of a port of the same type.
    pub(crate) fn take_state(&mut self, from: &OutputOf)
        requires
            from@.tag == old(self)@.tag,
        ensures
            final(self)@ == (OutputView { value: from@.value, timestamp: from@.timestamp, ..old(self)@ }),
            final(self)@.well_typed(),
    {
        proof {
            use_type_invariant(from);
        }
        self.value = from.value;
        self.timestamp = from.timestamp;
    }

    /// A copy of the port with the same name, tag, value and timestamp.
    pub fn duplicate(&self) -> (r: OutputOf)
        ensures
            r@ == self@,
    {
        proof {
            use_type_invariant(self);
        }
        OutputOf { name: self.name.clone(), tag: self.tag, value: self.value, timestamp: self.timestamp }
    }
}

impl Port for OutputOf {
    open spec fn tag_spec(&self) -> TypeTag {
        self@.tag
    }

    open spec fn timestamp_spec(&self) -> u64 {
        self@.timestamp
    }

    fn type_tag(&self) -> (r: TypeTag) {
        self.tag
    }

    fn timestamp(&self) -> (r: u64) {
        self.timestamp
    }
}

impl Output for OutputOf {
    open spec fn value_spec(&self) -> Option<Value> {
        self@.value
    }

    fn value_any(&self) -> (r: Option<Value>) {
        proof {
            use_type_invariant(self);
        }
        self.value
    }
}

} // verus!
