use vstd::prelude::*;

use crate::output::next_timestamp;
use crate::port::{Port, TypeTag};

verus! {

/// A port that receives its value from the output it is connected to.
pub trait Input: Port {
}

/// The abstract content of an input port.
pub ghost struct InputView {
    pub name: Seq<char>,
    pub tag: TypeTag,
    pub timestamp: u64,
}

/// An input port of a fixed type. It holds no value of its own; its
/// timestamp counts the changes of its connection.
pub struct InputOf {
    name: String,
    tag: TypeTag,
    timestamp: u64,
}

impl View for InputOf {
    type V = InputView;

    closed spec fn view(&self) -> InputView {
        InputView { name: self.name@, tag: self.tag, timestamp: self.timestamp }
    }
}

impl InputOf {
    pub fn new(name: &str, tag: TypeTag) -> (r: InputOf)
        ensures
            r@ == (InputView { name: name@, tag: tag, timestamp: 0 }),
    {
        InputOf { name: name.to_owned(), tag, timestamp: 0 }
    }

    /// A copy of the port with the same name, tag and timestamp.
    pub fn duplicate(&self) -> (r: InputOf)
        ensures
            r@ == self@,
    {
        InputOf { name: self.name.clone(), tag: self.tag, timestamp: self.timestamp }
    }

    /// Records a change of the port's connection.
    pub(crate) fn mark_connected(&mut self)
        ensures
            final(self)@ == (InputView { timestamp: next_timestamp(old(self)@.timestamp), ..old(self)@ }),
    {
        self.timestamp = if self.timestamp < u64::MAX {
            self.timestamp + 1
        } else {
            self.timestamp
        };
    }

    pub fn name(&self) -> (r: &str)
        ensures
            r@ == self@.name,
    {
        self.name.as_str()
    }
}

impl Port for InputOf {
    open spec fn tag_spec(&self) -> TypeTag {
        self@.tag
    }

    open spec fn timestamp_spec(&self) -> u64 {
        self@.timestamp
    }

    fn type_tag(&self) -> (r: TypeTag) {
        self.tag
    }

    fn timestamp(&self) -> (r: u64) {
        self.timestamp
    }
}

impl Input for InputOf {
}

} // verus!
