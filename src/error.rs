use vstd::prelude::*;

verus! {

/// The token that was being decoded when a failure was noticed.
#[allow(non_camel_case_types)]
#[derive(Debug, Clone, Copy, PartialEq, Eq, Structural)]
pub enum Node {
    SIMPLE_STRING,
    BULK_STRING,
    UNKNOWN,
    INTEGER,
    ERROR,
    ARRAY,
    SIZE,
    NIL,
}

/// A located decoding failure: a byte offset into the decoded input and the
/// token that was being decoded.
#[derive(Debug, Clone, Copy, PartialEq, Eq, Structural)]
pub enum Error {
    /// A declared length does not match what follows it: the body of a bulk
    /// string, or the element count of an array.
    ///
    /// For a bulk string, `index` is where its terminator was expected; for an
    /// array, where the input ran out before the next element.
    Size { index: usize, node: Node },
    /// A value could not be converted to its typed form: an integer or a
    /// length prefix that is not a decimal number fitting in `i64`.
    Type { index: usize, node: Node },
    /// A malformed byte sequence: a missing terminator, a line break inside a
    /// simple string, or an unknown leading marker.
    ///
    /// An `index` past the input's end says that bytes were still expected.
    Unexpected { index: usize, node: Node },
}

impl Error {
    /// The byte offset at which the failure was noticed.
    pub open spec fn spec_index(self) -> usize {
        match self {
            Error::Size { index, .. } => index,
            Error::Type { index, .. } => index,
            Error::Unexpected { index, .. } => index,
        }
    }

    /// The token that was being decoded.
    pub open spec fn spec_node(self) -> Node {
        match self {
            Error::Size { node, .. } => node,
            Error::Type { node, .. } => node,
            Error::Unexpected { node, .. } => node,
        }
    }

    pub fn index(&self) -> (r: &usize)
        ensures
            *r == self.spec_index(),
    {
        match self {
            Error::Type { index, .. } => index,
            Error::Size { index, .. } => index,
            Error::Unexpected { index, .. } => index,
        }
    }

    pub fn node(&self) -> (r: &Node)
        ensures
            *r == self.spec_node(),
    {
        match self {
            Error::Type { node, .. } => node,
            Error::Size { node, .. } => node,
            Error::Unexpected { node, .. } => node,
        }
    }

    pub fn of_size(node: Node, index: usize) -> (r: Error)
        ensures
            r == (Error::Size { index, node }),
    {
        Error::Size { index, node }
    }

    pub fn of_type(node: Node, index: usize) -> (r: Error)
        ensures
            r == (Error::Type { index, node }),
    {
        Error::Type { index, node }
    }

    pub fn of_unexpected(node: Node, index: usize) -> (r: Error)
        ensures
            r == (Error::Unexpected { index, node }),
    {
        Error::Unexpected { index, node }
    }
}

} // verus!
