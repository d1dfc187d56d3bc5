use vstd::prelude::*;

verus! {

/// Why an operation of this library was refused.
#[derive(Debug, Clone, Copy, PartialEq, Eq, Structural)]
pub enum Error {
    /// A text handed to the builder holds a zero byte, which the host's
    /// representation of texts cannot carry.
    NulByte,
    /// The host answered a call with a reply of another kind than the call
    /// asks for, or with a number of bytes other than the length it announced.
    UnexpectedReply,
}

} // verus!
