//! A builder for the description of an external process and the sequencing of
//! the calls that hand such a description to a host able to run it.
//!
//! [`Command`] accumulates the program name, its arguments, its environment,
//! the bytes of its standard input and a timeout. [`Invocation`] turns a
//! command into the ordered calls that the host expects, and assembles the
//! host's answers into an [`Output`]. The host itself is not part of this
//! library: whoever drives an [`Invocation`] performs each [`Call`] and gives
//! back the host's [`Reply`].

pub mod boundary;
pub mod command;
pub mod environment;
pub mod error;
pub mod laws;
pub mod text;

pub use boundary::{Call, Invocation, Reply, Step};
pub use command::{Command, Output};
pub use error::Error;
