//! Provisioning of listening sockets for a child process.
//!
//! The crate holds the decisions of a socket launcher and none of its system
//! calls: how a textual socket description becomes a bind target, which port
//! an unnumbered description receives, in which order sockets are opened,
//! which calls open one socket, what is closed when a call fails, and how the
//! descriptors are handed to the child through its environment. A driver
//! performs the calls that the state machines ask for and hands the outcome
//! back.
//!
//! - `text`: scanning of character sequences, and numerals.
//! - `kind`: the six kinds of socket and their order.
//! - `addr`: IP addresses and socket addresses, read and written as text.
//! - `port`: the counter that hands out automatic ports.
//! - `parse`: socket descriptions and what they ask for.
//! - `order`: requests, and the order in which they are served.
//! - `plan`: the targets that a list of requests stands for.
//! - `sock`: the calls that open one socket.
//! - `registry`: opening all sockets of a plan, and closing them on failure.
//! - `run`: what holds of whole runs of that work.
//! - `handoff`: the environment of the child, and the report.
//! - `failure`: what can go wrong, in words.

pub mod addr;
pub mod failure;
pub mod handoff;
pub mod kind;
pub mod order;
pub mod parse;
pub mod plan;
pub mod port;
pub mod registry;
pub mod run;
pub mod sock;
pub mod text;
