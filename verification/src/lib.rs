//! An in-process harness for exercising implementations of a source-routed
//! packet protocol: it builds a channel-wired graph of relay drones, clients
//! and servers from a declarative topology description, injects scripted
//! probe nodes into that graph while keeping its invariants, and drives every
//! node to an orderly shutdown.
#![allow(unused_imports)]

use vstd::prelude::*;

pub mod channels;
pub mod protocol;
pub mod testing_initializer;
pub mod topology;
pub mod topology_setup;

pub use testing_initializer::PDRPolicy;
pub use testing_initializer::TestNodeInstructions;
pub use topology_setup::Node;

verus! {

/// A runnable that does nothing: a stand-in where a client's or server's
/// behavior is irrelevant to the run.
pub struct DummyNode;

impl topology_setup::Node for DummyNode {
    fn run(&mut self) {
    }
}

} // verus!
