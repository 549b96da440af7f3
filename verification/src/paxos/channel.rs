//! How Paxos processes reach each other.
use crate::paxos::PaxosMessage;
use vstd::prelude::*;

verus! {

/// Sends and receives the messages of the algorithm.
pub trait Channel {
    fn send_message() -> anyhow::Result<()>;

    fn receive_message<F>(func: F) -> anyhow::Result<()> where F: FnOnce() -> String;
}

/// A channel between processes of one address space: a buffer of messages.
pub struct SharedMemoryChannel {
    buffer: Vec<PaxosMessage>,
}

impl SharedMemoryChannel {
    /// An empty channel.
    pub fn new() -> (r: Self)
        ensures
            r.buffered() == 0,
    {
        SharedMemoryChannel { buffer: Vec::new() }
    }

    /// The number of buffered messages.
    pub closed spec fn buffered(&self) -> nat {
        self.buffer@.len()
    }
}

impl Default for SharedMemoryChannel {
    fn default() -> (r: Self)
        ensures
            r.buffered() == 0,
    {
        Self::new()
    }
}

impl Channel for SharedMemoryChannel {
    fn send_message() -> (r: anyhow::Result<()>)
        ensures
            r is Ok,
    {
        Ok(())
    }

    fn receive_message<F>(_filter: F) -> (r: anyhow::Result<()>) where F: FnOnce() -> String
        ensures
            r is Ok,
    {
        Ok(())
    }
}

} // verus!
