//! The messaging logger's decision state.
//!
//! The logger tracks whether a chat connection is up and queues the
//! messages that should be sent over it; a connected logger queues every
//! reported message, a disconnected one drops them.  Actually opening the
//! connection and delivering the queued messages is transport work that
//! the caller performs, draining the outbox.

use vstd::prelude::*;

verus! {

/// Queues log messages for delivery while a chat connection is up.
pub struct Logger {
    connected: bool,
    outbox: Vec<String>,
}

impl Logger {
    /// Whether the logger believes the connection is up.
    pub closed spec fn is_connected(&self) -> bool {
        self.connected
    }

    /// The messages queued for delivery, oldest first.
    pub closed spec fn outbox_view(&self) -> Seq<String> {
        self.outbox@
    }

    /// A fresh logger: disconnected, nothing queued.
    pub fn new() -> (r: Logger)
        ensures
            !r.is_connected(),
            r.outbox_view() == Seq::<String>::empty(),
    {
        Logger { connected: false, outbox: Vec::new() }
    }

    /// Records that the connection came up or went down.
    pub fn set_connected(&mut self, up: bool)
        ensures
            final(self).is_connected() == up,
            final(self).outbox_view() == old(self).outbox_view(),
    {
        self.connected = up;
    }

    /// Whether the connection is up.
    pub fn connected(&self) -> (r: bool)
        ensures
            r == self.is_connected(),
    {
        self.connected
    }

    /// Queues the message for delivery when connected; drops it otherwise.
    fn send(&mut self, msg: String)
        ensures
            final(self).is_connected() == old(self).is_connected(),
            final(self).outbox_view() == if old(self).is_connected() {
                old(self).outbox_view().push(msg)
            } else {
                old(self).outbox_view()
            },
    {
        if self.connected {
            self.outbox.push(msg);
        }
    }

    /// Reports a message: queued for chat delivery when connected, dropped
    /// otherwise.
    pub fn info(&mut self, msg: String)
        ensures
            final(self).is_connected() == old(self).is_connected(),
            final(self).outbox_view() == if old(self).is_connected() {
                old(self).outbox_view().push(msg)
            } else {
                old(self).outbox_view()
            },
    {
        self.send(msg);
    }

    /// Hands the queued messages to the transport, leaving the outbox
    /// empty.
    pub fn take_outbox(&mut self) -> (r: Vec<String>)
        ensures
            r@ == old(self).outbox_view(),
            final(self).outbox_view() == Seq::<String>::empty(),
            final(self).is_connected() == old(self).is_connected(),
    {
        let mut drained: Vec<String> = Vec::new();
        core::mem::swap(&mut drained, &mut self.outbox);
        drained
    }
}

} // verus!
