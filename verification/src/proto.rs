//! The in-process protocol: commands from the handle to the worker, events
//! from the worker to the handle.

use vstd::prelude::*;

verus! {

/// A unit of work sent from the foreground handle to the worker.
#[derive(Debug, Clone, PartialEq, Eq)]
pub enum Command {
    /// Ask the worker to write this text to the peer, NUL-terminated.
    Message(String),
    /// Ask the worker to stop draining commands and shut the session down.
    Terminate,
}

/// The mathematical form of a [`Command`].
pub enum CommandV {
    Message(Seq<char>),
    Terminate,
}

impl View for Command {
    type V = CommandV;

    open spec fn view(&self) -> CommandV {
        match self {
            Command::Message(t) => CommandV::Message(t@),
            Command::Terminate => CommandV::Terminate,
        }
    }
}

/// A notification sent from the worker to the foreground handle.
#[derive(Debug, Clone, PartialEq, Eq)]
pub enum Event {
    /// The peer sent this text (already decoded and unframed).
    Message(String),
    /// A peer connected; a fresh session begins.
    PeerConnected,
    /// The peer reset or closed the connection; the worker re-listens.
    PeerDisconnected,
}

/// The mathematical form of an [`Event`].
pub enum EventV {
    Message(Seq<char>),
    PeerConnected,
    PeerDisconnected,
}

impl View for Event {
    type V = EventV;

    open spec fn view(&self) -> EventV {
        match self {
            Event::Message(t) => EventV::Message(t@),
            Event::PeerConnected => EventV::PeerConnected,
            Event::PeerDisconnected => EventV::PeerDisconnected,
        }
    }
}

/// The views of a sequence of commands.
pub open spec fn cmds_view(s: Seq<Command>) -> Seq<CommandV> {
    s.map_values(|c: Command| c@)
}

/// The views of a sequence of events.
pub open spec fn events_view(s: Seq<Event>) -> Seq<EventV> {
    s.map_values(|e: Event| e@)
}

/// Wraps a text in the command that asks the worker to send it.
pub fn make_message(text: String) -> (c: Command)
    ensures
        c@ == CommandV::Message(text@),
{
    Command::Message(text)
}

/// The command that asks the worker to shut down.
pub fn make_terminate() -> (c: Command)
    ensures
        c@ == CommandV::Terminate,
{
    Command::Terminate
}

} // verus!
