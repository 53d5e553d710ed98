use debug_bridge::proto::{Command, Event};
use debug_bridge::worker::{
    connect_entry, connected_step, drain_commands, ReadOutcome, SessionBuffer, StepStatus,
};

fn msg(text: &str) -> Command {
    Command::Message(text.to_string())
}

#[test]
fn step_emits_coalesced_messages_in_order() {
    // Two messages written by the peer in one socket write both come out,
    // in order, in the same pass.
    let mut buf = SessionBuffer::new();
    let r = connected_step(&mut buf, ReadOutcome::Data(b"a\x00b\x00".to_vec()), Vec::new());
    assert_eq!(
        r.events,
        vec![
            Event::Message("a".to_string()),
            Event::Message("b".to_string())
        ]
    );
    assert!(r.frames.is_empty());
    assert_eq!(r.status, StepStatus::Continue);
}

#[test]
fn step_buffers_message_split_across_reads() {
    let mut buf = SessionBuffer::new();
    let r = connected_step(&mut buf, ReadOutcome::Data(b"par".to_vec()), Vec::new());
    assert!(r.events.is_empty());
    assert_eq!(r.status, StepStatus::Continue);
    let r = connected_step(&mut buf, ReadOutcome::Data(b"t\x00".to_vec()), Vec::new());
    assert_eq!(r.events, vec![Event::Message("part".to_string())]);
}

#[test]
fn step_suppresses_heartbeat() {
    // The literal "ping" is consumed silently: no message event.
    let mut buf = SessionBuffer::new();
    let r = connected_step(&mut buf, ReadOutcome::Data(b"ping\x00".to_vec()), Vec::new());
    assert!(r.events.is_empty());
    assert_eq!(r.status, StepStatus::Continue);

    let r = connected_step(
        &mut buf,
        ReadOutcome::Data(b"ping\x00real\x00ping\x00".to_vec()),
        Vec::new(),
    );
    assert_eq!(r.events, vec![Event::Message("real".to_string())]);
}

#[test]
fn step_drops_empty_padding() {
    let mut buf = SessionBuffer::new();
    let r = connected_step(&mut buf, ReadOutcome::Data(b"a\x00\x00\x00".to_vec()), Vec::new());
    assert_eq!(r.events, vec![Event::Message("a".to_string())]);
}

#[test]
fn step_would_block_is_quiet() {
    let mut buf = SessionBuffer::new();
    let r = connected_step(&mut buf, ReadOutcome::WouldBlock, Vec::new());
    assert!(r.events.is_empty());
    assert!(r.frames.is_empty());
    assert_eq!(r.status, StepStatus::Continue);
}

#[test]
fn step_closed_emits_one_disconnect_and_writes_nothing() {
    let mut buf = SessionBuffer::new();
    let r = connected_step(
        &mut buf,
        ReadOutcome::Closed,
        vec![msg("queued while dying")],
    );
    assert_eq!(r.events, vec![Event::PeerDisconnected]);
    assert!(r.frames.is_empty());
    assert_eq!(r.status, StepStatus::Disconnected);
}

#[test]
fn step_fatal_aborts() {
    let mut buf = SessionBuffer::new();
    let r = connected_step(&mut buf, ReadOutcome::Fatal, vec![msg("lost")]);
    assert!(r.events.is_empty());
    assert!(r.frames.is_empty());
    assert_eq!(r.status, StepStatus::Aborted);
}

#[test]
fn step_invalid_utf8_aborts() {
    let mut buf = SessionBuffer::new();
    let r = connected_step(
        &mut buf,
        ReadOutcome::Data(vec![0xffu8, 0xfe, 0x00]),
        Vec::new(),
    );
    assert!(r.events.is_empty());
    assert!(r.frames.is_empty());
    assert_eq!(r.status, StepStatus::Aborted);
}

#[test]
fn step_writes_frames_in_command_order() {
    let mut buf = SessionBuffer::new();
    let r = connected_step(
        &mut buf,
        ReadOutcome::WouldBlock,
        vec![msg("one"), msg("two")],
    );
    assert_eq!(r.frames, vec![b"one\x00".to_vec(), b"two\x00".to_vec()]);
    assert_eq!(r.status, StepStatus::Continue);
}

#[test]
fn terminate_drains_prior_commands_first() {
    // send("last") immediately followed by shutdown: the frame for "last"
    // is written before the worker stops.
    let mut buf = SessionBuffer::new();
    let r = connected_step(
        &mut buf,
        ReadOutcome::WouldBlock,
        vec![msg("last"), Command::Terminate],
    );
    assert_eq!(r.frames, vec![b"last\x00".to_vec()]);
    assert_eq!(r.status, StepStatus::Terminated);
}

#[test]
fn terminate_preempts_later_commands() {
    let mut buf = SessionBuffer::new();
    let r = connected_step(
        &mut buf,
        ReadOutcome::WouldBlock,
        vec![Command::Terminate, msg("late")],
    );
    assert!(r.frames.is_empty());
    assert_eq!(r.status, StepStatus::Terminated);
}

#[test]
fn read_in_terminating_pass_is_kept() {
    // A message read in the same pass that drains the terminate stays
    // published.
    let mut buf = SessionBuffer::new();
    let r = connected_step(
        &mut buf,
        ReadOutcome::Data(b"bye\x00".to_vec()),
        vec![Command::Terminate],
    );
    assert_eq!(r.events, vec![Event::Message("bye".to_string())]);
    assert_eq!(r.status, StepStatus::Terminated);
}

#[test]
fn drain_commands_stops_at_terminate() {
    let (frames, term) = drain_commands(vec![msg("a"), Command::Terminate, msg("b")]);
    assert_eq!(frames, vec![b"a\x00".to_vec()]);
    assert!(term);

    let (frames, term) = drain_commands(vec![msg("a"), msg("b")]);
    assert_eq!(frames, vec![b"a\x00".to_vec(), b"b\x00".to_vec()]);
    assert!(!term);
}

#[test]
fn connect_entry_discards_stale_commands() {
    // A message queued while no peer was connected is dropped at the next
    // connect: the new session starts with only the connect event, and a
    // later drain of the queue finds nothing to write.
    let (mut buf, events) = connect_entry(vec![msg("stale"), msg("older")]);
    assert_eq!(events, vec![Event::PeerConnected]);
    let r = connected_step(&mut buf, ReadOutcome::WouldBlock, Vec::new());
    assert!(r.frames.is_empty());
}

#[test]
fn message_containing_ping_is_not_suppressed() {
    // Only the exact token is reserved; "pingpong" is an ordinary message.
    let mut buf = SessionBuffer::new();
    let r = connected_step(&mut buf, ReadOutcome::Data(b"pingpong\x00".to_vec()), Vec::new());
    assert_eq!(r.events, vec![Event::Message("pingpong".to_string())]);
}
