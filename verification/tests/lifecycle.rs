use debug_bridge::proto::{Command, Event};
use debug_bridge::worker::{
    run_lifecycle, run_session, CycleInput, PollInput, ReadOutcome, SessionBuffer, SessionEnd,
};

fn msg(text: &str) -> Command {
    Command::Message(text.to_string())
}

fn poll(read: ReadOutcome, cmds: Vec<Command>) -> PollInput {
    PollInput { read, cmds }
}

fn quiet_cycle(label: &str) -> CycleInput {
    CycleInput {
        stale: Vec::new(),
        polls: vec![
            poll(ReadOutcome::Data(format!("{label}\x00").into_bytes()), Vec::new()),
            poll(ReadOutcome::Closed, Vec::new()),
        ],
    }
}

#[test]
fn session_runs_to_terminate() {
    let mut buf = SessionBuffer::new();
    let r = run_session(
        &mut buf,
        vec![
            poll(ReadOutcome::WouldBlock, vec![msg("hello")]),
            poll(ReadOutcome::Data(b"reply\x00".to_vec()), Vec::new()),
            poll(ReadOutcome::WouldBlock, vec![msg("last"), Command::Terminate]),
            poll(ReadOutcome::Data(b"never seen\x00".to_vec()), Vec::new()),
        ],
    );
    assert_eq!(r.events, vec![Event::Message("reply".to_string())]);
    assert_eq!(
        r.frames,
        vec![b"hello\x00".to_vec(), b"last\x00".to_vec()]
    );
    assert_eq!(r.end, SessionEnd::Terminated);
}

#[test]
fn session_stops_at_disconnect() {
    let mut buf = SessionBuffer::new();
    let r = run_session(
        &mut buf,
        vec![
            poll(ReadOutcome::Closed, Vec::new()),
            poll(ReadOutcome::Data(b"after\x00".to_vec()), Vec::new()),
        ],
    );
    assert_eq!(r.events, vec![Event::PeerDisconnected]);
    assert_eq!(r.end, SessionEnd::Disconnected);
}

#[test]
fn lifecycle_reconnects_after_each_disconnect() {
    // Three connect-disconnect rounds: one connect and one disconnect event
    // each, and the worker ends up listening, ready for the next peer.
    let r = run_lifecycle(vec![quiet_cycle("one"), quiet_cycle("two"), quiet_cycle("three")]);
    assert_eq!(
        r.events,
        vec![
            Event::PeerConnected,
            Event::Message("one".to_string()),
            Event::PeerDisconnected,
            Event::PeerConnected,
            Event::Message("two".to_string()),
            Event::PeerDisconnected,
            Event::PeerConnected,
            Event::Message("three".to_string()),
            Event::PeerDisconnected,
        ]
    );
    assert_eq!(r.end, SessionEnd::Disconnected);

    // ... and a fourth peer is indeed accepted and served.
    let r = run_lifecycle(vec![
        quiet_cycle("one"),
        quiet_cycle("two"),
        quiet_cycle("three"),
        quiet_cycle("four"),
    ]);
    assert_eq!(r.events.len(), 12);
    assert_eq!(r.end, SessionEnd::Disconnected);
}

#[test]
fn message_sent_while_disconnected_never_reaches_next_peer() {
    // connect, disconnect, send("x") while down, reconnect: the second
    // session writes nothing — "x" was flushed at the new connect.
    let with_stale = vec![
        CycleInput {
            stale: Vec::new(),
            polls: vec![poll(ReadOutcome::Closed, Vec::new())],
        },
        CycleInput {
            stale: vec![msg("x")],
            polls: vec![
                poll(ReadOutcome::WouldBlock, Vec::new()),
                poll(ReadOutcome::Closed, Vec::new()),
            ],
        },
    ];
    let r = run_lifecycle(with_stale);
    assert!(r.frames.is_empty());
}

#[test]
fn lifecycle_stops_on_terminated_session() {
    let r = run_lifecycle(vec![
        CycleInput {
            stale: Vec::new(),
            polls: vec![poll(ReadOutcome::WouldBlock, vec![Command::Terminate])],
        },
        quiet_cycle("never"),
    ]);
    assert_eq!(r.events, vec![Event::PeerConnected]);
    assert_eq!(r.end, SessionEnd::Terminated);
}

#[test]
fn lifecycle_stops_on_protocol_violation() {
    let r = run_lifecycle(vec![CycleInput {
        stale: Vec::new(),
        polls: vec![poll(ReadOutcome::Data(vec![0x80u8, 0x00]), Vec::new())],
    }]);
    assert_eq!(r.events, vec![Event::PeerConnected]);
    assert_eq!(r.end, SessionEnd::Aborted);
}

#[test]
fn session_left_open_when_trace_runs_out() {
    let mut buf = SessionBuffer::new();
    let r = run_session(
        &mut buf,
        vec![
            poll(ReadOutcome::WouldBlock, Vec::new()),
            poll(ReadOutcome::WouldBlock, Vec::new()),
            poll(ReadOutcome::WouldBlock, Vec::new()),
        ],
    );
    assert!(r.events.is_empty());
    assert!(r.frames.is_empty());
    assert_eq!(r.end, SessionEnd::Open);
}
