//! The worker's state machine.
//!
//! The worker owns the transport.  Its life is a loop of {listen, accept,
//! poll, re-listen}: while a session is open it repeats one *step* per
//! iteration — look at what a non-blocking read produced, publish the
//! decoded inbound messages, then drain the currently queued commands into
//! wire frames, stopping at a terminate.  A dropped connection re-enters
//! listening; a terminate or an unrecoverable condition ends the worker.
//!
//! Everything here is a decision from plain values to plain values: the
//! caller performs the reads, the writes and the queue operations, and feeds
//! the outcomes back in.

use vstd::prelude::*;

verus! {

use vstd::utf8::decode_utf8;
use vstd::utf8::encode_utf8;
use vstd::utf8::valid_utf8;
use crate::framing::all_valid_utf8;
use crate::framing::bytes_view;
use crate::framing::decode_all;
use crate::framing::decoded_texts;
use crate::framing::encode_frame;
use crate::framing::filter_payload;
use crate::framing::frame_bytes;
use crate::framing::nul_free;
use crate::framing::payload_segments;
use crate::framing::scan_carry;
use crate::framing::scan_segments;
use crate::framing::split_stream;
use crate::framing::texts_view;
use crate::proto::Command;
use crate::proto::CommandV;
use crate::proto::Event;
use crate::proto::EventV;
use crate::proto::cmds_view;
use crate::proto::events_view;

/// What one non-blocking poll of the transport produced.
#[derive(Debug, Clone, PartialEq, Eq)]
pub enum ReadOutcome {
    /// Bytes arrived.
    Data(Vec<u8>),
    /// Nothing was ready; an expected, transient condition.
    WouldBlock,
    /// The peer reset or closed the connection.
    Closed,
    /// Any other transport error: unrecoverable.
    Fatal,
}

/// The mathematical form of a [`ReadOutcome`].
pub enum ReadOutcomeV {
    Data(Seq<u8>),
    WouldBlock,
    Closed,
    Fatal,
}

impl View for ReadOutcome {
    type V = ReadOutcomeV;

    open spec fn view(&self) -> ReadOutcomeV {
        match self {
            ReadOutcome::Data(chunk) => ReadOutcomeV::Data(chunk@),
            ReadOutcome::WouldBlock => ReadOutcomeV::WouldBlock,
            ReadOutcome::Closed => ReadOutcomeV::Closed,
            ReadOutcome::Fatal => ReadOutcomeV::Fatal,
        }
    }
}

/// The bytes of the current session read after the last NUL: an incomplete
/// frame waiting for its terminator in a later read.
pub struct SessionBuffer {
    data: Vec<u8>,
}

impl View for SessionBuffer {
    type V = Seq<u8>;

    closed spec fn view(&self) -> Seq<u8> {
        self.data@
    }
}

impl SessionBuffer {
    /// The buffer never holds a NUL: everything up to the last NUL has been
    /// cut into segments already.
    pub open spec fn wf(&self) -> bool {
        nul_free(self@)
    }

    /// An empty buffer, for the start of a session.
    pub fn new() -> (r: Self)
        ensures
            r@ == Seq::<u8>::empty(),
            r.wf(),
    {
        let r = SessionBuffer { data: Vec::new() };
        proof {
            assert(r@ =~= Seq::<u8>::empty());
        }
        r
    }
}

/// What the worker does after one step.
#[derive(Debug, Clone, Copy, PartialEq, Eq, Structural)]
pub enum StepStatus {
    /// Stay in the session and poll again.
    Continue,
    /// The peer went away: re-listen for a new one.
    Disconnected,
    /// A terminate command was drained: close the transport and exit.
    Terminated,
    /// A protocol violation or an unrecoverable transport error: the worker
    /// gives up.
    Aborted,
}

/// The outputs of one step, in the order they must be carried out: publish
/// the events, then write the frames, then act on the status.
pub struct StepResult {
    pub events: Vec<Event>,
    pub frames: Vec<Vec<u8>>,
    pub status: StepStatus,
}

/// The texts of the commands before the first terminate, in order.
pub open spec fn texts_before_terminate(cmds: Seq<CommandV>) -> Seq<Seq<char>>
    decreases cmds.len(),
{
    if cmds.len() == 0 {
        seq![]
    } else {
        match cmds[0] {
            CommandV::Message(t) => seq![t] + texts_before_terminate(cmds.drop_first()),
            CommandV::Terminate => seq![],
        }
    }
}

/// True when some command is a terminate.
pub open spec fn contains_terminate(cmds: Seq<CommandV>) -> bool
    decreases cmds.len(),
{
    if cmds.len() == 0 {
        false
    } else {
        cmds[0] is Terminate || contains_terminate(cmds.drop_first())
    }
}

/// The wire frames for the given texts, in order.
pub open spec fn frames_for(texts: Seq<Seq<char>>) -> Seq<Seq<u8>> {
    texts.map_values(|t: Seq<char>| frame_bytes(encode_utf8(t)))
}

/// The message-bearing segments completed by reading `chunk` with `carry`
/// left over from earlier reads.
pub open spec fn chunk_payloads(carry: Seq<u8>, chunk: Seq<u8>) -> Seq<Seq<u8>> {
    payload_segments(scan_segments(chunk, carry))
}

/// The events one step emits, before any frame is written.
pub open spec fn step_events(carry: Seq<u8>, read: ReadOutcomeV, cmds: Seq<CommandV>) -> Seq<
    EventV,
> {
    match read {
        ReadOutcomeV::Data(chunk) => if all_valid_utf8(chunk_payloads(carry, chunk)) {
            decoded_texts(chunk_payloads(carry, chunk)).map_values(|t: Seq<char>| EventV::Message(t))
        } else {
            seq![]
        },
        ReadOutcomeV::WouldBlock => seq![],
        ReadOutcomeV::Closed => seq![EventV::PeerDisconnected],
        ReadOutcomeV::Fatal => seq![],
    }
}

/// The frames one step writes, in command order.  Nothing is written after a
/// disconnect or a fatal condition, nor past the first terminate.
pub open spec fn step_frames(carry: Seq<u8>, read: ReadOutcomeV, cmds: Seq<CommandV>) -> Seq<
    Seq<u8>,
> {
    match read {
        ReadOutcomeV::Data(chunk) => if all_valid_utf8(chunk_payloads(carry, chunk)) {
            frames_for(texts_before_terminate(cmds))
        } else {
            seq![]
        },
        ReadOutcomeV::WouldBlock => frames_for(texts_before_terminate(cmds)),
        ReadOutcomeV::Closed => seq![],
        ReadOutcomeV::Fatal => seq![],
    }
}

/// What the worker does after the step.
pub open spec fn step_status(carry: Seq<u8>, read: ReadOutcomeV, cmds: Seq<CommandV>) -> StepStatus {
    match read {
        ReadOutcomeV::Data(chunk) => if all_valid_utf8(chunk_payloads(carry, chunk)) {
            if contains_terminate(cmds) {
                StepStatus::Terminated
            } else {
                StepStatus::Continue
            }
        } else {
            StepStatus::Aborted
        },
        ReadOutcomeV::WouldBlock => if contains_terminate(cmds) {
            StepStatus::Terminated
        } else {
            StepStatus::Continue
        },
        ReadOutcomeV::Closed => StepStatus::Disconnected,
        ReadOutcomeV::Fatal => StepStatus::Aborted,
    }
}

/// The session buffer after the step.
pub open spec fn step_carry(carry: Seq<u8>, read: ReadOutcomeV, cmds: Seq<CommandV>) -> Seq<u8> {
    match read {
        ReadOutcomeV::Data(chunk) => if all_valid_utf8(chunk_payloads(carry, chunk)) {
            scan_carry(chunk, carry)
        } else {
            carry
        },
        ReadOutcomeV::WouldBlock => carry,
        ReadOutcomeV::Closed => carry,
        ReadOutcomeV::Fatal => carry,
    }
}

/// Drains one batch of queued commands: each message becomes its wire frame,
/// in order, and a terminate stops the drain, dropping whatever follows it.
pub fn drain_commands(cmds: Vec<Command>) -> (r: (Vec<Vec<u8>>, bool))
    ensures
        bytes_view(r.0@) == frames_for(texts_before_terminate(cmds_view(cmds@))),
        r.1 == contains_terminate(cmds_view(cmds@)),
{
    let ghost full = cmds_view(cmds@);
    let mut cmds = cmds;
    let mut frames: Vec<Vec<u8>> = Vec::new();
    let mut done_texts: Ghost<Seq<Seq<char>>> = Ghost(Seq::empty());
    let mut term = false;
    while !term && cmds.len() > 0
        invariant
            !term ==> {
                &&& texts_before_terminate(full) == done_texts@ + texts_before_terminate(
                    cmds_view(cmds@),
                )
                &&& contains_terminate(full) == contains_terminate(cmds_view(cmds@))
                &&& bytes_view(frames@) == frames_for(done_texts@)
            },
            term ==> {
                &&& bytes_view(frames@) == frames_for(texts_before_terminate(full))
                &&& contains_terminate(full)
            },
        decreases cmds.len(),
    {
        let ghost before = cmds_view(cmds@);
        let c = cmds.remove(0);
        proof {
            assert(before[0] == c@);
            assert(before.drop_first() =~= cmds_view(cmds@));
        }
        match c {
            Command::Message(t) => {
                let frame = encode_frame(t.as_str());
                let ghost frames0 = frames@;
                frames.push(frame);
                proof {
                    let prev = done_texts@;
                    let next = prev.push(t@);
                    assert(texts_before_terminate(before) == seq![t@] + texts_before_terminate(
                        cmds_view(cmds@),
                    ));
                    assert(prev + (seq![t@] + texts_before_terminate(cmds_view(cmds@))) =~= next
                        + texts_before_terminate(cmds_view(cmds@)));
                    assert(frames@ == frames0.push(frame));
                    assert(bytes_view(frames0).len() == frames_for(prev).len());
                    assert(frames0.len() == prev.len());
                    assert forall|j: int| 0 <= j < frames@.len() implies bytes_view(frames@)[j]
                        == #[trigger] frames_for(next)[j] by {
                        if j < frames0.len() {
                            assert(frames0.push(frame)[j] == frames0[j]);
                            assert(bytes_view(frames0)[j] == frames_for(prev)[j]);
                            assert(next[j] == prev[j]);
                        } else {
                            assert(frames0.push(frame)[j] == frame);
                            assert(next[j] == t@);
                        }
                    }
                    assert(bytes_view(frames@) =~= frames_for(next));
                }
                done_texts = Ghost(done_texts@.push(t@));
            },
            Command::Terminate => {
                term = true;
                proof {
                    assert(texts_before_terminate(before) =~= Seq::<Seq<char>>::empty());
                    assert(done_texts@ + Seq::<Seq<char>>::empty() =~= done_texts@);
                }
            },
        }
    }
    proof {
        if !term {
            assert(cmds_view(cmds@) =~= Seq::<CommandV>::empty());
            assert(done_texts@ + Seq::<Seq<char>>::empty() =~= done_texts@);
        }
    }
    (frames, term)
}

/// Begins a session after a peer connects: the commands still queued from
/// before this connection are discarded — a message addressed to an earlier,
/// now-replaced peer is never written to the new one — and the single
/// connect event is emitted.
pub fn connect_entry(stale: Vec<Command>) -> (r: (SessionBuffer, Vec<Event>))
    ensures
        r.0@ == Seq::<u8>::empty(),
        r.0.wf(),
        events_view(r.1@) == seq![EventV::PeerConnected],
{
    let _ = stale;
    let mut events: Vec<Event> = Vec::new();
    events.push(Event::PeerConnected);
    proof {
        assert(events_view(events@) =~= seq![EventV::PeerConnected]);
    }
    (SessionBuffer::new(), events)
}

/// One step of an open session: decode what the poll read and publish the
/// inbound messages first, then drain the queued commands into frames,
/// stopping at a terminate.  A terminate does not undo the read that already
/// happened in the same pass: its events stay published.
pub fn connected_step(buf: &mut SessionBuffer, read: ReadOutcome, cmds: Vec<Command>) -> (r:
    StepResult)
    requires
        old(buf).wf(),
    ensures
        final(buf).wf(),
        final(buf)@ == step_carry(old(buf)@, read@, cmds_view(cmds@)),
        events_view(r.events@) == step_events(old(buf)@, read@, cmds_view(cmds@)),
        bytes_view(r.frames@) == step_frames(old(buf)@, read@, cmds_view(cmds@)),
        r.status == step_status(old(buf)@, read@, cmds_view(cmds@)),
{
    match read {
        ReadOutcome::Closed => {
            let mut events: Vec<Event> = Vec::new();
            events.push(Event::PeerDisconnected);
            proof {
                assert(events_view(events@) =~= seq![EventV::PeerDisconnected]);
                assert(bytes_view(Seq::<Vec<u8>>::empty()) =~= Seq::<Seq<u8>>::empty());
            }
            StepResult { events, frames: Vec::new(), status: StepStatus::Disconnected }
        },
        ReadOutcome::Fatal => {
            proof {
                assert(events_view(Seq::<Event>::empty()) =~= Seq::<EventV>::empty());
                assert(bytes_view(Seq::<Vec<u8>>::empty()) =~= Seq::<Seq<u8>>::empty());
            }
            StepResult { events: Vec::new(), frames: Vec::new(), status: StepStatus::Aborted }
        },
        ReadOutcome::WouldBlock => {
            let (frames, term) = drain_commands(cmds);
            proof {
                assert(events_view(Seq::<Event>::empty()) =~= Seq::<EventV>::empty());
            }
            StepResult {
                events: Vec::new(),
                frames,
                status: if term {
                    StepStatus::Terminated
                } else {
                    StepStatus::Continue
                },
            }
        },
        ReadOutcome::Data(chunk) => {
            let (segs, new_carry) = split_stream(&buf.data, &chunk);
            let payloads = filter_payload(segs);
            let ghost ps = chunk_payloads(old(buf)@, chunk@);
            proof {
                assert(bytes_view(payloads@) == ps);
            }
            match decode_all(&payloads) {
                None => {
                    proof {
                        assert(events_view(Seq::<Event>::empty()) =~= Seq::<EventV>::empty());
                        assert(bytes_view(Seq::<Vec<u8>>::empty()) =~= Seq::<Seq<u8>>::empty());
                    }
                    StepResult {
                        events: Vec::new(),
                        frames: Vec::new(),
                        status: StepStatus::Aborted,
                    }
                },
                Some(texts) => {
                    buf.data = new_carry;
                    let events = texts_to_events(texts);
                    proof {
                        assert(events_view(events@) =~= decoded_texts(ps).map_values(
                            |t: Seq<char>| EventV::Message(t),
                        ));
                    }
                    let (frames, term) = drain_commands(cmds);
                    StepResult {
                        events,
                        frames,
                        status: if term {
                            StepStatus::Terminated
                        } else {
                            StepStatus::Continue
                        },
                    }
                },
            }
        },
    }
}

/// One poll's external happenings: what the non-blocking read produced, and
/// the commands found queued when the worker looked.
pub struct PollInput {
    pub read: ReadOutcome,
    pub cmds: Vec<Command>,
}

/// The mathematical form of a [`PollInput`].
pub struct PollInputV {
    pub read: ReadOutcomeV,
    pub cmds: Seq<CommandV>,
}

impl View for PollInput {
    type V = PollInputV;

    open spec fn view(&self) -> PollInputV {
        PollInputV { read: self.read@, cmds: cmds_view(self.cmds@) }
    }
}

/// The views of a sequence of poll inputs.
pub open spec fn polls_view(s: Seq<PollInput>) -> Seq<PollInputV> {
    s.map_values(|p: PollInput| p@)
}

/// How a session — or the whole lifecycle — came to its end.
#[derive(Debug, Clone, Copy, PartialEq, Eq, Structural)]
pub enum SessionEnd {
    /// The peer went away; the worker listens for the next one.
    Disconnected,
    /// A terminate command was drained; the worker exited in order.
    Terminated,
    /// An unrecoverable condition; the worker gave up.
    Aborted,
    /// The trace ran out with the session still open.
    Open,
}

/// The end a session reaches when a step stops it.
pub open spec fn end_of_status(st: StepStatus) -> SessionEnd {
    match st {
        StepStatus::Continue => SessionEnd::Open,
        StepStatus::Disconnected => SessionEnd::Disconnected,
        StepStatus::Terminated => SessionEnd::Terminated,
        StepStatus::Aborted => SessionEnd::Aborted,
    }
}

/// What a whole session produces: its events and frames in order, how it
/// ended, and the buffer it leaves behind.
pub struct SessionV {
    pub events: Seq<EventV>,
    pub frames: Seq<Seq<u8>>,
    pub end: SessionEnd,
    pub carry: Seq<u8>,
}

/// A whole open session, one step per poll, stopping at the first step that
/// does not continue.
pub open spec fn session_run(carry: Seq<u8>, polls: Seq<PollInputV>) -> SessionV
    decreases polls.len(),
{
    if polls.len() == 0 {
        SessionV { events: seq![], frames: seq![], end: SessionEnd::Open, carry }
    } else {
        let ev = step_events(carry, polls[0].read, polls[0].cmds);
        let fr = step_frames(carry, polls[0].read, polls[0].cmds);
        let st = step_status(carry, polls[0].read, polls[0].cmds);
        let c1 = step_carry(carry, polls[0].read, polls[0].cmds);
        if st == StepStatus::Continue {
            let rest = session_run(c1, polls.drop_first());
            SessionV {
                events: ev + rest.events,
                frames: fr + rest.frames,
                end: rest.end,
                carry: rest.carry,
            }
        } else {
            SessionV { events: ev, frames: fr, end: end_of_status(st), carry: c1 }
        }
    }
}

/// The outcome of replaying a session against a recorded trace of polls.
pub struct SessionOutcome {
    pub events: Vec<Event>,
    pub frames: Vec<Vec<u8>>,
    pub end: SessionEnd,
}

/// Replays one open session: steps through the polls in order and stops at
/// the first step that does not continue.
pub fn run_session(buf: &mut SessionBuffer, polls: Vec<PollInput>) -> (r: SessionOutcome)
    requires
        old(buf).wf(),
    ensures
        final(buf).wf(),
        ({
            let s = session_run(old(buf)@, polls_view(polls@));
            &&& events_view(r.events@) == s.events
            &&& bytes_view(r.frames@) == s.frames
            &&& r.end == s.end
            &&& final(buf)@ == s.carry
        }),
    decreases polls@.len(),
{
    let ghost pv = polls_view(polls@);
    let mut rem = polls;
    if rem.len() == 0 {
        proof {
            assert(events_view(Seq::<Event>::empty()) =~= Seq::<EventV>::empty());
            assert(bytes_view(Seq::<Vec<u8>>::empty()) =~= Seq::<Seq<u8>>::empty());
        }
        return SessionOutcome { events: Vec::new(), frames: Vec::new(), end: SessionEnd::Open };
    }
    let first = rem.remove(0);
    proof {
        assert(pv[0] == first@);
        assert(pv.drop_first() =~= polls_view(rem@));
    }
    let PollInput { read, cmds } = first;
    let step = connected_step(buf, read, cmds);
    match step.status {
        StepStatus::Continue => {
            let mut rest = run_session(buf, rem);
            let mut events = step.events;
            let mut frames = step.frames;
            let ghost ev0 = events@;
            let ghost fr0 = frames@;
            events.append(&mut rest.events);
            frames.append(&mut rest.frames);
            proof {
                assert(events_view(events@) =~= events_view(ev0) + events_view(
                    events@.skip(ev0.len() as int),
                ));
                assert(events@.skip(ev0.len() as int) =~= events@.subrange(
                    ev0.len() as int,
                    events@.len() as int,
                ));
                assert(bytes_view(frames@) =~= bytes_view(fr0) + bytes_view(
                    frames@.skip(fr0.len() as int),
                ));
            }
            SessionOutcome { events, frames, end: rest.end }
        },
        StepStatus::Disconnected => SessionOutcome {
            events: step.events,
            frames: step.frames,
            end: SessionEnd::Disconnected,
        },
        StepStatus::Terminated => SessionOutcome {
            events: step.events,
            frames: step.frames,
            end: SessionEnd::Terminated,
        },
        StepStatus::Aborted => SessionOutcome {
            events: step.events,
            frames: step.frames,
            end: SessionEnd::Aborted,
        },
    }
}

/// One connect-to-disconnect span of the worker's life: the commands found
/// queued when the peer connected (they are discarded), then the polls of
/// the open session.
pub struct CycleInput {
    pub stale: Vec<Command>,
    pub polls: Vec<PollInput>,
}

/// The mathematical form of a [`CycleInput`].
pub struct CycleInputV {
    pub stale: Seq<CommandV>,
    pub polls: Seq<PollInputV>,
}

impl View for CycleInput {
    type V = CycleInputV;

    open spec fn view(&self) -> CycleInputV {
        CycleInputV { stale: cmds_view(self.stale@), polls: polls_view(self.polls@) }
    }
}

/// The views of a sequence of cycle inputs.
pub open spec fn cycles_view(s: Seq<CycleInput>) -> Seq<CycleInputV> {
    s.map_values(|c: CycleInput| c@)
}

/// The worker's whole life, one cycle per accepted peer: each cycle begins
/// with a fresh buffer and a connect event and runs its session; only a
/// disconnect leads to the next cycle.  Note that nothing here reads a
/// cycle's stale commands: they are discarded at connect.
pub open spec fn lifecycle_run(cycles: Seq<CycleInputV>) -> SessionV
    decreases cycles.len(),
{
    if cycles.len() == 0 {
        SessionV {
            events: seq![],
            frames: seq![],
            end: SessionEnd::Disconnected,
            carry: seq![],
        }
    } else {
        let s = session_run(seq![], cycles[0].polls);
        let ev = seq![EventV::PeerConnected] + s.events;
        if s.end == SessionEnd::Disconnected {
            let rest = lifecycle_run(cycles.drop_first());
            SessionV {
                events: ev + rest.events,
                frames: s.frames + rest.frames,
                end: rest.end,
                carry: seq![],
            }
        } else {
            SessionV { events: ev, frames: s.frames, end: s.end, carry: seq![] }
        }
    }
}

/// Replays the worker's whole life against a recorded trace: accept, flush
/// the stale commands, run the session; repeat while sessions end in
/// disconnects.
pub fn run_lifecycle(cycles: Vec<CycleInput>) -> (r: SessionOutcome)
    ensures
        ({
            let l = lifecycle_run(cycles_view(cycles@));
            &&& events_view(r.events@) == l.events
            &&& bytes_view(r.frames@) == l.frames
            &&& r.end == l.end
        }),
    decreases cycles@.len(),
{
    let ghost cv = cycles_view(cycles@);
    let mut rem = cycles;
    if rem.len() == 0 {
        proof {
            assert(events_view(Seq::<Event>::empty()) =~= Seq::<EventV>::empty());
            assert(bytes_view(Seq::<Vec<u8>>::empty()) =~= Seq::<Seq<u8>>::empty());
        }
        return SessionOutcome {
            events: Vec::new(),
            frames: Vec::new(),
            end: SessionEnd::Disconnected,
        };
    }
    let first = rem.remove(0);
    proof {
        assert(cv[0] == first@);
        assert(cv.drop_first() =~= cycles_view(rem@));
    }
    let CycleInput { stale, polls } = first;
    let (mut buf, mut events) = connect_entry(stale);
    let sr = run_session(&mut buf, polls);
    let mut sr = sr;
    let ghost ev0 = events@;
    events.append(&mut sr.events);
    proof {
        assert(events_view(events@) =~= events_view(ev0) + events_view(
            events@.skip(ev0.len() as int),
        ));
    }
    if sr.end == SessionEnd::Disconnected {
        let mut rest = run_lifecycle(rem);
        let ghost ev1 = events@;
        let mut frames = sr.frames;
        let ghost fr0 = frames@;
        events.append(&mut rest.events);
        frames.append(&mut rest.frames);
        proof {
            assert(events_view(events@) =~= events_view(ev1) + events_view(
                events@.skip(ev1.len() as int),
            ));
            assert(bytes_view(frames@) =~= bytes_view(fr0) + bytes_view(
                frames@.skip(fr0.len() as int),
            ));
        }
        SessionOutcome { events, frames, end: rest.end }
    } else {
        SessionOutcome { events, frames: sr.frames, end: sr.end }
    }
}

/// The number of events in `evs` equal to `e`.
pub open spec fn count_event(evs: Seq<EventV>, e: EventV) -> nat
    decreases evs.len(),
{
    if evs.len() == 0 {
        0
    } else {
        (if evs[0] == e {
            1nat
        } else {
            0nat
        }) + count_event(evs.drop_first(), e)
    }
}

proof fn lemma_count_event_concat(a: Seq<EventV>, b: Seq<EventV>, e: EventV)
    ensures
        count_event(a + b, e) == count_event(a, e) + count_event(b, e),
    decreases a.len(),
{
    if a.len() == 0 {
        assert(a + b =~= b);
    } else {
        assert((a + b)[0] == a[0]);
        assert((a + b).drop_first() =~= a.drop_first() + b);
        lemma_count_event_concat(a.drop_first(), b, e);
    }
}

proof fn lemma_count_in_message_map(texts: Seq<Seq<char>>, e: EventV)
    requires
        !(e is Message),
    ensures
        count_event(texts.map_values(|t: Seq<char>| EventV::Message(t)), e) == 0,
    decreases texts.len(),
{
    let mapped = texts.map_values(|t: Seq<char>| EventV::Message(t));
    if texts.len() == 0 {
    } else {
        assert(mapped[0] == EventV::Message(texts[0]));
        assert(mapped.drop_first() =~= texts.drop_first().map_values(
            |t: Seq<char>| EventV::Message(t),
        ));
        lemma_count_in_message_map(texts.drop_first(), e);
    }
}

/// One step emits no connect event, and a disconnect event exactly when the
/// read said the peer went away.
proof fn lemma_step_event_counts(carry: Seq<u8>, read: ReadOutcomeV, cmds: Seq<CommandV>)
    ensures
        count_event(step_events(carry, read, cmds), EventV::PeerConnected) == 0,
        count_event(step_events(carry, read, cmds), EventV::PeerDisconnected) == (
        if read is Closed {
            1nat
        } else {
            0nat
        }),
{
    match read {
        ReadOutcomeV::Data(chunk) => {
            let ps = chunk_payloads(carry, chunk);
            if all_valid_utf8(ps) {
                let texts = decoded_texts(ps);
                let mapped = texts.map_values(|t: Seq<char>| EventV::Message(t));
                assert(step_events(carry, read, cmds) == mapped);
                lemma_count_in_message_map(texts, EventV::PeerConnected);
                lemma_count_in_message_map(texts, EventV::PeerDisconnected);
                assert(count_event(mapped, EventV::PeerConnected) == 0);
                assert(count_event(mapped, EventV::PeerDisconnected) == 0);
            } else {
                assert(step_events(carry, read, cmds) == Seq::<EventV>::empty());
                assert(count_event(Seq::<EventV>::empty(), EventV::PeerConnected) == 0);
                assert(count_event(Seq::<EventV>::empty(), EventV::PeerDisconnected) == 0);
            }
        },
        ReadOutcomeV::Closed => {
            let ev = step_events(carry, read, cmds);
            assert(ev == seq![EventV::PeerDisconnected]);
            assert(ev.drop_first() =~= Seq::<EventV>::empty());
            assert(count_event(Seq::<EventV>::empty(), EventV::PeerConnected) == 0);
            assert(count_event(Seq::<EventV>::empty(), EventV::PeerDisconnected) == 0);
            assert(count_event(ev, EventV::PeerConnected) == 0);
            assert(count_event(ev, EventV::PeerDisconnected) == 1);
        },
        ReadOutcomeV::WouldBlock => {
            assert(step_events(carry, read, cmds) == Seq::<EventV>::empty());
            assert(count_event(step_events(carry, read, cmds), EventV::PeerConnected) == 0);
            assert(count_event(step_events(carry, read, cmds), EventV::PeerDisconnected) == 0);
        },
        ReadOutcomeV::Fatal => {
            assert(step_events(carry, read, cmds) == Seq::<EventV>::empty());
            assert(count_event(step_events(carry, read, cmds), EventV::PeerConnected) == 0);
            assert(count_event(step_events(carry, read, cmds), EventV::PeerDisconnected) == 0);
        },
    }
}

/// A session emits no connect event, and exactly one disconnect event when
/// (and only when) it ends in a disconnect.
proof fn lemma_session_event_counts(carry: Seq<u8>, polls: Seq<PollInputV>)
    ensures
        count_event(session_run(carry, polls).events, EventV::PeerConnected) == 0,
        count_event(session_run(carry, polls).events, EventV::PeerDisconnected) == (
        if session_run(carry, polls).end == SessionEnd::Disconnected {
            1nat
        } else {
            0nat
        }),
    decreases polls.len(),
{
    if polls.len() == 0 {
    } else {
        let ev = step_events(carry, polls[0].read, polls[0].cmds);
        let st = step_status(carry, polls[0].read, polls[0].cmds);
        let c1 = step_carry(carry, polls[0].read, polls[0].cmds);
        lemma_step_event_counts(carry, polls[0].read, polls[0].cmds);
        if st == StepStatus::Continue {
            let rest = session_run(c1, polls.drop_first());
            lemma_session_event_counts(c1, polls.drop_first());
            lemma_count_event_concat(ev, rest.events, EventV::PeerConnected);
            lemma_count_event_concat(ev, rest.events, EventV::PeerDisconnected);
        }
    }
}

/// Reconnect liveness: across a run whose sessions each end in a disconnect,
/// every accepted peer produces exactly one connect event and exactly one
/// disconnect event, and the run ends with the worker listening again,
/// ready to accept the next peer.  One dropped connection never ends the
/// worker.
pub proof fn lemma_reconnect_liveness(cycles: Seq<CycleInputV>)
    requires
        forall|i: int|
            0 <= i < cycles.len() ==> session_run(seq![], (#[trigger] cycles[i]).polls).end
                == SessionEnd::Disconnected,
    ensures
        lifecycle_run(cycles).end == SessionEnd::Disconnected,
        count_event(lifecycle_run(cycles).events, EventV::PeerConnected) == cycles.len(),
        count_event(lifecycle_run(cycles).events, EventV::PeerDisconnected) == cycles.len(),
    decreases cycles.len(),
{
    if cycles.len() == 0 {
    } else {
        let s = session_run(seq![], cycles[0].polls);
        assert(s.end == SessionEnd::Disconnected);
        let ev = seq![EventV::PeerConnected] + s.events;
        let rest = lifecycle_run(cycles.drop_first());
        lemma_session_event_counts(seq![], cycles[0].polls);
        assert(seq![EventV::PeerConnected].drop_first() =~= Seq::<EventV>::empty());
        assert(count_event(Seq::<EventV>::empty(), EventV::PeerConnected) == 0);
        assert(count_event(Seq::<EventV>::empty(), EventV::PeerDisconnected) == 0);
        assert(count_event(seq![EventV::PeerConnected], EventV::PeerConnected) == 1);
        assert(count_event(seq![EventV::PeerConnected], EventV::PeerDisconnected) == 0);
        lemma_count_event_concat(seq![EventV::PeerConnected], s.events, EventV::PeerConnected);
        lemma_count_event_concat(seq![EventV::PeerConnected], s.events, EventV::PeerDisconnected);
        assert forall|i: int| 0 <= i < cycles.drop_first().len() implies session_run(
            seq![],
            (#[trigger] cycles.drop_first()[i]).polls,
        ).end == SessionEnd::Disconnected by {
            assert(cycles.drop_first()[i] == cycles[i + 1]);
        }
        lemma_reconnect_liveness(cycles.drop_first());
        lemma_count_event_concat(ev, rest.events, EventV::PeerConnected);
        lemma_count_event_concat(ev, rest.events, EventV::PeerDisconnected);
    }
}

/// Stale messages are dropped: what a run writes and publishes depends only
/// on what each cycle's polls carry, never on the commands that were waiting
/// in the queue when the peer connected — those are discarded, not sent.
pub proof fn lemma_stale_commands_never_sent(c1: Seq<CycleInputV>, c2: Seq<CycleInputV>)
    requires
        c1.len() == c2.len(),
        forall|i: int| 0 <= i < c1.len() ==> (#[trigger] c1[i]).polls == (#[trigger] c2[i]).polls,
    ensures
        lifecycle_run(c1).frames == lifecycle_run(c2).frames,
        lifecycle_run(c1).events == lifecycle_run(c2).events,
        lifecycle_run(c1).end == lifecycle_run(c2).end,
    decreases c1.len(),
{
    if c1.len() == 0 {
    } else {
        assert(c1[0].polls == c2[0].polls);
        assert forall|i: int| 0 <= i < c1.drop_first().len() implies (#[trigger] c1.drop_first()[i]).polls
            == (#[trigger] c2.drop_first()[i]).polls by {
            assert(c1.drop_first()[i] == c1[i + 1]);
            assert(c2.drop_first()[i] == c2[i + 1]);
        }
        lemma_stale_commands_never_sent(c1.drop_first(), c2.drop_first());
    }
}

/// Heartbeat suppression at one step: no event a step emits is a message
/// reading `"ping"` — the token is consumed silently.
pub proof fn lemma_heartbeat_suppressed_step(
    carry: Seq<u8>,
    read: ReadOutcomeV,
    cmds: Seq<CommandV>,
)
    ensures
        forall|i: int|
            0 <= i < step_events(carry, read, cmds).len() ==> #[trigger] step_events(
                carry,
                read,
                cmds,
            )[i] != EventV::Message("ping"@),
{
    match read {
        ReadOutcomeV::Data(chunk) => {
            let ps = chunk_payloads(carry, chunk);
            if all_valid_utf8(ps) {
                let ev = decoded_texts(ps).map_values(|t: Seq<char>| EventV::Message(t));
                crate::framing::lemma_payload_segments_are_payloads(scan_segments(chunk, carry));
                crate::framing::lemma_ping_encoding();
                assert forall|i: int| 0 <= i < ev.len() implies ev[i] != EventV::Message(
                    "ping"@,
                ) by {
                    assert(ev[i] == EventV::Message(decode_utf8(ps[i])));
                    if decode_utf8(ps[i]) == "ping"@ {
                        assert(valid_utf8(ps[i]));
                        vstd::utf8::decode_utf8_encode_utf8(ps[i]);
                        assert(ps[i] == crate::framing::heartbeat_bytes());
                        assert(crate::framing::is_payload_segment(ps[i]));
                        assert(false);
                    }
                }
            }
        },
        ReadOutcomeV::WouldBlock => {},
        ReadOutcomeV::Closed => {},
        ReadOutcomeV::Fatal => {},
    }
}

proof fn lemma_heartbeat_suppressed_session(carry: Seq<u8>, polls: Seq<PollInputV>)
    ensures
        forall|i: int|
            0 <= i < session_run(carry, polls).events.len() ==> #[trigger] session_run(
                carry,
                polls,
            ).events[i] != EventV::Message("ping"@),
    decreases polls.len(),
{
    if polls.len() == 0 {
    } else {
        let ev = step_events(carry, polls[0].read, polls[0].cmds);
        let st = step_status(carry, polls[0].read, polls[0].cmds);
        let c1 = step_carry(carry, polls[0].read, polls[0].cmds);
        lemma_heartbeat_suppressed_step(carry, polls[0].read, polls[0].cmds);
        if st == StepStatus::Continue {
            let rest = session_run(c1, polls.drop_first());
            lemma_heartbeat_suppressed_session(c1, polls.drop_first());
            assert forall|i: int| 0 <= i < session_run(carry, polls).events.len() implies #[trigger] session_run(
                carry,
                polls,
            ).events[i] != EventV::Message("ping"@) by {
                if i < ev.len() {
                    assert(session_run(carry, polls).events[i] == ev[i]);
                } else {
                    assert(session_run(carry, polls).events[i] == rest.events[i - ev.len()]);
                }
            }
        }
    }
}

/// Heartbeat suppression: nowhere across a whole run does a message event
/// read `"ping"`.
pub proof fn lemma_heartbeat_suppressed(cycles: Seq<CycleInputV>)
    ensures
        forall|i: int|
            0 <= i < lifecycle_run(cycles).events.len() ==> #[trigger] lifecycle_run(
                cycles,
            ).events[i] != EventV::Message("ping"@),
    decreases cycles.len(),
{
    if cycles.len() == 0 {
    } else {
        let s = session_run(seq![], cycles[0].polls);
        let ev = seq![EventV::PeerConnected] + s.events;
        let rest = lifecycle_run(cycles.drop_first());
        lemma_heartbeat_suppressed_session(seq![], cycles[0].polls);
        lemma_heartbeat_suppressed(cycles.drop_first());
        assert forall|i: int| 0 <= i < lifecycle_run(cycles).events.len() implies #[trigger] lifecycle_run(
            cycles,
        ).events[i] != EventV::Message("ping"@) by {
            if i == 0 {
                assert(ev[0] == EventV::PeerConnected);
            } else if i < ev.len() {
                assert(ev[i] == s.events[i - 1]);
            } else if s.end == SessionEnd::Disconnected {
                assert(lifecycle_run(cycles).events[i] == rest.events[i - ev.len()]);
            }
        }
    }
}

/// Heartbeat suppression, end to end: across a whole run, draining the
/// published events never surfaces the text `"ping"`.
pub proof fn lemma_heartbeat_never_drained(cycles: Seq<CycleInputV>)
    ensures
        forall|j: int|
            0 <= j < crate::handle::message_texts(lifecycle_run(cycles).events).len()
                ==> #[trigger] crate::handle::message_texts(lifecycle_run(cycles).events)[j]
                != "ping"@,
{
    let evs = lifecycle_run(cycles).events;
    let texts = crate::handle::message_texts(evs);
    lemma_heartbeat_suppressed(cycles);
    crate::handle::lemma_drained_texts_are_event_messages(evs);
    assert forall|j: int| 0 <= j < texts.len() implies #[trigger] texts[j] != "ping"@ by {
        if texts[j] == "ping"@ {
            let i = choose|i: int| 0 <= i < evs.len() && evs[i] == EventV::Message(texts[j]);
            assert(evs[i] == EventV::Message("ping"@));
            assert(false);
        }
    }
}

/// Ordered shutdown: when a drained batch is some messages followed by a
/// terminate, every one of those messages is framed, in order, and only
/// then does the worker stop — the terminate pre-empts nothing queued ahead
/// of it.
pub proof fn lemma_ordered_shutdown(texts: Seq<Seq<char>>, cmds: Seq<CommandV>)
    requires
        cmds == texts.map_values(|t: Seq<char>| CommandV::Message(t)).push(CommandV::Terminate),
    ensures
        texts_before_terminate(cmds) == texts,
        contains_terminate(cmds),
    decreases texts.len(),
{
    let mapped = texts.map_values(|t: Seq<char>| CommandV::Message(t));
    if texts.len() == 0 {
        assert(cmds[0] == CommandV::Terminate);
        assert(texts_before_terminate(cmds) =~= texts);
    } else {
        assert(cmds[0] == mapped.push(CommandV::Terminate)[0]);
        assert(cmds[0] == CommandV::Message(texts[0]));
        let tail = texts.drop_first();
        assert(cmds.drop_first() =~= tail.map_values(|t: Seq<char>| CommandV::Message(t)).push(
            CommandV::Terminate,
        ));
        lemma_ordered_shutdown(tail, cmds.drop_first());
        assert(texts_before_terminate(cmds) =~= texts);
    }
}

/// Wraps decoded inbound texts as message events, in order.
fn texts_to_events(texts: Vec<String>) -> (evs: Vec<Event>)
    ensures
        events_view(evs@) == texts_view(texts@).map_values(|t: Seq<char>| EventV::Message(t)),
{
    let ghost full = texts_view(texts@);
    let mut rem = texts;
    let mut evs: Vec<Event> = Vec::new();
    proof {
        assert(texts_view(rem@) =~= full.skip(0));
    }
    while rem.len() > 0
        invariant
            evs@.len() + rem@.len() == full.len(),
            texts_view(rem@) == full.skip(evs@.len() as int),
            forall|j: int|
                0 <= j < evs@.len() ==> events_view(evs@)[j] == EventV::Message(#[trigger] full[j]),
        decreases rem.len(),
    {
        let ghost k: int = evs@.len() as int;
        let ghost before = texts_view(rem@);
        let t = rem.remove(0);
        proof {
            assert(before[0] == t@);
            assert(t@ == full[k]);
            assert(before.drop_first() =~= texts_view(rem@));
            assert(full.skip(k).drop_first() =~= full.skip(k + 1));
        }
        let ghost evs0 = evs@;
        evs.push(Event::Message(t));
        proof {
            assert(evs@ == evs0.push(Event::Message(t)));
            assert forall|j: int| 0 <= j < evs@.len() implies events_view(evs@)[j]
                == EventV::Message(#[trigger] full[j]) by {
                if j < k {
                    assert(evs0.push(Event::Message(t))[j] == evs0[j]);
                    assert(events_view(evs0)[j] == EventV::Message(full[j]));
                } else {
                    assert(evs0.push(Event::Message(t))[j] == Event::Message(t));
                }
            }
        }
    }
    proof {
        assert(events_view(evs@) =~= full.map_values(|t: Seq<char>| EventV::Message(t)));
    }
    evs
}

} // verus!
