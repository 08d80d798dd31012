//! The life of one session on the server: wiring the child up, forwarding its
//! output, obeying the client, and ending honestly.

use vstd::prelude::*;

use crate::child::process_group;
use crate::proto::{
    named_signal, signal_named, ExitStatus, Frame, FrameView, PtySize, Signal,
};

verus! {

/// `Ctrl-D`: what a terminal's line discipline turns into end of file.
pub const EOT: u8 = 4;

/// The status of a session whose output could not be delivered in full.
pub const INCOMPLETE: i32 = 255;

/// How long to keep reading a terminal once the leader has exited, in seconds.
///
/// A pipe ends when its last writer closes it, so that case needs no deadline. A
/// terminal has no such guarantee: a job backgrounded from an interactive shell
/// keeps it open after the shell exits, and without a bound the session would
/// never finish.
pub const DRAIN_GRACE_SECS: u64 = 2;

/// How long to wait for the job to die before escalating to the next signal, in
/// seconds.
pub const TERMINATE_GRACE_SECS: u64 = 2;

/// How long to wait for the peer to acknowledge the final frames, in seconds.
pub const SHUTDOWN_GRACE_SECS: u64 = 2;

/// How often it is looked whether the leader has exited, in milliseconds.
pub const LEADER_POLL_MILLIS: u64 = 25;

/// How long output is drained at most, in seconds.
pub open spec fn drain_limit(is_pty: bool) -> Option<u64> {
    if is_pty {
        Some(2u64)
    } else {
        None
    }
}

/// Output that comes through pipes is never cut short, however long it takes: a
/// job in the background may hold them. That of a terminal, which a job can hold
/// without writing, is waited for, but not for long.
pub proof fn law_pipes_are_never_cut_short(is_pty: bool)
    ensures
        drain_limit(is_pty) is None <==> !is_pty,
        is_pty ==> drain_limit(is_pty)->0 == 2,
{
}

/// How long the output of a session is drained at most once the leader has
/// exited, in seconds; without end where it comes through pipes. When the time
/// is up the pump is cancelled.
pub fn drain_limit_secs(is_pty: bool) -> (r: Option<u64>)
    ensures
        r == drain_limit(is_pty),
{
    if is_pty {
        Some(DRAIN_GRACE_SECS)
    } else {
        None
    }
}

// ---------------------------------------------------------------------------
// Killing the job
// ---------------------------------------------------------------------------

/// Kills the remote process group if the session goes away.
///
/// A child is left running when its handle goes away, so without this a client
/// that is killed, or a server that is shutting down, would leave jobs behind
/// forever. The guard fires on every exit path.
///
/// Its reach is the session's initial process group. Job control can put work
/// in a different group; full containment requires a session cgroup.
#[derive(Debug, Clone, Copy, PartialEq, Eq, Structural)]
pub struct ProcessGroupGuard {
    pub pid: Option<u32>,
}

/// How far asking the job to go away has come.
#[derive(Debug, Clone, Copy, PartialEq, Eq, Structural)]
pub enum Escalation {
    /// It was sent the hangup signal.
    HungUp,
    /// It was sent the termination signal.
    Terminated,
}

/// The next step of asking the job to go away.
#[derive(Debug, Clone, Copy, PartialEq, Eq, Structural)]
pub enum TerminateStep {
    /// There is no job to kill.
    Nothing,
    /// Send the signal to the group, then wait for the leader to exit, for as
    /// long as the grace period lasts.
    SignalAndWait(u32, Signal, Escalation),
    /// Send the signal to the group; that is the end of it.
    SignalAndStop(u32, Signal),
}

impl ProcessGroupGuard {
    /// The next step of asking the job to go away.
    pub open spec fn escalated(self, so_far: Option<Escalation>, exited: bool) -> TerminateStep {
        match self.pid {
            None => TerminateStep::Nothing,
            Some(pid) => match so_far {
                None => TerminateStep::SignalAndWait(pid, Signal::Hup, Escalation::HungUp),
                Some(Escalation::HungUp) if !exited => TerminateStep::SignalAndWait(
                    pid,
                    Signal::Term,
                    Escalation::Terminated,
                ),
                _ => TerminateStep::SignalAndStop(pid, Signal::Kill),
            },
        }
    }

    pub fn new(pid: Option<u32>) -> (g: ProcessGroupGuard)
        ensures
            g.pid == pid,
    {
        ProcessGroupGuard { pid }
    }

    /// Stop guarding the group.
    ///
    /// Only correct once the leader has exited *and* its output has drained
    /// to end of file. Nothing left is attached to this session, and reaping
    /// the leader after disarming cannot race a later group signal.
    pub fn disarm(&mut self)
        ensures
            final(self).pid is None,
    {
        self.pid = None;
    }

    /// Ask the job to go away, escalating if it will not: the first step when
    /// `so_far` is `None`, otherwise the one after the wait that followed, in
    /// which the leader exited or not.
    ///
    /// The pid stays in place across both grace periods. Taking it up front
    /// would disarm the guard for the several seconds this takes, and a
    /// cancellation in that window would then leave the job running.
    ///
    /// The leader stays waitable, so its pid cannot be reused; once it has
    /// exited, stragglers still in its group are killed.
    pub fn terminate(&mut self, so_far: Option<Escalation>, exited: bool) -> (step: TerminateStep)
        ensures
            step == old(self).escalated(so_far, exited),
            match old(self).pid {
                None => step is Nothing && *final(self) == *old(self),
                Some(pid) => match so_far {
                    None => step == TerminateStep::SignalAndWait(pid, Signal::Hup, Escalation::HungUp)
                        && *final(self) == *old(self),
                    Some(Escalation::HungUp) if !exited => step == TerminateStep::SignalAndWait(
                        pid,
                        Signal::Term,
                        Escalation::Terminated,
                    ) && *final(self) == *old(self),
                    _ => step == TerminateStep::SignalAndStop(pid, Signal::Kill) && final(self).pid is None,
                },
            },
    {
        match self.pid {
            None => TerminateStep::Nothing,
            Some(pid) => match so_far {
                None => TerminateStep::SignalAndWait(pid, Signal::Hup, Escalation::HungUp),
                Some(Escalation::HungUp) => if exited {
                    self.pid = None;
                    TerminateStep::SignalAndStop(pid, Signal::Kill)
                } else {
                    TerminateStep::SignalAndWait(pid, Signal::Term, Escalation::Terminated)
                },
                Some(Escalation::Terminated) => {
                    self.pid = None;
                    TerminateStep::SignalAndStop(pid, Signal::Kill)
                },
            },
        }
    }

    /// What is sent when the session goes away.
    pub open spec fn parting(self) -> Option<(u32, Signal)> {
        match self.pid {
            Some(pid) => Some((pid, Signal::Kill)),
            None => None,
        }
    }

    /// What to send when the session goes away without further ado: straight to
    /// the signal that cannot be ignored.
    pub fn dropped(&self) -> (r: Option<(u32, Signal)>)
        ensures
            r == self.parting(),
    {
        match self.pid {
            Some(pid) => Some((pid, Signal::Kill)),
            None => None,
        }
    }
}

/// A session that goes away, for whatever reason, takes its job along: what is
/// guarded is killed, by the signal that cannot be ignored. Only once the guard
/// was disarmed is nothing sent.
pub proof fn law_no_job_is_left_behind(guard: ProcessGroupGuard)
    ensures
        guard.parting() is None <==> guard.pid is None,
        guard.pid is Some ==> guard.parting() == Some((guard.pid->0, Signal::Kill)),
{
}

/// A job is asked to go away at most twice, and then it is killed: the hangup
/// comes first, the termination only if the leader outlived the wait, and
/// whichever way the waits go, the last thing that is sent is the signal that
/// cannot be ignored. All of it goes to the process that is guarded.
pub proof fn law_escalation_ends_in_a_kill(pid: u32, first_wait: bool, second_wait: bool)
    ensures
        ({
            let g = ProcessGroupGuard { pid: Some(pid) };
            let first = g.escalated(None, false);
            let second = g.escalated(Some(Escalation::HungUp), first_wait);
            let third = g.escalated(Some(Escalation::Terminated), second_wait);
            &&& first == TerminateStep::SignalAndWait(pid, Signal::Hup, Escalation::HungUp)
            &&& second is SignalAndStop <==> first_wait
            &&& second is SignalAndWait <==> !first_wait
            &&& !first_wait ==> second->SignalAndWait_0 == pid && second->SignalAndWait_1 is Term
                && second->SignalAndWait_2 is Terminated
            &&& first_wait ==> second->SignalAndStop_0 == pid && second->SignalAndStop_1 is Kill
            &&& third is SignalAndStop
            &&& third->SignalAndStop_0 == pid && third->SignalAndStop_1 is Kill
            &&& (ProcessGroupGuard { pid: None }).escalated(None, first_wait) is Nothing
        }),
{
}

/// What asking the leader whether it has exited came to.
#[derive(Debug, Clone, Copy, PartialEq, Eq, Structural)]
pub enum LeaderPoll {
    Exited,
    /// Ask again a little later.
    Running,
    /// Its exit cannot be observed.
    Failed,
}

/// What an answer of the system says of the leader.
pub open spec fn polled(rc: i32, si_pid: i32) -> LeaderPoll {
    if rc != 0 {
        LeaderPoll::Failed
    } else if si_pid != 0 {
        LeaderPoll::Exited
    } else {
        LeaderPoll::Running
    }
}

/// The leader has exited exactly if the system answered and named a process; it
/// is running as long as the system answers and names none.
pub proof fn law_leader_has_exited_when_the_system_says_so(rc: i32, si_pid: i32)
    ensures
        polled(rc, si_pid) is Exited <==> rc == 0 && si_pid != 0,
        polled(rc, si_pid) is Running <==> rc == 0 && si_pid == 0,
        polled(rc, si_pid) is Failed <==> rc != 0,
{
}

/// What the system's answer means: `rc` is the result of the call, `si_pid` the
/// process that it reported on, 0 if none has exited.
pub fn leader_poll(rc: i32, si_pid: i32) -> (r: LeaderPoll)
    ensures
        r == polled(rc, si_pid),
{
    if rc != 0 {
        LeaderPoll::Failed
    } else if si_pid != 0 {
        LeaderPoll::Exited
    } else {
        LeaderPoll::Running
    }
}

// ---------------------------------------------------------------------------
// Forwarding output
// ---------------------------------------------------------------------------

/// How an output pump finished.
#[derive(Debug, Clone, Copy, PartialEq, Eq, Structural)]
pub enum PumpEnd {
    /// The stream reached a real end of file; everything was forwarded.
    Eof,
    /// Reading the child's output failed part way through.
    ReadError,
    /// Nobody is left to receive the frames.
    ClientGone,
    /// The drain deadline arrived while waiting for more output.
    CutoffIdle,
    /// The drain deadline arrived with a chunk still awaiting delivery.
    CutoffPending,
    /// The forwarding task itself did not finish.
    Failed,
}

impl PumpEnd {
    /// Was everything that was read forwarded, up to an end or a quiet moment?
    pub open spec fn complete(self) -> bool {
        self is Eof || self is CutoffIdle
    }
}

/// What happens to an output pump.
#[derive(Debug)]
pub enum PumpEvent {
    /// The drain deadline arrived. Where it arrives together with something
    /// else, it comes first.
    Cancelled,
    /// Bytes were read; none mean the end of the stream.
    Read(Vec<u8>),
    ReadFailed,
    /// The chunk was handed over.
    Sent,
    /// Nobody is left to hand it to.
    ReceiverGone,
}

/// What an output pump is doing.
#[derive(Debug)]
pub enum Pump {
    /// Waiting for output. Only here can it stop without owing a chunk.
    Reading,
    /// Handing this chunk over.
    Sending(Vec<u8>),
    Ended(PumpEnd),
}

/// What a [`PumpEvent`] holds.
pub enum PumpEventView {
    Cancelled,
    Read(Seq<u8>),
    ReadFailed,
    Sent,
    ReceiverGone,
}

impl View for PumpEvent {
    type V = PumpEventView;

    open spec fn view(&self) -> PumpEventView {
        match *self {
            PumpEvent::Cancelled => PumpEventView::Cancelled,
            PumpEvent::Read(b) => PumpEventView::Read(b@),
            PumpEvent::ReadFailed => PumpEventView::ReadFailed,
            PumpEvent::Sent => PumpEventView::Sent,
            PumpEvent::ReceiverGone => PumpEventView::ReceiverGone,
        }
    }
}

/// What a [`Pump`] holds.
pub enum PumpView {
    Reading,
    Sending(Seq<u8>),
    Ended(PumpEnd),
}

impl View for Pump {
    type V = PumpView;

    open spec fn view(&self) -> PumpView {
        match *self {
            Pump::Reading => PumpView::Reading,
            Pump::Sending(b) => PumpView::Sending(b@),
            Pump::Ended(end) => PumpView::Ended(end),
        }
    }
}

impl PumpView {
    /// What the pump does after an event. Events that do not belong to what it
    /// is doing change nothing.
    pub open spec fn after(self, event: PumpEventView) -> PumpView {
        match self {
            PumpView::Reading => match event {
                PumpEventView::Cancelled => PumpView::Ended(PumpEnd::CutoffIdle),
                PumpEventView::Read(b) => if b.len() == 0 {
                    PumpView::Ended(PumpEnd::Eof)
                } else {
                    PumpView::Sending(b)
                },
                PumpEventView::ReadFailed => PumpView::Ended(PumpEnd::ReadError),
                _ => self,
            },
            PumpView::Sending(_) => match event {
                PumpEventView::Cancelled => PumpView::Ended(PumpEnd::CutoffPending),
                PumpEventView::Sent => PumpView::Reading,
                PumpEventView::ReceiverGone => PumpView::Ended(PumpEnd::ClientGone),
                _ => self,
            },
            PumpView::Ended(_) => self,
        }
    }
}

impl Pump {
    /// What the pump does after an event.
    pub fn next(self, event: PumpEvent) -> (p: Pump)
        ensures
            p@ == self@.after(event@),
    {
        match self {
            Pump::Reading => match event {
                PumpEvent::Cancelled => Pump::Ended(PumpEnd::CutoffIdle),
                PumpEvent::Read(b) => if b.len() == 0 {
                    Pump::Ended(PumpEnd::Eof)
                } else {
                    Pump::Sending(b)
                },
                PumpEvent::ReadFailed => Pump::Ended(PumpEnd::ReadError),
                _ => Pump::Reading,
            },
            Pump::Sending(b) => match event {
                PumpEvent::Cancelled => Pump::Ended(PumpEnd::CutoffPending),
                PumpEvent::Sent => Pump::Reading,
                PumpEvent::ReceiverGone => Pump::Ended(PumpEnd::ClientGone),
                _ => Pump::Sending(b),
            },
            Pump::Ended(end) => Pump::Ended(end),
        }
    }
}

/// A pump says truly how it ended: at the end of the stream only when there was
/// nothing more to read, never when reading failed; and whenever it stops while
/// a chunk is still owed, it says that too. Once ended, it stays so.
pub proof fn law_pump_ends_honestly(p: PumpView, event: PumpEventView)
    requires
        !(p is Ended),
    ensures
        ({
            let q = p.after(event);
            let empty = event matches PumpEventView::Read(b) && b.len() == 0;
            &&& q == PumpView::Ended(PumpEnd::Eof) <==> p is Reading && empty
            &&& q == PumpView::Ended(PumpEnd::ReadError) <==> p is Reading && event is ReadFailed
            &&& q == PumpView::Ended(PumpEnd::CutoffIdle) <==> p is Reading && event is Cancelled
            &&& q == PumpView::Ended(PumpEnd::CutoffPending) <==> p is Sending && event is Cancelled
            &&& q == PumpView::Ended(PumpEnd::ClientGone) <==> p is Sending
                && event is ReceiverGone
            &&& q != PumpView::Ended(PumpEnd::Failed)
            &&& forall|end: PumpEnd, later: PumpEventView|
                (#[trigger] PumpView::Ended(end).after(later)) == PumpView::Ended(end)
        }),
{
}

/// A pump's life so far: what it is doing, the bytes it took in, and the bytes
/// it handed over.
#[verifier::ext_equal]
pub struct PumpLife {
    pub state: PumpView,
    pub taken: Seq<u8>,
    pub forwarded: Seq<u8>,
}

/// The life of a pump through these events.
pub open spec fn pump_life(events: Seq<PumpEventView>) -> PumpLife
    decreases events.len(),
{
    if events.len() == 0 {
        PumpLife { state: PumpView::Reading, taken: Seq::empty(), forwarded: Seq::empty() }
    } else {
        let before = pump_life(events.drop_last());
        let event = events.last();
        PumpLife {
            state: before.state.after(event),
            taken: match (before.state, event) {
                (PumpView::Reading, PumpEventView::Read(b)) => before.taken + b,
                _ => before.taken,
            },
            forwarded: match (before.state, event) {
                (PumpView::Sending(b), PumpEventView::Sent) => before.forwarded + b,
                _ => before.forwarded,
            },
        }
    }
}

/// Output is forwarded as it was read, byte for byte and in order; and a pump
/// that reports a complete end has handed over every byte it took in.
pub proof fn law_pump_forwards_everything(events: Seq<PumpEventView>)
    ensures
        ({
            let life = pump_life(events);
            &&& life.forwarded.is_prefix_of(life.taken)
            &&& match life.state {
                PumpView::Reading => life.forwarded == life.taken,
                PumpView::Sending(b) => life.forwarded + b == life.taken,
                PumpView::Ended(end) => end.complete() || end is ReadError ==> life.forwarded
                    == life.taken,
            }
        }),
    decreases events.len(),
{
    if events.len() > 0 {
        law_pump_forwards_everything(events.drop_last());
        let before = pump_life(events.drop_last());
        let life = pump_life(events);
        match (before.state, events.last()) {
            (PumpView::Reading, PumpEventView::Read(b)) => {
                assert(life.taken.take(life.forwarded.len() as int) =~= life.forwarded);
                if b.len() == 0 {
                    assert(life.taken =~= before.taken);
                }
            },
            (PumpView::Sending(b), PumpEventView::Sent) => {
                assert(life.taken.take(life.forwarded.len() as int) =~= life.forwarded);
            },
            _ => {},
        }
    } else {
        let life = pump_life(events);
        assert(life.taken.take(0) =~= life.forwarded);
    }
}

/// Did every byte of the child's output make it onto the wire?
#[derive(Debug, Clone, Copy, PartialEq, Eq, Structural)]
pub enum Drained {
    Fully,
    /// No; this is how a pump ended.
    Incomplete(PumpEnd),
}

impl Drained {
    /// Why not.
    pub open spec fn why(self) -> Seq<char> {
        match self {
            Drained::Incomplete(PumpEnd::ReadError) => "read error"@,
            Drained::Incomplete(PumpEnd::ClientGone) => "client stopped reading"@,
            Drained::Incomplete(PumpEnd::CutoffPending) =>
                "output remained buffered at the PTY drain deadline"@,
            _ => "output task failed"@,
        }
    }
}

/// What the ends of all pumps come to; where several are incomplete the last
/// counts.
pub open spec fn drained(ends: Seq<PumpEnd>) -> Drained
    decreases ends.len(),
{
    if ends.len() == 0 {
        Drained::Fully
    } else if ends.last().complete() {
        drained(ends.drop_last())
    } else {
        Drained::Incomplete(ends.last())
    }
}

/// What the ends of all pumps come to, once the remote process has exited.
///
/// A pipe is drained without a deadline: it ends when its last writer closes
/// it, so waiting is exactly as long as there is still output to deliver. A
/// terminal gets a deadline, because a job backgrounded from an interactive
/// shell holds it open indefinitely; its pump reports whether the cutoff
/// discarded a chunk already read.
pub fn drain(ends: &Vec<PumpEnd>) -> (d: Drained)
    ensures
        d == drained(ends@),
{
    let mut result = Drained::Fully;
    let mut i: usize = 0;
    assert(ends@.take(0) =~= Seq::empty());
    while i < ends.len()
        invariant
            i <= ends@.len(),
            result == drained(ends@.take(i as int)),
        decreases ends@.len() - i,
    {
        assert(ends@.take(i + 1).drop_last() =~= ends@.take(i as int));
        assert(ends@.take(i + 1).last() == ends@[i as int]);
        match ends[i] {
            PumpEnd::Eof => {},
            PumpEnd::CutoffIdle => {},
            end => {
                result = Drained::Incomplete(end);
            },
        }
        i += 1;
    }
    assert(ends@.take(i as int) =~= ends@);
    result
}

/// The output counts as drained exactly when every pump ended complete.
pub proof fn law_drained_means_all_complete(ends: Seq<PumpEnd>)
    ensures
        drained(ends) is Fully <==> forall|i: int|
            0 <= i < ends.len() ==> (#[trigger] ends[i]).complete(),
    decreases ends.len(),
{
    if ends.len() > 0 {
        law_drained_means_all_complete(ends.drop_last());
        if ends.last().complete() {
            assert forall|i: int| 0 <= i < ends.drop_last().len() implies ends.drop_last()[i]
                == #[trigger] ends[i] by {}
            if drained(ends) is Fully {
                assert forall|i: int| 0 <= i < ends.len() implies (#[trigger] ends[i]).complete() by {
                    if i < ends.len() - 1 {
                        assert(ends.drop_last()[i].complete());
                    }
                }
            } else {
                let i = choose|i: int|
                    0 <= i < ends.drop_last().len() && !(#[trigger] ends.drop_last()[i]).complete();
                assert(!ends[i].complete());
            }
        } else {
            assert(!ends[ends.len() - 1].complete());
        }
    }
}

/// The output counts as drained only where every pump came to a real end of file
/// or was cut off in a quiet moment: one that failed to read, lost its client,
/// was cut off with a chunk in its hands or did not finish at all spoils it, and
/// is the reason that is given where it is the only one.
pub proof fn law_no_lost_output_counts_as_drained(ends: Seq<PumpEnd>, i: int)
    requires
        0 <= i < ends.len(),
        ends[i] is ReadError || ends[i] is ClientGone || ends[i] is CutoffPending
            || ends[i] is Failed,
    ensures
        drained(ends) is Incomplete,
        (forall|j: int| 0 <= j < ends.len() && j != i ==> (#[trigger] ends[j]) is Eof
            || ends[j] is CutoffIdle) ==> drained(ends) == Drained::Incomplete(ends[i]),
    decreases ends.len(),
{
    law_drained_means_all_complete(ends);
    assert(!ends[i].complete());
    if i < ends.len() - 1 {
        if forall|j: int| 0 <= j < ends.len() && j != i ==> (#[trigger] ends[j]) is Eof
            || ends[j] is CutoffIdle {
            assert(ends[ends.len() - 1].complete());
            law_no_lost_output_counts_as_drained(ends.drop_last(), i);
        }
    }
}

/// Output of which every pump came to a real end of file, or was cut off with
/// nothing in its hands, is drained.
pub proof fn law_complete_output_counts_as_drained(ends: Seq<PumpEnd>)
    requires
        forall|i: int| 0 <= i < ends.len() ==> (#[trigger] ends[i]) is Eof || ends[i] is CutoffIdle,
    ensures
        drained(ends) is Fully,
{
    law_drained_means_all_complete(ends);
    assert forall|i: int| 0 <= i < ends.len() implies (#[trigger] ends[i]).complete() by {}
}

/// What the client is told when its output could not be delivered in full.
pub fn incomplete_frame(d: Drained) -> (f: Frame)
    ensures
        f@ == FrameView::Error("the remote output could not be delivered in full: "@ + d.why()),
{
    let mut out = "the remote output could not be delivered in full: ".to_owned();
    match d {
        Drained::Incomplete(PumpEnd::ReadError) => out.append("read error"),
        Drained::Incomplete(PumpEnd::ClientGone) => out.append("client stopped reading"),
        Drained::Incomplete(PumpEnd::CutoffPending) => out.append(
            "output remained buffered at the PTY drain deadline",
        ),
        _ => out.append("output task failed"),
    }
    Frame::Error(out)
}

/// The session's send stream, which is never simply dropped.
///
/// A stream that goes out of scope is finished, and whatever is buffered goes
/// on being retransmitted. That is the wrong ending for a session being
/// abandoned because the peer stopped reading. It is reset instead, unless it
/// was finished deliberately and the peer has acknowledged all of it.
#[derive(Debug, Clone, Copy, PartialEq, Eq, Structural)]
pub struct StreamGuard {
    pub armed: bool,
}

/// The steps of ending a stream properly.
#[derive(Debug, Clone, Copy, PartialEq, Eq, Structural)]
pub enum FinishStep {
    Flush,
    Finish,
    AwaitAcknowledgement,
    /// Nothing is left to do, for better or worse.
    Stop,
}

impl FinishStep {
    /// The step after this one, when it succeeded or failed.
    pub open spec fn followed(self, ok: bool) -> FinishStep {
        match self {
            FinishStep::Flush if ok => FinishStep::Finish,
            FinishStep::Finish if ok => FinishStep::AwaitAcknowledgement,
            _ => FinishStep::Stop,
        }
    }

    /// Does this step, when it succeeded or failed, disarm the guard?
    pub open spec fn settles(self, ok: bool) -> bool {
        self is AwaitAcknowledgement && ok
    }
}

/// A stream is spared the reset in one case only: it was flushed, finished, and
/// acknowledged by the peer, each without an error.
pub proof fn law_only_acknowledged_streams_are_kept(flushed: bool, finished: bool, acked: bool)
    ensures
        ({
            let second = FinishStep::Flush.followed(flushed);
            let third = second.followed(finished);
            let spared = FinishStep::Flush.settles(flushed) || second.settles(finished)
                || third.settles(acked);
            &&& spared <==> flushed && finished && acked
            &&& third.followed(acked) is Stop
        }),
{
}

impl StreamGuard {
    pub fn new() -> (g: StreamGuard)
        ensures
            g.armed,
    {
        StreamGuard { armed: true }
    }

    /// The step after one that succeeded, or failed. The guard is disarmed only
    /// once the peer has acknowledged the whole stream; an error on any step
    /// leaves it armed.
    pub fn finish(&mut self, step: FinishStep, ok: bool) -> (next: FinishStep)
        ensures
            next == step.followed(ok),
            final(self).armed == (old(self).armed && !step.settles(ok)),
    {
        match step {
            FinishStep::Flush => if ok {
                FinishStep::Finish
            } else {
                FinishStep::Stop
            },
            FinishStep::Finish => if ok {
                FinishStep::AwaitAcknowledgement
            } else {
                FinishStep::Stop
            },
            FinishStep::AwaitAcknowledgement => {
                if ok {
                    self.armed = false;
                }
                FinishStep::Stop
            },
            FinishStep::Stop => FinishStep::Stop,
        }
    }
}

// ---------------------------------------------------------------------------
// Obeying the client
// ---------------------------------------------------------------------------

/// What the client asks of a running process.
#[derive(Debug, Clone, Copy, PartialEq, Eq, Structural)]
pub enum ControlEvent {
    Resize(PtySize),
    Signal(Signal),
}

/// What the client's stream brought.
#[derive(Debug)]
pub enum ControlInput {
    Frame(Frame),
    /// The stream ended or could not be read.
    Ended,
}

/// What to do about it.
#[derive(Debug)]
pub enum ControlStep {
    /// Read on.
    Continue,
    /// Write these bytes to the child's input.
    Write(Vec<u8>),
    /// Write these bytes to the child's input and flush it.
    WriteAndFlush(Vec<u8>),
    /// Close the child's input, which the child sees as end of file.
    Close,
    /// Pass this on to the session.
    Pass(ControlEvent),
    /// Stop: the client is gone.
    Stop,
}

/// What a [`ControlStep`] holds.
pub enum ControlStepView {
    Continue,
    Write(Seq<u8>),
    WriteAndFlush(Seq<u8>),
    Close,
    Pass(ControlEvent),
    Stop,
}

impl View for ControlStep {
    type V = ControlStepView;

    open spec fn view(&self) -> ControlStepView {
        match *self {
            ControlStep::Continue => ControlStepView::Continue,
            ControlStep::Write(b) => ControlStepView::Write(b@),
            ControlStep::WriteAndFlush(b) => ControlStepView::WriteAndFlush(b@),
            ControlStep::Close => ControlStepView::Close,
            ControlStep::Pass(e) => ControlStepView::Pass(e),
            ControlStep::Stop => ControlStepView::Stop,
        }
    }
}

/// What came of writing to the child's input.
#[derive(Debug, Clone, Copy, PartialEq, Eq, Structural)]
pub enum StdinOutcome {
    Written,
    /// The child does not read any more: the pipe is broken.
    Broken,
    /// The write failed in another way.
    Failed,
    /// The client reset its stream meanwhile.
    PeerReset,
}

/// Handles everything the client sends after the request.
#[derive(Debug, Clone, Copy, PartialEq, Eq, Structural)]
pub struct Control {
    pub is_pty: bool,
    /// Is the child's input still open?
    pub open: bool,
}

impl Control {
    /// What to do about a frame; `None` is the end of the client's stream.
    pub open spec fn answer(self, frame: Option<FrameView>) -> ControlStepView {
        match frame {
            None => ControlStepView::Stop,
            Some(FrameView::Stdin(data)) => if self.open {
                ControlStepView::Write(data)
            } else {
                ControlStepView::Continue
            },
            Some(FrameView::StdinEof) => if !self.is_pty {
                ControlStepView::Close
            } else if self.open {
                ControlStepView::WriteAndFlush(seq![EOT, EOT])
            } else {
                ControlStepView::Continue
            },
            Some(FrameView::Resize(size)) => ControlStepView::Pass(ControlEvent::Resize(size)),
            Some(FrameView::Signal(name)) => match named_signal(name) {
                Some(sig) => ControlStepView::Pass(ControlEvent::Signal(sig)),
                None => ControlStepView::Continue,
            },
            Some(_) => ControlStepView::Continue,
        }
    }

    /// The control after a frame, and the bytes that the child's input gets for
    /// it, where writing them succeeds.
    pub open spec fn obeyed(self, frame: FrameView) -> (Control, Seq<u8>) {
        let step = self.answer(Some(frame));
        (
            Control { open: self.open && !(step is Close), ..self },
            match step {
                ControlStepView::Write(b) => b,
                ControlStepView::WriteAndFlush(b) => b,
                _ => Seq::empty(),
            },
        )
    }

    /// The control after some frames, and the bytes that the child's input gets.
    pub open spec fn fed(self, frames: Seq<FrameView>) -> (Control, Seq<u8>)
        decreases frames.len(),
    {
        if frames.len() == 0 {
            (self, Seq::empty())
        } else {
            let (before, out) = self.fed(frames.drop_last());
            let (after, more) = before.obeyed(frames.last());
            (after, out + more)
        }
    }

    pub fn new(is_pty: bool) -> (c: Control)
        ensures
            c == (Control { is_pty, open: true }),
    {
        Control { is_pty, open: true }
    }

    /// What to do about what the client's stream brought.
    ///
    /// Input goes to the child exactly as it came, as long as its input is open.
    /// The end of input closes a pipe. A terminal has no "close one end", so
    /// there it is typed: two EOTs, not one, because with a partial line pending
    /// the first only makes that line readable.
    pub fn handle(&mut self, input: ControlInput) -> (step: ControlStep)
        ensures
            final(self).is_pty == old(self).is_pty,
            final(self).open == (old(self).open && !(step is Close)),
            step@ == old(self).answer(
                match input {
                    ControlInput::Frame(frame) => Some(frame@),
                    ControlInput::Ended => None,
                },
            ),
            match input {
                ControlInput::Ended => step is Stop,
                ControlInput::Frame(frame) => match frame@ {
                    FrameView::Stdin(data) => if old(self).open {
                        step matches ControlStep::Write(b) && b@ == data
                    } else {
                        step is Continue
                    },
                    FrameView::StdinEof => if !old(self).is_pty {
                        step is Close
                    } else if old(self).open {
                        step matches ControlStep::WriteAndFlush(b) && b@ == seq![EOT, EOT]
                    } else {
                        step is Continue
                    },
                    FrameView::Resize(size) => step == ControlStep::Pass(
                        ControlEvent::Resize(size),
                    ),
                    FrameView::Signal(name) => match named_signal(name) {
                        Some(sig) => step == ControlStep::Pass(ControlEvent::Signal(sig)),
                        None => step is Continue,
                    },
                    _ => step is Continue,
                },
            },
    {
        match input {
            ControlInput::Ended => ControlStep::Stop,
            ControlInput::Frame(frame) => match frame {
                Frame::Stdin(data) => if self.open {
                    ControlStep::Write(data)
                } else {
                    ControlStep::Continue
                },
                Frame::StdinEof => if !self.is_pty {
                    self.open = false;
                    ControlStep::Close
                } else if self.open {
                    let eof: Vec<u8> = vec![EOT, EOT];
                    assert(eof@ =~= seq![EOT, EOT]);
                    ControlStep::WriteAndFlush(eof)
                } else {
                    ControlStep::Continue
                },
                Frame::Resize(size) => ControlStep::Pass(ControlEvent::Resize(size)),
                Frame::Signal(name) => match signal_named(name.as_str()) {
                    Some(sig) => ControlStep::Pass(ControlEvent::Signal(sig)),
                    None => ControlStep::Continue,
                },
                _ => ControlStep::Continue,
            },
        }
    }

    /// Does the session go on after this write to the child's input?
    pub open spec fn goes_on(self, outcome: StdinOutcome) -> bool {
        outcome is Written || (outcome is Broken && !self.is_pty)
    }

    /// Is the child's input still open after this write?
    pub open spec fn open_after(self, outcome: StdinOutcome) -> bool {
        self.open && !(outcome is Broken) && !(outcome is Failed)
    }

    /// What to do after writing to the child's input. A child that stops reading
    /// its pipe ends neither its output nor the client's control over it. A
    /// client that is gone does, and so does any other failure; on a terminal,
    /// which is never half closed, every failure.
    pub fn written(&mut self, outcome: StdinOutcome) -> (go_on: bool)
        ensures
            go_on == old(self).goes_on(outcome),
            final(self).is_pty == old(self).is_pty,
            final(self).open == old(self).open_after(outcome),
    {
        match outcome {
            StdinOutcome::Written => true,
            StdinOutcome::Broken => {
                self.open = false;
                !self.is_pty
            },
            StdinOutcome::Failed => {
                self.open = false;
                false
            },
            StdinOutcome::PeerReset => false,
        }
    }
}

/// A write that succeeds changes nothing. A child behind pipes may stop reading
/// without any harm to its session, but nothing is written to it any more; on a
/// terminal that ends the session, as every other failure does anywhere.
pub proof fn law_child_may_stop_reading(control: Control, outcome: StdinOutcome)
    ensures
        outcome is Written ==> control.goes_on(outcome) && control.open_after(outcome)
            == control.open,
        outcome is Broken ==> (control.goes_on(outcome) <==> !control.is_pty)
            && !control.open_after(outcome),
        outcome is Failed || outcome is PeerReset ==> !control.goes_on(outcome),
        control.open_after(outcome) ==> control.open,
{
}

/// The input that some frames carry, in order.
pub open spec fn stdin_of(frames: Seq<FrameView>) -> Seq<u8>
    decreases frames.len(),
{
    if frames.len() == 0 {
        Seq::empty()
    } else {
        stdin_of(frames.drop_last()) + (match frames.last() {
            FrameView::Stdin(data) => data,
            _ => Seq::empty(),
        })
    }
}

/// The child reads what the client sent, byte for byte and in order, on a pipe
/// and on a terminal, whatever else comes in between; only the end of the input
/// and what follows it are another matter.
pub proof fn law_child_reads_what_was_sent(is_pty: bool, frames: Seq<FrameView>)
    requires
        forall|i: int| 0 <= i < frames.len() ==> !((#[trigger] frames[i]) is StdinEof),
    ensures
        ({
            let fresh = Control { is_pty, open: true };
            let (after, got) = fresh.fed(frames);
            got == stdin_of(frames) && after.open && after.is_pty == is_pty
        }),
    decreases frames.len(),
{
    if frames.len() > 0 {
        let past = frames.drop_last();
        assert forall|i: int| 0 <= i < past.len() implies !((#[trigger] past[i]) is StdinEof) by {
            assert(past[i] == frames[i]);
        }
        law_child_reads_what_was_sent(is_pty, past);
        assert(!(frames[frames.len() - 1] is StdinEof));
    }
}

/// The end of the input closes a pipe, and nothing is written to it after that.
/// On a terminal two EOTs are typed instead, and its input stays open.
pub proof fn law_end_of_input(frames: Seq<FrameView>)
    ensures
        ({
            let pipe = Control { is_pty: false, open: true };
            let closed = pipe.obeyed(FrameView::StdinEof).0;
            let terminal = Control { is_pty: true, open: true };
            &&& pipe.answer(Some(FrameView::StdinEof)) is Close
            &&& !closed.open
            &&& closed.fed(frames).1.len() == 0
            &&& terminal.answer(Some(FrameView::StdinEof)) == ControlStepView::WriteAndFlush(
                seq![4u8, 4u8],
            )
            &&& terminal.obeyed(FrameView::StdinEof).0 == terminal
        }),
    decreases frames.len(),
{
    if frames.len() > 0 {
        law_end_of_input(frames.drop_last());
        lemma_closed_stays_closed(frames.drop_last());
    }
}

proof fn lemma_closed_stays_closed(frames: Seq<FrameView>)
    ensures
        ({
            let closed = Control { is_pty: false, open: false };
            let (after, _) = closed.fed(frames);
            !after.open && !after.is_pty
        }),
    decreases frames.len(),
{
    if frames.len() > 0 {
        lemma_closed_stays_closed(frames.drop_last());
    }
}

/// A window that was resized at the client is resized at the server, to the same
/// number of columns and of rows, and the job is told so; without a terminal
/// nothing happens. A signal that has a name goes to the job of the session,
/// that very signal; one without a name does not go anywhere.
pub proof fn law_control_frames_are_obeyed(
    c: Control,
    size: PtySize,
    name: Seq<char>,
    pid: u32,
)
    requires
        0 < pid <= i32::MAX,
    ensures
        ({
            let resize = c.answer(Some(FrameView::Resize(size)));
            let signal = c.answer(Some(FrameView::Signal(name)));
            &&& resize is Pass
            &&& control_action(resize->Pass_0, true, Some(pid)) matches ControlAction::Resize(
                s,
                told,
            ) && s.cols == size.cols && s.rows == size.rows && told == Some(
                (pid as i32, Signal::Winch),
            )
            &&& control_action(resize->Pass_0, false, Some(pid)) is Nothing
            &&& named_signal(name) is None ==> signal is Continue
            &&& named_signal(name) is Some ==> signal is Pass && forall|is_pty: bool|
                (#[trigger] control_action(signal->Pass_0, is_pty, Some(pid)))
                    == ControlAction::Signal(pid as i32, named_signal(name)->0)
            &&& c.answer(None) is Stop
        }),
{
}

/// What a control event takes.
#[derive(Debug, Clone, Copy, PartialEq, Eq)]
pub enum ControlAction {
    Nothing,
    /// Set the terminal's size; if that works, send the group the signal.
    Resize(PtySize, Option<(i32, Signal)>),
    /// Send the group the signal.
    Signal(i32, Signal),
}

/// Who is sent a signal for the process with this pid, and which.
pub open spec fn signal_for(pid: Option<u32>, sig: Signal) -> Option<(i32, Signal)> {
    match pid {
        Some(p) => match crate::child::group_of(p) {
            Some(group) => Some((group, sig)),
            None => None,
        },
        None => None,
    }
}

/// Who is sent a signal for the process with this pid, and which.
fn send(pid: Option<u32>, sig: Signal) -> (r: Option<(i32, Signal)>)
    ensures
        r == signal_for(pid, sig),
{
    match pid {
        Some(p) => match process_group(p) {
            Some(group) => Some((group, sig)),
            None => None,
        },
        None => None,
    }
}

/// What a control event takes on a session with or without a terminal.
pub open spec fn control_action(event: ControlEvent, is_pty: bool, pid: Option<u32>) -> ControlAction {
    match event {
        ControlEvent::Resize(size) => if is_pty {
            ControlAction::Resize(size, signal_for(pid, Signal::Winch))
        } else {
            ControlAction::Nothing
        },
        ControlEvent::Signal(sig) => match signal_for(pid, sig) {
            Some((group, s)) => ControlAction::Signal(group, s),
            None => ControlAction::Nothing,
        },
    }
}

/// What a control event takes on a session with or without a terminal.
pub fn apply_control_event(event: ControlEvent, is_pty: bool, pid: Option<u32>) -> (a:
    ControlAction)
    ensures
        a == control_action(event, is_pty, pid),
{
    match event {
        ControlEvent::Resize(size) => {
            if !is_pty {
                return ControlAction::Nothing;
            }
            ControlAction::Resize(size, send(pid, Signal::Winch))
        },
        ControlEvent::Signal(sig) => match send(pid, sig) {
            Some((group, s)) => ControlAction::Signal(group, s),
            None => ControlAction::Nothing,
        },
    }
}

// ---------------------------------------------------------------------------
// The session as a whole
// ---------------------------------------------------------------------------

/// How a session ended.
#[derive(Debug, Clone, Copy)]
pub enum Ending {
    /// This status was sent, as far as the client still took anything.
    Told(ExitStatus),
    /// The client is gone: there was nobody left to tell.
    Abandoned,
    /// The client closed the session before it started.
    ClosedEarly,
    /// No descriptor of the terminal could be had for resizing.
    NoDescriptor,
    /// The status of the process could not be had.
    NotReaped,
}

/// Where a session stands.
#[derive(Debug, Clone, Copy)]
pub enum Phase {
    /// The client is being told that the process was started.
    Opening,
    /// A descriptor of the terminal is being duplicated.
    Wiring,
    /// The process is running.
    Running,
    /// The leader has exited without being reaped; its descendants may still
    /// hold the output open.
    Draining,
    /// Everything was delivered; the status is being collected.
    Reaping,
    /// Not everything was delivered; the job is being killed and reaped.
    Killing,
    /// The job is being killed and reaped, and nobody is told.
    Abandoning(Ending),
    /// This status is being sent.
    Telling(ExitStatus),
    /// This status was sent; the stream is being finished.
    Closing(ExitStatus),
    Over(Ending),
}

/// What happens to a session.
#[derive(Debug, Clone, Copy)]
pub enum Event {
    /// The client could, or could not, be told that the process was started.
    Started(bool),
    /// A descriptor of the terminal could, or could not, be duplicated.
    Descriptor(bool),
    /// The leader has exited, or its exit cannot be observed.
    LeaderExited(bool),
    /// The client's control stream ended.
    ControlEnded,
    /// The connection was closed.
    ConnectionClosed,
    /// The client asks something of the process.
    Control(ControlEvent),
    /// The policy was looked at again: is the session still authorized?
    Policy(bool),
    /// The output pumps have all ended.
    Drained(Drained),
    /// The process was reaped with this status, or could not be.
    Reaped(Option<(Option<i32>, Option<i32>)>),
    /// The job has been killed and reaped.
    Terminated,
    /// The status was queued, or the grace period for that is over.
    ExitQueued,
    /// The writer has ended, or the grace period for that is over.
    WriterEnded(bool),
}

/// What to do next.
#[derive(Debug, Clone, Copy)]
pub enum Act {
    /// Wait for what happens next.
    Wait,
    /// Duplicate a descriptor of the terminal.
    DuplicateDescriptor,
    /// Start the output pumps and the control of the process.
    Start,
    /// Do what the client asks of the process.
    Apply(ControlEvent),
    /// Wait for the output pumps.
    Drain,
    /// Stop the control of the process, disarm the guard, reap the process.
    DisarmAndReap,
    /// Stop the control of the process, tell the client without waiting why its
    /// output is incomplete, then kill the job and reap it.
    TellAndKill(Drained),
    /// Stop everything that is going on, kill the job and reap it.
    Abandon,
    /// Send this status, waiting no longer than the grace period.
    SendExit(ExitStatus),
    /// Let the writer finish the stream, waiting no longer than the grace
    /// period.
    AwaitWriter,
    /// Cancel the writer, which resets the stream on its way out.
    CancelWriter,
    /// The session is over.
    Finish,
}

/// The life of one session.
#[derive(Debug, Clone, Copy)]
pub struct Session {
    pub is_pty: bool,
    pub phase: Phase,
    /// Does the guard still kill the job when the session goes away?
    pub armed: bool,
}

/// The status that is told of a process that was reaped this way.
pub open spec fn reported(status: (Option<i32>, Option<i32>)) -> ExitStatus {
    ExitStatus {
        code: match status.0 {
            Some(code) => code,
            None => 0,
        },
        signal: status.1,
    }
}

/// The status that is told when the output could not be delivered in full.
pub open spec fn incomplete_status() -> ExitStatus {
    ExitStatus { code: INCOMPLETE, signal: None }
}

impl Session {
    /// A session whose process has just been started, with its guard armed
    /// before anything can fail.
    pub open spec fn fresh(is_pty: bool) -> Session {
        Session { is_pty, phase: Phase::Opening, armed: true }
    }

    /// Does this end a session whose process is running or whose output is being
    /// drained?
    pub open spec fn client_gone(event: Event) -> bool {
        event is ControlEnded || event is ConnectionClosed || event == Event::Policy(false)
    }

    /// Where the session stands after an event, and what to do. An event that
    /// does not belong to the phase changes nothing.
    pub open spec fn after(self, event: Event) -> (Session, Act) {
        let to = |phase: Phase| Session { phase, ..self };
        let stay = (self, Act::Wait);
        match self.phase {
            Phase::Opening => match event {
                Event::Started(true) => if self.is_pty {
                    (to(Phase::Wiring), Act::DuplicateDescriptor)
                } else {
                    (to(Phase::Running), Act::Start)
                },
                Event::Started(false) => (to(Phase::Abandoning(Ending::ClosedEarly)), Act::Abandon),
                _ => stay,
            },
            Phase::Wiring => match event {
                Event::Descriptor(true) => (to(Phase::Running), Act::Start),
                Event::Descriptor(false) => (
                    to(Phase::Abandoning(Ending::NoDescriptor)),
                    Act::Abandon,
                ),
                _ => stay,
            },
            Phase::Running => match event {
                Event::LeaderExited(true) => (to(Phase::Draining), Act::Drain),
                Event::LeaderExited(false) => (
                    to(Phase::Abandoning(Ending::Abandoned)),
                    Act::Abandon,
                ),
                Event::Control(e) => (self, Act::Apply(e)),
                _ => if Session::client_gone(event) {
                    (to(Phase::Abandoning(Ending::Abandoned)), Act::Abandon)
                } else {
                    stay
                },
            },
            Phase::Draining => match event {
                Event::Drained(Drained::Fully) => (
                    Session { phase: Phase::Reaping, armed: false, ..self },
                    Act::DisarmAndReap,
                ),
                Event::Drained(d) => (to(Phase::Killing), Act::TellAndKill(d)),
                Event::Control(e) => (self, Act::Apply(e)),
                _ => if Session::client_gone(event) {
                    (to(Phase::Abandoning(Ending::Abandoned)), Act::Abandon)
                } else {
                    stay
                },
            },
            Phase::Reaping => match event {
                Event::Reaped(Some(status)) => (
                    to(Phase::Telling(reported(status))),
                    Act::SendExit(reported(status)),
                ),
                Event::Reaped(None) => (to(Phase::Over(Ending::NotReaped)), Act::Finish),
                _ => stay,
            },
            Phase::Killing => match event {
                Event::Terminated => (
                    Session {
                        phase: Phase::Telling(incomplete_status()),
                        armed: false,
                        ..self
                    },
                    Act::SendExit(incomplete_status()),
                ),
                _ => stay,
            },
            Phase::Abandoning(ending) => match event {
                Event::Terminated => (
                    Session { phase: Phase::Over(ending), armed: false, ..self },
                    Act::Finish,
                ),
                _ => stay,
            },
            Phase::Telling(status) => match event {
                Event::ExitQueued => (to(Phase::Closing(status)), Act::AwaitWriter),
                _ => stay,
            },
            Phase::Closing(status) => match event {
                Event::WriterEnded(true) => (to(Phase::Over(Ending::Told(status))), Act::Finish),
                Event::WriterEnded(false) => (
                    to(Phase::Over(Ending::Told(status))),
                    Act::CancelWriter,
                ),
                _ => stay,
            },
            Phase::Over(_) => stay,
        }
    }

    /// Where a session stands after these events.
    pub open spec fn reached(is_pty: bool, events: Seq<Event>) -> Session
        decreases events.len(),
    {
        if events.len() == 0 {
            Session::fresh(is_pty)
        } else {
            Session::reached(is_pty, events.drop_last()).after(events.last()).0
        }
    }

    /// A session whose process has just been started.
    pub fn new(is_pty: bool) -> (s: Session)
        ensures
            s == Session::fresh(is_pty),
    {
        Session { is_pty, phase: Phase::Opening, armed: true }
    }

    /// Takes an event in; returns what to do.
    pub fn run_session(&mut self, event: Event) -> (act: Act)
        ensures
            (*final(self), act) == old(self).after(event),
    {
        match self.phase {
            Phase::Opening => match event {
                Event::Started(true) => {
                    if self.is_pty {
                        self.phase = Phase::Wiring;
                        Act::DuplicateDescriptor
                    } else {
                        self.phase = Phase::Running;
                        Act::Start
                    }
                },
                Event::Started(false) => self.abandon(Ending::ClosedEarly),
                _ => Act::Wait,
            },
            Phase::Wiring => match event {
                Event::Descriptor(true) => {
                    self.phase = Phase::Running;
                    Act::Start
                },
                Event::Descriptor(false) => self.abandon(Ending::NoDescriptor),
                _ => Act::Wait,
            },
            Phase::Running => match event {
                Event::LeaderExited(true) => {
                    self.phase = Phase::Draining;
                    Act::Drain
                },
                Event::LeaderExited(false) => self.abandon(Ending::Abandoned),
                Event::Control(e) => Act::Apply(e),
                Event::ControlEnded => self.abandon(Ending::Abandoned),
                Event::ConnectionClosed => self.abandon(Ending::Abandoned),
                Event::Policy(false) => self.abandon(Ending::Abandoned),
                _ => Act::Wait,
            },
            Phase::Draining => match event {
                Event::Drained(Drained::Fully) => {
                    self.phase = Phase::Reaping;
                    self.armed = false;
                    Act::DisarmAndReap
                },
                Event::Drained(d) => {
                    self.phase = Phase::Killing;
                    Act::TellAndKill(d)
                },
                Event::Control(e) => Act::Apply(e),
                Event::ControlEnded => self.abandon(Ending::Abandoned),
                Event::ConnectionClosed => self.abandon(Ending::Abandoned),
                Event::Policy(false) => self.abandon(Ending::Abandoned),
                _ => Act::Wait,
            },
            Phase::Reaping => match event {
                Event::Reaped(Some((code, signal))) => {
                    let status = ExitStatus {
                        code: match code {
                            Some(c) => c,
                            None => 0,
                        },
                        signal,
                    };
                    self.phase = Phase::Telling(status);
                    Act::SendExit(status)
                },
                Event::Reaped(None) => {
                    self.phase = Phase::Over(Ending::NotReaped);
                    Act::Finish
                },
                _ => Act::Wait,
            },
            Phase::Killing => match event {
                Event::Terminated => {
                    let status = ExitStatus { code: INCOMPLETE, signal: None };
                    self.phase = Phase::Telling(status);
                    self.armed = false;
                    Act::SendExit(status)
                },
                _ => Act::Wait,
            },
            Phase::Abandoning(ending) => match event {
                Event::Terminated => {
                    self.phase = Phase::Over(ending);
                    self.armed = false;
                    Act::Finish
                },
                _ => Act::Wait,
            },
            Phase::Telling(status) => match event {
                Event::ExitQueued => {
                    self.phase = Phase::Closing(status);
                    Act::AwaitWriter
                },
                _ => Act::Wait,
            },
            Phase::Closing(status) => match event {
                Event::WriterEnded(true) => {
                    self.phase = Phase::Over(Ending::Told(status));
                    Act::Finish
                },
                Event::WriterEnded(false) => {
                    self.phase = Phase::Over(Ending::Told(status));
                    Act::CancelWriter
                },
                _ => Act::Wait,
            },
            Phase::Over(_) => Act::Wait,
        }
    }

    /// There is nobody left to send an exit status to, or the session could not
    /// start: kill the job, reap it, and stop.
    fn abandon(&mut self, ending: Ending) -> (act: Act)
        ensures
            *final(self) == (Session { phase: Phase::Abandoning(ending), ..*old(self) }),
            act is Abandon,
    {
        self.phase = Phase::Abandoning(ending);
        Act::Abandon
    }

    /// The status that the session has told, or is telling.
    pub open spec fn status(self) -> Option<ExitStatus> {
        match self.phase {
            Phase::Telling(s) => Some(s),
            Phase::Closing(s) => Some(s),
            Phase::Over(Ending::Told(s)) => Some(s),
            _ => None,
        }
    }
}

/// Was the `i`-th event the report that all output was delivered, and was that
/// what the session was waiting for?
pub open spec fn delivered_at(is_pty: bool, events: Seq<Event>, i: int) -> bool {
    &&& 0 <= i < events.len()
    &&& Session::reached(is_pty, events.take(i)).phase is Draining
    &&& events[i] == Event::Drained(Drained::Fully)
}

/// Was the `i`-th event the report that some output was not delivered, and was
/// that what the session was waiting for?
pub open spec fn truncated_at(is_pty: bool, events: Seq<Event>, i: int) -> bool {
    &&& 0 <= i < events.len()
    &&& Session::reached(is_pty, events.take(i)).phase is Draining
    &&& events[i] matches Event::Drained(d)
    &&& d is Incomplete
}

/// Was the `i`-th event the report that the job has been killed, and was that
/// what the session was waiting for?
pub open spec fn killed_at(is_pty: bool, events: Seq<Event>, i: int) -> bool {
    let phase = Session::reached(is_pty, events.take(i)).phase;
    &&& 0 <= i < events.len()
    &&& phase is Killing || phase is Abandoning
    &&& events[i] is Terminated
}

/// Was the `i`-th event the report that the process was reaped with this status,
/// and was that what the session was waiting for?
pub open spec fn reaped_at(
    is_pty: bool,
    events: Seq<Event>,
    i: int,
    status: (Option<i32>, Option<i32>),
) -> bool {
    &&& 0 <= i < events.len()
    &&& Session::reached(is_pty, events.take(i)).phase is Reaping
    &&& events[i] == Event::Reaped(Some(status))
}

/// Was all output delivered, at some time?
pub open spec fn delivered(is_pty: bool, events: Seq<Event>) -> bool {
    exists|i: int| delivered_at(is_pty, events, i)
}

/// Was the job killed, at some time?
pub open spec fn killed(is_pty: bool, events: Seq<Event>) -> bool {
    exists|i: int| killed_at(is_pty, events, i)
}

/// What was so before the last event is so after it.
proof fn lemma_history_grows(is_pty: bool, events: Seq<Event>)
    requires
        events.len() > 0,
    ensures
        delivered(is_pty, events.drop_last()) ==> delivered(is_pty, events),
        killed(is_pty, events.drop_last()) ==> killed(is_pty, events),
        forall|i: int, status: (Option<i32>, Option<i32>)|
            #[trigger] reaped_at(is_pty, events.drop_last(), i, status) ==> reaped_at(
                is_pty,
                events,
                i,
                status,
            ),
{
    let past = events.drop_last();
    assert forall|i: int| 0 <= i < past.len() implies #[trigger] past.take(i) == events.take(i) by {
        assert(past.take(i) =~= events.take(i));
    }
    if delivered(is_pty, past) {
        let i = choose|i: int| delivered_at(is_pty, past, i);
        assert(past.take(i) == events.take(i));
        assert(delivered_at(is_pty, events, i));
    }
    if killed(is_pty, past) {
        let i = choose|i: int| killed_at(is_pty, past, i);
        assert(past.take(i) == events.take(i));
        assert(killed_at(is_pty, events, i));
    }
}

/// What a session's past must have held for it to stand where it stands.
proof fn lemma_session_history(is_pty: bool, events: Seq<Event>)
    ensures
        ({
            let s = Session::reached(is_pty, events);
            &&& !s.armed ==> delivered(is_pty, events) || killed(is_pty, events)
            &&& s.phase is Reaping ==> !s.armed && delivered(is_pty, events)
            &&& s.phase is Draining || s.phase is Reaping || s.phase is Killing || s.status() is Some
                ==> events.contains(Event::LeaderExited(true))
            &&& (s.phase matches Phase::Abandoning(ending) ==> !(ending is Told))
            &&& match s.status() {
                Some(status) => {
                    &&& !s.armed
                    &&& {
                        ||| status == incomplete_status() && killed(is_pty, events)
                        ||| delivered(is_pty, events) && exists|i: int, r: (Option<i32>, Option<i32>)|
                            #[trigger] reaped_at(is_pty, events, i, r) && status == reported(r)
                    }
                },
                None => true,
            }
            &&& s.phase is Over ==> !s.armed
        }),
    decreases events.len(),
{
    if events.len() > 0 {
        let past = events.drop_last();
        lemma_session_history(is_pty, past);
        lemma_history_grows(is_pty, events);
        let last = events.len() - 1;
        assert(events.take(last) =~= past);
        let s0 = Session::reached(is_pty, past);
        let s = Session::reached(is_pty, events);
        assert forall|e: Event| #[trigger] past.contains(e) implies events.contains(e) by {
            let i = choose|i: int| 0 <= i < past.len() && past[i] == e;
            assert(events[i] == e);
        }
        assert(events.contains(events[last]));
        if s0.phase is Draining && events.last() == Event::Drained(Drained::Fully) {
            assert(delivered_at(is_pty, events, last));
        }
        if (s0.phase is Killing || s0.phase is Abandoning) && events.last() is Terminated {
            assert(killed_at(is_pty, events, last));
        }
        if let Some(status) = s.status() {
            if s0.status() is Some {
                assert(s0.status() == Some(status));
                if status != incomplete_status() || !killed(is_pty, past) {
                    let (i, r) = choose|i: int, r: (Option<i32>, Option<i32>)|
                        #[trigger] reaped_at(is_pty, past, i, r) && status == reported(r);
                    assert(reaped_at(is_pty, events, i, r));
                }
            } else if s0.phase is Reaping {
                if let Event::Reaped(Some(r)) = events.last() {
                    assert(reaped_at(is_pty, events, last, r));
                }
            }
        }
    }
}

/// From the moment on at which output turns out not to be deliverable, the
/// session stands in one of the phases that lead to telling just that.
proof fn lemma_truncation_is_final(is_pty: bool, events: Seq<Event>, i: int)
    requires
        truncated_at(is_pty, events, i),
    ensures
        match Session::reached(is_pty, events).phase {
            Phase::Killing => true,
            Phase::Telling(s) => s == incomplete_status(),
            Phase::Closing(s) => s == incomplete_status(),
            Phase::Over(Ending::Told(s)) => s == incomplete_status(),
            _ => false,
        },
    decreases events.len(),
{
    let past = events.drop_last();
    if i == events.len() - 1 {
        assert(events.take(i) =~= past);
    } else {
        assert(past.take(i) =~= events.take(i));
        assert(truncated_at(is_pty, past, i));
        lemma_truncation_is_final(is_pty, past, i);
    }
}

/// No success over a truncated stream. Nothing is told before the leader has
/// exited, and its own status only after every byte of its output was delivered
/// and it was reaped; otherwise the client is told that the output is
/// incomplete, after the job has been killed.
pub proof fn law_no_success_over_truncated_output(is_pty: bool, events: Seq<Event>)
    requires
        Session::reached(is_pty, events).status() is Some,
    ensures
        events.contains(Event::LeaderExited(true)),
        ({
            let status = Session::reached(is_pty, events).status()->0;
            ||| status == incomplete_status() && killed(is_pty, events)
            ||| delivered(is_pty, events) && exists|i: int, r: (Option<i32>, Option<i32>)|
                #[trigger] reaped_at(is_pty, events, i, r) && status == reported(r)
        }),
{
    lemma_session_history(is_pty, events);
}

/// Once some output could not be delivered, whatever happens after that, no
/// other status is ever told than that the output is incomplete.
pub proof fn law_truncation_is_told(is_pty: bool, events: Seq<Event>, i: int)
    requires
        truncated_at(is_pty, events, i),
    ensures
        match Session::reached(is_pty, events).status() {
            Some(status) => status == incomplete_status(),
            None => Session::reached(is_pty, events).phase is Killing,
        },
{
    lemma_truncation_is_final(is_pty, events, i);
}

/// No job is left behind: until its output has been delivered in full or it has
/// been killed, the guard stays armed; and a session is over only after one of
/// the two.
pub proof fn law_no_job_left_behind(is_pty: bool, events: Seq<Event>)
    ensures
        ({
            let s = Session::reached(is_pty, events);
            &&& !s.armed ==> delivered(is_pty, events) || killed(is_pty, events)
            &&& s.phase is Over ==> delivered(is_pty, events) || killed(is_pty, events)
        }),
{
    lemma_session_history(is_pty, events);
}

/// A client that goes away, or whose authorization is withdrawn, takes its job
/// with it, at any time between the start of the process and the delivery of
/// all its output.
pub proof fn law_client_gone_kills_the_job(s: Session, event: Event)
    requires
        s.phase is Running || s.phase is Draining,
        Session::client_gone(event),
    ensures
        s.after(event).1 is Abandon,
        s.after(event).0.phase == Phase::Abandoning(Ending::Abandoned),
        s.after(event).0.armed == s.armed,
{
}

/// Once the process was reaped, the status that it had is told, and no other
/// ever after.
proof fn lemma_status_is_final(
    is_pty: bool,
    events: Seq<Event>,
    i: int,
    status: (Option<i32>, Option<i32>),
)
    requires
        reaped_at(is_pty, events, i, status),
    ensures
        Session::reached(is_pty, events).status() == Some(reported(status)),
    decreases events.len(),
{
    let past = events.drop_last();
    if i == events.len() - 1 {
        assert(events.take(i) =~= past);
    } else {
        assert(past.take(i) =~= events.take(i));
        assert(reaped_at(is_pty, past, i, status));
        lemma_status_is_final(is_pty, past, i, status);
    }
}

/// The status that is told is the one with which the process ended: the very
/// code of one that exited, whatever it is, and the very signal of one that was
/// killed. It is sent as soon as the process has been reaped, and whatever
/// happens after that, it is the status of the session.
pub proof fn law_status_is_that_of_the_process(
    is_pty: bool,
    events: Seq<Event>,
    i: int,
    code: Option<i32>,
    signal: Option<i32>,
)
    requires
        reaped_at(is_pty, events, i, (code, signal)),
    ensures
        ({
            let told = Session::reached(is_pty, events).status();
            &&& told is Some
            &&& code is Some ==> told->0.code == code->0
            &&& code is None ==> told->0.code == 0
            &&& told->0.signal == signal
            &&& Session::reached(is_pty, events.take(i)).after(events[i]).1 == Act::SendExit(
                told->0,
            )
        }),
{
    lemma_status_is_final(is_pty, events, i, (code, signal));
}

/// A process that runs undisturbed is seen through to its end: its output is
/// drained once it has exited, it is reaped once everything was delivered, and
/// its status is sent; then the session is over, and the client was told that
/// status. A terminal only takes one step more at the start.
pub proof fn law_undisturbed_session(
    is_pty: bool,
    code: Option<i32>,
    signal: Option<i32>,
    finished: bool,
)
    ensures
        ({
            let opened = Session::fresh(is_pty).after(Event::Started(true));
            let running = if is_pty {
                opened.0.after(Event::Descriptor(true))
            } else {
                opened
            };
            let exited = running.0.after(Event::LeaderExited(true));
            let drained = exited.0.after(Event::Drained(Drained::Fully));
            let reaped = drained.0.after(Event::Reaped(Some((code, signal))));
            let queued = reaped.0.after(Event::ExitQueued);
            let over = queued.0.after(Event::WriterEnded(finished));
            &&& is_pty ==> opened.1 is DuplicateDescriptor
            &&& running.1 is Start && running.0.armed
            &&& exited.1 is Drain && exited.0.armed
            &&& drained.1 is DisarmAndReap && !drained.0.armed
            &&& reaped.1 matches Act::SendExit(told) && told.signal == signal && (code is Some
                ==> told.code == code->0)
            &&& queued.1 is AwaitWriter
            &&& over.1 is Finish <==> finished
            &&& over.1 is CancelWriter <==> !finished
            &&& over.0.phase is Over
            &&& Some(reaped.1->SendExit_0) == over.0.status()
        }),
{
}

/// What the client asks for and a policy that still holds leave a session where
/// it stands. A running process gets what the client asks of it, exactly that,
/// and so does one whose output is still being drained; nobody else does.
pub proof fn law_control_reaches_the_process(s: Session, e: ControlEvent)
    ensures
        s.after(Event::Control(e)).0 == s,
        s.after(Event::Policy(true)) == (s, Act::Wait),
        s.phase is Running || s.phase is Draining ==> s.after(Event::Control(e)).1 == Act::Apply(e),
        !(s.phase is Running || s.phase is Draining) ==> s.after(Event::Control(e)).1 is Wait,
{
}

/// What is done goes with where the session comes to stand: each thing is done
/// when the phase in which it is waited for begins, and at no other time.
pub proof fn law_what_is_done_when(s: Session, event: Event)
    ensures
        ({
            let (t, act) = s.after(event);
            &&& t.is_pty == s.is_pty
            &&& act is Start <==> t.phase is Running && !(s.phase is Running)
            &&& act is DuplicateDescriptor <==> t.phase is Wiring && !(s.phase is Wiring)
            &&& t.phase is Wiring ==> s.phase is Wiring || s.is_pty
            &&& act is Drain <==> t.phase is Draining && !(s.phase is Draining)
            &&& act is DisarmAndReap <==> t.phase is Reaping && !(s.phase is Reaping)
            &&& act is TellAndKill <==> t.phase is Killing && !(s.phase is Killing)
            &&& act matches Act::TellAndKill(d) ==> event == Event::Drained(d) && d is Incomplete
            &&& act is Abandon <==> t.phase is Abandoning && !(s.phase is Abandoning)
            &&& act is SendExit <==> t.phase is Telling && !(s.phase is Telling)
            &&& act matches Act::SendExit(told) ==> t.status() == Some(told)
            &&& act is AwaitWriter <==> t.phase is Closing && !(s.phase is Closing)
            &&& act is Finish || act is CancelWriter <==> t.phase is Over && !(s.phase is Over)
            &&& s.status() is Some ==> t.status() == s.status()
            &&& t.armed ==> s.armed
            &&& s.armed && !t.armed ==> act is DisarmAndReap || event is Terminated
        }),
{
}

/// Output that could not be delivered in full is told as such: the job is killed
/// and the status is 255, which no process that succeeded has.
pub proof fn law_truncation_is_no_success(is_pty: bool, events: Seq<Event>, i: int)
    requires
        truncated_at(is_pty, events, i),
        Session::reached(is_pty, events).status() is Some,
    ensures
        Session::reached(is_pty, events).status()->0.code == 255,
        Session::reached(is_pty, events).status()->0.signal is None,
{
    lemma_truncation_is_final(is_pty, events, i);
}

} // verus!
