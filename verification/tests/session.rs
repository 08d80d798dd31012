use qsh::proto::{ExitStatus, Frame, PtySize, Signal};
use qsh::session::{
    apply_control_event, drain, drain_limit_secs, incomplete_frame, leader_poll, Act, Control, ControlAction,
    ControlEvent, ControlInput, ControlStep, Drained, Ending, Escalation, Event, FinishStep,
    LeaderPoll, Phase, ProcessGroupGuard, Pump, PumpEnd, PumpEvent, Session, StdinOutcome,
    StreamGuard, TerminateStep, SHUTDOWN_GRACE_SECS, TERMINATE_GRACE_SECS,
};

#[test]
fn only_terminals_are_drained_against_the_clock() {
    assert_eq!(drain_limit_secs(true), Some(2));
    assert_eq!(drain_limit_secs(false), None);
    assert_eq!((TERMINATE_GRACE_SECS, SHUTDOWN_GRACE_SECS), (2, 2));
}

#[test]
fn pump_cutoff_reports_idle_read_without_losing_queued_output() {
    let pump = Pump::Reading.next(PumpEvent::Read(b"hello".to_vec()));
    assert!(matches!(&pump, Pump::Sending(data) if data == b"hello"));
    let pump = pump.next(PumpEvent::Sent).next(PumpEvent::Cancelled);
    assert!(matches!(pump, Pump::Ended(PumpEnd::CutoffIdle)));
}

#[test]
fn pump_cutoff_reports_a_chunk_parked_on_a_full_channel() {
    let pump = Pump::Reading.next(PumpEvent::Read(b"a".to_vec()));
    let pump = pump.next(PumpEvent::Cancelled);
    assert!(matches!(pump, Pump::Ended(PumpEnd::CutoffPending)));
}

#[test]
fn pump_preserves_eof_and_receiver_loss_results() {
    let pump = Pump::Reading.next(PumpEvent::Read(Vec::new()));
    assert!(matches!(pump, Pump::Ended(PumpEnd::Eof)));
    let pump = Pump::Reading
        .next(PumpEvent::Read(b"output".to_vec()))
        .next(PumpEvent::ReceiverGone);
    assert!(matches!(pump, Pump::Ended(PumpEnd::ClientGone)));
    let pump = Pump::Reading.next(PumpEvent::ReadFailed);
    assert!(matches!(pump, Pump::Ended(PumpEnd::ReadError)));
    // The end is the end.
    assert!(matches!(
        pump.next(PumpEvent::Read(b"more".to_vec())),
        Pump::Ended(PumpEnd::ReadError)
    ));
}

#[test]
fn output_counts_as_drained_only_if_every_pump_is_complete() {
    assert_eq!(drain(&vec![]), Drained::Fully);
    assert_eq!(
        drain(&vec![PumpEnd::Eof, PumpEnd::CutoffIdle]),
        Drained::Fully
    );
    assert_eq!(
        drain(&vec![PumpEnd::ReadError, PumpEnd::Eof]),
        Drained::Incomplete(PumpEnd::ReadError)
    );
    assert_eq!(
        drain(&vec![PumpEnd::ReadError, PumpEnd::CutoffPending]),
        Drained::Incomplete(PumpEnd::CutoffPending)
    );
    let said = |end: PumpEnd| match incomplete_frame(Drained::Incomplete(end)) {
        Frame::Error(text) => text,
        other => panic!("{other:?}"),
    };
    let opening = "the remote output could not be delivered in full: ";
    assert_eq!(said(PumpEnd::ReadError), format!("{opening}read error"));
    assert_eq!(
        said(PumpEnd::ClientGone),
        format!("{opening}client stopped reading")
    );
    assert_eq!(
        said(PumpEnd::CutoffPending),
        format!("{opening}output remained buffered at the PTY drain deadline")
    );
    assert_eq!(said(PumpEnd::Failed), format!("{opening}output task failed"));
}

#[test]
fn a_cancelled_terminate_still_kills_the_group() {
    let mut guard = ProcessGroupGuard::new(Some(42));
    assert_eq!(
        guard.terminate(None, false),
        TerminateStep::SignalAndWait(42, Signal::Hup, Escalation::HungUp)
    );
    // Cancelled here: the guard is still armed.
    assert_eq!(guard.dropped(), Some((42, Signal::Kill)));
}

#[test]
fn terminate_escalates_to_kill_when_signals_are_ignored() {
    let mut guard = ProcessGroupGuard::new(Some(42));
    guard.terminate(None, false);
    assert_eq!(
        guard.terminate(Some(Escalation::HungUp), false),
        TerminateStep::SignalAndWait(42, Signal::Term, Escalation::Terminated)
    );
    assert_eq!(
        guard.terminate(Some(Escalation::Terminated), false),
        TerminateStep::SignalAndStop(42, Signal::Kill)
    );
    assert_eq!(guard.dropped(), None);
}

#[test]
fn terminate_returns_promptly_for_a_job_that_takes_the_hint() {
    let mut guard = ProcessGroupGuard::new(Some(42));
    guard.terminate(None, false);
    assert_eq!(
        guard.terminate(Some(Escalation::HungUp), true),
        TerminateStep::SignalAndStop(42, Signal::Kill)
    );
    let mut none = ProcessGroupGuard::new(None);
    assert_eq!(none.terminate(None, false), TerminateStep::Nothing);
    let mut disarmed = ProcessGroupGuard::new(Some(1));
    disarmed.disarm();
    assert_eq!(disarmed.dropped(), None);
}

#[test]
fn observing_leader_exit_keeps_it_waitable() {
    assert_eq!(leader_poll(0, 0), LeaderPoll::Running);
    assert_eq!(leader_poll(0, 42), LeaderPoll::Exited);
    // Asking again reports the same completed child.
    assert_eq!(leader_poll(0, 42), LeaderPoll::Exited);
    assert_eq!(leader_poll(-1, 0), LeaderPoll::Failed);
}

#[test]
fn a_peer_that_never_reads_gets_the_stream_reset() {
    let mut guard = StreamGuard::new();
    assert_eq!(guard.finish(FinishStep::Flush, true), FinishStep::Finish);
    assert_eq!(
        guard.finish(FinishStep::Finish, true),
        FinishStep::AwaitAcknowledgement
    );
    assert_eq!(
        guard.finish(FinishStep::AwaitAcknowledgement, false),
        FinishStep::Stop
    );
    assert!(guard.armed);
    let mut fine = StreamGuard::new();
    fine.finish(FinishStep::AwaitAcknowledgement, true);
    assert!(!fine.armed);
    assert_eq!(StreamGuard::new().finish(FinishStep::Flush, false), FinishStep::Stop);
}

#[test]
fn child_stdin_closing_does_not_discard_output_or_exit_status() {
    let mut control = Control::new(false);
    assert!(matches!(
        control.handle(ControlInput::Frame(Frame::Stdin(b"x".to_vec()))),
        ControlStep::Write(b) if b == b"x"
    ));
    // The child stopped reading: control goes on, the input is dropped.
    assert!(control.written(StdinOutcome::Broken));
    assert!(matches!(
        control.handle(ControlInput::Frame(Frame::Stdin(b"y".to_vec()))),
        ControlStep::Continue
    ));
    // The session goes on to the process's own status.
    let (status, _) = finish(&mut started(false), Drained::Fully, Some((Some(23), None)));
    assert_eq!(status.code, 23);
}

#[test]
fn only_a_broken_pipe_leaves_control_going() {
    for (is_pty, outcome, go_on, open) in [
        (false, StdinOutcome::Written, true, true),
        (true, StdinOutcome::Written, true, true),
        (false, StdinOutcome::Broken, true, false),
        (true, StdinOutcome::Broken, false, false),
        (false, StdinOutcome::Failed, false, false),
        (true, StdinOutcome::Failed, false, false),
        (false, StdinOutcome::PeerReset, false, true),
        (true, StdinOutcome::PeerReset, false, true),
    ] {
        let mut control = Control::new(is_pty);
        assert_eq!(control.written(outcome), go_on, "{is_pty} {outcome:?}");
        assert_eq!(control.open, open, "{is_pty} {outcome:?}");
    }
}

#[test]
fn disconnect_is_observed_while_child_stdin_is_blocked() {
    let mut control = Control::new(false);
    assert!(!control.written(StdinOutcome::PeerReset));
    assert!(matches!(
        control.handle(ControlInput::Ended),
        ControlStep::Stop
    ));
    let mut s = started(false);
    assert!(matches!(s.run_session(Event::ControlEnded), Act::Abandon));
    assert!(s.armed);
}

#[test]
fn a_forced_terminal_still_delivers_end_of_file() {
    let mut control = Control::new(true);
    assert!(matches!(
        control.handle(ControlInput::Frame(Frame::StdinEof)),
        ControlStep::WriteAndFlush(b) if b == [4, 4]
    ));
    let mut pipe = Control::new(false);
    assert!(matches!(
        pipe.handle(ControlInput::Frame(Frame::StdinEof)),
        ControlStep::Close
    ));
    assert!(!pipe.open);
}

#[test]
fn control_frames_reach_the_process_group() {
    let mut control = Control::new(true);
    let size = PtySize { cols: 9, rows: 9 };
    let ControlStep::Pass(event) = control.handle(ControlInput::Frame(Frame::Resize(size))) else {
        panic!("expected the resize to be passed on");
    };
    assert_eq!(
        apply_control_event(event, true, Some(7)),
        ControlAction::Resize(size, Some((7, Signal::Winch)))
    );
    assert_eq!(
        apply_control_event(event, false, Some(7)),
        ControlAction::Nothing
    );
    let ControlStep::Pass(event) = control.handle(ControlInput::Frame(Frame::Signal("TERM".into())))
    else {
        panic!("expected the signal to be passed on");
    };
    assert_eq!(event, ControlEvent::Signal(Signal::Term));
    assert_eq!(
        apply_control_event(event, false, Some(7)),
        ControlAction::Signal(7, Signal::Term)
    );
    assert_eq!(
        apply_control_event(event, false, None),
        ControlAction::Nothing
    );
    assert!(matches!(
        control.handle(ControlInput::Frame(Frame::Signal("NOPE".into()))),
        ControlStep::Continue
    ));
    assert!(matches!(
        control.handle(ControlInput::Frame(Frame::Started)),
        ControlStep::Continue
    ));
}

fn started(is_pty: bool) -> Session {
    let mut s = Session::new(is_pty);
    assert!(s.armed);
    if is_pty {
        assert!(matches!(
            s.run_session(Event::Started(true)),
            Act::DuplicateDescriptor
        ));
        assert!(matches!(
            s.run_session(Event::Descriptor(true)),
            Act::Start
        ));
    } else {
        assert!(matches!(s.run_session(Event::Started(true)), Act::Start));
    }
    s
}

fn finish(
    s: &mut Session,
    drained: Drained,
    reaped: Option<(Option<i32>, Option<i32>)>,
) -> (ExitStatus, Act) {
    assert!(matches!(s.run_session(Event::LeaderExited(true)), Act::Drain));
    let act = s.run_session(Event::Drained(drained));
    let sent = match act {
        Act::DisarmAndReap => {
            assert!(!s.armed);
            s.run_session(Event::Reaped(reaped))
        }
        Act::TellAndKill(_) => {
            assert!(s.armed);
            s.run_session(Event::Terminated)
        }
        other => panic!("{other:?}"),
    };
    match sent {
        Act::SendExit(status) => (status, act),
        other => panic!("{other:?}"),
    }
}

#[test]
fn output_is_never_truncated_behind_a_success_status() {
    let mut s = started(false);
    let (status, act) = finish(
        &mut s,
        Drained::Incomplete(PumpEnd::ClientGone),
        Some((Some(0), None)),
    );
    assert!(matches!(act, Act::TellAndKill(_)));
    assert_eq!(status.code, 255);
    assert!(!s.armed);
}

#[test]
fn a_peer_that_stops_reading_never_gets_a_successful_exit() {
    let mut s = started(true);
    let (status, _) = finish(
        &mut s,
        Drained::Incomplete(PumpEnd::CutoffPending),
        Some((Some(0), None)),
    );
    assert_ne!(status.code, 0);
    assert!(matches!(
        s.run_session(Event::ExitQueued),
        Act::AwaitWriter
    ));
    // It does not take the end of the stream either: the writer is cancelled.
    assert!(matches!(
        s.run_session(Event::WriterEnded(false)),
        Act::CancelWriter
    ));
    assert!(matches!(s.phase, Phase::Over(Ending::Told(_))));
}

#[test]
fn a_session_tells_the_status_of_its_process() {
    let mut s = started(true);
    let (status, _) = finish(&mut s, Drained::Fully, Some((None, Some(9))));
    assert_eq!(status.code, 0);
    assert_eq!(status.signal, Some(9));
    s.run_session(Event::ExitQueued);
    assert!(matches!(
        s.run_session(Event::WriterEnded(true)),
        Act::Finish
    ));
    assert!(matches!(s.run_session(Event::ConnectionClosed), Act::Wait));
}

#[test]
fn a_disconnected_client_does_not_strand_the_remote_process() {
    for event in [Event::ControlEnded, Event::ConnectionClosed, Event::Policy(false)] {
        // While it runs.
        let mut s = started(false);
        assert!(matches!(s.run_session(event), Act::Abandon));
        assert!(s.armed);
        assert!(matches!(s.run_session(Event::Terminated), Act::Finish));
        assert!(!s.armed);
        assert!(matches!(s.phase, Phase::Over(Ending::Abandoned)));
        // While a descendant still holds its output open.
        let mut s = started(false);
        s.run_session(Event::LeaderExited(true));
        assert!(matches!(s.run_session(event), Act::Abandon));
    }
}

#[test]
fn revocation_stops_a_running_session_on_an_established_connection() {
    let mut s = started(false);
    assert!(matches!(s.run_session(Event::Policy(true)), Act::Wait));
    assert!(matches!(s.run_session(Event::Policy(false)), Act::Abandon));
}

#[test]
fn sessions_that_cannot_start_are_abandoned() {
    let mut s = Session::new(false);
    assert!(matches!(s.run_session(Event::Started(false)), Act::Abandon));
    s.run_session(Event::Terminated);
    assert!(matches!(s.phase, Phase::Over(Ending::ClosedEarly)));
    let mut s = Session::new(true);
    s.run_session(Event::Started(true));
    assert!(matches!(
        s.run_session(Event::Descriptor(false)),
        Act::Abandon
    ));
    s.run_session(Event::Terminated);
    assert!(matches!(s.phase, Phase::Over(Ending::NoDescriptor)));
    let mut s = started(false);
    s.run_session(Event::LeaderExited(true));
    s.run_session(Event::Drained(Drained::Fully));
    assert!(matches!(s.run_session(Event::Reaped(None)), Act::Finish));
    assert!(matches!(s.phase, Phase::Over(Ending::NotReaped)));
    let mut s = started(false);
    assert!(matches!(
        s.run_session(Event::LeaderExited(false)),
        Act::Abandon
    ));
    let mut s = started(false);
    assert!(matches!(
        s.run_session(Event::Control(ControlEvent::Signal(Signal::Int))),
        Act::Apply(ControlEvent::Signal(Signal::Int))
    ));
}
