use qsh::client::{
    accept_new_host, answers_yes, apply, exit_code, first_contact, first_reply, forward_stdin,
    input_end, relayed,
    lookup_name, not_accepted, pinned_notice, refused_status, resized, resolve, session_outcome,
    session_request, shell_quote, signalled_code, sni_name, status_of, tasks, terminal_size,
    want_pty, Address, AddressFamily, Apply, Attempt, CaptureVerifier, ConnectFailure, EscapeState,
    FirstContact, HostKeyPolicy, LocalEnv, LocalSignal, NewHost, Options, PtyPolicy, Race, RaceResult, RaceStep,
    Reply, ADDRESS_STAGGER_MILLIS, DEFAULT_CONNECT_TIMEOUT_SECS, MAX_PARALLEL_ATTEMPTS,
};
use qsh::config::{HostsText, KnownHosts};
use qsh::crypto::{
    cert_from_pem, generate_identity, generate_within, CertificateError, Fingerprint,
};
use qsh::path::OsPath;
use qsh::proto::{ExitStatus, Frame, PtySize, PROTOCOL_VERSION};

fn filtered(chunks: &[&[u8]]) -> (Vec<u8>, bool) {
    let mut st = EscapeState::new(true);
    let mut out = Vec::new();
    for c in chunks {
        let (data, disconnect) = st.filter(c);
        out.extend_from_slice(&data);
        if disconnect {
            return (out, true);
        }
    }
    (out, false)
}

#[test]
fn escape_disconnects_only_at_line_start() {
    assert_eq!(filtered(&[b"~."]), (b"".to_vec(), true));
    assert_eq!(filtered(&[b"ls~."]), (b"ls~.".to_vec(), false));
    // Split across reads, as a real terminal delivers it.
    assert_eq!(filtered(&[b"\n", b"~", b"."]), (b"\n".to_vec(), true));
    // Nothing after the escape is sent.
    assert_eq!(filtered(&[b"ls\n~.rm"]), (b"ls\n".to_vec(), true));
}

#[test]
fn lines_that_start_otherwise_are_sent_as_typed() {
    let typed: &[u8] = b"echo ~ ~.\ncat a~~b\r\n.~.";
    assert_eq!(filtered(&[typed]), (typed.to_vec(), false));
}

#[test]
fn double_tilde_is_a_literal_tilde() {
    assert_eq!(filtered(&[b"~~cd\n"]), (b"~cd\n".to_vec(), false));
}

#[test]
fn escaped_newline_still_starts_a_new_line() {
    assert_eq!(filtered(&[b"~\r~."]), (b"~\r".to_vec(), true));
    assert_eq!(
        filtered(&[b"~", b"\n", b"~", b"."]),
        (b"~\n".to_vec(), true)
    );
}

#[test]
fn unknown_escape_is_passed_through() {
    assert_eq!(filtered(&[b"~x"]), (b"~x".to_vec(), false));
}

#[test]
fn escape_is_off_without_a_terminal() {
    // rsync's binary stream must never be interpreted.
    let mut st = EscapeState::new(false);
    let payload: Vec<u8> = (0u8..=255).collect();
    let (out, disconnect) = st.filter(&payload);
    assert_eq!(out, payload);
    assert!(!disconnect);
}

#[test]
fn chunking_the_input_changes_nothing() {
    let input: &[u8] = b"a~.\n~~x\r~\n~~~\n~.after";
    for cut in 0..=input.len() {
        assert_eq!(
            filtered(&[&input[..cut], &input[cut..]]),
            filtered(&[input]),
            "cut at {cut}"
        );
    }
}

fn now() -> u64 {
    std::time::SystemTime::now()
        .duration_since(std::time::UNIX_EPOCH)
        .unwrap()
        .as_secs()
}

fn verify(pem: &str) -> Result<(), CertificateError> {
    let der = cert_from_pem(pem).unwrap();
    CaptureVerifier::new().verify_server_cert(&der, now())
}

#[test]
fn first_contact_still_rejects_a_certificate_outside_its_validity() {
    // Trust on first use picks which key to trust; it is not a licence to
    // accept an expired one. Getting this wrong would mean expiry never
    // applied to precisely the clients that have no pin yet.
    let names = vec!["localhost".to_string()];
    let at = now() as i64;
    let (expired, _) = generate_within("host", &names, at - 172_800, at - 86_400).unwrap();
    assert!(
        matches!(verify(&expired), Err(CertificateError::Expired)),
        "an expired host key was accepted"
    );

    let (future, _) = generate_within("host", &names, at + 86_400, at + 172_800).unwrap();
    assert!(
        matches!(verify(&future), Err(CertificateError::NotValidYet)),
        "a not-yet-valid host key was accepted"
    );

    let (good, _) = generate_identity("host", &names, 30).unwrap();
    assert!(verify(&good).is_ok(), "a valid host key was rejected");

    assert!(matches!(
        CaptureVerifier::new().verify_server_cert(b"junk", now()),
        Err(CertificateError::BadEncoding)
    ));
}

#[test]
fn a_probe_records_only_a_proved_key() {
    let (pem, _) = generate_identity("host", &vec!["localhost".to_string()], 30).unwrap();
    let der = cert_from_pem(&pem).unwrap();
    let mut probe = CaptureVerifier::new();
    assert!(probe.verify_server_cert(&der, now()).is_ok());
    assert!(probe.seen.is_none());
    assert!(probe.proved(b"junk").is_err());
    assert!(probe.seen.is_none());
    assert!(probe.proved(&der).is_ok());
    assert_eq!(probe.seen, Some(Fingerprint::of_cert(&der).unwrap()));
}

fn v4(last: u8, port: u16) -> Address {
    Address::V4 {
        ip4: u32::from_be_bytes([127, 0, 0, last]),
        port,
    }
}

fn v6(ip6: u128, port: u16) -> Address {
    Address::V6 {
        ip6,
        port,
        flowinfo: 0,
        scope_id: 0,
    }
}

#[test]
fn resolution_honours_the_requested_family() {
    let found = vec![v4(1, 2222)];
    let all = resolve("127.0.0.1", &found, AddressFamily::Any).unwrap();
    assert!(all.iter().all(|a| AddressFamily::V4.accepts(a)));
    let err = resolve("127.0.0.1", &found, AddressFamily::V6).unwrap_err();
    assert!(err.contains("127.0.0.1"), "{err}");

    // A dual-stack name must offer every address, not just the first.
    let dual = vec![v4(1, 2222), v6(1, 2222)];
    let all = resolve("localhost", &dual, AddressFamily::Any).unwrap();
    assert_eq!(all.len(), 2);
}

#[test]
fn addresses_alternate_between_the_families_without_repetition() {
    let found = vec![v4(3, 1), v6(9, 1), v4(1, 1), v4(3, 1), v6(9, 1), v4(2, 1)];
    let all = resolve("h", &found, AddressFamily::Any).unwrap();
    assert_eq!(all.len(), 4);
    assert!(matches!(all[0], Address::V6 { .. }));
    assert!(matches!(all[1], Address::V4 { .. }));
    let only4 = resolve("h", &found, AddressFamily::V4).unwrap();
    assert_eq!(only4, vec![v4(1, 1), v4(2, 1), v4(3, 1)]);
    assert_eq!(
        resolve("h", &found, AddressFamily::V6).unwrap(),
        vec![v6(9, 1)]
    );
    assert!(resolve("h", &Vec::new(), AddressFamily::Any).is_err());
    assert_eq!(lookup_name("[::1]"), "::1");
    assert_eq!(lookup_name("example.com"), "example.com");
}

#[test]
fn sni_falls_back_for_addresses() {
    assert_eq!(sni_name("192.0.2.1", true), "qsh");
    assert_eq!(sni_name("example.com", false), "example.com");
    assert_eq!(sni_name("", false), "qsh");
}

fn base() -> Options {
    Options {
        host: "h".into(),
        port: 2222,
        user: None,
        command: Some(vec!["rsync".into()]),
        pty: PtyPolicy::Auto,
        env: vec![],
        host_key_policy: HostKeyPolicy::Ask,
        paths_dir: None,
        quiet: false,
        no_stdin: false,
        family: AddressFamily::Any,
        connect_timeout_secs: DEFAULT_CONNECT_TIMEOUT_SECS,
    }
}

#[test]
fn pty_is_off_for_remote_commands() {
    for tty in [false, true] {
        assert!(!want_pty(&base(), tty));
        assert!(want_pty(
            &Options {
                pty: PtyPolicy::Force,
                ..base()
            },
            tty
        ));
        assert!(!want_pty(
            &Options {
                pty: PtyPolicy::Never,
                command: None,
                ..base()
            },
            tty
        ));
    }
    let shell = Options {
        command: None,
        ..base()
    };
    assert!(want_pty(&shell, true));
    assert!(!want_pty(&shell, false));
}

#[test]
fn no_stdin_leaves_the_local_input_unread() {
    let shell = Options {
        command: None,
        no_stdin: true,
        ..base()
    };
    assert!(!want_pty(&shell, true));
    let t = tasks(true, true, true);
    assert!(!t.stdin && !t.terminal_input && t.winch && t.signals);
    let t = tasks(true, false, true);
    assert!(t.stdin && t.terminal_input && t.winch && !t.signals);
}

#[test]
fn forced_pty_does_not_interpret_piped_tildes() {
    // The escape needs a local terminal, not a remote one.
    let t = tasks(true, false, false);
    assert!(!t.terminal_input);
    let mut escape = EscapeState::new(t.terminal_input);
    let step = forward_stdin(&mut escape, b"~.\n");
    assert!(!step.hang_up);
    assert!(matches!(step.data, Some(Frame::Stdin(b)) if b == b"~.\n"));
}

#[test]
fn forced_pty_with_piped_stdin_relays_sigint() {
    assert!(tasks(true, false, false).signals);
    assert!(!tasks(true, false, true).signals);
    assert!(tasks(false, false, true).signals);
    let sent = |s: LocalSignal| match relayed(s) {
        Frame::Signal(name) => name,
        other => panic!("{other:?}"),
    };
    assert_eq!(sent(LocalSignal::Interrupt), "INT");
    assert_eq!(sent(LocalSignal::Terminate), "TERM");
}

#[test]
fn forced_pty_with_piped_stdin_uses_the_output_terminal_size() {
    let a = PtySize { cols: 1, rows: 2 };
    let b = PtySize { cols: 3, rows: 4 };
    let c = PtySize { cols: 5, rows: 6 };
    assert_eq!(terminal_size(Some(a), Some(b), Some(c)), a);
    assert_eq!(terminal_size(None, Some(b), Some(c)), b);
    assert_eq!(terminal_size(None, None, Some(c)), c);
    assert_eq!(
        terminal_size(None, None, None),
        PtySize { cols: 80, rows: 24 }
    );
    let mut last = a;
    assert!(resized(&mut last, a).is_none());
    assert!(matches!(resized(&mut last, b), Some(Frame::Resize(s)) if s == b));
    assert_eq!(last, b);
}

#[test]
fn hanging_up_stops_the_input() {
    let mut escape = EscapeState::new(true);
    let step = forward_stdin(&mut escape, b"ls\n~.rest");
    assert!(step.hang_up);
    assert!(matches!(step.data, Some(Frame::Stdin(b)) if b == b"ls\n"));
    let step = forward_stdin(&mut EscapeState::new(true), b"");
    assert!(!step.hang_up && step.data.is_none());
    let frames = input_end(true);
    assert_eq!(frames.len(), 2);
    assert!(matches!(&frames[0], Frame::Signal(name) if name == "HUP"));
    assert!(matches!(&frames[1], Frame::StdinEof));
    let frames = input_end(false);
    assert!(matches!(&frames[..], [Frame::StdinEof]));
}

#[test]
fn address_race_cancels_a_stalled_loser_and_honours_fatal_errors() {
    let mut race = Race::new(2);
    assert_eq!(race.step(), RaceStep::WaitOrStart(0, 0));
    assert_eq!(race.start(), 0);
    // The first address stalls: the second starts after the stagger.
    assert_eq!(
        race.step(),
        RaceStep::WaitOrStart(1, ADDRESS_STAGGER_MILLIS)
    );
    assert_eq!(race.start(), 1);
    assert_eq!(race.step(), RaceStep::Wait);
    assert_eq!(race.ended(Attempt::Won), RaceResult::Win);

    let mut race = Race::new(2);
    race.start();
    assert_eq!(race.ended(Attempt::Rejected), RaceResult::Stop);
    assert_eq!(race.started, 1);
}

#[test]
fn address_race_bounds_concurrency_and_keeps_trying_after_failures() {
    let mut race = Race::new(5);
    let mut maximum = 0;
    let mut failures = 0;
    loop {
        match race.step() {
            RaceStep::WaitOrStart(index, _) => {
                assert_eq!(race.start(), index);
                maximum = maximum.max(race.pending);
            }
            RaceStep::Wait => {
                // A failed attempt need not consume the rest of the stagger.
                assert_eq!(race.ended(Attempt::Failed), RaceResult::GoOn);
                failures += 1;
                assert!(!race.staggered);
            }
            RaceStep::Exhausted => break,
        }
    }
    assert_eq!(failures, 5);
    assert!(maximum <= MAX_PARALLEL_ATTEMPTS);
    assert_eq!(race.pending, 0);
    assert_eq!(Race::new(0).step(), RaceStep::Exhausted);
}

#[test]
fn connection_failures_say_what_to_do_next() {
    let opts = base();
    let changed = ConnectFailure::Transport("crypto: HostKeyMismatch".into());
    assert_eq!(changed.counts_as(), Attempt::Rejected);
    assert_eq!(
        changed.connect_error(&opts, "1.2.3.4:2222"),
        "crypto: HostKeyMismatch\n\nThe host key for h:2222 has changed. If this is expected, \
         remove the old entry with `qsh known-hosts remove h:2222`; otherwise someone may be \
         impersonating the server."
    );
    let other = ConnectFailure::Transport("refused".into());
    assert_eq!(other.counts_as(), Attempt::Failed);
    assert_eq!(
        other.connect_error(&opts, "1.2.3.4:2222"),
        "cannot connect to h (1.2.3.4:2222): refused"
    );
    let silent = ConnectFailure::TimedOut("timed out".into());
    assert_eq!(
        silent.connect_error(&opts, "1.2.3.4:2222"),
        "cannot connect to h (1.2.3.4:2222): timed out\n\nNo response. Check that qsh-server is \
         running and that UDP port 2222 is reachable \u{2014} QUIC needs UDP, not TCP."
    );
    assert_eq!(
        ConnectFailure::Other("no".into()).connect_error(&opts, "a"),
        "cannot connect to h (a): no"
    );
    assert_eq!(
        ConnectFailure::Deadline.connect_error(&opts, "a"),
        "connecting to h (a) timed out after 10s"
    );
    assert_eq!(ConnectFailure::Deadline.counts_as(), Attempt::Failed);
}

#[test]
fn refusing_unknown_hosts_preserves_identity_guidance_without_network_contact() {
    let opts = Options {
        host: "127.0.0.1".into(),
        port: 4433,
        host_key_policy: HostKeyPolicy::Refuse,
        paths_dir: Some(OsPath::of_text("/tmp/client's identity dir")),
        ..base()
    };
    let expected_command = opts.known_hosts_command();
    assert_eq!(
        expected_command,
        "qsh known-hosts -i '/tmp/client'\"'\"'s identity dir'"
    );
    let known = KnownHosts::load(None).unwrap();
    let FirstContact::Refused(error) = first_contact(&opts, &known) else {
        panic!("expected a refusal without a probe");
    };
    assert!(
        error.contains("--refuse-new") && error.contains("trusted channel"),
        "{error}"
    );
    assert!(
        error.contains(&format!(
            "{expected_command} add 127.0.0.1:4433 <verified-fingerprint>"
        )),
        "{error}"
    );
}

#[test]
fn known_hosts_are_not_probed() {
    let fp = Fingerprint([9; 32]);
    let mut known = KnownHosts::load(None).unwrap();
    assert!(matches!(
        first_contact(&base(), &known),
        FirstContact::Probe
    ));
    known.set(&HostsText::Missing, "h:2222", fp);
    assert!(matches!(first_contact(&base(), &known), FirstContact::Pinned(p) if p == fp));
}

#[test]
fn unknown_keys_are_decided_by_the_policy() {
    let fp = Fingerprint([0x11; 32]);
    let text = format!("sha256:{}", "11".repeat(32));
    let accept = Options {
        host_key_policy: HostKeyPolicy::AcceptNew,
        ..base()
    };
    assert!(matches!(accept_new_host(&accept, fp), NewHost::Accept));
    let refuse = Options {
        host_key_policy: HostKeyPolicy::Refuse,
        ..base()
    };
    let NewHost::Refuse(why) = accept_new_host(&refuse, fp) else {
        panic!("expected a refusal");
    };
    assert!(why.ends_with(&format!("`qsh known-hosts add h:2222 {text}`.")));
    let NewHost::Ask(question, nobody) = accept_new_host(&base(), fp) else {
        panic!("expected a question");
    };
    assert_eq!(
        question,
        format!(
            "The authenticity of host 'h:2222' cannot be established.\nKey fingerprint is \
             {text}.\nAre you sure you want to continue connecting (yes/no)? "
        )
    );
    assert!(nobody.contains("no terminal to ask on"));
    for (answer, yes) in [("yes\n", true), (" y ", true), ("yes please", false), ("no", false)] {
        assert_eq!(answers_yes(answer), yes, "{answer}");
    }
    assert_eq!(
        not_accepted(&base()),
        "host key for h:2222 was not accepted"
    );
    assert_eq!(
        pinned_notice(&base(), fp),
        Some(format!(
            "qsh: permanently added h:2222 ({text}) to known hosts"
        ))
    );
    assert_eq!(
        pinned_notice(
            &Options {
                quiet: true,
                ..base()
            },
            fp
        ),
        None
    );
}

#[test]
fn quoting_keeps_every_character() {
    assert_eq!(shell_quote(""), "''");
    assert_eq!(shell_quote("a b"), "'a b'");
    assert_eq!(shell_quote("it's"), "'it'\"'\"'s'");
}

#[test]
fn the_request_carries_the_local_environment_once() {
    let opts = Options {
        user: Some("alice".into()),
        env: vec![("LANG".into(), "C".into())],
        ..base()
    };
    let local = LocalEnv {
        term: Some("screen".into()),
        lang: Some("de_DE".into()),
        lc_all: None,
        lc_ctype: Some("UTF-8".into()),
        colorterm: Some("truecolor".into()),
    };
    let size = PtySize { cols: 7, rows: 8 };
    let req = session_request(&opts, &local, true, size);
    assert_eq!(req.version, PROTOCOL_VERSION);
    assert_eq!(req.user.as_deref(), Some("alice"));
    assert_eq!(req.command.unwrap(), vec!["rsync"]);
    let pty = req.pty.unwrap();
    assert_eq!(pty.term, "screen");
    assert_eq!(pty.size, size);
    assert_eq!(
        req.env,
        vec![
            ("LANG".to_string(), "C".to_string()),
            ("LC_CTYPE".to_string(), "UTF-8".to_string()),
            ("COLORTERM".to_string(), "truecolor".to_string()),
        ]
    );
    let none = LocalEnv {
        term: None,
        lang: None,
        lc_all: None,
        lc_ctype: None,
        colorterm: None,
    };
    assert_eq!(
        session_request(&opts, &none, true, size).pty.unwrap().term,
        "xterm"
    );
    assert!(session_request(&opts, &none, false, size).pty.is_none());
}

#[test]
fn remote_command_reports_its_exit_status() {
    let exit = |code: i32, signal: Option<i32>| ExitStatus { code, signal };
    assert_eq!(status_of(&exit(7, None)), 7);
    assert_eq!(status_of(&exit(0, Some(15))), 143);
    assert_eq!(status_of(&exit(0, Some(i32::MAX))), 255);
    assert_eq!(exit_code(7), 7);
    assert_eq!(exit_code(-1), 255);
    assert_eq!(exit_code(256), 255);
    assert!(matches!(
        apply(Frame::Exit(exit(0, Some(2)))),
        Apply::Exit(130)
    ));
    assert_eq!(session_outcome(Some(3)), Ok(3));
    assert_eq!(signalled_code(15), 143);
}

#[test]
fn stdout_and_stderr_stay_separate() {
    assert!(matches!(apply(Frame::Stdout(b"out".to_vec())), Apply::Stdout(b) if b == b"out"));
    assert!(matches!(apply(Frame::Stderr(b"err".to_vec())), Apply::Stderr(b) if b == b"err"));
    assert!(matches!(apply(Frame::Error("bad".into())), Apply::Print(m) if m == "qsh: bad"));
    assert!(matches!(apply(Frame::Started), Apply::Nothing));
}

#[test]
fn a_stream_that_ends_early_is_never_a_success() {
    assert_eq!(
        session_outcome(None).unwrap_err(),
        "the connection closed before the remote process reported an exit status"
    );
    assert!(matches!(first_reply(None), Reply::Closed));
    assert!(matches!(first_reply(Some(Frame::Started)), Reply::Started));
    assert!(
        matches!(first_reply(Some(Frame::Error("no".into()))), Reply::Refused(m) if m == "qsh: no")
    );
    assert!(matches!(
        first_reply(Some(Frame::StdinEof)),
        Reply::Unexpected
    ));
    assert_eq!(refused_status(None), 126);
    assert_eq!(refused_status(Some(Frame::Started)), 126);
    assert_eq!(
        refused_status(Some(Frame::Exit(ExitStatus {
            code: 5,
            signal: None
        }))),
        5
    );
}
