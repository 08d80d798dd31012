use qsh::admission::{
    Admission, AdmissionCounters, Authenticated, Slots, Verdict, MAX_CONNECTIONS,
    MAX_CONNECTIONS_PER_KEY, MAX_HANDSHAKES, MAX_HANDSHAKES_PER_SOURCE,
};
use qsh::config::{AuthEntry, AuthMeta, AuthStore, Candidate, FileRead};
use qsh::crypto::{cert_from_pem, generate_identity, Fingerprint};
use qsh::path::OsPath;
use qsh::proto::{ExitStatus, Frame, Request, PROTOCOL_VERSION};
use qsh::server::{
    authorize_request, bounded_diagnostic, greet, greeted, handle_connection, listening,
    no_clients_warning, open_session, opening_request, refusal_frames, request_still_authorized,
    CloseReason, ConnectionEvent, ConnectionStep, FirstFrame, Greeting, LiveAuthorization,
    ReloadDiagnostics, RequestGrant, FIRST_FRAME_GRACE_SECS, HANDSHAKE_GRACE_SECS,
    RELOAD_INTERVAL_SECS,
};

fn entry(meta: AuthMeta) -> AuthEntry {
    let (pem, _) = generate_identity("t", &vec!["t".to_string()], 30).unwrap();
    AuthEntry {
        name: "test".into(),
        fingerprint: Fingerprint::of_cert(&cert_from_pem(&pem).unwrap()).unwrap(),
        meta,
    }
}

fn request(command: Option<&[&str]>) -> Request {
    Request {
        version: PROTOCOL_VERSION,
        user: None,
        command: command.map(|c| c.iter().map(|s| (*s).to_owned()).collect()),
        pty: None,
        env: Vec::new(),
    }
}

fn alice() -> AuthMeta {
    AuthMeta {
        user: "alice".into(),
        ..Default::default()
    }
}

fn store_of(entry: AuthEntry) -> AuthStore {
    let mut store = AuthStore::new();
    store.insert(entry);
    store
}

#[test]
fn per_key_connection_limit_preserves_other_keys_and_releases_slots() {
    let mut limiter = Slots::new(MAX_CONNECTIONS_PER_KEY);
    let first = entry(AuthMeta::default()).fingerprint;
    let second = entry(AuthMeta::default()).fingerprint;
    for _ in 0..MAX_CONNECTIONS_PER_KEY {
        assert!(limiter.try_acquire(&first.0));
    }
    assert!(!limiter.try_acquire(&first.0));
    assert!(limiter.try_acquire(&second.0));
    limiter.release(&first.0);
    assert!(limiter.try_acquire(&first.0));
    // Once everything is released nothing is remembered.
    for _ in 0..MAX_CONNECTIONS_PER_KEY {
        limiter.release(&first.0);
    }
    limiter.release(&second.0);
    assert!(limiter.held.is_empty());
}

#[test]
fn one_key_cannot_occupy_every_established_connection_slot() {
    let e = entry(alice());
    let fp = e.fingerprint;
    let other = entry(alice());
    let other_fp = other.fingerprint;
    let mut store = store_of(e);
    store.insert(other);
    let mut admission = Admission::new();
    for _ in 0..MAX_CONNECTIONS_PER_KEY {
        let g = greet(&store, &mut admission, &Some(fp), 0);
        assert!(matches!(&g, Greeting::Serve { user, name } if user == "alice" && name == "test"));
        assert_eq!(greeted(&g), Authenticated::Yes);
    }
    let g = greet(&store, &mut admission, &Some(fp), 0);
    assert!(matches!(g, Greeting::Close(CloseReason::KeyLimit)));
    assert_eq!(greeted(&g), Authenticated::OverLimit);
    assert_eq!(CloseReason::KeyLimit.message(), "key connection limit reached");
    assert!(matches!(
        greet(&store, &mut admission, &Some(other_fp), 0),
        Greeting::Serve { .. }
    ));
    admission.drop_key(&fp);
    assert!(matches!(
        greet(&store, &mut admission, &Some(fp), 0),
        Greeting::Serve { .. }
    ));
}

#[test]
fn an_unauthorized_key_is_refused() {
    let store = store_of(entry(alice()));
    let mut admission = Admission::new();
    let stranger = Fingerprint([1; 32]);
    let g = greet(&store, &mut admission, &Some(stranger), 0);
    assert!(matches!(g, Greeting::Stranger));
    assert_eq!(greeted(&g), Authenticated::No);
    assert!(matches!(
        greet(&store, &mut admission, &None, 0),
        Greeting::Stranger
    ));
}

#[test]
fn an_expired_key_cannot_keep_or_open_an_idle_connection() {
    let e = entry(AuthMeta {
        expires_at_unix: Some(1_000),
        ..alice()
    });
    let fp = e.fingerprint;
    let store = store_of(e);
    let mut admission = Admission::new();
    assert!(matches!(
        greet(&store, &mut admission, &Some(fp), 1_000),
        Greeting::Serve { .. }
    ));
    let g = greet(&store, &mut admission, &Some(fp), 1_001);
    assert!(matches!(g, Greeting::Close(CloseReason::Expired)));
    assert_eq!(CloseReason::Expired.message(), "authorization expired");
    assert_eq!(
        handle_connection(&store, &fp, ConnectionEvent::PolicyTick, 1_000),
        ConnectionStep::Wait
    );
    assert_eq!(
        handle_connection(&store, &fp, ConnectionEvent::PolicyTick, 1_001),
        ConnectionStep::Close(CloseReason::WithdrawnOrExpired)
    );
    assert_eq!(
        CloseReason::WithdrawnOrExpired.message(),
        "authorization withdrawn or expired"
    );
}

#[test]
fn a_revoked_key_loses_an_established_connection() {
    let e = entry(alice());
    let fp = e.fingerprint;
    let store = store_of(e);
    assert_eq!(
        handle_connection(&store, &fp, ConnectionEvent::Stream, 0),
        ConnectionStep::Session
    );
    let empty = AuthStore::new();
    assert_eq!(
        handle_connection(&empty, &fp, ConnectionEvent::PolicyTick, 0),
        ConnectionStep::Close(CloseReason::WithdrawnOrExpired)
    );
    assert_eq!(
        handle_connection(&empty, &fp, ConnectionEvent::Stream, 0),
        ConnectionStep::Close(CloseReason::Withdrawn)
    );
    assert_eq!(CloseReason::Withdrawn.message(), "authorization withdrawn");
    assert_eq!(
        handle_connection(&store, &fp, ConnectionEvent::Closed, 0),
        ConnectionStep::End
    );
    assert_eq!(
        handle_connection(&store, &fp, ConnectionEvent::Failed, 0),
        ConnectionStep::Fail
    );
}

fn broken(name: &str) -> Candidate {
    Candidate {
        file_name: OsPath::of_text(name),
        cert: Ok(b"broken certificate".to_vec()),
        meta: FileRead::Missing {
            why: "No such file or directory (os error 2)".into(),
        },
    }
}

#[test]
fn reload_warnings_follow_entry_changes_and_recover_from_errors() {
    let mut store = AuthStore::default();
    let mut diagnostics = ReloadDiagnostics {
        warnings: Vec::new(),
        failure: None,
    };
    let dir = &OsPath::of_text("/d/authorized");
    let listed = || Ok(AuthStore::load(dir, vec![broken("client.crt")]));
    let empty = || Ok(AuthStore::load(dir, Vec::new()));

    let first = diagnostics.reload(&mut store, listed());
    assert_eq!(first.len(), 1);
    assert!(first[0].contains("ignoring authorization"));
    assert!(diagnostics.reload(&mut store, listed()).is_empty());
    assert!(diagnostics.reload(&mut store, empty()).is_empty());
    assert_eq!(diagnostics.reload(&mut store, listed()), first);

    store.insert(entry(alice()));
    let failure = diagnostics.reload(&mut store, Err("not a directory".into()));
    assert_eq!(failure.len(), 1);
    assert!(failure[0].contains("keeping previous authorizations"));
    assert!(!store.is_empty());
    assert!(diagnostics
        .reload(&mut store, Err("not a directory".into()))
        .is_empty());
    assert_eq!(
        diagnostics.reload(&mut store, listed()),
        ["qsh-server: authorization reload recovered"]
    );
    assert!(store.is_empty());
    assert!(diagnostics.reload(&mut store, listed()).is_empty());
}

#[test]
fn rejection_counts_are_reported_without_another_connection() {
    let mut counters = AdmissionCounters {
        rejected: 12,
        unauthenticated: 3,
    };
    assert_eq!(
        counters.report(),
        vec![
            "qsh-server: refused 12 connection(s) over the concurrency limit",
            "qsh-server: 3 connection(s) failed to authenticate",
        ]
    );
    assert_eq!(counters.rejected, 0);
    assert_eq!(counters.unauthenticated, 0);
    assert!(counters.report().is_empty());
    counters.record_connection_outcome(Some(Authenticated::No));
    counters.record_connection_outcome(Some(Authenticated::OverLimit));
    counters.record_connection_outcome(Some(Authenticated::Yes));
    counters.record_connection_outcome(None);
    assert_eq!((counters.rejected, counters.unauthenticated), (1, 1));
}

#[test]
fn shell_can_be_forbidden_while_exec_is_allowed() {
    let e = entry(AuthMeta {
        user: "alice".into(),
        allow_shell: false,
        allow_exec: true,
        allowed_commands: vec!["rsync".into()],
        key_fingerprint: None,
        expires_at_unix: None,
    });
    assert!(authorize_request(&e, &request(None), 0).is_err());
    assert!(authorize_request(&e, &request(Some(&["rsync", "--server"])), 0).is_ok());
    assert!(authorize_request(&e, &request(Some(&["sh"])), 0).is_err());
}

#[test]
fn exec_can_be_forbidden_while_shell_is_allowed() {
    let e = entry(AuthMeta {
        user: "alice".into(),
        allow_shell: true,
        allow_exec: false,
        allowed_commands: vec![],
        key_fingerprint: None,
        expires_at_unix: None,
    });
    assert!(authorize_request(&e, &request(None), 0).is_ok());
    assert!(authorize_request(&e, &request(Some(&["ls"])), 0).is_err());
}

#[test]
fn version_mismatch_is_rejected() {
    let e = entry(AuthMeta {
        user: "alice".into(),
        ..Default::default()
    });
    let mut req = request(Some(&["ls"]));
    req.version = PROTOCOL_VERSION + 1;
    assert!(authorize_request(&e, &req, 0).is_err());
}

#[test]
fn empty_command_is_rejected() {
    let e = entry(AuthMeta {
        user: "alice".into(),
        ..Default::default()
    });
    assert!(authorize_request(&e, &request(Some(&[])), 0).is_err());
}

#[test]
fn an_expired_authorization_is_refused() {
    let e = entry(AuthMeta {
        user: "alice".into(),
        expires_at_unix: Some(1_000),
        ..Default::default()
    });
    assert!(authorize_request(&e, &request(Some(&["ls"])), 999).is_ok());
    let err = authorize_request(&e, &request(Some(&["ls"])), 1_001).unwrap_err();
    assert!(err.contains("expired"), "{err}");
    // A shell is refused for the same reason, not just exec.
    assert!(authorize_request(&e, &request(None), 1_001).is_err());
}

#[test]
fn refusals_say_why() {
    let e = entry(AuthMeta {
        allow_shell: false,
        allowed_commands: vec!["rsync".into(), "borg".into()],
        ..alice()
    });
    let why = |req: &Request| authorize_request(&e, req, 0).unwrap_err();
    assert_eq!(
        why(&request(None)),
        "key `test` may not open an interactive shell"
    );
    assert_eq!(
        why(&request(Some(&["sh"]))),
        "key `test` may not execute `sh`; permitted: rsync, borg"
    );
    let mut other = request(Some(&["rsync"]));
    other.user = Some("bob".into());
    assert_eq!(
        why(&other),
        "key `test` is authorized for `alice`, not `bob`"
    );
    other.version = 9;
    assert_eq!(
        why(&other),
        "protocol version mismatch: client speaks 9, server speaks 1"
    );
    let long = "x".repeat(4097);
    assert_eq!(
        why(&request(Some(&[long.as_str()]))),
        "program name is too long"
    );
    assert_eq!(why(&request(Some(&[]))), "empty command");
    let none = entry(AuthMeta {
        allow_exec: false,
        ..alice()
    });
    assert_eq!(
        authorize_request(&none, &request(Some(&["ls"])), 0).unwrap_err(),
        "key `test` may not execute commands"
    );
}

#[test]
fn a_source_cannot_take_more_than_its_share_of_handshakes() {
    let mut limiter = Slots::new(MAX_HANDSHAKES_PER_SOURCE);
    let one = [203, 0, 113, 7];
    let two = [203, 0, 113, 8];

    for _ in 0..MAX_HANDSHAKES_PER_SOURCE {
        assert!(limiter.try_acquire(&one), "within the per-source cap");
    }
    assert!(!limiter.try_acquire(&one), "one address got past its cap");
    // Which is the whole point: the next address is unaffected.
    assert!(limiter.try_acquire(&two), "a different source");

    for _ in 0..MAX_HANDSHAKES_PER_SOURCE {
        limiter.release(&one);
    }
    assert!(
        limiter.try_acquire(&one),
        "slots were not released when the handshakes ended"
    );
    limiter.release(&one);
    limiter.release(&two);
    // Nothing is remembered once the attempts are over, so there is no
    // table to grow and nothing to expire.
    assert!(limiter.held.is_empty());
}

#[test]
fn one_source_cannot_monopolize_the_handshake_pool() {
    let mut admission = Admission::new();
    assert_eq!(admission.incoming(&[1], false), Verdict::Retry);
    for _ in 0..MAX_HANDSHAKES_PER_SOURCE {
        assert_eq!(admission.incoming(&[1], true), Verdict::Accept);
    }
    assert_eq!(admission.incoming(&[1], true), Verdict::Ignore);
    assert_eq!(admission.incoming(&[2], true), Verdict::Accept);
    assert_eq!(admission.counters.rejected, 1);
    admission.handshake_over(&[1]);
    assert_eq!(admission.incoming(&[1], true), Verdict::Accept);
    // Ever more sources, until the pool is full.
    let mut source = 3u8;
    while admission.per_source.held.len() < MAX_HANDSHAKES {
        assert_eq!(admission.incoming(&[source], true), Verdict::Accept);
        source += 1;
    }
    assert_eq!(admission.incoming(&[250], true), Verdict::Ignore);
}

#[test]
fn peers_that_say_nothing_are_given_up() {
    assert_eq!(HANDSHAKE_GRACE_SECS, 5);
    assert_eq!(FIRST_FRAME_GRACE_SECS, 10);
    assert_eq!(RELOAD_INTERVAL_SECS, 1);
}

#[test]
fn connections_are_bounded() {
    let mut admission = Admission::new();
    for i in 0..MAX_CONNECTIONS {
        let source = [(i % 256) as u8];
        assert_eq!(admission.incoming(&source, true), Verdict::Accept);
        admission.handshake_over(&source);
    }
    assert_eq!(admission.incoming(&[0], true), Verdict::Ignore);
    admission.connection_over(Some(Authenticated::Yes));
    assert_eq!(admission.incoming(&[0], true), Verdict::Accept);
}

#[test]
fn a_preopened_stream_uses_the_policy_when_its_request_arrives() {
    let e = entry(alice());
    let fp = e.fingerprint;
    let store = store_of(e.duplicate());
    let auth = open_session(&store, &fp, &request(Some(&["ls", "-l"])), 0).unwrap();
    assert!(matches!(&auth.grant, RequestGrant::Exec(p) if p == "ls"));
    assert_eq!(auth.authorized_user, "alice");
    assert!(request_still_authorized(&store, &auth, 0));
    // Withdrawn before the request arrived.
    assert_eq!(
        open_session(&AuthStore::new(), &fp, &request(None), 0).unwrap_err(),
        "client authorization was withdrawn"
    );
    // Narrowed while the session runs.
    let mut narrowed = e.duplicate();
    narrowed.meta.allowed_commands = vec!["rsync".into()];
    assert!(!request_still_authorized(&store_of(narrowed), &auth, 0));
    // Handed to another account.
    let mut moved = e.duplicate();
    moved.meta.user = "bob".into();
    assert!(!request_still_authorized(&store_of(moved), &auth, 0));
    // Expired.
    let mut dated = e;
    dated.meta.expires_at_unix = Some(10);
    let dated = store_of(dated);
    assert!(request_still_authorized(&dated, &auth, 10));
    assert!(!request_still_authorized(&dated, &auth, 11));
    let shell = LiveAuthorization {
        fingerprint: fp,
        grant: RequestGrant::Shell,
        authorized_user: "alice".into(),
    };
    assert!(request_still_authorized(&dated, &shell, 10));
}

#[test]
fn a_session_opens_with_a_request() {
    assert_eq!(
        opening_request(FirstFrame::TimedOut).unwrap_err(),
        "client opened a session but sent no request"
    );
    assert_eq!(
        opening_request(FirstFrame::Failed("bad frame".into())).unwrap_err(),
        "bad frame"
    );
    assert!(opening_request(FirstFrame::Ended).unwrap().is_none());
    assert_eq!(
        opening_request(FirstFrame::Frame(Frame::Started)).unwrap_err(),
        "expected a request frame first"
    );
    assert!(
        opening_request(FirstFrame::Frame(Frame::Request(request(None))))
            .unwrap()
            .is_some()
    );
}

#[test]
fn a_disallowed_large_request_cannot_expand_into_a_large_log_line() {
    let message = format!("a\n\u{7}{}", "x".repeat(100_000));
    let said = bounded_diagnostic(&message);
    assert_eq!(said.chars().count(), 513);
    assert!(said.starts_with("a  xxx"));
    assert!(said.ends_with('\u{2026}'));
    assert_eq!(bounded_diagnostic("short"), "short");
    assert_eq!(bounded_diagnostic(&"y".repeat(512)), "y".repeat(512));
    let (error, exit) = refusal_frames(&message);
    assert!(matches!(error, Frame::Error(text) if text == said));
    assert!(matches!(
        exit,
        Frame::Exit(ExitStatus {
            code: 126,
            signal: None
        })
    ));
}

#[test]
fn the_server_says_how_it_starts() {
    assert_eq!(
        no_clients_warning("/etc/qsh/authorized"),
        "qsh-server: warning: no authorized clients in /etc/qsh/authorized \u{2014} every \
         connection will be refused"
    );
    assert_eq!(
        listening("0.0.0.0:2222", 3),
        "qsh-server: listening on 0.0.0.0:2222 (3 authorized client(s))"
    );
}
