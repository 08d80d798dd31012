use qsh::proto::{
    alpn_id, payload_len, read_frame, signal_named, signal_number, write_frame, ExitStatus, Frame, FrameError,
    PtyRequest, PtySize, Request, Signal, MAX_FRAME, PROTOCOL_VERSION,
};

fn roundtrip(frame: Frame) -> Frame {
    let mut buf = Vec::new();
    write_frame(&mut buf, &frame).unwrap();
    let (frame, used) = read_frame(&buf).unwrap().unwrap();
    assert_eq!(used, buf.len());
    frame
}

#[test]
fn binary_data_survives_untouched() {
    // Everything a naive line-oriented transport would mangle.
    let payload: Vec<u8> = (0u8..=255).chain([b'\r', b'\n', 0]).collect();
    match roundtrip(Frame::Stdout(payload.clone())) {
        Frame::Stdout(got) => assert_eq!(got, payload),
        other => panic!("wrong frame: {other:?}"),
    }
}

#[test]
fn request_roundtrips() {
    let req = Request {
        version: PROTOCOL_VERSION,
        user: Some("alice".into()),
        command: Some(vec![
            "rsync".into(),
            "--server".into(),
            "-vlogDtpre.iLsfxC".into(),
        ]),
        pty: None,
        env: vec![("LANG".into(), "C.UTF-8".into())],
    };
    match roundtrip(Frame::Request(req)) {
        Frame::Request(got) => {
            assert_eq!(got.user.as_deref(), Some("alice"));
            assert_eq!(got.command.unwrap()[2], "-vlogDtpre.iLsfxC");
            assert!(got.pty.is_none());
        }
        other => panic!("wrong frame: {other:?}"),
    }
}

#[test]
fn exit_status_roundtrips() {
    match roundtrip(Frame::Exit(ExitStatus {
        code: 0,
        signal: Some(libc::SIGINT),
    })) {
        Frame::Exit(s) => assert_eq!(s.wait_status(), 130),
        other => panic!("wrong frame: {other:?}"),
    }
}

#[test]
fn clean_eof_is_none() {
    assert!(read_frame(&[]).unwrap().is_none());
}

#[test]
fn oversized_frame_is_rejected() {
    let mut buf = vec![Frame::Stdout(Vec::new()).kind()];
    buf.extend_from_slice(&(MAX_FRAME as u32 + 1).to_be_bytes());
    assert!(matches!(read_frame(&buf), Err(FrameError::TooLong(n)) if n == MAX_FRAME as u32 + 1));
    assert!(payload_len(&buf).is_err());
    let mut out = vec![9];
    let big = Frame::Stdin(vec![0; MAX_FRAME + 1]);
    assert!(matches!(
        write_frame(&mut out, &big),
        Err(FrameError::PayloadTooLarge)
    ));
    assert_eq!(out, vec![9]);
    let largest = Frame::Stdin(vec![7; MAX_FRAME]);
    assert!(matches!(roundtrip(largest), Frame::Stdin(b) if b.len() == MAX_FRAME));
}

#[test]
fn signal_names_parse_with_and_without_prefix() {
    assert_eq!(signal_number("INT"), Some(libc::SIGINT));
    assert_eq!(signal_number("SIGTERM"), Some(libc::SIGTERM));
    assert_eq!(signal_number("nope"), None);
}

#[test]
fn signal_numbers_are_those_of_the_system() {
    for (ours, theirs, name) in [
        (Signal::Hup, libc::SIGHUP, "HUP"),
        (Signal::Int, libc::SIGINT, "INT"),
        (Signal::Quit, libc::SIGQUIT, "QUIT"),
        (Signal::Ill, libc::SIGILL, "ILL"),
        (Signal::Abrt, libc::SIGABRT, "ABRT"),
        (Signal::Kill, libc::SIGKILL, "KILL"),
        (Signal::Usr1, libc::SIGUSR1, "USR1"),
        (Signal::Usr2, libc::SIGUSR2, "USR2"),
        (Signal::Pipe, libc::SIGPIPE, "PIPE"),
        (Signal::Alrm, libc::SIGALRM, "ALRM"),
        (Signal::Term, libc::SIGTERM, "TERM"),
        (Signal::Cont, libc::SIGCONT, "CONT"),
        (Signal::Tstp, libc::SIGTSTP, "TSTP"),
        (Signal::Winch, libc::SIGWINCH, "WINCH"),
    ] {
        assert_eq!(ours.number(), theirs, "{name}");
        assert_eq!(signal_named(name), Some(ours));
        assert_eq!(signal_number(&format!("SIG{name}")), Some(theirs));
    }
    assert_eq!(signal_named("SIGSIGTERM"), None);
}

#[test]
fn every_kind_of_frame_survives() {
    let size = PtySize { cols: 132, rows: 43 };
    assert!(matches!(roundtrip(Frame::Started), Frame::Started));
    assert!(matches!(roundtrip(Frame::StdinEof), Frame::StdinEof));
    assert!(matches!(roundtrip(Frame::Stdin(vec![1])), Frame::Stdin(b) if b == [1]));
    assert!(matches!(roundtrip(Frame::Stderr(vec![2])), Frame::Stderr(b) if b == [2]));
    assert!(matches!(roundtrip(Frame::Resize(size)), Frame::Resize(s) if s == size));
    assert!(matches!(roundtrip(Frame::Signal("TERM".into())), Frame::Signal(s) if s == "TERM"));
    assert!(
        matches!(roundtrip(Frame::Error("na\u{ef}ve".into())), Frame::Error(s) if s == "na\u{ef}ve")
    );
    let req = Request {
        version: 1,
        user: None,
        command: None,
        pty: Some(PtyRequest {
            term: "xterm".into(),
            size,
        }),
        env: vec![],
    };
    match roundtrip(Frame::Request(req)) {
        Frame::Request(got) => {
            let pty = got.pty.unwrap();
            assert_eq!(pty.term, "xterm");
            assert_eq!(pty.size, size);
        }
        other => panic!("wrong frame: {other:?}"),
    }
    match roundtrip(Frame::Exit(ExitStatus {
        code: -7,
        signal: None,
    })) {
        Frame::Exit(s) => assert_eq!((s.code, s.signal), (-7, None)),
        other => panic!("wrong frame: {other:?}"),
    }
}

#[test]
fn frames_are_read_in_the_order_they_were_written() {
    let mut buf = Vec::new();
    write_frame(&mut buf, &Frame::Started).unwrap();
    write_frame(&mut buf, &Frame::Stdout(b"x".to_vec())).unwrap();
    let (first, used) = read_frame(&buf).unwrap().unwrap();
    assert!(matches!(first, Frame::Started));
    let (second, rest) = read_frame(&buf[used..]).unwrap().unwrap();
    assert!(matches!(second, Frame::Stdout(b) if b == b"x"));
    assert_eq!(used + rest, buf.len());
}

#[test]
fn the_wire_format_is_fixed() {
    let mut buf = Vec::new();
    write_frame(&mut buf, &Frame::Stdout(b"hi".to_vec())).unwrap();
    assert_eq!(buf[0], Frame::Stdout(Vec::new()).kind());
    assert_eq!(&buf[1..], &[0, 0, 0, 2, b'h', b'i']);
    let mut buf = Vec::new();
    let size = PtySize { cols: 300, rows: 24 };
    write_frame(&mut buf, &Frame::Resize(size)).unwrap();
    assert_eq!(&buf[1..], &[0, 0, 0, 3, 0xac, 0x02, 24]);
    let mut buf = Vec::new();
    let exit = ExitStatus {
        code: -1,
        signal: Some(9),
    };
    write_frame(&mut buf, &Frame::Exit(exit)).unwrap();
    assert_eq!(&buf[1..], &[0, 0, 0, 3, 1, 1, 18]);
    assert_eq!(alpn_id(), b"qsh/1".to_vec());
}

#[test]
fn an_invalid_first_frame_cannot_expand_into_a_large_log_line() {
    // What is said about a bad frame is short whatever the frame holds.
    let mut truncated = vec![Frame::Stdin(Vec::new()).kind(), 0, 0, 0, 9];
    truncated.push(1);
    assert!(matches!(
        read_frame(&truncated),
        Err(FrameError::Truncated)
    ));
    // A stream that ends within a header has ended.
    assert!(read_frame(&[1, 0]).unwrap().is_none());
    let unknown = [250, 0, 0, 0, 0];
    assert!(matches!(
        read_frame(&unknown),
        Err(FrameError::UnknownKind(250))
    ));
    let mut text = vec![Frame::Error(String::new()).kind(), 0, 0, 0, 1];
    text.push(0xff);
    assert!(matches!(read_frame(&text), Err(FrameError::NotUtf8)));
    let request = Frame::Request(Request {
        version: 1,
        user: None,
        command: None,
        pty: None,
        env: vec![],
    });
    let junk = [request.kind(), 0, 0, 0, 1, 0xff];
    match read_frame(&junk) {
        Err(FrameError::Malformed(why)) => {
            assert!(!why.is_empty() && why.len() < 200, "{why}");
        }
        other => panic!("{other:?}"),
    }
    for bad in [&truncated[..], &unknown[..], &text[..], &junk[..]] {
        let said = read_frame(bad).unwrap_err().message();
        assert!(said.len() < 200, "{said}");
    }
}
