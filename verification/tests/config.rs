use qsh::config::{
    cert_stem, client_dir, env_allowed, load_entry, server_dir, AuthEntry, AuthMeta,
    AuthStore, Candidate, ClientPaths, FileRead, HostsText, KnownHosts, ServerConfig, ServerPaths,
    DEFAULT_PORT,
};
use qsh::crypto::{cert_from_pem, generate_identity, Fingerprint};
use qsh::path::OsPath;

fn path(text: &str) -> OsPath {
    OsPath::of_text(text)
}

fn fp(seed: &str) -> Fingerprint {
    let (pem, _) = generate_identity(seed, &vec![seed.to_string()], 30).unwrap();
    Fingerprint::of_cert(&cert_from_pem(&pem).unwrap()).unwrap()
}

#[test]
fn env_allowlist_blocks_dangerous_variables() {
    assert!(env_allowed("TERM"));
    assert!(env_allowed("LC_ALL"));
    assert!(env_allowed("QSH_TAG"));
    assert!(!env_allowed("LD_PRELOAD"));
    assert!(!env_allowed("PATH"));
    assert!(!env_allowed("IFS"));
}

#[test]
fn empty_allowed_commands_permits_everything() {
    let meta = AuthMeta {
        user: "alice".into(),
        ..Default::default()
    };
    assert!(meta.command_allowed(&["anything".into()]));
}

#[test]
fn allowed_commands_match_argv0_exactly() {
    let meta = AuthMeta {
        user: "alice".into(),
        allowed_commands: vec!["rsync".into()],
        ..Default::default()
    };
    assert!(meta.command_allowed(&["rsync".into(), "--server".into()]));
    assert!(!meta.command_allowed(&["rm".into(), "-rf".into(), "/".into()]));
    assert!(!meta.command_allowed(&["rsyncevil".into()]));
    assert!(!meta.command_allowed(&[]));
}

#[test]
fn a_basename_match_cannot_smuggle_in_another_executable() {
    // The whole point of an rsync-only key: the account can write files,
    // so anything matched by basename alone would be arbitrary code.
    let meta = AuthMeta {
        user: "alice".into(),
        allowed_commands: vec!["rsync".into()],
        ..Default::default()
    };
    for evil in [
        "/tmp/rsync",
        "./rsync",
        "../rsync",
        "/home/alice/bin/rsync",
        "/usr/bin/rsync",
    ] {
        assert!(
            !meta.command_allowed(&[evil.into()]),
            "`{evil}` must not satisfy an allow-list entry of `rsync`"
        );
    }
}

#[test]
fn an_absolute_path_can_be_authorized_explicitly() {
    let meta = AuthMeta {
        user: "alice".into(),
        allowed_commands: vec!["/usr/bin/rsync".into()],
        ..Default::default()
    };
    assert!(meta.command_allowed(&["/usr/bin/rsync".into()]));
    assert!(!meta.command_allowed(&["rsync".into()]));
    assert!(!meta.command_allowed(&["/tmp/rsync".into()]));
}

#[test]
fn authorization_expiry_is_independent_of_any_certificate() {
    let mut meta = AuthMeta {
        user: "alice".into(),
        ..Default::default()
    };
    assert!(!meta.is_expired(i64::MAX), "no deadline means no expiry");
    meta.expires_at_unix = Some(1_000);
    assert!(!meta.is_expired(999));
    assert!(!meta.is_expired(1_000));
    assert!(meta.is_expired(1_001));
}

#[test]
fn known_hosts_round_trip() {
    let a = fp("a");
    let b = fp("b");

    let mut kh = KnownHosts::load(None).unwrap();
    assert!(kh.get("h:2222").is_none());
    let file = kh.set(&HostsText::Missing, "h:2222", a);

    let kh = KnownHosts::load(Some(&file)).unwrap();
    assert_eq!(kh.get("h:2222"), Some(a));

    // Re-pinning replaces rather than appends.
    let mut kh = kh;
    let file = kh.set(&HostsText::Text(file), "h:2222", b);
    let kh = KnownHosts::load(Some(&file)).unwrap();
    assert_eq!(kh.entries().len(), 1);
    assert_eq!(kh.get("h:2222"), Some(b));

    let mut kh = kh;
    let (removed, file) = kh.remove(&HostsText::Text(file), "h:2222");
    assert_eq!(removed, 1);
    assert_eq!(
        KnownHosts::load(file.as_deref()).unwrap().entries().len(),
        0
    );
}

#[test]
fn trust_on_first_use_refuses_to_replace_a_conflicting_pin() {
    let (a, b) = (fp("a"), fp("b"));

    let mut kh = KnownHosts::load(None).unwrap();
    let file = kh
        .set_if_new(&HostsText::Missing, "h:2222", a)
        .unwrap()
        .unwrap();

    // Another process pinned this host in the meantime. Silently replacing
    // it would undo the answer the pin already recorded.
    let mut other = KnownHosts::load(None).unwrap();
    let now = HostsText::Text(file.clone());
    let err = other
        .set_if_new(&now, "h:2222", b)
        .unwrap_err()
        .message();
    assert!(err.contains("was pinned to"), "{err}");
    assert_eq!(
        KnownHosts::load(Some(&file)).unwrap().get("h:2222"),
        Some(a)
    );

    // Re-pinning the same key is not a conflict.
    assert_eq!(other.set_if_new(&now, "h:2222", a).unwrap(), None);
    assert_eq!(other.get("h:2222"), Some(a));
}

#[test]
fn concurrent_writers_do_not_lose_entries() {
    // Each writer takes the file as it is now, under the lock, before adding.
    let hosts: Vec<String> = (0..8).map(|i| format!("host{i}:2222")).collect();
    let mut writers: Vec<KnownHosts> = hosts
        .iter()
        .map(|_| KnownHosts::load(None).unwrap())
        .collect();
    let mut file = HostsText::Missing;
    for (host, kh) in hosts.iter().zip(&mut writers) {
        file = HostsText::Text(kh.set(&file, host, fp(host)));
    }
    let HostsText::Text(text) = file else {
        panic!("nothing was written");
    };
    let kh = KnownHosts::load(Some(&text)).unwrap();
    for host in &hosts {
        assert!(
            kh.get(host).is_some(),
            "{host} was lost by a concurrent write"
        );
    }
}

#[test]
fn known_hosts_rejects_garbage() {
    assert!(KnownHosts::load(Some("host sha256:not-hex\n")).is_err());
    let err = KnownHosts::load(Some("# comment\n\nonly-a-host\n")).unwrap_err();
    let said = err.message("/d/known_hosts");
    assert!(said.contains("/d/known_hosts") && said.contains('3'), "{said}");
}

#[test]
fn a_known_hosts_file_that_cannot_be_read_again_is_left_alone() {
    let mut kh = KnownHosts::load(None).unwrap();
    kh.set(&HostsText::Missing, "h:1", Fingerprint([1; 32]));
    kh.refresh(&HostsText::Unreadable);
    assert_eq!(kh.entries().len(), 1);
    // Nor does a malformed one count.
    kh.refresh(&HostsText::Text("only-a-host\n".into()));
    assert_eq!(kh.entries().len(), 1);
    assert_eq!(kh.remove(&HostsText::Unreadable, "other:1"), (0, None));
    let again = KnownHosts::load(Some(&kh.save())).unwrap();
    assert_eq!(again.get("h:1"), Some(Fingerprint([1; 32])));
}

fn candidate(name: &str, pem: &str, meta: FileRead<AuthMeta>) -> Candidate {
    Candidate {
        file_name: path(name),
        cert: Ok(pem.as_bytes().to_vec()),
        meta,
    }
}

fn absent() -> FileRead<AuthMeta> {
    FileRead::Missing {
        why: "No such file or directory (os error 2)".into(),
    }
}

#[test]
fn auth_store_skips_incomplete_entries() {
    let (cert_pem, _) = generate_identity("laptop", &vec!["laptop".to_string()], 30).unwrap();
    let alice = AuthMeta {
        user: "alice".into(),
        ..Default::default()
    };
    // No .toml companion: must be ignored, not fatal.
    let (store, warnings) = AuthStore::load(
        &path("/d"),
        vec![
            candidate("laptop.crt", &cert_pem, FileRead::Parsed(alice)),
            candidate("orphan.crt", &cert_pem, absent()),
        ],
    );
    assert_eq!(store.entries().len(), 1);
    assert_eq!(store.entries()[0].meta.user, "alice");
    assert_eq!(store.fingerprints().len(), 1);
    assert!(warnings.iter().any(|w| w.contains("orphan")), "{warnings:?}");
}

#[test]
fn only_certificate_files_are_authorizations() {
    let (pem, _) = generate_identity("laptop", &vec!["laptop".to_string()], 30).unwrap();
    let alice = || {
        FileRead::Parsed(AuthMeta {
            user: "alice".into(),
            ..Default::default()
        })
    };
    let (store, warnings) = AuthStore::load(
        &path("/d"),
        vec![
            candidate("laptop.pem", &pem, alice()),
            candidate(".crt", &pem, alice()),
            candidate("laptop.toml", "user = 'x'", absent()),
        ],
    );
    assert!(store.is_empty());
    assert!(warnings.is_empty(), "{warnings:?}");
    // A name that is no text is only shown as one.
    let odd = Candidate {
        file_name: OsPath {
            bytes: b"caf\xff.crt".to_vec(),
        },
        ..candidate("", &pem, alice())
    };
    let (store, warnings) = AuthStore::load(&path("/d"), vec![odd]);
    assert_eq!(store.entries()[0].name, "?");
    assert_eq!(
        warnings,
        vec![
            "qsh-server: warning: /d/caf\u{fffd}.toml does not record which key it is for; \
             re-run `qsh-server authorize` for `?` to fix that"
        ]
    );
}

#[test]
fn files_are_taken_in_the_order_of_their_bytes() {
    // Both hold the same key: the one that is read last stays.
    let (pem, _) = generate_identity("x", &vec!["x".to_string()], 30).unwrap();
    let of = |bytes: &[u8], user: &str| Candidate {
        file_name: OsPath {
            bytes: bytes.to_vec(),
        },
        ..candidate(
            "",
            &pem,
            FileRead::Parsed(AuthMeta {
                user: user.into(),
                ..Default::default()
            }),
        )
    };
    // Byte 0x80 sorts before the text U+FFFD by which it would be shown.
    let odd = || of(b"a\x80.crt", "odd");
    let text = || of("a\u{8ff}.crt".as_bytes(), "text");
    for files in [vec![odd(), text()], vec![text(), odd()]] {
        let (store, warnings) = AuthStore::load(&path("/d"), files);
        assert_eq!(store.entries().len(), 1);
        assert_eq!(store.entries()[0].meta.user, "text");
        assert!(warnings[0].contains("/d/a\u{fffd}.toml"), "{warnings:?}");
    }
    let late = || of(b"a\xf5.crt", "late");
    let high = || of("a\u{10ffff}.crt".as_bytes(), "high");
    for files in [vec![late(), high()], vec![high(), late()]] {
        let (store, _) = AuthStore::load(&path("/d"), files);
        assert_eq!(store.entries()[0].meta.user, "late");
        assert_eq!(store.entries()[0].name, "?");
    }
}

#[test]
fn incomplete_authorizations_say_why() {
    let (pem, _) = generate_identity("x", &vec!["x".to_string()], 30).unwrap();
    let named = |user: &str| {
        FileRead::Parsed(AuthMeta {
            user: user.into(),
            ..Default::default()
        })
    };
    let why = |c: Candidate| load_entry(&path("/d"), c).unwrap_err();
    assert_eq!(
        why(candidate("a.crt", &pem, absent())),
        "reading /d/a.toml: No such file or directory (os error 2)"
    );
    assert_eq!(
        why(candidate("a.crt", &pem, named(""))),
        "/d/a.toml does not name a user"
    );
    assert_eq!(
        why(candidate("a.crt", "", named("alice"))),
        "/d/a.crt contains no certificate"
    );
    assert_eq!(
        why(Candidate {
            file_name: path("a.crt"),
            cert: Err("denied".into()),
            meta: named("alice"),
        }),
        "reading /d/a.crt: denied"
    );
    let (entry, remark) = load_entry(&path("/d"), candidate("a.crt", &pem, named("alice"))).unwrap();
    assert_eq!(entry.name, "a");
    assert!(remark.unwrap().contains("does not record which key it is for"));
    assert_eq!(cert_stem(&path("laptop.crt")), Some(path("laptop")));
    assert_eq!(cert_stem(&path("laptop.pem")), None);
    assert_eq!(cert_stem(&path(".crt")), None);
}

#[test]
fn the_store_is_ordered_and_keeps_one_entry_per_key() {
    let mut store = AuthStore::new();
    assert!(store.is_empty());
    for (name, seed) in [("c", 3), ("a", 1), ("b", 2), ("a2", 1)] {
        store.insert(AuthEntry {
            name: name.into(),
            fingerprint: Fingerprint([seed; 32]),
            meta: AuthMeta::default(),
        });
    }
    let names: Vec<&str> = store.entries().iter().map(|e| e.name.as_str()).collect();
    assert_eq!(names, vec!["a2", "b", "c"]);
    assert_eq!(store.lookup(&Fingerprint([2; 32])).unwrap().name, "b");
    assert!(store.lookup(&Fingerprint([9; 32])).is_none());
}

#[test]
fn server_config_defaults_apply_to_missing_file() {
    let missing = FileRead::Missing {
        why: "No such file or directory (os error 2)".into(),
    };
    let cfg = ServerConfig::load("/nonexistent/qsh-server.toml", missing).unwrap();
    assert_eq!(cfg.listen, format!("0.0.0.0:{DEFAULT_PORT}"));
    let (host, port) = cfg.listen.rsplit_once(':').unwrap();
    assert_eq!(port.parse::<u16>(), Ok(DEFAULT_PORT));
    assert!(host.split('.').all(|octet| octet.parse::<u8>().is_ok()));
    assert_eq!(cfg.idle_timeout_secs, 60);
    assert_eq!(cfg.keepalive_secs, 15);
}

#[test]
fn explicit_server_config_must_exist() {
    let missing = FileRead::Missing {
        why: "No such file or directory (os error 2)".into(),
    };
    let error = ServerConfig::load_required("/d/missing.toml", missing).unwrap_err();
    assert!(error.missing);
}

#[test]
fn both_config_loaders_preserve_values_and_report_invalid_files() {
    let path = "/d/server.toml";
    let parsed = || {
        FileRead::Parsed(ServerConfig {
            listen: "127.0.0.1:3333".into(),
            idle_timeout_secs: 300,
            ..Default::default()
        })
    };
    for cfg in [
        ServerConfig::load(path, parsed()),
        ServerConfig::load_required(path, parsed()),
    ] {
        let cfg = cfg.unwrap();
        assert_eq!(cfg.listen, "127.0.0.1:3333");
        assert_eq!(cfg.idle_timeout_secs, 300);
    }
    let invalid = || FileRead::Invalid {
        why: "expected `=`".into(),
    };
    assert_eq!(
        ServerConfig::load(path, invalid()).unwrap_err().message,
        "parsing /d/server.toml: expected `=`"
    );
    assert!(ServerConfig::load_required(path, invalid()).is_err());
    let unreadable = || FileRead::Unreadable {
        why: "Is a directory (os error 21)".into(),
    };
    let error = ServerConfig::load("/d", unreadable()).unwrap_err();
    assert!(!error.missing);
    assert_eq!(error.message, "reading /d: Is a directory (os error 21)");
    assert!(ServerConfig::load_required("/d", unreadable()).is_err());
}

#[test]
fn directories_are_discovered() {
    let some = |s: &str| Some(path(s));
    assert_eq!(client_dir(some("/h"), some("/c")).unwrap(), path("/h"));
    assert_eq!(client_dir(None, some("/c")).unwrap(), path("/c/qsh"));
    assert!(client_dir(None, None).is_err());
    assert_eq!(server_dir(some("/s"), true, None).unwrap(), path("/s"));
    assert_eq!(server_dir(None, true, some("/c")).unwrap(), path("/etc/qsh"));
    assert_eq!(
        server_dir(None, false, some("/c")).unwrap(),
        path("/c/qsh-server")
    );
    assert!(server_dir(None, false, None).is_err());
    let paths = ClientPaths::discover(None, some("/c")).unwrap();
    assert_eq!(paths.cert(), path("/c/qsh/id.crt"));
    assert_eq!(paths.key(), path("/c/qsh/id.key"));
    assert_eq!(paths.known_hosts(), path("/c/qsh/known_hosts"));
    let paths = ServerPaths::discover(None, true, None).unwrap();
    assert_eq!(paths.cert(), path("/etc/qsh/server.crt"));
    assert_eq!(paths.key(), path("/etc/qsh/server.key"));
    assert_eq!(paths.config(), path("/etc/qsh/qsh-server.toml"));
    assert_eq!(paths.authorized(), path("/etc/qsh/authorized"));
    // A directory need not be text.
    let odd = OsPath {
        bytes: b"/h\xff".to_vec(),
    };
    let paths = ClientPaths::discover(Some(odd), None).unwrap();
    assert_eq!(paths.cert().bytes, b"/h\xff/id.crt");
    assert_eq!(paths.cert().text(), None);
    assert_eq!(paths.cert().shown(), "/h\u{fffd}/id.crt");
    assert_eq!(path("/caf\u{e9}").shown(), "/caf\u{e9}");
    assert_eq!(path("/caf\u{e9}").text().as_deref(), Some("/caf\u{e9}"));
    assert_eq!(path("/d/").join("x"), path("/d/x"));
    assert_eq!(path("").join("x"), path("x"));
}

#[test]
fn a_hand_written_known_hosts_file_keeps_its_pins() {
    let (a, b) = (fp("a"), fp("b"));
    let theirs = format!(
        "\n# mine\n  h:1   {}  a comment\r\n\tother:2 {}\n",
        a.to_string(),
        b.to_string().to_uppercase().replace("SHA256", "sha256")
    );
    let mut kh = KnownHosts::load(None).unwrap();
    let new = kh.set(&HostsText::Text(theirs), "h:1", b);
    let read = KnownHosts::load(Some(&new)).unwrap();
    assert_eq!(read.entries(), kh.entries());
    assert_eq!(read.get("h:1"), Some(b));
    assert_eq!(read.get("other:2"), Some(b));
    // A host that is no word cannot be read back.
    let mut kh = KnownHosts::load(None).unwrap();
    let new = kh.set(&HostsText::Missing, "two words", a);
    assert!(KnownHosts::load(Some(&new)).is_err());
}
