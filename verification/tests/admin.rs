use qsh::admin::{
    authorize_report, choose_entry_name, config_file, config_path, entry_paths, host_names,
    host_report, list_authorized, list_entry, may_replace_host, no_host_identity, plan_authorize,
    policy_file, remove_entry, revoked, server_config, validate_entry_name, AuthorizeArgs, Change,
};
use qsh::config::{
    load_entry, AuthEntry, AuthMeta, AuthStore, Candidate, FileRead, ServerConfig, ServerPaths,
};
use qsh::crypto::{cert_from_pem, generate_identity, Fingerprint};
use qsh::path::OsPath;

fn path(text: &str) -> OsPath {
    OsPath::of_text(text)
}

fn asked() -> AuthorizeArgs {
    AuthorizeArgs {
        user: "alice".into(),
        no_shell: false,
        no_exec: false,
        commands: Vec::new(),
        expires_in_days: None,
        force: false,
    }
}

fn entry(name: &str, seed: u8, meta: AuthMeta) -> AuthEntry {
    AuthEntry {
        name: name.into(),
        fingerprint: Fingerprint([seed; 32]),
        meta,
    }
}

fn key(seed: &str) -> (String, Fingerprint) {
    let (pem, _) = generate_identity(seed, &vec![seed.to_string()], 30).unwrap();
    let fp = Fingerprint::of_cert(&cert_from_pem(&pem).unwrap()).unwrap();
    (pem, fp)
}

#[test]
fn revoke_cannot_escape_the_authorized_directory() {
    for name in ["../server", "/etc/passwd", "a/b", "..", ".hidden", "a b", "caf\u{e9}"] {
        let err = remove_entry(&path("/etc/qsh/authorized"), name, true, true)
            .unwrap_err()
            .message();
        assert_eq!(
            err,
            format!(
                "entry name `{name}` must be alphanumeric with `-`, `_` or `.`, \
                 and may not start with `.`"
            )
        );
    }
    assert_eq!(
        validate_entry_name("").unwrap_err().message(),
        "entry name must not be empty"
    );
    assert!(validate_entry_name("my-laptop_2.home").is_ok());
    assert_eq!(
        remove_entry(&path("/etc/qsh/authorized"), "laptop", true, true).unwrap(),
        vec![
            path("/etc/qsh/authorized/laptop.crt"),
            path("/etc/qsh/authorized/laptop.toml")
        ]
    );
    assert_eq!(
        remove_entry(&path("/d"), "laptop", false, true).unwrap(),
        vec![path("/d/laptop.toml")]
    );
    assert_eq!(revoked("laptop", 2).unwrap(), "Revoked `laptop`.");
    assert_eq!(
        revoked("laptop", 0).unwrap_err(),
        "no authorization named `laptop`"
    );
}

#[test]
fn entry_names_come_from_the_certificate_file() {
    let name = |n: Option<&str>, f: &str| choose_entry_name(n.map(str::to_owned), &path(f));
    assert_eq!(name(Some("given"), "/tmp/x.crt").unwrap(), "given");
    assert_eq!(name(None, "/tmp/alice-box.crt").unwrap(), "alice-box");
    assert_eq!(name(None, "/tmp/a.b.crt").unwrap(), "a.b");
    assert_eq!(name(None, "plain").unwrap(), "plain");
    assert_eq!(name(None, "/tmp/..").unwrap(), "client");
    assert_eq!(name(None, "").unwrap(), "client");
    assert!(name(None, "/tmp/.crt").is_err());
    assert!(name(Some(""), "x").is_err());
    // Only the name itself has to be text.
    let odd = |bytes: &[u8]| {
        choose_entry_name(
            None,
            &OsPath {
                bytes: bytes.to_vec(),
            },
        )
    };
    assert_eq!(odd(b"/tmp\xff/laptop.cr\xff").unwrap(), "laptop");
    assert_eq!(odd(b"/tmp/lap\xfftop.crt").unwrap(), "client");
    assert_eq!(
        entry_paths(&path("/d/"), "x"),
        (path("/d/x.crt"), path("/d/x.toml"))
    );
}

#[test]
fn authorizing_plans_policy_before_certificate() {
    let store = AuthStore::new();
    let fp = Fingerprint([7; 32]);
    let args = AuthorizeArgs {
        no_shell: true,
        commands: vec!["rsync".into(), "borg".into()],
        expires_in_days: Some(2),
        ..asked()
    };
    let plan = plan_authorize(&args, &path("/d"), "laptop", fp, false, &store, 1_000).unwrap();
    assert_eq!(plan.policy.user, "alice");
    assert!(!plan.policy.allow_shell);
    assert!(plan.policy.allow_exec);
    assert_eq!(plan.policy.allowed_commands, vec!["rsync", "borg"]);
    assert_eq!(
        plan.policy.key_fingerprint,
        Some(format!("sha256:{}", "07".repeat(32)))
    );
    assert_eq!(plan.policy.expires_at_unix, Some(1_000 + 2 * 86_400));
    assert!(plan.replaced.is_none());
    assert_eq!(plan.changes.len(), 2);
    assert!(matches!(&plan.changes[0], Change::WritePolicy { path } if *path == self::path("/d/laptop.toml")));
    assert!(
        matches!(&plan.changes[1], Change::WriteCertificate { path } if *path == self::path("/d/laptop.crt"))
    );
    assert_eq!(
        authorize_report(&args, "laptop", fp, &plan.replaced),
        vec![
            format!(
                "Authorized `laptop` (sha256:{}) as user `alice`.",
                "07".repeat(32)
            ),
            "Expires in 2 days; after that the key is refused.".to_string(),
            "Restricted to: rsync, borg".to_string(),
            "Interactive shells are refused for this key.".to_string(),
            "The change takes effect within a second; no restart needed.".to_string(),
        ]
    );
    assert_eq!(
        policy_file("laptop", "user = \"alice\"\n"),
        "# authorized qsh client `laptop`\nuser = \"alice\"\n"
    );
}

#[test]
fn authorizing_refuses_conflicts_unless_forced() {
    let mut store = AuthStore::new();
    store.insert(entry("old", 7, AuthMeta::default()));
    let fp = Fingerprint([7; 32]);
    let args = asked();
    assert_eq!(
        plan_authorize(&args, &path("/d"), "new", fp, true, &store, 0).unwrap_err(),
        "/d/new.crt already exists; pass --force to replace it"
    );
    assert_eq!(
        plan_authorize(&args, &path("/d"), "new", fp, false, &store, 0).unwrap_err(),
        "that key is already authorized as `old`; revoke it first or pass --force"
    );
    // The same name is not a conflict with itself.
    assert!(plan_authorize(&args, &path("/d"), "old", fp, false, &store, 0).is_ok());

    let forced = AuthorizeArgs {
        force: true,
        no_exec: true,
        expires_in_days: Some(u32::MAX),
        ..asked()
    };
    let plan = plan_authorize(&forced, &path("/d"), "new", fp, true, &store, i64::MAX - 5).unwrap();
    assert_eq!(plan.replaced.as_deref(), Some("old"));
    assert_eq!(plan.policy.expires_at_unix, Some(i64::MAX));
    assert!(matches!(&plan.changes[2], Change::RemoveEntry { name } if name == "old"));
    let said = authorize_report(&forced, "new", fp, &plan.replaced);
    assert_eq!(
        said[1],
        "Removed the previous authorization `old` for the same key."
    );
    assert_eq!(
        said[2],
        "Expires in 4294967295 days; after that the key is refused."
    );
    assert_eq!(said[3], "Remote commands are refused for this key.");
}

#[test]
fn a_torn_authorize_cannot_pair_a_new_key_with_a_legacy_policy() {
    let (old_pem, _) = key("old");
    let (new_pem, new_fp) = key("new");
    let legacy = || AuthMeta {
        user: "alice".into(),
        ..AuthMeta::default()
    };
    let plan = plan_authorize(
        &AuthorizeArgs {
            force: true,
            no_shell: true,
            ..asked()
        },
        &path("/d"),
        "laptop",
        new_fp,
        true,
        &AuthStore::new(),
        0,
    )
    .unwrap();
    // Nothing written yet: the old pair still applies.
    let before = Candidate {
        file_name: path("laptop.crt"),
        cert: Ok(old_pem.clone().into_bytes()),
        meta: FileRead::Parsed(legacy()),
    };
    assert!(load_entry(&path("/d"), before).is_ok());
    // The policy alone: the old certificate no longer matches it.
    let torn = Candidate {
        file_name: path("laptop.crt"),
        cert: Ok(old_pem.into_bytes()),
        meta: FileRead::Parsed(plan.policy.duplicate()),
    };
    let why = load_entry(&path("/d"), torn).unwrap_err();
    assert!(why.contains("/d/laptop.toml was written for key sha256:"), "{why}");
    // Both: the new key under the new policy.
    let done = Candidate {
        file_name: path("laptop.crt"),
        cert: Ok(new_pem.into_bytes()),
        meta: FileRead::Parsed(plan.policy),
    };
    let (loaded, remark) = load_entry(&path("/d"), done).unwrap();
    assert_eq!(loaded.fingerprint.to_string(), new_fp.to_string());
    assert!(!loaded.meta.allow_shell);
    assert!(remark.is_none());
}

#[test]
fn authorizations_are_listed_with_their_notes() {
    let mut store = AuthStore::new();
    assert_eq!(
        list_authorized("/d", &store, 0),
        vec!["no authorized clients in /d"]
    );
    store.insert(entry(
        "laptop",
        2,
        AuthMeta {
            user: "alice".into(),
            allow_shell: false,
            allowed_commands: vec!["rsync".into(), "borg".into()],
            expires_at_unix: Some(1_000 + 3 * 86_400 + 5),
            ..AuthMeta::default()
        },
    ));
    store.insert(entry(
        "a-very-long-entry-name",
        1,
        AuthMeta {
            user: "bob".into(),
            ..AuthMeta::default()
        },
    ));
    assert_eq!(
        list_authorized("/d", &store, 1_000),
        vec![
            format!(
                "a-very-long-entry-name bob          sha256:{}",
                "01".repeat(32)
            ),
            format!(
                "laptop           alice        sha256:{}  [no-shell commands=rsync+borg expires in 3d]",
                "02".repeat(32)
            ),
        ]
    );
    let gone = entry(
        "x",
        3,
        AuthMeta {
            user: "carol".into(),
            allow_exec: false,
            expires_at_unix: Some(10),
            ..AuthMeta::default()
        },
    );
    assert_eq!(
        list_entry(&gone, 11),
        format!(
            "x                carol        sha256:{}  [no-exec EXPIRED]",
            "03".repeat(32)
        )
    );
    assert!(list_entry(&gone, 10).ends_with("[no-exec expires in 0d]"));
}

#[test]
fn host_identities() {
    assert!(may_replace_host("/etc/qsh/server.crt", true, true).is_ok());
    assert!(may_replace_host("/etc/qsh/server.crt", false, false).is_ok());
    assert_eq!(
        may_replace_host("/etc/qsh/server.crt", true, false).unwrap_err(),
        "/etc/qsh/server.crt already exists; pass --force to replace the host identity \
         (every client would have to re-pin it)"
    );
    assert_eq!(host_names(Vec::new(), "box"), vec!["box", "localhost"]);
    assert_eq!(host_names(vec!["h".into()], "box"), vec!["h"]);
    assert_eq!(
        config_file("listen = \"x\"\n"),
        "# qsh-server configuration\nlisten = \"x\"\n"
    );
    let paths = ServerPaths::new(path("/etc/qsh"));
    let fp = Fingerprint([1; 32]);
    let lines = host_report(&paths, fp, 10, true);
    assert_eq!(lines[0], "Wrote /etc/qsh/qsh-server.toml");
    assert_eq!(lines[1], "Wrote /etc/qsh/server.key");
    assert_eq!(lines[2], "Wrote /etc/qsh/server.crt");
    assert_eq!(lines[3], format!("Host key: sha256:{}", "01".repeat(32)));
    assert_eq!(lines[4], "Valid for 10 days.");
    assert_eq!(lines[5], "");
    assert_eq!(lines[6], "Clients can pin this key without a prompt:");
    assert_eq!(
        lines[7],
        format!("  qsh known-hosts add <host>:2222 sha256:{}", "01".repeat(32))
    );
    assert_eq!(host_report(&paths, fp, 10, false).len(), 7);
    assert_eq!(
        no_host_identity(&paths),
        "no host identity in /etc/qsh (run `qsh-server keygen`)"
    );
}

#[test]
fn explicitly_missing_server_config_fails_before_startup() {
    let paths = ServerPaths::new(path("/etc/qsh"));
    let missing = || FileRead::Missing {
        why: "No such file or directory (os error 2)".into(),
    };
    let named = Some(path("/tmp/missing.toml"));
    assert_eq!(config_path(&named, &paths), path("/tmp/missing.toml"));
    assert_eq!(config_path(&None, &paths), path("/etc/qsh/qsh-server.toml"));
    let err = server_config(&named, &paths, missing()).unwrap_err();
    assert!(err.missing);
    assert_eq!(
        err.message,
        "reading /tmp/missing.toml: No such file or directory (os error 2)"
    );
    assert_eq!(
        server_config(&None, &paths, missing()).unwrap().listen,
        "0.0.0.0:2222"
    );
    let given = ServerConfig {
        listen: "127.0.0.1:1".into(),
        idle_timeout_secs: 1,
        keepalive_secs: 1,
    };
    assert_eq!(
        server_config(&named, &paths, FileRead::Parsed(given))
            .unwrap()
            .listen,
        "127.0.0.1:1"
    );
}
