use qsh::cgroup::{
    after_create, check_target, is_below, join, join_pre_exec, leaf_name, parse_unified_membership,
    require_cgroup2, require_held, require_private_root, require_root_control, require_root_owned,
    service_chain, JoinStep, KillStep, LeafAttempt, LeafStep, MembershipError, RemoveAttempt,
    RemoveStep, SessionCgroup, Stat, TreeStat, CGROUP2_MAGIC,
};
use qsh::child::{
    current_user, describe, groups_needed, home_of, needs_identity_switch, plan_launch,
    prepare_identity, process_group, resolve_user, sanitize_term, shell_of, signal_process_group,
    Account, DropReply, DropStep, Ids, Platform, Target,
};
use qsh::net::transport_config;
use qsh::path::OsPath;
use qsh::proto::{PtyRequest, PtySize, Request, PROTOCOL_VERSION};
use qsh::pty::{poll_read, MasterRead, Output, RawMode};

fn path(text: &str) -> OsPath {
    OsPath::of_text(text)
}

#[test]
fn parses_only_one_absolute_unified_membership() {
    assert_eq!(
        parse_unified_membership("0::/system.slice/qsh.service\n").unwrap(),
        "system.slice/qsh.service"
    );
    assert!(parse_unified_membership("3:memory:/x\n").is_err());
    assert!(parse_unified_membership("0::relative\n").is_err());
    assert!(parse_unified_membership("0::/ok\n0::/bad\n").is_err());
    assert!(parse_unified_membership("0::/../escape\n").is_err());
    assert_eq!(
        parse_unified_membership("3:memory:/x\n").unwrap_err(),
        MembershipError::NotUnified
    );
    assert_eq!(
        parse_unified_membership("0::relative\n").unwrap_err(),
        MembershipError::NotAbsolute
    );
    assert_eq!(
        parse_unified_membership("0::/ok\n0::/bad\n").unwrap_err(),
        MembershipError::Ambiguous
    );
    assert_eq!(
        parse_unified_membership("0::/../escape\n").unwrap_err(),
        MembershipError::InvalidComponent
    );
    assert_eq!(parse_unified_membership("1:x:/y\n0::/\n").unwrap(), "");
}

fn root_dir(mode: u32) -> Stat {
    Stat {
        is_dir: true,
        is_file: false,
        uid: 0,
        mode,
    }
}

fn root_file(mode: u32) -> Stat {
    Stat {
        is_dir: false,
        is_file: true,
        uid: 0,
        mode,
    }
}

#[test]
fn cgroups_must_belong_to_root() {
    assert!(require_root_owned("/c", root_dir(0o755)).is_ok());
    assert_eq!(
        require_root_owned("/c", root_dir(0o775)).unwrap_err(),
        "/c must be a root-owned cgroup not writable by other users"
    );
    assert!(require_root_owned(
        "/c",
        Stat {
            uid: 5,
            ..root_dir(0o755)
        }
    )
    .is_err());
    assert!(require_root_owned("/c", root_file(0o644)).is_err());
    assert!(require_root_control("/c/cgroup.kill", root_file(0o200)).is_ok());
    assert!(require_root_control("/c/cgroup.kill", root_dir(0o700)).is_err());
    let tree = TreeStat {
        dir: root_dir(0o700),
        procs: root_file(0o644),
        threads: root_file(0o644),
        kill: root_file(0o200),
    };
    assert!(require_held("/c", &tree).is_ok());
    assert!(require_private_root("/c", &tree).is_ok());
    let open = TreeStat {
        dir: root_dir(0o755),
        ..tree
    };
    assert!(require_held("/c", &open).is_ok());
    assert_eq!(
        require_private_root("/c", &open).unwrap_err(),
        "/c must be private to root (mode 0700)"
    );
    assert!(require_cgroup2("/c", CGROUP2_MAGIC).is_ok());
    assert_eq!(
        require_cgroup2("/c", 1).unwrap_err(),
        "/c is not on a cgroup v2 filesystem"
    );
    assert!(check_target(0, 1000).is_ok());
    assert_eq!(
        check_target(1000, 1000).unwrap_err(),
        "restricted sessions require qsh-server to run as root"
    );
    assert_eq!(
        check_target(0, 0).unwrap_err(),
        "restricted sessions cannot constrain a root login"
    );
}

#[test]
fn every_ancestor_of_a_leaf_is_checked() {
    assert!(is_below("/sys/fs/cgroup", "/sys/fs/cgroup/a/b"));
    assert!(is_below("/sys/fs/cgroup", "/sys/fs/cgroup"));
    assert!(!is_below("/sys/fs/cgroup", "/sys/fs/cgroup2"));
    let chain = service_chain("/m", "/m/a/b").unwrap();
    assert!(chain.iter().any(|p| p == "/m/a"));
    assert!(chain.iter().any(|p| p == "/m/a/b"));
    assert!(service_chain("/m", "/elsewhere").is_none());
    // Everything is below the root.
    assert!(is_below("/", "/a"));
    assert!(is_below("/", "/"));
    assert!(!is_below("/", "a"));
    assert_eq!(
        service_chain("/", "/a/b").unwrap(),
        vec!["/a/b", "/a", "/"]
    );
    assert_eq!(join("/d/", "x"), "/d/x");
    assert_eq!(join("/d", "x"), "/d/x");
    assert_eq!(join("", "x"), "x");
    assert_eq!(leaf_name(42, 0xab), "session-42-00000000000000ab");
    assert_ne!(leaf_name(4, 2), leaf_name(42, 2));
    assert_ne!(leaf_name(42, 1), leaf_name(42, 0x10));
}

#[test]
fn leaves_are_created_killed_and_removed() {
    assert_eq!(after_create(0, LeafAttempt::Created), LeafStep::Use);
    assert_eq!(after_create(0, LeafAttempt::AlreadyExists), LeafStep::Again);
    assert_eq!(
        after_create(31, LeafAttempt::AlreadyExists),
        LeafStep::GiveUp
    );
    assert_eq!(after_create(0, LeafAttempt::Failed), LeafStep::Fail);

    let mut leaf = SessionCgroup::new();
    assert_eq!(leaf.kill(), KillStep::Write);
    assert!(!leaf.close());
    leaf.kill_written(false);
    assert_eq!(leaf.kill(), KillStep::Write);
    leaf.kill_written(true);
    assert_eq!(leaf.kill(), KillStep::Nothing);
    assert!(leaf.close());
    assert_eq!(
        leaf.remove_empty(0, RemoveAttempt::Populated),
        RemoveStep::Wait
    );
    assert_eq!(
        leaf.remove_empty(79, RemoveAttempt::Populated),
        RemoveStep::Fail
    );
    assert!(!leaf.removed);
    assert_eq!(
        leaf.remove_empty(3, RemoveAttempt::NotFound),
        RemoveStep::Gone
    );
    assert!(leaf.removed);
    assert_eq!(join_pre_exec(1, false), JoinStep::Joined);
    assert_eq!(join_pre_exec(0, false), JoinStep::FailIo);
    assert_eq!(join_pre_exec(-1, true), JoinStep::Again);
    assert_eq!(join_pre_exec(-1, false), JoinStep::Fail);
}

#[test]
fn term_is_sanitized() {
    assert_eq!(sanitize_term("xterm-256color"), "xterm-256color");
    assert_eq!(sanitize_term("x;rm -rf /"), "xrm-rf");
    assert_eq!(sanitize_term(""), "dumb");
    assert_eq!(sanitize_term(&"a".repeat(200)).len(), 64);
}

fn account(name: &str, uid: u32, gid: u32) -> Account {
    Account {
        name: name.into(),
        uid,
        gid,
        dir: path(&format!("/home/{name}")),
        dir_exists: true,
        shell: path("/bin/bash"),
    }
}

fn same(id: u32) -> Ids {
    Ids {
        real: id,
        effective: id,
        saved: id,
    }
}

#[test]
fn switching_user_without_root_is_refused() {
    let other = account("root", 0, 0);
    let me = account("me", 1000, 1000);
    for platform in [Platform::SavedIds, Platform::ChangeFlag, Platform::Unsafe] {
        let switch =
            |user: &Account, ids: Ids| needs_identity_switch(user, platform, ids, ids, false);
        let err = switch(&other, same(1000)).unwrap_err();
        assert!(err.contains("not running as root"), "{err}");
        assert!(!switch(&me, same(1000)).unwrap());
        assert!(switch(&me, same(0)).unwrap());
    }
}

#[test]
fn changed_credentials_count_where_saved_ones_are_out_of_sight() {
    let me = account("me", 1000, 1000);
    let saved_root = Ids {
        saved: 0,
        ..same(1000)
    };
    let switch = |platform, ids, changed| needs_identity_switch(&me, platform, ids, ids, changed);
    assert!(switch(Platform::SavedIds, saved_root, false).is_err());
    assert!(!switch(Platform::ChangeFlag, saved_root, false).unwrap());
    assert_eq!(
        switch(Platform::ChangeFlag, saved_root, true).unwrap_err(),
        "cannot run as `me`: qsh-server has changed credentials"
    );
    assert!(switch(Platform::ChangeFlag, same(0), true).unwrap());
    assert!(!switch(Platform::SavedIds, same(1000), true).unwrap());

    // There the plain calls reset the saved IDs too.
    let target = Target {
        switch: true,
        platform: Platform::ChangeFlag,
        uid: 1000,
        gid: 1000,
    };
    let plain = DropReply::Plain {
        uid: 1000,
        euid: 1000,
        gid: 1000,
        egid: 1000,
    };
    let mut step = target.start();
    for (expected, reply) in [
        (DropStep::SetGroups, DropReply::Succeeded),
        (DropStep::SetGroupId, DropReply::Succeeded),
        (DropStep::SetUserId, DropReply::Succeeded),
        (DropStep::ReadPlainIds, plain),
        (DropStep::RegainUser, DropReply::Failed),
        (DropStep::RegainGroup, DropReply::Failed),
    ] {
        assert_eq!(step, expected);
        step = target.drop_privileges(step, reply);
    }
    assert_eq!(step, DropStep::Done);
    assert_eq!(
        target.drop_privileges(DropStep::SetUserId, DropReply::Failed),
        DropStep::CallFailed
    );
    // Elsewhere no identity can be taken on.
    let nowhere = Target {
        platform: Platform::Unsafe,
        ..target
    };
    assert_eq!(
        nowhere.drop_privileges(DropStep::SetGroups, DropReply::Succeeded),
        DropStep::Unsupported
    );
}

#[test]
fn mixed_credentials_cannot_reach_remote_exec() {
    let user = account("nobody", 65534, 65534);
    // A saved root identity counts: the process could take it up again.
    let saved_root = Ids {
        saved: 0,
        ..same(65534)
    };
    let needed = |user: &Account, ids: Ids, name: Result<(), String>| {
        groups_needed(user, Platform::SavedIds, ids, ids, false, name)
    };
    let err = needed(&user, saved_root, Ok(())).unwrap_err();
    assert!(err.contains("not running as root"), "{err}");
    let effective_root = Ids {
        real: 65534,
        effective: 0,
        saved: 0,
    };
    assert!(needed(&user, effective_root, Ok(())).unwrap());
    let nul = || Err("nul byte found in provided data at position: 1".to_string());
    assert_eq!(
        needed(&account("a\0b", 1, 1), same(0), nul()).unwrap_err(),
        "user name contains a NUL byte: nul byte found in provided data at position: 1"
    );
    // The name is looked at without a change of identity too, but after it.
    assert!(needed(&account("a\0b", 1, 1), same(1), nul())
        .unwrap_err()
        .starts_with("user name contains a NUL byte: "));
    assert!(needed(&account("a\0b", 1, 1), same(2), nul())
        .unwrap_err()
        .contains("not running as root"));
    let target = Target {
        switch: true,
        platform: Platform::SavedIds,
        uid: 65534,
        gid: 65534,
    };
    let mut step = target.start();
    let done = Ids {
        ..same(65534)
    };
    for (expected, reply) in [
        (DropStep::SetGroups, DropReply::Succeeded),
        (DropStep::SetGroupIds, DropReply::Succeeded),
        (DropStep::SetUserIds, DropReply::Succeeded),
        (DropStep::ReadGroupIds, DropReply::Ids(done)),
        (DropStep::ReadUserIds(done), DropReply::Ids(done)),
        (
            DropStep::ReadPlainIds,
            DropReply::Plain {
                uid: 65534,
                euid: 65534,
                gid: 65534,
                egid: 65534,
            },
        ),
        (DropStep::RegainUser, DropReply::Failed),
        (DropStep::RegainGroup, DropReply::Failed),
    ] {
        assert_eq!(step, expected);
        step = target.drop_privileges(step, reply);
    }
    assert_eq!(step, DropStep::Done);
    // Root that can be had again is not dropped.
    assert_eq!(
        target.drop_privileges(DropStep::RegainUser, DropReply::Succeeded),
        DropStep::NotDropped
    );
    assert_eq!(
        target.drop_privileges(DropStep::ReadUserIds(done), DropReply::Ids(saved_root)),
        DropStep::NotDropped
    );
    assert_eq!(
        target.drop_privileges(DropStep::SetGroups, DropReply::Failed),
        DropStep::CallFailed
    );
    assert_eq!(
        prepare_identity(&user, true, Ok(vec![1, 2])).unwrap().groups,
        vec![1, 2]
    );
    assert!(prepare_identity(&user, false, Ok(vec![1]))
        .unwrap()
        .groups
        .is_empty());
    assert_eq!(
        prepare_identity(&user, true, Err("no".into())).unwrap_err(),
        "looking up the groups of `nobody`: no"
    );
}

fn request(argv: Option<&[&str]>, pty: bool) -> Request {
    Request {
        version: PROTOCOL_VERSION,
        user: None,
        command: argv.map(|a| a.iter().map(|s| (*s).to_owned()).collect()),
        pty: if pty {
            Some(PtyRequest {
                term: "xterm".into(),
                size: PtySize { cols: 80, rows: 24 },
            })
        } else {
            None
        },
        env: Vec::new(),
    }
}

fn last_value(env: &[(String, OsPath)], name: &str) -> Option<String> {
    env.iter()
        .rev()
        .find(|(k, _)| k == name)
        .map(|(_, v)| v.text().unwrap())
}

#[test]
fn environment_is_scrubbed() {
    let user = account("alice", 1000, 1000);
    let mut req = request(Some(&["sh", "-c", "x"]), false);
    req.env = vec![
        ("LD_PRELOAD".into(), "/evil.so".into()),
        ("LC_ALL".into(), "C".into()),
        ("PATH".into(), "/evil".into()),
    ];
    let plan = plan_launch(&user, &req);
    assert_eq!(last_value(&plan.env, "LD_PRELOAD"), None);
    assert_eq!(last_value(&plan.env, "TERM"), None);
    assert_eq!(last_value(&plan.env, "LC_ALL").as_deref(), Some("C"));
    assert_eq!(
        last_value(&plan.env, "PATH").as_deref(),
        Some("/usr/local/bin:/usr/bin:/bin:/usr/local/sbin:/usr/sbin:/sbin")
    );
    assert_eq!(last_value(&plan.env, "USER").as_deref(), Some("alice"));
    assert_eq!(last_value(&plan.env, "LOGNAME").as_deref(), Some("alice"));
    assert_eq!(last_value(&plan.env, "SHELL").as_deref(), Some("/bin/bash"));
    assert_eq!(
        last_value(&plan.env, "HOME").as_deref(),
        Some("/home/alice")
    );
    assert_eq!(plan.current_dir, path("/home/alice"));
}

#[test]
fn explicit_term_is_sanitized_in_pty_and_pipe_sessions() {
    let user = account("alice", 1000, 1000);
    for pty in [false, true] {
        for (value, expected) in [
            ("evil term\n../x".to_owned(), "evilterm..x".to_owned()),
            ("\u{2603}\n/".to_owned(), "dumb".to_owned()),
            ("a".repeat(200), "a".repeat(64)),
            ("xterm-256color".to_owned(), "xterm-256color".to_owned()),
        ] {
            let mut req = request(Some(&["printenv", "TERM"]), pty);
            req.env = vec![
                ("TERM".into(), "earlier".into()),
                ("TERM".into(), value),
                ("TERM".into(), "ignored\0value".into()),
            ];
            let plan = plan_launch(&user, &req);
            assert_eq!(last_value(&plan.env, "TERM"), Some(expected));
            assert_eq!(plan.pty.is_some(), pty);
        }
    }
}

#[test]
fn arguments_are_passed_without_a_shell() {
    let user = account("alice", 1000, 1000);
    let plan = plan_launch(&user, &request(Some(&["echo", "a b", "$HOME"]), false));
    assert_eq!(plan.program, path("echo"));
    assert_eq!(plan.args, vec!["a b", "$HOME"]);
    assert!(plan.arg0.is_none());
    let plan = plan_launch(&user, &request(None, true));
    assert_eq!(plan.program, path("/bin/bash"));
    assert_eq!(plan.arg0.as_deref(), Some("-bash"));
    assert!(plan.args.is_empty());
    assert_eq!(
        describe(&Some(vec!["ls".into(), "-l".into()]), &path("/bin/sh")),
        "executing `ls`"
    );
    assert_eq!(describe(&None, &path("/bin/sh")), "starting login shell `/bin/sh`");
}

#[test]
fn accounts_are_resolved() {
    let mut user = account("alice", 1000, 1000);
    assert_eq!(home_of(&user), path("/home/alice"));
    user.dir_exists = false;
    user.shell = path("");
    assert_eq!(home_of(&user), path("/"));
    assert_eq!(shell_of(&user), path("/bin/sh"));
    assert_eq!(
        resolve_user("alice", Ok(Some(user))).unwrap().name,
        "alice"
    );
    assert_eq!(
        current_user(Ok(Some(account("qsh", 7, 8)))).unwrap().gid,
        8
    );
    assert_eq!(
        current_user(Ok(None)).unwrap_err(),
        "the current uid has no passwd entry"
    );
    assert_eq!(
        current_user(Err("io".into())).unwrap_err(),
        "looking up the current user: io"
    );
    assert_eq!(
        resolve_user("bob", Ok(None)).unwrap_err(),
        "no such local user: `bob`"
    );
    assert_eq!(
        resolve_user("bob", Err("io".into())).unwrap_err(),
        "looking up user `bob`: io"
    );
    assert_eq!(path("/bin/bash").file_name(), Some(path("bash")));
    assert_eq!(path("/bin/bash/").file_name(), Some(path("bash")));
    assert_eq!(path("/bin/bash/.").file_name(), Some(path("bash")));
    assert_eq!(path("/bin/..").file_name(), None);
    assert_eq!(path("/").file_name(), None);
    // A home need not be text: it is handed on as it is.
    let mut odd = account("odd", 1, 1);
    odd.dir = OsPath {
        bytes: b"/home/\xff".to_vec(),
    };
    let plan = plan_launch(&odd, &request(Some(&["id"]), false));
    assert_eq!(plan.current_dir.bytes, b"/home/\xff");
    let home = plan.env.iter().find(|(k, _)| k == "HOME").unwrap();
    assert_eq!(home.1.bytes, b"/home/\xff");
}

#[test]
fn signals_reach_the_child() {
    assert_eq!(process_group(7), Some(7));
    assert_eq!(signal_process_group(7, 15), Some((7, 15)));
    assert_eq!(signal_process_group(u32::MAX, 15), None);
}

#[test]
fn keepalive_never_exceeds_the_idle_timeout() {
    // A misconfigured keepalive longer than the idle timeout would drop
    // every connection; it must be clamped instead.
    let plan = transport_config(10, 600).unwrap();
    assert_eq!(plan.idle_millis, 10_000);
    assert_eq!(plan.keepalive_nanos, 10_000_000_000 / 3);
    let plan = transport_config(600, 15).unwrap();
    assert_eq!(plan.keepalive_nanos, 15_000_000_000);
    assert_eq!(transport_config(1, 0).unwrap().keepalive_nanos, 1_000_000_000);
    assert_eq!(
        transport_config(u64::MAX, 15).unwrap_err().message(),
        "idle timeout is out of range"
    );
}

#[test]
fn closing_the_slave_reads_as_eof() {
    assert_eq!(poll_read(MasterRead::IoError), Output::Bytes(0));
    assert_eq!(poll_read(MasterRead::Bytes(5)), Output::Bytes(5));
    assert_eq!(poll_read(MasterRead::WouldBlock), Output::Wait);
    assert_eq!(
        poll_read(MasterRead::Failed(Some(9))),
        Output::Failed(Some(9))
    );
    assert_eq!(poll_read(MasterRead::Failed(None)), Output::Failed(None));
}

#[test]
fn a_fatal_signal_puts_the_terminal_back() {
    let mut raw = RawMode::new();
    assert!(raw.restore());
    // Only once, however often it is asked for.
    assert!(!raw.restore());
}
