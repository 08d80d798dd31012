use qsh::cli::{
    apply_ssh_option, client_names, dispatch, identity_name, keygen_report, list_hosts,
    may_replace, no_identity, parse_connect, parse_keygen, parse_known_hosts, removed_notice, split_kv, split_target,
    whoami_tag, CliError, Command, ConnectRequest, HostsAction, Parsed, USAGE, VERSION,
};
use qsh::client::{
    AddressFamily, HostKeyPolicy, Options, PtyPolicy, DEFAULT_CONNECT_TIMEOUT_SECS,
};
use qsh::config::{ClientPaths, HostsText, KnownHosts, DEFAULT_PORT};
use qsh::crypto::Fingerprint;
use qsh::path::OsPath;

fn args(words: &[&str]) -> Vec<String> {
    words.iter().map(|s| (*s).to_owned()).collect()
}

fn parse(words: &[&str]) -> Options {
    match parse_connect(&args(words)).unwrap() {
        ConnectRequest::Connect(o) => o,
        ConnectRequest::Help => panic!("expected a connection"),
    }
}

fn refusal(words: &[&str]) -> String {
    parse_connect(&args(words)).unwrap_err().message()
}

#[test]
fn plain_host_opens_a_shell() {
    let o = parse(&["server"]);
    assert_eq!(o.host, "server");
    assert_eq!(o.port, DEFAULT_PORT);
    assert!(o.command.is_none());
    assert!(o.user.is_none());
}

#[test]
fn user_at_host_and_dash_l_both_work() {
    assert_eq!(parse(&["alice@server"]).user.as_deref(), Some("alice"));
    assert_eq!(
        parse(&["-l", "alice", "server"]).user.as_deref(),
        Some("alice")
    );
    assert_eq!(parse(&["-lalice", "server"]).user.as_deref(), Some("alice"));
}

#[test]
fn options_after_the_host_belong_to_the_remote_command() {
    // Exactly how rsync invokes the transport.
    let o = parse(&[
        "-l",
        "alice",
        "server",
        "rsync",
        "--server",
        "-vlogDtpre.iLsfxCIvu",
        ".",
        "/backup/data/",
    ]);
    assert_eq!(o.host, "server");
    assert_eq!(o.user.as_deref(), Some("alice"));
    assert_eq!(
        o.command.unwrap(),
        vec![
            "rsync",
            "--server",
            "-vlogDtpre.iLsfxCIvu",
            ".",
            "/backup/data/"
        ]
    );
}

#[test]
fn ports_parse_in_both_spellings() {
    assert_eq!(parse(&["-p", "9000", "h"]).port, 9000);
    assert_eq!(parse(&["-p9000", "h"]).port, 9000);
    assert_eq!(parse(&["--port", "9000", "h"]).port, 9000);
}

#[test]
fn pty_flags_are_honoured() {
    assert_eq!(parse(&["-t", "h", "top"]).pty, PtyPolicy::Force);
    assert_eq!(parse(&["-T", "h"]).pty, PtyPolicy::Never);
    assert_eq!(parse(&["h"]).pty, PtyPolicy::Auto);
}

#[test]
fn ssh_compatibility_options_are_tolerated() {
    let o = parse(&["-C", "-v", "-o", "Compression=yes", "h", "true"]);
    assert_eq!(o.host, "h");
    assert_eq!(o.command.unwrap(), vec!["true"]);
    assert_eq!(o.host_key_policy, HostKeyPolicy::Ask);
}

#[test]
fn address_family_flags_are_honoured_not_ignored() {
    assert_eq!(parse(&["h"]).family, AddressFamily::Any);
    assert_eq!(parse(&["-4", "h"]).family, AddressFamily::V4);
    assert_eq!(parse(&["-6", "h"]).family, AddressFamily::V6);
}

#[test]
fn connect_timeout_is_configurable() {
    assert_eq!(
        parse(&["h"]).connect_timeout_secs,
        DEFAULT_CONNECT_TIMEOUT_SECS
    );
    assert_eq!(
        parse(&["--connect-timeout", "3", "h"]).connect_timeout_secs,
        3
    );
}

#[test]
fn strict_host_key_checking_maps_to_a_policy() {
    assert_eq!(
        parse(&["-o", "StrictHostKeyChecking=accept-new", "h"]).host_key_policy,
        HostKeyPolicy::AcceptNew
    );
    assert_eq!(
        parse(&["-o", "stricthostkeychecking=yes", "h"]).host_key_policy,
        HostKeyPolicy::Refuse
    );
}

#[test]
fn double_dash_allows_hosts_that_look_like_options() {
    let o = parse(&["--", "-weird-host", "ls"]);
    assert_eq!(o.host, "-weird-host");
    assert_eq!(o.command.unwrap(), vec!["ls"]);
}

#[test]
fn setenv_is_collected() {
    let o = parse(&["-E", "LC_ALL=C", "h"]);
    assert_eq!(o.env, vec![("LC_ALL".to_string(), "C".to_string())]);
}

#[test]
fn unknown_options_before_the_host_are_errors() {
    let err = parse_connect(&vec!["--nope".into(), "h".into()])
        .unwrap_err()
        .message();
    assert!(err.contains("unknown option"), "{err}");
}

#[test]
fn missing_host_is_an_error() {
    assert!(parse_connect(&vec!["-t".into()]).is_err());
}

#[test]
fn ipv6_literals_survive_target_splitting() {
    assert_eq!(split_target("[::1]"), (None, "[::1]".to_string()));
    assert_eq!(
        split_target("alice@[::1]"),
        (Some("alice".into()), "[::1]".to_string())
    );
}

#[test]
fn no_stdin_flag_is_honoured() {
    assert!(!parse(&["h"]).no_stdin);
    assert!(parse(&["-n", "h"]).no_stdin);
}

#[test]
fn every_option_reaches_the_options() {
    let o = parse(&[
        "-i",
        "/keys",
        "-q",
        "-E",
        "A=1=2",
        "--setenv",
        "B=",
        "--accept-new",
        "bob@a@b",
        "-p",
        "1",
    ]);
    assert_eq!(o.paths_dir, Some(OsPath::of_text("/keys")));
    assert!(o.quiet);
    assert_eq!(
        o.env,
        vec![
            ("A".to_string(), "1=2".to_string()),
            ("B".to_string(), String::new())
        ]
    );
    assert_eq!(o.host_key_policy, HostKeyPolicy::AcceptNew);
    assert_eq!(o.user.as_deref(), Some("bob@a"));
    assert_eq!(o.host, "b");
    assert_eq!(o.port, DEFAULT_PORT);
    assert_eq!(o.command.unwrap(), vec!["-p", "1"]);
    assert_eq!(
        parse(&["--refuse-new", "h"]).host_key_policy,
        HostKeyPolicy::Refuse
    );
    // A user in the target takes precedence over `-l`.
    assert_eq!(
        parse(&["-l", "x", "y@h"]).user.as_deref(),
        Some("y")
    );
    // A lone dash is a host.
    assert_eq!(parse(&["-"]).host, "-");
    assert_eq!(parse(&["@h"]).host, "@h");
}

#[test]
fn every_connection_error_has_its_message() {
    assert_eq!(refusal(&["--"]), "missing host after `--`");
    assert_eq!(refusal(&["-p"]), "-p needs a port number");
    let too_large = "-p must be a port number: number too large to fit in target type";
    assert_eq!(refusal(&["-p", "70000", "h"]), too_large);
    assert_eq!(refusal(&["-p70000", "h"]), too_large);
    assert_eq!(
        refusal(&["-p", "", "h"]),
        "-p must be a port number: cannot parse integer from empty string"
    );
    assert_eq!(refusal(&["-l"]), "-l needs a user name");
    assert_eq!(refusal(&["-i"]), "-i needs a directory");
    assert_eq!(
        refusal(&["--connect-timeout"]),
        "--connect-timeout needs a number of seconds"
    );
    assert_eq!(
        refusal(&["--connect-timeout", "soon", "h"]),
        "--connect-timeout must be a number of seconds: invalid digit found in string"
    );
    assert_eq!(refusal(&["-E"]), "-E needs KEY=VALUE");
    assert_eq!(
        refusal(&["-E", "novalue", "h"]),
        "expected KEY=VALUE, got `novalue`"
    );
    assert_eq!(refusal(&["-o"]), "-o needs an option");
    assert_eq!(refusal(&["-Z", "h"]), "unknown option: -Z");
    assert_eq!(refusal(&["-q"]), format!("no host given\n\n{USAGE}"));
    assert_eq!(refusal(&["alice@"]), "empty host name");
    assert_eq!(refusal(&["--", ""]), "empty host name");
}

#[test]
fn help_is_recognised_before_the_host_only() {
    assert!(matches!(
        parse_connect(&args(&["-q", "--help"])),
        Ok(ConnectRequest::Help)
    ));
    assert_eq!(parse(&["h", "--help"]).command.unwrap(), vec!["--help"]);
}

#[test]
fn extra_words_only_extend_the_command() {
    let short = parse(&["-4", "h", "ls"]);
    let long = parse(&["-4", "h", "ls", "-6", "--", "x"]);
    assert_eq!(short.family, long.family);
    assert_eq!(short.host, long.host);
    assert_eq!(long.command.unwrap(), vec!["ls", "-6", "--", "x"]);
}

#[test]
fn the_first_argument_picks_the_command() {
    assert!(matches!(dispatch(&args(&[])), Command::Usage));
    assert!(matches!(dispatch(&args(&["-h"])), Command::Help));
    assert!(matches!(dispatch(&args(&["--help"])), Command::Help));
    assert!(matches!(dispatch(&args(&["-V"])), Command::Version));
    assert!(matches!(dispatch(&args(&["--version"])), Command::Version));
    assert!(matches!(dispatch(&args(&["keygen"])), Command::Keygen));
    assert!(matches!(
        dispatch(&args(&["fingerprint"])),
        Command::Fingerprint
    ));
    assert!(matches!(
        dispatch(&args(&["known-hosts", "list"])),
        Command::KnownHosts
    ));
    assert!(matches!(dispatch(&args(&["server"])), Command::Connect));
    assert!(!VERSION.is_empty());
    assert!(USAGE.starts_with("qsh \u{2014} a small SSH replacement over QUIC\n"));
}

#[test]
fn ssh_settings_are_case_insensitive_and_others_are_ignored() {
    let mut policy = HostKeyPolicy::Ask;
    for other in ["no", "off", "on", "ask", "No", ""] {
        apply_ssh_option(&format!("StrictHostKeyChecking={other}"), &mut policy);
        assert_eq!(policy, HostKeyPolicy::Ask, "{other}");
    }
    apply_ssh_option("STRICTHOSTKEYCHECKING=Accept-New", &mut policy);
    assert_eq!(policy, HostKeyPolicy::AcceptNew);
    apply_ssh_option("StrictHostKeyChecking=YES", &mut policy);
    assert_eq!(policy, HostKeyPolicy::Refuse);
    apply_ssh_option("StrictHostKeyChecking", &mut policy);
    assert_eq!(policy, HostKeyPolicy::Refuse);
    apply_ssh_option("BatchMode=no", &mut policy);
    assert_eq!(policy, HostKeyPolicy::Refuse);
    apply_ssh_option("BatchMode=accept-new", &mut policy);
    assert_eq!(policy, HostKeyPolicy::Refuse);
}

#[test]
fn key_value_pairs_split_at_the_first_sign() {
    assert_eq!(
        split_kv("a=b=c").unwrap(),
        ("a".to_string(), "b=c".to_string())
    );
    assert!(matches!(split_kv("abc"), Err(CliError::EnvInvalid(s)) if s == "abc"));
}

#[test]
fn default_options_open_a_shell_without_anything() {
    let o = Parsed::default().into_options("h".into(), Vec::new());
    assert_eq!(o.port, DEFAULT_PORT);
    assert!(o.command.is_none());
    assert_eq!(o.pty, PtyPolicy::Auto);
    assert_eq!(o.host_key_policy, HostKeyPolicy::Ask);
    assert!(!o.quiet && !o.no_stdin);
}

#[test]
fn keygen_arguments() {
    let k = parse_keygen(&args(&[])).unwrap();
    assert_eq!(k.days, 3650);
    assert!(!k.force);
    assert!(k.dir.is_none());
    let k = parse_keygen(&args(&["--days", "7", "-f", "--dir", "/d"])).unwrap();
    assert_eq!(k.days, 7);
    assert!(k.force);
    assert_eq!(k.dir.as_deref(), Some("/d"));
    let message = |words: &[&str]| parse_keygen(&args(words)).unwrap_err().message();
    assert_eq!(message(&["--days"]), "--days needs a value");
    assert_eq!(
        message(&["--days", "many"]),
        "--days must be a number: invalid digit found in string"
    );
    assert_eq!(message(&["-i"]), "--identity needs a path");
    assert_eq!(message(&["--loud"]), "unknown option for keygen: --loud");
}

#[test]
fn an_identity_is_replaced_only_by_force() {
    assert!(may_replace("/d/id.crt", false, false).is_ok());
    assert!(may_replace("/d/id.crt", true, true).is_ok());
    assert_eq!(
        may_replace("/d/id.crt", true, false).unwrap_err(),
        "/d/id.crt already exists; pass --force to replace your identity"
    );
}

#[test]
fn keygen_reports_what_it_wrote() {
    let paths = ClientPaths::new(OsPath::of_text("/d"));
    let fp = Fingerprint([0xab; 32]);
    let tag = whoami_tag(&Some("alice".into()), "box");
    assert_eq!(tag, "alice-box");
    assert_eq!(whoami_tag(&None, "box"), "user-box");
    assert_eq!(identity_name(&Some("alice".into()), "box"), "alice@box");
    assert_eq!(identity_name(&None, "box"), "user@box");
    assert_eq!(client_names(), vec!["qsh-client"]);
    let lines = keygen_report(&paths, fp, 30, &tag);
    assert_eq!(
        lines,
        vec![
            "Wrote /d/id.key".to_string(),
            "Wrote /d/id.crt".to_string(),
            format!("Fingerprint: sha256:{}", "ab".repeat(32)),
            "Valid for 30 days.".to_string(),
            String::new(),
            "Authorize this key on the server:".to_string(),
            "  scp /d/id.crt server:/tmp/alice-box.crt".to_string(),
            "  ssh server sudo qsh-server authorize /tmp/alice-box.crt --user <account>"
                .to_string(),
        ]
    );
    assert_eq!(no_identity(&paths), "no identity in /d (run `qsh keygen`)");
}

#[test]
fn known_hosts_commands() {
    assert!(matches!(
        parse_known_hosts(&args(&[])),
        Ok((None, HostsAction::List))
    ));
    assert!(matches!(
        parse_known_hosts(&args(&["list"])),
        Ok((None, HostsAction::List))
    ));
    match parse_known_hosts(&args(&["-i", "/keys", "add", "h:1", "sha256:x"])) {
        Ok((Some(dir), HostsAction::Add { host, fingerprint })) => {
            assert_eq!(dir, "/keys");
            assert_eq!(host, "h:1");
            assert_eq!(fingerprint, "sha256:x");
        }
        other => panic!("{other:?}"),
    }
    match parse_known_hosts(&args(&["remove", "h:1"])) {
        Ok((None, HostsAction::Remove { host })) => assert_eq!(host, "h:1"),
        other => panic!("{other:?}"),
    }
    let message = |words: &[&str]| parse_known_hosts(&args(words)).unwrap_err().message();
    assert_eq!(
        message(&["add", "h:1"]),
        "usage: qsh known-hosts add <host:port> <sha256:...>"
    );
    assert_eq!(
        message(&["remove"]),
        "usage: qsh known-hosts remove <host:port>"
    );
    assert_eq!(message(&["forget"]), "unknown known-hosts command: forget");
    assert_eq!(message(&["--identity"]), "-i needs a directory");
}

#[test]
fn known_hosts_are_listed() {
    let mut known = KnownHosts::load(None).unwrap();
    assert_eq!(
        list_hosts("/d/known_hosts", &known),
        vec!["no known hosts in /d/known_hosts"]
    );
    known.set(&HostsText::Unreadable, "a:1", Fingerprint([0; 32]));
    known.set(&HostsText::Unreadable, "b:2", Fingerprint([255; 32]));
    assert_eq!(
        list_hosts("/d/known_hosts", &known),
        vec![
            format!("a:1 sha256:{}", "00".repeat(32)),
            format!("b:2 sha256:{}", "ff".repeat(32)),
        ]
    );
    assert_eq!(removed_notice(1, "a:1"), "removed 1 entry for a:1");
    assert_eq!(removed_notice(0, "x"), "removed 0 entries for x");
}
