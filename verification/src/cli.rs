//! The client's command line.
//!
//! It is deliberately ssh-shaped so that `rsync -e qsh` and `scp`-style muscle
//! memory keep working:
//!
//! ```text
//! qsh [options] [user@]host [command [args...]]
//! ```
//!
//! Options are parsed only up to the host argument; everything after it is
//! the remote command and is passed through as a structured argument list,
//! never re-joined into a shell string.

use vstd::prelude::*;
use vstd::utf8::encode_utf8;

use crate::child::{Account, LaunchPlan};
use crate::client::{
    request_for, AddressFamily, HostKeyPolicy, LocalEnv, Options, PtyPolicy,
    DEFAULT_CONNECT_TIMEOUT_SECS,
};
use crate::config::{opt, ClientPaths, KnownHosts, DEFAULT_PORT};
use crate::crypto::Fingerprint;
use crate::path::{inside, opt_path, shown, OsPath};
use crate::proto::{pairs, PtySize};
use crate::text::{
    chars_of, decimal, decimal_text, lowercase, parse_number, parsed_number, rsplit_once, same,
    split_first, split_last, split_once, starts_with, strip_prefix, texts, to_lower,
    without_prefix,
};

verus! {

/// Version reported by `qsh --version`.
pub const VERSION: &'static str = "1.0.0";

pub const USAGE: &'static str =
    "qsh \u{2014} a small SSH replacement over QUIC

Usage:
  qsh [options] [user@]host [command [args...]]
  qsh keygen [--days N] [--force]
  qsh fingerprint
  qsh known-hosts list
  qsh known-hosts add <host:port> <sha256:...>
  qsh known-hosts remove <host:port>

Options:
  -p, --port PORT        Server port (default 2222, UDP)
  -l USER                Log in as USER (must match what the server authorized)
  -i, --identity DIR     Directory holding id.crt and id.key
  -t                     Force a remote terminal
  -T                     Never allocate a remote terminal
  -E, --setenv K=V       Send an environment variable (TERM, LANG, LC_*, QSH_*)
      --accept-new       Pin an unknown host key without asking
      --refuse-new       Never pin automatically
  -o OPTION              Accepted for ssh compatibility; only
                         StrictHostKeyChecking=accept-new|yes has an effect
  -4 / -6                Use IPv4 / IPv6 only
      --connect-timeout SECS
                         Deadline per address when connecting (default 10)
  -q, --quiet            Suppress qsh's own messages
  -v, --verbose          Accepted for ssh compatibility (no extra output)
  -h, --help             Show this help
  -V, --version          Show the version

Examples:
  qsh server                              # interactive shell
  qsh server uptime                       # run a command
  rsync -e qsh -av ./data/ server:/backup # rsync transport
";

/// What `str::parse::<u16>` says of a text that is no such number.
pub uninterp spec fn u16_complaint(s: Seq<char>) -> Seq<char>;

/// `str::parse::<u16>`, for what its error says; that depends on the text alone.
#[verifier::external_body]
fn u16_error(s: &str) -> (why: String)
    ensures
        why@ == u16_complaint(s@),
{
    s.parse::<u16>().err().map(|e| e.to_string()).unwrap_or_default()
}

/// What `str::parse::<u32>` says of a text that is no such number.
pub uninterp spec fn u32_complaint(s: Seq<char>) -> Seq<char>;

/// `str::parse::<u32>`, for what its error says; that depends on the text alone.
#[verifier::external_body]
fn u32_error(s: &str) -> (why: String)
    ensures
        why@ == u32_complaint(s@),
{
    s.parse::<u32>().err().map(|e| e.to_string()).unwrap_or_default()
}

/// What `str::parse::<u64>` says of a text that is no such number.
pub uninterp spec fn u64_complaint(s: Seq<char>) -> Seq<char>;

/// `str::parse::<u64>`, for what its error says; that depends on the text alone.
#[verifier::external_body]
fn u64_error(s: &str) -> (why: String)
    ensures
        why@ == u64_complaint(s@),
{
    s.parse::<u64>().err().map(|e| e.to_string()).unwrap_or_default()
}

/// What is wrong with a command line.
#[derive(Debug, Clone)]
pub enum CliError {
    NoHostAfterDashes,
    PortMissing,
    PortInvalid(String),
    LoginMissing,
    IdentityMissing,
    TimeoutMissing,
    TimeoutInvalid(String),
    EnvMissing,
    EnvInvalid(String),
    OptionMissing,
    UnknownOption(String),
    NoHost,
    EmptyHost,
    DaysMissing,
    DaysInvalid(String),
    KeygenPathMissing,
    KeygenUnknown(String),
    AddUsage,
    RemoveUsage,
    HostsUnknown(String),
}

/// What a [`CliError`] holds.
pub enum CliErrorView {
    NoHostAfterDashes,
    PortMissing,
    PortInvalid(Seq<char>),
    LoginMissing,
    IdentityMissing,
    TimeoutMissing,
    TimeoutInvalid(Seq<char>),
    EnvMissing,
    EnvInvalid(Seq<char>),
    OptionMissing,
    UnknownOption(Seq<char>),
    NoHost,
    EmptyHost,
    DaysMissing,
    DaysInvalid(Seq<char>),
    KeygenPathMissing,
    KeygenUnknown(Seq<char>),
    AddUsage,
    RemoveUsage,
    HostsUnknown(Seq<char>),
}

impl View for CliError {
    type V = CliErrorView;

    open spec fn view(&self) -> CliErrorView {
        match *self {
            CliError::NoHostAfterDashes => CliErrorView::NoHostAfterDashes,
            CliError::PortMissing => CliErrorView::PortMissing,
            CliError::PortInvalid(why) => CliErrorView::PortInvalid(why@),
            CliError::LoginMissing => CliErrorView::LoginMissing,
            CliError::IdentityMissing => CliErrorView::IdentityMissing,
            CliError::TimeoutMissing => CliErrorView::TimeoutMissing,
            CliError::TimeoutInvalid(why) => CliErrorView::TimeoutInvalid(why@),
            CliError::EnvMissing => CliErrorView::EnvMissing,
            CliError::EnvInvalid(s) => CliErrorView::EnvInvalid(s@),
            CliError::OptionMissing => CliErrorView::OptionMissing,
            CliError::UnknownOption(s) => CliErrorView::UnknownOption(s@),
            CliError::NoHost => CliErrorView::NoHost,
            CliError::EmptyHost => CliErrorView::EmptyHost,
            CliError::DaysMissing => CliErrorView::DaysMissing,
            CliError::DaysInvalid(why) => CliErrorView::DaysInvalid(why@),
            CliError::KeygenPathMissing => CliErrorView::KeygenPathMissing,
            CliError::KeygenUnknown(s) => CliErrorView::KeygenUnknown(s@),
            CliError::AddUsage => CliErrorView::AddUsage,
            CliError::RemoveUsage => CliErrorView::RemoveUsage,
            CliError::HostsUnknown(s) => CliErrorView::HostsUnknown(s@),
        }
    }
}

impl CliErrorView {
    /// What the error says.
    pub open spec fn text(self) -> Seq<char> {
        match self {
            CliErrorView::NoHostAfterDashes => "missing host after `--`"@,
            CliErrorView::PortMissing => "-p needs a port number"@,
            CliErrorView::PortInvalid(why) => "-p must be a port number: "@ + why,
            CliErrorView::LoginMissing => "-l needs a user name"@,
            CliErrorView::IdentityMissing => "-i needs a directory"@,
            CliErrorView::TimeoutMissing => "--connect-timeout needs a number of seconds"@,
            CliErrorView::TimeoutInvalid(why) => "--connect-timeout must be a number of seconds: "@ + why,
            CliErrorView::EnvMissing => "-E needs KEY=VALUE"@,
            CliErrorView::EnvInvalid(kv) => "expected KEY=VALUE, got `"@ + kv + "`"@,
            CliErrorView::OptionMissing => "-o needs an option"@,
            CliErrorView::UnknownOption(arg) => "unknown option: "@ + arg,
            CliErrorView::NoHost => "no host given\n\n"@ + USAGE@,
            CliErrorView::EmptyHost => "empty host name"@,
            CliErrorView::DaysMissing => "--days needs a value"@,
            CliErrorView::DaysInvalid(why) => "--days must be a number: "@ + why,
            CliErrorView::KeygenPathMissing => "--identity needs a path"@,
            CliErrorView::KeygenUnknown(arg) => "unknown option for keygen: "@ + arg,
            CliErrorView::AddUsage => "usage: qsh known-hosts add <host:port> <sha256:...>"@,
            CliErrorView::RemoveUsage => "usage: qsh known-hosts remove <host:port>"@,
            CliErrorView::HostsUnknown(arg) => "unknown known-hosts command: "@ + arg,
        }
    }
}

impl CliError {
    /// What the error says.
    pub fn message(&self) -> (out: String)
        ensures
            out@ == self@.text(),
    {
        match self {
            CliError::NoHostAfterDashes => "missing host after `--`".to_owned(),
            CliError::PortMissing => "-p needs a port number".to_owned(),
            CliError::PortInvalid(why) => {
                let mut out = "-p must be a port number: ".to_owned();
                out.append(why.as_str());
                out
            },
            CliError::LoginMissing => "-l needs a user name".to_owned(),
            CliError::IdentityMissing => "-i needs a directory".to_owned(),
            CliError::TimeoutMissing => "--connect-timeout needs a number of seconds".to_owned(),
            CliError::TimeoutInvalid(why) => {
                let mut out = "--connect-timeout must be a number of seconds: ".to_owned();
                out.append(why.as_str());
                out
            },
            CliError::EnvMissing => "-E needs KEY=VALUE".to_owned(),
            CliError::EnvInvalid(kv) => {
                let mut out = "expected KEY=VALUE, got `".to_owned();
                out.append(kv.as_str());
                out.append("`");
                out
            },
            CliError::OptionMissing => "-o needs an option".to_owned(),
            CliError::UnknownOption(arg) => {
                let mut out = "unknown option: ".to_owned();
                out.append(arg.as_str());
                out
            },
            CliError::NoHost => {
                let mut out = "no host given\n\n".to_owned();
                out.append(USAGE);
                out
            },
            CliError::EmptyHost => "empty host name".to_owned(),
            CliError::DaysMissing => "--days needs a value".to_owned(),
            CliError::DaysInvalid(why) => {
                let mut out = "--days must be a number: ".to_owned();
                out.append(why.as_str());
                out
            },
            CliError::KeygenPathMissing => "--identity needs a path".to_owned(),
            CliError::KeygenUnknown(arg) => {
                let mut out = "unknown option for keygen: ".to_owned();
                out.append(arg.as_str());
                out
            },
            CliError::AddUsage => "usage: qsh known-hosts add <host:port> <sha256:...>".to_owned(),
            CliError::RemoveUsage => "usage: qsh known-hosts remove <host:port>".to_owned(),
            CliError::HostsUnknown(arg) => {
                let mut out = "unknown known-hosts command: ".to_owned();
                out.append(arg.as_str());
                out
            },
        }
    }
}

// ---------------------------------------------------------------------------
// Which command
// ---------------------------------------------------------------------------

/// What a command line asks for.
#[derive(Debug)]
pub enum Command {
    /// Nothing: print the usage as an error.
    Usage,
    Help,
    Version,
    Keygen,
    Fingerprint,
    KnownHosts,
    Connect,
}

/// What the first argument asks for. All but the connection take the arguments
/// behind it; the connection takes all of them.
pub open spec fn command_of(args: Seq<Seq<char>>) -> Command {
    if args.len() == 0 {
        Command::Usage
    } else if args[0] == "-h"@ || args[0] == "--help"@ {
        Command::Help
    } else if args[0] == "-V"@ || args[0] == "--version"@ {
        Command::Version
    } else if args[0] == "keygen"@ {
        Command::Keygen
    } else if args[0] == "fingerprint"@ {
        Command::Fingerprint
    } else if args[0] == "known-hosts"@ {
        Command::KnownHosts
    } else {
        Command::Connect
    }
}

/// What a command line asks for.
pub fn dispatch(args: &Vec<String>) -> (c: Command)
    ensures
        c == command_of(texts(args@)),
{
    if args.len() == 0 {
        return Command::Usage;
    }
    assert(texts(args@)[0] == args@[0]@);
    let first: &str = args[0].as_str();
    if same(first, "-h") || same(first, "--help") {
        Command::Help
    } else if same(first, "-V") || same(first, "--version") {
        Command::Version
    } else if same(first, "keygen") {
        Command::Keygen
    } else if same(first, "fingerprint") {
        Command::Fingerprint
    } else if same(first, "known-hosts") {
        Command::KnownHosts
    } else {
        Command::Connect
    }
}

// ---------------------------------------------------------------------------
// Connecting
// ---------------------------------------------------------------------------

/// What an argument in front of the host stands for.
pub enum Flag {
    Separator,
    Port,
    PortValue(String),
    Login,
    LoginValue(String),
    Identity,
    ForceTerminal,
    NoTerminal,
    Quiet,
    OnlyV4,
    OnlyV6,
    ConnectTimeout,
    Ignored,
    NoStdin,
    SetEnv,
    AcceptNew,
    RefuseNew,
    SshOption,
    Help,
    Unknown,
    Host,
}

/// What a [`Flag`] holds.
pub enum FlagView {
    Separator,
    Port,
    PortValue(Seq<char>),
    Login,
    LoginValue(Seq<char>),
    Identity,
    ForceTerminal,
    NoTerminal,
    Quiet,
    OnlyV4,
    OnlyV6,
    ConnectTimeout,
    Ignored,
    NoStdin,
    SetEnv,
    AcceptNew,
    RefuseNew,
    SshOption,
    Help,
    Unknown,
    Host,
}

impl View for Flag {
    type V = FlagView;

    open spec fn view(&self) -> FlagView {
        match *self {
            Flag::Separator => FlagView::Separator,
            Flag::Port => FlagView::Port,
            Flag::PortValue(s) => FlagView::PortValue(s@),
            Flag::Login => FlagView::Login,
            Flag::LoginValue(s) => FlagView::LoginValue(s@),
            Flag::Identity => FlagView::Identity,
            Flag::ForceTerminal => FlagView::ForceTerminal,
            Flag::NoTerminal => FlagView::NoTerminal,
            Flag::Quiet => FlagView::Quiet,
            Flag::OnlyV4 => FlagView::OnlyV4,
            Flag::OnlyV6 => FlagView::OnlyV6,
            Flag::ConnectTimeout => FlagView::ConnectTimeout,
            Flag::Ignored => FlagView::Ignored,
            Flag::NoStdin => FlagView::NoStdin,
            Flag::SetEnv => FlagView::SetEnv,
            Flag::AcceptNew => FlagView::AcceptNew,
            Flag::RefuseNew => FlagView::RefuseNew,
            Flag::SshOption => FlagView::SshOption,
            Flag::Help => FlagView::Help,
            Flag::Unknown => FlagView::Unknown,
            Flag::Host => FlagView::Host,
        }
    }
}

/// The value attached to a short flag, as in `-p2222`.
pub open spec fn attached(arg: Seq<char>, flag: Seq<char>) -> Option<Seq<char>> {
    match without_prefix(arg, flag) {
        Some(rest) => if rest.len() > 0 {
            Some(rest)
        } else {
            None
        },
        None => None,
    }
}

/// What an argument in front of the host stands for. The first bare word, or a
/// lone dash, is the host.
pub open spec fn flag_of(a: Seq<char>) -> FlagView {
    if a == "--"@ {
        FlagView::Separator
    } else if a == "-p"@ || a == "--port"@ {
        FlagView::Port
    } else if attached(a, "-p"@) is Some {
        FlagView::PortValue(attached(a, "-p"@)->0)
    } else if a == "-l"@ || a == "--login-name"@ {
        FlagView::Login
    } else if attached(a, "-l"@) is Some {
        FlagView::LoginValue(attached(a, "-l"@)->0)
    } else if a == "-i"@ || a == "--identity"@ {
        FlagView::Identity
    } else if a == "-t"@ {
        FlagView::ForceTerminal
    } else if a == "-T"@ {
        FlagView::NoTerminal
    } else if a == "-q"@ || a == "--quiet"@ {
        FlagView::Quiet
    } else if a == "-4"@ {
        FlagView::OnlyV4
    } else if a == "-6"@ {
        FlagView::OnlyV6
    } else if a == "--connect-timeout"@ {
        FlagView::ConnectTimeout
    } else if a == "-v"@ || a == "--verbose"@ || a == "-C"@ || a == "-a"@ || a == "-x"@ {
        FlagView::Ignored
    } else if a == "-n"@ {
        FlagView::NoStdin
    } else if a == "-E"@ || a == "--setenv"@ {
        FlagView::SetEnv
    } else if a == "--accept-new"@ {
        FlagView::AcceptNew
    } else if a == "--refuse-new"@ {
        FlagView::RefuseNew
    } else if a == "-o"@ || a == "--option"@ {
        FlagView::SshOption
    } else if a == "-h"@ || a == "--help"@ {
        FlagView::Help
    } else if "-"@.is_prefix_of(a) && a.len() > 1 {
        FlagView::Unknown
    } else {
        FlagView::Host
    }
}

fn split_attached(arg: &str, flag: &str) -> (r: Option<String>)
    ensures
        opt(r) == attached(arg@, flag@),
{
    match strip_prefix(arg, flag) {
        Some(rest) => if chars_of(rest.as_str()).len() > 0 {
            Some(rest)
        } else {
            None
        },
        None => None,
    }
}

/// What an argument in front of the host stands for.
fn classify(a: &str) -> (f: Flag)
    ensures
        f@ == flag_of(a@),
{
    if same(a, "--") {
        return Flag::Separator;
    }
    if same(a, "-p") || same(a, "--port") {
        return Flag::Port;
    }
    if let Some(value) = split_attached(a, "-p") {
        return Flag::PortValue(value);
    }
    if same(a, "-l") || same(a, "--login-name") {
        return Flag::Login;
    }
    if let Some(value) = split_attached(a, "-l") {
        return Flag::LoginValue(value);
    }
    if same(a, "-i") || same(a, "--identity") {
        Flag::Identity
    } else if same(a, "-t") {
        Flag::ForceTerminal
    } else if same(a, "-T") {
        Flag::NoTerminal
    } else if same(a, "-q") || same(a, "--quiet") {
        Flag::Quiet
    } else if same(a, "-4") {
        Flag::OnlyV4
    } else if same(a, "-6") {
        Flag::OnlyV6
    } else if same(a, "--connect-timeout") {
        Flag::ConnectTimeout
    } else if same(a, "-v") || same(a, "--verbose") || same(a, "-C") || same(a, "-a") || same(
        a,
        "-x",
    ) {
        Flag::Ignored
    } else if same(a, "-n") {
        Flag::NoStdin
    } else if same(a, "-E") || same(a, "--setenv") {
        Flag::SetEnv
    } else if same(a, "--accept-new") {
        Flag::AcceptNew
    } else if same(a, "--refuse-new") {
        Flag::RefuseNew
    } else if same(a, "-o") || same(a, "--option") {
        Flag::SshOption
    } else if same(a, "-h") || same(a, "--help") {
        Flag::Help
    } else if starts_with(a, "-") && chars_of(a).len() > 1 {
        Flag::Unknown
    } else {
        Flag::Host
    }
}

/// What an ssh setting means for the host-key policy: only
/// `StrictHostKeyChecking=accept-new` and `StrictHostKeyChecking=yes` mean
/// anything, in whatever case they are written.
pub open spec fn ssh_policy(setting: Seq<char>, policy: HostKeyPolicy) -> HostKeyPolicy {
    match split_first(setting, '=') {
        None => policy,
        Some((key, value)) => if lowercase(key) == lowercase("StrictHostKeyChecking"@) {
            let v = lowercase(value);
            if v == "accept-new"@ {
                HostKeyPolicy::AcceptNew
            } else if v == "yes"@ {
                HostKeyPolicy::Refuse
            } else {
                policy
            }
        } else {
            policy
        },
    }
}

/// Understand the handful of `-o` settings that map onto qsh behaviour.
pub fn apply_ssh_option(setting: &str, policy: &mut HostKeyPolicy)
    ensures
        *final(policy) == ssh_policy(setting@, *old(policy)),
{
    if let Some((key, value)) = split_once(setting, '=') {
        let key = to_lower(key.as_str());
        let wanted = to_lower("StrictHostKeyChecking");
        if same(key.as_str(), wanted.as_str()) {
            let value = to_lower(value.as_str());
            let v: &str = value.as_str();
            if same(v, "accept-new") {
                *policy = HostKeyPolicy::AcceptNew;
            } else if same(v, "yes") {
                *policy = HostKeyPolicy::Refuse;
            }
        }
    }
}

/// Splits `KEY=VALUE` at the first equals sign.
pub fn split_kv(kv: &str) -> (r: Result<(String, String), CliError>)
    ensures
        match r {
            Ok((k, v)) => split_first(kv@, '=') == Some((k@, v@)),
            Err(e) => split_first(kv@, '=') is None && e@ == CliErrorView::EnvInvalid(kv@),
        },
{
    match split_once(kv, '=') {
        Some(pair) => Ok(pair),
        None => Err(CliError::EnvInvalid(kv.to_owned())),
    }
}

/// The user and the host of `user@host`: split at the last at sign, unless
/// nothing stands in front of it. IPv6 literals such as `[::1]` stay intact.
pub open spec fn target_parts(target: Seq<char>) -> (Option<Seq<char>>, Seq<char>) {
    match split_last(target, '@') {
        Some((user, host)) => if user.len() > 0 {
            (Some(user), host)
        } else {
            (None, target)
        },
        None => (None, target),
    }
}

/// Split `user@host`, leaving IPv6 literals such as `[::1]` intact.
pub fn split_target(target: &str) -> (r: (Option<String>, String))
    ensures
        (opt(r.0), r.1@) == target_parts(target@),
{
    match rsplit_once(target, '@') {
        Some((user, host)) => if chars_of(user.as_str()).len() > 0 {
            (Some(user), host)
        } else {
            (None, target.to_owned())
        },
        None => (None, target.to_owned()),
    }
}

/// The options as they accumulate while the command line is walked.
#[derive(Debug)]
pub struct Parsed {
    pub port: u16,
    pub user: Option<String>,
    pub identity: Option<String>,
    pub pty: PtyPolicy,
    pub env: Vec<(String, String)>,
    pub policy: HostKeyPolicy,
    pub quiet: bool,
    pub no_stdin: bool,
    pub family: AddressFamily,
    pub connect_timeout: u64,
}

/// What a [`Parsed`] holds.
#[verifier::ext_equal]
pub struct ParsedView {
    pub port: u16,
    pub user: Option<Seq<char>>,
    pub identity: Option<Seq<char>>,
    pub pty: PtyPolicy,
    pub env: Seq<(Seq<char>, Seq<char>)>,
    pub policy: HostKeyPolicy,
    pub quiet: bool,
    pub no_stdin: bool,
    pub family: AddressFamily,
    pub connect_timeout: u64,
}

impl View for Parsed {
    type V = ParsedView;

    open spec fn view(&self) -> ParsedView {
        ParsedView {
            port: self.port,
            user: opt(self.user),
            identity: opt(self.identity),
            pty: self.pty,
            env: pairs(self.env@),
            policy: self.policy,
            quiet: self.quiet,
            no_stdin: self.no_stdin,
            family: self.family,
            connect_timeout: self.connect_timeout,
        }
    }
}

/// The options without any argument.
pub open spec fn no_options() -> ParsedView {
    ParsedView {
        port: DEFAULT_PORT,
        user: None,
        identity: None,
        pty: PtyPolicy::Auto,
        env: Seq::empty(),
        policy: HostKeyPolicy::Ask,
        quiet: false,
        no_stdin: false,
        family: AddressFamily::Any,
        connect_timeout: DEFAULT_CONNECT_TIMEOUT_SECS,
    }
}

impl Default for Parsed {
    fn default() -> (p: Parsed)
        ensures
            p@ == no_options(),
    {
        let p = Parsed {
            port: DEFAULT_PORT,
            user: None,
            identity: None,
            pty: PtyPolicy::Auto,
            env: Vec::new(),
            policy: HostKeyPolicy::Ask,
            quiet: false,
            no_stdin: false,
            family: AddressFamily::Any,
            connect_timeout: DEFAULT_CONNECT_TIMEOUT_SECS,
        };
        assert(p@.env =~= Seq::empty());
        p
    }
}

/// What walking the command line comes to.
pub enum Walk {
    /// The user wants help.
    Help,
    /// The options, the target, and the remote command.
    Target(ParsedView, Seq<char>, Seq<Seq<char>>),
}

/// What the next argument does.
pub enum Step {
    Fail(CliErrorView),
    Help,
    /// It changes the options.
    One(ParsedView),
    /// It and its value change the options.
    Two(ParsedView),
    /// It is the target.
    Target,
    /// The one behind it is the target.
    Separator,
}

/// What the next argument does, given the options so far.
pub open spec fn step(args: Seq<Seq<char>>, p: ParsedView) -> Step
    recommends
        args.len() > 0,
{
    let last = args.len() < 2;
    match flag_of(args[0]) {
        FlagView::Separator => if last {
            Step::Fail(CliErrorView::NoHostAfterDashes)
        } else {
            Step::Separator
        },
        FlagView::Port => if last {
            Step::Fail(CliErrorView::PortMissing)
        } else {
            match parsed_number(args[1], 65535) {
                Some(n) => Step::Two(ParsedView { port: n as u16, ..p }),
                None => Step::Fail(CliErrorView::PortInvalid(u16_complaint(args[1]))),
            }
        },
        FlagView::PortValue(v) => match parsed_number(v, 65535) {
            Some(n) => Step::One(ParsedView { port: n as u16, ..p }),
            None => Step::Fail(CliErrorView::PortInvalid(u16_complaint(v))),
        },
        FlagView::Login => if last {
            Step::Fail(CliErrorView::LoginMissing)
        } else {
            Step::Two(ParsedView { user: Some(args[1]), ..p })
        },
        FlagView::LoginValue(v) => Step::One(ParsedView { user: Some(v), ..p }),
        FlagView::Identity => if last {
            Step::Fail(CliErrorView::IdentityMissing)
        } else {
            Step::Two(ParsedView { identity: Some(args[1]), ..p })
        },
        FlagView::ForceTerminal => Step::One(ParsedView { pty: PtyPolicy::Force, ..p }),
        FlagView::NoTerminal => Step::One(ParsedView { pty: PtyPolicy::Never, ..p }),
        FlagView::Quiet => Step::One(ParsedView { quiet: true, ..p }),
        FlagView::OnlyV4 => Step::One(ParsedView { family: AddressFamily::V4, ..p }),
        FlagView::OnlyV6 => Step::One(ParsedView { family: AddressFamily::V6, ..p }),
        FlagView::ConnectTimeout => if last {
            Step::Fail(CliErrorView::TimeoutMissing)
        } else {
            match parsed_number(args[1], u64::MAX as nat) {
                Some(n) => Step::Two(ParsedView { connect_timeout: n as u64, ..p }),
                None => Step::Fail(CliErrorView::TimeoutInvalid(u64_complaint(args[1]))),
            }
        },
        FlagView::Ignored => Step::One(p),
        FlagView::NoStdin => Step::One(ParsedView { no_stdin: true, ..p }),
        FlagView::SetEnv => if last {
            Step::Fail(CliErrorView::EnvMissing)
        } else {
            match split_first(args[1], '=') {
                Some(kv) => Step::Two(ParsedView { env: p.env.push(kv), ..p }),
                None => Step::Fail(CliErrorView::EnvInvalid(args[1])),
            }
        },
        FlagView::AcceptNew => Step::One(ParsedView { policy: HostKeyPolicy::AcceptNew, ..p }),
        FlagView::RefuseNew => Step::One(ParsedView { policy: HostKeyPolicy::Refuse, ..p }),
        FlagView::SshOption => if last {
            Step::Fail(CliErrorView::OptionMissing)
        } else {
            Step::Two(ParsedView { policy: ssh_policy(args[1], p.policy), ..p })
        },
        FlagView::Help => Step::Help,
        FlagView::Unknown => Step::Fail(CliErrorView::UnknownOption(args[0])),
        FlagView::Host => Step::Target,
    }
}

/// What walking the arguments comes to, with the options before them: options
/// come first; the first bare word is the target and ends option parsing, and
/// so does the word behind `--`.
pub open spec fn walk(args: Seq<Seq<char>>, p: ParsedView) -> Result<Walk, CliErrorView>
    decreases args.len(),
{
    if args.len() == 0 {
        Err(CliErrorView::NoHost)
    } else {
        match step(args, p) {
            Step::Fail(e) => Err(e),
            Step::Help => Ok(Walk::Help),
            Step::One(q) => walk(args.skip(1), q),
            Step::Two(q) => walk(args.skip(2), q),
            Step::Target => Ok(Walk::Target(p, args[0], args.skip(1))),
            Step::Separator => Ok(Walk::Target(p, args[1], args.skip(2))),
        }
    }
}

/// What the command line of a connection asks for.
#[derive(Debug)]
pub enum ConnectRequest {
    Help,
    Connect(Options),
}

/// Are these the options for a target and a remote command? A user in the target
/// takes precedence, and no command means a shell.
pub open spec fn are_options(
    o: Options,
    p: ParsedView,
    target: Seq<char>,
    command: Seq<Seq<char>>,
) -> bool {
    let (user, host) = target_parts(target);
    &&& o.host@ == host
    &&& o.port == p.port
    &&& opt(o.user) == (if user is Some {
        user
    } else {
        p.user
    })
    &&& match o.command {
        Some(c) => command.len() > 0 && texts(c@) == command,
        None => command.len() == 0,
    }
    &&& o.pty == p.pty
    &&& pairs(o.env@) == p.env
    &&& o.host_key_policy == p.policy
    &&& opt_path(o.paths_dir) == (match p.identity {
        Some(dir) => Some(encode_utf8(dir)),
        None => None,
    })
    &&& o.quiet == p.quiet
    &&& o.no_stdin == p.no_stdin
    &&& o.family == p.family
    &&& o.connect_timeout_secs == p.connect_timeout
}

impl Parsed {
    /// The options for a host and a remote command.
    pub fn into_options(self, host: String, command: Vec<String>) -> (o: Options)
        ensures
            o.host == host,
            o.port == self@.port,
            opt(o.user) == self@.user,
            match o.command {
                Some(c) => c == command && command@.len() > 0,
                None => command@.len() == 0,
            },
            o.pty == self@.pty,
            pairs(o.env@) == self@.env,
            o.host_key_policy == self@.policy,
            opt_path(o.paths_dir) == (match self@.identity {
                Some(dir) => Some(encode_utf8(dir)),
                None => None,
            }),
            o.quiet == self@.quiet,
            o.no_stdin == self@.no_stdin,
            o.family == self@.family,
            o.connect_timeout_secs == self@.connect_timeout,
    {
        let command: Option<Vec<String>> = if command.len() > 0 {
            Some(command)
        } else {
            None
        };
        let paths_dir: Option<OsPath> = match &self.identity {
            Some(dir) => Some(OsPath::of_text(dir.as_str())),
            None => None,
        };
        Options {
            host,
            port: self.port,
            user: self.user,
            command,
            pty: self.pty,
            env: self.env,
            host_key_policy: self.policy,
            paths_dir,
            quiet: self.quiet,
            no_stdin: self.no_stdin,
            family: self.family,
            connect_timeout_secs: self.connect_timeout,
        }
    }
}

/// The arguments from the `from`-th on.
fn tail(args: &Vec<String>, from: usize) -> (out: Vec<String>)
    requires
        from <= args@.len(),
    ensures
        texts(out@) == texts(args@).skip(from as int),
{
    let mut out: Vec<String> = Vec::new();
    let mut i: usize = from;
    let ghost all = texts(args@);
    assert(texts(out@) =~= all.subrange(from as int, from as int));
    while i < args.len()
        invariant
            from <= i <= args@.len(),
            all == texts(args@),
            texts(out@) == all.subrange(from as int, i as int),
        decreases args@.len() - i,
    {
        let ghost before = out@;
        out.push(args[i].clone());
        assert(texts(out@) =~= texts(before).push(all[i as int]));
        i += 1;
        assert(all.subrange(from as int, i as int) =~= all.subrange(from as int, i - 1).push(
            all[i - 1],
        ));
    }
    assert(all.subrange(from as int, i as int) =~= all.skip(from as int));
    out
}

/// The options for a target, once it has been found.
fn finish(p: Parsed, target: &str, command: Vec<String>) -> (r: Result<ConnectRequest, CliError>)
    ensures
        match r {
            Ok(ConnectRequest::Connect(o)) => target_parts(target@).1.len() > 0 && are_options(
                o,
                p@,
                target@,
                texts(command@),
            ),
            Ok(ConnectRequest::Help) => false,
            Err(e) => target_parts(target@).1.len() == 0 && e@ == CliErrorView::EmptyHost,
        },
{
    let mut p = p;
    let (user, host) = split_target(target);
    if let Some(u) = user {
        p.user = Some(u);
    }
    if chars_of(host.as_str()).len() == 0 {
        return Err(CliError::EmptyHost);
    }
    assert(texts(command@).len() == command@.len());
    Ok(ConnectRequest::Connect(p.into_options(host, command)))
}

/// Parses `qsh [options] [user@]host [command...]`.
pub fn parse_connect(args: &Vec<String>) -> (r: Result<ConnectRequest, CliError>)
    ensures
        match walk(texts(args@), no_options()) {
            Err(e) => r is Err && r->Err_0@ == e,
            Ok(Walk::Help) => r is Ok && r->Ok_0 is Help,
            Ok(Walk::Target(p, target, command)) => if target_parts(target).1.len() == 0 {
                r is Err && r->Err_0@ == CliErrorView::EmptyHost
            } else {
                r matches Ok(ConnectRequest::Connect(o)) && are_options(o, p, target, command)
            },
        },
{
    let ghost all = texts(args@);
    let mut p = Parsed::default();
    let mut i: usize = 0;
    assert(all.skip(0) =~= all);
    while i < args.len()
        invariant
            i <= args@.len(),
            all == texts(args@),
            walk(all, no_options()) == walk(all.skip(i as int), p@),
        decreases args@.len() - i,
    {
        let ghost rest = all.skip(i as int);
        let arg: &str = args[i].as_str();
        assert(rest[0] == arg@);
        assert(rest.skip(1) =~= all.skip(i + 1));
        assert(rest.len() >= 2 ==> rest.skip(2) =~= all.skip(i + 2));
        assert(rest.len() >= 2 ==> rest[1] == args@[i + 1]@);
        let last: bool = i + 1 >= args.len();
        match classify(arg) {
            Flag::Separator => {
                if last {
                    return Err(CliError::NoHostAfterDashes);
                }
                let command = tail(args, i + 2);
                return finish(p, args[i + 1].as_str(), command);
            },
            Flag::Port => {
                if last {
                    return Err(CliError::PortMissing);
                }
                match parse_number(args[i + 1].as_str(), 65535) {
                    Some(n) => {
                        p.port = n as u16;
                    },
                    None => return Err(CliError::PortInvalid(u16_error(args[i + 1].as_str()))),
                }
                i += 2;
            },
            Flag::PortValue(value) => {
                match parse_number(value.as_str(), 65535) {
                    Some(n) => {
                        p.port = n as u16;
                    },
                    None => return Err(CliError::PortInvalid(u16_error(value.as_str()))),
                }
                i += 1;
            },
            Flag::Login => {
                if last {
                    return Err(CliError::LoginMissing);
                }
                p.user = Some(args[i + 1].clone());
                i += 2;
            },
            Flag::LoginValue(value) => {
                p.user = Some(value);
                i += 1;
            },
            Flag::Identity => {
                if last {
                    return Err(CliError::IdentityMissing);
                }
                p.identity = Some(args[i + 1].clone());
                i += 2;
            },
            Flag::ForceTerminal => {
                p.pty = PtyPolicy::Force;
                i += 1;
            },
            Flag::NoTerminal => {
                p.pty = PtyPolicy::Never;
                i += 1;
            },
            Flag::Quiet => {
                p.quiet = true;
                i += 1;
            },
            Flag::OnlyV4 => {
                p.family = AddressFamily::V4;
                i += 1;
            },
            Flag::OnlyV6 => {
                p.family = AddressFamily::V6;
                i += 1;
            },
            Flag::ConnectTimeout => {
                if last {
                    return Err(CliError::TimeoutMissing);
                }
                match parse_number(args[i + 1].as_str(), u64::MAX) {
                    Some(n) => {
                        p.connect_timeout = n;
                    },
                    None => return Err(CliError::TimeoutInvalid(u64_error(args[i + 1].as_str()))),
                }
                i += 2;
            },
            Flag::Ignored => {
                i += 1;
            },
            Flag::NoStdin => {
                p.no_stdin = true;
                i += 1;
            },
            Flag::SetEnv => {
                if last {
                    return Err(CliError::EnvMissing);
                }
                match split_kv(args[i + 1].as_str()) {
                    Ok(kv) => {
                        let ghost before = p.env@;
                        let ghost pair = (kv.0@, kv.1@);
                        p.env.push(kv);
                        assert(pairs(p.env@) =~= pairs(before).push(pair));
                    },
                    Err(e) => return Err(e),
                }
                i += 2;
            },
            Flag::AcceptNew => {
                p.policy = HostKeyPolicy::AcceptNew;
                i += 1;
            },
            Flag::RefuseNew => {
                p.policy = HostKeyPolicy::Refuse;
                i += 1;
            },
            Flag::SshOption => {
                if last {
                    return Err(CliError::OptionMissing);
                }
                apply_ssh_option(args[i + 1].as_str(), &mut p.policy);
                i += 2;
            },
            Flag::Help => {
                return Ok(ConnectRequest::Help);
            },
            Flag::Unknown => {
                return Err(CliError::UnknownOption(arg.to_owned()));
            },
            Flag::Host => {
                let command = tail(args, i + 1);
                return finish(p, arg, command);
            },
        }
    }
    assert(all.skip(i as int) =~= Seq::empty());
    Err(CliError::NoHost)
}

/// Whatever follows the target is the remote command, word for word.
pub proof fn law_command_is_the_rest(args: Seq<Seq<char>>, p: ParsedView)
    ensures
        match walk(args, p) {
            Ok(Walk::Target(_, target, command)) => {
                &&& command.len() < args.len()
                &&& command == args.skip(args.len() - command.len())
                &&& args[args.len() - command.len() - 1] == target
            },
            _ => true,
        },
    decreases args.len(),
{
    if args.len() > 0 {
        match step(args, p) {
            Step::One(q) => {
                law_command_is_the_rest(args.skip(1), q);
                if let Ok(Walk::Target(_, _, command)) = walk(args, p) {
                    let rest = args.skip(1);
                    assert(rest.skip(rest.len() - command.len()) =~= args.skip(
                        args.len() - command.len(),
                    ));
                }
            },
            Step::Two(q) => {
                law_command_is_the_rest(args.skip(2), q);
                if let Ok(Walk::Target(_, _, command)) = walk(args, p) {
                    let rest = args.skip(2);
                    assert(rest.skip(rest.len() - command.len()) =~= args.skip(
                        args.len() - command.len(),
                    ));
                }
            },
            _ => {},
        }
    }
}

/// Once there is a target, further words join the remote command, even those
/// that look like options: they change neither the options nor the target.
pub proof fn law_options_end_at_the_target(
    args: Seq<Seq<char>>,
    more: Seq<Seq<char>>,
    p: ParsedView,
)
    ensures
        match walk(args, p) {
            Ok(Walk::Target(q, target, command)) => walk(args + more, p) == Ok::<Walk, CliErrorView>(
                Walk::Target(q, target, command + more),
            ),
            _ => true,
        },
    decreases args.len(),
{
    if args.len() > 0 && (walk(args, p) matches Ok(Walk::Target(..))) {
        let all = args + more;
        assert(all[0] == args[0]);
        assert(args.len() >= 2 ==> all[1] == args[1]);
        assert(step(all, p) == step(args, p));
        assert(all.skip(1) =~= args.skip(1) + more);
        assert(args.len() >= 2 ==> all.skip(2) =~= args.skip(2) + more);
        match step(args, p) {
            Step::One(q) => {
                law_options_end_at_the_target(args.skip(1), more, q);
            },
            Step::Two(q) => {
                law_options_end_at_the_target(args.skip(2), more, q);
            },
            _ => {},
        }
    }
}

/// What a dash and one character stand for.
proof fn lemma_short_flags(a: Seq<char>)
    requires
        a.len() == 2,
        a[0] == '-',
    ensures
        a[1] == '-' ==> flag_of(a) is Separator,
        a[1] == 'p' ==> flag_of(a) is Port,
        a[1] == 'l' ==> flag_of(a) is Login,
        a[1] == 'i' ==> flag_of(a) is Identity,
        a[1] == 't' ==> flag_of(a) is ForceTerminal,
        a[1] == 'T' ==> flag_of(a) is NoTerminal,
        a[1] == 'q' ==> flag_of(a) is Quiet,
        a[1] == '4' ==> flag_of(a) is OnlyV4,
        a[1] == '6' ==> flag_of(a) is OnlyV6,
        a[1] == 'v' || a[1] == 'C' || a[1] == 'a' || a[1] == 'x' ==> flag_of(a) is Ignored,
        a[1] == 'n' ==> flag_of(a) is NoStdin,
        a[1] == 'E' ==> flag_of(a) is SetEnv,
        a[1] == 'o' ==> flag_of(a) is SshOption,
        a[1] == 'h' ==> flag_of(a) is Help,
{
    lemma_flag_texts();
    assert(a =~= seq!['-', a[1]]);
    assert(a.skip(2).len() == 0);
    assert(a.take(2) =~= a);
    assert(a.take(1) =~= "-"@);
}

/// The texts of the options.
proof fn lemma_flag_texts()
    ensures
        "--"@ == seq!['-', '-'],
        "-p"@ == seq!['-', 'p'],
        "-l"@ == seq!['-', 'l'],
        "-i"@ == seq!['-', 'i'],
        "-t"@ == seq!['-', 't'],
        "-T"@ == seq!['-', 'T'],
        "-q"@ == seq!['-', 'q'],
        "-4"@ == seq!['-', '4'],
        "-6"@ == seq!['-', '6'],
        "-v"@ == seq!['-', 'v'],
        "-C"@ == seq!['-', 'C'],
        "-a"@ == seq!['-', 'a'],
        "-x"@ == seq!['-', 'x'],
        "-n"@ == seq!['-', 'n'],
        "-E"@ == seq!['-', 'E'],
        "-o"@ == seq!['-', 'o'],
        "-h"@ == seq!['-', 'h'],
        "-"@ == seq!['-'],
        "--port"@.len() == 6 && "--port"@[0] == '-' && "--port"@[1] == '-' && "--port"@[2] == 'p',
        "--login-name"@.len() == 12 && "--login-name"@[0] == '-' && "--login-name"@[1] == '-',
        "--identity"@.len() == 10 && "--identity"@[0] == '-' && "--identity"@[1] == '-',
        "--quiet"@.len() == 7 && "--quiet"@[0] == '-' && "--quiet"@[1] == '-',
        "--connect-timeout"@.len() == 17 && "--connect-timeout"@[0] == '-'
            && "--connect-timeout"@[1] == '-',
        "--verbose"@.len() == 9 && "--verbose"@[0] == '-' && "--verbose"@[1] == '-',
        "--setenv"@.len() == 8 && "--setenv"@[0] == '-' && "--setenv"@[1] == '-' && "--setenv"@[2]
            == 's',
        "--accept-new"@.len() == 12 && "--accept-new"@[0] == '-' && "--accept-new"@[1] == '-'
            && "--accept-new"@[2] == 'a',
        "--login-name"@[2] == 'l',
        "--refuse-new"@.len() == 12 && "--refuse-new"@[0] == '-' && "--refuse-new"@[1] == '-'
            && "--refuse-new"@[2] == 'r',
        "--option"@.len() == 8 && "--option"@[0] == '-' && "--option"@[1] == '-' && "--option"@[2]
            == 'o',
        "--help"@.len() == 6 && "--help"@[0] == '-' && "--help"@[1] == '-' && "--help"@[2] == 'h',
{
    reveal_strlit("--");
    reveal_strlit("-p");
    reveal_strlit("-l");
    reveal_strlit("-i");
    reveal_strlit("-t");
    reveal_strlit("-T");
    reveal_strlit("-q");
    reveal_strlit("-4");
    reveal_strlit("-6");
    reveal_strlit("-v");
    reveal_strlit("-C");
    reveal_strlit("-a");
    reveal_strlit("-x");
    reveal_strlit("-n");
    reveal_strlit("-E");
    reveal_strlit("-o");
    reveal_strlit("-h");
    reveal_strlit("-");
    reveal_strlit("--port");
    reveal_strlit("--login-name");
    reveal_strlit("--identity");
    reveal_strlit("--quiet");
    reveal_strlit("--connect-timeout");
    reveal_strlit("--verbose");
    reveal_strlit("--setenv");
    reveal_strlit("--accept-new");
    reveal_strlit("--refuse-new");
    reveal_strlit("--option");
    reveal_strlit("--help");
    assert("--"@ =~= seq!['-', '-']);
    assert("-p"@ =~= seq!['-', 'p']);
    assert("-l"@ =~= seq!['-', 'l']);
    assert("-i"@ =~= seq!['-', 'i']);
    assert("-t"@ =~= seq!['-', 't']);
    assert("-T"@ =~= seq!['-', 'T']);
    assert("-q"@ =~= seq!['-', 'q']);
    assert("-4"@ =~= seq!['-', '4']);
    assert("-6"@ =~= seq!['-', '6']);
    assert("-v"@ =~= seq!['-', 'v']);
    assert("-C"@ =~= seq!['-', 'C']);
    assert("-a"@ =~= seq!['-', 'a']);
    assert("-x"@ =~= seq!['-', 'x']);
    assert("-n"@ =~= seq!['-', 'n']);
    assert("-E"@ =~= seq!['-', 'E']);
    assert("-o"@ =~= seq!['-', 'o']);
    assert("-h"@ =~= seq!['-', 'h']);
    assert("-"@ =~= seq!['-']);
}

/// What the long options stand for.
proof fn lemma_long_flags()
    ensures
        flag_of("--port"@) is Port,
        flag_of("--login-name"@) is Login,
        flag_of("--identity"@) is Identity,
        flag_of("--quiet"@) is Quiet,
        flag_of("--connect-timeout"@) is ConnectTimeout,
        flag_of("--setenv"@) is SetEnv,
        flag_of("--accept-new"@) is AcceptNew,
        flag_of("--refuse-new"@) is RefuseNew,
        flag_of("--option"@) is SshOption,
        flag_of("--help"@) is Help,
{
    lemma_flag_texts();
    lemma_not_attached("--port"@);
    lemma_not_attached("--login-name"@);
    lemma_not_attached("--identity"@);
    lemma_not_attached("--quiet"@);
    lemma_not_attached("--connect-timeout"@);
    lemma_not_attached("--setenv"@);
    lemma_not_attached("--accept-new"@);
    lemma_not_attached("--refuse-new"@);
    lemma_not_attached("--option"@);
    lemma_not_attached("--help"@);
}

/// What begins with two dashes has no value attached to a short option.
proof fn lemma_not_attached(a: Seq<char>)
    requires
        a.len() >= 2,
        a[1] == '-',
    ensures
        attached(a, "-p"@) is None,
        attached(a, "-l"@) is None,
{
    lemma_flag_texts();
    if "-p"@.is_prefix_of(a) {
        assert(a.take(2)[1] == a[1]);
    }
    if "-l"@.is_prefix_of(a) {
        assert(a.take(2)[1] == a[1]);
    }
}

/// The first word that is not an option is the target, and what follows it is
/// the command; so it is with a lone dash, and with whatever stands behind two
/// dashes, even if it looks like an option.
pub proof fn law_first_bare_word_is_the_target(
    word: Seq<char>,
    rest: Seq<Seq<char>>,
    p: ParsedView,
)
    ensures
        word.len() <= 1 || word[0] != '-' ==> walk(seq![word] + rest, p) == Ok::<
            Walk,
            CliErrorView,
        >(Walk::Target(p, word, rest)),
        walk(seq!["--"@, word] + rest, p) == Ok::<Walk, CliErrorView>(
            Walk::Target(p, word, rest),
        ),
{
    lemma_flag_texts();
    let args = seq![word] + rest;
    assert(args[0] == word);
    assert(args.skip(1) =~= rest);
    if word.len() <= 1 || word[0] != '-' {
        if "-p"@.is_prefix_of(word) {
            assert(word.take(2)[0] == word[0]);
        }
        if "-l"@.is_prefix_of(word) {
            assert(word.take(2)[0] == word[0]);
        }
        if "-"@.is_prefix_of(word) {
            assert(word.take(1)[0] == word[0]);
        }
        assert(flag_of(word) is Host);
    }
    let dashed = seq!["--"@, word] + rest;
    assert(dashed[0] == "--"@ && dashed[1] == word);
    assert(dashed.skip(2) =~= rest);
    lemma_short_flags("--"@);
}

proof fn lemma_port_option(flag: Seq<char>, rest: Seq<Seq<char>>, p: ParsedView, port: u16)
    requires
        flag_of(flag) is Port,
    ensures
        walk(seq![flag, decimal(port as nat)] + rest, p) == walk(rest, (ParsedView { port, ..p })),
{
    crate::text::law_numbers_read_back(port as nat, 65535);
    let args = seq![flag, decimal(port as nat)] + rest;
    assert(args[0] == flag && args[1] == decimal(port as nat));
    assert(args.skip(2) =~= rest);
}

proof fn lemma_login_option(flag: Seq<char>, rest: Seq<Seq<char>>, p: ParsedView, value: Seq<char>)
    requires
        flag_of(flag) is Login,
    ensures
        walk(seq![flag, value] + rest, p) == walk(rest, (ParsedView { user: Some(value), ..p })),
{
    let args = seq![flag, value] + rest;
    assert(args[0] == flag && args[1] == value);
    assert(args.skip(2) =~= rest);
}

proof fn lemma_identity_option(
    flag: Seq<char>,
    rest: Seq<Seq<char>>,
    p: ParsedView,
    value: Seq<char>,
)
    requires
        flag_of(flag) is Identity,
    ensures
        walk(seq![flag, value] + rest, p) == walk(
            rest,
            (ParsedView { identity: Some(value), ..p }),
        ),
{
    let args = seq![flag, value] + rest;
    assert(args[0] == flag && args[1] == value);
    assert(args.skip(2) =~= rest);
}

proof fn lemma_timeout_option(flag: Seq<char>, rest: Seq<Seq<char>>, p: ParsedView, secs: u64)
    requires
        flag_of(flag) is ConnectTimeout,
    ensures
        walk(seq![flag, decimal(secs as nat)] + rest, p) == walk(
            rest,
            (ParsedView { connect_timeout: secs, ..p }),
        ),
{
    crate::text::law_numbers_read_back(secs as nat, u64::MAX as nat);
    let args = seq![flag, decimal(secs as nat)] + rest;
    assert(args[0] == flag && args[1] == decimal(secs as nat));
    assert(args.skip(2) =~= rest);
}

/// Every option with a value takes the word behind it, and sets what it is for
/// and nothing else; the words behind both are read as they would be alone.
pub proof fn law_options_with_a_value(
    rest: Seq<Seq<char>>,
    p: ParsedView,
    port: u16,
    secs: u64,
    value: Seq<char>,
)
    ensures
        walk(seq!["-p"@, decimal(port as nat)] + rest, p) == walk(rest, (ParsedView { port, ..p })),
        walk(seq!["--port"@, decimal(port as nat)] + rest, p) == walk(
            rest,
            (ParsedView { port, ..p }),
        ),
        walk(seq!["-l"@, value] + rest, p) == walk(rest, (ParsedView { user: Some(value), ..p })),
        walk(seq!["--login-name"@, value] + rest, p) == walk(
            rest,
            (ParsedView { user: Some(value), ..p }),
        ),
        walk(seq!["-i"@, value] + rest, p) == walk(
            rest,
            (ParsedView { identity: Some(value), ..p }),
        ),
        walk(seq!["--identity"@, value] + rest, p) == walk(
            rest,
            (ParsedView { identity: Some(value), ..p }),
        ),
        walk(seq!["--connect-timeout"@, decimal(secs as nat)] + rest, p) == walk(
            rest,
            (ParsedView { connect_timeout: secs, ..p }),
        ),
{
    lemma_valued_flags();
    lemma_port_option("-p"@, rest, p, port);
    lemma_port_option("--port"@, rest, p, port);
    lemma_login_option("-l"@, rest, p, value);
    lemma_login_option("--login-name"@, rest, p, value);
    lemma_identity_option("-i"@, rest, p, value);
    lemma_identity_option("--identity"@, rest, p, value);
    lemma_timeout_option("--connect-timeout"@, rest, p, secs);
}

proof fn lemma_valued_flags()
    ensures
        flag_of("-p"@) is Port,
        flag_of("--port"@) is Port,
        flag_of("-l"@) is Login,
        flag_of("--login-name"@) is Login,
        flag_of("-i"@) is Identity,
        flag_of("--identity"@) is Identity,
        flag_of("--connect-timeout"@) is ConnectTimeout,
{
    lemma_flag_texts();
    lemma_long_flags();
    lemma_short_flags("-p"@);
    lemma_short_flags("-l"@);
    lemma_short_flags("-i"@);
}

/// A port and a user may be attached to their option without a blank.
pub proof fn law_attached_values(
    rest: Seq<Seq<char>>,
    p: ParsedView,
    port: u16,
    value: Seq<char>,
)
    requires
        value.len() > 0,
    ensures
        walk(seq!["-p"@ + decimal(port as nat)] + rest, p) == walk(
            rest,
            (ParsedView { port, ..p }),
        ),
        walk(seq!["-l"@ + value] + rest, p) == walk(rest, (ParsedView { user: Some(value), ..p })),
{
    lemma_flag_texts();
    crate::text::law_numbers_read_back(port as nat, 65535);
    crate::text::lemma_decimal(port as nat);
    let a = "-p"@ + decimal(port as nat);
    let b = "-l"@ + value;
    assert(a.take(2) =~= "-p"@);
    assert(a.skip(2) =~= decimal(port as nat));
    assert(b.take(2) =~= "-l"@);
    assert(b.skip(2) =~= value);
    assert(a[1] == 'p' && b[1] == 'l' && a.len() > 2 && b.len() > 2);
    if "-p"@.is_prefix_of(b) {
        assert(b.take(2)[1] == b[1]);
    }
    assert(flag_of(a) == FlagView::PortValue(decimal(port as nat)));
    assert(flag_of(b) == FlagView::LoginValue(value));
    assert((seq![a] + rest).skip(1) =~= rest);
    assert((seq![b] + rest).skip(1) =~= rest);
}

/// Every option without a value sets what it is for and nothing else.
pub proof fn law_options_without_a_value(rest: Seq<Seq<char>>, p: ParsedView)
    ensures
        walk(seq!["-t"@] + rest, p) == walk(rest, (ParsedView { pty: PtyPolicy::Force, ..p })),
        walk(seq!["-T"@] + rest, p) == walk(rest, (ParsedView { pty: PtyPolicy::Never, ..p })),
        walk(seq!["-q"@] + rest, p) == walk(rest, (ParsedView { quiet: true, ..p })),
        walk(seq!["--quiet"@] + rest, p) == walk(rest, (ParsedView { quiet: true, ..p })),
        walk(seq!["-4"@] + rest, p) == walk(rest, (ParsedView { family: AddressFamily::V4, ..p })),
        walk(seq!["-6"@] + rest, p) == walk(rest, (ParsedView { family: AddressFamily::V6, ..p })),
        walk(seq!["-n"@] + rest, p) == walk(rest, (ParsedView { no_stdin: true, ..p })),
        walk(seq!["--accept-new"@] + rest, p) == walk(
            rest,
            (ParsedView { policy: HostKeyPolicy::AcceptNew, ..p }),
        ),
        walk(seq!["--refuse-new"@] + rest, p) == walk(
            rest,
            (ParsedView { policy: HostKeyPolicy::Refuse, ..p }),
        ),
        walk(seq!["-v"@] + rest, p) == walk(rest, p),
        walk(seq!["-C"@] + rest, p) == walk(rest, p),
        walk(seq!["-a"@] + rest, p) == walk(rest, p),
        walk(seq!["-x"@] + rest, p) == walk(rest, p),
        walk(seq!["-h"@] + rest, p) == Ok::<Walk, CliErrorView>(Walk::Help),
        walk(seq!["--help"@] + rest, p) == Ok::<Walk, CliErrorView>(Walk::Help),
{
    lemma_flag_texts();
    lemma_long_flags();
    lemma_one_word("-t"@, rest);
    lemma_one_word("-T"@, rest);
    lemma_one_word("-q"@, rest);
    lemma_one_word("--quiet"@, rest);
    lemma_one_word("-4"@, rest);
    lemma_one_word("-6"@, rest);
    lemma_one_word("-n"@, rest);
    lemma_one_word("--accept-new"@, rest);
    lemma_one_word("--refuse-new"@, rest);
    lemma_one_word("-v"@, rest);
    lemma_one_word("-C"@, rest);
    lemma_one_word("-a"@, rest);
    lemma_one_word("-x"@, rest);
    lemma_one_word("-h"@, rest);
    lemma_one_word("--help"@, rest);
    lemma_short_flags("-t"@);
    lemma_short_flags("-T"@);
    lemma_short_flags("-q"@);
    lemma_short_flags("-4"@);
    lemma_short_flags("-6"@);
    lemma_short_flags("-n"@);
    lemma_short_flags("-v"@);
    lemma_short_flags("-C"@);
    lemma_short_flags("-a"@);
    lemma_short_flags("-x"@);
    lemma_short_flags("-h"@);
}

proof fn lemma_one_word(word: Seq<char>, rest: Seq<Seq<char>>)
    ensures
        (seq![word] + rest)[0] == word,
        (seq![word] + rest).skip(1) == rest,
        (seq![word] + rest).len() > 0,
{
    assert((seq![word] + rest).skip(1) =~= rest);
}

/// A variable is set with what stands in front of the first equals sign as its
/// name and everything behind that as its value, after those that were set
/// before it.
pub proof fn law_variables_are_set(
    rest: Seq<Seq<char>>,
    p: ParsedView,
    key: Seq<char>,
    value: Seq<char>,
)
    requires
        !key.contains('='),
    ensures
        walk(seq!["-E"@, key.push('=') + value] + rest, p) == walk(
            rest,
            (ParsedView { env: p.env.push((key, value)), ..p }),
        ),
        walk(seq!["-E"@, key] + rest, p) == Err::<Walk, CliErrorView>(
            CliErrorView::EnvInvalid(key),
        ),
{
    lemma_flag_texts();
    lemma_short_flags("-E"@);
    crate::text::law_split_at_the_first(key, '=', value);
    assert((seq!["-E"@, key.push('=') + value] + rest).skip(2) =~= rest);
    assert((seq!["-E"@, key] + rest)[1] == key);
}

/// An option whose value is missing is an error, and so is a command line that
/// holds no target.
pub proof fn law_missing_words_are_errors(p: ParsedView)
    ensures
        walk(seq![], p) == Err::<Walk, CliErrorView>(CliErrorView::NoHost),
        walk(seq!["--"@], p) == Err::<Walk, CliErrorView>(CliErrorView::NoHostAfterDashes),
        walk(seq!["-p"@], p) == Err::<Walk, CliErrorView>(CliErrorView::PortMissing),
        walk(seq!["-l"@], p) == Err::<Walk, CliErrorView>(CliErrorView::LoginMissing),
        walk(seq!["-i"@], p) == Err::<Walk, CliErrorView>(CliErrorView::IdentityMissing),
        walk(seq!["-E"@], p) == Err::<Walk, CliErrorView>(CliErrorView::EnvMissing),
        walk(seq!["-o"@], p) == Err::<Walk, CliErrorView>(CliErrorView::OptionMissing),
        walk(seq!["--connect-timeout"@], p) == Err::<Walk, CliErrorView>(
            CliErrorView::TimeoutMissing,
        ),
{
    lemma_flag_texts();
    lemma_long_flags();
    lemma_short_flags("--"@);
    lemma_short_flags("-p"@);
    lemma_short_flags("-l"@);
    lemma_short_flags("-i"@);
    lemma_short_flags("-E"@);
    lemma_short_flags("-o"@);
}

/// A port or a timeout that is no number, or too large a one, is refused; and so
/// is an option that there is none of.
pub proof fn law_bad_words_are_refused(
    rest: Seq<Seq<char>>,
    p: ParsedView,
    bad: Seq<char>,
    letter: char,
)
    requires
        parsed_number(bad, 65535) is None,
        letter != '-' && letter != 'p' && letter != 'l' && letter != 'i' && letter != 't'
            && letter != 'T' && letter != 'q' && letter != '4' && letter != '6' && letter != 'v'
            && letter != 'C' && letter != 'a' && letter != 'x' && letter != 'n' && letter != 'E'
            && letter != 'o' && letter != 'h',
    ensures
        walk(seq!["-p"@, bad] + rest, p) is Err,
        walk(seq![seq!['-', letter]] + rest, p) == Err::<Walk, CliErrorView>(
            CliErrorView::UnknownOption(seq!['-', letter]),
        ),
{
    lemma_flag_texts();
    lemma_short_flags("-p"@);
    let a = seq!['-', letter];
    assert((seq![a] + rest)[0] == a);
    assert(a[1] == letter);
    if "-p"@.is_prefix_of(a) {
        assert(a.take(2)[1] == a[1]);
    }
    if "-l"@.is_prefix_of(a) {
        assert(a.take(2)[1] == a[1]);
    }
    assert(a.take(1) =~= "-"@);
    assert(flag_of(a) is Unknown);
}

/// The user and the host are what stands in front of the last at sign and behind
/// it; a target without one is a host.
pub proof fn law_targets_are_split(user: Seq<char>, host: Seq<char>)
    requires
        !host.contains('@'),
    ensures
        user.len() > 0 ==> target_parts(user.push('@') + host) == (Some(user), host),
        target_parts(host) == (None::<Seq<char>>, host),
{
    crate::text::law_split_at_the_last(user, '@', host);
}

/// A connection is made with what the command line says and with nothing else:
/// to the host that the target names, as the user that it names, or that an
/// option does; with every option as it was given, and what stands in for those
/// that were not.
pub proof fn law_connection_is_as_asked(
    o: Options,
    p: ParsedView,
    user: Seq<char>,
    host: Seq<char>,
    command: Seq<Seq<char>>,
)
    requires
        !host.contains('@'),
        user.len() > 0,
        are_options(o, p, user.push('@') + host, command) || are_options(o, p, host, command),
    ensures
        o.host@ == host,
        are_options(o, p, user.push('@') + host, command) ==> opt(o.user) == Some(user),
        !are_options(o, p, user.push('@') + host, command) ==> opt(o.user) == p.user,
        o.port == p.port,
        o.pty == p.pty,
        o.host_key_policy == p.policy,
        o.quiet == p.quiet,
        o.no_stdin == p.no_stdin,
        o.family == p.family,
        o.connect_timeout_secs == p.connect_timeout,
        pairs(o.env@) == p.env,
        p.identity is Some ==> o.paths_dir is Some && o.paths_dir->0@ == encode_utf8(p.identity->0),
        p.identity is None ==> o.paths_dir is None,
        command.len() == 0 ==> o.command is None,
        command.len() > 0 ==> o.command is Some && o.command->0@.len() == command.len(),
        no_options().port == 2222,
        no_options().user is None && no_options().identity is None,
        no_options().pty is Auto && no_options().policy is Ask && no_options().family is Any,
        !no_options().quiet && !no_options().no_stdin,
        no_options().connect_timeout == 10,
        no_options().env.len() == 0,
{
    law_targets_are_split(user, host);
    if let Some(c) = o.command {
        assert(texts(c@).len() == c@.len());
    }
}

/// The words behind the host on the command line are the words of the request:
/// as many, each as it was typed, in order. Where there are none, the request
/// asks for a shell.
pub proof fn law_words_of_the_request(
    args: Seq<Seq<char>>,
    o: Options,
    p: ParsedView,
    target: Seq<char>,
    command: Seq<Seq<char>>,
    local: LocalEnv,
    use_pty: bool,
    size: PtySize,
)
    requires
        walk(args, no_options()) == Ok::<Walk, CliErrorView>(Walk::Target(p, target, command)),
        are_options(o, p, target, command),
    ensures
        ({
            let req = request_for(o, local, use_pty, size);
            let first = args.len() - command.len();
            &&& 0 < first <= args.len()
            &&& args[first - 1] == target
            &&& req.command is None <==> first == args.len()
            &&& req.command is Some ==> req.command->0.len() == args.len() - first
            &&& req.command is Some ==> forall|i: int|
                first <= i < args.len() ==> #[trigger] args[i] == req.command->0[i - first]
        }),
{
    law_command_is_the_rest(args, no_options());
    let first = args.len() - command.len();
    if let Some(c) = o.command {
        assert forall|i: int| first <= i < args.len() implies #[trigger] args[i] == texts(c@)[i
            - first] by {
            assert(args.skip(first)[i - first] == args[i]);
        }
    }
}

/// What is typed behind the host is what runs on the server: the first word is
/// the program, and each further one is one argument of it, as it was typed.
pub proof fn law_command_line_is_executed(
    args: Seq<Seq<char>>,
    o: Options,
    p: ParsedView,
    target: Seq<char>,
    command: Seq<Seq<char>>,
    local: LocalEnv,
    use_pty: bool,
    size: PtySize,
    user: Account,
    plan: LaunchPlan,
)
    requires
        walk(args, no_options()) == Ok::<Walk, CliErrorView>(Walk::Target(p, target, command)),
        are_options(o, p, target, command),
        plan.starts(user, request_for(o, local, use_pty, size)),
        command.len() > 0,
    ensures
        ({
            let first = args.len() - command.len();
            &&& 0 < first < args.len()
            &&& args[first - 1] == target
            &&& plan.program@ == encode_utf8(args[first])
            &&& plan.args@.len() == args.len() - first - 1
            &&& forall|i: int|
                first < i < args.len() ==> #[trigger] args[i] == plan.args@[i - first - 1]@
        }),
{
    let req = request_for(o, local, use_pty, size);
    law_words_of_the_request(args, o, p, target, command, local, use_pty, size);
    let argv = req.command->0;
    let first = args.len() - command.len();
    assert(args[first] == argv[0]);
    crate::child::law_command_is_executed_as_asked(plan, user, req, argv);
    assert forall|i: int| first < i < args.len() implies #[trigger] args[i] == plan.args@[i - first
        - 1]@ by {
        assert(plan.args@[i - first - 1]@ == argv[i - first]);
    }
}

// ---------------------------------------------------------------------------
// Generating a key
// ---------------------------------------------------------------------------

/// What `qsh keygen` was asked for.
#[derive(Debug)]
pub struct KeygenArgs {
    pub days: u32,
    pub force: bool,
    pub dir: Option<String>,
}

/// What the arguments of `qsh keygen` come to, with what was said before them.
pub open spec fn keygen_walk(
    args: Seq<Seq<char>>,
    days: u32,
    force: bool,
    dir: Option<Seq<char>>,
) -> Result<(u32, bool, Option<Seq<char>>), CliErrorView>
    decreases args.len(),
{
    if args.len() == 0 {
        Ok((days, force, dir))
    } else if args[0] == "--force"@ || args[0] == "-f"@ {
        keygen_walk(args.skip(1), days, true, dir)
    } else if args[0] == "--days"@ {
        if args.len() < 2 {
            Err(CliErrorView::DaysMissing)
        } else {
            match parsed_number(args[1], u32::MAX as nat) {
                Some(n) => keygen_walk(args.skip(2), n as u32, force, dir),
                None => Err(CliErrorView::DaysInvalid(u32_complaint(args[1]))),
            }
        }
    } else if args[0] == "--identity"@ || args[0] == "-i"@ || args[0] == "--dir"@ {
        if args.len() < 2 {
            Err(CliErrorView::KeygenPathMissing)
        } else {
            keygen_walk(args.skip(2), days, force, Some(args[1]))
        }
    } else {
        Err(CliErrorView::KeygenUnknown(args[0]))
    }
}

/// How long a key is valid unless asked otherwise, in days.
pub const KEYGEN_DAYS: u32 = 3650;

/// Parses the arguments of `qsh keygen`.
pub fn parse_keygen(args: &Vec<String>) -> (r: Result<KeygenArgs, CliError>)
    ensures
        match keygen_walk(texts(args@), KEYGEN_DAYS, false, None) {
            Ok((days, force, dir)) => r is Ok && r->Ok_0.days == days && r->Ok_0.force == force
                && opt(r->Ok_0.dir) == dir,
            Err(e) => r is Err && r->Err_0@ == e,
        },
{
    let ghost all = texts(args@);
    let mut days: u32 = KEYGEN_DAYS;
    let mut force = false;
    let mut dir: Option<String> = None;
    let mut i: usize = 0;
    assert(all.skip(0) =~= all);
    while i < args.len()
        invariant
            i <= args@.len(),
            all == texts(args@),
            keygen_walk(all, KEYGEN_DAYS, false, None) == keygen_walk(
                all.skip(i as int),
                days,
                force,
                opt(dir),
            ),
        decreases args@.len() - i,
    {
        let ghost rest = all.skip(i as int);
        let arg: &str = args[i].as_str();
        assert(rest[0] == arg@);
        assert(rest.skip(1) =~= all.skip(i + 1));
        assert(rest.len() >= 2 ==> rest.skip(2) =~= all.skip(i + 2));
        assert(rest.len() >= 2 ==> rest[1] == args@[i + 1]@);
        let last: bool = i + 1 >= args.len();
        if same(arg, "--force") || same(arg, "-f") {
            force = true;
            i += 1;
        } else if same(arg, "--days") {
            if last {
                return Err(CliError::DaysMissing);
            }
            match parse_number(args[i + 1].as_str(), u32::MAX as u64) {
                Some(n) => {
                    days = n as u32;
                },
                None => return Err(CliError::DaysInvalid(u32_error(args[i + 1].as_str()))),
            }
            i += 2;
        } else if same(arg, "--identity") || same(arg, "-i") || same(arg, "--dir") {
            if last {
                return Err(CliError::KeygenPathMissing);
            }
            dir = Some(args[i + 1].clone());
            i += 2;
        } else {
            return Err(CliError::KeygenUnknown(arg.to_owned()));
        }
    }
    assert(all.skip(i as int) =~= Seq::empty());
    Ok(KeygenArgs { days, force, dir })
}

/// May an identity be written at `cert_path`? Not over an existing one, unless
/// that is asked for.
pub fn may_replace(cert_path: &str, present: bool, force: bool) -> (r: Result<(), String>)
    ensures
        match r {
            Ok(()) => !present || force,
            Err(why) => present && !force && why@ == cert_path@
                + " already exists; pass --force to replace your identity"@,
        },
{
    if present && !force {
        let mut out = cert_path.to_owned();
        out.append(" already exists; pass --force to replace your identity");
        return Err(out);
    }
    Ok(())
}

/// What is said when there is no identity.
pub fn no_identity(paths: &ClientPaths) -> (out: String)
    ensures
        out@ == "no identity in "@ + shown(paths.dir@) + " (run `qsh keygen`)"@,
{
    let mut out = "no identity in ".to_owned();
    out.append(paths.dir.shown().as_str());
    out.append(" (run `qsh keygen`)");
    out
}

/// The user's name where the environment does not say.
pub open spec fn user_or_default(user: Option<Seq<char>>) -> Seq<char> {
    match user {
        Some(u) => u,
        None => "user"@,
    }
}

/// The name that the certificate of a client carries.
pub fn client_names() -> (out: Vec<String>)
    ensures
        texts(out@) == seq!["qsh-client"@],
{
    let mut out: Vec<String> = Vec::new();
    out.push("qsh-client".to_owned());
    assert(texts(out@) =~= seq!["qsh-client"@]);
    out
}

/// The common name of an identity.
pub fn identity_name(user: &Option<String>, host: &str) -> (out: String)
    ensures
        out@ == user_or_default(opt(*user)) + "@"@ + host@,
{
    let mut out = match user {
        Some(u) => u.clone(),
        None => "user".to_owned(),
    };
    out.append("@");
    out.append(host);
    out
}

/// The name under which a certificate travels to the server.
pub fn whoami_tag(user: &Option<String>, host: &str) -> (out: String)
    ensures
        out@ == user_or_default(opt(*user)) + "-"@ + host@,
{
    let mut out = match user {
        Some(u) => u.clone(),
        None => "user".to_owned(),
    };
    out.append("-");
    out.append(host);
    out
}

/// What is reported about a fresh identity.
pub open spec fn keygen_lines(dir: Seq<u8>, fp: Fingerprint, days: u32, tag: Seq<char>) -> Seq<
    Seq<char>,
> {
    seq![
        "Wrote "@ + shown(inside(dir, encode_utf8("id.key"@))),
        "Wrote "@ + shown(inside(dir, encode_utf8("id.crt"@))),
        "Fingerprint: "@ + fp.text(),
        "Valid for "@ + decimal(days as nat) + " days."@,
        ""@,
        "Authorize this key on the server:"@,
        "  scp "@ + shown(inside(dir, encode_utf8("id.crt"@))) + " server:/tmp/"@ + tag + ".crt"@,
        "  ssh server sudo qsh-server authorize /tmp/"@ + tag + ".crt --user <account>"@,
    ]
}

/// What is reported about a fresh identity.
pub fn keygen_report(paths: &ClientPaths, fp: Fingerprint, days: u32, tag: &str) -> (out: Vec<String>)
    ensures
        texts(out@) == keygen_lines(paths.dir@, fp, days, tag@),
{
    let mut key_line = "Wrote ".to_owned();
    key_line.append(paths.key().shown().as_str());
    let mut cert_line = "Wrote ".to_owned();
    cert_line.append(paths.cert().shown().as_str());
    let mut fp_line = "Fingerprint: ".to_owned();
    fp_line.append(fp.to_string().as_str());
    let mut days_line = "Valid for ".to_owned();
    days_line.append(decimal_text(days as u64).as_str());
    days_line.append(" days.");
    let mut scp = "  scp ".to_owned();
    scp.append(paths.cert().shown().as_str());
    scp.append(" server:/tmp/");
    scp.append(tag);
    scp.append(".crt");
    let mut ssh = "  ssh server sudo qsh-server authorize /tmp/".to_owned();
    ssh.append(tag);
    ssh.append(".crt --user <account>");
    let out: Vec<String> = vec![
        key_line,
        cert_line,
        fp_line,
        days_line,
        "".to_owned(),
        "Authorize this key on the server:".to_owned(),
        scp,
        ssh,
    ];
    assert(texts(out@) =~= keygen_lines(paths.dir@, fp, days, tag@));
    out
}

// ---------------------------------------------------------------------------
// Managing known hosts
// ---------------------------------------------------------------------------

/// What `qsh known-hosts` was asked for.
#[derive(Debug)]
pub enum HostsAction {
    List,
    Add { host: String, fingerprint: String },
    Remove { host: String },
}

/// What a [`HostsAction`] holds.
pub enum HostsActionView {
    List,
    Add(Seq<char>, Seq<char>),
    Remove(Seq<char>),
}

impl View for HostsAction {
    type V = HostsActionView;

    open spec fn view(&self) -> HostsActionView {
        match *self {
            HostsAction::List => HostsActionView::List,
            HostsAction::Add { host, fingerprint } => HostsActionView::Add(host@, fingerprint@),
            HostsAction::Remove { host } => HostsActionView::Remove(host@),
        }
    }
}

/// What the arguments of `qsh known-hosts` ask for, without an identity.
pub open spec fn hosts_action(args: Seq<Seq<char>>) -> Result<HostsActionView, CliErrorView> {
    if args.len() == 0 || args[0] == "list"@ {
        Ok(HostsActionView::List)
    } else if args[0] == "add"@ {
        if args.len() < 3 {
            Err(CliErrorView::AddUsage)
        } else {
            Ok(HostsActionView::Add(args[1], args[2]))
        }
    } else if args[0] == "remove"@ {
        if args.len() < 2 {
            Err(CliErrorView::RemoveUsage)
        } else {
            Ok(HostsActionView::Remove(args[1]))
        }
    } else {
        Err(CliErrorView::HostsUnknown(args[0]))
    }
}

/// What the arguments of `qsh known-hosts` ask for, and the directory of the
/// identity whose pins are meant, if another than the usual.
pub open spec fn hosts_request(args: Seq<Seq<char>>) -> Result<
    (Option<Seq<char>>, HostsActionView),
    CliErrorView,
> {
    let named = args.len() > 0 && (args[0] == "-i"@ || args[0] == "--identity"@);
    if named && args.len() < 2 {
        Err(CliErrorView::IdentityMissing)
    } else {
        let dir = if named {
            Some(args[1])
        } else {
            None
        };
        match hosts_action(
            if named {
                args.skip(2)
            } else {
                args
            },
        ) {
            Ok(action) => Ok((dir, action)),
            Err(e) => Err(e),
        }
    }
}

/// Parses the arguments of `qsh known-hosts`.
pub fn parse_known_hosts(args: &Vec<String>) -> (r: Result<(Option<String>, HostsAction), CliError>)
    ensures
        match hosts_request(texts(args@)) {
            Ok((dir, action)) => r is Ok && opt(r->Ok_0.0) == dir && r->Ok_0.1@ == action,
            Err(e) => r is Err && r->Err_0@ == e,
        },
{
    let ghost all = texts(args@);
    let named: bool = args.len() > 0 && (same(args[0].as_str(), "-i") || same(
        args[0].as_str(),
        "--identity",
    ));
    assert(args@.len() > 0 ==> all[0] == args@[0]@);
    if named && args.len() < 2 {
        return Err(CliError::IdentityMissing);
    }
    let from: usize = if named {
        2
    } else {
        0
    };
    let dir: Option<String> = if named {
        assert(all[1] == args@[1]@);
        Some(args[1].clone())
    } else {
        None
    };
    let rest = tail(args, from);
    let ghost asked = texts(rest@);
    assert(all.skip(0) =~= all);
    assert(asked.len() == rest@.len());
    if rest.len() == 0 {
        return Ok((dir, HostsAction::List));
    }
    assert(asked[0] == rest@[0]@);
    assert(rest@.len() >= 2 ==> asked[1] == rest@[1]@);
    assert(rest@.len() >= 3 ==> asked[2] == rest@[2]@);
    let what: &str = rest[0].as_str();
    if same(what, "list") {
        Ok((dir, HostsAction::List))
    } else if same(what, "add") {
        if rest.len() < 3 {
            return Err(CliError::AddUsage);
        }
        Ok((dir, HostsAction::Add { host: rest[1].clone(), fingerprint: rest[2].clone() }))
    } else if same(what, "remove") {
        if rest.len() < 2 {
            return Err(CliError::RemoveUsage);
        }
        Ok((dir, HostsAction::Remove { host: rest[1].clone() }))
    } else {
        Err(CliError::HostsUnknown(what.to_owned()))
    }
}

/// The lines of `qsh known-hosts list`.
pub open spec fn hosts_listing(path: Seq<char>, pins: Seq<(Seq<char>, Seq<u8>)>) -> Seq<Seq<char>> {
    if pins.len() == 0 {
        seq!["no known hosts in "@ + path]
    } else {
        pins.map_values(
            |p: (Seq<char>, Seq<u8>)| p.0 + " "@ + ("sha256:"@ + crate::crypto::hex(p.1)),
        )
    }
}

/// The lines of `qsh known-hosts list`.
pub fn list_hosts(path: &str, known: &KnownHosts) -> (out: Vec<String>)
    ensures
        texts(out@) == hosts_listing(path@, known@),
{
    let mut out: Vec<String> = Vec::new();
    if known.entries.len() == 0 {
        let mut line = "no known hosts in ".to_owned();
        line.append(path);
        out.push(line);
        assert(texts(out@) =~= hosts_listing(path@, known@));
        return out;
    }
    let ghost all = hosts_listing(path@, known@);
    let mut i: usize = 0;
    assert(texts(out@) =~= all.take(0));
    while i < known.entries.len()
        invariant
            i <= known.entries@.len(),
            known.entries@.len() > 0,
            all == hosts_listing(path@, known@),
            texts(out@) == all.take(i as int),
        decreases known.entries@.len() - i,
    {
        let ghost before = out@;
        let mut line = known.entries[i].0.clone();
        line.append(" ");
        line.append(known.entries[i].1.to_string().as_str());
        assert(known@[i as int] == (known.entries@[i as int].0@, known.entries@[i as int].1.0@));
        assert(line@ =~= all[i as int]);
        out.push(line);
        assert(texts(out@) =~= texts(before).push(all[i as int]));
        assert(all.take(i + 1) =~= all.take(i as int).push(all[i as int]));
        i += 1;
    }
    assert(all.take(i as int) =~= all);
    out
}

/// What is said after `n` pins of a host were removed.
pub fn removed_notice(n: usize, host: &str) -> (out: String)
    ensures
        out@ == "removed "@ + decimal(n as nat) + " entr"@ + (if n == 1 {
            "y"@
        } else {
            "ies"@
        }) + " for "@ + host@,
{
    let mut out = "removed ".to_owned();
    out.append(decimal_text(n as u64).as_str());
    out.append(" entr");
    if n == 1 {
        out.append("y");
    } else {
        out.append("ies");
    }
    out.append(" for ");
    out.append(host);
    out
}

/// Of the settings of ssh only the one about host keys is understood, in whatever
/// case it is written: to accept new hosts, or to refuse them. No other value of
/// it, and no other setting, changes the policy: in particular nothing that would
/// switch the checking off.
pub proof fn law_ssh_settings(key: Seq<char>, value: Seq<char>, policy: HostKeyPolicy)
    requires
        !key.contains('='),
    ensures
        ({
            let after = ssh_policy(key.push('=') + value, policy);
            let meant = lowercase(key) == lowercase("StrictHostKeyChecking"@);
            &&& meant && lowercase(value) == "accept-new"@ ==> after is AcceptNew
            &&& meant && lowercase(value) == "yes"@ ==> after is Refuse
            &&& meant && lowercase(value) != "accept-new"@ && lowercase(value) != "yes"@ ==> after
                == policy
            &&& !meant ==> after == policy
            &&& ssh_policy(key, policy) == policy
        }),
{
    crate::text::law_split_at_the_first(key, '=', value);
    reveal_strlit("accept-new");
    reveal_strlit("yes");
    assert("accept-new"@.len() != "yes"@.len());
}

/// The options of `qsh keygen` set what they are for and nothing else, and the
/// words behind them are read as they would be alone.
pub proof fn law_keygen_options(
    rest: Seq<Seq<char>>,
    days: u32,
    force: bool,
    dir: Option<Seq<char>>,
    n: u32,
    value: Seq<char>,
)
    ensures
        keygen_walk(seq![], days, force, dir) == Ok::<
            (u32, bool, Option<Seq<char>>),
            CliErrorView,
        >((days, force, dir)),
        keygen_walk(seq!["--days"@, decimal(n as nat)] + rest, days, force, dir) == keygen_walk(
            rest,
            n,
            force,
            dir,
        ),
        keygen_walk(seq!["--force"@] + rest, days, force, dir) == keygen_walk(
            rest,
            days,
            true,
            dir,
        ),
        keygen_walk(seq!["-f"@] + rest, days, force, dir) == keygen_walk(rest, days, true, dir),
        keygen_walk(seq!["--dir"@, value] + rest, days, force, dir) == keygen_walk(
            rest,
            days,
            force,
            Some(value),
        ),
        keygen_walk(seq!["--identity"@, value] + rest, days, force, dir) == keygen_walk(
            rest,
            days,
            force,
            Some(value),
        ),
        keygen_walk(seq!["-i"@, value] + rest, days, force, dir) == keygen_walk(
            rest,
            days,
            force,
            Some(value),
        ),
{
    reveal_strlit("--days");
    reveal_strlit("--force");
    reveal_strlit("-f");
    reveal_strlit("--dir");
    reveal_strlit("--identity");
    reveal_strlit("-i");
    assert("-f"@[1] == 'f' && "-i"@[1] == 'i');
    assert("--days"@.len() == 6 && "--force"@.len() == 7 && "-f"@.len() == 2);
    assert("--dir"@.len() == 5 && "--identity"@.len() == 10 && "-i"@.len() == 2);
    crate::text::law_numbers_read_back(n as nat, u32::MAX as nat);
    lemma_one_word("--force"@, rest);
    lemma_one_word("-f"@, rest);
    lemma_word_pair("--days"@, decimal(n as nat), rest);
    lemma_word_pair("--dir"@, value, rest);
    lemma_word_pair("--identity"@, value, rest);
    lemma_word_pair("-i"@, value, rest);
}

proof fn lemma_word_pair(a: Seq<char>, b: Seq<char>, rest: Seq<Seq<char>>)
    ensures
        (seq![a, b] + rest)[0] == a,
        (seq![a, b] + rest)[1] == b,
        (seq![a, b] + rest).skip(2) == rest,
        (seq![a, b] + rest).len() >= 2,
{
    assert((seq![a, b] + rest).skip(2) =~= rest);
}

/// What `qsh known-hosts` is asked for: a pin is added for the host that is
/// named, with the fingerprint that is given; the pins of the host that is named
/// are removed; without anything, or by name, they are listed. To name a
/// directory in front of it changes nothing but whose pins are meant.
pub proof fn law_known_hosts_requests(
    host: Seq<char>,
    fp: Seq<char>,
    dir: Seq<char>,
    args: Seq<Seq<char>>,
)
    requires
        args.len() == 0 || (args[0] != "-i"@ && args[0] != "--identity"@),
    ensures
        hosts_action(seq![]) == Ok::<HostsActionView, CliErrorView>(HostsActionView::List),
        hosts_action(seq!["list"@]) == Ok::<HostsActionView, CliErrorView>(HostsActionView::List),
        hosts_action(seq!["add"@, host, fp]) == Ok::<HostsActionView, CliErrorView>(
            HostsActionView::Add(host, fp),
        ),
        hosts_action(seq!["remove"@, host]) == Ok::<HostsActionView, CliErrorView>(
            HostsActionView::Remove(host),
        ),
        hosts_action(seq!["add"@, host]) is Err,
        hosts_action(seq!["remove"@]) is Err,
        match hosts_action(args) {
            Ok(action) => hosts_request(args) == Ok::<
                (Option<Seq<char>>, HostsActionView),
                CliErrorView,
            >((None, action)) && hosts_request(seq!["-i"@, dir] + args) == Ok::<
                (Option<Seq<char>>, HostsActionView),
                CliErrorView,
            >((Some(dir), action)),
            Err(e) => hosts_request(args) == Err::<
                (Option<Seq<char>>, HostsActionView),
                CliErrorView,
            >(e) && hosts_request(seq!["-i"@, dir] + args) == Err::<
                (Option<Seq<char>>, HostsActionView),
                CliErrorView,
            >(e),
        },
{
    reveal_strlit("list");
    reveal_strlit("add");
    reveal_strlit("remove");
    assert("list"@.len() == 4 && "add"@.len() == 3 && "remove"@.len() == 6);
    let add = seq!["add"@, host, fp];
    assert(add[0] == "add"@ && add[1] == host && add[2] == fp);
    let short = seq!["add"@, host];
    assert(short[0] == "add"@);
    let remove = seq!["remove"@, host];
    assert(remove[0] == "remove"@ && remove[1] == host);
    let alone = seq!["remove"@];
    assert(alone[0] == "remove"@);
    lemma_word_pair("-i"@, dir, args);
}

/// The first word says what is wanted: one of the few commands that have a name
/// of their own, or else a connection.
pub proof fn law_commands(first: Seq<char>, rest: Seq<Seq<char>>)
    ensures
        command_of(seq![]) is Usage,
        command_of(seq!["keygen"@] + rest) is Keygen,
        command_of(seq!["fingerprint"@] + rest) is Fingerprint,
        command_of(seq!["known-hosts"@] + rest) is KnownHosts,
        first != "keygen"@ && first != "fingerprint"@ && first != "known-hosts"@ && first != "-h"@
            && first != "--help"@ && first != "-V"@ && first != "--version"@ ==> command_of(
            seq![first] + rest,
        ) is Connect,
        command_of(seq!["-h"@] + rest) is Help,
        command_of(seq!["--help"@] + rest) is Help,
        command_of(seq!["-V"@] + rest) is Version,
        command_of(seq!["--version"@] + rest) is Version,
{
    reveal_strlit("-h");
    reveal_strlit("--help");
    reveal_strlit("-V");
    reveal_strlit("--version");
    reveal_strlit("keygen");
    reveal_strlit("fingerprint");
    reveal_strlit("known-hosts");
    assert("-h"@[1] == 'h' && "-V"@[1] == 'V');
    assert("--help"@[0] == '-' && "keygen"@[0] == 'k');
    assert("--help"@.len() == 6 && "--version"@.len() == 9 && "-h"@.len() == 2 && "-V"@.len() == 2);
    assert("fingerprint"@[0] == 'f' && "known-hosts"@[0] == 'k' && "known-hosts"@[1] == 'n');
    lemma_one_word("keygen"@, rest);
    lemma_one_word("fingerprint"@, rest);
    lemma_one_word("known-hosts"@, rest);
    lemma_one_word("-h"@, rest);
    lemma_one_word("--help"@, rest);
    lemma_one_word("-V"@, rest);
    lemma_one_word("--version"@, rest);
    lemma_one_word(first, rest);
}

/// Every pinned host is listed on a line of its own, by its name and the
/// fingerprint of its key, in the order in which they are pinned; where none
/// is, that is said, with the file that was looked at.
pub proof fn law_every_host_is_listed(path: Seq<char>, pins: Seq<(Seq<char>, Seq<u8>)>, i: int)
    requires
        0 <= i < pins.len(),
    ensures
        hosts_listing(path, pins).len() == pins.len(),
        hosts_listing(path, pins)[i] == pins[i].0 + " "@ + ("sha256:"@ + crate::crypto::hex(
            pins[i].1,
        )),
        hosts_listing(path, Seq::empty()) == seq!["no known hosts in "@ + path],
{
}

/// A user whose name is known goes by it.
pub proof fn law_names_of_users(user: Seq<char>)
    ensures
        user_or_default(Some(user)) == user,
        user_or_default(None) == "user"@,
{
}

} // verus!
