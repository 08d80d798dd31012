//! On-disk layout, configuration files and the authorisation store.

use vstd::prelude::*;
use vstd::utf8::{decode_utf8, encode_utf8, valid_utf8};
use vstd::utf8::{encode_utf8_decode_utf8, encode_utf8_valid_utf8};

use crate::crypto::{
    certificate, hex, load_cert, parsed_fingerprint, pem_sections, sha256, Fingerprint,
    FingerprintError, PemError,
};
use crate::order::{
    bytes_le, lemma_lex_antisymmetric, lemma_lex_reflexive, lemma_lex_total,
    lemma_lex_transitive, lemma_values_injective, lex_le, lex_lt, values,
};
use crate::path::{extend, inside, opt_path, shown, OsPath};
use crate::text::{
    chars_of, copy_texts, decimal, decimal_text, is_space, lemma_first_line, lemma_two_words,
    lines, list_has, same, split_lines, split_words, starts_with, texts, words,
};

verus! {

/// Default UDP port. QUIC is UDP, so this does not collide with sshd.
pub const DEFAULT_PORT: u16 = 2222;

/// Is `name` an environment variable clients are allowed to set? Anything else
/// is dropped, so a client cannot smuggle in `LD_PRELOAD` or `PATH`.
pub open spec fn env_permitted(name: Seq<char>) -> bool {
    ||| name == "TERM"@
    ||| name == "LANG"@
    ||| name == "COLORTERM"@
    ||| "LC_"@.is_prefix_of(name)
    ||| "QSH_"@.is_prefix_of(name)
}

/// Is `name` an environment variable clients are allowed to set?
#[must_use]
pub fn env_allowed(name: &str) -> (r: bool)
    ensures
        r == env_permitted(name@),
{
    same(name, "TERM") || same(name, "LANG") || same(name, "COLORTERM") || starts_with(name, "LC_")
        || starts_with(name, "QSH_")
}

// ---------------------------------------------------------------------------
// Directories
// ---------------------------------------------------------------------------

/// No configuration directory can be determined; the message says what to set.
#[derive(Debug, Clone, Copy, PartialEq, Eq, Structural)]
pub enum NoDirectory {
    Client,
    Server,
}

impl NoDirectory {
    /// What the error says.
    pub open spec fn text(&self) -> Seq<char> {
        match *self {
            NoDirectory::Client => "cannot determine your config directory; set QSH_HOME"@,
            NoDirectory::Server => "cannot determine your config directory; set QSH_SERVER_HOME"@,
        }
    }

    /// What the error says.
    pub fn message(&self) -> (out: String)
        ensures
            out@ == self.text(),
    {
        match self {
            NoDirectory::Client => "cannot determine your config directory; set QSH_HOME".to_owned(),
            NoDirectory::Server =>
                "cannot determine your config directory; set QSH_SERVER_HOME".to_owned(),
        }
    }
}

/// The view of an optional text.
pub open spec fn opt(s: Option<String>) -> Option<Seq<char>> {
    match s {
        Some(t) => Some(t@),
        None => None,
    }
}

/// The client's directory: `$QSH_HOME` when set, else `qsh` in the user's
/// configuration directory.
pub open spec fn client_home(qsh_home: Option<Seq<u8>>, config_dir: Option<Seq<u8>>) -> Option<
    Seq<u8>,
> {
    match qsh_home {
        Some(dir) => Some(dir),
        None => match config_dir {
            Some(dir) => Some(inside(dir, encode_utf8("qsh"@))),
            None => None,
        },
    }
}

/// `~/.config/qsh`, or `$QSH_HOME` when set. Fails if no configuration directory
/// can be determined.
pub fn client_dir(qsh_home: Option<OsPath>, config_dir: Option<OsPath>) -> (r: Result<
    OsPath,
    NoDirectory,
>)
    ensures
        match r {
            Ok(dir) => client_home(opt_path(qsh_home), opt_path(config_dir)) == Some(dir@),
            Err(e) => client_home(opt_path(qsh_home), opt_path(config_dir)) is None && e is Client,
        },
{
    match qsh_home {
        Some(dir) => Ok(dir),
        None => match config_dir {
            Some(dir) => Ok(dir.join("qsh")),
            None => Err(NoDirectory::Client),
        },
    }
}

/// The server's directory: `$QSH_SERVER_HOME` when set, else `/etc/qsh` for
/// root, else `qsh-server` in the user's configuration directory.
pub open spec fn server_home(
    qsh_server_home: Option<Seq<u8>>,
    is_root: bool,
    config_dir: Option<Seq<u8>>,
) -> Option<Seq<u8>> {
    match qsh_server_home {
        Some(dir) => Some(dir),
        None => if is_root {
            Some(encode_utf8("/etc/qsh"@))
        } else {
            match config_dir {
                Some(dir) => Some(inside(dir, encode_utf8("qsh-server"@))),
                None => None,
            }
        },
    }
}

/// `/etc/qsh` when running as root, `~/.config/qsh-server` otherwise, or
/// `$QSH_SERVER_HOME` when set. Fails if no configuration directory can be
/// determined.
pub fn server_dir(
    qsh_server_home: Option<OsPath>,
    is_root: bool,
    config_dir: Option<OsPath>,
) -> (r: Result<OsPath, NoDirectory>)
    ensures
        match r {
            Ok(dir) => server_home(opt_path(qsh_server_home), is_root, opt_path(config_dir)) == Some(dir@),
            Err(e) => server_home(opt_path(qsh_server_home), is_root, opt_path(config_dir)) is None
                && e is Server,
        },
{
    match qsh_server_home {
        Some(dir) => Ok(dir),
        None => if is_root {
            Ok(OsPath::of_text("/etc/qsh"))
        } else {
            match config_dir {
                Some(dir) => Ok(dir.join("qsh-server")),
                None => Err(NoDirectory::Server),
            }
        },
    }
}

/// Paths inside the client's configuration directory.
#[derive(Debug, Clone)]
pub struct ClientPaths {
    pub dir: OsPath,
}

impl ClientPaths {
    #[must_use]
    pub fn new(dir: OsPath) -> (p: ClientPaths)
        ensures
            p.dir == dir,
    {
        ClientPaths { dir }
    }

    /// Locate the client directory from what the environment says. Fails if no
    /// configuration directory can be determined.
    pub fn discover(qsh_home: Option<OsPath>, config_dir: Option<OsPath>) -> (r: Result<
        ClientPaths,
        NoDirectory,
    >)
        ensures
            match r {
                Ok(p) => client_home(opt_path(qsh_home), opt_path(config_dir)) == Some(p.dir@),
                Err(e) => client_home(opt_path(qsh_home), opt_path(config_dir)) is None && e is Client,
            },
    {
        match client_dir(qsh_home, config_dir) {
            Ok(dir) => Ok(ClientPaths::new(dir)),
            Err(e) => Err(e),
        }
    }

    #[must_use]
    pub fn cert(&self) -> (path: OsPath)
        ensures
            path@ == inside(self.dir@, encode_utf8("id.crt"@)),
    {
        self.dir.join("id.crt")
    }

    #[must_use]
    pub fn key(&self) -> (path: OsPath)
        ensures
            path@ == inside(self.dir@, encode_utf8("id.key"@)),
    {
        self.dir.join("id.key")
    }

    #[must_use]
    pub fn known_hosts(&self) -> (path: OsPath)
        ensures
            path@ == inside(self.dir@, encode_utf8("known_hosts"@)),
    {
        self.dir.join("known_hosts")
    }
}

/// Paths inside the server's configuration directory.
#[derive(Debug, Clone)]
pub struct ServerPaths {
    pub dir: OsPath,
}

impl ServerPaths {
    #[must_use]
    pub fn new(dir: OsPath) -> (p: ServerPaths)
        ensures
            p.dir == dir,
    {
        ServerPaths { dir }
    }

    /// Locate the server directory from what the environment says. Fails if no
    /// configuration directory can be determined.
    pub fn discover(
        qsh_server_home: Option<OsPath>,
        is_root: bool,
        config_dir: Option<OsPath>,
    ) -> (r: Result<ServerPaths, NoDirectory>)
        ensures
            match r {
                Ok(p) => server_home(opt_path(qsh_server_home), is_root, opt_path(config_dir)) == Some(
                    p.dir@,
                ),
                Err(e) => server_home(opt_path(qsh_server_home), is_root, opt_path(config_dir)) is None
                    && e is Server,
            },
    {
        match server_dir(qsh_server_home, is_root, config_dir) {
            Ok(dir) => Ok(ServerPaths::new(dir)),
            Err(e) => Err(e),
        }
    }

    #[must_use]
    pub fn cert(&self) -> (path: OsPath)
        ensures
            path@ == inside(self.dir@, encode_utf8("server.crt"@)),
    {
        self.dir.join("server.crt")
    }

    #[must_use]
    pub fn key(&self) -> (path: OsPath)
        ensures
            path@ == inside(self.dir@, encode_utf8("server.key"@)),
    {
        self.dir.join("server.key")
    }

    #[must_use]
    pub fn config(&self) -> (path: OsPath)
        ensures
            path@ == inside(self.dir@, encode_utf8("qsh-server.toml"@)),
    {
        self.dir.join("qsh-server.toml")
    }

    #[must_use]
    pub fn authorized(&self) -> (path: OsPath)
        ensures
            path@ == inside(self.dir@, encode_utf8("authorized"@)),
    {
        self.dir.join("authorized")
    }
}

// ---------------------------------------------------------------------------
// The server's configuration
// ---------------------------------------------------------------------------

/// `qsh-server.toml`.
#[derive(Debug, Clone)]
pub struct ServerConfig {
    /// Address to listen on, e.g. `0.0.0.0:2222` or `[::]:2222`.
    pub listen: String,
    /// Drop a connection after this many seconds without traffic. QUIC uses the
    /// smaller peer timeout; the qsh client caps it at 60 seconds.
    pub idle_timeout_secs: u64,
    /// Interval at which the server sends QUIC keep-alives.
    pub keepalive_secs: u64,
}

/// The address to listen on unless another is configured.
pub open spec fn listen_default() -> Seq<char> {
    "0.0.0.0:"@ + decimal(DEFAULT_PORT as nat)
}

/// The address to listen on unless another is configured.
pub fn default_listen() -> (out: String)
    ensures
        out@ == listen_default(),
{
    let mut out = "0.0.0.0:".to_owned();
    out.append(decimal_text(DEFAULT_PORT as u64).as_str());
    out
}

/// The idle timeout unless another is configured: four missed keep-alives. This
/// is also the backstop that reclaims a session whose client was killed
/// outright: a dead peer sends no close frame, so nothing else tells the server
/// the client is gone.
pub fn default_idle() -> (secs: u64)
    ensures
        secs == 60,
{
    60
}

/// The keep-alive interval unless another is configured.
pub fn default_keepalive() -> (secs: u64)
    ensures
        secs == 15,
{
    15
}

impl ServerConfig {
    /// Is this what applies when nothing is configured?
    pub open spec fn is_default(&self) -> bool {
        self.listen@ == listen_default() && self.idle_timeout_secs == 60 && self.keepalive_secs
            == 15
    }
}

impl Default for ServerConfig {
    fn default() -> (cfg: ServerConfig)
        ensures
            cfg.is_default(),
    {
        ServerConfig {
            listen: default_listen(),
            idle_timeout_secs: default_idle(),
            keepalive_secs: default_keepalive(),
        }
    }
}

/// What reading and parsing a file came to; `why` is the system's or the
/// parser's own message.
#[derive(Debug)]
pub enum FileRead<T> {
    /// There is no such file.
    Missing { why: String },
    /// It exists but cannot be read.
    Unreadable { why: String },
    /// It cannot be parsed.
    Invalid { why: String },
    Parsed(T),
}

impl<T> FileRead<T> {
    /// What is said of the file at `path` when it could not be had.
    pub open spec fn complaint(&self, path: Seq<char>) -> Seq<char> {
        match *self {
            FileRead::Missing { why } => "reading "@ + path + ": "@ + why@,
            FileRead::Unreadable { why } => "reading "@ + path + ": "@ + why@,
            FileRead::Invalid { why } => "parsing "@ + path + ": "@ + why@,
            FileRead::Parsed(_) => Seq::empty(),
        }
    }

    /// The contents of the file at `path`, or what is said of it when it could
    /// not be had, and whether that is because it does not exist.
    pub fn contents(self, path: &str) -> (r: Result<T, (bool, String)>)
        ensures
            match r {
                Ok(value) => self == FileRead::Parsed(value),
                Err((missing, text)) => {
                    &&& !(self is Parsed)
                    &&& missing == self is Missing
                    &&& text@ == self.complaint(path@)
                },
            },
    {
        match self {
            FileRead::Parsed(value) => Ok(value),
            FileRead::Missing { why } => Err((true, about("reading ", path, why.as_str()))),
            FileRead::Unreadable { why } => Err((false, about("reading ", path, why.as_str()))),
            FileRead::Invalid { why } => Err((false, about("parsing ", path, why.as_str()))),
        }
    }
}

fn about(verb: &str, path: &str, why: &str) -> (out: String)
    ensures
        out@ == verb@ + path@ + ": "@ + why@,
{
    let mut out = verb.to_owned();
    out.append(path);
    out.append(": ");
    out.append(why);
    out
}

/// Why there is no configuration.
#[derive(Debug, Clone)]
pub struct ConfigError {
    /// Does the file not exist?
    pub missing: bool,
    pub message: String,
}

impl ServerConfig {
    /// Is `r` the configuration in a file that must exist?
    pub open spec fn required(
        path: Seq<char>,
        file: FileRead<ServerConfig>,
        r: Result<ServerConfig, ConfigError>,
    ) -> bool {
        match file {
            FileRead::Parsed(cfg) => r == Ok::<ServerConfig, ConfigError>(cfg),
            _ => r is Err && r->Err_0.missing == (file is Missing) && r->Err_0.message@
                == file.complaint(path),
        }
    }

    /// Is `r` the configuration in a file that need not exist?
    pub open spec fn wanted(
        path: Seq<char>,
        file: FileRead<ServerConfig>,
        r: Result<ServerConfig, ConfigError>,
    ) -> bool {
        match file {
            FileRead::Parsed(cfg) => r == Ok::<ServerConfig, ConfigError>(cfg),
            FileRead::Missing { .. } => r is Ok && r->Ok_0.is_default(),
            _ => r is Err && !r->Err_0.missing && r->Err_0.message@ == file.complaint(path),
        }
    }

    /// The configuration in an explicitly selected file, without a default
    /// fallback. Fails if the file is missing, cannot be read, or cannot be
    /// parsed.
    pub fn load_required(path: &str, file: FileRead<ServerConfig>) -> (r: Result<
        ServerConfig,
        ConfigError,
    >)
        ensures
            Self::required(path@, file, r),
    {
        match file.contents(path) {
            Ok(cfg) => Ok(cfg),
            Err((missing, message)) => Err(ConfigError { missing, message }),
        }
    }

    /// The configuration to use, given what reading the file came to: a missing
    /// file means the defaults, and nothing else does.
    pub fn load(path: &str, file: FileRead<ServerConfig>) -> (r: Result<ServerConfig, ConfigError>)
        ensures
            Self::wanted(path@, file, r),
    {
        match ServerConfig::load_required(path, file) {
            Err(e) => if e.missing {
                Ok(ServerConfig::default())
            } else {
                Err(e)
            },
            Ok(cfg) => Ok(cfg),
        }
    }
}

// ---------------------------------------------------------------------------
// Authorisations
// ---------------------------------------------------------------------------

/// Metadata stored next to an authorised client certificate
/// (`authorized/<name>.toml`).
#[derive(Debug, Clone)]
pub struct AuthMeta {
    /// Local Unix account this certificate may log in as.
    pub user: String,
    /// May this certificate request an interactive shell?
    pub allow_shell: bool,
    /// May this certificate run non-interactive commands?
    pub allow_exec: bool,
    /// If non-empty, only these exact `argv[0]` values may be executed.
    /// `allow_shell` is governed separately.
    pub allowed_commands: Vec<String>,
    /// The public key this policy was written for.
    ///
    /// A certificate and its policy live in two files, so a crash or a reload
    /// landing between the two writes could otherwise pair a new certificate
    /// with a stale, possibly broader policy. Recording the fingerprint lets
    /// the loader detect that and fail closed.
    pub key_fingerprint: Option<String>,
    /// Unix timestamp after which this authorization stops being accepted.
    ///
    /// This is the administrator's deadline, recorded when the key was
    /// authorized. It is deliberately independent of the certificate the
    /// client presents: whoever holds the private key can always mint a fresh
    /// certificate for the same public key with a later expiry, so the
    /// presented certificate's own validity window cannot bound access.
    pub expires_at_unix: Option<i64>,
}

/// What an [`AuthMeta`] holds.
#[verifier::ext_equal]
pub struct AuthMetaView {
    pub user: Seq<char>,
    pub allow_shell: bool,
    pub allow_exec: bool,
    pub allowed_commands: Seq<Seq<char>>,
    pub key_fingerprint: Option<Seq<char>>,
    pub expires_at_unix: Option<i64>,
}

impl View for AuthMeta {
    type V = AuthMetaView;

    open spec fn view(&self) -> AuthMetaView {
        AuthMetaView {
            user: self.user@,
            allow_shell: self.allow_shell,
            allow_exec: self.allow_exec,
            allowed_commands: texts(self.allowed_commands@),
            key_fingerprint: opt(self.key_fingerprint),
            expires_at_unix: self.expires_at_unix,
        }
    }
}

impl Default for AuthMeta {
    fn default() -> (meta: AuthMeta)
        ensures
            meta@ == (AuthMetaView {
                user: Seq::empty(),
                allow_shell: true,
                allow_exec: true,
                allowed_commands: Seq::empty(),
                key_fingerprint: None,
                expires_at_unix: None,
            }),
    {
        let meta = AuthMeta {
            user: String::new(),
            allow_shell: true,
            allow_exec: true,
            allowed_commands: Vec::new(),
            key_fingerprint: None,
            expires_at_unix: None,
        };
        assert(meta@.user =~= Seq::empty());
        assert(meta@.allowed_commands =~= Seq::empty());
        meta
    }
}

impl AuthMetaView {
    /// Is the program `argv0` permitted by `allowed_commands`? An empty list
    /// permits everything; otherwise the whole of `argv0` must be listed, never
    /// only its basename.
    pub open spec fn permits(self, argv0: Seq<char>) -> bool {
        self.allowed_commands.len() == 0 || self.allowed_commands.contains(argv0)
    }

    /// Is `argv` permitted by `allowed_commands`?
    pub open spec fn permits_argv(self, argv: Seq<Seq<char>>) -> bool {
        self.allowed_commands.len() == 0 || (argv.len() > 0 && self.permits(argv[0]))
    }

    /// Has the administrator's deadline passed?
    pub open spec fn expired(self, now: i64) -> bool {
        match self.expires_at_unix {
            Some(limit) => now > limit,
            None => false,
        }
    }
}

impl AuthMeta {
    /// Is the program `argv0` permitted by `allowed_commands`?
    pub fn program_allowed(&self, argv0: &str) -> (r: bool)
        ensures
            r == self@.permits(argv0@),
    {
        if self.allowed_commands.len() == 0 {
            return true;
        }
        let r = list_has(&self.allowed_commands, argv0);
        proof {
            let list = texts(self.allowed_commands@);
            if r {
                let i = choose|i: int|
                    0 <= i < self.allowed_commands@.len() && #[trigger] self.allowed_commands@[i]@
                        == argv0@;
                assert(list[i] == argv0@);
            } else if list.contains(argv0@) {
                let i = choose|i: int| 0 <= i < list.len() && list[i] == argv0@;
                assert(self.allowed_commands@[i]@ == argv0@);
            }
        }
        r
    }

    /// Is `argv` permitted by `allowed_commands`?
    ///
    /// The comparison is against the whole of `argv[0]`, never its basename.
    /// Matching a basename would be a hole rather than a convenience: the
    /// authorized account can write an executable to a path it controls and
    /// then ask for it by that path, so a key restricted to `rsync` could run
    /// anything.
    ///
    /// A bare name such as `rsync` therefore permits exactly `rsync`, which
    /// the server resolves through its own fixed `PATH`. To allow a program
    /// somewhere else, authorize its absolute path.
    #[must_use]
    pub fn command_allowed(&self, argv: &[String]) -> (r: bool)
        ensures
            r == self@.permits_argv(texts(argv@)),
    {
        if self.allowed_commands.len() == 0 {
            return true;
        }
        if argv.len() == 0 {
            return false;
        }
        assert(texts(argv@)[0] == argv@[0]@);
        self.program_allowed(argv[0].as_str())
    }

    /// Has the administrator's deadline for this authorization passed?
    #[must_use]
    pub fn is_expired(&self, now_unix: i64) -> (r: bool)
        ensures
            r == self@.expired(now_unix),
    {
        match self.expires_at_unix {
            Some(limit) => now_unix > limit,
            None => false,
        }
    }

    /// A copy of the metadata.
    pub fn duplicate(&self) -> (out: AuthMeta)
        ensures
            out@ == self@,
    {
        let key_fingerprint: Option<String> = match &self.key_fingerprint {
            Some(k) => Some(k.clone()),
            None => None,
        };
        let out = AuthMeta {
            user: self.user.clone(),
            allow_shell: self.allow_shell,
            allow_exec: self.allow_exec,
            allowed_commands: copy_texts(&self.allowed_commands),
            key_fingerprint,
            expires_at_unix: self.expires_at_unix,
        };
        assert(out@ =~= self@);
        out
    }
}

/// Once an authorization has expired, it stays so.
pub proof fn law_deadline_is_final(meta: AuthMetaView, now: i64, later: i64)
    requires
        meta.expired(now),
        now <= later,
    ensures
        meta.expired(later),
{
}

/// One authorised client.
#[derive(Debug, Clone)]
pub struct AuthEntry {
    pub name: String,
    pub fingerprint: Fingerprint,
    pub meta: AuthMeta,
}

/// What an [`AuthEntry`] holds.
#[verifier::ext_equal]
pub struct AuthEntryView {
    pub name: Seq<char>,
    pub fingerprint: Seq<u8>,
    pub meta: AuthMetaView,
}

impl View for AuthEntry {
    type V = AuthEntryView;

    open spec fn view(&self) -> AuthEntryView {
        AuthEntryView {
            name: self.name@,
            fingerprint: self.fingerprint.0@,
            meta: self.meta@,
        }
    }
}

impl AuthEntry {
    /// A copy of the entry.
    pub fn duplicate(&self) -> (out: AuthEntry)
        ensures
            out@ == self@,
    {
        AuthEntry {
            name: self.name.clone(),
            fingerprint: self.fingerprint,
            meta: self.meta.duplicate(),
        }
    }
}

/// The clients that are authorised, by the fingerprint of their key.
#[derive(Debug, Clone)]
pub struct AuthStore {
    /// In the order of their fingerprints, each of which occurs once.
    pub entries: Vec<AuthEntry>,
}

impl AuthStore {
    /// The fingerprint of the `i`-th entry.
    pub open spec fn key(&self, i: int) -> Seq<u8> {
        self.entries@[i].fingerprint.0@
    }

    /// The entries are in the order of their fingerprints, without repetition.
    pub open spec fn wf(&self) -> bool {
        forall|i: int, j: int|
            0 <= i < j < self.entries@.len() ==> lex_lt(
                values(#[trigger] self.key(i)),
                values(#[trigger] self.key(j)),
            )
    }

    /// Is there an entry for this key?
    pub open spec fn has(&self, k: Seq<u8>) -> bool {
        exists|i: int| 0 <= i < self.entries@.len() && #[trigger] self.key(i) == k
    }

    /// The entry for this key.
    pub open spec fn at(&self, k: Seq<u8>) -> AuthEntryView {
        self.entries@[choose|i: int|
            0 <= i < self.entries@.len() && #[trigger] self.key(i) == k]@
    }
}

impl View for AuthStore {
    type V = Map<Seq<u8>, AuthEntryView>;

    open spec fn view(&self) -> Map<Seq<u8>, AuthEntryView> {
        Map::new(|k: Seq<u8>| self.has(k), |k: Seq<u8>| self.at(k))
    }
}

impl AuthStore {
    proof fn lemma_at(&self, i: int)
        requires
            self.wf(),
            0 <= i < self.entries@.len(),
        ensures
            self.has(self.key(i)),
            self.at(self.key(i)) == self.entries@[i]@,
    {
        let k = self.key(i);
        let j = choose|j: int| 0 <= j < self.entries@.len() && #[trigger] self.key(j) == k;
        assert(self.key(i) == k);
        if i < j {
            assert(lex_lt(values(self.key(i)), values(self.key(j))));
        } else if j < i {
            assert(lex_lt(values(self.key(j)), values(self.key(i))));
        }
    }

    /// A store without entries.
    pub fn new() -> (store: AuthStore)
        ensures
            store.wf(),
            store@ == Map::<Seq<u8>, AuthEntryView>::empty(),
    {
        let store = AuthStore { entries: Vec::new() };
        assert(store@ =~= Map::<Seq<u8>, AuthEntryView>::empty());
        store
    }

    /// The place of the first entry that does not come before `fp`.
    fn position(&self, fp: &Fingerprint) -> (p: usize)
        requires
            self.wf(),
        ensures
            p <= self.entries@.len(),
            forall|i: int|
                0 <= i < p ==> lex_lt(values(#[trigger] self.key(i)), values(fp.0@)),
            forall|i: int|
                p <= i < self.entries@.len() ==> lex_le(
                    values(fp.0@),
                    values(#[trigger] self.key(i)),
                ),
    {
        let mut p: usize = 0;
        while p < self.entries.len()
            invariant
                p <= self.entries@.len(),
                self.wf(),
                forall|i: int|
                    0 <= i < p ==> lex_lt(values(#[trigger] self.key(i)), values(fp.0@)),
            decreases self.entries@.len() - p,
        {
            if bytes_le(fp.0.as_slice(), self.entries[p].fingerprint.0.as_slice()) {
                assert forall|i: int| p <= i < self.entries@.len() implies lex_le(
                    values(fp.0@),
                    values(#[trigger] self.key(i)),
                ) by {
                    assert(lex_le(values(fp.0@), values(self.key(p as int))));
                    if i > p {
                        assert(lex_lt(values(self.key(p as int)), values(self.key(i))));
                        lemma_lex_transitive(
                            values(fp.0@),
                            values(self.key(p as int)),
                            values(self.key(i)),
                        );
                    }
                }
                return p;
            }
            proof {
                lemma_lex_total(values(fp.0@), values(self.key(p as int)));
                if values(self.key(p as int)) == values(fp.0@) {
                    lemma_lex_reflexive(values(fp.0@));
                }
            }
            p += 1;
        }
        p
    }

    /// Adds the entry, in place of one for the same key.
    pub fn insert(&mut self, entry: AuthEntry)
        requires
            old(self).wf(),
        ensures
            final(self).wf(),
            final(self)@ == old(self)@.insert(entry.fingerprint.0@, entry@),
    {
        let ghost before = *self;
        let ghost k = entry.fingerprint.0@;
        let ghost e = entry@;
        let p: usize = self.position(&entry.fingerprint);
        if p < self.entries.len() && self.entries[p].fingerprint.same_key(&entry.fingerprint) {
            self.entries.set(p, entry);
            proof {
                let after = *self;
                assert forall|i: int| 0 <= i < after.entries@.len() implies after.key(i)
                    == #[trigger] before.key(i) by {}
                assert(after.wf()) by {
                    assert forall|i: int, j: int|
                        0 <= i < j < after.entries@.len() implies lex_lt(
                        values(#[trigger] after.key(i)),
                        values(#[trigger] after.key(j)),
                    ) by {
                        assert(before.key(i) == after.key(i));
                        assert(before.key(j) == after.key(j));
                    }
                }
                assert forall|x: Seq<u8>| after.has(x) == before.has(x) by {
                    if after.has(x) {
                        let i = choose|i: int|
                            0 <= i < after.entries@.len() && #[trigger] after.key(i) == x;
                        assert(before.key(i) == x);
                    }
                    if before.has(x) {
                        let i = choose|i: int|
                            0 <= i < before.entries@.len() && #[trigger] before.key(i) == x;
                        assert(after.key(i) == x);
                    }
                }
                assert(before.key(p as int) == k);
                assert(before.has(k));
                assert forall|x: Seq<u8>| after.has(x) implies #[trigger] after.at(x) == (if x
                    == k {
                    e
                } else {
                    before.at(x)
                }) by {
                    let i = choose|i: int|
                        0 <= i < after.entries@.len() && #[trigger] after.key(i) == x;
                    after.lemma_at(i);
                    before.lemma_at(i);
                    before.lemma_at(p as int);
                    after.lemma_at(p as int);
                    assert(before.key(i) == x);
                }
                assert(after@ =~= before@.insert(k, e));
            }
        } else {
            self.entries.insert(p, entry);
            proof {
                let after = *self;
                assert forall|i: int| 0 <= i < after.entries@.len() implies #[trigger] after.key(i)
                    == (if i < p {
                    before.key(i)
                } else if i == p {
                    k
                } else {
                    before.key(i - 1)
                }) by {}
                // What stands at `p` or behind it is another key, so it comes
                // strictly after.
                assert forall|i: int| p <= i < before.entries@.len() implies lex_lt(
                    values(k),
                    values(#[trigger] before.key(i)),
                ) by {
                    assert(before.key(p as int) != k);
                    if values(before.key(i)) == values(k) {
                        lemma_values_injective(before.key(i), k);
                        if i > p {
                            assert(lex_lt(values(before.key(p as int)), values(before.key(i))));
                            assert(lex_le(values(k), values(before.key(p as int))));
                            lemma_lex_antisymmetric(values(k), values(before.key(p as int)));
                            lemma_values_injective(before.key(p as int), k);
                        }
                    }
                }
                assert(after.wf()) by {
                    assert forall|i: int, j: int|
                        0 <= i < j < after.entries@.len() implies lex_lt(
                        values(#[trigger] after.key(i)),
                        values(#[trigger] after.key(j)),
                    ) by {
                        if j < p {
                            assert(lex_lt(values(before.key(i)), values(before.key(j))));
                        } else if j == p {
                            assert(lex_lt(values(before.key(i)), values(k)));
                        } else if i < p {
                            assert(lex_lt(values(before.key(i)), values(before.key(j - 1))));
                        } else if i == p {
                            assert(lex_lt(values(k), values(before.key(j - 1))));
                        } else {
                            assert(lex_lt(values(before.key(i - 1)), values(before.key(j - 1))));
                        }
                    }
                }
                assert forall|x: Seq<u8>| after.has(x) == (before.has(x) || x == k) by {
                    if after.has(x) {
                        let i = choose|i: int|
                            0 <= i < after.entries@.len() && #[trigger] after.key(i) == x;
                        if i < p {
                            assert(before.key(i) == x);
                        } else if i > p {
                            assert(before.key(i - 1) == x);
                        }
                    }
                    if before.has(x) {
                        let i = choose|i: int|
                            0 <= i < before.entries@.len() && #[trigger] before.key(i) == x;
                        if i < p {
                            assert(after.key(i) == x);
                        } else {
                            assert(after.key(i + 1) == x);
                        }
                    }
                    if x == k {
                        assert(after.key(p as int) == x);
                    }
                }
                assert forall|x: Seq<u8>| after.has(x) implies #[trigger] after.at(x) == (if x
                    == k {
                    e
                } else {
                    before.at(x)
                }) by {
                    let i = choose|i: int|
                        0 <= i < after.entries@.len() && #[trigger] after.key(i) == x;
                    after.lemma_at(i);
                    after.lemma_at(p as int);
                    assert(after.key(p as int) == k);
                    if i < p {
                        before.lemma_at(i);
                        assert(before.key(i) == x);
                        assert(lex_lt(values(before.key(i)), values(k)));
                    } else if i > p {
                        before.lemma_at(i - 1);
                        assert(before.key(i - 1) == x);
                        assert(lex_lt(values(k), values(before.key(i - 1))));
                    }
                }
                assert(after@ =~= before@.insert(k, e));
            }
        }
    }

    /// The authorised keys, in order.
    #[must_use]
    pub fn fingerprints(&self) -> (out: Vec<Fingerprint>)
        ensures
            out@.len() == self.entries@.len(),
            forall|i: int| 0 <= i < out@.len() ==> #[trigger] out@[i].0@ == self.key(i),
    {
        let mut out: Vec<Fingerprint> = Vec::new();
        let mut i: usize = 0;
        while i < self.entries.len()
            invariant
                i <= self.entries@.len(),
                out@.len() == i,
                forall|k: int| 0 <= k < i ==> #[trigger] out@[k].0@ == self.key(k),
            decreases self.entries@.len() - i,
        {
            let ghost before = out@;
            out.push(self.entries[i].fingerprint);
            i += 1;
            assert forall|k: int| 0 <= k < i implies #[trigger] out@[k].0@ == self.key(k) by {
                if k < i - 1 {
                    assert(out@[k] == before[k]);
                    assert(before[k].0@ == self.key(k));
                }
            }
        }
        out
    }

    /// The entry for this key.
    #[must_use]
    pub fn lookup(&self, fp: &Fingerprint) -> (r: Option<&AuthEntry>)
        requires
            self.wf(),
        ensures
            match r {
                Some(entry) => self@.dom().contains(fp.0@) && entry@ == self@[fp.0@],
                None => !self@.dom().contains(fp.0@),
            },
    {
        let mut i: usize = 0;
        while i < self.entries.len()
            invariant
                i <= self.entries@.len(),
                self.wf(),
                forall|k: int| 0 <= k < i ==> #[trigger] self.key(k) != fp.0@,
            decreases self.entries@.len() - i,
        {
            if self.entries[i].fingerprint.same_key(fp) {
                proof {
                    assert(self.key(i as int) == fp.0@);
                    self.lemma_at(i as int);
                }
                return Some(&self.entries[i]);
            }
            assert(self.key(i as int) != fp.0@);
            i += 1;
        }
        None
    }

    /// The entries, in the order of their keys.
    pub fn entries(&self) -> (out: &Vec<AuthEntry>)
        ensures
            out@ == self.entries@,
    {
        &self.entries
    }

    /// Is nobody authorised?
    #[must_use]
    pub fn is_empty(&self) -> (r: bool)
        requires
            self.wf(),
        ensures
            r == (self@ == Map::<Seq<u8>, AuthEntryView>::empty()),
    {
        proof {
            if self.entries@.len() > 0 {
                self.lemma_at(0);
                assert(self@.dom().contains(self.key(0)));
            } else {
                assert(self@ =~= Map::<Seq<u8>, AuthEntryView>::empty());
            }
        }
        self.entries.len() == 0
    }
}

impl Default for AuthStore {
    fn default() -> (store: AuthStore)
        ensures
            store.wf(),
            store@ == Map::<Seq<u8>, AuthEntryView>::empty(),
    {
        AuthStore::new()
    }
}

/// A file in `authorized/`, with what the metadata file next to it came to.
#[derive(Debug)]
pub struct Candidate {
    /// The name of the file, such as `laptop.crt`.
    pub file_name: OsPath,
    /// The contents of the certificate file, or why it cannot be read.
    pub cert: Result<Vec<u8>, String>,
    /// The metadata next to it.
    pub meta: FileRead<AuthMeta>,
}

/// What stands in front of `.crt` in the name of a certificate file; none of a
/// file that is not one.
pub open spec fn stem(file_name: Seq<u8>) -> Option<Seq<u8>> {
    let n = file_name.len();
    if n > 4 && file_name.skip(n - 4) == seq![46u8, 99, 114, 116] {
        Some(file_name.take(n - 4))
    } else {
        None
    }
}

/// What stands in front of `.crt` in the name of a certificate file; none of a
/// file that is not one.
pub fn cert_stem(file_name: &OsPath) -> (r: Option<OsPath>)
    ensures
        opt_path(r) == stem(file_name@),
{
    let n: usize = file_name.bytes.len();
    if n <= 4 {
        return None;
    }
    let ghost ext = file_name@.skip(n - 4);
    let is_cert: bool = file_name.bytes[n - 4] == 46 && file_name.bytes[n - 3] == 99
        && file_name.bytes[n - 2] == 114 && file_name.bytes[n - 1] == 116;
    assert(is_cert == (ext =~= seq![46u8, 99, 114, 116])) by {
        assert(ext[0] == file_name@[n - 4]);
        assert(ext[1] == file_name@[n - 3]);
        assert(ext[2] == file_name@[n - 2]);
        assert(ext[3] == file_name@[n - 1]);
    }
    if !is_cert {
        return None;
    }
    Some(file_name.prefix(n - 4))
}

/// The name of the authorization whose certificate file has this stem: the stem
/// where it is text.
pub open spec fn stem_name(stem: Seq<u8>) -> Seq<char> {
    if valid_utf8(stem) {
        decode_utf8(stem)
    } else {
        "?"@
    }
}

impl Candidate {
    /// Is this a certificate file? Only those are authorizations.
    pub open spec fn is_certificate(&self) -> bool {
        stem(self.file_name@) is Some
    }

    /// The name of the authorization.
    pub open spec fn name(&self) -> Seq<char> {
        stem_name(stem(self.file_name@)->0)
    }

    /// Where the certificate lies, as it is shown.
    pub open spec fn cert_path(&self, dir: Seq<u8>) -> Seq<char> {
        shown(inside(dir, self.file_name@))
    }

    /// Where the metadata lies, as it is shown.
    pub open spec fn meta_path(&self, dir: Seq<u8>) -> Seq<char> {
        shown(inside(dir, stem(self.file_name@)->0 + encode_utf8(".toml"@)))
    }

    /// The certificates in the file.
    pub open spec fn sections(&self) -> Seq<Option<Seq<u8>>> {
        pem_sections(self.cert->Ok_0@)
    }

    /// Can every section of the certificate file be read, and is there one?
    pub open spec fn cert_readable(&self) -> bool {
        &&& self.cert is Ok
        &&& self.sections().len() > 0
        &&& forall|i: int| 0 <= i < self.sections().len() ==> #[trigger] self.sections()[i] is Some
        &&& certificate(self.sections()[0]->0) is Some
    }

    /// The fingerprint of the certificate's key.
    pub open spec fn fingerprint(&self) -> Seq<u8> {
        sha256(certificate(self.sections()[0]->0)->0.spki)
    }

    /// The fingerprint as it is written.
    pub open spec fn fingerprint_text(&self) -> Seq<char> {
        "sha256:"@ + hex(self.fingerprint())
    }

    /// Was the metadata written for another key?
    pub open spec fn for_other_key(&self) -> bool {
        match self.meta->Parsed_0.key_fingerprint {
            Some(expected) => expected@ != self.fingerprint_text(),
            None => false,
        }
    }

    /// Is this a complete authorization? It has a readable certificate and
    /// metadata that names a user and was not written for another key.
    pub open spec fn complete(&self) -> bool {
        &&& self.cert_readable()
        &&& self.meta is Parsed
        &&& self.meta->Parsed_0.user@.len() > 0
        &&& !self.for_other_key()
    }

    /// The entry that a complete authorization makes.
    pub open spec fn entry(&self) -> AuthEntryView {
        AuthEntryView {
            name: self.name(),
            fingerprint: self.fingerprint(),
            meta: self.meta->Parsed_0@,
        }
    }

    /// Is `why` the reason for which an incomplete authorization is ignored?
    /// Where the certificate itself is at fault, what follows the opening words
    /// is the parser's own message.
    pub open spec fn refused_for(&self, dir: Seq<u8>, why: Seq<char>) -> bool {
        match self.cert {
            Err(e) => why == "reading "@ + self.cert_path(dir) + ": "@ + e@,
            Ok(_) => {
                let secs = self.sections();
                if exists|i: int| 0 <= i < secs.len() && #[trigger] secs[i] is None {
                    ("parsing certificates in "@ + self.cert_path(dir) + ": "@).is_prefix_of(why)
                } else if secs.len() == 0 {
                    why == self.cert_path(dir) + " contains no certificate"@
                } else if certificate(secs[0]->0) is None {
                    "malformed certificate: "@.is_prefix_of(why)
                } else {
                    match self.meta {
                        FileRead::Parsed(meta) => if meta.user@.len() == 0 {
                            why == self.meta_path(dir) + " does not name a user"@
                        } else {
                            self.for_other_key() && why == self.meta_path(dir)
                                + " was written for key "@ + meta.key_fingerprint->0@ + ", but "@
                                + self.cert_path(dir) + " holds "@ + self.fingerprint_text()
                        },
                        _ => why == self.meta.complaint(self.meta_path(dir)),
                    }
                }
            },
        }
    }

    /// What is said about this candidate, if anything: that it is ignored and
    /// why, or that its metadata does not record which key it is for. Nothing is
    /// said about a file that is no certificate file.
    pub open spec fn warning(&self, dir: Seq<u8>, w: Option<Seq<char>>) -> bool {
        if !self.is_certificate() {
            w is None
        } else if !self.complete() {
            w is Some && exists|why: Seq<char>|
                #[trigger] self.refused_for(dir, why) && w->0 == "qsh-server: ignoring authorization `"@
                    + self.name() + "`: "@ + why
        } else if self.meta->Parsed_0.key_fingerprint is None {
            w == Some(
                "qsh-server: warning: "@ + self.meta_path(dir)
                    + " does not record which key it is for; re-run `qsh-server authorize` for `"@
                    + self.name() + "` to fix that"@,
            )
        } else {
            w is None
        }
    }
}

/// Are the files in the order of their names?
pub open spec fn in_name_order(files: Seq<Candidate>) -> bool {
    forall|i: int, j: int|
        0 <= i < j < files.len() ==> lex_le(
            values((#[trigger] files[i]).file_name@),
            values((#[trigger] files[j]).file_name@),
        )
}

/// The entries of the complete authorizations among the certificate files in
/// `files`; of two for one key the later stands.
pub open spec fn entries_of(files: Seq<Candidate>) -> Map<Seq<u8>, AuthEntryView>
    decreases files.len(),
{
    if files.len() == 0 {
        Map::empty()
    } else {
        let before = entries_of(files.drop_last());
        if files.last().is_certificate() && files.last().complete() {
            before.insert(files.last().fingerprint(), files.last().entry())
        } else {
            before
        }
    }
}

/// Are `said` the warnings about `files`, in order?
pub open spec fn warnings_of(files: Seq<Candidate>, dir: Seq<u8>, said: Seq<Seq<char>>) -> bool
    decreases files.len(),
{
    if files.len() == 0 {
        said.len() == 0
    } else {
        ||| files.last().warning(dir, None) && warnings_of(files.drop_last(), dir, said)
        ||| said.len() > 0 && files.last().warning(dir, Some(said.last())) && warnings_of(
            files.drop_last(),
            dir,
            said.drop_last(),
        )
    }
}

/// The candidates in the order of their file names.
fn sort_candidates(files: Vec<Candidate>) -> (out: Vec<Candidate>)
    ensures
        in_name_order(out@),
        out@.to_multiset() == files@.to_multiset(),
{
    let mut rest = files;
    let mut out: Vec<Candidate> = Vec::new();
    proof {
        broadcast use vstd::seq_lib::group_to_multiset_ensures;

        assert(out@.to_multiset() =~= vstd::multiset::Multiset::empty());
    }
    while rest.len() > 0
        invariant
            in_name_order(out@),
            rest@.to_multiset().add(out@.to_multiset()) == files@.to_multiset(),
        decreases rest@.len(),
    {
        let ghost rest0 = rest@;
        let ghost out0 = out@;
        let c = match rest.pop() {
            Some(c) => c,
            None => return out,
        };
        proof {
            broadcast use vstd::seq_lib::group_to_multiset_ensures;

            assert(rest0 =~= rest@.push(c));
        }
        let mut p: usize = 0;
        while p < out.len() && !bytes_le(c.file_name.bytes.as_slice(), out[p].file_name.bytes.as_slice())
            invariant
                p <= out@.len(),
                out@ == out0,
                forall|i: int|
                    0 <= i < p ==> lex_le(
                        values((#[trigger] out@[i]).file_name@),
                        values(c.file_name@),
                    ),
            decreases out@.len() - p,
        {
            proof {
                lemma_lex_total(values(c.file_name@), values(out@[p as int].file_name@));
            }
            p += 1;
        }
        let ghost key = values(c.file_name@);
        let ghost item = c;
        out.insert(p, c);
        proof {
            assert(in_name_order(out@)) by {
                assert forall|i: int, j: int| 0 <= i < j < out@.len() implies lex_le(
                    values((#[trigger] out@[i]).file_name@),
                    values((#[trigger] out@[j]).file_name@),
                ) by {
                    if j == p {
                        assert(out@[i] == out0[i]);
                    } else if i == p {
                        assert(out@[j] == out0[j - 1]);
                        assert(lex_le(key, values(out0[p as int].file_name@)));
                        if j - 1 > p {
                            lemma_lex_transitive(
                                key,
                                values(out0[p as int].file_name@),
                                values(out0[j - 1].file_name@),
                            );
                        }
                    } else {
                        let i0 = if i < p { i } else { i - 1 };
                        let j0 = if j < p { j } else { j - 1 };
                        assert(out@[i] == out0[i0]);
                        assert(out@[j] == out0[j0]);
                    }
                }
            }
            broadcast use vstd::seq_lib::group_to_multiset_ensures;

            assert(out@.remove(p as int) =~= out0);
            assert(out@.contains(item)) by {
                assert(out@[p as int] == item);
            }
            assert(out@.to_multiset() =~= out0.to_multiset().insert(item));
            assert(rest@.to_multiset().add(out@.to_multiset()) =~= files@.to_multiset());
        }
    }
    proof {
        assert(rest@ =~= Seq::empty());
        broadcast use vstd::seq_lib::group_to_multiset_ensures;

        assert(rest@.to_multiset() =~= vstd::multiset::Multiset::empty());
        assert(out@.to_multiset() =~= files@.to_multiset());
    }
    out
}

/// The name of the authorization whose certificate file has this stem.
fn entry_name(stem: &OsPath) -> (name: String)
    ensures
        name@ == stem_name(stem@),
{
    match stem.text() {
        Some(name) => name,
        None => "?".to_owned(),
    }
}

/// The entry that one certificate file makes, with a remark about it if there is
/// one; or why it makes none.
pub fn load_entry(dir: &OsPath, c: Candidate) -> (r: Result<(AuthEntry, Option<String>), String>)
    requires
        c.is_certificate(),
    ensures
        match r {
            Ok((entry, remark)) => {
                &&& c.complete()
                &&& entry@ == c.entry()
                &&& c.warning(dir@, opt(remark))
            },
            Err(why) => !c.complete() && c.refused_for(dir@, why@),
        },
{
    let mut meta_file = match cert_stem(&c.file_name) {
        Some(s) => s,
        None => c.file_name.duplicate(),
    };
    let name = entry_name(&meta_file);
    let cert_path = dir.join_bytes(c.file_name.bytes.as_slice()).shown();
    extend(&mut meta_file.bytes, ".toml".as_bytes());
    let meta_path = dir.join_bytes(meta_file.bytes.as_slice()).shown();
    assert(meta_path@ == c.meta_path(dir@));
    let ghost secs = c.sections();
    let pem = match c.cert {
        Ok(pem) => pem,
        Err(why) => return Err(about("reading ", cert_path.as_str(), why.as_str())),
    };
    let der = match load_cert(pem.as_slice()) {
        Ok(der) => der,
        Err(PemError::Unreadable(why)) => {
            let mut out = "parsing certificates in ".to_owned();
            out.append(cert_path.as_str());
            out.append(": ");
            let ghost opening = out@;
            out.append(why.as_str());
            assert(out@.take(opening.len() as int) =~= opening);
            assert(opening =~= "parsing certificates in "@ + c.cert_path(dir@) + ": "@);
            return Err(out);
        },
        Err(PemError::Missing) => {
            let mut out = cert_path.clone();
            out.append(" contains no certificate");
            return Err(out);
        },
    };
    let fingerprint = match Fingerprint::of_cert(der.as_slice()) {
        Ok(fp) => fp,
        Err(e) => {
            let out = e.message();
            assert(out@.take("malformed certificate: "@.len() as int) =~= "malformed certificate: "@);
            return Err(out);
        },
    };
    let fp_text = fingerprint.to_string();
    assert(fp_text@ == c.fingerprint_text());
    let meta = match c.meta.contents(meta_path.as_str()) {
        Ok(meta) => meta,
        Err((_, why)) => return Err(why),
    };
    if chars_of(meta.user.as_str()).len() == 0 {
        let mut out = meta_path.clone();
        out.append(" does not name a user");
        return Err(out);
    }
    // Refuse a policy that was written for a different key rather than applying
    // it to this one. A policy written before the key was recorded is accepted,
    // so that an upgrade does not lock everyone out, but it cannot be checked,
    // so say so.
    let remark: Option<String> = match &meta.key_fingerprint {
        Some(expected) => {
            if !same(expected.as_str(), fp_text.as_str()) {
                let mut out = meta_path.clone();
                out.append(" was written for key ");
                out.append(expected.as_str());
                out.append(", but ");
                out.append(cert_path.as_str());
                out.append(" holds ");
                out.append(fp_text.as_str());
                return Err(out);
            }
            None
        },
        None => {
            let mut out = "qsh-server: warning: ".to_owned();
            out.append(meta_path.as_str());
            out.append(" does not record which key it is for; re-run `qsh-server authorize` for `");
            out.append(name.as_str());
            out.append("` to fix that");
            Some(out)
        },
    };
    let entry = AuthEntry { name, fingerprint, meta };
    assert(entry@ =~= c.entry());
    Ok((entry, remark))
}

impl AuthStore {
    /// Load every `<name>.crt` among the files found in `dir`, in the order of
    /// their names, together with the warnings that came up. Other files are
    /// passed over.
    ///
    /// An incomplete authorization is ignored with a warning rather than failing
    /// the whole server: one broken file must not lock everyone out.
    pub fn load(dir: &OsPath, files: Vec<Candidate>) -> (r: (AuthStore, Vec<String>))
        ensures
            r.0.wf(),
            exists|sorted: Seq<Candidate>|
                {
                    &&& #[trigger] in_name_order(sorted)
                    &&& sorted.to_multiset() == files@.to_multiset()
                    &&& r.0@ == entries_of(sorted)
                    &&& warnings_of(sorted, dir@, texts(r.1@))
                },
    {
        let mut todo = sort_candidates(files);
        let ghost sorted = todo@;
        let mut store = AuthStore::new();
        let mut said: Vec<String> = Vec::new();
        let mut done: usize = 0;
        let total: usize = todo.len();
        assert(sorted.take(0) =~= Seq::empty());
        while done < total
            invariant
                done <= total,
                total == sorted.len(),
                todo@ == sorted.skip(done as int),
                store.wf(),
                store@ == entries_of(sorted.take(done as int)),
                warnings_of(sorted.take(done as int), dir@, texts(said@)),
            decreases total - done,
        {
            let c = todo.remove(0);
            let ghost before = said@;
            let ghost item = c;
            proof {
                assert(item == sorted[done as int]);
                assert(sorted.take(done + 1).drop_last() =~= sorted.take(done as int));
                assert(sorted.take(done + 1).last() == item);
                assert(todo@ =~= sorted.skip(done + 1));
            }
            done += 1;
            let name = match cert_stem(&c.file_name) {
                Some(s) => entry_name(&s),
                None => continue,
            };
            match load_entry(dir, c) {
                Ok((entry, remark)) => {
                    store.insert(entry);
                    if let Some(w) = remark {
                        said.push(w);
                        assert(texts(said@).drop_last() =~= texts(before));
                    }
                },
                Err(why) => {
                    let mut w = "qsh-server: ignoring authorization `".to_owned();
                    w.append(name.as_str());
                    w.append("`: ");
                    w.append(why.as_str());
                    assert(item.refused_for(dir@, why@));
                    assert(w@ =~= "qsh-server: ignoring authorization `"@ + item.name() + "`: "@
                        + why@);
                    said.push(w);
                    assert(texts(said@).drop_last() =~= texts(before));
                    assert(texts(said@).last() == w@);
                },
            }
        }
        assert(sorted.take(done as int) =~= sorted);
        (store, said)
    }
}

// ---------------------------------------------------------------------------
// Known hosts
// ---------------------------------------------------------------------------

/// Why a `known_hosts` file could not be used. Lines are counted from 1.
#[derive(Debug, Clone, Copy, PartialEq, Eq, Structural)]
pub enum KnownHostsError {
    /// The line is not a host and a fingerprint.
    Malformed(usize),
    /// The fingerprint on the line is unusable.
    Fingerprint(usize, FingerprintError),
}

impl KnownHostsError {
    /// What the error says of the file at `path`.
    pub open spec fn text(&self, path: Seq<char>) -> Seq<char> {
        match *self {
            KnownHostsError::Malformed(line) => path + ":"@ + decimal(line as nat)
                + ": malformed entry"@,
            KnownHostsError::Fingerprint(line, e) => path + ":"@ + decimal(line as nat) + ": "@
                + e.text(),
        }
    }

    /// What the error says of the file at `path`.
    pub fn message(&self, path: &str) -> (out: String)
        ensures
            out@ == self.text(path@),
    {
        let mut out = path.to_owned();
        out.append(":");
        match self {
            KnownHostsError::Malformed(line) => {
                out.append(decimal_text(*line as u64).as_str());
                out.append(": malformed entry");
            },
            KnownHostsError::Fingerprint(line, e) => {
                out.append(decimal_text(*line as u64).as_str());
                out.append(": ");
                out.append(e.message().as_str());
            },
        }
        out
    }
}

/// What a line of `known_hosts` says: nothing if it is blank or a comment,
/// otherwise a host and the fingerprint of its key. What follows is ignored.
pub enum HostLine {
    Nothing,
    Malformed,
    BadFingerprint(FingerprintError),
    Pin(Seq<char>, Seq<u8>),
}

/// What a line of `known_hosts` says.
pub open spec fn host_line(line: Seq<char>) -> HostLine {
    let w = words(line);
    if w.len() == 0 || w[0][0] == '#' {
        HostLine::Nothing
    } else if w.len() == 1 {
        HostLine::Malformed
    } else {
        match parsed_fingerprint(w[1]) {
            Ok(fp) => HostLine::Pin(w[0], fp),
            Err(e) => HostLine::BadFingerprint(e),
        }
    }
}

/// The pins that some lines of `known_hosts` hold, or the first line that is
/// wrong; the first of them is line `first`.
pub open spec fn host_lines(ls: Seq<Seq<char>>, first: nat) -> Result<
    Seq<(Seq<char>, Seq<u8>)>,
    (nat, Option<FingerprintError>),
>
    decreases ls.len(),
{
    if ls.len() == 0 {
        Ok(Seq::empty())
    } else {
        let rest = host_lines(ls.drop_first(), first + 1);
        match host_line(ls[0]) {
            HostLine::Malformed => Err((first, None)),
            HostLine::BadFingerprint(e) => Err((first, Some(e))),
            HostLine::Nothing => rest,
            HostLine::Pin(host, fp) => match rest {
                Ok(pins) => Ok(seq![(host, fp)] + pins),
                Err(e) => Err(e),
            },
        }
    }
}

/// The views of some pins.
pub open spec fn pins(entries: Seq<(String, Fingerprint)>) -> Seq<(Seq<char>, Seq<u8>)> {
    entries.map_values(|e: (String, Fingerprint)| (e.0@, e.1.0@))
}

/// The first pin for `host`.
pub open spec fn pin_of(entries: Seq<(Seq<char>, Seq<u8>)>, host: Seq<char>) -> Option<Seq<u8>>
    decreases entries.len(),
{
    if entries.len() == 0 {
        None
    } else if entries[0].0 == host {
        Some(entries[0].1)
    } else {
        pin_of(entries.drop_first(), host)
    }
}

/// The pins of the other hosts.
pub open spec fn without_host(entries: Seq<(Seq<char>, Seq<u8>)>, host: Seq<char>) -> Seq<
    (Seq<char>, Seq<u8>),
>
    decreases entries.len(),
{
    if entries.len() == 0 {
        Seq::empty()
    } else {
        let rest = without_host(entries.drop_last(), host);
        if entries.last().0 == host {
            rest
        } else {
            rest.push(entries.last())
        }
    }
}

/// The first line of a `known_hosts` file.
pub open spec fn hosts_header() -> Seq<char> {
    "# qsh known hosts: <host>:<port> sha256:<public key hash>"@
}

/// The line that pins `host`.
pub open spec fn pin_line(host: Seq<char>, fp: Seq<u8>) -> Seq<char> {
    host + seq![' '] + ("sha256:"@ + hex(fp))
}

/// The lines of some pins, each with its line feed.
pub open spec fn pin_lines(entries: Seq<(Seq<char>, Seq<u8>)>) -> Seq<char>
    decreases entries.len(),
{
    if entries.len() == 0 {
        Seq::empty()
    } else {
        pin_line(entries[0].0, entries[0].1) + seq!['\n'] + pin_lines(entries.drop_first())
    }
}

/// The `known_hosts` file that holds these pins.
pub open spec fn hosts_file(entries: Seq<(Seq<char>, Seq<u8>)>) -> Seq<char> {
    hosts_header() + seq!['\n'] + pin_lines(entries)
}

/// What reading a `known_hosts` file came to.
#[derive(Debug)]
pub enum HostsText {
    Missing,
    Unreadable,
    Text(String),
}

/// The pins to go by when some are in memory and this is what the file came to:
/// those in the file, unless it cannot be read or is malformed.
pub open spec fn refreshed(
    in_memory: Seq<(Seq<char>, Seq<u8>)>,
    file: HostsText,
) -> Seq<(Seq<char>, Seq<u8>)> {
    match file {
        HostsText::Unreadable => in_memory,
        HostsText::Missing => Seq::empty(),
        HostsText::Text(t) => match host_lines(lines(t@), 1) {
            Ok(fresh) => fresh,
            Err(_) => in_memory,
        },
    }
}

/// Whether an existing pin may be replaced.
#[derive(Debug, Clone, Copy, PartialEq, Eq, Structural)]
pub enum Trust {
    Replace,
    OnlyIfAbsentOrEqual,
}

/// The pins after `host` was offered to be pinned to `fp`, where `now` are the
/// pins to go by.
pub open spec fn updated(
    now: Seq<(Seq<char>, Seq<u8>)>,
    host: Seq<char>,
    fp: Seq<u8>,
    trust: Trust,
) -> Seq<(Seq<char>, Seq<u8>)> {
    if trust is OnlyIfAbsentOrEqual && pin_of(now, host) is Some {
        now
    } else {
        without_host(now, host).push((host, fp))
    }
}

/// A host is pinned to another key.
#[derive(Debug, Clone)]
pub struct PinConflict {
    pub host_key: String,
    pub existing: Fingerprint,
    pub offered: Fingerprint,
}

impl PinConflict {
    /// What the error says.
    pub open spec fn text(&self) -> Seq<char> {
        self.host_key@ + " was pinned to "@ + self.existing.text()
            + " while we were connecting, but the server offered "@ + self.offered.text()
    }

    /// What the error says.
    pub fn message(&self) -> (out: String)
        ensures
            out@ == self.text(),
    {
        let mut out = self.host_key.clone();
        out.append(" was pinned to ");
        out.append(self.existing.to_string().as_str());
        out.append(" while we were connecting, but the server offered ");
        out.append(self.offered.to_string().as_str());
        out
    }
}

/// A `known_hosts` file: `host:port sha256:<hex>`, one per line.
#[derive(Debug)]
pub struct KnownHosts {
    pub entries: Vec<(String, Fingerprint)>,
}

impl View for KnownHosts {
    type V = Seq<(Seq<char>, Seq<u8>)>;

    open spec fn view(&self) -> Seq<(Seq<char>, Seq<u8>)> {
        pins(self.entries@)
    }
}

impl KnownHosts {
    /// The pins in the text of a `known_hosts` file; a missing file holds none.
    /// Fails on the first malformed entry or unparseable fingerprint.
    pub fn load(text: Option<&str>) -> (r: Result<KnownHosts, KnownHostsError>)
        ensures
            ({
                let all = match text {
                    Some(t) => host_lines(lines(t@), 1),
                    None => Ok(Seq::empty()),
                };
                match r {
                    Ok(kh) => all == Ok::<Seq<(Seq<char>, Seq<u8>)>, (nat, Option<FingerprintError>)>(
                        kh@,
                    ),
                    Err(KnownHostsError::Malformed(n)) => all == Err::<
                        Seq<(Seq<char>, Seq<u8>)>,
                        (nat, Option<FingerprintError>),
                    >((n as nat, None)),
                    Err(KnownHostsError::Fingerprint(n, e)) => all == Err::<
                        Seq<(Seq<char>, Seq<u8>)>,
                        (nat, Option<FingerprintError>),
                    >((n as nat, Some(e))),
                }
            }),
    {
        let mut entries: Vec<(String, Fingerprint)> = Vec::new();
        let t: &str = match text {
            None => {
                assert(pins(entries@) =~= Seq::empty());
                return Ok(KnownHosts { entries });
            },
            Some(t) => t,
        };
        let ls = split_lines(t);
        let ghost all = lines(t@);
        let ghost whole = host_lines(all, 1);
        let mut i: usize = 0;
        assert(all.skip(0) =~= all);
        assert(pins(entries@) =~= Seq::empty());
        proof {
            if whole is Ok {
                assert(pins(entries@) + whole->Ok_0 =~= whole->Ok_0);
            }
        }
        while i < ls.len()
            invariant
                i <= ls@.len(),
                texts(ls@) == all,
                text == Some(t),
                all == lines(t@),
                whole == host_lines(all, 1),
                match host_lines(all.skip(i as int), (i + 1) as nat) {
                    Ok(rest) => whole is Ok && whole->Ok_0 == pins(entries@) + rest,
                    Err(e) => whole == Err::<
                        Seq<(Seq<char>, Seq<u8>)>,
                        (nat, Option<FingerprintError>),
                    >(e),
                },
            decreases ls@.len() - i,
        {
            let ghost now = all.skip(i as int);
            let ghost before = entries@;
            assert(now.len() > 0);
            assert(now[0] == ls@[i as int]@) by {
                assert(texts(ls@)[i as int] == ls@[i as int]@);
            }
            assert(now.drop_first() =~= all.skip(i + 1));
            let w = split_words(ls[i].as_str());
            let ghost ws = words(now[0]);
            assert(texts(w@) == ws);
            assert(ws.len() == w@.len());
            if w.len() == 0 {
                i += 1;
                continue;
            }
            assert(ws[0] == w@[0]@);
            proof {
                lemma_words_nonempty(now[0]);
            }
            let first = chars_of(w[0].as_str());
            if first[0] == '#' {
                i += 1;
                continue;
            }
            if w.len() == 1 {
                return Err(KnownHostsError::Malformed(i + 1));
            }
            assert(ws[1] == w@[1]@);
            match Fingerprint::parse(w[1].as_str()) {
                Err(e) => return Err(KnownHostsError::Fingerprint(i + 1, e)),
                Ok(fp) => {
                    entries.push((w[0].clone(), fp));
                    proof {
                        assert(pins(entries@) =~= pins(before).push((ws[0], fp.0@)));
                        match host_lines(now.drop_first(), (i + 2) as nat) {
                            Ok(rest) => {
                                assert(pins(before) + (seq![(ws[0], fp.0@)] + rest) =~= pins(
                                    entries@,
                                ) + rest);
                            },
                            Err(_) => {},
                        }
                    }
                },
            }
            i += 1;
        }
        assert(all.skip(i as int) =~= Seq::empty());
        let kh = KnownHosts { entries };
        assert(kh@ + Seq::empty() =~= kh@);
        Ok(kh)
    }

    /// The key that the host is pinned to.
    #[must_use]
    pub fn get(&self, host_key: &str) -> (r: Option<Fingerprint>)
        ensures
            match r {
                Some(fp) => pin_of(self@, host_key@) == Some(fp.0@),
                None => pin_of(self@, host_key@) is None,
            },
    {
        let mut i: usize = 0;
        assert(self@.skip(0) =~= self@);
        while i < self.entries.len()
            invariant
                i <= self.entries@.len(),
                pin_of(self@, host_key@) == pin_of(self@.skip(i as int), host_key@),
            decreases self.entries@.len() - i,
        {
            assert(self@.skip(i as int)[0] == self@[i as int]);
            if same(self.entries[i].0.as_str(), host_key) {
                return Some(self.entries[i].1);
            }
            assert(self@.skip(i as int).drop_first() =~= self@.skip(i + 1));
            i += 1;
        }
        None
    }

    /// Drops the pins of one host; returns how many there were.
    fn drop_host(&mut self, host_key: &str) -> (removed: usize)
        ensures
            final(self)@ == without_host(old(self)@, host_key@),
            removed == old(self)@.len() - final(self)@.len(),
    {
        let mut kept: Vec<(String, Fingerprint)> = Vec::new();
        let ghost before = self@;
        let mut i: usize = 0;
        assert(before.take(0) =~= Seq::empty());
        assert(pins(kept@) =~= Seq::empty());
        while i < self.entries.len()
            invariant
                i <= self.entries@.len(),
                before == pins(self.entries@),
                pins(kept@) == without_host(before.take(i as int), host_key@),
                kept@.len() <= i,
            decreases self.entries@.len() - i,
        {
            assert(before.take(i + 1).drop_last() =~= before.take(i as int));
            assert(before.take(i + 1).last() == before[i as int]);
            if !same(self.entries[i].0.as_str(), host_key) {
                let ghost k0 = kept@;
                kept.push((self.entries[i].0.clone(), self.entries[i].1));
                assert(pins(kept@) =~= pins(k0).push(before[i as int]));
            }
            i += 1;
        }
        assert(before.take(i as int) =~= before);
        assert(pins(kept@).len() == kept@.len());
        let removed: usize = self.entries.len() - kept.len();
        self.entries = kept;
        removed
    }

    /// Take over what is in the file now, keeping the copy in memory if the file
    /// cannot be read or is malformed.
    pub fn refresh(&mut self, file: &HostsText)
        ensures
            final(self)@ == refreshed(old(self)@, *file),
    {
        let fresh = match file {
            HostsText::Unreadable => return ,
            HostsText::Missing => KnownHosts::load(None),
            HostsText::Text(t) => KnownHosts::load(Some(t.as_str())),
        };
        if let Ok(kh) = fresh {
            self.entries = kh.entries;
        }
    }

    /// Pins `host_key` to `fp` as far as `trust` lets it. `file` is what the file
    /// holds, read under its lock, which is kept until the file that is returned
    /// has been written: so a concurrent client cannot read the old file,
    /// decide, and write back a copy that drops what was just added.
    pub fn update(
        &mut self,
        file: &HostsText,
        host_key: &str,
        fp: Fingerprint,
        trust: Trust,
    ) -> (r: Result<Option<String>, PinConflict>)
        ensures
            ({
                let now = refreshed(old(self)@, *file);
                let pinned = pin_of(now, host_key@);
                &&& final(self)@ == updated(now, host_key@, fp.0@, trust)
                &&& if trust is Replace || pinned is None {
                    r matches Ok(Some(new)) && new@ == hosts_file(final(self)@)
                } else if pinned == Some(fp.0@) {
                    r matches Ok(None)
                } else {
                    &&& r is Err
                    &&& r->Err_0.host_key@ == host_key@
                    &&& Some(r->Err_0.existing.0@) == pinned
                    &&& r->Err_0.offered == fp
                }
            }),
    {
        self.refresh(file);
        match trust {
            Trust::Replace => {},
            Trust::OnlyIfAbsentOrEqual => {
                if let Some(existing) = self.get(host_key) {
                    if !existing.same_key(&fp) {
                        return Err(
                            PinConflict { host_key: host_key.to_owned(), existing, offered: fp },
                        );
                    }
                    return Ok(None);
                }
            },
        }
        let _ = self.drop_host(host_key);
        let ghost kept = self.entries@;
        self.entries.push((host_key.to_owned(), fp));
        assert(self@ =~= pins(kept).push((host_key@, fp.0@)));
        Ok(Some(self.save()))
    }

    /// Add or replace the entry for `host_key`. Returns the file to write in
    /// place of `file`, under the same lock.
    pub fn set(&mut self, file: &HostsText, host_key: &str, fp: Fingerprint) -> (new: String)
        ensures
            final(self)@ == updated(
                refreshed(old(self)@, *file),
                host_key@,
                fp.0@,
                Trust::Replace,
            ),
            new@ == hosts_file(final(self)@),
    {
        match self.update(file, host_key, fp, Trust::Replace) {
            Ok(Some(new)) => new,
            _ => self.save(),
        }
    }

    /// Pin `host_key` only if it is unpinned, or already pinned to `fp`. Returns
    /// the file to write in place of `file`, under the same lock, if there is
    /// anything to write.
    ///
    /// This is what trust on first use must use. Plain `set` would happily
    /// overwrite a pin another process wrote a moment earlier, which is the
    /// one thing a pin exists to prevent: silently replacing a conflicting
    /// key reopens exactly the question the pin had already answered.
    ///
    /// Fails if the host is already pinned to a different key.
    pub fn set_if_new(&mut self, file: &HostsText, host_key: &str, fp: Fingerprint) -> (r: Result<
        Option<String>,
        PinConflict,
    >)
        ensures
            ({
                let now = refreshed(old(self)@, *file);
                let pinned = pin_of(now, host_key@);
                &&& final(self)@ == updated(now, host_key@, fp.0@, Trust::OnlyIfAbsentOrEqual)
                &&& if pinned is None {
                    r matches Ok(Some(new)) && new@ == hosts_file(final(self)@)
                } else if pinned == Some(fp.0@) {
                    r matches Ok(None)
                } else {
                    &&& r is Err
                    &&& r->Err_0.host_key@ == host_key@
                    &&& Some(r->Err_0.existing.0@) == pinned
                    &&& r->Err_0.offered == fp
                }
            }),
    {
        self.update(file, host_key, fp, Trust::OnlyIfAbsentOrEqual)
    }

    /// Remove every entry for `host_key`. Returns how many were removed, and, if
    /// there were any, the file to write in place of `file`, under the same
    /// lock.
    pub fn remove(&mut self, file: &HostsText, host_key: &str) -> (r: (usize, Option<String>))
        ensures
            ({
                let now = refreshed(old(self)@, *file);
                &&& final(self)@ == without_host(now, host_key@)
                &&& r.0 == now.len() - final(self)@.len()
                &&& match r.1 {
                    Some(new) => r.0 > 0 && new@ == hosts_file(final(self)@),
                    None => r.0 == 0,
                }
            }),
    {
        self.refresh(file);
        let removed: usize = self.drop_host(host_key);
        if removed > 0 {
            (removed, Some(self.save()))
        } else {
            (0, None)
        }
    }

    /// The pins, in order.
    #[must_use]
    pub fn entries(&self) -> (out: &Vec<(String, Fingerprint)>)
        ensures
            pins(out@) == self@,
    {
        &self.entries
    }

    /// The file that holds these pins.
    pub fn save(&self) -> (out: String)
        ensures
            out@ == hosts_file(self@),
    {
        let mut out = "# qsh known hosts: <host>:<port> sha256:<public key hash>".to_owned();
        out.push('\n');
        let mut i: usize = 0;
        assert(self@.skip(0) =~= self@);
        assert(out@ + pin_lines(self@.skip(0)) =~= hosts_file(self@));
        while i < self.entries.len()
            invariant
                i <= self.entries@.len(),
                out@ + pin_lines(self@.skip(i as int)) == hosts_file(self@),
            decreases self.entries@.len() - i,
        {
            let ghost before = out@;
            let ghost rest = self@.skip(i as int);
            assert(rest[0] == self@[i as int]);
            assert(rest.drop_first() =~= self@.skip(i + 1));
            let ghost line = pin_line(self@[i as int].0, self@[i as int].1);
            out.append(self.entries[i].0.as_str());
            out.push(' ');
            out.append(self.entries[i].1.to_string().as_str());
            assert(out@ =~= before + line);
            out.push('\n');
            assert(out@ + pin_lines(self@.skip(i + 1)) =~= before + (line + seq!['\n'] + pin_lines(
                self@.skip(i + 1),
            )));
            i += 1;
        }
        assert(self@.skip(i as int) =~= Seq::empty());
        assert(out@ + pin_lines(self@.skip(i as int)) =~= out@);
        out
    }
}

/// No word is empty.
proof fn lemma_words_nonempty(s: Seq<char>)
    ensures
        forall|i: int| 0 <= i < words(s).len() ==> (#[trigger] words(s)[i]).len() > 0,
    decreases s.len(),
{
    if s.len() == 0 {
        assert(words(s).len() == 0);
    } else {
        if is_space(s[0]) {
            lemma_words_nonempty(s.skip(1));
            assert(words(s) == words(s.skip(1)));
        } else {
            let n = crate::text::word_len(s);
            crate::text::lemma_word_len(s);
            lemma_words_nonempty(s.skip(n as int));
            assert forall|i: int| 0 <= i < words(s).len() implies (#[trigger] words(s)[i]).len()
                > 0 by {
                if i > 0 {
                    assert(words(s)[i] == words(s.skip(n as int))[i - 1]);
                } else {
                    assert(words(s)[0] == s.take(n as int));
                }
            }
        }
    }
}

/// Is this a host that a line of `known_hosts` can name? It is a word, and not
/// the beginning of a comment.
pub open spec fn plain_host(host: Seq<char>) -> bool {
    &&& host.len() > 0
    &&& host[0] != '#'
    &&& forall|i: int| 0 <= i < host.len() ==> !is_space(#[trigger] host[i])
}

/// Can these pins be written to a `known_hosts` file? Every host is one that a
/// line can name, and every digest has its length.
pub open spec fn writable(entries: Seq<(Seq<char>, Seq<u8>)>) -> bool {
    forall|i: int|
        0 <= i < entries.len() ==> plain_host((#[trigger] entries[i]).0) && entries[i].1.len() == 32
}

/// A pin that was written is read back as it was.
proof fn lemma_pin_line_reads_back(host: Seq<char>, fp: Seq<u8>)
    requires
        plain_host(host),
        fp.len() == 32,
    ensures
        host_line(pin_line(host, fp)) == HostLine::Pin(host, fp),
        !pin_line(host, fp).contains('\n'),
        pin_line(host, fp).last() != '\r',
{
    let text = "sha256:"@ + hex(fp);
    reveal_strlit("sha256:");
    assert forall|i: int| 0 <= i < text.len() implies !is_space(#[trigger] text[i]) by {
        if i >= 7 {
            assert(text[i] == hex(fp)[i - 7]);
        }
    }
    lemma_two_words(host, text);
    crate::crypto::lemma_digest_reads_back(fp);
    let line = pin_line(host, fp);
    assert(line.last() == text.last());
    if line.contains('\n') {
        let i = choose|i: int| 0 <= i < line.len() && line[i] == '\n';
        if i < host.len() {
            assert(is_space(host[i]));
        } else if i > host.len() {
            assert(line[i] == text[i - host.len() - 1]);
        }
    }
}

/// Pins that were written are read back as they were.
proof fn lemma_pin_lines_read_back(entries: Seq<(Seq<char>, Seq<u8>)>, first: nat)
    requires
        writable(entries),
    ensures
        host_lines(lines(pin_lines(entries)), first) == Ok::<
            Seq<(Seq<char>, Seq<u8>)>,
            (nat, Option<FingerprintError>),
        >(entries),
    decreases entries.len(),
{
    if entries.len() == 0 {
        assert(entries =~= Seq::empty());
    } else {
        let rest = entries.drop_first();
        assert forall|i: int| 0 <= i < rest.len() implies plain_host((#[trigger] rest[i]).0)
            && rest[i].1.len() == 32 by {
            assert(rest[i] == entries[i + 1]);
        }
        lemma_pin_lines_read_back(rest, first + 1);
        let (host, fp) = entries[0];
        lemma_pin_line_reads_back(host, fp);
        let line = pin_line(host, fp);
        lemma_first_line(line, pin_lines(rest));
        let ls = lines(pin_lines(entries));
        assert(ls == seq![line] + lines(pin_lines(rest)));
        assert(ls.drop_first() =~= lines(pin_lines(rest)));
        assert(ls[0] == line);
        assert(seq![(host, fp)] + rest =~= entries);
    }
}

/// What is written to a `known_hosts` file is read back as it was, whatever the
/// keys, as long as every host is one that a line can name.
pub proof fn law_known_hosts_round_trip(entries: Seq<(Seq<char>, Seq<u8>)>)
    requires
        writable(entries),
    ensures
        host_lines(lines(hosts_file(entries)), 1) == Ok::<
            Seq<(Seq<char>, Seq<u8>)>,
            (nat, Option<FingerprintError>),
        >(entries),
{
    let h = hosts_header();
    reveal_strlit("# qsh known hosts: <host>:<port> sha256:<public key hash>");
    assert(!h.contains('\n'));
    lemma_first_line(h, pin_lines(entries));
    let ls = lines(hosts_file(entries));
    assert(ls[0] == h);
    assert(ls.drop_first() =~= lines(pin_lines(entries)));
    lemma_pin_lines_read_back(entries, 2);
    // The header is a comment: its first word is the number sign.
    assert(h[0] == '#' && h[1] == ' ');
    crate::text::lemma_word_len_is(h, 1);
    assert(!is_space(h[0]));
    assert(words(h)[0] == h.take(1));
    assert(host_line(h) == HostLine::Nothing);
}

/// No word holds white space.
proof fn lemma_words_are_plain(s: Seq<char>, w: int)
    requires
        0 <= w < words(s).len(),
    ensures
        forall|i: int| 0 <= i < words(s)[w].len() ==> !is_space(#[trigger] words(s)[w][i]),
    decreases s.len(),
{
    if s.len() > 0 {
        if is_space(s[0]) {
            assert(words(s) == words(s.skip(1)));
            lemma_words_are_plain(s.skip(1), w);
        } else {
            let n = crate::text::word_len(s);
            crate::text::lemma_word_len(s);
            if w == 0 {
                assert(words(s)[0] == s.take(n as int));
                assert forall|i: int| 0 <= i < n implies !is_space(#[trigger] words(s)[0][i]) by {
                    assert(words(s)[0][i] == s[i]);
                }
            } else {
                assert(words(s)[w] == words(s.skip(n as int))[w - 1]);
                lemma_words_are_plain(s.skip(n as int), w - 1);
            }
        }
    }
}

/// Whatever is read out of a `known_hosts` file can be written to one.
proof fn lemma_parsed_pins_are_writable(ls: Seq<Seq<char>>, first: nat)
    ensures
        host_lines(ls, first) matches Ok(entries) ==> writable(entries),
    decreases ls.len(),
{
    if ls.len() > 0 {
        lemma_parsed_pins_are_writable(ls.drop_first(), first + 1);
        if let HostLine::Pin(host, fp) = host_line(ls[0]) {
            lemma_words_are_plain(ls[0], 0);
            lemma_words_nonempty(ls[0]);
            assert(words(ls[0])[0] == host);
            assert(plain_host(host) && fp.len() == 32);
            if let Ok(rest) = host_lines(ls.drop_first(), first + 1) {
                let all = seq![(host, fp)] + rest;
                assert forall|i: int| 0 <= i < all.len() implies plain_host((#[trigger] all[i]).0)
                    && all[i].1.len() == 32 by {
                    if i > 0 {
                        assert(all[i] == rest[i - 1]);
                    }
                }
            }
        }
    }
}

/// Dropping a host leaves no pin for it and touches no other host.
pub proof fn law_dropping_a_host(entries: Seq<(Seq<char>, Seq<u8>)>, host: Seq<char>)
    ensures
        pin_of(without_host(entries, host), host) is None,
        forall|other: Seq<char>|
            other != host ==> #[trigger] pin_of(without_host(entries, host), other) == pin_of(
                entries,
                other,
            ),
    decreases entries.len(),
{
    if entries.len() == 0 {
    } else {
        law_dropping_a_host(entries.drop_last(), host);
        let kept = without_host(entries.drop_last(), host);
        assert(entries =~= entries.drop_last().push(entries.last()));
        assert forall|other: Seq<char>| other != host implies #[trigger] pin_of(
            without_host(entries, host),
            other,
        ) == pin_of(entries, other) by {
            lemma_pin_of_push(entries.drop_last(), entries.last(), other);
            lemma_pin_of_push(kept, entries.last(), other);
        }
        lemma_pin_of_push(kept, entries.last(), host);
    }
}

/// A pin at the end counts for its host unless there is one before it.
proof fn lemma_pin_of_push(
    entries: Seq<(Seq<char>, Seq<u8>)>,
    last: (Seq<char>, Seq<u8>),
    host: Seq<char>,
)
    ensures
        pin_of(entries.push(last), host) == (match pin_of(entries, host) {
            Some(fp) => Some(fp),
            None => if last.0 == host {
                Some(last.1)
            } else {
                None
            },
        }),
    decreases entries.len(),
{
    if entries.len() == 0 {
        assert(entries.push(last).drop_first() =~= Seq::empty());
    } else {
        assert(entries.push(last).drop_first() =~= entries.drop_first().push(last));
        lemma_pin_of_push(entries.drop_first(), last, host);
    }
}

/// After a host has been pinned to a key, that is its only pin, and every other
/// host is pinned as it was.
pub proof fn law_pinning_replaces(
    now: Seq<(Seq<char>, Seq<u8>)>,
    host: Seq<char>,
    fp: Seq<u8>,
)
    ensures
        ({
            let after = updated(now, host, fp, Trust::Replace);
            &&& pin_of(after, host) == Some(fp)
            &&& without_host(after, host) == without_host(now, host)
            &&& forall|other: Seq<char>|
                other != host ==> #[trigger] pin_of(after, other) == pin_of(now, other)
        }),
{
    let kept = without_host(now, host);
    let after = kept.push((host, fp));
    law_dropping_a_host(now, host);
    lemma_pin_of_push(kept, (host, fp), host);
    assert(after.drop_last() =~= kept);
    lemma_without_host_twice(now, host);
    assert forall|other: Seq<char>| other != host implies #[trigger] pin_of(after, other) == pin_of(
        now,
        other,
    ) by {
        lemma_pin_of_push(kept, (host, fp), other);
        assert(pin_of(kept, other) == pin_of(now, other));
    }
}

/// Trust on first use never touches a pin: every host that was pinned, the one
/// in question included, is pinned to the same key afterwards.
pub proof fn law_first_use_keeps_every_pin(
    now: Seq<(Seq<char>, Seq<u8>)>,
    host: Seq<char>,
    fp: Seq<u8>,
    pinned: Seq<char>,
)
    requires
        pin_of(now, pinned) is Some,
    ensures
        pin_of(updated(now, host, fp, Trust::OnlyIfAbsentOrEqual), pinned) == pin_of(now, pinned),
{
    if pin_of(now, host) is None {
        law_pinning_replaces(now, host, fp);
    }
}

/// What another process has written to the file meanwhile is not lost: whatever
/// is in memory, and whatever the file looks like as long as it can be read, the
/// other hosts are pinned afterwards as the file pins them.
pub proof fn law_concurrent_pins_survive(
    in_memory: Seq<(Seq<char>, Seq<u8>)>,
    text: String,
    host: Seq<char>,
    fp: Seq<u8>,
    trust: Trust,
    other: Seq<char>,
)
    requires
        host_lines(lines(text@), 1) is Ok,
        other != host,
    ensures
        ({
            let theirs = host_lines(lines(text@), 1)->Ok_0;
            let now = refreshed(in_memory, HostsText::Text(text));
            &&& pin_of(updated(now, host, fp, trust), other) == pin_of(theirs, other)
            &&& pin_of(without_host(now, host), other) == pin_of(theirs, other)
        }),
{
    let now = refreshed(in_memory, HostsText::Text(text));
    law_pinning_replaces(now, host, fp);
    law_dropping_a_host(now, host);
}

/// The file and the pins in memory agree after every change: loading what was
/// written gives exactly those pins, whatever the file came to before, provided
/// that the host is one that a line can name and so are those in memory.
pub proof fn law_written_pins_are_those_in_memory(
    in_memory: Seq<(Seq<char>, Seq<u8>)>,
    file: HostsText,
    host: Seq<char>,
    fp: Seq<u8>,
    trust: Trust,
)
    requires
        writable(in_memory),
        plain_host(host),
        fp.len() == 32,
    ensures
        ({
            let now = refreshed(in_memory, file);
            let set = updated(now, host, fp, trust);
            let removed = without_host(now, host);
            &&& writable(now)
            &&& writable(set) && host_lines(lines(hosts_file(set)), 1) == Ok::<
                Seq<(Seq<char>, Seq<u8>)>,
                (nat, Option<FingerprintError>),
            >(set)
            &&& writable(removed) && host_lines(lines(hosts_file(removed)), 1) == Ok::<
                Seq<(Seq<char>, Seq<u8>)>,
                (nat, Option<FingerprintError>),
            >(removed)
        }),
{
    if let HostsText::Text(t) = file {
        lemma_parsed_pins_are_writable(lines(t@), 1);
    }
    let now = refreshed(in_memory, file);
    assert(writable(now));
    lemma_without_host_is_writable(now, host);
    let removed = without_host(now, host);
    let added = removed.push((host, fp));
    assert forall|i: int| 0 <= i < added.len() implies plain_host((#[trigger] added[i]).0)
        && added[i].1.len() == 32 by {
        if i < removed.len() {
            assert(added[i] == removed[i]);
        }
    }
    law_known_hosts_round_trip(updated(now, host, fp, trust));
    law_known_hosts_round_trip(removed);
}

/// Dropping a host keeps the other pins as they are.
proof fn lemma_without_host_is_writable(entries: Seq<(Seq<char>, Seq<u8>)>, host: Seq<char>)
    requires
        writable(entries),
    ensures
        writable(without_host(entries, host)),
    decreases entries.len(),
{
    if entries.len() > 0 {
        let before = entries.drop_last();
        assert forall|i: int| 0 <= i < before.len() implies plain_host((#[trigger] before[i]).0)
            && before[i].1.len() == 32 by {
            assert(before[i] == entries[i]);
        }
        lemma_without_host_is_writable(before, host);
        let kept = without_host(before, host);
        let all = kept.push(entries.last());
        assert forall|i: int| 0 <= i < all.len() implies plain_host((#[trigger] all[i]).0)
            && all[i].1.len() == 32 by {
            if i < kept.len() {
                assert(all[i] == kept[i]);
            }
        }
    }
}

proof fn lemma_without_host_twice(entries: Seq<(Seq<char>, Seq<u8>)>, host: Seq<char>)
    ensures
        without_host(without_host(entries, host), host) == without_host(entries, host),
    decreases entries.len(),
{
    if entries.len() > 0 {
        lemma_without_host_twice(entries.drop_last(), host);
        let kept = without_host(entries.drop_last(), host);
        assert(kept.push(entries.last()).drop_last() =~= kept);
    }
}

// ---------------------------------------------------------------------------
// What it all comes to
// ---------------------------------------------------------------------------

/// Clients may set the name of their terminal, the language, the colours, every
/// setting of the locale, and everything that is qsh's own; and nothing else.
pub proof fn law_what_clients_may_set(name: Seq<char>, rest: Seq<char>)
    ensures
        env_permitted("TERM"@),
        env_permitted("LANG"@),
        env_permitted("COLORTERM"@),
        env_permitted("LC_"@ + rest),
        env_permitted("QSH_"@ + rest),
        env_permitted(name) && name != "TERM"@ && name != "LANG"@ && name != "COLORTERM"@
            ==> name.len() >= 3 && (name.take(3) == "LC_"@ || (name.len() >= 4 && name.take(4)
            == "QSH_"@)),
        !env_permitted("LD_"@ + rest),
        !env_permitted("PATH"@ + rest),
{
    reveal_strlit("LC_");
    reveal_strlit("QSH_");
    reveal_strlit("LD_");
    reveal_strlit("PATH");
    reveal_strlit("TERM");
    reveal_strlit("LANG");
    reveal_strlit("COLORTERM");
    assert(("LC_"@ + rest).take(3) =~= "LC_"@);
    assert(("QSH_"@ + rest).take(4) =~= "QSH_"@);
    let ld = "LD_"@ + rest;
    let path = "PATH"@ + rest;
    assert(ld[0] == 'L' && ld[1] == 'D' && path[0] == 'P');
    assert("TERM"@[0] == 'T' && "LANG"@[1] == 'A' && "COLORTERM"@[0] == 'C');
    assert("LC_"@[0] == 'L' && "LC_"@[1] == 'C' && "QSH_"@[0] == 'Q');
    if "LC_"@.is_prefix_of(ld) {
        assert(ld.take(3)[1] == ld[1]);
    }
    if "QSH_"@.is_prefix_of(ld) {
        assert(ld.take(4)[0] == ld[0]);
    }
    if "LC_"@.is_prefix_of(path) {
        assert(path.take(3)[0] == path[0]);
    }
    if "QSH_"@.is_prefix_of(path) {
        assert(path.take(4)[0] == path[0]);
    }
}

/// A directory that is named is the one that is used. Otherwise the client's lies
/// in the user's configuration directory, and the server's in the system's, or
/// in the user's where it does not run as root.
pub proof fn law_directories(named: Seq<u8>, config: Seq<u8>, is_root: bool)
    ensures
        client_home(Some(named), Some(config)) == Some(named),
        client_home(Some(named), None) == Some(named),
        client_home(None, Some(config)) == Some(inside(config, encode_utf8("qsh"@))),
        client_home(None, None) is None,
        server_home(Some(named), is_root, Some(config)) == Some(named),
        server_home(None, true, Some(config)) == Some(encode_utf8("/etc/qsh"@)),
        server_home(None, true, None) == Some(encode_utf8("/etc/qsh"@)),
        server_home(None, false, Some(config)) == Some(inside(config, encode_utf8("qsh-server"@))),
        server_home(None, false, None) is None,
{
}

/// Without a configuration the server listens on every address of the host, on
/// the port that clients connect to unless told otherwise.
pub proof fn law_default_address()
    ensures
        listen_default() == "0.0.0.0:2222"@,
{
    reveal_strlit("0.0.0.0:");
    reveal_strlit("0.0.0.0:2222");
    reveal_with_fuel(decimal, 5);
    assert(decimal(2222) =~= seq!['2', '2', '2', '2']);
    assert(listen_default() =~= "0.0.0.0:2222"@);
}

/// A file counts as a certificate by its ending alone, and what stands in front
/// of it is the name of the authorization.
pub proof fn law_certificate_files(name: Seq<u8>, other: Seq<u8>)
    requires
        name.len() > 0,
        other.len() < 5 || other[other.len() - 4] != 46 || other[other.len() - 3] != 99
            || other[other.len() - 2] != 114 || other[other.len() - 1] != 116,
    ensures
        stem(name + seq![46u8, 99, 114, 116]) == Some(name),
        stem(other) is None,
{
    let file = name + seq![46u8, 99, 114, 116];
    assert(file.skip(file.len() - 4) =~= seq![46u8, 99, 114, 116]);
    assert(file.take(file.len() - 4) =~= name);
    if other.len() > 4 {
        let end = other.skip(other.len() - 4);
        assert(end[0] == other[other.len() - 4] && end[1] == other[other.len() - 3]);
        assert(end[2] == other[other.len() - 2] && end[3] == other[other.len() - 1]);
        if end == seq![46u8, 99, 114, 116] {
            assert(end[0] == 46 && end[1] == 99 && end[2] == 114 && end[3] == 116);
        }
    }
}

/// A file in the directory of authorizations is one exactly if its name ends in
/// `.crt`, and the authorization has the name that stands in front.
pub proof fn law_which_files_are_authorizations(c: Candidate, name: Seq<char>)
    requires
        name.len() > 0,
    ensures
        c.file_name@ == encode_utf8(name) + seq![46u8, 99, 114, 116] ==> c.is_certificate()
            && c.name() == name,
        c.is_certificate() ==> c.file_name@.len() > 4 && c.file_name@[c.file_name@.len() - 4] == 46
            && c.file_name@[c.file_name@.len() - 3] == 99 && c.file_name@[c.file_name@.len() - 2]
            == 114 && c.file_name@[c.file_name@.len() - 1] == 116,
{
    encode_utf8_valid_utf8(name);
    encode_utf8_decode_utf8(name);
    if encode_utf8(name).len() == 0 {
        assert(encode_utf8(name) =~= encode_utf8(Seq::empty()));
        encode_utf8_decode_utf8(Seq::empty());
    }
    let file = c.file_name@;
    let end = file.skip(file.len() - 4);
    if file == encode_utf8(name) + seq![46u8, 99, 114, 116] {
        assert(end =~= seq![46u8, 99, 114, 116]);
        assert(file.take(file.len() - 4) =~= encode_utf8(name));
    }
    if c.is_certificate() {
        assert(end[0] == 46 && end[1] == 99 && end[2] == 114 && end[3] == 116);
    }
}

/// A certificate and a policy make an authorization exactly if the certificate
/// can be read, the policy can be too and names a user, and the policy, where it
/// says for which key it was written, says that of this one. The authorization
/// is for that key, under that policy.
pub proof fn law_what_makes_an_authorization(c: Candidate, pem: Vec<u8>, meta: AuthMeta)
    requires
        c.cert == Ok::<Vec<u8>, String>(pem),
        c.meta == FileRead::Parsed(meta),
        pem_sections(pem@).len() > 0,
        forall|i: int|
            0 <= i < pem_sections(pem@).len() ==> #[trigger] pem_sections(pem@)[i] is Some,
        certificate(pem_sections(pem@)[0]->0) is Some,
    ensures
        ({
            let key = sha256(certificate(pem_sections(pem@)[0]->0)->0.spki);
            &&& c.complete() <==> meta.user@.len() > 0 && (meta.key_fingerprint is None
                || meta.key_fingerprint->0@ == "sha256:"@ + hex(key))
            &&& c.entry().fingerprint == key
            &&& c.entry().meta == meta@
        }),
{
}

/// Where the certificate or the policy is missing or broken there is no
/// authorization.
pub proof fn law_nothing_less_does(c: Candidate)
    requires
        ({
            ||| c.cert is Err
            ||| !(c.meta is Parsed)
            ||| c.cert is Ok && pem_sections(c.cert->Ok_0@).len() == 0
            ||| c.cert is Ok && pem_sections(c.cert->Ok_0@).len() > 0 && (pem_sections(
                c.cert->Ok_0@,
            )[0] is None || certificate(pem_sections(c.cert->Ok_0@)[0]->0) is None)
        }),
    ensures
        !c.complete(),
{
}

/// Every complete authorization is in the store, under the fingerprint of its
/// key, unless a later one is for the same key.
pub proof fn law_what_is_complete_is_stored(files: Seq<Candidate>, i: int)
    requires
        0 <= i < files.len(),
        files[i].is_certificate(),
        files[i].complete(),
        forall|j: int|
            i < j < files.len() ==> !((#[trigger] files[j]).is_certificate()
                && files[j].complete() && files[j].fingerprint() == files[i].fingerprint()),
    ensures
        entries_of(files).dom().contains(files[i].fingerprint()),
        entries_of(files)[files[i].fingerprint()] == files[i].entry(),
    decreases files.len(),
{
    let last = files.len() - 1;
    if i < last {
        let past = files.drop_last();
        assert(past[i] == files[i]);
        assert forall|j: int| i < j < past.len() implies !((#[trigger] past[j]).is_certificate()
            && past[j].complete() && past[j].fingerprint() == past[i].fingerprint()) by {
            assert(past[j] == files[j]);
        }
        law_what_is_complete_is_stored(past, i);
        assert(files[last] == files.last());
    }
}

/// Nothing else is in the store: a key for which there is no complete
/// authorization is not.
pub proof fn law_nothing_else_is_stored(files: Seq<Candidate>, key: Seq<u8>)
    requires
        forall|i: int|
            0 <= i < files.len() ==> !((#[trigger] files[i]).is_certificate()
                && files[i].complete() && files[i].fingerprint() == key),
    ensures
        !entries_of(files).dom().contains(key),
    decreases files.len(),
{
    if files.len() > 0 {
        let past = files.drop_last();
        let last = files.len() - 1;
        assert forall|i: int| 0 <= i < past.len() implies !((#[trigger] past[i]).is_certificate()
            && past[i].complete() && past[i].fingerprint() == key) by {
            assert(past[i] == files[i]);
        }
        law_nothing_else_is_stored(past, key);
        assert(files[last] == files.last());
    }
}

/// An authorization that is ignored is never ignored in silence.
pub proof fn law_ignored_files_are_told(
    files: Seq<Candidate>,
    dir: Seq<u8>,
    said: Seq<Seq<char>>,
    i: int,
)
    requires
        warnings_of(files, dir, said),
        0 <= i < files.len(),
        files[i].is_certificate(),
        !files[i].complete(),
    ensures
        exists|k: int, why: Seq<char>|
            0 <= k < said.len() && #[trigger] files[i].refused_for(dir, why) && #[trigger] said[k]
                == "qsh-server: ignoring authorization `"@ + files[i].name() + "`: "@ + why,
    decreases files.len(),
{
    let past = files.drop_last();
    let last = files.len() - 1;
    if i == last {
        assert(!files.last().warning(dir, None));
        let why = choose|why: Seq<char>|
            #[trigger] files[i].refused_for(dir, why) && said.last()
                == "qsh-server: ignoring authorization `"@ + files[i].name() + "`: "@ + why;
        assert(said[said.len() - 1] == said.last());
        assert(files[i].refused_for(dir, why));
    } else {
        assert(past[i] == files[i]);
        let before = if files.last().warning(dir, None) && warnings_of(past, dir, said) {
            said
        } else {
            said.drop_last()
        };
        law_ignored_files_are_told(past, dir, before, i);
        let (k, why) = choose|k: int, why: Seq<char>|
            0 <= k < before.len() && #[trigger] past[i].refused_for(dir, why)
                && #[trigger] before[k] == "qsh-server: ignoring authorization `"@ + past[i].name()
                + "`: "@ + why;
        assert(said[k] == before[k]);
        assert(files[i].refused_for(dir, why));
    }
}

/// About an authorization that stands nothing is said if its policy says for
/// which key it was written, and otherwise that it does not, by the name of the
/// authorization.
pub proof fn law_unbound_policies_are_told(c: Candidate, dir: Seq<u8>, w: Option<Seq<char>>)
    requires
        c.is_certificate(),
        c.complete(),
        c.warning(dir, w),
    ensures
        w is None <==> c.meta->Parsed_0.key_fingerprint is Some,
        w is Some ==> w->0 == "qsh-server: warning: "@ + c.meta_path(dir)
            + " does not record which key it is for; re-run `qsh-server authorize` for `"@
            + c.name() + "` to fix that"@,
{
}

/// The reason for which an authorization is ignored names the file at fault: the
/// certificate where it cannot be read or holds none, else the policy, where it
/// names no user or is for another key.
pub proof fn law_reasons_name_the_file(c: Candidate, dir: Seq<u8>, why: Seq<char>)
    requires
        c.refused_for(dir, why),
    ensures
        c.cert is Err ==> why == "reading "@ + c.cert_path(dir) + ": "@ + c.cert->Err_0@,
        c.cert is Ok && pem_sections(c.cert->Ok_0@).len() == 0 ==> why == c.cert_path(dir)
            + " contains no certificate"@,
        c.cert is Ok && pem_sections(c.cert->Ok_0@).len() == 1 && pem_sections(c.cert->Ok_0@)[0]
            is Some && certificate(pem_sections(c.cert->Ok_0@)[0]->0) is Some && c.meta is Parsed
            ==> c.meta_path(dir).is_prefix_of(why) && (c.meta->Parsed_0.user@.len() == 0 ==> why
            == c.meta_path(dir) + " does not name a user"@),
{
    let path = c.meta_path(dir);
    if c.meta is Parsed {
        let meta = c.meta->Parsed_0;
        assert((path + " does not name a user"@).take(path.len() as int) =~= path);
        assert((path + " was written for key "@ + meta.key_fingerprint->0@ + ", but "@
            + c.cert_path(dir) + " holds "@ + c.fingerprint_text()).take(path.len() as int)
            =~= path);
    }
}

/// The pin of a host is the first that stands there for it.
pub proof fn law_first_pin_counts(entries: Seq<(Seq<char>, Seq<u8>)>, host: Seq<char>, i: int)
    requires
        0 <= i <= entries.len(),
        forall|j: int| 0 <= j < i ==> (#[trigger] entries[j]).0 != host,
    ensures
        i < entries.len() && entries[i].0 == host ==> pin_of(entries, host) == Some(entries[i].1),
        i == entries.len() ==> pin_of(entries, host) is None,
    decreases entries.len(),
{
    if entries.len() > 0 && i > 0 {
        let rest = entries.drop_first();
        assert(entries[0].0 != host);
        assert forall|j: int| 0 <= j < i - 1 implies (#[trigger] rest[j]).0 != host by {
            assert(rest[j] == entries[j + 1]);
        }
        law_first_pin_counts(rest, host, i - 1);
        if i < entries.len() {
            assert(rest[i - 1] == entries[i]);
        }
    }
}

/// A host that is seen for the first time is pinned to the key that it showed,
/// and that is the only thing that changes; one that is pinned already is not
/// pinned again.
pub proof fn law_first_use_pins_the_host(
    now: Seq<(Seq<char>, Seq<u8>)>,
    host: Seq<char>,
    fp: Seq<u8>,
    other: Seq<char>,
)
    requires
        other != host,
    ensures
        ({
            let after = updated(now, host, fp, Trust::OnlyIfAbsentOrEqual);
            &&& pin_of(now, host) is None ==> pin_of(after, host) == Some(fp)
            &&& pin_of(now, host) is Some ==> after == now
            &&& pin_of(after, other) == pin_of(now, other)
        }),
{
    law_pinning_replaces(now, host, fp);
}

/// What stands in the file is what counts; a file that is gone pins nothing; and
/// one that cannot be read, or is malformed, leaves what was read before.
pub proof fn law_the_file_counts(in_memory: Seq<(Seq<char>, Seq<u8>)>, text: String)
    ensures
        refreshed(in_memory, HostsText::Missing).len() == 0,
        refreshed(in_memory, HostsText::Unreadable) == in_memory,
        host_lines(lines(text@), 1) is Ok ==> refreshed(in_memory, HostsText::Text(text))
            == host_lines(lines(text@), 1)->Ok_0,
        host_lines(lines(text@), 1) is Err ==> refreshed(in_memory, HostsText::Text(text))
            == in_memory,
{
}

/// An authorization expires once its deadline has passed and not before; without
/// one it never does.
pub proof fn law_deadline(meta: AuthMetaView, now: i64)
    ensures
        meta.expires_at_unix is None ==> !meta.expired(now),
        meta.expires_at_unix is Some ==> (meta.expired(now) <==> now > meta.expires_at_unix->0),
{
}

/// A list of programs permits what is on it, as it is written there, and nothing
/// else; an empty list permits everything.
pub proof fn law_listed_programs(meta: AuthMetaView, argv: Seq<Seq<char>>)
    requires
        argv.len() > 0,
    ensures
        meta.allowed_commands.len() == 0 ==> meta.permits(argv[0]) && meta.permits_argv(argv),
        meta.allowed_commands.len() > 0 ==> (meta.permits(argv[0]) <==> exists|i: int|
            0 <= i < meta.allowed_commands.len() && #[trigger] meta.allowed_commands[i] == argv[0]),
        meta.permits_argv(argv) <==> meta.permits(argv[0]),
{
    if meta.allowed_commands.contains(argv[0]) {
        let i = choose|i: int|
            0 <= i < meta.allowed_commands.len() && meta.allowed_commands[i] == argv[0];
        assert(meta.allowed_commands[i] == argv[0]);
    }
}

/// What the configuration file says is what applies. Where there is no file the
/// server listens on port 2222 of every address, waits a minute for a silent
/// peer and speaks up every fifteen seconds; a file that must exist is missed
/// instead. A file that is broken is never passed over: the path and the reason
/// are told.
pub proof fn law_configuration(
    path: Seq<char>,
    file: FileRead<ServerConfig>,
    r: Result<ServerConfig, ConfigError>,
)
    ensures
        ServerConfig::wanted(path, file, r) || ServerConfig::required(path, file, r) ==> (file
            is Parsed ==> r is Ok && r->Ok_0 == file->Parsed_0),
        ServerConfig::wanted(path, file, r) && file is Missing ==> r is Ok && r->Ok_0.listen@
            == "0.0.0.0:2222"@ && r->Ok_0.idle_timeout_secs == 60 && r->Ok_0.keepalive_secs == 15,
        ServerConfig::required(path, file, r) && file is Missing ==> r is Err
            && r->Err_0.missing,
        ServerConfig::wanted(path, file, r) || ServerConfig::required(path, file, r) ==> (file
            is Unreadable ==> r is Err && !r->Err_0.missing && r->Err_0.message@ == "reading "@
            + path + ": "@ + file->Unreadable_why@),
        ServerConfig::wanted(path, file, r) || ServerConfig::required(path, file, r) ==> (file
            is Invalid ==> r is Err && !r->Err_0.missing && r->Err_0.message@ == "parsing "@ + path
            + ": "@ + file->Invalid_why@),
{
    law_default_address();
}

/// Authorizations are taken in the order of their files' names: of two whose
/// names differ first in some byte, the one with the smaller byte comes first.
pub proof fn law_order_of_files(files: Seq<Candidate>, i: int, j: int, k: int)
    requires
        in_name_order(files),
        0 <= i < files.len(),
        0 <= j < files.len(),
        0 <= k < files[i].file_name@.len(),
        k < files[j].file_name@.len(),
        files[i].file_name@.take(k) == files[j].file_name@.take(k),
        files[i].file_name@[k] < files[j].file_name@[k],
    ensures
        i < j,
{
    if j <= i {
        let a = values(files[j].file_name@);
        let b = values(files[i].file_name@);
        if i == j {
            assert(files[i].file_name@[k] < files[i].file_name@[k]);
        }
        assert(lex_le(a, b));
        assert forall|m: int| 0 <= m < k implies #[trigger] a[m] == b[m] by {
            assert(files[i].file_name@.take(k)[m] == files[i].file_name@[m]);
            assert(files[j].file_name@.take(k)[m] == files[j].file_name@[m]);
            assert(a[m] == files[j].file_name@[m] && b[m] == files[i].file_name@[m]);
        }
        lemma_first_difference(a, b, k);
    }
}

proof fn lemma_first_difference(a: Seq<int>, b: Seq<int>, k: int)
    requires
        0 <= k < a.len(),
        k < b.len(),
        forall|m: int| 0 <= m < k ==> #[trigger] a[m] == b[m],
        a[k] > b[k],
    ensures
        !lex_le(a, b),
    decreases k,
{
    if k > 0 {
        assert(a[0] == b[0]);
        let x = a.skip(1);
        let y = b.skip(1);
        assert forall|m: int| 0 <= m < k - 1 implies #[trigger] x[m] == y[m] by {
            assert(a[m + 1] == b[m + 1]);
        }
        lemma_first_difference(x, y, k - 1);
    }
}

} // verus!
