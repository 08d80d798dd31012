//! The server's decisions: whom to serve, what a request may do, and what is
//! said about it.

use vstd::prelude::*;
use vstd::utf8::encode_utf8;

use crate::admission::{Admission, Authenticated, MAX_CONNECTIONS_PER_KEY};
use crate::config::{opt, AuthEntry, AuthEntryView, AuthStore};
use crate::crypto::Fingerprint;
use crate::proto::{ExitStatus, Frame, FrameView, Request, RequestView, PROTOCOL_VERSION};
use crate::text::{
    chars_of, control, decimal, decimal_text, is_control, join_texts, joined_by, list_has, listed,
    same, texts,
};

verus! {

/// A program path longer than this cannot be executed on the supported Unix
/// hosts. This also bounds what a live session retains for policy rechecks.
pub const MAX_PROGRAM_LEN: usize = 4096;

/// The status of a session that was refused: a shell's "cannot execute".
pub const REFUSED: i32 = 126;

/// How long an accepted connection may take to finish its handshake, in seconds.
pub const HANDSHAKE_GRACE_SECS: u64 = 5;

/// How long an opened session stream may take to say what it wants, in seconds.
pub const FIRST_FRAME_GRACE_SECS: u64 = 10;

/// How often the authorized keys are read again, and what is running held
/// against them, in seconds.
pub const RELOAD_INTERVAL_SECS: u64 = 1;

// ---------------------------------------------------------------------------
// What a request may do
// ---------------------------------------------------------------------------

/// Why the key of `entry` may not do what `req` asks for at the second `now`;
/// `None` if it may.
pub open spec fn refusal(entry: AuthEntryView, req: RequestView, now: i64) -> Option<Seq<char>> {
    let name = entry.name;
    let meta = entry.meta;
    if meta.expired(now) {
        Some(
            "the authorization for key `"@ + name
                + "` has expired; ask an administrator to renew it"@,
        )
    } else if req.version != PROTOCOL_VERSION {
        Some(
            "protocol version mismatch: client speaks "@ + decimal(req.version as nat)
                + ", server speaks "@ + decimal(PROTOCOL_VERSION as nat),
        )
    } else if req.user is Some && req.user->0 != meta.user {
        Some(
            "key `"@ + name + "` is authorized for `"@ + meta.user + "`, not `"@ + req.user->0
                + "`"@,
        )
    } else {
        match req.command {
            None => if meta.allow_shell {
                None
            } else {
                Some("key `"@ + name + "` may not open an interactive shell"@)
            },
            Some(argv) => if argv.len() == 0 {
                Some("empty command"@)
            } else if encode_utf8(argv[0]).len() > MAX_PROGRAM_LEN {
                Some("program name is too long"@)
            } else if !meta.allow_exec {
                Some("key `"@ + name + "` may not execute commands"@)
            } else if !meta.permits(argv[0]) {
                Some(
                    "key `"@ + name + "` may not execute `"@ + argv[0] + "`; permitted: "@
                        + joined_by(meta.allowed_commands, ", "@),
                )
            } else {
                None
            },
        }
    }
}

/// Validate a request against what this key is allowed to do.
pub fn authorize_request(entry: &AuthEntry, req: &Request, now_unix: i64) -> (r: Result<(), String>)
    ensures
        match r {
            Ok(()) => refusal(entry@, req@, now_unix) is None,
            Err(why) => refusal(entry@, req@, now_unix) == Some(why@),
        },
{
    if entry.meta.is_expired(now_unix) {
        let mut out = "the authorization for key `".to_owned();
        out.append(entry.name.as_str());
        out.append("` has expired; ask an administrator to renew it");
        return Err(out);
    }
    if req.version != PROTOCOL_VERSION {
        let mut out = "protocol version mismatch: client speaks ".to_owned();
        out.append(decimal_text(req.version as u64).as_str());
        out.append(", server speaks ");
        out.append(decimal_text(PROTOCOL_VERSION as u64).as_str());
        return Err(out);
    }
    if let Some(requested) = &req.user {
        if !same(requested.as_str(), entry.meta.user.as_str()) {
            let mut out = "key `".to_owned();
            out.append(entry.name.as_str());
            out.append("` is authorized for `");
            out.append(entry.meta.user.as_str());
            out.append("`, not `");
            out.append(requested.as_str());
            out.append("`");
            return Err(out);
        }
    }
    match &req.command {
        None => {
            if !entry.meta.allow_shell {
                let mut out = "key `".to_owned();
                out.append(entry.name.as_str());
                out.append("` may not open an interactive shell");
                return Err(out);
            }
        },
        Some(argv) => {
            if argv.len() == 0 {
                return Err("empty command".to_owned());
            }
            assert(texts(argv@)[0] == argv@[0]@);
            if argv[0].as_str().as_bytes().len() > MAX_PROGRAM_LEN {
                return Err("program name is too long".to_owned());
            }
            if !entry.meta.allow_exec {
                let mut out = "key `".to_owned();
                out.append(entry.name.as_str());
                out.append("` may not execute commands");
                return Err(out);
            }
            if !entry.meta.program_allowed(argv[0].as_str()) {
                let mut out = "key `".to_owned();
                out.append(entry.name.as_str());
                out.append("` may not execute `");
                out.append(argv[0].as_str());
                out.append("`; permitted: ");
                out.append(join_texts(&entry.meta.allowed_commands, ", ").as_str());
                return Err(out);
            }
        },
    }
    Ok(())
}

/// The command identity that a live session keeps, to detect a later policy
/// change: not its potentially large argv, environment and terminal metadata.
#[derive(Debug)]
pub enum RequestGrant {
    Shell,
    Exec(String),
}

/// What a [`RequestGrant`] holds: the program, or none for a shell.
impl View for RequestGrant {
    type V = Option<Seq<char>>;

    open spec fn view(&self) -> Option<Seq<char>> {
        match *self {
            RequestGrant::Shell => None,
            RequestGrant::Exec(program) => Some(program@),
        }
    }
}

/// What a request is granted; nothing of a request with an empty command.
pub open spec fn granted(req: RequestView) -> Option<Option<Seq<char>>> {
    match req.command {
        None => Some(None),
        Some(argv) => if argv.len() > 0 {
            Some(Some(argv[0]))
        } else {
            None
        },
    }
}

impl RequestGrant {
    /// What a request is granted.
    pub fn from_request(request: &Request) -> (r: Result<RequestGrant, String>)
        ensures
            match r {
                Ok(grant) => granted(request@) == Some(grant@),
                Err(why) => granted(request@) is None && why@ == "empty command"@,
            },
    {
        match &request.command {
            None => Ok(RequestGrant::Shell),
            Some(argv) => {
                if argv.len() == 0 {
                    return Err("empty command".to_owned());
                }
                assert(texts(argv@)[0] == argv@[0]@);
                Ok(RequestGrant::Exec(argv[0].clone()))
            },
        }
    }
}

/// What a running session was authorized for.
#[derive(Debug)]
pub struct LiveAuthorization {
    pub fingerprint: Fingerprint,
    pub grant: RequestGrant,
    pub authorized_user: String,
}

/// Would the session still be granted by `entry` at the second `now`?
pub open spec fn still_granted(
    entry: AuthEntryView,
    user: Seq<char>,
    grant: Option<Seq<char>>,
    now: i64,
) -> bool {
    &&& entry.meta.user == user
    &&& !entry.meta.expired(now)
    &&& match grant {
        None => entry.meta.allow_shell,
        Some(program) => entry.meta.allow_exec && entry.meta.permits(program),
    }
}

/// Is a session of this key still authorized at the second `now`?
pub open spec fn session_in_force(
    store: Map<Seq<u8>, AuthEntryView>,
    key: Seq<u8>,
    user: Seq<char>,
    grant: Option<Seq<char>>,
    now: i64,
) -> bool {
    store.dom().contains(key) && still_granted(store[key], user, grant, now)
}

/// Is what a session was authorized for still authorized? Its key must still be
/// listed, for the same account, unexpired, and for the same kind of request.
pub fn request_still_authorized(store: &AuthStore, auth: &LiveAuthorization, now_unix: i64) -> (r:
    bool)
    requires
        store.wf(),
    ensures
        r == session_in_force(
            store@,
            auth.fingerprint.0@,
            auth.authorized_user@,
            auth.grant@,
            now_unix,
        ),
{
    match store.lookup(&auth.fingerprint) {
        None => false,
        Some(entry) => {
            if !same(entry.meta.user.as_str(), auth.authorized_user.as_str())
                || entry.meta.is_expired(now_unix) {
                return false;
            }
            match &auth.grant {
                RequestGrant::Shell => entry.meta.allow_shell,
                RequestGrant::Exec(program) => entry.meta.allow_exec && entry.meta.program_allowed(
                    program.as_str(),
                ),
            }
        },
    }
}

/// The recheck of a running session agrees with the check that let it start: a
/// request that the entry does not refuse is still granted by it, and one whose
/// grant no longer holds would be refused if it were made again.
pub proof fn law_recheck_agrees_with_admission(entry: AuthEntryView, req: RequestView, now: i64)
    requires
        granted(req) is Some,
    ensures
        refusal(entry, req, now) is None ==> still_granted(
            entry,
            entry.meta.user,
            granted(req)->0,
            now,
        ),
        !still_granted(entry, entry.meta.user, granted(req)->0, now) ==> refusal(entry, req, now)
            is Some,
{
}

/// An expired authorization refuses every request, shell or command.
pub proof fn law_expired_refuses_everything(entry: AuthEntryView, req: RequestView, now: i64)
    requires
        entry.meta.expired(now),
    ensures
        refusal(entry, req, now) is Some,
        forall|grant: Option<Seq<char>>|
            !#[trigger] still_granted(entry, entry.meta.user, grant, now),
{
}

/// A request that is let through runs as the account of the key and nothing
/// else: it named that account or none, and a command is exactly one that the
/// key may execute.
pub proof fn law_accepted_requests(entry: AuthEntryView, req: RequestView, now: i64)
    requires
        refusal(entry, req, now) is None,
    ensures
        req.version == PROTOCOL_VERSION,
        req.user is Some ==> req.user->0 == entry.meta.user,
        req.command is None ==> entry.meta.allow_shell,
        req.command is Some ==> {
            &&& entry.meta.allow_exec
            &&& req.command->0.len() > 0
            &&& entry.meta.permits_argv(req.command->0)
        },
        granted(req) is Some,
{
}

/// A request that asks for nothing beyond what its key may do is not refused.
/// The authorization has no deadline or has not passed it, the versions agree,
/// the request names no account or the very one the key is for, and it is a
/// shell where those are allowed, or a command where those are: any at all where
/// no list restricts them, otherwise one whose program is listed as it stands.
pub proof fn law_permitted_requests_are_not_refused(
    entry: AuthEntryView,
    req: RequestView,
    now: i64,
)
    requires
        entry.meta.expires_at_unix is None || now <= entry.meta.expires_at_unix->0,
        req.version == 1,
        req.user is None || req.user->0 == entry.meta.user,
        match req.command {
            None => entry.meta.allow_shell,
            Some(argv) => {
                &&& entry.meta.allow_exec
                &&& argv.len() > 0
                &&& encode_utf8(argv[0]).len() <= 4096
                &&& entry.meta.allowed_commands.len() == 0
                    || entry.meta.allowed_commands.contains(argv[0])
            },
        },
    ensures
        refusal(entry, req, now) is None,
{
}

/// Whatever goes beyond what a key may do is refused, each for itself: a request
/// after the deadline, one of another version, one for another account, a shell
/// or a command where those are not allowed, a command without a program or with
/// one that is too long, and one whose program is not on the list.
pub proof fn law_everything_else_is_refused(entry: AuthEntryView, req: RequestView, now: i64)
    requires
        ({
            let meta = entry.meta;
            ||| meta.expires_at_unix is Some && now > meta.expires_at_unix->0
            ||| req.version != 1
            ||| req.user is Some && req.user->0 != meta.user
            ||| req.command is None && !meta.allow_shell
            ||| req.command is Some && !meta.allow_exec
            ||| req.command is Some && req.command->0.len() == 0
            ||| req.command is Some && encode_utf8(req.command->0[0]).len() > 4096
            ||| req.command is Some && meta.allowed_commands.len() > 0
                && !meta.allowed_commands.contains(req.command->0[0])
        }),
    ensures
        refusal(entry, req, now) is Some,
{
}

/// Whether a request is refused depends on nothing else: neither the name of the
/// entry, nor the arguments behind the program, nor the terminal, nor the
/// environment that is asked for.
pub proof fn law_refusals_depend_on_the_policy_alone(
    a: AuthEntryView,
    b: AuthEntryView,
    req: RequestView,
    other: RequestView,
    now: i64,
)
    requires
        a.meta == b.meta,
        req.version == other.version,
        req.user == other.user,
        req.command is Some == other.command is Some,
        req.command is Some ==> req.command->0.len() > 0 && other.command->0.len() > 0
            && req.command->0[0] == other.command->0[0],
    ensures
        refusal(a, req, now) is None <==> refusal(b, other, now) is None,
{
}

/// A running session keeps its authorization exactly as long as its key is
/// listed for the same account, the deadline has not passed, and the policy
/// still allows a shell, or the program that it runs.
pub proof fn law_running_sessions_stay_authorized(
    store: Map<Seq<u8>, AuthEntryView>,
    key: Seq<u8>,
    user: Seq<char>,
    grant: Option<Seq<char>>,
    now: i64,
)
    ensures
        session_in_force(store, key, user, grant, now) <==> {
            let meta = store[key].meta;
            &&& store.dom().contains(key)
            &&& meta.user == user
            &&& meta.expires_at_unix is None || now <= meta.expires_at_unix->0
            &&& grant is None ==> meta.allow_shell
            &&& grant is Some ==> meta.allow_exec
            &&& grant is Some && meta.allowed_commands.len() > 0
                ==> meta.allowed_commands.contains(grant->0)
        },
{
}

/// A session is granted what it asked for: a shell if it named no command,
/// otherwise the program that it named first, whatever follows it.
pub proof fn law_grants_are_what_was_asked(req: RequestView)
    ensures
        req.command is None ==> granted(req) == Some(None::<Seq<char>>),
        req.command is Some && req.command->0.len() > 0 ==> granted(req) == Some(
            Some(req.command->0[0]),
        ),
        req.command is Some && req.command->0.len() == 0 ==> granted(req) is None,
{
}

// ---------------------------------------------------------------------------
// Diagnostics
// ---------------------------------------------------------------------------

/// The longest diagnostic, in characters.
pub const MAX_DIAGNOSTIC: usize = 512;

/// `s` with a blank in the place of every control character.
pub open spec fn one_line(s: Seq<char>) -> Seq<char> {
    s.map_values(
        |c: char|
            if is_control(c) {
                ' '
            } else {
                c
            },
    )
}

/// The diagnostic that is made of `message`.
pub open spec fn bounded(message: Seq<char>) -> Seq<char> {
    if message.len() <= MAX_DIAGNOSTIC {
        one_line(message)
    } else {
        one_line(message.take(MAX_DIAGNOSTIC as int)).push('\u{2026}')
    }
}

/// Diagnostics can contain client-supplied request fields. Keep each message
/// short and single-line for both the server log and the in-band refusal.
pub fn bounded_diagnostic(message: &str) -> (out: String)
    ensures
        out@ == bounded(message@),
{
    let m = chars_of(message);
    let mut out = String::new();
    let mut i: usize = 0;
    assert(out@ =~= one_line(message@.take(0)));
    while i < m.len()
        invariant
            i <= m@.len(),
            i <= MAX_DIAGNOSTIC,
            m@ == message@,
            out@ == one_line(message@.take(i as int)),
        decreases m@.len() - i,
    {
        if i == MAX_DIAGNOSTIC {
            out.push('\u{2026}');
            return out;
        }
        let c: char = m[i];
        out.push(
            if control(c) {
                ' '
            } else {
                c
            },
        );
        i += 1;
        assert(out@ =~= one_line(message@.take(i as int)));
    }
    assert(message@.take(i as int) =~= message@);
    out
}

/// Whatever a message holds, what is logged or sent of it is at most 513
/// characters long and holds no control character.
pub proof fn law_diagnostics_are_bounded(message: Seq<char>)
    ensures
        bounded(message).len() <= MAX_DIAGNOSTIC + 1,
        forall|i: int| 0 <= i < bounded(message).len() ==> !is_control(#[trigger] bounded(message)[i]),
{
}

/// A message is told as it is: character for character up to the 512th, with
/// nothing but a blank where a control character stood. One that is longer ends
/// in an ellipsis behind those.
pub proof fn law_diagnostics_are_told_as_they_are(message: Seq<char>, i: int)
    requires
        0 <= i < message.len(),
        i < 512,
    ensures
        i < bounded(message).len(),
        !is_control(message[i]) ==> bounded(message)[i] == message[i],
        is_control(message[i]) ==> bounded(message)[i] == ' ',
        message.len() <= 512 ==> bounded(message).len() == message.len(),
        message.len() > 512 ==> bounded(message).len() == 513 && bounded(message).last()
            == '\u{2026}',
{
}

/// What is said when the authorization store is empty at the start.
pub fn no_clients_warning(dir: &str) -> (out: String)
    ensures
        out@ == "qsh-server: warning: no authorized clients in "@ + dir@
            + " \u{2014} every connection will be refused"@,
{
    let mut out = "qsh-server: warning: no authorized clients in ".to_owned();
    out.append(dir);
    out.append(" \u{2014} every connection will be refused");
    out
}

/// What is said once the server listens.
pub fn listening(addr: &str, clients: usize) -> (out: String)
    ensures
        out@ == "qsh-server: listening on "@ + addr@ + " ("@ + decimal(clients as nat)
            + " authorized client(s))"@,
{
    let mut out = "qsh-server: listening on ".to_owned();
    out.append(addr);
    out.append(" (");
    out.append(decimal_text(clients as u64).as_str());
    out.append(" authorized client(s))");
    out
}

// ---------------------------------------------------------------------------
// Reloading the authorizations
// ---------------------------------------------------------------------------

/// What has been said about the authorizations so far, so that nothing is said
/// over and over.
#[derive(Debug)]
pub struct ReloadDiagnostics {
    pub warnings: Vec<String>,
    pub failure: Option<String>,
}

/// What is said when the authorizations cannot be read.
pub open spec fn reload_failure(why: Seq<char>) -> Seq<char> {
    "qsh-server: cannot reload authorizations; keeping previous authorizations: "@ + why
}

/// The texts of `list` that are not among `known`.
pub open spec fn unknown(list: Seq<Seq<char>>, known: Seq<Seq<char>>) -> Seq<Seq<char>>
    decreases list.len(),
{
    if list.len() == 0 {
        Seq::empty()
    } else {
        let before = unknown(list.drop_last(), known);
        if known.contains(list.last()) {
            before
        } else {
            before.push(list.last())
        }
    }
}

/// What is left out is what is known, and nothing else.
proof fn lemma_unknown(list: Seq<Seq<char>>, known: Seq<Seq<char>>)
    ensures
        forall|w: Seq<char>| #[trigger]
            unknown(list, known).contains(w) <==> list.contains(w) && !known.contains(w),
    decreases list.len(),
{
    let out = unknown(list, known);
    if list.len() == 0 {
        assert(out.len() == 0);
        assert forall|w: Seq<char>| !#[trigger] out.contains(w) by {}
    } else {
        let past = list.drop_last();
        lemma_unknown(past, known);
        let before = unknown(past, known);
        assert(list =~= past.push(list.last()));
        assert forall|w: Seq<char>| #[trigger]
            out.contains(w) <==> list.contains(w) && !known.contains(w) by {
            assert(before.contains(w) <==> past.contains(w) && !known.contains(w));
            if out.contains(w) {
                let i = choose|i: int| 0 <= i < out.len() && out[i] == w;
                if i < before.len() {
                    assert(before[i] == w);
                    let k = choose|k: int| 0 <= k < past.len() && past[k] == w;
                    assert(list[k] == w);
                } else {
                    assert(list[list.len() - 1] == w);
                }
            }
            if list.contains(w) && !known.contains(w) {
                let k = choose|k: int| 0 <= k < list.len() && list[k] == w;
                if k < past.len() {
                    assert(past[k] == w);
                    let i = choose|i: int| 0 <= i < before.len() && before[i] == w;
                    assert(out[i] == w);
                } else {
                    assert(out[before.len() as int] == w);
                }
            }
        }
    }
}

/// After the authorizations were read again, every warning is told that was not
/// there before, and none that was; that it works again is told exactly if it
/// did not work before.
pub proof fn law_only_news_is_told(
    d: ReloadDiagnostics,
    warnings: Seq<Seq<char>>,
    w: Seq<char>,
)
    requires
        w != "qsh-server: authorization reload recovered"@,
    ensures
        d.news(warnings).contains(w) <==> warnings.contains(w) && !texts(d.warnings@).contains(w),
        d.failure is Some ==> d.news(warnings).contains(
            "qsh-server: authorization reload recovered"@,
        ),
        d.failure is None ==> d.news(warnings).len() <= warnings.len(),
{
    lemma_unknown(warnings, texts(d.warnings@));
    let fresh = unknown(warnings, texts(d.warnings@));
    let said = d.news(warnings);
    if said.contains(w) {
        let i = choose|i: int| 0 <= i < said.len() && said[i] == w;
        assert(i < fresh.len());
        assert(fresh[i] == w);
    }
    if fresh.contains(w) {
        let i = choose|i: int| 0 <= i < fresh.len() && fresh[i] == w;
        assert(said[i] == w);
    }
    if d.failure is Some {
        assert(said[fresh.len() as int] == "qsh-server: authorization reload recovered"@);
    }
    lemma_unknown_len(warnings, texts(d.warnings@));
}

proof fn lemma_unknown_len(list: Seq<Seq<char>>, known: Seq<Seq<char>>)
    ensures
        unknown(list, known).len() <= list.len(),
    decreases list.len(),
{
    if list.len() > 0 {
        lemma_unknown_len(list.drop_last(), known);
    }
}

impl ReloadDiagnostics {
    /// What is said after a successful reload with these warnings: those that
    /// are new, and that it works again if it did not.
    pub open spec fn news(&self, warnings: Seq<Seq<char>>) -> Seq<Seq<char>> {
        unknown(warnings, texts(self.warnings@)) + (if self.failure is Some {
            seq!["qsh-server: authorization reload recovered"@]
        } else {
            Seq::empty()
        })
    }

    /// Takes the freshly read authorizations over; returns what there is to say.
    /// Where they could not be read, the previous ones stay in force.
    pub fn reload(
        &mut self,
        store: &mut AuthStore,
        fresh: Result<(AuthStore, Vec<String>), String>,
    ) -> (said: Vec<String>)
        ensures
            match fresh {
                Ok((new_store, warnings)) => {
                    &&& *final(store) == new_store
                    &&& texts(said@) == old(self).news(texts(warnings@))
                    &&& texts(final(self).warnings@) == texts(warnings@)
                    &&& final(self).failure is None
                },
                Err(why) => {
                    &&& *final(store) == *old(store)
                    &&& texts(final(self).warnings@) == texts(old(self).warnings@)
                    &&& opt(final(self).failure) == Some(reload_failure(why@))
                    &&& texts(said@) == (if opt(old(self).failure) == Some(reload_failure(why@)) {
                        Seq::empty()
                    } else {
                        seq![reload_failure(why@)]
                    })
                },
            },
    {
        let mut said: Vec<String> = Vec::new();
        match fresh {
            Ok((new_store, warnings)) => {
                *store = new_store;
                let ghost all = texts(warnings@);
                let ghost known = texts(self.warnings@);
                let mut i: usize = 0;
                assert(all.take(0) =~= Seq::empty());
                assert(texts(said@) =~= Seq::empty());
                while i < warnings.len()
                    invariant
                        i <= warnings@.len(),
                        all == texts(warnings@),
                        known == texts(self.warnings@),
                        *self == *old(self),
                        texts(said@) == unknown(all.take(i as int), known),
                    decreases warnings@.len() - i,
                {
                    assert(all.take(i + 1).drop_last() =~= all.take(i as int));
                    assert(all.take(i + 1).last() == warnings@[i as int]@);
                    let old_news: bool = list_has(&self.warnings, warnings[i].as_str());
                    proof {
                        lemma_listed_is_contained(self.warnings@, warnings@[i as int]@);
                    }
                    if !old_news {
                        let ghost before = said@;
                        said.push(warnings[i].clone());
                        assert(texts(said@) =~= texts(before).push(warnings@[i as int]@));
                    }
                    i += 1;
                }
                assert(all.take(i as int) =~= all);
                self.warnings = warnings;
                let recovered: bool = self.failure.is_some();
                self.failure = None;
                if recovered {
                    let ghost before = said@;
                    said.push("qsh-server: authorization reload recovered".to_owned());
                    assert(texts(said@) =~= texts(before).push(
                        "qsh-server: authorization reload recovered"@,
                    ));
                }
                assert(texts(said@) =~= old(self).news(all));
                said
            },
            Err(why) => {
                let mut failure =
                    "qsh-server: cannot reload authorizations; keeping previous authorizations: ".to_owned();
                failure.append(why.as_str());
                let repeated: bool = match &self.failure {
                    Some(before) => same(before.as_str(), failure.as_str()),
                    None => false,
                };
                if !repeated {
                    said.push(failure.clone());
                    self.failure = Some(failure);
                    assert(texts(said@) =~= seq![reload_failure(why@)]);
                } else {
                    assert(texts(said@) =~= Seq::empty());
                }
                said
            },
        }
    }
}

/// To be listed is to be one of the texts.
proof fn lemma_listed_is_contained(list: Seq<String>, needle: Seq<char>)
    ensures
        listed(list, needle) == texts(list).contains(needle),
{
    if listed(list, needle) {
        let i = choose|i: int| 0 <= i < list.len() && #[trigger] list[i]@ == needle;
        assert(texts(list)[i] == needle);
    }
    if texts(list).contains(needle) {
        let i = choose|i: int| 0 <= i < texts(list).len() && texts(list)[i] == needle;
        assert(list[i]@ == needle);
    }
}

// ---------------------------------------------------------------------------
// Connections
// ---------------------------------------------------------------------------

/// Why a connection is closed.
#[derive(Debug, Clone, Copy, PartialEq, Eq, Structural)]
pub enum CloseReason {
    Expired,
    KeyLimit,
    WithdrawnOrExpired,
    Withdrawn,
}

impl CloseReason {
    /// What the peer is told.
    pub open spec fn text(&self) -> Seq<char> {
        match *self {
            CloseReason::Expired => "authorization expired"@,
            CloseReason::KeyLimit => "key connection limit reached"@,
            CloseReason::WithdrawnOrExpired => "authorization withdrawn or expired"@,
            CloseReason::Withdrawn => "authorization withdrawn"@,
        }
    }

    /// What the peer is told.
    pub fn message(&self) -> (out: String)
        ensures
            out@ == self.text(),
    {
        match self {
            CloseReason::Expired => "authorization expired".to_owned(),
            CloseReason::KeyLimit => "key connection limit reached".to_owned(),
            CloseReason::WithdrawnOrExpired => "authorization withdrawn or expired".to_owned(),
            CloseReason::Withdrawn => "authorization withdrawn".to_owned(),
        }
    }
}

/// What becomes of a connection after its handshake.
#[derive(Debug)]
pub enum Greeting {
    /// Nobody we know: end quietly, anyone can provoke that.
    Stranger,
    /// Close it, giving the reason.
    Close(CloseReason),
    /// Serve it: a slot for its key is held from now on.
    Serve { user: String, name: String },
}

/// What a [`Greeting`] holds.
pub enum GreetingView {
    Stranger,
    Close(CloseReason),
    Serve(Seq<char>, Seq<char>),
}

impl View for Greeting {
    type V = GreetingView;

    open spec fn view(&self) -> GreetingView {
        match *self {
            Greeting::Stranger => GreetingView::Stranger,
            Greeting::Close(reason) => GreetingView::Close(reason),
            Greeting::Serve { user, name } => GreetingView::Serve(user@, name@),
        }
    }
}

/// What becomes of a connection whose handshake proved the key `key`, if it
/// proved any, while `held` connections of that key are open.
pub open spec fn greeting(
    store: Map<Seq<u8>, AuthEntryView>,
    held: nat,
    key: Option<Seq<u8>>,
    now: i64,
) -> GreetingView {
    match key {
        None => GreetingView::Stranger,
        Some(k) => if !store.dom().contains(k) {
            GreetingView::Stranger
        } else if store[k].meta.expired(now) {
            GreetingView::Close(CloseReason::Expired)
        } else if held >= MAX_CONNECTIONS_PER_KEY {
            GreetingView::Close(CloseReason::KeyLimit)
        } else {
            GreetingView::Serve(store[k].meta.user, store[k].name)
        },
    }
}

/// Is the key listed and unexpired at the second `now`?
pub open spec fn in_force(store: Map<Seq<u8>, AuthEntryView>, key: Seq<u8>, now: i64) -> bool {
    store.dom().contains(key) && !store[key].meta.expired(now)
}

/// What becomes of a connection whose handshake proved the key `key`, if it
/// proved any.
pub fn greet(
    store: &AuthStore,
    admission: &mut Admission,
    key: &Option<Fingerprint>,
    now_unix: i64,
) -> (g: Greeting)
    requires
        store.wf(),
        old(admission).wf(),
    ensures
        final(admission).wf(),
        final(admission).connections == old(admission).connections,
        final(admission).per_source == old(admission).per_source,
        final(admission).counters == old(admission).counters,
        g@ == greeting(
            store@,
            match key {
                Some(fp) => old(admission).per_key.count(fp.0@),
                None => 0,
            },
            match key {
                Some(fp) => Some(fp.0@),
                None => None,
            },
            now_unix,
        ),
        match key {
            None => g is Stranger,
            Some(fp) => if !store@.dom().contains(fp.0@) {
                g is Stranger
            } else if store@[fp.0@].meta.expired(now_unix) {
                g == Greeting::Close(CloseReason::Expired)
            } else if old(admission).per_key.count(fp.0@) >= MAX_CONNECTIONS_PER_KEY {
                g == Greeting::Close(CloseReason::KeyLimit)
            } else {
                &&& g matches Greeting::Serve { user, name }
                &&& user@ == store@[fp.0@].meta.user
                &&& name@ == store@[fp.0@].name
            },
        },
        forall|k: Seq<u8>|
            #[trigger] final(admission).per_key.count(k) == old(admission).per_key.count(k) + (if g
                is Serve && k == (key->0).0@ {
                1nat
            } else {
                0nat
            }),
{
    match key {
        None => Greeting::Stranger,
        Some(fp) => match store.lookup(fp) {
            None => Greeting::Stranger,
            Some(entry) => {
                if entry.meta.is_expired(now_unix) {
                    return Greeting::Close(CloseReason::Expired);
                }
                if !admission.take_key(fp) {
                    return Greeting::Close(CloseReason::KeyLimit);
                }
                Greeting::Serve { user: entry.meta.user.clone(), name: entry.name.clone() }
            },
        },
    }
}

/// How a connection that was greeted this way counts.
pub open spec fn counted(g: GreetingView) -> Authenticated {
    match g {
        GreetingView::Serve(_, _) => Authenticated::Yes,
        GreetingView::Close(CloseReason::KeyLimit) => Authenticated::OverLimit,
        _ => Authenticated::No,
    }
}

/// How a connection that was greeted this way counts: only one that is served
/// has authenticated.
pub fn greeted(g: &Greeting) -> (a: Authenticated)
    ensures
        a == counted(g@),
{
    match g {
        Greeting::Serve { .. } => Authenticated::Yes,
        Greeting::Close(CloseReason::KeyLimit) => Authenticated::OverLimit,
        Greeting::Close(_) => Authenticated::No,
        Greeting::Stranger => Authenticated::No,
    }
}

/// What happens on a connection that is being served.
#[derive(Debug, Clone, Copy, PartialEq, Eq, Structural)]
pub enum ConnectionEvent {
    /// It is time to look at the policy again.
    PolicyTick,
    /// The client opened a session stream.
    Stream,
    /// The connection was closed, by either side.
    Closed,
    /// Accepting a stream failed otherwise.
    Failed,
}

/// What to do about it.
#[derive(Debug, Clone, Copy, PartialEq, Eq, Structural)]
pub enum ConnectionStep {
    /// Wait for what happens next.
    Wait,
    /// Run a session on the stream.
    Session,
    /// Close the connection, giving the reason.
    Close(CloseReason),
    /// The connection is over.
    End,
    /// The connection is over; report the error.
    Fail,
}

/// What to do about an event on a connection of this key.
pub open spec fn connection_step(
    store: Map<Seq<u8>, AuthEntryView>,
    key: Seq<u8>,
    event: ConnectionEvent,
    now: i64,
) -> ConnectionStep {
    match event {
        ConnectionEvent::PolicyTick => if in_force(store, key, now) {
            ConnectionStep::Wait
        } else {
            ConnectionStep::Close(CloseReason::WithdrawnOrExpired)
        },
        ConnectionEvent::Stream => if in_force(store, key, now) {
            ConnectionStep::Session
        } else {
            ConnectionStep::Close(CloseReason::Withdrawn)
        },
        ConnectionEvent::Closed => ConnectionStep::End,
        ConnectionEvent::Failed => ConnectionStep::Fail,
    }
}

/// What to do about an event on a connection of this key. Revocation has to
/// reach connections that are already open, whether or not they bring new
/// sessions with them.
pub fn handle_connection(
    store: &AuthStore,
    key: &Fingerprint,
    event: ConnectionEvent,
    now_unix: i64,
) -> (step: ConnectionStep)
    requires
        store.wf(),
    ensures
        step == connection_step(store@, key.0@, event, now_unix),
{
    let in_force: bool = match store.lookup(key) {
        Some(entry) => !entry.meta.is_expired(now_unix),
        None => false,
    };
    match event {
        ConnectionEvent::PolicyTick => if in_force {
            ConnectionStep::Wait
        } else {
            ConnectionStep::Close(CloseReason::WithdrawnOrExpired)
        },
        ConnectionEvent::Stream => if in_force {
            ConnectionStep::Session
        } else {
            ConnectionStep::Close(CloseReason::Withdrawn)
        },
        ConnectionEvent::Closed => ConnectionStep::End,
        ConnectionEvent::Failed => ConnectionStep::Fail,
    }
}

// ---------------------------------------------------------------------------
// Opening a session
// ---------------------------------------------------------------------------

/// What came first on a session stream.
#[derive(Debug)]
pub enum FirstFrame {
    /// Nothing in time: a stream that never says what it wants must not hold
    /// resources open.
    TimedOut,
    /// It could not be read.
    Failed(String),
    /// The stream ended.
    Ended,
    Frame(Frame),
}

/// The request that opens a session; none if the stream ended before one.
pub fn opening_request(first: FirstFrame) -> (r: Result<Option<Request>, String>)
    ensures
        match first {
            FirstFrame::TimedOut => r is Err && r->Err_0@
                == "client opened a session but sent no request"@,
            FirstFrame::Failed(why) => r == Err::<Option<Request>, String>(why),
            FirstFrame::Ended => r == Ok::<Option<Request>, String>(None),
            FirstFrame::Frame(Frame::Request(req)) => r == Ok::<Option<Request>, String>(Some(req)),
            FirstFrame::Frame(_) => r is Err && r->Err_0@ == "expected a request frame first"@,
        },
{
    match first {
        FirstFrame::TimedOut => Err("client opened a session but sent no request".to_owned()),
        FirstFrame::Failed(why) => Err(why),
        FirstFrame::Ended => Ok(None),
        FirstFrame::Frame(frame) => match frame {
            Frame::Request(req) => Ok(Some(req)),
            _ => Err("expected a request frame first".to_owned()),
        },
    }
}

/// Whether the session that `req` asks for may start, and what it is then
/// authorized for. The store is consulted now, so that a pending first frame
/// cannot keep old rights.
pub fn open_session(store: &AuthStore, key: &Fingerprint, req: &Request, now_unix: i64) -> (r: Result<
    LiveAuthorization,
    String,
>)
    requires
        store.wf(),
    ensures
        match r {
            Ok(auth) => {
                &&& store@.dom().contains(key.0@)
                &&& refusal(store@[key.0@], req@, now_unix) is None
                &&& auth.fingerprint == *key
                &&& granted(req@) == Some(auth.grant@)
                &&& auth.authorized_user@ == store@[key.0@].meta.user
            },
            Err(why) => if store@.dom().contains(key.0@) {
                refusal(store@[key.0@], req@, now_unix) == Some(why@)
            } else {
                why@ == "client authorization was withdrawn"@
            },
        },
{
    match store.lookup(key) {
        None => Err("client authorization was withdrawn".to_owned()),
        Some(entry) => {
            match authorize_request(entry, req, now_unix) {
                Ok(()) => {},
                Err(why) => return Err(why),
            }
            match RequestGrant::from_request(req) {
                Err(why) => Err(why),
                Ok(grant) => Ok(
                    LiveAuthorization {
                        fingerprint: *key,
                        grant,
                        authorized_user: entry.meta.user.clone(),
                    },
                ),
            }
        },
    }
}

/// The frames that tell a client why its session was refused.
pub open spec fn refusal_reply(why: Seq<char>) -> (FrameView, FrameView) {
    (
        FrameView::Error(bounded(why)),
        FrameView::Exit(ExitStatus { code: REFUSED, signal: None }),
    )
}

/// The frames that tell a client why its session was refused, so that it can
/// print the reason and end with a shell-like "cannot execute" status.
pub fn refusal_frames(why: &str) -> (frames: (Frame, Frame))
    ensures
        (frames.0@, frames.1@) == refusal_reply(why@),
{
    (
        Frame::Error(bounded_diagnostic(why)),
        Frame::Exit(ExitStatus { code: REFUSED, signal: None }),
    )
}

/// A key that is withdrawn or has expired is cut off everywhere: its open
/// connections are closed, at the latest when the policy is looked at again, no
/// session of it is opened, and none that is running stays authorized.
pub proof fn law_revoked_keys_are_cut_off(
    store: Map<Seq<u8>, AuthEntryView>,
    key: Seq<u8>,
    now: i64,
)
    requires
        !in_force(store, key, now),
    ensures
        connection_step(store, key, ConnectionEvent::PolicyTick, now) is Close,
        connection_step(store, key, ConnectionEvent::Stream, now) is Close,
        forall|req: RequestView|
            store.dom().contains(key) ==> #[trigger] refusal(store[key], req, now) is Some,
        forall|user: Seq<char>, grant: Option<Seq<char>>|
            !#[trigger] session_in_force(store, key, user, grant, now),
{
}

/// A session that may start is still authorized at that moment by the very
/// store that let it start.
pub proof fn law_session_starts_authorized(
    store: Map<Seq<u8>, AuthEntryView>,
    key: Seq<u8>,
    req: RequestView,
    now: i64,
)
    requires
        store.dom().contains(key),
        refusal(store[key], req, now) is None,
    ensures
        granted(req) is Some,
        in_force(store, key, now),
        session_in_force(store, key, store[key].meta.user, granted(req)->0, now),
{
}

/// A key that is listed and whose deadline has not passed is served: its
/// connections are greeted, as long as it holds fewer than its share, for the
/// account and under the name that it is listed with; they stay open, and each
/// stream on them is a session.
pub proof fn law_keys_in_force_are_served(
    store: Map<Seq<u8>, AuthEntryView>,
    held: nat,
    key: Seq<u8>,
    now: i64,
)
    requires
        store.dom().contains(key),
        store[key].meta.expires_at_unix is None || now <= store[key].meta.expires_at_unix->0,
    ensures
        held < MAX_CONNECTIONS_PER_KEY ==> greeting(store, held, Some(key), now)
            == GreetingView::Serve(store[key].meta.user, store[key].name),
        held >= MAX_CONNECTIONS_PER_KEY ==> greeting(store, held, Some(key), now)
            == GreetingView::Close(CloseReason::KeyLimit),
        connection_step(store, key, ConnectionEvent::PolicyTick, now) is Wait,
        connection_step(store, key, ConnectionEvent::Stream, now) is Session,
        connection_step(store, key, ConnectionEvent::Closed, now) is End,
        connection_step(store, key, ConnectionEvent::Failed, now) is Fail,
{
}

/// A connection counts as authenticated exactly if its key is listed, its
/// deadline has not passed, and it holds fewer than its share; a key that holds
/// its share already counts as over the limit, and nobody else does.
pub proof fn law_who_has_authenticated(
    store: Map<Seq<u8>, AuthEntryView>,
    held: nat,
    key: Option<Seq<u8>>,
    now: i64,
)
    ensures
        ({
            let in_force = key is Some && store.dom().contains(key->0) && (
            store[key->0].meta.expires_at_unix is None || now
                <= store[key->0].meta.expires_at_unix->0);
            let a = counted(greeting(store, held, key, now));
            &&& a is Yes <==> in_force && held < 32
            &&& a is OverLimit <==> in_force && held >= 32
        }),
{
}

/// Nobody else is served: not a peer that proved no key, not a key that is not
/// listed, and not one whose deadline has passed; the last is told why.
pub proof fn law_nobody_else_is_served(
    store: Map<Seq<u8>, AuthEntryView>,
    held: nat,
    key: Seq<u8>,
    now: i64,
)
    requires
        !store.dom().contains(key) || (store[key].meta.expires_at_unix is Some && now
            > store[key].meta.expires_at_unix->0),
    ensures
        greeting(store, held, None, now) is Stranger,
        store.dom().contains(key) ==> greeting(store, held, Some(key), now)
            == GreetingView::Close(CloseReason::Expired),
        !store.dom().contains(key) ==> greeting(store, held, Some(key), now) is Stranger,
        connection_step(store, key, ConnectionEvent::PolicyTick, now) is Close,
        connection_step(store, key, ConnectionEvent::Stream, now) is Close,
{
}

} // verus!
