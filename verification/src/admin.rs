//! The server's key management: creating the host identity, authorizing and
//! revoking clients, and listing them.

use vstd::prelude::*;
use vstd::utf8::{decode_utf8, encode_utf8, valid_utf8};

use crate::config::{
    opt, AuthEntry, AuthEntryView, AuthMeta, AuthMetaView, AuthStore, Candidate,
    ConfigError, FileRead, ServerConfig, ServerPaths, DEFAULT_PORT,
};
use crate::crypto::{certificate, hex, lemma_hex_is_unique, pem_sections, sha256, Fingerprint};
use crate::path::{base_name, base_stem, inside, lemma_no_slash, shown, OsPath};
use crate::proto::RequestView;
use crate::server::refusal;
use crate::text::{
    chars_of, copy_texts, decimal, decimal_text, join_texts, joined_by, pad, padded, texts,
};

verus! {

// ---------------------------------------------------------------------------
// Entry names
// ---------------------------------------------------------------------------

/// Why a name cannot be that of an authorization.
#[derive(Debug, Clone)]
pub enum EntryNameError {
    Empty,
    Invalid(String),
}

impl EntryNameError {
    /// What the error says.
    pub open spec fn text(&self) -> Seq<char> {
        match *self {
            EntryNameError::Empty => "entry name must not be empty"@,
            EntryNameError::Invalid(name) => "entry name `"@ + name@
                + "` must be alphanumeric with `-`, `_` or `.`, and may not start with `.`"@,
        }
    }

    /// What the error says.
    pub fn message(&self) -> (out: String)
        ensures
            out@ == self.text(),
    {
        match self {
            EntryNameError::Empty => "entry name must not be empty".to_owned(),
            EntryNameError::Invalid(name) => {
                let mut out = "entry name `".to_owned();
                out.append(name.as_str());
                out.append(
                    "` must be alphanumeric with `-`, `_` or `.`, and may not start with `.`",
                );
                out
            },
        }
    }
}

/// May `c` stand in the name of an authorization?
pub open spec fn name_char(c: char) -> bool {
    ||| 'a' <= c <= 'z'
    ||| 'A' <= c <= 'Z'
    ||| '0' <= c <= '9'
    ||| c == '-'
    ||| c == '_'
    ||| c == '.'
}

/// Can this be the name of an authorization? Such names become file names under
/// a root-owned directory.
pub open spec fn entry_name(name: Seq<char>) -> bool {
    &&& name.len() > 0
    &&& forall|i: int| 0 <= i < name.len() ==> name_char(#[trigger] name[i])
    &&& name[0] != '.'
}

/// Entry names become file names under a root-owned directory, so they must not
/// be able to escape it.
pub fn validate_entry_name(name: &str) -> (r: Result<(), EntryNameError>)
    ensures
        match r {
            Ok(()) => entry_name(name@),
            Err(EntryNameError::Empty) => name@.len() == 0,
            Err(EntryNameError::Invalid(n)) => {
                &&& name@.len() > 0
                &&& !entry_name(name@)
                &&& n@ == name@
            },
        },
{
    let chars = chars_of(name);
    if chars.len() == 0 {
        return Err(EntryNameError::Empty);
    }
    let mut i: usize = 0;
    while i < chars.len()
        invariant
            i <= chars@.len(),
            chars@ == name@,
            name@.len() > 0,
            forall|k: int| 0 <= k < i ==> name_char(#[trigger] name@[k]),
        decreases chars@.len() - i,
    {
        let c: char = chars[i];
        let fine: bool = ('a' <= c && c <= 'z') || ('A' <= c && c <= 'Z') || ('0' <= c && c <= '9')
            || c == '-' || c == '_' || c == '.';
        if !fine {
            assert(!name_char(name@[i as int]));
            return Err(EntryNameError::Invalid(name.to_owned()));
        }
        i += 1;
    }
    if chars[0] == '.' {
        return Err(EntryNameError::Invalid(name.to_owned()));
    }
    Ok(())
}

/// Whatever the name of an authorization, the files behind it lie in the
/// directory of authorizations itself: nothing in their names can lead out of
/// it.
pub proof fn law_entries_stay_in_their_directory(name: Seq<char>, ending: Seq<char>)
    requires
        entry_name(name),
        ending == ".crt"@ || ending == ".toml"@,
    ensures
        ({
            let file = encode_utf8(name + ending);
            !file.contains(47) && base_name(file) == Some(file)
        }),
{
    reveal_strlit(".crt");
    reveal_strlit(".toml");
    let text = name + ending;
    assert forall|i: int| 0 <= i < text.len() implies '\0' <= #[trigger] text[i] <= '\u{7f}' && text[i]
        != '/' by {
        if i < name.len() {
            assert(name_char(name[i]));
        }
    }
    vstd::utf8::is_ascii_chars_encode_utf8(text);
    let file = encode_utf8(text);
    assert forall|i: int| 0 <= i < file.len() implies #[trigger] file[i] != 47 by {
        assert(file[i] == text[i] as u8);
    }
    lemma_no_slash(file);
    assert(file.skip(0) =~= file);
    assert(name_char(text[0]) && text[0] != '.');
    assert(file[0] == text[0] as u8);
    assert(file[0] != 46);
}

/// The name that an authorization is to get, before it is checked: the one that
/// was asked for, or that of the certificate file without its ending, where
/// that is text.
pub open spec fn wanted_name(name: Option<Seq<char>>, cert_file: Seq<u8>) -> Seq<char> {
    match name {
        Some(n) => n,
        None => match base_name(cert_file) {
            Some(file) => if valid_utf8(base_stem(file)) {
                decode_utf8(base_stem(file))
            } else {
                "client"@
            },
            None => "client"@,
        },
    }
}

/// The name that an authorization gets.
pub fn choose_entry_name(name: Option<String>, cert_file: &OsPath) -> (r: Result<
    String,
    EntryNameError,
>)
    ensures
        ({
            let wanted = wanted_name(opt(name), cert_file@);
            match r {
                Ok(n) => entry_name(wanted) && n@ == wanted,
                Err(EntryNameError::Empty) => wanted.len() == 0,
                Err(EntryNameError::Invalid(n)) => {
                    &&& wanted.len() > 0
                    &&& !entry_name(wanted)
                    &&& n@ == wanted
                },
            }
        }),
{
    let chosen: String = match name {
        Some(n) => n,
        None => match cert_file.file_name() {
            Some(file) => match file.file_stem().text() {
                Some(stem) => stem,
                None => "client".to_owned(),
            },
            None => "client".to_owned(),
        },
    };
    match validate_entry_name(chosen.as_str()) {
        Ok(()) => Ok(chosen),
        Err(e) => Err(e),
    }
}

/// The files behind an authorization: its certificate and its policy.
pub open spec fn entry_files(dir: Seq<u8>, name: Seq<char>) -> (Seq<u8>, Seq<u8>) {
    (inside(dir, encode_utf8(name + ".crt"@)), inside(dir, encode_utf8(name + ".toml"@)))
}

/// The files behind an authorization: its certificate and its policy.
pub fn entry_paths(dir: &OsPath, name: &str) -> (r: (OsPath, OsPath))
    ensures
        (r.0@, r.1@) == entry_files(dir@, name@),
{
    let mut cert = name.to_owned();
    cert.append(".crt");
    let mut policy = name.to_owned();
    policy.append(".toml");
    (dir.join(cert.as_str()), dir.join(policy.as_str()))
}

// ---------------------------------------------------------------------------
// Authorizing
// ---------------------------------------------------------------------------

/// What `qsh-server authorize` was asked for.
#[derive(Debug)]
pub struct AuthorizeArgs {
    /// Local account this key may log in as.
    pub user: String,
    /// Refuse interactive shells for this key.
    pub no_shell: bool,
    /// Refuse remote command execution for this key.
    pub no_exec: bool,
    /// Restrict execution to these programs.
    pub commands: Vec<String>,
    /// Stop accepting this key after that many days.
    pub expires_in_days: Option<u32>,
    /// Overwrite an existing entry with the same name.
    pub force: bool,
}

/// Seconds in a day.
pub const DAY: i64 = 86_400;

/// The last second of an authorization that was made now for so many days.
pub open spec fn expiry(now: i64, days: Option<u32>) -> Option<i64> {
    match days {
        None => None,
        Some(d) => if now + d * DAY <= i64::MAX {
            Some((now + d * DAY) as i64)
        } else {
            Some(i64::MAX)
        },
    }
}

/// What is changed on disk to authorize a key.
#[derive(Debug)]
pub enum Change {
    /// Write the policy of the entry.
    WritePolicy { path: OsPath },
    /// Write the certificate of the entry.
    WriteCertificate { path: OsPath },
    /// Remove the entry that the key had under another name.
    RemoveEntry { name: String },
}

/// What a [`Change`] holds.
pub enum ChangeView {
    WritePolicy(Seq<u8>),
    WriteCertificate(Seq<u8>),
    RemoveEntry(Seq<char>),
}

impl View for Change {
    type V = ChangeView;

    open spec fn view(&self) -> ChangeView {
        match *self {
            Change::WritePolicy { path } => ChangeView::WritePolicy(path@),
            Change::WriteCertificate { path } => ChangeView::WriteCertificate(path@),
            Change::RemoveEntry { name } => ChangeView::RemoveEntry(name@),
        }
    }
}

/// How a key is authorized.
#[derive(Debug)]
pub struct AuthorizePlan {
    pub policy: AuthMeta,
    /// What is done on disk, in this order.
    pub changes: Vec<Change>,
    /// What the key was authorized as before, if the entry is another.
    pub replaced: Option<String>,
}

/// The policy that is asked for.
pub open spec fn policy_for(args: AuthorizeArgs, fp: Fingerprint, now: i64) -> AuthMetaView {
    AuthMetaView {
        user: args.user@,
        allow_shell: !args.no_shell,
        allow_exec: !args.no_exec,
        allowed_commands: texts(args.commands@),
        key_fingerprint: Some(fp.text()),
        expires_at_unix: expiry(now, args.expires_in_days),
    }
}

/// The changes that authorize a key under a name, in their order. The policy
/// comes first: it names the key it belongs to, so until the certificate
/// follows the pair is refused rather than guessed at. The files that the key
/// had under another name go last, so that a failure in between leaves that
/// authorization working rather than the key locked out.
pub open spec fn changes_for(
    dir: Seq<u8>,
    name: Seq<char>,
    replaced: Option<Seq<char>>,
) -> Seq<ChangeView> {
    let (cert, policy) = entry_files(dir, name);
    let writes = seq![ChangeView::WritePolicy(policy), ChangeView::WriteCertificate(cert)];
    match replaced {
        Some(old_name) => writes.push(ChangeView::RemoveEntry(old_name)),
        None => writes,
    }
}

/// What the key was authorized as before, if that is another name.
pub open spec fn other_name(
    store: Map<Seq<u8>, AuthEntryView>,
    fp: Fingerprint,
    name: Seq<char>,
) -> Option<Seq<char>> {
    if store.dom().contains(fp.0@) && store[fp.0@].name != name {
        Some(store[fp.0@].name)
    } else {
        None
    }
}

/// Plans the authorization of a key under a name. `present` says whether the
/// entry's certificate file is there already.
pub fn plan_authorize(
    args: &AuthorizeArgs,
    dir: &OsPath,
    name: &str,
    fp: Fingerprint,
    present: bool,
    existing: &AuthStore,
    now: i64,
) -> (r: Result<AuthorizePlan, String>)
    requires
        existing.wf(),
    ensures
        ({
            let other = other_name(existing@, fp, name@);
            match r {
                Ok(plan) => {
                    &&& args.force || (!present && other is None)
                    &&& plan.policy@ == policy_for(*args, fp, now)
                    &&& opt(plan.replaced) == other
                    &&& plan.changes@.map_values(|c: Change| c@) == changes_for(
                        dir@,
                        name@,
                        other,
                    )
                },
                Err(why) => {
                    &&& !args.force
                    &&& present || other is Some
                    &&& why@ == (if present {
                        shown(entry_files(dir@, name@).0)
                            + " already exists; pass --force to replace it"@
                    } else {
                        "that key is already authorized as `"@ + other->0
                            + "`; revoke it first or pass --force"@
                    })
                },
            }
        }),
{
    let (cert_path, policy_path) = entry_paths(dir, name);
    if present && !args.force {
        let mut out = cert_path.shown();
        out.append(" already exists; pass --force to replace it");
        return Err(out);
    }
    let mut replaced: Option<String> = None;
    if let Some(other) = existing.lookup(&fp) {
        if !crate::text::same(other.name.as_str(), name) {
            if !args.force {
                let mut out = "that key is already authorized as `".to_owned();
                out.append(other.name.as_str());
                out.append("`; revoke it first or pass --force");
                return Err(out);
            }
            replaced = Some(other.name.clone());
        }
    }
    let expires: Option<i64> = match args.expires_in_days {
        None => None,
        Some(days) => {
            let span: i64 = days as i64 * 86_400;
            if now <= i64::MAX - span {
                Some(now + span)
            } else {
                Some(i64::MAX)
            }
        },
    };
    let policy = AuthMeta {
        user: args.user.clone(),
        allow_shell: !args.no_shell,
        allow_exec: !args.no_exec,
        allowed_commands: copy_texts(&args.commands),
        key_fingerprint: Some(fp.to_string()),
        expires_at_unix: expires,
    };
    assert(policy@ =~= policy_for(*args, fp, now));
    let mut changes: Vec<Change> = Vec::new();
    changes.push(Change::WritePolicy { path: policy_path });
    changes.push(Change::WriteCertificate { path: cert_path });
    if let Some(old_name) = &replaced {
        changes.push(Change::RemoveEntry { name: old_name.clone() });
    }
    assert(changes@.map_values(|c: Change| c@) =~= changes_for(
        dir@,
        name@,
        other_name(existing@, fp, name@),
    ));
    Ok(AuthorizePlan { policy, changes, replaced })
}

/// What lies on disk under the entry's name after a change, if `before` did
/// before it.
pub open spec fn changed(
    before: Candidate,
    change: ChangeView,
    policy: AuthMeta,
    pem: Vec<u8>,
) -> Candidate {
    match change {
        ChangeView::WritePolicy(_) => Candidate { meta: FileRead::Parsed(policy), ..before },
        ChangeView::WriteCertificate(_) => Candidate { cert: Ok(pem), ..before },
        ChangeView::RemoveEntry(_) => before,
    }
}

/// What lies on disk under the entry's name after the first `n` changes.
pub open spec fn changed_up_to(
    before: Candidate,
    changes: Seq<ChangeView>,
    n: nat,
    policy: AuthMeta,
    pem: Vec<u8>,
) -> Candidate
    decreases n,
{
    if n == 0 {
        before
    } else {
        let m = (n - 1) as nat;
        changed(changed_up_to(before, changes, m, policy, pem), changes[m as int], policy, pem)
    }
}

/// An interrupted authorization fails closed. Whatever lay under the name
/// before, and wherever the changes stop: what is accepted is either what was
/// there before the first change, or the new key under the new policy. A key
/// never meets a policy that was written for another. Once both files are
/// written the new key is accepted.
pub proof fn law_torn_authorize_fails_closed(
    before: Candidate,
    args: AuthorizeArgs,
    policy: AuthMeta,
    pem: Vec<u8>,
    fp: Fingerprint,
    now: i64,
    dir: Seq<u8>,
    name: Seq<char>,
    replaced: Option<Seq<char>>,
    n: nat,
)
    requires
        n <= changes_for(dir, name, replaced).len(),
        policy@ == policy_for(args, fp, now),
        args.user@.len() > 0,
        pem_sections(pem@).len() > 0,
        forall|i: int|
            0 <= i < pem_sections(pem@).len() ==> #[trigger] pem_sections(pem@)[i] is Some,
        certificate(pem_sections(pem@)[0]->0) is Some,
        fp.0@ == sha256(certificate(pem_sections(pem@)[0]->0)->0.spki),
    ensures
        ({
            let after = changed_up_to(before, changes_for(dir, name, replaced), n, policy, pem);
            &&& after.complete() ==> (n == 0 && after == before) || (after.fingerprint() == fp.0@
                && after.entry().meta == policy@)
            &&& n >= 2 ==> after.complete()
        }),
{
    let changes = changes_for(dir, name, replaced);
    reveal_with_fuel(changed_up_to, 4);
    let after = changed_up_to(before, changes, n, policy, pem);
    assert(changes[0] is WritePolicy);
    assert(changes[1] is WriteCertificate);
    assert(changes.len() == 3 ==> changes[2] is RemoveEntry);
    assert(policy.key_fingerprint is Some && policy.key_fingerprint->0@ == fp.text());
    if n == 1 && after.complete() {
        assert(after.fingerprint_text() == fp.text());
        let prefix = "sha256:"@;
        assert((prefix + hex(after.fingerprint())).skip(prefix.len() as int) =~= hex(
            after.fingerprint(),
        ));
        assert(fp.text().skip(prefix.len() as int) =~= hex(fp.0@));
        lemma_hex_is_unique(after.fingerprint(), fp.0@);
    }
    if n >= 2 {
        assert(after.cert == Ok::<Vec<u8>, String>(pem));
        assert(after.meta == FileRead::Parsed(policy));
    }
}

/// The text of a policy file.
pub fn policy_file(name: &str, policy: &str) -> (out: String)
    ensures
        out@ == "# authorized qsh client `"@ + name@ + "`\n"@ + policy@,
{
    let mut out = "# authorized qsh client `".to_owned();
    out.append(name);
    out.append("`\n");
    out.append(policy);
    out
}

/// A line, if it applies.
pub open spec fn line_if(applies: bool, line: Seq<char>) -> Seq<Seq<char>> {
    if applies {
        seq![line]
    } else {
        Seq::empty()
    }
}

/// What is reported about an authorization.
pub open spec fn authorize_lines(
    args: AuthorizeArgs,
    name: Seq<char>,
    fp: Fingerprint,
    replaced: Option<Seq<char>>,
) -> Seq<Seq<char>> {
    seq!["Authorized `"@ + name + "` ("@ + fp.text() + ") as user `"@ + args.user@ + "`."@]
        + line_if(
        replaced is Some,
        "Removed the previous authorization `"@ + replaced->0 + "` for the same key."@,
    ) + line_if(
        args.expires_in_days is Some,
        "Expires in "@ + decimal(args.expires_in_days->0 as nat)
            + " days; after that the key is refused."@,
    ) + line_if(
        args.commands@.len() > 0,
        "Restricted to: "@ + joined_by(texts(args.commands@), ", "@),
    ) + line_if(args.no_shell, "Interactive shells are refused for this key."@) + line_if(
        args.no_exec,
        "Remote commands are refused for this key."@,
    ) + seq!["The change takes effect within a second; no restart needed."@]
}

/// Adds a line.
fn say(out: &mut Vec<String>, line: String)
    ensures
        texts(final(out)@) == texts(old(out)@).push(line@),
{
    out.push(line);
    assert(texts(out@) =~= texts(old(out)@).push(line@));
}

/// What is reported about an authorization.
pub fn authorize_report(
    args: &AuthorizeArgs,
    name: &str,
    fp: Fingerprint,
    replaced: &Option<String>,
) -> (out: Vec<String>)
    ensures
        texts(out@) == authorize_lines(*args, name@, fp, opt(*replaced)),
{
    let mut out: Vec<String> = Vec::new();
    assert(texts(out@) =~= Seq::empty());
    let mut first = "Authorized `".to_owned();
    first.append(name);
    first.append("` (");
    first.append(fp.to_string().as_str());
    first.append(") as user `");
    first.append(args.user.as_str());
    first.append("`.");
    say(&mut out, first);
    if let Some(old_name) = replaced {
        let mut line = "Removed the previous authorization `".to_owned();
        line.append(old_name.as_str());
        line.append("` for the same key.");
        say(&mut out, line);
    }
    if let Some(days) = args.expires_in_days {
        let mut line = "Expires in ".to_owned();
        line.append(decimal_text(days as u64).as_str());
        line.append(" days; after that the key is refused.");
        say(&mut out, line);
    }
    if args.commands.len() > 0 {
        let mut line = "Restricted to: ".to_owned();
        line.append(join_texts(&args.commands, ", ").as_str());
        say(&mut out, line);
    }
    if args.no_shell {
        say(&mut out, "Interactive shells are refused for this key.".to_owned());
    }
    if args.no_exec {
        say(&mut out, "Remote commands are refused for this key.".to_owned());
    }
    say(&mut out, "The change takes effect within a second; no restart needed.".to_owned());
    assert(texts(out@) =~= authorize_lines(*args, name@, fp, opt(*replaced)));
    out
}

// ---------------------------------------------------------------------------
// Revoking
// ---------------------------------------------------------------------------

/// The files to delete for an entry, out of its two: those that are there. The
/// certificate goes first, so that a policy alone is what can be left.
pub open spec fn removals(
    dir: Seq<u8>,
    name: Seq<char>,
    cert_present: bool,
    policy_present: bool,
) -> Seq<Seq<u8>> {
    let (cert, policy) = entry_files(dir, name);
    let first = if cert_present {
        seq![cert]
    } else {
        Seq::empty()
    };
    if policy_present {
        first.push(policy)
    } else {
        first
    }
}

/// The views of some paths.
pub open spec fn path_views(paths: Seq<OsPath>) -> Seq<Seq<u8>> {
    paths.map_values(|p: OsPath| p@)
}

/// The files to delete for an entry, out of its two.
///
/// Without the check of the name, `revoke ../server` would delete the host key,
/// and an absolute name could reach any certificate on the filesystem.
pub fn remove_entry(dir: &OsPath, name: &str, cert_present: bool, policy_present: bool) -> (r: Result<
    Vec<OsPath>,
    EntryNameError,
>)
    ensures
        match r {
            Ok(paths) => {
                &&& entry_name(name@)
                &&& path_views(paths@) == removals(dir@, name@, cert_present, policy_present)
            },
            Err(EntryNameError::Empty) => name@.len() == 0,
            Err(EntryNameError::Invalid(n)) => {
                &&& name@.len() > 0
                &&& !entry_name(name@)
                &&& n@ == name@
            },
        },
{
    match validate_entry_name(name) {
        Ok(()) => {},
        Err(e) => return Err(e),
    }
    let (cert, policy) = entry_paths(dir, name);
    let mut out: Vec<OsPath> = Vec::new();
    if cert_present {
        out.push(cert);
    }
    if policy_present {
        out.push(policy);
    }
    assert(path_views(out@) =~= removals(dir@, name@, cert_present, policy_present));
    Ok(out)
}

/// What revoking an authorization comes to, once `removed` files are gone.
pub fn revoked(name: &str, removed: usize) -> (r: Result<String, String>)
    ensures
        match r {
            Ok(said) => removed > 0 && said@ == "Revoked `"@ + name@ + "`."@,
            Err(why) => removed == 0 && why@ == "no authorization named `"@ + name@ + "`"@,
        },
{
    if removed == 0 {
        let mut out = "no authorization named `".to_owned();
        out.append(name);
        out.append("`");
        return Err(out);
    }
    let mut out = "Revoked `".to_owned();
    out.append(name);
    out.append("`.");
    Ok(out)
}

// ---------------------------------------------------------------------------
// Listing
// ---------------------------------------------------------------------------

/// What is remarked about an authorization in the list.
pub open spec fn notes_of(meta: AuthMetaView, now: i64) -> Seq<Seq<char>> {
    line_if(!meta.allow_shell, "no-shell"@) + line_if(!meta.allow_exec, "no-exec"@) + line_if(
        meta.allowed_commands.len() > 0,
        "commands="@ + joined_by(meta.allowed_commands, "+"@),
    ) + line_if(
        meta.expires_at_unix is Some,
        if meta.expired(now) {
            "EXPIRED"@
        } else {
            "expires in "@ + decimal(((meta.expires_at_unix->0 - now) / DAY as int) as nat) + "d"@
        },
    )
}

/// An authorization in the list.
pub open spec fn list_line(entry: AuthEntryView, now: i64) -> Seq<char> {
    let notes = notes_of(entry.meta, now);
    padded(entry.name, 16) + " "@ + padded(entry.meta.user, 12) + " "@ + ("sha256:"@ + hex(
        entry.fingerprint,
    )) + (if notes.len() == 0 {
        Seq::empty()
    } else {
        "  ["@ + joined_by(notes, " "@) + "]"@
    })
}

/// What is remarked about an authorization in the list.
fn notes(meta: &AuthMeta, now: i64) -> (out: Vec<String>)
    ensures
        texts(out@) == notes_of(meta@, now),
{
    let mut out: Vec<String> = Vec::new();
    assert(texts(out@) =~= Seq::empty());
    if !meta.allow_shell {
        say(&mut out, "no-shell".to_owned());
    }
    if !meta.allow_exec {
        say(&mut out, "no-exec".to_owned());
    }
    if meta.allowed_commands.len() > 0 {
        let mut line = "commands=".to_owned();
        line.append(join_texts(&meta.allowed_commands, "+").as_str());
        say(&mut out, line);
    }
    if let Some(deadline) = meta.expires_at_unix {
        if now > deadline {
            say(&mut out, "EXPIRED".to_owned());
        } else {
            let left: u64 = (deadline as i128 - now as i128) as u64;
            let mut line = "expires in ".to_owned();
            line.append(decimal_text(left / 86_400).as_str());
            line.append("d");
            say(&mut out, line);
        }
    }
    assert(texts(out@) =~= notes_of(meta@, now));
    out
}

/// An authorization in the list.
pub fn list_entry(entry: &AuthEntry, now: i64) -> (out: String)
    ensures
        out@ == list_line(entry@, now),
{
    let remarks = notes(&entry.meta, now);
    let mut out = pad(entry.name.as_str(), 16);
    out.append(" ");
    out.append(pad(entry.meta.user.as_str(), 12).as_str());
    out.append(" ");
    out.append(entry.fingerprint.to_string().as_str());
    if remarks.len() > 0 {
        out.append("  [");
        out.append(join_texts(&remarks, " ").as_str());
        out.append("]");
    }
    assert(texts(remarks@).len() == remarks@.len());
    assert(out@ =~= list_line(entry@, now));
    out
}

/// The lines of `qsh-server list`.
pub open spec fn listing(dir: Seq<char>, entries: Seq<AuthEntry>, now: i64) -> Seq<Seq<char>> {
    if entries.len() == 0 {
        seq!["no authorized clients in "@ + dir]
    } else {
        entries.map_values(|e: AuthEntry| list_line(e@, now))
    }
}

/// The lines of `qsh-server list`.
pub fn list_authorized(dir: &str, store: &AuthStore, now: i64) -> (out: Vec<String>)
    ensures
        texts(out@) == listing(dir@, store.entries@, now),
{
    let mut out: Vec<String> = Vec::new();
    let ghost all = listing(dir@, store.entries@, now);
    if store.entries.len() == 0 {
        let mut line = "no authorized clients in ".to_owned();
        line.append(dir);
        out.push(line);
        assert(texts(out@) =~= all);
        return out;
    }
    let mut i: usize = 0;
    assert(texts(out@) =~= all.take(0));
    while i < store.entries.len()
        invariant
            i <= store.entries@.len(),
            store.entries@.len() > 0,
            all == listing(dir@, store.entries@, now),
            texts(out@) == all.take(i as int),
        decreases store.entries@.len() - i,
    {
        let line = list_entry(&store.entries[i], now);
        assert(line@ == all[i as int]);
        assert(all.take(i + 1) =~= all.take(i as int).push(all[i as int]));
        say(&mut out, line);
        i += 1;
    }
    assert(all.take(i as int) =~= all);
    out
}

// ---------------------------------------------------------------------------
// The host identity
// ---------------------------------------------------------------------------

/// May a host identity be written at `cert_path`? Not over an existing one,
/// unless that is asked for.
pub fn may_replace_host(cert_path: &str, present: bool, force: bool) -> (r: Result<(), String>)
    ensures
        match r {
            Ok(()) => !present || force,
            Err(why) => present && !force && why@ == cert_path@
                + " already exists; pass --force to replace the host identity "@
                + "(every client would have to re-pin it)"@,
        },
{
    if present && !force {
        let mut out = cert_path.to_owned();
        out.append(" already exists; pass --force to replace the host identity ");
        out.append("(every client would have to re-pin it)");
        return Err(out);
    }
    Ok(())
}

/// The names that a host identity carries.
pub open spec fn names_of_host(asked: Seq<Seq<char>>, hostname: Seq<char>) -> Seq<Seq<char>> {
    if asked.len() == 0 {
        seq![hostname, "localhost"@]
    } else {
        asked
    }
}

/// A host carries exactly the names that were asked for; where none were, it
/// carries its own, and there always is one.
pub proof fn law_names_of_a_host(asked: Seq<Seq<char>>, hostname: Seq<char>)
    ensures
        asked.len() > 0 ==> names_of_host(asked, hostname) == asked,
        asked.len() == 0 ==> names_of_host(asked, hostname).len() == 2 && names_of_host(
            asked,
            hostname,
        )[0] == hostname && names_of_host(asked, hostname)[1] == "localhost"@,
{
}

/// The names that a host identity carries: those asked for, or the host's own
/// and `localhost`.
pub fn host_names(asked: Vec<String>, hostname: &str) -> (out: Vec<String>)
    ensures
        texts(out@) == names_of_host(texts(asked@), hostname@),
{
    let mut out = asked;
    if out.len() == 0 {
        out.push(hostname.to_owned());
        out.push("localhost".to_owned());
        assert(texts(out@) =~= seq![hostname@, "localhost"@]);
    }
    out
}

/// The text of a fresh configuration file.
pub fn config_file(settings: &str) -> (out: String)
    ensures
        out@ == "# qsh-server configuration\n"@ + settings@,
{
    let mut out = "# qsh-server configuration\n".to_owned();
    out.append(settings);
    out
}

/// What is reported about a fresh host identity.
pub open spec fn host_lines(
    paths: ServerPaths,
    fp: Fingerprint,
    days: u32,
    config_written: bool,
) -> Seq<Seq<char>> {
    line_if(config_written, "Wrote "@ + shown(inside(paths.dir@, encode_utf8("qsh-server.toml"@)))) + seq![
        "Wrote "@ + shown(inside(paths.dir@, encode_utf8("server.key"@))),
        "Wrote "@ + shown(inside(paths.dir@, encode_utf8("server.crt"@))),
        "Host key: "@ + fp.text(),
        "Valid for "@ + decimal(days as nat) + " days."@,
        ""@,
        "Clients can pin this key without a prompt:"@,
        "  qsh known-hosts add <host>:"@ + decimal(DEFAULT_PORT as nat) + " "@ + fp.text(),
    ]
}

/// What is reported about a fresh host identity.
pub fn host_report(paths: &ServerPaths, fp: Fingerprint, days: u32, config_written: bool) -> (out:
    Vec<String>)
    ensures
        texts(out@) == host_lines(*paths, fp, days, config_written),
{
    let mut out: Vec<String> = Vec::new();
    assert(texts(out@) =~= Seq::empty());
    if config_written {
        let mut line = "Wrote ".to_owned();
        line.append(paths.config().shown().as_str());
        say(&mut out, line);
    }
    let mut line = "Wrote ".to_owned();
    line.append(paths.key().shown().as_str());
    say(&mut out, line);
    let mut line = "Wrote ".to_owned();
    line.append(paths.cert().shown().as_str());
    say(&mut out, line);
    let mut line = "Host key: ".to_owned();
    line.append(fp.to_string().as_str());
    say(&mut out, line);
    let mut line = "Valid for ".to_owned();
    line.append(decimal_text(days as u64).as_str());
    line.append(" days.");
    say(&mut out, line);
    say(&mut out, "".to_owned());
    say(&mut out, "Clients can pin this key without a prompt:".to_owned());
    let mut line = "  qsh known-hosts add <host>:".to_owned();
    line.append(decimal_text(DEFAULT_PORT as u64).as_str());
    line.append(" ");
    line.append(fp.to_string().as_str());
    say(&mut out, line);
    assert(texts(out@) =~= host_lines(*paths, fp, days, config_written));
    out
}

/// What is said when there is no host identity.
pub fn no_host_identity(paths: &ServerPaths) -> (out: String)
    ensures
        out@ == "no host identity in "@ + shown(paths.dir@) + " (run `qsh-server keygen`)"@,
{
    let mut out = "no host identity in ".to_owned();
    out.append(paths.dir.shown().as_str());
    out.append(" (run `qsh-server keygen`)");
    out
}

// ---------------------------------------------------------------------------
// Serving
// ---------------------------------------------------------------------------

/// Where the configuration of a server lies: where it was asked for, or in the
/// configuration directory.
pub fn config_path(asked: &Option<OsPath>, paths: &ServerPaths) -> (out: OsPath)
    ensures
        out@ == (match *asked {
            Some(path) => path@,
            None => inside(paths.dir@, encode_utf8("qsh-server.toml"@)),
        }),
{
    match asked {
        Some(path) => path.duplicate(),
        None => paths.config(),
    }
}

/// The configuration of a server. Without a file the defaults apply, unless that
/// file was asked for by name.
pub fn server_config(
    asked: &Option<OsPath>,
    paths: &ServerPaths,
    file: FileRead<ServerConfig>,
) -> (r: Result<ServerConfig, ConfigError>)
    ensures
        match r {
            Ok(cfg) => {
                ||| file == FileRead::Parsed(cfg)
                ||| file is Missing && *asked is None && cfg.is_default()
            },
            Err(e) => {
                &&& !(file is Parsed)
                &&& file is Missing ==> *asked is Some
                &&& e.missing == (file is Missing)
                &&& e.message@ == file.complaint(
                    match *asked {
                        Some(path) => shown(path@),
                        None => shown(inside(paths.dir@, encode_utf8("qsh-server.toml"@))),
                    },
                )
            },
        },
{
    let path = config_path(asked, paths).shown();
    match asked {
        Some(_) => ServerConfig::load_required(path.as_str(), file),
        None => ServerConfig::load(path.as_str(), file),
    }
}

// ---------------------------------------------------------------------------
// What it all comes to
// ---------------------------------------------------------------------------

/// Names of letters, digits and the three signs are accepted, unless they begin
/// with a dot; a name with anything else in it is not, nor is an empty one.
pub proof fn law_which_names_are_accepted(name: Seq<char>, i: int)
    requires
        0 <= i < name.len(),
    ensures
        ({
            let c = name[i];
            let fine = 'a' <= c <= 'z' || 'A' <= c <= 'Z' || '0' <= c <= '9' || c == '-' || c == '_'
                || c == '.';
            &&& !fine ==> !entry_name(name)
            &&& name[0] == '.' ==> !entry_name(name)
            &&& !entry_name(Seq::<char>::empty())
        }),
        (forall|j: int|
            0 <= j < name.len() ==> {
                let c = #[trigger] name[j];
                'a' <= c <= 'z' || 'A' <= c <= 'Z' || '0' <= c <= '9' || c == '-' || c == '_' || c
                    == '.'
            }) && name[0] != '.' ==> entry_name(name),
{
    if !name_char(name[i]) {
        assert(!entry_name(name));
    }
    if (forall|j: int|
        0 <= j < name.len() ==> {
            let c = #[trigger] name[j];
            'a' <= c <= 'z' || 'A' <= c <= 'Z' || '0' <= c <= '9' || c == '-' || c == '_' || c
                == '.'
        }) && name[0] != '.' {
        assert forall|j: int| 0 <= j < name.len() implies name_char(#[trigger] name[j]) by {}
    }
}

/// A name that was asked for is the one that is used. Otherwise it is that of the
/// certificate file, wherever that lies, without its ending.
pub proof fn law_names_come_from_the_file(
    asked: Seq<char>,
    dir: Seq<u8>,
    name: Seq<char>,
    ending: Seq<u8>,
    cert_file: Seq<u8>,
)
    requires
        encode_utf8(name).len() > 0,
        !encode_utf8(name).contains(47),
        !ending.contains(47),
        !ending.contains(46),
        ending.len() > 0,
        cert_file == dir.push(47) + (encode_utf8(name).push(46) + ending),
    ensures
        wanted_name(Some(asked), cert_file) == asked,
        wanted_name(None, cert_file) == name,
{
    let stem = encode_utf8(name);
    let file = stem.push(46) + ending;
    assert(!file.contains(47)) by {
        if file.contains(47) {
            let i = choose|i: int| 0 <= i < file.len() && file[i] == 47;
            if i < stem.len() {
                assert(stem[i] == 47);
            } else if i > stem.len() {
                assert(ending[i - stem.len() - 1] == 47);
            }
        }
    }
    assert(file.len() >= 3);
    crate::path::law_file_name_is_the_last_part(dir, file);
    crate::path::law_stem_is_without_the_ending(stem, ending);
    vstd::utf8::encode_utf8_valid_utf8(name);
    vstd::utf8::encode_utf8_decode_utf8(name);
}

/// A key that was just authorized may do what it was authorized for, and nothing
/// else: open a shell unless that was excluded; run a command unless that was,
/// any one where none were named, and otherwise exactly those; as the account
/// that was named, or without naming one, and as no other; until the last second
/// of the last day, and not a second longer.
pub proof fn law_authorized_as_asked(
    args: AuthorizeArgs,
    fp: Fingerprint,
    now: i64,
    name: Seq<char>,
    req: RequestView,
    later: i64,
)
    requires
        req.version == 1,
        req.command is Some ==> req.command->0.len() > 0 && encode_utf8(req.command->0[0]).len()
            <= 4096,
        args.expires_in_days is Some ==> now + args.expires_in_days->0 * 86400 <= i64::MAX,
    ensures
        ({
            let entry = AuthEntryView {
                name,
                fingerprint: fp.0@,
                meta: policy_for(args, fp, now),
            };
            let in_time = args.expires_in_days is None || later <= now + args.expires_in_days->0
                * 86400;
            let own = req.user is None || req.user->0 == args.user@;
            let kind = if req.command is None {
                !args.no_shell
            } else {
                !args.no_exec && (args.commands@.len() == 0 || exists|i: int|
                    0 <= i < args.commands@.len() && #[trigger] args.commands@[i]@
                        == req.command->0[0])
            };
            refusal(entry, req, later) is None <==> in_time && own && kind
        }),
{
    let list = texts(args.commands@);
    assert(list.len() == args.commands@.len());
    if req.command is Some {
        let program = req.command->0[0];
        if list.contains(program) {
            let i = choose|i: int| 0 <= i < list.len() && list[i] == program;
            assert(args.commands@[i]@ == program);
        }
        if exists|i: int|
            0 <= i < args.commands@.len() && #[trigger] args.commands@[i]@ == program {
            let i = choose|i: int|
                0 <= i < args.commands@.len() && #[trigger] args.commands@[i]@ == program;
            assert(list[i] == program);
        }
    }
}

/// An authorization without a deadline has none, and one whose deadline lies
/// beyond all time lasts as long as time does.
pub proof fn law_deadlines(now: i64, days: u32)
    ensures
        expiry(now, None) is None,
        now + days * 86400 <= i64::MAX ==> expiry(now, Some(days)) == Some(
            (now + days * 86400) as i64,
        ),
        now + days * 86400 > i64::MAX ==> expiry(now, Some(days)) == Some(i64::MAX),
{
}

/// A key is authorized by two files in the directory of authorizations, whose
/// names are that of the entry with the two endings; the policy is written
/// first, and what the key had under another name is removed last, and only
/// where there is such.
pub proof fn law_what_authorizing_writes(
    dir: Seq<u8>,
    name: Seq<char>,
    replaced: Option<Seq<char>>,
)
    requires
        entry_name(name),
    ensures
        ({
            let changes = changes_for(dir, name, replaced);
            &&& changes[0] is WritePolicy && base_name(changes[0]->WritePolicy_0) == Some(
                encode_utf8(name + ".toml"@),
            )
            &&& changes[1] is WriteCertificate && base_name(changes[1]->WriteCertificate_0)
                == Some(encode_utf8(name + ".crt"@))
            &&& replaced is None ==> changes.len() == 2
            &&& replaced is Some ==> changes.len() == 3 && changes[2] == ChangeView::RemoveEntry(
                replaced->0,
            )
        }),
{
    lemma_entry_file_names(dir, name);
}

proof fn lemma_entry_file_names(dir: Seq<u8>, name: Seq<char>)
    requires
        entry_name(name),
    ensures
        base_name(entry_files(dir, name).0) == Some(encode_utf8(name + ".crt"@)),
        base_name(entry_files(dir, name).1) == Some(encode_utf8(name + ".toml"@)),
{
    reveal_strlit(".crt");
    reveal_strlit(".toml");
    law_entries_stay_in_their_directory(name, ".crt"@);
    law_entries_stay_in_their_directory(name, ".toml"@);
    lemma_long_enough(name, ".crt"@);
    lemma_long_enough(name, ".toml"@);
    crate::path::law_file_name_is_the_last_part(dir, encode_utf8(name + ".crt"@));
    crate::path::law_file_name_is_the_last_part(dir, encode_utf8(name + ".toml"@));
}

proof fn lemma_long_enough(name: Seq<char>, ending: Seq<char>)
    requires
        entry_name(name),
        ending == ".crt"@ || ending == ".toml"@,
    ensures
        encode_utf8(name + ending).len() > 3,
{
    reveal_strlit(".crt");
    reveal_strlit(".toml");
    let text = name + ending;
    assert forall|i: int| 0 <= i < text.len() implies '\0' <= #[trigger] text[i] <= '\u{7f}' by {
        if i < name.len() {
            assert(name_char(name[i]));
        }
    }
    vstd::utf8::is_ascii_chars_encode_utf8(text);
}

/// To revoke a key is to delete its two files, those of them that are there, the
/// certificate first, and no other: what authorizing wrote, revoking deletes.
pub proof fn law_revoking_deletes_what_was_written(
    dir: Seq<u8>,
    name: Seq<char>,
    replaced: Option<Seq<char>>,
    cert_present: bool,
    policy_present: bool,
)
    ensures
        ({
            let changes = changes_for(dir, name, replaced);
            let cert = changes[1]->WriteCertificate_0;
            let policy = changes[0]->WritePolicy_0;
            &&& removals(dir, name, true, true) == seq![cert, policy]
            &&& removals(dir, name, true, false) == seq![cert]
            &&& removals(dir, name, false, true) == seq![policy]
            &&& removals(dir, name, false, false).len() == 0
        }),
{
    let (cert, policy) = entry_files(dir, name);
    assert(removals(dir, name, true, true) =~= seq![cert, policy]);
    assert(removals(dir, name, false, true) =~= seq![policy]);
}

/// What a key is authorized as already stands in the way of another name for it,
/// and of nothing else.
pub proof fn law_one_name_for_a_key(
    store: Map<Seq<u8>, AuthEntryView>,
    fp: Fingerprint,
    name: Seq<char>,
)
    ensures
        !store.dom().contains(fp.0@) ==> other_name(store, fp, name) is None,
        store.dom().contains(fp.0@) && store[fp.0@].name == name ==> other_name(store, fp, name)
            is None,
        store.dom().contains(fp.0@) && store[fp.0@].name != name ==> other_name(store, fp, name)
            == Some(store[fp.0@].name),
{
}

/// Every authorization has its line in the list, in order, which begins with its
/// name, and says of it whatever restricts it, and whether it has expired.
pub proof fn law_every_entry_is_listed(
    dir: Seq<char>,
    entries: Seq<AuthEntry>,
    now: i64,
    i: int,
)
    requires
        0 <= i < entries.len(),
    ensures
        ({
            let meta = entries[i]@.meta;
            let notes = notes_of(meta, now);
            &&& listing(dir, entries, now).len() == entries.len()
            &&& entries[i].name@.is_prefix_of(listing(dir, entries, now)[i])
            &&& notes.contains("no-shell"@) || meta.allow_shell
            &&& notes.contains("no-exec"@) || meta.allow_exec
            &&& meta.expires_at_unix is Some && now > meta.expires_at_unix->0 ==> notes.contains(
                "EXPIRED"@,
            )
            &&& meta.allow_shell && meta.allow_exec && meta.allowed_commands.len() == 0
                && meta.expires_at_unix is None ==> notes.len() == 0
        }),
{
    let e = entries[i]@;
    let meta = e.meta;
    let line = listing(dir, entries, now)[i];
    assert(line == list_line(e, now));
    assert(line.take(e.name.len() as int) =~= e.name);
    let notes = notes_of(meta, now);
    let a = line_if(!meta.allow_shell, "no-shell"@);
    let b = line_if(!meta.allow_exec, "no-exec"@);
    if !meta.allow_shell {
        assert(notes[0] == "no-shell"@);
    }
    if !meta.allow_exec {
        assert(notes[a.len() as int] == "no-exec"@);
    }
    if meta.expires_at_unix is Some && now > meta.expires_at_unix->0 {
        assert(notes[notes.len() - 1] == "EXPIRED"@);
    }
}

} // verus!
