//! Starting the remote process: what is run, as whom, and in which environment.

use vstd::prelude::*;
use vstd::utf8::{decode_utf8, encode_utf8, valid_utf8};

use crate::config::{env_allowed, env_permitted};
use crate::path::{base_name, shown, OsPath};
use crate::proto::{may_number, pairs, PtySize, Request, RequestView, Signal};
use crate::text::{chars_of, copy_texts, has_char, same, texts};

verus! {

/// The `PATH` of remote processes. Clients cannot override it.
pub open spec fn default_path() -> Seq<char> {
    "/usr/local/bin:/usr/bin:/bin:/usr/local/sbin:/usr/sbin:/sbin"@
}

/// A local account.
#[derive(Debug, Clone)]
pub struct Account {
    pub name: String,
    pub uid: u32,
    pub gid: u32,
    /// The home directory on record.
    pub dir: OsPath,
    /// Is it a directory?
    pub dir_exists: bool,
    /// The login shell on record, possibly none.
    pub shell: OsPath,
}

impl Account {
    /// The directory that remote processes start in.
    pub open spec fn home(&self) -> Seq<u8> {
        if self.dir_exists {
            self.dir@
        } else {
            encode_utf8("/"@)
        }
    }

    /// The login shell.
    pub open spec fn login_shell(&self) -> Seq<u8> {
        if self.shell@.len() == 0 {
            encode_utf8("/bin/sh"@)
        } else {
            self.shell@
        }
    }
}

/// The directory that remote processes of the account start in: its home
/// directory, if there is one.
pub fn home_of(user: &Account) -> (home: OsPath)
    ensures
        home@ == user.home(),
{
    if user.dir_exists {
        user.dir.duplicate()
    } else {
        OsPath::of_text("/")
    }
}

/// The account's login shell, or the standard one where none is on record.
pub fn shell_of(user: &Account) -> (shell: OsPath)
    ensures
        shell@ == user.login_shell(),
{
    if user.shell.bytes.len() == 0 {
        OsPath::of_text("/bin/sh")
    } else {
        user.shell.duplicate()
    }
}

/// The outcome of looking an account up by name.
pub fn resolve_user(name: &str, found: Result<Option<Account>, String>) -> (r: Result<
    Account,
    String,
>)
    ensures
        match found {
            Ok(Some(account)) => r == Ok::<Account, String>(account),
            Ok(None) => r is Err && r->Err_0@ == "no such local user: `"@ + name@ + "`"@,
            Err(why) => r is Err && r->Err_0@ == "looking up user `"@ + name@ + "`: "@ + why@,
        },
{
    match found {
        Ok(Some(account)) => Ok(account),
        Ok(None) => {
            let mut out = "no such local user: `".to_owned();
            out.append(name);
            out.append("`");
            Err(out)
        },
        Err(why) => {
            let mut out = "looking up user `".to_owned();
            out.append(name);
            out.append("`: ");
            out.append(why.as_str());
            Err(out)
        },
    }
}

/// The outcome of looking up the account that the server itself runs as.
pub fn current_user(found: Result<Option<Account>, String>) -> (r: Result<Account, String>)
    ensures
        match found {
            Ok(Some(account)) => r == Ok::<Account, String>(account),
            Ok(None) => r is Err && r->Err_0@ == "the current uid has no passwd entry"@,
            Err(why) => r is Err && r->Err_0@ == "looking up the current user: "@ + why@,
        },
{
    match found {
        Ok(Some(account)) => Ok(account),
        Ok(None) => Err("the current uid has no passwd entry".to_owned()),
        Err(why) => {
            let mut out = "looking up the current user: ".to_owned();
            out.append(why.as_str());
            Err(out)
        },
    }
}

// ---------------------------------------------------------------------------
// Identity
// ---------------------------------------------------------------------------

/// The real, effective and saved user or group IDs of a process.
#[derive(Debug, Clone, Copy, PartialEq, Eq, Structural)]
pub struct Ids {
    pub real: u32,
    pub effective: u32,
    pub saved: u32,
}

impl Ids {
    /// Are all three this one?
    pub open spec fn all(self, id: u32) -> bool {
        self.real == id && self.effective == id && self.saved == id
    }

    /// Are all three this one?
    pub fn are(&self, id: u32) -> (r: bool)
        ensures
            r == self.all(id),
    {
        self.real == id && self.effective == id && self.saved == id
    }
}

/// What a system offers for changing identities.
#[derive(Debug, Clone, Copy, PartialEq, Eq, Structural)]
pub enum Platform {
    /// All three IDs can be set and read, the saved one too.
    SavedIds,
    /// The saved IDs are out of sight, but a process can tell whether its
    /// credentials have changed since it was executed.
    ChangeFlag,
    /// Neither: no identity can safely be taken on.
    Unsafe,
}

/// Does running as `user` take a change of identity? The saved IDs count where
/// they can be seen.
pub open spec fn must_switch(user: Account, platform: Platform, uids: Ids, gids: Ids) -> bool {
    ||| uids.real != user.uid || uids.effective != user.uid
    ||| gids.real != user.gid || gids.effective != user.gid
    ||| platform is SavedIds && (uids.saved != user.uid || gids.saved != user.gid)
}

/// Why the server cannot run things as `user`, if it cannot. One that is not
/// running as root can only run things as itself, and not where its credentials
/// may have changed out of sight.
pub open spec fn cannot_switch(
    user: Account,
    platform: Platform,
    uids: Ids,
    gids: Ids,
    changed: bool,
) -> Option<Seq<char>> {
    if uids.effective == 0 {
        None
    } else if platform is ChangeFlag && changed {
        Some("cannot run as `"@ + user.name@ + "`: qsh-server has changed credentials"@)
    } else if must_switch(user, platform, uids, gids) {
        Some("cannot run as `"@ + user.name@ + "`: qsh-server is not running as root"@)
    } else {
        None
    }
}

/// Decide before forking whether the target needs a change of identity and
/// fresh supplementary groups. `changed` says whether the server's credentials
/// have changed since it was executed, where that can be told.
pub fn needs_identity_switch(
    user: &Account,
    platform: Platform,
    uids: Ids,
    gids: Ids,
    changed: bool,
) -> (r: Result<bool, String>)
    ensures
        match r {
            Ok(switch) => {
                &&& switch == must_switch(*user, platform, uids, gids)
                &&& cannot_switch(*user, platform, uids, gids, changed) is None
            },
            Err(why) => cannot_switch(*user, platform, uids, gids, changed) == Some(why@),
        },
{
    let saved: bool = match platform {
        Platform::SavedIds => true,
        _ => false,
    };
    let switch: bool = uids.real != user.uid || uids.effective != user.uid || gids.real != user.gid
        || gids.effective != user.gid || (saved && (uids.saved != user.uid || gids.saved
        != user.gid));
    let flagged: bool = match platform {
        Platform::ChangeFlag => changed,
        _ => false,
    };
    if uids.effective != 0 && (flagged || switch) {
        let mut out = "cannot run as `".to_owned();
        out.append(user.name.as_str());
        if flagged {
            out.append("`: qsh-server has changed credentials");
        } else {
            out.append("`: qsh-server is not running as root");
        }
        return Err(out);
    }
    Ok(switch)
}

/// A server that runs as root can take on every identity, and changes its own
/// unless every one of its IDs is the target's already.
pub proof fn law_root_can_become_anyone(
    user: Account,
    platform: Platform,
    uids: Ids,
    gids: Ids,
    changed: bool,
)
    requires
        uids.effective == 0,
    ensures
        cannot_switch(user, platform, uids, gids, changed) is None,
        user.uid != 0 ==> must_switch(user, platform, uids, gids),
        user.gid != gids.real || user.gid != gids.effective ==> must_switch(
            user,
            platform,
            uids,
            gids,
        ),
{
}

/// Any other server can run things as itself and nobody else. As itself it needs
/// no change of identity. It refuses everybody whose IDs are not its own, the
/// saved ones included where they can be seen, and where they cannot, everybody
/// once its credentials have changed.
pub proof fn law_others_can_only_be_themselves(
    user: Account,
    platform: Platform,
    uids: Ids,
    gids: Ids,
    changed: bool,
)
    requires
        uids.effective != 0,
    ensures
        ({
            let own = user.uid == uids.real && user.uid == uids.effective && user.gid == gids.real
                && user.gid == gids.effective;
            let saved = user.uid == uids.saved && user.gid == gids.saved;
            &&& !own ==> cannot_switch(user, platform, uids, gids, changed) is Some
            &&& platform is SavedIds && !saved ==> cannot_switch(
                user,
                platform,
                uids,
                gids,
                changed,
            ) is Some
            &&& platform is ChangeFlag && changed ==> cannot_switch(
                user,
                platform,
                uids,
                gids,
                changed,
            ) is Some
            &&& own && (saved || !(platform is SavedIds)) && !(platform is ChangeFlag && changed)
                ==> cannot_switch(user, platform, uids, gids, changed) is None && !must_switch(
                user,
                platform,
                uids,
                gids,
            )
        }),
{
}

/// The identity information that may require lookups. Resolved before the final
/// authorization check.
#[derive(Debug)]
pub struct PreparedIdentity {
    pub switch: bool,
    pub groups: Vec<u32>,
}

/// Decides whether the target's supplementary groups must be looked up before
/// spawning a child. Fails if the server cannot assume the target identity, or
/// the account's name cannot be handed to the system: `c_name` is what making a
/// C string of it came to.
pub fn groups_needed(
    user: &Account,
    platform: Platform,
    uids: Ids,
    gids: Ids,
    changed: bool,
    c_name: Result<(), String>,
) -> (r: Result<bool, String>)
    ensures
        match r {
            Ok(switch) => {
                &&& switch == must_switch(*user, platform, uids, gids)
                &&& cannot_switch(*user, platform, uids, gids, changed) is None
                &&& c_name is Ok
            },
            Err(why) => match cannot_switch(*user, platform, uids, gids, changed) {
                Some(text) => why@ == text,
                None => c_name is Err && why@ == "user name contains a NUL byte: "@
                    + c_name->Err_0@,
            },
        },
{
    match needs_identity_switch(user, platform, uids, gids, changed) {
        Err(why) => Err(why),
        Ok(switch) => match c_name {
            Ok(()) => Ok(switch),
            Err(e) => {
                let mut out = "user name contains a NUL byte: ".to_owned();
                out.append(e.as_str());
                Err(out)
            },
        },
    }
}

/// Puts the resolved identity together: groups are replaced only where the
/// identity changes. `groups` is what the lookup came to, where one was needed.
pub fn prepare_identity(user: &Account, switch: bool, groups: Result<Vec<u32>, String>) -> (r: Result<
    PreparedIdentity,
    String,
>)
    ensures
        match r {
            Ok(p) => {
                &&& p.switch == switch
                &&& if switch {
                    groups is Ok && p.groups == groups->Ok_0
                } else {
                    p.groups@.len() == 0
                }
            },
            Err(why) => switch && groups is Err && why@ == "looking up the groups of `"@
                + user.name@ + "`: "@ + groups->Err_0@,
        },
{
    if !switch {
        return Ok(PreparedIdentity { switch, groups: Vec::new() });
    }
    match groups {
        Ok(groups) => Ok(PreparedIdentity { switch, groups }),
        Err(why) => {
            let mut out = "looking up the groups of `".to_owned();
            out.append(user.name.as_str());
            out.append("`: ");
            out.append(why.as_str());
            Err(out)
        },
    }
}

/// The identity that a child takes on between fork and exec.
#[derive(Debug, Clone, Copy, PartialEq, Eq, Structural)]
pub struct Target {
    /// Replace the supplementary groups too?
    pub switch: bool,
    pub platform: Platform,
    pub uid: u32,
    pub gid: u32,
}

/// The next system call on the way to the target's identity.
#[derive(Debug, Clone, Copy, PartialEq, Eq, Structural)]
pub enum DropStep {
    /// Replace the supplementary groups.
    SetGroups,
    /// Set all three group IDs. Even when the visible real and effective IDs
    /// already match, a saved ID could otherwise survive exec and let the
    /// remote program regain a different identity.
    SetGroupIds,
    /// Set all three user IDs.
    SetUserIds,
    /// Set the group ID. Where the saved ID is out of sight, the call of a
    /// privileged process resets it too.
    SetGroupId,
    /// Set the user ID.
    SetUserId,
    /// Read all three group IDs back.
    ReadGroupIds,
    /// Read all three user IDs back; the group IDs are those named.
    ReadUserIds(Ids),
    /// Read the real and effective IDs on their own.
    ReadPlainIds,
    /// Try to become root again, which must fail.
    RegainUser,
    /// Try to regain root's group, which must fail.
    RegainGroup,
    /// The identity has changed for good: go on to exec.
    Done,
    /// A system call failed: do not exec.
    CallFailed,
    /// The change did not stick: do not exec.
    NotDropped,
    /// Saved IDs cannot be dealt with on this system: do not exec.
    Unsupported,
}

/// What a system call came to.
#[derive(Debug, Clone, Copy, PartialEq, Eq, Structural)]
pub enum DropReply {
    Failed,
    Succeeded,
    Ids(Ids),
    Plain { uid: u32, euid: u32, gid: u32, egid: u32 },
}

impl Target {
    /// The first step once the supplementary groups are right.
    pub open spec fn with_groups(self) -> DropStep {
        match self.platform {
            Platform::SavedIds => DropStep::SetGroupIds,
            Platform::ChangeFlag => DropStep::SetGroupId,
            Platform::Unsafe => DropStep::Unsupported,
        }
    }

    /// The first step.
    pub open spec fn first(self) -> DropStep {
        if self.switch {
            DropStep::SetGroups
        } else {
            self.with_groups()
        }
    }

    /// Does the reply name the target's IDs?
    pub open spec fn plain(self, reply: DropReply) -> bool {
        reply == (DropReply::Plain { uid: self.uid, euid: self.uid, gid: self.gid, egid: self.gid })
    }

    /// The step after `step`, when it came to `reply`. A reply that does not
    /// belong to the step counts as a failure.
    pub open spec fn after(self, step: DropStep, reply: DropReply) -> DropStep {
        match step {
            DropStep::SetGroups => if reply is Succeeded {
                self.with_groups()
            } else {
                DropStep::CallFailed
            },
            DropStep::SetGroupId => if reply is Succeeded {
                DropStep::SetUserId
            } else {
                DropStep::CallFailed
            },
            DropStep::SetUserId => if reply is Succeeded {
                DropStep::ReadPlainIds
            } else {
                DropStep::CallFailed
            },
            DropStep::SetGroupIds => if reply is Succeeded {
                DropStep::SetUserIds
            } else {
                DropStep::CallFailed
            },
            DropStep::SetUserIds => if reply is Succeeded {
                DropStep::ReadGroupIds
            } else {
                DropStep::CallFailed
            },
            DropStep::ReadGroupIds => match reply {
                DropReply::Ids(ids) => DropStep::ReadUserIds(ids),
                _ => DropStep::CallFailed,
            },
            DropStep::ReadUserIds(gids) => match reply {
                DropReply::Ids(uids) => if gids.all(self.gid) && uids.all(self.uid) {
                    DropStep::ReadPlainIds
                } else {
                    DropStep::NotDropped
                },
                _ => DropStep::CallFailed,
            },
            DropStep::ReadPlainIds => if !self.plain(reply) {
                DropStep::NotDropped
            } else if self.uid != 0 {
                DropStep::RegainUser
            } else {
                DropStep::Done
            },
            DropStep::RegainUser => if !(reply is Failed) {
                DropStep::NotDropped
            } else if self.gid != 0 {
                DropStep::RegainGroup
            } else {
                DropStep::Done
            },
            DropStep::RegainGroup => if !(reply is Failed) {
                DropStep::NotDropped
            } else {
                DropStep::Done
            },
            DropStep::Done => DropStep::Done,
            DropStep::CallFailed => DropStep::CallFailed,
            DropStep::NotDropped => DropStep::NotDropped,
            DropStep::Unsupported => DropStep::Unsupported,
        }
    }

    /// Where the steps stand after these replies.
    pub open spec fn reached(self, replies: Seq<DropReply>) -> DropStep
        decreases replies.len(),
    {
        if replies.len() == 0 {
            self.first()
        } else {
            self.after(self.reached(replies.drop_last()), replies.last())
        }
    }

    fn past_groups(&self) -> (step: DropStep)
        ensures
            step == self.with_groups(),
    {
        match self.platform {
            Platform::SavedIds => DropStep::SetGroupIds,
            Platform::ChangeFlag => DropStep::SetGroupId,
            Platform::Unsafe => DropStep::Unsupported,
        }
    }

    /// The first step.
    pub fn start(&self) -> (step: DropStep)
        ensures
            step == self.first(),
    {
        if self.switch {
            DropStep::SetGroups
        } else {
            self.past_groups()
        }
    }

    /// The step after `step`, when it came to `reply`. Runs between fork and
    /// exec: it allocates nothing.
    pub fn drop_privileges(&self, step: DropStep, reply: DropReply) -> (next: DropStep)
        ensures
            next == self.after(step, reply),
    {
        match step {
            DropStep::SetGroups => match reply {
                DropReply::Succeeded => self.past_groups(),
                _ => DropStep::CallFailed,
            },
            DropStep::SetGroupId => match reply {
                DropReply::Succeeded => DropStep::SetUserId,
                _ => DropStep::CallFailed,
            },
            DropStep::SetUserId => match reply {
                DropReply::Succeeded => DropStep::ReadPlainIds,
                _ => DropStep::CallFailed,
            },
            DropStep::SetGroupIds => match reply {
                DropReply::Succeeded => DropStep::SetUserIds,
                _ => DropStep::CallFailed,
            },
            DropStep::SetUserIds => match reply {
                DropReply::Succeeded => DropStep::ReadGroupIds,
                _ => DropStep::CallFailed,
            },
            DropStep::ReadGroupIds => match reply {
                DropReply::Ids(ids) => DropStep::ReadUserIds(ids),
                _ => DropStep::CallFailed,
            },
            DropStep::ReadUserIds(gids) => match reply {
                DropReply::Ids(uids) => if gids.are(self.gid) && uids.are(self.uid) {
                    DropStep::ReadPlainIds
                } else {
                    DropStep::NotDropped
                },
                _ => DropStep::CallFailed,
            },
            DropStep::ReadPlainIds => match reply {
                DropReply::Plain { uid, euid, gid, egid } => {
                    if uid != self.uid || euid != self.uid || gid != self.gid || egid != self.gid {
                        DropStep::NotDropped
                    } else if self.uid != 0 {
                        DropStep::RegainUser
                    } else {
                        DropStep::Done
                    }
                },
                _ => DropStep::NotDropped,
            },
            DropStep::RegainUser => match reply {
                DropReply::Failed => if self.gid != 0 {
                    DropStep::RegainGroup
                } else {
                    DropStep::Done
                },
                _ => DropStep::NotDropped,
            },
            DropStep::RegainGroup => match reply {
                DropReply::Failed => DropStep::Done,
                _ => DropStep::NotDropped,
            },
            DropStep::Done => DropStep::Done,
            DropStep::CallFailed => DropStep::CallFailed,
            DropStep::NotDropped => DropStep::NotDropped,
            DropStep::Unsupported => DropStep::Unsupported,
        }
    }

    /// How many steps precede the group IDs.
    pub open spec fn offset(self) -> int {
        if self.switch {
            1
        } else {
            0
        }
    }

    /// Have the IDs been set, by the replies from the `offset`-th on, and where
    /// all three can be seen been read back as the target's?
    pub open spec fn ids_set(self, replies: Seq<DropReply>) -> bool {
        let o = self.offset();
        &&& self.switch ==> replies[0] is Succeeded
        &&& replies[o] is Succeeded
        &&& replies[o + 1] is Succeeded
        &&& self.platform is SavedIds ==> {
            &&& replies[o + 2] matches DropReply::Ids(g) && g.all(self.gid)
            &&& replies[o + 3] matches DropReply::Ids(u) && u.all(self.uid)
        }
    }

    /// How many replies there are before the plain IDs are read.
    pub open spec fn before_plain(self) -> int {
        self.offset() + (if self.platform is SavedIds {
            4int
        } else {
            2int
        })
    }

    proof fn lemma_reached(self, replies: Seq<DropReply>)
        ensures
            ({
                let n = replies.len();
                let o = self.offset();
                let p = self.before_plain();
                let grouped = self.switch ==> replies[0] is Succeeded;
                let saved = self.platform is SavedIds;
                let flag = self.platform is ChangeFlag;
                match self.reached(replies) {
                    DropStep::SetGroups => n == 0 && self.switch,
                    DropStep::SetGroupIds => saved && n == o && grouped,
                    DropStep::SetGroupId => flag && n == o && grouped,
                    DropStep::SetUserIds => saved && n == o + 1 && grouped && replies[o] is Succeeded,
                    DropStep::SetUserId => flag && n == o + 1 && grouped && replies[o] is Succeeded,
                    DropStep::ReadGroupIds => saved && n == o + 2 && grouped
                        && replies[o] is Succeeded && replies[o + 1] is Succeeded,
                    DropStep::ReadUserIds(g) => saved && n == o + 3 && grouped
                        && replies[o] is Succeeded && replies[o + 1] is Succeeded && replies[o + 2]
                        == DropReply::Ids(g),
                    DropStep::ReadPlainIds => n == p && self.ids_set(replies)
                        && !(self.platform is Unsafe),
                    DropStep::RegainUser => n == p + 1 && self.ids_set(replies)
                        && !(self.platform is Unsafe) && self.plain(replies[p]) && self.uid != 0,
                    DropStep::RegainGroup => n == p + 2 && self.ids_set(replies)
                        && !(self.platform is Unsafe) && self.plain(replies[p]) && self.uid != 0
                        && self.gid != 0 && replies[p + 1] is Failed,
                    DropStep::Done => {
                        &&& n >= p + 1
                        &&& self.ids_set(replies)
                        &&& !(self.platform is Unsafe)
                        &&& self.plain(replies[p])
                        &&& self.uid != 0 ==> n >= p + 2 && replies[p + 1] is Failed
                        &&& self.uid != 0 && self.gid != 0 ==> n >= p + 3 && replies[p
                            + 2] is Failed
                    },
                    _ => true,
                }
            }),
        decreases replies.len(),
    {
        if replies.len() > 0 {
            self.lemma_reached(replies.drop_last());
        }
    }
}

/// A child goes on to exec only under the target's identity, for good: groups
/// were replaced first where that was asked for, then the group IDs, then the
/// user IDs; where the saved IDs can be seen, all of them were read back as the
/// target's; the plain ones always were; and for a target that is not root, root
/// could not be regained. Where nothing can be known of the saved IDs, a child
/// never goes on.
pub proof fn law_exec_only_after_dropping(target: Target, replies: Seq<DropReply>)
    requires
        target.reached(replies) is Done,
    ensures
        ({
            let p = target.before_plain();
            &&& !(target.platform is Unsafe)
            &&& replies.len() >= p + 1
            &&& target.ids_set(replies)
            &&& target.plain(replies[p])
            &&& target.uid != 0 ==> replies.len() >= p + 2 && replies[p + 1] is Failed
            &&& target.uid != 0 && target.gid != 0 ==> replies.len() >= p + 3 && replies[p
                + 2] is Failed
        }),
{
    target.lemma_reached(replies);
}

/// Where every call does what it is asked for and root cannot be had again, the
/// child goes on to exec. The groups come first where they are replaced at all,
/// then the group IDs, then the user IDs, which cannot be changed any more
/// afterwards; then everything is read back, and root tried for.
pub proof fn law_dropping_step_by_step(target: Target, ok: DropReply, no: DropReply)
    requires
        ok is Succeeded,
        no is Failed,
        !(target.platform is Unsafe),
    ensures
        ({
            let gids = Ids { real: target.gid, effective: target.gid, saved: target.gid };
            let uids = Ids { real: target.uid, effective: target.uid, saved: target.uid };
            let plain = DropReply::Plain {
                uid: target.uid,
                euid: target.uid,
                gid: target.gid,
                egid: target.gid,
            };
            let saved = target.platform is SavedIds;
            let groups = target.first();
            let group = if target.switch {
                target.after(groups, ok)
            } else {
                groups
            };
            let user = target.after(group, ok);
            let set = target.after(user, ok);
            let read_group = target.after(set, DropReply::Ids(gids));
            let read = if saved {
                target.after(read_group, DropReply::Ids(uids))
            } else {
                set
            };
            let held = target.after(read, plain);
            let tried = target.after(held, no);
            let done = if target.uid == 0 {
                held
            } else if target.gid == 0 {
                tried
            } else {
                target.after(tried, no)
            };
            &&& target.switch ==> groups is SetGroups
            &&& saved ==> group is SetGroupIds && user is SetUserIds && set is ReadGroupIds
                && read_group is ReadUserIds
            &&& !saved ==> group is SetGroupId && user is SetUserId
            &&& read is ReadPlainIds
            &&& target.uid != 0 ==> held is RegainUser
            &&& target.uid != 0 && target.gid != 0 ==> tried is RegainGroup
            &&& done is Done
        }),
{
}

/// A call that fails ends it, wherever it stands, and nothing but a call that
/// does what it is asked for leads on: neither a failure in setting or reading,
/// nor IDs that are not the target's, nor root regained.
pub proof fn law_nothing_but_success_leads_on(target: Target, reply: DropReply)
    requires
        !(reply is Succeeded),
    ensures
        target.after(DropStep::SetGroups, reply) is CallFailed,
        target.after(DropStep::SetGroupIds, reply) is CallFailed,
        target.after(DropStep::SetUserIds, reply) is CallFailed,
        target.after(DropStep::SetGroupId, reply) is CallFailed,
        target.after(DropStep::SetUserId, reply) is CallFailed,
        target.after(DropStep::RegainUser, DropReply::Succeeded) is NotDropped,
        target.after(DropStep::RegainGroup, DropReply::Succeeded) is NotDropped,
        reply is Failed ==> target.after(DropStep::ReadGroupIds, reply) is CallFailed,
        reply matches DropReply::Plain { uid, euid, gid, egid } && (uid != target.uid || euid
            != target.uid || gid != target.gid || egid != target.gid) ==> target.after(
            DropStep::ReadPlainIds,
            reply,
        ) is NotDropped,
        forall|g: Ids, u: Ids|
            g.real != target.gid || g.effective != target.gid || g.saved != target.gid || u.real
                != target.uid || u.effective != target.uid || u.saved != target.uid
                ==> (#[trigger] target.after(DropStep::ReadUserIds(g), DropReply::Ids(u)))
                is NotDropped,
{
}

// ---------------------------------------------------------------------------
// What is run
// ---------------------------------------------------------------------------

/// May `c` stand in a terminal name?
pub open spec fn term_char(c: char) -> bool {
    ||| 'a' <= c <= 'z'
    ||| 'A' <= c <= 'Z'
    ||| '0' <= c <= '9'
    ||| c == '-'
    ||| c == '_'
    ||| c == '.'
    ||| c == '+'
}

fn is_term_char(c: char) -> (r: bool)
    ensures
        r == term_char(c),
{
    ('a' <= c && c <= 'z') || ('A' <= c && c <= 'Z') || ('0' <= c && c <= '9') || c == '-' || c
        == '_' || c == '.' || c == '+'
}

/// The characters of `s` that may stand in a terminal name.
pub open spec fn term_chars(s: Seq<char>) -> Seq<char>
    decreases s.len(),
{
    if s.len() == 0 {
        Seq::empty()
    } else {
        let before = term_chars(s.drop_last());
        if term_char(s.last()) {
            before.push(s.last())
        } else {
            before
        }
    }
}

/// The longest terminal name.
pub const MAX_TERM: usize = 64;

/// The terminal name that is made of `term`: its first 64 permitted characters,
/// or `dumb` if there are none.
pub open spec fn sanitized(term: Seq<char>) -> Seq<char> {
    let kept = term_chars(term);
    if kept.len() == 0 {
        "dumb"@
    } else if kept.len() > MAX_TERM {
        kept.take(MAX_TERM as int)
    } else {
        kept
    }
}

/// `TERM` ends up in the child's environment, so keep it boring.
pub fn sanitize_term(term: &str) -> (out: String)
    ensures
        out@ == sanitized(term@),
{
    let t = chars_of(term);
    let mut kept = String::new();
    let mut n: usize = 0;
    let mut i: usize = 0;
    assert(term@.take(0) =~= Seq::empty());
    assert(kept@ =~= Seq::empty());
    assert(term_chars(Seq::empty()).take(0) =~= Seq::<char>::empty());
    while i < t.len()
        invariant
            i <= t@.len(),
            t@ == term@,
            n <= MAX_TERM,
            n == kept@.len(),
            n < MAX_TERM ==> kept@ == term_chars(term@.take(i as int)),
            n == MAX_TERM ==> n <= term_chars(term@.take(i as int)).len() && kept@ == term_chars(
                term@.take(i as int),
            ).take(MAX_TERM as int),
        decreases t@.len() - i,
    {
        assert(term@.take(i + 1).drop_last() =~= term@.take(i as int));
        assert(term@.take(i + 1).last() == t@[i as int]);
        let ghost full = term_chars(term@.take(i as int));
        if is_term_char(t[i]) && n < MAX_TERM {
            kept.push(t[i]);
            n += 1;
            assert(full.push(t@[i as int]).take(n as int) =~= full.push(t@[i as int]));
        } else if n == MAX_TERM {
            assert(full.push(t@[i as int]).take(MAX_TERM as int) =~= full.take(MAX_TERM as int));
        }
        i += 1;
    }
    assert(term@.take(i as int) =~= term@);
    if n == 0 {
        "dumb".to_owned()
    } else {
        proof {
            let all = term_chars(term@);
            if n == MAX_TERM && all.len() == MAX_TERM {
                assert(all.take(MAX_TERM as int) =~= all);
            }
        }
        kept
    }
}

/// Is this the name of a terminal that any program can be handed?
pub open spec fn boring(term: Seq<char>) -> bool {
    &&& 1 <= term.len() <= MAX_TERM
    &&& forall|i: int| 0 <= i < term.len() ==> term_char(#[trigger] term[i])
}

/// Is this what such a name is in an environment?
pub open spec fn boring_value(value: Seq<u8>) -> bool {
    exists|term: Seq<char>| boring(term) && #[trigger] encode_utf8(term) == value
}

/// Whatever a client asks for, the terminal name is short and made of letters,
/// digits and the four signs only.
pub proof fn law_terminal_names_are_boring(term: Seq<char>)
    ensures
        boring(sanitized(term)),
{
    reveal_strlit("dumb");
    lemma_term_chars(term);
}

/// What is kept of two texts in a row is what is kept of each.
proof fn lemma_term_chars_add(a: Seq<char>, b: Seq<char>)
    ensures
        term_chars(a + b) == term_chars(a) + term_chars(b),
    decreases b.len(),
{
    if b.len() == 0 {
        assert(a + b =~= a);
        assert(term_chars(a) + term_chars(b) =~= term_chars(a));
    } else {
        lemma_term_chars_add(a, b.drop_last());
        assert((a + b).drop_last() =~= a + b.drop_last());
        assert((a + b).last() == b.last());
        assert(term_chars(a + b) =~= term_chars(a) + term_chars(b));
    }
}

/// A name that is fine as it is stays as it is.
pub proof fn law_fine_terminal_names_are_kept(term: Seq<char>)
    requires
        1 <= term.len() <= 64,
        forall|i: int|
            0 <= i < term.len() ==> {
                let c = #[trigger] term[i];
                'a' <= c <= 'z' || 'A' <= c <= 'Z' || '0' <= c <= '9' || c == '-' || c == '_' || c
                    == '.' || c == '+'
            },
    ensures
        sanitized(term) == term,
{
    lemma_fine_chars(term);
}

proof fn lemma_fine_chars(term: Seq<char>)
    requires
        forall|i: int| 0 <= i < term.len() ==> term_char(#[trigger] term[i]),
    ensures
        term_chars(term) == term,
    decreases term.len(),
{
    if term.len() > 0 {
        let past = term.drop_last();
        assert forall|i: int| 0 <= i < past.len() implies term_char(#[trigger] past[i]) by {
            assert(past[i] == term[i]);
        }
        lemma_fine_chars(past);
        assert(term_char(term[term.len() - 1]));
        assert(term =~= past.push(term.last()));
    } else {
        assert(term =~= Seq::empty());
    }
}

/// Characters that may not stand in a terminal name are left out, and make no
/// difference to what is kept of the others.
pub proof fn law_other_characters_are_left_out(a: Seq<char>, c: char, b: Seq<char>)
    requires
        !('a' <= c <= 'z' || 'A' <= c <= 'Z' || '0' <= c <= '9' || c == '-' || c == '_' || c == '.'
            || c == '+'),
    ensures
        sanitized(a.push(c) + b) == sanitized(a + b),
{
    lemma_term_chars_add(a.push(c), b);
    lemma_term_chars_add(a, b);
    assert(a.push(c).drop_last() =~= a);
    assert(!term_char(c));
}

proof fn lemma_term_chars(s: Seq<char>)
    ensures
        forall|i: int| 0 <= i < term_chars(s).len() ==> term_char(#[trigger] term_chars(s)[i]),
    decreases s.len(),
{
    if s.len() > 0 {
        lemma_term_chars(s.drop_last());
        let before = term_chars(s.drop_last());
        assert forall|i: int| 0 <= i < term_chars(s).len() implies term_char(
            #[trigger] term_chars(s)[i],
        ) by {
            if i < before.len() {
                assert(term_chars(s)[i] == before[i]);
            }
        }
    } else {
        assert(term_chars(s).len() == 0);
    }
}

/// How a remote process is started.
#[derive(Debug)]
pub struct LaunchPlan {
    pub program: OsPath,
    /// The name it is told it has, where that is another than `program`.
    pub arg0: Option<String>,
    pub args: Vec<String>,
    /// Its environment, which starts out empty: each of these is set in order,
    /// a later one replacing an earlier one of the same name.
    pub env: Vec<(String, OsPath)>,
    pub current_dir: OsPath,
    /// The terminal it gets, or none.
    pub pty: Option<PtySize>,
}

/// The views of some variables.
pub open spec fn settings(env: Seq<(String, OsPath)>) -> Seq<(Seq<char>, Seq<u8>)> {
    env.map_values(|e: (String, OsPath)| (e.0@, e.1@))
}

/// What a client's environment contributes: the permitted variables without NUL
/// characters, and `TERM` only in its boring form.
pub open spec fn client_env(env: Seq<(Seq<char>, Seq<char>)>) -> Seq<(Seq<char>, Seq<u8>)>
    decreases env.len(),
{
    if env.len() == 0 {
        Seq::empty()
    } else {
        let before = client_env(env.drop_last());
        let (k, v) = env.last();
        if env_permitted(k) && !v.contains('\0') && !k.contains('\0') {
            before.push(
                (
                    k,
                    encode_utf8(
                        if k == "TERM"@ {
                            sanitized(v)
                        } else {
                            v
                        },
                    ),
                ),
            )
        } else {
            before
        }
    }
}

/// The variables that the server itself sets.
pub open spec fn server_env(user: Account) -> Seq<(Seq<char>, Seq<u8>)> {
    seq![
        ("PATH"@, encode_utf8(default_path())),
        ("HOME"@, user.home()),
        ("USER"@, encode_utf8(user.name@)),
        ("LOGNAME"@, encode_utf8(user.name@)),
        ("SHELL"@, user.login_shell()),
    ]
}

/// The variables that are set, in order.
pub open spec fn env_settings(user: Account, req: RequestView) -> Seq<(Seq<char>, Seq<u8>)> {
    server_env(user) + (match req.pty {
        Some(p) => seq![("TERM"@, encode_utf8(sanitized(p.term)))],
        None => Seq::empty(),
    }) + client_env(req.env)
}

/// The environment that results from setting these variables in order.
pub open spec fn environment(settings: Seq<(Seq<char>, Seq<u8>)>) -> Map<Seq<char>, Seq<u8>>
    decreases settings.len(),
{
    if settings.len() == 0 {
        Map::empty()
    } else {
        environment(settings.drop_last()).insert(settings.last().0, settings.last().1)
    }
}

/// The name under which a login shell is started: a leading dash is how a shell
/// learns that it is a login shell.
pub open spec fn login_name(shell: Seq<u8>) -> Seq<char> {
    "-"@ + (match base_name(shell) {
        Some(base) => if valid_utf8(base) {
            decode_utf8(base)
        } else {
            "sh"@
        },
        None => "sh"@,
    })
}

impl LaunchPlan {
    /// Is this how `req` is started as `user`? A command is executed directly,
    /// never through a shell; without one, the account's login shell is started.
    pub open spec fn starts(&self, user: Account, req: RequestView) -> bool {
        &&& match req.command {
            Some(argv) if argv.len() > 0 => {
                &&& self.program@ == encode_utf8(argv[0])
                &&& self.arg0 is None
                &&& texts(self.args@) == argv.skip(1)
            },
            _ => {
                &&& self.program@ == user.login_shell()
                &&& self.arg0 is Some
                &&& self.arg0->0@ == login_name(user.login_shell())
                &&& self.args@.len() == 0
            },
        }
        &&& settings(self.env@) == env_settings(user, req)
        &&& self.current_dir@ == user.home()
        &&& self.pty == (match req.pty {
            Some(p) => Some(p.size),
            None => None,
        })
    }
}

/// Adds one variable.
fn set_path(env: &mut Vec<(String, OsPath)>, key: &str, value: OsPath)
    ensures
        settings(final(env)@) == settings(old(env)@).push((key@, value@)),
{
    let ghost before = env@;
    let ghost added = value@;
    env.push((key.to_owned(), value));
    assert(settings(env@) =~= settings(before).push((key@, added)));
}

/// Adds one variable with a text.
fn set_var(env: &mut Vec<(String, OsPath)>, key: &str, value: &str)
    ensures
        settings(final(env)@) == settings(old(env)@).push((key@, encode_utf8(value@))),
{
    set_path(env, key, OsPath::of_text(value));
}

/// The variables that are set, in order.
fn launch_env(user: &Account, req: &Request) -> (env: Vec<(String, OsPath)>)
    ensures
        settings(env@) == env_settings(*user, req@),
{
    let mut env: Vec<(String, OsPath)> = Vec::new();
    assert(settings(env@) =~= Seq::empty());
    set_var(&mut env, "PATH", "/usr/local/bin:/usr/bin:/bin:/usr/local/sbin:/usr/sbin:/sbin");
    set_path(&mut env, "HOME", home_of(user));
    set_var(&mut env, "USER", user.name.as_str());
    set_var(&mut env, "LOGNAME", user.name.as_str());
    set_path(&mut env, "SHELL", shell_of(user));
    assert(settings(env@) =~= server_env(*user));
    if let Some(p) = &req.pty {
        let term = sanitize_term(p.term.as_str());
        set_var(&mut env, "TERM", term.as_str());
    }
    let ghost fixed = settings(env@);
    assert(fixed =~= server_env(*user) + (match req@.pty {
        Some(p) => seq![("TERM"@, encode_utf8(sanitized(p.term)))],
        None => Seq::empty(),
    }));
    let ghost asked = req@.env;
    let mut i: usize = 0;
    assert(asked.take(0) =~= Seq::empty());
    assert(fixed + client_env(asked.take(0)) =~= fixed);
    while i < req.env.len()
        invariant
            i <= req.env@.len(),
            asked == pairs(req.env@),
            settings(env@) == fixed + client_env(asked.take(i as int)),
        decreases req.env@.len() - i,
    {
        let k: &str = req.env[i].0.as_str();
        let v: &str = req.env[i].1.as_str();
        let ghost before = client_env(asked.take(i as int));
        assert(asked.take(i + 1).drop_last() =~= asked.take(i as int));
        assert(asked.take(i + 1).last() == (k@, v@));
        if env_allowed(k) && !has_char(v, '\0') && !has_char(k, '\0') {
            if same(k, "TERM") {
                let term = sanitize_term(v);
                set_var(&mut env, k, term.as_str());
                assert((fixed + before).push((k@, encode_utf8(term@))) =~= fixed + before.push(
                    (k@, encode_utf8(term@)),
                ));
            } else {
                set_var(&mut env, k, v);
                assert((fixed + before).push((k@, encode_utf8(v@))) =~= fixed + before.push(
                    (k@, encode_utf8(v@)),
                ));
            }
        }
        i += 1;
    }
    assert(asked.take(i as int) =~= asked);
    env
}

/// How the process described by `req` is started as `user`.
pub fn plan_launch(user: &Account, req: &Request) -> (plan: LaunchPlan)
    ensures
        plan.starts(*user, req@),
{
    let env = launch_env(user, req);
    let current_dir = home_of(user);
    let pty: Option<PtySize> = match &req.pty {
        Some(p) => Some(p.size),
        None => None,
    };
    if let Some(argv) = &req.command {
        if argv.len() > 0 {
            let program = OsPath::of_text(argv[0].as_str());
            let mut args = copy_texts(argv);
            let ghost all = texts(args@);
            assert(all.len() == args@.len());
            let _ = args.remove(0);
            assert(texts(args@) =~= all.skip(1));
            return LaunchPlan { program, arg0: None, args, env, current_dir, pty };
        }
    }
    let program = shell_of(user);
    let base = match program.file_name() {
        Some(base) => match base.text() {
            Some(text) => text,
            None => "sh".to_owned(),
        },
        None => "sh".to_owned(),
    };
    let mut arg0 = "-".to_owned();
    arg0.append(base.as_str());
    LaunchPlan { program, arg0: Some(arg0), args: Vec::new(), env, current_dir, pty }
}

/// A command is executed as it was asked for: its first word is the program, and
/// each further word is one argument, in order, none of them read by a shell.
pub proof fn law_command_is_executed_as_asked(
    plan: LaunchPlan,
    user: Account,
    req: RequestView,
    argv: Seq<Seq<char>>,
)
    requires
        plan.starts(user, req),
        req.command == Some(argv),
        argv.len() > 0,
    ensures
        plan.program@ == encode_utf8(argv[0]),
        plan.arg0 is None,
        plan.args@.len() == argv.len() - 1,
        forall|i: int| 0 <= i < plan.args@.len() ==> (#[trigger] plan.args@[i])@ == argv[i + 1],
{
    let args = texts(plan.args@);
    assert(args.len() == plan.args@.len());
    assert forall|i: int| 0 <= i < plan.args@.len() implies (#[trigger] plan.args@[i])@ == argv[i
        + 1] by {
        assert(args[i] == plan.args@[i]@);
        assert(argv.skip(1)[i] == argv[i + 1]);
    }
}

/// Without a command the login shell of the account is started, the one on
/// record if there is any, without arguments, and under a name that begins with
/// a dash.
pub proof fn law_login_shell_is_started(plan: LaunchPlan, user: Account, req: RequestView)
    requires
        plan.starts(user, req),
        req.command is None,
    ensures
        user.shell@.len() > 0 ==> plan.program@ == user.shell@,
        user.shell@.len() == 0 ==> plan.program@ == encode_utf8("/bin/sh"@),
        plan.args@.len() == 0,
        plan.arg0 is Some,
        plan.arg0->0@.len() > 0,
        plan.arg0->0@[0] == '-',
        base_name(plan.program@) is Some && valid_utf8(base_name(plan.program@)->0)
            ==> plan.arg0->0@.skip(1) == decode_utf8(base_name(plan.program@)->0),
{
    reveal_strlit("-");
    let name = plan.arg0->0@;
    if let Some(base) = base_name(plan.program@) {
        if valid_utf8(base) {
            assert(name.skip(1) =~= decode_utf8(base));
        }
    }
}

/// The process has a terminal exactly if the request asks for one, with as many
/// columns as it asks for and as many rows.
pub proof fn law_terminal_is_as_asked(plan: LaunchPlan, user: Account, req: RequestView)
    requires
        plan.starts(user, req),
    ensures
        plan.pty is Some <==> req.pty is Some,
        req.pty is Some ==> plan.pty->0.cols == req.pty->0.size.cols && plan.pty->0.rows
            == req.pty->0.size.rows,
{
}

/// The process starts in the account's own home directory, or at the root where
/// that does not exist, and its environment says so. It is told the account's
/// name and shell, and the one search path of the server.
pub proof fn law_process_belongs_to_the_account(plan: LaunchPlan, user: Account, req: RequestView)
    requires
        plan.starts(user, req),
    ensures
        ({
            let env = environment(settings(plan.env@));
            let home = if user.dir_exists {
                user.dir@
            } else {
                encode_utf8("/"@)
            };
            let shell = if user.shell@.len() > 0 {
                user.shell@
            } else {
                encode_utf8("/bin/sh"@)
            };
            let path = "/usr/local/bin:/usr/bin:/bin:/usr/local/sbin:/usr/sbin:/sbin"@;
            &&& plan.current_dir@ == home
            &&& env.dom().contains("HOME"@) && env["HOME"@] == home
            &&& env.dom().contains("SHELL"@) && env["SHELL"@] == shell
            &&& env.dom().contains("USER"@) && env["USER"@] == encode_utf8(user.name@)
            &&& env.dom().contains("LOGNAME"@) && env["LOGNAME"@] == encode_utf8(user.name@)
            &&& env.dom().contains("PATH"@) && env["PATH"@] == encode_utf8(path)
        }),
{
    law_client_cannot_set_server_variables(user, req);
}

/// A setting at the end decides.
proof fn lemma_last_setting_decides(
    first: Seq<(Seq<char>, Seq<u8>)>,
    env: Seq<(Seq<char>, Seq<char>)>,
    j: int,
)
    requires
        0 <= j < env.len(),
        env_permitted(env[j].0),
        !env[j].0.contains('\0'),
        !env[j].1.contains('\0'),
        forall|i: int| j < i < env.len() ==> (#[trigger] env[i]).0 != env[j].0,
    ensures
        ({
            let all = environment(first + client_env(env));
            &&& all.dom().contains(env[j].0)
            &&& all[env[j].0] == encode_utf8(
                if env[j].0 == "TERM"@ {
                    sanitized(env[j].1)
                } else {
                    env[j].1
                },
            )
        }),
    decreases env.len(),
{
    let past = env.drop_last();
    let before = client_env(past);
    let last = env.last();
    if j == env.len() - 1 {
        assert((first + client_env(env)).drop_last() =~= first + before);
        assert((first + client_env(env)).last() == client_env(env).last());
    } else {
        assert(past[j] == env[j]);
        assert(env[env.len() - 1].0 != env[j].0);
        lemma_last_setting_decides(first, past, j);
        if client_env(env) != before {
            assert((first + client_env(env)).drop_last() =~= first + before);
            assert((first + client_env(env)).last() == client_env(env).last());
        }
    }
}

/// A variable that clients may set arrives with the value that it was sent with,
/// the last one where there are several, unless the name or the value holds a
/// NUL, which no environment can. `TERM` arrives as a name that any program can
/// be handed, and comes from the terminal where no variable says otherwise.
pub proof fn law_permitted_variables_arrive(
    plan: LaunchPlan,
    user: Account,
    req: RequestView,
    j: int,
)
    requires
        plan.starts(user, req),
        0 <= j < req.env.len(),
        env_permitted(req.env[j].0),
        !req.env[j].0.contains('\0'),
        !req.env[j].1.contains('\0'),
        forall|i: int| j < i < req.env.len() ==> (#[trigger] req.env[i]).0 != req.env[j].0,
    ensures
        ({
            let env = environment(settings(plan.env@));
            let (name, value) = req.env[j];
            &&& env.dom().contains(name)
            &&& name != "TERM"@ ==> env[name] == encode_utf8(value)
            &&& name == "TERM"@ ==> env[name] == encode_utf8(sanitized(value))
        }),
{
    let first = server_env(user) + (match req.pty {
        Some(p) => seq![("TERM"@, encode_utf8(sanitized(p.term)))],
        None => Seq::<(Seq<char>, Seq<u8>)>::empty(),
    });
    lemma_last_setting_decides(first, req.env, j);
}

/// A process on a terminal is told the terminal's name, unless the client sets
/// that variable itself.
pub proof fn law_terminal_has_its_name(plan: LaunchPlan, user: Account, req: RequestView)
    requires
        plan.starts(user, req),
        req.pty is Some,
        forall|i: int| 0 <= i < req.env.len() ==> (#[trigger] req.env[i]).0 != "TERM"@,
    ensures
        ({
            let env = environment(settings(plan.env@));
            env.dom().contains("TERM"@) && env["TERM"@] == encode_utf8(sanitized(req.pty->0.term))
        }),
{
    let first = server_env(user) + seq![("TERM"@, encode_utf8(sanitized(req.pty->0.term)))];
    let more = client_env(req.env);
    lemma_client_names(req.env, "TERM"@);
    lemma_environment_keeps(first, more, "TERM"@);
    assert(first.last() == ("TERM"@, encode_utf8(sanitized(req.pty->0.term))));
    assert(environment(first).dom().contains("TERM"@));
}

/// A variable that was not sent is not set.
proof fn lemma_client_names(env: Seq<(Seq<char>, Seq<char>)>, name: Seq<char>)
    requires
        forall|i: int| 0 <= i < env.len() ==> (#[trigger] env[i]).0 != name,
    ensures
        forall|i: int| 0 <= i < client_env(env).len() ==> (#[trigger] client_env(env)[i]).0 != name,
    decreases env.len(),
{
    if env.len() > 0 {
        let past = env.drop_last();
        assert forall|i: int| 0 <= i < past.len() implies (#[trigger] past[i]).0 != name by {
            assert(past[i] == env[i]);
        }
        lemma_client_names(past, name);
        assert(env[env.len() - 1].0 != name);
        let before = client_env(past);
        assert forall|i: int| 0 <= i < client_env(env).len() implies (#[trigger] client_env(
            env,
        )[i]).0 != name by {
            if i < before.len() {
                assert(client_env(env)[i] == before[i]);
            }
        }
    } else {
        assert(client_env(env).len() == 0);
    }
}

/// What was attempted when a process could not be started.
pub open spec fn attempt(command: Option<Seq<Seq<char>>>, shell: Seq<u8>) -> Seq<char> {
    match command {
        Some(argv) if argv.len() > 0 => "executing `"@ + argv[0] + "`"@,
        _ => "starting login shell `"@ + shown(shell) + "`"@,
    }
}

/// What was attempted when a process could not be started.
pub fn describe(command: &Option<Vec<String>>, shell: &OsPath) -> (out: String)
    ensures
        out@ == attempt(
            match *command {
                Some(argv) => Some(texts(argv@)),
                None => None,
            },
            shell@,
        ),
{
    if let Some(argv) = command {
        if argv.len() > 0 {
            assert(texts(argv@)[0] == argv@[0]@);
            let mut out = "executing `".to_owned();
            out.append(argv[0].as_str());
            out.append("`");
            return out;
        }
    }
    let mut out = "starting login shell `".to_owned();
    out.append(shell.shown().as_str());
    out.append("`");
    out
}

proof fn lemma_server_names_are_not_the_clients()
    ensures
        !env_permitted("PATH"@),
        !env_permitted("HOME"@),
        !env_permitted("USER"@),
        !env_permitted("LOGNAME"@),
        !env_permitted("SHELL"@),
        "PATH"@ != "TERM"@,
        "HOME"@ != "TERM"@,
        "USER"@ != "TERM"@,
        "LOGNAME"@ != "TERM"@,
        "SHELL"@ != "TERM"@,
        "PATH"@ != "HOME"@,
        "PATH"@ != "USER"@,
        "PATH"@ != "LOGNAME"@,
        "PATH"@ != "SHELL"@,
        "HOME"@ != "USER"@,
        "HOME"@ != "LOGNAME"@,
        "HOME"@ != "SHELL"@,
        "USER"@ != "LOGNAME"@,
        "USER"@ != "SHELL"@,
        "LOGNAME"@ != "SHELL"@,
{
    reveal_strlit("PATH");
    reveal_strlit("HOME");
    reveal_strlit("USER");
    reveal_strlit("LOGNAME");
    reveal_strlit("SHELL");
    reveal_strlit("TERM");
    reveal_strlit("LANG");
    reveal_strlit("COLORTERM");
    reveal_strlit("LC_");
    reveal_strlit("QSH_");
    assert("PATH"@[0] == 'P');
    assert("HOME"@[0] == 'H');
    assert("USER"@[0] == 'U');
    assert("LOGNAME"@[0] == 'L' && "LOGNAME"@[1] == 'O');
    assert("SHELL"@[0] == 'S');
    assert("TERM"@[0] == 'T');
    assert("LANG"@[1] == 'A');
    assert("COLORTERM"@[0] == 'C');
    assert("LC_"@[0] == 'L' && "LC_"@[1] == 'C');
    assert("QSH_"@[0] == 'Q');
    assert forall|s: Seq<char>| s.len() > 0 && s[0] != 'L' implies !("LC_"@.is_prefix_of(s)) by {
        if "LC_"@.is_prefix_of(s) {
            assert("LC_"@[0] == s.take(3)[0]);
        }
    }
    assert forall|s: Seq<char>| s.len() > 0 && s[0] != 'Q' implies !("QSH_"@.is_prefix_of(s)) by {
        if "QSH_"@.is_prefix_of(s) {
            assert("QSH_"@[0] == s.take(4)[0]);
        }
    }
    if "LC_"@.is_prefix_of("LOGNAME"@) {
        assert("LC_"@[1] == "LOGNAME"@.take(3)[1]);
    }
}

/// Setting further variables does not touch those with another name.
proof fn lemma_environment_keeps(
    first: Seq<(Seq<char>, Seq<u8>)>,
    more: Seq<(Seq<char>, Seq<u8>)>,
    name: Seq<char>,
)
    requires
        forall|i: int| 0 <= i < more.len() ==> (#[trigger] more[i]).0 != name,
    ensures
        environment(first + more).dom().contains(name) == environment(first).dom().contains(name),
        environment(first).dom().contains(name) ==> environment(first + more)[name]
            == environment(first)[name],
    decreases more.len(),
{
    if more.len() == 0 {
        assert(first + more =~= first);
    } else {
        assert((first + more).drop_last() =~= first + more.drop_last());
        assert((first + more).last() == more.last());
        assert(more[more.len() - 1].0 != name);
        lemma_environment_keeps(first, more.drop_last(), name);
    }
}

proof fn lemma_client_env(env: Seq<(Seq<char>, Seq<char>)>)
    ensures
        forall|i: int|
            0 <= i < client_env(env).len() ==> env_permitted((#[trigger] client_env(env)[i]).0),
        forall|i: int|
            0 <= i < client_env(env).len() && (#[trigger] client_env(env)[i]).0 == "TERM"@
                ==> boring_value(client_env(env)[i].1),
    decreases env.len(),
{
    if env.len() > 0 {
        lemma_client_env(env.drop_last());
        law_terminal_names_are_boring(env.last().1);
        let before = client_env(env.drop_last());
        let all = client_env(env);
        assert forall|i: int| 0 <= i < all.len() implies env_permitted((#[trigger] all[i]).0) && (
        all[i].0 == "TERM"@ ==> boring_value(all[i].1)) by {
            if i < before.len() {
                assert(all[i] == before[i]);
            }
        }
    } else {
        assert(client_env(env).len() == 0);
    }
}

/// What a variable is set to comes from one of the settings.
proof fn lemma_environment_source(settings: Seq<(Seq<char>, Seq<u8>)>, name: Seq<char>)
    requires
        environment(settings).dom().contains(name),
    ensures
        exists|i: int|
            0 <= i < settings.len() && (#[trigger] settings[i]).0 == name && environment(
                settings,
            )[name] == settings[i].1,
    decreases settings.len(),
{
    if settings.last().0 == name {
        assert(settings[settings.len() - 1].0 == name);
    } else {
        lemma_environment_source(settings.drop_last(), name);
        let i = choose|i: int|
            0 <= i < settings.drop_last().len() && (#[trigger] settings.drop_last()[i]).0 == name
                && environment(settings.drop_last())[name] == settings.drop_last()[i].1;
        assert(settings[i].0 == name);
    }
}

/// Whatever the request, the variables that decide what runs and as whom have
/// the server's values: no client can set `PATH`, `HOME`, `USER`, `LOGNAME` or
/// `SHELL`.
pub proof fn law_client_cannot_set_server_variables(user: Account, req: RequestView)
    ensures
        ({
            let env = environment(env_settings(user, req));
            &&& env.dom().contains("PATH"@) && env["PATH"@] == encode_utf8(default_path())
            &&& env.dom().contains("HOME"@) && env["HOME"@] == user.home()
            &&& env.dom().contains("USER"@) && env["USER"@] == encode_utf8(user.name@)
            &&& env.dom().contains("LOGNAME"@) && env["LOGNAME"@] == encode_utf8(user.name@)
            &&& env.dom().contains("SHELL"@) && env["SHELL"@] == user.login_shell()
        }),
{
    lemma_server_names_are_not_the_clients();
    lemma_client_env(req.env);
    let base = server_env(user);
    let more = (match req.pty {
        Some(p) => seq![("TERM"@, encode_utf8(sanitized(p.term)))],
        None => Seq::<(Seq<char>, Seq<u8>)>::empty(),
    }) + client_env(req.env);
    assert(env_settings(user, req) =~= base + more);
    reveal_with_fuel(environment, 6);
    assert(base.drop_last().drop_last().drop_last().drop_last().drop_last() =~= Seq::empty());
    assert(environment(base)["PATH"@] == encode_utf8(default_path()));
    assert(environment(base)["HOME"@] == user.home());
    assert(environment(base)["USER"@] == encode_utf8(user.name@));
    assert(environment(base)["LOGNAME"@] == encode_utf8(user.name@));
    assert(environment(base)["SHELL"@] == user.login_shell());
    assert forall|name: Seq<char>|
        !env_permitted(name) && name != "TERM"@ implies #[trigger] environment(
        base + more,
    ).dom().contains(name) == environment(base).dom().contains(name) && (environment(
        base,
    ).dom().contains(name) ==> environment(base + more)[name] == environment(base)[name]) by {
        assert forall|i: int| 0 <= i < more.len() implies (#[trigger] more[i]).0 != name by {
            let t = more.len() - client_env(req.env).len();
            if i >= t {
                assert(more[i] == client_env(req.env)[i - t]);
            }
        }
        lemma_environment_keeps(base, more, name);
    }
    assert(environment(base + more).dom().contains("PATH"@));
    assert(environment(base + more).dom().contains("HOME"@));
    assert(environment(base + more).dom().contains("USER"@));
    assert(environment(base + more).dom().contains("LOGNAME"@));
    assert(environment(base + more).dom().contains("SHELL"@));
}

/// A remote process sees no variable but the server's five and those that
/// clients are allowed to set; and `TERM`, if it is set at all, is boring.
pub proof fn law_environment_is_scrubbed(user: Account, req: RequestView, name: Seq<char>)
    requires
        environment(env_settings(user, req)).dom().contains(name),
    ensures
        name == "PATH"@ || name == "HOME"@ || name == "USER"@ || name == "LOGNAME"@ || name
            == "SHELL"@ || env_permitted(name),
        name == "TERM"@ ==> boring_value(environment(env_settings(user, req))[name]),
{
    lemma_server_names_are_not_the_clients();
    lemma_client_env(req.env);
    let all = env_settings(user, req);
    lemma_environment_source(all, name);
    let i = choose|i: int|
        0 <= i < all.len() && (#[trigger] all[i]).0 == name && environment(all)[name] == all[i].1;
    let base = server_env(user);
    if i < 5 {
        assert(all[i] == base[i]);
    } else {
        let t = all.len() - client_env(req.env).len();
        if i >= t {
            assert(all[i] == client_env(req.env)[i - t]);
        } else {
            law_terminal_names_are_boring(req.pty->0.term);
        }
    }
}

// ---------------------------------------------------------------------------
// Signals
// ---------------------------------------------------------------------------

/// The process group that signals for the session with this leader go to. The
/// child leads its own group, and the system counts groups from 1.
pub open spec fn group_of(pid: u32) -> Option<i32> {
    if 0 < pid <= i32::MAX {
        Some(pid as i32)
    } else {
        None
    }
}

/// The process group that signals for the session with this leader go to.
pub fn process_group(pid: u32) -> (r: Option<i32>)
    ensures
        r == group_of(pid),
{
    if 0 < pid && pid <= i32::MAX as u32 {
        Some(pid as i32)
    } else {
        None
    }
}

/// The group that a signal for the session with this leader goes to, and the
/// signal, where there is a group and the signal exists.
pub open spec fn delivery(pid: u32, sig: i32) -> Option<(i32, i32)> {
    match group_of(pid) {
        Some(group) => if 1 <= sig <= 31 {
            Some((group, sig))
        } else {
            None
        },
        None => None,
    }
}

/// Every signal that has a name is delivered under its number to the group that
/// the leader of the session leads, and to no other: a number that is no process
/// of the session's is never signalled, nor is anything that is no signal sent.
pub proof fn law_signals_reach_the_job(pid: u32, s: Signal, n: i32)
    requires
        may_number(s, n),
    ensures
        0 < pid <= i32::MAX ==> delivery(pid, n) == Some((pid as i32, n)),
        pid == 0 || pid > i32::MAX ==> delivery(pid, n) is None,
        delivery(pid, 0) is None,
{
}

/// Deliver a signal to a remote process and its whole job: the group that the
/// signal goes to, where there is one and the signal exists.
///
/// The child leads its own process group, so this reaches every process in it,
/// the same reach a terminal has on Ctrl-C. If the group is gone, the numeric
/// pid must not be signalled: it may already belong to an unrelated process.
pub fn signal_process_group(pid: u32, sig: i32) -> (r: Option<(i32, i32)>)
    ensures
        r == delivery(pid, sig),
{
    match process_group(pid) {
        Some(group) => if 1 <= sig && sig <= 31 {
            Some((group, sig))
        } else {
            None
        },
        None => None,
    }
}

} // verus!
