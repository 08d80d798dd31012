//! Optional Linux cgroup v2 containment for one remote session.
//!
//! A child joins its leaf *before* dropping credentials and executing. Moving
//! its PID from the parent after spawn would let a fast program fork outside
//! the leaf. Only root-owned daemon state and a non-root target are accepted:
//! a process with write access to the cgroup tree can migrate itself out.

use vstd::prelude::*;

use crate::crypto::hex_char;
use crate::text::{
    chars_of, decimal, decimal_text, join_texts, joined_by, last_of, lemma_last_of, lines, parts,
    same, slice_text, split_lines, split_parts, starts_with, strip_prefix, texts, without_prefix,
};

verus! {

/// The path of `name` inside `dir`.
pub open spec fn joined(dir: Seq<char>, name: Seq<char>) -> Seq<char> {
    if dir.len() == 0 || dir.last() == '/' {
        dir + name
    } else {
        dir + seq!['/'] + name
    }
}

/// The path of `name`, which is relative, inside `dir`.
pub fn join(dir: &str, name: &str) -> (out: String)
    ensures
        out@ == joined(dir@, name@),
{
    let d = chars_of(dir);
    let mut out = dir.to_owned();
    if d.len() > 0 && d[d.len() - 1] != '/' {
        out.push('/');
    }
    out.append(name);
    assert(out@ =~= joined(dir@, name@));
    out
}

// ---------------------------------------------------------------------------
// Membership
// ---------------------------------------------------------------------------

/// Why the server's cgroup cannot be told.
#[derive(Debug, Clone, Copy, PartialEq, Eq, Structural)]
pub enum MembershipError {
    NotUnified,
    Ambiguous,
    NotAbsolute,
    InvalidComponent,
}

impl MembershipError {
    /// What the error says.
    pub open spec fn text(&self) -> Seq<char> {
        match *self {
            MembershipError::NotUnified =>
                "restricted sessions require the unified cgroup v2 hierarchy"@,
            MembershipError::Ambiguous => "ambiguous unified cgroup membership"@,
            MembershipError::NotAbsolute => "the server's cgroup path is not absolute"@,
            MembershipError::InvalidComponent =>
                "invalid component in the server's cgroup path"@,
        }
    }

    /// What the error says.
    pub fn message(&self) -> (out: String)
        ensures
            out@ == self.text(),
    {
        match self {
            MembershipError::NotUnified =>
                "restricted sessions require the unified cgroup v2 hierarchy".to_owned(),
            MembershipError::Ambiguous => "ambiguous unified cgroup membership".to_owned(),
            MembershipError::NotAbsolute => "the server's cgroup path is not absolute".to_owned(),
            MembershipError::InvalidComponent =>
                "invalid component in the server's cgroup path".to_owned(),
        }
    }
}

/// What follows `0::` on the lines that begin with it.
pub open spec fn unified(ls: Seq<Seq<char>>) -> Seq<Seq<char>>
    decreases ls.len(),
{
    if ls.len() == 0 {
        Seq::empty()
    } else {
        let before = unified(ls.drop_last());
        match without_prefix(ls.last(), "0::"@) {
            Some(path) => before.push(path),
            None => before,
        }
    }
}

/// The parts of a path that name something: neither empty nor a single dot.
pub open spec fn named_parts(ps: Seq<Seq<char>>) -> Seq<Seq<char>>
    decreases ps.len(),
{
    if ps.len() == 0 {
        Seq::empty()
    } else {
        let before = named_parts(ps.drop_last());
        if ps.last().len() == 0 || ps.last() == "."@ {
            before
        } else {
            before.push(ps.last())
        }
    }
}

/// The server's cgroup relative to the mount point, from the contents of
/// `/proc/self/cgroup`: exactly one line names it in the unified hierarchy, by
/// an absolute path that never goes up.
pub open spec fn membership(text: Seq<char>) -> Result<Seq<char>, MembershipError> {
    let found = unified(lines(text));
    if found.len() == 0 {
        Err(MembershipError::NotUnified)
    } else if found.len() > 1 {
        Err(MembershipError::Ambiguous)
    } else if !"/"@.is_prefix_of(found[0]) {
        Err(MembershipError::NotAbsolute)
    } else {
        let names = named_parts(parts(found[0], '/'));
        if names.contains(".."@) {
            Err(MembershipError::InvalidComponent)
        } else {
            Ok(joined_by(names, "/"@))
        }
    }
}

/// The server's cgroup relative to the mount point, from the contents of
/// `/proc/self/cgroup`.
pub fn parse_unified_membership(text: &str) -> (r: Result<String, MembershipError>)
    ensures
        match r {
            Ok(path) => membership(text@) == Ok::<Seq<char>, MembershipError>(path@),
            Err(e) => membership(text@) == Err::<Seq<char>, MembershipError>(e),
        },
{
    let ls = split_lines(text);
    let ghost all = texts(ls@);
    let mut found: Vec<String> = Vec::new();
    let mut i: usize = 0;
    assert(all.take(0) =~= Seq::empty());
    assert(texts(found@) =~= Seq::empty());
    while i < ls.len()
        invariant
            i <= ls@.len(),
            all == texts(ls@),
            texts(found@) == unified(all.take(i as int)),
        decreases ls@.len() - i,
    {
        assert(all.take(i + 1).drop_last() =~= all.take(i as int));
        assert(all.take(i + 1).last() == ls@[i as int]@);
        if let Some(path) = strip_prefix(ls[i].as_str(), "0::") {
            let ghost before = found@;
            found.push(path);
            assert(texts(found@) =~= texts(before).push(path@));
        }
        i += 1;
    }
    assert(all.take(i as int) =~= all);
    assert(texts(found@).len() == found@.len());
    if found.len() == 0 {
        return Err(MembershipError::NotUnified);
    }
    if found.len() > 1 {
        return Err(MembershipError::Ambiguous);
    }
    assert(texts(found@)[0] == found@[0]@);
    if !starts_with(found[0].as_str(), "/") {
        return Err(MembershipError::NotAbsolute);
    }
    let ps = split_parts(found[0].as_str(), '/');
    let ghost pall = texts(ps@);
    let mut names: Vec<String> = Vec::new();
    let mut up = false;
    let mut k: usize = 0;
    assert(pall.take(0) =~= Seq::empty());
    assert(texts(names@) =~= Seq::empty());
    while k < ps.len()
        invariant
            k <= ps@.len(),
            pall == texts(ps@),
            texts(names@) == named_parts(pall.take(k as int)),
            up == texts(names@).contains(".."@),
        decreases ps@.len() - k,
    {
        let p: &str = ps[k].as_str();
        assert(pall.take(k + 1).drop_last() =~= pall.take(k as int));
        assert(pall.take(k + 1).last() == p@);
        if chars_of(p).len() > 0 && !same(p, ".") {
            let ghost before = names@;
            let is_up: bool = same(p, "..");
            names.push(p.to_owned());
            proof {
                assert(texts(names@) =~= texts(before).push(p@));
                if texts(before).contains(".."@) {
                    let j = choose|j: int| 0 <= j < texts(before).len() && texts(before)[j] == ".."@;
                    assert(texts(names@)[j] == ".."@);
                }
                if p@ == ".."@ {
                    assert(texts(names@)[names@.len() - 1] == ".."@);
                }
                if texts(names@).contains(".."@) {
                    let j = choose|j: int| 0 <= j < texts(names@).len() && texts(names@)[j] == ".."@;
                    if j < before.len() {
                        assert(texts(before)[j] == ".."@);
                    }
                }
            }
            up = up || is_up;
        }
        k += 1;
    }
    assert(pall.take(k as int) =~= pall);
    if up {
        return Err(MembershipError::InvalidComponent);
    }
    Ok(join_texts(&names, "/"))
}

// ---------------------------------------------------------------------------
// Ownership
// ---------------------------------------------------------------------------

/// What the system says of a file.
#[derive(Debug, Clone, Copy, PartialEq, Eq, Structural)]
pub struct Stat {
    pub is_dir: bool,
    pub is_file: bool,
    pub uid: u32,
    pub mode: u32,
}

impl Stat {
    /// Does it belong to root, and can nobody else write it?
    pub open spec fn guarded(self) -> bool {
        self.uid == 0 && self.mode & 0o022 == 0
    }
}

/// Insists that a directory of the tree belongs to root and that nobody else
/// can write it.
pub fn require_root_owned(path: &str, stat: Stat) -> (r: Result<(), String>)
    ensures
        match r {
            Ok(()) => stat.is_dir && stat.guarded(),
            Err(why) => !(stat.is_dir && stat.guarded()) && why@ == path@
                + " must be a root-owned cgroup not writable by other users"@,
        },
{
    if !stat.is_dir || stat.uid != 0 || stat.mode & 0o022 != 0 {
        let mut out = path.to_owned();
        out.append(" must be a root-owned cgroup not writable by other users");
        return Err(out);
    }
    Ok(())
}

/// Insists that a control file belongs to root and that nobody else can write
/// it. Even a group write grant not presently held by the target is refused:
/// credentials may change.
pub fn require_root_control(path: &str, stat: Stat) -> (r: Result<(), String>)
    ensures
        match r {
            Ok(()) => stat.is_file && stat.guarded(),
            Err(why) => !(stat.is_file && stat.guarded()) && why@ == path@
                + " must be a root-owned cgroup control not writable by other users"@,
        },
{
    if !stat.is_file || stat.uid != 0 || stat.mode & 0o022 != 0 {
        let mut out = path.to_owned();
        out.append(" must be a root-owned cgroup control not writable by other users");
        return Err(out);
    }
    Ok(())
}

/// What the system says of a directory of the tree and of its controls.
#[derive(Debug, Clone, Copy, PartialEq, Eq, Structural)]
pub struct TreeStat {
    pub dir: Stat,
    pub procs: Stat,
    pub threads: Stat,
    pub kill: Stat,
}

impl TreeStat {
    /// Is the directory root's, with controls that only root can write?
    pub open spec fn held(self) -> bool {
        &&& self.dir.is_dir && self.dir.guarded()
        &&& self.procs.is_file && self.procs.guarded()
        &&& self.threads.is_file && self.threads.guarded()
    }

    /// Is the directory root's alone, with a kill control?
    pub open spec fn private(self) -> bool {
        &&& self.held()
        &&& self.kill.is_file && self.kill.guarded()
        &&& self.dir.mode & 0o077 == 0
    }
}

/// What is wrong with a directory of the tree that must be root's, if anything.
pub open spec fn not_held(path: Seq<char>, stat: TreeStat) -> Option<Seq<char>> {
    if !(stat.dir.is_dir && stat.dir.guarded()) {
        Some(path + " must be a root-owned cgroup not writable by other users"@)
    } else if !(stat.procs.is_file && stat.procs.guarded()) {
        Some(
            joined(path, "cgroup.procs"@)
                + " must be a root-owned cgroup control not writable by other users"@,
        )
    } else if !(stat.threads.is_file && stat.threads.guarded()) {
        Some(
            joined(path, "cgroup.threads"@)
                + " must be a root-owned cgroup control not writable by other users"@,
        )
    } else {
        None
    }
}

/// What is wrong with a directory that must be root's alone, if anything.
pub open spec fn not_private(path: Seq<char>, stat: TreeStat) -> Option<Seq<char>> {
    if not_held(path, stat) is Some {
        not_held(path, stat)
    } else if !(stat.kill.is_file && stat.kill.guarded()) {
        Some(
            joined(path, "cgroup.kill"@)
                + " must be a root-owned cgroup control not writable by other users"@,
        )
    } else if stat.dir.mode & 0o077 != 0 {
        Some(path + " must be private to root (mode 0700)"@)
    } else {
        None
    }
}

/// Insists that nobody but root can move processes in or out of an ancestor of
/// the session's leaf: a target that could write any of them would migrate out
/// of its private leaf after exec.
pub fn require_held(path: &str, stat: &TreeStat) -> (r: Result<(), String>)
    ensures
        r is Ok == stat.held(),
        match r {
            Ok(()) => not_held(path@, *stat) is None,
            Err(why) => not_held(path@, *stat) == Some(why@),
        },
{
    match require_root_owned(path, stat.dir) {
        Ok(()) => {},
        Err(why) => return Err(why),
    }
    match require_root_control(join(path, "cgroup.procs").as_str(), stat.procs) {
        Ok(()) => {},
        Err(why) => return Err(why),
    }
    require_root_control(join(path, "cgroup.threads").as_str(), stat.threads)
}

/// Insists that a directory is root's alone and has a kill control.
pub fn require_private_root(path: &str, stat: &TreeStat) -> (r: Result<(), String>)
    ensures
        r is Ok == stat.private(),
        match r {
            Ok(()) => not_private(path@, *stat) is None,
            Err(why) => not_private(path@, *stat) == Some(why@),
        },
{
    match require_held(path, stat) {
        Ok(()) => {},
        Err(why) => return Err(why),
    }
    match require_root_control(join(path, "cgroup.kill").as_str(), stat.kill) {
        Ok(()) => {},
        Err(why) => return Err(why),
    }
    if stat.dir.mode & 0o077 != 0 {
        let mut out = path.to_owned();
        out.append(" must be private to root (mode 0700)");
        return Err(out);
    }
    Ok(())
}

/// The magic number of the cgroup v2 filesystem. Checking a file name alone
/// would also accept an ordinary bind mount with fake cgroup controls.
pub const CGROUP2_MAGIC: i64 = 0x63677270;

/// Insists that a path lies on the cgroup v2 filesystem.
pub fn require_cgroup2(path: &str, fs_type: i64) -> (r: Result<(), String>)
    ensures
        match r {
            Ok(()) => fs_type == CGROUP2_MAGIC,
            Err(why) => fs_type != CGROUP2_MAGIC && why@ == path@
                + " is not on a cgroup v2 filesystem"@,
        },
{
    if fs_type != CGROUP2_MAGIC {
        let mut out = path.to_owned();
        out.append(" is not on a cgroup v2 filesystem");
        return Err(out);
    }
    Ok(())
}

/// May a session of this account be contained at all?
pub fn check_target(server_uid: u32, target_uid: u32) -> (r: Result<(), String>)
    ensures
        match r {
            Ok(()) => server_uid == 0 && target_uid != 0,
            Err(why) => if server_uid != 0 {
                why@ == "restricted sessions require qsh-server to run as root"@
            } else {
                target_uid == 0 && why@
                    == "restricted sessions cannot constrain a root login"@
            },
        },
{
    if server_uid != 0 {
        return Err("restricted sessions require qsh-server to run as root".to_owned());
    }
    if target_uid == 0 {
        return Err("restricted sessions cannot constrain a root login".to_owned());
    }
    Ok(())
}

// ---------------------------------------------------------------------------
// The service's place in the tree
// ---------------------------------------------------------------------------

/// The beginning of every path below `mount`. The root directory has its slash
/// already.
pub open spec fn beginning(mount: Seq<char>) -> Seq<char> {
    if mount.len() > 0 && mount.last() == '/' {
        mount
    } else {
        mount + "/"@
    }
}

/// Does `path` lie at or below `mount`? Both are absolute and in canonical form.
pub open spec fn below(mount: Seq<char>, path: Seq<char>) -> bool {
    path == mount || beginning(mount).is_prefix_of(path)
}

/// Does `path` lie at or below `mount`? Both are absolute and in canonical form.
pub fn is_below(mount: &str, path: &str) -> (r: bool)
    ensures
        r == below(mount@, path@),
{
    if same(path, mount) {
        return true;
    }
    let m = chars_of(mount);
    let mut start = mount.to_owned();
    if m.len() == 0 || m[m.len() - 1] != '/' {
        start.append("/");
    }
    starts_with(path, start.as_str())
}

/// The directory that holds `path`; `cut` is the place of its last slash.
pub open spec fn holder(path: Seq<char>, cut: int) -> Seq<char> {
    if cut == 0 {
        "/"@
    } else {
        path.take(cut)
    }
}

/// The directories from `path` up to `mount`, both included.
pub open spec fn chain(mount: Seq<char>, path: Seq<char>) -> Seq<Seq<char>>
    decreases path.len(),
{
    let cut = last_of(path, '/');
    if path == mount || !below(mount, path) || cut < 0 || holder(path, cut).len() >= path.len() {
        seq![path]
    } else {
        seq![path] + chain(mount, holder(path, cut))
    }
}

/// The directories that must be root's so that a session below `path` cannot
/// leave: those from `path` up to the mount point. None where `path` lies
/// outside it.
pub fn service_chain(mount: &str, path: &str) -> (r: Option<Vec<String>>)
    ensures
        match r {
            Some(dirs) => below(mount@, path@) && texts(dirs@) == chain(mount@, path@),
            None => !below(mount@, path@),
        },
{
    if !is_below(mount, path) {
        return None;
    }
    let mut out: Vec<String> = Vec::new();
    let mut here: String = path.to_owned();
    assert(texts(out@) + chain(mount@, path@) =~= chain(mount@, path@));
    loop
        invariant
            texts(out@) + chain(mount@, here@) == chain(mount@, path@),
            below(mount@, path@),
        decreases here@.len(),
    {
        let ghost before = out@;
        out.push(here.clone());
        assert(texts(out@) =~= texts(before).push(here@));
        let h = chars_of(here.as_str());
        let mut cut: usize = h.len();
        let mut found = false;
        assert(h@.take(cut as int) =~= h@);
        while cut > 0 && !found
            invariant
                cut <= h@.len(),
                h@ == here@,
                !found ==> last_of(h@, '/') == last_of(h@.take(cut as int), '/'),
                found ==> cut < h@.len() && last_of(h@, '/') == cut,
            decreases cut,
        {
            assert(h@.take(cut as int).drop_last() =~= h@.take(cut - 1));
            assert(h@.take(cut as int).last() == h@[cut - 1]);
            cut -= 1;
            if h[cut] == '/' {
                found = true;
            }
        }
        let up = if cut == 0 {
            "/".to_owned()
        } else {
            slice_text(&h, 0, cut)
        };
        proof {
            reveal_strlit("/");
            if cut > 0 {
                assert(up@ =~= here@.take(cut as int));
            }
            if found {
                assert(up@ == holder(here@, cut as int));
            }
        }
        let higher: bool = chars_of(up.as_str()).len() < h.len();
        if same(here.as_str(), mount) || !is_below(mount, here.as_str()) || !found || !higher {
            assert(chain(mount@, here@) =~= seq![here@]);
            assert(texts(out@) =~= texts(before) + chain(mount@, here@));
            return Some(out);
        }
        assert(chain(mount@, here@) == seq![here@] + chain(mount@, up@));
        assert(texts(out@) + chain(mount@, up@) =~= texts(before) + chain(mount@, here@));
        here = up;
    }
}

/// Every directory between the service's cgroup and the mount point is among
/// those that must be root's, the mount point too. In canonical form only the
/// root directory ends in a slash.
pub proof fn law_every_ancestor_is_checked(mount: Seq<char>, path: Seq<char>)
    requires
        below(mount, path),
        mount.len() > 0,
        mount.last() == '/' ==> mount.len() == 1,
    ensures
        chain(mount, path)[0] == path,
        chain(mount, path).last() == mount,
        forall|i: int|
            0 <= i < chain(mount, path).len() ==> below(mount, #[trigger] chain(mount, path)[i]),
    decreases path.len(),
{
    reveal_strlit("/");
    let cut = last_of(path, '/');
    lemma_last_of(path, '/');
    if path != mount {
        let m = beginning(mount);
        let n = m.len() as int;
        assert(path.take(n) =~= m);
        assert(path[n - 1] == path.take(n)[n - 1]);
        assert(path[n - 1] == '/');
        assert(cut >= n - 1);
        let up = holder(path, cut);
        if cut == 0 {
            assert(mount =~= "/"@);
            if path.len() == 1 {
                assert(path =~= mount);
            }
        } else if mount.last() == '/' {
            assert(mount =~= "/"@);
            assert(up.take(1) =~= path.take(1));
        } else if cut == mount.len() {
            assert(up =~= path.take(n).take(mount.len() as int));
            assert(m.take(mount.len() as int) =~= mount);
        } else {
            assert(up.take(n) =~= path.take(n));
        }
        assert(below(mount, up));
        law_every_ancestor_is_checked(mount, up);
        let rest = chain(mount, up);
        assert(chain(mount, path) == seq![path] + rest);
        assert forall|i: int| 0 <= i < chain(mount, path).len() implies below(
            mount,
            #[trigger] chain(mount, path)[i],
        ) by {
            if i > 0 {
                assert(chain(mount, path)[i] == rest[i - 1]);
            }
        }
    }
}

/// The last `k` hexadecimal digits of `n`, in lower case.
pub open spec fn hex_digits(n: nat, k: nat) -> Seq<char>
    decreases k,
{
    if k == 0 {
        Seq::empty()
    } else {
        hex_digits(n / 16, (k - 1) as nat).push(hex_char((n % 16) as int))
    }
}

fn hex_text(n: u64, k: u32) -> (out: String)
    ensures
        out@ == hex_digits(n as nat, k as nat),
    decreases k,
{
    if k == 0 {
        let out = String::new();
        assert(out@ =~= Seq::empty());
        return out;
    }
    let mut out = hex_text(n / 16, k - 1);
    let d: u8 = (n % 16) as u8;
    let c: char = if d < 10 {
        (48 + d) as char
    } else {
        (97 + (d - 10)) as char
    };
    out.push(c);
    out
}

/// Can `n` be written with `k` hexadecimal digits?
spec fn fits_in(n: nat, k: nat) -> bool
    decreases k,
{
    if k == 0 {
        n == 0
    } else {
        fits_in(n / 16, (k - 1) as nat)
    }
}

proof fn lemma_hex_digits_tell_apart(a: nat, b: nat, k: nat)
    requires
        fits_in(a, k),
        fits_in(b, k),
        hex_digits(a, k) == hex_digits(b, k),
    ensures
        a == b,
    decreases k,
{
    if k > 0 {
        let m = (k - 1) as nat;
        assert(hex_digits(a, k).last() == hex_char((a % 16) as int));
        assert(hex_digits(b, k).last() == hex_char((b % 16) as int));
        assert(hex_digits(a, k).drop_last() =~= hex_digits(a / 16, m));
        assert(hex_digits(b, k).drop_last() =~= hex_digits(b / 16, m));
        lemma_hex_digits_tell_apart(a / 16, b / 16, m);
    }
}

/// The name of the leaf for the `number`-th session of the server with this pid.
pub open spec fn leaf(pid: u32, number: u64) -> Seq<char> {
    "session-"@ + decimal(pid as nat) + "-"@ + hex_digits(number as nat, 16)
}

/// No two sessions of a server get a leaf of the same name.
pub proof fn law_leaf_names_differ(pid: u32, a: u64, b: u64)
    requires
        a != b,
    ensures
        leaf(pid, a) != leaf(pid, b),
{
    reveal_with_fuel(fits_in, 17);
    assert(fits_in(a as nat, 16));
    assert(fits_in(b as nat, 16));
    let opening = "session-"@ + decimal(pid as nat) + "-"@;
    assert(leaf(pid, a).skip(opening.len() as int) =~= hex_digits(a as nat, 16));
    assert(leaf(pid, b).skip(opening.len() as int) =~= hex_digits(b as nat, 16));
    if leaf(pid, a) == leaf(pid, b) {
        lemma_hex_digits_tell_apart(a as nat, b as nat, 16);
    }
}

/// The name of the leaf for the `number`-th session of the server with this pid.
pub fn leaf_name(pid: u32, number: u64) -> (out: String)
    ensures
        out@ == leaf(pid, number),
{
    let mut out = "session-".to_owned();
    out.append(decimal_text(pid as u64).as_str());
    out.append("-");
    out.append(hex_text(number, 16).as_str());
    out
}

/// How often a fresh leaf is tried.
pub const LEAF_ATTEMPTS: u32 = 32;

/// How often removing a leaf is tried.
pub const REMOVE_ATTEMPTS: u32 = 80;

/// How long to wait between two attempts to remove a leaf, in milliseconds.
pub const REMOVE_WAIT_MILLIS: u64 = 25;

/// The directory below the service's own group that holds the leaves.
pub const PRIVATE_ROOT: &'static str = "qsh-restricted";

/// What came of an attempt to create a leaf.
#[derive(Debug, Clone, Copy, PartialEq, Eq, Structural)]
pub enum LeafAttempt {
    Created,
    AlreadyExists,
    Failed,
}

/// What to do after an attempt to create a leaf.
#[derive(Debug, Clone, Copy, PartialEq, Eq, Structural)]
pub enum LeafStep {
    /// Use the leaf.
    Use,
    /// Try another name.
    Again,
    /// Report the failure.
    Fail,
    /// No name was free.
    GiveUp,
}

/// What follows the `attempt`-th attempt, counted from 0, to create a leaf.
pub open spec fn leaf_step(attempt: u32, outcome: LeafAttempt) -> LeafStep {
    match outcome {
        LeafAttempt::Created => LeafStep::Use,
        LeafAttempt::Failed => LeafStep::Fail,
        LeafAttempt::AlreadyExists => if attempt < LEAF_ATTEMPTS - 1 {
            LeafStep::Again
        } else {
            LeafStep::GiveUp
        },
    }
}

/// What to do after the `attempt`-th attempt, counted from 0, to create a leaf.
pub fn after_create(attempt: u32, outcome: LeafAttempt) -> (step: LeafStep)
    ensures
        step == leaf_step(attempt, outcome),
{
    match outcome {
        LeafAttempt::Created => LeafStep::Use,
        LeafAttempt::Failed => LeafStep::Fail,
        LeafAttempt::AlreadyExists => if attempt < LEAF_ATTEMPTS - 1 {
            LeafStep::Again
        } else {
            LeafStep::GiveUp
        },
    }
}

/// What came of an attempt to remove a leaf.
#[derive(Debug, Clone, Copy, PartialEq, Eq, Structural)]
pub enum RemoveAttempt {
    Removed,
    NotFound,
    /// There are still processes in it.
    Populated,
    Failed,
}

/// What to do after an attempt to remove a leaf.
#[derive(Debug, Clone, Copy, PartialEq, Eq, Structural)]
pub enum RemoveStep {
    /// The leaf is gone.
    Gone,
    /// Wait a little and try again.
    Wait,
    /// Report the failure.
    Fail,
}

/// A leaf containing the direct process tree of one restricted session.
#[derive(Debug, Clone, Copy, PartialEq, Eq, Structural)]
pub struct SessionCgroup {
    pub killed: bool,
    pub removed: bool,
    pub open: bool,
}

/// What killing a leaf takes.
#[derive(Debug, Clone, Copy, PartialEq, Eq, Structural)]
pub enum KillStep {
    /// It was killed before.
    Nothing,
    /// Write to its kill control.
    Write,
    /// Its kill control is closed.
    Closed,
}

impl SessionCgroup {
    /// What killing every process in this leaf takes.
    pub open spec fn killing(self) -> KillStep {
        if self.killed {
            KillStep::Nothing
        } else if self.open {
            KillStep::Write
        } else {
            KillStep::Closed
        }
    }

    /// The leaf once its kill control was written, or was not.
    pub open spec fn written(self, ok: bool) -> SessionCgroup {
        SessionCgroup { killed: self.killed || ok, ..self }
    }

    /// The leaf once closing it was tried.
    pub open spec fn closed_up(self) -> SessionCgroup {
        if self.killed {
            SessionCgroup { open: false, ..self }
        } else {
            self
        }
    }

    /// What follows the `attempt`-th attempt, counted from 0, to remove a leaf.
    pub open spec fn removing(attempt: u32, outcome: RemoveAttempt) -> RemoveStep {
        match outcome {
            RemoveAttempt::Removed => RemoveStep::Gone,
            RemoveAttempt::NotFound => RemoveStep::Gone,
            RemoveAttempt::Populated => if attempt < REMOVE_ATTEMPTS - 1 {
                RemoveStep::Wait
            } else {
                RemoveStep::Fail
            },
            RemoveAttempt::Failed => RemoveStep::Fail,
        }
    }

    /// A fresh leaf with its controls open.
    pub fn new() -> (leaf: SessionCgroup)
        ensures
            leaf == (SessionCgroup { killed: false, removed: false, open: true }),
    {
        SessionCgroup { killed: false, removed: false, open: true }
    }

    /// What killing every process still in this leaf and its descendants takes.
    pub fn kill(&self) -> (step: KillStep)
        ensures
            step == self.killing(),
    {
        if self.killed {
            KillStep::Nothing
        } else if self.open {
            KillStep::Write
        } else {
            KillStep::Closed
        }
    }

    /// Records what came of writing to the kill control. Only an accepted write
    /// counts: the caller must not present a successful session ending
    /// otherwise.
    pub fn kill_written(&mut self, ok: bool)
        ensures
            *final(self) == old(self).written(ok),
    {
        self.killed = self.killed || ok;
    }

    /// Closes the controls of a leaf, which must have been killed before.
    pub fn close(&mut self) -> (r: bool)
        ensures
            r == old(self).killed,
            *final(self) == old(self).closed_up(),
    {
        if self.killed {
            self.open = false;
            true
        } else {
            false
        }
    }

    /// What to do after the `attempt`-th attempt, counted from 0, to remove the
    /// leaf. A leaf that stays populated is reported after the last.
    pub fn remove_empty(&mut self, attempt: u32, outcome: RemoveAttempt) -> (step: RemoveStep)
        ensures
            step == Self::removing(attempt, outcome),
            *final(self) == (SessionCgroup {
                removed: old(self).removed || step is Gone,
                ..*old(self)
            }),
    {
        match outcome {
            RemoveAttempt::Removed => {
                self.removed = true;
                RemoveStep::Gone
            },
            RemoveAttempt::NotFound => {
                self.removed = true;
                RemoveStep::Gone
            },
            RemoveAttempt::Populated => if attempt < REMOVE_ATTEMPTS - 1 {
                RemoveStep::Wait
            } else {
                RemoveStep::Fail
            },
            RemoveAttempt::Failed => RemoveStep::Fail,
        }
    }
}

/// What came of writing one byte to `cgroup.procs` between fork and exec.
#[derive(Debug, Clone, Copy, PartialEq, Eq, Structural)]
pub enum JoinStep {
    /// The child is in the leaf.
    Joined,
    /// The write was interrupted: write again.
    Again,
    /// Report the system's error.
    Fail,
    /// Nothing was written: report an input/output error.
    FailIo,
}

/// What follows a write to `cgroup.procs` that returned `written`.
pub open spec fn joining(written: isize, interrupted: bool) -> JoinStep {
    if written == 1 {
        JoinStep::Joined
    } else if written >= 0 {
        JoinStep::FailIo
    } else if interrupted {
        JoinStep::Again
    } else {
        JoinStep::Fail
    }
}

/// Attach the forked child before it can execute or fork again: what to do
/// after a write that returned `written`.
pub fn join_pre_exec(written: isize, interrupted: bool) -> (step: JoinStep)
    ensures
        step == joining(written, interrupted),
{
    if written == 1 {
        JoinStep::Joined
    } else if written >= 0 {
        JoinStep::FailIo
    } else if interrupted {
        JoinStep::Again
    } else {
        JoinStep::Fail
    }
}

// ---------------------------------------------------------------------------
// What it all comes to
// ---------------------------------------------------------------------------

/// A line of the unified hierarchy is one that begins with `0::`: where there is
/// exactly one, what follows is what counts, wherever it stands.
pub proof fn law_unified_line_is_found(ls: Seq<Seq<char>>, i: int, path: Seq<char>)
    requires
        0 <= i < ls.len(),
        ls[i] == "0::"@ + path,
        forall|j: int|
            0 <= j < ls.len() && j != i ==> (#[trigger] ls[j]).len() < 3 || ls[j].take(3)
                != "0::"@,
    ensures
        unified(ls) == seq![path],
    decreases ls.len(),
{
    reveal_strlit("0::");
    let past = ls.drop_last();
    let last = ls.len() - 1;
    if i == last {
        assert forall|j: int| 0 <= j < past.len() implies (#[trigger] past[j]).len() < 3
            || past[j].take(3) != "0::"@ by {
            assert(past[j] == ls[j]);
        }
        law_other_lines_do_not_count(past);
        assert(ls.last().take(3) =~= "0::"@);
        assert(ls.last().skip(3) =~= path);
        assert(unified(ls) =~= seq![path]);
    } else {
        assert(past[i] == ls[i]);
        assert forall|j: int| 0 <= j < past.len() && j != i implies (#[trigger] past[j]).len() < 3
            || past[j].take(3) != "0::"@ by {
            assert(past[j] == ls[j]);
        }
        law_unified_line_is_found(past, i, path);
        assert(ls[last] == ls.last());
    }
}

/// Lines that begin otherwise do not count.
pub proof fn law_other_lines_do_not_count(ls: Seq<Seq<char>>)
    requires
        forall|j: int|
            0 <= j < ls.len() ==> (#[trigger] ls[j]).len() < 3 || ls[j].take(3) != "0::"@,
    ensures
        unified(ls).len() == 0,
    decreases ls.len(),
{
    reveal_strlit("0::");
    if ls.len() > 0 {
        let past = ls.drop_last();
        assert forall|j: int| 0 <= j < past.len() implies (#[trigger] past[j]).len() < 3
            || past[j].take(3) != "0::"@ by {
            assert(past[j] == ls[j]);
        }
        law_other_lines_do_not_count(past);
        assert(ls[ls.len() - 1] == ls.last());
    }
}

/// Where a path consists of names alone, all of them are kept, in order.
pub proof fn law_names_are_kept(names: Seq<Seq<char>>)
    requires
        forall|i: int|
            0 <= i < names.len() ==> (#[trigger] names[i]).len() > 0 && names[i] != "."@,
    ensures
        named_parts(names) == names,
        named_parts(seq![Seq::<char>::empty()] + names) == names,
    decreases names.len(),
{
    let rooted = seq![Seq::<char>::empty()] + names;
    if names.len() > 0 {
        let past = names.drop_last();
        assert forall|i: int| 0 <= i < past.len() implies (#[trigger] past[i]).len() > 0 && past[i]
            != "."@ by {
            assert(past[i] == names[i]);
        }
        law_names_are_kept(past);
        assert(names[names.len() - 1] == names.last());
        assert(rooted.drop_last() =~= seq![Seq::<char>::empty()] + past);
        assert(rooted.last() == names.last());
        assert(past.push(names.last()) =~= names);
    } else {
        assert(rooted.drop_last() =~= Seq::empty());
        assert(named_parts(rooted.drop_last()) =~= Seq::empty());
        assert(rooted.last().len() == 0);
        assert(named_parts(rooted) =~= names);
    }
}

/// A path that goes up anywhere is refused; and one that is accepted has no part
/// that goes up.
pub proof fn law_going_up_is_noticed(ps: Seq<Seq<char>>)
    ensures
        named_parts(ps).contains(".."@) <==> exists|i: int|
            0 <= i < ps.len() && #[trigger] ps[i] == ".."@,
    decreases ps.len(),
{
    reveal_strlit(".");
    reveal_strlit("..");
    assert(".."@.len() == 2 && "."@.len() == 1);
    if ps.len() > 0 {
        let past = ps.drop_last();
        let last = ps.len() - 1;
        law_going_up_is_noticed(past);
        let before = named_parts(past);
        if before.contains(".."@) {
            let k = choose|k: int| 0 <= k < before.len() && before[k] == ".."@;
            assert(named_parts(ps)[k] == ".."@);
            let i = choose|i: int| 0 <= i < past.len() && #[trigger] past[i] == ".."@;
            assert(ps[i] == ".."@);
        }
        if ps[last] == ".."@ {
            assert(named_parts(ps)[before.len() as int] == ".."@);
        } else {
            if named_parts(ps).contains(".."@) {
                let k = choose|k: int|
                    0 <= k < named_parts(ps).len() && named_parts(ps)[k] == ".."@;
                assert(before[k] == ".."@);
            }
            if exists|i: int| 0 <= i < ps.len() && #[trigger] ps[i] == ".."@ {
                let i = choose|i: int| 0 <= i < ps.len() && #[trigger] ps[i] == ".."@;
                assert(past[i] == ".."@);
            }
        }
    }
}

/// The server's cgroup is the path on the one line of the unified hierarchy: its
/// names, in order, without the slash in front. A path that does not begin at the
/// root, or that goes up, is refused, and so is a system without such a line.
pub proof fn law_membership(
    text: Seq<char>,
    i: int,
    path: Seq<char>,
    names: Seq<Seq<char>>,
)
    requires
        0 <= i < lines(text).len(),
        lines(text)[i] == "0::"@ + path,
        forall|j: int|
            0 <= j < lines(text).len() && j != i ==> (#[trigger] lines(text)[j]).len() < 3
                || lines(text)[j].take(3) != "0::"@,
    ensures
        path.len() == 0 || path[0] != '/' ==> membership(text) == Err::<Seq<char>, MembershipError>(
            MembershipError::NotAbsolute,
        ),
        path.len() > 0 && path[0] == '/' && parts(path, '/') == seq![Seq::<char>::empty()] + names
            && (forall|k: int|
            0 <= k < names.len() ==> (#[trigger] names[k]).len() > 0 && names[k] != "."@)
            ==> membership(text) == (if names.contains(".."@) {
            Err(MembershipError::InvalidComponent)
        } else {
            Ok(joined_by(names, "/"@))
        }),
{
    reveal_strlit("/");
    law_unified_line_is_found(lines(text), i, path);
    if path.len() > 0 && path[0] == '/' {
        assert(path.take(1) =~= "/"@);
        if parts(path, '/') == seq![Seq::<char>::empty()] + names && (forall|k: int|
            0 <= k < names.len() ==> (#[trigger] names[k]).len() > 0 && names[k] != "."@) {
            law_names_are_kept(names);
        }
    } else if "/"@.is_prefix_of(path) {
        assert(path.take(1)[0] == path[0]);
        assert("/"@[0] == '/');
    }
}

/// A file is guarded exactly if it is root's and neither its group nor anybody
/// else may write it; whether they may read it does not matter.
pub proof fn law_guarded_files(stat: Stat)
    ensures
        stat.guarded() <==> stat.uid == 0 && stat.mode / 2 % 2 == 0 && stat.mode / 16 % 2 == 0,
{
    let mode = stat.mode;
    assert(mode & 0o022 == 0 <==> mode / 2 % 2 == 0 && mode / 16 % 2 == 0) by (bit_vector);
}

/// What is accepted as a place for sessions has a directory and controls that
/// only root can change, each of them; and whatever is so is accepted.
pub proof fn law_what_must_be_roots(path: Seq<char>, stat: TreeStat)
    ensures
        stat.held() <==> not_held(path, stat) is None,
        stat.private() <==> not_private(path, stat) is None,
        not_held(path, stat) is None <==> {
            &&& stat.dir.is_dir && stat.dir.guarded()
            &&& stat.procs.is_file && stat.procs.guarded()
            &&& stat.threads.is_file && stat.threads.guarded()
        },
        not_private(path, stat) is None <==> {
            &&& stat.dir.is_dir && stat.dir.guarded()
            &&& stat.procs.is_file && stat.procs.guarded()
            &&& stat.threads.is_file && stat.threads.guarded()
            &&& stat.kill.is_file && stat.kill.guarded()
            &&& stat.dir.mode % 64 == 0
        },
{
    let mode = stat.dir.mode;
    assert(mode & 0o077 == 0 <==> mode % 64 == 0) by (bit_vector);
}

/// A leaf that was created is used, and nothing else is. A name that is taken is
/// no failure: another one is tried, thirty-two in all.
pub proof fn law_leaf_is_found(attempt: u32, outcome: LeafAttempt)
    ensures
        leaf_step(attempt, outcome) is Use <==> outcome is Created,
        outcome is Failed ==> leaf_step(attempt, outcome) is Fail,
        outcome is AlreadyExists && attempt + 1 < 32 ==> leaf_step(attempt, outcome) is Again,
        outcome is AlreadyExists && attempt + 1 >= 32 ==> leaf_step(attempt, outcome) is GiveUp,
{
}

/// A leaf is killed once: it counts as killed only if the write was accepted,
/// once it is there is nothing to do, and only then can it be closed. Until then
/// killing it can be tried again.
pub proof fn law_leaf_is_killed_before_it_is_closed(leaf: SessionCgroup, ok: bool)
    ensures
        leaf.written(ok).killed <==> leaf.killed || ok,
        leaf.written(ok).open == leaf.open,
        leaf.written(true).killing() is Nothing,
        leaf.open && !leaf.killed ==> leaf.written(false).killing() is Write,
        leaf.open && !leaf.closed_up().open ==> leaf.killed,
        leaf.killed ==> !leaf.closed_up().open,
        leaf.closed_up().killed == leaf.killed,
        leaf.closed_up().removed == leaf.removed,
{
}

/// Removing a leaf ends once it is gone, by whatever hand; while there are
/// processes in it that is tried again, for eighty attempts.
pub proof fn law_leaf_is_removed(attempt: u32, outcome: RemoveAttempt)
    ensures
        SessionCgroup::removing(attempt, outcome) is Gone <==> outcome is Removed
            || outcome is NotFound,
        SessionCgroup::removing(attempt, outcome) is Wait <==> outcome is Populated && attempt + 1
            < 80,
{
}

/// The child goes on to execute only once the kernel has taken the one byte; an
/// interrupted write is repeated, and anything else stops it.
pub proof fn law_child_joins_first(written: isize, interrupted: bool)
    ensures
        joining(written, interrupted) is Joined <==> written == 1,
        joining(written, interrupted) is Again <==> written < 0 && interrupted,
        joining(written, interrupted) is Fail <==> written < 0 && !interrupted,
{
}

} // verus!
