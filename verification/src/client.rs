//! The client's decisions: which address to try, which host key to trust, what
//! to ask the server for, and what to make of its replies.

use vstd::prelude::*;

use crate::config::{opt, pin_of, updated, without_host, KnownHosts, Trust};
use crate::crypto::{certificate, check_validity, hex, validity, CertificateError, Fingerprint};
use crate::order::{lemma_lex_reflexive, lemma_lex_total, lex_le, lex_lt};
use crate::path::{shown, OsPath};
use crate::proto::{
    pairs, ExitStatus, Frame, FrameView, PtyRequest, PtyRequestView, PtySize, Request, RequestView,
    PROTOCOL_VERSION,
};
use crate::server::{bounded, refusal_reply};
use crate::session::{reaped_at, Control, ControlEvent, ControlStepView, Event, Session};
use crate::text::{
    chars_of, contains_text, copy_texts, decimal, decimal_text, occurs, same, slice_text,
    split_words, texts, words,
};

verus! {

/// What to do when the host is not in `known_hosts` yet.
#[derive(Debug, Clone, Copy, PartialEq, Eq, Structural)]
pub enum HostKeyPolicy {
    /// Ask on the terminal (the default).
    Ask,
    /// Pin silently. Convenient for scripts, trusting the first connection.
    AcceptNew,
    /// Never pin automatically.
    Refuse,
}

/// Which IP families the client may use.
#[derive(Debug, Clone, Copy, PartialEq, Eq, Structural)]
pub enum AddressFamily {
    Any,
    V4,
    V6,
}

impl Default for AddressFamily {
    fn default() -> (f: AddressFamily)
        ensures
            f is Any,
    {
        AddressFamily::Any
    }
}

/// Idle timeout for an established session. QUIC uses the lower of the two
/// peers' values, so this only matters if the server's is higher.
pub const IDLE_TIMEOUT_SECS: u64 = 60;

/// Keep-alive interval for an established session.
pub const KEEPALIVE_SECS: u64 = 15;

/// Default deadline for reaching one address.
pub const DEFAULT_CONNECT_TIMEOUT_SECS: u64 = 10;

/// Whether the session should get a terminal.
#[derive(Debug, Clone, Copy, PartialEq, Eq, Structural)]
pub enum PtyPolicy {
    /// A terminal for interactive shells, none for commands, like ssh.
    Auto,
    Force,
    Never,
}

/// Everything needed to run one client session.
#[derive(Debug, Clone)]
pub struct Options {
    pub host: String,
    pub port: u16,
    pub user: Option<String>,
    pub command: Option<Vec<String>>,
    pub pty: PtyPolicy,
    pub env: Vec<(String, String)>,
    pub host_key_policy: HostKeyPolicy,
    pub paths_dir: Option<OsPath>,
    pub quiet: bool,
    pub no_stdin: bool,
    pub family: AddressFamily,
    pub connect_timeout_secs: u64,
}

// ---------------------------------------------------------------------------
// Quoting
// ---------------------------------------------------------------------------

/// `value` with each apostrophe closed, quoted and opened again.
pub open spec fn escaped(value: Seq<char>) -> Seq<char>
    decreases value.len(),
{
    if value.len() == 0 {
        Seq::empty()
    } else {
        (if value[0] == '\'' {
            seq!['\'', '"', '\'', '"', '\'']
        } else {
            seq![value[0]]
        }) + escaped(value.drop_first())
    }
}

/// `value` as one word of a shell command.
pub open spec fn quoted(value: Seq<char>) -> Seq<char> {
    seq!['\''] + escaped(value) + seq!['\'']
}

/// `value` as one word of a shell command. Commands in diagnostics must preserve
/// spaces and apostrophes in identity paths.
pub fn shell_quote(value: &str) -> (out: String)
    ensures
        out@ == quoted(value@),
{
    let v = chars_of(value);
    let mut out = String::new();
    out.push('\'');
    let mut i: usize = 0;
    assert(value@.skip(0) =~= value@);
    assert(out@ + escaped(value@.skip(0)) =~= seq!['\''] + escaped(value@));
    while i < v.len()
        invariant
            i <= v@.len(),
            v@ == value@,
            out@ + escaped(value@.skip(i as int)) == seq!['\''] + escaped(value@),
        decreases v@.len() - i,
    {
        let ghost before = out@;
        let ghost rest = value@.skip(i as int);
        assert(rest[0] == v@[i as int]);
        assert(rest.drop_first() =~= value@.skip(i + 1));
        if v[i] == '\'' {
            out.push('\'');
            out.push('"');
            out.push('\'');
            out.push('"');
            out.push('\'');
            assert(out@ =~= before + seq!['\'', '"', '\'', '"', '\'']);
        } else {
            out.push(v[i]);
            assert(out@ =~= before + seq![v@[i as int]]);
        }
        i += 1;
        assert(out@ + escaped(value@.skip(i as int)) =~= before + escaped(rest));
    }
    assert(value@.skip(i as int) =~= Seq::empty());
    out.push('\'');
    assert(out@ =~= quoted(value@));
    out
}

/// Where a shell stands while it reads a word.
pub enum Quoting {
    Plain,
    Single,
    Double,
}

/// The word that a shell makes of `s`: apostrophes quote everything up to the
/// next one, double quotes quote everything but what is special within them.
/// Nothing unquoted, special or unclosed is read.
pub open spec fn shell_word(s: Seq<char>, mode: Quoting) -> Option<Seq<char>>
    decreases s.len(),
{
    if s.len() == 0 {
        if mode is Plain {
            Some(Seq::empty())
        } else {
            None
        }
    } else {
        let rest = s.drop_first();
        match mode {
            Quoting::Plain => if s[0] == '\'' {
                shell_word(rest, Quoting::Single)
            } else if s[0] == '"' {
                shell_word(rest, Quoting::Double)
            } else {
                None
            },
            Quoting::Single => if s[0] == '\'' {
                shell_word(rest, Quoting::Plain)
            } else {
                match shell_word(rest, Quoting::Single) {
                    Some(w) => Some(seq![s[0]] + w),
                    None => None,
                }
            },
            Quoting::Double => if s[0] == '"' {
                shell_word(rest, Quoting::Plain)
            } else if s[0] == '\\' || s[0] == '$' || s[0] == '`' || s[0] == '!' {
                None
            } else {
                match shell_word(rest, Quoting::Double) {
                    Some(w) => Some(seq![s[0]] + w),
                    None => None,
                }
            },
        }
    }
}

proof fn lemma_escaped_reads_back(value: Seq<char>)
    ensures
        shell_word(escaped(value) + seq!['\''], Quoting::Single) == Some(value),
    decreases value.len(),
{
    let s = escaped(value) + seq!['\''];
    if value.len() == 0 {
        assert(s =~= seq!['\'']);
        assert(s.drop_first() =~= Seq::empty());
        assert(shell_word(s.drop_first(), Quoting::Plain) == Some(Seq::<char>::empty()));
        assert(value =~= Seq::empty());
    } else {
        let rest = value.drop_first();
        lemma_escaped_reads_back(rest);
        let t = escaped(rest) + seq!['\''];
        if value[0] == '\'' {
            assert(s =~= seq!['\'', '"', '\'', '"', '\''] + t);
            let s1 = s.drop_first();
            let s2 = s1.drop_first();
            let s3 = s2.drop_first();
            let s4 = s3.drop_first();
            assert(s4.drop_first() =~= t);
            assert(s[0] == '\'' && s1[0] == '"' && s2[0] == '\'' && s3[0] == '"' && s4[0] == '\'');
            assert(shell_word(s4, Quoting::Plain) == Some(rest));
            assert(shell_word(s3, Quoting::Double) == Some(rest));
            assert(shell_word(s2, Quoting::Double) == Some(seq!['\''] + rest));
            assert(shell_word(s1, Quoting::Plain) == Some(seq!['\''] + rest));
            assert(seq!['\''] + rest =~= value);
        } else {
            assert(s =~= seq![value[0]] + t);
            assert(s.drop_first() =~= t);
            assert(seq![value[0]] + rest =~= value);
        }
    }
}

/// Whatever it holds, a quoted text is read back by a shell as that very text
/// and as one word.
pub proof fn law_quoted_text_is_one_word(value: Seq<char>)
    ensures
        shell_word(quoted(value), Quoting::Plain) == Some(value),
{
    lemma_escaped_reads_back(value);
    assert(quoted(value).drop_first() =~= escaped(value) + seq!['\'']);
}

impl Options {
    /// The key under which the host is pinned.
    pub open spec fn pin_name(&self) -> Seq<char> {
        self.host@ + ":"@ + decimal(self.port as nat)
    }

    /// The command with which the user manages the pins in use.
    pub open spec fn pins_command(&self) -> Seq<char> {
        match self.paths_dir {
            None => "qsh known-hosts"@,
            Some(dir) => "qsh known-hosts -i "@ + quoted(shown(dir@)),
        }
    }

    /// The command with which the user manages the pins in use.
    pub fn known_hosts_command(&self) -> (out: String)
        ensures
            out@ == self.pins_command(),
    {
        match &self.paths_dir {
            None => "qsh known-hosts".to_owned(),
            Some(dir) => {
                let mut out = "qsh known-hosts -i ".to_owned();
                out.append(shell_quote(dir.shown().as_str()).as_str());
                out
            },
        }
    }

    /// The key under which the host is pinned.
    pub fn host_key(&self) -> (out: String)
        ensures
            out@ == self.pin_name(),
    {
        let mut out = self.host.clone();
        out.append(":");
        out.append(decimal_text(self.port as u64).as_str());
        out
    }
}

/// A host is pinned under its name and its port: another port of the same host
/// is another pin.
pub proof fn law_ports_are_pinned_apart(a: Options, b: Options)
    requires
        a.host@ == b.host@,
    ensures
        a.pin_name() == b.pin_name() <==> a.port == b.port,
        a.host@.is_prefix_of(a.pin_name()),
        a.pin_name().len() > a.host@.len() && a.pin_name()[a.host@.len() as int] == ':',
{
    reveal_strlit(":");
    let n = a.host@.len() as int;
    assert(a.pin_name().take(n) =~= a.host@);
    assert(a.pin_name().skip(n + 1) =~= decimal(a.port as nat));
    assert(b.pin_name().skip(n + 1) =~= decimal(b.port as nat));
    if a.port != b.port {
        crate::text::law_decimals_differ(a.port as nat, b.port as nat);
    }
}

// ---------------------------------------------------------------------------
// Addresses
// ---------------------------------------------------------------------------

/// An address to connect to.
#[derive(Debug, Clone, Copy, PartialEq, Eq, Structural)]
pub enum Address {
    V4 { ip4: u32, port: u16 },
    V6 { ip6: u128, port: u16, flowinfo: u32, scope_id: u32 },
}

impl Address {
    /// Is the family one that may be used?
    pub open spec fn fits(self, family: AddressFamily) -> bool {
        match family {
            AddressFamily::Any => true,
            AddressFamily::V4 => self is V4,
            AddressFamily::V6 => self is V6,
        }
    }

    /// What addresses of one family are ordered by.
    pub open spec fn rank(self) -> Seq<int> {
        match self {
            Address::V4 { ip4, port } => seq![ip4 as int, port as int],
            Address::V6 { ip6, port, flowinfo, scope_id } => seq![
                ip6 as int,
                port as int,
                flowinfo as int,
                scope_id as int,
            ],
        }
    }

    /// Does `self` come before `other`, an address of the same family, or is it
    /// the same?
    fn le(&self, other: &Address) -> (r: bool)
        requires
            self is V4 == other is V4,
        ensures
            r == lex_le(self.rank(), other.rank()),
    {
        match (self, other) {
            (Address::V4 { ip4: a, port: p }, Address::V4 { ip4: b, port: q }) => {
                proof {
                    lemma_two(*a as int, *p as int, *b as int, *q as int);
                }
                *a < *b || (*a == *b && *p <= *q)
            },
            (
                Address::V6 { ip6: a, port: p, flowinfo: f, scope_id: s },
                Address::V6 { ip6: b, port: q, flowinfo: g, scope_id: t },
            ) => {
                proof {
                    lemma_four(
                        seq![*a as int, *p as int, *f as int, *s as int],
                        seq![*b as int, *q as int, *g as int, *t as int],
                    );
                }
                *a < *b || (*a == *b && (*p < *q || (*p == *q && (*f < *g || (*f == *g && *s
                    <= *t)))))
            },
            _ => true,
        }
    }
}

proof fn lemma_two(a: int, p: int, b: int, q: int)
    ensures
        lex_le(seq![a, p], seq![b, q]) == (a < b || (a == b && p <= q)),
{
    let x = seq![a, p];
    let y = seq![b, q];
    assert(x.skip(1) =~= seq![p]);
    assert(y.skip(1) =~= seq![q]);
    assert(x.skip(1).skip(1) =~= Seq::empty());
    assert(lex_le(x.skip(1).skip(1), y.skip(1).skip(1)));
    assert(lex_le(x.skip(1), y.skip(1)) == (p <= q));
}

proof fn lemma_four(x: Seq<int>, y: Seq<int>)
    requires
        x.len() == 4,
        y.len() == 4,
    ensures
        lex_le(x, y) == (x[0] < y[0] || (x[0] == y[0] && (x[1] < y[1] || (x[1] == y[1] && (x[2]
            < y[2] || (x[2] == y[2] && x[3] <= y[3])))))),
{
    let x1 = x.skip(1);
    let y1 = y.skip(1);
    let x2 = x1.skip(1);
    let y2 = y1.skip(1);
    assert(x2 =~= seq![x[2], x[3]]);
    assert(y2 =~= seq![y[2], y[3]]);
    lemma_two(x[2], x[3], y[2], y[3]);
    assert(lex_le(x1, y1) == (x[1] < y[1] || (x[1] == y[1] && lex_le(x2, y2))));
}

/// Are the addresses in order, without repetition?
pub open spec fn ascending(s: Seq<Address>) -> bool {
    forall|i: int, j: int|
        0 <= i < j < s.len() ==> lex_lt((#[trigger] s[i]).rank(), (#[trigger] s[j]).rank())
}

/// The accepted addresses of one family.
pub open spec fn wanted(found: Seq<Address>, family: AddressFamily, v6: bool) -> Set<Address> {
    Set::new(|a: Address| found.contains(a) && a.fits(family) && a is V6 == v6)
}

/// One of each in turn: the first of `a`, the first of `b`, the second of `a`,
/// and so on; what one has more than the other comes at the end.
pub open spec fn in_turn(a: Seq<Address>, b: Seq<Address>) -> Seq<Address>
    decreases a.len() + b.len(),
{
    if a.len() == 0 {
        b
    } else if b.len() == 0 {
        a
    } else {
        seq![a[0], b[0]] + in_turn(a.drop_first(), b.drop_first())
    }
}

/// Addresses of one family in order, and each once.
fn insert_address(list: &mut Vec<Address>, a: Address)
    requires
        ascending(old(list)@),
        forall|i: int| 0 <= i < old(list)@.len() ==> (#[trigger] old(list)@[i]) is V4 == a is V4,
    ensures
        ascending(final(list)@),
        final(list)@.to_set() == old(list)@.to_set().insert(a),
        forall|i: int| 0 <= i < final(list)@.len() ==> (#[trigger] final(list)@[i]) is V4 == a is V4,
{
    let ghost before = list@;
    let mut p: usize = 0;
    while p < list.len() && !a.le(&list[p])
        invariant
            p <= list@.len(),
            list@ == before,
            ascending(before),
            forall|i: int| 0 <= i < before.len() ==> (#[trigger] before[i]) is V4 == a is V4,
            forall|i: int| 0 <= i < p ==> lex_lt((#[trigger] before[i]).rank(), a.rank()),
        decreases list@.len() - p,
    {
        proof {
            lemma_lex_total(a.rank(), before[p as int].rank());
            if before[p as int].rank() == a.rank() {
                lemma_lex_reflexive(a.rank());
            }
        }
        p += 1;
    }
    if p < list.len() && list[p] == a {
        proof {
            assert(before[p as int] == a);
            assert(before.to_set().contains(a));
            assert(before.to_set().insert(a) =~= before.to_set());
        }
        return ;
    }
    list.insert(p, a);
    proof {
        assert forall|i: int| p <= i < before.len() implies lex_lt(
            a.rank(),
            (#[trigger] before[i]).rank(),
        ) by {
            assert(lex_le(a.rank(), before[p as int].rank()));
            if i > p {
                assert(lex_lt(before[p as int].rank(), before[i].rank()));
                crate::order::lemma_lex_lt_transitive(
                    a.rank(),
                    before[p as int].rank(),
                    before[i].rank(),
                );
            } else if before[i].rank() == a.rank() {
                lemma_rank_injective(before[i], a);
            }
        }
        assert forall|i: int, j: int| 0 <= i < j < list@.len() implies lex_lt(
            (#[trigger] list@[i]).rank(),
            (#[trigger] list@[j]).rank(),
        ) by {
            if j < p {
                assert(lex_lt(before[i].rank(), before[j].rank()));
            } else if j == p {
                assert(lex_lt(before[i].rank(), a.rank()));
            } else if i < p {
                assert(lex_lt(before[i].rank(), before[j - 1].rank()));
            } else if i == p {
                assert(lex_lt(a.rank(), before[j - 1].rank()));
            } else {
                assert(lex_lt(before[i - 1].rank(), before[j - 1].rank()));
            }
        }
        assert forall|x: Address| #[trigger] list@.to_set().contains(x) == before.to_set().insert(
            a,
        ).contains(x) by {
            if list@.contains(x) {
                let i = choose|i: int| 0 <= i < list@.len() && list@[i] == x;
                if i < p {
                    assert(before[i] == x);
                } else if i > p {
                    assert(before[i - 1] == x);
                }
            }
            if before.contains(x) {
                let i = choose|i: int| 0 <= i < before.len() && before[i] == x;
                if i < p {
                    assert(list@[i] == x);
                } else {
                    assert(list@[i + 1] == x);
                }
            }
            assert(list@[p as int] == a);
        }
        assert(list@.to_set() =~= before.to_set().insert(a));
        assert forall|i: int| 0 <= i < list@.len() implies (#[trigger] list@[i]) is V4
            == a is V4 by {
            if i < p {
                assert(before[i] is V4 == a is V4);
            } else if i > p {
                assert(before[i - 1] is V4 == a is V4);
            }
        }
    }
}

/// Addresses of one family with the same rank are the same.
proof fn lemma_rank_injective(a: Address, b: Address)
    requires
        a.rank() == b.rank(),
        a is V4 == b is V4,
    ensures
        a == b,
{
    assert(a.rank()[0] == b.rank()[0]);
    assert(a.rank()[1] == b.rank()[1]);
    if a is V6 {
        assert(a.rank()[2] == b.rank()[2]);
        assert(a.rank()[3] == b.rank()[3]);
    }
}

/// The text that names a family in a message.
pub open spec fn family_text(family: AddressFamily) -> Seq<char> {
    match family {
        AddressFamily::Any => "usable"@,
        AddressFamily::V4 => "IPv4"@,
        AddressFamily::V6 => "IPv6"@,
    }
}

impl AddressFamily {
    /// May this address be used?
    pub fn accepts(self, addr: &Address) -> (r: bool)
        ensures
            r == addr.fits(self),
    {
        match self {
            AddressFamily::Any => true,
            AddressFamily::V4 => matches!(addr, Address::V4 { .. }),
            AddressFamily::V6 => matches!(addr, Address::V6 { .. }),
        }
    }

    /// The text that names the family in a message.
    pub fn to_string(&self) -> (out: String)
        ensures
            out@ == family_text(*self),
    {
        match self {
            AddressFamily::Any => "usable".to_owned(),
            AddressFamily::V4 => "IPv4".to_owned(),
            AddressFamily::V6 => "IPv6".to_owned(),
        }
    }
}

/// Are these the addresses to try, in this order? Every accepted address once,
/// the families taking turns, IPv6 first, so that an IPv4 fallback is the second
/// attempt even when the resolver returns several IPv6 addresses first.
pub open spec fn to_try(found: Seq<Address>, family: AddressFamily, out: Seq<Address>) -> bool {
    exists|v6: Seq<Address>, v4: Seq<Address>|
        {
            &&& #[trigger] ascending(v6)
            &&& #[trigger] ascending(v4)
            &&& v6.to_set() == wanted(found, family, true)
            &&& v4.to_set() == wanted(found, family, false)
            &&& out == in_turn(v6, v4)
        }
}

/// Every address the host resolves to, filtered by the requested family.
///
/// Using only the first result would make a perfectly reachable host fail on
/// resolver order alone: `localhost` yielding `::1` first while the server
/// listens on `0.0.0.0` is the everyday case.
pub fn resolve(host: &str, found: &Vec<Address>, family: AddressFamily) -> (r: Result<
    Vec<Address>,
    String,
>)
    ensures
        match r {
            Ok(out) => out@.len() > 0 && to_try(found@, family, out@),
            Err(why) => {
                &&& forall|i: int| 0 <= i < found@.len() ==> !(#[trigger] found@[i]).fits(family)
                &&& why@ == "`"@ + host@ + "` did not resolve to any "@ + family_text(family)
                    + " address"@
            },
        },
{
    let mut v6: Vec<Address> = Vec::new();
    let mut v4: Vec<Address> = Vec::new();
    let mut i: usize = 0;
    assert(found@.take(0) =~= Seq::empty());
    assert(v6@.to_set() =~= wanted(found@.take(0), family, true));
    assert(v4@.to_set() =~= wanted(found@.take(0), family, false));
    while i < found.len()
        invariant
            i <= found@.len(),
            ascending(v6@),
            ascending(v4@),
            forall|k: int| 0 <= k < v6@.len() ==> (#[trigger] v6@[k]) is V6,
            forall|k: int| 0 <= k < v4@.len() ==> (#[trigger] v4@[k]) is V4,
            v6@.to_set() == wanted(found@.take(i as int), family, true),
            v4@.to_set() == wanted(found@.take(i as int), family, false),
        decreases found@.len() - i,
    {
        let a: Address = found[i];
        proof {
            lemma_wanted_grows(found@, i as int, family, true);
            lemma_wanted_grows(found@, i as int, family, false);
        }
        if family.accepts(&a) {
            match a {
                Address::V6 { .. } => {
                    insert_address(&mut v6, a);
                },
                Address::V4 { .. } => {
                    insert_address(&mut v4, a);
                },
            }
        }
        i += 1;
    }
    assert(found@.take(i as int) =~= found@);
    let mut out: Vec<Address> = Vec::new();
    let mut k: usize = 0;
    assert(v6@.skip(0) =~= v6@);
    assert(v4@.skip(0) =~= v4@);
    assert(out@ + in_turn(v6@.skip(0), v4@.skip(0)) =~= in_turn(v6@, v4@));
    while k < v6.len() || k < v4.len()
        invariant
            k <= v6@.len() || k <= v4@.len(),
            out@ + in_turn(v6@.skip(at(k, v6@.len())), v4@.skip(at(k, v4@.len()))) == in_turn(
                v6@,
                v4@,
            ),
        decreases v6@.len() + v4@.len() - k,
    {
        let ghost before = out@;
        let ghost a = v6@.skip(at(k, v6@.len()));
        let ghost b = v4@.skip(at(k, v4@.len()));
        if k < v6.len() {
            out.push(v6[k]);
            assert(a[0] == v6@[k as int]);
            assert(a.drop_first() =~= v6@.skip(k + 1));
        }
        if k < v4.len() {
            out.push(v4[k]);
            assert(b[0] == v4@[k as int]);
            assert(b.drop_first() =~= v4@.skip(k + 1));
        }
        proof {
            let a1 = v6@.skip(at((k + 1) as usize, v6@.len()));
            let b1 = v4@.skip(at((k + 1) as usize, v4@.len()));
            if a.len() > 0 && b.len() > 0 {
                assert(a1 =~= a.drop_first());
                assert(b1 =~= b.drop_first());
                assert(out@ + in_turn(a1, b1) =~= before + in_turn(a, b));
            } else if a.len() > 0 {
                assert(a1 =~= a.drop_first());
                assert(b1 =~= b);
                assert(in_turn(a1, b1) =~= a1);
                assert(out@ + a1 =~= before + a);
            } else {
                assert(a1 =~= a);
                assert(b1 =~= b.drop_first());
                assert(in_turn(a1, b1) =~= b1);
                assert(out@ + b1 =~= before + b);
            }
        }
        k += 1;
    }
    assert(v6@.skip(at(k, v6@.len())) =~= Seq::empty());
    assert(v4@.skip(at(k, v4@.len())) =~= Seq::empty());
    assert(out@ =~= in_turn(v6@, v4@));
    if out.len() == 0 {
        proof {
            lemma_in_turn_len(v6@, v4@);
            assert forall|i: int| 0 <= i < found@.len() implies !(#[trigger] found@[i]).fits(
                family,
            ) by {
                if found@[i].fits(family) {
                    assert(found@.contains(found@[i]));
                    if found@[i] is V6 {
                        assert(wanted(found@, family, true).contains(found@[i]));
                        assert(v6@.to_set().contains(found@[i]));
                    } else {
                        assert(wanted(found@, family, false).contains(found@[i]));
                        assert(v4@.to_set().contains(found@[i]));
                    }
                }
            }
        }
        let mut why = "`".to_owned();
        why.append(host);
        why.append("` did not resolve to any ");
        why.append(family.to_string().as_str());
        why.append(" address");
        return Err(why);
    }
    Ok(out)
}

/// How far `k` steps lead into a list of length `len`.
spec fn at(k: usize, len: nat) -> int {
    if k <= len {
        k as int
    } else {
        len as int
    }
}

proof fn lemma_in_turn_len(a: Seq<Address>, b: Seq<Address>)
    ensures
        in_turn(a, b).len() == a.len() + b.len(),
    decreases a.len() + b.len(),
{
    if a.len() > 0 && b.len() > 0 {
        lemma_in_turn_len(a.drop_first(), b.drop_first());
    }
}

proof fn lemma_wanted_grows(found: Seq<Address>, i: int, family: AddressFamily, v6: bool)
    requires
        0 <= i < found.len(),
    ensures
        wanted(found.take(i + 1), family, v6) == (if found[i].fits(family) && found[i] is V6
            == v6 {
            wanted(found.take(i), family, v6).insert(found[i])
        } else {
            wanted(found.take(i), family, v6)
        }),
{
    let now = found.take(i);
    let next = found.take(i + 1);
    assert forall|a: Address| next.contains(a) == (now.contains(a) || a == found[i]) by {
        if next.contains(a) {
            let k = choose|k: int| 0 <= k < next.len() && next[k] == a;
            if k < i {
                assert(now[k] == a);
            }
        }
        if now.contains(a) {
            let k = choose|k: int| 0 <= k < now.len() && now[k] == a;
            assert(next[k] == a);
        }
        assert(next[i] == found[i]);
    }
    assert(wanted(next, family, v6) =~= (if found[i].fits(family) && found[i] is V6 == v6 {
        wanted(now, family, v6).insert(found[i])
    } else {
        wanted(now, family, v6)
    }));
}

/// The addresses to try are exactly the accepted ones, each once. The first is an
/// IPv6 address if there is one, and where there is one of either family, the
/// second is an IPv4 address.
pub proof fn law_every_address_is_tried_once(
    found: Seq<Address>,
    family: AddressFamily,
    out: Seq<Address>,
)
    requires
        to_try(found, family, out),
    ensures
        out.no_duplicates(),
        forall|a: Address| #[trigger] out.contains(a) <==> found.contains(a) && a.fits(family),
        (exists|a: Address| #[trigger] out.contains(a) && a is V6) ==> out[0] is V6,
        (exists|a: Address| #[trigger] out.contains(a) && a is V6) && (exists|a: Address| #[trigger]
            out.contains(a) && a is V4) ==> out[1] is V4,
{
    let (v6, v4) = choose|v6: Seq<Address>, v4: Seq<Address>|
        {
            &&& #[trigger] ascending(v6)
            &&& #[trigger] ascending(v4)
            &&& v6.to_set() == wanted(found, family, true)
            &&& v4.to_set() == wanted(found, family, false)
            &&& out == in_turn(v6, v4)
        };
    assert forall|i: int| 0 <= i < v6.len() implies (#[trigger] v6[i]) is V6 by {
        assert(v6.to_set().contains(v6[i]));
    }
    assert forall|i: int| 0 <= i < v4.len() implies (#[trigger] v4[i]) is V4 by {
        assert(v4.to_set().contains(v4[i]));
    }
    lemma_in_turn(v6, v4);
    assert forall|a: Address| #[trigger] out.contains(a) <==> found.contains(a) && a.fits(
        family,
    ) by {
        assert(out.contains(a) == (v6.contains(a) || v4.contains(a)));
        assert(v6.to_set().contains(a) == v6.contains(a));
        assert(v4.to_set().contains(a) == v4.contains(a));
    }
    if exists|a: Address| #[trigger] out.contains(a) && a is V6 {
        let a = choose|a: Address| #[trigger] out.contains(a) && a is V6;
        assert(v6.to_set().contains(a));
        assert(v6.contains(a));
    }
    if exists|a: Address| #[trigger] out.contains(a) && a is V4 {
        let a = choose|a: Address| #[trigger] out.contains(a) && a is V4;
        assert(v4.to_set().contains(a));
        assert(v4.contains(a));
    }
}

/// Without a preference every address may be used; otherwise exactly those of
/// the family that is asked for.
pub proof fn law_families(a: Address)
    ensures
        a.fits(AddressFamily::Any),
        a.fits(AddressFamily::V4) <==> a is V4,
        a.fits(AddressFamily::V6) <==> a is V6,
{
}

/// The two families take turns for as long as both last, IPv6 first.
pub proof fn law_families_take_turns(v6: Seq<Address>, v4: Seq<Address>, k: int)
    requires
        0 <= k < v6.len(),
        k < v4.len(),
    ensures
        in_turn(v6, v4).len() == v6.len() + v4.len(),
        in_turn(v6, v4)[2 * k] == v6[k],
        in_turn(v6, v4)[2 * k + 1] == v4[k],
        v6.len() > v4.len() ==> in_turn(v6, v4).skip(2 * v4.len() as int) == v6.skip(
            v4.len() as int,
        ),
        v4.len() >= v6.len() ==> in_turn(v6, v4).skip(2 * v6.len() as int) == v4.skip(
            v6.len() as int,
        ),
    decreases v6.len(),
{
    let out = in_turn(v6, v4);
    let a = v6.drop_first();
    let b = v4.drop_first();
    let rest = in_turn(a, b);
    lemma_in_turn_len(v6, v4);
    lemma_in_turn_len(a, b);
    assert(out == seq![v6[0], v4[0]] + rest);
    if k > 0 {
        law_families_take_turns(a, b, k - 1);
        assert(out[2 * k] == rest[2 * (k - 1)]);
        assert(out[2 * k + 1] == rest[2 * (k - 1) + 1]);
    }
    lemma_in_turn_rest(v6, v4);
}

proof fn lemma_in_turn_rest(a: Seq<Address>, b: Seq<Address>)
    ensures
        a.len() > b.len() ==> in_turn(a, b).skip(2 * b.len() as int) == a.skip(b.len() as int),
        b.len() >= a.len() ==> in_turn(a, b).skip(2 * a.len() as int) == b.skip(a.len() as int),
    decreases a.len() + b.len(),
{
    let out = in_turn(a, b);
    lemma_in_turn_len(a, b);
    if a.len() == 0 {
        assert(out.skip(0) =~= b.skip(0));
    } else if b.len() == 0 {
        assert(out.skip(0) =~= a.skip(0));
    } else {
        let a1 = a.drop_first();
        let b1 = b.drop_first();
        let rest = in_turn(a1, b1);
        lemma_in_turn_rest(a1, b1);
        lemma_in_turn_len(a1, b1);
        assert(out == seq![a[0], b[0]] + rest);
        if a.len() > b.len() {
            assert(out.skip(2 * b.len() as int) =~= rest.skip(2 * b1.len() as int));
            assert(a.skip(b.len() as int) =~= a1.skip(b1.len() as int));
        } else {
            assert(out.skip(2 * a.len() as int) =~= rest.skip(2 * a1.len() as int));
            assert(b.skip(a.len() as int) =~= b1.skip(a1.len() as int));
        }
    }
}

proof fn lemma_in_turn(a: Seq<Address>, b: Seq<Address>)
    requires
        ascending(a),
        ascending(b),
        forall|i: int| 0 <= i < a.len() ==> (#[trigger] a[i]) is V6,
        forall|i: int| 0 <= i < b.len() ==> (#[trigger] b[i]) is V4,
    ensures
        in_turn(a, b).no_duplicates(),
        forall|x: Address| #[trigger] in_turn(a, b).contains(x) == (a.contains(x) || b.contains(x)),
    decreases a.len() + b.len(),
{
    let out = in_turn(a, b);
    if a.len() == 0 || b.len() == 0 {
        assert forall|i: int, j: int| 0 <= i < out.len() && 0 <= j < out.len() && i != j implies out[i]
            != out[j] by {
            let s = if a.len() == 0 { b } else { a };
            if i < j {
                assert(lex_lt(s[i].rank(), s[j].rank()));
            } else {
                assert(lex_lt(s[j].rank(), s[i].rank()));
            }
        }
        assert forall|x: Address| #[trigger] out.contains(x) == (a.contains(x) || b.contains(x)) by {}
    } else {
        let a1 = a.drop_first();
        let b1 = b.drop_first();
        assert(ascending(a1)) by {
            assert forall|i: int, j: int| 0 <= i < j < a1.len() implies lex_lt(
                (#[trigger] a1[i]).rank(),
                (#[trigger] a1[j]).rank(),
            ) by {
                assert(lex_lt(a[i + 1].rank(), a[j + 1].rank()));
            }
        }
        assert(ascending(b1)) by {
            assert forall|i: int, j: int| 0 <= i < j < b1.len() implies lex_lt(
                (#[trigger] b1[i]).rank(),
                (#[trigger] b1[j]).rank(),
            ) by {
                assert(lex_lt(b[i + 1].rank(), b[j + 1].rank()));
            }
        }
        assert forall|i: int| 0 <= i < a1.len() implies (#[trigger] a1[i]) is V6 by {
            assert(a[i + 1] is V6);
        }
        assert forall|i: int| 0 <= i < b1.len() implies (#[trigger] b1[i]) is V4 by {
            assert(b[i + 1] is V4);
        }
        lemma_in_turn(a1, b1);
        let rest = in_turn(a1, b1);
        assert(out == seq![a[0], b[0]] + rest);
        assert(a[0] is V6);
        assert(b[0] is V4);
        assert(!rest.contains(a[0])) by {
            if a1.contains(a[0]) {
                let i = choose|i: int| 0 <= i < a1.len() && a1[i] == a[0];
                assert(a1[i] == a[i + 1]);
                assert(lex_lt(a[0].rank(), a[i + 1].rank()));
            }
            if b1.contains(a[0]) {
                let i = choose|i: int| 0 <= i < b1.len() && b1[i] == a[0];
                assert(b1[i] is V4);
            }
        }
        assert(!rest.contains(b[0])) by {
            if a1.contains(b[0]) {
                let i = choose|i: int| 0 <= i < a1.len() && a1[i] == b[0];
                assert(a1[i] is V6);
            }
            if b1.contains(b[0]) {
                let i = choose|i: int| 0 <= i < b1.len() && b1[i] == b[0];
                assert(b1[i] == b[i + 1]);
                assert(lex_lt(b[0].rank(), b[i + 1].rank()));
            }
        }
        assert forall|i: int, j: int|
            0 <= i < out.len() && 0 <= j < out.len() && i != j implies out[i] != out[j] by {
            if i >= 2 {
                assert(out[i] == rest[i - 2]);
                assert(rest.contains(out[i]));
            }
            if j >= 2 {
                assert(out[j] == rest[j - 2]);
                assert(rest.contains(out[j]));
            }
        }
        assert forall|x: Address| #[trigger] out.contains(x) == (a.contains(x) || b.contains(x)) by {
            assert(rest.contains(x) == (a1.contains(x) || b1.contains(x)));
            if out.contains(x) {
                let i = choose|i: int| 0 <= i < out.len() && out[i] == x;
                if i == 0 {
                    assert(a[0] == x);
                } else if i == 1 {
                    assert(b[0] == x);
                } else {
                    assert(rest[i - 2] == x);
                    if a1.contains(x) {
                        let k = choose|k: int| 0 <= k < a1.len() && a1[k] == x;
                        assert(a[k + 1] == x);
                    } else {
                        let k = choose|k: int| 0 <= k < b1.len() && b1[k] == x;
                        assert(b[k + 1] == x);
                    }
                }
            }
            if a.contains(x) {
                let k = choose|k: int| 0 <= k < a.len() && a[k] == x;
                if k == 0 {
                    assert(out[0] == x);
                } else {
                    assert(a1[k - 1] == x);
                    let i = choose|i: int| 0 <= i < rest.len() && rest[i] == x;
                    assert(out[i + 2] == x);
                }
            }
            if b.contains(x) {
                let k = choose|k: int| 0 <= k < b.len() && b[k] == x;
                if k == 0 {
                    assert(out[1] == x);
                } else {
                    assert(b1[k - 1] == x);
                    let i = choose|i: int| 0 <= i < rest.len() && rest[i] == x;
                    assert(out[i + 2] == x);
                }
            }
        }
    }
}

/// How many opening brackets `s` begins with.
pub open spec fn leading(s: Seq<char>, c: char) -> nat
    decreases s.len(),
{
    if s.len() > 0 && s[0] == c {
        1 + leading(s.skip(1), c)
    } else {
        0
    }
}

/// How many closing brackets `s` ends with.
pub open spec fn trailing(s: Seq<char>, c: char) -> nat
    decreases s.len(),
{
    if s.len() > 0 && s.last() == c {
        1 + trailing(s.drop_last(), c)
    } else {
        0
    }
}

/// What a host is looked up as: an IPv6 literal without its brackets.
pub open spec fn bare_host(host: Seq<char>) -> Seq<char> {
    let s = host.skip(leading(host, '[') as int);
    s.take(s.len() - trailing(s, ']'))
}

/// A host is looked up as it is written, and a literal address in brackets is
/// looked up without them.
pub proof fn law_brackets_are_taken_off(host: Seq<char>)
    requires
        host.len() > 0,
        host[0] != '[',
        host.last() != ']',
    ensures
        bare_host(host) == host,
        bare_host(seq!['['] + host + seq![']']) == host,
{
    assert(host.skip(0) =~= host);
    assert(host.take(host.len() as int) =~= host);
    let s = seq!['['] + host + seq![']'];
    let t = host + seq![']'];
    assert(s.skip(1) =~= t);
    assert(t[0] == host[0]);
    assert(leading(t, '[') == 0);
    assert(leading(s, '[') == 1);
    assert(t.last() == ']');
    assert(t.drop_last() =~= host);
    assert(trailing(host, ']') == 0);
    assert(trailing(t, ']') == 1);
    assert(t.take(t.len() - 1) =~= host);
}

/// What a host is looked up as: an IPv6 literal without its brackets.
pub fn lookup_name(host: &str) -> (out: String)
    ensures
        out@ == bare_host(host@),
{
    let h = chars_of(host);
    let mut from: usize = 0;
    assert(host@.skip(0) =~= host@);
    while from < h.len() && h[from] == '['
        invariant
            from <= h@.len(),
            h@ == host@,
            leading(host@, '[') == from + leading(host@.skip(from as int), '['),
        decreases h@.len() - from,
    {
        assert(host@.skip(from as int).skip(1) =~= host@.skip(from + 1));
        from += 1;
    }
    let ghost s = host@.skip(from as int);
    assert(leading(s, '[') == 0);
    let mut to: usize = h.len();
    assert(s.take(s.len() as int) =~= s);
    while to > from && h[to - 1] == ']'
        invariant
            from <= to <= h@.len(),
            h@ == host@,
            s == host@.skip(from as int),
            trailing(s, ']') == (h@.len() - to) + trailing(s.take(to - from), ']'),
        decreases to,
    {
        assert(s.take(to - from).last() == h@[to - 1]);
        assert(s.take(to - from).drop_last() =~= s.take(to - from - 1));
        to -= 1;
    }
    proof {
        if to > from {
            assert(s.take(to - from).last() == h@[to - 1]);
        }
        assert(trailing(s.take(to - from), ']') == 0);
    }
    let out = slice_text(&h, from, to);
    assert(out@ =~= bare_host(host@));
    out
}

/// The name that is presented to the server.
pub open spec fn presented(host: Seq<char>, is_address: bool) -> Seq<char> {
    if is_address || host.len() == 0 {
        "qsh"@
    } else {
        host
    }
}

/// A host that has a name is asked for by that name; an address is never
/// presented as one, and some name always is.
pub proof fn law_presented_names(host: Seq<char>, is_address: bool)
    ensures
        !is_address && host.len() > 0 ==> presented(host, is_address) == host,
        is_address ==> presented(host, is_address) == "qsh"@,
        presented(host, is_address).len() > 0,
{
    reveal_strlit("qsh");
}

/// The name presented to the server. The certificate is pinned by public key,
/// so it is cosmetic; it just has to be a syntactically valid DNS name, which
/// an address is not.
pub fn sni_name(host: &str, is_address: bool) -> (out: String)
    ensures
        out@ == presented(host@, is_address),
{
    if is_address || chars_of(host).len() == 0 {
        "qsh".to_owned()
    } else {
        host.to_owned()
    }
}

// ---------------------------------------------------------------------------
// Racing the addresses
// ---------------------------------------------------------------------------

/// Attempts in flight at once.
pub const MAX_PARALLEL_ATTEMPTS: usize = 2;

/// How long the next address waits for the one before it, in milliseconds.
pub const ADDRESS_STAGGER_MILLIS: u64 = 250;

/// How an attempt to connect ended.
#[derive(Debug, Clone, Copy, PartialEq, Eq, Structural)]
pub enum Attempt {
    Won,
    Failed,
    /// The host key was rejected: no other address can mend that.
    Rejected,
}

/// A race of the addresses: another is started after a short delay without
/// cutting the earlier one's timeout short.
#[derive(Debug, Clone, Copy, PartialEq, Eq, Structural)]
pub struct Race {
    /// How many addresses there are.
    pub total: usize,
    /// How many have been started, from the first on.
    pub started: usize,
    /// How many of those have not ended.
    pub pending: usize,
    /// Must the next one wait for the stagger?
    pub staggered: bool,
}

/// What to do next in a race.
#[derive(Debug, Clone, Copy, PartialEq, Eq, Structural)]
pub enum RaceStep {
    /// Every address has failed, or there was none: report the last failure.
    Exhausted,
    /// Wait for an attempt to end; meanwhile, after this many milliseconds,
    /// start the address with this index. An attempt that has ended comes first.
    WaitOrStart(usize, u64),
    /// Wait for an attempt to end.
    Wait,
}

/// What to do after an attempt has ended.
#[derive(Debug, Clone, Copy, PartialEq, Eq, Structural)]
pub enum RaceResult {
    /// Cancel the others and use this one.
    Win,
    /// Cancel the others and report this failure.
    Stop,
    /// Remember the failure and go on.
    GoOn,
}

impl Race {
    /// No more than two attempts are in flight, and only addresses that exist
    /// have been started.
    pub open spec fn wf(&self) -> bool {
        self.pending <= MAX_PARALLEL_ATTEMPTS && self.pending <= self.started <= self.total
    }

    /// The beginning of a race.
    pub fn new(total: usize) -> (r: Race)
        ensures
            r.wf(),
            r == (Race { total, started: 0, pending: 0, staggered: false }),
    {
        Race { total, started: 0, pending: 0, staggered: false }
    }

    /// What to do next.
    pub open spec fn next(self) -> RaceStep {
        if self.pending == 0 && self.started >= self.total {
            RaceStep::Exhausted
        } else if self.pending < MAX_PARALLEL_ATTEMPTS && self.started < self.total {
            RaceStep::WaitOrStart(
                self.started,
                if self.staggered {
                    ADDRESS_STAGGER_MILLIS
                } else {
                    0
                },
            )
        } else {
            RaceStep::Wait
        }
    }

    /// The race after the next address has been started.
    pub open spec fn with_another(self) -> Race {
        Race {
            total: self.total,
            started: (self.started + 1) as usize,
            pending: (self.pending + 1) as usize,
            staggered: true,
        }
    }

    /// The race after an attempt has ended.
    pub open spec fn without_one(self) -> Race {
        Race { pending: (self.pending - 1) as usize, staggered: false, ..self }
    }

    /// What to do next.
    pub fn step(&self) -> (s: RaceStep)
        ensures
            s == self.next(),
    {
        if self.pending == 0 && self.started >= self.total {
            RaceStep::Exhausted
        } else if self.pending < MAX_PARALLEL_ATTEMPTS && self.started < self.total {
            RaceStep::WaitOrStart(
                self.started,
                if self.staggered {
                    ADDRESS_STAGGER_MILLIS
                } else {
                    0
                },
            )
        } else {
            RaceStep::Wait
        }
    }

    /// The next address has been started; returns its index. Only to be called
    /// when the last step offered that.
    pub fn start(&mut self) -> (index: usize)
        requires
            old(self).wf(),
            old(self).pending < MAX_PARALLEL_ATTEMPTS,
            old(self).started < old(self).total,
        ensures
            final(self).wf(),
            index == old(self).started,
            *final(self) == old(self).with_another(),
    {
        let index: usize = self.started;
        self.started = self.started + 1;
        self.pending = self.pending + 1;
        self.staggered = true;
        index
    }

    /// An attempt has ended. A failed attempt need not consume the rest of its
    /// stagger.
    pub fn ended(&mut self, outcome: Attempt) -> (r: RaceResult)
        requires
            old(self).wf(),
            old(self).pending > 0,
        ensures
            final(self).wf(),
            *final(self) == old(self).without_one(),
            r == (match outcome {
                Attempt::Won => RaceResult::Win,
                Attempt::Rejected => RaceResult::Stop,
                Attempt::Failed => RaceResult::GoOn,
            }),
    {
        self.pending = self.pending - 1;
        self.staggered = false;
        match outcome {
            Attempt::Won => RaceResult::Win,
            Attempt::Rejected => RaceResult::Stop,
            Attempt::Failed => RaceResult::GoOn,
        }
    }
}

/// What happens in a race.
pub enum RaceEvent {
    Started,
    Ended(Attempt),
}

/// A race so far: where it stands, and how many attempts have ended. What is
/// not possible changes nothing.
pub open spec fn race_after(total: usize, events: Seq<RaceEvent>) -> (Race, nat)
    decreases events.len(),
{
    if events.len() == 0 {
        (Race { total, started: 0, pending: 0, staggered: false }, 0)
    } else {
        let (r, ended) = race_after(total, events.drop_last());
        match events.last() {
            RaceEvent::Started => if r.pending < MAX_PARALLEL_ATTEMPTS && r.started < r.total {
                (r.with_another(), ended)
            } else {
                (r, ended)
            },
            RaceEvent::Ended(_) => if r.pending > 0 {
                (r.without_one(), ended + 1)
            } else {
                (r, ended)
            },
        }
    }
}

/// However a race goes, no more than two attempts are in flight, and it is
/// exhausted only once every address has been tried and has ended.
pub proof fn law_race_tries_every_address(total: usize, events: Seq<RaceEvent>)
    ensures
        ({
            let (r, ended) = race_after(total, events);
            &&& r.wf()
            &&& r.total == total
            &&& r.started == ended + r.pending
            &&& r.pending == 0 && r.started >= r.total ==> ended == total
        }),
    decreases events.len(),
{
    if events.len() > 0 {
        law_race_tries_every_address(total, events.drop_last());
    }
}

/// The addresses are started in order, the first at once. While an attempt is
/// running, the next one waits a quarter of a second for it; once an attempt has
/// failed, the next one does not wait at all. With two running, none is started,
/// and the race goes on until nothing is left to start or to wait for.
pub proof fn law_race_is_staggered(r: Race)
    requires
        r.wf(),
    ensures
        r.total > 0 ==> (Race { total: r.total, started: 0, pending: 0, staggered: false }).next()
            == RaceStep::WaitOrStart(0, 0),
        r.pending < 2 && r.started < r.total ==> {
            let more = r.with_another();
            &&& r.next() is WaitOrStart
            &&& r.next()->WaitOrStart_0 == r.started
            &&& more.started == r.started + 1
            &&& more.total == r.total
            &&& more.pending < 2 && more.started < more.total ==> more.next()
                == RaceStep::WaitOrStart((r.started + 1) as usize, 250)
        },
        r.pending > 0 && r.started < r.total ==> r.without_one().next() == RaceStep::WaitOrStart(
            r.started,
            0,
        ),
        r.pending >= 2 ==> r.next() is Wait,
        r.pending > 0 && r.started == r.total ==> r.next() is Wait,
        r.pending == 0 && r.started == r.total ==> r.next() is Exhausted,
{
}

/// What the failure of a connection attempt was.
#[derive(Debug)]
pub enum ConnectFailure {
    /// The transport failed, with this message.
    Transport(String),
    /// The connection timed out, with this message.
    TimedOut(String),
    /// Anything else, with this message.
    Other(String),
    /// The deadline for the address passed.
    Deadline,
}

impl ConnectFailure {
    /// Was the host key rejected? A rejection names itself in the message.
    pub open spec fn rejects(&self) -> bool {
        match *self {
            ConnectFailure::Transport(text) => occurs(text@, "HostKeyMismatch"@),
            _ => false,
        }
    }

    /// How the attempt counts.
    pub open spec fn counted(&self) -> Attempt {
        if self.rejects() {
            Attempt::Rejected
        } else {
            Attempt::Failed
        }
    }

    /// How the attempt counts in the race.
    pub fn counts_as(&self) -> (a: Attempt)
        ensures
            a == self.counted(),
    {
        match self {
            ConnectFailure::Transport(text) => if contains_text(text.as_str(), "HostKeyMismatch") {
                Attempt::Rejected
            } else {
                Attempt::Failed
            },
            _ => Attempt::Failed,
        }
    }

    /// What is said about the failure to connect to `addr`.
    pub open spec fn text(&self, opts: Options, addr: Seq<char>) -> Seq<char> {
        let base = "cannot connect to "@ + opts.host@ + " ("@ + addr + "): "@;
        match *self {
            ConnectFailure::Transport(te) => if occurs(te@, "HostKeyMismatch"@) {
                te@ + "\n\nThe host key for "@ + opts.pin_name()
                    + " has changed. If this is expected, remove the old entry with `"@
                    + opts.pins_command() + " remove "@ + opts.pin_name()
                    + "`; otherwise someone may be impersonating the server."@
            } else {
                base + te@
            },
            ConnectFailure::TimedOut(e) => base + e@
                + "\n\nNo response. Check that qsh-server is running and that UDP port "@ + decimal(
                opts.port as nat,
            ) + " is reachable \u{2014} QUIC needs UDP, not TCP."@,
            ConnectFailure::Other(e) => base + e@,
            ConnectFailure::Deadline => "connecting to "@ + opts.host@ + " ("@ + addr
                + ") timed out after "@ + decimal(opts.connect_timeout_secs as nat) + "s"@,
        }
    }

    /// Turn a connection failure into a message that says what to do next.
    pub fn connect_error(&self, opts: &Options, addr: &str) -> (out: String)
        ensures
            out@ == self.text(*opts, addr@),
    {
        let mut base = "cannot connect to ".to_owned();
        base.append(opts.host.as_str());
        base.append(" (");
        base.append(addr);
        base.append("): ");
        match self {
            ConnectFailure::Transport(te) => {
                if contains_text(te.as_str(), "HostKeyMismatch") {
                    let mut out = te.clone();
                    out.append("\n\nThe host key for ");
                    out.append(opts.host_key().as_str());
                    out.append(" has changed. If this is expected, remove the old entry with `");
                    out.append(opts.known_hosts_command().as_str());
                    out.append(" remove ");
                    out.append(opts.host_key().as_str());
                    out.append("`; otherwise someone may be impersonating the server.");
                    out
                } else {
                    base.append(te.as_str());
                    base
                }
            },
            ConnectFailure::TimedOut(e) => {
                base.append(e.as_str());
                base.append("\n\nNo response. Check that qsh-server is running and that UDP port ");
                base.append(decimal_text(opts.port as u64).as_str());
                base.append(" is reachable \u{2014} QUIC needs UDP, not TCP.");
                base
            },
            ConnectFailure::Other(e) => {
                base.append(e.as_str());
                base
            },
            ConnectFailure::Deadline => {
                let mut out = "connecting to ".to_owned();
                out.append(opts.host.as_str());
                out.append(" (");
                out.append(addr);
                out.append(") timed out after ");
                out.append(decimal_text(opts.connect_timeout_secs).as_str());
                out.append("s");
                out
            },
        }
    }
}

// ---------------------------------------------------------------------------
// Trusting a host key
// ---------------------------------------------------------------------------

/// An anonymous probe verifies the server's validity and proof of possession,
/// records its fingerprint, then deliberately stops before client
/// authentication. Trust on first use decides *which* key to trust; it does not
/// excuse an expired or not-yet-valid certificate.
pub struct CaptureVerifier {
    pub seen: Option<Fingerprint>,
}

impl CaptureVerifier {
    pub fn new() -> (v: CaptureVerifier)
        ensures
            v.seen is None,
    {
        CaptureVerifier { seen: None }
    }

    /// Accepts exactly the certificates that are valid now.
    pub fn verify_server_cert(&self, end_entity: &[u8], now: u64) -> (r: Result<
        (),
        CertificateError,
    >)
        ensures
            r is Ok == (validity(certificate(end_entity@), now) is Valid),
            match r {
                Ok(()) => true,
                Err(CertificateError::BadEncoding) => validity(
                    certificate(end_entity@),
                    now,
                ) is BadEncoding,
                Err(CertificateError::NotValidYet) => validity(
                    certificate(end_entity@),
                    now,
                ) is NotValidYet,
                Err(CertificateError::Expired) => validity(certificate(end_entity@), now) is Expired,
                Err(_) => false,
            },
    {
        check_validity(end_entity, now)
    }

    /// Records the key of a certificate whose holder proved possession of it;
    /// nothing else ever records a key.
    pub fn proved(&mut self, cert: &[u8]) -> (r: Result<(), CertificateError>)
        ensures
            match r {
                Ok(()) => {
                    &&& certificate(cert@) is Some
                    &&& final(self).seen is Some
                    &&& (final(self).seen->0).0@ == crate::crypto::sha256(certificate(cert@)->0.spki)
                },
                Err(e) => {
                    &&& certificate(cert@) is None
                    &&& e is BadEncoding
                    &&& final(self).seen == old(self).seen
                },
            },
    {
        match Fingerprint::of_cert(cert) {
            Ok(fp) => {
                self.seen = Some(fp);
                Ok(())
            },
            Err(_) => Err(CertificateError::BadEncoding),
        }
    }
}

/// How the key of a host is settled at first.
#[derive(Debug)]
pub enum FirstContact {
    /// The host is pinned to this key.
    Pinned(Fingerprint),
    /// The host is unknown and new hosts are refused. That needs no contact with
    /// an unknown server at all.
    Refused(String),
    /// The host is unknown: ask it for its key, anonymously.
    Probe,
}

/// What is said when an unknown host is refused without contact.
pub open spec fn refused_unseen(opts: Options) -> Seq<char> {
    "host "@ + opts.pin_name()
        + " is not known and the host-key policy refuses new hosts (--refuse-new)\nObtain the host key fingerprint through a trusted channel, then add it with `"@
        + opts.pins_command() + " add "@ + opts.pin_name() + " <verified-fingerprint>`."@
}

/// What a [`FirstContact`] holds.
pub enum FirstContactView {
    Pinned(Seq<u8>),
    Refused(Seq<char>),
    Probe,
}

impl View for FirstContact {
    type V = FirstContactView;

    open spec fn view(&self) -> FirstContactView {
        match *self {
            FirstContact::Pinned(fp) => FirstContactView::Pinned(fp.0@),
            FirstContact::Refused(why) => FirstContactView::Refused(why@),
            FirstContact::Probe => FirstContactView::Probe,
        }
    }
}

/// How the key of the host is settled at first.
pub open spec fn contact(opts: Options, known: Seq<(Seq<char>, Seq<u8>)>) -> FirstContactView {
    match pin_of(known, opts.pin_name()) {
        Some(fp) => FirstContactView::Pinned(fp),
        None => if opts.host_key_policy is Refuse {
            FirstContactView::Refused(refused_unseen(opts))
        } else {
            FirstContactView::Probe
        },
    }
}

/// Once a host is pinned to a key, that key is the one to go by, whatever the
/// policy is, and whichever other hosts are pinned or dropped; once its pins are
/// dropped it is unknown again, and then the policy decides whether it is asked
/// for its key at all.
pub proof fn law_pins_decide(
    opts: Options,
    now: Seq<(Seq<char>, Seq<u8>)>,
    fp: Seq<u8>,
    other: Seq<char>,
    theirs: Seq<u8>,
)
    requires
        other != opts.pin_name(),
    ensures
        ({
            let pinned = updated(now, opts.pin_name(), fp, Trust::Replace);
            let dropped = without_host(now, opts.pin_name());
            &&& contact(opts, pinned) == FirstContactView::Pinned(fp)
            &&& contact(opts, updated(pinned, other, theirs, Trust::Replace))
                == FirstContactView::Pinned(fp)
            &&& contact(opts, without_host(pinned, other)) == FirstContactView::Pinned(fp)
            &&& contact(opts, dropped) is Refused <==> opts.host_key_policy is Refuse
            &&& contact(opts, dropped) is Probe <==> !(opts.host_key_policy is Refuse)
        }),
{
    let pinned = updated(now, opts.pin_name(), fp, Trust::Replace);
    crate::config::law_pinning_replaces(now, opts.pin_name(), fp);
    crate::config::law_pinning_replaces(pinned, other, theirs);
    crate::config::law_dropping_a_host(pinned, other);
    crate::config::law_dropping_a_host(now, opts.pin_name());
}

/// How the key of the host is settled at first.
pub fn first_contact(opts: &Options, known: &KnownHosts) -> (r: FirstContact)
    ensures
        r@ == contact(*opts, known@),
        match r {
            FirstContact::Pinned(fp) => pin_of(known@, opts.pin_name()) == Some(fp.0@),
            FirstContact::Refused(why) => {
                &&& pin_of(known@, opts.pin_name()) is None
                &&& opts.host_key_policy is Refuse
                &&& why@ == refused_unseen(*opts)
            },
            FirstContact::Probe => {
                &&& pin_of(known@, opts.pin_name()) is None
                &&& !(opts.host_key_policy is Refuse)
            },
        },
{
    let host_key = opts.host_key();
    match known.get(host_key.as_str()) {
        Some(fp) => FirstContact::Pinned(fp),
        None => {
            if opts.host_key_policy == HostKeyPolicy::Refuse {
                let mut out = "host ".to_owned();
                out.append(host_key.as_str());
                out.append(
                    " is not known and the host-key policy refuses new hosts (--refuse-new)\nObtain the host key fingerprint through a trusted channel, then add it with `",
                );
                out.append(opts.known_hosts_command().as_str());
                out.append(" add ");
                out.append(host_key.as_str());
                out.append(" <verified-fingerprint>`.");
                return FirstContact::Refused(out);
            }
            FirstContact::Probe
        },
    }
}

/// What to do about the key that an unknown host presented.
#[derive(Debug)]
pub enum NewHost {
    Accept,
    Refuse(String),
    /// Ask this on the terminal; without one, fail with the second text.
    Ask(String, String),
}

/// What is said when the key of an unknown host is refused.
pub open spec fn refused_seen(opts: Options, fp: Fingerprint) -> Seq<char> {
    "host "@ + opts.pin_name()
        + " is not known and the host-key policy refuses new hosts (--refuse-new)\nIts key is "@
        + fp.text() + ". Add it with `"@ + opts.pins_command() + " add "@ + opts.pin_name() + " "@
        + fp.text() + "`."@
}

/// What the user is asked about the key of an unknown host.
pub open spec fn question(opts: Options, fp: Fingerprint) -> Seq<char> {
    "The authenticity of host '"@ + opts.pin_name()
        + "' cannot be established.\nKey fingerprint is "@ + fp.text()
        + ".\nAre you sure you want to continue connecting (yes/no)? "@
}

/// What is said when there is no terminal to ask on.
pub open spec fn nobody_to_ask(opts: Options, fp: Fingerprint) -> Seq<char> {
    "host "@ + opts.pin_name()
        + " is not known and there is no terminal to ask on.\nIts key is "@ + fp.text()
        + ".\nConnect once interactively, or run: "@ + opts.pins_command() + " add "@
        + opts.pin_name() + " "@ + fp.text()
}

/// What a [`NewHost`] holds.
pub enum NewHostView {
    Accept,
    Refuse(Seq<char>),
    Ask(Seq<char>, Seq<char>),
}

impl View for NewHost {
    type V = NewHostView;

    open spec fn view(&self) -> NewHostView {
        match *self {
            NewHost::Accept => NewHostView::Accept,
            NewHost::Refuse(why) => NewHostView::Refuse(why@),
            NewHost::Ask(question, otherwise) => NewHostView::Ask(question@, otherwise@),
        }
    }
}

/// What is done about the key that an unknown host presented.
pub open spec fn judged(opts: Options, fp: Fingerprint) -> NewHostView {
    match opts.host_key_policy {
        HostKeyPolicy::AcceptNew => NewHostView::Accept,
        HostKeyPolicy::Refuse => NewHostView::Refuse(refused_seen(opts, fp)),
        HostKeyPolicy::Ask => NewHostView::Ask(question(opts, fp), nobody_to_ask(opts, fp)),
    }
}

/// An unknown host is trusted unasked only where that was asked for; it is
/// refused where that was asked for; and otherwise the user is asked. Whatever
/// the user is shown names the host and the very key that it presented.
pub proof fn law_unknown_hosts(opts: Options, fp: Fingerprint)
    ensures
        judged(opts, fp) is Accept <==> opts.host_key_policy is AcceptNew,
        judged(opts, fp) is Refuse <==> opts.host_key_policy is Refuse,
        judged(opts, fp) is Ask <==> opts.host_key_policy is Ask,
        judged(opts, fp) is Refuse ==> occurs(judged(opts, fp)->Refuse_0, opts.pin_name())
            && occurs(judged(opts, fp)->Refuse_0, "sha256:"@ + hex(fp.0@)),
        judged(opts, fp) is Ask ==> {
            &&& occurs(judged(opts, fp)->Ask_0, opts.pin_name())
            &&& occurs(judged(opts, fp)->Ask_0, "sha256:"@ + hex(fp.0@))
            &&& occurs(judged(opts, fp)->Ask_1, opts.pin_name())
            &&& occurs(judged(opts, fp)->Ask_1, "sha256:"@ + hex(fp.0@))
        },
{
    let name = opts.pin_name();
    let key = "sha256:"@ + hex(fp.0@);
    let host = "host "@;
    let refusing =
        " is not known and the host-key policy refuses new hosts (--refuse-new)\nIts key is "@;
    let adding = ". Add it with `"@ + opts.pins_command() + " add "@ + name + " "@ + key + "`."@;
    lemma_both_occur(host, name, refusing, key, adding);
    assert(refused_seen(opts, fp) =~= host + name + refusing + key + adding);
    let asking = "' cannot be established.\nKey fingerprint is "@;
    let sure = ".\nAre you sure you want to continue connecting (yes/no)? "@;
    lemma_both_occur("The authenticity of host '"@, name, asking, key, sure);
    let alone = " is not known and there is no terminal to ask on.\nIts key is "@;
    let running = ".\nConnect once interactively, or run: "@ + opts.pins_command() + " add "@ + name
        + " "@ + key;
    lemma_both_occur(host, name, alone, key, running);
    assert(nobody_to_ask(opts, fp) =~= host + name + alone + key + running);
}

proof fn lemma_both_occur(
    a: Seq<char>,
    x: Seq<char>,
    b: Seq<char>,
    y: Seq<char>,
    c: Seq<char>,
)
    ensures
        occurs(a + x + b + y + c, x),
        occurs(a + x + b + y + c, y),
{
    let s = a + x + b + y + c;
    let i = a.len() as int;
    let j = (a.len() + x.len() + b.len()) as int;
    assert(s.subrange(i, i + x.len()) =~= x);
    assert(s.subrange(j, j + y.len()) =~= y);
}

/// Trust-on-first-use decision for an unknown host.
pub fn accept_new_host(opts: &Options, fp: Fingerprint) -> (r: NewHost)
    ensures
        r@ == judged(*opts, fp),
{
    let host_key = opts.host_key();
    let command = opts.known_hosts_command();
    let text = fp.to_string();
    match opts.host_key_policy {
        HostKeyPolicy::AcceptNew => NewHost::Accept,
        HostKeyPolicy::Refuse => {
            let mut out = "host ".to_owned();
            out.append(host_key.as_str());
            out.append(
                " is not known and the host-key policy refuses new hosts (--refuse-new)\nIts key is ",
            );
            out.append(text.as_str());
            out.append(". Add it with `");
            out.append(command.as_str());
            out.append(" add ");
            out.append(host_key.as_str());
            out.append(" ");
            out.append(text.as_str());
            out.append("`.");
            NewHost::Refuse(out)
        },
        HostKeyPolicy::Ask => {
            let mut q = "The authenticity of host '".to_owned();
            q.append(host_key.as_str());
            q.append("' cannot be established.\nKey fingerprint is ");
            q.append(text.as_str());
            q.append(".\nAre you sure you want to continue connecting (yes/no)? ");
            let mut n = "host ".to_owned();
            n.append(host_key.as_str());
            n.append(" is not known and there is no terminal to ask on.\nIts key is ");
            n.append(text.as_str());
            n.append(".\nConnect once interactively, or run: ");
            n.append(command.as_str());
            n.append(" add ");
            n.append(host_key.as_str());
            n.append(" ");
            n.append(text.as_str());
            NewHost::Ask(q, n)
        },
    }
}

/// Does this answer say yes?
pub open spec fn affirmative(answer: Seq<char>) -> bool {
    words(answer) == seq!["yes"@] || words(answer) == seq!["y"@]
}

/// Nothing but a single word that says so is a yes: not an empty answer, not a
/// no, not a yes among other words.
pub proof fn law_only_yes_is_yes(answer: Seq<char>)
    ensures
        affirmative(answer) ==> words(answer).len() == 1,
        words(answer).len() == 1 ==> (affirmative(answer) <==> words(answer)[0] == "yes"@ || words(
            answer,
        )[0] == "y"@),
{
    assert(seq!["yes"@][0] == "yes"@ && seq!["y"@][0] == "y"@);
    if words(answer).len() == 1 {
        assert(words(answer) =~= seq![words(answer)[0]]);
    }
}

/// Does this answer say yes? White space around it does not matter.
pub fn answers_yes(answer: &str) -> (r: bool)
    ensures
        r == affirmative(answer@),
{
    let w = split_words(answer);
    if w.len() != 1 {
        assert(texts(w@).len() == w@.len());
        return false;
    }
    assert(texts(w@) =~= seq![w@[0]@]);
    let r: bool = same(w[0].as_str(), "yes") || same(w[0].as_str(), "y");
    proof {
        assert(seq!["yes"@][0] == "yes"@);
        assert(seq!["y"@][0] == "y"@);
        assert(seq![w@[0]@][0] == w@[0]@);
    }
    r
}

/// What is said when the user does not accept a host key.
pub fn not_accepted(opts: &Options) -> (out: String)
    ensures
        out@ == "host key for "@ + opts.pin_name() + " was not accepted"@,
{
    let mut out = "host key for ".to_owned();
    out.append(opts.host_key().as_str());
    out.append(" was not accepted");
    out
}

/// What is said once a host key has been pinned, unless the user wants quiet.
pub fn pinned_notice(opts: &Options, fp: Fingerprint) -> (out: Option<String>)
    ensures
        opt(out) == (if opts.quiet {
            None
        } else {
            Some(
                "qsh: permanently added "@ + opts.pin_name() + " ("@ + fp.text()
                    + ") to known hosts"@,
            )
        }),
{
    if opts.quiet {
        return None;
    }
    let mut out = "qsh: permanently added ".to_owned();
    out.append(opts.host_key().as_str());
    out.append(" (");
    out.append(fp.to_string().as_str());
    out.append(") to known hosts");
    Some(out)
}

// ---------------------------------------------------------------------------
// The session
// ---------------------------------------------------------------------------

/// Should this session allocate a remote terminal? The same rule as ssh: an
/// interactive login gets a terminal, a command does not.
pub open spec fn wants_pty(opts: Options, stdin_is_terminal: bool) -> bool {
    match opts.pty {
        PtyPolicy::Force => true,
        PtyPolicy::Never => false,
        PtyPolicy::Auto => opts.command is None && !opts.no_stdin && stdin_is_terminal,
    }
}

/// Should this session allocate a remote terminal?
pub fn want_pty(opts: &Options, stdin_is_terminal: bool) -> (r: bool)
    ensures
        r == wants_pty(*opts, stdin_is_terminal),
{
    match opts.pty {
        PtyPolicy::Force => true,
        PtyPolicy::Never => false,
        PtyPolicy::Auto => opts.command.is_none() && !opts.no_stdin && stdin_is_terminal,
    }
}

/// What the client's own environment says, as far as it is passed on.
#[derive(Debug)]
pub struct LocalEnv {
    pub term: Option<String>,
    pub lang: Option<String>,
    pub lc_all: Option<String>,
    pub lc_ctype: Option<String>,
    pub colorterm: Option<String>,
}

/// Is the variable among those already there?
pub open spec fn has_var(env: Seq<(Seq<char>, Seq<char>)>, name: Seq<char>) -> bool {
    exists|i: int| 0 <= i < env.len() && (#[trigger] env[i]).0 == name
}

/// `env` with one more variable, if it has a value and is not there yet.
pub open spec fn with_var(
    env: Seq<(Seq<char>, Seq<char>)>,
    name: Seq<char>,
    value: Option<Seq<char>>,
) -> Seq<(Seq<char>, Seq<char>)> {
    if value is Some && !has_var(env, name) {
        env.push((name, value->0))
    } else {
        env
    }
}

/// The environment that is sent: what the user asked for, and the local
/// settings of the language and the colours where the user did not.
pub open spec fn sent_env(env: Seq<(Seq<char>, Seq<char>)>, local: LocalEnv) -> Seq<
    (Seq<char>, Seq<char>),
> {
    let e1 = with_var(env, "LANG"@, opt(local.lang));
    let e2 = with_var(e1, "LC_ALL"@, opt(local.lc_all));
    let e3 = with_var(e2, "LC_CTYPE"@, opt(local.lc_ctype));
    with_var(e3, "COLORTERM"@, opt(local.colorterm))
}

/// The request that opens a session.
pub open spec fn request_for(
    opts: Options,
    local: LocalEnv,
    use_pty: bool,
    size: PtySize,
) -> RequestView {
    RequestView {
        version: PROTOCOL_VERSION,
        user: opt(opts.user),
        command: match opts.command {
            Some(c) => Some(texts(c@)),
            None => None,
        },
        pty: if use_pty {
            Some(
                PtyRequestView {
                    term: match local.term {
                        Some(t) => t@,
                        None => "xterm"@,
                    },
                    size,
                },
            )
        } else {
            None
        },
        env: sent_env(pairs(opts.env@), local),
    }
}

fn add_local(env: &mut Vec<(String, String)>, name: &str, value: &Option<String>)
    ensures
        pairs(final(env)@) == with_var(pairs(old(env)@), name@, opt(*value)),
{
    let ghost before = pairs(env@);
    if let Some(v) = value {
        let mut i: usize = 0;
        while i < env.len()
            invariant
                i <= env@.len(),
                env@ == old(env)@,
                before == pairs(env@),
                forall|k: int| 0 <= k < i ==> (#[trigger] before[k]).0 != name@,
                opt(*value) == Some(v@),
            decreases env@.len() - i,
        {
            assert(before[i as int] == (env@[i as int].0@, env@[i as int].1@));
            if same(env[i].0.as_str(), name) {
                assert(before[i as int].0 == name@);
                return ;
            }
            i += 1;
        }
        let ghost e0 = env@;
        env.push((name.to_owned(), v.clone()));
        assert(pairs(env@) =~= pairs(e0).push((name@, v@)));
        assert(!has_var(before, name@));
    }
}

/// The request that opens a session.
pub fn session_request(opts: &Options, local: &LocalEnv, use_pty: bool, size: PtySize) -> (req:
    Request)
    ensures
        req@ == request_for(*opts, *local, use_pty, size),
{
    let mut env: Vec<(String, String)> = Vec::new();
    let mut i: usize = 0;
    assert(pairs(env@) =~= pairs(opts.env@).take(0));
    while i < opts.env.len()
        invariant
            i <= opts.env@.len(),
            pairs(env@) == pairs(opts.env@).take(i as int),
        decreases opts.env@.len() - i,
    {
        let ghost before = env@;
        env.push((opts.env[i].0.clone(), opts.env[i].1.clone()));
        let ghost asked = pairs(opts.env@);
        assert(asked[i as int] == (opts.env@[i as int].0@, opts.env@[i as int].1@));
        assert(pairs(env@) =~= pairs(before).push(asked[i as int]));
        assert(asked.take(i + 1) =~= asked.take(i as int).push(asked[i as int]));
        i += 1;
    }
    assert(pairs(opts.env@).take(i as int) =~= pairs(opts.env@));
    add_local(&mut env, "LANG", &local.lang);
    add_local(&mut env, "LC_ALL", &local.lc_all);
    add_local(&mut env, "LC_CTYPE", &local.lc_ctype);
    add_local(&mut env, "COLORTERM", &local.colorterm);
    let user: Option<String> = match &opts.user {
        Some(u) => Some(u.clone()),
        None => None,
    };
    let command: Option<Vec<String>> = match &opts.command {
        Some(c) => Some(copy_texts(c)),
        None => None,
    };
    let pty: Option<PtyRequest> = if use_pty {
        let term = match &local.term {
            Some(t) => t.clone(),
            None => "xterm".to_owned(),
        };
        Some(PtyRequest { term, size })
    } else {
        None
    };
    let req = Request { version: PROTOCOL_VERSION, user, command, pty, env };
    assert(req@ =~= request_for(*opts, *local, use_pty, size));
    req
}

/// The request carries what the user asked for: the command word for word, as
/// many words as were given and each as it was given, never joined to one; none
/// where none was given; the account where one was named; and a terminal, as
/// large as the local one and of the same name, exactly where one is used.
pub proof fn law_request_carries_what_was_asked(
    opts: Options,
    local: LocalEnv,
    use_pty: bool,
    size: PtySize,
)
    ensures
        ({
            let req = request_for(opts, local, use_pty, size);
            &&& req.version == 1
            &&& req.command is Some <==> opts.command is Some
            &&& opts.command is Some ==> req.command->0.len() == opts.command->0@.len()
            &&& opts.command is Some ==> forall|i: int|
                0 <= i < opts.command->0@.len() ==> (#[trigger] req.command->0[i])
                    == opts.command->0@[i]@
            &&& req.user is Some <==> opts.user is Some
            &&& opts.user is Some ==> req.user->0 == opts.user->0@
            &&& req.pty is Some <==> use_pty
            &&& use_pty ==> req.pty->0.size.cols == size.cols && req.pty->0.size.rows == size.rows
            &&& use_pty && local.term is Some ==> req.pty->0.term == local.term->0@
            &&& use_pty && local.term is None ==> req.pty->0.term == "xterm"@
        }),
{
}

/// Adding a variable leaves the others as they are.
proof fn lemma_with_var(
    env: Seq<(Seq<char>, Seq<char>)>,
    name: Seq<char>,
    value: Option<Seq<char>>,
)
    ensures
        ({
            let out = with_var(env, name, value);
            &&& env.is_prefix_of(out)
            &&& env.len() <= out.len() <= env.len() + 1
            &&& value is Some ==> has_var(out, name)
            &&& out.len() > env.len() ==> value is Some && out[env.len() as int] == (
                name,
                value->0,
            ) && !has_var(env, name)
        }),
{
    let out = with_var(env, name, value);
    assert(out.take(env.len() as int) =~= env);
    if value is Some && !has_var(env, name) {
        assert(out[env.len() as int].0 == name);
    }
}

/// What the user asked to be set is sent first, all of it and in order. Then
/// come the local settings of the language and the colours, as far as there are
/// any and the user did not ask for another value, and nothing else.
pub proof fn law_environment_that_is_sent(
    opts: Options,
    local: LocalEnv,
    use_pty: bool,
    size: PtySize,
)
    ensures
        ({
            let asked = pairs(opts.env@);
            let env = request_for(opts, local, use_pty, size).env;
            &&& asked.is_prefix_of(env)
            &&& local.lang is Some ==> has_var(env, "LANG"@)
            &&& local.lc_all is Some ==> has_var(env, "LC_ALL"@)
            &&& local.lc_ctype is Some ==> has_var(env, "LC_CTYPE"@)
            &&& local.colorterm is Some ==> has_var(env, "COLORTERM"@)
            &&& forall|i: int|
                asked.len() <= i < env.len() ==> {
                    let (name, value) = #[trigger] env[i];
                    &&& !has_var(asked, name)
                    &&& {
                        ||| name == "LANG"@ && opt(local.lang) == Some(value)
                        ||| name == "LC_ALL"@ && opt(local.lc_all) == Some(value)
                        ||| name == "LC_CTYPE"@ && opt(local.lc_ctype) == Some(value)
                        ||| name == "COLORTERM"@ && opt(local.colorterm) == Some(value)
                    }
                }
        }),
{
    let e0 = pairs(opts.env@);
    let e1 = with_var(e0, "LANG"@, opt(local.lang));
    let e2 = with_var(e1, "LC_ALL"@, opt(local.lc_all));
    let e3 = with_var(e2, "LC_CTYPE"@, opt(local.lc_ctype));
    let e4 = with_var(e3, "COLORTERM"@, opt(local.colorterm));
    lemma_with_var(e0, "LANG"@, opt(local.lang));
    lemma_with_var(e1, "LC_ALL"@, opt(local.lc_all));
    lemma_with_var(e2, "LC_CTYPE"@, opt(local.lc_ctype));
    lemma_with_var(e3, "COLORTERM"@, opt(local.colorterm));
    lemma_prefix_has(e0, e1);
    lemma_prefix_has(e1, e2);
    lemma_prefix_has(e2, e3);
    lemma_prefix_has(e3, e4);
    assert(e4.take(e0.len() as int) =~= e0);
}

/// A longer environment has the variables of its beginning.
proof fn lemma_prefix_has(env: Seq<(Seq<char>, Seq<char>)>, longer: Seq<(Seq<char>, Seq<char>)>)
    requires
        env.is_prefix_of(longer),
    ensures
        forall|name: Seq<char>| #[trigger] has_var(env, name) ==> has_var(longer, name),
        forall|i: int| 0 <= i < env.len() ==> env[i] == #[trigger] longer[i],
{
    assert(longer.take(env.len() as int) =~= env);
    assert forall|i: int| 0 <= i < env.len() implies env[i] == #[trigger] longer[i] by {
        assert(longer.take(env.len() as int)[i] == longer[i]);
    }
    assert forall|name: Seq<char>| #[trigger] has_var(env, name) implies has_var(longer, name) by {
        let i = choose|i: int| 0 <= i < env.len() && (#[trigger] env[i]).0 == name;
        assert(longer[i].0 == name);
    }
}

/// A shell at a terminal gets a terminal, and a command gets none, unless the
/// user asks for it to be otherwise; and what the user asks for is done.
pub proof fn law_who_gets_a_terminal(opts: Options, stdin_is_terminal: bool)
    ensures
        opts.pty is Force ==> wants_pty(opts, stdin_is_terminal),
        opts.pty is Never ==> !wants_pty(opts, stdin_is_terminal),
        opts.pty is Auto && opts.command is Some ==> !wants_pty(opts, stdin_is_terminal),
        opts.pty is Auto && !stdin_is_terminal ==> !wants_pty(opts, stdin_is_terminal),
        opts.pty is Auto && opts.no_stdin ==> !wants_pty(opts, stdin_is_terminal),
        opts.pty is Auto && opts.command is None && stdin_is_terminal && !opts.no_stdin
            ==> wants_pty(opts, stdin_is_terminal),
{
}

/// The status of a session that was refused without one.
pub const REFUSED: i32 = 126;

/// The status that the local shell reports for a termination: one that is too
/// large to be a status at all counts as a failure of the client's own.
pub open spec fn local_status(status: ExitStatus) -> int {
    if status.shell_status() <= i32::MAX {
        status.shell_status()
    } else {
        255
    }
}

/// The status that the local shell reports for a termination.
pub fn status_of(status: &ExitStatus) -> (code: i32)
    ensures
        code == local_status(*status),
{
    match status.signal {
        Some(sig) => if sig > i32::MAX - 128 {
            255
        } else {
            status.wait_status()
        },
        None => status.wait_status(),
    }
}

/// The exit code of the client for a status.
pub open spec fn exit_byte(status: int) -> u8 {
    if 0 <= status <= 255 {
        status as u8
    } else {
        255
    }
}

/// The client ends as the remote process ended. Its code is the client's, every
/// one that a process can have; a signal shows as 128 and its number, as a shell
/// has it.
pub proof fn law_client_ends_like_the_process(code: i32, sig: i32)
    ensures
        ({
            let exited = ExitStatus { code, signal: None };
            let killed = ExitStatus { code, signal: Some(sig) };
            &&& 0 <= code <= 255 ==> exit_byte(local_status(exited)) == code
            &&& 1 <= sig <= 64 ==> exit_byte(local_status(killed)) == 128 + sig
        }),
{
}

/// The client ends in success only if the remote process did: never for another
/// code, whatever it is, nor for one that a signal ended.
pub proof fn law_no_false_success(status: ExitStatus)
    requires
        status.signal is None || status.signal->0 > 0,
    ensures
        exit_byte(local_status(status)) == 0 <==> status.code == 0 && status.signal is None,
        i32::MIN <= local_status(status) <= i32::MAX,
{
}

/// The exit code of the client for a status: statuses outside a byte cannot be
/// represented; 255 is what ssh reports for its own failures.
pub fn exit_code(status: i32) -> (code: u8)
    ensures
        code == exit_byte(status as int),
{
    if 0 <= status && status <= 255 {
        status as u8
    } else {
        255
    }
}

/// What the server's first reply means.
#[derive(Debug)]
pub enum Reply {
    /// The process was started.
    Started,
    /// The session was refused; print this, then look for the status.
    Refused(String),
    /// The reply is none: fail, saying so.
    Unexpected,
    /// The server closed the session without a reply.
    Closed,
}

/// What a [`Reply`] holds.
pub enum ReplyView {
    Started,
    Refused(Seq<char>),
    Unexpected,
    Closed,
}

impl View for Reply {
    type V = ReplyView;

    open spec fn view(&self) -> ReplyView {
        match *self {
            Reply::Started => ReplyView::Started,
            Reply::Refused(s) => ReplyView::Refused(s@),
            Reply::Unexpected => ReplyView::Unexpected,
            Reply::Closed => ReplyView::Closed,
        }
    }
}

/// What the server's first reply means; `None` is the end of the stream.
pub open spec fn reply_of(frame: Option<FrameView>) -> ReplyView {
    match frame {
        None => ReplyView::Closed,
        Some(FrameView::Started) => ReplyView::Started,
        Some(FrameView::Error(msg)) => ReplyView::Refused("qsh: "@ + msg),
        Some(_) => ReplyView::Unexpected,
    }
}

/// The status of a refused session, given what follows the error.
pub open spec fn refused_code(next: Option<FrameView>) -> int {
    match next {
        Some(FrameView::Exit(s)) => local_status(s),
        _ => REFUSED as int,
    }
}

/// A session that the server refuses is told at the client, for the reason that
/// the server gave, and ends there with the status of a command that cannot be
/// executed, also where the server does not get to say so. It never counts as
/// started, and only what the server says has started does.
pub proof fn law_refusals_are_told(why: Seq<char>, first: Option<FrameView>)
    ensures
        ({
            let (error, exit) = refusal_reply(why);
            &&& reply_of(Some(error)) == ReplyView::Refused("qsh: "@ + bounded(why))
            &&& refused_code(Some(exit)) == 126
            &&& refused_code(None) == 126
            &&& reply_of(first) is Started <==> first == Some(FrameView::Started)
            &&& first is None ==> reply_of(first) is Closed
        }),
{
}

/// What the server's first reply means; `None` is the end of the stream.
pub fn first_reply(frame: Option<Frame>) -> (r: Reply)
    ensures
        r@ == reply_of(
            match frame {
                Some(f) => Some(f@),
                None => None,
            },
        ),
        match frame {
            None => r is Closed,
            Some(f) => match f@ {
                FrameView::Started => r is Started,
                FrameView::Error(msg) => r matches Reply::Refused(m) && m@ == "qsh: "@ + msg,
                _ => r is Unexpected,
            },
        },
{
    match frame {
        None => Reply::Closed,
        Some(f) => match f {
            Frame::Started => Reply::Started,
            Frame::Error(msg) => {
                let mut out = "qsh: ".to_owned();
                out.append(msg.as_str());
                Reply::Refused(out)
            },
            _ => Reply::Unexpected,
        },
    }
}

/// The status of a refused session: the one the server sends after the error,
/// or a shell's "cannot execute" if none comes.
pub fn refused_status(next: Option<Frame>) -> (code: i32)
    ensures
        code == refused_code(
            match next {
                Some(f) => Some(f@),
                None => None,
            },
        ),
{
    match next {
        Some(f) => match f {
            Frame::Exit(s) => status_of(&s),
            _ => REFUSED,
        },
        None => REFUSED,
    }
}

/// Which tasks a session has on the client's side.
#[derive(Debug, Clone, Copy, PartialEq, Eq, Structural)]
pub struct Tasks {
    /// Put the local terminal into raw mode, and honour the `~.` escape?
    pub terminal_input: bool,
    /// Forward the local input? Otherwise its end is sent at once.
    pub stdin: bool,
    /// Forward changes of the terminal's size?
    pub winch: bool,
    /// Relay local signals? With a terminal, Ctrl-C is a byte of the input.
    pub signals: bool,
}

/// Which tasks a session has on the client's side.
pub open spec fn tasks_of(use_pty: bool, no_stdin: bool, stdin_is_terminal: bool) -> Tasks {
    Tasks {
        terminal_input: use_pty && !no_stdin && stdin_is_terminal,
        stdin: !no_stdin,
        winch: use_pty,
        signals: !(use_pty && !no_stdin && stdin_is_terminal),
    }
}

/// Local input is forwarded unless the user wants none. The local terminal is
/// switched to raw mode, and the escape honoured, only where its input goes to a
/// remote terminal; in every other case signals are relayed, since no byte
/// carries them. The size is watched exactly where there is a remote terminal.
pub proof fn law_tasks(use_pty: bool, no_stdin: bool, stdin_is_terminal: bool)
    ensures
        ({
            let t = tasks_of(use_pty, no_stdin, stdin_is_terminal);
            &&& t.stdin != no_stdin
            &&& t.terminal_input != t.signals
            &&& t.terminal_input ==> use_pty && t.stdin && stdin_is_terminal
            &&& use_pty && stdin_is_terminal && t.stdin ==> t.terminal_input
            &&& t.winch == use_pty
        }),
{
}

/// Which tasks a session has on the client's side.
pub fn tasks(use_pty: bool, no_stdin: bool, stdin_is_terminal: bool) -> (t: Tasks)
    ensures
        t.terminal_input == (use_pty && !no_stdin && stdin_is_terminal),
        t.stdin == !no_stdin,
        t.winch == use_pty,
        t.signals == !t.terminal_input,
        t == tasks_of(use_pty, no_stdin, stdin_is_terminal),
{
    let terminal_input: bool = use_pty && !no_stdin && stdin_is_terminal;
    Tasks { terminal_input, stdin: !no_stdin, winch: use_pty, signals: !terminal_input }
}

/// What a frame from the server asks for.
#[derive(Debug)]
pub enum Apply {
    /// Write these bytes to the local standard output.
    Stdout(Vec<u8>),
    /// Write these bytes to the local standard error.
    Stderr(Vec<u8>),
    /// Print this message.
    Print(String),
    /// The session is over with this status.
    Exit(i32),
    Nothing,
}

/// What an [`Apply`] holds.
pub enum ApplyView {
    Stdout(Seq<u8>),
    Stderr(Seq<u8>),
    Print(Seq<char>),
    Exit(int),
    Nothing,
}

impl View for Apply {
    type V = ApplyView;

    open spec fn view(&self) -> ApplyView {
        match *self {
            Apply::Stdout(b) => ApplyView::Stdout(b@),
            Apply::Stderr(b) => ApplyView::Stderr(b@),
            Apply::Print(s) => ApplyView::Print(s@),
            Apply::Exit(code) => ApplyView::Exit(code as int),
            Apply::Nothing => ApplyView::Nothing,
        }
    }
}

/// What a frame from the server asks for.
pub open spec fn applied(frame: FrameView) -> ApplyView {
    match frame {
        FrameView::Stdout(data) => ApplyView::Stdout(data),
        FrameView::Stderr(data) => ApplyView::Stderr(data),
        FrameView::Error(msg) => ApplyView::Print("qsh: "@ + msg),
        FrameView::Exit(s) => ApplyView::Exit(local_status(s)),
        _ => ApplyView::Nothing,
    }
}

/// The bytes that some frames write to the local standard output, or to the
/// local standard error.
pub open spec fn written_out(frames: Seq<FrameView>, to_stderr: bool) -> Seq<u8>
    decreases frames.len(),
{
    if frames.len() == 0 {
        Seq::empty()
    } else {
        written_out(frames.drop_last(), to_stderr) + (match applied(frames.last()) {
            ApplyView::Stdout(b) => if to_stderr {
                Seq::empty()
            } else {
                b
            },
            ApplyView::Stderr(b) => if to_stderr {
                b
            } else {
                Seq::empty()
            },
            _ => Seq::empty(),
        })
    }
}

/// The output that some frames carry.
pub open spec fn carried_out(frames: Seq<FrameView>, stderr: bool) -> Seq<u8>
    decreases frames.len(),
{
    if frames.len() == 0 {
        Seq::empty()
    } else {
        carried_out(frames.drop_last(), stderr) + (match frames.last() {
            FrameView::Stdout(b) if !stderr => b,
            FrameView::Stderr(b) if stderr => b,
            _ => Seq::empty(),
        })
    }
}

/// The output of the process comes out at the client byte for byte and in order,
/// each of the two streams in its own place, whatever comes in between.
pub proof fn law_output_comes_out_as_it_was(frames: Seq<FrameView>, stderr: bool)
    ensures
        written_out(frames, stderr) == carried_out(frames, stderr),
    decreases frames.len(),
{
    if frames.len() > 0 {
        law_output_comes_out_as_it_was(frames.drop_last(), stderr);
    }
}

/// The session ends with the status that the server tells, and with no other
/// frame.
pub proof fn law_exit_frames_end_the_session(frame: FrameView)
    ensures
        applied(frame) is Exit <==> frame is Exit,
        frame matches FrameView::Exit(s) ==> (s.signal is None ==> applied(frame)
            == ApplyView::Exit(s.code as int)) && (s.signal is Some && s.signal->0 <= 1000
            ==> applied(frame) == ApplyView::Exit(128 + s.signal->0)),
        applied(frame) is Print <==> frame is Error,
{
}

/// `qsh` exits with the remote command's exit status: whatever a process exits
/// with on the server, once its output was delivered and it was reaped, is what
/// the client exits with, on every run of a session that gets that far.
pub proof fn law_exit_status_travels(is_pty: bool, events: Seq<Event>, i: int, code: i32)
    requires
        reaped_at(is_pty, events, i, (Some(code), None)),
        0 <= code <= 255,
    ensures
        ({
            let told = Session::reached(is_pty, events).status();
            &&& told is Some
            &&& applied(FrameView::Exit(told->0)) == ApplyView::Exit(code as int)
            &&& exit_byte(code as int) == code
        }),
{
    crate::session::law_status_is_that_of_the_process(is_pty, events, i, Some(code), None);
}

/// What a frame from the server asks for. Output is written exactly as it came.
pub fn apply(frame: Frame) -> (a: Apply)
    ensures
        a@ == applied(frame@),
        match frame@ {
            FrameView::Stdout(data) => a matches Apply::Stdout(b) && b@ == data,
            FrameView::Stderr(data) => a matches Apply::Stderr(b) && b@ == data,
            FrameView::Error(msg) => a matches Apply::Print(m) && m@ == "qsh: "@ + msg,
            FrameView::Exit(s) => a matches Apply::Exit(code) && code == local_status(s),
            _ => a is Nothing,
        },
{
    match frame {
        Frame::Stdout(data) => Apply::Stdout(data),
        Frame::Stderr(data) => Apply::Stderr(data),
        Frame::Error(msg) => {
            let mut out = "qsh: ".to_owned();
            out.append(msg.as_str());
            Apply::Print(out)
        },
        Frame::Exit(status) => Apply::Exit(status_of(&status)),
        _ => Apply::Nothing,
    }
}

/// The outcome of a session once nothing more comes: no exit status means that
/// the stream ended early, which is never reported as a successful run.
pub fn session_outcome(exit: Option<i32>) -> (r: Result<i32, String>)
    ensures
        match exit {
            Some(code) => r == Ok::<i32, String>(code),
            None => r is Err && r->Err_0@
                == "the connection closed before the remote process reported an exit status"@,
        },
{
    match exit {
        Some(code) => Ok(code),
        None => Err(
            "the connection closed before the remote process reported an exit status".to_owned(),
        ),
    }
}

/// The size to use: that of the first descriptor that has one.
pub open spec fn size_of(
    stdin: Option<PtySize>,
    stdout: Option<PtySize>,
    stderr: Option<PtySize>,
) -> PtySize {
    match stdin {
        Some(a) => a,
        None => match stdout {
            Some(b) => b,
            None => match stderr {
                Some(c) => c,
                None => PtySize { cols: 80, rows: 24 },
            },
        },
    }
}

/// Wherever the local terminal is found, the remote one gets its size: the
/// request asks for as many columns and as many rows. Without any it is 80
/// columns wide and 24 rows high.
pub proof fn law_remote_terminal_is_as_large(
    opts: Options,
    local: LocalEnv,
    size: PtySize,
    stdin: Option<PtySize>,
    stdout: Option<PtySize>,
    stderr: Option<PtySize>,
)
    requires
        stdin == Some(size) || (stdin is None && stdout == Some(size)) || (stdin is None
            && stdout is None && stderr == Some(size)),
    ensures
        ({
            let req = request_for(opts, local, true, size_of(stdin, stdout, stderr));
            let none = request_for(opts, local, true, size_of(None, None, None));
            &&& req.pty->0.size.cols == size.cols && req.pty->0.size.rows == size.rows
            &&& none.pty->0.size.cols == 80 && none.pty->0.size.rows == 24
        }),
{
}

/// The size to use: that of the first descriptor that has one. A forced terminal
/// may receive piped input while output still goes to a terminal.
pub fn terminal_size(stdin: Option<PtySize>, stdout: Option<PtySize>, stderr: Option<PtySize>) -> (s:
    PtySize)
    ensures
        s == size_of(stdin, stdout, stderr),
{
    match stdin {
        Some(a) => a,
        None => match stdout {
            Some(b) => b,
            None => match stderr {
                Some(c) => c,
                None => PtySize::default(),
            },
        },
    }
}

/// What to send after the terminal may have changed its size.
pub open spec fn resize_frame(last: PtySize, now: PtySize) -> Option<FrameView> {
    if last == now {
        None
    } else {
        Some(FrameView::Resize(now))
    }
}

/// A change of the size is told, be it of the columns or of the rows, as the size
/// that there is now, and the server passes on just that; what has not changed is
/// not told.
pub proof fn law_resizing_is_told(last: PtySize, now: PtySize, c: Control)
    ensures
        last.cols != now.cols || last.rows != now.rows <==> resize_frame(last, now) is Some,
        resize_frame(last, now) is Some ==> c.answer(resize_frame(last, now))
            == ControlStepView::Pass(ControlEvent::Resize(now)),
{
}

/// What to send after the terminal may have changed its size: nothing if it has
/// not.
pub fn resized(last: &mut PtySize, now: PtySize) -> (f: Option<Frame>)
    ensures
        match f {
            Some(frame) => resize_frame(*old(last), now) == Some(frame@),
            None => resize_frame(*old(last), now) is None,
        },
        *final(last) == now,
        match f {
            Some(frame) => *old(last) != now && frame@ == FrameView::Resize(now),
            None => *old(last) == now,
        },
{
    if *last == now {
        return None;
    }
    *last = now;
    Some(Frame::Resize(now))
}

/// The exit code of a client that a signal ended after its terminal was
/// restored.
pub fn signalled_code(sig: i32) -> (code: i32)
    requires
        0 <= sig <= 64,
    ensures
        code == 128 + sig,
{
    128 + sig
}

// ---------------------------------------------------------------------------
// Local input
// ---------------------------------------------------------------------------

/// The `~.` escape sequence, recognised only at the start of a line.
#[derive(Debug, Clone, Copy, PartialEq, Eq, Structural)]
pub struct EscapeState {
    pub enabled: bool,
    pub at_line_start: bool,
    pub after_tilde: bool,
}

/// Does this byte end a line?
pub open spec fn ends_line(b: u8) -> bool {
    b == 13 || b == 10
}

impl EscapeState {
    /// What one byte does: the state after it and the bytes to forward, or
    /// `None` if the user asked to disconnect.
    pub open spec fn took(self, b: u8) -> Option<(EscapeState, Seq<u8>)> {
        if !self.enabled {
            Some((self, seq![b]))
        } else if self.after_tilde {
            if b == 46 {
                None
            } else {
                Some(
                    (
                        EscapeState { after_tilde: false, at_line_start: ends_line(b), ..self },
                        if b == 126 {
                            seq![126u8]
                        } else {
                            seq![126u8, b]
                        },
                    ),
                )
            }
        } else if self.at_line_start && b == 126 {
            Some((EscapeState { after_tilde: true, ..self }, Seq::empty()))
        } else {
            Some((EscapeState { at_line_start: ends_line(b), ..self }, seq![b]))
        }
    }

    /// What some bytes do: the state after them, the bytes to forward, and
    /// whether the user asked to disconnect, after which nothing is forwarded.
    pub open spec fn filtered(self, input: Seq<u8>) -> (EscapeState, Seq<u8>, bool)
        decreases input.len(),
    {
        if input.len() == 0 {
            (self, Seq::empty(), false)
        } else {
            let (state, out, gone) = self.filtered(input.drop_last());
            if gone {
                (state, out, true)
            } else {
                match state.took(input.last()) {
                    Some((next, more)) => (next, out + more, false),
                    None => (EscapeState { after_tilde: false, ..state }, out, true),
                }
            }
        }
    }

    /// The state before any input.
    pub open spec fn fresh(enabled: bool) -> EscapeState {
        EscapeState { enabled, at_line_start: true, after_tilde: false }
    }

    pub fn new(enabled: bool) -> (s: EscapeState)
        ensures
            s == EscapeState::fresh(enabled),
    {
        EscapeState { enabled, at_line_start: true, after_tilde: false }
    }

    /// Returns the bytes to forward and whether the user asked to disconnect.
    pub fn filter(&mut self, input: &[u8]) -> (r: (Vec<u8>, bool))
        ensures
            (*final(self), r.0@, r.1) == old(self).filtered(input@),
    {
        let ghost start = *self;
        let mut out: Vec<u8> = Vec::new();
        let mut i: usize = 0;
        assert(input@.take(0) =~= Seq::empty());
        assert(out@ =~= Seq::empty());
        while i < input.len()
            invariant
                i <= input@.len(),
                start == *old(self),
                (*self, out@, false) == start.filtered(input@.take(i as int)),
            decreases input@.len() - i,
        {
            let b: u8 = input[i];
            let ghost before = out@;
            assert(input@.take(i + 1).drop_last() =~= input@.take(i as int));
            assert(input@.take(i + 1).last() == b);
            if !self.enabled {
                out.push(b);
                assert(out@ =~= before + seq![b]);
            } else if self.after_tilde {
                self.after_tilde = false;
                if b == 46 {
                    proof {
                        lemma_filter_stops(start, input@, i as int + 1);
                    }
                    return (out, true);
                }
                out.push(126);
                if b != 126 {
                    out.push(b);
                    assert(out@ =~= before + seq![126u8, b]);
                } else {
                    assert(out@ =~= before + seq![126u8]);
                }
                self.at_line_start = b == 13 || b == 10;
            } else if self.at_line_start && b == 126 {
                self.after_tilde = true;
                assert(out@ =~= before + Seq::empty());
            } else {
                self.at_line_start = b == 13 || b == 10;
                out.push(b);
                assert(out@ =~= before + seq![b]);
            }
            i += 1;
        }
        assert(input@.take(i as int) =~= input@);
        (out, false)
    }
}

/// After the user asked to disconnect, the rest of the input does not matter.
proof fn lemma_filter_stops(s: EscapeState, input: Seq<u8>, k: int)
    requires
        0 <= k <= input.len(),
        s.filtered(input.take(k)).2,
    ensures
        s.filtered(input) == s.filtered(input.take(k)),
    decreases input.len() - k,
{
    if k < input.len() {
        assert(input.take(k + 1).drop_last() =~= input.take(k));
        lemma_filter_stops(s, input, k + 1);
    } else {
        assert(input.take(k) =~= input);
    }
}

/// How the input is cut into chunks makes no difference: filtering one chunk and
/// then another is filtering both at once.
pub proof fn law_chunks_do_not_matter(s: EscapeState, a: Seq<u8>, b: Seq<u8>)
    ensures
        ({
            let (s1, out1, gone1) = s.filtered(a);
            let (s2, out2, gone2) = s1.filtered(b);
            if gone1 {
                s.filtered(a + b) == (s1, out1, true)
            } else {
                s.filtered(a + b) == (s2, out1 + out2, gone2)
            }
        }),
    decreases b.len(),
{
    let (s1, out1, gone1) = s.filtered(a);
    if gone1 {
        assert((a + b).take(a.len() as int) =~= a);
        lemma_filter_stops(s, a + b, a.len() as int);
    } else if b.len() == 0 {
        assert(a + b =~= a);
        assert(out1 + Seq::<u8>::empty() =~= out1);
    } else {
        law_chunks_do_not_matter(s, a, b.drop_last());
        assert((a + b).drop_last() =~= a + b.drop_last());
        assert((a + b).last() == b.last());
        let (s2, out2, gone2) = s1.filtered(b.drop_last());
        if !gone2 {
            if let Some((_, more)) = s2.took(b.last()) {
                assert((out1 + out2) + more =~= out1 + (out2 + more));
            }
        }
    }
}

/// Without a terminal nothing is ever interpreted: every byte is forwarded as it
/// came.
pub proof fn law_no_terminal_no_escape(s: EscapeState, input: Seq<u8>)
    requires
        !s.enabled,
    ensures
        s.filtered(input) == (s, input, false),
    decreases input.len(),
{
    if input.len() > 0 {
        law_no_terminal_no_escape(s, input.drop_last());
        assert(input.drop_last() + seq![input.last()] =~= input);
    } else {
        assert(input =~= Seq::empty());
    }
}

/// Does the byte at `p` stand at the start of a line?
pub open spec fn starts_line(input: Seq<u8>, p: int) -> bool {
    p == 0 || input[p - 1] == 10 || input[p - 1] == 13
}

/// Is there a tilde at the start of a line with a full stop behind it?
pub open spec fn escapes_at(input: Seq<u8>, p: int) -> bool {
    &&& 0 <= p
    &&& p + 1 < input.len()
    &&& starts_line(input, p)
    &&& input[p] == 126
    &&& input[p + 1] == 46
}

/// Where a fresh state stands after some input without an escape.
proof fn lemma_escape_state(input: Seq<u8>)
    ensures
        ({
            let (s, _, gone) = EscapeState::fresh(true).filtered(input);
            let n = input.len();
            let tilde = n > 0 && input[n - 1] == 126 && starts_line(input, n - 1);
            &&& gone <==> exists|p: int| escapes_at(input, p)
            &&& !gone ==> s.enabled && s.after_tilde == tilde && (!tilde ==> s.at_line_start
                == starts_line(input, n as int))
        }),
    decreases input.len(),
{
    if input.len() > 0 {
        let past = input.drop_last();
        let n = input.len();
        lemma_escape_state(past);
        assert forall|p: int| 0 <= p && p + 1 < past.len() implies #[trigger] escapes_at(past, p)
            == escapes_at(input, p) by {}
        if exists|p: int| escapes_at(past, p) {
            let p = choose|p: int| escapes_at(past, p);
            assert(escapes_at(input, p));
        } else {
            assert forall|p: int| #[trigger] escapes_at(input, p) implies p == n - 2 by {
                if p + 1 < past.len() {
                    assert(escapes_at(past, p) == escapes_at(input, p));
                }
            }
            if n >= 2 && past.last() == 126 && starts_line(past, n - 2) && input.last() == 46 {
                assert(escapes_at(input, n - 2));
            }
        }
    }
}

/// The user hangs up exactly by typing `~.` at the start of a line: nothing else
/// does, wherever tildes and full stops stand otherwise.
pub proof fn law_hanging_up(input: Seq<u8>)
    ensures
        EscapeState::fresh(true).filtered(input).2 <==> exists|p: int| escapes_at(input, p),
{
    lemma_escape_state(input);
}

/// What is forwarded when the user hangs up is what the input in front of the
/// first escape comes to: neither the escape nor anything behind it is sent.
pub proof fn law_nothing_behind_the_escape_is_sent(input: Seq<u8>, p: int)
    requires
        escapes_at(input, p),
        forall|q: int| 0 <= q < p ==> !escapes_at(input, q),
    ensures
        ({
            let (_, out, gone) = EscapeState::fresh(true).filtered(input);
            let (_, before, gone_before) = EscapeState::fresh(true).filtered(input.take(p));
            gone && !gone_before && out == before
        }),
{
    let fresh = EscapeState::fresh(true);
    let front = input.take(p);
    let escape = input.subrange(p, p + 2);
    let back = input.skip(p + 2);
    assert forall|q: int| !(#[trigger] escapes_at(front, q)) by {
        if escapes_at(front, q) {
            assert(escapes_at(input, q));
        }
    }
    lemma_escape_state(front);
    let (s, before, _) = fresh.filtered(front);
    if p > 0 {
        assert(front[p - 1] == input[p - 1]);
    }
    assert(s.enabled && s.at_line_start && !s.after_tilde);
    let tilde = EscapeState { after_tilde: true, ..s };
    assert(escape.drop_last().drop_last() =~= Seq::empty());
    assert(escape.drop_last().last() == 126);
    assert(escape.last() == 46);
    reveal_with_fuel(EscapeState::filtered, 3);
    assert(s.took(126) == Some((tilde, Seq::<u8>::empty())));
    assert(Seq::<u8>::empty() + Seq::<u8>::empty() =~= Seq::<u8>::empty());
    assert(s.filtered(escape).1 == Seq::<u8>::empty() && s.filtered(escape).2);
    law_chunks_do_not_matter(fresh, front, escape);
    assert(before + Seq::<u8>::empty() =~= before);
    law_chunks_do_not_matter(fresh, front + escape, back);
    assert(front + escape + back =~= input);
}

/// Where no line begins with a tilde, every byte is forwarded as it came.
pub proof fn law_plain_lines_are_forwarded(input: Seq<u8>)
    requires
        forall|p: int| 0 <= p < input.len() && starts_line(input, p) ==> #[trigger] input[p] != 126,
    ensures
        ({
            let (_, out, gone) = EscapeState::fresh(true).filtered(input);
            out == input && !gone
        }),
    decreases input.len(),
{
    if input.len() > 0 {
        let past = input.drop_last();
        assert forall|p: int| 0 <= p < past.len() && starts_line(past, p) implies #[trigger] past[p]
            != 126 by {
            assert(input[p] != 126);
        }
        law_plain_lines_are_forwarded(past);
        lemma_escape_state(past);
        assert(input[input.len() - 1] == input.last());
        if past.len() > 0 {
            assert(past[past.len() - 1] == input[input.len() - 2]);
        }
        assert(past + seq![input.last()] =~= input);
    } else {
        assert(input =~= Seq::empty());
    }
}

/// Is this the second of two tildes at the start of a line?
pub open spec fn doubled_at(input: Seq<u8>, p: int) -> bool {
    &&& 1 <= p < input.len()
    &&& input[p] == 126
    &&& input[p - 1] == 126
    &&& starts_line(input, p - 1)
}

/// The input without the second of any two tildes at the start of a line.
pub open spec fn undoubled(input: Seq<u8>) -> Seq<u8>
    decreases input.len(),
{
    if input.len() == 0 {
        Seq::empty()
    } else if doubled_at(input, input.len() - 1) {
        undoubled(input.drop_last())
    } else {
        undoubled(input.drop_last()).push(input.last())
    }
}

/// The tilde at the start of a line with which the input ends, if it does: what
/// it stands for is not known before the next byte.
pub open spec fn undecided(input: Seq<u8>) -> Seq<u8> {
    let n = input.len() as int;
    if n > 0 && input[n - 1] == 126 && starts_line(input, n - 1) {
        seq![126u8]
    } else {
        Seq::empty()
    }
}

/// As long as the user does not hang up, every byte is forwarded, in order, but
/// the second of two tildes at the start of a line. A tilde at the start of a
/// line is held back until the byte behind it is there, and nothing else is.
pub proof fn law_what_is_typed_is_forwarded(input: Seq<u8>)
    requires
        forall|p: int| !#[trigger] escapes_at(input, p),
    ensures
        ({
            let (_, out, gone) = EscapeState::fresh(true).filtered(input);
            !gone && out + undecided(input) == undoubled(input)
        }),
    decreases input.len(),
{
    if input.len() > 0 {
        let past = input.drop_last();
        let n = input.len() as int;
        assert forall|p: int| !#[trigger] escapes_at(past, p) by {
            if escapes_at(past, p) {
                assert(escapes_at(input, p));
            }
        }
        law_what_is_typed_is_forwarded(past);
        lemma_escape_state(past);
        lemma_escape_state(input);
        let (s, before, _) = EscapeState::fresh(true).filtered(past);
        let (_, out, _) = EscapeState::fresh(true).filtered(input);
        let b = input.last();
        if n >= 2 {
            assert(past[n - 2] == input[n - 2]);
        }
        if n >= 3 {
            assert(past[n - 3] == input[n - 3]);
        }
        if s.after_tilde {
            assert(undecided(past) == seq![126u8]);
            if b == 46 {
                assert(escapes_at(input, n - 2));
            }
            assert(out + undecided(input) =~= undoubled(input));
        } else {
            assert(undecided(past) == Seq::<u8>::empty());
            assert(before =~= undoubled(past));
            assert(out + undecided(input) =~= undoubled(input));
        }
    } else {
        let (_, out, _) = EscapeState::fresh(true).filtered(input);
        assert(out + undecided(input) =~= undoubled(input));
    }
}

proof fn lemma_nothing_doubled(input: Seq<u8>)
    requires
        forall|p: int| !#[trigger] doubled_at(input, p),
    ensures
        undoubled(input) == input,
    decreases input.len(),
{
    if input.len() > 0 {
        let past = input.drop_last();
        assert forall|p: int| !#[trigger] doubled_at(past, p) by {
            if doubled_at(past, p) {
                assert(doubled_at(input, p));
            }
        }
        lemma_nothing_doubled(past);
        assert(!doubled_at(input, input.len() - 1));
        assert(past.push(input.last()) =~= input);
    } else {
        assert(undoubled(input) =~= input);
    }
}

/// A line that begins with a tilde is forwarded as it was typed, the tilde
/// included, unless a full stop or another tilde stands behind it: so does every
/// line whose beginning names a home directory.
pub proof fn law_other_tildes_are_typed(input: Seq<u8>)
    requires
        forall|p: int|
            0 <= p && p + 1 < input.len() && starts_line(input, p) && #[trigger] input[p] == 126
                ==> input[p + 1] != 46 && input[p + 1] != 126,
    ensures
        ({
            let (_, out, gone) = EscapeState::fresh(true).filtered(input);
            !gone && out + undecided(input) == input
        }),
{
    assert forall|p: int| !#[trigger] escapes_at(input, p) by {
        if escapes_at(input, p) {
            assert(input[p] == 126);
        }
    }
    assert forall|p: int| !#[trigger] doubled_at(input, p) by {
        if doubled_at(input, p) {
            assert(input[p - 1] == 126);
        }
    }
    law_what_is_typed_is_forwarded(input);
    lemma_nothing_doubled(input);
}

/// What to do about a chunk of local input.
#[derive(Debug)]
pub struct InputStep {
    /// What to send, if anything.
    pub data: Option<Frame>,
    /// Then send the hangup signal and stop reading?
    pub hang_up: bool,
}

/// What is sent for the bytes that are to be forwarded.
pub open spec fn input_frames(out: Seq<u8>) -> Seq<FrameView> {
    if out.len() == 0 {
        Seq::empty()
    } else {
        seq![FrameView::Stdin(out)]
    }
}

/// What is sent when reading the local input stops.
pub open spec fn end_frames(hang_up: bool) -> Seq<FrameView> {
    if hang_up {
        seq![FrameView::Signal("HUP"@), FrameView::StdinEof]
    } else {
        seq![FrameView::StdinEof]
    }
}

/// The remote process reads what was typed: the bytes that are forwarded are the
/// bytes that its input gets, all of them, whether it has a terminal or not, and
/// its input stays open.
pub proof fn law_forwarded_bytes_reach_the_process(is_pty: bool, out: Seq<u8>)
    ensures
        ({
            let c = Control { is_pty, open: true };
            c.fed(input_frames(out)) == (c, out)
        }),
{
    let c = Control { is_pty, open: true };
    let frames = input_frames(out);
    reveal_with_fuel(Control::fed, 2);
    if out.len() > 0 {
        assert(frames.drop_last() =~= Seq::empty());
        assert(frames.last() == FrameView::Stdin(out));
        assert(Seq::<u8>::empty() + out =~= out);
    } else {
        assert(out =~= Seq::empty());
    }
}

/// When the local input ends, the remote one does: a pipe is closed, and a
/// terminal is typed two EOTs. A user who hangs up has the job sent the hangup
/// signal first, and only then.
pub proof fn law_end_of_local_input(hang_up: bool)
    ensures
        ({
            let frames = end_frames(hang_up);
            let pipe = Control { is_pty: false, open: true };
            let terminal = Control { is_pty: true, open: true };
            &&& frames.len() == (if hang_up {
                2int
            } else {
                1int
            })
            &&& pipe.answer(Some(frames.last())) is Close
            &&& terminal.answer(Some(frames.last())) == ControlStepView::WriteAndFlush(
                seq![4u8, 4u8],
            )
            &&& hang_up ==> pipe.answer(Some(frames[0])) == ControlStepView::Pass(
                ControlEvent::Signal(crate::proto::Signal::Hup),
            )
        }),
{
    crate::proto::law_signal_names(crate::proto::Signal::Hup);
}

/// What to do about a chunk of local input; an empty chunk is its end. Whenever
/// reading stops, the end of the input is sent.
pub fn forward_stdin(escape: &mut EscapeState, chunk: &[u8]) -> (step: InputStep)
    ensures
        ({
            let (state, out, gone) = old(escape).filtered(chunk@);
            &&& *final(escape) == state
            &&& step.hang_up == gone
            &&& match step.data {
                Some(f) => input_frames(out) == seq![f@],
                None => input_frames(out).len() == 0,
            }
        }),
{
    let (data, disconnect) = escape.filter(chunk);
    if data.len() > 0 {
        InputStep { data: Some(Frame::Stdin(data)), hang_up: disconnect }
    } else {
        InputStep { data: None, hang_up: disconnect }
    }
}

/// What is sent when reading the local input stops: the hangup signal if the
/// user hung up, and then in any case the end of the input.
pub fn input_end(hang_up: bool) -> (frames: Vec<Frame>)
    ensures
        frames@.map_values(|f: Frame| f@) == end_frames(hang_up),
{
    let mut frames: Vec<Frame> = Vec::new();
    if hang_up {
        frames.push(Frame::Signal("HUP".to_owned()));
    }
    frames.push(Frame::StdinEof);
    assert(frames@.map_values(|f: Frame| f@) =~= end_frames(hang_up));
    frames
}

/// A local signal that is relayed where there is no terminal to carry it.
#[derive(Debug, Clone, Copy, PartialEq, Eq, Structural)]
pub enum LocalSignal {
    Interrupt,
    Terminate,
}

/// What is sent for a local signal.
pub open spec fn relay(signal: LocalSignal) -> FrameView {
    FrameView::Signal(
        match signal {
            LocalSignal::Interrupt => "INT"@,
            LocalSignal::Terminate => "TERM"@,
        },
    )
}

/// A local signal that is relayed is the one that the remote job gets.
pub proof fn law_local_signals_are_relayed(c: Control)
    ensures
        c.answer(Some(relay(LocalSignal::Interrupt))) == ControlStepView::Pass(
            ControlEvent::Signal(crate::proto::Signal::Int),
        ),
        c.answer(Some(relay(LocalSignal::Terminate))) == ControlStepView::Pass(
            ControlEvent::Signal(crate::proto::Signal::Term),
        ),
{
    crate::proto::law_signal_names(crate::proto::Signal::Int);
    crate::proto::law_signal_names(crate::proto::Signal::Term);
}

/// What is sent for a local signal.
pub fn relayed(signal: LocalSignal) -> (frame: Frame)
    ensures
        frame@ == relay(signal),
{
    match signal {
        LocalSignal::Interrupt => Frame::Signal("INT".to_owned()),
        LocalSignal::Terminate => Frame::Signal("TERM".to_owned()),
    }
}

/// A handshake that fails because the host's key is another one counts as a
/// rejection, wherever in the message that stands. No other failure does.
pub proof fn law_what_is_a_rejection(
    failure: ConnectFailure,
    text: String,
    before: Seq<char>,
    after: Seq<char>,
)
    requires
        text@ == before + "HostKeyMismatch"@ + after,
    ensures
        ConnectFailure::Transport(text).counted() is Rejected,
        failure is TimedOut || failure is Other || failure is Deadline ==> failure.counted()
            is Failed,
{
    let n = "HostKeyMismatch"@.len() as int;
    let i = before.len() as int;
    assert(text@.subrange(i, i + n) =~= "HostKeyMismatch"@);
}

} // verus!
