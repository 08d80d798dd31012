//! Paths as the system has them: any bytes, most often text.

use vstd::prelude::*;
use vstd::utf8::{decode_utf8, encode_utf8, valid_utf8};

use crate::proto::text_from_utf8;

verus! {

/// A path, or a name in one, as the bytes that the system knows it by.
#[derive(Debug, Clone, PartialEq, Eq)]
pub struct OsPath {
    pub bytes: Vec<u8>,
}

impl View for OsPath {
    type V = Seq<u8>;

    open spec fn view(&self) -> Seq<u8> {
        self.bytes@
    }
}

/// The view of an optional path.
pub open spec fn opt_path(p: Option<OsPath>) -> Option<Seq<u8>> {
    match p {
        Some(path) => Some(path@),
        None => None,
    }
}

/// The text that `String::from_utf8_lossy` makes of bytes that are no text.
pub uninterp spec fn lossy(bytes: Seq<u8>) -> Seq<char>;

/// The text by which a path is shown: the path itself where it is text.
pub open spec fn shown(path: Seq<u8>) -> Seq<char> {
    if valid_utf8(path) {
        decode_utf8(path)
    } else {
        lossy(path)
    }
}

/// `String::from_utf8_lossy`: the text that the bytes encode, or, where they
/// encode none, one that depends on the bytes alone.
#[verifier::external_body]
fn lossy_text(bytes: &[u8]) -> (out: String)
    ensures
        out@ == (if valid_utf8(bytes@) {
            decode_utf8(bytes@)
        } else {
            lossy(bytes@)
        }),
{
    String::from_utf8_lossy(bytes).into_owned()
}

/// A path that is text is shown as that text.
pub proof fn law_text_is_shown(text: Seq<char>)
    ensures
        shown(encode_utf8(text)) == text,
{
    vstd::utf8::encode_utf8_valid_utf8(text);
    vstd::utf8::encode_utf8_decode_utf8(text);
}

/// The path of `name`, which is relative, inside `dir`.
pub open spec fn inside(dir: Seq<u8>, name: Seq<u8>) -> Seq<u8> {
    if dir.len() == 0 || dir.last() == 47 {
        dir + name
    } else {
        dir + seq![47u8] + name
    }
}

/// Appends bytes to bytes.
pub fn extend(out: &mut Vec<u8>, more: &[u8])
    ensures
        final(out)@ == old(out)@ + more@,
{
    let ghost before = out@;
    let mut i: usize = 0;
    assert(before + more@.take(0) =~= before);
    while i < more.len()
        invariant
            i <= more@.len(),
            out@ == before + more@.take(i as int),
        decreases more@.len() - i,
    {
        out.push(more[i]);
        assert(more@.take(i + 1) =~= more@.take(i as int).push(more@[i as int]));
        assert(out@ =~= before + more@.take(i + 1));
        i += 1;
    }
    assert(more@.take(i as int) =~= more@);
}

/// The bytes from `from` to `to`.
fn slice(bytes: &Vec<u8>, from: usize, to: usize) -> (out: Vec<u8>)
    requires
        from <= to <= bytes@.len(),
    ensures
        out@ == bytes@.subrange(from as int, to as int),
{
    let mut out: Vec<u8> = Vec::new();
    let mut i: usize = from;
    assert(out@ =~= bytes@.subrange(from as int, from as int));
    while i < to
        invariant
            from <= i <= to <= bytes@.len(),
            out@ == bytes@.subrange(from as int, i as int),
        decreases to - i,
    {
        out.push(bytes[i]);
        i += 1;
        assert(out@ =~= bytes@.subrange(from as int, i as int));
    }
    out
}

/// How many bytes at the end of the path lie behind its last slash.
pub open spec fn tail_len(path: Seq<u8>) -> nat
    decreases path.len(),
{
    if path.len() == 0 || path.last() == 47 {
        0
    } else {
        1 + tail_len(path.drop_last())
    }
}

/// A name without a slash is all tail.
pub proof fn lemma_no_slash(name: Seq<u8>)
    requires
        !name.contains(47),
    ensures
        tail_len(name) == name.len(),
    decreases name.len(),
{
    if name.len() > 0 {
        assert(name[name.len() - 1] != 47) by {
            if name[name.len() - 1] == 47 {
                assert(name.contains(47));
            }
        }
        assert forall|b: u8| name.drop_last().contains(b) implies name.contains(b) by {
            let i = choose|i: int| 0 <= i < name.len() - 1 && name.drop_last()[i] == b;
            assert(name[i] == b);
        }
        lemma_no_slash(name.drop_last());
    }
}

/// The last part of a path that names something: neither empty nor a single
/// dot.
pub open spec fn last_named(path: Seq<u8>) -> Option<Seq<u8>>
    decreases path.len(),
{
    let n = tail_len(path);
    let cut = path.len() - n;
    if n > 0 && path.skip(cut) != seq![46u8] {
        Some(path.skip(cut))
    } else if 0 < cut <= path.len() {
        last_named(path.take(cut - 1))
    } else {
        None
    }
}

/// The last part of a path, if it is the name of a file: two dots are none.
pub open spec fn base_name(path: Seq<u8>) -> Option<Seq<u8>> {
    match last_named(path) {
        Some(p) => if p == seq![46u8, 46u8] {
            None
        } else {
            Some(p)
        },
        None => None,
    }
}

/// A name without its last ending; the first dot begins none.
pub open spec fn base_stem(name: Seq<u8>) -> Seq<u8> {
    let cut = last_dot(name);
    if cut > 0 {
        name.take(cut)
    } else {
        name
    }
}

/// The place of the last dot, or -1.
pub open spec fn last_dot(name: Seq<u8>) -> int
    decreases name.len(),
{
    if name.len() == 0 {
        -1
    } else if name.last() == 46 {
        name.len() - 1
    } else {
        last_dot(name.drop_last())
    }
}

impl OsPath {
    /// A path that is text.
    pub fn of_text(text: &str) -> (p: OsPath)
        ensures
            p@ == encode_utf8(text@),
    {
        let mut bytes: Vec<u8> = Vec::new();
        extend(&mut bytes, text.as_bytes());
        assert(bytes@ =~= encode_utf8(text@));
        OsPath { bytes }
    }

    /// The same path again.
    pub fn duplicate(&self) -> (p: OsPath)
        ensures
            p@ == self@,
    {
        let bytes = slice(&self.bytes, 0, self.bytes.len());
        assert(bytes@ =~= self@);
        OsPath { bytes }
    }

    /// The first `n` bytes.
    pub fn prefix(&self, n: usize) -> (p: OsPath)
        requires
            n <= self@.len(),
        ensures
            p@ == self@.take(n as int),
    {
        let bytes = slice(&self.bytes, 0, n);
        assert(bytes@ =~= self@.take(n as int));
        OsPath { bytes }
    }

    /// The path of `name`, which is relative, inside this one.
    pub fn join(&self, name: &str) -> (p: OsPath)
        ensures
            p@ == inside(self@, encode_utf8(name@)),
    {
        self.join_bytes(name.as_bytes())
    }

    /// The path of `name`, which is relative, inside this one.
    pub fn join_bytes(&self, name: &[u8]) -> (p: OsPath)
        ensures
            p@ == inside(self@, name@),
    {
        let mut bytes = slice(&self.bytes, 0, self.bytes.len());
        assert(bytes@ =~= self@);
        if bytes.len() > 0 && bytes[bytes.len() - 1] != 47 {
            bytes.push(47);
        }
        extend(&mut bytes, name);
        assert(bytes@ =~= inside(self@, name@));
        OsPath { bytes }
    }

    /// The text by which the path is shown.
    pub fn shown(&self) -> (out: String)
        ensures
            out@ == shown(self@),
    {
        lossy_text(self.bytes.as_slice())
    }

    /// The text that the path is, if it is one.
    pub fn text(&self) -> (r: Option<String>)
        ensures
            match r {
                Some(s) => valid_utf8(self@) && s@ == decode_utf8(self@),
                None => !valid_utf8(self@),
            },
    {
        let bytes = slice(&self.bytes, 0, self.bytes.len());
        assert(bytes@ =~= self@);
        text_from_utf8(bytes)
    }

    /// The last part of the path, if it is the name of a file.
    pub fn file_name(&self) -> (r: Option<OsPath>)
        ensures
            opt_path(r) == base_name(self@),
    {
        let ghost all = self@;
        let mut end: usize = self.bytes.len();
        assert(all.take(end as int) =~= all);
        loop
            invariant
                all == self.bytes@,
                end <= all.len(),
                last_named(all) == last_named(all.take(end as int)),
            decreases end,
        {
            let ghost here = all.take(end as int);
            let mut cut: usize = end;
            assert(here.take(cut as int) =~= here);
            while cut > 0 && self.bytes[cut - 1] != 47
                invariant
                    all == self.bytes@,
                    cut <= end <= all.len(),
                    here == all.take(end as int),
                    tail_len(here) == (end - cut) + tail_len(here.take(cut as int)),
                decreases cut,
            {
                assert(here.take(cut as int).last() == all[cut - 1]);
                assert(here.take(cut as int).drop_last() =~= here.take(cut - 1));
                cut -= 1;
            }
            assert(tail_len(here) == end - cut) by {
                if cut > 0 {
                    assert(here.take(cut as int).last() == all[cut - 1]);
                }
            }
            let part = slice(&self.bytes, cut, end);
            assert(part@ =~= here.skip(cut as int));
            let dot: bool = part.len() == 1 && part[0] == 46;
            assert(dot == (part@ =~= seq![46u8]));
            if part.len() > 0 && !dot {
                let up: bool = part.len() == 2 && part[0] == 46 && part[1] == 46;
                assert(up == (part@ =~= seq![46u8, 46u8]));
                if up {
                    return None;
                }
                return Some(OsPath { bytes: part });
            }
            if cut == 0 {
                return None;
            }
            assert(here.take(cut - 1) =~= all.take(cut - 1));
            end = cut - 1;
        }
    }

    /// A name without its last ending.
    pub fn file_stem(&self) -> (r: OsPath)
        ensures
            r@ == base_stem(self@),
    {
        let ghost all = self@;
        let mut i: usize = self.bytes.len();
        assert(all.take(i as int) =~= all);
        while i > 0 && self.bytes[i - 1] != 46
            invariant
                all == self.bytes@,
                i <= all.len(),
                last_dot(all) == last_dot(all.take(i as int)),
            decreases i,
        {
            assert(all.take(i as int).last() == all[i - 1]);
            assert(all.take(i as int).drop_last() =~= all.take(i - 1));
            i -= 1;
        }
        if i > 1 {
            assert(all.take(i as int).last() == all[i - 1]);
            let bytes = slice(&self.bytes, 0, i - 1);
            assert(bytes@ =~= all.take(i - 1));
            OsPath { bytes }
        } else {
            assert(last_dot(all) <= 0) by {
                if i == 1 {
                    assert(all.take(1).last() == all[0]);
                }
            }
            self.duplicate()
        }
    }
}

/// What stands behind the last slash is the tail.
proof fn lemma_tail_behind_slash(dir: Seq<u8>, name: Seq<u8>)
    requires
        !name.contains(47),
    ensures
        tail_len(dir.push(47) + name) == name.len(),
    decreases name.len(),
{
    let path = dir.push(47) + name;
    if name.len() == 0 {
        assert(path =~= dir.push(47));
    } else {
        assert(name[name.len() - 1] != 47);
        assert(path.last() == name.last());
        assert(path.drop_last() =~= dir.push(47) + name.drop_last());
        assert forall|b: u8| name.drop_last().contains(b) implies name.contains(b) by {
            let i = choose|i: int| 0 <= i < name.len() - 1 && name.drop_last()[i] == b;
            assert(name[i] == b);
        }
        lemma_tail_behind_slash(dir, name.drop_last());
    }
}

/// The file that is named inside a directory has that name, whatever the
/// directory; and so has a path that ends in a slash or in a single dot behind
/// one.
pub proof fn law_file_name_is_the_last_part(dir: Seq<u8>, name: Seq<u8>)
    requires
        name.len() > 0,
        !name.contains(47),
        name != seq![46u8],
        name != seq![46u8, 46u8],
    ensures
        base_name(name) == Some(name),
        base_name(dir.push(47) + name) == Some(name),
        base_name(inside(dir, name)) == Some(name),
        base_name((dir.push(47) + name).push(47)) == Some(name),
        base_name((dir.push(47) + name) + seq![47u8, 46u8]) == Some(name),
{
    lemma_no_slash(name);
    assert(name.skip(0) =~= name);
    lemma_tail_behind_slash(dir, name);
    let path = dir.push(47) + name;
    let cut = path.len() - name.len();
    assert(path.skip(cut) =~= name);
    if dir.len() == 0 {
        assert(inside(dir, name) =~= name);
    } else if dir.last() == 47 {
        assert(dir.drop_last().push(47) =~= dir);
        lemma_tail_behind_slash(dir.drop_last(), name);
        let there = dir + name;
        assert(there.skip(there.len() - name.len()) =~= name);
    } else {
        assert(inside(dir, name) =~= path);
    }
    let slashed = path.push(47);
    assert(tail_len(slashed) == 0);
    assert(slashed.take(slashed.len() - 1) =~= path);
    assert(last_named(slashed) == last_named(path));
    let dotted = path + seq![47u8, 46u8];
    assert(dotted =~= path.push(47) + seq![46u8]);
    assert(!seq![46u8].contains(47));
    lemma_tail_behind_slash(path, seq![46u8]);
    assert(dotted.skip(dotted.len() - 1) =~= seq![46u8]);
    assert(dotted.take(dotted.len() - 2) =~= path);
    assert(last_named(dotted) == last_named(path));
}

/// A name without its ending is what stands in front of the last dot; without
/// any dot, or with one at its beginning only, it is the whole name.
pub proof fn law_stem_is_without_the_ending(name: Seq<u8>, ending: Seq<u8>)
    requires
        name.len() > 0,
        !ending.contains(46),
    ensures
        base_stem(name.push(46) + ending) == name,
        base_stem(ending) == ending,
        base_stem(seq![46u8] + ending) == seq![46u8] + ending,
{
    lemma_last_dot(name, ending);
    assert((name.push(46) + ending).take(name.len() as int) =~= name);
    lemma_no_dot(ending);
    lemma_last_dot(Seq::empty(), ending);
    assert(Seq::<u8>::empty().push(46) + ending =~= seq![46u8] + ending);
}

proof fn lemma_last_dot(name: Seq<u8>, ending: Seq<u8>)
    requires
        !ending.contains(46),
    ensures
        last_dot(name.push(46) + ending) == name.len(),
    decreases ending.len(),
{
    let all = name.push(46) + ending;
    if ending.len() == 0 {
        assert(all =~= name.push(46));
    } else {
        assert(ending[ending.len() - 1] != 46);
        assert(all.last() == ending.last());
        assert(all.drop_last() =~= name.push(46) + ending.drop_last());
        assert forall|b: u8| ending.drop_last().contains(b) implies ending.contains(b) by {
            let i = choose|i: int| 0 <= i < ending.len() - 1 && ending.drop_last()[i] == b;
            assert(ending[i] == b);
        }
        lemma_last_dot(name, ending.drop_last());
    }
}

proof fn lemma_no_dot(name: Seq<u8>)
    requires
        !name.contains(46),
    ensures
        last_dot(name) == -1,
    decreases name.len(),
{
    if name.len() > 0 {
        assert(name[name.len() - 1] != 46);
        assert forall|b: u8| name.drop_last().contains(b) implies name.contains(b) by {
            let i = choose|i: int| 0 <= i < name.len() - 1 && name.drop_last()[i] == b;
            assert(name[i] == b);
        }
        lemma_no_dot(name.drop_last());
    }
}

} // verus!
