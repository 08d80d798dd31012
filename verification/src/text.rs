//! Text helpers: the handful of string operations that the rest of the crate
//! is written in, each stated over the characters of its arguments.

use vstd::prelude::*;

verus! {

/// `String::push` appends one character at the end of the string.
pub assume_specification[ String::push ](s: &mut String, c: char)
    ensures
        final(s)@ == old(s)@.push(c),
;

/// The characters of `s`, in order.
pub fn chars_of(s: &str) -> (out: Vec<char>)
    ensures
        out@ == s@,
{
    let mut out: Vec<char> = Vec::new();
    for c in it: s.chars()
        invariant
            out@ == it.seq().take(it.index() as int),
            it.seq() == s@,
    {
        out.push(c);
        assert(it.seq().take(it.index() + 1) =~= it.seq().take(it.index() as int).push(c));
    }
    assert(out@ =~= s@);
    out
}

/// The text made of the characters `from..to` of `chars`.
pub fn slice_text(chars: &Vec<char>, from: usize, to: usize) -> (out: String)
    requires
        from <= to <= chars@.len(),
    ensures
        out@ == chars@.subrange(from as int, to as int),
{
    let mut out = String::new();
    let mut i: usize = from;
    while i < to
        invariant
            from <= i <= to <= chars@.len(),
            out@ == chars@.subrange(from as int, i as int),
        decreases to - i,
    {
        out.push(chars[i]);
        i += 1;
        assert(chars@.subrange(from as int, i as int) =~= chars@.subrange(from as int, i - 1).push(
            chars@[i - 1],
        ));
    }
    out
}

/// Are the two texts equal?
pub fn same(a: &str, b: &str) -> (r: bool)
    ensures
        r == (a@ == b@),
{
    a.to_owned() == b.to_owned()
}

/// `s` without its prefix `p`, if it has that prefix.
pub open spec fn without_prefix(s: Seq<char>, p: Seq<char>) -> Option<Seq<char>> {
    if p.is_prefix_of(s) {
        Some(s.skip(p.len() as int))
    } else {
        None
    }
}

/// `s` without its prefix `p`, if it has that prefix.
pub fn strip_prefix(s: &str, p: &str) -> (r: Option<String>)
    ensures
        match r {
            Some(rest) => without_prefix(s@, p@) == Some(rest@),
            None => without_prefix(s@, p@) is None,
        },
{
    let sc = chars_of(s);
    let pc = chars_of(p);
    if pc.len() > sc.len() {
        return None;
    }
    let mut i: usize = 0;
    while i < pc.len()
        invariant
            i <= pc@.len() <= sc@.len(),
            forall|k: int| 0 <= k < i ==> sc@[k] == pc@[k],
            sc@ == s@,
            pc@ == p@,
        decreases pc@.len() - i,
    {
        if sc[i] != pc[i] {
            assert(s@.take(p@.len() as int)[i as int] != p@[i as int]);
            return None;
        }
        i += 1;
    }
    assert(p@ =~= s@.take(p@.len() as int));
    let rest = slice_text(&sc, pc.len(), sc.len());
    assert(rest@ =~= s@.skip(p@.len() as int));
    Some(rest)
}

/// Does `s` begin with `p`?
pub fn starts_with(s: &str, p: &str) -> (r: bool)
    ensures
        r == p@.is_prefix_of(s@),
{
    strip_prefix(s, p).is_some()
}

/// Is `c` one of the characters of `s`?
pub fn has_char(s: &str, c: char) -> (r: bool)
    ensures
        r == s@.contains(c),
{
    let sc = chars_of(s);
    let mut i: usize = 0;
    while i < sc.len()
        invariant
            i <= sc@.len(),
            sc@ == s@,
            forall|k: int| 0 <= k < i ==> sc@[k] != c,
        decreases sc@.len() - i,
    {
        if sc[i] == c {
            assert(s@[i as int] == c);
            return true;
        }
        i += 1;
    }
    false
}

/// Is `needle` one of the texts of `list`?
pub open spec fn listed(list: Seq<String>, needle: Seq<char>) -> bool {
    exists|i: int| 0 <= i < list.len() && #[trigger] list[i]@ == needle
}

/// Is `needle` one of the texts of `list`?
pub fn list_has(list: &Vec<String>, needle: &str) -> (r: bool)
    ensures
        r == listed(list@, needle@),
{
    let mut i: usize = 0;
    while i < list.len()
        invariant
            i <= list@.len(),
            forall|k: int| 0 <= k < i ==> #[trigger] list@[k]@ != needle@,
        decreases list@.len() - i,
    {
        if same(list[i].as_str(), needle) {
            return true;
        }
        i += 1;
    }
    false
}

/// The views of the texts of `list`.
pub open spec fn texts(list: Seq<String>) -> Seq<Seq<char>> {
    list.map_values(|s: String| s@)
}

/// A copy of `list`.
pub fn copy_texts(list: &Vec<String>) -> (out: Vec<String>)
    ensures
        texts(out@) == texts(list@),
{
    let mut out: Vec<String> = Vec::new();
    let mut i: usize = 0;
    while i < list.len()
        invariant
            i <= list@.len(),
            out@.len() == i,
            forall|k: int| 0 <= k < i ==> #[trigger] out@[k]@ == list@[k]@,
        decreases list@.len() - i,
    {
        out.push(list[i].clone());
        i += 1;
    }
    assert(texts(out@) =~= texts(list@));
    out
}

/// The ASCII upper case of `c`; any other character is left as it is.
pub open spec fn upper(c: char) -> char {
    if 'a' <= c && c <= 'z' {
        (c as u32 - 32) as char
    } else {
        c
    }
}

/// The ASCII lower case of `c`; any other character is left as it is.
pub open spec fn lower(c: char) -> char {
    if 'A' <= c && c <= 'Z' {
        (c as u32 + 32) as char
    } else {
        c
    }
}

/// `s` with its ASCII letters in upper case.
pub open spec fn uppercase(s: Seq<char>) -> Seq<char> {
    s.map_values(|c: char| upper(c))
}

/// `s` with its ASCII letters in lower case.
pub open spec fn lowercase(s: Seq<char>) -> Seq<char> {
    s.map_values(|c: char| lower(c))
}

/// `s` with its ASCII letters in upper case.
pub fn to_upper(s: &str) -> (out: String)
    ensures
        out@ == uppercase(s@),
{
    let sc = chars_of(s);
    let mut out = String::new();
    let mut i: usize = 0;
    while i < sc.len()
        invariant
            i <= sc@.len(),
            sc@ == s@,
            out@ == uppercase(s@.take(i as int)),
        decreases sc@.len() - i,
    {
        let c: char = sc[i];
        let u: char = if 'a' <= c && c <= 'z' {
            ((c as u8) - 32) as char
        } else {
            c
        };
        out.push(u);
        i += 1;
        assert(uppercase(s@.take(i as int)) =~= uppercase(s@.take(i - 1)).push(upper(c)));
    }
    assert(s@.take(i as int) =~= s@);
    out
}

/// `s` with its ASCII letters in lower case.
pub fn to_lower(s: &str) -> (out: String)
    ensures
        out@ == lowercase(s@),
{
    let sc = chars_of(s);
    let mut out = String::new();
    let mut i: usize = 0;
    while i < sc.len()
        invariant
            i <= sc@.len(),
            sc@ == s@,
            out@ == lowercase(s@.take(i as int)),
        decreases sc@.len() - i,
    {
        let c: char = sc[i];
        let l: char = if 'A' <= c && c <= 'Z' {
            ((c as u8) + 32) as char
        } else {
            c
        };
        out.push(l);
        i += 1;
        assert(lowercase(s@.take(i as int)) =~= lowercase(s@.take(i - 1)).push(lower(c)));
    }
    assert(s@.take(i as int) =~= s@);
    out
}

/// The character of the decimal digit `d`.
pub open spec fn digit_char(d: nat) -> char {
    (('0' as u32) + d) as char
}

/// `n` in decimal, without leading zeros.
pub open spec fn decimal(n: nat) -> Seq<char>
    decreases n,
{
    if n < 10 {
        seq![digit_char(n)]
    } else {
        decimal(n / 10).push(digit_char(n % 10))
    }
}

/// `n` in decimal.
pub fn decimal_text(n: u64) -> (out: String)
    ensures
        out@ == decimal(n as nat),
    decreases n,
{
    let d: u8 = (n % 10) as u8;
    let c: char = (48u8 + d) as char;
    let mut out = if n < 10 {
        String::new()
    } else {
        decimal_text(n / 10)
    };
    out.push(c);
    assert(c == digit_char((n % 10) as nat));
    assert(out@ =~= decimal(n as nat));
    out
}

/// Is `c` a decimal digit?
pub open spec fn is_digit(c: char) -> bool {
    '0' <= c && c <= '9'
}

/// Are all characters of `s` decimal digits?
pub open spec fn all_digits(s: Seq<char>) -> bool {
    forall|i: int| 0 <= i < s.len() ==> is_digit(#[trigger] s[i])
}

/// The number that the digits `s` write in decimal.
pub open spec fn number(s: Seq<char>) -> nat
    decreases s.len(),
{
    if s.len() == 0 {
        0
    } else {
        (number(s.drop_last()) * 10 + (s.last() as u32 - '0' as u32)) as nat
    }
}

/// An unsigned number no larger than `max`: an optional plus sign, then at
/// least one decimal digit and nothing else.
pub open spec fn parsed_number(s: Seq<char>, max: nat) -> Option<nat> {
    let d = if s.len() > 0 && s[0] == '+' {
        s.skip(1)
    } else {
        s
    };
    if d.len() > 0 && all_digits(d) && number(d) <= max {
        Some(number(d))
    } else {
        None
    }
}

proof fn lemma_number_grows(s: Seq<char>, k: int)
    requires
        0 <= k <= s.len(),
        all_digits(s),
    ensures
        number(s.take(k)) <= number(s),
    decreases s.len() - k,
{
    if k < s.len() {
        lemma_number_grows(s, k + 1);
        assert(s.take(k + 1).drop_last() =~= s.take(k));
        assert(is_digit(s[k]));
    } else {
        assert(s.take(k) =~= s);
    }
}

/// Reads an unsigned number no larger than `max`.
pub fn parse_number(s: &str, max: u64) -> (r: Option<u64>)
    ensures
        match r {
            Some(n) => parsed_number(s@, max as nat) == Some(n as nat),
            None => parsed_number(s@, max as nat) is None,
        },
{
    let sc = chars_of(s);
    let start: usize = if sc.len() > 0 && sc[0] == '+' {
        1
    } else {
        0
    };
    let ghost d = if s@.len() > 0 && s@[0] == '+' {
        s@.skip(1)
    } else {
        s@
    };
    assert(d =~= s@.skip(start as int));
    if start == sc.len() {
        return None;
    }
    let mut i: usize = start;
    let mut n: u64 = 0;
    assert(d.take(0) =~= Seq::empty());
    while i < sc.len()
        invariant
            start <= i <= sc@.len(),
            start < sc@.len(),
            sc@ == s@,
            d == s@.skip(start as int),
            d == (if s@.len() > 0 && s@[0] == '+' {
                s@.skip(1)
            } else {
                s@
            }),
            all_digits(d.take(i - start)),
            n == number(d.take(i - start)),
            n <= max,
        decreases sc@.len() - i,
    {
        let c: char = sc[i];
        assert(d[i - start] == c);
        if !('0' <= c && c <= '9') {
            assert(!is_digit(d[i - start]));
            return None;
        }
        let v: u64 = (c as u8 - 48) as u64;
        assert(d.take(i - start + 1).drop_last() =~= d.take(i - start));
        assert(number(d.take(i - start + 1)) == n * 10 + v);
        if v > max || n > (max - v) / 10 {
            proof {
                if all_digits(d) {
                    lemma_number_grows(d, i - start + 1);
                    assert(n * 10 + v > max);
                }
            }
            return None;
        }
        n = n * 10 + v;
        i += 1;
        assert(all_digits(d.take(i - start))) by {
            assert forall|k: int| 0 <= k < i - start implies is_digit(
                #[trigger] d.take(i - start)[k],
            ) by {
                if k < i - start - 1 {
                    assert(d.take(i - start - 1)[k] == d[k]);
                }
            }
        }
    }
    assert(d.take(i - start) =~= d);
    Some(n)
}

// ---------------------------------------------------------------------------
// Lines and words
// ---------------------------------------------------------------------------

/// Is `c` white space?
pub open spec fn is_space(c: char) -> bool {
    ||| '\u{9}' <= c <= '\u{d}'
    ||| c == ' '
    ||| c == '\u{85}'
    ||| c == '\u{a0}'
    ||| c == '\u{1680}'
    ||| '\u{2000}' <= c <= '\u{200a}'
    ||| c == '\u{2028}'
    ||| c == '\u{2029}'
    ||| c == '\u{202f}'
    ||| c == '\u{205f}'
    ||| c == '\u{3000}'
}

/// Is `c` white space?
pub fn space(c: char) -> (r: bool)
    ensures
        r == is_space(c),
{
    ('\u{9}' <= c && c <= '\u{d}') || c == ' ' || c == '\u{85}' || c == '\u{a0}' || c
        == '\u{1680}' || ('\u{2000}' <= c && c <= '\u{200a}') || c == '\u{2028}' || c == '\u{2029}'
        || c == '\u{202f}' || c == '\u{205f}' || c == '\u{3000}'
}

/// Is `c` a control character?
pub open spec fn is_control(c: char) -> bool {
    c <= '\u{1f}' || '\u{7f}' <= c <= '\u{9f}'
}

/// Is `c` a control character?
pub fn control(c: char) -> (r: bool)
    ensures
        r == is_control(c),
{
    c <= '\u{1f}' || ('\u{7f}' <= c && c <= '\u{9f}')
}

/// How many characters stand in front of the first `c`.
pub open spec fn run_to(s: Seq<char>, c: char) -> nat
    decreases s.len(),
{
    if s.len() == 0 || s[0] == c {
        0
    } else {
        1 + run_to(s.skip(1), c)
    }
}

/// How many characters stand in front of the first white space.
pub open spec fn word_len(s: Seq<char>) -> nat
    decreases s.len(),
{
    if s.len() == 0 || is_space(s[0]) {
        0
    } else {
        1 + word_len(s.skip(1))
    }
}

/// What [`run_to`] counts.
pub proof fn lemma_run_to(s: Seq<char>, c: char)
    ensures
        run_to(s, c) <= s.len(),
        forall|i: int| 0 <= i < run_to(s, c) ==> #[trigger] s[i] != c,
        run_to(s, c) < s.len() ==> s[run_to(s, c) as int] == c,
    decreases s.len(),
{
    if s.len() > 0 && s[0] != c {
        lemma_run_to(s.skip(1), c);
        assert forall|i: int| 0 <= i < run_to(s, c) implies #[trigger] s[i] != c by {
            if i > 0 {
                assert(s[i] == s.skip(1)[i - 1]);
            }
        }
    }
}

/// The first `c` is where no other stands before it.
pub proof fn lemma_run_to_is(s: Seq<char>, c: char, n: nat)
    requires
        n <= s.len(),
        forall|i: int| 0 <= i < n ==> #[trigger] s[i] != c,
        n < s.len() ==> s[n as int] == c,
    ensures
        run_to(s, c) == n,
    decreases s.len(),
{
    if n > 0 {
        assert(s[0] != c);
        assert forall|i: int| 0 <= i < n - 1 implies #[trigger] s.skip(1)[i] != c by {
            assert(s.skip(1)[i] == s[i + 1]);
        }
        lemma_run_to_is(s.skip(1), c, (n - 1) as nat);
    }
}

/// What [`word_len`] counts.
pub proof fn lemma_word_len(s: Seq<char>)
    ensures
        word_len(s) <= s.len(),
        forall|i: int| 0 <= i < word_len(s) ==> !is_space(#[trigger] s[i]),
        word_len(s) < s.len() ==> is_space(s[word_len(s) as int]),
    decreases s.len(),
{
    if s.len() > 0 && !is_space(s[0]) {
        lemma_word_len(s.skip(1));
        assert forall|i: int| 0 <= i < word_len(s) implies !is_space(#[trigger] s[i]) by {
            if i > 0 {
                assert(s[i] == s.skip(1)[i - 1]);
            }
        }
    }
}

/// A word ends at the first white space.
pub proof fn lemma_word_len_is(s: Seq<char>, n: nat)
    requires
        n <= s.len(),
        forall|i: int| 0 <= i < n ==> !is_space(#[trigger] s[i]),
        n < s.len() ==> is_space(s[n as int]),
    ensures
        word_len(s) == n,
    decreases s.len(),
{
    if n > 0 {
        assert(!is_space(s[0]));
        assert forall|i: int| 0 <= i < n - 1 implies !is_space(#[trigger] s.skip(1)[i]) by {
            assert(s.skip(1)[i] == s[i + 1]);
        }
        lemma_word_len_is(s.skip(1), (n - 1) as nat);
    }
}

/// The place of the first `c` from `from` on, or the end.
pub fn find_char(sc: &Vec<char>, from: usize, c: char) -> (at: usize)
    requires
        from <= sc@.len(),
    ensures
        at == from + run_to(sc@.skip(from as int), c),
        from <= at <= sc@.len(),
{
    let ghost s = sc@.skip(from as int);
    let mut i: usize = from;
    while i < sc.len() && sc[i] != c
        invariant
            from <= i <= sc@.len(),
            s == sc@.skip(from as int),
            forall|k: int| 0 <= k < i - from ==> #[trigger] s[k] != c,
        decreases sc@.len() - i,
    {
        i += 1;
    }
    proof {
        lemma_run_to_is(s, c, (i - from) as nat);
    }
    i
}

/// A line that a line feed ended: a carriage return in front of the line feed
/// belongs to the line's end.
pub open spec fn ended(line: Seq<char>) -> Seq<char> {
    if line.len() > 0 && line.last() == '\r' {
        line.drop_last()
    } else {
        line
    }
}

/// The lines of `s`: what stands in front of each line feed, and what stands
/// behind the last one unless it is nothing.
pub open spec fn lines(s: Seq<char>) -> Seq<Seq<char>>
    decreases s.len(),
{
    if s.len() == 0 {
        Seq::empty()
    } else {
        let n = run_to(s, '\n');
        if n >= s.len() {
            seq![s]
        } else {
            seq![ended(s.take(n as int))] + lines(s.skip(n as int + 1))
        }
    }
}

/// The lines of `s`.
pub fn split_lines(s: &str) -> (out: Vec<String>)
    ensures
        texts(out@) == lines(s@),
{
    let sc = chars_of(s);
    let mut out: Vec<String> = Vec::new();
    let mut i: usize = 0;
    assert(s@.skip(0) =~= s@);
    assert(texts(out@) + lines(s@.skip(0)) =~= lines(s@));
    while i < sc.len()
        invariant
            i <= sc@.len(),
            sc@ == s@,
            texts(out@) + lines(s@.skip(i as int)) == lines(s@),
        decreases sc@.len() - i,
    {
        let ghost before = out@;
        let ghost rest = s@.skip(i as int);
        let end: usize = find_char(&sc, i, '\n');
        if end == sc.len() {
            let line = slice_text(&sc, i, end);
            assert(line@ =~= rest);
            out.push(line);
            assert(texts(out@) =~= texts(before).push(line@));
            assert(lines(rest) =~= seq![rest]);
            assert(texts(out@) =~= texts(before) + lines(rest));
            return out;
        }
        let stop: usize = if end > i && sc[end - 1] == '\r' {
            end - 1
        } else {
            end
        };
        let line = slice_text(&sc, i, stop);
        assert(line@ =~= ended(rest.take(end - i)));
        out.push(line);
        assert(texts(out@) =~= texts(before).push(line@));
        i = end + 1;
        assert(s@.skip(i as int) =~= rest.skip(run_to(rest, '\n') as int + 1));
        assert(texts(out@) + lines(s@.skip(i as int)) =~= texts(before) + lines(rest));
    }
    assert(s@.skip(i as int) =~= Seq::empty());
    assert(texts(out@) =~= lines(s@));
    out
}

/// The parts of `s` between the occurrences of `c`; there is always one more
/// than there are occurrences.
pub open spec fn parts(s: Seq<char>, c: char) -> Seq<Seq<char>>
    decreases s.len(),
{
    let n = run_to(s, c);
    if n >= s.len() {
        seq![s]
    } else {
        seq![s.take(n as int)] + parts(s.skip(n as int + 1), c)
    }
}

/// The parts of `s` between the occurrences of `c`.
pub fn split_parts(s: &str, c: char) -> (out: Vec<String>)
    ensures
        texts(out@) == parts(s@, c),
{
    let sc = chars_of(s);
    let mut out: Vec<String> = Vec::new();
    let mut i: usize = 0;
    assert(s@.skip(0) =~= s@);
    assert(texts(out@) + parts(s@.skip(0), c) =~= parts(s@, c));
    loop
        invariant
            i <= sc@.len(),
            sc@ == s@,
            texts(out@) + parts(s@.skip(i as int), c) == parts(s@, c),
        decreases sc@.len() - i,
    {
        let ghost before = out@;
        let ghost rest = s@.skip(i as int);
        let end: usize = find_char(&sc, i, c);
        let part = slice_text(&sc, i, end);
        assert(part@ =~= rest.take(end - i));
        out.push(part);
        assert(texts(out@) =~= texts(before).push(part@));
        if end == sc.len() {
            assert(part@ =~= rest);
            assert(parts(rest, c) =~= seq![rest]);
            assert(texts(out@) =~= texts(before) + parts(rest, c));
            return out;
        }
        i = end + 1;
        assert(s@.skip(i as int) =~= rest.skip(run_to(rest, c) as int + 1));
        assert(texts(out@) + parts(s@.skip(i as int), c) =~= texts(before) + parts(rest, c));
    }
}

/// The texts one after the other, with `sep` between them.
pub open spec fn joined_by(list: Seq<Seq<char>>, sep: Seq<char>) -> Seq<char>
    decreases list.len(),
{
    if list.len() == 0 {
        Seq::empty()
    } else if list.len() == 1 {
        list[0]
    } else {
        joined_by(list.drop_last(), sep) + sep + list.last()
    }
}

/// The texts one after the other, with `sep` between them.
pub fn join_texts(list: &Vec<String>, sep: &str) -> (out: String)
    ensures
        out@ == joined_by(texts(list@), sep@),
{
    let mut out = String::new();
    let mut i: usize = 0;
    let ghost all = texts(list@);
    assert(all.take(0) =~= Seq::empty());
    assert(out@ =~= Seq::empty());
    while i < list.len()
        invariant
            i <= list@.len(),
            all == texts(list@),
            out@ == joined_by(all.take(i as int), sep@),
        decreases list@.len() - i,
    {
        let ghost before = out@;
        if i > 0 {
            out.append(sep);
        }
        out.append(list[i].as_str());
        assert(all.take(i + 1).drop_last() =~= all.take(i as int));
        assert(all.take(i + 1).last() == list@[i as int]@);
        assert(out@ =~= joined_by(all.take(i + 1), sep@));
        i += 1;
    }
    assert(all.take(i as int) =~= all);
    out
}

/// The words of `s`: its longest stretches without white space.
pub open spec fn words(s: Seq<char>) -> Seq<Seq<char>>
    decreases s.len(),
{
    if s.len() == 0 {
        Seq::empty()
    } else if is_space(s[0]) {
        words(s.skip(1))
    } else {
        let n = word_len(s);
        proof {
            lemma_word_len(s);
        }
        seq![s.take(n as int)] + words(s.skip(n as int))
    }
}

/// The words of `s`.
pub fn split_words(s: &str) -> (out: Vec<String>)
    ensures
        texts(out@) == words(s@),
{
    let sc = chars_of(s);
    let mut out: Vec<String> = Vec::new();
    let mut i: usize = 0;
    assert(s@.skip(0) =~= s@);
    assert(texts(out@) + words(s@.skip(0)) =~= words(s@));
    while i < sc.len()
        invariant
            i <= sc@.len(),
            sc@ == s@,
            texts(out@) + words(s@.skip(i as int)) == words(s@),
        decreases sc@.len() - i,
    {
        let ghost rest = s@.skip(i as int);
        assert(rest[0] == sc@[i as int]);
        if space(sc[i]) {
            assert(rest.skip(1) =~= s@.skip(i + 1));
            i += 1;
            continue;
        }
        let ghost before = out@;
        let start: usize = i;
        while i < sc.len() && !space(sc[i])
            invariant
                start <= i <= sc@.len(),
                sc@ == s@,
                rest == s@.skip(start as int),
                forall|k: int| 0 <= k < i - start ==> !is_space(#[trigger] rest[k]),
            decreases sc@.len() - i,
        {
            i += 1;
        }
        proof {
            lemma_word_len_is(rest, (i - start) as nat);
            assert(!is_space(rest[0]));
        }
        let word = slice_text(&sc, start, i);
        assert(word@ =~= rest.take(i - start));
        out.push(word);
        assert(texts(out@) =~= texts(before).push(word@));
        assert(rest.skip(i - start) =~= s@.skip(i as int));
        assert(texts(out@) + words(s@.skip(i as int)) =~= texts(before) + words(rest));
    }
    assert(s@.skip(i as int) =~= Seq::empty());
    assert(texts(out@) =~= words(s@));
    out
}

/// A first line is read as it was written, and the others after it.
pub proof fn lemma_first_line(line: Seq<char>, rest: Seq<char>)
    requires
        !line.contains('\n'),
        line.len() > 0 ==> line.last() != '\r',
    ensures
        lines(line + seq!['\n'] + rest) == seq![line] + lines(rest),
{
    let s = line + seq!['\n'] + rest;
    assert forall|i: int| 0 <= i < line.len() implies #[trigger] s[i] != '\n' by {
        assert(s[i] == line[i]);
    }
    assert(s[line.len() as int] == '\n');
    lemma_run_to_is(s, '\n', line.len());
    assert(s.take(line.len() as int) =~= line);
    assert(s.skip(line.len() as int + 1) =~= rest);
}

/// Two words with a blank between them are read as those two words.
pub proof fn lemma_two_words(a: Seq<char>, b: Seq<char>)
    requires
        a.len() > 0,
        b.len() > 0,
        forall|i: int| 0 <= i < a.len() ==> !is_space(#[trigger] a[i]),
        forall|i: int| 0 <= i < b.len() ==> !is_space(#[trigger] b[i]),
    ensures
        words(a + seq![' '] + b) == seq![a, b],
{
    let s = a + seq![' '] + b;
    assert forall|i: int| 0 <= i < a.len() implies !is_space(#[trigger] s[i]) by {
        assert(s[i] == a[i]);
    }
    assert(s[a.len() as int] == ' ');
    assert(!is_space(s[0]));
    lemma_word_len_is(s, a.len());
    assert(s.take(a.len() as int) =~= a);
    let t = s.skip(a.len() as int);
    assert(t[0] == ' ');
    assert(t.skip(1) =~= b);
    lemma_word_len_is(b, b.len());
    assert(!is_space(b[0]));
    assert(b.take(b.len() as int) =~= b);
    assert(b.skip(b.len() as int) =~= Seq::empty());
    assert(words(Seq::<char>::empty()) =~= Seq::empty());
    assert(words(b) =~= seq![b]);
    assert(words(t) == words(b));
    assert(words(s) =~= seq![a, b]);
}

// ---------------------------------------------------------------------------
// Searching and padding
// ---------------------------------------------------------------------------

/// Does `needle` occur in `s`?
pub open spec fn occurs(s: Seq<char>, needle: Seq<char>) -> bool {
    exists|i: int|
        0 <= i <= s.len() - needle.len() && #[trigger] s.subrange(i, i + needle.len()) == needle
}

/// Does `needle` occur in `s`?
pub fn contains_text(s: &str, needle: &str) -> (r: bool)
    ensures
        r == occurs(s@, needle@),
{
    let sc = chars_of(s);
    let nc = chars_of(needle);
    if nc.len() > sc.len() {
        return false;
    }
    let total: usize = sc.len();
    let last: usize = total - nc.len();
    let mut i: usize = 0;
    loop
        invariant
            i <= last,
            total == sc@.len(),
            last == total - nc@.len(),
            sc@ == s@,
            nc@ == needle@,
            forall|k: int|
                0 <= k < i ==> #[trigger] s@.subrange(k, k + needle@.len()) != needle@,
        decreases last - i,
    {
        let mut k: usize = 0;
        while k < nc.len() && sc[i + k] == nc[k]
            invariant
                k <= nc@.len(),
                i <= last,
                total == sc@.len(),
                last == total - nc@.len(),
                sc@ == s@,
                nc@ == needle@,
                forall|j: int| 0 <= j < k ==> sc@[i + j] == nc@[j],
            decreases nc@.len() - k,
        {
            k += 1;
        }
        let ghost here = s@.subrange(i as int, i + needle@.len());
        if k == nc.len() {
            assert(here =~= needle@);
            return true;
        }
        assert(here[k as int] != needle@[k as int]);
        if i == last {
            return false;
        }
        i += 1;
    }
}

/// `n` blanks.
pub open spec fn blanks(n: nat) -> Seq<char> {
    Seq::new(n, |i: int| ' ')
}

/// `s` with blanks behind it until it is `width` characters wide.
pub open spec fn padded(s: Seq<char>, width: nat) -> Seq<char> {
    if s.len() < width {
        s + blanks((width - s.len()) as nat)
    } else {
        s
    }
}

/// `s` with blanks behind it until it is `width` characters wide.
pub fn pad(s: &str, width: usize) -> (out: String)
    ensures
        out@ == padded(s@, width as nat),
{
    let n: usize = chars_of(s).len();
    let mut out = s.to_owned();
    let mut i: usize = n;
    assert(out@ =~= s@ + blanks(0));
    while i < width
        invariant
            n == s@.len(),
            n <= i,
            i <= width || i == n,
            out@ == s@ + blanks((i - n) as nat),
        decreases width - i,
    {
        out.push(' ');
        i += 1;
        assert(out@ =~= s@ + blanks((i - n) as nat));
    }
    assert(out@ =~= padded(s@, width as nat));
    out
}

/// The place of the last `c` in `s`, or -1.
pub open spec fn last_of(s: Seq<char>, c: char) -> int
    decreases s.len(),
{
    if s.len() == 0 {
        -1
    } else if s.last() == c {
        s.len() - 1
    } else {
        last_of(s.drop_last(), c)
    }
}

/// What stands in front of the last `c` and behind it.
pub open spec fn split_last(s: Seq<char>, c: char) -> Option<(Seq<char>, Seq<char>)> {
    let i = last_of(s, c);
    if i < 0 {
        None
    } else {
        Some((s.take(i), s.skip(i + 1)))
    }
}

/// What stands in front of the first `c` and behind it.
pub open spec fn split_first(s: Seq<char>, c: char) -> Option<(Seq<char>, Seq<char>)> {
    let i = run_to(s, c);
    if i >= s.len() {
        None
    } else {
        Some((s.take(i as int), s.skip(i as int + 1)))
    }
}

/// What [`last_of`] finds.
pub proof fn lemma_last_of(s: Seq<char>, c: char)
    ensures
        -1 <= last_of(s, c) < s.len(),
        last_of(s, c) >= 0 ==> s[last_of(s, c)] == c,
        forall|i: int| last_of(s, c) < i < s.len() ==> #[trigger] s[i] != c,
    decreases s.len(),
{
    if s.len() > 0 && s.last() != c {
        lemma_last_of(s.drop_last(), c);
        assert forall|i: int| last_of(s, c) < i < s.len() implies #[trigger] s[i] != c by {
            if i < s.len() - 1 {
                assert(s.drop_last()[i] == s[i]);
            }
        }
    }
}

/// What stands in front of the last `c` and behind it.
pub fn rsplit_once(s: &str, c: char) -> (r: Option<(String, String)>)
    ensures
        match r {
            Some((a, b)) => split_last(s@, c) == Some((a@, b@)),
            None => split_last(s@, c) is None,
        },
{
    let sc = chars_of(s);
    let mut i: usize = sc.len();
    assert(s@.take(i as int) =~= s@);
    while i > 0
        invariant
            i <= sc@.len(),
            sc@ == s@,
            last_of(s@, c) == last_of(s@.take(i as int), c),
        decreases i,
    {
        assert(s@.take(i as int).drop_last() =~= s@.take(i - 1));
        assert(s@.take(i as int).last() == sc@[i - 1]);
        i -= 1;
        if sc[i] == c {
            let a = slice_text(&sc, 0, i);
            let b = slice_text(&sc, i + 1, sc.len());
            assert(a@ =~= s@.take(i as int));
            assert(b@ =~= s@.skip(i + 1));
            return Some((a, b));
        }
    }
    None
}

/// What stands in front of the first `c` and behind it.
pub fn split_once(s: &str, c: char) -> (r: Option<(String, String)>)
    ensures
        match r {
            Some((a, b)) => split_first(s@, c) == Some((a@, b@)),
            None => split_first(s@, c) is None,
        },
{
    let sc = chars_of(s);
    assert(s@.skip(0) =~= s@);
    let i: usize = find_char(&sc, 0, c);
    if i == sc.len() {
        return None;
    }
    let a = slice_text(&sc, 0, i);
    let b = slice_text(&sc, i + 1, sc.len());
    assert(a@ =~= s@.take(i as int));
    assert(b@ =~= s@.skip(i + 1));
    Some((a, b))
}

/// The digits of a number are decimal digits, and write that number.
pub proof fn lemma_decimal(n: nat)
    ensures
        decimal(n).len() > 0,
        all_digits(decimal(n)),
        number(decimal(n)) == n,
    decreases n,
{
    if n < 10 {
        let s = decimal(n);
        assert(s.drop_last() =~= Seq::empty());
        assert(number(s.drop_last()) == 0);
        assert(s.last() == digit_char(n));
    } else {
        lemma_decimal(n / 10);
        let s = decimal(n);
        assert(s.drop_last() =~= decimal(n / 10));
        assert(s.last() == digit_char(n % 10));
        assert forall|i: int| 0 <= i < s.len() implies is_digit(#[trigger] s[i]) by {
            if i < s.len() - 1 {
                assert(s[i] == decimal(n / 10)[i]);
            }
        }
    }
}

/// A number that is written in decimal is read back as it was, with or without
/// a plus sign, unless it is too large.
pub proof fn law_numbers_read_back(n: nat, max: nat)
    ensures
        n <= max ==> parsed_number(decimal(n), max) == Some(n),
        n <= max ==> parsed_number(seq!['+'] + decimal(n), max) == Some(n),
        n > max ==> parsed_number(decimal(n), max) is None,
{
    lemma_decimal(n);
    assert(is_digit(decimal(n)[0]));
    assert((seq!['+'] + decimal(n)).skip(1) =~= decimal(n));
}

/// What is no decimal digit is not read as a part of a number; only a plus sign
/// may stand in front of one.
pub proof fn law_only_digits_are_numbers(s: Seq<char>, i: int, max: nat)
    requires
        0 <= i < s.len(),
        !('0' <= s[i] <= '9'),
        i > 0 || s[0] != '+',
    ensures
        parsed_number(s, max) is None,
{
    if s[0] == '+' {
        assert(s.skip(1)[i - 1] == s[i]);
        assert(!is_digit(s.skip(1)[i - 1]));
    } else {
        assert(!is_digit(s[i]));
    }
}

/// A text is split at the first of the given characters, and there only.
pub proof fn law_split_at_the_first(front: Seq<char>, c: char, back: Seq<char>)
    requires
        !front.contains(c),
    ensures
        split_first(front.push(c) + back, c) == Some((front, back)),
        split_first(front, c) is None,
{
    let s = front.push(c) + back;
    assert forall|i: int| 0 <= i < front.len() implies #[trigger] s[i] != c by {
        assert(front[i] != c);
    }
    assert(s[front.len() as int] == c);
    lemma_run_to_is(s, c, front.len());
    assert(s.take(front.len() as int) =~= front);
    assert(s.skip(front.len() as int + 1) =~= back);
    assert forall|i: int| 0 <= i < front.len() implies #[trigger] front[i] != c by {}
    lemma_run_to(front, c);
}

/// A text is split at the last of the given characters, and there only.
pub proof fn law_split_at_the_last(front: Seq<char>, c: char, back: Seq<char>)
    requires
        !back.contains(c),
    ensures
        split_last(front.push(c) + back, c) == Some((front, back)),
        split_last(back, c) is None,
{
    let s = front.push(c) + back;
    lemma_last_of(s, c);
    assert(s[front.len() as int] == c);
    let i = last_of(s, c);
    if i > front.len() {
        assert(s[i] == back[i - front.len() - 1]);
        assert(back.contains(c));
    }
    assert(i == front.len());
    assert(s.take(i) =~= front);
    assert(s.skip(i + 1) =~= back);
    lemma_last_of(back, c);
    if last_of(back, c) >= 0 {
        assert(back.contains(c));
    }
}

/// Different numbers are written differently.
pub proof fn law_decimals_differ(a: nat, b: nat)
    requires
        a != b,
    ensures
        decimal(a) != decimal(b),
{
    lemma_decimal(a);
    lemma_decimal(b);
}

proof fn lemma_joined_first(first: Seq<char>, rest: Seq<Seq<char>>, sep: Seq<char>)
    requires
        rest.len() > 0,
    ensures
        joined_by(seq![first] + rest, sep) == first + sep + joined_by(rest, sep),
    decreases rest.len(),
{
    let all = seq![first] + rest;
    assert(all.drop_last() =~= seq![first] + rest.drop_last());
    assert(all.last() == rest.last());
    if rest.len() == 1 {
        assert(all.drop_last() =~= seq![first]);
        assert(joined_by(seq![first], sep) == first);
        assert(joined_by(all, sep) =~= first + sep + rest[0]);
    } else {
        lemma_joined_first(first, rest.drop_last(), sep);
        assert(joined_by(all, sep) =~= first + sep + joined_by(rest, sep));
    }
}

/// Nothing is lost by splitting: the parts, put together again, are the text,
/// and the character at which it was split is in none of them.
pub proof fn law_parts_make_up_the_text(s: Seq<char>, c: char)
    ensures
        joined_by(parts(s, c), seq![c]) == s,
        parts(s, c).len() > 0,
        forall|i: int| 0 <= i < parts(s, c).len() ==> !(#[trigger] parts(s, c)[i]).contains(c),
    decreases s.len(),
{
    let n = run_to(s, c) as int;
    lemma_run_to(s, c);
    if n >= s.len() {
        assert(parts(s, c) =~= seq![s]);
        assert forall|i: int| 0 <= i < parts(s, c).len() implies !(#[trigger] parts(
            s,
            c,
        )[i]).contains(c) by {
            if s.contains(c) {
                let k = choose|k: int| 0 <= k < s.len() && s[k] == c;
                assert(s[k] != c);
            }
        }
    } else {
        let front = s.take(n);
        let back = s.skip(n + 1);
        let rest = parts(back, c);
        law_parts_make_up_the_text(back, c);
        lemma_joined_first(front, rest, seq![c]);
        assert(front + seq![c] + back =~= s);
        if front.contains(c) {
            let k = choose|k: int| 0 <= k < front.len() && front[k] == c;
            assert(s[k] != c);
        }
        assert forall|i: int| 0 <= i < parts(s, c).len() implies !(#[trigger] parts(
            s,
            c,
        )[i]).contains(c) by {
            if i > 0 {
                assert(parts(s, c)[i] == rest[i - 1]);
            }
        }
    }
}

/// Lines end at each line feed, and a carriage return in front of it belongs to
/// the end; the last line may do without.
pub proof fn law_lines_end_at_line_feeds(line: Seq<char>, rest: Seq<char>)
    requires
        !line.contains('\n'),
        line.len() == 0 || line.last() != '\r',
    ensures
        lines(line + seq!['\n'] + rest) == seq![line] + lines(rest),
        lines(line + seq!['\r', '\n'] + rest) == seq![line] + lines(rest),
        line.len() > 0 ==> lines(line) == seq![line],
{
    let n = line.len() as int;
    lemma_first_line(line, rest);
    let b = line + seq!['\r', '\n'] + rest;
    assert forall|i: int| 0 <= i < n + 1 implies #[trigger] b[i] != '\n' by {
        if i < n {
            assert(b[i] == line[i]);
        }
    }
    assert(b[n + 1] == '\n');
    lemma_run_to_is(b, '\n', (n + 1) as nat);
    assert(b.take(n + 1) =~= line + seq!['\r']);
    assert(b.take(n + 1).drop_last() =~= line);
    assert(b.skip(n + 2) =~= rest);
    if n > 0 {
        lemma_run_to(line, '\n');
        if run_to(line, '\n') < n {
            assert(line[run_to(line, '\n') as int] == '\n');
        }
    }
}

/// A word is never empty and never holds white space.
pub proof fn law_words_are_words(s: Seq<char>)
    ensures
        forall|i: int| 0 <= i < words(s).len() ==> (#[trigger] words(s)[i]).len() > 0,
        forall|i: int, k: int|
            0 <= i < words(s).len() && 0 <= k < words(s)[i].len() ==> !is_space(
                #[trigger] words(s)[i][k],
            ),
    decreases s.len(),
{
    if s.len() == 0 {
        assert(words(s).len() == 0);
    } else if is_space(s[0]) {
        law_words_are_words(s.skip(1));
        assert(words(s) == words(s.skip(1)));
    } else {
        let n = word_len(s) as int;
        lemma_word_len(s);
        let rest = words(s.skip(n));
        law_words_are_words(s.skip(n));
        let all = words(s);
        assert(all == seq![s.take(n)] + rest);
        assert forall|i: int| 0 <= i < all.len() implies (#[trigger] all[i]).len() > 0 by {
            if i > 0 {
                assert(all[i] == rest[i - 1]);
            }
        }
        assert forall|i: int, k: int|
            0 <= i < all.len() && 0 <= k < all[i].len() implies !is_space(#[trigger] all[i][k]) by {
            if i > 0 {
                assert(all[i] == rest[i - 1]);
                assert(!is_space(rest[i - 1][k]));
            } else {
                assert(all[i][k] == s[k]);
            }
        }
    }
}

/// A word stays one, whatever white space stands in front of it or behind it.
pub proof fn law_white_space_does_not_matter(word: Seq<char>, c: char, rest: Seq<char>)
    requires
        word.len() > 0,
        forall|i: int| 0 <= i < word.len() ==> !is_space(#[trigger] word[i]),
        is_space(c),
    ensures
        words(word) == seq![word],
        words(word + seq![c] + rest) == seq![word] + words(rest),
        words(seq![c] + rest) == words(rest),
{
    let n = word.len();
    lemma_word_len_is(word, n);
    assert(word.take(n as int) =~= word);
    assert(word.skip(n as int) =~= Seq::empty());
    assert(words(word.skip(n as int)) =~= Seq::empty());
    assert(words(word) =~= seq![word]);
    let s = word + seq![c] + rest;
    assert forall|i: int| 0 <= i < n implies !is_space(#[trigger] s[i]) by {
        assert(s[i] == word[i]);
    }
    assert(s[n as int] == c);
    lemma_word_len_is(s, n);
    assert(!is_space(s[0]));
    assert(s.take(n as int) =~= word);
    let spaced = seq![c] + rest;
    assert(s.skip(n as int) =~= spaced);
    assert(spaced.skip(1) =~= rest);
    assert(spaced[0] == c);
    assert(words(spaced) == words(rest));
    assert(words(s) =~= seq![word] + words(spaced));
}

/// Padding only ever adds blanks behind a text: it is never cut, and a text that
/// is too short becomes as wide as it is to be.
pub proof fn law_padding(s: Seq<char>, width: nat)
    ensures
        padded(s, width).take(s.len() as int) == s,
        padded(s, width).len() >= width,
        s.len() >= width ==> padded(s, width) == s,
        s.len() < width ==> padded(s, width).len() == width,
        forall|i: int| s.len() <= i < padded(s, width).len() ==> #[trigger] padded(s, width)[i]
            == ' ',
{
    assert(padded(s, width).take(s.len() as int) =~= s);
}

} // verus!
