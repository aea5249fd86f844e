//! Character-level helpers shared by the path, alias and resolver modules.
//!
//! Every string is read through its view, a `Seq<char>`; the executable
//! helpers work on `Vec<char>` and are proved against plain sequence
//! operations.

use vstd::prelude::*;

verus! {

/// `String::push` appends one character to the end of the string.
pub assume_specification[ std::string::String::push ](s: &mut std::string::String, ch: char)
    ensures
        final(s)@ == old(s)@.push(ch),
;

/// The views of a list of strings, in order.
pub open spec fn texts(v: Seq<String>) -> Seq<Seq<char>> {
    Seq::new(v.len(), |i: int| v[i]@)
}

/// The views of a list of character buffers, in order.
pub open spec fn rows(v: Seq<Vec<char>>) -> Seq<Seq<char>> {
    Seq::new(v.len(), |i: int| v[i]@)
}

/// The characters of `s`, in order.
pub fn to_chars(s: &str) -> (out: Vec<char>)
    ensures
        out@ == s@,
{
    let mut out: Vec<char> = Vec::new();
    for c in it: s.chars()
        invariant
            it.seq() == s@,
            out@ == it.seq().take(it.index() as int),
    {
        out.push(c);
    }
    assert(out@ == s@.take(s@.len() as int));
    out
}

/// The string made of the characters of `chars`, in order.
pub fn from_chars(chars: &Vec<char>) -> (out: String)
    ensures
        out@ == chars@,
{
    let mut out = String::new();
    let mut i: usize = 0;
    while i < chars.len()
        invariant
            i <= chars.len(),
            out@ == chars@.take(i as int),
        decreases chars.len() - i,
    {
        out.push(chars[i]);
        i += 1;
    }
    assert(out@ == chars@.take(chars@.len() as int));
    out
}

/// Whether two buffers hold the same characters.
pub fn same_chars(a: &Vec<char>, b: &Vec<char>) -> (same: bool)
    ensures
        same == (a@ == b@),
{
    if a.len() != b.len() {
        return false;
    }
    let mut i: usize = 0;
    while i < a.len()
        invariant
            i <= a.len(),
            a.len() == b.len(),
            a@.take(i as int) == b@.take(i as int),
        decreases a.len() - i,
    {
        if a[i] != b[i] {
            return false;
        }
        assert(a@.take(i + 1) == a@.take(i as int).push(a@[i as int]));
        assert(b@.take(i + 1) == b@.take(i as int).push(b@[i as int]));
        i += 1;
    }
    assert(a@ == a@.take(a@.len() as int));
    assert(b@ == b@.take(b@.len() as int));
    true
}

/// Whether `text` begins with `prefix`.
pub fn starts_with(text: &Vec<char>, prefix: &Vec<char>) -> (yes: bool)
    ensures
        yes == prefix@.is_prefix_of(text@),
{
    if prefix.len() > text.len() {
        return false;
    }
    let mut i: usize = 0;
    while i < prefix.len()
        invariant
            i <= prefix.len() <= text.len(),
            prefix@.take(i as int) == text@.take(i as int),
        decreases prefix.len() - i,
    {
        if prefix[i] != text[i] {
            assert(text@.subrange(0, prefix@.len() as int)[i as int] != prefix@[i as int]);
            return false;
        }
        assert(prefix@.take(i + 1) == prefix@.take(i as int).push(prefix@[i as int]));
        assert(text@.take(i + 1) == text@.take(i as int).push(text@[i as int]));
        i += 1;
    }
    assert(prefix@ == prefix@.take(prefix@.len() as int));
    true
}

/// Whether `text` ends with `suffix`.
pub fn ends_with(text: &Vec<char>, suffix: &Vec<char>) -> (yes: bool)
    ensures
        yes == suffix@.is_suffix_of(text@),
{
    if suffix.len() > text.len() {
        return false;
    }
    let shift: usize = text.len() - suffix.len();
    let mut i: usize = 0;
    while i < suffix.len()
        invariant
            i <= suffix.len() <= text.len(),
            shift == text.len() - suffix.len(),
            suffix@.take(i as int) == text@.subrange(shift as int, shift + i),
        decreases suffix.len() - i,
    {
        if suffix[i] != text[shift + i] {
            assert(text@.subrange(shift as int, text@.len() as int)[i as int] != suffix@[i as int]);
            return false;
        }
        assert(suffix@.take(i + 1) == suffix@.take(i as int).push(suffix@[i as int]));
        assert(text@.subrange(shift as int, shift + i + 1) == text@.subrange(
            shift as int,
            shift + i,
        ).push(text@[shift + i]));
        i += 1;
    }
    assert(suffix@ == suffix@.take(suffix@.len() as int));
    true
}

/// Appends the characters of `tail` to `head`.
pub fn append_chars(head: &mut Vec<char>, tail: &Vec<char>)
    ensures
        final(head)@ == old(head)@ + tail@,
{
    let mut i: usize = 0;
    while i < tail.len()
        invariant
            i <= tail.len(),
            head@ == old(head)@ + tail@.take(i as int),
        decreases tail.len() - i,
    {
        head.push(tail[i]);
        assert(tail@.take(i + 1) == tail@.take(i as int).push(tail@[i as int]));
        i += 1;
    }
    assert(tail@ == tail@.take(tail@.len() as int));
}

/// The characters of `text` from position `from` on.
pub(crate) fn skip_chars(text: &Vec<char>, from: usize) -> (rest: Vec<char>)
    requires
        from <= text.len(),
    ensures
        rest@ == text@.skip(from as int),
{
    let mut rest: Vec<char> = Vec::new();
    let mut i: usize = from;
    while i < text.len()
        invariant
            from <= i <= text.len(),
            rest@ == text@.subrange(from as int, i as int),
        decreases text.len() - i,
    {
        rest.push(text[i]);
        assert(text@.subrange(from as int, i + 1) == text@.subrange(from as int, i as int).push(
            text@[i as int],
        ));
        i += 1;
    }
    rest
}

/// The first `count` characters of `text`.
pub(crate) fn take_chars(text: &Vec<char>, count: usize) -> (head: Vec<char>)
    requires
        count <= text.len(),
    ensures
        head@ == text@.take(count as int),
{
    let mut head: Vec<char> = Vec::new();
    let mut i: usize = 0;
    while i < count
        invariant
            i <= count <= text.len(),
            head@ == text@.take(i as int),
        decreases count - i,
    {
        head.push(text[i]);
        assert(text@.take(i + 1) == text@.take(i as int).push(text@[i as int]));
        i += 1;
    }
    head
}

/// `text` with every occurrence of `from` replaced by `to`, reading left to
/// right and never looking again at what a replacement has consumed. An
/// empty `from` replaces nothing.
pub open spec fn replaced(text: Seq<char>, from: Seq<char>, to: Seq<char>) -> Seq<char>
    decreases text.len(),
{
    if from.len() == 0 || text.len() < from.len() {
        text
    } else if from.is_prefix_of(text) {
        to + replaced(text.skip(from.len() as int), from, to)
    } else {
        seq![text[0]] + replaced(text.skip(1), from, to)
    }
}

/// `text` without `suffix` at its end, or `text` itself where it does not
/// end with it.
pub open spec fn without_suffix(text: Seq<char>, suffix: Seq<char>) -> Seq<char> {
    if suffix.is_suffix_of(text) {
        text.take(text.len() - suffix.len())
    } else {
        text
    }
}

/// `text` without the run of `c` at its start.
pub open spec fn trimmed_start(text: Seq<char>, c: char) -> Seq<char>
    decreases text.len(),
{
    if text.len() > 0 && text[0] == c {
        trimmed_start(text.skip(1), c)
    } else {
        text
    }
}

/// Whether `pattern` stands in `text` at position `at`.
fn matches_at(text: &Vec<char>, at: usize, pattern: &Vec<char>) -> (yes: bool)
    requires
        at <= text.len(),
    ensures
        yes == pattern@.is_prefix_of(text@.skip(at as int)),
{
    if pattern.len() > text.len() - at {
        return false;
    }
    let ghost rest = text@.skip(at as int);
    let mut i: usize = 0;
    while i < pattern.len()
        invariant
            i <= pattern.len() <= text.len() - at,
            rest == text@.skip(at as int),
            pattern@.take(i as int) == rest.take(i as int),
        decreases pattern.len() - i,
    {
        if pattern[i] != text[at + i] {
            assert(rest.subrange(0, pattern@.len() as int)[i as int] != pattern@[i as int]);
            return false;
        }
        assert(pattern@.take(i + 1) == pattern@.take(i as int).push(pattern@[i as int]));
        assert(rest.take(i + 1) == rest.take(i as int).push(rest[i as int]));
        i += 1;
    }
    assert(pattern@ == pattern@.take(pattern@.len() as int));
    true
}

/// Replaces every occurrence of `from` in `text` by `to`.
pub fn replace_chars(text: &Vec<char>, from: &Vec<char>, to: &Vec<char>) -> (out: Vec<char>)
    ensures
        out@ == replaced(text@, from@, to@),
{
    if from.len() == 0 {
        return text.clone();
    }
    let mut out: Vec<char> = Vec::new();
    let mut i: usize = 0;
    assert(text@.skip(0) == text@);
    assert(out@ + text@ == text@);
    while i < text.len() && text.len() - i >= from.len()
        invariant
            i <= text.len(),
            from.len() > 0,
            out@ + replaced(text@.skip(i as int), from@, to@) == replaced(text@, from@, to@),
        decreases text.len() - i,
    {
        let ghost rest = text@.skip(i as int);
        let ghost done = out@;
        if matches_at(text, i, from) {
            append_chars(&mut out, to);
            assert(rest.skip(from@.len() as int) == text@.skip(i + from@.len()));
            assert(done + (to@ + replaced(rest.skip(from@.len() as int), from@, to@)) == (done
                + to@) + replaced(rest.skip(from@.len() as int), from@, to@));
            i += from.len();
        } else {
            out.push(text[i]);
            assert(rest.skip(1) == text@.skip(i + 1));
            assert(done + (seq![rest[0]] + replaced(rest.skip(1), from@, to@)) == done.push(
                rest[0],
            ) + replaced(rest.skip(1), from@, to@));
            i += 1;
        }
    }
    let ghost done = out@;
    let tail = skip_chars(text, i);
    append_chars(&mut out, &tail);
    assert(replaced(text@.skip(i as int), from@, to@) == text@.skip(i as int));
    out
}

/// Drops `suffix` from the end of `text`, if it stands there.
pub fn strip_suffix_chars(text: &Vec<char>, suffix: &Vec<char>) -> (out: Vec<char>)
    ensures
        out@ == without_suffix(text@, suffix@),
{
    if ends_with(text, suffix) {
        take_chars(text, text.len() - suffix.len())
    } else {
        text.clone()
    }
}

/// Drops the run of `c` at the start of `text`.
pub fn trim_start_chars(text: &Vec<char>, c: char) -> (out: Vec<char>)
    ensures
        out@ == trimmed_start(text@, c),
{
    let mut i: usize = 0;
    assert(text@.skip(0) == text@);
    while i < text.len() && text[i] == c
        invariant
            i <= text.len(),
            trimmed_start(text@.skip(i as int), c) == trimmed_start(text@, c),
        decreases text.len() - i,
    {
        assert(text@.skip(i as int).skip(1) == text@.skip(i + 1));
        i += 1;
    }
    skip_chars(text, i)
}

/// Whether `pattern` stands somewhere in `text`.
pub open spec fn occurs(text: Seq<char>, pattern: Seq<char>) -> bool {
    exists|at: int| 0 <= at <= text.len() && pattern.is_prefix_of(#[trigger] text.skip(at))
}

/// Whether `text` holds `pattern`.
pub fn contains_chars(text: &Vec<char>, pattern: &Vec<char>) -> (yes: bool)
    ensures
        yes == occurs(text@, pattern@),
{
    let mut at: usize = 0;
    while at < text.len()
        invariant
            at <= text.len(),
            forall|k: int| 0 <= k < at ==> !pattern@.is_prefix_of(#[trigger] text@.skip(k)),
        decreases text.len() - at,
    {
        if matches_at(text, at, pattern) {
            return true;
        }
        at += 1;
    }
    matches_at(text, at, pattern)
}

} // verus!
