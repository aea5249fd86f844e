//! Lexical handling of slash-separated paths.
//!
//! Nothing here touches a file system: a path is its characters, and every
//! operation is a function of those characters alone.

use crate::text::{append_chars, from_chars, rows, to_chars};
use vstd::prelude::*;

verus! {

/// The pieces of `text` between occurrences of `sep`. There is always at
/// least one piece; a separator at either end gives an empty piece.
pub open spec fn split(text: Seq<char>, sep: char) -> Seq<Seq<char>>
    decreases text.len(),
{
    if text.len() == 0 {
        seq![Seq::empty()]
    } else {
        let before = split(text.drop_last(), sep);
        if text.last() == sep {
            before.push(Seq::empty())
        } else {
            before.drop_last().push(before.last().push(text.last()))
        }
    }
}

/// The pieces put back together with `sep` between neighbours.
pub open spec fn join(parts: Seq<Seq<char>>, sep: char) -> Seq<char>
    decreases parts.len(),
{
    if parts.len() == 0 {
        Seq::empty()
    } else if parts.len() == 1 {
        parts[0]
    } else {
        join(parts.drop_last(), sep).push(sep) + parts.last()
    }
}

/// Splitting never yields an empty list.
pub proof fn lemma_split_nonempty(text: Seq<char>, sep: char)
    ensures
        split(text, sep).len() >= 1,
    decreases text.len(),
{
    if text.len() > 0 {
        lemma_split_nonempty(text.drop_last(), sep);
    }
}

/// Joining what was split gives the text back.
pub proof fn lemma_join_split(text: Seq<char>, sep: char)
    ensures
        join(split(text, sep), sep) == text,
    decreases text.len(),
{
    if text.len() == 0 {
    } else {
        let shorter = text.drop_last();
        let before = split(shorter, sep);
        lemma_split_nonempty(shorter, sep);
        lemma_join_split(shorter, sep);
        assert(text == shorter.push(text.last()));
        if text.last() == sep {
            let now = before.push(Seq::empty());
            assert(now.drop_last() == before);
            assert(join(now, sep) == join(before, sep).push(sep) + Seq::<char>::empty());
        } else {
            let grown = before.last().push(text.last());
            let now = before.drop_last().push(grown);
            if before.len() == 1 {
                assert(join(before, sep) == before[0]);
                assert(join(now, sep) == grown);
            } else {
                assert(now.drop_last() == before.drop_last());
                assert(join(now, sep) == join(before.drop_last(), sep).push(sep) + grown);
                assert(join(before, sep) == join(before.drop_last(), sep).push(sep)
                    + before.last());
                assert(join(now, sep) == join(before, sep).push(text.last()));
            }
        }
    }
}

/// Cuts `text` at every `sep`.
pub fn split_chars(text: &Vec<char>, sep: char) -> (parts: Vec<Vec<char>>)
    ensures
        rows(parts@) == split(text@, sep),
{
    let mut parts: Vec<Vec<char>> = Vec::new();
    let mut piece: Vec<char> = Vec::new();
    let mut i: usize = 0;
    while i < text.len()
        invariant
            i <= text.len(),
            rows(parts@).push(piece@) == split(text@.take(i as int), sep),
        decreases text.len() - i,
    {
        let ghost seen = text@.take(i as int);
        let ghost next = text@.take(i + 1);
        assert(next.drop_last() == seen);
        assert(next.last() == text@[i as int]);
        let ghost before = rows(parts@).push(piece@);
        assert(before.last() == piece@);
        assert(before.drop_last() == rows(parts@));
        let c = text[i];
        if c == sep {
            let ghost old_parts = parts@;
            parts.push(piece);
            piece = Vec::new();
            assert(rows(parts@) == before);
        } else {
            piece.push(c);
        }
        i += 1;
    }
    assert(text@.take(text@.len() as int) == text@);
    let ghost before = rows(parts@);
    parts.push(piece);
    assert(rows(parts@) == before.push(piece@));
    parts
}

/// Glues `parts` together with `sep` between neighbours.
pub fn join_chars(parts: &Vec<Vec<char>>, sep: char) -> (text: Vec<char>)
    ensures
        text@ == join(rows(parts@), sep),
{
    let mut text: Vec<char> = Vec::new();
    let mut i: usize = 0;
    while i < parts.len()
        invariant
            i <= parts.len(),
            text@ == join(rows(parts@).take(i as int), sep),
        decreases parts.len() - i,
    {
        let ghost seen = rows(parts@).take(i as int);
        let ghost next = rows(parts@).take(i + 1);
        assert(next.drop_last() == seen);
        assert(next.last() == parts@[i as int]@);
        if i > 0 {
            text.push(sep);
        }
        append_chars(&mut text, &parts[i]);
        i += 1;
    }
    assert(rows(parts@).take(parts@.len() as int) == rows(parts@));
    text
}

/// The segment `.`, which names the directory it stands in.
pub open spec fn dot() -> Seq<char> {
    seq!['.']
}

/// The segment `..`, which names the directory above.
pub open spec fn dotdot() -> Seq<char> {
    seq!['.', '.']
}

/// Whether the path starts at the root, that is with a slash.
pub open spec fn is_rooted(path: Seq<char>) -> bool {
    path.len() > 0 && path[0] == '/'
}

/// One step of normalization: what the stack of kept segments becomes when
/// `seg` follows it. Empty segments and `.` change nothing. `..` cancels the
/// segment before it, unless there is none or it is itself `..`: then it is
/// kept. Any other segment is kept. The root is held as an empty segment at
/// the bottom of the stack and is cancelled like any other.
pub open spec fn step(stack: Seq<Seq<char>>, seg: Seq<char>) -> Seq<Seq<char>> {
    if seg.len() == 0 || seg == dot() {
        stack
    } else if seg == dotdot() {
        if stack.len() > 0 && stack.last() != dotdot() {
            stack.drop_last()
        } else {
            stack.push(seg)
        }
    } else {
        stack.push(seg)
    }
}

/// The stack after every segment of `segs` has taken its step, first to last.
pub open spec fn fold_segments(base: Seq<Seq<char>>, segs: Seq<Seq<char>>) -> Seq<Seq<char>>
    decreases segs.len(),
{
    if segs.len() == 0 {
        base
    } else {
        step(fold_segments(base, segs.drop_last()), segs.last())
    }
}

/// The stack a path starts from: the root marker for a rooted path, nothing
/// otherwise.
pub open spec fn base_of(path: Seq<char>) -> Seq<Seq<char>> {
    if is_rooted(path) {
        seq![Seq::empty()]
    } else {
        Seq::empty()
    }
}

/// The segments that are left of `path` once `.` and `..` are resolved.
pub open spec fn normalized_segments(path: Seq<char>) -> Seq<Seq<char>> {
    fold_segments(base_of(path), split(path, '/'))
}

/// The text of a stack of segments: the segments with slashes between them;
/// the root alone is a single slash.
pub open spec fn render(stack: Seq<Seq<char>>) -> Seq<char> {
    if stack.len() == 1 && stack[0].len() == 0 {
        seq!['/']
    } else {
        join(stack, '/')
    }
}

/// The normal form of a path: `.` collapsed, `..` resolved against the
/// segment before it, repeated and trailing slashes dropped. A `..` with
/// nothing before it to cancel stays.
pub open spec fn normalized(path: Seq<char>) -> Seq<char> {
    render(normalized_segments(path))
}

fn is_dot(seg: &Vec<char>) -> (yes: bool)
    ensures
        yes == (seg@ == dot()),
{
    let yes = seg.len() == 1 && seg[0] == '.';
    proof {
        if yes {
            assert(seg@ =~= dot());
        } else if seg@ == dot() {
            assert(dot().len() == 1 && dot()[0] == '.');
        }
    }
    yes
}

fn is_dotdot(seg: &Vec<char>) -> (yes: bool)
    ensures
        yes == (seg@ == dotdot()),
{
    let yes = seg.len() == 2 && seg[0] == '.' && seg[1] == '.';
    proof {
        if yes {
            assert(seg@ =~= dotdot());
        } else if seg@ == dotdot() {
            assert(dotdot().len() == 2 && dotdot()[0] == '.' && dotdot()[1] == '.');
        }
    }
    yes
}

/// Resolves `.` and `..` among the segments of `path`.
fn normalize_chars(path: &Vec<char>) -> (stack: Vec<Vec<char>>)
    ensures
        rows(stack@) == normalized_segments(path@),
{
    let segs = split_chars(path, '/');
    let mut stack: Vec<Vec<char>> = Vec::new();
    if path.len() > 0 && path[0] == '/' {
        stack.push(Vec::new());
    }
    assert(rows(stack@) == base_of(path@));
    let mut i: usize = 0;
    while i < segs.len()
        invariant
            i <= segs.len(),
            rows(stack@) == fold_segments(base_of(path@), rows(segs@).take(i as int)),
        decreases segs.len() - i,
    {
        let ghost seen = rows(segs@).take(i as int);
        let ghost next = rows(segs@).take(i + 1);
        assert(next.drop_last() == seen);
        assert(next.last() == segs@[i as int]@);
        let ghost before = rows(stack@);
        let seg = &segs[i];
        if seg.len() == 0 || is_dot(seg) {
        } else if is_dotdot(seg) {
            let cancels = stack.len() > 0 && !is_dotdot(&stack[stack.len() - 1]);
            assert(cancels == (before.len() > 0 && before.last() != dotdot()));
            if cancels {
                stack.pop();
                assert(rows(stack@) == before.drop_last());
            } else {
                stack.push(seg.clone());
                assert(rows(stack@) == before.push(seg@));
            }
        } else {
            stack.push(seg.clone());
            assert(rows(stack@) == before.push(seg@));
        }
        i += 1;
    }
    assert(rows(segs@).take(segs@.len() as int) == rows(segs@));
    stack
}

fn render_chars(stack: &Vec<Vec<char>>) -> (text: Vec<char>)
    ensures
        text@ == render(rows(stack@)),
{
    if stack.len() == 1 && stack[0].len() == 0 {
        let mut text: Vec<char> = Vec::new();
        text.push('/');
        assert(text@ == seq!['/']);
        text
    } else {
        join_chars(stack, '/')
    }
}

/// Normalizes a relative file path by resolving `.` (current directory) and
/// `..` (parent directory) segments, without looking at any file system.
pub fn normalize_relative_path(path: &str) -> (out: String)
    ensures
        out@ == normalized(path@),
{
    let chars = to_chars(path);
    let stack = normalize_chars(&chars);
    let text = render_chars(&stack);
    from_chars(&text)
}

/// The segments of `segs` that name something: those that are neither empty
/// nor `.`.
pub open spec fn named_segments(segs: Seq<Seq<char>>) -> Seq<Seq<char>>
    decreases segs.len(),
{
    if segs.len() == 0 {
        Seq::empty()
    } else {
        let before = named_segments(segs.drop_last());
        if segs.last().len() == 0 || segs.last() == dot() {
            before
        } else {
            before.push(segs.last())
        }
    }
}

/// The components of a path: the root marker if it is rooted, then its
/// named segments.
pub open spec fn components(path: Seq<char>) -> Seq<Seq<char>> {
    base_of(path) + named_segments(split(path, '/'))
}

/// The directory a path lies in: the path without its last component. A
/// path without components lies in the empty path.
pub open spec fn parent_dir(path: Seq<char>) -> Seq<char> {
    let parts = components(path);
    if parts.len() == 0 {
        Seq::empty()
    } else {
        render(parts.drop_last())
    }
}

/// The last component of a path, if it names a file or directory; empty
/// if the path ends in `..`, is the root, or has no component.
pub open spec fn file_name(path: Seq<char>) -> Seq<char> {
    let parts = named_segments(split(path, '/'));
    if parts.len() == 0 || parts.last() == dotdot() {
        Seq::empty()
    } else {
        parts.last()
    }
}

/// `more` put behind `base`: a rooted `more` replaces `base`; otherwise the
/// two are joined by one slash, which is left out where `base` is empty or
/// already ends in one.
pub open spec fn pushed(base: Seq<char>, more: Seq<char>) -> Seq<char> {
    if is_rooted(more) {
        more
    } else if base.len() == 0 || base.last() == '/' {
        base + more
    } else {
        base.push('/') + more
    }
}

fn named_chars(path: &Vec<char>) -> (parts: Vec<Vec<char>>)
    ensures
        rows(parts@) == named_segments(split(path@, '/')),
{
    let segs = split_chars(path, '/');
    let mut parts: Vec<Vec<char>> = Vec::new();
    let mut i: usize = 0;
    while i < segs.len()
        invariant
            i <= segs.len(),
            rows(parts@) == named_segments(rows(segs@).take(i as int)),
        decreases segs.len() - i,
    {
        let ghost seen = rows(segs@).take(i as int);
        let ghost next = rows(segs@).take(i + 1);
        assert(next.drop_last() == seen);
        assert(next.last() == segs@[i as int]@);
        let ghost before = rows(parts@);
        let seg = &segs[i];
        if !(seg.len() == 0 || is_dot(seg)) {
            parts.push(seg.clone());
            assert(rows(parts@) == before.push(seg@));
        }
        i += 1;
    }
    assert(rows(segs@).take(segs@.len() as int) == rows(segs@));
    parts
}

/// The directory that `path` lies in.
pub fn parent_of(path: &Vec<char>) -> (dir: Vec<char>)
    ensures
        dir@ == parent_dir(path@),
{
    let mut parts: Vec<Vec<char>> = Vec::new();
    if path.len() > 0 && path[0] == '/' {
        parts.push(Vec::new());
    }
    assert(rows(parts@) == base_of(path@));
    let mut named = named_chars(path);
    let ghost head = rows(parts@);
    let ghost tail = rows(named@);
    parts.append(&mut named);
    assert(rows(parts@) == head + tail);
    if parts.len() == 0 {
        Vec::new()
    } else {
        let ghost whole = rows(parts@);
        parts.pop();
        assert(rows(parts@) == whole.drop_last());
        render_chars(&parts)
    }
}

/// The last component of `path`, or nothing where it names no file.
pub fn file_name_of(path: &Vec<char>) -> (name: Vec<char>)
    ensures
        name@ == file_name(path@),
{
    let named = named_chars(path);
    if named.len() == 0 {
        return Vec::new();
    }
    let last = &named[named.len() - 1];
    assert(last@ == rows(named@).last());
    if is_dotdot(last) {
        Vec::new()
    } else {
        last.clone()
    }
}

/// Puts `more` behind `base`.
pub fn push_path(base: &Vec<char>, more: &Vec<char>) -> (whole: Vec<char>)
    ensures
        whole@ == pushed(base@, more@),
{
    if more.len() > 0 && more[0] == '/' {
        return more.clone();
    }
    let mut whole = base.clone();
    if !(base.len() == 0 || base[base.len() - 1] == '/') {
        whole.push('/');
    }
    append_chars(&mut whole, more);
    whole
}

/// Whether `text` holds no `sep`.
pub open spec fn free_of(text: Seq<char>, sep: char) -> bool {
    forall|i: int| 0 <= i < text.len() ==> text[i] != sep
}

/// No piece of a split holds the separator.
pub proof fn lemma_split_pieces(text: Seq<char>, sep: char)
    ensures
        forall|k: int| 0 <= k < split(text, sep).len() ==> free_of(#[trigger] split(text, sep)[k], sep),
    decreases text.len(),
{
    if text.len() > 0 {
        lemma_split_pieces(text.drop_last(), sep);
        lemma_split_nonempty(text.drop_last(), sep);
        let before = split(text.drop_last(), sep);
        assert forall|k: int| 0 <= k < split(text, sep).len() implies free_of(
            #[trigger] split(text, sep)[k],
            sep,
        ) by {
            if text.last() == sep {
                if k < before.len() {
                    assert(split(text, sep)[k] == before[k]);
                }
            } else {
                if k < before.len() - 1 {
                    assert(split(text, sep)[k] == before[k]);
                } else {
                    assert(free_of(before[before.len() - 1], sep));
                }
            }
        }
    }
}

/// Text without separator that follows a text lengthens its last piece.
pub proof fn lemma_split_extend(text: Seq<char>, more: Seq<char>, sep: char)
    requires
        free_of(more, sep),
    ensures
        split(text + more, sep) == split(text, sep).drop_last().push(
            split(text, sep).last() + more,
        ),
    decreases more.len(),
{
    lemma_split_nonempty(text, sep);
    let pieces = split(text, sep);
    if more.len() == 0 {
        assert(text + more == text);
        assert(pieces.last() + more == pieces.last());
        assert(pieces.drop_last().push(pieces.last()) == pieces);
    } else {
        let shorter = more.drop_last();
        assert forall|i: int| 0 <= i < shorter.len() implies shorter[i] != sep by {
            assert(shorter[i] == more[i]);
        }
        lemma_split_extend(text, shorter, sep);
        assert((text + more).drop_last() == text + shorter);
        assert((text + more).last() == more.last());
        assert(more[more.len() - 1] != sep);
        let before = split(text + shorter, sep);
        assert(before.last() == pieces.last() + shorter);
        assert(before.drop_last() == pieces.drop_last());
        assert((pieces.last() + shorter).push(more.last()) == pieces.last() + more);
    }
}

/// Splitting what was joined gives the parts back, where there is a part
/// and no part holds the separator.
pub proof fn lemma_split_join(parts: Seq<Seq<char>>, sep: char)
    requires
        parts.len() >= 1,
        forall|k: int| 0 <= k < parts.len() ==> free_of(#[trigger] parts[k], sep),
    ensures
        split(join(parts, sep), sep) == parts,
    decreases parts.len(),
{
    let empty = Seq::<char>::empty();
    if parts.len() == 1 {
        lemma_split_extend(empty, parts[0], sep);
        assert(empty + parts[0] == parts[0]);
        assert(split(empty, sep) == seq![empty]);
        assert(seq![empty].drop_last().push(empty + parts[0]) == parts);
    } else {
        let shorter = parts.drop_last();
        assert forall|k: int| 0 <= k < shorter.len() implies free_of(#[trigger] shorter[k], sep) by {
            assert(shorter[k] == parts[k]);
        }
        lemma_split_join(shorter, sep);
        let head = join(shorter, sep).push(sep);
        assert(head.drop_last() == join(shorter, sep));
        assert(split(head, sep) == shorter.push(empty));
        lemma_split_extend(head, parts.last(), sep);
        assert(shorter.push(empty).drop_last() == shorter);
        assert(empty + parts.last() == parts.last());
        assert(shorter.push(parts.last()) == parts);
    }
}

/// Whether a segment names something: it is not empty, holds no slash and
/// is not `.`.
pub open spec fn names_something(seg: Seq<char>) -> bool {
    seg.len() > 0 && free_of(seg, '/') && seg != dot()
}

/// Whether a stack is in normal form: the root marker, if any, at the
/// bottom and nothing but names above it; or `..` any number of times and
/// then names.
pub open spec fn in_normal_form(stack: Seq<Seq<char>>) -> bool {
    &&& forall|k: int| 1 <= k < stack.len() ==> names_something(#[trigger] stack[k])
    &&& stack.len() > 0 ==> stack[0].len() == 0 || names_something(stack[0])
    &&& forall|k: int|
        1 <= k < stack.len() && #[trigger] stack[k] == dotdot() ==> stack[k - 1] == dotdot()
}

/// A step keeps a stack in normal form.
pub proof fn lemma_step_keeps_form(stack: Seq<Seq<char>>, seg: Seq<char>)
    requires
        in_normal_form(stack),
        free_of(seg, '/'),
    ensures
        in_normal_form(step(stack, seg)),
{
    let after = step(stack, seg);
    if seg.len() == 0 || seg == dot() {
    } else if seg == dotdot() {
        if stack.len() > 0 && stack.last() != dotdot() {
            assert forall|k: int| 1 <= k < after.len() implies names_something(
                #[trigger] after[k],
            ) by {
                assert(after[k] == stack[k]);
            }
            assert forall|k: int| 1 <= k < after.len() && #[trigger] after[k]
                == dotdot() implies after[k - 1] == dotdot() by {
                assert(after[k] == stack[k]);
            }
        } else {
            assert(dotdot().len() == 2 && dotdot()[0] == '.');
            assert(dot().len() == 1);
            assert forall|k: int| 1 <= k < after.len() implies names_something(
                #[trigger] after[k],
            ) by {
                if k < stack.len() {
                    assert(after[k] == stack[k]);
                }
            }
            assert forall|k: int| 1 <= k < after.len() && #[trigger] after[k]
                == dotdot() implies after[k - 1] == dotdot() by {
                if k < stack.len() {
                    assert(after[k] == stack[k]);
                }
            }
        }
    } else {
        assert forall|k: int| 1 <= k < after.len() implies names_something(#[trigger] after[k]) by {
            if k < stack.len() {
                assert(after[k] == stack[k]);
            }
        }
        assert forall|k: int| 1 <= k < after.len() && #[trigger] after[k]
            == dotdot() implies after[k - 1] == dotdot() by {
            if k < stack.len() {
                assert(after[k] == stack[k]);
            }
        }
    }
}

/// Folding segments keeps a stack in normal form.
pub proof fn lemma_fold_keeps_form(base: Seq<Seq<char>>, segs: Seq<Seq<char>>)
    requires
        in_normal_form(base),
        forall|k: int| 0 <= k < segs.len() ==> free_of(#[trigger] segs[k], '/'),
    ensures
        in_normal_form(fold_segments(base, segs)),
    decreases segs.len(),
{
    if segs.len() > 0 {
        let shorter = segs.drop_last();
        assert forall|k: int| 0 <= k < shorter.len() implies free_of(#[trigger] shorter[k], '/') by {
            assert(shorter[k] == segs[k]);
        }
        lemma_fold_keeps_form(base, shorter);
        assert(free_of(segs[segs.len() - 1], '/'));
        lemma_step_keeps_form(fold_segments(base, shorter), segs.last());
    }
}

/// The segments of a normalized path are in normal form.
pub proof fn lemma_normalized_form(path: Seq<char>)
    ensures
        in_normal_form(normalized_segments(path)),
{
    lemma_split_pieces(path, '/');
    lemma_fold_keeps_form(base_of(path), split(path, '/'));
}

/// Folding the upper part of a stack in normal form onto its lower part
/// gives the stack back.
pub proof fn lemma_fold_rebuilds(stack: Seq<Seq<char>>, upto: int)
    requires
        in_normal_form(stack),
        1 <= upto <= stack.len(),
        names_something(stack[0]),
    ensures
        fold_segments(Seq::empty(), stack.take(upto)) == stack.take(upto),
    decreases upto,
{
    let part = stack.take(upto);
    assert(part.drop_last() == stack.take(upto - 1));
    assert(part.last() == stack[upto - 1]);
    let seg = part.last();
    assert(names_something(seg));
    if upto == 1 {
        assert(stack.take(0) == Seq::<Seq<char>>::empty());
        assert(fold_segments(Seq::empty(), stack.take(0)) == Seq::<Seq<char>>::empty());
        assert(step(Seq::empty(), seg) == Seq::<Seq<char>>::empty().push(seg));
        assert(Seq::<Seq<char>>::empty().push(seg) == part);
    } else {
        lemma_fold_rebuilds(stack, upto - 1);
        let below = stack.take(upto - 1);
        assert(below.last() == stack[upto - 2]);
        if seg == dotdot() {
            assert(stack[upto - 1] == dotdot());
            assert(stack[upto - 2] == dotdot());
        }
        assert(step(below, seg) == below.push(seg));
        assert(below.push(seg) == part);
    }
}

/// Folding the names above the root onto the root gives the stack back.
pub proof fn lemma_fold_rebuilds_rooted(stack: Seq<Seq<char>>, upto: int)
    requires
        in_normal_form(stack),
        1 <= upto <= stack.len(),
        stack[0].len() == 0,
    ensures
        fold_segments(seq![Seq::empty()], stack.take(upto)) == stack.take(upto),
    decreases upto,
{
    let part = stack.take(upto);
    assert(part.drop_last() == stack.take(upto - 1));
    assert(part.last() == stack[upto - 1]);
    let root = seq![Seq::<char>::empty()];
    if upto == 1 {
        assert(stack.take(0) == Seq::<Seq<char>>::empty());
        assert(fold_segments(root, stack.take(0)) == root);
        assert(stack[0] == Seq::<char>::empty());
        assert(part == root);
    } else {
        lemma_fold_rebuilds_rooted(stack, upto - 1);
        let below = stack.take(upto - 1);
        let seg = part.last();
        assert(names_something(seg));
        assert(below.last() == stack[upto - 2]);
        if seg == dotdot() {
            assert(stack[upto - 1] == dotdot());
            assert(stack[upto - 2] == dotdot());
            assert(dotdot().len() == 2);
            if upto == 2 {
                assert(stack[0].len() == 0);
            } else {
                assert(names_something(stack[upto - 2]));
            }
        }
        assert(step(below, seg) == below.push(seg));
        assert(below.push(seg) == part);
    }
}

/// Normalizing is idempotent: a normalized path is its own normal form.
pub proof fn lemma_normalized_twice(path: Seq<char>)
    ensures
        normalized(normalized(path)) == normalized(path),
{
    let stack = normalized_segments(path);
    lemma_normalized_form(path);
    let text = render(stack);
    let empty = Seq::<char>::empty();
    if stack.len() == 0 {
        assert(text == empty);
        assert(split(empty, '/') == seq![empty]);
        assert(seq![empty].drop_last() == Seq::<Seq<char>>::empty());
        assert(fold_segments(base_of(empty), Seq::<Seq<char>>::empty()) == Seq::<Seq<char>>::empty());
        assert(normalized_segments(text) == stack);
    } else if stack.len() == 1 && stack[0].len() == 0 {
        let slash = seq!['/'];
        assert(text == slash);
        assert(slash.drop_last() == empty);
        assert(slash.last() == '/');
        assert(split(empty, '/') == seq![empty]);
        assert(seq![empty].push(empty) == seq![empty, empty]);
        assert(split(slash, '/') == seq![empty, empty]);
        let both = seq![empty, empty];
        assert(both.drop_last() == seq![empty]);
        assert(seq![empty].drop_last() == Seq::<Seq<char>>::empty());
        assert(fold_segments(seq![empty], Seq::<Seq<char>>::empty()) == seq![empty]);
        assert(fold_segments(seq![empty], seq![empty]) == seq![empty]);
        assert(fold_segments(seq![empty], both) == seq![empty]);
        assert(stack[0] == empty);
        assert(stack == seq![empty]);
        assert(is_rooted(slash));
        assert(normalized_segments(text) == stack);
    } else {
        assert(text == join(stack, '/'));
        assert forall|k: int| 0 <= k < stack.len() implies free_of(#[trigger] stack[k], '/') by {
            if k > 0 {
                assert(names_something(stack[k]));
            }
        }
        lemma_split_join(stack, '/');
        lemma_join_starts(stack, '/');
        if stack[0].len() == 0 {
            assert(is_rooted(text));
            lemma_fold_rebuilds_rooted(stack, stack.len() as int);
            assert(stack.take(stack.len() as int) == stack);
            assert(normalized_segments(text) == stack);
        } else {
            assert(stack[0][0] != '/');
            assert(!is_rooted(text));
            lemma_fold_rebuilds(stack, stack.len() as int);
            assert(stack.take(stack.len() as int) == stack);
            assert(normalized_segments(text) == stack);
        }
    }
}

/// A joined text begins with its first part; where there are parts after
/// an empty first part, it begins with the separator.
pub proof fn lemma_join_starts(parts: Seq<Seq<char>>, sep: char)
    requires
        parts.len() >= 1,
    ensures
        parts[0].is_prefix_of(join(parts, sep)),
        parts.len() >= 2 && parts[0].len() == 0 ==> join(parts, sep).len() > 0 && join(
            parts,
            sep,
        )[0] == sep,
    decreases parts.len(),
{
    if parts.len() == 1 {
        assert(join(parts, sep) == parts[0]);
    } else {
        let shorter = parts.drop_last();
        lemma_join_starts(shorter, sep);
        assert(shorter[0] == parts[0]);
        let head = join(shorter, sep);
        let whole = head.push(sep) + parts.last();
        assert(whole.subrange(0, parts[0].len() as int) == head.subrange(0, parts[0].len() as int));
        if parts[0].len() == 0 {
            if shorter.len() == 1 {
                assert(head == parts[0]);
                assert(whole[0] == sep);
            } else {
                assert(whole[0] == head[0]);
            }
        }
    }
}

} // verus!
