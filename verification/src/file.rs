//! Choosing among the files that a walk through a folder has found.

use crate::text::{ends_with, from_chars, replace_chars, replaced, texts, to_chars};
use vstd::prelude::*;

verus! {

/// Whether `path` ends in a dot and one of `extensions`.
pub open spec fn has_extension(path: Seq<char>, extensions: Seq<Seq<char>>) -> bool {
    exists|i: int| 0 <= i < extensions.len() && (seq!['.'] + #[trigger] extensions[i]).is_suffix_of(path)
}

/// The paths of `paths` that end in a dot and one of `extensions`, in
/// order.
pub open spec fn chosen(paths: Seq<Seq<char>>, extensions: Seq<Seq<char>>) -> Seq<Seq<char>>
    decreases paths.len(),
{
    if paths.len() == 0 {
        Seq::empty()
    } else if has_extension(paths.last(), extensions) {
        chosen(paths.drop_last(), extensions).push(paths.last())
    } else {
        chosen(paths.drop_last(), extensions)
    }
}

/// Whether the file at `path` has one of `extensions`.
pub fn with_extension(path: &str, extensions: &Vec<String>) -> (yes: bool)
    ensures
        yes == has_extension(path@, texts(extensions@)),
{
    let chars = to_chars(path);
    let mut i: usize = 0;
    while i < extensions.len()
        invariant
            i <= extensions.len(),
            chars@ == path@,
            forall|j: int|
                0 <= j < i ==> !(seq!['.'] + #[trigger] texts(extensions@)[j]).is_suffix_of(path@),
        decreases extensions.len() - i,
    {
        let mut ending: Vec<char> = Vec::new();
        ending.push('.');
        crate::text::append_chars(&mut ending, &to_chars(extensions[i].as_str()));
        assert(ending@ == seq!['.'] + texts(extensions@)[i as int]);
        if ends_with(&chars, &ending) {
            return true;
        }
        i += 1;
    }
    false
}

/// Keeps the files that have one of `extensions`.
pub fn files_per_extensions(paths: &Vec<String>, extensions: &Vec<String>) -> (kept: Vec<String>)
    ensures
        texts(kept@) == chosen(texts(paths@), texts(extensions@)),
{
    let ghost all = texts(paths@);
    let mut kept: Vec<String> = Vec::new();
    let mut i: usize = 0;
    assert(all.take(0) == Seq::<Seq<char>>::empty());
    assert(texts(kept@) == Seq::<Seq<char>>::empty());
    while i < paths.len()
        invariant
            i <= paths.len(),
            all == texts(paths@),
            texts(kept@) == chosen(all.take(i as int), texts(extensions@)),
        decreases paths.len() - i,
    {
        assert(all.take(i + 1).drop_last() == all.take(i as int));
        assert(all.take(i + 1).last() == all[i as int]);
        let ghost before = texts(kept@);
        if with_extension(paths[i].as_str(), extensions) {
            kept.push(paths[i].clone());
            assert(texts(kept@) == before.push(all[i as int]));
        }
        i += 1;
    }
    assert(all.take(paths@.len() as int) == all);
    kept
}

/// The address under which a file of the public folder is served: its path
/// without `./public`.
pub open spec fn endpoint(path: Seq<char>) -> Seq<char> {
    replaced(path, "./public"@, Seq::empty())
}

/// The address of a public file.
pub fn public_endpoint(path: &str) -> (address: String)
    ensures
        address@ == endpoint(path@),
{
    let nothing: Vec<char> = Vec::new();
    from_chars(&replace_chars(&to_chars(path), &to_chars("./public"), &nothing))
}

/// How a request for a file is answered.
#[derive(Debug, Clone, Copy, PartialEq, Eq, Structural)]
pub enum FileKind {
    /// The file lies in the public folder and is sent from there.
    Public,
    /// The file is a known stylesheet.
    Css,
    /// The file is a known script.
    Javascript,
    /// There is no such file.
    NotFound,
}

/// The answer to a request for `path`: a public file before anything else;
/// then, for a path that ends in `.css`, a stylesheet if it is known; then,
/// for a path that ends in `.js`, a script if it is known; else nothing.
pub open spec fn answered(
    path: Seq<char>,
    public: Seq<Seq<char>>,
    styles: Seq<Seq<char>>,
    scripts: Seq<Seq<char>>,
) -> FileKind {
    if public.contains(path) {
        FileKind::Public
    } else if seq!['.', 'c', 's', 's'].is_suffix_of(path) {
        if styles.contains(path) {
            FileKind::Css
        } else {
            FileKind::NotFound
        }
    } else if seq!['.', 'j', 's'].is_suffix_of(path) {
        if scripts.contains(path) {
            FileKind::Javascript
        } else {
            FileKind::NotFound
        }
    } else {
        FileKind::NotFound
    }
}

/// Decides how a request for the file at `path` is answered, given the
/// public files, the stylesheets and the scripts that are known.
pub fn file_kind(path: &str, public: &Vec<String>, styles: &Vec<String>, scripts: &Vec<String>) -> (kind:
    FileKind)
    ensures
        kind == answered(path@, texts(public@), texts(styles@), texts(scripts@)),
{
    let wanted = path.to_owned();
    let chars = to_chars(path);
    if crate::order::holds(public, &wanted) {
        return FileKind::Public;
    }
    let mut style_end: Vec<char> = Vec::new();
    style_end.push('.');
    style_end.push('c');
    style_end.push('s');
    style_end.push('s');
    if ends_with(&chars, &style_end) {
        return if crate::order::holds(styles, &wanted) {
            FileKind::Css
        } else {
            FileKind::NotFound
        };
    }
    let mut script_end: Vec<char> = Vec::new();
    script_end.push('.');
    script_end.push('j');
    script_end.push('s');
    if ends_with(&chars, &script_end) {
        return if crate::order::holds(scripts, &wanted) {
            FileKind::Javascript
        } else {
            FileKind::NotFound
        };
    }
    FileKind::NotFound
}

} // verus!
