//! The script and style files that belong to components.

use crate::path::{normalize_relative_path, normalized, push_path, pushed};
use crate::text::{append_chars, ends_with, from_chars, same_chars, texts, to_chars};
use crate::tsconfig::{lemma_position, position};
use regex::Regex;
use vstd::prelude::*;

verus! {

/// What is left of `text` when the leftmost match of the expression
/// `pattern` in it is replaced by the replacement `with`, in which `$`
/// refers to what the match captured; `text` itself where nothing
/// matches; nothing if `pattern` is no valid expression.
pub uninterp spec fn replaced_first(pattern: Seq<char>, text: Seq<char>, with: Seq<char>) -> Option<
    Seq<char>,
>;

/// Compiles `pattern` with `regex::Regex::new` and calls `Regex::replace`
/// on `text` with the replacement `with`. The result is by definition what
/// `replaced_first` names; nothing more is claimed of it.
#[verifier::external_body]
fn replace_first(pattern: &str, text: &str, with: &str) -> (out: Option<String>)
    ensures
        match out {
            Some(s) => replaced_first(pattern@, text@, with@) == Some(s@),
            None => replaced_first(pattern@, text@, with@) is None,
        },
{
    match Regex::new(pattern) {
        Ok(re) => Some(re.replace(text, with).into_owned()),
        Err(_) => None,
    }
}

/// Files grouped by name: each name with the paths found for it, names and
/// paths in the order in which they were first met.
pub type Groups = Seq<(Seq<char>, Seq<Seq<char>>)>;

/// Files linked to a components
#[derive(Debug)]
pub struct ComponentsFiles {
    /// The scripts: each name once, with its paths.
    pub js: Vec<(String, Vec<String>)>,
    /// The stylesheets: each name once, with its paths.
    pub css: Vec<(String, Vec<String>)>,
}

/// Grouped files as plain values.
pub open spec fn groups_of(entries: Seq<(String, Vec<String>)>) -> Groups {
    Seq::new(entries.len(), |i: int| (entries[i].0@, texts(entries[i].1@)))
}

/// The folder of the components: `src/` and the configured name.
pub open spec fn components_folder(components: Seq<char>) -> Seq<char> {
    "src/"@ + components
}

/// The expression that matches the components' folder at the start of a
/// rooted path.
pub open spec fn folder_pattern(components: Seq<char>) -> Seq<char> {
    "^/"@ + components_folder(components) + "/"@
}

/// The groups with `path` added under `name`: behind the paths the name has
/// already, or as the first path of a new name at the end.
pub open spec fn grouped(groups: Groups, name: Seq<char>, path: Seq<char>) -> Groups {
    match position(groups, name) {
        Some(i) => groups.update(i, (name, groups[i].1.push(path))),
        None => groups.push((name, seq![path])),
    }
}

/// The scripts and stylesheets of the components.
pub struct Found {
    pub js: Groups,
    pub css: Groups,
}

/// The files of the components, grouped. Each file goes under its path
/// without the components' folder at its start; what is recorded for it is
/// that name below the folder, normalized. Names that end in `.css` are
/// stylesheets, all others scripts. Nothing if the folder's name makes no
/// valid expression.
pub open spec fn gathered(files: Seq<Seq<char>>, components: Seq<char>) -> Option<Found>
    decreases files.len(),
{
    if files.len() == 0 {
        Some(Found { js: Seq::empty(), css: Seq::empty() })
    } else {
        match gathered(files.drop_last(), components) {
            None => None,
            Some(before) => match replaced_first(
                folder_pattern(components),
                files.last(),
                Seq::empty(),
            ) {
                None => None,
                Some(name) => Some(filed(before, name, components)),
            },
        }
    }
}

/// `found` with the file `name` of the components added.
pub open spec fn filed(found: Found, name: Seq<char>, components: Seq<char>) -> Found {
    let path = normalized(pushed(pushed(Seq::empty(), components_folder(components)), name));
    if seq!['.', 'c', 's', 's'].is_suffix_of(name) {
        Found { css: grouped(found.css, name, path), ..found }
    } else {
        Found { js: grouped(found.js, name, path), ..found }
    }
}

/// Once the files up to `upto` cannot be gathered, neither can all of them.
pub proof fn lemma_gathering_fails(files: Seq<Seq<char>>, upto: int, components: Seq<char>)
    requires
        0 <= upto <= files.len(),
        gathered(files.take(upto), components) is None,
    ensures
        gathered(files, components) is None,
    decreases files.len(),
{
    if upto == files.len() {
        assert(files.take(upto) == files);
    } else {
        assert(files.drop_last().take(upto) == files.take(upto));
        lemma_gathering_fails(files.drop_last(), upto, components);
    }
}

fn add_to_group(groups: &mut Vec<(String, Vec<String>)>, name: String, path: String)
    ensures
        groups_of(final(groups)@) == grouped(groups_of(old(groups)@), name@, path@),
{
    let ghost before = groups_of(groups@);
    let wanted = to_chars(name.as_str());
    let mut i: usize = 0;
    while i < groups.len()
        invariant
            i <= groups.len(),
            before == groups_of(groups@),
            before == groups_of(old(groups)@),
            wanted@ == name@,
            forall|j: int| 0 <= j < i ==> (#[trigger] before[j]).0 != name@,
        decreases groups.len() - i,
    {
        if same_chars(&to_chars(groups[i].0.as_str()), &wanted) {
            proof {
                lemma_position(before, name@);
                assert(before[i as int].0 == name@);
                assert(position(before, name@) == Some(i as int));
            }
            let mut paths: Vec<String> = Vec::new();
            let mut k: usize = 0;
            while k < groups[i].1.len()
                invariant
                    i < groups.len(),
                    k <= groups@[i as int].1.len(),
                    before == groups_of(groups@),
                    texts(paths@) == before[i as int].1.take(k as int),
                decreases groups@[i as int].1.len() - k,
            {
                let ghost had = texts(paths@);
                paths.push(groups[i].1[k].clone());
                assert(texts(paths@) == had.push(before[i as int].1[k as int]));
                k += 1;
            }
            assert(before[i as int].1.take(before[i as int].1.len() as int) == before[i as int].1);
            let ghost had = texts(paths@);
            assert(had == before[i as int].1);
            paths.push(path);
            assert(texts(paths@) == had.push(path@));
            groups.set(i, (name, paths));
            assert(groups_of(groups@) == before.update(i as int, (name@, had.push(path@))));
            return;
        }
        i += 1;
    }
    proof {
        lemma_position(before, name@);
    }
    let mut paths: Vec<String> = Vec::new();
    paths.push(path);
    assert(texts(paths@) == seq![path@]);
    groups.push((name, paths));
    assert(groups_of(groups@) == before.push((name@, seq![path@])));
}

impl ComponentsFiles {
    /// The files as plain values.
    pub open spec fn found(&self) -> Found {
        Found { js: groups_of(self.js@), css: groups_of(self.css@) }
    }

    /// Get all the files linked to a component: groups the script and
    /// style files `files` that were found below the components' folder.
    pub fn gather(files: &Vec<String>, components: &str) -> (out: Option<ComponentsFiles>)
        ensures
            match out {
                Some(found) => gathered(texts(files@), components@) == Some(found.found()),
                None => gathered(texts(files@), components@) is None,
            },
    {
        let mut folder = to_chars("src/");
        append_chars(&mut folder, &to_chars(components));
        assert(folder@ == components_folder(components@));
        let mut pattern = to_chars("^/");
        append_chars(&mut pattern, &folder);
        append_chars(&mut pattern, &to_chars("/"));
        let pattern = from_chars(&pattern);
        assert(pattern@ == folder_pattern(components@));
        let mut style_end: Vec<char> = Vec::new();
        style_end.push('.');
        style_end.push('c');
        style_end.push('s');
        style_end.push('s');
        let mut found = ComponentsFiles { js: Vec::new(), css: Vec::new() };
        let ghost all = texts(files@);
        let mut i: usize = 0;
        assert(all.take(0) == Seq::<Seq<char>>::empty());
        assert(groups_of(found.js@) == Seq::<(Seq<char>, Seq<Seq<char>>)>::empty());
        assert(groups_of(found.css@) == Seq::<(Seq<char>, Seq<Seq<char>>)>::empty());
        while i < files.len()
            invariant
                i <= files.len(),
                all == texts(files@),
                folder@ == components_folder(components@),
                pattern@ == folder_pattern(components@),
                style_end@ == seq!['.', 'c', 's', 's'],
                gathered(all.take(i as int), components@) == Some(found.found()),
            decreases files.len() - i,
        {
            assert(all.take(i + 1).drop_last() == all.take(i as int));
            assert(all.take(i + 1).last() == all[i as int]);
            let name = match replace_first(pattern.as_str(), files[i].as_str(), "") {
                Some(name) => name,
                None => {
                    proof {
                        assert(""@ == Seq::<char>::empty()) by {
                            reveal_strlit("");
                            assert(""@.len() == 0);
                        }
                        lemma_gathering_fails(all, i + 1, components@);
                    }
                    return None;
                },
            };
            proof {
                assert(""@ == Seq::<char>::empty()) by {
                    reveal_strlit("");
                    assert(""@.len() == 0);
                }
            }
            let chars = to_chars(name.as_str());
            let base: Vec<char> = Vec::new();
            let joined = push_path(&push_path(&base, &folder), &chars);
            let path = normalize_relative_path(from_chars(&joined).as_str());
            if ends_with(&chars, &style_end) {
                add_to_group(&mut found.css, name, path);
            } else {
                add_to_group(&mut found.js, name, path);
            }
            i += 1;
        }
        assert(all.take(files@.len() as int) == all);
        Some(found)
    }
}

} // verus!
