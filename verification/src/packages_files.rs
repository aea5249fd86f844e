//! The files that stand for a package: the bundled scripts and stylesheets
//! that are sent where a script imports the package by name.

use crate::path::{file_name, file_name_of, push_path, pushed};
use crate::text::{from_chars, starts_with, texts, to_chars, trim_start_chars, trimmed_start};
use vstd::prelude::*;

verus! {

/// The files of a package: one file or a list of files.
#[derive(Debug)]
pub enum VecOrString {
    Vec(Vec<String>),
    String(String),
}

impl VecOrString {
    /// The files as a list, a single file being a list of one.
    pub open spec fn files(&self) -> Seq<Seq<char>> {
        match self {
            VecOrString::Vec(files) => texts(files@),
            VecOrString::String(file) => seq![file@],
        }
    }
}

/// The start of an address that is used as it stands.
pub open spec fn remote_marker() -> Seq<char> {
    "https://"@
}

/// Where the file `file` of `package` is served from: an address that
/// begins with `https://` is kept; anything else is the file's name below
/// the package's folder in `modules`, without leading dots.
pub open spec fn asset_path(modules: Seq<char>, package: Seq<char>, file: Seq<char>) -> Seq<char> {
    if remote_marker().is_prefix_of(file) {
        file
    } else {
        trimmed_start(pushed(pushed(pushed(Seq::empty(), modules), package), file_name(file)), '.')
    }
}

/// The path from which a file of a package is served.
pub fn module_path_from_short_name(modules: &str, package: &str, file: &str) -> (path: String)
    ensures
        path@ == asset_path(modules@, package@, file@),
{
    let name = to_chars(file);
    if starts_with(&name, &to_chars("https://")) {
        return file.to_owned();
    }
    let base: Vec<char> = Vec::new();
    let folder = push_path(&push_path(&base, &to_chars(modules)), &to_chars(package));
    let whole = push_path(&folder, &file_name_of(&name));
    from_chars(&trim_start_chars(&whole, '.'))
}

/// The asset paths of a list of files of `package`.
pub open spec fn asset_paths(modules: Seq<char>, package: Seq<char>, files: Seq<Seq<char>>) -> Seq<
    Seq<char>,
> {
    Seq::new(files.len(), |i: int| asset_path(modules, package, files[i]))
}

/// What a registry says: package names with their files, in the order in
/// which they were registered.
pub type Packages = Seq<(Seq<char>, Seq<Seq<char>>)>;

/// The files registered for `name`: those of the last entry for it.
pub open spec fn files_of(packages: Packages, name: Seq<char>) -> Option<Seq<Seq<char>>>
    decreases packages.len(),
{
    if packages.len() == 0 {
        None
    } else if packages.last().0 == name {
        Some(packages.last().1)
    } else {
        files_of(packages.drop_last(), name)
    }
}

/// The registry that a manifest gives: each package with the asset paths of
/// its files.
pub open spec fn registered(manifest: Packages, modules: Seq<char>) -> Packages {
    Seq::new(
        manifest.len(),
        |i: int| (manifest[i].0, asset_paths(modules, manifest[i].0, manifest[i].1)),
    )
}

/// The entries as plain values.
pub open spec fn packages_of(entries: Seq<(String, VecOrString)>) -> Packages {
    Seq::new(entries.len(), |i: int| (entries[i].0@, entries[i].1.files()))
}

/// The packages that are known, each with the files that stand for it.
pub struct PackageRegistry {
    entries: Vec<(String, VecOrString)>,
}

impl View for PackageRegistry {
    type V = Packages;

    closed spec fn view(&self) -> Packages {
        packages_of(self.entries@)
    }
}

impl PackageRegistry {
    /// A registry without packages.
    pub fn new() -> (registry: PackageRegistry)
        ensures
            registry@.len() == 0,
    {
        PackageRegistry { entries: Vec::new() }
    }

    /// Registers the files of a package as they are, in place of what was
    /// registered for it before.
    pub fn insert(&mut self, name: String, files: VecOrString)
        ensures
            final(self)@ == old(self)@.push((name@, files.files())),
    {
        let ghost before = self@;
        self.entries.push((name, files));
        assert(self@ == before.push((name@, files.files())));
    }

    /// The registry of a package manifest: every file is turned into the
    /// path it is served from, below `modules`. A single file stays a
    /// single file, a list a list.
    pub fn from_manifest(manifest: &Vec<(String, VecOrString)>, modules: &str) -> (registry:
        PackageRegistry)
        ensures
            registry@ == registered(packages_of(manifest@), modules@),
    {
        let mut entries: Vec<(String, VecOrString)> = Vec::new();
        let ghost all = registered(packages_of(manifest@), modules@);
        let mut i: usize = 0;
        while i < manifest.len()
            invariant
                i <= manifest.len(),
                all == registered(packages_of(manifest@), modules@),
                packages_of(entries@) == all.take(i as int),
            decreases manifest.len() - i,
        {
            let name = manifest[i].0.clone();
            let ghost before = packages_of(entries@);
            let ghost listed = manifest@[i as int].1.files();
            let files = match &manifest[i].1 {
                VecOrString::Vec(list) => {
                    let mut paths: Vec<String> = Vec::new();
                    let mut j: usize = 0;
                    while j < list.len()
                        invariant
                            j <= list.len(),
                            listed == texts(list@),
                            texts(paths@) == asset_paths(modules@, name@, listed).take(j as int),
                        decreases list.len() - j,
                    {
                        let ghost had = texts(paths@);
                        let path = module_path_from_short_name(
                            modules,
                            name.as_str(),
                            list[j].as_str(),
                        );
                        paths.push(path);
                        assert(texts(paths@) == had.push(path@));
                        j += 1;
                    }
                    assert(asset_paths(modules@, name@, listed).take(list@.len() as int)
                        == asset_paths(modules@, name@, listed));
                    VecOrString::Vec(paths)
                },
                VecOrString::String(file) => {
                    let path = module_path_from_short_name(modules, name.as_str(), file.as_str());
                    assert(seq![path@] == asset_paths(modules@, name@, listed));
                    VecOrString::String(path)
                },
            };
            entries.push((name, files));
            assert(packages_of(entries@) == before.push(all[i as int]));
            i += 1;
        }
        assert(all.take(manifest@.len() as int) == all);
        PackageRegistry { entries }
    }

    /// The files that stand for the package `name`, if it is known.
    pub fn get(&self, name: &str) -> (files: Option<&VecOrString>)
        ensures
            match files {
                Some(f) => files_of(self@, name@) == Some(f.files()),
                None => files_of(self@, name@) is None,
            },
    {
        let ghost all = self@;
        let wanted = to_chars(name);
        let mut i: usize = self.entries.len();
        assert(all.take(i as int) == all);
        while i > 0
            invariant
                i <= self.entries.len(),
                all == self@,
                wanted@ == name@,
                files_of(all, name@) == files_of(all.take(i as int), name@),
            decreases i,
        {
            assert(all.take(i as int).drop_last() == all.take(i - 1));
            assert(all.take(i as int).last() == all[i - 1]);
            if crate::text::same_chars(&to_chars(self.entries[i - 1].0.as_str()), &wanted) {
                return Some(&self.entries[i - 1].1);
            }
            i -= 1;
        }
        None
    }
}

/// `file` without one leading slash.
pub open spec fn unrooted(file: Seq<char>) -> Seq<char> {
    if file.len() > 0 && file[0] == '/' {
        file.skip(1)
    } else {
        file
    }
}

/// Every file without one leading slash.
pub open spec fn unrooted_all(files: Seq<Seq<char>>) -> Seq<Seq<char>> {
    Seq::new(files.len(), |i: int| unrooted(files[i]))
}

/// The files that the packages `names` bring, in order, each without a
/// leading slash; or the first name that the registry does not know.
pub open spec fn brought(packages: Packages, names: Seq<Seq<char>>) -> Result<
    Seq<Seq<char>>,
    Seq<char>,
>
    decreases names.len(),
{
    if names.len() == 0 {
        Ok(Seq::empty())
    } else {
        match brought(packages, names.drop_last()) {
            Err(unknown) => Err(unknown),
            Ok(files) => match files_of(packages, names.last()) {
                Some(more) => Ok(files + unrooted_all(more)),
                None => Err(names.last()),
            },
        }
    }
}

/// Once the names up to `upto` hold an unknown package, so do all of
/// them, and the same one is the first.
pub proof fn lemma_unknown_stays(packages: Packages, names: Seq<Seq<char>>, upto: int)
    requires
        0 <= upto <= names.len(),
        brought(packages, names.take(upto)) is Err,
    ensures
        brought(packages, names) == brought(packages, names.take(upto)),
    decreases names.len(),
{
    if upto == names.len() {
        assert(names.take(upto) == names);
    } else {
        assert(names.drop_last().take(upto) == names.take(upto));
        lemma_unknown_stays(packages, names.drop_last(), upto);
    }
}

fn without_root(file: &String) -> (out: String)
    ensures
        out@ == unrooted(file@),
{
    let chars = to_chars(file.as_str());
    if chars.len() > 0 && chars[0] == '/' {
        from_chars(&crate::text::skip_chars(&chars, 1))
    } else {
        file.clone()
    }
}

impl PackageRegistry {
    /// The files that a page links when it asks for the packages `names`.
    /// A package that is not known is an error; in place of the files the
    /// first such name is given.
    pub fn files_for(&self, names: &Vec<String>) -> (out: Result<Vec<String>, String>)
        ensures
            match out {
                Ok(files) => brought(self@, texts(names@)) == Ok::<Seq<Seq<char>>, Seq<char>>(
                    texts(files@),
                ),
                Err(unknown) => brought(self@, texts(names@)) == Err::<Seq<Seq<char>>, Seq<char>>(
                    unknown@,
                ),
            },
    {
        let ghost all = texts(names@);
        let mut files: Vec<String> = Vec::new();
        let mut i: usize = 0;
        assert(all.take(0) == Seq::<Seq<char>>::empty());
        assert(texts(files@) == Seq::<Seq<char>>::empty());
        while i < names.len()
            invariant
                i <= names.len(),
                all == texts(names@),
                brought(self@, all.take(i as int)) == Ok::<Seq<Seq<char>>, Seq<char>>(
                    texts(files@),
                ),
            decreases names.len() - i,
        {
            assert(all.take(i + 1).drop_last() == all.take(i as int));
            assert(all.take(i + 1).last() == all[i as int]);
            let ghost before = texts(files@);
            match self.get(names[i].as_str()) {
                None => {
                    proof {
                        lemma_unknown_stays(self@, all, i + 1);
                    }
                    return Err(names[i].clone());
                },
                Some(VecOrString::String(file)) => {
                    files.push(without_root(file));
                    assert(texts(files@) == before + unrooted_all(seq![file@]));
                },
                Some(VecOrString::Vec(list)) => {
                    let ghost more = texts(list@);
                    let mut k: usize = 0;
                    assert(before + unrooted_all(more).take(0) == before);
                    while k < list.len()
                        invariant
                            k <= list.len(),
                            more == texts(list@),
                            texts(files@) == before + unrooted_all(more).take(k as int),
                        decreases list.len() - k,
                    {
                        let ghost had = texts(files@);
                        files.push(without_root(&list[k]));
                        assert(texts(files@) == had.push(unrooted(more[k as int])));
                        assert(unrooted_all(more).take(k + 1) == unrooted_all(more).take(
                            k as int,
                        ).push(unrooted(more[k as int])));
                        k += 1;
                    }
                    assert(unrooted_all(more).take(list@.len() as int) == unrooted_all(more));
                },
            }
            i += 1;
        }
        assert(all.take(names@.len() as int) == all);
        Ok(files)
    }
}

} // verus!
