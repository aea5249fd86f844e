//! Putting the scripts and stylesheets of one response in load order.
//!
//! The scripts that the layouts, components and the page of a response
//! name are merged with everything those scripts depend on. The list is
//! built with each dependent before what it depends on and turned round at
//! the end, so that a dependency is loaded before its dependents.

use crate::config::ConfigPath;
use crate::dependencies::{js, list_of, DependencyIndex, Index};
use crate::order::{holds, move_to_end, remove_all, reposition, reversed, without};
use crate::packages_files::{files_of, PackageRegistry, Packages, VecOrString};
use crate::path::{normalize_relative_path, normalized, push_path, pushed, split};
use crate::text::{ends_with, from_chars, skip_chars, starts_with, texts, to_chars};
use vstd::prelude::*;

verus! {

/// The extension of a stylesheet: `.css`.
pub open spec fn css() -> Seq<char> {
    seq!['.', 'c', 's', 's']
}

/// The start of a dependency that lies in the public folder: the folder's
/// path below `str`, normalized.
pub open spec fn public_marker(public: Seq<char>) -> Seq<char> {
    normalized(pushed("str"@, public))
}

/// How much is cut from the start of a dependency in the public folder:
/// the length of the folder's configured path less three, and never more
/// than there is nor less than nothing.
pub open spec fn cut_length(public: Seq<char>, dependency: Seq<char>) -> int {
    if public.len() < 3 {
        0
    } else if public.len() - 3 > dependency.len() {
        dependency.len() as int
    } else {
        public.len() - 3
    }
}

/// The form in which a dependency is sent: one in the public folder loses
/// its start, any other is sent as it is.
pub open spec fn served(dependency: Seq<char>, public: Seq<char>) -> Seq<char> {
    if public_marker(public).is_prefix_of(dependency) {
        dependency.skip(cut_length(public, dependency))
    } else {
        dependency
    }
}

/// Whether a dependency names a package: it lies outside the public folder
/// and does not end in `.js`.
pub open spec fn names_package(dependency: Seq<char>, public: Seq<char>) -> bool {
    !public_marker(public).is_prefix_of(dependency) && !js().is_suffix_of(dependency)
}

/// The dependency lists of `scripts`, one after the other; a script that
/// the index does not hold adds nothing.
pub open spec fn collected(scripts: Seq<Seq<char>>, index: Index) -> Seq<Seq<char>>
    decreases scripts.len(),
{
    if scripts.len() == 0 {
        Seq::empty()
    } else {
        collected(scripts.drop_last(), index) + match list_of(index, scripts.last()) {
            Some(list) => list,
            None => Seq::empty(),
        }
    }
}

/// Every dependency in the form in which it is sent.
pub open spec fn served_all(dependencies: Seq<Seq<char>>, public: Seq<char>) -> Seq<Seq<char>> {
    Seq::new(dependencies.len(), |i: int| served(dependencies[i], public))
}

/// The packages that `dependencies` name, each once, in the order in which
/// they are first named.
pub open spec fn packages_named(dependencies: Seq<Seq<char>>, public: Seq<char>) -> Seq<Seq<char>>
    decreases dependencies.len(),
{
    if dependencies.len() == 0 {
        Seq::empty()
    } else {
        let before = packages_named(dependencies.drop_last(), public);
        let last = dependencies.last();
        if names_package(last, public) && !before.contains(last) {
            before.push(last)
        } else {
            before
        }
    }
}

/// The script list after every dependency, first to last, has been pulled
/// to its end: one that is there already leaves its place, and unless it is
/// a package it is put at the end.
pub open spec fn pulled(
    scripts: Seq<Seq<char>>,
    dependencies: Seq<Seq<char>>,
    packages: Seq<Seq<char>>,
) -> Seq<Seq<char>>
    decreases dependencies.len(),
{
    if dependencies.len() == 0 {
        scripts
    } else {
        let before = pulled(scripts, dependencies.drop_last(), packages);
        if packages.contains(dependencies.last()) {
            without(before, dependencies.last())
        } else {
            reposition(before, dependencies.last())
        }
    }
}

/// What is sent with a response.
pub struct Manifest {
    /// The scripts, in order.
    pub scripts: Seq<Seq<char>>,
    /// The stylesheets, each once.
    pub stylesheets: Seq<Seq<char>>,
    /// The packages that were named and are not known.
    pub unknown: Seq<Seq<char>>,
}

/// `manifest` with one file of a package added: a stylesheet joins the
/// stylesheets unless it is there already, anything else is put at the end
/// of the scripts.
pub open spec fn with_file(manifest: Manifest, file: Seq<char>) -> Manifest {
    if css().is_suffix_of(file) {
        if manifest.stylesheets.contains(file) {
            manifest
        } else {
            Manifest { stylesheets: manifest.stylesheets.push(file), ..manifest }
        }
    } else {
        Manifest { scripts: manifest.scripts.push(file), ..manifest }
    }
}

/// `manifest` with the files of a package added, first to last.
pub open spec fn with_files(manifest: Manifest, files: Seq<Seq<char>>) -> Manifest
    decreases files.len(),
{
    if files.len() == 0 {
        manifest
    } else {
        with_file(with_files(manifest, files.drop_last()), files.last())
    }
}

/// `manifest` with the files of every package of `packages` added, first
/// to last. A package that the registry does not know adds no file and is
/// noted as unknown.
pub open spec fn expanded(manifest: Manifest, packages: Seq<Seq<char>>, registry: Packages) -> Manifest
    decreases packages.len(),
{
    if packages.len() == 0 {
        manifest
    } else {
        let before = expanded(manifest, packages.drop_last(), registry);
        match files_of(registry, packages.last()) {
            Some(files) => with_files(before, files),
            None => Manifest { unknown: before.unknown.push(packages.last()), ..before },
        }
    }
}

/// The manifest of a response whose layouts, components and page name the
/// scripts `direct`.
pub open spec fn linearized(
    direct: Seq<Seq<char>>,
    index: Index,
    registry: Packages,
    public: Seq<char>,
) -> Manifest {
    let dependencies = collected(direct, index);
    let packages = packages_named(dependencies, public);
    let ordered = pulled(direct, served_all(dependencies, public), packages);
    let filled = expanded(
        Manifest { scripts: ordered, stylesheets: Seq::empty(), unknown: Seq::empty() },
        packages,
        registry,
    );
    Manifest { scripts: filled.scripts.reverse(), ..filled }
}

/// The scripts and stylesheets that are sent with one response.
pub struct AssetManifest {
    /// The scripts in the order in which they are to be loaded.
    pub scripts: Vec<String>,
    /// The stylesheets; none occurs twice.
    pub stylesheets: Vec<String>,
    /// The packages that a script names and the registry does not know.
    pub unknown_packages: Vec<String>,
}

impl View for AssetManifest {
    type V = Manifest;

    open spec fn view(&self) -> Manifest {
        Manifest {
            scripts: texts(self.scripts@),
            stylesheets: texts(self.stylesheets@),
            unknown: texts(self.unknown_packages@),
        }
    }
}

fn dot_js() -> (ext: Vec<char>)
    ensures
        ext@ == js(),
{
    let mut ext: Vec<char> = Vec::new();
    ext.push('.');
    ext.push('j');
    ext.push('s');
    assert(ext@ == js());
    ext
}

fn dot_css() -> (ext: Vec<char>)
    ensures
        ext@ == css(),
{
    let mut ext: Vec<char> = Vec::new();
    ext.push('.');
    ext.push('c');
    ext.push('s');
    ext.push('s');
    assert(ext@ == css());
    ext
}

fn add_file(manifest: &mut AssetManifest, file: &String)
    ensures
        final(manifest)@ == with_file(old(manifest)@, file@),
{
    let ghost before = manifest@;
    if ends_with(&to_chars(file.as_str()), &dot_css()) {
        if !holds(&manifest.stylesheets, file) {
            manifest.stylesheets.push(file.clone());
            assert(texts(manifest.stylesheets@) == before.stylesheets.push(file@));
        }
    } else {
        manifest.scripts.push(file.clone());
        assert(texts(manifest.scripts@) == before.scripts.push(file@));
    }
}

fn add_files(manifest: &mut AssetManifest, files: &VecOrString)
    ensures
        final(manifest)@ == with_files(old(manifest)@, files.files()),
{
    match files {
        VecOrString::String(file) => {
            let ghost one = files.files();
            assert(one.len() == 1 && one.last() == file@);
            assert(one.drop_last() == Seq::<Seq<char>>::empty());
            assert(with_files(manifest@, one.drop_last()) == manifest@);
            add_file(manifest, file);
        },
        VecOrString::Vec(list) => {
            let ghost all = texts(list@);
            let mut i: usize = 0;
            assert(all.take(0) == Seq::<Seq<char>>::empty());
            while i < list.len()
                invariant
                    i <= list.len(),
                    all == texts(list@),
                    manifest@ == with_files(old(manifest)@, all.take(i as int)),
                decreases list.len() - i,
            {
                assert(all.take(i + 1).drop_last() == all.take(i as int));
                assert(all.take(i + 1).last() == all[i as int]);
                add_file(manifest, &list[i]);
                i += 1;
            }
            assert(all.take(list@.len() as int) == all);
        },
    }
}

/// Computes the manifest of a response from the scripts that its layouts,
/// components and page name.
///
/// The dependency lists of the scripts are taken from `index`. Every
/// dependency is pulled to the end of the script list; the packages among
/// them give their files, as `registry` knows them, scripts to the end of
/// the list and stylesheets to the stylesheets; at last the script list is
/// turned round.
pub fn linearize(
    direct_scripts: &Vec<String>,
    index: &DependencyIndex,
    registry: &PackageRegistry,
    paths: &ConfigPath,
) -> (manifest: AssetManifest)
    ensures
        manifest@ == linearized(texts(direct_scripts@), index@, registry@, paths.public@),
{
    let ghost direct = texts(direct_scripts@);
    let ghost public = paths.public@;
    let public_chars = to_chars(paths.public.as_str());
    let marker = to_chars(
        normalize_relative_path(
            from_chars(&push_path(&to_chars("str"), &public_chars)).as_str(),
        ).as_str(),
    );
    assert(marker@ == public_marker(public));
    let extension = dot_js();

    // Every dependency, as it is listed and as it is sent, and the packages
    // among them.
    let mut as_sent: Vec<String> = Vec::new();
    let mut packages: Vec<String> = Vec::new();
    let ghost mut listed: Seq<Seq<char>> = Seq::empty();
    assert(texts(as_sent@) == served_all(listed, public));
    assert(texts(packages@) == packages_named(listed, public));
    let mut i: usize = 0;
    assert(direct.take(0) == Seq::<Seq<char>>::empty());
    while i < direct_scripts.len()
        invariant
            i <= direct_scripts.len(),
            direct == texts(direct_scripts@),
            public == paths.public@,
            public_chars@ == public,
            marker@ == public_marker(public),
            extension@ == js(),
            listed == collected(direct.take(i as int), index@),
            texts(as_sent@) == served_all(listed, public),
            texts(packages@) == packages_named(listed, public),
        decreases direct_scripts.len() - i,
    {
        assert(direct.take(i + 1).drop_last() == direct.take(i as int));
        assert(direct.take(i + 1).last() == direct[i as int]);
        match index.get(direct_scripts[i].as_str()) {
            None => {
                assert(listed + Seq::<Seq<char>>::empty() == listed);
            },
            Some(list) => {
                let ghost base = listed;
                let ghost fresh = texts(list@);
                let mut j: usize = 0;
                assert(base + fresh.take(0) == base);
                while j < list.len()
                    invariant
                        j <= list.len(),
                        fresh == texts(list@),
                        public == paths.public@,
                        public_chars@ == public,
                        marker@ == public_marker(public),
                        extension@ == js(),
                        listed == base + fresh.take(j as int),
                        texts(as_sent@) == served_all(listed, public),
                        texts(packages@) == packages_named(listed, public),
                    decreases list.len() - j,
                {
                    let ghost now = base + fresh.take(j + 1);
                    assert(now.drop_last() == listed);
                    assert(now.last() == fresh[j as int]);
                    let ghost sent_before = texts(as_sent@);
                    let ghost packages_before = texts(packages@);
                    let dependency = &list[j];
                    let chars = to_chars(dependency.as_str());
                    if starts_with(&chars, &marker) {
                        let cut: usize = if public_chars.len() < 3 {
                            0
                        } else if public_chars.len() - 3 > chars.len() {
                            chars.len()
                        } else {
                            public_chars.len() - 3
                        };
                        let rest = from_chars(&skip_chars(&chars, cut));
                        as_sent.push(rest);
                        assert(texts(as_sent@) == sent_before.push(served(dependency@, public)));
                    } else {
                        if !ends_with(&chars, &extension) && !holds(&packages, dependency) {
                            packages.push(dependency.clone());
                            assert(texts(packages@) == packages_before.push(dependency@));
                        }
                        as_sent.push(dependency.clone());
                        assert(texts(as_sent@) == sent_before.push(served(dependency@, public)));
                    }
                    proof {
                        listed = now;
                    }
                    assert(texts(as_sent@) == served_all(listed, public));
                    j += 1;
                }
                assert(fresh.take(list@.len() as int) == fresh);
            },
        }
        i += 1;
    }
    assert(direct.take(direct_scripts@.len() as int) == direct);

    // Pull the dependencies to the end of the list.
    let mut scripts: Vec<String> = Vec::new();
    let mut k: usize = 0;
    while k < direct_scripts.len()
        invariant
            k <= direct_scripts.len(),
            texts(scripts@) == texts(direct_scripts@).take(k as int),
        decreases direct_scripts.len() - k,
    {
        let ghost before = texts(scripts@);
        scripts.push(direct_scripts[k].clone());
        assert(texts(scripts@) == before.push(texts(direct_scripts@)[k as int]));
        k += 1;
    }
    assert(texts(direct_scripts@).take(direct_scripts@.len() as int) == direct);
    let ghost sent = texts(as_sent@);
    let ghost named = texts(packages@);
    let mut d: usize = 0;
    assert(sent.take(0) == Seq::<Seq<char>>::empty());
    while d < as_sent.len()
        invariant
            d <= as_sent.len(),
            sent == texts(as_sent@),
            named == texts(packages@),
            texts(scripts@) == pulled(direct, sent.take(d as int), named),
        decreases as_sent.len() - d,
    {
        assert(sent.take(d + 1).drop_last() == sent.take(d as int));
        assert(sent.take(d + 1).last() == sent[d as int]);
        if holds(&packages, &as_sent[d]) {
            remove_all(&mut scripts, &as_sent[d]);
        } else {
            move_to_end(&mut scripts, as_sent[d].clone());
        }
        d += 1;
    }
    assert(sent.take(as_sent@.len() as int) == sent);

    // Let every package give its files.
    let mut manifest = AssetManifest {
        scripts,
        stylesheets: Vec::new(),
        unknown_packages: Vec::new(),
    };
    let ghost start = manifest@;
    assert(start == Manifest {
        scripts: pulled(direct, sent, named),
        stylesheets: Seq::empty(),
        unknown: Seq::empty(),
    });
    let mut p: usize = 0;
    assert(named.take(0) == Seq::<Seq<char>>::empty());
    while p < packages.len()
        invariant
            p <= packages.len(),
            named == texts(packages@),
            manifest@ == expanded(start, named.take(p as int), registry@),
        decreases packages.len() - p,
    {
        assert(named.take(p + 1).drop_last() == named.take(p as int));
        assert(named.take(p + 1).last() == named[p as int]);
        let ghost before = manifest@;
        match registry.get(packages[p].as_str()) {
            Some(files) => {
                add_files(&mut manifest, files);
            },
            None => {
                manifest.unknown_packages.push(packages[p].clone());
                assert(texts(manifest.unknown_packages@) == before.unknown.push(named[p as int]));
            },
        }
        p += 1;
    }
    assert(named.take(packages@.len() as int) == named);

    // Dependencies first.
    let turned = reversed(&manifest.scripts);
    manifest.scripts = turned;
    manifest
}

/// Puts `scripts` in load order, adding what they depend on, and gives the
/// stylesheets that the packages among the dependencies bring with them.
pub fn order_scripts_by_dependent(
    scripts: &mut Vec<String>,
    index: &DependencyIndex,
    registry: &PackageRegistry,
    paths: &ConfigPath,
) -> (stylesheets: Vec<String>)
    ensures
        texts(final(scripts)@) == linearized(
            texts(old(scripts)@),
            index@,
            registry@,
            paths.public@,
        ).scripts,
        texts(stylesheets@) == linearized(
            texts(old(scripts)@),
            index@,
            registry@,
            paths.public@,
        ).stylesheets,
{
    let manifest = linearize(scripts, index, registry, paths);
    *scripts = manifest.scripts;
    manifest.stylesheets
}

/// No package is named twice among the packages of a response.
pub proof fn lemma_packages_named_once(dependencies: Seq<Seq<char>>, public: Seq<char>)
    ensures
        packages_named(dependencies, public).no_duplicates(),
    decreases dependencies.len(),
{
    if dependencies.len() > 0 {
        lemma_packages_named_once(dependencies.drop_last(), public);
        let before = packages_named(dependencies.drop_last(), public);
        let last = dependencies.last();
        if names_package(last, public) && !before.contains(last) {
            assert forall|i: int, j: int|
                0 <= i < before.len() + 1 && 0 <= j < before.len() + 1 && i != j implies before.push(
                last,
            )[i] != before.push(last)[j] by {
                if i < before.len() && j < before.len() {
                } else if i < before.len() {
                    assert(before.contains(before[i]));
                } else {
                    assert(before.contains(before[j]));
                }
            }
        }
    }
}

/// Adding the files of a package never puts a stylesheet twice among the
/// stylesheets.
pub proof fn lemma_with_files_keeps_stylesheets_once(manifest: Manifest, files: Seq<Seq<char>>)
    requires
        manifest.stylesheets.no_duplicates(),
    ensures
        with_files(manifest, files).stylesheets.no_duplicates(),
        with_files(manifest, files).unknown == manifest.unknown,
    decreases files.len(),
{
    if files.len() > 0 {
        lemma_with_files_keeps_stylesheets_once(manifest, files.drop_last());
        let before = with_files(manifest, files.drop_last());
        let sheets = before.stylesheets;
        let file = files.last();
        if css().is_suffix_of(file) && !sheets.contains(file) {
            assert forall|i: int, j: int|
                0 <= i < sheets.len() + 1 && 0 <= j < sheets.len() + 1 && i != j implies sheets.push(
                file,
            )[i] != sheets.push(file)[j] by {
                if i < sheets.len() && j < sheets.len() {
                } else if i < sheets.len() {
                    assert(sheets.contains(sheets[i]));
                } else {
                    assert(sheets.contains(sheets[j]));
                }
            }
        }
    }
}

/// No stylesheet is sent twice with a response.
pub proof fn lemma_stylesheets_once(
    direct: Seq<Seq<char>>,
    index: Index,
    registry: Packages,
    public: Seq<char>,
)
    ensures
        linearized(direct, index, registry, public).stylesheets.no_duplicates(),
{
    let dependencies = collected(direct, index);
    let packages = packages_named(dependencies, public);
    let start = Manifest {
        scripts: pulled(direct, served_all(dependencies, public), packages),
        stylesheets: Seq::empty(),
        unknown: Seq::empty(),
    };
    lemma_expanded_keeps_stylesheets_once(start, packages, registry);
}

/// Expanding packages never puts a stylesheet twice among the stylesheets.
pub proof fn lemma_expanded_keeps_stylesheets_once(
    manifest: Manifest,
    packages: Seq<Seq<char>>,
    registry: Packages,
)
    requires
        manifest.stylesheets.no_duplicates(),
    ensures
        expanded(manifest, packages, registry).stylesheets.no_duplicates(),
    decreases packages.len(),
{
    if packages.len() > 0 {
        lemma_expanded_keeps_stylesheets_once(manifest, packages.drop_last(), registry);
        let before = expanded(manifest, packages.drop_last(), registry);
        match files_of(registry, packages.last()) {
            Some(files) => {
                lemma_with_files_keeps_stylesheets_once(before, files);
            },
            None => {},
        }
    }
}

/// A package that the registry does not know changes neither the scripts
/// nor the stylesheets: it is noted as unknown and nothing else happens.
pub proof fn lemma_unknown_package_adds_nothing(
    manifest: Manifest,
    packages: Seq<Seq<char>>,
    package: Seq<char>,
    registry: Packages,
)
    requires
        files_of(registry, package) is None,
    ensures
        expanded(manifest, packages.push(package), registry).scripts == expanded(
            manifest,
            packages,
            registry,
        ).scripts,
        expanded(manifest, packages.push(package), registry).stylesheets == expanded(
            manifest,
            packages,
            registry,
        ).stylesheets,
        expanded(manifest, packages.push(package), registry).unknown == expanded(
            manifest,
            packages,
            registry,
        ).unknown.push(package),
{
    assert(packages.push(package).drop_last() == packages);
}

/// Whether every dependency is a script outside the public folder: it
/// ends in `.js` and is sent as it is.
pub open spec fn plain_scripts(dependencies: Seq<Seq<char>>, public: Seq<char>) -> bool {
    forall|i: int|
        0 <= i < dependencies.len() ==> js().is_suffix_of(#[trigger] dependencies[i])
            && !public_marker(public).is_prefix_of(dependencies[i])
}

/// Plain scripts name no package and are sent as they are listed.
pub proof fn lemma_plain_scripts(dependencies: Seq<Seq<char>>, public: Seq<char>)
    requires
        plain_scripts(dependencies, public),
    ensures
        packages_named(dependencies, public) == Seq::<Seq<char>>::empty(),
        served_all(dependencies, public) == dependencies,
    decreases dependencies.len(),
{
    if dependencies.len() > 0 {
        let shorter = dependencies.drop_last();
        assert forall|i: int| 0 <= i < shorter.len() implies js().is_suffix_of(
            #[trigger] shorter[i],
        ) && !public_marker(public).is_prefix_of(shorter[i]) by {
            assert(shorter[i] == dependencies[i]);
        }
        lemma_plain_scripts(shorter, public);
        assert(js().is_suffix_of(dependencies[dependencies.len() - 1]));
    }
    assert(served_all(dependencies, public) =~= dependencies);
}

/// Dependencies that are new to the list and differ from each other are
/// put behind it in their order.
pub proof fn lemma_pulled_appends(scripts: Seq<Seq<char>>, dependencies: Seq<Seq<char>>)
    requires
        dependencies.no_duplicates(),
        forall|i: int| 0 <= i < dependencies.len() ==> !scripts.contains(#[trigger] dependencies[i]),
    ensures
        pulled(scripts, dependencies, Seq::empty()) == scripts + dependencies,
    decreases dependencies.len(),
{
    if dependencies.len() == 0 {
        assert(scripts + dependencies == scripts);
    } else {
        let shorter = dependencies.drop_last();
        let last = dependencies.last();
        assert forall|i: int| 0 <= i < shorter.len() implies !scripts.contains(
            #[trigger] shorter[i],
        ) by {
            assert(shorter[i] == dependencies[i]);
        }
        lemma_pulled_appends(scripts, shorter);
        let before = scripts + shorter;
        assert(!before.contains(last)) by {
            if before.contains(last) {
                let k = choose|k: int| 0 <= k < before.len() && before[k] == last;
                if k < scripts.len() {
                    assert(scripts[k] == last);
                    assert(scripts.contains(dependencies[dependencies.len() - 1]));
                } else {
                    assert(dependencies[k - scripts.len()] == dependencies[dependencies.len() - 1]);
                }
            }
        }
        crate::order::lemma_without(before, last);
        assert(!Seq::<Seq<char>>::empty().contains(last));
        assert(before.push(last) == scripts + dependencies);
    }
}

/// A script is loaded after everything it depends on: where its
/// dependencies are plain scripts, each listed once and none the script
/// itself, the manifest of the script alone lists them last to first and
/// then the script.
pub proof fn lemma_dependencies_before_dependent(
    script: Seq<char>,
    dependencies: Seq<Seq<char>>,
    index: Index,
    registry: Packages,
    public: Seq<char>,
)
    requires
        list_of(index, script) == Some(dependencies),
        dependencies.no_duplicates(),
        !dependencies.contains(script),
        plain_scripts(dependencies, public),
    ensures
        linearized(seq![script], index, registry, public).scripts == dependencies.reverse().push(
            script,
        ),
        linearized(seq![script], index, registry, public).stylesheets.len() == 0,
        linearized(seq![script], index, registry, public).unknown.len() == 0,
{
    let direct = seq![script];
    assert(direct.drop_last() == Seq::<Seq<char>>::empty());
    assert(collected(direct.drop_last(), index) == Seq::<Seq<char>>::empty());
    assert(collected(direct, index) == dependencies);
    lemma_plain_scripts(dependencies, public);
    assert forall|i: int| 0 <= i < dependencies.len() implies !direct.contains(
        #[trigger] dependencies[i],
    ) by {
        if direct.contains(dependencies[i]) {
            let k = choose|k: int| 0 <= k < direct.len() && direct[k] == dependencies[i];
            assert(dependencies.contains(script));
        }
    }
    lemma_pulled_appends(direct, dependencies);
    let ordered = direct + dependencies;
    assert(ordered.reverse() =~= dependencies.reverse().push(script));
}

/// The files of `files` that are scripts: those that do not end in
/// `.css`.
pub open spec fn scripts_of(files: Seq<Seq<char>>) -> Seq<Seq<char>>
    decreases files.len(),
{
    if files.len() == 0 {
        Seq::empty()
    } else if css().is_suffix_of(files.last()) {
        scripts_of(files.drop_last())
    } else {
        scripts_of(files.drop_last()).push(files.last())
    }
}

/// The scripts that the packages of `packages` bring, package after
/// package; a package that is not known brings none.
pub open spec fn package_scripts(packages: Seq<Seq<char>>, registry: Packages) -> Seq<Seq<char>>
    decreases packages.len(),
{
    if packages.len() == 0 {
        Seq::empty()
    } else {
        package_scripts(packages.drop_last(), registry) + match files_of(
            registry,
            packages.last(),
        ) {
            Some(files) => scripts_of(files),
            None => Seq::empty(),
        }
    }
}

/// The files of a package put their scripts behind the scripts that are
/// there.
pub proof fn lemma_with_files_scripts(manifest: Manifest, files: Seq<Seq<char>>)
    ensures
        with_files(manifest, files).scripts == manifest.scripts + scripts_of(files),
    decreases files.len(),
{
    if files.len() == 0 {
        assert(manifest.scripts + scripts_of(files) == manifest.scripts);
    } else {
        lemma_with_files_scripts(manifest, files.drop_last());
        let before = with_files(manifest, files.drop_last());
        if !css().is_suffix_of(files.last()) {
            assert((manifest.scripts + scripts_of(files.drop_last())).push(files.last())
                == manifest.scripts + scripts_of(files.drop_last()).push(files.last()));
        }
    }
}

/// Packages put their scripts behind the scripts that are there.
pub proof fn lemma_expanded_scripts(manifest: Manifest, packages: Seq<Seq<char>>, registry: Packages)
    ensures
        expanded(manifest, packages, registry).scripts == manifest.scripts + package_scripts(
            packages,
            registry,
        ),
    decreases packages.len(),
{
    if packages.len() == 0 {
        assert(manifest.scripts + package_scripts(packages, registry) == manifest.scripts);
    } else {
        lemma_expanded_scripts(manifest, packages.drop_last(), registry);
        let before = expanded(manifest, packages.drop_last(), registry);
        let earlier = package_scripts(packages.drop_last(), registry);
        match files_of(registry, packages.last()) {
            Some(files) => {
                lemma_with_files_scripts(before, files);
                assert((manifest.scripts + earlier) + scripts_of(files) == manifest.scripts + (
                earlier + scripts_of(files)));
            },
            None => {
                assert(earlier + Seq::<Seq<char>>::empty() == earlier);
            },
        }
    }
}

/// Pulling dependencies to the end of a list leaves in front what is no
/// dependency, in its order, and puts behind it what the dependencies alone
/// give.
pub proof fn lemma_pulled_splits(
    scripts: Seq<Seq<char>>,
    dependencies: Seq<Seq<char>>,
    packages: Seq<Seq<char>>,
)
    ensures
        pulled(scripts, dependencies, packages) == crate::order::without_all(scripts, dependencies)
            + pulled(Seq::empty(), dependencies, packages),
    decreases dependencies.len(),
{
    let nothing = Seq::<Seq<char>>::empty();
    if dependencies.len() == 0 {
        assert(scripts + nothing == scripts);
    } else {
        let shorter = dependencies.drop_last();
        let last = dependencies.last();
        lemma_pulled_splits(scripts, shorter, packages);
        let front = crate::order::without_all(scripts, shorter);
        let back = pulled(nothing, shorter, packages);
        crate::order::lemma_without_concat(front, back, last);
        if !packages.contains(last) {
            assert((without(front, last) + without(back, last)).push(last) == without(front, last)
                + without(back, last).push(last));
        }
    }
}

/// What the dependencies alone give holds every dependency that is no
/// package, each once, and nothing else.
pub proof fn lemma_pulled_alone(dependencies: Seq<Seq<char>>, packages: Seq<Seq<char>>)
    ensures
        pulled(Seq::empty(), dependencies, packages).no_duplicates(),
        forall|x: Seq<char>|
            pulled(Seq::empty(), dependencies, packages).contains(x) <==> dependencies.contains(x)
                && !packages.contains(x),
    decreases dependencies.len(),
{
    let nothing = Seq::<Seq<char>>::empty();
    if dependencies.len() == 0 {
    } else {
        let shorter = dependencies.drop_last();
        let last = dependencies.last();
        lemma_pulled_alone(shorter, packages);
        let before = pulled(nothing, shorter, packages);
        crate::order::lemma_without(before, last);
        crate::order::lemma_reposition(before, last);
        let now = pulled(nothing, dependencies, packages);
        assert forall|x: Seq<char>| now.contains(x) <==> dependencies.contains(x)
            && !packages.contains(x) by {
            if dependencies.contains(x) {
                let i = choose|i: int| 0 <= i < dependencies.len() && dependencies[i] == x;
                if i < shorter.len() {
                    assert(shorter[i] == x);
                    assert(shorter.contains(x));
                }
            }
            if shorter.contains(x) {
                let i = choose|i: int| 0 <= i < shorter.len() && shorter[i] == x;
                assert(dependencies[i] == x);
            }
            if x == last {
                assert(dependencies[dependencies.len() - 1] == x);
            }
        }
    }
}

/// The place at which `item` is mentioned last in `list`; none before the
/// list where it is not mentioned.
pub open spec fn last_mention(list: Seq<Seq<char>>, item: Seq<char>) -> int
    decreases list.len(),
{
    if list.len() == 0 {
        -1
    } else if list.last() == item {
        list.len() - 1
    } else {
        last_mention(list.drop_last(), item)
    }
}

/// The last mention of an item lies within the list, and is a mention
/// exactly where the item is in the list.
pub proof fn lemma_last_mention(list: Seq<Seq<char>>, item: Seq<char>)
    ensures
        -1 <= last_mention(list, item) < list.len(),
        list.contains(item) <==> last_mention(list, item) >= 0,
    decreases list.len(),
{
    if list.len() > 0 {
        lemma_last_mention(list.drop_last(), item);
        if list.last() == item {
            assert(list[list.len() - 1] == item);
        } else {
            if list.contains(item) {
                let i = choose|i: int| 0 <= i < list.len() && list[i] == item;
                assert(list.drop_last()[i] == item);
            }
            if list.drop_last().contains(item) {
                let i = choose|i: int| 0 <= i < list.drop_last().len() && list.drop_last()[i] == item;
                assert(list[i] == item);
            }
        }
    }
}

/// Dependencies stand in the order in which they were last mentioned: of
/// two dependencies that are no packages, the one whose last mention comes
/// first stands first.
pub proof fn lemma_ordered_by_last_mention(
    dependencies: Seq<Seq<char>>,
    packages: Seq<Seq<char>>,
    first: Seq<char>,
    second: Seq<char>,
)
    requires
        !packages.contains(first),
        !packages.contains(second),
        0 <= last_mention(dependencies, first) < last_mention(dependencies, second),
    ensures
        crate::order::comes_before(
            pulled(Seq::empty(), dependencies, packages),
            first,
            second,
        ),
    decreases dependencies.len(),
{
    let nothing = Seq::<Seq<char>>::empty();
    let shorter = dependencies.drop_last();
    let last = dependencies.last();
    let before = pulled(nothing, shorter, packages);
    lemma_last_mention(dependencies, first);
    lemma_last_mention(shorter, first);
    lemma_last_mention(shorter, second);
    lemma_pulled_alone(shorter, packages);
    crate::order::lemma_without(before, last);
    if last == second {
        assert(first != second);
        assert(before.contains(first));
        let kept = without(before, last);
        assert(kept.contains(first));
        let a = choose|a: int| 0 <= a < kept.len() && kept[a] == first;
        let now = kept.push(second);
        assert(now[a] == first && now[kept.len() as int] == second);
    } else {
        assert(last != first);
        lemma_ordered_by_last_mention(shorter, packages, first, second);
        crate::order::lemma_without_keeps_order(before, last, first, second);
        let kept = without(before, last);
        if !packages.contains(last) {
            let (a, b) = choose|a: int, b: int|
                0 <= a < b < kept.len() && kept[a] == first && kept[b] == second;
            assert(kept.push(last)[a] == first && kept.push(last)[b] == second);
        }
    }
}

/// The load order of a response, spelled out. Read from the end, the
/// scripts are: the scripts that the response names and nothing depends
/// on, in the order in which they were named; then every dependency that
/// is no package, each once, in the order in which they were last
/// mentioned; then the scripts of the packages. So whatever is depended on
/// is loaded before every named script that nothing depends on.
pub proof fn lemma_load_order(
    direct: Seq<Seq<char>>,
    index: Index,
    registry: Packages,
    public: Seq<char>,
)
    ensures
        ({
            let dependencies = collected(direct, index);
            let packages = packages_named(dependencies, public);
            let sent = served_all(dependencies, public);
            linearized(direct, index, registry, public).scripts == (crate::order::without_all(
                direct,
                sent,
            ) + pulled(Seq::empty(), sent, packages) + package_scripts(
                packages,
                registry,
            )).reverse()
        }),
{
    let dependencies = collected(direct, index);
    let packages = packages_named(dependencies, public);
    let sent = served_all(dependencies, public);
    lemma_pulled_splits(direct, sent, packages);
    let start = Manifest {
        scripts: pulled(direct, sent, packages),
        stylesheets: Seq::empty(),
        unknown: Seq::empty(),
    };
    lemma_expanded_scripts(start, packages, registry);
}

/// The files that the parts of a page ask for, by kind.
pub struct LinkedFiles {
    /// The scripts, in the order in which they were named.
    pub scripts: Vec<String>,
    /// The stylesheets, in the order in which they were named.
    pub styles: Vec<String>,
}

/// The names between the semicolons of a list of files. The list ends in a
/// semicolon, which ends the last name; whatever character stands last is
/// taken for it.
pub open spec fn listed_names(header: Seq<char>) -> Seq<Seq<char>> {
    if header.len() == 0 {
        Seq::empty()
    } else {
        split(header.drop_last(), ';')
    }
}

/// The name as a path from the root of the site.
pub open spec fn rooted(name: Seq<char>) -> Seq<char> {
    seq!['/'] + name
}

/// The scripts among `names`: those that are not empty and end in `js` but
/// not in `css`, each as a rooted path.
pub open spec fn scripts_among(names: Seq<Seq<char>>) -> Seq<Seq<char>>
    decreases names.len(),
{
    if names.len() == 0 {
        Seq::empty()
    } else {
        let before = scripts_among(names.drop_last());
        let name = names.last();
        if name.len() > 0 && !seq!['c', 's', 's'].is_suffix_of(name) && seq!['j', 's'].is_suffix_of(
            name,
        ) {
            before.push(rooted(name))
        } else {
            before
        }
    }
}

/// The stylesheets among `names`: those that are not empty and end in
/// `css`, each as a rooted path.
pub open spec fn styles_among(names: Seq<Seq<char>>) -> Seq<Seq<char>>
    decreases names.len(),
{
    if names.len() == 0 {
        Seq::empty()
    } else {
        let before = styles_among(names.drop_last());
        let name = names.last();
        if name.len() > 0 && seq!['c', 's', 's'].is_suffix_of(name) {
            before.push(rooted(name))
        } else {
            before
        }
    }
}

/// Reads the list of files that the parts of a page have left for the
/// template: names separated and ended by semicolons. Names that end in
/// `css` are stylesheets, names that end in `js` are scripts, other names
/// and empty ones are passed over.
pub fn linked_files(header: &str) -> (files: LinkedFiles)
    ensures
        texts(files.scripts@) == scripts_among(listed_names(header@)),
        texts(files.styles@) == styles_among(listed_names(header@)),
{
    let mut scripts: Vec<String> = Vec::new();
    let mut styles: Vec<String> = Vec::new();
    assert(texts(scripts@) == Seq::<Seq<char>>::empty());
    assert(texts(styles@) == Seq::<Seq<char>>::empty());
    let chars = to_chars(header);
    if chars.len() == 0 {
        return LinkedFiles { scripts, styles };
    }
    let body = crate::text::take_chars(&chars, chars.len() - 1);
    assert(body@ == header@.drop_last());
    let names = crate::path::split_chars(&body, ';');
    let ghost all = crate::text::rows(names@);
    let mut style_end: Vec<char> = Vec::new();
    style_end.push('c');
    style_end.push('s');
    style_end.push('s');
    let mut script_end: Vec<char> = Vec::new();
    script_end.push('j');
    script_end.push('s');
    let mut i: usize = 0;
    assert(all.take(0) == Seq::<Seq<char>>::empty());
    while i < names.len()
        invariant
            i <= names.len(),
            all == crate::text::rows(names@),
            style_end@ == seq!['c', 's', 's'],
            script_end@ == seq!['j', 's'],
            texts(scripts@) == scripts_among(all.take(i as int)),
            texts(styles@) == styles_among(all.take(i as int)),
        decreases names.len() - i,
    {
        assert(all.take(i + 1).drop_last() == all.take(i as int));
        assert(all.take(i + 1).last() == all[i as int]);
        let name = &names[i];
        if name.len() > 0 {
            let mut path: Vec<char> = Vec::new();
            path.push('/');
            crate::text::append_chars(&mut path, name);
            assert(path@ == rooted(name@));
            let ghost scripts_before = texts(scripts@);
            let ghost styles_before = texts(styles@);
            if ends_with(name, &style_end) {
                styles.push(from_chars(&path));
                assert(texts(styles@) == styles_before.push(path@));
            } else if ends_with(name, &script_end) {
                scripts.push(from_chars(&path));
                assert(texts(scripts@) == scripts_before.push(path@));
            }
        }
        i += 1;
    }
    assert(all.take(names@.len() as int) == all);
    LinkedFiles { scripts, styles }
}

/// What the head of a page links.
pub struct PageAssets {
    /// The scripts, in the order in which they are to be loaded.
    pub scripts: Vec<String>,
    /// The stylesheets: those that the parts of the page name, then those
    /// that packages bring.
    pub styles: Vec<String>,
    /// The packages that a script names and the registry does not know.
    pub unknown_packages: Vec<String>,
}

/// The scripts and stylesheets of a page, ready for its head: the scripts
/// that its parts name in load order with all they depend on, and the
/// stylesheets that its parts name followed by those that the packages
/// bring.
pub fn page_assets(
    header: &str,
    index: &DependencyIndex,
    registry: &PackageRegistry,
    paths: &ConfigPath,
) -> (assets: PageAssets)
    ensures
        texts(assets.scripts@) == linearized(
            scripts_among(listed_names(header@)),
            index@,
            registry@,
            paths.public@,
        ).scripts,
        texts(assets.styles@) == styles_among(listed_names(header@)) + linearized(
            scripts_among(listed_names(header@)),
            index@,
            registry@,
            paths.public@,
        ).stylesheets,
        texts(assets.unknown_packages@) == linearized(
            scripts_among(listed_names(header@)),
            index@,
            registry@,
            paths.public@,
        ).unknown,
{
    let named = linked_files(header);
    let mut styles = named.styles;
    let manifest = linearize(&named.scripts, index, registry, paths);
    let brought = manifest.stylesheets;
    let ghost own = texts(styles@);
    let mut i: usize = 0;
    while i < brought.len()
        invariant
            i <= brought.len(),
            texts(styles@) == own + texts(brought@).take(i as int),
        decreases brought.len() - i,
    {
        let ghost before = texts(styles@);
        styles.push(brought[i].clone());
        assert(texts(styles@) == before.push(texts(brought@)[i as int]));
        assert(texts(brought@).take(i + 1) == texts(brought@).take(i as int).push(
            texts(brought@)[i as int],
        ));
        i += 1;
    }
    assert(texts(brought@).take(brought@.len() as int) == texts(brought@));
    PageAssets { scripts: manifest.scripts, styles, unknown_packages: manifest.unknown_packages }
}

} // verus!
