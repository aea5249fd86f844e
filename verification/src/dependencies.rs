//! Resolving the dependencies of a script module.
//!
//! A module's dependency list holds everything it needs, directly or
//! through the modules it imports: paths of other modules and names of
//! packages. The list never holds an entry twice, and an entry that is
//! needed again moves to the end, so that it sits behind the last module
//! that required it.

use crate::imports::{scan, specifiers};
use crate::order::{
    holds, lemma_merged, lemma_reposition, merge_into, merged, move_to_end, reposition,
};
use crate::path::{normalize_relative_path, normalized, parent_dir, parent_of, push_path, pushed};
use crate::sources::SourceTree;
use crate::text::{
    append_chars, ends_with, from_chars, replace_chars, replaced, skip_chars, texts, to_chars,
};
use crate::tsconfig::{chosen_prefix, resolved, AliasTable, Aliases};
use vstd::prelude::*;

verus! {

/// What an import specifier names.
#[derive(Clone, Copy, Debug, PartialEq, Eq, Structural)]
pub enum SpecifierKind {
    /// A path relative to the importing module: the specifier begins with
    /// a dot.
    Relative,
    /// A path under a registered alias prefix.
    Aliased,
    /// Anything else: the name of a package, which is never scanned itself.
    Package,
}

/// Why a module could not be resolved.
pub enum ResolveError {
    /// No source file exists for the module; the path that was tried last
    /// is given.
    Unreadable(String),
    /// The module imports itself, directly or through other modules; the
    /// file at which the circle closed is given.
    Cycle(String),
    /// The scan for import statements could not be set up.
    Pattern,
}

/// A `ResolveError` as plain values.
pub enum Failure {
    Unreadable(Seq<char>),
    Cycle(Seq<char>),
    Pattern,
}

impl View for ResolveError {
    type V = Failure;

    open spec fn view(&self) -> Failure {
        match self {
            ResolveError::Unreadable(p) => Failure::Unreadable(p@),
            ResolveError::Cycle(p) => Failure::Cycle(p@),
            ResolveError::Pattern => Failure::Pattern,
        }
    }
}

/// The extension of a script: `.js`.
pub open spec fn js() -> Seq<char> {
    seq!['.', 'j', 's']
}

/// The extension of a typed script: `.ts`.
pub open spec fn ts() -> Seq<char> {
    seq!['.', 't', 's']
}

/// The kind of a specifier: relative if it begins with a dot, aliased if a
/// registered prefix begins it, a package otherwise.
pub open spec fn kind_of(specifier: Seq<char>, aliases: Aliases) -> SpecifierKind {
    if specifier.len() > 0 && specifier[0] == '.' {
        SpecifierKind::Relative
    } else if chosen_prefix(aliases, specifier) is Some {
        SpecifierKind::Aliased
    } else {
        SpecifierKind::Package
    }
}

/// The file that holds the source of `module`: the path without a leading
/// slash, with `.ts` in place of `.js` where such a file exists, else with
/// `.js` in place of `.ts`.
pub open spec fn source_path(module: Seq<char>, files: SourceTree) -> Seq<char> {
    let bare = if module.len() > 0 && module[0] == '/' {
        module.skip(1)
    } else {
        module
    };
    let typed = replaced(bare, js(), ts());
    if files.has(typed) {
        typed
    } else {
        replaced(typed, ts(), js())
    }
}

/// A relative specifier as a file name: itself if it ends in `.js`, else
/// with `.ts` added.
pub open spec fn with_extension(specifier: Seq<char>) -> Seq<char> {
    if js().is_suffix_of(specifier) {
        specifier
    } else {
        specifier + ts()
    }
}

/// What a specifier found in the file `importer` depends on: for a
/// relative one the normalized path from the importer's directory, for an
/// aliased one what the alias table resolves it to, for a package its
/// name. Nothing where an aliased specifier resolves to no file.
pub open spec fn identity(
    importer: Seq<char>,
    specifier: Seq<char>,
    aliases: Aliases,
    files: SourceTree,
) -> Option<Seq<char>> {
    match kind_of(specifier, aliases) {
        SpecifierKind::Relative => Some(
            normalized(pushed(parent_dir(importer), with_extension(specifier))),
        ),
        SpecifierKind::Aliased => resolved(aliases, specifier, files),
        SpecifierKind::Package => Some(specifier),
    }
}

/// The dependency list of `module`, or why it has none.
///
/// `visiting` holds the files that are being resolved on the way to this
/// module. Meeting one of them again is a cycle. So is a chain of as many
/// files as the snapshot holds: one more file would have to be one of
/// them.
pub open spec fn resolve_module(
    module: Seq<char>,
    aliases: Aliases,
    files: SourceTree,
    visiting: Seq<Seq<char>>,
) -> Result<Seq<Seq<char>>, Failure>
    decreases files.count() - visiting.len(), 0int, 0int,
{
    let file = source_path(module, files);
    let key = normalized(file);
    if !files.has(file) {
        Err(Failure::Unreadable(file))
    } else if visiting.contains(key) || visiting.len() >= files.count() {
        Err(Failure::Cycle(file))
    } else {
        match specifiers(files@[key]) {
            None => Err(Failure::Pattern),
            Some(found) => resolve_imports(file, found, aliases, files, visiting.push(key)),
        }
    }
}

/// The dependency list that the specifiers `found` in the file `importer`
/// give, taken first to last. Each names an identity, which moves to the
/// end of the list; unless it is a package, the dependency list of the
/// module so named is merged in behind it, each of its entries moving to
/// the end in turn. A specifier without identity is passed over. The first
/// failure of a module on the way is the failure of the whole.
pub open spec fn resolve_imports(
    importer: Seq<char>,
    found: Seq<Seq<char>>,
    aliases: Aliases,
    files: SourceTree,
    visiting: Seq<Seq<char>>,
) -> Result<Seq<Seq<char>>, Failure>
    decreases files.count() - visiting.len(), 1int, found.len(),
{
    if found.len() == 0 {
        Ok(Seq::empty())
    } else {
        match resolve_imports(importer, found.drop_last(), aliases, files, visiting) {
            Err(failure) => Err(failure),
            Ok(list) => {
                let specifier = found.last();
                match identity(importer, specifier, aliases, files) {
                    None => Ok(list),
                    Some(target) => {
                        let direct = reposition(list, target);
                        if kind_of(specifier, aliases) == SpecifierKind::Package {
                            Ok(direct)
                        } else {
                            match resolve_module(target, aliases, files, visiting) {
                                Err(failure) => Err(failure),
                                Ok(below) => Ok(merged(direct, below)),
                            }
                        }
                    },
                }
            },
        }
    }
}

/// Once the specifiers up to `upto` have failed, the whole list fails in
/// the same way.
pub proof fn lemma_failure_stays(
    importer: Seq<char>,
    found: Seq<Seq<char>>,
    upto: int,
    aliases: Aliases,
    files: SourceTree,
    visiting: Seq<Seq<char>>,
)
    requires
        0 <= upto <= found.len(),
        resolve_imports(importer, found.take(upto), aliases, files, visiting) is Err,
    ensures
        resolve_imports(importer, found, aliases, files, visiting) == resolve_imports(
            importer,
            found.take(upto),
            aliases,
            files,
            visiting,
        ),
    decreases found.len(),
{
    if upto == found.len() {
        assert(found.take(upto) == found);
    } else {
        assert(found.drop_last().take(upto) == found.take(upto));
        lemma_failure_stays(importer, found.drop_last(), upto, aliases, files, visiting);
    }
}

/// The result of a resolution as plain values.
pub open spec fn outcome(result: Result<Vec<String>, ResolveError>) -> Result<
    Seq<Seq<char>>,
    Failure,
> {
    match result {
        Ok(list) => Ok(texts(list@)),
        Err(error) => Err(error@),
    }
}

fn dot_js() -> (ext: Vec<char>)
    ensures
        ext@ == js(),
{
    let mut ext: Vec<char> = Vec::new();
    ext.push('.');
    ext.push('j');
    ext.push('s');
    assert(ext@ == js());
    ext
}

fn dot_ts() -> (ext: Vec<char>)
    ensures
        ext@ == ts(),
{
    let mut ext: Vec<char> = Vec::new();
    ext.push('.');
    ext.push('t');
    ext.push('s');
    assert(ext@ == ts());
    ext
}

/// Classifies an import specifier.
pub fn classify(specifier: &str, aliases: &AliasTable) -> (kind: SpecifierKind)
    ensures
        kind == kind_of(specifier@, aliases@),
{
    let chars = to_chars(specifier);
    if chars.len() > 0 && chars[0] == '.' {
        SpecifierKind::Relative
    } else if aliases.matching_prefix(specifier).is_some() {
        SpecifierKind::Aliased
    } else {
        SpecifierKind::Package
    }
}

/// The file in which the source of `module` is looked for.
pub fn source_file(module: &str, files: &SourceTree) -> (file: String)
    ensures
        file@ == source_path(module@, *files),
{
    let chars = to_chars(module);
    let bare = if chars.len() > 0 && chars[0] == '/' {
        skip_chars(&chars, 1)
    } else {
        chars
    };
    let typed = replace_chars(&bare, &dot_js(), &dot_ts());
    let file = from_chars(&typed);
    if files.is_file(file.as_str()) {
        file
    } else {
        from_chars(&replace_chars(&typed, &dot_ts(), &dot_js()))
    }
}

/// What the specifier, found in the file `importer`, depends on.
pub fn dependency_of(importer: &str, specifier: &str, aliases: &AliasTable, files: &SourceTree) -> (
    target: Option<String>
)
    ensures
        match target {
            Some(t) => identity(importer@, specifier@, aliases@, *files) == Some(t@),
            None => identity(importer@, specifier@, aliases@, *files) is None,
        },
{
    match classify(specifier, aliases) {
        SpecifierKind::Relative => {
            let mut name = to_chars(specifier);
            if !ends_with(&name, &dot_js()) {
                append_chars(&mut name, &dot_ts());
            }
            let dir = parent_of(&to_chars(importer));
            let joined = from_chars(&push_path(&dir, &name));
            Some(normalize_relative_path(joined.as_str()))
        },
        SpecifierKind::Aliased => aliases.resolve(specifier, files),
        SpecifierKind::Package => Some(specifier.to_owned()),
    }
}

fn with_added(list: &Vec<String>, item: String) -> (out: Vec<String>)
    ensures
        texts(out@) == texts(list@).push(item@),
        out.len() == list.len() + 1,
{
    let mut out: Vec<String> = Vec::new();
    let mut i: usize = 0;
    while i < list.len()
        invariant
            i <= list.len(),
            out.len() == i,
            texts(out@) == texts(list@).take(i as int),
        decreases list.len() - i,
    {
        let ghost before = texts(out@);
        out.push(list[i].clone());
        assert(texts(out@) == before.push(texts(list@)[i as int]));
        i += 1;
    }
    assert(texts(list@).take(list@.len() as int) == texts(list@));
    let ghost before = texts(out@);
    out.push(item);
    assert(texts(out@) == before.push(item@));
    out
}

fn resolve_in(module: &str, aliases: &AliasTable, files: &SourceTree, visiting: &Vec<String>) -> (out:
    Result<Vec<String>, ResolveError>)
    ensures
        outcome(out) == resolve_module(module@, aliases@, *files, texts(visiting@)),
    decreases files.count() - visiting.len(),
{
    let file = source_file(module, files);
    let text = match files.read(file.as_str()) {
        Some(text) => text,
        None => {
            return Err(ResolveError::Unreadable(file));
        },
    };
    let key = normalize_relative_path(file.as_str());
    if holds(visiting, &key) || visiting.len() >= files.len() {
        return Err(ResolveError::Cycle(file));
    }
    let found = match scan(text.as_str()) {
        Some(found) => found,
        None => {
            return Err(ResolveError::Pattern);
        },
    };
    let deeper = with_added(visiting, key);
    let ghost all = texts(found@);
    let mut list: Vec<String> = Vec::new();
    let mut i: usize = 0;
    assert(all.take(0) == Seq::<Seq<char>>::empty());
    assert(texts(list@) == Seq::<Seq<char>>::empty());
    while i < found.len()
        invariant
            i <= found.len(),
            all == texts(found@),
            deeper.len() == visiting.len() + 1,
            visiting.len() < files.count(),
            resolve_imports(file@, all.take(i as int), aliases@, *files, texts(deeper@)) == Ok::<
                Seq<Seq<char>>,
                Failure,
            >(texts(list@)),
            resolve_module(module@, aliases@, *files, texts(visiting@)) == resolve_imports(
                file@,
                all,
                aliases@,
                *files,
                texts(deeper@),
            ),
        decreases found.len() - i,
    {
        let ghost upto = all.take(i + 1);
        assert(upto.drop_last() == all.take(i as int));
        assert(upto.last() == all[i as int]);
        let specifier = &found[i];
        match dependency_of(file.as_str(), specifier.as_str(), aliases, files) {
            None => {},
            Some(target) => {
                move_to_end(&mut list, target.clone());
                if classify(specifier.as_str(), aliases) != SpecifierKind::Package {
                    match resolve_in(target.as_str(), aliases, files, &deeper) {
                        Ok(below) => {
                            merge_into(&mut list, &below);
                        },
                        Err(error) => {
                            proof {
                                lemma_failure_stays(
                                    file@,
                                    all,
                                    i + 1,
                                    aliases@,
                                    *files,
                                    texts(deeper@),
                                );
                            }
                            return Err(error);
                        },
                    }
                }
            },
        }
        i += 1;
    }
    assert(all.take(found@.len() as int) == all);
    Ok(list)
}

/// Get the dependencies of a script module: every module and package that
/// it needs, directly or through the modules it imports.
///
/// The list holds no entry twice. It fails where a module on the way has
/// no source file in `files` or where the imports run in a circle.
pub fn script_dependencies(path: &str, aliases: &AliasTable, files: &SourceTree) -> (out: Result<
    Vec<String>,
    ResolveError,
>)
    ensures
        outcome(out) == resolve_module(path@, aliases@, *files, Seq::empty()),
{
    let visiting: Vec<String> = Vec::new();
    assert(texts(visiting@) == Seq::<Seq<char>>::empty());
    resolve_in(path, aliases, files, &visiting)
}

/// What an index says: modules with their dependency lists, in the order
/// in which they were entered.
pub type Index = Seq<(Seq<char>, Seq<Seq<char>>)>;

/// The entries as plain values.
pub open spec fn index_of(entries: Seq<(String, Vec<String>)>) -> Index {
    Seq::new(entries.len(), |i: int| (entries[i].0@, texts(entries[i].1@)))
}

/// The dependency list entered for `module`: that of the last entry for
/// it.
pub open spec fn list_of(index: Index, module: Seq<char>) -> Option<Seq<Seq<char>>>
    decreases index.len(),
{
    if index.len() == 0 {
        None
    } else if index.last().0 == module {
        Some(index.last().1)
    } else {
        list_of(index.drop_last(), module)
    }
}

/// The index of `modules`: each with its dependency list, or the failure
/// of the first module that cannot be resolved.
pub open spec fn indexed(modules: Seq<Seq<char>>, aliases: Aliases, files: SourceTree) -> Result<
    Index,
    Failure,
>
    decreases modules.len(),
{
    if modules.len() == 0 {
        Ok(Seq::empty())
    } else {
        match indexed(modules.drop_last(), aliases, files) {
            Err(failure) => Err(failure),
            Ok(index) => match resolve_module(modules.last(), aliases, files, Seq::empty()) {
                Err(failure) => Err(failure),
                Ok(list) => Ok(index.push((modules.last(), list))),
            },
        }
    }
}

/// Once the modules up to `upto` have failed, indexing all of them fails in
/// the same way.
pub proof fn lemma_index_failure_stays(
    modules: Seq<Seq<char>>,
    upto: int,
    aliases: Aliases,
    files: SourceTree,
)
    requires
        0 <= upto <= modules.len(),
        indexed(modules.take(upto), aliases, files) is Err,
    ensures
        indexed(modules, aliases, files) == indexed(modules.take(upto), aliases, files),
    decreases modules.len(),
{
    if upto == modules.len() {
        assert(modules.take(upto) == modules);
    } else {
        assert(modules.drop_last().take(upto) == modules.take(upto));
        lemma_index_failure_stays(modules.drop_last(), upto, aliases, files);
    }
}

/// An index answers for every module it was built from, and with that
/// module's dependency list: what is looked up is what resolving the
/// module gives, however often it is asked.
pub proof fn lemma_index_remembers(
    modules: Seq<Seq<char>>,
    aliases: Aliases,
    files: SourceTree,
    module: Seq<char>,
)
    requires
        indexed(modules, aliases, files) is Ok,
        modules.contains(module),
    ensures
        resolve_module(module, aliases, files, Seq::empty()) is Ok,
        list_of(indexed(modules, aliases, files)->Ok_0, module) == Some(
            resolve_module(module, aliases, files, Seq::empty())->Ok_0,
        ),
    decreases modules.len(),
{
    let at = choose|i: int| 0 <= i < modules.len() && modules[i] == module;
    let earlier = indexed(modules.drop_last(), aliases, files)->Ok_0;
    let list = resolve_module(modules.last(), aliases, files, Seq::empty())->Ok_0;
    let index = earlier.push((modules.last(), list));
    assert(indexed(modules, aliases, files) == Ok::<Index, Failure>(index));
    assert(index.drop_last() == earlier);
    if modules.last() == module {
    } else {
        assert(modules.drop_last()[at] == module);
        lemma_index_remembers(modules.drop_last(), aliases, files, module);
    }
}

/// The dependency lists of the known modules, computed once and read from
/// then on.
pub struct DependencyIndex {
    entries: Vec<(String, Vec<String>)>,
}

impl View for DependencyIndex {
    type V = Index;

    closed spec fn view(&self) -> Index {
        index_of(self.entries@)
    }
}

impl DependencyIndex {
    /// An index without modules.
    pub fn new() -> (index: DependencyIndex)
        ensures
            index@.len() == 0,
    {
        DependencyIndex { entries: Vec::new() }
    }

    /// Enters `list` as the dependency list of `module`, in place of what
    /// was entered for it before.
    pub fn insert(&mut self, module: String, list: Vec<String>)
        ensures
            final(self)@ == old(self)@.push((module@, texts(list@))),
    {
        let ghost before = self@;
        self.entries.push((module, list));
        assert(self@ == before.push((module@, texts(list@))));
    }

    /// Resolves every module of `modules` and enters its dependency list.
    /// The first module that cannot be resolved fails the whole.
    pub fn build(modules: &Vec<String>, aliases: &AliasTable, files: &SourceTree) -> (out: Result<
        DependencyIndex,
        ResolveError,
    >)
        ensures
            match out {
                Ok(index) => indexed(texts(modules@), aliases@, *files) == Ok::<Index, Failure>(
                    index@,
                ),
                Err(error) => indexed(texts(modules@), aliases@, *files) == Err::<Index, Failure>(
                    error@,
                ),
            },
            out matches Ok(index) ==> faithful(index@, aliases@, *files),
    {
        let mut index = DependencyIndex::new();
        let ghost all = texts(modules@);
        let mut i: usize = 0;
        assert(all.take(0) == Seq::<Seq<char>>::empty());
        assert(index@ == Seq::<(Seq<char>, Seq<Seq<char>>)>::empty());
        while i < modules.len()
            invariant
                i <= modules.len(),
                all == texts(modules@),
                indexed(all.take(i as int), aliases@, *files) == Ok::<Index, Failure>(index@),
            decreases modules.len() - i,
        {
            assert(all.take(i + 1).drop_last() == all.take(i as int));
            assert(all.take(i + 1).last() == all[i as int]);
            match script_dependencies(modules[i].as_str(), aliases, files) {
                Ok(list) => {
                    index.insert(modules[i].clone(), list);
                },
                Err(error) => {
                    proof {
                        lemma_index_failure_stays(all, i + 1, aliases@, *files);
                    }
                    return Err(error);
                },
            }
            i += 1;
        }
        assert(all.take(modules@.len() as int) == all);
        proof {
            lemma_built_is_faithful(all, aliases@, *files);
        }
        Ok(index)
    }

    /// The dependency list of `module`, if the index holds the module.
    pub fn get(&self, module: &str) -> (list: Option<&Vec<String>>)
        ensures
            match list {
                Some(l) => list_of(self@, module@) == Some(texts(l@)),
                None => list_of(self@, module@) is None,
            },
    {
        let ghost all = self@;
        let wanted = to_chars(module);
        let mut i: usize = self.entries.len();
        assert(all.take(i as int) == all);
        while i > 0
            invariant
                i <= self.entries.len(),
                all == self@,
                wanted@ == module@,
                list_of(all, module@) == list_of(all.take(i as int), module@),
            decreases i,
        {
            assert(all.take(i as int).drop_last() == all.take(i - 1));
            assert(all.take(i as int).last() == all[i - 1]);
            if crate::text::same_chars(&to_chars(self.entries[i - 1].0.as_str()), &wanted) {
                return Some(&self.entries[i - 1].1);
            }
            i -= 1;
        }
        None
    }
}

/// A module whose source holds no import statement has no dependencies.
pub proof fn lemma_no_imports_no_dependencies(module: Seq<char>, aliases: Aliases, files: SourceTree)
    requires
        files.has(source_path(module, files)),
        specifiers(files@[normalized(source_path(module, files))]) == Some(
            Seq::<Seq<char>>::empty(),
        ),
    ensures
        resolve_module(module, aliases, files, Seq::empty()) == Ok::<Seq<Seq<char>>, Failure>(
            Seq::empty(),
        ),
{
    files.lemma_room(Seq::empty(), normalized(source_path(module, files)));
}

/// A dependency list holds no entry twice.
pub proof fn lemma_module_distinct(
    module: Seq<char>,
    aliases: Aliases,
    files: SourceTree,
    visiting: Seq<Seq<char>>,
)
    ensures
        resolve_module(module, aliases, files, visiting) matches Ok(list) ==> list.no_duplicates(),
    decreases files.count() - visiting.len(), 0int, 0int,
{
    let file = source_path(module, files);
    let key = normalized(file);
    if files.has(file) && !(visiting.contains(key) || visiting.len() >= files.count()) {
        match specifiers(files@[key]) {
            None => {},
            Some(found) => {
                lemma_imports_distinct(file, found, aliases, files, visiting.push(key));
            },
        }
    }
}

/// The list that a file's specifiers give holds no entry twice.
pub proof fn lemma_imports_distinct(
    importer: Seq<char>,
    found: Seq<Seq<char>>,
    aliases: Aliases,
    files: SourceTree,
    visiting: Seq<Seq<char>>,
)
    ensures
        resolve_imports(importer, found, aliases, files, visiting) matches Ok(list)
            ==> list.no_duplicates(),
    decreases files.count() - visiting.len(), 1int, found.len(),
{
    if found.len() > 0 {
        lemma_imports_distinct(importer, found.drop_last(), aliases, files, visiting);
        match resolve_imports(importer, found.drop_last(), aliases, files, visiting) {
            Err(_) => {},
            Ok(list) => {
                match identity(importer, found.last(), aliases, files) {
                    None => {},
                    Some(target) => {
                        lemma_reposition(list, target);
                        if kind_of(found.last(), aliases) != SpecifierKind::Package {
                            match resolve_module(target, aliases, files, visiting) {
                                Err(_) => {},
                                Ok(below) => {
                                    lemma_merged(reposition(list, target), below);
                                },
                            }
                        }
                    },
                }
            },
        }
    }
}

/// Whatever a specifier of a file names is in the file's list, and with it
/// the whole dependency list of the module it names, unless it names a
/// package.
pub proof fn lemma_imports_contain(
    importer: Seq<char>,
    found: Seq<Seq<char>>,
    at: int,
    aliases: Aliases,
    files: SourceTree,
    visiting: Seq<Seq<char>>,
)
    requires
        0 <= at < found.len(),
        resolve_imports(importer, found, aliases, files, visiting) is Ok,
        identity(importer, found[at], aliases, files) is Some,
    ensures
        ({
            let list = resolve_imports(importer, found, aliases, files, visiting)->Ok_0;
            let target = identity(importer, found[at], aliases, files)->0;
            &&& list.contains(target)
            &&& kind_of(found[at], aliases) != SpecifierKind::Package ==> {
                &&& resolve_module(target, aliases, files, visiting) is Ok
                &&& forall|x: Seq<char>|
                    (resolve_module(target, aliases, files, visiting)->Ok_0).contains(x)
                        ==> list.contains(x)
            }
        }),
    decreases found.len(),
{
    let shorter = found.drop_last();
    let before = resolve_imports(importer, shorter, aliases, files, visiting)->Ok_0;
    let list = resolve_imports(importer, found, aliases, files, visiting)->Ok_0;
    // What the last specifier does to the list keeps all that was in it.
    assert(forall|x: Seq<char>| before.contains(x) ==> list.contains(x)) by {
        match identity(importer, found.last(), aliases, files) {
            None => {},
            Some(last) => {
                lemma_reposition(before, last);
                if kind_of(found.last(), aliases) != SpecifierKind::Package {
                    lemma_merged(
                        reposition(before, last),
                        resolve_module(last, aliases, files, visiting)->Ok_0,
                    );
                }
            },
        }
    }
    if at == found.len() - 1 {
        let target = identity(importer, found[at], aliases, files)->0;
        lemma_reposition(before, target);
        if kind_of(found[at], aliases) != SpecifierKind::Package {
            lemma_merged(
                reposition(before, target),
                resolve_module(target, aliases, files, visiting)->Ok_0,
            );
        }
    } else {
        assert(shorter[at] == found[at]);
        lemma_imports_contain(importer, shorter, at, aliases, files, visiting);
    }
}

/// Whether the source of `module` holds a specifier that names `target`
/// and is no package name.
pub open spec fn imports(
    module: Seq<char>,
    target: Seq<char>,
    aliases: Aliases,
    files: SourceTree,
) -> bool {
    let file = source_path(module, files);
    &&& files.has(file)
    &&& specifiers(files@[normalized(file)]) matches Some(found)
    &&& exists|at: int|
        0 <= at < found.len() && kind_of(#[trigger] found[at], aliases) != SpecifierKind::Package
            && identity(file, found[at], aliases, files) == Some(target)
}

/// Along a chain of imports, where `first` imports `second` and `second`
/// imports `third`, the dependency list of `first` holds both `second` and
/// `third`, each once; moving either to the end again leaves it there
/// once.
pub proof fn lemma_chain(
    first: Seq<char>,
    second: Seq<char>,
    third: Seq<char>,
    aliases: Aliases,
    files: SourceTree,
)
    requires
        resolve_module(first, aliases, files, Seq::empty()) is Ok,
        imports(first, second, aliases, files),
        imports(second, third, aliases, files),
    ensures
        ({
            let list = resolve_module(first, aliases, files, Seq::empty())->Ok_0;
            &&& list.contains(second)
            &&& list.contains(third)
            &&& list.no_duplicates()
            &&& reposition(list, second).no_duplicates()
            &&& reposition(list, third).no_duplicates()
        }),
{
    let list = resolve_module(first, aliases, files, Seq::empty())->Ok_0;
    let file = source_path(first, files);
    let key = normalized(file);
    let found = specifiers(files@[key])->0;
    let path = Seq::<Seq<char>>::empty().push(key);
    let at = choose|at: int|
        0 <= at < found.len() && kind_of(#[trigger] found[at], aliases) != SpecifierKind::Package
            && identity(file, found[at], aliases, files) == Some(second);
    lemma_imports_contain(file, found, at, aliases, files, path);
    let below = resolve_module(second, aliases, files, path)->Ok_0;
    let file2 = source_path(second, files);
    let key2 = normalized(file2);
    let found2 = specifiers(files@[key2])->0;
    let at2 = choose|at2: int|
        0 <= at2 < found2.len() && kind_of(#[trigger] found2[at2], aliases)
            != SpecifierKind::Package && identity(file2, found2[at2], aliases, files) == Some(
            third,
        );
    lemma_imports_contain(file2, found2, at2, aliases, files, path.push(key2));
    assert(below.contains(third));
    lemma_module_distinct(first, aliases, files, Seq::empty());
    lemma_reposition(list, second);
    lemma_reposition(list, third);
}

/// Resolving a module is a function of the module, the aliases and the
/// snapshot: two results for the same three are the same.
pub proof fn lemma_same_snapshot_same_list(
    one: Result<Vec<String>, ResolveError>,
    other: Result<Vec<String>, ResolveError>,
    module: Seq<char>,
    aliases: Aliases,
    files: SourceTree,
)
    requires
        outcome(one) == resolve_module(module, aliases, files, Seq::empty()),
        outcome(other) == resolve_module(module, aliases, files, Seq::empty()),
    ensures
        outcome(one) == outcome(other),
{
}

/// The length of the chain never decides alone: where the files on the way
/// are distinct files of the snapshot and the module has a source, the chain
/// is as long as the snapshot is large only if the module's file is on it
/// already.
pub proof fn lemma_length_never_decides(module: Seq<char>, files: SourceTree, visiting: Seq<Seq<char>>)
    requires
        visiting.no_duplicates(),
        forall|i: int| 0 <= i < visiting.len() ==> files@.contains_key(#[trigger] visiting[i]),
        files.has(source_path(module, files)),
    ensures
        visiting.len() >= files.count() ==> visiting.contains(
            normalized(source_path(module, files)),
        ),
{
    let key = normalized(source_path(module, files));
    if !visiting.contains(key) {
        files.lemma_room(visiting, key);
    }
}

/// Whether every entry of an index is what resolving its module gives.
pub open spec fn faithful(index: Index, aliases: Aliases, files: SourceTree) -> bool {
    forall|i: int|
        0 <= i < index.len() ==> resolve_module(
            (#[trigger] index[i]).0,
            aliases,
            files,
            Seq::empty(),
        ) == Ok::<Seq<Seq<char>>, Failure>(index[i].1)
}

/// What a faithful index answers for a module is what resolving the module
/// gives.
pub proof fn lemma_faithful_lookup(
    index: Index,
    aliases: Aliases,
    files: SourceTree,
    module: Seq<char>,
)
    requires
        faithful(index, aliases, files),
        list_of(index, module) is Some,
    ensures
        resolve_module(module, aliases, files, Seq::empty()) == Ok::<Seq<Seq<char>>, Failure>(
            list_of(index, module)->0,
        ),
    decreases index.len(),
{
    if index.last().0 == module {
        assert(index[index.len() - 1].0 == module);
    } else {
        let shorter = index.drop_last();
        assert forall|i: int| 0 <= i < shorter.len() implies resolve_module(
            (#[trigger] shorter[i]).0,
            aliases,
            files,
            Seq::empty(),
        ) == Ok::<Seq<Seq<char>>, Failure>(shorter[i].1) by {
            assert(shorter[i] == index[i]);
        }
        lemma_faithful_lookup(shorter, aliases, files, module);
    }
}

/// An index built from modules is faithful.
pub proof fn lemma_built_is_faithful(modules: Seq<Seq<char>>, aliases: Aliases, files: SourceTree)
    requires
        indexed(modules, aliases, files) is Ok,
    ensures
        faithful(indexed(modules, aliases, files)->Ok_0, aliases, files),
    decreases modules.len(),
{
    if modules.len() > 0 {
        lemma_built_is_faithful(modules.drop_last(), aliases, files);
        let earlier = indexed(modules.drop_last(), aliases, files)->Ok_0;
        let list = resolve_module(modules.last(), aliases, files, Seq::empty())->Ok_0;
        let index = earlier.push((modules.last(), list));
        assert(indexed(modules, aliases, files) == Ok::<Index, Failure>(index));
        assert forall|i: int| 0 <= i < index.len() implies resolve_module(
            (#[trigger] index[i]).0,
            aliases,
            files,
            Seq::empty(),
        ) == Ok::<Seq<Seq<char>>, Failure>(index[i].1) by {
            if i < earlier.len() {
                assert(index[i] == earlier[i]);
            }
        }
    }
}

impl DependencyIndex {
    /// The dependency list of `module`: the one that the index holds, or,
    /// where it holds none, the one that resolving the module gives, which
    /// the index holds from then on. A failure leaves the index as it was.
    ///
    /// A faithful index stays faithful, and what it answers is what
    /// resolving the module gives, the first time and every time after.
    pub fn get_or_resolve(&mut self, module: &str, aliases: &AliasTable, files: &SourceTree) -> (out:
        Result<Vec<String>, ResolveError>)
        ensures
            match list_of(old(self)@, module@) {
                Some(list) => out matches Ok(l) && texts(l@) == list && final(self)@ == old(self)@,
                None => outcome(out) == resolve_module(module@, aliases@, *files, Seq::empty())
                    && match out {
                    Ok(l) => final(self)@ == old(self)@.push((module@, texts(l@))),
                    Err(_) => final(self)@ == old(self)@,
                },
            },
            faithful(old(self)@, aliases@, *files) ==> faithful(final(self)@, aliases@, *files)
                && outcome(out) == resolve_module(module@, aliases@, *files, Seq::empty()),
    {
        let ghost before = self@;
        match self.get(module) {
            Some(list) => {
                let mut copy: Vec<String> = Vec::new();
                let mut i: usize = 0;
                while i < list.len()
                    invariant
                        i <= list.len(),
                        texts(copy@) == texts(list@).take(i as int),
                    decreases list.len() - i,
                {
                    let ghost had = texts(copy@);
                    copy.push(list[i].clone());
                    assert(texts(copy@) == had.push(texts(list@)[i as int]));
                    i += 1;
                }
                assert(texts(list@).take(list@.len() as int) == texts(list@));
                proof {
                    if faithful(before, aliases@, *files) {
                        lemma_faithful_lookup(before, aliases@, *files, module@);
                    }
                }
                Ok(copy)
            },
            None => {
                match script_dependencies(module, aliases, files) {
                    Ok(list) => {
                        let mut copy: Vec<String> = Vec::new();
                        let mut i: usize = 0;
                        while i < list.len()
                            invariant
                                i <= list.len(),
                                texts(copy@) == texts(list@).take(i as int),
                            decreases list.len() - i,
                        {
                            let ghost had = texts(copy@);
                            copy.push(list[i].clone());
                            assert(texts(copy@) == had.push(texts(list@)[i as int]));
                            i += 1;
                        }
                        assert(texts(list@).take(list@.len() as int) == texts(list@));
                        self.insert(module.to_owned(), copy);
                        proof {
                            let after = self@;
                            if faithful(before, aliases@, *files) {
                                assert forall|i: int| 0 <= i < after.len() implies resolve_module(
                                    (#[trigger] after[i]).0,
                                    aliases@,
                                    *files,
                                    Seq::empty(),
                                ) == Ok::<Seq<Seq<char>>, Failure>(after[i].1) by {
                                    if i < before.len() {
                                        assert(after[i] == before[i]);
                                    }
                                }
                            }
                        }
                        Ok(list)
                    },
                    Err(error) => Err(error),
                }
            },
        }
    }
}

} // verus!
