//! A snapshot of the script sources that the resolver reads.
//!
//! The snapshot is taken once, before any module is resolved, and stands
//! for the files on disk from then on: a path names a file exactly when the
//! snapshot holds it.

use crate::path::{normalize_relative_path, normalized};
use vstd::prelude::*;

verus! {

/// One source file: where it lies and what it says.
pub struct SourceFile {
    pub path: String,
    pub text: String,
}

/// The source files known to the resolver, found by normalized path.
pub struct SourceTree {
    files: Vec<SourceFile>,
}

/// The files as a map from path to text; of two files with one path the
/// later stands.
pub open spec fn content(files: Seq<SourceFile>) -> Map<Seq<char>, Seq<char>>
    decreases files.len(),
{
    if files.len() == 0 {
        Map::empty()
    } else {
        content(files.drop_last()).insert(files.last().path@, files.last().text@)
    }
}

/// The place of the last file stored under `key`.
pub open spec fn last_index(files: Seq<SourceFile>, key: Seq<char>) -> Option<int>
    decreases files.len(),
{
    if files.len() == 0 {
        None
    } else if files.last().path@ == key {
        Some(files.len() - 1)
    } else {
        last_index(files.drop_last(), key)
    }
}

/// The map holds a key exactly when some file is stored under it, and then
/// holds the text of the last such file.
pub proof fn lemma_content_lookup(files: Seq<SourceFile>, key: Seq<char>)
    ensures
        content(files).dom().finite(),
        content(files).contains_key(key) <==> last_index(files, key) is Some,
        last_index(files, key) matches Some(i) ==> 0 <= i < files.len() && files[i].path@ == key
            && content(files)[key] == files[i].text@,
    decreases files.len(),
{
    if files.len() > 0 {
        lemma_content_lookup(files.drop_last(), key);
    }
}

/// A map built from files holds no more keys than there are files.
pub proof fn lemma_content_size(files: Seq<SourceFile>)
    ensures
        content(files).dom().finite(),
        content(files).dom().len() <= files.len(),
    decreases files.len(),
{
    if files.len() > 0 {
        lemma_content_size(files.drop_last());
        lemma_content_lookup(files.drop_last(), files.last().path@);
    }
}

impl View for SourceTree {
    type V = Map<Seq<char>, Seq<char>>;

    closed spec fn view(&self) -> Map<Seq<char>, Seq<char>> {
        content(self.files@)
    }
}

impl SourceTree {
    /// A snapshot without files.
    pub fn new() -> (tree: SourceTree)
        ensures
            tree@ == Map::<Seq<char>, Seq<char>>::empty(),
    {
        SourceTree { files: Vec::new() }
    }

    /// A snapshot never holds more than finitely many files.
    pub proof fn lemma_finite(&self)
        ensures
            self@.dom().finite(),
    {
        lemma_content_lookup(self.files@, Seq::empty());
    }

    /// How many files were recorded, counting a path as often as it was
    /// recorded.
    pub closed spec fn count(&self) -> nat {
        self.files@.len()
    }

    /// The number of files recorded.
    pub fn len(&self) -> (n: usize)
        ensures
            n == self.count(),
    {
        self.files.len()
    }

    /// A chain of distinct files of the snapshot that can still be
    /// lengthened by one of its files is shorter than the number of files
    /// recorded.
    pub proof fn lemma_room(&self, chain: Seq<Seq<char>>, next: Seq<char>)
        requires
            chain.no_duplicates(),
            forall|i: int| 0 <= i < chain.len() ==> self@.contains_key(#[trigger] chain[i]),
            self@.contains_key(next),
            !chain.contains(next),
        ensures
            chain.len() < self.count(),
    {
        let longer = chain.push(next);
        assert(longer.no_duplicates()) by {
            assert forall|i: int, j: int|
                0 <= i < longer.len() && 0 <= j < longer.len() && i != j implies longer[i]
                != longer[j] by {
                if i == chain.len() {
                    assert(chain.contains(chain[j]));
                } else if j == chain.len() {
                    assert(chain.contains(chain[i]));
                }
            }
        }
        longer.unique_seq_to_set();
        lemma_content_size(self.files@);
        assert(longer.to_set().subset_of(self@.dom())) by {
            assert forall|x: Seq<char>| longer.to_set().contains(x) implies self@.dom().contains(
                x,
            ) by {
                let i = choose|i: int| 0 <= i < longer.len() && longer[i] == x;
                if i < chain.len() {
                    assert(longer[i] == chain[i]);
                }
            }
        }
        vstd::set_lib::lemma_len_subset(longer.to_set(), self@.dom());
    }

    /// Whether the snapshot holds a file at `path`.
    pub open spec fn has(&self, path: Seq<char>) -> bool {
        self@.contains_key(normalized(path))
    }

    /// Records `text` as what the file at `path` says, in place of what was
    /// recorded for that path before.
    pub fn insert(&mut self, path: &str, text: &str)
        ensures
            final(self)@ == old(self)@.insert(normalized(path@), text@),
    {
        let ghost before = self.files@;
        let file = SourceFile { path: normalize_relative_path(path), text: text.to_owned() };
        self.files.push(file);
        assert(self.files@.drop_last() == before);
    }

    fn find(&self, key: &String) -> (found: Option<usize>)
        ensures
            found is Some <==> self@.contains_key(key@),
            found matches Some(i) ==> i < self.files.len() && self@[key@] == self.files[i as int].text@,
    {
        let mut i: usize = self.files.len();
        assert(self.files@.take(i as int) == self.files@);
        while i > 0
            invariant
                i <= self.files.len(),
                last_index(self.files@, key@) == last_index(self.files@.take(i as int), key@),
            decreases i,
        {
            let ghost seen = self.files@.take(i as int);
            assert(seen.drop_last() == self.files@.take(i - 1));
            assert(seen.last() == self.files@[i - 1]);
            if self.files[i - 1].path == *key {
                proof {
                    lemma_content_lookup(self.files@, key@);
                }
                return Some(i - 1);
            }
            i -= 1;
        }
        proof {
            lemma_content_lookup(self.files@, key@);
        }
        None
    }

    /// Whether a file lies at `path`.
    pub fn is_file(&self, path: &str) -> (yes: bool)
        ensures
            yes == self.has(path@),
    {
        let key = normalize_relative_path(path);
        self.find(&key).is_some()
    }

    /// What the file at `path` says, or nothing if there is no such file.
    pub fn read(&self, path: &str) -> (text: Option<String>)
        ensures
            text is Some <==> self.has(path@),
            text matches Some(t) ==> t@ == self@[normalized(path@)],
    {
        let key = normalize_relative_path(path);
        match self.find(&key) {
            Some(i) => Some(self.files[i].text.clone()),
            None => None,
        }
    }
}

} // verus!
