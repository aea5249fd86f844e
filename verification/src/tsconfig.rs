//! Path aliases: short import prefixes that stand for one or more
//! directories.

use crate::path::{push_path, pushed};
use crate::sources::SourceTree;
use crate::text::{
    append_chars, from_chars, skip_chars, starts_with, strip_suffix_chars, texts, to_chars,
    without_suffix,
};
use vstd::prelude::*;

verus! {

/// Where a sequence sorted longest first takes an item of length `n`: behind
/// every item at its head that is at least as long.
pub open spec fn slot(sorted: Seq<Seq<char>>, n: nat) -> nat
    decreases sorted.len(),
{
    if sorted.len() == 0 || sorted[0].len() < n {
        0
    } else {
        1 + slot(sorted.skip(1), n)
    }
}

/// The prefixes ordered longest first; of two prefixes of one length the
/// one registered first comes first.
pub open spec fn longest_first(registered: Seq<Seq<char>>) -> Seq<Seq<char>>
    decreases registered.len(),
{
    if registered.len() == 0 {
        Seq::empty()
    } else {
        let sorted = longest_first(registered.drop_last());
        sorted.insert(slot(sorted, registered.last().len()) as int, registered.last())
    }
}

/// The first of `ordered` that `specifier` begins with.
pub open spec fn first_match(ordered: Seq<Seq<char>>, specifier: Seq<char>) -> Option<Seq<char>>
    decreases ordered.len(),
{
    if ordered.len() == 0 {
        None
    } else if ordered[0].is_prefix_of(specifier) {
        Some(ordered[0])
    } else {
        first_match(ordered.skip(1), specifier)
    }
}

/// Whether every item is at least as long as all that follow it.
pub open spec fn sorted_longest_first(s: Seq<Seq<char>>) -> bool {
    forall|i: int, j: int| 0 <= i < j < s.len() ==> s[i].len() >= s[j].len()
}

/// The slot lies within the sequence; what stands before it is at least as
/// long as `n`, and in a sorted sequence what stands from it on is shorter.
pub proof fn lemma_slot(sorted: Seq<Seq<char>>, n: nat)
    ensures
        slot(sorted, n) <= sorted.len(),
        forall|i: int| 0 <= i < slot(sorted, n) ==> sorted[i].len() >= n,
        sorted_longest_first(sorted) ==> forall|i: int|
            slot(sorted, n) <= i < sorted.len() ==> sorted[i].len() < n,
    decreases sorted.len(),
{
    if sorted.len() == 0 || sorted[0].len() < n {
    } else {
        let rest = sorted.skip(1);
        lemma_slot(rest, n);
        assert forall|i: int| 0 <= i < slot(sorted, n) implies sorted[i].len() >= n by {
            if i > 0 {
                assert(sorted[i] == rest[i - 1]);
            }
        }
        if sorted_longest_first(sorted) {
            assert forall|i: int, j: int| 0 <= i < j < rest.len() implies rest[i].len()
                >= rest[j].len() by {
                assert(rest[i] == sorted[i + 1] && rest[j] == sorted[j + 1]);
            }
            assert forall|i: int| slot(sorted, n) <= i < sorted.len() implies sorted[i].len()
                < n by {
                assert(sorted[i] == rest[i - 1]);
            }
        }
    }
}

/// Ordering keeps every prefix and adds none, and the result is sorted
/// longest first.
pub proof fn lemma_longest_first(registered: Seq<Seq<char>>)
    ensures
        longest_first(registered).len() == registered.len(),
        sorted_longest_first(longest_first(registered)),
        forall|p: Seq<char>| longest_first(registered).contains(p) <==> registered.contains(p),
    decreases registered.len(),
{
    if registered.len() == 0 {
    } else {
        let shorter = registered.drop_last();
        let last = registered.last();
        let sorted = longest_first(shorter);
        lemma_longest_first(shorter);
        lemma_slot(sorted, last.len());
        let k = slot(sorted, last.len()) as int;
        let now = sorted.insert(k, last);
        assert forall|i: int, j: int| 0 <= i < j < now.len() implies now[i].len()
            >= now[j].len() by {
            if i < k && j > k {
                assert(now[i] == sorted[i] && now[j] == sorted[j - 1]);
            } else if i < k && j < k {
                assert(now[i] == sorted[i] && now[j] == sorted[j]);
            } else if i > k {
                assert(now[i] == sorted[i - 1] && now[j] == sorted[j - 1]);
            } else if i == k {
                assert(now[j] == sorted[j - 1]);
            } else {
                assert(now[i] == sorted[i]);
            }
        }
        assert forall|p: Seq<char>| now.contains(p) <==> registered.contains(p) by {
            if now.contains(p) {
                let i = choose|i: int| 0 <= i < now.len() && now[i] == p;
                if i == k {
                    assert(registered[registered.len() - 1] == p);
                } else {
                    let j = if i < k { i } else { i - 1 };
                    assert(sorted[j] == p);
                    assert(sorted.contains(p));
                    assert(shorter.contains(p));
                    let m = choose|m: int| 0 <= m < shorter.len() && shorter[m] == p;
                    assert(registered[m] == p);
                }
            }
            if registered.contains(p) {
                let m = choose|m: int| 0 <= m < registered.len() && registered[m] == p;
                if m == registered.len() - 1 {
                    assert(now[k] == p);
                } else {
                    assert(shorter[m] == p);
                    assert(shorter.contains(p));
                    assert(sorted.contains(p));
                    let j = choose|j: int| 0 <= j < sorted.len() && sorted[j] == p;
                    if j < k {
                        assert(now[j] == p);
                    } else {
                        assert(now[j + 1] == p);
                    }
                }
            }
        }
    }
}

/// What `first_match` finds is one of `ordered`, begins `specifier`, and
/// nothing before it in `ordered` does; it finds nothing only where
/// nothing begins `specifier`.
pub proof fn lemma_first_match(ordered: Seq<Seq<char>>, specifier: Seq<char>)
    ensures
        match first_match(ordered, specifier) {
            Some(found) => exists|k: int|
                0 <= k < ordered.len() && ordered[k] == found && found.is_prefix_of(specifier)
                    && forall|i: int| 0 <= i < k ==> !(#[trigger] ordered[i]).is_prefix_of(
                        specifier,
                    ),
            None => forall|i: int|
                0 <= i < ordered.len() ==> !(#[trigger] ordered[i]).is_prefix_of(specifier),
        },
    decreases ordered.len(),
{
    if ordered.len() == 0 {
    } else if ordered[0].is_prefix_of(specifier) {
        assert(ordered[0] == ordered[0]);
    } else {
        let rest = ordered.skip(1);
        lemma_first_match(rest, specifier);
        match first_match(rest, specifier) {
            Some(found) => {
                let k = choose|k: int|
                    0 <= k < rest.len() && rest[k] == found && found.is_prefix_of(specifier)
                        && forall|i: int| 0 <= i < k ==> !(#[trigger] rest[i]).is_prefix_of(
                            specifier,
                        );
                assert(ordered[k + 1] == found);
                assert forall|i: int| 0 <= i < k + 1 implies !(#[trigger] ordered[i]).is_prefix_of(
                    specifier,
                ) by {
                    if i > 0 {
                        assert(ordered[i] == rest[i - 1]);
                    }
                }
            },
            None => {
                assert forall|i: int| 0 <= i < ordered.len() implies !(
                #[trigger] ordered[i]).is_prefix_of(specifier) by {
                    if i > 0 {
                        assert(ordered[i] == rest[i - 1]);
                    }
                }
            },
        }
    }
}

/// The longest matching prefix wins: where a registered prefix begins the
/// specifier, the prefix chosen for it is registered, begins it too, and is
/// at least as long as every registered prefix that begins it.
pub proof fn lemma_longest_match_wins(
    registered: Seq<Seq<char>>,
    specifier: Seq<char>,
    other: Seq<char>,
)
    requires
        registered.contains(other),
        other.is_prefix_of(specifier),
    ensures
        first_match(longest_first(registered), specifier) matches Some(chosen)
            && registered.contains(chosen) && chosen.is_prefix_of(specifier) && chosen.len()
            >= other.len(),
{
    let ordered = longest_first(registered);
    lemma_longest_first(registered);
    lemma_first_match(ordered, specifier);
    assert(ordered.contains(other));
    let at = choose|i: int| 0 <= i < ordered.len() && ordered[i] == other;
    match first_match(ordered, specifier) {
        Some(chosen) => {
            let k = choose|k: int|
                0 <= k < ordered.len() && ordered[k] == chosen && chosen.is_prefix_of(specifier)
                    && forall|i: int| 0 <= i < k ==> !(#[trigger] ordered[i]).is_prefix_of(
                        specifier,
                    );
            assert(ordered.contains(chosen));
            if at < k {
                assert(!ordered[at].is_prefix_of(specifier));
            }
        },
        None => {
            assert(!ordered[at].is_prefix_of(specifier));
        },
    }
}

/// One alias: a prefix and the directories it may stand for, in the order
/// in which they were registered.
pub struct AliasEntry {
    pub prefix: String,
    pub roots: Vec<String>,
}

/// The registered aliases, in registration order. No prefix is registered
/// twice.
pub struct AliasTable {
    entries: Vec<AliasEntry>,
}

/// What a table says: its prefixes with their roots, in registration order.
pub type Aliases = Seq<(Seq<char>, Seq<Seq<char>>)>;

/// The entries as plain values.
pub open spec fn aliases_of(entries: Seq<AliasEntry>) -> Aliases {
    Seq::new(entries.len(), |i: int| (entries[i].prefix@, texts(entries[i].roots@)))
}

/// The prefixes of the aliases, in order.
pub open spec fn prefixes_of(aliases: Aliases) -> Seq<Seq<char>> {
    Seq::new(aliases.len(), |i: int| aliases[i].0)
}

/// The place of the first alias with `prefix`.
pub open spec fn position(aliases: Aliases, prefix: Seq<char>) -> Option<int>
    decreases aliases.len(),
{
    if aliases.len() == 0 {
        None
    } else if aliases.last().0 == prefix && position(aliases.drop_last(), prefix) is None {
        Some(aliases.len() - 1)
    } else {
        position(aliases.drop_last(), prefix)
    }
}

/// The roots registered for `prefix`: those of the first alias that has
/// it, none where no alias has it.
pub open spec fn roots_of(aliases: Aliases, prefix: Seq<char>) -> Seq<Seq<char>> {
    match position(aliases, prefix) {
        Some(i) => aliases[i].1,
        None => Seq::empty(),
    }
}

/// Whether every prefix is registered once only.
pub open spec fn distinct_prefixes(aliases: Aliases) -> bool {
    forall|i: int, j: int|
        0 <= i < j < aliases.len() ==> (#[trigger] aliases[i]).0 != (#[trigger] aliases[j]).0
}

/// A position that is found holds the prefix, nothing before it does, and
/// none is found only where no alias has the prefix.
pub proof fn lemma_position(aliases: Aliases, prefix: Seq<char>)
    ensures
        match position(aliases, prefix) {
            Some(i) => 0 <= i < aliases.len() && aliases[i].0 == prefix && forall|j: int|
                0 <= j < i ==> (#[trigger] aliases[j]).0 != prefix,
            None => forall|j: int| 0 <= j < aliases.len() ==> (#[trigger] aliases[j]).0 != prefix,
        },
    decreases aliases.len(),
{
    if aliases.len() > 0 {
        lemma_position(aliases.drop_last(), prefix);
        assert forall|j: int| 0 <= j < aliases.len() - 1 implies aliases[j]
            == aliases.drop_last()[j] by {}
    }
}

/// The file that an import of `remainder` below `root` names when the
/// alias has several roots: `root` joined with `.`, the remainder and
/// `.js`.
pub open spec fn candidate(root: Seq<char>, remainder: Seq<char>) -> Seq<char> {
    pushed(root, seq!['.'] + remainder + seq!['.', 'j', 's'])
}

/// The candidate of the first root, in registration order, whose candidate
/// is a file of `files`.
pub open spec fn first_existing(
    roots: Seq<Seq<char>>,
    remainder: Seq<char>,
    files: SourceTree,
) -> Option<Seq<char>>
    decreases roots.len(),
{
    if roots.len() == 0 {
        None
    } else if files.has(candidate(roots[0], remainder)) {
        Some(candidate(roots[0], remainder))
    } else {
        first_existing(roots.skip(1), remainder, files)
    }
}

/// What an aliased specifier resolves to, given the prefix chosen for it
/// and that prefix's roots. A single root is joined with the remainder
/// whether or not the file exists; among several roots the first whose
/// candidate exists decides, and none existing gives nothing.
pub open spec fn target(
    roots: Seq<Seq<char>>,
    prefix: Seq<char>,
    specifier: Seq<char>,
    files: SourceTree,
) -> Option<Seq<char>> {
    let remainder = specifier.skip(prefix.len() as int);
    if roots.len() == 1 {
        Some(pushed(roots[0], remainder))
    } else {
        first_existing(roots, remainder, files)
    }
}

/// Among several roots the first whose file exists is the one returned:
/// a result names the candidate of a root before which no root's candidate
/// exists, and there is no result only where no candidate exists.
pub proof fn lemma_first_existing(roots: Seq<Seq<char>>, remainder: Seq<char>, files: SourceTree)
    ensures
        match first_existing(roots, remainder, files) {
            Some(found) => exists|k: int|
                0 <= k < roots.len() && found == candidate(#[trigger] roots[k], remainder)
                    && files.has(found) && forall|i: int|
                    0 <= i < k ==> !files.has(candidate(#[trigger] roots[i], remainder)),
            None => forall|i: int|
                0 <= i < roots.len() ==> !files.has(candidate(#[trigger] roots[i], remainder)),
        },
    decreases roots.len(),
{
    if roots.len() == 0 {
    } else if files.has(candidate(roots[0], remainder)) {
        assert(roots[0] == roots[0]);
    } else {
        let rest = roots.skip(1);
        lemma_first_existing(rest, remainder, files);
        match first_existing(rest, remainder, files) {
            Some(found) => {
                let k = choose|k: int|
                    0 <= k < rest.len() && found == candidate(#[trigger] rest[k], remainder)
                        && files.has(found) && forall|i: int|
                        0 <= i < k ==> !files.has(candidate(#[trigger] rest[i], remainder));
                assert(roots[k + 1] == rest[k]);
                assert forall|i: int| 0 <= i < k + 1 implies !files.has(
                    candidate(#[trigger] roots[i], remainder),
                ) by {
                    if i > 0 {
                        assert(roots[i] == rest[i - 1]);
                    }
                }
            },
            None => {
                assert forall|i: int| 0 <= i < roots.len() implies !files.has(
                    candidate(#[trigger] roots[i], remainder),
                ) by {
                    if i > 0 {
                        assert(roots[i] == rest[i - 1]);
                    }
                }
            },
        }
    }
}

/// The prefix under which `specifier` is resolved: the first, longest
/// first, that it begins with.
pub open spec fn chosen_prefix(aliases: Aliases, specifier: Seq<char>) -> Option<Seq<char>> {
    first_match(longest_first(prefixes_of(aliases)), specifier)
}

/// The path that an aliased specifier stands for; nothing where no prefix
/// begins it, or where none of several roots holds the file.
pub open spec fn resolved(aliases: Aliases, specifier: Seq<char>, files: SourceTree) -> Option<
    Seq<char>,
> {
    match chosen_prefix(aliases, specifier) {
        None => None,
        Some(prefix) => target(roots_of(aliases, prefix), prefix, specifier, files),
    }
}

/// Of two prefixes of one text, where one is a prefix of the other, the
/// longer decides: a registered prefix that begins the specifier and is at
/// least as long as every registered prefix that begins it is the one
/// under which the specifier is resolved.
pub proof fn lemma_longest_is_chosen(
    aliases: Aliases,
    specifier: Seq<char>,
    longest: Seq<char>,
    files: SourceTree,
)
    requires
        prefixes_of(aliases).contains(longest),
        longest.is_prefix_of(specifier),
        forall|i: int|
            0 <= i < aliases.len() && (#[trigger] aliases[i]).0.is_prefix_of(specifier)
                ==> aliases[i].0.len() <= longest.len(),
    ensures
        chosen_prefix(aliases, specifier) == Some(longest),
        resolved(aliases, specifier, files) == target(
            roots_of(aliases, longest),
            longest,
            specifier,
            files,
        ),
{
    let registered = prefixes_of(aliases);
    lemma_longest_match_wins(registered, specifier, longest);
    let chosen = first_match(longest_first(registered), specifier)->0;
    let at = choose|i: int| 0 <= i < registered.len() && registered[i] == chosen;
    assert(aliases[at].0 == chosen);
    assert(chosen.len() == longest.len());
    assert(chosen =~= longest) by {
        assert forall|k: int| 0 <= k < chosen.len() implies chosen[k] == longest[k] by {
            assert(chosen[k] == specifier.subrange(0, chosen.len() as int)[k]);
            assert(longest[k] == specifier.subrange(0, longest.len() as int)[k]);
        }
    }
}

/// Gives the prefixes that are to be resolved, the longest first.
pub trait TsConfigPathsPrefix {
    /// The prefixes in the order in which they were registered.
    spec fn registered(&self) -> Seq<Seq<char>>;

    /// Get all the prefixes, sorted from the longest to the shortest, so
    /// that of `~/utils/` and `~/` the first is tried first.
    fn prefixes(&self) -> (out: Vec<String>)
        ensures
            texts(out@) == longest_first(self.registered()),
    ;
}

impl View for AliasTable {
    type V = Aliases;

    closed spec fn view(&self) -> Aliases {
        aliases_of(self.entries@)
    }
}

impl TsConfigPathsPrefix for AliasTable {
    open spec fn registered(&self) -> Seq<Seq<char>> {
        prefixes_of(self@)
    }

    fn prefixes(&self) -> (out: Vec<String>) {
        let mut out: Vec<String> = Vec::new();
        let mut i: usize = 0;
        while i < self.entries.len()
            invariant
                i <= self.entries.len(),
                texts(out@) == longest_first(prefixes_of(self@).take(i as int)),
            decreases self.entries.len() - i,
        {
            let ghost seen = prefixes_of(self@).take(i as int);
            let ghost next = prefixes_of(self@).take(i + 1);
            assert(next.drop_last() == seen);
            assert(next.last() == self.entries@[i as int].prefix@);
            let prefix = self.entries[i].prefix.clone();
            let n = prefix.as_str().unicode_len();
            let ghost sorted = texts(out@);
            let mut k: usize = 0;
            assert(sorted.skip(0) == sorted);
            while k < out.len() && out[k].as_str().unicode_len() >= n
                invariant
                    k <= out.len(),
                    sorted == texts(out@),
                    slot(sorted, n as nat) == k + slot(sorted.skip(k as int), n as nat),
                decreases out.len() - k,
            {
                assert(sorted.skip(k as int).skip(1) == sorted.skip(k + 1));
                assert(sorted.skip(k as int)[0] == sorted[k as int]);
                k += 1;
            }
            assert(slot(sorted.skip(k as int), n as nat) == 0) by {
                if k < out.len() {
                    assert(sorted.skip(k as int)[0] == sorted[k as int]);
                }
            }
            out.insert(k, prefix);
            assert(texts(out@) == sorted.insert(k as int, prefix@));
            i += 1;
        }
        assert(prefixes_of(self@).take(self.entries@.len() as int) == prefixes_of(self@));
        out
    }
}

impl AliasTable {
    #[verifier::type_invariant]
    spec fn well_formed(&self) -> bool {
        distinct_prefixes(aliases_of(self.entries@))
    }

    /// A table without aliases.
    pub fn new() -> (table: AliasTable)
        ensures
            table@.len() == 0,
    {
        AliasTable { entries: Vec::new() }
    }

    fn find(&self, prefix: &str) -> (found: Option<usize>)
        ensures
            found matches Some(i) ==> i < self.entries.len(),
            match found {
                Some(i) => position(self@, prefix@) == Some(i as int),
                None => position(self@, prefix@) is None,
            },
    {
        let wanted = to_chars(prefix);
        let mut i: usize = 0;
        while i < self.entries.len()
            invariant
                i <= self.entries.len(),
                wanted@ == prefix@,
                forall|j: int| 0 <= j < i ==> (#[trigger] self@[j]).0 != prefix@,
            decreases self.entries.len() - i,
        {
            let have = to_chars(self.entries[i].prefix.as_str());
            if crate::text::same_chars(&have, &wanted) {
                proof {
                    lemma_position(self@, prefix@);
                    assert(self@[i as int].0 == prefix@);
                }
                return Some(i);
            }
            i += 1;
        }
        proof {
            lemma_position(self@, prefix@);
        }
        None
    }

    /// Registers `roots` for `prefix`. A prefix that is registered already
    /// keeps its place and takes the new roots.
    pub fn insert(&mut self, prefix: String, roots: Vec<String>)
        ensures
            match position(old(self)@, prefix@) {
                Some(i) => final(self)@ == old(self)@.update(i, (prefix@, texts(roots@))),
                None => final(self)@ == old(self)@.push((prefix@, texts(roots@))),
            },
            distinct_prefixes(final(self)@),
    {
        proof {
            use_type_invariant(&*self);
        }
        let ghost before = self@;
        let found = self.find(prefix.as_str());
        let ghost entry = (prefix@, texts(roots@));
        let mut entries: Vec<AliasEntry> = Vec::new();
        core::mem::swap(&mut entries, &mut self.entries);
        match found {
            Some(i) => {
                entries.set(i, AliasEntry { prefix, roots });
                assert(aliases_of(entries@) == before.update(i as int, entry));
                assert(distinct_prefixes(before.update(i as int, entry))) by {
                    lemma_position(before, entry.0);
                }
            },
            None => {
                entries.push(AliasEntry { prefix, roots });
                assert(aliases_of(entries@) == before.push(entry));
                assert(distinct_prefixes(before.push(entry))) by {
                    lemma_position(before, entry.0);
                }
            },
        }
        self.entries = entries;
    }

    /// The roots registered for `prefix`, if it is registered.
    pub fn get(&self, prefix: &str) -> (roots: Option<&Vec<String>>)
        ensures
            roots is Some <==> position(self@, prefix@) is Some,
            roots matches Some(r) ==> texts(r@) == roots_of(self@, prefix@),
            distinct_prefixes(self@),
    {
        proof {
            use_type_invariant(self);
        }
        match self.find(prefix) {
            Some(i) => Some(&self.entries[i].roots),
            None => None,
        }
    }
}

impl AliasTable {
    /// The registered prefix under which `specifier` is resolved, if any
    /// begins it: the longest that does.
    pub fn matching_prefix(&self, specifier: &str) -> (prefix: Option<String>)
        ensures
            match prefix {
                Some(p) => chosen_prefix(self@, specifier@) == Some(p@),
                None => chosen_prefix(self@, specifier@) is None,
            },
    {
        let ordered = self.prefixes();
        let wanted = to_chars(specifier);
        let ghost all = texts(ordered@);
        let mut i: usize = 0;
        assert(all.skip(0) == all);
        while i < ordered.len()
            invariant
                i <= ordered.len(),
                all == texts(ordered@),
                all == longest_first(prefixes_of(self@)),
                wanted@ == specifier@,
                first_match(all, specifier@) == first_match(all.skip(i as int), specifier@),
            decreases ordered.len() - i,
        {
            assert(all.skip(i as int).skip(1) == all.skip(i + 1));
            assert(all.skip(i as int)[0] == ordered@[i as int]@);
            let have = to_chars(ordered[i].as_str());
            if starts_with(&wanted, &have) {
                let found = ordered[i].clone();
                assert(first_match(all.skip(i as int), specifier@) == Some(found@));
                return Some(found);
            }
            i += 1;
        }
        None
    }

    /// Resolves an aliased import specifier to the path it stands for.
    ///
    /// The longest registered prefix that begins the specifier decides. With
    /// one root the result is that root joined with the rest of the
    /// specifier, whether or not such a file exists. With several roots the
    /// result is the first candidate, in registration order, that `files`
    /// holds; there is none where no prefix matches or no candidate exists.
    pub fn resolve(&self, specifier: &str, files: &SourceTree) -> (path: Option<String>)
        ensures
            match path {
                Some(p) => resolved(self@, specifier@, *files) == Some(p@),
                None => resolved(self@, specifier@, *files) is None,
            },
    {
        let prefix = match self.matching_prefix(specifier) {
            Some(p) => p,
            None => {
                return None;
            },
        };
        proof {
            lemma_first_match(longest_first(prefixes_of(self@)), specifier@);
        }
        let roots: &Vec<String> = match self.get(prefix.as_str()) {
            Some(r) => r,
            None => {
                proof {
                    let ordered = longest_first(prefixes_of(self@));
                    let k = choose|k: int| 0 <= k < ordered.len() && ordered[k] == prefix@;
                    assert(ordered.contains(prefix@));
                    lemma_longest_first(prefixes_of(self@));
                    lemma_position(self@, prefix@);
                    assert(prefixes_of(self@).contains(prefix@));
                    let at = choose|i: int|
                        0 <= i < prefixes_of(self@).len() && prefixes_of(self@)[i] == prefix@;
                    assert(self@[at].0 == prefix@);
                    assert(false);
                }
                return None;
            },
        };
        let whole = to_chars(specifier);
        let cut = prefix.as_str().unicode_len();
        let remainder = skip_chars(&whole, cut);
        let ghost all = texts(roots@);
        if roots.len() == 1 {
            let root = to_chars(roots[0].as_str());
            assert(all[0] == roots@[0]@);
            return Some(from_chars(&push_path(&root, &remainder)));
        }
        let mut i: usize = 0;
        assert(all.skip(0) == all);
        while i < roots.len()
            invariant
                i <= roots.len(),
                all == texts(roots@),
                resolved(self@, specifier@, *files) == first_existing(all, remainder@, *files),
                first_existing(all, remainder@, *files) == first_existing(
                    all.skip(i as int),
                    remainder@,
                    *files,
                ),
            decreases roots.len() - i,
        {
            assert(all.skip(i as int).skip(1) == all.skip(i + 1));
            assert(all.skip(i as int)[0] == roots@[i as int]@);
            let root = to_chars(roots[i].as_str());
            let mut name: Vec<char> = Vec::new();
            name.push('.');
            append_chars(&mut name, &remainder);
            name.push('.');
            name.push('j');
            name.push('s');
            assert(name@ == seq!['.'] + remainder@ + seq!['.', 'j', 's']);
            let found = from_chars(&push_path(&root, &name));
            if files.is_file(found.as_str()) {
                return Some(found);
            }
            i += 1;
        }
        None
    }
}

/// The marker that ends a key or a root in the configuration file and is
/// no part of the prefix or directory: `/*`.
pub open spec fn wildcard() -> Seq<char> {
    seq!['/', '*']
}

/// The aliases after `entry` is registered: a prefix that is there
/// already keeps its place and takes the new roots.
pub open spec fn inserted(aliases: Aliases, entry: (Seq<char>, Seq<Seq<char>>)) -> Aliases {
    match position(aliases, entry.0) {
        Some(i) => aliases.update(i, entry),
        None => aliases.push(entry),
    }
}

/// The roots as the table holds them: each without a trailing `/*`.
pub open spec fn stripped_roots(roots: Seq<Seq<char>>) -> Seq<Seq<char>> {
    Seq::new(roots.len(), |i: int| without_suffix(roots[i], wildcard()))
}

/// The aliases that a list of configured paths gives: each key and each
/// root without a trailing `/*`, registered in order.
pub open spec fn configured(paths: Seq<(Seq<char>, Seq<Seq<char>>)>) -> Aliases
    decreases paths.len(),
{
    if paths.len() == 0 {
        Seq::empty()
    } else {
        inserted(
            configured(paths.drop_last()),
            (without_suffix(paths.last().0, wildcard()), stripped_roots(paths.last().1)),
        )
    }
}

/// The `paths` of the compiler options: each key with the directories it
/// may stand for, as the file lists them.
pub struct CompilerOptions {
    pub paths: Option<Vec<(String, Vec<String>)>>,
}

/// What is read of the project's TypeScript configuration.
pub struct TsConfig {
    pub compiler_options: CompilerOptions,
}

/// The configured paths as plain values.
pub open spec fn paths_of(paths: Seq<(String, Vec<String>)>) -> Seq<(Seq<char>, Seq<Seq<char>>)> {
    Seq::new(paths.len(), |i: int| (paths[i].0@, texts(paths[i].1@)))
}

fn strip_wildcard(text: &str) -> (out: String)
    ensures
        out@ == without_suffix(text@, wildcard()),
{
    let mut suffix: Vec<char> = Vec::new();
    suffix.push('/');
    suffix.push('*');
    assert(suffix@ == wildcard());
    from_chars(&strip_suffix_chars(&to_chars(text), &suffix))
}

impl TsConfig {
    /// The paths the configuration lists; none where it has no `paths`.
    pub open spec fn listed(&self) -> Seq<(Seq<char>, Seq<Seq<char>>)> {
        match self.compiler_options.paths {
            Some(paths) => paths_of(paths@),
            None => Seq::empty(),
        }
    }

    /// The alias table that the configuration describes.
    pub fn aliases(&self) -> (table: AliasTable)
        ensures
            table@ == configured(self.listed()),
    {
        let mut table = AliasTable::new();
        assert(table@ == configured(Seq::empty()));
        let paths = match &self.compiler_options.paths {
            Some(paths) => paths,
            None => {
                return table;
            },
        };
        let ghost all = paths_of(paths@);
        let mut i: usize = 0;
        assert(all.take(0) == Seq::<(Seq<char>, Seq<Seq<char>>)>::empty());
        while i < paths.len()
            invariant
                i <= paths.len(),
                all == paths_of(paths@),
                table@ == configured(all.take(i as int)),
            decreases paths.len() - i,
        {
            assert(all.take(i + 1).drop_last() == all.take(i as int));
            assert(all.take(i + 1).last() == all[i as int]);
            let key = strip_wildcard(paths[i].0.as_str());
            let listed = &paths[i].1;
            let mut roots: Vec<String> = Vec::new();
            let mut j: usize = 0;
            while j < listed.len()
                invariant
                    j <= listed.len(),
                    texts(roots@) == stripped_roots(texts(listed@)).take(j as int),
                decreases listed.len() - j,
            {
                let root = strip_wildcard(listed[j].as_str());
                let ghost before = texts(roots@);
                roots.push(root);
                assert(texts(roots@) == before.push(root@));
                j += 1;
            }
            assert(stripped_roots(texts(listed@)).take(listed@.len() as int) == stripped_roots(
                texts(listed@),
            ));
            table.insert(key, roots);
            i += 1;
        }
        assert(all.take(paths@.len() as int) == all);
        table
    }
}

} // verus!
