//! The meta tags of a page, and how a site's own tags are laid over them.

use crate::text::{same_chars, to_chars};
use vstd::prelude::*;

verus! {

/// What a list of tags says: of two values for one name the later stands.
pub open spec fn tags_of(entries: Seq<(String, String)>) -> Map<Seq<char>, Seq<char>>
    decreases entries.len(),
{
    if entries.len() == 0 {
        Map::empty()
    } else {
        tags_of(entries.drop_last()).insert(entries.last().0@, entries.last().1@)
    }
}

/// The place of the last entry for `name`.
pub open spec fn last_entry(entries: Seq<(String, String)>, name: Seq<char>) -> Option<int>
    decreases entries.len(),
{
    if entries.len() == 0 {
        None
    } else if entries.last().0@ == name {
        Some(entries.len() - 1)
    } else {
        last_entry(entries.drop_last(), name)
    }
}

/// A name has a value exactly when it has an entry, and then the value of
/// its last entry.
pub proof fn lemma_tags_lookup(entries: Seq<(String, String)>, name: Seq<char>)
    ensures
        tags_of(entries).contains_key(name) <==> last_entry(entries, name) is Some,
        last_entry(entries, name) matches Some(i) ==> 0 <= i < entries.len() && tags_of(
            entries,
        )[name] == entries[i].1@,
    decreases entries.len(),
{
    if entries.len() > 0 {
        lemma_tags_lookup(entries.drop_last(), name);
    }
}

/// Whether one of the first `upto` entries has the name `name`.
pub open spec fn named_before(entries: Seq<(String, String)>, upto: int, name: Seq<char>) -> bool {
    exists|k: int| 0 <= k < upto && k < entries.len() && (#[trigger] entries[k]).0@ == name
}

/// Whether `tags` is right about `name` once the forced tags are in and
/// the first `upto` default entries have filled in: the name has a value
/// exactly if it is forced or one of those entries names it; a forced name
/// has its forced value, any other its default value.
pub open spec fn filled(
    tags: Map<Seq<char>, Seq<char>>,
    forced: Map<Seq<char>, Seq<char>>,
    default: Map<Seq<char>, Seq<char>>,
    entries: Seq<(String, String)>,
    upto: int,
    name: Seq<char>,
) -> bool {
    &&& tags.contains_key(name) <==> forced.contains_key(name) || named_before(entries, upto, name)
    &&& forced.contains_key(name) ==> tags[name] == forced[name]
    &&& tags.contains_key(name) && !forced.contains_key(name) ==> default.contains_key(name)
        && tags[name] == default[name]
}

/// Meta tags: names with their values.
pub struct Tags {
    entries: Vec<(String, String)>,
}

impl View for Tags {
    type V = Map<Seq<char>, Seq<char>>;

    closed spec fn view(&self) -> Map<Seq<char>, Seq<char>> {
        tags_of(self.entries@)
    }
}

/// The tags that are sent: every forced tag; of the page's tags those that
/// no forced tag replaces; of the default tags those whose name neither
/// the page nor the forced tags have.
pub open spec fn laid_over(
    page: Map<Seq<char>, Seq<char>>,
    force: Map<Seq<char>, Seq<char>>,
    default: Map<Seq<char>, Seq<char>>,
) -> Map<Seq<char>, Seq<char>> {
    Map::new(
        |name: Seq<char>|
            force.contains_key(name) || page.contains_key(name) || default.contains_key(name),
        |name: Seq<char>|
            if force.contains_key(name) {
                force[name]
            } else if page.contains_key(name) {
                page[name]
            } else {
                default[name]
            },
    )
}

impl Tags {
    /// No tags.
    pub fn new() -> (tags: Tags)
        ensures
            tags@ == Map::<Seq<char>, Seq<char>>::empty(),
    {
        Tags { entries: Vec::new() }
    }

    /// Gives `name` the value `value`, in place of any it had.
    pub fn insert(&mut self, name: String, value: String)
        ensures
            final(self)@ == old(self)@.insert(name@, value@),
    {
        let ghost before = self.entries@;
        self.entries.push((name, value));
        assert(self.entries@.drop_last() == before);
    }

    /// The value of `name`, if it has one.
    pub fn get(&self, name: &str) -> (value: Option<&String>)
        ensures
            match value {
                Some(v) => self@.contains_key(name@) && self@[name@] == v@,
                None => !self@.contains_key(name@),
            },
    {
        let wanted = to_chars(name);
        let mut i: usize = self.entries.len();
        assert(self.entries@.take(i as int) == self.entries@);
        while i > 0
            invariant
                i <= self.entries.len(),
                wanted@ == name@,
                last_entry(self.entries@, name@) == last_entry(self.entries@.take(i as int), name@),
            decreases i,
        {
            let ghost seen = self.entries@.take(i as int);
            assert(seen.drop_last() == self.entries@.take(i - 1));
            assert(seen.last() == self.entries@[i - 1]);
            if same_chars(&to_chars(self.entries[i - 1].0.as_str()), &wanted) {
                proof {
                    lemma_tags_lookup(self.entries@, name@);
                }
                return Some(&self.entries[i - 1].1);
            }
            i -= 1;
        }
        proof {
            lemma_tags_lookup(self.entries@, name@);
        }
        None
    }

    /// The names that have a value, each once.
    pub fn names(&self) -> (out: Vec<String>)
        ensures
            crate::text::texts(out@).no_duplicates(),
            forall|name: Seq<char>|
                crate::text::texts(out@).contains(name) <==> self@.contains_key(name),
    {
        let mut out: Vec<String> = Vec::new();
        let mut i: usize = 0;
        while i < self.entries.len()
            invariant
                i <= self.entries.len(),
                crate::text::texts(out@).no_duplicates(),
                forall|name: Seq<char>|
                    crate::text::texts(out@).contains(name) <==> named_before(
                        self.entries@,
                        i as int,
                        name,
                    ),
            decreases self.entries.len() - i,
        {
            let name = &self.entries[i].0;
            let ghost before = crate::text::texts(out@);
            if !crate::order::holds(&out, name) {
                out.push(name.clone());
                assert(crate::text::texts(out@) == before.push(name@));
                assert(before.push(name@).no_duplicates()) by {
                    assert forall|a: int, b: int|
                        0 <= a < before.len() + 1 && 0 <= b < before.len() + 1 && a
                            != b implies before.push(name@)[a] != before.push(name@)[b] by {
                        if a < before.len() && b < before.len() {
                        } else if a < before.len() {
                            assert(before.contains(before[a]));
                        } else {
                            assert(before.contains(before[b]));
                        }
                    }
                }
            }
            let ghost now = crate::text::texts(out@);
            assert forall|other: Seq<char>|
                now.contains(other) <==> named_before(self.entries@, i + 1, other) by {
                assert(now.contains(other) <==> before.contains(other) || other == name@) by {
                    if now.contains(other) {
                        let a = choose|a: int| 0 <= a < now.len() && now[a] == other;
                        if a < before.len() {
                            assert(before[a] == other);
                        }
                    }
                    if before.contains(other) {
                        let a = choose|a: int| 0 <= a < before.len() && before[a] == other;
                        assert(now[a] == other);
                    }
                    if other == name@ && !before.contains(other) {
                        assert(now[now.len() - 1] == other);
                    }
                }
                if named_before(self.entries@, i + 1, other) {
                    let k = choose|k: int|
                        0 <= k < i + 1 && k < self.entries@.len() && (
                        #[trigger] self.entries@[k]).0@ == other;
                    if k < i {
                        assert(named_before(self.entries@, i as int, other));
                    }
                }
                if named_before(self.entries@, i as int, other) {
                    let k = choose|k: int|
                        0 <= k < i && k < self.entries@.len() && (#[trigger] self.entries@[k]).0@
                            == other;
                    assert(0 <= k < i + 1);
                }
                if other == name@ {
                    assert(self.entries@[i as int].0@ == other);
                }
            }
            i += 1;
        }
        proof {
            assert forall|name: Seq<char>|
                crate::text::texts(out@).contains(name) <==> self@.contains_key(name) by {
                lemma_tags_lookup(self.entries@, name);
                lemma_last_entry_is_last(self.entries@, name);
                if self@.contains_key(name) {
                    let k = last_entry(self.entries@, name)->0;
                    assert(self.entries@[k].0@ == name);
                }
            }
        }
        out
    }

    /// Whether `name` has a value.
    pub fn contains_key(&self, name: &str) -> (yes: bool)
        ensures
            yes == self@.contains_key(name@),
    {
        self.get(name).is_some()
    }

    /// Lays the site's tags over those of a page: the forced tags replace
    /// the page's, the default tags fill in where a name is still missing.
    /// A page without tags is taken as one with none.
    pub fn merge(page: Option<Tags>, force: &Tags, default: &Tags) -> (tags: Tags)
        ensures
            tags@ == laid_over(
                match page {
                    Some(own) => own@,
                    None => Map::empty(),
                },
                force@,
                default@,
            ),
    {
        let mut tags = match page {
            Some(own) => own,
            None => Tags::new(),
        };
        let ghost start = tags@;
        let mut i: usize = 0;
        while i < force.entries.len()
            invariant
                i <= force.entries.len(),
                tags@ == start.union_prefer_right(tags_of(force.entries@.take(i as int))),
            decreases force.entries.len() - i,
        {
            let ghost seen = force.entries@.take(i as int);
            let ghost next = force.entries@.take(i + 1);
            assert(next.drop_last() == seen);
            assert(next.last() == force.entries@[i as int]);
            let ghost before = tags@;
            tags.insert(force.entries[i].0.clone(), force.entries[i].1.clone());
            assert(tags@ == start.union_prefer_right(tags_of(next)));
            i += 1;
        }
        assert(force.entries@.take(force.entries@.len() as int) == force.entries@);
        let ghost forced = tags@;
        let mut j: usize = 0;
        while j < default.entries.len()
            invariant
                j <= default.entries.len(),
                forall|name: Seq<char>| #[trigger]
                    filled(tags@, forced, default@, default.entries@, j as int, name),
            decreases default.entries.len() - j,
        {
            let name = &default.entries[j].0;
            let ghost before = tags@;
            if !tags.contains_key(name.as_str()) {
                match default.get(name.as_str()) {
                    Some(value) => {
                        tags.insert(name.clone(), value.clone());
                    },
                    None => {
                        proof {
                            lemma_tags_lookup(default.entries@, name@);
                            lemma_last_entry_is_last(default.entries@, name@);
                            assert(false);
                        }
                    },
                }
            }
            assert forall|other: Seq<char>| #[trigger]
                filled(tags@, forced, default@, default.entries@, j + 1, other) by {
                assert(filled(before, forced, default@, default.entries@, j as int, other));
                assert(filled(before, forced, default@, default.entries@, j as int, name@));
                assert(tags@.contains_key(other) <==> before.contains_key(other) || other == name@);
                if named_before(default.entries@, j + 1, other) {
                    let k = choose|k: int|
                        0 <= k < j + 1 && k < default.entries@.len() && (
                        #[trigger] default.entries@[k]).0@ == other;
                    if k < j {
                        assert(named_before(default.entries@, j as int, other));
                    }
                }
                if named_before(default.entries@, j as int, other) {
                    let k = choose|k: int|
                        0 <= k < j && k < default.entries@.len() && (
                        #[trigger] default.entries@[k]).0@ == other;
                    assert(0 <= k < j + 1);
                }
                if other == name@ {
                    assert(default.entries@[j as int].0@ == other);
                }
            }
            j += 1;
        }
        proof {
            let laid = laid_over(start, force@, default@);
            assert(forced == start.union_prefer_right(force@));
            assert forall|name: Seq<char>|
                (#[trigger] tags@.dom().contains(name) <==> laid.dom().contains(name)) && (
                tags@.contains_key(name) ==> tags@[name] == laid[name]) by {
                assert(filled(
                    tags@,
                    forced,
                    default@,
                    default.entries@,
                    default.entries@.len() as int,
                    name,
                ));
                lemma_tags_lookup(default.entries@, name);
                lemma_last_entry_is_last(default.entries@, name);
                if default@.contains_key(name) {
                    let i = last_entry(default.entries@, name)->0;
                    assert(default.entries@[i].0@ == name);
                }
            }
            assert(tags@ =~= laid);
        }
        tags
    }
}

/// The last entry for a name has that name and no later entry has it;
/// there is none only where no entry has the name.
pub proof fn lemma_last_entry_is_last(entries: Seq<(String, String)>, name: Seq<char>)
    ensures
        match last_entry(entries, name) {
            Some(i) => 0 <= i < entries.len() && entries[i].0@ == name && forall|k: int|
                i < k < entries.len() ==> (#[trigger] entries[k]).0@ != name,
            None => forall|k: int| 0 <= k < entries.len() ==> (#[trigger] entries[k]).0@ != name,
        },
    decreases entries.len(),
{
    if entries.len() > 0 {
        lemma_last_entry_is_last(entries.drop_last(), name);
        assert forall|k: int| 0 <= k < entries.len() - 1 implies entries[k]
            == entries.drop_last()[k] by {}
    }
}

} // verus!
