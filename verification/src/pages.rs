//! The pages of a documentation and the order in which they are read.

use crate::text::texts;
use vstd::prelude::*;

verus! {

/// A page, or a directory of pages with an optional page of its own.
#[derive(Debug)]
#[allow(inconsistent_fields)]
pub enum PageOrDirectory {
    Page { title: String, page: String },
    Directory { is_ordered: bool, title: String, page: Option<String>, pages: Vec<PageOrDirectory> },
}

/// The pages of `entries`, each entry's pages after those of the entry
/// before it.
pub open spec fn pages_of(entries: Seq<PageOrDirectory>) -> Seq<Seq<char>>
    decreases entries,
{
    if entries.len() == 0 {
        Seq::empty()
    } else {
        pages_of(entries.drop_last()) + entries.last().pages()
    }
}

/// The first place at which `page` stands in `pages`.
pub open spec fn first_place(pages: Seq<Seq<char>>, page: Seq<char>) -> Option<int>
    decreases pages.len(),
{
    if pages.len() == 0 {
        None
    } else {
        match first_place(pages.drop_last(), page) {
            Some(i) => Some(i),
            None => if pages.last() == page {
                Some(pages.len() - 1)
            } else {
                None
            },
        }
    }
}

/// The pages before and after `page` in the reading order `pages`: nothing
/// before the first page, nothing after the last, and neither for a page
/// that is not among them.
pub open spec fn neighbours(pages: Seq<Seq<char>>, page: Seq<char>) -> (
    Option<Seq<char>>,
    Option<Seq<char>>,
) {
    match first_place(pages, page) {
        None => (None, None),
        Some(i) => (
            if i == 0 {
                None
            } else {
                Some(pages[i - 1])
            },
            if i + 1 < pages.len() {
                Some(pages[i + 1])
            } else {
                None
            },
        ),
    }
}

/// The first place is a place of the page, none before it is, and there is
/// none only where the page is missing.
pub proof fn lemma_first_place(pages: Seq<Seq<char>>, page: Seq<char>)
    ensures
        match first_place(pages, page) {
            Some(i) => 0 <= i < pages.len() && pages[i] == page && forall|k: int|
                0 <= k < i ==> pages[k] != page,
            None => forall|k: int| 0 <= k < pages.len() ==> pages[k] != page,
        },
    decreases pages.len(),
{
    if pages.len() > 0 {
        lemma_first_place(pages.drop_last(), page);
        assert forall|k: int| 0 <= k < pages.len() - 1 implies pages[k] == pages.drop_last()[k] by {}
    }
}

/// An optional text as plain values.
pub open spec fn text_of(text: Option<String>) -> Option<Seq<char>> {
    match text {
        Some(t) => Some(t@),
        None => None,
    }
}

impl PageOrDirectory {
    /// The pages in reading order: a page is itself; a directory is its own
    /// page, if it has one, and then the pages of its entries.
    pub open spec fn pages(self) -> Seq<Seq<char>>
        decreases self,
    {
        match self {
            PageOrDirectory::Page { page, .. } => seq![page@],
            PageOrDirectory::Directory { page, pages, .. } => (match page {
                Some(own) => seq![own@],
                None => Seq::empty(),
            }) + pages_of(pages@),
        }
    }

    /// Lists the pages in reading order.
    pub fn rec_get_pages(&self) -> (list: Vec<String>)
        ensures
            texts(list@) == self.pages(),
        decreases self,
    {
        let mut list: Vec<String> = Vec::new();
        match self {
            PageOrDirectory::Page { page, .. } => {
                list.push(page.clone());
                assert(texts(list@) == seq![page@]);
            },
            PageOrDirectory::Directory { page, pages, .. } => {
                match page {
                    Some(own) => {
                        list.push(own.clone());
                        assert(texts(list@) == seq![own@]);
                    },
                    None => {
                        assert(texts(list@) == Seq::<Seq<char>>::empty());
                    },
                }
                let ghost head = texts(list@);
                let mut i: usize = 0;
                assert(pages@.take(0) == Seq::<PageOrDirectory>::empty());
                assert(head + pages_of(pages@.take(0)) == head);
                while i < pages.len()
                    invariant
                        i <= pages.len(),
                        self is Directory,
                        self->pages == *pages,
                        texts(list@) == head + pages_of(pages@.take(i as int)),
                    decreases pages.len() - i,
                {
                    proof {
                        vstd::std_specs::vec::axiom_vec_index_decreases(*pages, i as int);
                    }
                    assert(pages@.take(i + 1).drop_last() == pages@.take(i as int));
                    assert(pages@.take(i + 1).last() == pages@[i as int]);
                    let below = pages[i].rec_get_pages();
                    let ghost before = texts(list@);
                    let mut k: usize = 0;
                    while k < below.len()
                        invariant
                            k <= below.len(),
                            texts(list@) == before + texts(below@).take(k as int),
                        decreases below.len() - k,
                    {
                        let ghost had = texts(list@);
                        list.push(below[k].clone());
                        assert(texts(list@) == had.push(texts(below@)[k as int]));
                        assert(texts(below@).take(k + 1) == texts(below@).take(k as int).push(
                            texts(below@)[k as int],
                        ));
                        k += 1;
                    }
                    assert(texts(below@).take(below@.len() as int) == texts(below@));
                    assert(head + pages_of(pages@.take(i as int)) + pages@[i as int].pages() == head
                        + (pages_of(pages@.take(i as int)) + pages@[i as int].pages()));
                    i += 1;
                }
                assert(pages@.take(pages@.len() as int) == pages@);
            },
        }
        list
    }

    /// The pages that are read before and after `page`. A structure that is
    /// a single page has no neighbours.
    pub fn get_nearest_pages(&self, page: &str) -> (near: (Option<String>, Option<String>))
        ensures
            self is Directory ==> (text_of(near.0), text_of(near.1)) == neighbours(
                self.pages(),
                page@,
            ),
            self is Page ==> near.0 is None && near.1 is None,
    {
        match self {
            PageOrDirectory::Page { .. } => (None, None),
            PageOrDirectory::Directory { .. } => {
                let list = self.rec_get_pages();
                let wanted = crate::text::to_chars(page);
                let mut i: usize = 0;
                while i < list.len()
                    invariant
                        i <= list.len(),
                        wanted@ == page@,
                        texts(list@) == self.pages(),
                        forall|k: int| 0 <= k < i ==> texts(list@)[k] != page@,
                    decreases list.len() - i,
                {
                    if crate::text::same_chars(&crate::text::to_chars(list[i].as_str()), &wanted) {
                        proof {
                            lemma_first_place(texts(list@), page@);
                            assert(texts(list@)[i as int] == page@);
                            assert(first_place(texts(list@), page@) == Some(i as int));
                        }
                        let before = if i == 0 {
                            None
                        } else {
                            Some(list[i - 1].clone())
                        };
                        let after = if i + 1 < list.len() {
                            Some(list[i + 1].clone())
                        } else {
                            None
                        };
                        return (before, after);
                    }
                    i += 1;
                }
                proof {
                    lemma_first_place(texts(list@), page@);
                }
                (None, None)
            },
        }
    }
}

} // verus!
