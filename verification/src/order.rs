//! The ordering rule shared by the resolver and the load-order pass: an
//! item that is named again moves to the end of the list.

use crate::text::texts;
use vstd::prelude::*;

verus! {

/// `list` without any occurrence of `item`; the rest keeps its order.
pub open spec fn without(list: Seq<Seq<char>>, item: Seq<char>) -> Seq<Seq<char>>
    decreases list.len(),
{
    if list.len() == 0 {
        Seq::empty()
    } else if list.last() == item {
        without(list.drop_last(), item)
    } else {
        without(list.drop_last(), item).push(list.last())
    }
}

/// `list` with `item` at its end and nowhere else.
pub open spec fn reposition(list: Seq<Seq<char>>, item: Seq<char>) -> Seq<Seq<char>> {
    without(list, item).push(item)
}

/// `list` after every item of `more`, first to last, has been moved or
/// added to its end.
pub open spec fn merged(list: Seq<Seq<char>>, more: Seq<Seq<char>>) -> Seq<Seq<char>>
    decreases more.len(),
{
    if more.len() == 0 {
        list
    } else {
        reposition(merged(list, more.drop_last()), more.last())
    }
}

/// Removing an item removes exactly that item: everything else stays, in
/// the order it had, and a list without repetition stays so.
pub proof fn lemma_without(list: Seq<Seq<char>>, item: Seq<char>)
    ensures
        !without(list, item).contains(item),
        without(list, item).len() <= list.len(),
        forall|x: Seq<char>| x != item ==> (without(list, item).contains(x) <==> list.contains(x)),
        list.no_duplicates() ==> without(list, item).no_duplicates(),
        !list.contains(item) ==> without(list, item) == list,
    decreases list.len(),
{
    if list.len() == 0 {
    } else {
        let shorter = list.drop_last();
        let kept = without(shorter, item);
        lemma_without(shorter, item);
        assert(list == shorter.push(list.last()));
        assert forall|x: Seq<char>| x != item implies (without(list, item).contains(x)
            <==> list.contains(x)) by {
            if list.contains(x) {
                let i = choose|i: int| 0 <= i < list.len() && list[i] == x;
                if i < shorter.len() {
                    assert(shorter[i] == x);
                    assert(shorter.contains(x));
                    assert(kept.contains(x));
                    let j = choose|j: int| 0 <= j < kept.len() && kept[j] == x;
                    assert(without(list, item)[j] == x);
                } else {
                    assert(list.last() == x);
                    assert(without(list, item).last() == x);
                }
            }
            if without(list, item).contains(x) {
                let j = choose|j: int|
                    0 <= j < without(list, item).len() && without(list, item)[j] == x;
                if j < kept.len() {
                    assert(kept[j] == x);
                    assert(kept.contains(x));
                    assert(shorter.contains(x));
                    let i = choose|i: int| 0 <= i < shorter.len() && shorter[i] == x;
                    assert(list[i] == x);
                } else {
                    assert(list[list.len() - 1] == x);
                }
            }
        }
        if list.last() != item {
            assert(!without(list, item).contains(item)) by {
                if without(list, item).contains(item) {
                    let j = choose|j: int|
                        0 <= j < without(list, item).len() && without(list, item)[j] == item;
                    if j < kept.len() {
                        assert(kept[j] == item);
                        assert(kept.contains(item));
                    }
                }
            }
        }
        if list.no_duplicates() {
            assert(shorter.no_duplicates());
            if list.last() != item {
                let last = list.last();
                assert(!kept.contains(last)) by {
                    if kept.contains(last) {
                        assert(shorter.contains(last));
                        let i = choose|i: int| 0 <= i < shorter.len() && shorter[i] == last;
                        assert(list[i] == list[list.len() - 1]);
                    }
                }
                assert forall|i: int, j: int|
                    0 <= i < kept.len() + 1 && 0 <= j < kept.len() + 1 && i != j implies kept.push(
                    last,
                )[i] != kept.push(last)[j] by {
                    if i < kept.len() && j < kept.len() {
                    } else if i < kept.len() {
                        assert(kept.contains(kept[i]));
                    } else {
                        assert(kept.contains(kept[j]));
                    }
                }
            }
        }
        if !list.contains(item) {
            assert(!shorter.contains(item)) by {
                if shorter.contains(item) {
                    let i = choose|i: int| 0 <= i < shorter.len() && shorter[i] == item;
                    assert(list[i] == item);
                }
            }
            assert(list.last() != item) by {
                if list.last() == item {
                    assert(list[list.len() - 1] == item);
                }
            }
        }
    }
}

/// After repositioning, the item stands last and once; every other item of
/// the list is still there; a list without repetition stays so.
pub proof fn lemma_reposition(list: Seq<Seq<char>>, item: Seq<char>)
    ensures
        reposition(list, item).last() == item,
        forall|x: Seq<char>| reposition(list, item).contains(x) <==> (x == item || list.contains(x)),
        list.no_duplicates() ==> reposition(list, item).no_duplicates(),
{
    lemma_without(list, item);
    let kept = without(list, item);
    let now = kept.push(item);
    assert forall|x: Seq<char>| now.contains(x) <==> (x == item || list.contains(x)) by {
        if now.contains(x) {
            let j = choose|j: int| 0 <= j < now.len() && now[j] == x;
            if j < kept.len() {
                assert(kept[j] == x);
                assert(kept.contains(x));
            }
        }
        if x == item {
            assert(now[now.len() - 1] == x);
        } else if list.contains(x) {
            assert(kept.contains(x));
            let j = choose|j: int| 0 <= j < kept.len() && kept[j] == x;
            assert(now[j] == x);
        }
    }
    if list.no_duplicates() {
        assert forall|i: int, j: int|
            0 <= i < now.len() && 0 <= j < now.len() && i != j implies now[i] != now[j] by {
            if i < kept.len() && j < kept.len() {
            } else if i < kept.len() {
                assert(kept.contains(kept[i]));
            } else {
                assert(kept.contains(kept[j]));
            }
        }
    }
}

/// Merging keeps every item of both lists and adds no other; a list
/// without repetition stays so.
pub proof fn lemma_merged(list: Seq<Seq<char>>, more: Seq<Seq<char>>)
    ensures
        forall|x: Seq<char>| merged(list, more).contains(x) <==> (list.contains(x) || more.contains(x)),
        list.no_duplicates() ==> merged(list, more).no_duplicates(),
    decreases more.len(),
{
    if more.len() == 0 {
    } else {
        let shorter = more.drop_last();
        lemma_merged(list, shorter);
        lemma_reposition(merged(list, shorter), more.last());
        assert forall|x: Seq<char>| merged(list, more).contains(x) <==> (list.contains(x)
            || more.contains(x)) by {
            if more.contains(x) {
                let i = choose|i: int| 0 <= i < more.len() && more[i] == x;
                if i < shorter.len() {
                    assert(shorter[i] == x);
                    assert(shorter.contains(x));
                }
            }
            if shorter.contains(x) {
                let i = choose|i: int| 0 <= i < shorter.len() && shorter[i] == x;
                assert(more[i] == x);
            }
            if x == more.last() {
                assert(more[more.len() - 1] == x);
            }
        }
    }
}

/// `list` without any occurrence of any item of `items`.
pub open spec fn without_all(list: Seq<Seq<char>>, items: Seq<Seq<char>>) -> Seq<Seq<char>>
    decreases items.len(),
{
    if items.len() == 0 {
        list
    } else {
        without(without_all(list, items.drop_last()), items.last())
    }
}

/// Removing an item from two lists in a row is removing it from each.
pub proof fn lemma_without_concat(front: Seq<Seq<char>>, back: Seq<Seq<char>>, item: Seq<char>)
    ensures
        without(front + back, item) == without(front, item) + without(back, item),
    decreases back.len(),
{
    if back.len() == 0 {
        assert(front + back == front);
        assert(without(front, item) + without(back, item) == without(front, item));
    } else {
        let shorter = back.drop_last();
        lemma_without_concat(front, shorter, item);
        assert((front + back).drop_last() == front + shorter);
        assert((front + back).last() == back.last());
        if back.last() != item {
            assert((without(front, item) + without(shorter, item)).push(back.last()) == without(
                front,
                item,
            ) + without(shorter, item).push(back.last()));
        }
    }
}

/// Whether `first` stands somewhere before `second` in `list`.
pub open spec fn comes_before(list: Seq<Seq<char>>, first: Seq<char>, second: Seq<char>) -> bool {
    exists|i: int, j: int| 0 <= i < j < list.len() && list[i] == first && list[j] == second
}

/// Removing an item leaves the others in the order they had.
pub proof fn lemma_without_keeps_order(
    list: Seq<Seq<char>>,
    item: Seq<char>,
    first: Seq<char>,
    second: Seq<char>,
)
    requires
        comes_before(list, first, second),
        first != item,
        second != item,
    ensures
        comes_before(without(list, item), first, second),
    decreases list.len(),
{
    let (i, j) = choose|i: int, j: int|
        0 <= i < j < list.len() && list[i] == first && list[j] == second;
    let shorter = list.drop_last();
    let kept = without(shorter, item);
    if j < list.len() - 1 {
        assert(shorter[i] == first && shorter[j] == second);
        lemma_without_keeps_order(shorter, item, first, second);
        let (a, b) = choose|a: int, b: int|
            0 <= a < b < kept.len() && kept[a] == first && kept[b] == second;
        assert(without(list, item)[a] == first && without(list, item)[b] == second);
    } else {
        assert(list.last() == second);
        lemma_without(shorter, item);
        assert(shorter[i] == first);
        assert(shorter.contains(first));
        assert(kept.contains(first));
        let a = choose|a: int| 0 <= a < kept.len() && kept[a] == first;
        let now = kept.push(second);
        assert(now[a] == first && now[kept.len() as int] == second);
    }
}

/// Whether `list` holds `item`.
pub fn holds(list: &Vec<String>, item: &String) -> (yes: bool)
    ensures
        yes == texts(list@).contains(item@),
{
    let mut i: usize = 0;
    while i < list.len()
        invariant
            i <= list.len(),
            forall|j: int| 0 <= j < i ==> texts(list@)[j] != item@,
        decreases list.len() - i,
    {
        if list[i] == *item {
            assert(texts(list@)[i as int] == item@);
            return true;
        }
        i += 1;
    }
    false
}

/// Takes every occurrence of `item` out of `list`.
pub fn remove_all(list: &mut Vec<String>, item: &String)
    ensures
        texts(final(list)@) == without(texts(old(list)@), item@),
{
    let mut kept: Vec<String> = Vec::new();
    let ghost all = texts(list@);
    let mut i: usize = 0;
    while i < list.len()
        invariant
            i <= list.len(),
            all == texts(list@),
            texts(kept@) == without(all.take(i as int), item@),
        decreases list.len() - i,
    {
        assert(all.take(i + 1).drop_last() == all.take(i as int));
        assert(all.take(i + 1).last() == all[i as int]);
        let ghost before = texts(kept@);
        if list[i] != *item {
            kept.push(list[i].clone());
            assert(texts(kept@) == before.push(all[i as int]));
        }
        i += 1;
    }
    assert(all.take(list@.len() as int) == all);
    *list = kept;
}

/// The items of `list`, last to first.
pub fn reversed(list: &Vec<String>) -> (out: Vec<String>)
    ensures
        texts(out@) == texts(list@).reverse(),
{
    let mut out: Vec<String> = Vec::new();
    let mut i: usize = list.len();
    while i > 0
        invariant
            i <= list.len(),
            out.len() == list.len() - i,
            forall|k: int| 0 <= k < out.len() ==> out@[k]@ == list@[list.len() - 1 - k]@,
        decreases i,
    {
        out.push(list[i - 1].clone());
        i -= 1;
    }
    assert(texts(out@) == texts(list@).reverse());
    out
}

/// Moves `item` to the end of `list`, or adds it there.
pub fn move_to_end(list: &mut Vec<String>, item: String)
    ensures
        texts(final(list)@) == reposition(texts(old(list)@), item@),
{
    let mut kept: Vec<String> = Vec::new();
    let ghost all = texts(list@);
    let mut i: usize = 0;
    while i < list.len()
        invariant
            i <= list.len(),
            all == texts(list@),
            texts(kept@) == without(all.take(i as int), item@),
        decreases list.len() - i,
    {
        assert(all.take(i + 1).drop_last() == all.take(i as int));
        assert(all.take(i + 1).last() == all[i as int]);
        let ghost before = texts(kept@);
        if list[i] != item {
            kept.push(list[i].clone());
            assert(texts(kept@) == before.push(all[i as int]));
        }
        i += 1;
    }
    assert(all.take(list@.len() as int) == all);
    let ghost before = texts(kept@);
    kept.push(item);
    assert(texts(kept@) == before.push(item@));
    *list = kept;
}

/// Moves or adds every item of `more`, first to last, to the end of `list`.
pub fn merge_into(list: &mut Vec<String>, more: &Vec<String>)
    ensures
        texts(final(list)@) == merged(texts(old(list)@), texts(more@)),
{
    let ghost all = texts(more@);
    let mut i: usize = 0;
    while i < more.len()
        invariant
            i <= more.len(),
            all == texts(more@),
            texts(list@) == merged(texts(old(list)@), all.take(i as int)),
        decreases more.len() - i,
    {
        assert(all.take(i + 1).drop_last() == all.take(i as int));
        assert(all.take(i + 1).last() == all[i as int]);
        move_to_end(list, more[i].clone());
        i += 1;
    }
    assert(all.take(more@.len() as int) == all);
}

} // verus!
