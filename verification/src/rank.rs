//! Items found by a scan, largest first.
use crate::path::{is_under, FilePath};
use vstd::prelude::*;

verus! {

/// A file or folder and the bytes that it holds.
#[derive(Debug)]
pub struct ScanItem {
    pub path: FilePath,
    pub size: u64,
    pub is_dir: bool,
}

/// What a `ScanItem` says.
pub struct ItemView {
    pub path: Seq<u8>,
    pub size: nat,
    pub is_dir: bool,
}

impl View for ScanItem {
    type V = ItemView;

    open spec fn view(&self) -> ItemView {
        ItemView { path: self.path@, size: self.size as nat, is_dir: self.is_dir }
    }
}

/// What a list of items says.
pub open spec fn item_views(items: Seq<ScanItem>) -> Seq<ItemView> {
    Seq::new(items.len(), |i: int| items[i]@)
}

/// Whether all items lie at or below `base`.
pub open spec fn items_under(items: Seq<ItemView>, base: Seq<u8>) -> bool {
    forall|i: int| 0 <= i < items.len() ==> is_under((#[trigger] items[i]).path, base)
}

/// `ranking` with `item` put in behind everything at least as large.
pub open spec fn placed(ranking: Seq<ItemView>, item: ItemView) -> Seq<ItemView>
    decreases ranking.len(),
{
    if ranking.len() == 0 || ranking.last().size >= item.size {
        ranking.push(item)
    } else {
        placed(ranking.drop_last(), item).push(ranking.last())
    }
}

/// The items ordered by size, largest first; items of one size keep the order
/// that they had.
pub open spec fn ranked(items: Seq<ItemView>) -> Seq<ItemView>
    decreases items.len(),
{
    if items.len() == 0 {
        Seq::empty()
    } else {
        placed(ranked(items.drop_last()), items.last())
    }
}

/// Two rankings made one; of items of one size, those of `a` come first.
spec fn merged(a: Seq<ItemView>, b: Seq<ItemView>) -> Seq<ItemView>
    decreases a.len() + b.len(),
{
    if b.len() == 0 {
        a
    } else if a.len() == 0 {
        b
    } else if a.last().size >= b.last().size {
        merged(a, b.drop_last()).push(b.last())
    } else {
        merged(a.drop_last(), b).push(a.last())
    }
}

/// Placing an item in the second ranking places it in the merged one.
proof fn merged_with_placed(a: Seq<ItemView>, b: Seq<ItemView>, item: ItemView)
    ensures
        merged(a, placed(b, item)) == placed(merged(a, b), item),
    decreases a.len() + b.len(),
{
    if a.len() == 0 {
        assert(merged(a, b) =~= b);
        assert(merged(a, placed(b, item)) =~= placed(b, item));
    } else if b.len() == 0 {
        let front = a.drop_last();
        let one = b.push(item);
        assert(placed(b, item) == one);
        assert(one.drop_last() =~= b);
        if a.last().size >= item.size {
            assert(merged(a, one) == merged(a, b).push(item));
        } else {
            merged_with_placed(front, b, item);
            assert(merged(front, b) =~= front);
            assert(merged(a, one) == merged(front, one).push(a.last()));
        }
    } else {
        let front = a.drop_last();
        let rest = b.drop_last();
        assert(b.push(item).drop_last() =~= b);
        assert(placed(rest, item).push(b.last()).drop_last() =~= placed(rest, item));
        assert(merged(a, rest).push(b.last()).drop_last() =~= merged(a, rest));
        assert(merged(front, b).push(a.last()).drop_last() =~= merged(front, b));
        merged_with_placed(a, rest, item);
        merged_with_placed(front, b, item);
        if b.last().size >= item.size {
            assert(placed(b, item) == b.push(item));
            if a.last().size >= item.size {
                assert(merged(a, b).last().size >= item.size);
                assert(merged(a, b.push(item)) == merged(a, b).push(item));
            } else {
                assert(merged(a, b.push(item)) == merged(front, b.push(item)).push(a.last()));
                assert(merged(a, b) == merged(front, b).push(a.last()));
            }
        } else {
            let more = placed(rest, item).push(b.last());
            assert(placed(b, item) == more);
            if a.last().size >= b.last().size {
                assert(merged(a, more) == merged(a, placed(rest, item)).push(b.last()));
                assert(merged(a, b) == merged(a, rest).push(b.last()));
            } else {
                assert(merged(a, more) == merged(front, more).push(a.last()));
                assert(merged(a, b) == merged(front, b).push(a.last()));
            }
        }
    }
}

/// Ranking two halves and merging them ranks the whole.
proof fn merged_halves(a: Seq<ItemView>, b: Seq<ItemView>)
    ensures
        ranked(a + b) == merged(ranked(a), ranked(b)),
    decreases b.len(),
{
    if b.len() == 0 {
        assert(a + b =~= a);
    } else {
        merged_halves(a, b.drop_last());
        assert((a + b).drop_last() =~= a + b.drop_last());
        merged_with_placed(ranked(a), ranked(b.drop_last()), b.last());
    }
}

/// The merge of two lists of items.
fn merge(a: Vec<ScanItem>, b: Vec<ScanItem>) -> (out: Vec<ScanItem>)
    ensures
        item_views(out@) == merged(item_views(a@), item_views(b@)),
{
    let ghost goal = merged(item_views(a@), item_views(b@));
    let mut a = a;
    let mut b = b;
    let mut tail: Vec<ScanItem> = Vec::new();
    assert(item_views(tail@).reverse() =~= Seq::empty());
    assert(goal + Seq::<ItemView>::empty() =~= goal);
    while a.len() > 0 && b.len() > 0
        invariant
            goal == merged(item_views(a@), item_views(b@)) + item_views(tail@).reverse(),
        decreases a.len() + b.len(),
    {
        let ghost left = item_views(a@);
        let ghost right = item_views(b@);
        let ghost seen = item_views(tail@);
        let last_a = a[a.len() - 1].size;
        let last_b = b[b.len() - 1].size;
        let taken = if last_a >= last_b {
            b.pop()
        } else {
            a.pop()
        };
        if let Some(item) = taken {
            assert(item_views(a@) =~= if last_a >= last_b {
                left
            } else {
                left.drop_last()
            });
            assert(item_views(b@) =~= if last_a >= last_b {
                right.drop_last()
            } else {
                right
            });
            assert(item@ == if last_a >= last_b {
                right.last()
            } else {
                left.last()
            });
            tail.push(item);
            assert(item_views(tail@) =~= seen.push(item@));
            assert(seen.push(item@).reverse() =~= seq![item@] + seen.reverse());
            assert(merged(item_views(a@), item_views(b@)) + item_views(tail@).reverse() =~= merged(
                left,
                right,
            ) + seen.reverse());
        }
    }
    if a.len() == 0 {
        a = b;
    }
    assert(goal =~= item_views(a@) + item_views(tail@).reverse());
    while tail.len() > 0
        invariant
            goal == item_views(a@) + item_views(tail@).reverse(),
        decreases tail.len(),
    {
        let ghost front = item_views(a@);
        let ghost seen = item_views(tail@);
        if let Some(item) = tail.pop() {
            assert(item@ == seen.last());
            a.push(item);
            assert(item_views(a@) =~= front.push(item@));
            assert(item_views(tail@) =~= seen.drop_last());
            assert(item_views(a@) + item_views(tail@).reverse() =~= front + seen.reverse());
        }
    }
    assert(goal =~= item_views(a@));
    a
}

/// The items ordered by size, largest first, those of one size in the order
/// in which they came.
pub fn rank(items: Vec<ScanItem>) -> (out: Vec<ScanItem>)
    ensures
        item_views(out@) == ranked(item_views(items@)),
    decreases items@.len(),
{
    let mut items = items;
    let ghost all = item_views(items@);
    let n = items.len();
    if n < 2 {
        proof {
            if n == 1 {
                assert(all.drop_last() =~= Seq::empty());
                assert(ranked(all) =~= all) by {
                    reveal_with_fuel(ranked, 2);
                }
            } else {
                assert(all =~= Seq::empty());
            }
        }
        return items;
    }
    let back = items.split_off(n / 2);
    proof {
        assert(all =~= item_views(items@) + item_views(back@));
        merged_halves(item_views(items@), item_views(back@));
    }
    let a = rank(items);
    let b = rank(back);
    merge(a, b)
}

/// Placing an item in a descending list keeps it descending.
proof fn placing_keeps_order(ranking: Seq<ItemView>, item: ItemView)
    requires
        forall|i: int, j: int| 0 <= i < j < ranking.len() ==> ranking[i].size >= ranking[j].size,
    ensures
        placed(ranking, item).len() == ranking.len() + 1,
        placed(ranking, item).last().size == if ranking.len() > 0 && ranking.last().size
            < item.size {
            ranking.last().size
        } else {
            item.size
        },
        forall|i: int, j: int|
            0 <= i < j < placed(ranking, item).len() ==> placed(ranking, item)[i].size >= placed(
                ranking,
                item,
            )[j].size,
    decreases ranking.len(),
{
    if ranking.len() > 0 && ranking.last().size < item.size {
        let front = ranking.drop_last();
        placing_keeps_order(front, item);
        let inner = placed(front, item);
        assert forall|i: int, j: int| 0 <= i < j < placed(ranking, item).len() implies placed(
            ranking,
            item,
        )[i].size >= placed(ranking, item)[j].size by {
            if j == inner.len() {
                assert(inner[i].size >= inner.last().size);
                if front.len() > 0 {
                    assert(front.last() == ranking[ranking.len() - 2]);
                }
            }
        }
    }
}

/// A ranking is in descending order of size.
pub proof fn ranking_descends(items: Seq<ItemView>)
    ensures
        ranked(items).len() == items.len(),
        forall|i: int, j: int|
            0 <= i < j < ranked(items).len() ==> ranked(items)[i].size >= ranked(items)[j].size,
    decreases items.len(),
{
    if items.len() > 0 {
        ranking_descends(items.drop_last());
        placing_keeps_order(ranked(items.drop_last()), items.last());
    }
}

/// Placing an item adds it and nothing else.
proof fn placing_adds_the_item(ranking: Seq<ItemView>, item: ItemView)
    ensures
        placed(ranking, item).to_multiset() == ranking.to_multiset().insert(item),
    decreases ranking.len(),
{
    broadcast use vstd::seq_lib::group_to_multiset_ensures;

    if ranking.len() > 0 && ranking.last().size < item.size {
        let front = ranking.drop_last();
        placing_adds_the_item(front, item);
        assert(ranking =~= front.push(ranking.last()));
        assert(placed(ranking, item).to_multiset() =~= ranking.to_multiset().insert(item));
    }
}

/// A ranking holds the items that were ranked, each as often.
pub proof fn ranking_keeps_items(items: Seq<ItemView>)
    ensures
        ranked(items).to_multiset() == items.to_multiset(),
    decreases items.len(),
{
    broadcast use vstd::seq_lib::group_to_multiset_ensures;

    if items.len() > 0 {
        let front = items.drop_last();
        ranking_keeps_items(front);
        placing_adds_the_item(ranked(front), items.last());
        assert(items =~= front.push(items.last()));
    }
}

/// What is ranked is what was there.
pub proof fn ranking_keeps_each(items: Seq<ItemView>, item: ItemView)
    ensures
        ranked(items).contains(item) == items.contains(item),
{
    broadcast use vstd::seq_lib::group_to_multiset_ensures;

    ranking_keeps_items(items);
    assert(ranked(items).to_multiset().count(item) == items.to_multiset().count(item));
}

/// Where no item is there twice, none is ranked twice.
pub proof fn ranking_keeps_distinct(items: Seq<ItemView>)
    requires
        items.no_duplicates(),
    ensures
        ranked(items).no_duplicates(),
{
    items.lemma_multiset_has_no_duplicates();
    ranking_keeps_items(items);
    ranked(items).lemma_multiset_has_no_duplicates_conv();
}

/// The sizes of items added up.
pub open spec fn item_total(items: Seq<ItemView>) -> nat
    decreases items.len(),
{
    if items.len() == 0 {
        0
    } else {
        item_total(items.drop_last()) + items.last().size
    }
}

/// Placing an item adds its size.
proof fn placing_adds_the_size(ranking: Seq<ItemView>, item: ItemView)
    ensures
        item_total(placed(ranking, item)) == item_total(ranking) + item.size,
    decreases ranking.len(),
{
    if ranking.len() == 0 || ranking.last().size >= item.size {
        assert(ranking.push(item).drop_last() =~= ranking);
    } else {
        let front = ranking.drop_last();
        placing_adds_the_size(front, item);
        assert(placed(front, item).push(ranking.last()).drop_last() =~= placed(front, item));
    }
}

/// Ranked items add up to the same.
pub proof fn ranking_keeps_total(items: Seq<ItemView>)
    ensures
        item_total(ranked(items)) == item_total(items),
    decreases items.len(),
{
    if items.len() > 0 {
        ranking_keeps_total(items.drop_last());
        placing_adds_the_size(ranked(items.drop_last()), items.last());
    }
}

/// Placing an item puts it behind the others of its size.
proof fn placing_is_stable(ranking: Seq<ItemView>, item: ItemView, size: nat)
    ensures
        placed(ranking, item).filter(|x: ItemView| x.size == size) == ranking.push(item).filter(
            |x: ItemView| x.size == size,
        ),
    decreases ranking.len(),
{
    let keep = |x: ItemView| x.size == size;
    if ranking.len() > 0 && ranking.last().size < item.size {
        reveal(Seq::filter);
        let front = ranking.drop_last();
        let last = ranking.last();
        placing_is_stable(front, item, size);
        assert(placed(ranking, item).drop_last() =~= placed(front, item));
        assert(ranking.push(item).drop_last() =~= ranking);
        assert(front.push(item).drop_last() =~= front);
        assert(placed(ranking, item).filter(keep) == if keep(last) {
            placed(front, item).filter(keep).push(last)
        } else {
            placed(front, item).filter(keep)
        });
        assert(ranking.push(item).filter(keep) == if keep(item) {
            ranking.filter(keep).push(item)
        } else {
            ranking.filter(keep)
        });
        assert(front.push(item).filter(keep) == if keep(item) {
            front.filter(keep).push(item)
        } else {
            front.filter(keep)
        });
    }
}

/// Items of one size stand in a ranking in the order in which they came.
pub proof fn ranking_is_stable(items: Seq<ItemView>, size: nat)
    ensures
        ranked(items).filter(|x: ItemView| x.size == size) == items.filter(
            |x: ItemView| x.size == size,
        ),
    decreases items.len(),
{
    let keep = |x: ItemView| x.size == size;
    if items.len() > 0 {
        let front = items.drop_last();
        ranking_is_stable(front, size);
        placing_is_stable(ranked(front), items.last(), size);
        reveal(Seq::filter);
        assert(ranked(front).push(items.last()).drop_last() =~= ranked(front));
    } else {
        assert(items =~= Seq::empty());
    }
}

/// An item says what it holds.
pub proof fn item_says_what_it_holds(item: ScanItem, items: Seq<ScanItem>, i: int)
    ensures
        item@.path == item.path@,
        item@.size == item.size,
        item@.is_dir == item.is_dir,
        item_views(items).len() == items.len(),
        0 <= i < items.len() ==> item_views(items)[i] == items[i]@,
{
}

/// An item adds its size to the total.
pub proof fn totals_take_in_every_item(items: Seq<ItemView>, item: ItemView)
    ensures
        item_total(Seq::empty()) == 0,
        item_total(items.push(item)) == item_total(items) + item.size,
{
    assert(items.push(item).drop_last() =~= items);
}

} // verus!
