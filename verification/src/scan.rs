//! What a finished walk found, largest first.
use crate::path::{components, is_under};
use crate::rank::{
    item_total, item_views, items_under, rank, ranked, ranking_descends, ranking_keeps_distinct,
    ranking_keeps_each, ranking_keeps_total, ItemView, ScanItem,
};
use crate::table::{
    row_index, row_index_is_last_match, row_is_credit, row_total, RowView, SizeTable,
};
use crate::tree::{
    bytes_below, distinctly_named, row_owed, rows_add_up, rows_are_what_is_owed, visited_rows,
    well_named, Tree,
};
use crate::walk::{depth_limit, Walk};
use vstd::prelude::*;

verus! {

/// The rows of a table as items, the `i`-th of them a folder if `is_dir[i]`.
pub open spec fn row_items(rows: Seq<RowView>, is_dir: Seq<bool>) -> Seq<ItemView> {
    Seq::new(
        rows.len(),
        |i: int| ItemView { path: rows[i].path, size: rows[i].size, is_dir: is_dir[i] },
    )
}

/// The rows of a table as items, largest first. `is_dir` says of each row
/// whether it is a folder.
pub fn scan(table: &SizeTable, is_dir: &Vec<bool>) -> (out: Vec<ScanItem>)
    requires
        is_dir@.len() == table@.len(),
    ensures
        item_views(out@) == ranked(row_items(table@, is_dir@)),
{
    let mut items: Vec<ScanItem> = Vec::new();
    let n = table.len();
    let mut i: usize = 0;
    while i < n
        invariant
            i <= n,
            n == table@.len(),
            n == is_dir@.len(),
            item_views(items@) =~= row_items(table@, is_dir@).take(i as int),
        decreases n - i,
    {
        let path = table.path(i).clone();
        let item = ScanItem { path, size: table.size(i), is_dir: is_dir[i] };
        let ghost before = item_views(items@);
        items.push(item);
        assert(item@ == row_items(table@, is_dir@)[i as int]);
        assert(item_views(items@) =~= before.push(item@));
        i += 1;
    }
    assert(item_views(items@) =~= row_items(table@, is_dir@));
    rank(items)
}

/// The entries of the folder that a finished walk has sized, largest first.
pub fn scan_children(walk: Walk) -> (out: Vec<ScanItem>)
    requires
        walk.wf(),
        walk@.frames.len() == 0,
    ensures
        item_views(out@) == ranked(walk@.items),
        items_under(item_views(out@), walk@.root),
{
    let ghost found = walk@.items;
    let ghost root = walk@.root;
    let items = walk.into_items();
    let out = rank(items);
    proof {
        let sorted = ranked(found);
        assert forall|i: int| 0 <= i < sorted.len() implies is_under(
            (#[trigger] sorted[i]).path,
            root,
        ) by {
            ranking_keeps_each(found, sorted[i]);
            assert(sorted.contains(sorted[i]));
            let j = choose|j: int| 0 <= j < found.len() && found[j] == sorted[i];
            assert(is_under(found[j].path, root));
        }
    }
    out
}

/// The first `top` items, or all where there are fewer.
pub fn keep_top(items: Vec<ScanItem>, top: usize) -> (out: Vec<ScanItem>)
    ensures
        item_views(out@) == if item_views(items@).len() <= top {
            item_views(items@)
        } else {
            item_views(items@).take(top as int)
        },
{
    let ghost all = item_views(items@);
    let mut items = items;
    items.truncate(top);
    assert(item_views(items@) =~= if all.len() <= top {
        all
    } else {
        all.take(top as int)
    });
    items
}

/// The items made of rows add up to the rows.
proof fn row_items_add_up(rows: Seq<RowView>, is_dir: Seq<bool>)
    requires
        is_dir.len() == rows.len(),
    ensures
        item_total(row_items(rows, is_dir)) == row_total(rows),
    decreases rows.len(),
{
    if rows.len() > 0 {
        row_items_add_up(rows.drop_last(), is_dir.drop_last());
        assert(row_items(rows, is_dir).drop_last() =~= row_items(
            rows.drop_last(),
            is_dir.drop_last(),
        ));
    }
}

/// A scan of a folder lists, the largest first, all that is owed a row at the
/// depth limit, with what it is owed, and nothing else; it lists nothing
/// twice, and what it lists adds up to the bytes of all the files below the
/// folder.
pub proof fn scan_lists_what_is_owed(
    root: Seq<u8>,
    depth: usize,
    nodes: Seq<(Seq<u8>, Tree)>,
    is_dir: Seq<bool>,
)
    requires
        well_named(nodes),
        distinctly_named(nodes),
        is_dir.len() == visited_rows(root, depth, nodes).len(),
    ensures
        ({
            let list = ranked(row_items(visited_rows(root, depth, nodes), is_dir));
            let limit = depth_limit(depth);
            &&& forall|i: int, j: int| 0 <= i < j < list.len() ==> list[i].size >= list[j].size
            &&& forall|i: int|
                0 <= i < list.len() ==> row_owed(root, limit, nodes, (#[trigger] list[i]).path)
                    == Some(list[i].size)
            &&& forall|path: Seq<u8>|
                (#[trigger] row_owed(root, limit, nodes, path)) is Some ==> exists|i: int|
                    0 <= i < list.len() && components((#[trigger] list[i]).path) == components(path)
                        && row_owed(root, limit, nodes, path) == Some(list[i].size)
            &&& forall|i: int, j: int|
                0 <= i < j < list.len() ==> components((#[trigger] list[i]).path) != components(
                    (#[trigger] list[j]).path,
                )
            &&& item_total(list) == bytes_below(nodes)
        }),
{
    let rows = visited_rows(root, depth, nodes);
    let items = row_items(rows, is_dir);
    let list = ranked(items);
    let limit = depth_limit(depth);
    ranking_descends(items);
    ranking_keeps_total(items);
    row_items_add_up(rows, is_dir);
    rows_add_up(root, depth, nodes);
    rows_are_what_is_owed(root, depth, nodes, root);
    assert forall|i: int, j: int| 0 <= i < j < items.len() implies items[i] != items[j] by {
        assert(components(rows[i].path) != components(rows[j].path));
    }
    ranking_keeps_distinct(items);
    assert forall|i: int| 0 <= i < list.len() implies row_owed(
        root,
        limit,
        nodes,
        (#[trigger] list[i]).path,
    ) == Some(list[i].size) by {
        let at = row_of(items, i);
        row_is_credit(rows, at);
        rows_are_what_is_owed(root, depth, nodes, rows[at].path);
    }
    assert forall|path: Seq<u8>|
        (#[trigger] row_owed(root, limit, nodes, path)) is Some implies exists|i: int|
        0 <= i < list.len() && components((#[trigger] list[i]).path) == components(path)
            && row_owed(root, limit, nodes, path) == Some(list[i].size) by {
        rows_are_what_is_owed(root, depth, nodes, path);
        row_index_is_last_match(rows, path);
        let at = row_index(rows, path);
        ranking_keeps_each(items, items[at]);
        assert(items.contains(items[at]));
        let i = choose|i: int| 0 <= i < list.len() && list[i] == items[at];
        assert(components(list[i].path) == components(path));
    }
    assert forall|i: int, j: int| 0 <= i < j < list.len() implies components(
        (#[trigger] list[i]).path,
    ) != components((#[trigger] list[j]).path) by {
        let a = row_of(items, i);
        let b = row_of(items, j);
        assert(items[a] != items[b]);
        assert(a != b);
        if a < b {
            assert(components(rows[a].path) != components(rows[b].path));
        } else {
            assert(components(rows[b].path) != components(rows[a].path));
        }
    }
}

/// Where a ranked item was before.
proof fn row_of(items: Seq<ItemView>, i: int) -> (at: int)
    requires
        0 <= i < ranked(items).len(),
    ensures
        0 <= at < items.len(),
        items[at] == ranked(items)[i],
{
    ranking_keeps_each(items, ranked(items)[i]);
    assert(ranked(items).contains(ranked(items)[i]));
    choose|at: int| 0 <= at < items.len() && items[at] == ranked(items)[i]
}

/// No item that is left out is larger than one that is kept.
pub proof fn the_largest_are_kept(items: Seq<ItemView>, top: int)
    requires
        0 <= top <= items.len(),
    ensures
        forall|i: int, j: int|
            0 <= i < top <= j < items.len() ==> (#[trigger] ranked(items).take(top)[i]).size >= (
            #[trigger] ranked(items)[j]).size,
{
    ranking_descends(items);
}

/// Every item that a scan lists stands for one row: it has the path and the
/// size of that row, and is a folder exactly if the row is one.
pub proof fn listed_items_stand_for_rows(rows: Seq<RowView>, is_dir: Seq<bool>, i: int) -> (at: int)
    requires
        is_dir.len() == rows.len(),
        0 <= i < ranked(row_items(rows, is_dir)).len(),
    ensures
        0 <= at < rows.len(),
        ({
            let item = ranked(row_items(rows, is_dir))[i];
            &&& item.path == rows[at].path
            &&& item.size == rows[at].size
            &&& item.is_dir == is_dir[at]
        }),
{
    row_of(row_items(rows, is_dir), i)
}

/// The items made of rows are in the order of the rows, each with the path and
/// the size of its row, and a folder exactly if the row is one.
pub proof fn items_are_made_of_rows(rows: Seq<RowView>, is_dir: Seq<bool>, i: int)
    requires
        is_dir.len() == rows.len(),
    ensures
        row_items(rows, is_dir).len() == rows.len(),
        0 <= i < rows.len() ==> {
            let item = row_items(rows, is_dir)[i];
            &&& item.path == rows[i].path
            &&& item.size == rows[i].size
            &&& item.is_dir == is_dir[i]
        },
{
}

} // verus!
