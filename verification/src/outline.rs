//! The lines of the browser as an outline: folders, and below each expanded
//! folder its children, one level deeper.
use crate::path::{is_under, under_is_transitive};
use crate::rank::{items_under, ItemView};
use vstd::prelude::*;

verus! {

/// A line: an item, how deep it stands, whether it is an expanded folder, and
/// its number (counted from one at the top level, zero below).
pub struct LineView {
    pub path: Seq<u8>,
    pub size: nat,
    pub is_dir: bool,
    pub depth: nat,
    pub expanded: bool,
    pub num: nat,
}

/// The line of an item.
pub open spec fn line_of(item: ItemView, depth: nat, num: nat) -> LineView {
    LineView {
        path: item.path,
        size: item.size,
        is_dir: item.is_dir,
        depth,
        expanded: false,
        num,
    }
}

/// The lines of the items at the top level.
pub open spec fn top_lines(items: Seq<ItemView>) -> Seq<LineView> {
    Seq::new(items.len(), |i: int| line_of(items[i], 0, (i + 1) as nat))
}

/// The lines of the children of a folder.
pub open spec fn child_lines(items: Seq<ItemView>, depth: nat) -> Seq<LineView> {
    Seq::new(items.len(), |i: int| line_of(items[i], depth, 0))
}

/// The first line from `from` on that is not deeper than `depth`.
pub open spec fn next_not_deeper(lines: Seq<LineView>, from: int, depth: nat) -> int
    decreases lines.len() - from,
{
    if from >= lines.len() {
        lines.len() as int
    } else if lines[from].depth <= depth {
        from
    } else {
        next_not_deeper(lines, from + 1, depth)
    }
}

/// Line `i` marked as expanded or not.
pub open spec fn marked(line: LineView, expanded: bool) -> LineView {
    LineView { expanded, ..line }
}

/// The lines after folder `i` was expanded: its children follow it.
pub open spec fn expanded_at(
    lines: Seq<LineView>,
    i: int,
    children: Seq<ItemView>,
) -> Seq<LineView> {
    lines.take(i).push(marked(lines[i], true)) + child_lines(children, lines[i].depth + 1)
        + lines.skip(i + 1)
}

/// The lines after folder `i` was collapsed: the deeper lines that follow it
/// are gone.
pub open spec fn collapsed_at(lines: Seq<LineView>, i: int) -> Seq<LineView> {
    lines.take(i).push(marked(lines[i], false)) + lines.skip(
        next_not_deeper(lines, i + 1, lines[i].depth),
    )
}

/// The lines after line `i` was toggled: an expanded folder collapses, any
/// other expands, and what is no folder stays as it is.
pub open spec fn toggled_at(
    lines: Seq<LineView>,
    i: int,
    children: Seq<ItemView>,
) -> Seq<LineView> {
    if !lines[i].is_dir {
        lines
    } else if lines[i].expanded {
        collapsed_at(lines, i)
    } else {
        expanded_at(lines, i, children)
    }
}

/// The number of top-level lines.
pub open spec fn tops(lines: Seq<LineView>) -> nat
    decreases lines.len(),
{
    if lines.len() == 0 {
        0
    } else if lines.last().depth == 0 {
        tops(lines.drop_last()) + 1
    } else {
        tops(lines.drop_last())
    }
}

/// The number that line `i` should have.
pub open spec fn number_at(lines: Seq<LineView>, i: int) -> nat {
    if lines[i].depth == 0 {
        tops(lines.take(i)) + 1
    } else {
        0
    }
}

/// The lines numbered afresh.
pub open spec fn renumbered(lines: Seq<LineView>) -> Seq<LineView> {
    Seq::new(lines.len(), |i: int| LineView { num: number_at(lines, i), ..lines[i] })
}

/// Whether every line has its number.
pub open spec fn is_numbered(lines: Seq<LineView>) -> bool {
    forall|i: int| 0 <= i < lines.len() ==> (#[trigger] lines[i]).num == number_at(lines, i)
}

/// Whether line `j` stands below line `i`: it follows it, and no line from
/// `i` to `j` is as shallow as `i`.
pub open spec fn is_below(lines: Seq<LineView>, i: int, j: int) -> bool {
    &&& 0 <= i < j < lines.len()
    &&& forall|k: int| i < k <= j ==> (#[trigger] lines[k]).depth > lines[i].depth
}

/// Whether the lines are an outline: the first is at the top level, a line is
/// at most one deeper than the one before it, and then that one is an
/// expanded folder; and a line that stands below another lies under it on
/// disk.
pub open spec fn is_outline(lines: Seq<LineView>) -> bool {
    &&& lines.len() > 0 ==> lines[0].depth == 0
    &&& forall|i: int, j: int|
        0 <= i && j == i + 1 && j < lines.len() ==> steps_well(
            #[trigger] lines[i],
            #[trigger] lines[j],
        )
    &&& forall|i: int, j: int|
        #[trigger] is_below(lines, i, j) ==> is_under(lines[j].path, lines[i].path)
}

/// Whether `next` may directly follow `line`.
pub open spec fn steps_well(line: LineView, next: LineView) -> bool {
    &&& next.depth <= line.depth + 1
    &&& next.depth == line.depth + 1 ==> line.expanded && line.is_dir
}

/// Whether a path is one of `paths` or lies under one.
pub open spec fn is_gone(path: Seq<u8>, paths: Seq<Seq<u8>>) -> bool {
    exists|i: int| 0 <= i < paths.len() && is_under(path, #[trigger] paths[i])
}

/// The lines whose paths are not gone.
pub open spec fn without(lines: Seq<LineView>, paths: Seq<Seq<u8>>) -> Seq<LineView> {
    lines.filter(|line: LineView| !is_gone(line.path, paths))
}

/// Where `next_not_deeper` points.
pub proof fn next_not_deeper_is_first(lines: Seq<LineView>, from: int, depth: nat)
    requires
        0 <= from <= lines.len(),
    ensures
        from <= next_not_deeper(lines, from, depth) <= lines.len(),
        forall|k: int|
            from <= k < next_not_deeper(lines, from, depth) ==> (#[trigger] lines[k]).depth > depth,
        next_not_deeper(lines, from, depth) < lines.len() ==> lines[next_not_deeper(
            lines,
            from,
            depth,
        )].depth <= depth,
    decreases lines.len() - from,
{
    if from < lines.len() && lines[from].depth > depth {
        next_not_deeper_is_first(lines, from + 1, depth);
    }
}

/// Counting the top-level lines of two parts.
proof fn tops_of_parts(a: Seq<LineView>, b: Seq<LineView>)
    ensures
        tops(a + b) == tops(a) + tops(b),
    decreases b.len(),
{
    if b.len() == 0 {
        assert(a + b =~= a);
    } else {
        assert((a + b).drop_last() =~= a + b.drop_last());
        tops_of_parts(a, b.drop_last());
    }
}

/// Lines below the top level do not count.
proof fn no_tops(lines: Seq<LineView>)
    requires
        forall|i: int| 0 <= i < lines.len() ==> (#[trigger] lines[i]).depth > 0,
    ensures
        tops(lines) == 0,
    decreases lines.len(),
{
    if lines.len() > 0 {
        assert(lines.last() == lines[lines.len() - 1]);
        let front = lines.drop_last();
        assert forall|i: int| 0 <= i < front.len() implies (#[trigger] front[i]).depth > 0 by {
            assert(front[i] == lines[i]);
        }
        no_tops(front);
    }
}

/// Marks and numbers do not change the count of top-level lines.
proof fn tops_of_alike(a: Seq<LineView>, b: Seq<LineView>)
    requires
        a.len() == b.len(),
        forall|i: int| 0 <= i < a.len() ==> (#[trigger] a[i]).depth == (#[trigger] b[i]).depth,
    ensures
        tops(a) == tops(b),
    decreases a.len(),
{
    if a.len() > 0 {
        let n = a.len() - 1;
        assert(a[n].depth == b[n].depth);
        assert forall|i: int| 0 <= i < n implies (#[trigger] a.drop_last()[i]).depth == (
        #[trigger] b.drop_last()[i]).depth by {
            assert(a[i].depth == b[i].depth);
        }
        tops_of_alike(a.drop_last(), b.drop_last());
    }
}

/// Numbering lines afresh gives every line its number.
pub proof fn renumbering_numbers(lines: Seq<LineView>)
    ensures
        is_numbered(renumbered(lines)),
{
    let new = renumbered(lines);
    assert forall|i: int| 0 <= i < new.len() implies (#[trigger] new[i]).num == number_at(
        new,
        i,
    ) by {
        tops_of_alike(lines.take(i), new.take(i));
    }
}

/// Numbering lines that have their numbers changes nothing.
pub proof fn renumbering_is_idempotent(lines: Seq<LineView>)
    requires
        is_numbered(lines),
    ensures
        renumbered(lines) == lines,
{
    assert(renumbered(lines) =~= lines);
}

/// Numbers do not bear on the outline.
pub proof fn renumbering_keeps_outline(lines: Seq<LineView>)
    requires
        is_outline(lines),
    ensures
        is_outline(renumbered(lines)),
{
    let new = renumbered(lines);
    assert forall|i: int, j: int|
        0 <= i && j == i + 1 && j < new.len() implies steps_well(
        #[trigger] new[i],
        #[trigger] new[j],
    ) by {
        assert(steps_well(lines[i], lines[j]));
    }
    assert forall|i: int, j: int| #[trigger] is_below(new, i, j) implies is_under(
        new[j].path,
        new[i].path,
    ) by {
        assert forall|k: int| i < k <= j implies (#[trigger] lines[k]).depth > lines[i].depth by {
            assert(new[k].depth == lines[k].depth);
        }
        assert(is_below(lines, i, j));
    }
}

/// Items at the top level make a numbered outline.
pub proof fn top_lines_are_numbered_outline(items: Seq<ItemView>)
    ensures
        is_outline(top_lines(items)),
        is_numbered(top_lines(items)),
{
    let lines = top_lines(items);
    assert forall|i: int| 0 <= i < lines.len() implies (#[trigger] lines[i]).num == number_at(
        lines,
        i,
    ) by {
        all_tops(lines, i);
    }
    assert forall|i: int, j: int| #[trigger] is_below(lines, i, j) implies is_under(
        lines[j].path,
        lines[i].path,
    ) by {
        assert(lines[j].depth > lines[i].depth);
    }
}

/// Where all lines are at the top level, all count.
proof fn all_tops(lines: Seq<LineView>, n: int)
    requires
        0 <= n <= lines.len(),
        forall|i: int| 0 <= i < lines.len() ==> (#[trigger] lines[i]).depth == 0,
    ensures
        tops(lines.take(n)) == n,
    decreases n,
{
    if n > 0 {
        assert(lines.take(n).drop_last() =~= lines.take(n - 1));
        assert(lines.take(n).last() == lines[n - 1]);
        all_tops(lines, n - 1);
    }
}

/// Expanding a folder keeps the outline and the numbers.
pub proof fn expanding_keeps_outline(lines: Seq<LineView>, i: int, children: Seq<ItemView>)
    requires
        is_outline(lines),
        is_numbered(lines),
        0 <= i < lines.len(),
        lines[i].is_dir,
        !lines[i].expanded,
        items_under(children, lines[i].path),
    ensures
        is_outline(expanded_at(lines, i, children)),
        is_numbered(expanded_at(lines, i, children)),
{
    let new = expanded_at(lines, i, children);
    let n = children.len() as int;
    let depth = lines[i].depth;
    if i + 1 < lines.len() {
        assert(steps_well(lines[i], lines[i + 1]));
    }
    assert forall|a: int| 0 <= a < new.len() implies #[trigger] new[a] == if a < i {
        lines[a]
    } else if a == i {
        marked(lines[i], true)
    } else if a <= i + n {
        line_of(children[a - i - 1], depth + 1, 0)
    } else {
        lines[a - n]
    } by {}
    assert forall|a: int, b: int|
        0 <= a && b == a + 1 && b < new.len() implies steps_well(
        #[trigger] new[a],
        #[trigger] new[b],
    ) by {
        if b <= i {
            assert(steps_well(lines[a], lines[b]));
        } else if a > i + n {
            assert(steps_well(lines[a - n], lines[b - n]));
        }
    }
    assert forall|a: int, b: int| #[trigger] is_below(new, a, b) implies is_under(
        new[b].path,
        new[a].path,
    ) by {
        if i < b <= i + n {
            assert(new[b].depth > new[a].depth);
            assert(is_under(children[b - i - 1].path, lines[i].path));
            if a < i {
                assert forall|k: int| a < k <= i implies (#[trigger] lines[k]).depth
                    > lines[a].depth by {
                    assert(new[k].depth > new[a].depth);
                }
                assert(is_below(lines, a, i));
                under_is_transitive(new[b].path, lines[i].path, lines[a].path);
            }
        } else if i < a <= i + n {
            assert(new[i + n + 1].depth > new[a].depth);
        } else {
            let from_a = if a <= i {
                a
            } else {
                a - n
            };
            let from_b = if b <= i {
                b
            } else {
                b - n
            };
            assert forall|k: int| from_a < k <= from_b implies (#[trigger] lines[k]).depth
                > lines[from_a].depth by {
                let to = if k <= i {
                    k
                } else {
                    k + n
                };
                assert(new[to].depth > new[a].depth);
            }
            assert(is_below(lines, from_a, from_b));
        }
    }
    assert forall|a: int| 0 <= a < new.len() implies (#[trigger] new[a]).num == number_at(
        new,
        a,
    ) by {
        if a <= i {
            assert(new.take(a) =~= lines.take(a));
            assert(lines[a].num == number_at(lines, a));
        } else if a > i + n {
            assert(lines[a - n].num == number_at(lines, a - n));
            let head = lines.take(i + 1);
            let new_head = new.take(i + 1);
            let inner = child_lines(children, depth + 1);
            let tail = lines.subrange(i + 1, a - n);
            assert(new.take(a) =~= new_head + inner + tail);
            assert(lines.take(a - n) =~= head + tail);
            tops_of_parts(new_head + inner, tail);
            tops_of_parts(new_head, inner);
            tops_of_parts(head, tail);
            no_tops(inner);
            tops_of_alike(head, new_head);
        }
    }
}

/// Collapsing a folder keeps the outline.
pub proof fn collapsing_keeps_outline(lines: Seq<LineView>, i: int)
    requires
        is_outline(lines),
        0 <= i < lines.len(),
    ensures
        is_outline(collapsed_at(lines, i)),
{
    let new = collapsed_at(lines, i);
    let depth = lines[i].depth;
    let end = next_not_deeper(lines, i + 1, depth);
    next_not_deeper_is_first(lines, i + 1, depth);
    let n = end - (i + 1);
    assert forall|a: int| 0 <= a < new.len() implies #[trigger] new[a] == if a < i {
        lines[a]
    } else if a == i {
        marked(lines[i], false)
    } else {
        lines[a + n]
    } by {}
    assert forall|a: int, b: int|
        0 <= a && b == a + 1 && b < new.len() implies steps_well(
        #[trigger] new[a],
        #[trigger] new[b],
    ) by {
        if b <= i {
            assert(steps_well(lines[a], lines[b]));
        } else if a > i {
            assert(steps_well(lines[a + n], lines[b + n]));
        } else {
            assert(new[b] == lines[end]);
        }
    }
    assert forall|a: int, b: int| #[trigger] is_below(new, a, b) implies is_under(
        new[b].path,
        new[a].path,
    ) by {
        let from_a = if a <= i {
            a
        } else {
            a + n
        };
        let from_b = if b <= i {
            b
        } else {
            b + n
        };
        if a == i {
            assert(new[i + 1].depth > new[i].depth);
        }
        assert forall|k: int| from_a < k <= from_b implies (#[trigger] lines[k]).depth
            > lines[from_a].depth by {
            if k <= i {
                assert(new[k].depth > new[a].depth);
            } else if k >= end {
                assert(new[k - n].depth > new[a].depth);
            } else {
                assert(new[i].depth > new[a].depth);
            }
        }
        assert(is_below(lines, from_a, from_b));
    }
}

/// Collapsing a folder keeps the numbers.
pub proof fn collapsing_keeps_numbers(lines: Seq<LineView>, i: int)
    requires
        is_numbered(lines),
        0 <= i < lines.len(),
    ensures
        is_numbered(collapsed_at(lines, i)),
{
    let new = collapsed_at(lines, i);
    let depth = lines[i].depth;
    let end = next_not_deeper(lines, i + 1, depth);
    next_not_deeper_is_first(lines, i + 1, depth);
    let n = end - (i + 1);
    assert forall|a: int| 0 <= a < new.len() implies (#[trigger] new[a]).num == number_at(
        new,
        a,
    ) by {
        assert(new[a] == if a < i {
            lines[a]
        } else if a == i {
            marked(lines[i], false)
        } else {
            lines[a + n]
        });
        if a <= i {
            assert(new.take(a) =~= lines.take(a));
            assert(lines[a].num == number_at(lines, a));
        } else {
            assert(lines[a + n].num == number_at(lines, a + n));
            let head = lines.take(i + 1);
            let new_head = new.take(i + 1);
            let gap = lines.subrange(i + 1, end);
            let tail = lines.subrange(end, a + n);
            assert(new.take(a) =~= new_head + tail);
            assert(lines.take(a + n) =~= head + gap + tail);
            tops_of_parts(new_head, tail);
            tops_of_parts(head + gap, tail);
            tops_of_parts(head, gap);
            assert forall|k: int| 0 <= k < gap.len() implies (#[trigger] gap[k]).depth > 0 by {
                assert(gap[k] == lines[i + 1 + k]);
            }
            no_tops(gap);
            tops_of_alike(head, new_head);
        }
    }
}

/// Toggling a line keeps the outline and the numbers.
pub proof fn toggling_keeps_outline(lines: Seq<LineView>, i: int, children: Seq<ItemView>)
    requires
        is_outline(lines),
        is_numbered(lines),
        0 <= i < lines.len(),
        lines[i].is_dir && !lines[i].expanded ==> items_under(children, lines[i].path),
    ensures
        is_outline(toggled_at(lines, i, children)),
        is_numbered(toggled_at(lines, i, children)),
{
    if lines[i].is_dir {
        if lines[i].expanded {
            collapsing_keeps_outline(lines, i);
            collapsing_keeps_numbers(lines, i);
        } else {
            expanding_keeps_outline(lines, i, children);
        }
    }
}

/// Collapsing a folder undoes having expanded it.
pub proof fn collapsing_undoes_expanding(
    lines: Seq<LineView>,
    i: int,
    children: Seq<ItemView>,
    later: Seq<ItemView>,
)
    requires
        is_outline(lines),
        0 <= i < lines.len(),
        lines[i].is_dir,
        !lines[i].expanded,
    ensures
        toggled_at(toggled_at(lines, i, children), i, later) == lines,
{
    let new = expanded_at(lines, i, children);
    let n = children.len() as int;
    let depth = lines[i].depth;
    if i + 1 < lines.len() {
        assert(steps_well(lines[i], lines[i + 1]));
    }
    let end = next_not_deeper(new, i + 1, depth);
    next_not_deeper_is_first(new, i + 1, depth);
    assert(end == i + 1 + n) by {
        if end < i + 1 + n {
            assert(new[end].depth == depth + 1);
        } else if end > i + 1 + n {
            assert(new[i + 1 + n] == lines[i + 1]);
            assert(new[i + 1 + n].depth > depth);
        }
    }
    assert(collapsed_at(new, i) =~= lines);
}

/// Where the lines that are not gone stand.
spec fn kept(lines: Seq<LineView>, paths: Seq<Seq<u8>>) -> Seq<int>
    decreases lines.len(),
{
    if lines.len() == 0 {
        Seq::empty()
    } else {
        let front = kept(lines.drop_last(), paths);
        if is_gone(lines.last().path, paths) {
            front
        } else {
            front.push(lines.len() - 1)
        }
    }
}

/// What `kept` holds.
proof fn kept_are_the_rest(lines: Seq<LineView>, paths: Seq<Seq<u8>>)
    ensures
        without(lines, paths).len() == kept(lines, paths).len(),
        forall|a: int|
            0 <= a < kept(lines, paths).len() ==> {
                &&& 0 <= #[trigger] kept(lines, paths)[a] < lines.len()
                &&& without(lines, paths)[a] == lines[kept(lines, paths)[a]]
                &&& !is_gone(lines[kept(lines, paths)[a]].path, paths)
            },
        forall|a: int, b: int|
            0 <= a < b < kept(lines, paths).len() ==> #[trigger] kept(lines, paths)[a]
                < #[trigger] kept(lines, paths)[b],
        forall|k: int|
            0 <= k < lines.len() && !is_gone((#[trigger] lines[k]).path, paths) ==> kept(
                lines,
                paths,
            ).contains(k),
    decreases lines.len(),
{
    reveal(Seq::filter);
    if lines.len() > 0 {
        let front = lines.drop_last();
        kept_are_the_rest(front, paths);
        let f = kept(front, paths);
        let g = kept(lines, paths);
        assert forall|k: int|
            0 <= k < lines.len() && !is_gone((#[trigger] lines[k]).path, paths) implies g.contains(
            k,
        ) by {
            if k < front.len() {
                assert(front[k] == lines[k]);
                assert(f.contains(k));
                let a = choose|a: int| 0 <= a < f.len() && f[a] == k;
                assert(g[a] == k);
            } else {
                assert(g[f.len() as int] == k);
            }
        }
        assert forall|a: int| 0 <= a < g.len() implies {
            &&& 0 <= #[trigger] g[a] < lines.len()
            &&& without(lines, paths)[a] == lines[g[a]]
            &&& !is_gone(lines[g[a]].path, paths)
        } by {
            if a < f.len() {
                assert(g[a] == f[a]);
                assert(front[f[a]] == lines[f[a]]);
            }
        }
        assert forall|a: int, b: int| 0 <= a < b < g.len() implies #[trigger] g[a]
            < #[trigger] g[b] by {
            assert(g[a] == f[a]);
            if b < f.len() {
                assert(g[b] == f[b]);
            }
        }
    }
}

/// Lines that go are not shallower than the next line that stays: else that
/// line would lie under them and go too.
proof fn gone_lines_are_deeper(lines: Seq<LineView>, paths: Seq<Seq<u8>>, k: int, j: int)
    requires
        is_outline(lines),
        0 <= k < j < lines.len(),
        !is_gone(lines[j].path, paths),
        forall|m: int| k <= m < j ==> is_gone((#[trigger] lines[m]).path, paths),
    ensures
        lines[k].depth >= lines[j].depth,
    decreases j - k,
{
    if lines[k].depth < lines[j].depth {
        assert forall|m: int| k < m <= j implies (#[trigger] lines[m]).depth > lines[k].depth by {
            if m < j {
                gone_lines_are_deeper(lines, paths, m, j);
            }
        }
        assert(is_below(lines, k, j));
        let p = choose|p: int| 0 <= p < paths.len() && is_under(lines[k].path, #[trigger] paths[p]);
        assert(is_gone(lines[k].path, paths));
        under_is_transitive(lines[j].path, lines[k].path, paths[p]);
        assert(is_gone(lines[j].path, paths));
    }
}

/// Between two neighbouring lines that stay, all lines go.
proof fn between_kept_all_go(lines: Seq<LineView>, paths: Seq<Seq<u8>>, a: int, m: int)
    requires
        0 <= a < kept(lines, paths).len(),
        m < kept(lines, paths)[a],
        0 <= m,
        a > 0 ==> kept(lines, paths)[a - 1] < m,
    ensures
        is_gone(lines[m].path, paths),
{
    kept_are_the_rest(lines, paths);
    let f = kept(lines, paths);
    assert(f[a] < lines.len());
    if !is_gone(lines[m].path, paths) {
        assert(f.contains(m));
        let b = choose|b: int| 0 <= b < f.len() && f[b] == m;
        if b < a {
            if b < a - 1 {
                assert(f[b] < f[a - 1]);
            }
        } else if b > a {
            assert(f[a] < f[b]);
        }
    }
}

/// Taking out paths, with all that lies under them, keeps the outline.
pub proof fn removing_keeps_outline(lines: Seq<LineView>, paths: Seq<Seq<u8>>)
    requires
        is_outline(lines),
    ensures
        is_outline(without(lines, paths)),
{
    let new = without(lines, paths);
    let f = kept(lines, paths);
    kept_are_the_rest(lines, paths);
    if new.len() > 0 {
        assert(new[0] == lines[f[0]]);
        if f[0] > 0 {
            assert forall|m: int| 0 <= m < f[0] implies is_gone(
                (#[trigger] lines[m]).path,
                paths,
            ) by {
                between_kept_all_go(lines, paths, 0, m);
            }
            gone_lines_are_deeper(lines, paths, 0, f[0]);
        }
    }
    assert forall|a: int, b: int|
        0 <= a && b == a + 1 && b < new.len() implies steps_well(
        #[trigger] new[a],
        #[trigger] new[b],
    ) by {
        let i = f[a];
        let j = f[b];
        assert(new[a] == lines[i] && new[b] == lines[j]);
        assert(i < j);
        assert(steps_well(lines[i], lines[i + 1]));
        if i + 1 < j {
            assert forall|m: int| i + 1 <= m < j implies is_gone(
                (#[trigger] lines[m]).path,
                paths,
            ) by {
                between_kept_all_go(lines, paths, b, m);
            }
            gone_lines_are_deeper(lines, paths, i + 1, j);
        }
    }
    assert forall|a: int, b: int| #[trigger] is_below(new, a, b) implies is_under(
        new[b].path,
        new[a].path,
    ) by {
        let i = f[a];
        let j = f[b];
        assert(new[a] == lines[i] && new[b] == lines[j]);
        assert(i < j);
        assert forall|k: int| i < k <= j implies (#[trigger] lines[k]).depth > lines[i].depth by {
            below_in_the_rest(lines, paths, a, b, k);
        }
        assert(is_below(lines, i, j));
    }
}

/// What is below a line after a removal was below it before.
proof fn below_in_the_rest(lines: Seq<LineView>, paths: Seq<Seq<u8>>, a: int, b: int, k: int)
    requires
        is_outline(lines),
        is_below(without(lines, paths), a, b),
        kept(lines, paths).len() == without(lines, paths).len(),
        kept(lines, paths)[a] < k <= kept(lines, paths)[b],
    ensures
        lines[k].depth > lines[kept(lines, paths)[a]].depth,
    decreases b,
{
    let new = without(lines, paths);
    let f = kept(lines, paths);
    kept_are_the_rest(lines, paths);
    assert(new[a] == lines[f[a]] && new[b] == lines[f[b]]);
    assert(new[b].depth > new[a].depth);
    if k < f[b] {
        if b - 1 > a && k <= f[b - 1] {
            assert(is_below(new, a, b - 1)) by {
                assert forall|m: int| a < m <= b - 1 implies (#[trigger] new[m]).depth
                    > new[a].depth by {}
            }
            below_in_the_rest(lines, paths, a, b - 1, k);
        } else {
            assert forall|m: int| k <= m < f[b] implies is_gone(
                (#[trigger] lines[m]).path,
                paths,
            ) by {
                between_kept_all_go(lines, paths, b, m);
            }
            gone_lines_are_deeper(lines, paths, k, f[b]);
        }
    }
}

/// After a removal no line lies under a removed path, and every line that
/// does not is still there.
pub proof fn removing_is_exact(lines: Seq<LineView>, paths: Seq<Seq<u8>>, line: LineView)
    ensures
        without(lines, paths).contains(line) <==> lines.contains(line) && !is_gone(
            line.path,
            paths,
        ),
{
    let f = kept(lines, paths);
    let new = without(lines, paths);
    kept_are_the_rest(lines, paths);
    if new.contains(line) {
        let a = choose|a: int| 0 <= a < new.len() && new[a] == line;
        assert(lines[f[a]] == line);
    }
    if lines.contains(line) && !is_gone(line.path, paths) {
        let k = choose|k: int| 0 <= k < lines.len() && lines[k] == line;
        assert(f.contains(k));
        let a = choose|a: int| 0 <= a < f.len() && f[a] == k;
        assert(new[a] == line);
    }
}

/// In numbered lines, those below the top level have the number zero, the
/// first line at the top level has the number one, and each further one has
/// one more than the one before it at the top level.
pub proof fn numbers_count_the_top_level(lines: Seq<LineView>, i: int, j: int)
    requires
        is_numbered(lines),
        0 <= i <= j < lines.len(),
    ensures
        lines[j].depth > 0 ==> lines[j].num == 0,
        lines[j].depth == 0 && (forall|k: int| 0 <= k < j ==> (#[trigger] lines[k]).depth > 0)
            ==> lines[j].num == 1,
        i < j && lines[i].depth == 0 && lines[j].depth == 0 && (forall|k: int|
            i < k < j ==> (#[trigger] lines[k]).depth > 0) ==> lines[j].num == lines[i].num + 1,
{
    assert(lines[i].num == number_at(lines, i));
    assert(lines[j].num == number_at(lines, j));
    if forall|k: int| 0 <= k < j ==> (#[trigger] lines[k]).depth > 0 {
        no_tops(lines.take(j));
    }
    if i < j && lines[i].depth == 0 && (forall|k: int|
        i < k < j ==> (#[trigger] lines[k]).depth > 0) {
        let between = lines.subrange(i + 1, j);
        no_tops(between);
        tops_of_parts(lines.take(i + 1), between);
        assert(lines.take(i + 1) + between =~= lines.take(j));
        assert(lines.take(i + 1).drop_last() =~= lines.take(i));
        assert(lines.take(i + 1).last() == lines[i]);
    }
}

/// Numbering lines afresh changes their numbers and nothing else.
pub proof fn renumbering_changes_numbers_only(lines: Seq<LineView>)
    ensures
        renumbered(lines).len() == lines.len(),
        forall|i: int|
            0 <= i < lines.len() ==> {
                let line = #[trigger] renumbered(lines)[i];
                &&& line.path == lines[i].path
                &&& line.size == lines[i].size
                &&& line.is_dir == lines[i].is_dir
                &&& line.depth == lines[i].depth
                &&& line.expanded == lines[i].expanded
            },
{
}

/// Whether the lines `at`, in order, are those that lie under none of the
/// paths.
pub open spec fn are_those_left(lines: Seq<LineView>, paths: Seq<Seq<u8>>, at: Seq<int>) -> bool {
    &&& forall|a: int, b: int| 0 <= a < b < at.len() ==> #[trigger] at[a] < #[trigger] at[b]
    &&& forall|a: int| 0 <= a < at.len() ==> 0 <= #[trigger] at[a] < lines.len()
    &&& forall|k: int|
        0 <= k < lines.len() ==> (at.contains(k) <==> is_spared((#[trigger] lines[k]).path, paths))
}

/// Whether a path lies under none of the paths.
pub open spec fn is_spared(path: Seq<u8>, paths: Seq<Seq<u8>>) -> bool {
    forall|p: int| 0 <= p < paths.len() ==> !is_under(path, #[trigger] paths[p])
}

/// Taking out paths leaves the lines that lie under none of them, unchanged
/// and in order.
pub proof fn removing_leaves_the_rest(lines: Seq<LineView>, paths: Seq<Seq<u8>>) -> (at: Seq<int>)
    ensures
        are_those_left(lines, paths, at),
        at.len() == without(lines, paths).len(),
        forall|a: int|
            0 <= a < at.len() ==> without(lines, paths)[a] == lines[#[trigger] at[a]],
{
    let at = kept(lines, paths);
    kept_are_the_rest(lines, paths);
    assert forall|k: int| 0 <= k < lines.len() implies (at.contains(k) <==> is_spared(
        (#[trigger] lines[k]).path,
        paths,
    )) by {
        if at.contains(k) {
            let a = choose|a: int| 0 <= a < at.len() && at[a] == k;
            assert(!is_gone(lines[at[a]].path, paths));
        }
        if is_spared(lines[k].path, paths) {
            assert(!is_gone(lines[k].path, paths));
        }
    }
    at
}

} // verus!
