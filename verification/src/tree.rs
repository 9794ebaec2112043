//! Directory trees, and what a walk makes of them.
use crate::path::{
    components, direct_child, direct_child_of_descendant, direct_child_of_joined, is_component,
    is_file_name, is_under, joined, joined_is_under, joining_adds_one_component,
    under_is_transitive, SLASH,
};
use crate::rank::{item_total, ItemView};
use crate::table::{
    credit_of, credited, crediting_adds, crediting_raises_total, crediting_raises_total_under,
    one_row_each, row_total, total_under, RowView,
};
use crate::walk::{
    advanced, counted, depth_limit, entries_of, fresh_frame, inner_kind, is_waiting, started,
    supplied, Edition, EntryKind, EntryView, FrameKind, FrameView, WalkView,
};
use vstd::prelude::*;

verus! {

/// Something on disk: a file with its size, a folder with its named contents
/// (`None` where it cannot be read), a symbolic link, anything else, or
/// something whose metadata cannot be read.
pub enum Tree {
    File(u64),
    Folder(Option<Seq<(Seq<u8>, Tree)>>),
    Link,
    Other,
    Unknown,
}

/// What the metadata of a tree says.
pub open spec fn tree_kind(tree: Tree) -> EntryKind {
    match tree {
        Tree::File(size) => EntryKind::File(size),
        Tree::Folder(_) => EntryKind::Folder,
        Tree::Link => EntryKind::Link,
        Tree::Other => EntryKind::Other,
        Tree::Unknown => EntryKind::Unknown,
    }
}

/// The entries of a folder with these contents.
pub open spec fn tree_entries(nodes: Seq<(Seq<u8>, Tree)>) -> Seq<EntryView> {
    Seq::new(
        nodes.len(),
        |i: int| EntryView { name: nodes[i].0, kind: tree_kind(nodes[i].1) },
    )
}

/// The listing of a folder.
pub open spec fn tree_listing(folder: Option<Seq<(Seq<u8>, Tree)>>) -> Option<Seq<EntryView>> {
    match folder {
        Some(nodes) => Some(tree_entries(nodes)),
        None => None,
    }
}

/// What can be read of a folder.
pub open spec fn tree_nodes(folder: Option<Seq<(Seq<u8>, Tree)>>) -> Seq<(Seq<u8>, Tree)> {
    match folder {
        Some(nodes) => nodes,
        None => Seq::empty(),
    }
}

/// The bytes of all files at or below these nodes.
pub open spec fn bytes_below(nodes: Seq<(Seq<u8>, Tree)>) -> nat
    decreases nodes,
{
    if nodes.len() == 0 {
        0
    } else {
        (match nodes[0].1 {
            Tree::File(size) => size as nat,
            Tree::Folder(Some(inner)) => bytes_below(inner),
            _ => 0,
        }) + bytes_below(nodes.drop_first())
    }
}

/// The listings that a walk through these nodes asks for, in that order.
pub open spec fn listings_below(nodes: Seq<(Seq<u8>, Tree)>) -> Seq<Option<Seq<EntryView>>>
    decreases nodes,
{
    if nodes.len() == 0 {
        Seq::empty()
    } else {
        (match nodes[0].1 {
            Tree::Folder(Some(inner)) => seq![Some(tree_entries(inner))] + listings_below(inner),
            Tree::Folder(None) => seq![None],
            _ => Seq::empty(),
        }) + listings_below(nodes.drop_first())
    }
}

/// The steps that a walk through these nodes takes.
pub open spec fn steps_below(nodes: Seq<(Seq<u8>, Tree)>) -> nat
    decreases nodes,
{
    if nodes.len() == 0 {
        0
    } else {
        (match nodes[0].1 {
            Tree::Folder(Some(inner)) => 3 + steps_below(inner),
            Tree::Folder(None) => 3,
            _ => 1,
        }) + steps_below(nodes.drop_first())
    }
}

/// The entries that a walk counts at or below these nodes.
pub open spec fn counted_below(
    kind: FrameKind,
    max_depth: usize,
    edition: Edition,
    nodes: Seq<(Seq<u8>, Tree)>,
) -> nat
    decreases nodes,
{
    if nodes.len() == 0 {
        0
    } else {
        counted(kind, edition, tree_kind(nodes[0].1)) + (match nodes[0].1 {
            Tree::Folder(Some(inner)) => counted_below(
                inner_kind(kind, max_depth),
                max_depth,
                edition,
                inner,
            ),
            _ => 0,
        }) + counted_below(kind, max_depth, edition, nodes.drop_first())
    }
}

/// The rows after a visit of these nodes, which lie in `dir`, `depth` levels
/// below `root`: files are credited to the direct children of `root`, and each
/// folder at the depth limit is credited with all that it holds.
pub open spec fn rows_after(
    root: Seq<u8>,
    max_depth: usize,
    depth: usize,
    dir: Seq<u8>,
    nodes: Seq<(Seq<u8>, Tree)>,
    rows: Seq<RowView>,
) -> Seq<RowView>
    decreases nodes,
{
    if nodes.len() == 0 {
        rows
    } else {
        let path = joined(dir, nodes[0].0);
        let next = match nodes[0].1 {
            Tree::File(size) => match direct_child(root, path) {
                Some(child) => credited(rows, child, size as nat),
                None => rows,
            },
            Tree::Folder(Some(inner)) => if depth + 1 < max_depth {
                rows_after(root, max_depth, (depth + 1) as usize, path, inner, rows)
            } else {
                credited(rows, path, bytes_below(inner))
            },
            Tree::Folder(None) => if depth + 1 < max_depth {
                rows
            } else {
                credited(rows, path, 0)
            },
            _ => rows,
        };
        rows_after(root, max_depth, depth, dir, nodes.drop_first(), next)
    }
}

/// The items that a folder `dir` with these contents has for children: its
/// files, its folders with all that they hold, and the rest, links left out.
pub open spec fn child_items(dir: Seq<u8>, nodes: Seq<(Seq<u8>, Tree)>) -> Seq<ItemView>
    decreases nodes.len(),
{
    if nodes.len() == 0 {
        Seq::empty()
    } else {
        let path = joined(dir, nodes[0].0);
        (match nodes[0].1 {
            Tree::File(size) => seq![ItemView { path, size: size as nat, is_dir: false }],
            Tree::Folder(inner) => seq![
                ItemView { path, size: bytes_below(tree_nodes(inner)), is_dir: true },
            ],
            Tree::Other => seq![ItemView { path, size: 0, is_dir: false }],
            _ => Seq::empty(),
        }) + child_items(dir, nodes.drop_first())
    }
}

/// The state after the innermost directory, whose entries left to do are
/// `nodes`, has been worked through.
pub open spec fn through(w: WalkView, nodes: Seq<(Seq<u8>, Tree)>) -> WalkView {
    let top = w.frames.last();
    let done = FrameView {
        todo: Some(Seq::empty()),
        total: if top.kind is Children {
            top.total
        } else {
            top.total + bytes_below(nodes)
        },
        ..top
    };
    WalkView {
        frames: w.frames.drop_last().push(done),
        count: w.count + counted_below(top.kind, w.max_depth, w.edition, nodes),
        sizes: match top.kind {
            FrameKind::Visit(depth) => rows_after(
                w.root,
                w.max_depth,
                depth,
                top.dir,
                nodes,
                w.sizes,
            ),
            _ => w.sizes,
        },
        items: if top.kind is Children {
            w.items + child_items(top.dir, nodes)
        } else {
            w.items
        },
        ..w
    }
}

/// A walk driven for at most `fuel` steps, the listings that it asks for
/// taken from `listings` in order.
pub open spec fn driven(
    w: WalkView,
    listings: Seq<Option<Seq<EntryView>>>,
    fuel: nat,
) -> WalkView
    decreases fuel,
{
    if fuel == 0 || w.frames.len() == 0 {
        w
    } else if is_waiting(w) {
        if listings.len() == 0 {
            w
        } else {
            driven(supplied(w, listings[0]), listings.drop_first(), (fuel - 1) as nat)
        }
    } else {
        driven(advanced(w), listings, (fuel - 1) as nat)
    }
}

/// The first entry of a folder with contents, and the rest.
proof fn first_entry(nodes: Seq<(Seq<u8>, Tree)>)
    requires
        nodes.len() > 0,
    ensures
        tree_entries(nodes)[0] == (EntryView { name: nodes[0].0, kind: tree_kind(nodes[0].1) }),
        tree_entries(nodes).drop_first() == tree_entries(nodes.drop_first()),
{
    assert(tree_entries(nodes).drop_first() =~= tree_entries(nodes.drop_first()));
}

/// A state with nothing left to do in the innermost directory.
proof fn through_nothing(w: WalkView, nodes: Seq<(Seq<u8>, Tree)>)
    requires
        w.frames.len() > 0,
        w.frames.last().todo == Some(tree_entries(nodes)),
        nodes.len() == 0,
    ensures
        through(w, nodes) == w,
{
    assert(tree_entries(nodes) =~= Seq::empty());
    assert(w.frames.drop_last().push(w.frames.last()) =~= w.frames);
    assert(w.items + child_items(w.frames.last().dir, nodes) =~= w.items);
}

/// Working through a first node that is no folder takes one step.
proof fn through_plain_node(w: WalkView, nodes: Seq<(Seq<u8>, Tree)>)
    requires
        w.frames.len() > 0,
        w.frames.last().todo == Some(tree_entries(nodes)),
        nodes.len() > 0,
        !(nodes[0].1 is Folder),
    ensures
        !is_waiting(w),
        advanced(w).frames.len() > 0,
        advanced(w).frames.last().todo == Some(tree_entries(nodes.drop_first())),
        advanced(w).frames.last().kind == w.frames.last().kind,
        advanced(w).max_depth == w.max_depth,
        through(advanced(w), nodes.drop_first()) == through(w, nodes),
{
    first_entry(nodes);
    let top = w.frames.last();
    let next = advanced(w);
    let below = w.frames.drop_last();
    assert(next.frames =~= below.push(next.frames.last()));
    assert(next.frames.drop_last() =~= below);
    let a = through(next, nodes.drop_first());
    let b = through(w, nodes);
    assert(a.frames =~= b.frames);
    assert(a.items =~= b.items);
}

/// Working through a first node that is a folder: enter it, list it, work
/// through it, and leave it.
#[verifier::rlimit(40)]
proof fn through_folder(w: WalkView, nodes: Seq<(Seq<u8>, Tree)>, folder: Option<Seq<(Seq<u8>, Tree)>>)
    requires
        w.frames.len() > 0,
        w.frames.last().todo == Some(tree_entries(nodes)),
        w.frames.last().kind matches FrameKind::Visit(depth) ==> depth < w.max_depth,
        nodes.len() > 0,
        nodes[0].1 == Tree::Folder(folder),
    ensures
        !is_waiting(w),
        is_waiting(advanced(w)),
        ({
            let listed = supplied(advanced(w), tree_listing(folder));
            let inner = through(listed, tree_nodes(folder));
            let out = advanced(inner);
            &&& listed.frames.len() > 0
            &&& listed.frames.last().todo == Some(tree_entries(tree_nodes(folder)))
            &&& listed.frames.last().kind == inner_kind(w.frames.last().kind, w.max_depth)
            &&& listed.max_depth == w.max_depth
            &&& inner.frames.len() > 0
            &&& !is_waiting(inner)
            &&& out.frames.len() > 0
            &&& out.frames.last().todo == Some(tree_entries(nodes.drop_first()))
            &&& out.frames.last().kind == w.frames.last().kind
            &&& out.max_depth == w.max_depth
            &&& through(out, nodes.drop_first()) == through(w, nodes)
        }),
{
    first_entry(nodes);
    let top = w.frames.last();
    let below = w.frames.drop_last();
    let path = joined(top.dir, nodes[0].0);
    let kind = inner_kind(top.kind, w.max_depth);
    let rest = FrameView { todo: Some(tree_entries(nodes.drop_first())), ..top };
    let entered = advanced(w);
    assert(entered.frames == below.push(rest).push(fresh_frame(path, kind)));
    let listed = supplied(entered, tree_listing(folder));
    let inside = tree_nodes(folder);
    assert(tree_entries(Seq::<(Seq<u8>, Tree)>::empty()) =~= Seq::empty());
    assert(entries_of(tree_listing(folder)) == tree_entries(inside));
    assert(entered.frames.drop_last() =~= below.push(rest));
    let inner = through(listed, inside);
    assert(listed.frames.drop_last() =~= below.push(rest));
    assert(inner.frames.drop_last() =~= below.push(rest));
    let out = advanced(inner);
    assert(below.push(rest).drop_last() =~= below);
    assert(out.frames =~= below.push(out.frames.last()));
    assert(out.frames.drop_last() =~= below);
    let a = through(out, nodes.drop_first());
    let b = through(w, nodes);
    assert(folder is None ==> bytes_below(inside) == 0);
    assert(inner.frames.last().total == bytes_below(inside));
    assert(a.frames =~= b.frames);
    assert(a.items =~= b.items);
    assert(a.count == b.count);
    assert(a.sizes == b.sizes);
}

/// Driving a walk through what is left in the innermost directory.
pub proof fn driving_goes_through(
    w: WalkView,
    nodes: Seq<(Seq<u8>, Tree)>,
    rest: Seq<Option<Seq<EntryView>>>,
    fuel: nat,
)
    requires
        w.frames.len() > 0,
        w.frames.last().todo == Some(tree_entries(nodes)),
        w.frames.last().kind matches FrameKind::Visit(depth) ==> depth < w.max_depth,
    ensures
        driven(w, listings_below(nodes) + rest, steps_below(nodes) + fuel) == driven(
            through(w, nodes),
            rest,
            fuel,
        ),
    decreases nodes,
{
    let listings = listings_below(nodes) + rest;
    let steps = steps_below(nodes) + fuel;
    if nodes.len() == 0 {
        through_nothing(w, nodes);
        assert(listings =~= rest);
    } else {
        let others = nodes.drop_first();
        let later = listings_below(others) + rest;
        match nodes[0].1 {
            Tree::Folder(folder) => {
                through_folder(w, nodes, folder);
                let inside = tree_nodes(folder);
                let entered = advanced(w);
                let listed = supplied(entered, tree_listing(folder));
                let inner = through(listed, inside);
                let out = advanced(inner);
                let after = steps_below(others) + fuel;
                assert(listings_below(inside) =~= match folder {
                    Some(n) => listings_below(n),
                    None => Seq::empty(),
                });
                assert(listings =~= seq![tree_listing(folder)] + (listings_below(inside) + later));
                assert(listings.drop_first() =~= listings_below(inside) + later);
                assert(steps == 3 + steps_below(inside) + after);
                assert(driven(w, listings, steps) == driven(entered, listings, (steps - 1) as nat));
                assert(driven(entered, listings, (steps - 1) as nat) == driven(
                    listed,
                    listings.drop_first(),
                    (steps - 2) as nat,
                ));
                if let Some(n) = folder {
                    driving_goes_through(listed, n, later, 1 + after);
                } else {
                    through_nothing(listed, inside);
                    assert(listings_below(inside) + later =~= later);
                }
                assert(driven(inner, later, 1 + after) == driven(out, later, after));
                driving_goes_through(out, others, rest, fuel);
            },
            _ => {
                through_plain_node(w, nodes);
                assert(listings =~= later);
                assert(driven(w, listings, steps) == driven(
                    advanced(w),
                    listings,
                    (steps - 1) as nat,
                ));
                driving_goes_through(advanced(w), others, rest, fuel);
            },
        }
    }
}

/// The listings that a walk of a whole folder asks for.
pub open spec fn all_listings(
    folder: Option<Seq<(Seq<u8>, Tree)>>,
) -> Seq<Option<Seq<EntryView>>> {
    seq![tree_listing(folder)] + listings_below(tree_nodes(folder))
}

/// The steps that a walk of a whole folder takes.
pub open spec fn all_steps(folder: Option<Seq<(Seq<u8>, Tree)>>) -> nat {
    2 + steps_below(tree_nodes(folder))
}

/// A walk that is handed the listings of a folder ends, and ends with what
/// the folder holds.
pub proof fn walk_of_folder(
    root: Seq<u8>,
    kind: FrameKind,
    max_depth: usize,
    edition: Edition,
    folder: Option<Seq<(Seq<u8>, Tree)>>,
)
    requires
        kind matches FrameKind::Visit(depth) ==> depth < max_depth,
    ensures
        driven(started(root, kind, max_depth, edition), all_listings(folder), all_steps(folder))
            == (WalkView {
            root,
            max_depth,
            edition,
            frames: Seq::empty(),
            count: counted_below(kind, max_depth, edition, tree_nodes(folder)),
            sizes: match kind {
                FrameKind::Visit(depth) => rows_after(
                    root,
                    max_depth,
                    depth,
                    root,
                    tree_nodes(folder),
                    Seq::empty(),
                ),
                _ => Seq::empty(),
            },
            items: if kind is Children {
                child_items(root, tree_nodes(folder))
            } else {
                Seq::empty()
            },
            total: if kind is Children {
                0
            } else {
                bytes_below(tree_nodes(folder))
            },
        }),
{
    let nodes = tree_nodes(folder);
    let begin = started(root, kind, max_depth, edition);
    let listings = all_listings(folder);
    let listed = supplied(begin, tree_listing(folder));
    let steps = all_steps(folder);
    let nothing = Seq::<Option<Seq<EntryView>>>::empty();
    assert(tree_entries(Seq::<(Seq<u8>, Tree)>::empty()) =~= Seq::empty());
    assert(listings[0] == tree_listing(folder));
    assert(listings.drop_first() =~= listings_below(nodes) + nothing);
    assert(driven(begin, listings, steps) == driven(
        listed,
        listings.drop_first(),
        (steps - 1) as nat,
    ));
    assert(listed.frames.drop_last() =~= Seq::empty());
    driving_goes_through(listed, nodes, nothing, 1);
    let inner = through(listed, nodes);
    assert(inner.frames.drop_last() =~= Seq::empty());
    assert(inner.items =~= if kind is Children {
        child_items(root, nodes)
    } else {
        Seq::empty()
    });
    assert(driven(inner, nothing, 1) == driven(advanced(inner), nothing, 0));
}

/// Whether every name in the tree is one that a directory can list.
pub open spec fn well_named(nodes: Seq<(Seq<u8>, Tree)>) -> bool
    decreases nodes,
{
    nodes.len() > 0 ==> {
        &&& is_file_name(nodes[0].0)
        &&& nodes[0].1 matches Tree::Folder(Some(inner)) ==> well_named(inner)
        &&& well_named(nodes.drop_first())
    }
}

/// What has this name among the nodes.
pub open spec fn named(nodes: Seq<(Seq<u8>, Tree)>, name: Seq<u8>) -> Option<Tree>
    decreases nodes.len(),
{
    if nodes.len() == 0 {
        None
    } else if nodes[0].0 == name {
        Some(nodes[0].1)
    } else {
        named(nodes.drop_first(), name)
    }
}

/// What is reached from the nodes by these names, one after the other.
pub open spec fn node_at(nodes: Seq<(Seq<u8>, Tree)>, names: Seq<Seq<u8>>) -> Option<Tree>
    decreases names.len(),
{
    if names.len() == 0 {
        None
    } else {
        match named(nodes, names[0]) {
            Some(tree) => if names.len() == 1 {
                Some(tree)
            } else {
                match tree {
                    Tree::Folder(Some(inner)) => node_at(inner, names.drop_first()),
                    _ => None,
                }
            },
            None => None,
        }
    }
}

/// Whether no two nodes of one folder have the same name, anywhere in the
/// tree.
pub open spec fn distinctly_named(nodes: Seq<(Seq<u8>, Tree)>) -> bool
    decreases nodes,
{
    nodes.len() > 0 ==> {
        &&& named(nodes.drop_first(), nodes[0].0) is None
        &&& nodes[0].1 matches Tree::Folder(Some(inner)) ==> distinctly_named(inner)
        &&& distinctly_named(nodes.drop_first())
    }
}

/// The bytes of all files at or below a node.
pub open spec fn bytes_of(tree: Tree) -> nat {
    match tree {
        Tree::File(size) => size as nat,
        Tree::Folder(Some(inner)) => bytes_below(inner),
        _ => 0,
    }
}

/// Whether there is a file at or below these nodes, `depth` levels below the
/// root, that lies in no folder at the depth limit.
pub open spec fn any_loose(max_depth: usize, depth: nat, nodes: Seq<(Seq<u8>, Tree)>) -> bool
    decreases nodes,
{
    nodes.len() > 0 && ((match nodes[0].1 {
        Tree::File(_) => true,
        Tree::Folder(Some(inner)) => depth + 1 < max_depth && any_loose(
            max_depth,
            depth + 1,
            inner,
        ),
        _ => false,
    }) || any_loose(max_depth, depth, nodes.drop_first()))
}

/// The bytes of the files at or below these nodes, `depth` levels below the
/// root, that lie in no folder at the depth limit.
pub open spec fn loose_bytes(max_depth: usize, depth: nat, nodes: Seq<(Seq<u8>, Tree)>) -> nat
    decreases nodes,
{
    if nodes.len() == 0 {
        0
    } else {
        (match nodes[0].1 {
            Tree::File(size) => size as nat,
            Tree::Folder(Some(inner)) => if depth + 1 < max_depth {
                loose_bytes(max_depth, depth + 1, inner)
            } else {
                0
            },
            _ => 0,
        }) + loose_bytes(max_depth, depth, nodes.drop_first())
    }
}

/// What a direct child of the root is credited with: a file with its size, a
/// folder at the depth limit with all that it holds, and any other folder
/// with the files below it that lie in no folder at the limit, if there are
/// any.
pub open spec fn child_credit(max_depth: usize, tree: Tree) -> Option<nat> {
    match tree {
        Tree::File(size) => Some(size as nat),
        Tree::Folder(inner) => if max_depth == 1 {
            Some(bytes_below(tree_nodes(inner)))
        } else if any_loose(max_depth, 1, tree_nodes(inner)) {
            Some(loose_bytes(max_depth, 1, tree_nodes(inner)))
        } else {
            None
        },
        _ => None,
    }
}

/// What a folder at the depth limit is credited with: all that it holds.
pub open spec fn group_credit(tree: Option<Tree>) -> Option<nat> {
    match tree {
        Some(Tree::Folder(inner)) => Some(bytes_below(tree_nodes(inner))),
        _ => None,
    }
}

/// The row that a path is owed by a visit of the nodes below `root`: one
/// level down that of a direct child, at the depth limit that of a folder,
/// and elsewhere none.
pub open spec fn row_owed(
    root: Seq<u8>,
    max_depth: usize,
    nodes: Seq<(Seq<u8>, Tree)>,
    path: Seq<u8>,
) -> Option<nat> {
    let names = components(path).skip(components(root).len() as int);
    if !is_under(path, root) {
        None
    } else if names.len() == 1 {
        match named(nodes, names[0]) {
            Some(tree) => child_credit(max_depth, tree),
            None => None,
        }
    } else if names.len() == max_depth {
        group_credit(node_at(nodes, names))
    } else {
        None
    }
}

/// Two credits to one path.
spec fn added(a: Option<nat>, b: Option<nat>) -> Option<nat> {
    match (a, b) {
        (Some(x), Some(y)) => Some(x + y),
        (Some(x), None) => Some(x),
        (None, y) => y,
    }
}

/// What a visit of these nodes credits to one path.
spec fn credit_to(
    root: Seq<u8>,
    max_depth: usize,
    depth: usize,
    dir: Seq<u8>,
    nodes: Seq<(Seq<u8>, Tree)>,
    path: Seq<u8>,
) -> Option<nat>
    decreases nodes,
{
    if nodes.len() == 0 {
        None
    } else {
        let here = joined(dir, nodes[0].0);
        added(
            match nodes[0].1 {
                Tree::File(size) => match direct_child(root, here) {
                    Some(child) => if components(child) == components(path) {
                        Some(size as nat)
                    } else {
                        None
                    },
                    None => None,
                },
                Tree::Folder(Some(inner)) => if depth + 1 < max_depth {
                    credit_to(root, max_depth, (depth + 1) as usize, here, inner, path)
                } else if components(here) == components(path) {
                    Some(bytes_below(inner))
                } else {
                    None
                },
                Tree::Folder(None) => if depth + 1 >= max_depth && components(here) == components(
                    path,
                ) {
                    Some(0)
                } else {
                    None
                },
                _ => None,
            },
            credit_to(root, max_depth, depth, dir, nodes.drop_first(), path),
        )
    }
}

/// A visit adds what it credits to what was there, and gives no path a second
/// row.
proof fn visiting_adds_credit(
    root: Seq<u8>,
    max_depth: usize,
    depth: usize,
    dir: Seq<u8>,
    nodes: Seq<(Seq<u8>, Tree)>,
    rows: Seq<RowView>,
    path: Seq<u8>,
)
    requires
        one_row_each(rows),
        depth < max_depth,
    ensures
        one_row_each(rows_after(root, max_depth, depth, dir, nodes, rows)),
        credit_of(rows_after(root, max_depth, depth, dir, nodes, rows), path) == added(
            credit_of(rows, path),
            credit_to(root, max_depth, depth, dir, nodes, path),
        ),
    decreases nodes,
{
    if nodes.len() > 0 {
        let here = joined(dir, nodes[0].0);
        let others = nodes.drop_first();
        let next = rows_after(root, max_depth, depth, dir, seq![nodes[0]], rows);
        assert(seq![nodes[0]].drop_first() =~= Seq::empty());
        reveal_with_fuel(rows_after, 2);
        match nodes[0].1 {
            Tree::File(size) => {
                if let Some(child) = direct_child(root, here) {
                    same_components_same_credit(rows, child, path);
                    crediting_adds(rows, child, size as nat, path);
                }
            },
            Tree::Folder(Some(inner)) => {
                if depth + 1 < max_depth {
                    visiting_adds_credit(
                        root,
                        max_depth,
                        (depth + 1) as usize,
                        here,
                        inner,
                        rows,
                        path,
                    );
                } else {
                    same_components_same_credit(rows, here, path);
                    crediting_adds(rows, here, bytes_below(inner), path);
                }
            },
            Tree::Folder(None) => {
                same_components_same_credit(rows, here, path);
                crediting_adds(rows, here, 0, path);
            },
            _ => {},
        }
        visiting_adds_credit(root, max_depth, depth, dir, others, next, path);
    }
}

/// Credit depends only on the components of a path.
pub proof fn same_components_same_credit(rows: Seq<RowView>, a: Seq<u8>, b: Seq<u8>)
    ensures
        components(a) == components(b) ==> credit_of(rows, a) == credit_of(rows, b),
{
    if components(a) == components(b) {
        same_components_same_row(rows, a, b);
    }
}

/// The row of a path depends only on its components.
proof fn same_components_same_row(rows: Seq<RowView>, a: Seq<u8>, b: Seq<u8>)
    requires
        components(a) == components(b),
    ensures
        crate::table::row_index(rows, a) == crate::table::row_index(rows, b),
    decreases rows.len(),
{
    if rows.len() > 0 {
        same_components_same_row(rows.drop_last(), a, b);
    }
}

/// A file name is a component without a slash.
proof fn file_name_is_component(name: Seq<u8>)
    requires
        is_file_name(name),
    ensures
        is_component(name),
        !name.contains(SLASH),
{
}

/// A path under another goes on where that one ends.
proof fn under_extends(path: Seq<u8>, base: Seq<u8>, i: int)
    requires
        is_under(path, base),
        0 <= i < components(base).len(),
    ensures
        components(path).len() >= components(base).len(),
        components(path)[i] == components(base)[i],
{
    let all = components(path);
    let first = components(base);
    assert(first == all.subrange(0, first.len() as int));
    assert(all.subrange(0, first.len() as int)[i] == all[i]);
}

/// What is below a direct child of the root is credited to paths under that
/// child: to the child itself, or at the depth limit to what is under `dir`.
proof fn credit_stays_inside(
    root: Seq<u8>,
    name: Seq<u8>,
    max_depth: usize,
    depth: usize,
    dir: Seq<u8>,
    nodes: Seq<(Seq<u8>, Tree)>,
    path: Seq<u8>,
)
    requires
        is_file_name(name),
        is_under(dir, joined(root, name)),
        components(dir).len() == components(root).len() + depth,
        well_named(nodes),
        depth < max_depth,
        credit_to(root, max_depth, depth, dir, nodes, path) is Some,
    ensures
        is_under(path, joined(root, name)),
        components(path) == components(joined(root, name)) || (is_under(path, dir) && components(
            path,
        ).len() == components(root).len() + max_depth),
    decreases nodes,
{
    let child = joined(root, name);
    let here = joined(dir, nodes[0].0);
    let others = nodes.drop_first();
    joined_is_under(dir, nodes[0].0);
    joining_adds_one_component(dir, nodes[0].0);
    under_is_transitive(here, dir, child);
    file_name_is_component(name);
    direct_child_of_descendant(root, name, here);
    if credit_to(root, max_depth, depth, dir, others, path) is Some {
        credit_stays_inside(root, name, max_depth, depth, dir, others, path);
    } else {
        match nodes[0].1 {
            Tree::File(_) => {
                assert(components(path) == components(child));
                assert(components(child) =~= components(child).subrange(
                    0,
                    components(child).len() as int,
                ));
            },
            Tree::Folder(Some(inner)) => {
                if depth + 1 < max_depth {
                    credit_stays_inside(
                        root,
                        name,
                        max_depth,
                        (depth + 1) as usize,
                        here,
                        inner,
                        path,
                    );
                    if components(path) != components(child) {
                        under_is_transitive(path, here, dir);
                    }
                }
            },
            _ => {},
        }
    }
}

/// What is below a direct child of the root and in no folder at the depth
/// limit is credited to that child.
proof fn loose_files_go_to_the_child(
    root: Seq<u8>,
    name: Seq<u8>,
    max_depth: usize,
    depth: usize,
    dir: Seq<u8>,
    nodes: Seq<(Seq<u8>, Tree)>,
    path: Seq<u8>,
)
    requires
        is_file_name(name),
        is_under(dir, joined(root, name)),
        components(path) == components(joined(root, name)),
        well_named(nodes),
        depth < max_depth,
    ensures
        credit_to(root, max_depth, depth, dir, nodes, path) == if any_loose(
            max_depth,
            depth as nat,
            nodes,
        ) {
            Some(loose_bytes(max_depth, depth as nat, nodes))
        } else {
            None
        },
        !any_loose(max_depth, depth as nat, nodes) ==> loose_bytes(max_depth, depth as nat, nodes)
            == 0,
    decreases nodes,
{
    if nodes.len() > 0 {
        let child = joined(root, name);
        let here = joined(dir, nodes[0].0);
        joined_is_under(dir, nodes[0].0);
        joining_adds_one_component(dir, nodes[0].0);
        under_is_transitive(here, dir, child);
        file_name_is_component(name);
        joining_adds_one_component(root, name);
        under_extends(dir, child, 0);
        assert(components(here).len() > components(path).len());
        direct_child_of_descendant(root, name, here);
        if let Tree::Folder(Some(inner)) = nodes[0].1 {
            if depth + 1 < max_depth {
                loose_files_go_to_the_child(
                    root,
                    name,
                    max_depth,
                    (depth + 1) as usize,
                    here,
                    inner,
                    path,
                );
            }
        }
        loose_files_go_to_the_child(
            root,
            name,
            max_depth,
            depth,
            dir,
            nodes.drop_first(),
            path,
        );
    }
}

/// A folder at the depth limit, deeper than the direct children of the root,
/// is credited with all that it holds, and nothing else at that depth with
/// anything.
proof fn folders_at_the_limit_get_their_own(
    root: Seq<u8>,
    name: Seq<u8>,
    max_depth: usize,
    depth: usize,
    dir: Seq<u8>,
    nodes: Seq<(Seq<u8>, Tree)>,
    path: Seq<u8>,
    names: Seq<Seq<u8>>,
)
    requires
        is_file_name(name),
        is_under(dir, joined(root, name)),
        components(dir).len() == components(root).len() + depth,
        1 <= depth < max_depth,
        well_named(nodes),
        distinctly_named(nodes),
        components(path) == components(dir) + names,
        names.len() == max_depth - depth,
    ensures
        credit_to(root, max_depth, depth, dir, nodes, path) == group_credit(node_at(nodes, names)),
    decreases nodes,
{
    if nodes.len() > 0 {
        let child = joined(root, name);
        let here = joined(dir, nodes[0].0);
        let others = nodes.drop_first();
        let at = components(dir).len() as int;
        joined_is_under(dir, nodes[0].0);
        joining_adds_one_component(dir, nodes[0].0);
        under_is_transitive(here, dir, child);
        file_name_is_component(name);
        joining_adds_one_component(root, name);
        direct_child_of_descendant(root, name, here);
        assert(components(path)[at] == names[0]);
        assert(components(here)[at] == nodes[0].0);
        folders_at_the_limit_get_their_own(
            root,
            name,
            max_depth,
            depth,
            dir,
            others,
            path,
            names,
        );
        if nodes[0].0 == names[0] {
            if depth + 1 < max_depth {
                assert(components(path) =~= components(here) + names.drop_first());
                if let Tree::Folder(Some(inner)) = nodes[0].1 {
                    folders_at_the_limit_get_their_own(
                        root,
                        name,
                        max_depth,
                        (depth + 1) as usize,
                        here,
                        inner,
                        path,
                        names.drop_first(),
                    );
                }
            } else {
                assert(components(path) =~= components(here));
            }
        } else if let Tree::Folder(Some(inner)) = nodes[0].1 {
            if depth + 1 < max_depth && credit_to(
                root,
                max_depth,
                (depth + 1) as usize,
                here,
                inner,
                path,
            ) is Some {
                credit_stays_inside(
                    root,
                    name,
                    max_depth,
                    (depth + 1) as usize,
                    here,
                    inner,
                    path,
                );
                under_extends(path, here, at);
            }
        }
    } else {
        assert(named(nodes, names[0]) is None);
    }
}

/// What a visit of the nodes below the root credits is what is owed.
#[verifier::rlimit(60)]
proof fn credit_is_what_is_owed(
    root: Seq<u8>,
    max_depth: usize,
    nodes: Seq<(Seq<u8>, Tree)>,
    path: Seq<u8>,
)
    requires
        well_named(nodes),
        distinctly_named(nodes),
        max_depth > 0,
    ensures
        credit_to(root, max_depth, 0, root, nodes, path) == row_owed(
            root,
            max_depth,
            nodes,
            path,
        ),
    decreases nodes.len(),
{
    let base = components(root);
    let all = components(path);
    let names = all.skip(base.len() as int);
    if nodes.len() > 0 {
        let (name, tree) = nodes[0];
        let child = joined(root, name);
        let others = nodes.drop_first();
        credit_is_what_is_owed(root, max_depth, others, path);
        file_name_is_component(name);
        joining_adds_one_component(root, name);
        direct_child_of_joined(root, name);
        joined_is_under(root, name);
        assert(components(child) =~= components(child).subrange(0, components(child).len() as int));
        if is_under(path, root) {
            assert(all =~= base + names);
        }
        if let Tree::Folder(Some(inner)) = tree {
            if 1 < max_depth {
                if credit_to(root, max_depth, 1, child, inner, path) is Some {
                    credit_stays_inside(root, name, max_depth, 1, child, inner, path);
                    under_is_transitive(path, child, root);
                    under_extends(path, child, base.len() as int);
                    assert(names[0] == name);
                }
                if is_under(path, root) && names.len() > 0 && names[0] == name {
                    if names.len() == 1 {
                        assert(all =~= components(child));
                        loose_files_go_to_the_child(root, name, max_depth, 1, child, inner, path);
                    } else if names.len() == max_depth {
                        assert(all =~= components(child) + names.drop_first());
                        folders_at_the_limit_get_their_own(
                            root,
                            name,
                            max_depth,
                            1,
                            child,
                            inner,
                            path,
                            names.drop_first(),
                        );
                    }
                }
            }
        }
        if components(child) == all {
            assert(is_under(path, root));
            assert(names =~= seq![name]);
        } else if is_under(path, root) && names.len() == 1 {
            assert(names[0] != name) by {
                if names[0] == name {
                    assert(all =~= components(child));
                }
            }
        }
    } else if is_under(path, root) && names.len() > 0 {
        assert(named(nodes, names[0]) is None);
    }
}

/// The rows that a visit of a folder ends with.
pub open spec fn visited_rows(
    root: Seq<u8>,
    depth: usize,
    nodes: Seq<(Seq<u8>, Tree)>,
) -> Seq<RowView> {
    rows_after(root, depth_limit(depth), 0, root, nodes, Seq::empty())
}

/// A visit gives every path the row that it is owed, no path two, and no path
/// one that it is not owed.
pub proof fn rows_are_what_is_owed(
    root: Seq<u8>,
    depth: usize,
    nodes: Seq<(Seq<u8>, Tree)>,
    path: Seq<u8>,
)
    requires
        well_named(nodes),
        distinctly_named(nodes),
    ensures
        one_row_each(visited_rows(root, depth, nodes)),
        credit_of(visited_rows(root, depth, nodes), path) == row_owed(
            root,
            depth_limit(depth),
            nodes,
            path,
        ),
{
    visiting_adds_credit(root, depth_limit(depth), 0, root, nodes, Seq::empty(), path);
    credit_is_what_is_owed(root, depth_limit(depth), nodes, path);
}

/// A folder that lies as many levels below the root as the depth option says
/// gets a row of its own, with the bytes of all the files below it.
pub proof fn folder_at_the_limit_gets_all_it_holds(
    root: Seq<u8>,
    depth: usize,
    nodes: Seq<(Seq<u8>, Tree)>,
    names: Seq<Seq<u8>>,
    path: Seq<u8>,
)
    requires
        well_named(nodes),
        distinctly_named(nodes),
        names.len() == depth,
        node_at(nodes, names) matches Some(tree) && tree is Folder,
        components(path) == components(root) + names,
    ensures
        credit_of(visited_rows(root, depth, nodes), path) == Some(
            bytes_of(node_at(nodes, names)->0),
        ),
{
    rows_are_what_is_owed(root, depth, nodes, path);
    let base = components(root);
    assert(base =~= components(path).subrange(0, base.len() as int));
    assert(components(path).skip(base.len() as int) =~= names);
}

/// What has the name of a node is that node.
proof fn named_at(nodes: Seq<(Seq<u8>, Tree)>, i: int)
    requires
        well_named(nodes),
        distinctly_named(nodes),
        0 <= i < nodes.len(),
    ensures
        is_file_name(nodes[i].0),
        named(nodes, nodes[i].0) == Some(nodes[i].1),
    decreases nodes.len(),
{
    if i > 0 {
        let others = nodes.drop_first();
        named_at(others, i - 1);
        assert(others[i - 1] == nodes[i]);
    }
}

/// A direct child of the root is credited with the files below it that lie in
/// no folder at the depth limit, or, where it is itself at the limit, with
/// all that it holds.
pub proof fn child_gets_its_loose_files(
    root: Seq<u8>,
    depth: usize,
    nodes: Seq<(Seq<u8>, Tree)>,
    i: int,
)
    requires
        well_named(nodes),
        distinctly_named(nodes),
        0 <= i < nodes.len(),
    ensures
        credit_of(visited_rows(root, depth, nodes), joined(root, nodes[i].0)) == child_credit(
            depth_limit(depth),
            nodes[i].1,
        ),
{
    let child = joined(root, nodes[i].0);
    let base = components(root);
    named_at(nodes, i);
    rows_are_what_is_owed(root, depth, nodes, child);
    joined_is_under(root, nodes[i].0);
    joining_adds_one_component(root, nodes[i].0);
    assert(components(child).skip(base.len() as int) =~= seq![nodes[i].0]);
}

/// How many folders lie one within the other at or below these nodes.
pub open spec fn folder_height(nodes: Seq<(Seq<u8>, Tree)>) -> nat
    decreases nodes,
{
    if nodes.len() == 0 {
        0
    } else {
        let first = match nodes[0].1 {
            Tree::Folder(Some(inner)) => 1 + folder_height(inner),
            Tree::Folder(None) => 1,
            _ => 0,
        };
        let rest = folder_height(nodes.drop_first());
        if first > rest {
            first
        } else {
            rest
        }
    }
}

/// Below the depth limit all files are outside of folders at the limit.
proof fn shallow_files_are_loose(max_depth: usize, depth: nat, nodes: Seq<(Seq<u8>, Tree)>)
    requires
        depth + folder_height(nodes) < max_depth,
    ensures
        loose_bytes(max_depth, depth, nodes) == bytes_below(nodes),
    decreases nodes,
{
    if nodes.len() > 0 {
        if let Tree::Folder(Some(inner)) = nodes[0].1 {
            shallow_files_are_loose(max_depth, depth + 1, inner);
        }
        shallow_files_are_loose(max_depth, depth, nodes.drop_first());
    }
}

/// The height at or below one of the nodes.
proof fn height_at(nodes: Seq<(Seq<u8>, Tree)>, name: Seq<u8>)
    ensures
        named(nodes, name) matches Some(Tree::Folder(inner)) ==> 1 + folder_height(
            tree_nodes(inner),
        ) <= folder_height(nodes),
    decreases nodes.len(),
{
    if nodes.len() > 0 && nodes[0].0 != name {
        height_at(nodes.drop_first(), name);
    }
}

/// No folder is deeper than the height.
proof fn folders_are_within_height(nodes: Seq<(Seq<u8>, Tree)>, names: Seq<Seq<u8>>)
    ensures
        node_at(nodes, names) matches Some(tree) && tree is Folder ==> names.len()
            <= folder_height(nodes),
    decreases names.len(),
{
    if names.len() > 0 {
        height_at(nodes, names[0]);
        if let Some(Tree::Folder(Some(inner))) = named(nodes, names[0]) {
            folders_are_within_height(inner, names.drop_first());
        }
    }
}

/// Whether all that gets a row is a direct child of the root: the limit is
/// one level down, or further down than any folder, as without a limit.
pub open spec fn groups_by_child(depth: usize, nodes: Seq<(Seq<u8>, Tree)>) -> bool {
    depth_limit(depth) == 1 || folder_height(nodes) < depth_limit(depth)
}

/// At depth one, and where no folder is as deep as the limit, each direct
/// child of the root that gets a row is credited with exactly the bytes of
/// all the files at or below it.
pub proof fn child_is_credited_with_all_it_holds(
    root: Seq<u8>,
    depth: usize,
    nodes: Seq<(Seq<u8>, Tree)>,
    i: int,
)
    requires
        well_named(nodes),
        distinctly_named(nodes),
        groups_by_child(depth, nodes),
        0 <= i < nodes.len(),
    ensures
        credit_of(visited_rows(root, depth, nodes), joined(root, nodes[i].0)) == if child_credit(
            depth_limit(depth),
            nodes[i].1,
        ) is Some {
            Some(bytes_of(nodes[i].1))
        } else {
            None
        },
{
    child_gets_its_loose_files(root, depth, nodes, i);
    named_at(nodes, i);
    height_at(nodes, nodes[i].0);
    if let Tree::Folder(inner) = nodes[i].1 {
        if depth_limit(depth) != 1 {
            shallow_files_are_loose(depth_limit(depth), 1, tree_nodes(inner));
        }
    }
}

/// At depth one, and where no folder is as deep as the limit, nothing but the
/// direct children of the root gets a row.
pub proof fn only_children_are_credited(
    root: Seq<u8>,
    depth: usize,
    nodes: Seq<(Seq<u8>, Tree)>,
    path: Seq<u8>,
)
    requires
        well_named(nodes),
        distinctly_named(nodes),
        groups_by_child(depth, nodes),
        forall|i: int|
            0 <= i < nodes.len() ==> components(path) != components(
                joined(root, (#[trigger] nodes[i]).0),
            ),
    ensures
        credit_of(visited_rows(root, depth, nodes), path) is None,
{
    let base = components(root);
    let names = components(path).skip(base.len() as int);
    rows_are_what_is_owed(root, depth, nodes, path);
    folders_are_within_height(nodes, names);
    if is_under(path, root) && names.len() == 1 && named(nodes, names[0]) is Some {
        let i = place_of(nodes, names[0]);
        named_at(nodes, i);
        joining_adds_one_component(root, nodes[i].0);
        assert(components(path) =~= components(joined(root, nodes[i].0)));
    }
}

/// Where a name is among the nodes.
proof fn place_of(nodes: Seq<(Seq<u8>, Tree)>, name: Seq<u8>) -> (i: int)
    requires
        named(nodes, name) is Some,
    ensures
        0 <= i < nodes.len(),
        nodes[i].0 == name,
    decreases nodes.len(),
{
    if nodes[0].0 == name {
        0
    } else {
        1 + place_of(nodes.drop_first(), name)
    }
}

/// At depth one every file and every folder directly below the root gets a
/// row.
pub proof fn depth_one_credits_every_child(
    root: Seq<u8>,
    nodes: Seq<(Seq<u8>, Tree)>,
    i: int,
)
    requires
        well_named(nodes),
        distinctly_named(nodes),
        0 <= i < nodes.len(),
        nodes[i].1 is File || nodes[i].1 is Folder,
    ensures
        credit_of(visited_rows(root, 1, nodes), joined(root, nodes[i].0)) == Some(
            bytes_of(nodes[i].1),
        ),
{
    child_is_credited_with_all_it_holds(root, 1, nodes, i);
}

/// What is below a direct child of the root adds its bytes to the rows under
/// that child, and to none under another.
proof fn visiting_raises_totals(
    root: Seq<u8>,
    name: Seq<u8>,
    max_depth: usize,
    depth: usize,
    dir: Seq<u8>,
    nodes: Seq<(Seq<u8>, Tree)>,
    rows: Seq<RowView>,
    other: Seq<u8>,
)
    requires
        is_file_name(name),
        is_file_name(other),
        is_under(dir, joined(root, name)),
        well_named(nodes),
        depth < max_depth,
    ensures
        row_total(rows_after(root, max_depth, depth, dir, nodes, rows)) == row_total(rows)
            + bytes_below(nodes),
        total_under(rows_after(root, max_depth, depth, dir, nodes, rows), joined(root, other))
            == total_under(rows, joined(root, other)) + if other == name {
            bytes_below(nodes)
        } else {
            0
        },
    decreases nodes,
{
    if nodes.len() > 0 {
        let child = joined(root, name);
        let base = joined(root, other);
        let here = joined(dir, nodes[0].0);
        let others = nodes.drop_first();
        let next = rows_after(root, max_depth, depth, dir, seq![nodes[0]], rows);
        assert(seq![nodes[0]].drop_first() =~= Seq::empty());
        reveal_with_fuel(rows_after, 2);
        joined_is_under(dir, nodes[0].0);
        under_is_transitive(here, dir, child);
        file_name_is_component(name);
        direct_child_of_descendant(root, name, here);
        under_one_child(root, name, other, here);
        under_one_child(root, name, other, child);
        match nodes[0].1 {
            Tree::File(size) => {
                crediting_raises_total(rows, child, size as nat);
                crediting_raises_total_under(rows, child, size as nat, base);
            },
            Tree::Folder(Some(inner)) => {
                if depth + 1 < max_depth {
                    visiting_raises_totals(
                        root,
                        name,
                        max_depth,
                        (depth + 1) as usize,
                        here,
                        inner,
                        rows,
                        other,
                    );
                } else {
                    crediting_raises_total(rows, here, bytes_below(inner));
                    crediting_raises_total_under(rows, here, bytes_below(inner), base);
                }
            },
            Tree::Folder(None) => {
                crediting_raises_total(rows, here, 0);
                crediting_raises_total_under(rows, here, 0, base);
            },
            _ => {},
        }
        visiting_raises_totals(root, name, max_depth, depth, dir, others, next, other);
    }
}

/// A path under one direct child of the root is under no other.
proof fn under_one_child(root: Seq<u8>, name: Seq<u8>, other: Seq<u8>, path: Seq<u8>)
    requires
        is_file_name(name),
        is_file_name(other),
        is_under(path, joined(root, name)) || path == joined(root, name),
    ensures
        is_under(path, joined(root, other)) <==> other == name,
{
    let at = components(root).len() as int;
    let child = joined(root, name);
    joining_adds_one_component(root, name);
    joining_adds_one_component(root, other);
    assert(components(child) =~= components(child).subrange(0, components(child).len() as int));
    under_extends(path, child, at);
    if is_under(path, joined(root, other)) {
        under_extends(path, joined(root, other), at);
    }
}

/// The nodes below the root add their bytes to the rows.
proof fn visiting_children_raises_totals(
    root: Seq<u8>,
    max_depth: usize,
    nodes: Seq<(Seq<u8>, Tree)>,
    rows: Seq<RowView>,
    other: Seq<u8>,
)
    requires
        well_named(nodes),
        distinctly_named(nodes),
        is_file_name(other),
        max_depth > 0,
    ensures
        row_total(rows_after(root, max_depth, 0, root, nodes, rows)) == row_total(rows)
            + bytes_below(nodes),
        total_under(rows_after(root, max_depth, 0, root, nodes, rows), joined(root, other))
            == total_under(rows, joined(root, other)) + match named(nodes, other) {
            Some(tree) => bytes_of(tree),
            None => 0,
        },
    decreases nodes.len(),
{
    if nodes.len() > 0 {
        let (name, tree) = nodes[0];
        let child = joined(root, name);
        let base = joined(root, other);
        let next = rows_after(root, max_depth, 0, root, seq![nodes[0]], rows);
        assert(seq![nodes[0]].drop_first() =~= Seq::empty());
        reveal_with_fuel(rows_after, 2);
        file_name_is_component(name);
        direct_child_of_joined(root, name);
        under_one_child(root, name, other, child);
        crediting_raises_total(rows, child, bytes_of(tree));
        crediting_raises_total_under(rows, child, bytes_of(tree), base);
        if let Tree::Folder(Some(inner)) = tree {
            if 1 < max_depth {
                assert(components(child) =~= components(child).subrange(
                    0,
                    components(child).len() as int,
                ));
                visiting_raises_totals(root, name, max_depth, 1, child, inner, rows, other);
            }
        }
        visiting_children_raises_totals(root, max_depth, nodes.drop_first(), next, other);
    }
}

/// The rows add up to the bytes of all the files below the root.
pub proof fn rows_add_up(root: Seq<u8>, depth: usize, nodes: Seq<(Seq<u8>, Tree)>)
    requires
        well_named(nodes),
        distinctly_named(nodes),
    ensures
        row_total(visited_rows(root, depth, nodes)) == bytes_below(nodes),
{
    if nodes.len() > 0 {
        visiting_children_raises_totals(
            root,
            depth_limit(depth),
            nodes,
            Seq::empty(),
            nodes[0].0,
        );
    }
}

/// The depth option decides how finely the bytes below a direct child of the
/// root are grouped, never how many they are: the rows of the child and of
/// what is under it add up to the bytes of all the files at or below it.
pub proof fn depth_moves_nothing_between_children(
    root: Seq<u8>,
    depth: usize,
    nodes: Seq<(Seq<u8>, Tree)>,
    i: int,
)
    requires
        well_named(nodes),
        distinctly_named(nodes),
        0 <= i < nodes.len(),
    ensures
        total_under(visited_rows(root, depth, nodes), joined(root, nodes[i].0)) == bytes_of(
            nodes[i].1,
        ),
{
    named_at(nodes, i);
    visiting_children_raises_totals(
        root,
        depth_limit(depth),
        nodes,
        Seq::empty(),
        nodes[i].0,
    );
}

/// One more item at the front adds its size.
proof fn total_with_first(item: ItemView, items: Seq<ItemView>)
    ensures
        item_total(seq![item] + items) == item.size + item_total(items),
    decreases items.len(),
{
    let all = seq![item] + items;
    if items.len() == 0 {
        assert(all.drop_last() =~= items);
    } else {
        total_with_first(item, items.drop_last());
        assert(all.drop_last() =~= seq![item] + items.drop_last());
    }
}

/// The children of a folder add up to what the folder holds.
pub proof fn children_add_up(dir: Seq<u8>, nodes: Seq<(Seq<u8>, Tree)>)
    ensures
        item_total(child_items(dir, nodes)) == bytes_below(nodes),
    decreases nodes.len(),
{
    if nodes.len() > 0 {
        let items = child_items(dir, nodes);
        let others = child_items(dir, nodes.drop_first());
        children_add_up(dir, nodes.drop_first());
        if items.len() > others.len() {
            total_with_first(items[0], others);
            assert(items =~= seq![items[0]] + others);
        } else {
            assert(items =~= others);
        }
        if nodes[0].1 == Tree::Folder(None) {
            assert(bytes_below(tree_nodes(None)) == 0);
        }
    }
}

/// The entries of a folder have the names of what is in it, and say of each
/// what it is; of a file, its size.
pub proof fn entries_tell_what_is_in_a_folder(nodes: Seq<(Seq<u8>, Tree)>, i: int)
    requires
        0 <= i < nodes.len(),
    ensures
        tree_entries(nodes).len() == nodes.len(),
        tree_entries(nodes)[i].name == nodes[i].0,
        ({
            let kind = tree_entries(nodes)[i].kind;
            &&& nodes[i].1 matches Tree::File(size) ==> kind == EntryKind::File(size)
            &&& nodes[i].1 is Folder <==> kind is Folder
            &&& nodes[i].1 is Link <==> kind is Link
            &&& nodes[i].1 is Other <==> kind is Other
            &&& nodes[i].1 is Unknown <==> kind is Unknown
        }),
{
}

/// The bytes below nodes are those of their files: they add up, a file has its
/// size, a folder what is below it, and nothing else any.
pub proof fn bytes_are_those_of_files(
    a: Seq<(Seq<u8>, Tree)>,
    b: Seq<(Seq<u8>, Tree)>,
    node: (Seq<u8>, Tree),
)
    ensures
        bytes_below(a + b) == bytes_below(a) + bytes_below(b),
        bytes_below(seq![node]) == match node.1 {
            Tree::File(size) => size as nat,
            Tree::Folder(Some(inner)) => bytes_below(inner),
            _ => 0,
        },
        bytes_below(Seq::empty()) == 0,
    decreases a.len(),
{
    assert(seq![node].drop_first() =~= Seq::empty());
    reveal_with_fuel(bytes_below, 2);
    assert(seq![node][0] == node);
    if a.len() == 0 {
        assert(a + b =~= b);
    } else {
        bytes_are_those_of_files(a.drop_first(), b, node);
        assert((a + b).drop_first() =~= a.drop_first() + b);
        assert((a + b)[0] == a[0]);
    }
}

/// The entries counted at or below nodes add up over the nodes.
pub proof fn counts_add_up(
    kind: FrameKind,
    max_depth: usize,
    edition: Edition,
    a: Seq<(Seq<u8>, Tree)>,
    b: Seq<(Seq<u8>, Tree)>,
    node: (Seq<u8>, Tree),
)
    ensures
        counted_below(kind, max_depth, edition, a + b) == counted_below(kind, max_depth, edition, a)
            + counted_below(kind, max_depth, edition, b),
        counted_below(kind, max_depth, edition, seq![node]) == counted(
            kind,
            edition,
            tree_kind(node.1),
        ) + match node.1 {
            Tree::Folder(Some(inner)) => counted_below(
                inner_kind(kind, max_depth),
                max_depth,
                edition,
                inner,
            ),
            _ => 0,
        },
    decreases a.len(),
{
    assert(seq![node].drop_first() =~= Seq::empty());
    assert(seq![node][0] == node);
    reveal_with_fuel(counted_below, 2);
    if a.len() == 0 {
        assert(a + b =~= b);
    } else {
        counts_add_up(kind, max_depth, edition, a.drop_first(), b, node);
        assert((a + b).drop_first() =~= a.drop_first() + b);
        assert((a + b)[0] == a[0]);
    }
}

/// The children of a folder are its files with their sizes, its folders with
/// the bytes below them and all else with no bytes, in order and under their
/// own paths; links, and what cannot be told, are left out.
pub proof fn children_are_what_is_in_the_folder(
    dir: Seq<u8>,
    a: Seq<(Seq<u8>, Tree)>,
    b: Seq<(Seq<u8>, Tree)>,
    node: (Seq<u8>, Tree),
)
    ensures
        child_items(dir, a + b) == child_items(dir, a) + child_items(dir, b),
        ({
            let items = child_items(dir, seq![node]);
            &&& node.1 is Link || node.1 is Unknown ==> items.len() == 0
            &&& !(node.1 is Link || node.1 is Unknown) ==> {
                &&& items.len() == 1
                &&& items[0].path == joined(dir, node.0)
                &&& items[0].size == bytes_of(node.1)
                &&& items[0].is_dir == node.1 is Folder
            }
        }),
        child_items(dir, Seq::empty()).len() == 0,
    decreases a.len(),
{
    assert(seq![node].drop_first() =~= Seq::empty());
    assert(seq![node][0] == node);
    reveal_with_fuel(child_items, 2);
    assert(bytes_below(tree_nodes(None)) == 0);
    if a.len() == 0 {
        assert(a + b =~= b);
        assert(child_items(dir, a) + child_items(dir, b) =~= child_items(dir, b));
    } else {
        children_are_what_is_in_the_folder(dir, a.drop_first(), b, node);
        assert((a + b).drop_first() =~= a.drop_first() + b);
        assert((a + b)[0] == a[0]);
        assert(child_items(dir, a + b) =~= child_items(dir, a) + child_items(dir, b));
    }
}

/// The rows do not depend on a limit that is further down than any folder.
proof fn rows_beyond_the_limit_are_alike(
    root: Seq<u8>,
    a: usize,
    b: usize,
    depth: usize,
    dir: Seq<u8>,
    nodes: Seq<(Seq<u8>, Tree)>,
    rows: Seq<RowView>,
)
    requires
        depth + folder_height(nodes) < a,
        depth + folder_height(nodes) < b,
    ensures
        rows_after(root, a, depth, dir, nodes, rows) == rows_after(
            root,
            b,
            depth,
            dir,
            nodes,
            rows,
        ),
    decreases nodes,
{
    if nodes.len() > 0 {
        let path = joined(dir, nodes[0].0);
        let others = nodes.drop_first();
        let next = rows_after(root, a, depth, dir, seq![nodes[0]], rows);
        assert(seq![nodes[0]].drop_first() =~= Seq::empty());
        reveal_with_fuel(rows_after, 2);
        if let Tree::Folder(Some(inner)) = nodes[0].1 {
            rows_beyond_the_limit_are_alike(
                root,
                a,
                b,
                (depth + 1) as usize,
                path,
                inner,
                rows,
            );
        }
        rows_beyond_the_limit_are_alike(root, a, b, depth, dir, others, next);
    }
}

/// Depth zero is no limit: it gives the same rows as any depth that is further
/// down than all folders, however deep they are.
pub proof fn depth_zero_is_beyond_all_folders(
    root: Seq<u8>,
    depth: usize,
    nodes: Seq<(Seq<u8>, Tree)>,
)
    requires
        folder_height(nodes) < depth,
    ensures
        visited_rows(root, 0, nodes) == visited_rows(root, depth, nodes),
{
    rows_beyond_the_limit_are_alike(
        root,
        depth_limit(0),
        depth_limit(depth),
        0,
        root,
        nodes,
        Seq::empty(),
    );
}

/// Whether these names lead to a file.
pub open spec fn leads_to_a_file(nodes: Seq<(Seq<u8>, Tree)>, names: Seq<Seq<u8>>) -> bool {
    node_at(nodes, names) matches Some(tree) && tree is File
}

/// Whether a file is reached from the nodes by at most so many names.
pub open spec fn holds_a_file(nodes: Seq<(Seq<u8>, Tree)>, levels: int) -> bool {
    exists|names: Seq<Seq<u8>>| names.len() <= levels && #[trigger] leads_to_a_file(nodes, names)
}

/// A file outside of folders at the limit is one that few enough names lead
/// to.
proof fn loose_files_are_reached(max_depth: usize, depth: nat, nodes: Seq<(Seq<u8>, Tree)>)
    requires
        distinctly_named(nodes),
        depth < max_depth,
    ensures
        any_loose(max_depth, depth, nodes) <==> holds_a_file(nodes, max_depth - depth),
    decreases nodes,
{
    let levels = max_depth - depth;
    if nodes.len() > 0 {
        let others = nodes.drop_first();
        let (name, tree) = nodes[0];
        loose_files_are_reached(max_depth, depth, others);
        if holds_a_file(others, levels) {
            let names = choose|names: Seq<Seq<u8>>|
                names.len() <= levels && #[trigger] leads_to_a_file(others, names);
            assert(names[0] != name);
            assert(node_at(nodes, names) == node_at(others, names));
            assert(leads_to_a_file(nodes, names));
        }
        if tree is File {
            assert(node_at(nodes, seq![name]) == Some(tree));
            assert(leads_to_a_file(nodes, seq![name]));
        }
        if let Tree::Folder(Some(inner)) = tree {
            if depth + 1 < max_depth {
                loose_files_are_reached(max_depth, depth + 1, inner);
                if holds_a_file(inner, levels - 1) {
                    let names = choose|names: Seq<Seq<u8>>|
                        names.len() <= levels - 1 && #[trigger] leads_to_a_file(inner, names);
                    let longer = seq![name] + names;
                    assert(longer.drop_first() =~= names);
                    assert(longer[0] == name);
                    assert(leads_to_a_file(nodes, longer));
                }
            }
        }
        if holds_a_file(nodes, levels) {
            let names = choose|names: Seq<Seq<u8>>|
                names.len() <= levels && #[trigger] leads_to_a_file(nodes, names);
            if names[0] == name {
                if names.len() > 1 {
                    let inner = tree->Folder_0->0;
                    assert(leads_to_a_file(inner, names.drop_first()));
                    assert(depth + 1 < max_depth);
                    assert(holds_a_file(inner, levels - 1));
                }
            } else {
                assert(node_at(nodes, names) == node_at(others, names));
                assert(leads_to_a_file(others, names));
            }
        }
    } else if holds_a_file(nodes, levels) {
        let names = choose|names: Seq<Seq<u8>>|
            names.len() <= levels && #[trigger] leads_to_a_file(nodes, names);
        assert(named(nodes, names[0]) is None);
    }
}

/// Few folders one within the other, and few names lead to a file.
proof fn files_are_within_height(nodes: Seq<(Seq<u8>, Tree)>, names: Seq<Seq<u8>>)
    requires
        leads_to_a_file(nodes, names),
    ensures
        names.len() <= folder_height(nodes) + 1,
    decreases names.len(),
{
    height_at(nodes, names[0]);
    if names.len() > 1 {
        let inner = named(nodes, names[0])->0->Folder_0->0;
        files_are_within_height(inner, names.drop_first());
    }
}

/// A folder directly below the root, where the depth is two or more, has a row
/// exactly if a file in it lies no more than that many levels below the root.
pub proof fn folder_has_a_row_for_the_files_above_the_limit(
    root: Seq<u8>,
    depth: usize,
    nodes: Seq<(Seq<u8>, Tree)>,
    i: int,
    inner: Seq<(Seq<u8>, Tree)>,
)
    requires
        well_named(nodes),
        distinctly_named(nodes),
        0 <= i < nodes.len(),
        nodes[i].1 == Tree::Folder(Some(inner)),
        depth >= 2,
    ensures
        credit_of(visited_rows(root, depth, nodes), joined(root, nodes[i].0)) is Some
            <==> holds_a_file(inner, depth - 1),
{
    child_gets_its_loose_files(root, depth, nodes, i);
    distinct_at(nodes, i);
    loose_files_are_reached(depth, 1, inner);
}

/// What is in a node of distinctly named nodes is distinctly named.
proof fn distinct_at(nodes: Seq<(Seq<u8>, Tree)>, i: int)
    requires
        distinctly_named(nodes),
        0 <= i < nodes.len(),
    ensures
        nodes[i].1 matches Tree::Folder(Some(inner)) ==> distinctly_named(inner),
    decreases nodes.len(),
{
    if i > 0 {
        distinct_at(nodes.drop_first(), i - 1);
    }
}

/// At depth zero, however deep the folders are, each direct child of the root
/// that is a file or holds one is credited with the bytes of all the files at
/// or below it, and no other child has a row.
pub proof fn depth_zero_credits_children_with_all_they_hold(
    root: Seq<u8>,
    nodes: Seq<(Seq<u8>, Tree)>,
    i: int,
)
    requires
        well_named(nodes),
        distinctly_named(nodes),
        folder_height(nodes) < usize::MAX,
        0 <= i < nodes.len(),
    ensures
        ({
            let credit = credit_of(visited_rows(root, 0, nodes), joined(root, nodes[i].0));
            match nodes[i].1 {
                Tree::File(size) => credit == Some(size as nat),
                Tree::Folder(Some(inner)) => credit == if exists|names: Seq<Seq<u8>>| #[trigger]
                    leads_to_a_file(inner, names) {
                    Some(bytes_below(inner))
                } else {
                    None
                },
                _ => credit is None,
            }
        }),
{
    child_is_credited_with_all_it_holds(root, 0, nodes, i);
    named_at(nodes, i);
    height_at(nodes, nodes[i].0);
    distinct_at(nodes, i);
    if let Tree::Folder(Some(inner)) = nodes[i].1 {
        loose_files_are_reached(depth_limit(0), 1, inner);
        if exists|names: Seq<Seq<u8>>| #[trigger] leads_to_a_file(inner, names) {
            let names = choose|names: Seq<Seq<u8>>| #[trigger] leads_to_a_file(inner, names);
            files_are_within_height(inner, names);
            assert(holds_a_file(inner, depth_limit(0) - 1));
        }
    }
}

/// At depth zero, however deep the folders are, nothing but the direct
/// children of the root has a row.
pub proof fn depth_zero_credits_only_children(
    root: Seq<u8>,
    nodes: Seq<(Seq<u8>, Tree)>,
    path: Seq<u8>,
)
    requires
        well_named(nodes),
        distinctly_named(nodes),
        folder_height(nodes) < usize::MAX,
        forall|i: int|
            0 <= i < nodes.len() ==> components(path) != components(
                joined(root, (#[trigger] nodes[i]).0),
            ),
    ensures
        credit_of(visited_rows(root, 0, nodes), path) is None,
{
    only_children_are_credited(root, 0, nodes, path);
}

/// A visit that is handed the listings of a folder ends with its rows and with
/// the bytes of all the files below it.
pub proof fn visit_of_folder(
    root: Seq<u8>,
    depth: usize,
    edition: Edition,
    folder: Option<Seq<(Seq<u8>, Tree)>>,
)
    ensures
        ({
            let end = driven(
                started(root, FrameKind::Visit(0), depth_limit(depth), edition),
                all_listings(folder),
                all_steps(folder),
            );
            &&& end.frames.len() == 0
            &&& end.sizes == visited_rows(root, depth, tree_nodes(folder))
            &&& end.total == bytes_below(tree_nodes(folder))
        }),
{
    walk_of_folder(root, FrameKind::Visit(0), depth_limit(depth), edition, folder);
}

/// The sizing of the children of a folder that is handed its listings ends
/// with those children.
pub proof fn sizing_of_children(dir: Seq<u8>, folder: Option<Seq<(Seq<u8>, Tree)>>)
    ensures
        ({
            let end = driven(
                started(dir, FrameKind::Children, 1, Edition::Browser),
                all_listings(folder),
                all_steps(folder),
            );
            &&& end.frames.len() == 0
            &&& end.items == child_items(dir, tree_nodes(folder))
        }),
{
    walk_of_folder(dir, FrameKind::Children, 1, Edition::Browser, folder);
}

/// The folders at or below these nodes, which lie in `dir`, each with its path
/// and its listing.
pub open spec fn folders_below(dir: Seq<u8>, nodes: Seq<(Seq<u8>, Tree)>) -> Seq<
    (Seq<u8>, Option<Seq<EntryView>>),
>
    decreases nodes,
{
    if nodes.len() == 0 {
        Seq::empty()
    } else {
        let path = joined(dir, nodes[0].0);
        (match nodes[0].1 {
            Tree::Folder(Some(inner)) => seq![(path, Some(tree_entries(inner)))] + folders_below(
                path,
                inner,
            ),
            Tree::Folder(None) => seq![(path, None)],
            _ => Seq::empty(),
        }) + folders_below(dir, nodes.drop_first())
    }
}

/// The directories that a driven walk asks for, each with the listing that it
/// is handed.
pub open spec fn asked(
    w: WalkView,
    listings: Seq<Option<Seq<EntryView>>>,
    fuel: nat,
) -> Seq<(Seq<u8>, Option<Seq<EntryView>>)>
    decreases fuel,
{
    if fuel == 0 || w.frames.len() == 0 {
        Seq::empty()
    } else if is_waiting(w) {
        if listings.len() == 0 {
            Seq::empty()
        } else {
            seq![(w.frames.last().dir, listings[0])] + asked(
                supplied(w, listings[0]),
                listings.drop_first(),
                (fuel - 1) as nat,
            )
        }
    } else {
        asked(advanced(w), listings, (fuel - 1) as nat)
    }
}

/// What a walk asks for while it works through what is left in the innermost
/// directory.
#[verifier::rlimit(60)]
proof fn asking_goes_through(
    w: WalkView,
    nodes: Seq<(Seq<u8>, Tree)>,
    rest: Seq<Option<Seq<EntryView>>>,
    fuel: nat,
)
    requires
        w.frames.len() > 0,
        w.frames.last().todo == Some(tree_entries(nodes)),
        w.frames.last().kind matches FrameKind::Visit(depth) ==> depth < w.max_depth,
    ensures
        asked(w, listings_below(nodes) + rest, steps_below(nodes) + fuel) == folders_below(
            w.frames.last().dir,
            nodes,
        ) + asked(through(w, nodes), rest, fuel),
    decreases nodes,
{
    let listings = listings_below(nodes) + rest;
    let steps = steps_below(nodes) + fuel;
    let dir = w.frames.last().dir;
    if nodes.len() == 0 {
        through_nothing(w, nodes);
        assert(listings =~= rest);
        assert(folders_below(dir, nodes) + asked(w, rest, fuel) =~= asked(w, rest, fuel));
    } else {
        let others = nodes.drop_first();
        let later = listings_below(others) + rest;
        first_entry(nodes);
        match nodes[0].1 {
            Tree::Folder(folder) => {
                through_folder(w, nodes, folder);
                let inside = tree_nodes(folder);
                let path = joined(dir, nodes[0].0);
                let entered = advanced(w);
                let listed = supplied(entered, tree_listing(folder));
                let inner = through(listed, inside);
                let out = advanced(inner);
                let after = steps_below(others) + fuel;
                assert(entered.frames.last().dir == path);
                assert(listed.frames.last().dir == path);
                assert(out.frames.last().dir == dir);
                assert(listings_below(inside) =~= match folder {
                    Some(n) => listings_below(n),
                    None => Seq::empty(),
                });
                assert(listings =~= seq![tree_listing(folder)] + (listings_below(inside) + later));
                assert(listings.drop_first() =~= listings_below(inside) + later);
                assert(steps == 3 + steps_below(inside) + after);
                assert(asked(w, listings, steps) == asked(entered, listings, (steps - 1) as nat));
                assert(asked(entered, listings, (steps - 1) as nat) == seq![
                    (path, tree_listing(folder)),
                ] + asked(listed, listings.drop_first(), (steps - 2) as nat));
                if let Some(n) = folder {
                    asking_goes_through(listed, n, later, 1 + after);
                } else {
                    through_nothing(listed, inside);
                    assert(listings_below(inside) + later =~= later);
                    assert(folders_below(path, inside) =~= Seq::empty());
                    assert(folders_below(path, inside) + asked(inner, later, 1 + after)
                        =~= asked(inner, later, 1 + after));
                }
                assert(asked(inner, later, 1 + after) == asked(out, later, after));
                asking_goes_through(out, others, rest, fuel);
                let end = asked(through(w, nodes), rest, fuel);
                assert(folders_below(dir, nodes) =~= seq![(path, tree_listing(folder))]
                    + folders_below(path, inside) + folders_below(dir, others));
                assert(seq![(path, tree_listing(folder))] + (folders_below(path, inside) + (
                folders_below(dir, others) + end)) =~= folders_below(dir, nodes) + end);
            },
            _ => {
                through_plain_node(w, nodes);
                assert(listings =~= later);
                assert(advanced(w).frames.last().dir == dir);
                assert(asked(w, listings, steps) == asked(
                    advanced(w),
                    listings,
                    (steps - 1) as nat,
                ));
                asking_goes_through(advanced(w), others, rest, fuel);
                assert(folders_below(dir, nodes) =~= folders_below(dir, others));
            },
        }
    }
}

/// A walk asks for every folder of the tree once, by its own path, and is
/// handed the listing of that very folder.
pub proof fn folders_are_asked_for_by_their_paths(
    root: Seq<u8>,
    kind: FrameKind,
    max_depth: usize,
    edition: Edition,
    folder: Option<Seq<(Seq<u8>, Tree)>>,
)
    requires
        kind matches FrameKind::Visit(depth) ==> depth < max_depth,
    ensures
        asked(started(root, kind, max_depth, edition), all_listings(folder), all_steps(folder))
            == seq![(root, tree_listing(folder))] + folders_below(root, tree_nodes(folder)),
{
    let nodes = tree_nodes(folder);
    let begin = started(root, kind, max_depth, edition);
    let listings = all_listings(folder);
    let listed = supplied(begin, tree_listing(folder));
    let steps = all_steps(folder);
    let nothing = Seq::<Option<Seq<EntryView>>>::empty();
    assert(tree_entries(Seq::<(Seq<u8>, Tree)>::empty()) =~= Seq::empty());
    assert(listings[0] == tree_listing(folder));
    assert(listings.drop_first() =~= listings_below(nodes) + nothing);
    assert(asked(begin, listings, steps) == seq![(root, tree_listing(folder))] + asked(
        listed,
        listings.drop_first(),
        (steps - 1) as nat,
    ));
    assert(listed.frames.drop_last() =~= Seq::empty());
    asking_goes_through(listed, nodes, nothing, 1);
    let inner = through(listed, nodes);
    assert(inner.frames.drop_last() =~= Seq::empty());
    reveal_with_fuel(asked, 2);
    assert(asked(inner, nothing, 1) =~= Seq::empty());
    assert(folders_below(root, nodes) + asked(inner, nothing, 1) =~= folders_below(root, nodes));
}

/// At every depth, a file directly below the root has a row with its size, and
/// what is neither a file nor a folder has none.
pub proof fn files_below_the_root_have_their_size(
    root: Seq<u8>,
    depth: usize,
    nodes: Seq<(Seq<u8>, Tree)>,
    i: int,
)
    requires
        well_named(nodes),
        distinctly_named(nodes),
        0 <= i < nodes.len(),
    ensures
        ({
            let credit = credit_of(visited_rows(root, depth, nodes), joined(root, nodes[i].0));
            &&& nodes[i].1 matches Tree::File(size) ==> credit == Some(size as nat)
            &&& nodes[i].1 is Link || nodes[i].1 is Other || nodes[i].1 is Unknown ==> credit is None
        }),
{
    child_gets_its_loose_files(root, depth, nodes, i);
}

/// Only what is directly below the root, and the folders that lie as many
/// levels below it as the depth says, have rows.
pub proof fn only_children_and_folders_at_the_limit_have_rows(
    root: Seq<u8>,
    depth: usize,
    nodes: Seq<(Seq<u8>, Tree)>,
    path: Seq<u8>,
)
    requires
        well_named(nodes),
        distinctly_named(nodes),
        depth > 0,
        credit_of(visited_rows(root, depth, nodes), path) is Some,
    ensures
        (exists|i: int|
            0 <= i < nodes.len() && components(path) == components(
                joined(root, (#[trigger] nodes[i]).0),
            )) || (exists|names: Seq<Seq<u8>>|
            names.len() == depth && components(path) == components(root) + names && (
            #[trigger] node_at(nodes, names) matches Some(tree) && tree is Folder)),
{
    let base = components(root);
    let names = components(path).skip(base.len() as int);
    rows_are_what_is_owed(root, depth, nodes, path);
    assert(components(path) =~= base + names);
    if names.len() == 1 {
        let i = place_of(nodes, names[0]);
        named_at(nodes, i);
        joining_adds_one_component(root, nodes[i].0);
        assert(components(path) =~= components(joined(root, nodes[i].0)));
    } else {
        assert(node_at(nodes, names) is Some);
    }
}

/// The row of a folder directly below the root that is not at the limit holds
/// what the rows of the folders at the limit below it leave of its bytes.
pub proof fn the_rest_stays_with_the_child(
    root: Seq<u8>,
    depth: usize,
    nodes: Seq<(Seq<u8>, Tree)>,
    i: int,
) -> (others: nat)
    requires
        well_named(nodes),
        distinctly_named(nodes),
        0 <= i < nodes.len(),
    ensures
        ({
            let rows = visited_rows(root, depth, nodes);
            let child = joined(root, nodes[i].0);
            &&& others + (match credit_of(rows, child) {
                Some(size) => size,
                None => 0,
            }) == bytes_of(nodes[i].1)
            &&& others == total_under(
                rows.filter(|row: RowView| components(row.path) != components(child)),
                child,
            )
        }),
{
    let rows = visited_rows(root, depth, nodes);
    let child = joined(root, nodes[i].0);
    let others = total_under(
        rows.filter(|row: RowView| components(row.path) != components(child)),
        child,
    );
    depth_moves_nothing_between_children(root, depth, nodes, i);
    rows_are_what_is_owed(root, depth, nodes, child);
    total_without_one_row(rows, child);
    others
}

/// The sum under a path is the row of that path and the sum of the others.
proof fn total_without_one_row(rows: Seq<RowView>, base: Seq<u8>)
    requires
        one_row_each(rows),
    ensures
        total_under(rows, base) == total_under(
            rows.filter(|row: RowView| components(row.path) != components(base)),
            base,
        ) + match credit_of(rows, base) {
            Some(size) => size,
            None => 0,
        },
    decreases rows.len(),
{
    let keep = |row: RowView| components(row.path) != components(base);
    reveal(Seq::filter);
    if rows.len() > 0 {
        let front = rows.drop_last();
        let last = rows.last();
        assert(one_row_each(front)) by {
            assert forall|a: int, b: int| 0 <= a < b < front.len() implies components(
                #[trigger] front[a].path,
            ) != components(#[trigger] front[b].path) by {
                assert(front[a] == rows[a] && front[b] == rows[b]);
                assert(components(rows[a].path) != components(rows[b].path));
            }
        }
        total_without_one_row(front, base);
        if keep(last) {
            assert(front.filter(keep).push(last).drop_last() =~= front.filter(keep));
            assert(rows.filter(keep) == front.filter(keep).push(last));
            crate::table::row_index_is_last_match(front, base);
        } else {
            assert(rows.filter(keep) == front.filter(keep));
            crate::table::row_index_is_last_match(front, base);
            let at = crate::table::row_index(front, base);
            if at >= 0 {
                assert(front[at] == rows[at]);
                assert(components(rows[at].path) != components(rows[rows.len() - 1].path));
            }
            let all = components(base);
            assert(all =~= all.subrange(0, all.len() as int));
        }
    } else {
        assert(rows.filter(keep) =~= rows);
    }
}

} // verus!
