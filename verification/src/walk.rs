//! Walking directories one listing at a time.
//!
//! A `Walk` never touches the disk. It says which directory it wants listed,
//! is handed the listing, and works through it; whoever drives it does the
//! reading. `Walk::visit` adds up what lies below a root, in groups: each
//! folder at the depth limit is one, with all that it holds, and the files
//! outside of these go with the direct child of the root that they lie in.
//! `Walk::children` sizes the entries of a single folder.
use crate::path::{
    direct_child, is_file_name, is_under, joined, joined_is_under, names_a_file, top_child,
    under_is_transitive, FilePath,
};
use crate::rank::{item_views, items_under, ItemView, ScanItem};
use crate::table::{credited, row_total, RowView, SizeTable};
use vstd::prelude::*;

verus! {

/// How many counted entries lie between two progress notices.
pub const NOTICE_EVERY: u64 = 500;

/// The two programs: the plain numbered list, and the browser.
#[derive(Debug, Clone, Copy, PartialEq, Eq, Structural)]
pub enum Edition {
    List,
    Browser,
}

/// What an entry is. `Unknown` stands for an entry whose metadata could not be
/// read, `Link` for a symbolic link, which is never followed.
#[derive(Debug, Clone, Copy, PartialEq, Eq, Structural)]
pub enum EntryKind {
    File(u64),
    Folder,
    Link,
    Other,
    Unknown,
}

/// An entry of a directory listing.
#[derive(Debug)]
pub struct DirEntry {
    name: Vec<u8>,
    kind: EntryKind,
}

/// What a `DirEntry` says.
pub struct EntryView {
    pub name: Seq<u8>,
    pub kind: EntryKind,
}

impl View for DirEntry {
    type V = EntryView;

    closed spec fn view(&self) -> EntryView {
        EntryView { name: self.name@, kind: self.kind }
    }
}

impl DirEntry {
    #[verifier::type_invariant]
    spec fn has_file_name(self) -> bool {
        is_file_name(self.name@)
    }

    /// An entry with this name, if a directory can list it.
    pub fn new(name: Vec<u8>, kind: EntryKind) -> (out: Option<DirEntry>)
        ensures
            out is Some <==> is_file_name(name@),
            out is Some ==> out->0@ == (EntryView { name: name@, kind }),
    {
        if names_a_file(name.as_slice()) {
            Some(DirEntry { name, kind })
        } else {
            None
        }
    }
}

/// What a list of entries says.
pub open spec fn entry_views(entries: Seq<DirEntry>) -> Seq<EntryView> {
    Seq::new(entries.len(), |i: int| entries[i]@)
}

/// What a listing says; `None` where the directory could not be read.
pub open spec fn listing_view(listing: Option<Vec<DirEntry>>) -> Option<Seq<EntryView>> {
    match listing {
        Some(entries) => Some(entry_views(entries@)),
        None => None,
    }
}

/// The bytes of a file, and of nothing else.
pub open spec fn file_bytes(kind: EntryKind) -> nat {
    match kind {
        EntryKind::File(size) => size as nat,
        _ => 0,
    }
}

/// The bytes of the files that are listed.
pub open spec fn listed_bytes(entries: Seq<EntryView>) -> nat
    decreases entries.len(),
{
    if entries.len() == 0 {
        0
    } else {
        file_bytes(entries[0].kind) + listed_bytes(entries.drop_first())
    }
}

/// The entries of a listing; an unreadable directory has none.
pub open spec fn entries_of(listing: Option<Seq<EntryView>>) -> Seq<EntryView> {
    match listing {
        Some(entries) => entries,
        None => Seq::empty(),
    }
}

/// What is done with the entries of a directory. `Visit`, at a depth below the
/// root, credits files to the direct children of the root, and the folders at
/// the depth limit with all that they hold; `Sum` only adds up; `Children`
/// makes each entry an item.
#[derive(Debug, Clone, Copy, PartialEq, Eq, Structural)]
pub enum FrameKind {
    Visit(usize),
    Sum,
    Children,
}

/// A directory that the walk is in: what is left to do in it (`None` until it
/// has been listed), and the bytes added up so far.
pub struct FrameView {
    pub dir: Seq<u8>,
    pub kind: FrameKind,
    pub todo: Option<Seq<EntryView>>,
    pub total: nat,
}

/// The state of a walk. The last frame is the innermost directory; without
/// frames the walk is over, and `total` is what it added up.
pub struct WalkView {
    pub root: Seq<u8>,
    pub max_depth: usize,
    pub edition: Edition,
    pub frames: Seq<FrameView>,
    pub count: nat,
    pub sizes: Seq<RowView>,
    pub items: Seq<ItemView>,
    pub total: nat,
}

/// The frame of a directory not listed yet.
pub open spec fn fresh_frame(dir: Seq<u8>, kind: FrameKind) -> FrameView {
    FrameView { dir, kind, todo: None, total: 0 }
}

/// The state before the first listing.
pub open spec fn started(
    root: Seq<u8>,
    kind: FrameKind,
    max_depth: usize,
    edition: Edition,
) -> WalkView {
    WalkView {
        root,
        max_depth,
        edition,
        frames: seq![fresh_frame(root, kind)],
        count: 0,
        sizes: Seq::empty(),
        items: Seq::empty(),
        total: 0,
    }
}

/// The depth limit that a depth option stands for: zero is no limit.
pub open spec fn depth_limit(depth: usize) -> usize {
    if depth == 0 {
        usize::MAX
    } else {
        depth
    }
}

/// Whether the walk waits for a listing.
pub open spec fn is_waiting(w: WalkView) -> bool {
    w.frames.len() > 0 && w.frames.last().todo is None
}

/// The state after the innermost directory has been listed.
pub open spec fn supplied(w: WalkView, listing: Option<Seq<EntryView>>) -> WalkView {
    let top = FrameView { todo: Some(entries_of(listing)), ..w.frames.last() };
    WalkView { frames: w.frames.drop_last().push(top), ..w }
}

/// By how much an entry raises the count.
pub open spec fn counted(kind: FrameKind, edition: Edition, entry: EntryKind) -> nat {
    match kind {
        FrameKind::Visit(_) => if entry == EntryKind::Unknown {
            0
        } else {
            1
        },
        FrameKind::Sum => if entry == EntryKind::Unknown && edition == Edition::List {
            0
        } else {
            1
        },
        FrameKind::Children => 0,
    }
}

/// What is done with the entries of a folder found in a directory.
pub open spec fn inner_kind(kind: FrameKind, max_depth: usize) -> FrameKind {
    match kind {
        FrameKind::Visit(depth) => if depth + 1 < max_depth {
            FrameKind::Visit((depth + 1) as usize)
        } else {
            FrameKind::Sum
        },
        _ => FrameKind::Sum,
    }
}

/// The state after `entry` of directory `top` has been dealt with; `w` holds
/// the frames below `top`.
pub open spec fn entered(w: WalkView, top: FrameView, entry: EntryView) -> WalkView {
    let path = joined(top.dir, entry.name);
    let count = w.count + counted(top.kind, w.edition, entry.kind);
    match entry.kind {
        EntryKind::File(size) => match top.kind {
            FrameKind::Children => WalkView {
                frames: w.frames.push(top),
                items: w.items.push(ItemView { path, size: size as nat, is_dir: false }),
                count,
                ..w
            },
            FrameKind::Visit(_) => WalkView {
                frames: w.frames.push(FrameView { total: top.total + size as nat, ..top }),
                sizes: match direct_child(w.root, path) {
                    Some(child) => credited(w.sizes, child, size as nat),
                    None => w.sizes,
                },
                count,
                ..w
            },
            FrameKind::Sum => WalkView {
                frames: w.frames.push(FrameView { total: top.total + size as nat, ..top }),
                count,
                ..w
            },
        },
        EntryKind::Folder => WalkView {
            frames: w.frames.push(top).push(fresh_frame(path, inner_kind(top.kind, w.max_depth))),
            count,
            ..w
        },
        EntryKind::Other => WalkView {
            frames: w.frames.push(top),
            items: if top.kind == FrameKind::Children {
                w.items.push(ItemView { path, size: 0, is_dir: false })
            } else {
                w.items
            },
            count,
            ..w
        },
        _ => WalkView { frames: w.frames.push(top), count, ..w },
    }
}

/// The state after directory `top` has been dealt with; `w` holds the frames
/// below it.
pub open spec fn left(w: WalkView, top: FrameView) -> WalkView {
    if w.frames.len() == 0 {
        WalkView { total: top.total, ..w }
    } else {
        let parent = w.frames.last();
        let below = w.frames.drop_last();
        let fuller = FrameView { total: parent.total + top.total, ..parent };
        match parent.kind {
            FrameKind::Visit(depth) => WalkView {
                frames: below.push(fuller),
                sizes: if depth + 1 == w.max_depth {
                    credited(w.sizes, top.dir, top.total)
                } else {
                    w.sizes
                },
                ..w
            },
            FrameKind::Sum => WalkView { frames: below.push(fuller), ..w },
            FrameKind::Children => WalkView {
                items: w.items.push(
                    ItemView { path: top.dir, size: top.total, is_dir: true },
                ),
                ..w
            },
        }
    }
}

/// The state after one step: the next entry of the innermost directory, or,
/// where none is left, the way back out of it.
pub open spec fn advanced(w: WalkView) -> WalkView {
    let top = w.frames.last();
    let todo = top.todo->0;
    let below = WalkView { frames: w.frames.drop_last(), ..w };
    if todo.len() == 0 {
        left(below, top)
    } else {
        entered(below, FrameView { todo: Some(todo.drop_first()), ..top }, todo[0])
    }
}

/// The count to be reported after a step, if one is due: where it was raised
/// in a visited directory to a multiple of `NOTICE_EVERY`.
pub open spec fn notice(w: WalkView) -> Option<nat> {
    let top = w.frames.last();
    let count = advanced(w).count;
    if top.kind is Visit && count > w.count && count % NOTICE_EVERY as nat == 0 {
        Some(count)
    } else {
        None
    }
}

/// The bytes of the files left to do in a directory.
pub open spec fn bytes_to_do(frame: FrameView) -> nat {
    match frame.todo {
        Some(todo) => listed_bytes(todo),
        None => 0,
    }
}

/// The entries left to do in a directory.
pub open spec fn entries_to_do(frame: FrameView) -> nat {
    match frame.todo {
        Some(todo) => todo.len(),
        None => 0,
    }
}

/// What the frames have added up, and have yet to.
spec fn held(frames: Seq<FrameView>) -> nat
    decreases frames.len(),
{
    if frames.len() == 0 {
        0
    } else {
        held(frames.drop_last()) + bytes_to_do(frames.last()) + frames.last().total
    }
}

/// What the frames have yet to credit.
spec fn owed(frames: Seq<FrameView>) -> nat
    decreases frames.len(),
{
    if frames.len() == 0 {
        0
    } else {
        owed(frames.drop_last()) + bytes_to_do(frames.last()) + if frames.last().kind
            == FrameKind::Sum {
            frames.last().total
        } else {
            0
        }
    }
}

/// The entries that the frames have yet to deal with.
spec fn entries_left(frames: Seq<FrameView>) -> nat
    decreases frames.len(),
{
    if frames.len() == 0 {
        0
    } else {
        entries_left(frames.drop_last()) + entries_to_do(frames.last())
    }
}

/// The sums over the frames, with one more frame.
proof fn sums_with(frames: Seq<FrameView>, top: FrameView)
    ensures
        held(frames.push(top)) == held(frames) + bytes_to_do(top) + top.total,
        owed(frames.push(top)) == owed(frames) + bytes_to_do(top) + if top.kind == FrameKind::Sum {
            top.total
        } else {
            0
        },
        entries_left(frames.push(top)) == entries_left(frames) + entries_to_do(top),
{
    assert(frames.push(top).drop_last() =~= frames);
}

/// Whether the frames fit together: each is what its parent makes of a
/// folder, and no visited directory lies at or beyond the depth limit.
pub open spec fn frames_fit(frames: Seq<FrameView>, max_depth: usize) -> bool {
    &&& forall|i: int, j: int|
        0 <= i && j == i + 1 && j < frames.len() ==> (#[trigger] frames[j]).kind == inner_kind(
            (#[trigger] frames[i]).kind,
            max_depth,
        )
    &&& forall|i: int|
        0 <= i < frames.len() ==> ((#[trigger] frames[i]).kind matches FrameKind::Visit(depth)
            ==> depth < max_depth)
}

/// Whether the directories of all frames lie at or below `root`.
pub open spec fn frames_under(frames: Seq<FrameView>, root: Seq<u8>) -> bool {
    forall|i: int| 0 <= i < frames.len() ==> is_under((#[trigger] frames[i]).dir, root)
}

/// Whether a walk that was handed so many bytes and entries is within its
/// means.
spec fn within_means(w: WalkView, bytes: nat, listed: nat) -> bool {
    &&& held(w.frames) <= bytes
    &&& row_total(w.sizes) + owed(w.frames) <= bytes
    &&& w.count + entries_left(w.frames) <= listed
}

/// A directory that the walk is in.
#[derive(Debug)]
struct Frame {
    dir: FilePath,
    kind: FrameKind,
    read: bool,
    entries: Vec<DirEntry>,
    next: usize,
    total: u64,
}

impl View for Frame {
    type V = FrameView;

    closed spec fn view(&self) -> FrameView {
        FrameView {
            dir: self.dir@,
            kind: self.kind,
            todo: if self.read {
                Some(entry_views(self.entries@).skip(self.next as int))
            } else {
                None
            },
            total: self.total as nat,
        }
    }
}

/// A walk through directories, driven from outside.
#[derive(Debug)]
pub struct Walk {
    root: FilePath,
    max_depth: usize,
    edition: Edition,
    frames: Vec<Frame>,
    count: u64,
    sizes: SizeTable,
    items: Vec<ScanItem>,
    total: u64,
    bytes: u64,
    listed: u64,
}

impl View for Walk {
    type V = WalkView;

    closed spec fn view(&self) -> WalkView {
        WalkView {
            root: self.root@,
            max_depth: self.max_depth,
            edition: self.edition,
            frames: Seq::new(self.frames@.len(), |i: int| self.frames@[i]@),
            count: self.count as nat,
            sizes: self.sizes@,
            items: item_views(self.items@),
            total: self.total as nat,
        }
    }
}

impl Walk {
    /// The bytes of all files listed so far.
    pub closed spec fn bytes(&self) -> nat {
        self.bytes as nat
    }

    /// The entries listed so far.
    pub closed spec fn listed(&self) -> nat {
        self.listed as nat
    }

    /// What every walk keeps to.
    pub closed spec fn wf(&self) -> bool {
        &&& self.sizes.wf()
        &&& frames_fit(self@.frames, self.max_depth)
        &&& frames_under(self@.frames, self@.root)
        &&& items_under(self@.items, self@.root)
        &&& within_means(self@, self.bytes as nat, self.listed as nat)
        &&& forall|i: int|
            0 <= i < self.frames@.len() ==> (#[trigger] self.frames@[i]).next
                <= self.frames@[i].entries@.len()
    }

    /// A walk that begins at `root`.
    fn start(root: FilePath, kind: FrameKind, max_depth: usize, edition: Edition) -> (out: Walk)
        requires
            kind matches FrameKind::Visit(depth) ==> depth < max_depth,
        ensures
            out.wf(),
            out@ == started(root@, kind, max_depth, edition),
            out.bytes() == 0,
            out.listed() == 0,
    {
        let dir = root.clone();
        let mut frames: Vec<Frame> = Vec::new();
        frames.push(Frame { dir, kind, read: false, entries: Vec::new(), next: 0, total: 0 });
        let out = Walk {
            root,
            max_depth,
            edition,
            frames,
            count: 0,
            sizes: SizeTable::new(),
            items: Vec::new(),
            total: 0,
            bytes: 0,
            listed: 0,
        };
        proof {
            let begin = started(root@, kind, max_depth, edition);
            assert(out@.frames =~= begin.frames);
            assert(out@.items =~= begin.items);
            let all = crate::path::components(root@);
            assert(all =~= all.subrange(0, all.len() as int));
            sums_with(Seq::empty(), fresh_frame(root@, kind));
            assert(begin.frames =~= Seq::<FrameView>::empty().push(fresh_frame(root@, kind)));
        }
        out
    }

    /// A walk that adds up what lies below `root`, grouped by the folders
    /// `depth` levels down: one is the direct children, two is one level
    /// deeper, and zero is no limit.
    pub fn visit(root: FilePath, depth: usize, edition: Edition) -> (out: Walk)
        ensures
            out.wf(),
            out@ == started(root@, FrameKind::Visit(0), depth_limit(depth), edition),
            out.bytes() == 0,
            out.listed() == 0,
    {
        let max_depth = if depth == 0 {
            usize::MAX
        } else {
            depth
        };
        Walk::start(root, FrameKind::Visit(0), max_depth, edition)
    }

    /// A walk that sizes the entries of the folder `dir`.
    pub fn children(dir: FilePath) -> (out: Walk)
        ensures
            out.wf(),
            out@ == started(dir@, FrameKind::Children, 1, Edition::Browser),
            out.bytes() == 0,
            out.listed() == 0,
    {
        Walk::start(dir, FrameKind::Children, 1, Edition::Browser)
    }

    /// Whether there is nothing left to do.
    pub fn is_over(&self) -> (over: bool)
        ensures
            over == (self@.frames.len() == 0),
    {
        self.frames.len() == 0
    }

    /// The directory that the walk waits to have listed, if it waits.
    pub fn wanted(&self) -> (out: Option<&FilePath>)
        ensures
            out is Some <==> is_waiting(self@),
            out is Some ==> out->0@ == self@.frames.last().dir,
    {
        let n = self.frames.len();
        if n == 0 || self.frames[n - 1].read {
            None
        } else {
            Some(&self.frames[n - 1].dir)
        }
    }

    /// What the walk has added up, once it is over.
    pub fn total(&self) -> (out: u64)
        ensures
            out == self@.total,
    {
        self.total
    }

    /// The sizes that the walk has credited.
    pub fn into_sizes(self) -> (out: SizeTable)
        requires
            self.wf(),
        ensures
            out@ == self@.sizes,
            out.wf(),
    {
        self.sizes
    }

    /// The items that the walk has found.
    pub fn into_items(self) -> (out: Vec<ScanItem>)
        requires
            self.wf(),
        ensures
            item_views(out@) == self@.items,
            items_under(item_views(out@), self@.root),
    {
        self.items
    }

    /// Whether a listing can be taken in: whether the bytes and the entries
    /// listed so far, and those of the listing, can still be counted.
    pub fn fits(&self, listing: &Option<Vec<DirEntry>>) -> (fits: bool)
        ensures
            fits == (self.bytes() + listed_bytes(entries_of(listing_view(*listing))) <= u64::MAX
                && self.listed() + entries_of(listing_view(*listing)).len() <= u64::MAX),
    {
        match listing {
            None => true,
            Some(entries) => {
                let n: u64 = entries.len() as u64;
                if n > u64::MAX - self.listed {
                    return false;
                }
                match sum_files(entries, u64::MAX - self.bytes) {
                    Some(_) => true,
                    None => false,
                }
            },
        }
    }
}

impl Walk {
    /// What `wf` asks for, with `top` as one more frame.
    spec fn wf_with(&self, top: Frame) -> bool {
        let w = WalkView { frames: self@.frames.push(top@), ..self@ };
        &&& self.sizes.wf()
        &&& frames_fit(w.frames, self.max_depth)
        &&& frames_under(w.frames, w.root)
        &&& items_under(w.items, w.root)
        &&& within_means(w, self.bytes as nat, self.listed as nat)
        &&& forall|i: int|
            0 <= i < self.frames@.len() ==> (#[trigger] self.frames@[i]).next
                <= self.frames@[i].entries@.len()
        &&& top.next <= top.entries@.len()
    }

    /// Puts `top` on the frames.
    fn put_back(&mut self, top: Frame)
        requires
            old(self).wf_with(top),
        ensures
            final(self).wf(),
            final(self)@ == (WalkView { frames: old(self)@.frames.push(top@), ..old(self)@ }),
            final(self).bytes == old(self).bytes,
            final(self).listed == old(self).listed,
    {
        self.frames.push(top);
        assert(self@.frames =~= old(self)@.frames.push(top@));
    }

    /// Takes the listing of the directory that the walk waits for; `None`
    /// where it could not be read.
    pub fn supply(&mut self, listing: Option<Vec<DirEntry>>)
        requires
            old(self).wf(),
            is_waiting(old(self)@),
            old(self).bytes() + listed_bytes(entries_of(listing_view(listing))) <= u64::MAX,
            old(self).listed() + entries_of(listing_view(listing)).len() <= u64::MAX,
        ensures
            final(self).wf(),
            final(self)@ == supplied(old(self)@, listing_view(listing)),
            final(self).bytes() == old(self).bytes() + listed_bytes(
                entries_of(listing_view(listing)),
            ),
            final(self).listed() == old(self).listed() + entries_of(listing_view(listing)).len(),
    {
        let entries = match listing {
            Some(entries) => entries,
            None => Vec::new(),
        };
        let ghost todo = entries_of(listing_view(listing));
        assert(entry_views(entries@) =~= todo);
        let n: u64 = entries.len() as u64;
        let sum = match sum_files(&entries, u64::MAX) {
            Some(sum) => sum,
            None => 0,
        };
        let ghost before = self@;
        if let Some(mut top) = self.frames.pop() {
            let ghost old_top = before.frames.last();
            assert(top@ == old_top);
            assert(self@.frames =~= before.frames.drop_last());
            top.entries = entries;
            top.next = 0;
            top.read = true;
            self.bytes = self.bytes + sum;
            self.listed = self.listed + n;
            proof {
                assert(entry_views(top.entries@).skip(0) =~= todo);
                sums_with(before.frames.drop_last(), old_top);
                sums_with(before.frames.drop_last(), top@);
                assert(before.frames.drop_last().push(old_top) =~= before.frames);
                frames_keep_places(
                    before.frames.drop_last(),
                    old_top,
                    top@,
                    before.max_depth,
                    before.root,
                );
            }
            self.put_back(top);
            assert(self@ == supplied(before, listing_view(listing)));
        }
    }

    /// Deals with the next entry of `top`.
    fn enter(&mut self, top: Frame)
        requires
            old(self).wf_with(top),
            top.read,
            top.next < top.entries@.len(),
        ensures
            final(self).wf(),
            final(self)@ == entered(
                old(self)@,
                FrameView { todo: Some(top@.todo->0.drop_first()), ..top@ },
                top@.todo->0[0],
            ),
            final(self).bytes == old(self).bytes,
            final(self).listed == old(self).listed,
    {
        let mut top = top;
        let ghost before = self@;
        let ghost was = top@;
        let ghost todo = top@.todo->0;
        let ghost rest = FrameView { todo: Some(todo.drop_first()), ..was };
        assert(top.entries.len() == top.entries@.len());
        let entry = &top.entries[top.next];
        proof {
            use_type_invariant(entry);
        }
        let path = top.dir.join(entry.name.as_slice());
        let found = entry.kind;
        let kind = top.kind;
        let more: u64 = match kind {
            FrameKind::Visit(_) => if matches!(found, EntryKind::Unknown) {
                0
            } else {
                1
            },
            FrameKind::Sum => if matches!(found, EntryKind::Unknown) && matches!(
                self.edition,
                Edition::List
            ) {
                0
            } else {
                1
            },
            FrameKind::Children => 0,
        };
        proof {
            let views = entry_views(top.entries@);
            assert(todo[0] == views[top.next as int]);
            assert(todo.drop_first() =~= views.skip(top.next + 1));
            assert(more == counted(kind, before.edition, found));
            let all = before.frames.push(was);
            assert(all.last() == was);
            assert(is_under(all[all.len() - 1].dir, before.root));
            joined_is_under(was.dir, entry.name@);
            under_is_transitive(path@, was.dir, before.root);
            sums_with(before.frames, was);
        }
        top.next = top.next + 1;
        self.count = self.count + more;
        assert(top@ == rest);
        let ghost counted_state = self@;
        match found {
            EntryKind::File(size) => match kind {
                FrameKind::Children => {
                    self.items.push(ScanItem { path, size, is_dir: false });
                    proof {
                        let item = ItemView { path: path@, size: size as nat, is_dir: false };
                        assert(self@.items =~= before.items.push(item));
                        items_stay_under(before.items, item, before.root);
                        sums_with(before.frames, rest);
                        frames_keep_places(before.frames, was, rest, before.max_depth, before.root);
                    }
                    self.put_back(top);
                },
                FrameKind::Visit(_) => {
                    top.total = top.total + size;
                    let ghost fuller = FrameView { total: rest.total + size as nat, ..rest };
                    assert(top@ == fuller);
                    match top_child(&self.root, &path) {
                        Some(child) => {
                            proof {
                                crate::table::crediting_raises_total(
                                    before.sizes,
                                    child@,
                                    size as nat,
                                );
                            }
                            self.sizes.credit(child, size);
                        },
                        None => {},
                    }
                    proof {
                        sums_with(before.frames, fuller);
                        frames_keep_places(before.frames, was, fuller, before.max_depth, before.root);
                    }
                    self.put_back(top);
                },
                FrameKind::Sum => {
                    top.total = top.total + size;
                    let ghost fuller = FrameView { total: rest.total + size as nat, ..rest };
                    assert(top@ == fuller);
                    proof {
                        sums_with(before.frames, fuller);
                        frames_keep_places(before.frames, was, fuller, before.max_depth, before.root);
                    }
                    self.put_back(top);
                },
            },
            EntryKind::Folder => {
                let inner = match kind {
                    FrameKind::Visit(depth) => if depth + 1 < self.max_depth {
                        FrameKind::Visit(depth + 1)
                    } else {
                        FrameKind::Sum
                    },
                    _ => FrameKind::Sum,
                };
                let below = Frame {
                    dir: path,
                    kind: inner,
                    read: false,
                    entries: Vec::new(),
                    next: 0,
                    total: 0,
                };
                proof {
                    sums_with(before.frames, rest);
                    frames_keep_places(before.frames, was, rest, before.max_depth, before.root);
                }
                self.put_back(top);
                proof {
                    assert(below@ == fresh_frame(path@, inner_kind(kind, before.max_depth)));
                    sums_with(before.frames.push(rest), below@);
                    frames_keep_places_below(
                        before.frames.push(rest),
                        path@,
                        before.max_depth,
                        before.root,
                    );
                }
                self.put_back(below);
            },
            EntryKind::Other => {
                if matches!(kind, FrameKind::Children) {
                    self.items.push(ScanItem { path, size: 0, is_dir: false });
                    proof {
                        let item = ItemView { path: path@, size: 0, is_dir: false };
                        assert(self@.items =~= before.items.push(item));
                        items_stay_under(before.items, item, before.root);
                    }
                }
                proof {
                    sums_with(before.frames, rest);
                    frames_keep_places(before.frames, was, rest, before.max_depth, before.root);
                }
                self.put_back(top);
            },
            _ => {
                proof {
                    sums_with(before.frames, rest);
                    frames_keep_places(before.frames, was, rest, before.max_depth, before.root);
                }
                self.put_back(top);
            },
        }
    }

    /// Leaves the directory `top`, in which nothing is left to do.
    fn leave(&mut self, top: Frame)
        requires
            old(self).wf_with(top),
            top@.todo == Some(Seq::<EntryView>::empty()),
        ensures
            final(self).wf(),
            final(self)@ == left(old(self)@, top@),
            final(self).bytes == old(self).bytes,
            final(self).listed == old(self).listed,
    {
        let ghost before = self@;
        let ghost all = before.frames.push(top@);
        proof {
            sums_with(before.frames, top@);
            assert(all.drop_last() =~= before.frames);
            frames_keep_places_above(all, before.max_depth, before.root);
            assert(is_under(all[all.len() - 1].dir, before.root));
        }
        match self.frames.pop() {
            None => {
                self.total = top.total;
                assert(self@.frames =~= before.frames);
            },
            Some(parent) => {
                let mut parent = parent;
                let ghost was = parent@;
                let ghost fuller = FrameView { total: was.total + top@.total, ..was };
                proof {
                    assert(was == before.frames.last());
                    assert(self@.frames =~= before.frames.drop_last());
                    assert(self@.frames.push(was) =~= before.frames);
                    sums_with(self@.frames, was);
                    sums_with(self@.frames, fuller);
                    assert(all[all.len() - 2] == was);
                    assert(all[all.len() - 1] == top@);
                    assert(all[all.len() - 1].kind == inner_kind(was.kind, before.max_depth));
                }
                let ghost lower = self@;
                match parent.kind {
                    FrameKind::Visit(depth) => {
                        parent.total = parent.total + top.total;
                        assert(parent@ == fuller);
                        if depth + 1 == self.max_depth {
                            proof {
                                crate::table::crediting_raises_total(
                                    before.sizes,
                                    top.dir@,
                                    top.total as nat,
                                );
                            }
                            self.sizes.credit(top.dir, top.total);
                        }
                        proof {
                            frames_keep_places(lower.frames, was, fuller, before.max_depth, before.root);
                        }
                        self.put_back(parent);
                    },
                    FrameKind::Sum => {
                        parent.total = parent.total + top.total;
                        assert(parent@ == fuller);
                        proof {
                            frames_keep_places(lower.frames, was, fuller, before.max_depth, before.root);
                        }
                        self.put_back(parent);
                    },
                    FrameKind::Children => {
                        let ghost item = ItemView {
                            path: top.dir@,
                            size: top.total as nat,
                            is_dir: true,
                        };
                        self.items.push(ScanItem { path: top.dir, size: top.total, is_dir: true });
                        proof {
                            assert(self@.items =~= before.items.push(item));
                            items_stay_under(before.items, item, before.root);
                        }
                        self.put_back(parent);
                    },
                }
            },
        }
    }

    /// Takes one step: deals with the next entry of the innermost directory,
    /// or leaves it where none is left. The result is a count to report, if
    /// a notice is due.
    pub fn advance(&mut self) -> (out: Option<u64>)
        requires
            old(self).wf(),
            old(self)@.frames.len() > 0,
            !is_waiting(old(self)@),
        ensures
            final(self).wf(),
            final(self)@ == advanced(old(self)@),
            final(self).bytes() == old(self).bytes(),
            final(self).listed() == old(self).listed(),
            out is Some <==> notice(old(self)@) is Some,
            out is Some ==> out->0 == notice(old(self)@)->0,
    {
        let ghost before = self@;
        match self.frames.pop() {
            None => None,
            Some(top) => {
                proof {
                    assert(top@ == before.frames.last());
                    assert(self@.frames =~= before.frames.drop_last());
                    assert(self@.frames.push(top@) =~= before.frames);
                }
                let n = top.entries.len();
                if top.next < n {
                    proof {
                        let views = entry_views(top.entries@);
                        assert(top@.todo->0.drop_first() =~= views.skip(top.next + 1));
                        assert(top@.todo->0[0] == views[top.next as int]);
                    }
                    let count = self.count;
                    let visiting = matches!(top.kind, FrameKind::Visit(_));
                    self.enter(top);
                    if visiting && self.count > count && self.count % NOTICE_EVERY == 0 {
                        Some(self.count)
                    } else {
                        None
                    }
                } else {
                    assert(top@.todo->0 =~= Seq::empty());
                    self.leave(top);
                    None
                }
            },
        }
    }
}

/// Frames keep their places when the innermost one changes neither its
/// directory nor its kind.
proof fn frames_keep_places(
    frames: Seq<FrameView>,
    was: FrameView,
    now: FrameView,
    max_depth: usize,
    root: Seq<u8>,
)
    requires
        frames_fit(frames.push(was), max_depth),
        frames_under(frames.push(was), root),
        now.dir == was.dir,
        now.kind == was.kind,
    ensures
        frames_fit(frames.push(now), max_depth),
        frames_under(frames.push(now), root),
{
    let a = frames.push(was);
    let b = frames.push(now);
    assert forall|i: int, j: int| 0 <= i && j == i + 1 && j < b.len() implies (
    #[trigger] b[j]).kind == inner_kind((#[trigger] b[i]).kind, max_depth) by {
        assert(a[i].kind == b[i].kind && a[j].kind == b[j].kind);
    }
    assert forall|i: int| 0 <= i < b.len() implies is_under((#[trigger] b[i]).dir, root) by {
        assert(is_under(a[i].dir, root));
    }
    assert forall|i: int| 0 <= i < b.len() implies ((#[trigger] b[i]).kind matches FrameKind::Visit(
        depth,
    ) ==> depth < max_depth) by {
        assert(a[i].kind == b[i].kind);
    }
}

/// Frames keep their places when a folder is entered from the innermost one.
proof fn frames_keep_places_below(
    frames: Seq<FrameView>,
    path: Seq<u8>,
    max_depth: usize,
    root: Seq<u8>,
)
    requires
        frames.len() > 0,
        frames_fit(frames, max_depth),
        frames_under(frames, root),
        is_under(path, root),
    ensures
        frames_fit(
            frames.push(fresh_frame(path, inner_kind(frames.last().kind, max_depth))),
            max_depth,
        ),
        frames_under(
            frames.push(fresh_frame(path, inner_kind(frames.last().kind, max_depth))),
            root,
        ),
{
    let b = frames.push(fresh_frame(path, inner_kind(frames.last().kind, max_depth)));
    assert forall|i: int, j: int| 0 <= i && j == i + 1 && j < b.len() implies (
    #[trigger] b[j]).kind == inner_kind((#[trigger] b[i]).kind, max_depth) by {
        if j < frames.len() {
            assert(frames[i] == b[i] && frames[j] == b[j]);
        }
    }
    assert forall|i: int| 0 <= i < b.len() implies is_under((#[trigger] b[i]).dir, root) by {
        if i < frames.len() {
            assert(frames[i] == b[i]);
        }
    }
    assert forall|i: int| 0 <= i < b.len() implies ((#[trigger] b[i]).kind matches FrameKind::Visit(
        depth,
    ) ==> depth < max_depth) by {
        if i < frames.len() {
            assert(frames[i] == b[i]);
        } else {
            assert(frames[frames.len() - 1] == frames.last());
        }
    }
}

/// Frames keep their places when the innermost one goes.
proof fn frames_keep_places_above(frames: Seq<FrameView>, max_depth: usize, root: Seq<u8>)
    requires
        frames.len() > 0,
        frames_fit(frames, max_depth),
        frames_under(frames, root),
    ensures
        frames_fit(frames.drop_last(), max_depth),
        frames_under(frames.drop_last(), root),
{
    let b = frames.drop_last();
    assert forall|i: int, j: int| 0 <= i && j == i + 1 && j < b.len() implies (
    #[trigger] b[j]).kind == inner_kind((#[trigger] b[i]).kind, max_depth) by {
        assert(frames[i] == b[i] && frames[j] == b[j]);
    }
    assert forall|i: int| 0 <= i < b.len() implies is_under((#[trigger] b[i]).dir, root) by {
        assert(frames[i] == b[i]);
    }
    assert forall|i: int| 0 <= i < b.len() implies ((#[trigger] b[i]).kind matches FrameKind::Visit(
        depth,
    ) ==> depth < max_depth) by {
        assert(frames[i] == b[i]);
    }
}

/// One more item below the root.
proof fn items_stay_under(items: Seq<ItemView>, item: ItemView, root: Seq<u8>)
    requires
        items_under(items, root),
        is_under(item.path, root),
    ensures
        items_under(items.push(item), root),
{
    let b = items.push(item);
    assert forall|i: int| 0 <= i < b.len() implies is_under((#[trigger] b[i]).path, root) by {
        if i < items.len() {
            assert(items[i] == b[i]);
        }
    }
}

/// The bytes of the files among the entries, if they do not exceed `limit`.
fn sum_files(entries: &Vec<DirEntry>, limit: u64) -> (out: Option<u64>)
    ensures
        out is Some <==> listed_bytes(entry_views(entries@)) <= limit,
        out is Some ==> out->0 == listed_bytes(entry_views(entries@)),
{
    let ghost all = entry_views(entries@);
    let mut sum: u64 = 0;
    let mut i: usize = 0;
    assert(all.skip(0) =~= all);
    while i < entries.len()
        invariant
            i <= entries.len(),
            all == entry_views(entries@),
            sum <= limit,
            listed_bytes(all) == sum + listed_bytes(all.skip(i as int)),
        decreases entries.len() - i,
    {
        proof {
            assert(all.skip(i as int).drop_first() =~= all.skip(i + 1));
            assert(all.skip(i as int)[0] == entries@[i as int]@);
        }
        if let EntryKind::File(size) = entries[i].kind {
            if size > limit - sum {
                return None;
            }
            sum += size;
        }
        i += 1;
    }
    assert(all.skip(i as int) =~= Seq::empty());
    Some(sum)
}

/// An entry of a visited directory counts, unless its metadata cannot be read;
/// where a directory is only added up the browser counts that too; and where
/// the children of a folder are sized nothing counts.
pub proof fn what_counts(depth: usize, edition: Edition, entry: EntryKind)
    ensures
        counted(FrameKind::Visit(depth), edition, entry) == if entry is Unknown {
            0nat
        } else {
            1nat
        },
        counted(FrameKind::Sum, Edition::List, entry) == if entry is Unknown {
            0nat
        } else {
            1nat
        },
        counted(FrameKind::Sum, Edition::Browser, entry) == 1,
        counted(FrameKind::Children, edition, entry) == 0,
{
}

/// A count is reported exactly when an entry of a visited directory has raised
/// it to a multiple of five hundred.
pub proof fn every_five_hundredth_is_reported(w: WalkView)
    requires
        w.frames.len() > 0,
        w.frames.last().todo is Some,
    ensures
        notice(w) matches Some(count) ==> count == advanced(w).count && count % 500 == 0 && count
            == w.count + 1 && w.frames.last().kind is Visit,
        w.frames.last().kind is Visit && advanced(w).count == w.count + 1 && advanced(w).count
            % 500 == 0 ==> notice(w) == Some(advanced(w).count),
{
}

/// A listing becomes what is left to do in the innermost directory, and an
/// unreadable directory leaves nothing to do; all else stays.
pub proof fn a_listing_is_what_is_left_to_do(w: WalkView, listing: Option<Seq<EntryView>>)
    requires
        w.frames.len() > 0,
    ensures
        ({
            let new = supplied(w, listing);
            let n = w.frames.len() as int;
            &&& new.frames.len() == n
            &&& forall|i: int| 0 <= i < n - 1 ==> #[trigger] new.frames[i] == w.frames[i]
            &&& new.frames[n - 1].dir == w.frames[n - 1].dir
            &&& new.frames[n - 1].kind == w.frames[n - 1].kind
            &&& new.frames[n - 1].total == w.frames[n - 1].total
            &&& listing is Some ==> new.frames[n - 1].todo == listing
            &&& listing is None ==> new.frames[n - 1].todo == Some(Seq::<EntryView>::empty())
            &&& new.root == w.root
            &&& new.max_depth == w.max_depth
            &&& new.edition == w.edition
            &&& new.count == w.count
            &&& new.sizes == w.sizes
            &&& new.items == w.items
            &&& new.total == w.total
        }),
{
}

/// A listing says what it holds, one entry by one and in order; the bytes
/// listed are those of its files, and a directory that cannot be read lists
/// nothing.
pub proof fn listings_say_what_they_hold(
    entries: Seq<DirEntry>,
    listing: Option<Vec<DirEntry>>,
    list: Seq<EntryView>,
    entry: EntryView,
    i: int,
)
    ensures
        entry_views(entries).len() == entries.len(),
        0 <= i < entries.len() ==> entry_views(entries)[i] == entries[i]@,
        listing matches Some(found) ==> entries_of(listing_view(listing)) == entry_views(found@),
        listing is None ==> entries_of(listing_view(listing)).len() == 0,
        listed_bytes(Seq::empty()) == 0,
        listed_bytes(seq![entry] + list) == listed_bytes(list) + match entry.kind {
            EntryKind::File(size) => size as nat,
            _ => 0,
        },
{
    assert((seq![entry] + list).drop_first() =~= list);
    assert((seq![entry] + list)[0] == entry);
}

} // verus!
