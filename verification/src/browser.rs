//! The state of the interactive browser, and what keys do to it.
use crate::keys::{byte_key, spelled, Key};
use crate::outline::{
    are_those_left, collapsing_undoes_expanding, is_gone, is_numbered, is_outline, marked,
    next_not_deeper, next_not_deeper_is_first, number_at, removing_keeps_outline,
    removing_leaves_the_rest, renumbered, renumbering_changes_numbers_only,
    renumbering_keeps_outline, renumbering_numbers, steps_well, toggled_at,
    toggling_keeps_outline, top_lines, top_lines_are_numbered_outline, tops, without, LineView,
};
use crate::path::{components, is_under, FilePath};
use crate::pathset::PathSet;
use crate::rank::{item_views, items_under, ItemView, ScanItem};
use crate::split::split_on;
use crate::text::{
    all_digits, char_contents, chars_of, decimal, decimal_is_digits, is_digit, number_in,
    parse_number, split_chars, trim, trimmed,
};
use vstd::prelude::*;

verus! {

/// A line of the browser.
#[derive(Debug)]
pub struct Entry {
    pub path: FilePath,
    pub size: u64,
    pub is_dir: bool,
    pub depth: usize,
    pub expanded: bool,
    pub num: usize,
}

impl View for Entry {
    type V = LineView;

    open spec fn view(&self) -> LineView {
        LineView {
            path: self.path@,
            size: self.size as nat,
            is_dir: self.is_dir,
            depth: self.depth as nat,
            expanded: self.expanded,
            num: self.num as nat,
        }
    }
}

/// What a list of lines says.
pub open spec fn line_views(entries: Seq<Entry>) -> Seq<LineView> {
    Seq::new(entries.len(), |i: int| entries[i]@)
}

/// The state of the browser. `selected` holds the components of the selected
/// paths; `scroll` is the first line on screen; `input` is what has been
/// typed of a list of numbers, where one is being typed.
pub struct AppView {
    pub root: Seq<u8>,
    pub lines: Seq<LineView>,
    pub cursor: nat,
    pub selected: Set<Seq<Seq<u8>>>,
    pub scroll: nat,
    pub input: Option<Seq<char>>,
}

/// What every state keeps to: the lines are a numbered outline, and the
/// cursor is on a line, if there is one.
pub open spec fn is_sound(v: AppView) -> bool {
    &&& is_outline(v.lines)
    &&& is_numbered(v.lines)
    &&& v.cursor == clamped(v.cursor, v.lines.len())
}

/// The last of `n` positions that is not beyond `at`.
pub open spec fn clamped(at: nat, n: nat) -> nat {
    if n == 0 {
        0
    } else if at < n {
        at
    } else {
        (n - 1) as nat
    }
}

/// The lines that fit on a screen of so many rows.
pub open spec fn visible_rows(rows: nat) -> nat {
    if rows >= 5 {
        (rows - 5) as nat
    } else {
        0
    }
}

/// The state at the start.
pub open spec fn opened(root: Seq<u8>, items: Seq<ItemView>) -> AppView {
    AppView {
        root,
        lines: top_lines(items),
        cursor: 0,
        selected: Set::empty(),
        scroll: 0,
        input: None,
    }
}

/// The state scrolled just so far that the cursor is on screen.
pub open spec fn scrolled(v: AppView, rows: nat) -> AppView {
    let visible = visible_rows(rows);
    if v.cursor < v.scroll {
        AppView { scroll: v.cursor, ..v }
    } else if visible > 0 && v.cursor >= v.scroll + visible {
        AppView { scroll: (v.cursor + 1 - visible) as nat, ..v }
    } else {
        v
    }
}

/// The state after line `i` was toggled.
pub open spec fn toggled(v: AppView, i: int, children: Seq<ItemView>) -> AppView {
    if v.lines[i].is_dir {
        let lines = toggled_at(v.lines, i, children);
        AppView { lines, cursor: clamped(v.cursor, lines.len()), ..v }
    } else {
        v
    }
}

/// The first line with this number.
pub open spec fn first_numbered(lines: Seq<LineView>, n: nat) -> Option<int>
    decreases lines.len(),
{
    if lines.len() == 0 {
        None
    } else {
        match first_numbered(lines.drop_last(), n) {
            Some(i) => Some(i),
            None => if lines.last().num == n {
                Some(lines.len() - 1)
            } else {
                None
            },
        }
    }
}

/// What a piece of a typed list selects: the first line with that number, if
/// the piece is a number and there is such a line.
pub open spec fn picked(lines: Seq<LineView>, piece: Seq<char>) -> Option<Seq<Seq<u8>>> {
    match number_in(trimmed(piece)) {
        Some(n) => match first_numbered(lines, n) {
            Some(i) => Some(components(lines[i].path)),
            None => None,
        },
        None => None,
    }
}

/// What a typed list selects.
pub open spec fn all_picked(lines: Seq<LineView>, typed: Seq<char>) -> Set<Seq<Seq<u8>>> {
    picked_among(lines, split_on(typed, ','))
}

/// What the pieces of a typed list select.
pub open spec fn picked_among(
    lines: Seq<LineView>,
    pieces: Seq<Seq<char>>,
) -> Set<Seq<Seq<u8>>>
    decreases pieces.len(),
{
    if pieces.len() == 0 {
        Set::empty()
    } else {
        let before = picked_among(lines, pieces.drop_last());
        match picked(lines, pieces.last()) {
            Some(key) => before.insert(key),
            None => before,
        }
    }
}

/// The state after the typed list was confirmed: it alone is selected.
pub open spec fn input_applied(v: AppView) -> AppView {
    AppView {
        selected: all_picked(
            v.lines,
            match v.input {
                Some(typed) => typed,
                None => Seq::empty(),
            },
        ),
        input: None,
        ..v
    }
}

/// The lines that an action is for: the selected ones, or, where nothing is
/// selected, the one under the cursor.
pub open spec fn target_lines(v: AppView) -> Seq<LineView> {
    if v.selected == Set::<Seq<Seq<u8>>>::empty() {
        seq![v.lines[v.cursor as int]]
    } else {
        v.lines.filter(|line: LineView| v.selected.contains(components(line.path)))
    }
}

/// The paths and sizes of lines.
pub open spec fn targets_of(lines: Seq<LineView>) -> Seq<(Seq<u8>, nat)> {
    Seq::new(lines.len(), |i: int| (lines[i].path, lines[i].size))
}

/// What a list of targets says.
pub open spec fn target_views(targets: Seq<(FilePath, u64)>) -> Seq<(Seq<u8>, nat)> {
    Seq::new(targets.len(), |i: int| (targets[i].0@, targets[i].1 as nat))
}

/// What a list of paths says.
pub open spec fn path_views(paths: Seq<FilePath>) -> Seq<Seq<u8>> {
    Seq::new(paths.len(), |i: int| paths[i]@)
}

/// The state after paths were removed, with all that lies under them.
pub open spec fn removed(v: AppView, paths: Seq<Seq<u8>>) -> AppView {
    let lines = renumbered(without(v.lines, paths));
    AppView {
        lines,
        cursor: clamped(v.cursor, lines.len()),
        selected: Set::empty(),
        ..v
    }
}

/// The state one page further up.
pub open spec fn paged_up(v: AppView, visible: nat) -> AppView {
    AppView {
        cursor: if v.cursor >= visible {
            (v.cursor - visible) as nat
        } else {
            0
        },
        scroll: if v.scroll >= visible {
            (v.scroll - visible) as nat
        } else {
            0
        },
        ..v
    }
}

/// The first line on screen when the last line is the lowest.
pub open spec fn last_scroll(n: nat, visible: nat) -> nat {
    if n >= visible {
        (n - visible) as nat
    } else {
        0
    }
}

/// The state one page further down, with no empty rows before the end.
pub open spec fn paged_down(v: AppView, visible: nat) -> AppView {
    let end = last_scroll(v.lines.len(), visible);
    AppView {
        cursor: clamped(v.cursor + visible, v.lines.len()),
        scroll: if v.scroll + visible <= end {
            v.scroll + visible
        } else {
            end
        },
        ..v
    }
}

/// The state after the line under the cursor was selected, or no longer.
pub open spec fn selection_toggled(v: AppView) -> AppView {
    let key = components(v.lines[v.cursor as int].path);
    AppView {
        selected: if v.selected.contains(key) {
            v.selected.remove(key)
        } else {
            v.selected.insert(key)
        },
        ..v
    }
}

/// What is to be done outside after a key.
#[derive(Debug, Clone, Copy, PartialEq, Eq, Structural)]
pub enum Effect {
    /// Nothing.
    Nothing,
    /// The folder under the cursor is to be listed and then toggled.
    ListFolder,
    /// The action menu is to be shown.
    OpenMenu,
    /// The browser is to be left.
    Quit,
}

/// What a key does while a list of numbers is being typed.
pub open spec fn typed_key(v: AppView, key: Key) -> AppView {
    let typed = v.input->0;
    match key {
        Key::Enter => input_applied(v),
        Key::Esc => AppView { input: None, ..v },
        Key::Backspace => AppView {
            input: Some(
                if typed.len() > 0 {
                    typed.drop_last()
                } else {
                    typed
                },
            ),
            ..v
        },
        Key::Char(c) => if is_digit(c) || c == ',' || c == ' ' {
            AppView { input: Some(typed.push(c)), ..v }
        } else {
            v
        },
        _ => v,
    }
}

/// Whether a key, while browsing, is for the line under the cursor.
pub open spec fn is_for_line(key: Key) -> bool {
    key == Key::Space || key == Key::Char('s') || key == Key::Char('S')
}

/// What a key does while browsing, on a screen of so many rows.
pub open spec fn browsed_key(v: AppView, key: Key, rows: nat) -> (Effect, AppView) {
    let line = v.lines[v.cursor as int];
    match key {
        Key::Up => (
            Effect::Nothing,
            AppView {
                cursor: if v.cursor > 0 {
                    (v.cursor - 1) as nat
                } else {
                    0
                },
                ..v
            },
        ),
        Key::Down => (
            Effect::Nothing,
            AppView {
                cursor: if v.cursor + 1 < v.lines.len() {
                    v.cursor + 1
                } else {
                    v.cursor
                },
                ..v
            },
        ),
        Key::PageUp => (Effect::Nothing, paged_up(v, visible_rows(rows))),
        Key::PageDown => (Effect::Nothing, paged_down(v, visible_rows(rows))),
        Key::Space => if line.is_dir && !line.expanded {
            (Effect::ListFolder, v)
        } else {
            (Effect::Nothing, toggled(v, v.cursor as int, Seq::empty()))
        },
        Key::Enter => (Effect::OpenMenu, v),
        Key::Esc => (Effect::Quit, v),
        Key::Backspace => (Effect::Nothing, v),
        Key::Char(c) => if c == '<' {
            (Effect::Nothing, paged_up(v, visible_rows(rows)))
        } else if c == '>' {
            (Effect::Nothing, paged_down(v, visible_rows(rows)))
        } else if c == 's' || c == 'S' {
            (Effect::Nothing, selection_toggled(v))
        } else if is_digit(c) {
            (Effect::Nothing, AppView { input: Some(seq![c]), ..v })
        } else if c == 'q' {
            (Effect::Quit, v)
        } else {
            (Effect::Nothing, v)
        },
    }
}

/// What a key does.
pub open spec fn pressed(v: AppView, key: Key, rows: nat) -> (Effect, AppView) {
    if v.input is Some {
        (Effect::Nothing, typed_key(v, key))
    } else {
        browsed_key(v, key, rows)
    }
}

/// The state of the browser.
#[derive(Debug)]
pub struct App {
    root: FilePath,
    entries: Vec<Entry>,
    cursor: usize,
    selected: PathSet,
    scroll: usize,
    input: Option<String>,
}

/// What a typed list says, where one is being typed.
pub open spec fn input_view(input: Option<String>) -> Option<Seq<char>> {
    match input {
        Some(typed) => Some(typed@),
        None => None,
    }
}

impl View for App {
    type V = AppView;

    closed spec fn view(&self) -> AppView {
        AppView {
            root: self.root@,
            lines: line_views(self.entries@),
            cursor: self.cursor as nat,
            selected: self.selected@,
            scroll: self.scroll as nat,
            input: input_view(self.input),
        }
    }
}

impl App {
    /// What every browser keeps to, and each method keeps up.
    pub open spec fn wf(&self) -> bool {
        self.selection_wf() && is_sound(self@)
    }

    /// Whether the selection holds no path twice.
    pub closed spec fn selection_wf(&self) -> bool {
        self.selected.wf()
    }

    /// A browser for these items, largest first, below `root`.
    pub fn new(root: FilePath, top: Vec<ScanItem>) -> (out: App)
        ensures
            out.wf(),
            out@ == opened(root@, item_views(top@)),
    {
        let ghost items = item_views(top@);
        let mut entries: Vec<Entry> = Vec::new();
        let count = top.len();
        for item in it: top
            invariant
                count == top@.len(),
                it.seq() == top@,
                items == item_views(top@),
                line_views(entries@) =~= top_lines(items).take(it.index()),
                entries@.len() == it.index(),
        {
            let n = entries.len();
            assert(item@ == items[it.index()]);
            let entry = Entry {
                path: item.path,
                size: item.size,
                is_dir: item.is_dir,
                depth: 0,
                expanded: false,
                num: n + 1,
            };
            let ghost before = line_views(entries@);
            entries.push(entry);
            assert(line_views(entries@) =~= before.push(entry@));
            assert(entry@ == top_lines(items)[it.index()]);
        }
        assert(line_views(entries@) =~= top_lines(items));
        let out = App {
            root,
            entries,
            cursor: 0,
            selected: PathSet::new(),
            scroll: 0,
            input: None,
        };
        proof {
            top_lines_are_numbered_outline(items);
        }
        out
    }

    /// The folder whose contents are shown.
    pub fn root(&self) -> (out: &FilePath)
        ensures
            out@ == self@.root,
    {
        &self.root
    }

    /// The lines.
    pub fn entries(&self) -> (out: &Vec<Entry>)
        ensures
            line_views(out@) == self@.lines,
    {
        &self.entries
    }

    /// The line that the cursor is on.
    pub fn cursor(&self) -> (out: usize)
        ensures
            out == self@.cursor,
    {
        self.cursor
    }

    /// The first line on screen.
    pub fn scroll(&self) -> (out: usize)
        ensures
            out == self@.scroll,
    {
        self.scroll
    }

    /// What has been typed of a list of numbers, where one is being typed.
    pub fn input(&self) -> (out: &Option<String>)
        ensures
            input_view(*out) == self@.input,
    {
        &self.input
    }

    /// Whether a path is selected.
    pub fn is_selected(&self, path: &FilePath) -> (out: bool)
        ensures
            out == self@.selected.contains(components(path@)),
    {
        self.selected.contains(path)
    }

    /// The number of selected paths.
    pub fn selected_len(&self) -> (out: usize)
        requires
            self.wf(),
        ensures
            out == self@.selected.len(),
    {
        self.selected.len()
    }

    /// Whether no path is selected.
    pub fn nothing_selected(&self) -> (out: bool)
        requires
            self.wf(),
        ensures
            out == (self@.selected == Set::<Seq<Seq<u8>>>::empty()),
    {
        self.selected.is_empty()
    }

    /// The lines that fit on a screen of `h` rows.
    pub fn vis_rows(&self, h: usize) -> (out: usize)
        ensures
            out == visible_rows(h as nat),
    {
        h.saturating_sub(5)
    }

    /// Scrolls just so far that the cursor is on screen.
    pub fn ensure_cursor_visible(&mut self, h: usize)
        requires
            old(self).wf(),
        ensures
            final(self).wf(),
            final(self)@ == scrolled(old(self)@, h as nat),
            visible_rows(h as nat) > 0 ==> final(self)@.scroll <= final(self)@.cursor
                < final(self)@.scroll + visible_rows(h as nat),
    {
        let vis = self.vis_rows(h);
        if self.cursor < self.scroll {
            self.scroll = self.cursor;
        } else if vis > 0 && self.cursor - self.scroll >= vis {
            self.scroll = self.cursor - (vis - 1);
        }
    }

    /// Numbers the lines afresh: the top level from one, the rest zero.
    pub fn renumber(&mut self)
        ensures
            final(self)@ == (AppView { lines: renumbered(old(self)@.lines), ..old(self)@ }),
            final(self).selection_wf() == old(self).selection_wf(),
    {
        let ghost lines = self@.lines;
        let count = self.entries.len();
        let mut n: usize = 0;
        let mut i: usize = 0;
        while i < count
            invariant
                i <= count,
                count == self.entries@.len(),
                count == lines.len(),
                self.root == old(self).root,
                self.cursor == old(self).cursor,
                self.selected == old(self).selected,
                self.scroll == old(self).scroll,
                self.input == old(self).input,
                n == tops(lines.take(i as int)),
                n <= i,
                forall|j: int|
                    0 <= j < i ==> (#[trigger] line_views(self.entries@)[j]) == renumbered(
                        lines,
                    )[j],
                forall|j: int|
                    i <= j < count ==> (#[trigger] line_views(self.entries@)[j]) == lines[j],
            decreases count - i,
        {
            let ghost before = self.entries@;
            proof {
                assert(lines.take(i + 1).drop_last() =~= lines.take(i as int));
                assert(lines.take(i + 1).last() == lines[i as int]);
                assert(line_views(before)[i as int] == lines[i as int]);
            }
            if self.entries[i].depth == 0 {
                n += 1;
                self.entries[i].num = n;
            } else {
                self.entries[i].num = 0;
            }
            proof {
                let after = self.entries@;
                assert forall|j: int| 0 <= j < count && j != i implies (#[trigger] line_views(
                    after,
                )[j]) == line_views(before)[j] by {}
                assert(line_views(after)[i as int] == renumbered(lines)[i as int]);
            }
            i += 1;
        }
        assert(line_views(self.entries@) =~= renumbered(lines));
    }

    /// Whether line `i` is a folder that would expand, so that its children
    /// have to be listed before it is toggled.
    pub fn would_expand(&self, i: usize) -> (out: bool)
        requires
            i < self@.lines.len(),
        ensures
            out == (self@.lines[i as int].is_dir && !self@.lines[i as int].expanded),
    {
        self.entries[i].is_dir && !self.entries[i].expanded
    }

    /// Collapses line `i` if it is an expanded folder, and expands it, with
    /// `children` below it, if it is a folder that is not. What is no folder
    /// stays as it is.
    pub fn toggle_expand(&mut self, i: usize, children: Vec<ScanItem>)
        requires
            old(self).wf(),
            i < old(self)@.lines.len(),
            old(self)@.lines[i as int].is_dir && !old(self)@.lines[i as int].expanded ==> items_under(
                item_views(children@),
                old(self)@.lines[i as int].path,
            ),
        ensures
            final(self).wf(),
            final(self)@ == toggled(old(self)@, i as int, item_views(children@)),
    {
        let ghost before = self@;
        let ghost lines = before.lines;
        let ghost items = item_views(children@);
        if !self.entries[i].is_dir {
            return;
        }
        proof {
            toggling_keeps_outline(lines, i as int, items);
            outline_depth(lines, i as int);
        }
        let count = self.entries.len();
        let depth = self.entries[i].depth;
        assert(i < count);
        if self.entries[i].expanded {
            let end = self.first_not_deeper(i + 1, depth);
            proof {
                next_not_deeper_is_first(lines, i + 1, depth as nat);
            }
            let mut tail = self.entries.split_off(end);
            self.entries.truncate(i + 1);
            self.entries[i].expanded = false;
            self.entries.append(&mut tail);
            assert(line_views(self.entries@) =~= toggled_at(lines, i as int, items));
        } else {
            let mut tail = self.entries.split_off(i + 1);
            self.entries[i].expanded = true;
            let ghost head = line_views(self.entries@);
            assert(head =~= lines.take(i as int).push(marked(lines[i as int], true)));
            let mut new: Vec<Entry> = Vec::new();
            for item in it: children
                invariant
                    it.seq() == children@,
                    items == item_views(children@),
                    depth < usize::MAX,
                    line_views(new@) =~= crate::outline::child_lines(
                        items,
                        (depth + 1) as nat,
                    ).take(it.index()),
            {
                assert(item@ == items[it.index()]);
                let entry = Entry {
                    path: item.path,
                    size: item.size,
                    is_dir: item.is_dir,
                    depth: depth + 1,
                    expanded: false,
                    num: 0,
                };
                let ghost so_far = line_views(new@);
                new.push(entry);
                assert(line_views(new@) =~= so_far.push(entry@));
            }
            assert(line_views(new@) =~= crate::outline::child_lines(items, (depth + 1) as nat));
            self.entries.append(&mut new);
            self.entries.append(&mut tail);
            assert(line_views(self.entries@) =~= toggled_at(lines, i as int, items));
        }
        self.clamp_cursor();
    }

    /// The first line from `from` on that is not deeper than `depth`.
    fn first_not_deeper(&self, from: usize, depth: usize) -> (out: usize)
        requires
            from <= self@.lines.len(),
        ensures
            out == next_not_deeper(self@.lines, from as int, depth as nat),
    {
        let mut at: usize = from;
        while at < self.entries.len() && self.entries[at].depth > depth
            invariant
                from <= at <= self.entries@.len(),
                next_not_deeper(self@.lines, from as int, depth as nat) == next_not_deeper(
                    self@.lines,
                    at as int,
                    depth as nat,
                ),
            decreases self.entries@.len() - at,
        {
            at += 1;
        }
        at
    }

    /// Moves the cursor to the last line if it is beyond.
    fn clamp_cursor(&mut self)
        ensures
            final(self)@ == (AppView {
                cursor: clamped(old(self)@.cursor, old(self)@.lines.len()),
                ..old(self)@
            }),
            final(self).selection_wf() == old(self).selection_wf(),
    {
        let n = self.entries.len();
        if n == 0 {
            self.cursor = 0;
        } else if self.cursor >= n {
            self.cursor = n - 1;
        }
    }
}

impl App {
    /// The first line with this number.
    fn find_number(&self, n: usize) -> (out: Option<usize>)
        ensures
            out is Some <==> first_numbered(self@.lines, n as nat) is Some,
            out is Some ==> out->0 == first_numbered(self@.lines, n as nat)->0 && out->0
                < self@.lines.len(),
    {
        let ghost lines = self@.lines;
        let mut i: usize = 0;
        assert(lines.take(0) =~= Seq::empty());
        while i < self.entries.len()
            invariant
                i <= self.entries@.len(),
                lines == line_views(self.entries@),
                first_numbered(lines.take(i as int), n as nat) is None,
            decreases self.entries@.len() - i,
        {
            proof {
                assert(lines.take(i + 1).drop_last() =~= lines.take(i as int));
                assert(lines.take(i + 1).last() == lines[i as int]);
            }
            if self.entries[i].num == n {
                proof {
                    found_stays_first(lines, n as nat, i + 1);
                }
                return Some(i);
            }
            i += 1;
        }
        assert(lines.take(i as int) =~= lines);
        None
    }

    /// Selects the lines whose numbers have been typed, and no others, and
    /// ends the typing.
    pub fn apply_input_select(&mut self)
        requires
            old(self).wf(),
        ensures
            final(self).wf(),
            final(self)@ == input_applied(old(self)@),
    {
        let ghost before = self@;
        let typed = match self.input.take() {
            Some(typed) => typed,
            None => String::new(),
        };
        assert(typed@ == match before.input {
            Some(typed) => typed,
            None => Seq::empty(),
        });
        self.selected.clear();
        let chars = chars_of(typed.as_str());
        let pieces = split_chars(chars.as_slice(), ',');
        let ghost all = split_on(typed@, ',');
        assert(char_contents(pieces@) == all);
        let mut i: usize = 0;
        assert(all.take(0) =~= Seq::empty());
        while i < pieces.len()
            invariant
                i <= pieces@.len(),
                char_contents(pieces@) == all,
                self.selected.wf(),
                self@ == (AppView {
                    selected: picked_among(before.lines, all.take(i as int)),
                    input: None,
                    ..before
                }),
            decreases pieces@.len() - i,
        {
            proof {
                assert(all.take(i + 1).drop_last() =~= all.take(i as int));
                assert(all.take(i + 1).last() == pieces@[i as int]@);
            }
            let piece = trim(pieces[i].as_slice());
            if let Some(n) = parse_number(piece.as_slice()) {
                if let Some(at) = self.find_number(n) {
                    let path = self.entries[at].path.clone();
                    self.selected.insert(path);
                }
            }
            i += 1;
        }
        assert(all.take(i as int) =~= all);
    }

    /// The paths and sizes that an action is for: those selected, or, where
    /// nothing is selected, the one under the cursor.
    pub fn action_targets(&self) -> (out: Vec<(FilePath, u64)>)
        requires
            self.wf(),
            self@.selected == Set::<Seq<Seq<u8>>>::empty() ==> self@.lines.len() > 0,
        ensures
            target_views(out@) == targets_of(target_lines(self@)),
    {
        let mut out: Vec<(FilePath, u64)> = Vec::new();
        let ghost lines = self@.lines;
        if self.selected.is_empty() {
            let e = &self.entries[self.cursor];
            out.push((e.path.clone(), e.size));
            assert(lines[self@.cursor as int] == e@);
            assert(target_views(out@) =~= targets_of(target_lines(self@)));
        } else {
            let ghost keep = |line: LineView| self@.selected.contains(components(line.path));
            let mut i: usize = 0;
            assert(lines.take(0).filter(keep) =~= Seq::empty()) by {
                reveal(Seq::filter);
            }
            while i < self.entries.len()
                invariant
                    i <= self.entries@.len(),
                    lines == line_views(self.entries@),
                    lines == self@.lines,
                    keep == (|line: LineView| self@.selected.contains(components(line.path))),
                    target_views(out@) =~= targets_of(lines.take(i as int).filter(keep)),
                decreases self.entries@.len() - i,
            {
                let e = &self.entries[i];
                let ghost before = target_views(out@);
                proof {
                    reveal(Seq::filter);
                    assert(lines.take(i + 1).drop_last() =~= lines.take(i as int));
                    assert(lines.take(i + 1).last() == e@);
                }
                if self.selected.contains(&e.path) {
                    out.push((e.path.clone(), e.size));
                    assert(target_views(out@) =~= before.push((e@.path, e@.size)));
                }
                i += 1;
            }
            assert(lines.take(i as int) =~= lines);
        }
        out
    }

    /// Removes the lines of these paths, with all that lies under them, and
    /// selects nothing.
    pub fn remove_paths(&mut self, paths: &Vec<FilePath>)
        requires
            old(self).wf(),
        ensures
            final(self).wf(),
            final(self)@ == removed(old(self)@, path_views(paths@)),
    {
        let ghost before = self@;
        let ghost lines = before.lines;
        let ghost gone = path_views(paths@);
        let ghost keep = |line: LineView| !is_gone(line.path, gone);
        let mut old_entries: Vec<Entry> = Vec::new();
        std::mem::swap(&mut old_entries, &mut self.entries);
        let mut rest: Vec<Entry> = Vec::new();
        assert(lines.take(0).filter(keep) =~= Seq::empty()) by {
            reveal(Seq::filter);
        }
        for entry in it: old_entries
            invariant
                line_views(it.seq()) == lines,
                gone == path_views(paths@),
                keep == (|line: LineView| !is_gone(line.path, gone)),
                line_views(rest@) =~= lines.take(it.index()).filter(keep),
        {
            let ghost so_far = line_views(rest@);
            proof {
                reveal(Seq::filter);
                assert(lines.take(it.index() + 1).drop_last() =~= lines.take(it.index()));
                assert(lines[it.index()] == entry@);
                assert(lines.take(it.index() + 1).last() == entry@);
            }
            if !under_any(&entry.path, paths) {
                rest.push(entry);
                assert(line_views(rest@) =~= so_far.push(entry@));
            }
        }
        assert(lines.take(lines.len() as int) =~= lines);
        self.entries = rest;
        assert(self@.lines =~= without(lines, gone));
        self.selected.clear();
        proof {
            removing_keeps_outline(lines, gone);
            renumbering_keeps_outline(without(lines, gone));
            renumbering_numbers(without(lines, gone));
        }
        self.clamp_cursor();
        self.renumber();
    }

    /// Selects nothing.
    pub fn clear_selection(&mut self)
        requires
            old(self).wf(),
        ensures
            final(self).wf(),
            final(self)@ == (AppView {
                selected: Set::<Seq<Seq<u8>>>::empty(),
                ..old(self)@
            }),
    {
        self.selected.clear();
    }

    /// Moves one page up.
    fn page_up(&mut self, vis: usize)
        requires
            old(self).wf(),
        ensures
            final(self).wf(),
            final(self)@ == paged_up(old(self)@, vis as nat),
    {
        self.cursor = self.cursor.saturating_sub(vis);
        self.scroll = self.scroll.saturating_sub(vis);
    }

    /// Moves one page down.
    fn page_down(&mut self, vis: usize)
        requires
            old(self).wf(),
        ensures
            final(self).wf(),
            final(self)@ == paged_down(old(self)@, vis as nat),
    {
        let n = self.entries.len();
        let end = n.saturating_sub(vis);
        if n > 0 {
            if vis < n - self.cursor {
                self.cursor = self.cursor + vis;
            } else {
                self.cursor = n - 1;
            }
        }
        if self.scroll <= end && vis <= end - self.scroll {
            self.scroll = self.scroll + vis;
        } else {
            self.scroll = end;
        }
    }

    /// Selects the line under the cursor, or no longer.
    fn toggle_selection(&mut self)
        requires
            old(self).wf(),
            old(self)@.lines.len() > 0,
        ensures
            final(self).wf(),
            final(self)@ == selection_toggled(old(self)@),
    {
        let path = self.entries[self.cursor].path.clone();
        assert(path@ == self@.lines[self@.cursor as int].path);
        if self.selected.contains(&path) {
            self.selected.remove(&path);
        } else {
            self.selected.insert(path);
        }
    }

    /// Takes a key of a list of numbers that is being typed.
    fn press_typing(&mut self, key: Key)
        requires
            old(self).wf(),
            old(self)@.input is Some,
        ensures
            final(self).wf(),
            final(self)@ == typed_key(old(self)@, key),
    {
        match key {
            Key::Enter => self.apply_input_select(),
            Key::Esc => {
                self.input = None;
            },
            Key::Backspace => {
                if let Some(mut typed) = self.input.take() {
                    let _ = typed.pop();
                    self.input = Some(typed);
                }
            },
            Key::Char(c) => {
                if ('0' <= c && c <= '9') || c == ',' || c == ' ' {
                    if let Some(mut typed) = self.input.take() {
                        typed.push(c);
                        self.input = Some(typed);
                    }
                }
            },
            _ => {},
        }
    }

    /// Takes a key, on a screen of `h` rows. The result says what is to be
    /// done outside.
    pub fn press(&mut self, key: Key, h: usize) -> (out: Effect)
        requires
            old(self).wf(),
            old(self)@.input is None && is_for_line(key) ==> old(self)@.lines.len() > 0,
        ensures
            final(self).wf(),
            (out, final(self)@) == pressed(old(self)@, key, h as nat),
    {
        if self.input.is_some() {
            self.press_typing(key);
            return Effect::Nothing;
        }
        let vis = self.vis_rows(h);
        match key {
            Key::Up => {
                if self.cursor > 0 {
                    self.cursor = self.cursor - 1;
                }
                Effect::Nothing
            },
            Key::Down => {
                let n = self.entries.len();
                if n > 0 && self.cursor < n - 1 {
                    self.cursor = self.cursor + 1;
                }
                Effect::Nothing
            },
            Key::PageUp => {
                self.page_up(vis);
                Effect::Nothing
            },
            Key::PageDown => {
                self.page_down(vis);
                Effect::Nothing
            },
            Key::Space => {
                let i = self.cursor;
                if self.would_expand(i) {
                    Effect::ListFolder
                } else {
                    let none: Vec<ScanItem> = Vec::new();
                    assert(item_views(none@) =~= Seq::empty());
                    self.toggle_expand(i, none);
                    Effect::Nothing
                }
            },
            Key::Enter => Effect::OpenMenu,
            Key::Esc => Effect::Quit,
            Key::Backspace => Effect::Nothing,
            Key::Char(c) => {
                if c == '<' {
                    self.page_up(vis);
                    Effect::Nothing
                } else if c == '>' {
                    self.page_down(vis);
                    Effect::Nothing
                } else if c == 's' || c == 'S' {
                    self.toggle_selection();
                    Effect::Nothing
                } else if '0' <= c && c <= '9' {
                    let mut typed = String::new();
                    typed.push(c);
                    assert(typed@ =~= seq![c]);
                    self.input = Some(typed);
                    Effect::Nothing
                } else if c == 'q' {
                    Effect::Quit
                } else {
                    Effect::Nothing
                }
            },
        }
    }
}

/// Whether `path` is one of `paths` or lies under one.
fn under_any(path: &FilePath, paths: &Vec<FilePath>) -> (out: bool)
    ensures
        out == is_gone(path@, path_views(paths@)),
{
    let ghost all = path_views(paths@);
    let mut i: usize = 0;
    while i < paths.len()
        invariant
            i <= paths@.len(),
            all == path_views(paths@),
            forall|j: int| 0 <= j < i ==> !is_under(path@, #[trigger] all[j]),
        decreases paths@.len() - i,
    {
        if path.starts_with(&paths[i]) {
            assert(is_under(path@, all[i as int]));
            return true;
        }
        assert(!is_under(path@, all[i as int]));
        i += 1;
    }
    false
}

/// The first line with a number among some lines is the first among all.
proof fn found_stays_first(lines: Seq<LineView>, n: nat, upto: int)
    requires
        0 <= upto <= lines.len(),
        first_numbered(lines.take(upto), n) is Some,
    ensures
        first_numbered(lines, n) == first_numbered(lines.take(upto), n),
    decreases lines.len() - upto,
{
    if upto == lines.len() {
        assert(lines.take(upto) =~= lines);
    } else {
        assert(lines.take(upto + 1).drop_last() =~= lines.take(upto));
        found_stays_first(lines, n, upto + 1);
    }
}

/// No line is deeper than its place.
proof fn outline_depth(lines: Seq<LineView>, i: int)
    requires
        is_outline(lines),
        0 <= i < lines.len(),
    ensures
        lines[i].depth <= i,
    decreases i,
{
    if i > 0 {
        outline_depth(lines, i - 1);
        assert(steps_well(lines[i - 1], lines[i]));
    }
}

/// Whether the cursor is on screen.
pub open spec fn cursor_is_shown(v: AppView, visible: nat) -> bool {
    v.scroll <= v.cursor < v.scroll + visible
}

/// Scrolling to the cursor a second time changes nothing.
pub proof fn scrolling_is_idempotent(v: AppView, rows: nat)
    ensures
        scrolled(scrolled(v, rows), rows) == scrolled(v, rows),
{
}

/// Paging keeps the cursor on screen, and on a line.
pub proof fn paging_keeps_cursor_shown(v: AppView, visible: nat)
    requires
        is_sound(v),
        v.lines.len() > 0,
        cursor_is_shown(v, visible),
    ensures
        is_sound(paged_up(v, visible)),
        is_sound(paged_down(v, visible)),
        cursor_is_shown(paged_up(v, visible), visible),
        cursor_is_shown(paged_down(v, visible), visible),
{
}

/// A page up undoes a page down that did not reach the end.
pub proof fn page_up_undoes_page_down(v: AppView, visible: nat)
    requires
        v.scroll + 2 * visible <= v.lines.len(),
        v.cursor + visible < v.lines.len(),
    ensures
        paged_up(paged_down(v, visible), visible) == v,
{
}

/// Selecting the line under the cursor twice changes nothing.
pub proof fn selecting_twice_changes_nothing(v: AppView)
    ensures
        selection_toggled(selection_toggled(v)) == v,
{
    let key = components(v.lines[v.cursor as int].path);
    assert(selection_toggled(selection_toggled(v)).selected =~= v.selected);
}

/// Toggling a folder that is not expanded, and toggling it again, brings back
/// the state.
pub proof fn toggling_twice_changes_nothing(
    v: AppView,
    i: int,
    children: Seq<ItemView>,
    later: Seq<ItemView>,
)
    requires
        is_sound(v),
        0 <= i < v.lines.len(),
        v.lines[i].is_dir,
        !v.lines[i].expanded,
    ensures
        toggled(toggled(v, i, children), i, later) == v,
{
    collapsing_undoes_expanding(v.lines, i, children, later);
    assert(toggled(v, i, children).lines[i] == marked(v.lines[i], true));
}

/// The targets of an action are lines; with a selection they are exactly the
/// selected lines, and without one the line under the cursor.
pub proof fn targets_are_lines(v: AppView, line: LineView)
    requires
        is_sound(v),
        v.lines.len() > 0,
    ensures
        v.selected == Set::<Seq<Seq<u8>>>::empty() ==> (target_lines(v).contains(line) <==> line
            == v.lines[v.cursor as int]),
        v.selected != Set::<Seq<Seq<u8>>>::empty() ==> (target_lines(v).contains(line)
            <==> v.lines.contains(line) && v.selected.contains(components(line.path))),
{
    let keep = |line: LineView| v.selected.contains(components(line.path));
    if v.selected == Set::<Seq<Seq<u8>>>::empty() {
        assert(target_lines(v)[0] == v.lines[v.cursor as int]);
    } else {
        let all = v.lines.filter(keep);
        if all.contains(line) {
            let i = choose|i: int| 0 <= i < all.len() && all[i] == line;
            v.lines.lemma_filter_pred(keep, i);
            v.lines.lemma_filter_contains_rev(keep, line);
        }
        if v.lines.contains(line) && keep(line) {
            let i = choose|i: int| 0 <= i < v.lines.len() && v.lines[i] == line;
            v.lines.lemma_filter_contains(keep, i);
        }
    }
}

/// After a removal no line lies at or under a removed path, and each line
/// that does not is still there, but for its number.
pub proof fn removal_is_exact(v: AppView, paths: Seq<Seq<u8>>, path: Seq<u8>)
    ensures
        (exists|i: int|
            0 <= i < removed(v, paths).lines.len() && (
            #[trigger] removed(v, paths).lines[i]).path == path) <==> (exists|j: int|
            0 <= j < v.lines.len() && (#[trigger] v.lines[j]).path == path) && !is_gone(
            path,
            paths,
        ),
{
    let rest = without(v.lines, paths);
    let new = removed(v, paths).lines;
    if exists|i: int| 0 <= i < new.len() && (#[trigger] new[i]).path == path {
        let i = choose|i: int| 0 <= i < new.len() && (#[trigger] new[i]).path == path;
        assert(rest.contains(rest[i]));
        crate::outline::removing_is_exact(v.lines, paths, rest[i]);
        let j = choose|j: int| 0 <= j < v.lines.len() && v.lines[j] == rest[i];
        assert(v.lines[j].path == path);
    }
    if (exists|j: int| 0 <= j < v.lines.len() && (#[trigger] v.lines[j]).path == path) && !is_gone(
        path,
        paths,
    ) {
        let j = choose|j: int| 0 <= j < v.lines.len() && (#[trigger] v.lines[j]).path == path;
        assert(v.lines.contains(v.lines[j]));
        crate::outline::removing_is_exact(v.lines, paths, v.lines[j]);
        let i = choose|i: int| 0 <= i < rest.len() && rest[i] == v.lines[j];
        assert(new[i].path == path);
    }
}

/// A list of numbers as it is typed, with commas between them.
pub open spec fn number_list(numbers: Seq<nat>) -> Seq<char>
    decreases numbers.len(),
{
    if numbers.len() == 0 {
        Seq::empty()
    } else if numbers.len() == 1 {
        decimal(numbers[0])
    } else {
        number_list(numbers.drop_last()).push(',') + decimal(numbers.last())
    }
}

/// The numbers of some lines.
pub open spec fn numbers_of(lines: Seq<LineView>, at: Seq<int>) -> Seq<nat> {
    Seq::new(at.len(), |i: int| lines[at[i]].num)
}

/// Whether these are the places of top-level lines.
pub open spec fn are_tops(lines: Seq<LineView>, at: Seq<int>) -> bool {
    forall|i: int|
        0 <= i < at.len() ==> 0 <= #[trigger] at[i] < lines.len() && lines[at[i]].depth == 0
}

/// Digits are not white space.
proof fn digits_are_not_trimmed(s: Seq<char>)
    requires
        s.len() > 0,
        all_digits(s),
    ensures
        trimmed(s) == s,
{
    assert(is_digit(s[0]));
    assert(is_digit(s[s.len() - 1]));
}

/// A number in decimal is a piece of its own.
proof fn number_is_one_piece(n: nat)
    ensures
        split_on(decimal(n), ',') == seq![decimal(n)],
{
    decimal_is_digits(n);
    assert forall|i: int| 0 <= i < decimal(n).len() implies decimal(n)[i] != ',' by {
        assert(is_digit(decimal(n)[i]));
    }
    crate::split::split_without_separator(decimal(n), ',');
}

/// Counting top-level lines never goes down.
proof fn tops_of_first(lines: Seq<LineView>, a: int, b: int)
    requires
        0 <= a <= b <= lines.len(),
    ensures
        tops(lines.take(a)) <= tops(lines.take(b)),
    decreases b - a,
{
    if a < b {
        assert(lines.take(b).drop_last() =~= lines.take(b - 1));
        tops_of_first(lines, a, b - 1);
    }
}

/// No more lines count than there are.
proof fn tops_within_len(lines: Seq<LineView>)
    ensures
        tops(lines) <= lines.len(),
    decreases lines.len(),
{
    if lines.len() > 0 {
        tops_within_len(lines.drop_last());
    }
}

/// The number of a top-level line names that line.
pub proof fn number_names_line(lines: Seq<LineView>, i: int)
    requires
        is_numbered(lines),
        0 <= i < lines.len(),
        lines[i].depth == 0,
    ensures
        first_numbered(lines, lines[i].num) == Some(i),
{
    let n = lines[i].num;
    assert(n == number_at(lines, i));
    earlier_lines_have_other_numbers(lines, i, i);
    assert(lines.take(i + 1).drop_last() =~= lines.take(i));
    assert(lines.take(i + 1).last() == lines[i]);
    found_stays_first(lines, n, i + 1);
}

/// No line before a top-level line has its number.
proof fn earlier_lines_have_other_numbers(lines: Seq<LineView>, i: int, upto: int)
    requires
        is_numbered(lines),
        0 <= upto <= i < lines.len(),
        lines[i].depth == 0,
    ensures
        first_numbered(lines.take(upto), lines[i].num) is None,
    decreases upto,
{
    if upto > 0 {
        earlier_lines_have_other_numbers(lines, i, upto - 1);
        assert(lines.take(upto).drop_last() =~= lines.take(upto - 1));
        let line = lines[upto - 1];
        assert(lines.take(upto).last() == line);
        assert(line.num == number_at(lines, upto - 1));
        assert(lines[i].num == number_at(lines, i));
        tops_of_first(lines, upto, i);
    }
}

/// A typed list of the numbers of top-level lines selects those lines, and
/// nothing else.
pub proof fn typed_numbers_select_their_lines(v: AppView, at: Seq<int>, key: Seq<Seq<u8>>)
    requires
        is_sound(v),
        v.lines.len() <= usize::MAX,
        at.len() > 0,
        are_tops(v.lines, at),
        v.input == Some(number_list(numbers_of(v.lines, at))),
    ensures
        input_applied(v).selected.contains(key) <==> exists|i: int|
            0 <= i < at.len() && key == components(v.lines[#[trigger] at[i]].path),
{
    picked_by_list(v.lines, at, key);
}

/// What a typed list of the numbers of top-level lines picks.
proof fn picked_by_list(lines: Seq<LineView>, at: Seq<int>, key: Seq<Seq<u8>>)
    requires
        is_numbered(lines),
        lines.len() <= usize::MAX,
        at.len() > 0,
        are_tops(lines, at),
    ensures
        all_picked(lines, number_list(numbers_of(lines, at))).contains(key) <==> exists|i: int|
            0 <= i < at.len() && key == components(lines[#[trigger] at[i]].path),
    decreases at.len(),
{
    let numbers = numbers_of(lines, at);
    let last = at.last();
    let n = lines[last].num;
    assert(at[at.len() - 1] == last);
    let typed = number_list(numbers);
    number_is_one_piece(n);
    decimal_is_digits(n);
    digits_are_not_trimmed(decimal(n));
    number_names_line(lines, last);
    assert(n == number_at(lines, last));
    tops_within_len(lines.take(last));
    assert(picked(lines, decimal(n)) == Some(components(lines[last].path)));
    if at.len() == 1 {
        let pieces = split_on(typed, ',');
        assert(typed == decimal(n));
        assert(pieces.drop_last() =~= Seq::empty());
        assert(all_picked(lines, typed) == Set::<Seq<Seq<u8>>>::empty().insert(
            components(lines[last].path),
        )) by {
            reveal_with_fuel(picked_among, 2);
        }
        if all_picked(lines, typed).contains(key) {
            assert(key == components(lines[at[0]].path));
        }
    } else {
        let front = at.drop_last();
        assert(are_tops(lines, front)) by {
            assert forall|i: int| 0 <= i < front.len() implies 0 <= #[trigger] front[i]
                < lines.len() && lines[front[i]].depth == 0 by {
                assert(front[i] == at[i]);
            }
        }
        picked_by_list(lines, front, key);
        assert(numbers.drop_last() =~= numbers_of(lines, front));
        let before = number_list(numbers_of(lines, front));
        assert(typed == before.push(',') + decimal(n));
        crate::split::split_at_separator(before, decimal(n), ',');
        let pieces = split_on(typed, ',');
        assert(pieces.drop_last() =~= split_on(before, ','));
        assert(pieces.last() == decimal(n));
        assert(all_picked(lines, typed) == all_picked(lines, before).insert(
            components(lines[last].path),
        ));
        if exists|i: int| 0 <= i < front.len() && key == components(lines[#[trigger] front[i]].path) {
            let i = choose|i: int|
                0 <= i < front.len() && key == components(lines[#[trigger] front[i]].path);
            assert(at[i] == front[i]);
        }
        if exists|i: int| 0 <= i < at.len() && key == components(lines[#[trigger] at[i]].path) {
            let i = choose|i: int|
                0 <= i < at.len() && key == components(lines[#[trigger] at[i]].path);
            if i < front.len() {
                assert(front[i] == at[i]);
            }
        }
    }
}

/// The state after these bytes came from the keyboard, one by one.
pub open spec fn after_bytes(v: AppView, bytes: Seq<u8>, rows: nat) -> AppView
    decreases bytes.len(),
{
    if bytes.len() == 0 {
        v
    } else {
        pressed(after_bytes(v, bytes.drop_last(), rows), byte_key(bytes.last()), rows).1
    }
}

/// Whether a byte is a digit.
pub open spec fn is_digit_byte(byte: u8) -> bool {
    0x30 <= byte <= 0x39
}

/// Whether a byte can be typed for a list of numbers: a digit, a comma or a
/// space.
pub open spec fn is_list_byte(byte: u8) -> bool {
    is_digit_byte(byte) || byte == 0x2c || byte == 0x20
}

/// The bytes that are no spaces.
pub open spec fn without_spaces(bytes: Seq<u8>) -> Seq<u8> {
    bytes.filter(|byte: u8| byte != 0x20)
}

/// While browsing, typing digits, commas and spaces, a digit first, puts the
/// digits and commas into the list, and changes nothing else: the space key
/// is not for the list.
pub proof fn typing_fills_the_list(v: AppView, bytes: Seq<u8>, rows: nat)
    requires
        v.input is None,
        bytes.len() > 0,
        is_digit_byte(bytes[0]),
        forall|i: int| 0 <= i < bytes.len() ==> is_list_byte(#[trigger] bytes[i]),
    ensures
        after_bytes(v, bytes, rows) == (AppView {
            input: Some(spelled(without_spaces(bytes))),
            ..v
        }),
    decreases bytes.len(),
{
    let front = bytes.drop_last();
    let last = bytes[bytes.len() - 1];
    assert(is_list_byte(last));
    reveal(Seq::filter);
    if bytes.len() == 1 {
        assert(after_bytes(v, front, rows) == v);
        assert(byte_key(last) == Key::Char(last as char));
        assert(without_spaces(front) =~= Seq::empty());
        assert(without_spaces(bytes) =~= seq![last]);
        assert(seq![last as char] =~= spelled(seq![last]));
    } else {
        assert forall|i: int| 0 <= i < front.len() implies is_list_byte(#[trigger] front[i]) by {
            assert(front[i] == bytes[i]);
        }
        typing_fills_the_list(v, front, rows);
        let kept = without_spaces(front);
        if last != 0x20 {
            assert(without_spaces(bytes) =~= kept.push(last));
            assert(spelled(kept).push(last as char) =~= spelled(kept.push(last)));
        } else {
            assert(without_spaces(bytes) =~= kept);
        }
    }
}

/// A line of the browser says what its entry holds.
pub proof fn line_says_what_the_entry_holds(entry: Entry)
    ensures
        entry@.path == entry.path@,
        entry@.size == entry.size,
        entry@.is_dir == entry.is_dir,
        entry@.depth == entry.depth,
        entry@.expanded == entry.expanded,
        entry@.num == entry.num,
{
}

/// The browser opens with one line for each item, in their order and numbered
/// from one, none of them expanded or selected, and the cursor on the first.
pub proof fn opening_lists_the_items(root: Seq<u8>, items: Seq<ItemView>)
    ensures
        ({
            let v = opened(root, items);
            &&& v.root == root
            &&& v.cursor == 0
            &&& v.scroll == 0
            &&& v.input is None
            &&& forall|key: Seq<Seq<u8>>| !v.selected.contains(key)
            &&& v.lines.len() == items.len()
            &&& forall|i: int|
                0 <= i < items.len() ==> {
                    let line = #[trigger] v.lines[i];
                    &&& line.path == items[i].path
                    &&& line.size == items[i].size
                    &&& line.is_dir == items[i].is_dir
                    &&& line.depth == 0
                    &&& !line.expanded
                    &&& line.num == i + 1
                }
        }),
{
}

/// In every sound state the cursor is on a line, if there is one.
pub proof fn cursor_is_on_a_line(v: AppView)
    requires
        is_sound(v),
    ensures
        v.lines.len() > 0 ==> v.cursor < v.lines.len(),
        v.lines.len() == 0 ==> v.cursor == 0,
{
}

/// Expanding a folder puts one line for each child behind it, with the path,
/// the size and the kind of that child, one level deeper, not expanded and
/// without a number. The folder is marked; all else is as before.
pub proof fn expanding_shows_the_children(v: AppView, i: int, children: Seq<ItemView>)
    requires
        is_sound(v),
        0 <= i < v.lines.len(),
        v.lines[i].is_dir,
        !v.lines[i].expanded,
    ensures
        ({
            let new = toggled(v, i, children);
            let n = children.len() as int;
            &&& new.lines.len() == v.lines.len() + n
            &&& forall|a: int| 0 <= a < i ==> #[trigger] new.lines[a] == v.lines[a]
            &&& new.lines[i].path == v.lines[i].path
            &&& new.lines[i].size == v.lines[i].size
            &&& new.lines[i].is_dir
            &&& new.lines[i].depth == v.lines[i].depth
            &&& new.lines[i].num == v.lines[i].num
            &&& new.lines[i].expanded
            &&& forall|a: int|
                i < a <= i + n ==> {
                    let line = #[trigger] new.lines[a];
                    &&& line.path == children[a - i - 1].path
                    &&& line.size == children[a - i - 1].size
                    &&& line.is_dir == children[a - i - 1].is_dir
                    &&& line.depth == v.lines[i].depth + 1
                    &&& !line.expanded
                    &&& line.num == 0
                }
            &&& forall|a: int|
                i + n < a < new.lines.len() ==> #[trigger] new.lines[a] == v.lines[a - n]
            &&& new.cursor == v.cursor
            &&& new.root == v.root
            &&& new.selected == v.selected
            &&& new.scroll == v.scroll
            &&& new.input == v.input
        }),
{
}

/// Collapsing a folder takes away the lines behind it that are deeper, up to
/// the first that is not, and no others. The folder is no longer marked, and
/// the cursor stays, or moves to the last line if it was beyond.
pub proof fn collapsing_hides_what_is_below(v: AppView, i: int, children: Seq<ItemView>) -> (end:
    int)
    requires
        0 <= i < v.lines.len(),
        v.lines[i].is_dir,
        v.lines[i].expanded,
    ensures
        i < end <= v.lines.len(),
        forall|k: int| i < k < end ==> (#[trigger] v.lines[k]).depth > v.lines[i].depth,
        end < v.lines.len() ==> v.lines[end].depth <= v.lines[i].depth,
        ({
            let new = toggled(v, i, children);
            let gone = end - i - 1;
            &&& new.lines.len() == v.lines.len() - gone
            &&& forall|a: int| 0 <= a < i ==> #[trigger] new.lines[a] == v.lines[a]
            &&& new.lines[i].path == v.lines[i].path
            &&& new.lines[i].size == v.lines[i].size
            &&& new.lines[i].is_dir
            &&& new.lines[i].depth == v.lines[i].depth
            &&& new.lines[i].num == v.lines[i].num
            &&& !new.lines[i].expanded
            &&& forall|a: int|
                i < a < new.lines.len() ==> #[trigger] new.lines[a] == v.lines[a + gone]
            &&& v.cursor < new.lines.len() ==> new.cursor == v.cursor
            &&& v.cursor >= new.lines.len() ==> new.cursor == new.lines.len() - 1
            &&& new.root == v.root
            &&& new.selected == v.selected
            &&& new.scroll == v.scroll
            &&& new.input == v.input
        }),
{
    let end = next_not_deeper(v.lines, i + 1, v.lines[i].depth);
    next_not_deeper_is_first(v.lines, i + 1, v.lines[i].depth);
    end
}

/// Toggling a line that is no folder changes nothing.
pub proof fn only_folders_toggle(v: AppView, i: int, children: Seq<ItemView>)
    requires
        0 <= i < v.lines.len(),
        !v.lines[i].is_dir,
    ensures
        toggled(v, i, children) == v,
{
}

/// Removing paths leaves the lines that lie under none of them, in order and
/// as they were but for their numbers; it selects nothing, and moves the
/// cursor to the last line if it was beyond.
pub proof fn removal_leaves_the_rest(v: AppView, paths: Seq<Seq<u8>>) -> (at: Seq<int>)
    ensures
        are_those_left(v.lines, paths, at),
        ({
            let new = removed(v, paths);
            &&& new.lines.len() == at.len()
            &&& is_numbered(new.lines)
            &&& forall|a: int|
                0 <= a < at.len() ==> {
                    let line = #[trigger] new.lines[a];
                    &&& line.path == v.lines[at[a]].path
                    &&& line.size == v.lines[at[a]].size
                    &&& line.is_dir == v.lines[at[a]].is_dir
                    &&& line.depth == v.lines[at[a]].depth
                    &&& line.expanded == v.lines[at[a]].expanded
                }
            &&& forall|key: Seq<Seq<u8>>| !new.selected.contains(key)
            &&& v.cursor < new.lines.len() ==> new.cursor == v.cursor
            &&& new.lines.len() > 0 && v.cursor >= new.lines.len() ==> new.cursor
                == new.lines.len() - 1
            &&& new.lines.len() == 0 ==> new.cursor == 0
            &&& new.root == v.root
            &&& new.scroll == v.scroll
            &&& new.input == v.input
        }),
{
    let rest = without(v.lines, paths);
    let at = removing_leaves_the_rest(v.lines, paths);
    renumbering_changes_numbers_only(rest);
    renumbering_numbers(rest);
    assert forall|a: int| 0 <= a < at.len() implies {
        let line = #[trigger] removed(v, paths).lines[a];
        &&& line.path == v.lines[at[a]].path
        &&& line.size == v.lines[at[a]].size
        &&& line.is_dir == v.lines[at[a]].is_dir
        &&& line.depth == v.lines[at[a]].depth
        &&& line.expanded == v.lines[at[a]].expanded
    } by {
        assert(rest[a] == v.lines[at[a]]);
    }
    at
}

/// While browsing, the key for selecting turns the selection of the path
/// under the cursor over, and of no other path, however far the list is
/// scrolled; nothing else changes.
pub proof fn selecting_is_for_the_cursor(v: AppView, rows: nat, key: Seq<Seq<u8>>)
    requires
        v.input is None,
        v.cursor < v.lines.len(),
    ensures
        ({
            let (effect, new) = pressed(v, Key::Char('s'), rows);
            let here = components(v.lines[v.cursor as int].path);
            &&& pressed(v, Key::Char('S'), rows) == pressed(v, Key::Char('s'), rows)
            &&& effect == Effect::Nothing
            &&& new.selected.contains(here) != v.selected.contains(here)
            &&& key != here ==> new.selected.contains(key) == v.selected.contains(key)
            &&& new.root == v.root
            &&& new.lines == v.lines
            &&& new.cursor == v.cursor
            &&& new.scroll == v.scroll
            &&& new.input is None
        }),
{
}

/// While browsing, the arrows move the cursor by one line, and not beyond the
/// first and the last; nothing else changes.
pub proof fn arrows_move_by_one(v: AppView, rows: nat)
    requires
        v.input is None,
        v.cursor < v.lines.len(),
    ensures
        ({
            let (up_effect, up) = pressed(v, Key::Up, rows);
            let (down_effect, down) = pressed(v, Key::Down, rows);
            &&& up_effect == Effect::Nothing && down_effect == Effect::Nothing
            &&& v.cursor > 0 ==> up.cursor == v.cursor - 1
            &&& v.cursor == 0 ==> up.cursor == 0
            &&& v.cursor + 1 < v.lines.len() ==> down.cursor == v.cursor + 1
            &&& v.cursor + 1 == v.lines.len() ==> down.cursor == v.cursor
            &&& same_but_place(up, v) && up.scroll == v.scroll
            &&& same_but_place(down, v) && down.scroll == v.scroll
        }),
{
}

/// Whether two states differ at most in where the cursor and the screen are.
pub open spec fn same_but_place(a: AppView, b: AppView) -> bool {
    &&& a.root == b.root
    &&& a.lines == b.lines
    &&& a.selected == b.selected
    &&& a.input == b.input
}

/// While browsing, a page is as many lines as the screen has rows, but five:
/// cursor and screen move by so many, up to the first line and to the last.
/// The keys and the characters for paging do the same.
pub proof fn pages_are_screens(v: AppView, rows: nat, page: nat)
    requires
        v.input is None,
        v.cursor < v.lines.len(),
        rows >= 5,
        page == rows - 5,
    ensures
        ({
            let (up_effect, up) = pressed(v, Key::PageUp, rows);
            let (down_effect, down) = pressed(v, Key::PageDown, rows);
            let n = v.lines.len();
            &&& pressed(v, Key::Char('<'), rows) == pressed(v, Key::PageUp, rows)
            &&& pressed(v, Key::Char('>'), rows) == pressed(v, Key::PageDown, rows)
            &&& up_effect == Effect::Nothing && down_effect == Effect::Nothing
            &&& v.cursor >= page ==> up.cursor == v.cursor - page
            &&& v.cursor < page ==> up.cursor == 0
            &&& v.scroll >= page ==> up.scroll == v.scroll - page
            &&& v.scroll < page ==> up.scroll == 0
            &&& v.cursor + page < n ==> down.cursor == v.cursor + page
            &&& v.cursor + page >= n ==> down.cursor == n - 1
            &&& v.scroll + 2 * page <= n ==> down.scroll == v.scroll + page
            &&& v.scroll + 2 * page > n && n >= page ==> down.scroll == n - page
            &&& n < page ==> down.scroll == 0
            &&& same_but_place(up, v)
            &&& same_but_place(down, v)
        }),
{
}

/// While browsing, the space key asks for the listing of a folder that is not
/// expanded, toggles one that is, and does nothing to anything else.
pub proof fn space_is_for_folders(v: AppView, rows: nat)
    requires
        v.input is None,
        v.cursor < v.lines.len(),
    ensures
        ({
            let line = v.lines[v.cursor as int];
            let (effect, new) = pressed(v, Key::Space, rows);
            &&& line.is_dir && !line.expanded ==> effect == Effect::ListFolder && new == v
            &&& !line.is_dir ==> effect == Effect::Nothing && new == v
            &&& line.is_dir && line.expanded ==> effect == Effect::Nothing && new == toggled(
                v,
                v.cursor as int,
                Seq::empty(),
            )
        }),
{
}

/// While browsing, Enter opens the menu, `q` and Esc leave, a digit begins a
/// list of numbers with that digit, and every other character does nothing.
pub proof fn keys_while_browsing(v: AppView, rows: nat, c: char)
    requires
        v.input is None,
    ensures
        pressed(v, Key::Enter, rows) == (Effect::OpenMenu, v),
        pressed(v, Key::Esc, rows) == (Effect::Quit, v),
        pressed(v, Key::Char('q'), rows) == (Effect::Quit, v),
        pressed(v, Key::Backspace, rows) == (Effect::Nothing, v),
        '0' <= c <= '9' ==> pressed(v, Key::Char(c), rows) == (
            Effect::Nothing,
            AppView { input: Some(seq![c]), ..v },
        ),
        !('0' <= c <= '9') && c != 's' && c != 'S' && c != '<' && c != '>' && c != 'q'
            ==> pressed(v, Key::Char(c), rows) == (Effect::Nothing, v),
{
}

/// While a list of numbers is typed, digits, commas and blanks are added to
/// its end, Backspace takes the last character back, Esc gives the list up,
/// and all other keys but Enter do nothing.
pub proof fn keys_while_typing(v: AppView, rows: nat, c: char)
    requires
        v.input is Some,
    ensures
        ({
            let typed = v.input->0;
            &&& ('0' <= c <= '9' || c == ',' || c == ' ') ==> pressed(v, Key::Char(c), rows) == (
                Effect::Nothing,
                AppView { input: Some(typed.push(c)), ..v },
            )
            &&& !('0' <= c <= '9' || c == ',' || c == ' ') ==> pressed(v, Key::Char(c), rows) == (
                Effect::Nothing,
                v,
            )
            &&& pressed(v, Key::Esc, rows) == (Effect::Nothing, AppView { input: None, ..v })
            &&& typed.len() > 0 ==> pressed(v, Key::Backspace, rows) == (
                Effect::Nothing,
                AppView { input: Some(typed.take(typed.len() - 1)), ..v },
            )
            &&& typed.len() == 0 ==> pressed(v, Key::Backspace, rows) == (Effect::Nothing, v)
            &&& pressed(v, Key::Space, rows) == (Effect::Nothing, v)
            &&& pressed(v, Key::Up, rows) == (Effect::Nothing, v)
            &&& pressed(v, Key::Down, rows) == (Effect::Nothing, v)
            &&& pressed(v, Key::PageUp, rows) == (Effect::Nothing, v)
            &&& pressed(v, Key::PageDown, rows) == (Effect::Nothing, v)
            &&& pressed(v, Key::Enter, rows) == (Effect::Nothing, input_applied(v))
        }),
{
    let typed = v.input->0;
    if typed.len() > 0 {
        assert(typed.drop_last() =~= typed.take(typed.len() - 1));
    }
}

/// Scrolling to the cursor moves the screen no further than it has to: not at
/// all where the cursor is on screen, up until it is the first line shown, or
/// down until it is the last. A screen shows as many lines as it has rows,
/// but five. The cursor and all else stay.
pub proof fn scrolling_goes_just_far_enough(v: AppView, rows: nat, visible: nat)
    requires
        rows > 5,
        visible == rows - 5,
    ensures
        ({
            let new = scrolled(v, rows);
            &&& v.scroll <= v.cursor < v.scroll + visible ==> new.scroll == v.scroll
            &&& v.cursor < v.scroll ==> new.scroll == v.cursor
            &&& v.cursor >= v.scroll + visible ==> new.scroll + visible == v.cursor + 1
            &&& new.cursor == v.cursor
            &&& same_but_place(new, v)
        }),
{
}

/// Whether line `i` is the first with its number, and the number is `n`.
pub open spec fn is_first_numbered(lines: Seq<LineView>, n: nat, i: int) -> bool {
    &&& 0 <= i < lines.len()
    &&& lines[i].num == n
    &&& forall|k: int| 0 <= k < i ==> (#[trigger] lines[k]).num != n
}

/// Where `first_numbered` points.
proof fn first_numbered_is_first(lines: Seq<LineView>, n: nat)
    ensures
        first_numbered(lines, n) matches Some(i) ==> is_first_numbered(lines, n, i),
        first_numbered(lines, n) is None ==> forall|k: int|
            0 <= k < lines.len() ==> (#[trigger] lines[k]).num != n,
    decreases lines.len(),
{
    if lines.len() > 0 {
        let front = lines.drop_last();
        first_numbered_is_first(front, n);
        if let Some(i) = first_numbered(front, n) {
            assert(lines[i] == front[i]);
            assert forall|k: int| 0 <= k < i implies (#[trigger] lines[k]).num != n by {
                assert(lines[k] == front[k]);
            }
        } else {
            assert forall|k: int| 0 <= k < front.len() implies (#[trigger] lines[k]).num != n by {
                assert(lines[k] == front[k]);
            }
        }
    }
}

/// Whether a piece of a typed list names a path: it is a number, blanks aside,
/// and the first line with that number has the path.
pub open spec fn piece_names(
    lines: Seq<LineView>,
    piece: Seq<char>,
    key: Seq<Seq<u8>>,
) -> bool {
    exists|i: int|
        number_in(trimmed(piece)) is Some && #[trigger] is_first_numbered(
            lines,
            number_in(trimmed(piece))->0,
            i,
        ) && key == components(lines[i].path)
}

/// What a piece picks is what it names.
proof fn picked_is_named(lines: Seq<LineView>, piece: Seq<char>, key: Seq<Seq<u8>>)
    ensures
        picked(lines, piece) == Some(key) <==> piece_names(lines, piece, key),
{
    if let Some(n) = number_in(trimmed(piece)) {
        first_numbered_is_first(lines, n);
        if piece_names(lines, piece, key) {
            let i = choose|i: int|
                #[trigger] is_first_numbered(lines, n, i) && key == components(lines[i].path);
            match first_numbered(lines, n) {
                Some(j) => {
                    assert(is_first_numbered(lines, n, j));
                    if i < j {
                        assert(lines[i].num != n);
                    } else if j < i {
                        assert(lines[j].num != n);
                    }
                },
                None => {
                    assert(lines[i].num != n);
                },
            }
        }
    }
}

/// What pieces pick is what they name.
proof fn picked_among_is_named(
    lines: Seq<LineView>,
    pieces: Seq<Seq<char>>,
    key: Seq<Seq<u8>>,
)
    ensures
        picked_among(lines, pieces).contains(key) <==> exists|p: int|
            0 <= p < pieces.len() && piece_names(lines, #[trigger] pieces[p], key),
    decreases pieces.len(),
{
    if pieces.len() > 0 {
        let front = pieces.drop_last();
        let n = pieces.len() - 1;
        picked_among_is_named(lines, front, key);
        picked_is_named(lines, pieces[n], key);
        assert(pieces.last() == pieces[n]);
        if picked_among(lines, front).contains(key) {
            let p = choose|p: int|
                0 <= p < front.len() && piece_names(lines, #[trigger] front[p], key);
            assert(pieces[p] == front[p]);
        }
        if exists|p: int| 0 <= p < pieces.len() && piece_names(lines, #[trigger] pieces[p], key) {
            let p = choose|p: int|
                0 <= p < pieces.len() && piece_names(lines, #[trigger] pieces[p], key);
            if p < n {
                assert(front[p] == pieces[p]);
            }
        }
    }
}

/// Confirming a typed list selects the paths that its pieces name, and no
/// others, and ends the typing; nothing else changes.
pub proof fn a_list_selects_what_it_names(v: AppView, typed: Seq<char>, key: Seq<Seq<u8>>)
    requires
        v.input == Some(typed),
    ensures
        ({
            let new = input_applied(v);
            &&& new.selected.contains(key) <==> exists|p: int|
                0 <= p < split_on(typed, ',').len() && piece_names(
                    v.lines,
                    #[trigger] split_on(typed, ',')[p],
                    key,
                )
            &&& new.input is None
            &&& new.root == v.root
            &&& new.lines == v.lines
            &&& new.cursor == v.cursor
            &&& new.scroll == v.scroll
        }),
{
    picked_among_is_named(v.lines, split_on(typed, ','), key);
}

/// The targets of an action, in the order of the lines, have the paths and
/// the sizes of the lines that they are: the selected ones, or the one under
/// the cursor where nothing is selected.
pub proof fn targets_have_paths_and_sizes(v: AppView) -> (at: Seq<int>)
    requires
        v.cursor < v.lines.len(),
    ensures
        forall|a: int, b: int| 0 <= a < b < at.len() ==> #[trigger] at[a] < #[trigger] at[b],
        forall|a: int| 0 <= a < at.len() ==> 0 <= #[trigger] at[a] < v.lines.len(),
        v.selected == Set::<Seq<Seq<u8>>>::empty() ==> at == seq![v.cursor as int],
        v.selected != Set::<Seq<Seq<u8>>>::empty() ==> forall|k: int|
            0 <= k < v.lines.len() ==> (at.contains(k) <==> v.selected.contains(
                components((#[trigger] v.lines[k]).path),
            )),
        ({
            let targets = targets_of(target_lines(v));
            &&& targets.len() == at.len()
            &&& forall|a: int|
                0 <= a < at.len() ==> (#[trigger] targets[a]).0 == v.lines[at[a]].path
                    && targets[a].1 == v.lines[at[a]].size
        }),
{
    if v.selected == Set::<Seq<Seq<u8>>>::empty() {
        seq![v.cursor as int]
    } else {
        let at = selected_places(v.lines, v.selected);
        selected_places_are_targets(v.lines, v.selected);
        at
    }
}

/// Where the selected lines stand.
spec fn selected_places(lines: Seq<LineView>, selected: Set<Seq<Seq<u8>>>) -> Seq<int>
    decreases lines.len(),
{
    if lines.len() == 0 {
        Seq::empty()
    } else {
        let front = selected_places(lines.drop_last(), selected);
        if selected.contains(components(lines.last().path)) {
            front.push(lines.len() - 1)
        } else {
            front
        }
    }
}

/// What `selected_places` holds.
proof fn selected_places_are_targets(lines: Seq<LineView>, selected: Set<Seq<Seq<u8>>>)
    ensures
        ({
            let at = selected_places(lines, selected);
            let rest = lines.filter(|line: LineView| selected.contains(components(line.path)));
            &&& at.len() == rest.len()
            &&& forall|a: int, b: int| 0 <= a < b < at.len() ==> #[trigger] at[a] < #[trigger] at[b]
            &&& forall|a: int|
                0 <= a < at.len() ==> 0 <= #[trigger] at[a] < lines.len() && rest[a]
                    == lines[at[a]] && selected.contains(components(lines[at[a]].path))
            &&& forall|k: int|
                0 <= k < lines.len() && selected.contains(components((#[trigger] lines[k]).path))
                    ==> at.contains(k)
        }),
    decreases lines.len(),
{
    reveal(Seq::filter);
    let at = selected_places(lines, selected);
    if lines.len() > 0 {
        let front = lines.drop_last();
        let f = selected_places(front, selected);
        selected_places_are_targets(front, selected);
        assert forall|a: int, b: int| 0 <= a < b < at.len() implies #[trigger] at[a]
            < #[trigger] at[b] by {
            assert(at[a] == f[a]);
            if b < f.len() {
                assert(at[b] == f[b]);
            }
        }
        let rest = lines.filter(|line: LineView| selected.contains(components(line.path)));
        assert forall|a: int| 0 <= a < at.len() implies 0 <= #[trigger] at[a] < lines.len()
            && rest[a] == lines[at[a]] && selected.contains(components(lines[at[a]].path)) by {
            if a < f.len() {
                assert(at[a] == f[a]);
                assert(front[f[a]] == lines[f[a]]);
            }
        }
        assert forall|k: int|
            0 <= k < lines.len() && selected.contains(
                components((#[trigger] lines[k]).path),
            ) implies at.contains(k) by {
            if k < front.len() {
                assert(front[k] == lines[k]);
                assert(f.contains(k));
                let a = choose|a: int| 0 <= a < f.len() && f[a] == k;
                assert(at[a] == k);
            } else {
                assert(at[at.len() - 1] == k);
            }
        }
    }
}

/// In numbered lines, one at the top level has a number from one to the count
/// of the lines.
pub proof fn top_lines_have_numbers(lines: Seq<LineView>, i: int)
    requires
        is_numbered(lines),
        0 <= i < lines.len(),
        lines[i].depth == 0,
    ensures
        1 <= lines[i].num <= lines.len(),
{
    assert(lines[i].num == number_at(lines, i));
    tops_within_len(lines.take(i));
}

/// Lists of entries, targets and paths say what they hold, one by one and in
/// order, and so does a list that is being typed.
pub proof fn lists_say_what_they_hold(
    entries: Seq<Entry>,
    targets: Seq<(FilePath, u64)>,
    paths: Seq<FilePath>,
    typed: String,
    i: int,
)
    ensures
        line_views(entries).len() == entries.len(),
        0 <= i < entries.len() ==> line_views(entries)[i] == entries[i]@,
        target_views(targets).len() == targets.len(),
        0 <= i < targets.len() ==> target_views(targets)[i].0 == targets[i].0@ && target_views(
            targets,
        )[i].1 == targets[i].1,
        path_views(paths).len() == paths.len(),
        0 <= i < paths.len() ==> path_views(paths)[i] == paths[i]@,
        input_view(Some(typed)) == Some(typed@),
        input_view(None) is None,
{
}

/// Three keys are for the line under the cursor, and no others.
pub proof fn three_keys_are_for_the_line(key: Key)
    ensures
        is_for_line(key) <==> match key {
            Key::Space => true,
            Key::Char(c) => c == 's' || c == 'S',
            _ => false,
        },
{
}

/// Five rows of a screen are not for lines; a screen with no more shows none,
/// and then scrolls only up.
pub proof fn five_rows_are_not_for_lines(v: AppView, rows: nat)
    ensures
        rows <= 5 ==> visible_rows(rows) == 0,
        rows > 5 ==> visible_rows(rows) == rows - 5,
        rows <= 5 ==> {
            let new = scrolled(v, rows);
            &&& v.cursor < v.scroll ==> new.scroll == v.cursor
            &&& v.cursor >= v.scroll ==> new.scroll == v.scroll
            &&& new.cursor == v.cursor
            &&& same_but_place(new, v)
        },
{
}

/// Without lines the cursor stays where it is.
pub proof fn without_lines_nothing_moves(v: AppView, rows: nat)
    requires
        v.input is None,
        v.lines.len() == 0,
        v.cursor == 0,
    ensures
        pressed(v, Key::Up, rows) == (Effect::Nothing, v),
        pressed(v, Key::Down, rows) == (Effect::Nothing, v),
        ({
            let (effect, new) = pressed(v, Key::PageDown, rows);
            effect == Effect::Nothing && new.cursor == 0 && new.scroll == 0 && same_but_place(
                new,
                v,
            )
        }),
        ({
            let (effect, new) = pressed(v, Key::PageUp, rows);
            effect == Effect::Nothing && new.cursor == 0 && new.scroll <= v.scroll
                && same_but_place(new, v)
        }),
{
}

} // verus!
