//! The action menu of the browser.
use crate::browser::{
    input_view, path_views, removed, target_lines, target_views, targets_of, App, AppView,
};
use crate::keys::{
    byte_key, collect_chars, is_printable, line_after, printable_bytes_are_added, spelled, typed,
    Key, Typing,
};
use crate::path::FilePath;
use crate::screen::{name_text, path_text, string_views};
use crate::size::{human, human_text};
use crate::text::{
    decimal, decimal_text, number_in, paint, same_text, styled, written_number_reads_back, BOLD,
    CYAN, DIM, RED, YELLOW,
};
use vstd::prelude::*;

verus! {

/// What has to be typed before anything is deleted.
pub const DELETE_WORD: &'static str = "DELETE";

/// What an answer to the question whether to delete comes to.
#[derive(Debug, Clone, Copy, PartialEq, Eq, Structural)]
pub enum Answer {
    /// Delete.
    Delete,
    /// Something else was typed.
    Cancelled,
    /// Nothing was typed.
    Nothing,
}

/// What an answer to the question whether to delete comes to: only the exact
/// word deletes.
pub open spec fn answer_of(typed: Seq<char>) -> Answer {
    if typed == DELETE_WORD@ {
        Answer::Delete
    } else if typed.len() > 0 {
        Answer::Cancelled
    } else {
        Answer::Nothing
    }
}

/// What an answer to the question whether to delete comes to.
pub fn confirm(typed: &str) -> (out: Answer)
    ensures
        out == answer_of(typed@),
{
    if same_text(typed, DELETE_WORD) {
        Answer::Delete
    } else if typed.unicode_len() > 0 {
        Answer::Cancelled
    } else {
        Answer::Nothing
    }
}

/// The sizes of targets added up.
pub open spec fn sum_of_sizes(targets: Seq<(Seq<u8>, nat)>) -> nat
    decreases targets.len(),
{
    if targets.len() == 0 {
        0
    } else {
        sum_of_sizes(targets.drop_last()) + targets.last().1
    }
}

/// More targets never add up to less.
proof fn sum_of_first(targets: Seq<(Seq<u8>, nat)>, n: int)
    requires
        0 <= n <= targets.len(),
    ensures
        sum_of_sizes(targets.take(n)) <= sum_of_sizes(targets),
    decreases targets.len() - n,
{
    if n == targets.len() {
        assert(targets.take(n) =~= targets);
    } else {
        assert(targets.take(n + 1).drop_last() =~= targets.take(n));
        sum_of_first(targets, n + 1);
    }
}

/// The sizes of targets added up, if the sum can be held.
pub fn total_size(targets: &Vec<(FilePath, u64)>) -> (out: Option<u64>)
    ensures
        out is Some <==> sum_of_sizes(target_views(targets@)) <= u64::MAX,
        out is Some ==> out->0 == sum_of_sizes(target_views(targets@)),
{
    let ghost all = target_views(targets@);
    let mut sum: u64 = 0;
    let mut i: usize = 0;
    assert(all.take(0) =~= Seq::empty());
    while i < targets.len()
        invariant
            i <= targets@.len(),
            all == target_views(targets@),
            sum == sum_of_sizes(all.take(i as int)),
        decreases targets@.len() - i,
    {
        let size = targets[i].1;
        proof {
            assert(all.take(i + 1).drop_last() =~= all.take(i as int));
            assert(all.take(i + 1).last().1 == size);
            sum_of_first(all, i + 1);
        }
        if size > u64::MAX - sum {
            return None;
        }
        sum += size;
        i += 1;
    }
    assert(all.take(i as int) =~= all);
    Some(sum)
}

/// What the menu is for: one target by its name, several by their number and
/// size.
pub open spec fn description(count: nat, name: Seq<char>, total: nat) -> Seq<char> {
    if count == 1 {
        name
    } else {
        decimal(count) + " items  ("@ + human_text(total) + ")"@
    }
}

/// What the menu is for, the name of the first target given as text.
pub fn describe(count: usize, name: &str, total: u64) -> (out: String)
    ensures
        out@ == description(count as nat, name@, total as nat),
{
    if count == 1 {
        name.to_owned()
    } else {
        let mut out = decimal_text(count as u64);
        out.append(" items  (");
        out.append(human(total).as_str());
        out.append(")");
        out
    }
}

/// What the menu is for; `None` where the sizes add up to more than can be
/// held.
pub fn describe_targets(targets: &Vec<(FilePath, u64)>) -> (out: Option<String>)
    requires
        targets@.len() > 0,
    ensures
        out is Some <==> sum_of_sizes(target_views(targets@)) <= u64::MAX,
        out is Some ==> out->0@ == description(
            targets@.len(),
            name_text(target_views(targets@)[0].0),
            sum_of_sizes(target_views(targets@)),
        ),
{
    match total_size(targets) {
        Some(total) => {
            let name = targets[0].0.display_name();
            Some(describe(targets.len(), name.as_str(), total))
        },
        None => None,
    }
}

/// The paths of targets.
pub open spec fn paths_of(targets: Seq<(Seq<u8>, nat)>) -> Seq<Seq<u8>> {
    Seq::new(targets.len(), |i: int| targets[i].0)
}

/// The paths of targets.
pub fn target_paths(targets: &Vec<(FilePath, u64)>) -> (out: Vec<FilePath>)
    ensures
        path_views(out@) == paths_of(target_views(targets@)),
{
    let mut out: Vec<FilePath> = Vec::new();
    let ghost all = paths_of(target_views(targets@));
    let mut i: usize = 0;
    while i < targets.len()
        invariant
            i <= targets@.len(),
            all == paths_of(target_views(targets@)),
            path_views(out@) =~= all.take(i as int),
        decreases targets@.len() - i,
    {
        let path = targets[i].0.clone();
        let ghost before = path_views(out@);
        assert(path@ == all[i as int]);
        out.push(path);
        assert(path_views(out@) =~= before.push(path@));
        i += 1;
    }
    out
}

/// The state of the action menu: what it is for, and, once the user has been
/// asked whether to delete, the answer typed so far.
pub struct MenuView {
    pub targets: Seq<(Seq<u8>, nat)>,
    pub typed: Option<Seq<char>>,
}

/// What is to be done outside after a key in the menu.
#[derive(Debug, Clone, Copy, PartialEq, Eq, Structural)]
pub enum MenuAction {
    /// The menu is to be shown again.
    Show,
    /// The targets are to be revealed; the menu is closed.
    Reveal,
    /// The user is to be asked whether to delete.
    Ask,
    /// The answer is being typed, and the terminal is to follow.
    Echo(Typing),
    /// The targets are to be deleted; the menu is closed.
    Delete,
    /// A wrong answer is to be acknowledged; the menu is closed.
    Cancel,
    /// The menu is closed.
    Close,
    /// The browser is to be left.
    Quit,
}

/// What a key does in the menu, before anything is asked.
pub open spec fn choice(key: Key) -> MenuAction {
    match key {
        Key::Char(c) => if c == 'r' || c == 'R' {
            MenuAction::Reveal
        } else if c == 'd' || c == 'D' {
            MenuAction::Ask
        } else if c == 'b' || c == 'B' {
            MenuAction::Close
        } else if c == 'q' {
            MenuAction::Quit
        } else {
            MenuAction::Show
        },
        Key::Esc => MenuAction::Close,
        _ => MenuAction::Show,
    }
}

/// What a key does while the answer is typed.
pub open spec fn reply(line: Seq<char>, key: Key) -> MenuAction {
    match typed(line, key).0 {
        Typing::Done => match answer_of(line) {
            Answer::Delete => MenuAction::Delete,
            Answer::Cancelled => MenuAction::Cancel,
            Answer::Nothing => MenuAction::Close,
        },
        Typing::Cancelled => MenuAction::Close,
        typing => MenuAction::Echo(typing),
    }
}

/// What a key does.
pub open spec fn menu_action(menu: MenuView, key: Key) -> MenuAction {
    match menu.typed {
        Some(line) => reply(line, key),
        None => choice(key),
    }
}

/// The menu after a key.
pub open spec fn menu_after(menu: MenuView, key: Key) -> MenuView {
    match menu.typed {
        Some(line) => MenuView { typed: Some(typed(line, key).1), ..menu },
        None => if choice(key) == MenuAction::Ask {
            MenuView { typed: Some(Seq::empty()), ..menu }
        } else {
            menu
        },
    }
}

/// The browser after a key in the menu: nothing is selected once the targets
/// are revealed, and they are gone from the lines once they are deleted.
pub open spec fn app_after(menu: MenuView, app: AppView, key: Key) -> AppView {
    match menu_action(menu, key) {
        MenuAction::Reveal => AppView { selected: Set::<Seq<Seq<u8>>>::empty(), ..app },
        MenuAction::Delete => removed(app, paths_of(menu.targets)),
        _ => app,
    }
}

/// The action menu.
#[derive(Debug)]
pub struct ActionMenu {
    targets: Vec<(FilePath, u64)>,
    typed: Option<String>,
}

impl View for ActionMenu {
    type V = MenuView;

    closed spec fn view(&self) -> MenuView {
        MenuView { targets: target_views(self.targets@), typed: input_view(self.typed) }
    }
}

impl ActionMenu {
    /// The menu for what is selected, or for the line under the cursor where
    /// nothing is; `None` where no line is selected.
    pub fn open(app: &App) -> (out: Option<ActionMenu>)
        requires
            app.wf(),
            app@.selected == Set::<Seq<Seq<u8>>>::empty() ==> app@.lines.len() > 0,
        ensures
            out is Some <==> target_lines(app@).len() > 0,
            out is Some ==> out->0@ == (MenuView {
                targets: targets_of(target_lines(app@)),
                typed: None,
            }),
    {
        let targets = app.action_targets();
        assert(target_views(targets@).len() == targets@.len());
        if targets.len() == 0 {
            None
        } else {
            Some(ActionMenu { targets, typed: None })
        }
    }

    /// What the menu is for.
    pub fn targets(&self) -> (out: &Vec<(FilePath, u64)>)
        ensures
            target_views(out@) == self@.targets,
    {
        &self.targets
    }
}

/// Takes a key in the menu. The result says what is to be done outside.
pub fn show_action(menu: &mut ActionMenu, app: &mut App, key: Key) -> (out: MenuAction)
    requires
        old(app).wf(),
    ensures
        final(app).wf(),
        out == menu_action(old(menu)@, key),
        final(menu)@ == menu_after(old(menu)@, key),
        final(app)@ == app_after(old(menu)@, old(app)@, key),
{
    match menu.typed.take() {
        Some(mut line) => {
            let typing = collect_chars(&mut line, key);
            let out = match typing {
                Typing::Done => match confirm(line.as_str()) {
                    Answer::Delete => {
                        let paths = target_paths(&menu.targets);
                        app.remove_paths(&paths);
                        MenuAction::Delete
                    },
                    Answer::Cancelled => MenuAction::Cancel,
                    Answer::Nothing => MenuAction::Close,
                },
                Typing::Cancelled => MenuAction::Close,
                typing => MenuAction::Echo(typing),
            };
            menu.typed = Some(line);
            out
        },
        None => match key {
            Key::Char(c) => if c == 'r' || c == 'R' {
                app.clear_selection();
                MenuAction::Reveal
            } else if c == 'd' || c == 'D' {
                menu.typed = Some(String::new());
                MenuAction::Ask
            } else if c == 'b' || c == 'B' {
                MenuAction::Close
            } else if c == 'q' {
                MenuAction::Quit
            } else {
                MenuAction::Show
            },
            Key::Esc => MenuAction::Close,
            _ => MenuAction::Show,
        },
    }
}

/// Whether a byte from the keyboard goes into a line, or takes back what went
/// into it.
pub open spec fn is_typing(byte: u8) -> bool {
    byte >= 0x20 || byte == 0x08
}

/// The menu after these bytes came from the keyboard, one by one.
pub open spec fn menu_after_bytes(menu: MenuView, bytes: Seq<u8>) -> MenuView
    decreases bytes.len(),
{
    if bytes.len() == 0 {
        menu
    } else {
        menu_after(menu_after_bytes(menu, bytes.drop_last()), byte_key(bytes.last()))
    }
}

/// Bytes from the keyboard make up the answer.
proof fn bytes_make_the_answer(menu: MenuView, bytes: Seq<u8>)
    requires
        menu.typed is Some,
    ensures
        menu_after_bytes(menu, bytes) == (MenuView {
            typed: Some(line_after(menu.typed->0, bytes)),
            ..menu
        }),
    decreases bytes.len(),
{
    if bytes.len() > 0 {
        bytes_make_the_answer(menu, bytes.drop_last());
    }
}

/// After the menu has asked whether to delete, bytes from the keyboard keep it
/// asking, and Enter then deletes exactly if the line that they make up is the
/// word. That removes the targets, with all under them, from the lines; with
/// any other line the lines stay. Printable bytes alone make up the word only
/// if they spell it.
pub proof fn only_the_word_deletes(menu: MenuView, app: AppView, bytes: Seq<u8>)
    requires
        menu.typed is None,
        forall|i: int| 0 <= i < bytes.len() ==> is_typing(#[trigger] bytes[i]),
    ensures
        ({
            let asked = menu_after(menu, byte_key(0x64));
            let answered = menu_after_bytes(asked, bytes);
            let line = line_after(Seq::empty(), bytes);
            &&& menu_action(menu, byte_key(0x64)) == MenuAction::Ask
            &&& forall|i: int|
                0 <= i < bytes.len() ==> menu_action(
                    menu_after_bytes(asked, bytes.take(i)),
                    byte_key(#[trigger] bytes[i]),
                ) is Echo
            &&& menu_action(answered, byte_key(0x0d)) == MenuAction::Delete <==> line
                == DELETE_WORD@
            &&& app_after(answered, app, byte_key(0x0d)) == if line == DELETE_WORD@ {
                removed(app, paths_of(menu.targets))
            } else {
                app
            }
            &&& (forall|i: int| 0 <= i < bytes.len() ==> is_printable(#[trigger] bytes[i])) ==> (
            menu_action(answered, byte_key(0x0d)) == MenuAction::Delete <==> spelled(bytes)
                == DELETE_WORD@)
        }),
{
    let asked = menu_after(menu, byte_key(0x64));
    assert(byte_key(0x64) == Key::Char('d'));
    bytes_make_the_answer(asked, bytes);
    assert forall|i: int| 0 <= i < bytes.len() implies menu_action(
        menu_after_bytes(asked, bytes.take(i)),
        byte_key(#[trigger] bytes[i]),
    ) is Echo by {
        assert(is_typing(bytes[i]));
        bytes_make_the_answer(asked, bytes.take(i));
    }
    if forall|i: int| 0 <= i < bytes.len() ==> is_printable(#[trigger] bytes[i]) {
        printable_bytes_are_added(Seq::empty(), bytes);
        assert(Seq::<char>::empty() + spelled(bytes) =~= spelled(bytes));
    }
}

/// No single key in the menu deletes.
pub proof fn no_key_deletes_unasked(menu: MenuView, key: Key)
    requires
        menu.typed is None,
    ensures
        menu_action(menu, key) != MenuAction::Delete,
{
}

/// The start of the last row but one of a screen of so many rows, emptied.
pub open spec fn status_row(rows: nat) -> Seq<char> {
    "\x1b["@ + decimal(
        if rows > 0 {
            (rows - 1) as nat
        } else {
            0
        },
    ) + "H\x1b[2K"@
}

/// The start of the last row but one of a screen of `h` rows, emptied.
fn on_status_row(h: usize) -> (out: String)
    ensures
        out@ == status_row(h as nat),
{
    let mut out = String::new();
    out.append("\x1b[");
    out.append(decimal_text(h.saturating_sub(1) as u64).as_str());
    out.append("H\x1b[2K");
    assert(out@ =~= status_row(h as nat));
    out
}

/// The menu, for what it describes.
pub open spec fn menu_text(what: Seq<char>, rows: nat) -> Seq<char> {
    status_row(rows) + "  "@ + styled(DIM@, "▸"@) + " "@ + styled(YELLOW@, what) + "   "@ + styled(
        BOLD@,
        "[r] Finder"@,
    ) + "  "@ + styled(BOLD@, "[d] Delete"@) + "  "@ + styled(BOLD@, "[b] Back"@) + " "@
}

/// The menu, for what it describes, on a screen of `h` rows.
pub fn menu_line(what: &str, h: usize) -> (out: String)
    ensures
        out@ == menu_text(what@, h as nat),
{
    let mut out = on_status_row(h);
    out.append("  ");
    out.append(paint(DIM, "▸").as_str());
    out.append(" ");
    out.append(paint(YELLOW, what).as_str());
    out.append("   ");
    out.append(paint(BOLD, "[r] Finder").as_str());
    out.append("  ");
    out.append(paint(BOLD, "[d] Delete").as_str());
    out.append("  ");
    out.append(paint(BOLD, "[b] Back").as_str());
    out.append(" ");
    assert(out@ =~= menu_text(what@, h as nat));
    out
}

/// The question whether to delete.
pub open spec fn confirm_text(rows: nat) -> Seq<char> {
    status_row(rows) + "  "@ + styled(YELLOW@, "⚠"@) + " Type "@ + styled(BOLD@, DELETE_WORD@)
        + " to confirm: "@
}

/// The question whether to delete, on a screen of `h` rows.
pub fn confirm_line(h: usize) -> (out: String)
    ensures
        out@ == confirm_text(h as nat),
{
    let mut out = on_status_row(h);
    out.append("  ");
    out.append(paint(YELLOW, "⚠").as_str());
    out.append(" Type ");
    out.append(paint(BOLD, DELETE_WORD).as_str());
    out.append(" to confirm: ");
    assert(out@ =~= confirm_text(h as nat));
    out
}

/// The notice that nothing is deleted, on a screen of `h` rows.
pub fn cancelled_line(h: usize) -> (out: String)
    ensures
        out@ == status_row(h as nat) + "  "@ + styled(DIM@, "Cancelled."@),
{
    let mut out = on_status_row(h);
    out.append("  ");
    out.append(paint(DIM, "Cancelled.").as_str());
    out
}

/// The notice that a folder is being listed, on a screen of `h` rows.
pub fn scanning_line(h: usize) -> (out: String)
    ensures
        out@ == status_row(h as nat) + "  "@ + styled(CYAN@, "⟳"@) + " Scanning folder…"@,
{
    let mut out = on_status_row(h);
    out.append("  ");
    out.append(paint(CYAN, "⟳").as_str());
    out.append(" Scanning folder…");
    out
}

/// A path, given as text, and what went wrong with it.
pub fn failure_named(path: &str, error: &str) -> (out: String)
    ensures
        out@ == path@ + ": "@ + error@,
{
    let mut out = path.to_owned();
    out.append(": ");
    out.append(error);
    out
}

/// A path and what went wrong with it.
pub fn failure(path: &FilePath, error: &str) -> (out: String)
    ensures
        out@ == path_text(path@) + ": "@ + error@,
{
    failure_named(path.display().as_str(), error)
}

/// Texts with semicolons between them.
pub open spec fn listed(texts: Seq<Seq<char>>) -> Seq<char>
    decreases texts.len(),
{
    if texts.len() == 0 {
        Seq::empty()
    } else if texts.len() == 1 {
        texts[0]
    } else {
        listed(texts.drop_last()) + "; "@ + texts.last()
    }
}

/// What went wrong, on a screen of `h` rows.
pub fn error_line(failures: &Vec<String>, h: usize) -> (out: String)
    ensures
        out@ == status_row(h as nat) + "  "@ + styled(RED@, "Error:"@) + " "@ + listed(
            string_views(failures@),
        ),
{
    let ghost all = string_views(failures@);
    let mut list = String::new();
    let mut i: usize = 0;
    assert(all.take(0) =~= Seq::empty());
    while i < failures.len()
        invariant
            i <= failures@.len(),
            all == string_views(failures@),
            list@ =~= listed(all.take(i as int)),
        decreases failures@.len() - i,
    {
        proof {
            assert(all.take(i + 1).drop_last() =~= all.take(i as int));
            assert(all.take(i + 1).last() == failures@[i as int]@);
        }
        if i > 0 {
            list.append("; ");
        }
        list.append(failures[i].as_str());
        i += 1;
    }
    assert(all.take(i as int) =~= all);
    let mut out = on_status_row(h);
    out.append("  ");
    out.append(paint(RED, "Error:").as_str());
    out.append(" ");
    out.append(list.as_str());
    out
}

/// What the terminal is sent for a key of a line that is being typed.
pub open spec fn echo_text(typing: Typing) -> Seq<char> {
    match typing {
        Typing::Erased => "\x1b[1D \x1b[1D"@,
        Typing::Added(c) => seq![c],
        _ => Seq::empty(),
    }
}

/// What the terminal is sent for a key of a line that is being typed.
pub fn echo(typing: Typing) -> (out: String)
    ensures
        out@ == echo_text(typing),
{
    let mut out = String::new();
    match typing {
        Typing::Erased => {
            out.append("\x1b[1D \x1b[1D");
        },
        Typing::Added(c) => {
            out.push(c);
        },
        _ => {},
    }
    assert(out@ =~= echo_text(typing));
    out
}

/// Only the six letters of the word, in that order and nothing else, confirm a
/// deletion; anything else that is not empty cancels it.
pub proof fn only_six_letters_confirm(text: Seq<char>)
    ensures
        answer_of(text) == Answer::Delete <==> text == seq!['D', 'E', 'L', 'E', 'T', 'E'],
        answer_of(text) == Answer::Nothing <==> text.len() == 0,
{
    reveal_strlit("DELETE");
    assert(DELETE_WORD@ =~= seq!['D', 'E', 'L', 'E', 'T', 'E']);
}

/// In the menu, before anything is asked, `r` reveals, `d` asks whether to
/// delete and `b` closes, in either case; Esc closes, `q` leaves, and every
/// other key shows the menu again.
pub proof fn keys_of_the_menu(menu: MenuView, c: char)
    requires
        menu.typed is None,
    ensures
        menu_action(menu, Key::Char(c)) == if c == 'r' || c == 'R' {
            MenuAction::Reveal
        } else if c == 'd' || c == 'D' {
            MenuAction::Ask
        } else if c == 'b' || c == 'B' {
            MenuAction::Close
        } else if c == 'q' {
            MenuAction::Quit
        } else {
            MenuAction::Show
        },
        menu_action(menu, Key::Esc) == MenuAction::Close,
        menu_action(menu, Key::Enter) == MenuAction::Show,
        menu_action(menu, Key::Space) == MenuAction::Show,
        menu_action(menu, Key::Backspace) == MenuAction::Show,
        menu_action(menu, Key::Up) == MenuAction::Show,
        menu_action(menu, Key::Down) == MenuAction::Show,
        menu_action(menu, Key::PageUp) == MenuAction::Show,
        menu_action(menu, Key::PageDown) == MenuAction::Show,
        menu_after(menu, Key::Char(c)) == if c == 'd' || c == 'D' {
            MenuView { typed: Some(Seq::empty()), ..menu }
        } else {
            menu
        },
{
}

/// The word is the only answer that deletes: with any other, Enter closes the
/// menu, after a notice where something was typed. Esc closes it at once.
pub proof fn answers_of_the_menu(menu: MenuView, line: Seq<char>)
    requires
        menu.typed == Some(line),
    ensures
        menu_action(menu, Key::Enter) == if line == seq!['D', 'E', 'L', 'E', 'T', 'E'] {
            MenuAction::Delete
        } else if line.len() > 0 {
            MenuAction::Cancel
        } else {
            MenuAction::Close
        },
        menu_action(menu, Key::Esc) == MenuAction::Close,
{
    only_six_letters_confirm(line);
}

/// A key in the menu changes the browser in two cases: revealing selects
/// nothing, and deleting removes the paths of the targets, all of them and no
/// others. The targets of the menu never change.
pub proof fn the_menu_acts_on_its_targets(menu: MenuView, app: AppView, key: Key)
    ensures
        menu_after(menu, key).targets == menu.targets,
        menu_action(menu, key) == MenuAction::Reveal ==> {
            let new = app_after(menu, app, key);
            &&& forall|path: Seq<Seq<u8>>| !new.selected.contains(path)
            &&& new.root == app.root
            &&& new.lines == app.lines
            &&& new.cursor == app.cursor
            &&& new.scroll == app.scroll
            &&& new.input == app.input
        },
        menu_action(menu, key) == MenuAction::Delete ==> app_after(menu, app, key) == removed(
            app,
            Seq::new(menu.targets.len(), |i: int| menu.targets[i].0),
        ),
        menu_action(menu, key) != MenuAction::Reveal && menu_action(menu, key)
            != MenuAction::Delete ==> app_after(menu, app, key) == app,
{
    assert(paths_of(menu.targets) =~= Seq::new(
        menu.targets.len(),
        |i: int| menu.targets[i].0,
    ));
}

/// A target adds its size to the sum.
pub proof fn sums_take_in_every_target(targets: Seq<(Seq<u8>, nat)>, target: (Seq<u8>, nat))
    ensures
        sum_of_sizes(Seq::empty()) == 0,
        sum_of_sizes(targets.push(target)) == sum_of_sizes(targets) + target.1,
{
    assert(targets.push(target).drop_last() =~= targets);
}

/// One target is described by its name, and any other number of them by that
/// number, which reads back, and by their size.
pub proof fn several_are_described_by_their_number(count: nat, name: Seq<char>, total: nat)
    requires
        count <= usize::MAX,
    ensures
        description(1, name, total) == name,
        count != 1 ==> {
            let digits = decimal(count).len() as int;
            &&& number_in(description(count, name, total).take(digits)) == Some(count)
            &&& description(count, name, total).skip(digits) == " items  ("@ + human_text(total)
                + ")"@
        },
{
    if count != 1 {
        let t = description(count, name, total);
        let digits = decimal(count).len() as int;
        assert(t.take(digits) =~= decimal(count));
        assert(t.skip(digits) =~= " items  ("@ + human_text(total) + ")"@);
        written_number_reads_back(count);
    }
}

/// The status is shown in the last row but one: what stands between the codes
/// is the number of the rows less one, or zero.
pub proof fn status_is_in_the_last_row_but_one(rows: nat)
    ensures
        rows > 0 ==> status_row(rows) == "\x1b["@ + decimal((rows - 1) as nat) + "H\x1b[2K"@,
        status_row(0) == "\x1b["@ + decimal(0) + "H\x1b[2K"@,
{
}

/// Texts are listed in order, all of them, with a semicolon and a blank between
/// two.
pub proof fn texts_are_listed_in_order(texts: Seq<Seq<char>>, text: Seq<char>)
    ensures
        listed(Seq::empty()).len() == 0,
        listed(seq![text]) == text,
        texts.len() > 0 ==> listed(texts.push(text)) == listed(texts) + "; "@ + text,
{
    assert(texts.push(text).drop_last() =~= texts);
    assert(seq![text][0] == text);
}

/// The terminal follows the typing: what is added is shown, what is taken back
/// is written over, and nothing else is sent.
pub proof fn the_terminal_shows_what_is_added(typing: Typing, c: char)
    ensures
        echo_text(Typing::Added(c)) == seq![c],
        echo_text(Typing::Erased) == "\x1b[1D \x1b[1D"@,
        !(typing is Added) && !(typing is Erased) ==> echo_text(typing).len() == 0,
{
}

/// The menu shows what it is for in full, and the question names the word.
pub proof fn the_menu_shows_what_it_is_for(what: Seq<char>, rows: nat)
    ensures
        menu_text(what, rows) == status_row(rows) + "  "@ + styled(DIM@, "▸"@) + " "@ + styled(
            YELLOW@,
            what,
        ) + "   "@ + styled(BOLD@, "[r] Finder"@) + "  "@ + styled(BOLD@, "[d] Delete"@) + "  "@
            + styled(BOLD@, "[b] Back"@) + " "@,
        confirm_text(rows) == status_row(rows) + "  "@ + styled(YELLOW@, "⚠"@) + " Type "@ + styled(
            BOLD@,
            "DELETE"@,
        ) + " to confirm: "@,
{
}

} // verus!
