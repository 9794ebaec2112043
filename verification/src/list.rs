//! The plain edition: a numbered list and questions, line by line.
use crate::menu::{answer_of, only_six_letters_confirm, Answer, DELETE_WORD};
use crate::path::FilePath;
use crate::rank::{item_views, ItemView, ScanItem};
use crate::screen::{icon, icon_text, path_text, string_views};
use crate::size::{human, human_text};
use crate::text::{
    align_right, chars_of, decimal, decimal_text, number_in, number_in_a_field_reads_back, paint,
    parse_number, right_aligned, same_text, styled, text_of, trim, trimmed, BOLD, CYAN, DIM,
    GREEN, RED, YELLOW,
};
use crate::walk::Edition;
use vstd::prelude::*;

verus! {

/// A line that was typed, without the white space at both ends.
pub fn prompt(line: &str) -> (out: String)
    ensures
        out@ == trimmed(line@),
{
    let chars = chars_of(line);
    text_of(trim(chars.as_slice()).as_slice())
}

/// What an answer to the question for an item comes to.
#[derive(Debug, Clone, Copy, PartialEq, Eq, Structural)]
pub enum Choice {
    /// Leave.
    Quit,
    /// The item at this index.
    Item(usize),
    /// No item.
    Invalid,
}

/// What an answer comes to where there are `n` items: zero leaves, and the
/// items are numbered from one.
pub open spec fn choice_of(answer: Seq<char>, n: nat) -> Choice {
    match number_in(answer) {
        Some(number) => if number == 0 {
            Choice::Quit
        } else if number <= n {
            Choice::Item((number - 1) as usize)
        } else {
            Choice::Invalid
        },
        None => Choice::Invalid,
    }
}

/// What an answer to the question for an item comes to, where there are `n`
/// items.
pub fn choose_item(answer: &str, n: usize) -> (out: Choice)
    ensures
        out == choice_of(answer@, n as nat),
        out matches Choice::Item(i) ==> i < n,
{
    let chars = chars_of(answer);
    match parse_number(chars.as_slice()) {
        Some(number) => if number == 0 {
            Choice::Quit
        } else if number <= n {
            Choice::Item(number - 1)
        } else {
            Choice::Invalid
        },
        None => Choice::Invalid,
    }
}

/// Answering with the number of an item chooses it.
pub proof fn number_chooses_item(i: usize, n: usize)
    requires
        i < n,
    ensures
        choice_of(decimal((i + 1) as nat), n as nat) == Choice::Item(i),
{
    crate::text::written_number_reads_back((i + 1) as nat);
}

/// What is to be done with an item.
#[derive(Debug, Clone, Copy, PartialEq, Eq, Structural)]
pub enum ItemAction {
    /// Reveal it.
    Reveal,
    /// Delete it, once that is confirmed.
    Delete,
    /// Nothing.
    Back,
}

/// What an answer to the question for an action comes to: a single letter, of
/// either case.
pub open spec fn item_action_of(answer: Seq<char>) -> ItemAction {
    if answer == seq!['r'] || answer == seq!['R'] {
        ItemAction::Reveal
    } else if answer == seq!['d'] || answer == seq!['D'] {
        ItemAction::Delete
    } else {
        ItemAction::Back
    }
}

/// What an answer to the question for an action comes to.
pub fn choose_action(answer: &str) -> (out: ItemAction)
    ensures
        out == item_action_of(answer@),
{
    if answer.unicode_len() != 1 {
        return ItemAction::Back;
    }
    let c = answer.get_char(0);
    assert(answer@ =~= seq![c]);
    proof {
        assert(seq!['r'][0] == 'r' && seq!['R'][0] == 'R');
        assert(seq!['d'][0] == 'd' && seq!['D'][0] == 'D');
        assert(answer@[0] == c);
    }
    if c == 'r' || c == 'R' {
        ItemAction::Reveal
    } else if c == 'd' || c == 'D' {
        ItemAction::Delete
    } else {
        ItemAction::Back
    }
}

/// What the dialogue waits for.
#[derive(Debug, Clone, Copy, PartialEq, Eq, Structural)]
pub enum Stage {
    /// The number of an item.
    Item,
    /// What to do with the item at this index.
    Action(usize),
    /// Whether to delete the item at this index.
    Confirm(usize),
    /// Whether the item at this index could be deleted.
    Outcome(usize),
    /// Nothing: it is over.
    Over,
}

/// What is to be done outside after an answer.
#[derive(Debug, Clone, Copy, PartialEq, Eq, Structural)]
pub enum Turn {
    /// The list is to be shown again.
    ShowList,
    /// The answer named no item, and the list is to be shown again.
    Invalid,
    /// The item at this index and its actions are to be shown.
    ShowItem(usize),
    /// The item at this index is to be revealed, and the list shown again.
    Reveal(usize),
    /// The user is to confirm that the item at this index is to be deleted.
    Warn(usize),
    /// The item at this index is to be deleted.
    Delete(usize),
    /// Nothing was deleted, and the list is to be shown again.
    Cancelled,
    /// The item was deleted, and the list is to be shown again.
    Deleted,
    /// The item could not be deleted, and the list is to be shown again.
    Failed,
    /// The last item was deleted, and the dialogue is over.
    NoneLeft,
    /// The dialogue is over.
    Quit,
}

/// The state of the dialogue.
pub struct DialogueView {
    pub items: Seq<ItemView>,
    pub stage: Stage,
}

/// Whether the stage is about an item that there is.
pub open spec fn is_sound(d: DialogueView) -> bool {
    match d.stage {
        Stage::Action(i) => i < d.items.len(),
        Stage::Confirm(i) => i < d.items.len(),
        Stage::Outcome(i) => i < d.items.len(),
        _ => true,
    }
}

/// Whether the dialogue waits for an answer.
pub open spec fn awaits_answer(d: DialogueView) -> bool {
    d.stage is Item || d.stage is Action || d.stage is Confirm
}

/// What an answer, without the white space at both ends, leads to.
pub open spec fn answered(d: DialogueView, answer: Seq<char>) -> (Turn, Stage) {
    match d.stage {
        Stage::Item => match choice_of(answer, d.items.len()) {
            Choice::Quit => (Turn::Quit, Stage::Over),
            Choice::Item(i) => (Turn::ShowItem(i), Stage::Action(i)),
            Choice::Invalid => (Turn::Invalid, Stage::Item),
        },
        Stage::Action(i) => match item_action_of(answer) {
            ItemAction::Reveal => (Turn::Reveal(i), Stage::Item),
            ItemAction::Delete => (Turn::Warn(i), Stage::Confirm(i)),
            ItemAction::Back => (Turn::ShowList, Stage::Item),
        },
        Stage::Confirm(i) => if answer_of(answer) == Answer::Delete {
            (Turn::Delete(i), Stage::Outcome(i))
        } else {
            (Turn::Cancelled, Stage::Item)
        },
        stage => (Turn::ShowList, stage),
    }
}

/// What the outcome of a deletion leads to: a deleted item leaves the list,
/// and the dialogue is over when it was the last.
pub open spec fn settled(d: DialogueView, deleted: bool) -> (Turn, DialogueView) {
    let i = d.stage->Outcome_0;
    let rest = d.items.remove(i as int);
    if !deleted {
        (Turn::Failed, DialogueView { stage: Stage::Item, ..d })
    } else if rest.len() == 0 {
        (Turn::NoneLeft, DialogueView { items: rest, stage: Stage::Over })
    } else {
        (Turn::Deleted, DialogueView { items: rest, stage: Stage::Item })
    }
}

/// The dialogue of the plain edition.
#[derive(Debug)]
pub struct Dialogue {
    items: Vec<ScanItem>,
    stage: Stage,
}

impl View for Dialogue {
    type V = DialogueView;

    closed spec fn view(&self) -> DialogueView {
        DialogueView { items: item_views(self.items@), stage: self.stage }
    }
}

impl Dialogue {
    /// What every dialogue keeps to.
    pub open spec fn wf(&self) -> bool {
        is_sound(self@)
    }

    /// A dialogue about these items.
    pub fn new(items: Vec<ScanItem>) -> (out: Dialogue)
        ensures
            out.wf(),
            out@ == (DialogueView { items: item_views(items@), stage: Stage::Item }),
    {
        Dialogue { items, stage: Stage::Item }
    }

    /// The items that are left.
    pub fn items(&self) -> (out: &Vec<ScanItem>)
        ensures
            item_views(out@) == self@.items,
    {
        &self.items
    }

    /// What the dialogue waits for.
    pub fn stage(&self) -> (out: Stage)
        ensures
            out == self@.stage,
    {
        self.stage
    }

    /// Takes a line that was typed. The result says what is to be done
    /// outside.
    pub fn answer(&mut self, line: &str) -> (out: Turn)
        requires
            old(self).wf(),
            awaits_answer(old(self)@),
        ensures
            final(self).wf(),
            final(self)@.items == old(self)@.items,
            (out, final(self)@.stage) == answered(old(self)@, trimmed(line@)),
    {
        let answer = prompt(line);
        assert(self@.items.len() == self.items@.len());
        match self.stage {
            Stage::Item => match choose_item(answer.as_str(), self.items.len()) {
                Choice::Quit => {
                    self.stage = Stage::Over;
                    Turn::Quit
                },
                Choice::Item(i) => {
                    self.stage = Stage::Action(i);
                    Turn::ShowItem(i)
                },
                Choice::Invalid => Turn::Invalid,
            },
            Stage::Action(i) => match choose_action(answer.as_str()) {
                ItemAction::Reveal => {
                    self.stage = Stage::Item;
                    Turn::Reveal(i)
                },
                ItemAction::Delete => {
                    self.stage = Stage::Confirm(i);
                    Turn::Warn(i)
                },
                ItemAction::Back => {
                    self.stage = Stage::Item;
                    Turn::ShowList
                },
            },
            Stage::Confirm(i) => if confirms(answer.as_str()) {
                self.stage = Stage::Outcome(i);
                Turn::Delete(i)
            } else {
                self.stage = Stage::Item;
                Turn::Cancelled
            },
            _ => Turn::ShowList,
        }
    }

    /// Takes the outcome of a deletion. The result says what is to be done
    /// outside.
    pub fn settle(&mut self, deleted: bool) -> (out: Turn)
        requires
            old(self).wf(),
            old(self)@.stage is Outcome,
        ensures
            final(self).wf(),
            (out, final(self)@) == settled(old(self)@, deleted),
    {
        let ghost all = self@.items;
        assert(all.len() == self.items@.len());
        match self.stage {
            Stage::Outcome(i) => {
                if !deleted {
                    self.stage = Stage::Item;
                    return Turn::Failed;
                }
                let _ = self.items.remove(i);
                assert(item_views(self.items@) =~= all.remove(i as int));
                if self.items.len() == 0 {
                    self.stage = Stage::Over;
                    Turn::NoneLeft
                } else {
                    self.stage = Stage::Item;
                    Turn::Deleted
                }
            },
            _ => Turn::ShowList,
        }
    }
}

/// An item is deleted only after its number, the letter and the exact word
/// have been given in turn.
pub proof fn deleting_takes_three_answers(
    items: Seq<ItemView>,
    number: Seq<char>,
    letter: Seq<char>,
    word: Seq<char>,
    i: usize,
)
    ensures
        ({
            let start = DialogueView { items, stage: Stage::Item };
            let (turn1, stage1) = answered(start, number);
            let (turn2, stage2) = answered(DialogueView { items, stage: stage1 }, letter);
            let (turn3, stage3) = answered(DialogueView { items, stage: stage2 }, word);
            &&& turn1 !is Delete
            &&& turn2 !is Delete
            &&& turn3 == Turn::Delete(i) <==> {
                &&& choice_of(number, items.len()) == Choice::Item(i)
                &&& item_action_of(letter) == ItemAction::Delete
                &&& word == DELETE_WORD@
            }
        }),
{
}

/// The depth option in words.
pub open spec fn depth_text(depth: nat) -> Seq<char> {
    if depth == 0 {
        "unlimited"@
    } else {
        decimal(depth)
    }
}

/// The notice that a folder is about to be scanned, its path given as text.
pub open spec fn scanning_text(edition: Edition, path: Seq<char>, depth: nat) -> Seq<char> {
    styled(CYAN@, "⟳"@) + " Scanning "@ + (if edition == Edition::List {
        styled(BOLD@, path)
    } else {
        path
    }) + " (depth "@ + depth_text(depth) + ")…"@
}

/// The notice that a folder is about to be scanned, its path given as text.
pub fn scanning_notice(edition: Edition, path: &str, depth: usize) -> (out: String)
    ensures
        out@ == scanning_text(edition, path@, depth as nat),
{
    let mut out = paint(CYAN, "⟳");
    out.append(" Scanning ");
    if matches!(edition, Edition::List) {
        out.append(paint(BOLD, path).as_str());
    } else {
        out.append(path);
    }
    out.append(" (depth ");
    if depth == 0 {
        out.append("unlimited");
    } else {
        out.append(decimal_text(depth as u64).as_str());
    }
    out.append(")…");
    assert(out@ =~= scanning_text(edition, path@, depth as nat));
    out
}

/// The notice that a path does not exist, the path given as text.
pub fn not_found_notice(path: &str) -> (out: String)
    ensures
        out@ == styled(RED@, "✗"@) + " Path not found: "@ + path@,
{
    let mut out = paint(RED, "✗");
    out.append(" Path not found: ");
    out.append(path);
    out
}

/// The notice of how many entries have been counted.
pub open spec fn progress_text(edition: Edition, count: nat) -> Seq<char> {
    "\r"@ + styled(CYAN@, "⟳"@) + "  "@ + (if edition == Edition::List {
        "Scanned "@ + decimal(count) + " entries…"@
    } else {
        decimal(count) + " entries scanned"@
    }) + "\x1b[K"@
}

/// The notice of how many entries have been counted.
pub fn progress_notice(edition: Edition, count: u64) -> (out: String)
    ensures
        out@ == progress_text(edition, count as nat),
{
    let mut out = String::new();
    out.append("\r");
    out.append(paint(CYAN, "⟳").as_str());
    out.append("  ");
    if matches!(edition, Edition::List) {
        out.append("Scanned ");
        out.append(decimal_text(count).as_str());
        out.append(" entries…");
    } else {
        out.append(decimal_text(count).as_str());
        out.append(" entries scanned");
    }
    out.append("\x1b[K");
    assert(out@ =~= progress_text(edition, count as nat));
    out
}

/// A row of the list, the path of its item given as text.
pub open spec fn item_row(number: nat, item: ItemView, path: Seq<char>) -> Seq<char> {
    "  "@ + styled(BOLD@, right_aligned(decimal(number), 2)) + "  "@ + icon_text(
        item.is_dir,
        false,
    ) + "  "@ + right_aligned(styled(YELLOW@, human_text(item.size)), 12) + "  "@ + path + "\n"@
}

/// The first `n` rows of the list, the paths of the items given as text.
pub open spec fn item_rows(items: Seq<ItemView>, paths: Seq<Seq<char>>, n: nat) -> Seq<char>
    decreases n,
{
    if n == 0 {
        Seq::empty()
    } else {
        item_rows(items, paths, (n - 1) as nat) + item_row(n, items[n - 1], paths[n - 1])
    }
}

/// The whole list, the root and the paths of the items given as text.
pub open spec fn list_text(
    root: Seq<char>,
    items: Seq<ItemView>,
    paths: Seq<Seq<char>>,
) -> Seq<char> {
    "\n"@ + styled(GREEN@, "◉"@) + " Top "@ + decimal(items.len()) + " items under "@ + styled(
        BOLD@,
        root,
    ) + "\n\n"@ + item_rows(items, paths, items.len()) + "\n  "@ + styled(DIM@, " 0"@)
        + "  Quit\n\n"@
}

/// A row of the list, the path of its item given as text.
fn row_of(number: usize, item: &ScanItem, path: &str) -> (out: String)
    ensures
        out@ == item_row(number as nat, item@, path@),
{
    let mut out = String::new();
    out.append("  ");
    let digits = align_right(decimal_text(number as u64).as_str(), 2);
    out.append(paint(BOLD, digits.as_str()).as_str());
    out.append("  ");
    out.append(icon(item.is_dir, false));
    out.append("  ");
    let size = paint(YELLOW, human(item.size).as_str());
    out.append(align_right(size.as_str(), 12).as_str());
    out.append("  ");
    out.append(path);
    out.append("\n");
    assert(out@ =~= item_row(number as nat, item@, path@));
    out
}

/// The whole list, the root and the paths of the items given as text.
pub fn list_named(root: &str, items: &Vec<ScanItem>, paths: &Vec<String>) -> (out: String)
    requires
        paths@.len() == items@.len(),
    ensures
        out@ == list_text(root@, item_views(items@), string_views(paths@)),
{
    let ghost all = item_views(items@);
    let ghost texts = string_views(paths@);
    let n = items.len();
    let mut out = String::new();
    out.append("\n");
    out.append(paint(GREEN, "◉").as_str());
    out.append(" Top ");
    out.append(decimal_text(n as u64).as_str());
    out.append(" items under ");
    out.append(paint(BOLD, root).as_str());
    out.append("\n\n");
    let ghost head = out@;
    let mut i: usize = 0;
    while i < n
        invariant
            i <= n,
            n == items@.len(),
            n == paths@.len(),
            all == item_views(items@),
            texts == string_views(paths@),
            out@ =~= head + item_rows(all, texts, i as nat),
        decreases n - i,
    {
        let row = row_of(i + 1, &items[i], paths[i].as_str());
        assert(all[i as int] == items@[i as int]@);
        out.append(row.as_str());
        i += 1;
    }
    out.append("\n  ");
    out.append(paint(DIM, " 0").as_str());
    out.append("  Quit\n\n");
    assert(out@ =~= list_text(root@, all, texts));
    out
}

/// The paths of items, as text.
pub open spec fn item_paths(items: Seq<ItemView>) -> Seq<Seq<char>> {
    Seq::new(items.len(), |i: int| path_text(items[i].path))
}

/// The whole list.
pub fn list(root: &FilePath, items: &Vec<ScanItem>) -> (out: String)
    ensures
        out@ == list_text(path_text(root@), item_views(items@), item_paths(item_views(items@))),
{
    let ghost all = item_views(items@);
    let n = items.len();
    let mut paths: Vec<String> = Vec::new();
    let mut i: usize = 0;
    while i < n
        invariant
            i <= n,
            n == items@.len(),
            all == item_views(items@),
            string_views(paths@) =~= item_paths(all).take(i as int),
        decreases n - i,
    {
        let path = items[i].path.display();
        let ghost before = string_views(paths@);
        assert(all[i as int] == items@[i as int]@);
        paths.push(path);
        assert(string_views(paths@) =~= before.push(path@));
        i += 1;
    }
    assert(string_views(paths@) =~= item_paths(all));
    let root = root.display();
    list_named(root.as_str(), items, &paths)
}

/// An item and what can be done with it, its path given as text.
pub open spec fn item_text(item: ItemView, path: Seq<char>) -> Seq<char> {
    "\n  "@ + icon_text(item.is_dir, false) + " "@ + styled(BOLD@, path) + "\n  Size: "@ + styled(
        YELLOW@,
        human_text(item.size),
    ) + "\n\n  "@ + styled(BOLD@, "r"@) + "  Reveal in Finder\n  "@ + styled(BOLD@, "d"@)
        + "  Delete\n  "@ + styled(BOLD@, "b"@) + "  Back\n\n"@
}

/// An item and what can be done with it, its path given as text.
pub fn item_notice(item: &ScanItem, path: &str) -> (out: String)
    ensures
        out@ == item_text(item@, path@),
{
    let mut out = String::new();
    out.append("\n  ");
    out.append(icon(item.is_dir, false));
    out.append(" ");
    out.append(paint(BOLD, path).as_str());
    out.append("\n  Size: ");
    out.append(paint(YELLOW, human(item.size).as_str()).as_str());
    out.append("\n\n  ");
    out.append(paint(BOLD, "r").as_str());
    out.append("  Reveal in Finder\n  ");
    out.append(paint(BOLD, "d").as_str());
    out.append("  Delete\n  ");
    out.append(paint(BOLD, "b").as_str());
    out.append("  Back\n\n");
    assert(out@ =~= item_text(item@, path@));
    out
}

/// The warning before an item is deleted, its path given as text.
pub open spec fn warning_text(item: ItemView, path: Seq<char>) -> Seq<char> {
    "\n  "@ + styled(YELLOW@, "⚠"@) + " About to delete:\n  "@ + styled(BOLD@, path)
        + "\n  Size: "@ + styled(YELLOW@, human_text(item.size)) + "\n\n"@
}

/// The warning before an item is deleted, its path given as text.
pub fn warning_notice(item: &ScanItem, path: &str) -> (out: String)
    ensures
        out@ == warning_text(item@, path@),
{
    let mut out = String::new();
    out.append("\n  ");
    out.append(paint(YELLOW, "⚠").as_str());
    out.append(" About to delete:\n  ");
    out.append(paint(BOLD, path).as_str());
    out.append("\n  Size: ");
    out.append(paint(YELLOW, human(item.size).as_str()).as_str());
    out.append("\n\n");
    assert(out@ =~= warning_text(item@, path@));
    out
}

/// Whether an answer confirms that an item is to be deleted.
fn confirms(answer: &str) -> (out: bool)
    ensures
        out == (answer_of(answer@) == Answer::Delete),
{
    same_text(answer, DELETE_WORD)
}

/// The question of a stage.
pub open spec fn question_text(stage: Stage) -> Seq<char> {
    match stage {
        Stage::Item => styled(BOLD@, "▶"@) + "  Select item number: "@,
        Stage::Action(_) => styled(BOLD@, "▶"@) + "  Action [r/d/b]: "@,
        Stage::Confirm(_) => "  "@ + styled(BOLD@, "▶"@) + " Type "@ + styled(BOLD@, DELETE_WORD@)
            + " to confirm, anything else to cancel: "@,
        _ => Seq::empty(),
    }
}

/// The question of a stage.
pub fn question(stage: Stage) -> (out: String)
    ensures
        out@ == question_text(stage),
{
    let mut out = String::new();
    match stage {
        Stage::Item => {
            out.append(paint(BOLD, "▶").as_str());
            out.append("  Select item number: ");
        },
        Stage::Action(_) => {
            out.append(paint(BOLD, "▶").as_str());
            out.append("  Action [r/d/b]: ");
        },
        Stage::Confirm(_) => {
            out.append("  ");
            out.append(paint(BOLD, "▶").as_str());
            out.append(" Type ");
            out.append(paint(BOLD, DELETE_WORD).as_str());
            out.append(" to confirm, anything else to cancel: ");
        },
        _ => {},
    }
    assert(out@ =~= question_text(stage));
    out
}

/// What is said of a turn, once what it asks for has been done.
pub open spec fn remark_text(turn: Turn) -> Seq<char> {
    match turn {
        Turn::Invalid => styled(DIM@, "  (invalid choice, try again)"@) + "\n"@,
        Turn::Reveal(_) => "  "@ + styled(GREEN@, "Opened in Finder."@) + "\n"@,
        Turn::Cancelled => "  "@ + styled(DIM@, "Cancelled."@) + "\n"@,
        Turn::Deleted => "  "@ + styled(GREEN@, "✓ Deleted."@) + "\n"@,
        Turn::NoneLeft => "  "@ + styled(GREEN@, "✓ Deleted."@) + "\nNo more items.\n"@,
        _ => Seq::empty(),
    }
}

/// What is said of a turn, once what it asks for has been done.
pub fn remark(turn: Turn) -> (out: String)
    ensures
        out@ == remark_text(turn),
{
    let mut out = String::new();
    match turn {
        Turn::Invalid => {
            out.append(paint(DIM, "  (invalid choice, try again)").as_str());
            out.append("\n");
        },
        Turn::Reveal(_) => {
            out.append("  ");
            out.append(paint(GREEN, "Opened in Finder.").as_str());
            out.append("\n");
        },
        Turn::Cancelled => {
            out.append("  ");
            out.append(paint(DIM, "Cancelled.").as_str());
            out.append("\n");
        },
        Turn::Deleted => {
            out.append("  ");
            out.append(paint(GREEN, "✓ Deleted.").as_str());
            out.append("\n");
        },
        Turn::NoneLeft => {
            out.append("  ");
            out.append(paint(GREEN, "✓ Deleted.").as_str());
            out.append("\nNo more items.\n");
        },
        _ => {},
    }
    assert(out@ =~= remark_text(turn));
    out
}

/// The notice that an item could not be deleted.
pub fn error_notice(error: &str) -> (out: String)
    ensures
        out@ == "  "@ + styled(RED@, "✗ Error:"@) + " "@ + error@,
{
    let mut out = String::new();
    out.append("  ");
    out.append(paint(RED, "✗ Error:").as_str());
    out.append(" ");
    out.append(error);
    assert(out@ =~= "  "@ + styled(RED@, "✗ Error:"@) + " "@ + error@);
    out
}

/// An answer chooses the item whose number, counted from one, it is; zero
/// leaves, and anything else is invalid.
pub proof fn answers_choose_by_number(answer: Seq<char>, n: usize)
    ensures
        choice_of(answer, n as nat) matches Choice::Item(i) ==> i < n && number_in(answer) == Some(
            (i + 1) as nat,
        ),
        choice_of(answer, n as nat) == Choice::Quit <==> number_in(answer) == Some(0nat),
        choice_of(answer, n as nat) == Choice::Invalid <==> match number_in(answer) {
            Some(number) => number > n,
            None => true,
        },
{
}

/// Of the answers to the question for an action, a single `r` reveals and a
/// single `d` deletes, in either case, and nothing else does anything.
pub proof fn letters_choose_actions(answer: Seq<char>)
    ensures
        item_action_of(answer) == ItemAction::Reveal <==> answer.len() == 1 && (answer[0] == 'r'
            || answer[0] == 'R'),
        item_action_of(answer) == ItemAction::Delete <==> answer.len() == 1 && (answer[0] == 'd'
            || answer[0] == 'D'),
{
    assert(seq!['r'][0] == 'r' && seq!['R'][0] == 'R');
    assert(seq!['d'][0] == 'd' && seq!['D'][0] == 'D');
    if answer.len() == 1 {
        let c = answer[0];
        assert(answer =~= seq![c]);
    }
}

/// The dialogue goes from the number of an item to what to do with that item,
/// and from there to whether to delete that same item.
pub proof fn the_dialogue_stays_with_its_item(d: DialogueView, answer: Seq<char>, i: usize)
    requires
        d.items.len() <= usize::MAX,
        i < d.items.len(),
    ensures
        d.stage == Stage::Item && number_in(answer) == Some((i + 1) as nat) ==> answered(d, answer)
            == (Turn::ShowItem(i), Stage::Action(i)),
        d.stage == Stage::Item && number_in(answer) == Some(0nat) ==> answered(d, answer) == (
            Turn::Quit,
            Stage::Over,
        ),
        d.stage == Stage::Item && (number_in(answer) is None || number_in(answer)->0
            > d.items.len()) ==> answered(d, answer) == (Turn::Invalid, Stage::Item),
        d.stage == Stage::Action(i) && (answer == seq!['r'] || answer == seq!['R']) ==> answered(
            d,
            answer,
        ) == (Turn::Reveal(i), Stage::Item),
        d.stage == Stage::Action(i) && (answer == seq!['d'] || answer == seq!['D']) ==> answered(
            d,
            answer,
        ) == (Turn::Warn(i), Stage::Confirm(i)),
        d.stage == Stage::Action(i) && !(answer.len() == 1 && (answer[0] == 'r' || answer[0] == 'R'
            || answer[0] == 'd' || answer[0] == 'D')) ==> answered(d, answer) == (
            Turn::ShowList,
            Stage::Item,
        ),
        d.stage == Stage::Confirm(i) && answer == seq!['D', 'E', 'L', 'E', 'T', 'E'] ==> answered(
            d,
            answer,
        ) == (Turn::Delete(i), Stage::Outcome(i)),
        d.stage == Stage::Confirm(i) && answer != seq!['D', 'E', 'L', 'E', 'T', 'E'] ==> answered(
            d,
            answer,
        ) == (Turn::Cancelled, Stage::Item),
{
    letters_choose_actions(answer);
    only_six_letters_confirm(answer);
    assert(seq!['r'][0] == 'r' && seq!['R'][0] == 'R');
    assert(seq!['d'][0] == 'd' && seq!['D'][0] == 'D');
}

/// After a deletion that succeeded, the item that was deleted is gone: those
/// before it are where they were, and those behind it one place further up.
/// The dialogue goes on, unless that was the last item. After one that failed
/// all items are as before.
pub proof fn a_deleted_item_is_gone(d: DialogueView, i: usize, k: int)
    requires
        d.stage == Stage::Outcome(i),
        i < d.items.len(),
    ensures
        ({
            let (turn, new) = settled(d, true);
            &&& new.items.len() == d.items.len() - 1
            &&& 0 <= k < i ==> new.items[k] == d.items[k]
            &&& i <= k < new.items.len() ==> new.items[k] == d.items[k + 1]
            &&& d.items.len() == 1 ==> turn == Turn::NoneLeft && new.stage == Stage::Over
            &&& d.items.len() > 1 ==> turn == Turn::Deleted && new.stage == Stage::Item
        }),
        ({
            let (turn, new) = settled(d, false);
            &&& turn == Turn::Failed
            &&& new.items == d.items
            &&& new.stage == Stage::Item
        }),
{
}

/// The item that a deletion asked for by number takes out of the list is the
/// one with that number.
pub proof fn the_chosen_item_is_deleted(
    items: Seq<ItemView>,
    i: usize,
    letter: Seq<char>,
    word: Seq<char>,
)
    requires
        i < items.len() <= usize::MAX,
        letter == seq!['d'],
        word == seq!['D', 'E', 'L', 'E', 'T', 'E'],
    ensures
        ({
            let start = DialogueView { items, stage: Stage::Item };
            let (turn1, stage1) = answered(start, decimal((i + 1) as nat));
            let (turn2, stage2) = answered(DialogueView { items, stage: stage1 }, letter);
            let (turn3, stage3) = answered(DialogueView { items, stage: stage2 }, word);
            let (turn4, end) = settled(DialogueView { items, stage: stage3 }, true);
            &&& turn3 == Turn::Delete(i)
            &&& end.items == items.take(i as int) + items.skip(i + 1)
        }),
{
    let start = DialogueView { items, stage: Stage::Item };
    let d1 = DialogueView { items, stage: Stage::Action(i) };
    let d2 = DialogueView { items, stage: Stage::Confirm(i) };
    let d3 = DialogueView { items, stage: Stage::Outcome(i) };
    crate::text::written_number_reads_back((i + 1) as nat);
    the_dialogue_stays_with_its_item(start, decimal((i + 1) as nat), i);
    the_dialogue_stays_with_its_item(d1, letter, i);
    the_dialogue_stays_with_its_item(d2, word, i);
    assert(settled(d3, true).1.items =~= items.take(i as int) + items.skip(i + 1));
}

/// The parts of a row, the number apart from what stands before and behind it.
proof fn parts_of_a_row(
    gap: Seq<char>,
    style: Seq<char>,
    number: Seq<char>,
    reset: Seq<char>,
    sign: Seq<char>,
    size: Seq<char>,
    path: Seq<char>,
    end: Seq<char>,
)
    ensures
        gap + (style + number + reset) + gap + sign + gap + size + gap + path + end == (gap + style)
            + number + (reset + gap + sign + gap + size + gap + path + end),
{
    let a = gap + (style + number + reset) + gap;
    assert(a =~= (gap + style) + number + (reset + gap));
    let b = a + sign + gap + size;
    assert(b =~= (gap + style) + number + (reset + gap + sign + gap + size));
    assert(b + gap + path + end =~= (gap + style) + number + (reset + gap + sign + gap + size + gap
        + path + end));
}

/// Three texts put together are each where they are.
proof fn parts_are_where_they_are(a: Seq<char>, b: Seq<char>, c: Seq<char>)
    ensures
        ({
            let all = a + b + c;
            &&& all.len() == a.len() + b.len() + c.len()
            &&& all.take(a.len() as int) == a
            &&& all.subrange(a.len() as int, (a.len() + b.len()) as int) == b
            &&& all.skip((a.len() + b.len()) as int) == c
        }),
{
    let all = a + b + c;
    assert(all.take(a.len() as int) =~= a);
    assert(all.subrange(a.len() as int, (a.len() + b.len()) as int) =~= b);
    assert(all.skip((a.len() + b.len()) as int) =~= c);
}

/// A row of the list has the number of its item in front, which reads back,
/// then the sign, the size and the path of the item.
#[verifier::rlimit(60)]
pub proof fn rows_of_the_list_have_their_columns(
    number: nat,
    item: ItemView,
    path: Seq<char>,
) -> (end: int)
    requires
        0 < number <= usize::MAX,
    ensures
        ({
            let t = item_row(number, item, path);
            let rest = "\x1b[0m  "@ + (if item.is_dir {
                "📁"@
            } else {
                "📄"@
            }) + "  "@ + right_aligned("\x1b[33m"@ + human_text(item.size) + "\x1b[0m"@, 12) + "  "@
                + path + "\n"@;
            &&& t.take(6) == "  \x1b[1m"@
            &&& 6 <= end <= t.len()
            &&& number_in(trimmed(t.subrange(6, end))) == Some(number)
            &&& t.skip(end) == rest
        }),
{
    let t = item_row(number, item, path);
    let field = right_aligned(decimal(number), 2);
    let sign = icon_text(item.is_dir, false);
    let size = right_aligned(styled(YELLOW@, human_text(item.size)), 12);
    let head = "  \x1b[1m"@;
    let close = "\x1b[0m  "@;
    let rest = close + sign + "  "@ + size + "  "@ + path + "\n"@;
    let end = 6 + field.len();
    number_in_a_field_reads_back(number, 2);
    assert(head == "  "@ + "\x1b[1m"@ && head.len() == 6) by {
        reveal_strlit("  ");
        reveal_strlit("\x1b[1m");
        reveal_strlit("  \x1b[1m");
        assert(head =~= "  "@ + "\x1b[1m"@);
    }
    assert(close == "\x1b[0m"@ + "  "@) by {
        reveal_strlit("  ");
        reveal_strlit("\x1b[0m");
        reveal_strlit("\x1b[0m  ");
        assert(close =~= "\x1b[0m"@ + "  "@);
    }
    parts_of_a_row("  "@, BOLD@, field, "\x1b[0m"@, sign, size, path, "\n"@);
    parts_are_where_they_are(head, field, rest);
    end as int
}

/// The list has one row for each item, in their order and numbered from one,
/// with the path of that item.
pub proof fn the_list_has_a_row_for_each_item(
    root: Seq<char>,
    items: Seq<ItemView>,
    paths: Seq<Seq<char>>,
    n: nat,
)
    ensures
        item_rows(items, paths, 0) == Seq::<char>::empty(),
        item_rows(items, paths, n + 1) == item_rows(items, paths, n) + item_row(
            n + 1,
            items[n as int],
            paths[n as int],
        ),
        list_text(root, items, paths) == "\n"@ + styled(GREEN@, "◉"@) + " Top "@ + decimal(
            items.len(),
        ) + " items under "@ + styled(BOLD@, root) + "\n\n"@ + item_rows(
            items,
            paths,
            items.len(),
        ) + "\n  "@ + styled(DIM@, " 0"@) + "  Quit\n\n"@,
        item_paths(items).len() == items.len(),
        n < items.len() ==> item_paths(items)[n as int] == path_text(items[n as int].path),
{
}

/// An item and the warning before it is deleted are shown with its path and
/// its size.
#[verifier::rlimit(60)]
pub proof fn notices_tell_path_and_size(item: ItemView, path: Seq<char>)
    ensures
        ({
            let sign = if item.is_dir {
                "📁"@
            } else {
                "📄"@
            };
            let told = styled(BOLD@, path) + "\n  Size: "@ + styled(
                YELLOW@,
                human_text(item.size),
            ) + "\n\n"@;
            let head = "\n  "@ + sign + " "@ + told;
            &&& item_text(item, path).take(head.len() as int) == head
            &&& warning_text(item, path) == "\n  "@ + styled(YELLOW@, "⚠"@)
                + " About to delete:\n  "@ + told
        }),
{
    let sign = if item.is_dir {
        "📁"@
    } else {
        "📄"@
    };
    reveal_strlit("\n\n");
    reveal_strlit("\n\n  ");
    let told = styled(BOLD@, path) + "\n  Size: "@ + styled(YELLOW@, human_text(item.size))
        + "\n\n"@;
    let head = "\n  "@ + sign + " "@ + told;
    assert(item_text(item, path).take(head.len() as int) =~= head);
    assert(warning_text(item, path) =~= "\n  "@ + styled(YELLOW@, "⚠"@)
        + " About to delete:\n  "@ + told);
}

/// The depth is told as the number that it is, and zero as no limit.
pub proof fn the_depth_is_told(depth: nat)
    ensures
        depth > 0 ==> depth_text(depth) == decimal(depth),
        depth_text(0) == "unlimited"@,
{
}

/// What is reported of a scan is the number of the entries counted, and the
/// path and the depth that it goes by.
pub proof fn scans_tell_their_progress(count: nat, path: Seq<char>, depth: nat)
    ensures
        progress_text(Edition::List, count) == "\r"@ + styled(CYAN@, "⟳"@) + "  "@ + ("Scanned "@
            + decimal(count) + " entries…"@) + "\x1b[K"@,
        progress_text(Edition::Browser, count) == "\r"@ + styled(CYAN@, "⟳"@) + "  "@ + (decimal(
            count,
        ) + " entries scanned"@) + "\x1b[K"@,
        scanning_text(Edition::List, path, depth) == styled(CYAN@, "⟳"@) + " Scanning "@ + styled(
            BOLD@,
            path,
        ) + " (depth "@ + depth_text(depth) + ")…"@,
        scanning_text(Edition::Browser, path, depth) == styled(CYAN@, "⟳"@) + " Scanning "@ + path
            + " (depth "@ + depth_text(depth) + ")…"@,
{
}

/// The dialogue waits for an answer in three stages, each with a question of
/// its own, whichever item it is about.
pub proof fn three_stages_ask(d: DialogueView, i: usize)
    ensures
        awaits_answer(d) <==> match d.stage {
            Stage::Item => true,
            Stage::Action(_) => true,
            Stage::Confirm(_) => true,
            _ => false,
        },
        question_text(Stage::Item) == styled(BOLD@, "▶"@) + "  Select item number: "@,
        question_text(Stage::Action(i)) == styled(BOLD@, "▶"@) + "  Action [r/d/b]: "@,
        question_text(Stage::Confirm(i)) == "  "@ + styled(BOLD@, "▶"@) + " Type "@ + styled(
            BOLD@,
            "DELETE"@,
        ) + " to confirm, anything else to cancel: "@,
        question_text(Stage::Outcome(i)).len() == 0,
        question_text(Stage::Over).len() == 0,
{
}

/// What is said of a turn does not depend on the item: that nothing was chosen,
/// that the item was revealed or deleted, that no item is left, or that nothing
/// was deleted.
pub proof fn remarks_tell_what_was_done(i: usize)
    ensures
        remark_text(Turn::Invalid) == styled(DIM@, "  (invalid choice, try again)"@) + "\n"@,
        remark_text(Turn::Reveal(i)) == "  "@ + styled(GREEN@, "Opened in Finder."@) + "\n"@,
        remark_text(Turn::Cancelled) == "  "@ + styled(DIM@, "Cancelled."@) + "\n"@,
        remark_text(Turn::Deleted) == "  "@ + styled(GREEN@, "✓ Deleted."@) + "\n"@,
        remark_text(Turn::NoneLeft) == "  "@ + styled(GREEN@, "✓ Deleted."@)
            + "\nNo more items.\n"@,
        remark_text(Turn::ShowList).len() == 0,
        remark_text(Turn::ShowItem(i)).len() == 0,
        remark_text(Turn::Warn(i)).len() == 0,
        remark_text(Turn::Delete(i)).len() == 0,
        remark_text(Turn::Failed).len() == 0,
        remark_text(Turn::Quit).len() == 0,
{
}

} // verus!
