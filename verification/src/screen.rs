//! What the browser shows.
use crate::browser::{
    input_applied, is_sound, line_views, number_list, numbers_of, top_lines_have_numbers,
    typed_numbers_select_their_lines, visible_rows, App, AppView, Entry,
};
use crate::outline::LineView;
use crate::path::{components, final_name, FilePath};
use crate::size::{human, human_text};
use crate::text::{
    align_left, align_right, decimal, decimal_text, left_aligned, left_end_of_a_field, number_in,
    number_in_a_field_reads_back, paint, push_repeated, repeated, right_aligned,
    right_end_of_a_field, styled, trimmed, BOLD, DIM, GREEN, REVERSE, YELLOW,
};
use vstd::prelude::*;
use vstd::utf8::{decode_utf8, valid_utf8};

verus! {

/// The text that `String::from_utf8_lossy` makes of bytes.
pub uninterp spec fn lossy_text(bytes: Seq<u8>) -> Seq<char>;

/// Calls `String::from_utf8_lossy`, whose result depends on the bytes alone
/// and, where they are valid UTF-8, is the text that they encode.
#[verifier::external_body]
fn lossy(bytes: &[u8]) -> (out: String)
    ensures
        out@ == lossy_text(bytes@),
        valid_utf8(bytes@) ==> out@ == decode_utf8(bytes@),
{
    String::from_utf8_lossy(bytes).into_owned()
}

/// Bytes as they are shown: the text that they encode where they are valid
/// UTF-8, and otherwise that text with replacements.
pub open spec fn shown_text(bytes: Seq<u8>) -> Seq<char> {
    if valid_utf8(bytes) {
        decode_utf8(bytes)
    } else {
        lossy_text(bytes)
    }
}

/// A path in full.
pub open spec fn path_text(path: Seq<u8>) -> Seq<char> {
    shown_text(path)
}

/// The name that a path ends in, or the path in full if it ends in none.
pub open spec fn name_text(path: Seq<u8>) -> Seq<char> {
    match final_name(path) {
        Some(name) => shown_text(name),
        None => shown_text(path),
    }
}

impl FilePath {
    /// The path in full, as text.
    pub fn display(&self) -> (out: String)
        ensures
            out@ == path_text(self@),
    {
        lossy(self.as_bytes())
    }

    /// The name that the path ends in, or the path in full if it ends in
    /// none, as text.
    pub fn display_name(&self) -> (out: String)
        ensures
            out@ == name_text(self@),
    {
        match self.file_name() {
            Some(name) => lossy(name.as_slice()),
            None => lossy(self.as_bytes()),
        }
    }
}

/// The sign of an item.
pub open spec fn icon_text(is_dir: bool, expanded: bool) -> Seq<char> {
    if is_dir {
        if expanded {
            "📂"@
        } else {
            "📁"@
        }
    } else {
        "📄"@
    }
}

/// The sign of an item.
pub fn icon(is_dir: bool, expanded: bool) -> (out: &'static str)
    ensures
        out@ == icon_text(is_dir, expanded),
{
    if is_dir {
        if expanded {
            "📂"
        } else {
            "📁"
        }
    } else {
        "📄"
    }
}

/// The columns left for a name: what the rest of the line leaves of the
/// width, and at least eight.
pub open spec fn name_width(width: nat, depth: nat, size_width: nat) -> nat {
    let taken = 1 + 1 + 3 + 2 + depth * 2 + 4 + 2 + size_width + 2;
    if width >= taken + 8 {
        (width - taken) as nat
    } else {
        8
    }
}

/// A name that is cut, and ends in an ellipsis, where it is too long.
pub open spec fn shortened(name: Seq<char>, width: nat) -> Seq<char> {
    if name.len() > width {
        name.take(width - 1).push('…')
    } else {
        name
    }
}

/// A line, its name given, before it is filled up to the width.
pub open spec fn line_body(line: LineView, name: Seq<char>, selected: bool, width: nat) -> Seq<
    char,
> {
    let mark = if selected {
        styled(YELLOW@, "✓"@)
    } else {
        " "@
    };
    let num = if line.num > 0 {
        right_aligned(decimal(line.num), 3)
    } else {
        "   "@
    };
    let size = right_aligned(human_text(line.size), 10);
    mark + " "@ + num + "  "@ + repeated(' ', line.depth * 2) + icon_text(
        line.is_dir,
        line.expanded,
    ) + "  "@ + size + "  "@ + shortened(name, name_width(width, line.depth, size.len()))
}

/// A row of the screen: a line filled up to the width, but for very wide
/// screens, and reversed where the cursor is.
pub open spec fn row_text(
    line: LineView,
    name: Seq<char>,
    selected: bool,
    at_cursor: bool,
    width: nat,
) -> Seq<char> {
    let filled = left_aligned(
        line_body(line, name, selected, width),
        if width < 300 {
            width
        } else {
            300
        },
    );
    (if at_cursor {
        styled(REVERSE@, filled)
    } else {
        filled
    }).push('\n')
}

/// A name that is cut, and ends in an ellipsis, where it is too long.
fn shorten(name: &str, width: usize) -> (out: String)
    requires
        width > 0,
    ensures
        out@ == shortened(name@, width as nat),
{
    let n = name.unicode_len();
    if n > width {
        let mut out = name.substring_char(0, width - 1).to_owned();
        out.push('…');
        assert(out@ =~= shortened(name@, width as nat));
        out
    } else {
        name.to_owned()
    }
}

/// A row of the screen, the name of its line given.
pub fn row(entry: &Entry, name: &str, selected: bool, at_cursor: bool, w: usize) -> (out: String)
    ensures
        out@ == row_text(entry@, name@, selected, at_cursor, w as nat),
{
    let mut line = String::new();
    if selected {
        line.append(paint(YELLOW, "✓").as_str());
    } else {
        line.append(" ");
    }
    line.append(" ");
    if entry.num > 0 {
        line.append(align_right(decimal_text(entry.num as u64).as_str(), 3).as_str());
    } else {
        line.append("   ");
    }
    line.append("  ");
    push_repeated(&mut line, ' ', entry.depth);
    push_repeated(&mut line, ' ', entry.depth);
    line.append(icon(entry.is_dir, entry.expanded));
    line.append("  ");
    let size = align_right(human(entry.size).as_str(), 10);
    line.append(size.as_str());
    line.append("  ");
    let size_width = size.as_str().unicode_len();
    let room = w.saturating_sub(15).saturating_sub(size_width).saturating_sub(
        entry.depth,
    ).saturating_sub(entry.depth);
    let width = if room > 8 {
        room
    } else {
        8
    };
    line.append(shorten(name, width).as_str());
    proof {
        assert(repeated(' ', entry@.depth) + repeated(' ', entry@.depth) =~= repeated(
            ' ',
            entry@.depth * 2,
        ));
        assert(width == name_width(w as nat, entry@.depth, size@.len()));
        assert(line@ =~= line_body(entry@, name@, selected, w as nat));
    }
    let wide = if w < 300 {
        w
    } else {
        300
    };
    let mut out = align_left(line.as_str(), wide);
    if at_cursor {
        out = paint(REVERSE, out.as_str());
    }
    out.push('\n');
    out
}

/// Behind the last line on a screen of so many rows.
pub open spec fn shown_end(v: AppView, rows: nat) -> nat {
    let end = v.scroll + visible_rows(rows);
    if end < v.lines.len() {
        end
    } else {
        v.lines.len()
    }
}

/// How many lines a screen of so many rows shows.
pub open spec fn shown_len(v: AppView, rows: nat) -> nat {
    if v.scroll < shown_end(v, rows) {
        (shown_end(v, rows) - v.scroll) as nat
    } else {
        0
    }
}

/// The first `n` rows shown, the names of their lines given.
pub open spec fn rows_text(v: AppView, names: Seq<Seq<char>>, width: nat, n: nat) -> Seq<char>
    decreases n,
{
    if n == 0 {
        Seq::empty()
    } else {
        let i = v.scroll + n - 1;
        let line = v.lines[i as int];
        rows_text(v, names, width, (n - 1) as nat) + row_text(
            line,
            names[n - 1],
            v.selected.contains(components(line.path)),
            i == v.cursor,
            width,
        )
    }
}

/// The last row: the list being typed, or what the keys do.
pub open spec fn footer_text(v: AppView) -> Seq<char> {
    match v.input {
        Some(typed) => "  "@ + styled(BOLD@, "Select:"@) + " "@ + styled(YELLOW@, typed) + "█  "@
            + styled(DIM@, "comma-separated numbers · Enter=confirm · Esc=cancel"@) + "\n"@,
        None => "  "@ + (if v.selected == Set::<Seq<Seq<u8>>>::empty() {
            Seq::empty()
        } else {
            styled(YELLOW@, decimal(v.selected.len()) + " ✓ selected"@) + "  "@
        }) + styled(DIM@, "↑↓ move"@) + "  "@ + styled(DIM@, "Space expand"@) + "  "@ + styled(
            DIM@,
            "s select cursor"@,
        ) + "  "@ + styled(DIM@, "1,2,… multi-select"@) + "  "@ + styled(DIM@, "Enter action"@)
            + "  "@ + styled(DIM@, "q quit"@) + "\n"@,
    }
}

/// The whole screen, the names of the lines shown and the root given as text.
pub open spec fn screen_text(
    v: AppView,
    root: Seq<char>,
    names: Seq<Seq<char>>,
    width: nat,
    rows: nat,
) -> Seq<char> {
    "\x1b[H\x1b[2J"@ + styled(GREEN@, "◉"@) + " Largest items under "@ + styled(BOLD@, root)
        + "\n\n"@ + rows_text(v, names, width, shown_len(v, rows)) + repeated(
        '\n',
        (v.scroll + visible_rows(rows) - shown_end(v, rows)) as nat,
    ) + styled(
        DIM@,
        repeated(
            '─',
            if width < 100 {
                width
            } else {
                100
            },
        ),
    ) + "\n"@ + footer_text(v)
}

/// The names of the lines that are shown.
pub open spec fn shown_names(v: AppView, rows: nat) -> Seq<Seq<char>> {
    Seq::new(shown_len(v, rows), |i: int| name_text(v.lines[v.scroll + i].path))
}

/// What a list of strings says.
pub open spec fn string_views(strings: Seq<String>) -> Seq<Seq<char>> {
    Seq::new(strings.len(), |i: int| strings[i]@)
}

impl App {
    /// How many lines a screen of `h` rows shows.
    fn shown(&self, h: usize) -> (out: usize)
        ensures
            out == shown_len(self@, h as nat),
    {
        let n = self.entries().len();
        let vis = self.vis_rows(h);
        let scroll = self.scroll();
        assert(n == self@.lines.len());
        if scroll >= n {
            0
        } else if vis < n - scroll {
            vis
        } else {
            n - scroll
        }
    }

    /// The last row of the screen.
    fn footer(&self) -> (out: String)
        requires
            self.wf(),
        ensures
            out@ == footer_text(self@),
    {
        let mut out = String::new();
        out.append("  ");
        match self.input() {
            Some(typed) => {
                out.append(paint(BOLD, "Select:").as_str());
                out.append(" ");
                out.append(paint(YELLOW, typed.as_str()).as_str());
                out.append("█  ");
                out.append(
                    paint(
                        DIM,
                        "comma-separated numbers · Enter=confirm · Esc=cancel",
                    ).as_str(),
                );
                out.append("\n");
                assert(out@ =~= footer_text(self@));
            },
            None => {
                if !self.nothing_selected() {
                    let mut count = decimal_text(self.selected_len() as u64);
                    count.append(" ✓ selected");
                    out.append(paint(YELLOW, count.as_str()).as_str());
                    out.append("  ");
                }
                out.append(paint(DIM, "↑↓ move").as_str());
                out.append("  ");
                out.append(paint(DIM, "Space expand").as_str());
                out.append("  ");
                out.append(paint(DIM, "s select cursor").as_str());
                out.append("  ");
                out.append(paint(DIM, "1,2,… multi-select").as_str());
                out.append("  ");
                out.append(paint(DIM, "Enter action").as_str());
                out.append("  ");
                out.append(paint(DIM, "q quit").as_str());
                out.append("\n");
                assert(out@ =~= footer_text(self@));
            },
        }
        out
    }

    /// The whole screen, of `w` columns and `h` rows, the root and the names
    /// of the lines shown given as text.
    pub fn render_named(
        &self,
        root: &str,
        names: &Vec<String>,
        w: usize,
        h: usize,
    ) -> (out: String)
        requires
            self.wf(),
            self@.scroll + visible_rows(h as nat) <= usize::MAX,
            names@.len() == shown_len(self@, h as nat),
        ensures
            out@ == screen_text(self@, root@, string_views(names@), w as nat, h as nat),
    {
        let vis = self.vis_rows(h);
        let scroll = self.scroll();
        let cursor = self.cursor();
        let shown = self.shown(h);
        let entries = self.entries();
        let ghost v = self@;
        let ghost texts = string_views(names@);
        let mut out = String::new();
        out.append("\x1b[H\x1b[2J");
        out.append(paint(GREEN, "◉").as_str());
        out.append(" Largest items under ");
        out.append(paint(BOLD, root).as_str());
        out.append("\n\n");
        let ghost head = out@;
        let n = entries.len();
        assert(n == v.lines.len());
        let mut i: usize = 0;
        while i < shown
            invariant
                i <= shown,
                n == v.lines.len(),
                shown == names@.len(),
                shown == shown_len(v, h as nat),
                v == self@,
                texts == string_views(names@),
                line_views(entries@) == v.lines,
                scroll == v.scroll,
                cursor == v.cursor,
                out@ =~= head + rows_text(v, texts, w as nat, i as nat),
            decreases shown - i,
        {
            let at = scroll + i;
            let e = &entries[at];
            assert(e@ == v.lines[at as int]);
            let text = row(e, names[i].as_str(), self.is_selected(&e.path), at == cursor, w);
            out.append(text.as_str());
            i += 1;
        }
        let last = scroll + vis;
        let end = if last < n {
            last
        } else {
            n
        };
        push_repeated(&mut out, '\n', last - end);
        let mut rule = String::new();
        push_repeated(
            &mut rule,
            '─',
            if w < 100 {
                w
            } else {
                100
            },
        );
        out.append(paint(DIM, rule.as_str()).as_str());
        out.append("\n");
        out.append(self.footer().as_str());
        proof {
            let width: nat = if w < 100 {
                w as nat
            } else {
                100
            };
            assert(rule@ =~= repeated('─', width));
            assert(out@ =~= screen_text(v, root@, texts, w as nat, h as nat));
        }
        out
    }

    /// The whole screen, of `w` columns and `h` rows.
    pub fn render(&self, w: usize, h: usize) -> (out: String)
        requires
            self.wf(),
            self@.scroll + visible_rows(h as nat) <= usize::MAX,
        ensures
            out@ == screen_text(
                self@,
                path_text(self@.root),
                shown_names(self@, h as nat),
                w as nat,
                h as nat,
            ),
    {
        let shown = self.shown(h);
        let scroll = self.scroll();
        let entries = self.entries();
        let n = entries.len();
        assert(n == self@.lines.len());
        let mut names: Vec<String> = Vec::new();
        let mut i: usize = 0;
        while i < shown
            invariant
                i <= shown,
                n == self@.lines.len(),
                shown == shown_len(self@, h as nat),
                scroll == self@.scroll,
                line_views(entries@) == self@.lines,
                string_views(names@) =~= shown_names(self@, h as nat).take(i as int),
            decreases shown - i,
        {
            let e = &entries[scroll + i];
            assert(e@ == self@.lines[scroll + i]);
            let ghost before = string_views(names@);
            let name = e.path.display_name();
            names.push(name);
            assert(string_views(names@) =~= before.push(name@));
            i += 1;
        }
        assert(string_views(names@) =~= shown_names(self@, h as nat));
        let root = self.root().display();
        self.render_named(root.as_str(), &names, w, h)
    }
}

/// A name that fits is shown whole; one that does not is cut so that with the
/// ellipsis behind what is left it just fits.
pub proof fn names_are_cut_to_fit(name: Seq<char>, width: nat)
    requires
        width > 0,
    ensures
        name.len() <= width ==> shortened(name, width) == name,
        name.len() > width ==> {
            &&& shortened(name, width).len() == width
            &&& forall|k: int| 0 <= k < width - 1 ==> #[trigger] shortened(name, width)[k] == name[k]
            &&& shortened(name, width)[width - 1] == '…'
        },
{
}

/// The sign of an item tells folders from the rest, and expanded ones from
/// those that are not.
pub proof fn signs_tell_folders(is_dir: bool, expanded: bool)
    ensures
        icon_text(is_dir, expanded) == if !is_dir {
            seq!['📄']
        } else if expanded {
            seq!['📂']
        } else {
            seq!['📁']
        },
{
    reveal_strlit("📄");
    reveal_strlit("📂");
    reveal_strlit("📁");
    assert(icon_text(is_dir, expanded) =~= if !is_dir {
        seq!['📄']
    } else if expanded {
        seq!['📂']
    } else {
        seq!['📁']
    });
}

/// How wide the number of a line is shown: three columns, or more where it has
/// more digits.
pub open spec fn number_width(line: LineView) -> int {
    if line.num > 0 && decimal(line.num).len() > 3 {
        decimal(line.num).len() as int
    } else {
        3
    }
}

/// The column in which the number of a line begins: behind the mark, which is
/// one column, or ten with its style, and a blank.
pub open spec fn number_column(selected: bool) -> int {
    if selected {
        11
    } else {
        2
    }
}

/// How wide the size of a line is shown: ten columns, or more where it is
/// longer.
pub open spec fn size_width(line: LineView) -> int {
    if human_text(line.size).len() > 10 {
        human_text(line.size).len() as int
    } else {
        10
    }
}

/// A line has its columns in this order: the mark, the number, the indent of
/// two blanks for each level, the sign, the size and the name, with blanks
/// between them.
#[verifier::rlimit(60)]
pub proof fn line_has_its_columns(line: LineView, name: Seq<char>, selected: bool, width: nat)
    ensures
        ({
            let t = line_body(line, name, selected, width);
            let a = number_column(selected);
            let b = a + number_width(line);
            let c = b + 2 + 2 * line.depth;
            let d = c + 3;
            let e = d + size_width(line);
            let taken = 15 + 2 * line.depth + size_width(line);
            &&& t.len() >= e + 2
            &&& !selected ==> t.take(2) == seq![' ', ' ']
            &&& selected ==> t.take(11) == styled(YELLOW@, "✓"@).push(' ')
            &&& line.num > 0 ==> t.subrange(a, b) == right_aligned(decimal(line.num), 3)
            &&& line.num == 0 ==> t.subrange(a, b) == seq![' ', ' ', ' ']
            &&& forall|k: int| b <= k < c ==> #[trigger] t[k] == ' '
            &&& t.subrange(c, c + 1) == icon_text(line.is_dir, line.expanded)
            &&& t[c + 1] == ' ' && t[c + 2] == ' '
            &&& t.subrange(d, e) == right_aligned(human_text(line.size), 10)
            &&& t[e] == ' ' && t[e + 1] == ' '
            &&& t.skip(e + 2) == shortened(
                name,
                if width >= taken + 8 {
                    (width - taken) as nat
                } else {
                    8
                },
            )
        }),
{
    reveal_strlit(" ");
    reveal_strlit("  ");
    reveal_strlit("   ");
    reveal_strlit("✓");
    reveal_strlit("\x1b[33m");
    reveal_strlit("\x1b[0m");
    signs_tell_folders(line.is_dir, line.expanded);
    right_end_of_a_field(decimal(line.num), 3);
    right_end_of_a_field(human_text(line.size), 10);
    let t = line_body(line, name, selected, width);
    let mark = if selected {
        styled(YELLOW@, "✓"@)
    } else {
        " "@
    };
    let num = if line.num > 0 {
        right_aligned(decimal(line.num), 3)
    } else {
        "   "@
    };
    let size = right_aligned(human_text(line.size), 10);
    let indent = repeated(' ', line.depth * 2);
    let icon = icon_text(line.is_dir, line.expanded);
    let shown = shortened(name, name_width(width, line.depth, size.len()));
    let a = number_column(selected);
    let b = a + number_width(line);
    let c = b + 2 + 2 * line.depth;
    let d = c + 3;
    let e = d + size_width(line);
    assert(t == mark + " "@ + num + "  "@ + indent + icon + "  "@ + size + "  "@ + shown);
    assert(mark.len() + 1 == a);
    assert(num.len() == number_width(line));
    assert(size.len() == size_width(line));
    assert(!selected ==> t.take(2) =~= seq![' ', ' ']);
    assert(selected ==> t.take(11) =~= styled(YELLOW@, "✓"@).push(' '));
    assert(t.subrange(a, b) =~= num);
    assert(line.num == 0 ==> num =~= seq![' ', ' ', ' ']);
    assert(t.subrange(c, c + 1) =~= icon);
    assert(t.subrange(d, e) =~= size);
    assert(t.skip(e + 2) =~= shown);
}

/// The number shown in a line reads back as the number of that line.
pub proof fn shown_number_reads_back(
    line: LineView,
    name: Seq<char>,
    selected: bool,
    width: nat,
)
    requires
        0 < line.num <= usize::MAX,
    ensures
        ({
            let t = line_body(line, name, selected, width);
            let a = number_column(selected);
            let b = a + number_width(line);
            &&& number_in(trimmed(t.subrange(a, b))) == Some(line.num)
            &&& t[b] == ' ' && t[b + 1] == ' '
        }),
{
    line_has_its_columns(line, name, selected, width);
    number_in_a_field_reads_back(line.num, 3);
}

/// Typing the number that is shown in a top-level line selects the path of
/// that very line, and nothing else.
pub proof fn typing_the_number_shown_selects_the_line(
    v: AppView,
    i: int,
    name: Seq<char>,
    selected: bool,
    width: nat,
    key: Seq<Seq<u8>>,
)
    requires
        is_sound(v),
        v.lines.len() <= usize::MAX,
        0 <= i < v.lines.len(),
        v.lines[i].depth == 0,
        v.input == Some(
            trimmed(
                line_body(v.lines[i], name, selected, width).subrange(
                    number_column(selected),
                    number_column(selected) + number_width(v.lines[i]),
                ),
            ),
        ),
    ensures
        input_applied(v).selected.contains(key) <==> key == components(v.lines[i].path),
{
    let line = v.lines[i];
    let at = seq![i];
    top_lines_have_numbers(v.lines, i);
    line_has_its_columns(line, name, selected, width);
    number_in_a_field_reads_back(line.num, 3);
    assert(numbers_of(v.lines, at) =~= seq![line.num]);
    assert(number_list(numbers_of(v.lines, at)) == decimal(line.num));
    assert(at[0] == i);
    typed_numbers_select_their_lines(v, at, key);
    if key == components(line.path) {
        assert(key == components(v.lines[at[0]].path));
    }
}

/// A row is its line, filled up with blanks to the width of the screen, but to
/// no more than three hundred columns; where the cursor is it is put between
/// the codes for reversed text.
#[verifier::rlimit(60)]
pub proof fn rows_hold_their_lines(
    line: LineView,
    name: Seq<char>,
    selected: bool,
    at_cursor: bool,
    width: nat,
)
    ensures
        ({
            let t = row_text(line, name, selected, at_cursor, width);
            let body = line_body(line, name, selected, width);
            let wide = if width < 300 {
                width as int
            } else {
                300
            };
            let len = if body.len() < wide {
                wide
            } else {
                body.len() as int
            };
            let from = if at_cursor {
                4int
            } else {
                0
            };
            &&& at_cursor ==> t.take(4) == "\x1b[7m"@ && t.skip(4 + len) == "\x1b[0m\n"@
            &&& !at_cursor ==> t.skip(len) == "\n"@
            &&& t.subrange(from, from + body.len()) == body
            &&& forall|k: int| from + body.len() <= k < from + len ==> #[trigger] t[k] == ' '
        }),
{
    reveal_strlit("\x1b[7m");
    reveal_strlit("\x1b[0m");
    reveal_strlit("\n");
    reveal_strlit("\x1b[0m\n");
    let t = row_text(line, name, selected, at_cursor, width);
    let body = line_body(line, name, selected, width);
    let wide: nat = if width < 300 {
        width
    } else {
        300
    };
    let filled = left_aligned(body, wide);
    left_end_of_a_field(body, wide);
    assert(body =~= filled.take(body.len() as int));
    let from = if at_cursor {
        4int
    } else {
        0
    };
    if at_cursor {
        assert(t =~= "\x1b[7m"@ + filled + "\x1b[0m\n"@);
        assert(t.take(4) =~= "\x1b[7m"@);
        assert(t.skip(4 + filled.len() as int) =~= "\x1b[0m\n"@);
    } else {
        assert(t =~= filled + "\n"@);
        assert(t.skip(filled.len() as int) =~= "\n"@);
    }
    assert(t.subrange(from, from + filled.len()) =~= filled);
    assert(t.subrange(from, from + body.len()) =~= body) by {
        assert forall|k: int| 0 <= k < body.len() implies t[from + k] == body[k] by {
            assert(t[from + k] == t.subrange(from, from + filled.len())[k]);
            assert(filled[k] == filled.take(body.len() as int)[k]);
        }
    }
    assert forall|k: int| from + body.len() <= k < from + filled.len() implies #[trigger] t[k]
        == ' ' by {
        assert(t[k] == t.subrange(from, from + filled.len())[k - from]);
        assert(filled[k - from] == ' ');
    }
}

/// The lines shown are those from the first on screen on, as many as the
/// screen has rows but five, or as there are; each with its own name and mark,
/// and the one under the cursor is the one reversed.
pub proof fn rows_are_those_of_the_lines_shown(
    v: AppView,
    names: Seq<Seq<char>>,
    width: nat,
    rows: nat,
    n: nat,
)
    requires
        v.scroll <= v.lines.len(),
        rows >= 5,
    ensures
        shown_len(v, rows) == if v.scroll + (rows - 5) <= v.lines.len() {
            rows - 5
        } else {
            v.lines.len() - v.scroll
        },
        rows_text(v, names, width, 0) == Seq::<char>::empty(),
        rows_text(v, names, width, n + 1) == rows_text(v, names, width, n) + row_text(
            v.lines[(v.scroll + n) as int],
            names[n as int],
            v.selected.contains(components(v.lines[(v.scroll + n) as int].path)),
            v.scroll + n == v.cursor,
            width,
        ),
{
}

/// The names shown are those of the lines shown: what their paths end in, or
/// the whole path where it ends in no name.
pub proof fn names_shown_are_those_of_the_lines(v: AppView, rows: nat, i: int)
    requires
        0 <= i < shown_len(v, rows),
    ensures
        shown_names(v, rows).len() == shown_len(v, rows),
        final_name(v.lines[v.scroll + i].path) matches Some(name) ==> shown_names(v, rows)[i]
            == shown_text(name),
        final_name(v.lines[v.scroll + i].path) is None ==> shown_names(v, rows)[i] == shown_text(
            v.lines[v.scroll + i].path,
        ),
{
}

/// A path or a name that is valid UTF-8 is shown as the text that it encodes,
/// and any other as that text with replacements.
pub proof fn paths_are_shown_as_text(bytes: Seq<u8>)
    ensures
        path_text(bytes) == shown_text(bytes),
        valid_utf8(bytes) ==> shown_text(bytes) == decode_utf8(bytes),
        !valid_utf8(bytes) ==> shown_text(bytes) == lossy_text(bytes),
{
}

/// The screen is cleared and shows the root, the rows of the lines, empty rows
/// up to as many as there are on the screen but five, a rule as wide as the
/// screen but no wider than a hundred columns, and the footer.
pub proof fn screen_has_its_parts(
    v: AppView,
    root: Seq<char>,
    names: Seq<Seq<char>>,
    width: nat,
    rows: nat,
)
    requires
        v.scroll <= v.lines.len(),
        rows >= 5,
    ensures
        screen_text(v, root, names, width, rows) == "\x1b[H\x1b[2J"@ + styled(GREEN@, "◉"@)
            + " Largest items under "@ + styled(BOLD@, root) + "\n\n"@ + rows_text(
            v,
            names,
            width,
            shown_len(v, rows),
        ) + repeated('\n', (rows - 5 - shown_len(v, rows)) as nat) + styled(
            DIM@,
            repeated(
                '─',
                if width > 100 {
                    100
                } else {
                    width
                },
            ),
        ) + "\n"@ + footer_text(v),
{
}

/// The footer shows the list that is being typed as it is; while browsing, it
/// tells how many paths are selected, if any are.
#[verifier::rlimit(60)]
pub proof fn footer_tells_the_selection(v: AppView) -> (rest: Seq<char>)
    ensures
        v.input matches Some(typed) ==> footer_text(v) == "  "@ + styled(BOLD@, "Select:"@) + " "@
            + styled(YELLOW@, typed) + rest,
        v.input is None && v.selected == Set::<Seq<Seq<u8>>>::empty() ==> footer_text(v) == "  "@
            + styled(DIM@, "↑↓ move"@) + rest,
        v.input is None && v.selected != Set::<Seq<Seq<u8>>>::empty() ==> footer_text(v) == "  "@
            + styled(YELLOW@, decimal(v.selected.len()) + " ✓ selected"@) + "  "@ + styled(
            DIM@,
            "↑↓ move"@,
        ) + rest,
{
    if v.input is Some {
        let rest = "█  "@ + styled(DIM@, "comma-separated numbers · Enter=confirm · Esc=cancel"@)
            + "\n"@;
        assert(footer_text(v) =~= "  "@ + styled(BOLD@, "Select:"@) + " "@ + styled(
            YELLOW@,
            v.input->0,
        ) + rest);
        rest
    } else {
        let rest = "  "@ + styled(DIM@, "Space expand"@) + "  "@ + styled(DIM@, "s select cursor"@)
            + "  "@ + styled(DIM@, "1,2,… multi-select"@) + "  "@ + styled(DIM@, "Enter action"@)
            + "  "@ + styled(DIM@, "q quit"@) + "\n"@;
        if v.selected == Set::<Seq<Seq<u8>>>::empty() {
            assert(footer_text(v) =~= "  "@ + styled(DIM@, "↑↓ move"@) + rest);
        } else {
            assert(footer_text(v) =~= "  "@ + styled(
                YELLOW@,
                decimal(v.selected.len()) + " ✓ selected"@,
            ) + "  "@ + styled(DIM@, "↑↓ move"@) + rest);
        }
        rest
    }
}

/// Where the list is scrolled beyond its end no line is shown, and the empty
/// rows go on from its end.
pub proof fn beyond_the_end_nothing_is_shown(
    v: AppView,
    root: Seq<char>,
    names: Seq<Seq<char>>,
    width: nat,
    rows: nat,
)
    requires
        v.scroll > v.lines.len(),
        rows >= 5,
    ensures
        shown_len(v, rows) == 0,
        screen_text(v, root, names, width, rows) == "\x1b[H\x1b[2J"@ + styled(GREEN@, "◉"@)
            + " Largest items under "@ + styled(BOLD@, root) + "\n\n"@ + Seq::<char>::empty()
            + repeated('\n', (v.scroll + (rows - 5) - v.lines.len()) as nat) + styled(
            DIM@,
            repeated(
                '─',
                if width > 100 {
                    100
                } else {
                    width
                },
            ),
        ) + "\n"@ + footer_text(v),
{
}

/// A list of strings says what it holds, one by one and in order.
pub proof fn strings_say_what_they_hold(strings: Seq<String>, i: int)
    ensures
        string_views(strings).len() == strings.len(),
        0 <= i < strings.len() ==> string_views(strings)[i] == strings[i]@,
{
}

/// Lines with different numbers show different numbers.
pub proof fn different_numbers_are_shown_differently(
    a: LineView,
    b: LineView,
    name_a: Seq<char>,
    name_b: Seq<char>,
    selected_a: bool,
    selected_b: bool,
    width: nat,
)
    requires
        0 < a.num <= usize::MAX,
        0 < b.num <= usize::MAX,
        a.num != b.num,
    ensures
        trimmed(
            line_body(a, name_a, selected_a, width).subrange(
                number_column(selected_a),
                number_column(selected_a) + number_width(a),
            ),
        ) != trimmed(
            line_body(b, name_b, selected_b, width).subrange(
                number_column(selected_b),
                number_column(selected_b) + number_width(b),
            ),
        ),
{
    shown_number_reads_back(a, name_a, selected_a, width);
    shown_number_reads_back(b, name_b, selected_b, width);
}

} // verus!
