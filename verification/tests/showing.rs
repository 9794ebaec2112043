use mac_cleaner::browser::App;
use mac_cleaner::keys::Key;
use mac_cleaner::path::FilePath;
use mac_cleaner::rank::ScanItem;
use mac_cleaner::screen::{icon, row};
use mac_cleaner::size::human;

fn path(bytes: &[u8]) -> FilePath {
    FilePath::new(bytes.to_vec())
}

fn sample() -> App {
    let items = vec![
        ScanItem { path: path(b"/r/a"), size: 5 << 30, is_dir: true },
        ScanItem { path: path("/r/d\u{e9}j\u{e0} vu".as_bytes()), size: 1536, is_dir: false },
        ScanItem { path: path(b"/r/bad\xff"), size: 7, is_dir: false },
    ];
    let mut app = App::new(path(b"/r"), items);
    let long = "n".repeat(90);
    let children = vec![
        ScanItem { path: path(format!("/r/a/{long}").as_bytes()), size: 4 << 30, is_dir: true },
        ScanItem { path: path(b"/r/a/small"), size: 0, is_dir: false },
    ];
    app.toggle_expand(0, children);
    app
}

/// The screen put together piece by piece.
fn pieced(app: &App, w: usize, h: usize) -> String {
    let vis = h.saturating_sub(5);
    let mut out = String::from("\x1b[H\x1b[2J");
    out += &format!(
        "\x1b[32m\u{25c9}\x1b[0m Largest items under \x1b[1m{}\x1b[0m\n\n",
        app.root().display()
    );
    let end = (app.scroll() + vis).min(app.entries().len());
    for i in app.scroll()..end {
        let e = &app.entries()[i];
        let sel = if app.is_selected(&e.path) { "\x1b[33m\u{2713}\x1b[0m" } else { " " };
        let num = if e.num > 0 { format!("{:>3}", e.num) } else { "   ".to_string() };
        let indent = "  ".repeat(e.depth);
        let icon = if e.is_dir {
            if e.expanded { "\u{1f4c2}" } else { "\u{1f4c1}" }
        } else {
            "\u{1f4c4}"
        };
        let sz = format!("{:>10}", human(e.size));
        let raw = e.path.display_name();
        let left = 1 + 1 + 3 + 2 + e.depth * 2 + 4 + 2 + sz.len() + 2;
        let max_name = w.saturating_sub(left).max(8);
        let name = if raw.chars().count() > max_name {
            format!("{}\u{2026}", raw.chars().take(max_name - 1).collect::<String>())
        } else {
            raw
        };
        let line = format!("{sel} {num}  {indent}{icon}  {sz}  {name}");
        let padded = format!("{:<width$}", line, width = w.min(300));
        if i == app.cursor() {
            out += &format!("\x1b[7m{padded}\x1b[0m\n");
        } else {
            out += &format!("{padded}\n");
        }
    }
    for _ in end..app.scroll() + vis {
        out.push('\n');
    }
    let dim = |text: &str| format!("\x1b[2m{text}\x1b[0m");
    out += &format!("{}\n", dim(&"\u{2500}".repeat(w.min(100))));
    match app.input() {
        Some(typed) => {
            out += &format!(
                "  \x1b[1mSelect:\x1b[0m \x1b[33m{typed}\x1b[0m\u{2588}  {}\n",
                dim("comma-separated numbers \u{b7} Enter=confirm \u{b7} Esc=cancel")
            );
        }
        None => {
            let info = if app.nothing_selected() {
                String::new()
            } else {
                format!("\x1b[33m{} \u{2713} selected\x1b[0m  ", app.selected_len())
            };
            out += &format!(
                "  {info}{}  {}  {}  {}  {}  {}\n",
                dim("\u{2191}\u{2193} move"),
                dim("Space expand"),
                dim("s select cursor"),
                dim("1,2,\u{2026} multi-select"),
                dim("Enter action"),
                dim("q quit")
            );
        }
    }
    out
}

#[test]
fn the_screen_is_put_together_from_its_lines() {
    let app = sample();
    for (w, h) in [(80, 24), (20, 8), (0, 0), (0, 6), (400, 10), (100, 5), (101, 7)] {
        assert_eq!(app.render(w, h), pieced(&app, w, h), "{w}x{h}");
    }
}

#[test]
fn the_screen_shows_selection_cursor_and_scroll() {
    let mut app = sample();
    app.press(Key::Down, 8);
    app.press(Key::Char('s'), 8);
    for _ in 0..3 {
        app.press(Key::Down, 8);
    }
    app.press(Key::Char('s'), 8);
    app.ensure_cursor_visible(8);
    assert_eq!(app.scroll(), 2);
    assert_eq!(app.render(80, 8), pieced(&app, 80, 8));
    assert!(app.render(80, 8).contains("2 \u{2713} selected"));
}

#[test]
fn the_screen_shows_what_is_typed() {
    let mut app = sample();
    app.press(Key::Char('1'), 24);
    app.press(Key::Char(','), 24);
    assert_eq!(app.render(80, 24), pieced(&app, 80, 24));
    assert!(app.render(80, 24).contains("Select:\x1b[0m \x1b[33m1,\x1b[0m\u{2588}"));
}

#[test]
fn a_screen_without_lines_is_empty_rows() {
    let app = App::new(path(b"/r"), vec![]);
    assert_eq!(app.render(80, 10), pieced(&app, 80, 10));
}

#[test]
fn a_row_has_its_columns() {
    let app = sample();
    let e = &app.entries()[0];
    assert_eq!(
        row(e, "a", false, false, 30),
        "    1  \u{1f4c2}     5.0 GiB  a       \n"
    );
    assert_eq!(
        row(e, "a", true, true, 0),
        "\x1b[7m\x1b[33m\u{2713}\x1b[0m   1  \u{1f4c2}     5.0 GiB  a\x1b[0m\n"
    );
}

#[test]
fn long_names_are_cut() {
    let app = sample();
    let e = &app.entries()[0];
    assert!(row(e, "12345678", false, false, 10).contains("  12345678\n"));
    assert!(row(e, "123456789", false, false, 10).contains("  1234567\u{2026}\n"));
}

#[test]
fn bytes_that_are_no_text_are_replaced() {
    let bad = path(b"/r/bad\xff\xfename");
    assert_eq!(bad.display(), "/r/bad\u{fffd}\u{fffd}name");
    assert_eq!(bad.display_name(), "bad\u{fffd}\u{fffd}name");
    assert_eq!(bad.display(), String::from_utf8_lossy(b"/r/bad\xff\xfename"));
}

#[test]
fn a_path_without_a_name_is_shown_in_full() {
    assert_eq!(path(b"/").display_name(), "/");
    assert_eq!(path(b"a/..").display_name(), "a/..");
    assert_eq!(path(b"/x/y/").display_name(), "y");
    assert_eq!(path("/\u{fc}ber".as_bytes()).display(), "/\u{fc}ber");
}

#[test]
fn folders_and_files_have_signs() {
    assert_eq!(icon(true, false), "\u{1f4c1}");
    assert_eq!(icon(true, true), "\u{1f4c2}");
    assert_eq!(icon(false, false), "\u{1f4c4}");
    assert_eq!(icon(false, true), "\u{1f4c4}");
}
