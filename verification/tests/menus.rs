use mac_cleaner::browser::App;
use mac_cleaner::keys::{read_key, Key, Typing};
use mac_cleaner::menu::{
    cancelled_line, confirm, confirm_line, describe, describe_targets, error_line, failure,
    menu_line, scanning_line, show_action, target_paths, total_size, ActionMenu, Answer,
    MenuAction, DELETE_WORD,
};
use mac_cleaner::path::FilePath;
use mac_cleaner::rank::ScanItem;

fn path(text: &str) -> FilePath {
    FilePath::new(text.as_bytes().to_vec())
}

fn sample() -> App {
    let item = |name: &str, size: u64| ScanItem { path: path(name), size, is_dir: true };
    App::new(path("/r"), vec![item("/r/a", 3 << 20), item("/r/b", 1 << 20), item("/r/c", 1)])
}

fn select(app: &mut App, list: &str) {
    for c in list.chars() {
        app.press(Key::Char(c), 24);
    }
    app.press(Key::Enter, 24);
}

fn names(app: &App) -> Vec<String> {
    app.entries().iter().map(|e| e.path.display()).collect()
}

fn type_word(menu: &mut ActionMenu, app: &mut App, word: &str) {
    for c in word.chars() {
        assert_eq!(show_action(menu, app, Key::Char(c)), MenuAction::Echo(Typing::Added(c)));
    }
}

#[test]
fn the_word_deletes_the_selected_lines() {
    let mut app = sample();
    select(&mut app, "1,3");
    let mut menu = ActionMenu::open(&app).unwrap();
    assert_eq!(show_action(&mut menu, &mut app, Key::Char('d')), MenuAction::Ask);
    type_word(&mut menu, &mut app, "DELETE");
    assert_eq!(names(&app).len(), 3);
    assert_eq!(show_action(&mut menu, &mut app, Key::Enter), MenuAction::Delete);
    assert_eq!(names(&app), vec!["/r/b"]);
    assert_eq!(app.entries()[0].num, 1);
    assert!(app.nothing_selected());
    let gone: Vec<String> = target_paths(menu.targets()).iter().map(|p| p.display()).collect();
    assert_eq!(gone, vec!["/r/a", "/r/c"]);
}

#[test]
fn any_other_word_deletes_nothing() {
    for word in ["delete", "DELET", "DELETEE", "x", "DELETE!"] {
        let mut app = sample();
        let mut menu = ActionMenu::open(&app).unwrap();
        assert_eq!(show_action(&mut menu, &mut app, Key::Char('D')), MenuAction::Ask);
        type_word(&mut menu, &mut app, word);
        assert_eq!(show_action(&mut menu, &mut app, Key::Enter), MenuAction::Cancel);
        assert_eq!(names(&app).len(), 3);
    }
}

/// What the last of these bytes leads to, once the menu has asked.
fn answered_with(app: &mut App, bytes: &[u8]) -> MenuAction {
    let mut menu = ActionMenu::open(app).unwrap();
    let mut action = show_action(&mut menu, app, Key::Char('d'));
    assert_eq!(action, MenuAction::Ask);
    for byte in bytes {
        action = show_action(&mut menu, app, read_key(*byte, &vec![]).unwrap().0);
    }
    action
}

#[test]
fn a_space_spoils_the_word() {
    for bytes in [&b"DEL ETE\r"[..], b"DELETE \r", b" DELETE\r", b"D E L E T E\r", b" \r"] {
        let mut app = sample();
        assert_eq!(answered_with(&mut app, bytes), MenuAction::Cancel);
        assert_eq!(names(&app).len(), 3);
    }
}

#[test]
fn the_bytes_of_the_word_delete() {
    let mut app = sample();
    assert_eq!(answered_with(&mut app, b"DELETE\r"), MenuAction::Delete);
    assert_eq!(names(&app), vec!["/r/b", "/r/c"]);
    let mut app = sample();
    assert_eq!(answered_with(&mut app, b"DELETE \x7f\r"), MenuAction::Delete);
    assert_eq!(names(&app), vec!["/r/b", "/r/c"]);
}

#[test]
fn no_word_closes_the_menu() {
    let mut app = sample();
    let mut menu = ActionMenu::open(&app).unwrap();
    show_action(&mut menu, &mut app, Key::Char('d'));
    assert_eq!(show_action(&mut menu, &mut app, Key::Enter), MenuAction::Close);
    let mut menu = ActionMenu::open(&app).unwrap();
    show_action(&mut menu, &mut app, Key::Char('d'));
    type_word(&mut menu, &mut app, "DELETE");
    assert_eq!(show_action(&mut menu, &mut app, Key::Esc), MenuAction::Close);
    assert_eq!(names(&app).len(), 3);
}

#[test]
fn the_word_can_be_corrected() {
    let mut app = sample();
    let mut menu = ActionMenu::open(&app).unwrap();
    show_action(&mut menu, &mut app, Key::Char('d'));
    type_word(&mut menu, &mut app, "DELETEx");
    let back = show_action(&mut menu, &mut app, Key::Backspace);
    assert_eq!(back, MenuAction::Echo(Typing::Erased));
    let up = show_action(&mut menu, &mut app, Key::Up);
    assert_eq!(up, MenuAction::Echo(Typing::Ignored));
    assert_eq!(show_action(&mut menu, &mut app, Key::Enter), MenuAction::Delete);
    assert_eq!(names(&app), vec!["/r/b", "/r/c"]);
}

#[test]
fn keys_of_the_menu() {
    let mut app = sample();
    select(&mut app, "2");
    let mut menu = ActionMenu::open(&app).unwrap();
    for key in [Key::Char('x'), Key::Char('Q'), Key::Up, Key::Enter, Key::Space, Key::Backspace] {
        assert_eq!(show_action(&mut menu, &mut app, key), MenuAction::Show);
    }
    assert_eq!(show_action(&mut menu, &mut app, Key::Char('q')), MenuAction::Quit);
    for key in [Key::Char('b'), Key::Char('B'), Key::Esc] {
        assert_eq!(show_action(&mut menu, &mut app, key), MenuAction::Close);
    }
    assert_eq!(app.selected_len(), 1);
    assert_eq!(show_action(&mut menu, &mut app, Key::Char('r')), MenuAction::Reveal);
    assert!(app.nothing_selected());
    assert_eq!(show_action(&mut menu, &mut app, Key::Char('R')), MenuAction::Reveal);
    assert_eq!(names(&app).len(), 3);
}

#[test]
fn no_menu_opens_for_hidden_lines() {
    let mut app = sample();
    let child = ScanItem { path: path("/r/a/x"), size: 1, is_dir: false };
    app.toggle_expand(0, vec![child]);
    app.press(Key::Down, 24);
    app.press(Key::Char('s'), 24);
    app.toggle_expand(0, vec![]);
    assert!(ActionMenu::open(&app).is_none());
}

#[test]
fn the_menu_says_what_it_is_for() {
    let mut app = sample();
    app.press(Key::Down, 24);
    let one = ActionMenu::open(&app).unwrap();
    assert_eq!(describe_targets(one.targets()).as_deref(), Some("b"));
    select(&mut app, "1,2");
    let two = ActionMenu::open(&app).unwrap();
    assert_eq!(describe_targets(two.targets()).as_deref(), Some("2 items  (4.0 MiB)"));
    assert_eq!(total_size(two.targets()), Some(4 << 20));
    assert_eq!(describe(1, "name", 5), "name");
    assert_eq!(describe(12, "name", 5), "12 items  (5 B)");
}

#[test]
fn a_name_that_is_no_text_is_described_with_replacements() {
    let bad = FilePath::new(b"/r/\xff".to_vec());
    assert_eq!(describe_targets(&vec![(bad, 1)]).as_deref(), Some("\u{fffd}"));
}

#[test]
fn a_total_that_cannot_be_held_is_none() {
    let targets = vec![(path("/a"), u64::MAX), (path("/b"), 1)];
    assert_eq!(total_size(&targets), None);
    assert_eq!(describe_targets(&targets), None);
    assert_eq!(total_size(&vec![]), Some(0));
    assert_eq!(total_size(&vec![(path("/a"), u64::MAX)]), Some(u64::MAX));
}

#[test]
fn only_the_exact_word_confirms() {
    assert_eq!(DELETE_WORD, "DELETE");
    assert_eq!(confirm("DELETE"), Answer::Delete);
    assert_eq!(confirm("delete"), Answer::Cancelled);
    assert_eq!(confirm(" DELETE"), Answer::Cancelled);
    assert_eq!(confirm(""), Answer::Nothing);
}

#[test]
fn the_status_row_shows_the_menu_and_its_notices() {
    assert_eq!(
        menu_line("x", 24),
        "\x1b[23H\x1b[2K  \x1b[2m\u{25b8}\x1b[0m \x1b[33mx\x1b[0m   \x1b[1m[r] Finder\x1b[0m  \
         \x1b[1m[d] Delete\x1b[0m  \x1b[1m[b] Back\x1b[0m "
    );
    assert_eq!(
        confirm_line(24),
        "\x1b[23H\x1b[2K  \x1b[33m\u{26a0}\x1b[0m Type \x1b[1mDELETE\x1b[0m to confirm: "
    );
    assert_eq!(cancelled_line(1), "\x1b[0H\x1b[2K  \x1b[2mCancelled.\x1b[0m");
    assert_eq!(
        scanning_line(0),
        "\x1b[0H\x1b[2K  \x1b[36m\u{27f3}\x1b[0m Scanning folder\u{2026}"
    );
}

#[test]
fn failures_are_listed_with_semicolons() {
    let one = failure(&path("/r/a"), "denied");
    assert_eq!(one, "/r/a: denied");
    assert_eq!(failure(&FilePath::new(b"/\xff".to_vec()), "gone"), "/\u{fffd}: gone");
    assert_eq!(error_line(&vec![], 10), "\x1b[9H\x1b[2K  \x1b[31mError:\x1b[0m ");
    assert_eq!(
        error_line(&vec![one.clone()], 10),
        "\x1b[9H\x1b[2K  \x1b[31mError:\x1b[0m /r/a: denied"
    );
    let two = failure(&path("/r/b"), "gone");
    assert_eq!(
        error_line(&vec![one, two], 10),
        "\x1b[9H\x1b[2K  \x1b[31mError:\x1b[0m /r/a: denied; /r/b: gone"
    );
}
