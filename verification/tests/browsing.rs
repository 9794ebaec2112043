use mac_cleaner::browser::{App, Effect};
use mac_cleaner::keys::{read_key, Key};
use mac_cleaner::path::FilePath;
use mac_cleaner::rank::ScanItem;

fn path(text: &str) -> FilePath {
    FilePath::new(text.as_bytes().to_vec())
}

fn folder(text: &str, size: u64) -> ScanItem {
    ScanItem { path: path(text), size, is_dir: true }
}

fn file(text: &str, size: u64) -> ScanItem {
    ScanItem { path: path(text), size, is_dir: false }
}

fn sample() -> App {
    App::new(path("/r"), vec![folder("/r/a", 30), file("/r/b", 20), folder("/r/c", 10)])
}

fn children() -> Vec<ScanItem> {
    vec![folder("/r/a/x", 25), file("/r/a/y", 5)]
}

fn told(app: &App) -> Vec<(String, usize, bool, usize)> {
    app.entries().iter().map(|e| (e.path.display(), e.depth, e.expanded, e.num)).collect()
}

fn line(text: &str, depth: usize, expanded: bool, num: usize) -> (String, usize, bool, usize) {
    (text.to_string(), depth, expanded, num)
}

fn many(n: usize) -> App {
    App::new(path("/r"), (0..n).map(|i| file(&format!("/r/{i}"), 1)).collect())
}

fn type_text(app: &mut App, text: &str) {
    for c in text.chars() {
        app.press(Key::Char(c), 24);
    }
}

fn selected(app: &App) -> Vec<String> {
    app.entries().iter().filter(|e| app.is_selected(&e.path)).map(|e| e.path.display()).collect()
}

#[test]
fn a_new_browser_numbers_its_lines() {
    let app = sample();
    assert_eq!(
        told(&app),
        vec![line("/r/a", 0, false, 1), line("/r/b", 0, false, 2), line("/r/c", 0, false, 3)]
    );
    assert_eq!((app.cursor(), app.scroll()), (0, 0));
    assert!(app.input().is_none());
    assert!(app.nothing_selected());
    assert_eq!(app.root().display(), "/r");
}

#[test]
fn arrows_stop_at_both_ends() {
    let mut app = sample();
    assert_eq!(app.press(Key::Up, 24), Effect::Nothing);
    assert_eq!(app.cursor(), 0);
    for expected in [1, 2, 2] {
        app.press(Key::Down, 24);
        assert_eq!(app.cursor(), expected);
    }
    app.press(Key::Up, 24);
    assert_eq!(app.cursor(), 1);
}

#[test]
fn expanding_puts_the_children_below() {
    let mut app = sample();
    assert_eq!(app.press(Key::Space, 24), Effect::ListFolder);
    assert!(app.would_expand(0));
    app.toggle_expand(0, children());
    assert_eq!(
        told(&app),
        vec![
            line("/r/a", 0, true, 1),
            line("/r/a/x", 1, false, 0),
            line("/r/a/y", 1, false, 0),
            line("/r/b", 0, false, 2),
            line("/r/c", 0, false, 3),
        ]
    );
}

#[test]
fn collapsing_undoes_expanding_at_any_depth() {
    let mut app = sample();
    app.toggle_expand(0, children());
    app.toggle_expand(1, vec![file("/r/a/x/1", 24), file("/r/a/x/2", 1)]);
    assert_eq!(app.entries().len(), 7);
    assert_eq!(app.entries()[2].depth, 2);
    assert_eq!(app.press(Key::Space, 24), Effect::Nothing);
    assert_eq!(told(&app), told(&sample()));
}

#[test]
fn collapsing_an_inner_folder_keeps_the_outer_one() {
    let mut app = sample();
    app.toggle_expand(0, children());
    let before = told(&app);
    app.toggle_expand(1, vec![file("/r/a/x/1", 24)]);
    app.toggle_expand(1, vec![]);
    assert_eq!(told(&app), before);
}

#[test]
fn the_last_folder_collapses_to_the_end() {
    let mut app = sample();
    app.toggle_expand(2, vec![file("/r/c/1", 9), file("/r/c/2", 1)]);
    assert_eq!(app.entries().len(), 5);
    for _ in 0..4 {
        app.press(Key::Down, 24);
    }
    assert_eq!(app.cursor(), 4);
    app.toggle_expand(2, vec![]);
    assert_eq!(told(&app), told(&sample()));
    assert_eq!(app.cursor(), 2);
}

#[test]
fn an_empty_folder_expands_and_collapses() {
    let mut app = sample();
    app.toggle_expand(0, vec![]);
    assert_eq!(app.entries().len(), 3);
    assert!(app.entries()[0].expanded);
    app.toggle_expand(0, vec![]);
    assert!(!app.entries()[0].expanded);
}

#[test]
fn a_file_does_not_expand() {
    let mut app = sample();
    app.press(Key::Down, 24);
    assert!(!app.would_expand(1));
    assert_eq!(app.press(Key::Space, 24), Effect::Nothing);
    assert_eq!(told(&app), told(&sample()));
}

#[test]
fn selecting_twice_selects_nothing() {
    let mut app = sample();
    app.press(Key::Char('s'), 24);
    assert_eq!(selected(&app), vec!["/r/a"]);
    assert_eq!(app.selected_len(), 1);
    app.press(Key::Char('S'), 24);
    assert!(app.nothing_selected());
}

#[test]
fn typed_numbers_select_their_lines() {
    let mut app = sample();
    app.press(Key::Down, 24);
    app.press(Key::Char('s'), 24);
    type_text(&mut app, "1,3");
    assert_eq!(app.input().as_deref(), Some("1,3"));
    assert_eq!(selected(&app), vec!["/r/b"]);
    assert_eq!(app.press(Key::Enter, 24), Effect::Nothing);
    assert!(app.input().is_none());
    assert_eq!(selected(&app), vec!["/r/a", "/r/c"]);
}

#[test]
fn the_space_key_is_not_for_a_typed_list() {
    let mut app = many(20);
    for byte in b"1 2, 3" {
        app.press(read_key(*byte, &vec![]).unwrap().0, 24);
    }
    assert_eq!(app.input().as_deref(), Some("12,3"));
    app.press(Key::Enter, 24);
    assert_eq!(selected(&app), vec!["/r/2", "/r/11"]);
}

#[test]
fn numbers_without_a_line_select_nothing() {
    let mut app = sample();
    type_text(&mut app, "9,,2,");
    app.press(Key::Enter, 24);
    assert_eq!(selected(&app), vec!["/r/b"]);
    type_text(&mut app, "7");
    app.press(Key::Enter, 24);
    assert!(app.nothing_selected());
}

#[test]
fn zero_stands_for_the_first_child_shown() {
    let mut app = sample();
    type_text(&mut app, "0");
    app.press(Key::Enter, 24);
    assert!(app.nothing_selected());
    app.toggle_expand(0, children());
    type_text(&mut app, "0");
    app.press(Key::Enter, 24);
    assert_eq!(selected(&app), vec!["/r/a/x"]);
}

#[test]
fn numbers_stay_those_of_the_top_level_when_a_folder_is_expanded() {
    let mut app = sample();
    app.toggle_expand(0, children());
    type_text(&mut app, "2,3");
    app.press(Key::Enter, 24);
    assert_eq!(selected(&app), vec!["/r/b", "/r/c"]);
}

#[test]
fn typing_can_be_corrected_and_given_up() {
    let mut app = sample();
    type_text(&mut app, "12");
    app.press(Key::Backspace, 24);
    assert_eq!(app.input().as_deref(), Some("1"));
    app.press(Key::Backspace, 24);
    app.press(Key::Backspace, 24);
    assert_eq!(app.input().as_deref(), Some(""));
    for key in [Key::Char('x'), Key::Char('q'), Key::Up, Key::PageDown] {
        assert_eq!(app.press(key, 24), Effect::Nothing);
    }
    assert_eq!(app.input().as_deref(), Some(""));
    app.press(Key::Space, 24);
    assert_eq!(app.input().as_deref(), Some(""));
    app.press(Key::Char(' '), 24);
    assert_eq!(app.input().as_deref(), Some(" "));
    assert_eq!(app.press(Key::Esc, 24), Effect::Nothing);
    assert!(app.input().is_none());
    assert!(app.nothing_selected());
}

#[test]
fn keys_lead_to_the_menu_and_out() {
    let mut app = sample();
    assert_eq!(app.press(Key::Enter, 24), Effect::OpenMenu);
    assert_eq!(app.press(Key::Char('q'), 24), Effect::Quit);
    assert_eq!(app.press(Key::Esc, 24), Effect::Quit);
    assert_eq!(app.press(Key::Char('x'), 24), Effect::Nothing);
    assert_eq!(app.press(Key::Backspace, 24), Effect::Nothing);
}

#[test]
fn the_targets_are_the_selection_or_the_cursor() {
    let mut app = sample();
    app.press(Key::Down, 24);
    let told = |app: &App| -> Vec<(String, u64)> {
        app.action_targets().iter().map(|(p, s)| (p.display(), *s)).collect()
    };
    assert_eq!(told(&app), vec![("/r/b".to_string(), 20)]);
    type_text(&mut app, "3,1");
    app.press(Key::Enter, 24);
    assert_eq!(told(&app), vec![("/r/a".to_string(), 30), ("/r/c".to_string(), 10)]);
}

#[test]
fn a_selected_line_that_is_hidden_is_no_target() {
    let mut app = sample();
    app.toggle_expand(0, children());
    app.press(Key::Down, 24);
    app.press(Key::Char('s'), 24);
    app.toggle_expand(0, vec![]);
    assert!(!app.nothing_selected());
    assert!(app.action_targets().is_empty());
}

#[test]
fn removing_takes_what_lies_below_and_renumbers() {
    let mut app = sample();
    app.toggle_expand(0, children());
    for _ in 0..4 {
        app.press(Key::Down, 24);
    }
    app.press(Key::Char('s'), 24);
    app.remove_paths(&vec![path("/r/a/")]);
    assert_eq!(told(&app), vec![line("/r/b", 0, false, 1), line("/r/c", 0, false, 2)]);
    assert_eq!(app.cursor(), 1);
    assert!(app.nothing_selected());
}

#[test]
fn removing_goes_by_whole_components() {
    let mut app = App::new(path("/r"), vec![file("/r/ab", 2), file("/r/a", 1)]);
    app.remove_paths(&vec![path("/r/a")]);
    assert_eq!(told(&app), vec![line("/r/ab", 0, false, 1)]);
}

#[test]
fn removing_everything_leaves_no_line() {
    let mut app = sample();
    app.press(Key::Down, 24);
    app.remove_paths(&vec![path("/r")]);
    assert!(app.entries().is_empty());
    assert_eq!(app.cursor(), 0);
    assert_eq!(app.press(Key::Down, 24), Effect::Nothing);
    assert_eq!(app.press(Key::PageDown, 24), Effect::Nothing);
    assert_eq!(app.cursor(), 0);
}

#[test]
fn the_selection_can_be_dropped() {
    let mut app = sample();
    app.press(Key::Char('s'), 24);
    app.clear_selection();
    assert!(app.nothing_selected());
}

#[test]
fn five_rows_are_not_for_lines() {
    let app = sample();
    assert_eq!(app.vis_rows(24), 19);
    assert_eq!(app.vis_rows(5), 0);
    assert_eq!(app.vis_rows(0), 0);
}

#[test]
fn scrolling_follows_the_cursor() {
    let mut app = many(10);
    for _ in 0..4 {
        app.press(Key::Down, 8);
    }
    app.ensure_cursor_visible(8);
    assert_eq!((app.cursor(), app.scroll()), (4, 2));
    app.ensure_cursor_visible(8);
    assert_eq!(app.scroll(), 2);
    for _ in 0..3 {
        app.press(Key::Up, 8);
    }
    app.ensure_cursor_visible(8);
    assert_eq!((app.cursor(), app.scroll()), (1, 1));
}

#[test]
fn without_room_for_lines_nothing_scrolls_down() {
    let mut app = many(10);
    app.press(Key::Down, 5);
    app.ensure_cursor_visible(5);
    assert_eq!((app.cursor(), app.scroll()), (1, 0));
}

#[test]
fn paging_moves_by_a_screen() {
    let mut app = many(10);
    app.press(Key::PageDown, 8);
    assert_eq!((app.cursor(), app.scroll()), (3, 3));
    app.press(Key::Char('>'), 8);
    assert_eq!((app.cursor(), app.scroll()), (6, 6));
    app.press(Key::PageDown, 8);
    assert_eq!((app.cursor(), app.scroll()), (9, 7));
    app.press(Key::PageDown, 8);
    assert_eq!((app.cursor(), app.scroll()), (9, 7));
    app.press(Key::PageUp, 8);
    assert_eq!((app.cursor(), app.scroll()), (6, 4));
    app.press(Key::Char('<'), 8);
    app.press(Key::Char('<'), 8);
    assert_eq!((app.cursor(), app.scroll()), (0, 0));
}

#[test]
fn a_page_up_undoes_a_page_down() {
    let mut app = many(20);
    app.press(Key::Down, 8);
    app.press(Key::PageDown, 8);
    app.press(Key::PageUp, 8);
    assert_eq!((app.cursor(), app.scroll()), (1, 0));
}

#[test]
fn paging_a_short_list_goes_to_its_ends() {
    let mut app = sample();
    app.press(Key::PageDown, 24);
    assert_eq!((app.cursor(), app.scroll()), (2, 0));
    app.press(Key::PageUp, 24);
    assert_eq!((app.cursor(), app.scroll()), (0, 0));
}

#[test]
fn paging_keeps_the_cursor_on_screen() {
    let mut app = many(50);
    for key in [Key::PageDown, Key::Down, Key::PageDown, Key::PageUp, Key::Up, Key::PageUp] {
        app.press(key, 12);
        let scroll = app.scroll();
        app.ensure_cursor_visible(12);
        assert_eq!(app.scroll(), scroll);
    }
}

#[test]
fn numbering_afresh_changes_nothing_in_a_numbered_list() {
    let mut app = sample();
    app.toggle_expand(0, children());
    let before = told(&app);
    app.renumber();
    assert_eq!(told(&app), before);
}
