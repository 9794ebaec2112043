use mac_cleaner::list::{
    choose_action, choose_item, error_notice, item_notice, list, list_named, not_found_notice,
    progress_notice, prompt, question, remark, scanning_notice, warning_notice, Choice, Dialogue,
    ItemAction, Stage, Turn,
};
use mac_cleaner::path::FilePath;
use mac_cleaner::rank::ScanItem;
use mac_cleaner::size::human;
use mac_cleaner::walk::Edition;

fn item(name: &[u8], size: u64, is_dir: bool) -> ScanItem {
    ScanItem { path: FilePath::new(name.to_vec()), size, is_dir }
}

fn sample() -> Vec<ScanItem> {
    vec![item(b"/r/a", 5 << 30, true), item(b"/r/b", 1536, false), item(b"/r/\xff", 7, false)]
}

fn names(dialogue: &Dialogue) -> Vec<String> {
    dialogue.items().iter().map(|i| i.path.display()).collect()
}

#[test]
fn a_prompt_takes_off_white_space() {
    assert_eq!(prompt("  12 \n"), "12");
    assert_eq!(prompt("\r\n"), "");
    assert_eq!(prompt("a b"), "a b");
}

#[test]
fn numbers_choose_items() {
    assert_eq!(choose_item("0", 3), Choice::Quit);
    assert_eq!(choose_item("1", 3), Choice::Item(0));
    assert_eq!(choose_item("3", 3), Choice::Item(2));
    assert_eq!(choose_item("+2", 3), Choice::Item(1));
    for answer in ["4", "", "x", "-1", "1.0", "99999999999999999999999"] {
        assert_eq!(choose_item(answer, 3), Choice::Invalid, "{answer:?}");
    }
    for i in 0..30usize {
        assert_eq!(choose_item(&(i + 1).to_string(), 30), Choice::Item(i));
    }
}

#[test]
fn letters_of_either_case_choose_actions() {
    for c in '\0'..=char::MAX {
        let answer = c.to_string();
        let expected = match answer.to_lowercase().as_str() {
            "r" => ItemAction::Reveal,
            "d" => ItemAction::Delete,
            _ => ItemAction::Back,
        };
        assert_eq!(choose_action(&answer), expected, "{c:?}");
    }
    for answer in ["", "rd", "b", "reveal", "delete"] {
        assert_eq!(choose_action(answer), ItemAction::Back);
    }
}

#[test]
fn deleting_takes_a_number_a_letter_and_the_word() {
    let mut dialogue = Dialogue::new(sample());
    assert_eq!(dialogue.stage(), Stage::Item);
    assert_eq!(dialogue.answer(" 2\n"), Turn::ShowItem(1));
    assert_eq!(dialogue.stage(), Stage::Action(1));
    assert_eq!(dialogue.answer("D\n"), Turn::Warn(1));
    assert_eq!(dialogue.stage(), Stage::Confirm(1));
    assert_eq!(dialogue.answer("DELETE\n"), Turn::Delete(1));
    assert_eq!(dialogue.stage(), Stage::Outcome(1));
    assert_eq!(dialogue.settle(true), Turn::Deleted);
    assert_eq!(names(&dialogue), vec!["/r/a", "/r/\u{fffd}"]);
    assert_eq!(dialogue.stage(), Stage::Item);
}

#[test]
fn an_item_that_cannot_be_deleted_stays() {
    let mut dialogue = Dialogue::new(sample());
    dialogue.answer("1");
    dialogue.answer("d");
    dialogue.answer("DELETE");
    assert_eq!(dialogue.settle(false), Turn::Failed);
    assert_eq!(names(&dialogue).len(), 3);
    assert_eq!(dialogue.stage(), Stage::Item);
}

#[test]
fn anything_else_cancels() {
    for word in ["delete", "", "DELETE!", "yes"] {
        let mut dialogue = Dialogue::new(sample());
        dialogue.answer("1");
        dialogue.answer("d");
        assert_eq!(dialogue.answer(word), Turn::Cancelled);
        assert_eq!(dialogue.stage(), Stage::Item);
        assert_eq!(names(&dialogue).len(), 3);
    }
}

#[test]
fn the_dialogue_ends_with_its_last_item() {
    let mut dialogue = Dialogue::new(vec![item(b"/r/a", 1, false)]);
    dialogue.answer("1");
    dialogue.answer("d");
    dialogue.answer("DELETE");
    assert_eq!(dialogue.settle(true), Turn::NoneLeft);
    assert_eq!(dialogue.stage(), Stage::Over);
    assert!(dialogue.items().is_empty());
}

#[test]
fn zero_ends_the_dialogue() {
    let mut dialogue = Dialogue::new(sample());
    assert_eq!(dialogue.answer("seven"), Turn::Invalid);
    assert_eq!(dialogue.answer("4"), Turn::Invalid);
    assert_eq!(dialogue.answer("0"), Turn::Quit);
    assert_eq!(dialogue.stage(), Stage::Over);
}

#[test]
fn an_item_can_be_revealed_or_left() {
    let mut dialogue = Dialogue::new(sample());
    dialogue.answer("3");
    assert_eq!(dialogue.answer("r"), Turn::Reveal(2));
    assert_eq!(dialogue.stage(), Stage::Item);
    dialogue.answer("3");
    assert_eq!(dialogue.answer("b"), Turn::ShowList);
    assert_eq!(dialogue.stage(), Stage::Item);
}

#[test]
fn the_list_is_put_together_from_its_rows() {
    let items = sample();
    let root = FilePath::new(b"/r".to_vec());
    let mut expected =
        "\n\x1b[32m\u{25c9}\x1b[0m Top 3 items under \x1b[1m/r\x1b[0m\n\n".to_string();
    for (i, item) in items.iter().enumerate() {
        expected += &format!(
            "  \x1b[1m{:>2}\x1b[0m  {}  {:>12}  {}\n",
            i + 1,
            if item.is_dir { "\u{1f4c1}" } else { "\u{1f4c4}" },
            format!("\x1b[33m{}\x1b[0m", human(item.size)),
            item.path.display()
        );
    }
    expected += "\n  \x1b[2m 0\x1b[0m  Quit\n\n";
    assert_eq!(list(&root, &items), expected);
    assert!(expected.contains("/r/\u{fffd}\n"));
}

#[test]
fn an_empty_list_still_offers_to_quit() {
    assert_eq!(
        list_named("/r", &vec![], &vec![]),
        "\n\x1b[32m\u{25c9}\x1b[0m Top 0 items under \x1b[1m/r\x1b[0m\n\n\n  \
         \x1b[2m 0\x1b[0m  Quit\n\n"
    );
}

#[test]
fn an_item_is_shown_with_its_actions() {
    let items = sample();
    assert_eq!(
        item_notice(&items[0], "/r/a"),
        "\n  \u{1f4c1} \x1b[1m/r/a\x1b[0m\n  Size: \x1b[33m5.0 GiB\x1b[0m\n\n  \
         \x1b[1mr\x1b[0m  Reveal in Finder\n  \x1b[1md\x1b[0m  Delete\n  \x1b[1mb\x1b[0m  Back\n\n"
    );
    assert_eq!(
        warning_notice(&items[1], "/r/b"),
        "\n  \x1b[33m\u{26a0}\x1b[0m About to delete:\n  \x1b[1m/r/b\x1b[0m\n  \
         Size: \x1b[33m1.5 KiB\x1b[0m\n\n"
    );
}

#[test]
fn notices_of_a_scan() {
    assert_eq!(
        scanning_notice(Edition::List, "/r", 2),
        "\x1b[36m\u{27f3}\x1b[0m Scanning \x1b[1m/r\x1b[0m (depth 2)\u{2026}"
    );
    assert_eq!(
        scanning_notice(Edition::Browser, "/r", 0),
        "\x1b[36m\u{27f3}\x1b[0m Scanning /r (depth unlimited)\u{2026}"
    );
    assert_eq!(not_found_notice("/x"), "\x1b[31m\u{2717}\x1b[0m Path not found: /x");
    assert_eq!(
        progress_notice(Edition::List, 500),
        "\r\x1b[36m\u{27f3}\x1b[0m  Scanned 500 entries\u{2026}\x1b[K"
    );
    assert_eq!(
        progress_notice(Edition::Browser, 1000),
        "\r\x1b[36m\u{27f3}\x1b[0m  1000 entries scanned\x1b[K"
    );
}

#[test]
fn every_stage_has_its_question() {
    assert_eq!(question(Stage::Item), "\x1b[1m\u{25b6}\x1b[0m  Select item number: ");
    assert_eq!(question(Stage::Action(1)), "\x1b[1m\u{25b6}\x1b[0m  Action [r/d/b]: ");
    assert_eq!(
        question(Stage::Confirm(1)),
        "  \x1b[1m\u{25b6}\x1b[0m Type \x1b[1mDELETE\x1b[0m to confirm, anything else to cancel: "
    );
    assert_eq!(question(Stage::Over), "");
}

#[test]
fn turns_are_remarked_on() {
    assert_eq!(remark(Turn::Invalid), "\x1b[2m  (invalid choice, try again)\x1b[0m\n");
    assert_eq!(remark(Turn::Reveal(0)), "  \x1b[32mOpened in Finder.\x1b[0m\n");
    assert_eq!(remark(Turn::Cancelled), "  \x1b[2mCancelled.\x1b[0m\n");
    assert_eq!(remark(Turn::Deleted), "  \x1b[32m\u{2713} Deleted.\x1b[0m\n");
    assert_eq!(remark(Turn::NoneLeft), "  \x1b[32m\u{2713} Deleted.\x1b[0m\nNo more items.\n");
    assert_eq!(remark(Turn::ShowList), "");
    assert_eq!(error_notice("denied"), "  \x1b[31m\u{2717} Error:\x1b[0m denied");
}
