use mac_cleaner::keys::{collect_chars, read_key, term_size, wait_tenths, Key, Typing};
use mac_cleaner::menu::echo;

#[test]
fn single_bytes_are_keys() {
    let none = vec![];
    assert_eq!(read_key(b'\r', &none), Some((Key::Enter, None)));
    assert_eq!(read_key(b'\n', &none), Some((Key::Enter, None)));
    assert_eq!(read_key(b' ', &none), Some((Key::Space, None)));
    assert_eq!(read_key(0x7f, &none), Some((Key::Backspace, None)));
    assert_eq!(read_key(0x08, &none), Some((Key::Backspace, None)));
    assert_eq!(read_key(b'q', &none), Some((Key::Char('q'), None)));
    assert_eq!(read_key(0xe9, &none), Some((Key::Char('\u{e9}'), None)));
    assert_eq!(read_key(0x00, &none), Some((Key::Esc, None)));
    assert_eq!(read_key(0x01, &none), Some((Key::Esc, None)));
    assert_eq!(read_key(b'\t', &none), Some((Key::Esc, None)));
}

#[test]
fn an_escape_byte_starts_a_sequence() {
    assert_eq!(read_key(0x1b, &vec![]), None);
    assert_eq!(read_key(0x1b, &vec![None]), Some((Key::Esc, None)));
    assert_eq!(read_key(0x1b, &vec![Some(b'O')]), Some((Key::Esc, None)));
    assert_eq!(read_key(0x1b, &vec![Some(b'[')]), None);
    assert_eq!(read_key(0x1b, &vec![Some(b'['), Some(b'A')]), Some((Key::Up, None)));
    assert_eq!(read_key(0x1b, &vec![Some(b'['), Some(b'B')]), Some((Key::Down, None)));
    assert_eq!(read_key(0x1b, &vec![Some(b'['), Some(b'C')]), Some((Key::Esc, None)));
    assert_eq!(read_key(0x1b, &vec![Some(b'['), None]), Some((Key::Esc, None)));
}

#[test]
fn page_keys_end_in_a_tilde() {
    assert_eq!(read_key(0x1b, &vec![Some(b'['), Some(b'5')]), None);
    assert_eq!(read_key(0x1b, &vec![Some(b'['), Some(b'6')]), None);
    assert_eq!(read_key(0x1b, &vec![Some(b'['), Some(b'5'), Some(b'~')]), Some((Key::PageUp, None)));
    assert_eq!(read_key(0x1b, &vec![Some(b'['), Some(b'6'), Some(b'~')]), Some((Key::PageDown, None)));
    assert_eq!(read_key(0x1b, &vec![Some(b'['), Some(b'5'), None]), Some((Key::Esc, None)));
    assert_eq!(read_key(0x1b, &vec![Some(b'['), Some(b'6'), Some(b'x')]), Some((Key::Esc, Some(b'x'))));
}

/// The keys that these bytes are, where they all come in time.
fn keys_of(bytes: &[u8]) -> Vec<Key> {
    let mut left = bytes.to_vec();
    let mut keys = vec![];
    while !left.is_empty() {
        let first = left.remove(0);
        let mut more = vec![];
        let (key, left_over) = loop {
            if let Some(found) = read_key(first, &more) {
                break found;
            }
            more.push(if left.is_empty() { None } else { Some(left.remove(0)) });
        };
        keys.push(key);
        if let Some(byte) = left_over {
            left.insert(0, byte);
        }
    }
    keys
}

#[test]
fn what_is_no_part_of_a_page_key_is_the_next_key() {
    assert_eq!(keys_of(b"\x1b[5q"), vec![Key::Esc, Key::Char('q')]);
    assert_eq!(keys_of(b"\x1b[6 "), vec![Key::Esc, Key::Space]);
    assert_eq!(keys_of(b"\x1b[5\x1b[A"), vec![Key::Esc, Key::Up]);
    assert_eq!(keys_of(b"\x1b[5\x1b[6~x"), vec![Key::Esc, Key::PageDown, Key::Char('x')]);
    assert_eq!(keys_of(b"\x1b[5~q"), vec![Key::PageUp, Key::Char('q')]);
    assert_eq!(keys_of(b"\x1b[5"), vec![Key::Esc]);
    assert_eq!(keys_of(b"\x1b[Cq"), vec![Key::Esc, Key::Char('q')]);
    assert_eq!(keys_of(b"\x1bq"), vec![Key::Esc]);
}

#[test]
fn three_further_reads_always_settle_a_key() {
    let bytes = [None, Some(b'['), Some(b'A'), Some(b'5'), Some(b'6'), Some(b'~'), Some(0u8)];
    for first in 0..=255u8 {
        for a in bytes {
            for b in bytes {
                for c in bytes {
                    let key = read_key(first, &vec![a, b, c]);
                    assert!(key.is_some());
                    assert_eq!(read_key(first, &vec![a, b, c, Some(b'A')]), key);
                }
            }
        }
    }
}

#[test]
fn characters_are_collected_into_a_line() {
    let mut line = String::new();
    assert_eq!(collect_chars(&mut line, Key::Backspace), Typing::Ignored);
    assert_eq!(collect_chars(&mut line, Key::Char('a')), Typing::Added('a'));
    assert_eq!(collect_chars(&mut line, Key::Char('\u{e9}')), Typing::Added('\u{e9}'));
    assert_eq!(line, "a\u{e9}");
    assert_eq!(collect_chars(&mut line, Key::Backspace), Typing::Erased);
    assert_eq!(line, "a");
    for key in [Key::Up, Key::Down, Key::PageUp, Key::PageDown] {
        assert_eq!(collect_chars(&mut line, key), Typing::Ignored);
    }
    assert_eq!(collect_chars(&mut line, Key::Enter), Typing::Done);
    assert_eq!(line, "a");
    assert_eq!(collect_chars(&mut line, Key::Esc), Typing::Cancelled);
    assert_eq!(line, "");
}

/// The line that these bytes make up.
fn line_of(bytes: &[u8]) -> String {
    let mut line = String::new();
    for byte in bytes {
        let (key, _) = read_key(*byte, &vec![]).unwrap();
        if collect_chars(&mut line, key) == Typing::Done {
            break;
        }
    }
    line
}

#[test]
fn a_typed_space_is_a_character() {
    let mut line = String::from("a");
    assert_eq!(collect_chars(&mut line, Key::Space), Typing::Added(' '));
    assert_eq!(line, "a ");
    assert_eq!(collect_chars(&mut line, Key::Backspace), Typing::Erased);
    assert_eq!(line, "a");
    assert_eq!(line_of(b"DEL ETE\r"), "DEL ETE");
    assert_eq!(line_of(b" DELETE \n"), " DELETE ");
}

#[test]
fn every_printable_byte_is_added() {
    let printable: Vec<u8> = (0x20..=0x7e).collect();
    assert_eq!(line_of(&printable), String::from_utf8(printable.clone()).unwrap());
    assert_eq!(line_of(b"DELETX\x7fE\r"), "DELETE");
}

#[test]
fn the_terminal_follows_the_typing() {
    assert_eq!(echo(Typing::Added('x')), "x");
    assert_eq!(echo(Typing::Erased), "\x1b[1D \x1b[1D");
    assert_eq!(echo(Typing::Ignored), "");
}

#[test]
fn a_size_is_taken_where_it_is_reported() {
    assert_eq!(term_size(Some((120, 50))), (120, 50));
    assert_eq!(term_size(Some((0, 5))), (0, 5));
    assert_eq!(term_size(Some((120, 4))), (80, 24));
    assert_eq!(term_size(None), (80, 24));
}

#[test]
fn waiting_is_in_tenths_of_a_second() {
    for ms in [0u64, 99, 100, 199, 200, 25_499, 25_500, 25_600, u64::MAX] {
        assert_eq!(wait_tenths(ms) as u64, (ms / 100).max(1).min(255));
    }
    assert_eq!(wait_tenths(100), 1);
}
