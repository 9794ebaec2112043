//! Keys as a terminal sends them.
use vstd::prelude::*;

verus! {

/// A key.
#[derive(Debug, Clone, Copy, PartialEq, Eq, Structural)]
pub enum Key {
    Up,
    Down,
    PageUp,
    PageDown,
    Enter,
    Space,
    Backspace,
    Char(char),
    Esc,
}

/// The key that starts with the byte `first`, `more` being what was read
/// behind it, `None` where nothing came in time; with it, the byte that was
/// read but is no part of the key, if there is one. The whole is `None` where
/// a further byte decides.
pub open spec fn key_of(first: u8, more: Seq<Option<u8>>) -> Option<(Key, Option<u8>)> {
    if first == 0x0d || first == 0x0a {
        Some((Key::Enter, None))
    } else if first == 0x20 {
        Some((Key::Space, None))
    } else if first == 0x7f || first == 0x08 {
        Some((Key::Backspace, None))
    } else if first == 0x1b {
        escape_key(more)
    } else if first > 0x20 {
        Some((Key::Char(first as char), None))
    } else {
        Some((Key::Esc, None))
    }
}

/// The key that an escape byte starts: an arrow is `[A` or `[B`, a page key
/// `[5~` or `[6~`, and all else is the escape key, which takes up the byte
/// behind it, or the two behind it where the first is a bracket. What was read
/// in place of the tilde of a page key is left over.
pub open spec fn escape_key(more: Seq<Option<u8>>) -> Option<(Key, Option<u8>)> {
    if more.len() == 0 {
        None
    } else if more[0] != Some(0x5bu8) {
        Some((Key::Esc, None))
    } else if more.len() == 1 {
        None
    } else if more[1] == Some(0x41u8) {
        Some((Key::Up, None))
    } else if more[1] == Some(0x42u8) {
        Some((Key::Down, None))
    } else if more[1] == Some(0x35u8) || more[1] == Some(0x36u8) {
        if more.len() == 2 {
            None
        } else if more[2] != Some(0x7eu8) {
            Some((Key::Esc, more[2]))
        } else if more[1] == Some(0x35u8) {
            Some((Key::PageUp, None))
        } else {
            Some((Key::PageDown, None))
        }
    } else {
        Some((Key::Esc, None))
    }
}

/// The key that starts with the byte `first`. `more` holds what was read
/// behind it, one entry per read, `None` where nothing came in time. Where
/// the result is `None`, one more read decides. The byte that may come with
/// the key is no part of it: the next key starts with that byte.
pub fn read_key(first: u8, more: &Vec<Option<u8>>) -> (out: Option<(Key, Option<u8>)>)
    ensures
        out == key_of(first, more@),
{
    match first {
        0x0d | 0x0a => Some((Key::Enter, None)),
        0x20 => Some((Key::Space, None)),
        0x7f | 0x08 => Some((Key::Backspace, None)),
        0x1b => {
            if more.len() == 0 {
                return None;
            }
            match more[0] {
                Some(0x5b) => {
                    if more.len() == 1 {
                        return None;
                    }
                    match more[1] {
                        Some(0x41) => Some((Key::Up, None)),
                        Some(0x42) => Some((Key::Down, None)),
                        Some(0x35) => {
                            if more.len() == 2 {
                                return None;
                            }
                            match more[2] {
                                Some(0x7e) => Some((Key::PageUp, None)),
                                other => Some((Key::Esc, other)),
                            }
                        },
                        Some(0x36) => {
                            if more.len() == 2 {
                                return None;
                            }
                            match more[2] {
                                Some(0x7e) => Some((Key::PageDown, None)),
                                other => Some((Key::Esc, other)),
                            }
                        },
                        _ => Some((Key::Esc, None)),
                    }
                },
                _ => Some((Key::Esc, None)),
            }
        },
        c => if c > 0x20 {
            Some((Key::Char(c as char), None))
        } else {
            Some((Key::Esc, None))
        },
    }
}

/// At most three reads behind the first byte settle a key.
pub proof fn three_reads_settle_a_key(first: u8, more: Seq<Option<u8>>)
    requires
        more.len() >= 3,
    ensures
        key_of(first, more) is Some,
{
}

/// Once settled, a key does not depend on what is read later.
pub proof fn later_reads_do_not_matter(first: u8, more: Seq<Option<u8>>, later: Seq<Option<u8>>)
    requires
        key_of(first, more) is Some,
    ensures
        key_of(first, more + later) == key_of(first, more),
{
}

/// Only a page key is longer than three bytes: where a key was settled by a
/// third read behind its first byte, and is no page key, it is the escape key,
/// and what that read gave is left over.
pub proof fn only_page_keys_have_four_bytes(first: u8, more: Seq<Option<u8>>)
    requires
        more.len() >= 3,
        key_of(first, more.take(2)) is None,
    ensures
        more[2] == Some(0x7eu8) ==> key_of(first, more) == Some((Key::PageUp, None::<u8>))
            || key_of(first, more) == Some((Key::PageDown, None::<u8>)),
        more[2] != Some(0x7eu8) ==> key_of(first, more) == Some((Key::Esc, more[2])),
{
    assert(more.take(2)[0] == more[0] && more.take(2)[1] == more[1]);
}

/// Nothing is left over of a key that fewer reads settle.
pub proof fn shorter_keys_leave_nothing_over(first: u8, more: Seq<Option<u8>>)
    requires
        more.len() <= 2,
        key_of(first, more) is Some,
    ensures
        key_of(first, more) matches Some((_, left_over)) && left_over is None,
{
}

/// What became of a key while a line is typed.
#[derive(Debug, Clone, Copy, PartialEq, Eq, Structural)]
pub enum Typing {
    /// The line is complete.
    Done,
    /// The line was given up, and is now empty.
    Cancelled,
    /// The last character was taken back.
    Erased,
    /// The character was added.
    Added(char),
    /// Nothing happened.
    Ignored,
}

/// What becomes of a key, and the line after it.
pub open spec fn typed(line: Seq<char>, key: Key) -> (Typing, Seq<char>) {
    match key {
        Key::Enter => (Typing::Done, line),
        Key::Esc => (Typing::Cancelled, Seq::empty()),
        Key::Backspace => if line.len() > 0 {
            (Typing::Erased, line.drop_last())
        } else {
            (Typing::Ignored, line)
        },
        Key::Space => (Typing::Added(' '), line.push(' ')),
        Key::Char(c) => (Typing::Added(c), line.push(c)),
        _ => (Typing::Ignored, line),
    }
}

/// Takes one key of a line that is being typed. `Done` and `Cancelled` end
/// the line.
pub fn collect_chars(line: &mut String, key: Key) -> (out: Typing)
    ensures
        (out, final(line)@) == typed(old(line)@, key),
{
    match key {
        Key::Enter => Typing::Done,
        Key::Esc => {
            *line = String::new();
            Typing::Cancelled
        },
        Key::Backspace => match line.pop() {
            Some(_) => Typing::Erased,
            None => Typing::Ignored,
        },
        Key::Space => {
            line.push(' ');
            Typing::Added(' ')
        },
        Key::Char(c) => {
            line.push(c);
            Typing::Added(c)
        },
        _ => Typing::Ignored,
    }
}

/// Taking back a character undoes having added it.
pub proof fn backspace_undoes_a_character(line: Seq<char>, c: char)
    ensures
        typed(typed(line, Key::Char(c)).1, Key::Backspace).1 == line,
        typed(typed(line, Key::Space).1, Key::Backspace).1 == line,
{
    assert(line.push(c).drop_last() =~= line);
    assert(line.push(' ').drop_last() =~= line);
}

/// The key that a single byte is. Only the escape byte starts a sequence, and
/// alone it is the escape key.
pub open spec fn byte_key(byte: u8) -> Key {
    match key_of(byte, Seq::empty()) {
        Some((key, _)) => key,
        None => Key::Esc,
    }
}

/// Whether a byte is a printable character of ASCII, the space among them.
pub open spec fn is_printable(byte: u8) -> bool {
    0x20 <= byte <= 0x7e
}

/// The text that bytes of ASCII spell.
pub open spec fn spelled(bytes: Seq<u8>) -> Seq<char> {
    Seq::new(bytes.len(), |i: int| bytes[i] as char)
}

/// The line after these bytes came from the keyboard, one by one.
pub open spec fn line_after(line: Seq<char>, bytes: Seq<u8>) -> Seq<char>
    decreases bytes.len(),
{
    if bytes.len() == 0 {
        line
    } else {
        typed(line_after(line, bytes.drop_last()), byte_key(bytes.last())).1
    }
}

/// Printable bytes are added to the line as they are, every one of them.
pub proof fn printable_bytes_are_added(line: Seq<char>, bytes: Seq<u8>)
    requires
        forall|i: int| 0 <= i < bytes.len() ==> is_printable(#[trigger] bytes[i]),
    ensures
        line_after(line, bytes) == line + spelled(bytes),
    decreases bytes.len(),
{
    if bytes.len() == 0 {
        assert(line + spelled(bytes) =~= line);
    } else {
        let front = bytes.drop_last();
        let last = bytes[bytes.len() - 1];
        assert forall|i: int| 0 <= i < front.len() implies is_printable(#[trigger] front[i]) by {
            assert(front[i] == bytes[i]);
        }
        printable_bytes_are_added(line, front);
        assert(is_printable(last));
        assert(typed(line + spelled(front), byte_key(last)).1 == (line + spelled(front)).push(
            last as char,
        ));
        assert((line + spelled(front)).push(last as char) =~= line + spelled(bytes));
    }
}

/// The columns and rows of the terminal: as reported, if there are more than
/// four rows, and otherwise eighty by twenty-four.
pub fn term_size(reported: Option<(u16, u16)>) -> (out: (usize, usize))
    ensures
        out == match reported {
            Some((columns, rows)) => if rows > 4 {
                (columns as usize, rows as usize)
            } else {
                (80usize, 24usize)
            },
            None => (80usize, 24usize),
        },
{
    match reported {
        Some((columns, rows)) => if rows > 4 {
            (columns as usize, rows as usize)
        } else {
            (80, 24)
        },
        None => (80, 24),
    }
}

/// A waiting time in tenths of a second, at least one and at most 255.
pub fn wait_tenths(ms: u64) -> (out: u8)
    ensures
        out == if ms / 100 < 1 {
            1
        } else if ms / 100 > 255 {
            255
        } else {
            ms / 100
        },
{
    let tenths = ms / 100;
    if tenths < 1 {
        1
    } else if tenths > 255 {
        255
    } else {
        tenths as u8
    }
}

/// Every single byte but the escape byte is a key of its own: the two ends of
/// a line are Enter, the space is Space, the two ways to erase are Backspace,
/// every other byte from the space on is the character with that code, and the
/// rest are Esc.
pub proof fn single_bytes_are_keys(byte: u8, more: Seq<Option<u8>>)
    requires
        byte != 27,
    ensures
        key_of(byte, more) == Some(
            (
                if byte == 13 || byte == 10 {
                    Key::Enter
                } else if byte == 32 {
                    Key::Space
                } else if byte == 127 || byte == 8 {
                    Key::Backspace
                } else if byte < 32 {
                    Key::Esc
                } else {
                    Key::Char(byte as char)
                },
                None::<u8>,
            ),
        ),
{
}

/// Behind the escape byte, a bracket and an `A` or a `B` are the arrows, a
/// bracket, a `5` or a `6` and a tilde are the page keys, and without a bracket
/// it is Esc.
pub proof fn escape_sequences_are_keys(more: Seq<Option<u8>>)
    ensures
        key_of(27, seq![Some(91u8), Some(65u8)]) == Some((Key::Up, None::<u8>)),
        key_of(27, seq![Some(91u8), Some(66u8)]) == Some((Key::Down, None::<u8>)),
        key_of(27, seq![Some(91u8), Some(53u8), Some(126u8)]) == Some((Key::PageUp, None::<u8>)),
        key_of(27, seq![Some(91u8), Some(54u8), Some(126u8)]) == Some((Key::PageDown, None::<u8>)),
        more.len() > 0 && more[0] != Some(91u8) ==> key_of(27, more) == Some((Key::Esc, None::<u8>)),
        more.len() > 1 && more[0] == Some(91u8) && more[1] != Some(65u8) && more[1] != Some(66u8)
            && more[1] != Some(53u8) && more[1] != Some(54u8) ==> key_of(27, more) == Some(
            (Key::Esc, None::<u8>),
        ),
        key_of(27, Seq::empty()) is None,
        key_of(27, seq![Some(91u8)]) is None,
{
    let up = seq![Some(91u8), Some(65u8)];
    let down = seq![Some(91u8), Some(66u8)];
    let page_up = seq![Some(91u8), Some(53u8), Some(126u8)];
    let page_down = seq![Some(91u8), Some(54u8), Some(126u8)];
    let bracket = seq![Some(91u8)];
    assert(up[0] == Some(91u8) && up[1] == Some(65u8));
    assert(down[0] == Some(91u8) && down[1] == Some(66u8));
    assert(page_up[0] == Some(91u8) && page_up[1] == Some(53u8) && page_up[2] == Some(126u8));
    assert(page_down[0] == Some(91u8) && page_down[1] == Some(54u8) && page_down[2] == Some(126u8));
    assert(bracket[0] == Some(91u8));
}

/// Of a line that is typed, Enter makes what is there the line, Esc gives it
/// up, Backspace takes the last character back if there is one, characters and
/// the space are added at the end, and the other keys do nothing.
pub proof fn keys_of_a_typed_line(line: Seq<char>, c: char)
    ensures
        typed(line, Key::Enter) == (Typing::Done, line),
        typed(line, Key::Esc) == (Typing::Cancelled, Seq::<char>::empty()),
        line.len() > 0 ==> typed(line, Key::Backspace) == (
            Typing::Erased,
            line.take(line.len() - 1),
        ),
        line.len() == 0 ==> typed(line, Key::Backspace) == (Typing::Ignored, line),
        typed(line, Key::Char(c)) == (Typing::Added(c), line.push(c)),
        typed(line, Key::Space) == (Typing::Added(' '), line.push(' ')),
        typed(line, Key::Up) == (Typing::Ignored, line),
        typed(line, Key::Down) == (Typing::Ignored, line),
        typed(line, Key::PageUp) == (Typing::Ignored, line),
        typed(line, Key::PageDown) == (Typing::Ignored, line),
{
    if line.len() > 0 {
        assert(line.drop_last() =~= line.take(line.len() - 1));
    }
}

} // verus!
