//! Text: numbers, padding, trimming and terminal styles.
use crate::split::split_on;
use vstd::prelude::*;

verus! {

/// `String::push` appends one character.
pub assume_specification[ String::push ](s: &mut String, c: char)
    ensures
        final(s)@ == old(s)@.push(c),
;

/// `String::pop` takes the last character away and returns it; an empty
/// string is left as it is.
pub assume_specification[ String::pop ](s: &mut String) -> (out: Option<char>)
    ensures
        old(s)@.len() == 0 ==> out is None && final(s)@ == old(s)@,
        old(s)@.len() > 0 ==> out == Some(old(s)@.last()) && final(s)@ == old(s)@.drop_last(),
;

pub const RESET: &'static str = "\x1b[0m";

pub const BOLD: &'static str = "\x1b[1m";

pub const DIM: &'static str = "\x1b[2m";

pub const CYAN: &'static str = "\x1b[36m";

pub const YELLOW: &'static str = "\x1b[33m";

pub const GREEN: &'static str = "\x1b[32m";

pub const RED: &'static str = "\x1b[31m";

pub const REVERSE: &'static str = "\x1b[7m";

/// `body` between a style and the end of all styles.
pub open spec fn styled(style: Seq<char>, body: Seq<char>) -> Seq<char> {
    style + body + RESET@
}

/// `body` between a style and the end of all styles.
pub fn paint(style: &str, body: &str) -> (out: String)
    ensures
        out@ == styled(style@, body@),
{
    let mut out = String::new();
    out.append(style);
    out.append(body);
    out.append(RESET);
    assert(out@ =~= styled(style@, body@));
    out
}

/// `n` times the same character.
pub open spec fn repeated(c: char, n: nat) -> Seq<char> {
    Seq::new(n, |i: int| c)
}

/// Appends `n` times the same character.
pub fn push_repeated(out: &mut String, c: char, n: usize)
    ensures
        final(out)@ == old(out)@ + repeated(c, n as nat),
{
    let mut i: usize = 0;
    while i < n
        invariant
            i <= n,
            out@ =~= old(out)@ + repeated(c, i as nat),
        decreases n - i,
    {
        out.push(c);
        i += 1;
    }
}

/// `s` moved to the right end of a field that is at least `width` wide.
pub open spec fn right_aligned(s: Seq<char>, width: nat) -> Seq<char> {
    if s.len() >= width {
        s
    } else {
        repeated(' ', (width - s.len()) as nat) + s
    }
}

/// `s` at the left end of a field that is at least `width` wide.
pub open spec fn left_aligned(s: Seq<char>, width: nat) -> Seq<char> {
    if s.len() >= width {
        s
    } else {
        s + repeated(' ', (width - s.len()) as nat)
    }
}

/// `s` moved to the right end of a field that is at least `width` wide.
pub fn align_right(s: &str, width: usize) -> (out: String)
    ensures
        out@ == right_aligned(s@, width as nat),
{
    let n = s.unicode_len();
    let mut out = String::new();
    if n < width {
        push_repeated(&mut out, ' ', width - n);
    }
    out.append(s);
    assert(out@ =~= right_aligned(s@, width as nat));
    out
}

/// `s` at the left end of a field that is at least `width` wide.
pub fn align_left(s: &str, width: usize) -> (out: String)
    ensures
        out@ == left_aligned(s@, width as nat),
{
    let n = s.unicode_len();
    let mut out = String::new();
    out.append(s);
    if n < width {
        push_repeated(&mut out, ' ', width - n);
    }
    assert(out@ =~= left_aligned(s@, width as nat));
    out
}

/// The character of a decimal digit.
pub open spec fn digit_char(d: nat) -> char {
    (0x30 + d) as char
}

/// Whether a character is a decimal digit.
pub open spec fn is_digit(c: char) -> bool {
    '0' <= c <= '9'
}

/// The value of a decimal digit.
pub open spec fn digit_value(c: char) -> nat {
    (c as int - 0x30) as nat
}

/// A number in decimal, without leading zeros.
pub open spec fn decimal(n: nat) -> Seq<char>
    decreases n,
{
    if n < 10 {
        seq![digit_char(n)]
    } else {
        decimal(n / 10).push(digit_char(n % 10))
    }
}

/// A number in decimal, without leading zeros.
pub fn decimal_text(n: u64) -> (out: String)
    ensures
        out@ == decimal(n as nat),
    decreases n,
{
    let mut out = String::new();
    if n >= 10 {
        out = decimal_text(n / 10);
    }
    let d = (n % 10) as u8;
    let c = (0x30 + d) as char;
    out.push(c);
    assert(out@ =~= decimal(n as nat));
    out
}

/// Whether all characters are decimal digits.
pub open spec fn all_digits(s: Seq<char>) -> bool {
    forall|i: int| 0 <= i < s.len() ==> is_digit(#[trigger] s[i])
}

/// The value of a string of decimal digits.
pub open spec fn digits_value(s: Seq<char>) -> nat
    decreases s.len(),
{
    if s.len() == 0 {
        0
    } else {
        10 * digits_value(s.drop_last()) + digit_value(s.last())
    }
}

/// What may stand behind a plus sign, or alone.
pub open spec fn unsigned_part(s: Seq<char>) -> Seq<char> {
    if s.len() > 0 && s[0] == '+' {
        s.drop_first()
    } else {
        s
    }
}

/// The number that a string holds: digits only, at least one, perhaps behind
/// a plus sign, with a value that a `usize` can hold.
pub open spec fn number_in(s: Seq<char>) -> Option<nat> {
    let digits = unsigned_part(s);
    if digits.len() > 0 && all_digits(digits) && digits_value(digits) <= usize::MAX {
        Some(digits_value(digits))
    } else {
        None
    }
}

/// More digits never make a smaller value.
proof fn value_of_prefix(s: Seq<char>, n: int)
    requires
        0 <= n <= s.len(),
    ensures
        digits_value(s.take(n)) <= digits_value(s),
    decreases s.len() - n,
{
    if n == s.len() {
        assert(s.take(n) =~= s);
    } else {
        assert(s.take(n + 1).drop_last() =~= s.take(n));
        value_of_prefix(s, n + 1);
    }
}

/// The number that a string holds, if it holds one.
pub fn parse_number(s: &[char]) -> (out: Option<usize>)
    ensures
        out is Some <==> number_in(s@) is Some,
        out is Some ==> out->0 == number_in(s@)->0,
{
    let start: usize = if s.len() > 0 && s[0] == '+' {
        1
    } else {
        0
    };
    let ghost digits = unsigned_part(s@);
    assert(digits =~= s@.skip(start as int));
    if s.len() == start {
        return None;
    }
    let mut value: usize = 0;
    let mut i: usize = start;
    assert(digits.take(0) =~= Seq::empty());
    while i < s.len()
        invariant
            start <= i <= s.len(),
            digits == s@.skip(start as int),
            digits == unsigned_part(s@),
            digits.len() > 0,
            forall|j: int| 0 <= j < i - start ==> is_digit(#[trigger] digits[j]),
            value == digits_value(digits.take(i - start)),
        decreases s.len() - i,
    {
        let c = s[i];
        let ghost at = i - start;
        assert(digits[at] == c);
        if !('0' <= c && c <= '9') {
            return None;
        }
        let d = (c as u32 - 0x30) as usize;
        proof {
            assert(digits.take(at + 1).drop_last() =~= digits.take(at));
            assert(digits.take(at + 1).last() == c);
            value_of_prefix(digits, at + 1);
        }
        if value > usize::MAX / 10 || value * 10 > usize::MAX - d {
            return None;
        }
        value = value * 10 + d;
        i += 1;
    }
    assert(digits.take(i - start) =~= digits);
    Some(value)
}

/// Reading back a written number gives that number.
pub proof fn written_number_reads_back(n: nat)
    requires
        n <= usize::MAX,
    ensures
        number_in(decimal(n)) == Some(n),
{
    decimal_is_digits(n);
}

/// A number in decimal is made of digits and has its own value.
pub proof fn decimal_is_digits(n: nat)
    ensures
        decimal(n).len() > 0,
        all_digits(decimal(n)),
        digits_value(decimal(n)) == n,
        decimal(n)[0] != '+',
        unsigned_part(decimal(n)) == decimal(n),
    decreases n,
{
    if n < 10 {
        assert(decimal(n).drop_last() =~= Seq::empty());
        reveal_with_fuel(digits_value, 2);
        assert(digit_value(digit_char(n)) == n);
    } else {
        decimal_is_digits(n / 10);
        let front = decimal(n / 10);
        assert(decimal(n).drop_last() =~= front);
        assert(digit_value(digit_char(n % 10)) == n % 10);
        assert forall|i: int| 0 <= i < decimal(n).len() implies is_digit(#[trigger] decimal(n)[i]) by {
            if i < front.len() {
                assert(is_digit(front[i]));
            }
        }
    }
}

/// The characters that count as white space.
pub open spec fn is_space(c: char) -> bool {
    let code = c as u32;
    ||| 0x9 <= code <= 0xd
    ||| code == 0x20
    ||| code == 0x85
    ||| code == 0xa0
    ||| code == 0x1680
    ||| 0x2000 <= code <= 0x200a
    ||| code == 0x2028
    ||| code == 0x2029
    ||| code == 0x202f
    ||| code == 0x205f
    ||| code == 0x3000
}

/// Whether a character counts as white space.
pub fn is_white_space(c: char) -> (space: bool)
    ensures
        space == is_space(c),
{
    let code = c as u32;
    (0x9 <= code && code <= 0xd) || code == 0x20 || code == 0x85 || code == 0xa0 || code == 0x1680
        || (0x2000 <= code && code <= 0x200a) || code == 0x2028 || code == 0x2029 || code == 0x202f
        || code == 0x205f || code == 0x3000
}

/// `s` without the white space that it starts with.
pub open spec fn trimmed_start(s: Seq<char>) -> Seq<char>
    decreases s.len(),
{
    if s.len() > 0 && is_space(s[0]) {
        trimmed_start(s.drop_first())
    } else {
        s
    }
}

/// `s` without the white space that it ends with.
pub open spec fn trimmed_end(s: Seq<char>) -> Seq<char>
    decreases s.len(),
{
    if s.len() > 0 && is_space(s.last()) {
        trimmed_end(s.drop_last())
    } else {
        s
    }
}

/// `s` without the white space at both ends.
pub open spec fn trimmed(s: Seq<char>) -> Seq<char> {
    trimmed_end(trimmed_start(s))
}

/// `s` without the white space at both ends.
pub fn trim(s: &[char]) -> (out: Vec<char>)
    ensures
        out@ == trimmed(s@),
{
    let mut start: usize = 0;
    assert(s@.skip(0) =~= s@);
    while start < s.len() && is_white_space(s[start])
        invariant
            start <= s.len(),
            trimmed_start(s@) == trimmed_start(s@.skip(start as int)),
        decreases s.len() - start,
    {
        assert(s@.skip(start as int).drop_first() =~= s@.skip(start + 1));
        start += 1;
    }
    let ghost front = s@.skip(start as int);
    assert(trimmed_start(s@) == front);
    let mut end: usize = s.len();
    assert(s@.subrange(start as int, end as int) =~= front);
    while end > start && is_white_space(s[end - 1])
        invariant
            start <= end <= s.len(),
            trimmed_end(front) == trimmed_end(s@.subrange(start as int, end as int)),
        decreases end,
    {
        assert(s@.subrange(start as int, end as int).drop_last() =~= s@.subrange(
            start as int,
            end - 1,
        ));
        end -= 1;
    }
    let out = vstd::slice::slice_to_vec(vstd::slice::slice_subrange(s, start, end));
    assert(out@ =~= s@.subrange(start as int, end as int));
    out
}

/// The contents of a list of character strings.
pub open spec fn char_contents(parts: Seq<Vec<char>>) -> Seq<Seq<char>> {
    Seq::new(parts.len(), |i: int| parts[i]@)
}

/// The pieces of `s` between the occurrences of `sep`.
pub fn split_chars(s: &[char], sep: char) -> (out: Vec<Vec<char>>)
    ensures
        char_contents(out@) == split_on(s@, sep),
{
    let mut out: Vec<Vec<char>> = Vec::new();
    let mut piece: Vec<char> = Vec::new();
    let mut i: usize = 0;
    assert(char_contents(out@).push(piece@) =~= split_on(s@.take(0), sep));
    while i < s.len()
        invariant
            i <= s.len(),
            char_contents(out@).push(piece@) == split_on(s@.take(i as int), sep),
        decreases s.len() - i,
    {
        let ghost done = char_contents(out@);
        let ghost current = piece@;
        proof {
            assert(s@.take(i + 1).drop_last() =~= s@.take(i as int));
            assert(done.push(current).drop_last() =~= done);
        }
        let c = s[i];
        if c == sep {
            out.push(piece);
            piece = Vec::new();
            assert(char_contents(out@) =~= done.push(current));
        } else {
            piece.push(c);
        }
        assert(char_contents(out@).push(piece@) =~= split_on(s@.take(i + 1), sep));
        i += 1;
    }
    assert(s@.take(i as int) =~= s@);
    out.push(piece);
    assert(char_contents(out@) =~= split_on(s@, sep));
    out
}

/// The characters of a string.
pub fn chars_of(s: &str) -> (out: Vec<char>)
    ensures
        out@ == s@,
{
    let mut out: Vec<char> = Vec::new();
    for c in it: s.chars()
        invariant
            out@ == it.seq().take(it.index()),
            it.seq() == s@,
    {
        out.push(c);
        assert(it.seq().take(it.index()).push(c) =~= it.seq().take(it.index() + 1));
    }
    assert(out@ =~= s@);
    out
}

/// The string with these characters.
pub fn text_of(chars: &[char]) -> (out: String)
    ensures
        out@ == chars@,
{
    let mut out = String::new();
    let mut i: usize = 0;
    while i < chars.len()
        invariant
            i <= chars.len(),
            out@ =~= chars@.take(i as int),
        decreases chars.len() - i,
    {
        out.push(chars[i]);
        i += 1;
    }
    out
}

/// Whether two strings hold the same characters.
pub fn same_text(a: &str, b: &str) -> (same: bool)
    ensures
        same == (a@ == b@),
{
    a.to_owned() == b.to_owned()
}

/// A styled text is the style, the text, and the code that ends all styles.
pub proof fn styles_end_behind_the_text(style: Seq<char>, body: Seq<char>)
    ensures
        styled(style, body) == style + body + "\x1b[0m"@,
{
}

/// A text that is moved to the right end of a field stands there whole, with
/// nothing but blanks before it, and the field is no wider than it has to be.
pub proof fn right_end_of_a_field(s: Seq<char>, width: nat)
    ensures
        ({
            let t = right_aligned(s, width);
            &&& t.len() == if s.len() < width {
                width
            } else {
                s.len()
            }
            &&& t.skip(t.len() - s.len()) == s
            &&& forall|k: int| 0 <= k < t.len() - s.len() ==> #[trigger] t[k] == ' '
        }),
{
    let t = right_aligned(s, width);
    assert(t.skip(t.len() - s.len()) =~= s);
}

/// A text at the left end of a field stands there whole, with nothing but
/// blanks behind it, and the field is no wider than it has to be.
pub proof fn left_end_of_a_field(s: Seq<char>, width: nat)
    ensures
        ({
            let t = left_aligned(s, width);
            &&& t.len() == if s.len() < width {
                width
            } else {
                s.len()
            }
            &&& t.take(s.len() as int) == s
            &&& forall|k: int| s.len() <= k < t.len() ==> #[trigger] t[k] == ' '
        }),
{
    let t = left_aligned(s, width);
    assert(t.take(s.len() as int) =~= s);
}

/// A repeated character is there so many times, and nothing else.
pub proof fn repeating_is_exact(c: char, n: nat)
    ensures
        repeated(c, n).len() == n,
        forall|k: int| 0 <= k < n ==> #[trigger] repeated(c, n)[k] == c,
{
}

/// A number is written digit by digit to the base ten: that of `10 * n + d`
/// is that of `n` with the digit `d` behind it.
pub proof fn numbers_are_written_to_the_base_ten(n: nat, d: nat, c: char)
    requires
        d < 10,
        c as int == 48 + d,
    ensures
        decimal(d) == seq![c],
        n > 0 ==> decimal(10 * n + d) == decimal(n).push(c),
{
    assert(digit_char(d) == c);
    if n > 0 {
        assert((10 * n + d) / 10 == n && (10 * n + d) % 10 == d);
    }
}

/// Digits are read to the base ten: one more digit makes ten times the value
/// and that digit.
pub proof fn digits_are_read_to_the_base_ten(s: Seq<char>, c: char)
    requires
        '0' <= c <= '9',
    ensures
        digits_value(Seq::empty()) == 0,
        digits_value(s.push(c)) == 10 * digits_value(s) + (c as int - 48),
{
    assert(s.push(c).drop_last() =~= s);
}

/// Digits, at least one, are a number, with or without a plus sign before
/// them, unless their value is too large.
pub proof fn digits_are_a_number(s: Seq<char>)
    requires
        s.len() > 0,
        forall|k: int| 0 <= k < s.len() ==> '0' <= #[trigger] s[k] <= '9',
    ensures
        number_in(s) == if digits_value(s) <= usize::MAX {
            Some(digits_value(s))
        } else {
            None
        },
        number_in(seq!['+'] + s) == number_in(s),
{
    assert('0' <= s[0] <= '9');
    assert((seq!['+'] + s).drop_first() =~= s);
    assert((seq!['+'] + s)[0] == '+');
}

/// What holds anything but digits, a plus sign before them aside, is no
/// number; nor is what holds no digit.
pub proof fn nothing_else_is_a_number(s: Seq<char>, k: int)
    ensures
        number_in(Seq::empty()) is None,
        number_in(seq!['+']) is None,
        0 <= k < s.len() && !('0' <= s[k] <= '9') && !(k == 0 && s[k] == '+') ==> number_in(s)
            is None,
{
    assert(seq!['+'].drop_first() =~= Seq::empty());
    assert(seq!['+'][0] == '+');
    if 0 <= k < s.len() && !('0' <= s[k] <= '9') && !(k == 0 && s[k] == '+') {
        let digits = unsigned_part(s);
        if s[0] == '+' {
            assert(digits[k - 1] == s[k]);
        } else {
            assert(digits[k] == s[k]);
        }
        assert(!all_digits(digits));
    }
}

/// Trimming takes white space off both ends, all of it, and nothing else.
pub proof fn trimming_takes_white_space_off(s: Seq<char>) -> (ends: (int, int))
    ensures
        0 <= ends.0 <= ends.1 <= s.len(),
        trimmed(s) == s.subrange(ends.0, ends.1),
        forall|k: int| 0 <= k < ends.0 ==> is_space(#[trigger] s[k]),
        forall|k: int| ends.1 <= k < s.len() ==> is_space(#[trigger] s[k]),
        ends.0 < ends.1 ==> !is_space(s[ends.0]) && !is_space(s[ends.1 - 1]),
{
    let a = start_of_trimmed(s);
    let front = s.skip(a);
    let b = end_of_trimmed(front);
    assert(s.subrange(a, a + b) =~= front.take(b));
    assert forall|k: int| a + b <= k < s.len() implies is_space(#[trigger] s[k]) by {
        assert(front[k - a] == s[k]);
    }
    if b > 0 {
        assert(front[0] == s[a]);
        assert(front[b - 1] == s[a + b - 1]);
    }
    (a, a + b)
}

/// Where a text begins that is trimmed at its start.
proof fn start_of_trimmed(s: Seq<char>) -> (a: int)
    ensures
        0 <= a <= s.len(),
        trimmed_start(s) == s.skip(a),
        forall|k: int| 0 <= k < a ==> is_space(#[trigger] s[k]),
        a < s.len() ==> !is_space(s[a]),
    decreases s.len(),
{
    if s.len() > 0 && is_space(s[0]) {
        let rest = s.drop_first();
        let a = start_of_trimmed(rest);
        assert(rest.skip(a) =~= s.skip(a + 1));
        assert forall|k: int| 0 <= k < a + 1 implies is_space(#[trigger] s[k]) by {
            if k > 0 {
                assert(rest[k - 1] == s[k]);
            }
        }
        a + 1
    } else {
        assert(s.skip(0) =~= s);
        0
    }
}

/// Where a text ends that is trimmed at its end.
proof fn end_of_trimmed(s: Seq<char>) -> (b: int)
    ensures
        0 <= b <= s.len(),
        trimmed_end(s) == s.take(b),
        forall|k: int| b <= k < s.len() ==> is_space(#[trigger] s[k]),
        b > 0 ==> !is_space(s[b - 1]),
    decreases s.len(),
{
    if s.len() > 0 && is_space(s.last()) {
        let front = s.drop_last();
        let b = end_of_trimmed(front);
        assert(front.take(b) =~= s.take(b));
        assert forall|k: int| b <= k < s.len() implies is_space(#[trigger] s[k]) by {
            if k < front.len() {
                assert(front[k] == s[k]);
            }
        }
        b
    } else {
        assert(s.take(s.len() as int) =~= s);
        s.len() as int
    }
}

/// A number at the right end of a field reads back from the field, blanks
/// aside.
#[verifier::rlimit(60)]
pub proof fn number_in_a_field_reads_back(n: nat, width: nat)
    requires
        n <= usize::MAX,
    ensures
        trimmed(right_aligned(decimal(n), width)) == decimal(n),
        number_in(trimmed(right_aligned(decimal(n), width))) == Some(n),
{
    let digits = decimal(n);
    let field = right_aligned(digits, width);
    decimal_is_digits(n);
    written_number_reads_back(n);
    right_end_of_a_field(digits, width);
    let pad = field.len() - digits.len();
    let ends = trimming_takes_white_space_off(field);
    assert(field.skip(pad) == digits);
    assert(digits.len() > 0);
    assert(field[pad] == field.skip(pad)[0]);
    assert(field[field.len() - 1] == field.skip(pad)[digits.len() - 1]);
    assert(is_digit(digits[0]) && is_digit(digits[digits.len() - 1]));
    assert(!is_space(field[pad]) && !is_space(field[field.len() - 1]));
    assert(ends.0 <= pad && ends.1 == field.len());
    if ends.0 < pad {
        assert(field[ends.0] == ' ');
    }
    assert(field.subrange(pad, field.len() as int) =~= digits);
}

/// A list of texts says what it holds, one by one and in order.
pub proof fn texts_say_what_they_hold(parts: Seq<Vec<char>>, i: int)
    ensures
        char_contents(parts).len() == parts.len(),
        0 <= i < parts.len() ==> char_contents(parts)[i] == parts[i]@,
{
}

} // verus!
