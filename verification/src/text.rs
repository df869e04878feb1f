//! Text as sequences of characters.

use vstd::prelude::*;
use vstd::string::*;

verus! {

/// `String::push`: appends one character.
#[verifier::external_body]
pub(crate) fn push_char(text: &mut String, c: char)
    ensures
        final(text)@ == old(text)@.push(c),
{
    text.push(c);
}

/// `str::to_lowercase`, whose result follows the Unicode case tables.
pub uninterp spec fn lowercase_text(text: Seq<char>) -> Seq<char>;

/// `str::to_lowercase`: the text with every character replaced by its lowercase
/// form.
#[verifier::external_body]
pub(crate) fn lowercase(text: &str) -> (lower: String)
    ensures
        lower@ == lowercase_text(text@),
{
    text.to_lowercase()
}

/// The characters of a text.
pub fn chars_of(text: &str) -> (chars: Vec<char>)
    ensures
        chars@ == text@,
{
    let mut chars: Vec<char> = Vec::new();
    for c in it: text.chars()
        invariant
            chars@ == it.seq().take(it.index() as int),
            it.seq() == text@,
    {
        assert(it.seq().take(it.index() + 1) =~= it.seq().take(it.index() as int).push(it.seq()[it.index() as int]));
        chars.push(c);
    }
    assert(text@.take(text@.len() as int) =~= text@);
    chars
}

/// The text made of the characters from `from` up to `to`.
pub fn text_between(chars: &Vec<char>, from: usize, to: usize) -> (text: String)
    requires
        from <= to <= chars.len(),
    ensures
        text@ == chars@.subrange(from as int, to as int),
{
    let mut text: String = String::new();
    let mut i: usize = from;
    while i < to
        invariant
            from <= i <= to <= chars.len(),
            text@ == chars@.subrange(from as int, i as int),
        decreases to - i,
    {
        assert(chars@.subrange(from as int, i + 1) =~= chars@.subrange(from as int, i as int).push(chars@[i as int]));
        push_char(&mut text, chars[i]);
        i = i + 1;
    }
    text
}

/// Whether two texts hold the same characters.
pub fn same_text(a: &str, b: &str) -> (same: bool)
    ensures
        same == (a@ == b@),
{
    a.to_owned() == b.to_owned()
}

/// One text after the other.
pub fn joined(a: &str, b: &str) -> (text: String)
    ensures
        text@ == a@ + b@,
{
    let mut text: String = a.to_owned();
    text.append(b);
    text
}

/// An optional text, copied.
pub fn copy_text(text: &Option<String>) -> (copy: Option<String>)
    ensures
        copy == *text,
{
    match text {
        Some(value) => Some(value.clone()),
        None => None,
    }
}

/// What an optional text says.
pub open spec fn text_view(text: Option<String>) -> Option<Seq<char>> {
    match text {
        Some(value) => Some(value@),
        None => None,
    }
}

/// Whether two optional texts say the same.
pub fn same_optional_text(a: &Option<String>, b: &Option<String>) -> (same: bool)
    ensures
        same == (text_view(*a) == text_view(*b)),
{
    match (a, b) {
        (Some(x), Some(y)) => same_text(x.as_str(), y.as_str()),
        (None, None) => true,
        _ => false,
    }
}

/// The characters with the White_Space property.
pub open spec fn is_space(c: char) -> bool {
    ||| '\u{9}' <= c <= '\u{d}'
    ||| c == '\u{20}'
    ||| c == '\u{85}'
    ||| c == '\u{a0}'
    ||| c == '\u{1680}'
    ||| '\u{2000}' <= c <= '\u{200a}'
    ||| c == '\u{2028}'
    ||| c == '\u{2029}'
    ||| c == '\u{202f}'
    ||| c == '\u{205f}'
    ||| c == '\u{3000}'
}

/// Whether the character has the White_Space property.
pub fn is_space_char(c: char) -> (space: bool)
    ensures
        space == is_space(c),
{
    ('\u{9}' <= c && c <= '\u{d}') || c == '\u{20}' || c == '\u{85}' || c == '\u{a0}' || c == '\u{1680}' || ('\u{2000}' <= c && c <= '\u{200a}')
        || c == '\u{2028}' || c == '\u{2029}' || c == '\u{202f}' || c == '\u{205f}' || c == '\u{3000}'
}

/// The text without leading white space.
pub open spec fn trim_start_text(text: Seq<char>) -> Seq<char>
    decreases text.len(),
{
    if text.len() > 0 && is_space(text[0]) {
        trim_start_text(text.drop_first())
    } else {
        text
    }
}

/// The text without trailing white space.
pub open spec fn trim_end_text(text: Seq<char>) -> Seq<char>
    decreases text.len(),
{
    if text.len() > 0 && is_space(text.last()) {
        trim_end_text(text.drop_last())
    } else {
        text
    }
}

/// The text without white space at either end.
pub open spec fn trim_text(text: Seq<char>) -> Seq<char> {
    trim_end_text(trim_start_text(text))
}

/// The text without white space at either end.
pub fn trimmed(text: &str) -> (result: String)
    ensures
        result@ == trim_text(text@),
{
    let chars: Vec<char> = chars_of(text);
    let mut from: usize = 0;
    assert(chars@.subrange(0, chars@.len() as int) =~= chars@);
    while from < chars.len() && is_space_char(chars[from])
        invariant
            from <= chars.len(),
            trim_start_text(chars@.subrange(from as int, chars@.len() as int)) == trim_start_text(chars@),
        decreases chars.len() - from,
    {
        assert(chars@.subrange(from as int, chars@.len() as int).drop_first() =~= chars@.subrange(from + 1, chars@.len() as int));
        from = from + 1;
    }
    let ghost rest = chars@.subrange(from as int, chars@.len() as int);
    assert(trim_start_text(chars@) == rest);
    let mut to: usize = chars.len();
    while to > from && is_space_char(chars[to - 1])
        invariant
            from <= to <= chars.len(),
            trim_end_text(chars@.subrange(from as int, to as int)) == trim_end_text(rest),
        decreases to,
    {
        assert(chars@.subrange(from as int, to as int).drop_last() =~= chars@.subrange(from as int, to - 1));
        to = to - 1;
    }
    text_between(&chars, from, to)
}

/// The decimal digit of a number below ten.
pub open spec fn digit_char(digit: int) -> char {
    if digit == 0 { '0' } else if digit == 1 { '1' } else if digit == 2 { '2' } else if digit == 3 { '3' } else if digit == 4 { '4' }
    else if digit == 5 { '5' } else if digit == 6 { '6' } else if digit == 7 { '7' } else if digit == 8 { '8' } else if digit == 9 { '9' }
    else if digit == 10 { 'a' } else if digit == 11 { 'b' } else if digit == 12 { 'c' } else if digit == 13 { 'd' } else if digit == 14 { 'e' } else { 'f' }
}

/// The digit of a number below sixteen.
pub fn digit_of(digit: u64) -> (c: char)
    requires
        digit < 16,
    ensures
        c == digit_char(digit as int),
{
    if digit == 0 { '0' } else if digit == 1 { '1' } else if digit == 2 { '2' } else if digit == 3 { '3' } else if digit == 4 { '4' }
    else if digit == 5 { '5' } else if digit == 6 { '6' } else if digit == 7 { '7' } else if digit == 8 { '8' } else if digit == 9 { '9' }
    else if digit == 10 { 'a' } else if digit == 11 { 'b' } else if digit == 12 { 'c' } else if digit == 13 { 'd' } else if digit == 14 { 'e' } else { 'f' }
}

/// A number in decimal, without leading zeros.
pub open spec fn decimal_text(n: nat) -> Seq<char>
    decreases n,
{
    if n < 10 {
        seq![digit_char(n as int)]
    } else {
        decimal_text(n / 10).push(digit_char((n % 10) as int))
    }
}

/// A number in decimal, without leading zeros.
pub fn decimal(n: u64) -> (text: String)
    ensures
        text@ == decimal_text(n as nat),
    decreases n,
{
    if n < 10 {
        let mut text: String = String::new();
        push_char(&mut text, digit_of(n));
        assert(text@ =~= decimal_text(n as nat));
        text
    } else {
        let mut text: String = decimal(n / 10);
        push_char(&mut text, digit_of(n % 10));
        text
    }
}

/// The lowest `width` digits of a number in the given base, highest first.
pub open spec fn fixed_digits(n: int, base: int, width: nat) -> Seq<char>
    decreases width,
{
    if width == 0 {
        Seq::empty()
    } else {
        fixed_digits(n / base, base, (width - 1) as nat).push(digit_char(n % base))
    }
}

/// The lowest `width` digits of a number in base ten or sixteen, highest first.
pub fn digits_of_width(n: u64, base: u64, width: usize) -> (text: String)
    requires
        base == 10 || base == 16,
    ensures
        text@ == fixed_digits(n as int, base as int, width as nat),
    decreases width,
{
    if width == 0 {
        let text: String = String::new();
        assert(text@ =~= fixed_digits(n as int, base as int, 0));
        text
    } else {
        let mut text: String = digits_of_width(n / base, base, width - 1);
        push_char(&mut text, digit_of(n % base));
        text
    }
}

/// The value of a decimal digit.
pub open spec fn digit_value(c: char) -> int {
    c as int - '0' as int
}

/// Whether the character is a decimal digit.
pub open spec fn is_digit(c: char) -> bool {
    '0' <= c <= '9'
}

/// Whether every character is a decimal digit.
pub open spec fn all_digits(text: Seq<char>) -> bool {
    forall|i: int| 0 <= i < text.len() ==> is_digit(#[trigger] text[i])
}

/// The number that decimal digits write.
pub open spec fn digits_value(text: Seq<char>) -> int
    decreases text.len(),
{
    if text.len() == 0 {
        0
    } else {
        digits_value(text.drop_last()) * 10 + digit_value(text.last())
    }
}

/// The number that a text writes: an optional plus sign and at least one digit,
/// at most the limit.
pub open spec fn parsed_number(text: Seq<char>, limit: int) -> Option<int> {
    let digits = if text.len() > 0 && text[0] == '+' { text.drop_first() } else { text };
    if digits.len() > 0 && all_digits(digits) && digits_value(digits) <= limit {
        Some(digits_value(digits))
    } else {
        None
    }
}

proof fn digits_value_grows(text: Seq<char>, k: int)
    requires
        all_digits(text),
        0 <= k <= text.len(),
    ensures
        0 <= digits_value(text.take(k)) <= digits_value(text),
    decreases text.len(),
{
    if k == text.len() {
        assert(text.take(k) =~= text);
        if text.len() > 0 {
            assert(all_digits(text.drop_last()));
            digits_value_grows(text.drop_last(), k - 1);
        }
    } else {
        assert(all_digits(text.drop_last()));
        digits_value_grows(text.drop_last(), k);
        assert(text.drop_last().take(k) =~= text.take(k));
        assert(is_digit(text[text.len() - 1]));
    }
}

/// Reads an unsigned decimal number of at most `limit`.
pub fn parse_number(text: &str, limit: u64) -> (number: Option<u64>)
    ensures
        match parsed_number(text@, limit as int) {
            Some(value) => number == Some(value as u64) && 0 <= value <= u64::MAX,
            None => number is None,
        },
{
    let chars: Vec<char> = chars_of(text);
    let start: usize = if chars.len() > 0 && chars[0] == '+' { 1 } else { 0 };
    let ghost digits = if text@.len() > 0 && text@[0] == '+' { text@.drop_first() } else { text@ };
    assert(digits =~= chars@.subrange(start as int, chars@.len() as int));
    if start >= chars.len() {
        return None;
    }
    let mut value: u64 = 0;
    let mut i: usize = start;
    while i < chars.len()
        invariant
            start <= i <= chars.len(),
            start < chars.len(),
            digits == chars@.subrange(start as int, chars@.len() as int),
            all_digits(digits.take(i - start)),
            value == digits_value(digits.take(i - start)),
            value <= limit,
            parsed_number(text@, limit as int) == (if digits.len() > 0 && all_digits(digits) && digits_value(digits) <= limit {
                Some(digits_value(digits))
            } else {
                None
            }),
        decreases chars.len() - i,
    {
        let c: char = chars[i];
        assert(digits[i - start] == c);
        if !('0' <= c && c <= '9') {
            assert(!all_digits(digits));
            return None;
        }
        let digit: u64 = (c as u32 - 48) as u64;
        assert(digits.take(i - start + 1).drop_last() =~= digits.take(i - start));
        assert(digits.take(i - start + 1).last() == c);
        assert(all_digits(digits.take(i - start + 1))) by {
            assert forall|k: int| 0 <= k < i - start + 1 implies is_digit(#[trigger] digits.take(i - start + 1)[k]) by {
                if k < i - start {
                    assert(digits.take(i - start)[k] == digits[k]);
                }
            }
        }
        let wide: u128 = value as u128 * 10 + digit as u128;
        assert(wide == digits_value(digits.take(i - start + 1)));
        if wide > limit as u128 {
            proof {
                if all_digits(digits) {
                    digits_value_grows(digits, i - start + 1);
                }
            }
            return None;
        }
        value = wide as u64;
        i = i + 1;
    }
    assert(digits.take(i - start) =~= digits);
    Some(value)
}

/// The number that a text writes, with a minus sign before it or not; nothing where
/// it writes none, or one that has no room.
pub open spec fn parsed_integer(text: Seq<char>) -> Option<i64> {
    if text.len() > 0 && text[0] == '-' {
        let digits = text.drop_first();
        if digits.len() > 0 && all_digits(digits) && digits_value(digits) <= 0x8000_0000_0000_0000 { Some((-digits_value(digits)) as i64) } else { None }
    } else {
        match parsed_number(text, i64::MAX as int) {
            Some(value) => Some(value as i64),
            None => None,
        }
    }
}

/// Reads a decimal number with a sign or without.
pub fn parse_integer(text: &str) -> (number: Option<i64>)
    ensures
        number == parsed_integer(text@),
{
    let chars: Vec<char> = chars_of(text);
    if chars.len() == 0 || chars[0] != '-' {
        return match parse_number(text, 0x7FFF_FFFF_FFFF_FFFF) {
            Some(value) => Some(value as i64),
            None => None,
        };
    }
    let digits: String = text_between(&chars, 1, chars.len());
    assert(digits@ =~= text@.drop_first());
    if chars.len() > 1 && chars[1] == '+' {
        assert(digits@[0] == '+');
        assert(!is_digit('+'));
        return None;
    }
    match parse_number(digits.as_str(), 0x8000_0000_0000_0000) {
        Some(value) => {
            let size: i128 = value as i128;
            Some((-size) as i64)
        },
        None => None,
    }
}

/// Whether a text occurs in another, at any place.
pub open spec fn occurs_in(part: Seq<char>, whole: Seq<char>) -> bool {
    exists|at: int| 0 <= at <= whole.len() - part.len() && #[trigger] whole.subrange(at, at + part.len()) == part
}

/// Whether the characters at a place are the given ones.
pub fn matches_at(whole: &Vec<char>, part: &Vec<char>, at: usize) -> (matches: bool)
    requires
        at + part.len() <= whole.len(),
    ensures
        matches == (whole@.subrange(at as int, at + part@.len()) == part@),
{
    let mut i: usize = 0;
    while i < part.len()
        invariant
            i <= part.len(),
            at + part.len() <= whole.len(),
            forall|k: int| 0 <= k < i ==> whole@[at + k] == #[trigger] part@[k],
        decreases part.len() - i,
    {
        if whole[at + i] != part[i] {
            assert(whole@.subrange(at as int, at + part@.len())[i as int] == whole@[at + i]);
            return false;
        }
        i = i + 1;
    }
    assert(whole@.subrange(at as int, at + part@.len()) =~= part@);
    true
}

/// Whether a text occurs in another.
pub fn contains_text(whole: &str, part: &str) -> (found: bool)
    ensures
        found == occurs_in(part@, whole@),
{
    let chars: Vec<char> = chars_of(whole);
    let wanted: Vec<char> = chars_of(part);
    if wanted.len() > chars.len() {
        return false;
    }
    let last: usize = chars.len() - wanted.len();
    let mut at: usize = 0;
    loop
        invariant
            at <= last,
            last == chars.len() - wanted.len(),
            wanted.len() <= chars.len(),
            chars@ == whole@,
            wanted@ == part@,
            forall|k: int| 0 <= k < at ==> #[trigger] whole@.subrange(k, k + part@.len()) != part@,
        decreases last - at,
    {
        if matches_at(&chars, &wanted, at) {
            return true;
        }
        if at == last {
            return false;
        }
        at = at + 1;
    }
}

/// A letter of the Latin alphabet in lower case; any other character as it is.
pub open spec fn ascii_lower(c: char) -> char {
    if 'A' <= c <= 'Z' { ((c as u8) + 32) as u8 as char } else { c }
}

/// A text with the letters of the Latin alphabet in lower case.
pub open spec fn ascii_lower_text(text: Seq<char>) -> Seq<char> {
    Seq::new(text.len(), |i: int| ascii_lower(text[i]))
}

/// The text with the letters of the Latin alphabet in lower case.
pub fn ascii_lowercase(text: &str) -> (lower: String)
    ensures
        lower@ == ascii_lower_text(text@),
{
    let chars: Vec<char> = chars_of(text);
    let mut lower: String = String::new();
    let mut i: usize = 0;
    assert(lower@ =~= ascii_lower_text(text@).take(0));
    while i < chars.len()
        invariant
            i <= chars.len(),
            chars@ == text@,
            lower@ == ascii_lower_text(text@).take(i as int),
        decreases chars.len() - i,
    {
        let c: char = chars[i];
        if 'A' <= c && c <= 'Z' {
            push_char(&mut lower, ((c as u8) + 32) as char);
        } else {
            push_char(&mut lower, c);
        }
        i = i + 1;
        assert(lower@ =~= ascii_lower_text(text@).take(i as int));
    }
    assert(ascii_lower_text(text@).take(i as int) =~= ascii_lower_text(text@));
    lower
}

/// Whether a text begins with another.
pub open spec fn begins_with(text: Seq<char>, part: Seq<char>) -> bool {
    part.len() <= text.len() && text.take(part.len() as int) == part
}

/// Whether a text begins with another.
pub fn starts_with(text: &str, part: &str) -> (begins: bool)
    ensures
        begins == begins_with(text@, part@),
{
    let whole: Vec<char> = chars_of(text);
    let start: Vec<char> = chars_of(part);
    if start.len() > whole.len() {
        return false;
    }
    let mut i: usize = 0;
    while i < start.len()
        invariant
            i <= start.len(),
            start.len() <= whole.len(),
            whole@ == text@,
            start@ == part@,
            forall|k: int| 0 <= k < i ==> whole@[k] == start@[k],
        decreases start.len() - i,
    {
        if whole[i] != start[i] {
            assert(text@.take(part@.len() as int)[i as int] != part@[i as int]);
            return false;
        }
        i = i + 1;
    }
    assert(text@.take(part@.len() as int) =~= part@);
    true
}

proof fn trimmed_end_is_trimmed(text: Seq<char>)
    ensures
        trim_end_text(text).len() <= text.len(),
        trim_end_text(text) == text.take(trim_end_text(text).len() as int),
        trim_end_text(text).len() > 0 ==> !is_space(trim_end_text(text).last()),
    decreases text.len(),
{
    if text.len() > 0 && is_space(text.last()) {
        trimmed_end_is_trimmed(text.drop_last());
        let n = trim_end_text(text).len() as int;
        assert(text.drop_last().take(n) =~= text.take(n));
    } else {
        assert(text.take(text.len() as int) =~= text);
    }
}

proof fn trimmed_start_is_trimmed(text: Seq<char>)
    ensures
        trim_start_text(text).len() > 0 ==> !is_space(trim_start_text(text)[0]),
    decreases text.len(),
{
    if text.len() > 0 && is_space(text[0]) {
        trimmed_start_is_trimmed(text.drop_first());
    }
}

/// Taking white space away from both ends leaves none there.
pub proof fn trimming_twice(text: Seq<char>)
    ensures
        trim_text(trim_text(text)) == trim_text(text),
{
    let start = trim_start_text(text);
    let once = trim_end_text(start);
    trimmed_start_is_trimmed(text);
    trimmed_end_is_trimmed(start);
    if once.len() > 0 {
        assert(once[0] == start[0]);
        assert(trim_start_text(once) == once);
        assert(trim_end_text(once) == once);
    }
}

} // verus!
