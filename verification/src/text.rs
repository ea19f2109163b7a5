//! Text building blocks: numbers, bytes and characters.
use vstd::prelude::*;
use vstd::string::StringExecFns;

verus! {

/// `String::push` appends one character at the end of the string.
pub assume_specification[ String::push ](s: &mut String, c: char)
    ensures
        final(s)@ == old(s)@.push(c),
;

/// The character that stands for `d` in a positional notation up to base 16.
pub open spec fn digit_char(d: int) -> char {
    if d < 10 {
        ('0' as int + d) as char
    } else {
        ('a' as int + (d - 10)) as char
    }
}

/// `n` written in base `radix`, most significant digit first, without leading
/// zeros; zero is the single digit `0`.
pub open spec fn digits(n: nat, radix: nat) -> Seq<char>
    decreases n,
{
    if radix < 2 {
        seq![]
    } else if n < radix {
        seq![digit_char(n as int)]
    } else {
        proof {
            assert(n / radix < n) by (nonlinear_arith)
                requires
                    n >= radix,
                    radix >= 2,
            ;
        }
        digits(n / radix, radix).push(digit_char((n % radix) as int))
    }
}

/// Decimal notation.
pub open spec fn decimal(n: nat) -> Seq<char> {
    digits(n, 10)
}

/// The UTF-8 bytes of a text.
pub open spec fn utf8(text: Seq<char>) -> Seq<u8> {
    vstd::utf8::encode_utf8(text)
}

/// Appends one digit.
fn push_digit(out: &mut String, d: u64)
    requires
        d < 16,
    ensures
        final(out)@ == old(out)@.push(digit_char(d as int)),
{
    let code: u8 = if d < 10 { 48u8 + d as u8 } else { 97u8 + (d - 10) as u8 };
    out.push(code as char);
}

/// Appends `n` in the given base.
pub fn push_number(out: &mut String, n: u64, radix: u64)
    requires
        2 <= radix <= 16,
    ensures
        final(out)@ == old(out)@ + digits(n as nat, radix as nat),
    decreases n,
{
    if n >= radix {
        proof {
            assert(n / radix < n) by (nonlinear_arith)
                requires
                    n >= radix,
                    radix >= 2,
            ;
        }
        push_number(out, n / radix, radix);
    }
    push_digit(out, n % radix);
    proof {
        if n >= radix {
            assert(digits(n as nat, radix as nat) == digits(
                (n / radix) as nat,
                radix as nat,
            ).push(digit_char((n % radix) as int)));
        } else {
            assert(n % radix == n) by (nonlinear_arith)
                requires
                    n < radix,
            ;
        }
        assert(out@ =~= old(out)@ + digits(n as nat, radix as nat));
    }
}

/// `n` in decimal.
pub fn decimal_text(n: u64) -> (text: String)
    ensures
        text@ == decimal(n as nat),
{
    let mut out = String::new();
    push_number(&mut out, n, 10);
    proof {
        assert(out@ =~= decimal(n as nat));
    }
    out
}

/// Appends a string slice to a string.
pub fn push_str(out: &mut String, text: &str)
    ensures
        final(out)@ == old(out)@ + text@,
{
    out.append(text);
}

/// Three texts in a row.
pub fn join3(first: &str, second: &str, third: &str) -> (text: String)
    ensures
        text@ == first@ + second@ + third@,
{
    let mut out = String::new();
    push_str(&mut out, first);
    push_str(&mut out, second);
    push_str(&mut out, third);
    proof {
        assert(out@ =~= first@ + second@ + third@);
    }
    out
}

/// Appends the bytes of `bytes` to `out`.
pub fn push_bytes(out: &mut Vec<u8>, bytes: &[u8])
    ensures
        final(out)@ == old(out)@ + bytes@,
{
    out.extend_from_slice(bytes);
    proof {
        assert(out@ =~= old(out)@ + bytes@);
    }
}

/// Appends the UTF-8 bytes of `text` to `out`.
pub fn push_text(out: &mut Vec<u8>, text: &str)
    ensures
        final(out)@ == old(out)@ + utf8(text@),
{
    push_bytes(out, text.as_bytes());
}

/// A copy of a byte slice.
pub fn copy_bytes(bytes: &[u8]) -> (copy: Vec<u8>)
    ensures
        copy@ == bytes@,
{
    let mut copy: Vec<u8> = Vec::new();
    push_bytes(&mut copy, bytes);
    proof {
        assert(copy@ =~= bytes@);
    }
    copy
}

/// A copy of part of a byte slice.
pub fn copy_range(bytes: &[u8], from: usize, to: usize) -> (copy: Vec<u8>)
    requires
        from <= to <= bytes@.len(),
    ensures
        copy@ == bytes@.subrange(from as int, to as int),
{
    copy_bytes(vstd::slice::slice_subrange(bytes, from, to))
}

/// Whether two byte slices hold the same bytes.
pub fn same_bytes(a: &[u8], b: &[u8]) -> (same: bool)
    ensures
        same == (a@ == b@),
{
    if a.len() != b.len() {
        return false;
    }
    let mut i: usize = 0;
    while i < a.len()
        invariant
            i <= a@.len(),
            a@.len() == b@.len(),
            forall|j: int| 0 <= j < i ==> a@[j] == b@[j],
        decreases a@.len() - i,
    {
        if a[i] != b[i] {
            return false;
        }
        i += 1;
    }
    proof {
        assert(a@ =~= b@);
    }
    true
}

/// The characters of a string slice.
pub fn chars_of(text: &str) -> (chars: Vec<char>)
    ensures
        chars@ == text@,
{
    let mut chars: Vec<char> = Vec::new();
    for c in iter: text.chars()
        invariant
            chars@ == text@.take(iter.index()),
            iter.seq() == text@,
    {
        chars.push(c);
    }
    proof {
        assert(text@.take(text@.len() as int) =~= text@);
    }
    chars
}

/// The string made of part of a list of characters.
pub fn text_of(chars: &[char], from: usize, to: usize) -> (text: String)
    requires
        from <= to <= chars@.len(),
    ensures
        text@ == chars@.subrange(from as int, to as int),
{
    let mut text = String::new();
    let mut i: usize = from;
    while i < to
        invariant
            from <= i <= to <= chars@.len(),
            text@ == chars@.subrange(from as int, i as int),
        decreases to - i,
    {
        text.push(chars[i]);
        i += 1;
        proof {
            assert(text@ =~= chars@.subrange(from as int, i as int));
        }
    }
    text
}

/// Whether two lists of characters spell the same text.
pub fn same_chars(a: &[char], b: &[char]) -> (same: bool)
    ensures
        same == (a@ == b@),
{
    if a.len() != b.len() {
        return false;
    }
    let mut i: usize = 0;
    while i < a.len()
        invariant
            i <= a@.len(),
            a@.len() == b@.len(),
            forall|j: int| 0 <= j < i ==> a@[j] == b@[j],
        decreases a@.len() - i,
    {
        if a[i] != b[i] {
            return false;
        }
        i += 1;
    }
    proof {
        assert(a@ =~= b@);
    }
    true
}

/// Whether two string slices spell the same text.
pub fn same_text(a: &str, b: &str) -> (same: bool)
    ensures
        same == (a@ == b@),
{
    let a = chars_of(a);
    let b = chars_of(b);
    same_chars(a.as_slice(), b.as_slice())
}

/// Why a text is not a number in range.
#[derive(Clone, Copy, Debug, PartialEq, Eq, Structural)]
pub enum NumberError {
    Empty,
    InvalidDigit,
    TooLarge,
}

impl NumberError {
    pub open spec fn text(self) -> Seq<char> {
        match self {
            NumberError::Empty => "cannot parse integer from empty string"@,
            NumberError::InvalidDigit => "invalid digit found in string"@,
            NumberError::TooLarge => "number too large to fit in target type"@,
        }
    }

    pub fn message(self) -> (message: String)
        ensures
            message@ == self.text(),
    {
        match self {
            NumberError::Empty => "cannot parse integer from empty string".to_string(),
            NumberError::InvalidDigit => "invalid digit found in string".to_string(),
            NumberError::TooLarge => "number too large to fit in target type".to_string(),
        }
    }
}

/// The value of a digit in base `radix`, letters in either case.
pub open spec fn digit_value(c: char, radix: int) -> Option<int> {
    let value = if '0' <= c <= '9' {
        c as int - '0' as int
    } else if 'a' <= c <= 'z' {
        c as int - 'a' as int + 10
    } else if 'A' <= c <= 'Z' {
        c as int - 'A' as int + 10
    } else {
        radix
    };
    if value < radix {
        Some(value)
    } else {
        None
    }
}

/// Reads digits from left to right; the first character that is no digit, or
/// that takes the number beyond `max`, decides the error.
pub open spec fn read_digits(digits: Seq<char>, radix: int, max: int) -> Result<int, NumberError>
    decreases digits.len(),
{
    if digits.len() == 0 {
        Ok(0)
    } else {
        match read_digits(digits.drop_last(), radix, max) {
            Err(error) => Err(error),
            Ok(value) => match digit_value(digits.last(), radix) {
                None => Err(NumberError::InvalidDigit),
                Some(digit) => if value * radix + digit > max {
                    Err(NumberError::TooLarge)
                } else {
                    Ok(value * radix + digit)
                },
            },
        }
    }
}

/// Reads an unsigned number: digits, with at most one plus sign in front.
pub open spec fn read_number(text: Seq<char>, radix: int, max: int) -> Result<int, NumberError> {
    if text.len() == 0 {
        Err(NumberError::Empty)
    } else if text[0] == '+' && text.len() > 1 {
        read_digits(text.skip(1), radix, max)
    } else {
        read_digits(text, radix, max)
    }
}

/// An error met in a prefix is the error of the whole.
proof fn first_error_decides(digits: Seq<char>, prefix: int, radix: int, max: int)
    requires
        0 <= prefix <= digits.len(),
        read_digits(digits.take(prefix), radix, max) is Err,
    ensures
        read_digits(digits, radix, max) == read_digits(digits.take(prefix), radix, max),
    decreases digits.len(),
{
    if prefix == digits.len() {
        assert(digits.take(prefix) =~= digits);
    } else {
        assert(digits.drop_last().take(prefix) =~= digits.take(prefix));
        first_error_decides(digits.drop_last(), prefix, radix, max);
    }
}

/// A number that was written in base 10 or 16 reads back as itself, as long as
/// it does not exceed the limit.
pub proof fn written_numbers_read_back(n: nat, radix: nat, max: int)
    requires
        radix == 10 || radix == 16,
        n <= max,
    ensures
        digits(n, radix).len() > 0,
        read_digits(digits(n, radix), radix as int, max) == Ok::<int, NumberError>(n as int),
        read_number(digits(n, radix), radix as int, max) == Ok::<int, NumberError>(n as int),
    decreases n,
{
    let written = digits(n, radix);
    if n < radix {
        assert(written.drop_last() =~= Seq::<char>::empty());
        reveal_with_fuel(read_digits, 2);
        assert(written.last() == digit_char(n as int));
    } else {
        let high = n / radix;
        let low = n % radix;
        assert(high < n) by (nonlinear_arith)
            requires
                n >= radix,
                radix >= 2,
                high == n / radix,
        ;
        assert(high * radix + low == n) by (nonlinear_arith)
            requires
                radix >= 2,
                high == n / radix,
                low == n % radix,
        ;
        written_numbers_read_back(high, radix, max);
        assert(written.drop_last() =~= digits(high, radix));
        assert(written.last() == digit_char(low as int));
    }
    first_digit_is_no_sign(n, radix);
}

/// A written number starts with a digit.
proof fn first_digit_is_no_sign(n: nat, radix: nat)
    requires
        radix == 10 || radix == 16,
    ensures
        digits(n, radix).len() > 0,
        digits(n, radix)[0] != '+',
    decreases n,
{
    if n >= radix {
        assert(n / radix < n) by (nonlinear_arith)
            requires
                n >= radix,
                radix >= 2,
        ;
        first_digit_is_no_sign(n / radix, radix);
    }
}

fn digit_of(c: char, radix: u64) -> (digit: Option<u64>)
    requires
        2 <= radix <= 36,
    ensures
        match digit {
            Some(d) => digit_value(c, radix as int) == Some(d as int) && d < radix,
            None => digit_value(c, radix as int) is None,
        },
{
    let code: u32 = c as u32;
    let value: u64 = if code >= 48 && code <= 57 {
        (code - 48) as u64
    } else if code >= 97 && code <= 122 {
        (code - 97) as u64 + 10
    } else if code >= 65 && code <= 90 {
        (code - 65) as u64 + 10
    } else {
        radix
    };
    if value < radix {
        Some(value)
    } else {
        None
    }
}

/// Reads an unsigned number up to `max`.
pub fn parse_number(text: &[char], radix: u64, max: u64) -> (result: Result<u64, NumberError>)
    requires
        2 <= radix <= 36,
    ensures
        match result {
            Ok(value) => read_number(text@, radix as int, max as int) == Ok::<int, NumberError>(
                value as int,
            ),
            Err(error) => read_number(text@, radix as int, max as int) == Err::<int, NumberError>(
                error,
            ),
        },
{
    if text.len() == 0 {
        return Err(NumberError::Empty);
    }
    let start: usize = if text[0] == '+' && text.len() > 1 { 1 } else { 0 };
    let ghost digits = text@.skip(start as int);
    proof {
        assert(text@.skip(0) =~= text@);
        assert(digits.take(0) =~= Seq::<char>::empty());
    }
    let mut value: u64 = 0;
    let mut i: usize = start;
    while i < text.len()
        invariant
            start <= i <= text@.len(),
            2 <= radix <= 36,
            digits == text@.skip(start as int),
            read_number(text@, radix as int, max as int) == read_digits(
                digits,
                radix as int,
                max as int,
            ),
            read_digits(digits.take(i - start), radix as int, max as int) == Ok::<
                int,
                NumberError,
            >(value as int),
        decreases text@.len() - i,
    {
        let ghost seen = digits.take(i - start + 1);
        proof {
            assert(seen.drop_last() =~= digits.take(i - start));
            assert(seen.last() == text@[i as int]);
        }
        match digit_of(text[i], radix) {
            None => {
                proof {
                    first_error_decides(digits, i - start + 1, radix as int, max as int);
                }
                return Err(NumberError::InvalidDigit);
            },
            Some(digit) => {
                proof {
                    assert(value * radix <= u64::MAX * 36) by (nonlinear_arith)
                        requires
                            value <= u64::MAX,
                            radix <= 36,
                    ;
                }
                let next: u128 = value as u128 * radix as u128 + digit as u128;
                if next > max as u128 {
                    proof {
                        first_error_decides(digits, i - start + 1, radix as int, max as int);
                    }
                    return Err(NumberError::TooLarge);
                }
                value = next as u64;
            },
        }
        i += 1;
    }
    proof {
        assert(digits.take(digits.len() as int) =~= digits);
    }
    Ok(value)
}

/// The parts of `text` between separators, one more than there are separators.
pub open spec fn split_at_char(text: Seq<char>, separator: char) -> Seq<Seq<char>>
    decreases text.len(),
{
    if text.len() == 0 {
        seq![seq![]]
    } else {
        let parts = split_at_char(text.drop_last(), separator);
        if text.last() == separator {
            parts.push(seq![])
        } else {
            parts.drop_last().push(parts.last().push(text.last()))
        }
    }
}

/// The views of a list of texts.
pub open spec fn text_views(parts: Seq<Vec<char>>) -> Seq<Seq<char>> {
    Seq::new(parts.len(), |i: int| parts[i]@)
}

/// Splits a text at every separator.
pub fn split_chars(text: &[char], separator: char) -> (parts: Vec<Vec<char>>)
    ensures
        text_views(parts@) == split_at_char(text@, separator),
        parts@.len() >= 1,
{
    let mut parts: Vec<Vec<char>> = Vec::new();
    let mut current: Vec<char> = Vec::new();
    let mut i: usize = 0;
    proof {
        assert(text@.take(0) =~= Seq::<char>::empty());
        assert(text_views(parts@).push(current@) =~= seq![seq![]]);
    }
    while i < text.len()
        invariant
            i <= text@.len(),
            text_views(parts@).push(current@) == split_at_char(text@.take(i as int), separator),
        decreases text@.len() - i,
    {
        let ghost before = text_views(parts@).push(current@);
        let c = text[i];
        proof {
            assert(text@.take(i as int + 1).drop_last() =~= text@.take(i as int));
            assert(text@.take(i as int + 1).last() == c);
            assert(before.drop_last() =~= text_views(parts@));
        }
        if c == separator {
            parts.push(current);
            current = Vec::new();
            proof {
                assert(text_views(parts@) =~= before);
                assert(text_views(parts@).push(current@) =~= before.push(seq![]));
            }
        } else {
            current.push(c);
        }
        i += 1;
    }
    parts.push(current);
    proof {
        assert(text@.take(text@.len() as int) =~= text@);
        assert(text_views(parts@) =~= text_views(parts@.drop_last()).push(current@));
    }
    parts
}

/// The parts of `text` between double dots, taken from left to right.
pub open spec fn split_at_dots(text: Seq<char>) -> Seq<Seq<char>>
    decreases text.len(),
{
    match first_dots(text) {
        Some(i) => if 0 <= i && i + 2 <= text.len() {
            seq![text.take(i)] + split_at_dots(text.skip(i + 2))
        } else {
            seq![text]
        },
        None => seq![text],
    }
}

/// The position of the first double dot.
pub open spec fn first_dots(text: Seq<char>) -> Option<int>
    decreases text.len(),
{
    if text.len() < 2 {
        None
    } else if text[0] == '.' && text[1] == '.' {
        Some(0)
    } else {
        match first_dots(text.skip(1)) {
            Some(i) => Some(i + 1),
            None => None,
        }
    }
}

/// Finds the first double dot at or behind `from`.
fn find_dots(text: &[char], from: usize) -> (position: Option<usize>)
    requires
        from <= text@.len(),
    ensures
        match position {
            Some(i) => first_dots(text@.skip(from as int)) == Some(i - from) && from <= i && i + 2
                <= text@.len(),
            None => first_dots(text@.skip(from as int)) is None,
        },
{
    let mut i: usize = from;
    while text.len() - i >= 2
        invariant
            from <= i <= text@.len(),
            first_dots(text@.skip(from as int)) == (match first_dots(text@.skip(i as int)) {
                Some(k) => Some(k + i - from),
                None => None,
            }),
        decreases text@.len() - i,
    {
        if text[i] == '.' && text[i + 1] == '.' {
            return Some(i);
        }
        proof {
            assert(text@.skip(i as int).skip(1) =~= text@.skip(i as int + 1));
        }
        i += 1;
    }
    None
}

/// Splits a text at every double dot.
pub fn split_dots(text: &[char]) -> (parts: Vec<Vec<char>>)
    ensures
        text_views(parts@) == split_at_dots(text@),
        parts@.len() >= 1,
{
    let mut parts: Vec<Vec<char>> = Vec::new();
    let mut from: usize = 0;
    let len: usize = text.len();
    proof {
        assert(text@.skip(0) =~= text@);
        assert(text_views(parts@) + split_at_dots(text@) =~= split_at_dots(text@));
    }
    loop
        invariant
            from <= len,
            len == text@.len(),
            text_views(parts@) + split_at_dots(text@.skip(from as int)) == split_at_dots(text@),
        decreases text@.len() - from,
    {
        let ghost rest = text@.skip(from as int);
        let ghost before = text_views(parts@);
        match find_dots(text, from) {
            Some(i) => {
                let part = copy_chars(text, from, i);
                proof {
                    assert(part@ =~= rest.take(i - from));
                    assert(rest.skip(i - from + 2) =~= text@.skip(i as int + 2));
                }
                parts.push(part);
                proof {
                    assert(text_views(parts@) =~= before.push(part@));
                    assert(before + split_at_dots(rest) =~= before.push(part@) + split_at_dots(
                        text@.skip(i as int + 2),
                    ));
                }
                from = i + 2;
            },
            None => {
                let part = copy_chars(text, from, text.len());
                proof {
                    assert(part@ =~= rest);
                }
                parts.push(part);
                proof {
                    assert(text_views(parts@) =~= before + split_at_dots(rest));
                }
                return parts;
            },
        }
    }
}

/// A copy of part of a list of characters.
pub fn copy_chars(chars: &[char], from: usize, to: usize) -> (copy: Vec<char>)
    requires
        from <= to <= chars@.len(),
    ensures
        copy@ == chars@.subrange(from as int, to as int),
{
    let mut copy: Vec<char> = Vec::new();
    let mut i: usize = from;
    while i < to
        invariant
            from <= i <= to <= chars@.len(),
            copy@ == chars@.subrange(from as int, i as int),
        decreases to - i,
    {
        copy.push(chars[i]);
        i += 1;
        proof {
            assert(copy@ =~= chars@.subrange(from as int, i as int));
        }
    }
    copy
}

/// A list of characters as a string.
pub fn chars_text(chars: &[char]) -> (text: String)
    ensures
        text@ == chars@,
{
    let text = text_of(chars, 0, chars.len());
    proof {
        assert(text@ =~= chars@);
    }
    text
}

/// The position of the first separator.
pub open spec fn is_first(text: Seq<char>, separator: char, i: int) -> bool {
    0 <= i < text.len() && text[i] == separator && forall|j: int|
        0 <= j < i ==> text[j] != separator
}

/// Finds the first separator.
pub fn find_char(text: &[char], separator: char) -> (position: Option<usize>)
    ensures
        match position {
            Some(i) => is_first(text@, separator, i as int),
            None => !text@.contains(separator),
        },
{
    let mut i: usize = 0;
    while i < text.len()
        invariant
            i <= text@.len(),
            forall|j: int| 0 <= j < i ==> text@[j] != separator,
        decreases text@.len() - i,
    {
        if text[i] == separator {
            return Some(i);
        }
        i += 1;
    }
    None
}

/// Whether a character is white space in the sense of Unicode.
pub open spec fn is_white(c: char) -> bool {
    ||| '\u{9}' <= c <= '\u{d}'
    ||| c == '\u{20}'
    ||| c == '\u{85}'
    ||| c == '\u{a0}'
    ||| c == '\u{1680}'
    ||| '\u{2000}' <= c <= '\u{200a}'
    ||| c == '\u{2028}'
    ||| c == '\u{2029}'
    ||| c == '\u{202f}'
    ||| c == '\u{205f}'
    ||| c == '\u{3000}'
}

/// `text` without leading white space.
pub open spec fn trim_start(text: Seq<char>) -> Seq<char>
    decreases text.len(),
{
    if text.len() > 0 && is_white(text[0]) {
        trim_start(text.skip(1))
    } else {
        text
    }
}

/// `text` without trailing white space.
pub open spec fn trim_end(text: Seq<char>) -> Seq<char>
    decreases text.len(),
{
    if text.len() > 0 && is_white(text.last()) {
        trim_end(text.drop_last())
    } else {
        text
    }
}

fn is_white_space(c: char) -> (white: bool)
    ensures
        white == is_white(c),
{
    let code: u32 = c as u32;
    (code >= 0x9 && code <= 0xd) || code == 0x20 || code == 0x85 || code == 0xa0 || code == 0x1680
        || (code >= 0x2000 && code <= 0x200a) || code == 0x2028 || code == 0x2029 || code == 0x202f
        || code == 0x205f || code == 0x3000
}

/// The range of `text` that is left without white space at either end.
pub fn trim_range(text: &[char]) -> (range: (usize, usize))
    ensures
        range.0 <= range.1 <= text@.len(),
        text@.subrange(range.0 as int, range.1 as int) == trim_end(trim_start(text@)),
{
    let mut from: usize = 0;
    proof {
        assert(text@.skip(0) =~= text@);
    }
    while from < text.len() && is_white_space(text[from])
        invariant
            from <= text@.len(),
            trim_start(text@.skip(from as int)) == trim_start(text@),
        decreases text@.len() - from,
    {
        proof {
            assert(text@.skip(from as int).skip(1) =~= text@.skip(from as int + 1));
        }
        from += 1;
    }
    let ghost body = text@.skip(from as int);
    let mut to: usize = text.len();
    proof {
        assert(text@.subrange(from as int, to as int) =~= body);
        assert(trim_start(text@) == body);
    }
    while to > from && is_white_space(text[to - 1])
        invariant
            from <= to <= text@.len(),
            trim_end(text@.subrange(from as int, to as int)) == trim_end(body),
        decreases to,
    {
        proof {
            assert(text@.subrange(from as int, to as int).drop_last() =~= text@.subrange(
                from as int,
                to - 1,
            ));
        }
        to -= 1;
    }
    (from, to)
}

/// The views of a list of strings.
pub open spec fn string_views(strings: Seq<String>) -> Seq<Seq<char>> {
    Seq::new(strings.len(), |i: int| strings[i]@)
}

/// Texts one after the other with a separator between them.
pub open spec fn joined(parts: Seq<Seq<char>>, separator: Seq<char>) -> Seq<char>
    decreases parts.len(),
{
    if parts.len() == 0 {
        seq![]
    } else if parts.len() == 1 {
        parts[0]
    } else {
        joined(parts.drop_last(), separator) + separator + parts.last()
    }
}

/// Writes texts one after the other with a separator between them.
pub fn join_all(parts: &[String], separator: &str) -> (text: String)
    ensures
        text@ == joined(string_views(parts@), separator@),
{
    let mut text = String::new();
    let ghost all = string_views(parts@);
    let mut i: usize = 0;
    proof {
        assert(all.take(0) =~= Seq::<Seq<char>>::empty());
        assert(text@ =~= joined(all.take(0), separator@));
    }
    while i < parts.len()
        invariant
            i <= parts@.len(),
            all == string_views(parts@),
            text@ == joined(all.take(i as int), separator@),
        decreases parts@.len() - i,
    {
        let ghost earlier = text@;
        if i > 0 {
            push_str(&mut text, separator);
        }
        push_str(&mut text, parts[i].as_str());
        proof {
            let seen = all.take(i as int + 1);
            assert(seen.drop_last() =~= all.take(i as int));
            assert(seen.last() == parts@[i as int]@);
            if i == 0 {
                assert(text@ =~= seen[0]);
            } else {
                assert(text@ =~= earlier + separator@ + seen.last());
            }
        }
        i += 1;
    }
    proof {
        assert(all.take(all.len() as int) =~= all);
    }
    text
}

/// No character is a control character such as a line feed or an escape.
pub open spec fn no_controls(text: Seq<char>) -> bool {
    forall|i: int| 0 <= i < text.len() ==> (#[trigger] text[i]) as u32 >= 0x20
}

/// No byte is a control character.
pub open spec fn no_control_bytes(bytes: Seq<u8>) -> bool {
    forall|i: int| 0 <= i < bytes.len() ==> #[trigger] bytes[i] >= 0x20
}

proof fn character_without_control(c: u32)
    requires
        0x20 <= c,
    ensures
        no_control_bytes(vstd::utf8::encode_scalar(c)),
{
    assert(0x20 <= c <= 0x7f ==> (c & 0x7f) as u8 >= 0x20u8) by (bit_vector);
    let two = ((c >> 6) & 0x1f) as u8;
    let three = ((c >> 12) & 0x0f) as u8;
    let four = ((c >> 18) & 0x7) as u8;
    let last = (c & 0x3f) as u8;
    let second = ((c >> 6) & 0x3f) as u8;
    let third = ((c >> 12) & 0x3f) as u8;
    assert(0xc0u8 | two >= 0x20u8) by (bit_vector);
    assert(0xe0u8 | three >= 0x20u8) by (bit_vector);
    assert(0xf0u8 | four >= 0x20u8) by (bit_vector);
    assert(0x80u8 | last >= 0x20u8) by (bit_vector);
    assert(0x80u8 | second >= 0x20u8) by (bit_vector);
    assert(0x80u8 | third >= 0x20u8) by (bit_vector);
}

/// The bytes of a text without control characters hold none either.
pub proof fn text_without_controls(text: Seq<char>)
    requires
        no_controls(text),
    ensures
        no_control_bytes(utf8(text)),
    decreases text.len(),
{
    if text.len() > 0 {
        let rest = text.drop_first();
        assert forall|i: int| 0 <= i < rest.len() implies (#[trigger] rest[i]) as u32 >= 0x20 by {
            assert(rest[i] == text[i + 1]);
        }
        text_without_controls(rest);
        assert(text[0] as u32 >= 0x20);
        character_without_control(text[0] as u32);
    }
}

/// The digits of a number are no control characters.
pub proof fn digits_are_no_controls(n: nat, radix: nat)
    requires
        2 <= radix <= 16,
    ensures
        no_controls(digits(n, radix)),
    decreases n,
{
    if n >= radix {
        assert(n / radix < n && n % radix < radix) by (nonlinear_arith)
            requires
                n >= radix,
                radix >= 2,
        ;
        digits_are_no_controls(n / radix, radix);
    }
}

/// The digits of a number are figures and small letters, the last one counts
/// units and the others count what the radix goes into the number.
#[verifier::rlimit(40)]
pub proof fn digits_are_figures(n: nat, radix: nat)
    requires
        2 <= radix <= 16,
    ensures
        digits(n, radix).len() > 0,
        forall|i: int|
            0 <= i < digits(n, radix).len() ==> '0' <= #[trigger] digits(n, radix)[i] <= '9'
                || 'a' <= digits(n, radix)[i] <= 'f',
        digits(n, radix).last() as int == (if n % radix < 10 {
            48 + n % radix
        } else {
            87 + n % radix
        }),
        n >= radix ==> digits(n, radix).drop_last() == digits(n / radix, radix),
        n < radix ==> digits(n, radix).len() == 1,
    decreases n,
{
    assert(n % radix < radix) by (nonlinear_arith)
        requires
            radix >= 2,
    ;
    if n >= radix {
        assert(n / radix < n) by (nonlinear_arith)
            requires
                n >= radix,
                radix >= 2,
        ;
        digits_are_figures(n / radix, radix);
        let front = digits(n / radix, radix);
        assert(digits(n, radix).drop_last() =~= front);
        assert forall|i: int| 0 <= i < digits(n, radix).len() implies '0' <= #[trigger] digits(
            n,
            radix,
        )[i] <= '9' || 'a' <= digits(n, radix)[i] <= 'f' by {
            if i < front.len() {
                assert(digits(n, radix)[i] == front[i]);
            }
        }
    } else {
        assert(n % radix == n) by (nonlinear_arith)
            requires
                n < radix,
        ;
    }
}

/// A number that was written in base 10 or 16 is too large to be read back where
/// it exceeds the limit.
pub proof fn larger_numbers_are_refused(n: nat, radix: nat, max: int)
    requires
        radix == 10 || radix == 16,
        0 <= max < n,
    ensures
        read_digits(digits(n, radix), radix as int, max) == Err::<int, NumberError>(
            NumberError::TooLarge,
        ),
        read_number(digits(n, radix), radix as int, max) == Err::<int, NumberError>(
            NumberError::TooLarge,
        ),
    decreases n,
{
    let written = digits(n, radix);
    if n < radix {
        assert(written.drop_last() =~= Seq::<char>::empty());
        reveal_with_fuel(read_digits, 2);
        assert(written.last() == digit_char(n as int));
    } else {
        let high = n / radix;
        let low = n % radix;
        assert(high < n) by (nonlinear_arith)
            requires
                n >= radix,
                radix >= 2,
                high == n / radix,
        ;
        assert(high * radix + low == n) by (nonlinear_arith)
            requires
                radix >= 2,
                high == n / radix,
                low == n % radix,
        ;
        assert(written.drop_last() =~= digits(high, radix));
        assert(written.last() == digit_char(low as int));
        if high <= max {
            written_numbers_read_back(high, radix, max);
        } else {
            larger_numbers_are_refused(high, radix, max);
        }
    }
    first_digit_is_no_sign(n, radix);
}

/// What is read keeps its value behind a plus sign, and a text with a character
/// that is neither a figure nor a letter, apart from that sign, is no number.
pub proof fn numbers_are_figures(text: Seq<char>, radix: int, max: int)
    requires
        2 <= radix <= 36,
        text.len() > 0,
    ensures
        text[0] != '+' ==> read_number(seq!['+'] + text, radix, max) == read_number(
            text,
            radix,
            max,
        ),
        forall|i: int|
            (0 < i < text.len() || i == 0 && text[0] != '+') && !('0' <= #[trigger] text[i] <= '9'
                || 'a' <= text[i] <= 'z' || 'A' <= text[i] <= 'Z') ==> read_number(
                text,
                radix,
                max,
            ) is Err,
        read_number(seq![], radix, max) is Err,
{
    assert((seq!['+'] + text).skip(1) =~= text);
    let plain = if text[0] == '+' && text.len() > 1 {
        text.skip(1)
    } else {
        text
    };
    assert forall|i: int|
        (0 < i < text.len() || i == 0 && text[0] != '+') && !('0' <= #[trigger] text[i] <= '9'
            || 'a' <= text[i] <= 'z' || 'A' <= text[i] <= 'Z') implies read_number(
        text,
        radix,
        max,
    ) is Err by {
        let k = i - (text.len() - plain.len());
        assert(plain[k] == text[i]);
        let prefix = plain.take(k + 1);
        assert(prefix.last() == text[i]);
        first_error_decides(plain, k + 1, radix, max);
    }
}

/// No figure is a character that is neither a figure nor a small letter.
pub proof fn figures_hold_no(n: nat, radix: nat, c: char)
    requires
        2 <= radix <= 16,
        !('0' <= c <= '9') && !('a' <= c <= 'f'),
    ensures
        !digits(n, radix).contains(c),
{
    digits_are_figures(n, radix);
}

/// Splitting undoes joining: a text without the separator is one part, and what
/// stands in front of the first separator is the first part.
#[verifier::rlimit(40)]
pub proof fn splitting_undoes_joining(front: Seq<char>, rest: Seq<char>, separator: char)
    requires
        !front.contains(separator),
    ensures
        split_at_char(front, separator) == seq![front],
        split_at_char(front + seq![separator] + rest, separator) == seq![front] + split_at_char(
            rest,
            separator,
        ),
    decreases front.len() + rest.len(),
{
    let text = front + seq![separator] + rest;
    if front.len() > 0 {
        let fewer = front.drop_last();
        assert forall|c: char| fewer.contains(c) implies front.contains(c) by {
            let i = choose|i: int| 0 <= i < fewer.len() && fewer[i] == c;
            assert(front[i] == c);
        }
        splitting_undoes_joining(fewer, seq![], separator);
        assert(front[front.len() - 1] == front.last());
        assert(split_at_char(front, separator) =~= seq![front]) by {
            assert(seq![fewer].drop_last() =~= Seq::<Seq<char>>::empty());
            assert(fewer.push(front.last()) =~= front);
        }
    } else {
        assert(front =~= seq![]);
        assert(split_at_char(front, separator) =~= seq![front]);
    }
    if rest.len() == 0 {
        assert(text.drop_last() =~= front);
        assert(text.last() == separator);
        assert(split_at_char(rest, separator) =~= seq![seq![]]);
        assert(split_at_char(text, separator) =~= seq![front] + split_at_char(rest, separator));
    } else {
        let shorter = rest.drop_last();
        splitting_undoes_joining(front, shorter, separator);
        assert(text.drop_last() =~= front + seq![separator] + shorter);
        assert(text.last() == rest.last());
        let parts = split_at_char(shorter, separator);
        parts_are_never_none(shorter, separator);
        assert((seq![front] + parts).drop_last() =~= seq![front] + parts.drop_last());
        assert(split_at_char(text, separator) =~= seq![front] + split_at_char(rest, separator));
    }
}

/// Splitting yields at least one part.
proof fn parts_are_never_none(text: Seq<char>, separator: char)
    ensures
        split_at_char(text, separator).len() >= 1,
    decreases text.len(),
{
    if text.len() > 0 {
        parts_are_never_none(text.drop_last(), separator);
    }
}

/// Parts come back in their order, all of them.
pub proof fn joined_parts_come_back(parts: Seq<Seq<char>>, separator: char)
    requires
        parts.len() > 0,
        forall|i: int| 0 <= i < parts.len() ==> !(#[trigger] parts[i]).contains(separator),
    ensures
        split_at_char(joined(parts, seq![separator]), separator) == parts,
    decreases parts.len(),
{
    if parts.len() == 1 {
        splitting_undoes_joining(parts[0], seq![], separator);
        assert(parts =~= seq![parts[0]]);
    } else {
        let rest = parts.skip(1);
        assert forall|i: int| 0 <= i < rest.len() implies !(#[trigger] rest[i]).contains(
            separator,
        ) by {
            assert(rest[i] == parts[i + 1]);
        }
        joined_parts_come_back(rest, separator);
        first_part_comes_first(parts, seq![separator]);
        splitting_undoes_joining(parts[0], joined(rest, seq![separator]), separator);
        assert(parts =~= seq![parts[0]] + rest);
    }
}

/// Joined texts start with the first one.
proof fn first_part_comes_first(parts: Seq<Seq<char>>, separator: Seq<char>)
    requires
        parts.len() >= 2,
    ensures
        joined(parts, separator) == parts[0] + separator + joined(parts.skip(1), separator),
    decreases parts.len(),
{
    let rest = parts.skip(1);
    if parts.len() == 2 {
        reveal_with_fuel(joined, 2);
        assert(parts.drop_last()[0] == parts[0]);
        assert(rest[0] == parts.last());
    } else {
        first_part_comes_first(parts.drop_last(), separator);
        assert(parts.drop_last().skip(1) =~= rest.drop_last());
        assert(rest.last() == parts.last());
        assert(joined(parts, separator) =~= parts[0] + separator + joined(rest, separator));
    }
}

/// What stands in front of the first double dot is the first part; a text without
/// a dot is one part.
pub proof fn dots_part_texts(front: Seq<char>, rest: Seq<char>)
    requires
        !front.contains('.'),
    ensures
        split_at_dots(front) == seq![front],
        split_at_dots(front + seq!['.', '.'] + rest) == seq![front] + split_at_dots(rest),
{
    let text = front + seq!['.', '.'] + rest;
    dots_are_found(front, rest);
    assert(text.take(front.len() as int) =~= front);
    assert(text.skip(front.len() as int + 2) =~= rest);
}

proof fn dots_are_found(front: Seq<char>, rest: Seq<char>)
    requires
        !front.contains('.'),
    ensures
        first_dots(front) is None,
        first_dots(front + seq!['.', '.'] + rest) == Some(front.len() as int),
    decreases front.len(),
{
    let text = front + seq!['.', '.'] + rest;
    if front.len() > 0 {
        let fewer = front.skip(1);
        assert forall|c: char| fewer.contains(c) implies front.contains(c) by {
            let i = choose|i: int| 0 <= i < fewer.len() && fewer[i] == c;
            assert(front[i + 1] == c);
        }
        dots_are_found(fewer, rest);
        assert(front.contains(front[0]));
        assert(text[0] == front[0]);
        assert(text.skip(1) =~= fewer + seq!['.', '.'] + rest);
    }
}

/// White space around a text is left out and nothing else is.
#[verifier::rlimit(40)]
pub proof fn trimming_leaves_the_text(before: Seq<char>, text: Seq<char>, after: Seq<char>)
    requires
        forall|i: int| 0 <= i < before.len() ==> is_white(#[trigger] before[i]),
        forall|i: int| 0 <= i < after.len() ==> is_white(#[trigger] after[i]),
        text.len() > 0 ==> !is_white(text[0]) && !is_white(text.last()),
    ensures
        trim_end(trim_start(before + text + after)) == text,
    decreases before.len() + after.len(),
{
    let whole = before + text + after;
    if before.len() > 0 {
        let fewer = before.skip(1);
        assert(whole[0] == before[0]);
        assert(whole.skip(1) =~= fewer + text + after);
        assert forall|i: int| 0 <= i < fewer.len() implies is_white(#[trigger] fewer[i]) by {
            assert(fewer[i] == before[i + 1]);
        }
        trimming_leaves_the_text(fewer, text, after);
    } else if text.len() == 0 {
        if after.len() > 0 {
            let fewer = after.skip(1);
            assert(whole[0] == after[0]);
            assert(whole.skip(1) =~= before + text + fewer);
            assert forall|i: int| 0 <= i < fewer.len() implies is_white(#[trigger] fewer[i]) by {
                assert(fewer[i] == after[i + 1]);
            }
            trimming_leaves_the_text(before, text, fewer);
        } else {
            assert(whole =~= text);
        }
    } else {
        assert(whole[0] == text[0]);
        assert(trim_start(whole) == whole);
        if after.len() > 0 {
            let fewer = after.drop_last();
            assert(whole.last() == after.last());
            assert(whole.drop_last() =~= before + text + fewer);
            assert((before + text + fewer)[0] == text[0]);
            trimming_leaves_the_text(before, text, fewer);
        } else {
            assert(whole =~= text);
        }
    }
}

/// White space is the blank, the tabulator, the line ends and their like, and no
/// character that can be seen in ASCII.
pub proof fn white_space_is_blank(c: char)
    ensures
        c == ' ' || c == '\t' || c == '\n' || c == '\r' ==> is_white(c),
        '!' <= c <= '~' ==> !is_white(c),
{
}

/// A number in front of a character that is no figure can be told from what
/// follows it.
pub proof fn numbers_end_where_they_end(
    a: nat,
    b: nat,
    mark: char,
    first: Seq<char>,
    second: Seq<char>,
)
    requires
        !('0' <= mark <= '9') && !('a' <= mark <= 'f'),
        decimal(a) + seq![mark] + first == decimal(b) + seq![mark] + second,
    ensures
        a == b,
        first == second,
{
    let left = decimal(a);
    let right = decimal(b);
    let whole = left + seq![mark] + first;
    figures_hold_no(a, 10, mark);
    figures_hold_no(b, 10, mark);
    assert(whole[left.len() as int] == mark);
    assert(whole[right.len() as int] == mark);
    if left.len() < right.len() {
        assert(whole[left.len() as int] == right[left.len() as int]);
        assert(right.contains(mark));
    }
    if right.len() < left.len() {
        assert(whole[right.len() as int] == left[right.len() as int]);
        assert(left.contains(mark));
    }
    assert(left =~= whole.take(left.len() as int));
    assert(right =~= whole.take(left.len() as int));
    let limit = if a < b {
        b as int
    } else {
        a as int
    };
    written_numbers_read_back(a, 10, limit);
    written_numbers_read_back(b, 10, limit);
    assert(first =~= whole.skip(left.len() as int + 1));
    assert(second =~= whole.skip(left.len() as int + 1));
}

/// Letters count as digits in either case, each one more than the letter before,
/// from ten up, as far as the base has use for them; figures count what they say.
pub proof fn digits_have_their_values(c: char, radix: int)
    requires
        2 <= radix <= 36,
    ensures
        '0' <= c <= '9' && c as int - 48 < radix ==> digit_value(c, radix) == Some(c as int - 48),
        'a' <= c <= 'z' && c as int - 87 < radix ==> digit_value(c, radix) == Some(c as int - 87)
            && digit_value((c as u32 - 32) as char, radix) == Some(c as int - 87),
        'a' <= c <= 'z' && c as int - 87 >= radix ==> digit_value(c, radix) is None,
        '0' <= c <= '9' && c as int - 48 >= radix ==> digit_value(c, radix) is None,
{
}

} // verus!
