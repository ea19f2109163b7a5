//! Which `defmt` format strings can be decoded and printed whatever a target
//! sends.
//!
//! A decoder takes format strings out of symbol names, where they stand as they
//! are unless a character is written as an escape. So a look at the names tells
//! what no format string contains. The name of the timestamp is one of the
//! strings between zero bytes in the file.
use crate::text;
use vstd::prelude::*;

verus! {

/// `part` stands in `bytes` at `i`.
pub open spec fn stands_at(bytes: Seq<u8>, part: Seq<u8>, i: int) -> bool {
    0 <= i && i + part.len() <= bytes.len() && bytes.subrange(i, i + part.len()) == part
}

/// There are `count` decimal digits at `i`.
pub open spec fn digits_at(bytes: Seq<u8>, i: int, count: int) -> bool {
    &&& 0 <= i
    &&& i + count <= bytes.len()
    &&& forall|k: int| i <= k < i + count ==> 0x30 <= #[trigger] bytes[k] <= 0x39
}

/// The byte at `i`, if there is one.
pub open spec fn byte_at(bytes: Seq<u8>, i: int) -> Option<u8> {
    if 0 <= i < bytes.len() {
        Some(bytes[i])
    } else {
        None
    }
}

/// Digits of a number of an argument or of an array's elements that is still
/// small enough to make room for.
pub const LONG_NUMBER: usize = 7;

/// Digits of a width that is still within what can be printed.
pub const LONG_WIDTH: usize = 5;

/// A format string numbers an argument, or counts the elements of an array, with
/// a number that is too long, or the count is not plain to see: it stands behind
/// more than one space or behind an escape.
pub open spec fn overlong_at(bytes: Seq<u8>, i: int) -> bool {
    ||| byte_at(bytes, i) == Some(0x7bu8) && digits_at(bytes, i + 1, LONG_NUMBER as int)
    ||| stands_at(bytes, text::utf8("[?;"@), i) && {
        ||| digits_at(bytes, i + 3, LONG_NUMBER as int)
        ||| byte_at(bytes, i + 3) == Some(0x5cu8)
        ||| byte_at(bytes, i + 3) == Some(0x20u8) && {
            ||| byte_at(bytes, i + 4) == Some(0x20u8)
            ||| byte_at(bytes, i + 4) == Some(0x5cu8)
            ||| digits_at(bytes, i + 4, LONG_NUMBER as int)
        }
    }
}

/// A digit, a letter, or a sign with a meaning in format strings is written as an
/// escape: `#`, `0` to `;`, `=`, `?`, `X`, `[`, `_`, `a` to `}`.
pub open spec fn hidden_at(bytes: Seq<u8>, i: int) -> bool {
    stands_at(bytes, text::utf8("\\u00"@), i) && match (
        byte_at(bytes, i + 4),
        byte_at(bytes, i + 5),
    ) {
        (Some(high), Some(low)) => {
            ||| high == 0x32 && low == 0x33
            ||| high == 0x33 && low != 0x63 && low != 0x43 && low != 0x65 && low != 0x45
            ||| high == 0x35 && (low == 0x38 || low == 0x62 || low == 0x42 || low == 0x66 || low
                == 0x46)
            ||| high == 0x36 && low != 0x30
            ||| high == 0x37 && low != 0x65 && low != 0x45 && low != 0x66 && low != 0x46
        },
        _ => false,
    }
}

/// A number is padded to a width that is too long.
pub open spec fn wide_at(bytes: Seq<u8>, i: int) -> bool {
    byte_at(bytes, i) == Some(0x3au8) && {
        ||| byte_at(bytes, i + 1) == Some(0x30u8) && digits_at(bytes, i + 2, LONG_WIDTH as int)
        ||| byte_at(bytes, i + 1) == Some(0x23u8) && byte_at(bytes, i + 2) == Some(0x30u8)
            && digits_at(bytes, i + 3, LONG_WIDTH as int)
    }
}

/// `part` stands in `bytes` right in front of `i`.
pub open spec fn ends_at(bytes: Seq<u8>, part: Seq<u8>, i: int) -> bool {
    stands_at(bytes, part, i - part.len())
}

/// A number is printed as a date. Those of at most four bytes are dates that can
/// be written; others may be too far away.
pub open spec fn far_date_at(bytes: Seq<u8>, i: int) -> bool {
    &&& stands_at(bytes, text::utf8("iso8601s}"@), i) || stands_at(
        bytes,
        text::utf8("iso8601ms}"@),
        i,
    )
    &&& !ends_at(bytes, text::utf8("=u8:"@), i)
    &&& !ends_at(bytes, text::utf8("=u16:"@), i)
    &&& !ends_at(bytes, text::utf8("=u32:"@), i)
}

/// Something is to be printed that cannot be for all values: a date, data in
/// CBOR, a bare byte among the variants of a type, or a number padded too far.
pub open spec fn unprintable_at(bytes: Seq<u8>, i: int) -> bool {
    ||| far_date_at(bytes, i)
    ||| stands_at(bytes, text::utf8("cbor}"@), i)
    ||| stands_at(bytes, text::utf8("|{=u8}"@), i)
    ||| stands_at(bytes, text::utf8("{=u8}|"@), i)
    ||| wide_at(bytes, i)
}

/// A signed number of the target's own size.
pub open spec fn isize_at(bytes: Seq<u8>, i: int) -> bool {
    stands_at(bytes, text::utf8("=isize}"@), i) || stands_at(bytes, text::utf8("=isize:"@), i)
}

/// What stands between the sign in front of a hint or a count and its end.
pub open spec fn is_filler(byte: u8) -> bool {
    byte == 0x20 || byte == 0x23 || 0x30 <= byte <= 0x39 || byte == 0x3b
}

/// Where the fillers in front of `i` begin.
pub open spec fn filled_from(bytes: Seq<u8>, i: int) -> int
    decreases i,
{
    if 0 < i <= bytes.len() && is_filler(bytes[i - 1]) {
        filled_from(bytes, i - 1)
    } else {
        i
    }
}

/// In front of `i` stands a type that keeps a hint to itself: an integer other
/// than `isize`, or bytes, of which there may be a count. Any other may hand the
/// hint on to what it holds.
pub open spec fn closed_before(bytes: Seq<u8>, i: int) -> bool {
    ||| ends_at(bytes, text::utf8("=u8"@), i)
    ||| ends_at(bytes, text::utf8("=u16"@), i)
    ||| ends_at(bytes, text::utf8("=u32"@), i)
    ||| ends_at(bytes, text::utf8("=u64"@), i)
    ||| ends_at(bytes, text::utf8("=u128"@), i)
    ||| ends_at(bytes, text::utf8("=usize"@), i)
    ||| ends_at(bytes, text::utf8("=i8"@), i)
    ||| ends_at(bytes, text::utf8("=i16"@), i)
    ||| ends_at(bytes, text::utf8("=i32"@), i)
    ||| ends_at(bytes, text::utf8("=i64"@), i)
    ||| ends_at(bytes, text::utf8("=i128"@), i)
    ||| byte_at(bytes, i - 1) == Some(0x5du8) && ends_at(
        bytes,
        text::utf8("=[u"@),
        filled_from(bytes, i - 1),
    )
}

/// A hint asks for hexadecimal digits and may be handed on.
pub open spec fn hexadecimal_at(bytes: Seq<u8>, i: int) -> bool {
    let start = filled_from(bytes, i) - 1;
    &&& byte_at(bytes, i) == Some(0x78u8) || byte_at(bytes, i) == Some(0x58u8)
    &&& byte_at(bytes, i + 1) == Some(0x7du8)
    &&& byte_at(bytes, start) == Some(0x3au8)
    &&& !closed_before(bytes, start)
}

/// A parameter may hold a format string of its own.
pub open spec fn nests_at(bytes: Seq<u8>, i: int) -> bool {
    ||| byte_at(bytes, i) == Some(0x7bu8) && (byte_at(bytes, i + 1) == Some(0x7du8) || byte_at(
        bytes,
        i + 1,
    ) == Some(0x3au8) || digits_at(bytes, i + 1, 1))
    ||| stands_at(bytes, text::utf8("=?"@), i)
    ||| stands_at(bytes, text::utf8("=[?"@), i)
    ||| stands_at(bytes, text::utf8("=__internal_F"@), i)
}

/// Frames can be decoded by the format strings in here.
pub open spec fn sound(bytes: Seq<u8>) -> bool {
    &&& forall|i: int| 0 <= i < bytes.len() ==> !(#[trigger] overlong_at(bytes, i))
    &&& forall|i: int| 0 <= i < bytes.len() ==> !(#[trigger] hidden_at(bytes, i))
}

/// Decoded frames can be printed by the format strings in here.
pub open spec fn calm(bytes: Seq<u8>) -> bool {
    &&& forall|i: int| 0 <= i < bytes.len() ==> !(#[trigger] unprintable_at(bytes, i))
    &&& forall|i: int| 0 <= i < bytes.len() ==> !(#[trigger] hidden_at(bytes, i))
}

/// All texts have sound format strings.
pub open spec fn all_sound(texts: Seq<Seq<char>>) -> bool {
    forall|i: int| 0 <= i < texts.len() ==> sound(text::utf8(#[trigger] texts[i]))
}

/// There is a signed number of the target's own size.
pub open spec fn has_isize(bytes: Seq<u8>) -> bool {
    exists|i: int| 0 <= i < bytes.len() && #[trigger] isize_at(bytes, i)
}

/// There is a hint for hexadecimal digits that may be handed on.
pub open spec fn has_hexadecimal(bytes: Seq<u8>) -> bool {
    exists|i: int| 0 <= i < bytes.len() && #[trigger] hexadecimal_at(bytes, i)
}

/// No parameter holds a format string of its own.
pub open spec fn flat(bytes: Seq<u8>) -> bool {
    forall|i: int| 0 <= i < bytes.len() ==> !(#[trigger] nests_at(bytes, i))
}

/// What the messages ask for that others can hold.
#[derive(Clone, Copy, Debug, PartialEq, Eq, Structural)]
pub struct Held {
    /// All of them can be printed by themselves.
    pub calm: bool,
    /// Some print a signed number of the target's own size.
    pub native: bool,
    /// Some hand on a hint for hexadecimal digits.
    pub hexadecimal: bool,
}

/// What the messages with these names ask for that others can hold.
pub open spec fn held(symbols: Seq<Seq<char>>) -> Held {
    Held {
        calm: forall|i: int|
            0 <= i < symbols.len() && names_held(text::utf8(#[trigger] symbols[i])) ==> calm(
                text::utf8(symbols[i]),
            ),
        native: exists|i: int|
            0 <= i < symbols.len() && names_held(text::utf8(#[trigger] symbols[i])) && has_isize(
                text::utf8(symbols[i]),
            ),
        hexadecimal: exists|i: int|
            0 <= i < symbols.len() && names_held(text::utf8(#[trigger] symbols[i]))
                && has_hexadecimal(text::utf8(symbols[i])),
    }
}

/// A message or timestamp with this name can be printed: what it asks for can be,
/// and no `isize` meets a hint for hexadecimal digits. If it may hold messages,
/// the same goes for those.
pub open spec fn fits(held: Held, name: Seq<u8>) -> bool {
    &&& calm(name)
    &&& if flat(name) {
        !(has_isize(name) && has_hexadecimal(name))
    } else {
        &&& held.calm
        &&& !((has_isize(name) || held.native) && (has_hexadecimal(name) || held.hexadecimal))
    }
}

/// Whatever message of these it is, it can be printed.
pub open spec fn all_fit(symbols: Seq<Seq<char>>) -> bool {
    forall|i: int|
        0 <= i < symbols.len() ==> fits(held(symbols), text::utf8(#[trigger] symbols[i]))
}

/// The names of messages that can be sent by themselves.
pub open spec fn messages_of(symbols: Seq<Seq<char>>) -> Seq<Seq<char>>
    decreases symbols.len(),
{
    if symbols.len() == 0 {
        seq![]
    } else if names_message(text::utf8(symbols.last())) {
        messages_of(symbols.drop_last()).push(symbols.last())
    } else {
        messages_of(symbols.drop_last())
    }
}

/// Which messages can be printed, where it is plain which name belongs to which
/// index: there is an index for each name that says so, and both are in order.
pub open spec fn judged(indices: Seq<usize>, symbols: Seq<Seq<char>>) -> Seq<(usize, bool)> {
    let messages = messages_of(symbols);
    if messages.len() == indices.len() {
        Seq::new(
            indices.len(),
            |i: int| (indices[i], fits(held(symbols), text::utf8(messages[i]))),
        )
    } else {
        seq![]
    }
}

/// What a list says of an index.
pub open spec fn verdict(list: Seq<(usize, bool)>, index: u64, otherwise: bool) -> bool
    decreases list.len(),
{
    if list.len() == 0 {
        otherwise
    } else if list.last().0 == index {
        list.last().1
    } else {
        verdict(list.drop_last(), index, otherwise)
    }
}

/// The message with this index can be printed.
pub open spec fn may_print(indices: Seq<usize>, symbols: Seq<Seq<char>>, index: u64) -> bool {
    verdict(judged(indices, symbols), index, all_fit(symbols))
}

/// A longest string without a zero byte.
pub open spec fn name_at(file: Seq<u8>, i: int, j: int) -> bool {
    &&& 0 <= i < j <= file.len()
    &&& i == 0 || file[i - 1] == 0
    &&& j == file.len() || file[j] == 0
    &&& forall|k: int| i <= k < j ==> #[trigger] file[k] != 0
}

/// The value of a hexadecimal digit.
pub open spec fn nibble(byte: u8) -> Option<u8> {
    if 0x30 <= byte <= 0x39 {
        Some((byte - 0x30) as u8)
    } else if 0x41 <= byte <= 0x46 {
        Some((byte - 0x37) as u8)
    } else if 0x61 <= byte <= 0x66 {
        Some((byte - 0x57) as u8)
    } else {
        None
    }
}

/// `byte` is written as an escape.
pub open spec fn escaped_at(bytes: Seq<u8>, byte: u8, i: int) -> bool {
    stands_at(bytes, text::utf8("\\u00"@), i) && match (
        byte_at(bytes, i + 4),
        byte_at(bytes, i + 5),
    ) {
        (Some(high), Some(low)) => nibble(high) == Some((byte / 16) as u8) && nibble(low) == Some(
            (byte % 16) as u8,
        ),
        _ => false,
    }
}

/// `word` stands at `i`, any of its bytes as an escape or as it is.
pub open spec fn spelled_at(bytes: Seq<u8>, word: Seq<u8>, i: int) -> bool
    decreases word.len(),
{
    if word.len() == 0 {
        true
    } else if byte_at(bytes, i) == Some(word[0]) {
        spelled_at(bytes, word.skip(1), i + 1)
    } else {
        escaped_at(bytes, word[0], i) && spelled_at(bytes, word.skip(1), i + 6)
    }
}

/// This tag is in a name.
pub open spec fn tagged(name: Seq<u8>, tag: Seq<u8>) -> bool {
    exists|i: int| 0 <= i < name.len() && #[trigger] spelled_at(name, tag, i)
}

/// The name is, or may be, that of the timestamp.
pub open spec fn names_stamp(name: Seq<u8>) -> bool {
    tagged(name, text::utf8("\"defmt_timestamp\""@))
}

/// The name is, or may be, that of a message that can be sent by itself.
pub open spec fn names_message(name: Seq<u8>) -> bool {
    ||| tagged(name, text::utf8("\"defmt_trace\""@))
    ||| tagged(name, text::utf8("\"defmt_debug\""@))
    ||| tagged(name, text::utf8("\"defmt_info\""@))
    ||| tagged(name, text::utf8("\"defmt_warn\""@))
    ||| tagged(name, text::utf8("\"defmt_error\""@))
    ||| tagged(name, text::utf8("\"defmt_println\""@))
}

/// The name is, or may be, that of a message that others can hold: one without a
/// level.
pub open spec fn names_held(name: Seq<u8>) -> bool {
    ||| tagged(name, text::utf8("\"defmt_prim\""@))
    ||| tagged(name, text::utf8("\"defmt_derived\""@))
    ||| tagged(name, text::utf8("\"defmt_bitflags\""@))
    ||| tagged(name, text::utf8("\"defmt_write\""@))
    ||| tagged(name, text::utf8("\"defmt_str\""@))
    ||| tagged(name, text::utf8("\"defmt_println\""@))
}

/// The file has a string that the timestamp's name may stand in.
pub open spec fn stamp_name(file: Seq<u8>, name: Seq<u8>) -> bool {
    names_stamp(name) && exists|i: int, j: int|
        #[trigger] name_at(file, i, j) && name == file.subrange(i, j)
}

fn is_at(bytes: &[u8], part: &[u8], i: usize) -> (found: bool)
    requires
        i <= bytes@.len(),
    ensures
        found == stands_at(bytes@, part@, i as int),
{
    let length: usize = bytes.len();
    if length - i < part.len() {
        return false;
    }
    let ghost there = bytes@.subrange(i as int, i + part@.len());
    let mut k: usize = 0;
    while k < part.len()
        invariant
            k <= part@.len(),
            length == bytes@.len(),
            i + part@.len() <= length,
            there == bytes@.subrange(i as int, i + part@.len()),
            forall|j: int| 0 <= j < k ==> there[j] == part@[j],
        decreases part@.len() - k,
    {
        if bytes[i + k] != part[k] {
            proof {
                assert(there[k as int] != part@[k as int]);
            }
            return false;
        }
        k += 1;
    }
    proof {
        assert(there =~= part@);
    }
    true
}

/// Whether `count` digits stand so far behind `i`.
fn has_digits(bytes: &[u8], i: usize, offset: usize, count: usize) -> (found: bool)
    requires
        i < bytes@.len(),
        offset + count <= usize::MAX,
    ensures
        found == digits_at(bytes@, i + offset, count as int),
{
    let length: usize = bytes.len();
    if length - i < offset + count {
        return false;
    }
    let start: usize = i + offset;
    let mut k: usize = 0;
    while k < count
        invariant
            k <= count,
            length == bytes@.len(),
            start == i + offset,
            start + count <= length,
            forall|j: int| start <= j < start + k ==> 0x30 <= #[trigger] bytes@[j] <= 0x39,
        decreases count - k,
    {
        let byte: u8 = bytes[start + k];
        if byte < 0x30 || byte > 0x39 {
            proof {
                assert(!(0x30 <= bytes@[start + k] <= 0x39));
                if digits_at(bytes@, i + offset, count as int) {
                    assert(0x30 <= bytes@[start + k] <= 0x39);
                }
            }
            return false;
        }
        k += 1;
    }
    true
}

/// Whether this byte stands so far behind `i`.
fn has_byte(bytes: &[u8], i: usize, offset: usize, byte: u8) -> (found: bool)
    requires
        i < bytes@.len(),
    ensures
        found == (byte_at(bytes@, i + offset) == Some(byte)),
{
    offset < bytes.len() - i && bytes[i + offset] == byte
}

fn is_overlong(bytes: &[u8], i: usize) -> (found: bool)
    requires
        i < bytes@.len(),
    ensures
        found == overlong_at(bytes@, i as int),
{
    if has_byte(bytes, i, 0, 0x7b) && has_digits(bytes, i, 1, LONG_NUMBER) {
        return true;
    }
    if !is_at(bytes, "[?;".as_bytes(), i) {
        return false;
    }
    if has_digits(bytes, i, 3, LONG_NUMBER) || has_byte(bytes, i, 3, 0x5c) {
        return true;
    }
    has_byte(bytes, i, 3, 0x20) && (has_byte(bytes, i, 4, 0x20) || has_byte(bytes, i, 4, 0x5c)
        || has_digits(bytes, i, 4, LONG_NUMBER))
}

fn is_hidden_at(bytes: &[u8], i: usize) -> (found: bool)
    requires
        i < bytes@.len(),
    ensures
        found == hidden_at(bytes@, i as int),
{
    if !is_at(bytes, "\\u00".as_bytes(), i) {
        return false;
    }
    let length: usize = bytes.len();
    if length - i < 6 {
        return false;
    }
    let high: u8 = bytes[i + 4];
    let low: u8 = bytes[i + 5];
    (high == 0x32 && low == 0x33) || (high == 0x33 && low != 0x63 && low != 0x43 && low != 0x65
        && low != 0x45) || (high == 0x35 && (low == 0x38 || low == 0x62 || low == 0x42 || low == 0x66
        || low == 0x46)) || (high == 0x36 && low != 0x30) || (high == 0x37 && low != 0x65 && low != 0x45 && low != 0x66 && low != 0x46)
}

fn is_wide(bytes: &[u8], i: usize) -> (found: bool)
    requires
        i < bytes@.len(),
    ensures
        found == wide_at(bytes@, i as int),
{
    has_byte(bytes, i, 0, 0x3a) && ((has_byte(bytes, i, 1, 0x30) && has_digits(
        bytes,
        i,
        2,
        LONG_WIDTH,
    )) || (has_byte(bytes, i, 1, 0x23) && has_byte(bytes, i, 2, 0x30) && has_digits(
        bytes,
        i,
        3,
        LONG_WIDTH,
    )))
}

/// Whether this stands right in front of `i`.
fn ends(bytes: &[u8], part: &[u8], i: usize) -> (found: bool)
    requires
        i <= bytes@.len(),
    ensures
        found == ends_at(bytes@, part@, i as int),
{
    part.len() <= i && is_at(bytes, part, i - part.len())
}

fn is_far_date(bytes: &[u8], i: usize) -> (found: bool)
    requires
        i < bytes@.len(),
    ensures
        found == far_date_at(bytes@, i as int),
{
    (is_at(bytes, "iso8601s}".as_bytes(), i) || is_at(bytes, "iso8601ms}".as_bytes(), i)) && !ends(
        bytes,
        "=u8:".as_bytes(),
        i,
    ) && !ends(bytes, "=u16:".as_bytes(), i) && !ends(bytes, "=u32:".as_bytes(), i)
}

fn is_unprintable(bytes: &[u8], i: usize) -> (found: bool)
    requires
        i < bytes@.len(),
    ensures
        found == unprintable_at(bytes@, i as int),
{
    is_far_date(bytes, i) || is_at(bytes, "cbor}".as_bytes(), i) || is_at(
        bytes,
        "|{=u8}".as_bytes(),
        i,
    ) || is_at(bytes, "{=u8}|".as_bytes(), i) || is_wide(bytes, i)
}

fn is_isize(bytes: &[u8], i: usize) -> (found: bool)
    requires
        i < bytes@.len(),
    ensures
        found == isize_at(bytes@, i as int),
{
    is_at(bytes, "=isize}".as_bytes(), i) || is_at(bytes, "=isize:".as_bytes(), i)
}

/// Where the fillers in front of `i` begin.
fn find_fillers(bytes: &[u8], i: usize) -> (start: usize)
    requires
        i <= bytes@.len(),
    ensures
        start <= i,
        start == filled_from(bytes@, i as int),
{
    let mut start: usize = i;
    while start > 0
        invariant
            start <= i <= bytes@.len(),
            filled_from(bytes@, start as int) == filled_from(bytes@, i as int),
        decreases start,
    {
        let byte: u8 = bytes[start - 1];
        if !(byte == 0x20 || byte == 0x23 || (0x30 <= byte && byte <= 0x39) || byte == 0x3b) {
            return start;
        }
        start -= 1;
    }
    start
}

/// Whether in front of `i` stands a type that keeps a hint to itself.
fn is_closed(bytes: &[u8], i: usize) -> (found: bool)
    requires
        i < bytes@.len(),
    ensures
        found == closed_before(bytes@, i as int),
{
    if ends(bytes, "=u8".as_bytes(), i) || ends(bytes, "=u16".as_bytes(), i) || ends(
        bytes,
        "=u32".as_bytes(),
        i,
    ) || ends(bytes, "=u64".as_bytes(), i) || ends(bytes, "=u128".as_bytes(), i) || ends(
        bytes,
        "=usize".as_bytes(),
        i,
    ) {
        return true;
    }
    if ends(bytes, "=i8".as_bytes(), i) || ends(bytes, "=i16".as_bytes(), i) || ends(
        bytes,
        "=i32".as_bytes(),
        i,
    ) || ends(bytes, "=i64".as_bytes(), i) || ends(bytes, "=i128".as_bytes(), i) {
        return true;
    }
    i > 0 && bytes[i - 1] == 0x5d && ends(
        bytes,
        "=[u".as_bytes(),
        find_fillers(bytes, i - 1),
    )
}

fn is_hexadecimal(bytes: &[u8], i: usize) -> (found: bool)
    requires
        i < bytes@.len(),
    ensures
        found == hexadecimal_at(bytes@, i as int),
{
    if !(has_byte(bytes, i, 0, 0x78) || has_byte(bytes, i, 0, 0x58)) || !has_byte(
        bytes,
        i,
        1,
        0x7d,
    ) {
        return false;
    }
    let start: usize = find_fillers(bytes, i);
    start > 0 && bytes[start - 1] == 0x3a && !is_closed(bytes, start - 1)
}

fn is_nesting(bytes: &[u8], i: usize) -> (found: bool)
    requires
        i < bytes@.len(),
    ensures
        found == nests_at(bytes@, i as int),
{
    if has_byte(bytes, i, 0, 0x7b) && (has_byte(bytes, i, 1, 0x7d) || has_byte(bytes, i, 1, 0x3a)
        || has_digits(bytes, i, 1, 1)) {
        return true;
    }
    is_at(bytes, "=?".as_bytes(), i) || is_at(bytes, "=[?".as_bytes(), i) || is_at(
        bytes,
        "=__internal_F".as_bytes(),
        i,
    )
}

/// Whether frames can be decoded by the format strings in here.
pub fn is_sound(bytes: &[u8]) -> (result: bool)
    ensures
        result == sound(bytes@),
{
    let mut i: usize = 0;
    while i < bytes.len()
        invariant
            i <= bytes@.len(),
            forall|k: int| 0 <= k < i ==> !(#[trigger] overlong_at(bytes@, k)),
            forall|k: int| 0 <= k < i ==> !(#[trigger] hidden_at(bytes@, k)),
        decreases bytes@.len() - i,
    {
        if is_overlong(bytes, i) || is_hidden_at(bytes, i) {
            proof {
                assert(overlong_at(bytes@, i as int) || hidden_at(bytes@, i as int));
            }
            return false;
        }
        i += 1;
    }
    true
}

/// Whether decoded frames can be printed by the format strings in here.
pub fn is_calm(bytes: &[u8]) -> (result: bool)
    ensures
        result == calm(bytes@),
{
    let mut i: usize = 0;
    while i < bytes.len()
        invariant
            i <= bytes@.len(),
            forall|k: int| 0 <= k < i ==> !(#[trigger] unprintable_at(bytes@, k)),
            forall|k: int| 0 <= k < i ==> !(#[trigger] hidden_at(bytes@, k)),
        decreases bytes@.len() - i,
    {
        if is_unprintable(bytes, i) || is_hidden_at(bytes, i) {
            proof {
                assert(unprintable_at(bytes@, i as int) || hidden_at(bytes@, i as int));
            }
            return false;
        }
        i += 1;
    }
    true
}

/// Whether all texts have sound format strings.
pub fn are_sound(texts: &[String]) -> (result: bool)
    ensures
        result == all_sound(text::string_views(texts@)),
{
    let ghost views = text::string_views(texts@);
    let mut i: usize = 0;
    while i < texts.len()
        invariant
            i <= texts@.len(),
            views == text::string_views(texts@),
            forall|k: int| 0 <= k < i ==> sound(text::utf8(#[trigger] views[k])),
        decreases texts@.len() - i,
    {
        proof {
            assert(views[i as int] == texts@[i as int]@);
        }
        if !is_sound(texts[i].as_str().as_bytes()) {
            return false;
        }
        i += 1;
    }
    true
}

/// Whether there is a signed number of the target's own size.
pub fn holds_isize(bytes: &[u8]) -> (result: bool)
    ensures
        result == has_isize(bytes@),
{
    let mut i: usize = 0;
    while i < bytes.len()
        invariant
            i <= bytes@.len(),
            forall|k: int| 0 <= k < i ==> !(#[trigger] isize_at(bytes@, k)),
        decreases bytes@.len() - i,
    {
        if is_isize(bytes, i) {
            return true;
        }
        i += 1;
    }
    false
}

/// Whether there is a hint for hexadecimal digits that may be handed on.
pub fn holds_hexadecimal(bytes: &[u8]) -> (result: bool)
    ensures
        result == has_hexadecimal(bytes@),
{
    let mut i: usize = 0;
    while i < bytes.len()
        invariant
            i <= bytes@.len(),
            forall|k: int| 0 <= k < i ==> !(#[trigger] hexadecimal_at(bytes@, k)),
        decreases bytes@.len() - i,
    {
        if is_hexadecimal(bytes, i) {
            return true;
        }
        i += 1;
    }
    false
}

/// Whether no parameter holds a format string of its own.
pub fn is_flat(bytes: &[u8]) -> (result: bool)
    ensures
        result == flat(bytes@),
{
    let mut i: usize = 0;
    while i < bytes.len()
        invariant
            i <= bytes@.len(),
            forall|k: int| 0 <= k < i ==> !(#[trigger] nests_at(bytes@, k)),
        decreases bytes@.len() - i,
    {
        if is_nesting(bytes, i) {
            return false;
        }
        i += 1;
    }
    true
}

/// What the messages with these names ask for that others can hold.
pub fn find_held(symbols: &[String]) -> (found: Held)
    ensures
        found == held(text::string_views(symbols@)),
{
    let ghost views = text::string_views(symbols@);
    let mut found = Held { calm: true, native: false, hexadecimal: false };
    let mut i: usize = 0;
    proof {
        assert(views.take(0) =~= Seq::<Seq<char>>::empty());
        assert(found == held(views.take(0)));
    }
    while i < symbols.len()
        invariant
            i <= symbols@.len(),
            views == text::string_views(symbols@),
            found == held(views.take(i as int)),
        decreases symbols@.len() - i,
    {
        proof {
            assert(views[i as int] == symbols@[i as int]@);
            one_more_is_held(views, i as int);
        }
        let name = symbols[i].as_str().as_bytes();
        if is_held(name) {
            found = Held {
                calm: found.calm && is_calm(name),
                native: found.native || holds_isize(name),
                hexadecimal: found.hexadecimal || holds_hexadecimal(name),
            };
        }
        i += 1;
    }
    proof {
        assert(views.take(i as int) =~= views);
    }
    found
}

proof fn one_more_is_held(symbols: Seq<Seq<char>>, i: int)
    requires
        0 <= i < symbols.len(),
    ensures
        held(symbols.take(i + 1)) == ({
            let before = held(symbols.take(i));
            let name = text::utf8(symbols[i]);
            if names_held(name) {
                Held {
                    calm: before.calm && calm(name),
                    native: before.native || has_isize(name),
                    hexadecimal: before.hexadecimal || has_hexadecimal(name),
                }
            } else {
                before
            }
        }),
{
    let shorter = symbols.take(i);
    let longer = symbols.take(i + 1);
    assert(longer[i] == symbols[i]);
    assert forall|k: int| 0 <= k < i implies shorter[k] == #[trigger] longer[k] by {}
    assert forall|k: int| 0 <= k < i implies longer[k] == #[trigger] shorter[k] by {}
}

/// Whether a message or timestamp with this name can be printed.
pub fn does_fit(held: Held, name: &[u8]) -> (result: bool)
    ensures
        result == fits(held, name@),
{
    if !is_calm(name) {
        return false;
    }
    if is_flat(name) {
        return !(holds_isize(name) && holds_hexadecimal(name));
    }
    held.calm && !((holds_isize(name) || held.native) && (holds_hexadecimal(name)
        || held.hexadecimal))
}

/// Whether all messages can be printed.
pub fn do_all_fit(symbols: &[String]) -> (result: bool)
    ensures
        result == all_fit(text::string_views(symbols@)),
{
    let ghost views = text::string_views(symbols@);
    let found = find_held(symbols);
    let mut i: usize = 0;
    while i < symbols.len()
        invariant
            i <= symbols@.len(),
            views == text::string_views(symbols@),
            found == held(views),
            forall|k: int| 0 <= k < i ==> fits(held(views), text::utf8(#[trigger] views[k])),
        decreases symbols@.len() - i,
    {
        proof {
            assert(views[i as int] == symbols@[i as int]@);
        }
        if !does_fit(found, symbols[i].as_str().as_bytes()) {
            return false;
        }
        i += 1;
    }
    true
}

/// Which messages can be printed, by their indices.
pub fn judge(indices: &[usize], symbols: &[String]) -> (list: Vec<(usize, bool)>)
    ensures
        list@ == judged(indices@, text::string_views(symbols@)),
{
    let ghost views = text::string_views(symbols@);
    let found = find_held(symbols);
    let mut fitting: Vec<bool> = Vec::new();
    let mut i: usize = 0;
    proof {
        assert(views.take(0) =~= Seq::<Seq<char>>::empty());
    }
    while i < symbols.len()
        invariant
            i <= symbols@.len(),
            views == text::string_views(symbols@),
            found == held(views),
            fitting@.len() == messages_of(views.take(i as int)).len(),
            forall|k: int|
                0 <= k < fitting@.len() ==> #[trigger] fitting@[k] == fits(
                    found,
                    text::utf8(messages_of(views.take(i as int))[k]),
                ),
        decreases symbols@.len() - i,
    {
        proof {
            assert(views[i as int] == symbols@[i as int]@);
            assert(views.take(i as int + 1).drop_last() =~= views.take(i as int));
            assert(views.take(i as int + 1).last() == views[i as int]);
        }
        let name = symbols[i].as_str().as_bytes();
        if is_message(name) {
            fitting.push(does_fit(found, name));
        }
        i += 1;
    }
    proof {
        assert(views.take(i as int) =~= views);
    }
    let mut list: Vec<(usize, bool)> = Vec::new();
    if fitting.len() == indices.len() {
        let mut k: usize = 0;
        while k < indices.len()
            invariant
                k <= indices@.len(),
                fitting@.len() == indices@.len(),
                list@.len() == k,
                forall|j: int| 0 <= j < k ==> #[trigger] list@[j] == (indices@[j], fitting@[j]),
            decreases indices@.len() - k,
        {
            list.push((indices[k], fitting[k]));
            k += 1;
        }
    }
    proof {
        assert(list@ =~= judged(indices@, views));
    }
    list
}

/// What a list says of an index.
pub fn find_verdict(list: &[(usize, bool)], index: u64, otherwise: bool) -> (result: bool)
    ensures
        result == verdict(list@, index, otherwise),
{
    let mut i: usize = list.len();
    proof {
        assert(list@.take(i as int) =~= list@);
    }
    while i > 0
        invariant
            i <= list@.len(),
            verdict(list@, index, otherwise) == verdict(list@.take(i as int), index, otherwise),
        decreases i,
    {
        i -= 1;
        proof {
            assert(list@.take(i as int + 1).drop_last() =~= list@.take(i as int));
            assert(list@.take(i as int + 1).last() == list@[i as int]);
        }
        if list[i].0 as u64 == index {
            return list[i].1;
        }
    }
    otherwise
}

fn read_nibble(byte: u8) -> (value: Option<u8>)
    ensures
        value == nibble(byte),
{
    if 0x30 <= byte && byte <= 0x39 {
        Some(byte - 0x30)
    } else if 0x41 <= byte && byte <= 0x46 {
        Some(byte - 0x37)
    } else if 0x61 <= byte && byte <= 0x66 {
        Some(byte - 0x57)
    } else {
        None
    }
}

fn is_escaped(bytes: &[u8], byte: u8, i: usize) -> (found: bool)
    requires
        i <= bytes@.len(),
    ensures
        found == escaped_at(bytes@, byte, i as int),
        found ==> i + 6 <= bytes@.len(),
{
    if !is_at(bytes, "\\u00".as_bytes(), i) || bytes.len() - i < 6 {
        return false;
    }
    match (read_nibble(bytes[i + 4]), read_nibble(bytes[i + 5])) {
        (Some(high), Some(low)) => high == byte / 16 && low == byte % 16,
        _ => false,
    }
}

fn is_spelled(bytes: &[u8], word: &[u8], i: usize) -> (found: bool)
    requires
        i <= bytes@.len(),
    ensures
        found == spelled_at(bytes@, word@, i as int),
{
    let mut at: usize = i;
    let mut k: usize = 0;
    proof {
        assert(word@.skip(0) =~= word@);
    }
    while k < word.len()
        invariant
            k <= word@.len(),
            at <= bytes@.len(),
            spelled_at(bytes@, word@, i as int) == spelled_at(
                bytes@,
                word@.skip(k as int),
                at as int,
            ),
        decreases word@.len() - k,
    {
        proof {
            assert(word@.skip(k as int).skip(1) =~= word@.skip(k as int + 1));
            assert(word@.skip(k as int)[0] == word@[k as int]);
        }
        if at < bytes.len() && bytes[at] == word[k] {
            at += 1;
        } else if is_escaped(bytes, word[k], at) {
            at += 6;
        } else {
            return false;
        }
        k += 1;
    }
    true
}

fn is_tagged(name: &[u8], tag: &[u8]) -> (result: bool)
    ensures
        result == tagged(name@, tag@),
{
    let mut i: usize = 0;
    while i < name.len()
        invariant
            i <= name@.len(),
            forall|k: int| 0 <= k < i ==> !(#[trigger] spelled_at(name@, tag@, k)),
        decreases name@.len() - i,
    {
        if is_spelled(name, tag, i) {
            return true;
        }
        i += 1;
    }
    false
}

/// Whether the name may be that of the timestamp.
pub fn is_stamp(name: &[u8]) -> (result: bool)
    ensures
        result == names_stamp(name@),
{
    is_tagged(name, "\"defmt_timestamp\"".as_bytes())
}

/// Whether the name may be that of a message that can be sent by itself.
pub fn is_message(name: &[u8]) -> (result: bool)
    ensures
        result == names_message(name@),
{
    is_tagged(name, "\"defmt_trace\"".as_bytes()) || is_tagged(
        name,
        "\"defmt_debug\"".as_bytes(),
    ) || is_tagged(name, "\"defmt_info\"".as_bytes()) || is_tagged(
        name,
        "\"defmt_warn\"".as_bytes(),
    ) || is_tagged(name, "\"defmt_error\"".as_bytes()) || is_tagged(
        name,
        "\"defmt_println\"".as_bytes(),
    )
}

/// Whether the name may be that of a message that others can hold.
pub fn is_held(name: &[u8]) -> (result: bool)
    ensures
        result == names_held(name@),
{
    is_tagged(name, "\"defmt_prim\"".as_bytes()) || is_tagged(
        name,
        "\"defmt_derived\"".as_bytes(),
    ) || is_tagged(name, "\"defmt_bitflags\"".as_bytes()) || is_tagged(
        name,
        "\"defmt_write\"".as_bytes(),
    ) || is_tagged(name, "\"defmt_str\"".as_bytes()) || is_tagged(
        name,
        "\"defmt_println\"".as_bytes(),
    )
}

/// The strings of a file that the timestamp's name may stand in.
pub fn stamp_names(file: &[u8]) -> (names: Vec<Vec<u8>>)
    ensures
        forall|k: int| 0 <= k < names@.len() ==> stamp_name(file@, (#[trigger] names@[k])@),
        forall|name: Seq<u8>| #[trigger]
            stamp_name(file@, name) ==> exists|k: int|
                0 <= k < names@.len() && (#[trigger] names@[k])@ == name,
{
    let mut names: Vec<Vec<u8>> = Vec::new();
    let mut i: usize = 0;
    while i < file.len()
        invariant
            i <= file@.len(),
            i == 0 || i == file@.len() || file@[i - 1] == 0 || file@[i as int] == 0,
            forall|k: int| 0 <= k < names@.len() ==> stamp_name(file@, (#[trigger] names@[k])@),
            forall|a: int, b: int| #[trigger]
                name_at(file@, a, b) && a < i && names_stamp(file@.subrange(a, b)) ==> exists|
                    k: int,
                |
                    0 <= k < names@.len() && (#[trigger] names@[k])@ == file@.subrange(a, b),
        decreases file@.len() - i,
    {
        if file[i] == 0 {
            i += 1;
            continue ;
        }
        let end = find_end(file, i);
        let name = vstd::slice::slice_subrange(file, i, end);
        proof {
            assert(name_at(file@, i as int, end as int));
            assert forall|a: int, b: int| #[trigger] name_at(file@, a, b) && i <= a < end implies a
                == i && b == end by {
                if a > i {
                    assert(file@[a - 1] != 0);
                }
                if b < end {
                    assert(file@[b] != 0);
                }
                if b > end {
                    assert(file@[end as int] != 0);
                }
            }
        }
        let ghost before = names@;
        if is_stamp(name) {
            names.push(text::copy_bytes(name));
            proof {
                assert(forall|k: int| 0 <= k < before.len() ==> names@[k] == before[k]);
                assert(names@[before.len() as int]@ == file@.subrange(i as int, end as int));
            }
        }
        i = end;
    }
    names
}

/// The end of the string that goes on at `i`.
fn find_end(file: &[u8], i: usize) -> (end: usize)
    requires
        i < file@.len(),
        file@[i as int] != 0,
    ensures
        i < end <= file@.len(),
        end == file@.len() || file@[end as int] == 0,
        forall|k: int| i <= k < end ==> #[trigger] file@[k] != 0,
{
    let mut end: usize = i;
    while end < file.len() && file[end] != 0
        invariant
            i <= end <= file@.len(),
            forall|k: int| i <= k < end ==> #[trigger] file@[k] != 0,
        decreases file@.len() - end,
    {
        end += 1;
    }
    end
}

/// Whether all names have sound format strings.
pub fn names_are_sound(names: &[Vec<u8>]) -> (result: bool)
    ensures
        result == forall|k: int| 0 <= k < names@.len() ==> sound((#[trigger] names@[k])@),
{
    let mut i: usize = 0;
    while i < names.len()
        invariant
            i <= names@.len(),
            forall|k: int| 0 <= k < i ==> sound((#[trigger] names@[k])@),
        decreases names@.len() - i,
    {
        if !is_sound(names[i].as_slice()) {
            return false;
        }
        i += 1;
    }
    true
}

/// Whether timestamps with all of these names can be printed.
pub fn do_names_fit(held: Held, names: &[Vec<u8>]) -> (result: bool)
    ensures
        result == forall|k: int| 0 <= k < names@.len() ==> fits(held, (#[trigger] names@[k])@),
{
    let mut i: usize = 0;
    while i < names.len()
        invariant
            i <= names@.len(),
            forall|k: int| 0 <= k < i ==> fits(held, (#[trigger] names@[k])@),
        decreases names@.len() - i,
    {
        if !does_fit(held, names[i].as_slice()) {
            return false;
        }
        i += 1;
    }
    true
}

/// None of the signs with a meaning in format strings, nor an escape.
pub open spec fn is_prose(bytes: Seq<u8>) -> bool {
    forall|i: int|
        0 <= i < bytes.len() ==> {
            let byte = #[trigger] bytes[i];
            byte != 0x3a && byte != 0x3d && byte != 0x5b && byte != 0x5c && byte != 0x7b && byte
                != 0x7c && byte != 0x7d
        }
}

#[verifier::rlimit(40)]
proof fn words_are_bytes()
    ensures
        text::utf8("[?;"@) == seq![0x5bu8, 0x3f, 0x3b],
        text::utf8("\\u00"@) == seq![0x5cu8, 0x75, 0x30, 0x30],
        text::utf8("cbor}"@) == seq![0x63u8, 0x62, 0x6f, 0x72, 0x7d],
        text::utf8("|{=u8}"@) == seq![0x7cu8, 0x7b, 0x3d, 0x75, 0x38, 0x7d],
        text::utf8("{=u8}|"@) == seq![0x7bu8, 0x3d, 0x75, 0x38, 0x7d, 0x7c],
        text::utf8("=isize}"@) == seq![0x3du8, 0x69, 0x73, 0x69, 0x7a, 0x65, 0x7d],
        text::utf8("=isize:"@) == seq![0x3du8, 0x69, 0x73, 0x69, 0x7a, 0x65, 0x3a],
        text::utf8("=?"@) == seq![0x3du8, 0x3f],
        text::utf8("=[?"@) == seq![0x3du8, 0x5b, 0x3f],
{
    reveal_strlit("[?;");
    reveal_strlit("\\u00");
    reveal_strlit("cbor}");
    reveal_strlit("|{=u8}");
    reveal_strlit("{=u8}|");
    reveal_strlit("=isize}");
    reveal_strlit("=isize:");
    reveal_strlit("=?");
    reveal_strlit("=[?");
    vstd::utf8::is_ascii_chars_encode_utf8("[?;"@);
    vstd::utf8::is_ascii_chars_encode_utf8("\\u00"@);
    vstd::utf8::is_ascii_chars_encode_utf8("cbor}"@);
    vstd::utf8::is_ascii_chars_encode_utf8("|{=u8}"@);
    vstd::utf8::is_ascii_chars_encode_utf8("{=u8}|"@);
    vstd::utf8::is_ascii_chars_encode_utf8("=isize}"@);
    vstd::utf8::is_ascii_chars_encode_utf8("=isize:"@);
    vstd::utf8::is_ascii_chars_encode_utf8("=?"@);
    vstd::utf8::is_ascii_chars_encode_utf8("=[?"@);
    assert(text::utf8("[?;"@) =~= seq![0x5bu8, 0x3f, 0x3b]);
    assert(text::utf8("\\u00"@) =~= seq![0x5cu8, 0x75, 0x30, 0x30]);
    assert(text::utf8("cbor}"@) =~= seq![0x63u8, 0x62, 0x6f, 0x72, 0x7d]);
    assert(text::utf8("|{=u8}"@) =~= seq![0x7cu8, 0x7b, 0x3d, 0x75, 0x38, 0x7d]);
    assert(text::utf8("{=u8}|"@) =~= seq![0x7bu8, 0x3d, 0x75, 0x38, 0x7d, 0x7c]);
    assert(text::utf8("=isize}"@) =~= seq![0x3du8, 0x69, 0x73, 0x69, 0x7a, 0x65, 0x7d]);
    assert(text::utf8("=isize:"@) =~= seq![0x3du8, 0x69, 0x73, 0x69, 0x7a, 0x65, 0x3a]);
    assert(text::utf8("=?"@) =~= seq![0x3du8, 0x3f]);
    assert(text::utf8("=[?"@) =~= seq![0x3du8, 0x5b, 0x3f]);
}

proof fn dates_are_bytes()
    ensures
        text::utf8("iso8601s}"@).len() == 9,
        text::utf8("iso8601s}"@)[8] == 0x7d,
        text::utf8("iso8601ms}"@).len() == 10,
        text::utf8("iso8601ms}"@)[9] == 0x7d,
        text::utf8("=__internal_F"@).len() == 13,
        text::utf8("=__internal_F"@)[0] == 0x3d,
{
    reveal_strlit("iso8601s}");
    reveal_strlit("iso8601ms}");
    reveal_strlit("=__internal_F");
    assert("iso8601s}"@[8] == '}' && "iso8601ms}"@[9] == '}' && "=__internal_F"@[0] == '=');
    vstd::utf8::is_ascii_chars_encode_utf8("iso8601s}"@);
    vstd::utf8::is_ascii_chars_encode_utf8("iso8601ms}"@);
    vstd::utf8::is_ascii_chars_encode_utf8("=__internal_F"@);
}

/// What stands somewhere brings each of its bytes.
proof fn standing_parts_have_their_bytes(bytes: Seq<u8>, part: Seq<u8>, i: int, k: int)
    requires
        stands_at(bytes, part, i),
        0 <= k < part.len(),
    ensures
        0 <= i + k < bytes.len(),
        bytes[i + k] == part[k],
{
    assert(bytes.subrange(i, i + part.len())[k] == part[k]);
}

/// Plain prose can be decoded and printed whatever else there is: a table of such
/// messages is never refused.
#[verifier::rlimit(40)]
pub proof fn prose_can_be_printed(name: Seq<u8>, held: Held)
    requires
        is_prose(name),
    ensures
        sound(name),
        calm(name),
        flat(name),
        !has_isize(name),
        !has_hexadecimal(name),
        fits(held, name),
{
    words_are_bytes();
    dates_are_bytes();
    assert forall|i: int| 0 <= i < name.len() implies !(#[trigger] hidden_at(name, i)) by {
        if hidden_at(name, i) {
            standing_parts_have_their_bytes(name, text::utf8("\\u00"@), i, 0);
        }
    }
    assert forall|i: int| 0 <= i < name.len() implies !(#[trigger] overlong_at(name, i)) by {
        if stands_at(name, text::utf8("[?;"@), i) {
            standing_parts_have_their_bytes(name, text::utf8("[?;"@), i, 0);
        }
    }
    assert forall|i: int| 0 <= i < name.len() implies !(#[trigger] unprintable_at(name, i)) by {
        prose_is_printable_at(name, i);
    }
    assert forall|i: int| 0 <= i < name.len() implies !(#[trigger] nests_at(name, i)) by {
        if stands_at(name, text::utf8("=?"@), i) {
            standing_parts_have_their_bytes(name, text::utf8("=?"@), i, 0);
        }
        if stands_at(name, text::utf8("=[?"@), i) {
            standing_parts_have_their_bytes(name, text::utf8("=[?"@), i, 0);
        }
        if stands_at(name, text::utf8("=__internal_F"@), i) {
            standing_parts_have_their_bytes(name, text::utf8("=__internal_F"@), i, 0);
        }
    }
    assert forall|i: int| 0 <= i < name.len() implies !(#[trigger] isize_at(name, i)) by {
        if stands_at(name, text::utf8("=isize}"@), i) {
            standing_parts_have_their_bytes(name, text::utf8("=isize}"@), i, 0);
        }
        if stands_at(name, text::utf8("=isize:"@), i) {
            standing_parts_have_their_bytes(name, text::utf8("=isize:"@), i, 0);
        }
    }
    assert forall|i: int| 0 <= i < name.len() implies !(#[trigger] hexadecimal_at(name, i)) by {}
}

proof fn prose_is_printable_at(name: Seq<u8>, i: int)
    requires
        is_prose(name),
        0 <= i < name.len(),
    ensures
        !unprintable_at(name, i),
{
    words_are_bytes();
    dates_are_bytes();
    if stands_at(name, text::utf8("iso8601s}"@), i) {
        standing_parts_have_their_bytes(name, text::utf8("iso8601s}"@), i, 8);
    }
    if stands_at(name, text::utf8("iso8601ms}"@), i) {
        standing_parts_have_their_bytes(name, text::utf8("iso8601ms}"@), i, 9);
    }
    if stands_at(name, text::utf8("cbor}"@), i) {
        standing_parts_have_their_bytes(name, text::utf8("cbor}"@), i, 4);
    }
    if stands_at(name, text::utf8("|{=u8}"@), i) {
        standing_parts_have_their_bytes(name, text::utf8("|{=u8}"@), i, 0);
    }
    if stands_at(name, text::utf8("{=u8}|"@), i) {
        standing_parts_have_their_bytes(name, text::utf8("{=u8}|"@), i, 0);
    }
}

/// Whatever stands around them, bare bytes among variants, CBOR data, padding to
/// five or more digits, and letters that hide behind an escape keep a message from
/// being printed.
#[verifier::rlimit(40)]
pub proof fn unprintable_parts_are_seen(front: Seq<u8>, back: Seq<u8>, width: Seq<u8>, held: Held)
    requires
        width.len() == 5,
        forall|i: int| 0 <= i < width.len() ==> 0x30 <= #[trigger] width[i] <= 0x39,
    ensures
        !fits(held, front + seq![0x63u8, 0x62, 0x6f, 0x72, 0x7d] + back),
        !fits(held, front + seq![0x7cu8, 0x7b, 0x3d, 0x75, 0x38, 0x7d] + back),
        !fits(held, front + seq![0x7bu8, 0x3d, 0x75, 0x38, 0x7d, 0x7c] + back),
        !fits(held, front + (seq![0x3au8, 0x30] + width) + back),
        !fits(held, front + seq![0x5cu8, 0x75, 0x30, 0x30, 0x36, 0x31] + back),
        !sound(front + seq![0x5cu8, 0x75, 0x30, 0x30, 0x36, 0x31] + back),
{
    words_are_bytes();
    let n = front.len() as int;
    let cbor = seq![0x63u8, 0x62, 0x6f, 0x72, 0x7d];
    let first = seq![0x7cu8, 0x7b, 0x3d, 0x75, 0x38, 0x7d];
    let last = seq![0x7bu8, 0x3d, 0x75, 0x38, 0x7d, 0x7c];
    let wide = seq![0x3au8, 0x30] + width;
    let hidden = seq![0x5cu8, 0x75, 0x30, 0x30, 0x36, 0x31];
    assert((front + cbor + back).subrange(n, n + 5) =~= cbor);
    assert(unprintable_at(front + cbor + back, n));
    assert((front + first + back).subrange(n, n + 6) =~= first);
    assert(unprintable_at(front + first + back, n));
    assert((front + last + back).subrange(n, n + 6) =~= last);
    assert(unprintable_at(front + last + back, n));
    let padded = front + wide + back;
    assert(padded[n] == 0x3a && padded[n + 1] == 0x30);
    assert forall|k: int| n + 2 <= k < n + 7 implies 0x30 <= #[trigger] padded[k] <= 0x39 by {
        assert(padded[k] == width[k - n - 2]);
    }
    assert(digits_at(padded, n + 2, 5));
    assert(unprintable_at(padded, n));
    let name = front + hidden + back;
    assert(name.subrange(n, n + 4) =~= seq![0x5cu8, 0x75, 0x30, 0x30]);
    assert(name[n + 4] == 0x36 && name[n + 5] == 0x31);
    assert(hidden_at(name, n));
}

/// A name that says in plain letters what it is, is taken for that.
pub proof fn plain_tags_are_seen(front: Seq<u8>, tag: Seq<u8>, back: Seq<u8>)
    requires
        tag.len() > 0,
    ensures
        tagged(front + tag + back, tag),
{
    let name = front + tag + back;
    let n = front.len() as int;
    assert(name.subrange(n, n + tag.len()) =~= tag);
    plain_words_are_spelled(name, tag, n);
}

proof fn plain_words_are_spelled(bytes: Seq<u8>, word: Seq<u8>, i: int)
    requires
        stands_at(bytes, word, i),
    ensures
        spelled_at(bytes, word, i),
    decreases word.len(),
{
    if word.len() > 0 {
        standing_parts_have_their_bytes(bytes, word, i, 0);
        let rest = word.skip(1);
        assert(bytes.subrange(i + 1, i + 1 + rest.len()) =~= bytes.subrange(
            i,
            i + word.len(),
        ).skip(1));
        plain_words_are_spelled(bytes, rest, i + 1);
    }
}

/// Whether a symbol names a message that can be sent by itself.
pub open spec fn sent_by_itself() -> spec_fn(Seq<char>) -> bool {
    |symbol: Seq<char>| names_message(text::utf8(symbol))
}

/// Every symbol that names a message is among the messages, in order, and nothing
/// else is.
pub proof fn no_message_is_left_out(symbols: Seq<Seq<char>>)
    ensures
        messages_of(symbols) == symbols.filter(sent_by_itself()),
    decreases symbols.len(),
{
    reveal(Seq::filter);
    if symbols.len() > 0 {
        no_message_is_left_out(symbols.drop_last());
        assert(messages_of(symbols) =~= symbols.filter(sent_by_itself()));
    } else {
        assert(messages_of(symbols) =~= symbols.filter(sent_by_itself()));
    }
}

/// A message is judged by its own name where the names can be told apart; where
/// they cannot, or the index is unknown, it is printed only if every message could
/// be.
#[verifier::rlimit(40)]
pub proof fn messages_are_judged_by_their_names(
    indices: Seq<usize>,
    symbols: Seq<Seq<char>>,
    index: u64,
    i: int,
)
    requires
        indices.no_duplicates(),
    ensures
        messages_of(symbols).len() == indices.len() && 0 <= i < indices.len() && indices[i] == index
            ==> may_print(indices, symbols, index) == fits(
            held(symbols),
            text::utf8(messages_of(symbols)[i]),
        ),
        messages_of(symbols).len() != indices.len() ==> may_print(indices, symbols, index)
            == all_fit(symbols),
        (forall|k: int| 0 <= k < indices.len() ==> #[trigger] indices[k] != index) ==> may_print(
            indices,
            symbols,
            index,
        ) == all_fit(symbols),
        all_fit(symbols) ==> may_print(indices, symbols, index),
{
    let list = judged(indices, symbols);
    let otherwise = all_fit(symbols);
    let messages = messages_of(symbols);
    no_message_is_left_out(symbols);
    if list.len() > 0 {
        assert forall|k: int| 0 <= k < list.len() implies (#[trigger] list[k]).0 == indices[k] by {}
        if 0 <= i < indices.len() && indices[i] == index {
            verdict_of_entry(list, index, otherwise, i);
        }
        if forall|k: int| 0 <= k < indices.len() ==> #[trigger] indices[k] != index {
            verdict_of_stranger(list, index, otherwise);
        }
        if otherwise {
            assert forall|k: int| 0 <= k < list.len() implies (#[trigger] list[k]).1 by {
                message_is_a_symbol(symbols, k);
            }
            verdict_of_good_list(list, index);
        }
    }
}

proof fn verdict_of_entry(list: Seq<(usize, bool)>, index: u64, otherwise: bool, i: int)
    requires
        0 <= i < list.len(),
        list[i].0 == index,
        forall|k: int| i < k < list.len() ==> (#[trigger] list[k]).0 != index,
    ensures
        verdict(list, index, otherwise) == list[i].1,
    decreases list.len(),
{
    if i < list.len() - 1 {
        assert(list[list.len() - 1].0 != index);
        assert forall|k: int| i < k < list.drop_last().len() implies (
        #[trigger] list.drop_last()[k]).0 != index by {
            assert(list[k].0 != index);
        }
        verdict_of_entry(list.drop_last(), index, otherwise, i);
    }
}

proof fn verdict_of_stranger(list: Seq<(usize, bool)>, index: u64, otherwise: bool)
    requires
        forall|k: int| 0 <= k < list.len() ==> (#[trigger] list[k]).0 != index,
    ensures
        verdict(list, index, otherwise) == otherwise,
    decreases list.len(),
{
    if list.len() > 0 {
        assert(list[list.len() - 1].0 != index);
        assert forall|k: int| 0 <= k < list.drop_last().len() implies (
        #[trigger] list.drop_last()[k]).0 != index by {
            assert(list[k].0 != index);
        }
        verdict_of_stranger(list.drop_last(), index, otherwise);
    }
}

proof fn verdict_of_good_list(list: Seq<(usize, bool)>, index: u64)
    requires
        forall|k: int| 0 <= k < list.len() ==> (#[trigger] list[k]).1,
    ensures
        verdict(list, index, true),
    decreases list.len(),
{
    if list.len() > 0 {
        assert(list[list.len() - 1].1);
        assert forall|k: int| 0 <= k < list.drop_last().len() implies (
        #[trigger] list.drop_last()[k]).1 by {
            assert(list[k].1);
        }
        verdict_of_good_list(list.drop_last(), index);
    }
}

/// What one message asks for counts for all that may hold it, wherever it stands.
pub proof fn held_messages_count(symbols: Seq<Seq<char>>, i: int)
    requires
        0 <= i < symbols.len(),
        names_held(text::utf8(symbols[i])),
    ensures
        held(symbols).calm ==> calm(text::utf8(symbols[i])),
        has_isize(text::utf8(symbols[i])) ==> held(symbols).native,
        has_hexadecimal(text::utf8(symbols[i])) ==> held(symbols).hexadecimal,
{
}

proof fn message_is_a_symbol(symbols: Seq<Seq<char>>, k: int)
    requires
        0 <= k < messages_of(symbols).len(),
    ensures
        exists|i: int| 0 <= i < symbols.len() && #[trigger] symbols[i] == messages_of(symbols)[k],
    decreases symbols.len(),
{
    let fewer = symbols.drop_last();
    if k < messages_of(fewer).len() {
        message_is_a_symbol(fewer, k);
        let i = choose|i: int|
            0 <= i < fewer.len() && #[trigger] fewer[i] == messages_of(fewer)[k];
        assert(symbols[i] == messages_of(symbols)[k]);
    } else {
        assert(symbols[symbols.len() - 1] == messages_of(symbols)[k]);
    }
}

} // verus!
