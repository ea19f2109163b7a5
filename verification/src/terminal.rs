//! One terminal model shared by the live view and the decoded log.
//!
//! Target bytes go through a one-row terminal. Each line feed that the terminal
//! executes turns the row into a finished line; what is left on the row is the
//! partial line.
use crate::text;
use vstd::prelude::*;

verus! {

/// Columns of the row that are shown and logged.
pub const MAX_TERMINAL_COLUMNS: usize = 4096;

/// Last column at which the cursor may rest between two bytes.
pub const COLUMN_LIMIT: u16 = 4096;

/// Rows of the backing terminal.
pub const TERMINAL_ROWS: u16 = 1;

/// Columns of the backing terminal: the shown ones and room for the widest
/// character beyond them.
pub const TERMINAL_BACKING_COLUMNS: u16 = 4099;

pub const DISABLE_LINE_WRAP: &'static str = "\x1b[?7l";

pub const ANSI_RESET: &'static str = "\x1b[0m";

pub const ERASE_CURRENT_LINE: &'static str = "\r\x1b[2K";

/// A line of terminal output, as text and with its attributes.
#[derive(Debug)]
pub struct TerminalLine {
    pub plain: Vec<u8>,
    pub styled: Vec<u8>,
}

/// What a `TerminalLine` holds.
#[verifier::ext_equal]
pub struct LineView {
    pub plain: Seq<u8>,
    pub styled: Seq<u8>,
}

impl View for TerminalLine {
    type V = LineView;

    open spec fn view(&self) -> LineView {
        LineView { plain: self.plain@, styled: self.styled@ }
    }
}

/// What one run of bytes produced: finished lines, each ending in a line feed,
/// and the line still being written.
#[derive(Debug)]
pub struct TerminalChunk {
    pub lines: Vec<TerminalLine>,
    pub partial: TerminalLine,
}

/// The views of a list of lines.
pub open spec fn line_views(lines: Seq<TerminalLine>) -> Seq<LineView> {
    Seq::new(lines.len(), |i: int| lines[i]@)
}

/// Text without control characters and the line feed that ends it.
pub open spec fn is_text_line(line: Seq<u8>) -> bool {
    line.len() > 0 && line.last() == 0x0a && text::no_control_bytes(line.drop_last())
}

/// Where the terminal is within an escape sequence.
#[derive(Clone, Copy, Debug, PartialEq, Eq, Structural)]
pub enum InputState {
    Ground,
    Escape,
    EscapeIntermediate,
    Csi,
    Osc,
    DcsEntry,
    DcsParam,
    DcsIntermediate,
    DcsPassthrough,
    DcsIgnore,
    SosPmApc,
}

impl InputState {
    /// Whether control characters are carried out in this state rather than
    /// swallowed by a string or a device control sequence.
    pub open spec fn executes_controls(self) -> bool {
        self is Ground || self is Escape || self is EscapeIntermediate || self is Csi
    }

    /// Line feed, vertical tab and form feed all move to the next line.
    pub open spec fn is_line_feed(byte: u8) -> bool {
        0x0a <= byte <= 0x0c
    }

    /// The state after `byte`.
    pub open spec fn after(self, byte: u8) -> InputState {
        if byte == 0x18 || byte == 0x1a {
            InputState::Ground
        } else if byte == 0x1b {
            InputState::Escape
        } else {
            match self {
                InputState::Ground => InputState::Ground,
                InputState::Escape => if 0x20 <= byte <= 0x2f {
                    InputState::EscapeIntermediate
                } else if byte == 0x50 {
                    InputState::DcsEntry
                } else if byte == 0x58 || byte == 0x5e || byte == 0x5f {
                    InputState::SosPmApc
                } else if byte == 0x5b {
                    InputState::Csi
                } else if byte == 0x5d {
                    InputState::Osc
                } else if 0x30 <= byte <= 0x7e {
                    InputState::Ground
                } else {
                    InputState::Escape
                },
                InputState::EscapeIntermediate => if 0x30 <= byte <= 0x7e {
                    InputState::Ground
                } else {
                    InputState::EscapeIntermediate
                },
                InputState::Csi => if 0x40 <= byte <= 0x7e {
                    InputState::Ground
                } else {
                    InputState::Csi
                },
                InputState::Osc => if byte == 0x07 {
                    InputState::Ground
                } else {
                    InputState::Osc
                },
                InputState::DcsEntry => if 0x40 <= byte <= 0x7e {
                    InputState::DcsPassthrough
                } else if 0x30 <= byte <= 0x3f {
                    InputState::DcsParam
                } else if 0x20 <= byte <= 0x2f {
                    InputState::DcsIntermediate
                } else {
                    InputState::DcsEntry
                },
                InputState::DcsParam => if 0x40 <= byte <= 0x7e {
                    InputState::DcsPassthrough
                } else if 0x3c <= byte <= 0x3f {
                    InputState::DcsIgnore
                } else if 0x20 <= byte <= 0x2f {
                    InputState::DcsIntermediate
                } else {
                    InputState::DcsParam
                },
                InputState::DcsIntermediate => if 0x40 <= byte <= 0x7e {
                    InputState::DcsPassthrough
                } else if 0x30 <= byte <= 0x3f {
                    InputState::DcsIgnore
                } else {
                    InputState::DcsIntermediate
                },
                InputState::DcsPassthrough => if byte == 0x9c {
                    InputState::Ground
                } else {
                    InputState::DcsPassthrough
                },
                InputState::DcsIgnore => InputState::DcsIgnore,
                InputState::SosPmApc => InputState::SosPmApc,
            }
        }
    }

    /// The state after `bytes`.
    pub open spec fn after_all(self, bytes: Seq<u8>) -> InputState
        decreases bytes.len(),
    {
        if bytes.len() == 0 {
            self
        } else {
            self.after_all(bytes.drop_last()).after(bytes.last())
        }
    }

    /// Takes one byte: the next state, and whether the byte ends a line.
    pub fn observe(self, byte: u8) -> (result: (Self, bool))
        ensures
            result.0 == self.after(byte),
            result.1 == (self.executes_controls() && InputState::is_line_feed(byte)),
    {
        if byte == 0x18 || byte == 0x1a {
            return (InputState::Ground, false);
        }
        if byte == 0x1b {
            return (InputState::Escape, false);
        }
        let line_feed = byte >= 0x0a && byte <= 0x0c;
        let intermediate = byte >= 0x20 && byte <= 0x2f;
        let ends_sequence = byte >= 0x40 && byte <= 0x7e;
        match self {
            InputState::Ground => (InputState::Ground, line_feed),
            InputState::Escape => if intermediate {
                (InputState::EscapeIntermediate, false)
            } else if byte == 0x50 {
                (InputState::DcsEntry, false)
            } else if byte == 0x58 || byte == 0x5e || byte == 0x5f {
                (InputState::SosPmApc, false)
            } else if byte == 0x5b {
                (InputState::Csi, false)
            } else if byte == 0x5d {
                (InputState::Osc, false)
            } else if byte >= 0x30 && byte <= 0x7e {
                (InputState::Ground, false)
            } else {
                (InputState::Escape, line_feed)
            },
            InputState::EscapeIntermediate => if byte >= 0x30 && byte <= 0x7e {
                (InputState::Ground, false)
            } else {
                (InputState::EscapeIntermediate, line_feed)
            },
            InputState::Csi => if ends_sequence {
                (InputState::Ground, false)
            } else {
                (InputState::Csi, line_feed)
            },
            InputState::Osc => if byte == 0x07 {
                (InputState::Ground, false)
            } else {
                (InputState::Osc, false)
            },
            InputState::DcsEntry => if ends_sequence {
                (InputState::DcsPassthrough, false)
            } else if byte >= 0x30 && byte <= 0x3f {
                (InputState::DcsParam, false)
            } else if intermediate {
                (InputState::DcsIntermediate, false)
            } else {
                (InputState::DcsEntry, false)
            },
            InputState::DcsParam => if ends_sequence {
                (InputState::DcsPassthrough, false)
            } else if byte >= 0x3c && byte <= 0x3f {
                (InputState::DcsIgnore, false)
            } else if intermediate {
                (InputState::DcsIntermediate, false)
            } else {
                (InputState::DcsParam, false)
            },
            InputState::DcsIntermediate => if ends_sequence {
                (InputState::DcsPassthrough, false)
            } else if byte >= 0x30 && byte <= 0x3f {
                (InputState::DcsIgnore, false)
            } else {
                (InputState::DcsIntermediate, false)
            },
            InputState::DcsPassthrough => if byte == 0x9c {
                (InputState::Ground, false)
            } else {
                (InputState::DcsPassthrough, false)
            },
            InputState::DcsIgnore => (InputState::DcsIgnore, false),
            InputState::SosPmApc => (InputState::SosPmApc, false),
        }
    }
}

/// A terminal of the `vt100` crate without scrollback.
#[verifier::external_body]
pub struct Screen {
    parser: vt100::Parser<()>,
}

/// Rows and columns that a screen was made with.
pub uninterp spec fn screen_size(screen: Screen) -> (u16, u16);

/// The bytes that a screen has processed so far, one at a time.
pub uninterp spec fn screen_input(screen: Screen) -> Seq<u8>;

/// The text of the first row, cut to its first `width` columns, of a terminal of
/// `rows` by `cols` cells that has processed `input`.
pub uninterp spec fn row_text(rows: u16, cols: u16, input: Seq<u8>, width: u16) -> Seq<char>;

/// The same row with the escape sequences that draw its attributes.
pub uninterp spec fn row_formatted(rows: u16, cols: u16, input: Seq<u8>, width: u16) -> Seq<u8>;

/// The cursor's row and column.
pub uninterp spec fn cursor_of(rows: u16, cols: u16, input: Seq<u8>) -> (u16, u16);

/// The attributes that apply to what is written next.
pub uninterp spec fn style_of(rows: u16, cols: u16, input: Seq<u8>) -> ActiveStyle;

/// The escape sequences that select those attributes.
pub uninterp spec fn attributes_of(rows: u16, cols: u16, input: Seq<u8>) -> Seq<u8>;

/// The attributes that apply to what is written next.
#[derive(Clone, Copy, Debug, PartialEq, Eq, Structural)]
pub struct ActiveStyle {
    pub default_foreground: bool,
    pub default_background: bool,
    pub bold: bool,
    pub dim: bool,
    pub italic: bool,
    pub underline: bool,
    pub inverse: bool,
}

/// `vt100::Parser::new`: a blank terminal that has processed nothing. The crate
/// computes with the last row and with the column before the last one, so a
/// terminal has at least one row and two columns.
#[verifier::external_body]
fn new_screen(rows: u16, cols: u16) -> (screen: Screen)
    requires
        rows >= 1,
        cols >= 2,
    ensures
        screen_size(screen) == (rows, cols),
        screen_input(screen) == Seq::<u8>::empty(),
{
    Screen { parser: vt100::Parser::new(rows, cols, 0) }
}

/// Where a terminal that has processed `input` is within an escape sequence.
pub open spec fn state_of(input: Seq<u8>) -> InputState {
    InputState::Ground.after_all(input)
}

/// `after` is `before` and the sequence that moves the cursor back.
pub open spec fn steps_back(before: Seq<u8>, distance: int, after: Seq<u8>) -> bool {
    after == before + text::utf8(move_back(distance))
}

/// `vt100::Parser::process` on a single byte: the terminal has processed that
/// byte after all earlier ones and keeps its size. A whole sequence that moves the
/// cursor back does so, as far as the first column.
///
/// The crate cannot wrap a line on a terminal of one row, so there is room for
/// the widest character, of three columns, wherever one may be written: outside
/// of escape sequences, by a byte that is no control character. It takes tab stops
/// to be columns that fit its integers.
#[verifier::external_body]
fn feed(screen: &mut Screen, byte: u8)
    requires
        screen_size(*old(screen)).0 == 1,
        3 <= screen_size(*old(screen)).1 <= 65528,
        byte < 0x20 || !(state_of(screen_input(*old(screen))) is Ground) || cursor_of(
            screen_size(*old(screen)).0,
            screen_size(*old(screen)).1,
            screen_input(*old(screen)),
        ).1 + 3 <= screen_size(*old(screen)).1,
    ensures
        screen_size(*final(screen)) == screen_size(*old(screen)),
        screen_input(*final(screen)) == screen_input(*old(screen)).push(byte),
        forall|before: Seq<u8>, distance: int|
            0 < distance <= u16::MAX && state_of(before) is Ground && #[trigger] steps_back(
                before,
                distance,
                screen_input(*final(screen)),
            ) ==> {
                let (rows, cols) = screen_size(*final(screen));
                let start = cursor_of(rows, cols, before).1;
                cursor_of(rows, cols, screen_input(*final(screen))).1 == (if start > distance {
                    start - distance
                } else {
                    0
                })
            },
{
    screen.parser.process(&[byte]);
}

/// `vt100::Screen::rows`, of which the first row is taken: the row's text is a
/// function of the terminal's size, of what it processed and of the width.
/// Control characters are carried out, never put into a cell, so the text holds
/// none.
#[verifier::external_body]
fn first_row(screen: &Screen, width: u16) -> (text: String)
    ensures
        text@ == row_text(
            screen_size(*screen).0,
            screen_size(*screen).1,
            screen_input(*screen),
            width,
        ),
        text::no_controls(text@),
{
    screen.parser.screen().rows(0, width).next().unwrap_or_default()
}

/// `vt100::Screen::rows_formatted`, of which the first row is taken: a function
/// of the same values as the row's text.
#[verifier::external_body]
fn first_row_formatted(screen: &Screen, width: u16) -> (bytes: Vec<u8>)
    ensures
        bytes@ == row_formatted(
            screen_size(*screen).0,
            screen_size(*screen).1,
            screen_input(*screen),
            width,
        ),
{
    screen.parser.screen().rows_formatted(0, width).next().unwrap_or_default()
}

/// `vt100::Screen::cursor_position`: row and column of the cursor.
#[verifier::external_body]
fn cursor_position(screen: &Screen) -> (position: (u16, u16))
    ensures
        position == cursor_of(
            screen_size(*screen).0,
            screen_size(*screen).1,
            screen_input(*screen),
        ),
{
    screen.parser.screen().cursor_position()
}

/// The attribute getters of `vt100::Screen`, one for each field: whether the
/// colours are the terminal's defaults, and which text modes are on.
#[verifier::external_body]
fn active_style(screen: &Screen) -> (style: ActiveStyle)
    ensures
        style == style_of(screen_size(*screen).0, screen_size(*screen).1, screen_input(*screen)),
{
    let screen = screen.parser.screen();
    ActiveStyle {
        default_foreground: screen.fgcolor() == vt100::Color::Default,
        default_background: screen.bgcolor() == vt100::Color::Default,
        bold: screen.bold(),
        dim: screen.dim(),
        italic: screen.italic(),
        underline: screen.underline(),
        inverse: screen.inverse(),
    }
}

/// `vt100::Screen::attributes_formatted`: the bytes that select the attributes
/// in force.
#[verifier::external_body]
fn attributes_formatted(screen: &Screen) -> (bytes: Vec<u8>)
    ensures
        bytes@ == attributes_of(
            screen_size(*screen).0,
            screen_size(*screen).1,
            screen_input(*screen),
        ),
{
    screen.parser.screen().attributes_formatted()
}

impl ActiveStyle {
    /// Nothing but the terminal's defaults applies.
    pub open spec fn plain(self) -> bool {
        self.default_foreground && self.default_background && !self.bold && !self.dim
            && !self.italic && !self.underline && !self.inverse
    }

    pub fn is_plain(&self) -> (plain: bool)
        ensures
            plain == self.plain(),
    {
        self.default_foreground && self.default_background && !self.bold && !self.dim
            && !self.italic && !self.underline && !self.inverse
    }
}

/// The state of a decoded stream: where it is within an escape sequence and what
/// the terminal behind it has processed.
#[verifier::ext_equal]
pub struct StreamView {
    pub state: InputState,
    pub input: Seq<u8>,
}

/// The sequence that moves the cursor `distance` columns back.
pub open spec fn move_back(distance: int) -> Seq<char> {
    "\x1b["@ + text::decimal(distance as nat) + "D"@
}

/// The sequence that moves the cursor `distance` columns ahead.
pub open spec fn move_ahead(distance: int) -> Seq<char> {
    "\x1b["@ + text::decimal(distance as nat) + "C"@
}

impl StreamView {
    /// The stream before any byte: line wrapping is switched off.
    pub open spec fn initial() -> StreamView {
        (StreamView {
            state: InputState::Ground,
            input: text::utf8(DISABLE_LINE_WRAP@),
        }).clamped()
    }

    /// Column of the cursor.
    pub open spec fn column(self) -> int {
        cursor_of(TERMINAL_ROWS, TERMINAL_BACKING_COLUMNS, self.input).1 as int
    }

    /// The text on the row.
    pub open spec fn row(self) -> Seq<u8> {
        text::utf8(
            row_text(TERMINAL_ROWS, TERMINAL_BACKING_COLUMNS, self.input, COLUMN_LIMIT),
        )
    }

    /// The text on the row with its attributes.
    pub open spec fn styled_row(self) -> Seq<u8> {
        row_formatted(TERMINAL_ROWS, TERMINAL_BACKING_COLUMNS, self.input, COLUMN_LIMIT)
    }

    /// The cursor as the view shows it.
    pub open spec fn shown_column(self) -> int {
        if self.column() <= MAX_TERMINAL_COLUMNS {
            self.column()
        } else {
            MAX_TERMINAL_COLUMNS as int
        }
    }

    /// The sequences that select the attributes in force, none for the defaults.
    pub open spec fn attributes(self) -> Seq<u8> {
        if style_of(TERMINAL_ROWS, TERMINAL_BACKING_COLUMNS, self.input).plain() {
            seq![]
        } else {
            attributes_of(TERMINAL_ROWS, TERMINAL_BACKING_COLUMNS, self.input)
        }
    }

    /// A cursor beyond the last column comes back to it, unless an escape
    /// sequence is still open: that one must not be broken.
    pub open spec fn clamped(self) -> StreamView {
        if self.state is Ground && self.column() > COLUMN_LIMIT {
            StreamView {
                state: self.state,
                input: self.input + text::utf8(move_back(self.column() - COLUMN_LIMIT)),
            }
        } else {
            self
        }
    }

    /// One more byte processed in state `state`.
    pub open spec fn processed(self, state: InputState, byte: u8) -> StreamView {
        (StreamView { state, input: self.input.push(byte) }).clamped()
    }

    /// Whether `byte` finishes the row.
    pub open spec fn finishes(self, byte: u8) -> bool {
        self.state.executes_controls() && InputState::is_line_feed(byte)
    }

    /// The stream after `byte`. A line feed also returns the cursor to column 0.
    pub open spec fn after(self, byte: u8) -> StreamView {
        let next = self.state.after(byte);
        let fed = self.processed(next, byte);
        if self.finishes(byte) {
            fed.processed(next, 0x0d)
        } else {
            fed
        }
    }

    /// The stream after `bytes`.
    pub open spec fn after_all(self, bytes: Seq<u8>) -> StreamView
        decreases bytes.len(),
    {
        if bytes.len() == 0 {
            self
        } else {
            self.after_all(bytes.drop_last()).after(bytes.last())
        }
    }

    /// The row as a finished line.
    pub open spec fn finished_line(self, styled: bool) -> LineView {
        LineView {
            plain: self.row().push(0x0a),
            styled: if styled {
                self.styled_row()
            } else {
                seq![]
            },
        }
    }

    /// The lines that `bytes` finish, in order.
    pub open spec fn lines(self, bytes: Seq<u8>, styled: bool) -> Seq<LineView>
        decreases bytes.len(),
    {
        if bytes.len() == 0 {
            seq![]
        } else {
            let earlier = self.lines(bytes.drop_last(), styled);
            let stream = self.after_all(bytes.drop_last());
            if stream.finishes(bytes.last()) {
                earlier.push(stream.finished_line(styled))
            } else {
                earlier
            }
        }
    }

    /// The unfinished row as it is drawn: where the cursor is not at the end of
    /// the text it is saved before drawing, restored and moved to its column.
    pub open spec fn rendered_partial(self) -> Seq<u8> {
        if self.shown_column() == self.row().len() {
            self.styled_row() + self.attributes()
        } else {
            text::utf8("\x1b7"@) + self.styled_row() + text::utf8("\x1b8"@) + (
            if self.shown_column() > 0 {
                text::utf8(move_ahead(self.shown_column()))
            } else {
                seq![]
            }) + self.attributes()
        }
    }

    /// The unfinished row.
    pub open spec fn partial(self, styled: bool) -> LineView {
        LineView {
            plain: self.row(),
            styled: if styled {
                self.rendered_partial()
            } else {
                seq![]
            },
        }
    }
}

/// Target output decoded by a terminal.
pub struct DecodedStream {
    screen: Screen,
    state: InputState,
}

impl View for DecodedStream {
    type V = StreamView;

    closed spec fn view(&self) -> StreamView {
        StreamView { state: self.state, input: screen_input(self.screen) }
    }
}

/// Bytes are an escape sequence from its first byte to its last.
pub open spec fn is_sequence(bytes: Seq<u8>) -> bool {
    &&& bytes.len() > 0
    &&& bytes[0] == 0x1b
    &&& InputState::Ground.after_all(bytes) is Ground
    &&& forall|k: int|
        0 < k < bytes.len() ==> !(#[trigger] InputState::Ground.after_all(bytes.take(k)) is Ground)
}

/// States follow from each other.
proof fn states_go_on(state: InputState, first: Seq<u8>, second: Seq<u8>)
    ensures
        state.after_all(first + second) == state.after_all(first).after_all(second),
    decreases second.len(),
{
    if second.len() == 0 {
        assert(first + second =~= first);
    } else {
        states_go_on(state, first, second.drop_last());
        assert((first + second).drop_last() =~= first + second.drop_last());
        assert((first + second).last() == second.last());
    }
}

proof fn digits_are_ascii(n: nat)
    ensures
        forall|i: int|
            0 <= i < text::decimal(n).len() ==> '0' <= #[trigger] text::decimal(n)[i] <= '9',
        text::decimal(n).len() > 0,
    decreases n,
{
    if n >= 10 {
        digits_are_ascii(n / 10);
        assert(text::digits(n, 10) == text::digits(n / 10, 10).push(
            text::digit_char((n % 10) as int),
        ));
    }
}

/// The sequence that moves the cursor back is one.
proof fn move_back_is_a_sequence(distance: int)
    requires
        distance > 0,
    ensures
        is_sequence(text::utf8(move_back(distance))),
{
    let chars = move_back(distance);
    let digits = text::decimal(distance as nat);
    reveal_strlit("\x1b[");
    reveal_strlit("D");
    digits_are_ascii(distance as nat);
    assert(chars.len() == digits.len() + 3);
    assert(chars[0] == '\x1b' && chars[1] == '[' && chars[chars.len() - 1] == 'D');
    assert forall|i: int| 2 <= i < chars.len() - 1 implies '0' <= #[trigger] chars[i] <= '9' by {
        assert(chars[i] == digits[i - 2]);
    }
    assert(vstd::utf8::is_ascii_chars(chars));
    vstd::utf8::is_ascii_chars_encode_utf8(chars);
    let bytes = text::utf8(chars);
    assert forall|k: int| 0 < k < bytes.len() implies !(
    #[trigger] InputState::Ground.after_all(bytes.take(k)) is Ground) by {
        states_within_move_back(bytes, k);
    }
    let last = bytes.len() - 1;
    states_within_move_back(bytes, last);
    assert(bytes.drop_last() =~= bytes.take(last));
}

proof fn states_within_move_back(bytes: Seq<u8>, k: int)
    requires
        0 < k < bytes.len(),
        bytes.len() >= 3,
        bytes[0] == 0x1b,
        bytes[1] == 0x5b,
        forall|i: int| 2 <= i < bytes.len() - 1 ==> 0x30 <= #[trigger] bytes[i] <= 0x39,
    ensures
        InputState::Ground.after_all(bytes.take(k)) == (if k == 1 {
            InputState::Escape
        } else {
            InputState::Csi
        }),
    decreases k,
{
    let taken = bytes.take(k);
    assert(taken.drop_last() =~= bytes.take(k - 1));
    assert(taken.last() == bytes[k - 1]);
    if k == 1 {
        assert(bytes.take(0) =~= Seq::<u8>::empty());
    } else {
        states_within_move_back(bytes, k - 1);
    }
}

proof fn wrap_switch_is_a_sequence()
    ensures
        is_sequence(text::utf8(DISABLE_LINE_WRAP@)),
{
    let chars = DISABLE_LINE_WRAP@;
    reveal_strlit("\x1b[?7l");
    assert(vstd::utf8::is_ascii_chars(chars));
    vstd::utf8::is_ascii_chars_encode_utf8(chars);
    let bytes = text::utf8(chars);
    assert(bytes =~= seq![0x1bu8, 0x5b, 0x3f, 0x37, 0x6c]);
    assert(bytes.take(0) =~= Seq::<u8>::empty());
    assert(bytes.take(1) =~= bytes.take(0).push(bytes[0]));
    assert(bytes.take(2) =~= bytes.take(1).push(bytes[1]));
    assert(bytes.take(3) =~= bytes.take(2).push(bytes[2]));
    assert(bytes.take(4) =~= bytes.take(3).push(bytes[3]));
    assert(bytes =~= bytes.take(4).push(bytes[4]));
    assert(bytes.take(1).drop_last() =~= bytes.take(0));
    assert(bytes.take(2).drop_last() =~= bytes.take(1));
    assert(bytes.take(3).drop_last() =~= bytes.take(2));
    assert(bytes.take(4).drop_last() =~= bytes.take(3));
    assert(bytes.drop_last() =~= bytes.take(4));
    let ground = InputState::Ground;
    assert(ground.after_all(bytes.take(0)) is Ground);
    assert(ground.after_all(bytes.take(1)) is Escape);
    assert(ground.after_all(bytes.take(2)) is Csi);
    assert(ground.after_all(bytes.take(3)) is Csi);
    assert(ground.after_all(bytes.take(4)) is Csi);
    assert(ground.after_all(bytes) is Ground);
}

impl DecodedStream {
    /// The terminal behind the stream has one row and the backing columns, and is
    /// where the stream says it is.
    spec fn in_step(&self) -> bool {
        &&& screen_size(self.screen) == (TERMINAL_ROWS, TERMINAL_BACKING_COLUMNS)
        &&& self.state == state_of(screen_input(self.screen))
    }

    /// Besides, the cursor leaves room for any character that is to be written.
    pub closed spec fn wf(&self) -> bool {
        &&& self.in_step()
        &&& self.state is Ground ==> self@.column() <= COLUMN_LIMIT
    }

    pub fn new() -> (stream: Self)
        ensures
            stream.wf(),
            stream@ == StreamView::initial(),
    {
        let mut stream = DecodedStream {
            screen: new_screen(TERMINAL_ROWS, TERMINAL_BACKING_COLUMNS),
            state: InputState::Ground,
        };
        proof {
            wrap_switch_is_a_sequence();
        }
        stream.process_bytes(DISABLE_LINE_WRAP.as_bytes());
        proof {
            assert(stream@.input =~= text::utf8(DISABLE_LINE_WRAP@));
        }
        stream.clamp();
        stream
    }

    /// Lets the terminal process an escape sequence of its own.
    fn process_bytes(&mut self, bytes: &[u8])
        requires
            old(self).in_step(),
            old(self).state is Ground,
            is_sequence(bytes@),
        ensures
            final(self).in_step(),
            final(self).state is Ground,
            final(self)@.input == old(self)@.input + bytes@,
            forall|distance: int|
                0 < distance <= u16::MAX && #[trigger] steps_back(
                    old(self)@.input,
                    distance,
                    final(self)@.input,
                ) ==> final(self)@.column() == (if old(self)@.column() > distance {
                    old(self)@.column() - distance
                } else {
                    0
                }),
    {
        let ghost start = screen_input(self.screen);
        let mut i: usize = 0;
        proof {
            assert(start + bytes@.take(0) =~= start);
            states_go_on(InputState::Ground, start, bytes@);
        }
        while i < bytes.len()
            invariant
                i <= bytes@.len(),
                screen_size(self.screen) == (TERMINAL_ROWS, TERMINAL_BACKING_COLUMNS),
                self.state == old(self).state,
                start == screen_input(old(self).screen),
                state_of(start) is Ground,
                is_sequence(bytes@),
                screen_input(self.screen) == start + bytes@.take(i as int),
                i == bytes@.len() ==> forall|distance: int|
                    0 < distance <= u16::MAX && #[trigger] steps_back(
                        start,
                        distance,
                        screen_input(self.screen),
                    ) ==> self@.column() == (if old(self)@.column() > distance {
                        old(self)@.column() - distance
                    } else {
                        0
                    }),
            decreases bytes@.len() - i,
        {
            proof {
                states_go_on(InputState::Ground, start, bytes@.take(i as int));
                if i > 0 {
                    assert(!(InputState::Ground.after_all(bytes@.take(i as int)) is Ground));
                }
            }
            feed(&mut self.screen, bytes[i]);
            i += 1;
            proof {
                assert(screen_input(self.screen) =~= start + bytes@.take(i as int));
            }
        }
        proof {
            assert(bytes@.take(bytes@.len() as int) =~= bytes@);
        }
    }

    /// Brings the cursor back where it may rest.
    fn clamp(&mut self)
        requires
            old(self).in_step(),
        ensures
            final(self).wf(),
            final(self)@ == old(self)@.clamped(),
    {
        if self.state == InputState::Ground {
            let column: u16 = cursor_position(&self.screen).1;
            if column > COLUMN_LIMIT {
                let mut sequence = String::new();
                text::push_str(&mut sequence, "\x1b[");
                text::push_number(&mut sequence, (column - COLUMN_LIMIT) as u64, 10);
                text::push_str(&mut sequence, "D");
                proof {
                    assert(sequence@ =~= move_back(column - COLUMN_LIMIT));
                    move_back_is_a_sequence(column - COLUMN_LIMIT);
                }
                self.process_bytes(sequence.as_str().as_bytes());
                proof {
                    assert(steps_back(old(self)@.input, column - COLUMN_LIMIT, self@.input));
                }
            }
        }
    }

    /// Lets the terminal process one byte, which leads to state `next`, and brings
    /// the cursor back.
    fn process_byte(&mut self, next: InputState, byte: u8)
        requires
            old(self).wf(),
            next == old(self)@.state.after(byte),
        ensures
            final(self).wf(),
            final(self)@ == old(self)@.processed(next, byte),
    {
        feed(&mut self.screen, byte);
        self.state = next;
        proof {
            let input = screen_input(old(self).screen);
            assert(input.push(byte).drop_last() =~= input);
        }
        self.clamp();
    }

    /// The row's text.
    fn visible_line(&self) -> (line: Vec<u8>)
        requires
            self.wf(),
        ensures
            line@ == self@.row(),
            text::no_control_bytes(line@),
    {
        let row = first_row(&self.screen, COLUMN_LIMIT);
        proof {
            text::text_without_controls(row@);
        }
        text::copy_bytes(row.as_str().as_bytes())
    }

    /// The row with its attributes.
    fn styled_visible_line(&self) -> (line: Vec<u8>)
        requires
            self.wf(),
        ensures
            line@ == self@.styled_row(),
    {
        first_row_formatted(&self.screen, COLUMN_LIMIT)
    }

    /// The row as a finished line.
    fn complete_line(&self, styled: bool) -> (line: TerminalLine)
        requires
            self.wf(),
        ensures
            line@ == self@.finished_line(styled),
            is_text_line(line.plain@),
    {
        let mut plain = self.visible_line();
        plain.push(0x0a);
        proof {
            assert(plain@.drop_last() =~= self@.row());
        }
        let styled_line = if styled {
            self.styled_visible_line()
        } else {
            Vec::new()
        };
        TerminalLine { plain, styled: styled_line }
    }

    /// Decodes `bytes`: the lines that they finish and the line left unfinished.
    /// Their text holds no control characters, hence no escape sequences, but for
    /// the line feed that ends a line.
    pub fn consume_chunk(&mut self, bytes: &[u8], styled: bool) -> (chunk: TerminalChunk)
        requires
            old(self).wf(),
        ensures
            final(self).wf(),
            final(self)@ == old(self)@.after_all(bytes@),
            line_views(chunk.lines@) == old(self)@.lines(bytes@, styled),
            chunk.partial@ == old(self)@.after_all(bytes@).partial(styled),
            forall|i: int|
                0 <= i < chunk.lines@.len() ==> is_text_line((#[trigger] chunk.lines@[i]).plain@),
            text::no_control_bytes(chunk.partial.plain@),
    {
        let mut lines: Vec<TerminalLine> = Vec::new();
        let mut i: usize = 0;
        proof {
            assert(bytes@.take(0) =~= Seq::<u8>::empty());
            assert(line_views(lines@) =~= old(self)@.lines(bytes@.take(0), styled));
        }
        while i < bytes.len()
            invariant
                i <= bytes@.len(),
                self.wf(),
                self@ == old(self)@.after_all(bytes@.take(i as int)),
                line_views(lines@) == old(self)@.lines(bytes@.take(i as int), styled),
                forall|j: int|
                    0 <= j < lines@.len() ==> is_text_line((#[trigger] lines@[j]).plain@),
            decreases bytes@.len() - i,
        {
            let byte: u8 = bytes[i];
            let ghost before = self@;
            let (next_state, line_feed) = self.state.observe(byte);
            if line_feed {
                let line = self.complete_line(styled);
                let ghost earlier = line_views(lines@);
                lines.push(line);
                proof {
                    assert(line_views(lines@) =~= earlier.push(before.finished_line(styled)));
                }
            }
            self.process_byte(next_state, byte);
            if line_feed {
                self.process_byte(next_state, 0x0d);
            }
            proof {
                let seen = bytes@.take(i as int + 1);
                assert(seen.drop_last() =~= bytes@.take(i as int));
                assert(seen.last() == byte);
                assert(self@ == before.after(byte));
            }
            i += 1;
        }
        proof {
            assert(bytes@.take(bytes@.len() as int) =~= bytes@);
        }
        let plain = self.visible_line();
        let styled_line = if styled {
            self.rendered_partial()
        } else {
            Vec::new()
        };
        TerminalChunk { lines, partial: TerminalLine { plain, styled: styled_line } }
    }

    /// The unfinished row as it is drawn.
    fn rendered_partial(&self) -> (bytes: Vec<u8>)
        requires
            self.wf(),
        ensures
            bytes@ == self@.rendered_partial(),
    {
        let line = self.styled_visible_line();
        let column: usize = self.cursor_column();
        let attributes = self.active_attributes();
        let plain_len: usize = self.visible_line().len();
        let mut out: Vec<u8> = Vec::new();
        if column == plain_len {
            text::push_bytes(&mut out, &line);
            text::push_bytes(&mut out, &attributes);
            proof {
                assert(out@ =~= self@.rendered_partial());
            }
            return out;
        }
        text::push_text(&mut out, "\x1b7");
        text::push_bytes(&mut out, &line);
        text::push_text(&mut out, "\x1b8");
        if column > 0 {
            let mut sequence = String::new();
            text::push_str(&mut sequence, "\x1b[");
            text::push_number(&mut sequence, column as u64, 10);
            text::push_str(&mut sequence, "C");
            proof {
                assert(sequence@ =~= move_ahead(column as int));
            }
            text::push_text(&mut out, sequence.as_str());
        }
        text::push_bytes(&mut out, &attributes);
        proof {
            assert(out@ =~= self@.rendered_partial());
        }
        out
    }

    /// The sequences that select the attributes in force.
    fn active_attributes(&self) -> (bytes: Vec<u8>)
        requires
            self.wf(),
        ensures
            bytes@ == self@.attributes(),
    {
        if active_style(&self.screen).is_plain() {
            Vec::new()
        } else {
            attributes_formatted(&self.screen)
        }
    }

    /// The cursor's column, at most the last shown one.
    pub fn cursor_column(&self) -> (column: usize)
        requires
            self.wf(),
        ensures
            column == self@.shown_column(),
    {
        let column: usize = cursor_position(&self.screen).1 as usize;
        if column <= MAX_TERMINAL_COLUMNS {
            column
        } else {
            MAX_TERMINAL_COLUMNS
        }
    }
}

/// Decoding does not depend on where the byte stream was split: the lines of the
/// two parts, one after the other, are those of the whole, and so are the state
/// and the unfinished line.
pub proof fn decoding_is_chunk_independent(
    stream: StreamView,
    first: Seq<u8>,
    second: Seq<u8>,
    styled: bool,
)
    ensures
        stream.after_all(first + second) == stream.after_all(first).after_all(second),
        stream.lines(first + second, styled) == stream.lines(first, styled) + stream.after_all(
            first,
        ).lines(second, styled),
    decreases second.len(),
{
    if second.len() == 0 {
        assert(first + second =~= first);
        assert(stream.lines(first, styled) + Seq::<LineView>::empty() =~= stream.lines(
            first,
            styled,
        ));
    } else {
        let whole = first + second;
        decoding_is_chunk_independent(stream, first, second.drop_last(), styled);
        assert(whole.drop_last() =~= first + second.drop_last());
        assert(whole.last() == second.last());
        let middle = stream.after_all(first);
        if stream.after_all(whole.drop_last()).finishes(second.last()) {
            let line = stream.after_all(whole.drop_last()).finished_line(styled);
            assert(stream.lines(whole, styled) =~= stream.lines(first, styled) + middle.lines(
                second.drop_last(),
                styled,
            ).push(line));
        }
    }
}

/// The text of the lines does not depend on whether attributes were asked for.
pub proof fn text_does_not_depend_on_styling(stream: StreamView, bytes: Seq<u8>)
    ensures
        stream.lines(bytes, true).len() == stream.lines(bytes, false).len(),
        forall|i: int|
            0 <= i < stream.lines(bytes, true).len() ==> (#[trigger] stream.lines(
                bytes,
                true,
            )[i]).plain == stream.lines(bytes, false)[i].plain,
        stream.partial(true).plain == stream.partial(false).plain,
    decreases bytes.len(),
{
    if bytes.len() > 0 {
        text_does_not_depend_on_styling(stream, bytes.drop_last());
    }
}

/// The byte at `k` finishes a line.
pub open spec fn finishing(stream: StreamView, bytes: Seq<u8>, k: int) -> bool {
    0 <= k < bytes.len() && stream.after_all(bytes.take(k)).finishes(bytes[k])
}

/// What is shown of a finished line and what is logged of it are one row of one
/// terminal, as it stands when the line feed comes: the row with its attributes
/// and the row's text.
pub proof fn views_share_one_row(stream: StreamView, bytes: Seq<u8>, i: int) -> (k: int)
    requires
        0 <= i < stream.lines(bytes, true).len(),
    ensures
        finishing(stream, bytes, k),
        stream.lines(bytes, true)[i].plain == stream.after_all(bytes.take(k)).row().push(0x0a),
        stream.lines(bytes, true)[i].styled == stream.after_all(bytes.take(k)).styled_row(),
    decreases bytes.len(),
{
    let fewer = bytes.drop_last();
    let earlier = stream.lines(fewer, true);
    if i < earlier.len() {
        let k = views_share_one_row(stream, fewer, i);
        assert(fewer.take(k) =~= bytes.take(k));
        assert(stream.lines(bytes, true)[i] == earlier[i]);
        k
    } else {
        let k = bytes.len() - 1;
        assert(bytes.take(k) =~= fewer);
        k
    }
}

/// Every finished line ends in a line feed.
pub proof fn finished_lines_end_in_line_feed(stream: StreamView, bytes: Seq<u8>, styled: bool)
    ensures
        forall|i: int|
            0 <= i < stream.lines(bytes, styled).len() ==> {
                let plain = (#[trigger] stream.lines(bytes, styled)[i]).plain;
                plain.len() > 0 && plain.last() == 0x0a
            },
    decreases bytes.len(),
{
    if bytes.len() > 0 {
        let earlier = stream.lines(bytes.drop_last(), styled);
        let row = stream.after_all(bytes.drop_last()).row();
        finished_lines_end_in_line_feed(stream, bytes.drop_last(), styled);
        assert(row.push(0x0a).last() == 0x0a);
        assert forall|i: int| 0 <= i < stream.lines(bytes, styled).len() implies {
            let plain = (#[trigger] stream.lines(bytes, styled)[i]).plain;
            plain.len() > 0 && plain.last() == 0x0a
        } by {
            if i < earlier.len() {
                assert(stream.lines(bytes, styled)[i] == earlier[i]);
            }
        }
    }
}

/// A line feed inside an operating system command, a device control string or
/// another string does not end a line.
pub proof fn strings_do_not_end_lines(stream: StreamView, byte: u8)
    requires
        stream.state is Osc || stream.state is SosPmApc || stream.state is DcsEntry
            || stream.state is DcsParam || stream.state is DcsIntermediate
            || stream.state is DcsPassthrough || stream.state is DcsIgnore,
    ensures
        stream.lines(seq![byte], true) == Seq::<LineView>::empty(),
        InputState::is_line_feed(byte) ==> stream.after(byte).state == stream.state,
{
    let bytes = seq![byte];
    assert(bytes.drop_last() =~= Seq::<u8>::empty());
    assert(stream.lines(bytes, true) =~= Seq::<LineView>::empty()) by {
        reveal_with_fuel(StreamView::lines, 2);
        reveal_with_fuel(StreamView::after_all, 2);
    }
}

/// Where a pen is within an escape sequence.
#[derive(Clone, Copy, Debug, PartialEq, Eq, Structural)]
pub enum PenState {
    Text,
    Escape,
    Parameters,
}

/// A blank row that bytes are drawn on, reduced to what it takes to follow the
/// cursor: the column, the column that was saved, and the text that was printed.
#[verifier::ext_equal]
pub struct Pen {
    pub state: PenState,
    pub number: int,
    pub column: int,
    pub saved: int,
    pub printed: Seq<u8>,
}

impl Pen {
    /// The pen after one byte. Text moves it on, once for each character; `ESC 7`
    /// saves the column, `ESC 8` goes back to it, `CSI n C` moves `n` ahead, and a
    /// carriage return goes to the first column.
    pub open spec fn after(self, byte: u8) -> Pen {
        match self.state {
            PenState::Text => if byte == 0x1b {
                Pen { state: PenState::Escape, ..self }
            } else if byte == 0x0d {
                Pen { column: 0, ..self }
            } else if byte >= 0x20 {
                Pen {
                    column: self.column + if 0x80 <= byte < 0xc0 {
                        0int
                    } else {
                        1int
                    },
                    printed: self.printed.push(byte),
                    ..self
                }
            } else {
                self
            },
            PenState::Escape => if byte == 0x37 {
                Pen { state: PenState::Text, saved: self.column, ..self }
            } else if byte == 0x38 {
                Pen { state: PenState::Text, column: self.saved, ..self }
            } else if byte == 0x5b {
                Pen { state: PenState::Parameters, number: 0, ..self }
            } else {
                Pen { state: PenState::Text, ..self }
            },
            PenState::Parameters => if 0x30 <= byte <= 0x39 {
                Pen { number: self.number * 10 + (byte - 0x30), ..self }
            } else if byte == 0x43 {
                Pen {
                    state: PenState::Text,
                    column: self.column + if self.number > 0 {
                        self.number
                    } else {
                        1
                    },
                    ..self
                }
            } else if 0x40 <= byte <= 0x7e {
                Pen { state: PenState::Text, ..self }
            } else {
                self
            },
        }
    }

    /// The pen after `bytes`.
    pub open spec fn after_all(self, bytes: Seq<u8>) -> Pen
        decreases bytes.len(),
    {
        if bytes.len() == 0 {
            self
        } else {
            self.after_all(bytes.drop_last()).after(bytes.last())
        }
    }
}

/// Drawing goes on where it stopped.
proof fn drawing_goes_on(pen: Pen, first: Seq<u8>, second: Seq<u8>)
    ensures
        pen.after_all(first + second) == pen.after_all(first).after_all(second),
    decreases second.len(),
{
    if second.len() == 0 {
        assert(first + second =~= first);
    } else {
        drawing_goes_on(pen, first, second.drop_last());
        assert((first + second).drop_last() =~= first + second.drop_last());
        assert((first + second).last() == second.last());
    }
}

/// A pen reads a decimal number.
proof fn pens_read_numbers(pen: Pen, n: nat)
    requires
        pen.state is Parameters,
        pen.number == 0,
    ensures
        pen.after_all(text::utf8(text::decimal(n))) == (Pen { number: n as int, ..pen }),
    decreases n,
{
    let chars = text::decimal(n);
    digits_are_ascii(n);
    assert(vstd::utf8::is_ascii_chars(chars));
    vstd::utf8::is_ascii_chars_encode_utf8(chars);
    let bytes = text::utf8(chars);
    if n < 10 {
        assert(bytes.drop_last() =~= Seq::<u8>::empty());
        assert(chars =~= seq![text::digit_char(n as int)]);
        assert(bytes.last() == chars[0] as u8);
        assert(pen.after_all(bytes.drop_last()) == pen);
    } else {
        let most = text::decimal(n / 10);
        assert(chars == most.push(text::digit_char((n % 10) as int)));
        pens_read_numbers(pen, n / 10);
        digits_are_ascii(n / 10);
        vstd::utf8::is_ascii_chars_encode_utf8(most);
        assert(bytes.drop_last() =~= text::utf8(most));
        assert(bytes.last() == chars.last() as u8);
        assert((n / 10) * 10 + n % 10 == n);
    }
}

/// The bytes of a sequence that moves the cursor ahead do so.
proof fn pens_move_ahead(pen: Pen, n: nat)
    requires
        pen.state is Text,
        n > 0,
    ensures
        ({
            let after = pen.after_all(text::utf8("\x1b["@ + text::decimal(n) + "C"@));
            &&& after.state is Text
            &&& after.column == pen.column + n
            &&& after.saved == pen.saved
            &&& after.printed == pen.printed
        }),
{
    let digits = text::decimal(n);
    let chars = "\x1b["@ + digits + "C"@;
    reveal_strlit("\x1b[");
    reveal_strlit("C");
    digits_are_ascii(n);
    assert forall|i: int| 0 <= i < chars.len() implies (#[trigger] chars[i]) as u32 <= 0x7f by {
        if 2 <= i < chars.len() - 1 {
            assert(chars[i] == digits[i - 2]);
        }
    }
    assert(vstd::utf8::is_ascii_chars(chars));
    vstd::utf8::is_ascii_chars_encode_utf8(chars);
    assert(vstd::utf8::is_ascii_chars(digits));
    vstd::utf8::is_ascii_chars_encode_utf8(digits);
    let bytes = text::utf8(chars);
    let start = seq![0x1bu8, 0x5bu8];
    let middle = text::utf8(digits);
    let end = seq![0x43u8];
    assert(bytes =~= start + middle + end) by {
        assert(bytes.len() == chars.len());
        assert forall|i: int| 0 <= i < bytes.len() implies bytes[i] == (start + middle + end)[i] by {
            if 2 <= i < chars.len() - 1 {
                assert(chars[i] == digits[i - 2]);
            }
        }
    }
    drawing_goes_on(pen, start + middle, end);
    drawing_goes_on(pen, start, middle);
    let opened = Pen { state: PenState::Parameters, number: 0, ..pen };
    assert(pen.after_all(start) == opened) by {
        assert(start.drop_last() =~= seq![0x1bu8]);
        assert(seq![0x1bu8].drop_last() =~= Seq::<u8>::empty());
        reveal_with_fuel(Pen::after_all, 3);
    }
    pens_read_numbers(opened, n);
    let read = opened.after_all(middle);
    assert(end.drop_last() =~= Seq::<u8>::empty());
    assert(read.after_all(end) == read.after(0x43)) by {
        reveal_with_fuel(Pen::after_all, 2);
    }
}

/// `ESC` and one more byte.
proof fn pens_take_short_sequences(pen: Pen, byte: u8)
    ensures
        pen.after_all(seq![0x1bu8, byte]) == pen.after(0x1b).after(byte),
{
    let bytes = seq![0x1bu8, byte];
    assert(bytes.drop_last() =~= seq![0x1bu8]);
    assert(seq![0x1bu8].drop_last() =~= Seq::<u8>::empty());
    reveal_with_fuel(Pen::after_all, 3);
}

/// Drawing the unfinished line anew shows the target's cursor where the target has
/// it: wherever on a row the drawing begins, it ends as many columns further as the
/// cursor's column says, no more than the last shown one, and prints the row's text
/// once and nothing else. What is written next has the attributes in force. The row
/// is taken to be drawn by whole sequences that do not save the cursor, the
/// attributes by ones that do not move it; a row whose text ends at the cursor is
/// taken to end there when it is drawn too.
pub proof fn drawn_cursor_is_the_targets(stream: StreamView, pen: Pen, drawn: Seq<u8>)
    requires
        pen.state is Text,
        forall|p: Pen|
            p.state is Text ==> {
                let q = #[trigger] p.after_all(stream.styled_row());
                q.state is Text && q.saved == p.saved && q.printed == p.printed + drawn
            },
        forall|p: Pen|
            p.state is Text ==> {
                let q = #[trigger] p.after_all(
                    attributes_of(TERMINAL_ROWS, TERMINAL_BACKING_COLUMNS, stream.input),
                );
                q.state is Text && q.column == p.column && q.printed == p.printed
            },
        cursor_of(TERMINAL_ROWS, TERMINAL_BACKING_COLUMNS, stream.input).1 == stream.row().len()
            || stream.row().len() == MAX_TERMINAL_COLUMNS ==> pen.after_all(
            stream.styled_row(),
        ).column == pen.column + stream.row().len(),
    ensures
        ({
            let column = cursor_of(TERMINAL_ROWS, TERMINAL_BACKING_COLUMNS, stream.input).1;
            let after = pen.after_all(stream.rendered_partial());
            &&& after.state is Text
            &&& after.column == pen.column + if column <= 4096 {
                column as int
            } else {
                4096
            }
            &&& after.printed == pen.printed + drawn
        }),
        ({
            let style = style_of(TERMINAL_ROWS, TERMINAL_BACKING_COLUMNS, stream.input);
            let attributes = attributes_of(TERMINAL_ROWS, TERMINAL_BACKING_COLUMNS, stream.input);
            let partial = stream.rendered_partial();
            !style.default_foreground || !style.default_background || style.bold || style.dim
                || style.italic || style.underline || style.inverse ==> partial.len()
                >= attributes.len() && partial.skip(partial.len() - attributes.len())
                == attributes
        }),
{
    let row = stream.styled_row();
    let attributes = stream.attributes();
    let column = stream.shown_column();
    let partial = stream.rendered_partial();
    if column == stream.row().len() {
        drawing_goes_on(pen, row, attributes);
        assert(partial.skip(row.len() as int) =~= attributes);
    } else {
        reveal_strlit("\x1b7");
        reveal_strlit("\x1b8");
        assert(vstd::utf8::is_ascii_chars("\x1b7"@));
        assert(vstd::utf8::is_ascii_chars("\x1b8"@));
        vstd::utf8::is_ascii_chars_encode_utf8("\x1b7"@);
        vstd::utf8::is_ascii_chars_encode_utf8("\x1b8"@);
        let save = seq![0x1bu8, 0x37u8];
        let restore = seq![0x1bu8, 0x38u8];
        assert(text::utf8("\x1b7"@) =~= save);
        assert(text::utf8("\x1b8"@) =~= restore);
        let motion = if column > 0 {
            text::utf8(move_ahead(column))
        } else {
            seq![]
        };
        drawing_goes_on(pen, save + row + restore + motion, attributes);
        drawing_goes_on(pen, save + row + restore, motion);
        drawing_goes_on(pen, save + row, restore);
        drawing_goes_on(pen, save, row);
        pens_take_short_sequences(pen, 0x37);
        let saved = pen.after_all(save);
        let drawn_row = saved.after_all(row);
        pens_take_short_sequences(drawn_row, 0x38);
        let restored = drawn_row.after_all(restore);
        assert(restored.column == pen.column);
        if column > 0 {
            pens_move_ahead(restored, column as nat);
        }
        assert(partial =~= save + row + restore + motion + attributes);
        assert(partial.skip((save + row + restore + motion).len() as int) =~= attributes);
    }
}

/// The rows that are shown and logged are those of a terminal of one row, cut to
/// the shown columns.
pub proof fn rows_are_the_terminals(stream: StreamView, styled: bool)
    ensures
        stream.partial(styled).plain == text::utf8(row_text(1, 4099, stream.input, 4096)),
        stream.finished_line(styled).plain == text::utf8(
            row_text(1, 4099, stream.input, 4096),
        ).push(0x0a),
        styled ==> stream.finished_line(styled).styled == row_formatted(
            1,
            4099,
            stream.input,
            4096,
        ),
        !styled ==> stream.finished_line(styled).styled.len() == 0 && stream.partial(
            styled,
        ).styled.len() == 0,
{
}

/// The terminal processes every byte of the target, in order, and nothing else but
/// a carriage return behind each line feed, as long as its cursor stays within the
/// shown columns.
pub proof fn every_byte_reaches_the_terminal(stream: StreamView, byte: u8)
    requires
        cursor_of(1, 4099, stream.input.push(byte)).1 <= 4096,
        cursor_of(1, 4099, stream.input.push(byte).push(0x0d)).1 <= 4096,
    ensures
        ({
            let carries_out = stream.state is Ground || stream.state is Escape
                || stream.state is EscapeIntermediate || stream.state is Csi;
            let ends = carries_out && (byte == 0x0a || byte == 0x0b || byte == 0x0c);
            &&& stream.after(byte).input == if ends {
                stream.input.push(byte).push(0x0d)
            } else {
                stream.input.push(byte)
            }
            &&& stream.lines(seq![byte], true) == if ends {
                seq![stream.finished_line(true)]
            } else {
                seq![]
            }
        }),
{
    let bytes = seq![byte];
    assert(bytes.drop_last() =~= Seq::<u8>::empty());
    reveal_with_fuel(StreamView::lines, 2);
    reveal_with_fuel(StreamView::after_all, 2);
    assert(Seq::<LineView>::empty().push(stream.finished_line(true)) =~= seq![
        stream.finished_line(true),
    ]);
}

/// A line feed, a vertical tab or a form feed.
pub open spec fn ends_a_line() -> spec_fn(u8) -> bool {
    |byte: u8| byte == 0x0a || byte == 0x0b || byte == 0x0c
}

/// Text without escape sequences has as many finished lines as it has line feeds.
pub proof fn plain_text_splits_at_line_feeds(stream: StreamView, bytes: Seq<u8>, styled: bool)
    requires
        stream.state is Ground,
        forall|i: int| 0 <= i < bytes.len() ==> #[trigger] bytes[i] != 0x1b,
    ensures
        stream.after_all(bytes).state is Ground,
        stream.lines(bytes, styled).len() == bytes.filter(ends_a_line()).len(),
    decreases bytes.len(),
{
    reveal(Seq::filter);
    if bytes.len() > 0 {
        let fewer = bytes.drop_last();
        assert forall|i: int| 0 <= i < fewer.len() implies #[trigger] fewer[i] != 0x1b by {
            assert(fewer[i] == bytes[i]);
        }
        plain_text_splits_at_line_feeds(stream, fewer, styled);
        assert(bytes[bytes.len() - 1] == bytes.last());
    }
}

/// A control sequence is over with its final byte: from any state that an escape
/// begins in, `ESC [`, parameters and a final byte lead back to text, and so do the
/// strings that end in BEL or `ESC \`. Within a string nothing ends before that.
pub proof fn sequences_come_to_an_end(state: InputState, middle: Seq<u8>, last: u8)
    ensures
        0x40 <= last <= 0x7e && (forall|i: int|
            0 <= i < middle.len() ==> 0x20 <= #[trigger] middle[i] <= 0x3f) ==> state.after(
            0x1b,
        ).after(0x5b).after_all(middle).after(last) is Ground,
        (forall|i: int|
            0 <= i < middle.len() ==> !(#[trigger] middle[i] == 0x07 || middle[i] == 0x18
                || middle[i] == 0x1a || middle[i] == 0x1b)) ==> state.after(0x1b).after(
            0x5d,
        ).after_all(middle) is Osc,
        InputState::Osc.after(0x07) is Ground,
        state.after(0x1b).after(0x5c) is Ground,
        state.after(0x18) is Ground,
        state.after(0x1a) is Ground,
    decreases middle.len(),
{
    if middle.len() > 0 {
        let fewer = middle.drop_last();
        assert(middle[middle.len() - 1] == middle.last());
        assert forall|i: int| 0 <= i < fewer.len() implies fewer[i] == #[trigger] middle[i] by {}
        sequences_come_to_an_end(state, fewer, last);
        parameters_stay_in_sequence(state, middle);
    }
}

proof fn parameters_stay_in_sequence(state: InputState, middle: Seq<u8>)
    ensures
        (forall|i: int| 0 <= i < middle.len() ==> 0x20 <= #[trigger] middle[i] <= 0x3f)
            ==> state.after(0x1b).after(0x5b).after_all(middle) is Csi,
        (forall|i: int|
            0 <= i < middle.len() ==> !(#[trigger] middle[i] == 0x07 || middle[i] == 0x18
                || middle[i] == 0x1a || middle[i] == 0x1b)) ==> state.after(0x1b).after(
            0x5d,
        ).after_all(middle) is Osc,
    decreases middle.len(),
{
    if middle.len() > 0 {
        let fewer = middle.drop_last();
        assert(middle[middle.len() - 1] == middle.last());
        assert forall|i: int| 0 <= i < fewer.len() implies fewer[i] == #[trigger] middle[i] by {}
        parameters_stay_in_sequence(state, fewer);
    }
}

} // verus!
