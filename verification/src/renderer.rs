//! What the user sees: labels, timestamps, the live prompt line and redirected
//! output.
//!
//! Everything is appended to a byte buffer; the program around the library
//! writes that buffer to its standard output.
use crate::channel::{ChannelId, CoreChannel, CoreId};
use crate::cli::{ChannelSpec, ColorMode, SessionPolicy};
use crate::defmt::{level_name, DecodedFrame, FrameView, Level};
use crate::logger;
use crate::logger::{LogView, Logger};
use crate::ordered;
use crate::ordered::OrderedMap;
use crate::terminal;
use crate::terminal::{
    LineView, TerminalChunk, TerminalLine, ANSI_RESET, ERASE_CURRENT_LINE,
};
use crate::text;
use crossterm::Command;
use vstd::prelude::*;

verus! {

pub const NANOS_PER_SECOND: u64 = 1_000_000_000;

/// Date, time and milliseconds, as `YYYY-MM-DD HH:MM:SS.mmm`.
pub const WALL_PATTERN: &'static str = "%Y-%m-%d %H:%M:%S%.3f";

/// The moment `seconds` and `nanos` after the Unix epoch, at a place `offset`
/// seconds east of UTC, written after a pattern.
pub uninterp spec fn wall_text(
    pattern: Seq<char>,
    seconds: i64,
    nanos: u32,
    offset: i32,
) -> Seq<char>;

/// `chrono::DateTime::format` on the moment that `DateTime::from_timestamp` and
/// `FixedOffset::east_opt` build. Both accept every value admitted here, and the
/// pattern is a valid one.
#[verifier::external_body]
fn format_wall_clock(pattern: &str, seconds: i64, nanos: u32, offset: i32) -> (text: String)
    requires
        pattern@ == WALL_PATTERN@,
        0 <= seconds <= 40_000_000_000,
        nanos < NANOS_PER_SECOND,
        -86_400 < offset < 86_400,
    ensures
        text@ == wall_text(pattern@, seconds, nanos, offset),
{
    let zone = chrono::FixedOffset::east_opt(offset).unwrap();
    let utc = chrono::DateTime::from_timestamp(seconds, nanos).unwrap();
    utc.with_timezone(&zone).format(pattern).to_string()
}

/// `crossterm::terminal::Clear(All)` as an escape sequence: erase the display.
#[verifier::external_body]
fn clear_display() -> (sequence: String)
    ensures
        sequence@ == "\x1b[2J"@,
{
    let mut sequence = String::new();
    let _ = crossterm::terminal::Clear(crossterm::terminal::ClearType::All).write_ansi(&mut sequence);
    sequence
}

/// `crossterm::cursor::MoveTo(0, 0)` as an escape sequence: the cursor goes to
/// the first column of the first row.
#[verifier::external_body]
fn move_home() -> (sequence: String)
    ensures
        sequence@ == "\x1b[1;1H"@,
{
    let mut sequence = String::new();
    let _ = crossterm::cursor::MoveTo(0, 0).write_ansi(&mut sequence);
    sequence
}

/// A point in time: nanoseconds on a clock that never goes back, and how far
/// local time is east of UTC then, in seconds.
#[derive(Clone, Copy, Debug, PartialEq, Eq)]
pub struct Moment {
    nanos: u64,
    utc_offset: i32,
}

impl Moment {
    #[verifier::type_invariant]
    spec fn valid(self) -> bool {
        -86_400 < self.utc_offset < 86_400
    }

    pub closed spec fn spec_nanos(self) -> u64 {
        self.nanos
    }

    pub closed spec fn spec_utc_offset(self) -> i32 {
        self.utc_offset
    }

    /// A moment; local time is less than a day away from UTC.
    pub fn new(nanos: u64, utc_offset: i32) -> (moment: Option<Self>)
        ensures
            match moment {
                Some(moment) => -86_400 < utc_offset < 86_400 && moment.spec_nanos() == nanos
                    && moment.spec_utc_offset() == utc_offset,
                None => !(-86_400 < utc_offset < 86_400),
            },
    {
        if -86_400 < utc_offset && utc_offset < 86_400 {
            Some(Moment { nanos, utc_offset })
        } else {
            None
        }
    }
}

/// A line that is on the screen without being finished.
#[derive(Debug)]
pub struct ForegroundLine {
    pub channel: CoreChannel,
    pub rendered: Vec<u8>,
}

/// What a `ForegroundLine` holds.
#[verifier::ext_equal]
pub struct ForegroundView {
    pub channel: CoreChannel,
    pub rendered: Seq<u8>,
}

impl View for ForegroundLine {
    type V = ForegroundView;

    open spec fn view(&self) -> ForegroundView {
        ForegroundView { channel: self.channel, rendered: self.rendered@ }
    }
}

impl ForegroundLine {
    fn copy(&self) -> (copy: Self)
        ensures
            copy@ == self@,
    {
        ForegroundLine {
            channel: self.channel,
            rendered: text::copy_bytes(self.rendered.as_slice()),
        }
    }
}

/// The view of an optional foreground line.
pub open spec fn foreground_view(line: Option<ForegroundLine>) -> Option<ForegroundView> {
    match line {
        Some(line) => Some(line@),
        None => None,
    }
}

/// Where the output goes: a terminal, which shows unfinished lines, or a file or
/// pipe, which does not.
#[derive(Debug)]
pub enum Presentation {
    Interactive { foreground: Option<ForegroundLine> },
    Redirected,
}

/// Rendering state of a session.
#[derive(Debug)]
pub struct SessionState {
    pub timestamps: bool,
    pub line_start: bool,
    /// Session start in nanoseconds on the clock of `Moment`.
    pub started: u64,
    /// Session start in nanoseconds since the Unix epoch.
    pub started_wall: u64,
    pub defmt_decode_warnings: u64,
    pub color: bool,
    pub channel_labels: bool,
    /// Whether labels name the core (`[c0:ch0]`) or not (`[ch0]`).
    pub show_cores: bool,
    pub last_channel: Option<CoreChannel>,
    /// Unfinished lines of redirected output.
    pub partials: OrderedMap<CoreChannel, Vec<u8>>,
    /// Last known prompt of each core.
    pub prompts: OrderedMap<CoreId, ForegroundLine>,
    /// The core that keyboard input goes to. Only that one may take the
    /// foreground while it is set.
    pub down_core: Option<CoreId>,
    pub presentation: Presentation,
}

/// What a `SessionState` holds.
#[verifier::ext_equal]
pub struct StateView {
    pub timestamps: bool,
    pub line_start: bool,
    pub started: u64,
    pub started_wall: u64,
    pub defmt_decode_warnings: u64,
    pub color: bool,
    pub channel_labels: bool,
    pub show_cores: bool,
    pub last_channel: Option<CoreChannel>,
    pub partials: Map<CoreChannel, Seq<u8>>,
    pub prompts: Map<CoreId, ForegroundView>,
    pub down_core: Option<CoreId>,
    pub interactive: bool,
    pub foreground: Option<ForegroundView>,
}

impl View for SessionState {
    type V = StateView;

    open spec fn view(&self) -> StateView {
        StateView {
            timestamps: self.timestamps,
            line_start: self.line_start,
            started: self.started,
            started_wall: self.started_wall,
            defmt_decode_warnings: self.defmt_decode_warnings,
            color: self.color,
            channel_labels: self.channel_labels,
            show_cores: self.show_cores,
            last_channel: self.last_channel,
            partials: self.partials@,
            prompts: self.prompts@,
            down_core: self.down_core,
            interactive: self.presentation is Interactive,
            foreground: match self.presentation {
                Presentation::Interactive { foreground } => foreground_view(foreground),
                Presentation::Redirected => None,
            },
        }
    }
}

/// The entries of `partials` that belong to other cores.
pub open spec fn partials_of_others(
    partials: Map<CoreChannel, Seq<u8>>,
    core: CoreId,
) -> Map<CoreChannel, Seq<u8>> {
    Map::new(
        |source: CoreChannel| partials.dom().contains(source) && source.core != core,
        |source: CoreChannel| partials[source],
    )
}

impl StateView {
    /// The state of a fresh session.
    pub open spec fn initial(started: u64, started_wall: u64) -> StateView {
        StateView {
            timestamps: false,
            line_start: true,
            started,
            started_wall,
            defmt_decode_warnings: 0,
            color: false,
            channel_labels: false,
            show_cores: false,
            last_channel: None,
            partials: Map::empty(),
            prompts: Map::empty(),
            down_core: None,
            interactive: true,
            foreground: None,
        }
    }

    /// The state in which a session begins. Colour is used where the settings say
    /// so, or on a terminal whose user did not ask programs to do without.
    pub open spec fn for_session(
        config: &SessionPolicy,
        include_channel: bool,
        show_cores: bool,
        host: HostOutput,
        started: u64,
        started_wall: u64,
    ) -> StateView {
        StateView {
            timestamps: config.timestamps,
            channel_labels: include_channel,
            show_cores,
            interactive: host.is_terminal,
            color: match config.color {
                ColorMode::Always => true,
                ColorMode::Never => false,
                ColorMode::Auto => host.is_terminal && !host.no_color,
            },
            ..StateView::initial(started, started_wall)
        }
    }

    /// Nothing of the target's output is remembered.
    pub open spec fn target_reset(self) -> StateView {
        StateView {
            line_start: true,
            last_channel: None,
            partials: Map::empty(),
            prompts: Map::empty(),
            foreground: None,
            ..self
        }
    }

    /// Nothing of one core's output is remembered.
    pub open spec fn core_reset(self, core: CoreId) -> StateView {
        StateView {
            line_start: true,
            last_channel: match self.last_channel {
                Some(source) => if source.core == core {
                    None
                } else {
                    Some(source)
                },
                None => None,
            },
            partials: partials_of_others(self.partials, core),
            prompts: self.prompts.remove(core),
            foreground: if self.foreground_of_core(core) {
                None
            } else {
                self.foreground
            },
            ..self
        }
    }

    /// The foreground line belongs to `core`.
    pub open spec fn foreground_of_core(self, core: CoreId) -> bool {
        self.foreground matches Some(line) && line.channel.core == core
    }

    /// The foreground line belongs to `source`.
    pub open spec fn foreground_of(self, source: CoreChannel) -> bool {
        self.foreground matches Some(line) && line.channel == source
    }

    /// A new foreground line, which is also the core's last known prompt.
    pub open spec fn with_foreground(self, line: ForegroundView) -> StateView {
        StateView {
            prompts: self.prompts.insert(line.channel.core, line),
            foreground: Some(line),
            ..self
        }
    }

    /// Wall clock at `nanos`: time since the session started is added to the
    /// wall clock of the start. A moment before the start counts as the start.
    pub open spec fn wall_nanos(self, nanos: u64) -> int {
        self.started_wall + if nanos >= self.started {
            nanos - self.started
        } else {
            0
        }
    }

    /// Date and time in front of a line.
    pub open spec fn stamp(self, moment: Moment) -> Seq<char> {
        let wall = self.wall_nanos(moment.spec_nanos());
        "["@ + wall_text(
            WALL_PATTERN@,
            (wall / NANOS_PER_SECOND as int) as i64,
            (wall % NANOS_PER_SECOND as int) as u32,
            moment.spec_utc_offset(),
        ) + "] "@
    }

    /// Label in front of a line.
    pub open spec fn label(self, source: CoreChannel) -> Seq<u8> {
        (if self.color {
            text::utf8(color_of(source.channel))
        } else {
            seq![]
        }) + text::utf8(source.tag(self.show_cores)) + (if self.color {
            text::utf8(ANSI_RESET@)
        } else {
            seq![]
        })
    }
}

/// The state and what has been written so far.
#[verifier::ext_equal]
pub struct ScreenView {
    pub state: StateView,
    pub out: Seq<u8>,
}

/// A line without its line feed.
pub open spec fn without_line_feed(line: Seq<u8>) -> Seq<u8> {
    if line.len() > 0 && line.last() == logger::LF {
        line.drop_last()
    } else {
        line
    }
}

impl ScreenView {
    pub open spec fn put(self, bytes: Seq<u8>) -> ScreenView {
        ScreenView { out: self.out + bytes, ..self }
    }

    pub open spec fn put_text(self, text: Seq<char>) -> ScreenView {
        self.put(text::utf8(text))
    }

    pub open spec fn at_line_start(self) -> ScreenView {
        ScreenView { state: StateView { line_start: true, ..self.state }, ..self }
    }

    pub open spec fn with_foreground(self, line: ForegroundView) -> ScreenView {
        ScreenView { state: self.state.with_foreground(line), ..self }
    }

    /// The foreground line is wiped and its attributes are switched off.
    pub open spec fn erased(self) -> ScreenView {
        ScreenView {
            state: StateView {
                foreground: None,
                line_start: true,
                last_channel: None,
                ..self.state
            },
            out: if self.state.foreground is Some {
                self.out + text::utf8(ERASE_CURRENT_LINE@) + text::utf8(ANSI_RESET@)
            } else {
                self.out
            },
        }
    }

    /// One more byte of `source`. What opens a line gets the timestamp and the
    /// label; a change of source within a line gets the label.
    pub open spec fn byte_rendered(
        self,
        byte: u8,
        source: CoreChannel,
        moment: Moment,
        color: Option<Seq<char>>,
    ) -> ScreenView {
        let state = self.state;
        if byte == 0x0d {
            self.put(seq![byte]).at_line_start()
        } else {
            let opens = state.line_start || (state.channel_labels && state.last_channel != Some(
                source,
            ));
            let stamp = if state.timestamps && state.line_start {
                text::utf8(state.stamp(moment))
            } else {
                seq![]
            };
            let label = if state.channel_labels && opens {
                state.label(source)
            } else {
                seq![]
            };
            let paint = if color is Some && opens {
                text::utf8(color->0)
            } else {
                seq![]
            };
            ScreenView {
                state: StateView {
                    line_start: byte == logger::LF,
                    last_channel: if state.channel_labels && opens {
                        Some(source)
                    } else {
                        state.last_channel
                    },
                    ..state
                },
                out: self.out + stamp + label + paint + byte_shown(
                    byte,
                    color is Some,
                    state.interactive,
                ),
            }
        }
    }

    pub open spec fn bytes_rendered(
        self,
        bytes: Seq<u8>,
        source: CoreChannel,
        moment: Moment,
        color: Option<Seq<char>>,
    ) -> ScreenView
        decreases bytes.len(),
    {
        if bytes.len() == 0 {
            self
        } else {
            self.bytes_rendered(bytes.drop_last(), source, moment, color).byte_rendered(
                bytes.last(),
                source,
                moment,
                color,
            )
        }
    }

    /// Bytes of `source`, in `color` if there is one.
    pub open spec fn rendered(
        self,
        bytes: Seq<u8>,
        source: CoreChannel,
        moment: Moment,
        color: Option<Seq<char>>,
    ) -> ScreenView {
        let written = self.bytes_rendered(bytes, source, moment, color);
        if color is Some && !written.state.line_start {
            written.put_text(ANSI_RESET@)
        } else {
            written
        }
    }

    /// A saved foreground line is drawn again.
    pub open spec fn restored(self, line: ForegroundView, moment: Moment) -> ScreenView {
        self.rendered(line.rendered, line.channel, moment, None).with_foreground(line)
    }

    /// A finished terminal line. It takes the place of the foreground line, which
    /// comes back behind it unless it was the same channel's.
    pub open spec fn line_shown(
        self,
        source: CoreChannel,
        line: LineView,
        moment: Moment,
    ) -> ScreenView {
        let cleared = self.erased();
        let ended = (if self.state.interactive {
            cleared.rendered(line.styled, source, moment, None).put_text(ANSI_RESET@).put_text(
                "\r\n"@,
            )
        } else {
            cleared.rendered(without_line_feed(line.plain), source, moment, None).put_text("\n"@)
        }).at_line_start();
        match self.state.foreground {
            Some(saved) => if saved.channel != source {
                ended.restored(saved, moment)
            } else {
                ended
            },
            None => ended,
        }
    }

    pub open spec fn lines_shown(
        self,
        source: CoreChannel,
        lines: Seq<LineView>,
        moment: Moment,
    ) -> ScreenView
        decreases lines.len(),
    {
        if lines.len() == 0 {
            self
        } else {
            self.lines_shown(source, lines.drop_last(), moment).line_shown(
                source,
                lines.last(),
                moment,
            )
        }
    }

    /// Whether `source` may become the foreground.
    pub open spec fn may_take_foreground(self, source: CoreChannel) -> bool {
        self.state.foreground is None && (match self.state.down_core {
            Some(core) => core == source.core,
            None => true,
        })
    }

    /// An unfinished terminal line.
    pub open spec fn partial_shown(
        self,
        source: CoreChannel,
        partial: LineView,
        moment: Moment,
    ) -> ScreenView {
        let state = self.state;
        let line = ForegroundView { channel: source, rendered: partial.styled };
        if !state.interactive {
            ScreenView {
                state: StateView { partials: state.partials.insert(source, partial.plain), ..state },
                ..self
            }
        } else if partial.plain.len() == 0 {
            if state.foreground_of(source) {
                self.erased()
            } else {
                ScreenView {
                    state: StateView { prompts: state.prompts.remove(source.core), ..state },
                    ..self
                }
            }
        } else if state.foreground_of(source) {
            self.erased().restored(line, moment)
        } else if self.may_take_foreground(source) {
            self.restored(line, moment)
        } else {
            ScreenView {
                state: StateView { prompts: state.prompts.insert(source.core, line), ..state },
                ..self
            }
        }
    }

    /// Decoded terminal output.
    pub open spec fn chunk_shown(
        self,
        source: CoreChannel,
        lines: Seq<LineView>,
        partial: LineView,
        moment: Moment,
    ) -> ScreenView {
        self.lines_shown(source, lines, moment).partial_shown(source, partial, moment)
    }

    /// A message that is a line of its own; the foreground line comes back.
    pub open spec fn message_shown(
        self,
        source: CoreChannel,
        bytes: Seq<u8>,
        moment: Moment,
        color: Option<Seq<char>>,
    ) -> ScreenView {
        let written = self.erased().rendered(bytes, source, moment, color);
        let ended = if written.state.line_start {
            written
        } else if written.state.interactive {
            written.put_text("\r\n"@).at_line_start()
        } else {
            written.put_text("\n"@).at_line_start()
        };
        match self.state.foreground {
            Some(saved) => ended.restored(saved, moment),
            None => ended,
        }
    }

    /// Unfinished lines of the selected sources among `keys`, each on a line.
    pub open spec fn partials_written(
        self,
        keys: Seq<CoreChannel>,
        core: Option<CoreId>,
        moment: Moment,
    ) -> ScreenView
        decreases keys.len(),
    {
        if keys.len() == 0 {
            self
        } else {
            let earlier = self.partials_written(keys.drop_last(), core, moment);
            let partial = self.state.partials[keys.last()];
            if logger::selects(core, keys.last()) && partial.len() > 0 {
                earlier.rendered(partial, keys.last(), moment, None).put_text("\n"@)
            } else {
                earlier
            }
        }
    }

    /// The selected unfinished lines of redirected output, in source order.
    pub open spec fn partials_finished(self, core: Option<CoreId>, moment: Moment) -> ScreenView {
        self.partials_written(
            ordered::sorted_keys(self.state.partials),
            core,
            moment,
        ).at_line_start()
    }

    /// Keyboard input goes to `core`; a foreground line of another core leaves the
    /// screen.
    pub open spec fn down_selected(self, core: Option<CoreId>) -> ScreenView {
        let selected = ScreenView { state: StateView { down_core: core, ..self.state }, ..self };
        if core is Some && self.state.foreground is Some && !self.state.foreground_of_core(
            core->0,
        ) {
            selected.erased()
        } else {
            selected
        }
    }

    /// There is a prompt of `core` to show.
    pub open spec fn knows_prompt(self, core: CoreId) -> bool {
        self.state.prompts.dom().contains(core) && self.state.prompts[core].rendered.len() > 0
    }

    /// The foreground line leaves the screen if it belongs to `core`.
    pub open spec fn core_prompt_erased(self, core: CoreId) -> ScreenView {
        if self.state.foreground_of_core(core) {
            self.erased()
        } else {
            self
        }
    }

    /// The screen when a core's output, or all output, comes to an end: redirected
    /// output gets its unfinished lines, a terminal loses the foreground line.
    pub open spec fn epoch_finished(self, core: Option<CoreId>, moment: Moment) -> ScreenView {
        if !self.state.interactive {
            self.partials_finished(core, moment)
        } else {
            match core {
                Some(core) => self.core_prompt_erased(core),
                None => self.erased(),
            }
        }
    }

    /// One core starts over.
    pub open spec fn core_epoch_reset(self, core: CoreId, moment: Moment) -> ScreenView {
        let finished = self.epoch_finished(Some(core), moment);
        ScreenView { state: finished.state.core_reset(core), ..finished }
    }

    /// The target starts over.
    pub open spec fn target_epoch_reset(self, moment: Moment) -> ScreenView {
        let finished = self.epoch_finished(None, moment);
        ScreenView { state: finished.state.target_reset(), ..finished }
    }

    /// The word on where keyboard input goes.
    pub open spec fn down_target_noticed(self, core: CoreId, channel: ChannelId) -> ScreenView {
        self.put_text(
            "\r\nKeyboard input now targets core "@ + text::decimal(core.index as nat)
                + " (down ch"@ + text::decimal(channel.number as nat) + ").\r\n"@,
        ).at_line_start()
    }

    /// The word on a control block that moved, on a terminal.
    pub open spec fn reattached_noticed(self, core: CoreId) -> ScreenView {
        if self.state.interactive {
            self.put_text(
                "\r\nRTT control block changed; reattached to core "@ + text::decimal(
                    core.index as nat,
                ) + ".\r\n"@,
            )
        } else {
            self
        }
    }

    /// The other setting of timestamps, and the word on it.
    pub open spec fn timestamps_toggled(self) -> ScreenView {
        let enabled = !self.state.timestamps;
        (ScreenView { state: StateView { timestamps: enabled, ..self.state }, ..self }).put_text(
            toggle_text("Timestamps"@, enabled),
        ).at_line_start()
    }

    /// A line that was taken off the screen comes back.
    pub open spec fn foreground_restored(self, saved: ForegroundView, moment: Moment) -> ScreenView {
        (ScreenView {
            state: StateView { line_start: true, last_channel: None, ..self.state },
            ..self
        }).restored(saved, moment)
    }

    /// The last known prompt of `core` becomes the foreground, if there is one.
    pub open spec fn prompt_shown(self, core: CoreId, moment: Moment) -> ScreenView {
        if self.knows_prompt(core) {
            self.erased().restored(self.state.prompts[core], moment)
        } else {
            self
        }
    }
}

/// Rendering changes only where the line stands and what has been written.
proof fn rendering_keeps_state(
    screen: ScreenView,
    bytes: Seq<u8>,
    source: CoreChannel,
    moment: Moment,
    color: Option<Seq<char>>,
)
    ensures
        ({
            let after = screen.bytes_rendered(bytes, source, moment, color).state;
            after == (StateView {
                line_start: after.line_start,
                last_channel: after.last_channel,
                ..screen.state
            })
        }),
    decreases bytes.len(),
{
    if bytes.len() > 0 {
        rendering_keeps_state(screen, bytes.drop_last(), source, moment, color);
    }
}

/// A message leaves everything but the line it stands on as it was: settings,
/// counters, remembered lines and the foreground.
pub proof fn messages_keep_the_rest(
    screen: ScreenView,
    source: CoreChannel,
    bytes: Seq<u8>,
    moment: Moment,
    color: Option<Seq<char>>,
)
    ensures
        ({
            let after = screen.message_shown(source, bytes, moment, color).state;
            after == (StateView {
                line_start: after.line_start,
                last_channel: after.last_channel,
                prompts: match screen.state.foreground {
                    Some(saved) => screen.state.prompts.insert(saved.channel.core, saved),
                    None => screen.state.prompts,
                },
                ..screen.state
            })
        }),
{
    let written = screen.erased().rendered(bytes, source, moment, color);
    rendering_keeps_state(screen.erased(), bytes, source, moment, color);
    let ended = if written.state.line_start {
        written
    } else if written.state.interactive {
        written.put_text("\r\n"@).at_line_start()
    } else {
        written.put_text("\n"@).at_line_start()
    };
    if let Some(saved) = screen.state.foreground {
        rendering_keeps_state(ended, saved.rendered, saved.channel, moment, None);
    }
}

impl SessionState {
    pub open spec fn wf(&self) -> bool {
        self.partials.wf() && self.prompts.wf()
    }

    /// A session that starts at `started` on the clock of `Moment` and at
    /// `started_wall` nanoseconds since the Unix epoch.
    pub fn new(started: u64, started_wall: u64) -> (state: Self)
        ensures
            state.wf(),
            state@ == StateView::initial(started, started_wall),
    {
        SessionState {
            timestamps: false,
            line_start: true,
            started,
            started_wall,
            defmt_decode_warnings: 0,
            color: false,
            channel_labels: false,
            show_cores: false,
            last_channel: None,
            partials: OrderedMap::new(),
            prompts: OrderedMap::new(),
            down_core: None,
            presentation: Presentation::Interactive { foreground: None },
        }
    }

    /// Forgets everything about the target's output.
    pub fn reset_target(&mut self)
        requires
            old(self).wf(),
        ensures
            final(self).wf(),
            final(self)@ == old(self)@.target_reset(),
    {
        self.line_start = true;
        self.last_channel = None;
        self.partials.clear();
        self.prompts.clear();
        let _ = self.take_foreground();
    }

    /// Forgets what belongs to one core; the rest survives.
    pub fn reset_core(&mut self, core: CoreId)
        requires
            old(self).wf(),
        ensures
            final(self).wf(),
            final(self)@ == old(self)@.core_reset(core),
    {
        self.line_start = true;
        if let Some(source) = self.last_channel {
            if source.core == core {
                self.last_channel = None;
            }
        }
        let ghost before = self.partials@;
        let mut i: usize = 0;
        while i < self.partials.entries.len()
            invariant
                i <= self.partials.entries@.len(),
                self.wf(),
                before == old(self)@.partials,
                self@ == (StateView {
                    line_start: true,
                    last_channel: old(self)@.core_reset(core).last_channel,
                    partials: self.partials@,
                    ..old(self)@
                }),
                forall|j: int| 0 <= j < i ==> (#[trigger] self.partials.entries@[j]).0.core != core,
                forall|k: CoreChannel| #[trigger]
                    self.partials@.dom().contains(k) ==> before.dom().contains(k)
                        && self.partials@[k] == before[k],
                forall|k: CoreChannel| #[trigger]
                    before.dom().contains(k) && k.core != core ==> self.partials@.dom().contains(k),
            decreases self.partials.entries@.len() - i,
        {
            if self.partials.entries[i].0.core == core {
                let _ = self.partials.remove_at(i);
            } else {
                i += 1;
            }
        }
        proof {
            assert forall|k: CoreChannel| #[trigger] self.partials@.dom().contains(k) implies k.core
                != core by {
                let j = ordered::place_of(self.partials.entries@, k);
                assert(ordered::keyed_at(self.partials.entries@, k, j));
            }
            assert(self.partials@ =~= partials_of_others(before, core));
        }
        let _ = self.prompts.remove(&core);
        let owned = match self.foreground() {
            Some(line) => line.channel.core == core,
            None => false,
        };
        if owned {
            let _ = self.take_foreground();
        }
    }

    pub fn is_interactive(&self) -> (interactive: bool)
        ensures
            interactive == self@.interactive,
    {
        match self.presentation {
            Presentation::Interactive { .. } => true,
            Presentation::Redirected => false,
        }
    }

    pub fn foreground(&self) -> (line: Option<&ForegroundLine>)
        ensures
            match line {
                Some(line) => self@.foreground == Some(line@),
                None => self@.foreground is None,
            },
    {
        match &self.presentation {
            Presentation::Interactive { foreground } => match foreground {
                Some(line) => Some(line),
                None => None,
            },
            Presentation::Redirected => None,
        }
    }

    pub fn foreground_is(&self, source: CoreChannel) -> (owned: bool)
        ensures
            owned == self@.foreground_of(source),
    {
        match self.foreground() {
            Some(line) => line.channel == source,
            None => false,
        }
    }

    fn take_foreground(&mut self) -> (line: Option<ForegroundLine>)
        requires
            old(self).wf(),
        ensures
            final(self).wf(),
            foreground_view(line) == old(self)@.foreground,
            final(self)@ == (StateView { foreground: None, ..old(self)@ }),
    {
        match &mut self.presentation {
            Presentation::Interactive { foreground } => foreground.take(),
            Presentation::Redirected => None,
        }
    }

    /// Makes `line` the foreground and its core's last known prompt.
    pub fn set_foreground(&mut self, line: ForegroundLine)
        requires
            old(self).wf(),
            old(self)@.interactive,
        ensures
            final(self).wf(),
            final(self)@ == old(self)@.with_foreground(line@),
    {
        self.prompts.insert(line.channel.core, line.copy());
        self.presentation = Presentation::Interactive { foreground: Some(line) };
    }

    /// Wall clock at `nanos`, in whole seconds since the Unix epoch and
    /// nanoseconds beyond.
    pub fn wall_clock_at(&self, nanos: u64) -> (clock: (i64, u32))
        ensures
            clock.0 == self@.wall_nanos(nanos) / NANOS_PER_SECOND as int,
            clock.1 == self@.wall_nanos(nanos) % NANOS_PER_SECOND as int,
            0 <= clock.0 <= 40_000_000_000,
            clock.1 < NANOS_PER_SECOND,
    {
        let elapsed: u64 = nanos.saturating_sub(self.started);
        let wall: u128 = self.started_wall as u128 + elapsed as u128;
        let seconds: u128 = wall / NANOS_PER_SECOND as u128;
        let rest: u128 = wall % NANOS_PER_SECOND as u128;
        (seconds as i64, rest as u32)
    }

    /// Date and time in front of a line.
    fn stamp_text(&self, moment: Moment) -> (stamp: String)
        ensures
            stamp@ == self@.stamp(moment),
    {
        proof {
            use_type_invariant(&moment);
        }
        let (seconds, nanos) = self.wall_clock_at(moment.nanos);
        let wall = format_wall_clock(WALL_PATTERN, seconds, nanos, moment.utc_offset);
        text::join3("[", wall.as_str(), "] ")
    }
}

/// The colour of a channel's label.
pub open spec fn color_of(channel: ChannelId) -> Seq<char> {
    let place = channel.number % 6;
    if place == 0 {
        "\x1b[36m"@
    } else if place == 1 {
        "\x1b[35m"@
    } else if place == 2 {
        "\x1b[34m"@
    } else if place == 3 {
        "\x1b[32m"@
    } else if place == 4 {
        "\x1b[33m"@
    } else {
        "\x1b[31m"@
    }
}

pub fn channel_color(channel: ChannelId) -> (color: &'static str)
    ensures
        color@ == color_of(channel),
{
    let place: usize = channel.number % 6;
    if place == 0 {
        "\x1b[36m"
    } else if place == 1 {
        "\x1b[35m"
    } else if place == 2 {
        "\x1b[34m"
    } else if place == 3 {
        "\x1b[32m"
    } else if place == 4 {
        "\x1b[33m"
    } else {
        "\x1b[31m"
    }
}

/// The view of an optional colour.
pub open spec fn color_view(color: Option<&'static str>) -> Option<Seq<char>> {
    match color {
        Some(color) => Some(color@),
        None => None,
    }
}

/// Wipes the foreground line and hands it back.
pub fn erase_foreground(state: &mut SessionState, output: &mut Vec<u8>) -> (saved: Option<
    ForegroundLine,
>)
    requires
        old(state).wf(),
    ensures
        final(state).wf(),
        foreground_view(saved) == old(state)@.foreground,
        (ScreenView { state: final(state)@, out: final(output)@ }) == (ScreenView {
            state: old(state)@,
            out: old(output)@,
        }).erased(),
{
    let foreground = state.take_foreground();
    if foreground.is_some() {
        // The line may leave attributes active; what follows must not inherit
        // them.
        text::push_text(output, ERASE_CURRENT_LINE);
        text::push_text(output, ANSI_RESET);
    }
    state.line_start = true;
    state.last_channel = None;
    foreground
}

/// Writes bytes of one source with timestamps and labels.
pub fn render_channel_bytes(
    bytes: &[u8],
    source: CoreChannel,
    moment: Moment,
    state: &mut SessionState,
    output: &mut Vec<u8>,
    line_color: Option<&'static str>,
)
    requires
        old(state).wf(),
    ensures
        final(state).wf(),
        (ScreenView { state: final(state)@, out: final(output)@ }) == (ScreenView {
            state: old(state)@,
            out: old(output)@,
        }).rendered(bytes@, source, moment, color_view(line_color)),
{
    let ghost before = ScreenView { state: state@, out: output@ };
    let ghost color = color_view(line_color);
    let mut i: usize = 0;
    proof {
        assert(bytes@.take(0) =~= Seq::<u8>::empty());
    }
    while i < bytes.len()
        invariant
            i <= bytes@.len(),
            state.wf(),
            color == color_view(line_color),
            (ScreenView { state: state@, out: output@ }) == before.bytes_rendered(
                bytes@.take(i as int),
                source,
                moment,
                color,
            ),
        decreases bytes@.len() - i,
    {
        let ghost current = ScreenView { state: state@, out: output@ };
        render_byte(bytes[i], source, moment, state, output, line_color);
        proof {
            assert(bytes@.take(i as int + 1).drop_last() =~= bytes@.take(i as int));
            assert(bytes@.take(i as int + 1).last() == bytes@[i as int]);
        }
        i += 1;
    }
    proof {
        assert(bytes@.take(bytes@.len() as int) =~= bytes@);
    }
    if line_color.is_some() && !state.line_start {
        text::push_text(output, ANSI_RESET);
    }
}

/// Writes one byte of one source.
fn render_byte(
    byte: u8,
    source: CoreChannel,
    moment: Moment,
    state: &mut SessionState,
    output: &mut Vec<u8>,
    line_color: Option<&'static str>,
)
    requires
        old(state).wf(),
    ensures
        final(state).wf(),
        (ScreenView { state: final(state)@, out: final(output)@ }) == (ScreenView {
            state: old(state)@,
            out: old(output)@,
        }).byte_rendered(byte, source, moment, color_view(line_color)),
{
    let ghost before = ScreenView { state: state@, out: output@ };
    if byte == 0x0d {
        output.push(byte);
        state.line_start = true;
        proof {
            assert(output@ =~= before.out + seq![byte]);
        }
        return ;
    }
    let line_start = state.line_start;
    let same_channel = match state.last_channel {
        Some(last) => last == source,
        None => false,
    };
    let opens = line_start || (state.channel_labels && !same_channel);
    let ghost stamp = if before.state.timestamps && line_start {
        text::utf8(before.state.stamp(moment))
    } else {
        seq![]
    };
    let ghost label = if before.state.channel_labels && opens {
        before.state.label(source)
    } else {
        seq![]
    };
    let ghost paint = if color_view(line_color) is Some && opens {
        text::utf8(color_view(line_color)->0)
    } else {
        seq![]
    };
    if state.timestamps && line_start {
        let stamp = state.stamp_text(moment);
        text::push_text(output, stamp.as_str());
    }
    proof {
        assert(output@ =~= before.out + stamp);
    }
    if state.channel_labels && opens {
        write_label(source, state, output);
        state.last_channel = Some(source);
    }
    proof {
        assert(output@ =~= before.out + stamp + label);
    }
    if let Some(color) = line_color {
        if opens {
            text::push_text(output, color);
        }
    }
    proof {
        assert(output@ =~= before.out + stamp + label + paint);
    }
    write_byte(byte, line_color.is_some(), state.is_interactive(), output);
    state.line_start = byte == logger::LF;
}

/// Writes the label of a source.
fn write_label(source: CoreChannel, state: &SessionState, output: &mut Vec<u8>)
    ensures
        final(output)@ == old(output)@ + state@.label(source),
{
    if state.color {
        text::push_text(output, channel_color(source.channel));
    }
    let tag = source.tag_text(state.show_cores);
    text::push_text(output, tag.as_str());
    if state.color {
        text::push_text(output, ANSI_RESET);
    }
    proof {
        assert(output@ =~= old(output)@ + state@.label(source));
    }
}

/// What a byte other than a carriage return looks like. A terminal also needs a
/// carriage return to get to the next line, and a colour ends with its line.
pub open spec fn byte_shown(byte: u8, colored: bool, interactive: bool) -> Seq<u8> {
    if byte == logger::LF {
        (if interactive {
            seq![0x0du8]
        } else {
            seq![]
        }) + seq![byte] + (if colored {
            text::utf8(ANSI_RESET@)
        } else {
            seq![]
        })
    } else {
        seq![byte]
    }
}

fn write_byte(byte: u8, colored: bool, interactive: bool, output: &mut Vec<u8>)
    ensures
        final(output)@ == old(output)@ + byte_shown(byte, colored, interactive),
{
    if byte == logger::LF && interactive {
        output.push(0x0d);
    }
    output.push(byte);
    if byte == logger::LF && colored {
        text::push_text(output, ANSI_RESET);
    }
    proof {
        assert(output@ =~= old(output)@ + byte_shown(byte, colored, interactive));
    }
}

/// Draws a saved foreground line again.
fn restore_line(
    saved: ForegroundLine,
    moment: Moment,
    state: &mut SessionState,
    output: &mut Vec<u8>,
)
    requires
        old(state).wf(),
        old(state)@.interactive,
    ensures
        final(state).wf(),
        (ScreenView { state: final(state)@, out: final(output)@ }) == (ScreenView {
            state: old(state)@,
            out: old(output)@,
        }).restored(saved@, moment),
{
    proof {
        rendering_keeps_state(
            ScreenView { state: state@, out: output@ },
            saved.rendered@,
            saved.channel,
            moment,
            None,
        );
    }
    render_channel_bytes(saved.rendered.as_slice(), saved.channel, moment, state, output, None);
    state.set_foreground(saved);
}

/// A line of text without its line feed.
fn trim_line_feed(line: &[u8]) -> (trimmed: &[u8])
    ensures
        trimmed@ == without_line_feed(line@),
{
    if line.len() > 0 && line[line.len() - 1] == logger::LF {
        let trimmed = vstd::slice::slice_subrange(line, 0, line.len() - 1);
        proof {
            assert(trimmed@ =~= line@.drop_last());
        }
        trimmed
    } else {
        line
    }
}

/// Shows one finished terminal line.
fn render_terminal_line(
    source: CoreChannel,
    line: &TerminalLine,
    moment: Moment,
    state: &mut SessionState,
    output: &mut Vec<u8>,
)
    requires
        old(state).wf(),
    ensures
        final(state).wf(),
        (ScreenView { state: final(state)@, out: final(output)@ }) == (ScreenView {
            state: old(state)@,
            out: old(output)@,
        }).line_shown(source, line@, moment),
{
    let ghost before = ScreenView { state: state@, out: output@ };
    let foreground = erase_foreground(state, output);
    proof {
        rendering_keeps_state(before.erased(), line.styled@, source, moment, None);
        rendering_keeps_state(
            before.erased(),
            without_line_feed(line.plain@),
            source,
            moment,
            None,
        );
    }
    if state.is_interactive() {
        render_channel_bytes(line.styled.as_slice(), source, moment, state, output, None);
        text::push_text(output, ANSI_RESET);
        text::push_text(output, "\r\n");
    } else {
        render_channel_bytes(
            trim_line_feed(line.plain.as_slice()),
            source,
            moment,
            state,
            output,
            None,
        );
        text::push_text(output, "\n");
    }
    state.line_start = true;
    if let Some(saved) = foreground {
        if saved.channel != source {
            restore_line(saved, moment, state, output);
        }
    }
}

/// Shows decoded terminal output: finished lines, then the unfinished one.
pub fn render_terminal_chunk(
    source: CoreChannel,
    chunk: TerminalChunk,
    moment: Moment,
    state: &mut SessionState,
    output: &mut Vec<u8>,
)
    requires
        old(state).wf(),
    ensures
        final(state).wf(),
        (ScreenView { state: final(state)@, out: final(output)@ }) == (ScreenView {
            state: old(state)@,
            out: old(output)@,
        }).chunk_shown(source, terminal::line_views(chunk.lines@), chunk.partial@, moment),
{
    let ghost before = ScreenView { state: state@, out: output@ };
    let ghost lines = terminal::line_views(chunk.lines@);
    let mut i: usize = 0;
    proof {
        assert(lines.take(0) =~= Seq::<LineView>::empty());
    }
    while i < chunk.lines.len()
        invariant
            i <= chunk.lines@.len(),
            state.wf(),
            lines == terminal::line_views(chunk.lines@),
            (ScreenView { state: state@, out: output@ }) == before.lines_shown(
                source,
                lines.take(i as int),
                moment,
            ),
        decreases chunk.lines@.len() - i,
    {
        render_terminal_line(source, &chunk.lines[i], moment, state, output);
        proof {
            assert(lines.take(i as int + 1).drop_last() =~= lines.take(i as int));
            assert(lines.take(i as int + 1).last() == chunk.lines@[i as int]@);
        }
        i += 1;
    }
    proof {
        assert(lines.take(lines.len() as int) =~= lines);
    }
    render_partial(source, chunk.partial, moment, state, output);
}

/// Shows or remembers an unfinished terminal line.
fn render_partial(
    source: CoreChannel,
    partial: TerminalLine,
    moment: Moment,
    state: &mut SessionState,
    output: &mut Vec<u8>,
)
    requires
        old(state).wf(),
    ensures
        final(state).wf(),
        (ScreenView { state: final(state)@, out: final(output)@ }) == (ScreenView {
            state: old(state)@,
            out: old(output)@,
        }).partial_shown(source, partial@, moment),
{
    if !state.is_interactive() {
        state.partials.insert(source, partial.plain);
        return ;
    }
    if partial.plain.len() == 0 {
        if state.foreground_is(source) {
            let _ = erase_foreground(state, output);
        } else {
            let _ = state.prompts.remove(&source.core);
        }
        return ;
    }
    let line = ForegroundLine { channel: source, rendered: partial.styled };
    let may_take = match state.down_core {
        Some(core) => core == source.core,
        None => true,
    };
    if state.foreground_is(source) {
        let _ = erase_foreground(state, output);
    } else if state.foreground().is_some() || !may_take {
        // Another line owns the screen. Keep this one for a later switch.
        state.prompts.insert(source.core, line);
        return ;
    }
    restore_line(line, moment, state, output);
}

/// Shows a message that is a line of its own.
fn render_complete_line(
    source: CoreChannel,
    bytes: &[u8],
    moment: Moment,
    color: Option<&'static str>,
    state: &mut SessionState,
    output: &mut Vec<u8>,
)
    requires
        old(state).wf(),
    ensures
        final(state).wf(),
        (ScreenView { state: final(state)@, out: final(output)@ }) == (ScreenView {
            state: old(state)@,
            out: old(output)@,
        }).message_shown(source, bytes@, moment, color_view(color)),
{
    let ghost before = ScreenView { state: state@, out: output@ };
    let foreground = erase_foreground(state, output);
    proof {
        rendering_keeps_state(before.erased(), bytes@, source, moment, color_view(color));
    }
    render_channel_bytes(bytes, source, moment, state, output, color);
    if !state.line_start {
        if state.is_interactive() {
            text::push_text(output, "\r\n");
        } else {
            text::push_text(output, "\n");
        }
        state.line_start = true;
    }
    if let Some(saved) = foreground {
        restore_line(saved, moment, state, output);
    }
}

/// The text of a defmt message: timestamp, level, message.
pub open spec fn frame_text(frame: FrameView) -> Seq<char> {
    (match frame.timestamp {
        Some(timestamp) => "["@ + timestamp + "] "@,
        None => seq![],
    }) + (match frame.level {
        Some(level) => level.name() + " "@,
        None => seq![],
    }) + frame.message + "\n"@
}

fn frame_line(frame: &DecodedFrame) -> (line: String)
    ensures
        line@ == frame_text(frame@),
{
    let mut line = String::new();
    if let Some(timestamp) = &frame.timestamp {
        text::push_str(&mut line, "[");
        text::push_str(&mut line, timestamp.as_str());
        text::push_str(&mut line, "] ");
    }
    if let Some(level) = frame.level {
        text::push_str(&mut line, level_name(level));
        text::push_str(&mut line, " ");
    }
    text::push_str(&mut line, frame.message.as_str());
    text::push_str(&mut line, "\n");
    proof {
        assert(line@ =~= frame_text(frame@));
    }
    line
}

/// The colour of a defmt message; informational ones have none.
pub open spec fn level_color(level: Option<Level>) -> Seq<char> {
    match level {
        Some(Level::Error) => "\x1b[31m"@,
        Some(Level::Warn) => "\x1b[33m"@,
        Some(Level::Debug) => "\x1b[2m"@,
        Some(Level::Trace) => "\x1b[2m"@,
        _ => ""@,
    }
}

fn defmt_level_color(level: Option<Level>) -> (color: &'static str)
    ensures
        color@ == level_color(level),
{
    match level {
        Some(Level::Error) => "\x1b[31m",
        Some(Level::Warn) => "\x1b[33m",
        Some(Level::Debug) => "\x1b[2m",
        Some(Level::Trace) => "\x1b[2m",
        _ => "",
    }
}

/// The colour in which a message is shown.
pub open spec fn message_color(color: bool, level: Option<Level>) -> Option<Seq<char>> {
    if color && level_color(level) != ""@ {
        Some(level_color(level))
    } else {
        None
    }
}

/// The view of an optional log.
pub open spec fn log_view(log: Option<Logger>) -> Option<LogView> {
    match log {
        Some(log) => Some(log@),
        None => None,
    }
}

/// An optional log can take output of this kind from `source`.
pub open spec fn log_takes(log: Option<LogView>, source: CoreChannel, pre_split: bool) -> bool {
    match log {
        Some(log) => log.assembles(source, pre_split),
        None => true,
    }
}

/// The log after a defmt line.
pub open spec fn log_after_defmt(log: Option<LogView>, source: CoreChannel, line: Seq<u8>) -> Option<
    LogView,
> {
    match log {
        Some(log) => Some(log.after_defmt(source, line)),
        None => None,
    }
}

/// The log after terminal output.
pub open spec fn log_after_terminal(
    log: Option<LogView>,
    source: CoreChannel,
    lines: Seq<LineView>,
    partial: Seq<u8>,
) -> Option<LogView> {
    match log {
        Some(log) => Some(
            log.after_terminal(source, Seq::new(lines.len(), |i: int| lines[i].plain), partial),
        ),
        None => None,
    }
}

/// An optional log is well formed.
pub open spec fn log_wf(log: Option<Logger>) -> bool {
    match log {
        Some(log) => log.wf(),
        None => true,
    }
}

/// Logs and shows decoded terminal output; both get the same decoded lines.
pub fn render_terminal_event(
    source: CoreChannel,
    chunk: TerminalChunk,
    moment: Moment,
    state: &mut SessionState,
    logger: &mut Option<Logger>,
    output: &mut Vec<u8>,
)
    requires
        old(state).wf(),
        log_wf(*old(logger)),
        log_takes(log_view(*old(logger)), source, true),
    ensures
        final(state).wf(),
        log_wf(*final(logger)),
        log_view(*final(logger)) == log_after_terminal(
            log_view(*old(logger)),
            source,
            terminal::line_views(chunk.lines@),
            chunk.partial@.plain,
        ),
        (ScreenView { state: final(state)@, out: final(output)@ }) == (ScreenView {
            state: old(state)@,
            out: old(output)@,
        }).chunk_shown(source, terminal::line_views(chunk.lines@), chunk.partial@, moment),
{
    if let Some(log) = logger {
        let lines = plain_lines(&chunk.lines);
        log.write_terminal_decoded(source, lines.as_slice(), chunk.partial.plain.as_slice());
        proof {
            let views = terminal::line_views(chunk.lines@);
            assert(logger::byte_views(lines@) =~= Seq::new(
                views.len(),
                |i: int| views[i].plain,
            ));
        }
    }
    render_terminal_chunk(source, chunk, moment, state, output);
}

/// The text of each line.
fn plain_lines(lines: &Vec<TerminalLine>) -> (plain: Vec<Vec<u8>>)
    ensures
        plain@.len() == lines@.len(),
        forall|i: int| 0 <= i < plain@.len() ==> (#[trigger] plain@[i])@ == lines@[i].plain@,
{
    let mut plain: Vec<Vec<u8>> = Vec::new();
    let mut i: usize = 0;
    while i < lines.len()
        invariant
            i <= lines@.len(),
            plain@.len() == i,
            forall|j: int| 0 <= j < i ==> (#[trigger] plain@[j])@ == lines@[j].plain@,
        decreases lines@.len() - i,
    {
        plain.push(text::copy_bytes(lines[i].plain.as_slice()));
        i += 1;
    }
    plain
}

/// Logs and shows a defmt message.
pub fn render_defmt_frame(
    source: CoreChannel,
    frame: &DecodedFrame,
    moment: Moment,
    state: &mut SessionState,
    logger: &mut Option<Logger>,
    output: &mut Vec<u8>,
)
    requires
        old(state).wf(),
        log_wf(*old(logger)),
        log_takes(log_view(*old(logger)), source, false),
    ensures
        final(state).wf(),
        log_wf(*final(logger)),
        log_view(*final(logger)) == log_after_defmt(
            log_view(*old(logger)),
            source,
            text::utf8(frame_text(frame@)),
        ),
        (ScreenView { state: final(state)@, out: final(output)@ }) == (ScreenView {
            state: old(state)@,
            out: old(output)@,
        }).message_shown(
            source,
            text::utf8(frame_text(frame@)),
            moment,
            message_color(old(state)@.color, frame.level),
        ),
{
    let line = frame_line(frame);
    if let Some(log) = logger {
        log.write_defmt_decoded(source, line.as_str().as_bytes());
    }
    let color = if state.color {
        let color = defmt_level_color(frame.level);
        if text::same_text(color, "") {
            None
        } else {
            Some(color)
        }
    } else {
        None
    };
    render_complete_line(source, line.as_str().as_bytes(), moment, color, state, output);
}

/// The text of the `count`th decoding warning.
pub open spec fn warning_text(count: nat, warning: Seq<char>) -> Seq<char> {
    "[defmt warning #"@ + text::decimal(count) + "] "@ + warning + "\n"@
}

/// Counts, logs and shows a decoding warning.
pub fn render_defmt_warning(
    source: CoreChannel,
    warning: &str,
    moment: Moment,
    state: &mut SessionState,
    logger: &mut Option<Logger>,
    output: &mut Vec<u8>,
)
    requires
        old(state).wf(),
        old(state)@.defmt_decode_warnings < u64::MAX,
        log_wf(*old(logger)),
        log_takes(log_view(*old(logger)), source, false),
    ensures
        final(state).wf(),
        log_wf(*final(logger)),
        ({
            let count = (old(state)@.defmt_decode_warnings + 1) as u64;
            let line = text::utf8(warning_text(count as nat, warning@));
            &&& log_view(*final(logger)) == log_after_defmt(log_view(*old(logger)), source, line)
            &&& (ScreenView { state: final(state)@, out: final(output)@ }) == (ScreenView {
                state: StateView { defmt_decode_warnings: count, ..old(state)@ },
                out: old(output)@,
            }).message_shown(source, line, moment, None)
        }),
{
    state.defmt_decode_warnings = state.defmt_decode_warnings + 1;
    let mut line = "[defmt warning #".to_string();
    text::push_number(&mut line, state.defmt_decode_warnings, 10);
    text::push_str(&mut line, "] ");
    text::push_str(&mut line, warning);
    text::push_str(&mut line, "\n");
    if let Some(log) = logger {
        log.write_defmt_decoded(source, line.as_str().as_bytes());
    }
    render_complete_line(source, line.as_str().as_bytes(), moment, None, state, output);
}

/// Progress of the search for a graphic rendition sequence.
#[derive(Clone, Copy, Debug, PartialEq, Eq, Structural)]
pub enum SgrScan {
    Text,
    Escape,
    Csi,
    Found,
}

impl SgrScan {
    pub open spec fn after(self, byte: u8) -> SgrScan {
        match self {
            SgrScan::Found => SgrScan::Found,
            SgrScan::Escape => if byte == 0x5b {
                SgrScan::Csi
            } else {
                SgrScan::Text
            },
            SgrScan::Csi => if byte == 0x6d {
                SgrScan::Found
            } else if 0x40 <= byte <= 0x7e {
                SgrScan::Text
            } else {
                SgrScan::Csi
            },
            SgrScan::Text => if byte == 0x1b {
                SgrScan::Escape
            } else {
                SgrScan::Text
            },
        }
    }

    pub open spec fn over(bytes: Seq<u8>) -> SgrScan
        decreases bytes.len(),
    {
        if bytes.len() == 0 {
            SgrScan::Text
        } else {
            SgrScan::over(bytes.drop_last()).after(bytes.last())
        }
    }
}

/// Whether the bytes hold a control sequence that ends in `m`.
pub fn contains_sgr(bytes: &[u8]) -> (found: bool)
    ensures
        found == (SgrScan::over(bytes@) is Found),
{
    let mut scan = SgrScan::Text;
    let mut i: usize = 0;
    proof {
        assert(bytes@.take(0) =~= Seq::<u8>::empty());
    }
    while i < bytes.len()
        invariant
            i <= bytes@.len(),
            scan == SgrScan::over(bytes@.take(i as int)),
        decreases bytes@.len() - i,
    {
        let byte: u8 = bytes[i];
        scan = match scan {
            SgrScan::Found => SgrScan::Found,
            SgrScan::Escape => if byte == 0x5b {
                SgrScan::Csi
            } else {
                SgrScan::Text
            },
            SgrScan::Csi => if byte == 0x6d {
                SgrScan::Found
            } else if byte >= 0x40 && byte <= 0x7e {
                SgrScan::Text
            } else {
                SgrScan::Csi
            },
            SgrScan::Text => if byte == 0x1b {
                SgrScan::Escape
            } else {
                SgrScan::Text
            },
        };
        proof {
            assert(bytes@.take(i as int + 1).drop_last() =~= bytes@.take(i as int));
            assert(bytes@.take(i as int + 1).last() == byte);
        }
        i += 1;
    }
    proof {
        assert(bytes@.take(bytes@.len() as int) =~= bytes@);
    }
    scan == SgrScan::Found
}

/// A byte that ends a control sequence.
pub open spec fn ends_control_sequence(byte: u8) -> bool {
    0x40 <= byte <= 0x7e
}

/// A control sequence begins at `i` and is not ended by the bytes before `n`.
pub open spec fn open_at(bytes: Seq<u8>, i: int, n: int) -> bool {
    &&& 0 <= i
    &&& i + 2 <= n <= bytes.len()
    &&& bytes[i] == 0x1b
    &&& bytes[i + 1] == 0x5b
    &&& forall|k: int| i + 2 <= k < n ==> !ends_control_sequence(#[trigger] bytes[k])
}

/// A control sequence from `i` to `j` ends in `m`.
pub open spec fn sgr_at(bytes: Seq<u8>, i: int, j: int) -> bool {
    j < bytes.len() && open_at(bytes, i, j) && bytes[j] == 0x6d
}

/// Each escape character stands outside of the sequences that others begin.
pub open spec fn escapes_are_apart(bytes: Seq<u8>) -> bool {
    forall|i: int, k: int|
        0 <= i < k < bytes.len() && #[trigger] bytes[i] == 0x1b && #[trigger] bytes[k] == 0x1b
            ==> k > i + 1 && !open_at(bytes, i, k)
}

/// What the search knows once it has seen all of `bytes`.
proof fn search_follows_sequences(bytes: Seq<u8>)
    ensures
        SgrScan::over(bytes) is Found ==> exists|i: int, j: int| sgr_at(bytes, i, j),
        SgrScan::over(bytes) is Csi ==> exists|i: int| open_at(bytes, i, bytes.len() as int),
        SgrScan::over(bytes) is Escape ==> bytes.len() > 0 && bytes.last() == 0x1b,
        escapes_are_apart(bytes) && SgrScan::over(bytes) is Text ==> bytes.len() == 0
            || bytes.last() != 0x1b,
        escapes_are_apart(bytes) && (SgrScan::over(bytes) is Text || SgrScan::over(
            bytes,
        ) is Escape) ==> forall|i: int| !open_at(bytes, i, bytes.len() as int),
        escapes_are_apart(bytes) && !(SgrScan::over(bytes) is Found) ==> forall|i: int, j: int|
            !sgr_at(bytes, i, j),
    decreases bytes.len(),
{
    if bytes.len() > 0 {
        let fewer = bytes.drop_last();
        let n = bytes.len() as int;
        let m = fewer.len() as int;
        let last = bytes.last();
        let before = SgrScan::over(fewer);
        let after = SgrScan::over(bytes);
        search_follows_sequences(fewer);
        assert forall|i: int, m: int| m < n implies #[trigger] open_at(fewer, i, m) == open_at(
            bytes,
            i,
            m,
        ) by {
            if 0 <= i && i + 2 <= m <= fewer.len() {
                assert(fewer[i] == bytes[i] && fewer[i + 1] == bytes[i + 1]);
                if open_at(fewer, i, m) {
                    assert forall|k: int| i + 2 <= k < m implies !ends_control_sequence(
                        #[trigger] bytes[k],
                    ) by {
                        assert(fewer[k] == bytes[k]);
                    }
                }
                if open_at(bytes, i, m) {
                    assert forall|k: int| i + 2 <= k < m implies !ends_control_sequence(
                        #[trigger] fewer[k],
                    ) by {
                        assert(fewer[k] == bytes[k]);
                    }
                }
            }
        }
        if before is Found {
            let (i, j) = choose|i: int, j: int| sgr_at(fewer, i, j);
            assert(open_at(fewer, i, j));
            assert(sgr_at(bytes, i, j));
        }
        if before is Csi {
            let i = choose|i: int| open_at(fewer, i, m);
            assert(open_at(bytes, i, n - 1));
            if after is Found {
                assert(sgr_at(bytes, i, n - 1));
            } else if after is Csi {
                assert(open_at(bytes, i, n));
            }
        }
        if after is Csi && before is Escape {
            assert(open_at(bytes, n - 2, n));
        }
        if escapes_are_apart(bytes) {
            assert(escapes_are_apart(fewer)) by {
                assert forall|i: int, k: int|
                    0 <= i < k < fewer.len() && #[trigger] fewer[i] == 0x1b && #[trigger] fewer[k]
                        == 0x1b implies k > i + 1 && !open_at(fewer, i, k) by {
                    assert(bytes[i] == 0x1b && bytes[k] == 0x1b);
                    assert(open_at(fewer, i, k) == open_at(bytes, i, k));
                }
            }
            if before is Escape {
                assert(bytes[n - 2] == 0x1b);
                assert(last != 0x1b);
            }
            if after is Text || after is Escape {
                assert forall|i: int| !open_at(bytes, i, n) by {
                    if open_at(bytes, i, n) {
                        if i + 2 < n {
                            assert(open_at(bytes, i, n - 1));
                            assert(open_at(fewer, i, n - 1));
                            assert(before is Csi);
                            assert(!ends_control_sequence(bytes[n - 1]));
                        } else {
                            assert(fewer.last() == 0x1b);
                            assert(last == 0x5b);
                            if before is Csi {
                                let start = choose|start: int| open_at(fewer, start, m);
                                assert(open_at(bytes, start, n - 1));
                                assert(start != n - 2);
                                assert(bytes[start + 1] == 0x5b);
                                assert(start + 1 != n - 2);
                                assert(open_at(bytes, start, n - 2));
                                assert(bytes[start] == 0x1b && bytes[n - 2] == 0x1b);
                            }
                        }
                    }
                }
            }
            if !(after is Found) {
                assert forall|i: int, j: int| !sgr_at(bytes, i, j) by {
                    if sgr_at(bytes, i, j) {
                        if j < n - 1 {
                            assert(open_at(fewer, i, j));
                            assert(fewer[j] == bytes[j]);
                            assert(sgr_at(fewer, i, j));
                        } else {
                            assert(open_at(fewer, i, n - 1));
                        }
                    }
                }
            }
        }
    }
}

/// The search finds nothing but control sequences that end in `m`, and finds one
/// where there is any, as long as no escape character stands within a sequence
/// that another one begins.
pub proof fn search_finds_sequences(bytes: Seq<u8>)
    ensures
        SgrScan::over(bytes) is Found ==> exists|i: int, j: int| sgr_at(bytes, i, j),
        escapes_are_apart(bytes) ==> (SgrScan::over(bytes) is Found <==> exists|i: int, j: int|
            sgr_at(bytes, i, j)),
{
    search_follows_sequences(bytes);
}

/// `bytes` ends with `end`.
pub open spec fn ends_with(bytes: Seq<u8>, end: Seq<u8>) -> bool {
    bytes.len() >= end.len() && bytes.skip(bytes.len() - end.len()) == end
}

fn has_end(bytes: &[u8], end: &[u8]) -> (found: bool)
    ensures
        found == ends_with(bytes@, end@),
{
    if bytes.len() < end.len() {
        return false;
    }
    let tail = vstd::slice::slice_subrange(bytes, bytes.len() - end.len(), bytes.len());
    proof {
        assert(tail@ =~= bytes@.skip(bytes@.len() - end@.len()));
    }
    text::same_bytes(tail, end)
}

/// Whether the bytes end by switching all attributes off.
pub fn ends_with_sgr_reset(bytes: &[u8]) -> (found: bool)
    ensures
        found == (ends_with(bytes@, text::utf8("\x1b[0m"@)) || ends_with(
            bytes@,
            text::utf8("\x1b[m"@),
        )),
{
    has_end(bytes, "\x1b[0m".as_bytes()) || has_end(bytes, "\x1b[m".as_bytes())
}

/// The help for the commands behind Ctrl-T.
pub open spec fn help_text() -> Seq<char> {
    "\r\nCtrl-T commands:\r\n  q  Quit\r\n  ?  Show this help\r\n  c  Show configuration\r\n  l  Clear screen\r\n  t  Toggle timestamps\r\n  R  Reset target\r\n  d  Switch down-channel core\r\n  Ctrl-T  Send a literal Ctrl-T\r\n\r\nCtrl-C is sent to the target.\r\n\r\n"@
}

pub fn write_help(output: &mut Vec<u8>)
    ensures
        final(output)@ == old(output)@ + text::utf8(help_text()),
{
    text::push_text(
        output,
        "\r\nCtrl-T commands:\r\n  q  Quit\r\n  ?  Show this help\r\n  c  Show configuration\r\n  l  Clear screen\r\n  t  Toggle timestamps\r\n  R  Reset target\r\n  d  Switch down-channel core\r\n  Ctrl-T  Send a literal Ctrl-T\r\n\r\nCtrl-C is sent to the target.\r\n\r\n",
    );
}

/// The greeting of a session.
pub open spec fn banner_text(version: Seq<char>) -> Seq<char> {
    "brtt "@ + version + "\r\nPress ctrl-t ? for help\r\nConnected to target\r\n"@
}

pub fn write_session_banner(output: &mut Vec<u8>, version: &str)
    ensures
        final(output)@ == old(output)@ + text::utf8(banner_text(version@)),
{
    let banner = text::join3(
        "brtt ",
        version,
        "\r\nPress ctrl-t ? for help\r\nConnected to target\r\n",
    );
    text::push_text(output, banner.as_str());
}

/// The word for a switch.
pub open spec fn switch_text(enabled: bool) -> Seq<char> {
    if enabled {
        "on"@
    } else {
        "off"@
    }
}

pub fn on_or_off(enabled: bool) -> (word: &'static str)
    ensures
        word@ == switch_text(enabled),
{
    if enabled {
        "on"
    } else {
        "off"
    }
}

/// The notice that a switch was toggled.
pub open spec fn toggle_text(label: Seq<char>, enabled: bool) -> Seq<char> {
    "\r\n"@ + label + ": "@ + switch_text(enabled) + "\r\n"@
}

pub fn write_toggle_status(output: &mut Vec<u8>, label: &str, enabled: bool)
    ensures
        final(output)@ == old(output)@ + text::utf8(toggle_text(label@, enabled)),
{
    let mut status = text::join3("\r\n", label, ": ");
    text::push_str(&mut status, on_or_off(enabled));
    text::push_str(&mut status, "\r\n");
    text::push_text(output, status.as_str());
}

/// The up channels of one core, each as ` CHANNEL:MODE`.
pub open spec fn core_channels_text(specs: Seq<ChannelSpec>, core: CoreId) -> Seq<char>
    decreases specs.len(),
{
    if specs.len() == 0 {
        seq![]
    } else {
        let earlier = core_channels_text(specs.drop_last(), core);
        let spec = specs.last();
        if spec.reaches(core.index) {
            earlier + " "@ + text::decimal(spec.index as nat) + ":"@ + spec.mode.spelling()
        } else {
            earlier
        }
    }
}

/// One line for each core.
pub open spec fn cores_text(specs: Seq<ChannelSpec>, cores: Seq<CoreId>) -> Seq<char>
    decreases cores.len(),
{
    if cores.len() == 0 {
        seq![]
    } else {
        cores_text(specs, cores.drop_last()) + "  Core "@ + text::decimal(
            cores.last().index as nat,
        ) + ": up"@ + core_channels_text(specs, cores.last()) + "\r\n"@
    }
}

/// The lines on keyboard input.
pub open spec fn down_text(channel: Option<ChannelId>, target: Option<CoreId>) -> Seq<char> {
    match channel {
        None => "  Down channel: disabled\r\n"@,
        Some(channel) => "  Down channel: "@ + text::decimal(channel.number as nat) + "\r\n"@ + (
        match target {
            Some(core) => "  Down target: core "@ + text::decimal(core.index as nat) + "\r\n"@,
            None => "  Down target: none\r\n"@,
        }),
    }
}

/// The configuration as the user sees it.
pub open spec fn config_text(
    cores: Seq<CoreId>,
    config: &SessionPolicy,
    down_target: Option<CoreId>,
    timestamps: bool,
) -> Seq<char> {
    "\r\nConfiguration:\r\n"@ + "  Probe: "@ + config.probe@ + "\r\n"@ + "  Chip: "@
        + config.chip@ + "\r\n"@ + cores_text(config.up_specs@, cores) + down_text(
        config.down_channel,
        down_target,
    ) + "  Poll interval: "@ + text::decimal(config.poll_interval as nat) + " ms\r\n"@
        + "  Timestamps: "@ + switch_text(timestamps) + "\r\n"@
}

fn push_core_channels(line: &mut String, specs: &[ChannelSpec], core: CoreId)
    ensures
        final(line)@ == old(line)@ + core_channels_text(specs@, core),
{
    let mut i: usize = 0;
    proof {
        assert(specs@.take(0) =~= Seq::<ChannelSpec>::empty());
        assert(line@ =~= old(line)@ + core_channels_text(specs@.take(0), core));
    }
    while i < specs.len()
        invariant
            i <= specs@.len(),
            line@ == old(line)@ + core_channels_text(specs@.take(i as int), core),
        decreases specs@.len() - i,
    {
        let spec = specs[i];
        if spec.applies_to(core.index) {
            text::push_str(line, " ");
            text::push_number(line, spec.index as u64, 10);
            text::push_str(line, ":");
            text::push_str(line, spec.mode.name());
        }
        proof {
            assert(specs@.take(i as int + 1).drop_last() =~= specs@.take(i as int));
            assert(specs@.take(i as int + 1).last() == spec);
            assert(line@ =~= old(line)@ + core_channels_text(specs@.take(i as int + 1), core));
        }
        i += 1;
    }
    proof {
        assert(specs@.take(specs@.len() as int) =~= specs@);
    }
}

fn push_cores(text: &mut String, specs: &[ChannelSpec], cores: &[CoreId])
    ensures
        final(text)@ == old(text)@ + cores_text(specs@, cores@),
{
    let mut i: usize = 0;
    proof {
        assert(cores@.take(0) =~= Seq::<CoreId>::empty());
        assert(text@ =~= old(text)@ + cores_text(specs@, cores@.take(0)));
    }
    while i < cores.len()
        invariant
            i <= cores@.len(),
            text@ == old(text)@ + cores_text(specs@, cores@.take(i as int)),
        decreases cores@.len() - i,
    {
        text::push_str(text, "  Core ");
        text::push_number(text, cores[i].index as u64, 10);
        text::push_str(text, ": up");
        push_core_channels(text, specs, cores[i]);
        text::push_str(text, "\r\n");
        proof {
            assert(cores@.take(i as int + 1).drop_last() =~= cores@.take(i as int));
            assert(cores@.take(i as int + 1).last() == cores@[i as int]);
            assert(text@ =~= old(text)@ + cores_text(specs@, cores@.take(i as int + 1)));
        }
        i += 1;
    }
    proof {
        assert(cores@.take(cores@.len() as int) =~= cores@);
    }
}

fn push_down(text: &mut String, channel: Option<ChannelId>, target: Option<CoreId>)
    ensures
        final(text)@ == old(text)@ + down_text(channel, target),
{
    match channel {
        None => text::push_str(text, "  Down channel: disabled\r\n"),
        Some(channel) => {
            text::push_str(text, "  Down channel: ");
            text::push_number(text, channel.number as u64, 10);
            text::push_str(text, "\r\n");
            match target {
                Some(core) => {
                    text::push_str(text, "  Down target: core ");
                    text::push_number(text, core.index as u64, 10);
                    text::push_str(text, "\r\n");
                },
                None => text::push_str(text, "  Down target: none\r\n"),
            }
        },
    }
    proof {
        assert(text@ =~= old(text)@ + down_text(channel, target));
    }
}

/// Writes the configuration.
fn write_config(
    cores: &[CoreId],
    config: &SessionPolicy,
    down_target: Option<CoreId>,
    timestamps: bool,
    output: &mut Vec<u8>,
)
    ensures
        final(output)@ == old(output)@ + text::utf8(
            config_text(cores@, config, down_target, timestamps),
        ),
{
    let mut out = "\r\nConfiguration:\r\n".to_string();
    text::push_str(&mut out, "  Probe: ");
    text::push_str(&mut out, config.probe.as_str());
    text::push_str(&mut out, "\r\n");
    text::push_str(&mut out, "  Chip: ");
    text::push_str(&mut out, config.chip.as_str());
    text::push_str(&mut out, "\r\n");
    push_cores(&mut out, config.up_specs.as_slice(), cores);
    push_down(&mut out, config.down_channel, down_target);
    text::push_str(&mut out, "  Poll interval: ");
    text::push_number(&mut out, config.poll_interval, 10);
    text::push_str(&mut out, " ms\r\n");
    text::push_str(&mut out, "  Timestamps: ");
    text::push_str(&mut out, on_or_off(timestamps));
    text::push_str(&mut out, "\r\n");
    text::push_text(output, out.as_str());
}

/// Erases the display and moves the cursor to its corner.
fn clear_screen(output: &mut Vec<u8>)
    ensures
        final(output)@ == old(output)@ + text::utf8("\x1b[2J"@) + text::utf8("\x1b[1;1H"@),
{
    let clear = clear_display();
    text::push_text(output, clear.as_str());
    let home = move_home();
    text::push_text(output, home.as_str());
}

/// What the host's output is.
#[derive(Clone, Copy, Debug, PartialEq, Eq, Structural)]
pub struct HostOutput {
    /// Whether it is a terminal.
    pub is_terminal: bool,
    /// Whether the user asked programs not to use colour.
    pub no_color: bool,
}

/// Shows a session's output and keeps its log.
#[derive(Debug)]
pub struct Renderer {
    pub state: SessionState,
    pub logger: Option<Logger>,
    pub output: Vec<u8>,
}

impl Renderer {
    pub open spec fn wf(&self) -> bool {
        self.state.wf() && log_wf(self.logger)
    }

    /// What is on the screen.
    pub open spec fn screen(&self) -> ScreenView {
        ScreenView { state: self.state@, out: self.output@ }
    }

    /// The log.
    pub open spec fn log(&self) -> Option<LogView> {
        log_view(self.logger)
    }

    pub fn new(output: Vec<u8>, logger: Option<Logger>, state: SessionState) -> (renderer: Self)
        requires
            state.wf(),
            log_wf(logger),
        ensures
            renderer.wf(),
            renderer.screen() == (ScreenView { state: state@, out: output@ }),
            renderer.log() == log_view(logger),
    {
        Renderer { state, logger, output }
    }

    /// The renderer of a session.
    pub fn for_session(
        output: Vec<u8>,
        logger: Option<Logger>,
        config: &SessionPolicy,
        include_channel: bool,
        show_cores: bool,
        host: HostOutput,
        started: u64,
        started_wall: u64,
    ) -> (renderer: Self)
        requires
            log_wf(logger),
        ensures
            renderer.wf(),
            renderer.log() == log_view(logger),
            renderer.screen() == (ScreenView {
                out: output@,
                state: StateView::for_session(
                    config,
                    include_channel,
                    show_cores,
                    host,
                    started,
                    started_wall,
                ),
            }),
    {
        let mut state = SessionState::new(started, started_wall);
        state.timestamps = config.timestamps;
        state.presentation = if host.is_terminal {
            Presentation::Interactive { foreground: None }
        } else {
            Presentation::Redirected
        };
        state.channel_labels = include_channel;
        state.show_cores = show_cores;
        state.color = match config.color {
            ColorMode::Always => true,
            ColorMode::Never => false,
            ColorMode::Auto => host.is_terminal && !host.no_color,
        };
        Self::new(output, logger, state)
    }

    /// The log when a core's output, or all output, comes to an end.
    pub open spec fn log_finished(log: Option<LogView>, core: Option<CoreId>) -> Option<LogView> {
        match log {
            Some(log) => Some(log.reset(core)),
            None => None,
        }
    }

    /// Finishes unfinished lines before the target starts over.
    pub fn finish_target_epoch(&mut self, moment: Moment)
        requires
            old(self).wf(),
        ensures
            final(self).wf(),
            final(self).screen() == old(self).screen().epoch_finished(None, moment),
            final(self).log() == Self::log_finished(old(self).log(), None),
    {
        if self.state.is_interactive() {
            let _ = erase_foreground(&mut self.state, &mut self.output);
        } else {
            self.finish_redirected_partials(None, moment);
        }
        if let Some(log) = &mut self.logger {
            log.reset();
        }
    }

    /// Finishes unfinished lines and forgets everything about the target.
    pub fn reset_target_epoch(&mut self, moment: Moment)
        requires
            old(self).wf(),
        ensures
            final(self).wf(),
            final(self).screen() == old(self).screen().target_epoch_reset(moment),
            final(self).log() == Self::log_finished(old(self).log(), None),
    {
        self.finish_target_epoch(moment);
        self.state.reset_target();
    }

    /// Finishes one core's unfinished lines; other cores are left alone.
    pub fn finish_core_epoch(&mut self, core: CoreId, moment: Moment)
        requires
            old(self).wf(),
        ensures
            final(self).wf(),
            final(self).screen() == old(self).screen().epoch_finished(Some(core), moment),
            final(self).log() == Self::log_finished(old(self).log(), Some(core)),
    {
        if self.state.is_interactive() {
            self.erase_core_prompt(core);
        } else {
            self.finish_redirected_partials(Some(core), moment);
        }
        if let Some(log) = &mut self.logger {
            log.reset_core(core);
        }
    }

    /// Wipes the foreground line if it belongs to `core`.
    pub fn erase_core_prompt(&mut self, core: CoreId)
        requires
            old(self).wf(),
        ensures
            final(self).wf(),
            final(self).screen() == old(self).screen().core_prompt_erased(core),
            final(self).log() == old(self).log(),
    {
        let owned = match self.state.foreground() {
            Some(line) => line.channel.core == core,
            None => false,
        };
        if owned {
            let _ = erase_foreground(&mut self.state, &mut self.output);
        }
    }

    /// Finishes one core's unfinished lines and forgets everything about it.
    pub fn reset_core_epoch(&mut self, core: CoreId, moment: Moment)
        requires
            old(self).wf(),
        ensures
            final(self).wf(),
            final(self).screen() == old(self).screen().core_epoch_reset(core, moment),
            final(self).log() == Self::log_finished(old(self).log(), Some(core)),
    {
        self.finish_core_epoch(core, moment);
        self.state.reset_core(core);
    }

    pub fn is_interactive(&self) -> (interactive: bool)
        ensures
            interactive == self.screen().state.interactive,
    {
        self.state.is_interactive()
    }

    /// Writes the selected unfinished lines of redirected output.
    fn finish_redirected_partials(&mut self, core: Option<CoreId>, moment: Moment)
        requires
            old(self).wf(),
        ensures
            final(self).wf(),
            final(self).screen() == old(self).screen().partials_finished(core, moment),
            final(self).log() == old(self).log(),
    {
        let ghost before = self.screen();
        let ghost keys = self.state.partials.keys();
        let mut i: usize = 0;
        proof {
            self.state.partials.entries_follow_sorted_keys();
            assert(keys.take(0) =~= Seq::<CoreChannel>::empty());
        }
        let count: usize = self.state.partials.entries.len();
        while i < count
            invariant
                i <= count,
                count == keys.len(),
                self.wf(),
                self.log() == old(self).log(),
                self.state.partials@ == before.state.partials,
                keys == ordered::sorted_keys(before.state.partials),
                self.screen() == before.partials_written(keys.take(i as int), core, moment),
            decreases count - i,
        {
            proof {
                self.state.partials.entries_follow_sorted_keys();
                assert(self.state.partials.keys() == keys);
                assert(self.state.partials.entries@.len() == count);
                self.state.partials.entry_is_in_map(i as int);
                assert(keys[i as int] == self.state.partials.entries@[i as int].0);
                assert(keys.take(i as int + 1).drop_last() =~= keys.take(i as int));
                assert(keys.take(i as int + 1).last() == keys[i as int]);
            }
            let source = self.state.partials.entries[i].0;
            let selected = match core {
                Some(core) => source.core == core,
                None => true,
            };
            let bytes = text::copy_bytes(self.state.partials.entries[i].1.as_slice());
            if selected && bytes.len() > 0 {
                proof {
                    rendering_keeps_state(self.screen(), bytes@, source, moment, None);
                }
                render_channel_bytes(
                    bytes.as_slice(),
                    source,
                    moment,
                    &mut self.state,
                    &mut self.output,
                    None,
                );
                text::push_text(&mut self.output, "\n");
            }
            i += 1;
        }
        proof {
            assert(keys.take(keys.len() as int) =~= keys);
        }
        self.state.line_start = true;
    }

    /// Logs and shows decoded terminal output.
    pub fn render_terminal_event(
        &mut self,
        source: CoreChannel,
        chunk: TerminalChunk,
        moment: Moment,
    )
        requires
            old(self).wf(),
            log_takes(old(self).log(), source, true),
        ensures
            final(self).wf(),
            final(self).screen() == old(self).screen().chunk_shown(
                source,
                terminal::line_views(chunk.lines@),
                chunk.partial@,
                moment,
            ),
            final(self).log() == log_after_terminal(
                old(self).log(),
                source,
                terminal::line_views(chunk.lines@),
                chunk.partial@.plain,
            ),
    {
        render_terminal_event(
            source,
            chunk,
            moment,
            &mut self.state,
            &mut self.logger,
            &mut self.output,
        );
    }

    /// Logs and shows a defmt message.
    pub fn render_defmt_frame(&mut self, source: CoreChannel, frame: &DecodedFrame, moment: Moment)
        requires
            old(self).wf(),
            log_takes(old(self).log(), source, false),
        ensures
            final(self).wf(),
            final(self).screen() == old(self).screen().message_shown(
                source,
                text::utf8(frame_text(frame@)),
                moment,
                message_color(old(self).screen().state.color, frame.level),
            ),
            final(self).log() == log_after_defmt(
                old(self).log(),
                source,
                text::utf8(frame_text(frame@)),
            ),
    {
        render_defmt_frame(
            source,
            frame,
            moment,
            &mut self.state,
            &mut self.logger,
            &mut self.output,
        );
    }

    /// Counts, logs and shows a decoding warning.
    pub fn render_defmt_warning(&mut self, source: CoreChannel, warning: &str, moment: Moment)
        requires
            old(self).wf(),
            old(self).screen().state.defmt_decode_warnings < u64::MAX,
            log_takes(old(self).log(), source, false),
        ensures
            final(self).wf(),
            ({
                let before = old(self).screen();
                let count = (before.state.defmt_decode_warnings + 1) as u64;
                let line = text::utf8(warning_text(count as nat, warning@));
                &&& final(self).screen() == (ScreenView {
                    state: StateView { defmt_decode_warnings: count, ..before.state },
                    ..before
                }).message_shown(source, line, moment, None)
                &&& final(self).log() == log_after_defmt(old(self).log(), source, line)
            }),
    {
        render_defmt_warning(
            source,
            warning,
            moment,
            &mut self.state,
            &mut self.logger,
            &mut self.output,
        );
    }

    /// Whether the log can take output of this kind from a source: a channel keeps
    /// the kind of its first output.
    pub fn log_accepts(&self, source: CoreChannel, pre_split: bool) -> (accepted: bool)
        requires
            self.wf(),
        ensures
            accepted == log_takes(self.log(), source, pre_split),
    {
        match &self.logger {
            Some(log) => log.assembles_as(source, pre_split),
            None => true,
        }
    }

    /// Logs exact channel bytes.
    pub fn log_raw_bytes(&mut self, source: CoreChannel, bytes: &[u8])
        requires
            old(self).wf(),
        ensures
            final(self).wf(),
            final(self).screen() == old(self).screen(),
            final(self).log() == (match old(self).log() {
                Some(log) => Some(log.after_raw(source, bytes@)),
                None => None,
            }),
    {
        if let Some(log) = &mut self.logger {
            log.write_bytes(source, bytes);
        }
    }

    /// Flushes the log files.
    pub fn flush_data(&mut self)
        requires
            old(self).wf(),
        ensures
            final(self).wf(),
            final(self).screen() == old(self).screen(),
            final(self).log() == (match old(self).log() {
                Some(log) => Some(log.with_actions(seq![logger::ActionView::Flush])),
                None => None,
            }),
    {
        if let Some(log) = &mut self.logger {
            log.flush_files();
        }
    }

    /// Ends the session: a terminal is left on a clean line, redirected output
    /// and the log get their unfinished lines.
    pub fn finish_session(&mut self, moment: Moment)
        requires
            old(self).wf(),
        ensures
            final(self).wf(),
            final(self).screen() == (if old(self).screen().state.interactive {
                old(self).screen().put_text(ANSI_RESET@).put_text(ERASE_CURRENT_LINE@).put_text(
                    "\r\n"@,
                )
            } else {
                old(self).screen().partials_finished(None, moment)
            }),
            final(self).log() == (match old(self).log() {
                Some(log) => Some(log.flushed()),
                None => None,
            }),
    {
        if self.state.is_interactive() {
            text::push_text(&mut self.output, ANSI_RESET);
            text::push_text(&mut self.output, ERASE_CURRENT_LINE);
            text::push_text(&mut self.output, "\r\n");
        } else {
            self.finish_redirected_partials(None, moment);
        }
        if let Some(log) = &mut self.logger {
            log.flush();
        }
    }

    /// Greets the user of a terminal.
    pub fn show_banner(&mut self, version: &str)
        requires
            old(self).wf(),
        ensures
            final(self).wf(),
            final(self).screen() == (if old(self).screen().state.interactive {
                old(self).screen().put_text(banner_text(version@))
            } else {
                old(self).screen()
            }),
            final(self).log() == old(self).log(),
    {
        if self.state.is_interactive() {
            write_session_banner(&mut self.output, version);
        }
    }

    pub fn show_help(&mut self)
        requires
            old(self).wf(),
        ensures
            final(self).wf(),
            final(self).screen() == old(self).screen().put_text(help_text()).at_line_start(),
            final(self).log() == old(self).log(),
    {
        write_help(&mut self.output);
        self.state.line_start = true;
    }

    pub fn show_config(
        &mut self,
        cores: &[CoreId],
        config: &SessionPolicy,
        down_target: Option<CoreId>,
    )
        requires
            old(self).wf(),
        ensures
            final(self).wf(),
            final(self).screen() == old(self).screen().put_text(
                config_text(cores@, config, down_target, old(self).screen().state.timestamps),
            ).at_line_start(),
            final(self).log() == old(self).log(),
    {
        write_config(cores, config, down_target, self.state.timestamps, &mut self.output);
        self.state.line_start = true;
    }

    pub fn clear_screen(&mut self)
        requires
            old(self).wf(),
        ensures
            final(self).wf(),
            final(self).screen() == old(self).screen().put_text("\x1b[2J"@).put_text(
                "\x1b[1;1H"@,
            ).at_line_start(),
            final(self).log() == old(self).log(),
    {
        clear_screen(&mut self.output);
        self.state.line_start = true;
    }

    pub fn toggle_timestamps(&mut self)
        requires
            old(self).wf(),
        ensures
            final(self).wf(),
            final(self).screen() == old(self).screen().timestamps_toggled(),
            final(self).log() == old(self).log(),
    {
        self.state.timestamps = !self.state.timestamps;
        write_toggle_status(&mut self.output, "Timestamps", self.state.timestamps);
        self.state.line_start = true;
    }

    pub fn notice_target_reset(&mut self)
        requires
            old(self).wf(),
        ensures
            final(self).wf(),
            final(self).screen() == old(self).screen().put_text(
                "\r\nTarget reset.\r\n"@,
            ).at_line_start(),
            final(self).log() == old(self).log(),
    {
        text::push_text(&mut self.output, "\r\nTarget reset.\r\n");
        self.state.line_start = true;
    }

    /// Tells the user of a terminal that a core's control block moved.
    pub fn notice_reattached(&mut self, core: CoreId)
        requires
            old(self).wf(),
        ensures
            final(self).wf(),
            final(self).screen() == old(self).screen().reattached_noticed(core),
            final(self).log() == old(self).log(),
    {
        if self.state.is_interactive() {
            let number = text::decimal_text(core.index as u64);
            let notice = text::join3(
                "\r\nRTT control block changed; reattached to core ",
                number.as_str(),
                ".\r\n",
            );
            text::push_text(&mut self.output, notice.as_str());
        }
    }

    /// Tells the user where keyboard input goes now.
    pub fn notice_down_target(&mut self, core: CoreId, channel: ChannelId)
        requires
            old(self).wf(),
        ensures
            final(self).wf(),
            final(self).screen() == old(self).screen().down_target_noticed(core, channel),
            final(self).log() == old(self).log(),
    {
        let number = text::decimal_text(core.index as u64);
        let mut notice = text::join3(
            "\r\nKeyboard input now targets core ",
            number.as_str(),
            " (down ch",
        );
        text::push_number(&mut notice, channel.number as u64, 10);
        text::push_str(&mut notice, ").\r\n");
        text::push_text(&mut self.output, notice.as_str());
        self.state.line_start = true;
    }

    /// Says which core keyboard input goes to. A foreground line of another core
    /// leaves the screen; without a target every core may take the foreground.
    pub fn select_down_core(&mut self, core: Option<CoreId>)
        requires
            old(self).wf(),
        ensures
            final(self).wf(),
            final(self).screen() == old(self).screen().down_selected(core),
            final(self).log() == old(self).log(),
    {
        self.state.down_core = core;
        let foreign = match (core, self.state.foreground()) {
            (Some(core), Some(line)) => line.channel.core != core,
            _ => false,
        };
        if foreign {
            let _ = erase_foreground(&mut self.state, &mut self.output);
        }
    }

    /// Shows the last known prompt of a core. Without one nothing happens and the
    /// result is false; the core should then be asked for a fresh prompt.
    pub fn show_cached_prompt(&mut self, core: CoreId, moment: Moment) -> (shown: bool)
        requires
            old(self).wf(),
            old(self).screen().state.interactive,
        ensures
            final(self).wf(),
            shown == old(self).screen().knows_prompt(core),
            final(self).screen() == old(self).screen().prompt_shown(core, moment),
            final(self).log() == old(self).log(),
    {
        let cached = match self.state.prompts.get(&core) {
            Some(line) => line.copy(),
            None => {
                return false;
            },
        };
        if cached.rendered.len() == 0 {
            return false;
        }
        let _ = self.suspend_foreground();
        restore_line(cached, moment, &mut self.state, &mut self.output);
        true
    }

    /// Takes the foreground line off the screen so that something else can be
    /// written; `restore_foreground` brings it back.
    pub fn suspend_foreground(&mut self) -> (saved: Option<ForegroundLine>)
        requires
            old(self).wf(),
        ensures
            final(self).wf(),
            foreground_view(saved) == old(self).screen().state.foreground,
            final(self).screen() == old(self).screen().erased(),
            final(self).log() == old(self).log(),
    {
        erase_foreground(&mut self.state, &mut self.output)
    }

    pub fn restore_foreground(&mut self, saved: ForegroundLine, moment: Moment)
        requires
            old(self).wf(),
            old(self).screen().state.interactive,
        ensures
            final(self).wf(),
            final(self).screen() == old(self).screen().foreground_restored(saved@, moment),
            final(self).log() == old(self).log(),
    {
        self.state.line_start = true;
        self.state.last_channel = None;
        restore_line(saved, moment, &mut self.state, &mut self.output);
    }
}

/// Output is neither decorated nor meant for a terminal.
pub open spec fn undecorated(state: StateView) -> bool {
    !state.interactive && !state.timestamps && !state.channel_labels
}

/// Without decorations redirected output is exactly what was decoded.
pub proof fn undecorated_output_is_verbatim(
    screen: ScreenView,
    bytes: Seq<u8>,
    source: CoreChannel,
    moment: Moment,
)
    requires
        undecorated(screen.state),
    ensures
        screen.rendered(bytes, source, moment, None).out == screen.out + bytes,
    decreases bytes.len(),
{
    if bytes.len() == 0 {
        assert(screen.out + bytes =~= screen.out);
    } else {
        let fewer = bytes.drop_last();
        undecorated_output_is_verbatim(screen, fewer, source, moment);
        rendering_keeps_state(screen, fewer, source, moment, None);
        let before = screen.bytes_rendered(fewer, source, moment, None);
        let after = screen.bytes_rendered(bytes, source, moment, None);
        assert(after.out =~= before.out + seq![bytes.last()]);
        assert(bytes =~= fewer.push(bytes.last()));
        assert(after.out =~= screen.out + bytes);
    }
}

/// The text of each line.
pub open spec fn plain_views(lines: Seq<LineView>) -> Seq<Seq<u8>> {
    Seq::new(lines.len(), |i: int| lines[i].plain)
}

proof fn line_feed_is_one_byte()
    ensures
        text::utf8("\n"@) == seq![logger::LF],
{
    reveal_strlit("\n");
    assert("\n"@ =~= seq!['\n']);
    assert(vstd::utf8::is_ascii_chars("\n"@));
    vstd::utf8::is_ascii_chars_encode_utf8("\n"@);
    assert(text::utf8("\n"@) =~= seq![logger::LF]);
}

/// What stands in front of a line of this source: the time and the label, as far
/// as they are shown.
pub open spec fn decoration(state: StateView, source: CoreChannel, moment: Moment) -> Seq<u8> {
    (if state.timestamps {
        text::utf8(state.stamp(moment))
    } else {
        seq![]
    }) + (if state.channel_labels {
        state.label(source)
    } else {
        seq![]
    })
}

/// Lines one after the other, with `front` in front of each that is not empty.
pub open spec fn decorated(front: Seq<u8>, lines: Seq<Seq<u8>>) -> Seq<u8>
    decreases lines.len(),
{
    if lines.len() == 0 {
        seq![]
    } else {
        decorated(front, lines.drop_last()) + (if lines.last().len() > 1 {
            front
        } else {
            seq![]
        }) + lines.last()
    }
}

/// Lines one after the other, with `front` in front of each.
pub open spec fn tagged(front: Seq<u8>, lines: Seq<Seq<u8>>) -> Seq<u8>
    decreases lines.len(),
{
    if lines.len() == 0 {
        seq![]
    } else {
        tagged(front, lines.drop_last()) + (front + lines.last())
    }
}

proof fn text_stands_behind_its_decoration(
    screen: ScreenView,
    bytes: Seq<u8>,
    source: CoreChannel,
    moment: Moment,
)
    requires
        screen.state.line_start,
        text::no_control_bytes(bytes),
    ensures
        ({
            let after = screen.bytes_rendered(bytes, source, moment, None);
            &&& bytes.len() > 0 ==> after.out == screen.out + decoration(
                screen.state,
                source,
                moment,
            ) + bytes
            &&& bytes.len() == 0 ==> after == screen
            &&& bytes.len() > 0 ==> !after.state.line_start
            &&& bytes.len() > 0 && screen.state.channel_labels ==> after.state.last_channel
                == Some(source)
        }),
    decreases bytes.len(),
{
    if bytes.len() > 0 {
        let fewer = bytes.drop_last();
        let last = bytes.last();
        assert(last == bytes[bytes.len() - 1]);
        assert(last >= 0x20);
        assert(text::no_control_bytes(fewer)) by {
            assert forall|i: int| 0 <= i < fewer.len() implies #[trigger] fewer[i] >= 0x20 by {
                assert(fewer[i] == bytes[i]);
            }
        }
        text_stands_behind_its_decoration(screen, fewer, source, moment);
        rendering_keeps_state(screen, fewer, source, moment, None);
        let before = screen.bytes_rendered(fewer, source, moment, None);
        let after = screen.bytes_rendered(bytes, source, moment, None);
        let front = decoration(screen.state, source, moment);
        assert(bytes =~= fewer.push(last));
        if fewer.len() > 0 {
            assert(after.out =~= before.out + seq![last]);
            assert(after.out =~= screen.out + front + bytes);
        } else {
            assert(after.out =~= screen.out + front + seq![last]);
        }
    }
}

proof fn line_stands_behind_its_decoration(
    screen: ScreenView,
    source: CoreChannel,
    line: LineView,
    moment: Moment,
)
    requires
        !screen.state.interactive,
        screen.state.foreground is None,
        terminal::is_text_line(line.plain),
    ensures
        ({
            let after = screen.line_shown(source, line, moment);
            &&& after.out == screen.out + (if line.plain.len() > 1 {
                decoration(screen.state, source, moment)
            } else {
                seq![]
            }) + line.plain
            &&& after.state == (StateView {
                line_start: after.state.line_start,
                last_channel: after.state.last_channel,
                ..screen.state
            })
        }),
{
    let front = decoration(screen.state, source, moment);
    let body = without_line_feed(line.plain);
    let cleared = screen.erased();
    assert(body =~= line.plain.drop_last());
    text_stands_behind_its_decoration(cleared, body, source, moment);
    rendering_keeps_state(cleared, body, source, moment, None);
    line_feed_is_one_byte();
    assert(line.plain =~= body + seq![logger::LF]);
    assert(decoration(cleared.state, source, moment) == front);
    let after = screen.line_shown(source, line, moment);
    if body.len() > 0 {
        assert(after.out =~= screen.out + front + line.plain);
    } else {
        assert(after.out =~= screen.out + Seq::<u8>::empty() + line.plain);
    }
}

proof fn lines_stand_behind_their_decoration(
    screen: ScreenView,
    source: CoreChannel,
    lines: Seq<LineView>,
    moment: Moment,
)
    requires
        !screen.state.interactive,
        screen.state.foreground is None,
        forall|i: int|
            0 <= i < lines.len() ==> terminal::is_text_line((#[trigger] lines[i]).plain),
    ensures
        ({
            let after = screen.lines_shown(source, lines, moment);
            &&& after.out == screen.out + decorated(
                decoration(screen.state, source, moment),
                plain_views(lines),
            )
            &&& after.state == (StateView {
                line_start: after.state.line_start,
                last_channel: after.state.last_channel,
                ..screen.state
            })
        }),
    decreases lines.len(),
{
    let front = decoration(screen.state, source, moment);
    if lines.len() == 0 {
        assert(screen.out + decorated(front, plain_views(lines)) =~= screen.out);
    } else {
        let fewer = lines.drop_last();
        lines_stand_behind_their_decoration(screen, source, fewer, moment);
        let before = screen.lines_shown(source, fewer, moment);
        let line = lines.last();
        assert(line == lines[lines.len() - 1]);
        assert(decoration(before.state, source, moment) == front);
        line_stands_behind_its_decoration(before, source, line, moment);
        assert(plain_views(lines).drop_last() =~= plain_views(fewer));
        assert(plain_views(lines).last() == line.plain);
        let piece = (if line.plain.len() > 1 {
            front
        } else {
            seq![]
        });
        assert(screen.out + decorated(front, plain_views(fewer)) + piece + line.plain =~= screen.out
            + (decorated(front, plain_views(fewer)) + piece + line.plain));
    }
}

/// All bytes that a list of actions appends.
pub open spec fn appended(actions: Seq<logger::ActionView>) -> Seq<u8>
    decreases actions.len(),
{
    if actions.len() == 0 {
        seq![]
    } else {
        appended(actions.drop_last()) + (match actions.last() {
            logger::ActionView::Append { bytes, .. } => bytes,
            _ => seq![],
        })
    }
}

proof fn appended_lines(log: LogView, source: CoreChannel, lines: Seq<Seq<u8>>)
    ensures
        appended(Seq::new(lines.len(), |i: int| log.line_action(source, lines[i]))) == tagged(
            log.tag(source),
            lines,
        ),
    decreases lines.len(),
{
    let actions = Seq::new(lines.len(), |i: int| log.line_action(source, lines[i]));
    if lines.len() > 0 {
        let fewer = lines.drop_last();
        appended_lines(log, source, fewer);
        assert(actions.drop_last() =~= Seq::new(
            fewer.len(),
            |i: int| log.line_action(source, fewer[i]),
        ));
        assert(actions.last() == log.line_action(source, lines.last()));
    }
}

proof fn nothing_in_front(lines: Seq<Seq<u8>>)
    ensures
        decorated(seq![], lines) == logger::joined(lines),
        tagged(seq![], lines) == logger::joined(lines),
    decreases lines.len(),
{
    if lines.len() > 0 {
        nothing_in_front(lines.drop_last());
        let earlier = logger::joined(lines.drop_last());
        assert(Seq::<u8>::empty() + lines.last() =~= lines.last());
        assert(earlier + Seq::<u8>::empty() + lines.last() =~= earlier + lines.last());
    }
}

/// The live view and the decoded log never disagree. What a chunk of terminal
/// output adds to redirected output are its lines, each behind its time and label;
/// what it adds to the log are the same lines in the same order, each behind its
/// tag. Where neither is decorated the bytes are the same.
pub proof fn display_and_log_agree(
    screen: ScreenView,
    log: LogView,
    source: CoreChannel,
    lines: Seq<LineView>,
    partial: LineView,
    moment: Moment,
)
    requires
        !screen.state.interactive,
        screen.state.foreground is None,
        log.format == crate::cli::LogFormat::Decoded,
        forall|i: int|
            0 <= i < lines.len() ==> terminal::is_text_line((#[trigger] lines[i]).plain),
    ensures
        ({
            let shown = screen.chunk_shown(source, lines, partial, moment).out;
            let logged = log.after_terminal(source, plain_views(lines), partial.plain).actions;
            let added = appended(logged.skip(log.actions.len() as int));
            let text = plain_views(lines);
            &&& shown == screen.out + decorated(decoration(screen.state, source, moment), text)
            &&& added == tagged(log.tag(source), text)
            &&& undecorated(screen.state) ==> shown == screen.out + logger::joined(text)
            &&& log.tag(source).len() == 0 ==> added == logger::joined(text)
        }),
{
    let views = plain_views(lines);
    lines_stand_behind_their_decoration(screen, source, lines, moment);
    nothing_in_front(views);
    if undecorated(screen.state) {
        assert(decoration(screen.state, source, moment) =~= seq![]);
    }
    if log.tag(source).len() == 0 {
        assert(log.tag(source) =~= seq![]);
    }
    let logged = log.after_terminal(source, views, partial.plain).actions;
    let new = log.lines_actions(source, views);
    appended_lines(log, source, views);
    if views.len() > 0 {
        let body = Seq::new(views.len(), |i: int| log.line_action(source, views[i]));
        assert(new.drop_last() =~= body);
        assert(appended(body) + Seq::<u8>::empty() =~= appended(body));
    }
    let opening = if log.per_channel && !log.channels.dom().contains(source) {
        seq![logger::ActionView::Open(logger::LogTarget::Channel(source))]
    } else {
        seq![]
    };
    if lines.len() == 0 && partial.plain.len() == 0 && !log.channels.dom().contains(source) {
        assert(logged.skip(log.actions.len() as int) =~= seq![]);
    } else {
        assert(logged.skip(log.actions.len() as int) =~= opening + new);
        appended_parts(opening, new);
        reveal_with_fuel(appended, 2);
        assert(appended(opening) =~= seq![]);
        assert(appended(opening) + appended(new) =~= appended(new));
    }
}

proof fn appended_parts(first: Seq<logger::ActionView>, second: Seq<logger::ActionView>)
    ensures
        appended(first + second) == appended(first) + appended(second),
    decreases second.len(),
{
    if second.len() == 0 {
        assert(first + second =~= first);
        assert(appended(first) + Seq::<u8>::empty() =~= appended(first));
    } else {
        appended_parts(first, second.drop_last());
        assert((first + second).drop_last() =~= first + second.drop_last());
        assert(appended(first + second) =~= appended(first) + appended(second));
    }
}

/// An unfinished line of another source leaves the screen as it is while some
/// line is in the foreground.
pub proof fn background_lines_stay_off_the_screen(
    screen: ScreenView,
    source: CoreChannel,
    partial: LineView,
    moment: Moment,
)
    requires
        screen.state.foreground is Some,
        !screen.state.foreground_of(source),
    ensures
        ({
            let after = screen.partial_shown(source, partial, moment);
            after.out == screen.out && after.state.foreground == screen.state.foreground
        }),
{
}

/// Output of one source does not take the foreground away from another: the line
/// that was there comes back behind every message and every finished line.
pub proof fn foreground_survives_other_output(
    screen: ScreenView,
    source: CoreChannel,
    lines: Seq<LineView>,
    message: Seq<u8>,
    moment: Moment,
    color: Option<Seq<char>>,
)
    requires
        screen.state.foreground is Some,
    ensures
        screen.message_shown(source, message, moment, color).state.foreground
            == screen.state.foreground,
        !screen.state.foreground_of(source) ==> screen.lines_shown(
            source,
            lines,
            moment,
        ).state.foreground == screen.state.foreground,
    decreases lines.len(),
{
    if lines.len() > 0 && !screen.state.foreground_of(source) {
        foreground_survives_other_output(
            screen,
            source,
            lines.drop_last(),
            message,
            moment,
            color,
        );
    }
}

/// What one core remembers survives the reset of another.
pub proof fn reset_leaves_other_cores_alone(state: StateView, core: CoreId, source: CoreChannel)
    requires
        source.core != core,
    ensures
        ({
            let after = state.core_reset(core);
            &&& after.partials.dom().contains(source) == state.partials.dom().contains(source)
            &&& state.partials.dom().contains(source) ==> after.partials[source]
                == state.partials[source]
            &&& after.prompts.dom().contains(source.core) == state.prompts.dom().contains(
                source.core,
            )
            &&& state.prompts.dom().contains(source.core) ==> after.prompts[source.core]
                == state.prompts[source.core]
            &&& state.foreground_of(source) ==> after.foreground == state.foreground
        }),
{
}

/// Finishing redirected output a second time adds nothing once the target was
/// reset.
pub proof fn reset_target_has_nothing_to_finish(
    screen: ScreenView,
    core: Option<CoreId>,
    moment: Moment,
)
    requires
        screen.state == screen.state.target_reset(),
    ensures
        screen.partials_finished(core, moment).out == screen.out,
{
    let keys = ordered::sorted_keys(screen.state.partials);
    let none = Seq::<CoreChannel>::empty();
    assert(ordered::lists_keys(screen.state.partials, none));
    assert(ordered::lists_keys(screen.state.partials, keys));
    if keys.len() > 0 {
        assert(keys.contains(keys[0]));
        assert(screen.state.partials.dom().contains(keys[0]));
    }
}

/// No byte is a carriage return or a line feed.
pub open spec fn within_a_line(bytes: Seq<u8>) -> bool {
    forall|i: int| 0 <= i < bytes.len() ==> #[trigger] bytes[i] != 0x0a && bytes[i] != 0x0d
}

/// What has to stand in front of the next text of a source: the time where a line
/// begins, the label where a line begins or another source was writing, and the
/// colour along with either.
pub open spec fn lead_in(
    state: StateView,
    source: CoreChannel,
    moment: Moment,
    color: Option<Seq<char>>,
) -> Seq<u8> {
    let changes = state.channel_labels && state.last_channel != Some(source);
    (if state.timestamps && state.line_start {
        text::utf8(state.stamp(moment))
    } else {
        seq![]
    }) + (if state.channel_labels && (state.line_start || changes) {
        state.label(source)
    } else {
        seq![]
    }) + (if color is Some && (state.line_start || changes) {
        text::utf8(color->0)
    } else {
        seq![]
    })
}

/// Text comes out as it is behind its lead-in, and the line stays open.
#[verifier::rlimit(40)]
pub proof fn text_is_drawn(
    screen: ScreenView,
    bytes: Seq<u8>,
    source: CoreChannel,
    moment: Moment,
    color: Option<Seq<char>>,
)
    requires
        within_a_line(bytes),
        bytes.len() > 0,
    ensures
        ({
            let after = screen.bytes_rendered(bytes, source, moment, color);
            &&& after.out == screen.out + lead_in(screen.state, source, moment, color) + bytes
            &&& !after.state.line_start
            &&& screen.state.channel_labels ==> after.state.last_channel == Some(source)
            &&& after.state == (StateView {
                line_start: false,
                last_channel: after.state.last_channel,
                ..screen.state
            })
        }),
    decreases bytes.len(),
{
    let fewer = bytes.drop_last();
    let last = bytes.last();
    assert(last == bytes[bytes.len() - 1]);
    assert(bytes =~= fewer.push(last));
    let before = screen.bytes_rendered(fewer, source, moment, color);
    let after = screen.bytes_rendered(bytes, source, moment, color);
    let front = lead_in(screen.state, source, moment, color);
    if fewer.len() > 0 {
        assert forall|i: int| 0 <= i < fewer.len() implies #[trigger] fewer[i] != 0x0a && fewer[i]
            != 0x0d by {
            assert(fewer[i] == bytes[i]);
        }
        text_is_drawn(screen, fewer, source, moment, color);
        assert(after.out =~= before.out + seq![last]);
        assert(after.out =~= screen.out + front + bytes);
    } else {
        assert(before == screen);
        assert(after.out =~= screen.out + front + seq![last]);
        assert(bytes =~= seq![last]);
    }
}

/// The escape sequence that switches all attributes off.
pub open spec fn plain_again() -> Seq<u8> {
    seq![0x1bu8, 0x5b, 0x30, 0x6d]
}

/// The way to the start of the row, and the escape sequence that empties the row.
pub open spec fn emptied_row() -> Seq<u8> {
    seq![0x0du8, 0x1b, 0x5b, 0x32, 0x4b]
}

proof fn escape_sequences_are_bytes()
    ensures
        text::utf8(ANSI_RESET@) == plain_again(),
        text::utf8(ERASE_CURRENT_LINE@) == emptied_row(),
        text::utf8("\r\n"@) == seq![0x0du8, 0x0a],
        text::utf8("\n"@) == seq![0x0au8],
{
    reveal_strlit("\x1b[0m");
    reveal_strlit("\r\x1b[2K");
    reveal_strlit("\r\n");
    reveal_strlit("\n");
    assert(ANSI_RESET@ =~= seq!['\u{1b}', '[', '0', 'm']);
    assert(ERASE_CURRENT_LINE@ =~= seq!['\r', '\u{1b}', '[', '2', 'K']);
    assert("\r\n"@ =~= seq!['\r', '\n']);
    assert("\n"@ =~= seq!['\n']);
    vstd::utf8::is_ascii_chars_encode_utf8(ANSI_RESET@);
    vstd::utf8::is_ascii_chars_encode_utf8(ERASE_CURRENT_LINE@);
    vstd::utf8::is_ascii_chars_encode_utf8("\r\n"@);
    vstd::utf8::is_ascii_chars_encode_utf8("\n"@);
    assert(text::utf8(ANSI_RESET@) =~= plain_again());
    assert(text::utf8(ERASE_CURRENT_LINE@) =~= emptied_row());
    assert(text::utf8("\r\n"@) =~= seq![0x0du8, 0x0a]);
    assert(text::utf8("\n"@) =~= seq![0x0au8]);
}

/// A line feed ends the line: a terminal also gets the carriage return, and a
/// colour is switched off. A carriage return stays what it is and begins the line
/// anew.
#[verifier::rlimit(40)]
pub proof fn line_ends_are_drawn(
    screen: ScreenView,
    source: CoreChannel,
    moment: Moment,
    color: Option<Seq<char>>,
)
    ensures
        ({
            let fed = screen.bytes_rendered(seq![0x0au8], source, moment, color);
            let returned = screen.bytes_rendered(seq![0x0du8], source, moment, color);
            let feed = if screen.state.interactive {
                seq![0x0du8, 0x0a]
            } else {
                seq![0x0au8]
            };
            &&& fed.state.line_start
            &&& color is None ==> fed.out == screen.out + lead_in(
                screen.state,
                source,
                moment,
                color,
            ) + feed
            &&& color is Some ==> fed.out == screen.out + lead_in(
                screen.state,
                source,
                moment,
                color,
            ) + feed + plain_again()
            &&& returned.out == screen.out + seq![0x0du8]
            &&& returned.state == (StateView { line_start: true, ..screen.state })
        }),
{
    escape_sequences_are_bytes();
    one_byte_is_rendered(screen, 0x0au8, source, moment, color);
    one_byte_is_rendered(screen, 0x0du8, source, moment, color);
    let front = lead_in(screen.state, source, moment, color);
    let shown = byte_shown(0x0au8, color is Some, screen.state.interactive);
    let feed = if screen.state.interactive {
        seq![0x0du8, 0x0a]
    } else {
        seq![0x0au8]
    };
    line_feeds_are_shown(color is Some, screen.state.interactive);
    assert(screen.byte_rendered(0x0au8, source, moment, color).out =~= screen.out + front + shown);
    if color is Some {
        assert(screen.out + front + (feed + plain_again()) =~= screen.out + front + feed
            + plain_again());
    }
}

proof fn one_byte_is_rendered(
    screen: ScreenView,
    byte: u8,
    source: CoreChannel,
    moment: Moment,
    color: Option<Seq<char>>,
)
    ensures
        screen.bytes_rendered(seq![byte], source, moment, color) == screen.byte_rendered(
            byte,
            source,
            moment,
            color,
        ),
{
    let none = Seq::<u8>::empty();
    assert(seq![byte].drop_last() =~= none);
    assert(screen.bytes_rendered(none, source, moment, color) == screen);
}

proof fn line_feeds_are_shown(colored: bool, interactive: bool)
    ensures
        ({
            let feed = if interactive {
                seq![0x0du8, 0x0a]
            } else {
                seq![0x0au8]
            };
            byte_shown(0x0au8, colored, interactive) == if colored {
                feed + plain_again()
            } else {
                feed
            }
        }),
{
    escape_sequences_are_bytes();
    let feed = if interactive {
        seq![0x0du8, 0x0a]
    } else {
        seq![0x0au8]
    };
    if colored {
        assert(byte_shown(0x0au8, colored, interactive) =~= feed + plain_again());
    } else {
        assert(byte_shown(0x0au8, colored, interactive) =~= feed);
    }
}

/// Output goes on where earlier output of the same source left off, however the
/// bytes are cut.
pub proof fn rendering_goes_on(
    screen: ScreenView,
    first: Seq<u8>,
    second: Seq<u8>,
    source: CoreChannel,
    moment: Moment,
    color: Option<Seq<char>>,
)
    ensures
        screen.bytes_rendered(first + second, source, moment, color) == screen.bytes_rendered(
            first,
            source,
            moment,
            color,
        ).bytes_rendered(second, source, moment, color),
    decreases second.len(),
{
    if second.len() == 0 {
        assert(first + second =~= first);
    } else {
        rendering_goes_on(screen, first, second.drop_last(), source, moment, color);
        assert((first + second).drop_last() =~= first + second.drop_last());
        assert((first + second).last() == second.last());
    }
}

/// A colour is switched off behind its text, and plain text is followed by
/// nothing.
#[verifier::rlimit(40)]
pub proof fn colours_end_with_their_text(
    screen: ScreenView,
    bytes: Seq<u8>,
    source: CoreChannel,
    moment: Moment,
    color: Option<Seq<char>>,
)
    requires
        within_a_line(bytes),
        bytes.len() > 0,
    ensures
        ({
            let after = screen.rendered(bytes, source, moment, color);
            let front = lead_in(screen.state, source, moment, color);
            &&& color is None ==> after.out == screen.out + front + bytes
            &&& color is Some ==> after.out == screen.out + front + bytes + plain_again()
            &&& after.state == (StateView {
                line_start: false,
                last_channel: after.state.last_channel,
                ..screen.state
            })
        }),
{
    escape_sequences_are_bytes();
    text_is_drawn(screen, bytes, source, moment, color);
}

/// The state of a terminal whose line was ended.
pub open spec fn line_ended(state: StateView) -> StateView {
    StateView { line_start: true, last_channel: None, foreground: None, ..state }
}

/// What takes the foreground line off the screen.
pub open spec fn wiped(state: StateView) -> Seq<u8> {
    if state.foreground is Some {
        emptied_row() + plain_again()
    } else {
        seq![]
    }
}

/// What brings a foreground line back.
pub open spec fn redrawn(state: StateView, line: ForegroundView, moment: Moment) -> Seq<u8> {
    if line.rendered.len() > 0 {
        lead_in(
            StateView { line_start: true, ..state },
            line.channel,
            moment,
            None,
        ) + line.rendered
    } else {
        seq![]
    }
}

proof fn redrawing_draws(screen: ScreenView, line: ForegroundView, moment: Moment)
    requires
        within_a_line(line.rendered),
        screen.state.line_start,
    ensures
        screen.restored(line, moment).out == screen.out + redrawn(screen.state, line, moment),
        screen.restored(line, moment).state.foreground == Some(line),
        screen.restored(line, moment).state.prompts == screen.state.prompts.insert(
            line.channel.core,
            line,
        ),
{
    if line.rendered.len() > 0 {
        colours_end_with_their_text(screen, line.rendered, line.channel, moment, None);
        assert(StateView { line_start: true, ..screen.state } == screen.state);
        assert(screen.restored(line, moment).out =~= screen.out + redrawn(
            screen.state,
            line,
            moment,
        ));
    } else {
        assert(screen.restored(line, moment).out =~= screen.out + redrawn(
            screen.state,
            line,
            moment,
        ));
    }
}

/// A finished line of a terminal takes the place of the foreground line, stands
/// behind the time and the label of its source, ends in plain attributes and on a
/// row of its own, and the foreground line of another source follows it.
#[verifier::rlimit(40)]
pub proof fn finished_lines_are_drawn(
    screen: ScreenView,
    source: CoreChannel,
    line: LineView,
    moment: Moment,
)
    requires
        screen.state.interactive,
        line.styled.len() > 0,
        within_a_line(line.styled),
        screen.state.foreground is Some ==> within_a_line(screen.state.foreground->0.rendered),
    ensures
        ({
            let after = screen.line_shown(source, line, moment);
            let drawn = screen.out + wiped(screen.state) + lead_in(
                line_ended(screen.state),
                source,
                moment,
                None,
            ) + line.styled + plain_again() + seq![0x0du8, 0x0a];
            match screen.state.foreground {
                Some(saved) => if saved.channel != source {
                    &&& after.state.foreground == Some(saved)
                    &&& after.out == drawn + redrawn(screen.state, saved, moment)
                } else {
                    after.out == drawn && after.state.foreground is None
                },
                None => after.out == drawn && after.state.foreground is None,
            }
        }),
{
    escape_sequences_are_bytes();
    let cleared = screen.erased();
    let written = cleared.rendered(line.styled, source, moment, None);
    colours_end_with_their_text(cleared, line.styled, source, moment, None);
    let ended = written.put_text(ANSI_RESET@).put_text("\r\n"@).at_line_start();
    let front = lead_in(line_ended(screen.state), source, moment, None);
    assert(cleared.state == line_ended(screen.state));
    let drawn = screen.out + wiped(screen.state) + front + line.styled + plain_again() + seq![
        0x0du8,
        0x0a,
    ];
    assert(cleared.out =~= screen.out + wiped(screen.state));
    assert(ended.out =~= drawn);
    if let Some(saved) = screen.state.foreground {
        if saved.channel != source {
            redrawing_draws(ended, saved, moment);
            assert(redrawn(ended.state, saved, moment) == redrawn(screen.state, saved, moment));
        }
    }
}

/// An unfinished line of a terminal. That of the source in the foreground is drawn
/// anew in its place, or leaves the screen where nothing is left of it. Another
/// one becomes the foreground where there is none and its core has the keyboard,
/// or no core has; otherwise it is only remembered as the prompt of its core.
#[verifier::rlimit(40)]
pub proof fn unfinished_lines_are_drawn(
    screen: ScreenView,
    source: CoreChannel,
    partial: LineView,
    moment: Moment,
)
    requires
        screen.state.interactive,
        within_a_line(partial.styled),
        screen.state.foreground is None ==> screen.state.line_start,
    ensures
        ({
            let after = screen.partial_shown(source, partial, moment);
            let line = ForegroundView { channel: source, rendered: partial.styled };
            let owns = screen.state.foreground is Some && screen.state.foreground->0.channel
                == source;
            let free = screen.state.foreground is None && (screen.state.down_core is None
                || screen.state.down_core == Some(source.core));
            &&& partial.plain.len() > 0 && (owns || free) ==> {
                &&& after.out == screen.out + wiped(screen.state) + redrawn(
                    screen.state,
                    line,
                    moment,
                )
                &&& after.state.foreground == Some(line)
            }
            &&& partial.plain.len() > 0 ==> after.state.prompts == screen.state.prompts.insert(
                source.core,
                line,
            )
            &&& partial.plain.len() > 0 && !owns && !free ==> after.out == screen.out
                && after.state.foreground == screen.state.foreground
            &&& partial.plain.len() == 0 && owns ==> after.out == screen.out + wiped(screen.state)
                && after.state.foreground is None
            &&& partial.plain.len() == 0 && !owns ==> after.out == screen.out
                && after.state.foreground == screen.state.foreground
                && !after.state.prompts.dom().contains(source.core)
        }),
{
    escape_sequences_are_bytes();
    let line = ForegroundView { channel: source, rendered: partial.styled };
    let cleared = screen.erased();
    assert(cleared.out =~= screen.out + wiped(screen.state));
    redrawing_draws(cleared, line, moment);
    assert(redrawn(cleared.state, line, moment) == redrawn(screen.state, line, moment));
    if screen.state.foreground is None {
        redrawing_draws(screen, line, moment);
        assert(screen.out + wiped(screen.state) =~= screen.out);
    }
}

/// Redirected output does not show an unfinished line but keeps all of it for
/// later.
pub proof fn redirected_lines_wait(
    screen: ScreenView,
    source: CoreChannel,
    partial: LineView,
    moment: Moment,
)
    requires
        !screen.state.interactive,
    ensures
        ({
            let after = screen.partial_shown(source, partial, moment);
            &&& after.out == screen.out
            &&& after.state == (StateView {
                partials: screen.state.partials.insert(source, partial.plain),
                ..screen.state
            })
        }),
{
}

/// A message stands on a line of its own in its colour, in place of the foreground
/// line, which comes back behind it.
#[verifier::rlimit(40)]
pub proof fn messages_are_drawn(
    screen: ScreenView,
    source: CoreChannel,
    bytes: Seq<u8>,
    moment: Moment,
    color: Option<Seq<char>>,
)
    requires
        bytes.len() > 0,
        within_a_line(bytes),
        screen.state.foreground is Some ==> within_a_line(screen.state.foreground->0.rendered),
    ensures
        ({
            let feed = if screen.state.interactive {
                seq![0x0du8, 0x0a]
            } else {
                seq![0x0au8]
            };
            let end = if color is Some {
                plain_again()
            } else {
                seq![]
            };
            let opened = screen.out + wiped(screen.state) + lead_in(
                line_ended(screen.state),
                source,
                moment,
                color,
            ) + bytes;
            let back = match screen.state.foreground {
                Some(saved) => redrawn(screen.state, saved, moment),
                None => seq![],
            };
            &&& screen.message_shown(source, bytes + seq![0x0au8], moment, color).out == opened
                + feed + end + back
            &&& screen.message_shown(source, bytes, moment, color).out == opened + end + feed + back
            &&& screen.message_shown(source, bytes, moment, color).state.foreground
                == screen.state.foreground
            &&& screen.state.foreground is None ==> screen.message_shown(
                source,
                bytes,
                moment,
                color,
            ).state.line_start
        }),
{
    escape_sequences_are_bytes();
    let cleared = screen.erased();
    assert(cleared.out =~= screen.out + wiped(screen.state));
    assert(cleared.state == line_ended(screen.state));
    let front = lead_in(cleared.state, source, moment, color);
    text_is_drawn(cleared, bytes, source, moment, color);
    let open = cleared.bytes_rendered(bytes, source, moment, color);
    let feed = if screen.state.interactive {
        seq![0x0du8, 0x0a]
    } else {
        seq![0x0au8]
    };
    let end = if color is Some {
        plain_again()
    } else {
        seq![]
    };
    let opened = screen.out + wiped(screen.state) + front + bytes;
    rendering_goes_on(cleared, bytes, seq![0x0au8], source, moment, color);
    line_ends_are_drawn(open, source, moment, color);
    rendering_keeps_state(cleared, bytes + seq![0x0au8], source, moment, color);
    let fed = cleared.rendered(bytes + seq![0x0au8], source, moment, color);
    assert(lead_in(open.state, source, moment, color) =~= Seq::<u8>::empty());
    assert(fed.out =~= opened + feed + end);
    assert(fed.state.line_start);
    let bare = cleared.rendered(bytes, source, moment, color);
    assert(bare.out =~= opened + end);
    let ended = if bare.state.interactive {
        bare.put_text("\r\n"@).at_line_start()
    } else {
        bare.put_text("\n"@).at_line_start()
    };
    assert(ended.out =~= opened + end + feed);
    if let Some(saved) = screen.state.foreground {
        redrawing_draws(fed, saved, moment);
        redrawing_draws(ended, saved, moment);
        assert(redrawn(fed.state, saved, moment) == redrawn(screen.state, saved, moment));
        assert(redrawn(ended.state, saved, moment) == redrawn(screen.state, saved, moment));
    } else {
        assert(opened + feed + end + Seq::<u8>::empty() =~= opened + feed + end);
        assert(opened + end + feed + Seq::<u8>::empty() =~= opened + end + feed);
    }
}

/// Whether an unfinished line is due when a core, or every core, comes to an end.
pub open spec fn is_due(partials: Map<CoreChannel, Seq<u8>>, core: Option<CoreId>) -> spec_fn(
    CoreChannel,
) -> bool {
    |source: CoreChannel|
        partials[source].len() > 0 && (core is None || core == Some(source.core))
}

/// Redirected output gets every unfinished line of the core that comes to an end,
/// or of all of them, each on a line, in the order of the sources.
pub proof fn waiting_lines_are_written_out(screen: ScreenView, core: Option<CoreId>, moment: Moment)
    requires
        undecorated(screen.state),
    ensures
        screen.epoch_finished(core, moment).out == screen.out + logger::joined(
            ordered::sorted_keys(screen.state.partials).filter(
                is_due(screen.state.partials, core),
            ).map_values(|source: CoreChannel| screen.state.partials[source] + seq![0x0au8]),
        ),
        screen.epoch_finished(core, moment).state == (StateView {
            line_start: true,
            ..screen.state
        }),
{
    let keys = ordered::sorted_keys(screen.state.partials);
    waiting_lines_follow(screen, keys, core, moment);
}

#[verifier::rlimit(40)]
proof fn waiting_lines_follow(
    screen: ScreenView,
    keys: Seq<CoreChannel>,
    core: Option<CoreId>,
    moment: Moment,
)
    requires
        undecorated(screen.state),
    ensures
        screen.partials_written(keys, core, moment).out == screen.out + logger::joined(
            keys.filter(is_due(screen.state.partials, core)).map_values(
                |source: CoreChannel| screen.state.partials[source] + seq![0x0au8],
            ),
        ),
        ({
            let after = screen.partials_written(keys, core, moment).state;
            after == (StateView { line_start: after.line_start, ..screen.state })
        }),
    decreases keys.len(),
{
    let partials = screen.state.partials;
    let due = is_due(partials, core);
    let lines = |source: CoreChannel| screen.state.partials[source] + seq![0x0au8];
    reveal(Seq::filter);
    if keys.len() == 0 {
        assert(keys.filter(due).map_values(lines) =~= Seq::<Seq<u8>>::empty());
        assert(screen.out + Seq::<u8>::empty() =~= screen.out);
    } else {
        let fewer = keys.drop_last();
        let last = keys.last();
        waiting_lines_follow(screen, fewer, core, moment);
        escape_sequences_are_bytes();
        let before = screen.partials_written(fewer, core, moment);
        if due(last) {
            undecorated_output_is_verbatim(before, partials[last], last, moment);
            undecorated_state_stays(before, partials[last], last, moment);
            let all = keys.filter(due).map_values(lines);
            assert(keys.filter(due) =~= fewer.filter(due).push(last));
            assert(all.drop_last() =~= fewer.filter(due).map_values(lines));
            assert(all.last() == partials[last] + seq![0x0au8]);
            assert(screen.partials_written(keys, core, moment).out =~= screen.out
                + logger::joined(all));
        } else {
            assert(keys.filter(due) =~= fewer.filter(due));
        }
    }
}

proof fn undecorated_state_stays(
    screen: ScreenView,
    bytes: Seq<u8>,
    source: CoreChannel,
    moment: Moment,
)
    requires
        undecorated(screen.state),
    ensures
        ({
            let after = screen.rendered(bytes, source, moment, None).state;
            after == (StateView { line_start: after.line_start, ..screen.state })
        }),
    decreases bytes.len(),
{
    if bytes.len() > 0 {
        undecorated_state_stays(screen, bytes.drop_last(), source, moment);
    }
}

/// The end of a core, or of all of them, takes the foreground line off a terminal
/// where it belongs to what ends, and leaves another one there.
pub proof fn prompts_go_with_their_core(screen: ScreenView, core: CoreId, moment: Moment)
    requires
        screen.state.interactive,
    ensures
        screen.epoch_finished(None, moment).out == screen.out + wiped(screen.state),
        screen.epoch_finished(None, moment).state.foreground is None,
        ({
            let after = screen.epoch_finished(Some(core), moment);
            let own = screen.state.foreground is Some && screen.state.foreground->0.channel.core
                == core;
            &&& own ==> after.out == screen.out + wiped(screen.state)
                && after.state.foreground is None
            &&& !own ==> after == screen
            &&& screen.core_prompt_erased(core) == after
        }),
{
    escape_sequences_are_bytes();
    assert(screen.erased().out =~= screen.out + wiped(screen.state));
}

/// A reset forgets what a core wrote and remembers everything else; settings and
/// counters stay.
#[verifier::rlimit(40)]
pub proof fn resets_forget_the_output(
    screen: ScreenView,
    core: CoreId,
    source: CoreChannel,
    moment: Moment,
)
    ensures
        ({
            let one = screen.core_epoch_reset(core, moment);
            let all = screen.target_epoch_reset(moment);
            &&& one.out == screen.epoch_finished(Some(core), moment).out
            &&& all.out == screen.epoch_finished(None, moment).out
            &&& one.state.line_start && all.state.line_start
            &&& source.core == core ==> !one.state.partials.dom().contains(source)
            &&& !one.state.prompts.dom().contains(core)
            &&& one.state.last_channel is Some ==> one.state.last_channel->0.core != core
            &&& one.state.foreground is Some ==> one.state.foreground->0.channel.core != core
            &&& all.state.partials == Map::<CoreChannel, Seq<u8>>::empty()
            &&& all.state.prompts == Map::<CoreId, ForegroundView>::empty()
            &&& all.state.foreground is None
            &&& all.state.last_channel is None
        }),
        ({
            let before = screen.state;
            let after = screen.state.core_reset(core);
            let empty = screen.state.target_reset();
            &&& after.timestamps == before.timestamps && empty.timestamps == before.timestamps
            &&& after.color == before.color && empty.color == before.color
            &&& after.channel_labels == before.channel_labels && empty.channel_labels
                == before.channel_labels
            &&& after.show_cores == before.show_cores && empty.show_cores == before.show_cores
            &&& after.down_core == before.down_core && empty.down_core == before.down_core
            &&& after.defmt_decode_warnings == before.defmt_decode_warnings
                && empty.defmt_decode_warnings == before.defmt_decode_warnings
            &&& after.started == before.started && empty.started == before.started
            &&& after.started_wall == before.started_wall && empty.started_wall
                == before.started_wall
            &&& after.interactive == before.interactive && empty.interactive == before.interactive
        }),
{
}

/// Keyboard input for a core takes the prompt of another core off the screen and
/// leaves its own there.
#[verifier::rlimit(40)]
pub proof fn the_foreground_follows_the_keyboard(screen: ScreenView, core: CoreId, moment: Moment)
    ensures
        ({
            let chosen = screen.down_selected(Some(core));
            let open = screen.down_selected(None);
            let other = screen.state.foreground is Some && screen.state.foreground->0.channel.core
                != core;
            &&& chosen.state.down_core == Some(core)
            &&& other ==> chosen.out == screen.out + wiped(screen.state)
                && chosen.state.foreground is None
            &&& !other ==> chosen.out == screen.out && chosen.state.foreground
                == screen.state.foreground
            &&& chosen.state.prompts == screen.state.prompts
            &&& open.out == screen.out
            &&& open.state == (StateView { down_core: None, ..screen.state })
        }),
        ({
            let shown = screen.prompt_shown(core, moment);
            let known = screen.state.prompts.dom().contains(core)
                && screen.state.prompts[core].rendered.len() > 0;
            let prompt = screen.state.prompts[core];
            &&& !known ==> shown == screen
            &&& known && within_a_line(prompt.rendered) ==> shown.out == screen.out + wiped(
                screen.state,
            ) + redrawn(screen.state, prompt, moment) && shown.state.foreground == Some(prompt)
        }),
{
    escape_sequences_are_bytes();
    let cleared = screen.erased();
    assert(cleared.out =~= screen.out + wiped(screen.state));
    if screen.knows_prompt(core) && within_a_line(screen.state.prompts[core].rendered) {
        let prompt = screen.state.prompts[core];
        redrawing_draws(cleared, prompt, moment);
        assert(redrawn(cleared.state, prompt, moment) == redrawn(screen.state, prompt, moment));
    }
}

/// A line that was taken off the screen comes back as it was.
pub proof fn suspended_lines_come_back(screen: ScreenView, between: Seq<u8>, moment: Moment)
    requires
        screen.state.foreground is Some,
        within_a_line(screen.state.foreground->0.rendered),
    ensures
        ({
            let saved = screen.state.foreground->0;
            let back = screen.erased().put(between).foreground_restored(saved, moment);
            &&& back.out == screen.out + wiped(screen.state) + between + redrawn(
                screen.state,
                saved,
                moment,
            )
            &&& back.state.foreground == screen.state.foreground
        }),
{
    escape_sequences_are_bytes();
    let saved = screen.state.foreground->0;
    let cleared = screen.erased().put(between);
    assert(cleared.out =~= screen.out + wiped(screen.state) + between);
    let begun = ScreenView {
        state: StateView { line_start: true, last_channel: None, ..cleared.state },
        ..cleared
    };
    redrawing_draws(begun, saved, moment);
    assert(redrawn(begun.state, saved, moment) == redrawn(screen.state, saved, moment));
}

/// Timestamps are switched on and off and on again, with a word on each.
pub proof fn toggling_twice_changes_nothing(screen: ScreenView)
    ensures
        screen.timestamps_toggled().state.timestamps == !screen.state.timestamps,
        screen.timestamps_toggled().timestamps_toggled().state == (StateView {
            line_start: true,
            ..screen.state
        }),
        screen.timestamps_toggled().out == screen.out + text::utf8(
            if screen.state.timestamps {
                "\r\n"@ + "Timestamps"@ + ": "@ + "off"@ + "\r\n"@
            } else {
                "\r\n"@ + "Timestamps"@ + ": "@ + "on"@ + "\r\n"@
            },
        ),
{
}

/// A session starts with what its settings say: labels, colours where they are
/// asked for or the terminal can show them, and nothing remembered.
pub proof fn sessions_start_as_configured(
    config: &SessionPolicy,
    labels: bool,
    cores: bool,
    host: HostOutput,
    started: u64,
    wall: u64,
)
    ensures
        ({
            let state = StateView::for_session(config, labels, cores, host, started, wall);
            &&& state.timestamps == config.timestamps
            &&& state.channel_labels == labels
            &&& state.show_cores == cores
            &&& state.interactive == host.is_terminal
            &&& state.color <==> config.color == ColorMode::Always || (config.color
                == ColorMode::Auto && host.is_terminal && !host.no_color)
            &&& state.line_start
            &&& state.last_channel is None && state.foreground is None && state.down_core is None
            &&& state.partials == Map::<CoreChannel, Seq<u8>>::empty()
            &&& state.prompts == Map::<CoreId, ForegroundView>::empty()
            &&& state.defmt_decode_warnings == 0
            &&& state.wall_nanos(started) == wall
        }),
{
}

/// Time on the wall runs as fast as the clock, from the start of the session on,
/// and is written to the nanosecond, in brackets.
pub proof fn stamps_tell_the_time(state: StateView, moment: Moment, later: u64)
    requires
        state.started <= moment.spec_nanos() <= later,
    ensures
        state.wall_nanos(state.started) == state.started_wall,
        state.wall_nanos(later) - state.wall_nanos(moment.spec_nanos()) == later
            - moment.spec_nanos(),
        forall|early: u64| early < state.started ==> #[trigger] state.wall_nanos(early)
            == state.started_wall,
        forall|seconds: int, nanos: int|
            0 <= nanos < 1_000_000_000 && seconds * 1_000_000_000 + nanos == state.wall_nanos(
                moment.spec_nanos(),
            ) ==> state.stamp(moment) == "["@ + #[trigger] wall_text(
                "%Y-%m-%d %H:%M:%S%.3f"@,
                seconds as i64,
                nanos as u32,
                moment.spec_utc_offset(),
            ) + "] "@,
{
}

/// A label is the tag of its source; in colour it is painted and switched off
/// again. Six colours take turns, so neighbouring channels differ.
#[verifier::rlimit(40)]
pub proof fn labels_are_painted(state: StateView, source: CoreChannel, next: ChannelId)
    ensures
        !state.color ==> state.label(source) == text::utf8(source.tag(state.show_cores)),
        state.color ==> state.label(source) == text::utf8(color_of(source.channel)) + text::utf8(
            source.tag(state.show_cores),
        ) + plain_again(),
        color_of(source.channel).len() == 5,
        color_of(source.channel)[0] == '\u{1b}' && color_of(source.channel)[1] == '['
            && color_of(source.channel)[2] == '3' && '1' <= color_of(source.channel)[3] <= '6'
            && color_of(source.channel)[4] == 'm',
        color_of(source.channel) == color_of(next) <==> source.channel.number % 6 == next.number
            % 6,
{
    escape_sequences_are_bytes();
    reveal_strlit("\x1b[36m");
    reveal_strlit("\x1b[35m");
    reveal_strlit("\x1b[34m");
    reveal_strlit("\x1b[32m");
    reveal_strlit("\x1b[33m");
    reveal_strlit("\x1b[31m");
    let tag = text::utf8(source.tag(state.show_cores));
    if !state.color {
        assert(state.label(source) =~= tag);
    }
    assert("\x1b[36m"@[3] == '6' && "\x1b[35m"@[3] == '5' && "\x1b[34m"@[3] == '4');
    assert("\x1b[32m"@[3] == '2' && "\x1b[33m"@[3] == '3' && "\x1b[31m"@[3] == '1');
}

/// A defmt message is written with its time and its level in front, and ends its
/// line.
#[verifier::rlimit(40)]
pub proof fn frames_are_written_whole(frame: FrameView)
    ensures
        ({
            let level = match frame.level {
                Some(Level::Trace) => "trace"@ + " "@,
                Some(Level::Debug) => "debug"@ + " "@,
                Some(Level::Info) => "info"@ + " "@,
                Some(Level::Warn) => "warn"@ + " "@,
                Some(Level::Error) => "error"@ + " "@,
                None => seq![],
            };
            &&& frame.timestamp is None ==> frame_text(frame) == level + frame.message + seq!['\n']
            &&& frame.timestamp is Some ==> frame_text(frame) == "["@ + frame.timestamp->0 + "] "@
                + level + frame.message + seq!['\n']
        }),
{
    reveal_strlit("\n");
    assert("\n"@ =~= seq!['\n']);
    let level = match frame.level {
        Some(Level::Trace) => "trace"@ + " "@,
        Some(Level::Debug) => "debug"@ + " "@,
        Some(Level::Info) => "info"@ + " "@,
        Some(Level::Warn) => "warn"@ + " "@,
        Some(Level::Error) => "error"@ + " "@,
        None => seq![],
    };
    if frame.timestamp is None {
        assert(frame_text(frame) =~= level + frame.message + seq!['\n']);
    } else {
        assert(frame_text(frame) =~= "["@ + frame.timestamp->0 + "] "@ + level + frame.message
            + seq!['\n']);
    }
}

/// Only a session in colour paints messages: errors red, warnings yellow, and what
/// is less than information dim; information and what has no level is not painted.
pub proof fn messages_are_painted_by_level(color: bool, level: Option<Level>)
    ensures
        !color ==> message_color(color, level) is None,
        color && level == Some(Level::Error) ==> message_color(color, level) == Some(
            "\x1b[31m"@,
        ),
        color && level == Some(Level::Warn) ==> message_color(color, level) == Some("\x1b[33m"@),
        color && (level == Some(Level::Debug) || level == Some(Level::Trace)) ==> message_color(
            color,
            level,
        ) == Some("\x1b[2m"@),
        level is None || level == Some(Level::Info) ==> message_color(color, level) is None,
{
    reveal_strlit("\x1b[31m");
    reveal_strlit("\x1b[33m");
    reveal_strlit("\x1b[2m");
    reveal_strlit("");
    assert("\x1b[31m"@.len() == 5 && "\x1b[33m"@.len() == 5 && "\x1b[2m"@.len() == 4);
    assert(""@.len() == 0);
}

/// A warning carries its number and ends its line.
pub proof fn warnings_are_numbered(count: nat, warning: Seq<char>)
    ensures
        warning_text(count, warning) == "[defmt warning #"@ + text::decimal(count) + "] "@
            + warning + seq!['\n'],
{
    reveal_strlit("\n");
    assert("\n"@ =~= seq!['\n']);
}

/// Whether a selection is among the channels of a core.
pub open spec fn is_read_on(core: CoreId) -> spec_fn(ChannelSpec) -> bool {
    |spec: ChannelSpec| spec.core is None || spec.core == Some(core.index)
}

/// The configuration lists every channel of a core, in the order of the
/// selections, and every core.
pub proof fn configurations_list_everything(
    specs: Seq<ChannelSpec>,
    cores: Seq<CoreId>,
    core: CoreId,
    spec: ChannelSpec,
)
    ensures
        core_channels_text(specs, core) == core_channels_text(specs.filter(is_read_on(core)), core),
        core_channels_text(seq![], core) == Seq::<char>::empty(),
        is_read_on(core)(spec) ==> core_channels_text(specs.push(spec), core)
            == core_channels_text(specs, core) + " "@ + text::decimal(spec.index as nat) + ":"@ + (
        if spec.mode == crate::cli::ChannelEncoding::Defmt {
            "defmt"@
        } else {
            "terminal"@
        }),
        !is_read_on(core)(spec) ==> core_channels_text(specs.push(spec), core)
            == core_channels_text(specs, core),
        cores_text(specs, seq![]) == Seq::<char>::empty(),
        cores_text(specs, cores.push(core)) == cores_text(specs, cores) + "  Core "@
            + text::decimal(core.index as nat) + ": up"@ + core_channels_text(specs, core)
            + "\r\n"@,
{
    channels_are_filtered(specs, core);
    assert(specs.push(spec).drop_last() =~= specs);
    assert(cores.push(core).drop_last() =~= cores);
}

proof fn channels_are_filtered(specs: Seq<ChannelSpec>, core: CoreId)
    ensures
        core_channels_text(specs, core) == core_channels_text(specs.filter(is_read_on(core)), core),
    decreases specs.len(),
{
    reveal(Seq::filter);
    if specs.len() > 0 {
        let fewer = specs.drop_last();
        channels_are_filtered(fewer, core);
        if is_read_on(core)(specs.last()) {
            assert(specs.filter(is_read_on(core)) =~= fewer.filter(is_read_on(core)).push(
                specs.last(),
            ));
            assert(specs.filter(is_read_on(core)).drop_last() =~= fewer.filter(is_read_on(core)));
        }
    }
}

/// The configuration names the probe, the chip, every core, the keyboard's channel
/// and core, the poll interval and whether timestamps are on, a line for each.
pub proof fn configurations_are_told(
    cores: Seq<CoreId>,
    config: &SessionPolicy,
    target: Option<CoreId>,
    timestamps: bool,
)
    ensures
        ({
            let down = match (config.down_channel, target) {
                (None, _) => "  Down channel: disabled\r\n"@,
                (Some(channel), Some(core)) => "  Down channel: "@ + text::decimal(
                    channel.number as nat,
                ) + "\r\n"@ + ("  Down target: core "@ + text::decimal(core.index as nat)
                    + "\r\n"@),
                (Some(channel), None) => "  Down channel: "@ + text::decimal(
                    channel.number as nat,
                ) + "\r\n"@ + "  Down target: none\r\n"@,
            };
            let switch = if timestamps {
                "on"@
            } else {
                "off"@
            };
            config_text(cores, config, target, timestamps) == "\r\nConfiguration:\r\n"@
                + "  Probe: "@ + config.probe@ + "\r\n"@ + "  Chip: "@ + config.chip@ + "\r\n"@
                + cores_text(config.up_specs@, cores) + down + "  Poll interval: "@
                + text::decimal(config.poll_interval as nat) + " ms\r\n"@ + "  Timestamps: "@
                + switch + "\r\n"@
        }),
{
}

/// The greeting tells the version and how to get help.
pub proof fn greetings_tell_the_version(version: Seq<char>)
    ensures
        banner_text(version) == "brtt "@ + version
            + "\r\nPress ctrl-t ? for help\r\nConnected to target\r\n"@,
{
}

} // verus!
