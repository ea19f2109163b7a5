//! Session log: line assembly and the writes that a log file receives.
//!
//! A `Logger` decides what is appended to which file and in which order. It
//! queues these decisions as `LogAction`s; the program around the library
//! performs them on real files.
use crate::channel::{CoreChannel, CoreId};
use crate::cli::{LogDestination, LogFormat};
use crate::ordered;
use crate::ordered::OrderedMap;
use crate::terminal;
use crate::text;
use vstd::prelude::*;

verus! {

/// Line feed.
pub const LF: u8 = 0x0a;

/// `memchr::memchr`: the position of the first `needle` in `haystack`.
#[verifier::external_body]
fn find_byte(needle: u8, haystack: &[u8]) -> (position: Option<usize>)
    ensures
        match position {
            Some(i) => i < haystack@.len() && haystack@[i as int] == needle && forall|j: int|
                0 <= j < i ==> haystack@[j] != needle,
            None => forall|j: int| 0 <= j < haystack@.len() ==> haystack@[j] != needle,
        },
{
    memchr::memchr(needle, haystack)
}

/// What follows the last line feed of `text`.
pub open spec fn line_tail(text: Seq<u8>) -> Seq<u8>
    decreases text.len(),
{
    if text.len() == 0 || text.last() == LF {
        seq![]
    } else {
        line_tail(text.drop_last()).push(text.last())
    }
}

/// The lines of `text` up to its last line feed, each with its line feed.
pub open spec fn finished_lines(text: Seq<u8>) -> Seq<Seq<u8>>
    decreases text.len(),
{
    if text.len() == 0 {
        seq![]
    } else if text.last() == LF {
        finished_lines(text.drop_last()).push(line_tail(text.drop_last()).push(LF))
    } else {
        finished_lines(text.drop_last())
    }
}

/// A text without line feed only lengthens the tail.
proof fn appending_without_line_feed(text: Seq<u8>, more: Seq<u8>)
    requires
        forall|i: int| 0 <= i < more.len() ==> more[i] != LF,
    ensures
        finished_lines(text + more) == finished_lines(text),
        line_tail(text + more) == line_tail(text) + more,
    decreases more.len(),
{
    if more.len() == 0 {
        assert(text + more =~= text);
        assert(line_tail(text) + more =~= line_tail(text));
    } else {
        appending_without_line_feed(text, more.drop_last());
        assert((text + more).drop_last() =~= text + more.drop_last());
        assert(line_tail(text + more) =~= line_tail(text) + more);
    }
}

/// Splitting into lines does not depend on how the text arrives: the lines of a
/// first fragment and then those of its tail with the rest are the lines of the
/// whole.
pub proof fn line_assembly_is_fragment_independent(first: Seq<u8>, second: Seq<u8>)
    ensures
        finished_lines(first + second) == finished_lines(first) + finished_lines(
            line_tail(first) + second,
        ),
        line_tail(first + second) == line_tail(line_tail(first) + second),
    decreases second.len(),
{
    if second.len() == 0 {
        assert(first + second =~= first);
        assert(line_tail(first) + second =~= line_tail(first));
        tail_holds_no_line_feed(first);
        appending_without_line_feed(seq![], line_tail(first));
        assert(Seq::<u8>::empty() + line_tail(first) =~= line_tail(first));
        assert(finished_lines(first) + Seq::<Seq<u8>>::empty() =~= finished_lines(first));
    } else {
        line_assembly_is_fragment_independent(first, second.drop_last());
        assert((first + second).drop_last() =~= first + second.drop_last());
        let rest = line_tail(first) + second;
        assert(rest.drop_last() =~= line_tail(first) + second.drop_last());
        assert(rest.last() == second.last());
        if second.last() == LF {
            assert(finished_lines(first + second) =~= finished_lines(first) + finished_lines(rest));
        }
    }
}

/// A tail holds no line feed.
pub proof fn tail_holds_no_line_feed(text: Seq<u8>)
    ensures
        forall|i: int| 0 <= i < line_tail(text).len() ==> line_tail(text)[i] != LF,
    decreases text.len(),
{
    if text.len() > 0 && text.last() != LF {
        tail_holds_no_line_feed(text.drop_last());
        let before = line_tail(text.drop_last());
        assert forall|i: int| 0 <= i < line_tail(text).len() implies line_tail(text)[i] != LF by {
            if i < before.len() {
                assert(line_tail(text)[i] == before[i]);
            }
        }
    }
}

/// All bytes of a list of lines.
pub open spec fn joined(lines: Seq<Seq<u8>>) -> Seq<u8>
    decreases lines.len(),
{
    if lines.len() == 0 {
        seq![]
    } else {
        joined(lines.drop_last()) + lines.last()
    }
}

/// No byte is lost or reordered: the lines and the tail make up the text again.
pub proof fn line_assembly_keeps_every_byte(text: Seq<u8>)
    ensures
        joined(finished_lines(text)) + line_tail(text) == text,
    decreases text.len(),
{
    if text.len() > 0 {
        let before = text.drop_last();
        line_assembly_keeps_every_byte(before);
        assert(text =~= before.push(text.last()));
        if text.last() == LF {
            let lines = finished_lines(text);
            assert(lines.drop_last() =~= finished_lines(before));
            assert(joined(lines) =~= text);
        }
        assert(joined(finished_lines(text)) + line_tail(text) =~= text);
    }
}

/// The views of a list of byte strings.
pub open spec fn byte_views(lines: Seq<Vec<u8>>) -> Seq<Seq<u8>> {
    Seq::new(lines.len(), |i: int| lines[i]@)
}

/// How one channel assembles log lines.
///
/// Terminal output arrives with its line boundaries resolved, so only the
/// unfinished line is kept. Defmt text has no such boundaries and is split here.
#[derive(Debug)]
pub enum LineAssembly {
    PreSplit { partial: Vec<u8> },
    Buffered { pending: Vec<u8> },
}

/// What a `LineAssembly` holds.
#[verifier::ext_equal]
pub struct AssemblyView {
    pub pre_split: bool,
    pub tail: Seq<u8>,
}

impl View for LineAssembly {
    type V = AssemblyView;

    open spec fn view(&self) -> AssemblyView {
        match *self {
            LineAssembly::PreSplit { partial } => AssemblyView { pre_split: true, tail: partial@ },
            LineAssembly::Buffered { pending } => AssemblyView { pre_split: false, tail: pending@ },
        }
    }
}

impl LineAssembly {
    pub fn pre_split() -> (assembly: Self)
        ensures
            assembly@ == (AssemblyView { pre_split: true, tail: seq![] }),
    {
        LineAssembly::PreSplit { partial: Vec::new() }
    }

    pub fn buffered() -> (assembly: Self)
        ensures
            assembly@ == (AssemblyView { pre_split: false, tail: seq![] }),
    {
        LineAssembly::Buffered { pending: Vec::new() }
    }

    /// Replaces the unfinished line of a pre-split assembly.
    pub fn set_partial(&mut self, partial: &[u8])
        requires
            old(self)@.pre_split,
        ensures
            final(self)@ == (AssemblyView { pre_split: true, tail: partial@ }),
    {
        *self = LineAssembly::PreSplit { partial: text::copy_bytes(partial) };
    }

    /// Appends a fragment to a buffered assembly and hands out the lines that are
    /// now complete, each with its line feed. The remainder stays buffered.
    pub fn ingest_fragment(&mut self, fragment: &[u8]) -> (lines: Vec<Vec<u8>>)
        requires
            !old(self)@.pre_split,
        ensures
            byte_views(lines@) == finished_lines(old(self)@.tail + fragment@),
            final(self)@ == (AssemblyView {
                pre_split: false,
                tail: line_tail(old(self)@.tail + fragment@),
            }),
    {
        let mut text = self.partial_line();
        text::push_bytes(&mut text, fragment);
        let mut lines: Vec<Vec<u8>> = Vec::new();
        let mut start: usize = 0;
        proof {
            assert(text@.take(0) =~= Seq::<u8>::empty());
            assert(byte_views(lines@) =~= finished_lines(text@.take(0)));
        }
        loop
            invariant
                start <= text@.len(),
                byte_views(lines@) == finished_lines(text@.take(start as int)),
                line_tail(text@.take(start as int)) == Seq::<u8>::empty(),
            ensures
                start <= text@.len(),
                byte_views(lines@) == finished_lines(text@.take(start as int)),
                line_tail(text@.take(start as int)) == Seq::<u8>::empty(),
                forall|j: int| start <= j < text@.len() ==> text@[j] != LF,
            decreases text@.len() - start,
        {
            let rest = vstd::slice::slice_subrange(text.as_slice(), start, text.len());
            match find_byte(LF, rest) {
                Some(offset) => {
                    let end: usize = start + offset + 1;
                    let line = text::copy_range(text.as_slice(), start, end);
                    proof {
                        let before = text@.take(start as int);
                        let body = text@.subrange(start as int, end - 1);
                        assert forall|i: int| 0 <= i < body.len() implies body[i] != LF by {
                            assert(body[i] == rest@[i]);
                        }
                        appending_without_line_feed(before, body);
                        assert(text@.take(end as int).drop_last() =~= before + body);
                        assert(text@.take(end as int).last() == rest@[offset as int]);
                        assert(line@ =~= (line_tail(before) + body).push(LF));
                        assert(byte_views(lines@.push(line)) =~= byte_views(lines@).push(line@));
                    }
                    lines.push(line);
                    start = end;
                },
                None => {
                    proof {
                        assert forall|j: int| start <= j < text@.len() implies text@[j] != LF by {
                            assert(rest@[j - start] == text@[j]);
                        }
                    }
                    break ;
                },
            }
        }
        let pending = text::copy_range(text.as_slice(), start, text.len());
        proof {
            appending_without_line_feed(text@.take(start as int), pending@);
            assert(text@.take(start as int) + pending@ =~= text@);
            assert(Seq::<u8>::empty() + pending@ =~= pending@);
        }
        *self = LineAssembly::Buffered { pending };
        lines
    }

    /// The unfinished line.
    pub fn partial_line(&self) -> (line: Vec<u8>)
        ensures
            line@ == self@.tail,
    {
        match self {
            LineAssembly::PreSplit { partial } => text::copy_bytes(partial.as_slice()),
            LineAssembly::Buffered { pending } => text::copy_bytes(pending.as_slice()),
        }
    }

    pub fn clear_partial(&mut self)
        ensures
            final(self)@ == (AssemblyView { pre_split: old(self)@.pre_split, tail: seq![] }),
    {
        match self {
            LineAssembly::PreSplit { partial } => partial.clear(),
            LineAssembly::Buffered { pending } => pending.clear(),
        }
    }
}

/// Decoding state of one logged channel; a raw channel needs none.
#[derive(Debug)]
pub struct ChannelLog {
    pub line_assembly: Option<LineAssembly>,
}

impl View for ChannelLog {
    type V = Option<AssemblyView>;

    open spec fn view(&self) -> Option<AssemblyView> {
        match self.line_assembly {
            Some(assembly) => Some(assembly@),
            None => None,
        }
    }
}

/// One file of the log.
#[derive(Clone, Copy, Debug, PartialEq, Eq, Structural)]
pub enum LogTarget {
    Merged,
    Channel(CoreChannel),
}

/// One step on the log files, to be carried out in order.
#[derive(Debug)]
pub enum LogAction {
    /// Create the file or empty it.
    Open(LogTarget),
    /// Append bytes to an opened file.
    Append { target: LogTarget, bytes: Vec<u8> },
    /// Hand everything appended so far to the operating system.
    Flush,
}

/// What a `LogAction` holds.
#[verifier::ext_equal]
pub enum ActionView {
    Open(LogTarget),
    Append { target: LogTarget, bytes: Seq<u8> },
    Flush,
}

impl View for LogAction {
    type V = ActionView;

    open spec fn view(&self) -> ActionView {
        match *self {
            LogAction::Open(target) => ActionView::Open(target),
            LogAction::Append { target, bytes } => ActionView::Append { target, bytes: bytes@ },
            LogAction::Flush => ActionView::Flush,
        }
    }
}

/// The views of a list of actions.
pub open spec fn action_views(actions: Seq<LogAction>) -> Seq<ActionView> {
    Seq::new(actions.len(), |i: int| actions[i]@)
}

/// A raw log of several channels needs one file for each.
#[derive(Clone, Copy, Debug, PartialEq, Eq, Structural)]
pub struct RawMergeError;

impl RawMergeError {
    pub fn message(&self) -> (message: String)
        ensures
            message@
                == "--log-format raw with multiple up channels requires --log-per-channel"@,
    {
        "--log-format raw with multiple up channels requires --log-per-channel".to_string()
    }
}

/// The session log.
#[derive(Debug)]
pub struct Logger {
    pub per_channel: bool,
    pub format: LogFormat,
    pub include_channel: bool,
    pub show_cores: bool,
    pub channels: OrderedMap<CoreChannel, ChannelLog>,
    pub actions: Vec<LogAction>,
}

/// What a `Logger` holds: its settings, the lines in the making and the actions
/// queued so far.
#[verifier::ext_equal]
pub struct LogView {
    pub per_channel: bool,
    pub format: LogFormat,
    pub include_channel: bool,
    pub show_cores: bool,
    pub channels: Map<CoreChannel, Option<AssemblyView>>,
    pub actions: Seq<ActionView>,
}

impl View for Logger {
    type V = LogView;

    open spec fn view(&self) -> LogView {
        LogView {
            per_channel: self.per_channel,
            format: self.format,
            include_channel: self.include_channel,
            show_cores: self.show_cores,
            channels: self.channels@,
            actions: action_views(self.actions@),
        }
    }
}

/// The unfinished line of a channel's log.
pub open spec fn tail_of(log: Option<AssemblyView>) -> Seq<u8> {
    match log {
        Some(assembly) => assembly.tail,
        None => seq![],
    }
}

/// A channel's log with its unfinished line dropped.
pub open spec fn without_tail(log: Option<AssemblyView>) -> Option<AssemblyView> {
    match log {
        Some(assembly) => Some(AssemblyView { pre_split: assembly.pre_split, tail: seq![] }),
        None => None,
    }
}

/// Whether `source` belongs to the selection: one core, or all.
pub open spec fn selects(core: Option<CoreId>, source: CoreChannel) -> bool {
    match core {
        Some(core) => source.core == core,
        None => true,
    }
}

impl LogView {
    /// A log that nothing was written to. One file for all channels is opened at
    /// once, and only there lines name their channel; a file of one channel is
    /// opened when it is needed.
    pub open spec fn initial(
        per_channel: bool,
        format: LogFormat,
        include_channel: bool,
        show_cores: bool,
    ) -> LogView {
        LogView {
            per_channel,
            format,
            include_channel: include_channel && !per_channel,
            show_cores,
            channels: Map::empty(),
            actions: if per_channel {
                seq![]
            } else {
                seq![ActionView::Open(LogTarget::Merged)]
            },
        }
    }

    /// The file that `source` writes to.
    pub open spec fn target(self, source: CoreChannel) -> LogTarget {
        if self.per_channel {
            LogTarget::Channel(source)
        } else {
            LogTarget::Merged
        }
    }

    /// The label in front of a line of `source`.
    pub open spec fn tag(self, source: CoreChannel) -> Seq<u8> {
        if self.include_channel {
            text::utf8(source.tag(self.show_cores))
        } else {
            seq![]
        }
    }

    /// Appending one line of `source`.
    pub open spec fn line_action(self, source: CoreChannel, line: Seq<u8>) -> ActionView {
        ActionView::Append { target: self.target(source), bytes: self.tag(source) + line }
    }

    /// Appending `lines` in order and flushing; nothing without lines.
    pub open spec fn lines_actions(self, source: CoreChannel, lines: Seq<Seq<u8>>) -> Seq<
        ActionView,
    > {
        if lines.len() == 0 {
            seq![]
        } else {
            Seq::new(lines.len(), |i: int| self.line_action(source, lines[i])).push(
                ActionView::Flush,
            )
        }
    }

    /// The log with more actions queued.
    pub open spec fn with_actions(self, more: Seq<ActionView>) -> LogView {
        LogView { actions: self.actions + more, ..self }
    }

    /// The log with `source`'s state replaced.
    pub open spec fn with_channel(
        self,
        source: CoreChannel,
        log: Option<AssemblyView>,
    ) -> LogView {
        LogView { channels: self.channels.insert(source, log), ..self }
    }

    /// The log once `source` is known: a new source starts with `log`, and with
    /// its own file where there is one for each channel.
    pub open spec fn opened(self, source: CoreChannel, log: Option<AssemblyView>) -> LogView {
        if self.channels.dom().contains(source) {
            self
        } else if self.per_channel {
            self.with_channel(source, log).with_actions(
                seq![ActionView::Open(LogTarget::Channel(source))],
            )
        } else {
            self.with_channel(source, log)
        }
    }

    /// The log after raw bytes of `source`.
    pub open spec fn after_raw(self, source: CoreChannel, bytes: Seq<u8>) -> LogView {
        if self.format == LogFormat::Decoded || bytes.len() == 0 {
            self
        } else {
            self.opened(source, None).with_actions(
                seq![ActionView::Append { target: self.target(source), bytes }],
            )
        }
    }

    /// The log after terminal output of `source`: finished lines and the line
    /// still unfinished.
    pub open spec fn after_terminal(
        self,
        source: CoreChannel,
        lines: Seq<Seq<u8>>,
        partial: Seq<u8>,
    ) -> LogView {
        if self.format == LogFormat::Raw || (lines.len() == 0 && partial.len() == 0
            && !self.channels.dom().contains(source)) {
            self
        } else {
            let log = Some(AssemblyView { pre_split: true, tail: partial });
            self.opened(source, log).with_channel(source, log).with_actions(
                self.lines_actions(source, lines),
            )
        }
    }

    /// What the tail of `source` and `text` together spell.
    pub open spec fn pending(self, source: CoreChannel, text: Seq<u8>) -> Seq<u8> {
        if self.channels.dom().contains(source) {
            tail_of(self.channels[source]) + text
        } else {
            text
        }
    }

    /// The log after defmt text of `source`.
    pub open spec fn after_defmt(self, source: CoreChannel, text: Seq<u8>) -> LogView {
        if self.format == LogFormat::Raw || text.len() == 0 {
            self
        } else {
            let whole = self.pending(source, text);
            let log = Some(AssemblyView { pre_split: false, tail: line_tail(whole) });
            self.opened(source, log).with_channel(source, log).with_actions(
                self.lines_actions(source, finished_lines(whole)),
            )
        }
    }

    /// Appending the unfinished lines of the selected sources among `keys`.
    pub open spec fn tail_actions(
        self,
        keys: Seq<CoreChannel>,
        core: Option<CoreId>,
        newline: bool,
    ) -> Seq<ActionView>
        decreases keys.len(),
    {
        if keys.len() == 0 {
            seq![]
        } else {
            let earlier = self.tail_actions(keys.drop_last(), core, newline);
            let source = keys.last();
            let tail = tail_of(self.channels[source]);
            if selects(core, source) && tail.len() > 0 {
                earlier.push(
                    self.line_action(
                        source,
                        if newline {
                            tail.push(LF)
                        } else {
                            tail
                        },
                    ),
                )
            } else {
                earlier
            }
        }
    }

    /// The log after its unfinished lines are written out in source order; they
    /// stay cached.
    pub open spec fn flushed(self) -> LogView {
        self.with_actions(
            self.tail_actions(ordered::sorted_keys(self.channels), None, false).push(
                ActionView::Flush,
            ),
        )
    }

    /// The selected channels without their unfinished lines.
    pub open spec fn channels_without_tails(self, core: Option<CoreId>) -> Map<
        CoreChannel,
        Option<AssemblyView>,
    > {
        Map::new(
            |source: CoreChannel| self.channels.dom().contains(source),
            |source: CoreChannel|
                if selects(core, source) {
                    without_tail(self.channels[source])
                } else {
                    self.channels[source]
                },
        )
    }

    /// The log after the selected unfinished lines are ended and forgotten.
    pub open spec fn reset(self, core: Option<CoreId>) -> LogView {
        (LogView { channels: self.channels_without_tails(core), ..self }).with_actions(
            self.tail_actions(ordered::sorted_keys(self.channels), core, true).push(
                ActionView::Flush,
            ),
        )
    }

    /// A channel that is known to the log assembles lines the way its kind of
    /// output needs.
    pub open spec fn assembles(self, source: CoreChannel, pre_split: bool) -> bool {
        self.format == LogFormat::Decoded && self.channels.dom().contains(source) ==> (
        self.channels[source] matches Some(assembly) && assembly.pre_split == pre_split)
    }
}

impl Logger {
    pub open spec fn wf(&self) -> bool {
        self.channels.wf()
    }

    /// Sets up the log; without a destination there is none. Raw bytes of several
    /// channels cannot share one file.
    pub fn new(
        destination: Option<&LogDestination>,
        format: LogFormat,
        include_channel: bool,
        show_cores: bool,
    ) -> (result: Result<Option<Self>, RawMergeError>)
        ensures
            match destination {
                None => result == Ok::<Option<Self>, RawMergeError>(None),
                Some(destination) => {
                    let per_channel = destination is PerChannel;
                    if format == LogFormat::Raw && !per_channel && include_channel {
                        result == Err::<Option<Self>, RawMergeError>(RawMergeError)
                    } else {
                        result matches Ok(Some(logger)) && logger.wf() && logger@
                            == LogView::initial(per_channel, format, include_channel, show_cores)
                    }
                },
            },
    {
        let destination = match destination {
            Some(destination) => destination,
            None => {
                return Ok(None);
            },
        };
        let per_channel = match destination {
            LogDestination::Merged(_) => false,
            LogDestination::PerChannel(_) => true,
        };
        if format == LogFormat::Raw && !per_channel && include_channel {
            return Err(RawMergeError);
        }
        let mut actions: Vec<LogAction> = Vec::new();
        if !per_channel {
            actions.push(LogAction::Open(LogTarget::Merged));
        }
        let logger = Logger {
            per_channel,
            format,
            include_channel: include_channel && !per_channel,
            show_cores,
            channels: OrderedMap::new(),
            actions,
        };
        proof {
            if per_channel {
                assert(logger@.actions =~= seq![]);
            } else {
                assert(logger@.actions =~= seq![ActionView::Open(LogTarget::Merged)]);
            }
        }
        Ok(Some(logger))
    }

    /// Whether a channel assembles its lines in this way, or is not known yet.
    pub fn assembles_as(&self, source: CoreChannel, pre_split: bool) -> (result: bool)
        requires
            self.wf(),
        ensures
            result == self@.assembles(source, pre_split),
    {
        if self.format != LogFormat::Decoded {
            return true;
        }
        match self.channels.get(&source) {
            None => true,
            Some(log) => match &log.line_assembly {
                Some(LineAssembly::PreSplit { .. }) => pre_split,
                Some(LineAssembly::Buffered { .. }) => !pre_split,
                None => false,
            },
        }
    }

    /// Hands out the queued actions and empties the queue.
    pub fn take_actions(&mut self) -> (actions: Vec<LogAction>)
        requires
            old(self).wf(),
        ensures
            final(self).wf(),
            action_views(actions@) == old(self)@.actions,
            final(self)@ == (LogView { actions: seq![], ..old(self)@ }),
    {
        let mut actions: Vec<LogAction> = Vec::new();
        actions.append(&mut self.actions);
        proof {
            assert(action_views(actions@) =~= old(self)@.actions);
            assert(self@.actions =~= seq![]);
        }
        actions
    }

    fn push_action(&mut self, action: LogAction)
        requires
            old(self).wf(),
        ensures
            final(self).wf(),
            final(self).channels == old(self).channels,
            final(self)@ == old(self)@.with_actions(seq![action@]),
    {
        self.actions.push(action);
        proof {
            assert(self@.actions =~= old(self)@.actions + seq![action@]);
        }
    }

    fn target(&self, source: CoreChannel) -> (target: LogTarget)
        ensures
            target == self@.target(source),
    {
        if self.per_channel {
            LogTarget::Channel(source)
        } else {
            LogTarget::Merged
        }
    }

    /// Makes `source` known to the log.
    fn channel_log(&mut self, source: CoreChannel, line_assembly: Option<LineAssembly>)
        requires
            old(self).wf(),
        ensures
            final(self).wf(),
            final(self)@ == old(self)@.opened(
                source,
                (ChannelLog { line_assembly })@,
            ),
    {
        if !self.channels.contains_key(&source) {
            let ghost before = self@;
            let ghost log = (ChannelLog { line_assembly })@;
            self.channels.insert(source, ChannelLog { line_assembly });
            proof {
                assert(self@ =~= before.with_channel(source, log));
            }
            if self.per_channel {
                self.push_action(LogAction::Open(LogTarget::Channel(source)));
            }
        }
    }

    /// Appends exact channel bytes; raw logs only.
    pub fn write_bytes(&mut self, source: CoreChannel, bytes: &[u8])
        requires
            old(self).wf(),
        ensures
            final(self).wf(),
            final(self)@ == old(self)@.after_raw(source, bytes@),
    {
        if self.format != LogFormat::Raw || bytes.len() == 0 {
            return ;
        }
        self.channel_log(source, None);
        let target = self.target(source);
        self.push_action(LogAction::Append { target, bytes: text::copy_bytes(bytes) });
    }

    /// Appends decoded terminal lines, each with its line feed, and remembers the
    /// unfinished line; decoded logs only.
    pub fn write_terminal_decoded(
        &mut self,
        source: CoreChannel,
        complete: &[Vec<u8>],
        partial: &[u8],
    )
        requires
            old(self).wf(),
            old(self)@.assembles(source, true),
        ensures
            final(self).wf(),
            final(self)@ == old(self)@.after_terminal(source, byte_views(complete@), partial@),
    {
        if self.format != LogFormat::Decoded {
            return ;
        }
        if complete.len() == 0 && partial.len() == 0 && !self.channels.contains_key(&source) {
            return ;
        }
        let ghost before = self@;
        let ghost log = Some(AssemblyView { pre_split: true, tail: partial@ });
        self.channel_log(source, Some(LineAssembly::pre_split()));
        let mut assembly = LineAssembly::pre_split();
        assembly.set_partial(partial);
        self.channels.insert(source, ChannelLog { line_assembly: Some(assembly) });
        proof {
            assert(self@ =~= before.opened(source, log).with_channel(source, log)) by {
                assert(self@.channels =~= before.opened(source, log).with_channel(
                    source,
                    log,
                ).channels);
            }
        }
        self.write_tagged_lines(source, complete);
    }

    /// Appends lines with their labels and flushes.
    fn write_tagged_lines(&mut self, source: CoreChannel, lines: &[Vec<u8>])
        requires
            old(self).wf(),
        ensures
            final(self).wf(),
            final(self)@ == old(self)@.with_actions(
                old(self)@.lines_actions(source, byte_views(lines@)),
            ),
    {
        if lines.len() == 0 {
            proof {
                assert(self@.actions + Seq::<ActionView>::empty() =~= self@.actions);
            }
            return ;
        }
        let ghost before = self@;
        let ghost all = Seq::new(
            lines@.len(),
            |i: int| before.line_action(source, byte_views(lines@)[i]),
        );
        let mut i: usize = 0;
        proof {
            assert(all.take(0) =~= seq![]);
            assert(self@.actions =~= before.actions + all.take(0));
        }
        while i < lines.len()
            invariant
                i <= lines@.len(),
                self.wf(),
                all == Seq::new(
                    lines@.len(),
                    |i: int| before.line_action(source, byte_views(lines@)[i]),
                ),
                self@ == before.with_actions(all.take(i as int)),
            decreases lines@.len() - i,
        {
            self.write_line(source, lines[i].as_slice(), false);
            proof {
                assert(byte_views(lines@)[i as int] == lines@[i as int]@);
                assert(before.actions + all.take(i as int + 1) =~= (before.actions + all.take(
                    i as int,
                )) + seq![all[i as int]]);
            }
            i += 1;
        }
        self.push_action(LogAction::Flush);
        proof {
            assert(all.take(lines@.len() as int) =~= all);
            assert(self@.actions =~= before.actions + all.push(ActionView::Flush));
        }
    }

    /// Appends one line with its label and, if asked, a line feed.
    fn write_line(&mut self, source: CoreChannel, line: &[u8], newline: bool)
        requires
            old(self).wf(),
        ensures
            final(self).wf(),
            final(self).channels == old(self).channels,
            final(self)@ == old(self)@.with_actions(
                seq![
                    old(self)@.line_action(
                        source,
                        if newline {
                            line@.push(LF)
                        } else {
                            line@
                        },
                    ),
                ],
            ),
    {
        let mut bytes: Vec<u8> = Vec::new();
        if self.include_channel {
            let tag = source.tag_text(self.show_cores);
            text::push_text(&mut bytes, tag.as_str());
        }
        text::push_bytes(&mut bytes, line);
        if newline {
            bytes.push(LF);
        }
        proof {
            let spelled = if newline {
                line@.push(LF)
            } else {
                line@
            };
            assert(bytes@ =~= self@.tag(source) + spelled);
        }
        let target = self.target(source);
        self.push_action(LogAction::Append { target, bytes });
    }

    /// Appends decoded defmt text; decoded logs only. Lines are written once they
    /// are complete.
    pub fn write_defmt_decoded(&mut self, source: CoreChannel, line: &[u8])
        requires
            old(self).wf(),
            old(self)@.assembles(source, false),
        ensures
            final(self).wf(),
            final(self)@ == old(self)@.after_defmt(source, line@),
    {
        if self.format != LogFormat::Decoded || line.len() == 0 {
            return ;
        }
        let ghost before = self@;
        let ghost whole = before.pending(source, line@);
        self.channel_log(source, Some(LineAssembly::buffered()));
        let mut assembly = LineAssembly::buffered();
        if let Some(log) = self.channels.remove(&source) {
            if let Some(known) = log.line_assembly {
                assembly = known;
            }
        }
        proof {
            assert(assembly@.tail + line@ =~= whole);
        }
        let lines = assembly.ingest_fragment(line);
        self.channels.insert(source, ChannelLog { line_assembly: Some(assembly) });
        proof {
            let log = Some(AssemblyView { pre_split: false, tail: line_tail(whole) });
            assert(self@.channels =~= before.opened(source, log).with_channel(
                source,
                log,
            ).channels);
            assert(self@ =~= before.opened(source, log).with_channel(source, log));
        }
        self.write_tagged_lines(source, lines.as_slice());
    }

    /// Writes the unfinished lines of the selected sources in source order.
    fn write_tails(&mut self, core: Option<CoreId>, newline: bool)
        requires
            old(self).wf(),
        ensures
            final(self).wf(),
            final(self).channels == old(self).channels,
            final(self)@ == old(self)@.with_actions(
                old(self)@.tail_actions(
                    ordered::sorted_keys(old(self)@.channels),
                    core,
                    newline,
                ),
            ),
    {
        let ghost before = self@;
        let ghost keys = self.channels.keys();
        let mut i: usize = 0;
        proof {
            self.channels.entries_follow_sorted_keys();
            assert(keys.take(0) =~= Seq::<CoreChannel>::empty());
            assert(self@.actions =~= before.actions + before.tail_actions(
                keys.take(0),
                core,
                newline,
            ));
        }
        while i < self.channels.entries.len()
            invariant
                i <= self.channels.entries@.len(),
                self.wf(),
                self.channels == old(self).channels,
                before == old(self)@,
                keys == self.channels.keys(),
                self@ == before.with_actions(
                    before.tail_actions(keys.take(i as int), core, newline),
                ),
            decreases self.channels.entries@.len() - i,
        {
            let source = self.channels.entries[i].0;
            let line = match &self.channels.entries[i].1.line_assembly {
                Some(assembly) => assembly.partial_line(),
                None => Vec::new(),
            };
            let ghost current = self@;
            proof {
                self.channels.entry_is_in_map(i as int);
                assert(keys.take(i as int + 1).drop_last() =~= keys.take(i as int));
                assert(keys.take(i as int + 1).last() == source);
                assert(line@ =~= tail_of(before.channels[source]));
            }
            let selected = match core {
                Some(core) => source.core == core,
                None => true,
            };
            if selected && line.len() > 0 {
                self.write_line(source, line.as_slice(), newline);
                proof {
                    let earlier = before.tail_actions(keys.take(i as int), core, newline);
                    let spelled = if newline {
                        line@.push(LF)
                    } else {
                        line@
                    };
                    let action = before.line_action(source, spelled);
                    assert((before.actions + earlier) + seq![action] =~= before.actions
                        + earlier.push(action));
                }
            }
            i += 1;
        }
        proof {
            assert(keys.take(keys.len() as int) =~= keys);
        }
    }

    /// Writes the unfinished lines and flushes the files.
    pub fn flush(&mut self)
        requires
            old(self).wf(),
        ensures
            final(self).wf(),
            final(self)@ == old(self)@.flushed(),
    {
        self.write_tails(None, false);
        self.push_action(LogAction::Flush);
        proof {
            assert(self@.actions =~= old(self)@.flushed().actions);
        }
    }

    /// Flushes the files and leaves unfinished lines alone.
    pub fn flush_files(&mut self)
        requires
            old(self).wf(),
        ensures
            final(self).wf(),
            final(self)@ == old(self)@.with_actions(seq![ActionView::Flush]),
    {
        self.push_action(LogAction::Flush);
    }

    /// Ends the unfinished lines of the selected sources, forgets them, and
    /// flushes.
    fn reset_selected(&mut self, core: Option<CoreId>)
        requires
            old(self).wf(),
        ensures
            final(self).wf(),
            final(self)@ == old(self)@.reset(core),
    {
        let ghost before = self@;
        let ghost entries = self.channels.entries@;
        self.write_tails(core, true);
        let mut i: usize = 0;
        while i < self.channels.entries.len()
            invariant
                i <= self.channels.entries@.len(),
                self.wf(),
                self@.per_channel == before.per_channel,
                self@.format == before.format,
                self@.include_channel == before.include_channel,
                self@.show_cores == before.show_cores,
                self@.actions == before.actions + before.tail_actions(
                    ordered::sorted_keys(before.channels),
                    core,
                    true,
                ),
                self.channels.entries@.len() == entries.len(),
                forall|j: int|
                    0 <= j < entries.len() ==> (#[trigger] self.channels.entries@[j]).0
                        == entries[j].0,
                forall|j: int|
                    i <= j < entries.len() ==> (#[trigger] self.channels.entries@[j])
                        == entries[j],
                forall|j: int|
                    0 <= j < i ==> (#[trigger] self.channels.entries@[j]).1@ == if selects(
                        core,
                        entries[j].0,
                    ) {
                        without_tail(entries[j].1@)
                    } else {
                        entries[j].1@
                    },
            decreases self.channels.entries@.len() - i,
        {
            let source = self.channels.entries[i].0;
            let selected = match core {
                Some(core) => source.core == core,
                None => true,
            };
            if selected {
                let cleared = match &self.channels.entries[i].1.line_assembly {
                    Some(LineAssembly::PreSplit { .. }) => Some(LineAssembly::pre_split()),
                    Some(LineAssembly::Buffered { .. }) => Some(LineAssembly::buffered()),
                    None => None,
                };
                self.channels.set_value_at(i, ChannelLog { line_assembly: cleared });
            }
            i += 1;
        }
        proof {
            assert forall|source: CoreChannel|
                #[trigger] self@.channels.dom().contains(source) <==> before.channels.dom().contains(
                    source,
                ) by {
                if ordered::has_key(self.channels.entries@, source) {
                    let j = ordered::place_of(self.channels.entries@, source);
                    assert(ordered::keyed_at(entries, source, j));
                }
                if ordered::has_key(entries, source) {
                    let j = ordered::place_of(entries, source);
                    assert(ordered::keyed_at(self.channels.entries@, source, j));
                }
            }
            assert forall|source: CoreChannel| #[trigger]
                self@.channels.dom().contains(source) implies self@.channels[source]
                == before.channels_without_tails(core)[source] by {
                let j = ordered::place_of(self.channels.entries@, source);
                self.channels.entry_is_in_map(j);
                old(self).channels.entry_is_in_map(j);
            }
            assert(self@.channels =~= before.channels_without_tails(core));
        }
        self.push_action(LogAction::Flush);
        proof {
            assert(self@.actions =~= before.reset(core).actions);
            assert(self@ =~= before.reset(core));
        }
    }

    /// Ends the unfinished lines and forgets them, so that output of a restarted
    /// target is not merged with an earlier line.
    pub fn reset(&mut self)
        requires
            old(self).wf(),
        ensures
            final(self).wf(),
            final(self)@ == old(self)@.reset(None),
    {
        self.reset_selected(None);
    }

    /// The same for one core only; the lines of other cores survive.
    pub fn reset_core(&mut self, core: CoreId)
        requires
            old(self).wf(),
        ensures
            final(self).wf(),
            final(self)@ == old(self)@.reset(Some(core)),
    {
        self.reset_selected(Some(core));
    }
}

/// The bytes of a file after these actions: what was appended since it was last
/// opened.
pub open spec fn contents(actions: Seq<ActionView>, target: LogTarget) -> Seq<u8>
    decreases actions.len(),
{
    if actions.len() == 0 {
        seq![]
    } else {
        let earlier = contents(actions.drop_last(), target);
        match actions.last() {
            ActionView::Open(opened) => if opened == target {
                seq![]
            } else {
                earlier
            },
            ActionView::Append { target: appended, bytes } => if appended == target {
                earlier + bytes
            } else {
                earlier
            },
            ActionView::Flush => earlier,
        }
    }
}

/// A raw log holds the exact bytes of its channel: bytes that are read make its
/// file longer by just these bytes, and nothing that is decoded adds to it.
pub proof fn raw_logs_are_exact(
    log: LogView,
    source: CoreChannel,
    bytes: Seq<u8>,
    lines: Seq<Seq<u8>>,
    text: Seq<u8>,
)
    requires
        log.format is Raw,
        !log.channels.dom().contains(source) && log.per_channel ==> contents(
            log.actions,
            log.target(source),
        ) == Seq::<u8>::empty(),
    ensures
        contents(log.after_raw(source, bytes).actions, log.target(source)) == contents(
            log.actions,
            log.target(source),
        ) + bytes,
        log.after_terminal(source, lines, text) == log,
        log.after_defmt(source, text) == log,
{
    let target = log.target(source);
    let before = contents(log.actions, target);
    if bytes.len() == 0 {
        assert(before + bytes =~= before);
    } else {
        let opened = log.opened(source, None).actions;
        let after = log.after_raw(source, bytes).actions;
        assert(after.drop_last() =~= opened);
        assert(contents(opened, target) =~= before) by {
            if opened.len() > log.actions.len() {
                assert(opened.drop_last() =~= log.actions);
            } else {
                assert(opened =~= log.actions);
            }
        }
    }
}

proof fn tag_is_text(source: CoreChannel, show_cores: bool)
    ensures
        text::no_control_bytes(text::utf8(source.tag(show_cores))),
{
    reveal_strlit("[c");
    reveal_strlit(":ch");
    reveal_strlit("[ch");
    reveal_strlit("]");
    reveal_strlit(" ");
    text::digits_are_no_controls(source.core.index as nat, 10);
    text::digits_are_no_controls(source.channel.number as nat, 10);
    assert(text::no_controls(source.label()));
    assert(text::no_controls(source.short_label()));
    text::text_without_controls(source.tag(show_cores));
}

/// A decoded log of terminal output holds no escape sequences: each thing that is
/// appended to it is text with the line feed that ends it.
pub proof fn terminal_logs_hold_no_escapes(
    log: LogView,
    source: CoreChannel,
    lines: Seq<Seq<u8>>,
    partial: Seq<u8>,
    i: int,
)
    requires
        forall|k: int| 0 <= k < lines.len() ==> terminal::is_text_line(#[trigger] lines[k]),
        log.actions.len() <= i < log.after_terminal(source, lines, partial).actions.len(),
    ensures
        log.after_terminal(source, lines, partial).actions[i] matches ActionView::Append {
            bytes,
            ..
        } ==> terminal::is_text_line(bytes),
{
    let after = log.after_terminal(source, lines, partial);
    if let ActionView::Append { bytes, .. } = after.actions[i] {
        let added = log.lines_actions(source, lines);
        let start = after.actions.len() - added.len();
        let k = i - start;
        assert(after.actions[i] == added[k]);
        tag_is_text(source, log.show_cores);
        assert(bytes == log.tag(source) + lines[k]);
        assert(bytes.drop_last() =~= log.tag(source) + lines[k].drop_last());
    }
}

/// Nothing that was unfinished before a reset reaches a later line, and the
/// unfinished lines of cores that are not reset survive.
pub proof fn resets_forget_unfinished_lines(
    log: LogView,
    core: Option<CoreId>,
    source: CoreChannel,
    text: Seq<u8>,
)
    ensures
        selects(core, source) ==> log.reset(core).pending(source, text) == text,
        !selects(core, source) ==> log.reset(core).pending(source, text) == log.pending(
            source,
            text,
        ),
{
    assert(Seq::<u8>::empty() + text =~= text);
}

/// The lines with the same label in front of each, one after the other.
pub open spec fn labelled(tag: Seq<u8>, lines: Seq<Seq<u8>>) -> Seq<u8> {
    joined(lines.map_values(|line: Seq<u8>| tag + line))
}

/// A line feed ends the line and stands nowhere else in it.
pub open spec fn is_one_line(line: Seq<u8>) -> bool {
    line.len() > 0 && line.last() == LF && forall|i: int|
        0 <= i < line.len() - 1 ==> #[trigger] line[i] != LF
}

impl LogView {
    /// The unfinished line of `source`; none where the source is not known.
    pub open spec fn tail(self, source: CoreChannel) -> Seq<u8> {
        if self.channels.dom().contains(source) {
            tail_of(self.channels[source])
        } else {
            seq![]
        }
    }

    /// The file that holds the log of `source`.
    pub open spec fn file(self, source: CoreChannel) -> LogTarget {
        if self.per_channel {
            LogTarget::Channel(source)
        } else {
            LogTarget::Merged
        }
    }

    /// What stands in front of each line of `source`.
    pub open spec fn front(self, source: CoreChannel) -> Seq<u8> {
        if self.include_channel {
            text::utf8(
                (if self.show_cores {
                    source.label()
                } else {
                    source.short_label()
                }) + " "@,
            )
        } else {
            seq![]
        }
    }

    /// Nothing was written to the file of a channel that is not known, so that
    /// opening it loses nothing.
    pub open spec fn tidy(self) -> bool {
        self.per_channel ==> forall|source: CoreChannel| #[trigger]
            self.channels.dom().contains(source) || contents(
                self.actions,
                LogTarget::Channel(source),
            ) == Seq::<u8>::empty()
    }

    /// The same log but for what it holds and has written.
    pub open spec fn same_settings(self, other: LogView) -> bool {
        self.per_channel == other.per_channel && self.format == other.format
            && self.include_channel == other.include_channel && self.show_cores == other.show_cores
    }

    /// All sources but this one have the lines that they had.
    pub open spec fn same_but_for(self, other: LogView, source: CoreChannel) -> bool {
        forall|own: CoreChannel|
            own != source ==> self.channels.dom().contains(own) == (
            #[trigger] other.channels.dom().contains(own)) && self.channels[own]
                == other.channels[own]
    }
}

/// Some action empties the file.
pub open spec fn empties(actions: Seq<ActionView>, target: LogTarget) -> bool {
    exists|i: int| 0 <= i < actions.len() && #[trigger] actions[i] == ActionView::Open(target)
}

/// Actions that do not empty a file add to it.
proof fn actions_add_up(first: Seq<ActionView>, second: Seq<ActionView>, target: LogTarget)
    requires
        !empties(second, target),
    ensures
        contents(first + second, target) == contents(first, target) + contents(second, target),
    decreases second.len(),
{
    if second.len() == 0 {
        assert(first + second =~= first);
        assert(contents(first, target) + Seq::<u8>::empty() =~= contents(first, target));
    } else {
        let fewer = second.drop_last();
        assert((first + second).drop_last() =~= first + fewer);
        assert(second[second.len() - 1] == second.last());
        assert forall|i: int| 0 <= i < fewer.len() implies #[trigger] fewer[i] != ActionView::Open(
            target,
        ) by {
            assert(second[i] == fewer[i]);
        }
        actions_add_up(first, fewer, target);
        assert(contents(first + second, target) =~= contents(first, target) + contents(
            second,
            target,
        ));
    }
}

/// What a list of lines adds to a file.
proof fn lines_add_up(log: LogView, source: CoreChannel, lines: Seq<Seq<u8>>, target: LogTarget)
    ensures
        ({
            let actions = Seq::new(lines.len(), |i: int| log.line_action(source, lines[i]));
            &&& !empties(actions, target)
            &&& contents(actions, target) == (if target == log.file(source) {
                labelled(log.front(source), lines)
            } else {
                seq![]
            })
        }),
    decreases lines.len(),
{
    let actions = Seq::new(lines.len(), |i: int| log.line_action(source, lines[i]));
    let tag = log.front(source);
    let spelled = lines.map_values(|line: Seq<u8>| tag + line);
    if lines.len() > 0 {
        let fewer = lines.drop_last();
        lines_add_up(log, source, fewer, target);
        assert(actions.drop_last() =~= Seq::new(
            fewer.len(),
            |i: int| log.line_action(source, fewer[i]),
        ));
        assert(spelled.drop_last() =~= fewer.map_values(|line: Seq<u8>| tag + line));
        assert(spelled.last() == tag + lines.last());
        assert(log.tag(source) =~= tag);
    }
}

proof fn written_lines_add_up(
    log: LogView,
    source: CoreChannel,
    lines: Seq<Seq<u8>>,
    target: LogTarget,
)
    ensures
        !empties(log.lines_actions(source, lines), target),
        contents(log.lines_actions(source, lines), target) == (if target == log.file(source) {
            labelled(log.front(source), lines)
        } else {
            seq![]
        }),
{
    lines_add_up(log, source, lines, target);
    let actions = log.lines_actions(source, lines);
    let plain = Seq::new(lines.len(), |i: int| log.line_action(source, lines[i]));
    if lines.len() > 0 {
        assert(actions.drop_last() =~= plain);
        assert forall|i: int| 0 <= i < actions.len() implies #[trigger] actions[i]
            != ActionView::Open(target) by {
            if i < plain.len() {
                assert(plain[i] != ActionView::Open(target));
            }
        }
    } else {
        assert(labelled(log.front(source), lines) =~= seq![]);
    }
}

/// Making a source known empties no file that holds anything.
proof fn opening_loses_nothing(
    log: LogView,
    source: CoreChannel,
    entry: Option<AssemblyView>,
    target: LogTarget,
)
    requires
        log.tidy(),
    ensures
        contents(log.opened(source, entry).actions, target) == contents(log.actions, target),
        log.actions.is_prefix_of(log.opened(source, entry).actions),
{
    let opened = log.opened(source, entry).actions;
    if opened.len() > log.actions.len() {
        assert(opened.drop_last() =~= log.actions);
    } else {
        assert(opened =~= log.actions);
    }
    assert(log.actions =~= opened.take(log.actions.len() as int));
}

/// The lines of a text end where their line feeds stand, and what is left has none.
proof fn lines_are_lines(text: Seq<u8>)
    ensures
        forall|i: int|
            0 <= i < finished_lines(text).len() ==> is_one_line(#[trigger] finished_lines(text)[i]),
    decreases text.len(),
{
    if text.len() > 0 {
        let before = text.drop_last();
        lines_are_lines(before);
        tail_holds_no_line_feed(before);
        if text.last() == LF {
            let line = line_tail(before).push(LF);
            assert forall|i: int| 0 <= i < line.len() - 1 implies #[trigger] line[i] != LF by {
                assert(line[i] == line_tail(before)[i]);
            }
            assert forall|i: int| 0 <= i < finished_lines(text).len() implies is_one_line(
                #[trigger] finished_lines(text)[i],
            ) by {
                if i < finished_lines(before).len() {
                    assert(finished_lines(text)[i] == finished_lines(before)[i]);
                } else {
                    assert(finished_lines(text)[i] == line);
                }
            }
        }
    }
}

/// A decoded log keeps all of the defmt text that is written to it, whether the
/// source is new or known and whether there is one file or many. The text joins
/// the source's unfinished line; each line that is then complete goes to the
/// source's file behind its label, once and in order, and is flushed; the rest is
/// the new unfinished line. No other file and no other source changes.
pub proof fn defmt_text_reaches_the_log(
    log: LogView,
    source: CoreChannel,
    text: Seq<u8>,
    target: LogTarget,
) -> (lines: Seq<Seq<u8>>)
    requires
        log.format is Decoded,
        log.tidy(),
    ensures
        ({
            let after = log.after_defmt(source, text);
            &&& forall|i: int| 0 <= i < lines.len() ==> is_one_line(#[trigger] lines[i])
            &&& text.len() > 0 ==> !after.tail(source).contains(LF)
            &&& joined(lines) + after.tail(source) == log.tail(source) + text
            &&& contents(after.actions, log.file(source)) == contents(
                log.actions,
                log.file(source),
            ) + labelled(log.front(source), lines)
            &&& target != log.file(source) ==> contents(after.actions, target) == contents(
                log.actions,
                target,
            )
            &&& lines.len() > 0 ==> after.actions.last() is Flush
            &&& log.actions.is_prefix_of(after.actions)
            &&& text.len() > 0 ==> after.channels.dom().contains(source)
            &&& after.same_settings(log)
            &&& after.same_but_for(log, source)
            &&& after.tidy()
        }),
{
    let after = log.after_defmt(source, text);
    let whole = log.tail(source) + text;
    if text.len() == 0 {
        let lines = Seq::<Seq<u8>>::empty();
        assert(joined(lines) + log.tail(source) =~= log.tail(source) + text);
        assert(contents(log.actions, log.file(source)) + labelled(log.front(source), lines)
            =~= contents(log.actions, log.file(source)));
        assert(log.actions =~= log.actions.take(log.actions.len() as int));
        lines
    } else {
        assert(log.pending(source, text) =~= whole);
        let lines = finished_lines(whole);
        let entry = Some(AssemblyView { pre_split: false, tail: line_tail(whole) });
        let opened = log.opened(source, entry).actions;
        let added = log.lines_actions(source, lines);
        assert(after.actions =~= opened + added);
        lines_are_lines(whole);
        line_assembly_keeps_every_byte(whole);
        tail_holds_no_line_feed(whole);
        opening_loses_nothing(log, source, entry, log.file(source));
        written_lines_add_up(log, source, lines, log.file(source));
        actions_add_up(opened, added, log.file(source));
        opening_loses_nothing(log, source, entry, target);
        written_lines_add_up(log, source, lines, target);
        actions_add_up(opened, added, target);
        if target != log.file(source) {
            assert(contents(log.actions, target) + Seq::<u8>::empty() =~= contents(
                log.actions,
                target,
            ));
        }
        assert(log.actions =~= after.actions.take(log.actions.len() as int));
        writing_keeps_files_apart(log, source, entry, lines);
        lines
    }
}

/// Lines of one source leave the files of channels that are not known empty.
proof fn writing_keeps_files_apart(
    log: LogView,
    source: CoreChannel,
    entry: Option<AssemblyView>,
    lines: Seq<Seq<u8>>,
)
    requires
        log.tidy(),
    ensures
        log.opened(source, entry).with_channel(source, entry).with_actions(
            log.lines_actions(source, lines),
        ).tidy(),
{
    let opened = log.opened(source, entry);
    let after = opened.with_channel(source, entry).with_actions(log.lines_actions(source, lines));
    if log.per_channel {
        assert forall|own: CoreChannel|
            #[trigger] after.channels.dom().contains(own) || contents(
                after.actions,
                LogTarget::Channel(own),
            ) == Seq::<u8>::empty() by {
            if own != source {
                let target = LogTarget::Channel(own);
                assert(log.channels.dom().contains(own) == after.channels.dom().contains(own));
                opening_loses_nothing(log, source, entry, target);
                written_lines_add_up(log, source, lines, target);
                actions_add_up(opened.actions, log.lines_actions(source, lines), target);
            }
        }
    }
}

/// A decoded log of terminal output gets every finished line behind its label, in
/// order and flushed, and remembers the unfinished one; no other file and no other
/// source changes.
pub proof fn terminal_lines_reach_the_log(
    log: LogView,
    source: CoreChannel,
    lines: Seq<Seq<u8>>,
    partial: Seq<u8>,
    target: LogTarget,
)
    requires
        log.format is Decoded,
        log.tidy(),
    ensures
        ({
            let after = log.after_terminal(source, lines, partial);
            &&& after.tail(source) == partial
            &&& contents(after.actions, log.file(source)) == contents(
                log.actions,
                log.file(source),
            ) + labelled(log.front(source), lines)
            &&& target != log.file(source) ==> contents(after.actions, target) == contents(
                log.actions,
                target,
            )
            &&& lines.len() > 0 ==> after.actions.last() is Flush
            &&& log.actions.is_prefix_of(after.actions)
            &&& after.same_settings(log)
            &&& after.same_but_for(log, source)
            &&& after.tidy()
        }),
{
    let after = log.after_terminal(source, lines, partial);
    if lines.len() == 0 && partial.len() == 0 && !log.channels.dom().contains(source) {
        assert(partial =~= seq![]);
        assert(labelled(log.front(source), lines) =~= seq![]);
        assert(contents(log.actions, log.file(source)) + labelled(log.front(source), lines)
            =~= contents(log.actions, log.file(source)));
        assert(log.actions =~= log.actions.take(log.actions.len() as int));
    } else {
        let entry = Some(AssemblyView { pre_split: true, tail: partial });
        let opened = log.opened(source, entry).actions;
        let added = log.lines_actions(source, lines);
        assert(after.actions =~= opened + added);
        opening_loses_nothing(log, source, entry, log.file(source));
        written_lines_add_up(log, source, lines, log.file(source));
        actions_add_up(opened, added, log.file(source));
        opening_loses_nothing(log, source, entry, target);
        written_lines_add_up(log, source, lines, target);
        actions_add_up(opened, added, target);
        if target != log.file(source) {
            assert(contents(log.actions, target) + Seq::<u8>::empty() =~= contents(
                log.actions,
                target,
            ));
        }
        assert(log.actions =~= after.actions.take(log.actions.len() as int));
        writing_keeps_files_apart(log, source, entry, lines);
    }
}

/// Raw bytes reach the file of their channel and no other, and a raw log stays
/// tidy.
pub proof fn raw_bytes_stay_with_their_channel(
    log: LogView,
    source: CoreChannel,
    bytes: Seq<u8>,
    target: LogTarget,
)
    requires
        log.format is Raw,
        log.tidy(),
    ensures
        ({
            let after = log.after_raw(source, bytes);
            &&& contents(after.actions, log.file(source)) == contents(
                log.actions,
                log.file(source),
            ) + bytes
            &&& target != log.file(source) ==> contents(after.actions, target) == contents(
                log.actions,
                target,
            )
            &&& log.actions.is_prefix_of(after.actions)
            &&& after.same_settings(log)
            &&& after.same_but_for(log, source)
            &&& after.tidy()
        }),
{
    let after = log.after_raw(source, bytes);
    if bytes.len() == 0 {
        assert(contents(log.actions, log.file(source)) + bytes =~= contents(
            log.actions,
            log.file(source),
        ));
        assert(log.actions =~= log.actions.take(log.actions.len() as int));
    } else {
        let opened = log.opened(source, None).actions;
        opening_loses_nothing(log, source, None, log.file(source));
        opening_loses_nothing(log, source, None, target);
        assert(after.actions.drop_last() =~= opened);
        assert(log.actions =~= after.actions.take(log.actions.len() as int));
        if log.per_channel {
            assert forall|own: CoreChannel|
                #[trigger] after.channels.dom().contains(own) || contents(
                    after.actions,
                    LogTarget::Channel(own),
                ) == Seq::<u8>::empty() by {
                if own != source {
                    assert(log.channels.dom().contains(own) == after.channels.dom().contains(own));
                    opening_loses_nothing(log, source, None, LogTarget::Channel(own));
                }
            }
        }
    }
}

/// A new log is empty and tidy. One file for all channels is created at once, and
/// only there lines are labelled; the files of channels are created when they are
/// needed.
pub proof fn new_logs_are_empty(
    per_channel: bool,
    format: LogFormat,
    include_channel: bool,
    show_cores: bool,
    source: CoreChannel,
    target: LogTarget,
)
    ensures
        ({
            let log = LogView::initial(per_channel, format, include_channel, show_cores);
            &&& log.tidy()
            &&& log.per_channel == per_channel
            &&& log.format == format
            &&& log.show_cores == show_cores
            &&& log.tail(source) == Seq::<u8>::empty()
            &&& contents(log.actions, target) == Seq::<u8>::empty()
            &&& log.front(source).len() > 0 ==> include_channel && !per_channel
            &&& include_channel && !per_channel ==> log.front(source) == text::utf8(
                source.tag(show_cores),
            )
            &&& log.actions.contains(ActionView::Open(target)) <==> !per_channel
                && target is Merged
        }),
{
    let log = LogView::initial(per_channel, format, include_channel, show_cores);
    if !per_channel {
        assert(log.actions[0] == ActionView::Open(LogTarget::Merged));
        assert(log.actions.drop_last() =~= seq![]);
    }
    assert(contents(log.actions, target) =~= Seq::<u8>::empty()) by {
        reveal_with_fuel(contents, 2);
    }
}

impl LogView {
    /// Sources of the selection that have an unfinished line.
    pub open spec fn unfinished(self, core: Option<CoreId>) -> spec_fn(CoreChannel) -> bool {
        |source: CoreChannel|
            (core is None || core == Some(source.core)) && self.tail(source).len() > 0
    }

    /// The unfinished line of `source` as it is written out, behind its label.
    pub open spec fn ending(self, newline: bool) -> spec_fn(CoreChannel) -> Seq<u8> {
        |source: CoreChannel|
            self.front(source) + self.tail(source) + if newline {
                seq![LF]
            } else {
                seq![]
            }
    }
}

/// What the unfinished lines of some sources add to a file.
proof fn tails_add_up(
    log: LogView,
    keys: Seq<CoreChannel>,
    core: Option<CoreId>,
    newline: bool,
    target: LogTarget,
)
    requires
        forall|i: int| 0 <= i < keys.len() ==> log.channels.dom().contains(#[trigger] keys[i]),
    ensures
        !empties(log.tail_actions(keys, core, newline), target),
        contents(log.tail_actions(keys, core, newline), target) == joined(
            keys.filter(
                |source: CoreChannel| log.unfinished(core)(source) && log.file(source) == target,
            ).map_values(log.ending(newline)),
        ),
    decreases keys.len(),
{
    reveal(Seq::filter);
    let wanted = |source: CoreChannel| log.unfinished(core)(source) && log.file(source) == target;
    let actions = log.tail_actions(keys, core, newline);
    if keys.len() > 0 {
        let fewer = keys.drop_last();
        assert forall|i: int| 0 <= i < fewer.len() implies log.channels.dom().contains(
            #[trigger] fewer[i],
        ) by {
            assert(fewer[i] == keys[i]);
        }
        tails_add_up(log, fewer, core, newline, target);
        let source = keys.last();
        assert(keys[keys.len() - 1] == source);
        let earlier = log.tail_actions(fewer, core, newline);
        let chosen = fewer.filter(wanted).map_values(log.ending(newline));
        if log.unfinished(core)(source) {
            assert(actions.drop_last() =~= earlier);
            assert forall|i: int| 0 <= i < actions.len() implies #[trigger] actions[i]
                != ActionView::Open(target) by {
                if i < earlier.len() {
                    assert(earlier[i] != ActionView::Open(target));
                }
            }
            assert(log.tag(source) =~= log.front(source));
            if wanted(source) {
                let now = keys.filter(wanted).map_values(log.ending(newline));
                assert(now.drop_last() =~= chosen);
                let spelled = if newline {
                    log.tail(source).push(LF)
                } else {
                    log.tail(source)
                };
                assert(now.last() =~= log.front(source) + spelled);
            }
        }
    } else {
        assert(keys.filter(wanted).map_values(log.ending(newline)) =~= seq![]);
    }
}

/// Flushing a log writes out every unfinished line behind its label, in the order
/// of the sources, and hands all to the operating system; ending the lines of the
/// selected sources also puts a line feed behind each and forgets them. Nothing
/// else changes.
pub proof fn unfinished_lines_are_written_out(
    log: LogView,
    core: Option<CoreId>,
    keys: Seq<CoreChannel>,
    source: CoreChannel,
    target: LogTarget,
)
    requires
        ordered::lists_keys(log.channels, keys),
    ensures
        ({
            let flushed = log.flushed();
            let ended = log.reset(core);
            &&& contents(flushed.actions, target) == contents(log.actions, target) + joined(
                keys.filter(
                    |source: CoreChannel|
                        log.unfinished(None)(source) && log.file(source) == target,
                ).map_values(log.ending(false)),
            )
            &&& flushed.actions.last() is Flush
            &&& flushed.channels == log.channels
            &&& flushed.same_settings(log)
            &&& contents(ended.actions, target) == contents(log.actions, target) + joined(
                keys.filter(
                    |source: CoreChannel|
                        log.unfinished(core)(source) && log.file(source) == target,
                ).map_values(log.ending(true)),
            )
            &&& ended.actions.last() is Flush
            &&& ended.same_settings(log)
            &&& core is None || core == Some(source.core) ==> ended.tail(source)
                == Seq::<u8>::empty()
            &&& core is Some && core != Some(source.core) ==> ended.tail(source) == log.tail(source)
            &&& ended.channels.dom().contains(source) == log.channels.dom().contains(source)
        }),
{
    ordered::keys_have_one_order(log.channels, keys);
    assert forall|i: int| 0 <= i < keys.len() implies log.channels.dom().contains(
        #[trigger] keys[i],
    ) by {
        assert(keys.contains(keys[i]));
    }
    let flushing = log.tail_actions(keys, None, false);
    let ending = log.tail_actions(keys, core, true);
    tails_add_up(log, keys, None, false, target);
    tails_add_up(log, keys, core, true, target);
    actions_add_up(log.actions, flushing, target);
    actions_add_up(log.actions, ending, target);
    assert(log.flushed().actions.drop_last() =~= log.actions + flushing);
    assert(log.reset(core).actions.drop_last() =~= log.actions + ending);
}

/// The name of the file that holds one channel's log: `.c<core>.ch<channel>`
/// goes between the stem (`log` where there is none) and the extension of the
/// configured file name.
pub open spec fn channel_name(
    stem: Option<Seq<u8>>,
    extension: Option<Seq<u8>>,
    source: CoreChannel,
) -> Seq<u8> {
    (match stem {
        Some(stem) => stem,
        None => text::utf8("log"@),
    }) + text::utf8(
        ".c"@ + text::decimal(source.core.index as nat) + ".ch"@ + text::decimal(
            source.channel.number as nat,
        ),
    ) + (match extension {
        Some(extension) => text::utf8("."@) + extension,
        None => seq![],
    })
}

/// Builds the name of one channel's log file from the stem and the extension of
/// the configured file name.
pub fn channel_file_name(
    stem: Option<&[u8]>,
    extension: Option<&[u8]>,
    source: CoreChannel,
) -> (name: Vec<u8>)
    ensures
        name@ == channel_name(
            match stem {
                Some(stem) => Some(stem@),
                None => None,
            },
            match extension {
                Some(extension) => Some(extension@),
                None => None,
            },
            source,
        ),
{
    let mut name: Vec<u8> = Vec::new();
    match stem {
        Some(stem) => text::push_bytes(&mut name, stem),
        None => text::push_text(&mut name, "log"),
    }
    let mut suffix = String::new();
    text::push_str(&mut suffix, ".c");
    text::push_number(&mut suffix, source.core.index as u64, 10);
    text::push_str(&mut suffix, ".ch");
    text::push_number(&mut suffix, source.channel.number as u64, 10);
    proof {
        assert(suffix@ =~= ".c"@ + text::decimal(source.core.index as nat) + ".ch"@
            + text::decimal(source.channel.number as nat));
    }
    text::push_text(&mut name, suffix.as_str());
    if let Some(extension) = extension {
        text::push_text(&mut name, ".");
        text::push_bytes(&mut name, extension);
    }
    proof {
        let ghost_stem = match stem {
            Some(stem) => Some(stem@),
            None => None,
        };
        let ghost_extension = match extension {
            Some(extension) => Some(extension@),
            None => None,
        };
        assert(name@ =~= channel_name(ghost_stem, ghost_extension, source));
    }
    name
}

/// Different sources have different log files, each of which starts with the
/// stem, ends with the extension and names the core and the channel.
#[verifier::rlimit(40)]
pub proof fn log_files_are_told_apart(
    stem: Option<Seq<u8>>,
    extension: Option<Seq<u8>>,
    a: CoreChannel,
    b: CoreChannel,
)
    ensures
        channel_name(stem, extension, a) == channel_name(stem, extension, b) ==> a == b,
        stem is Some && extension is None ==> channel_name(stem, extension, a) == stem->0
            + text::utf8(
            seq!['.', 'c'] + text::decimal(a.core.index as nat) + seq!['.', 'c', 'h']
                + text::decimal(a.channel.number as nat),
        ),
        stem is Some && extension is Some ==> channel_name(stem, extension, a) == channel_name(
            stem,
            None,
            a,
        ) + text::utf8(seq!['.']) + extension->0,
        stem is None ==> channel_name(stem, extension, a) == channel_name(
            Some(text::utf8(seq!['l', 'o', 'g'])),
            extension,
            a,
        ),
{
    reveal_strlit(".c");
    reveal_strlit(".ch");
    reveal_strlit(".");
    reveal_strlit("log");
    assert(".c"@ =~= seq!['.', 'c']);
    assert(".ch"@ =~= seq!['.', 'c', 'h']);
    assert("."@ =~= seq!['.']);
    assert("log"@ =~= seq!['l', 'o', 'g']);
    let front = match stem {
        Some(stem) => stem,
        None => text::utf8("log"@),
    };
    let back = match extension {
        Some(extension) => text::utf8("."@) + extension,
        None => seq![],
    };
    let end_a = seq!['c', 'h'] + text::decimal(a.channel.number as nat);
    let end_b = seq!['c', 'h'] + text::decimal(b.channel.number as nat);
    let middle_a = ".c"@ + text::decimal(a.core.index as nat) + ".ch"@ + text::decimal(
        a.channel.number as nat,
    );
    let middle_b = ".c"@ + text::decimal(b.core.index as nat) + ".ch"@ + text::decimal(
        b.channel.number as nat,
    );
    assert(channel_name(stem, extension, a) =~= front + text::utf8(middle_a) + back);
    assert(channel_name(stem, None, a) + text::utf8("."@) =~= front + text::utf8(middle_a)
        + text::utf8("."@));
    if extension is Some {
        assert(channel_name(stem, extension, a) =~= front + text::utf8(middle_a) + text::utf8(
            "."@,
        ) + extension->0);
    }
    if channel_name(stem, extension, a) == channel_name(stem, extension, b) {
        let name = channel_name(stem, extension, a);
        let from = front.len() as int;
        let to = name.len() - back.len();
        assert(text::utf8(middle_a) =~= name.subrange(from, to));
        assert(channel_name(stem, extension, b) =~= front + text::utf8(middle_b) + back);
        assert(text::utf8(middle_b) =~= name.subrange(from, to));
        vstd::utf8::encode_utf8_decode_utf8(middle_a);
        vstd::utf8::encode_utf8_decode_utf8(middle_b);
        assert(middle_a == middle_b);
        assert(middle_a.skip(2) =~= text::decimal(a.core.index as nat) + seq!['.'] + end_a);
        assert(middle_b.skip(2) =~= text::decimal(b.core.index as nat) + seq!['.'] + end_b);
        text::numbers_end_where_they_end(
            a.core.index as nat,
            b.core.index as nat,
            '.',
            end_a,
            end_b,
        );
        assert(text::decimal(a.channel.number as nat) =~= end_a.skip(2));
        assert(text::decimal(b.channel.number as nat) =~= end_b.skip(2));
        text::written_numbers_read_back(a.channel.number as nat, 10, usize::MAX as int);
        text::written_numbers_read_back(b.channel.number as nat, 10, usize::MAX as int);
    }
}

} // verus!
