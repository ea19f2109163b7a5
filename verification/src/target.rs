//! Cores of a target: what is read from them, when to attach, and what a lost
//! attachment means.
//!
//! Nothing here talks to a probe. Each decision is a function from what is known
//! to what is to be done next; the program around the library does it and reports
//! what came back.
use crate::channel::{channel_by_number, ChannelId, CoreChannel, CoreId};
use crate::cli::{ChannelEncoding, ChannelSpec, SessionPolicy};
use crate::defmt;
use crate::defmt::{
    can_recover, decode_frames, new_stream, DataView, DecodeOutput, DefmtData, FrameStream, OutputView,
    MAX_DECODED_FRAMES, MAX_DECODE_BUFFERED_BYTES,
};
use crate::ordered;
use crate::rtt;
use crate::rtt::{
    IncrementalScan, MemoryRegion, RegionView, RttDiscovery, RttErrorKind, ScanAction, ScanEvent,
    ScanEventView, ScanRegion, ScanView, SCAN_CHUNKS_PER_TICK,
};
use crate::terminal::{DecodedStream, StreamView, TerminalChunk};
use crate::text;
use vstd::prelude::*;

verus! {

/// Time that the first attempt to attach may take, in milliseconds.
pub const RTT_TIMEOUT_MS: u64 = 3_000;

/// Least time between two attempts to attach, in nanoseconds.
pub const RTT_RETRY_INTERVAL: u64 = 500_000_000;

/// Bytes that one read of an up channel asks for at most.
pub const UP_CHANNEL_BUFFER_SIZE: usize = 4_096;

/// Bytes that one poll of a core reads at most.
pub const RTT_READ_BUDGET_PER_POLL: usize = 65_536;

/// Size of the part of a control block before its channels.
pub const CONTROL_BLOCK_HEADER: u64 = 24;

/// Size of one channel's entry in a control block.
pub const CHANNEL_ENTRY: u64 = 24;

/// How the bytes of one up channel are decoded.
pub enum ChannelDecoder<'t> {
    Terminal(DecodedStream),
    Defmt { data: &'t DefmtData, stream: FrameStream<'t>, incomplete_bytes: usize },
}

/// What a `ChannelDecoder` holds. For defmt: its data, what was done with the
/// stream, and a bound on the bytes that are no complete frame yet.
#[verifier::ext_equal]
pub enum DecoderView {
    Terminal(StreamView),
    Defmt(DefmtState),
}

#[verifier::ext_equal]
pub struct DefmtState {
    pub data: DataView,
    pub history: Seq<Option<Seq<u8>>>,
    pub incomplete: int,
}

impl<'t> View for ChannelDecoder<'t> {
    type V = DecoderView;

    open spec fn view(&self) -> DecoderView {
        match self {
            ChannelDecoder::Terminal(stream) => DecoderView::Terminal(stream@),
            ChannelDecoder::Defmt { data, stream, incomplete_bytes } => DecoderView::Defmt(
                DefmtState {
                    data: data@,
                    history: defmt::stream_history(stream),
                    incomplete: *incomplete_bytes as int,
                },
            ),
        }
    }
}

/// The warning about input that never becomes a frame.
pub open spec fn overflow_text() -> Seq<char> {
    "defmt decoder incomplete input exceeded 64 KiB; resetting decoder"@
}

pub open spec fn saturated(n: int) -> int {
    if n > usize::MAX {
        usize::MAX as int
    } else {
        n
    }
}

/// Some result is a frame.
pub open spec fn has_frame(outputs: Seq<OutputView>) -> bool {
    exists|i: int| 0 <= i < outputs.len() && #[trigger] outputs[i] is Frame
}

impl DefmtState {
    /// A decoder that nothing was done with.
    pub open spec fn fresh(data: DataView) -> DefmtState {
        DefmtState { data, history: seq![], incomplete: 0 }
    }

    /// Too much input would pile up without a complete frame.
    pub open spec fn overflows(self, bytes: Seq<u8>) -> bool {
        bytes.len() > 0 && saturated(self.incomplete + bytes.len()) > MAX_DECODE_BUFFERED_BYTES
    }

    /// The decoder that takes `bytes`: the old one, or a new one where the old one
    /// would hold too much.
    pub open spec fn ready_for(self, bytes: Seq<u8>) -> DefmtState {
        if self.overflows(bytes) {
            DefmtState::fresh(self.data)
        } else {
            self
        }
    }

    /// The decoder after `bytes`, the results in order, and whether there may be
    /// more without further bytes.
    pub open spec fn processed(self, bytes: Seq<u8>) -> (DefmtState, Seq<OutputView>, bool) {
        let ready = self.ready_for(bytes);
        let (run, history) = defmt::decoded(
            ready.data,
            ready.history,
            bytes,
            defmt::recovers(ready.data.table),
        );
        let after = if run.restart {
            DefmtState::fresh(self.data)
        } else {
            DefmtState {
                data: self.data,
                history,
                incomplete: if has_frame(run.frames) {
                    bytes.len() as int
                } else {
                    saturated(ready.incomplete + bytes.len())
                },
            }
        };
        let outputs = if self.overflows(bytes) {
            seq![OutputView::Warning(overflow_text())] + run.frames
        } else {
            run.frames
        };
        (after, outputs, run.hit_frame_limit)
    }
}

/// Whether some result is a frame.
fn any_frame(outputs: &Vec<DecodeOutput>) -> (found: bool)
    ensures
        found == has_frame(defmt::output_views(outputs@)),
{
    let ghost views = defmt::output_views(outputs@);
    let mut i: usize = 0;
    while i < outputs.len()
        invariant
            i <= outputs@.len(),
            views == defmt::output_views(outputs@),
            forall|j: int| 0 <= j < i ==> !(#[trigger] views[j] is Frame),
        decreases outputs@.len() - i,
    {
        proof {
            assert(views[i as int] == outputs@[i as int]@);
        }
        if let DecodeOutput::Frame { .. } = &outputs[i] {
            return true;
        }
        i += 1;
    }
    false
}

/// Decoded output of one channel.
pub enum ChannelOutput {
    Terminal(TerminalChunk),
    /// Results in order, and whether asking again may bring more.
    Defmt { outputs: Vec<DecodeOutput>, more: bool },
}

impl<'t> ChannelDecoder<'t> {
    pub closed spec fn wf(&self) -> bool {
        match self {
            ChannelDecoder::Terminal(stream) => stream.wf(),
            ChannelDecoder::Defmt { data, stream, .. } => defmt::stream_table(stream)
                == data@.table,
        }
    }

    /// A fresh decoder for terminal output.
    pub fn terminal() -> (decoder: Self)
        ensures
            decoder.wf(),
            decoder@ == DecoderView::Terminal(StreamView::initial()),
    {
        ChannelDecoder::Terminal(DecodedStream::new())
    }

    /// A fresh decoder for defmt frames.
    pub fn defmt(data: &'t DefmtData) -> (decoder: Self)
        ensures
            decoder.wf(),
            decoder@ == DecoderView::Defmt(DefmtState::fresh(data@)),
    {
        ChannelDecoder::Defmt { data, stream: new_stream(data.table()), incomplete_bytes: 0 }
    }

    /// What a defmt channel is decoded with; nothing for a terminal channel.
    pub fn data(&self) -> (data: Option<&'t DefmtData>)
        ensures
            match (self@, data) {
                (DecoderView::Terminal(_), None) => true,
                (DecoderView::Defmt(state), Some(data)) => data@ == state.data,
                _ => false,
            },
    {
        match self {
            ChannelDecoder::Terminal(_) => None,
            ChannelDecoder::Defmt { data, .. } => Some(*data),
        }
    }

    /// Decodes bytes of a defmt channel; nothing happens on a terminal channel.
    /// The results come in order, with the word whether asking again with no
    /// bytes may bring more.
    pub fn process_defmt(&mut self, bytes: &[u8]) -> (result: (Vec<DecodeOutput>, bool))
        requires
            old(self).wf(),
        ensures
            final(self).wf(),
            match old(self)@ {
                DecoderView::Terminal(_) => final(self)@ == old(self)@ && result.0@.len() == 0
                    && !result.1,
                DecoderView::Defmt(state) => {
                    let (after, outputs, more) = state.processed(bytes@);
                    &&& final(self)@ == DecoderView::Defmt(after)
                    &&& defmt::output_views(result.0@) == outputs
                    &&& result.1 == more
                },
            },
    {
        match self {
            ChannelDecoder::Terminal(_) => (Vec::new(), false),
            ChannelDecoder::Defmt { data, stream, incomplete_bytes } => {
                let ghost before = DefmtState {
                    data: data@,
                    history: defmt::stream_history(stream),
                    incomplete: *incomplete_bytes as int,
                };
                let mut outputs: Vec<DecodeOutput> = Vec::new();
                if bytes.len() > 0 && (*incomplete_bytes).saturating_add(bytes.len())
                    > MAX_DECODE_BUFFERED_BYTES {
                    *stream = new_stream(data.table());
                    *incomplete_bytes = 0;
                    outputs.push(
                        DecodeOutput::Warning(
                            "defmt decoder incomplete input exceeded 64 KiB; resetting decoder".to_string(),
                        ),
                    );
                }
                let ghost warned = defmt::output_views(outputs@);
                let mut decoded = decode_frames(stream, data, bytes, can_recover(data.table()));
                let made_progress = any_frame(&decoded.frames);
                let ghost frames = defmt::output_views(decoded.frames@);
                outputs.append(&mut decoded.frames);
                proof {
                    assert(defmt::output_views(outputs@) =~= warned + frames);
                    if before.overflows(bytes@) {
                        assert(warned =~= seq![OutputView::Warning(overflow_text())]);
                    } else {
                        assert(warned + frames =~= frames);
                    }
                }
                if decoded.restart {
                    *stream = new_stream(data.table());
                    *incomplete_bytes = 0;
                } else if made_progress {
                    // What follows the last frame is at most these bytes.
                    *incomplete_bytes = bytes.len();
                } else {
                    *incomplete_bytes = (*incomplete_bytes).saturating_add(bytes.len());
                }
                (outputs, decoded.hit_frame_limit)
            },
        }
    }

    /// Decodes bytes that were read; `styled` asks for attributes of terminal
    /// output.
    pub fn process(&mut self, bytes: &[u8], styled: bool) -> (output: ChannelOutput)
        requires
            old(self).wf(),
        ensures
            final(self).wf(),
            match (old(self)@, output) {
                (DecoderView::Terminal(stream), ChannelOutput::Terminal(chunk)) => {
                    &&& final(self)@ == DecoderView::Terminal(stream.after_all(bytes@))
                    &&& crate::terminal::line_views(chunk.lines@) == stream.lines(bytes@, styled)
                    &&& chunk.partial@ == stream.after_all(bytes@).partial(styled)
                },
                (DecoderView::Defmt(state), ChannelOutput::Defmt { outputs, more }) => {
                    let (after, results, limited) = state.processed(bytes@);
                    &&& final(self)@ == DecoderView::Defmt(after)
                    &&& defmt::output_views(outputs@) == results
                    &&& more == limited
                },
                _ => false,
            },
    {
        if let ChannelDecoder::Terminal(stream) = self {
            return ChannelOutput::Terminal(stream.consume_chunk(bytes, styled));
        }
        let (outputs, more) = self.process_defmt(bytes);
        ChannelOutput::Defmt { outputs, more }
    }
}

/// A defmt decoder never keeps more than its limit of incomplete input, as long
/// as no single read exceeds the limit.
pub proof fn incomplete_input_stays_bounded(state: DefmtState, bytes: Seq<u8>)
    requires
        0 <= state.incomplete <= MAX_DECODE_BUFFERED_BYTES,
        bytes.len() <= MAX_DECODE_BUFFERED_BYTES,
    ensures
        0 <= state.processed(bytes).0.incomplete <= MAX_DECODE_BUFFERED_BYTES,
{
}

/// One read of a channel brings a bounded number of messages and warnings.
pub proof fn results_are_bounded(state: DefmtState, bytes: Seq<u8>)
    ensures
        state.processed(bytes).1.len() <= MAX_DECODED_FRAMES + 2,
{
    let ready = state.ready_for(bytes);
    defmt::decoding_is_bounded(
        ready.data,
        ready.history.push(Some(bytes)),
        defmt::RunView::initial(),
        defmt::recovers(ready.data.table),
    );
}

/// One up channel of one core.
pub struct UpChannelReader<'t> {
    pub source: CoreChannel,
    pub decoder: ChannelDecoder<'t>,
}

/// What an `UpChannelReader` holds.
#[verifier::ext_equal]
pub struct ReaderView {
    pub source: CoreChannel,
    pub decoder: DecoderView,
}

impl<'t> View for UpChannelReader<'t> {
    type V = ReaderView;

    open spec fn view(&self) -> ReaderView {
        ReaderView { source: self.source, decoder: self.decoder@ }
    }
}

/// The view of optional defmt data.
pub open spec fn data_of(defmt: Option<&DefmtData>) -> Option<DataView> {
    match defmt {
        Some(data) => Some(data@),
        None => None,
    }
}

/// The reader of a selected channel; defmt needs a table.
pub open spec fn reader_for(
    spec: ChannelSpec,
    core: CoreId,
    data: Option<DataView>,
) -> Result<ReaderView, Seq<char>> {
    let source = CoreChannel { core, channel: ChannelId { number: spec.index as usize } };
    match (spec.mode, data) {
        (ChannelEncoding::Terminal, _) => Ok(
            ReaderView { source, decoder: DecoderView::Terminal(StreamView::initial()) },
        ),
        (ChannelEncoding::Defmt, Some(data)) => Ok(
            ReaderView { source, decoder: DecoderView::Defmt(DefmtState::fresh(data)) },
        ),
        (ChannelEncoding::Defmt, None) => Err(
            "missing defmt table for channel "@ + text::decimal(spec.index as nat) + ""@,
        ),
    }
}

impl<'t> UpChannelReader<'t> {
    pub open spec fn wf(&self) -> bool {
        self.decoder.wf()
    }

    pub fn new(spec: ChannelSpec, core: CoreId, defmt: Option<&'t DefmtData>) -> (result: Result<
        Self,
        String,
    >)
        ensures
            match result {
                Ok(reader) => reader.wf() && reader_for(spec, core, data_of(defmt)) == Ok::<
                    ReaderView,
                    Seq<char>,
                >(reader@),
                Err(message) => reader_for(spec, core, data_of(defmt)) == Err::<
                    ReaderView,
                    Seq<char>,
                >(message@),
            },
    {
        let channel = match ChannelId::from_cli(spec.index, "up") {
            Ok(channel) => channel,
            Err(error) => {
                return Err(error.message());
            },
        };
        let decoder = match (spec.mode, defmt) {
            (ChannelEncoding::Terminal, _) => ChannelDecoder::terminal(),
            (ChannelEncoding::Defmt, Some(data)) => ChannelDecoder::defmt(data),
            (ChannelEncoding::Defmt, None) => {
                let number = text::decimal_text(spec.index as u64);
                return Err(
                    text::join3("missing defmt table for channel ", number.as_str(), ""),
                );
            },
        };
        Ok(UpChannelReader { source: CoreChannel { core, channel }, decoder })
    }
}

/// The readers of one core, in the order of the selection; the first that cannot
/// be set up decides the error.
pub open spec fn readers_for(
    specs: Seq<ChannelSpec>,
    core: CoreId,
    data: Option<DataView>,
) -> Result<Seq<ReaderView>, Seq<char>>
    decreases specs.len(),
{
    if specs.len() == 0 {
        Ok(seq![])
    } else {
        match readers_for(specs.drop_last(), core, data) {
            Err(message) => Err(message),
            Ok(earlier) => if specs.last().reaches(core.index) {
                match reader_for(specs.last(), core, data) {
                    Err(message) => Err(message),
                    Ok(reader) => Ok(earlier.push(reader)),
                }
            } else {
                Ok(earlier)
            },
        }
    }
}

/// The views of a list of readers.
pub open spec fn reader_views(readers: Seq<UpChannelReader<'_>>) -> Seq<ReaderView> {
    Seq::new(readers.len(), |i: int| readers[i]@)
}

/// All readers are in order.
pub open spec fn readers_wf(readers: Seq<UpChannelReader<'_>>) -> bool {
    forall|i: int| 0 <= i < readers.len() ==> (#[trigger] readers[i]).wf()
}

proof fn first_bad_reader_decides(
    specs: Seq<ChannelSpec>,
    prefix: int,
    core: CoreId,
    data: Option<DataView>,
)
    requires
        0 <= prefix <= specs.len(),
        readers_for(specs.take(prefix), core, data) is Err,
    ensures
        readers_for(specs, core, data) == readers_for(specs.take(prefix), core, data),
    decreases specs.len(),
{
    if prefix == specs.len() {
        assert(specs.take(prefix) =~= specs);
    } else {
        assert(specs.drop_last().take(prefix) =~= specs.take(prefix));
        first_bad_reader_decides(specs.drop_last(), prefix, core, data);
    }
}

fn build_readers<'t>(specs: &[ChannelSpec], core: CoreId, defmt: Option<&'t DefmtData>) -> (result:
    Result<Vec<UpChannelReader<'t>>, String>)
    ensures
        match result {
            Ok(readers) => readers_wf(readers@) && readers_for(specs@, core, data_of(defmt))
                == Ok::<Seq<ReaderView>, Seq<char>>(reader_views(readers@)),
            Err(message) => readers_for(specs@, core, data_of(defmt)) == Err::<
                Seq<ReaderView>,
                Seq<char>,
            >(message@),
        },
{
    let ghost data = data_of(defmt);
    let mut readers: Vec<UpChannelReader<'t>> = Vec::new();
    let mut i: usize = 0;
    proof {
        assert(specs@.take(0) =~= Seq::<ChannelSpec>::empty());
        assert(reader_views(readers@) =~= Seq::<ReaderView>::empty());
    }
    while i < specs.len()
        invariant
            i <= specs@.len(),
            data == data_of(defmt),
            readers_wf(readers@),
            readers_for(specs@.take(i as int), core, data) == Ok::<Seq<ReaderView>, Seq<char>>(
                reader_views(readers@),
            ),
        decreases specs@.len() - i,
    {
        proof {
            assert(specs@.take(i as int + 1).drop_last() =~= specs@.take(i as int));
            assert(specs@.take(i as int + 1).last() == specs@[i as int]);
        }
        if specs[i].applies_to(core.index) {
            match UpChannelReader::new(specs[i], core, defmt) {
                Ok(reader) => {
                    let ghost earlier = reader_views(readers@);
                    readers.push(reader);
                    proof {
                        assert(reader_views(readers@) =~= earlier.push(reader@));
                    }
                },
                Err(message) => {
                    proof {
                        first_bad_reader_decides(specs@, i as int + 1, core, data);
                    }
                    return Err(message);
                },
            }
        }
        i += 1;
    }
    proof {
        assert(specs@.take(specs@.len() as int) =~= specs@);
    }
    Ok(readers)
}

/// The first selected channel that the core does not have.
pub open spec fn missing_up(specs: Seq<ChannelSpec>, core: CoreId, numbers: Seq<usize>) -> Option<
    Seq<char>,
>
    decreases specs.len(),
{
    if specs.len() == 0 {
        None
    } else {
        match missing_up(specs.drop_last(), core, numbers) {
            Some(message) => Some(message),
            None => if specs.last().reaches(core.index) && !numbers.contains(
                specs.last().index as usize,
            ) {
                Some(
                    "up channel "@ + text::decimal(specs.last().index as nat)
                        + " does not exist on core "@ + text::decimal(core.index as nat) + "."@,
                )
            } else {
                None
            },
        }
    }
}

/// Checks that a core has every channel that is selected on it.
pub fn validate_up_specs(numbers: &[usize], specs: &[ChannelSpec], core: CoreId) -> (result: Result<
    (),
    String,
>)
    ensures
        match result {
            Ok(()) => missing_up(specs@, core, numbers@) is None,
            Err(message) => missing_up(specs@, core, numbers@) == Some(message@),
        },
{
    let mut error: Option<String> = None;
    let mut i: usize = 0;
    proof {
        assert(specs@.take(0) =~= Seq::<ChannelSpec>::empty());
    }
    while i < specs.len()
        invariant
            i <= specs@.len(),
            crate::cli::message_view(error) == missing_up(specs@.take(i as int), core, numbers@),
        decreases specs@.len() - i,
    {
        proof {
            assert(specs@.take(i as int + 1).drop_last() =~= specs@.take(i as int));
            assert(specs@.take(i as int + 1).last() == specs@[i as int]);
        }
        let spec = specs[i];
        if error.is_none() && spec.applies_to(core.index) {
            let channel = match ChannelId::from_cli(spec.index, "up") {
                Ok(channel) => channel,
                Err(error) => {
                    return Err(error.message());
                },
            };
            if channel_by_number(numbers, channel).is_none() {
                let number = text::decimal_text(spec.index as u64);
                let mut message = text::join3(
                    "up channel ",
                    number.as_str(),
                    " does not exist on core ",
                );
                text::push_number(&mut message, core.index as u64, 10);
                text::push_str(&mut message, ".");
                error = Some(message);
            }
        }
        i += 1;
    }
    proof {
        assert(specs@.take(specs@.len() as int) =~= specs@);
    }
    match error {
        Some(message) => Err(message),
        None => Ok(()),
    }
}

/// Channels of a core are read in turn until nothing comes or the budget of the
/// poll is used up. Each poll starts with another channel.
#[derive(Clone, Copy, Debug, PartialEq, Eq, Structural)]
pub struct PollRun {
    /// How many channels there are.
    pub readers: usize,
    /// The channel that goes first.
    pub start: usize,
    /// How many had their turn in this round.
    pub offset: usize,
    /// Bytes that may still be read.
    pub budget: usize,
    /// Some channel of this round had data.
    pub progressed: bool,
    pub bytes: usize,
    pub messages: usize,
}

/// A read of one channel, by its place in the list.
#[derive(Clone, Copy, Debug, PartialEq, Eq, Structural)]
pub struct ChannelRead {
    pub reader: usize,
    pub max: usize,
}

impl PollRun {
    pub open spec fn wf(self) -> bool {
        &&& self.readers > 0 ==> self.start < self.readers
        &&& self.offset <= self.readers
        &&& self.bytes + self.budget == RTT_READ_BUDGET_PER_POLL
        &&& self.messages <= self.bytes
    }

    /// Whether the poll is over.
    pub open spec fn over(self) -> bool {
        self.readers == 0 || self.budget == 0 || (self.offset == self.readers && !self.progressed)
    }

    /// The poll with a new round begun where one ended.
    pub open spec fn round(self) -> PollRun {
        if self.offset == self.readers {
            PollRun { offset: 0, progressed: false, ..self }
        } else {
            self
        }
    }

    /// The next read of a poll that is not over.
    pub open spec fn read(self) -> ChannelRead {
        let turn = self.start + self.round().offset;
        ChannelRead {
            reader: (if turn >= self.readers {
                turn - self.readers
            } else {
                turn
            }) as usize,
            max: if self.budget < UP_CHANNEL_BUFFER_SIZE {
                self.budget
            } else {
                UP_CHANNEL_BUFFER_SIZE
            },
        }
    }

    /// The poll after a read that gave `count` bytes.
    pub open spec fn reported(self, count: usize, terminal: bool) -> PollRun {
        PollRun {
            offset: (self.offset + 1) as usize,
            budget: (self.budget - count) as usize,
            progressed: self.progressed || count > 0,
            bytes: (self.bytes + count) as usize,
            messages: (self.messages + if count > 0 && terminal {
                1int
            } else {
                0int
            }) as usize,
            ..self
        }
    }

    /// A poll of `readers` channels that starts with channel `start`.
    pub fn new(readers: usize, start: usize) -> (run: Self)
        requires
            readers > 0 ==> start < readers,
        ensures
            run.wf(),
            run == (PollRun {
                readers,
                start,
                offset: 0,
                budget: RTT_READ_BUDGET_PER_POLL,
                progressed: false,
                bytes: 0,
                messages: 0,
            }),
    {
        PollRun {
            readers,
            start,
            offset: 0,
            budget: RTT_READ_BUDGET_PER_POLL,
            progressed: false,
            bytes: 0,
            messages: 0,
        }
    }

    /// The next read, or nothing when the poll is over.
    pub fn next(&mut self) -> (read: Option<ChannelRead>)
        requires
            old(self).wf(),
        ensures
            final(self).wf(),
            match read {
                None => old(self).over() && *final(self) == *old(self),
                Some(read) => {
                    &&& !old(self).over()
                    &&& *final(self) == old(self).round()
                    &&& read == old(self).read()
                    &&& read.reader < final(self).readers
                    &&& 0 < read.max <= final(self).budget
                },
            },
    {
        if self.readers == 0 || self.budget == 0 {
            return None;
        }
        if self.offset == self.readers {
            if !self.progressed {
                return None;
            }
            self.offset = 0;
            self.progressed = false;
        }
        let reader: usize = if self.offset >= self.readers - self.start {
            self.offset - (self.readers - self.start)
        } else {
            self.start + self.offset
        };
        let max: usize = if self.budget < UP_CHANNEL_BUFFER_SIZE {
            self.budget
        } else {
            UP_CHANNEL_BUFFER_SIZE
        };
        Some(ChannelRead { reader, max })
    }

    /// Takes the outcome of the read that was asked for.
    pub fn report(&mut self, count: usize, terminal: bool)
        requires
            old(self).wf(),
            old(self).offset < old(self).readers,
            count <= old(self).budget,
        ensures
            final(self).wf(),
            *final(self) == old(self).reported(count, terminal),
    {
        self.offset = self.offset + 1;
        if count > 0 {
            self.progressed = true;
            self.budget = self.budget - count;
            self.bytes = self.bytes + count;
            if terminal {
                self.messages = self.messages + 1;
            }
        }
    }
}

/// Within a round every channel has exactly one turn: the turns of a round are
/// the channels in order, from the first one round to the one before it.
pub proof fn every_channel_has_its_turn(run: PollRun, a: int, b: int)
    requires
        run.wf(),
        0 <= a < b < run.readers,
    ensures
        ({
            let first = PollRun { offset: a as usize, ..run };
            let second = PollRun { offset: b as usize, ..run };
            &&& first.read().reader != second.read().reader
            &&& first.read().reader < run.readers
            &&& second.read().reader == (first.read().reader + (b - a)) % (run.readers as int)
        }),
{
    let count = run.readers as int;
    let first = (PollRun { offset: a as usize, ..run }).read().reader as int;
    let second = (PollRun { offset: b as usize, ..run }).read().reader as int;
    if first + (b - a) < count {
        assert((first + (b - a)) % count == first + (b - a)) by (nonlinear_arith)
            requires
                0 <= first + (b - a) < count,
        ;
    } else {
        assert((first + (b - a)) % count == first + (b - a) - count) by (nonlinear_arith)
            requires
                count <= first + (b - a) < 2 * count,
        ;
    }
}

/// A poll that reads anything comes nearer to its end with every read.
pub proof fn polls_come_to_an_end(run: PollRun, count: usize, terminal: bool)
    requires
        run.wf(),
        run.offset < run.readers,
        count <= run.budget,
    ensures
        ({
            let after = run.reported(count, terminal);
            after.budget < run.budget || (after.budget == run.budget && after.offset > run.offset
                && after.progressed == run.progressed)
        }),
{
}

/// One entry of a control block and the fields of it that do not change while it
/// is valid.
#[derive(Clone, Copy, Debug, PartialEq, Eq)]
pub struct MetadataEntry {
    pub address: u64,
    pub fields: (u32, u32, u32),
}

/// What a control block looked like when it was attached.
#[derive(Debug)]
pub struct MetadataSnapshot {
    pub rtt_ptr: u64,
    /// Numbers of up and of down channels.
    pub counts: (u32, u32),
    pub entries: Vec<MetadataEntry>,
}

/// What a `MetadataSnapshot` holds.
#[verifier::ext_equal]
pub struct SnapshotView {
    pub rtt_ptr: u64,
    pub counts: (u32, u32),
    pub entries: Seq<MetadataEntry>,
}

impl View for MetadataSnapshot {
    type V = SnapshotView;

    open spec fn view(&self) -> SnapshotView {
        SnapshotView { rtt_ptr: self.rtt_ptr, counts: self.counts, entries: self.entries@ }
    }
}

/// One part of a control block to read again and compare.
#[derive(Clone, Copy, Debug, PartialEq, Eq)]
pub enum Expectation {
    /// The magic at this address.
    Magic { address: u64 },
    /// These two words.
    Counts { address: u64, words: (u32, u32) },
    /// These three words.
    Fields { address: u64, fields: (u32, u32, u32) },
}

/// What was read.
#[derive(Debug)]
pub enum Reading {
    Bytes(Vec<u8>),
    Two((u32, u32)),
    Three((u32, u32, u32)),
}

impl Expectation {
    /// What was read is what is expected.
    pub open spec fn met(self, reading: Reading) -> bool {
        match (self, reading) {
            (Expectation::Magic { .. }, Reading::Bytes(bytes)) => bytes@ == rtt::magic(),
            (Expectation::Counts { words, .. }, Reading::Two(read)) => words == read,
            (Expectation::Fields { fields, .. }, Reading::Three(read)) => fields == read,
            _ => false,
        }
    }

    pub fn met_by(&self, reading: &Reading) -> (met: bool)
        ensures
            met == self.met(*reading),
    {
        match (self, reading) {
            (Expectation::Magic { .. }, Reading::Bytes(bytes)) => text::same_bytes(
                bytes.as_slice(),
                rtt::RTT_MAGIC.as_bytes(),
            ),
            (Expectation::Counts { words, .. }, Reading::Two(read)) => words.0 == read.0 && words.1
                == read.1,
            (Expectation::Fields { fields, .. }, Reading::Three(read)) => fields.0 == read.0
                && fields.1 == read.1 && fields.2 == read.2,
            _ => false,
        }
    }
}

impl SnapshotView {
    /// The parts to compare, in order: the magic, the channel counts, the entries.
    pub open spec fn expectation(self, step: int) -> Option<Expectation> {
        if step == 0 {
            Some(Expectation::Magic { address: self.rtt_ptr })
        } else if step == 1 {
            Some(
                Expectation::Counts { address: (self.rtt_ptr + 16) as u64, words: self.counts },
            )
        } else if 2 <= step < self.entries.len() + 2 {
            let entry = self.entries[step - 2];
            Some(Expectation::Fields { address: entry.address, fields: entry.fields })
        } else {
            None
        }
    }
}

impl MetadataSnapshot {
    /// What to read in this step of a check; nothing once all parts were compared.
    pub fn metadata_valid(&self, step: usize) -> (expectation: Option<Expectation>)
        requires
            self@.rtt_ptr <= u32::MAX,
        ensures
            expectation == self@.expectation(step as int),
    {
        if step == 0 {
            return Some(Expectation::Magic { address: self.rtt_ptr });
        }
        if step == 1 {
            return Some(
                Expectation::Counts { address: self.rtt_ptr + 16, words: self.counts },
            );
        }
        if step - 2 < self.entries.len() {
            let entry = self.entries[step - 2];
            return Some(Expectation::Fields { address: entry.address, fields: entry.fields });
        }
        None
    }
}

/// What a comparison of a control block with its record asks for next.
#[derive(Clone, Copy, Debug, PartialEq, Eq)]
pub enum CheckStep {
    /// Read this part and report it.
    Read(Expectation),
    /// All parts are as recorded.
    Valid,
    /// Some part is not.
    Changed,
}

/// A comparison of a control block with its record, part by part. It ends at the
/// first part that differs.
#[derive(Clone, Copy, Debug, PartialEq, Eq)]
pub struct MetadataCheck {
    pub step: usize,
    pub changed: bool,
}

impl MetadataCheck {
    /// What to do next.
    pub open spec fn next_step(self, snapshot: SnapshotView) -> CheckStep {
        if self.changed {
            CheckStep::Changed
        } else {
            match snapshot.expectation(self.step as int) {
                Some(expectation) => CheckStep::Read(expectation),
                None => CheckStep::Valid,
            }
        }
    }

    /// The comparison after one more part was read.
    pub open spec fn reported(self, snapshot: SnapshotView, reading: Reading) -> MetadataCheck {
        match self.next_step(snapshot) {
            CheckStep::Read(expectation) => if expectation.met(reading) {
                MetadataCheck { step: (self.step + 1) as usize, ..self }
            } else {
                MetadataCheck { changed: true, ..self }
            },
            _ => self,
        }
    }

    /// The comparison after these parts were read.
    pub open spec fn over(snapshot: SnapshotView, readings: Seq<Reading>) -> MetadataCheck
        decreases readings.len(),
    {
        if readings.len() == 0 {
            MetadataCheck { step: 0, changed: false }
        } else {
            MetadataCheck::over(snapshot, readings.drop_last()).reported(snapshot, readings.last())
        }
    }

    pub fn new() -> (check: Self)
        ensures
            check == (MetadataCheck { step: 0, changed: false }),
    {
        MetadataCheck { step: 0, changed: false }
    }

    /// What to do next.
    pub fn next(&self, snapshot: &MetadataSnapshot) -> (next: CheckStep)
        requires
            snapshot@.rtt_ptr <= u32::MAX,
        ensures
            next == self.next_step(snapshot@),
    {
        if self.changed {
            return CheckStep::Changed;
        }
        match snapshot.metadata_valid(self.step) {
            Some(expectation) => CheckStep::Read(expectation),
            None => CheckStep::Valid,
        }
    }

    /// Takes what was read.
    pub fn report(&mut self, snapshot: &MetadataSnapshot, reading: &Reading)
        requires
            snapshot@.rtt_ptr <= u32::MAX,
            snapshot@.entries.len() + 2 <= usize::MAX,
        ensures
            *final(self) == old(self).reported(snapshot@, *reading),
    {
        if let CheckStep::Read(expectation) = self.next(snapshot) {
            if expectation.met_by(reading) {
                self.step = self.step + 1;
            } else {
                self.changed = true;
            }
        }
    }
}

/// Reading `i` is what is expected in its place.
pub open spec fn as_recorded(snapshot: SnapshotView, readings: Seq<Reading>, i: int) -> bool {
    snapshot.expectation(i) matches Some(expectation) && expectation.met(readings[i])
}

/// A control block counts as valid exactly when all its parts were read and each
/// is as recorded; one part that differs decides that it changed.
pub proof fn comparison_finds_every_change(snapshot: SnapshotView, readings: Seq<Reading>)
    requires
        snapshot.entries.len() + 2 <= usize::MAX,
        readings.len() <= snapshot.entries.len() + 2,
    ensures
        ({
            let check = MetadataCheck::over(snapshot, readings);
            let all_met = forall|i: int|
                0 <= i < readings.len() ==> #[trigger] as_recorded(snapshot, readings, i);
            &&& check.changed == !all_met
            &&& all_met ==> check.step == readings.len()
            &&& check.next_step(snapshot) is Changed <==> !all_met
            &&& check.next_step(snapshot) is Valid <==> all_met && readings.len()
                == snapshot.entries.len() + 2
        }),
    decreases readings.len(),
{
    if readings.len() > 0 {
        let fewer = readings.drop_last();
        let last = readings.len() - 1;
        comparison_finds_every_change(snapshot, fewer);
        assert forall|i: int| 0 <= i < last implies #[trigger] as_recorded(snapshot, fewer, i)
            == as_recorded(snapshot, readings, i) by {
            assert(fewer[i] == readings[i]);
        }
        let before = MetadataCheck::over(snapshot, fewer);
        if before.changed {
            let i = choose|i: int| 0 <= i < last && !(#[trigger] as_recorded(snapshot, fewer, i));
            assert(!as_recorded(snapshot, readings, i));
        } else {
            assert(snapshot.expectation(last) is Some);
            assert(readings[last] == readings.last());
            assert forall|i: int| 0 <= i < last implies #[trigger] as_recorded(
                snapshot,
                readings,
                i,
            ) by {
                assert(as_recorded(snapshot, fewer, i));
            }
            if !snapshot.expectation(last)->0.met(readings.last()) {
                assert(!as_recorded(snapshot, readings, last));
            } else {
                assert(as_recorded(snapshot, readings, last));
            }
        }
    }
}

/// RTT input and output of one attached core.
pub struct TargetIo<'t> {
    pub id: CoreId,
    pub rtt_ptr: u64,
    pub down_channel: Option<ChannelId>,
    pub down_present: bool,
    pub readers: Vec<UpChannelReader<'t>>,
    pub next_reader: usize,
    pub snapshot: MetadataSnapshot,
}

/// What a `TargetIo` holds.
#[verifier::ext_equal]
pub struct IoView {
    pub id: CoreId,
    pub rtt_ptr: u64,
    pub down_channel: Option<ChannelId>,
    pub down_present: bool,
    pub readers: Seq<ReaderView>,
    pub next_reader: int,
    pub snapshot: SnapshotView,
}

impl<'t> View for TargetIo<'t> {
    type V = IoView;

    open spec fn view(&self) -> IoView {
        IoView {
            id: self.id,
            rtt_ptr: self.rtt_ptr,
            down_channel: self.down_channel,
            down_present: self.down_present,
            readers: reader_views(self.readers@),
            next_reader: self.next_reader as int,
            snapshot: self.snapshot@,
        }
    }
}

/// The down channel is among the channels with these numbers.
pub open spec fn has_down(channel: Option<ChannelId>, numbers: Seq<usize>) -> bool {
    channel matches Some(channel) && numbers.contains(channel.number)
}

/// The address of entry `index` of a control block.
pub open spec fn entry_address(rtt_ptr: u64, index: int) -> int {
    rtt_ptr + CONTROL_BLOCK_HEADER + index * CHANNEL_ENTRY
}

impl IoView {
    /// Addresses and channel numbers are those of a 32-bit target.
    pub open spec fn fits(self) -> bool {
        &&& self.rtt_ptr <= u32::MAX
        &&& self.snapshot.rtt_ptr == self.rtt_ptr
        &&& self.down_channel matches Some(channel) ==> channel.number <= u32::MAX
        &&& forall|i: int|
            0 <= i < self.readers.len() ==> (#[trigger] self.readers[i]).source.channel.number
                <= u32::MAX
        &&& self.readers.len() > 0 ==> 0 <= self.next_reader < self.readers.len()
    }

    /// The entries of a control block that this core uses: its up channels, then
    /// the down channel, whose entry stands behind those of all up channels.
    pub open spec fn entry_addresses(self, up_count: u32) -> Seq<u64> {
        let ups = Seq::new(
            self.readers.len(),
            |i: int|
                entry_address(self.rtt_ptr, self.readers[i].source.channel.number as int) as u64,
        );
        if self.down_present {
            ups.push(
                entry_address(self.rtt_ptr, up_count + self.down_channel->0.number) as u64,
            )
        } else {
            ups
        }
    }
}

proof fn readers_have_small_numbers(
    specs: Seq<ChannelSpec>,
    core: CoreId,
    data: Option<DataView>,
)
    requires
        readers_for(specs, core, data) is Ok,
    ensures
        ({
            let readers = readers_for(specs, core, data)->Ok_0;
            forall|i: int|
                0 <= i < readers.len() ==> (#[trigger] readers[i]).source.channel.number <= u32::MAX
        }),
    decreases specs.len(),
{
    if specs.len() > 0 {
        readers_have_small_numbers(specs.drop_last(), core, data);
    }
}

impl<'t> TargetIo<'t> {
    pub open spec fn wf(&self) -> bool {
        readers_wf(self.readers@) && self@.fits()
    }

    /// Sets up a core whose control block was found at `rtt_ptr` and has channels
    /// with these numbers. What the block looks like is still to be read.
    pub fn new(
        rtt_ptr: u64,
        id: CoreId,
        defmt: Option<&'t DefmtData>,
        policy: &SessionPolicy,
        up_numbers: &[usize],
        down_numbers: &[usize],
    ) -> (result: Result<Self, String>)
        requires
            rtt_ptr <= u32::MAX,
            policy.down_channel matches Some(channel) ==> channel.number <= u32::MAX,
        ensures
            ({
                let readers = readers_for(policy.up_specs@, id, data_of(defmt));
                let missing = missing_up(policy.up_specs@, id, up_numbers@);
                match (readers, missing) {
                    (Err(message), _) => result matches Err(e) && e@ == message,
                    (Ok(_), Some(message)) => result matches Err(e) && e@ == message,
                    (Ok(readers), None) => {
                        &&& result matches Ok(target)
                        &&& target.wf()
                        &&& target@ == (IoView {
                            id,
                            rtt_ptr,
                            down_channel: policy.down_channel,
                            down_present: has_down(policy.down_channel, down_numbers@),
                            readers,
                            next_reader: 0,
                            snapshot: SnapshotView { rtt_ptr, counts: (0, 0), entries: seq![] },
                        })
                    },
                }
            }),
    {
        let readers = match build_readers(policy.up_specs.as_slice(), id, defmt) {
            Ok(readers) => readers,
            Err(message) => {
                return Err(message);
            },
        };
        if let Err(message) = validate_up_specs(up_numbers, policy.up_specs.as_slice(), id) {
            return Err(message);
        }
        let mut target = TargetIo {
            id,
            rtt_ptr,
            down_channel: policy.down_channel,
            down_present: false,
            readers,
            next_reader: 0,
            snapshot: MetadataSnapshot { rtt_ptr, counts: (0, 0), entries: Vec::new() },
        };
        proof {
            readers_have_small_numbers(policy.up_specs@, id, data_of(defmt));
            assert(target@.snapshot.entries =~= seq![]);
        }
        target.refresh_down(down_numbers);
        Ok(target)
    }

    /// The entries of the control block to read, once the number of its up
    /// channels is known.
    pub fn metadata_addresses(&self, up_count: u32) -> (addresses: Vec<u64>)
        requires
            self.wf(),
            self@.down_present ==> self@.down_channel is Some,
        ensures
            addresses@ == self@.entry_addresses(up_count),
    {
        let ghost all = self@.entry_addresses(up_count);
        let mut addresses: Vec<u64> = Vec::new();
        let mut i: usize = 0;
        while i < self.readers.len()
            invariant
                i <= self.readers@.len(),
                self.wf(),
                all == self@.entry_addresses(up_count),
                addresses@ == all.take(i as int),
            decreases self.readers@.len() - i,
        {
            proof {
                assert(self@.readers[i as int] == self.readers@[i as int]@);
            }
            let number: u64 = self.readers[i].source.channel.number as u64;
            let address: u64 = self.rtt_ptr + CONTROL_BLOCK_HEADER + number * CHANNEL_ENTRY;
            addresses.push(address);
            i += 1;
            proof {
                assert(addresses@ =~= all.take(i as int));
            }
        }
        if self.down_present {
            if let Some(channel) = self.down_channel {
                let index: u64 = up_count as u64 + channel.number as u64;
                addresses.push(self.rtt_ptr + CONTROL_BLOCK_HEADER + index * CHANNEL_ENTRY);
            }
        }
        proof {
            assert(addresses@ =~= all);
        }
        addresses
    }

    /// Remembers what the control block looks like.
    pub fn remember(&mut self, counts: (u32, u32), entries: Vec<MetadataEntry>)
        requires
            old(self).wf(),
        ensures
            final(self).wf(),
            final(self)@ == (IoView {
                snapshot: SnapshotView {
                    rtt_ptr: old(self)@.rtt_ptr,
                    counts,
                    entries: entries@,
                },
                ..old(self)@
            }),
    {
        self.snapshot = MetadataSnapshot { rtt_ptr: self.rtt_ptr, counts, entries };
    }

    /// Looks for the down channel again.
    pub fn refresh_down(&mut self, down_numbers: &[usize])
        requires
            old(self).wf(),
        ensures
            final(self).wf(),
            final(self)@ == (IoView {
                down_present: has_down(old(self)@.down_channel, down_numbers@),
                ..old(self)@
            }),
    {
        let present = match self.down_channel {
            Some(channel) => channel_by_number(down_numbers, channel).is_some(),
            None => false,
        };
        proof {
            if let Some(channel) = self.down_channel {
                if down_numbers@.contains(channel.number) {
                    let j = choose|j: int|
                        0 <= j < down_numbers@.len() && down_numbers@[j] == channel.number;
                    assert(down_numbers@[j] == channel.number);
                }
            }
        }
        self.down_present = present;
    }

    /// Begins a poll; the next one will begin with the next channel.
    pub fn poll(&mut self) -> (run: PollRun)
        requires
            old(self).wf(),
        ensures
            final(self).wf(),
            run.wf(),
            run == (PollRun {
                readers: old(self)@.readers.len() as usize,
                start: old(self)@.next_reader as usize,
                offset: 0,
                budget: RTT_READ_BUDGET_PER_POLL,
                progressed: false,
                bytes: 0,
                messages: 0,
            }),
            final(self)@ == (IoView {
                next_reader: if old(self)@.readers.len() == 0 {
                    old(self)@.next_reader
                } else if old(self)@.next_reader + 1 == old(self)@.readers.len() {
                    0
                } else {
                    old(self)@.next_reader + 1
                },
                ..old(self)@
            }),
    {
        let len: usize = self.readers.len();
        let start: usize = self.next_reader;
        if len > 0 {
            self.next_reader = if start + 1 == len {
                0
            } else {
                start + 1
            };
        }
        PollRun::new(len, start)
    }

    /// What may be written now: nothing without a down channel or without bytes.
    pub fn write_down(&self, data: &[u8], down_numbers: &[usize]) -> (position: Option<usize>)
        ensures
            match position {
                Some(i) => {
                    &&& data@.len() > 0
                    &&& self@.down_channel is Some
                    &&& i < down_numbers@.len()
                    &&& down_numbers@[i as int] == self@.down_channel->0.number
                    &&& forall|j: int| 0 <= j < i ==> down_numbers@[j] != self@.down_channel->0.number
                },
                None => data@.len() == 0 || !has_down(self@.down_channel, down_numbers@),
            },
    {
        match self.down_channel {
            Some(channel) => if data.len() == 0 {
                None
            } else {
                channel_by_number(down_numbers, channel)
            },
            None => None,
        }
    }
}

/// A message about a core: `core <id>`, then the rest.
pub open spec fn core_text(id: CoreId, middle: Seq<char>, error: Seq<char>, end: Seq<char>) -> Seq<
    char,
> {
    "core "@ + text::decimal(id.index as nat) + middle + error + end
}

fn core_message(id: CoreId, middle: &str, error: &str, end: &str) -> (message: String)
    ensures
        message@ == core_text(id, middle@, error@, end@),
{
    let number = text::decimal_text(id.index as u64);
    let mut message = text::join3("core ", number.as_str(), middle);
    text::push_str(&mut message, error);
    text::push_str(&mut message, end);
    message
}

/// The word on targets that cannot be used.
pub open spec fn wide_target_text() -> Seq<char> {
    "64-bit targets are not supported until probe-rs fixes 32-bit RTT offset writes on 64-bit targets"@
}

/// Only 32-bit targets can be used.
pub fn ensure_rtt_compatible_target(is_64_bit: bool) -> (result: Result<(), String>)
    ensures
        match result {
            Ok(()) => !is_64_bit,
            Err(message) => is_64_bit && message@ == wide_target_text(),
        },
{
    if is_64_bit {
        return Err(
            "64-bit targets are not supported until probe-rs fixes 32-bit RTT offset writes on 64-bit targets".to_string(),
        );
    }
    Ok(())
}

/// The word on a core that the target does not have.
pub open spec fn out_of_range_text(id: CoreId, target: Seq<char>, core_count: nat) -> Seq<char> {
    "--elf index "@ + text::decimal(id.index as nat) + " out of range: target '"@ + target
        + "' has "@ + text::decimal(core_count) + " core(s)"@
}

/// Checks that the target has a core.
fn check_core_index(id: CoreId, target: &str, core_count: usize) -> (result: Result<(), String>)
    ensures
        match result {
            Ok(()) => id.index < core_count,
            Err(message) => id.index >= core_count && message@ == out_of_range_text(
                id,
                target@,
                core_count as nat,
            ),
        },
{
    if (id.index as u64) < core_count as u64 {
        return Ok(());
    }
    let number = text::decimal_text(id.index as u64);
    let mut message = text::join3("--elf index ", number.as_str(), " out of range: target '");
    text::push_str(&mut message, target);
    text::push_str(&mut message, "' has ");
    text::push_number(&mut message, core_count as u64, 10);
    text::push_str(&mut message, " core(s)");
    Err(message)
}

/// How an attempt to attach ended.
#[derive(Debug)]
pub enum SlotAttach {
    AlreadyAttached,
    /// Attached, for the first time or again.
    Attached { recovered: bool },
    /// The scan goes on with the next attempt.
    ScanInProgress,
    /// Worth another attempt later.
    Retryable(String),
    /// Not worth another attempt.
    Fatal(String),
}

/// What a `SlotAttach` holds.
#[verifier::ext_equal]
pub enum AttachView {
    AlreadyAttached,
    Attached { recovered: bool },
    ScanInProgress,
    Retryable(Seq<char>),
    Fatal(Seq<char>),
}

impl View for SlotAttach {
    type V = AttachView;

    open spec fn view(&self) -> AttachView {
        match *self {
            SlotAttach::AlreadyAttached => AttachView::AlreadyAttached,
            SlotAttach::Attached { recovered } => AttachView::Attached { recovered },
            SlotAttach::ScanInProgress => AttachView::ScanInProgress,
            SlotAttach::Retryable(reason) => AttachView::Retryable(reason@),
            SlotAttach::Fatal(error) => AttachView::Fatal(error@),
        }
    }
}

/// What an error of the probe library means for an attempt: a control block that
/// is not there may appear, and the probe may answer again; the rest will not
/// change.
pub open spec fn classified(id: CoreId, kind: RttErrorKind, error: Seq<char>) -> AttachView {
    match kind {
        RttErrorKind::ControlBlockNotFound | RttErrorKind::ControlBlockCorrupted =>
            AttachView::Retryable(core_text(id, " RTT unavailable ("@, error, ")"@)),
        RttErrorKind::Probe | RttErrorKind::MemoryRead | RttErrorKind::Other =>
            AttachView::Retryable(core_text(id, " attach transport error ("@, error, ")"@)),
        _ => AttachView::Fatal(core_text(id, ": error attaching to RTT ("@, error, ")"@)),
    }
}

/// Decides what an error of the probe library means for an attempt.
pub fn classify_attach_error(id: CoreId, kind: RttErrorKind, error: &str) -> (outcome: SlotAttach)
    ensures
        outcome@ == classified(id, kind, error@),
{
    match kind {
        RttErrorKind::ControlBlockNotFound | RttErrorKind::ControlBlockCorrupted => {
            SlotAttach::Retryable(core_message(id, " RTT unavailable (", error, ")"))
        },
        RttErrorKind::Probe | RttErrorKind::MemoryRead | RttErrorKind::Other => {
            SlotAttach::Retryable(core_message(id, " attach transport error (", error, ")"))
        },
        _ => SlotAttach::Fatal(core_message(id, ": error attaching to RTT (", error, ")")),
    }
}

/// What happened on the way to an attachment.
pub enum AttachEvent<'t> {
    /// An attempt begins, on a target with so many cores. A single attempt does a
    /// bounded amount of work.
    Begin { single_attempt: bool, core_count: usize, target: String },
    CoreUnavailable { error: String },
    CoreOpen { is_64_bit: bool, memory: Vec<MemoryRegion> },
    /// Answers to a scan.
    Scan(ScanEvent),
    /// A control block was attached and the core runs.
    Found { rtt_ptr: u64 },
    /// The probe library failed to attach.
    Refused { kind: RttErrorKind, error: String },
    /// The channels are set up and the control block is on record.
    Prepared(TargetIo<'t>),
    /// The control block could not be put on record.
    SnapshotFailed { error: String },
    /// Something failed that another attempt will not mend.
    Aborted { error: String },
}

/// What an `AttachEvent` holds.
#[verifier::ext_equal]
pub enum AttachEventView {
    Begin { single_attempt: bool, core_count: usize, target: Seq<char> },
    CoreUnavailable { error: Seq<char> },
    CoreOpen { is_64_bit: bool, memory: Seq<MemoryRegion> },
    Scan(ScanEventView),
    Found { rtt_ptr: u64 },
    Refused { kind: RttErrorKind, error: Seq<char> },
    Prepared(IoView),
    SnapshotFailed { error: Seq<char> },
    Aborted { error: Seq<char> },
}

impl<'t> View for AttachEvent<'t> {
    type V = AttachEventView;

    open spec fn view(&self) -> AttachEventView {
        match self {
            AttachEvent::Begin { single_attempt, core_count, target } => AttachEventView::Begin {
                single_attempt: *single_attempt,
                core_count: *core_count,
                target: target@,
            },
            AttachEvent::CoreUnavailable { error } => AttachEventView::CoreUnavailable {
                error: error@,
            },
            AttachEvent::CoreOpen { is_64_bit, memory } => AttachEventView::CoreOpen {
                is_64_bit: *is_64_bit,
                memory: memory@,
            },
            AttachEvent::Scan(event) => AttachEventView::Scan(event@),
            AttachEvent::Found { rtt_ptr } => AttachEventView::Found { rtt_ptr: *rtt_ptr },
            AttachEvent::Refused { kind, error } => AttachEventView::Refused {
                kind: *kind,
                error: error@,
            },
            AttachEvent::Prepared(target) => AttachEventView::Prepared(target@),
            AttachEvent::SnapshotFailed { error } => AttachEventView::SnapshotFailed {
                error: error@,
            },
            AttachEvent::Aborted { error } => AttachEventView::Aborted { error: error@ },
        }
    }
}

/// What is to be done on the way to an attachment.
#[derive(Debug)]
pub enum AttachRequest {
    /// Open the core; report `CoreOpen` or `CoreUnavailable`.
    OpenCore,
    /// Read memory for the scan; report what came back as `Scan`.
    Read { address: u64, len: usize },
    /// Attach to the control block at this address; report `Found`, `Refused`, or
    /// that the scan's candidate was rejected.
    AttachAt { address: u64 },
    /// Attach the way the core's discovery says; report `Found` or `Refused`.
    AttachDirectly,
    /// Set up the channels of the control block; report `Prepared`,
    /// `SnapshotFailed` or `CoreUnavailable`.
    Prepare { rtt_ptr: u64 },
    /// The attempt is over.
    Done(SlotAttach),
}

/// What an `AttachRequest` holds.
#[verifier::ext_equal]
pub enum RequestView {
    OpenCore,
    Read { address: u64, len: usize },
    AttachAt { address: u64 },
    AttachDirectly,
    Prepare { rtt_ptr: u64 },
    Done(AttachView),
}

impl View for AttachRequest {
    type V = RequestView;

    open spec fn view(&self) -> RequestView {
        match *self {
            AttachRequest::OpenCore => RequestView::OpenCore,
            AttachRequest::Read { address, len } => RequestView::Read { address, len },
            AttachRequest::AttachAt { address } => RequestView::AttachAt { address },
            AttachRequest::AttachDirectly => RequestView::AttachDirectly,
            AttachRequest::Prepare { rtt_ptr } => RequestView::Prepare { rtt_ptr },
            AttachRequest::Done(outcome) => RequestView::Done(outcome@),
        }
    }
}

/// What an attempt to attach waits for.
#[derive(Clone, Copy, Debug, PartialEq, Eq, Structural)]
pub enum AttachPhase {
    Idle,
    OpeningToScan,
    OpeningToAttach,
    Scanning,
    Attaching,
    Preparing,
}

/// Why an attachment was lost.
#[derive(Clone, Copy, Debug, PartialEq, Eq, Structural)]
pub enum AttachmentLoss {
    /// The control block is not the one that was attached.
    MetadataChanged,
    /// The core does not answer.
    TransportUnavailable,
}

/// A change of a core that must be shown before anything else of it is.
#[derive(Clone, Copy, Debug, PartialEq, Eq, Structural)]
pub enum CoreEvent {
    Attached { id: CoreId, recovered: bool },
    AttachmentLost { id: CoreId, reason: AttachmentLoss },
}

/// Whether a core is attached; if not, when to try again.
pub enum TargetState<'t> {
    Pending { next_retry: u64, ever_attached: bool },
    Attached(TargetIo<'t>),
}

/// One configured core.
pub struct CoreSlot<'t> {
    pub id: CoreId,
    pub state: TargetState<'t>,
    pub scan: Option<IncrementalScan>,
    pub phase: AttachPhase,
}

/// What a `TargetState` holds.
#[verifier::ext_equal]
pub enum SlotStateView {
    Pending { next_retry: u64, ever_attached: bool },
    Attached(IoView),
}

/// What a `CoreSlot` holds.
#[verifier::ext_equal]
pub struct SlotView {
    pub id: CoreId,
    pub state: SlotStateView,
    pub scan: Option<ScanView>,
    pub phase: AttachPhase,
}

impl<'t> View for CoreSlot<'t> {
    type V = SlotView;

    open spec fn view(&self) -> SlotView {
        SlotView {
            id: self.id,
            state: match self.state {
                TargetState::Pending { next_retry, ever_attached } => SlotStateView::Pending {
                    next_retry,
                    ever_attached,
                },
                TargetState::Attached(target) => SlotStateView::Attached(target@),
            },
            scan: match self.scan {
                Some(scan) => Some(scan@),
                None => None,
            },
            phase: self.phase,
        }
    }
}

/// Where an interruptible scan looks for a core's control block; a fixed address
/// needs none.
pub open spec fn scan_region(discovery: &RttDiscovery) -> Option<RegionView> {
    match *discovery {
        RttDiscovery::Incremental(region) => Some(region@),
        RttDiscovery::Fixed(region) => if region@ is Exact {
            None
        } else {
            Some(region@)
        },
    }
}

fn region_to_scan(discovery: &RttDiscovery) -> (region: Option<&ScanRegion>)
    ensures
        match region {
            Some(region) => scan_region(discovery) == Some(region@),
            None => scan_region(discovery) is None,
        },
{
    match discovery {
        RttDiscovery::Incremental(region) => Some(region),
        RttDiscovery::Fixed(region) => match region {
            ScanRegion::Exact(_) => None,
            _ => Some(region),
        },
    }
}

impl SlotView {
    pub open spec fn attached(self) -> bool {
        self.state is Attached
    }

    /// The core was attached at some time.
    pub open spec fn ever_attached(self) -> bool {
        match self.state {
            SlotStateView::Pending { ever_attached, .. } => ever_attached,
            SlotStateView::Attached(_) => true,
        }
    }

    /// It is time for another attempt.
    pub open spec fn due(self, now: u64) -> bool {
        self.state matches SlotStateView::Pending { next_retry, .. } && now >= next_retry
    }

    /// The down channel can be written to.
    pub open spec fn has_down_channel(self) -> bool {
        self.state matches SlotStateView::Attached(target) && target.down_present
    }

    /// Not attached until the retry interval is over.
    pub open spec fn deferred(self, now: u64) -> SlotView {
        SlotView {
            state: SlotStateView::Pending {
                next_retry: (now + RTT_RETRY_INTERVAL) as u64,
                ever_attached: self.ever_attached(),
            },
            phase: AttachPhase::Idle,
            ..self
        }
    }

    /// The attachment is gone.
    pub open spec fn lost(self, now: u64) -> SlotView {
        SlotView { scan: None, ..self.deferred(now) }
    }

    /// The core after a write to its down channel, and what the write means. A
    /// write that fails loses the attachment; one to a core that is not attached
    /// means nothing.
    pub open spec fn written(self, outcome: WriteOutcome, now: u64) -> (SlotView, DownWrite) {
        let reason = match outcome {
            WriteOutcome::Failed(kind) => loss_of(kind),
            WriteOutcome::Changed => AttachmentLoss::MetadataChanged,
            _ => AttachmentLoss::TransportUnavailable,
        };
        if !self.attached() {
            (self, DownWrite { count: 0, event: None })
        } else if let WriteOutcome::Written(count) = outcome {
            (self, DownWrite { count, event: None })
        } else {
            (
                self.lost(now),
                DownWrite {
                    count: 0,
                    event: Some(CoreEvent::AttachmentLost { id: self.id, reason }),
                },
            )
        }
    }

    pub open spec fn in_phase(self, phase: AttachPhase) -> SlotView {
        SlotView { phase, ..self }
    }

    /// The attempt is over.
    pub open spec fn done(self, outcome: AttachView) -> (SlotView, RequestView) {
        (self.in_phase(AttachPhase::Idle), RequestView::Done(outcome))
    }

    /// What a step of the scan means for the attempt.
    pub open spec fn scanned(self, step: (ScanView, ScanAction)) -> (SlotView, RequestView) {
        let after = SlotView { scan: Some(step.0), ..self };
        match step.1 {
            ScanAction::Read { address, len } => (
                after.in_phase(AttachPhase::Scanning),
                RequestView::Read { address, len },
            ),
            ScanAction::Attach { address } => (
                after.in_phase(AttachPhase::Scanning),
                RequestView::AttachAt { address },
            ),
            ScanAction::Pause => after.done(AttachView::ScanInProgress),
            ScanAction::NotFound => (SlotView { scan: None, ..self }).done(
                classified(
                    self.id,
                    RttErrorKind::ControlBlockNotFound,
                    rtt::error_text(RttErrorKind::ControlBlockNotFound),
                ),
            ),
        }
    }

    /// Begins or resumes the scan of a core that is open.
    pub open spec fn scan_resumed(self, memory: Seq<MemoryRegion>, region: RegionView) -> (
        SlotView,
        RequestView,
    ) {
        let resume = ScanEventView::Resume { max_chunks: SCAN_CHUNKS_PER_TICK };
        let ranges = rtt::scan_ranges(memory, region);
        match self.scan {
            Some(scan) => self.scanned(scan.after(resume)),
            None => if ranges.len() == 0 {
                self.done(
                    AttachView::Fatal(
                        core_text(
                            self.id,
                            ": "@,
                            rtt::error_text(RttErrorKind::NoControlBlockLocation),
                            ""@,
                        ),
                    ),
                )
            } else {
                self.scanned(
                    (ScanView {
                        ranges,
                        range: 0,
                        address: ranges[0].start as int,
                        overlap: seq![],
                        chunks_left: 0,
                        phase: rtt::PhaseView::Idle,
                    }).after(resume),
                )
            },
        }
    }

    /// The event answers what the attempt waits for.
    pub open spec fn accepts(self, event: AttachEventView) -> bool {
        match event {
            AttachEventView::Begin { .. } => true,
            AttachEventView::CoreUnavailable { .. } => self.phase is OpeningToScan
                || self.phase is OpeningToAttach || self.phase is Preparing,
            AttachEventView::CoreOpen { .. } => self.phase is OpeningToScan
                || self.phase is OpeningToAttach,
            AttachEventView::Scan(event) => self.phase is Scanning && !(event is Resume) && (
            self.scan matches Some(scan) && scan.accepts(event)),
            AttachEventView::Found { .. } => self.phase is Scanning || self.phase is Attaching,
            AttachEventView::Refused { .. } => self.phase is Scanning || self.phase is Attaching,
            AttachEventView::Prepared(_) => self.phase is Preparing,
            AttachEventView::SnapshotFailed { .. } => self.phase is Preparing,
            AttachEventView::Aborted { .. } => !(self.phase is Idle),
        }
    }

    /// The core after an event on the way to an attachment, and what to do next.
    pub open spec fn attach_step(self, discovery: &RttDiscovery, event: AttachEventView) -> (
        SlotView,
        RequestView,
    ) {
        let region = scan_region(discovery);
        match event {
            AttachEventView::Begin { single_attempt, core_count, target } => {
                if self.attached() {
                    self.done(AttachView::AlreadyAttached)
                } else if single_attempt && region is Some {
                    (self.in_phase(AttachPhase::OpeningToScan), RequestView::OpenCore)
                } else if self.id.index >= core_count {
                    self.done(
                        AttachView::Fatal(out_of_range_text(self.id, target, core_count as nat)),
                    )
                } else {
                    (self.in_phase(AttachPhase::OpeningToAttach), RequestView::OpenCore)
                }
            },
            AttachEventView::CoreUnavailable { error } => self.done(
                AttachView::Retryable(
                    core_text(
                        self.id,
                        if self.phase is Preparing {
                            " unavailable after RTT discovery ("@
                        } else {
                            " unavailable ("@
                        },
                        error,
                        ")"@,
                    ),
                ),
            ),
            AttachEventView::CoreOpen { is_64_bit, memory } => {
                if is_64_bit {
                    self.done(AttachView::Fatal(wide_target_text()))
                } else if self.phase is OpeningToAttach || region is None {
                    (self.in_phase(AttachPhase::Attaching), RequestView::AttachDirectly)
                } else {
                    self.scan_resumed(memory, region->0)
                }
            },
            AttachEventView::Scan(event) => match self.scan {
                Some(scan) => self.scanned(scan.after(event)),
                None => self.done(AttachView::ScanInProgress),
            },
            AttachEventView::Found { rtt_ptr } => (
                self.in_phase(AttachPhase::Preparing),
                RequestView::Prepare { rtt_ptr },
            ),
            AttachEventView::Refused { kind, error } => (SlotView {
                scan: if self.phase is Scanning {
                    None
                } else {
                    self.scan
                },
                ..self
            }).done(classified(self.id, kind, error)),
            AttachEventView::Prepared(target) => (SlotView {
                state: SlotStateView::Attached(target),
                scan: None,
                ..self
            }).done(AttachView::Attached { recovered: self.ever_attached() }),
            AttachEventView::SnapshotFailed { error } => self.done(
                AttachView::Retryable(
                    core_text(self.id, " RTT metadata snapshot unavailable ("@, error, ")"@),
                ),
            ),
            AttachEventView::Aborted { error } => self.done(AttachView::Fatal(error)),
        }
    }
}

/// What a poll of a core came to.
#[derive(Clone, Copy, Debug, PartialEq, Eq, Structural)]
pub struct PollStats {
    pub bytes: usize,
    pub messages: usize,
}

/// How a poll of an attached core ended.
#[derive(Clone, Copy, Debug, PartialEq, Eq, Structural)]
pub enum PollOutcome {
    CoreUnavailable,
    /// The probe library failed to read.
    Failed(RttErrorKind),
    /// The control block is not the one that was attached.
    Changed,
    Data(PollStats),
}

/// What a poll means for the session.
#[derive(Clone, Copy, Debug, PartialEq, Eq, Structural)]
pub enum SlotPoll {
    /// The core is not attached.
    Idle,
    Data(PollStats),
    Lost(AttachmentLoss),
}

/// How a write to the down channel ended.
#[derive(Clone, Copy, Debug, PartialEq, Eq, Structural)]
pub enum WriteOutcome {
    CoreUnavailable,
    Failed(RttErrorKind),
    Changed,
    Written(usize),
}

/// What a write means for the session.
#[derive(Clone, Copy, Debug, PartialEq, Eq)]
pub struct DownWrite {
    pub count: usize,
    pub event: Option<CoreEvent>,
}

/// Why a failed access loses the attachment: a read pointer that moved by itself
/// means that the target started over.
pub open spec fn loss_of(kind: RttErrorKind) -> AttachmentLoss {
    if kind is ReadPointerChanged {
        AttachmentLoss::MetadataChanged
    } else {
        AttachmentLoss::TransportUnavailable
    }
}

fn loss_from(kind: RttErrorKind) -> (reason: AttachmentLoss)
    ensures
        reason == loss_of(kind),
{
    if kind == RttErrorKind::ReadPointerChanged {
        AttachmentLoss::MetadataChanged
    } else {
        AttachmentLoss::TransportUnavailable
    }
}

/// The policy has some use for the core.
pub open spec fn relevant(id: CoreId, policy: &SessionPolicy) -> bool {
    policy.down_channel is Some || exists|i: int|
        0 <= i < policy.up_specs@.len() && (#[trigger] policy.up_specs@[i]).reaches(id.index)
}

impl<'t> CoreSlot<'t> {
    pub open spec fn wf(&self) -> bool {
        &&& self.state matches TargetState::Attached(target) ==> target.wf() && self.phase is Idle
        &&& self.scan matches Some(scan) ==> scan.wf()
        &&& self.phase is Scanning ==> self.scan is Some
    }

    /// A core that was not attached yet and is due at once.
    pub fn new(id: CoreId, now: u64) -> (slot: Self)
        ensures
            slot.wf(),
            slot@ == (SlotView {
                id,
                state: SlotStateView::Pending { next_retry: now, ever_attached: false },
                scan: None,
                phase: AttachPhase::Idle,
            }),
    {
        CoreSlot {
            id,
            state: TargetState::Pending { next_retry: now, ever_attached: false },
            scan: None,
            phase: AttachPhase::Idle,
        }
    }

    /// Whether the policy has some use for a core: one of its channels, or the
    /// keyboard.
    pub fn is_relevant(id: CoreId, policy: &SessionPolicy) -> (result: bool)
        ensures
            result == relevant(id, policy),
    {
        let mut i: usize = 0;
        while i < policy.up_specs.len()
            invariant
                i <= policy.up_specs@.len(),
                forall|j: int|
                    0 <= j < i ==> !(#[trigger] policy.up_specs@[j]).reaches(id.index),
            decreases policy.up_specs@.len() - i,
        {
            if policy.up_specs[i].applies_to(id.index) {
                return true;
            }
            i += 1;
        }
        policy.down_channel.is_some()
    }

    pub fn is_attached(&self) -> (attached: bool)
        ensures
            attached == self@.attached(),
    {
        match self.state {
            TargetState::Attached(_) => true,
            TargetState::Pending { .. } => false,
        }
    }

    pub fn is_due(&self, now: u64) -> (due: bool)
        ensures
            due == self@.due(now),
    {
        match self.state {
            TargetState::Pending { next_retry, .. } => now >= next_retry,
            TargetState::Attached(_) => false,
        }
    }

    /// Puts off the next attempt.
    pub fn defer_retry(&mut self, now: u64)
        requires
            old(self).wf(),
            now + RTT_RETRY_INTERVAL <= u64::MAX,
        ensures
            final(self).wf(),
            final(self)@ == old(self)@.deferred(now),
    {
        let ever_attached = match self.state {
            TargetState::Pending { ever_attached, .. } => ever_attached,
            TargetState::Attached(_) => true,
        };
        self.state = TargetState::Pending { next_retry: now + RTT_RETRY_INTERVAL, ever_attached };
        self.phase = AttachPhase::Idle;
    }

    /// Gives up an attachment.
    pub fn lose_attachment(&mut self, now: u64, reason: AttachmentLoss) -> (event: CoreEvent)
        requires
            old(self).wf(),
            old(self)@.attached(),
            now + RTT_RETRY_INTERVAL <= u64::MAX,
        ensures
            final(self).wf(),
            final(self)@ == old(self)@.lost(now),
            event == (CoreEvent::AttachmentLost { id: old(self)@.id, reason }),
    {
        self.defer_retry(now);
        self.scan = None;
        CoreEvent::AttachmentLost { id: self.id, reason }
    }

    fn finish_attempt(&mut self, outcome: SlotAttach) -> (request: AttachRequest)
        requires
            old(self).wf(),
        ensures
            final(self).wf(),
            final(self)@ == old(self)@.in_phase(AttachPhase::Idle),
            request@ == RequestView::Done(outcome@),
    {
        self.phase = AttachPhase::Idle;
        AttachRequest::Done(outcome)
    }

    /// Turns a step of the scan into what is to be done.
    fn follow_scan(&mut self, scan: IncrementalScan, action: ScanAction) -> (request: AttachRequest)
        requires
            old(self).wf(),
            !old(self)@.attached(),
            scan.wf(),
        ensures
            final(self).wf(),
            final(self)@ == old(self)@.scanned((scan@, action)).0,
            request@ == old(self)@.scanned((scan@, action)).1,
    {
        match action {
            ScanAction::Read { address, len } => {
                self.scan = Some(scan);
                self.phase = AttachPhase::Scanning;
                AttachRequest::Read { address, len }
            },
            ScanAction::Attach { address } => {
                self.scan = Some(scan);
                self.phase = AttachPhase::Scanning;
                AttachRequest::AttachAt { address }
            },
            ScanAction::Pause => {
                self.scan = Some(scan);
                self.finish_attempt(SlotAttach::ScanInProgress)
            },
            ScanAction::NotFound => {
                self.phase = AttachPhase::Idle;
                self.scan = None;
                let error = rtt::describe_error(RttErrorKind::ControlBlockNotFound);
                let outcome = classify_attach_error(
                    self.id,
                    RttErrorKind::ControlBlockNotFound,
                    error.as_str(),
                );
                self.finish_attempt(outcome)
            },
        }
    }

    /// Begins or resumes the scan.
    fn resume_scan(&mut self, memory: &[MemoryRegion], region: &ScanRegion) -> (request:
        AttachRequest)
        requires
            old(self).wf(),
            !old(self)@.attached(),
        ensures
            final(self).wf(),
            final(self)@ == old(self)@.scan_resumed(memory@, region@).0,
            request@ == old(self)@.scan_resumed(memory@, region@).1,
    {
        let ghost before = self@;
        self.phase = AttachPhase::Idle;
        let mut scan = match self.scan.take() {
            Some(scan) => scan,
            None => match IncrementalScan::new(memory, region) {
                Ok(scan) => scan,
                Err(kind) => {
                    let error = rtt::describe_error(kind);
                    let message = core_message(self.id, ": ", error.as_str(), "");
                    return self.finish_attempt(SlotAttach::Fatal(message));
                },
            },
        };
        let action = scan.step(ScanEvent::Resume { max_chunks: SCAN_CHUNKS_PER_TICK });
        self.follow_scan(scan, action)
    }

    /// Takes an event on the way to an attachment and says what to do next.
    pub fn try_attach(&mut self, discovery: &RttDiscovery, event: AttachEvent<'t>) -> (request:
        AttachRequest)
        requires
            old(self).wf(),
            old(self)@.accepts(event@),
            event matches AttachEvent::Prepared(target) ==> target.wf() && target@.id
                == old(self)@.id,
        ensures
            final(self).wf(),
            final(self)@ == old(self)@.attach_step(discovery, event@).0,
            request@ == old(self)@.attach_step(discovery, event@).1,
    {
        match event {
            AttachEvent::Begin { single_attempt, core_count, target } => {
                if self.is_attached() {
                    return self.finish_attempt(SlotAttach::AlreadyAttached);
                }
                if single_attempt && region_to_scan(discovery).is_some() {
                    self.phase = AttachPhase::OpeningToScan;
                    return AttachRequest::OpenCore;
                }
                if let Err(message) = check_core_index(self.id, target.as_str(), core_count) {
                    return self.finish_attempt(SlotAttach::Fatal(message));
                }
                self.phase = AttachPhase::OpeningToAttach;
                AttachRequest::OpenCore
            },
            AttachEvent::CoreUnavailable { error } => {
                let middle = if self.phase == AttachPhase::Preparing {
                    " unavailable after RTT discovery ("
                } else {
                    " unavailable ("
                };
                let message = core_message(self.id, middle, error.as_str(), ")");
                self.finish_attempt(SlotAttach::Retryable(message))
            },
            AttachEvent::CoreOpen { is_64_bit, memory } => {
                if let Err(message) = ensure_rtt_compatible_target(is_64_bit) {
                    return self.finish_attempt(SlotAttach::Fatal(message));
                }
                let to_attach = self.phase == AttachPhase::OpeningToAttach;
                match region_to_scan(discovery) {
                    Some(region) => if to_attach {
                        self.phase = AttachPhase::Attaching;
                        AttachRequest::AttachDirectly
                    } else {
                        self.resume_scan(memory.as_slice(), region)
                    },
                    None => {
                        self.phase = AttachPhase::Attaching;
                        AttachRequest::AttachDirectly
                    },
                }
            },
            AttachEvent::Scan(event) => {
                self.phase = AttachPhase::Idle;
                match self.scan.take() {
                    Some(mut scan) => {
                        let action = scan.step(event);
                        self.follow_scan(scan, action)
                    },
                    None => self.finish_attempt(SlotAttach::ScanInProgress),
                }
            },
            AttachEvent::Found { rtt_ptr } => {
                self.phase = AttachPhase::Preparing;
                AttachRequest::Prepare { rtt_ptr }
            },
            AttachEvent::Refused { kind, error } => {
                if self.phase == AttachPhase::Scanning {
                    self.phase = AttachPhase::Idle;
                    self.scan = None;
                }
                let outcome = classify_attach_error(self.id, kind, error.as_str());
                self.finish_attempt(outcome)
            },
            AttachEvent::Prepared(target) => {
                let recovered = match self.state {
                    TargetState::Pending { ever_attached, .. } => ever_attached,
                    TargetState::Attached(_) => true,
                };
                self.phase = AttachPhase::Idle;
                self.state = TargetState::Attached(target);
                self.scan = None;
                AttachRequest::Done(SlotAttach::Attached { recovered })
            },
            AttachEvent::SnapshotFailed { error } => {
                let message = core_message(
                    self.id,
                    " RTT metadata snapshot unavailable (",
                    error.as_str(),
                    ")",
                );
                self.finish_attempt(SlotAttach::Retryable(message))
            },
            AttachEvent::Aborted { error } => self.finish_attempt(SlotAttach::Fatal(error)),
        }
    }

    /// Takes the outcome of a poll. An attachment that does not answer, or whose
    /// control block changed, is given up. A core that is not attached has nothing
    /// to lose.
    pub fn poll(&mut self, outcome: PollOutcome, now: u64) -> (result: SlotPoll)
        requires
            old(self).wf(),
            old(self)@.attached() || outcome != PollOutcome::CoreUnavailable,
            now + RTT_RETRY_INTERVAL <= u64::MAX,
        ensures
            final(self).wf(),
            result == (if !old(self)@.attached() {
                SlotPoll::Idle
            } else {
                match outcome {
                    PollOutcome::CoreUnavailable => SlotPoll::Lost(
                        AttachmentLoss::TransportUnavailable,
                    ),
                    PollOutcome::Failed(kind) => SlotPoll::Lost(loss_of(kind)),
                    PollOutcome::Changed => SlotPoll::Lost(AttachmentLoss::MetadataChanged),
                    PollOutcome::Data(stats) => SlotPoll::Data(stats),
                }
            }),
            final(self)@ == (if result is Lost {
                old(self)@.lost(now)
            } else {
                old(self)@
            }),
    {
        if !self.is_attached() {
            return SlotPoll::Idle;
        }
        let reason = match outcome {
            PollOutcome::CoreUnavailable => AttachmentLoss::TransportUnavailable,
            PollOutcome::Failed(kind) => loss_from(kind),
            PollOutcome::Changed => AttachmentLoss::MetadataChanged,
            PollOutcome::Data(stats) => {
                return SlotPoll::Data(stats);
            },
        };
        let _ = self.lose_attachment(now, reason);
        SlotPoll::Lost(reason)
    }

    /// Takes the outcome of a write to the down channel.
    pub fn write_down(&mut self, outcome: WriteOutcome, now: u64) -> (written: DownWrite)
        requires
            old(self).wf(),
            now + RTT_RETRY_INTERVAL <= u64::MAX,
        ensures
            final(self).wf(),
            final(self)@ == old(self)@.written(outcome, now).0,
            written == old(self)@.written(outcome, now).1,
    {
        if !self.is_attached() {
            return DownWrite { count: 0, event: None };
        }
        let reason = match outcome {
            WriteOutcome::CoreUnavailable => AttachmentLoss::TransportUnavailable,
            WriteOutcome::Failed(kind) => loss_from(kind),
            WriteOutcome::Changed => AttachmentLoss::MetadataChanged,
            WriteOutcome::Written(count) => {
                return DownWrite { count, event: None };
            },
        };
        let event = self.lose_attachment(now, reason);
        DownWrite { count: 0, event: Some(event) }
    }

    pub fn down_present(&self) -> (present: bool)
        ensures
            present == self@.has_down_channel(),
    {
        match &self.state {
            TargetState::Attached(target) => target.down_present,
            TargetState::Pending { .. } => false,
        }
    }

    /// The address of the control block of an attached core.
    pub fn rtt_ptr(&self) -> (address: Option<u64>)
        ensures
            match self@.state {
                SlotStateView::Attached(target) => address == Some(target.rtt_ptr),
                SlotStateView::Pending { .. } => address is None,
            },
    {
        match &self.state {
            TargetState::Attached(target) => Some(target.rtt_ptr),
            TargetState::Pending { .. } => None,
        }
    }
}

/// An attempt that ends without an attachment leaves the core as unattached as it
/// was, and one that ends with one says whether there was one before.
pub proof fn attempts_end_as_they_say(
    slot: SlotView,
    discovery: &RttDiscovery,
    event: AttachEventView,
)
    requires
        slot.accepts(event),
        slot.attached() ==> slot.phase is Idle,
    ensures
        ({
            let (after, request) = slot.attach_step(discovery, event);
            match request {
                RequestView::Done(AttachView::Attached { recovered }) => after.attached()
                    && recovered == slot.ever_attached(),
                _ => after.state == slot.state,
            }
        }),
{
}

/// A lost core is not tried again before the retry interval is over.
pub proof fn lost_cores_wait(slot: SlotView, now: u64, later: u64)
    requires
        now + RTT_RETRY_INTERVAL <= u64::MAX,
    ensures
        slot.lost(now).due(later) <==> later >= now + RTT_RETRY_INTERVAL,
        slot.lost(now).ever_attached() == slot.ever_attached(),
{
}

/// What the first attempts to attach came to.
#[derive(Debug)]
pub struct Startup {
    pub attached: usize,
    pub pending: Vec<(CoreId, String)>,
}

/// What a `Startup` holds.
#[verifier::ext_equal]
pub struct StartupView {
    pub attached: int,
    pub pending: Seq<(CoreId, Seq<char>)>,
}

impl View for Startup {
    type V = StartupView;

    open spec fn view(&self) -> StartupView {
        StartupView {
            attached: self.attached as int,
            pending: Seq::new(
                self.pending@.len(),
                |i: int| (self.pending@[i].0, self.pending@[i].1@),
            ),
        }
    }
}

/// The reasons of pending cores, separated.
pub open spec fn reasons_text(pending: Seq<(CoreId, Seq<char>)>) -> Seq<char>
    decreases pending.len(),
{
    if pending.len() == 0 {
        seq![]
    } else if pending.len() == 1 {
        pending[0].1
    } else {
        reasons_text(pending.drop_last()) + "; "@ + pending.last().1
    }
}

impl StartupView {
    /// The tally after one more core: attached, or pending for a reason.
    pub open spec fn recorded(self, id: CoreId, outcome: AttachView) -> StartupView {
        match outcome {
            AttachView::AlreadyAttached | AttachView::Attached { .. } => StartupView {
                attached: self.attached + 1,
                ..self
            },
            AttachView::ScanInProgress => StartupView {
                pending: self.pending.push(
                    (id, core_text(id, " RTT scan in progress"@, ""@, ""@)),
                ),
                ..self
            },
            AttachView::Retryable(reason) => StartupView {
                pending: self.pending.push((id, reason)),
                ..self
            },
            AttachView::Fatal(_) => self,
        }
    }
}

impl Startup {
    pub fn new() -> (startup: Self)
        ensures
            startup@ == (StartupView { attached: 0, pending: seq![] }),
    {
        let startup = Startup { attached: 0, pending: Vec::new() };
        proof {
            assert(startup@.pending =~= seq![]);
        }
        startup
    }

    /// Takes how the attempt of one core ended. A fatal end is an error; a core
    /// that may still come is to be tried again later where the result is true.
    pub fn attach_all(&mut self, id: CoreId, outcome: SlotAttach) -> (result: Result<bool, String>)
        requires
            old(self)@.attached < usize::MAX,
        ensures
            final(self)@ == old(self)@.recorded(id, outcome@),
            match result {
                Ok(defer) => !(outcome is Fatal) && defer == (outcome is Retryable),
                Err(message) => outcome matches SlotAttach::Fatal(error) && message@ == core_text(
                    id,
                    " failed to attach: "@,
                    error@,
                    ""@,
                ),
            },
    {
        let ghost before = self@;
        match outcome {
            SlotAttach::AlreadyAttached | SlotAttach::Attached { .. } => {
                self.attached = self.attached + 1;
                Ok(false)
            },
            SlotAttach::ScanInProgress => {
                let reason = core_message(id, " RTT scan in progress", "", "");
                self.pending.push((id, reason));
                proof {
                    assert(self@.pending =~= before.pending.push((id, reason@)));
                }
                Ok(false)
            },
            SlotAttach::Retryable(reason) => {
                self.pending.push((id, reason));
                proof {
                    assert(self@.pending =~= before.pending.push((id, reason@)));
                }
                Ok(true)
            },
            SlotAttach::Fatal(error) => Err(
                core_message(id, " failed to attach: ", error.as_str(), ""),
            ),
        }
    }

    pub fn attached_count(&self) -> (count: usize)
        ensures
            count == self@.attached,
    {
        self.attached
    }

    pub fn has_pending(&self) -> (pending: bool)
        ensures
            pending == (self@.pending.len() > 0),
    {
        self.pending.len() > 0
    }

    /// The error of a start without any core.
    pub fn error(&self) -> (message: String)
        ensures
            message@ == "no RTT targets could be opened ("@ + reasons_text(self@.pending)
                + "); ensure the cores are running and the ELF addresses match the firmware"@,
    {
        let mut detail = String::new();
        let ghost all = self@.pending;
        let mut i: usize = 0;
        proof {
            assert(all.take(0) =~= Seq::<(CoreId, Seq<char>)>::empty());
            assert(detail@ =~= reasons_text(all.take(0)));
        }
        while i < self.pending.len()
            invariant
                i <= self.pending@.len(),
                all == self@.pending,
                detail@ == reasons_text(all.take(i as int)),
            decreases self.pending@.len() - i,
        {
            let ghost earlier = detail@;
            if i > 0 {
                text::push_str(&mut detail, "; ");
            }
            text::push_str(&mut detail, self.pending[i].1.as_str());
            proof {
                let seen = all.take(i as int + 1);
                assert(seen.drop_last() =~= all.take(i as int));
                assert(seen.last() == all[i as int]);
                if i == 0 {
                    assert(detail@ =~= seen[0].1);
                } else {
                    assert(detail@ =~= earlier + "; "@ + seen.last().1);
                }
            }
            i += 1;
        }
        proof {
            assert(all.take(all.len() as int) =~= all);
        }
        text::join3(
            "no RTT targets could be opened (",
            detail.as_str(),
            "); ensure the cores are running and the ELF addresses match the firmware",
        )
    }
}

/// The configured cores.
pub struct CoreSlots<'t> {
    pub slots: Vec<CoreSlot<'t>>,
}

impl<'t> View for CoreSlots<'t> {
    type V = Seq<SlotView>;

    open spec fn view(&self) -> Seq<SlotView> {
        Seq::new(self.slots@.len(), |i: int| self.slots@[i]@)
    }
}

/// The cores among `ids` that the policy has a use for.
pub open spec fn relevant_cores(ids: Seq<CoreId>, policy: &SessionPolicy) -> Seq<CoreId>
    decreases ids.len(),
{
    if ids.len() == 0 {
        seq![]
    } else {
        let earlier = relevant_cores(ids.drop_last(), policy);
        if relevant(ids.last(), policy) {
            earlier.push(ids.last())
        } else {
            earlier
        }
    }
}

/// A session uses exactly the cores of its list that the policy has a use for: a
/// core that no channel selection reaches is left alone once the keyboard is off.
pub proof fn unused_cores_are_left_alone(ids: Seq<CoreId>, policy: &SessionPolicy, core: CoreId)
    ensures
        relevant_cores(ids, policy).contains(core) <==> ids.contains(core) && relevant(
            core,
            policy,
        ),
        policy.down_channel is None && (forall|i: int|
            0 <= i < policy.up_specs@.len() ==> !(#[trigger] policy.up_specs@[i]).reaches(
                core.index,
            )) ==> !relevant_cores(ids, policy).contains(core),
        relevant_cores(ids, policy).len() <= ids.len(),
    decreases ids.len(),
{
    if ids.len() > 0 {
        unused_cores_are_left_alone(ids.drop_last(), policy, core);
        let earlier = relevant_cores(ids.drop_last(), policy);
        let last = ids.last();
        assert(ids =~= ids.drop_last().push(last));
        if ids.contains(core) && core != last {
            let i = choose|i: int| 0 <= i < ids.len() && ids[i] == core;
            assert(ids.drop_last()[i] == core);
        }
        if ids.drop_last().contains(core) {
            let i = choose|i: int| 0 <= i < ids.drop_last().len() && ids.drop_last()[i] == core;
            assert(ids[i] == core);
        }
        if core == last {
            assert(ids[ids.len() - 1] == core);
        }
        if relevant(last, policy) {
            let chosen = earlier.push(last);
            assert(chosen[chosen.len() - 1] == last);
            if earlier.contains(core) {
                let i = choose|i: int| 0 <= i < earlier.len() && earlier[i] == core;
                assert(chosen[i] == core);
            }
            if chosen.contains(core) && core != last {
                let i = choose|i: int| 0 <= i < chosen.len() && chosen[i] == core;
                assert(earlier[i] == core);
            }
        }
    }
}

/// The first core with this identity stands at `i`.
pub open spec fn is_place(slots: Seq<SlotView>, id: CoreId, i: int) -> bool {
    &&& 0 <= i < slots.len()
    &&& slots[i].id == id
    &&& forall|j: int| 0 <= j < i ==> (#[trigger] slots[j]).id != id
}

/// The identities of a list of cores.
pub open spec fn slot_ids(slots: Seq<SlotView>) -> Seq<CoreId> {
    Seq::new(slots.len(), |i: int| slots[i].id)
}

/// The cores that can take keyboard input.
pub open spec fn cores_with_down(slots: Seq<SlotView>) -> Seq<CoreId>
    decreases slots.len(),
{
    if slots.len() == 0 {
        seq![]
    } else if slots.last().has_down_channel() {
        cores_with_down(slots.drop_last()).push(slots.last().id)
    } else {
        cores_with_down(slots.drop_last())
    }
}

/// The attached cores that cannot take keyboard input.
pub open spec fn cores_without_down(slots: Seq<SlotView>) -> Seq<CoreId>
    decreases slots.len(),
{
    if slots.len() == 0 {
        seq![]
    } else if slots.last().attached() && !slots.last().has_down_channel() {
        cores_without_down(slots.drop_last()).push(slots.last().id)
    } else {
        cores_without_down(slots.drop_last())
    }
}

/// One more core in the list.
proof fn one_more_with_down(slots: Seq<SlotView>, i: int)
    requires
        0 <= i < slots.len(),
    ensures
        cores_with_down(slots.take(i + 1)) == (if slots[i].has_down_channel() {
            cores_with_down(slots.take(i)).push(slots[i].id)
        } else {
            cores_with_down(slots.take(i))
        }),
{
    assert(slots.take(i + 1).drop_last() =~= slots.take(i));
    assert(slots.take(i + 1).last() == slots[i]);
}

/// One more core in the list.
proof fn one_more_control_block(slots: Seq<SlotView>, i: int)
    requires
        0 <= i < slots.len(),
    ensures
        control_blocks(slots.take(i + 1)) == (match slots[i].state {
            SlotStateView::Attached(target) => control_blocks(slots.take(i)).push(target.rtt_ptr),
            SlotStateView::Pending { .. } => control_blocks(slots.take(i)),
        }),
{
    assert(slots.take(i + 1).drop_last() =~= slots.take(i));
    assert(slots.take(i + 1).last() == slots[i]);
}

/// One more core in the list.
proof fn one_more_without_down(slots: Seq<SlotView>, i: int)
    requires
        0 <= i < slots.len(),
    ensures
        cores_without_down(slots.take(i + 1)) == (if slots[i].attached()
            && !slots[i].has_down_channel() {
            cores_without_down(slots.take(i)).push(slots[i].id)
        } else {
            cores_without_down(slots.take(i))
        }),
{
    assert(slots.take(i + 1).drop_last() =~= slots.take(i));
    assert(slots.take(i + 1).last() == slots[i]);
}

/// All cores are attached.
pub open spec fn every_attached(slots: Seq<SlotView>) -> bool {
    forall|i: int| 0 <= i < slots.len() ==> (#[trigger] slots[i]).attached()
}

/// The control blocks of the attached cores.
pub open spec fn control_blocks(slots: Seq<SlotView>) -> Seq<u64>
    decreases slots.len(),
{
    if slots.len() == 0 {
        seq![]
    } else {
        let earlier = control_blocks(slots.drop_last());
        match slots.last().state {
            SlotStateView::Attached(target) => earlier.push(target.rtt_ptr),
            SlotStateView::Pending { .. } => earlier,
        }
    }
}

/// How far the maintenance of the cores has come: attached cores are polled
/// first, then the others are tried.
#[derive(Clone, Copy, Debug, PartialEq, Eq, Structural)]
pub enum MaintainCursor {
    Polling(usize),
    Attaching(usize),
}

/// The next piece of maintenance, by a core's place in the list.
#[derive(Clone, Copy, Debug, PartialEq, Eq, Structural)]
pub enum MaintainAction {
    Poll(usize),
    Attach(usize),
    Done,
}

impl<'t> CoreSlots<'t> {
    pub open spec fn wf(&self) -> bool {
        forall|i: int| 0 <= i < self.slots@.len() ==> (#[trigger] self.slots@[i]).wf()
    }

    /// The cores that the policy has a use for; there must be one.
    pub fn build(ids: &[CoreId], policy: &SessionPolicy, now: u64) -> (result: Result<Self, String>)
        ensures
            ({
                let chosen = relevant_cores(ids@, policy);
                match result {
                    Ok(slots) => {
                        &&& chosen.len() > 0
                        &&& slots.wf()
                        &&& slots@ == Seq::new(
                            chosen.len(),
                            |i: int|
                                SlotView {
                                    id: chosen[i],
                                    state: SlotStateView::Pending {
                                        next_retry: now,
                                        ever_attached: false,
                                    },
                                    scan: None,
                                    phase: AttachPhase::Idle,
                                },
                        )
                    },
                    Err(message) => chosen.len() == 0 && message@
                        == "no configured core selects any up channel and down input is disabled"@,
                }
            }),
    {
        let mut built = CoreSlots { slots: Vec::new() };
        let mut i: usize = 0;
        proof {
            assert(ids@.take(0) =~= Seq::<CoreId>::empty());
        }
        while i < ids.len()
            invariant
                i <= ids@.len(),
                built.wf(),
                built@.len() == relevant_cores(ids@.take(i as int), policy).len(),
                forall|j: int|
                    0 <= j < built@.len() ==> (#[trigger] built@[j]) == (SlotView {
                        id: relevant_cores(ids@.take(i as int), policy)[j],
                        state: SlotStateView::Pending { next_retry: now, ever_attached: false },
                        scan: None,
                        phase: AttachPhase::Idle,
                    }),
            decreases ids@.len() - i,
        {
            let ghost earlier = built@;
            proof {
                assert(ids@.take(i as int + 1).drop_last() =~= ids@.take(i as int));
                assert(ids@.take(i as int + 1).last() == ids@[i as int]);
            }
            if CoreSlot::is_relevant(ids[i], policy) {
                built.slots.push(CoreSlot::new(ids[i], now));
                proof {
                    assert forall|j: int| 0 <= j < earlier.len() implies #[trigger] built@[j]
                        == earlier[j] by {}
                }
            }
            i += 1;
        }
        proof {
            assert(ids@.take(ids@.len() as int) =~= ids@);
        }
        if built.slots.len() == 0 {
            return Err(
                "no configured core selects any up channel and down input is disabled".to_string(),
            );
        }
        proof {
            let chosen = relevant_cores(ids@, policy);
            assert(built@ =~= Seq::new(
                chosen.len(),
                |i: int|
                    SlotView {
                        id: chosen[i],
                        state: SlotStateView::Pending { next_retry: now, ever_attached: false },
                        scan: None,
                        phase: AttachPhase::Idle,
                    },
            ));
        }
        Ok(built)
    }

    /// The next piece of maintenance from `cursor` on. Attached cores come before
    /// any other, whose memory may be slow to read.
    pub fn maintain(&self, cursor: MaintainCursor, now: u64) -> (action: MaintainAction)
        ensures
            match (cursor, action) {
                (MaintainCursor::Polling(from), MaintainAction::Poll(i)) => {
                    &&& from <= i < self@.len()
                    &&& self@[i as int].attached()
                    &&& forall|j: int|
                        from <= j < i ==> !(#[trigger] self@[j]).attached()
                },
                (MaintainCursor::Polling(from), MaintainAction::Attach(i)) => {
                    &&& i < self@.len()
                    &&& self@[i as int].due(now)
                    &&& forall|j: int| from <= j < self@.len() ==> !(#[trigger] self@[j]).attached()
                    &&& forall|j: int| 0 <= j < i ==> !(#[trigger] self@[j]).due(now)
                },
                (MaintainCursor::Polling(from), MaintainAction::Done) => {
                    &&& forall|j: int| from <= j < self@.len() ==> !(#[trigger] self@[j]).attached()
                    &&& forall|j: int| 0 <= j < self@.len() ==> !(#[trigger] self@[j]).due(now)
                },
                (MaintainCursor::Attaching(_), MaintainAction::Poll(_)) => false,
                (MaintainCursor::Attaching(from), MaintainAction::Attach(i)) => {
                    &&& from <= i < self@.len()
                    &&& self@[i as int].due(now)
                    &&& forall|j: int| from <= j < i ==> !(#[trigger] self@[j]).due(now)
                },
                (MaintainCursor::Attaching(from), MaintainAction::Done) => forall|j: int|
                    from <= j < self@.len() ==> !(#[trigger] self@[j]).due(now),
            },
    {
        let mut from: usize = 0;
        match cursor {
            MaintainCursor::Polling(start) => {
                let mut i: usize = start;
                while i < self.slots.len()
                    invariant
                        cursor == MaintainCursor::Polling(start),
                        start <= i,
                        forall|j: int|
                            start <= j < i && j < self@.len() ==> !(#[trigger] self@[j]).attached(),
                    decreases self.slots@.len() - i,
                {
                    proof {
                        assert(self@[i as int] == self.slots@[i as int]@);
                    }
                    if self.slots[i].is_attached() {
                        return MaintainAction::Poll(i);
                    }
                    i += 1;
                }
            },
            MaintainCursor::Attaching(start) => {
                from = start;
            },
        }
        let ghost first = from as int;
        let mut i: usize = from;
        while i < self.slots.len()
            invariant
                first <= i,
                match cursor {
                    MaintainCursor::Polling(start) => first == 0 && forall|j: int|
                        start <= j < self@.len() ==> !(#[trigger] self@[j]).attached(),
                    MaintainCursor::Attaching(start) => first == start,
                },
                forall|j: int| first <= j < i && j < self@.len() ==> !(#[trigger] self@[j]).due(now),
            decreases self.slots@.len() - i,
        {
            proof {
                assert(self@[i as int] == self.slots@[i as int]@);
            }
            if self.slots[i].is_due(now) {
                return MaintainAction::Attach(i);
            }
            i += 1;
        }
        MaintainAction::Done
    }

    /// The cores in reset order: each once, lowest first. The first that answers
    /// resets the target.
    pub fn chip_reset(&self) -> (order: Vec<CoreId>)
        ensures
            crate::input::sorts(slot_ids(self@), order@),
    {
        let mut order: Vec<CoreId> = Vec::new();
        let ghost all = slot_ids(self@);
        let mut i: usize = 0;
        while i < self.slots.len()
            invariant
                i <= self.slots@.len(),
                all == slot_ids(self@),
                ordered::increasing_keys(order@),
                forall|core: CoreId| #[trigger]
                    order@.contains(core) <==> all.take(i as int).contains(core),
            decreases self.slots@.len() - i,
        {
            let ghost earlier = all.take(i as int);
            let id = self.slots[i].id;
            crate::input::insert_sorted(&mut order, id);
            proof {
                let seen = all.take(i as int + 1);
                assert(self@[i as int] == self.slots@[i as int]@);
                assert(seen =~= earlier.push(id));
                assert forall|core: CoreId| #[trigger] order@.contains(core) <==> seen.contains(
                    core,
                ) by {
                    if earlier.contains(core) {
                        let k = choose|k: int| 0 <= k < earlier.len() && earlier[k] == core;
                        assert(seen[k] == core);
                    }
                    if seen.contains(core) {
                        let k = choose|k: int| 0 <= k < seen.len() && seen[k] == core;
                        if k < i {
                            assert(earlier[k] == core);
                        }
                    }
                    if core == id {
                        assert(seen[i as int] == core);
                    }
                }
            }
            i += 1;
        }
        proof {
            assert(all.take(all.len() as int) =~= all);
        }
        order
    }

    /// The control blocks to clear before a reset.
    pub fn rtt_ptrs(&self) -> (addresses: Vec<u64>)
        ensures
            addresses@ == control_blocks(self@),
    {
        let ghost slots = self@;
        let mut addresses: Vec<u64> = Vec::new();
        let mut i: usize = 0;
        proof {
            assert(slots.take(0) =~= Seq::<SlotView>::empty());
        }
        while i < self.slots.len()
            invariant
                i <= self.slots@.len(),
                slots == self@,
                slots.len() == self.slots@.len(),
                addresses@ == control_blocks(slots.take(i as int)),
            decreases self.slots@.len() - i,
        {
            let slot = &self.slots[i];
            proof {
                assert(slots[i as int] == slot@);
                one_more_control_block(slots, i as int);
            }
            if let Some(address) = slot.rtt_ptr() {
                addresses.push(address);
            }
            i += 1;
        }
        proof {
            assert(slots.take(slots.len() as int) =~= slots);
        }
        addresses
    }

    /// The target was reset: no core is attached any more.
    pub fn after_reset(&mut self, now: u64)
        requires
            old(self).wf(),
            now + RTT_RETRY_INTERVAL <= u64::MAX,
        ensures
            final(self).wf(),
            final(self)@ == Seq::new(old(self)@.len(), |i: int| old(self)@[i].lost(now)),
    {
        let ghost before = self@;
        let mut i: usize = 0;
        while i < self.slots.len()
            invariant
                i <= self.slots@.len(),
                self.wf(),
                now + RTT_RETRY_INTERVAL <= u64::MAX,
                self@.len() == before.len(),
                forall|j: int| 0 <= j < i ==> #[trigger] self@[j] == before[j].lost(now),
                forall|j: int| i <= j < self@.len() ==> #[trigger] self@[j] == before[j],
            decreases self.slots@.len() - i,
        {
            let ghost current = self@;
            proof {
                assert(self@[i as int] == self.slots@[i as int]@);
            }
            let slot = &mut self.slots[i];
            slot.defer_retry(now);
            slot.scan = None;
            proof {
                assert forall|j: int| 0 <= j < self@.len() && j != i implies #[trigger] self@[j]
                    == current[j] by {}
                assert(self@[i as int] == before[i as int].lost(now));
            }
            i += 1;
        }
        proof {
            assert(self@ =~= Seq::new(before.len(), |i: int| before[i].lost(now)));
        }
    }

    /// The place of a core in the list.
    pub fn find(&self, id: CoreId) -> (place: Option<usize>)
        ensures
            match place {
                Some(i) => is_place(self@, id, i as int),
                None => forall|i: int| !is_place(self@, id, i),
            },
    {
        let mut i: usize = 0;
        while i < self.slots.len()
            invariant
                i <= self.slots@.len(),
                forall|j: int| 0 <= j < i ==> (#[trigger] self@[j]).id != id,
            decreases self.slots@.len() - i,
        {
            proof {
                assert(self@[i as int] == self.slots@[i as int]@);
            }
            if self.slots[i].id == id {
                return Some(i);
            }
            i += 1;
        }
        None
    }

    /// Takes the outcome of a write to a core's down channel; nothing happens
    /// where there is no such core.
    pub fn write_down(&mut self, id: CoreId, outcome: WriteOutcome, now: u64) -> (written:
        DownWrite)
        requires
            old(self).wf(),
            now + RTT_RETRY_INTERVAL <= u64::MAX,
        ensures
            final(self).wf(),
            forall|i: int| #[trigger]
                is_place(old(self)@, id, i) ==> final(self)@ == old(self)@.update(
                    i,
                    old(self)@[i].written(outcome, now).0,
                ) && written == old(self)@[i].written(outcome, now).1,
            (forall|i: int| !is_place(old(self)@, id, i)) ==> final(self)@ == old(self)@ && written
                == (DownWrite { count: 0, event: None }),
    {
        match self.find(id) {
            None => DownWrite { count: 0, event: None },
            Some(i) => {
                let ghost before = self@;
                proof {
                    assert(self@[i as int] == self.slots@[i as int]@);
                }
                let slot = &mut self.slots[i];
                let written = slot.write_down(outcome, now);
                proof {
                    assert forall|j: int| 0 <= j < self@.len() && j != i implies #[trigger] self@[j]
                        == before[j] by {}
                    assert(self@ =~= before.update(i as int, self@[i as int]));
                }
                written
            },
        }
    }

    /// Takes how an attempt to attach ended that was made while the session runs.
    /// A new attachment must be shown; a core that may still come is tried again
    /// later; the rest ends the session.
    pub fn settle(&mut self, place: usize, outcome: SlotAttach, now: u64) -> (result: Result<
        Option<CoreEvent>,
        String,
    >)
        requires
            old(self).wf(),
            place < old(self)@.len(),
            now + RTT_RETRY_INTERVAL <= u64::MAX,
        ensures
            final(self).wf(),
            final(self)@ == (if outcome is Retryable {
                old(self)@.update(place as int, old(self)@[place as int].deferred(now))
            } else {
                old(self)@
            }),
            match (outcome, result) {
                (SlotAttach::Attached { recovered }, Ok(event)) => event == Some(
                    CoreEvent::Attached { id: old(self)@[place as int].id, recovered },
                ),
                (SlotAttach::Fatal(error), Err(message)) => message@ == error@,
                (SlotAttach::Fatal(_), Ok(_)) => false,
                (_, Ok(event)) => event is None,
                (_, Err(_)) => false,
            },
    {
        let ghost before = self@;
        proof {
            assert(self@[place as int] == self.slots@[place as int]@);
        }
        match outcome {
            SlotAttach::AlreadyAttached | SlotAttach::ScanInProgress => Ok(None),
            SlotAttach::Attached { recovered } => Ok(
                Some(CoreEvent::Attached { id: self.slots[place].id, recovered }),
            ),
            SlotAttach::Retryable(_) => {
                let slot = &mut self.slots[place];
                slot.defer_retry(now);
                proof {
                    assert forall|j: int|
                        0 <= j < self@.len() && j != place implies #[trigger] self@[j]
                        == before[j] by {}
                    assert(self@ =~= before.update(place as int, self@[place as int]));
                }
                Ok(None)
            },
            SlotAttach::Fatal(error) => Err(error),
        }
    }

    pub fn ids(&self) -> (ids: Vec<CoreId>)
        ensures
            ids@ == slot_ids(self@),
    {
        let mut ids: Vec<CoreId> = Vec::new();
        let mut i: usize = 0;
        while i < self.slots.len()
            invariant
                i <= self.slots@.len(),
                ids@ == slot_ids(self@).take(i as int),
            decreases self.slots@.len() - i,
        {
            ids.push(self.slots[i].id);
            i += 1;
            proof {
                assert(ids@ =~= slot_ids(self@).take(i as int));
            }
        }
        proof {
            assert(ids@ =~= slot_ids(self@));
        }
        ids
    }

    pub fn all_attached(&self) -> (all: bool)
        ensures
            all == every_attached(self@),
    {
        let mut i: usize = 0;
        while i < self.slots.len()
            invariant
                i <= self.slots@.len(),
                forall|j: int| 0 <= j < i ==> (#[trigger] self@[j]).attached(),
            decreases self.slots@.len() - i,
        {
            proof {
                assert(self@[i as int] == self.slots@[i as int]@);
            }
            if !self.slots[i].is_attached() {
                return false;
            }
            i += 1;
        }
        true
    }

    pub fn is_attached(&self, id: CoreId) -> (attached: bool)
        ensures
            attached == (exists|i: int|
                0 <= i < self@.len() && (#[trigger] self@[i]).id == id && self@[i].attached()),
    {
        let mut i: usize = 0;
        while i < self.slots.len()
            invariant
                i <= self.slots@.len(),
                forall|j: int|
                    0 <= j < i ==> !((#[trigger] self@[j]).id == id && self@[j].attached()),
            decreases self.slots@.len() - i,
        {
            proof {
                assert(self@[i as int] == self.slots@[i as int]@);
            }
            if self.slots[i].id == id && self.slots[i].is_attached() {
                return true;
            }
            i += 1;
        }
        false
    }

    /// The cores that can take keyboard input.
    pub fn routable_down(&self) -> (ids: Vec<CoreId>)
        ensures
            ids@ == cores_with_down(self@),
    {
        let ghost slots = self@;
        let mut ids: Vec<CoreId> = Vec::new();
        let mut i: usize = 0;
        proof {
            assert(slots.take(0) =~= Seq::<SlotView>::empty());
        }
        while i < self.slots.len()
            invariant
                i <= self.slots@.len(),
                slots == self@,
                slots.len() == self.slots@.len(),
                ids@ == cores_with_down(slots.take(i as int)),
            decreases self.slots@.len() - i,
        {
            let slot = &self.slots[i];
            proof {
                assert(slots[i as int] == slot@);
                one_more_with_down(slots, i as int);
            }
            if slot.down_present() {
                ids.push(slot.id);
            }
            i += 1;
        }
        proof {
            assert(slots.take(slots.len() as int) =~= slots);
        }
        ids
    }

    /// The attached cores that cannot take keyboard input.
    pub fn missing_down(&self) -> (ids: Vec<CoreId>)
        ensures
            ids@ == cores_without_down(self@),
    {
        let ghost slots = self@;
        let mut ids: Vec<CoreId> = Vec::new();
        let mut i: usize = 0;
        proof {
            assert(slots.take(0) =~= Seq::<SlotView>::empty());
        }
        while i < self.slots.len()
            invariant
                i <= self.slots@.len(),
                slots == self@,
                slots.len() == self.slots@.len(),
                ids@ == cores_without_down(slots.take(i as int)),
            decreases self.slots@.len() - i,
        {
            let slot = &self.slots[i];
            proof {
                assert(slots[i as int] == slot@);
                one_more_without_down(slots, i as int);
            }
            let attached = slot.is_attached();
            let present = slot.down_present();
            if attached && !present {
                ids.push(slot.id);
            }
            i += 1;
        }
        proof {
            assert(slots.take(slots.len() as int) =~= slots);
        }
        ids
    }
}

/// The core through which to reset the target: the first in reset order that
/// answers. `failures` tells why the ones before did not.
pub fn reset_initiator(order: &[CoreId], failures: &[String]) -> (result: Result<CoreId, String>)
    ensures
        match result {
            Ok(core) => failures@.len() < order@.len() && core == order@[failures@.len() as int],
            Err(message) => failures@.len() >= order@.len() && message@
                == "cannot reset target: no configured core is currently accessible"@ + (
            if failures@.len() > 0 {
                ": "@ + failures@[0]@
            } else {
                seq![]
            }),
        },
{
    if failures.len() < order.len() {
        return Ok(order[failures.len()]);
    }
    let mut message =
        "cannot reset target: no configured core is currently accessible".to_string();
    if failures.len() > 0 {
        text::push_str(&mut message, ": ");
        text::push_str(&mut message, failures[0].as_str());
    }
    proof {
        assert(message@ =~= "cannot reset target: no configured core is currently accessible"@ + (
        if failures@.len() > 0 {
            ": "@ + failures@[0]@
        } else {
            seq![]
        }));
    }
    Err(message)
}

/// What resetting the target and resuming a core came to. A failed reset is the
/// error that counts; a failed resume does not hide it.
pub fn reset_device(id: CoreId, reset: Result<(), String>, resume: Result<(), String>) -> (result:
    Result<(), String>)
    ensures
        match (reset, resume, result) {
            (Ok(()), Ok(()), Ok(())) => true,
            (Err(reset), Ok(()), Err(error)) => error@ == reset@,
            (Ok(()), Err(resume), Err(error)) => error@ == resume@,
            (Err(reset), Err(resume), Err(error)) => error@ == "also failed to resume "@ + core_text(
                id,
                ": "@,
                resume@,
                ": "@,
            ) + reset@,
            _ => false,
        },
{
    match (reset, resume) {
        (Ok(()), Ok(())) => Ok(()),
        (Err(reset), Ok(())) => Err(reset),
        (Ok(()), Err(resume)) => Err(resume),
        (Err(reset), Err(resume)) => {
            let about = core_message(id, ": ", resume.as_str(), ": ");
            Err(text::join3("also failed to resume ", about.as_str(), reset.as_str()))
        },
    }
}

/// An attached core is either one that can take keyboard input or one that
/// cannot, never both, and a core that is not attached is neither.
pub proof fn attached_cores_are_told_apart(slots: Seq<SlotView>, core: CoreId)
    ensures
        cores_with_down(slots).contains(core) ==> exists|i: int|
            0 <= i < slots.len() && (#[trigger] slots[i]).id == core && slots[i].attached()
                && slots[i].has_down_channel(),
        cores_without_down(slots).contains(core) ==> exists|i: int|
            0 <= i < slots.len() && (#[trigger] slots[i]).id == core && slots[i].attached()
                && !slots[i].has_down_channel(),
    decreases slots.len(),
{
    if slots.len() > 0 {
        let fewer = slots.drop_last();
        attached_cores_are_told_apart(fewer, core);
        assert(slots.last() == slots[slots.len() - 1]);
        if cores_with_down(slots).contains(core) {
            if cores_with_down(fewer).contains(core) {
                let i = choose|i: int|
                    0 <= i < fewer.len() && (#[trigger] fewer[i]).id == core && fewer[i].attached()
                        && fewer[i].has_down_channel();
                assert(slots[i] == fewer[i]);
            } else {
                let k = choose|k: int|
                    0 <= k < cores_with_down(slots).len() && cores_with_down(slots)[k] == core;
                if k < cores_with_down(fewer).len() {
                    assert(cores_with_down(fewer)[k] == core);
                }
            }
        }
        if cores_without_down(slots).contains(core) {
            if cores_without_down(fewer).contains(core) {
                let i = choose|i: int|
                    0 <= i < fewer.len() && (#[trigger] fewer[i]).id == core && fewer[i].attached()
                        && !fewer[i].has_down_channel();
                assert(slots[i] == fewer[i]);
            } else {
                let k = choose|k: int|
                    0 <= k < cores_without_down(slots).len() && cores_without_down(slots)[k]
                        == core;
                if k < cores_without_down(fewer).len() {
                    assert(cores_without_down(fewer)[k] == core);
                }
            }
        }
    }
}

/// A channel is selected on a core: by the core's own number, or without one.
pub open spec fn selected_on(core: CoreId) -> spec_fn(ChannelSpec) -> bool {
    |spec: ChannelSpec| spec.core is None || spec.core == Some(core.index)
}

/// Every channel that is selected on a core is read, and nothing else is: there
/// is one reader for each selection, in the order of the selections, for that
/// channel of that core and with a fresh decoder of the selected kind. Only a
/// defmt channel without a table stands in the way.
pub proof fn every_selected_channel_is_read(
    specs: Seq<ChannelSpec>,
    core: CoreId,
    data: Option<DataView>,
)
    ensures
        ({
            let wanted = specs.filter(selected_on(core));
            match readers_for(specs, core, data) {
                Ok(readers) => {
                    &&& readers.len() == wanted.len()
                    &&& forall|i: int|
                        0 <= i < wanted.len() ==> {
                            let spec = #[trigger] wanted[i];
                            let reader = readers[i];
                            &&& reader.source.core == core
                            &&& reader.source.channel.number == spec.index
                            &&& spec.mode is Terminal ==> reader.decoder == DecoderView::Terminal(
                                StreamView::initial(),
                            )
                            &&& spec.mode is Defmt ==> (reader.decoder matches DecoderView::Defmt(
                                state,
                            ) && data == Some(state.data) && state.history.len() == 0
                                && state.incomplete == 0)
                        }
                },
                Err(message) => data is None && exists|i: int|
                    0 <= i < wanted.len() && (#[trigger] wanted[i]).mode is Defmt && message
                        == "missing defmt table for channel "@ + text::decimal(
                        wanted[i].index as nat,
                    ) && forall|j: int| 0 <= j < i ==> !((#[trigger] wanted[j]).mode is Defmt),
            }
        }),
    decreases specs.len(),
{
    reveal(Seq::filter);
    let wanted = specs.filter(selected_on(core));
    if specs.len() > 0 {
        let fewer = specs.drop_last();
        let before = fewer.filter(selected_on(core));
        every_selected_channel_is_read(fewer, core, data);
        match readers_for(fewer, core, data) {
            Err(message) => {
                let i = choose|i: int|
                    0 <= i < before.len() && (#[trigger] before[i]).mode is Defmt && message
                        == "missing defmt table for channel "@ + text::decimal(
                        before[i].index as nat,
                    ) && forall|j: int| 0 <= j < i ==> !((#[trigger] before[j]).mode is Defmt);
                assert(wanted[i] == before[i]);
                assert forall|j: int| 0 <= j < i implies !((#[trigger] wanted[j]).mode is Defmt) by {
                    assert(wanted[j] == before[j]);
                }
            },
            Ok(earlier) => {
                if selected_on(core)(specs.last()) {
                    assert(wanted == before.push(specs.last()));
                    if specs.last().mode is Defmt && data is None {
                        let i = before.len() as int;
                        let named = "missing defmt table for channel "@ + text::decimal(
                            specs.last().index as nat,
                        );
                        assert(named + ""@ =~= named) by {
                            reveal_strlit("");
                        }
                        assert(wanted[i] == specs.last());
                        assert forall|j: int| 0 <= j < i implies !(
                        (#[trigger] wanted[j]).mode is Defmt) by {
                            assert(wanted[j] == before[j]);
                        }
                    } else {
                        let readers = readers_for(specs, core, data)->Ok_0;
                        assert forall|i: int| 0 <= i < wanted.len() implies {
                            let spec = #[trigger] wanted[i];
                            let reader = readers[i];
                            &&& reader.source.core == core
                            &&& reader.source.channel.number == spec.index
                            &&& spec.mode is Terminal ==> reader.decoder == DecoderView::Terminal(
                                StreamView::initial(),
                            )
                            &&& spec.mode is Defmt ==> (reader.decoder matches DecoderView::Defmt(
                                state,
                            ) && data == Some(state.data) && state.history.len() == 0
                                && state.incomplete == 0)
                        } by {
                            if i < before.len() {
                                assert(wanted[i] == before[i]);
                                assert(readers[i] == earlier[i]);
                            }
                        }
                    }
                }
            },
        }
    }
}

/// A core is refused exactly when it lacks a channel that is selected on it; the
/// first such channel is named.
pub proof fn missing_channels_are_named(
    specs: Seq<ChannelSpec>,
    core: CoreId,
    numbers: Seq<usize>,
)
    ensures
        ({
            let wanted = specs.filter(selected_on(core));
            match missing_up(specs, core, numbers) {
                None => forall|i: int|
                    0 <= i < wanted.len() ==> numbers.contains(
                        (#[trigger] wanted[i]).index as usize,
                    ),
                Some(message) => exists|i: int|
                    0 <= i < wanted.len() && !numbers.contains(
                        (#[trigger] wanted[i]).index as usize,
                    ) && message == "up channel "@ + text::decimal(wanted[i].index as nat)
                        + " does not exist on core "@ + text::decimal(core.index as nat) + "."@
                        && forall|j: int|
                        0 <= j < i ==> numbers.contains((#[trigger] wanted[j]).index as usize),
            }
        }),
    decreases specs.len(),
{
    reveal(Seq::filter);
    let wanted = specs.filter(selected_on(core));
    if specs.len() > 0 {
        let fewer = specs.drop_last();
        let before = fewer.filter(selected_on(core));
        missing_channels_are_named(fewer, core, numbers);
        assert forall|j: int| 0 <= j < before.len() implies wanted[j] == #[trigger] before[j] by {}
        match missing_up(fewer, core, numbers) {
            Some(message) => {
                let i = choose|i: int|
                    0 <= i < before.len() && !numbers.contains(
                        (#[trigger] before[i]).index as usize,
                    ) && message == "up channel "@ + text::decimal(before[i].index as nat)
                        + " does not exist on core "@ + text::decimal(core.index as nat) + "."@
                        && forall|j: int|
                        0 <= j < i ==> numbers.contains((#[trigger] before[j]).index as usize);
                assert(wanted[i] == before[i]);
                assert forall|j: int| 0 <= j < i implies numbers.contains(
                    (#[trigger] wanted[j]).index as usize,
                ) by {
                    assert(wanted[j] == before[j]);
                }
            },
            None => {
                assert forall|j: int| 0 <= j < before.len() implies numbers.contains(
                    (#[trigger] wanted[j]).index as usize,
                ) by {
                    assert(wanted[j] == before[j]);
                }
                if selected_on(core)(specs.last()) {
                    assert(wanted[before.len() as int] == specs.last());
                }
            },
        }
    }
}

/// A session has some use for a core: it takes keyboard input, or one of the
/// core's channels is selected.
pub open spec fn used_by(policy: &SessionPolicy) -> spec_fn(CoreId) -> bool {
    |core: CoreId|
        policy.down_channel is Some || exists|i: int|
            0 <= i < policy.up_specs@.len() && selected_on(core)(#[trigger] policy.up_specs@[i])
}

/// Every core that the session has some use for is opened, in the given order,
/// and no other.
pub proof fn every_used_core_is_opened(ids: Seq<CoreId>, policy: &SessionPolicy)
    ensures
        relevant_cores(ids, policy) == ids.filter(used_by(policy)),
    decreases ids.len(),
{
    reveal(Seq::filter);
    if ids.len() > 0 {
        every_used_core_is_opened(ids.drop_last(), policy);
        let core = ids.last();
        if relevant(core, policy) && policy.down_channel is None {
            let i = choose|i: int|
                0 <= i < policy.up_specs@.len() && (#[trigger] policy.up_specs@[i]).reaches(
                    core.index,
                );
            assert(selected_on(core)(policy.up_specs@[i]));
        }
        if used_by(policy)(core) && policy.down_channel is None {
            let i = choose|i: int|
                0 <= i < policy.up_specs@.len() && selected_on(core)(#[trigger] policy.up_specs@[i]);
            assert(policy.up_specs@[i].reaches(core.index));
        }
    }
}

/// The core is attached and its control block has the down channel.
pub open spec fn takes_input() -> spec_fn(SlotView) -> bool {
    |slot: SlotView| slot.state matches SlotStateView::Attached(target) && target.down_present
}

/// The core is attached and its control block lacks the down channel.
pub open spec fn lacks_input() -> spec_fn(SlotView) -> bool {
    |slot: SlotView| slot.state matches SlotStateView::Attached(target) && !target.down_present
}

pub open spec fn is_attached_slot() -> spec_fn(SlotView) -> bool {
    |slot: SlotView| slot.state is Attached
}

/// Keyboard input can go to every attached core with a down channel and to no
/// other; every attached core without one is known; and the control block of every
/// attached core is cleared before a reset. All are listed in the order of the
/// cores.
pub proof fn every_attached_core_counts(slots: Seq<SlotView>)
    ensures
        cores_with_down(slots) == slots.filter(takes_input()).map_values(|slot: SlotView| slot.id),
        cores_without_down(slots) == slots.filter(lacks_input()).map_values(
            |slot: SlotView| slot.id,
        ),
        control_blocks(slots) == slots.filter(is_attached_slot()).map_values(
            |slot: SlotView| slot.state->Attached_0.rtt_ptr,
        ),
        every_attached(slots) <==> slots.filter(is_attached_slot()) == slots,
    decreases slots.len(),
{
    reveal(Seq::filter);
    if slots.len() > 0 {
        let fewer = slots.drop_last();
        every_attached_core_counts(fewer);
        fewer.lemma_filter_len(is_attached_slot());
        assert(cores_with_down(slots) =~= slots.filter(takes_input()).map_values(
            |slot: SlotView| slot.id,
        ));
        assert(cores_without_down(slots) =~= slots.filter(lacks_input()).map_values(
            |slot: SlotView| slot.id,
        ));
        assert(control_blocks(slots) =~= slots.filter(is_attached_slot()).map_values(
            |slot: SlotView| slot.state->Attached_0.rtt_ptr,
        ));
        assert(slots =~= fewer.push(slots.last()));
        if every_attached(slots) {
            assert forall|i: int| 0 <= i < fewer.len() implies (#[trigger] fewer[i]).attached() by {
                assert(fewer[i] == slots[i]);
            }
            assert(slots[slots.len() - 1].attached());
        }
        if slots.filter(is_attached_slot()) == slots {
            assert(is_attached_slot()(slots.last()));
            assert(slots.filter(is_attached_slot()).drop_last() =~= fewer.filter(
                is_attached_slot(),
            ));
            assert forall|i: int| 0 <= i < slots.len() implies (#[trigger] slots[i]).attached() by {
                if i < fewer.len() {
                    assert(fewer[i].attached());
                }
            }
        }
    } else {
        assert(cores_with_down(slots) =~= slots.filter(takes_input()).map_values(
            |slot: SlotView| slot.id,
        ));
        assert(cores_without_down(slots) =~= slots.filter(lacks_input()).map_values(
            |slot: SlotView| slot.id,
        ));
        assert(control_blocks(slots) =~= slots.filter(is_attached_slot()).map_values(
            |slot: SlotView| slot.state->Attached_0.rtt_ptr,
        ));
    }
}

/// A poll after reads that gave these numbers of bytes.
pub open spec fn polled(run: PollRun, counts: Seq<usize>, terminal: bool) -> PollRun
    decreases counts.len(),
{
    if counts.len() == 0 {
        run
    } else {
        polled(run, counts.drop_last(), terminal).reported(counts.last(), terminal)
    }
}

/// The sum of some numbers.
pub open spec fn total(counts: Seq<usize>) -> int
    decreases counts.len(),
{
    if counts.len() == 0 {
        0
    } else {
        total(counts.drop_last()) + counts.last()
    }
}

/// A poll goes on as long as there is anything to read: after a round in which
/// each channel had its turn it is over exactly when all of them were empty or the
/// budget is used up. Every byte counts against the budget.
pub proof fn polls_read_until_all_is_quiet(run: PollRun, counts: Seq<usize>, terminal: bool)
    requires
        run.wf(),
        run.readers > 0,
        run.offset == 0,
        !run.progressed,
        counts.len() <= run.readers,
        total(counts) <= run.budget,
    ensures
        ({
            let after = polled(run, counts, terminal);
            let quiet = forall|i: int| 0 <= i < counts.len() ==> #[trigger] counts[i] == 0;
            &&& after.wf()
            &&& after.readers == run.readers
            &&& after.start == run.start
            &&& after.offset == counts.len()
            &&& after.bytes == run.bytes + total(counts)
            &&& after.budget == run.budget - total(counts)
            &&& after.progressed == !quiet
            &&& counts.len() < run.readers && after.budget > 0 ==> !after.over()
            &&& counts.len() == run.readers ==> (after.over() <==> quiet || after.budget == 0)
        }),
    decreases counts.len(),
{
    if counts.len() > 0 {
        let fewer = counts.drop_last();
        totals_are_natural(fewer);
        polls_read_until_all_is_quiet(run, fewer, terminal);
        let last = counts.len() - 1;
        assert forall|i: int| 0 <= i < fewer.len() implies counts[i] == #[trigger] fewer[i] by {}
        if forall|i: int| 0 <= i < counts.len() ==> #[trigger] counts[i] == 0 {
            assert forall|i: int| 0 <= i < fewer.len() implies #[trigger] fewer[i] == 0 by {
                assert(counts[i] == 0);
            }
            assert(counts[last] == 0);
        } else if counts.last() == 0 {
            let i = choose|i: int| 0 <= i < counts.len() && #[trigger] counts[i] != 0;
            assert(fewer[i] != 0);
        } else {
            assert(counts[last] != 0);
        }
    }
}

proof fn totals_are_natural(counts: Seq<usize>)
    ensures
        total(counts) >= 0,
    decreases counts.len(),
{
    if counts.len() > 0 {
        totals_are_natural(counts.drop_last());
    }
}

/// A read asks for what the budget allows, at most one buffer, of a channel that
/// exists.
pub proof fn reads_fit_the_budget(run: PollRun)
    requires
        run.wf(),
        !run.over(),
    ensures
        run.read().reader < run.readers,
        0 < run.read().max <= run.budget,
        run.read().max <= UP_CHANNEL_BUFFER_SIZE,
        run.read().max == run.budget || run.read().max == UP_CHANNEL_BUFFER_SIZE,
        run.offset == run.readers ==> run.read().reader == run.start,
        run.offset < run.readers && run.start + run.offset < run.readers ==> run.read().reader
            == run.start + run.offset,
{
}

/// The entries of a control block that are put on record are those of the channels
/// in use: each starts where the channel's number says, behind the header and the
/// entries of lower numbers, and the down channels stand behind all up channels.
pub proof fn entries_are_those_in_use(io: IoView, up_count: u32)
    requires
        io.fits(),
        io.down_present ==> io.down_channel is Some,
    ensures
        ({
            let addresses = io.entry_addresses(up_count);
            &&& addresses.len() == io.readers.len() + if io.down_present {
                1int
            } else {
                0int
            }
            &&& forall|i: int|
                0 <= i < io.readers.len() ==> #[trigger] addresses[i] == io.rtt_ptr + 24
                    + io.readers[i].source.channel.number * 24
            &&& io.down_present ==> addresses.last() == io.rtt_ptr + 24 + up_count * 24
                + io.down_channel->0.number * 24
        }),
{
    let addresses = io.entry_addresses(up_count);
    assert forall|i: int| 0 <= i < io.readers.len() implies #[trigger] addresses[i] == io.rtt_ptr
        + 24 + io.readers[i].source.channel.number * 24 by {
        assert(io.readers[i].source.channel.number <= u32::MAX);
    }
}

/// An attempt on a core that is not attached goes on until it is decided: it opens
/// the core if there is one, scans or attaches directly, prepares the control block
/// that was found, and ends attached. Only what cannot change ends it for good.
pub proof fn attempts_go_on_until_decided(
    slot: SlotView,
    discovery: &RttDiscovery,
    event: AttachEventView,
)
    requires
        slot.accepts(event),
        !slot.attached(),
    ensures
        ({
            let (after, request) = slot.attach_step(discovery, event);
            let scans = *discovery is Incremental || !(discovery.spec_region()@ is Exact);
            match event {
                AttachEventView::Begin { single_attempt, core_count, .. } => {
                    &&& slot.id.index < core_count || (single_attempt && scans)
                        ==> request is OpenCore && !(after.phase is Idle) && (after.phase
                        is OpeningToScan <==> single_attempt && scans)
                    &&& slot.id.index >= core_count && !(single_attempt && scans)
                        ==> (request matches RequestView::Done(outcome) && outcome is Fatal)
                    &&& after.scan == slot.scan
                },
                AttachEventView::CoreUnavailable { .. } => request matches RequestView::Done(
                    outcome,
                ) && outcome is Retryable && after.scan == slot.scan,
                AttachEventView::CoreOpen { is_64_bit, .. } => {
                    &&& is_64_bit ==> (request matches RequestView::Done(outcome)
                        && outcome is Fatal)
                    &&& !is_64_bit && slot.phase is OpeningToAttach ==> request is AttachDirectly
                        && after.phase is Attaching
                },
                AttachEventView::Scan(_) => true,
                AttachEventView::Found { rtt_ptr } => request == RequestView::Prepare { rtt_ptr }
                    && after.phase is Preparing,
                AttachEventView::Refused { kind, .. } => request matches RequestView::Done(outcome)
                    && (outcome is Fatal <==> !(kind is ControlBlockNotFound
                    || kind is ControlBlockCorrupted || kind is Probe || kind is MemoryRead
                    || kind is Other)) && (outcome is Retryable || outcome is Fatal),
                AttachEventView::Prepared(target) => {
                    &&& after.state == SlotStateView::Attached(target)
                    &&& after.scan is None
                    &&& request matches RequestView::Done(outcome) && outcome
                        == (AttachView::Attached {
                        recovered: slot.state matches SlotStateView::Pending { ever_attached, .. }
                            && ever_attached,
                    })
                },
                AttachEventView::SnapshotFailed { .. } => request matches RequestView::Done(outcome)
                    && outcome is Retryable,
                AttachEventView::Aborted { error } => request == RequestView::Done(
                    AttachView::Fatal(error),
                ),
            }
        }),
        ({
            let (after, request) = slot.attach_step(discovery, event);
            &&& after.id == slot.id
            &&& request is Done ==> after.phase is Idle
            &&& request matches RequestView::Done(outcome) ==> !(outcome is AlreadyAttached)
        }),
{
}

/// Every reason why an attempt failed names the core and what the probe library
/// said.
pub proof fn failures_name_their_core(
    slot: SlotView,
    discovery: &RttDiscovery,
    kind: RttErrorKind,
    error: Seq<char>,
)
    ensures
        ({
            let outcome = slot.attach_step(
                discovery,
                AttachEventView::Refused { kind, error },
            ).1->Done_0;
            let reason = if outcome is Fatal {
                outcome->Fatal_0
            } else {
                outcome->Retryable_0
            };
            exists|before: Seq<char>, after: Seq<char>|
                reason == #[trigger] (("core "@ + text::decimal(slot.id.index as nat) + before)
                    + error + after)
        }),
{
    let start = "core "@ + text::decimal(slot.id.index as nat);
    let middle = match kind {
        RttErrorKind::ControlBlockNotFound | RttErrorKind::ControlBlockCorrupted =>
            " RTT unavailable ("@,
        RttErrorKind::Probe | RttErrorKind::MemoryRead | RttErrorKind::Other =>
            " attach transport error ("@,
        _ => ": error attaching to RTT ("@,
    };
    assert(core_text(slot.id, middle, error, ")"@) == (start + middle) + error + ")"@);
}

/// A scan for a core goes through all of the region: where the core has no scan
/// yet, a control block anywhere in it is ahead once the core is open, and is not
/// passed over by any step of the scan; the attempt ends without it only where its
/// memory could not be read. A scan that was interrupted goes on.
pub proof fn scans_find_the_control_block(
    slot: SlotView,
    discovery: &RttDiscovery,
    map: Seq<MemoryRegion>,
    memory: spec_fn(int) -> u8,
    r: int,
    address: int,
)
    requires
        slot.phase is OpeningToScan,
        !slot.attached(),
        scan_region(discovery) is Some,
        slot.scan matches Some(scan) ==> scan.wf() && scan.agrees_with(memory) && scan.ahead(
            r,
            address,
        ),
        ({
            let ranges = match slot.scan {
                Some(scan) => scan.ranges,
                None => rtt::scan_ranges(map, scan_region(discovery)->0),
            };
            &&& 0 <= r < ranges.len()
            &&& rtt::fits_into(ranges[r], address)
        }),
        rtt::memory_slice(memory, address, rtt::magic().len() as int) == rtt::magic(),
    ensures
        ({
            let (after, request) = slot.attach_step(
                discovery,
                AttachEventView::CoreOpen { is_64_bit: false, memory: map },
            );
            &&& after.scan matches Some(scan) && scan.agrees_with(memory) && scan.ahead(r, address)
            &&& request matches RequestView::Done(outcome) ==> outcome is ScanInProgress
        }),
{
    let resume = ScanEventView::Resume { max_chunks: SCAN_CHUNKS_PER_TICK };
    let ranges = rtt::scan_ranges(map, scan_region(discovery)->0);
    let scan = match slot.scan {
        Some(scan) => scan,
        None => ScanView {
            ranges,
            range: 0,
            address: ranges[0].start as int,
            overlap: seq![],
            chunks_left: 0,
            phase: rtt::PhaseView::Idle,
        },
    };
    assert(slot.scan is None ==> scan.overlap =~= rtt::memory_slice(memory, scan.address, 0));
    rtt::scan_leaves_nothing_out(scan, resume, memory, r, address);
}

/// Each step of a core's scan is carried out: what is to be read is read, what may
/// be a control block is tried, an interrupted scan is kept, and one that has seen
/// everything is worth another attempt.
pub proof fn scans_are_carried_out(
    slot: SlotView,
    discovery: &RttDiscovery,
    scan: ScanView,
    event: ScanEventView,
)
    requires
        slot.scan == Some(scan),
        slot.phase is Scanning,
    ensures
        ({
            let (after, request) = slot.attach_step(discovery, AttachEventView::Scan(event));
            let (next, action) = scan.after(event);
            match action {
                ScanAction::Read { address, len } => request == (RequestView::Read { address, len })
                    && after.scan == Some(next) && after.phase is Scanning,
                ScanAction::Attach { address } => request == (RequestView::AttachAt { address })
                    && after.scan == Some(next) && after.phase is Scanning,
                ScanAction::Pause => request == RequestView::Done(AttachView::ScanInProgress)
                    && after.scan == Some(next),
                ScanAction::NotFound => request matches RequestView::Done(outcome)
                    && outcome is Retryable && after.scan is None,
            }
        }),
{
}

/// A write that succeeds counts in full and changes nothing; any other loses the
/// attachment and says why, once. A core that is not attached takes nothing.
pub proof fn writes_count_or_lose_the_core(slot: SlotView, outcome: WriteOutcome, now: u64)
    ensures
        ({
            let (after, write) = slot.written(outcome, now);
            match (slot.state, outcome) {
                (SlotStateView::Attached(_), WriteOutcome::Written(count)) => after == slot
                    && write.count == count && write.event is None,
                (SlotStateView::Attached(_), _) => {
                    &&& after.state is Pending
                    &&& after.id == slot.id
                    &&& write.count == 0
                    &&& write.event matches Some(CoreEvent::AttachmentLost { id, reason }) && id
                        == slot.id && (reason is MetadataChanged <==> outcome is Changed || outcome
                        == WriteOutcome::Failed(RttErrorKind::ReadPointerChanged))
                },
                (SlotStateView::Pending { .. }, _) => after == slot && write.count == 0
                    && write.event is None,
            }
        }),
{
}

/// A core that is put off or lost is due again half a second later, not earlier,
/// and is remembered as attached if it ever was. One that is put off keeps its scan,
/// one that is lost starts anew.
pub proof fn cores_come_back(slot: SlotView, now: u64, later: u64)
    requires
        now <= u64::MAX - 500_000_000,
    ensures
        slot.deferred(now).due(later) <==> later >= now + 500_000_000,
        slot.lost(now).due(later) <==> later >= now + 500_000_000,
        slot.deferred(now).scan == slot.scan,
        slot.lost(now).scan is None,
        slot.lost(now).id == slot.id && slot.deferred(now).id == slot.id,
        !slot.lost(now).attached(),
        slot.lost(now).ever_attached() <==> slot.state is Attached || (
        slot.state matches SlotStateView::Pending { ever_attached, .. } && ever_attached),
        !slot.lost(now).has_down_channel(),
{
}

/// Each core counts once at the start: as attached, or as pending for its reason.
pub proof fn starts_count_every_core(startup: StartupView, id: CoreId, outcome: AttachView)
    ensures
        ({
            let after = startup.recorded(id, outcome);
            match outcome {
                AttachView::AlreadyAttached => after.attached == startup.attached + 1
                    && after.pending == startup.pending,
                AttachView::Attached { .. } => after.attached == startup.attached + 1
                    && after.pending == startup.pending,
                AttachView::Fatal(_) => after == startup,
                AttachView::Retryable(reason) => after.attached == startup.attached && after.pending
                    == startup.pending.push((id, reason)),
                AttachView::ScanInProgress => after.attached == startup.attached
                    && after.pending.len() == startup.pending.len() + 1 && after.pending.drop_last()
                    == startup.pending && after.pending.last().0 == id,
            }
        }),
{
    assert(startup.recorded(id, outcome).pending.len() > 0 ==> startup.recorded(
        id,
        AttachView::ScanInProgress,
    ).pending.drop_last() =~= startup.pending);
}

/// Bytes of a defmt channel reach its decoder, in order and whole, and every frame
/// that they complete is shown, once and in order. A decoder that would keep more
/// than its limit without a frame is replaced first, with a warning, and one that
/// cannot go on is replaced afterwards; otherwise it goes on where it is.
pub proof fn defmt_bytes_are_decoded(state: DefmtState, bytes: Seq<u8>) -> (count: nat)
    requires
        0 <= state.incomplete,
        state.incomplete + bytes.len() <= usize::MAX,
    ensures
        ({
            let full = bytes.len() > 0 && state.incomplete + bytes.len() > 65_536;
            let history = if full {
                Seq::empty()
            } else {
                state.history
            };
            let steps = defmt::answers(state.data, history.push(Some(bytes)), count);
            let (after, outputs, more) = state.processed(bytes);
            &&& outputs.filter(defmt::is_message()) == steps.filter(
                defmt::is_frame(),
            ).map_values(defmt::as_message())
            &&& full ==> outputs.len() > 0 && outputs[0] is Warning
            &&& after.data == state.data
            &&& after.history == history.push(Some(bytes)) + defmt::requests(count)
                || after.history.len() == 0 && after.incomplete == 0 && (count >= 4096 || (count > 0
                && steps.last() is Failed))
            &&& more || after.history.len() == 0 || (count > 0 && steps.last() is NeedMore)
            &&& more ==> outputs.len() >= 1024
            &&& after.history.len() > 0 && (exists|i: int|
                0 <= i < steps.len() && #[trigger] steps[i] is Frame) ==> after.incomplete
                == bytes.len()
        }),
{
    let ready = state.ready_for(bytes);
    let recovers = defmt::recovers(ready.data.table);
    let count = defmt::every_frame_is_shown(ready.data, ready.history, bytes, recovers);
    let (run, _) = defmt::decoded(ready.data, ready.history, bytes, recovers);
    let (after, outputs, more) = state.processed(bytes);
    let steps = defmt::answers(state.data, ready.history.push(Some(bytes)), count);
    if state.overflows(bytes) {
        let first = seq![OutputView::Warning(overflow_text())];
        Seq::filter_distributes_over_add(first, run.frames, defmt::is_message());
        assert(first.filter(defmt::is_message()) =~= seq![]) by {
            reveal_with_fuel(Seq::filter, 2);
            assert(first.drop_last() =~= Seq::<OutputView>::empty());
        }
        assert(first.filter(defmt::is_message()) + run.frames.filter(defmt::is_message())
            =~= run.frames.filter(defmt::is_message()));
    }
    if exists|i: int| 0 <= i < steps.len() && #[trigger] steps[i] is Frame {
        let i = choose|i: int| 0 <= i < steps.len() && #[trigger] steps[i] is Frame;
        steps.lemma_filter_contains(defmt::is_frame(), i);
        let frames = run.frames.filter(defmt::is_message());
        assert(steps.filter(defmt::is_frame()).len() > 0);
        run.frames.lemma_filter_pred(defmt::is_message(), 0);
        assert(frames.contains(frames[0]));
        run.frames.lemma_filter_contains_rev(defmt::is_message(), frames[0]);
        let j = choose|j: int| 0 <= j < run.frames.len() && run.frames[j] == frames[0];
        assert(run.frames[j] is Frame);
    }
    count
}

/// A control block is as it was exactly where its identifier, both channel counts
/// and all three fields of every recorded entry read as recorded. The counts stand
/// behind the identifier, the fields at the address of their entry.
#[verifier::rlimit(40)]
pub proof fn every_recorded_word_is_compared(snapshot: SnapshotView, readings: Seq<Reading>)
    requires
        snapshot.entries.len() + 2 <= usize::MAX,
        readings.len() == snapshot.entries.len() + 2,
    ensures
        MetadataCheck::over(snapshot, readings).next_step(snapshot) is Valid <==> {
            &&& readings[0] matches Reading::Bytes(bytes) && bytes@ == rtt::magic()
            &&& readings[1] matches Reading::Two(counts) && counts.0 == snapshot.counts.0
                && counts.1 == snapshot.counts.1
            &&& forall|k: int|
                0 <= k < snapshot.entries.len() ==> reads_as(
                    readings[k + 2],
                    #[trigger] snapshot.entries[k],
                )
        },
        snapshot.expectation(0) == Some(Expectation::Magic { address: snapshot.rtt_ptr }),
        snapshot.rtt_ptr <= u32::MAX ==> (snapshot.expectation(
            1,
        ) matches Some(Expectation::Counts { address, .. }) && address == snapshot.rtt_ptr + 16),
        forall|k: int|
            0 <= k < snapshot.entries.len() ==> (snapshot.expectation(
                k + 2,
            ) matches Some(Expectation::Fields { address, .. }) && address == (
            #[trigger] snapshot.entries[k]).address),
{
    comparison_finds_every_change(snapshot, readings);
    if forall|i: int| 0 <= i < readings.len() ==> #[trigger] as_recorded(snapshot, readings, i) {
        assert(as_recorded(snapshot, readings, 0));
        assert(as_recorded(snapshot, readings, 1));
        assert forall|k: int| 0 <= k < snapshot.entries.len() implies reads_as(
            readings[k + 2],
            #[trigger] snapshot.entries[k],
        ) by {
            assert(as_recorded(snapshot, readings, k + 2));
        }
    } else {
        let i = choose|i: int|
            0 <= i < readings.len() && !(#[trigger] as_recorded(snapshot, readings, i));
        if i >= 2 {
            let entry = snapshot.entries[i - 2];
            if reads_as(readings[(i - 2) + 2], entry) {
                assert(entry.fields == readings[i]->Three_0);
            }
        }
    }
}

/// What was read are the three fields of an entry.
pub open spec fn reads_as(reading: Reading, entry: MetadataEntry) -> bool {
    reading matches Reading::Three(fields) && fields.0 == entry.fields.0 && fields.1
        == entry.fields.1 && fields.2 == entry.fields.2
}

/// Input that brings no frame adds to what is incomplete, unless the decoder was
/// replaced.
#[verifier::rlimit(40)]
pub proof fn incomplete_input_is_counted(state: DefmtState, bytes: Seq<u8>)
    requires
        0 <= state.incomplete,
        state.incomplete + bytes.len() <= usize::MAX,
    ensures
        ({
            let (after, outputs, _) = state.processed(bytes);
            let full = bytes.len() > 0 && state.incomplete + bytes.len() > 65_536;
            let before = if full {
                0
            } else {
                state.incomplete
            };
            after.history.len() > 0 && (forall|i: int|
                0 <= i < outputs.len() ==> !(#[trigger] outputs[i] is Frame)) ==> after.incomplete
                == before + bytes.len()
        }),
{
    let (after, outputs, _) = state.processed(bytes);
    let ready = state.ready_for(bytes);
    let run = defmt::decoded(
        ready.data,
        ready.history,
        bytes,
        defmt::recovers(ready.data.table),
    ).0;
    if has_frame(run.frames) {
        let i = choose|i: int| 0 <= i < run.frames.len() && #[trigger] run.frames[i] is Frame;
        let offset = outputs.len() - run.frames.len();
        assert(outputs[i + offset] == run.frames[i]);
    }
}

/// Each read of a terminal channel that brings bytes counts as a message; decoders
/// count their own.
pub proof fn terminal_reads_count_as_messages(run: PollRun, count: usize)
    requires
        run.wf(),
        run.offset < run.readers,
        count <= run.budget,
    ensures
        run.reported(count, false).messages == run.messages,
        count == 0 ==> run.reported(count, true).messages == run.messages,
        count > 0 ==> run.reported(count, true).messages == run.messages + 1,
        run.reported(count, true).bytes == run.bytes + count,
{
}

/// The down channel is there exactly where the core has a channel of that number.
pub proof fn down_channels_are_known_by_number(channel: ChannelId, numbers: Seq<usize>)
    ensures
        has_down(Some(channel), numbers) <==> exists|i: int|
            0 <= i < numbers.len() && #[trigger] numbers[i] == channel.number,
        !has_down(None, numbers),
{
}

/// Every pending core's reason is told, in their order.
pub proof fn every_reason_is_told(pending: Seq<(CoreId, Seq<char>)>)
    ensures
        reasons_text(pending) == text::joined(
            pending.map_values(|core: (CoreId, Seq<char>)| core.1),
            "; "@,
        ),
    decreases pending.len(),
{
    let reasons = pending.map_values(|core: (CoreId, Seq<char>)| core.1);
    if pending.len() > 1 {
        every_reason_is_told(pending.drop_last());
        assert(reasons.drop_last() =~= pending.drop_last().map_values(
            |core: (CoreId, Seq<char>)| core.1,
        ));
    }
}

} // verus!
