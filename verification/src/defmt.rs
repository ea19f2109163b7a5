//! Defmt frames: levels, decoding and what an ELF file provides.
use crate::formats;
use crate::rtt::{RegionView, ScanRegion};
use crate::text;
use vstd::prelude::*;

verus! {

/// Severity of a defmt message.
#[derive(Clone, Copy, Debug, PartialEq, Eq, Structural)]
pub enum Level {
    Trace,
    Debug,
    Info,
    Warn,
    Error,
}

impl Level {
    pub open spec fn name(self) -> Seq<char> {
        match self {
            Level::Trace => "trace"@,
            Level::Debug => "debug"@,
            Level::Info => "info"@,
            Level::Warn => "warn"@,
            Level::Error => "error"@,
        }
    }
}

/// The name of a level in output lines.
pub fn level_name(level: Level) -> (name: &'static str)
    ensures
        name@ == level.name(),
{
    match level {
        Level::Trace => "trace",
        Level::Debug => "debug",
        Level::Info => "info",
        Level::Warn => "warn",
        Level::Error => "error",
    }
}

/// Reads the name of a level.
pub open spec fn read_level(value: Seq<char>) -> Option<Level> {
    if value == "trace"@ {
        Some(Level::Trace)
    } else if value == "debug"@ {
        Some(Level::Debug)
    } else if value == "info"@ {
        Some(Level::Info)
    } else if value == "warn"@ {
        Some(Level::Warn)
    } else if value == "error"@ {
        Some(Level::Error)
    } else {
        None
    }
}

/// The level with this name.
pub fn level_named(name: &str) -> (level: Option<Level>)
    ensures
        level == read_level(name@),
{
    if text::same_text(name, "trace") {
        Some(Level::Trace)
    } else if text::same_text(name, "debug") {
        Some(Level::Debug)
    } else if text::same_text(name, "info") {
        Some(Level::Info)
    } else if text::same_text(name, "warn") {
        Some(Level::Warn)
    } else if text::same_text(name, "error") {
        Some(Level::Error)
    } else {
        None
    }
}

/// The name of a level reads back as that level.
pub proof fn level_names_read_back(level: Level)
    ensures
        read_level(level.name()) == Some(level),
{
    reveal_strlit("trace");
    reveal_strlit("debug");
    reveal_strlit("info");
    reveal_strlit("warn");
    reveal_strlit("error");
    assert("trace"@[0] == 't' && "debug"@[0] == 'd' && "error"@[0] == 'e');
    assert("info"@[0] == 'i' && "warn"@[0] == 'w');
}

/// One decoded message.
#[derive(Debug)]
pub struct DecodedFrame {
    pub message: String,
    pub timestamp: Option<String>,
    pub level: Option<Level>,
}

/// What a `DecodedFrame` holds.
#[verifier::ext_equal]
pub struct FrameView {
    pub message: Seq<char>,
    pub timestamp: Option<Seq<char>>,
    pub level: Option<Level>,
}

impl View for DecodedFrame {
    type V = FrameView;

    open spec fn view(&self) -> FrameView {
        FrameView {
            message: self.message@,
            timestamp: match self.timestamp {
                Some(timestamp) => Some(timestamp@),
                None => None,
            },
            level: self.level,
        }
    }
}

/// One part of a defmt filter: messages of modules under `module` are wanted from
/// `level` up; an empty prefix stands for every module.
#[derive(Clone, Debug, PartialEq, Eq)]
pub struct Filter {
    pub module: String,
    pub level: Level,
}

/// What a `Filter` holds.
#[verifier::ext_equal]
pub struct FilterView {
    pub module: Seq<char>,
    pub level: Level,
}

impl View for Filter {
    type V = FilterView;

    open spec fn view(&self) -> FilterView {
        FilterView { module: self.module@, level: self.level }
    }
}

/// The parts of a defmt filter.
#[derive(Clone, Debug, PartialEq, Eq)]
pub struct FilterSpec {
    pub filters: Vec<Filter>,
}

impl View for FilterSpec {
    type V = Seq<FilterView>;

    open spec fn view(&self) -> Seq<FilterView> {
        Seq::new(self.filters@.len(), |i: int| self.filters@[i]@)
    }
}

/// Reads one part of a filter, `LEVEL` or `MODULE=LEVEL`, at its equals signs.
pub open spec fn read_filter_part(part: Seq<char>) -> Option<FilterView> {
    let sides = text::split_at_char(part, '=');
    if sides.len() == 1 {
        match read_level(sides[0]) {
            Some(level) => Some(FilterView { module: seq![], level }),
            None => None,
        }
    } else if sides.len() == 2 {
        match read_level(sides[1]) {
            Some(level) => Some(FilterView { module: sides[0], level }),
            None => None,
        }
    } else {
        None
    }
}

/// Reads filter parts from left to right; the first bad one decides the error.
pub open spec fn read_filter_parts(parts: Seq<Seq<char>>) -> Result<Seq<FilterView>, Seq<char>>
    decreases parts.len(),
{
    if parts.len() == 0 {
        Ok(seq![])
    } else {
        match read_filter_parts(parts.drop_last()) {
            Err(message) => Err(message),
            Ok(earlier) => match read_filter_part(parts.last()) {
                Some(filter) => Ok(earlier.push(filter)),
                None => Err(
                    "invalid defmt filter '"@ + parts.last()
                        + "', expected LEVEL or MODULE=LEVEL"@,
                ),
            },
        }
    }
}

fn parse_filter_part(part: &[char]) -> (filter: Option<Filter>)
    ensures
        match filter {
            Some(filter) => read_filter_part(part@) == Some(filter@),
            None => read_filter_part(part@) is None,
        },
{
    let sides = text::split_chars(part, '=');
    proof {
        assert(forall|i: int|
            0 <= i < sides@.len() ==> text::text_views(sides@)[i] == (#[trigger] sides@[i])@);
    }
    if sides.len() == 1 {
        match level_named(text::chars_text(sides[0].as_slice()).as_str()) {
            Some(level) => Some(Filter { module: String::new(), level }),
            None => None,
        }
    } else if sides.len() == 2 {
        match level_named(text::chars_text(sides[1].as_slice()).as_str()) {
            Some(level) => Some(
                Filter { module: text::chars_text(sides[0].as_slice()), level },
            ),
            None => None,
        }
    } else {
        None
    }
}

/// A list of filter parts whose prefix is bad is bad in the same way.
proof fn first_bad_filter_decides(parts: Seq<Seq<char>>, prefix: int)
    requires
        0 <= prefix <= parts.len(),
        read_filter_parts(parts.take(prefix)) is Err,
    ensures
        read_filter_parts(parts) == read_filter_parts(parts.take(prefix)),
    decreases parts.len(),
{
    if prefix == parts.len() {
        assert(parts.take(prefix) =~= parts);
    } else {
        assert(parts.drop_last().take(prefix) =~= parts.take(prefix));
        first_bad_filter_decides(parts.drop_last(), prefix);
    }
}

/// Reads the value of `--defmt-filter`: parts between commas.
pub fn parse_filter_spec_value(value: &str) -> (result: Result<FilterSpec, String>)
    ensures
        match result {
            Ok(spec) => read_filter_parts(text::split_at_char(value@, ',')) == Ok::<
                Seq<FilterView>,
                Seq<char>,
            >(spec@),
            Err(message) => read_filter_parts(text::split_at_char(value@, ',')) == Err::<
                Seq<FilterView>,
                Seq<char>,
            >(message@),
        },
{
    let chars = text::chars_of(value);
    let parts = text::split_chars(chars.as_slice(), ',');
    let ghost views = text::text_views(parts@);
    let mut spec = FilterSpec { filters: Vec::new() };
    let mut i: usize = 0;
    proof {
        assert(views.take(0) =~= Seq::<Seq<char>>::empty());
        assert(spec@ =~= Seq::<FilterView>::empty());
    }
    while i < parts.len()
        invariant
            i <= parts@.len(),
            views == text::text_views(parts@),
            views == text::split_at_char(value@, ','),
            read_filter_parts(views.take(i as int)) == Ok::<Seq<FilterView>, Seq<char>>(spec@),
        decreases parts@.len() - i,
    {
        proof {
            assert(views.take(i as int + 1).drop_last() =~= views.take(i as int));
            assert(views.take(i as int + 1).last() == parts@[i as int]@);
        }
        match parse_filter_part(parts[i].as_slice()) {
            Some(filter) => {
                let ghost earlier = spec@;
                spec.filters.push(filter);
                proof {
                    assert(spec@ =~= earlier.push(filter@));
                }
            },
            None => {
                proof {
                    first_bad_filter_decides(views, i as int + 1);
                }
                let spelled = text::chars_text(parts[i].as_slice());
                return Err(
                    text::join3(
                        "invalid defmt filter '",
                        spelled.as_str(),
                        "', expected LEVEL or MODULE=LEVEL",
                    ),
                );
            },
        }
        i += 1;
    }
    proof {
        assert(views.take(views.len() as int) =~= views);
    }
    Ok(spec)
}

impl Level {
    /// How severe a level is.
    pub open spec fn severity(self) -> int {
        match self {
            Level::Trace => 0,
            Level::Debug => 1,
            Level::Info => 2,
            Level::Warn => 3,
            Level::Error => 4,
        }
    }

    fn rank(self) -> (rank: u8)
        ensures
            rank == self.severity(),
    {
        match self {
            Level::Trace => 0,
            Level::Debug => 1,
            Level::Info => 2,
            Level::Warn => 3,
            Level::Error => 4,
        }
    }
}

/// A module is the one that a prefix names, or lies under it. An empty prefix
/// covers every module.
pub open spec fn covers(prefix: Seq<char>, module: Seq<char>) -> bool {
    ||| prefix.len() == 0
    ||| prefix == module
    ||| {
        &&& prefix.len() + 2 <= module.len()
        &&& module.take(prefix.len() as int) == prefix
        &&& module[prefix.len() as int] == ':'
        &&& module[prefix.len() as int + 1] == ':'
    }
}

/// The part of a filter that decides on a module: the longest prefix that covers
/// it, and the first of several alike.
pub open spec fn decides(filters: Seq<FilterView>, module: Seq<char>, i: int) -> bool {
    &&& 0 <= i < filters.len()
    &&& covers(filters[i].module, module)
    &&& forall|j: int|
        0 <= j < filters.len() && covers((#[trigger] filters[j]).module, module) ==> {
            ||| filters[j].module.len() < filters[i].module.len()
            ||| filters[j].module.len() == filters[i].module.len() && i <= j
        }
}

/// A filter hides messages of this level in a module: the part that decides on
/// the module wants more severe ones.
pub open spec fn hides(filters: Seq<FilterView>, module: Seq<char>, level: Level) -> bool {
    exists|i: int|
        #[trigger] decides(filters, module, i) && level.severity() < filters[i].level.severity()
}

/// The views of a list of filter parts.
pub open spec fn filter_views(filters: Seq<Filter>) -> Seq<FilterView> {
    Seq::new(filters.len(), |i: int| filters[i]@)
}

fn is_covered(prefix: &[char], module: &[char]) -> (covered: bool)
    ensures
        covered == covers(prefix@, module@),
{
    let length = prefix.len();
    if length == 0 {
        return true;
    }
    if module.len() < length {
        return false;
    }
    let mut i: usize = 0;
    while i < length
        invariant
            i <= length,
            length == prefix@.len(),
            length <= module@.len(),
            length > 0,
            module@.take(i as int) == prefix@.take(i as int),
        decreases length - i,
    {
        if prefix[i] != module[i] {
            proof {
                assert(module@[i as int] != prefix@[i as int]);
                if module@.take(length as int) == prefix@ {
                    assert(module@.take(length as int)[i as int] == prefix@[i as int]);
                }
            }
            return false;
        }
        proof {
            assert(module@.take(i as int + 1) =~= module@.take(i as int).push(module@[i as int]));
            assert(prefix@.take(i as int + 1) =~= prefix@.take(i as int).push(prefix@[i as int]));
        }
        i += 1;
    }
    proof {
        assert(prefix@.take(length as int) =~= prefix@);
    }
    if module.len() == length {
        proof {
            assert(module@.take(length as int) =~= module@);
        }
        return true;
    }
    module.len() - length >= 2 && module[length] == ':' && module[length + 1] == ':'
}

/// The level from which on a filter wants messages of a module; nothing where no
/// part covers the module.
pub fn filter_level(module: &str, filters: &[Filter]) -> (minimum: Option<Level>)
    ensures
        match minimum {
            Some(level) => exists|i: int|
                #[trigger] decides(filter_views(filters@), module@, i) && filters@[i].level
                    == level,
            None => forall|i: int|
                0 <= i < filters@.len() ==> !covers((#[trigger] filters@[i]).module@, module@),
        },
{
    let ghost views = filter_views(filters@);
    let module_chars = text::chars_of(module);
    let mut minimum: Option<Level> = None;
    let mut longest: usize = 0;
    let ghost mut best: int = 0;
    let mut i: usize = 0;
    while i < filters.len()
        invariant
            i <= filters@.len(),
            views == filter_views(filters@),
            module_chars@ == module@,
            match minimum {
                Some(level) => {
                    &&& 0 <= best < i
                    &&& level == filters@[best].level
                    &&& longest == views[best].module.len()
                    &&& decides(views.take(i as int), module@, best)
                },
                None => forall|j: int|
                    0 <= j < i ==> !covers((#[trigger] filters@[j]).module@, module@),
            },
        decreases filters@.len() - i,
    {
        let prefix = text::chars_of(filters[i].module.as_str());
        let ghost earlier = views.take(i as int);
        let ghost seen = views.take(i as int + 1);
        proof {
            assert(seen =~= earlier.push(filters@[i as int]@));
            assert(forall|j: int| 0 <= j < i ==> seen[j] == earlier[j]);
            assert(forall|j: int| 0 <= j <= i ==> (#[trigger] seen[j]) == filters@[j]@);
        }
        let better = match minimum {
            Some(_) => prefix.len() > longest,
            None => true,
        };
        if is_covered(prefix.as_slice(), module_chars.as_slice()) && better {
            minimum = Some(filters[i].level);
            longest = prefix.len();
            proof {
                best = i as int;
                assert(decides(seen, module@, best)) by {
                    assert forall|j: int|
                        0 <= j < seen.len() && covers((#[trigger] seen[j]).module, module@) implies {
                        ||| seen[j].module.len() < seen[best].module.len()
                        ||| seen[j].module.len() == seen[best].module.len() && best <= j
                    } by {
                        if j < i {
                            assert(earlier[j] == seen[j]);
                            assert(filters@[j]@ == seen[j]);
                        }
                    }
                }
            }
        } else {
            proof {
                if minimum is Some {
                    assert(decides(seen, module@, best)) by {
                        assert forall|j: int|
                            0 <= j < seen.len() && covers(
                                (#[trigger] seen[j]).module,
                                module@,
                            ) implies {
                            ||| seen[j].module.len() < seen[best].module.len()
                            ||| seen[j].module.len() == seen[best].module.len() && best <= j
                        } by {
                            if j < i {
                                assert(earlier[j] == seen[j]);
                            }
                        }
                    }
                }
            }
        }
        i += 1;
    }
    proof {
        assert(views.take(views.len() as int) =~= views);
    }
    minimum
}

/// Whether messages of a level are wanted from a minimum on; without a minimum
/// all are.
pub fn level_enabled(level: Level, minimum: Option<Level>) -> (enabled: bool)
    ensures
        enabled == (match minimum {
            Some(minimum) => level.severity() >= minimum.severity(),
            None => true,
        }),
{
    match minimum {
        Some(minimum) => level.rank() >= minimum.rank(),
        None => true,
    }
}

/// The frame of this module is not to be shown or logged: it has a level, and
/// there is a filter that hides it.
pub open spec fn frame_hidden(
    frame: FrameView,
    module: Seq<char>,
    filters: Option<Seq<FilterView>>,
) -> bool {
    match (frame.level, filters) {
        (Some(level), Some(filters)) => hides(filters, module, level),
        _ => false,
    }
}

/// The view of an optional filter.
pub open spec fn filters_view(spec: Option<FilterSpec>) -> Option<Seq<FilterView>> {
    match spec {
        Some(spec) => Some(spec@),
        None => None,
    }
}

/// Whether a frame of this module is hidden by a filter.
pub fn is_hidden(frame: &DecodedFrame, module: &str, spec: &Option<FilterSpec>) -> (hidden: bool)
    ensures
        hidden == frame_hidden(frame@, module@, filters_view(*spec)),
{
    match (frame.level, spec) {
        (Some(level), Some(spec)) => {
            let minimum = filter_level(module, spec.filters.as_slice());
            let hidden = !level_enabled(level, minimum);
            proof {
                let views = filter_views(spec.filters@);
                assert(spec@ =~= views);
                match minimum {
                    Some(lowest) => {
                        let i = choose|i: int|
                            #[trigger] decides(views, module@, i) && spec.filters@[i].level
                                == lowest;
                        assert(views[i].level == lowest);
                        if hides(views, module@, level) {
                            let j = choose|j: int|
                                #[trigger] decides(views, module@, j) && level.severity()
                                    < views[j].level.severity();
                            one_part_decides(views, module@, i, j);
                        }
                    },
                    None => {
                        if hides(views, module@, level) {
                            let j = choose|j: int|
                                #[trigger] decides(views, module@, j) && level.severity()
                                    < views[j].level.severity();
                            assert(covers(spec.filters@[j].module@, module@));
                        }
                    },
                }
            }
            hidden
        },
        _ => false,
    }
}

/// At most one part of a filter decides on a module.
pub proof fn one_part_decides(filters: Seq<FilterView>, module: Seq<char>, i: int, j: int)
    requires
        decides(filters, module, i),
        decides(filters, module, j),
    ensures
        i == j,
{
    assert(covers(filters[i].module, module) && covers(filters[j].module, module));
}

/// A filter hides only what the part that decides on the module does not want.
/// A message without a level is never hidden.
pub proof fn wanted_messages_are_shown(
    frame: FrameView,
    module: Seq<char>,
    filters: Seq<FilterView>,
    i: int,
)
    requires
        decides(filters, module, i),
    ensures
        frame_hidden(frame, module, Some(filters)) <==> (frame.level matches Some(level)
            && level.severity() < filters[i].level.severity()),
{
    if let Some(level) = frame.level {
        if hides(filters, module, level) {
            let j = choose|j: int|
                #[trigger] decides(filters, module, j) && level.severity()
                    < filters[j].level.severity();
            one_part_decides(filters, module, i, j);
        }
    }
}

/// Modules that no part of a filter covers keep all their messages.
pub proof fn uncovered_modules_are_shown(
    frame: FrameView,
    module: Seq<char>,
    filters: Seq<FilterView>,
)
    requires
        forall|i: int|
            0 <= i < filters.len() ==> !covers((#[trigger] filters[i]).module, module),
    ensures
        !frame_hidden(frame, module, Some(filters)),
{
}

/// A bare level applies to every module.
pub proof fn bare_levels_apply_everywhere(frame: FrameView, module: Seq<char>, level: Level)
    ensures
        frame_hidden(frame, module, Some(seq![FilterView { module: seq![], level }])) <==> (
        frame.level matches Some(own) && own.severity() < level.severity()),
{
    let filters = seq![FilterView { module: seq![], level }];
    assert(decides(filters, module, 0));
    wanted_messages_are_shown(frame, module, filters, 0);
}

/// Frames decoded in one go.
pub const MAX_DECODED_FRAMES: usize = 1024;

/// Attempts to decode in one go.
pub const MAX_DECODE_ITERATIONS: usize = 4096;

/// Warnings of one go that are shown one by one.
pub const MAX_DECODE_WARNINGS: u64 = 8;

/// Bytes without a complete frame after which a decoder starts over.
pub const MAX_DECODE_BUFFERED_BYTES: usize = 65_536;

/// The table that tells a `defmt` decoder how messages read.
#[verifier::external_type_specification]
#[verifier::external_body]
pub struct ExTable(defmt_decoder::Table);

/// The table in an ELF file, if it has one; the error text for a file that cannot
/// be read or whose table this crate cannot use.
pub uninterp spec fn parsed_table(elf: Seq<u8>) -> Result<Option<defmt_decoder::Table>, Seq<char>>;

/// `defmt_decoder::Table::parse`: a function of the file.
#[verifier::external_body]
fn parse_table(elf: &[u8]) -> (result: Result<Option<defmt_decoder::Table>, String>)
    ensures
        match result {
            Ok(table) => parsed_table(elf@) == Ok::<Option<defmt_decoder::Table>, Seq<char>>(table),
            Err(text) => parsed_table(elf@) == Err::<Option<defmt_decoder::Table>, Seq<char>>(
                text@,
            ),
        },
{
    defmt_decoder::Table::parse(elf).map_err(|error| error.to_string())
}

/// Messages of this table can be found again after lost bytes: they are framed.
pub open spec fn recovers(table: defmt_decoder::Table) -> bool {
    encoding_name(table) == "Rzcobs"@
}

/// `defmt_decoder::Table::encoding` and `Encoding::can_recover`: so for the one
/// encoding that has frames.
#[verifier::external_body]
pub(crate) fn can_recover(table: &defmt_decoder::Table) -> (recoverable: bool)
    ensures
        recoverable == recovers(*table),
{
    table.encoding().can_recover()
}

/// Whether messages carry a timestamp.
pub uninterp spec fn timestamped(table: defmt_decoder::Table) -> bool;

/// `defmt_decoder::Table::has_timestamp`: a property of the table.
#[verifier::external_body]
fn table_has_timestamp(table: &defmt_decoder::Table) -> (found: bool)
    ensures
        found == timestamped(*table),
{
    table.has_timestamp()
}

/// The symbols of a table's entries.
pub uninterp spec fn entry_symbols(table: defmt_decoder::Table) -> Seq<Seq<char>>;

/// `defmt_decoder::Table::raw_symbols`, as a list: a property of the table.
#[verifier::external_body]
fn table_symbols(table: &defmt_decoder::Table) -> (symbols: Vec<String>)
    ensures
        text::string_views(symbols@) == entry_symbols(*table),
{
    table.raw_symbols().map(|symbol| symbol.to_string()).collect()
}

/// Frames of a table that was read from `file` can be decoded whatever is in
/// them. The names of the entries are known one by one; that of the timestamp is
/// told by its tag among the strings of the file.
pub open spec fn decodable(table: defmt_decoder::Table, file: Seq<u8>) -> bool {
    &&& formats::all_sound(entry_symbols(table))
    &&& timestamped(table) ==> forall|name: Seq<u8>| #[trigger]
        formats::stamp_name(file, name) ==> formats::sound(name)
}

/// Frames of the table can be decoded.
pub open spec fn can_decode(table: defmt_decoder::Table) -> bool {
    exists|file: Seq<u8>|
        #[trigger] parsed_table(file) == Ok::<Option<defmt_decoder::Table>, Seq<char>>(Some(table))
            && decodable(table, file)
}

/// The message of the table that has this index can be printed. `message_indices`
/// and `entry_symbols` go through the entries in the same order, the former without
/// those that are no messages of their own.
pub open spec fn can_print(table: defmt_decoder::Table, index: u64) -> bool {
    formats::may_print(message_indices(table), entry_symbols(table), index)
}

/// The timestamps of a table that was read from `file` can be printed.
pub open spec fn stampable(table: defmt_decoder::Table, file: Seq<u8>) -> bool {
    timestamped(table) ==> forall|name: Seq<u8>| #[trigger]
        formats::stamp_name(file, name) ==> formats::fits(
        formats::held(entry_symbols(table)),
        name,
    )
}

/// Timestamps of the table can be printed.
pub open spec fn can_stamp(table: defmt_decoder::Table) -> bool {
    exists|file: Seq<u8>|
        #[trigger] parsed_table(file) == Ok::<Option<defmt_decoder::Table>, Seq<char>>(Some(table))
            && stampable(table, file)
}

/// A stream decoder of the `defmt_decoder` crate.
#[verifier::external_body]
pub struct FrameStream<'t> {
    inner: Box<dyn defmt_decoder::StreamDecoder + Send + Sync + 't>,
}

/// The table that a stream decodes with.
pub uninterp spec fn stream_table(stream: &FrameStream<'_>) -> defmt_decoder::Table;

/// What was done with a stream so far: bytes handed in, or nothing where a frame
/// was asked for.
pub uninterp spec fn stream_history(stream: &FrameStream<'_>) -> Seq<Option<Seq<u8>>>;

/// What a stream answers when a frame is asked for, after this history.
pub uninterp spec fn next_answer(
    table: defmt_decoder::Table,
    history: Seq<Option<Seq<u8>>>,
) -> AnswerView;

/// A frame of the `defmt_decoder` crate.
#[verifier::external_type_specification]
#[verifier::external_body]
pub struct ExFrame<'t>(defmt_decoder::Frame<'t>);

/// What a frame holds, with the texts that its message and timestamp are printed
/// as where they can be.
pub struct FrameContents {
    pub message: Seq<char>,
    pub timestamp: Option<Seq<char>>,
    pub level: Option<Seq<char>>,
    pub index: u64,
}

/// What a frame holds.
pub uninterp spec fn frame_contents(frame: &defmt_decoder::Frame<'_>) -> FrameContents;

/// The table that a frame was decoded with.
pub uninterp spec fn frame_table(frame: &defmt_decoder::Frame<'_>) -> defmt_decoder::Table;

/// What comes of asking a stream for a frame.
pub enum AnswerView {
    Frame(FrameContents),
    NeedMore,
    Failed(Seq<char>),
}

/// The answer of a stream decoder.
#[derive(Debug)]
pub enum DecodeStep {
    /// A message, with the name of its level and its index in the table.
    Frame { message: String, timestamp: Option<String>, level: Option<String>, index: u64 },
    /// The bytes so far hold no further complete frame.
    NeedMore,
    /// The bytes make no sense; the text of the error.
    Failed(String),
}

/// What a `DecodeStep` holds.
#[verifier::ext_equal]
pub enum StepView {
    Frame {
        message: Seq<char>,
        timestamp: Option<Seq<char>>,
        level: Option<Seq<char>>,
        index: u64,
    },
    NeedMore,
    Failed(Seq<char>),
}

/// The view of an optional string.
pub open spec fn optional_text(text: Option<String>) -> Option<Seq<char>> {
    match text {
        Some(text) => Some(text@),
        None => None,
    }
}

impl View for DecodeStep {
    type V = StepView;

    open spec fn view(&self) -> StepView {
        match *self {
            DecodeStep::Frame { message, timestamp, level, index } => StepView::Frame {
                message: message@,
                timestamp: optional_text(timestamp),
                level: optional_text(level),
                index,
            },
            DecodeStep::NeedMore => StepView::NeedMore,
            DecodeStep::Failed(error) => StepView::Failed(error@),
        }
    }
}

/// `defmt_decoder::Table::new_stream_decoder`: a stream that nothing was done
/// with yet.
#[verifier::external_body]
pub(crate) fn new_stream<'t>(table: &'t defmt_decoder::Table) -> (stream: FrameStream<'t>)
    ensures
        stream_table(&stream) == *table,
        stream_history(&stream) == Seq::<Option<Seq<u8>>>::empty(),
{
    FrameStream { inner: table.new_stream_decoder() }
}

/// `defmt_decoder::StreamDecoder::received`: the bytes are handed in.
#[verifier::external_body]
fn receive(stream: &mut FrameStream<'_>, bytes: &[u8])
    ensures
        stream_table(final(stream)) == stream_table(old(stream)),
        stream_history(final(stream)) == stream_history(old(stream)).push(Some(bytes@)),
{
    stream.inner.received(bytes);
}

/// `defmt_decoder::StreamDecoder::decode`: a function of the table and of what was
/// done with the stream before. There is no error where the bytes hold no further
/// complete frame; else it is the text of the error.
///
/// The crate makes room for as many arguments and elements as format strings
/// say; so they ask for a few only. A message can hold others, one within the
/// other, as deep as its frame has pairs of bytes, and lists as long as its frame
/// says: that the machine has the stack and the memory for them is not stated.
#[verifier::external_body]
fn decode<'s>(stream: &'s mut FrameStream<'_>) -> (answer: Result<
    defmt_decoder::Frame<'s>,
    Option<String>,
>)
    requires
        can_decode(stream_table(old(stream))),
    ensures
        stream_table(final(stream)) == stream_table(old(stream)),
        stream_history(final(stream)) == stream_history(old(stream)).push(None),
        match answer {
            Ok(frame) => frame_table(&frame) == stream_table(old(stream)) && AnswerView::Frame(
                frame_contents(&frame),
            ) == next_answer(stream_table(old(stream)), stream_history(old(stream))),
            Err(None) => AnswerView::NeedMore == next_answer(
                stream_table(old(stream)),
                stream_history(old(stream)),
            ),
            Err(Some(error)) => AnswerView::Failed(error@) == next_answer(
                stream_table(old(stream)),
                stream_history(old(stream)),
            ),
        },
{
    match stream.inner.decode() {
        Ok(frame) => Ok(frame),
        Err(defmt_decoder::DecodeError::UnexpectedEof) => Err(None),
        Err(error) => Err(Some(error.to_string())),
    }
}

/// `defmt_decoder::Frame::index`: the index of the message in the table.
#[verifier::external_body]
fn frame_index(frame: &defmt_decoder::Frame<'_>) -> (index: u64)
    ensures
        index == frame_contents(frame).index,
{
    frame.index()
}

/// `defmt_decoder::Frame::level`, by its name.
#[verifier::external_body]
fn frame_level(frame: &defmt_decoder::Frame<'_>) -> (level: Option<String>)
    ensures
        optional_text(level) == frame_contents(frame).level,
{
    frame.level().map(|level| level.as_str().to_string())
}

/// `defmt_decoder::Frame::display_message` as text.
///
/// The crate stops the program where a value cannot be printed the way that
/// format strings ask; so they ask for nothing of the kind, neither that of the
/// message nor those of the messages without a level that it may hold.
#[verifier::external_body]
fn frame_message(frame: &defmt_decoder::Frame<'_>) -> (message: String)
    requires
        can_print(frame_table(frame), frame_contents(frame).index),
    ensures
        message@ == frame_contents(frame).message,
{
    frame.display_message().to_string()
}

/// `defmt_decoder::Frame::display_timestamp` as text. What is said of
/// `frame_message` holds here too.
#[verifier::external_body]
fn frame_stamp(frame: &defmt_decoder::Frame<'_>) -> (timestamp: Option<String>)
    requires
        can_stamp(frame_table(frame)),
    ensures
        optional_text(timestamp) == frame_contents(frame).timestamp,
{
    frame.display_timestamp().map(|timestamp| timestamp.to_string())
}

/// What stands for a message that may not be printed.
pub open spec fn index_text(index: u64) -> Seq<char> {
    "message 0x"@ + text::digits(index as nat, 16)
}

fn describe_index(index: u64) -> (message: String)
    ensures
        message@ == index_text(index),
{
    let mut message = String::new();
    text::push_str(&mut message, "message 0x");
    text::push_number(&mut message, index, 16);
    proof {
        assert(message@ =~= index_text(index));
    }
    message
}

/// One result of decoding.
#[derive(Debug)]
pub enum DecodeOutput {
    /// A message and its index in the table.
    Frame { frame: DecodedFrame, index: u64 },
    Warning(String),
}

/// What a `DecodeOutput` holds.
#[verifier::ext_equal]
pub enum OutputView {
    Frame { frame: FrameView, index: u64 },
    Warning(Seq<char>),
}

impl View for DecodeOutput {
    type V = OutputView;

    open spec fn view(&self) -> OutputView {
        match *self {
            DecodeOutput::Frame { frame, index } => OutputView::Frame { frame: frame@, index },
            DecodeOutput::Warning(text) => OutputView::Warning(text@),
        }
    }
}

/// The views of a list of results.
pub open spec fn output_views(outputs: Seq<DecodeOutput>) -> Seq<OutputView> {
    Seq::new(outputs.len(), |i: int| outputs[i]@)
}

/// What decoding the bytes of one poll gave.
#[derive(Debug)]
pub struct DecodedFrames {
    pub frames: Vec<DecodeOutput>,
    pub warnings: u64,
    pub suppressed_warnings: u64,
    /// There may be more frames to decode without further bytes.
    pub hit_frame_limit: bool,
    /// The decoder cannot go on and must be replaced.
    pub restart: bool,
    /// How often a frame was asked for.
    pub iterations: usize,
}

/// What a `DecodedFrames` holds.
#[verifier::ext_equal]
pub struct RunView {
    pub frames: Seq<OutputView>,
    pub warnings: int,
    pub suppressed_warnings: int,
    pub hit_frame_limit: bool,
    pub restart: bool,
    pub iterations: int,
}

impl View for DecodedFrames {
    type V = RunView;

    open spec fn view(&self) -> RunView {
        RunView {
            frames: output_views(self.frames@),
            warnings: self.warnings as int,
            suppressed_warnings: self.suppressed_warnings as int,
            hit_frame_limit: self.hit_frame_limit,
            restart: self.restart,
            iterations: self.iterations as int,
        }
    }
}

impl RunView {
    pub open spec fn initial() -> RunView {
        RunView {
            frames: seq![],
            warnings: 0,
            suppressed_warnings: 0,
            hit_frame_limit: false,
            restart: false,
            iterations: 0,
        }
    }

    /// Counters stay below the number of attempts.
    pub open spec fn wf(self) -> bool {
        &&& 0 <= self.iterations <= MAX_DECODE_ITERATIONS
        &&& self.frames.len() <= MAX_DECODED_FRAMES
        &&& self.frames.len() <= self.iterations
        &&& 0 <= self.warnings <= self.iterations
        &&& 0 <= self.suppressed_warnings <= self.iterations
    }

    /// Before asking for a frame: whether there is to be another attempt. Too many
    /// attempts without as many frames mean that the decoder is stuck.
    pub open spec fn attempted(self) -> (RunView, bool) {
        if self.frames.len() >= MAX_DECODED_FRAMES {
            (RunView { hit_frame_limit: true, ..self }, false)
        } else if self.iterations >= MAX_DECODE_ITERATIONS {
            (
                RunView {
                    suppressed_warnings: self.suppressed_warnings + 1,
                    restart: true,
                    ..self
                },
                false,
            )
        } else {
            (RunView { iterations: self.iterations + 1, ..self }, true)
        }
    }

    /// After an answer: whether to go on. A framed encoding finds its way again
    /// after an error; a raw one needs a new decoder.
    pub open spec fn taken(self, step: StepView, can_recover: bool) -> (RunView, bool) {
        match step {
            StepView::Frame { message, timestamp, level, index } => (
                RunView {
                    frames: self.frames.push(
                        OutputView::Frame {
                            frame: FrameView {
                                message,
                                timestamp,
                                level: match level {
                                    Some(name) => read_level(name),
                                    None => None,
                                },
                            },
                            index,
                        },
                    ),
                    ..self
                },
                true,
            ),
            StepView::NeedMore => (self, false),
            StepView::Failed(error) => if !can_recover {
                (
                    RunView {
                        warnings: self.warnings + 1,
                        frames: self.frames.push(
                            OutputView::Warning(
                                "defmt decode warning: "@ + error + "; resetting decoder"@,
                            ),
                        ),
                        restart: true,
                        ..self
                    },
                    false,
                )
            } else if self.warnings + 1 <= MAX_DECODE_WARNINGS {
                (
                    RunView {
                        warnings: self.warnings + 1,
                        frames: self.frames.push(
                            OutputView::Warning("defmt decode warning: "@ + error + ""@),
                        ),
                        ..self
                    },
                    true,
                )
            } else {
                (
                    RunView {
                        warnings: self.warnings + 1,
                        suppressed_warnings: self.suppressed_warnings + 1,
                        ..self
                    },
                    true,
                )
            },
        }
    }

    /// The result with a word on what was not shown.
    pub open spec fn finished(self) -> RunView {
        if self.suppressed_warnings > 0 {
            RunView {
                frames: self.frames.push(
                    OutputView::Warning(
                        ""@ + text::decimal(self.suppressed_warnings as nat)
                            + " further defmt decode warnings suppressed"@,
                    ),
                ),
                ..self
            }
        } else {
            self
        }
    }
}

/// Asks for frames until there are none, or until a limit is reached.
pub open spec fn decode_all(
    data: DataView,
    history: Seq<Option<Seq<u8>>>,
    run: RunView,
    can_recover: bool,
) -> (RunView, Seq<Option<Seq<u8>>>)
    decreases MAX_DECODE_ITERATIONS - run.iterations,
{
    let (attempted, attempt) = run.attempted();
    if !attempt {
        (attempted, history)
    } else {
        let (taken, more) = attempted.taken(data.step(history), can_recover);
        if more {
            decode_all(data, history.push(None), taken, can_recover)
        } else {
            (taken, history.push(None))
        }
    }
}

/// Decodes everything complete once `bytes` arrived: the result and what was done
/// with the stream then.
pub open spec fn decoded(
    data: DataView,
    history: Seq<Option<Seq<u8>>>,
    bytes: Seq<u8>,
    can_recover: bool,
) -> (RunView, Seq<Option<Seq<u8>>>) {
    let (run, after) = decode_all(
        data,
        history.push(Some(bytes)),
        RunView::initial(),
        can_recover,
    );
    (run.finished(), after)
}

impl DecodedFrames {
    /// Nothing decoded yet.
    pub fn new() -> (run: Self)
        ensures
            run@ == RunView::initial(),
    {
        let run = DecodedFrames {
            frames: Vec::new(),
            warnings: 0,
            suppressed_warnings: 0,
            hit_frame_limit: false,
            restart: false,
            iterations: 0,
        };
        proof {
            assert(run@.frames =~= seq![]);
        }
        run
    }

    fn push(&mut self, output: DecodeOutput)
        ensures
            final(self)@ == (RunView { frames: old(self)@.frames.push(output@), ..old(self)@ }),
    {
        self.frames.push(output);
        proof {
            assert(self@.frames =~= old(self)@.frames.push(output@));
        }
    }

    /// Decides on another attempt.
    pub fn try_again(&mut self) -> (attempt: bool)
        requires
            old(self)@.wf(),
        ensures
            final(self)@ == old(self)@.attempted().0,
            attempt == old(self)@.attempted().1,
    {
        if self.frames.len() >= MAX_DECODED_FRAMES {
            self.hit_frame_limit = true;
            return false;
        }
        if self.iterations >= MAX_DECODE_ITERATIONS {
            self.suppressed_warnings = self.suppressed_warnings + 1;
            self.restart = true;
            return false;
        }
        self.iterations = self.iterations + 1;
        true
    }

    /// Takes the answer to an attempt and decides whether to go on.
    pub fn take(&mut self, step: DecodeStep, can_recover: bool) -> (more: bool)
        requires
            0 <= old(self)@.warnings < u64::MAX,
            0 <= old(self)@.suppressed_warnings < u64::MAX,
        ensures
            final(self)@ == old(self)@.taken(step@, can_recover).0,
            more == old(self)@.taken(step@, can_recover).1,
    {
        match step {
            DecodeStep::Frame { message, timestamp, level, index } => {
                let level = match level {
                    Some(name) => level_named(name.as_str()),
                    None => None,
                };
                let frame = DecodedFrame { message, timestamp, level };
                self.push(DecodeOutput::Frame { frame, index });
                true
            },
            DecodeStep::NeedMore => false,
            DecodeStep::Failed(error) => {
                self.warnings = self.warnings + 1;
                if !can_recover {
                    self.push(
                        DecodeOutput::Warning(
                            text::join3(
                                "defmt decode warning: ",
                                error.as_str(),
                                "; resetting decoder",
                            ),
                        ),
                    );
                    self.restart = true;
                    return false;
                }
                if self.warnings <= MAX_DECODE_WARNINGS {
                    self.push(
                        DecodeOutput::Warning(
                            text::join3("defmt decode warning: ", error.as_str(), ""),
                        ),
                    );
                } else {
                    self.suppressed_warnings = self.suppressed_warnings + 1;
                }
                true
            },
        }
    }

    /// Adds a word on the warnings that were not shown.
    pub fn finish(&mut self)
        ensures
            final(self)@ == old(self)@.finished(),
    {
        if self.suppressed_warnings > 0 {
            let count = text::decimal_text(self.suppressed_warnings);
            self.push(
                DecodeOutput::Warning(
                    text::join3("", count.as_str(), " further defmt decode warnings suppressed"),
                ),
            );
        }
    }
}

/// An answer keeps the counters in order.
proof fn taking_keeps_order(run: RunView, step: StepView, can_recover: bool)
    requires
        run.wf(),
        run.attempted().1,
    ensures
        run.attempted().0.taken(step, can_recover).0.wf(),
        run.attempted().0.taken(step, can_recover).0.iterations == run.iterations + 1,
{
}

/// Hands `bytes` to the stream and decodes everything complete. Errors become
/// warnings and never end the session.
pub fn decode_frames(
    stream: &mut FrameStream<'_>,
    data: &DefmtData,
    bytes: &[u8],
    can_recover: bool,
) -> (result: DecodedFrames)
    requires
        stream_table(old(stream)) == data@.table,
    ensures
        ({
            let (run, after) = decoded(
                data@,
                stream_history(old(stream)),
                bytes@,
                can_recover,
            );
            result@ == run && stream_history(final(stream)) == after && stream_table(final(stream))
                == stream_table(old(stream))
        }),
{
    let ghost table = stream_table(stream);
    receive(stream, bytes);
    let ghost start = stream_history(stream);
    let mut result = DecodedFrames::new();
    let mut more = true;
    while more
        invariant
            stream_table(stream) == table,
            table == data@.table,
            table == stream_table(old(stream)),
            start == stream_history(old(stream)).push(Some(bytes@)),
            more ==> result@.wf(),
            more ==> decode_all(data@, stream_history(stream), result@, can_recover) == decode_all(
                data@,
                start,
                RunView::initial(),
                can_recover,
            ),
            !more ==> (result@, stream_history(stream)) == decode_all(
                data@,
                start,
                RunView::initial(),
                can_recover,
            ),
        decreases
                (if more {
                    1 + MAX_DECODE_ITERATIONS - result@.iterations
                } else {
                    0
                }),
    {
        let ghost before = result@;
        let ghost history = stream_history(stream);
        if result.try_again() {
            let step = data.next_step(stream);
            proof {
                taking_keeps_order(before, step@, can_recover);
            }
            more = result.take(step, can_recover);
        } else {
            more = false;
        }
    }
    result.finish();
    result
}

/// One go of decoding is bounded: so many results and no more.
pub proof fn decoding_is_bounded(
    data: DataView,
    history: Seq<Option<Seq<u8>>>,
    run: RunView,
    can_recover: bool,
)
    requires
        run.wf(),
    ensures
        ({
            let (after, calls) = decode_all(data, history, run, can_recover);
            &&& after.frames.len() <= MAX_DECODED_FRAMES
            &&& after.finished().frames.len() <= MAX_DECODED_FRAMES + 1
            &&& calls.len() <= history.len() + MAX_DECODE_ITERATIONS - run.iterations
        }),
    decreases MAX_DECODE_ITERATIONS - run.iterations,
{
    let (attempted, attempt) = run.attempted();
    if attempt {
        let step = data.step(history);
        taking_keeps_order(run, step, can_recover);
        let (taken, more) = attempted.taken(step, can_recover);
        if more {
            decoding_is_bounded(data, history.push(None), taken, can_recover);
        }
    }
}

/// Why an ELF file cannot be used: what failed, and the reason behind it if there
/// is one.
#[derive(Debug)]
pub struct ElfError {
    pub failure: String,
    pub cause: Option<String>,
}

impl ElfError {
    /// The failure as it is shown, without its cause.
    pub fn message(&self) -> (message: String)
        ensures
            message@ == self.failure@,
    {
        self.failure.clone()
    }
}

/// The address of `_SEGGER_RTT` in an ELF file, if the file defines it; the error
/// text for a file that is none.
pub uninterp spec fn control_block_symbol(elf: Seq<u8>) -> Result<Option<u64>, Seq<char>>;

/// `probe_rs::rtt::find_rtt_control_block_in_raw_file`: a function of the file.
#[verifier::external_body]
fn find_control_block(elf: &[u8]) -> (result: Result<Option<u64>, String>)
    ensures
        match result {
            Ok(address) => control_block_symbol(elf@) == Ok::<Option<u64>, Seq<char>>(address),
            Err(text) => control_block_symbol(elf@) == Err::<Option<u64>, Seq<char>>(text@),
        },
{
    probe_rs::rtt::find_rtt_control_block_in_raw_file(elf).map_err(|error| error.to_string())
}

/// What a lookup of the control block means for the scan: a known address is the
/// only place to look, a file without the symbol leaves it open, and a file that
/// cannot be read is an error rather than one without the symbol.
pub fn region_from_symbol(path: &str, lookup: Result<Option<u64>, String>) -> (result: Result<
    Option<ScanRegion>,
    ElfError,
>)
    ensures
        match (lookup, result) {
            (Ok(Some(address)), Ok(Some(region))) => region@ == RegionView::Exact(address),
            (Ok(None), Ok(None)) => true,
            (Err(text), Err(error)) => error.failure@ == "failed to parse ELF '"@ + path@ + "'"@
                && (error.cause matches Some(cause) && cause@ == text@),
            _ => false,
        },
{
    match lookup {
        Ok(Some(address)) => Ok(Some(ScanRegion::Exact(address))),
        Ok(None) => Ok(None),
        Err(text) => Err(
            ElfError {
                failure: text::join3("failed to parse ELF '", path, "'"),
                cause: Some(text),
            },
        ),
    }
}

/// Where an ELF file says the control block is.
pub fn rtt_region_from_elf(path: &str, elf: &[u8]) -> (result: Result<Option<ScanRegion>, ElfError>)
    ensures
        match (control_block_symbol(elf@), result) {
            (Ok(Some(address)), Ok(Some(region))) => region@ == RegionView::Exact(address),
            (Ok(None), Ok(None)) => true,
            (Err(text), Err(error)) => error.failure@ == "failed to parse ELF '"@ + path@ + "'"@
                && (error.cause matches Some(cause) && cause@ == text),
            _ => false,
        },
{
    region_from_symbol(path, find_control_block(elf))
}

/// The views of a list of messages and their modules.
pub open spec fn module_views(modules: Seq<(u64, String)>) -> Seq<(u64, Seq<char>)> {
    Seq::new(modules.len(), |i: int| (modules[i].0, modules[i].1@))
}

/// The modules that a table's messages come from, by the messages' indices, where
/// the ELF file tells.
pub uninterp spec fn message_modules(table: defmt_decoder::Table, elf: Seq<u8>) -> Option<
    Seq<(u64, Seq<char>)>,
>;

/// `defmt_decoder::Table::get_locations`, of which the indices and modules are
/// kept: a function of the table and of the file.
#[verifier::external_body]
fn table_modules(table: &defmt_decoder::Table, elf: &[u8]) -> (modules: Option<Vec<(u64, String)>>)
    ensures
        match modules {
            Some(modules) => message_modules(*table, elf@) == Some(module_views(modules@)),
            None => message_modules(*table, elf@) is None,
        },
{
    let locations = table.get_locations(elf).ok()?;
    Some(locations.into_iter().map(|(index, location)| (index, location.module)).collect())
}

/// The module that a list gives for a message; an empty name where it gives none.
pub open spec fn listed_module(modules: Seq<(u64, Seq<char>)>, index: u64) -> Seq<char>
    decreases modules.len(),
{
    if modules.len() == 0 {
        ""@
    } else if modules.last().0 == index {
        modules.last().1
    } else {
        listed_module(modules.drop_last(), index)
    }
}

/// What is needed to decode the defmt messages of one core.
pub struct DefmtData {
    table: defmt_decoder::Table,
    /// Which module each message comes from, where the ELF file tells.
    modules: Option<Vec<(u64, String)>>,
    /// Which messages may be printed, by their indices.
    judged: Vec<(usize, bool)>,
    /// All messages may be printed.
    texts: bool,
    /// Timestamps may be printed.
    stamps: bool,
}

/// What a `DefmtData` holds.
#[verifier::ext_equal]
pub struct DataView {
    pub table: defmt_decoder::Table,
    pub modules: Option<Seq<(u64, Seq<char>)>>,
    pub stamps: bool,
}

impl View for DefmtData {
    type V = DataView;

    closed spec fn view(&self) -> DataView {
        DataView {
            table: self.table,
            modules: match self.modules {
                Some(modules) => Some(module_views(modules@)),
                None => None,
            },
            stamps: self.stamps,
        }
    }
}

impl DataView {
    /// What comes of asking a stream for a frame. A message that may not be printed
    /// is shown by its index, a timestamp that may not be printed is left out.
    pub open spec fn step(self, history: Seq<Option<Seq<u8>>>) -> StepView {
        match next_answer(self.table, history) {
            AnswerView::Frame(frame) => StepView::Frame {
                message: if can_print(self.table, frame.index) {
                    frame.message
                } else {
                    index_text(frame.index)
                },
                timestamp: if self.stamps {
                    frame.timestamp
                } else {
                    None
                },
                level: frame.level,
                index: frame.index,
            },
            AnswerView::NeedMore => StepView::NeedMore,
            AnswerView::Failed(error) => StepView::Failed(error),
        }
    }

    /// The module of a message; an empty name where it is not known.
    pub open spec fn module_of(self, index: u64) -> Seq<char> {
        match self.modules {
            Some(modules) => listed_module(modules, index),
            None => ""@,
        }
    }
}

impl DefmtData {
    /// Frames can be decoded, and what may be printed of them is known.
    #[verifier::type_invariant]
    spec fn in_order(self) -> bool {
        &&& can_decode(self.table)
        &&& self.judged@ == formats::judged(message_indices(self.table), entry_symbols(self.table))
        &&& self.texts == formats::all_fit(entry_symbols(self.table))
        &&& self.stamps ==> can_stamp(self.table)
    }

    /// The table.
    pub fn table(&self) -> (table: &defmt_decoder::Table)
        ensures
            *table == self@.table,
    {
        &self.table
    }

    /// Asks a stream for a frame.
    fn next_step(&self, stream: &mut FrameStream<'_>) -> (step: DecodeStep)
        requires
            stream_table(old(stream)) == self@.table,
        ensures
            stream_table(final(stream)) == stream_table(old(stream)),
            stream_history(final(stream)) == stream_history(old(stream)).push(None),
            step@ == self@.step(stream_history(old(stream))),
    {
        proof {
            use_type_invariant(self);
        }
        match decode(stream) {
            Ok(frame) => {
                let index = frame_index(&frame);
                let message = if formats::find_verdict(self.judged.as_slice(), index, self.texts) {
                    frame_message(&frame)
                } else {
                    describe_index(index)
                };
                let timestamp = if self.stamps {
                    frame_stamp(&frame)
                } else {
                    None
                };
                DecodeStep::Frame { message, timestamp, level: frame_level(&frame), index }
            },
            Err(None) => DecodeStep::NeedMore,
            Err(Some(error)) => DecodeStep::Failed(error),
        }
    }

    /// The module of a message; an empty name where it is not known.
    pub fn module_of(&self, index: u64) -> (module: &str)
        ensures
            module@ == self@.module_of(index),
    {
        if let Some(modules) = &self.modules {
            let ghost views = module_views(modules@);
            let mut i: usize = modules.len();
            proof {
                assert(views.take(i as int) =~= views);
            }
            while i > 0
                invariant
                    i <= modules@.len(),
                    views == module_views(modules@),
                    self@.modules == Some(views),
                    listed_module(views, index) == listed_module(views.take(i as int), index),
                decreases i,
            {
                i -= 1;
                proof {
                    assert(views.take(i as int + 1).drop_last() =~= views.take(i as int));
                    assert(views.take(i as int + 1).last() == views[i as int]);
                }
                if modules[i].0 == index {
                    return modules[i].1.as_str();
                }
            }
        }
        ""
    }
}

impl DefmtData {
    /// What reading a table means: a file without one cannot be used.
    pub fn from_table(path: &str, parsed: Result<Option<defmt_decoder::Table>, String>) -> (result:
        Result<defmt_decoder::Table, ElfError>)
        ensures
            match (parsed, result) {
                (Ok(Some(table)), Ok(own)) => own == table,
                (Ok(None), Err(error)) => error.failure@ == "ELF '"@ + path@
                    + "' contains no .defmt section"@ && error.cause is None,
                (Err(text), Err(error)) => error.failure@ == "failed to parse defmt table in '"@
                    + path@ + "'"@ && (error.cause matches Some(cause) && cause@ == text@),
                _ => false,
            },
    {
        match parsed {
            Ok(Some(table)) => Ok(table),
            Ok(None) => Err(
                ElfError {
                    failure: text::join3("ELF '", path, "' contains no .defmt section"),
                    cause: None,
                },
            ),
            Err(text) => Err(
                ElfError {
                    failure: text::join3("failed to parse defmt table in '", path, "'"),
                    cause: Some(text),
                },
            ),
        }
    }

    /// `error` is why there is no table to read.
    pub open spec fn unreadable(path: Seq<char>, elf: Seq<u8>, error: ElfError) -> bool {
        match parsed_table(elf) {
            Ok(Some(_)) => false,
            Ok(None) => error.failure@ == "ELF '"@ + path + "' contains no .defmt section"@
                && error.cause is None,
            Err(text) => error.failure@ == "failed to parse defmt table in '"@ + path + "'"@ && (
            error.cause matches Some(cause) && cause@ == text),
        }
    }

    /// `result` is what the file's table amounts to.
    pub open spec fn loaded(path: Seq<char>, elf: Seq<u8>, result: Result<Self, ElfError>) -> bool {
        match (parsed_table(elf), result) {
            (Ok(Some(table)), Ok(data)) => decodable(table, elf) && data@ == (DataView {
                table,
                modules: message_modules(table, elf),
                stamps: stampable(table, elf),
            }),
            (Ok(Some(table)), Err(error)) => !decodable(table, elf) && error.failure@
                == "defmt table in '"@ + path + "' holds numbers that are too large"@
                && error.cause is None,
            (_, Ok(_)) => false,
            (_, Err(error)) => Self::unreadable(path, elf, error),
        }
    }

    /// Reads the table of an ELF file, which modules its messages come from, and
    /// what may be printed of them. A table whose frames cannot be decoded without
    /// making room for absurdly many values is refused.
    pub fn load(path: &str, elf: &[u8]) -> (result: Result<Self, ElfError>)
        ensures
            Self::loaded(path@, elf@, result),
    {
        let table = match Self::from_table(path, parse_table(elf)) {
            Ok(table) => table,
            Err(error) => {
                return Err(error);
            },
        };
        let symbols = table_symbols(&table);
        let names = if table_has_timestamp(&table) {
            formats::stamp_names(elf)
        } else {
            Vec::new()
        };
        if !formats::are_sound(symbols.as_slice()) || !formats::names_are_sound(names.as_slice()) {
            return Err(
                ElfError {
                    failure: text::join3(
                        "defmt table in '",
                        path,
                        "' holds numbers that are too large",
                    ),
                    cause: None,
                },
            );
        }
        let modules = table_modules(&table, elf);
        let indices = table_indices(&table);
        let judged = formats::judge(indices.as_slice(), symbols.as_slice());
        let texts = formats::do_all_fit(symbols.as_slice());
        let held = formats::find_held(symbols.as_slice());
        let stamps = formats::do_names_fit(held, names.as_slice());
        proof {
            assert(parsed_table(elf@) == Ok::<Option<defmt_decoder::Table>, Seq<char>>(Some(table)));
        }
        Ok(DefmtData { table, modules, judged, texts, stamps })
    }
}

/// What an ELF file provides. It is read once, so that the control block address
/// and the table belong together.
pub struct ElfContents {
    pub region: Option<ScanRegion>,
    pub defmt: Option<DefmtData>,
}

impl ElfContents {
    /// Takes an ELF file apart; the table is read only where one is needed.
    pub fn load(path: &str, elf: &[u8], with_defmt: bool) -> (result: Result<Self, ElfError>)
        ensures
            match (control_block_symbol(elf@), result) {
                (Err(text), Err(error)) => error.failure@ == "failed to parse ELF '"@ + path@ + "'"@
                    && (error.cause matches Some(cause) && cause@ == text),
                (Err(_), Ok(_)) => false,
                (Ok(address), Ok(contents)) => {
                    &&& match (address, contents.region) {
                        (Some(address), Some(region)) => region@ == RegionView::Exact(address),
                        (None, None) => true,
                        _ => false,
                    }
                    &&& match contents.defmt {
                        Some(data) => with_defmt && DefmtData::loaded(path@, elf@, Ok(data)),
                        None => !with_defmt,
                    }
                },
                (Ok(_), Err(error)) => with_defmt && DefmtData::loaded(path@, elf@, Err(error)),
            },
    {
        let region = match rtt_region_from_elf(path, elf) {
            Ok(region) => region,
            Err(error) => {
                return Err(error);
            },
        };
        if !with_defmt {
            return Ok(ElfContents { region, defmt: None });
        }
        match DefmtData::load(path, elf) {
            Ok(data) => Ok(ElfContents { region, defmt: Some(data) }),
            Err(error) => Err(error),
        }
    }
}

/// The name of a table's encoding.
pub uninterp spec fn encoding_name(table: defmt_decoder::Table) -> Seq<char>;

/// `defmt_decoder::Table::encoding` as text: a property of the table, which has
/// one of two encodings.
#[verifier::external_body]
fn table_encoding(table: &defmt_decoder::Table) -> (name: String)
    ensures
        name@ == encoding_name(*table),
        name@ == "Raw"@ || name@ == "Rzcobs"@,
{
    format!("{:?}", table.encoding())
}

/// The indices of a table's messages.
pub uninterp spec fn message_indices(table: defmt_decoder::Table) -> Seq<usize>;

/// `defmt_decoder::Table::indices`, as a list: a property of the table.
#[verifier::external_body]
fn table_indices(table: &defmt_decoder::Table) -> (indices: Vec<usize>)
    ensures
        indices@ == message_indices(*table),
{
    table.indices().collect()
}

/// The word for a truth value.
pub open spec fn truth_text(value: bool) -> Seq<char> {
    if value {
        "true"@
    } else {
        "false"@
    }
}

/// One line for each index, in hexadecimal.
pub open spec fn indices_text(indices: Seq<usize>) -> Seq<char>
    decreases indices.len(),
{
    if indices.len() == 0 {
        seq![]
    } else {
        indices_text(indices.drop_last()) + "  0x"@ + text::digits(indices.last() as nat, 16)
            + "\n"@
    }
}

/// One line for each symbol.
pub open spec fn symbols_text(symbols: Seq<Seq<char>>) -> Seq<char>
    decreases symbols.len(),
{
    if symbols.len() == 0 {
        seq![]
    } else {
        symbols_text(symbols.drop_last()) + "  "@ + symbols.last() + "\n"@
    }
}

/// What is printed of a table.
pub open spec fn summary_text(
    path: Seq<char>,
    encoding: Seq<char>,
    has_timestamp: bool,
    has_locations: bool,
    indices: Seq<usize>,
    symbols: Seq<Seq<char>>,
) -> Seq<char> {
    "ELF: "@ + path + "\nEncoding: "@ + encoding + "\nHas timestamp: "@ + truth_text(
        has_timestamp,
    ) + "\nLocations: "@ + truth_text(has_locations) + "\nIndices:\n"@ + indices_text(indices)
        + "Raw symbols:\n"@ + symbols_text(symbols)
}

fn push_truth(out: &mut String, value: bool)
    ensures
        final(out)@ == old(out)@ + truth_text(value),
{
    if value {
        text::push_str(out, "true");
    } else {
        text::push_str(out, "false");
    }
}

/// Prints what a table holds.
pub fn debug_summary(
    path: &str,
    encoding: &str,
    has_timestamp: bool,
    has_locations: bool,
    indices: &[usize],
    symbols: &[String],
) -> (summary: String)
    ensures
        summary@ == summary_text(
            path@,
            encoding@,
            has_timestamp,
            has_locations,
            indices@,
            text::string_views(symbols@),
        ),
{
    let mut out = text::join3("ELF: ", path, "\nEncoding: ");
    text::push_str(&mut out, encoding);
    text::push_str(&mut out, "\nHas timestamp: ");
    push_truth(&mut out, has_timestamp);
    text::push_str(&mut out, "\nLocations: ");
    push_truth(&mut out, has_locations);
    text::push_str(&mut out, "\nIndices:\n");
    push_indices(&mut out, indices);
    text::push_str(&mut out, "Raw symbols:\n");
    push_symbols(&mut out, symbols);
    out
}

fn push_indices(out: &mut String, indices: &[usize])
    ensures
        final(out)@ == old(out)@ + indices_text(indices@),
{
    let mut i: usize = 0;
    proof {
        assert(indices@.take(0) =~= Seq::<usize>::empty());
        assert(out@ =~= old(out)@ + indices_text(indices@.take(0)));
    }
    while i < indices.len()
        invariant
            i <= indices@.len(),
            out@ == old(out)@ + indices_text(indices@.take(i as int)),
        decreases indices@.len() - i,
    {
        text::push_str(out, "  0x");
        text::push_number(out, indices[i] as u64, 16);
        text::push_str(out, "\n");
        proof {
            assert(indices@.take(i as int + 1).drop_last() =~= indices@.take(i as int));
            assert(indices@.take(i as int + 1).last() == indices@[i as int]);
            assert(out@ =~= old(out)@ + indices_text(indices@.take(i as int + 1)));
        }
        i += 1;
    }
    proof {
        assert(indices@.take(indices@.len() as int) =~= indices@);
    }
}

fn push_symbols(out: &mut String, symbols: &[String])
    ensures
        final(out)@ == old(out)@ + symbols_text(text::string_views(symbols@)),
{
    let ghost views = text::string_views(symbols@);
    let mut i: usize = 0;
    proof {
        assert(views.take(0) =~= Seq::<Seq<char>>::empty());
        assert(out@ =~= old(out)@ + symbols_text(views.take(0)));
    }
    while i < symbols.len()
        invariant
            i <= symbols@.len(),
            views == text::string_views(symbols@),
            out@ == old(out)@ + symbols_text(views.take(i as int)),
        decreases symbols@.len() - i,
    {
        text::push_str(out, "  ");
        text::push_str(out, symbols[i].as_str());
        text::push_str(out, "\n");
        proof {
            assert(views.take(i as int + 1).drop_last() =~= views.take(i as int));
            assert(views.take(i as int + 1).last() == symbols@[i as int]@);
            assert(out@ =~= old(out)@ + symbols_text(views.take(i as int + 1)));
        }
        i += 1;
    }
    proof {
        assert(views.take(views.len() as int) =~= views);
    }
}

impl DefmtData {
    /// Prints the table of an ELF file.
    pub fn debug_from_elf(path: &str, elf: &[u8]) -> (result: Result<String, ElfError>)
        ensures
            match result {
                Ok(summary) => parsed_table(elf@) matches Ok(Some(table)) && summary@
                    == summary_text(
                    path@,
                    encoding_name(table),
                    timestamped(table),
                    message_modules(table, elf@) is Some,
                    message_indices(table),
                    entry_symbols(table),
                ),
                Err(error) => Self::unreadable(path@, elf@, error),
            },
    {
        let table = match Self::from_table(path, parse_table(elf)) {
            Ok(table) => table,
            Err(error) => {
                return Err(error);
            },
        };
        let encoding = table_encoding(&table);
        let indices = table_indices(&table);
        let symbols = table_symbols(&table);
        Ok(
            debug_summary(
                path,
                encoding.as_str(),
                table_has_timestamp(&table),
                table_modules(&table, elf).is_some(),
                indices.as_slice(),
                symbols.as_slice(),
            ),
        )
    }
}

/// So many requests for a frame.
pub open spec fn requests(count: nat) -> Seq<Option<Seq<u8>>> {
    Seq::new(count, |i: int| None)
}

/// What a stream answers to so many requests for a frame, one after the other.
pub open spec fn answers(data: DataView, history: Seq<Option<Seq<u8>>>, count: nat) -> Seq<StepView> {
    Seq::new(count, |i: int| data.step(history + requests(i as nat)))
}

pub open spec fn is_message() -> spec_fn(OutputView) -> bool {
    |output: OutputView| output is Frame
}

pub open spec fn is_frame() -> spec_fn(StepView) -> bool {
    |step: StepView| step is Frame
}

pub open spec fn is_failure() -> spec_fn(StepView) -> bool {
    |step: StepView| step is Failed
}

/// A decoded frame as it is shown.
pub open spec fn as_message() -> spec_fn(StepView) -> OutputView {
    |step: StepView|
        OutputView::Frame {
            frame: FrameView {
                message: step->message,
                timestamp: step->timestamp,
                level: match step->level {
                    Some(name) => read_level(name),
                    None => None,
                },
            },
            index: step->index,
        }
}

/// Decoding ends for a reason: the stream needs more bytes, the decoder is to be
/// replaced, or so much was decoded that the rest has to wait.
pub open spec fn ends_well(run: RunView, steps: Seq<StepView>, can_recover: bool) -> bool {
    &&& run.hit_frame_limit || run.restart || (steps.len() > 0 && steps.last() is NeedMore)
    &&& run.hit_frame_limit ==> run.frames.len() >= 1024
    &&& forall|i: int|
        0 <= i < steps.len() - 1 ==> !(#[trigger] steps[i] is NeedMore) && (steps[i] is Failed
            ==> can_recover)
    &&& steps.len() > 0 && steps.last() is Failed && !can_recover ==> run.restart
}

proof fn one_more_answer(data: DataView, history: Seq<Option<Seq<u8>>>, count: nat)
    ensures
        history.push(None) + requests(count) == history + requests(count + 1),
        answers(data, history, count + 1) == seq![data.step(history)] + answers(
            data,
            history.push(None),
            count,
        ),
{
    assert(history.push(None) + requests(count) =~= history + requests(count + 1));
    let longer = answers(data, history, count + 1);
    let shorter = seq![data.step(history)] + answers(data, history.push(None), count);
    assert(history + requests(0) =~= history);
    assert forall|i: int| 0 <= i < longer.len() implies longer[i] == shorter[i] by {
        if i > 0 {
            assert(history.push(None) + requests((i - 1) as nat) =~= history + requests(i as nat));
        }
    }
    assert(longer =~= shorter);
}

/// What one answer adds to the results.
proof fn one_answer_counts(run: RunView, step: StepView, can_recover: bool)
    ensures
        ({
            let (taken, more) = run.taken(step, can_recover);
            let first = seq![step];
            &&& taken.frames.filter(is_message()) == run.frames.filter(is_message())
                + first.filter(is_frame()).map_values(as_message())
            &&& taken.warnings == run.warnings + first.filter(is_failure()).len()
            &&& more <==> step is Frame || (step is Failed && can_recover)
            &&& taken.restart <==> run.restart || (step is Failed && !can_recover)
            &&& taken.hit_frame_limit == run.hit_frame_limit
            &&& taken.iterations == run.iterations
        }),
{
    reveal_with_fuel(Seq::filter, 2);
    let (taken, more) = run.taken(step, can_recover);
    let first = seq![step];
    let kept = run.frames.filter(is_message());
    assert(first.drop_last() =~= Seq::<StepView>::empty());
    assert(first.filter(is_frame()) =~= if step is Frame {
        first
    } else {
        seq![]
    });
    assert(first.filter(is_failure()) =~= if step is Failed {
        first
    } else {
        seq![]
    });
    let shown = first.filter(is_frame()).map_values(as_message());
    assert(taken.frames.len() == run.frames.len() || taken.frames.drop_last() =~= run.frames);
    if step is Frame {
        assert(taken.frames.last() == as_message()(step));
        assert(shown =~= seq![as_message()(step)]);
        assert(taken.frames.filter(is_message()) =~= kept + shown);
    } else {
        assert(shown =~= seq![]);
        assert(kept + shown =~= kept);
    }
}

/// The messages among some answers and those behind them.
proof fn answers_add_up(first: Seq<StepView>, later: Seq<StepView>)
    ensures
        (first + later).filter(is_frame()).map_values(as_message()) == first.filter(
            is_frame(),
        ).map_values(as_message()) + later.filter(is_frame()).map_values(as_message()),
        (first + later).filter(is_failure()).len() == first.filter(is_failure()).len()
            + later.filter(is_failure()).len(),
{
    Seq::filter_distributes_over_add(first, later, is_frame());
    Seq::filter_distributes_over_add(first, later, is_failure());
    assert((first + later).filter(is_frame()).map_values(as_message()) =~= first.filter(
        is_frame(),
    ).map_values(as_message()) + later.filter(is_frame()).map_values(as_message()));
}

#[verifier::rlimit(40)]
proof fn asking_collects_messages(
    data: DataView,
    history: Seq<Option<Seq<u8>>>,
    run: RunView,
    can_recover: bool,
) -> (count: nat)
    requires
        run.wf(),
        !run.restart,
        !run.hit_frame_limit,
    ensures
        ({
            let (after, calls) = decode_all(data, history, run, can_recover);
            let steps = answers(data, history, count);
            &&& calls == history + requests(count)
            &&& after.frames.filter(is_message()) == run.frames.filter(is_message())
                + steps.filter(is_frame()).map_values(as_message())
            &&& after.warnings == run.warnings + steps.filter(is_failure()).len()
            &&& ends_well(after, steps, can_recover)
            &&& after.restart ==> run.iterations + count >= 4096 || (count > 0
                && steps.last() is Failed && !can_recover)
        }),
    decreases MAX_DECODE_ITERATIONS - run.iterations,
{
    let (attempted, attempt) = run.attempted();
    let kept = run.frames.filter(is_message());
    if !attempt {
        nothing_asked_adds_nothing(data, history, kept);
        0
    } else {
        let step = data.step(history);
        let first = seq![step];
        let (taken, more) = attempted.taken(step, can_recover);
        taking_keeps_order(run, step, can_recover);
        one_answer_counts(attempted, step, can_recover);
        if more {
            let rest = asking_collects_messages(data, history.push(None), taken, can_recover);
            let count = rest + 1;
            one_more_answer(data, history, rest);
            let later = answers(data, history.push(None), rest);
            let steps = answers(data, history, count);
            answers_add_up(first, later);
            let shown = first.filter(is_frame()).map_values(as_message());
            let more_shown = later.filter(is_frame()).map_values(as_message());
            assert((kept + shown) + more_shown =~= kept + (shown + more_shown));
            assert forall|i: int| 0 <= i < steps.len() - 1 implies !(#[trigger] steps[i]
                is NeedMore) && (steps[i] is Failed ==> can_recover) by {
                if i > 0 {
                    assert(steps[i] == later[i - 1]);
                }
            }
            if later.len() > 0 {
                assert(steps.last() == later.last());
            }
            count
        } else {
            one_more_answer(data, history, 0);
            assert(answers(data, history.push(None), 0) =~= seq![]);
            assert(first + Seq::<StepView>::empty() =~= first);
            assert(history + requests(1) =~= history.push(None));
            1
        }
    }
}

proof fn nothing_asked_adds_nothing(
    data: DataView,
    history: Seq<Option<Seq<u8>>>,
    kept: Seq<OutputView>,
)
    ensures
        history + requests(0) == history,
        answers(data, history, 0) == Seq::<StepView>::empty(),
        kept + answers(data, history, 0).filter(is_frame()).map_values(as_message()) == kept,
        answers(data, history, 0).filter(is_failure()).len() == 0,
{
    reveal(Seq::filter);
    assert(history + requests(0) =~= history);
    assert(answers(data, history, 0) =~= seq![]);
    assert(kept + answers(data, history, 0).filter(is_frame()).map_values(as_message()) =~= kept);
}

/// Everything complete is decoded once bytes arrived: the stream gets the bytes and
/// is asked until it needs more, cannot go on, or has given so much that the rest
/// waits for the next time. Each frame it gives is shown, once and in order, with
/// its message, timestamp, level and index; each error is counted.
pub proof fn every_frame_is_shown(
    data: DataView,
    history: Seq<Option<Seq<u8>>>,
    bytes: Seq<u8>,
    can_recover: bool,
) -> (count: nat)
    ensures
        ({
            let (run, calls) = decoded(data, history, bytes, can_recover);
            let steps = answers(data, history.push(Some(bytes)), count);
            &&& calls == history.push(Some(bytes)) + requests(count)
            &&& run.frames.filter(is_message()) == steps.filter(is_frame()).map_values(
                as_message(),
            )
            &&& run.warnings == steps.filter(is_failure()).len()
            &&& ends_well(run, steps, can_recover)
            &&& run.restart ==> count >= 4096 || (count > 0 && steps.last() is Failed
                && !can_recover)
        }),
{
    reveal(Seq::filter);
    let start = history.push(Some(bytes));
    let count = asking_collects_messages(data, start, RunView::initial(), can_recover);
    let (before, _) = decode_all(data, start, RunView::initial(), can_recover);
    let (run, _) = decoded(data, history, bytes, can_recover);
    assert(RunView::initial().frames.filter(is_message()) =~= seq![]);
    let steps = answers(data, start, count);
    assert(Seq::<OutputView>::empty() + steps.filter(is_frame()).map_values(as_message())
        =~= steps.filter(is_frame()).map_values(as_message()));
    if before.suppressed_warnings > 0 {
        assert(run.frames.drop_last() =~= before.frames);
    }
    count
}

/// Errors of a decoder that can go on are shown one by one as far as the limit,
/// and counted beyond it; an error of one that cannot is always shown. How many were
/// not shown is said in the end.
pub proof fn errors_are_shown_or_counted(run: RunView, error: Seq<char>, can_recover: bool)
    requires
        run.suppressed_warnings >= 0,
    ensures
        ({
            let (taken, more) = run.taken(StepView::Failed(error), can_recover);
            &&& !can_recover || run.warnings < 8 ==> taken.frames.len() == run.frames.len() + 1
                && taken.frames.drop_last() == run.frames && taken.suppressed_warnings
                == run.suppressed_warnings && (taken.frames.last() matches OutputView::Warning(text)
                && ("defmt decode warning: "@ + error).is_prefix_of(text))
            &&& can_recover && run.warnings >= 8 ==> taken.frames == run.frames
                && taken.suppressed_warnings == run.suppressed_warnings + 1
            &&& taken.warnings == run.warnings + 1
            &&& more == can_recover
        }),
        run.suppressed_warnings == 0 ==> run.finished().frames == run.frames,
        run.suppressed_warnings > 0 ==> run.finished().frames.drop_last() == run.frames && (
        run.finished().frames.last() matches OutputView::Warning(text) && text::decimal(
            run.suppressed_warnings as nat,
        ).is_prefix_of(text)),
{
    let (taken, more) = run.taken(StepView::Failed(error), can_recover);
    let start = "defmt decode warning: "@ + error;
    if !can_recover || run.warnings < 8 {
        assert(taken.frames.drop_last() =~= run.frames);
        let text = taken.frames.last()->Warning_0;
        assert(start =~= text.take(start.len() as int));
    }
    if run.suppressed_warnings > 0 {
        let number = text::decimal(run.suppressed_warnings as nat);
        let text = run.finished().frames.last()->Warning_0;
        reveal_strlit("");
        assert(run.finished().frames.drop_last() =~= run.frames);
        assert(number =~= text.take(number.len() as int));
    }
}

/// A frame is shown as the decoder prints it, as far as it may be printed: with its
/// level and index in any case, with its timestamp where timestamps may be printed,
/// and with its message where the message may be; its index stands for the message
/// otherwise.
pub proof fn frames_are_shown_as_decoded(
    data: DataView,
    history: Seq<Option<Seq<u8>>>,
    contents: FrameContents,
)
    requires
        next_answer(data.table, history) == AnswerView::Frame(contents),
    ensures
        data.step(history) matches StepView::Frame { message, timestamp, level, index } && {
            &&& level == contents.level
            &&& index == contents.index
            &&& data.stamps ==> timestamp == contents.timestamp
            &&& !data.stamps ==> timestamp is None
            &&& formats::may_print(
                message_indices(data.table),
                entry_symbols(data.table),
                contents.index,
            ) ==> message == contents.message
        },
{
}

/// A module is covered by the prefixes that name it or a module around it, and by
/// the empty one, but not by one that only begins like it.
pub proof fn prefixes_cover_what_is_under_them(
    prefix: Seq<char>,
    rest: Seq<char>,
    module: Seq<char>,
)
    ensures
        covers(seq![], module),
        covers(prefix, prefix),
        covers(prefix, prefix + seq![':', ':'] + rest),
        covers(prefix, module) ==> prefix.is_prefix_of(module),
        prefix.len() > 0 && rest.len() > 0 && !seq![':', ':'].is_prefix_of(rest) ==> !covers(
            prefix,
            prefix + rest,
        ),
{
    let under = prefix + seq![':', ':'] + rest;
    assert(under.take(prefix.len() as int) =~= prefix);
    if covers(prefix, module) {
        assert(prefix =~= module.take(prefix.len() as int));
    }
    let beside = prefix + rest;
    if prefix.len() > 0 && rest.len() > 0 && covers(prefix, beside) {
        assert(beside.len() > prefix.len());
        assert(rest[0] == beside[prefix.len() as int]);
        assert(rest[1] == beside[prefix.len() as int + 1]);
        assert(seq![':', ':'] =~= rest.take(2));
    }
}

/// Levels are ordered as their names suggest.
pub proof fn levels_are_ordered()
    ensures
        Level::Trace.severity() < Level::Debug.severity() < Level::Info.severity()
            < Level::Warn.severity() < Level::Error.severity(),
{
}

/// Among the parts of a filter that cover a module the longest decides: a message
/// is hidden exactly when it is less severe than what that part asks for.
pub proof fn longest_prefixes_decide(
    frame: FrameView,
    module: Seq<char>,
    filters: Seq<FilterView>,
    i: int,
)
    requires
        0 <= i < filters.len(),
        covers(filters[i].module, module),
        forall|j: int|
            0 <= j < filters.len() && j != i && covers((#[trigger] filters[j]).module, module)
                ==> filters[j].module.len() < filters[i].module.len(),
    ensures
        frame_hidden(frame, module, Some(filters)) <==> (frame.level matches Some(level)
            && level.severity() < filters[i].level.severity()),
        !frame_hidden(frame, module, None),
{
    assert(decides(filters, module, i));
    wanted_messages_are_shown(frame, module, filters, i);
}

/// `LEVEL` is a filter for every module and `MODULE=LEVEL` one for that module.
#[verifier::rlimit(40)]
pub proof fn filters_read_back(module: Seq<char>, level: Level)
    requires
        !module.contains('='),
    ensures
        ({
            let name = match level {
                Level::Trace => "trace"@,
                Level::Debug => "debug"@,
                Level::Info => "info"@,
                Level::Warn => "warn"@,
                Level::Error => "error"@,
            };
            &&& read_filter_part(name) == Some(FilterView { module: seq![], level })
            &&& read_filter_part(module + seq!['='] + name) == Some(FilterView { module, level })
            &&& read_filter_part(seq!['='] + name) == Some(FilterView { module: seq![], level })
            &&& read_filter_part(module + seq!['=']) is None
            &&& read_filter_part(module + seq!['='] + (name + seq!['='] + name)) is None
        }),
        read_filter_part(seq![]) is None,
{
    reveal_strlit("trace");
    reveal_strlit("debug");
    reveal_strlit("info");
    reveal_strlit("warn");
    reveal_strlit("error");
    let name = match level {
        Level::Trace => "trace"@,
        Level::Debug => "debug"@,
        Level::Info => "info"@,
        Level::Warn => "warn"@,
        Level::Error => "error"@,
    };
    assert("trace"@[0] == 't' && "debug"@[0] == 'd' && "info"@[0] == 'i');
    assert("warn"@[0] == 'w' && "error"@[0] == 'e');
    let nothing = Seq::<char>::empty();
    assert(!name.contains('='));
    assert(!nothing.contains('='));
    assert(read_level(nothing) is None) by {
        assert("trace"@.len() == 5 && "debug"@.len() == 5 && "info"@.len() == 4);
        assert("warn"@.len() == 4 && "error"@.len() == 5);
    }
    text::splitting_undoes_joining(name, name, '=');
    text::splitting_undoes_joining(module, name, '=');
    text::splitting_undoes_joining(module, nothing, '=');
    text::splitting_undoes_joining(nothing, name, '=');
    text::splitting_undoes_joining(module, name + seq!['='] + name, '=');
    assert(nothing + seq!['='] + name =~= seq!['='] + name);
    assert(module + seq!['='] + nothing =~= module + seq!['=']);
    assert(seq![module] + seq![name] =~= seq![module, name]);
    assert(seq![nothing] + seq![name] =~= seq![nothing, name]);
    assert(text::split_at_char(nothing, '=') =~= seq![nothing]);
    assert(seq![module] + seq![nothing] =~= seq![module, nothing]);
    assert(seq![name] + seq![name] =~= seq![name, name]);
    assert(seq![module] + seq![name, name] =~= seq![module, name, name]);
}

/// A list of filter parts is read where every part is one, each in its place.
#[verifier::rlimit(40)]
pub proof fn every_filter_part_is_read(parts: Seq<Seq<char>>)
    ensures
        read_filter_parts(parts) is Ok <==> forall|i: int|
            0 <= i < parts.len() ==> read_filter_part(#[trigger] parts[i]) is Some,
        read_filter_parts(parts) is Ok ==> {
            &&& read_filter_parts(parts)->Ok_0.len() == parts.len()
            &&& forall|i: int|
                0 <= i < parts.len() ==> read_filter_part(parts[i]) == Some(
                    #[trigger] read_filter_parts(parts)->Ok_0[i],
                )
        },
    decreases parts.len(),
{
    if parts.len() > 0 {
        let fewer = parts.drop_last();
        every_filter_part_is_read(fewer);
        assert(parts[parts.len() - 1] == parts.last());
        assert forall|i: int| 0 <= i < fewer.len() implies #[trigger] fewer[i] == parts[i] by {}
        if read_filter_parts(parts) is Ok {
            let list = read_filter_parts(parts)->Ok_0;
            let earlier = read_filter_parts(fewer)->Ok_0;
            assert(list == earlier.push(read_filter_part(parts.last())->0));
            assert forall|i: int| 0 <= i < parts.len() implies read_filter_part(
                #[trigger] parts[i],
            ) is Some && read_filter_part(parts[i]) == Some(list[i]) by {
                if i < fewer.len() {
                    assert(fewer[i] == parts[i]);
                    assert(earlier[i] == list[i]);
                }
            }
        } else if forall|i: int|
            0 <= i < parts.len() ==> read_filter_part(#[trigger] parts[i]) is Some {
            assert forall|i: int| 0 <= i < fewer.len() implies read_filter_part(
                #[trigger] fewer[i],
            ) is Some by {
                assert(fewer[i] == parts[i]);
            }
            assert(read_filter_parts(fewer) is Ok);
            assert(read_filter_part(parts[parts.len() - 1]) is Some);
        }
    }
}

/// A message comes from the module that the file lists for its index, and from
/// none that is known where the file lists nothing.
pub proof fn modules_are_looked_up(modules: Seq<(u64, Seq<char>)>, index: u64, i: int)
    requires
        forall|a: int, b: int|
            0 <= a < b < modules.len() ==> (#[trigger] modules[a]).0 != (#[trigger] modules[b]).0,
    ensures
        0 <= i < modules.len() && modules[i].0 == index ==> listed_module(modules, index)
            == modules[i].1,
        (forall|k: int| 0 <= k < modules.len() ==> (#[trigger] modules[k]).0 != index)
            ==> listed_module(modules, index) == ""@,
    decreases modules.len(),
{
    if modules.len() > 0 {
        let fewer = modules.drop_last();
        assert forall|a: int, b: int| 0 <= a < b < fewer.len() implies (#[trigger] fewer[a]).0 != (
        #[trigger] fewer[b]).0 by {
            assert(modules[a].0 != modules[b].0);
        }
        modules_are_looked_up(fewer, index, i);
        assert(modules.last() == modules[modules.len() - 1]);
        if forall|k: int| 0 <= k < modules.len() ==> (#[trigger] modules[k]).0 != index {
            assert forall|k: int| 0 <= k < fewer.len() implies (#[trigger] fewer[k]).0 != index by {
                assert(modules[k].0 != index);
            }
        }
        if 0 <= i < fewer.len() && modules[i].0 == index {
            assert(fewer[i] == modules[i]);
            assert(modules[i].0 != modules[modules.len() - 1].0);
        }
    }
}

/// The summary of a table lists every index and every symbol, each on its line.
pub proof fn summaries_list_everything(
    indices: Seq<usize>,
    index: usize,
    symbols: Seq<Seq<char>>,
    symbol: Seq<char>,
)
    ensures
        indices_text(seq![]) == Seq::<char>::empty(),
        indices_text(indices.push(index)) == indices_text(indices) + "  0x"@ + text::digits(
            index as nat,
            16,
        ) + "\n"@,
        symbols_text(seq![]) == Seq::<char>::empty(),
        symbols_text(symbols.push(symbol)) == symbols_text(symbols) + "  "@ + symbol + "\n"@,
        truth_text(true) == "true"@,
        truth_text(false) == "false"@,
{
    assert(indices.push(index).drop_last() =~= indices);
    assert(symbols.push(symbol).drop_last() =~= symbols);
}

/// A file loads exactly where it has a table that can be decoded; what is loaded is
/// that table with the modules that the file lists.
pub proof fn usable_tables_are_loaded(
    path: Seq<char>,
    elf: Seq<u8>,
    result: Result<DefmtData, ElfError>,
)
    requires
        DefmtData::loaded(path, elf, result),
    ensures
        result is Ok <==> (parsed_table(elf) matches Ok(Some(table)) && decodable(table, elf)),
        result matches Ok(data) ==> {
            let table = parsed_table(elf)->Ok_0->0;
            data@.table == table && data@.modules == message_modules(table, elf)
        },
        parsed_table(elf) matches Ok(None) ==> (result matches Err(error) && error.failure@
            == "ELF '"@ + path + "' contains no .defmt section"@),
        parsed_table(elf) matches Err(text) ==> (result matches Err(error) && error.cause is Some
            && error.cause->0@ == text),
{
}

} // verus!
