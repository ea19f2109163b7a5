//! Command line rules: what each value means and which values go together.
use crate::channel::{ChannelId, ChannelRangeError};
use crate::defmt::{FilterSpec, FilterView};
use crate::rtt::{AddressRange, RegionView, ScanRegion};
use crate::text;
use vstd::prelude::*;

verus! {

/// How the session log stores channel data.
#[derive(Clone, Copy, Debug, PartialEq, Eq, Structural)]
pub enum LogFormat {
    /// The exact bytes of a channel.
    Raw,
    /// Decoded text without escape sequences.
    Decoded,
}

/// When channel labels and defmt levels are coloured.
#[derive(Clone, Copy, Debug, PartialEq, Eq, Structural)]
pub enum ColorMode {
    Auto,
    Always,
    Never,
}

/// Where the session log goes; a path is held as the host's path bytes.
#[derive(Debug)]
pub enum LogDestination {
    /// One file for all channels.
    Merged(Vec<u8>),
    /// One file for each channel, named after this path.
    PerChannel(Vec<u8>),
}

/// Which probe to use.
#[derive(Clone, Copy, Debug, PartialEq, Eq, Structural)]
pub enum ProbeInfo {
    Number(usize),
    List,
}

/// Reads a probe selection.
pub open spec fn read_probe(value: Seq<char>) -> Option<ProbeInfo> {
    if value == "list"@ {
        Some(ProbeInfo::List)
    } else {
        match text::read_number(value, 10, usize::MAX as int) {
            Ok(number) => Some(ProbeInfo::Number(number as usize)),
            Err(_) => None,
        }
    }
}

impl ProbeInfo {
    pub fn from_str(value: &str) -> (result: Result<Self, &'static str>)
        ensures
            match result {
                Ok(probe) => read_probe(value@) == Some(probe),
                Err(message) => read_probe(value@) is None && message@ == "Invalid probe number."@,
            },
    {
        if text::same_text(value, "list") {
            return Ok(ProbeInfo::List);
        }
        let chars = text::chars_of(value);
        match text::parse_number(chars.as_slice(), 10, usize::MAX as u64) {
            Ok(number) => Ok(ProbeInfo::Number(number as usize)),
            Err(_) => Err("Invalid probe number."),
        }
    }
}

/// How a channel's bytes are encoded.
#[derive(Clone, Copy, Debug, PartialEq, Eq, Structural)]
pub enum ChannelEncoding {
    Terminal,
    Defmt,
}

/// Reads a channel mode.
pub open spec fn read_mode(value: Seq<char>) -> Result<ChannelEncoding, Seq<char>> {
    if value == "terminal"@ {
        Ok(ChannelEncoding::Terminal)
    } else if value == "defmt"@ {
        Ok(ChannelEncoding::Defmt)
    } else {
        Err("invalid channel mode '"@ + value + "', expected terminal or defmt"@)
    }
}

impl ChannelEncoding {
    pub open spec fn spelling(self) -> Seq<char> {
        match self {
            ChannelEncoding::Terminal => "terminal"@,
            ChannelEncoding::Defmt => "defmt"@,
        }
    }

    pub fn name(self) -> (name: &'static str)
        ensures
            name@ == self.spelling(),
    {
        match self {
            ChannelEncoding::Terminal => "terminal",
            ChannelEncoding::Defmt => "defmt",
        }
    }

    pub fn from_str(value: &str) -> (result: Result<Self, String>)
        ensures
            match result {
                Ok(mode) => read_mode(value@) == Ok::<ChannelEncoding, Seq<char>>(mode),
                Err(message) => read_mode(value@) == Err::<ChannelEncoding, Seq<char>>(message@),
            },
    {
        if text::same_text(value, "terminal") {
            Ok(ChannelEncoding::Terminal)
        } else if text::same_text(value, "defmt") {
            Ok(ChannelEncoding::Defmt)
        } else {
            Err(text::join3("invalid channel mode '", value, "', expected terminal or defmt"))
        }
    }
}

/// The name of a mode reads back as that mode.
pub proof fn mode_names_read_back(mode: ChannelEncoding)
    ensures
        read_mode(mode.spelling()) == Ok::<ChannelEncoding, Seq<char>>(mode),
{
    reveal_strlit("terminal");
    reveal_strlit("defmt");
    assert("terminal"@.len() != "defmt"@.len());
}

/// Up channel selection, optionally restricted to one core.
#[derive(Clone, Copy, Debug, PartialEq, Eq)]
pub struct ChannelSpec {
    /// `None` selects the channel on every configured core.
    pub core: Option<u32>,
    pub index: u32,
    pub mode: ChannelEncoding,
}

/// Reads the core of a channel selection.
pub open spec fn read_core(core: Option<Seq<char>>) -> Result<Option<u32>, Seq<char>> {
    match core {
        None => Ok(None),
        Some(core) => if core.len() == 0 {
            Err("core index cannot be empty"@)
        } else {
            match text::read_number(core, 10, u32::MAX as int) {
                Ok(number) => Ok(Some(number as u32)),
                Err(_) => Err("invalid core index '"@ + core + "', expected a u32"@),
            }
        },
    }
}

/// Reads the three parts of a channel selection; the channel is checked first,
/// then the core, then the mode.
pub open spec fn read_channel_parts(
    core: Option<Seq<char>>,
    index: Seq<char>,
    mode: Seq<char>,
) -> Result<ChannelSpec, Seq<char>> {
    if index.len() == 0 {
        Err("channel index cannot be empty"@)
    } else {
        match text::read_number(index, 10, u32::MAX as int) {
            Err(_) => Err("invalid channel index '"@ + index + "', expected a u32"@),
            Ok(number) => match read_core(core) {
                Err(message) => Err(message),
                Ok(core) => match read_mode(mode) {
                    Err(message) => Err(message),
                    Ok(mode) => Ok(ChannelSpec { core, index: number as u32, mode }),
                },
            },
        }
    }
}

/// Reads `[CORE:]CHANNEL[:MODE]`. Of two parts the second is the mode where it
/// names one; otherwise the first is the core.
pub open spec fn read_channel(value: Seq<char>) -> Result<ChannelSpec, Seq<char>> {
    let parts = text::split_at_char(value, ':');
    if parts.len() == 1 {
        read_channel_parts(None, parts[0], "terminal"@)
    } else if parts.len() == 2 && (parts[1] == "terminal"@ || parts[1] == "defmt"@) {
        read_channel_parts(None, parts[0], parts[1])
    } else if parts.len() == 2 {
        read_channel_parts(Some(parts[0]), parts[1], "terminal"@)
    } else if parts.len() == 3 {
        read_channel_parts(Some(parts[0]), parts[1], parts[2])
    } else {
        Err(
            "invalid channel specification '"@ + value
                + "', expected [CORE:]CHANNEL[:MODE]"@,
        )
    }
}

fn parse_core(core: &[char]) -> (result: Result<u32, String>)
    ensures
        match result {
            Ok(number) => read_core(Some(core@)) == Ok::<Option<u32>, Seq<char>>(Some(number)),
            Err(message) => read_core(Some(core@)) == Err::<Option<u32>, Seq<char>>(message@),
        },
{
    if core.len() == 0 {
        return Err("core index cannot be empty".to_string());
    }
    match text::parse_number(core, 10, u32::MAX as u64) {
        Ok(number) => Ok(number as u32),
        Err(_) => {
            let spelled = text::chars_text(core);
            Err(text::join3("invalid core index '", spelled.as_str(), "', expected a u32"))
        },
    }
}

fn parse_channel_parts(core: Option<&[char]>, index: &[char], mode: &str) -> (result: Result<
    ChannelSpec,
    String,
>)
    ensures
        ({
            let core = match core {
                Some(core) => Some(core@),
                None => None,
            };
            match result {
                Ok(spec) => read_channel_parts(core, index@, mode@) == Ok::<
                    ChannelSpec,
                    Seq<char>,
                >(spec),
                Err(message) => read_channel_parts(core, index@, mode@) == Err::<
                    ChannelSpec,
                    Seq<char>,
                >(message@),
            }
        }),
{
    if index.len() == 0 {
        return Err("channel index cannot be empty".to_string());
    }
    let number: u32 = match text::parse_number(index, 10, u32::MAX as u64) {
        Ok(number) => number as u32,
        Err(_) => {
            let spelled = text::chars_text(index);
            return Err(
                text::join3("invalid channel index '", spelled.as_str(), "', expected a u32"),
            );
        },
    };
    let core: Option<u32> = match core {
        None => None,
        Some(core) => match parse_core(core) {
            Ok(core) => Some(core),
            Err(message) => {
                return Err(message);
            },
        },
    };
    match ChannelEncoding::from_str(mode) {
        Ok(mode) => Ok(ChannelSpec { core, index: number, mode }),
        Err(message) => Err(message),
    }
}

impl ChannelSpec {
    /// Whether the selection reaches `core`.
    pub open spec fn reaches(self, core: u32) -> bool {
        self.core is None || self.core == Some(core)
    }

    pub fn applies_to(&self, core: u32) -> (applies: bool)
        ensures
            applies == self.reaches(core),
    {
        match self.core {
            None => true,
            Some(own) => own == core,
        }
    }

    pub fn from_str(value: &str) -> (result: Result<Self, String>)
        ensures
            match result {
                Ok(spec) => read_channel(value@) == Ok::<ChannelSpec, Seq<char>>(spec),
                Err(message) => read_channel(value@) == Err::<ChannelSpec, Seq<char>>(message@),
            },
    {
        let chars = text::chars_of(value);
        let parts = text::split_chars(chars.as_slice(), ':');
        proof {
            assert(forall|i: int|
                0 <= i < parts@.len() ==> text::text_views(parts@)[i] == (#[trigger] parts@[i])@);
        }
        if parts.len() == 1 {
            return parse_channel_parts(None, parts[0].as_slice(), "terminal");
        }
        if parts.len() == 2 {
            let second = text::chars_text(parts[1].as_slice());
            if text::same_text(second.as_str(), "terminal") || text::same_text(
                second.as_str(),
                "defmt",
            ) {
                return parse_channel_parts(None, parts[0].as_slice(), second.as_str());
            }
            return parse_channel_parts(
                Some(parts[0].as_slice()),
                parts[1].as_slice(),
                "terminal",
            );
        }
        if parts.len() == 3 {
            let mode = text::chars_text(parts[2].as_slice());
            return parse_channel_parts(
                Some(parts[0].as_slice()),
                parts[1].as_slice(),
                mode.as_str(),
            );
        }
        Err(
            text::join3(
                "invalid channel specification '",
                value,
                "', expected [CORE:]CHANNEL[:MODE]",
            ),
        )
    }
}

/// One `--elf` value: a bare path, which gets the lowest free core index, or an
/// `INDEX=PATH` mapping. A bare path holds no `=`.
#[derive(Clone, Debug, PartialEq, Eq)]
pub struct ElfSpec {
    pub index: Option<u32>,
    pub path: String,
}

/// What an `ElfSpec` holds.
#[verifier::ext_equal]
pub struct ElfView {
    pub index: Option<u32>,
    pub path: Seq<char>,
}

impl View for ElfSpec {
    type V = ElfView;

    open spec fn view(&self) -> ElfView {
        ElfView { index: self.index, path: self.path@ }
    }
}

/// Reads `[INDEX=]PATH` whose first `=`, if there is one, stands at `equals`.
pub open spec fn read_elf_at(value: Seq<char>, equals: Option<int>) -> Result<ElfView, Seq<char>> {
    let expected = "invalid ELF specification '"@ + value + "', expected [INDEX=]PATH"@;
    match equals {
        Some(i) => {
            let index = value.take(i);
            let path = value.skip(i + 1);
            if index.len() == 0 {
                Err("invalid ELF index in '"@ + value + "', expected a u32"@)
            } else {
                match text::read_number(index, 10, u32::MAX as int) {
                    Err(_) => Err("invalid ELF index '"@ + index + "', expected a u32"@),
                    Ok(number) => if path.len() == 0 {
                        Err(expected)
                    } else {
                        Ok(ElfView { index: Some(number as u32), path })
                    },
                }
            }
        },
        None => if value.len() == 0 {
            Err(expected)
        } else {
            Ok(ElfView { index: None, path: value })
        },
    }
}

/// Reads `[INDEX=]PATH`.
pub open spec fn read_elf(value: Seq<char>) -> Result<ElfView, Seq<char>> {
    if value.contains('=') {
        read_elf_at(value, Some(choose|i: int| text::is_first(value, '=', i)))
    } else {
        read_elf_at(value, None)
    }
}

impl ElfSpec {
    pub fn from_str(value: &str) -> (result: Result<Self, String>)
        ensures
            match result {
                Ok(spec) => read_elf(value@) == Ok::<ElfView, Seq<char>>(spec@),
                Err(message) => read_elf(value@) == Err::<ElfView, Seq<char>>(message@),
            },
    {
        let chars = text::chars_of(value);
        match text::find_char(chars.as_slice(), '=') {
            Some(i) => {
                proof {
                    let chosen = choose|k: int| text::is_first(value@, '=', k);
                    assert(text::is_first(value@, '=', i as int));
                    assert(chosen == i);
                    assert(chars@.subrange(0, i as int) =~= value@.take(i as int));
                    assert(chars@.subrange(i as int + 1, chars@.len() as int) =~= value@.skip(
                        i as int + 1,
                    ));
                }
                let index = text::copy_chars(chars.as_slice(), 0, i);
                if index.len() == 0 {
                    return Err(
                        text::join3("invalid ELF index in '", value, "', expected a u32"),
                    );
                }
                match text::parse_number(index.as_slice(), 10, u32::MAX as u64) {
                    Err(_) => {
                        let spelled = text::chars_text(index.as_slice());
                        Err(
                            text::join3(
                                "invalid ELF index '",
                                spelled.as_str(),
                                "', expected a u32",
                            ),
                        )
                    },
                    Ok(number) => {
                        let len: usize = chars.len();
                        let path = text::text_of(chars.as_slice(), i + 1, len);
                        if i + 1 == len {
                            return Err(
                                text::join3(
                                    "invalid ELF specification '",
                                    value,
                                    "', expected [INDEX=]PATH",
                                ),
                            );
                        }
                        let spec = ElfSpec { index: Some(number as u32), path };
                        Ok(spec)
                    },
                }
            },
            None => {
                if chars.len() == 0 {
                    return Err(
                        text::join3(
                            "invalid ELF specification '",
                            value,
                            "', expected [INDEX=]PATH",
                        ),
                    );
                }
                Ok(ElfSpec { index: None, path: value.to_string() })
            },
        }
    }
}

/// Reads an address, hexadecimal behind `0x` or `0X`, decimal otherwise.
pub open spec fn read_address(part: Seq<char>) -> Result<int, text::NumberError> {
    if part.len() >= 2 && part[0] == '0' && (part[1] == 'x' || part[1] == 'X') {
        text::read_number(part.skip(2), 16, u64::MAX as int)
    } else {
        text::read_number(part, 10, u64::MAX as int)
    }
}

/// Reads addresses from left to right; the first bad one decides the error.
pub open spec fn read_addresses(parts: Seq<Seq<char>>) -> Result<Seq<int>, text::NumberError>
    decreases parts.len(),
{
    if parts.len() == 0 {
        Ok(seq![])
    } else {
        match read_addresses(parts.drop_last()) {
            Err(error) => Err(error),
            Ok(earlier) => match read_address(parts.last()) {
                Err(error) => Err(error),
                Ok(address) => Ok(earlier.push(address)),
            },
        }
    }
}

/// Reads a scan region: nothing for all RAM, one address, or `START..END`.
pub open spec fn read_scan_region(value: Seq<char>) -> Result<RegionView, Seq<char>> {
    let src = text::trim_end(text::trim_start(value));
    if src.len() == 0 {
        Ok(RegionView::Ram)
    } else {
        match read_addresses(text::split_at_dots(src)) {
            Err(error) => Err(error.text()),
            Ok(addresses) => if addresses.len() == 1 {
                Ok(RegionView::Exact(addresses[0] as u64))
            } else if addresses.len() == 2 {
                let start = addresses[0];
                let end = addresses[1];
                if start < end {
                    Ok(
                        RegionView::Ranges(
                            seq![AddressRange { start: start as u64, end: end as u64 }],
                        ),
                    )
                } else {
                    Err(
                        "invalid scan range '"@ + src + "': start 0x"@ + text::digits(
                            start as nat,
                            16,
                        ) + " must be less than end 0x"@ + text::digits(end as nat, 16),
                    )
                }
            } else {
                Err("Invalid range: multiple '..'s"@)
            },
        }
    }
}

fn parse_address(part: &[char]) -> (result: Result<u64, text::NumberError>)
    ensures
        match result {
            Ok(address) => read_address(part@) == Ok::<int, text::NumberError>(address as int),
            Err(error) => read_address(part@) == Err::<int, text::NumberError>(error),
        },
{
    if part.len() >= 2 && part[0] == '0' && (part[1] == 'x' || part[1] == 'X') {
        let digits = vstd::slice::slice_subrange(part, 2, part.len());
        proof {
            assert(digits@ =~= part@.skip(2));
        }
        text::parse_number(digits, 16, u64::MAX)
    } else {
        text::parse_number(part, 10, u64::MAX)
    }
}

/// An address list whose prefix is bad is bad in the same way.
proof fn first_bad_address_decides(parts: Seq<Seq<char>>, prefix: int)
    requires
        0 <= prefix <= parts.len(),
        read_addresses(parts.take(prefix)) is Err,
    ensures
        read_addresses(parts) == read_addresses(parts.take(prefix)),
    decreases parts.len(),
{
    if prefix == parts.len() {
        assert(parts.take(prefix) =~= parts);
    } else {
        assert(parts.drop_last().take(prefix) =~= parts.take(prefix));
        first_bad_address_decides(parts.drop_last(), prefix);
    }
}

/// The numbers of a list of addresses.
pub open spec fn address_values(addresses: Seq<u64>) -> Seq<int> {
    Seq::new(addresses.len(), |i: int| addresses[i] as int)
}

fn parse_addresses(parts: &[Vec<char>]) -> (result: Result<Vec<u64>, text::NumberError>)
    ensures
        match result {
            Ok(addresses) => read_addresses(text::text_views(parts@)) == Ok::<
                Seq<int>,
                text::NumberError,
            >(address_values(addresses@)),
            Err(error) => read_addresses(text::text_views(parts@)) == Err::<
                Seq<int>,
                text::NumberError,
            >(error),
        },
{
    let ghost views = text::text_views(parts@);
    let mut addresses: Vec<u64> = Vec::new();
    let mut i: usize = 0;
    proof {
        assert(views.take(0) =~= Seq::<Seq<char>>::empty());
        assert(address_values(addresses@) =~= Seq::<int>::empty());
    }
    while i < parts.len()
        invariant
            i <= parts@.len(),
            views == text::text_views(parts@),
            read_addresses(views.take(i as int)) == Ok::<Seq<int>, text::NumberError>(
                address_values(addresses@),
            ),
        decreases parts@.len() - i,
    {
        proof {
            assert(views.take(i as int + 1).drop_last() =~= views.take(i as int));
            assert(views.take(i as int + 1).last() == parts@[i as int]@);
        }
        match parse_address(parts[i].as_slice()) {
            Ok(address) => {
                let ghost earlier = address_values(addresses@);
                addresses.push(address);
                proof {
                    assert(address_values(addresses@) =~= earlier.push(address as int));
                }
            },
            Err(error) => {
                proof {
                    first_bad_address_decides(views, i as int + 1);
                }
                return Err(error);
            },
        }
        i += 1;
    }
    proof {
        assert(views.take(views.len() as int) =~= views);
    }
    Ok(addresses)
}

/// Reads the value of `--scan-region`.
pub fn parse_scan_region(value: &str) -> (result: Result<ScanRegion, String>)
    ensures
        match result {
            Ok(region) => read_scan_region(value@) == Ok::<RegionView, Seq<char>>(region@),
            Err(message) => read_scan_region(value@) == Err::<RegionView, Seq<char>>(message@),
        },
{
    let chars = text::chars_of(value);
    let (from, to) = text::trim_range(chars.as_slice());
    if from == to {
        return Ok(ScanRegion::Ram);
    }
    let src = text::copy_chars(chars.as_slice(), from, to);
    let parts = text::split_dots(src.as_slice());
    let addresses = match parse_addresses(parts.as_slice()) {
        Ok(addresses) => addresses,
        Err(error) => {
            return Err(error.message());
        },
    };
    if addresses.len() == 1 {
        proof {
            assert(address_values(addresses@)[0] == addresses@[0] as int);
        }
        return Ok(ScanRegion::Exact(addresses[0]));
    }
    if addresses.len() == 2 {
        let start: u64 = addresses[0];
        let end: u64 = addresses[1];
        proof {
            assert(address_values(addresses@)[0] == start as int);
            assert(address_values(addresses@)[1] == end as int);
        }
        if start < end {
            let mut ranges: Vec<AddressRange> = Vec::new();
            ranges.push(AddressRange { start, end });
            proof {
                assert(ranges@ =~= seq![AddressRange { start, end }]);
            }
            return Ok(ScanRegion::Ranges(ranges));
        }
        let spelled = text::chars_text(src.as_slice());
        let mut message = text::join3("invalid scan range '", spelled.as_str(), "': start 0x");
        text::push_number(&mut message, start, 16);
        text::push_str(&mut message, " must be less than end 0x");
        text::push_number(&mut message, end, 16);
        return Err(message);
    }
    Err("Invalid range: multiple '..'s".to_string())
}

/// Default of `--poll-interval` in milliseconds.
pub const DEFAULT_POLL_INTERVAL_MS: u64 = 10;

/// The command line, one field for each option.
#[derive(Debug)]
pub struct Opts {
    pub probe: Option<ProbeInfo>,
    pub chip: Option<String>,
    pub list: bool,
    pub up: Vec<ChannelSpec>,
    pub down: Option<u32>,
    pub reset: bool,
    pub timestamps: bool,
    pub poll_interval: u64,
    pub scan_region: Option<ScanRegion>,
    pub elf: Vec<ElfSpec>,
    pub debug_defmt_table: bool,
    pub defmt_filters: Option<FilterSpec>,
    pub color: ColorMode,
    /// The host's path bytes.
    pub log: Option<Vec<u8>>,
    pub log_per_channel: bool,
    pub log_format: Option<LogFormat>,
    pub no_down: bool,
}

/// What a run does.
#[derive(Clone, Copy, Debug, PartialEq, Eq, Structural)]
pub enum Mode {
    /// Print the defmt table and exit; needs an ELF file and no probe.
    DebugDefmtTable,
    /// Print the probes and exit; needs neither an ELF file nor a target.
    ListProbes,
    /// Attach, find RTT, print the channels and exit.
    ListChannels,
    /// Normal operation.
    Session,
}

/// Some selected channel is decoded with defmt.
pub open spec fn any_defmt(specs: Seq<ChannelSpec>) -> bool {
    exists|i: int| 0 <= i < specs.len() && (#[trigger] specs[i]).mode is Defmt
}

/// Two selections reach a common source.
pub open spec fn overlap(a: ChannelSpec, b: ChannelSpec) -> bool {
    a.index == b.index && (a.core is None || b.core is None || a.core == b.core)
}

/// What is wrong with two selections, if anything.
pub open spec fn clash(a: ChannelSpec, b: ChannelSpec) -> Option<Seq<char>> {
    if !overlap(a, b) {
        None
    } else if a.mode == b.mode {
        Some(
            "up channel "@ + text::decimal(a.index as nat) + " was specified more than once"@,
        )
    } else {
        Some(
            "up channel "@ + text::decimal(a.index as nat)
                + " was specified with conflicting modes"@,
        )
    }
}

/// The first clash of selection `position` with one of the first `n`.
pub open spec fn clash_with_earlier(
    specs: Seq<ChannelSpec>,
    position: int,
    n: int,
) -> Option<Seq<char>>
    decreases n,
{
    if n <= 0 {
        None
    } else {
        match clash_with_earlier(specs, position, n - 1) {
            Some(message) => Some(message),
            None => clash(specs[position], specs[n - 1]),
        }
    }
}

/// The first clash among the first `n` selections.
pub open spec fn channels_error(specs: Seq<ChannelSpec>, n: int) -> Option<Seq<char>>
    decreases n,
{
    if n <= 0 {
        None
    } else {
        match channels_error(specs, n - 1) {
            Some(message) => Some(message),
            None => clash_with_earlier(specs, n - 1, n - 1),
        }
    }
}

/// The first filter among the first `n` that repeats an earlier prefix.
pub open spec fn filter_error(filters: Seq<FilterView>, n: int) -> Option<Seq<char>>
    decreases n,
{
    if n <= 0 {
        None
    } else {
        match filter_error(filters, n - 1) {
            Some(message) => Some(message),
            None => if prefix_occurs(filters, n - 1, filters[n - 1].module) {
                Some(
                    "defmt filter prefix '"@ + filters[n - 1].module
                        + "' was specified more than once"@,
                )
            } else {
                None
            },
        }
    }
}

/// One of the first `n` filters has this prefix.
pub open spec fn prefix_occurs(filters: Seq<FilterView>, n: int, module: Seq<char>) -> bool {
    exists|i: int| 0 <= i < n && (#[trigger] filters[i]).module == module
}

/// The first of two possible errors.
pub open spec fn first_error(
    first: Option<Seq<char>>,
    second: Option<Seq<char>>,
) -> Option<Seq<char>> {
    match first {
        Some(message) => Some(message),
        None => second,
    }
}

/// The view of an optional message.
pub open spec fn message_view(message: Option<String>) -> Option<Seq<char>> {
    match message {
        Some(message) => Some(message@),
        None => None,
    }
}

pub open spec fn raw_fan_out_text() -> Seq<char> {
    "--log-format raw with multiple up channels requires --log-per-channel"@
}

impl Opts {
    pub open spec fn spec_mode(&self) -> Mode {
        if self.debug_defmt_table {
            Mode::DebugDefmtTable
        } else if self.probe == Some(ProbeInfo::List) {
            Mode::ListProbes
        } else if self.list {
            Mode::ListChannels
        } else {
            Mode::Session
        }
    }

    /// The action this run was asked for.
    pub fn mode(&self) -> (mode: Mode)
        ensures
            mode == self.spec_mode(),
    {
        if self.debug_defmt_table {
            Mode::DebugDefmtTable
        } else if self.lists_probes() {
            Mode::ListProbes
        } else if self.list {
            Mode::ListChannels
        } else {
            Mode::Session
        }
    }

    fn lists_probes(&self) -> (lists: bool)
        ensures
            lists == (self.probe == Some(ProbeInfo::List)),
    {
        match self.probe {
            Some(ProbeInfo::List) => true,
            _ => false,
        }
    }

    fn has_defmt_up_channel(up_specs: &[ChannelSpec]) -> (found: bool)
        ensures
            found == any_defmt(up_specs@),
    {
        let mut i: usize = 0;
        while i < up_specs.len()
            invariant
                i <= up_specs@.len(),
                forall|j: int| 0 <= j < i ==> !((#[trigger] up_specs@[j]).mode is Defmt),
            decreases up_specs@.len() - i,
        {
            if up_specs[i].mode == ChannelEncoding::Defmt {
                return true;
            }
            i += 1;
        }
        false
    }

    /// What is wrong with the options for these up channels, if anything.
    pub open spec fn error(&self, up_specs: Seq<ChannelSpec>) -> Option<Seq<char>> {
        first_error(
            channels_error(up_specs, up_specs.len() as int),
            first_error(
                self.defmt_error(up_specs),
                first_error(
                    self.logging_error(up_specs),
                    first_error(
                        self.mode_error(),
                        match self.defmt_filters {
                            Some(spec) => filter_error(spec@, spec@.len() as int),
                            None => None,
                        },
                    ),
                ),
            ),
        )
    }

    /// Checks every rule that needs no knowledge of the cores.
    pub fn validate(&self, up_specs: &[ChannelSpec]) -> (result: Result<(), String>)
        ensures
            match result {
                Ok(()) => self.error(up_specs@) is None,
                Err(message) => self.error(up_specs@) == Some(message@),
            },
    {
        if let Some(message) = self.validate_channels(up_specs) {
            return Err(message);
        }
        if let Some(message) = self.validate_defmt(up_specs) {
            return Err(message);
        }
        if let Some(message) = self.validate_logging(up_specs) {
            return Err(message);
        }
        if let Some(message) = self.validate_operation_modes() {
            return Err(message);
        }
        if let Some(message) = self.validate_filter() {
            return Err(message);
        }
        Ok(())
    }

    fn validate_channels(&self, up_specs: &[ChannelSpec]) -> (error: Option<String>)
        ensures
            message_view(error) == channels_error(up_specs@, up_specs@.len() as int),
    {
        let mut error: Option<String> = None;
        let mut position: usize = 0;
        while position < up_specs.len()
            invariant
                position <= up_specs@.len(),
                message_view(error) == channels_error(up_specs@, position as int),
            decreases up_specs@.len() - position,
        {
            if error.is_none() {
                let spec = up_specs[position];
                let mut other: usize = 0;
                while other < position
                    invariant
                        other <= position < up_specs@.len(),
                        spec == up_specs@[position as int],
                        message_view(error) == clash_with_earlier(
                            up_specs@,
                            position as int,
                            other as int,
                        ),
                    decreases position - other,
                {
                    if error.is_none() {
                        error = Opts::clash_message(spec, up_specs[other]);
                    }
                    other += 1;
                }
            }
            position += 1;
        }
        error
    }

    fn clash_message(spec: ChannelSpec, other: ChannelSpec) -> (error: Option<String>)
        ensures
            message_view(error) == clash(spec, other),
    {
        let shared_core = match (spec.core, other.core) {
            (Some(a), Some(b)) => a == b,
            _ => true,
        };
        if spec.index != other.index || !shared_core {
            return None;
        }
        let number = text::decimal_text(spec.index as u64);
        if spec.mode == other.mode {
            Some(text::join3("up channel ", number.as_str(), " was specified more than once"))
        } else {
            Some(
                text::join3("up channel ", number.as_str(), " was specified with conflicting modes"),
            )
        }
    }

    pub open spec fn defmt_error(&self, up_specs: Seq<ChannelSpec>) -> Option<Seq<char>> {
        if self.defmt_filters is Some && !any_defmt(up_specs) {
            Some("--defmt-filter requires at least one up channel using :defmt"@)
        } else if any_defmt(up_specs) && self.elf@.len() == 0 {
            Some("--elf is required when using an up channel with :defmt"@)
        } else if self.debug_defmt_table && self.elf@.len() == 0 {
            Some("--debug-defmt-table requires --elf"@)
        } else {
            None
        }
    }

    fn validate_defmt(&self, up_specs: &[ChannelSpec]) -> (error: Option<String>)
        ensures
            message_view(error) == self.defmt_error(up_specs@),
    {
        let has_defmt = Self::has_defmt_up_channel(up_specs);
        if self.defmt_filters.is_some() && !has_defmt {
            return Some(
                "--defmt-filter requires at least one up channel using :defmt".to_string(),
            );
        }
        if has_defmt && self.elf.len() == 0 {
            return Some("--elf is required when using an up channel with :defmt".to_string());
        }
        if self.debug_defmt_table && self.elf.len() == 0 {
            return Some("--debug-defmt-table requires --elf".to_string());
        }
        None
    }

    pub open spec fn logging_error(&self, up_specs: Seq<ChannelSpec>) -> Option<Seq<char>> {
        if self.log is None {
            if self.log_per_channel {
                Some("--log-per-channel requires --log"@)
            } else if self.log_format is Some {
                Some("--log-format requires --log"@)
            } else {
                None
            }
        } else if self.raw_merged() && up_specs.len() > 1 {
            Some(raw_fan_out_text())
        } else {
            None
        }
    }

    /// Raw bytes go to one file.
    pub open spec fn raw_merged(&self) -> bool {
        self.log_format == Some(LogFormat::Raw) && !self.log_per_channel
    }

    fn is_raw_merged(&self) -> (raw: bool)
        ensures
            raw == self.raw_merged(),
    {
        match self.log_format {
            Some(LogFormat::Raw) => !self.log_per_channel,
            _ => false,
        }
    }

    fn validate_logging(&self, up_specs: &[ChannelSpec]) -> (error: Option<String>)
        ensures
            message_view(error) == self.logging_error(up_specs@),
    {
        if self.log.is_none() {
            if self.log_per_channel {
                return Some("--log-per-channel requires --log".to_string());
            }
            if self.log_format.is_some() {
                return Some("--log-format requires --log".to_string());
            }
        } else if self.is_raw_merged() && up_specs.len() > 1 {
            return Some(
                "--log-format raw with multiple up channels requires --log-per-channel".to_string(),
            );
        }
        None
    }

    /// What is wrong with the up channels for these cores, if anything.
    pub open spec fn expanded_error(&self, up_specs: Seq<ChannelSpec>, cores: Seq<u32>) -> Option<
        Seq<char>,
    > {
        first_error(
            coverage_error(up_specs, cores, up_specs.len() as int),
            if self.log is Some && self.raw_merged() && sources(up_specs, cores).len() > 1 {
                Some(raw_fan_out_text())
            } else {
                None
            },
        )
    }

    /// Checks the channels once the cores are known: every selection must reach a
    /// core, and a merged raw log takes a single source.
    pub fn validate_expanded(&self, up_specs: &[ChannelSpec], cores: &[u32]) -> (result: Result<
        (),
        String,
    >)
        ensures
            match result {
                Ok(()) => self.expanded_error(up_specs@, cores@) is None,
                Err(message) => self.expanded_error(up_specs@, cores@) == Some(message@),
            },
    {
        if let Err(message) = validate_up_coverage(up_specs, cores) {
            return Err(message);
        }
        if self.log.is_some() && self.is_raw_merged() && expand_sources(up_specs, cores).len() > 1 {
            return Err(
                "--log-format raw with multiple up channels requires --log-per-channel".to_string(),
            );
        }
        Ok(())
    }

    /// Some option that only affects a live session was set. The probe selector
    /// and the options by which a target is found are not among them.
    pub open spec fn session_options(&self) -> bool {
        ||| self.up@.len() > 0
        ||| self.down is Some
        ||| self.no_down
        ||| self.reset
        ||| self.timestamps
        ||| self.poll_interval != DEFAULT_POLL_INTERVAL_MS
        ||| self.log is Some
        ||| self.log_per_channel
        ||| self.log_format is Some
        ||| self.defmt_filters is Some
        ||| self.color != ColorMode::Auto
    }

    fn has_session_options(&self) -> (set: bool)
        ensures
            set == self.session_options(),
    {
        self.up.len() > 0 || self.down.is_some() || self.no_down || self.reset || self.timestamps
            || self.poll_interval != DEFAULT_POLL_INTERVAL_MS || self.log.is_some()
            || self.log_per_channel || self.log_format.is_some() || self.defmt_filters.is_some()
            || self.color != ColorMode::Auto
    }

    pub open spec fn mode_error(&self) -> Option<Seq<char>> {
        let probe_list = self.probe == Some(ProbeInfo::List);
        if self.debug_defmt_table && (self.list || probe_list) {
            Some("--debug-defmt-table cannot be combined with --list or --probe list"@)
        } else if self.debug_defmt_table && self.session_options() {
            Some("--debug-defmt-table cannot be combined with session options"@)
        } else if self.list && probe_list {
            Some("--list cannot be combined with --probe list"@)
        } else if self.list && self.session_options() {
            Some("--list cannot be combined with session options"@)
        } else if probe_list && self.session_options() {
            Some("--probe list cannot be combined with session options"@)
        } else {
            None
        }
    }

    fn validate_operation_modes(&self) -> (error: Option<String>)
        ensures
            message_view(error) == self.mode_error(),
    {
        let probe_list = self.lists_probes();
        if self.debug_defmt_table {
            if self.list || probe_list {
                return Some(
                    "--debug-defmt-table cannot be combined with --list or --probe list".to_string(),
                );
            }
            if self.has_session_options() {
                return Some(
                    "--debug-defmt-table cannot be combined with session options".to_string(),
                );
            }
        }
        if self.list {
            if probe_list {
                return Some("--list cannot be combined with --probe list".to_string());
            }
            if self.has_session_options() {
                return Some("--list cannot be combined with session options".to_string());
            }
        }
        if probe_list && self.has_session_options() {
            return Some("--probe list cannot be combined with session options".to_string());
        }
        None
    }

    fn validate_filter(&self) -> (error: Option<String>)
        ensures
            message_view(error) == (match self.defmt_filters {
                Some(spec) => filter_error(spec@, spec@.len() as int),
                None => None,
            }),
    {
        let filters = match &self.defmt_filters {
            Some(spec) => &spec.filters,
            None => {
                return None;
            },
        };
        let ghost views = self.defmt_filters->0@;
        let mut error: Option<String> = None;
        let mut i: usize = 0;
        while i < filters.len()
            invariant
                i <= filters@.len(),
                views == Seq::new(filters@.len(), |i: int| filters@[i]@),
                message_view(error) == filter_error(views, i as int),
            decreases filters@.len() - i,
        {
            if error.is_none() {
                let mut repeated = false;
                let mut j: usize = 0;
                while j < i
                    invariant
                        j <= i < filters@.len(),
                        views == Seq::new(filters@.len(), |i: int| filters@[i]@),
                        repeated == prefix_occurs(views, j as int, views[i as int].module),
                    decreases i - j,
                {
                    let same = text::same_text(
                        filters[j].module.as_str(),
                        filters[i].module.as_str(),
                    );
                    proof {
                        assert(views[j as int].module == filters@[j as int].module@);
                        if repeated {
                            let k = choose|k: int|
                                0 <= k < j && (#[trigger] views[k]).module
                                    == views[i as int].module;
                            assert(views[k].module == views[i as int].module);
                        }
                    }
                    repeated = repeated || same;
                    j += 1;
                }
                if repeated {
                    error = Some(
                        text::join3(
                            "defmt filter prefix '",
                            filters[i].module.as_str(),
                            "' was specified more than once",
                        ),
                    );
                }
            }
            i += 1;
        }
        error
    }

    /// What the options come to: the first rule that they break, or each ELF file
    /// with its core and the up channels in force.
    pub open spec fn resolution(
        &self,
        result: Result<ResolvedOpts, String>,
    ) -> bool {
        let up = up_selection(self.up@);
        match self.error(up) {
            Some(message) => result matches Err(e) && e@ == message,
            None => match elf_error(elf_indices(self.elf@), self.elf@.len() as int) {
                Some(message) => result matches Err(e) && e@ == message,
                None => exists|indices: Seq<u32>| #[trigger]
                    assigned(elf_indices(self.elf@), indices) && (match self.expanded_error(
                        up,
                        configured_cores(indices),
                    ) {
                        Some(message) => result matches Err(e) && e@ == message,
                        None => {
                            &&& result matches Ok(resolved)
                            &&& resolved.up_specs@ == up
                            &&& elf_view(resolved.elf_specs@) == Seq::new(
                                self.elf@.len(),
                                |i: int| (indices[i], self.elf@[i].path@),
                            )
                        },
                    }),
            },
        }
    }

    /// Checks all rules and fills in the defaults.
    pub fn resolve(&self) -> (result: Result<ResolvedOpts, String>)
        requires
            self.elf@.len() <= u32::MAX,
        ensures
            self.resolution(result),
    {
        let up_specs = configured_up_specs(self.up.as_slice());
        if let Err(message) = self.validate(up_specs.as_slice()) {
            return Err(message);
        }
        let elf_specs = match resolve_elf_specs(self.elf.as_slice()) {
            Ok(elf_specs) => elf_specs,
            Err(message) => {
                return Err(message);
            },
        };
        let ghost indices = Seq::new(elf_specs@.len(), |i: int| elf_specs@[i].0);
        let mut cores: Vec<u32> = Vec::new();
        let mut i: usize = 0;
        while i < elf_specs.len()
            invariant
                i <= elf_specs@.len(),
                indices == Seq::new(elf_specs@.len(), |i: int| elf_specs@[i].0),
                cores@ == indices.take(i as int),
            decreases elf_specs@.len() - i,
        {
            cores.push(elf_specs[i].0);
            i += 1;
            proof {
                assert(cores@ =~= indices.take(i as int));
            }
        }
        if elf_specs.len() == 0 {
            cores.push(0);
        }
        proof {
            assert(assigned(elf_indices(self.elf@), indices));
            assert(cores@ =~= configured_cores(indices));
        }
        if let Err(message) = self.validate_expanded(up_specs.as_slice(), cores.as_slice()) {
            return Err(message);
        }
        proof {
            assert(elf_view(elf_specs@) =~= Seq::new(
                self.elf@.len(),
                |i: int| (indices[i], self.elf@[i].path@),
            ));
        }
        Ok(ResolvedOpts { elf_specs, up_specs })
    }
}

/// The options after all checks: each ELF file with its core, and the up
/// channels with their default.
#[derive(Debug)]
pub struct ResolvedOpts {
    pub elf_specs: Vec<(u32, String)>,
    pub up_specs: Vec<ChannelSpec>,
}

impl ResolvedOpts {
    pub fn elf_specs(&self) -> (specs: &[(u32, String)])
        ensures
            specs@ == self.elf_specs@,
    {
        self.elf_specs.as_slice()
    }

    pub fn up_specs(&self) -> (specs: &[ChannelSpec])
        ensures
            specs@ == self.up_specs@,
    {
        self.up_specs.as_slice()
    }
}

/// The up channels in force: channel 0 of every core unless others are selected.
pub open spec fn up_selection(specs: Seq<ChannelSpec>) -> Seq<ChannelSpec> {
    if specs.len() == 0 {
        seq![ChannelSpec { core: None, index: 0, mode: ChannelEncoding::Terminal }]
    } else {
        specs
    }
}

pub fn configured_up_specs(specs: &[ChannelSpec]) -> (selection: Vec<ChannelSpec>)
    ensures
        selection@ == up_selection(specs@),
{
    if specs.len() > 0 {
        return copy_specs(specs);
    }
    let mut selection: Vec<ChannelSpec> = Vec::new();
    selection.push(ChannelSpec { core: None, index: 0, mode: ChannelEncoding::Terminal });
    proof {
        assert(selection@ =~= up_selection(specs@));
    }
    selection
}

/// One up channel on one core.
#[derive(Clone, Copy, Debug, PartialEq, Eq, Structural)]
pub struct SelectedSource {
    pub core: u32,
    pub channel: u32,
    pub mode: ChannelEncoding,
}

/// The sources of one selection, in the order of the cores.
pub open spec fn sources_of(spec: ChannelSpec, cores: Seq<u32>) -> Seq<SelectedSource>
    decreases cores.len(),
{
    if cores.len() == 0 {
        seq![]
    } else {
        let earlier = sources_of(spec, cores.drop_last());
        if spec.reaches(cores.last()) {
            earlier.push(
                SelectedSource { core: cores.last(), channel: spec.index, mode: spec.mode },
            )
        } else {
            earlier
        }
    }
}

/// The sources of all selections, in their order.
pub open spec fn sources(specs: Seq<ChannelSpec>, cores: Seq<u32>) -> Seq<SelectedSource>
    decreases specs.len(),
{
    if specs.len() == 0 {
        seq![]
    } else {
        sources(specs.drop_last(), cores) + sources_of(specs.last(), cores)
    }
}

/// Expands every selection over the cores: one without a core yields a source
/// for each, one with a core yields a source on that core.
pub fn expand_sources(up_specs: &[ChannelSpec], cores: &[u32]) -> (expanded: Vec<SelectedSource>)
    ensures
        expanded@ == sources(up_specs@, cores@),
{
    let mut expanded: Vec<SelectedSource> = Vec::new();
    let mut i: usize = 0;
    proof {
        assert(up_specs@.take(0) =~= Seq::<ChannelSpec>::empty());
    }
    while i < up_specs.len()
        invariant
            i <= up_specs@.len(),
            expanded@ == sources(up_specs@.take(i as int), cores@),
        decreases up_specs@.len() - i,
    {
        let spec = up_specs[i];
        let ghost before = expanded@;
        let mut j: usize = 0;
        proof {
            assert(cores@.take(0) =~= Seq::<u32>::empty());
            assert(expanded@ =~= before + sources_of(spec, cores@.take(0)));
        }
        while j < cores.len()
            invariant
                j <= cores@.len(),
                expanded@ == before + sources_of(spec, cores@.take(j as int)),
            decreases cores@.len() - j,
        {
            let core: u32 = cores[j];
            proof {
                assert(cores@.take(j as int + 1).drop_last() =~= cores@.take(j as int));
                assert(cores@.take(j as int + 1).last() == core);
            }
            if spec.applies_to(core) {
                expanded.push(SelectedSource { core, channel: spec.index, mode: spec.mode });
            }
            j += 1;
            proof {
                assert(expanded@ =~= before + sources_of(spec, cores@.take(j as int)));
            }
        }
        proof {
            assert(cores@.take(cores@.len() as int) =~= cores@);
            assert(up_specs@.take(i as int + 1).drop_last() =~= up_specs@.take(i as int));
            assert(up_specs@.take(i as int + 1).last() == spec);
        }
        i += 1;
    }
    proof {
        assert(up_specs@.take(up_specs@.len() as int) =~= up_specs@);
    }
    expanded
}

/// A selection without a core yields one source on every core.
pub proof fn bare_selections_reach_every_core(spec: ChannelSpec, cores: Seq<u32>)
    requires
        spec.core is None,
    ensures
        sources_of(spec, cores) == Seq::new(
            cores.len(),
            |i: int| SelectedSource { core: cores[i], channel: spec.index, mode: spec.mode },
        ),
    decreases cores.len(),
{
    if cores.len() > 0 {
        bare_selections_reach_every_core(spec, cores.drop_last());
    }
    assert(sources_of(spec, cores) =~= Seq::new(
        cores.len(),
        |i: int| SelectedSource { core: cores[i], channel: spec.index, mode: spec.mode },
    ));
}

/// Some core is reached.
pub open spec fn reaches_any(spec: ChannelSpec, cores: Seq<u32>) -> bool {
    exists|i: int| 0 <= i < cores.len() && spec.reaches(#[trigger] cores[i])
}

/// The first of the first `n` selections that reaches no core.
pub open spec fn coverage_error(specs: Seq<ChannelSpec>, cores: Seq<u32>, n: int) -> Option<
    Seq<char>,
>
    decreases n,
{
    if n <= 0 {
        None
    } else {
        match coverage_error(specs, cores, n - 1) {
            Some(message) => Some(message),
            None => if reaches_any(specs[n - 1], cores) {
                None
            } else {
                Some(
                    "up channel "@ + (match specs[n - 1].core {
                        Some(core) => text::decimal(core as nat) + ":"@,
                        None => seq![],
                    }) + text::decimal(specs[n - 1].index as nat) + " selects no configured core"@,
                )
            },
        }
    }
}

/// Every selection must reach at least one configured core.
pub fn validate_up_coverage(up_specs: &[ChannelSpec], cores: &[u32]) -> (result: Result<
    (),
    String,
>)
    ensures
        match result {
            Ok(()) => coverage_error(up_specs@, cores@, up_specs@.len() as int) is None,
            Err(message) => coverage_error(up_specs@, cores@, up_specs@.len() as int) == Some(
                message@,
            ),
        },
{
    let mut error: Option<String> = None;
    let mut i: usize = 0;
    while i < up_specs.len()
        invariant
            i <= up_specs@.len(),
            message_view(error) == coverage_error(up_specs@, cores@, i as int),
        decreases up_specs@.len() - i,
    {
        if error.is_none() {
            let spec = up_specs[i];
            let mut reached = false;
            let mut j: usize = 0;
            while j < cores.len()
                invariant
                    j <= cores@.len(),
                    reached == exists|k: int| 0 <= k < j && spec.reaches(#[trigger] cores@[k]),
                decreases cores@.len() - j,
            {
                let applies = spec.applies_to(cores[j]);
                proof {
                    if reached {
                        let k = choose|k: int| 0 <= k < j && spec.reaches(#[trigger] cores@[k]);
                        assert(spec.reaches(cores@[k]));
                    }
                }
                reached = reached || applies;
                j += 1;
            }
            if !reached {
                let mut message = "up channel ".to_string();
                if let Some(core) = spec.core {
                    text::push_number(&mut message, core as u64, 10);
                    text::push_str(&mut message, ":");
                }
                text::push_number(&mut message, spec.index as u64, 10);
                text::push_str(&mut message, " selects no configured core");
                proof {
                    assert(message@ =~= "up channel "@ + (match spec.core {
                        Some(core) => text::decimal(core as nat) + ":"@,
                        None => seq![],
                    }) + text::decimal(spec.index as nat) + " selects no configured core"@);
                }
                error = Some(message);
            }
        }
        i += 1;
    }
    match error {
        Some(message) => Err(message),
        None => Ok(()),
    }
}

/// The indices given with `--elf`.
pub open spec fn elf_indices(specs: Seq<ElfSpec>) -> Seq<Option<u32>> {
    Seq::new(specs.len(), |i: int| specs[i].index)
}

/// The views of resolved ELF files.
pub open spec fn elf_view(specs: Seq<(u32, String)>) -> Seq<(u32, Seq<char>)> {
    Seq::new(specs.len(), |i: int| (specs[i].0, specs[i].1@))
}

/// The cores of a session: those with an ELF file, or core 0 without any.
pub open spec fn configured_cores(indices: Seq<u32>) -> Seq<u32> {
    if indices.len() == 0 {
        seq![0]
    } else {
        indices
    }
}

/// One of the first `n` values names `index`.
pub open spec fn index_occurs(indices: Seq<Option<u32>>, n: int, index: u32) -> bool {
    exists|i: int| 0 <= i < n && #[trigger] indices[i] == Some(index)
}

/// The first of the first `n` values that repeats an index.
pub open spec fn elf_error(indices: Seq<Option<u32>>, n: int) -> Option<Seq<char>>
    decreases n,
{
    if n <= 0 {
        None
    } else {
        match elf_error(indices, n - 1) {
            Some(message) => Some(message),
            None => match indices[n - 1] {
                Some(index) => if index_occurs(indices, n - 1, index) {
                    Some(
                        "--elf index "@ + text::decimal(index as nat)
                            + " was specified more than once"@,
                    )
                } else {
                    None
                },
                None => None,
            },
        }
    }
}

/// `index` is not available to the value at `position`: it is named by some value
/// or was given to an earlier one.
pub open spec fn index_taken(
    indices: Seq<Option<u32>>,
    result: Seq<u32>,
    position: int,
    index: u32,
) -> bool {
    index_occurs(indices, indices.len() as int, index) || exists|j: int|
        0 <= j < position && #[trigger] result[j] == index
}

/// Each value keeps the index it names; a value without one gets the lowest
/// index that is still free, in the order of the values.
pub open spec fn assigned(indices: Seq<Option<u32>>, result: Seq<u32>) -> bool {
    &&& result.len() == indices.len()
    &&& forall|i: int|
        0 <= i < indices.len() ==> assigned_at(indices, result, i)
}

pub open spec fn assigned_at(indices: Seq<Option<u32>>, result: Seq<u32>, i: int) -> bool {
    match indices[i] {
        Some(index) => result[i] == index,
        None => {
            &&& !index_taken(indices, result, i, result[i])
            &&& forall|m: u32| m < result[i] ==> #[trigger] index_taken(indices, result, i, m)
        },
    }
}

/// There is only one such assignment.
pub proof fn assignment_is_unique(indices: Seq<Option<u32>>, a: Seq<u32>, b: Seq<u32>)
    requires
        assigned(indices, a),
        assigned(indices, b),
    ensures
        a == b,
{
    assignment_agrees(indices, a, b, indices.len() as int);
    assert(a =~= b);
}

proof fn assignment_agrees(indices: Seq<Option<u32>>, a: Seq<u32>, b: Seq<u32>, n: int)
    requires
        assigned(indices, a),
        assigned(indices, b),
        0 <= n <= indices.len(),
    ensures
        forall|i: int| 0 <= i < n ==> a[i] == b[i],
    decreases n,
{
    if n > 0 {
        assignment_agrees(indices, a, b, n - 1);
        let i = n - 1;
        assert(assigned_at(indices, a, i));
        assert(assigned_at(indices, b, i));
        assert forall|m: u32|
            index_taken(indices, a, i, m) == index_taken(indices, b, i, m) by {
            if !index_occurs(indices, indices.len() as int, m) {
                if index_taken(indices, a, i, m) {
                    let j = choose|j: int| 0 <= j < i && #[trigger] a[j] == m;
                    assert(b[j] == m);
                }
                if index_taken(indices, b, i, m) {
                    let j = choose|j: int| 0 <= j < i && #[trigger] b[j] == m;
                    assert(a[j] == m);
                }
            }
        }
        if indices[i] is None {
            if a[i] < b[i] {
                assert(index_taken(indices, b, i, a[i]));
            } else if b[i] < a[i] {
                assert(index_taken(indices, a, i, b[i]));
            }
        }
    }
}

/// Without a repeated index no two ELF files share a core.
pub proof fn assigned_cores_are_distinct(indices: Seq<Option<u32>>, result: Seq<u32>)
    requires
        elf_error(indices, indices.len() as int) is None,
        assigned(indices, result),
    ensures
        result.no_duplicates(),
{
    assert forall|i: int, j: int| 0 <= i < j < result.len() implies result[i] != result[j] by {
        assert(assigned_at(indices, result, i));
        assert(assigned_at(indices, result, j));
        if result[i] == result[j] {
            if indices[j] is None {
                assert(index_taken(indices, result, j, result[i]));
            } else if indices[i] is None {
                assert(indices[j] == Some(result[i]));
                assert(index_occurs(indices, indices.len() as int, result[i]));
                assert(index_taken(indices, result, i, result[i]));
            } else {
                no_error_in_prefix(indices, indices.len() as int, j + 1);
                assert(indices[i] == Some(result[j]));
                assert(index_occurs(indices, j, result[j]));
            }
        }
    }
}

proof fn no_error_in_prefix(indices: Seq<Option<u32>>, n: int, prefix: int)
    requires
        0 <= prefix <= n,
        elf_error(indices, n) is None,
    ensures
        elf_error(indices, prefix) is None,
    decreases n,
{
    if prefix < n {
        no_error_in_prefix(indices, n - 1, prefix);
    }
}

/// How many of the first `n` values name an index.
spec fn named_count(indices: Seq<Option<u32>>, n: int) -> int
    decreases n,
{
    if n <= 0 {
        0
    } else {
        named_count(indices, n - 1) + if indices[n - 1] is Some {
            1int
        } else {
            0int
        }
    }
}

proof fn named_count_grows(indices: Seq<Option<u32>>, a: int, b: int)
    requires
        0 <= a <= b,
    ensures
        0 <= named_count(indices, b) - named_count(indices, a) <= b - a,
    decreases b,
{
    if a < b {
        named_count_grows(indices, a, b - 1);
    }
}

/// A list that holds every number below `n` has at least `n` elements.
proof fn covering_needs_room(taken: Seq<u32>, n: u32)
    requires
        forall|m: u32| m < n ==> taken.contains(m),
    ensures
        n <= taken.len(),
{
    let numbers = Set::new(|m: u32| m < n);
    below_has_count(n);
    assert(numbers.subset_of(taken.to_set()));
    taken.lemma_cardinality_of_set();
    vstd::set_lib::lemma_len_subset(numbers, taken.to_set());
}

proof fn below_has_count(n: u32)
    ensures
        Set::new(|m: u32| m < n).finite(),
        Set::new(|m: u32| m < n).len() == n,
    decreases n,
{
    let numbers = Set::new(|m: u32| m < n);
    if n == 0 {
        assert(numbers =~= Set::empty());
    } else {
        let k = (n - 1) as u32;
        below_has_count(k);
        assert(numbers =~= Set::new(|m: u32| m < k).insert(k));
    }
}

/// The lowest number that is not in `taken`.
fn lowest_free(taken: &Vec<u32>) -> (index: u32)
    requires
        taken@.len() <= u32::MAX,
    ensures
        !taken@.contains(index),
        forall|m: u32| m < index ==> taken@.contains(m),
{
    let mut index: u32 = 0;
    while contains_index(taken, index)
        invariant
            taken@.len() <= u32::MAX,
            forall|m: u32| m < index ==> taken@.contains(m),
        decreases u32::MAX - index,
    {
        proof {
            covering_needs_room(taken@, index);
            if index == u32::MAX {
                all_numbers_need_room(taken@);
            }
        }
        index += 1;
    }
    index
}

/// No list of at most `u32::MAX` elements holds every index.
proof fn all_numbers_need_room(taken: Seq<u32>)
    requires
        forall|m: u32| m < u32::MAX ==> taken.contains(m),
        taken.contains(u32::MAX),
    ensures
        taken.len() > u32::MAX,
{
    let numbers = Set::new(|m: u32| m < u32::MAX);
    below_has_count(u32::MAX);
    let all = numbers.insert(u32::MAX);
    assert(all.subset_of(taken.to_set()));
    taken.lemma_cardinality_of_set();
    vstd::set_lib::lemma_len_subset(all, taken.to_set());
}

fn contains_index(taken: &Vec<u32>, index: u32) -> (found: bool)
    ensures
        found == taken@.contains(index),
{
    let mut i: usize = 0;
    while i < taken.len()
        invariant
            i <= taken@.len(),
            forall|j: int| 0 <= j < i ==> taken@[j] != index,
        decreases taken@.len() - i,
    {
        if taken[i] == index {
            return true;
        }
        i += 1;
    }
    false
}

/// Gives each `--elf` value a core. Named indices are reserved first, whatever
/// their place; values without one then fill the lowest free indices.
pub fn resolve_elf_specs(specs: &[ElfSpec]) -> (result: Result<Vec<(u32, String)>, String>)
    requires
        specs@.len() <= u32::MAX,
    ensures
        match result {
            Err(message) => elf_error(elf_indices(specs@), specs@.len() as int) == Some(message@),
            Ok(resolved) => {
                &&& elf_error(elf_indices(specs@), specs@.len() as int) is None
                &&& resolved@.len() == specs@.len()
                &&& assigned(
                    elf_indices(specs@),
                    Seq::new(resolved@.len(), |i: int| resolved@[i].0),
                )
                &&& forall|i: int|
                    0 <= i < specs@.len() ==> (#[trigger] resolved@[i]).1@ == specs@[i].path@
            },
        },
{
    let ghost indices = elf_indices(specs@);
    let ghost count = specs@.len() as int;
    let mut taken: Vec<u32> = Vec::new();
    let mut i: usize = 0;
    while i < specs.len()
        invariant
            i <= specs@.len(),
            indices == elf_indices(specs@),
            count == specs@.len(),
            elf_error(indices, i as int) is None,
            taken@.len() == named_count(indices, i as int),
            forall|m: u32| #[trigger] taken@.contains(m) <==> index_occurs(indices, i as int, m),
        decreases specs@.len() - i,
    {
        if let Some(index) = specs[i].index {
            if contains_index(&taken, index) {
                proof {
                    assert(elf_error(indices, i as int + 1) is Some);
                    error_in_prefix_decides(indices, count, i as int + 1);
                }
                let number = text::decimal_text(index as u64);
                return Err(
                    text::join3("--elf index ", number.as_str(), " was specified more than once"),
                );
            }
            let ghost before = taken@;
            taken.push(index);
            proof {
                assert forall|m: u32| #[trigger] taken@.contains(m) <==> index_occurs(
                    indices,
                    i as int + 1,
                    m,
                ) by {
                    if taken@.contains(m) {
                        let k = choose|k: int| 0 <= k < taken@.len() && taken@[k] == m;
                        if k < before.len() {
                            assert(before[k] == m);
                            assert(before.contains(m));
                            let x = choose|x: int|
                                0 <= x < i && #[trigger] indices[x] == Some(m);
                            assert(indices[x] == Some(m));
                        } else {
                            assert(indices[i as int] == Some(m));
                        }
                    }
                    if index_occurs(indices, i as int + 1, m) {
                        let x = choose|x: int|
                            0 <= x < i + 1 && #[trigger] indices[x] == Some(m);
                        if x < i {
                            assert(index_occurs(indices, i as int, m));
                            assert(before.contains(m));
                            let k = choose|k: int| 0 <= k < before.len() && before[k] == m;
                            assert(taken@[k] == m);
                        } else {
                            assert(taken@[before.len() as int] == m);
                        }
                    }
                }
            }
        } else {
            proof {
                assert forall|m: u32| #[trigger] taken@.contains(m) <==> index_occurs(
                    indices,
                    i as int + 1,
                    m,
                ) by {
                    if index_occurs(indices, i as int + 1, m) {
                        let x = choose|x: int|
                            0 <= x < i + 1 && #[trigger] indices[x] == Some(m);
                        assert(x < i);
                        assert(index_occurs(indices, i as int, m));
                    }
                    if index_occurs(indices, i as int, m) {
                        let x = choose|x: int| 0 <= x < i && #[trigger] indices[x] == Some(m);
                        assert(indices[x] == Some(m));
                    }
                }
            }
        }
        i += 1;
    }
    let mut resolved: Vec<(u32, String)> = Vec::new();
    let ghost mut given = Seq::<u32>::empty();
    let mut i: usize = 0;
    while i < specs.len()
        invariant
            i <= specs@.len(),
            specs@.len() <= u32::MAX,
            indices == elf_indices(specs@),
            count == specs@.len(),
            resolved@.len() == i,
            given == Seq::new(resolved@.len(), |k: int| resolved@[k].0),
            taken@.len() == named_count(indices, count) + i - named_count(indices, i as int),
            forall|m: u32| #[trigger]
                taken@.contains(m) <==> index_taken(indices, given, i as int, m),
            forall|j: int|
                0 <= j < i ==> #[trigger] assigned_at(indices, given, j),
            forall|j: int| 0 <= j < i ==> (#[trigger] resolved@[j]).1@ == specs@[j].path@,
        decreases specs@.len() - i,
    {
        let ghost before = given;
        let ghost taken_before = taken@;
        let index: u32 = match specs[i].index {
            Some(index) => index,
            None => {
                proof {
                    named_count_grows(indices, i as int, count);
                }
                let index: u32 = lowest_free(&taken);
                taken.push(index);
                index
            },
        };
        resolved.push((index, specs[i].path.clone()));
        proof {
            let after = Seq::new(resolved@.len(), |k: int| resolved@[k].0);
            given = after;
            assert(after =~= before.push(index));
            assert forall|j: int, m: u32| 0 <= j <= i implies #[trigger] index_taken(
                indices,
                after,
                j,
                m,
            ) == index_taken(indices, before, j, m) by {
                if !index_occurs(indices, indices.len() as int, m) {
                    if index_taken(indices, after, j, m) {
                        let x = choose|x: int| 0 <= x < j && #[trigger] after[x] == m;
                        assert(before[x] == m);
                    }
                    if index_taken(indices, before, j, m) {
                        let x = choose|x: int| 0 <= x < j && #[trigger] before[x] == m;
                        assert(after[x] == m);
                    }
                }
            }
            assert forall|j: int| 0 <= j < i + 1 implies #[trigger] assigned_at(
                indices,
                after,
                j,
            ) by {
                if j < i {
                    assert(assigned_at(indices, before, j));
                    assert(after[j] == before[j]);
                    if indices[j] is None {
                        assert(!index_taken(indices, after, j, after[j]));
                        assert forall|m: u32| m < after[j] implies #[trigger] index_taken(
                            indices,
                            after,
                            j,
                            m,
                        ) by {
                            assert(index_taken(indices, before, j, m));
                        }
                    }
                } else if indices[j] is None {
                    assert(!taken_before.contains(index));
                    assert(!index_taken(indices, after, j, index));
                    assert forall|m: u32| m < index implies #[trigger] index_taken(
                        indices,
                        after,
                        j,
                        m,
                    ) by {
                        assert(taken_before.contains(m));
                    }
                }
            }
            assert forall|m: u32| #[trigger] taken@.contains(m) <==> index_taken(
                indices,
                after,
                i as int + 1,
                m,
            ) by {
                assert(taken_before.contains(m) <==> index_taken(indices, before, i as int, m));
                if taken@.contains(m) {
                    let k = choose|k: int| 0 <= k < taken@.len() && taken@[k] == m;
                    if k < taken_before.len() {
                        assert(taken_before[k] == m);
                        assert(taken_before.contains(m));
                        if !index_occurs(indices, indices.len() as int, m) {
                            let x = choose|x: int|
                                0 <= x < i && #[trigger] before[x] == m;
                            assert(after[x] == m);
                        }
                    } else {
                        assert(after[i as int] == m);
                    }
                }
                if index_taken(indices, after, i as int + 1, m) {
                    if index_occurs(indices, indices.len() as int, m) {
                        assert(taken_before.contains(m));
                    } else {
                        let x = choose|x: int| 0 <= x < i + 1 && #[trigger] after[x] == m;
                        if x < i {
                            assert(before[x] == m);
                            assert(taken_before.contains(m));
                        } else if indices[i as int] is None {
                            assert(taken@[taken_before.len() as int] == m);
                        } else {
                            assert(indices[i as int] == Some(m));
                            assert(index_occurs(indices, indices.len() as int, m));
                        }
                    }
                    if taken_before.contains(m) {
                        let k = choose|k: int|
                            0 <= k < taken_before.len() && taken_before[k] == m;
                        assert(taken@[k] == m);
                    }
                }
            }
        }
        i += 1;
    }
    Ok(resolved)
}

proof fn error_in_prefix_decides(indices: Seq<Option<u32>>, n: int, prefix: int)
    requires
        0 <= prefix <= n,
        elf_error(indices, prefix) is Some,
    ensures
        elf_error(indices, n) == elf_error(indices, prefix),
    decreases n,
{
    if prefix < n {
        error_in_prefix_decides(indices, n - 1, prefix);
    }
}

/// No two sources share a core and a channel.
pub open spec fn distinct_sources(list: Seq<SelectedSource>) -> bool {
    forall|i: int, j: int|
        0 <= i < j < list.len() ==> (#[trigger] list[i]).core != (#[trigger] list[j]).core
            || list[i].channel != list[j].channel
}

proof fn sources_of_one(spec: ChannelSpec, cores: Seq<u32>)
    requires
        cores.no_duplicates(),
    ensures
        forall|i: int|
            0 <= i < sources_of(spec, cores).len() ==> {
                let source = #[trigger] sources_of(spec, cores)[i];
                source.channel == spec.index && spec.reaches(source.core) && cores.contains(
                    source.core,
                )
            },
        distinct_sources(sources_of(spec, cores)),
    decreases cores.len(),
{
    if cores.len() > 0 {
        let fewer = cores.drop_last();
        sources_of_one(spec, fewer);
        let list = sources_of(spec, cores);
        let earlier = sources_of(spec, fewer);
        assert(cores.last() == cores[cores.len() - 1]);
        assert forall|i: int| 0 <= i < list.len() implies {
            let source = #[trigger] list[i];
            source.channel == spec.index && spec.reaches(source.core) && cores.contains(source.core)
        } by {
            if i < earlier.len() {
                assert(list[i] == earlier[i]);
                let k = choose|k: int| 0 <= k < fewer.len() && fewer[k] == earlier[i].core;
                assert(cores[k] == earlier[i].core);
            }
        }
        assert forall|i: int, j: int| 0 <= i < j < list.len() implies (#[trigger] list[i]).core != (
        #[trigger] list[j]).core || list[i].channel != list[j].channel by {
            assert(list[i] == earlier[i]);
            if j < earlier.len() {
                assert(list[j] == earlier[j]);
            } else {
                let k = choose|k: int| 0 <= k < fewer.len() && fewer[k] == earlier[i].core;
                assert(cores[k] == earlier[i].core);
            }
        }
    }
}

proof fn clash_is_found(specs: Seq<ChannelSpec>, position: int, n: int)
    requires
        clash_with_earlier(specs, position, n) is None,
    ensures
        forall|i: int| 0 <= i < n ==> !overlap(specs[position], #[trigger] specs[i]),
    decreases n,
{
    if n > 0 {
        clash_is_found(specs, position, n - 1);
    }
}

proof fn prefix_has_no_clash(specs: Seq<ChannelSpec>, n: int)
    requires
        0 < n <= specs.len(),
        channels_error(specs, n) is None,
    ensures
        channels_error(specs.take(n - 1), n - 1) is None,
    decreases n,
{
    same_clashes(specs, specs.take(n - 1), n - 1);
}

proof fn same_clashes(specs: Seq<ChannelSpec>, prefix: Seq<ChannelSpec>, n: int)
    requires
        0 <= n <= prefix.len() <= specs.len(),
        prefix == specs.take(prefix.len() as int),
    ensures
        channels_error(specs, n) == channels_error(prefix, n),
    decreases n,
{
    if n > 0 {
        same_clashes(specs, prefix, n - 1);
        same_clashes_at(specs, prefix, n - 1, n - 1);
    }
}

proof fn same_clashes_at(specs: Seq<ChannelSpec>, prefix: Seq<ChannelSpec>, position: int, n: int)
    requires
        0 <= n <= position < prefix.len() <= specs.len(),
        prefix == specs.take(prefix.len() as int),
    ensures
        clash_with_earlier(specs, position, n) == clash_with_earlier(prefix, position, n),
    decreases n,
{
    if n > 0 {
        same_clashes_at(specs, prefix, position, n - 1);
    }
}

proof fn sources_come_from_specs(specs: Seq<ChannelSpec>, cores: Seq<u32>, i: int)
    requires
        cores.no_duplicates(),
        0 <= i < sources(specs, cores).len(),
    ensures
        exists|k: int|
            0 <= k < specs.len() && (#[trigger] specs[k]).index == sources(specs, cores)[i].channel
                && specs[k].reaches(sources(specs, cores)[i].core),
    decreases specs.len(),
{
    let earlier = sources(specs.drop_last(), cores);
    if i < earlier.len() {
        sources_come_from_specs(specs.drop_last(), cores, i);
        let k = choose|k: int|
            0 <= k < specs.drop_last().len() && (#[trigger] specs.drop_last()[k]).index
                == earlier[i].channel && specs.drop_last()[k].reaches(earlier[i].core);
        assert(specs[k] == specs.drop_last()[k]);
    } else {
        sources_of_one(specs.last(), cores);
        assert(sources(specs, cores)[i] == sources_of(specs.last(), cores)[i - earlier.len()]);
        assert(specs[specs.len() - 1] == specs.last());
    }
}

/// Accepted selections expand to different sources: nothing is read, shown or
/// logged twice.
pub proof fn accepted_sources_are_distinct(specs: Seq<ChannelSpec>, cores: Seq<u32>)
    requires
        channels_error(specs, specs.len() as int) is None,
        cores.no_duplicates(),
    ensures
        distinct_sources(sources(specs, cores)),
    decreases specs.len(),
{
    if specs.len() > 0 {
        let n = specs.len() as int;
        let fewer = specs.drop_last();
        prefix_has_no_clash(specs, n);
        assert(specs.take(n - 1) =~= fewer);
        accepted_sources_are_distinct(fewer, cores);
        clash_is_found(specs, n - 1, n - 1);
        sources_of_one(specs.last(), cores);
        let list = sources(specs, cores);
        let earlier = sources(fewer, cores);
        let last = sources_of(specs.last(), cores);
        assert forall|i: int, j: int| 0 <= i < j < list.len() implies (#[trigger] list[i]).core != (
        #[trigger] list[j]).core || list[i].channel != list[j].channel by {
            if j < earlier.len() {
                assert(list[i] == earlier[i] && list[j] == earlier[j]);
            } else if i >= earlier.len() {
                assert(list[i] == last[i - earlier.len()] && list[j] == last[j - earlier.len()]);
            } else {
                assert(list[i] == earlier[i] && list[j] == last[j - earlier.len()]);
                sources_come_from_specs(fewer, cores, i);
                let k = choose|k: int|
                    0 <= k < fewer.len() && (#[trigger] fewer[k]).index == earlier[i].channel
                        && fewer[k].reaches(earlier[i].core);
                assert(!overlap(specs[n - 1], specs[k]));
            }
        }
    }
}

/// Log settings of a session.
#[derive(Debug)]
pub struct LogConfig {
    pub destination: LogDestination,
    pub format: LogFormat,
}

/// Session settings derived from the options, all defaults filled in.
#[derive(Debug)]
pub struct SessionPolicy {
    pub probe: String,
    pub chip: String,
    pub up_specs: Vec<ChannelSpec>,
    pub down_channel: Option<ChannelId>,
    /// Whether `--down` was given. A missing down channel is then an error;
    /// otherwise it only disables input.
    pub down_explicit: bool,
    /// Milliseconds.
    pub poll_interval: u64,
    pub timestamps: bool,
    pub color: ColorMode,
    pub log: Option<LogConfig>,
}

impl SessionPolicy {
    /// The down channel that the options select.
    pub open spec fn down_number(opts: &Opts) -> Option<u32> {
        if opts.no_down {
            None
        } else {
            Some(
                match opts.down {
                    Some(number) => number,
                    None => 0,
                },
            )
        }
    }

    /// The log settings that the options select.
    pub open spec fn selects_log(opts: &Opts, log: Option<LogConfig>) -> bool {
        match (opts.log, log) {
            (None, None) => true,
            (Some(path), Some(config)) => {
                &&& config.format == (match opts.log_format {
                    Some(format) => format,
                    None => LogFormat::Decoded,
                })
                &&& match config.destination {
                    LogDestination::PerChannel(own) => opts.log_per_channel && own@ == path@,
                    LogDestination::Merged(own) => !opts.log_per_channel && own@ == path@,
                }
            },
            _ => false,
        }
    }

    pub fn from_opts(opts: &Opts, probe: String, chip: String, up_specs: &[ChannelSpec]) -> (result:
        Result<Self, ChannelRangeError>)
        ensures
            ({
                let number = Self::down_number(opts);
                let too_large = number is Some && number->0 > usize::MAX;
                match result {
                    Err(error) => too_large && error.direction@ == "down"@ && Some(error.value)
                        == number,
                    Ok(policy) => {
                        &&& !too_large
                        &&& policy.probe@ == probe@
                        &&& policy.chip@ == chip@
                        &&& policy.up_specs@ == up_specs@
                        &&& policy.down_channel == (match number {
                            Some(number) => Some(ChannelId { number: number as usize }),
                            None => None,
                        })
                        &&& policy.down_explicit == (opts.down is Some)
                        &&& policy.poll_interval == opts.poll_interval
                        &&& policy.timestamps == opts.timestamps
                        &&& policy.color == opts.color
                        &&& Self::selects_log(opts, policy.log)
                    },
                }
            }),
    {
        let down_channel = if opts.no_down {
            None
        } else {
            let number: u32 = match opts.down {
                Some(number) => number,
                None => 0,
            };
            match ChannelId::from_cli(number, "down") {
                Ok(channel) => Some(channel),
                Err(error) => {
                    return Err(error);
                },
            }
        };
        let log = match &opts.log {
            None => None,
            Some(path) => {
                let path = text::copy_bytes(path.as_slice());
                let destination = if opts.log_per_channel {
                    LogDestination::PerChannel(path)
                } else {
                    LogDestination::Merged(path)
                };
                let format = match opts.log_format {
                    Some(format) => format,
                    None => LogFormat::Decoded,
                };
                Some(LogConfig { destination, format })
            },
        };
        Ok(
            SessionPolicy {
                probe,
                chip,
                up_specs: copy_specs(up_specs),
                down_channel,
                down_explicit: opts.down.is_some(),
                poll_interval: opts.poll_interval,
                timestamps: opts.timestamps,
                color: opts.color,
                log,
            },
        )
    }
}

fn copy_specs(specs: &[ChannelSpec]) -> (copy: Vec<ChannelSpec>)
    ensures
        copy@ == specs@,
{
    let mut copy: Vec<ChannelSpec> = Vec::new();
    let mut i: usize = 0;
    while i < specs.len()
        invariant
            i <= specs@.len(),
            copy@ == specs@.take(i as int),
        decreases specs@.len() - i,
    {
        copy.push(specs[i]);
        i += 1;
        proof {
            assert(copy@ =~= specs@.take(i as int));
        }
    }
    proof {
        assert(copy@ =~= specs@);
    }
    copy
}

/// `CHANNEL`, `CHANNEL:MODE`, `CORE:CHANNEL` and `CORE:CHANNEL:MODE` select what
/// they say; a channel is a terminal and on every core unless more is said.
#[verifier::rlimit(40)]
pub proof fn selections_read_back(core: u32, index: u32, mode: ChannelEncoding)
    ensures
        ({
            let name = if mode is Terminal {
                "terminal"@
            } else {
                "defmt"@
            };
            let on = text::decimal(core as nat) + seq![':'];
            let channel = text::decimal(index as nat);
            &&& read_channel(channel) == Ok::<ChannelSpec, Seq<char>>(
                ChannelSpec { core: None, index, mode: ChannelEncoding::Terminal },
            )
            &&& read_channel(channel + seq![':'] + name) == Ok::<ChannelSpec, Seq<char>>(
                ChannelSpec { core: None, index, mode },
            )
            &&& read_channel(on + channel) == Ok::<ChannelSpec, Seq<char>>(
                ChannelSpec { core: Some(core), index, mode: ChannelEncoding::Terminal },
            )
            &&& read_channel(on + (channel + seq![':'] + name)) == Ok::<ChannelSpec, Seq<char>>(
                ChannelSpec { core: Some(core), index, mode },
            )
        }),
{
    let name = if mode is Terminal {
        "terminal"@
    } else {
        "defmt"@
    };
    let first = text::decimal(core as nat);
    let channel = text::decimal(index as nat);
    reveal_strlit("terminal");
    reveal_strlit("defmt");
    assert("terminal"@.len() != "defmt"@.len());
    assert("terminal"@[0] == 't' && "defmt"@[3] == 'm');
    text::figures_hold_no(core as nat, 10, ':');
    text::figures_hold_no(index as nat, 10, ':');
    text::digits_are_figures(index as nat, 10);
    text::written_numbers_read_back(core as nat, 10, u32::MAX as int);
    text::written_numbers_read_back(index as nat, 10, u32::MAX as int);
    assert(!name.contains(':'));
    text::splitting_undoes_joining(name, seq![], ':');
    text::splitting_undoes_joining(channel, name, ':');
    text::splitting_undoes_joining(channel, seq![], ':');
    text::splitting_undoes_joining(first, channel, ':');
    text::splitting_undoes_joining(first, channel + seq![':'] + name, ':');
    assert(seq![channel] + seq![name] =~= seq![channel, name]);
    assert(seq![first] + seq![channel] =~= seq![first, channel]);
    assert(seq![first] + seq![channel, name] =~= seq![first, channel, name]);
    assert(channel != "terminal"@);
    assert(channel != "defmt"@);
}

/// A selection of more than three parts, one without a channel number and one
/// with another word for its mode are refused.
#[verifier::rlimit(40)]
pub proof fn other_selections_are_refused(parts: Seq<Seq<char>>, index: u32, word: Seq<char>)
    requires
        parts.len() > 0,
        forall|i: int| 0 <= i < parts.len() ==> !(#[trigger] parts[i]).contains(':'),
        !word.contains(':'),
        word != "terminal"@ && word != "defmt"@,
    ensures
        parts.len() > 3 ==> read_channel(text::joined(parts, seq![':'])) is Err,
        read_channel(seq![]) is Err,
        read_channel(seq![':'] + word) is Err,
        text::read_number(word, 10, u32::MAX as int) is Err ==> read_channel(word) is Err
            && read_channel(text::decimal(index as nat) + seq![':'] + word) is Err,
{
    text::joined_parts_come_back(parts, ':');
    text::splitting_undoes_joining(seq![], seq![], ':');
    text::splitting_undoes_joining(seq![], word, ':');
    text::splitting_undoes_joining(word, seq![], ':');
    assert(Seq::<char>::empty() + seq![':'] + word =~= seq![':'] + word);
    assert(seq![Seq::<char>::empty()] + seq![word] =~= seq![Seq::<char>::empty(), word]);
    let channel = text::decimal(index as nat);
    text::figures_hold_no(index as nat, 10, ':');
    text::splitting_undoes_joining(channel, word, ':');
    assert(seq![channel] + seq![word] =~= seq![channel, word]);
}

/// `INDEX=PATH` names the core of a file, whatever the path holds behind the
/// first equals sign; a path without one leaves the core open.
#[verifier::rlimit(40)]
pub proof fn elf_values_read_back(index: u32, path: Seq<char>)
    requires
        path.len() > 0,
    ensures
        read_elf(text::decimal(index as nat) + seq!['='] + path) == Ok::<ElfView, Seq<char>>(
            ElfView { index: Some(index), path },
        ),
        !path.contains('=') ==> read_elf(path) == Ok::<ElfView, Seq<char>>(
            ElfView { index: None, path },
        ),
        read_elf(seq![]) is Err,
        read_elf(seq!['='] + path) is Err,
        read_elf(text::decimal(index as nat) + seq!['=']) is Err,
{
    let number = text::decimal(index as nat);
    text::figures_hold_no(index as nat, 10, '=');
    text::written_numbers_read_back(index as nat, 10, u32::MAX as int);
    let value = number + seq!['='] + path;
    let n = number.len() as int;
    first_sign_stands(number, path);
    assert(value.take(n) =~= number);
    assert(value.skip(n + 1) =~= path);
    first_sign_stands(seq![], path);
    assert(Seq::<char>::empty() + seq!['='] + path =~= seq!['='] + path);
    assert((seq!['='] + path).take(0) =~= Seq::<char>::empty());
    first_sign_stands(number, seq![]);
    let bare = number + seq!['='];
    assert(bare + Seq::<char>::empty() =~= bare);
    assert(bare.skip(n + 1) =~= Seq::<char>::empty());
    assert(bare.take(n) =~= number);
}

proof fn first_sign_stands(front: Seq<char>, rest: Seq<char>)
    requires
        !front.contains('='),
    ensures
        ({
            let value = front + seq!['='] + rest;
            &&& value.contains('=')
            &&& (choose|i: int| text::is_first(value, '=', i)) == front.len()
        }),
{
    let value = front + seq!['='] + rest;
    let n = front.len() as int;
    assert(value[n] == '=');
    assert forall|j: int| 0 <= j < n implies value[j] != '=' by {
        assert(value[j] == front[j]);
        assert(front.contains(front[j]));
    }
    assert(text::is_first(value, '=', n));
    let chosen = choose|i: int| text::is_first(value, '=', i);
    assert(text::is_first(value, '=', chosen));
    assert(chosen == n) by {
        if chosen < n {
            assert(value[chosen] != '=');
        } else if chosen > n {
            assert(value[n] != '=');
        }
    }
}

/// Nothing is all RAM, one address is that address and two are the range between
/// them, in either base; a range without room is refused.
#[verifier::rlimit(40)]
pub proof fn scan_regions_read_back(start: u64, end: u64, radix: nat)
    requires
        radix == 10 || radix == 16,
    ensures
        ({
            let mark: Seq<char> = if radix == 16 {
                seq!['0', 'x']
            } else {
                seq![]
            };
            let from = mark + text::digits(start as nat, radix);
            let to = mark + text::digits(end as nat, radix);
            let region = read_scan_region(from + seq!['.', '.'] + to);
            &&& read_scan_region(seq![]) == Ok::<RegionView, Seq<char>>(RegionView::Ram)
            &&& read_scan_region(from) == Ok::<RegionView, Seq<char>>(RegionView::Exact(start))
            &&& start < end ==> region == Ok::<RegionView, Seq<char>>(
                RegionView::Ranges(seq![AddressRange { start, end }]),
            )
            &&& start >= end ==> region is Err
            &&& read_scan_region(from + seq!['.', '.'] + (to + seq!['.', '.'] + to)) is Err
        }),
{
    let mark: Seq<char> = if radix == 16 {
        seq!['0', 'x']
    } else {
        seq![]
    };
    let from = mark + text::digits(start as nat, radix);
    let to = mark + text::digits(end as nat, radix);
    address_reads_back(start, radix);
    address_reads_back(end, radix);
    regions_of_addresses(from, to, start, end);
}

/// Two texts that spell addresses make the regions that the addresses do.
#[verifier::rlimit(40)]
proof fn regions_of_addresses(from: Seq<char>, to: Seq<char>, start: u64, end: u64)
    requires
        from.len() > 0 && to.len() > 0,
        !from.contains('.') && !to.contains('.'),
        '!' <= from[0] <= '~' && '!' <= from.last() <= '~',
        '!' <= to[0] <= '~' && '!' <= to.last() <= '~',
        read_address(from) == Ok::<int, text::NumberError>(start as int),
        read_address(to) == Ok::<int, text::NumberError>(end as int),
    ensures
        ({
            let region = read_scan_region(from + seq!['.', '.'] + to);
            &&& read_scan_region(seq![]) == Ok::<RegionView, Seq<char>>(RegionView::Ram)
            &&& read_scan_region(from) == Ok::<RegionView, Seq<char>>(RegionView::Exact(start))
            &&& start < end ==> region == Ok::<RegionView, Seq<char>>(
                RegionView::Ranges(seq![AddressRange { start, end }]),
            )
            &&& start >= end ==> region is Err
            &&& read_scan_region(from + seq!['.', '.'] + (to + seq!['.', '.'] + to)) is Err
        }),
{
    addresses_read_back(from, to, start, end);
    region_parts(from, to);
}

/// One, two and three addresses are read in their order.
proof fn addresses_read_back(from: Seq<char>, to: Seq<char>, start: u64, end: u64)
    requires
        read_address(from) == Ok::<int, text::NumberError>(start as int),
        read_address(to) == Ok::<int, text::NumberError>(end as int),
    ensures
        read_addresses(seq![from]) == Ok::<Seq<int>, text::NumberError>(seq![start as int]),
        read_addresses(seq![from, to]) == Ok::<Seq<int>, text::NumberError>(
            seq![start as int, end as int],
        ),
        read_addresses(seq![from, to, to]) == Ok::<Seq<int>, text::NumberError>(
            seq![start as int, end as int, end as int],
        ),
{
    let none = Seq::<Seq<char>>::empty();
    assert(read_addresses(none) == Ok::<Seq<int>, text::NumberError>(seq![]));
    assert(seq![from].drop_last() =~= none);
    assert(Seq::<int>::empty().push(start as int) =~= seq![start as int]);
    assert(seq![from, to].drop_last() =~= seq![from]);
    assert(seq![start as int].push(end as int) =~= seq![start as int, end as int]);
    assert(seq![from, to, to].drop_last() =~= seq![from, to]);
    assert(seq![start as int, end as int].push(end as int) =~= seq![
        start as int,
        end as int,
        end as int,
    ]);
}

/// What stands between double dots comes apart, and there is nothing to trim.
#[verifier::rlimit(40)]
proof fn region_parts(from: Seq<char>, to: Seq<char>)
    requires
        from.len() > 0 && to.len() > 0,
        !from.contains('.') && !to.contains('.'),
        '!' <= from[0] <= '~' && '!' <= from.last() <= '~',
        '!' <= to[0] <= '~' && '!' <= to.last() <= '~',
    ensures
        ({
            let both = from + seq!['.', '.'] + to;
            let three = from + seq!['.', '.'] + (to + seq!['.', '.'] + to);
            &&& text::trim_end(text::trim_start(from)) == from
            &&& text::trim_end(text::trim_start(both)) == both
            &&& text::trim_end(text::trim_start(three)) == three
            &&& text::split_at_dots(from) == seq![from]
            &&& text::split_at_dots(both) == seq![from, to]
            &&& text::split_at_dots(three) == seq![from, to, to]
        }),
{
    let both = from + seq!['.', '.'] + to;
    let pair = to + seq!['.', '.'] + to;
    let three = from + seq!['.', '.'] + pair;
    text::dots_part_texts(to, to);
    text::dots_part_texts(from, to);
    text::dots_part_texts(from, pair);
    assert(both[0] == from[0] && both.last() == to.last());
    assert(three[0] == from[0] && three.last() == to.last());
    nothing_to_trim(from);
    nothing_to_trim(both);
    nothing_to_trim(three);
    assert(seq![from] + seq![to] =~= seq![from, to]);
    assert(seq![to] + seq![to] =~= seq![to, to]);
    assert(seq![from] + seq![to, to] =~= seq![from, to, to]);
}

proof fn address_reads_back(address: u64, radix: nat)
    requires
        radix == 10 || radix == 16,
    ensures
        ({
            let mark: Seq<char> = if radix == 16 {
                seq!['0', 'x']
            } else {
                seq![]
            };
            let value = mark + text::digits(address as nat, radix);
            &&& value.len() > 0
            &&& !value.contains('.')
            &&& '!' <= value[0] <= '~'
            &&& '!' <= value.last() <= '~'
            &&& read_address(value) == Ok::<int, text::NumberError>(address as int)
        }),
{
    let mark: Seq<char> = if radix == 16 {
        seq!['0', 'x']
    } else {
        seq![]
    };
    let digits = text::digits(address as nat, radix);
    let value = mark + digits;
    text::digits_are_figures(address as nat, radix);
    text::figures_hold_no(address as nat, radix, '.');
    text::figures_hold_no(address as nat, 10, 'x');
    text::figures_hold_no(address as nat, 10, 'X');
    text::written_numbers_read_back(address as nat, radix, u64::MAX as int);
    assert(value.last() == digits.last());
    assert(digits.last() == digits[digits.len() - 1]);
    if radix == 16 {
        assert(value.skip(2) =~= digits);
    } else {
        assert(value =~= digits);
    }
    assert forall|i: int| 0 <= i < value.len() implies value[i] != '.' by {
        if i >= mark.len() {
            assert(value[i] == digits[i - mark.len()]);
        }
    }
}

proof fn nothing_to_trim(value: Seq<char>)
    requires
        value.len() > 0,
        '!' <= value[0] <= '~',
        '!' <= value.last() <= '~',
    ensures
        text::trim_end(text::trim_start(value)) == value,
{
    text::white_space_is_blank(value[0]);
    text::white_space_is_blank(value.last());
    text::trimming_leaves_the_text(seq![], value, seq![]);
    assert(Seq::<char>::empty() + value + Seq::<char>::empty() =~= value);
}

/// White space around a scan region means nothing.
pub proof fn regions_may_stand_in_blanks(before: Seq<char>, value: Seq<char>, after: Seq<char>)
    requires
        forall|i: int| 0 <= i < before.len() ==> text::is_white(#[trigger] before[i]),
        forall|i: int| 0 <= i < after.len() ==> text::is_white(#[trigger] after[i]),
        value.len() > 0 ==> !text::is_white(value[0]) && !text::is_white(value.last()),
    ensures
        read_scan_region(before + value + after) == read_scan_region(value),
{
    text::trimming_leaves_the_text(before, value, after);
    text::trimming_leaves_the_text(seq![], value, seq![]);
    assert(Seq::<char>::empty() + value + Seq::<char>::empty() =~= value);
}

/// A probe is given by its number, and `list` lists them.
pub proof fn probes_read_back(number: usize)
    ensures
        read_probe(text::decimal(number as nat)) == Some(ProbeInfo::Number(number)),
        read_probe("list"@) == Some(ProbeInfo::List),
        read_probe(seq![]) is None,
{
    text::written_numbers_read_back(number as nat, 10, usize::MAX as int);
    text::digits_are_figures(number as nat, 10);
    reveal_strlit("list");
    assert("list"@[0] == 'l');
}

/// Selections are refused exactly where two of them name the same channel and
/// share a core; one without a core shares every core.
pub proof fn selections_of_a_source_are_refused(specs: Seq<ChannelSpec>)
    ensures
        channels_error(specs, specs.len() as int) is None <==> forall|i: int, j: int|
            0 <= i < j < specs.len() && (#[trigger] specs[i]).index == (#[trigger] specs[j]).index
                ==> specs[i].core is Some && specs[j].core is Some && specs[i].core
                != specs[j].core,
{
    selections_are_compared(specs, specs.len() as int);
}

proof fn selections_are_compared(specs: Seq<ChannelSpec>, n: int)
    requires
        0 <= n <= specs.len(),
    ensures
        channels_error(specs, n) is None <==> forall|i: int, j: int|
            0 <= i < j < n && (#[trigger] specs[i]).index == (#[trigger] specs[j]).index
                ==> specs[i].core is Some && specs[j].core is Some && specs[i].core
                != specs[j].core,
    decreases n,
{
    if n > 0 {
        selections_are_compared(specs, n - 1);
        selection_is_compared(specs, n - 1, n - 1);
        if channels_error(specs, n) is None {
            assert forall|i: int, j: int|
                0 <= i < j < n && (#[trigger] specs[i]).index == (#[trigger] specs[j]).index
                implies specs[i].core is Some && specs[j].core is Some && specs[i].core
                != specs[j].core by {}
        }
    }
}

proof fn selection_is_compared(specs: Seq<ChannelSpec>, position: int, n: int)
    requires
        0 <= n <= position < specs.len(),
    ensures
        clash_with_earlier(specs, position, n) is None <==> forall|i: int|
            0 <= i < n && (#[trigger] specs[i]).index == specs[position].index ==> specs[i].core
                is Some && specs[position].core is Some && specs[i].core != specs[position].core,
    decreases n,
{
    if n > 0 {
        selection_is_compared(specs, position, n - 1);
    }
}

/// Filters are refused exactly where a prefix is given twice.
pub proof fn repeated_prefixes_are_refused(filters: Seq<FilterView>)
    ensures
        filter_error(filters, filters.len() as int) is None <==> forall|i: int, j: int|
            0 <= i < j < filters.len() ==> (#[trigger] filters[i]).module != (
            #[trigger] filters[j]).module,
{
    prefixes_are_compared(filters, filters.len() as int);
}

proof fn prefixes_are_compared(filters: Seq<FilterView>, n: int)
    requires
        0 <= n <= filters.len(),
    ensures
        filter_error(filters, n) is None <==> forall|i: int, j: int|
            0 <= i < j < n ==> (#[trigger] filters[i]).module != (#[trigger] filters[j]).module,
    decreases n,
{
    if n > 0 {
        prefixes_are_compared(filters, n - 1);
        if filter_error(filters, n) is None {
            assert forall|i: int, j: int| 0 <= i < j < n implies (#[trigger] filters[i]).module != (
            #[trigger] filters[j]).module by {
                if j == n - 1 {
                    assert(filters[i].module != filters[n - 1].module);
                }
            }
        } else if filter_error(filters, n - 1) is None {
            let i = choose|i: int|
                0 <= i < n - 1 && (#[trigger] filters[i]).module == filters[n - 1].module;
            assert(filters[i].module == filters[n - 1].module);
        }
    }
}

/// ELF files are refused exactly where an index is given twice.
pub proof fn repeated_indices_are_refused(indices: Seq<Option<u32>>)
    ensures
        elf_error(indices, indices.len() as int) is None <==> forall|i: int, j: int|
            0 <= i < j < indices.len() && #[trigger] indices[i] is Some ==> indices[i]
                != #[trigger] indices[j],
{
    indices_are_compared(indices, indices.len() as int);
}

proof fn indices_are_compared(indices: Seq<Option<u32>>, n: int)
    requires
        0 <= n <= indices.len(),
    ensures
        elf_error(indices, n) is None <==> forall|i: int, j: int|
            0 <= i < j < n && #[trigger] indices[i] is Some ==> indices[i]
                != #[trigger] indices[j],
    decreases n,
{
    if n > 0 {
        indices_are_compared(indices, n - 1);
        if elf_error(indices, n) is None {
            assert forall|i: int, j: int|
                0 <= i < j < n && #[trigger] indices[i] is Some implies indices[i]
                != #[trigger] indices[j] by {
                if j == n - 1 && indices[i] == indices[j] {
                    assert(indices[i] == Some(indices[j]->0));
                    assert(index_occurs(indices, n - 1, indices[j]->0));
                }
            }
        } else if elf_error(indices, n - 1) is None {
            let index = indices[n - 1]->0;
            let i = choose|i: int| 0 <= i < n - 1 && #[trigger] indices[i] == Some(index);
            assert(indices[i] == indices[n - 1]);
        }
    }
}

/// Selections are refused exactly where one of them names a core that is not
/// there.
pub proof fn selections_need_their_core(specs: Seq<ChannelSpec>, cores: Seq<u32>)
    requires
        cores.len() > 0,
    ensures
        coverage_error(specs, cores, specs.len() as int) is None <==> forall|i: int|
            0 <= i < specs.len() && (#[trigger] specs[i]).core is Some ==> cores.contains(
                specs[i].core->0,
            ),
{
    cores_are_looked_up(specs, cores, specs.len() as int);
}

proof fn cores_are_looked_up(specs: Seq<ChannelSpec>, cores: Seq<u32>, n: int)
    requires
        cores.len() > 0,
        0 <= n <= specs.len(),
    ensures
        coverage_error(specs, cores, n) is None <==> forall|i: int|
            0 <= i < n && (#[trigger] specs[i]).core is Some ==> cores.contains(specs[i].core->0),
    decreases n,
{
    if n > 0 {
        cores_are_looked_up(specs, cores, n - 1);
        let spec = specs[n - 1];
        if spec.core is None {
            assert(spec.reaches(cores[0]));
        } else if cores.contains(spec.core->0) {
            let k = choose|k: int| 0 <= k < cores.len() && cores[k] == spec.core->0;
            assert(spec.reaches(cores[k]));
        }
    }
}

/// A source is expanded exactly where some selection names its channel and mode,
/// and its core or none; the selections keep their order, and so do the cores.
pub proof fn every_selection_is_expanded(specs: Seq<ChannelSpec>, cores: Seq<u32>)
    ensures
        forall|source: SelectedSource| #[trigger]
            sources(specs, cores).contains(source) <==> cores.contains(source.core) && exists|i: int|
                {
                    &&& 0 <= i < specs.len()
                    &&& (#[trigger] specs[i]).index == source.channel
                    &&& specs[i].mode == source.mode
                    &&& specs[i].core is None || specs[i].core == Some(source.core)
                },
        forall|i: int|
            0 <= i < specs.len() ==> sources(specs, cores) == sources(specs.take(i), cores)
                + sources(seq![#[trigger] specs[i]], cores) + sources(specs.skip(i + 1), cores),
{
    assert forall|source: SelectedSource| #[trigger]
        sources(specs, cores).contains(source) <==> cores.contains(source.core) && exists|i: int| {
            &&& 0 <= i < specs.len()
            &&& (#[trigger] specs[i]).index == source.channel
            &&& specs[i].mode == source.mode
            &&& specs[i].core is None || specs[i].core == Some(source.core)
        } by {
        source_is_expanded(specs, cores, source);
    }
    assert forall|i: int| 0 <= i < specs.len() implies sources(specs, cores) == sources(
        specs.take(i),
        cores,
    ) + sources(seq![#[trigger] specs[i]], cores) + sources(specs.skip(i + 1), cores) by {
        sources_add_up(specs.take(i), seq![specs[i]], cores);
        sources_add_up(specs.take(i) + seq![specs[i]], specs.skip(i + 1), cores);
        assert(specs.take(i) + seq![specs[i]] + specs.skip(i + 1) =~= specs);
    }
}

proof fn sources_add_up(first: Seq<ChannelSpec>, second: Seq<ChannelSpec>, cores: Seq<u32>)
    ensures
        sources(first + second, cores) == sources(first, cores) + sources(second, cores),
    decreases second.len(),
{
    if second.len() == 0 {
        assert(first + second =~= first);
        assert(sources(first, cores) + sources(second, cores) =~= sources(first, cores));
    } else {
        sources_add_up(first, second.drop_last(), cores);
        assert((first + second).drop_last() =~= first + second.drop_last());
        assert((first + second).last() == second.last());
        assert(sources(first + second, cores) =~= sources(first, cores) + sources(second, cores));
    }
}

#[verifier::rlimit(40)]
proof fn source_is_expanded(specs: Seq<ChannelSpec>, cores: Seq<u32>, source: SelectedSource)
    ensures
        sources(specs, cores).contains(source) <==> cores.contains(source.core) && exists|i: int| {
            &&& 0 <= i < specs.len()
            &&& (#[trigger] specs[i]).index == source.channel
            &&& specs[i].mode == source.mode
            &&& specs[i].core is None || specs[i].core == Some(source.core)
        },
    decreases specs.len(),
{
    if specs.len() > 0 {
        let fewer = specs.drop_last();
        let earlier = sources(fewer, cores);
        let last = sources_of(specs.last(), cores);
        source_is_expanded(fewer, cores, source);
        source_of_one_is_expanded(specs.last(), cores, source);
        assert(specs[specs.len() - 1] == specs.last());
        if earlier.contains(source) {
            let k = choose|k: int| 0 <= k < earlier.len() && earlier[k] == source;
            assert(sources(specs, cores)[k] == source);
            let i = choose|i: int| {
                &&& 0 <= i < fewer.len()
                &&& (#[trigger] fewer[i]).index == source.channel
                &&& fewer[i].mode == source.mode
                &&& fewer[i].core is None || fewer[i].core == Some(source.core)
            };
            assert(specs[i] == fewer[i]);
        } else if last.contains(source) {
            let k = choose|k: int| 0 <= k < last.len() && last[k] == source;
            assert(sources(specs, cores)[earlier.len() + k] == source);
        } else if sources(specs, cores).contains(source) {
            let k = choose|k: int|
                0 <= k < sources(specs, cores).len() && sources(specs, cores)[k] == source;
            if k < earlier.len() {
                assert(earlier[k] == source);
            } else {
                assert(last[k - earlier.len()] == source);
            }
        }
        if cores.contains(source.core) && exists|i: int| {
            &&& 0 <= i < specs.len()
            &&& (#[trigger] specs[i]).index == source.channel
            &&& specs[i].mode == source.mode
            &&& specs[i].core is None || specs[i].core == Some(source.core)
        } {
            let i = choose|i: int| {
                &&& 0 <= i < specs.len()
                &&& (#[trigger] specs[i]).index == source.channel
                &&& specs[i].mode == source.mode
                &&& specs[i].core is None || specs[i].core == Some(source.core)
            };
            if i < fewer.len() {
                assert(fewer[i] == specs[i]);
            }
        }
    }
}

proof fn source_of_one_is_expanded(spec: ChannelSpec, cores: Seq<u32>, source: SelectedSource)
    ensures
        sources_of(spec, cores).contains(source) <==> {
            &&& cores.contains(source.core)
            &&& spec.index == source.channel
            &&& spec.mode == source.mode
            &&& spec.core is None || spec.core == Some(source.core)
        },
    decreases cores.len(),
{
    if cores.len() > 0 {
        let fewer = cores.drop_last();
        let earlier = sources_of(spec, fewer);
        let list = sources_of(spec, cores);
        source_of_one_is_expanded(spec, fewer, source);
        assert(cores[cores.len() - 1] == cores.last());
        if earlier.contains(source) {
            let k = choose|k: int| 0 <= k < earlier.len() && earlier[k] == source;
            assert(list[k] == source);
        }
        if fewer.contains(source.core) {
            let k = choose|k: int| 0 <= k < fewer.len() && fewer[k] == source.core;
            assert(cores[k] == source.core);
        }
        if list.contains(source) {
            let k = choose|k: int| 0 <= k < list.len() && list[k] == source;
            if k < earlier.len() {
                assert(earlier[k] == source);
            }
        }
        if cores.contains(source.core) {
            let k = choose|k: int| 0 <= k < cores.len() && cores[k] == source.core;
            if k < fewer.len() {
                assert(fewer[k] == source.core);
            } else if spec.core is None || spec.core == Some(source.core) {
                if spec.index == source.channel && spec.mode == source.mode {
                    assert(list[list.len() - 1] == source);
                }
            }
        }
    }
}

/// The sources of one selection follow the order of the cores.
pub proof fn sources_follow_the_cores(spec: ChannelSpec, cores: Seq<u32>)
    ensures
        sources(seq![spec], cores) == cores.filter(on_core(spec)).map_values(
            |core: u32| SelectedSource { core, channel: spec.index, mode: spec.mode },
        ),
{
    sources_are_filtered(spec, cores);
    reveal_with_fuel(sources, 2);
    assert(seq![spec].drop_last() =~= Seq::<ChannelSpec>::empty());
    assert(sources(seq![spec], cores) =~= sources_of(spec, cores));
}

/// Whether a selection names a core or none.
pub open spec fn on_core(spec: ChannelSpec) -> spec_fn(u32) -> bool {
    |core: u32| spec.core is None || spec.core == Some(core)
}

proof fn sources_are_filtered(spec: ChannelSpec, cores: Seq<u32>)
    ensures
        sources_of(spec, cores) == cores.filter(on_core(spec)).map_values(
            |core: u32| SelectedSource { core, channel: spec.index, mode: spec.mode },
        ),
    decreases cores.len(),
{
    reveal(Seq::filter);
    if cores.len() > 0 {
        sources_are_filtered(spec, cores.drop_last());
    }
    assert(sources_of(spec, cores) =~= cores.filter(on_core(spec)).map_values(
        |core: u32| SelectedSource { core, channel: spec.index, mode: spec.mode },
    ));
}

/// A merged raw log takes a single source, before and after the expansion, and
/// the options that shape a log need one.
pub proof fn logs_are_checked(opts: &Opts, specs: Seq<ChannelSpec>, cores: Seq<u32>)
    ensures
        opts.logging_error(specs) is None <==> {
            &&& opts.log is None ==> !opts.log_per_channel && opts.log_format is None
            &&& opts.log is Some && opts.log_format == Some(LogFormat::Raw)
                && !opts.log_per_channel ==> specs.len() <= 1
        },
        coverage_error(specs, cores, specs.len() as int) is None ==> (opts.expanded_error(
            specs,
            cores,
        ) is None <==> (opts.log is Some && opts.log_format == Some(LogFormat::Raw)
            && !opts.log_per_channel ==> sources(specs, cores).len() <= 1)),
        coverage_error(specs, cores, specs.len() as int) is Some ==> opts.expanded_error(
            specs,
            cores,
        ) is Some,
{
}

/// Decoding needs an ELF file and so does its table, and filters need a channel
/// to decode.
pub proof fn decoding_is_checked(opts: &Opts, specs: Seq<ChannelSpec>)
    ensures
        opts.defmt_error(specs) is None <==> {
            let decoded = exists|i: int|
                0 <= i < specs.len() && (#[trigger] specs[i]).mode == ChannelEncoding::Defmt;
            &&& opts.defmt_filters is Some ==> decoded
            &&& decoded || opts.debug_defmt_table ==> opts.elf@.len() > 0
        },
{
    if any_defmt(specs) {
        let i = choose|i: int| 0 <= i < specs.len() && (#[trigger] specs[i]).mode is Defmt;
        assert(specs[i].mode == ChannelEncoding::Defmt);
    }
}

/// Of the runs that only print something, at most one can be asked for, and none
/// goes together with an option of a session; a session takes every option.
pub proof fn runs_are_told_apart(opts: &Opts)
    ensures
        ({
            let probes = opts.probe == Some(ProbeInfo::List);
            let prints = opts.debug_defmt_table || opts.list || probes;
            let session = opts.up@.len() > 0 || opts.down is Some || opts.no_down || opts.reset
                || opts.timestamps || opts.poll_interval != 10 || opts.log is Some
                || opts.log_per_channel || opts.log_format is Some || opts.defmt_filters is Some
                || opts.color != ColorMode::Auto;
            &&& opts.mode_error() is None <==> (prints ==> !session) && !(opts.debug_defmt_table
                && opts.list) && !(opts.debug_defmt_table && probes) && !(opts.list && probes)
            &&& opts.mode_error() is None ==> match opts.spec_mode() {
                Mode::DebugDefmtTable => opts.debug_defmt_table,
                Mode::ListProbes => probes,
                Mode::ListChannels => opts.list,
                Mode::Session => !prints,
            }
        }),
{
}

/// Options are accepted exactly where no rule is broken.
pub proof fn every_rule_is_checked(opts: &Opts, specs: Seq<ChannelSpec>)
    ensures
        opts.error(specs) is None <==> {
            &&& channels_error(specs, specs.len() as int) is None
            &&& opts.defmt_error(specs) is None
            &&& opts.logging_error(specs) is None
            &&& opts.mode_error() is None
            &&& opts.defmt_filters is Some ==> filter_error(
                opts.defmt_filters->0@,
                opts.defmt_filters->0@.len() as int,
            ) is None
        },
{
}

/// What is not said falls back to channel 0 of core 0 in both directions: up as a
/// terminal, down unless it is switched off.
pub proof fn defaults_are_channel_zero(opts: &Opts, specs: Seq<ChannelSpec>, cores: Seq<u32>)
    ensures
        specs.len() > 0 ==> up_selection(specs) == specs,
        sources(up_selection(seq![]), configured_cores(seq![])) == seq![
            SelectedSource { core: 0, channel: 0, mode: ChannelEncoding::Terminal },
        ],
        sources(up_selection(seq![]), cores).len() == cores.len(),
        cores.len() > 0 ==> configured_cores(cores) == cores,
        opts.no_down ==> SessionPolicy::down_number(opts) is None,
        !opts.no_down && opts.down is None ==> SessionPolicy::down_number(opts) == Some(0u32),
        !opts.no_down && opts.down is Some ==> SessionPolicy::down_number(opts) == opts.down,
{
    let spec = ChannelSpec { core: None, index: 0, mode: ChannelEncoding::Terminal };
    bare_selections_reach_every_core(spec, cores);
    bare_selections_reach_every_core(spec, seq![0]);
    reveal_with_fuel(sources, 2);
    assert(seq![spec].drop_last() =~= Seq::<ChannelSpec>::empty());
    assert(sources(seq![spec], cores) =~= sources_of(spec, cores));
    assert(sources(seq![spec], seq![0]) =~= seq![
        SelectedSource { core: 0, channel: 0, mode: ChannelEncoding::Terminal },
    ]);
}

/// ELF files without an index get the cores from 0 up in their order; one with an
/// index keeps it, and the others go round it.
#[verifier::rlimit(40)]
pub proof fn bare_files_take_free_cores(indices: Seq<Option<u32>>, result: Seq<u32>)
    requires
        assigned(indices, result),
    ensures
        result.len() == indices.len(),
        forall|i: int|
            0 <= i < indices.len() && #[trigger] indices[i] is Some ==> result[i] == indices[i]->0,
        (forall|i: int| 0 <= i < indices.len() ==> #[trigger] indices[i] is None) ==> forall|i: int|
            0 <= i < result.len() ==> #[trigger] result[i] == i,
        forall|i: int, m: u32|
            0 <= i < indices.len() && indices[i] is None && m < #[trigger] result[i]
                ==> #[trigger] index_taken(indices, result, i, m),
        forall|i: int, j: int|
            0 <= i < indices.len() && 0 <= j < indices.len() && #[trigger] indices[i] is None
                && #[trigger] indices[j] is Some ==> result[i] != indices[j]->0,
{
    assert forall|i: int| 0 <= i < indices.len() && #[trigger] indices[i] is Some implies result[i]
        == indices[i]->0 by {
        assert(assigned_at(indices, result, i));
    }
    assert forall|i: int, m: u32|
        0 <= i < indices.len() && indices[i] is None && m < #[trigger] result[i]
        implies #[trigger] index_taken(indices, result, i, m) by {
        assert(assigned_at(indices, result, i));
    }
    assert forall|i: int, j: int|
        0 <= i < indices.len() && 0 <= j < indices.len() && #[trigger] indices[i] is None
            && #[trigger] indices[j] is Some implies result[i] != indices[j]->0 by {
        assert(assigned_at(indices, result, i));
        if result[i] == indices[j]->0 {
            assert(indices[j] == Some(result[i]));
            assert(index_occurs(indices, indices.len() as int, result[i]));
        }
    }
    if forall|i: int| 0 <= i < indices.len() ==> #[trigger] indices[i] is None {
        bare_files_are_counted(indices, result, result.len() as int);
    }
}

proof fn bare_files_are_counted(indices: Seq<Option<u32>>, result: Seq<u32>, n: int)
    requires
        assigned(indices, result),
        forall|i: int| 0 <= i < indices.len() ==> #[trigger] indices[i] is None,
        0 <= n <= result.len(),
    ensures
        forall|i: int| 0 <= i < n ==> #[trigger] result[i] == i,
    decreases n,
{
    if n > 0 {
        let i = n - 1;
        bare_files_are_counted(indices, result, i);
        assert(indices[i] is None);
        assert(assigned_at(indices, result, i));
        if result[i] < i {
            assert(result[result[i] as int] == result[i]);
            assert(index_taken(indices, result, i, result[i]));
        }
        if result[i] > i {
            assert(index_taken(indices, result, i, i as u32));
            assert(!index_occurs(indices, indices.len() as int, i as u32));
            let j = choose|j: int| 0 <= j < i && #[trigger] result[j] == i as u32;
            assert(result[j] == j);
        }
    }
}

/// Options that resolve break no rule, keep the selection and name every ELF file
/// with its core, once each; where a rule is broken they do not resolve.
#[verifier::rlimit(40)]
pub proof fn resolved_options_break_no_rule(opts: &Opts, result: Result<ResolvedOpts, String>)
    requires
        opts.resolution(result),
    ensures
        result matches Ok(resolved) ==> {
            &&& opts.error(up_selection(opts.up@)) is None
            &&& opts.up@.len() > 0 ==> resolved.up_specs@ == opts.up@
            &&& resolved.up_specs@ == up_selection(opts.up@)
            &&& resolved.elf_specs@.len() == opts.elf@.len()
            &&& forall|i: int|
                0 <= i < opts.elf@.len() ==> (#[trigger] resolved.elf_specs@[i]).1@
                    == opts.elf@[i].path@ && (opts.elf@[i].index is Some
                    ==> resolved.elf_specs@[i].0 == opts.elf@[i].index->0)
            &&& forall|i: int, j: int|
                0 <= i < j < opts.elf@.len() ==> (#[trigger] resolved.elf_specs@[i]).0 != (
                #[trigger] resolved.elf_specs@[j]).0
            &&& forall|i: int|
                0 <= i < resolved.up_specs@.len() && opts.elf@.len() > 0 && (
                #[trigger] resolved.up_specs@[i]).core is Some ==> exists|j: int|
                    0 <= j < opts.elf@.len() && (#[trigger] resolved.elf_specs@[j]).0
                        == resolved.up_specs@[i].core->0
        },
        opts.error(up_selection(opts.up@)) is Some ==> result is Err,
        elf_error(elf_indices(opts.elf@), opts.elf@.len() as int) is Some ==> result is Err,
{
    let up = up_selection(opts.up@);
    let named = elf_indices(opts.elf@);
    if let Ok(resolved) = result {
        let indices = choose|indices: Seq<u32>| #[trigger]
            assigned(named, indices) && (match opts.expanded_error(up, configured_cores(indices)) {
                Some(message) => result matches Err(e) && e@ == message,
                None => {
                    &&& result matches Ok(resolved)
                    &&& resolved.up_specs@ == up
                    &&& elf_view(resolved.elf_specs@) == Seq::new(
                        opts.elf@.len(),
                        |i: int| (indices[i], opts.elf@[i].path@),
                    )
                },
            });
        let listed = elf_view(resolved.elf_specs@);
        assert(listed.len() == opts.elf@.len());
        assert forall|i: int| 0 <= i < listed.len() implies (#[trigger] resolved.elf_specs@[i]).0
            == indices[i] && resolved.elf_specs@[i].1@ == opts.elf@[i].path@ by {
            assert(listed[i] == (indices[i], opts.elf@[i].path@));
        }
        assigned_cores_are_distinct(named, indices);
        assert forall|i: int| 0 <= i < opts.elf@.len() implies (
        #[trigger] resolved.elf_specs@[i]).1@ == opts.elf@[i].path@ && (opts.elf@[i].index is Some
            ==> resolved.elf_specs@[i].0 == opts.elf@[i].index->0) by {
            assert(assigned_at(named, indices, i));
            assert(named[i] == opts.elf@[i].index);
        }
        if opts.elf@.len() > 0 {
            selections_need_their_core(up, configured_cores(indices));
            assert forall|i: int|
                0 <= i < resolved.up_specs@.len() && (#[trigger] resolved.up_specs@[i]).core is Some
                implies exists|j: int|
                0 <= j < opts.elf@.len() && (#[trigger] resolved.elf_specs@[j]).0
                    == resolved.up_specs@[i].core->0 by {
                assert(indices.contains(up[i].core->0));
                let j = choose|j: int| 0 <= j < indices.len() && indices[j] == up[i].core->0;
                assert(resolved.elf_specs@[j].0 == indices[j]);
            }
        }
    }
}

/// A log goes where the options say: to one file or to one for each channel, in
/// the given format or decoded.
pub proof fn logs_go_where_they_should(opts: &Opts, log: Option<LogConfig>)
    requires
        SessionPolicy::selects_log(opts, log),
    ensures
        log is Some <==> opts.log is Some,
        log matches Some(config) ==> {
            &&& opts.log_format is None ==> config.format == LogFormat::Decoded
            &&& opts.log_format is Some ==> config.format == opts.log_format->0
            &&& opts.log_per_channel <==> config.destination is PerChannel
            &&& match config.destination {
                LogDestination::PerChannel(path) => path@ == opts.log->0@,
                LogDestination::Merged(path) => path@ == opts.log->0@,
            }
        },
{
}

} // verus!
