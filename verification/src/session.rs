//! Decisions of a session: what each core is looked for with, what keys and core
//! events do, and how it ends.
use crate::channel::{ChannelId, CoreChannel, CoreId};
use crate::cli;
use crate::cli::{expand_sources, ChannelEncoding, ChannelSpec, SessionPolicy};
use crate::defmt;
use crate::defmt::{
    is_hidden, DataView, DecodeOutput, DefmtData, ElfContents, ElfError, FilterSpec, FilterView,
    OutputView,
};
use crate::input;
use crate::input::{
    DownChannelAbsent, DownRouting, InputAction, InputView, KeyEvent, Reconciliation, RoutingEvent,
    RoutingView, SessionCommand,
};
use crate::logger;
use crate::logger::{LogView, Logger, RawMergeError};
use crate::renderer;
use crate::renderer::{HostOutput, Moment, Renderer, ScreenView, StateView};
use crate::rtt::{copy_ranges, RegionView, RttDiscovery, ScanRegion};
use crate::target;
use crate::target::{
    ChannelOutput, CoreEvent, CoreSlots, DecoderView, ReaderView, SlotView, UpChannelReader,
};
use crate::text;
use vstd::prelude::*;

verus! {

fn copy_region(region: &ScanRegion) -> (copy: ScanRegion)
    ensures
        copy@ == region@,
{
    match region {
        ScanRegion::Ram => ScanRegion::Ram,
        ScanRegion::Exact(address) => ScanRegion::Exact(*address),
        ScanRegion::Ranges(ranges) => ScanRegion::Ranges(copy_ranges(ranges.as_slice())),
    }
}

/// Where to look for a core's control block: where its ELF file says, else where
/// the user says, else by scanning what the target describes.
pub fn resolve_scan_region(
    elf_region: Option<&ScanRegion>,
    requested: Option<&ScanRegion>,
    target_default: &ScanRegion,
) -> (discovery: RttDiscovery)
    ensures
        match (elf_region, requested, discovery) {
            (Some(region), _, RttDiscovery::Fixed(own)) => own@ == region@,
            (None, Some(region), RttDiscovery::Fixed(own)) => own@ == region@,
            (None, None, RttDiscovery::Incremental(own)) => own@ == target_default@,
            _ => false,
        },
{
    match (elf_region, requested) {
        (Some(region), _) => RttDiscovery::Fixed(copy_region(region)),
        (None, Some(region)) => RttDiscovery::Fixed(copy_region(region)),
        (None, None) => RttDiscovery::Incremental(copy_region(target_default)),
    }
}

/// What is known of one core before it is attached.
pub struct CoreInput {
    pub id: CoreId,
    pub elf_region: Option<ScanRegion>,
    pub defmt: Option<DefmtData>,
}

/// What a `CoreInput` holds.
#[verifier::ext_equal]
pub struct CoreInputView {
    pub id: CoreId,
    pub region: Option<RegionView>,
    pub defmt: Option<DataView>,
}

impl View for CoreInput {
    type V = CoreInputView;

    open spec fn view(&self) -> CoreInputView {
        CoreInputView {
            id: self.id,
            region: match self.elf_region {
                Some(region) => Some(region@),
                None => None,
            },
            defmt: match self.defmt {
                Some(data) => Some(data@),
                None => None,
            },
        }
    }
}

/// What an ELF file provides for a core.
pub open spec fn input_from(elf: (u32, ElfContents)) -> CoreInputView {
    CoreInputView {
        id: CoreId { index: elf.0 },
        region: match elf.1.region {
            Some(region) => Some(region@),
            None => None,
        },
        defmt: match elf.1.defmt {
            Some(data) => Some(data@),
            None => None,
        },
    }
}

/// `input` behind all cores of `inputs` up to its own, before all higher ones.
pub open spec fn placed(inputs: Seq<CoreInputView>, input: CoreInputView) -> Seq<CoreInputView>
    decreases inputs.len(),
{
    if inputs.len() == 0 || inputs.last().id.index <= input.id.index {
        inputs.push(input)
    } else {
        placed(inputs.drop_last(), input).push(inputs.last())
    }
}

/// The cores of a list of ELF files in numeric order.
pub open spec fn sorted_inputs(elves: Seq<(u32, ElfContents)>) -> Seq<CoreInputView>
    decreases elves.len(),
{
    if elves.len() == 0 {
        seq![]
    } else {
        placed(sorted_inputs(elves.drop_last()), input_from(elves.last()))
    }
}

/// The cores of a session: those with an ELF file, or core 0 with nothing known.
pub open spec fn session_inputs(elves: Seq<(u32, ElfContents)>) -> Seq<CoreInputView> {
    if elves.len() == 0 {
        seq![CoreInputView { id: CoreId { index: 0 }, region: None, defmt: None }]
    } else {
        sorted_inputs(elves)
    }
}

/// The views of a list of cores.
pub open spec fn input_views(inputs: Seq<CoreInput>) -> Seq<CoreInputView> {
    Seq::new(inputs.len(), |i: int| inputs[i]@)
}

/// Placing behind position `n`, where everything from there on is higher.
proof fn placing_at(inputs: Seq<CoreInputView>, input: CoreInputView, n: int)
    requires
        0 <= n <= inputs.len(),
        n > 0 ==> inputs[n - 1].id.index <= input.id.index,
        forall|i: int| n <= i < inputs.len() ==> (#[trigger] inputs[i]).id.index > input.id.index,
    ensures
        placed(inputs, input) == inputs.insert(n, input),
    decreases inputs.len(),
{
    if inputs.len() == 0 || n == inputs.len() {
        assert(inputs.insert(n, input) =~= inputs.push(input));
    } else {
        assert(inputs.last() == inputs[inputs.len() - 1]);
        assert forall|i: int| n <= i < inputs.drop_last().len() implies (
        #[trigger] inputs.drop_last()[i]).id.index > input.id.index by {
            assert(inputs.drop_last()[i] == inputs[i]);
        }
        placing_at(inputs.drop_last(), input, n);
        assert(placed(inputs, input) =~= inputs.insert(n, input));
    }
}

/// Takes the data of the ELF files apart, once, and puts the cores in numeric
/// order.
pub fn core_inputs(elves: Vec<(u32, ElfContents)>) -> (inputs: Vec<CoreInput>)
    ensures
        input_views(inputs@) == session_inputs(elves@),
{
    let mut inputs: Vec<CoreInput> = Vec::new();
    if elves.len() == 0 {
        inputs.push(CoreInput { id: CoreId::new(0), elf_region: None, defmt: None });
        proof {
            assert(input_views(inputs@) =~= session_inputs(elves@));
        }
        return inputs;
    }
    let ghost all = elves@;
    let mut rest = elves;
    let mut waiting: Vec<(u32, ElfContents)> = Vec::new();
    // The files come off the end; turn them round first.
    while rest.len() > 0
        invariant
            all.len() == rest@.len() + waiting@.len(),
            forall|i: int| 0 <= i < rest@.len() ==> rest@[i] == all[i],
            forall|i: int|
                0 <= i < waiting@.len() ==> #[trigger] waiting@[i] == all[all.len() - 1 - i],
        decreases rest@.len(),
    {
        match rest.pop() {
            Some(elf) => waiting.push(elf),
            None => {},
        }
    }
    let ghost mut taken: int = 0;
    proof {
        assert(all.take(0) =~= Seq::<(u32, ElfContents)>::empty());
        assert(input_views(inputs@) =~= sorted_inputs(all.take(0)));
    }
    while waiting.len() > 0
        invariant
            0 <= taken,
            all.len() == taken + waiting@.len(),
            forall|i: int|
                0 <= i < waiting@.len() ==> #[trigger] waiting@[i] == all[all.len() - 1 - i],
            input_views(inputs@) == sorted_inputs(all.take(taken)),
        decreases waiting@.len(),
    {
        let ghost before = input_views(inputs@);
        match waiting.pop() {
            Some((index, contents)) => {
                proof {
                    assert((index, contents) == all[taken]);
                    assert(all.take(taken + 1).drop_last() =~= all.take(taken));
                    assert(all.take(taken + 1).last() == all[taken]);
                }
                let input = CoreInput {
                    id: CoreId::new(index),
                    elf_region: contents.region,
                    defmt: contents.defmt,
                };
                let mut place: usize = inputs.len();
                while place > 0 && inputs[place - 1].id.index > index
                    invariant
                        place <= inputs@.len(),
                        before == input_views(inputs@),
                        forall|i: int|
                            place <= i < before.len() ==> (#[trigger] before[i]).id.index > index,
                    decreases place,
                {
                    proof {
                        assert(before[place - 1] == inputs@[place - 1]@);
                    }
                    place -= 1;
                }
                proof {
                    if place > 0 {
                        assert(before[place - 1] == inputs@[place - 1]@);
                    }
                    placing_at(before, input@, place as int);
                }
                inputs.insert(place, input);
                proof {
                    assert(input_views(inputs@) =~= before.insert(place as int, input@));
                }
            },
            None => {},
        }
        proof {
            taken = taken + 1;
        }
    }
    proof {
        assert(all.take(all.len() as int) =~= all);
    }
    inputs
}

/// The cores stand in numeric order and none is lost or made up.
pub proof fn inputs_are_in_order(elves: Seq<(u32, ElfContents)>)
    ensures
        forall|i: int, j: int|
            0 <= i < j < sorted_inputs(elves).len() ==> (#[trigger] sorted_inputs(elves)[i]).id.index
                <= (#[trigger] sorted_inputs(elves)[j]).id.index,
        sorted_inputs(elves).to_multiset() == Seq::new(
            elves.len(),
            |i: int| input_from(elves[i]),
        ).to_multiset(),
    decreases elves.len(),
{
    broadcast use vstd::seq_lib::group_to_multiset_ensures;

    let listed = Seq::new(elves.len(), |i: int| input_from(elves[i]));
    if elves.len() == 0 {
        assert(listed =~= seq![]);
    } else {
        let fewer = elves.drop_last();
        inputs_are_in_order(fewer);
        placing_keeps_order(sorted_inputs(fewer), input_from(elves.last()));
        let listed_fewer = Seq::new(fewer.len(), |i: int| input_from(fewer[i]));
        assert(listed =~= listed_fewer.push(input_from(elves.last())));
    }
}

proof fn placing_keeps_order(inputs: Seq<CoreInputView>, input: CoreInputView)
    requires
        forall|i: int, j: int|
            0 <= i < j < inputs.len() ==> (#[trigger] inputs[i]).id.index <= (
            #[trigger] inputs[j]).id.index,
    ensures
        placed(inputs, input).len() == inputs.len() + 1,
        forall|i: int, j: int|
            0 <= i < j < placed(inputs, input).len() ==> (#[trigger] placed(
                inputs,
                input,
            )[i]).id.index <= (#[trigger] placed(inputs, input)[j]).id.index,
        forall|i: int, bound: u32|
            (forall|k: int| 0 <= k < inputs.len() ==> (#[trigger] inputs[k]).id.index <= bound)
                && input.id.index <= bound && 0 <= i < placed(inputs, input).len() ==> (
            #[trigger] placed(inputs, input)[i]).id.index <= #[trigger] identity(bound),
        placed(inputs, input).to_multiset() == inputs.push(input).to_multiset(),
    decreases inputs.len(),
{
    broadcast use vstd::seq_lib::group_to_multiset_ensures;

    if inputs.len() > 0 && inputs.last().id.index > input.id.index {
        let fewer = inputs.drop_last();
        placing_keeps_order(fewer, input);
        let shorter = placed(fewer, input);
        let whole = placed(inputs, input);
        assert(inputs =~= fewer.push(inputs.last()));
        let top = inputs.last().id.index;
        assert(top == identity(top));
        assert forall|k: int| 0 <= k < fewer.len() implies (#[trigger] fewer[k]).id.index
            <= top by {
            assert(inputs[k].id.index <= inputs[inputs.len() - 1].id.index);
        }
        assert forall|i: int, j: int| 0 <= i < j < whole.len() implies (
        #[trigger] whole[i]).id.index <= (#[trigger] whole[j]).id.index by {
            assert(whole[i] == shorter[i]);
            if j < shorter.len() {
                assert(whole[j] == shorter[j]);
            } else {
                assert(shorter[i].id.index <= identity(top));
            }
        }
        assert forall|i: int, bound: u32|
            (forall|k: int| 0 <= k < inputs.len() ==> (#[trigger] inputs[k]).id.index <= bound)
                && input.id.index <= bound && 0 <= i < whole.len() implies (
        #[trigger] whole[i]).id.index <= #[trigger] identity(bound) by {
            if i < shorter.len() {
                assert forall|k: int| 0 <= k < fewer.len() implies (#[trigger] fewer[k]).id.index
                    <= bound by {
                    assert(inputs[k].id.index <= bound);
                }
                assert(shorter[i].id.index <= identity(bound));
            } else {
                assert(inputs[inputs.len() - 1].id.index <= bound);
            }
        }
        assert(whole.to_multiset() =~= shorter.to_multiset().insert(inputs.last()));
        assert(inputs.to_multiset() =~= fewer.to_multiset().insert(inputs.last()));
        assert(inputs.push(input).to_multiset() =~= inputs.to_multiset().insert(input));
        assert(fewer.push(input).to_multiset() =~= fewer.to_multiset().insert(input));
        assert(whole.to_multiset() =~= inputs.push(input).to_multiset());
    } else {
        let whole = inputs.push(input);
        assert forall|i: int, j: int| 0 <= i < j < whole.len() implies (
        #[trigger] whole[i]).id.index <= (#[trigger] whole[j]).id.index by {
            if j < inputs.len() {
                assert(inputs[i].id.index <= inputs[j].id.index);
            } else if i < inputs.len() - 1 {
                assert(inputs[i].id.index <= inputs[inputs.len() - 1].id.index);
            }
        }
    }
}

spec fn identity(n: u32) -> u32 {
    n
}

/// Some selected channel of the core is decoded with defmt.
pub open spec fn wants_defmt(specs: Seq<ChannelSpec>, core: u32) -> bool {
    exists|i: int|
        0 <= i < specs.len() && (#[trigger] specs[i]).mode is Defmt && specs[i].reaches(core)
}

fn needs_defmt(specs: &[ChannelSpec], core: u32) -> (needed: bool)
    ensures
        needed == wants_defmt(specs@, core),
{
    let mut i: usize = 0;
    while i < specs.len()
        invariant
            i <= specs@.len(),
            forall|j: int|
                0 <= j < i ==> !((#[trigger] specs@[j]).mode is Defmt && specs@[j].reaches(core)),
        decreases specs@.len() - i,
    {
        if specs[i].mode == ChannelEncoding::Defmt && specs[i].applies_to(core) {
            return true;
        }
        i += 1;
    }
    false
}

/// An ELF file as it was read: its core, its path, and its bytes or why they
/// could not be read.
pub struct ElfFile {
    pub core: u32,
    pub path: String,
    pub bytes: Result<Vec<u8>, String>,
}

/// `result` is what one ELF file amounts to.
pub open spec fn elf_loaded(
    file: ElfFile,
    specs: Seq<ChannelSpec>,
    result: Result<(u32, ElfContents), ElfError>,
) -> bool {
    match file.bytes {
        Err(text) => result matches Err(error) && error.failure@ == "failed to read ELF '"@
            + file.path@ + "'"@ && (error.cause matches Some(cause) && cause@ == text@),
        Ok(bytes) => match (defmt::control_block_symbol(bytes@), result) {
            (Err(text), Err(error)) => error.failure@ == "failed to parse ELF '"@ + file.path@
                + "'"@ && (error.cause matches Some(cause) && cause@ == text),
            (Err(_), Ok(_)) => false,
            (Ok(address), Ok((core, contents))) => {
                &&& core == file.core
                &&& match (address, contents.region) {
                    (Some(address), Some(region)) => region@ == RegionView::Exact(address),
                    (None, None) => true,
                    _ => false,
                }
                &&& match contents.defmt {
                    Some(data) => wants_defmt(specs, file.core) && DefmtData::loaded(
                        file.path@,
                        bytes@,
                        Ok(data),
                    ),
                    None => !wants_defmt(specs, file.core),
                }
            },
            (Ok(_), Err(error)) => wants_defmt(specs, file.core) && DefmtData::loaded(
                file.path@,
                bytes@,
                Err(error),
            ),
        },
    }
}

/// The ELF file can be used.
pub open spec fn loads(file: ElfFile, specs: Seq<ChannelSpec>) -> bool {
    exists|contents: (u32, ElfContents)| elf_loaded(file, specs, Ok(contents))
}

fn load_elf(file: &ElfFile, specs: &[ChannelSpec]) -> (result: Result<(u32, ElfContents), ElfError>)
    ensures
        elf_loaded(*file, specs@, result),
{
    match &file.bytes {
        Err(text) => Err(
            ElfError {
                failure: text::join3("failed to read ELF '", file.path.as_str(), "'"),
                cause: Some(text.clone()),
            },
        ),
        Ok(bytes) => match ElfContents::load(
            file.path.as_str(),
            bytes.as_slice(),
            needs_defmt(specs, file.core),
        ) {
            Ok(contents) => Ok((file.core, contents)),
            Err(error) => Err(error),
        },
    }
}

/// Takes every ELF file apart, in order. A defmt table is read only for a core
/// that has a defmt channel: the ELF file of a core without one need not have a
/// table. The first file that cannot be used decides the error.
pub fn load_all_elfs(files: &[ElfFile], up_specs: &[ChannelSpec]) -> (result: Result<
    Vec<(u32, ElfContents)>,
    ElfError,
>)
    ensures
        match result {
            Ok(loaded) => loaded@.len() == files@.len() && forall|i: int|
                0 <= i < files@.len() ==> elf_loaded(
                    files@[i],
                    up_specs@,
                    Ok(#[trigger] loaded@[i]),
                ),
            Err(error) => exists|i: int|
                0 <= i < files@.len() && #[trigger] elf_loaded(files@[i], up_specs@, Err(error))
                    && forall|j: int| 0 <= j < i ==> #[trigger] loads(files@[j], up_specs@),
        },
{
    let mut loaded: Vec<(u32, ElfContents)> = Vec::new();
    let mut i: usize = 0;
    while i < files.len()
        invariant
            i <= files@.len(),
            loaded@.len() == i,
            forall|j: int|
                0 <= j < i ==> elf_loaded(files@[j], up_specs@, Ok(#[trigger] loaded@[j])),
        decreases files@.len() - i,
    {
        match load_elf(&files[i], up_specs) {
            Ok(contents) => loaded.push(contents),
            Err(error) => {
                proof {
                    assert forall|j: int| 0 <= j < i implies #[trigger] loads(
                        files@[j],
                        up_specs@,
                    ) by {
                        assert(elf_loaded(files@[j], up_specs@, Ok(loaded@[j])));
                    }
                    assert(elf_loaded(files@[i as int], up_specs@, Err(error)));
                }
                return Err(error);
            },
        }
        i += 1;
    }
    Ok(loaded)
}

/// One channel of a control block.
#[derive(Debug)]
pub struct ChannelInfo {
    pub number: usize,
    pub name: Option<String>,
    pub buffer_size: usize,
}

/// The line on one channel.
pub open spec fn channel_line(channel: ChannelInfo) -> Seq<char> {
    "  "@ + text::decimal(channel.number as nat) + ": "@ + (match channel.name {
        Some(name) => name@,
        None => "(no name)"@,
    }) + " (buffer size "@ + text::decimal(channel.buffer_size as nat) + ")\n"@
}

/// One line for each channel.
pub open spec fn channel_lines(channels: Seq<ChannelInfo>) -> Seq<char>
    decreases channels.len(),
{
    if channels.len() == 0 {
        seq![]
    } else {
        channel_lines(channels.drop_last()) + channel_line(channels.last())
    }
}

/// The list of the channels of one direction.
pub open spec fn channels_text(channels: Seq<ChannelInfo>) -> Seq<char> {
    if channels.len() == 0 {
        "  (none)\n"@
    } else {
        channel_lines(channels)
    }
}

/// Lists the channels of one direction.
pub fn print_channels(out: &mut String, channels: &[ChannelInfo])
    ensures
        final(out)@ == old(out)@ + channels_text(channels@),
{
    if channels.len() == 0 {
        text::push_str(out, "  (none)\n");
        return ;
    }
    let mut i: usize = 0;
    proof {
        assert(channels@.take(0) =~= Seq::<ChannelInfo>::empty());
        assert(out@ =~= old(out)@ + channel_lines(channels@.take(0)));
    }
    while i < channels.len()
        invariant
            i <= channels@.len(),
            out@ == old(out)@ + channel_lines(channels@.take(i as int)),
        decreases channels@.len() - i,
    {
        let channel = &channels[i];
        let ghost before = out@;
        text::push_str(out, "  ");
        text::push_number(out, channel.number as u64, 10);
        text::push_str(out, ": ");
        match &channel.name {
            Some(name) => text::push_str(out, name.as_str()),
            None => text::push_str(out, "(no name)"),
        }
        text::push_str(out, " (buffer size ");
        text::push_number(out, channel.buffer_size as u64, 10);
        text::push_str(out, ")\n");
        proof {
            assert(channels@.take(i as int + 1).drop_last() =~= channels@.take(i as int));
            assert(channels@.take(i as int + 1).last() == channels@[i as int]);
            assert(out@ =~= before + channel_line(channels@[i as int]));
            assert(out@ =~= old(out)@ + channel_lines(channels@.take(i as int + 1)));
        }
        i += 1;
    }
    proof {
        assert(channels@.take(channels@.len() as int) =~= channels@);
    }
}

/// Cores are named in a listing unless there is only core 0.
pub open spec fn names_cores(ids: Seq<CoreId>) -> bool {
    ids.len() > 1 || exists|i: int| 0 <= i < ids.len() && (#[trigger] ids[i]).index != 0
}

/// The listing of one core.
pub open spec fn listing_text(
    id: CoreId,
    headers: bool,
    up: Seq<ChannelInfo>,
    down: Seq<ChannelInfo>,
) -> Seq<char> {
    (if headers {
        "Core "@ + text::decimal(id.index as nat) + ":\n"@
    } else {
        seq![]
    }) + "Up channels:\n"@ + channels_text(up) + "Down channels:\n"@ + channels_text(down)
}

/// A listing of the cores' channels in the making.
#[derive(Debug)]
pub struct ChannelListing {
    pub show_headers: bool,
    pub listed: usize,
    /// Why cores could not be listed.
    pub reasons: Vec<String>,
}

impl ChannelListing {
    /// Begins a listing of these cores.
    pub fn new(ids: &[CoreId]) -> (listing: Self)
        ensures
            listing.show_headers == names_cores(ids@),
            listing.listed == 0,
            listing.reasons@.len() == 0,
    {
        let mut show_headers = ids.len() > 1;
        let mut i: usize = 0;
        while i < ids.len()
            invariant
                i <= ids@.len(),
                show_headers == (ids@.len() > 1 || exists|j: int|
                    0 <= j < i && (#[trigger] ids@[j]).index != 0),
            decreases ids@.len() - i,
        {
            let named = ids[i].index != 0;
            proof {
                if exists|j: int| 0 <= j < i && (#[trigger] ids@[j]).index != 0 {
                    let j = choose|j: int| 0 <= j < i && (#[trigger] ids@[j]).index != 0;
                    assert(ids@[j].index != 0);
                }
            }
            show_headers = show_headers || named;
            i += 1;
        }
        ChannelListing { show_headers, listed: 0, reasons: Vec::new() }
    }

    /// Lists an attached core.
    pub fn list_channels(
        &mut self,
        id: CoreId,
        up: &[ChannelInfo],
        down: &[ChannelInfo],
    ) -> (listing: String)
        requires
            old(self).listed < usize::MAX,
        ensures
            listing@ == listing_text(id, old(self).show_headers, up@, down@),
            final(self).listed == old(self).listed + 1,
            final(self).show_headers == old(self).show_headers,
            final(self).reasons@ == old(self).reasons@,
    {
        self.listed = self.listed + 1;
        let mut out = String::new();
        if self.show_headers {
            text::push_str(&mut out, "Core ");
            text::push_number(&mut out, id.index as u64, 10);
            text::push_str(&mut out, ":\n");
        }
        text::push_str(&mut out, "Up channels:\n");
        print_channels(&mut out, up);
        text::push_str(&mut out, "Down channels:\n");
        print_channels(&mut out, down);
        proof {
            assert(out@ =~= listing_text(id, old(self).show_headers, up@, down@));
        }
        out
    }

    /// Notes why a core could not be listed.
    pub fn skip(&mut self, reason: String)
        ensures
            final(self).reasons@ == old(self).reasons@.push(reason),
            final(self).listed == old(self).listed,
            final(self).show_headers == old(self).show_headers,
    {
        self.reasons.push(reason);
    }

    /// Ends a listing; at least one core must have been listed.
    pub fn finish(&self) -> (result: Result<(), String>)
        ensures
            match result {
                Ok(()) => self.listed > 0,
                Err(message) => self.listed == 0 && message@ == "no RTT targets could be listed ("@
                    + text::joined(text::string_views(self.reasons@), "; "@)
                    + "); ensure the cores are running and the ELF addresses match the firmware"@,
            },
    {
        if self.listed > 0 {
            return Ok(());
        }
        let reasons = text::join_all(self.reasons.as_slice(), "; ");
        Err(
            text::join3(
                "no RTT targets could be listed (",
                reasons.as_str(),
                "); ensure the cores are running and the ELF addresses match the firmware",
            ),
        )
    }
}

/// What a session ends with: the error that ended it comes first, and an error of
/// the cleanup never hides it.
pub fn digest_result(primary: Result<(), String>, cleanup: Result<(), String>) -> (result: Result<
    (),
    String,
>)
    ensures
        match (primary, cleanup, result) {
            (Ok(()), Ok(()), Ok(())) => true,
            (Err(primary), Ok(()), Err(error)) => error@ == primary@,
            (Ok(()), Err(cleanup), Err(error)) => error@ == cleanup@,
            (Err(primary), Err(cleanup), Err(error)) => error@ == primary@
                + "; Error during session cleanup: "@ + cleanup@,
            _ => false,
        },
{
    match (primary, cleanup) {
        (Ok(()), Ok(())) => Ok(()),
        (Err(primary), Ok(())) => Err(primary),
        (Ok(()), Err(cleanup)) => Err(cleanup),
        (Err(primary), Err(cleanup)) => Err(
            text::join3(primary.as_str(), "; Error during session cleanup: ", cleanup.as_str()),
        ),
    }
}

/// What is to be done after a key.
#[derive(Clone, Copy, Debug, PartialEq, Eq, Structural)]
pub enum Signal {
    Continue,
    Quit,
    /// Reset the target, then call `target_was_reset`.
    ResetTarget,
}

/// A running session.
#[derive(Debug)]
pub struct Session {
    pub policy: SessionPolicy,
    /// Which defmt messages are wanted.
    pub filters: Option<FilterSpec>,
    pub renderer: Renderer,
    pub routing: DownRouting,
}

/// What a `Session` shows, logs and routes.
#[verifier::ext_equal]
pub struct SessionView {
    pub screen: ScreenView,
    pub log: Option<LogView>,
    pub routing: RoutingView,
}

impl View for Session {
    type V = SessionView;

    open spec fn view(&self) -> SessionView {
        SessionView {
            screen: self.renderer.screen(),
            log: self.renderer.log(),
            routing: self.routing@,
        }
    }
}

/// An attached core has this identity.
pub open spec fn core_attached(slots: Seq<SlotView>, id: CoreId) -> bool {
    exists|i: int| 0 <= i < slots.len() && (#[trigger] slots[i]).id == id && slots[i].attached()
}

impl SessionView {
    /// Input goes to `target` now, no longer to `previous`: the old prompt leaves
    /// the screen, the user is told, and the new prompt is shown or asked for.
    pub open spec fn switched(
        self,
        previous: CoreId,
        target: CoreId,
        previous_attached: bool,
        channel: ChannelId,
        moment: Moment,
    ) -> SessionView {
        let left = if previous_attached {
            SessionView { screen: self.screen.core_prompt_erased(previous), ..self }
        } else {
            SessionView {
                screen: self.screen.core_epoch_reset(previous, moment),
                log: Renderer::log_finished(self.log, Some(previous)),
                ..self
            }
        };
        let told = SessionView {
            screen: left.screen.down_target_noticed(target, channel),
            ..left
        };
        if told.screen.state.interactive && told.screen.knows_prompt(target) {
            SessionView { screen: told.screen.prompt_shown(target, moment), ..told }
        } else {
            SessionView { routing: told.routing.queued(seq![0x0au8]), ..told }
        }
    }

    /// The routes are `routing` now; the screen follows.
    pub open spec fn routed(
        self,
        routing: RoutingView,
        switched: Option<RoutingEvent>,
        slots: Seq<SlotView>,
        channel: Option<ChannelId>,
        moment: Moment,
    ) -> SessionView {
        let selected = SessionView {
            screen: self.screen.down_selected(routing.active()),
            routing,
            ..self
        };
        match (switched, channel) {
            (Some(RoutingEvent::Switched { previous, target }), Some(channel)) => selected.switched(
                previous,
                target,
                core_attached(slots, previous),
                channel,
                moment,
            ),
            _ => selected,
        }
    }

    /// One result of decoding: a message unless the filter hides it, or a warning.
    pub open spec fn result_shown(
        self,
        source: CoreChannel,
        output: OutputView,
        data: DataView,
        filters: Option<Seq<FilterView>>,
        moment: Moment,
    ) -> SessionView {
        match output {
            OutputView::Frame { frame, index } => if defmt::frame_hidden(
                frame,
                data.module_of(index),
                filters,
            ) {
                self
            } else {
                let line = text::utf8(renderer::frame_text(frame));
                SessionView {
                    screen: self.screen.message_shown(
                        source,
                        line,
                        moment,
                        renderer::message_color(self.screen.state.color, frame.level),
                    ),
                    log: renderer::log_after_defmt(self.log, source, line),
                    ..self
                }
            },
            OutputView::Warning(warning) => {
                let count = (self.screen.state.defmt_decode_warnings + 1) as u64;
                let line = text::utf8(renderer::warning_text(count as nat, warning));
                SessionView {
                    screen: (ScreenView {
                        state: StateView { defmt_decode_warnings: count, ..self.screen.state },
                        ..self.screen
                    }).message_shown(source, line, moment, None),
                    log: renderer::log_after_defmt(self.log, source, line),
                    ..self
                }
            },
        }
    }

    /// Results of decoding, in order.
    pub open spec fn results_shown(
        self,
        source: CoreChannel,
        outputs: Seq<OutputView>,
        data: DataView,
        filters: Option<Seq<FilterView>>,
        moment: Moment,
    ) -> SessionView
        decreases outputs.len(),
    {
        if outputs.len() == 0 {
            self
        } else {
            self.results_shown(source, outputs.drop_last(), data, filters, moment).result_shown(
                source,
                outputs.last(),
                data,
                filters,
                moment,
            )
        }
    }

    /// What one read of a channel gave is logged and shown; the channel's decoder
    /// then, and whether asking it again may bring more. A read without bytes only
    /// asks a defmt decoder for what it still holds.
    pub open spec fn read_shown(
        self,
        reader: ReaderView,
        bytes: Seq<u8>,
        filters: Option<Seq<FilterView>>,
        moment: Moment,
    ) -> (SessionView, ReaderView, bool) {
        let source = reader.source;
        let logged = SessionView {
            log: match self.log {
                Some(log) => Some(log.after_raw(source, bytes)),
                None => None,
            },
            ..self
        };
        match reader.decoder {
            DecoderView::Terminal(stream) => if bytes.len() == 0 {
                (self, reader, false)
            } else {
                let after = stream.after_all(bytes);
                let styled = self.screen.state.interactive;
                let lines = stream.lines(bytes, styled);
                let partial = after.partial(styled);
                (
                    SessionView {
                        screen: self.screen.chunk_shown(source, lines, partial, moment),
                        log: renderer::log_after_terminal(
                            logged.log,
                            source,
                            lines,
                            partial.plain,
                        ),
                        ..self
                    },
                    ReaderView { decoder: DecoderView::Terminal(after), ..reader },
                    false,
                )
            },
            DecoderView::Defmt(state) => {
                let (after, outputs, more) = state.processed(bytes);
                (
                    logged.results_shown(source, outputs, state.data, filters, moment),
                    ReaderView { decoder: DecoderView::Defmt(after), ..reader },
                    more,
                )
            },
        }
    }

    /// A core was attached or lost.
    pub open spec fn core_changed(self, event: CoreEvent, moment: Moment) -> SessionView {
        match event {
            CoreEvent::Attached { id, recovered } => {
                let screen = self.screen.core_epoch_reset(id, moment);
                SessionView {
                    screen: if recovered {
                        screen.reattached_noticed(id)
                    } else {
                        screen
                    },
                    log: Renderer::log_finished(self.log, Some(id)),
                    ..self
                }
            },
            CoreEvent::AttachmentLost { id, .. } => SessionView {
                screen: self.screen.core_epoch_reset(id, moment),
                log: Renderer::log_finished(self.log, Some(id)),
                routing: self.routing.core_cleared(id),
            },
        }
    }

    /// What a command shows, with the foreground line out of the way.
    pub open spec fn command_shown(
        self,
        command: SessionCommand,
        slots: Seq<SlotView>,
        policy: &SessionPolicy,
        moment: Moment,
    ) -> SessionView {
        let screen = self.screen.erased();
        match command {
            SessionCommand::Help => SessionView {
                screen: screen.put_text(renderer::help_text()).at_line_start(),
                ..self
            },
            SessionCommand::ShowConfig => SessionView {
                screen: screen.put_text(
                    renderer::config_text(
                        target::slot_ids(slots),
                        policy,
                        self.routing.active(),
                        screen.state.timestamps,
                    ),
                ).at_line_start(),
                ..self
            },
            SessionCommand::ClearScreen => SessionView {
                screen: screen.put_text("\x1b[2J"@).put_text("\x1b[1;1H"@).at_line_start(),
                ..self
            },
            SessionCommand::ToggleTimestamps => SessionView {
                screen: screen.timestamps_toggled(),
                ..self
            },
            SessionCommand::CycleDownCore => match (
                self.routing.cycled().1,
                policy.down_channel,
            ) {
                (Some((previous, target)), Some(channel)) => (SessionView {
                    screen: screen.down_selected(Some(target)),
                    routing: self.routing.cycled().0,
                    ..self
                }).switched(
                    previous,
                    target,
                    core_attached(slots, previous),
                    channel,
                    moment,
                ),
                _ => SessionView { screen, routing: self.routing.cycled().0, ..self },
            },
            SessionCommand::Quit | SessionCommand::ResetTarget => SessionView { screen, ..self },
        }
    }

    /// Whether the foreground line comes back behind a command: not where the
    /// target is reset or another core's prompt takes its place.
    pub open spec fn brings_back(self, command: SessionCommand, policy: &SessionPolicy) -> bool {
        match command {
            SessionCommand::ResetTarget => false,
            SessionCommand::CycleDownCore => self.routing.cycled().1 is None
                || policy.down_channel is None,
            _ => true,
        }
    }

    /// A command.
    pub open spec fn commanded(
        self,
        command: SessionCommand,
        slots: Seq<SlotView>,
        policy: &SessionPolicy,
        moment: Moment,
    ) -> SessionView {
        if command is Quit {
            self
        } else {
            let shown = self.command_shown(command, slots, policy, moment);
            match self.screen.state.foreground {
                Some(saved) => if self.brings_back(command, policy) {
                    SessionView { screen: shown.screen.foreground_restored(saved, moment), ..shown }
                } else {
                    shown
                },
                None => shown,
            }
        }
    }

    /// A key event.
    pub open spec fn key_handled(
        self,
        key: KeyEvent,
        slots: Seq<SlotView>,
        policy: &SessionPolicy,
        moment: Moment,
    ) -> SessionView {
        let (routing, action) = self.routing.key_handled(key);
        let handled = SessionView { routing, ..self };
        match action {
            InputView::Send(bytes) => SessionView { routing: routing.queued(bytes), ..self },
            InputView::Command(command) => handled.commanded(command, slots, policy, moment),
            InputView::Ignore => handled,
        }
    }
}

/// What a command asks of the program.
pub open spec fn signal_of(command: SessionCommand) -> Signal {
    match command {
        SessionCommand::Quit => Signal::Quit,
        SessionCommand::ResetTarget => Signal::ResetTarget,
        _ => Signal::Continue,
    }
}

fn line_feed() -> (bytes: Vec<u8>)
    ensures
        bytes@ == seq![0x0au8],
{
    let mut bytes: Vec<u8> = Vec::new();
    bytes.push(0x0a);
    proof {
        assert(bytes@ =~= seq![0x0au8]);
    }
    bytes
}

impl Session {
    pub open spec fn wf(&self) -> bool {
        self.renderer.wf() && self.routing.wf()
    }

    /// A session over the cores `ids`. Labels appear where several sources share
    /// the output, and name the cores where there are several. Raw bytes of
    /// several sources cannot share one log file.
    pub fn new(
        ids: &[CoreId],
        policy: SessionPolicy,
        filters: Option<FilterSpec>,
        host: HostOutput,
        started: u64,
        started_wall: u64,
    ) -> (result: Result<Self, RawMergeError>)
        ensures
            ({
                let several = cli::sources(policy.up_specs@, core_numbers(ids@)).len() > 1;
                let mixed = several && (policy.log matches Some(log) && log.format is Raw
                    && log.destination is Merged);
                match result {
                    Err(_) => mixed,
                    Ok(session) => {
                        &&& !mixed
                        &&& session.wf()
                        &&& session.policy == policy
                        &&& session.filters == filters
                        &&& session@ == (SessionView {
                            screen: ScreenView {
                                out: seq![],
                                state: StateView::for_session(
                                    &policy,
                                    several,
                                    ids@.len() > 1,
                                    host,
                                    started,
                                    started_wall,
                                ),
                            },
                            log: match policy.log {
                                Some(log) => Some(
                                    LogView::initial(
                                        log.destination is PerChannel,
                                        log.format,
                                        several,
                                        ids@.len() > 1,
                                    ),
                                ),
                                None => None,
                            },
                            routing: RoutingView { input: None, warned: seq![] },
                        })
                    },
                }
            }),
    {
        let mut indices: Vec<u32> = Vec::new();
        let mut i: usize = 0;
        while i < ids.len()
            invariant
                i <= ids@.len(),
                indices@ == core_numbers(ids@).take(i as int),
            decreases ids@.len() - i,
        {
            indices.push(ids[i].index);
            i += 1;
            proof {
                assert(indices@ =~= core_numbers(ids@).take(i as int));
            }
        }
        proof {
            assert(indices@ =~= core_numbers(ids@));
        }
        let include_channel = expand_sources(
            policy.up_specs.as_slice(),
            indices.as_slice(),
        ).len() > 1;
        let show_cores = ids.len() > 1;
        let logger = match &policy.log {
            Some(log) => match Logger::new(
                Some(&log.destination),
                log.format,
                include_channel,
                show_cores,
            ) {
                Ok(logger) => logger,
                Err(error) => {
                    return Err(error);
                },
            },
            None => None,
        };
        let output: Vec<u8> = Vec::new();
        proof {
            assert(output@ =~= Seq::<u8>::empty());
        }
        let renderer = Renderer::for_session(
            output,
            logger,
            &policy,
            include_channel,
            show_cores,
            host,
            started,
            started_wall,
        );
        Ok(Session { policy, filters, renderer, routing: DownRouting::new() })
    }

    /// Brings keyboard routing and the screen up to date with the cores.
    /// `keyboard` says whether there is one.
    pub fn refresh_down_routes(
        &mut self,
        slots: &CoreSlots<'_>,
        keyboard: bool,
        moment: Moment,
    ) -> (result: Result<Reconciliation, DownChannelAbsent>)
        requires
            old(self).wf(),
        ensures
            final(self).wf(),
            final(self).policy == old(self).policy,
            final(self).filters == old(self).filters,
            exists|routing: RoutingView| #[trigger]
                input::reconciled(
                    old(self)@.routing,
                    routing,
                    result,
                    target::cores_with_down(slots@),
                    target::cores_without_down(slots@),
                    target::every_attached(slots@),
                    old(self).policy.down_channel,
                    old(self).policy.down_explicit,
                    keyboard,
                ) && (match result {
                    Ok(changes) => final(self)@ == old(self)@.routed(
                        routing,
                        changes.switched,
                        slots@,
                        old(self).policy.down_channel,
                        moment,
                    ),
                    Err(_) => final(self)@ == old(self)@,
                }),
    {
        let routable = slots.routable_down();
        let missing = slots.missing_down();
        let all_attached = slots.all_attached();
        let result = self.routing.reconcile(
            routable.as_slice(),
            missing.as_slice(),
            all_attached,
            self.policy.down_channel,
            self.policy.down_explicit,
            keyboard,
        );
        let ghost routing = self.routing@;
        proof {
            assert(input::reconciled(
                old(self)@.routing,
                routing,
                result,
                target::cores_with_down(slots@),
                target::cores_without_down(slots@),
                target::every_attached(slots@),
                old(self).policy.down_channel,
                old(self).policy.down_explicit,
                keyboard,
            ));
        }
        if let Ok(changes) = &result {
            let active = self.routing.target();
            self.renderer.select_down_core(active);
            if let Some(RoutingEvent::Switched { previous, target }) = changes.switched {
                let attached = slots.is_attached(previous);
                self.switch_down_target(previous, target, attached, moment);
            }
        }
        result
    }

    /// Makes the screen follow a switch of the keyboard to another core.
    fn switch_down_target(
        &mut self,
        previous: CoreId,
        target: CoreId,
        previous_attached: bool,
        moment: Moment,
    )
        requires
            old(self).wf(),
        ensures
            final(self).wf(),
            final(self).policy == old(self).policy,
            final(self).filters == old(self).filters,
            final(self)@ == (match old(self).policy.down_channel {
                Some(channel) => old(self)@.switched(
                    previous,
                    target,
                    previous_attached,
                    channel,
                    moment,
                ),
                None => old(self)@,
            }),
    {
        let channel = match self.policy.down_channel {
            Some(channel) => channel,
            None => {
                return ;
            },
        };
        if previous_attached {
            self.renderer.erase_core_prompt(previous);
        } else {
            self.renderer.reset_core_epoch(previous, moment);
        }
        self.renderer.notice_down_target(target, channel);
        if self.renderer.is_interactive() {
            if self.renderer.show_cached_prompt(target, moment) {
                return ;
            }
        }
        let newline = line_feed();
        let _ = self.routing.queue(newline.as_slice());
    }

    /// Greets the user.
    pub fn show_banner(&mut self, version: &str)
        requires
            old(self).wf(),
        ensures
            final(self).wf(),
            final(self).policy == old(self).policy,
            final(self).filters == old(self).filters,
            final(self)@ == (SessionView {
                screen: if old(self)@.screen.state.interactive {
                    old(self)@.screen.put_text(renderer::banner_text(version@))
                } else {
                    old(self)@.screen
                },
                ..old(self)@
            }),
    {
        self.renderer.show_banner(version);
    }

    /// How long to wait for a key, in milliseconds: not at all while data comes.
    pub fn wait_for_key(&self, had_data: bool) -> (timeout: u64)
        ensures
            timeout == (if had_data {
                0
            } else {
                self.policy.poll_interval
            }),
    {
        if had_data {
            0
        } else {
            self.policy.poll_interval
        }
    }

    /// Ends a poll of the cores that brought so much: what came is flushed to the
    /// log at once. Says how long to wait for a key.
    pub fn finish_poll(&mut self, bytes: usize, messages: usize) -> (timeout: u64)
        requires
            old(self).wf(),
        ensures
            final(self).wf(),
            final(self).policy == old(self).policy,
            final(self).filters == old(self).filters,
            final(self)@ == (if bytes > 0 || messages > 0 {
                SessionView {
                    log: match old(self)@.log {
                        Some(log) => Some(log.with_actions(seq![logger::ActionView::Flush])),
                        None => None,
                    },
                    ..old(self)@
                }
            } else {
                old(self)@
            }),
            timeout == (if bytes > 0 || messages > 0 {
                0
            } else {
                old(self).policy.poll_interval
            }),
    {
        let had_data = bytes > 0 || messages > 0;
        if had_data {
            self.renderer.flush_data();
        }
        self.wait_for_key(had_data)
    }

    /// Logs and shows results of decoding.
    fn show_results(
        &mut self,
        source: CoreChannel,
        outputs: &Vec<DecodeOutput>,
        data: &DefmtData,
        moment: Moment,
    )
        requires
            old(self).wf(),
            renderer::log_takes(old(self)@.log, source, false),
            old(self)@.screen.state.defmt_decode_warnings + outputs@.len() <= u64::MAX,
        ensures
            final(self).wf(),
            final(self).policy == old(self).policy,
            final(self).filters == old(self).filters,
            final(self)@ == old(self)@.results_shown(
                source,
                defmt::output_views(outputs@),
                data@,
                defmt::filters_view(old(self).filters),
                moment,
            ),
    {
        let ghost before = self@;
        let ghost filters = defmt::filters_view(self.filters);
        let ghost views = defmt::output_views(outputs@);
        let mut i: usize = 0;
        proof {
            assert(views.take(0) =~= Seq::<OutputView>::empty());
        }
        while i < outputs.len()
            invariant
                i <= outputs@.len(),
                self.wf(),
                self.policy == old(self).policy,
                self.filters == old(self).filters,
                filters == defmt::filters_view(old(self).filters),
                views == defmt::output_views(outputs@),
                self@ == before.results_shown(
                    source,
                    views.take(i as int),
                    data@,
                    filters,
                    moment,
                ),
                renderer::log_takes(self@.log, source, false),
                self@.screen.state.defmt_decode_warnings <= before.screen.state.defmt_decode_warnings
                    + i,
                before.screen.state.defmt_decode_warnings + outputs@.len() <= u64::MAX,
            decreases outputs@.len() - i,
        {
            let ghost current = self@;
            proof {
                assert(views.take(i as int + 1).drop_last() =~= views.take(i as int));
                assert(views.take(i as int + 1).last() == outputs@[i as int]@);
            }
            match &outputs[i] {
                DecodeOutput::Frame { frame, index } => {
                    proof {
                        renderer::messages_keep_the_rest(
                            current.screen,
                            source,
                            text::utf8(renderer::frame_text(frame@)),
                            moment,
                            renderer::message_color(current.screen.state.color, frame.level),
                        );
                    }
                    if !is_hidden(frame, data.module_of(*index), &self.filters) {
                        self.renderer.render_defmt_frame(source, frame, moment);
                    }
                },
                DecodeOutput::Warning(warning) => {
                    proof {
                        let count = (current.screen.state.defmt_decode_warnings + 1) as u64;
                        renderer::messages_keep_the_rest(
                            ScreenView {
                                state: StateView {
                                    defmt_decode_warnings: count,
                                    ..current.screen.state
                                },
                                ..current.screen
                            },
                            source,
                            text::utf8(renderer::warning_text(count as nat, warning@)),
                            moment,
                            None,
                        );
                    }
                    self.renderer.render_defmt_warning(source, warning.as_str(), moment);
                },
            }
            i += 1;
        }
        proof {
            assert(views.take(views.len() as int) =~= views);
        }
    }

    /// Logs and shows what one read of a channel gave. Where the result is true,
    /// call again with no bytes: the decoder may hold more.
    pub fn handle_read(&mut self, reader: &mut UpChannelReader<'_>, bytes: &[u8], moment: Moment) -> (
        more: bool)
        requires
            old(self).wf(),
            old(reader).wf(),
            renderer::log_takes(
                old(self)@.log,
                old(reader).source,
                old(reader)@.decoder is Terminal,
            ),
            old(self)@.screen.state.defmt_decode_warnings + defmt::MAX_DECODED_FRAMES + 2
                <= u64::MAX,
        ensures
            final(self).wf(),
            final(reader).wf(),
            final(self).policy == old(self).policy,
            final(self).filters == old(self).filters,
            (final(self)@, final(reader)@, more) == old(self)@.read_shown(
                old(reader)@,
                bytes@,
                defmt::filters_view(old(self).filters),
                moment,
            ),
    {
        let source = reader.source;
        let data = reader.decoder.data();
        let ghost decoder = reader.decoder@;
        proof {
            if let DecoderView::Defmt(state) = decoder {
                target::results_are_bounded(state, bytes@);
            }
        }
        if bytes.len() == 0 {
            let (outputs, more) = reader.decoder.process_defmt(bytes);
            proof {
                assert(outputs@.len() == 0 ==> defmt::output_views(outputs@) =~= seq![]);
            }
            if let Some(data) = data {
                self.show_results(source, &outputs, data, moment);
            }
            return more;
        }
        self.renderer.log_raw_bytes(source, bytes);
        match reader.decoder.process(bytes, self.renderer.is_interactive()) {
            ChannelOutput::Terminal(chunk) => {
                self.renderer.render_terminal_event(source, chunk, moment);
                false
            },
            ChannelOutput::Defmt { outputs, more } => {
                if let Some(data) = data {
                    self.show_results(source, &outputs, data, moment);
                }
                more
            },
        }
    }

    /// Shows that a core was attached or lost. What was typed for a lost core is
    /// discarded.
    pub fn handle_core_event(&mut self, event: CoreEvent, moment: Moment) -> (dropped: usize)
        requires
            old(self).wf(),
        ensures
            final(self).wf(),
            final(self).policy == old(self).policy,
            final(self).filters == old(self).filters,
            final(self)@ == old(self)@.core_changed(event, moment),
            dropped == (match (event, old(self)@.routing.input) {
                (CoreEvent::AttachmentLost { id, .. }, Some((_, routes))) => routes.pending(
                    id,
                ).len(),
                _ => 0,
            }),
    {
        match event {
            CoreEvent::Attached { id, recovered } => {
                self.renderer.reset_core_epoch(id, moment);
                if recovered {
                    self.renderer.notice_reattached(id);
                }
                0
            },
            CoreEvent::AttachmentLost { id, .. } => {
                self.renderer.reset_core_epoch(id, moment);
                self.routing.clear_core(id)
            },
        }
    }

    /// Takes a key event: typed bytes are queued, commands are carried out.
    pub fn handle_key(&mut self, key_event: KeyEvent, slots: &CoreSlots<'_>, moment: Moment) -> (
        signal: Signal)
        requires
            old(self).wf(),
        ensures
            final(self).wf(),
            final(self).policy == old(self).policy,
            final(self).filters == old(self).filters,
            final(self)@ == old(self)@.key_handled(
                key_event,
                slots@,
                &old(self).policy,
                moment,
            ),
            signal == (match old(self)@.routing.key_handled(key_event).1 {
                InputView::Command(command) => signal_of(command),
                _ => Signal::Continue,
            }),
    {
        match self.routing.handle_key(key_event) {
            InputAction::Send(bytes) => {
                let _ = self.routing.queue(bytes.as_slice());
                Signal::Continue
            },
            InputAction::Command(command) => self.dispatch_command(command, slots, moment),
            InputAction::Ignore => Signal::Continue,
        }
    }

    /// Carries out a command.
    pub fn dispatch_command(
        &mut self,
        command: SessionCommand,
        slots: &CoreSlots<'_>,
        moment: Moment,
    ) -> (signal: Signal)
        requires
            old(self).wf(),
        ensures
            final(self).wf(),
            final(self).policy == old(self).policy,
            final(self).filters == old(self).filters,
            final(self)@ == old(self)@.commanded(command, slots@, &old(self).policy, moment),
            signal == signal_of(command),
    {
        if command == SessionCommand::Quit {
            return Signal::Quit;
        }
        let suspended = self.renderer.suspend_foreground();
        let mut restore = true;
        match command {
            SessionCommand::Quit => {},
            SessionCommand::Help => self.renderer.show_help(),
            SessionCommand::ShowConfig => {
                let ids = slots.ids();
                let target = self.routing.target();
                self.renderer.show_config(ids.as_slice(), &self.policy, target);
            },
            SessionCommand::ClearScreen => self.renderer.clear_screen(),
            SessionCommand::ToggleTimestamps => self.renderer.toggle_timestamps(),
            SessionCommand::ResetTarget => {
                restore = false;
            },
            SessionCommand::CycleDownCore => {
                if let Some((previous, target)) = self.routing.cycle() {
                    if self.policy.down_channel.is_some() {
                        restore = false;
                        self.renderer.select_down_core(Some(target));
                        let attached = slots.is_attached(previous);
                        self.switch_down_target(previous, target, attached, moment);
                    }
                }
            },
        }
        if restore {
            if let Some(saved) = suspended {
                proof {
                    assert(self@.screen.state.interactive);
                }
                self.renderer.restore_foreground(saved, moment);
            }
        }
        if command == SessionCommand::ResetTarget {
            Signal::ResetTarget
        } else {
            Signal::Continue
        }
    }

    /// The target was reset on the user's command: everything known of its output
    /// is forgotten, and what was typed is discarded.
    pub fn target_was_reset(&mut self, slots: &CoreSlots<'_>, keyboard: bool, moment: Moment) -> (
        result: Result<Reconciliation, DownChannelAbsent>)
        requires
            old(self).wf(),
        ensures
            final(self).wf(),
            final(self).policy == old(self).policy,
            final(self).filters == old(self).filters,
            ({
                let reset = SessionView {
                    screen: old(self)@.screen.target_epoch_reset(moment),
                    log: Renderer::log_finished(old(self)@.log, None),
                    routing: old(self)@.routing.all_cleared(),
                };
                exists|routing: RoutingView| #[trigger]
                    input::reconciled(
                        reset.routing,
                        routing,
                        result,
                        target::cores_with_down(slots@),
                        target::cores_without_down(slots@),
                        target::every_attached(slots@),
                        old(self).policy.down_channel,
                        old(self).policy.down_explicit,
                        keyboard,
                    ) && (match result {
                        Ok(changes) => {
                            let routed = reset.routed(
                                routing,
                                changes.switched,
                                slots@,
                                old(self).policy.down_channel,
                                moment,
                            );
                            final(self)@ == (SessionView {
                                screen: routed.screen.put_text(
                                    "\r\nTarget reset.\r\n"@,
                                ).at_line_start(),
                                ..routed
                            })
                        },
                        Err(_) => final(self)@ == reset,
                    })
            }),
    {
        self.renderer.reset_target_epoch(moment);
        self.routing.clear_all();
        let ghost reset = self@;
        let result = self.refresh_down_routes(slots, keyboard, moment);
        if result.is_ok() {
            self.renderer.notice_target_reset();
        }
        result
    }
}

/// A message that the filter hides is neither shown nor logged.
pub proof fn hidden_messages_leave_no_trace(
    session: SessionView,
    source: CoreChannel,
    frame: defmt::FrameView,
    index: u64,
    data: DataView,
    filters: Option<Seq<FilterView>>,
    moment: Moment,
)
    requires
        defmt::frame_hidden(frame, data.module_of(index), filters),
    ensures
        session.result_shown(source, OutputView::Frame { frame, index }, data, filters, moment)
            == session,
{
}

proof fn results_leave_raw_logs_alone(
    session: SessionView,
    source: CoreChannel,
    outputs: Seq<OutputView>,
    data: DataView,
    filters: Option<Seq<FilterView>>,
    moment: Moment,
)
    requires
        session.log matches Some(log) && log.format is Raw,
    ensures
        session.results_shown(source, outputs, data, filters, moment).log == session.log,
    decreases outputs.len(),
{
    if outputs.len() > 0 {
        results_leave_raw_logs_alone(session, source, outputs.drop_last(), data, filters, moment);
    }
}

/// A raw log gets the bytes of every read as they are, however they are decoded
/// and whatever a filter hides.
pub proof fn raw_logs_get_every_read(
    session: SessionView,
    reader: ReaderView,
    bytes: Seq<u8>,
    filters: Option<Seq<FilterView>>,
    moment: Moment,
)
    requires
        session.log matches Some(log) && log.format is Raw,
    ensures
        session.read_shown(reader, bytes, filters, moment).0.log == Some(
            session.log->0.after_raw(reader.source, bytes),
        ),
{
    let logged = SessionView {
        log: Some(session.log->0.after_raw(reader.source, bytes)),
        ..session
    };
    if let DecoderView::Defmt(state) = reader.decoder {
        results_leave_raw_logs_alone(
            logged,
            reader.source,
            state.processed(bytes).1,
            state.data,
            filters,
            moment,
        );
    }
}

/// The indices of a list of cores.
pub open spec fn core_numbers(ids: Seq<CoreId>) -> Seq<u32> {
    Seq::new(ids.len(), |i: int| ids[i].index)
}

/// A session without ELF files has core 0 and nothing is known of it; each file
/// brings what it holds for its core.
pub proof fn files_bring_their_cores(elves: Seq<(u32, ElfContents)>, elf: (u32, ElfContents))
    ensures
        session_inputs(seq![]).len() == 1,
        session_inputs(seq![])[0].id.index == 0,
        session_inputs(seq![])[0].region is None,
        session_inputs(seq![])[0].defmt is None,
        elves.len() > 0 ==> session_inputs(elves) == sorted_inputs(elves),
        input_from(elf).id.index == elf.0,
        input_from(elf).region is Some <==> elf.1.region is Some,
        elf.1.region is Some ==> input_from(elf).region == Some(elf.1.region->0@),
        input_from(elf).defmt is Some <==> elf.1.defmt is Some,
        elf.1.defmt is Some ==> input_from(elf).defmt == Some(elf.1.defmt->0@),
{
}

/// A table is read exactly for a core with a channel to decode, and a control
/// block is looked for where the file has its symbol.
pub proof fn tables_are_read_where_needed(
    file: ElfFile,
    specs: Seq<ChannelSpec>,
    contents: (u32, ElfContents),
)
    requires
        elf_loaded(file, specs, Ok(contents)),
    ensures
        contents.0 == file.core,
        contents.1.defmt is Some <==> exists|i: int|
            0 <= i < specs.len() && (#[trigger] specs[i]).mode == ChannelEncoding::Defmt && (
            specs[i].core is None || specs[i].core == Some(file.core)),
        file.bytes is Ok,
        match defmt::control_block_symbol(file.bytes->Ok_0@) {
            Ok(Some(address)) => contents.1.region is Some && contents.1.region->0@
                == RegionView::Exact(address),
            Ok(None) => contents.1.region is None,
            Err(_) => false,
        },
{
    if wants_defmt(specs, file.core) {
        let i = choose|i: int|
            0 <= i < specs.len() && (#[trigger] specs[i]).mode is Defmt && specs[i].reaches(
                file.core,
            );
        assert(specs[i].mode == ChannelEncoding::Defmt);
    }
    if exists|i: int|
        0 <= i < specs.len() && (#[trigger] specs[i]).mode == ChannelEncoding::Defmt && (
        specs[i].core is None || specs[i].core == Some(file.core)) {
        let i = choose|i: int|
            0 <= i < specs.len() && (#[trigger] specs[i]).mode == ChannelEncoding::Defmt && (
            specs[i].core is None || specs[i].core == Some(file.core));
        assert(specs[i].mode is Defmt && specs[i].reaches(file.core));
    }
}

/// A result that the filters let through.
pub open spec fn gets_through(data: DataView, filters: Option<Seq<FilterView>>) -> spec_fn(
    OutputView,
) -> bool {
    |output: OutputView|
        match output {
            OutputView::Frame { frame, index } => !defmt::frame_hidden(
                frame,
                data.module_of(index),
                filters,
            ),
            OutputView::Warning(_) => true,
        }
}

/// A result that is a warning.
pub open spec fn warns() -> spec_fn(OutputView) -> bool {
    |output: OutputView| output is Warning
}

/// Every result that the filters let through is shown and logged, in order; the
/// others might as well not have come. Results come one after the other, however
/// they are grouped, and every warning is counted.
pub proof fn every_result_is_shown(
    session: SessionView,
    source: CoreChannel,
    outputs: Seq<OutputView>,
    more: Seq<OutputView>,
    data: DataView,
    filters: Option<Seq<FilterView>>,
    moment: Moment,
)
    ensures
        session.results_shown(source, outputs, data, filters, moment) == session.results_shown(
            source,
            outputs.filter(gets_through(data, filters)),
            data,
            filters,
            moment,
        ),
        session.results_shown(source, outputs + more, data, filters, moment)
            == session.results_shown(source, outputs, data, filters, moment).results_shown(
            source,
            more,
            data,
            filters,
            moment,
        ),
        session.screen.state.defmt_decode_warnings + outputs.filter(warns()).len() <= u64::MAX
            ==> session.results_shown(
            source,
            outputs,
            data,
            filters,
            moment,
        ).screen.state.defmt_decode_warnings == session.screen.state.defmt_decode_warnings
            + outputs.filter(warns()).len(),
        session.results_shown(source, outputs, data, filters, moment).routing == session.routing,
{
    results_are_filtered(session, source, outputs, data, filters, moment);
    results_go_on(session, source, outputs, more, data, filters, moment);
    warnings_are_counted(session, source, outputs, data, filters, moment);
}

proof fn results_are_filtered(
    session: SessionView,
    source: CoreChannel,
    outputs: Seq<OutputView>,
    data: DataView,
    filters: Option<Seq<FilterView>>,
    moment: Moment,
)
    ensures
        session.results_shown(source, outputs, data, filters, moment) == session.results_shown(
            source,
            outputs.filter(gets_through(data, filters)),
            data,
            filters,
            moment,
        ),
        session.results_shown(source, outputs, data, filters, moment).routing == session.routing,
    decreases outputs.len(),
{
    reveal(Seq::filter);
    let through = gets_through(data, filters);
    if outputs.len() > 0 {
        let fewer = outputs.drop_last();
        results_are_filtered(session, source, fewer, data, filters, moment);
        if through(outputs.last()) {
            assert(outputs.filter(through) =~= fewer.filter(through).push(outputs.last()));
            assert(outputs.filter(through).drop_last() =~= fewer.filter(through));
        } else {
            assert(outputs.filter(through) =~= fewer.filter(through));
        }
    }
}

proof fn results_go_on(
    session: SessionView,
    source: CoreChannel,
    outputs: Seq<OutputView>,
    more: Seq<OutputView>,
    data: DataView,
    filters: Option<Seq<FilterView>>,
    moment: Moment,
)
    ensures
        session.results_shown(source, outputs + more, data, filters, moment)
            == session.results_shown(source, outputs, data, filters, moment).results_shown(
            source,
            more,
            data,
            filters,
            moment,
        ),
    decreases more.len(),
{
    if more.len() == 0 {
        assert(outputs + more =~= outputs);
    } else {
        results_go_on(session, source, outputs, more.drop_last(), data, filters, moment);
        assert((outputs + more).drop_last() =~= outputs + more.drop_last());
        assert((outputs + more).last() == more.last());
    }
}

#[verifier::rlimit(40)]
proof fn warnings_are_counted(
    session: SessionView,
    source: CoreChannel,
    outputs: Seq<OutputView>,
    data: DataView,
    filters: Option<Seq<FilterView>>,
    moment: Moment,
)
    ensures
        session.screen.state.defmt_decode_warnings + outputs.filter(warns()).len() <= u64::MAX
            ==> session.results_shown(
            source,
            outputs,
            data,
            filters,
            moment,
        ).screen.state.defmt_decode_warnings == session.screen.state.defmt_decode_warnings
            + outputs.filter(warns()).len(),
    decreases outputs.len(),
{
    reveal(Seq::filter);
    if outputs.len() > 0 {
        let fewer = outputs.drop_last();
        warnings_are_counted(session, source, fewer, data, filters, moment);
        let before = session.results_shown(source, fewer, data, filters, moment);
        match outputs.last() {
            OutputView::Frame { frame, index } => {
                assert(outputs.filter(warns()) =~= fewer.filter(warns()));
                renderer::messages_keep_the_rest(
                    before.screen,
                    source,
                    text::utf8(renderer::frame_text(frame)),
                    moment,
                    renderer::message_color(before.screen.state.color, frame.level),
                );
            },
            OutputView::Warning(warning) => {
                assert(outputs.filter(warns()) =~= fewer.filter(warns()).push(outputs.last()));
                let count = (before.screen.state.defmt_decode_warnings + 1) as u64;
                renderer::messages_keep_the_rest(
                    ScreenView {
                        state: StateView { defmt_decode_warnings: count, ..before.screen.state },
                        ..before.screen
                    },
                    source,
                    text::utf8(renderer::warning_text(count as nat, warning)),
                    moment,
                    None,
                );
            },
        }
    }
}

/// A message that the filters let through is a line of its source on the screen
/// and in the log, in the colour of its level; a warning carries the next number.
#[verifier::rlimit(40)]
pub proof fn results_become_lines(
    session: SessionView,
    source: CoreChannel,
    frame: defmt::FrameView,
    index: u64,
    warning: Seq<char>,
    data: DataView,
    filters: Option<Seq<FilterView>>,
    moment: Moment,
)
    requires
        session.screen.state.defmt_decode_warnings < u64::MAX,
        !defmt::frame_hidden(frame, data.module_of(index), filters),
    ensures
        ({
            let shown = session.results_shown(
                source,
                seq![OutputView::Frame { frame, index }],
                data,
                filters,
                moment,
            );
            let line = text::utf8(renderer::frame_text(frame));
            &&& shown.screen == session.screen.message_shown(
                source,
                line,
                moment,
                renderer::message_color(session.screen.state.color, frame.level),
            )
            &&& shown.log is Some <==> session.log is Some
            &&& session.log is Some ==> shown.log->0 == session.log->0.after_defmt(source, line)
        }),
        ({
            let shown = session.results_shown(
                source,
                seq![OutputView::Warning(warning)],
                data,
                filters,
                moment,
            );
            let count = session.screen.state.defmt_decode_warnings + 1;
            let line = text::utf8(renderer::warning_text(count as nat, warning));
            let counted = ScreenView {
                state: StateView {
                    defmt_decode_warnings: count as u64,
                    ..session.screen.state
                },
                ..session.screen
            };
            &&& shown.screen == counted.message_shown(source, line, moment, None)
            &&& shown.log is Some <==> session.log is Some
            &&& session.log is Some ==> shown.log->0 == session.log->0.after_defmt(source, line)
        }),
{
    reveal_with_fuel(SessionView::results_shown, 2);
    assert(seq![OutputView::Frame { frame, index }].drop_last() =~= Seq::<OutputView>::empty());
    assert(seq![OutputView::Warning(warning)].drop_last() =~= Seq::<OutputView>::empty());
}

/// The bytes of a terminal channel go through its decoder; what comes out reaches
/// the screen and the log alike. Without bytes nothing happens.
#[verifier::rlimit(40)]
pub proof fn terminal_reads_are_shown(
    session: SessionView,
    reader: ReaderView,
    stream: crate::terminal::StreamView,
    bytes: Seq<u8>,
    filters: Option<Seq<FilterView>>,
    moment: Moment,
)
    requires
        reader.decoder == DecoderView::Terminal(stream),
    ensures
        ({
            let (shown, after, again) = session.read_shown(reader, bytes, filters, moment);
            let styled = session.screen.state.interactive;
            let lines = stream.lines(bytes, styled);
            let partial = stream.after_all(bytes).partial(styled);
            &&& !again
            &&& after.source == reader.source
            &&& shown.routing == session.routing
            &&& bytes.len() == 0 ==> shown == session && after == reader
            &&& bytes.len() > 0 ==> {
                &&& after.decoder == DecoderView::Terminal(stream.after_all(bytes))
                &&& shown.screen == session.screen.chunk_shown(
                    reader.source,
                    lines,
                    partial,
                    moment,
                )
                &&& session.log is None ==> shown.log is None
                &&& session.log is Some && session.log->0.format == cli::LogFormat::Decoded
                    ==> shown.log == Some(
                    session.log->0.after_terminal(
                        reader.source,
                        renderer::plain_views(lines),
                        partial.plain,
                    ),
                )
            }
        }),
{
    let styled = session.screen.state.interactive;
    let lines = stream.lines(bytes, styled);
    assert(Seq::new(lines.len(), |i: int| lines[i].plain) =~= renderer::plain_views(lines));
}

/// A core that is attached or lost starts over on the screen and in the log, and
/// the other cores are left alone; only the loss of a core discards what was typed
/// for it, and only a core that came back is reported.
#[verifier::rlimit(40)]
pub proof fn cores_start_over(
    session: SessionView,
    id: CoreId,
    other: CoreId,
    lost: CoreEvent,
    moment: Moment,
)
    requires
        lost matches CoreEvent::AttachmentLost { id: core, .. } && core == id,
        other != id,
    ensures
        ({
            let fresh = session.core_changed(
                CoreEvent::Attached { id, recovered: false },
                moment,
            );
            let back = session.core_changed(CoreEvent::Attached { id, recovered: true }, moment);
            let gone = session.core_changed(lost, moment);
            &&& fresh.screen == session.screen.core_epoch_reset(id, moment)
            &&& gone.screen == fresh.screen
            &&& back.screen.state == fresh.screen.state
            &&& !session.screen.state.interactive ==> back.screen == fresh.screen
            &&& session.screen.state.interactive ==> back.screen.out == fresh.screen.out
                + text::utf8(
                "\r\nRTT control block changed; reattached to core "@ + text::decimal(
                    id.index as nat,
                ) + ".\r\n"@,
            )
            &&& fresh.routing == session.routing && back.routing == session.routing
            &&& session.log is None ==> fresh.log is None && back.log is None && gone.log is None
            &&& session.log is Some ==> fresh.log == Some(session.log->0.reset(Some(id)))
                && back.log == fresh.log && gone.log == fresh.log
            &&& session.routing.input matches Some((state, routes)) ==> {
                &&& gone.routing.input is Some
                &&& (gone.routing.input->0).1.pending(id) == Seq::<u8>::empty()
                &&& (gone.routing.input->0).1.pending(other) == routes.pending(other)
                &&& (gone.routing.input->0).1.target == routes.target
            }
        }),
{
    finishing_keeps_the_terminal(session.screen, Some(id), moment);
}

proof fn finishing_keeps_the_terminal(screen: ScreenView, core: Option<CoreId>, moment: Moment)
    ensures
        screen.epoch_finished(core, moment).state.interactive == screen.state.interactive,
{
    if !screen.state.interactive {
        writing_keeps_the_terminal(
            screen,
            crate::ordered::sorted_keys(screen.state.partials),
            core,
            moment,
        );
    }
}

proof fn writing_keeps_the_terminal(
    screen: ScreenView,
    keys: Seq<CoreChannel>,
    core: Option<CoreId>,
    moment: Moment,
)
    ensures
        screen.partials_written(keys, core, moment).state.interactive == screen.state.interactive,
    decreases keys.len(),
{
    if keys.len() > 0 {
        writing_keeps_the_terminal(screen, keys.drop_last(), core, moment);
        let earlier = screen.partials_written(keys.drop_last(), core, moment);
        drawing_keeps_the_terminal(
            earlier,
            screen.state.partials[keys.last()],
            keys.last(),
            moment,
        );
    }
}

proof fn drawing_keeps_the_terminal(
    screen: ScreenView,
    bytes: Seq<u8>,
    source: CoreChannel,
    moment: Moment,
)
    ensures
        screen.bytes_rendered(bytes, source, moment, None).state.interactive
            == screen.state.interactive,
    decreases bytes.len(),
{
    if bytes.len() > 0 {
        drawing_keeps_the_terminal(screen, bytes.drop_last(), source, moment);
    }
}

/// A command that only shows something takes the foreground line off the screen
/// for what it shows and brings it back; it touches neither the log nor the
/// keyboard. Leaving shows nothing at all.
#[verifier::rlimit(40)]
pub proof fn commands_show_and_give_back(
    session: SessionView,
    slots: Seq<SlotView>,
    policy: &SessionPolicy,
    moment: Moment,
)
    requires
        session.screen.state.foreground is Some ==> renderer::within_a_line(
            session.screen.state.foreground->0.rendered,
        ),
    ensures
        ({
            let help = session.commanded(SessionCommand::Help, slots, policy, moment);
            let config = session.commanded(SessionCommand::ShowConfig, slots, policy, moment);
            let clear = session.commanded(SessionCommand::ClearScreen, slots, policy, moment);
            let wiped = session.screen.out + renderer::wiped(session.screen.state);
            let back = match session.screen.state.foreground {
                Some(line) => renderer::redrawn(session.screen.state, line, moment),
                None => seq![],
            };
            &&& help.screen.out == wiped + text::utf8(renderer::help_text()) + back
            &&& config.screen.out == wiped + text::utf8(
                renderer::config_text(
                    target::slot_ids(slots),
                    policy,
                    session.routing.active(),
                    session.screen.state.timestamps,
                ),
            ) + back
            &&& clear.screen.out == wiped + (text::utf8("\x1b[2J"@) + text::utf8("\x1b[1;1H"@))
                + back
            &&& help.screen.state.foreground == session.screen.state.foreground
            &&& config.screen.state.foreground == session.screen.state.foreground
            &&& clear.screen.state.foreground == session.screen.state.foreground
            &&& help.log == session.log && help.routing == session.routing
            &&& config.log == session.log && config.routing == session.routing
            &&& clear.log == session.log && clear.routing == session.routing
        }),
        session.commanded(SessionCommand::Quit, slots, policy, moment) == session,
{
    let erased = session.screen.erased();
    shown_and_given_back(session.screen, text::utf8(renderer::help_text()), moment);
    shown_and_given_back(
        session.screen,
        text::utf8(
            renderer::config_text(
                target::slot_ids(slots),
                policy,
                session.routing.active(),
                session.screen.state.timestamps,
            ),
        ),
        moment,
    );
    let clearing = text::utf8("\x1b[2J"@) + text::utf8("\x1b[1;1H"@);
    shown_and_given_back(session.screen, clearing, moment);
    assert(erased.put_text("\x1b[2J"@).put_text("\x1b[1;1H"@).out =~= erased.put(clearing).out);
    assert(erased.put_text("\x1b[2J"@).put_text("\x1b[1;1H"@) == erased.put(clearing));
}

proof fn shown_and_given_back(screen: ScreenView, between: Seq<u8>, moment: Moment)
    requires
        screen.state.foreground is Some ==> renderer::within_a_line(
            screen.state.foreground->0.rendered,
        ),
    ensures
        ({
            let shown = screen.erased().put(between).at_line_start();
            let back = match screen.state.foreground {
                Some(line) => shown.foreground_restored(line, moment),
                None => shown,
            };
            &&& back.out == screen.out + renderer::wiped(screen.state) + between + (
            match screen.state.foreground {
                Some(line) => renderer::redrawn(screen.state, line, moment),
                None => seq![],
            })
            &&& back.state.foreground == screen.state.foreground
        }),
{
    let shown = screen.erased().put(between).at_line_start();
    if let Some(line) = screen.state.foreground {
        renderer::suspended_lines_come_back(screen, between, moment);
        assert(shown.state == screen.erased().put(between).state);
    } else {
        let empty = Seq::<u8>::empty();
        assert(screen.out + renderer::wiped(screen.state) + between + empty =~= screen.out
            + between);
    }
}

/// The timestamp command switches timestamps and nothing else; a reset command
/// leaves the target's lines off the screen and everything else as it was.
#[verifier::rlimit(40)]
pub proof fn commands_change_what_they_name(
    session: SessionView,
    slots: Seq<SlotView>,
    policy: &SessionPolicy,
    moment: Moment,
)
    ensures
        ({
            let toggled = session.commanded(
                SessionCommand::ToggleTimestamps,
                slots,
                policy,
                moment,
            );
            let reset = session.commanded(SessionCommand::ResetTarget, slots, policy, moment);
            &&& toggled.screen.state.timestamps == !session.screen.state.timestamps
            &&& toggled.screen.state.foreground == session.screen.state.foreground
            &&& toggled.log == session.log && toggled.routing == session.routing
            &&& reset.screen == session.screen.erased()
            &&& reset.log == session.log && reset.routing == session.routing
        }),
        signal_of(SessionCommand::Quit) == Signal::Quit,
        signal_of(SessionCommand::ResetTarget) == Signal::ResetTarget,
        forall|command: SessionCommand|
            command != SessionCommand::Quit && command != SessionCommand::ResetTarget
                ==> #[trigger] signal_of(command) == Signal::Continue,
{
    let shown = session.screen.erased().timestamps_toggled();
    if let Some(saved) = session.screen.state.foreground {
        let begun = ScreenView {
            state: StateView { line_start: true, last_channel: None, ..shown.state },
            ..shown
        };
        drawing_keeps_timestamps(begun, saved.rendered, saved.channel, moment);
    }
}

proof fn drawing_keeps_timestamps(
    screen: ScreenView,
    bytes: Seq<u8>,
    source: CoreChannel,
    moment: Moment,
)
    ensures
        screen.bytes_rendered(bytes, source, moment, None).state.timestamps
            == screen.state.timestamps,
    decreases bytes.len(),
{
    if bytes.len() > 0 {
        drawing_keeps_timestamps(screen, bytes.drop_last(), source, moment);
    }
}

/// The keyboard moves on to the next core: its prompt comes up, or a line feed asks
/// for one, and the user is told.
#[verifier::rlimit(40)]
pub proof fn the_keyboard_moves_on(
    session: SessionView,
    slots: Seq<SlotView>,
    policy: &SessionPolicy,
    previous: CoreId,
    target: CoreId,
    moment: Moment,
)
    requires
        session.routing.cycled().1 == Some((previous, target)),
        policy.down_channel is Some,
        session.screen.state.interactive,
        core_attached(slots, previous),
    ensures
        ({
            let moved = session.commanded(SessionCommand::CycleDownCore, slots, policy, moment);
            let told = text::utf8(
                "\r\nKeyboard input now targets core "@ + text::decimal(target.index as nat)
                    + " (down ch"@ + text::decimal(policy.down_channel->0.number as nat)
                    + ").\r\n"@,
            );
            let known = session.screen.state.prompts.dom().contains(target)
                && session.screen.state.prompts[target].rendered.len() > 0;
            let prompt = session.screen.state.prompts[target];
            let before = session.screen.out + renderer::wiped(session.screen.state) + told;
            &&& moved.screen.state.down_core == Some(target)
            &&& moved.log == session.log
            &&& known && renderer::within_a_line(prompt.rendered) ==> {
                &&& moved.screen.out == before + renderer::redrawn(
                    session.screen.state,
                    prompt,
                    moment,
                )
                &&& moved.screen.state.foreground == Some(prompt)
                &&& moved.routing == session.routing.cycled().0
            }
            &&& !known ==> {
                &&& moved.screen.out == before
                &&& moved.screen.state.foreground is None
                &&& moved.routing == session.routing.cycled().0.queued(seq![0x0au8])
            }
        }),
{
    let screen = session.screen;
    let channel = policy.down_channel->0;
    let erased = screen.erased();
    let chosen = erased.down_selected(Some(target));
    renderer::prompts_go_with_their_core(screen, previous, moment);
    assert(screen.epoch_finished(None, moment) == erased);
    let told = chosen.core_prompt_erased(previous).down_target_noticed(target, channel);
    assert(told.out == erased.out + text::utf8(
        "\r\nKeyboard input now targets core "@ + text::decimal(target.index as nat)
            + " (down ch"@ + text::decimal(channel.number as nat) + ").\r\n"@,
    ));
    renderer::the_foreground_follows_the_keyboard(told, target, moment);
    let prompt = screen.state.prompts[target];
    assert(renderer::wiped(told.state) =~= Seq::<u8>::empty());
    assert(told.out + renderer::wiped(told.state) =~= told.out);
    assert(renderer::redrawn(told.state, prompt, moment) == renderer::redrawn(
        screen.state,
        prompt,
        moment,
    ));
    if told.knows_prompt(target) {
        drawing_keeps_the_keyboard(told.erased(), prompt.rendered, prompt.channel, moment);
    }
}

proof fn drawing_keeps_the_keyboard(
    screen: ScreenView,
    bytes: Seq<u8>,
    source: CoreChannel,
    moment: Moment,
)
    ensures
        screen.bytes_rendered(bytes, source, moment, None).state.down_core
            == screen.state.down_core,
    decreases bytes.len(),
{
    if bytes.len() > 0 {
        drawing_keeps_the_keyboard(screen, bytes.drop_last(), source, moment);
    }
}

/// What a key types is queued and nothing of it shows; a key that means nothing
/// leaves the screen and the log alone too.
pub proof fn typed_keys_do_not_show(
    session: SessionView,
    key: KeyEvent,
    slots: Seq<SlotView>,
    policy: &SessionPolicy,
    moment: Moment,
)
    ensures
        ({
            let (routing, action) = session.routing.key_handled(key);
            let after = session.key_handled(key, slots, policy, moment);
            &&& !(action is Command) ==> after.screen == session.screen && after.log
                == session.log
            &&& action matches InputView::Send(bytes) ==> after.routing == routing.queued(bytes)
            &&& action is Ignore ==> after.routing == routing
            &&& action matches InputView::Command(command) ==> after == (SessionView {
                routing,
                ..session
            }).commanded(command, slots, policy, moment)
        }),
{
}

/// A listing has a line for every channel, in their order, and a word where there
/// are none; it names the cores unless there is only core 0.
#[verifier::rlimit(40)]
pub proof fn listings_are_complete(
    channels: Seq<ChannelInfo>,
    channel: ChannelInfo,
    ids: Seq<CoreId>,
    id: CoreId,
    down: Seq<ChannelInfo>,
)
    ensures
        channels_text(seq![]) == "  (none)\n"@,
        channels.len() > 0 ==> channels_text(channels.push(channel)) == channels_text(channels)
            + channel_line(channel),
        channels_text(seq![channel]) == channel_line(channel),
        channel.name is Some ==> channel_line(channel) == "  "@ + text::decimal(
            channel.number as nat,
        ) + ": "@ + channel.name->0@ + " (buffer size "@ + text::decimal(
            channel.buffer_size as nat,
        ) + ")\n"@,
        channel.name is None ==> channel_line(channel) == "  "@ + text::decimal(
            channel.number as nat,
        ) + ": "@ + "(no name)"@ + " (buffer size "@ + text::decimal(channel.buffer_size as nat)
            + ")\n"@,
        !names_cores(ids) <==> ids.len() == 0 || ids.len() == 1 && ids[0].index == 0,
        listing_text(id, false, channels, down) == "Up channels:\n"@ + channels_text(channels)
            + "Down channels:\n"@ + channels_text(down),
        listing_text(id, true, channels, down) == "Core "@ + text::decimal(id.index as nat)
            + ":\n"@ + listing_text(id, false, channels, down),
{
    assert(channels.push(channel).drop_last() =~= channels);
    reveal_with_fuel(channel_lines, 2);
    assert(seq![channel].drop_last() =~= Seq::<ChannelInfo>::empty());
    assert(channels_text(seq![channel]) =~= channel_line(channel));
    if ids.len() == 1 && names_cores(ids) {
        let i = choose|i: int| 0 <= i < ids.len() && (#[trigger] ids[i]).index != 0;
        assert(i == 0);
    }
    let list = channels_text(channels);
    assert(listing_text(id, false, channels, down) =~= "Up channels:\n"@ + list
        + "Down channels:\n"@ + channels_text(down));
    assert(listing_text(id, true, channels, down) =~= "Core "@ + text::decimal(id.index as nat)
        + ":\n"@ + listing_text(id, false, channels, down));
}

/// The screen follows the keyboard: without a switch to another core only the
/// foreground of a core that lost the keyboard leaves.
pub proof fn routes_decide_the_foreground(
    session: SessionView,
    routing: RoutingView,
    event: Option<RoutingEvent>,
    slots: Seq<SlotView>,
    channel: ChannelId,
    moment: Moment,
)
    ensures
        ({
            let after = session.routed(routing, event, slots, Some(channel), moment);
            let chosen = session.screen.down_selected(routing.active());
            &&& !(event matches Some(RoutingEvent::Switched { .. })) ==> after == (SessionView {
                screen: chosen,
                log: session.log,
                routing,
            })
            &&& event matches Some(RoutingEvent::Switched { previous, target }) ==> after == (
            SessionView { screen: chosen, log: session.log, routing }).switched(
                previous,
                target,
                core_attached(slots, previous),
                channel,
                moment,
            )
        }),
{
}

/// Whether a slot is that of an attached core.
pub open spec fn is_attached_as(id: CoreId) -> spec_fn(SlotView) -> bool {
    |slot: SlotView| slot.id == id && slot.state is Attached
}

/// A core is attached exactly where the slot of that core is.
pub proof fn attached_cores_have_a_slot(slots: Seq<SlotView>, id: CoreId)
    ensures
        core_attached(slots, id) <==> slots.filter(is_attached_as(id)).len() > 0,
    decreases slots.len(),
{
    reveal(Seq::filter);
    if slots.len() > 0 {
        let fewer = slots.drop_last();
        attached_cores_have_a_slot(fewer, id);
        assert(slots[slots.len() - 1] == slots.last());
        if core_attached(fewer, id) {
            let i = choose|i: int|
                0 <= i < fewer.len() && (#[trigger] fewer[i]).id == id && fewer[i].attached();
            assert(slots[i] == fewer[i]);
        }
        if core_attached(slots, id) {
            let i = choose|i: int|
                0 <= i < slots.len() && (#[trigger] slots[i]).id == id && slots[i].attached();
            if i < fewer.len() {
                assert(fewer[i] == slots[i]);
            }
        }
    }
}

} // verus!
