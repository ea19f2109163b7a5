//! RTT control block discovery.
use crate::text;
use vstd::prelude::*;

verus! {

/// A range of target addresses, from `start` up to but without `end`.
#[derive(Clone, Copy, Debug, PartialEq, Eq, Structural)]
pub struct AddressRange {
    pub start: u64,
    pub end: u64,
}

/// Where to look for a control block.
#[derive(Clone, Debug, PartialEq, Eq)]
pub enum ScanRegion {
    /// All of the target's memory that is RAM.
    Ram,
    /// These ranges.
    Ranges(Vec<AddressRange>),
    /// This address only.
    Exact(u64),
}

/// What a `ScanRegion` holds.
#[verifier::ext_equal]
pub enum RegionView {
    Ram,
    Ranges(Seq<AddressRange>),
    Exact(u64),
}

impl View for ScanRegion {
    type V = RegionView;

    open spec fn view(&self) -> RegionView {
        match *self {
            ScanRegion::Ram => RegionView::Ram,
            ScanRegion::Ranges(ranges) => RegionView::Ranges(ranges@),
            ScanRegion::Exact(address) => RegionView::Exact(address),
        }
    }
}

/// Most bytes that one read asks for.
pub const SCAN_CHUNK_SIZE: usize = 32_768;

/// A failed read is tried again with half the size down to this one.
pub const MIN_SCAN_CHUNK_SIZE: usize = 4_096;

/// The bytes a control block starts with.
pub const RTT_MAGIC: &'static str = "SEGGER RTT\0\0\0\0\0\0";

/// Bytes kept from one read for the next, one less than the magic has.
pub const RTT_MAGIC_OVERLAP: usize = 15;

/// Pause between two attempts to attach, in milliseconds.
pub const RTT_RETRY_DELAY_MS: u64 = 50;

/// Reads that one retry of a core without a control block may take.
pub const SCAN_CHUNKS_PER_TICK: usize = 1;

/// `needle` stands at position `i` of `haystack`.
pub open spec fn occurs_at(haystack: Seq<u8>, needle: Seq<u8>, i: int) -> bool {
    0 <= i && i + needle.len() <= haystack.len() && haystack.subrange(i, i + needle.len()) == needle
}

/// `i` is the first position from `from` on at which `needle` stands.
pub open spec fn is_first_from(haystack: Seq<u8>, needle: Seq<u8>, from: int, i: int) -> bool {
    from <= i && occurs_at(haystack, needle, i) && forall|j: int|
        from <= j < i ==> !#[trigger] occurs_at(haystack, needle, j)
}

/// `memchr::memmem::find`: the first position of `needle` in `haystack`.
#[verifier::external_body]
fn find_bytes(haystack: &[u8], needle: &[u8]) -> (position: Option<usize>)
    ensures
        match position {
            Some(i) => is_first_from(haystack@, needle@, 0, i as int),
            None => forall|i: int| !occurs_at(haystack@, needle@, i),
        },
{
    memchr::memmem::find(haystack, needle)
}

/// The bytes of the magic.
pub open spec fn magic() -> Seq<u8> {
    text::utf8(RTT_MAGIC@)
}

/// The magic has one byte more than the overlap.
pub proof fn magic_length()
    ensures
        magic().len() == RTT_MAGIC_OVERLAP + 1,
{
    reveal_strlit("SEGGER RTT\0\0\0\0\0\0");
    assert(vstd::utf8::is_ascii_chars(RTT_MAGIC@));
    vstd::utf8::is_ascii_chars_encode_utf8(RTT_MAGIC@);
}

/// The magic is what a control block starts with in memory: the name and zeros up
/// to sixteen bytes.
pub proof fn magic_is_the_identifier()
    ensures
        magic() == seq![
            0x53u8,
            0x45,
            0x47,
            0x47,
            0x45,
            0x52,
            0x20,
            0x52,
            0x54,
            0x54,
            0,
            0,
            0,
            0,
            0,
            0,
        ],
{
    reveal_strlit("SEGGER RTT\0\0\0\0\0\0");
    assert(vstd::utf8::is_ascii_chars(RTT_MAGIC@));
    vstd::utf8::is_ascii_chars_encode_utf8(RTT_MAGIC@);
}

/// The first position of the magic from `from` on.
pub open spec fn magic_from(data: Seq<u8>, from: int) -> Option<int> {
    if exists|i: int| is_first_from(data, magic(), from, i) {
        Some(choose|i: int| is_first_from(data, magic(), from, i))
    } else {
        None
    }
}

/// Finds the magic from `from` on.
fn find_magic(data: &[u8], from: usize) -> (position: Option<usize>)
    requires
        from <= data@.len(),
    ensures
        match position {
            Some(i) => magic_from(data@, from as int) == Some(i as int) && i < data@.len(),
            None => magic_from(data@, from as int) is None,
        },
{
    let rest = vstd::slice::slice_subrange(data, from, data.len());
    let found = find_bytes(rest, RTT_MAGIC.as_bytes());
    proof {
        magic_length();
        assert forall|i: int| from <= i implies occurs_at(data@, magic(), i) == #[trigger] occurs_at(
            rest@,
            magic(),
            i - from,
        ) by {
            if i + magic().len() <= data@.len() {
                assert(data@.subrange(i, i + magic().len()) =~= rest@.subrange(
                    i - from,
                    i - from + magic().len(),
                ));
            }
        }
        match found {
            Some(k) => {
                let i = from + k;
                assert(occurs_at(rest@, magic(), i - from));
                assert forall|j: int| from <= j < i implies !#[trigger] occurs_at(
                    data@,
                    magic(),
                    j,
                ) by {
                    assert(!occurs_at(rest@, magic(), j - from));
                }
                assert(is_first_from(data@, magic(), from as int, i));
                let chosen = choose|j: int| is_first_from(data@, magic(), from as int, j);
                assert(is_first_from(data@, magic(), from as int, chosen));
                if chosen < i {
                    assert(!occurs_at(data@, magic(), chosen));
                } else if i < chosen {
                    assert(!occurs_at(data@, magic(), i));
                }
            },
            None => {
                assert forall|i: int| !is_first_from(data@, magic(), from as int, i) by {
                    if from <= i {
                        assert(!occurs_at(rest@, magic(), i - from));
                    }
                }
            },
        }
    }
    match found {
        Some(k) => Some(from + k),
        None => None,
    }
}

/// A part of the target's memory map.
#[derive(Clone, Copy, Debug, PartialEq, Eq, Structural)]
pub struct MemoryRegion {
    pub range: AddressRange,
    pub is_ram: bool,
    /// The same memory under another address.
    pub is_alias: bool,
}

/// The RAM of a memory map, without aliases.
pub open spec fn ram_ranges(memory: Seq<MemoryRegion>) -> Seq<AddressRange>
    decreases memory.len(),
{
    if memory.len() == 0 {
        seq![]
    } else {
        let earlier = ram_ranges(memory.drop_last());
        if memory.last().is_ram && !memory.last().is_alias {
            earlier.push(memory.last().range)
        } else {
            earlier
        }
    }
}

/// The ranges that an automatic scan goes through; none for a fixed address.
pub open spec fn scan_ranges(memory: Seq<MemoryRegion>, region: RegionView) -> Seq<AddressRange> {
    match region {
        RegionView::Ram => ram_ranges(memory),
        RegionView::Ranges(ranges) => ranges,
        RegionView::Exact(_) => seq![],
    }
}

/// What an error of the probe library is about.
#[derive(Clone, Copy, Debug, PartialEq, Eq, Structural)]
pub enum RttErrorKind {
    /// There is nowhere to look for a control block.
    NoControlBlockLocation,
    ControlBlockNotFound,
    MultipleControlBlocks,
    ControlBlockCorrupted,
    IncorrectCore,
    /// Talking to the probe failed.
    Probe,
    MemoryRead,
    Other,
    /// The target's read pointer is not where it was left.
    ReadPointerChanged,
    MissingChannel,
}

/// How the probe library describes the two ways in which there is no control
/// block.
pub open spec fn error_text(kind: RttErrorKind) -> Seq<char>
    recommends
        kind is NoControlBlockLocation || kind is ControlBlockNotFound,
{
    if kind is NoControlBlockLocation {
        "There is no control block location given. This usually means RTT is not present in the\nfirmware."@
    } else {
        "RTT control block not found in target memory.\n- Make sure RTT is initialized on the target, AND that there are NO target breakpoints before RTT initialization.\n- For VSCode and probe-rs-debugger users, using `halt_after_reset:true` in your `launch.json` file will prevent RTT\ninitialization from happening on time.\n- Depending on the target, sleep modes can interfere with RTT."@
    }
}

/// The text of `probe_rs::rtt::Error::NoControlBlockLocation` or
/// `probe_rs::rtt::Error::ControlBlockNotFound`: the lines of the comment on each
/// of them.
#[verifier::external_body]
pub(crate) fn describe_error(kind: RttErrorKind) -> (text: String)
    requires
        kind is NoControlBlockLocation || kind is ControlBlockNotFound,
    ensures
        text@ == error_text(kind),
{
    match kind {
        RttErrorKind::NoControlBlockLocation => {
            probe_rs::rtt::Error::NoControlBlockLocation.to_string()
        },
        _ => probe_rs::rtt::Error::ControlBlockNotFound.to_string(),
    }
}

/// What a scan asks its caller to do next.
#[derive(Clone, Copy, Debug, PartialEq, Eq, Structural)]
pub enum ScanAction {
    /// Read so many bytes at this address and report `Data` or `Unreadable`.
    Read { address: u64, len: usize },
    /// Try to attach to a control block here; report `Rejected` if there is none.
    Attach { address: u64 },
    /// The allowance of reads is used up; go on with `Resume` later.
    Pause,
    /// All memory was searched without success.
    NotFound,
}

/// What the caller of a scan reports.
#[derive(Debug)]
pub enum ScanEvent {
    /// Go on, with at most so many reads.
    Resume { max_chunks: usize },
    /// The bytes that were asked for.
    Data(Vec<u8>),
    /// The bytes that were asked for cannot be read.
    Unreadable,
    /// There is no valid control block at the address that was proposed.
    Rejected,
}

/// What a `ScanEvent` holds.
#[verifier::ext_equal]
pub enum ScanEventView {
    Resume { max_chunks: usize },
    Data(Seq<u8>),
    Unreadable,
    Rejected,
}

impl View for ScanEvent {
    type V = ScanEventView;

    open spec fn view(&self) -> ScanEventView {
        match *self {
            ScanEvent::Resume { max_chunks } => ScanEventView::Resume { max_chunks },
            ScanEvent::Data(data) => ScanEventView::Data(data@),
            ScanEvent::Unreadable => ScanEventView::Unreadable,
            ScanEvent::Rejected => ScanEventView::Rejected,
        }
    }
}

/// What a scan waits for.
#[derive(Debug)]
enum ScanPhase {
    Idle,
    Reading { requested: usize, len: usize },
    Searching { combined: Vec<u8>, first_address: u64, search_from: usize, read_len: usize },
}

/// What a `ScanPhase` holds.
#[verifier::ext_equal]
pub enum PhaseView {
    /// Nothing.
    Idle,
    /// A read of `len` bytes, where `requested` were wanted at first.
    Reading { requested: int, len: int },
    /// An answer on a proposed address. `combined` are the bytes in hand, the
    /// first of them from `first_address`; the search goes on at `search_from`.
    Searching { combined: Seq<u8>, first_address: int, search_from: int, read_len: int },
}

/// A scan for a control block that can be interrupted: each step does a bounded
/// amount of work and the next one goes on where it stopped.
#[derive(Debug)]
pub struct IncrementalScan {
    ranges: Vec<AddressRange>,
    range: usize,
    address: u64,
    overlap: Vec<u8>,
    chunks_left: usize,
    phase: ScanPhase,
}

/// What an `IncrementalScan` holds: the ranges, the one being searched, the
/// address of the next read, the end of what was read before it, and the reads
/// still allowed.
#[verifier::ext_equal]
pub struct ScanView {
    pub ranges: Seq<AddressRange>,
    pub range: int,
    pub address: int,
    pub overlap: Seq<u8>,
    pub chunks_left: int,
    pub phase: PhaseView,
}

impl View for IncrementalScan {
    type V = ScanView;

    closed spec fn view(&self) -> ScanView {
        ScanView {
            ranges: self.ranges@,
            range: self.range as int,
            address: self.address as int,
            overlap: self.overlap@,
            chunks_left: self.chunks_left as int,
            phase: match self.phase {
                ScanPhase::Idle => PhaseView::Idle,
                ScanPhase::Reading { requested, len } => PhaseView::Reading {
                    requested: requested as int,
                    len: len as int,
                },
                ScanPhase::Searching { combined, first_address, search_from, read_len } =>
                    PhaseView::Searching {
                    combined: combined@,
                    first_address: first_address as int,
                    search_from: search_from as int,
                    read_len: read_len as int,
                },
            },
        }
    }
}

/// The end of what was searched, kept for the next chunk.
pub open spec fn overlap_of(combined: Seq<u8>) -> Seq<u8> {
    if combined.len() <= RTT_MAGIC_OVERLAP {
        combined
    } else {
        combined.skip(combined.len() - RTT_MAGIC_OVERLAP)
    }
}

pub open spec fn smaller(a: int, b: int) -> int {
    if a < b {
        a
    } else {
        b
    }
}

impl ScanView {
    /// The scan is within its ranges and what it keeps lies directly before the
    /// next address.
    pub open spec fn wf(self) -> bool {
        &&& 0 <= self.range <= self.ranges.len()
        &&& self.overlap.len() <= RTT_MAGIC_OVERLAP
        &&& self.chunks_left >= 0
        &&& self.range < self.ranges.len() ==> {
            let range = self.ranges[self.range];
            &&& range.start <= self.address <= u64::MAX
            &&& self.overlap.len() <= self.address - range.start
        }
        &&& match self.phase {
            PhaseView::Idle => true,
            PhaseView::Reading { requested, len } => {
                &&& self.range < self.ranges.len()
                &&& 1 <= len <= requested <= SCAN_CHUNK_SIZE
                &&& self.address + requested <= self.ranges[self.range].end
            },
            PhaseView::Searching { combined, first_address, search_from, read_len } => {
                &&& self.range < self.ranges.len()
                &&& 1 <= read_len <= SCAN_CHUNK_SIZE
                &&& self.address + read_len <= self.ranges[self.range].end
                &&& combined.len() == self.overlap.len() + read_len
                &&& first_address == self.address - self.overlap.len()
                &&& 0 <= search_from <= combined.len()
            },
        }
    }

    /// The event answers what the scan waits for.
    pub open spec fn accepts(self, event: ScanEventView) -> bool {
        match event {
            ScanEventView::Resume { .. } => true,
            ScanEventView::Data(data) => self.phase matches PhaseView::Reading { len, .. }
                && data.len() == len,
            ScanEventView::Unreadable => self.phase is Reading,
            ScanEventView::Rejected => self.phase is Searching,
        }
    }

    /// The next range.
    pub open spec fn next_range(self) -> ScanView {
        ScanView {
            range: self.range + 1,
            overlap: seq![],
            address: if self.range + 1 < self.ranges.len() {
                self.ranges[self.range + 1].start as int
            } else {
                self.address
            },
            ..self
        }
    }

    /// Ranges that are used up are left behind.
    pub open spec fn sought(self) -> ScanView
        decreases self.ranges.len() - self.range,
    {
        if self.range < self.ranges.len() && self.address >= self.ranges[self.range].end {
            self.next_range().sought()
        } else {
            self
        }
    }

    /// The next read, if there is memory left and a read is allowed.
    pub open spec fn pursued(self) -> (ScanView, ScanAction) {
        let there = (ScanView { phase: PhaseView::Idle, ..self }).sought();
        if there.range >= there.ranges.len() {
            (there, ScanAction::NotFound)
        } else if there.chunks_left == 0 {
            (there, ScanAction::Pause)
        } else {
            let requested = smaller(
                there.ranges[there.range].end - there.address,
                SCAN_CHUNK_SIZE as int,
            );
            (
                ScanView {
                    chunks_left: there.chunks_left - 1,
                    phase: PhaseView::Reading { requested, len: requested },
                    ..there
                },
                ScanAction::Read { address: there.address as u64, len: requested as usize },
            )
        }
    }

    /// The next candidate among the bytes in hand; without one the scan moves on
    /// and keeps the end of these bytes.
    pub open spec fn searched(self) -> (ScanView, ScanAction) {
        match self.phase {
            PhaseView::Searching { combined, first_address, search_from, read_len } => {
                match magic_from(combined, search_from) {
                    Some(i) => (
                        ScanView {
                            phase: PhaseView::Searching {
                                combined,
                                first_address,
                                search_from: i + 1,
                                read_len,
                            },
                            ..self
                        },
                        ScanAction::Attach { address: (first_address + i) as u64 },
                    ),
                    None => (ScanView {
                        overlap: overlap_of(combined),
                        address: self.address + read_len,
                        ..self
                    }).pursued(),
                }
            },
            _ => (self, ScanAction::Pause),
        }
    }

    /// The scan after an event and what it asks for.
    pub open spec fn after(self, event: ScanEventView) -> (ScanView, ScanAction) {
        match (event, self.phase) {
            (ScanEventView::Resume { max_chunks }, _) => (ScanView {
                chunks_left: max_chunks as int,
                ..self
            }).pursued(),
            (ScanEventView::Data(data), PhaseView::Reading { len, .. }) => (ScanView {
                phase: PhaseView::Searching {
                    combined: self.overlap + data,
                    first_address: self.address - self.overlap.len(),
                    search_from: 0,
                    read_len: len,
                },
                ..self
            }).searched(),
            (ScanEventView::Unreadable, PhaseView::Reading { requested, len }) => {
                if len > MIN_SCAN_CHUNK_SIZE {
                    let half = if len / 2 < MIN_SCAN_CHUNK_SIZE {
                        MIN_SCAN_CHUNK_SIZE as int
                    } else {
                        len / 2
                    };
                    (
                        ScanView { phase: PhaseView::Reading { requested, len: half }, ..self },
                        ScanAction::Read { address: self.address as u64, len: half as usize },
                    )
                } else {
                    (ScanView {
                        address: self.address + smaller(requested, MIN_SCAN_CHUNK_SIZE as int),
                        overlap: seq![],
                        ..self
                    }).pursued()
                }
            },
            (ScanEventView::Rejected, PhaseView::Searching { .. }) => self.searched(),
            _ => (self, ScanAction::Pause),
        }
    }
}

/// The address behind memory that cannot be read.
pub fn skip_unreadable(address: u64, requested_len: usize) -> (next: u64)
    requires
        address + smaller(requested_len as int, MIN_SCAN_CHUNK_SIZE as int) <= u64::MAX,
    ensures
        next == address + smaller(requested_len as int, MIN_SCAN_CHUNK_SIZE as int),
{
    if requested_len < MIN_SCAN_CHUNK_SIZE {
        address + requested_len as u64
    } else {
        address + MIN_SCAN_CHUNK_SIZE as u64
    }
}

fn select_ram(memory: &[MemoryRegion]) -> (ranges: Vec<AddressRange>)
    ensures
        ranges@ == ram_ranges(memory@),
{
    let mut ranges: Vec<AddressRange> = Vec::new();
    let mut i: usize = 0;
    proof {
        assert(memory@.take(0) =~= Seq::<MemoryRegion>::empty());
    }
    while i < memory.len()
        invariant
            i <= memory@.len(),
            ranges@ == ram_ranges(memory@.take(i as int)),
        decreases memory@.len() - i,
    {
        proof {
            assert(memory@.take(i as int + 1).drop_last() =~= memory@.take(i as int));
            assert(memory@.take(i as int + 1).last() == memory@[i as int]);
        }
        if memory[i].is_ram && !memory[i].is_alias {
            ranges.push(memory[i].range);
        }
        i += 1;
    }
    proof {
        assert(memory@.take(memory@.len() as int) =~= memory@);
    }
    ranges
}

pub(crate) fn copy_ranges(ranges: &[AddressRange]) -> (copy: Vec<AddressRange>)
    ensures
        copy@ == ranges@,
{
    let mut copy: Vec<AddressRange> = Vec::new();
    let mut i: usize = 0;
    while i < ranges.len()
        invariant
            i <= ranges@.len(),
            copy@ == ranges@.take(i as int),
        decreases ranges@.len() - i,
    {
        copy.push(ranges[i]);
        i += 1;
        proof {
            assert(copy@ =~= ranges@.take(i as int));
        }
    }
    proof {
        assert(copy@ =~= ranges@);
    }
    copy
}

impl IncrementalScan {
    pub open spec fn wf(&self) -> bool {
        self@.wf()
    }

    /// A scan of the target's RAM or of given ranges. A fixed address is not
    /// scanned for, and there must be something to scan.
    pub fn new(memory: &[MemoryRegion], region: &ScanRegion) -> (result: Result<
        Self,
        RttErrorKind,
    >)
        ensures
            ({
                let ranges = scan_ranges(memory@, region@);
                match result {
                    Ok(scan) => {
                        &&& ranges.len() > 0
                        &&& scan.wf()
                        &&& scan@ == (ScanView {
                            ranges,
                            range: 0,
                            address: ranges[0].start as int,
                            overlap: seq![],
                            chunks_left: 0,
                            phase: PhaseView::Idle,
                        })
                    },
                    Err(failure) => ranges.len() == 0 && failure is NoControlBlockLocation,
                }
            }),
    {
        let ranges = match region {
            ScanRegion::Ram => select_ram(memory),
            ScanRegion::Ranges(ranges) => copy_ranges(ranges.as_slice()),
            ScanRegion::Exact(_) => Vec::new(),
        };
        if ranges.len() == 0 {
            return Err(RttErrorKind::NoControlBlockLocation);
        }
        let address: u64 = ranges[0].start;
        let scan = IncrementalScan {
            ranges,
            range: 0,
            address,
            overlap: Vec::new(),
            chunks_left: 0,
            phase: ScanPhase::Idle,
        };
        proof {
            assert(scan@.overlap =~= seq![]);
        }
        Ok(scan)
    }

    /// Takes an event and says what to do next.
    pub fn step(&mut self, event: ScanEvent) -> (action: ScanAction)
        requires
            old(self).wf(),
            old(self)@.accepts(event@),
        ensures
            final(self).wf(),
            final(self)@ == old(self)@.after(event@).0,
            action == old(self)@.after(event@).1,
    {
        match event {
            ScanEvent::Resume { max_chunks } => {
                self.chunks_left = max_chunks;
                self.pursue()
            },
            ScanEvent::Data(data) => {
                let mut combined = text::copy_bytes(self.overlap.as_slice());
                text::push_bytes(&mut combined, data.as_slice());
                let first_address: u64 = self.address - self.overlap.len() as u64;
                self.phase = ScanPhase::Searching {
                    combined,
                    first_address,
                    search_from: 0,
                    read_len: data.len(),
                };
                self.search()
            },
            ScanEvent::Unreadable => {
                let (requested, len) = match &self.phase {
                    ScanPhase::Reading { requested, len } => (*requested, *len),
                    _ => {
                        return ScanAction::Pause;
                    },
                };
                if len > MIN_SCAN_CHUNK_SIZE {
                    let half: usize = if len / 2 < MIN_SCAN_CHUNK_SIZE {
                        MIN_SCAN_CHUNK_SIZE
                    } else {
                        len / 2
                    };
                    self.phase = ScanPhase::Reading { requested, len: half };
                    return ScanAction::Read { address: self.address, len: half };
                }
                // Only this piece cannot be read; later ones may still hold a
                // control block.
                self.address = skip_unreadable(self.address, requested);
                self.overlap.clear();
                self.pursue()
            },
            ScanEvent::Rejected => self.search(),
        }
    }

    /// Moves to the next range.
    pub fn next_range(&mut self)
        requires
            old(self).wf(),
            old(self)@.range < old(self)@.ranges.len(),
            old(self)@.phase is Idle,
        ensures
            final(self).wf(),
            final(self)@ == old(self)@.next_range(),
    {
        let count: usize = self.ranges.len();
        self.range = self.range + 1;
        self.overlap.clear();
        if self.range < count {
            self.address = self.ranges[self.range].start;
        }
    }

    /// Asks for the next read.
    fn pursue(&mut self) -> (action: ScanAction)
        requires
            (ScanView { phase: PhaseView::Idle, ..old(self)@ }).wf(),
        ensures
            final(self).wf(),
            final(self)@ == old(self)@.pursued().0,
            action == old(self)@.pursued().1,
    {
        self.phase = ScanPhase::Idle;
        let ghost start = self@;
        while self.range < self.ranges.len() && self.address >= self.ranges[self.range].end
            invariant
                self.wf(),
                self@.phase is Idle,
                self@.sought() == start.sought(),
            decreases self.ranges@.len() - self.range,
        {
            self.next_range();
        }
        proof {
            assert(self@ == start.sought());
        }
        if self.range >= self.ranges.len() {
            return ScanAction::NotFound;
        }
        if self.chunks_left == 0 {
            return ScanAction::Pause;
        }
        let remaining: u64 = self.ranges[self.range].end - self.address;
        let requested: usize = if remaining < SCAN_CHUNK_SIZE as u64 {
            remaining as usize
        } else {
            SCAN_CHUNK_SIZE
        };
        self.chunks_left = self.chunks_left - 1;
        self.phase = ScanPhase::Reading { requested, len: requested };
        ScanAction::Read { address: self.address, len: requested }
    }

    /// Proposes the next candidate among the bytes in hand.
    fn search(&mut self) -> (action: ScanAction)
        requires
            old(self).wf(),
            old(self)@.phase is Searching,
        ensures
            final(self).wf(),
            final(self)@ == old(self)@.searched().0,
            action == old(self)@.searched().1,
    {
        let (combined, first_address, search_from, read_len) = match &self.phase {
            ScanPhase::Searching { combined, first_address, search_from, read_len } => (
                text::copy_bytes(combined.as_slice()),
                *first_address,
                *search_from,
                *read_len,
            ),
            _ => {
                return ScanAction::Pause;
            },
        };
        match find_magic(combined.as_slice(), search_from) {
            Some(offset) => {
                self.phase = ScanPhase::Searching {
                    combined,
                    first_address,
                    search_from: offset + 1,
                    read_len,
                };
                ScanAction::Attach { address: first_address + offset as u64 }
            },
            None => {
                let tail_start: usize = combined.len().saturating_sub(RTT_MAGIC_OVERLAP);
                self.overlap = text::copy_range(combined.as_slice(), tail_start, combined.len());
                self.address = self.address + read_len as u64;
                proof {
                    assert(self.overlap@ =~= overlap_of(combined@));
                }
                self.pursue()
            },
        }
    }
}

/// A scan misses no control block at the border of two reads: where the magic
/// stands in the bytes of both, it stands in the first, or in what is kept of the
/// first followed by the second.
pub proof fn chunk_borders_hide_nothing(first: Seq<u8>, second: Seq<u8>, i: int)
    requires
        occurs_at(first + second, magic(), i),
    ensures
        occurs_at(first, magic(), i) || occurs_at(
            overlap_of(first) + second,
            magic(),
            i - (first.len() - overlap_of(first).len()),
        ),
{
    magic_length();
    let both = first + second;
    let size = magic().len() as int;
    if i + size <= first.len() {
        assert(first.subrange(i, i + size) =~= both.subrange(i, i + size));
    } else {
        let kept = overlap_of(first);
        let shift = first.len() - kept.len();
        assert((kept + second).subrange(i - shift, i - shift + size) =~= both.subrange(
            i,
            i + size,
        ));
    }
}

/// `len` bytes of memory from `from` on.
pub open spec fn memory_slice(memory: spec_fn(int) -> u8, from: int, len: int) -> Seq<u8> {
    Seq::new(len as nat, |i: int| memory(from + i))
}

impl ScanView {
    /// The bytes that the scan holds are those in memory.
    pub open spec fn agrees_with(self, memory: spec_fn(int) -> u8) -> bool {
        &&& self.overlap == memory_slice(
            memory,
            self.address - self.overlap.len(),
            self.overlap.len() as int,
        )
        &&& self.phase matches PhaseView::Searching { combined, first_address, .. }
            ==> combined == memory_slice(memory, first_address, combined.len() as int)
    }

    /// The first address of the range that has not been dealt with.
    pub open spec fn frontier(self) -> int {
        match self.phase {
            PhaseView::Searching { first_address, search_from, .. } => first_address + search_from,
            _ => self.address - self.overlap.len(),
        }
    }
}

/// A scan passes over no control block in memory that can be read: where the
/// magic stands at an address that was not dealt with yet, each step proposes
/// that address or leaves it ahead.
pub proof fn scan_passes_over_nothing(
    scan: ScanView,
    event: ScanEventView,
    memory: spec_fn(int) -> u8,
    address: int,
)
    requires
        scan.wf(),
        scan.accepts(event),
        scan.agrees_with(memory),
        match (event, scan.phase) {
            (ScanEventView::Data(data), PhaseView::Reading { len, .. }) => data == memory_slice(
                memory,
                scan.address,
                len,
            ),
            (ScanEventView::Rejected, _) => true,
            _ => false,
        },
        scan.frontier() <= address,
        address + magic().len() <= scan.ranges[scan.range].end,
        memory_slice(memory, address, magic().len() as int) == magic(),
    ensures
        ({
            let (next, action) = scan.after(event);
            &&& next.range == scan.range
            &&& next.agrees_with(memory)
            &&& next.frontier() <= address || (action matches ScanAction::Attach {
                address: proposed,
            } && proposed == address)
        }),
{
    magic_length();
    let (next, action) = scan.after(event);
    let size = magic().len() as int;
    let (combined, first, from, read_len) = match (event, scan.phase) {
        (ScanEventView::Data(data), PhaseView::Reading { len, .. }) => (
            scan.overlap + data,
            scan.address - scan.overlap.len(),
            0int,
            len,
        ),
        (
            ScanEventView::Rejected,
            PhaseView::Searching { combined, first_address, search_from, read_len },
        ) => (combined, first_address, search_from, read_len),
        _ => (seq![], 0int, 0int, 0int),
    };
    let count = combined.len() as int;
    assert(combined =~= memory_slice(memory, first, count));
    let place = address - first;
    if place + size <= count {
        assert(combined.subrange(place, place + size) =~= memory_slice(memory, address, size));
        assert(occurs_at(combined, magic(), place));
    }
    if exists|i: int| is_first_from(combined, magic(), from, i) {
        let i = choose|i: int| is_first_from(combined, magic(), from, i);
        assert(is_first_from(combined, magic(), from, i));
        if place < i {
            assert(!occurs_at(combined, magic(), place));
        }
    } else {
        if place + size <= count {
            first_occurrence_exists(combined, from, place);
        }
        let kept = overlap_of(combined);
        assert(kept =~= memory_slice(memory, first + count - kept.len(), kept.len() as int));
    }
}

/// Where the magic stands somewhere, it stands somewhere first.
proof fn first_occurrence_exists(data: Seq<u8>, from: int, place: int)
    requires
        from <= place,
        occurs_at(data, magic(), place),
    ensures
        exists|i: int| is_first_from(data, magic(), from, i),
    decreases place - from,
{
    if forall|j: int| from <= j < place ==> !#[trigger] occurs_at(data, magic(), j) {
        assert(is_first_from(data, magic(), from, place));
    } else {
        let j = choose|j: int| from <= j < place && #[trigger] occurs_at(data, magic(), j);
        first_occurrence_exists(data, from, j);
    }
}

/// Every address that a scan proposes is one at which the bytes in hand hold the
/// magic, and lies within the range being searched.
pub proof fn candidates_hold_the_magic(scan: ScanView, event: ScanEventView)
    requires
        scan.wf(),
        scan.accepts(event),
        scan.after(event).1 is Attach,
    ensures
        ({
            let (next, action) = scan.after(event);
            match next.phase {
                PhaseView::Searching { combined, first_address, .. } => {
                    let address = action->Attach_address;
                    &&& occurs_at(combined, magic(), address - first_address)
                    &&& next.ranges[next.range].start <= address
                    &&& address + magic().len() <= next.ranges[next.range].end
                },
                _ => false,
            }
        }),
{
    magic_length();
    let (next, action) = scan.after(event);
    let combined = match event {
        ScanEventView::Data(data) => scan.overlap + data,
        _ => match scan.phase {
            PhaseView::Searching { combined, .. } => combined,
            _ => seq![],
        },
    };
    let from = match (event, scan.phase) {
        (ScanEventView::Rejected, PhaseView::Searching { search_from, .. }) => search_from,
        _ => 0,
    };
    let i = choose|i: int| is_first_from(combined, magic(), from, i);
    assert(next.phase is Searching);
    assert(magic_from(combined, from) == Some(i));
}

/// What is left to read: a scan that goes through a range always gets nearer to
/// its end, whatever is read or found.
pub proof fn reads_make_progress(scan: ScanView, event: ScanEventView)
    requires
        scan.wf(),
        scan.accepts(event),
        !(event is Resume),
    ensures
        ({
            let next = scan.after(event).0;
            ||| next.range > scan.range
            ||| next.range == scan.range && next.address > scan.address
            ||| next.range == scan.range && next.address == scan.address && (match (
                scan.phase,
                next.phase,
            ) {
                (PhaseView::Reading { len, .. }, PhaseView::Reading { len: shorter, .. }) => shorter
                    < len,
                (PhaseView::Reading { .. }, PhaseView::Searching { .. }) => true,
                (
                    PhaseView::Searching { search_from, .. },
                    PhaseView::Searching { search_from: later, .. },
                ) => later > search_from,
                _ => false,
            })
        }),
{
    let after = scan.after(event).0;
    match (event, scan.phase) {
        (ScanEventView::Rejected, PhaseView::Searching { combined, search_from, read_len, .. }) => {
            if magic_from(combined, search_from) is Some {
                let i = choose|i: int| is_first_from(combined, magic(), search_from, i);
                assert(is_first_from(combined, magic(), search_from, i));
            } else {
                seeking_moves_ahead(
                    ScanView {
                        overlap: overlap_of(combined),
                        address: scan.address + read_len,
                        phase: PhaseView::Idle,
                        ..scan
                    },
                );
            }
        },
        (ScanEventView::Data(data), PhaseView::Reading { len, .. }) => {
            seeking_moves_ahead(
                ScanView {
                    overlap: overlap_of(scan.overlap + data),
                    address: scan.address + len,
                    phase: PhaseView::Idle,
                    ..scan
                },
            );
        },
        (ScanEventView::Unreadable, PhaseView::Reading { requested, len }) => {
            seeking_moves_ahead(
                ScanView {
                    overlap: seq![],
                    address: scan.address + smaller(requested, MIN_SCAN_CHUNK_SIZE as int),
                    phase: PhaseView::Idle,
                    ..scan
                },
            );
        },
        _ => {},
    }
}

proof fn seeking_moves_ahead(scan: ScanView)
    ensures
        scan.sought().range > scan.range || (scan.sought().range == scan.range
            && scan.sought().address == scan.address),
    decreases scan.ranges.len() - scan.range,
{
    if scan.range < scan.ranges.len() && scan.address >= scan.ranges[scan.range].end {
        seeking_moves_ahead(scan.next_range());
    }
}

/// An automatic scan goes through all of the target's RAM and nothing else: the
/// memory map's RAM regions that are no aliases, each once and in their order.
/// `places` tells where in the map each range stands.
pub proof fn all_ram_is_scanned(memory: Seq<MemoryRegion>) -> (places: Seq<int>)
    ensures
        places.len() == scan_ranges(memory, RegionView::Ram).len(),
        forall|k: int|
            0 <= k < places.len() ==> {
                &&& 0 <= #[trigger] places[k] < memory.len()
                &&& memory[places[k]].is_ram
                &&& !memory[places[k]].is_alias
                &&& scan_ranges(memory, RegionView::Ram)[k] == memory[places[k]].range
            },
        forall|j: int, k: int| 0 <= j < k < places.len() ==> places[j] < places[k],
        forall|i: int|
            0 <= i < memory.len() && (#[trigger] memory[i]).is_ram && !memory[i].is_alias
                ==> places.contains(i),
    decreases memory.len(),
{
    if memory.len() == 0 {
        seq![]
    } else {
        let last = memory.len() - 1;
        let earlier = all_ram_is_scanned(memory.drop_last());
        if memory.last().is_ram && !memory.last().is_alias {
            let places = earlier.push(last);
            let ranges = scan_ranges(memory, RegionView::Ram);
            let before = scan_ranges(memory.drop_last(), RegionView::Ram);
            assert forall|k: int| 0 <= k < places.len() implies {
                &&& 0 <= #[trigger] places[k] < memory.len()
                &&& memory[places[k]].is_ram
                &&& !memory[places[k]].is_alias
                &&& ranges[k] == memory[places[k]].range
            } by {
                if k < earlier.len() {
                    assert(places[k] == earlier[k]);
                    assert(ranges[k] == before[k]);
                    assert(memory.drop_last()[earlier[k]] == memory[earlier[k]]);
                }
            }
            assert forall|i: int|
                0 <= i < memory.len() && (#[trigger] memory[i]).is_ram
                    && !memory[i].is_alias implies places.contains(i) by {
                if i < last {
                    assert(memory.drop_last()[i] == memory[i]);
                    let k = choose|k: int| 0 <= k < earlier.len() && earlier[k] == i;
                    assert(places[k] == i);
                } else {
                    assert(places[earlier.len() as int] == i);
                }
            }
            places
        } else {
            assert forall|k: int| 0 <= k < earlier.len() implies {
                &&& 0 <= #[trigger] earlier[k] < memory.len()
                &&& memory[earlier[k]].is_ram
                &&& !memory[earlier[k]].is_alias
                &&& scan_ranges(memory, RegionView::Ram)[k] == memory[earlier[k]].range
            } by {
                assert(memory.drop_last()[earlier[k]] == memory[earlier[k]]);
            }
            assert forall|i: int|
                0 <= i < memory.len() && (#[trigger] memory[i]).is_ram
                    && !memory[i].is_alias implies earlier.contains(i) by {
                assert(memory.drop_last()[i] == memory[i]);
            }
            earlier
        }
    }
}

/// Given ranges are scanned as they are given, and a fixed address is not scanned
/// for.
pub proof fn given_ranges_are_scanned(
    memory: Seq<MemoryRegion>,
    ranges: Seq<AddressRange>,
    address: u64,
)
    ensures
        scan_ranges(memory, RegionView::Ranges(ranges)) == ranges,
        scan_ranges(memory, RegionView::Exact(address)).len() == 0,
{
}

impl ScanView {
    /// A control block at this address of range `r` is still ahead of the scan.
    pub open spec fn ahead(self, r: int, address: int) -> bool {
        0 <= r < self.ranges.len() && (r > self.range || r == self.range && self.frontier()
            <= address)
    }
}

/// A control block fits into a range at this address.
pub open spec fn fits_into(range: AddressRange, address: int) -> bool {
    range.start <= address && address + magic().len() <= range.end
}

/// Ranges are left behind only once nothing in them can hold a control block.
proof fn seeking_skips_nothing(scan: ScanView, r: int, address: int)
    requires
        0 <= scan.range,
        !(scan.phase is Searching),
        scan.overlap.len() <= RTT_MAGIC_OVERLAP,
        scan.ahead(r, address),
        fits_into(scan.ranges[r], address),
    ensures
        scan.sought().ahead(r, address),
        scan.sought().ranges == scan.ranges,
        scan.sought().phase == scan.phase,
        scan.sought().range < scan.ranges.len(),
    decreases scan.ranges.len() - scan.range,
{
    magic_length();
    if scan.range < scan.ranges.len() && scan.address >= scan.ranges[scan.range].end {
        seeking_skips_nothing(scan.next_range(), r, address);
    }
}

proof fn pursuing_skips_nothing(scan: ScanView, r: int, address: int)
    requires
        0 <= scan.range,
        scan.overlap.len() <= RTT_MAGIC_OVERLAP,
        (ScanView { phase: PhaseView::Idle, ..scan }).ahead(r, address),
        fits_into(scan.ranges[r], address),
    ensures
        scan.pursued().0.ahead(r, address),
        scan.pursued().0.ranges == scan.ranges,
        !(scan.pursued().1 is NotFound),
{
    seeking_skips_nothing(ScanView { phase: PhaseView::Idle, ..scan }, r, address);
}

/// A scan leaves out no part of any range, whatever it is told: a control block
/// that is ahead is proposed or stays ahead, unless it overlaps a piece of at most
/// the smallest chunk that could not be read. As long as one is ahead, the scan
/// does not end. Bytes that are reported are those in memory.
pub proof fn scan_leaves_nothing_out(
    scan: ScanView,
    event: ScanEventView,
    memory: spec_fn(int) -> u8,
    r: int,
    address: int,
)
    requires
        scan.wf(),
        scan.accepts(event),
        scan.agrees_with(memory),
        match (event, scan.phase) {
            (ScanEventView::Data(data), PhaseView::Reading { len, .. }) => data == memory_slice(
                memory,
                scan.address,
                len,
            ),
            _ => true,
        },
        scan.ahead(r, address),
        fits_into(scan.ranges[r], address),
        memory_slice(memory, address, magic().len() as int) == magic(),
    ensures
        ({
            let (next, action) = scan.after(event);
            &&& next.ranges == scan.ranges
            &&& next.agrees_with(memory)
            &&& {
                ||| next.ahead(r, address) && !(action is NotFound)
                ||| r == scan.range && (action matches ScanAction::Attach { address: proposed }
                    && proposed == address)
                ||| r == scan.range && event is Unreadable && (scan.phase matches PhaseView::Reading {
                    len,
                    ..
                } && len <= MIN_SCAN_CHUNK_SIZE) && scan.address - magic().len() < address
                    < scan.address + MIN_SCAN_CHUNK_SIZE
            }
        }),
{
    magic_length();
    let (next, action) = scan.after(event);
    match (event, scan.phase) {
        (ScanEventView::Resume { max_chunks }, _) => {
            let resumed = ScanView { chunks_left: max_chunks as int, ..scan };
            pursuing_skips_nothing(resumed, r, address);
            pursuing_keeps_memory(resumed, memory);
        },
        (ScanEventView::Unreadable, PhaseView::Reading { requested, len }) => {
            if len <= MIN_SCAN_CHUNK_SIZE {
                let skipped = ScanView {
                    address: scan.address + smaller(requested, MIN_SCAN_CHUNK_SIZE as int),
                    overlap: seq![],
                    ..scan
                };
                assert(skipped.overlap =~= memory_slice(memory, skipped.address, 0));
                pursuing_keeps_memory(skipped, memory);
                if r > scan.range || skipped.address <= address {
                    pursuing_skips_nothing(skipped, r, address);
                }
                pursuing_keeps_ranges(skipped);
            }
        },
        _ => {
            let (combined, first, from, read_len) = match (event, scan.phase) {
                (ScanEventView::Data(data), PhaseView::Reading { len, .. }) => (
                    scan.overlap + data,
                    scan.address - scan.overlap.len(),
                    0int,
                    len,
                ),
                (
                    ScanEventView::Rejected,
                    PhaseView::Searching { combined, first_address, search_from, read_len },
                ) => (combined, first_address, search_from, read_len),
                _ => (seq![], 0int, 0int, 0int),
            };
            let count = combined.len() as int;
            assert(combined =~= memory_slice(memory, first, count));
            if r == scan.range {
                scan_passes_over_nothing(scan, event, memory, address);
            }
            if magic_from(combined, from) is None {
                let kept = overlap_of(combined);
                let moved = ScanView {
                    overlap: kept,
                    address: scan.address + read_len,
                    phase: PhaseView::Searching {
                        combined,
                        first_address: first,
                        search_from: from,
                        read_len,
                    },
                    ..scan
                };
                assert(kept =~= memory_slice(
                    memory,
                    first + count - kept.len(),
                    kept.len() as int,
                ));
                pursuing_keeps_memory(moved, memory);
                pursuing_keeps_ranges(moved);
                if r == scan.range {
                    let place = address - first;
                    if place + magic().len() <= count {
                        assert(combined.subrange(place, place + magic().len()) =~= memory_slice(
                            memory,
                            address,
                            magic().len() as int,
                        ));
                        first_occurrence_exists(combined, from, place);
                    }
                }
                pursuing_skips_nothing(moved, r, address);
            } else {
                assert(is_first_from(combined, magic(), from, magic_from(combined, from)->0));
            }
        },
    }
}

proof fn seeking_keeps_ranges(scan: ScanView)
    ensures
        scan.sought().ranges == scan.ranges,
        scan.sought().phase == scan.phase,
        scan.sought().chunks_left == scan.chunks_left,
        scan.sought().overlap.len() == 0 || scan.sought() == scan,
    decreases scan.ranges.len() - scan.range,
{
    if scan.range < scan.ranges.len() && scan.address >= scan.ranges[scan.range].end {
        seeking_keeps_ranges(scan.next_range());
    }
}

proof fn pursuing_keeps_ranges(scan: ScanView)
    ensures
        scan.pursued().0.ranges == scan.ranges,
{
    seeking_keeps_ranges(ScanView { phase: PhaseView::Idle, ..scan });
}

proof fn pursuing_keeps_memory(scan: ScanView, memory: spec_fn(int) -> u8)
    requires
        scan.overlap == memory_slice(
            memory,
            scan.address - scan.overlap.len(),
            scan.overlap.len() as int,
        ),
    ensures
        scan.pursued().0.agrees_with(memory),
{
    let idle = ScanView { phase: PhaseView::Idle, ..scan };
    seeking_keeps_ranges(idle);
    let there = idle.sought();
    assert(there.overlap =~= memory_slice(
        memory,
        there.address - there.overlap.len(),
        there.overlap.len() as int,
    ));
}

/// A scan starts with all of its memory ahead.
pub proof fn fresh_scans_have_everything_ahead(scan: ScanView, r: int, address: int)
    requires
        scan.ranges.len() > 0,
        scan.range == 0,
        scan.address == scan.ranges[0].start,
        scan.overlap.len() == 0,
        scan.phase is Idle,
        0 <= r < scan.ranges.len(),
        fits_into(scan.ranges[r], address),
    ensures
        scan.ahead(r, address),
{
}

/// What a scan reads is never empty, at most one chunk, and lies in one of its
/// ranges; and it reads no more often than it was allowed to.
pub proof fn reads_stay_in_their_range(scan: ScanView, event: ScanEventView)
    requires
        scan.wf(),
        scan.accepts(event),
    ensures
        ({
            let (next, action) = scan.after(event);
            &&& action matches ScanAction::Read { address, len } ==> {
                &&& 0 < len <= SCAN_CHUNK_SIZE
                &&& exists|r: int|
                    0 <= r < scan.ranges.len() && (#[trigger] scan.ranges[r]).start <= address
                        && address + len <= scan.ranges[r].end
            }
            &&& event is Resume && !(action is Read) ==> next.chunks_left
                == event->Resume_max_chunks
            &&& event is Resume && action is Read ==> next.chunks_left + 1
                == event->Resume_max_chunks
            &&& !(event is Resume) ==> next.chunks_left <= scan.chunks_left
            &&& action is Pause ==> next.chunks_left == 0
        }),
{
    magic_length();
    let (next, action) = scan.after(event);
    let from = match (event, scan.phase) {
        (ScanEventView::Resume { max_chunks }, _) => ScanView {
            chunks_left: max_chunks as int,
            ..scan
        },
        (ScanEventView::Unreadable, PhaseView::Reading { requested, len }) => ScanView {
            address: scan.address + smaller(requested, MIN_SCAN_CHUNK_SIZE as int),
            overlap: seq![],
            ..scan
        },
        (ScanEventView::Data(data), PhaseView::Reading { len, .. }) => ScanView {
            overlap: overlap_of(scan.overlap + data),
            address: scan.address + len,
            phase: PhaseView::Searching {
                combined: scan.overlap + data,
                first_address: scan.address - scan.overlap.len(),
                search_from: 0,
                read_len: len,
            },
            ..scan
        },
        (ScanEventView::Rejected, PhaseView::Searching { combined, read_len, .. }) => ScanView {
            overlap: overlap_of(combined),
            address: scan.address + read_len,
            ..scan
        },
        _ => scan,
    };
    seeking_keeps_ranges(ScanView { phase: PhaseView::Idle, ..from });
    seeking_stays_in_range(ScanView { phase: PhaseView::Idle, ..from });
    if action is Read {
        let r = next.range;
        assert(scan.ranges[r].start <= action->Read_address);
    }
}

proof fn seeking_stays_in_range(scan: ScanView)
    requires
        0 <= scan.range,
        scan.range < scan.ranges.len() ==> scan.ranges[scan.range].start <= scan.address
            <= u64::MAX,
    ensures
        0 <= scan.sought().range,
        scan.sought().range < scan.ranges.len() ==> scan.ranges[scan.sought().range].start
            <= scan.sought().address < scan.ranges[scan.sought().range].end,
    decreases scan.ranges.len() - scan.range,
{
    if scan.range < scan.ranges.len() && scan.address >= scan.ranges[scan.range].end {
        seeking_stays_in_range(scan.next_range());
    }
}

/// How a control block is looked for.
#[derive(Debug)]
pub enum RttDiscovery {
    /// At one address or in given ranges, by the probe library.
    Fixed(ScanRegion),
    /// By an interruptible scan.
    Incremental(ScanRegion),
}

/// What attaching to a core takes.
#[derive(Debug)]
pub enum AttachPlan<'a> {
    /// Let the probe library attach, with its own retries.
    Direct(&'a ScanRegion),
    /// Scan and attach, with the retries of this library.
    Scan(&'a ScanRegion),
}

impl RttDiscovery {
    pub open spec fn spec_region(&self) -> ScanRegion {
        match *self {
            RttDiscovery::Fixed(region) => region,
            RttDiscovery::Incremental(region) => region,
        }
    }

    pub fn region(&self) -> (region: &ScanRegion)
        ensures
            *region == self.spec_region(),
    {
        match self {
            RttDiscovery::Fixed(region) => region,
            RttDiscovery::Incremental(region) => region,
        }
    }

    /// How to attach to a core.
    pub fn attach(&self) -> (plan: AttachPlan<'_>)
        ensures
            match *self {
                RttDiscovery::Fixed(region) => plan matches AttachPlan::Direct(own) && *own
                    == region,
                RttDiscovery::Incremental(region) => plan matches AttachPlan::Scan(own) && *own
                    == region,
            },
    {
        match self {
            RttDiscovery::Fixed(_) => AttachPlan::Direct(self.region()),
            RttDiscovery::Incremental(_) => AttachPlan::Scan(self.region()),
        }
    }
}

/// One attempt to attach to a core.
#[derive(Debug)]
pub enum RegionAttempt {
    /// Attach to the control block at this address.
    At(u64),
    /// Go through a scan.
    Scan(IncrementalScan),
}

/// Prepares one attempt to attach within a region.
pub fn attach_region_incremental(memory: &[MemoryRegion], region: &ScanRegion) -> (result: Result<
    RegionAttempt,
    RttErrorKind,
>)
    ensures
        match region@ {
            RegionView::Exact(address) => result matches Ok(RegionAttempt::At(own)) && own
                == address,
            _ => {
                let ranges = scan_ranges(memory@, region@);
                match result {
                    Ok(RegionAttempt::Scan(scan)) => {
                        &&& ranges.len() > 0
                        &&& scan.wf()
                        &&& scan@.ranges == ranges
                        &&& scan@.range == 0
                        &&& scan@.address == ranges[0].start
                        &&& scan@.overlap.len() == 0
                        &&& scan@.phase is Idle
                    },
                    Ok(RegionAttempt::At(_)) => false,
                    Err(failure) => ranges.len() == 0 && failure is NoControlBlockLocation,
                }
            },
        },
{
    if let ScanRegion::Exact(address) = region {
        return Ok(RegionAttempt::At(*address));
    }
    match IncrementalScan::new(memory, region) {
        Ok(scan) => Ok(RegionAttempt::Scan(scan)),
        Err(failure) => Err(failure),
    }
}

/// What follows a failed attempt to attach.
#[derive(Clone, Copy, Debug, PartialEq, Eq, Structural)]
pub enum AttachRetry {
    /// Report the failure.
    GiveUp,
    /// Try again after so many milliseconds.
    After { delay_ms: u64 },
}

/// Decides on a failed attempt, `elapsed_ms` after the first one began: with
/// nowhere to look there is no use in another one; otherwise the timeout decides.
pub fn try_attach_to_rtt_incremental(
    failure: RttErrorKind,
    elapsed_ms: u64,
    timeout_ms: u64,
) -> (retry: AttachRetry)
    ensures
        retry == (if !(failure is NoControlBlockLocation) && elapsed_ms < timeout_ms {
            AttachRetry::After { delay_ms: RTT_RETRY_DELAY_MS }
        } else {
            AttachRetry::GiveUp
        }),
{
    if failure == RttErrorKind::NoControlBlockLocation || elapsed_ms >= timeout_ms {
        AttachRetry::GiveUp
    } else {
        AttachRetry::After { delay_ms: RTT_RETRY_DELAY_MS }
    }
}

} // verus!
