//! Identities of target cores and of their RTT channels.
use crate::ordered::OrderKey;
use crate::text;
use vstd::prelude::*;

verus! {

/// Index of one configured target core.
///
/// The command line and the ELF mapping use `u32`, a debug probe indexes cores
/// with `usize`. A typed identity keeps the two apart.
#[derive(Clone, Copy, Debug, PartialEq, Eq, PartialOrd, Ord, Hash, Structural)]
pub struct CoreId {
    pub index: u32,
}

impl CoreId {
    pub fn new(value: u32) -> (id: Self)
        ensures
            id.index == value,
    {
        CoreId { index: value }
    }

    pub fn value(self) -> (value: u32)
        ensures
            value == self.index,
    {
        self.index
    }

    pub fn as_usize(self) -> (value: usize)
        ensures
            value == self.index,
    {
        self.index as usize
    }
}

impl OrderKey for CoreId {
    open spec fn rank(self) -> int {
        self.index as int
    }

    proof fn rank_is_injective(a: Self, b: Self) {
    }

    fn precedes(self, other: Self) -> bool {
        self.index < other.index
    }

    fn matches(self, other: Self) -> bool {
        self.index == other.index
    }
}

/// Number of an RTT up or down channel.
///
/// Channels carry their own numbers, which need not match their position in a
/// list of channels. A typed number keeps lookups from using a list index.
#[derive(Clone, Copy, Debug, PartialEq, Eq, PartialOrd, Ord, Hash, Structural)]
pub struct ChannelId {
    pub number: usize,
}

/// A channel number from the command line that this host cannot represent.
#[derive(Debug)]
pub struct ChannelRangeError {
    pub direction: String,
    pub value: u32,
}

impl ChannelRangeError {
    /// The sentence shown to the user.
    pub open spec fn text(self) -> Seq<char> {
        self.direction@ + " channel index "@ + text::decimal(self.value as nat)
            + " cannot be represented on this host"@
    }

    pub fn message(&self) -> (message: String)
        ensures
            message@ == self.text(),
    {
        let mut out = String::new();
        text::push_str(&mut out, self.direction.as_str());
        text::push_str(&mut out, " channel index ");
        text::push_number(&mut out, self.value as u64, 10);
        text::push_str(&mut out, " cannot be represented on this host");
        proof {
            assert(out@ =~= self.text());
        }
        out
    }
}

impl ChannelId {
    pub fn new(value: usize) -> (id: Self)
        ensures
            id.number == value,
    {
        ChannelId { number: value }
    }

    /// Takes a channel number from the command line; it is refused exactly when
    /// it does not fit in the host's index type.
    pub fn from_cli(value: u32, direction: &str) -> (result: Result<Self, ChannelRangeError>)
        ensures
            value <= usize::MAX ==> result == Ok::<Self, ChannelRangeError>(
                (ChannelId { number: value as usize }),
            ),
            value > usize::MAX ==> (result matches Err(e) && e.direction@ == direction@ && e.value
                == value),
    {
        if value as u64 <= usize::MAX as u64 {
            Ok(ChannelId { number: value as usize })
        } else {
            Err(ChannelRangeError { direction: direction.to_string(), value })
        }
    }

    pub fn value(self) -> (value: usize)
        ensures
            value == self.number,
    {
        self.number
    }
}

/// One RTT channel on one target core.
#[derive(Clone, Copy, Debug, PartialEq, Eq, PartialOrd, Ord, Hash, Structural)]
pub struct CoreChannel {
    pub core: CoreId,
    pub channel: ChannelId,
}

/// One more than the largest channel number of a 64-bit host.
pub const CHANNEL_NUMBERS: u128 = 0x1_0000_0000_0000_0000;

impl OrderKey for CoreChannel {
    /// Sources are ordered by core, then by channel number.
    open spec fn rank(self) -> int {
        self.core.index * CHANNEL_NUMBERS + self.channel.number
    }

    proof fn rank_is_injective(a: Self, b: Self) {
    }

    fn precedes(self, other: Self) -> bool {
        self.core.index < other.core.index || (self.core.index == other.core.index
            && self.channel.number < other.channel.number)
    }

    fn matches(self, other: Self) -> bool {
        self.core.index == other.core.index && self.channel.number == other.channel.number
    }
}

impl CoreChannel {
    /// The form `[c0:ch0]` that names a source in merged output of several cores.
    pub open spec fn label(self) -> Seq<char> {
        "[c"@ + text::decimal(self.core.index as nat) + ":ch"@ + text::decimal(
            self.channel.number as nat,
        ) + "]"@
    }

    /// The form `[ch0]` that names a source where only one core is in play.
    pub open spec fn short_label(self) -> Seq<char> {
        "[ch"@ + text::decimal(self.channel.number as nat) + "]"@
    }

    /// The label of a source followed by a space.
    pub open spec fn tag(self, show_cores: bool) -> Seq<char> {
        (if show_cores {
            self.label()
        } else {
            self.short_label()
        }) + " "@
    }

    /// The label as a string.
    pub fn label_text(self) -> (text: String)
        ensures
            text@ == self.label(),
    {
        let mut out = String::new();
        text::push_str(&mut out, "[c");
        text::push_number(&mut out, self.core.index as u64, 10);
        text::push_str(&mut out, ":ch");
        text::push_number(&mut out, self.channel.number as u64, 10);
        text::push_str(&mut out, "]");
        proof {
            assert(out@ =~= self.label());
        }
        out
    }

    /// The tag in front of a line of merged output.
    pub fn tag_text(self, show_cores: bool) -> (text: String)
        ensures
            text@ == self.tag(show_cores),
    {
        let mut out;
        if show_cores {
            out = self.label_text();
        } else {
            out = String::new();
            text::push_str(&mut out, "[ch");
            text::push_number(&mut out, self.channel.number as u64, 10);
            text::push_str(&mut out, "]");
            proof {
                assert(out@ =~= self.short_label());
            }
        }
        text::push_str(&mut out, " ");
        out
    }
}

/// The position of the first channel that carries `channel`'s number, given the
/// numbers in list order.
pub fn channel_by_number(numbers: &[usize], channel: ChannelId) -> (position: Option<usize>)
    ensures
        match position {
            Some(i) => i < numbers@.len() && numbers@[i as int] == channel.number && forall|j: int|
                0 <= j < i ==> numbers@[j] != channel.number,
            None => forall|j: int| 0 <= j < numbers@.len() ==> numbers@[j] != channel.number,
        },
{
    let mut i: usize = 0;
    while i < numbers.len()
        invariant
            i <= numbers@.len(),
            forall|j: int| 0 <= j < i ==> numbers@[j] != channel.number,
        decreases numbers@.len() - i,
    {
        if numbers[i] == channel.number {
            return Some(i);
        }
        i += 1;
    }
    None
}

/// A line behind its tag tells its channel, and with cores shown its core too,
/// whatever the line holds: the tag and the line can be told apart.
#[verifier::rlimit(40)]
pub proof fn tagged_lines_tell_their_source(
    a: CoreChannel,
    b: CoreChannel,
    show_cores: bool,
    first: Seq<char>,
    second: Seq<char>,
)
    requires
        a.tag(show_cores) + first == b.tag(show_cores) + second,
    ensures
        a.channel == b.channel,
        show_cores ==> a.core == b.core,
        first == second,
{
    reveal_strlit("[c");
    reveal_strlit(":ch");
    reveal_strlit("[ch");
    reveal_strlit("]");
    reveal_strlit(" ");
    let left = a.tag(show_cores) + first;
    let right = b.tag(show_cores) + second;
    let left_end = text::decimal(a.channel.number as nat) + seq![']'] + (seq![' '] + first);
    let right_end = text::decimal(b.channel.number as nat) + seq![']'] + (seq![' '] + second);
    if show_cores {
        assert(left.skip(2) =~= text::decimal(a.core.index as nat) + seq![':'] + (seq!['c', 'h']
            + left_end));
        assert(right.skip(2) =~= text::decimal(b.core.index as nat) + seq![':'] + (seq!['c', 'h']
            + right_end));
        text::numbers_end_where_they_end(
            a.core.index as nat,
            b.core.index as nat,
            ':',
            seq!['c', 'h'] + left_end,
            seq!['c', 'h'] + right_end,
        );
        assert(left_end =~= (seq!['c', 'h'] + left_end).skip(2));
        assert(right_end =~= (seq!['c', 'h'] + right_end).skip(2));
    } else {
        assert(left.skip(3) =~= left_end);
        assert(right.skip(3) =~= right_end);
    }
    text::numbers_end_where_they_end(
        a.channel.number as nat,
        b.channel.number as nat,
        ']',
        seq![' '] + first,
        seq![' '] + second,
    );
    assert(first =~= (seq![' '] + first).skip(1));
    assert(second =~= (seq![' '] + second).skip(1));
}

/// A label spells the core and the channel of its source.
pub proof fn labels_spell_their_source(source: CoreChannel)
    ensures
        source.label() == seq!['[', 'c'] + text::decimal(source.core.index as nat) + seq![
            ':',
            'c',
            'h',
        ] + text::decimal(source.channel.number as nat) + seq![']'],
        source.short_label() == seq!['[', 'c', 'h'] + text::decimal(source.channel.number as nat)
            + seq![']'],
        source.tag(true) == source.label() + seq![' '],
        source.tag(false) == source.short_label() + seq![' '],
{
    reveal_strlit("[c");
    reveal_strlit(":ch");
    reveal_strlit("[ch");
    reveal_strlit("]");
    reveal_strlit(" ");
    assert("[c"@ =~= seq!['[', 'c']);
    assert(":ch"@ =~= seq![':', 'c', 'h']);
    assert("[ch"@ =~= seq!['[', 'c', 'h']);
    assert("]"@ =~= seq![']']);
    assert(" "@ =~= seq![' ']);
}

/// Sources stand in the order of their cores, and on one core in the order of
/// their channels; cores stand in the order of their indices.
pub proof fn sources_are_ordered_by_core(a: CoreChannel, b: CoreChannel)
    ensures
        a.rank() < b.rank() <==> a.core.index < b.core.index || a.core.index == b.core.index
            && a.channel.number < b.channel.number,
        a.core.rank() < b.core.rank() <==> a.core.index < b.core.index,
{
}

} // verus!
