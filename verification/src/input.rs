//! Keyboard input: commands behind Ctrl-T, key encoding, and the bytes waiting
//! for each core.
use crate::channel::{ChannelId, CoreId};
use crate::ordered;
use crate::ordered::{OrderKey, OrderedMap};
use crate::text;
use vstd::prelude::*;

verus! {

/// Most bytes that wait for one core.
pub const MAX_DOWN_BUFFER_BYTES: usize = 65_536;

/// A key on the keyboard; those without a meaning here are `Other`.
#[derive(Clone, Copy, Debug, PartialEq, Eq, Structural)]
pub enum KeyCode {
    Char(char),
    Enter,
    Tab,
    Backspace,
    Up,
    Down,
    Left,
    Right,
    Other,
}

/// The modifier keys that are held; `other` stands for any of the rest.
#[derive(Clone, Copy, Debug, PartialEq, Eq, Structural)]
pub struct KeyModifiers {
    pub shift: bool,
    pub control: bool,
    pub alt: bool,
    pub other: bool,
}

impl KeyModifiers {
    pub fn none() -> (modifiers: Self)
        ensures
            modifiers == (KeyModifiers { shift: false, control: false, alt: false, other: false }),
    {
        KeyModifiers { shift: false, control: false, alt: false, other: false }
    }

    /// No modifier is held.
    pub open spec fn empty(self) -> bool {
        !self.shift && !self.control && !self.alt && !self.other
    }

    /// Control is held and nothing else.
    pub open spec fn control_only(self) -> bool {
        self.control && !self.shift && !self.alt && !self.other
    }

    pub fn is_empty(self) -> (empty: bool)
        ensures
            empty == self.empty(),
    {
        !self.shift && !self.control && !self.alt && !self.other
    }
}

/// What happened to a key.
#[derive(Clone, Copy, Debug, PartialEq, Eq, Structural)]
pub enum KeyEventKind {
    Press,
    Repeat,
    Release,
}

/// One event of the keyboard.
#[derive(Clone, Copy, Debug, PartialEq, Eq, Structural)]
pub struct KeyEvent {
    pub code: KeyCode,
    pub modifiers: KeyModifiers,
    pub kind: KeyEventKind,
}

/// Whether the next key is a command.
#[derive(Clone, Copy, Debug, PartialEq, Eq, Structural)]
pub enum EscapeState {
    Normal,
    AwaitingCommand,
}

#[derive(Clone, Copy, Debug, PartialEq, Eq, Structural)]
pub enum SessionCommand {
    Quit,
    Help,
    ShowConfig,
    ClearScreen,
    ToggleTimestamps,
    ResetTarget,
    CycleDownCore,
}

/// What a key event asks for.
#[derive(Debug, PartialEq, Eq)]
pub enum InputAction {
    Send(Vec<u8>),
    Command(SessionCommand),
    Ignore,
}

/// What an `InputAction` holds.
#[verifier::ext_equal]
pub enum InputView {
    Send(Seq<u8>),
    Command(SessionCommand),
    Ignore,
}

impl View for InputAction {
    type V = InputView;

    open spec fn view(&self) -> InputView {
        match *self {
            InputAction::Send(bytes) => InputView::Send(bytes@),
            InputAction::Command(command) => InputView::Command(command),
            InputAction::Ignore => InputView::Ignore,
        }
    }
}

/// A letter of the English alphabet, counted from 1, in either case.
pub open spec fn letter_number(c: char) -> Option<u8> {
    if 'a' <= c <= 'z' {
        Some((c as int - 'a' as int + 1) as u8)
    } else if 'A' <= c <= 'Z' {
        Some((c as int - 'A' as int + 1) as u8)
    } else {
        None
    }
}

/// The bytes that a key sends. Control turns a letter into its number, Alt puts
/// an escape in front of a character.
pub open spec fn key_bytes(key: KeyEvent) -> Seq<u8> {
    match key.code {
        KeyCode::Char(c) => if key.modifiers.control && letter_number(c) is Some {
            seq![letter_number(c)->0]
        } else if key.modifiers.alt {
            seq![0x1bu8] + text::utf8(seq![c])
        } else {
            text::utf8(seq![c])
        },
        KeyCode::Enter => seq![0x0au8],
        KeyCode::Tab => seq![0x09u8],
        KeyCode::Backspace => seq![0x7fu8],
        KeyCode::Up => text::utf8("\x1b[A"@),
        KeyCode::Down => text::utf8("\x1b[B"@),
        KeyCode::Left => text::utf8("\x1b[D"@),
        KeyCode::Right => text::utf8("\x1b[C"@),
        KeyCode::Other => seq![],
    }
}

/// What a key outside a command asks for.
pub open spec fn key_action(key: KeyEvent) -> InputView {
    if key_bytes(key).len() == 0 {
        InputView::Ignore
    } else {
        InputView::Send(key_bytes(key))
    }
}

/// The key is Ctrl-T.
pub open spec fn is_prefix(key: KeyEvent) -> bool {
    key.code == KeyCode::Char('t') && key.modifiers.control_only()
}

/// The command that a key names behind Ctrl-T.
pub open spec fn command_of(key: KeyEvent) -> Option<SessionCommand> {
    let plain = key.modifiers.empty();
    if key.code == KeyCode::Char('q') && plain {
        Some(SessionCommand::Quit)
    } else if key.code == KeyCode::Char('?') {
        Some(SessionCommand::Help)
    } else if key.code == KeyCode::Char('c') && plain {
        Some(SessionCommand::ShowConfig)
    } else if key.code == KeyCode::Char('l') && plain {
        Some(SessionCommand::ClearScreen)
    } else if key.code == KeyCode::Char('t') && plain {
        Some(SessionCommand::ToggleTimestamps)
    } else if key.code == KeyCode::Char('R') {
        Some(SessionCommand::ResetTarget)
    } else if key.code == KeyCode::Char('d') && plain {
        Some(SessionCommand::CycleDownCore)
    } else {
        None
    }
}

impl EscapeState {
    /// The state after a key event and what the event asks for.
    pub open spec fn after(self, key: KeyEvent) -> (EscapeState, InputView) {
        if key.kind is Release {
            (self, InputView::Ignore)
        } else {
            match self {
                EscapeState::Normal => if is_prefix(key) {
                    (EscapeState::AwaitingCommand, InputView::Ignore)
                } else {
                    (EscapeState::Normal, key_action(key))
                },
                EscapeState::AwaitingCommand => (
                    EscapeState::Normal,
                    if is_prefix(key) {
                        InputView::Send(seq![0x14u8])
                    } else {
                        match command_of(key) {
                            Some(command) => InputView::Command(command),
                            None => key_action(key),
                        }
                    },
                ),
            }
        }
    }

    pub fn handle_key(self, key: KeyEvent) -> (result: (Self, InputAction))
        ensures
            result.0 == self.after(key).0,
            result.1@ == self.after(key).1,
    {
        if key.kind == KeyEventKind::Release {
            return (self, InputAction::Ignore);
        }
        match self {
            EscapeState::Normal => {
                if is_control_key(key, 't') {
                    (EscapeState::AwaitingCommand, InputAction::Ignore)
                } else {
                    (EscapeState::Normal, key_to_action(key))
                }
            },
            EscapeState::AwaitingCommand => {
                if is_control_key(key, 't') {
                    let mut literal: Vec<u8> = Vec::new();
                    literal.push(0x14);
                    proof {
                        assert(literal@ =~= seq![0x14u8]);
                    }
                    return (EscapeState::Normal, InputAction::Send(literal));
                }
                match command_key(key) {
                    Some(command) => (EscapeState::Normal, InputAction::Command(command)),
                    None => (EscapeState::Normal, key_to_action(key)),
                }
            },
        }
    }
}

/// The command that a key names behind Ctrl-T.
fn command_key(key: KeyEvent) -> (command: Option<SessionCommand>)
    ensures
        command == command_of(key),
{
    let c = match key.code {
        KeyCode::Char(c) => c,
        _ => {
            return None;
        },
    };
    if c == '?' {
        return Some(SessionCommand::Help);
    }
    if c == 'R' {
        return Some(SessionCommand::ResetTarget);
    }
    if !key.modifiers.is_empty() {
        return None;
    }
    if c == 'q' {
        Some(SessionCommand::Quit)
    } else if c == 'c' {
        Some(SessionCommand::ShowConfig)
    } else if c == 'l' {
        Some(SessionCommand::ClearScreen)
    } else if c == 't' {
        Some(SessionCommand::ToggleTimestamps)
    } else if c == 'd' {
        Some(SessionCommand::CycleDownCore)
    } else {
        None
    }
}

fn is_control_key(key: KeyEvent, character: char) -> (matched: bool)
    ensures
        matched == (key.code == KeyCode::Char(character) && key.modifiers.control_only()),
{
    match key.code {
        KeyCode::Char(c) => c == character && key.modifiers.control && !key.modifiers.shift
            && !key.modifiers.alt && !key.modifiers.other,
        _ => false,
    }
}

/// Appends the UTF-8 encoding of a character.
pub fn push_char(bytes: &mut Vec<u8>, character: char)
    ensures
        final(bytes)@ == old(bytes)@ + text::utf8(seq![character]),
{
    let mut spelled = String::new();
    spelled.push(character);
    proof {
        assert(spelled@ =~= seq![character]);
    }
    text::push_text(bytes, spelled.as_str());
}

fn key_to_action(key: KeyEvent) -> (action: InputAction)
    ensures
        action@ == key_action(key),
{
    let mut bytes: Vec<u8> = Vec::new();
    match key.code {
        KeyCode::Char(c) => {
            let code: u32 = c as u32;
            if key.modifiers.control && code >= 97 && code <= 122 {
                bytes.push((code - 96) as u8);
            } else if key.modifiers.control && code >= 65 && code <= 90 {
                bytes.push((code - 64) as u8);
            } else if key.modifiers.alt {
                bytes.push(0x1b);
                push_char(&mut bytes, c);
            } else {
                push_char(&mut bytes, c);
            }
        },
        KeyCode::Enter => bytes.push(0x0a),
        KeyCode::Tab => bytes.push(0x09),
        KeyCode::Backspace => bytes.push(0x7f),
        KeyCode::Up => text::push_text(&mut bytes, "\x1b[A"),
        KeyCode::Down => text::push_text(&mut bytes, "\x1b[B"),
        KeyCode::Left => text::push_text(&mut bytes, "\x1b[D"),
        KeyCode::Right => text::push_text(&mut bytes, "\x1b[C"),
        KeyCode::Other => {},
    }
    proof {
        assert(bytes@ =~= key_bytes(key));
    }
    if bytes.len() == 0 {
        InputAction::Ignore
    } else {
        InputAction::Send(bytes)
    }
}

/// A key is a command only behind Ctrl-T; any other key goes to the target.
pub proof fn commands_need_the_prefix(key: KeyEvent)
    ensures
        !(EscapeState::Normal.after(key).1 is Command),
        EscapeState::Normal.after(key).0 is AwaitingCommand <==> (!(key.kind is Release)
            && is_prefix(key)),
{
}

/// Every pressed key ends a command, and Ctrl-T twice sends one Ctrl-T.
pub proof fn prefix_twice_sends_it(first: KeyEvent, second: KeyEvent)
    requires
        is_prefix(first),
        is_prefix(second),
        !(first.kind is Release),
        !(second.kind is Release),
    ensures
        EscapeState::Normal.after(first).1 == InputView::Ignore,
        EscapeState::Normal.after(first).0.after(second) == (
            EscapeState::Normal,
            InputView::Send(seq![0x14u8]),
        ),
{
}

/// Releasing a key changes nothing.
pub proof fn releases_change_nothing(state: EscapeState, key: KeyEvent)
    requires
        key.kind is Release,
    ensures
        state.after(key) == (state, InputView::Ignore),
{
}

/// Behind Ctrl-T this character is a command, given the modifiers that are held.
pub open spec fn names_command(c: char, modifiers: KeyModifiers) -> bool {
    ||| c == '?'
    ||| c == 'R'
    ||| !modifiers.shift && !modifiers.control && !modifiers.alt && !modifiers.other && (c == 'q'
        || c == 'c' || c == 'l' || c == 't' || c == 'd')
}

/// A character encodes to at least one byte.
proof fn characters_have_bytes(c: char)
    ensures
        text::utf8(seq![c]).len() > 0,
{
    vstd::utf8::encode_utf8_decode_utf8(seq![c]);
    if text::utf8(seq![c]).len() == 0 {
        assert(vstd::utf8::decode_utf8(text::utf8(seq![c])).len() == 0);
        assert(seq![c].len() == 1);
    }
}

/// A character reaches the target as its UTF-8 encoding, whatever Shift and the
/// rarer modifiers are, unless Control makes it a letter's number, Alt is held, or
/// it is a command behind Ctrl-T. What arrives decodes to the character again.
pub proof fn characters_are_sent_as_they_are(state: EscapeState, key: KeyEvent, c: char)
    requires
        key.code == KeyCode::Char(c),
        key.kind is Press || key.kind is Repeat,
        !key.modifiers.alt,
        key.modifiers.control ==> !('a' <= c <= 'z' || 'A' <= c <= 'Z'),
        state is AwaitingCommand ==> !names_command(c, key.modifiers),
    ensures
        state.after(key).0 is Normal,
        state.after(key).1 matches InputView::Send(bytes) && bytes == text::utf8(seq![c])
            && vstd::utf8::decode_utf8(bytes) == seq![c],
{
    characters_have_bytes(c);
    vstd::utf8::encode_utf8_decode_utf8(seq![c]);
}

/// Alt puts one escape byte in front of what the character would send without it.
pub proof fn alt_puts_an_escape_in_front(state: EscapeState, key: KeyEvent, c: char)
    requires
        key.code == KeyCode::Char(c),
        key.kind is Press || key.kind is Repeat,
        key.modifiers.alt,
        key.modifiers.control ==> !('a' <= c <= 'z' || 'A' <= c <= 'Z'),
        state is AwaitingCommand ==> !names_command(c, key.modifiers),
    ensures
        state.after(key).0 is Normal,
        state.after(key).1 matches InputView::Send(bytes) && bytes.len() > 1 && bytes[0] == 0x1b
            && vstd::utf8::decode_utf8(bytes.skip(1)) == seq![c],
{
    characters_have_bytes(c);
    vstd::utf8::encode_utf8_decode_utf8(seq![c]);
    let bytes = seq![0x1bu8] + text::utf8(seq![c]);
    assert(bytes.skip(1) =~= text::utf8(seq![c]));
}

/// Control with a letter sends the letter's place in the alphabet as one byte, in
/// either case and whatever else is held; only Ctrl-T alone does not, and behind
/// Ctrl-T a command does not.
pub proof fn control_letters_send_their_place(state: EscapeState, key: KeyEvent, c: char)
    requires
        key.code == KeyCode::Char(c),
        key.kind is Press || key.kind is Repeat,
        key.modifiers.control,
        'a' <= c <= 'z' || 'A' <= c <= 'Z',
        c == 't' ==> key.modifiers.shift || key.modifiers.alt || key.modifiers.other,
        state is AwaitingCommand ==> !names_command(c, key.modifiers),
    ensures
        state.after(key).0 is Normal,
        state.after(key).1 matches InputView::Send(bytes) && bytes.len() == 1 && bytes[0] as int
            == (c as int) % 32,
{
}

/// The keys without a character send what a terminal sends for them, in any state
/// and whatever is held.
pub proof fn other_keys_send_their_sequences(state: EscapeState, key: KeyEvent)
    requires
        key.kind is Press || key.kind is Repeat,
        !(key.code is Char),
    ensures
        state.after(key).0 is Normal,
        key.code is Enter ==> state.after(key).1 == InputView::Send(seq![0x0au8]),
        key.code is Tab ==> state.after(key).1 == InputView::Send(seq![0x09u8]),
        key.code is Backspace ==> state.after(key).1 == InputView::Send(seq![0x7fu8]),
        key.code is Up ==> state.after(key).1 == InputView::Send(seq![0x1bu8, 0x5b, 0x41]),
        key.code is Down ==> state.after(key).1 == InputView::Send(seq![0x1bu8, 0x5b, 0x42]),
        key.code is Right ==> state.after(key).1 == InputView::Send(seq![0x1bu8, 0x5b, 0x43]),
        key.code is Left ==> state.after(key).1 == InputView::Send(seq![0x1bu8, 0x5b, 0x44]),
        key.code is Other ==> state.after(key).1 == InputView::Ignore,
{
    reveal_strlit("\x1b[A");
    reveal_strlit("\x1b[B");
    reveal_strlit("\x1b[C");
    reveal_strlit("\x1b[D");
    vstd::utf8::is_ascii_chars_encode_utf8("\x1b[A"@);
    vstd::utf8::is_ascii_chars_encode_utf8("\x1b[B"@);
    vstd::utf8::is_ascii_chars_encode_utf8("\x1b[C"@);
    vstd::utf8::is_ascii_chars_encode_utf8("\x1b[D"@);
    assert(text::utf8("\x1b[A"@) =~= seq![0x1bu8, 0x5b, 0x41]);
    assert(text::utf8("\x1b[B"@) =~= seq![0x1bu8, 0x5b, 0x42]);
    assert(text::utf8("\x1b[C"@) =~= seq![0x1bu8, 0x5b, 0x43]);
    assert(text::utf8("\x1b[D"@) =~= seq![0x1bu8, 0x5b, 0x44]);
}

/// Ctrl-T, and no other key, asks for a command; the key behind it is one of seven
/// commands, or goes to the target as if Ctrl-T had not been pressed. Ctrl-T twice
/// sends one Ctrl-T.
pub proof fn commands_stand_behind_control_t(first: KeyEvent, second: KeyEvent, c: char)
    requires
        first.kind is Press || first.kind is Repeat,
        second.kind is Press || second.kind is Repeat,
    ensures
        EscapeState::Normal.after(first).0 is AwaitingCommand <==> first.code == KeyCode::Char('t')
            && first.modifiers == (KeyModifiers {
            shift: false,
            control: true,
            alt: false,
            other: false,
        }),
        EscapeState::Normal.after(first).0 is AwaitingCommand ==> EscapeState::Normal.after(
            first,
        ).1 == InputView::Ignore,
        EscapeState::AwaitingCommand.after(second).0 is Normal,
        second.code == KeyCode::Char(c) ==> ({
            let asked = EscapeState::AwaitingCommand.after(second).1;
            &&& asked is Command <==> names_command(c, second.modifiers)
            &&& names_command(c, second.modifiers) ==> asked == InputView::Command(
                match c {
                    'q' => SessionCommand::Quit,
                    '?' => SessionCommand::Help,
                    'c' => SessionCommand::ShowConfig,
                    'l' => SessionCommand::ClearScreen,
                    't' => SessionCommand::ToggleTimestamps,
                    'R' => SessionCommand::ResetTarget,
                    _ => SessionCommand::CycleDownCore,
                },
            )
            &&& c == 't' && second.modifiers.control && !second.modifiers.shift
                && !second.modifiers.alt && !second.modifiers.other ==> asked == InputView::Send(
                seq![0x14u8],
            )
        }),
        !(EscapeState::AwaitingCommand.after(second).1 is Command) && !(
        EscapeState::Normal.after(second).0 is AwaitingCommand)
            ==> EscapeState::AwaitingCommand.after(second).1 == EscapeState::Normal.after(second).1,
{
}

/// Bytes waiting for one core.
#[derive(Debug)]
pub struct DownBuffer {
    pub bytes: Vec<u8>,
}

impl View for DownBuffer {
    type V = Seq<u8>;

    open spec fn view(&self) -> Seq<u8> {
        self.bytes@
    }
}

/// `waiting` and as much of `data` as there is room for.
pub open spec fn filled(waiting: Seq<u8>, data: Seq<u8>) -> Seq<u8> {
    let room = MAX_DOWN_BUFFER_BYTES - waiting.len();
    if room <= 0 {
        waiting
    } else if data.len() > room {
        waiting + data.take(room)
    } else {
        waiting + data
    }
}

impl DownBuffer {
    pub fn new() -> (buffer: Self)
        ensures
            buffer@ == Seq::<u8>::empty(),
    {
        DownBuffer { bytes: Vec::new() }
    }

    /// Appends as much as there is room for and says how many bytes were dropped.
    pub fn push(&mut self, data: &[u8]) -> (dropped: usize)
        ensures
            final(self)@ == filled(old(self)@, data@),
            dropped == old(self)@.len() + data@.len() - final(self)@.len(),
    {
        let room: usize = MAX_DOWN_BUFFER_BYTES.saturating_sub(self.bytes.len());
        if data.len() > room {
            let kept = vstd::slice::slice_subrange(data, 0, room);
            text::push_bytes(&mut self.bytes, kept);
            proof {
                assert(kept@ =~= data@.take(room as int));
                assert(self@ =~= filled(old(self)@, data@));
            }
            data.len() - room
        } else {
            text::push_bytes(&mut self.bytes, data);
            proof {
                assert(self@ =~= filled(old(self)@, data@));
            }
            0
        }
    }

    pub fn is_empty(&self) -> (empty: bool)
        ensures
            empty == (self@.len() == 0),
    {
        self.bytes.len() == 0
    }

    pub fn len(&self) -> (len: usize)
        ensures
            len == self@.len(),
    {
        self.bytes.len()
    }

    pub fn clear(&mut self)
        ensures
            final(self)@ == Seq::<u8>::empty(),
    {
        self.bytes.clear();
    }

    /// What can be written next.
    pub fn writable(&self) -> (bytes: &[u8])
        ensures
            bytes@ == self@,
    {
        self.bytes.as_slice()
    }

    /// Takes written bytes off the front.
    pub fn consume(&mut self, count: usize)
        requires
            count <= old(self)@.len(),
        ensures
            final(self)@ == old(self)@.skip(count as int),
    {
        let rest = text::copy_range(self.bytes.as_slice(), count, self.bytes.len());
        self.bytes = rest;
        proof {
            assert(self@ =~= old(self)@.skip(count as int));
        }
    }
}

/// A buffer never holds more than its limit, and bytes come out in the order in
/// which they went in.
pub proof fn buffers_stay_within_their_limit(waiting: Seq<u8>, data: Seq<u8>)
    requires
        waiting.len() <= MAX_DOWN_BUFFER_BYTES,
    ensures
        filled(waiting, data).len() <= MAX_DOWN_BUFFER_BYTES,
        filled(waiting, data).is_prefix_of(waiting + data),
{
    assert(filled(waiting, data) =~= (waiting + data).take(filled(waiting, data).len() as int));
}

/// There is no core that keyboard input could go to.
#[derive(Clone, Copy, Debug, PartialEq, Eq, Structural)]
pub struct NoRoutableDownChannel;

/// Keyboard bytes waiting for each core. Bytes typed for one core stay with it
/// whatever happens to the others.
#[derive(Debug)]
pub struct DownRoutes {
    target: Option<CoreId>,
    routable: Vec<CoreId>,
    waiting: OrderedMap<CoreId, DownBuffer>,
}

/// What a `DownRoutes` holds: the core that input goes to, the cores that can
/// take input now, in increasing order, and the bytes waiting for each core.
#[verifier::ext_equal]
pub struct RoutesView {
    pub target: Option<CoreId>,
    pub routable: Seq<CoreId>,
    pub waiting: Map<CoreId, Seq<u8>>,
}

impl View for DownRoutes {
    type V = RoutesView;

    closed spec fn view(&self) -> RoutesView {
        RoutesView { target: self.target, routable: self.routable@, waiting: self.waiting@ }
    }
}

/// `sorted` lists the cores of `cores` in increasing order, each once.
pub open spec fn sorts(cores: Seq<CoreId>, sorted: Seq<CoreId>) -> bool {
    ordered::increasing_keys(sorted) && forall|core: CoreId|
        #![trigger sorted.contains(core)]
        #![trigger cores.contains(core)]
        sorted.contains(core) <==> cores.contains(core)
}

/// `core` comes behind `after`.
pub open spec fn behind(core: CoreId, after: Option<CoreId>) -> bool {
    match after {
        Some(after) => core.index > after.index,
        None => true,
    }
}

impl RoutesView {
    /// The cores that can take input are in increasing order, input goes to one of
    /// them as long as there are any, and no buffer holds more than its limit.
    pub open spec fn wf(self) -> bool {
        &&& ordered::increasing_keys(self.routable)
        &&& self.routable.len() > 0 ==> self.active() is Some
        &&& forall|core: CoreId| #[trigger] self.pending(core).len() <= MAX_DOWN_BUFFER_BYTES
    }

    /// The bytes waiting for `core`.
    pub open spec fn pending(self, core: CoreId) -> Seq<u8> {
        if self.waiting.dom().contains(core) {
            self.waiting[core]
        } else {
            seq![]
        }
    }

    /// The core that typed bytes go to now.
    pub open spec fn active(self) -> Option<CoreId> {
        match self.target {
            Some(core) => if self.routable.contains(core) {
                Some(core)
            } else {
                None
            },
            None => None,
        }
    }

    /// The core that input goes to once `routable` can take it: the same as
    /// before where possible, otherwise the lowest; it is remembered while no
    /// core can take input.
    pub open spec fn target_among(self, routable: Seq<CoreId>) -> Option<CoreId> {
        if routable.len() == 0 || (self.target is Some && routable.contains(self.target->0)) {
            self.target
        } else {
            Some(routable[0])
        }
    }

    /// The next core in turn.
    pub open spec fn next(self) -> Option<CoreId> {
        match self.active() {
            Some(core) => if self.routable.len() >= 2 {
                Some(following(self.routable, core))
            } else {
                None
            },
            None => None,
        }
    }

    /// Other bytes waiting for `core`.
    pub open spec fn with_pending(self, core: CoreId, bytes: Seq<u8>) -> RoutesView {
        RoutesView { waiting: self.waiting.insert(core, bytes), ..self }
    }
}

/// Where `core` stands first in `cores`.
pub open spec fn place_of(cores: Seq<CoreId>, core: CoreId) -> int
    decreases cores.len(),
{
    if cores.len() == 0 || cores[0] == core {
        0
    } else {
        1 + place_of(cores.skip(1), core)
    }
}

/// A place with no earlier one that holds the same core is the first.
proof fn first_place(cores: Seq<CoreId>, i: int)
    requires
        0 <= i < cores.len(),
        forall|j: int| 0 <= j < i ==> cores[j] != cores[i],
    ensures
        place_of(cores, cores[i]) == i,
    decreases cores.len(),
{
    if i > 0 {
        let rest = cores.skip(1);
        assert(rest[i - 1] == cores[i]);
        assert forall|j: int| 0 <= j < i - 1 implies #[trigger] rest[j] != rest[i - 1] by {
            assert(rest[j] == cores[j + 1]);
        }
        first_place(rest, i - 1);
    }
}

/// The core behind `current` in `routable`, going round.
pub open spec fn following(routable: Seq<CoreId>, current: CoreId) -> CoreId {
    let next = place_of(routable, current) + 1;
    if next == routable.len() {
        routable[0]
    } else {
        routable[next]
    }
}

/// The next core in turn.
pub fn next_routable(routable: &[CoreId], current: CoreId) -> (next: CoreId)
    requires
        routable@.contains(current),
    ensures
        next == following(routable@, current),
        routable@.contains(next),
{
    let mut i: usize = 0;
    while routable[i] != current
        invariant
            i < routable@.len(),
            routable@.contains(current),
            forall|j: int| 0 <= j < i ==> routable@[j] != current,
        decreases routable@.len() - i,
    {
        proof {
            let k = choose|k: int| 0 <= k < routable@.len() && routable@[k] == current;
            assert(k > i);
        }
        i += 1;
    }
    proof {
        first_place(routable@, i as int);
    }
    if i + 1 == routable.len() {
        proof {
            assert(routable@.contains(routable@[0]));
        }
        routable[0]
    } else {
        proof {
            assert(routable@.contains(routable@[i + 1]));
        }
        routable[i + 1]
    }
}

fn contains_core(cores: &[CoreId], core: CoreId) -> (found: bool)
    ensures
        found == cores@.contains(core),
{
    let mut i: usize = 0;
    while i < cores.len()
        invariant
            i <= cores@.len(),
            forall|j: int| 0 <= j < i ==> cores@[j] != core,
        decreases cores@.len() - i,
    {
        if cores[i] == core {
            return true;
        }
        i += 1;
    }
    false
}

/// Inserts a core into an increasing list unless it is there.
pub fn insert_sorted(sorted: &mut Vec<CoreId>, core: CoreId)
    requires
        ordered::increasing_keys(old(sorted)@),
    ensures
        ordered::increasing_keys(final(sorted)@),
        forall|c: CoreId| #[trigger]
            final(sorted)@.contains(c) <==> old(sorted)@.contains(c) || c == core,
{
    let ghost before = sorted@;
    let mut i: usize = 0;
    while i < sorted.len() && sorted[i].index < core.index
        invariant
            i <= sorted@.len(),
            sorted@ == before,
            ordered::increasing_keys(before),
            forall|j: int| 0 <= j < i ==> (#[trigger] sorted@[j]).index < core.index,
        decreases sorted@.len() - i,
    {
        i += 1;
    }
    if i < sorted.len() && sorted[i].index == core.index {
        proof {
            assert(sorted@[i as int] == core);
            assert(sorted@.contains(core));
        }
        return ;
    }
    sorted.insert(i, core);
    proof {
        let after = sorted@;
        assert(after =~= before.insert(i as int, core));
        assert forall|a: int, b: int| 0 <= a < b < after.len() implies (#[trigger] after[a]).rank()
            < (#[trigger] after[b]).rank() by {
            let a0 = if a < i { a } else { a - 1 };
            let b0 = if b < i { b } else { b - 1 };
            if a != i {
                assert(after[a] == before[a0]);
            }
            if b != i {
                assert(after[b] == before[b0]);
            }
            if a == i && b0 > i {
                assert(before[i as int].rank() < before[b0].rank());
            }
        }
        assert forall|c: CoreId| #[trigger] after.contains(c) <==> before.contains(c) || c
            == core by {
            if after.contains(c) {
                let k = choose|k: int| 0 <= k < after.len() && after[k] == c;
                if k < i {
                    assert(before[k] == c);
                } else if k > i {
                    assert(before[k - 1] == c);
                }
            }
            if before.contains(c) {
                let k = choose|k: int| 0 <= k < before.len() && before[k] == c;
                if k < i {
                    assert(after[k] == c);
                } else {
                    assert(after[k + 1] == c);
                }
            }
            if c == core {
                assert(after[i as int] == c);
            }
        }
    }
}

/// A core and bytes for it, if any.
pub open spec fn write_view(next: Option<(CoreId, &[u8])>) -> Option<(CoreId, Seq<u8>)> {
    match next {
        Some((core, bytes)) => Some((core, bytes@)),
        None => None,
    }
}

/// `next` is the next write behind `after`: the lowest core that can take input
/// and has bytes waiting, with these bytes.
pub open spec fn writes_next(
    routes: RoutesView,
    after: Option<CoreId>,
    next: Option<(CoreId, Seq<u8>)>,
) -> bool {
    match next {
        Some((core, bytes)) => {
            &&& routes.routable.contains(core)
            &&& behind(core, after)
            &&& bytes == routes.pending(core)
            &&& bytes.len() > 0
            &&& forall|c: CoreId|
                #![trigger routes.pending(c)]
                routes.routable.contains(c) && behind(c, after) && c.index < core.index
                    ==> routes.pending(c).len() == 0
        },
        None => forall|c: CoreId|
            #![trigger routes.pending(c)]
            routes.routable.contains(c) && behind(c, after) ==> routes.pending(c).len() == 0,
    }
}

impl DownRoutes {
    /// What the routes hold is in order, and so is how they hold it.
    pub open spec fn wf(&self) -> bool {
        self.inner_wf() && self@.wf()
    }

    pub closed spec fn inner_wf(&self) -> bool {
        self.waiting.wf()
    }

    pub fn new(routable: &[CoreId]) -> (routes: Self)
        ensures
            routes.wf(),
            sorts(routable@, routes@.routable),
            routes@.target == (if routable@.len() == 0 {
                None
            } else {
                Some(routes@.routable[0])
            }),
            routes@.waiting == Map::<CoreId, Seq<u8>>::empty(),
    {
        let mut routes = DownRoutes {
            target: None,
            routable: Vec::new(),
            waiting: OrderedMap::new(),
        };
        routes.set_routable(routable);
        proof {
            if routable@.len() > 0 {
                assert(routable@.contains(routable@[0]));
                assert(routes@.routable.contains(routable@[0]));
            } else if routes@.routable.len() > 0 {
                assert(routes@.routable.contains(routes@.routable[0]));
            }
        }
        routes
    }

    /// The core that input goes to, or went to before the cores that could take
    /// it became unavailable.
    pub fn target(&self) -> (target: Option<CoreId>)
        ensures
            target == self@.target,
    {
        self.target
    }

    /// The core that input goes to now.
    pub fn active_target(&self) -> (target: Option<CoreId>)
        ensures
            target == self@.active(),
    {
        match self.target {
            Some(core) => if contains_core(self.routable.as_slice(), core) {
                Some(core)
            } else {
                None
            },
            None => None,
        }
    }

    /// The cores that can take input, in increasing order.
    pub fn routable(&self) -> (cores: &[CoreId])
        ensures
            cores@ == self@.routable,
    {
        self.routable.as_slice()
    }

    /// Directs input to the next core in turn; nothing changes without another
    /// core that can take input.
    pub fn cycle(&mut self) -> (target: Option<CoreId>)
        requires
            old(self).wf(),
        ensures
            final(self).wf(),
            target == old(self)@.next(),
            final(self)@ == (RoutesView {
                target: if target is Some {
                    target
                } else {
                    old(self)@.target
                },
                ..old(self)@
            }),
    {
        let current = match self.active_target() {
            Some(core) => core,
            None => {
                return None;
            },
        };
        if self.routable.len() < 2 {
            return None;
        }
        let next = next_routable(self.routable.as_slice(), current);
        self.target = Some(next);
        proof {
            assert forall|core: CoreId| self@.pending(core).len() <= MAX_DOWN_BUFFER_BYTES by {
                assert(old(self)@.pending(core).len() <= MAX_DOWN_BUFFER_BYTES);
            }
        }
        Some(next)
    }

    /// Says which cores can take input. Bytes waiting for other cores stay.
    pub fn set_routable(&mut self, routable: &[CoreId])
        requires
            old(self).wf(),
        ensures
            final(self).wf(),
            sorts(routable@, final(self)@.routable),
            final(self)@.target == old(self)@.target_among(final(self)@.routable),
            final(self)@.waiting == old(self)@.waiting,
    {
        let mut sorted: Vec<CoreId> = Vec::new();
        let mut i: usize = 0;
        while i < routable.len()
            invariant
                i <= routable@.len(),
                ordered::increasing_keys(sorted@),
                forall|core: CoreId| #[trigger]
                    sorted@.contains(core) <==> routable@.take(i as int).contains(core),
            decreases routable@.len() - i,
        {
            let ghost earlier = routable@.take(i as int);
            insert_sorted(&mut sorted, routable[i]);
            proof {
                let seen = routable@.take(i as int + 1);
                assert(seen =~= earlier.push(routable@[i as int]));
                assert forall|core: CoreId| #[trigger] sorted@.contains(core) <==> seen.contains(
                    core,
                ) by {
                    if earlier.contains(core) {
                        let k = choose|k: int| 0 <= k < earlier.len() && earlier[k] == core;
                        assert(seen[k] == core);
                    }
                    if seen.contains(core) {
                        let k = choose|k: int| 0 <= k < seen.len() && seen[k] == core;
                        if k < i {
                            assert(earlier[k] == core);
                        }
                    }
                    if core == routable@[i as int] {
                        assert(seen[i as int] == core);
                    }
                }
            }
            i += 1;
        }
        proof {
            assert(routable@.take(routable@.len() as int) =~= routable@);
        }
        if sorted.len() > 0 {
            let keeps = match self.target {
                Some(core) => contains_core(sorted.as_slice(), core),
                None => false,
            };
            if !keeps {
                self.target = Some(sorted[0]);
            }
        }
        self.routable = sorted;
        proof {
            assert forall|core: CoreId| self@.pending(core).len() <= MAX_DOWN_BUFFER_BYTES by {
                assert(old(self)@.pending(core).len() <= MAX_DOWN_BUFFER_BYTES);
            }
        }
    }

    /// The buffer of the core that input goes to now.
    pub fn current_mut(&mut self) -> (buffer: Option<&mut DownBuffer>)
        requires
            old(self).wf(),
        ensures
            match (old(self)@.active(), buffer) {
                (Some(core), Some(buffer)) => {
                    &&& buffer@ == old(self)@.pending(core)
                    &&& final(self)@ == old(self)@.with_pending(core, final(buffer)@)
                    &&& final(buffer)@.len() <= MAX_DOWN_BUFFER_BYTES ==> final(self).wf()
                },
                (None, None) => final(self)@ == old(self)@ && final(self).wf(),
                _ => false,
            },
    {
        match self.active_target() {
            None => None,
            Some(core) => {
                let ghost before = self@;
                if !self.waiting.contains_key(&core) {
                    self.waiting.insert(core, DownBuffer::new());
                }
                let place: usize = match self.waiting.position(core) {
                    Some(place) => place,
                    None => 0,
                };
                proof {
                    assert(self.waiting.entries@[place as int].0 == core);
                    assert forall|after: RoutesView, bytes: Seq<u8>|
                        #![trigger after.waiting, self.waiting@.insert(core, bytes)]
                        after.waiting == self.waiting@.insert(core, bytes) && bytes.len()
                            <= MAX_DOWN_BUFFER_BYTES implies forall|c: CoreId|
                        after.pending(c).len() <= MAX_DOWN_BUFFER_BYTES by {
                        assert forall|c: CoreId| after.pending(c).len()
                            <= MAX_DOWN_BUFFER_BYTES by {
                            assert(before.pending(c).len() <= MAX_DOWN_BUFFER_BYTES);
                        }
                    }
                    assert forall|bytes: Seq<u8>| #[trigger]
                        self.waiting@.insert(core, bytes) == before.waiting.insert(core, bytes) by {
                        assert(self.waiting@.insert(core, bytes) =~= before.waiting.insert(
                            core,
                            bytes,
                        ));
                    }
                }
                let buffer = self.waiting.value_mut(place);
                Some(buffer)
            },
        }
    }

    /// Queues typed bytes for the core that input goes to, as far as there is
    /// room; without such a core they are refused.
    pub fn queue(&mut self, bytes: &[u8]) -> (result: Result<(), NoRoutableDownChannel>)
        requires
            old(self).wf(),
        ensures
            final(self).wf(),
            match old(self)@.active() {
                Some(core) => result is Ok && final(self)@ == old(self)@.with_pending(
                    core,
                    filled(old(self)@.pending(core), bytes@),
                ),
                None => result == Err::<(), NoRoutableDownChannel>(NoRoutableDownChannel)
                    && final(self)@ == old(self)@,
            },
    {
        proof {
            if let Some(core) = self@.active() {
                assert(self@.pending(core).len() <= MAX_DOWN_BUFFER_BYTES);
                buffers_stay_within_their_limit(self@.pending(core), bytes@);
            }
        }
        match self.current_mut() {
            Some(buffer) => {
                let _ = buffer.push(bytes);
                Ok(())
            },
            None => Err(NoRoutableDownChannel),
        }
    }

    /// How many bytes wait for a core.
    pub fn pending_len(&self, core: CoreId) -> (len: usize)
        requires
            self.wf(),
        ensures
            len == self@.pending(core).len(),
    {
        match self.waiting.get(&core) {
            Some(buffer) => buffer.len(),
            None => 0,
        }
    }

    /// The next write to perform: the lowest core behind `after` that can take
    /// input and has bytes waiting, with these bytes. Report what was written
    /// with `consume` and go on behind that core.
    pub fn flush_pending(&self, after: Option<CoreId>) -> (next: Option<(CoreId, &[u8])>)
        requires
            self.wf(),
        ensures
            writes_next(self@, after, write_view(next)),
    {
        let mut i: usize = 0;
        while i < self.routable.len()
            invariant
                i <= self.routable@.len(),
                self.wf(),
                forall|j: int|
                    0 <= j < i && behind(#[trigger] self.routable@[j], after) ==> self@.pending(
                        self.routable@[j],
                    ).len() == 0,
            decreases self.routable@.len() - i,
        {
            let core = self.routable[i];
            let eligible = match after {
                Some(after) => core.index > after.index,
                None => true,
            };
            if eligible {
                if let Some(buffer) = self.waiting.get(&core) {
                    if !buffer.is_empty() {
                        proof {
                            assert(self@.routable.contains(core));
                            assert forall|c: CoreId|
                                #![trigger self@.pending(c)]
                                self@.routable.contains(c) && behind(c, after) && c.index
                                    < core.index implies self@.pending(c).len() == 0 by {
                                let k = choose|k: int|
                                    0 <= k < self.routable@.len() && self.routable@[k] == c;
                                if k > i {
                                    assert(self.routable@[i as int].rank()
                                        < self.routable@[k].rank());
                                }
                            }
                        }
                        return Some((core, buffer.writable()));
                    }
                }
            }
            i += 1;
        }
        proof {
            assert forall|c: CoreId|
                #![trigger self@.pending(c)]
                self@.routable.contains(c) && behind(c, after) implies self@.pending(c).len()
                == 0 by {
                let k = choose|k: int| 0 <= k < self.routable@.len() && self.routable@[k] == c;
            }
        }
        None
    }

    /// Takes bytes that were written off the front of what waits for a core.
    pub fn consume(&mut self, core: CoreId, count: usize)
        requires
            old(self).wf(),
            count <= old(self)@.pending(core).len(),
        ensures
            final(self).wf(),
            final(self)@.target == old(self)@.target,
            final(self)@.routable == old(self)@.routable,
            forall|c: CoreId| #[trigger]
                final(self)@.pending(c) == (if c == core {
                    old(self)@.pending(c).skip(count as int)
                } else {
                    old(self)@.pending(c)
                }),
    {
        if let Some(mut buffer) = self.waiting.remove(&core) {
            buffer.consume(count);
            self.waiting.insert(core, buffer);
        }
        proof {
            let before = old(self)@;
            assert forall|c: CoreId| #[trigger] self@.pending(c) == (if c == core {
                before.pending(c).skip(count as int)
            } else {
                before.pending(c)
            }) by {
                if c == core && !before.waiting.dom().contains(core) {
                    assert(before.pending(c).skip(count as int) =~= seq![]);
                }
            }
            assert forall|c: CoreId| self@.pending(c).len() <= MAX_DOWN_BUFFER_BYTES by {
                assert(before.pending(c).len() <= MAX_DOWN_BUFFER_BYTES);
            }
        }
    }

    /// Discards what waits for one core and says how much it was.
    pub fn clear_core(&mut self, core: CoreId) -> (dropped: usize)
        requires
            old(self).wf(),
        ensures
            final(self).wf(),
            dropped == old(self)@.pending(core).len(),
            final(self)@ == (RoutesView {
                waiting: old(self)@.waiting.remove(core),
                ..old(self)@
            }),
    {
        let dropped: usize = match self.waiting.remove(&core) {
            Some(buffer) => buffer.len(),
            None => 0,
        };
        proof {
            assert forall|c: CoreId| self@.pending(c).len() <= MAX_DOWN_BUFFER_BYTES by {
                assert(old(self)@.pending(c).len() <= MAX_DOWN_BUFFER_BYTES);
            }
        }
        dropped
    }

    /// Discards everything that waits.
    pub fn clear_all(&mut self)
        requires
            old(self).wf(),
        ensures
            final(self).wf(),
            final(self)@ == (RoutesView { waiting: Map::empty(), ..old(self)@ }),
    {
        self.waiting.clear();
    }
}

/// Typed bytes wait only for the core that input goes to; what waits for any
/// other core is not touched by typing, by switching or by cores that come and go.
pub proof fn bytes_stay_with_their_core(routes: RoutesView, core: CoreId, bytes: Seq<u8>)
    ensures
        match routes.active() {
            Some(target) => {
                let after = routes.with_pending(target, filled(routes.pending(target), bytes));
                core != target ==> after.pending(core) == routes.pending(core)
            },
            None => true,
        },
        forall|target: Option<CoreId>, routable: Seq<CoreId>| #[trigger]
            (RoutesView { target, routable, ..routes }).pending(core) == routes.pending(core),
{
}

/// What was queued comes out in order: bytes written now and bytes left are
/// those that waited.
pub proof fn partial_writes_lose_nothing(waiting: Seq<u8>, data: Seq<u8>, count: int)
    requires
        waiting.len() + data.len() <= MAX_DOWN_BUFFER_BYTES,
        0 <= count <= waiting.len() + data.len(),
    ensures
        filled(waiting, data).take(count) + filled(waiting, data).skip(count) == waiting + data,
{
    assert(filled(waiting, data) =~= waiting + data);
    assert((waiting + data).take(count) + (waiting + data).skip(count) =~= waiting + data);
}

/// Each turn leads to the next higher core that can take input, and from the
/// highest back to the lowest.
pub proof fn cycling_goes_round(routable: Seq<CoreId>, i: int)
    requires
        ordered::increasing_keys(routable),
        0 <= i < routable.len(),
    ensures
        following(routable, routable[i]) == routable[(if i + 1 == routable.len() {
            0
        } else {
            i + 1
        })],
{
    places_are_unique(routable, i);
}

/// Keyboard state of an interactive session.
#[derive(Debug)]
pub struct InteractiveInput {
    escape_state: EscapeState,
    routes: DownRoutes,
}

/// A down channel that was asked for and that no core has.
#[derive(Clone, Copy, Debug, PartialEq, Eq, Structural)]
pub struct DownChannelAbsent {
    pub channel: ChannelId,
}

impl DownChannelAbsent {
    pub fn message(&self) -> (message: String)
        ensures
            message@ == "down channel "@ + text::decimal(self.channel.number as nat)
                + " does not exist on any configured core"@,
    {
        let number = text::decimal_text(self.channel.number as u64);
        text::join3("down channel ", number.as_str(), " does not exist on any configured core")
    }
}

/// A change of the core that input goes to.
#[derive(Clone, Copy, Debug, PartialEq, Eq, Structural)]
pub enum RoutingEvent {
    Switched { previous: CoreId, target: CoreId },
}

/// Why keyboard input goes nowhere.
#[derive(Clone, Copy, Debug, PartialEq, Eq, Structural)]
pub enum Outage {
    /// All cores are attached and none has the channel.
    AllCores,
    /// Some core is not attached.
    Temporary,
}

/// What changed when the routes were brought up to date.
#[derive(Debug)]
pub struct Reconciliation {
    pub switched: Option<RoutingEvent>,
    /// Input went to a core before and goes nowhere now.
    pub outage: Option<Outage>,
    /// Cores newly found to lack a channel that was asked for.
    pub newly_missing: Vec<CoreId>,
}

/// Where keyboard input goes, and which missing channels were reported.
#[derive(Debug)]
pub struct DownRouting {
    input: Option<InteractiveInput>,
    missing_warned: Vec<CoreId>,
}

/// What a `DownRouting` holds.
#[verifier::ext_equal]
pub struct RoutingView {
    pub input: Option<(EscapeState, RoutesView)>,
    pub warned: Seq<CoreId>,
}

impl View for DownRouting {
    type V = RoutingView;

    closed spec fn view(&self) -> RoutingView {
        RoutingView {
            input: match self.input {
                Some(input) => Some((input.escape_state, input.routes@)),
                None => None,
            },
            warned: self.missing_warned@,
        }
    }
}

/// The cores of `missing` that are not in `warned`, each once.
pub open spec fn fresh_cores(missing: Seq<CoreId>, warned: Seq<CoreId>) -> Seq<CoreId>
    decreases missing.len(),
{
    if missing.len() == 0 {
        seq![]
    } else {
        let earlier = fresh_cores(missing.drop_last(), warned);
        let core = missing.last();
        if warned.contains(core) || earlier.contains(core) {
            earlier
        } else {
            earlier.push(core)
        }
    }
}

/// Routes before any core is known.
pub open spec fn no_routes() -> RoutesView {
    RoutesView { target: None, routable: seq![], waiting: Map::empty() }
}

impl RoutingView {
    /// The routes are in order.
    pub open spec fn wf(self) -> bool {
        self.input matches Some((_, routes)) ==> routes.wf()
    }

    /// The core that input goes to now.
    pub open spec fn active(self) -> Option<CoreId> {
        match self.input {
            Some((_, routes)) => routes.active(),
            None => None,
        }
    }

    /// The routes after typed bytes: they wait for the core that input goes to, as
    /// far as there is room; without such a core they are discarded.
    pub open spec fn queued(self, bytes: Seq<u8>) -> RoutingView {
        match self.input {
            Some((state, routes)) => match routes.active() {
                Some(core) => RoutingView {
                    input: Some(
                        (
                            state,
                            routes.with_pending(core, filled(routes.pending(core), bytes)),
                        ),
                    ),
                    ..self
                },
                None => self,
            },
            None => self,
        }
    }

    /// Nothing waits for `core`.
    pub open spec fn core_cleared(self, core: CoreId) -> RoutingView {
        match self.input {
            Some((state, routes)) => RoutingView {
                input: Some((state, RoutesView { waiting: routes.waiting.remove(core), ..routes })),
                ..self
            },
            None => self,
        }
    }

    /// Nothing waits for any core.
    pub open spec fn all_cleared(self) -> RoutingView {
        match self.input {
            Some((state, routes)) => RoutingView {
                input: Some((state, RoutesView { waiting: Map::empty(), ..routes })),
                ..self
            },
            None => self,
        }
    }

    /// The routes and the answer after a key event.
    pub open spec fn key_handled(self, key: KeyEvent) -> (RoutingView, InputView) {
        match self.input {
            Some((state, routes)) => (
                RoutingView { input: Some((state.after(key).0, routes)), ..self },
                state.after(key).1,
            ),
            None => (self, InputView::Ignore),
        }
    }

    /// The routes after switching to the next core, and the switch if there is
    /// one.
    pub open spec fn cycled(self) -> (RoutingView, Option<(CoreId, CoreId)>) {
        match self.input {
            Some((state, routes)) => match routes.next() {
                Some(next) => (
                    RoutingView {
                        input: Some((state, RoutesView { target: Some(next), ..routes })),
                        ..self
                    },
                    Some((routes.active()->0, next)),
                ),
                None => (self, None),
            },
            None => (self, None),
        }
    }

    /// The keyboard is in use from the first time there is one and a down channel
    /// is wanted.
    pub open spec fn prepared(self, channel: Option<ChannelId>, keyboard: bool) -> Option<
        (EscapeState, RoutesView),
    > {
        if self.input is None && channel is Some && keyboard {
            Some((EscapeState::Normal, no_routes()))
        } else {
            self.input
        }
    }
}

/// `after` are the routes `before` once the cores of `routable` can take input.
/// A core that becomes available after none was gets a line feed, which makes a
/// shell draw its prompt.
pub open spec fn rerouted(before: RoutesView, after: RoutesView, routable: Seq<CoreId>) -> bool {
    &&& sorts(routable, after.routable)
    &&& after.target == before.target_among(after.routable)
    &&& after.waiting == (if before.active() is None && after.active() is Some {
        let core = after.active()->0;
        before.waiting.insert(core, filled(before.pending(core), seq![0x0au8]))
    } else {
        before.waiting
    })
}

/// The change from one target to another.
pub open spec fn switch_between(previous: Option<CoreId>, target: Option<CoreId>) -> Option<
    RoutingEvent,
> {
    match (previous, target) {
        (Some(previous), Some(target)) => if previous != target {
            Some(RoutingEvent::Switched { previous, target })
        } else {
            None
        },
        _ => None,
    }
}

/// `result` and `after` are what bringing the routes of `before` up to date comes
/// to.
pub open spec fn reconciled(
    before: RoutingView,
    after: RoutingView,
    result: Result<Reconciliation, DownChannelAbsent>,
    routable: Seq<CoreId>,
    missing_down: Seq<CoreId>,
    all_attached: bool,
    down_channel: Option<ChannelId>,
    down_explicit: bool,
    keyboard: bool,
) -> bool {
    let absent = routable.len() == 0 && down_explicit && all_attached && down_channel is Some;
    match result {
        Err(error) => absent && Some(error.channel) == down_channel && after == before,
        Ok(changes) => {
            &&& !absent
            &&& match (before.prepared(down_channel, keyboard), after.input) {
                (Some(prepared), Some(input)) => {
                    &&& input.0 == prepared.0
                    &&& rerouted(prepared.1, input.1, routable)
                    &&& changes.switched == switch_between(prepared.1.target, input.1.target)
                },
                (None, None) => changes.switched is None,
                _ => false,
            }
            &&& changes.outage == (if before.active() is Some && routable.len() == 0 {
                Some(
                    if all_attached {
                        Outage::AllCores
                    } else {
                        Outage::Temporary
                    },
                )
            } else {
                None
            })
            &&& if down_explicit && routable.len() > 0 {
                changes.newly_missing@ == fresh_cores(missing_down, before.warned) && after.warned
                    == missing_down
            } else {
                changes.newly_missing@.len() == 0 && after.warned == before.warned
            }
        },
    }
}

impl DownRouting {
    /// What the routing holds is in order, and so is how it holds it.
    pub open spec fn wf(&self) -> bool {
        self.inner_wf() && self@.wf()
    }

    pub closed spec fn inner_wf(&self) -> bool {
        match self.input {
            Some(input) => input.routes.inner_wf(),
            None => true,
        }
    }

    pub fn new() -> (routing: Self)
        ensures
            routing.wf(),
            routing@ == (RoutingView { input: None, warned: seq![] }),
    {
        let routing = DownRouting { input: None, missing_warned: Vec::new() };
        proof {
            assert(routing@.warned =~= seq![]);
        }
        routing
    }

    /// Brings the routes up to date with the cores that have the down channel.
    /// An explicitly chosen channel that no core has is an error once all cores
    /// are attached. `keyboard` says whether there is one.
    pub fn reconcile(
        &mut self,
        routable: &[CoreId],
        missing_down: &[CoreId],
        all_attached: bool,
        down_channel: Option<ChannelId>,
        down_explicit: bool,
        keyboard: bool,
    ) -> (result: Result<Reconciliation, DownChannelAbsent>)
        requires
            old(self).wf(),
        ensures
            final(self).wf(),
            reconciled(
                old(self)@,
                final(self)@,
                result,
                routable@,
                missing_down@,
                all_attached,
                down_channel,
                down_explicit,
                keyboard,
            ),
    {
        if routable.len() == 0 && down_explicit && all_attached {
            if let Some(channel) = down_channel {
                return Err(DownChannelAbsent { channel });
            }
        }
        let mut switched = None;
        let mut outage = None;
        if self.input.is_none() && down_channel.is_some() && keyboard {
            let no_cores: Vec<CoreId> = Vec::new();
            let routes = DownRoutes::new(no_cores.as_slice());
            proof {
                assert(routes@ =~= no_routes()) by {
                    if routes@.routable.len() > 0 {
                        assert(routes@.routable.contains(routes@.routable[0]));
                        assert(no_cores@.contains(routes@.routable[0]));
                    }
                    assert(routes@.routable =~= seq![]);
                }
            }
            self.input = Some(InteractiveInput { escape_state: EscapeState::Normal, routes });
        }
        if let Some(input) = &mut self.input {
            let ghost prepared = input.routes@;
            let previous = input.routes.target();
            let was_active = input.routes.active_target().is_some();
            input.routes.set_routable(routable);
            let ghost sorted = input.routes@;
            let target = input.routes.target();
            if !was_active && input.routes.active_target().is_some() {
                let mut line_feed: Vec<u8> = Vec::new();
                line_feed.push(0x0a);
                proof {
                    assert(line_feed@ =~= seq![0x0au8]);
                }
                let _ = input.routes.queue(line_feed.as_slice());
            }
            if was_active && routable.len() == 0 {
                outage = Some(
                    if all_attached {
                        Outage::AllCores
                    } else {
                        Outage::Temporary
                    },
                );
            }
            if let (Some(previous), Some(target)) = (previous, target) {
                if previous != target {
                    switched = Some(RoutingEvent::Switched { previous, target });
                }
            }
        }
        let newly_missing = if down_explicit && routable.len() > 0 {
            self.report_missing(missing_down)
        } else {
            Vec::new()
        };
        Ok(Reconciliation { switched, outage, newly_missing })
    }

    /// Remembers the cores that lack the channel and hands out the new ones.
    fn report_missing(&mut self, missing_down: &[CoreId]) -> (fresh: Vec<CoreId>)
        requires
            old(self).wf(),
        ensures
            final(self).wf(),
            final(self)@ == (RoutingView { warned: missing_down@, ..old(self)@ }),
            fresh@ == fresh_cores(missing_down@, old(self)@.warned),
    {
        let mut fresh: Vec<CoreId> = Vec::new();
        let mut missing: Vec<CoreId> = Vec::new();
        let mut i: usize = 0;
        proof {
            assert(missing_down@.take(0) =~= Seq::<CoreId>::empty());
        }
        while i < missing_down.len()
            invariant
                i <= missing_down@.len(),
                missing@ == missing_down@.take(i as int),
                fresh@ == fresh_cores(missing_down@.take(i as int), self.missing_warned@),
            decreases missing_down@.len() - i,
        {
            let core = missing_down[i];
            proof {
                assert(missing_down@.take(i as int + 1).drop_last() =~= missing_down@.take(
                    i as int,
                ));
                assert(missing_down@.take(i as int + 1).last() == core);
            }
            if !contains_core(self.missing_warned.as_slice(), core) && !contains_core(
                fresh.as_slice(),
                core,
            ) {
                fresh.push(core);
            }
            missing.push(core);
            i += 1;
            proof {
                assert(missing@ =~= missing_down@.take(i as int));
            }
        }
        proof {
            assert(missing_down@.take(missing_down@.len() as int) =~= missing_down@);
        }
        self.missing_warned = missing;
        fresh
    }

    /// Whether the keyboard is in use.
    pub fn is_enabled(&self) -> (enabled: bool)
        ensures
            enabled == (self@.input is Some),
    {
        self.input.is_some()
    }

    /// Takes a key event. Commands work whether or not some core takes input.
    pub fn handle_key(&mut self, key_event: KeyEvent) -> (action: InputAction)
        requires
            old(self).wf(),
        ensures
            final(self).wf(),
            final(self)@ == old(self)@.key_handled(key_event).0,
            action@ == old(self)@.key_handled(key_event).1,
    {
        match &mut self.input {
            Some(input) => {
                let (next_state, action) = input.escape_state.handle_key(key_event);
                input.escape_state = next_state;
                action
            },
            None => InputAction::Ignore,
        }
    }

    /// Queues typed bytes; without a core that takes input they are discarded.
    /// Says how many bytes did not fit.
    pub fn queue(&mut self, bytes: &[u8]) -> (dropped: usize)
        requires
            old(self).wf(),
        ensures
            final(self).wf(),
            final(self)@ == old(self)@.queued(bytes@),
            dropped == (match old(self)@.input {
                Some((_, routes)) => match routes.active() {
                    Some(core) => routes.pending(core).len() + bytes@.len() - filled(
                        routes.pending(core),
                        bytes@,
                    ).len(),
                    None => 0,
                },
                None => 0,
            }),
    {
        match &mut self.input {
            Some(input) => {
                let core = match input.routes.active_target() {
                    Some(core) => core,
                    None => {
                        return 0;
                    },
                };
                proof {
                    assert(input.routes@.pending(core).len() <= MAX_DOWN_BUFFER_BYTES);
                }
                let room: usize = MAX_DOWN_BUFFER_BYTES - input.routes.pending_len(core);
                let _ = input.routes.queue(bytes);
                bytes.len().saturating_sub(room)
            },
            None => 0,
        }
    }

    /// The core that input goes to now.
    pub fn target(&self) -> (target: Option<CoreId>)
        ensures
            target == self@.active(),
    {
        match &self.input {
            Some(input) => input.routes.active_target(),
            None => None,
        }
    }

    /// Directs input to the next core in turn: the core before and the core now.
    pub fn cycle(&mut self) -> (switch: Option<(CoreId, CoreId)>)
        requires
            old(self).wf(),
        ensures
            final(self).wf(),
            final(self)@ == old(self)@.cycled().0,
            switch == old(self)@.cycled().1,
    {
        match &mut self.input {
            Some(input) => {
                let previous = match input.routes.active_target() {
                    Some(core) => core,
                    None => {
                        return None;
                    },
                };
                match input.routes.cycle() {
                    Some(next) => Some((previous, next)),
                    None => None,
                }
            },
            None => None,
        }
    }

    /// Discards what waits for a core that lost its attachment.
    pub fn clear_core(&mut self, core: CoreId) -> (dropped: usize)
        requires
            old(self).wf(),
        ensures
            final(self).wf(),
            final(self)@ == old(self)@.core_cleared(core),
            dropped == (match old(self)@.input {
                Some((_, routes)) => routes.pending(core).len(),
                None => 0,
            }),
    {
        match &mut self.input {
            Some(input) => input.routes.clear_core(core),
            None => 0,
        }
    }

    /// Discards everything that waits.
    pub fn clear_all(&mut self)
        requires
            old(self).wf(),
        ensures
            final(self).wf(),
            final(self)@ == old(self)@.all_cleared(),
    {
        if let Some(input) = &mut self.input {
            input.routes.clear_all();
        }
    }

    /// The next write to perform; see `DownRoutes::flush_pending`.
    pub fn flush_pending(&self, after: Option<CoreId>) -> (next: Option<(CoreId, &[u8])>)
        requires
            self.wf(),
        ensures
            match self@.input {
                Some((_, routes)) => writes_next(routes, after, write_view(next)),
                None => next is None,
            },
    {
        match &self.input {
            Some(input) => input.routes.flush_pending(after),
            None => None,
        }
    }

    /// Takes bytes that were written off the front of what waits for a core. A
    /// count beyond that is refused.
    pub fn consume(&mut self, core: CoreId, count: usize) -> (accepted: bool)
        requires
            old(self).wf(),
        ensures
            final(self).wf(),
            match (old(self)@.input, final(self)@.input) {
                (Some((state, routes)), Some((state_after, routes_after))) => {
                    &&& accepted == (count <= routes.pending(core).len())
                    &&& state_after == state
                    &&& routes_after.target == routes.target
                    &&& routes_after.routable == routes.routable
                    &&& forall|c: CoreId| #[trigger]
                        routes_after.pending(c) == (if accepted && c == core {
                            routes.pending(c).skip(count as int)
                        } else {
                            routes.pending(c)
                        })
                },
                (None, None) => accepted == (count == 0),
                _ => false,
            },
            final(self)@.warned == old(self)@.warned,
    {
        match &mut self.input {
            Some(input) => {
                if count > input.routes.pending_len(core) {
                    return false;
                }
                input.routes.consume(core, count);
                true
            },
            None => count == 0,
        }
    }
}

/// After a core lost its attachment nothing that was typed for it is left to be
/// written, not even once it is back.
pub proof fn lost_cores_get_no_stale_input(
    routes: RoutesView,
    after: RoutesView,
    core: CoreId,
    routable: Seq<CoreId>,
)
    requires
        rerouted(RoutesView { waiting: routes.waiting.remove(core), ..routes }, after, routable),
    ensures
        after.pending(core).len() <= 1,
        after.pending(core).len() == 1 ==> after.pending(core) == seq![0x0au8],
{
    let cleared = RoutesView { waiting: routes.waiting.remove(core), ..routes };
    assert(cleared.pending(core) =~= seq![]);
    assert(filled(Seq::<u8>::empty(), seq![0x0au8]) =~= seq![0x0au8]);
}

/// What is typed while no core can take it is discarded: the routing is as it was,
/// so that nothing of it turns up later, and there is nothing to write.
pub proof fn input_without_a_core_is_discarded(
    routing: RoutingView,
    bytes: Seq<u8>,
    after: Option<CoreId>,
    next: Option<(CoreId, Seq<u8>)>,
)
    requires
        routing.wf(),
        routing.active() is None,
        routing.queued(bytes).input matches Some((_, routes)) ==> writes_next(routes, after, next),
        routing.queued(bytes).input is None ==> next is None,
    ensures
        routing.queued(bytes) == routing,
        routing.queued(bytes).active() is None,
        next is None,
{
    if let Some((_, routes)) = routing.input {
        assert(routes.routable.len() == 0);
    }
}

/// The routing after so many turns.
pub open spec fn turned(routing: RoutingView, turns: nat) -> RoutingView
    decreases turns,
{
    if turns == 0 {
        routing
    } else {
        turned(routing, (turns - 1) as nat).cycled().0
    }
}

/// The place so far behind another among `count` places in a circle; both are at
/// most one round.
pub open spec fn round(place: int, turns: int, count: int) -> int {
    if place + turns < count {
        place + turns
    } else {
        place + turns - count
    }
}

proof fn turns_lead_on(routing: RoutingView, state: EscapeState, routes: RoutesView, turns: nat)
    requires
        routing.wf(),
        routing.input == Some((state, routes)),
        routes.active() is Some,
        routes.routable.len() >= 2,
        turns <= routes.routable.len(),
    ensures
        ({
            let place = place_of(routes.routable, routes.active()->0);
            let there = round(place, turns as int, routes.routable.len() as int);
            &&& 0 <= place < routes.routable.len()
            &&& routes.routable[place] == routes.active()->0
            &&& 0 <= there < routes.routable.len()
            &&& turned(routing, turns) == (RoutingView {
                input: Some((state, RoutesView { target: Some(routes.routable[there]), ..routes })),
                ..routing
            })
        }),
    decreases turns,
{
    let cores = routes.routable;
    let first = routes.active()->0;
    let k = choose|k: int| 0 <= k < cores.len() && cores[k] == first;
    places_are_unique(cores, k);
    if turns > 0 {
        turns_lead_on(routing, state, routes, (turns - 1) as nat);
        let there = round(k, turns - 1, cores.len() as int);
        assert(cores.contains(cores[there]));
        cycling_goes_round(cores, there);
    }
}

proof fn places_are_unique(cores: Seq<CoreId>, i: int)
    requires
        ordered::increasing_keys(cores),
        0 <= i < cores.len(),
    ensures
        place_of(cores, cores[i]) == i,
{
    assert forall|j: int| 0 <= j < i implies cores[j] != cores[i] by {
        assert(cores[j].rank() < cores[i].rank());
    }
    first_place(cores, i);
}

/// As many turns as there are cores that can take input lead to each of them once
/// and back to the first. Each turn reports the core before and the core now.
pub proof fn turns_visit_every_core(
    routing: RoutingView,
    state: EscapeState,
    routes: RoutesView,
    core: CoreId,
    turns: nat,
)
    requires
        routing.wf(),
        routing.input == Some((state, routes)),
        routes.active() is Some,
        routes.routable.len() >= 2,
        turns < routes.routable.len(),
    ensures
        turned(routing, routes.routable.len()).active() == routes.active(),
        turned(routing, turns).active() is Some,
        turned(routing, turns).cycled().1 == Some(
            (turned(routing, turns).active()->0, turned(routing, turns + 1).active()->0),
        ),
        turned(routing, turns + 1).active() is Some,
        routes.routable.contains(core) ==> exists|n: nat|
            n < routes.routable.len() && #[trigger] turned(routing, n).active() == Some(core),
        forall|n: nat|
            n < routes.routable.len() && n != turns ==> #[trigger] turned(routing, n).active()
                != turned(routing, turns).active(),
{
    let cores = routes.routable;
    let count = cores.len();
    let place = place_of(cores, routes.active()->0);
    turns_lead_on(routing, state, routes, count);
    turns_lead_on(routing, state, routes, turns);
    turns_lead_on(routing, state, routes, turns + 1);
    let there = round(place, turns as int, count as int);
    let next = round(place, turns as int + 1, count as int);
    assert(cores.contains(cores[place]));
    assert(cores.contains(cores[there]));
    assert(cores.contains(cores[next]));
    if cores.contains(core) {
        let k = choose|k: int| 0 <= k < count && cores[k] == core;
        let n: nat = if k >= place {
            (k - place) as nat
        } else {
            (k - place + count) as nat
        };
        turns_lead_on(routing, state, routes, n);
        assert(turned(routing, n).active() == Some(core));
    }
    assert forall|n: nat| n < count && n != turns implies #[trigger] turned(routing, n).active()
        != turned(routing, turns).active() by {
        turns_lead_on(routing, state, routes, n);
        let other = round(place, n as int, count as int);
        assert(cores.contains(cores[other]));
        places_are_unique(cores, other);
        places_are_unique(cores, there);
    }
}

/// Commands work whatever becomes of the cores: what a key means does not depend
/// on where input goes.
pub proof fn commands_do_not_need_a_core(
    routing: RoutingView,
    state: EscapeState,
    routes: RoutesView,
    other: RoutesView,
    key: KeyEvent,
)
    requires
        routing.input == Some((state, routes)),
    ensures
        (RoutingView { input: Some((state, other)), ..routing }).key_handled(key).1
            == routing.key_handled(key).1,
{
}

/// Input begins with the lowest core that can take it, and stays with a core as
/// long as that one can.
pub proof fn input_goes_to_the_lowest_core(
    before: RoutesView,
    after: RoutesView,
    routable: Seq<CoreId>,
    core: CoreId,
)
    requires
        rerouted(before, after, routable),
        routable.contains(core),
    ensures
        after.active() is Some,
        before.target is None ==> after.active()->0.index <= core.index,
        before.target matches Some(target) && routable.contains(target) ==> after.active()
            == before.target,
{
    assert(after.routable.contains(core));
    let k = choose|k: int| 0 <= k < after.routable.len() && after.routable[k] == core;
    assert(after.routable.contains(after.routable[0]));
    if k > 0 {
        assert(after.routable[0].rank() < after.routable[k].rank());
    }
}

/// What is typed waits for the core that input goes to, behind what waits there
/// already; only what exceeds the limit is lost, from the end. Nothing else changes.
pub proof fn typed_bytes_wait_for_their_core(
    routing: RoutingView,
    state: EscapeState,
    routes: RoutesView,
    target: CoreId,
    bytes: Seq<u8>,
    core: CoreId,
)
    requires
        routing.input == Some((state, routes)),
        routes.target == Some(target),
        routes.routable.contains(target),
        routes.pending(target).len() <= 65_536,
    ensures
        routing.queued(bytes).input matches Some((after_state, after)) && {
            let whole = routes.pending(target) + bytes;
            &&& after_state == state
            &&& after.target == routes.target
            &&& after.routable == routes.routable
            &&& after.pending(target) == if whole.len() <= 65_536 {
                whole
            } else {
                whole.take(65_536)
            }
            &&& core != target ==> after.pending(core) == routes.pending(core)
        },
        routing.queued(bytes).warned == routing.warned,
{
    let waiting = routes.pending(target);
    let whole = waiting + bytes;
    if whole.len() > 65_536 {
        assert(filled(waiting, bytes) =~= whole.take(65_536));
    } else {
        assert(filled(waiting, bytes) =~= whole);
    }
}

/// A key is handled by the keyboard's own state and moves no bytes; without a
/// keyboard it means nothing.
pub proof fn keys_are_handled_by_the_keyboard(routing: RoutingView, key: KeyEvent)
    ensures
        match routing.input {
            Some((state, routes)) => {
                &&& routing.key_handled(key).0.input == Some((state.after(key).0, routes))
                &&& routing.key_handled(key).1 == state.after(key).1
            },
            None => routing.key_handled(key).0.input is None && routing.key_handled(
                key,
            ).1 is Ignore,
        },
        routing.key_handled(key).0.warned == routing.warned,
{
}

/// Forgetting what waits for one core leaves the others alone; forgetting all
/// leaves nothing; neither changes where input goes.
pub proof fn forgotten_input_is_gone(
    routing: RoutingView,
    state: EscapeState,
    routes: RoutesView,
    lost: CoreId,
    core: CoreId,
)
    requires
        routing.input == Some((state, routes)),
    ensures
        routing.core_cleared(lost).input matches Some((after_state, after)) && {
            &&& after_state == state
            &&& after.target == routes.target
            &&& after.routable == routes.routable
            &&& after.pending(lost).len() == 0
            &&& core != lost ==> after.pending(core) == routes.pending(core)
        },
        routing.all_cleared().input matches Some((after_state, after)) && {
            &&& after_state == state
            &&& after.target == routes.target
            &&& after.routable == routes.routable
            &&& after.pending(core).len() == 0
        },
{
}

/// The keyboard is in use once there is one and a down channel is wanted, not
/// before, and then stays in use.
pub proof fn keyboards_need_a_channel(
    routing: RoutingView,
    channel: Option<ChannelId>,
    keyboard: bool,
)
    ensures
        routing.prepared(channel, keyboard) is Some <==> routing.input is Some || (channel is Some
            && keyboard),
        routing.input is Some ==> routing.prepared(channel, keyboard) == routing.input,
        routing.input is None && channel is Some && keyboard ==> (routing.prepared(
            channel,
            keyboard,
        ) matches Some((state, routes)) && state is Normal && routes.target is None
            && routes.routable.len() == 0 && forall|core: CoreId|
            #[trigger] routes.pending(core).len() == 0),
{
}

/// When cores come and go, input goes to cores that can take it, all of them are
/// known, and what waits for a core stays. The first core to come gets one line
/// feed more, and no other core gets anything.
pub proof fn rerouting_keeps_input(
    before: RoutesView,
    after: RoutesView,
    routable: Seq<CoreId>,
    core: CoreId,
)
    requires
        rerouted(before, after, routable),
        forall|c: CoreId| #[trigger] before.pending(c).len() < 65_536,
    ensures
        after.routable.contains(core) <==> routable.contains(core),
        after.active() == Some(core) ==> routable.contains(core),
        routable.len() > 0 ==> after.active() is Some,
        routable.len() == 0 ==> after.active() is None && after.target == before.target,
        before.target matches Some(target) && !routable.contains(target) && routable.contains(core)
            ==> after.active()->0.index <= core.index,
        after.active() == Some(core) && before.active() is None ==> after.pending(core)
            == before.pending(core).push(0x0a),
        after.active() != Some(core) || before.active() is Some ==> after.pending(core)
            == before.pending(core),
{
    assert(before.pending(core).len() < 65_536);
    assert(filled(before.pending(core), seq![0x0au8]) =~= before.pending(core).push(0x0a));
    if routable.len() > 0 {
        assert(routable.contains(routable[0]));
        assert(after.routable.contains(routable[0]));
        assert(after.routable.contains(after.routable[0]));
    } else {
        if after.routable.len() > 0 {
            assert(after.routable.contains(after.routable[0]));
            assert(routable.contains(after.routable[0]));
        }
    }
    if routable.contains(core) {
        assert(after.routable.contains(core));
        let k = choose|k: int| 0 <= k < after.routable.len() && after.routable[k] == core;
        if k > 0 {
            assert(after.routable[0].rank() < after.routable[k].rank());
        }
    }
}

/// Cores that lack the channel are reported once: those that were not reported
/// before, each a single time.
pub proof fn missing_channels_are_reported_once(
    missing: Seq<CoreId>,
    warned: Seq<CoreId>,
    core: CoreId,
)
    ensures
        fresh_cores(missing, warned).contains(core) <==> missing.contains(core) && !warned.contains(
            core,
        ),
        fresh_cores(missing, warned).no_duplicates(),
    decreases missing.len(),
{
    if missing.len() > 0 {
        let fewer = missing.drop_last();
        let last = missing.last();
        let earlier = fresh_cores(fewer, warned);
        missing_channels_are_reported_once(fewer, warned, core);
        missing_channels_are_reported_once(fewer, warned, last);
        assert(missing =~= fewer.push(last));
        assert(missing[missing.len() - 1] == last);
        if fewer.contains(core) {
            let k = choose|k: int| 0 <= k < fewer.len() && fewer[k] == core;
            assert(missing[k] == core);
        }
        if missing.contains(core) && core != last {
            let k = choose|k: int| 0 <= k < missing.len() && missing[k] == core;
            assert(fewer[k] == core);
        }
        if !warned.contains(last) && !earlier.contains(last) {
            let now = earlier.push(last);
            assert(now[earlier.len() as int] == last);
            if earlier.contains(core) {
                let k = choose|k: int| 0 <= k < earlier.len() && earlier[k] == core;
                assert(now[k] == core);
            }
            if now.contains(core) && core != last {
                let k = choose|k: int| 0 <= k < now.len() && now[k] == core;
                assert(earlier[k] == core);
            }
        }
    }
}

/// The core that input goes to, or would go to if it could.
pub open spec fn chosen_core(routing: RoutingView) -> Option<CoreId> {
    match routing.input {
        Some((_, routes)) => routes.target,
        None => None,
    }
}

/// A down channel that was asked for and that no core has is an error once all
/// cores are attached, and only then; that input goes nowhere any more is said
/// exactly when it went somewhere before.
pub proof fn absent_channels_are_an_error(
    before: RoutingView,
    after: RoutingView,
    result: Result<Reconciliation, DownChannelAbsent>,
    routable: Seq<CoreId>,
    missing_down: Seq<CoreId>,
    all_attached: bool,
    down_channel: Option<ChannelId>,
    down_explicit: bool,
    keyboard: bool,
)
    requires
        reconciled(
            before,
            after,
            result,
            routable,
            missing_down,
            all_attached,
            down_channel,
            down_explicit,
            keyboard,
        ),
    ensures
        result is Err <==> routable.len() == 0 && all_attached && down_explicit
            && down_channel is Some,
        result matches Ok(changes) ==> {
            &&& changes.outage is Some <==> before.active() is Some && routable.len() == 0
            &&& changes.outage == Some(Outage::AllCores) ==> all_attached
            &&& changes.outage == Some(Outage::Temporary) ==> !all_attached
            &&& changes.switched matches Some(RoutingEvent::Switched { previous, target })
                ==> before.input is Some && chosen_core(before) == Some(previous)
                && after.input is Some && chosen_core(after) == Some(target) && previous
                != target
            &&& before.input is Some && after.input is Some && chosen_core(before) is Some
                && chosen_core(after) is Some && chosen_core(before)
                != chosen_core(after) ==> changes.switched is Some
        },
{
}

/// With fewer than two cores that can take input a turn changes nothing.
pub proof fn single_cores_keep_the_input(routing: RoutingView)
    requires
        routing.input matches Some((_, routes)) ==> routes.routable.len() < 2,
    ensures
        routing.cycled().0 == routing,
        routing.cycled().1 is None,
{
}

/// Cores without a channel that was asked for are reported while some core has it,
/// each once as long as it stays without; otherwise nothing is reported and what
/// was reported is remembered. An error changes nothing.
pub proof fn cores_without_a_channel_are_reported(
    before: RoutingView,
    after: RoutingView,
    result: Result<Reconciliation, DownChannelAbsent>,
    routable: Seq<CoreId>,
    missing_down: Seq<CoreId>,
    all_attached: bool,
    down_channel: Option<ChannelId>,
    down_explicit: bool,
    keyboard: bool,
    core: CoreId,
)
    requires
        reconciled(
            before,
            after,
            result,
            routable,
            missing_down,
            all_attached,
            down_channel,
            down_explicit,
            keyboard,
        ),
    ensures
        result matches Err(error) ==> after == before && down_channel == Some(error.channel),
        result matches Ok(changes) ==> {
            &&& changes.newly_missing@.contains(core) <==> down_explicit && routable.len() > 0
                && missing_down.contains(core) && !before.warned.contains(core)
            &&& changes.newly_missing@.no_duplicates()
            &&& down_explicit && routable.len() > 0 ==> after.warned == missing_down
            &&& !(down_explicit && routable.len() > 0) ==> after.warned == before.warned
            &&& after.input is Some <==> before.input is Some || (down_channel is Some && keyboard)
        },
{
    missing_channels_are_reported_once(missing_down, before.warned, core);
}

/// No core that can take input and has bytes waiting is passed over: the writes go
/// through the cores from the lowest up, each with all that waits for it.
pub proof fn every_waiting_core_is_written_to(
    routes: RoutesView,
    after: Option<CoreId>,
    next: Option<(CoreId, Seq<u8>)>,
    core: CoreId,
)
    requires
        writes_next(routes, after, next),
        routes.routable.contains(core),
        routes.pending(core).len() > 0,
        after is None || core.index > after->0.index,
    ensures
        next matches Some((target, bytes)) && {
            &&& routes.routable.contains(target)
            &&& target.index <= core.index
            &&& after is Some ==> target.index > after->0.index
            &&& bytes == routes.pending(target)
            &&& bytes.len() > 0
        },
{
}

} // verus!
