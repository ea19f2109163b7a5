use brtt::channel::{ChannelId, CoreId};
use brtt::input::{
    next_routable, push_char, DownBuffer, DownRouting, DownRoutes, EscapeState, InputAction,
    KeyCode, KeyEvent, KeyEventKind, KeyModifiers, NoRoutableDownChannel, Outage, RoutingEvent,
    SessionCommand, MAX_DOWN_BUFFER_BYTES,
};

fn none() -> KeyModifiers {
    KeyModifiers::none()
}

fn control() -> KeyModifiers {
    KeyModifiers {
        control: true,
        ..KeyModifiers::none()
    }
}

fn shift() -> KeyModifiers {
    KeyModifiers {
        shift: true,
        ..KeyModifiers::none()
    }
}

fn alt() -> KeyModifiers {
    KeyModifiers {
        alt: true,
        ..KeyModifiers::none()
    }
}

fn key(code: KeyCode, modifiers: KeyModifiers) -> KeyEvent {
    KeyEvent {
        code,
        modifiers,
        kind: KeyEventKind::Press,
    }
}

/// Writes what waits for each core; `write` says how much was taken.
fn flush(routes: &mut DownRoutes, mut write: impl FnMut(CoreId, &[u8]) -> usize) {
    let mut after = None;
    loop {
        let (core, count) = match routes.flush_pending(after) {
            Some((core, bytes)) => (core, write(core, bytes)),
            None => return,
        };
        routes.consume(core, count);
        after = Some(core);
    }
}

#[test]
fn ctrl_t_enters_command_mode_without_sending() {
    let (state, action) =
        EscapeState::Normal.handle_key(key(KeyCode::Char('t'), control()));

    assert_eq!(state, EscapeState::AwaitingCommand);
    assert_eq!(action, InputAction::Ignore);
}

#[test]
fn ctrl_t_q_quits() {
    let (state, action) =
        EscapeState::AwaitingCommand.handle_key(key(KeyCode::Char('q'), none()));

    assert_eq!(state, EscapeState::Normal);
    assert_eq!(action, InputAction::Command(SessionCommand::Quit));
}

#[test]
fn ctrl_t_core_commands_dispatch_to_their_commands() {
    for (character, modifiers, command) in [
        ('c', none(), SessionCommand::ShowConfig),
        ('l', none(), SessionCommand::ClearScreen),
        ('t', none(), SessionCommand::ToggleTimestamps),
        ('d', none(), SessionCommand::CycleDownCore),
        ('?', shift(), SessionCommand::Help),
    ] {
        assert_eq!(
            EscapeState::AwaitingCommand.handle_key(key(KeyCode::Char(character), modifiers)),
            (EscapeState::Normal, InputAction::Command(command))
        );
    }

    assert_eq!(
        EscapeState::AwaitingCommand.handle_key(key(KeyCode::Char('R'), shift())),
        (
            EscapeState::Normal,
            InputAction::Command(SessionCommand::ResetTarget)
        )
    );
}

#[test]
fn next_routable_wraps_around_in_order() {
    assert_eq!(
        next_routable(&[CoreId::new(0), CoreId::new(1)], CoreId::new(0)),
        CoreId::new(1)
    );
    assert_eq!(
        next_routable(&[CoreId::new(0), CoreId::new(1)], CoreId::new(1)),
        CoreId::new(0)
    );
    assert_eq!(
        next_routable(&[CoreId::new(1)], CoreId::new(1)),
        CoreId::new(1)
    );
    assert_eq!(
        next_routable(&[CoreId::new(0), CoreId::new(2)], CoreId::new(0)),
        CoreId::new(2)
    );
}

#[test]
fn cycling_requires_another_routable_core() {
    let core = CoreId::new(0);
    let other = CoreId::new(1);
    let mut routes = DownRoutes::new(&[]);
    assert_eq!(routes.cycle(), None);
    assert_eq!(routes.target(), None);

    routes.set_routable(&[core]);
    assert_eq!(routes.cycle(), None);
    assert_eq!(routes.target(), Some(core));

    routes.set_routable(&[core, other]);
    assert_eq!(routes.cycle(), Some(other));
    assert_eq!(routes.cycle(), Some(core));
}

#[test]
fn first_down_route_is_selected_and_remembered_across_outage() {
    let first = CoreId::new(2);
    let alternate = CoreId::new(3);
    let mut routes = DownRoutes::new(&[]);
    assert_eq!(routes.active_target(), None);

    routes.set_routable(&[first, alternate]);
    assert_eq!(routes.active_target(), Some(first));
    routes.set_routable(&[]);
    assert_eq!(routes.active_target(), None);
    assert_eq!(routes.target(), Some(first));
    assert_eq!(routes.queue(b"unavailable"), Err(NoRoutableDownChannel));

    routes.set_routable(&[alternate, first]);
    assert_eq!(routes.active_target(), Some(first));
    routes.set_routable(&[alternate]);
    assert_eq!(routes.active_target(), Some(alternate));
}

#[test]
fn down_routes_keep_queued_bytes_on_their_original_core() {
    let mut routes = DownRoutes::new(&[CoreId::new(0), CoreId::new(1)]);
    routes.queue(b"for-core-0").unwrap();
    let _ = routes.cycle();
    assert_eq!(routes.target(), Some(CoreId::new(1)));
    routes.queue(b"for-core-1").unwrap();

    let mut sent = Vec::new();
    flush(&mut routes, |id, bytes| {
        sent.push((id, bytes.to_vec()));
        bytes.len()
    });
    // Cycling only retargets; the new core's prompt comes from the
    // renderer's cache, so no extra bytes are queued for it.
    assert_eq!(
        sent,
        vec![
            (CoreId::new(0), b"for-core-0".to_vec()),
            (CoreId::new(1), b"for-core-1".to_vec()),
        ]
    );

    let mut replayed = Vec::new();
    flush(&mut routes, |id, bytes| {
        replayed.push((id, bytes.to_vec()));
        bytes.len()
    });
    assert!(replayed.is_empty());
}

#[test]
fn down_routes_partial_writes_stay_on_their_route() {
    let mut routes = DownRoutes::new(&[CoreId::new(0), CoreId::new(1)]);
    routes.queue(b"abcdef").unwrap();
    flush(&mut routes, |id, bytes| {
        if id == CoreId::new(0) {
            bytes.len().min(2)
        } else {
            bytes.len()
        }
    });

    routes.cycle();
    let mut core0_rest = Vec::new();
    flush(&mut routes, |id, bytes| {
        if id == CoreId::new(0) {
            core0_rest.extend_from_slice(bytes);
        }
        bytes.len()
    });
    assert_eq!(core0_rest, b"cdef");
}

#[test]
fn down_routes_discard_lost_cores_pending_suffix_without_replaying_on_reconnect() {
    let mut routes = DownRoutes::new(&[CoreId::new(0), CoreId::new(1)]);
    routes.cycle();
    routes.queue(b"unfinished").unwrap();
    routes.set_routable(&[CoreId::new(0)]);
    assert_eq!(routes.clear_core(CoreId::new(1)), b"unfinished".len());
    assert_eq!(routes.clear_core(CoreId::new(1)), 0);
    routes.queue(b"healthy").unwrap();
    let mut sent = Vec::new();
    flush(&mut routes, |id, bytes| {
        sent.push((id, bytes.to_vec()));
        bytes.len()
    });
    assert_eq!(sent, vec![(CoreId::new(0), b"healthy".to_vec())]);

    routes.set_routable(&[]);
    routes.set_routable(&[CoreId::new(1)]);
    flush(&mut routes, |id, bytes| {
        sent.push((id, bytes.to_vec()));
        bytes.len()
    });
    assert_eq!(sent.len(), 1);
}

#[test]
fn down_routes_clear_only_reset_cores_pending_input() {
    let mut routes = DownRoutes::new(&[CoreId::new(0), CoreId::new(1)]);
    routes.queue(b"stale").unwrap();
    routes.cycle();
    routes.queue(b"live").unwrap();
    assert_eq!(routes.clear_core(CoreId::new(0)), b"stale".len());
    let mut sent = Vec::new();
    flush(&mut routes, |id, bytes| {
        sent.push((id, bytes.to_vec()));
        bytes.len()
    });
    assert_eq!(sent, vec![(CoreId::new(1), b"live".to_vec())]);
}

#[test]
fn full_ring_zero_write_keeps_suffix_until_later_write() {
    let core = CoreId::new(0);
    let mut routes = DownRoutes::new(&[core]);
    routes.queue(b"command").unwrap();
    flush(&mut routes, |_, _| 0);
    let mut sent = Vec::new();
    flush(&mut routes, |_, bytes| {
        sent.extend_from_slice(bytes);
        bytes.len()
    });
    assert_eq!(sent, b"command");
}

#[test]
fn unavailable_route_drops_new_keyboard_bytes_but_keeps_command_mode() {
    let core = CoreId::new(0);
    let mut routes = DownRoutes::new(&[]);
    assert_eq!(routes.queue(b"stale"), Err(NoRoutableDownChannel));
    let (state, action) =
        EscapeState::Normal.handle_key(key(KeyCode::Char('t'), control()));
    assert_eq!(action, InputAction::Ignore);
    assert_eq!(state, EscapeState::AwaitingCommand);
    let (_, action) = state.handle_key(key(KeyCode::Char('q'), none()));
    assert_eq!(action, InputAction::Command(SessionCommand::Quit));
    let (_, action) = state.handle_key(key(KeyCode::Char('R'), none()));
    assert_eq!(action, InputAction::Command(SessionCommand::ResetTarget));

    routes.set_routable(&[core]);
    let mut sent = false;
    flush(&mut routes, |_, _| {
        sent = true;
        0
    });
    assert!(!sent);
    assert_eq!(routes.queue(b"fresh"), Ok(()));
    flush(&mut routes, |_, bytes| {
        assert_eq!(bytes, b"fresh");
        bytes.len()
    });
}

#[test]
fn down_routing_errors_when_explicit_channel_is_proven_absent() {
    let error = DownRouting::new()
        .reconcile(
            &[],
            &[],
            true,
            Some(ChannelId::from_cli(7, "test").unwrap()),
            true,
            false,
        )
        .unwrap_err();

    assert_eq!(
        error.message(),
        "down channel 7 does not exist on any configured core"
    );
}

#[test]
fn ctrl_t_ctrl_t_sends_literal_ctrl_t() {
    let (state, action) =
        EscapeState::AwaitingCommand.handle_key(key(KeyCode::Char('t'), control()));

    assert_eq!(state, EscapeState::Normal);
    assert_eq!(action, InputAction::Send(vec![0x14]));
}

#[test]
fn ctrl_c_is_forwarded_to_the_target() {
    assert_eq!(
        EscapeState::Normal.handle_key(key(KeyCode::Char('c'), control())),
        (EscapeState::Normal, InputAction::Send(vec![0x03]))
    );
}

#[test]
fn ordinary_keys_keep_existing_encoding() {
    assert_eq!(
        EscapeState::Normal.handle_key(key(KeyCode::Char('x'), none())),
        (EscapeState::Normal, InputAction::Send(b"x".to_vec()))
    );
    assert_eq!(
        EscapeState::Normal.handle_key(key(KeyCode::Enter, none())),
        (EscapeState::Normal, InputAction::Send(vec![b'\n']))
    );
    assert_eq!(
        EscapeState::Normal.handle_key(key(KeyCode::Backspace, none())),
        (EscapeState::Normal, InputAction::Send(vec![0x7f]))
    );
    assert_eq!(
        EscapeState::Normal.handle_key(key(KeyCode::Up, none())),
        (EscapeState::Normal, InputAction::Send(b"\x1b[A".to_vec()))
    );
    assert_eq!(
        EscapeState::Normal.handle_key(key(KeyCode::Down, none())),
        (EscapeState::Normal, InputAction::Send(b"\x1b[B".to_vec()))
    );
    assert_eq!(
        EscapeState::Normal.handle_key(key(KeyCode::Left, none())),
        (EscapeState::Normal, InputAction::Send(b"\x1b[D".to_vec()))
    );
    assert_eq!(
        EscapeState::Normal.handle_key(key(KeyCode::Right, none())),
        (EscapeState::Normal, InputAction::Send(b"\x1b[C".to_vec()))
    );
}

#[test]
fn control_and_alt_keys_keep_terminal_encoding() {
    assert_eq!(
        EscapeState::Normal.handle_key(key(KeyCode::Char('a'), control())),
        (EscapeState::Normal, InputAction::Send(vec![1]))
    );
    assert_eq!(
        EscapeState::Normal.handle_key(key(KeyCode::Char('u'), control())),
        (EscapeState::Normal, InputAction::Send(vec![21]))
    );
    assert_eq!(
        EscapeState::Normal.handle_key(key(KeyCode::Char('b'), alt())),
        (EscapeState::Normal, InputAction::Send(b"\x1bb".to_vec()))
    );
}

#[test]
fn repeated_keys_are_forwarded() {
    let mut repeated = key(KeyCode::Char('x'), none());
    repeated.kind = KeyEventKind::Repeat;

    assert_eq!(
        EscapeState::Normal.handle_key(repeated),
        (EscapeState::Normal, InputAction::Send(b"x".to_vec()))
    );
}

#[test]
fn unknown_command_keys_pass_through_and_reset_state() {
    assert_eq!(
        EscapeState::AwaitingCommand.handle_key(key(KeyCode::Char('x'), none())),
        (EscapeState::Normal, InputAction::Send(b"x".to_vec()))
    );
}

#[test]
fn key_releases_do_not_change_escape_state() {
    let mut released = key(KeyCode::Char('t'), control());
    released.kind = KeyEventKind::Release;

    assert_eq!(
        EscapeState::Normal.handle_key(released),
        (EscapeState::Normal, InputAction::Ignore)
    );
}

#[test]
fn down_buffer_caps_growth() {
    let mut down = DownBuffer::new();
    let chunk = vec![b'x'; MAX_DOWN_BUFFER_BYTES + 32];

    down.push(&chunk);

    assert_eq!(down.bytes.len(), MAX_DOWN_BUFFER_BYTES);
    assert_eq!(down.writable().len(), MAX_DOWN_BUFFER_BYTES);

    down.consume(16);
    assert_eq!(down.bytes.len(), MAX_DOWN_BUFFER_BYTES - 16);
}

#[test]
fn characters_are_sent_as_utf8() {
    let mut bytes = vec![0x1b];
    push_char(&mut bytes, 'ż');
    assert_eq!(bytes, [&[0x1b], "ż".as_bytes()].concat());
    assert_eq!(
        EscapeState::Normal.handle_key(key(KeyCode::Tab, none())),
        (EscapeState::Normal, InputAction::Send(vec![b'\t']))
    );
    assert_eq!(
        EscapeState::Normal.handle_key(key(KeyCode::Other, none())),
        (EscapeState::Normal, InputAction::Ignore)
    );
    assert_eq!(
        EscapeState::Normal.handle_key(key(KeyCode::Char('Z'), control())),
        (EscapeState::Normal, InputAction::Send(vec![26]))
    );
    assert_eq!(
        EscapeState::Normal.handle_key(key(KeyCode::Char('1'), control())),
        (EscapeState::Normal, InputAction::Send(vec![b'1']))
    );
}

#[test]
fn buffers_report_what_they_drop() {
    let mut down = DownBuffer::new();
    assert!(down.is_empty());
    assert_eq!(down.push(b"abc"), 0);
    assert_eq!(down.len(), 3);
    assert_eq!(down.push(&vec![b'y'; MAX_DOWN_BUFFER_BYTES]), 3);
    assert_eq!(&down.writable()[..4], b"abcy");
    down.clear();
    assert!(down.is_empty());
}

#[test]
fn current_buffer_belongs_to_the_active_core() {
    let mut routes = DownRoutes::new(&[CoreId::new(4), CoreId::new(2)]);
    assert_eq!(routes.routable(), &[CoreId::new(2), CoreId::new(4)]);
    let _ = routes.current_mut().unwrap().push(b"direct");
    assert_eq!(routes.pending_len(CoreId::new(2)), 6);
    assert_eq!(routes.pending_len(CoreId::new(4)), 0);
    routes.clear_all();
    assert_eq!(routes.pending_len(CoreId::new(2)), 0);
    routes.set_routable(&[]);
    assert!(routes.current_mut().is_none());
}

#[test]
fn routing_follows_the_cores() {
    let down = Some(ChannelId::new(0));
    let first = CoreId::new(0);
    let second = CoreId::new(1);
    let mut routing = DownRouting::new();

    // Without a down channel the keyboard is in use, but goes nowhere.
    let changes = routing
        .reconcile(&[], &[], false, down, false, true)
        .unwrap();
    assert!(routing.is_enabled());
    assert_eq!(routing.target(), None);
    assert_eq!(changes.outage, None);
    assert_eq!(routing.queue(b"lost"), 0);
    assert_eq!(
        routing.handle_key(key(KeyCode::Char('t'), control())),
        InputAction::Ignore
    );
    assert_eq!(
        routing.handle_key(key(KeyCode::Char('q'), none())),
        InputAction::Command(SessionCommand::Quit)
    );

    // The first core that can take input is asked for a prompt.
    let changes = routing
        .reconcile(&[first, second], &[], true, down, false, true)
        .unwrap();
    assert_eq!(changes.switched, None);
    assert_eq!(routing.target(), Some(first));
    assert_eq!(
        routing.flush_pending(None).map(|(core, bytes)| (core, bytes.to_vec())),
        Some((first, b"\n".to_vec()))
    );
    assert!(routing.consume(first, 1));
    assert!(!routing.consume(first, 1));

    assert_eq!(routing.cycle(), Some((first, second)));
    assert_eq!(routing.queue(b"typed"), 0);
    assert_eq!(routing.clear_core(second), 5);
    routing.clear_all();

    let changes = routing
        .reconcile(&[first], &[second], true, down, false, true)
        .unwrap();
    assert_eq!(
        changes.switched,
        Some(RoutingEvent::Switched {
            previous: second,
            target: first
        })
    );
    let changes = routing
        .reconcile(&[], &[], false, down, false, true)
        .unwrap();
    assert_eq!(changes.outage, Some(Outage::Temporary));
    let changes = routing
        .reconcile(&[first], &[], false, down, false, true)
        .unwrap();
    assert_eq!(changes.outage, None);
    let changes = routing.reconcile(&[], &[], true, down, false, true).unwrap();
    assert_eq!(changes.outage, Some(Outage::AllCores));
}

#[test]
fn missing_channels_are_reported_once() {
    let down = Some(ChannelId::new(1));
    let has = CoreId::new(0);
    let lacks = CoreId::new(3);
    let mut routing = DownRouting::new();
    let changes = routing
        .reconcile(&[has], &[lacks], true, down, true, false)
        .unwrap();
    assert_eq!(changes.newly_missing, vec![lacks]);
    assert!(!routing.is_enabled());
    assert!(routing.flush_pending(None).is_none());
    assert_eq!(routing.cycle(), None);
    let changes = routing
        .reconcile(&[has], &[lacks], true, down, true, false)
        .unwrap();
    assert!(changes.newly_missing.is_empty());
}

#[test]
fn turns_lead_to_every_core_and_back() {
    let cores = [CoreId::new(5), CoreId::new(1), CoreId::new(3)];
    let mut routing = DownRouting::new();
    let channel = Some(ChannelId::new(0));
    routing.reconcile(&cores, &[], true, channel, false, true).unwrap();
    let mut seen = Vec::new();
    for _ in 0..cores.len() {
        seen.push(routing.target().unwrap().value());
        let (previous, target) = routing.cycle().unwrap();
        assert_eq!(previous.value(), *seen.last().unwrap());
        assert_eq!(routing.target(), Some(target));
    }
    assert_eq!(seen, vec![1, 3, 5]);
    assert_eq!(routing.target(), Some(CoreId::new(1)));
    assert_eq!(
        next_routable(&[cores[0], cores[1], cores[0]], cores[0]),
        cores[1]
    );
}

#[test]
fn nothing_typed_without_a_core_is_written_later() {
    let mut routing = DownRouting::new();
    let channel = Some(ChannelId::new(0));
    let core = CoreId::new(0);
    routing.reconcile(&[], &[], false, channel, false, true).unwrap();
    assert_eq!(routing.target(), None);
    routing.queue(b"lost");
    assert!(routing.flush_pending(None).is_none());
    routing.reconcile(&[core], &[], true, channel, false, true).unwrap();
    assert_eq!(routing.flush_pending(None), Some((core, b"\n".as_slice())));
}
