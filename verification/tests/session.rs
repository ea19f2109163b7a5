use brtt::channel::{ChannelId, CoreChannel, CoreId};
use brtt::cli::{
    ChannelEncoding, ChannelSpec, ColorMode, LogConfig, LogDestination, LogFormat, SessionPolicy,
};
use brtt::defmt::ElfContents;
use brtt::input::{KeyCode, KeyEvent, KeyEventKind, KeyModifiers, SessionCommand};
use brtt::renderer::{ForegroundLine, HostOutput, Moment};
use brtt::rtt::{AddressRange, RttDiscovery, ScanRegion};
use brtt::session::{
    core_inputs, digest_result, load_all_elfs, resolve_scan_region, ChannelInfo, ChannelListing,
    ElfFile, Session, Signal,
};
use brtt::logger::{LogAction, LogTarget};
use brtt::target::{AttachmentLoss, CoreEvent, CoreSlots, UpChannelReader};

#[test]
fn scan_region_prefers_elf_symbol_then_explicit_then_default() {
    let target_default = ScanRegion::Exact(0x3000);

    let discovery = resolve_scan_region(
        Some(&ScanRegion::Exact(0x1000)),
        Some(&ScanRegion::Exact(0x2000)),
        &target_default,
    );
    assert!(matches!(
        discovery,
        RttDiscovery::Fixed(ScanRegion::Exact(0x1000))
    ));

    let discovery = resolve_scan_region(
        None,
        Some(&ScanRegion::Ranges(vec![AddressRange {
            start: 0x1000,
            end: 0x2000,
        }])),
        &target_default,
    );
    assert!(matches!(
        discovery,
        RttDiscovery::Fixed(ScanRegion::Ranges(_))
    ));

    let discovery = resolve_scan_region(None, None, &target_default);
    assert!(matches!(
        discovery,
        RttDiscovery::Incremental(ScanRegion::Exact(0x3000))
    ));
}

#[test]
fn cleanup_error_never_masks_the_primary_error() {
    let error = digest_result(
        Err("loop failed".to_string()),
        Err("flush failed".to_string()),
    )
    .unwrap_err()
    .to_string();
    assert!(error.contains("loop failed"), "{error}");
    assert!(error.contains("flush failed"), "{error}");

    let error = digest_result(Ok(()), Err("flush failed".to_string())).unwrap_err();
    assert_eq!(error.to_string(), "flush failed");
}

#[test]
fn core_inputs_sort_elfs_and_supply_default_core() {
    let inputs = core_inputs(vec![
        (
            2,
            ElfContents {
                region: Some(ScanRegion::Exact(0x2000)),
                defmt: None,
            },
        ),
        (
            1,
            ElfContents {
                region: Some(ScanRegion::Exact(0x1000)),
                defmt: None,
            },
        ),
    ]);
    assert_eq!(
        inputs.iter().map(|input| input.id).collect::<Vec<_>>(),
        vec![CoreId::new(1), CoreId::new(2)]
    );

    let default = core_inputs(Vec::new());
    assert_eq!(default.len(), 1);
    assert_eq!(default[0].id, CoreId::new(0));
    assert!(default[0].elf_region.is_none());

    let without_symbol = core_inputs(vec![(
        3,
        ElfContents {
            region: None,
            defmt: None,
        },
    )]);
    assert!(matches!(
        resolve_scan_region(
            without_symbol[0].elf_region.as_ref(),
            Some(&ScanRegion::Exact(0x4000)),
            &ScanRegion::Exact(0x5000)
        ),
        RttDiscovery::Fixed(ScanRegion::Exact(0x4000))
    ));
}

fn moment() -> Moment {
    Moment::new(0, 0).unwrap()
}

fn policy() -> SessionPolicy {
    SessionPolicy {
        probe: "probe".to_string(),
        chip: "chip".to_string(),
        up_specs: vec![ChannelSpec {
            core: None,
            index: 0,
            mode: ChannelEncoding::Terminal,
        }],
        down_channel: Some(ChannelId::new(0)),
        down_explicit: false,
        poll_interval: 10,
        timestamps: false,
        color: ColorMode::Never,
        log: None,
    }
}

fn session(ids: &[CoreId]) -> Session {
    let host = HostOutput {
        is_terminal: true,
        no_color: false,
    };
    Session::new(ids, policy(), None, host, 0, 0).unwrap()
}

fn press(character: char, control: bool) -> KeyEvent {
    KeyEvent {
        code: KeyCode::Char(character),
        modifiers: KeyModifiers {
            control,
            ..KeyModifiers::none()
        },
        kind: KeyEventKind::Press,
    }
}

#[test]
fn listing_names_cores_and_channels() {
    let mut listing = ChannelListing::new(&[CoreId::new(1)]);
    let up = [ChannelInfo {
        number: 0,
        name: Some("Terminal".to_string()),
        buffer_size: 1024,
    }];
    assert_eq!(
        listing.list_channels(CoreId::new(1), &up, &[]),
        "Core 1:\nUp channels:\n  0: Terminal (buffer size 1024)\nDown channels:\n  (none)\n"
    );
    assert_eq!(listing.finish(), Ok(()));

    let mut listing = ChannelListing::new(&[CoreId::new(0)]);
    listing.skip("core 0 gone".to_string());
    listing.skip("still gone".to_string());
    assert_eq!(
        listing.finish(),
        Err("no RTT targets could be listed (core 0 gone; still gone); ensure the cores are running and the ELF addresses match the firmware".to_string())
    );
    let unnamed = [ChannelInfo {
        number: 2,
        name: None,
        buffer_size: 16,
    }];
    assert_eq!(
        listing.list_channels(CoreId::new(0), &[], &unnamed),
        "Up channels:\n  (none)\nDown channels:\n  2: (no name) (buffer size 16)\n"
    );
}

#[test]
fn unreadable_elf_is_an_error() {
    let error = load_all_elfs(
        &[ElfFile {
            core: 0,
            path: "gone.elf".to_string(),
            bytes: Err("no such file".to_string()),
        }],
        &[],
    )
    .err()
    .unwrap();
    assert_eq!(error.failure, "failed to read ELF 'gone.elf'");
    assert_eq!(error.cause.as_deref(), Some("no such file"));
    assert!(load_all_elfs(&[], &[]).ok().unwrap().is_empty());
}

#[test]
fn keys_run_commands_and_bring_the_prompt_back() {
    let core = CoreId::new(0);
    let mut session = session(&[core]);
    let slots = CoreSlots::build(&[core], &session.policy, 0).unwrap();
    session.refresh_down_routes(&slots, true, moment()).unwrap();
    let source = CoreChannel {
        core,
        channel: ChannelId::new(0),
    };
    session.renderer.state.set_foreground(ForegroundLine {
        channel: source,
        rendered: b"> ".to_vec(),
    });
    assert_eq!(
        session.handle_key(press('t', true), &slots, moment()),
        Signal::Continue
    );
    assert_eq!(
        session.handle_key(press('t', false), &slots, moment()),
        Signal::Continue
    );
    assert_eq!(
        session.renderer.output,
        b"\r\x1b[2K\x1b[0m\r\nTimestamps: on\r\n[1970-01-01 00:00:00.000] > "
    );
    assert_eq!(
        session.renderer.state.foreground().unwrap().rendered,
        b"> "
    );

    session.renderer.output.clear();
    session.renderer.state.timestamps = false;
    assert_eq!(
        session.dispatch_command(SessionCommand::ClearScreen, &slots, moment()),
        Signal::Continue
    );
    assert_eq!(
        session.renderer.output,
        b"\r\x1b[2K\x1b[0m\x1b[2J\x1b[1;1H> "
    );
    // Cycling without another core leaves the prompt in place.
    session.renderer.output.clear();
    assert_eq!(
        session.dispatch_command(SessionCommand::CycleDownCore, &slots, moment()),
        Signal::Continue
    );
    assert_eq!(session.renderer.output, b"\r\x1b[2K\x1b[0m> ");
    assert_eq!(
        session.dispatch_command(SessionCommand::Quit, &slots, moment()),
        Signal::Quit
    );
    assert_eq!(
        session.dispatch_command(SessionCommand::ResetTarget, &slots, moment()),
        Signal::ResetTarget
    );
    session.renderer.output.clear();
    session.target_was_reset(&slots, true, moment()).unwrap();
    assert_eq!(session.renderer.output, b"\r\nTarget reset.\r\n");
    assert!(session.renderer.state.foreground().is_none());
}

#[test]
fn configuration_shows_session_settings() {
    let core = CoreId::new(0);
    let mut session = session(&[core]);
    let slots = CoreSlots::build(&[core], &session.policy, 0).unwrap();
    session.show_banner("1.2.3");
    assert_eq!(
        session.renderer.output,
        b"brtt 1.2.3\r\nPress ctrl-t ? for help\r\nConnected to target\r\n"
    );
    session.renderer.output.clear();
    session.dispatch_command(SessionCommand::ShowConfig, &slots, moment());
    assert_eq!(
        String::from_utf8(session.renderer.output.clone()).unwrap(),
        "\r\nConfiguration:\r\n  Probe: probe\r\n  Chip: chip\r\n  Core 0: up 0:terminal\r\n  Down channel: 0\r\n  Down target: none\r\n  Poll interval: 10 ms\r\n  Timestamps: off\r\n"
    );
    session.renderer.output.clear();
    session.dispatch_command(SessionCommand::Help, &slots, moment());
    assert!(session
        .renderer
        .output
        .starts_with(b"\r\nCtrl-T commands:\r\n  q  Quit\r\n"));
}

#[test]
fn core_events_reset_what_is_known_of_the_core() {
    let core = CoreId::new(1);
    let mut session = session(&[CoreId::new(0), core]);
    session.handle_core_event(
        CoreEvent::Attached {
            id: core,
            recovered: true,
        },
        moment(),
    );
    assert_eq!(
        session.renderer.output,
        b"\r\nRTT control block changed; reattached to core 1.\r\n"
    );
    session.renderer.output.clear();
    assert_eq!(
        session.handle_core_event(
            CoreEvent::AttachmentLost {
                id: core,
                reason: AttachmentLoss::TransportUnavailable,
            },
            moment(),
        ),
        0
    );
    assert!(session.renderer.output.is_empty());
}

#[test]
fn data_is_flushed_and_asked_for_again_at_once() {
    let mut session = redirected(LogFormat::Decoded);
    let mut flushes = |bytes: usize, messages: usize| {
        session.renderer.logger.as_mut().unwrap().take_actions();
        let timeout = session.finish_poll(bytes, messages);
        let actions = session.renderer.logger.as_mut().unwrap().take_actions();
        (timeout, matches!(actions.as_slice(), [LogAction::Flush]))
    };
    assert_eq!(flushes(0, 0), (10, false));
    assert_eq!(flushes(1, 0), (0, true));
    assert_eq!(flushes(0, 1), (0, true));
    assert_eq!(session.wait_for_key(false), 10);
    assert_eq!(session.wait_for_key(true), 0);
}

fn reader() -> UpChannelReader<'static> {
    let spec = ChannelSpec {
        core: None,
        index: 0,
        mode: ChannelEncoding::Terminal,
    };
    UpChannelReader::new(spec, CoreId::new(0), None).ok().unwrap()
}

fn logged(session: &mut Session) -> Vec<u8> {
    let mut bytes = Vec::new();
    for action in session.renderer.logger.as_mut().unwrap().take_actions() {
        if let LogAction::Append { bytes: more, .. } = action {
            bytes.extend(more);
        }
    }
    bytes
}

fn redirected(format: LogFormat) -> Session {
    let host = HostOutput {
        is_terminal: false,
        no_color: false,
    };
    let config = SessionPolicy {
        log: Some(LogConfig {
            destination: LogDestination::Merged(b"out.log".to_vec()),
            format,
        }),
        ..policy()
    };
    Session::new(&[CoreId::new(0)], config, None, host, 0, 0).unwrap()
}

#[test]
fn reads_are_shown_and_logged_alike() {
    let mut session = redirected(LogFormat::Decoded);
    let mut reader = reader();
    assert!(!session.handle_read(&mut reader, b"\x1b[32mone\x1b[0m\ntw", moment()));
    assert!(!session.handle_read(&mut reader, b"", moment()));
    assert!(!session.handle_read(&mut reader, b"o\n", moment()));
    assert_eq!(session.renderer.output, b"one\ntwo\n");
    assert_eq!(logged(&mut session), b"one\ntwo\n");
}

#[test]
fn labelled_output_and_log_hold_the_same_lines() {
    let host = HostOutput {
        is_terminal: false,
        no_color: true,
    };
    let config = SessionPolicy {
        log: Some(LogConfig {
            destination: LogDestination::Merged(b"out.log".to_vec()),
            format: LogFormat::Decoded,
        }),
        ..policy()
    };
    let ids = [CoreId::new(0), CoreId::new(1)];
    let mut session = Session::new(&ids, config, None, host, 0, 0).unwrap();
    session.handle_read(&mut reader(), b"\x1b[1mone\x1b[0m\n\ntwo\n", moment());
    assert_eq!(
        String::from_utf8(session.renderer.output.clone()).unwrap(),
        "[c0:ch0] one\n\n[c0:ch0] two\n"
    );
    assert_eq!(
        String::from_utf8(logged(&mut session)).unwrap(),
        "[c0:ch0] one\n[c0:ch0] \n[c0:ch0] two\n"
    );
}

#[test]
fn raw_log_gets_the_bytes_that_were_read() {
    let mut session = redirected(LogFormat::Raw);
    let mut reader = reader();
    session.handle_read(&mut reader, b"\x1b[32mone\r", moment());
    session.handle_read(&mut reader, b"\n", moment());
    assert_eq!(logged(&mut session), b"\x1b[32mone\r\n");
    assert_eq!(session.renderer.output, b"one\n");
}

#[test]
fn labels_appear_with_several_sources() {
    let host = HostOutput {
        is_terminal: false,
        no_color: false,
    };
    let ids = [CoreId::new(0), CoreId::new(1)];
    let mut session = Session::new(&ids, policy(), None, host, 0, 0).unwrap();
    session.handle_read(&mut reader(), b"hi\n", moment());
    assert_eq!(session.renderer.output, b"[c0:ch0] hi\n");

    let config = SessionPolicy {
        log: Some(LogConfig {
            destination: LogDestination::Merged(b"out.log".to_vec()),
            format: LogFormat::Raw,
        }),
        ..policy()
    };
    let error = Session::new(&ids, config, None, host, 0, 0).err().unwrap();
    assert_eq!(
        error.message(),
        "--log-format raw with multiple up channels requires --log-per-channel"
    );
    let mut session = redirected(LogFormat::Decoded);
    let opened = session.renderer.logger.as_mut().unwrap().take_actions();
    assert!(matches!(
        opened.as_slice(),
        [LogAction::Open(LogTarget::Merged)]
    ));
}
