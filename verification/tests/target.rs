use brtt::channel::{ChannelId, CoreId};
use brtt::cli::{ChannelEncoding, ChannelSpec, ColorMode, SessionPolicy};
use brtt::rtt::{AddressRange, MemoryRegion, RttDiscovery, RttErrorKind, ScanEvent, ScanRegion};
use brtt::target::{
    classify_attach_error, ensure_rtt_compatible_target, reset_device, reset_initiator, validate_up_specs,
    AttachEvent, AttachRequest, AttachmentLoss, ChannelRead, CheckStep, CoreEvent, CoreSlot,
    CoreSlots, DownWrite, Expectation, MaintainAction, MaintainCursor, MetadataCheck,
    MetadataEntry, PollOutcome, PollRun, PollStats, Reading, SlotAttach, SlotPoll, Startup, TargetIo, WriteOutcome, RTT_RETRY_INTERVAL,
};

fn policy(up_specs: Vec<ChannelSpec>, down: Option<usize>) -> SessionPolicy {
    SessionPolicy {
        probe: String::new(),
        chip: String::new(),
        up_specs,
        down_channel: down.map(ChannelId::new),
        down_explicit: false,
        poll_interval: 10,
        timestamps: false,
        color: ColorMode::Never,
        log: None,
    }
}

fn terminal(core: Option<u32>, index: u32) -> ChannelSpec {
    ChannelSpec {
        core,
        index,
        mode: ChannelEncoding::Terminal,
    }
}

fn io(id: CoreId) -> TargetIo<'static> {
    TargetIo::new(
        0x2000_0000,
        id,
        None,
        &policy(vec![terminal(None, 0)], Some(0)),
        &[0],
        &[0],
    )
    .ok()
    .unwrap()
}

fn begin(single_attempt: bool) -> AttachEvent<'static> {
    AttachEvent::Begin {
        single_attempt,
        core_count: 2,
        target: "chip".to_string(),
    }
}

fn open() -> AttachEvent<'static> {
    AttachEvent::CoreOpen {
        is_64_bit: false,
        memory: vec![MemoryRegion {
            range: AddressRange { start: 0, end: 64 },
            is_ram: true,
            is_alias: false,
        }],
    }
}

fn attach(slot: &mut CoreSlot<'static>) {
    let discovery = RttDiscovery::Fixed(ScanRegion::Exact(0x2000_0000));
    assert!(matches!(
        slot.try_attach(
            &discovery,
            AttachEvent::Begin {
                single_attempt: true,
                core_count: 8,
                target: "chip".to_string()
            }
        ),
        AttachRequest::OpenCore
    ));
    assert!(matches!(
        slot.try_attach(&discovery, open()),
        AttachRequest::AttachDirectly
    ));
    assert!(matches!(
        slot.try_attach(
            &discovery,
            AttachEvent::Found {
                rtt_ptr: 0x2000_0000
            }
        ),
        AttachRequest::Prepare {
            rtt_ptr: 0x2000_0000
        }
    ));
    let id = slot.id;
    assert!(matches!(
        slot.try_attach(&discovery, AttachEvent::Prepared(io(id))),
        AttachRequest::Done(SlotAttach::Attached { .. })
    ));
}

#[test]
fn polls_read_channels_in_turn() {
    let mut run = PollRun::new(3, 2);
    let mut order = Vec::new();
    while let Some(ChannelRead { reader, max }) = run.next() {
        order.push(reader);
        // Channel 1 has one chunk, the others are silent.
        let count = if reader == 1 && order.len() <= 3 { max } else { 0 };
        run.report(count, true);
    }
    assert_eq!(order, vec![2, 0, 1, 2, 0, 1]);
    assert_eq!(run.bytes, 4096);
    assert_eq!(run.messages, 1);
}

#[test]
fn polls_stop_at_their_budget() {
    let mut run = PollRun::new(1, 0);
    let mut reads = 0;
    while let Some(read) = run.next() {
        reads += 1;
        run.report(read.max, false);
    }
    assert_eq!(reads, 16);
    assert_eq!(run.bytes, 64 * 1024);
    assert_eq!(run.messages, 0);
    assert!(PollRun::new(0, 0).next().is_none());
}

#[test]
fn poll_start_moves_on() {
    let specs = vec![terminal(None, 0), terminal(None, 1), terminal(Some(9), 2)];
    let mut target = TargetIo::new(16, CoreId::new(0), None, &policy(specs, None), &[0, 1], &[])
        .ok()
        .unwrap();
    assert_eq!(target.readers.len(), 2);
    assert_eq!(target.poll().start, 0);
    assert_eq!(target.poll().start, 1);
    assert_eq!(target.poll().start, 0);
    assert!(target.write_down(b"x", &[0]).is_none());
}

#[test]
fn control_block_entries_are_located_and_compared() {
    let mut target = io(CoreId::new(0));
    assert!(target.down_present);
    assert_eq!(
        target.metadata_addresses(3),
        vec![0x2000_0000 + 24, 0x2000_0000 + 24 + 3 * 24]
    );
    target.remember(
        (3, 1),
        vec![MetadataEntry {
            address: 0x2000_0018,
            fields: (1, 2, 3),
        }],
    );
    let snapshot = &target.snapshot;
    assert_eq!(
        snapshot.metadata_valid(0),
        Some(Expectation::Magic {
            address: 0x2000_0000
        })
    );
    assert_eq!(
        snapshot.metadata_valid(1),
        Some(Expectation::Counts {
            address: 0x2000_0010,
            words: (3, 1)
        })
    );
    let fields = snapshot.metadata_valid(2).unwrap();
    assert!(fields.met_by(&Reading::Three((1, 2, 3))));
    assert!(!fields.met_by(&Reading::Three((1, 2, 4))));
    assert!(!fields.met_by(&Reading::Two((1, 2))));
    assert_eq!(snapshot.metadata_valid(3), None);
    let magic = snapshot.metadata_valid(0).unwrap();
    assert!(magic.met_by(&Reading::Bytes(b"SEGGER RTT\0\0\0\0\0\0".to_vec())));
    assert!(!magic.met_by(&Reading::Bytes(b"SEGGER RTT".to_vec())));
    let run = |readings: &[Reading]| {
        let mut check = MetadataCheck::new();
        for reading in readings {
            check.report(snapshot, reading);
        }
        check.next(snapshot)
    };
    let id = || Reading::Bytes(b"SEGGER RTT\0\0\0\0\0\0".to_vec());
    assert_eq!(run(&[]), CheckStep::Read(magic));
    assert_eq!(
        run(&[id(), Reading::Two((3, 1))]),
        CheckStep::Read(fields)
    );
    assert_eq!(
        run(&[id(), Reading::Two((3, 1)), Reading::Three((1, 2, 3))]),
        CheckStep::Valid
    );
    assert_eq!(
        run(&[id(), Reading::Two((3, 2)), Reading::Three((1, 2, 3))]),
        CheckStep::Changed
    );
    assert_eq!(
        run(&[id(), Reading::Two((3, 1)), Reading::Three((1, 2, 4))]),
        CheckStep::Changed
    );
    assert_eq!(target.write_down(b"x", &[4, 0]), Some(1));
    assert_eq!(target.write_down(b"", &[0]), None);
    target.refresh_down(&[1]);
    assert!(!target.down_present);
}

#[test]
fn missing_up_channels_are_an_error() {
    let specs = [terminal(None, 0), terminal(Some(1), 5)];
    assert_eq!(validate_up_specs(&[0], &specs, CoreId::new(0)), Ok(()));
    assert_eq!(
        validate_up_specs(&[0], &specs, CoreId::new(1)),
        Err("up channel 5 does not exist on core 1.".to_string())
    );
}

#[test]
fn attachments_are_made_and_recovered() {
    let mut slot = CoreSlot::new(CoreId::new(0), 0);
    assert!(slot.is_due(0));
    assert_eq!(slot.poll(PollOutcome::Changed, 0), SlotPoll::Idle);
    attach(&mut slot);
    assert!(slot.is_attached());
    assert!(!slot.is_due(u64::MAX));
    assert_eq!(slot.rtt_ptr(), Some(0x2000_0000));
    assert!(slot.down_present());
    let discovery = RttDiscovery::Fixed(ScanRegion::Exact(0x2000_0000));
    assert!(matches!(
        slot.try_attach(&discovery, begin(false)),
        AttachRequest::Done(SlotAttach::AlreadyAttached)
    ));

    let stats = PollStats {
        bytes: 3,
        messages: 1,
    };
    assert_eq!(slot.poll(PollOutcome::Data(stats), 5), SlotPoll::Data(stats));
    assert_eq!(
        slot.poll(PollOutcome::Failed(RttErrorKind::ReadPointerChanged), 5),
        SlotPoll::Lost(AttachmentLoss::MetadataChanged)
    );
    assert!(!slot.is_attached());
    assert!(!slot.is_due(5 + RTT_RETRY_INTERVAL - 1));
    assert!(slot.is_due(5 + RTT_RETRY_INTERVAL));
    let recovered = {
        let discovery = RttDiscovery::Fixed(ScanRegion::Exact(0x2000_0000));
        slot.try_attach(&discovery, begin(true));
        slot.try_attach(&discovery, open());
        slot.try_attach(&discovery, AttachEvent::Found { rtt_ptr: 16 });
        slot.try_attach(&discovery, AttachEvent::Prepared(io(CoreId::new(0))))
    };
    assert!(matches!(
        recovered,
        AttachRequest::Done(SlotAttach::Attached { recovered: true })
    ));
}

#[test]
fn polls_that_fail_lose_the_attachment() {
    for (outcome, reason) in [
        (
            PollOutcome::CoreUnavailable,
            AttachmentLoss::TransportUnavailable,
        ),
        (
            PollOutcome::Failed(RttErrorKind::Probe),
            AttachmentLoss::TransportUnavailable,
        ),
        (PollOutcome::Changed, AttachmentLoss::MetadataChanged),
    ] {
        let mut slot = CoreSlot::new(CoreId::new(0), 0);
        attach(&mut slot);
        assert_eq!(slot.poll(outcome, 0), SlotPoll::Lost(reason));
    }
}

#[test]
fn writes_that_fail_lose_the_attachment() {
    let id = CoreId::new(0);
    let mut slots = CoreSlots::build(&[id], &policy(vec![terminal(None, 0)], Some(0)), 0)
        .ok()
        .unwrap();
    assert_eq!(
        slots.write_down(id, WriteOutcome::Written(4), 0),
        DownWrite {
            count: 0,
            event: None
        }
    );
    attach(&mut slots.slots[0]);
    assert_eq!(
        slots.write_down(id, WriteOutcome::Written(4), 0),
        DownWrite {
            count: 4,
            event: None
        }
    );
    assert_eq!(
        slots.write_down(CoreId::new(7), WriteOutcome::Changed, 0),
        DownWrite {
            count: 0,
            event: None
        }
    );
    assert_eq!(
        slots.write_down(id, WriteOutcome::Changed, 0),
        DownWrite {
            count: 0,
            event: Some(CoreEvent::AttachmentLost {
                id,
                reason: AttachmentLoss::MetadataChanged
            })
        }
    );
}

#[test]
fn scanning_attempts_do_bounded_work() {
    let discovery = RttDiscovery::Incremental(ScanRegion::Ram);
    let mut slot = CoreSlot::new(CoreId::new(1), 0);
    assert!(matches!(
        slot.try_attach(&discovery, begin(true)),
        AttachRequest::OpenCore
    ));
    assert!(matches!(
        slot.try_attach(&discovery, open()),
        AttachRequest::Read {
            address: 0,
            len: 64
        }
    ));
    let mut data = vec![0u8; 64];
    data[8..24].copy_from_slice(b"SEGGER RTT\0\0\0\0\0\0");
    assert!(matches!(
        slot.try_attach(&discovery, AttachEvent::Scan(ScanEvent::Data(data))),
        AttachRequest::AttachAt { address: 8 }
    ));
    match slot.try_attach(&discovery, AttachEvent::Scan(ScanEvent::Rejected)) {
        AttachRequest::Done(SlotAttach::Retryable(reason)) => {
            let text = "RTT control block not found in target memory.\n- Make sure RTT is initialized on the target, AND that there are NO target breakpoints before RTT initialization.\n- For VSCode and probe-rs-debugger users, using `halt_after_reset:true` in your `launch.json` file will prevent RTT\ninitialization from happening on time.\n- Depending on the target, sleep modes can interfere with RTT.";
            assert_eq!(text, probe_rs::rtt::Error::ControlBlockNotFound.to_string());
            assert_eq!(reason, format!("core 1 RTT unavailable ({text})"));
        }
        _ => panic!("scan of all memory did not end the attempt"),
    }
    assert!(slot.scan.is_none());

    // A failure while attaching ends the scan.
    slot.try_attach(&discovery, begin(true));
    slot.try_attach(&discovery, open());
    assert!(matches!(
        slot.try_attach(
            &discovery,
            AttachEvent::Refused {
                kind: RttErrorKind::Probe,
                error: "gone".to_string()
            }
        ),
        AttachRequest::Done(SlotAttach::Retryable(reason)) if reason == "core 1 attach transport error (gone)"
    ));
}

#[test]
fn scanning_needs_memory() {
    let discovery = RttDiscovery::Incremental(ScanRegion::Ram);
    let mut slot = CoreSlot::new(CoreId::new(1), 0);
    slot.try_attach(&discovery, begin(true));
    let request = slot.try_attach(
        &discovery,
        AttachEvent::CoreOpen {
            is_64_bit: false,
            memory: Vec::new(),
        },
    );
    let text = "There is no control block location given. This usually means RTT is not present in the\nfirmware.";
    assert_eq!(text, probe_rs::rtt::Error::NoControlBlockLocation.to_string());
    assert!(
        matches!(request, AttachRequest::Done(SlotAttach::Fatal(error)) if error == format!("core 1: {text}"))
    );
}

#[test]
fn attempts_say_why_they_failed() {
    let discovery = RttDiscovery::Incremental(ScanRegion::Ram);
    let mut slot = CoreSlot::new(CoreId::new(2), 0);
    assert!(matches!(
        slot.try_attach(&discovery, begin(false)),
        AttachRequest::Done(SlotAttach::Fatal(error))
            if error == "--elf index 2 out of range: target 'chip' has 2 core(s)"
    ));
    let mut slot = CoreSlot::new(CoreId::new(1), 0);
    slot.try_attach(&discovery, begin(false));
    assert!(matches!(
        slot.try_attach(&discovery, AttachEvent::CoreUnavailable { error: "off".to_string() }),
        AttachRequest::Done(SlotAttach::Retryable(reason)) if reason == "core 1 unavailable (off)"
    ));
    slot.try_attach(&discovery, begin(false));
    assert!(matches!(
        slot.try_attach(&discovery, AttachEvent::CoreOpen { is_64_bit: true, memory: Vec::new() }),
        AttachRequest::Done(SlotAttach::Fatal(error)) if error.starts_with("64-bit targets")
    ));
    slot.try_attach(&discovery, begin(false));
    slot.try_attach(&discovery, open());
    slot.try_attach(&discovery, AttachEvent::Found { rtt_ptr: 16 });
    assert!(matches!(
        slot.try_attach(&discovery, AttachEvent::CoreUnavailable { error: "off".to_string() }),
        AttachRequest::Done(SlotAttach::Retryable(reason))
            if reason == "core 1 unavailable after RTT discovery (off)"
    ));
    slot.try_attach(&discovery, begin(false));
    slot.try_attach(&discovery, open());
    slot.try_attach(&discovery, AttachEvent::Found { rtt_ptr: 16 });
    assert!(matches!(
        slot.try_attach(&discovery, AttachEvent::SnapshotFailed { error: "e".to_string() }),
        AttachRequest::Done(SlotAttach::Retryable(reason))
            if reason == "core 1 RTT metadata snapshot unavailable (e)"
    ));
    slot.try_attach(&discovery, begin(false));
    assert!(matches!(
        slot.try_attach(&discovery, AttachEvent::Aborted { error: "stop".to_string() }),
        AttachRequest::Done(SlotAttach::Fatal(error)) if error == "stop"
    ));
}

#[test]
fn errors_of_the_probe_library_are_classified() {
    let id = CoreId::new(3);
    assert!(matches!(
        classify_attach_error(id, RttErrorKind::ControlBlockCorrupted, "x"),
        SlotAttach::Retryable(reason) if reason == "core 3 RTT unavailable (x)"
    ));
    assert!(matches!(
        classify_attach_error(id, RttErrorKind::MemoryRead, "x"),
        SlotAttach::Retryable(_)
    ));
    assert!(matches!(
        classify_attach_error(id, RttErrorKind::MultipleControlBlocks, "x"),
        SlotAttach::Fatal(error) if error == "core 3: error attaching to RTT (x)"
    ));
    assert!(ensure_rtt_compatible_target(true).is_err());
    assert_eq!(ensure_rtt_compatible_target(false), Ok(()));
}

#[test]
fn startup_counts_cores_and_reasons() {
    let mut startup = Startup::new();
    let id = CoreId::new(0);
    assert_eq!(
        startup.attach_all(id, SlotAttach::Retryable("first".to_string())),
        Ok(true)
    );
    assert_eq!(
        startup.attach_all(CoreId::new(1), SlotAttach::ScanInProgress),
        Ok(false)
    );
    assert!(startup.has_pending());
    assert_eq!(startup.attached_count(), 0);
    assert_eq!(
        startup.error(),
        "no RTT targets could be opened (first; core 1 RTT scan in progress); ensure the cores are running and the ELF addresses match the firmware"
    );
    assert_eq!(
        startup.attach_all(id, SlotAttach::Attached { recovered: false }),
        Ok(false)
    );
    assert_eq!(startup.attached_count(), 1);
    assert_eq!(
        startup.attach_all(id, SlotAttach::Fatal("bad".to_string())),
        Err("core 0 failed to attach: bad".to_string())
    );
}

#[test]
fn attached_cores_are_maintained_first() {
    let ids = [CoreId::new(4), CoreId::new(2), CoreId::new(3)];
    let mut slots = CoreSlots::build(&ids, &policy(vec![terminal(None, 0)], Some(0)), 10)
        .ok()
        .unwrap();
    attach(&mut slots.slots[1]);
    assert_eq!(
        slots.maintain(MaintainCursor::Polling(0), 10),
        MaintainAction::Poll(1)
    );
    assert_eq!(
        slots.maintain(MaintainCursor::Polling(2), 10),
        MaintainAction::Attach(0)
    );
    assert_eq!(
        slots.maintain(MaintainCursor::Attaching(1), 10),
        MaintainAction::Attach(2)
    );
    assert_eq!(
        slots.maintain(MaintainCursor::Attaching(0), 9),
        MaintainAction::Done
    );
    assert_eq!(slots.ids(), ids.to_vec());
    assert!(!slots.all_attached());
    assert!(slots.is_attached(CoreId::new(2)));
    assert!(!slots.is_attached(CoreId::new(4)));
    assert_eq!(slots.routable_down(), vec![CoreId::new(2)]);
    assert!(slots.missing_down().is_empty());
    assert_eq!(
        slots.chip_reset(),
        vec![CoreId::new(2), CoreId::new(3), CoreId::new(4)]
    );
    assert_eq!(slots.rtt_ptrs(), vec![0x2000_0000]);
    assert_eq!(slots.find(CoreId::new(3)), Some(2));
    slots.after_reset(10);
    assert!(!slots.is_attached(CoreId::new(2)));
    assert!(slots.rtt_ptrs().is_empty());
}

#[test]
fn cores_without_use_are_left_alone() {
    let ids = [CoreId::new(0), CoreId::new(1)];
    let slots = CoreSlots::build(&ids, &policy(vec![terminal(Some(1), 0)], None), 0)
        .ok()
        .unwrap();
    assert_eq!(slots.ids(), vec![CoreId::new(1)]);
    assert_eq!(
        CoreSlots::build(&ids[..1], &policy(vec![terminal(Some(1), 0)], None), 0).err(),
        Some("no configured core selects any up channel and down input is disabled".to_string())
    );
}

#[test]
fn failed_resume_does_not_hide_a_failed_reset() {
    let id = CoreId::new(0);
    let failed = |text: &str| Err(text.to_string());
    assert_eq!(reset_device(id, Ok(()), Ok(())), Ok(()));
    assert_eq!(reset_device(id, failed("reset"), Ok(())), failed("reset"));
    assert_eq!(reset_device(id, Ok(()), failed("resume")), failed("resume"));
    assert_eq!(
        reset_device(id, failed("reset"), failed("resume")),
        failed("also failed to resume core 0: resume: reset")
    );
}

#[test]
fn lowest_core_that_answers_resets_the_target() {
    let order = [CoreId::new(1), CoreId::new(2)];
    assert_eq!(reset_initiator(&order, &[]), Ok(CoreId::new(1)));
    let failed = vec!["first".to_string()];
    assert_eq!(reset_initiator(&order, &failed), Ok(CoreId::new(2)));
    let failed = vec!["first".to_string(), "second".to_string()];
    assert_eq!(
        reset_initiator(&order, &failed),
        Err(
            "cannot reset target: no configured core is currently accessible: first".to_string()
        )
    );
    assert_eq!(
        reset_initiator(&[], &[]),
        Err("cannot reset target: no configured core is currently accessible".to_string())
    );
}

#[test]
fn attempts_of_a_running_session_are_settled() {
    let id = CoreId::new(0);
    let mut slots = CoreSlots::build(&[id], &policy(vec![terminal(None, 0)], None), 0)
        .ok()
        .unwrap();
    assert_eq!(
        slots.settle(0, SlotAttach::Attached { recovered: true }, 5),
        Ok(Some(CoreEvent::Attached {
            id,
            recovered: true
        }))
    );
    assert_eq!(slots.settle(0, SlotAttach::ScanInProgress, 5), Ok(None));
    assert!(slots.slots[0].is_due(5));
    assert_eq!(
        slots.settle(0, SlotAttach::Retryable("later".to_string()), 5),
        Ok(None)
    );
    assert!(!slots.slots[0].is_due(5));
    assert_eq!(
        slots.settle(0, SlotAttach::Fatal("bad".to_string()), 5),
        Err("bad".to_string())
    );
}
