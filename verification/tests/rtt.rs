use brtt::rtt::{
    attach_region_incremental, skip_unreadable, try_attach_to_rtt_incremental, AddressRange,
    AttachPlan, AttachRetry, IncrementalScan, MemoryRegion, RegionAttempt, RttDiscovery,
    RttErrorKind, ScanAction, ScanEvent, ScanRegion, MIN_SCAN_CHUNK_SIZE, RTT_MAGIC,
    RTT_MAGIC_OVERLAP, SCAN_CHUNK_SIZE,
};

fn ram(start: u64, end: u64) -> MemoryRegion {
    MemoryRegion {
        range: AddressRange { start, end },
        is_ram: true,
        is_alias: false,
    }
}

/// Runs a scan over `memory`, which begins at address 0, and collects the
/// addresses it proposes; all of them are rejected.
fn candidates(scan: &mut IncrementalScan, memory: &[u8]) -> Vec<u64> {
    let mut found = Vec::new();
    let mut action = scan.step(ScanEvent::Resume {
        max_chunks: usize::MAX,
    });
    loop {
        action = match action {
            ScanAction::Read { address, len } => scan.step(ScanEvent::Data(
                memory[address as usize..address as usize + len].to_vec(),
            )),
            ScanAction::Attach { address } => {
                found.push(address);
                scan.step(ScanEvent::Rejected)
            }
            ScanAction::Pause => panic!("unlimited scan paused"),
            ScanAction::NotFound => return found,
        };
    }
}

#[test]
fn magic_is_that_of_the_probe_library() {
    assert_eq!(RTT_MAGIC.as_bytes(), &probe_rs::rtt::Rtt::RTT_ID);
    assert_eq!(RTT_MAGIC_OVERLAP + 1, probe_rs::rtt::Rtt::RTT_ID.len());
}

#[test]
fn every_control_block_is_proposed() {
    let mut memory = vec![0u8; 3 * SCAN_CHUNK_SIZE];
    let places = [
        0,
        100,
        116,
        SCAN_CHUNK_SIZE - 16,
        2 * SCAN_CHUNK_SIZE - 7,
        3 * SCAN_CHUNK_SIZE - 16,
    ];
    for place in places {
        memory[place..place + 16].copy_from_slice(RTT_MAGIC.as_bytes());
    }
    let region = ScanRegion::Ranges(vec![AddressRange {
        start: 0,
        end: memory.len() as u64,
    }]);
    let mut scan = IncrementalScan::new(&[], &region).unwrap();
    let expected: Vec<u64> = places.iter().map(|place| *place as u64).collect();
    assert_eq!(candidates(&mut scan, &memory), expected);
}

#[test]
fn scan_pauses_after_its_reads_and_goes_on() {
    let memory = [ram(0x1000, 0x1000 + SCAN_CHUNK_SIZE as u64 + 8), ram(0, 0)];
    let mut scan = IncrementalScan::new(&memory, &ScanRegion::Ram).unwrap();
    assert_eq!(
        scan.step(ScanEvent::Resume { max_chunks: 1 }),
        ScanAction::Read {
            address: 0x1000,
            len: SCAN_CHUNK_SIZE
        }
    );
    assert_eq!(
        scan.step(ScanEvent::Data(vec![0; SCAN_CHUNK_SIZE])),
        ScanAction::Pause
    );
    assert_eq!(
        scan.step(ScanEvent::Resume { max_chunks: 1 }),
        ScanAction::Read {
            address: 0x1000 + SCAN_CHUNK_SIZE as u64,
            len: 8
        }
    );
    assert_eq!(
        scan.step(ScanEvent::Data(vec![0; 8])),
        ScanAction::NotFound
    );
}

#[test]
fn unreadable_memory_is_halved_and_then_skipped() {
    let memory = [ram(0, 10_000)];
    let mut scan = IncrementalScan::new(&memory, &ScanRegion::Ram).unwrap();
    assert_eq!(
        scan.step(ScanEvent::Resume { max_chunks: 9 }),
        ScanAction::Read {
            address: 0,
            len: 10_000
        }
    );
    assert_eq!(
        scan.step(ScanEvent::Unreadable),
        ScanAction::Read {
            address: 0,
            len: 5_000
        }
    );
    assert_eq!(
        scan.step(ScanEvent::Unreadable),
        ScanAction::Read {
            address: 0,
            len: MIN_SCAN_CHUNK_SIZE
        }
    );
    assert_eq!(
        scan.step(ScanEvent::Unreadable),
        ScanAction::Read {
            address: MIN_SCAN_CHUNK_SIZE as u64,
            len: 10_000 - MIN_SCAN_CHUNK_SIZE
        }
    );
    assert_eq!(skip_unreadable(100, 50), 150);
    assert_eq!(skip_unreadable(100, 9_000), 4_196);
}

#[test]
fn only_ram_that_is_no_alias_is_scanned() {
    let memory = [
        MemoryRegion {
            is_ram: false,
            ..ram(0, 16)
        },
        MemoryRegion {
            is_alias: true,
            ..ram(16, 32)
        },
        ram(32, 48),
    ];
    let mut scan = IncrementalScan::new(&memory, &ScanRegion::Ram).unwrap();
    assert_eq!(
        scan.step(ScanEvent::Resume { max_chunks: 1 }),
        ScanAction::Read {
            address: 32,
            len: 16
        }
    );
    assert_eq!(
        IncrementalScan::new(&memory[..2], &ScanRegion::Ram).err(),
        Some(RttErrorKind::NoControlBlockLocation)
    );
    assert_eq!(
        IncrementalScan::new(&memory, &ScanRegion::Exact(7)).err(),
        Some(RttErrorKind::NoControlBlockLocation)
    );
}

#[test]
fn next_range_starts_over_at_its_beginning() {
    let region = ScanRegion::Ranges(vec![
        AddressRange { start: 8, end: 16 },
        AddressRange {
            start: 100,
            end: 104,
        },
    ]);
    let mut scan = IncrementalScan::new(&[], &region).unwrap();
    scan.next_range();
    assert_eq!(
        scan.step(ScanEvent::Resume { max_chunks: 1 }),
        ScanAction::Read {
            address: 100,
            len: 4
        }
    );
}

#[test]
fn discovery_decides_how_to_attach() {
    let fixed = RttDiscovery::Fixed(ScanRegion::Exact(1));
    assert!(matches!(
        fixed.attach(),
        AttachPlan::Direct(ScanRegion::Exact(1))
    ));
    let scanned = RttDiscovery::Incremental(ScanRegion::Ram);
    assert!(matches!(scanned.attach(), AttachPlan::Scan(ScanRegion::Ram)));
    assert!(matches!(
        attach_region_incremental(&[], &ScanRegion::Exact(5)),
        Ok(RegionAttempt::At(5))
    ));
    assert!(matches!(
        attach_region_incremental(&[ram(0, 64)], &ScanRegion::Ram),
        Ok(RegionAttempt::Scan(_))
    ));
    assert!(attach_region_incremental(&[], &ScanRegion::Ram).is_err());
}

#[test]
fn attempts_are_repeated_until_the_timeout() {
    assert_eq!(
        try_attach_to_rtt_incremental(RttErrorKind::ControlBlockNotFound, 2_999, 3_000),
        AttachRetry::After { delay_ms: 50 }
    );
    assert_eq!(
        try_attach_to_rtt_incremental(RttErrorKind::ControlBlockNotFound, 3_000, 3_000),
        AttachRetry::GiveUp
    );
    assert_eq!(
        try_attach_to_rtt_incremental(RttErrorKind::NoControlBlockLocation, 0, 3_000),
        AttachRetry::GiveUp
    );
}
