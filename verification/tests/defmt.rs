use brtt::channel::{ChannelId, CoreChannel, CoreId};
use brtt::cli::{ChannelEncoding, ChannelSpec, ColorMode, SessionPolicy};
use brtt::defmt::{
    debug_summary, filter_level, is_hidden, level_enabled, level_name, level_named,
    parse_filter_spec_value, region_from_symbol, rtt_region_from_elf, DecodeOutput, DecodeStep,
    DecodedFrame, DecodedFrames, DefmtData, ElfContents, FilterSpec, Level, MAX_DECODED_FRAMES,
    MAX_DECODE_ITERATIONS,
};
use brtt::formats::{
    do_all_fit, does_fit, find_held, find_verdict, holds_hexadecimal, holds_isize, is_calm,
    is_flat, is_held, is_message, is_sound, is_stamp, judge, stamp_names, Held,
};
use brtt::renderer::{HostOutput, Moment};
use brtt::rtt::ScanRegion;
use brtt::session::{load_all_elfs, ElfFile, Session};
use brtt::target::{ChannelDecoder, ChannelOutput, UpChannelReader};

#[test]
fn malformed_elf_is_not_treated_as_missing_symbol() {
    let error = rtt_region_from_elf("broken.elf", b"not an ELF").unwrap_err();
    assert!(error.message().contains("failed to parse ELF"));
    assert_eq!(error.failure, "failed to parse ELF 'broken.elf'");
    assert!(error.cause.is_some());
}

#[test]
fn malformed_elf_has_no_contents() {
    assert!(ElfContents::load("broken.elf", b"not an ELF", false).is_err());
    let error = DefmtData::load("broken.elf", b"not an ELF").err().unwrap();
    assert_eq!(error.failure, "failed to parse defmt table in 'broken.elf'");
    assert!(DefmtData::debug_from_elf("broken.elf", b"not an ELF").is_err());
}

#[test]
fn symbol_lookup_decides_the_region() {
    assert_eq!(
        region_from_symbol("a.elf", Ok(Some(0x2000_0000))).unwrap(),
        Some(ScanRegion::Exact(0x2000_0000))
    );
    assert_eq!(region_from_symbol("a.elf", Ok(None)).unwrap(), None);
    let error = DefmtData::from_table("a.elf", Ok(None)).err().unwrap();
    assert_eq!(error.failure, "ELF 'a.elf' contains no .defmt section");
}

#[test]
fn level_names_are_lower_case() {
    for (level, name) in [
        (Level::Trace, "trace"),
        (Level::Debug, "debug"),
        (Level::Info, "info"),
        (Level::Warn, "warn"),
        (Level::Error, "error"),
    ] {
        assert_eq!(level_name(level), name);
        assert_eq!(level_named(name), Some(level));
    }
    assert_eq!(level_named("INFO"), None);
}

fn failed() -> DecodeStep {
    DecodeStep::Failed("malformed data".to_string())
}

#[test]
fn recoverable_errors_are_shown_and_then_counted() {
    let mut run = DecodedFrames::new();
    for _ in 0..11 {
        assert!(run.try_again());
        assert!(run.take(failed(), true));
    }
    assert!(run.try_again());
    assert!(!run.take(DecodeStep::NeedMore, true));
    run.finish();
    assert_eq!(run.warnings, 11);
    assert_eq!(run.suppressed_warnings, 3);
    assert_eq!(run.frames.len(), 9);
    assert!(
        matches!(&run.frames[0], DecodeOutput::Warning(text) if text == "defmt decode warning: malformed data")
    );
    assert!(
        matches!(&run.frames[8], DecodeOutput::Warning(text) if text == "3 further defmt decode warnings suppressed")
    );
    assert!(!run.restart);
}

#[test]
fn unrecoverable_error_restarts_the_decoder() {
    let mut run = DecodedFrames::new();
    assert!(run.try_again());
    assert!(!run.take(failed(), false));
    run.finish();
    assert!(run.restart);
    assert!(
        matches!(&run.frames[0], DecodeOutput::Warning(text) if text == "defmt decode warning: malformed data; resetting decoder")
    );
}

#[test]
fn frames_are_limited_in_number() {
    let mut run = DecodedFrames::new();
    for i in 0..MAX_DECODED_FRAMES {
        assert!(run.try_again());
        assert!(run.take(
            DecodeStep::Frame {
                message: format!("message {i}"),
                timestamp: None,
                level: Some("warn".to_string()),
                index: 3,
            },
            true
        ));
    }
    assert!(!run.try_again());
    assert!(run.hit_frame_limit);
    assert!(
        matches!(&run.frames[7], DecodeOutput::Frame { frame, index: 3 } if frame.message == "message 7" && frame.level == Some(Level::Warn))
    );
}

#[test]
fn stuck_decoder_is_restarted() {
    let mut run = DecodedFrames::new();
    for _ in 0..MAX_DECODE_ITERATIONS {
        assert!(run.try_again());
        assert!(run.take(failed(), true));
    }
    assert!(!run.try_again());
    assert!(run.restart);
    assert!(!run.hit_frame_limit);
}

#[test]
fn table_summary_lists_indices_and_symbols() {
    assert_eq!(
        debug_summary(
            "fw.elf",
            "Rzcobs",
            true,
            false,
            &[1, 255],
            &["sym_a".to_string()]
        ),
        "ELF: fw.elf\nEncoding: Rzcobs\nHas timestamp: true\nLocations: false\nIndices:\n  0x1\n  0xff\nRaw symbols:\n  sym_a\n"
    );
}

const HELLO: &str = "{\"package\":\"pkg\",\"tag\":\"defmt_info\",\"data\":\"hello {=u8}\",\"disambiguator\":\"a\",\"crate_name\":\"crate\"}";
const STAMP: &str = "{\"package\":\"pkg\",\"tag\":\"defmt_timestamp\",\"data\":\"{=u8}\",\"disambiguator\":\"b\",\"crate_name\":\"crate\"}";

/// A 32-bit little-endian ELF file with a defmt table, if asked for, and a
/// control block symbol in another section.
fn elf(encoding: Option<&str>, control_block: Option<u32>) -> Vec<u8> {
    elf_with(encoding, control_block, &[])
}

/// The same with further sections.
fn elf_with(
    encoding: Option<&str>,
    control_block: Option<u32>,
    further: &[(&str, Vec<u8>)],
) -> Vec<u8> {
    let mut symbols: Vec<(String, u32, u16)> = Vec::new();
    if let Some(encoding) = encoding {
        symbols.push((HELLO.to_string(), 0x20, 1));
        symbols.push((STAMP.to_string(), 0x21, 1));
        symbols.push(("_defmt_version_ = 4".to_string(), 0, 0xfff1));
        symbols.push((format!("_defmt_encoding_ = {encoding}"), 0, 0xfff1));
    }
    if let Some(address) = control_block {
        symbols.push(("_SEGGER_RTT".to_string(), address, 2));
    }
    elf_from(&symbols, encoding.is_some(), further)
}

/// A file with a raw table of one message and its timestamp.
fn elf_of(message: &str, timestamp: &str) -> Vec<u8> {
    elf_about(message, timestamp, &[])
}

/// The same with further sections.
fn elf_about(message: &str, timestamp: &str, further: &[(&str, Vec<u8>)]) -> Vec<u8> {
    let symbols = vec![
        (HELLO.replace("hello {=u8}", message), 0x20, 1),
        (STAMP.replace("{=u8}", timestamp), 0x21, 1),
        ("_defmt_version_ = 4".to_string(), 0, 0xfff1),
        ("_defmt_encoding_ = raw".to_string(), 0, 0xfff1),
    ];
    elf_from(&symbols, true, further)
}

/// What a file's table makes of these bytes.
fn decoded(file: &[u8], bytes: &[u8]) -> Vec<String> {
    let data = DefmtData::load("fw.elf", file).ok().unwrap();
    let mut decoder = ChannelDecoder::defmt(&data);
    let (outputs, _) = decoder.process_defmt(bytes);
    messages(&outputs)
}

/// A file with these symbols, each a name, a value and a section.
fn elf_from(
    symbols: &[(String, u32, u16)],
    defmt: bool,
    further: &[(&str, Vec<u8>)],
) -> Vec<u8> {
    let mut strings = vec![0u8];
    let mut table = vec![0u8; 16];
    for (name, value, section) in symbols {
        table.extend((strings.len() as u32).to_le_bytes());
        table.extend(value.to_le_bytes());
        table.extend(1u32.to_le_bytes());
        table.extend([0x11, 0]);
        table.extend(section.to_le_bytes());
        strings.extend(name.as_bytes());
        strings.push(0);
    }
    let first = if defmt { ".defmt" } else { ".text1" };
    let mut names = vec![0u8];
    let mut name_at = Vec::new();
    let known = [first, ".bss1", ".symtab", ".strtab", ".shstrtab"];
    for name in known.into_iter().chain(further.iter().map(|section| section.0)) {
        name_at.push(names.len() as u32);
        names.extend(name.as_bytes());
        names.push(0);
    }
    // Name, type, content, link, info, entry size.
    let mut sections: Vec<(u32, u32, Vec<u8>, u32, u32, u32)> = vec![
        (name_at[0], 1, vec![0; 64], 0, 0, 0),
        (name_at[1], 1, vec![0; 64], 0, 0, 0),
        (name_at[2], 2, table, 4, 1, 16),
        (name_at[3], 3, strings, 0, 0, 0),
        (name_at[4], 3, names, 0, 0, 0),
    ];
    for (i, (_, content)) in further.iter().enumerate() {
        sections.push((name_at[5 + i], 1, content.clone(), 0, 0, 0));
    }
    let mut body = Vec::new();
    let mut headers = vec![0u8; 40];
    for (name, kind, content, link, info, entry) in &sections {
        let offset = 52 + body.len() as u32;
        for field in [
            *name,
            *kind,
            0,
            0,
            offset,
            content.len() as u32,
            *link,
            *info,
            4,
            *entry,
        ] {
            headers.extend(field.to_le_bytes());
        }
        body.extend(content);
        while body.len() % 4 != 0 {
            body.push(0);
        }
    }
    let mut file = vec![0x7f, b'E', b'L', b'F', 1, 1, 1, 0, 0, 0, 0, 0, 0, 0, 0, 0];
    file.extend(2u16.to_le_bytes());
    file.extend(40u16.to_le_bytes());
    file.extend(1u32.to_le_bytes());
    file.extend(0u32.to_le_bytes());
    file.extend(0u32.to_le_bytes());
    file.extend((52 + body.len() as u32).to_le_bytes());
    file.extend(0u32.to_le_bytes());
    for field in [52u16, 0, 0, 40, 1 + sections.len() as u16, 5] {
        file.extend(field.to_le_bytes());
    }
    file.extend(body);
    file.extend(headers);
    file
}

fn messages(outputs: &[DecodeOutput]) -> Vec<String> {
    outputs
        .iter()
        .map(|output| match output {
            DecodeOutput::Frame { frame, .. } => format!(
                "{:?} {:?} {}",
                frame.level,
                frame.timestamp.as_deref(),
                frame.message
            ),
            DecodeOutput::Warning(text) => text.clone(),
        })
        .collect()
}

#[test]
fn control_block_symbol_is_found() {
    let file = elf(None, Some(0x2000_1234));
    assert_eq!(
        rtt_region_from_elf("fw.elf", &file).unwrap(),
        Some(ScanRegion::Exact(0x2000_1234))
    );
    let file = elf(Some("raw"), None);
    assert_eq!(rtt_region_from_elf("fw.elf", &file).unwrap(), None);
}

#[test]
fn table_is_read_only_where_it_is_needed() {
    let plain = elf(None, Some(0x2000_0000));
    let contents = ElfContents::load("fw.elf", &plain, false).ok().unwrap();
    assert!(contents.defmt.is_none());
    let error = ElfContents::load("fw.elf", &plain, true).err().unwrap();
    assert_eq!(error.failure, "ELF 'fw.elf' contains no .defmt section");

    let specs = [ChannelSpec {
        core: Some(1),
        index: 0,
        mode: ChannelEncoding::Defmt,
    }];
    let files = [
        ElfFile {
            core: 0,
            path: "plain.elf".to_string(),
            bytes: Ok(plain),
        },
        ElfFile {
            core: 1,
            path: "table.elf".to_string(),
            bytes: Ok(elf(Some("raw"), None)),
        },
    ];
    let loaded = load_all_elfs(&files, &specs).ok().unwrap();
    assert_eq!(loaded[0].0, 0);
    assert!(loaded[0].1.defmt.is_none());
    assert_eq!(loaded[1].0, 1);
    assert!(loaded[1].1.defmt.is_some());
}

#[test]
fn raw_frames_are_decoded_across_reads() {
    let data = DefmtData::load("fw.elf", &elf(Some("raw"), None)).ok().unwrap();
    let mut decoder = ChannelDecoder::defmt(&data);
    let (outputs, more) = decoder.process_defmt(&[0x20, 0x00, 5]);
    assert!(outputs.is_empty());
    assert!(!more);
    let (outputs, _) = decoder.process_defmt(&[7, 0x20, 0x00, 6, 8]);
    assert_eq!(
        messages(&outputs),
        vec![
            "Some(Info) Some(\"5\") hello 7",
            "Some(Info) Some(\"6\") hello 8"
        ]
    );
}

#[test]
fn raw_decoder_is_replaced_after_an_error() {
    let data = DefmtData::load("fw.elf", &elf(Some("raw"), None)).ok().unwrap();
    let mut decoder = ChannelDecoder::defmt(&data);
    let (outputs, _) = decoder.process_defmt(&[0xff, 0xff, 1, 2, 3]);
    assert_eq!(
        messages(&outputs),
        vec!["defmt decode warning: malformed data; resetting decoder"]
    );
    let (outputs, _) = decoder.process_defmt(&[0x20, 0x00, 1, 9]);
    assert_eq!(
        messages(&outputs),
        vec!["Some(Info) Some(\"1\") hello 9"]
    );
}

#[test]
fn framed_decoder_recovers_after_an_error() {
    let data = DefmtData::load("fw.elf", &elf(Some("rzcobs"), None)).ok().unwrap();
    let mut decoder = ChannelDecoder::defmt(&data);
    let (outputs, _) = decoder.process_defmt(&[0xff, 0x00]);
    assert_eq!(
        messages(&outputs),
        vec!["defmt decode warning: malformed data"]
    );
}

#[test]
fn input_without_frames_is_dropped_in_the_end() {
    let data = DefmtData::load("fw.elf", &elf(Some("rzcobs"), None)).ok().unwrap();
    let mut decoder = ChannelDecoder::defmt(&data);
    let noise = vec![1u8; 40_000];
    assert!(decoder.process_defmt(&noise).0.is_empty());
    assert_eq!(
        messages(&decoder.process_defmt(&noise).0),
        vec!["defmt decoder incomplete input exceeded 64 KiB; resetting decoder"]
    );
}

#[test]
fn table_of_a_file_is_summarised() {
    let summary = DefmtData::debug_from_elf("fw.elf", &elf(Some("raw"), None))
        .ok()
        .unwrap();
    assert!(summary.starts_with("ELF: fw.elf\nEncoding: Raw\nHas timestamp: true\nLocations: "));
    assert!(
        summary.ends_with(&format!("Indices:\n  0x20\nRaw symbols:\n  {HELLO}\n")),
        "{summary}"
    );
}

#[test]
fn readers_need_a_table_for_defmt() {
    let spec = ChannelSpec {
        core: None,
        index: 2,
        mode: ChannelEncoding::Defmt,
    };
    assert_eq!(
        UpChannelReader::new(spec, CoreId::new(0), None).err(),
        Some("missing defmt table for channel 2".to_string())
    );
    let data = DefmtData::load("fw.elf", &elf(Some("raw"), None)).ok().unwrap();
    let mut reader = UpChannelReader::new(spec, CoreId::new(1), Some(&data))
        .ok()
        .unwrap();
    assert_eq!(
        reader.source,
        CoreChannel {
            core: CoreId::new(1),
            channel: ChannelId::new(2)
        }
    );
    match reader.decoder.process(&[0x20, 0x00, 3, 4], true) {
        ChannelOutput::Defmt { outputs, more } => {
            assert_eq!(messages(&outputs), vec!["Some(Info) Some(\"3\") hello 4"]);
            assert!(!more);
        }
        ChannelOutput::Terminal(_) => panic!("defmt channel decoded as terminal output"),
    }
}

#[test]
fn filters_hide_what_their_parts_do_not_want() {
    let frame = |level: Option<Level>| DecodedFrame {
        message: "m".to_string(),
        timestamp: None,
        level,
    };
    let warn = parse_filter_spec_value("warn").ok();
    for module in ["", "app", "net::tcp"] {
        assert!(is_hidden(&frame(Some(Level::Info)), module, &warn));
        assert!(!is_hidden(&frame(Some(Level::Warn)), module, &warn));
        assert!(!is_hidden(&frame(Some(Level::Error)), module, &warn));
        assert!(!is_hidden(&frame(None), module, &warn));
        assert!(!is_hidden(&frame(Some(Level::Trace)), module, &None));
    }

    let mixed = parse_filter_spec_value("app=debug,warn").ok();
    for module in ["app", "app::main"] {
        assert!(!is_hidden(&frame(Some(Level::Debug)), module, &mixed));
        assert!(is_hidden(&frame(Some(Level::Trace)), module, &mixed));
    }
    for module in ["net", "application", "app:", "ap", ""] {
        assert!(is_hidden(&frame(Some(Level::Info)), module, &mixed));
        assert!(!is_hidden(&frame(Some(Level::Warn)), module, &mixed));
    }
    let only = parse_filter_spec_value("app=error").ok();
    assert!(is_hidden(&frame(Some(Level::Warn)), "app::main", &only));
    assert!(!is_hidden(&frame(Some(Level::Trace)), "net", &only));
}

#[test]
fn longest_prefix_decides() {
    let spec = parse_filter_spec_value("app=warn,app::net=trace,info").unwrap();
    let level = |module: &str| filter_level(module, &spec.filters);
    assert_eq!(level("app"), Some(Level::Warn));
    assert_eq!(level("app::ui"), Some(Level::Warn));
    assert_eq!(level("app::net"), Some(Level::Trace));
    assert_eq!(level("app::net::tcp"), Some(Level::Trace));
    assert_eq!(level("app::network"), Some(Level::Warn));
    assert_eq!(level("boot"), Some(Level::Info));
    assert_eq!(filter_level("app", &[]), None);
    assert_eq!(filter_level("boot", &spec.filters[..2]), None);
    assert!(level_enabled(Level::Trace, None));
    assert!(!level_enabled(Level::Trace, Some(Level::Debug)));
    assert!(level_enabled(Level::Debug, Some(Level::Debug)));
}

/// Debug information of one message in the module `app::net`.
fn debug_sections() -> Vec<(&'static str, Vec<u8>)> {
    let mut strings = Vec::new();
    let mut at = |text: &str| {
        let start = (strings.len() as u32).to_le_bytes();
        strings.extend(text.as_bytes());
        strings.push(0);
        start
    };
    let mut entries = Vec::new();
    // The compilation unit, its name, directory and line program.
    entries.push(1);
    entries.extend(at("main.rs"));
    entries.extend(at("/src"));
    entries.extend([0; 4]);
    // Two namespaces around a variable in file 1, line 7.
    entries.push(2);
    entries.extend(at("app"));
    entries.push(2);
    entries.extend(at("net"));
    entries.push(3);
    entries.extend(at("DEFMT_LOG_STATEMENT"));
    entries.extend(at(HELLO));
    entries.extend([1, 7]);
    entries.extend([0, 0, 0]);
    let mut info = (entries.len() as u32 + 7).to_le_bytes().to_vec();
    info.extend([4, 0, 0, 0, 0, 0, 4]);
    info.extend(entries);

    let abbreviations = vec![
        1, 0x11, 1, 0x03, 0x0e, 0x1b, 0x0e, 0x10, 0x17, 0, 0, // unit
        2, 0x39, 1, 0x03, 0x0e, 0, 0, // namespace
        3, 0x34, 0, 0x03, 0x0e, 0x6e, 0x0e, 0x3a, 0x0b, 0x3b, 0x0b, 0, 0, // variable
        0,
    ];

    let mut header = vec![1, 1, 1, 0xfb, 14, 13];
    header.extend([0, 1, 1, 1, 1, 0, 0, 0, 1, 0, 0, 1]);
    header.push(0);
    header.extend(b"main.rs\0");
    header.extend([0, 0, 0, 0]);
    let mut lines = (header.len() as u32 + 6).to_le_bytes().to_vec();
    lines.extend([4, 0]);
    lines.extend((header.len() as u32).to_le_bytes());
    lines.extend(header);

    vec![
        (".debug_info", info),
        (".debug_abbrev", abbreviations),
        (".debug_line", lines),
        (".debug_str", strings),
    ]
}

#[test]
fn tables_are_printed_as_far_as_they_can_be() {
    let shown = |message: &str, timestamp: &str, bytes: &[u8]| {
        decoded(&elf_of(message, timestamp), bytes)
    };
    assert_eq!(
        shown("n {=u8:02x}", "{=u8:us}", &[0x20, 0, 5, 7]),
        vec!["Some(Info) Some(\"0.000005\") n 07"]
    );
    let far = [0x20, 0, 0xff, 0xff, 0xff, 0xff, 0xff, 0xff, 0xff, 0xff, 7];
    assert_eq!(
        shown("n {=u8}", "{=u64:iso8601s}", &far),
        vec!["Some(Info) None n 7"]
    );
    let last = [0x20, 0, 0xff, 0xff, 0xff, 0xff, 7];
    assert_eq!(
        shown("n {=u8}", "{=u32:iso8601s}", &last),
        vec!["Some(Info) Some(\"2106-02-07T06:28:15Z\") n 7"]
    );

    // A message that may not be printed keeps its timestamp, if that may be.
    let value = [0x20, 0, 5, 255, 255, 255, 255, 255, 255, 255, 255];
    assert_eq!(
        shown("n {=u64:iso8601ms}", "{=u8}", &value),
        vec!["Some(Info) Some(\"5\") message 0x20"]
    );
    assert_eq!(
        shown("n {=isize:x}", "{=u8}", &[0x20, 0, 5, 255, 255, 255, 255]),
        vec!["Some(Info) Some(\"5\") message 0x20"]
    );
    assert_eq!(
        shown("n {=u8:099999}", "{=u8}", &[0x20, 0, 5, 1]),
        vec!["Some(Info) Some(\"5\") message 0x20"]
    );
    assert_eq!(
        shown("n {=u8:099999}", "{=u8:099999}", &[0x20, 0, 5, 1]),
        vec!["Some(Info) None message 0x20"]
    );
}

#[test]
fn signed_sizes_are_printed_where_no_hint_reaches_them() {
    let shown = |message: &str, bytes: &[u8]| decoded(&elf_of(message, "{=u8}"), bytes);
    let value = [0x20, 0, 5, 0xfe, 0xff, 0xff, 0xff];
    assert_eq!(shown("n {=isize}", &value), vec!["Some(Info) Some(\"5\") n -2"]);
    let two = [0x20, 0, 5, 0xfe, 0xff, 0xff, 0xff, 0x2a];
    assert_eq!(
        shown("n {=isize} {=u8:#04x}", &two),
        vec!["Some(Info) Some(\"5\") n -2 0x2a"]
    );
    assert_eq!(
        decoded(&elf_of("n {=u8}", "{=isize}"), &[0x20, 0, 0xfe, 0xff, 0xff, 0xff, 7]),
        vec!["Some(Info) Some(\"-2\") n 7"]
    );
    assert_eq!(
        decoded(&elf_of("n {=u8}", "{=isize:X}"), &[0x20, 0, 0xfe, 0xff, 0xff, 0xff, 7]),
        vec!["Some(Info) None n 7"]
    );

    // A hint of one message may reach a number in another.
    let symbols = vec![
        (HELLO.replace("hello {=u8}", "n {=?:x}"), 0x20, 1),
        (
            HELLO.replace("defmt_info", "defmt_prim").replace("hello {=u8}", "{=isize}"),
            0x22,
            1,
        ),
        (STAMP.to_string(), 0x21, 1),
        ("_defmt_version_ = 4".to_string(), 0, 0xfff1),
        ("_defmt_encoding_ = raw".to_string(), 0, 0xfff1),
    ];
    let nested = [0x20, 0, 5, 0x22, 0, 0xfe, 0xff, 0xff, 0xff];
    assert_eq!(
        decoded(&elf_from(&symbols, true, &[]), &nested),
        vec!["Some(Info) Some(\"5\") message 0x20"]
    );
}

#[test]
fn other_strings_of_a_file_do_not_matter() {
    let strings =
        b"{=isize:x}\0{=u64:iso8601s}\0{12345678}\0\\u0064\0_defmt_timestamp {=isize:x}\0".to_vec();
    let file = elf_about("n {=u8}", "{=u32:us}", &[(".debug_str", strings)]);
    assert_eq!(
        decoded(&file, &[0x20, 0, 1, 0, 0, 0, 7]),
        vec!["Some(Info) Some(\"0.000001\") n 7"]
    );
}

#[test]
fn timestamps_are_found_by_their_tag() {
    let plain = STAMP.replace("{=u8}", "{=u64:iso8601s}");
    let escaped = plain.replace("defmt_timestamp", "\\u0064efmt\\u005Ftimesta\\u006dp");
    assert!(is_stamp(plain.as_bytes()));
    assert!(is_stamp(escaped.as_bytes()));
    assert!(!is_stamp(HELLO.as_bytes()));
    assert!(!is_stamp(b"\"defmt_timestam\\u0071\""));
    assert!(!is_stamp(b"_defmt_timestamp"));
    assert!(!is_stamp(b""));

    let symbols = vec![
        (HELLO.to_string(), 0x20, 1),
        (escaped, 0x21, 1),
        ("_defmt_version_ = 4".to_string(), 0, 0xfff1),
        ("_defmt_encoding_ = raw".to_string(), 0, 0xfff1),
    ];
    let file = elf_from(&symbols, true, &[]);
    let error = DefmtData::load("fw.elf", &file).err().unwrap();
    assert_eq!(error.failure, "defmt table in 'fw.elf' holds numbers that are too large");

    let names = stamp_names(b"\0\0a \"defmt_timestamp\"\0b\0\"defmt_timestamp\" {=u8}");
    assert_eq!(
        names,
        vec![b"a \"defmt_timestamp\"".to_vec(), b"\"defmt_timestamp\" {=u8}".to_vec()]
    );
    assert!(stamp_names(b"").is_empty());
    assert!(stamp_names(b"\"defmt_\0timestamp\"").is_empty());
}

/// A name with this tag and format string.
fn named(tag: &str, data: &str) -> String {
    HELLO.replace("defmt_info", tag).replace("hello {=u8}", data)
}

#[test]
fn one_message_does_not_hide_the_others() {
    let symbols = vec![
        (named("defmt_info", "at {=u64:iso8601ms}"), 0x20, 1),
        (named("defmt_warn", "n {=u8}"), 0x21, 1),
        (named("defmt_error", "{=?}"), 0x22, 1),
        (named("defmt_println", "{:x}"), 0x23, 1),
        (named("defmt_prim", "{=isize}"), 0x24, 1),
        (named("defmt_derived", "S {{ a: {=u8:x} }}"), 0x25, 1),
        ("_defmt_version_ = 4".to_string(), 0, 0xfff1),
        ("_defmt_encoding_ = raw".to_string(), 0, 0xfff1),
    ];
    let file = elf_from(&symbols, true, &[]);
    let mut bytes = vec![0x20, 0, 255, 255, 255, 255, 255, 255, 255, 255];
    bytes.extend([0x21, 0, 7]);
    bytes.extend([0x22, 0, 0x25, 0, 0x2a]);
    bytes.extend([0x23, 0, 0x24, 0, 0xfe, 0xff, 0xff, 0xff]);
    assert_eq!(
        decoded(&file, &bytes),
        vec![
            "Some(Info) None message 0x20",
            "Some(Warn) None n 7",
            "Some(Error) None message 0x22",
            "None None message 0x23",
        ]
    );

    // Without the hint that is handed on, the number can be printed.
    let mut symbols = symbols;
    symbols[3].0 = named("defmt_println", "{}");
    let file = elf_from(&symbols, true, &[]);
    assert_eq!(
        decoded(&file, &bytes),
        vec![
            "Some(Info) None message 0x20",
            "Some(Warn) None n 7",
            "Some(Error) None S { a: 2a }",
            "None None -2",
        ]
    );

    // A frame may name an entry that is no message; any of them may be meant.
    assert_eq!(decoded(&file, &[0x24, 0, 1, 0, 0, 0]), vec!["None None message 0x24"]);
    symbols[0].0 = named("defmt_info", "at {=u64:us}");
    let file = elf_from(&symbols, true, &[]);
    assert_eq!(decoded(&file, &[0x24, 0, 1, 0, 0, 0]), vec!["None None 1"]);
}

#[test]
fn names_tell_what_messages_hold() {
    for tag in ["defmt_trace", "defmt_debug", "defmt_info", "defmt_warn", "defmt_error"] {
        assert!(is_message(named(tag, "").as_bytes()), "{tag}");
        assert!(!is_held(named(tag, "").as_bytes()), "{tag}");
    }
    for tag in ["defmt_prim", "defmt_derived", "defmt_bitflags", "defmt_write", "defmt_str"] {
        assert!(!is_message(named(tag, "").as_bytes()), "{tag}");
        assert!(is_held(named(tag, "").as_bytes()), "{tag}");
    }
    let line = named("defmt_println", "");
    assert!(is_message(line.as_bytes()) && is_held(line.as_bytes()));
    let quoting = named("defmt_info", "\\\"defmt_prim\\\"");
    assert!(!is_held(quoting.as_bytes()));

    let symbols = [
        named("defmt_info", "{=[u8]:cbor}"),
        named("defmt_prim", "{=isize}"),
        named("defmt_warn", "{:X}"),
        named("defmt_error", "{}"),
    ];
    assert_eq!(
        find_held(&symbols),
        Held {
            calm: true,
            native: true,
            hexadecimal: false
        }
    );
    let list = judge(&[3, 5, 8], &symbols);
    assert_eq!(list, vec![(3, false), (5, false), (8, true)]);
    assert!(!find_verdict(&list, 3, true));
    assert!(find_verdict(&list, 8, false));
    assert!(find_verdict(&list, 9, true));
    assert!(!find_verdict(&list, 9, false));
    assert!(judge(&[3, 5], &symbols).is_empty());
    assert!(!do_all_fit(&symbols));
    assert!(do_all_fit(&symbols[1..2]));
    assert!(do_all_fit(&[]));
    assert_eq!(
        find_held(&[named("defmt_write", "{=?:x} {=u64:iso8601s}")]),
        Held {
            calm: false,
            native: false,
            hexadecimal: true
        }
    );
}

#[test]
fn what_holds_messages_goes_by_them() {
    let held = |calm: bool, native: bool, hexadecimal: bool| Held {
        calm,
        native,
        hexadecimal,
    };
    assert!(does_fit(held(false, true, true), b"{=u64:us}"));
    assert!(does_fit(held(false, true, true), b"{=u8:x}"));
    assert!(!does_fit(held(false, false, false), b"{=?}"));
    assert!(does_fit(held(true, true, false), b"{=?}"));
    assert!(!does_fit(held(true, true, false), b"{=?:x}"));
    assert!(!does_fit(held(true, true, true), b"{=?}"));
    assert!(!does_fit(held(true, false, true), b"{} {=isize}"));
    assert!(!does_fit(held(true, false, false), b"{=isize:x}"));
    assert!(!does_fit(held(true, false, false), b"{=u64:iso8601ms}"));
    for text in ["{}", "{:?}", "{0=u8}", "{=?}", "{=[?]}", "{=[?;3]}", "{=__internal_FormatSequence}"] {
        assert!(!is_flat(text.as_bytes()), "{text}");
    }
    assert!(is_flat(b"{\"data\":\"{=u64:us} {=[u8]} {=__internal_Debug}\"}"));
}

#[test]
fn tables_with_absurd_numbers_are_refused() {
    for (message, timestamp) in [
        ("n {18446744073709551614=u8}", "{=u8}"),
        ("n {=[?;999999999999]}", "{=u8}"),
        ("n {=[?; 999999999999]}", "{=u8}"),
        ("n {=u8}", "{9999999=u8}"),
        ("n {=\\u0075\\u0038}", "{=u8}"),
    ] {
        let file = elf_of(message, timestamp);
        let error = DefmtData::load("fw.elf", &file).err().unwrap();
        assert_eq!(
            error.failure,
            "defmt table in 'fw.elf' holds numbers that are too large",
            "{message}"
        );
        assert!(error.cause.is_none());
        assert!(DefmtData::debug_from_elf("fw.elf", &file).is_ok());
    }
}

#[test]
fn risky_format_strings_are_recognised() {
    for text in [
        "{=u64:iso8601s}",
        "{=u64:#iso8601ms}",
        "{=u32:#iso8601s}",
        "{=?:iso8601s}",
        "{=[u8]:cbor}",
        "A|{=u8}",
        "{=u8}|B",
        "{=u8:012345}",
        "{=u8:#012345x}",
        "{=\\u0069size}",
    ] {
        assert!(!is_calm(text.as_bytes()), "{text}");
    }
    for text in [
        "",
        "{=u64:us} {=i32:#010x} {=?} {=[u8]:a}",
        "{=u8:iso8601s} {=u16:iso8601ms} {=u32:iso8601ms}",
        "{=isize} {=isize:x}",
        "x iso8601 of cbor, isize",
        "None|Some({=u8})",
        "<\\u003cb> \\u001b \\u007f",
    ] {
        assert!(is_calm(text.as_bytes()), "{text}");
        assert!(is_sound(text.as_bytes()), "{text}");
    }
    for text in ["{1234567=u8}", "[?;1234567]", "[?; 1234567]", "[?;  1]", "[?;\\u0020 1]", "[?; \\u0020 1]", "\\u007b"] {
        assert!(!is_sound(text.as_bytes()), "{text}");
    }
    assert!(is_sound(b"{123456=u8} [?;3] [?; 123456]"));

    for text in ["{=isize}", "{=isize:x}", "a {=isize:?} b"] {
        assert!(holds_isize(text.as_bytes()), "{text}");
    }
    assert!(!holds_isize(b"{=usize} isize {=i32}"));
    for text in ["{:x}", "{0:X}", "{=?:#010x}", "{=[?]:02X}", "{=[?; 4]:x}", "{=isize:x}", "{=2..5:x}"] {
        assert!(holds_hexadecimal(text.as_bytes()), "{text}");
    }
    for text in [
        "{=u8:x} {=u16:#06x} {=u32:#010X} {=u64:x} {=u128:x} {=usize:x}",
        "{=i8:x} {=i16:x} {=i32:x} {=i64:x} {=i128:x}",
        "{=[u8]:x} {=[u8;4]:02X} {=[u8; 16]:x}",
        "{:b} {=?:o} x} 0x} {x}",
        "{:x",
    ] {
        assert!(!holds_hexadecimal(text.as_bytes()), "{text}");
    }
}

#[test]
fn debug_information_tells_the_modules() {
    let file = elf_with(Some("raw"), None, &debug_sections());
    let data = DefmtData::load("fw.elf", &file).ok().unwrap();
    assert_eq!(data.module_of(0x20), "app::net");
    assert_eq!(data.module_of(0x21), "");
    let data = DefmtData::load("fw.elf", &elf(Some("raw"), None)).ok().unwrap();
    assert_eq!(data.module_of(0x20), "");
    let summary = DefmtData::debug_from_elf("fw.elf", &file).ok().unwrap();
    assert!(summary.contains("\nLocations: true\n"));
}

#[test]
fn filters_go_by_the_module_of_a_message() {
    let file = elf_with(Some("raw"), None, &debug_sections());
    let data = DefmtData::load("fw.elf", &file).ok().unwrap();
    let shown = |filter: &str| {
        let (mut session, mut reader) = filtered(&data, parse_filter_spec_value(filter).ok());
        session.handle_read(&mut reader, &[0x20, 0x00, 1, 9], Moment::new(0, 0).unwrap());
        !session.renderer.output.is_empty()
    };
    assert!(shown("app=debug,warn"));
    assert!(!shown("app::net=warn,debug"));
    assert!(!shown("boot=debug,warn"));
    assert!(shown("boot=warn"));
}

/// A session over one defmt channel with redirected output.
fn filtered<'t>(
    data: &'t DefmtData,
    filters: Option<FilterSpec>,
) -> (Session, UpChannelReader<'t>) {
    let spec = ChannelSpec {
        core: None,
        index: 0,
        mode: ChannelEncoding::Defmt,
    };
    let policy = SessionPolicy {
        probe: String::new(),
        chip: String::new(),
        up_specs: vec![spec],
        down_channel: None,
        down_explicit: false,
        poll_interval: 10,
        timestamps: false,
        color: ColorMode::Never,
        log: None,
    };
    let host = HostOutput {
        is_terminal: false,
        no_color: true,
    };
    let core = CoreId::new(0);
    (
        Session::new(&[core], policy, filters, host, 0, 0).unwrap(),
        UpChannelReader::new(spec, core, Some(data)).ok().unwrap(),
    )
}

#[test]
fn frames_are_filtered_before_they_are_shown() {
    let data = DefmtData::load("fw.elf", &elf(Some("raw"), None)).ok().unwrap();
    let moment = Moment::new(0, 0).unwrap();
    let frames = [0x20, 0x00, 1, 9, 0xff, 0xff, 1];

    let (mut session, mut reader) = filtered(&data, None);
    assert!(!session.handle_read(&mut reader, &frames, moment));
    assert_eq!(
        String::from_utf8(session.renderer.output).unwrap(),
        "[1] info hello 9\n[defmt warning #1] defmt decode warning: malformed data; resetting decoder\n"
    );

    let (mut session, mut reader) = filtered(&data, parse_filter_spec_value("warn").ok());
    session.handle_read(&mut reader, &frames, moment);
    assert_eq!(
        String::from_utf8(session.renderer.output).unwrap(),
        "[defmt warning #1] defmt decode warning: malformed data; resetting decoder\n"
    );
}
