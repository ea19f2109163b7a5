use brtt::channel::{ChannelId, CoreChannel, CoreId};
use brtt::cli::{LogDestination, LogFormat};
use brtt::logger::{
    channel_file_name, LineAssembly, LogAction, LogTarget, Logger, RawMergeError,
};
use std::path::{Path, PathBuf};

fn source(channel: usize) -> CoreChannel {
    CoreChannel {
        core: CoreId::new(0),
        channel: ChannelId::from_cli(u32::try_from(channel).unwrap(), "test").unwrap(),
    }
}

/// Log files held in memory.
struct Files {
    files: Vec<(LogTarget, Vec<u8>)>,
}

impl Files {
    fn new() -> Self {
        Self { files: Vec::new() }
    }

    /// Carries out what the logger asks for.
    fn apply(&mut self, logger: &mut Logger) {
        for action in logger.take_actions() {
            match action {
                LogAction::Open(target) => {
                    self.files.retain(|(known, _)| *known != target);
                    self.files.push((target, Vec::new()));
                }
                LogAction::Append { target, bytes } => {
                    let file = self
                        .files
                        .iter_mut()
                        .find(|(known, _)| *known == target)
                        .expect("log file opened before use");
                    file.1.extend_from_slice(&bytes);
                }
                LogAction::Flush => {}
            }
        }
    }

    fn read(&mut self, logger: &mut Logger, target: LogTarget) -> Option<Vec<u8>> {
        self.apply(logger);
        self.files
            .iter()
            .find(|(known, _)| *known == target)
            .map(|(_, bytes)| bytes.clone())
    }
}

fn merged(logger: &mut Logger) -> Vec<u8> {
    Files::new().read(logger, LogTarget::Merged).unwrap()
}

fn channel_path(path: &Path, source: CoreChannel) -> PathBuf {
    let stem = path.file_stem().map(|stem| stem.to_str().unwrap().as_bytes());
    let extension = path
        .extension()
        .map(|extension| extension.to_str().unwrap().as_bytes());
    let name = channel_file_name(stem, extension, source);
    path.with_file_name(String::from_utf8(name).unwrap())
}

#[test]
fn channel_paths_insert_suffix_before_extension() {
    assert_eq!(
        channel_path(Path::new("capture.log"), source(2)),
        PathBuf::from("capture.c0.ch2.log")
    );
    assert_eq!(
        channel_path(Path::new("capture"), source(2)),
        PathBuf::from("capture.c0.ch2")
    );
    assert_eq!(
        channel_path(Path::new("logs/capture"), source(2)),
        PathBuf::from("logs/capture.c0.ch2")
    );
}

#[test]
fn channel_paths_preserve_non_utf8_names() {
    let channel_path = channel_file_name(Some(b"capture-\xff"), Some(b"log"), source(2));

    assert_eq!(channel_path, b"capture-\xff.c0.ch2.log");
}

#[test]
fn channel_paths_without_stem_are_named_log() {
    assert_eq!(channel_file_name(None, None, source(1)), b"log.c0.ch1");
}

#[test]
fn merged_decoded_logs_are_channel_tagged() {
    let path = b"capture.log".to_vec();
    let mut logger = Logger::new(
        Some(&LogDestination::Merged(path.clone())),
        LogFormat::Decoded,
        true,
        false,
    )
    .unwrap()
    .unwrap();
    logger.write_defmt_decoded(source(0), b"one\n");
    logger.write_defmt_decoded(source(1), b"two\n");
    logger.flush();
    assert_eq!(merged(&mut logger), b"[ch0] one\n[ch1] two\n");
}

#[test]
fn raw_merged_logs_reject_multiple_channels() {
    let path = b"capture.log".to_vec();
    assert!(Logger::new(
        Some(&LogDestination::Merged(path.clone())),
        LogFormat::Raw,
        true,
        false
    )
    .is_err());
}

#[test]
fn merged_decoded_logs_keep_partial_channels_separate() {
    let path = b"capture.log".to_vec();
    let mut logger = Logger::new(
        Some(&LogDestination::Merged(path.clone())),
        LogFormat::Decoded,
        true,
        false,
    )
    .unwrap()
    .unwrap();
    logger.write_defmt_decoded(source(0), b"foo");
    logger.write_defmt_decoded(source(1), b"bar\n");
    logger.write_defmt_decoded(source(0), b"\n");
    logger.flush();
    assert_eq!(merged(&mut logger), b"[ch1] bar\n[ch0] foo\n");
}

#[test]
fn per_channel_raw_logs_preserve_bytes() {
    let path = b"capture.log".to_vec();
    let mut logger = Logger::new(
        Some(&LogDestination::PerChannel(path.clone())),
        LogFormat::Raw,
        false,
        false,
    )
    .unwrap()
    .unwrap();
    logger.write_bytes(source(1), &[0, 1, 0xff]);
    logger.flush();
    assert_eq!(
        Files::new().read(&mut logger, LogTarget::Channel(source(1))),
        Some(vec![0, 1, 0xff])
    );
}

#[test]
fn per_channel_decoded_logs_ignore_merged_channel_tag_setting() {
    let path = b"capture.log".to_vec();
    let mut logger = Logger::new(
        Some(&LogDestination::PerChannel(path.clone())),
        LogFormat::Decoded,
        true,
        false,
    )
    .unwrap()
    .unwrap();
    logger.write_defmt_decoded(source(1), b"message\n");
    logger.flush();

    assert_eq!(
        Files::new().read(&mut logger, LogTarget::Channel(source(1))),
        Some(b"message\n".to_vec())
    );
}

#[test]
fn decoded_logger_flushes_an_unfinished_line() {
    let path = b"capture.log".to_vec();
    let mut logger = Logger::new(
        Some(&LogDestination::Merged(path.clone())),
        LogFormat::Decoded,
        false,
        false,
    )
    .unwrap()
    .unwrap();
    logger
        .write_defmt_decoded(source(0), b"unfinished");
    logger.flush();

    assert_eq!(merged(&mut logger), b"unfinished");
}

#[test]
fn terminal_decoded_partial_is_buffered_until_flush() {
    let path = b"capture.log".to_vec();
    let mut logger = Logger::new(
        Some(&LogDestination::Merged(path.clone())),
        LogFormat::Decoded,
        false,
        false,
    )
    .unwrap()
    .unwrap();
    logger
        .write_terminal_decoded(source(0), &[], b"boot");
    logger.flush();

    assert_eq!(merged(&mut logger), b"boot");
}

#[test]
fn terminal_decoded_partial_is_replaced_by_later_decode() {
    let path = b"capture.log".to_vec();
    let mut logger = Logger::new(
        Some(&LogDestination::Merged(path.clone())),
        LogFormat::Decoded,
        false,
        false,
    )
    .unwrap()
    .unwrap();
    logger
        .write_terminal_decoded(source(0), &[], b"par");
    logger
        .write_terminal_decoded(source(0), &[b"partial line\n".to_vec()], b"");
    logger.flush();

    assert_eq!(merged(&mut logger), b"partial line\n");
}

#[test]
fn terminal_decoded_lines_include_channel_tags_when_merged() {
    let path = b"capture.log".to_vec();
    let mut logger = Logger::new(
        Some(&LogDestination::Merged(path.clone())),
        LogFormat::Decoded,
        true,
        false,
    )
    .unwrap()
    .unwrap();
    logger
        .write_terminal_decoded(source(0), &[b"zero\n".to_vec()], b"");
    logger
        .write_terminal_decoded(source(1), &[b"one\n".to_vec()], b"");
    logger.flush();

    assert_eq!(merged(&mut logger), b"[ch0] zero\n[ch1] one\n");
}

#[test]
fn plain_decoded_text_does_not_interpret_terminal_controls() {
    let path = b"capture.log".to_vec();
    let mut logger = Logger::new(
        Some(&LogDestination::Merged(path.clone())),
        LogFormat::Decoded,
        false,
        false,
    )
    .unwrap()
    .unwrap();
    logger
        .write_defmt_decoded(source(0), b"value: \x1b[2K\n");
    logger.flush();

    assert_eq!(merged(&mut logger), b"value: \x1b[2K\n");
}

#[test]
fn terminal_decoded_flush_preserves_cached_partial() {
    let path = b"capture.log".to_vec();
    let mut logger = Logger::new(
        Some(&LogDestination::Merged(path.clone())),
        LogFormat::Decoded,
        false,
        false,
    )
    .unwrap()
    .unwrap();
    logger
        .write_terminal_decoded(source(0), &[], b"old");
    logger.flush();
    let mut files = Files::new();
    assert_eq!(
        files.read(&mut logger, LogTarget::Merged),
        Some(b"old".to_vec())
    );

    // Flush leaves the cached partial in place; the next decode overwrites it
    // while its completed line is appended after the already-flushed tail.
    logger
        .write_terminal_decoded(source(0), &[b"new\n".to_vec()], b"");
    logger.flush();

    assert_eq!(
        files.read(&mut logger, LogTarget::Merged),
        Some(b"oldnew\n".to_vec())
    );
}

#[test]
fn terminal_decoded_tails_are_ordered_with_defmt_tails() {
    let path = b"capture.log".to_vec();
    let mut logger = Logger::new(
        Some(&LogDestination::Merged(path.clone())),
        LogFormat::Decoded,
        true,
        false,
    )
    .unwrap()
    .unwrap();
    logger
        .write_terminal_decoded(source(2), &[], b"two");
    logger.write_defmt_decoded(source(0), b"zero");
    logger.reset();

    assert_eq!(merged(&mut logger), b"[ch0] zero\n[ch2] two\n");
}

#[test]
fn terminal_decoded_writes_are_ignored_in_raw_mode() {
    let path = b"capture.log".to_vec();
    let mut logger = Logger::new(
        Some(&LogDestination::PerChannel(path.clone())),
        LogFormat::Raw,
        false,
        false,
    )
    .unwrap()
    .unwrap();
    logger
        .write_terminal_decoded(source(0), &[b"decoded\n".to_vec()], b"partial");
    logger.flush();

    // No terminal channel file is created in raw mode; only raw bytes create files.
    assert_eq!(
        Files::new().read(&mut logger, LogTarget::Channel(source(0))),
        None
    );
}

#[test]
fn ingest_fragment_assembles_line_split_across_calls() {
    let mut assembly = LineAssembly::buffered();
    assert!(assembly.ingest_fragment(b"hel").is_empty());
    assert!(assembly.ingest_fragment(b"lo").is_empty());
    assert_eq!(
        assembly.ingest_fragment(b"\nrest"),
        vec![b"hello\n".to_vec()]
    );
    assert_eq!(assembly.partial_line(), b"rest");
    assert_eq!(assembly.ingest_fragment(b"\n"), vec![b"rest\n".to_vec()]);
    assert!(assembly.partial_line().is_empty());
}

#[test]
fn merged_logs_name_the_core_when_cores_shown() {
    let path = b"capture.log".to_vec();
    let mut logger = Logger::new(
        Some(&LogDestination::Merged(path.clone())),
        LogFormat::Decoded,
        true,
        true,
    )
    .unwrap()
    .unwrap();
    logger.write_defmt_decoded(source(0), b"zero\n");
    logger
        .write_defmt_decoded(
            CoreChannel {
                core: CoreId::new(1),
                channel: ChannelId::from_cli(0, "test").unwrap(),
            },
            b"one\n",
        );
    logger.flush();
    assert_eq!(merged(&mut logger), b"[c0:ch0] zero\n[c1:ch0] one\n");
}

#[test]
fn logger_reset_core_preserves_other_cores() {
    let path = b"capture.log".to_vec();
    let mut logger = Logger::new(
        Some(&LogDestination::Merged(path.clone())),
        LogFormat::Decoded,
        false,
        true,
    )
    .unwrap()
    .unwrap();
    let other = CoreChannel {
        core: CoreId::new(1),
        channel: ChannelId::from_cli(0, "test").unwrap(),
    };
    logger
        .write_terminal_decoded(source(0), &[], b"core0-partial");
    logger
        .write_terminal_decoded(other, &[], b"core1-partial");

    logger.reset_core(CoreId::new(1));
    logger.flush();

    // Core 1 finalized with a newline; core 0 stayed buffered until flush.
    assert_eq!(merged(&mut logger), b"core1-partial\ncore0-partial");
}

#[test]
fn logger_reset_clears_partial_terminal_state() {
    let path = b"capture.log".to_vec();
    let mut logger = Logger::new(
        Some(&LogDestination::Merged(path.clone())),
        LogFormat::Decoded,
        false,
        false,
    )
    .unwrap()
    .unwrap();
    logger
        .write_terminal_decoded(source(0), &[], b"boot");
    logger.reset();
    logger
        .write_terminal_decoded(source(0), &[b"next\n".to_vec()], b"");
    logger.flush();

    assert_eq!(merged(&mut logger), b"boot\nnext\n");
}

#[test]
fn refused_raw_merge_says_why() {
    let error = Logger::new(
        Some(&LogDestination::Merged(b"x".to_vec())),
        LogFormat::Raw,
        true,
        false,
    )
    .unwrap_err();
    assert_eq!(error, RawMergeError);
    assert_eq!(
        error.message(),
        "--log-format raw with multiple up channels requires --log-per-channel"
    );
    assert!(Logger::new(None, LogFormat::Raw, true, true)
        .unwrap()
        .is_none());
}

#[test]
fn fragments_make_the_same_lines_however_they_arrive() {
    let text = b"one\ntwo\n\nthree";
    for split in 0..=text.len() {
        let mut assembly = LineAssembly::buffered();
        let mut lines = assembly.ingest_fragment(&text[..split]);
        lines.extend(assembly.ingest_fragment(&text[split..]));
        assert_eq!(
            lines,
            vec![b"one\n".to_vec(), b"two\n".to_vec(), b"\n".to_vec()]
        );
        assert_eq!(assembly.partial_line(), b"three");
        let mut whole = lines.concat();
        whole.extend(assembly.partial_line());
        assert_eq!(whole, text);
    }
}

#[test]
fn pre_split_assembly_keeps_only_the_partial() {
    let mut assembly = LineAssembly::pre_split();
    assembly.set_partial(b"par");
    assembly.set_partial(b"partial");
    assert_eq!(assembly.partial_line(), b"partial");
    assembly.clear_partial();
    assert!(assembly.partial_line().is_empty());
}

#[test]
fn log_knows_how_a_channel_assembles_lines() {
    let mut logger = Logger::new(
        Some(&LogDestination::Merged(b"x".to_vec())),
        LogFormat::Decoded,
        false,
        false,
    )
    .unwrap()
    .unwrap();
    assert!(logger.assembles_as(source(0), true));
    logger.write_defmt_decoded(source(0), b"x");
    assert!(!logger.assembles_as(source(0), true));
    assert!(logger.assembles_as(source(0), false));
}

#[test]
fn raw_file_is_the_concatenation_of_what_was_read() {
    let destination = LogDestination::PerChannel(b"out.log".to_vec());
    let mut logger = Logger::new(Some(&destination), LogFormat::Raw, true, false)
        .unwrap()
        .unwrap();
    logger.write_bytes(source(0), b"\x1b[1m");
    logger.write_bytes(source(1), b"other");
    logger.write_terminal_decoded(source(0), &[b"decoded\n".to_vec()], b"tail");
    logger.write_defmt_decoded(source(1), b"decoded\n");
    logger.write_bytes(source(0), b"\0end");
    let mut files = Files::new();
    assert_eq!(
        files.read(&mut logger, LogTarget::Channel(source(0))).unwrap(),
        b"\x1b[1m\0end"
    );
    assert_eq!(
        files.read(&mut logger, LogTarget::Channel(source(1))).unwrap(),
        b"other"
    );
}

#[test]
fn reset_of_one_core_keeps_the_lines_of_others() {
    let destination = LogDestination::Merged(b"out.log".to_vec());
    let mut logger = Logger::new(Some(&destination), LogFormat::Decoded, true, true)
        .unwrap()
        .unwrap();
    let other = CoreChannel {
        core: CoreId::new(1),
        channel: ChannelId::new(0),
    };
    logger.write_defmt_decoded(source(0), b"zero");
    logger.write_defmt_decoded(other, b"one");
    logger.reset_core(CoreId::new(0));
    logger.write_defmt_decoded(source(0), b"new\n");
    logger.write_defmt_decoded(other, b" more\n");
    assert_eq!(
        merged(&mut logger),
        b"[c0:ch0] zero\n[c0:ch0] new\n[c1:ch0] one more\n"
    );
}
