use brtt::channel::{ChannelId, CoreChannel, CoreId};
use brtt::cli::{ChannelEncoding, ChannelSpec, ColorMode, LogDestination, LogFormat, SessionPolicy};
use brtt::defmt::{DecodedFrame, Level};
use brtt::logger::{LogAction, Logger};
use brtt::renderer::{
    contains_sgr, ends_with_sgr_reset, erase_foreground, on_or_off, render_channel_bytes,
    render_defmt_frame, render_terminal_chunk, write_toggle_status, ForegroundLine, HostOutput,
    Moment, Presentation, Renderer, SessionState,
};
use brtt::terminal::{DecodedStream, TerminalChunk, TerminalLine, ANSI_RESET, ERASE_CURRENT_LINE};
use std::collections::HashMap;

/// Ten past nine on the first of March 2024, in nanoseconds since 1970.
const STARTED_WALL: u64 = 1_709_284_200_000_000_000;

fn new_state() -> SessionState {
    SessionState::new(0, STARTED_WALL)
}

fn now() -> Moment {
    Moment::new(0, 0).unwrap()
}

fn channel(index: usize) -> ChannelId {
    ChannelId::from_cli(index as u32, "test").unwrap()
}

fn source(core: usize, channel_index: usize) -> CoreChannel {
    CoreChannel {
        core: CoreId::new(core as u32),
        channel: channel(channel_index),
    }
}

fn completed(plain: &[u8], styled: &[u8]) -> TerminalChunk {
    TerminalChunk {
        lines: vec![TerminalLine {
            plain: plain.to_vec(),
            styled: styled.to_vec(),
        }],
        partial: TerminalLine {
            plain: Vec::new(),
            styled: Vec::new(),
        },
    }
}

fn partial(plain: &[u8], styled: &[u8]) -> TerminalChunk {
    TerminalChunk {
        lines: Vec::new(),
        partial: TerminalLine {
            plain: plain.to_vec(),
            styled: styled.to_vec(),
        },
    }
}

fn empty_chunk() -> TerminalChunk {
    partial(b"", b"")
}
struct ChunkFeed {
    streams: HashMap<ChannelId, DecodedStream>,
}

impl ChunkFeed {
    fn new() -> Self {
        Self { streams: HashMap::new() }
    }

    fn chunk(&mut self, state: &SessionState, channel: ChannelId, bytes: &[u8]) -> TerminalChunk {
        self.streams
            .entry(channel)
            .or_insert_with(DecodedStream::new)
            .consume_chunk(bytes, state.is_interactive())
    }
}

fn render_bytes_chunked(
    state: &mut SessionState,
    feed: &mut ChunkFeed,
    channel: ChannelId,
    bytes: &[u8],
    timestamp: Moment,
    output: &mut Vec<u8>,
) {
    let chunk = feed.chunk(state, channel, bytes);
    render_terminal_chunk(
        CoreChannel { core: CoreId::new(0), channel },
        chunk,
        timestamp,
        state,
        output,
    );
}

#[test]
fn timestamps_are_added_once_per_logical_line() {
    let mut state = new_state();
    state.timestamps = true;

    let timestamp = Moment::new(123_000_000, 3600).unwrap();
    let src = source(0, 0);
    let mut output = Vec::new();

    render_channel_bytes(
        b"partial",
        src,
        timestamp,
        &mut state,
        &mut output,
        None,
    );

    render_channel_bytes(
        b" line\nnext",
        src,
        timestamp,
        &mut state,
        &mut output,
        None,
    );

    let wall = chrono::DateTime::from_timestamp_nanos(STARTED_WALL as i64 + 123_000_000)
        .with_timezone(&chrono::FixedOffset::east_opt(3600).unwrap())
        .format("%Y-%m-%d %H:%M:%S%.3f");
    assert_eq!(wall.to_string(), "2024-03-01 10:10:00.123");

    assert_eq!(
        output,
        format!("[{wall}] partial line\r\n[{wall}] next").as_bytes()
    );
}

#[test]
fn channel_labels_are_added_at_line_starts() {
    let mut state = new_state();
    state.channel_labels = true;

    let mut output = Vec::new();

    render_channel_bytes(
        b"first\nsecond\n",
        source(0, 2),
        now(),
        &mut state,
        &mut output,
        None,
    );

    assert_eq!(
        output,
        b"[ch2] first\r\n[ch2] second\r\n"
    );
}

#[test]
fn interactive_complete_line_uses_styled_representation() {
    let mut state = new_state();
    let mut output = Vec::new();

    render_terminal_chunk(
        source(0, 0),
        completed(b"plain\n", b"styled"),
        now(),
        &mut state,
        &mut output,
    );

    assert_eq!(
        output,
        [b"styled".as_slice(), ANSI_RESET.as_bytes(), b"\r\n"].concat()
    );
}

#[test]
fn redirected_complete_line_uses_plain_representation() {
    let mut state = new_state();
    state.presentation = Presentation::Redirected;
    let mut output = Vec::new();

    render_terminal_chunk(
        source(0, 0),
        completed(b"plain\n", b"styled-that-must-not-appear"),
        now(),
        &mut state,
        &mut output,
    );

    assert_eq!(output, b"plain\n");
}

#[test]
fn redirected_partials_are_buffered_and_flushed_in_source_order() {
    let mut state = new_state();
    state.presentation = Presentation::Redirected;

    let mut renderer = Renderer::new(Vec::new(), None, state);
    let timestamp = now();

    renderer
        .render_terminal_event(
            source(0, 2),
            partial(b"two", b"ignored"),
            timestamp,
        );

    renderer
        .render_terminal_event(
            source(0, 0),
            partial(b"zero", b"ignored"),
            timestamp,
        );

    assert!(renderer.output.is_empty());

    renderer.finish_target_epoch(now());

    assert_eq!(renderer.output, b"zero\ntwo\n");
}

#[test]
fn interactive_partial_becomes_foreground() {
    let mut state = new_state();
    let src = source(0, 0);

    let mut output = Vec::new();

    render_terminal_chunk(
        src,
        partial(b"> ", b"> "),
        now(),
        &mut state,
        &mut output,
    );

    assert_eq!(output, b"> ");

    let foreground = state.foreground().unwrap();
    assert_eq!(foreground.channel, src);
    assert_eq!(foreground.rendered, b"> ");
}

#[test]
fn background_partial_is_cached_without_touching_screen() {
    let mut state = new_state();
    let foreground_source = source(0, 0);
    let background_source = source(1, 0);

    let mut output = Vec::new();

    render_terminal_chunk(
        foreground_source,
        partial(b"a> ", b"a> "),
        now(),
        &mut state,
        &mut output,
    );

    assert_eq!(output, b"a> ");

    render_terminal_chunk(
        background_source,
        partial(b"b> ", b"b> "),
        now(),
        &mut state,
        &mut output,
    );

    // Background activity does not disturb the visible prompt.
    assert_eq!(output, b"a> ");
    assert_eq!(
        state.foreground().unwrap().channel,
        foreground_source
    );

    // But its prompt is available for a later core switch.
    let cached = state.prompts.get(&background_source.core).unwrap();
    assert_eq!(cached.channel, background_source);
    assert_eq!(cached.rendered, b"b> ");
}

#[test]
fn background_complete_line_temporarily_replaces_and_restores_foreground() {
    let mut state = new_state();
    let foreground_source = source(0, 0);
    let background_source = source(1, 0);

    let mut output = Vec::new();

    render_terminal_chunk(
        foreground_source,
        partial(b"> ", b"> "),
        now(),
        &mut state,
        &mut output,
    );

    render_terminal_chunk(
        background_source,
        completed(b"log\n", b"log"),
        now(),
        &mut state,
        &mut output,
    );

    let expected = [
        b"> ".as_slice(),
        ERASE_CURRENT_LINE.as_bytes(),
        ANSI_RESET.as_bytes(),
        b"log",
        ANSI_RESET.as_bytes(),
        b"\r\n",
        b"> ",
    ]
    .concat();

    assert_eq!(output, expected);

    assert_eq!(
        state.foreground().unwrap().channel,
        foreground_source
    );
}

#[test]
fn completed_line_does_not_restore_its_own_old_partial() {
    let mut state = new_state();
    let src = source(0, 0);

    let mut output = Vec::new();

    render_terminal_chunk(
        src,
        partial(b"> ", b"> "),
        now(),
        &mut state,
        &mut output,
    );

    render_terminal_chunk(
        src,
        completed(b"> help\n", b"> help"),
        now(),
        &mut state,
        &mut output,
    );

    let expected = [
        b"> ".as_slice(),
        ERASE_CURRENT_LINE.as_bytes(),
        ANSI_RESET.as_bytes(),
        b"> help",
        ANSI_RESET.as_bytes(),
        b"\r\n",
    ]
    .concat();

    assert_eq!(output, expected);
    assert!(state.foreground().is_none());
}

#[test]
fn empty_partial_clears_its_foreground() {
    let mut state = new_state();
    let src = source(0, 0);
    let mut output = Vec::new();

    render_terminal_chunk(src, partial(b"> ", b"> "), now(), &mut state, &mut output);
    render_terminal_chunk(src, empty_chunk(), now(), &mut state, &mut output);

    assert_eq!(output, [b"> ".as_slice(), ERASE_CURRENT_LINE.as_bytes(), ANSI_RESET.as_bytes()].concat());
    assert!(state.foreground().is_none());
}
#[test]
fn cached_core_prompt_can_be_restored_without_new_target_bytes() {
    let core0 = source(0, 0);
    let core1 = source(1, 0);
    let mut state = new_state();
    state.channel_labels = true;
    state.show_cores = true;
    let mut feed0 = ChunkFeed::new();
    let mut feed1 = ChunkFeed::new();
    let mut output = Vec::new();
    let timestamp = now();

    let chunk = feed0.chunk(&state, channel(0), b"m7:~$ ");
    render_terminal_chunk(core0, chunk, timestamp, &mut state, &mut output);
    let chunk = feed1.chunk(&state, channel(0), b"m4:~$ ");
    render_terminal_chunk(core1, chunk, timestamp, &mut state, &mut output);

    let mut renderer = Renderer::new(Vec::new(), None, state);
    renderer.suspend_foreground();
    renderer.output.clear();
    assert!(renderer.show_cached_prompt(core1.core, now()));
    assert_eq!(renderer.output, b"[c1:ch0] m4:~$ ");
    assert_eq!(renderer.state.foreground().unwrap().channel, core1);
}

#[test]
fn zephyr_help_output_is_followed_by_the_partial_prompt() {
    let mut state = new_state();
    let mut feed = ChunkFeed::new();
    let mut output = Vec::new();
    let timestamp = now();

    render_bytes_chunked(
        &mut state,
        &mut feed,
        ChannelId::from_cli(0, "test").unwrap(),
        b"rtt:~$ help",
        timestamp,
        &mut output,
    );
    render_bytes_chunked(
        &mut state,
        &mut feed,
        ChannelId::from_cli(0, "test").unwrap(),
        b"\r\nShell commands\r\nhelp  Show help\r\nrtt:~$ ",
        timestamp,
        &mut output,
    );

    assert!(output.ends_with(b"rtt:~$ "));
    assert_eq!(state.foreground().unwrap().rendered, b"rtt:~$ ");
}

#[test]
fn config_and_clear_screen_outputs_include_session_settings() {
    let config = SessionPolicy {
        probe: "probe-id".to_string(),
        chip: "nRF52840_xxAA".to_string(),
        up_specs: vec![ChannelSpec {
            core: None,
            index: 2,
            mode: ChannelEncoding::Terminal,
        }],
        down_channel: Some(ChannelId::from_cli(1, "test").unwrap()),
        down_explicit: true,
        poll_interval: 10,
        timestamps: false,
        color: ColorMode::Never,
        log: None,
    };
    let host = HostOutput {
        is_terminal: false,
        no_color: false,
    };
    let mut renderer =
        Renderer::for_session(Vec::new(), None, &config, true, false, host, 0, STARTED_WALL);
    renderer.clear_screen();
    assert_eq!(renderer.output, b"\x1b[2J\x1b[1;1H");
}

#[test]
fn erase_foreground_always_resets_terminal_attributes() {
    let src = source(0, 0);
    let mut state = new_state();

    state.set_foreground(ForegroundLine {
        channel: src,
        rendered: b"\x1b[32m> ".to_vec(),
    });

    let mut output = Vec::new();

    let saved = erase_foreground(&mut state, &mut output)
        .unwrap();

    assert_eq!(saved.channel, src);
    assert_eq!(
        output,
        [ERASE_CURRENT_LINE.as_bytes(), ANSI_RESET.as_bytes()].concat()
    );
    assert!(state.foreground().is_none());
}

#[test]
fn reset_core_removes_only_that_cores_cached_state() {
    let core0 = source(0, 0);
    let core1 = source(1, 0);
    let mut state = new_state();
    state.partials.insert(core0, b"zero".to_vec());
    state.partials.insert(core1, b"one".to_vec());
    state.prompts.insert(core0.core, ForegroundLine { channel: core0, rendered: b"zero> ".to_vec() });
    state.prompts.insert(core1.core, ForegroundLine { channel: core1, rendered: b"one> ".to_vec() });
    state.reset_core(core1.core);
    assert!(state.partials.contains_key(&core0));
    assert!(!state.partials.contains_key(&core1));
    assert!(state.prompts.contains_key(&core0.core));
    assert!(!state.prompts.contains_key(&core1.core));
}
#[test]
fn defmt_level_color_composes_after_channel_color() {
    let frame = DecodedFrame {
        message: "bad".into(),
        timestamp: None,
        level: Some(Level::Error),
    };
    let mut output = Vec::new();
    let mut state = new_state();
    state.channel_labels = true;
    state.color = true;

    render_defmt_frame(
        source(0, 1),
        &frame,
        now(),
        &mut state,
        &mut None,
        &mut output,
    );

    assert_eq!(output, b"\x1b[35m[ch1] \x1b[0m\x1b[31merror bad\r\n\x1b[0m");
}

#[test]
fn reset_core_preserves_other_cores_state() {
    let core0 = source(0, 1);
    let core1 = source(1, 1);
    let mut state = new_state();
    state.last_channel = Some(core1);
    state.partials.insert(core0, b"zero".to_vec());
    state.partials.insert(core1, b"one".to_vec());
    state.set_foreground(ForegroundLine { channel: core0, rendered: b"zero> ".to_vec() });
    state.prompts.insert(core1.core, ForegroundLine { channel: core1, rendered: b"one> ".to_vec() });
    state.reset_core(core1.core);
    assert!(state.partials.contains_key(&core0));
    assert!(!state.partials.contains_key(&core1));
    assert!(state.prompts.contains_key(&core0.core));
    assert!(!state.prompts.contains_key(&core1.core));
    assert_eq!(state.foreground().unwrap().channel, core0);
}

#[test]
fn reset_target_clears_all_presentation_state() {
    let mut state = new_state();
    let src = source(0, 0);
    state.line_start = false;
    state.last_channel = Some(src);
    state.partials.insert(src, b"partial".to_vec());
    state.set_foreground(ForegroundLine { channel: src, rendered: b"> ".to_vec() });
    state.reset_target();
    assert!(state.line_start);
    assert!(state.last_channel.is_none());
    assert!(state.partials.is_empty());
    assert!(state.prompts.is_empty());
    assert!(state.foreground().is_none());
}

#[test]
fn selected_down_core_keeps_foreground_when_its_prompt_completes_or_clears() {
    let ch = ChannelId::from_cli(0, "test").unwrap();
    let selected = CoreChannel {
        core: CoreId::new(0),
        channel: ch,
    };
    let background = CoreChannel {
        core: CoreId::new(1),
        channel: ch,
    };
    let mut renderer = Renderer::new(Vec::new(), None, new_state());
    renderer.select_down_core(Some(selected.core));
    let mut selected_feed = ChunkFeed::new();
    let mut background_feed = ChunkFeed::new();
    let now = now();

    let chunk = selected_feed.chunk(&renderer.state, ch, b"> ");
    renderer
        .render_terminal_event(selected, chunk, now);
    let chunk = selected_feed.chunk(&renderer.state, ch, b"done\n");
    renderer
        .render_terminal_event(selected, chunk, now);
    assert!(renderer.state.foreground().is_none());
    let before = renderer.output.len();
    let chunk = background_feed.chunk(&renderer.state, ch, b"background> ");
    renderer
        .render_terminal_event(background, chunk, now);
    assert_eq!(renderer.output.len(), before);
    assert_eq!(
        renderer.state.prompts.get(&background.core).unwrap().rendered,
        b"background> "
    );

    let chunk = selected_feed.chunk(&renderer.state, ch, b"> ");
    renderer
        .render_terminal_event(selected, chunk, now);
    let chunk = selected_feed.chunk(&renderer.state, ch, b"\r\x1b[2K");
    renderer
        .render_terminal_event(selected, chunk, now);
    assert!(renderer.state.foreground().is_none());
    let before = renderer.output.len();
    let chunk = background_feed.chunk(&renderer.state, ch, b"still here");
    renderer
        .render_terminal_event(background, chunk, now);
    assert_eq!(renderer.output.len(), before);

    renderer.select_down_core(Some(background.core));
    assert!(renderer.show_cached_prompt(background.core, now));
    assert_eq!(renderer.state.foreground().unwrap().channel, background);
}

#[test]
fn unavailable_down_core_releases_foreground_to_other_cores() {
    let ch = ChannelId::from_cli(0, "test").unwrap();
    let lost = CoreId::new(0);
    let healthy = CoreChannel {
        core: CoreId::new(1),
        channel: ch,
    };
    let mut renderer = Renderer::new(Vec::new(), None, new_state());
    renderer.select_down_core(Some(lost));
    let mut feed = ChunkFeed::new();
    let now = now();

    let chunk = feed.chunk(&renderer.state, ch, b"healthy> ");
    renderer.render_terminal_event(healthy, chunk, now);
    assert!(renderer.state.foreground().is_none());
    assert!(renderer.output.is_empty());

    renderer.select_down_core(None);
    assert!(renderer.show_cached_prompt(healthy.core, now));
    assert_eq!(renderer.state.foreground().unwrap().channel, healthy);
    assert_eq!(renderer.output, b"healthy> ");
}

#[test]
fn reset_core_drops_its_cached_prompt() {
    let core0 = CoreChannel {
        core: CoreId::new(0),
        channel: ChannelId::from_cli(0, "test").unwrap(),
    };
    let core1 = CoreChannel {
        core: CoreId::new(1),
        channel: ChannelId::from_cli(0, "test").unwrap(),
    };
    let mut state = new_state();
    state.channel_labels = true;
    state.show_cores = true;
    let mut feed0 = ChunkFeed::new();
    let mut feed1 = ChunkFeed::new();
    let mut output = Vec::new();
    let timestamp = now();

    let chunk = feed0.chunk(&state, ChannelId::from_cli(0, "test").unwrap(), b"m7:~$ ");
    render_terminal_chunk(core0, chunk, timestamp, &mut state, &mut output);
    let chunk = feed1.chunk(&state, ChannelId::from_cli(0, "test").unwrap(), b"m4:~$ ");
    render_terminal_chunk(core1, chunk, timestamp, &mut state, &mut output);

    // A reattached core rebooted, so its cached prompt is stale.
    let mut renderer = Renderer::new(Vec::new(), None, state);
    let _ = renderer.suspend_foreground();
    renderer.output.clear();
    renderer.state.reset_core(CoreId::new(1));
    assert!(!renderer.show_cached_prompt(CoreId::new(1), now()));
    assert!(renderer.output.is_empty());
}

#[test]
fn erase_core_prompt_erases_only_that_cores_foreground() {
    let core0 = CoreChannel {
        core: CoreId::new(0),
        channel: ChannelId::from_cli(0, "test").unwrap(),
    };
    let mut state = new_state();
    state.set_foreground(ForegroundLine {
        channel: core0,
        rendered: b"m7:~$ ".to_vec(),
    });
    let mut renderer = Renderer::new(Vec::new(), None, state);

    // Another core's prompt is untouched.
    renderer.erase_core_prompt(CoreId::new(1));
    assert_eq!(renderer.state.foreground().unwrap().channel, core0);

    // The owning core's prompt is erased and dropped.
    renderer.erase_core_prompt(CoreId::new(0));
    assert_eq!(renderer.output, [ERASE_CURRENT_LINE.as_bytes(), ANSI_RESET.as_bytes()].concat());
    assert!(renderer.state.foreground().is_none());
}

#[test]
fn reset_target_clears_renderer_state() {
    let mut state = new_state();
    let src = source(0, 0);
    state.line_start = false;
    state.last_channel = Some(src);
    state.partials.insert(src, b"partial".to_vec());

    state.set_foreground(ForegroundLine {
        channel: src,
        rendered: b"> ".to_vec(),
    });

    state.reset_target();

    assert!(state.line_start);
    assert!(state.last_channel.is_none());
    assert!(state.partials.is_empty());
    assert!(state.prompts.is_empty());
    assert!(state.foreground().is_none());
}

#[test]
fn decoded_terminal_and_renderer_agree_on_redraw_semantics() {
    let mut state = new_state();
    state.presentation = Presentation::Redirected;
    let mut feed = ChunkFeed::new();
    let mut output = Vec::new();
    let long = vec![b'a'; 4096];
    render_bytes_chunked(&mut state, &mut feed, channel(0), &long, now(), &mut output);
    render_bytes_chunked(&mut state, &mut feed, channel(0), b"\n", now(), &mut output);
    assert_eq!(output, [long, b"\n".to_vec()].concat());
}

#[test]
fn terminal_output_preserves_sgr_colors_without_cursor_rewrites() {
    let mut state = new_state();
    let mut feed = ChunkFeed::new();
    let mut output = Vec::new();

    render_bytes_chunked(
        &mut state,
        &mut feed,
        ChannelId::from_cli(0, "test").unwrap(),
        b"\x1b[31mred\x1b[0m\n",
        now(),
        &mut output,
    );

    assert_eq!(output, b"\x1b[31mred\x1b[0m\r\n");
}


/// Everything that was appended to the log.
fn logged(renderer: &mut Renderer) -> Vec<u8> {
    let mut bytes = Vec::new();
    for action in renderer.logger.as_mut().unwrap().take_actions() {
        if let LogAction::Append { bytes: more, .. } = action {
            bytes.extend(more);
        }
    }
    bytes
}

fn decoded_log() -> Logger {
    Logger::new(
        Some(&LogDestination::Merged(b"session.log".to_vec())),
        LogFormat::Decoded,
        false,
        false,
    )
    .unwrap()
    .unwrap()
}

#[test]
fn terminal_event_split_escape_shares_single_decode_between_display_and_log() {
    let logger = decoded_log();
    let mut state = new_state();
    state.presentation = Presentation::Redirected;
    let mut renderer = Renderer::new(Vec::new(), Some(logger), state);
    let mut decoder = DecodedStream::new();
    let chunk = decoder.consume_chunk(b"old\r\x1b[2Knew\n", false);
    assert_eq!(chunk.lines[0].plain, b"new\n");
    renderer.render_terminal_event(source(0, 0), chunk, now());
    assert_eq!(renderer.output, b"new\n");
    renderer.finish_target_epoch(now());
    assert_eq!(logged(&mut renderer), b"new\n");
}

#[test]
fn display_and_log_get_the_same_lines() {
    let mut state = new_state();
    state.presentation = Presentation::Redirected;
    let mut renderer = Renderer::new(Vec::new(), Some(decoded_log()), state);
    let mut decoder = DecodedStream::new();
    for bytes in [&b"one\ntw"[..], b"o\rTW\nthr", b"ee\n"] {
        let chunk = decoder.consume_chunk(bytes, false);
        renderer.render_terminal_event(source(0, 0), chunk, now());
    }
    assert_eq!(renderer.output, b"one\nTWo\nthree\n");
    assert_eq!(logged(&mut renderer), renderer.output);
}

#[test]
fn wall_clock_counts_from_the_start() {
    let mut state = SessionState::new(500, STARTED_WALL);
    state.timestamps = true;
    assert_eq!(state.wall_clock_at(1_000_000_500), (1_709_284_201, 0));
    assert_eq!(state.wall_clock_at(0), (1_709_284_200, 0));
    let mut output = Vec::new();
    render_channel_bytes(
        b"x",
        source(0, 0),
        Moment::new(60_000_000_500, -7200).unwrap(),
        &mut state,
        &mut output,
        None,
    );
    assert_eq!(output, b"[2024-03-01 07:11:00.000] x");
    assert!(Moment::new(0, 86_400).is_none());
    assert!(Moment::new(0, -86_400).is_none());
}

#[test]
fn labels_follow_the_source_within_a_line() {
    let mut state = new_state();
    state.channel_labels = true;
    state.show_cores = true;
    state.color = true;
    let mut output = Vec::new();
    render_channel_bytes(b"a", source(0, 0), now(), &mut state, &mut output, None);
    render_channel_bytes(b"b\rc", source(1, 7), now(), &mut state, &mut output, None);
    assert_eq!(
        output,
        b"\x1b[36m[c0:ch0] \x1b[0ma\x1b[35m[c1:ch7] \x1b[0mb\r\x1b[35m[c1:ch7] \x1b[0mc"
    );
}

#[test]
fn warnings_are_counted_and_logged() {
    let mut renderer = Renderer::new(Vec::new(), Some(decoded_log()), new_state());
    assert!(renderer.log_accepts(source(0, 1), false));
    renderer.render_defmt_warning(source(0, 1), "first", now());
    renderer.render_defmt_warning(source(0, 1), "second", now());
    assert_eq!(
        renderer.output,
        b"[defmt warning #1] first\r\n[defmt warning #2] second\r\n"
    );
    assert_eq!(
        logged(&mut renderer),
        b"[defmt warning #1] first\n[defmt warning #2] second\n"
    );
    assert!(!renderer.log_accepts(source(0, 1), true));
    renderer.render_defmt_frame(
        source(0, 1),
        &DecodedFrame {
            message: "hello".into(),
            timestamp: Some("12".into()),
            level: Some(Level::Info),
        },
        now(),
    );
    assert_eq!(logged(&mut renderer), b"[12] info hello\n");
}

#[test]
fn message_brings_the_prompt_back() {
    let mut state = new_state();
    state.set_foreground(ForegroundLine {
        channel: source(0, 0),
        rendered: b"> ".to_vec(),
    });
    let mut renderer = Renderer::new(Vec::new(), None, state);
    renderer.render_defmt_frame(
        source(1, 0),
        &DecodedFrame {
            message: "note".into(),
            timestamp: None,
            level: None,
        },
        now(),
    );
    assert_eq!(renderer.output, b"\r\x1b[2K\x1b[0mnote\r\n> ");
    assert_eq!(
        renderer.state.foreground().unwrap().channel,
        source(0, 0)
    );
}

#[test]
fn session_end_leaves_a_clean_line() {
    let mut renderer = Renderer::new(Vec::new(), None, new_state());
    renderer.finish_session(now());
    assert_eq!(renderer.output, b"\x1b[0m\r\x1b[2K\r\n");

    let mut state = new_state();
    state.presentation = Presentation::Redirected;
    state.partials.insert(source(0, 0), b"tail".to_vec());
    let mut renderer = Renderer::new(Vec::new(), Some(decoded_log()), state);
    renderer.log_raw_bytes(source(0, 0), b"ignored in a decoded log");
    renderer.finish_session(now());
    assert_eq!(renderer.output, b"tail\n");
    assert!(logged(&mut renderer).is_empty());
}

#[test]
fn notices_name_core_and_channel() {
    let mut renderer = Renderer::new(Vec::new(), None, new_state());
    renderer.notice_down_target(CoreId::new(1), ChannelId::new(3));
    assert_eq!(
        renderer.output,
        b"\r\nKeyboard input now targets core 1 (down ch3).\r\n"
    );
    let mut output = Vec::new();
    write_toggle_status(&mut output, "Timestamps", false);
    assert_eq!(output, b"\r\nTimestamps: off\r\n");
    assert_eq!(on_or_off(true), "on");
}

#[test]
fn graphic_renditions_are_recognised() {
    assert!(contains_sgr(b"a\x1b[1;31mb"));
    assert!(!contains_sgr(b"a\x1b[2Kb"));
    assert!(!contains_sgr(b"\x1b\x1b[m"));
    assert!(ends_with_sgr_reset(b"x\x1b[0m"));
    assert!(ends_with_sgr_reset(b"\x1b[m"));
    assert!(!ends_with_sgr_reset(b"\x1b[0m "));
}
