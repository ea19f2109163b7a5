use brtt::channel::ChannelId;
use brtt::cli::{
    configured_up_specs, expand_sources, parse_scan_region, resolve_elf_specs, validate_up_coverage, ChannelEncoding, ChannelSpec, ColorMode, ElfSpec,
    LogDestination, LogFormat, Mode, Opts, ProbeInfo, ResolvedOpts, SessionPolicy,
    DEFAULT_POLL_INTERVAL_MS,
};
use brtt::defmt::{parse_filter_spec_value, FilterSpec, Level};
use brtt::rtt::{AddressRange, ScanRegion};
use clap::{Arg, ArgAction, Command};

fn command() -> Command {
    Command::new("brtt")
        .arg(
            Arg::new("probe")
                .short('p')
                .long("probe")
                .value_parser(ProbeInfo::from_str),
        )
        .arg(Arg::new("chip").short('c').long("chip"))
        .arg(
            Arg::new("list")
                .short('l')
                .long("list")
                .action(ArgAction::SetTrue),
        )
        .arg(
            Arg::new("up")
                .short('u')
                .long("up")
                .action(ArgAction::Append)
                .value_name("[CORE:]CHANNEL[:MODE]")
                .value_parser(ChannelSpec::from_str),
        )
        .arg(
            Arg::new("down")
                .short('d')
                .long("down")
                .conflicts_with("no_down")
                .value_name("CHANNEL")
                .value_parser(clap::builder::RangedU64ValueParser::<u32>::new()),
        )
        .arg(
            Arg::new("reset")
                .short('r')
                .long("reset")
                .action(ArgAction::SetTrue),
        )
        .arg(
            Arg::new("timestamps")
                .short('t')
                .long("timestamp")
                .action(ArgAction::SetTrue),
        )
        .arg(
            Arg::new("poll_interval")
                .long("poll-interval")
                .value_name("MILLISECONDS")
                .value_parser(clap::builder::RangedU64ValueParser::<u64>::new().range(1..)),
        )
        .arg(
            Arg::new("scan_region")
                .long("scan-region")
                .value_parser(parse_scan_region),
        )
        .arg(
            Arg::new("elf")
                .long("elf")
                .action(ArgAction::Append)
                .value_name("[INDEX=]PATH")
                .value_parser(ElfSpec::from_str),
        )
        .arg(
            Arg::new("debug_defmt_table")
                .long("debug-defmt-table")
                .requires("elf")
                .action(ArgAction::SetTrue),
        )
        .arg(
            Arg::new("defmt_filters")
                .long("defmt-filter")
                .value_name("SPEC")
                .value_parser(parse_filter_spec_value),
        )
        .arg(
            Arg::new("color")
                .long("color")
                .default_value("auto")
                .value_parser(["auto", "always", "never"]),
        )
        .arg(Arg::new("log").short('L').long("log").value_name("PATH"))
        .arg(
            Arg::new("log_per_channel")
                .long("log-per-channel")
                .requires("log")
                .action(ArgAction::SetTrue),
        )
        .arg(
            Arg::new("log_format")
                .long("log-format")
                .requires("log")
                .value_parser(["raw", "decoded"]),
        )
        .arg(
            Arg::new("no_down")
                .long("no-down")
                .action(ArgAction::SetTrue),
        )
}

fn parse(args: &[&str]) -> Result<Opts, String> {
    let matches = command()
        .try_get_matches_from(args)
        .map_err(|error| error.to_string())?;
    Ok(Opts {
        probe: matches.get_one::<ProbeInfo>("probe").copied(),
        chip: matches.get_one::<String>("chip").cloned(),
        list: matches.get_flag("list"),
        up: matches
            .get_many::<ChannelSpec>("up")
            .map(|specs| specs.copied().collect())
            .unwrap_or_default(),
        down: matches.get_one::<u32>("down").copied(),
        reset: matches.get_flag("reset"),
        timestamps: matches.get_flag("timestamps"),
        poll_interval: matches
            .get_one::<u64>("poll_interval")
            .copied()
            .unwrap_or(DEFAULT_POLL_INTERVAL_MS),
        scan_region: matches.get_one::<ScanRegion>("scan_region").cloned(),
        elf: matches
            .get_many::<ElfSpec>("elf")
            .map(|specs| specs.cloned().collect())
            .unwrap_or_default(),
        debug_defmt_table: matches.get_flag("debug_defmt_table"),
        defmt_filters: matches.get_one::<FilterSpec>("defmt_filters").cloned(),
        color: match matches.get_one::<String>("color").unwrap().as_str() {
            "always" => ColorMode::Always,
            "never" => ColorMode::Never,
            _ => ColorMode::Auto,
        },
        log: matches
            .get_one::<String>("log")
            .map(|path| path.as_bytes().to_vec()),
        log_per_channel: matches.get_flag("log_per_channel"),
        log_format: matches
            .get_one::<String>("log_format")
            .map(|format| match format.as_str() {
                "raw" => LogFormat::Raw,
                _ => LogFormat::Decoded,
            }),
        no_down: matches.get_flag("no_down"),
    })
}

fn resolve_args(args: &[&str]) -> Result<ResolvedOpts, String> {
    let opts = parse(args)?;
    opts.resolve()
}

fn assert_resolve_error(args: &[&str], expected: &str) {
    let error = resolve_args(args).expect_err("arguments unexpectedly accepted");
    assert!(
        error.contains(expected),
        "{error:?} does not contain {expected:?}"
    );
}

#[test]
fn channel_spec_parses_all_forms() {
    for (value, core, index, mode) in [
        ("1:terminal", None, 1, ChannelEncoding::Terminal),
        ("2:defmt", None, 2, ChannelEncoding::Defmt),
        ("4294967295", None, u32::MAX, ChannelEncoding::Terminal),
        ("1:0", Some(1), 0, ChannelEncoding::Terminal),
        ("0:0:terminal", Some(0), 0, ChannelEncoding::Terminal),
        ("1:0:defmt", Some(1), 0, ChannelEncoding::Defmt),
    ] {
        assert_eq!(
            ChannelSpec::from_str(value),
            Ok(ChannelSpec { core, index, mode }),
            "parsing {value:?}"
        );
    }
    for value in [
        "",
        ":terminal",
        "1:",
        "1:terminal:x",
        "1:0:defmt:x",
        "0::terminal",
        ":0:terminal",
        "a:0",
        "-1",
        "1:binary",
        "not-a-channel",
        "4294967296",
    ] {
        assert!(ChannelSpec::from_str(value).is_err(), "accepted {value:?}");
    }
}

#[test]
fn channel_spec_errors_say_what_is_wrong() {
    for (value, message) in [
        ("", "channel index cannot be empty"),
        ("x", "invalid channel index 'x', expected a u32"),
        ("1:binary", "invalid channel index 'binary', expected a u32"),
        (":0", "core index cannot be empty"),
        ("a:0", "invalid core index 'a', expected a u32"),
        (
            "1:0:binary",
            "invalid channel mode 'binary', expected terminal or defmt",
        ),
        (
            "1:0:defmt:x",
            "invalid channel specification '1:0:defmt:x', expected [CORE:]CHANNEL[:MODE]",
        ),
    ] {
        assert_eq!(ChannelSpec::from_str(value), Err(message.to_string()));
    }
    assert_eq!(
        ChannelSpec::from_str("+3"),
        Ok(ChannelSpec {
            core: None,
            index: 3,
            mode: ChannelEncoding::Terminal
        })
    );
    assert_eq!(ChannelEncoding::Terminal.name(), "terminal");
    assert_eq!(
        ChannelEncoding::from_str("defmt"),
        Ok(ChannelEncoding::Defmt)
    );
}

#[test]
fn elf_spec_parses_bare_and_indexed_paths() {
    assert_eq!(
        ElfSpec::from_str("firmware.elf"),
        Ok(ElfSpec {
            index: None,
            path: String::from("firmware.elf"),
        })
    );
    assert_eq!(
        ElfSpec::from_str("1=m4.elf"),
        Ok(ElfSpec {
            index: Some(1),
            path: String::from("m4.elf"),
        })
    );
    for value in ["", "0=", "=m7.elf", "firmware=v2.elf", "4294967296=m7.elf"] {
        assert!(ElfSpec::from_str(value).is_err(), "accepted {value:?}");
    }
}

#[test]
fn elf_spec_errors_say_what_is_wrong() {
    for (value, message) in [
        ("", "invalid ELF specification '', expected [INDEX=]PATH"),
        ("0=", "invalid ELF specification '0=', expected [INDEX=]PATH"),
        ("=m7.elf", "invalid ELF index in '=m7.elf', expected a u32"),
        ("x=y=z", "invalid ELF index 'x', expected a u32"),
    ] {
        assert_eq!(ElfSpec::from_str(value), Err(message.to_string()));
    }
    assert_eq!(
        ElfSpec::from_str("2=a=b.elf"),
        Ok(ElfSpec {
            index: Some(2),
            path: "a=b.elf".to_string()
        })
    );
}

#[test]
fn probe_selection_is_a_number_or_list() {
    assert_eq!(ProbeInfo::from_str("list"), Ok(ProbeInfo::List));
    assert_eq!(ProbeInfo::from_str("12"), Ok(ProbeInfo::Number(12)));
    assert_eq!(ProbeInfo::from_str("one"), Err("Invalid probe number."));
}

#[test]
fn scan_regions_are_addresses_or_ranges() {
    assert_eq!(parse_scan_region("  \u{2003}"), Ok(ScanRegion::Ram));
    assert_eq!(
        parse_scan_region("0x20002e68"),
        Ok(ScanRegion::Exact(0x20002e68))
    );
    assert_eq!(parse_scan_region(" 4096 "), Ok(ScanRegion::Exact(4096)));
    assert_eq!(
        parse_scan_region("0X0000..0x1000"),
        Ok(ScanRegion::Ranges(vec![AddressRange {
            start: 0,
            end: 0x1000
        }]))
    );
    assert_eq!(
        parse_scan_region("0x20..16"),
        Err(
            "invalid scan range '0x20..16': start 0x20 must be less than end 0x10".to_string()
        )
    );
    assert_eq!(
        parse_scan_region("1..2..3"),
        Err("Invalid range: multiple '..'s".to_string())
    );
    assert_eq!(
        parse_scan_region("1.."),
        Err("cannot parse integer from empty string".to_string())
    );
    assert_eq!(
        parse_scan_region("1...2"),
        Err("invalid digit found in string".to_string())
    );
    assert_eq!(
        parse_scan_region("0x10000000000000000"),
        Err("number too large to fit in target type".to_string())
    );
}

#[test]
fn filters_have_optional_prefixes() {
    let spec = parse_filter_spec_value("app=debug,warn").unwrap();
    assert_eq!(spec.filters.len(), 2);
    assert_eq!(spec.filters[0].module, "app");
    assert_eq!(spec.filters[0].level, Level::Debug);
    assert_eq!(spec.filters[1].module, "");
    assert_eq!(spec.filters[1].level, Level::Warn);
    assert_eq!(
        parse_filter_spec_value("loud"),
        Err("invalid defmt filter 'loud', expected LEVEL or MODULE=LEVEL".to_string())
    );
    assert!(parse_filter_spec_value("a=b=warn").is_err());
}

#[test]
fn repeated_filter_prefixes_are_rejected() {
    assert_resolve_error(
        &[
            "brtt",
            "--up",
            "1:defmt",
            "--elf",
            "firmware.elf",
            "--defmt-filter",
            "app=warn,app=info",
        ],
        "defmt filter prefix 'app' was specified more than once",
    );
}

#[test]
fn resolve_assigns_bare_paths_around_explicit_indices() {
    for (args, expected) in [
        (
            vec!["brtt", "--elf", "1=m4.elf", "--elf", "m7.elf"],
            vec![(1, "m4.elf"), (0, "m7.elf")],
        ),
        (
            vec!["brtt", "--elf", "first.elf", "--elf", "0=second.elf"],
            vec![(1, "first.elf"), (0, "second.elf")],
        ),
        (
            vec![
                "brtt", "--elf", "a.elf", "--elf", "b.elf", "--elf", "1=c.elf",
            ],
            vec![(0, "a.elf"), (2, "b.elf"), (1, "c.elf")],
        ),
        (vec!["brtt", "--elf", "1=m4.elf"], vec![(1, "m4.elf")]),
    ] {
        let resolved = resolve_args(&args).unwrap();
        let expected = expected
            .into_iter()
            .map(|(index, path)| (index, String::from(path)))
            .collect::<Vec<_>>();
        assert_eq!(resolved.elf_specs(), &expected, "args {args:?}");
    }
    assert_resolve_error(
        &["brtt", "--elf", "0=a.elf", "--elf", "0=b.elf"],
        "specified more than once",
    );
}

#[test]
fn repeated_elf_indices_are_named() {
    let specs = [
        ElfSpec {
            index: Some(4),
            path: "a".to_string(),
        },
        ElfSpec {
            index: Some(4),
            path: "b".to_string(),
        },
    ];
    assert_eq!(
        resolve_elf_specs(&specs),
        Err("--elf index 4 was specified more than once".to_string())
    );
}

#[test]
fn resolve_applies_channel_default() {
    let resolved = resolve_args(&["brtt", "--elf", "1=core.elf"]).unwrap();

    assert_eq!(resolved.elf_specs(), &[(1, String::from("core.elf"))],);
    assert_eq!(
        resolved.up_specs(),
        &[ChannelSpec {
            core: None,
            index: 0,
            mode: ChannelEncoding::Terminal,
        }]
    );
}

#[test]
fn resolve_rejects_bad_channel_and_defmt_combinations() {
    assert_resolve_error(
        &["brtt", "--up", "0", "--up", "0"],
        "specified more than once",
    );
    assert_resolve_error(
        &["brtt", "--up", "0", "--up", "1:0"],
        "specified more than once",
    );
    assert_resolve_error(
        &["brtt", "--up", "0:0", "--up", "0:0:defmt"],
        "conflicting modes",
    );
    assert_resolve_error(&["brtt", "--poll-interval", "0"], "not in 1..");
    assert_resolve_error(&["brtt", "--up", "1:defmt"], "--elf is required");
    assert_resolve_error(
        &["brtt", "--defmt-filter", "warn"],
        "requires at least one up channel",
    );
    assert_resolve_error(&["brtt", "--log-per-channel"], "--log <PATH>");
    assert_resolve_error(&["brtt", "--log-format", "raw"], "--log <PATH>");
    assert_resolve_error(
        &["brtt", "--up", "1:0", "--elf", "0=a.elf"],
        "selects no configured core",
    );
}

#[test]
fn resolve_rejects_raw_merged_log_fanout() {
    assert!(
        resolve_args(&[
            "brtt",
            "--log",
            "out.log",
            "--log-format",
            "raw",
            "--up",
            "0"
        ])
        .is_ok(),
        "single-core raw merged log rejected"
    );
    assert_resolve_error(
        &[
            "brtt",
            "--elf",
            "0=a.elf",
            "--elf",
            "1=b.elf",
            "--log",
            "out.log",
            "--log-format",
            "raw",
            "--up",
            "0",
        ],
        "requires --log-per-channel",
    );
    assert!(
        resolve_args(&["brtt", "--log", "out.log", "--log-format", "raw"]).is_ok(),
        "single-source raw merged log rejected"
    );
}

#[test]
fn resolve_rejects_conflicting_exit_modes() {
    assert_resolve_error(
        &["brtt", "--list", "--up", "0"],
        "--list cannot be combined",
    );
    assert_resolve_error(
        &["brtt", "--probe", "list", "--reset"],
        "--probe list cannot be combined",
    );
    assert_resolve_error(&["brtt", "--debug-defmt-table"], "--elf <[INDEX=]PATH>");
    assert_resolve_error(
        &[
            "brtt",
            "--debug-defmt-table",
            "--elf",
            "firmware.elf",
            "--list",
        ],
        "cannot be combined",
    );
    for args in [
        vec!["--up", "0"],
        vec!["--down", "1"],
        vec!["--no-down"],
        vec!["--reset"],
        vec!["--timestamp"],
        vec!["--poll-interval", "5"],
        vec!["--log", "capture.log"],
        vec!["--log", "capture.log", "--log-per-channel"],
        vec!["--log", "capture.log", "--log-format", "raw"],
        vec![
            "--up",
            "1:defmt",
            "--elf",
            "firmware.elf",
            "--defmt-filter",
            "warn",
        ],
        vec!["--color", "always"],
    ] {
        let mut full = vec!["brtt", "--list"];
        full.extend(args);
        assert_resolve_error(&full, "cannot be combined with session options");
    }
}

#[test]
fn resolve_accepts_supported_session_and_list_combinations() {
    assert!(resolve_args(&[
        "brtt", "--elf", "0=a.elf", "--elf", "1=b.elf", "--up", "0:0", "--up", "1:0"
    ])
    .is_ok());
    assert!(resolve_args(&[
        "brtt",
        "--up",
        "1:defmt",
        "--elf",
        "firmware.elf",
        "--defmt-filter",
        "warn",
        "--log",
        "capture.log",
        "--log-format",
        "decoded"
    ])
    .is_ok());
    for args in [
        vec!["brtt", "--list", "--chip", "nRF54L15"],
        vec!["brtt", "--list", "--scan-region", "0x20002e68"],
        vec!["brtt", "--list", "--elf", "firmware.elf"],
    ] {
        assert!(resolve_args(&args).is_ok(), "rejected {args:?}");
    }
}

#[test]
fn mode_picks_the_single_requested_action() {
    let mode = |args: &[&str]| parse(args).unwrap().mode();

    assert_eq!(mode(&["brtt"]), Mode::Session);
    assert_eq!(mode(&["brtt", "--list"]), Mode::ListChannels);
    assert_eq!(mode(&["brtt", "--probe", "list"]), Mode::ListProbes);
    assert_eq!(
        mode(&["brtt", "--debug-defmt-table", "--elf", "firmware.elf"]),
        Mode::DebugDefmtTable
    );
}

#[test]
fn accepted_selections_expand_to_distinct_sources() {
    let up = [
        ChannelSpec::from_str("0").unwrap(),
        ChannelSpec::from_str("1:1:defmt").unwrap(),
    ];
    let expanded = expand_sources(&up, &[0, 1]);
    let plain: Vec<(u32, u32, ChannelEncoding)> = expanded
        .iter()
        .map(|source| (source.core, source.channel, source.mode))
        .collect();
    assert_eq!(
        plain,
        vec![
            (0, 0, ChannelEncoding::Terminal),
            (1, 0, ChannelEncoding::Terminal),
            (1, 1, ChannelEncoding::Defmt),
        ]
    );
    assert!(up[0].applies_to(9));
    assert!(!up[1].applies_to(0));
    assert_eq!(configured_up_specs(&up), up.to_vec());
}

#[test]
fn uncovered_selections_are_named() {
    assert_eq!(
        validate_up_coverage(&[ChannelSpec::from_str("3:2").unwrap()], &[0, 1]),
        Err("up channel 3:2 selects no configured core".to_string())
    );
    assert_eq!(
        validate_up_coverage(&[ChannelSpec::from_str("2").unwrap()], &[]),
        Err("up channel 2 selects no configured core".to_string())
    );
}

#[test]
fn missing_log_path_is_named() {
    let mut opts = parse(&["brtt"]).unwrap();
    opts.log_per_channel = true;
    assert_eq!(
        opts.validate(&[]),
        Err("--log-per-channel requires --log".to_string())
    );
    opts.log_per_channel = false;
    opts.log_format = Some(LogFormat::Decoded);
    assert_eq!(
        opts.validate(&[]),
        Err("--log-format requires --log".to_string())
    );
    opts.log_format = None;
    opts.debug_defmt_table = true;
    assert_eq!(
        opts.validate(&[]),
        Err("--debug-defmt-table requires --elf".to_string())
    );
}

#[test]
fn exit_modes_exclude_each_other() {
    let mut opts = parse(&["brtt", "--probe", "list"]).unwrap();
    opts.list = true;
    assert_eq!(
        opts.validate(&[]),
        Err("--list cannot be combined with --probe list".to_string())
    );
    let mut opts = parse(&["brtt", "--debug-defmt-table", "--elf", "a.elf"]).unwrap();
    opts.reset = true;
    assert_eq!(
        opts.validate(&[]),
        Err("--debug-defmt-table cannot be combined with session options".to_string())
    );
}

#[test]
fn session_policy_fills_in_defaults() {
    let opts = parse(&["brtt", "--log", "out.log"]).unwrap();
    let up = configured_up_specs(&opts.up);
    let policy =
        SessionPolicy::from_opts(&opts, "probe".to_string(), "chip".to_string(), &up).unwrap();
    assert_eq!(policy.down_channel, Some(ChannelId::new(0)));
    assert!(!policy.down_explicit);
    assert_eq!(policy.poll_interval, 10);
    let log = policy.log.unwrap();
    assert_eq!(log.format, LogFormat::Decoded);
    assert!(matches!(log.destination, LogDestination::Merged(path) if path == b"out.log"));

    let opts = parse(&[
        "brtt",
        "--down",
        "3",
        "--log",
        "o",
        "--log-per-channel",
        "--log-format",
        "raw",
    ])
    .unwrap();
    let policy =
        SessionPolicy::from_opts(&opts, "probe".to_string(), "chip".to_string(), &[]).unwrap();
    assert_eq!(policy.down_channel, Some(ChannelId::new(3)));
    assert!(policy.down_explicit);
    let log = policy.log.unwrap();
    assert_eq!(log.format, LogFormat::Raw);
    assert!(matches!(log.destination, LogDestination::PerChannel(_)));

    let opts = parse(&["brtt", "--no-down"]).unwrap();
    let policy =
        SessionPolicy::from_opts(&opts, "probe".to_string(), "chip".to_string(), &[]).unwrap();
    assert_eq!(policy.down_channel, None);
}
