//! Configuration.

use std::time::Duration;

use cmafly::serve::config::{
    auto_max_inflight, auto_max_open_archives, map_count_of, mem_total_of, parse_max_map_count,
    parse_mem_total,
    resolve_with_host, verify_tunable, ConfigError, HostInputs, ResolveArgs, Source, WaitTime,
    DEFAULT_PERMIT_WAIT_SECS, FALLBACK_MAX_INFLIGHT, FALLBACK_MAX_OPEN_ARCHIVES,
    MAX_INFLIGHT_CEIL, MAX_INFLIGHT_FLOOR, MAX_OPEN_ARCHIVES_CEIL, MAX_OPEN_ARCHIVES_FLOOR,
};

/// A wait time in seconds, as the command line gives it.
fn wait(secs: f64) -> Result<WaitTime, String> {
    match Duration::try_from_secs_f64(secs) {
        Ok(d) => Ok(WaitTime {
            secs: d.as_secs(),
            nanos: d.subsec_nanos(),
        }),
        Err(err) => Err(format!("invalid --permit-wait-timeout {secs:?}: {err}")),
    }
}

fn base_args() -> ResolveArgs {
    ResolveArgs {
        media_dir: "/m".into(),
        index_dir: "/i".into(),
        bind: "127.0.0.1:8080".into(),
        max_open_archives: None,
        max_inflight_segments: None,
        permit_wait_timeout: None,
    }
}

#[test]
fn parse_max_map_count_strips_trailing_newline() {
    assert_eq!(parse_max_map_count("65530\n").unwrap(), 65_530);
}

#[test]
fn parse_max_map_count_rejects_garbage() {
    assert!(parse_max_map_count("not-a-number\n").is_err());
}

#[test]
fn parse_mem_total_finds_line_and_converts_kb_to_bytes() {
    let meminfo = "MemTotal:       16331548 kB\nMemFree:        1234 kB\n";
    assert_eq!(parse_mem_total(meminfo).unwrap(), 16_331_548u64 * 1024);
}

#[test]
fn parse_mem_total_rejects_missing_line() {
    assert!(parse_mem_total("MemFree: 100 kB\n").is_err());
}

#[test]
fn parse_mem_total_rejects_missing_kb_suffix() {
    assert!(parse_mem_total("MemTotal:       16331548\n").is_err());
}

#[test]
fn auto_max_open_archives_clamps_to_floor_for_tiny_hosts() {
    // (2_100 - 2_048) / 2 = 26 -> floor 64.
    assert_eq!(auto_max_open_archives(2_100), MAX_OPEN_ARCHIVES_FLOOR);
}

#[test]
fn auto_max_open_archives_default_kernel() {
    // (65_530 - 2_048) / 2 = 31_741.
    assert_eq!(auto_max_open_archives(65_530), 31_741);
}

#[test]
fn auto_max_open_archives_tuned_kernel_clamps_to_ceiling() {
    // (262_144 - 2_048) / 2 = 130_048; clamp ceiling 100_000.
    assert_eq!(auto_max_open_archives(262_144), MAX_OPEN_ARCHIVES_CEIL);
}

#[test]
fn auto_max_inflight_clamps_to_floor_for_dev_host() {
    // 8 GiB x 0.05 / 32 MiB ~ 12 -> floor 64.
    let mem = 8u64 * 1024 * 1024 * 1024;
    assert_eq!(auto_max_inflight(mem), MAX_INFLIGHT_FLOOR);
}

#[test]
fn auto_max_inflight_for_64gib_host_yields_102() {
    // 64 GiB x 0.05 / 32 MiB = 102.4 -> 102.
    let mem = 64u64 * 1024 * 1024 * 1024;
    assert_eq!(auto_max_inflight(mem), 102);
}

#[test]
fn auto_max_inflight_for_128gib_host_yields_204() {
    // 128 GiB x 0.05 / 32 MiB = 204.8 -> 204.
    let mem = 128u64 * 1024 * 1024 * 1024;
    assert_eq!(auto_max_inflight(mem), 204);
}

#[test]
fn verify_tunable_passes_when_within_budget() {
    assert!(verify_tunable(65_530, 31_741).is_ok());
}

#[test]
fn verify_tunable_fails_with_actionable_message() {
    let err = verify_tunable(1_000, 100_000).unwrap_err();
    let msg = err.message();
    assert!(msg.contains("vm.max_map_count=1000"), "got: {msg}");
    assert!(msg.contains("max_open_archives"), "got: {msg}");
    assert!(msg.contains("sysctl"), "got: {msg}");
}

#[test]
fn resolve_with_host_uses_overrides_when_present() {
    let cfg = resolve_with_host(
        ResolveArgs {
            max_open_archives: Some(50),
            max_inflight_segments: Some(7),
            permit_wait_timeout: Some(wait(2.5)),
            ..base_args()
        },
        HostInputs::Linux {
            max_map_count: 100_000,
            mem_total: 64u64 << 30,
        },
    )
    .expect("resolve");
    assert_eq!(cfg.max_open_archives, 50);
    assert_eq!(cfg.max_open_archives_source, Source::Flag);
    assert_eq!(cfg.max_inflight_segments, 7);
    assert_eq!(cfg.max_inflight_segments_source, Source::Flag);
    assert_eq!(Ok(cfg.permit_wait_timeout), wait(2.5));
    assert_eq!(cfg.host_max_map_count, Some(100_000));
    assert_eq!(cfg.host_mem_total_bytes, Some(64u64 << 30));
}

#[test]
fn resolve_with_host_auto_sizes_on_linux_without_overrides() {
    let cfg = resolve_with_host(
        base_args(),
        HostInputs::Linux {
            max_map_count: 65_530,
            mem_total: 64u64 << 30,
        },
    )
    .expect("resolve");
    assert_eq!(cfg.max_open_archives, 31_741);
    assert_eq!(cfg.max_open_archives_source, Source::Auto);
    assert_eq!(cfg.max_inflight_segments, 102);
    assert_eq!(cfg.max_inflight_segments_source, Source::Auto);
}

#[test]
fn resolve_with_host_falls_back_on_non_linux() {
    let cfg = resolve_with_host(base_args(), HostInputs::Fallback).expect("resolve");
    assert_eq!(cfg.max_open_archives, FALLBACK_MAX_OPEN_ARCHIVES);
    assert_eq!(cfg.max_open_archives_source, Source::Fallback);
    assert_eq!(cfg.max_inflight_segments, FALLBACK_MAX_INFLIGHT);
    assert_eq!(cfg.max_inflight_segments_source, Source::Fallback);
    assert_eq!(cfg.host_max_map_count, None);
    assert_eq!(cfg.host_mem_total_bytes, None);
}

#[test]
fn resolve_with_host_runs_tunable_check_on_linux() {
    let err = resolve_with_host(
        ResolveArgs {
            max_open_archives: Some(100_000),
            ..base_args()
        },
        HostInputs::Linux {
            max_map_count: 1_000,
            mem_total: 64u64 << 30,
        },
    )
    .unwrap_err();
    let msg = err.message();
    assert!(msg.contains("vm.max_map_count"), "got: {msg}");
}

#[test]
fn resolve_with_host_skips_tunable_check_on_fallback() {
    // On macOS/dev fallback we do not have a real vm.max_map_count
    // to compare against, so a generous override must still resolve.
    resolve_with_host(
        ResolveArgs {
            max_open_archives: Some(100_000),
            ..base_args()
        },
        HostInputs::Fallback,
    )
    .expect("resolve must succeed on fallback regardless of override");
}

#[test]
fn resolve_with_host_default_permit_wait_timeout() {
    let cfg = resolve_with_host(base_args(), HostInputs::Fallback).expect("resolve");
    assert_eq!(Ok(cfg.permit_wait_timeout), wait(5.0));
    assert_eq!(cfg.permit_wait_timeout.secs, DEFAULT_PERMIT_WAIT_SECS);
}

#[test]
fn resolve_with_host_rejects_invalid_permit_wait_timeout() {
    for secs in [-1.0, f64::NAN, f64::INFINITY] {
        let err = resolve_with_host(
            ResolveArgs {
                permit_wait_timeout: Some(wait(secs)),
                ..base_args()
            },
            HostInputs::Fallback,
        )
        .unwrap_err();
        let msg = err.message();
        assert!(msg.contains("--permit-wait-timeout"), "got: {msg}");
    }
}

#[test]
fn audit_line_includes_resolved_values_sources_and_host_inputs() {
    let cfg = resolve_with_host(
        base_args(),
        HostInputs::Linux {
            max_map_count: 65_530,
            mem_total: 64u64 << 30,
        },
    )
    .expect("resolve");
    let line = cfg.audit_line();
    assert!(line.contains("max_open_archives=31741"), "got: {line}");
    assert!(line.contains("(auto)"), "got: {line}");
    assert!(line.contains("max_inflight_segments=102"), "got: {line}");
    assert!(line.contains("vm.max_map_count=65530"), "got: {line}");
    assert!(
        line.contains(&format!("MemTotal_bytes={}", 64u64 << 30)),
        "got: {line}",
    );
    assert!(line.contains("permit_wait_timeout=5.000s"), "got: {line}");
}

#[test]
fn audit_line_marks_fallback_source_on_non_linux() {
    let cfg = resolve_with_host(base_args(), HostInputs::Fallback).expect("resolve");
    let line = cfg.audit_line();
    assert!(line.contains("(fallback)"), "got: {line}");
    assert!(line.contains("vm.max_map_count=-"), "got: {line}");
    assert!(line.contains("MemTotal_bytes=-"), "got: {line}");
}

#[test]
fn audit_line_marks_flag_source_when_overridden() {
    let cfg = resolve_with_host(
        ResolveArgs {
            max_open_archives: Some(50),
            max_inflight_segments: Some(7),
            ..base_args()
        },
        HostInputs::Linux {
            max_map_count: 100_000,
            mem_total: 64u64 << 30,
        },
    )
    .expect("resolve");
    let line = cfg.audit_line();
    assert!(line.contains("max_open_archives=50 (flag)"), "got: {line}");
    assert!(
        line.contains("max_inflight_segments=7 (flag)"),
        "got: {line}",
    );
}

#[test]
fn map_count_is_trimmed_and_may_carry_a_plus_sign() {
    assert_eq!(parse_max_map_count("  \u{3000}+42\r\n").unwrap(), 42);
    assert!(parse_max_map_count("+").is_err());
    assert!(parse_max_map_count("").is_err());
    assert!(parse_max_map_count("4 2").is_err());
    assert!(parse_max_map_count("-1").is_err());
    assert_eq!(parse_max_map_count("18446744073709551615").unwrap(), usize::MAX);
    assert!(parse_max_map_count("18446744073709551616").is_err());
}

#[test]
fn unreadable_map_count_is_quoted() {
    let err = parse_max_map_count("no\n").unwrap_err();
    assert!(matches!(&err, ConfigError::MapCountUnreadable { text, .. } if text == "no\n"));
    assert_eq!(err.message(), "parse vm.max_map_count: \"no\\n\"");
}

#[test]
fn mem_total_errors_name_the_line() {
    let err = parse_mem_total("A: 1 kB\r\nMemTotal: x kB\r\n").unwrap_err();
    assert!(
        matches!(&err, ConfigError::MemTotalUnreadable { line, .. } if line == "MemTotal: x kB")
    );
    assert_eq!(err.message(), "parse MemTotal kB: MemTotal: x kB");
    let err = parse_mem_total("MemTotal: 7 KB").unwrap_err();
    assert_eq!(
        err.message(),
        "MemTotal line missing 'kB' suffix: MemTotal: 7 KB"
    );
    let err = parse_mem_total("MemTotal: 18446744073709551615 kB").unwrap_err();
    assert!(matches!(err, ConfigError::MemTotalOverflow { kb: u64::MAX }));
    assert_eq!(err.message(), "MemTotal overflow: 18446744073709551615 kB");
    let err = parse_mem_total("").unwrap_err();
    assert!(matches!(err, ConfigError::MemTotalMissing));
    assert_eq!(err.message(), "MemTotal not found in /proc/meminfo");
}

#[test]
fn mem_total_takes_the_first_line_and_ignores_indented_ones() {
    let text = " MemTotal: 1 kB\nMemTotal:2kB\nMemTotal: 3 kB\n";
    assert_eq!(parse_mem_total(text).unwrap(), 2 * 1024);
}

#[test]
fn tunable_messages_are_exact() {
    let err = verify_tunable(1_000, 100_000).unwrap_err();
    assert_eq!(
        err.message(),
        "vm.max_map_count=1000 too low; need >= 202048 \
         (2 \u{d7} max_open_archives [100000] + reserve [2048]). \
         raise via `sudo sysctl -w vm.max_map_count=202048`"
    );
    let err = verify_tunable(1_000, usize::MAX).unwrap_err();
    assert!(matches!(err, ConfigError::BudgetOverflow));
    assert_eq!(
        err.message(),
        "max_open_archives overflow when computing tunable budget"
    );
}

#[test]
fn derived_registry_fits_the_host() {
    for host in [2_176usize, 2_177, 65_530, 262_144, 10_000_000] {
        assert!(verify_tunable(host, auto_max_open_archives(host)).is_ok());
    }
    assert!(verify_tunable(2_175, auto_max_open_archives(2_175)).is_err());
}

#[test]
fn derived_knobs_stay_within_bounds() {
    assert_eq!(auto_max_open_archives(0), MAX_OPEN_ARCHIVES_FLOOR);
    assert_eq!(auto_max_open_archives(usize::MAX), MAX_OPEN_ARCHIVES_CEIL);
    assert_eq!(auto_max_inflight(0), MAX_INFLIGHT_FLOOR);
    assert_eq!(auto_max_inflight(u64::MAX), MAX_INFLIGHT_CEIL);
}

#[test]
fn audit_line_is_exact() {
    let cfg = resolve_with_host(
        ResolveArgs {
            permit_wait_timeout: Some(wait(2.5)),
            ..base_args()
        },
        HostInputs::Fallback,
    )
    .expect("resolve");
    assert_eq!(
        cfg.audit_line(),
        "audit: cmafly-serve config bind=127.0.0.1:8080 media_dir=/m index_dir=/i \
         max_open_archives=1024 (fallback) max_inflight_segments=64 (fallback) \
         permit_wait_timeout=2.500s host: vm.max_map_count=- MemTotal_bytes=-"
    );
}

#[test]
fn unreadable_numbers_carry_the_cause() {
    for (text, number) in [
        ("no\n", "no"),
        (" \n", ""),
        ("+", "+"),
        ("99999999999999999999999", "99999999999999999999999"),
    ] {
        let cause = number.parse::<usize>().unwrap_err().to_string();
        let err = parse_max_map_count(text).unwrap_err();
        assert_eq!(err.cause(), Some(cause.as_str()));
        let err = parse_mem_total(&format!("MemTotal: {number} kB")).unwrap_err();
        let cause = number.parse::<u64>().unwrap_err().to_string();
        assert_eq!(err.cause(), Some(cause.as_str()));
    }
    assert_eq!(
        parse_max_map_count("no").unwrap_err().cause(),
        Some("invalid digit found in string")
    );
    assert_eq!(parse_mem_total("").unwrap_err().cause(), None);
    assert_eq!(parse_mem_total("MemTotal: 7").unwrap_err().cause(), None);
}

#[test]
fn parse_results_decide_what_is_reported() {
    assert_eq!(map_count_of("7", Ok(7)).unwrap(), 7);
    let err = map_count_of("x", Err("why".to_string())).unwrap_err();
    assert_eq!(err.message(), "parse vm.max_map_count: \"x\"");
    assert_eq!(err.cause(), Some("why"));
    assert_eq!(mem_total_of("l", Ok(3)).unwrap(), 3072);
    assert!(matches!(
        mem_total_of("l", Ok(1 << 54)),
        Err(ConfigError::MemTotalOverflow { kb }) if kb == 1 << 54
    ));
    let err = mem_total_of("l", Err("why".to_string())).unwrap_err();
    assert_eq!(err.message(), "parse MemTotal kB: l");
    assert_eq!(err.cause(), Some("why"));
}
