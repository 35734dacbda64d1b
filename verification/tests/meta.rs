//! Dates, and what is known about the machine.

use helix::meta::{
    brand_or_unknown, civil_from_days, env_u64, revision, stage_choice, timestamp_utc,
    version_line, SystemMeta,
};

#[test]
fn epoch_to_civil_matches_known_dates() {
    assert_eq!(civil_from_days(0), (1970, 1, 1));
    // 2026-08-24 is day 20689 after the epoch.
    assert_eq!(civil_from_days(20_689), (2026, 8, 24));
    // Leap-year boundary: 2000-02-29.
    assert_eq!(civil_from_days(11_016), (2000, 2, 29));
}

#[test]
fn timestamp_has_iso_shape() {
    let secs = std::time::SystemTime::now()
        .duration_since(std::time::UNIX_EPOCH)
        .map(|d| d.as_secs())
        .unwrap_or(0);
    let ts = timestamp_utc(secs);
    assert_eq!(ts.len(), 20, "{ts}");
    assert!(ts.ends_with('Z'), "{ts}");
    assert_eq!(&ts[4..5], "-");
    assert_eq!(&ts[10..11], "T");
}

#[test]
fn timestamps_of_known_seconds() {
    assert_eq!(timestamp_utc(0), "1970-01-01T00:00:00Z");
    assert_eq!(timestamp_utc(951_827_696), "2000-02-29T12:34:56Z");
    // beyond four digits years are written in full
    assert_eq!(timestamp_utc(253_402_300_800), "10000-01-01T00:00:00Z");
}

#[test]
fn dates_before_the_epoch() {
    assert_eq!(civil_from_days(-1), (1969, 12, 31));
    assert_eq!(civil_from_days(-719_468), (0, 3, 1));
    assert_eq!(civil_from_days(-719_469), (0, 2, 29));
    assert_eq!(civil_from_days(-719_529), (-1, 12, 31));
}

#[test]
fn successive_days_are_successive_dates() {
    let mut before = civil_from_days(-800_000);
    for day in -799_999..-790_000 {
        let now = civil_from_days(day);
        let (y, m, d) = before;
        assert!(
            now == (y, m, d + 1) || now == (y, m + 1, 1) || now == (y + 1, 1, 1),
            "{before:?} {now:?}"
        );
        before = now;
    }
}

fn some_meta() -> SystemMeta {
    SystemMeta {
        cpu_brand: "Test CPU".to_string(),
        logical_cores: 8,
        physical_cores: Some(4),
        total_ram_bytes: 17_179_869_184,
        os: "Linux".to_string(),
        rustc_version: "rustc 1.93.0".to_string(),
        git_rev: None,
        timestamp_utc: "2026-08-25T00:00:00Z".to_string(),
        helix_nthreads_env: None,
        helix_runtime_env: None,
        jit_available: true,
    }
}

#[test]
fn banners_name_the_machine() {
    let mut m = some_meta();
    let ram = format!("{:.1}", m.total_ram_bytes as f64 / (1024.0 * 1024.0 * 1024.0));
    assert_eq!(
        m.banner(&ram),
        "Test CPU | 8L cores (4P) | 16.0 GiB | Linux | rustc 1.93.0 | rev ?"
    );
    m.physical_cores = None;
    m.git_rev = Some("abc123".to_string());
    assert_eq!(
        m.banner(&ram),
        "Test CPU | 8L cores | 16.0 GiB | Linux | rustc 1.93.0 | rev abc123"
    );
}

#[test]
fn probes_that_fail_give_defaults() {
    assert_eq!(brand_or_unknown(Some("  Some CPU \t")), "Some CPU");
    assert_eq!(brand_or_unknown(Some("   ")), "unknown");
    assert_eq!(brand_or_unknown(None), "unknown");
    assert_eq!(env_u64(Some(" 12 ")), Some(12));
    assert_eq!(env_u64(Some("+7")), Some(7));
    assert_eq!(env_u64(Some("18446744073709551615")), Some(u64::MAX));
    assert_eq!(env_u64(Some("18446744073709551616")), None);
    assert_eq!(env_u64(Some("-1")), None);
    assert_eq!(env_u64(Some("")), None);
    assert_eq!(env_u64(Some("+")), None);
    assert_eq!(env_u64(Some("1 2")), None);
    assert_eq!(env_u64(None), None);
    assert_eq!(stage_choice(Some(" POOL ")), Some(" POOL ".to_string()));
    assert_eq!(stage_choice(Some("scope")), Some("scope".to_string()));
    assert_eq!(stage_choice(Some("spool")), None);
    assert_eq!(stage_choice(None), None);
    assert_eq!(version_line("rustc 1.93.0 (x)\r\nmore\n"), Some("rustc 1.93.0 (x)".to_string()));
    assert_eq!(version_line(""), None);
    assert_eq!(revision("abc\n"), Some("abc".to_string()));
    assert_eq!(revision(" \n"), None);
}
