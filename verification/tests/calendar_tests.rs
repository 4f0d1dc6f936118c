use totalrecall::calendar::{
    civil_from_days, days_from_civil, floor_date, is_dayfile_name, is_iso_date, is_real_date,
    local_date, parse_utc_iso8601, render_age, utc_iso8601,
};

#[test]
fn civil_from_days_matches_oracle_dates() {
    let vectors: &[(i64, i64, u32, u32)] = &[
        (-25_508, 1900, 3, 1),
        (-1, 1969, 12, 31),
        (0, 1970, 1, 1),
        (1, 1970, 1, 2),
        (10_957, 2000, 1, 1),
        (11_021, 2000, 3, 5),
        (11_022, 2000, 3, 6),
        (11_081, 2000, 5, 4),
        (11_082, 2000, 5, 5),
        (19_722, 2023, 12, 31),
        (19_723, 2024, 1, 1),
        (19_781, 2024, 2, 28),
        (19_782, 2024, 2, 29),
        (19_783, 2024, 3, 1),
        (20_454, 2026, 1, 1),
        (20_709, 2026, 9, 13),
        (47_540, 2100, 2, 28),
    ];
    for &(d, y, m, day) in vectors {
        let (gy, gm, gday) = civil_from_days(d);
        assert_eq!(
            (gy, gm, gday),
            (y, m, day),
            "civil_from_days({d}) mismatched the oracle"
        );
    }
}

#[test]
fn days_from_civil_inverts_civil_from_days() {
    for d in [-25_508i64, -1, 0, 1, 10_957, 19_782, 20_709, 47_540] {
        let (y, m, day) = civil_from_days(d);
        assert_eq!(days_from_civil(y, m, day), d);
    }
}

#[test]
fn utc_iso8601_renders_known_instants() {
    assert_eq!(utc_iso8601(0), "1970-01-01T00:00:00Z");
    assert_eq!(utc_iso8601(1_789_302_131), "2026-09-13T12:22:11Z");
    assert_eq!(utc_iso8601(951_782_400), "2000-02-29T00:00:00Z");
}

#[test]
fn parse_utc_iso8601_inverts_the_renderer() {
    for secs in [0i64, 1, 86_399, 951_782_400, 1_789_302_131, 4_102_444_799] {
        let text = utc_iso8601(secs);
        assert_eq!(parse_utc_iso8601(&text), Some(secs));
    }
}

#[test]
fn parse_utc_iso8601_refuses_other_shapes() {
    assert_eq!(parse_utc_iso8601("2026-09-13T12:22:11"), None);
    assert_eq!(parse_utc_iso8601("2026-13-13T12:22:11Z"), None);
    assert_eq!(parse_utc_iso8601("2026-09-13 12:22:11Z"), None);
    assert_eq!(parse_utc_iso8601("2026-09-13T24:00:00Z"), None);
    assert_eq!(parse_utc_iso8601(" 026-09-13T12:22:11Z"), None);
    assert_eq!(parse_utc_iso8601("2026-09-13T12:22:60Z"), Some(1_789_302_180));
}

#[test]
fn real_dates_follow_the_calendar() {
    assert!(is_real_date("2024-02-29"));
    assert!(!is_real_date("2023-02-29"));
    assert!(!is_real_date("2100-02-29"));
    assert!(is_real_date("2000-02-29"));
    assert!(!is_real_date("2026-04-31"));
    assert!(!is_real_date("2026-4-30"));
    assert!(!is_real_date("2026-00-10"));
}

#[test]
fn iso_dates_only_bound_month_and_day() {
    assert!(is_iso_date("2026-02-31"));
    assert!(!is_iso_date("2026-02-32"));
    assert!(!is_iso_date("last week"));
    assert!(!is_iso_date("2026/02/01"));
}

#[test]
fn dayfile_names_are_iso_dates_with_md() {
    assert!(is_dayfile_name("2026-09-13.md"));
    assert!(is_dayfile_name("2026-09-31.md"));
    assert!(!is_dayfile_name("2026-09-32.md"));
    assert!(!is_dayfile_name("2026-9-13.md"));
    assert!(!is_dayfile_name("2026-09-13.txt"));
    assert!(!is_dayfile_name("notes.md"));
}

#[test]
fn local_date_shifts_by_the_offset() {
    assert_eq!(local_date(1_789_302_131, 0), "2026-09-13");
    assert_eq!(local_date(1_789_257_600, -60), "2026-09-12");
    assert_eq!(local_date(1_789_343_940, 600), "2026-09-14");
}

#[test]
fn floor_date_is_the_utc_day() {
    assert_eq!(floor_date(-1), "1969-12-31");
    assert_eq!(floor_date(86_400), "1970-01-02");
}

#[test]
fn render_age_uses_minutes_then_hours() {
    assert_eq!(render_age(2_700), "45m ago");
    assert_eq!(render_age(3_599), "59m ago");
    assert_eq!(render_age(3_600), "1h00m ago");
    assert_eq!(render_age(14_700), "4h05m ago");
}
