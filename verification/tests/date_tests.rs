use photo_organizer::date::{date_key, format_date, format_exif, parse_exif_date, CaptureDate,
    ExifPattern};

fn dt(year: u32, month: u32, day: u32, hour: u32, minute: u32, second: u32) -> CaptureDate {
    CaptureDate { year, month, day, hour, minute, second }
}

#[test]
fn parses_colon_seconds() {
    assert_eq!(parse_exif_date("2023:06:15 10:30:00"), Some(dt(2023, 6, 15, 10, 30, 0)));
}

#[test]
fn parses_hyphen_seconds() {
    assert_eq!(parse_exif_date("2023-06-15 10:30:00"), Some(dt(2023, 6, 15, 10, 30, 0)));
}

#[test]
fn parses_slash_seconds() {
    assert_eq!(parse_exif_date("2023/06/15 10:30:00"), Some(dt(2023, 6, 15, 10, 30, 0)));
}

#[test]
fn parses_minutes_only_with_zero_seconds() {
    assert_eq!(parse_exif_date("2023:06:15 10:30"), Some(dt(2023, 6, 15, 10, 30, 0)));
}

#[test]
fn parses_iso_t_variant() {
    assert_eq!(parse_exif_date("2023-06-15T10:30:00"), Some(dt(2023, 6, 15, 10, 30, 0)));
}

#[test]
fn trims_whitespace_and_quotes() {
    assert_eq!(parse_exif_date("  \"2023:06:15 10:30:00\"  "), Some(dt(2023, 6, 15, 10, 30, 0)));
    assert_eq!(parse_exif_date("\t2023:06:15 10:30:00\n"), Some(dt(2023, 6, 15, 10, 30, 0)));
}

#[test]
fn unparseable_strings_yield_no_match() {
    assert_eq!(parse_exif_date("not a date"), None);
    assert_eq!(parse_exif_date(""), None);
    assert_eq!(parse_exif_date("2023:06:15"), None);
    assert_eq!(parse_exif_date("2023.06.15 10:30:00"), None);
}

#[test]
fn rejects_impossible_dates() {
    assert_eq!(parse_exif_date("2023:13:01 00:00:00"), None);
    assert_eq!(parse_exif_date("2023:00:10 00:00:00"), None);
    assert_eq!(parse_exif_date("2023:02:29 10:00:00"), None);
    assert_eq!(parse_exif_date("2023:06:15 24:00:00"), None);
    assert_eq!(parse_exif_date("2023:06:15 10:60:00"), None);
}

#[test]
fn accepts_leap_day_in_leap_years() {
    assert_eq!(parse_exif_date("2024:02:29 10:00:00"), Some(dt(2024, 2, 29, 10, 0, 0)));
    assert_eq!(parse_exif_date("2000:02:29 10:00:00"), Some(dt(2000, 2, 29, 10, 0, 0)));
    assert_eq!(parse_exif_date("1900:02:29 10:00:00"), None);
}

#[test]
fn round_trip_every_pattern() {
    let t = dt(2023, 6, 15, 10, 30, 0);
    let patterns = [
        ExifPattern::ColonSeconds,
        ExifPattern::HyphenSeconds,
        ExifPattern::SlashSeconds,
        ExifPattern::ColonMinutes,
        ExifPattern::IsoT,
    ];
    for p in patterns {
        let rendered = format_exif(&t, &p);
        assert_eq!(parse_exif_date(rendered.as_str()), Some(t));
    }
    let with_seconds = dt(1999, 12, 31, 23, 59, 58);
    for p in [
        ExifPattern::ColonSeconds,
        ExifPattern::HyphenSeconds,
        ExifPattern::SlashSeconds,
        ExifPattern::IsoT,
    ] {
        let rendered = format_exif(&with_seconds, &p);
        assert_eq!(parse_exif_date(rendered.as_str()), Some(with_seconds));
    }
}

#[test]
fn format_exif_exact_strings() {
    let t = dt(2023, 6, 15, 10, 30, 0);
    assert_eq!(format_exif(&t, &ExifPattern::ColonSeconds), "2023:06:15 10:30:00");
    assert_eq!(format_exif(&t, &ExifPattern::HyphenSeconds), "2023-06-15 10:30:00");
    assert_eq!(format_exif(&t, &ExifPattern::SlashSeconds), "2023/06/15 10:30:00");
    assert_eq!(format_exif(&t, &ExifPattern::ColonMinutes), "2023:06:15 10:30");
    assert_eq!(format_exif(&t, &ExifPattern::IsoT), "2023-06-15T10:30:00");
}

#[test]
fn strftime_formatting() {
    let t = dt(2023, 6, 15, 10, 30, 5);
    assert_eq!(format_date(&t, "%Y-%m-%d"), "2023-06-15");
    assert_eq!(format_date(&t, "%Y/%m"), "2023/06");
    assert_eq!(format_date(&t, "%Y-%m-%d %H:%M:%S"), "2023-06-15 10:30:05");
    assert_eq!(format_date(&t, "%y"), "23");
    assert_eq!(format_date(&t, "photos-%Y"), "photos-2023");
    assert_eq!(format_date(&t, "100%%"), "100%");
    assert_eq!(format_date(&t, "%Q"), "%Q");
    assert_eq!(format_date(&t, ""), "");
}

#[test]
fn canonical_date_key() {
    assert_eq!(date_key(&dt(2023, 6, 15, 10, 30, 0)), "2023-06-15");
    assert_eq!(date_key(&dt(800, 1, 2, 0, 0, 0)), "0800-01-02");
}
