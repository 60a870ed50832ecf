use photo_organizer::date::CaptureDate;
use photo_organizer::exifdata::{extract_capture_date, extract_from_fields};

fn dt(year: u32, month: u32, day: u32, hour: u32, minute: u32, second: u32) -> CaptureDate {
    CaptureDate { year, month, day, hour, minute, second }
}

/// A minimal little-endian TIFF whose single IFD entry is the generic
/// DateTime tag (0x0132, ASCII, 20 bytes) with the given value.
fn tiff_with_datetime(value: &str) -> Vec<u8> {
    assert_eq!(value.len(), 19);
    let mut b: Vec<u8> = Vec::new();
    b.extend_from_slice(b"II");
    b.extend_from_slice(&42u16.to_le_bytes());
    b.extend_from_slice(&8u32.to_le_bytes());
    // IFD0 at offset 8: one entry.
    b.extend_from_slice(&1u16.to_le_bytes());
    b.extend_from_slice(&0x0132u16.to_le_bytes());
    b.extend_from_slice(&2u16.to_le_bytes());
    b.extend_from_slice(&20u32.to_le_bytes());
    b.extend_from_slice(&26u32.to_le_bytes());
    b.extend_from_slice(&0u32.to_le_bytes());
    b.extend_from_slice(value.as_bytes());
    b.push(0);
    b
}

#[test]
fn extracts_datetime_from_tiff_bytes() {
    let bytes = tiff_with_datetime("2023:06:15 10:30:00");
    assert_eq!(extract_capture_date(&bytes), Some(dt(2023, 6, 15, 10, 30, 0)));
}

#[test]
fn unreadable_container_yields_no_date() {
    assert_eq!(extract_capture_date(&vec![0u8; 16]), None);
    assert_eq!(extract_capture_date(&Vec::new()), None);
}

#[test]
fn unparseable_field_value_yields_no_date() {
    let bytes = tiff_with_datetime("    :  :     :  :  ");
    assert_eq!(extract_capture_date(&bytes), None);
}

#[test]
fn field_priority_is_original_then_digitized_then_modified() {
    let original = Some("2020:01:01 00:00:01".to_string());
    let digitized = Some("2021:02:02 00:00:02".to_string());
    let modified = Some("2022:03:03 00:00:03".to_string());
    assert_eq!(
        extract_from_fields(&original, &digitized, &modified),
        Some(dt(2020, 1, 1, 0, 0, 1))
    );
    assert_eq!(
        extract_from_fields(&None, &digitized, &modified),
        Some(dt(2021, 2, 2, 0, 0, 2))
    );
    assert_eq!(extract_from_fields(&None, &None, &modified), Some(dt(2022, 3, 3, 0, 0, 3)));
    assert_eq!(extract_from_fields(&None, &None, &None), None);
}

#[test]
fn unparseable_fields_are_passed_over() {
    let bad = Some("not a date".to_string());
    let good = Some("2021:02:02 00:00:02".to_string());
    assert_eq!(extract_from_fields(&bad, &good, &None), Some(dt(2021, 2, 2, 0, 0, 2)));
    assert_eq!(extract_from_fields(&bad, &None, &bad.clone()), None);
}
