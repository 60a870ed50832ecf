//! Capture-date extraction: queries the prioritized date fields of an
//! image's metadata container and delegates each candidate string to the
//! date parser until one succeeds.
use vstd::prelude::*;
use crate::date::{CaptureDate, parse_date_spec, parse_exif_date, valid_date};

verus! {

/// The rendered date string that the metadata container of `data` carries
/// in date field `which` of the primary image section (0 original capture
/// time, 1 digitized time, 2 generic modification time); `None` when the
/// container is unreadable or the field is absent.
pub uninterp spec fn exif_date_field(data: Seq<u8>, which: int) -> Option<Seq<char>>;

/// Relies on exif::Reader::read_from_container (over an in-memory cursor)
/// and exif::Exif::get_field with In::PRIMARY: both depend on the bytes
/// alone, and the field's display string is rendered from the stored
/// value.  An unreadable or unsupported container yields `None`, never a
/// panic.
#[verifier::external_body]
fn read_exif_date_field(data: &Vec<u8>, which: u8) -> (r: Option<String>)
    requires
        which < 3,
    ensures
        r.deep_view() == exif_date_field(data@, which as int),
{
    let tag = match which {
        0 => exif::Tag::DateTimeOriginal,
        1 => exif::Tag::DateTimeDigitized,
        _ => exif::Tag::DateTime,
    };
    let mut cur = std::io::Cursor::new(data.as_slice());
    let ex = exif::Reader::new().read_from_container(&mut cur).ok()?;
    Some(ex.get_field(tag, exif::In::PRIMARY)?.display_value().to_string())
}

/// What extraction yields from the three prioritized field strings: the
/// first present field whose string parses; fields that are absent or fail
/// every parse pattern are passed over.
pub open spec fn extract_spec(
    a: Option<Seq<char>>,
    b: Option<Seq<char>>,
    c: Option<Seq<char>>,
) -> Option<CaptureDate> {
    if a matches Some(s) && parse_date_spec(s) is Some {
        parse_date_spec(a->Some_0)
    } else if b matches Some(s) && parse_date_spec(s) is Some {
        parse_date_spec(b->Some_0)
    } else if c matches Some(s) && parse_date_spec(s) is Some {
        parse_date_spec(c->Some_0)
    } else {
        None
    }
}

/// Tries the three date-bearing fields in strict priority order — original
/// capture time, digitized time, generic modification time — and returns
/// the first parseable date; `None` when no field yields one.
pub fn extract_from_fields(
    original: &Option<String>,
    digitized: &Option<String>,
    modified: &Option<String>,
) -> (r: Option<CaptureDate>)
    ensures
        r == extract_spec(original.deep_view(), digitized.deep_view(), modified.deep_view()),
        r matches Some(d) ==> valid_date(d),
{
    if let Some(s) = original {
        if let Some(d) = parse_exif_date(s.as_str()) {
            return Some(d);
        }
    }
    if let Some(s) = digitized {
        if let Some(d) = parse_exif_date(s.as_str()) {
            return Some(d);
        }
    }
    if let Some(s) = modified {
        if let Some(d) = parse_exif_date(s.as_str()) {
            return Some(d);
        }
    }
    None
}

/// The CaptureDateExtractor over in-memory image bytes: reads the metadata
/// container and tries the prioritized date fields.  An unreadable
/// container is no error: the result is simply `None`.
pub fn extract_capture_date(data: &Vec<u8>) -> (r: Option<CaptureDate>)
    ensures
        r == extract_spec(
            exif_date_field(data@, 0),
            exif_date_field(data@, 1),
            exif_date_field(data@, 2),
        ),
        r matches Some(d) ==> valid_date(d),
{
    let a = read_exif_date_field(data, 0);
    let b = read_exif_date_field(data, 1);
    let c = read_exif_date_field(data, 2);
    extract_from_fields(&a, &b, &c)
}

} // verus!
