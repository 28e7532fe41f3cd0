//! EXIF capture-time metadata as plain values, and the trusted bridge to the
//! EXIF parser. A JPEG's EXIF block is assumed to be the most reliable date
//! source, so the scanner asks for these fields first.

use vstd::prelude::*;

use crate::datetime::DateTime;

verus! {

/// The raw fields of one EXIF datetime value, exactly as the parser hands
/// them over: ranges are not yet validated (a month of 13 is possible).
#[derive(Clone, Copy, Debug, PartialEq, Eq, Structural)]
pub struct ExifDateTime {
    pub year: u16,
    pub month: u8,
    pub day: u8,
    pub hour: u8,
    pub minute: u8,
    pub second: u8,
}

impl ExifDateTime {
    /// The calendar moment the raw fields name, when they form one.
    pub open spec fn spec_to_naive(self) -> Option<DateTime> {
        let dt = DateTime {
            year: self.year,
            month: self.month,
            day: self.day,
            hour: self.hour,
            minute: self.minute,
            second: self.second,
        };
        if dt.valid() {
            Some(dt)
        } else {
            None
        }
    }

    /// Validates the raw fields into a calendar moment.
    pub fn to_naive_opt(&self) -> (r: Option<DateTime>)
        ensures
            r == self.spec_to_naive(),
    {
        DateTime::new(self.year, self.month, self.day, self.hour, self.minute, self.second)
    }
}

/// The EXIF fields the scanner reads from an image: the primary capture-time
/// tag and the original-time tag.
#[derive(Clone, Copy, Debug, PartialEq, Eq, Structural)]
pub struct ExifFields {
    pub datetime: Option<ExifDateTime>,
    pub datetime_original: Option<ExifDateTime>,
}

/// What the EXIF parser yields for the primary capture-time tag of these
/// bytes; a function of the bytes alone.
pub uninterp spec fn exif_datetime_of(data: Seq<u8>) -> Option<ExifDateTime>;

/// What the EXIF parser yields for the original capture-time tag of these
/// bytes; a function of the bytes alone.
pub uninterp spec fn exif_datetime_original_of(data: Seq<u8>) -> Option<ExifDateTime>;

/// Relies on exif::Reader::read_from_container, Exif::get_field with
/// Tag::DateTime in the primary IFD, and exif::DateTime::from_ascii: the
/// field depends on the bytes alone. An unreadable container, an absent
/// field, an empty ASCII value list (treated as absent, per the tag's
/// documented shape) and an unparsable value all yield none.
#[verifier::external_body]
pub(crate) fn exif_datetime(data: &[u8]) -> (r: Option<ExifDateTime>)
    ensures
        r == exif_datetime_of(data@),
{
    let exif = exif::Reader::new().read_from_container(&mut std::io::Cursor::new(data)).ok()?;
    let field = exif.get_field(exif::Tag::DateTime, exif::In::PRIMARY)?;
    let v = match &field.value {
        exif::Value::Ascii(v) if !v.is_empty() => v,
        _ => return None,
    };
    let d = exif::DateTime::from_ascii(&v[0]).ok()?;
    Some(ExifDateTime {
        year: d.year,
        month: d.month,
        day: d.day,
        hour: d.hour,
        minute: d.minute,
        second: d.second,
    })
}

/// Relies on exif::Reader::read_from_container, Exif::get_field with
/// Tag::DateTimeOriginal in the primary IFD, and exif::DateTime::from_ascii,
/// as `exif_datetime` does for the primary tag.
#[verifier::external_body]
pub(crate) fn exif_datetime_original(data: &[u8]) -> (r: Option<ExifDateTime>)
    ensures
        r == exif_datetime_original_of(data@),
{
    let exif = exif::Reader::new().read_from_container(&mut std::io::Cursor::new(data)).ok()?;
    let field = exif.get_field(exif::Tag::DateTimeOriginal, exif::In::PRIMARY)?;
    let v = match &field.value {
        exif::Value::Ascii(v) if !v.is_empty() => v,
        _ => return None,
    };
    let d = exif::DateTime::from_ascii(&v[0]).ok()?;
    Some(ExifDateTime {
        year: d.year,
        month: d.month,
        day: d.day,
        hour: d.hour,
        minute: d.minute,
        second: d.second,
    })
}

} // verus!
