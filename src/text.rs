//! Text carried by data objects: UTF-16LE strings and UTF-8 URLs.
use vstd::prelude::*;

use vstd::string::StringSliceAdditionalSpecFns;

use crate::error::DbError;
use crate::artworkdb::Utf16IthmbName;
use crate::record::{PodcastUrlObj, Utf16String};

verus! {

/// The UTF-16 code units of one character: the character itself below
/// U+10000, a surrogate pair above.
pub open spec fn char_units(c: char) -> Seq<u16> {
    let v = c as u32;
    if v < 0x10000 {
        seq![v as u16]
    } else {
        let w = (v - 0x10000) as u32;
        seq![(0xD800 + (w >> 10u32)) as u16, (0xDC00 + (w & 0x3FFu32)) as u16]
    }
}

/// The UTF-16 code units of a text.
pub open spec fn utf16_of(t: Seq<char>) -> Seq<u16>
    decreases t.len(),
{
    if t.len() == 0 {
        Seq::empty()
    } else {
        utf16_of(t.drop_last()) + char_units(t.last())
    }
}

/// The text that `std::str::from_utf8` decodes from bytes or, when they are
/// not UTF-8, the length of their longest valid prefix (`valid_up_to`).
pub uninterp spec fn utf8_decoded(bytes: Seq<u8>) -> Result<Seq<char>, usize>;

/// Relies on `String::from_utf16`: the text whose UTF-16 encoding the code
/// units are, failing exactly when they are no text's encoding (an unpaired
/// surrogate).
#[verifier::external_body]
fn decode_utf16(units: &[u16]) -> (r: Option<String>)
    ensures
        r matches Some(s) ==> utf16_of(s@) == units@,
        r is None ==> forall|t: Seq<char>| #[trigger] utf16_of(t) != units@,
{
    String::from_utf16(units).ok()
}

/// Relies on `std::str::from_utf8`: on success the text is the bytes
/// themselves read as UTF-8; on failure `Utf8Error::valid_up_to` gives the
/// length of the longest valid prefix, which is within the input.
#[verifier::external_body]
fn decode_utf8(bytes: &[u8]) -> (r: Result<&str, usize>)
    ensures
        r matches Ok(s) ==> utf8_decoded(bytes@) is Ok && utf8_decoded(bytes@)->Ok_0 == s@
            && s.spec_bytes() == bytes@,
        r matches Err(n) ==> utf8_decoded(bytes@) is Err && utf8_decoded(bytes@)->Err_0 == n && n
            <= bytes@.len(),
{
    match std::str::from_utf8(bytes) {
        Ok(s) => Ok(s),
        Err(e) => Err(e.valid_up_to()),
    }
}

/// Relies on `str::encode_utf16`: the code units of a text.
#[verifier::external_body]
fn encode_utf16(text: &str) -> (r: Vec<u16>)
    ensures
        r@ == utf16_of(text@),
{
    text.encode_utf16().collect()
}

/// Little-endian byte pairs read as code units.
pub open spec fn units_of(b: Seq<u8>) -> Seq<u16> {
    Seq::new(b.len() / 2, |i: int| ((b[2 * i] as u16) | ((b[2 * i + 1] as u16) << 8u16)) as u16)
}

/// Code units written as little-endian byte pairs.
pub open spec fn bytes_of(u: Seq<u16>) -> Seq<u8> {
    Seq::new(
        2 * u.len(),
        |i: int|
            if i % 2 == 0 {
                (u[i / 2] & 0xff) as u8
            } else {
                (u[i / 2] >> 8u16) as u8
            },
    )
}

fn units_from_bytes(b: &[u8]) -> (r: Vec<u16>)
    ensures
        r@ == units_of(b@),
{
    let len = b.len();
    let n = len / 2;
    let mut r: Vec<u16> = Vec::new();
    let mut i: usize = 0;
    while i < n
        invariant
            len == b@.len(),
            n == len / 2,
            2 * n <= len,
            i <= n,
            r@.len() == i,
            forall|k: int| 0 <= k < i ==> #[trigger] r@[k] == units_of(b@)[k],
        decreases n - i,
    {
        r.push((b[2 * i] as u16) | ((b[2 * i + 1] as u16) << 8u16));
        i = i + 1;
    }
    assert(r@ =~= units_of(b@));
    r
}

fn bytes_from_units(u: &[u16]) -> (r: Vec<u8>)
    ensures
        r@ == bytes_of(u@),
{
    let mut r: Vec<u8> = Vec::new();
    let mut i: usize = 0;
    while i < u.len()
        invariant
            i <= u@.len(),
            r@.len() == 2 * i,
            forall|k: int| 0 <= k < 2 * i ==> #[trigger] r@[k] == bytes_of(u@)[k],
        decreases u@.len() - i,
    {
        r.push((u[i] & 0xff) as u8);
        r.push((u[i] >> 8u16) as u8);
        i = i + 1;
    }
    assert(r@ =~= bytes_of(u@));
    r
}

/// Little-endian UTF-16 bytes decoded: an odd byte count is malformed at
/// its end, text that does not decode is malformed at offset 0.
fn utf16le_text(b: &Vec<u8>) -> (r: Result<String, DbError>)
    ensures
        b@.len() % 2 != 0 ==> r == Err::<String, DbError>(
            DbError::MalformedString { offset: b@.len() as usize },
        ),
        b@.len() % 2 == 0 ==> match r {
            Ok(s) => utf16_of(s@) == units_of(b@),
            Err(e) => e == (DbError::MalformedString { offset: 0 }) && forall|t: Seq<char>|
                #[trigger] utf16_of(t) != units_of(b@),
        },
{
    if b.len() % 2 != 0 {
        return Err(DbError::MalformedString { offset: b.len() });
    }
    let units = units_from_bytes(b.as_slice());
    match decode_utf16(units.as_slice()) {
        Some(s) => Ok(s),
        None => Err(DbError::MalformedString { offset: 0 }),
    }
}

impl Utf16String {
    /// A string payload holding `text`, at the given position, with the
    /// reserved words zero.
    pub fn new(position: u32, text: &str) -> (s: Utf16String)
        ensures
            s.position == position,
            s.unk_0x08 == 0,
            s.unk_0x0c == 0,
            s.string_data@ == bytes_of(utf16_of(text@)),
    {
        let units = encode_utf16(text);
        let string_data = bytes_from_units(units.as_slice());
        Utf16String { position, unk_0x08: 0, unk_0x0c: 0, string_data }
    }

    /// The text of the payload: its bytes read as UTF-16LE code units and
    /// decoded.
    pub fn to_string(&self) -> (r: Result<String, DbError>)
        ensures
            self.string_data@.len() % 2 != 0 ==> r matches Err(DbError::MalformedString { .. }),
            self.string_data@.len() % 2 == 0 ==> match r {
                Ok(s) => utf16_of(s@) == units_of(self.string_data@),
                Err(e) => e == (DbError::MalformedString { offset: 0 }) && forall|t: Seq<char>|
                    #[trigger] utf16_of(t) != units_of(self.string_data@),
            },
    {
        utf16le_text(&self.string_data)
    }
}

impl Utf16IthmbName {
    /// The thumbnail file name: the payload's bytes read as UTF-16LE code
    /// units and decoded.
    pub fn to_string(&self) -> (r: Result<String, DbError>)
        ensures
            self.string_data@.len() % 2 != 0 ==> r matches Err(DbError::MalformedString { .. }),
            self.string_data@.len() % 2 == 0 ==> match r {
                Ok(s) => utf16_of(s@) == units_of(self.string_data@),
                Err(e) => e == (DbError::MalformedString { offset: 0 }) && forall|t: Seq<char>|
                    #[trigger] utf16_of(t) != units_of(self.string_data@),
            },
    {
        utf16le_text(&self.string_data)
    }
}

impl PodcastUrlObj {
    /// The URL: the payload itself read as UTF-8, with nothing stripped. When
    /// it is not UTF-8 the error's offset is the length of its longest valid
    /// prefix.
    pub fn to_string(&self) -> (r: Result<&str, DbError>)
        ensures
            match r {
                Ok(s) => s.spec_bytes() == self.string_data@ && utf8_decoded(self.string_data@) is Ok
                    && utf8_decoded(self.string_data@)->Ok_0 == s@,
                Err(e) => utf8_decoded(self.string_data@) is Err && e == (DbError::MalformedString {
                    offset: utf8_decoded(self.string_data@)->Err_0,
                }),
            },
    {
        match decode_utf8(self.string_data.as_slice()) {
            Ok(s) => Ok(s),
            Err(n) => Err(DbError::MalformedString { offset: n }),
        }
    }
}

} // verus!
