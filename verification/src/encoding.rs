//! Detection of a byte stream's text encoding, and decoding into text.
use vstd::prelude::*;
use vstd::utf8::{decode_utf8, valid_utf8};

use crate::text::string_from_chars;

verus! {

/// The encodings that the toolkit tells apart.
#[derive(Debug, Clone, Copy, PartialEq, Eq, Structural)]
pub enum Encoding {
    Utf8,
    Utf8Bom,
    Utf16Le,
    Utf16Be,
    Unknown,
}

/// Why bytes could not be decoded.
#[derive(Debug, Clone, Copy, PartialEq, Eq, Structural)]
pub enum DecodeError {
    /// The bytes are not well-formed UTF-8.
    InvalidUtf8,
    /// The 16-bit units hold an unpaired surrogate.
    InvalidUtf16,
    /// The encoding is [`Encoding::Unknown`].
    UnknownEncoding,
}

/// The UTF-8 byte order mark.
pub open spec fn utf8_bom() -> Seq<u8> {
    seq![0xEFu8, 0xBBu8, 0xBFu8]
}

/// The little-endian UTF-16 byte order mark.
pub open spec fn utf16le_bom() -> Seq<u8> {
    seq![0xFFu8, 0xFEu8]
}

/// The big-endian UTF-16 byte order mark.
pub open spec fn utf16be_bom() -> Seq<u8> {
    seq![0xFEu8, 0xFFu8]
}

pub open spec fn starts_with_bytes(b: Seq<u8>, p: Seq<u8>) -> bool {
    p.len() <= b.len() && b.take(p.len() as int) == p
}

/// `b` without the prefix `p`, or `b` itself where it does not start with `p`.
pub open spec fn strip_bytes(b: Seq<u8>, p: Seq<u8>) -> Seq<u8> {
    if starts_with_bytes(b, p) {
        b.skip(p.len() as int)
    } else {
        b
    }
}

/// The encoding that [`detect_encoding`] reports: a byte order mark decides first; otherwise
/// well-formed UTF-8 is `Utf8`, and anything else `Unknown`.
pub open spec fn detected_encoding(b: Seq<u8>) -> Encoding {
    if starts_with_bytes(b, utf8_bom()) {
        Encoding::Utf8Bom
    } else if starts_with_bytes(b, utf16le_bom()) {
        Encoding::Utf16Le
    } else if starts_with_bytes(b, utf16be_bom()) {
        Encoding::Utf16Be
    } else if valid_utf8(b) {
        Encoding::Utf8
    } else {
        Encoding::Unknown
    }
}

/// The text that the 16-bit units `units` encode in UTF-16, as `String::from_utf16` decodes it:
/// a unit outside `D800..=DFFF` stands for itself; a high surrogate (`D800..=DBFF`) followed by
/// a low one (`DC00..=DFFF`) stands for `0x10000` plus ten bits from each; any other surrogate is
/// unpaired, and the units are not UTF-16 (`None`).
pub open spec fn utf16_decoding(units: Seq<u16>) -> Option<Seq<char>>
    decreases units.len(),
{
    if units.len() == 0 {
        Some(seq![])
    } else {
        let u = units[0];
        if u < 0xD800 || u > 0xDFFF {
            match utf16_decoding(units.drop_first()) {
                Some(r) => Some(seq![(u as u32) as char] + r),
                None => None,
            }
        } else if u <= 0xDBFF && units.len() >= 2 && 0xDC00 <= units[1] <= 0xDFFF {
            match utf16_decoding(units.skip(2)) {
                Some(r) => Some(seq![surrogate_pair(u, units[1]) as char] + r),
                None => None,
            }
        } else {
            None
        }
    }
}

/// The scalar value that the high surrogate `hi` and the low surrogate `lo` encode.
pub open spec fn surrogate_pair(hi: u16, lo: u16) -> u32 {
    (0x10000 + (hi - 0xD800) * 0x400 + (lo - 0xDC00)) as u32
}

/// The 16-bit units of `b` read two bytes at a time (a trailing odd byte is ignored).
pub open spec fn utf16_units_spec(b: Seq<u8>, little_endian: bool) -> Seq<u16> {
    Seq::new(
        b.len() / 2,
        |k: int|
            if little_endian {
                (b[2 * k] as int + b[2 * k + 1] as int * 256) as u16
            } else {
                (b[2 * k] as int * 256 + b[2 * k + 1] as int) as u16
            },
    )
}

/// The text that [`decode_bytes`] returns for `b` read in `enc`.
pub open spec fn decoded_text(enc: Encoding, b: Seq<u8>) -> Result<Seq<char>, DecodeError> {
    match enc {
        Encoding::Utf8 => utf8_text(b),
        Encoding::Utf8Bom => utf8_text(strip_bytes(b, utf8_bom())),
        Encoding::Utf16Le => utf16_text(utf16_units_spec(strip_bytes(b, utf16le_bom()), true)),
        Encoding::Utf16Be => utf16_text(utf16_units_spec(strip_bytes(b, utf16be_bom()), false)),
        Encoding::Unknown => Err(DecodeError::UnknownEncoding),
    }
}

pub open spec fn utf8_text(b: Seq<u8>) -> Result<Seq<char>, DecodeError> {
    if valid_utf8(b) {
        Ok(decode_utf8(b))
    } else {
        Err(DecodeError::InvalidUtf8)
    }
}

pub open spec fn utf16_text(units: Seq<u16>) -> Result<Seq<char>, DecodeError> {
    match utf16_decoding(units) {
        Some(s) => Ok(s),
        None => Err(DecodeError::InvalidUtf16),
    }
}

pub open spec fn string_result_model(r: Result<String, DecodeError>) -> Result<
    Seq<char>,
    DecodeError,
> {
    match r {
        Ok(s) => Ok(s@),
        Err(e) => Err(e),
    }
}

/// Decodes UTF-8 with `std::str::from_utf8`, which accepts exactly the well-formed UTF-8
/// byte sequences and returns the characters they encode.
#[verifier::external_body]
pub(crate) fn utf8_to_string(bytes: &[u8]) -> (r: Option<String>)
    ensures
        r is Some <==> valid_utf8(bytes@),
        r matches Some(s) ==> s@ == decode_utf8(bytes@),
{
    std::str::from_utf8(bytes).ok().map(|s| s.to_string())
}

/// The character whose scalar value is `u`, from `char::from_u32`, which gives one exactly for
/// the Unicode scalar values (`0..=D7FF` and `E000..=10FFFF`).
#[verifier::external_body]
fn char_from_u32(u: u32) -> (r: Option<char>)
    ensures
        r is Some <==> (u <= 0xD7FF || (0xE000 <= u && u <= 0x10FFFF)),
        r matches Some(c) ==> c as u32 == u,
{
    char::from_u32(u)
}

/// The characters of the UTF-16 units `units`, or `None` where a surrogate is unpaired.
pub fn decode_utf16_units(units: &[u16]) -> (r: Option<Vec<char>>)
    ensures
        match r {
            Some(v) => utf16_decoding(units@) == Some(v@),
            None => utf16_decoding(units@) is None,
        },
{
    let n = units.len();
    let mut out: Vec<char> = Vec::new();
    let mut i: usize = 0;
    assert(units@.skip(0) =~= units@);
    while i < n
        invariant
            i <= n == units@.len(),
            utf16_decoding(units@) == match utf16_decoding(units@.skip(i as int)) {
                Some(r) => Some(out@ + r),
                None => None,
            },
        decreases n - i,
    {
        let ghost rest = units@.skip(i as int);
        let u = units[i];
        assert(rest[0] == u);
        if u < 0xD800 || u > 0xDFFF {
            let c = match char_from_u32(u as u32) {
                Some(c) => c,
                None => {
                    assert(false);
                    return None;
                },
            };
            proof {
                vstd::utf8::char_u32_cast(c, u as u32);
                assert(rest.drop_first() =~= units@.skip(i + 1));
                if let Some(r) = utf16_decoding(units@.skip(i + 1)) {
                    assert(out@ + (seq![c] + r) =~= out@.push(c) + r);
                }
            }
            out.push(c);
            i = i + 1;
        } else if u <= 0xDBFF && i + 1 < n && 0xDC00 <= units[i + 1] && units[i + 1] <= 0xDFFF {
            let lo = units[i + 1];
            assert(rest[1] == lo);
            let value: u32 = 0x10000 + (u as u32 - 0xD800) * 0x400 + (lo as u32 - 0xDC00);
            assert(value == surrogate_pair(u, lo));
            let c = match char_from_u32(value) {
                Some(c) => c,
                None => {
                    assert(false);
                    return None;
                },
            };
            proof {
                vstd::utf8::char_u32_cast(c, value);
                assert(rest.skip(2) =~= units@.skip(i + 2));
                if let Some(r) = utf16_decoding(units@.skip(i + 2)) {
                    assert(out@ + (seq![c] + r) =~= out@.push(c) + r);
                }
            }
            out.push(c);
            i = i + 2;
        } else {
            return None;
        }
    }
    assert(units@.skip(n as int) =~= Seq::<u16>::empty());
    assert(out@ + Seq::<char>::empty() =~= out@);
    Some(out)
}

fn starts_with_prefix(b: &[u8], p: &[u8]) -> (r: bool)
    ensures
        r == starts_with_bytes(b@, p@),
{
    if p.len() > b.len() {
        return false;
    }
    let mut i: usize = 0;
    while i < p.len()
        invariant
            p@.len() <= b@.len(),
            i <= p@.len(),
            forall|j: int| 0 <= j < i ==> b@[j] == p@[j],
        decreases p@.len() - i,
    {
        if b[i] != p[i] {
            assert(b@.take(p@.len() as int)[i as int] != p@[i as int]);
            return false;
        }
        i = i + 1;
    }
    assert(b@.take(p@.len() as int) =~= p@);
    true
}

/// `b` without the prefix `p`, where it starts with `p`.
fn strip_prefix_bytes<'a>(b: &'a [u8], p: &[u8]) -> (r: &'a [u8])
    ensures
        r@ == strip_bytes(b@, p@),
{
    if starts_with_prefix(b, p) {
        &b[p.len()..b.len()]
    } else {
        b
    }
}

/// Tells the encoding of `bytes`: a UTF-8 byte order mark gives `Utf8Bom`, `FF FE` gives
/// `Utf16Le`, `FE FF` gives `Utf16Be`; otherwise well-formed UTF-8 gives `Utf8` and anything
/// else `Unknown`.
pub fn detect_encoding(bytes: &[u8]) -> (e: Encoding)
    ensures
        e == detected_encoding(bytes@),
{
    let bom8 = [0xEFu8, 0xBBu8, 0xBFu8];
    let le = [0xFFu8, 0xFEu8];
    let be = [0xFEu8, 0xFFu8];
    assert(bom8@ == utf8_bom());
    assert(le@ == utf16le_bom());
    assert(be@ == utf16be_bom());
    if starts_with_prefix(bytes, &bom8) {
        return Encoding::Utf8Bom;
    }
    if starts_with_prefix(bytes, &le) {
        return Encoding::Utf16Le;
    }
    if starts_with_prefix(bytes, &be) {
        return Encoding::Utf16Be;
    }
    if utf8_to_string(bytes).is_some() {
        return Encoding::Utf8;
    }
    Encoding::Unknown
}

/// The 16-bit units of `bytes` read two at a time; a trailing odd byte is ignored.
pub fn utf16_units(bytes: &[u8], little_endian: bool) -> (u: Vec<u16>)
    ensures
        u@ == utf16_units_spec(bytes@, little_endian),
{
    let len = bytes.len();
    let n = len / 2;
    let mut units: Vec<u16> = Vec::with_capacity(n);
    let mut k: usize = 0;
    while k < n
        invariant
            len == bytes@.len(),
            n == len / 2,
            k <= n,
            units@.len() == k,
            forall|j: int| 0 <= j < k ==> units@[j] == #[trigger] utf16_units_spec(bytes@, little_endian)[j],
        decreases n - k,
    {
        let b0 = bytes[2 * k] as u16;
        let b1 = bytes[2 * k + 1] as u16;
        let value: u16 = if little_endian {
            b0 + b1 * 256
        } else {
            b0 * 256 + b1
        };
        units.push(value);
        k = k + 1;
    }
    assert(units@ =~= utf16_units_spec(bytes@, little_endian));
    units
}

fn decode_utf16(bytes: &[u8], little_endian: bool) -> (r: Result<String, DecodeError>)
    ensures
        string_result_model(r) == utf16_text(utf16_units_spec(bytes@, little_endian)),
{
    let units = utf16_units(bytes, little_endian);
    match decode_utf16_units(units.as_slice()) {
        Some(cs) => Ok(string_from_chars(cs.as_slice())),
        None => Err(DecodeError::InvalidUtf16),
    }
}

fn decode_utf8_bytes(bytes: &[u8]) -> (r: Result<String, DecodeError>)
    ensures
        string_result_model(r) == utf8_text(bytes@),
{
    match utf8_to_string(bytes) {
        Some(s) => Ok(s),
        None => Err(DecodeError::InvalidUtf8),
    }
}

/// Decodes `bytes` read in `encoding`. A byte order mark of the encoding is skipped where
/// present; UTF-8 must be well-formed and UTF-16 free of unpaired surrogates; `Unknown` is
/// refused.
pub fn decode_bytes(encoding: Encoding, bytes: &[u8]) -> (r: Result<String, DecodeError>)
    ensures
        string_result_model(r) == decoded_text(encoding, bytes@),
{
    match encoding {
        Encoding::Utf8 => decode_utf8_bytes(bytes),
        Encoding::Utf8Bom => {
            let bom8 = [0xEFu8, 0xBBu8, 0xBFu8];
            assert(bom8@ == utf8_bom());
            decode_utf8_bytes(strip_prefix_bytes(bytes, &bom8))
        },
        Encoding::Utf16Le => {
            let le = [0xFFu8, 0xFEu8];
            assert(le@ == utf16le_bom());
            decode_utf16(strip_prefix_bytes(bytes, &le), true)
        },
        Encoding::Utf16Be => {
            let be = [0xFEu8, 0xFFu8];
            assert(be@ == utf16be_bom());
            decode_utf16(strip_prefix_bytes(bytes, &be), false)
        },
        Encoding::Unknown => Err(DecodeError::UnknownEncoding),
    }
}

/// The name that `{:?}` prints for an encoding.
pub open spec fn encoding_name(e: Encoding) -> Seq<char> {
    match e {
        Encoding::Utf8 => seq!['U', 't', 'f', '8'],
        Encoding::Utf8Bom => seq!['U', 't', 'f', '8', 'B', 'o', 'm'],
        Encoding::Utf16Le => seq!['U', 't', 'f', '1', '6', 'L', 'e'],
        Encoding::Utf16Be => seq!['U', 't', 'f', '1', '6', 'B', 'e'],
        Encoding::Unknown => seq!['U', 'n', 'k', 'n', 'o', 'w', 'n'],
    }
}

impl Encoding {
    /// The variant's name, as `{:?}` prints it.
    pub fn name(&self) -> (s: String)
        ensures
            s@ == encoding_name(*self),
    {
        let v = match self {
            Encoding::Utf8 => vec!['U', 't', 'f', '8'],
            Encoding::Utf8Bom => vec!['U', 't', 'f', '8', 'B', 'o', 'm'],
            Encoding::Utf16Le => vec!['U', 't', 'f', '1', '6', 'L', 'e'],
            Encoding::Utf16Be => vec!['U', 't', 'f', '1', '6', 'B', 'e'],
            Encoding::Unknown => vec!['U', 'n', 'k', 'n', 'o', 'w', 'n'],
        };
        string_from_chars(v.as_slice())
    }
}

/// Bytes that [`detect_encoding`] reports as `Utf8` always decode as UTF-8, to the characters
/// that they encode.
pub proof fn law_detected_utf8_decodes(b: Seq<u8>)
    requires
        detected_encoding(b) == Encoding::Utf8,
    ensures
        decoded_text(Encoding::Utf8, b) == Ok::<Seq<char>, DecodeError>(decode_utf8(b)),
{
}

/// Reading with a byte order mark ignores a mark that is there and otherwise reads like plain
/// UTF-8: `decode_bytes(Utf8Bom, BOM + b)` and `decode_bytes(Utf8Bom, b)` for `b` without a
/// mark both equal `decode_bytes(Utf8, b)`.
pub proof fn law_utf8_bom_is_skipped(b: Seq<u8>)
    ensures
        decoded_text(Encoding::Utf8Bom, utf8_bom() + b) == decoded_text(Encoding::Utf8, b),
        !starts_with_bytes(b, utf8_bom()) ==> decoded_text(Encoding::Utf8Bom, b) == decoded_text(
            Encoding::Utf8,
            b,
        ),
{
    let bb = utf8_bom() + b;
    assert(bb.take(3) =~= utf8_bom());
    assert(bb.skip(3) =~= b);
}

/// No bytes decode in the `Unknown` encoding.
pub proof fn law_unknown_never_decodes(b: Seq<u8>)
    ensures
        decoded_text(Encoding::Unknown, b) is Err,
{
}

/// The UTF-16 units of one character: itself below `0x10000`, else a high and a low
/// surrogate holding the upper and lower ten bits of its value minus `0x10000`.
pub open spec fn utf16_units_of(c: char) -> Seq<u16> {
    let v = c as u32;
    if v < 0x10000 {
        seq![v as u16]
    } else {
        seq![(0xD800 + (v - 0x10000) / 0x400) as u16, (0xDC00 + (v - 0x10000) % 0x400) as u16]
    }
}

/// The UTF-16 units of a text, as `str::encode_utf16` yields them.
pub open spec fn utf16_encoding(cs: Seq<char>) -> Seq<u16>
    decreases cs.len(),
{
    if cs.len() == 0 {
        seq![]
    } else {
        utf16_units_of(cs[0]) + utf16_encoding(cs.drop_first())
    }
}

/// Decoding the UTF-16 encoding of a text gives back that text.
pub proof fn law_utf16_round_trip(cs: Seq<char>)
    ensures
        utf16_decoding(utf16_encoding(cs)) == Some(cs),
    decreases cs.len(),
{
    if cs.len() > 0 {
        let c = cs[0];
        let v = c as u32;
        let units = utf16_encoding(cs);
        let first = utf16_units_of(c);
        let rest = utf16_encoding(cs.drop_first());
        law_utf16_round_trip(cs.drop_first());
        vstd::utf8::char_is_scalar(c);
        assert(units == first + rest);
        if v < 0x10000 {
            assert(units[0] == v as u16);
            assert(units.drop_first() =~= rest);
            vstd::utf8::char_u32_cast(c, (v as u16) as u32);
        } else {
            let hi = (0xD800 + (v - 0x10000) / 0x400) as u16;
            let lo = (0xDC00 + (v - 0x10000) % 0x400) as u16;
            assert(units[0] == hi && units[1] == lo);
            assert(units.skip(2) =~= rest);
            assert(surrogate_pair(hi, lo) == v);
            vstd::utf8::char_u32_cast(c, surrogate_pair(hi, lo));
        }
        assert(seq![c] + cs.drop_first() =~= cs);
    } else {
        assert(utf16_encoding(cs) =~= Seq::<u16>::empty());
    }
}

/// The bytes of the UTF-16 units `units`, each written low byte first (`little_endian`) or
/// high byte first.
pub open spec fn utf16_bytes(units: Seq<u16>, little_endian: bool) -> Seq<u8> {
    Seq::new(
        2 * units.len(),
        |i: int|
            if (i % 2 == 0) == little_endian {
                (units[i / 2] % 256) as u8
            } else {
                (units[i / 2] / 256) as u8
            },
    )
}

proof fn lemma_utf16_bytes_units(units: Seq<u16>, little_endian: bool)
    ensures
        utf16_units_spec(utf16_bytes(units, little_endian), little_endian) == units,
{
    let b = utf16_bytes(units, little_endian);
    let back = utf16_units_spec(b, little_endian);
    assert forall|k: int| 0 <= k < units.len() implies back[k] == units[k] by {
        assert((2 * k) / 2 == k && (2 * k + 1) / 2 == k);
        assert((2 * k) % 2 == 0 && (2 * k + 1) % 2 == 1);
        let u = units[k];
        assert(b[2 * k] == if little_endian { (u % 256) as u8 } else { (u / 256) as u8 });
        assert(b[2 * k + 1] == if little_endian { (u / 256) as u8 } else { (u % 256) as u8 });
        assert(u == (u % 256) + (u / 256) * 256);
    }
    assert(back =~= units);
}

/// The first UTF-16 unit of a text that starts with a character other than U+FEFF is not
/// U+FEFF.
proof fn lemma_first_unit_not_bom(cs: Seq<char>)
    requires
        cs.len() > 0,
        cs[0] as u32 != 0xFEFF,
    ensures
        utf16_encoding(cs).len() > 0,
        utf16_encoding(cs)[0] != 0xFEFF,
{
    vstd::utf8::char_is_scalar(cs[0]);
    assert(utf16_encoding(cs) == utf16_units_of(cs[0]) + utf16_encoding(cs.drop_first()));
}

/// The UTF-16 bytes of a text, in either byte order and led by that order's mark, decode back
/// to the text; so do the bytes without the mark, where the text does not start with U+FEFF.
pub proof fn law_utf16_bytes_round_trip(cs: Seq<char>)
    ensures
        decoded_text(
            Encoding::Utf16Le,
            utf16le_bom() + utf16_bytes(utf16_encoding(cs), true),
        ) == Ok::<Seq<char>, DecodeError>(cs),
        decoded_text(
            Encoding::Utf16Be,
            utf16be_bom() + utf16_bytes(utf16_encoding(cs), false),
        ) == Ok::<Seq<char>, DecodeError>(cs),
        (cs.len() == 0 || cs[0] as u32 != 0xFEFF) ==> decoded_text(
            Encoding::Utf16Le,
            utf16_bytes(utf16_encoding(cs), true),
        ) == Ok::<Seq<char>, DecodeError>(cs),
        (cs.len() == 0 || cs[0] as u32 != 0xFEFF) ==> decoded_text(
            Encoding::Utf16Be,
            utf16_bytes(utf16_encoding(cs), false),
        ) == Ok::<Seq<char>, DecodeError>(cs),
{
    let units = utf16_encoding(cs);
    law_utf16_round_trip(cs);
    lemma_utf16_bytes_units(units, true);
    lemma_utf16_bytes_units(units, false);
    let le = utf16_bytes(units, true);
    let be = utf16_bytes(units, false);
    assert((utf16le_bom() + le).take(2) =~= utf16le_bom());
    assert((utf16le_bom() + le).skip(2) =~= le);
    assert((utf16be_bom() + be).take(2) =~= utf16be_bom());
    assert((utf16be_bom() + be).skip(2) =~= be);
    if cs.len() == 0 || cs[0] as u32 != 0xFEFF {
        if cs.len() > 0 {
            lemma_first_unit_not_bom(cs);
            let u = units[0];
            assert(le[0] == (u % 256) as u8 && le[1] == (u / 256) as u8);
            assert(be[0] == (u / 256) as u8 && be[1] == (u % 256) as u8);
            if starts_with_bytes(le, utf16le_bom()) {
                assert(le.take(2)[0] == le[0] && le.take(2)[1] == le[1]);
                assert(u == (u % 256) + (u / 256) * 256);
            }
            if starts_with_bytes(be, utf16be_bom()) {
                assert(be.take(2)[0] == be[0] && be.take(2)[1] == be[1]);
                assert(u == (u % 256) + (u / 256) * 256);
            }
        } else {
            assert(units =~= Seq::<u16>::empty());
        }
    }
}

} // verus!
