//! Byte order of the analysed firmware.

use vstd::prelude::*;
use crate::error::BinbloomError;
use crate::text::same_text;

verus! {

/// Byte order used to decode multi-byte values from the firmware.
#[derive(Clone, Copy, PartialEq, Eq, Debug, Default, Structural)]
pub enum Endianness {
    /// Not determined yet; to be detected from the content.
    #[default]
    Unknown,
    /// Little-endian.
    Little,
    /// Big-endian.
    Big,
}

/// ASCII lower-case mapping of a single character: `'A'..='Z'` become
/// `'a'..='z'`, every other character is kept.
pub open spec fn ascii_lower(c: char) -> char {
    if 'A' <= c && c <= 'Z' {
        ((c as u32) + 32) as char
    } else {
        c
    }
}

/// `str::to_ascii_lowercase`: a copy of `s` with ASCII letters lowered and
/// every other character unchanged, as its documentation states.
#[verifier::external_body]
fn to_ascii_lowercase(s: &str) -> (r: String)
    ensures
        r@ == s@.map_values(|c: char| ascii_lower(c)),
{
    s.to_ascii_lowercase()
}

impl Endianness {
    /// The byte order named by `s`, ignoring ASCII case: `"le"` or `"be"`.
    pub open spec fn parse_result(s: Seq<char>) -> Option<Endianness> {
        let low = s.map_values(|c: char| ascii_lower(c));
        if low == "le"@ {
            Some(Endianness::Little)
        } else if low == "be"@ {
            Some(Endianness::Big)
        } else {
            None
        }
    }

    /// Parse an endianness from its textual form, ignoring ASCII case:
    /// `"le"` is little-endian, `"be"` big-endian. Anything else is rejected,
    /// carrying the lowered text.
    pub fn parse(s: &str) -> (r: Result<Endianness, BinbloomError>)
        ensures
            r is Ok <==> Self::parse_result(s@) is Some,
            r matches Ok(e) ==> Self::parse_result(s@) == Some(e),
            ({
                let low = s@.map_values(|c: char| ascii_lower(c));
                &&& low == "le"@ ==> r == Ok::<Endianness, BinbloomError>(Endianness::Little)
                &&& low == "be"@ ==> r == Ok::<Endianness, BinbloomError>(Endianness::Big)
                &&& low != "le"@ && low != "be"@ ==> (r matches Err(BinbloomError::InvalidEndianness(t))
                    && t@ == low)
            }),
    {
        proof {
            reveal_strlit("le");
            reveal_strlit("be");
            assert("le"@[0] != "be"@[0]);
        }
        let low = to_ascii_lowercase(s);
        if same_text(low.as_str(), "le") {
            Ok(Endianness::Little)
        } else if same_text(low.as_str(), "be") {
            Ok(Endianness::Big)
        } else {
            Err(BinbloomError::InvalidEndianness(low))
        }
    }

    /// Short label, as printed in reports (`"LE"` / `"BE"` / `"unknown"`).
    pub fn label(self) -> (l: &'static str)
        ensures
            self == Endianness::Unknown ==> l@ == "unknown"@,
            self == Endianness::Little ==> l@ == "LE"@,
            self == Endianness::Big ==> l@ == "BE"@,
    {
        match self {
            Endianness::Unknown => "unknown",
            Endianness::Little => "LE",
            Endianness::Big => "BE",
        }
    }
}

} // verus!
