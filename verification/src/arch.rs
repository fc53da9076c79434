//! Pointer width of the analysed firmware.

use vstd::prelude::*;
use crate::error::BinbloomError;
use crate::text::same_text;

verus! {

/// Pointer width of the analysed firmware.
#[derive(Clone, Copy, PartialEq, Eq, Debug, Default, Structural)]
pub enum Arch {
    /// 32-bit architecture (4-byte pointers); the default.
    #[default]
    Bits32,
    /// 64-bit architecture (8-byte pointers).
    Bits64,
}

impl Arch {
    /// Pointer size in bytes, as a mathematical value.
    pub open spec fn spec_pointer_size(self) -> nat {
        match self {
            Arch::Bits32 => 4,
            Arch::Bits64 => 8,
        }
    }

    /// Largest pointer value, as a mathematical value.
    pub open spec fn spec_max_value(self) -> nat {
        match self {
            Arch::Bits32 => 0xffff_ffff,
            Arch::Bits64 => 0xffff_ffff_ffff_ffff,
        }
    }

    /// Pointer size in bytes for this architecture.
    pub fn pointer_size(self) -> (n: usize)
        ensures
            n == self.spec_pointer_size(),
    {
        match self {
            Arch::Bits32 => 4,
            Arch::Bits64 => 8,
        }
    }

    /// Largest representable pointer value for this architecture.
    pub fn max_value(self) -> (m: u64)
        ensures
            m == self.spec_max_value(),
    {
        match self {
            Arch::Bits32 => 0xffff_ffff,
            Arch::Bits64 => 0xffff_ffff_ffff_ffff,
        }
    }

    /// The architecture named by `s`: `"32"` or `"64"`.
    pub open spec fn parse_result(s: Seq<char>) -> Option<Arch> {
        if s == "32"@ {
            Some(Arch::Bits32)
        } else if s == "64"@ {
            Some(Arch::Bits64)
        } else {
            None
        }
    }

    /// Parse an architecture from its textual form (`"32"` or `"64"`).
    pub fn parse(s: &str) -> (r: Result<Arch, BinbloomError>)
        ensures
            r is Ok <==> Self::parse_result(s@) is Some,
            r matches Ok(a) ==> Self::parse_result(s@) == Some(a),
            s@ == "32"@ ==> r == Ok::<Arch, BinbloomError>(Arch::Bits32),
            s@ == "64"@ ==> r == Ok::<Arch, BinbloomError>(Arch::Bits64),
            s@ != "32"@ && s@ != "64"@ ==> (r matches Err(BinbloomError::InvalidArch(t)) && t@ == s@),
    {
        proof {
            reveal_strlit("32");
            reveal_strlit("64");
            assert("32"@[0] != "64"@[0]);
        }
        if same_text(s, "32") {
            Ok(Arch::Bits32)
        } else if same_text(s, "64") {
            Ok(Arch::Bits64)
        } else {
            Err(BinbloomError::InvalidArch(s.to_owned()))
        }
    }
}

} // verus!
