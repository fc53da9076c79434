//! Command-line settings of the analyser and the text conversions it
//! needs: numbers given as options and addresses in reports.

use vstd::prelude::*;
use vstd::string::StringExecFns;
use crate::arch::Arch;
use crate::endianness::{Endianness, ascii_lower};
use crate::error::BinbloomError;
use crate::firmware::DEFAULT_ALIGNMENT;
use crate::log::LogLevel;
use crate::numbers::{hex_digits, number_value, parse_radix_chars, push_hex_digits, trim_chars};
use crate::text::chars_of;

verus! {

/// The analyser's command line.
pub struct Cli {
    /// Target architecture: `32` or `64`.
    pub arch: String,
    /// Base address for the UDS search (enables that mode).
    pub base: Option<String>,
    /// Forced endianness: `le` or `be`.
    pub endian: Option<String>,
    /// Base-address alignment (hexadecimal or decimal).
    pub align: Option<String>,
    /// Refine every candidate.
    pub deep: bool,
    /// File of known function addresses.
    pub functions: Option<String>,
    /// Number of refinement workers.
    pub threads: usize,
    /// Require candidate pointers to be naturally aligned.
    pub ptr_aligned: bool,
    /// Verbosity (number of `-v`).
    pub verbose: u8,
    /// Firmware file to analyse (`-` for the standard input).
    pub firmware: String,
}

/// The analysis settings given on the command line.
#[derive(Clone, Copy, Debug)]
pub struct Settings {
    pub arch: Arch,
    pub endian: Endianness,
    pub alignment: u64,
    pub level: LogLevel,
}

/// Why the command line was refused.
#[derive(Debug)]
pub enum SettingsError {
    /// The architecture or the endianness is invalid.
    Invalid(BinbloomError),
    /// The alignment is not a number.
    Alignment,
}

impl Cli {
    /// Format an address as `0x` followed by 8 hexadecimal digits of its low
    /// 32 bits on a 32-bit architecture, or 16 digits on a 64-bit one.
    pub fn hex(value: u64, arch: Arch) -> (s: String)
        ensures
            s@ == "0x"@ + match arch {
                Arch::Bits32 => hex_digits((value % 0x1_0000_0000) as nat, 8),
                Arch::Bits64 => hex_digits(value as nat, 16),
            },
    {
        let mut out = String::from_str("0x");
        match arch {
            Arch::Bits32 => push_hex_digits(&mut out, value % 0x1_0000_0000, 8),
            Arch::Bits64 => push_hex_digits(&mut out, value, 16),
        }
        out
    }

    /// Parse a number written in hexadecimal (`0x` or `0X` prefix) or decimal,
    /// surrounding white space aside.
    pub fn parse_number(s: &str) -> (r: Result<u64, ()>)
        ensures
            r == match number_value(s@) {
                Some(v) => Ok::<u64, ()>(v),
                None => Err(()),
            },
    {
        let chars = chars_of(s);
        let t = trim_chars(chars.as_slice());
        let parsed = if t.len() >= 2 && t[0] == '0' && (t[1] == 'x' || t[1] == 'X') {
            let mut rest: Vec<char> = Vec::new();
            let mut k: usize = 2;
            while k < t.len()
                invariant
                    2 <= k <= t@.len(),
                    rest@ == t@.subrange(2, k as int),
                decreases t@.len() - k,
            {
                rest.push(t[k]);
                k = k + 1;
                proof {
                    assert(rest@ =~= t@.subrange(2, k as int));
                }
            }
            parse_radix_chars(rest.as_slice(), 16)
        } else {
            parse_radix_chars(t.as_slice(), 10)
        };
        match parsed {
            Some(v) => Ok(v),
            None => Err(()),
        }
    }

    /// The architecture option names an architecture.
    pub open spec fn arch_ok(&self) -> bool {
        Arch::parse_result(self.arch@) is Some
    }

    /// The endianness option, when given, names a byte order.
    pub open spec fn endian_ok(&self) -> bool {
        match self.endian {
            Some(e) => Endianness::parse_result(e@) is Some,
            None => true,
        }
    }

    /// The alignment option, when given, is a number.
    pub open spec fn align_ok(&self) -> bool {
        match self.align {
            Some(a) => number_value(a@) is Some,
            None => true,
        }
    }

    /// The settings of the command line, checked in order: the
    /// architecture (see `Arch::parse`), the endianness when given (see
    /// `Endianness::parse`; `Unknown` otherwise), the alignment when given
    /// (see `parse_number`; `DEFAULT_ALIGNMENT` otherwise) and the log
    /// level from the verbosity.
    pub fn settings(&self) -> (r: Result<Settings, SettingsError>)
        ensures
            r matches Ok(s) ==> {
                &&& Arch::parse_result(self.arch@) == Some(s.arch)
                &&& match self.endian {
                    Some(e) => Endianness::parse_result(e@) == Some(s.endian),
                    None => s.endian == Endianness::Unknown,
                }
                &&& match self.align {
                    Some(a) => number_value(a@) == Some(s.alignment),
                    None => s.alignment == DEFAULT_ALIGNMENT,
                }
                &&& s.level.rank() == if 2 + self.verbose >= 4 {
                    4
                } else {
                    2 + self.verbose
                }
            },
            r matches Err(e) ==> match e {
                SettingsError::Invalid(err) => if !self.arch_ok() {
                    err matches BinbloomError::InvalidArch(t) && t@ == self.arch@
                } else {
                    !self.endian_ok() && (err matches BinbloomError::InvalidEndianness(t) && t@
                        == self.endian->0@.map_values(|c: char| ascii_lower(c)))
                },
                SettingsError::Alignment => self.arch_ok() && self.endian_ok() && !self.align_ok(),
            },
            r is Ok <==> self.arch_ok() && self.endian_ok() && self.align_ok(),
    {
        let arch = match Arch::parse(self.arch.as_str()) {
            Ok(a) => a,
            Err(e) => return Err(SettingsError::Invalid(e)),
        };
        let endian = match &self.endian {
            Some(e) => match Endianness::parse(e.as_str()) {
                Ok(v) => v,
                Err(err) => return Err(SettingsError::Invalid(err)),
            },
            None => Endianness::Unknown,
        };
        let alignment = match &self.align {
            Some(a) => match Self::parse_number(a.as_str()) {
                Ok(v) => v,
                Err(()) => return Err(SettingsError::Alignment),
            },
            None => DEFAULT_ALIGNMENT,
        };
        Ok(Settings { arch, endian, alignment, level: LogLevel::from_verbosity(self.verbose) })
    }
}

} // verus!
