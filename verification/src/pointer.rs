//! Decoding pointer-sized values from firmware bytes.
//!
//! Reads are bounds-checked: bytes past the end of the buffer count as zero.

use vstd::prelude::*;
use crate::addrtree::{extend, span};
use crate::arch::Arch;
use crate::endianness::Endianness;

verus! {

/// Byte `i` of `content`, or zero past its end.
pub open spec fn byte_at(content: Seq<u8>, i: int) -> u8 {
    if 0 <= i < content.len() {
        content[i]
    } else {
        0
    }
}

/// The `n` bytes of `content` starting at `offset`, zero-padded past its end.
pub open spec fn window(content: Seq<u8>, offset: int, n: nat) -> Seq<u8> {
    Seq::new(n, |i: int| byte_at(content, offset + i))
}

/// The value of `n` bytes at `offset`, big-endian or (for any other
/// endianness) little-endian.
pub open spec fn decode(content: Seq<u8>, offset: int, n: nat, endian: Endianness) -> int {
    if endian == Endianness::Big {
        extend(0, window(content, offset, n))
    } else {
        extend(0, window(content, offset, n).reverse())
    }
}

/// Byte `i` (0 = least significant) of a value.
pub open spec fn value_byte(v: u64, i: nat) -> int {
    (v as int / span(i)) % 256
}

/// Whether every byte of `v` over `n` bytes is printable ASCII, `0x20..=0x7e`.
pub open spec fn all_printable(v: u64, n: nat) -> bool {
    forall|i: nat| i < n ==> 0x20 <= #[trigger] value_byte(v, i) <= 0x7e
}

/// Reads pointer-sized values from a byte buffer for a fixed architecture and
/// default endianness.
#[derive(Clone, Copy, Debug)]
pub struct PointerReader {
    arch: Arch,
    endian: Endianness,
}

/// `256^n` for the pointer sizes that occur.
proof fn lemma_span_bound(n: nat)
    requires
        n <= 8,
    ensures
        1 <= span(n) <= 0x1_0000_0000_0000_0000,
        n <= 4 ==> span(n) <= 0x1_0000_0000,
{
    reveal_with_fuel(span, 9);
    assert(span(4) == 0x1_0000_0000);
    assert(span(8) == 0x1_0000_0000_0000_0000);
}

/// Fold the bytes of `w` (in order, most significant first) into a number.
fn fold_bytes(w: &Vec<u8>) -> (v: u64)
    requires
        w@.len() <= 8,
    ensures
        v == extend(0, w@),
{
    let mut v: u64 = 0;
    let mut i: usize = 0;
    proof {
        assert(w@.subrange(0, w@.len() as int) =~= w@);
    }
    while i < w.len()
        invariant
            i <= w@.len(),
            w@.len() <= 8,
            v < span(i as nat),
            extend(0, w@) == extend(v as int, w@.subrange(i as int, w@.len() as int)),
        decreases w@.len() - i,
    {
        proof {
            lemma_span_bound((i + 1) as nat);
            assert(span((i + 1) as nat) == 256 * span(i as nat));
            let r = w@.subrange(i as int, w@.len() as int);
            assert(r.drop_first() =~= w@.subrange(i + 1, w@.len() as int));
            assert(r[0] == w@[i as int]);
            assert(v * 256 + w@[i as int] < 256 * span(i as nat)) by (nonlinear_arith)
                requires
                    v < span(i as nat),
                    w@[i as int] < 256,
            ;
        }
        v = v * 256 + w[i] as u64;
        i = i + 1;
    }
    v
}

impl PointerReader {
    /// The reader's architecture.
    pub closed spec fn spec_arch(&self) -> Arch {
        self.arch
    }

    /// The reader's default endianness.
    pub closed spec fn spec_endian(&self) -> Endianness {
        self.endian
    }

    /// Create a reader for the given architecture and endianness.
    pub fn new(arch: Arch, endian: Endianness) -> (r: PointerReader)
        ensures
            r.spec_arch() == arch,
            r.spec_endian() == endian,
    {
        PointerReader { arch, endian }
    }

    /// Pointer size in bytes.
    pub fn size(&self) -> (n: usize)
        ensures
            n == self.spec_arch().spec_pointer_size(),
    {
        self.arch.pointer_size()
    }

    /// Target architecture.
    pub fn arch(&self) -> (a: Arch)
        ensures
            a == self.spec_arch(),
    {
        self.arch
    }

    /// Read a pointer at `offset` using the reader's own endianness
    /// (`Unknown` reads as little-endian).
    pub fn read(&self, content: &[u8], offset: usize) -> (v: u64)
        requires
            offset + self.spec_arch().spec_pointer_size() <= usize::MAX + 1,
        ensures
            v == decode(content@, offset as int, self.spec_arch().spec_pointer_size(), self.spec_endian()),
    {
        self.read_as(self.endian, content, offset)
    }

    /// Read a pointer at `offset`, interpreting the bytes with `endian`
    /// (big-endian for `Big`, little-endian otherwise). Bytes past the end of
    /// `content` count as zero.
    pub fn read_as(&self, endian: Endianness, content: &[u8], offset: usize) -> (v: u64)
        requires
            offset + self.spec_arch().spec_pointer_size() <= usize::MAX + 1,
        ensures
            v == decode(content@, offset as int, self.spec_arch().spec_pointer_size(), endian),
    {
        let n = self.size();
        let w = match self.arch {
            Arch::Bits32 => Self::four_bytes(content, offset),
            Arch::Bits64 => Self::eight_bytes(content, offset),
        };
        let mut ordered: Vec<u8> = Vec::with_capacity(n);
        let mut i: usize = 0;
        while i < n
            invariant
                n == w@.len(),
                n <= 8,
                i <= n,
                ordered@.len() == i,
                forall|j: int|
                    0 <= j < i ==> #[trigger] ordered@[j] == if endian == Endianness::Big {
                        w@[j]
                    } else {
                        w@[n - 1 - j]
                    },
            decreases n - i,
        {
            match endian {
                Endianness::Big => ordered.push(w[i]),
                _ => ordered.push(w[n - 1 - i]),
            }
            i = i + 1;
        }
        proof {
            let full = window(content@, offset as int, n as nat);
            assert(w@ =~= full);
            if endian == Endianness::Big {
                assert(ordered@ =~= full);
            } else {
                assert(ordered@ =~= full.reverse());
            }
        }
        fold_bytes(&ordered)
    }

    /// Whether every byte of `value` over the pointer width is printable
    /// ASCII (`0x20..=0x7e`), i.e. the value most likely holds text rather
    /// than an address.
    pub fn is_ascii_ptr(&self, value: u64) -> (b: bool)
        ensures
            b == all_printable(value, self.spec_arch().spec_pointer_size()),
    {
        let n = self.size();
        let mut v = value;
        let mut i: usize = 0;
        while i < n
            invariant
                n == self.spec_arch().spec_pointer_size(),
                n <= 8,
                i <= n,
                v as int == value as int / span(i as nat),
                forall|j: nat| j < i ==> 0x20 <= #[trigger] value_byte(value, j) <= 0x7e,
            decreases n - i,
        {
            let byte = (v & 0xff) as u8;
            proof {
                lemma_span_bound(i as nat);
                lemma_span_bound((i + 1) as nat);
                assert(v & 0xff == v % 256) by (bit_vector);
                assert(byte as int == value_byte(value, i as nat));
            }
            if !(0x20 <= byte && byte <= 0x7e) {
                return false;
            }
            proof {
                assert(v >> 8 == v / 256) by (bit_vector);
                assert(span((i + 1) as nat) == 256 * span(i as nat));
                vstd::arithmetic::div_mod::lemma_div_denominator(value as int, span(i as nat), 256);
                assert(span(i as nat) * 256 == span((i + 1) as nat));
            }
            v = v >> 8;
            i = i + 1;
        }
        true
    }

    /// The four bytes at `offset`, zero-padded past the end of `content`.
    fn four_bytes(content: &[u8], offset: usize) -> (w: Vec<u8>)
        requires
            offset + 4 <= usize::MAX + 1,
        ensures
            w@ == window(content@, offset as int, 4),
    {
        Self::padded_window(content, offset, 4)
    }

    /// The eight bytes at `offset`, zero-padded past the end of `content`.
    fn eight_bytes(content: &[u8], offset: usize) -> (w: Vec<u8>)
        requires
            offset + 8 <= usize::MAX + 1,
        ensures
            w@ == window(content@, offset as int, 8),
    {
        Self::padded_window(content, offset, 8)
    }

    /// The `n` bytes at `offset`, zero-padded past the end of `content`.
    fn padded_window(content: &[u8], offset: usize, n: usize) -> (w: Vec<u8>)
        requires
            offset + n <= usize::MAX + 1,
        ensures
            w@ == window(content@, offset as int, n as nat),
    {
        let mut w: Vec<u8> = Vec::with_capacity(n);
        let mut i: usize = 0;
        while i < n
            invariant
                i <= n,
                offset + n <= usize::MAX + 1,
                w@.len() == i,
                forall|j: int| 0 <= j < i ==> #[trigger] w@[j] == byte_at(content@, offset + j),
            decreases n - i,
        {
            let idx = offset + i;
            if idx < content.len() {
                w.push(content[idx]);
            } else {
                w.push(0);
            }
            i = i + 1;
        }
        assert(w@ =~= window(content@, offset as int, n as nat));
        w
    }
}

} // verus!
