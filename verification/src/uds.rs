//! UDS (Unified Diagnostic Services) database identification.
//!
//! Once the base address is known, the request-ID table that automotive ECUs
//! keep as an array of fixed-size structures is looked for:
//!
//! 1. index strings and pointers, then retype each pointer by what it targets;
//! 2. find runs of same-type pointers;
//! 3. detect arrays of structures by spotting pointers repeating at a fixed
//!    stride;
//! 4. scan each structure column for the longest run of distinct, valid UDS
//!    request IDs.

use vstd::prelude::*;
use vstd::string::StringExecFns;
use crate::arch::Arch;
use crate::base_address::{BaseAddressFinder, STR_MIN_SIZE, pointer_at, pointer_pois, symbol_hits, word};
use crate::endianness::Endianness;
use crate::log::Logger;
use crate::memregion::{MemRegion, MemoryMap, RegionType, region_type_at};
use crate::poi::{Poi, PoiList, PoiType, first_at_least, plain_poi, sorted_insert, string_runs};
use crate::pointer::{PointerReader, byte_at};

verus! {

/// Largest number of members a detected structure may have.
pub const MAX_STRUCT_MEMBERS: usize = 12;

/// The decimal digit `d` as a character.
pub open spec fn digit_char(d: nat) -> char {
    (48 + d) as char
}

/// The decimal representation of `n`.
pub open spec fn decimal(n: nat) -> Seq<char>
    decreases n,
{
    if n < 10 {
        seq![digit_char(n)]
    } else {
        decimal(n / 10).push(digit_char(n % 10))
    }
}

/// The text before the field number of the declaration line of a member
/// whose signature entry is `member`.
pub open spec fn member_prefix(member: i32, arch: Arch) -> Seq<char> {
    if member == -1 {
        if arch == Arch::Bits32 {
            "\tuint32_t field_"@
        } else {
            "\tuint64_t field_"@
        }
    } else if member == PoiType::String.code() || member == PoiType::StringPointer.code() {
        "\tchar *psz_field_"@
    } else if member == PoiType::PointerPointer.code() || member == PoiType::StructurePointer.code()
        || member == PoiType::GenericPointer.code() {
        "\tvoid *p_field_"@
    } else if member == PoiType::FunctionPointer.code() {
        "\tcode *p_field_"@
    } else if member == PoiType::DataPointer.code() {
        "\tdata *p_field_"@
    } else if member == PoiType::UninitDataPointer.code() {
        "\tvar *p_field_"@
    } else if arch == Arch::Bits32 {
        "\tuint32_t dw_"@
    } else {
        "\tuint64_t dw_"@
    }
}

/// The declaration lines of the first `k` members of signature `sig`.
pub open spec fn member_lines(sig: Seq<i32>, k: nat, arch: Arch) -> Seq<char>
    decreases k,
{
    if k == 0 {
        seq![]
    } else {
        member_lines(sig, (k - 1) as nat, arch) + member_prefix(sig[k - 1], arch) + decimal(
            (k - 1) as nat,
        ) + ";\n"@
    }
}

/// Number of members a declaration shows: `nb_members` of them (all of
/// the signature when `nb_members` is negative), at most the signature's
/// length.
pub open spec fn shown_members(nb_members: i32, sig_len: nat) -> nat {
    if nb_members < 0 || nb_members >= sig_len {
        sig_len
    } else {
        nb_members as nat
    }
}

/// A located UDS database.
#[derive(Clone, Debug)]
pub struct UdsResult {
    /// Absolute address (base plus offset) of the database.
    pub location: u64,
    /// Number of distinct valid UDS request IDs found.
    pub rid_count: usize,
    /// The structure whose column held the IDs (carries the signature).
    pub structure: Poi,
    /// Target architecture (for formatting the structure declaration).
    pub arch: Arch,
}

/// Append the digit `d` to `out`.
fn push_digit(out: &mut String, d: usize)
    requires
        d < 10,
    ensures
        final(out)@ == old(out)@.push(digit_char(d as nat)),
{
    proof {
        reveal_strlit("0");
        reveal_strlit("1");
        reveal_strlit("2");
        reveal_strlit("3");
        reveal_strlit("4");
        reveal_strlit("5");
        reveal_strlit("6");
        reveal_strlit("7");
        reveal_strlit("8");
        reveal_strlit("9");
    }
    let s = match d {
        0 => "0",
        1 => "1",
        2 => "2",
        3 => "3",
        4 => "4",
        5 => "5",
        6 => "6",
        7 => "7",
        8 => "8",
        _ => "9",
    };
    out.append(s);
    proof {
        assert(old(out)@ + s@ =~= old(out)@.push(digit_char(d as nat)));
    }
}

/// Append the decimal representation of `n` to `out`.
fn push_decimal(out: &mut String, n: usize)
    ensures
        final(out)@ == old(out)@ + decimal(n as nat),
    decreases n,
{
    if n >= 10 {
        push_decimal(out, n / 10);
    }
    push_digit(out, n % 10);
    proof {
        if n >= 10 {
            assert(old(out)@ + decimal((n / 10) as nat) + seq![digit_char((n % 10) as nat)] =~= old(out)@
                + decimal(n as nat));
        } else {
            assert(old(out)@.push(digit_char((n % 10) as nat)) =~= old(out)@ + decimal(n as nat));
        }
    }
}

/// The text before the field number of a member's declaration line.
fn member_text(member: i32, arch: Arch) -> (s: &'static str)
    ensures
        s@ == member_prefix(member, arch),
{
    if member == -1 {
        if arch == Arch::Bits32 {
            "\tuint32_t field_"
        } else {
            "\tuint64_t field_"
        }
    } else if member == PoiType::String.as_signature() || member == PoiType::StringPointer.as_signature() {
        "\tchar *psz_field_"
    } else if member == PoiType::PointerPointer.as_signature() || member
        == PoiType::StructurePointer.as_signature() || member == PoiType::GenericPointer.as_signature() {
        "\tvoid *p_field_"
    } else if member == PoiType::FunctionPointer.as_signature() {
        "\tcode *p_field_"
    } else if member == PoiType::DataPointer.as_signature() {
        "\tdata *p_field_"
    } else if member == PoiType::UninitDataPointer.as_signature() {
        "\tvar *p_field_"
    } else if arch == Arch::Bits32 {
        "\tuint32_t dw_"
    } else {
        "\tuint64_t dw_"
    }
}

impl UdsResult {
    /// Render the identified structure as a C declaration: one line per
    /// member (see `member_prefix`), numbered from zero, between
    /// `struct {` and `}`.
    pub fn structure_declaration(&self) -> (d: String)
        ensures
            d@ == match self.structure.signature {
                None => "struct {\n}\n"@,
                Some(sig) => "struct {\n"@ + member_lines(
                    sig@,
                    shown_members(self.structure.nb_members, sig@.len()),
                    self.arch,
                ) + "}\n"@,
            },
    {
        let signature = match &self.structure.signature {
            Some(sig) => sig,
            None => return String::from_str("struct {\n}\n"),
        };
        let mut out = String::from_str("struct {\n");
        let nb = self.structure.nb_members;
        let members: usize = if nb < 0 || nb as usize >= signature.len() {
            signature.len()
        } else {
            nb as usize
        };
        let ghost head = out@;
        let mut field: usize = 0;
        while field < members
            invariant
                members <= signature@.len(),
                field <= members,
                out@ == head + member_lines(signature@, field as nat, self.arch),
            decreases members - field,
        {
            out.append(member_text(signature[field], self.arch));
            push_decimal(&mut out, field);
            out.append(";\n");
            proof {
                assert(out@ =~= head + member_lines(signature@, (field + 1) as nat, self.arch));
            }
            field = field + 1;
        }
        out.append("}\n");
        out
    }
}

/// Every POI of `items` starts at least `n` bytes before `limit`.
pub open spec fn offsets_within(items: Seq<Poi>, n: nat, limit: nat) -> bool {
    forall|i: int| 0 <= i < items.len() ==> #[trigger] items[i].offset + n <= limit
}

/// Some string of `strings` sits at `v - base`.
pub open spec fn string_hit(strings: Seq<Poi>, v: u64, base: u64) -> bool {
    exists|k: int|
        0 <= k < strings.len() && v == vstd::wrapping::u64_specs::wrapping_add(
            #[trigger] strings[k].offset,
            base,
        )
}

/// The symbol hits at `cursor` are POIs at `cursor`.
proof fn lemma_symbol_hits_at(syms: Seq<Poi>, value: u64, base: u64, cursor: int)
    ensures
        forall|k: int|
            0 <= k < symbol_hits(syms, value, base, cursor).len() ==> #[trigger] symbol_hits(
                syms,
                value,
                base,
                cursor,
            )[k].offset == cursor as u64,
    decreases syms.len(),
{
    if syms.len() > 0 {
        lemma_symbol_hits_at(syms.drop_first(), value, base, cursor);
    }
}

/// The pointer POIs found from `cursor` on sit at offsets in
/// `[cursor, end)`.
proof fn lemma_pointer_offsets(
    content: Seq<u8>,
    n: nat,
    endian: Endianness,
    regions: Seq<MemRegion>,
    symbols: Option<Seq<Poi>>,
    base: u64,
    cursor: int,
    end: int,
)
    requires
        0 <= cursor,
        end <= u64::MAX,
    ensures
        forall|k: int|
            0 <= k < pointer_pois(content, n, endian, regions, symbols, base, cursor, end).len() ==> {
                let o = #[trigger] pointer_pois(content, n, endian, regions, symbols, base, cursor, end)[k].offset;
                cursor <= o < end
            },
    decreases end + n - cursor,
{
    if cursor < end && n != 0 {
        lemma_pointer_offsets(content, n, endian, regions, symbols, base, cursor + n, end);
        let here = pointer_at(content, n, endian, regions, symbols, base, cursor);
        let rest = pointer_pois(content, n, endian, regions, symbols, base, cursor + n, end);
        match symbols {
            Some(syms) => {
                lemma_symbol_hits_at(syms, word(content, n, endian, cursor), base, cursor);
            },
            None => {},
        }
        assert forall|k: int| 0 <= k < here.len() implies #[trigger] here[k].offset == cursor as u64 by {}
        assert forall|k: int| 0 <= k < (here + rest).len() implies {
            let o = #[trigger] (here + rest)[k].offset;
            cursor <= o < end
        } by {
            if k >= here.len() {
                assert((here + rest)[k] == rest[k - here.len()]);
            }
        }
    }
}

/// The `ArrayPointer` POIs for the runs of more than four pointers of
/// `items[i..]` of one kind at consecutive word offsets (`n` bytes apart),
/// given the run in progress. The POI that breaks a run starts none, and a
/// run still open at the end is not recorded.
pub open spec fn pointer_runs(
    items: Seq<Poi>,
    n: nat,
    i: int,
    in_array: bool,
    count: i32,
    start: u64,
    last: u64,
    ty: PoiType,
) -> Seq<Poi>
    decreases items.len() - i,
{
    if i < 0 || i >= items.len() {
        seq![]
    } else {
        let p = items[i];
        if !in_array {
            pointer_runs(items, n, i + 1, true, 1, p.offset, p.offset, p.poi_type)
        } else if p.offset != last + n || p.poi_type != ty {
            (if count > 4 {
                seq![plain_poi(start, count, PoiType::ArrayPointer)]
            } else {
                seq![]
            }) + pointer_runs(items, n, i + 1, false, count, start, last, ty)
        } else {
            pointer_runs(items, n, i + 1, true, (count + 1) as i32, start, p.offset, ty)
        }
    }
}

/// The list after inserting each POI of `ps` in turn (see `sorted_insert`).
pub open spec fn sorted_merge(items: Seq<Poi>, ps: Seq<Poi>) -> Seq<Poi>
    decreases ps.len(),
{
    if ps.len() == 0 {
        items
    } else {
        sorted_insert(sorted_merge(items, ps.drop_last()), ps.last())
    }
}

/// The insertion point is within the list.
proof fn lemma_first_at_least_range(items: Seq<Poi>, offset: u64)
    ensures
        0 <= first_at_least(items, offset) <= items.len(),
    decreases items.len(),
{
    if items.len() > 0 {
        lemma_first_at_least_range(items.drop_first(), offset);
    }
}

/// Sorted insertion keeps every offset within `limit`.
proof fn lemma_merge_within(items: Seq<Poi>, ps: Seq<Poi>, n: nat, limit: nat)
    requires
        offsets_within(items, n, limit),
        offsets_within(ps, n, limit),
    ensures
        offsets_within(sorted_merge(items, ps), n, limit),
    decreases ps.len(),
{
    if ps.len() > 0 {
        lemma_merge_within(items, ps.drop_last(), n, limit);
        let prev = sorted_merge(items, ps.drop_last());
        lemma_first_at_least_range(prev, ps.last().offset);
        assert(ps.last() == ps[ps.len() - 1]);
        let r = sorted_merge(items, ps);
        assert forall|i: int| 0 <= i < r.len() implies #[trigger] r[i].offset + n <= limit by {
            let at = first_at_least(prev, ps.last().offset);
            if !(at < prev.len() && prev[at].offset == ps.last().offset) {
                if i < at {
                    assert(r[i] == prev[i]);
                } else if i > at {
                    assert(r[i] == prev[i - 1]);
                }
            }
        }
    }
}

/// The entry a member's word gets from the pointer list: `PointerPointer`
/// for the first POI at `value - base` that is a pointer, or the kind of
/// the first POI at the member itself, whichever comes first.
pub open spec fn pointer_member(items: Seq<Poi>, value: u64, member_off: u64, base: u64) -> Option<i32>
    decreases items.len(),
{
    if items.len() == 0 {
        None
    } else {
        let it = items[0];
        if vstd::wrapping::u64_specs::wrapping_add(it.offset, base) == value {
            if it.poi_type.code() >= 5 {
                Some(PoiType::PointerPointer.code())
            } else {
                pointer_member(items.drop_first(), value, member_off, base)
            }
        } else if it.offset == member_off {
            Some(it.poi_type.code())
        } else {
            pointer_member(items.drop_first(), value, member_off, base)
        }
    }
}

/// The kind of the first string at `value - base`.
pub open spec fn string_member(strings: Seq<Poi>, value: u64, base: u64) -> Option<i32>
    decreases strings.len(),
{
    if strings.len() == 0 {
        None
    } else if vstd::wrapping::u64_specs::wrapping_add(strings[0].offset, base) == value {
        Some(strings[0].poi_type.code())
    } else {
        string_member(strings.drop_first(), value, base)
    }
}

/// The signature entry of a member holding `value` at `member_off`: from
/// the pointer list, else from the strings, else `NullPtrOrValue` for a
/// null or all-ones value and `Unknown` otherwise.
pub open spec fn member_kind(
    pointers: Seq<Poi>,
    strings: Seq<Poi>,
    value: u64,
    member_off: u64,
    base: u64,
) -> i32 {
    match pointer_member(pointers, value, member_off, base) {
        Some(c) => c,
        None => match string_member(strings, value, base) {
            Some(c) => c,
            None => if value == 0 || value == 0xffff_ffff || value == 0xffff_ffff_ffff_ffff {
                PoiType::NullPtrOrValue.code()
            } else {
                PoiType::Unknown.code()
            },
        },
    }
}

/// The first count that the index of `results[..k]` with the largest entry
/// reaches, with that index plus one: `(-1, -1)` for `k == 0`, the earliest
/// index winning ties.
pub open spec fn best_members(results: Seq<i32>, k: int) -> (i32, i32)
    decreases k,
{
    if k <= 0 {
        (-1i32, -1i32)
    } else {
        let b = best_members(results, k - 1);
        if results[k - 1] > b.0 {
            (results[k - 1], k as i32)
        } else {
            b
        }
    }
}

/// Starting with the `count`-th, the number of consecutive structures of
/// `stride` bytes from `p` whose first word (below `limit`) holds a pointer
/// POI of `items` of the kind of `p`.
pub open spec fn run_at(items: Seq<Poi>, p: Poi, stride: nat, limit: int, count: nat) -> nat
    decreases limit + 1 - count,
{
    let cursor = p.offset + count * stride;
    if stride == 0 || cursor >= limit {
        count
    } else if exists|q: int|
        0 <= q < items.len() && #[trigger] items[q].offset == cursor && items[q].poi_type
            == p.poi_type {
        proof {
            assert(count * stride >= count) by (nonlinear_arith)
                requires
                    stride >= 1,
            ;
        }
        run_at(items, p, stride, limit, count + 1)
    } else {
        count
    }
}

/// The best entry is one of the entries.
proof fn lemma_best_members(results: Seq<i32>, k: int)
    requires
        0 <= k <= results.len(),
        k <= i32::MAX,
    ensures
        ({
            let b = best_members(results, k);
            b.0 == -1 && b.1 == -1 || 1 <= b.1 <= k && b.0 == results[b.1 - 1]
        }),
    decreases k,
{
    if k > 0 {
        lemma_best_members(results, k - 1);
    }
}

/// The best run after considering a run of `count` IDs starting at
/// structure `start` of column `column` of structure array `si`: it
/// replaces the best so far when strictly longer (or the first non-empty
/// one).
pub open spec fn consider(
    best: Option<(u64, nat, nat, int)>,
    column: u64,
    count: nat,
    start: nat,
    si: int,
) -> Option<(u64, nat, nat, int)> {
    match best {
        Some(b) => if count > b.1 {
            Some((column, count, start, si))
        } else {
            best
        },
        None => if count > 0 {
            Some((column, count, start, si))
        } else {
            None
        },
    }
}

/// The best run record as mathematical integers.
pub open spec fn lift(best: Option<(u64, usize, usize, usize)>) -> Option<(u64, nat, nat, int)> {
    match best {
        Some(b) => Some((b.0, b.1 as nat, b.2 as nat, b.3 as int)),
        None => None,
    }
}

/// A detected array of structures: offset, number of structures, number of
/// members and member signature.
pub struct StructureModel {
    pub offset: u64,
    pub count: i32,
    pub nb_members: i32,
    pub signature: Seq<i32>,
}

/// `p` is the structure-array POI described by `m`.
pub open spec fn poi_is(p: Poi, m: StructureModel) -> bool {
    &&& p.offset == m.offset
    &&& p.count == m.count
    &&& p.nb_members == m.nb_members
    &&& p.poi_type == PoiType::StructurePointer
    &&& p.signature matches Some(s) && s@ == m.signature
}

/// `items` are the structure-array POIs described by `ms`.
pub open spec fn pois_are(items: Seq<Poi>, ms: Seq<StructureModel>) -> bool {
    &&& items.len() == ms.len()
    &&& forall|i: int| 0 <= i < items.len() ==> poi_is(#[trigger] items[i], ms[i])
}

/// Every structure of `ms` has two to twelve members of `n` bytes and a
/// positive count, and its last structure starts below `limit`.
pub open spec fn structures_ok(ms: Seq<StructureModel>, n: nat, limit: nat) -> bool {
    forall|i: int|
        0 <= i < ms.len() ==> {
            &&& 2 <= #[trigger] ms[i].nb_members <= MAX_STRUCT_MEMBERS
            &&& 1 <= ms[i].count
            &&& ms[i].offset + (ms[i].count - 1) * (ms[i].nb_members * n) < limit
        }
}

/// Finds a UDS database in a firmware image given a known base address.
pub struct UdsFinder<'a> {
    content: &'a [u8],
    reader: PointerReader,
    arch: Arch,
    endian: Endianness,
    memory: &'a MemoryMap,
    logger: Logger,
    symbols: Option<&'a PoiList>,
}

/// What a UDS search works on: the image, how it is read, its memory map
/// and the known symbols.
pub struct UdsSetup {
    pub content: Seq<u8>,
    pub arch: Arch,
    pub endian: Endianness,
    pub regions: Seq<MemRegion>,
    pub symbols: Option<Seq<Poi>>,
}

impl UdsSetup {
    /// The firmware bytes.
    pub open spec fn spec_content(&self) -> Seq<u8> {
        self.content
    }

    /// The target architecture.
    pub open spec fn spec_arch(&self) -> Arch {
        self.arch
    }

    /// The byte order words are read with.
    pub open spec fn spec_endian(&self) -> Endianness {
        self.endian
    }

    /// The classified memory regions.
    pub open spec fn spec_regions(&self) -> Seq<MemRegion> {
        self.regions
    }

    /// The known symbols, if any.
    pub open spec fn spec_symbols(&self) -> Option<Seq<Poi>> {
        self.symbols
    }

    /// Pointer size in bytes.
    pub open spec fn psize(&self) -> nat {
        self.arch.spec_pointer_size()
    }

    /// The word at `off`.
    pub open spec fn word_at(&self, off: int) -> u64 {
        word(self.content, self.psize(), self.endian, off)
    }


    /// The plausible pointers for `base` (see `pointer_pois`).
    pub open spec fn pointers_for(&self, base: u64) -> Seq<Poi> {
        pointer_pois(
            self.spec_content(),
            self.psize(),
            self.spec_endian(),
            self.spec_regions(),
            self.spec_symbols(),
            base,
            0,
            self.spec_content().len() - self.psize(),
        )
    }


    /// `p` retyped as a string pointer when its word points at a string.
    pub open spec fn string_retyped(&self, p: Poi, strings: Seq<Poi>, base: u64) -> Poi {
        if string_hit(strings, self.word_at(p.offset as int), base) {
            Poi { poi_type: PoiType::StringPointer, ..p }
        } else {
            p
        }
    }


    /// The signature of the structure of `nb_members` members at `offset`:
    /// one `member_kind` per member word.
    pub open spec fn signature_at(
        &self,
        pointers: Seq<Poi>,
        strings: Seq<Poi>,
        base: u64,
        offset: u64,
        nb_members: nat,
    ) -> Seq<i32> {
        Seq::new(
            nb_members,
            |i: int|
                member_kind(
                    pointers,
                    strings,
                    self.word_at(offset + i * self.psize()),
                    (offset + i * self.psize()) as u64,
                    base,
                ),
        )
    }


    /// Below this offset no structure array starts: the last pointer-sized
    /// word of the image.
    pub open spec fn scan_limit(&self) -> int {
        if self.spec_content().len() >= self.psize() {
            self.spec_content().len() - self.psize()
        } else {
            0
        }
    }


    /// The structure runs from `p` for every member count `1..=12` (none
    /// for a single member).
    pub open spec fn member_runs(&self, items: Seq<Poi>, p: Poi) -> Seq<i32> {
        Seq::new(
            MAX_STRUCT_MEMBERS as nat,
            |j: int|
                if j == 0 {
                    0i32
                } else {
                    run_at(items, p, ((j + 1) * self.psize()) as nat, self.scan_limit(), 0) as i32
                },
        )
    }


    /// The structure arrays found scanning `items[i..]` in order: a POI at
    /// or past `min_offset` whose longest run (earliest member count on
    /// ties) has more than three structures of at least two members starts
    /// one (unless one already starts there), and no structure array is
    /// looked for inside it.
    pub open spec fn structure_scan(
        &self,
        items: Seq<Poi>,
        strings: Seq<Poi>,
        base: u64,
        i: int,
        min_offset: int,
        acc: Seq<StructureModel>,
    ) -> Seq<StructureModel>
        decreases items.len() - i,
    {
        if i < 0 || i >= items.len() {
            acc
        } else {
            let p = items[i];
            if p.offset < min_offset {
                self.structure_scan(items, strings, base, i + 1, min_offset, acc)
            } else {
                let b = best_members(self.member_runs(items, p), MAX_STRUCT_MEMBERS as int);
                if b.0 > 3 && b.1 >= 2 {
                    let m = StructureModel {
                        offset: p.offset,
                        count: b.0,
                        nb_members: b.1,
                        signature: self.signature_at(items, strings, base, p.offset, b.1 as nat),
                    };
                    let acc2 = if exists|k: int| 0 <= k < acc.len() && #[trigger] acc[k].offset == p.offset {
                        acc
                    } else {
                        acc.push(m)
                    };
                    self.structure_scan(items, strings, base, i + 1, p.offset + b.0 * (b.1 * self.psize()), acc2)
                } else {
                    self.structure_scan(items, strings, base, i + 1, min_offset, acc)
                }
            }
        }
    }


    /// The byte of column `column` of structure `k` of the array `st`.
    pub open spec fn rid_at(&self, st: StructureModel, k: int, column: int) -> u8 {
        byte_at(self.spec_content(), st.offset + k * (st.nb_members * self.psize()) + column)
    }


    /// The best run after scanning column `column` of the array `st` (index
    /// `si`) from structure `k` on, given the run in progress: a run of
    /// distinct valid IDs ends at an invalid or repeated one and is then
    /// considered; a run still open at the end of the column is not.
    pub open spec fn column_best(
        &self,
        st: StructureModel,
        si: int,
        column: u64,
        k: int,
        seen: Set<u8>,
        count: nat,
        start: nat,
        in_seq: bool,
        best: Option<(u64, nat, nat, int)>,
    ) -> Option<(u64, nat, nat, int)>
        decreases st.count - k,
    {
        if k < 0 || k >= st.count {
            best
        } else {
            let b = self.rid_at(st, k, column as int);
            if valid_rid(b) {
                if !in_seq {
                    self.column_best(st, si, column, k + 1, Set::empty().insert(b), 1, k as nat, true, best)
                } else if !seen.contains(b) {
                    self.column_best(st, si, column, k + 1, seen.insert(b), count + 1, start, true, best)
                } else {
                    self.column_best(
                        st,
                        si,
                        column,
                        k + 1,
                        seen,
                        count,
                        start,
                        false,
                        consider(best, column, count, start, si),
                    )
                }
            } else {
                self.column_best(
                    st,
                    si,
                    column,
                    k + 1,
                    seen,
                    count,
                    start,
                    false,
                    consider(best, column, count, start, si),
                )
            }
        }
    }


    /// The best run after scanning the byte columns `column..` of the array
    /// `st` (one per byte of a structure).
    pub open spec fn array_best(
        &self,
        st: StructureModel,
        si: int,
        column: int,
        best: Option<(u64, nat, nat, int)>,
    ) -> Option<(u64, nat, nat, int)>
        decreases st.nb_members * self.psize() - column,
    {
        if column < 0 || column >= st.nb_members * self.psize() {
            best
        } else {
            self.array_best(
                st,
                si,
                column + 1,
                self.column_best(st, si, column as u64, 0, Set::empty(), 0, 0, false, best),
            )
        }
    }


    /// The best run over the first `i` structure arrays of `ms`.
    pub open spec fn uds_best(&self, ms: Seq<StructureModel>, i: int) -> Option<(u64, nat, nat, int)>
        decreases i,
    {
        if i <= 0 {
            None
        } else {
            self.array_best(ms[i - 1], i - 1, 0, self.uds_best(ms, i - 1))
        }
    }


    /// The best run is a run of valid IDs of one of the first `i` arrays.
    pub open spec fn best_ok(&self, ms: Seq<StructureModel>, i: int, best: Option<(u64, nat, nat, int)>) -> bool {
        best matches Some(b) ==> {
            &&& 0 <= b.3 < i
            &&& b.0 < ms[b.3].nb_members * self.psize()
            &&& b.2 < ms[b.3].count
            &&& b.1 > 0
            &&& valid_rid(self.rid_at(ms[b.3], b.2 as int, b.0 as int))
        }
    }


    /// The strings of the image.
    pub open spec fn uds_strings(&self) -> Seq<Poi> {
        string_runs(self.spec_content(), STR_MIN_SIZE as int, 0, None)
    }


    /// The plausible pointers for `base`, retyped by what they point at:
    /// strings first, then memory regions.
    pub open spec fn typed_pointers(&self, base: u64) -> Seq<Poi> {
        self.pointers_for(base).map_values(|p: Poi| self.string_retyped(p, self.uds_strings(), base)).map_values(
            |p: Poi| self.region_retyped(p, base),
        )
    }


    /// The typed pointers and their runs, merged into one list sorted by
    /// offset without repeats.
    pub open spec fn sorted_pointers(&self, base: u64) -> Seq<Poi> {
        let ptrs = self.typed_pointers(base);
        sorted_merge(
            sorted_merge(seq![], ptrs),
            pointer_runs(ptrs, self.psize(), 0, false, 0, 0, 0, PoiType::Unknown),
        )
    }


    /// The structure arrays found for `base`.
    pub open spec fn uds_structures(&self, base: u64) -> Seq<StructureModel> {
        self.structure_scan(self.sorted_pointers(base), self.uds_strings(), base, 0, 0, seq![])
    }


    /// The longest run of distinct valid request IDs for `base`, as column,
    /// length, first structure and structure-array index.
    pub open spec fn uds_choice(&self, base: u64) -> Option<(u64, nat, nat, int)> {
        let ms = self.uds_structures(base);
        self.uds_best(ms, ms.len() as int)
    }

    /// The `count` IDs of column `column` of the array `m` from structure
    /// `start` on are all valid and pairwise distinct.
    pub open spec fn distinct_run(&self, m: StructureModel, column: u64, start: int, count: int) -> bool {
        &&& 0 <= start
        &&& start + count <= m.count
        &&& forall|j: int| 0 <= j < count ==> valid_rid(#[trigger] self.rid_at(m, start + j, column as int))
        &&& forall|j1: int, j2: int|
            0 <= j1 < j2 < count ==> #[trigger] self.rid_at(m, start + j1, column as int) != #[trigger] self.rid_at(
                m,
                start + j2,
                column as int,
            )
    }

    /// A run record names a non-empty run of distinct valid IDs of one of
    /// the arrays `ms`.
    pub open spec fn run_ok(&self, ms: Seq<StructureModel>, best: Option<(u64, nat, nat, int)>) -> bool {
        best matches Some(b) ==> {
            &&& 0 <= b.3 < ms.len()
            &&& b.1 >= 1
            &&& self.distinct_run(ms[b.3], b.0, b.2 as int, b.1 as int)
        }
    }

    /// Scanning a column only ever records runs of distinct valid IDs.
    proof fn lemma_column_best_distinct(
        &self,
        ms: Seq<StructureModel>,
        st: StructureModel,
        si: int,
        column: u64,
        k: int,
        seen: Set<u8>,
        count: nat,
        start: nat,
        in_seq: bool,
        best: Option<(u64, nat, nat, int)>,
    )
        requires
            0 <= si < ms.len(),
            st == ms[si],
            0 <= k,
            self.run_ok(ms, best),
            count == 0 || (start + count <= k && self.distinct_run(st, column, start as int, count as int)),
            in_seq ==> count >= 1 && start + count == k && forall|x: u8|
                #[trigger] seen.contains(x) <==> exists|j: int|
                    0 <= j < count && #[trigger] self.rid_at(st, start + j, column as int) == x,
        ensures
            self.run_ok(ms, self.column_best(st, si, column, k, seen, count, start, in_seq, best)),
        decreases st.count - k,
    {
        if k < st.count {
            let b = self.rid_at(st, k, column as int);
            let moved = consider(best, column, count, start, si);
            if valid_rid(b) {
                if !in_seq {
                    let s1 = Set::<u8>::empty().insert(b);
                    assert forall|x: u8| #[trigger] s1.contains(x) <==> exists|j: int|
                        0 <= j < 1 && #[trigger] self.rid_at(st, k + j, column as int) == x by {
                        if s1.contains(x) {
                            assert(self.rid_at(st, k + 0, column as int) == x);
                        }
                    }
                    assert(self.rid_at(st, k + 0, column as int) == b);
                    self.lemma_column_best_distinct(ms, st, si, column, k + 1, s1, 1, k as nat, true, best);
                } else if !seen.contains(b) {
                    let s1 = seen.insert(b);
                    let c1 = (count + 1) as nat;
                    assert(self.rid_at(st, (start + count) as int, column as int) == b);
                    assert forall|j: int| 0 <= j < c1 implies valid_rid(#[trigger] self.rid_at(st, start + j, column as int)) by {}
                    assert forall|j1: int, j2: int|
                        0 <= j1 < j2 < c1 implies #[trigger] self.rid_at(st, start + j1, column as int) != #[trigger] self.rid_at(
                        st,
                        start + j2,
                        column as int,
                    ) by {
                        if j2 == count {
                            if self.rid_at(st, start + j1, column as int) == b {
                                assert(seen.contains(b));
                            }
                        }
                    }
                    assert forall|x: u8| #[trigger] s1.contains(x) <==> exists|j: int|
                        0 <= j < c1 && #[trigger] self.rid_at(st, start + j, column as int) == x by {
                        if s1.contains(x) && x != b {
                            assert(seen.contains(x));
                        }
                        if exists|j: int| 0 <= j < c1 && #[trigger] self.rid_at(st, start + j, column as int) == x {
                            let j = choose|j: int| 0 <= j < c1 && #[trigger] self.rid_at(st, start + j, column as int) == x;
                            if j < count {
                                assert(seen.contains(x));
                            }
                        }
                    }
                    self.lemma_column_best_distinct(ms, st, si, column, k + 1, s1, c1, start, true, best);
                } else {
                    self.lemma_column_best_distinct(ms, st, si, column, k + 1, seen, count, start, false, moved);
                }
            } else {
                self.lemma_column_best_distinct(ms, st, si, column, k + 1, seen, count, start, false, moved);
            }
        }
    }

    /// Scanning the columns of an array only ever records runs of distinct
    /// valid IDs.
    proof fn lemma_array_best_distinct(
        &self,
        ms: Seq<StructureModel>,
        si: int,
        column: int,
        best: Option<(u64, nat, nat, int)>,
    )
        requires
            0 <= si < ms.len(),
            0 <= column,
            self.run_ok(ms, best),
        ensures
            self.run_ok(ms, self.array_best(ms[si], si, column, best)),
        decreases ms[si].nb_members * self.psize() - column,
    {
        if column < ms[si].nb_members * self.psize() {
            self.lemma_column_best_distinct(ms, ms[si], si, column as u64, 0, Set::empty(), 0, 0, false, best);
            self.lemma_array_best_distinct(
                ms,
                si,
                column + 1,
                self.column_best(ms[si], si, column as u64, 0, Set::empty(), 0, 0, false, best),
            );
        }
    }

    /// The longest run the UDS search picks for `base` is made of valid
    /// request IDs that are pairwise distinct: reading its column from its
    /// first structure on, no ID repeats within the run.
    pub proof fn lemma_uds_choice_distinct(&self, base: u64)
        ensures
            self.uds_choice(base) matches Some(b) ==> {
                let m = self.uds_structures(base)[b.3];
                &&& 0 <= b.3 < self.uds_structures(base).len()
                &&& b.1 >= 1
                &&& b.2 + b.1 <= m.count
                &&& forall|j: int| 0 <= j < b.1 ==> valid_rid(#[trigger] self.rid_at(m, b.2 + j, b.0 as int))
                &&& forall|j1: int, j2: int|
                    0 <= j1 < j2 < b.1 ==> #[trigger] self.rid_at(m, b.2 + j1, b.0 as int) != #[trigger] self.rid_at(
                        m,
                        b.2 + j2,
                        b.0 as int,
                    )
            },
    {
        let ms = self.uds_structures(base);
        self.lemma_uds_best_distinct(ms, ms.len() as int);
    }

    /// The IDs a search result reports: `rid_count` bytes of the image, one
    /// structure apart, from the reported location (taken back to an offset
    /// by `base`) on, all valid and pairwise distinct.
    pub open spec fn reported_ids_distinct(&self, base: u64, u: UdsResult) -> bool {
        let stride = u.structure.nb_members * self.psize();
        let at = |j: int| byte_at(self.spec_content(), u.location - base + j * stride);
        &&& u.rid_count >= 1
        &&& forall|j: int| 0 <= j < u.rid_count ==> valid_rid(#[trigger] at(j))
        &&& forall|j1: int, j2: int| 0 <= j1 < j2 < u.rid_count ==> #[trigger] at(j1) != #[trigger] at(j2)
    }

    /// Every database a search reports is a run of valid, pairwise distinct
    /// request IDs read at the reported location.
    pub proof fn lemma_reports_distinct(&self, base: u64, r: Option<UdsResult>)
        requires
            self.reports(base, r),
        ensures
            r matches Some(u) ==> self.reported_ids_distinct(base, u),
    {
        if let Some(u) = r {
            self.lemma_uds_choice_distinct(base);
            let b = self.uds_choice(base)->0;
            let m = self.uds_structures(base)[b.3];
            let stride = u.structure.nb_members * self.psize();
            assert(stride == m.nb_members * self.psize());
            assert forall|j: int| 0 <= j < u.rid_count implies #[trigger] byte_at(
                self.spec_content(),
                u.location - base + j * stride,
            ) == self.rid_at(m, b.2 + j, b.0 as int) by {
                assert((b.2 + j) * stride == b.2 * stride + j * stride) by (nonlinear_arith);
            }
            let at = |j: int| byte_at(self.spec_content(), u.location - base + j * stride);
            assert forall|j: int| 0 <= j < u.rid_count implies valid_rid(#[trigger] at(j)) by {
                assert(at(j) == self.rid_at(m, b.2 + j, b.0 as int));
            }
            assert forall|j1: int, j2: int| 0 <= j1 < j2 < u.rid_count implies #[trigger] at(j1) != #[trigger] at(j2) by {
                assert(at(j1) == self.rid_at(m, b.2 + j1, b.0 as int));
                assert(at(j2) == self.rid_at(m, b.2 + j2, b.0 as int));
            }
        }
    }

    /// The best run over the first `i` arrays is a run of distinct valid IDs.
    proof fn lemma_uds_best_distinct(&self, ms: Seq<StructureModel>, i: int)
        requires
            i <= ms.len(),
        ensures
            self.run_ok(ms, self.uds_best(ms, i)),
        decreases i,
    {
        if i > 0 {
            self.lemma_uds_best_distinct(ms, i - 1);
            self.lemma_array_best_distinct(ms, i - 1, 0, self.uds_best(ms, i - 1));
        }
    }

    /// The run chosen for `base`, if any, has its location (`base` plus its
    /// offset in the image) within 64 bits.
    pub open spec fn location_fits(&self, base: u64) -> bool {
        match self.uds_choice(base) {
            Some(b) => {
                let m = self.uds_structures(base)[b.3];
                m.offset + base + b.0 + b.2 * (m.nb_members * self.psize()) <= u64::MAX
            },
            None => true,
        }
    }

    /// `r` is the outcome of a search for `base`: nothing when no run was
    /// found, otherwise the longest run (see `uds_choice`), located at `base`
    /// plus its offset in the image, with its structure array.
    pub open spec fn reports(&self, base: u64, r: Option<UdsResult>) -> bool {
        &&& r is None <==> self.uds_choice(base) is None
        &&& r matches Some(u) ==> {
            let b = self.uds_choice(base)->0;
            let m = self.uds_structures(base)[b.3];
            &&& u.location == m.offset + base + b.0 + b.2 * (m.nb_members * self.psize())
            &&& u.rid_count == b.1
            &&& poi_is(u.structure, m)
            &&& u.arch == self.arch
        }
    }


    /// `p` retyped by the region its word points into (`base` taken off),
    /// when it is a pointer.
    pub open spec fn region_retyped(&self, p: Poi, base: u64) -> Poi {
        if p.poi_type.code() >= 5 {
            match region_type_at(
                self.spec_regions(),
                vstd::wrapping::u64_specs::wrapping_sub(self.word_at(p.offset as int), base),
            ) {
                RegionType::Code => Poi { poi_type: PoiType::FunctionPointer, ..p },
                RegionType::InitData => Poi { poi_type: PoiType::DataPointer, ..p },
                RegionType::UninitData => Poi { poi_type: PoiType::UninitDataPointer, ..p },
                RegionType::Unknown => p,
            }
        } else {
            p
        }
    }
}

impl<'a> UdsFinder<'a> {
    #[verifier::type_invariant]
    spec fn consistent(self) -> bool {
        &&& self.reader.spec_arch() == self.arch
        &&& self.reader.spec_endian() == self.endian
        &&& self.content@.len() <= isize::MAX
        &&& self.content@.len() < 0x2_0000_0000
    }

    /// The search this finder runs.
    pub closed spec fn setup(&self) -> UdsSetup {
        UdsSetup {
            content: self.content@,
            arch: self.arch,
            endian: self.endian,
            regions: self.memory@,
            symbols: match self.symbols {
                Some(s) => Some(s@),
                None => None,
            },
        }
    }

    /// The firmware bytes.
    pub open spec fn spec_content(&self) -> Seq<u8> {
        self.setup().content
    }

    /// The target architecture.
    pub open spec fn spec_arch(&self) -> Arch {
        self.setup().arch
    }

    /// The byte order words are read with.
    pub open spec fn spec_endian(&self) -> Endianness {
        self.setup().endian
    }

    /// The classified memory regions.
    pub open spec fn spec_regions(&self) -> Seq<MemRegion> {
        self.setup().regions
    }

    /// The known symbols, if any.
    pub open spec fn spec_symbols(&self) -> Option<Seq<Poi>> {
        self.setup().symbols
    }

    /// Pointer size in bytes.
    pub open spec fn psize(&self) -> nat {
        self.setup().psize()
    }

    /// The word at `off`.
    pub open spec fn word_at(&self, off: int) -> u64 {
        self.setup().word_at(off)
    }

    /// Create a finder. A symbol list, when given, decides which words are
    /// function pointers (see `pointer_at`). The image must be under
    /// `2^33` bytes: below that no run of consecutive pointers (one word
    /// apart, counted in 32 bits) can outgrow `i32::MAX`.
    pub fn new(
        content: &'a [u8],
        arch: Arch,
        endian: Endianness,
        memory: &'a MemoryMap,
        logger: Logger,
        symbols: Option<&'a PoiList>,
    ) -> (f: UdsFinder<'a>)
        requires
            content@.len() <= isize::MAX,
            content@.len() < 0x2_0000_0000,
        ensures
            f.setup() == (UdsSetup {
                content: content@,
                arch,
                endian,
                regions: memory@,
                symbols: match symbols {
                    Some(s) => Some(s@),
                    None => None,
                },
            }),
    {
        UdsFinder { content, reader: PointerReader::new(arch, endian), arch, endian, memory, logger, symbols }
    }

    /// Index the plausible pointers for `base`.
    fn index_pointers(&self, base: u64) -> (l: PoiList)
        ensures
            l@ == self.setup().pointers_for(base),
            offsets_within(l@, self.psize(), self.spec_content().len()),
    {
        proof {
            use_type_invariant(self);
            lemma_pointer_offsets(
                self.spec_content(),
                self.psize(),
                self.spec_endian(),
                self.spec_regions(),
                self.spec_symbols(),
                base,
                0,
                self.spec_content().len() - self.psize(),
            );
        }
        let finder = BaseAddressFinder::new(
            self.content,
            self.arch,
            self.endian,
            self.memory,
            0x1000,
            false,
            1,
            false,
            self.symbols,
            self.logger,
        );
        finder.index_poi_pointers(base)
    }

    /// Mark the pointers that point at a known string as string pointers.
    fn retype_string_pointers(&self, pointers: &mut PoiList, strings: &PoiList, base: u64)
        requires
            offsets_within(old(pointers)@, self.psize(), self.spec_content().len()),
        ensures
            final(pointers)@ == old(pointers)@.map_values(
                |p: Poi| self.setup().string_retyped(p, strings@, base),
            ),
    {
        broadcast use vstd::std_specs::hash::group_hash_axioms;

        proof {
            use_type_invariant(self);
        }
        let mut targets: std::collections::HashSet<u64> = std::collections::HashSet::new();
        let ns = strings.count();
        let mut k: usize = 0;
        while k < ns
            invariant
                ns == strings@.len(),
                k <= ns,
                forall|v: u64|
                    #[trigger] targets@.contains(v) <==> exists|q: int|
                        0 <= q < k && v == vstd::wrapping::u64_specs::wrapping_add(
                            #[trigger] strings@[q].offset,
                            base,
                        ),
            decreases ns - k,
        {
            let t = strings.get(k).offset.wrapping_add(base);
            targets.insert(t);
            k = k + 1;
        }
        let ghost items = pointers@;
        let n = pointers.count();
        let mut i: usize = 0;
        while i < n
            invariant
                self.consistent(),
                items == old(pointers)@,
                n == items.len(),
                i <= n,
                offsets_within(items, self.psize(), self.spec_content().len()),
                pointers@.len() == n,
                forall|v: u64| #[trigger] targets@.contains(v) <==> string_hit(strings@, v, base),
                forall|j: int|
                    0 <= j < n ==> #[trigger] pointers@[j] == if j < i {
                        self.setup().string_retyped(items[j], strings@, base)
                    } else {
                        items[j]
                    },
            decreases n - i,
        {
            let offset = pointers.get(i).offset;
            proof {
                assert(items[i as int].offset + self.psize() <= self.spec_content().len());
            }
            let value = self.reader.read(self.content, offset as usize);
            if targets.contains(&value) {
                pointers.set_type(i, PoiType::StringPointer);
            }
            i = i + 1;
        }
        proof {
            assert(pointers@ =~= items.map_values(|p: Poi| self.setup().string_retyped(p, strings@, base)));
        }
    }

    /// Find the runs of more than four consecutive same-kind pointers (see
    /// `pointer_runs`).
    fn index_pointer_arrays(&self, pointers: &PoiList) -> (l: PoiList)
        requires
            offsets_within(pointers@, self.psize(), self.spec_content().len()),
        ensures
            l@ == pointer_runs(pointers@, self.psize(), 0, false, 0, 0, 0, PoiType::Unknown),
            offsets_within(l@, self.psize(), self.spec_content().len()),
    {
        proof {
            use_type_invariant(self);
        }
        let psize = self.reader.size() as u64;
        let ghost n = self.psize();
        let ghost len = self.spec_content().len();
        let ghost items = pointers@;
        let mut arrays = PoiList::new();
        let mut in_array = false;
        let mut count: i32 = 0;
        let mut start_offset: u64 = 0;
        let mut last_offset: u64 = 0;
        let mut array_type = PoiType::Unknown;
        let ghost total = pointer_runs(items, n, 0, false, 0, 0, 0, PoiType::Unknown);
        proof {
            assert(total =~= arrays@ + total);
        }
        let np = pointers.count();
        let mut i: usize = 0;
        while i < np
            invariant
                self.consistent(),
                items == pointers@,
                np == items.len(),
                i <= np,
                psize == n,
                n == 4 || n == 8,
                len == self.spec_content().len(),
                len < 0x2_0000_0000,
                offsets_within(items, n, len),
                in_array ==> count >= 1 && start_offset + (count - 1) * n == last_offset && last_offset + n <= len,
                offsets_within(arrays@, n, len),
                total == arrays@ + pointer_runs(
                    items,
                    n,
                    i as int,
                    in_array,
                    count,
                    start_offset,
                    last_offset,
                    array_type,
                ),
            decreases np - i,
        {
            let poi = pointers.get(i);
            let ghost before = arrays@;
            let ghost rest = pointer_runs(
                items,
                n,
                i + 1,
                false,
                count,
                start_offset,
                last_offset,
                array_type,
            );
            proof {
                assert(items[i as int].offset + n <= len);
            }
            if !in_array {
                count = 1;
                start_offset = poi.offset;
                last_offset = poi.offset;
                array_type = poi.poi_type;
                in_array = true;
            } else if poi.offset != last_offset + psize || poi.poi_type != array_type {
                if count > 4 {
                    arrays.add(start_offset, count, PoiType::ArrayPointer);
                }
                proof {
                    let here = if count > 4 {
                        seq![plain_poi(start_offset, count, PoiType::ArrayPointer)]
                    } else {
                        seq![]
                    };
                    assert(arrays@ == before + here);
                    assert(before + (here + rest) =~= arrays@ + rest);
                }
                in_array = false;
            } else {
                proof {
                    assert(count * n < 4 * i32::MAX) by (nonlinear_arith)
                        requires
                            start_offset + (count - 1) * n == last_offset,
                            last_offset + n + n <= len,
                            len < 0x2_0000_0000,
                            n >= 4,
                            count >= 1,
                    ;
                    assert(count < i32::MAX) by (nonlinear_arith)
                        requires
                            count * n < 4 * i32::MAX,
                            n >= 4,
                            count >= 1,
                    ;
                }
                count = count + 1;
                last_offset = poi.offset;
            }
            i = i + 1;
        }
        arrays
    }

    /// Merge `extra` into the sorted, repeat-free `sorted` (see
    /// `sorted_merge`).
    fn merge_sorted(sorted: &mut PoiList, extra: &PoiList)
        ensures
            final(sorted)@ == sorted_merge(old(sorted)@, extra@),
    {
        let ghost start = sorted@;
        let n = extra.count();
        let mut i: usize = 0;
        while i < n
            invariant
                n == extra@.len(),
                i <= n,
                sorted@ == sorted_merge(start, extra@.subrange(0, i as int)),
            decreases n - i,
        {
            proof {
                assert(extra@.subrange(0, i + 1).drop_last() =~= extra@.subrange(0, i as int));
            }
            sorted.add_unique_sorted(extra.get(i));
            i = i + 1;
        }
        proof {
            assert(extra@.subrange(0, n as int) =~= extra@);
        }
    }

    /// Build the per-member signature of a structure at `offset`.
    fn create_signature(
        &self,
        pointers: &PoiList,
        strings: &PoiList,
        base: u64,
        offset: u64,
        nb_members: i32,
    ) -> (sign: Vec<i32>)
        requires
            2 <= nb_members <= MAX_STRUCT_MEMBERS,
            offset <= self.spec_content().len(),
        ensures
            sign@ == self.setup().signature_at(pointers@, strings@, base, offset, nb_members as nat),
    {
        proof {
            use_type_invariant(self);
        }
        let psize = self.reader.size() as u64;
        let mut sign: Vec<i32> = Vec::new();
        let mut i: usize = 0;
        while i < nb_members as usize
            invariant
                self.consistent(),
                2 <= nb_members <= MAX_STRUCT_MEMBERS,
                offset <= self.spec_content().len(),
                self.spec_content().len() <= isize::MAX,
                psize == self.psize(),
                psize == 4 || psize == 8,
                i <= nb_members,
                sign@ == self.setup().signature_at(pointers@, strings@, base, offset, nb_members as nat).subrange(
                    0,
                    i as int,
                ),
            decreases nb_members - i,
        {
            proof {
                assert(i * psize <= 96) by (nonlinear_arith)
                    requires
                        i <= 12,
                        psize <= 8,
                ;
            }
            let member_off = offset + i as u64 * psize;
            let value = self.reader.read(self.content, member_off as usize);
            let np = pointers.count();
            let mut resolved: i32 = -1;
            let mut found = false;
            let mut j: usize = 0;
            proof {
                assert(pointers@.subrange(0, np as int) =~= pointers@);
            }
            while j < np
                invariant
                    np == pointers@.len(),
                    j <= np,
                    found == (resolved >= 0),
                    !found ==> pointer_member(pointers@, value, member_off, base) == pointer_member(
                        pointers@.subrange(j as int, np as int),
                        value,
                        member_off,
                        base,
                    ),
                    found ==> pointer_member(pointers@, value, member_off, base) == Some(resolved),
                    0 <= resolved <= 14 || resolved == -1,
                decreases np - j,
            {
                let item = pointers.get(j);
                proof {
                    let rest = pointers@.subrange(j as int, np as int);
                    assert(rest[0] == *item);
                    assert(rest.drop_first() =~= pointers@.subrange(j + 1, np as int));
                }
                if !found {
                    if item.offset.wrapping_add(base) == value {
                        if item.poi_type.is_pointer() {
                            resolved = PoiType::PointerPointer.as_signature();
                            found = true;
                        }
                    } else if item.offset == member_off {
                        resolved = item.poi_type.as_signature();
                        found = true;
                    }
                }
                j = j + 1;
            }
            proof {
                assert(pointers@.subrange(np as int, np as int).len() == 0);
            }
            if !found {
                let ns = strings.count();
                let mut k: usize = 0;
                proof {
                    assert(strings@.subrange(0, ns as int) =~= strings@);
                }
                while k < ns
                    invariant
                        ns == strings@.len(),
                        k <= ns,
                        found == (resolved >= 0),
                        !found ==> string_member(strings@, value, base) == string_member(
                            strings@.subrange(k as int, ns as int),
                            value,
                            base,
                        ),
                        found ==> string_member(strings@, value, base) == Some(resolved),
                        0 <= resolved <= 14 || resolved == -1,
                    decreases ns - k,
                {
                    let item = strings.get(k);
                    proof {
                        let rest = strings@.subrange(k as int, ns as int);
                        assert(rest[0] == *item);
                        assert(rest.drop_first() =~= strings@.subrange(k + 1, ns as int));
                    }
                    if !found && item.offset.wrapping_add(base) == value {
                        resolved = item.poi_type.as_signature();
                        found = true;
                    }
                    k = k + 1;
                }
                proof {
                    assert(strings@.subrange(ns as int, ns as int).len() == 0);
                }
            }
            if !found {
                if value == 0 || value == 0xffff_ffff || value == 0xffff_ffff_ffff_ffff {
                    resolved = PoiType::NullPtrOrValue.as_signature();
                } else {
                    resolved = PoiType::Unknown.as_signature();
                }
            }
            proof {
                assert(value == self.word_at(offset + i * self.psize()));
                assert(resolved == self.setup().signature_at(pointers@, strings@, base, offset, nb_members as nat)[i as int]);
            }
            sign.push(resolved);
            proof {
                assert(sign@ =~= self.setup().signature_at(pointers@, strings@, base, offset, nb_members as nat).subrange(
                    0,
                    i + 1,
                ));
            }
            i = i + 1;
        }
        proof {
            assert(sign@ =~= self.setup().signature_at(pointers@, strings@, base, offset, nb_members as nat));
        }
        sign
    }

    /// The run of structures of `nb_members` members from `poi` (see
    /// `run_at`).
    fn structure_run(&self, pointers: &PoiList, poi: &Poi, nb_members: u64, scan_limit: u64) -> (c: i32)
        requires
            2 <= nb_members <= MAX_STRUCT_MEMBERS,
            scan_limit == self.setup().scan_limit(),
            poi.offset < self.spec_content().len(),
        ensures
            c == run_at(pointers@, *poi, (nb_members * self.psize()) as nat, self.setup().scan_limit(), 0),
            c >= 0,
            c == 0 || poi.offset + (c - 1) * (nb_members * self.psize()) < self.setup().scan_limit(),
    {
        proof {
            use_type_invariant(self);
        }
        let psize = self.reader.size() as u64;
        let stride = nb_members * psize;
        let ghost st = stride as nat;
        let ghost limit = self.setup().scan_limit();
        let np = pointers.count();
        let mut count: i32 = 0;
        loop
            invariant
                self.consistent(),
                psize == self.psize(),
                psize == 4 || psize == 8,
                stride == nb_members * psize,
                8 <= stride <= 96,
                st == stride,
                limit == self.setup().scan_limit(),
                scan_limit == limit,
                limit <= self.spec_content().len(),
                self.spec_content().len() < 0x2_0000_0000,
                poi.offset < self.spec_content().len(),
                np == pointers@.len(),
                count >= 0,
                count == 0 || poi.offset + (count - 1) * stride < limit,
                run_at(pointers@, *poi, st, limit, 0) == run_at(pointers@, *poi, st, limit, count as nat),
            ensures
                count >= 0,
                count == 0 || poi.offset + (count - 1) * stride < limit,
                run_at(pointers@, *poi, st, limit, 0) == count,
            decreases limit + 1 - count,
        {
            proof {
                assert(count * stride < limit + stride) by (nonlinear_arith)
                    requires
                        count == 0 || poi.offset + (count - 1) * stride < limit,
                        count >= 0,
                        limit >= 0,
                        stride >= 8,
                ;
            }
            let cursor = poi.offset + count as u64 * stride;
            if cursor >= scan_limit {
                break;
            }
            let mut found = false;
            let mut j: usize = 0;
            while j < np
                invariant
                    np == pointers@.len(),
                    j <= np,
                    found == exists|q: int|
                        0 <= q < j && #[trigger] pointers@[q].offset == cursor && pointers@[q].poi_type
                            == poi.poi_type,
                decreases np - j,
            {
                let p2 = pointers.get(j);
                if p2.offset == cursor && p2.poi_type == poi.poi_type {
                    found = true;
                }
                j = j + 1;
            }
            if found {
                proof {
                    assert(count < i32::MAX) by (nonlinear_arith)
                        requires
                            poi.offset + count * stride < limit,
                            limit < 0x2_0000_0000,
                            stride >= 8,
                            count >= 0,
                    ;
                    assert(count < limit) by (nonlinear_arith)
                        requires
                            poi.offset + count * stride < limit,
                            stride >= 8,
                            count >= 0,
                    ;
                }
                count = count + 1;
            } else {
                break;
            }
        }
        count
    }

    /// Detect arrays of structures by finding pointers that repeat at a
    /// fixed stride (see `structure_scan`).
    fn index_structure_arrays(&self, pointers: &PoiList, strings: &PoiList, base: u64) -> (l: PoiList)
        requires
            offsets_within(pointers@, self.psize(), self.spec_content().len()),
        ensures
            pois_are(l@, self.setup().structure_scan(pointers@, strings@, base, 0, 0, seq![])),
            structures_ok(
                self.setup().structure_scan(pointers@, strings@, base, 0, 0, seq![]),
                self.psize(),
                self.spec_content().len(),
            ),
    {
        proof {
            use_type_invariant(self);
        }
        let psize = self.reader.size() as u64;
        let content_len = self.content.len() as u64;
        let scan_limit = if content_len >= psize {
            content_len - psize
        } else {
            0
        };
        let ghost items = pointers@;
        let ghost total = self.setup().structure_scan(items, strings@, base, 0, 0, seq![]);
        let ghost mut acc: Seq<StructureModel> = seq![];
        let mut structures = PoiList::new();
        let mut min_offset: u64 = 0;
        let np = pointers.count();
        let mut i: usize = 0;
        while i < np
            invariant
                self.consistent(),
                items == pointers@,
                np == items.len(),
                i <= np,
                psize == self.psize(),
                psize == 4 || psize == 8,
                content_len == self.spec_content().len(),
                scan_limit == self.setup().scan_limit(),
                offsets_within(items, psize as nat, content_len as nat),
                min_offset <= content_len + 96,
                pois_are(structures@, acc),
                structures_ok(acc, psize as nat, content_len as nat),
                total == self.setup().structure_scan(items, strings@, base, i as int, min_offset as int, acc),
            decreases np - i,
        {
            let poi = pointers.get(i);
            proof {
                assert(items[i as int].offset + psize <= content_len);
            }
            if poi.offset >= min_offset {
                let mut results: Vec<i32> = Vec::new();
                results.push(0);
                let mut m: u64 = 2;
                while m <= MAX_STRUCT_MEMBERS as u64
                    invariant
                        self.consistent(),
                        2 <= m <= MAX_STRUCT_MEMBERS + 1,
                        results@.len() == m - 1,
                        psize == self.psize(),
                        scan_limit == self.setup().scan_limit(),
                        poi.offset < self.spec_content().len(),
                        forall|j: int|
                            0 <= j < results@.len() ==> #[trigger] results@[j] == self.setup().member_runs(
                                items,
                                *poi,
                            )[j],
                        forall|j: int|
                            0 < j < results@.len() ==> #[trigger] results@[j] == 0 || poi.offset + (
                            results@[j] - 1) * ((j + 1) * psize) < scan_limit,
                        results@[0] == 0,
                        items == pointers@,
                    decreases MAX_STRUCT_MEMBERS + 1 - m,
                {
                    let c = self.structure_run(pointers, poi, m, scan_limit);
                    results.push(c);
                    m = m + 1;
                }
                let mut opt_count: i32 = -1;
                let mut opt_nb_members: i32 = -1;
                let mut r: usize = 0;
                while r < MAX_STRUCT_MEMBERS
                    invariant
                        results@.len() == MAX_STRUCT_MEMBERS,
                        r <= MAX_STRUCT_MEMBERS,
                        (opt_count, opt_nb_members) == best_members(results@, r as int),
                    decreases MAX_STRUCT_MEMBERS - r,
                {
                    if results[r] > opt_count {
                        opt_nb_members = r as i32 + 1;
                        opt_count = results[r];
                    }
                    r = r + 1;
                }
                proof {
                    assert(results@ =~= self.setup().member_runs(items, *poi));
                    lemma_best_members(results@, MAX_STRUCT_MEMBERS as int);
                }
                if opt_count > 3 && opt_nb_members >= 2 {
                    let signature = self.create_signature(
                        pointers,
                        strings,
                        base,
                        poi.offset,
                        opt_nb_members,
                    );
                    let ghost model = StructureModel {
                        offset: poi.offset,
                        count: opt_count,
                        nb_members: opt_nb_members,
                        signature: signature@,
                    };
                    let ghost before = structures@;
                    let added = structures.add_structure_array(
                        poi.offset,
                        opt_count,
                        opt_nb_members,
                        signature.as_slice(),
                    );
                    proof {
                        let j = opt_nb_members - 1;
                        assert(results@[j] == opt_count);
                        assert(poi.offset + (opt_count - 1) * ((j + 1) * psize) < scan_limit);
                        assert((exists|k: int| 0 <= k < acc.len() && #[trigger] acc[k].offset == poi.offset)
                            == !added) by {
                            if !added {
                                let k = choose|k: int| 0 <= k < before.len() && #[trigger] before[k].offset
                                    == poi.offset;
                                assert(poi_is(before[k], acc[k]));
                            } else {
                                assert forall|k: int| 0 <= k < acc.len() implies #[trigger] acc[k].offset
                                    != poi.offset by {
                                    assert(poi_is(before[k], acc[k]));
                                }
                            }
                        }
                        if added {
                            let acc2 = acc.push(model);
                            assert forall|k: int| 0 <= k < structures@.len() implies poi_is(
                                #[trigger] structures@[k],
                                acc2[k],
                            ) by {
                                if k < before.len() {
                                    assert(structures@[k] == structures@.subrange(0, before.len() as int)[k]);
                                }
                            }
                            acc = acc2;
                        }
                        assert(opt_nb_members * psize <= 96) by (nonlinear_arith)
                            requires
                                opt_nb_members <= 12,
                                psize <= 8,
                        ;
                        assert(poi.offset + opt_count * (opt_nb_members * psize) < scan_limit + opt_nb_members
                            * psize) by (nonlinear_arith)
                            requires
                                poi.offset + (opt_count - 1) * (opt_nb_members * psize) < scan_limit,
                        ;
                    }
                    min_offset = poi.offset + opt_count as u64 * (opt_nb_members as u64 * psize);
                }
            }
            i = i + 1;
        }
        structures
    }

    /// Whether `value` is a valid UDS service request ID.
    pub fn is_valid_uds_rid(value: u8) -> (b: bool)
        ensures
            b == valid_rid(value),
    {
        value == 0x10 || value == 0x11 || value == 0x14 || value == 0x19 || (0x27 <= value && value
            <= 0x29) || value == 0x3e || (0x83 <= value && value <= 0x87) || (0x22 <= value && value
            <= 0x24) || value == 0x2a || value == 0x2c || value == 0x2e || value == 0x2f || value == 0x31
            || (0x34 <= value && value <= 0x38)
    }

    /// Scan every structure column for the longest run of distinct valid
    /// UDS request IDs (see `uds_best`).
    fn identify_uds(&self, structures: &PoiList, Ghost(ms): Ghost<Seq<StructureModel>>) -> (best: Option<
        (u64, usize, usize, usize),
    >)
        requires
            pois_are(structures@, ms),
            structures_ok(ms, self.psize(), self.spec_content().len()),
        ensures
            lift(best) == self.setup().uds_best(ms, ms.len() as int),
            self.setup().best_ok(ms, ms.len() as int, self.setup().uds_best(ms, ms.len() as int)),
    {
        broadcast use vstd::std_specs::hash::group_hash_axioms;

        proof {
            use_type_invariant(self);
        }
        let psize = self.reader.size() as u64;
        let content_len = self.content.len() as u64;
        let ghost n = self.psize();
        let ghost len = self.spec_content().len();
        let mut best: Option<(u64, usize, usize, usize)> = None;
        let ghost mut sbest: Option<(u64, nat, nat, int)> = None;
        let ns = structures.count();
        let mut si: usize = 0;
        while si < ns
            invariant
                self.consistent(),
                psize == n,
                n == self.psize(),
                n == 4 || n == 8,
                len == self.spec_content().len(),
                content_len == len,
                ns == ms.len(),
                si <= ns,
                pois_are(structures@, ms),
                structures_ok(ms, n, len),
                sbest == self.setup().uds_best(ms, si as int),
                self.setup().best_ok(ms, si as int, sbest),
                sbest == lift(best),
            decreases ns - si,
        {
            let st = structures.get(si);
            let ghost sm = ms[si as int];
            proof {
                assert(poi_is(structures@[si as int], sm));
                assert(2 <= sm.nb_members <= MAX_STRUCT_MEMBERS);
                assert(sm.nb_members * n <= 96) by (nonlinear_arith)
                    requires
                        sm.nb_members <= 12,
                        n <= 8,
                ;
                assert(sm.nb_members * n >= 8) by (nonlinear_arith)
                    requires
                        sm.nb_members >= 2,
                        n >= 4,
                ;
            }
            let stride = st.nb_members as u64 * psize;
            let columns = stride;
            let ghost start_best = sbest;
            let mut column: u64 = 0;
            while column < columns
                invariant
                    self.consistent(),
                    psize == n,
                    n == self.psize(),
                    n == 4 || n == 8,
                    len == self.spec_content().len(),
                    content_len == len,
                    ns == ms.len(),
                    si < ns,
                    sm == ms[si as int],
                    structures_ok(ms, n, len),
                    st.offset == sm.offset,
                    st.count == sm.count,
                    st.nb_members == sm.nb_members,
                    2 <= sm.nb_members <= MAX_STRUCT_MEMBERS,
                    1 <= sm.count,
                    sm.offset + (sm.count - 1) * (sm.nb_members * n) < len,
                    stride == sm.nb_members * n,
                    columns == stride,
                    8 <= stride <= 96,
                    column <= columns,
                    self.setup().array_best(sm, si as int, 0, start_best) == self.setup().array_best(
                        sm,
                        si as int,
                        column as int,
                        sbest,
                    ),
                    self.setup().best_ok(ms, si + 1, sbest),
                    sbest == lift(best),
                decreases columns - column,
            {
                let mut seen: std::collections::HashSet<u8> = std::collections::HashSet::new();
                let mut count: usize = 0;
                let mut start: usize = 0;
                let mut in_seq = false;
                let ghost col_start = sbest;
                let mut k: usize = 0;
                while k < st.count as usize
                    invariant
                        self.consistent(),
                        psize == n,
                        n == self.psize(),
                        len == self.spec_content().len(),
                        content_len == len,
                        si < ns,
                        ns == ms.len(),
                        sm == ms[si as int],
                        st.offset == sm.offset,
                        st.count == sm.count,
                        st.nb_members == sm.nb_members,
                        1 <= sm.count,
                        sm.offset + (sm.count - 1) * (sm.nb_members * n) < len,
                        stride == sm.nb_members * n,
                        8 <= stride <= 96,
                        column < stride,
                        k <= sm.count,
                        count <= k,
                        in_seq ==> count > 0,
                        count > 0 ==> start < k && valid_rid(self.setup().rid_at(sm, start as int, column as int)),
                        self.setup().column_best(sm, si as int, column, 0, Set::empty(), 0, 0, false, col_start)
                            == self.setup().column_best(
                            sm,
                            si as int,
                            column,
                            k as int,
                            seen@,
                            count as nat,
                            start as nat,
                            in_seq,
                            sbest,
                        ),
                        self.setup().best_ok(ms, si + 1, sbest),
                        sbest == lift(best),
                    decreases sm.count - k,
                {
                    proof {
                        assert(k * stride + column < sm.count * stride) by (nonlinear_arith)
                            requires
                                k < sm.count,
                                column < stride,
                        ;
                        assert(sm.count * stride == (sm.count - 1) * stride + stride) by (nonlinear_arith);
                    }
                    let idx = st.offset + k as u64 * stride + column;
                    let byte = if idx < content_len {
                        self.content[idx as usize]
                    } else {
                        0
                    };
                    proof {
                        assert(byte == self.setup().rid_at(sm, k as int, column as int));
                    }
                    let ghost prev_best = sbest;
                    let ghost prev = (seen@, count as nat, start as nat, in_seq);
                    if Self::is_valid_uds_rid(byte) {
                        if !in_seq {
                            seen.clear();
                            in_seq = true;
                            start = k;
                            seen.insert(byte);
                            count = 1;
                            proof {
                                assert(seen@ =~= Set::<u8>::empty().insert(byte));
                                assert(!prev.3);
                                assert(valid_rid(self.setup().rid_at(sm, k as int, column as int)));
                                assert(self.setup().column_best(sm, si as int, column, k as int, prev.0, prev.1, prev.2, prev.3, prev_best)
                                    == self.setup().column_best(sm, si as int, column, k + 1, Set::empty().insert(byte), 1, k as nat, true, prev_best));
                            }
                        } else if seen.insert(byte) {
                            count = count + 1;
                            proof {
                                assert(!prev.0.contains(byte));
                                assert(self.setup().column_best(sm, si as int, column, k as int, prev.0, prev.1, prev.2, prev.3, prev_best)
                                    == self.setup().column_best(sm, si as int, column, k + 1, prev.0.insert(byte), prev.1 + 1, prev.2, true, prev_best));
                            }
                        } else {
                            in_seq = false;
                            proof {
                                assert(seen@ =~= prev.0);
                                sbest = consider(sbest, column, count as nat, start as nat, si as int);
                            }
                            best = Self::consider_run(best, column, count, start, si);
                        }
                    } else {
                        in_seq = false;
                        proof {
                            sbest = consider(sbest, column, count as nat, start as nat, si as int);
                        }
                        best = Self::consider_run(best, column, count, start, si);
                    }
                    proof {
                        if valid_rid(byte) && !prev.3 {
                            assert(self.setup().column_best(sm, si as int, column, k as int, prev.0, prev.1, prev.2, prev.3, prev_best)
                                == self.setup().column_best(sm, si as int, column, k + 1, seen@, count as nat, start as nat, in_seq, sbest));
                        } else if valid_rid(byte) && !prev.0.contains(byte) {
                            assert(self.setup().column_best(sm, si as int, column, k as int, prev.0, prev.1, prev.2, prev.3, prev_best)
                                == self.setup().column_best(sm, si as int, column, k + 1, seen@, count as nat, start as nat, in_seq, sbest));
                        } else if valid_rid(byte) {
                            assert(self.setup().column_best(sm, si as int, column, k as int, prev.0, prev.1, prev.2, prev.3, prev_best)
                                == self.setup().column_best(sm, si as int, column, k + 1, seen@, count as nat, start as nat, in_seq, sbest));
                        } else {
                            assert(self.setup().column_best(sm, si as int, column, k as int, prev.0, prev.1, prev.2, prev.3, prev_best)
                                == self.setup().column_best(sm, si as int, column, k + 1, seen@, count as nat, start as nat, in_seq, sbest));
                        }
                    }
                    k = k + 1;
                }
                proof {
                    assert(self.setup().array_best(sm, si as int, column as int, col_start) == self.setup().array_best(
                        sm,
                        si as int,
                        column + 1,
                        sbest,
                    ));
                }
                column = column + 1;
            }
            si = si + 1;
        }
        best
    }

    /// Replace `best` by the run of `count` IDs starting at structure
    /// `start` of column `column` of array `si` when it is strictly longer
    /// (see `consider`).
    fn consider_run(
        best: Option<(u64, usize, usize, usize)>,
        column: u64,
        count: usize,
        start: usize,
        si: usize,
    ) -> (r: Option<(u64, usize, usize, usize)>)
        ensures
            lift(r) == consider(lift(best), column, count as nat, start as nat, si as int),
    {
        let better = match best {
            Some(b) => count > b.1,
            None => count > 0,
        };
        if better {
            Some((column, count, start, si))
        } else {
            best
        }
    }

    /// Look for the UDS database of the image loaded at `base` (see
    /// `find_checked`). The location of the run found must fit in 64 bits.
    pub fn find(&self, base: u64) -> (r: Option<UdsResult>)
        requires
            self.setup().location_fits(base),
        ensures
            self.setup().reports(base, r),
            r matches Some(u) ==> self.setup().reported_ids_distinct(base, u),
    {
        let r = match self.find_checked(base) {
            Some(r) => r,
            None => None,
        };
        proof {
            self.setup().lemma_reports_distinct(base, r);
        }
        r
    }

    /// Look for the UDS database of the image loaded at `base`: index
    /// strings and pointers, type the pointers, find pointer runs and
    /// structure arrays, and report the longest run of distinct valid
    /// request IDs in a structure column (see `uds_choice`), located at
    /// `base` plus its offset in the image. `None` when that location does
    /// not fit in 64 bits.
    pub fn find_checked(&self, base: u64) -> (r: Option<Option<UdsResult>>)
        ensures
            r is None <==> !self.setup().location_fits(base),
            r matches Some(x) ==> self.setup().reports(base, x),
    {
        proof {
            use_type_invariant(self);
        }
        let ghost n = self.psize();
        let ghost len = self.spec_content().len();
        let strings = PoiList::index_strings(self.content, STR_MIN_SIZE);
        let mut pointers = self.index_pointers(base);
        self.retype_string_pointers(&mut pointers, &strings, base);
        let ghost after_strings = pointers@;
        assert(offsets_within(after_strings, n, len));
        self.retype_region_pointers(&mut pointers, base);
        proof {
            assert(pointers@ =~= self.setup().typed_pointers(base));
            assert(offsets_within(pointers@, n, len));
        }
        let pointer_arrays = self.index_pointer_arrays(&pointers);
        let mut sorted = PoiList::new();
        Self::merge_sorted(&mut sorted, &pointers);
        Self::merge_sorted(&mut sorted, &pointer_arrays);
        proof {
            lemma_merge_within(seq![], pointers@, n, len);
            lemma_merge_within(sorted_merge(seq![], pointers@), pointer_arrays@, n, len);
            assert(sorted@ == self.setup().sorted_pointers(base));
        }
        let structures = self.index_structure_arrays(&sorted, &strings, base);
        let ghost ms = self.setup().uds_structures(base);
        let best = self.identify_uds(&structures, Ghost(ms));
        match best {
            None => Some(None),
            Some((column, run_len, start, si)) => {
                if run_len == 0 {
                    return Some(None);
                }
                let st = structures.get(si);
                let ghost m = ms[si as int];
                proof {
                    assert(poi_is(structures@[si as int], m));
                    let idx = m.offset + start * (m.nb_members * n) + column;
                    assert(valid_rid(self.setup().rid_at(m, start as int, column as int)));
                    assert(idx < len);
                    assert(start * st.nb_members * n == start * (st.nb_members * n)) by (nonlinear_arith);
                }
                let psize = self.reader.size() as u64;
                let in_image = st.offset + column + start as u64 * st.nb_members as u64 * psize;
                if in_image > u64::MAX - base {
                    return None;
                }
                let location = st.offset + base + column + start as u64 * st.nb_members as u64 * psize;
                Some(Some(UdsResult { location, rid_count: run_len, structure: st.duplicate(), arch: self.arch }))
            },
        }
    }

    /// Refine pointers into function, data or uninitialised-data pointers
    /// by the region they point into.
    fn retype_region_pointers(&self, pointers: &mut PoiList, base: u64)
        requires
            offsets_within(old(pointers)@, self.psize(), self.spec_content().len()),
        ensures
            final(pointers)@ == old(pointers)@.map_values(|p: Poi| self.setup().region_retyped(p, base)),
    {
        proof {
            use_type_invariant(self);
        }
        let ghost items = pointers@;
        let n = pointers.count();
        let mut i: usize = 0;
        while i < n
            invariant
                self.consistent(),
                items == old(pointers)@,
                n == items.len(),
                i <= n,
                offsets_within(items, self.psize(), self.spec_content().len()),
                pointers@.len() == n,
                forall|j: int|
                    0 <= j < n ==> #[trigger] pointers@[j] == if j < i {
                        self.setup().region_retyped(items[j], base)
                    } else {
                        items[j]
                    },
            decreases n - i,
        {
            let poi = pointers.get(i);
            let offset = poi.offset;
            if poi.poi_type.is_pointer() {
                proof {
                    assert(items[i as int].offset + self.psize() <= self.spec_content().len());
                }
                let value = self.reader.read(self.content, offset as usize);
                match self.memory.get_type(value.wrapping_sub(base)) {
                    RegionType::Code => pointers.set_type(i, PoiType::FunctionPointer),
                    RegionType::InitData => pointers.set_type(i, PoiType::DataPointer),
                    RegionType::UninitData => pointers.set_type(i, PoiType::UninitDataPointer),
                    RegionType::Unknown => {},
                }
            }
            i = i + 1;
        }
        proof {
            assert(pointers@ =~= items.map_values(|p: Poi| self.setup().region_retyped(p, base)));
        }
    }
}

/// Whether `value` is a valid UDS service request ID.
pub open spec fn valid_rid(value: u8) -> bool {
    ||| value == 0x10 || value == 0x11 || value == 0x14 || value == 0x19
    ||| 0x27 <= value <= 0x29
    ||| value == 0x3e
    ||| 0x83 <= value <= 0x87
    ||| 0x22 <= value <= 0x24
    ||| value == 0x2a || value == 0x2c || value == 0x2e || value == 0x2f || value == 0x31
    ||| 0x34 <= value <= 0x38
}

} // verus!
