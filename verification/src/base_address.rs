//! Base (loading) address recovery.
//!
//! 1. Index points of interest: strings, then arrays of similar values.
//! 2. For every candidate base address, count the in-file values that point
//!    at a POI when read relative to that base; the counts are kept in an
//!    address tree.
//! 3. Refine the best-voted candidates with a score that also rewards arrays
//!    of pointers resolving to known POIs.
//! 4. Choose the answer from the vote and score signals, with a confidence
//!    flag.

use vstd::prelude::*;
use crate::addrtree::{
    AddrTree, NODE_FOOTPRINT, at_least, bump, is_listing, lemma_listing_unique, nodes_needed, peak, registered,
};
use crate::arch::Arch;
use crate::endianness::Endianness;
use crate::error::BinbloomError;
use crate::log::Logger;
use crate::memregion::{MemoryMap, RegionType, MemRegion, max_code_end, region_type_at};
use crate::endian_detect::{floor_log2, log2_floor};
use crate::poi::{Poi, PoiList, PoiType, plain_poi, printable};
use crate::pointer::{PointerReader, decode, all_printable};

verus! {

/// Minimum string length to record.
pub const STR_MIN_SIZE: usize = 8;

/// Address-tree size above which a memory-saving filter runs.
pub const MAX_MEM_AMOUNT: u64 = 4_000_000_000;

/// How many high-vote candidates are kept for refinement in normal mode.
pub const KEEP_TARGET: usize = 30;

/// The pointer-sized value at `off`.
pub open spec fn word(content: Seq<u8>, n: nat, endian: Endianness, off: int) -> u64 {
    decode(content, off, n, endian) as u64
}

/// `(int)(value - prev)` taken in 32 bits and run through `abs`, where the
/// absolute value of the smallest 32-bit integer stays itself.
pub open spec fn delta_abs(value: u64, prev: u64) -> i32 {
    let low = vstd::wrapping::u64_specs::wrapping_sub(value, prev) % 0x1_0000_0000;
    let signed: int = if low >= 0x8000_0000 {
        low - 0x1_0000_0000
    } else {
        low as int
    };
    if signed == -0x8000_0000 {
        i32::MIN
    } else if signed < 0 {
        (-signed) as i32
    } else {
        signed as i32
    }
}

/// The array POIs found reading words from `cursor` (stepping by `n`) up to
/// `end`: a run opens on a value other than zero and all ones, goes on while
/// each value stays within `0x1000` of the previous one, and is recorded
/// (offset and length in elements) when it breaks holding at least ten
/// elements. A run still open at `end` is not recorded. `count` is the
/// number of elements of the open run.
pub open spec fn value_arrays(
    content: Seq<u8>,
    n: nat,
    endian: Endianness,
    all_ones: u64,
    cursor: int,
    end: int,
    in_array: bool,
    start: u64,
    count: i32,
    prev: u64,
) -> Seq<Poi>
    decreases end + n - cursor,
{
    if cursor < 0 || cursor >= end || n == 0 {
        seq![]
    } else {
        let value = word(content, n, endian, cursor);
        if !in_array {
            if value != 0 && value != all_ones {
                value_arrays(content, n, endian, all_ones, cursor + n, end, true, cursor as u64, 1, value)
            } else {
                value_arrays(content, n, endian, all_ones, cursor + n, end, false, start, count, value)
            }
        } else if delta_abs(value, prev) > 0x1000 {
            (if count > 9 {
                seq![plain_poi(start, count, PoiType::Array)]
            } else {
                seq![]
            }) + value_arrays(content, n, endian, all_ones, cursor + n, end, false, start, 0, value)
        } else {
            value_arrays(content, n, endian, all_ones, cursor + n, end, true, start, bump(count), value)
        }
    }
}

/// The pointer POIs a symbol list yields for the word `value` at `cursor`:
/// one `FunctionPointer` per function symbol at `value - base`.
pub open spec fn symbol_hits(syms: Seq<Poi>, value: u64, base: u64, cursor: int) -> Seq<Poi>
    decreases syms.len(),
{
    if syms.len() == 0 {
        seq![]
    } else {
        (if vstd::wrapping::u64_specs::wrapping_sub(value, base) == syms[0].offset && syms[0].poi_type
            == PoiType::Function {
            seq![plain_poi(cursor as u64, 1, PoiType::FunctionPointer)]
        } else {
            seq![]
        }) + symbol_hits(syms.drop_first(), value, base, cursor)
    }
}

/// The pointer POIs found at word `cursor` for `base` (none inside code).
/// With a symbol list, a word pointing at a function symbol is a function
/// pointer. Otherwise a non-zero word inside `[base, base + len)` pointing
/// into code is a function pointer, and into initialised data a generic one.
pub open spec fn pointer_at(
    content: Seq<u8>,
    n: nat,
    endian: Endianness,
    regions: Seq<MemRegion>,
    symbols: Option<Seq<Poi>>,
    base: u64,
    cursor: int,
) -> Seq<Poi> {
    let value = word(content, n, endian, cursor);
    if region_type_at(regions, cursor as u64) == RegionType::Code {
        seq![]
    } else {
        match symbols {
            Some(syms) => symbol_hits(syms, value, base, cursor),
            None => {
                let t = region_type_at(regions, vstd::wrapping::u64_specs::wrapping_sub(value, base));
                let in_range = value >= base && value - base < content.len();
                if in_range && value != 0 && t != RegionType::Unknown && t != RegionType::UninitData {
                    seq![
                        plain_poi(
                            cursor as u64,
                            1,
                            if t == RegionType::Code {
                                PoiType::FunctionPointer
                            } else {
                                PoiType::GenericPointer
                            },
                        ),
                    ]
                } else {
                    seq![]
                }
            },
        }
    }
}

/// The pointer POIs for `base` at the words `cursor, cursor + n, ...` below
/// `end`.
pub open spec fn pointer_pois(
    content: Seq<u8>,
    n: nat,
    endian: Endianness,
    regions: Seq<MemRegion>,
    symbols: Option<Seq<Poi>>,
    base: u64,
    cursor: int,
    end: int,
) -> Seq<Poi>
    decreases end + n - cursor,
{
    if cursor < 0 || cursor >= end || n == 0 {
        seq![]
    } else {
        pointer_at(content, n, endian, regions, symbols, base, cursor) + pointer_pois(
            content,
            n,
            endian,
            regions,
            symbols,
            base,
            cursor + n,
            end,
        )
    }
}

/// Without a symbol list, every pointer the scan records sits on a word
/// outside code, at or after `cursor` and before `end`, whose value is
/// non-zero and lies in `[base, base + len)`; the word points into code (a
/// function pointer) or into initialised data (a generic pointer).
pub proof fn lemma_pointer_pois_sound(
    content: Seq<u8>,
    n: nat,
    endian: Endianness,
    regions: Seq<MemRegion>,
    base: u64,
    cursor: int,
    end: int,
)
    requires
        cursor >= 0,
        end <= u64::MAX,
    ensures
        forall|k: int|
            0 <= k < pointer_pois(content, n, endian, regions, None, base, cursor, end).len() ==> {
                let p = #[trigger] pointer_pois(content, n, endian, regions, None, base, cursor, end)[k];
                let v = word(content, n, endian, p.offset as int);
                let t = region_type_at(regions, (v - base) as u64);
                &&& cursor <= p.offset < end
                &&& p.count == 1
                &&& region_type_at(regions, p.offset) != RegionType::Code
                &&& v != 0
                &&& base <= v
                &&& v - base < content.len()
                &&& (t == RegionType::Code && p.poi_type == PoiType::FunctionPointer) || (t == RegionType::InitData
                    && p.poi_type == PoiType::GenericPointer)
            },
        forall|k1: int, k2: int|
            0 <= k1 < k2 < pointer_pois(content, n, endian, regions, None, base, cursor, end).len()
                ==> #[trigger] pointer_pois(content, n, endian, regions, None, base, cursor, end)[k1].offset
                < #[trigger] pointer_pois(content, n, endian, regions, None, base, cursor, end)[k2].offset,
    decreases end + n - cursor,
{
    if cursor < end && n > 0 {
        lemma_pointer_pois_sound(content, n, endian, regions, base, cursor + n, end);
        let here0 = pointer_at(content, n, endian, regions, None, base, cursor);
        let rest0 = pointer_pois(content, n, endian, regions, None, base, cursor + n, end);
        assert(pointer_pois(content, n, endian, regions, None, base, cursor, end) == here0 + rest0);
        assert forall|k1: int, k2: int| 0 <= k1 < k2 < (here0 + rest0).len() implies #[trigger] (here0 + rest0)[k1].offset
            < #[trigger] (here0 + rest0)[k2].offset by {
            assert(here0.len() <= 1);
            if k1 >= here0.len() {
                assert((here0 + rest0)[k1] == rest0[k1 - here0.len()]);
                assert((here0 + rest0)[k2] == rest0[k2 - here0.len()]);
            } else {
                assert((here0 + rest0)[k1] == here0[k1]);
                assert((here0 + rest0)[k2] == rest0[k2 - here0.len()]);
                assert(here0[k1].offset == cursor);
                assert(rest0[k2 - here0.len()].offset >= cursor + n);
            }
        }
        let here = pointer_at(content, n, endian, regions, None, base, cursor);
        let rest = pointer_pois(content, n, endian, regions, None, base, cursor + n, end);
        assert(pointer_pois(content, n, endian, regions, None, base, cursor, end) == here + rest);
        assert forall|k: int| 0 <= k < (here + rest).len() implies {
            let p = #[trigger] (here + rest)[k];
            let v = word(content, n, endian, p.offset as int);
            let t = region_type_at(regions, (v - base) as u64);
            &&& cursor <= p.offset < end
            &&& p.count == 1
            &&& region_type_at(regions, p.offset) != RegionType::Code
            &&& v != 0
            &&& base <= v
            &&& v - base < content.len()
            &&& (t == RegionType::Code && p.poi_type == PoiType::FunctionPointer) || (t == RegionType::InitData
                && p.poi_type == PoiType::GenericPointer)
        } by {
            if k >= here.len() {
                assert((here + rest)[k] == rest[k - here.len()]);
            } else {
                let v = word(content, n, endian, cursor);
                assert(vstd::wrapping::u64_specs::wrapping_sub(v, base) == (v - base) as u64);
                assert((here + rest)[k] == here[k]);
            }
        }
    }
}

/// Without a symbol list, every word on the scan's grid that lies outside
/// code, is non-zero, falls in `[base, base + len)` and points into code or
/// initialised data is recorded as a pointer of the matching kind.
pub proof fn lemma_pointer_pois_complete(
    content: Seq<u8>,
    n: nat,
    endian: Endianness,
    regions: Seq<MemRegion>,
    base: u64,
    cursor: int,
    end: int,
    c: int,
)
    requires
        cursor >= 0,
        n > 0,
        end <= u64::MAX,
        cursor <= c < end,
        (c - cursor) % (n as int) == 0,
        region_type_at(regions, c as u64) != RegionType::Code,
        word(content, n, endian, c) != 0,
        base <= word(content, n, endian, c),
        word(content, n, endian, c) - base < content.len(),
        ({
            let t = region_type_at(regions, (word(content, n, endian, c) - base) as u64);
            t == RegionType::Code || t == RegionType::InitData
        }),
    ensures
        exists|k: int|
            0 <= k < pointer_pois(content, n, endian, regions, None, base, cursor, end).len() && {
                let p = #[trigger] pointer_pois(content, n, endian, regions, None, base, cursor, end)[k];
                let t = region_type_at(regions, (word(content, n, endian, c) - base) as u64);
                &&& p.offset == c
                &&& p.count == 1
                &&& p.poi_type == if t == RegionType::Code {
                    PoiType::FunctionPointer
                } else {
                    PoiType::GenericPointer
                }
            },
    decreases c - cursor,
{
    let here = pointer_at(content, n, endian, regions, None, base, cursor);
    let rest = pointer_pois(content, n, endian, regions, None, base, cursor + n, end);
    assert(pointer_pois(content, n, endian, regions, None, base, cursor, end) == here + rest);
    if c == cursor {
        let v = word(content, n, endian, c);
        assert(vstd::wrapping::u64_specs::wrapping_sub(v, base) == (v - base) as u64);
        assert((here + rest)[0] == here[0]);
    } else {
        assert(c >= cursor + n) by {
            assert((c - cursor) % (n as int) == 0);
            if c < cursor + n {
                vstd::arithmetic::div_mod::lemma_small_mod((c - cursor) as nat, n);
            }
        }
        assert((c - (cursor + n)) % (n as int) == 0) by {
            vstd::arithmetic::div_mod::lemma_mod_sub_multiples_vanish(c - cursor, n as int);
        }
        lemma_pointer_pois_complete(content, n, endian, regions, base, cursor + n, end, c);
        let k = choose|k: int|
            0 <= k < rest.len() && {
                let p = #[trigger] rest[k];
                let t = region_type_at(regions, (word(content, n, endian, c) - base) as u64);
                &&& p.offset == c
                &&& p.count == 1
                &&& p.poi_type == if t == RegionType::Code {
                    PoiType::FunctionPointer
                } else {
                    PoiType::GenericPointer
                }
            };
        assert((here + rest)[here.len() + k] == rest[k]);
    }
}

/// A vote tally as the address tree holds it: the vote map, the count an
/// idle tree (one holding no address) carries, and the number of nodes
/// created so far.
pub open spec fn fresh_tally() -> (Map<u64, i32>, Option<i32>, u64) {
    (Map::empty(), Some(1i32), 0u64)
}

/// The tally after one more vote for `a`.
pub open spec fn tally_vote(t: (Map<u64, i32>, Option<i32>, u64), a: u64) -> (
    Map<u64, i32>,
    Option<i32>,
    u64,
) {
    (registered(t.0, a), None, ((t.2 + nodes_needed(t.0, a)) % 0x1_0000_0000_0000_0000) as u64)
}

/// The largest vote count of a tally.
pub open spec fn tally_peak(t: (Map<u64, i32>, Option<i32>, u64)) -> i32 {
    match t.1 {
        Some(v) => v,
        None => peak(t.0),
    }
}

/// The estimated memory footprint of a tally's tree, in 32 bits.
pub open spec fn tally_memsize(t: (Map<u64, i32>, Option<i32>, u64)) -> u64 {
    ((t.2 * NODE_FOOTPRINT) % 0x1_0000_0000) as u64
}

/// The tally keeping only the addresses with at least `th` votes.
pub open spec fn tally_filtered(t: (Map<u64, i32>, Option<i32>, u64), th: i32) -> (
    Map<u64, i32>,
    Option<i32>,
    u64,
) {
    match t.1 {
        Some(_) => t,
        None => (
            at_least(t.0, th),
            if at_least(t.0, th).is_empty() {
                Some(0i32)
            } else {
                None
            },
            t.2,
        ),
    }
}

/// The tally an address tree holds.
pub open spec fn tally_of(t: AddrTree) -> (Map<u64, i32>, Option<i32>, u64) {
    (t@, t.idle_votes(), t.spec_nb_nodes())
}

/// Some string or array POI of `pois` sits at `v - delta`.
pub open spec fn resolves(pois: Seq<Poi>, v: u64, delta: u64) -> bool {
    exists|k: int|
        0 <= k < pois.len() && (pois[k].poi_type == PoiType::String || pois[k].poi_type
            == PoiType::Array) && v == vstd::wrapping::u64_specs::wrapping_add(
            #[trigger] pois[k].offset,
            delta,
        )
}

/// Every array POI of `pois` with elements can be read word by word (`n`
/// bytes each) without its offsets leaving the address space.
pub open spec fn arrays_fit(pois: Seq<Poi>, n: nat) -> bool {
    forall|k: int|
        0 <= k < pois.len() && #[trigger] pois[k].poi_type == PoiType::Array && pois[k].count > 0
            ==> pois[k].offset + pois[k].count * n <= usize::MAX + 1
}

/// Every array POI of `pois` fits (see `arrays_fit`), and its first word
/// can be read, whatever its count.
pub open spec fn arrays_readable(pois: Seq<Poi>, n: nat) -> bool {
    &&& arrays_fit(pois, n)
    &&& forall|k: int|
        0 <= k < pois.len() && #[trigger] pois[k].poi_type == PoiType::Array ==> pois[k].offset + n
            <= usize::MAX + 1
}

/// The first vote-maximal entry of `l` (lowest address on ties when `l` is
/// sorted), or `(0, -1)` for an empty `l`.
pub open spec fn best_vote(l: Seq<(u64, i32)>) -> (u64, i32)
    decreases l.len(),
{
    if l.len() == 0 {
        (0u64, -1i32)
    } else {
        let b = best_vote(l.drop_last());
        if l.last().1 > b.1 {
            l.last()
        } else {
            b
        }
    }
}

/// The entries worth refining: those with more than one vote when some
/// address has more than one, every entry when the top count is one.
pub open spec fn shortlist(l: Seq<(u64, i32)>, max_votes: i32) -> Seq<(u64, i32)>
    decreases l.len(),
{
    if l.len() == 0 {
        seq![]
    } else {
        let r = shortlist(l.drop_last(), max_votes);
        let e = l.last();
        if (max_votes > 1 && e.1 > 1) || max_votes == 1 {
            r.push(e)
        } else {
            r
        }
    }
}

/// `x` inserted into `s` after the last element whose key is at least its
/// own (scanning from the back): one step of a stable sort by decreasing key.
pub open spec fn insert_desc<T>(s: Seq<T>, x: T, key: spec_fn(T) -> int) -> Seq<T>
    decreases s.len(),
{
    if s.len() == 0 || key(s.last()) >= key(x) {
        s.push(x)
    } else {
        insert_desc(s.drop_last(), x, key).push(s.last())
    }
}

/// Stable sort of `s` by decreasing key: elements with equal keys keep
/// their order.
pub open spec fn sort_desc<T>(s: Seq<T>, key: spec_fn(T) -> int) -> Seq<T>
    decreases s.len(),
{
    if s.len() == 0 {
        seq![]
    } else {
        insert_desc(sort_desc(s.drop_last(), key), s.last(), key)
    }
}

/// Number of entries of `c` with at least `t` votes.
pub open spec fn count_from(c: Seq<(u64, i32)>, t: int) -> nat
    decreases c.len(),
{
    if c.len() == 0 {
        0
    } else {
        count_from(c.drop_last(), t) + if c.last().1 >= t {
            1nat
        } else {
            0nat
        }
    }
}

/// Going down from the count threshold `i`, the number of entries with at
/// least that many votes, stopping at the first threshold that keeps
/// `KEEP_TARGET` entries or at zero.
pub open spec fn keep_len(c: Seq<(u64, i32)>, i: int) -> nat
    decreases i,
{
    let k = count_from(c, i);
    if k >= KEEP_TARGET || i <= 0 {
        k
    } else {
        keep_len(c, i - 1)
    }
}

/// The best-scoring candidate of `s` as `(address, score)`: the first one
/// with the highest positive score, or `(u64::MAX, 0)` when none scores.
pub open spec fn best_score(s: Seq<ScoredCandidate>) -> (u64, u64)
    decreases s.len(),
{
    if s.len() == 0 {
        (u64::MAX, 0u64)
    } else {
        let b = best_score(s.drop_last());
        if s.last().score > b.1 {
            (s.last().base_address, s.last().score)
        } else {
            b
        }
    }
}

/// Number of candidates of `s` with a valid array.
pub open spec fn valid_count(s: Seq<ScoredCandidate>) -> nat
    decreases s.len(),
{
    if s.len() == 0 {
        0
    } else {
        valid_count(s.drop_last()) + if s.last().has_valid_array {
            1nat
        } else {
            0nat
        }
    }
}

/// The leaves of a tally's tree: the idle root alone (at address zero), or
/// the votes in increasing address order.
pub open spec fn tally_leaves(t: (Map<u64, i32>, Option<i32>, u64)) -> Seq<(u64, i32)> {
    match t.1 {
        Some(v) => seq![(0u64, v)],
        None => choose|s: Seq<(u64, i32)>| is_listing(t.0, s),
    }
}

/// The sort key of a leaf: its vote count.
pub open spec fn vote_key() -> spec_fn((u64, i32)) -> int {
    |e: (u64, i32)| e.1 as int
}

/// The sort key of a refined candidate: its score.
pub open spec fn score_key() -> spec_fn(ScoredCandidate) -> int {
    |c: ScoredCandidate| c.score as int
}

/// The leaves of a vote tree, as its tally describes them (see
/// `tally_leaves`).
fn tree_leaves(tree: &AddrTree) -> (v: Vec<(u64, i32)>)
    requires
        tree.wf(),
    ensures
        v@ == tally_leaves(tally_of(*tree)),
{
    let v = tree.leaves();
    proof {
        let t = tally_of(*tree);
        if t.1 is None {
            assert(is_listing(t.0, v@));
            let s = choose|s: Seq<(u64, i32)>| is_listing(t.0, s);
            lemma_listing_unique(t.0, s, v@);
        }
    }
    v
}

/// The shortlisted leaves (see `shortlist`).
fn shortlist_of(leaves: &Vec<(u64, i32)>, max_votes: i32) -> (out: Vec<(u64, i32)>)
    ensures
        out@ == shortlist(leaves@, max_votes),
{
    let mut out: Vec<(u64, i32)> = Vec::new();
    let mut i: usize = 0;
    while i < leaves.len()
        invariant
            i <= leaves@.len(),
            out@ == shortlist(leaves@.subrange(0, i as int), max_votes),
        decreases leaves@.len() - i,
    {
        let e = leaves[i];
        proof {
            assert(leaves@.subrange(0, i + 1).drop_last() =~= leaves@.subrange(0, i as int));
        }
        if (max_votes > 1 && e.1 > 1) || max_votes == 1 {
            out.push(e);
        }
        i = i + 1;
    }
    proof {
        assert(leaves@.subrange(0, leaves@.len() as int) =~= leaves@);
    }
    out
}

/// The first vote-maximal leaf (see `best_vote`).
fn best_vote_of(leaves: &Vec<(u64, i32)>) -> (b: (u64, i32))
    ensures
        b == best_vote(leaves@),
{
    let mut best: (u64, i32) = (0, -1);
    let mut i: usize = 0;
    while i < leaves.len()
        invariant
            i <= leaves@.len(),
            best == best_vote(leaves@.subrange(0, i as int)),
        decreases leaves@.len() - i,
    {
        let e = leaves[i];
        proof {
            assert(leaves@.subrange(0, i + 1).drop_last() =~= leaves@.subrange(0, i as int));
        }
        if e.1 > best.1 {
            best = e;
        }
        i = i + 1;
    }
    proof {
        assert(leaves@.subrange(0, leaves@.len() as int) =~= leaves@);
    }
    best
}

/// Stable sort of leaves by decreasing votes (see `sort_desc`).
fn sort_by_votes(v: &Vec<(u64, i32)>) -> (out: Vec<(u64, i32)>)
    ensures
        out@ == sort_desc(v@, vote_key()),
{
    let mut out: Vec<(u64, i32)> = Vec::new();
    let mut i: usize = 0;
    while i < v.len()
        invariant
            i <= v@.len(),
            out@ == sort_desc(v@.subrange(0, i as int), vote_key()),
        decreases v@.len() - i,
    {
        let x = v[i];
        let mut p: usize = out.len();
        proof {
            assert(out@.subrange(0, p as int) =~= out@);
            assert(out@ + out@.subrange(p as int, p as int) =~= out@);
        }
        while p > 0 && out[p - 1].1 < x.1
            invariant
                p <= out@.len(),
                insert_desc(out@, x, vote_key()) == insert_desc(out@.subrange(0, p as int), x, vote_key())
                    + out@.subrange(p as int, out@.len() as int),
            decreases p,
        {
            proof {
                let pre = out@.subrange(0, p as int);
                assert(pre.drop_last() =~= out@.subrange(0, p - 1));
                assert(insert_desc(pre, x, vote_key()) == insert_desc(pre.drop_last(), x, vote_key()).push(
                    pre.last(),
                ));
                assert(insert_desc(pre.drop_last(), x, vote_key()).push(pre.last()) + out@.subrange(
                    p as int,
                    out@.len() as int,
                ) =~= insert_desc(pre.drop_last(), x, vote_key()) + out@.subrange(p - 1, out@.len() as int));
            }
            p = p - 1;
        }
        let ghost before = out@;
        out.insert(p, x);
        proof {
            let pre = before.subrange(0, p as int);
            assert(insert_desc(pre, x, vote_key()) == pre.push(x));
            assert(out@ =~= pre.push(x) + before.subrange(p as int, before.len() as int));
            assert(v@.subrange(0, i + 1).drop_last() =~= v@.subrange(0, i as int));
        }
        i = i + 1;
    }
    proof {
        assert(v@.subrange(0, v@.len() as int) =~= v@);
    }
    out
}

/// Stable sort of refined candidates by decreasing score (see `sort_desc`).
fn sort_by_score(v: &Vec<ScoredCandidate>) -> (out: Vec<ScoredCandidate>)
    ensures
        out@ == sort_desc(v@, score_key()),
{
    let mut out: Vec<ScoredCandidate> = Vec::new();
    let mut i: usize = 0;
    while i < v.len()
        invariant
            i <= v@.len(),
            out@ == sort_desc(v@.subrange(0, i as int), score_key()),
        decreases v@.len() - i,
    {
        let x = v[i];
        let mut p: usize = out.len();
        proof {
            assert(out@.subrange(0, p as int) =~= out@);
            assert(out@ + out@.subrange(p as int, p as int) =~= out@);
        }
        while p > 0 && out[p - 1].score < x.score
            invariant
                p <= out@.len(),
                insert_desc(out@, x, score_key()) == insert_desc(out@.subrange(0, p as int), x, score_key())
                    + out@.subrange(p as int, out@.len() as int),
            decreases p,
        {
            proof {
                let pre = out@.subrange(0, p as int);
                assert(pre.drop_last() =~= out@.subrange(0, p - 1));
                assert(insert_desc(pre, x, score_key()) == insert_desc(pre.drop_last(), x, score_key()).push(
                    pre.last(),
                ));
                assert(insert_desc(pre.drop_last(), x, score_key()).push(pre.last()) + out@.subrange(
                    p as int,
                    out@.len() as int,
                ) =~= insert_desc(pre.drop_last(), x, score_key()) + out@.subrange(p - 1, out@.len() as int));
            }
            p = p - 1;
        }
        let ghost before = out@;
        out.insert(p, x);
        proof {
            let pre = before.subrange(0, p as int);
            assert(insert_desc(pre, x, score_key()) == pre.push(x));
            assert(out@ =~= pre.push(x) + before.subrange(p as int, before.len() as int));
            assert(v@.subrange(0, i + 1).drop_last() =~= v@.subrange(0, i as int));
        }
        i = i + 1;
    }
    proof {
        assert(v@.subrange(0, v@.len() as int) =~= v@);
    }
    out
}

/// Number of entries with at least `t` votes (see `count_from`).
fn count_votes_from(c: &Vec<(u64, i32)>, t: i32) -> (n: usize)
    ensures
        n == count_from(c@, t as int),
{
    let mut n: usize = 0;
    let mut i: usize = 0;
    while i < c.len()
        invariant
            i <= c@.len(),
            n <= i,
            n == count_from(c@.subrange(0, i as int), t as int),
        decreases c@.len() - i,
    {
        proof {
            assert(c@.subrange(0, i + 1).drop_last() =~= c@.subrange(0, i as int));
        }
        if c[i].1 >= t {
            n = n + 1;
        }
        i = i + 1;
    }
    proof {
        assert(c@.subrange(0, c@.len() as int) =~= c@);
    }
    n
}

/// The best-scoring candidate (see `best_score`).
fn best_score_of(s: &Vec<ScoredCandidate>) -> (b: (u64, u64))
    ensures
        b == best_score(s@),
{
    let mut best: (u64, u64) = (u64::MAX, 0);
    let mut i: usize = 0;
    while i < s.len()
        invariant
            i <= s@.len(),
            best == best_score(s@.subrange(0, i as int)),
        decreases s@.len() - i,
    {
        let e = s[i];
        proof {
            assert(s@.subrange(0, i + 1).drop_last() =~= s@.subrange(0, i as int));
        }
        if e.score > best.1 {
            best = (e.base_address, e.score);
        }
        i = i + 1;
    }
    proof {
        assert(s@.subrange(0, s@.len() as int) =~= s@);
    }
    best
}

/// Number of candidates with a valid array, and the address of the first
/// one (`None` when there is none).
fn valid_arrays_of(s: &Vec<ScoredCandidate>) -> (r: (usize, Option<u64>))
    ensures
        r.0 == valid_count(s@),
        r.1 == first_valid(s@),
{
    let mut n: usize = 0;
    let mut first: Option<u64> = None;
    let mut i: usize = 0;
    while i < s.len()
        invariant
            i <= s@.len(),
            n <= i,
            n == valid_count(s@.subrange(0, i as int)),
            first == first_valid(s@.subrange(0, i as int)),
        decreases s@.len() - i,
    {
        let e = s[i];
        proof {
            let pre = s@.subrange(0, i + 1);
            assert(pre.drop_last() =~= s@.subrange(0, i as int));
            lemma_first_valid_push(s@.subrange(0, i as int), e);
            assert(pre =~= s@.subrange(0, i as int).push(e));
        }
        if e.has_valid_array {
            n = n + 1;
            if first.is_none() {
                first = Some(e.base_address);
            }
        }
        i = i + 1;
    }
    proof {
        assert(s@.subrange(0, s@.len() as int) =~= s@);
    }
    (n, first)
}

/// The address of the first candidate of `s` with a valid array.
pub open spec fn first_valid(s: Seq<ScoredCandidate>) -> Option<u64>
    decreases s.len(),
{
    if s.len() == 0 {
        None
    } else if s[0].has_valid_array {
        Some(s[0].base_address)
    } else {
        first_valid(s.drop_first())
    }
}

/// Appending a candidate changes the first valid one only where there was
/// none yet.
proof fn lemma_first_valid_push(s: Seq<ScoredCandidate>, e: ScoredCandidate)
    ensures
        first_valid(s.push(e)) == match first_valid(s) {
            Some(a) => Some(a),
            None => if e.has_valid_array {
                Some(e.base_address)
            } else {
                None
            },
        },
    decreases s.len(),
{
    if s.len() > 0 {
        assert(s.push(e)[0] == s[0]);
        assert(s.push(e).drop_first() =~= s.drop_first().push(e));
        lemma_first_valid_push(s.drop_first(), e);
    } else {
        assert(s.push(e).drop_first() =~= Seq::<ScoredCandidate>::empty());
        assert(first_valid(s) is None);
        assert(s.push(e)[0] == e);
        assert(first_valid(Seq::<ScoredCandidate>::empty()) is None);
    }
}

/// Counting entries never exceeds the length.
proof fn lemma_count_from_bound(c: Seq<(u64, i32)>, t: int)
    ensures
        count_from(c, t) <= c.len(),
    decreases c.len(),
{
    if c.len() > 0 {
        lemma_count_from_bound(c.drop_last(), t);
    }
}

/// The kept count never exceeds the number of candidates.
proof fn lemma_keep_len_bound(c: Seq<(u64, i32)>, i: int)
    ensures
        keep_len(c, i) <= c.len(),
    decreases i,
{
    lemma_count_from_bound(c, i);
    if i > 0 && count_from(c, i) < KEEP_TARGET {
        lemma_keep_len_bound(c, i - 1);
    }
}

/// Every array the value scan records lies on words of the image: its
/// offset and all of its steps stay below `end`.
pub proof fn lemma_value_arrays_fit(
    content: Seq<u8>,
    n: nat,
    endian: Endianness,
    all_ones: u64,
    cursor: int,
    end: int,
    in_array: bool,
    start: u64,
    count: i32,
    prev: u64,
)
    requires
        n >= 1,
        cursor >= 0,
        in_array ==> start + count * n <= cursor && start + n <= cursor,
    ensures
        forall|k: int|
            0 <= k < value_arrays(content, n, endian, all_ones, cursor, end, in_array, start, count, prev).len()
                ==> {
                let p = #[trigger] value_arrays(
                    content,
                    n,
                    endian,
                    all_ones,
                    cursor,
                    end,
                    in_array,
                    start,
                    count,
                    prev,
                )[k];
                &&& p.poi_type == PoiType::Array
                &&& p.offset + p.count * n <= end
                &&& p.offset + n <= end
            },
    decreases end + n - cursor,
{
    if cursor < end {
        let value = word(content, n, endian, cursor);
        if !in_array {
            if value != 0 && value != all_ones {
                lemma_value_arrays_fit(content, n, endian, all_ones, cursor + n, end, true, cursor as u64, 1, value);
            } else {
                lemma_value_arrays_fit(content, n, endian, all_ones, cursor + n, end, false, start, count, value);
            }
        } else if delta_abs(value, prev) > 0x1000 {
            lemma_value_arrays_fit(content, n, endian, all_ones, cursor + n, end, false, start, 0, value);
            let here = if count > 9 {
                seq![plain_poi(start, count, PoiType::Array)]
            } else {
                seq![]
            };
            let rest = value_arrays(content, n, endian, all_ones, cursor + n, end, false, start, 0, value);
            assert forall|k: int| 0 <= k < (here + rest).len() implies {
                let p = #[trigger] (here + rest)[k];
                &&& p.poi_type == PoiType::Array
                &&& p.offset + p.count * n <= end
                &&& p.offset + n <= end
            } by {
                if k >= here.len() {
                    assert((here + rest)[k] == rest[k - here.len()]);
                }
            }
        } else {
            assert(start + bump(count) * n <= cursor + n) by (nonlinear_arith)
                requires
                    start + count * n <= cursor,
                    bump(count) == count + 1 || bump(count) < 0,
                    n >= 1,
            ;
            lemma_value_arrays_fit(content, n, endian, all_ones, cursor + n, end, true, start, bump(count), value);
        }
    }
}

/// Function POIs added to a list leave its arrays as they were.
pub proof fn lemma_with_functions_fit(items: Seq<Poi>, addrs: Seq<u64>, n: nat)
    requires
        arrays_readable(items, n),
    ensures
        arrays_readable(with_functions(items, addrs), n),
    decreases addrs.len(),
{
    if addrs.len() > 0 {
        lemma_with_functions_fit(items, addrs.drop_last(), n);
    }
}

/// A list of POIs that are all strings or arrays lying on words of the
/// image has every array fit.
pub proof fn lemma_index_fit(setup: SearchSetup, items: Seq<Poi>, include_strings: bool)
    requires
        arrays_readable(items, setup.psize()),
        setup.spec_content().len() <= usize::MAX,
    ensures
        arrays_readable(setup.poi_index(items, include_strings), setup.psize()),
{
    let n = setup.psize();
    let content = setup.spec_content();
    let strings = crate::poi::string_runs(content, STR_MIN_SIZE as int, 0, None);
    crate::poi::lemma_string_runs_kind(content, STR_MIN_SIZE as int, 0, None);
    lemma_value_arrays_fit(
        content,
        n,
        setup.spec_endian(),
        setup.spec_arch().spec_max_value() as u64,
        0,
        content.len() - n,
        false,
        0,
        0,
        0,
    );
    let with_strings = if include_strings {
        items + strings
    } else {
        items
    };
    assert(arrays_readable(with_strings, n)) by {
        assert forall|k: int| 0 <= k < with_strings.len() && #[trigger] with_strings[k].poi_type == PoiType::Array implies {
            &&& with_strings[k].count > 0 ==> with_strings[k].offset + with_strings[k].count * n <= usize::MAX + 1
            &&& with_strings[k].offset + n <= usize::MAX + 1
        } by {
            if include_strings && k >= items.len() {
                assert(with_strings[k] == strings[k - items.len()]);
            } else {
                assert(with_strings[k] == items[k]);
            }
        }
    }
    let arrays = value_arrays(
        content,
        n,
        setup.spec_endian(),
        setup.spec_arch().spec_max_value() as u64,
        0,
        content.len() - n,
        false,
        0,
        0,
        0,
    );
    let all = with_strings + arrays;
    assert forall|k: int| 0 <= k < all.len() && #[trigger] all[k].poi_type == PoiType::Array implies {
        &&& all[k].count > 0 ==> all[k].offset + all[k].count * n <= usize::MAX + 1
        &&& all[k].offset + n <= usize::MAX + 1
    } by {
        if k >= with_strings.len() {
            assert(all[k] == arrays[k - with_strings.len()]);
        } else {
            assert(all[k] == with_strings[k]);
        }
    }
}

/// `s` is ordered by non-increasing key.
pub open spec fn sorted_desc<T>(s: Seq<T>, key: spec_fn(T) -> int) -> bool {
    forall|i: int, j: int| 0 <= i < j < s.len() ==> key(s[i]) >= key(s[j])
}

/// Inserting keeps every element at or above a common bound.
proof fn lemma_insert_desc_bound<T>(s: Seq<T>, x: T, key: spec_fn(T) -> int, b: int)
    requires
        key(x) >= b,
        forall|i: int| 0 <= i < s.len() ==> key(#[trigger] s[i]) >= b,
    ensures
        insert_desc(s, x, key).len() == s.len() + 1,
        forall|i: int| 0 <= i < insert_desc(s, x, key).len() ==> key(#[trigger] insert_desc(s, x, key)[i]) >= b,
    decreases s.len(),
{
    if !(s.len() == 0 || key(s.last()) >= key(x)) {
        lemma_insert_desc_bound(s.drop_last(), x, key, b);
    }
}

/// Inserting into a list ordered by non-increasing key keeps it ordered.
proof fn lemma_insert_desc_sorted<T>(s: Seq<T>, x: T, key: spec_fn(T) -> int)
    requires
        sorted_desc(s, key),
    ensures
        sorted_desc(insert_desc(s, x, key), key),
        insert_desc(s, x, key).len() == s.len() + 1,
    decreases s.len(),
{
    if s.len() == 0 || key(s.last()) >= key(x) {
        let r = s.push(x);
        assert forall|i: int, j: int| 0 <= i < j < r.len() implies key(r[i]) >= key(r[j]) by {
            if j == s.len() {
                assert(r[i] == s[i]);
                if i < s.len() - 1 {
                    assert(key(s[i]) >= key(s[s.len() - 1]));
                }
            } else {
                assert(r[i] == s[i] && r[j] == s[j]);
            }
        }
    } else {
        let d = s.drop_last();
        let l = s.last();
        assert(sorted_desc(d, key)) by {
            assert forall|i: int, j: int| 0 <= i < j < d.len() implies key(d[i]) >= key(d[j]) by {
                assert(d[i] == s[i] && d[j] == s[j]);
            }
        }
        lemma_insert_desc_sorted(d, x, key);
        assert forall|i: int| 0 <= i < d.len() implies key(#[trigger] d[i]) >= key(l) by {
            assert(d[i] == s[i]);
        }
        lemma_insert_desc_bound(d, x, key, key(l));
        let inner = insert_desc(d, x, key);
        let r = inner.push(l);
        assert forall|i: int, j: int| 0 <= i < j < r.len() implies key(r[i]) >= key(r[j]) by {
            if j == inner.len() {
                assert(r[i] == inner[i]);
            } else {
                assert(r[i] == inner[i] && r[j] == inner[j]);
            }
        }
    }
}

/// A stable sort by decreasing key orders its result by non-increasing key
/// and keeps its length.
pub proof fn lemma_sort_desc_sorted<T>(s: Seq<T>, key: spec_fn(T) -> int)
    ensures
        sorted_desc(sort_desc(s, key), key),
        sort_desc(s, key).len() == s.len(),
    decreases s.len(),
{
    if s.len() > 0 {
        lemma_sort_desc_sorted(s.drop_last(), key);
        lemma_insert_desc_sorted(sort_desc(s.drop_last(), key), s.last(), key);
    }
}

/// The refined candidates of a search come by non-increasing score.
pub proof fn lemma_candidates_ranked(setup: SearchSetup, pois: Seq<Poi>, res: BaseAddressResult)
    requires
        setup.describes(pois, res),
    ensures
        forall|i: int, j: int|
            0 <= i < j < res.candidates@.len() ==> res.candidates@[i].score >= res.candidates@[j].score,
{
    lemma_sort_desc_sorted(setup.scored_candidates(pois), score_key());
    assert forall|i: int, j: int| 0 <= i < j < res.candidates@.len() implies res.candidates@[i].score
        >= res.candidates@[j].score by {
        assert(score_key()(res.candidates@[i]) >= score_key()(res.candidates@[j]));
    }
}

/// The 32-bit step between two words does not depend on their order.
pub proof fn lemma_delta_abs_symmetric(value: u64, prev: u64)
    ensures
        delta_abs(value, prev) == delta_abs(prev, value),
{
    let a = vstd::wrapping::u64_specs::wrapping_sub(value, prev) as int;
    let b = vstd::wrapping::u64_specs::wrapping_sub(prev, value) as int;
    assert(a + b == 0 || a + b == 0x1_0000_0000_0000_0000);
    let la = a % 0x1_0000_0000;
    let lb = b % 0x1_0000_0000;
    assert(la + lb == 0 || la + lb == 0x1_0000_0000) by (nonlinear_arith)
        requires
            a + b == 0 || a + b == 0x1_0000_0000_0000_0000,
            0 <= a,
            0 <= b,
            la == a % 0x1_0000_0000,
            lb == b % 0x1_0000_0000,
    ;
}

/// A list with a valid candidate has a first one.
proof fn lemma_first_valid_some(s: Seq<ScoredCandidate>)
    requires
        valid_count(s) >= 1,
    ensures
        first_valid(s) is Some,
    decreases s.len(),
{
    if s.len() > 0 && !s[0].has_valid_array {
        lemma_valid_count_front(s);
        lemma_first_valid_some(s.drop_first());
    }
}

/// Counting valid candidates from the front.
proof fn lemma_valid_count_front(s: Seq<ScoredCandidate>)
    requires
        s.len() > 0,
    ensures
        valid_count(s) == valid_count(s.drop_first()) + if s[0].has_valid_array {
            1nat
        } else {
            0nat
        },
    decreases s.len(),
{
    if s.len() > 1 {
        lemma_valid_count_front(s.drop_last());
        assert(s.drop_last().drop_first() =~= s.drop_first().drop_last());
    } else {
        assert(s.drop_first() =~= Seq::<ScoredCandidate>::empty());
        assert(s.drop_last() =~= Seq::<ScoredCandidate>::empty());
    }
}

/// The list after adding, in turn, a function POI at each address of
/// `addrs` that no POI of the list sits at yet.
pub open spec fn with_functions(items: Seq<Poi>, addrs: Seq<u64>) -> Seq<Poi>
    decreases addrs.len(),
{
    if addrs.len() == 0 {
        items
    } else {
        let prev = with_functions(items, addrs.drop_last());
        let a = addrs.last();
        if exists|i: int| 0 <= i < prev.len() && #[trigger] prev[i].offset == a {
            prev
        } else {
            prev.push(plain_poi(a, -1i32, PoiType::Function))
        }
    }
}

/// The decision from the best-voted leaf `bv` and the refined candidates
/// `scored`: base address, confidence, reason, and the address to leave
/// out of further candidates. A single candidate with a valid array wins;
/// otherwise the best vote when the best score agrees; otherwise the best
/// score (not sure); otherwise, when nothing scored, the best vote (not
/// sure, and left among the further candidates).
pub open spec fn decide(bv: (u64, i32), scored: Seq<ScoredCandidate>) -> (u64, bool, FoundReason, Option<u64>) {
    let bs = best_score(scored);
    if valid_count(scored) == 1 {
        let a = first_valid(scored)->0;
        (a, true, FoundReason::ValidArray, Some(a))
    } else if bv.0 == bs.0 {
        (bv.0, true, FoundReason::BestMatchAgrees, Some(bv.0))
    } else if bs.0 != u64::MAX {
        (bs.0, false, FoundReason::Score, Some(bs.0))
    } else {
        (bv.0, false, FoundReason::Fallback, None)
    }
}

/// Exactly one candidate of `s` has a valid array.
pub open spec fn one_valid(s: Seq<ScoredCandidate>) -> bool {
    exists|i: int|
        0 <= i < s.len() && #[trigger] s[i].has_valid_array && forall|j: int|
            0 <= j < s.len() && j != i ==> !#[trigger] s[j].has_valid_array
}

/// A candidate at address `a` scores positively, and no candidate of `s`
/// scores more.
pub open spec fn top_scoring(s: Seq<ScoredCandidate>, a: u64) -> bool {
    exists|i: int|
        0 <= i < s.len() && #[trigger] s[i].base_address == a && s[i].score > 0 && forall|j: int|
            0 <= j < s.len() ==> #[trigger] s[j].score <= s[i].score
}

/// Counting valid arrays: none exactly when no candidate has one.
proof fn lemma_valid_count_zero(s: Seq<ScoredCandidate>)
    ensures
        valid_count(s) == 0 <==> forall|j: int| 0 <= j < s.len() ==> !#[trigger] s[j].has_valid_array,
    decreases s.len(),
{
    if s.len() > 0 {
        let r = s.drop_last();
        lemma_valid_count_zero(r);
        if valid_count(s) == 0 {
            assert forall|j: int| 0 <= j < s.len() implies !#[trigger] s[j].has_valid_array by {
                if j < r.len() {
                    assert(s[j] == r[j]);
                }
            }
        }
        if forall|j: int| 0 <= j < s.len() ==> !#[trigger] s[j].has_valid_array {
            assert forall|j: int| 0 <= j < r.len() implies !#[trigger] r[j].has_valid_array by {
                assert(s[j] == r[j]);
            }
            assert(!s[s.len() - 1].has_valid_array);
        }
    }
}

/// Counting valid arrays: one exactly when a single candidate has one.
proof fn lemma_valid_count_one(s: Seq<ScoredCandidate>)
    ensures
        valid_count(s) == 1 <==> one_valid(s),
    decreases s.len(),
{
    if s.len() > 0 {
        let r = s.drop_last();
        let l = s.len() - 1;
        lemma_valid_count_one(r);
        lemma_valid_count_zero(r);
        assert forall|j: int| 0 <= j < r.len() implies #[trigger] r[j] == s[j] by {}
        if valid_count(s) == 1 {
            if s[l].has_valid_array {
                assert forall|j: int| 0 <= j < s.len() && j != l implies !#[trigger] s[j].has_valid_array by {
                    assert(s[j] == r[j]);
                }
            } else {
                let i = choose|i: int|
                    0 <= i < r.len() && #[trigger] r[i].has_valid_array && forall|j: int|
                        0 <= j < r.len() && j != i ==> !#[trigger] r[j].has_valid_array;
                assert(s[i] == r[i]);
                assert forall|j: int| 0 <= j < s.len() && j != i implies !#[trigger] s[j].has_valid_array by {
                    if j < l {
                        assert(s[j] == r[j]);
                    }
                }
            }
            assert(one_valid(s));
        }
        if one_valid(s) {
            let i = choose|i: int|
                0 <= i < s.len() && #[trigger] s[i].has_valid_array && forall|j: int|
                    0 <= j < s.len() && j != i ==> !#[trigger] s[j].has_valid_array;
            if i == l {
                assert forall|j: int| 0 <= j < r.len() implies !#[trigger] r[j].has_valid_array by {
                    assert(s[j] == r[j]);
                }
            } else {
                assert(!s[l].has_valid_array);
                assert(r[i] == s[i]);
                assert forall|j: int| 0 <= j < r.len() && j != i implies !#[trigger] r[j].has_valid_array by {
                    assert(s[j] == r[j]);
                }
                assert(one_valid(r));
            }
        }
    }
}

/// The single valid candidate is the first valid one.
proof fn lemma_first_valid_one(s: Seq<ScoredCandidate>, i: int)
    requires
        0 <= i < s.len(),
        s[i].has_valid_array,
        forall|j: int| 0 <= j < s.len() && j != i ==> !#[trigger] s[j].has_valid_array,
    ensures
        first_valid(s) == Some(s[i].base_address),
    decreases s.len(),
{
    if i > 0 {
        let r = s.drop_first();
        assert(!s[0].has_valid_array);
        assert(r[i - 1] == s[i]);
        assert forall|j: int| 0 <= j < r.len() && j != i - 1 implies !#[trigger] r[j].has_valid_array by {
            assert(s[j + 1] == r[j]);
        }
        lemma_first_valid_one(r, i - 1);
    }
}

/// The best score is the highest score of `s`, held by a candidate at the
/// returned address; without a positive score it is `(u64::MAX, 0)`.
proof fn lemma_best_score_max(s: Seq<ScoredCandidate>)
    ensures
        forall|j: int| 0 <= j < s.len() ==> #[trigger] s[j].score <= best_score(s).1,
        best_score(s).1 == 0 ==> best_score(s).0 == u64::MAX,
        best_score(s).1 > 0 ==> exists|i: int|
            0 <= i < s.len() && #[trigger] s[i].base_address == best_score(s).0 && s[i].score == best_score(s).1,
    decreases s.len(),
{
    if s.len() > 0 {
        let r = s.drop_last();
        lemma_best_score_max(r);
        assert forall|j: int| 0 <= j < s.len() implies #[trigger] s[j].score <= best_score(s).1 by {
            if j < r.len() {
                assert(s[j] == r[j]);
            }
        }
        if best_score(s).1 > 0 && best_score(s) == best_score(r) {
            let i = choose|i: int|
                0 <= i < r.len() && #[trigger] r[i].base_address == best_score(r).0 && r[i].score == best_score(r).1;
            assert(s[i] == r[i]);
        }
        if best_score(s) != best_score(r) {
            assert(s[s.len() - 1] == s.last());
        }
    }
}

/// How a base address is decided among the refined candidates: with
/// exactly one valid array its candidate wins (confidently); otherwise the
/// best-voted address is kept confidently when it is a top-scoring
/// candidate, a top-scoring candidate wins with low confidence when some
/// candidate scores positively, and the best-voted address is the fallback
/// when none does. Every answer but the fallback is excluded from the
/// further candidates.
pub proof fn lemma_decide_reasons(bv: (u64, i32), s: Seq<ScoredCandidate>)
    ensures
        ({
            let r = decide(bv, s);
            &&& (r.2 == FoundReason::ValidArray) <==> one_valid(s)
            &&& r.2 == FoundReason::ValidArray ==> r.1 && r.3 == Some(r.0) && exists|i: int|
                0 <= i < s.len() && #[trigger] s[i].has_valid_array && s[i].base_address == r.0
            &&& r.2 == FoundReason::BestMatchAgrees ==> r.1 && r.0 == bv.0 && r.3 == Some(r.0) && (top_scoring(s, r.0)
                || (r.0 == u64::MAX && forall|j: int| 0 <= j < s.len() ==> #[trigger] s[j].score == 0))
            &&& r.2 == FoundReason::Score ==> !r.1 && r.0 != bv.0 && r.3 == Some(r.0) && top_scoring(s, r.0)
            &&& r.2 == FoundReason::Fallback ==> !r.1 && r.0 == bv.0 && r.3 is None && ((forall|j: int|
                0 <= j < s.len() ==> #[trigger] s[j].score == 0) || top_scoring(s, u64::MAX))
        }),
{
    lemma_valid_count_one(s);
    lemma_best_score_max(s);
    let bs = best_score(s);
    if valid_count(s) == 1 {
        let i = choose|i: int|
            0 <= i < s.len() && #[trigger] s[i].has_valid_array && forall|j: int|
                0 <= j < s.len() && j != i ==> !#[trigger] s[j].has_valid_array;
        lemma_first_valid_one(s, i);
    }
    if bs.1 > 0 {
        let i = choose|i: int| 0 <= i < s.len() && #[trigger] s[i].base_address == bs.0 && s[i].score == bs.1;
        assert(top_scoring(s, bs.0));
    } else {
        assert forall|j: int| 0 <= j < s.len() implies #[trigger] s[j].score == 0 by {}
    }
}

/// What a search keeps after voting: the candidates to refine (address and
/// votes, by decreasing votes), the best-voted leaf, and the number of
/// candidate addresses that received votes.
pub struct Shortlist {
    pub kept: Vec<(u64, i32)>,
    pub best_vote: (u64, i32),
    pub num_tested: usize,
}

/// Why a base address was selected.
#[derive(Clone, Copy, PartialEq, Eq, Debug, Structural)]
pub enum FoundReason {
    /// Exactly one candidate had an array of pointers resolving to POIs.
    ValidArray,
    /// The best-vote candidate and the best-score candidate agree.
    BestMatchAgrees,
    /// Selected from the refinement score (lower confidence).
    Score,
    /// Nothing scored; the best-vote candidate (lowest confidence).
    Fallback,
}

/// A refined candidate base address and its metrics.
#[derive(Clone, Copy, Debug)]
pub struct ScoredCandidate {
    pub base_address: u64,
    pub votes: i32,
    pub score: u64,
    pub has_valid_array: bool,
}

/// Outcome of a base-address search.
#[derive(Clone, Debug)]
pub struct BaseAddressResult {
    /// The chosen base address.
    pub base_address: u64,
    /// `true` for "base address found", `false` for "seems to be".
    pub confident: bool,
    /// Why this address was chosen.
    pub reason: FoundReason,
    /// Number of distinct candidate addresses that received votes.
    pub num_base_addresses_tested: usize,
    /// Refined candidates, by decreasing score (ties in refinement order).
    pub candidates: Vec<ScoredCandidate>,
    /// Address to leave out of a list of further candidates (`None` in the
    /// fallback case).
    pub more_exclude: Option<u64>,
}

/// Up to `limit` candidates of `c`, in order, with a positive score and an
/// address other than `exclude`.
pub open spec fn further(c: Seq<ScoredCandidate>, exclude: Option<u64>, limit: nat) -> Seq<ScoredCandidate>
    decreases c.len(),
{
    if limit == 0 || c.len() == 0 {
        seq![]
    } else if Some(c[0].base_address) != exclude && c[0].score > 0 {
        seq![c[0]] + further(c.drop_first(), exclude, (limit - 1) as nat)
    } else {
        further(c.drop_first(), exclude, limit)
    }
}

impl BaseAddressResult {
    /// Further base addresses worth reporting: the first thirty ranked
    /// candidates with a positive score, the chosen address left out
    /// (see `more_exclude`).
    pub fn more_candidates(&self) -> (v: Vec<ScoredCandidate>)
        ensures
            v@ == further(self.candidates@, self.more_exclude, 30),
    {
        let mut v: Vec<ScoredCandidate> = Vec::new();
        let n = self.candidates.len();
        let mut i: usize = 0;
        proof {
            assert(self.candidates@.subrange(0, n as int) =~= self.candidates@);
            assert(v@ + further(self.candidates@, self.more_exclude, 30) =~= further(
                self.candidates@,
                self.more_exclude,
                30,
            ));
        }
        while i < n && v.len() < 30
            invariant
                n == self.candidates@.len(),
                i <= n,
                v@.len() <= 30,
                further(self.candidates@, self.more_exclude, 30) == v@ + further(
                    self.candidates@.subrange(i as int, n as int),
                    self.more_exclude,
                    (30 - v@.len()) as nat,
                ),
            decreases n - i,
        {
            let c = self.candidates[i];
            let ghost rest = self.candidates@.subrange(i as int, n as int);
            proof {
                assert(rest[0] == c);
                assert(rest.drop_first() =~= self.candidates@.subrange(i + 1, n as int));
            }
            let keep = match self.more_exclude {
                Some(x) => c.base_address != x,
                None => true,
            } && c.score > 0;
            if keep {
                let ghost before = v@;
                v.push(c);
                proof {
                    assert(before + (seq![c] + further(rest.drop_first(), self.more_exclude, (30 - before.len() - 1) as nat))
                        =~= v@ + further(rest.drop_first(), self.more_exclude, (30 - v@.len()) as nat));
                }
            }
            i = i + 1;
        }
        proof {
            let rest = self.candidates@.subrange(i as int, n as int);
            if i >= n {
                assert(rest.len() == 0);
            }
            assert(further(rest, self.more_exclude, (30 - v@.len()) as nat) =~= Seq::<ScoredCandidate>::empty());
            assert(v@ + Seq::<ScoredCandidate>::empty() =~= v@);
        }
        v
    }
}

/// Recovers the base address of a firmware image.
pub struct BaseAddressFinder<'a> {
    content: &'a [u8],
    reader: PointerReader,
    arch: Arch,
    memory: &'a MemoryMap,
    alignment_mask: u64,
    deep: bool,
    nb_threads: usize,
    ptr_aligned: bool,
    symbols: Option<&'a PoiList>,
    logger: Logger,
}

/// What a base-address search works on: the image, how it is read, its
/// memory map and the search options.
pub struct SearchSetup {
    pub content: Seq<u8>,
    pub arch: Arch,
    pub endian: Endianness,
    pub regions: Seq<MemRegion>,
    pub alignment_mask: u64,
    pub deep: bool,
    pub ptr_aligned: bool,
    pub symbols: Option<Seq<Poi>>,
}

impl SearchSetup {
    /// The firmware bytes.
    pub open spec fn spec_content(&self) -> Seq<u8> {
        self.content
    }

    /// The target architecture.
    pub open spec fn spec_arch(&self) -> Arch {
        self.arch
    }

    /// The byte order words are read with.
    pub open spec fn spec_endian(&self) -> Endianness {
        self.endian
    }

    /// The classified memory regions.
    pub open spec fn spec_regions(&self) -> Seq<MemRegion> {
        self.regions
    }

    /// Mask of the low bits a candidate base address must share with a POI.
    pub open spec fn spec_alignment_mask(&self) -> u64 {
        self.alignment_mask
    }

    /// Whether every candidate is refined.
    pub open spec fn spec_deep(&self) -> bool {
        self.deep
    }

    /// Whether candidate pointers must be aligned to the pointer size.
    pub open spec fn spec_ptr_aligned(&self) -> bool {
        self.ptr_aligned
    }

    /// The known symbols, if any.
    pub open spec fn spec_symbols(&self) -> Option<Seq<Poi>> {
        self.symbols
    }

    /// Pointer size in bytes.
    pub open spec fn psize(&self) -> nat {
        self.arch.spec_pointer_size()
    }

    /// The word at `off`, read with the search's byte order.
    pub open spec fn word_at(&self, off: int) -> u64 {
        word(self.content, self.psize(), self.endian, off)
    }


    /// The list after appending strings (when asked) and value arrays.
    pub open spec fn poi_index(&self, items: Seq<Poi>, include_strings: bool) -> Seq<Poi> {
        let with_strings = if include_strings {
            items + crate::poi::string_runs(self.spec_content(), STR_MIN_SIZE as int, 0, None)
        } else {
            items
        };
        with_strings + value_arrays(
            self.spec_content(),
            self.psize(),
            self.spec_endian(),
            self.spec_arch().spec_max_value() as u64,
            0,
            self.spec_content().len() - self.psize(),
            false,
            0,
            0,
            0,
        )
    }


    /// The base address a word at `cursor` votes for on behalf of `poi`, if
    /// any: the word must share the alignment bits of the POI, not read as
    /// text, pass the optional alignment check, come from a POI of the
    /// wanted kind (strings when there are strings, functions otherwise), lie
    /// at or above the POI, and leave room for the whole image above the
    /// base it implies.
    pub open spec fn vote_of(&self, poi: Poi, has_str: bool, cursor: int) -> Option<u64> {
        let v = self.word_at(cursor);
        let mask = self.spec_alignment_mask();
        let want = (has_str && poi.poi_type == PoiType::String) || (!has_str && poi.poi_type
            == PoiType::Function);
        if (v & mask) == (poi.offset & mask) && !all_printable(v, self.psize()) && (
        !self.spec_ptr_aligned() || v % (self.psize() as u64) == 0) && want && v >= poi.offset {
            let delta = (v - poi.offset) as u64;
            let freespace = vstd::wrapping::u64_specs::wrapping_add(
                vstd::wrapping::u64_specs::wrapping_sub(
                    self.spec_arch().spec_max_value() as u64,
                    delta,
                ),
                1,
            );
            if freespace >= self.spec_content().len() {
                Some(delta)
            } else {
                None
            }
        } else {
            None
        }
    }


    /// The tally after the votes of `poi` from the words at `cursor`,
    /// `cursor + n`, ... up to the end of the image.
    pub open spec fn poi_tally(
        &self,
        t: (Map<u64, i32>, Option<i32>, u64),
        poi: Poi,
        has_str: bool,
        cursor: int,
    ) -> (Map<u64, i32>, Option<i32>, u64)
        decreases self.spec_content().len() + self.psize() - cursor,
    {
        if cursor < 0 || cursor >= self.spec_content().len() || self.psize() == 0 {
            t
        } else {
            let next = match self.vote_of(poi, has_str, cursor) {
                Some(d) => tally_vote(t, d),
                None => t,
            };
            self.poi_tally(next, poi, has_str, cursor + self.psize())
        }
    }


    /// The tally after the votes of every POI of `pois` in turn; after each
    /// POI, a tree grown past `MAX_MEM_AMOUNT` keeps only the addresses
    /// with at least half the top count.
    pub open spec fn vote_tally(&self, pois: Seq<Poi>, has_str: bool) -> (
        Map<u64, i32>,
        Option<i32>,
        u64,
    )
        decreases pois.len(),
    {
        if pois.len() == 0 {
            fresh_tally()
        } else {
            let t = self.poi_tally(self.vote_tally(pois.drop_last(), has_str), pois.last(), has_str, 0);
            if tally_memsize(t) > MAX_MEM_AMOUNT {
                tally_filtered(t, (tally_peak(t) / 2) as i32)
            } else {
                t
            }
        }
    }


    /// The distinct words among the first `k` words of the array `poi` that
    /// point, for base `delta`, at a string or array POI of `pois`.
    pub open spec fn array_targets(&self, pois: Seq<Poi>, poi: Poi, delta: u64, k: int) -> Set<u64> {
        Set::new(
            |v: u64|
                exists|j: int|
                    0 <= j < k && v == #[trigger] self.word_at(poi.offset + j * self.psize())
                        && resolves(pois, v, delta),
        )
    }


    /// What the array `poi` adds to the array score of base `delta`: the
    /// number of its distinct resolving words, at least one.
    pub open spec fn array_hits(&self, pois: Seq<Poi>, poi: Poi, delta: u64) -> nat {
        let c = self.array_targets(pois, poi, delta, poi.count as int).len();
        if c >= 1 {
            c
        } else {
            1
        }
    }


    /// The array score of base `delta` over the first `k` POIs: one plus
    /// the hits of each array POI, in 32-bit arithmetic.
    pub open spec fn array_score(&self, pois: Seq<Poi>, delta: u64, k: int) -> u32
        decreases k,
    {
        if k <= 0 {
            1
        } else {
            let prev = self.array_score(pois, delta, k - 1);
            if pois[k - 1].poi_type == PoiType::Array {
                vstd::wrapping::u32_specs::wrapping_add(
                    prev,
                    self.array_hits(pois, pois[k - 1], delta) as u32,
                )
            } else {
                prev
            }
        }
    }


    /// Whether one of the first `k` POIs is an array of at least ten words
    /// of which at least a third resolve for base `delta`.
    pub open spec fn valid_array_in(&self, pois: Seq<Poi>, delta: u64, k: int) -> bool {
        exists|i: int|
            0 <= i < k && #[trigger] pois[i].poi_type == PoiType::Array && pois[i].count >= 10
                && self.array_hits(pois, pois[i], delta) >= pois[i].count / 3
    }


    /// The refinement of candidate `c` (address and votes): its score is
    /// the number of plausible pointers for that base times its votes times
    /// its array score, in 32-bit arithmetic.
    pub open spec fn scored(&self, pois: Seq<Poi>, c: (u64, i32)) -> ScoredCandidate {
        let npointers = pointer_pois(
            self.spec_content(),
            self.psize(),
            self.spec_endian(),
            self.spec_regions(),
            self.spec_symbols(),
            c.0,
            0,
            self.spec_content().len() - self.psize(),
        ).len();
        ScoredCandidate {
            base_address: c.0,
            votes: c.1,
            score: vstd::wrapping::u32_specs::wrapping_mul(
                vstd::wrapping::u32_specs::wrapping_mul(npointers as u32, c.1 as u32),
                self.array_score(pois, c.0, pois.len() as int),
            ) as u64,
            has_valid_array: self.valid_array_in(pois, c.0, pois.len() as int),
        }
    }


    /// Whether some POI of `pois` is a string.
    pub open spec fn has_strings(pois: Seq<Poi>) -> bool {
        exists|k: int| 0 <= k < pois.len() && #[trigger] pois[k].poi_type == PoiType::String
    }


    /// The vote tally of a search over `pois`.
    pub open spec fn search_tally(&self, pois: Seq<Poi>) -> (Map<u64, i32>, Option<i32>, u64) {
        self.vote_tally(pois, Self::has_strings(pois))
    }


    /// The candidates worth refining, by decreasing votes (stable), cut to
    /// the kept count.
    pub open spec fn kept_candidates(&self, pois: Seq<Poi>) -> Seq<(u64, i32)> {
        let t = self.search_tally(pois);
        let max_votes = tally_peak(t);
        let c = sort_desc(shortlist(tally_leaves(t), max_votes), vote_key());
        let kept = if self.spec_deep() || max_votes < 0 {
            c.len()
        } else {
            keep_len(c, max_votes as int)
        };
        c.take(kept as int)
    }


    /// The refined candidates of a search over `pois`, in refinement order.
    pub open spec fn scored_candidates(&self, pois: Seq<Poi>) -> Seq<ScoredCandidate> {
        self.kept_candidates(pois).map_values(|c: (u64, i32)| self.scored(pois, c))
    }


    /// The decision of a search over `pois`: base address, confidence,
    /// reason, and the address to leave out of further candidates.
    pub open spec fn decision(&self, pois: Seq<Poi>) -> (u64, bool, FoundReason, Option<u64>) {
        decide(best_vote(tally_leaves(self.search_tally(pois))), self.scored_candidates(pois))
    }

    /// `s` is the shortlist of a search over `pois`: the candidates to
    /// refine, the best-voted leaf and the number of candidate addresses.
    pub open spec fn shortlisted(&self, pois: Seq<Poi>, s: Shortlist) -> bool {
        &&& s.kept@ == self.kept_candidates(pois)
        &&& s.best_vote == best_vote(tally_leaves(self.search_tally(pois)))
        &&& s.num_tested == tally_leaves(self.search_tally(pois)).len()
    }

    /// `res` is the outcome of a search over `pois`: the number of
    /// candidate addresses, the refined candidates by decreasing score
    /// (ties in refinement order) and the decision.
    pub open spec fn describes(&self, pois: Seq<Poi>, res: BaseAddressResult) -> bool {
        let d = self.decision(pois);
        &&& res.num_base_addresses_tested == tally_leaves(self.search_tally(pois)).len()
        &&& res.candidates@ == sort_desc(self.scored_candidates(pois), score_key())
        &&& res.base_address == d.0
        &&& res.confident == d.1
        &&& res.reason == d.2
        &&& res.more_exclude == d.3
    }


    /// The word `j` of the array `poi`.
    pub open spec fn array_word(&self, poi: Poi, j: int) -> u64 {
        self.word_at(poi.offset + j * self.psize())
    }


    /// Number of consecutive words of `poi` from word `j` on that carry the
    /// high bits `h` under `mask` and point, below the mask, into code.
    pub open spec fn code_run(&self, poi: Poi, mask: u64, h: u64, j: int) -> int
        decreases poi.count - j,
    {
        if j < 1 || j >= poi.count {
            0
        } else {
            let v = self.array_word(poi, j);
            if (v & mask) == h && region_type_at(self.spec_regions(), v & !mask) == RegionType::Code {
                1 + self.code_run(poi, mask, h, j + 1)
            } else {
                0
            }
        }
    }


    /// How many leading words of `poi` look like code pointers sharing the
    /// high bits of its first word under `mask` (one when the first word
    /// does not point into code).
    pub open spec fn mask_hits(&self, poi: Poi, mask: u64) -> int {
        let first = self.array_word(poi, 0);
        if region_type_at(self.spec_regions(), first & !mask) == RegionType::Code {
            1 + self.code_run(poi, mask, first & mask, 1)
        } else {
            1
        }
    }


    /// Trying masks `!0 << i` for `i` going down to the log of the code
    /// size while every word of `poi` matches: the last count and mask.
    pub open spec fn mask_search(&self, poi: Poi, z: int, i: int, k: int, mask: u64) -> (int, u64)
        decreases i + 1,
    {
        if i >= 0 && i > z - 1 && k == poi.count {
            let m = u64::MAX << (i as u32);
            self.mask_search(poi, z, i - 1, self.mask_hits(poi, m), m)
        } else {
            (k, mask)
        }
    }


    /// `floor(log2)` of the end of the code, zero without code.
    pub open spec fn code_log(&self) -> int {
        let m = max_code_end(self.spec_regions());
        if m > 0 {
            log2_floor(m as nat) as int
        } else {
            0
        }
    }


    /// The function addresses an array POI yields: when every word matched
    /// down to the last mask tried, each word below that mask.
    pub open spec fn array_functions(&self, poi: Poi) -> Seq<u64> {
        let r = self.mask_search(poi, self.code_log(), 31, poi.count as int, 0);
        if r.0 == poi.count && poi.count > 0 {
            Seq::new(poi.count as nat, |j: int| self.array_word(poi, j) & !r.1)
        } else {
            seq![]
        }
    }


    /// The function addresses yielded by the array POIs among the first
    /// `k` POIs of `pois`, in list order.
    pub open spec fn function_addresses(&self, pois: Seq<Poi>, k: int) -> Seq<u64>
        decreases k,
    {
        if k <= 0 {
            seq![]
        } else if pois[k - 1].poi_type == PoiType::Array {
            self.function_addresses(pois, k - 1) + self.array_functions(pois[k - 1])
        } else {
            self.function_addresses(pois, k - 1)
        }
    }
}

impl<'a> BaseAddressFinder<'a> {
    #[verifier::type_invariant]
    spec fn consistent(self) -> bool {
        &&& self.reader.spec_arch() == self.arch
        &&& self.nb_threads >= 1
        &&& self.content@.len() <= isize::MAX
    }

    /// The search this finder runs.
    pub closed spec fn setup(&self) -> SearchSetup {
        SearchSetup {
            content: self.content@,
            arch: self.arch,
            endian: self.reader.spec_endian(),
            regions: self.memory@,
            alignment_mask: self.alignment_mask,
            deep: self.deep,
            ptr_aligned: self.ptr_aligned,
            symbols: match self.symbols {
                Some(s) => Some(s@),
                None => None,
            },
        }
    }

    /// The firmware bytes.
    pub open spec fn spec_content(&self) -> Seq<u8> {
        self.setup().content
    }

    /// The target architecture.
    pub open spec fn spec_arch(&self) -> Arch {
        self.setup().arch
    }

    /// The byte order words are read with.
    pub open spec fn spec_endian(&self) -> Endianness {
        self.setup().endian
    }

    /// The classified memory regions.
    pub open spec fn spec_regions(&self) -> Seq<MemRegion> {
        self.setup().regions
    }

    /// Mask of the low bits a candidate base address must share with a POI.
    pub open spec fn spec_alignment_mask(&self) -> u64 {
        self.setup().alignment_mask
    }

    /// Whether every candidate is refined.
    pub open spec fn spec_deep(&self) -> bool {
        self.setup().deep
    }

    /// Number of refinement workers (at least one).
    pub closed spec fn spec_nb_threads(&self) -> usize {
        self.nb_threads
    }

    /// Whether candidate pointers must be aligned to the pointer size.
    pub open spec fn spec_ptr_aligned(&self) -> bool {
        self.setup().ptr_aligned
    }

    /// The known symbols, if any.
    pub open spec fn spec_symbols(&self) -> Option<Seq<Poi>> {
        self.setup().symbols
    }

    /// Pointer size in bytes.
    pub open spec fn psize(&self) -> nat {
        self.setup().psize()
    }

    /// The word at `off`, read with the finder's byte order.
    pub open spec fn word_at(&self, off: int) -> u64 {
        self.setup().word_at(off)
    }

    /// Build a finder. `alignment` is the candidate base-address alignment
    /// (its low bits form the mask); `ptr_aligned` enables the optional
    /// pointer-alignment check; the worker count is at least one.
    pub fn new(
        content: &'a [u8],
        arch: Arch,
        endian: Endianness,
        memory: &'a MemoryMap,
        alignment: u64,
        deep: bool,
        nb_threads: usize,
        ptr_aligned: bool,
        symbols: Option<&'a PoiList>,
        logger: Logger,
    ) -> (f: BaseAddressFinder<'a>)
        requires
            content@.len() <= isize::MAX,
        ensures
            f.setup() == (SearchSetup {
                content: content@,
                arch,
                endian,
                regions: memory@,
                alignment_mask: vstd::wrapping::u64_specs::wrapping_sub(alignment, 1),
                deep,
                ptr_aligned,
                symbols: match symbols {
                    Some(s) => Some(s@),
                    None => None,
                },
            }),
            f.spec_nb_threads() == if nb_threads >= 1 {
                nb_threads
            } else {
                1
            },
    {
        BaseAddressFinder {
            content,
            reader: PointerReader::new(arch, endian),
            arch,
            memory,
            alignment_mask: alignment.wrapping_sub(1),
            deep,
            nb_threads: if nb_threads >= 1 {
                nb_threads
            } else {
                1
            },
            ptr_aligned,
            symbols,
            logger,
        }
    }

    /// Index points of interest: printable strings (when asked) followed by
    /// arrays of similar consecutive values.
    pub fn index_poi(&self, include_strings: bool) -> (l: PoiList)
        ensures
            l@ == self.setup().poi_index(Seq::empty(), include_strings),
    {
        let mut list = PoiList::new();
        self.populate_poi(&mut list, include_strings);
        list
    }

    /// Append POIs to an existing list: strings (when asked), then value
    /// arrays.
    pub fn populate_poi(&self, list: &mut PoiList, include_strings: bool)
        ensures
            final(list)@ == self.setup().poi_index(old(list)@, include_strings),
    {
        if include_strings {
            list.append_strings(self.content, STR_MIN_SIZE);
        }
        self.append_value_arrays(list);
    }

    /// Append `Array` POIs: runs of at least ten consecutive pointer-sized
    /// values, each within `0x1000` of the previous one, recorded with their
    /// length in elements.
    fn append_value_arrays(&self, list: &mut PoiList)
        ensures
            final(list)@ == old(list)@ + value_arrays(
                self.spec_content(),
                self.psize(),
                self.spec_endian(),
                self.spec_arch().spec_max_value() as u64,
                0,
                self.spec_content().len() - self.psize(),
                false,
                0,
                0,
                0,
            ),
    {
        proof {
            use_type_invariant(self);
        }
        let psize = self.reader.size();
        let all_ones = self.arch.max_value();
        let mut in_array = false;
        let mut start: u64 = 0;
        let mut count: i32 = 0;
        let mut prev: u64 = 0;
        let clen = self.content.len();
        let end = if clen >= psize {
            clen - psize
        } else {
            0
        };
        let ghost content = self.spec_content();
        let ghost n = self.psize();
        let ghost endian = self.spec_endian();
        let ghost spec_end = content.len() - n;
        let ghost total = value_arrays(content, n, endian, all_ones, 0, spec_end, false, 0, 0, 0);
        proof {
            assert(old(list)@ + total =~= list@ + total);
        }
        let mut cursor: usize = 0;
        while cursor < end
            invariant
                psize == n,
                n == 4 || n == 8,
                self.reader.spec_arch() == self.arch,
                content == self.spec_content(),
                endian == self.spec_endian(),
                clen == content.len(),
                end as int == if clen >= psize {
                    clen - psize
                } else {
                    0
                },
                all_ones == self.spec_arch().spec_max_value(),
                n == self.psize(),
                spec_end == content.len() - n,
                cursor <= clen,
                old(list)@ + total == list@ + value_arrays(
                    content,
                    n,
                    endian,
                    all_ones,
                    cursor as int,
                    spec_end,
                    in_array,
                    start,
                    count,
                    prev,
                ),
            decreases clen - cursor,
        {
            let value = self.reader.read(self.content, cursor);
            let ghost before = list@;
            let ghost state = (in_array, start, count, prev);
            let ghost here_at = cursor as int;
            proof {
                assert(value == word(content, n, endian, here_at));
            }
            let ghost rest = value_arrays(
                content,
                n,
                endian,
                all_ones,
                cursor + n,
                spec_end,
                false,
                start,
                0,
                value,
            );
            let ghost full = value_arrays(
                content,
                n,
                endian,
                all_ones,
                here_at,
                spec_end,
                in_array,
                start,
                count,
                prev,
            );
            if !in_array {
                if value != 0 && value != all_ones {
                    start = cursor as u64;
                    in_array = true;
                    count = 1;
                    assert(full == value_arrays(
                        content,
                        n,
                        endian,
                        all_ones,
                        here_at + n,
                        spec_end,
                        true,
                        start,
                        1,
                        value,
                    ));
                } else {
                    assert(full == value_arrays(
                        content,
                        n,
                        endian,
                        all_ones,
                        here_at + n,
                        spec_end,
                        false,
                        start,
                        count,
                        value,
                    ));
                }
            } else if Self::value_delta_abs(value, prev) > 0x1000 {
                in_array = false;
                if count > 9 {
                    list.add(start, count, PoiType::Array);
                }
                proof {
                    let here = if count > 9 {
                        seq![plain_poi(start, count, PoiType::Array)]
                    } else {
                        seq![]
                    };
                    assert(list@ == before + here);
                    assert(full == here + rest);
                    assert(before + (here + rest) =~= list@ + rest);
                }
                count = 0;
            } else {
                assert(full == value_arrays(
                    content,
                    n,
                    endian,
                    all_ones,
                    here_at + n,
                    spec_end,
                    true,
                    start,
                    bump(count),
                    value,
                ));
                count = count.wrapping_add(1);
                assert(count == bump(state.2));
            }
            prev = value;
            proof {
                let full = value_arrays(
                    content,
                    n,
                    endian,
                    all_ones,
                    here_at,
                    spec_end,
                    state.0,
                    state.1,
                    state.2,
                    state.3,
                );
                let next = value_arrays(
                    content,
                    n,
                    endian,
                    all_ones,
                    here_at + n,
                    spec_end,
                    in_array,
                    start,
                    count,
                    prev,
                );
                assert(before + full =~= list@ + next);
            }
            cursor = cursor + psize;
        }
    }

    /// The step between two words, `abs((int)(value - prev))`: the 64-bit
    /// difference truncated to 32 bits and run through `abs`, the smallest
    /// 32-bit integer staying itself.
    pub fn value_delta_abs(value: u64, prev: u64) -> (d: i32)
        ensures
            d == delta_abs(value, prev),
    {
        let low = value.wrapping_sub(prev) % 0x1_0000_0000;
        let signed: i64 = if low >= 0x8000_0000 {
            low as i64 - 0x1_0000_0000
        } else {
            low as i64
        };
        if signed == -0x8000_0000 {
            i32::MIN
        } else if signed < 0 {
            (-signed) as i32
        } else {
            signed as i32
        }
    }

    /// Index plausible pointers for base address `base`: see `pointer_at`.
    pub fn index_poi_pointers(&self, base: u64) -> (l: PoiList)
        ensures
            l@ == pointer_pois(
                self.spec_content(),
                self.psize(),
                self.spec_endian(),
                self.spec_regions(),
                self.spec_symbols(),
                base,
                0,
                self.spec_content().len() - self.psize(),
            ),
            self.spec_symbols() is None ==> forall|k: int|
                0 <= k < l@.len() ==> {
                    let p = #[trigger] l@[k];
                    let v = word(self.spec_content(), self.psize(), self.spec_endian(), p.offset as int);
                    let t = region_type_at(self.spec_regions(), (v - base) as u64);
                    &&& p.offset + self.psize() < self.spec_content().len()
                    &&& p.count == 1
                    &&& region_type_at(self.spec_regions(), p.offset) != RegionType::Code
                    &&& v != 0
                    &&& base <= v
                    &&& v - base < self.spec_content().len()
                    &&& (t == RegionType::Code && p.poi_type == PoiType::FunctionPointer) || (t
                        == RegionType::InitData && p.poi_type == PoiType::GenericPointer)
                },
    {
        proof {
            use_type_invariant(self);
            lemma_pointer_pois_sound(
                self.spec_content(),
                self.psize(),
                self.spec_endian(),
                self.spec_regions(),
                base,
                0,
                self.spec_content().len() - self.psize(),
            );
        }
        let mut list = PoiList::new();
        let psize = self.reader.size();
        let clen = self.content.len();
        let content_len = clen as u64;
        let end = if clen >= psize {
            clen - psize
        } else {
            0
        };
        let ghost content = self.spec_content();
        let ghost n = self.psize();
        let ghost endian = self.spec_endian();
        let ghost regions = self.spec_regions();
        let ghost syms = self.spec_symbols();
        let ghost spec_end = content.len() - n;
        let ghost total = pointer_pois(content, n, endian, regions, syms, base, 0, spec_end);
        proof {
            assert(total =~= list@ + total);
        }
        let mut cursor: usize = 0;
        while cursor < end
            invariant
                psize == n,
                n == 4 || n == 8,
                self.reader.spec_arch() == self.arch,
                content == self.spec_content(),
                endian == self.spec_endian(),
                regions == self.spec_regions(),
                syms == self.spec_symbols(),
                clen == content.len(),
                content_len == clen,
                end as int == if clen >= psize {
                    clen - psize
                } else {
                    0
                },
                n == self.psize(),
                spec_end == content.len() - n,
                cursor <= clen,
                total == list@ + pointer_pois(content, n, endian, regions, syms, base, cursor as int, spec_end),
            decreases clen - cursor,
        {
            let value = self.reader.read(self.content, cursor);
            let here_is_code = self.memory.get_type(cursor as u64) == RegionType::Code;
            let ghost before = list@;
            let ghost here = pointer_at(content, n, endian, regions, syms, base, cursor as int);
            match self.symbols {
                Some(symbols) => {
                    if !here_is_code {
                        proof {
                            assert(symbols@.subrange(0, symbols@.len() as int) =~= symbols@);
                        }
                        let mut k: usize = 0;
                        while k < symbols.count()
                            invariant
                                k <= symbols@.len(),
                                syms == Some(symbols@),
                                before + symbol_hits(symbols@, value, base, cursor as int) == list@ + symbol_hits(
                                    symbols@.subrange(k as int, symbols@.len() as int),
                                    value,
                                    base,
                                    cursor as int,
                                ),
                            decreases symbols@.len() - k,
                        {
                            let sym = symbols.get(k);
                            proof {
                                let rest = symbols@.subrange(k as int, symbols@.len() as int);
                                assert(rest[0] == *sym);
                                assert(rest.drop_first() =~= symbols@.subrange(k + 1, symbols@.len() as int));
                            }
                            let ghost mid = list@;
                            if value.wrapping_sub(base) == sym.offset && sym.poi_type == PoiType::Function {
                                list.add(cursor as u64, 1, PoiType::FunctionPointer);
                            }
                            proof {
                                let rest = symbols@.subrange(k + 1, symbols@.len() as int);
                                assert(mid + symbol_hits(
                                    symbols@.subrange(k as int, symbols@.len() as int),
                                    value,
                                    base,
                                    cursor as int,
                                ) =~= list@ + symbol_hits(rest, value, base, cursor as int));
                            }
                            k = k + 1;
                        }
                        proof {
                            assert(symbols@.subrange(symbols@.len() as int, symbols@.len() as int).len() == 0);
                            assert(symbols@.subrange(0, symbols@.len() as int) =~= symbols@);
                        }
                    }
                },
                None => {
                    if !here_is_code {
                        let mem_type = self.memory.get_type(value.wrapping_sub(base));
                        let in_range = value >= base && value - base < content_len;
                        if in_range && value != 0 && mem_type != RegionType::Unknown && mem_type
                            != RegionType::UninitData {
                            if mem_type == RegionType::Code {
                                list.add(cursor as u64, 1, PoiType::FunctionPointer);
                            } else {
                                list.add(cursor as u64, 1, PoiType::GenericPointer);
                            }
                        }
                    }
                },
            }
            proof {
                assert(list@ =~= before + here);
                assert(before + (here + pointer_pois(
                    content,
                    n,
                    endian,
                    regions,
                    syms,
                    base,
                    cursor + n,
                    spec_end,
                )) =~= list@ + pointer_pois(content, n, endian, regions, syms, base, cursor + n, spec_end));
            }
            cursor = cursor + psize;
        }
        list
    }

    /// Build the candidate-address vote tree: every POI of the wanted kind
    /// votes, through each word of the image, for the base address that
    /// word would imply (see `vote_of` and `vote_tally`).
    pub fn vote_candidates(&self, poi_list: &PoiList, has_str: bool) -> (tree: AddrTree)
        ensures
            tree.wf(),
            tally_of(tree) == self.setup().vote_tally(poi_list@, has_str),
    {
        proof {
            use_type_invariant(self);
        }
        let mut tree = AddrTree::new();
        let psize = self.reader.size();
        let max_value = self.arch.max_value();
        let clen = self.content.len();
        let content_len = clen as u64;
        let count = poi_list.count();
        let mut i: usize = 0;
        proof {
            assert(poi_list@.subrange(0, 0) =~= Seq::<Poi>::empty());
        }
        while i < count
            invariant
                self.consistent(),
                count == poi_list@.len(),
                i <= count,
                psize == self.psize(),
                max_value == self.spec_arch().spec_max_value(),
                clen == self.spec_content().len(),
                content_len == clen,
                tree.wf(),
                tally_of(tree) == self.setup().vote_tally(poi_list@.subrange(0, i as int), has_str),
            decreases count - i,
        {
            let poi = poi_list.get(i);
            let ghost start = tally_of(tree);
            let mut cursor: usize = 0;
            while cursor < clen
                invariant
                    self.consistent(),
                    psize == self.psize(),
                    psize == 4 || psize == 8,
                    max_value == self.spec_arch().spec_max_value(),
                    clen == self.spec_content().len(),
                    content_len == clen,
                    cursor <= clen + psize,
                    tree.wf(),
                    self.setup().poi_tally(start, *poi, has_str, 0) == self.setup().poi_tally(
                        tally_of(tree),
                        *poi,
                        has_str,
                        cursor as int,
                    ),
                decreases clen + psize - cursor,
            {
                let v = self.reader.read(self.content, cursor);
                let ghost before = tally_of(tree);
                if (v & self.alignment_mask) == (poi.offset & self.alignment_mask)
                    && !self.reader.is_ascii_ptr(v) && self.is_ptr_aligned(v) {
                    let want = (has_str && poi.poi_type == PoiType::String) || (!has_str
                        && poi.poi_type == PoiType::Function);
                    if want && v >= poi.offset {
                        let delta = v - poi.offset;
                        let freespace = max_value.wrapping_sub(delta).wrapping_add(1);
                        if freespace >= content_len {
                            tree.register_address(delta);
                        }
                    }
                }
                proof {
                    assert(self.setup().poi_tally(before, *poi, has_str, cursor as int) == self.setup().poi_tally(
                        tally_of(tree),
                        *poi,
                        has_str,
                        cursor + psize,
                    ));
                }
                cursor = cursor + psize;
            }
            proof {
                assert(poi_list@.subrange(0, i + 1).drop_last() =~= poi_list@.subrange(0, i as int));
            }
            if tree.memsize() > MAX_MEM_AMOUNT {
                let mv = tree.max_vote();
                tree.filter(mv / 2);
            }
            i = i + 1;
        }
        proof {
            assert(poi_list@.subrange(0, count as int) =~= poi_list@);
        }
        tree
    }

    /// The distinct resolving words of the array `poi` for base `delta`, and
    /// how many there are (at least one).
    fn array_hit_count(&self, poi_list: &PoiList, poi: &Poi, delta: u64) -> (n: usize)
        requires
            poi.poi_type == PoiType::Array,
            poi.count > 0 ==> poi.offset + poi.count * self.psize() <= usize::MAX + 1,
        ensures
            n == self.setup().array_hits(poi_list@, *poi, delta),
            n <= if poi.count >= 1 {
                poi.count as int
            } else {
                1
            },
    {
        broadcast use vstd::std_specs::hash::group_hash_axioms;

        proof {
            use_type_invariant(self);
        }
        let psize = self.reader.size();
        let pois = poi_list.count();
        let mut distinct: std::collections::HashSet<u64> = std::collections::HashSet::new();
        let mut j: i32 = 0;
        proof {
            assert(distinct@ =~= self.setup().array_targets(poi_list@, *poi, delta, 0));
        }
        while j < poi.count
            invariant
                self.consistent(),
                psize == self.psize(),
                pois == poi_list@.len(),
                0 <= j,
                j <= poi.count || j == 0,
                poi.count > 0 ==> poi.offset + poi.count * psize <= usize::MAX + 1,
                distinct@.finite(),
                distinct@.len() <= j,
                distinct@ == self.setup().array_targets(poi_list@, *poi, delta, j as int),
            decreases poi.count - j,
        {
            proof {
                assert(poi.offset + j * psize + psize <= poi.offset + poi.count * psize) by (nonlinear_arith)
                    requires
                        0 <= j < poi.count,
                        psize >= 0,
                ;
            }
            let at = poi.offset as usize + j as usize * psize;
            let v = self.reader.read(self.content, at);
            let mut resolved = false;
            let mut k: usize = 0;
            while k < pois
                invariant
                    pois == poi_list@.len(),
                    k <= pois,
                    resolved == exists|q: int|
                        0 <= q < k && (poi_list@[q].poi_type == PoiType::String || poi_list@[q].poi_type
                            == PoiType::Array) && v == vstd::wrapping::u64_specs::wrapping_add(
                            #[trigger] poi_list@[q].offset,
                            delta,
                        ),
                decreases pois - k,
            {
                let zap = poi_list.get(k);
                if (zap.poi_type == PoiType::String || zap.poi_type == PoiType::Array) && v
                    == zap.offset.wrapping_add(delta) {
                    resolved = true;
                }
                k = k + 1;
            }
            let ghost old_set = distinct@;
            if resolved {
                distinct.insert(v);
            }
            proof {
                assert(v == self.word_at(poi.offset + j * psize));
                assert(distinct@ =~= self.setup().array_targets(poi_list@, *poi, delta, j + 1));
            }
            j = j + 1;
        }
        proof {
            assert(distinct@ =~= self.setup().array_targets(poi_list@, *poi, delta, poi.count as int));
        }
        let c = distinct.len();
        if c >= 1 {
            c
        } else {
            1
        }
    }

    /// Score candidate `c` (address and votes) for the POIs of `poi_list`
    /// (see `scored`).
    pub fn refine_one(&self, c: (u64, i32), poi_list: &PoiList) -> (sc: ScoredCandidate)
        requires
            arrays_fit(poi_list@, self.psize()),
        ensures
            sc == self.setup().scored(poi_list@, c),
    {
        proof {
            use_type_invariant(self);
        }
        let delta = c.0;
        let mut array_score: u32 = 1;
        let mut found_valid_array = false;
        let pois = poi_list.count();
        let mut i: usize = 0;
        while i < pois
            invariant
                pois == poi_list@.len(),
                i <= pois,
                arrays_fit(poi_list@, self.psize()),
                array_score == self.setup().array_score(poi_list@, delta, i as int),
                found_valid_array == self.setup().valid_array_in(poi_list@, delta, i as int),
            decreases pois - i,
        {
            let poi = poi_list.get(i);
            if poi.poi_type == PoiType::Array {
                let n_str_ptr = self.array_hit_count(poi_list, poi, delta);
                if poi.count >= 10 && n_str_ptr >= (poi.count as usize) / 3 {
                    found_valid_array = true;
                }
                array_score = array_score.wrapping_add(n_str_ptr as u32);
            }
            proof {
                if found_valid_array && !self.setup().valid_array_in(poi_list@, delta, i as int) {
                    assert(poi_list@[i as int].poi_type == PoiType::Array);
                }
                if self.setup().valid_array_in(poi_list@, delta, i as int) {
                    let w = choose|w: int|
                        0 <= w < i && #[trigger] poi_list@[w].poi_type == PoiType::Array
                            && poi_list@[w].count >= 10 && self.setup().array_hits(poi_list@, poi_list@[w], delta)
                            >= poi_list@[w].count / 3;
                    assert(self.setup().valid_array_in(poi_list@, delta, i + 1));
                }
            }
            i = i + 1;
        }
        let pointers = self.index_poi_pointers(delta);
        let score = (pointers.count() as u32).wrapping_mul(c.1 as u32).wrapping_mul(array_score) as u64;
        ScoredCandidate {
            base_address: delta,
            votes: c.1,
            score,
            has_valid_array: found_valid_array,
        }
    }

    /// How many of the vote-sorted candidates to refine: all in deep mode
    /// (or without a positive top count), otherwise see `keep_len`.
    fn kept_count(&self, candidates: &Vec<(u64, i32)>, max_votes: i32) -> (k: usize)
        ensures
            k == if self.spec_deep() || max_votes < 0 {
                candidates@.len()
            } else {
                keep_len(candidates@, max_votes as int)
            },
    {
        if self.deep || max_votes < 0 {
            return candidates.len();
        }
        let ghost target = keep_len(candidates@, max_votes as int);
        let mut i: i32 = max_votes;
        loop
            invariant
                0 <= i <= max_votes,
                !self.spec_deep(),
                target == keep_len(candidates@, max_votes as int),
                keep_len(candidates@, i as int) == target,
            decreases i,
        {
            let k = count_votes_from(candidates, i);
            if k >= KEEP_TARGET || i == 0 {
                return k;
            }
            i = i - 1;
        }
    }

    /// Vote over an indexed POI list and keep the candidates worth
    /// refining (see `kept_candidates`), with the best-voted leaf and the
    /// number of candidate addresses. Fails exactly when the list is empty.
    pub fn shortlist(&self, poi_list: &PoiList) -> (r: Result<Shortlist, BinbloomError>)
        ensures
            poi_list@.len() == 0 <==> r matches Err(BinbloomError::NoPointsOfInterest),
            poi_list@.len() != 0 ==> r is Ok,
            r matches Ok(s) ==> self.setup().shortlisted(poi_list@, s),
    {
        if poi_list.is_empty() {
            return Err(BinbloomError::NoPointsOfInterest);
        }
        let ghost pois = poi_list@;
        let n = poi_list.count();
        let mut has_str = false;
        let mut k: usize = 0;
        while k < n
            invariant
                n == pois.len(),
                pois == poi_list@,
                k <= n,
                has_str == exists|q: int| 0 <= q < k && #[trigger] pois[q].poi_type == PoiType::String,
            decreases n - k,
        {
            if poi_list.get(k).poi_type == PoiType::String {
                has_str = true;
            }
            k = k + 1;
        }
        let tree = self.vote_candidates(poi_list, has_str);
        let ghost t = tally_of(tree);
        let leaves = tree_leaves(&tree);
        let num_tested = leaves.len();
        let bv = best_vote_of(&leaves);
        let max_votes = tree.max_vote();
        let short = shortlist_of(&leaves, max_votes);
        let mut candidates = sort_by_votes(&short);
        let kept_count = self.kept_count(&candidates, max_votes);
        let kept_n = if kept_count < candidates.len() {
            kept_count
        } else {
            candidates.len()
        };
        proof {
            assert(has_str == SearchSetup::has_strings(pois));
            assert(t == self.setup().search_tally(pois));
            assert(max_votes == tally_peak(t));
            lemma_keep_len_bound(candidates@, max_votes as int);
            assert(kept_n == kept_count);
        }
        let ghost all = candidates@;
        candidates.truncate(kept_n);
        proof {
            assert(candidates@ =~= all.take(kept_n as int));
            assert(candidates@ =~= self.setup().kept_candidates(pois));
        }
        Ok(Shortlist { kept: candidates, best_vote: bv, num_tested })
    }

    /// Decide from a shortlist and the refined candidates (see `decide`):
    /// the refined candidates come back by decreasing score, ties in the
    /// given order.
    pub fn conclude(shortlist: &Shortlist, scored: Vec<ScoredCandidate>) -> (r: BaseAddressResult)
        ensures
            r.num_base_addresses_tested == shortlist.num_tested,
            r.candidates@ == sort_desc(scored@, score_key()),
            (r.base_address, r.confident, r.reason, r.more_exclude) == decide(shortlist.best_vote, scored@),
            (r.reason == FoundReason::ValidArray) <==> one_valid(scored@),
            r.reason == FoundReason::ValidArray ==> exists|i: int|
                0 <= i < scored@.len() && #[trigger] scored@[i].has_valid_array && scored@[i].base_address
                    == r.base_address,
            r.reason == FoundReason::BestMatchAgrees ==> r.base_address == shortlist.best_vote.0 && (top_scoring(
                scored@,
                r.base_address,
            ) || (r.base_address == u64::MAX && forall|j: int| 0 <= j < scored@.len() ==> #[trigger] scored@[j].score == 0)),
            r.reason == FoundReason::Score ==> !r.confident && r.base_address != shortlist.best_vote.0 && top_scoring(
                scored@,
                r.base_address,
            ) && r.more_exclude == Some(r.base_address),
            r.reason == FoundReason::Fallback ==> !r.confident && r.base_address == shortlist.best_vote.0
                && r.more_exclude is None,
    {
        proof {
            lemma_decide_reasons(shortlist.best_vote, scored@);
        }
        let bv = shortlist.best_vote;
        let bs = best_score_of(&scored);
        let valid = valid_arrays_of(&scored);
        let ranked = sort_by_score(&scored);
        let (base_address, confident, reason, more_exclude) = if valid.0 == 1 {
            proof {
                lemma_first_valid_some(scored@);
            }
            let chosen = match valid.1 {
                Some(a) => a,
                None => 0,
            };
            (chosen, true, FoundReason::ValidArray, Some(chosen))
        } else if bv.0 == bs.0 {
            (bv.0, true, FoundReason::BestMatchAgrees, Some(bv.0))
        } else if bs.0 != u64::MAX {
            (bs.0, false, FoundReason::Score, Some(bs.0))
        } else {
            (bv.0, false, FoundReason::Fallback, None)
        };
        BaseAddressResult {
            base_address,
            confident,
            reason,
            num_base_addresses_tested: shortlist.num_tested,
            candidates: ranked,
            more_exclude,
        }
    }

    /// Run the base-address search over an indexed POI list: vote, keep the
    /// best-voted candidates, refine them in turn and decide (see
    /// `decision`). The refined candidates come back by decreasing score,
    /// ties in refinement order. Fails exactly when the list is empty.
    pub fn compute_candidates(&self, poi_list: &PoiList) -> (r: Result<BaseAddressResult, BinbloomError>)
        requires
            arrays_fit(poi_list@, self.psize()),
        ensures
            poi_list@.len() == 0 <==> r matches Err(BinbloomError::NoPointsOfInterest),
            poi_list@.len() != 0 ==> r is Ok,
            r matches Ok(res) ==> self.setup().describes(poi_list@, res),
    {
        let shortlist = match self.shortlist(poi_list) {
            Ok(s) => s,
            Err(e) => return Err(e),
        };
        let ghost pois = poi_list@;
        let ghost kept = shortlist.kept@;
        let n = shortlist.kept.len();
        let mut scored: Vec<ScoredCandidate> = Vec::new();
        let mut i: usize = 0;
        while i < n
            invariant
                n == kept.len(),
                kept == shortlist.kept@,
                arrays_fit(poi_list@, self.psize()),
                pois == poi_list@,
                i <= n,
                scored@ == kept.take(i as int).map_values(|c: (u64, i32)| self.setup().scored(pois, c)),
            decreases n - i,
        {
            let sc = self.refine_one(shortlist.kept[i], poi_list);
            proof {
                assert(kept.take(i + 1).map_values(|c: (u64, i32)| self.setup().scored(pois, c)) =~= kept.take(
                    i as int,
                ).map_values(|c: (u64, i32)| self.setup().scored(pois, c)).push(sc));
            }
            scored.push(sc);
            i = i + 1;
        }
        proof {
            assert(kept.take(n as int) =~= kept);
        }
        Ok(Self::conclude(&shortlist, scored))
    }

    /// The mask search for one array POI (see `mask_search`).
    fn search_mask(&self, poi: &Poi, z: i64) -> (r: (i32, u64))
        requires
            poi.count > 0 ==> poi.offset + poi.count * self.psize() <= usize::MAX + 1,
            poi.offset + self.psize() <= usize::MAX + 1,
            0 <= z < 64,
        ensures
            r.0 == self.setup().mask_search(*poi, z as int, 31, poi.count as int, 0).0,
            r.1 == self.setup().mask_search(*poi, z as int, 31, poi.count as int, 0).1,
    {
        proof {
            use_type_invariant(self);
        }
        let psize = self.reader.size();
        let count = poi.count;
        let mut k: i32 = count;
        let mut ba_mask: u64 = 0;
        let mut i: i64 = 31;
        while i >= 0 && i > z - 1 && k == count
            invariant
                self.consistent(),
                psize == self.psize(),
                count == poi.count,
                poi.count > 0 ==> poi.offset + poi.count * psize <= usize::MAX + 1,
                poi.offset + psize <= usize::MAX + 1,
                -1 <= i <= 31,
                0 <= z < 64,
                self.setup().mask_search(*poi, z as int, 31, count as int, 0) == self.setup().mask_search(
                    *poi,
                    z as int,
                    i as int,
                    k as int,
                    ba_mask,
                ),
            decreases i + 1,
        {
            ba_mask = u64::MAX << (i as u32);
            k = 1;
            let first = self.reader.read(self.content, poi.offset as usize);
            proof {
                assert(first == self.setup().array_word(*poi, 0));
            }
            if self.memory.get_type(first & !ba_mask) == RegionType::Code {
                let ptr_h = first & ba_mask;
                let mut j: i32 = 1;
                let ghost total = self.setup().code_run(*poi, ba_mask, ptr_h, 1);
                while j < count
                    invariant
                        self.consistent(),
                        psize == self.psize(),
                        count == poi.count,
                        poi.count > 0 ==> poi.offset + poi.count * psize <= usize::MAX + 1,
                        poi.offset + psize <= usize::MAX + 1,
                        1 <= j,
                        j <= count || j == 1,
                        1 <= k <= j,
                        total == self.setup().code_run(*poi, ba_mask, ptr_h, 1),
                        total == (k - 1) + self.setup().code_run(*poi, ba_mask, ptr_h, j as int),
                    ensures
                        total == k - 1,
                    decreases count - j,
                {
                    proof {
                        assert(poi.offset + j * psize + psize <= poi.offset + poi.count * psize)
                            by (nonlinear_arith)
                            requires
                                0 <= j < poi.count,
                                psize >= 0,
                        ;
                    }
                    let value = self.reader.read(self.content, poi.offset as usize + j as usize * psize);
                    proof {
                        assert(value == self.setup().array_word(*poi, j as int));
                    }
                    if (value & ba_mask) != ptr_h || self.memory.get_type(value & !ba_mask)
                        != RegionType::Code {
                        break;
                    }
                    k = k + 1;
                    j = j + 1;
                }
            }
            proof {
                assert(k == self.setup().mask_hits(*poi, ba_mask));
            }
            i = i - 1;
        }
        (k, ba_mask)
    }

    /// Find arrays of code pointers (used when no strings are present) and
    /// add the addresses they point to, below the mask their high bits
    /// share, as function POIs (see `function_addresses`).
    pub fn index_functions(&self, list: &mut PoiList)
        requires
            arrays_readable(old(list)@, self.psize()),
        ensures
            final(list)@ == with_functions(
                old(list)@,
                self.setup().function_addresses(old(list)@, old(list)@.len() as int),
            ),
    {
        proof {
            use_type_invariant(self);
        }
        let psize = self.reader.size();
        let max_code_addr = self.memory.max_code_addr();
        let z: i64 = if max_code_addr > 0 {
            floor_log2(max_code_addr) as i64
        } else {
            0
        };
        let ghost items = list@;
        let n = list.count();
        let mut additions: Vec<u64> = Vec::new();
        let mut a: usize = 0;
        while a < n
            invariant
                self.consistent(),
                psize == self.psize(),
                items == list@,
                n == items.len(),
                a <= n,
                arrays_readable(items, psize as nat),
                z == self.setup().code_log(),
                0 <= z < 64,
                additions@ == self.setup().function_addresses(items, a as int),
            decreases n - a,
        {
            let poi = list.get(a);
            if poi.poi_type == PoiType::Array {
                let (k, ba_mask) = self.search_mask(poi, z);
                let ghost before = additions@;
                if k == poi.count {
                    let mut idx: i32 = 0;
                    while idx < poi.count
                        invariant
                            self.consistent(),
                            psize == self.psize(),
                            poi.count > 0 ==> poi.offset + poi.count * psize <= usize::MAX + 1,
                            poi.offset + psize <= usize::MAX + 1,
                            0 <= idx,
                            idx <= poi.count || idx == 0,
                            additions@ == before + Seq::new(
                                idx as nat,
                                |j: int| self.setup().array_word(*poi, j) & !ba_mask,
                            ),
                        decreases poi.count - idx,
                    {
                        proof {
                            assert(poi.offset + idx * psize + psize <= poi.offset + poi.count * psize)
                                by (nonlinear_arith)
                                requires
                                    0 <= idx < poi.count,
                                    psize >= 0,
                            ;
                        }
                        let value = self.reader.read(self.content, poi.offset as usize + idx as usize * psize);
                        proof {
                            assert(value == self.setup().array_word(*poi, idx as int));
                        }
                        additions.push(value & !ba_mask);
                        proof {
                            assert(additions@ =~= before + Seq::new(
                                (idx + 1) as nat,
                                |j: int| self.setup().array_word(*poi, j) & !ba_mask,
                            ));
                        }
                        idx = idx + 1;
                    }
                    proof {
                        assert(additions@ =~= before + self.setup().array_functions(*poi));
                    }
                } else {
                    proof {
                        assert(additions@ =~= before + self.setup().array_functions(*poi));
                    }
                }
            }
            a = a + 1;
        }
        let ghost addrs = additions@;
        let mut b: usize = 0;
        while b < additions.len()
            invariant
                addrs == additions@,
                b <= addrs.len(),
                list@ == with_functions(items, addrs.subrange(0, b as int)),
            decreases addrs.len() - b,
        {
            proof {
                assert(addrs.subrange(0, b + 1).drop_last() =~= addrs.subrange(0, b as int));
            }
            list.add_unique(additions[b], -1, PoiType::Function);
            b = b + 1;
        }
        proof {
            assert(addrs.subrange(0, addrs.len() as int) =~= addrs);
        }
    }

    /// Whether `address` passes the optional pointer-alignment check.
    fn is_ptr_aligned(&self, address: u64) -> (b: bool)
        ensures
            b == (!self.spec_ptr_aligned() || address % (self.psize() as u64) == 0),
    {
        proof {
            use_type_invariant(self);
        }
        if self.ptr_aligned {
            address % self.reader.size() as u64 == 0
        } else {
            true
        }
    }
}

} // verus!
