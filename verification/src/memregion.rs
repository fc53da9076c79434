//! Classification of a firmware image into memory regions.
//!
//! The image is cut into 1 KiB chunks, each of which is classified (from its
//! entropy) as uninitialised data, initialised data, code, or left
//! unclassified. Consecutive chunks of the same kind are merged into a region;
//! an unclassified chunk neither ends nor extends the region in progress.

use vstd::prelude::*;
use vstd::std_specs::iter::IteratorSpec;

verus! {

/// Chunk size and minimum region size (1 KiB).
pub const MEMORY_REGION_MIN_SIZE: usize = 1024;

/// Kind of a memory region.
#[derive(Clone, Copy, PartialEq, Eq, Debug, Structural)]
pub enum RegionType {
    Unknown,
    Code,
    InitData,
    UninitData,
}

/// A run of same-kind chunks.
#[derive(Clone, Copy, Debug)]
pub struct MemRegion {
    pub offset: u64,
    pub size: u64,
    pub region_type: RegionType,
}

/// The regions obtained by merging the chunk kinds `classes[i..]`, given the
/// region in progress `cur` as `(offset, size, kind)`.
pub open spec fn merge_chunks(
    classes: Seq<Option<RegionType>>,
    i: int,
    cur: Option<(int, int, RegionType)>,
) -> Seq<MemRegion>
    decreases classes.len() - i,
{
    if i < 0 || i >= classes.len() {
        match cur {
            Some((s, z, t)) => seq![MemRegion { offset: s as u64, size: z as u64, region_type: t }],
            None => seq![],
        }
    } else {
        match classes[i] {
            None => merge_chunks(classes, i + 1, cur),
            Some(t) => match cur {
                None => merge_chunks(classes, i + 1, Some((i * 1024, 1024, t))),
                Some((s, z, pt)) => if pt != t {
                    seq![MemRegion { offset: s as u64, size: z as u64, region_type: pt }] + merge_chunks(
                        classes,
                        i + 1,
                        Some((i * 1024, 1024, t)),
                    )
                } else {
                    merge_chunks(classes, i + 1, Some((s, z + 1024, pt)))
                },
            },
        }
    }
}

/// Kind of the first region containing `offset`, or `Unknown`.
pub open spec fn region_type_at(regions: Seq<MemRegion>, offset: u64) -> RegionType
    decreases regions.len(),
{
    if regions.len() == 0 {
        RegionType::Unknown
    } else if regions[0].offset <= offset < regions[0].offset + regions[0].size {
        regions[0].region_type
    } else {
        region_type_at(regions.drop_first(), offset)
    }
}

/// Largest end (`offset + size`) of a code region, or zero.
pub open spec fn max_code_end(regions: Seq<MemRegion>) -> int
    decreases regions.len(),
{
    if regions.len() == 0 {
        0
    } else {
        let rest = max_code_end(regions.drop_first());
        if regions[0].region_type == RegionType::Code && regions[0].offset + regions[0].size > rest {
            regions[0].offset + regions[0].size
        } else {
            rest
        }
    }
}

/// The largest code end is the end of the last-ending code region: no code
/// region ends past it, and it is the end of one of them (zero when the map
/// holds no code).
pub proof fn lemma_max_code_end_bounds(regions: Seq<MemRegion>)
    ensures
        max_code_end(regions) >= 0,
        forall|i: int|
            0 <= i < regions.len() && #[trigger] regions[i].region_type == RegionType::Code ==> regions[i].offset
                + regions[i].size <= max_code_end(regions),
        max_code_end(regions) == 0 || exists|i: int|
            0 <= i < regions.len() && #[trigger] regions[i].region_type == RegionType::Code && regions[i].offset
                + regions[i].size == max_code_end(regions),
    decreases regions.len(),
{
    if regions.len() > 0 {
        let rest = regions.drop_first();
        lemma_max_code_end_bounds(rest);
        assert forall|i: int|
            0 <= i < regions.len() && #[trigger] regions[i].region_type == RegionType::Code implies regions[i].offset
                + regions[i].size <= max_code_end(regions) by {
            if i > 0 {
                assert(regions[i] == rest[i - 1]);
            }
        }
        if max_code_end(regions) != 0 && max_code_end(regions) == max_code_end(rest) {
            let j = choose|j: int|
                0 <= j < rest.len() && #[trigger] rest[j].region_type == RegionType::Code && rest[j].offset
                    + rest[j].size == max_code_end(rest);
            assert(regions[j + 1] == rest[j]);
        }
    }
}

/// The classified memory map of a firmware image.
#[derive(Debug)]
pub struct MemoryMap {
    regions: Vec<MemRegion>,
}

impl View for MemoryMap {
    type V = Seq<MemRegion>;

    closed spec fn view(&self) -> Seq<MemRegion> {
        self.regions@
    }
}

/// Every region of a sequence ends within the 64-bit address space.
pub open spec fn regions_fit(regions: Seq<MemRegion>) -> bool {
    forall|i: int| 0 <= i < regions.len() ==> #[trigger] regions[i].offset + regions[i].size <= u64::MAX
}

impl MemoryMap {
    #[verifier::type_invariant]
    spec fn fits(self) -> bool {
        regions_fit(self.regions@)
    }

    /// Create an empty map.
    pub fn new() -> (m: MemoryMap)
        ensures
            m@ == Seq::<MemRegion>::empty(),
    {
        MemoryMap { regions: Vec::new() }
    }

    /// Merge per-chunk kinds (`None` for an unclassified chunk) into regions:
    /// chunk `i` covers bytes `[i * 1024, (i + 1) * 1024)`.
    pub fn from_chunk_classes(classes: &[Option<RegionType>]) -> (m: MemoryMap)
        requires
            classes@.len() * 1024 <= u64::MAX,
        ensures
            m@ == merge_chunks(classes@, 0, None),
    {
        let mut regions: Vec<MemRegion> = Vec::new();
        let mut current: Option<(u64, u64, RegionType)> = None;
        let mut i: usize = 0;
        let n = classes.len();
        while i < n
            invariant
                n == classes@.len(),
                n * 1024 <= u64::MAX,
                i <= n,
                regions_fit(regions@),
                current matches Some((s, z, _)) ==> s + z <= i * 1024,
                merge_chunks(classes@, 0, None) == regions@ + merge_chunks(
                    classes@,
                    i as int,
                    match current {
                        Some((s, z, t)) => Some((s as int, z as int, t)),
                        None => None,
                    },
                ),
            decreases n - i,
        {
            let off = (i as u64) * 1024;
            let ghost before = regions@;
            match classes[i] {
                None => {},
                Some(ty) => {
                    match current {
                        None => {
                            current = Some((off, 1024, ty));
                        },
                        Some((start, size, prev)) => {
                            if prev != ty {
                                regions.push(MemRegion { offset: start, size, region_type: prev });
                                current = Some((off, 1024, ty));
                                proof {
                                    let r = MemRegion { offset: start, size, region_type: prev };
                                    assert(regions@ == before.push(r));
                                    assert(before + (seq![r] + merge_chunks(
                                        classes@,
                                        i + 1,
                                        Some((i * 1024, 1024, ty)),
                                    )) =~= regions@ + merge_chunks(
                                        classes@,
                                        i + 1,
                                        Some((i * 1024, 1024, ty)),
                                    ));
                                }
                            } else {
                                current = Some((start, size + 1024, prev));
                            }
                        },
                    }
                },
            }
            i = i + 1;
        }
        if let Some((start, size, ty)) = current {
            regions.push(MemRegion { offset: start, size, region_type: ty });
        }
        proof {
            assert(regions@ =~= merge_chunks(classes@, 0, None));
        }
        MemoryMap { regions }
    }

    /// Number of regions.
    pub fn len(&self) -> (n: usize)
        ensures
            n == self@.len(),
    {
        self.regions.len()
    }

    /// Whether the map has no regions.
    pub fn is_empty(&self) -> (b: bool)
        ensures
            b == (self@.len() == 0),
    {
        self.regions.len() == 0
    }

    /// Iterate over the regions.
    pub fn iter(&self) -> (it: std::slice::Iter<'_, MemRegion>)
        ensures
            it.remaining() == self@.as_ref(),
    {
        let s = self.regions.as_slice();
        proof {
            vstd::std_specs::slice::axiom_spec_slice_iter(s);
        }
        s.iter()
    }

    /// Kind of the first region containing `offset`, or `Unknown`.
    pub fn get_type(&self, offset: u64) -> (t: RegionType)
        ensures
            t == region_type_at(self@, offset),
    {
        proof {
            use_type_invariant(self);
            assert(self@.subrange(0, self@.len() as int) =~= self@);
        }
        let mut i: usize = 0;
        while i < self.regions.len()
            invariant
                i <= self@.len(),
                regions_fit(self@),
                region_type_at(self@, offset) == region_type_at(self@.subrange(i as int, self@.len() as int), offset),
            decreases self@.len() - i,
        {
            let r = self.regions[i];
            proof {
                let rest = self@.subrange(i as int, self@.len() as int);
                assert(rest[0] == r);
                assert(rest.drop_first() =~= self@.subrange(i + 1, self@.len() as int));
                assert(r.offset + r.size <= u64::MAX);
            }
            if offset >= r.offset && offset < r.offset + r.size {
                return r.region_type;
            }
            i = i + 1;
        }
        RegionType::Unknown
    }

    /// Largest end (`offset + size`) of a code region, or 0 if there is none.
    pub fn max_code_addr(&self) -> (m: u64)
        ensures
            m == max_code_end(self@),
            forall|i: int|
                0 <= i < self@.len() && #[trigger] self@[i].region_type == RegionType::Code ==> self@[i].offset
                    + self@[i].size <= m,
            m == 0 || exists|i: int|
                0 <= i < self@.len() && #[trigger] self@[i].region_type == RegionType::Code && self@[i].offset
                    + self@[i].size == m,
    {
        proof {
            use_type_invariant(self);
            lemma_max_code_end_bounds(self@);
        }
        let n = self.regions.len();
        let mut best: u64 = 0;
        let mut i: usize = n;
        while i > 0
            invariant
                n == self@.len(),
                i <= n,
                regions_fit(self@),
                best == max_code_end(self@.subrange(i as int, n as int)),
            decreases i,
        {
            let r = self.regions[i - 1];
            proof {
                let rest = self@.subrange(i - 1, n as int);
                assert(rest[0] == r);
                assert(rest.drop_first() =~= self@.subrange(i as int, n as int));
                assert(r.offset + r.size <= u64::MAX);
            }
            if r.region_type == RegionType::Code && r.offset + r.size > best {
                best = r.offset + r.size;
            }
            i = i - 1;
        }
        proof {
            assert(self@.subrange(0, n as int) =~= self@);
        }
        best
    }
}


/// Neighbouring regions of `rs` differ in kind.
pub open spec fn alternates(rs: Seq<MemRegion>) -> bool {
    forall|k: int| 0 <= k < rs.len() - 1 ==> (#[trigger] rs[k]).region_type != rs[k + 1].region_type
}

/// Merging never leaves two neighbouring regions of the same kind, and a
/// region in progress of kind `t` comes out first.
#[verifier::rlimit(60)]
proof fn lemma_merge_alternates(classes: Seq<Option<RegionType>>, i: int, cur: Option<(int, int, RegionType)>)
    requires
        0 <= i,
    ensures
        alternates(merge_chunks(classes, i, cur)),
        cur matches Some(c) ==> merge_chunks(classes, i, cur).len() > 0 && merge_chunks(classes, i, cur)[0].region_type
            == c.2,
    decreases classes.len() - i,
{
    let r = merge_chunks(classes, i, cur);
    if i < classes.len() {
        match classes[i] {
            None => {
                lemma_merge_alternates(classes, i + 1, cur);
                assert(r == merge_chunks(classes, i + 1, cur));
            },
            Some(t) => match cur {
                None => {
                    lemma_merge_alternates(classes, i + 1, Some((i * 1024, 1024, t)));
                    assert(r == merge_chunks(classes, i + 1, Some((i * 1024, 1024, t))));
                },
                Some(c) => if c.2 != t {
                    let next = Some((i * 1024, 1024, t));
                    lemma_merge_alternates(classes, i + 1, next);
                    let head = seq![MemRegion { offset: c.0 as u64, size: c.1 as u64, region_type: c.2 }];
                    let rest = merge_chunks(classes, i + 1, next);
                    assert(r == head + rest);
                    assert forall|k: int| 0 <= k < r.len() - 1 implies (#[trigger] r[k]).region_type
                        != r[k + 1].region_type by {
                        if k == 0 {
                            assert(r[1] == rest[0]);
                        } else {
                            assert(r[k] == rest[k - 1] && r[k + 1] == rest[k]);
                        }
                    }
                } else {
                    lemma_merge_alternates(classes, i + 1, Some((c.0, c.1 + 1024, c.2)));
                    assert(r == merge_chunks(classes, i + 1, Some((c.0, c.1 + 1024, c.2))));
                },
            },
        }
    }
}

/// Neighbouring regions of a memory map built from chunk kinds differ in
/// kind.
pub proof fn lemma_chunk_regions_alternate(classes: Seq<Option<RegionType>>)
    ensures
        alternates(merge_chunks(classes, 0, None)),
{
    lemma_merge_alternates(classes, 0, None);
}

} // verus!
