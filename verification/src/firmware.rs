//! A firmware image together with the settings of its analysis, tying the
//! detectors and finders together.

use vstd::prelude::*;
use crate::arch::Arch;
use crate::base_address::{
    BaseAddressFinder,
    BaseAddressResult,
    SearchSetup,
    arrays_readable,
    lemma_index_fit,
    lemma_with_functions_fit,
};
use crate::endian_detect::{EndiannessDetector, detected};
use crate::endianness::Endianness;
use crate::error::BinbloomError;
use crate::log::{LogLevel, Logger};
use crate::memregion::MemoryMap;
use crate::poi::{Poi, PoiList, plain_poi};
use crate::uds::{UdsFinder, UdsResult, UdsSetup};

verus! {

/// Result of a base-address analysis, with the endianness used.
#[derive(Clone, Debug)]
pub struct BaseAddressAnalysis {
    pub endianness: Endianness,
    pub result: BaseAddressResult,
}

/// Plain copies (offset, count and kind) of POIs.
pub open spec fn plain_copies(items: Seq<Poi>) -> Seq<Poi> {
    items.map_values(|p: Poi| plain_poi(p.offset, p.count, p.poi_type))
}

/// A firmware image plus the configuration needed to analyse it.
#[derive(Debug)]
pub struct Firmware {
    content: Vec<u8>,
    arch: Arch,
    endian: Endianness,
    alignment: u64,
    deep: bool,
    nb_threads: usize,
    ptr_aligned: bool,
    logger: Logger,
}

impl Clone for Firmware {
    /// A copy of the image with the same configuration.
    fn clone(&self) -> (r: Self)
        ensures
            r.spec_content() == self.spec_content(),
            r.spec_arch() == self.spec_arch(),
            r.spec_endian() == self.spec_endian(),
            r.spec_alignment() == self.spec_alignment(),
            r.spec_deep() == self.spec_deep(),
            r.spec_nb_threads() == self.spec_nb_threads(),
            r.spec_ptr_aligned() == self.spec_ptr_aligned(),
            r.spec_log_level() == self.spec_log_level(),
    {
        proof {
            use_type_invariant(self);
        }
        let content = self.content.clone();
        proof {
            assert(content@ =~= self.content@);
        }
        Firmware {
            content,
            arch: self.arch,
            endian: self.endian,
            alignment: self.alignment,
            deep: self.deep,
            nb_threads: self.nb_threads,
            ptr_aligned: self.ptr_aligned,
            logger: self.logger,
        }
    }
}

/// Default base-address alignment (`0x1000`).
pub const DEFAULT_ALIGNMENT: u64 = 0x1000;

impl Firmware {
    #[verifier::type_invariant]
    spec fn consistent(self) -> bool {
        &&& self.content@.len() <= isize::MAX
        &&& self.content@.len() >= self.arch.spec_pointer_size()
        &&& self.nb_threads >= 1
    }

    /// The image bytes.
    pub closed spec fn spec_content(&self) -> Seq<u8> {
        self.content@
    }

    /// The architecture the image is analysed as.
    pub closed spec fn spec_arch(&self) -> Arch {
        self.arch
    }

    /// The forced endianness (`Unknown` to detect it).
    pub closed spec fn spec_endian(&self) -> Endianness {
        self.endian
    }

    /// The candidate base-address alignment.
    pub closed spec fn spec_alignment(&self) -> u64 {
        self.alignment
    }

    /// Whether every candidate is refined.
    pub closed spec fn spec_deep(&self) -> bool {
        self.deep
    }

    /// Number of refinement workers (at least one).
    pub closed spec fn spec_nb_threads(&self) -> usize {
        self.nb_threads
    }

    /// Whether candidate pointers must be aligned to the pointer size.
    pub closed spec fn spec_ptr_aligned(&self) -> bool {
        self.ptr_aligned
    }

    /// The logger's loudest level.
    pub closed spec fn spec_log_level(&self) -> LogLevel {
        self.logger.spec_level()
    }

    /// The endianness an analysis uses: the forced one, or the detected one.
    pub open spec fn spec_resolved(&self) -> Endianness {
        if self.spec_endian() != Endianness::Unknown {
            self.spec_endian()
        } else {
            detected(self.spec_content(), self.spec_arch())
        }
    }

    /// The base-address search over this image read with `endian`, with
    /// memory map `regions` and known symbols `symbols`.
    pub open spec fn search_setup(
        &self,
        endian: Endianness,
        regions: Seq<crate::memregion::MemRegion>,
        symbols: Option<Seq<Poi>>,
    ) -> SearchSetup {
        SearchSetup {
            content: self.spec_content(),
            arch: self.spec_arch(),
            endian,
            regions,
            alignment_mask: vstd::wrapping::u64_specs::wrapping_sub(self.spec_alignment(), 1),
            deep: self.spec_deep(),
            ptr_aligned: self.spec_ptr_aligned(),
            symbols,
        }
    }

    /// The UDS search over this image, read with its resolved byte order,
    /// with memory map `regions` and known symbols `symbols`.
    pub open spec fn uds_setup(&self, regions: Seq<crate::memregion::MemRegion>, symbols: Option<Seq<Poi>>) -> UdsSetup {
        UdsSetup {
            content: self.spec_content(),
            arch: self.spec_arch(),
            endian: self.spec_resolved(),
            regions,
            symbols,
        }
    }

    /// The points of interest a base-address search works on: with a
    /// symbol list, copies of the symbols followed by the image's strings
    /// and value arrays; otherwise the strings and value arrays followed by
    /// the functions found through arrays of code pointers.
    pub open spec fn search_pois(
        &self,
        endian: Endianness,
        regions: Seq<crate::memregion::MemRegion>,
        symbols: Option<Seq<Poi>>,
    ) -> Seq<Poi> {
        let plain = self.search_setup(endian, regions, None);
        match symbols {
            Some(s) => plain.poi_index(plain_copies(s), true),
            None => {
                let indexed = plain.poi_index(Seq::empty(), true);
                crate::base_address::with_functions(indexed, plain.function_addresses(indexed, indexed.len() as int))
            },
        }
    }

    /// Build a firmware from raw bytes for `arch`, with default settings
    /// (detected endianness, one worker, `0x1000` alignment, no deep search,
    /// no pointer-alignment check). An image smaller than one pointer is
    /// refused.
    pub fn from_bytes(content: Vec<u8>, arch: Arch) -> (r: Result<Firmware, BinbloomError>)
        requires
            content@.len() <= isize::MAX,
        ensures
            content@.len() < arch.spec_pointer_size() <==> r is Err,
            r matches Err(e) ==> e == (BinbloomError::FileTooSmall {
                required: arch.spec_pointer_size() as usize,
                actual: content@.len() as usize,
            }),
            r matches Ok(fw) ==> {
                &&& fw.spec_content() == content@
                &&& fw.spec_arch() == arch
                &&& fw.spec_endian() == Endianness::Unknown
                &&& fw.spec_alignment() == DEFAULT_ALIGNMENT
                &&& !fw.spec_deep()
                &&& fw.spec_nb_threads() == 1
                &&& !fw.spec_ptr_aligned()
                &&& fw.spec_log_level() == LogLevel::Warning
            },
    {
        let required = arch.pointer_size();
        if content.len() < required {
            return Err(BinbloomError::FileTooSmall { required, actual: content.len() });
        }
        Ok(
            Firmware {
                content,
                arch,
                endian: Endianness::Unknown,
                alignment: DEFAULT_ALIGNMENT,
                deep: false,
                nb_threads: 1,
                ptr_aligned: false,
                logger: Logger::default(),
            },
        )
    }

    /// Force a specific endianness instead of detecting it.
    pub fn with_endianness(self, endian: Endianness) -> (f: Firmware)
        ensures
            f.spec_content() == self.spec_content(),
            f.spec_arch() == self.spec_arch(),
            f.spec_endian() == endian,
            f.spec_alignment() == self.spec_alignment(),
            f.spec_deep() == self.spec_deep(),
            f.spec_nb_threads() == self.spec_nb_threads(),
            f.spec_ptr_aligned() == self.spec_ptr_aligned(),
            f.spec_log_level() == self.spec_log_level(),
    {
        proof {
            use_type_invariant(&self);
        }
        Firmware { endian, ..self }
    }

    /// Set the candidate base-address alignment.
    pub fn with_alignment(self, alignment: u64) -> (f: Firmware)
        ensures
            f.spec_content() == self.spec_content(),
            f.spec_arch() == self.spec_arch(),
            f.spec_endian() == self.spec_endian(),
            f.spec_alignment() == alignment,
            f.spec_deep() == self.spec_deep(),
            f.spec_nb_threads() == self.spec_nb_threads(),
            f.spec_ptr_aligned() == self.spec_ptr_aligned(),
            f.spec_log_level() == self.spec_log_level(),
    {
        proof {
            use_type_invariant(&self);
        }
        Firmware { alignment, ..self }
    }

    /// Enable or disable deep search (refine every candidate).
    pub fn with_deep(self, deep: bool) -> (f: Firmware)
        ensures
            f.spec_content() == self.spec_content(),
            f.spec_arch() == self.spec_arch(),
            f.spec_endian() == self.spec_endian(),
            f.spec_alignment() == self.spec_alignment(),
            f.spec_deep() == deep,
            f.spec_nb_threads() == self.spec_nb_threads(),
            f.spec_ptr_aligned() == self.spec_ptr_aligned(),
            f.spec_log_level() == self.spec_log_level(),
    {
        proof {
            use_type_invariant(&self);
        }
        Firmware { deep, ..self }
    }

    /// Set the number of refinement workers (at least one).
    pub fn with_threads(self, nb_threads: usize) -> (f: Firmware)
        ensures
            f.spec_content() == self.spec_content(),
            f.spec_arch() == self.spec_arch(),
            f.spec_endian() == self.spec_endian(),
            f.spec_alignment() == self.spec_alignment(),
            f.spec_deep() == self.spec_deep(),
            f.spec_nb_threads() == if nb_threads >= 1 {
                nb_threads
            } else {
                1
            },
            f.spec_ptr_aligned() == self.spec_ptr_aligned(),
            f.spec_log_level() == self.spec_log_level(),
    {
        proof {
            use_type_invariant(&self);
        }
        let n = if nb_threads >= 1 {
            nb_threads
        } else {
            1
        };
        Firmware { nb_threads: n, ..self }
    }

    /// Enable or disable the pointer-alignment check.
    pub fn with_pointer_alignment(self, ptr_aligned: bool) -> (f: Firmware)
        ensures
            f.spec_content() == self.spec_content(),
            f.spec_arch() == self.spec_arch(),
            f.spec_endian() == self.spec_endian(),
            f.spec_alignment() == self.spec_alignment(),
            f.spec_deep() == self.spec_deep(),
            f.spec_nb_threads() == self.spec_nb_threads(),
            f.spec_ptr_aligned() == ptr_aligned,
            f.spec_log_level() == self.spec_log_level(),
    {
        proof {
            use_type_invariant(&self);
        }
        Firmware { ptr_aligned, ..self }
    }

    /// Attach a logger.
    pub fn with_logger(self, logger: Logger) -> (f: Firmware)
        ensures
            f.spec_content() == self.spec_content(),
            f.spec_arch() == self.spec_arch(),
            f.spec_endian() == self.spec_endian(),
            f.spec_alignment() == self.spec_alignment(),
            f.spec_deep() == self.spec_deep(),
            f.spec_nb_threads() == self.spec_nb_threads(),
            f.spec_ptr_aligned() == self.spec_ptr_aligned(),
            f.spec_log_level() == logger.spec_level(),
    {
        proof {
            use_type_invariant(&self);
        }
        Firmware { logger, ..self }
    }

    /// Image size in bytes.
    pub fn len(&self) -> (n: usize)
        ensures
            n == self.spec_content().len(),
    {
        self.content.len()
    }

    /// Whether the image is empty.
    pub fn is_empty(&self) -> (b: bool)
        ensures
            b == (self.spec_content().len() == 0),
    {
        self.content.len() == 0
    }

    /// The raw image bytes.
    pub fn content(&self) -> (c: &[u8])
        ensures
            c@ == self.spec_content(),
    {
        self.content.as_slice()
    }

    /// The architecture the image is analysed as.
    pub fn arch(&self) -> (a: Arch)
        ensures
            a == self.spec_arch(),
    {
        self.arch
    }

    /// The endianness to use: the forced one, or the one detected from the
    /// content.
    pub fn resolve_endianness(&self) -> (e: Endianness)
        ensures
            e == self.spec_resolved(),
    {
        if self.endian != Endianness::Unknown {
            self.endian
        } else {
            EndiannessDetector::new(self.arch).detect(&self.content)
        }
    }

    /// A plain copy of every POI of `symbols`, to be extended.
    fn seed_list(symbols: &PoiList) -> (l: PoiList)
        ensures
            l@ == plain_copies(symbols@),
    {
        let mut l = PoiList::new();
        let n = symbols.count();
        let mut i: usize = 0;
        while i < n
            invariant
                n == symbols@.len(),
                i <= n,
                l@ == plain_copies(symbols@).subrange(0, i as int),
            decreases n - i,
        {
            let p = symbols.get(i);
            l.add(p.offset, p.count, p.poi_type);
            proof {
                assert(l@ =~= plain_copies(symbols@).subrange(0, i + 1));
            }
            i = i + 1;
        }
        proof {
            assert(l@ =~= plain_copies(symbols@));
        }
        l
    }

    /// The points of interest of a base-address search over this image read
    /// with `endian`, with the memory map `memory` and optionally a list of
    /// known symbols (see `search_pois`).
    pub fn search_points(&self, endian: Endianness, memory: &MemoryMap, symbols: Option<&PoiList>) -> (l: PoiList)
        requires
            symbols matches Some(s) ==> arrays_readable(s@, self.spec_arch().spec_pointer_size()),
        ensures
            l@ == self.search_pois(
                endian,
                memory@,
                match symbols {
                    Some(s) => Some(s@),
                    None => None,
                },
            ),
            arrays_readable(l@, self.spec_arch().spec_pointer_size()),
    {
        proof {
            use_type_invariant(self);
        }
        match symbols {
            Some(symbols) => {
                let mut poi_list = Self::seed_list(symbols);
                let seeder = self.make_finder(endian, memory, None);
                proof {
                    assert(arrays_readable(poi_list@, self.spec_arch().spec_pointer_size())) by {
                        assert forall|k: int|
                            0 <= k < poi_list@.len() && #[trigger] poi_list@[k].poi_type
                                == crate::poi::PoiType::Array implies {
                            &&& poi_list@[k].offset + poi_list@[k].count * self.spec_arch().spec_pointer_size()
                                <= usize::MAX + 1
                            &&& poi_list@[k].offset + self.spec_arch().spec_pointer_size() <= usize::MAX + 1
                        } by {
                            assert(symbols@[k].poi_type == crate::poi::PoiType::Array);
                        }
                    }
                    lemma_index_fit(seeder.setup(), poi_list@, true);
                }
                seeder.populate_poi(&mut poi_list, true);
                poi_list
            },
            None => {
                let finder = self.make_finder(endian, memory, None);
                let mut poi_list = finder.index_poi(true);
                proof {
                    lemma_index_fit(finder.setup(), Seq::empty(), true);
                    let indexed = poi_list@;
                    lemma_with_functions_fit(
                        indexed,
                        finder.setup().function_addresses(indexed, indexed.len() as int),
                        self.spec_arch().spec_pointer_size(),
                    );
                }
                finder.index_functions(&mut poi_list);
                poi_list
            },
        }
    }

    /// Recover the base address with the memory map `memory`, optionally
    /// seeded with a list of known symbols (see `search_pois`; with symbols,
    /// the searched list also serves as the symbol list that decides which
    /// words are function pointers). Fails when there is no point of
    /// interest.
    pub fn find_base_address(&self, memory: &MemoryMap, symbols: Option<&PoiList>) -> (r: Result<
        BaseAddressAnalysis,
        BinbloomError,
    >)
        requires
            symbols matches Some(s) ==> arrays_readable(s@, self.spec_arch().spec_pointer_size()),
        ensures
            ({
                let e = self.spec_resolved();
                let syms = match symbols {
                    Some(s) => Some(s@),
                    None => None,
                };
                let pois = self.search_pois(e, memory@, syms);
                let setup = self.search_setup(
                    e,
                    memory@,
                    match symbols {
                        Some(s) => Some(pois),
                        None => None,
                    },
                );
                &&& (pois.len() == 0 <==> r matches Err(BinbloomError::NoPointsOfInterest))
                &&& (pois.len() != 0 ==> r is Ok)
                &&& (r matches Ok(a) ==> a.endianness == e && setup.describes(pois, a.result))
            }),
    {
        let endian = self.resolve_endianness();
        let poi_list = self.search_points(endian, memory, symbols);
        let seeded = match symbols {
            Some(_) => Some(&poi_list),
            None => None,
        };
        let finder = self.make_finder(endian, memory, seeded);
        match finder.compute_candidates(&poi_list) {
            Ok(result) => Ok(BaseAddressAnalysis { endianness: endian, result }),
            Err(e) => Err(e),
        }
    }

    /// Look for a UDS database in the image loaded at `base`, with the
    /// memory map `memory` and optionally a list of known symbols (see
    /// `UdsSetup::reports`). The location of the run found must fit in 64
    /// bits, and the image be under `2^33` bytes, so that its pointer runs
    /// can be counted in 32 bits.
    pub fn find_uds(&self, base: u64, memory: &MemoryMap, symbols: Option<&PoiList>) -> (r: Option<
        UdsResult,
    >)
        requires
            self.uds_setup(
                memory@,
                match symbols {
                    Some(s) => Some(s@),
                    None => None,
                },
            ).location_fits(base),
            self.spec_content().len() < 0x2_0000_0000,
        ensures
            self.uds_setup(
                memory@,
                match symbols {
                    Some(s) => Some(s@),
                    None => None,
                },
            ).reports(base, r),
            r matches Some(u) ==> self.uds_setup(
                memory@,
                match symbols {
                    Some(s) => Some(s@),
                    None => None,
                },
            ).reported_ids_distinct(base, u),
    {
        proof {
            use_type_invariant(self);
        }
        let endian = self.resolve_endianness();
        let finder = UdsFinder::new(self.content.as_slice(), self.arch, endian, memory, self.logger, symbols);
        finder.find(base)
    }

    /// The base-address finder for this image, endianness, memory map and
    /// symbol list.
    pub fn make_finder<'a>(&'a self, endian: Endianness, memory: &'a MemoryMap, symbols: Option<&'a PoiList>) -> (f:
        BaseAddressFinder<'a>)
        ensures
            f.setup() == (SearchSetup {
                content: self.spec_content(),
                arch: self.spec_arch(),
                endian,
                regions: memory@,
                alignment_mask: vstd::wrapping::u64_specs::wrapping_sub(self.spec_alignment(), 1),
                deep: self.spec_deep(),
                ptr_aligned: self.spec_ptr_aligned(),
                symbols: match symbols {
                    Some(s) => Some(s@),
                    None => None,
                },
            }),
    {
        proof {
            use_type_invariant(self);
        }
        BaseAddressFinder::new(
            self.content.as_slice(),
            self.arch,
            endian,
            memory,
            self.alignment,
            self.deep,
            self.nb_threads,
            self.ptr_aligned,
            symbols,
            self.logger,
        )
    }
}


/// The number of refinement workers does not change what an analysis
/// finds: two firmwares that differ only in it search the same points of
/// interest with the same setup, and run the same UDS search.
pub proof fn lemma_thread_count_irrelevant(
    a: Firmware,
    b: Firmware,
    regions: Seq<crate::memregion::MemRegion>,
    symbols: Option<Seq<Poi>>,
)
    requires
        a.spec_content() == b.spec_content(),
        a.spec_arch() == b.spec_arch(),
        a.spec_endian() == b.spec_endian(),
        a.spec_alignment() == b.spec_alignment(),
        a.spec_deep() == b.spec_deep(),
        a.spec_ptr_aligned() == b.spec_ptr_aligned(),
    ensures
        a.spec_resolved() == b.spec_resolved(),
        forall|e: Endianness| #[trigger] a.search_setup(e, regions, symbols) == b.search_setup(e, regions, symbols),
        forall|e: Endianness| #[trigger] a.search_pois(e, regions, symbols) == b.search_pois(e, regions, symbols),
        a.uds_setup(regions, symbols) == b.uds_setup(regions, symbols),
{
}

} // verus!
