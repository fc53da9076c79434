//! Points of interest (POIs): strings, value arrays, pointers and structures
//! discovered in the firmware, kept in discovery order.

use vstd::prelude::*;
use crate::arch::Arch;
use vstd::std_specs::iter::IteratorSpec;

verus! {

/// Kind of point of interest. The declaration order matters: every kind from
/// `GenericPointer` on is a pointer.
#[derive(Clone, Copy, PartialEq, Eq, PartialOrd, Ord, Debug, Structural)]
pub enum PoiType {
    Unknown,
    String,
    Array,
    Structure,
    Function,
    GenericPointer,
    DataPointer,
    UninitDataPointer,
    FunctionPointer,
    ArrayPointer,
    StringPointer,
    PointerPointer,
    StructurePointer,
    StructArrayPointer,
    NullPtrOrValue,
}

impl PoiType {
    /// Position of the kind in the declaration order (0 to 14).
    pub open spec fn code(self) -> i32 {
        match self {
            PoiType::Unknown => 0,
            PoiType::String => 1,
            PoiType::Array => 2,
            PoiType::Structure => 3,
            PoiType::Function => 4,
            PoiType::GenericPointer => 5,
            PoiType::DataPointer => 6,
            PoiType::UninitDataPointer => 7,
            PoiType::FunctionPointer => 8,
            PoiType::ArrayPointer => 9,
            PoiType::StringPointer => 10,
            PoiType::PointerPointer => 11,
            PoiType::StructurePointer => 12,
            PoiType::StructArrayPointer => 13,
            PoiType::NullPtrOrValue => 14,
        }
    }

    /// Numeric value used when a POI kind is stored in a structure
    /// signature (which also uses `-1` for an unknown member).
    pub fn as_signature(self) -> (c: i32)
        ensures
            c == self.code(),
    {
        match self {
            PoiType::Unknown => 0,
            PoiType::String => 1,
            PoiType::Array => 2,
            PoiType::Structure => 3,
            PoiType::Function => 4,
            PoiType::GenericPointer => 5,
            PoiType::DataPointer => 6,
            PoiType::UninitDataPointer => 7,
            PoiType::FunctionPointer => 8,
            PoiType::ArrayPointer => 9,
            PoiType::StringPointer => 10,
            PoiType::PointerPointer => 11,
            PoiType::StructurePointer => 12,
            PoiType::StructArrayPointer => 13,
            PoiType::NullPtrOrValue => 14,
        }
    }

    /// Whether the kind is one of the pointer kinds (`GenericPointer` or later).
    pub fn is_pointer(self) -> (b: bool)
        ensures
            b == (self.code() >= 5),
    {
        self.as_signature() >= 5
    }
}

/// A single point of interest.
#[derive(Clone, Debug)]
pub struct Poi {
    /// Offset of the POI inside the firmware image.
    pub offset: u64,
    /// Length (in elements) for arrays and structures, or a small flag.
    pub count: i32,
    /// Per-member kind signature for structure arrays.
    pub signature: Option<Vec<i32>>,
    /// Number of members for structure arrays.
    pub nb_members: i32,
    /// Kind of POI.
    pub poi_type: PoiType,
}

/// A plain POI: no signature and no members.
pub open spec fn plain_poi(offset: u64, count: i32, poi_type: PoiType) -> Poi {
    Poi { offset, count, signature: None, nb_members: 0, poi_type }
}

impl Poi {
    /// Create a plain (non-structure) POI.
    pub fn new(offset: u64, count: i32, poi_type: PoiType) -> (p: Poi)
        ensures
            p == plain_poi(offset, count, poi_type),
    {
        Poi { offset, count, signature: None, nb_members: 0, poi_type }
    }

    /// An identical copy of the POI.
    pub fn duplicate(&self) -> (p: Poi)
        ensures
            p.offset == self.offset,
            p.count == self.count,
            p.nb_members == self.nb_members,
            p.poi_type == self.poi_type,
            p.signature is Some == self.signature is Some,
            self.signature is Some ==> p.signature->0@ == self.signature->0@,
    {
        let signature = match &self.signature {
            Some(sig) => Some(copy_signature(sig.as_slice())),
            None => None,
        };
        Poi {
            offset: self.offset,
            count: self.count,
            signature,
            nb_members: self.nb_members,
            poi_type: self.poi_type,
        }
    }
}

/// A copy of a signature.
fn copy_signature(sig: &[i32]) -> (v: Vec<i32>)
    ensures
        v@ == sig@,
{
    let mut v: Vec<i32> = Vec::with_capacity(sig.len());
    let mut i: usize = 0;
    while i < sig.len()
        invariant
            i <= sig@.len(),
            v@ == sig@.subrange(0, i as int),
        decreases sig@.len() - i,
    {
        v.push(sig[i]);
        i = i + 1;
        proof {
            assert(v@ =~= sig@.subrange(0, i as int));
        }
    }
    proof {
        assert(v@ =~= sig@);
    }
    v
}

/// C `isprint`: printable ASCII, space (`0x20`) through tilde (`0x7e`).
pub open spec fn printable(b: u8) -> bool {
    0x20 <= b <= 0x7e
}

/// The string POIs found scanning `content` from position `i`, where `start`
/// is the beginning of the printable run in progress (if any). A run is
/// recorded when a non-printable byte ends it and it is at least `min_size`
/// long; a run still open at the end of the buffer is not recorded.
pub open spec fn string_runs(content: Seq<u8>, min_size: int, i: int, start: Option<int>) -> Seq<Poi>
    decreases content.len() - i,
{
    if i < 0 || i >= content.len() {
        seq![]
    } else if printable(content[i]) {
        match start {
            None => string_runs(content, min_size, i + 1, Some(i)),
            Some(b) => string_runs(content, min_size, i + 1, Some(b)),
        }
    } else {
        match start {
            None => string_runs(content, min_size, i + 1, None),
            Some(b) => (if i - b >= min_size {
                seq![plain_poi(b as u64, (i - b) as i32, PoiType::String)]
            } else {
                seq![]
            }) + string_runs(content, min_size, i + 1, None),
        }
    }
}

/// Index of the first POI whose offset is at least `offset` (or the length).
pub open spec fn first_at_least(items: Seq<Poi>, offset: u64) -> int
    decreases items.len(),
{
    if items.len() == 0 {
        0
    } else if items[0].offset >= offset {
        0
    } else {
        1 + first_at_least(items.drop_first(), offset)
    }
}

/// Whether `address` falls in `poi` for the base `offset`: at the exact start
/// of a string, or within the pointer-sized elements of an array.
pub open spec fn poi_covers(poi: Poi, pointer_size: int, address: u64, offset: u64) -> bool {
    match poi.poi_type {
        PoiType::String => address == poi.offset + offset,
        PoiType::Array => {
            let start = poi.offset + offset;
            poi.offset + offset <= address < start + (poi.count as u64) * pointer_size
        },
        _ => false,
    }
}

/// An ordered collection of points of interest.
#[derive(Clone, Debug, Default)]
pub struct PoiList {
    items: Vec<Poi>,
}

impl View for PoiList {
    type V = Seq<Poi>;

    closed spec fn view(&self) -> Seq<Poi> {
        self.items@
    }
}

impl PoiList {
    /// Create an empty list.
    pub fn new() -> (l: PoiList)
        ensures
            l@ == Seq::<Poi>::empty(),
    {
        PoiList { items: Vec::new() }
    }

    /// Number of POIs in the list.
    pub fn count(&self) -> (n: usize)
        ensures
            n == self@.len(),
    {
        self.items.len()
    }

    /// Whether the list is empty.
    pub fn is_empty(&self) -> (b: bool)
        ensures
            b == (self@.len() == 0),
    {
        self.items.len() == 0
    }

    /// Borrow the POI at position `i`.
    pub fn get(&self, i: usize) -> (p: &Poi)
        requires
            i < self@.len(),
        ensures
            *p == self@[i as int],
    {
        &self.items[i]
    }

    /// Iterate over the POIs in insertion order.
    pub fn iter(&self) -> (it: std::slice::Iter<'_, Poi>)
        ensures
            it.remaining() == self@.as_ref(),
    {
        let s = self.items.as_slice();
        proof {
            vstd::std_specs::slice::axiom_spec_slice_iter(s);
        }
        s.iter()
    }

    /// Change the kind of the POI at position `i`.
    pub fn set_type(&mut self, i: usize, t: PoiType)
        requires
            i < old(self)@.len(),
        ensures
            final(self)@ == old(self)@.update(i as int, Poi { poi_type: t, ..old(self)@[i as int] }),
    {
        let mut p = self.items.remove(i);
        p.poi_type = t;
        self.items.insert(i, p);
        proof {
            assert(self.items@ =~= old(self)@.update(i as int, Poi { poi_type: t, ..old(self)@[i as int] }));
        }
    }

    /// Append a POI unconditionally.
    pub fn add(&mut self, offset: u64, count: i32, poi_type: PoiType)
        ensures
            final(self)@ == old(self)@.push(plain_poi(offset, count, poi_type)),
    {
        self.items.push(Poi::new(offset, count, poi_type));
    }

    /// Whether some POI of the list sits at `offset`.
    pub fn has_offset(&self, offset: u64) -> (b: bool)
        ensures
            b == exists|i: int| 0 <= i < self@.len() && #[trigger] self@[i].offset == offset,
    {
        let mut i: usize = 0;
        while i < self.items.len()
            invariant
                i <= self@.len(),
                forall|j: int| 0 <= j < i ==> #[trigger] self@[j].offset != offset,
            decreases self@.len() - i,
        {
            if self.items[i].offset == offset {
                return true;
            }
            i = i + 1;
        }
        false
    }

    /// Append a POI only if no POI of the list sits at the same offset.
    /// Returns `true` when the POI was added.
    pub fn add_unique(&mut self, offset: u64, count: i32, poi_type: PoiType) -> (added: bool)
        ensures
            added == !exists|i: int| 0 <= i < old(self)@.len() && #[trigger] old(self)@[i].offset == offset,
            final(self)@ == if added {
                old(self)@.push(plain_poi(offset, count, poi_type))
            } else {
                old(self)@
            },
            final(self)@ == unique_added(old(self)@, plain_poi(offset, count, poi_type)),
    {
        if self.has_offset(offset) {
            return false;
        }
        self.items.push(Poi::new(offset, count, poi_type));
        true
    }

    /// Insert a plain copy of `poi` (kind, offset and count) before the first
    /// POI whose offset is not smaller, unless that POI has the same offset.
    /// On a list sorted by offset this keeps it sorted and free of repeats.
    pub fn add_unique_sorted(&mut self, poi: &Poi)
        ensures
            final(self)@ == sorted_insert(old(self)@, *poi),
    {
        let ghost items = self@;
        let mut i: usize = 0;
        while i < self.items.len() && self.items[i].offset <= poi.offset
            invariant
                items == self@,
                i <= items.len(),
                forall|j: int| 0 <= j < i ==> #[trigger] items[j].offset < poi.offset,
            decreases items.len() - i,
        {
            if self.items[i].offset == poi.offset {
                proof {
                    lemma_first_at_least(items, poi.offset, i as int);
                }
                return;
            }
            i = i + 1;
        }
        let insert_at = i;
        proof {
            lemma_first_at_least(items, poi.offset, insert_at as int);
        }
        let copy = Poi::new(poi.offset, poi.count, poi.poi_type);
        self.items.insert(insert_at, copy);
    }

    /// Add a structure-array POI with its per-member signature, unless a POI
    /// already sits at `offset`. Returns `true` when it was added.
    pub fn add_structure_array(&mut self, offset: u64, count: i32, nb_members: i32, signature: &[i32]) -> (added: bool)
        ensures
            added == !exists|i: int| 0 <= i < old(self)@.len() && #[trigger] old(self)@[i].offset == offset,
            !added ==> final(self)@ == old(self)@,
            added ==> {
                &&& final(self)@.len() == old(self)@.len() + 1
                &&& final(self)@.subrange(0, old(self)@.len() as int) == old(self)@
                &&& final(self)@.last().offset == offset
                &&& final(self)@.last().count == count
                &&& final(self)@.last().nb_members == nb_members
                &&& final(self)@.last().poi_type == PoiType::StructurePointer
                &&& final(self)@.last().signature matches Some(s) && s@ == signature@
            },
    {
        if self.has_offset(offset) {
            return false;
        }
        let sig = copy_signature(signature);
        self.items.push(
            Poi { offset, count, signature: Some(sig), nb_members, poi_type: PoiType::StructurePointer },
        );
        proof {
            assert(self@.subrange(0, old(self)@.len() as int) =~= old(self)@);
        }
        true
    }

    /// C `isprint`: printable ASCII, space through tilde.
    pub fn is_print(b: u8) -> (r: bool)
        ensures
            r == printable(b),
            r <==> 0x20 <= b <= 0x7e,
    {
        0x20 <= b && b <= 0x7e
    }

    /// A fresh list holding the printable-string POIs of `content`.
    pub fn index_strings(content: &[u8], min_size: usize) -> (l: PoiList)
        ensures
            l@ == string_runs(content@, min_size as int, 0, None),
            content@.len() <= i32::MAX ==> forall|k: int|
                0 <= k < l@.len() ==> {
                    let p = #[trigger] l@[k];
                    &&& p.poi_type == PoiType::String
                    &&& p.count >= min_size
                    &&& p.offset + p.count < content@.len()
                    &&& forall|j: int| p.offset <= j < p.offset + p.count ==> 0x20 <= #[trigger] content@[j] <= 0x7e
                    &&& !(0x20 <= content@[p.offset + p.count] <= 0x7e)
                    &&& p.offset == 0 || !(0x20 <= content@[p.offset - 1] <= 0x7e)
                },
    {
        let mut list = PoiList::new();
        list.append_strings(content, min_size);
        proof {
            if content@.len() <= i32::MAX {
                lemma_string_runs_printable(content@, min_size as int, 0, None);
            }
            assert(list@ =~= string_runs(content@, min_size as int, 0, None));
        }
        list
    }

    /// Append a `String` POI for every run of printable ASCII that is at least
    /// `min_size` bytes long and is ended by a non-printable byte; the stored
    /// count is the run length truncated to 32 bits.
    pub fn append_strings(&mut self, content: &[u8], min_size: usize)
        ensures
            final(self)@ == old(self)@ + string_runs(content@, min_size as int, 0, None),
    {
        let mut start: Option<usize> = None;
        let mut cursor: usize = 0;
        proof {
            assert(old(self)@ + string_runs(content@, min_size as int, 0, None) =~= self@ + string_runs(
                content@,
                min_size as int,
                0,
                None,
            ));
        }
        while cursor < content.len()
            invariant
                cursor <= content@.len(),
                start matches Some(b) ==> b < cursor,
                old(self)@ + string_runs(content@, min_size as int, 0, None) == self@ + string_runs(
                    content@,
                    min_size as int,
                    cursor as int,
                    match start {
                        Some(b) => Some(b as int),
                        None => None,
                    },
                ),
            decreases content@.len() - cursor,
        {
            let b = content[cursor];
            let is_print = Self::is_print(b);
            let ghost st = match start {
                Some(x) => Some(x as int),
                None => None::<int>,
            };
            let ghost before = self@;
            match start {
                None => {
                    if is_print {
                        start = Some(cursor);
                    }
                },
                Some(begin) => {
                    if !is_print {
                        let len = cursor - begin;
                        if len >= min_size {
                            self.add(begin as u64, len as i32, PoiType::String);
                        }
                        start = None;
                        proof {
                            let here = if cursor - begin >= min_size {
                                seq![plain_poi(begin as u64, (cursor - begin) as i32, PoiType::String)]
                            } else {
                                seq![]
                            };
                            assert(string_runs(content@, min_size as int, cursor as int, st) == here
                                + string_runs(content@, min_size as int, cursor + 1, None));
                            assert(self@ == before + here);
                            assert((before + here) + string_runs(content@, min_size as int, cursor + 1, None)
                                =~= before + (here + string_runs(content@, min_size as int, cursor + 1, None)));
                        }
                    }
                },
            }
            cursor = cursor + 1;
        }
    }

    /// Whether `address` falls inside a known string or array POI, given a
    /// base `offset`: at the exact start of a string, or anywhere within the
    /// pointer-sized elements of an array.
    pub fn is_in(&self, arch: Arch, address: u64, offset: u64) -> (b: bool)
        ensures
            b == exists|i: int|
                0 <= i < self@.len() && poi_covers(#[trigger] self@[i], arch.spec_pointer_size() as int, address, offset),
    {
        let arch_size = arch.pointer_size() as u128;
        let mut i: usize = 0;
        while i < self.items.len()
            invariant
                i <= self@.len(),
                arch_size == arch.spec_pointer_size(),
                forall|j: int|
                    0 <= j < i ==> !poi_covers(#[trigger] self@[j], arch.spec_pointer_size() as int, address, offset),
            decreases self@.len() - i,
        {
            let poi = &self.items[i];
            match poi.poi_type {
                PoiType::String => {
                    if address as u128 == poi.offset as u128 + offset as u128 {
                        return true;
                    }
                },
                PoiType::Array => {
                    let start = poi.offset as u128 + offset as u128;
                    let end = start + (poi.count as u64) as u128 * arch_size;
                    if address as u128 >= start && (address as u128) < end {
                        return true;
                    }
                },
                _ => {},
            }
            i = i + 1;
        }
        false
    }
}

/// Where the scan of `add_unique_sorted` stops: the first offset that is not
/// smaller than `offset`.
proof fn lemma_first_at_least(items: Seq<Poi>, offset: u64, i: int)
    requires
        0 <= i <= items.len(),
        forall|j: int| 0 <= j < i ==> #[trigger] items[j].offset < offset,
        i < items.len() ==> items[i].offset >= offset,
    ensures
        first_at_least(items, offset) == i,
    decreases items.len(),
{
    if items.len() > 0 && i > 0 {
        assert(items[0].offset < offset);
        assert forall|j: int| 0 <= j < i - 1 implies #[trigger] items.drop_first()[j].offset < offset by {
            assert(items.drop_first()[j] == items[j + 1]);
        }
        lemma_first_at_least(items.drop_first(), offset, i - 1);
    }
}


/// Every string the scan records is a maximal run of printable ASCII
/// (`0x20..=0x7e`) bytes of at least `min_size` bytes: each of its bytes
/// lies in that range, the byte after it lies outside, and so does the byte
/// before it unless it starts the buffer (lengths are counted in 32 bits,
/// so the buffer is at most `i32::MAX` bytes long).
pub proof fn lemma_string_runs_printable(content: Seq<u8>, min_size: int, i: int, start: Option<int>)
    requires
        0 <= i,
        content.len() <= i32::MAX,
        start is None ==> i == 0 || i > content.len() || !(0x20 <= content[i - 1] <= 0x7e),
        start matches Some(b) ==> {
            &&& 0 <= b <= i <= content.len()
            &&& b == 0 || !(0x20 <= content[b - 1] <= 0x7e)
            &&& forall|j: int| b <= j < i ==> 0x20 <= #[trigger] content[j] <= 0x7e
        },
    ensures
        forall|k: int|
            0 <= k < string_runs(content, min_size, i, start).len() ==> {
                let p = #[trigger] string_runs(content, min_size, i, start)[k];
                &&& p.poi_type == PoiType::String
                &&& p.count >= min_size
                &&& p.count >= 0
                &&& p.offset + p.count < content.len()
                &&& forall|j: int| p.offset <= j < p.offset + p.count ==> 0x20 <= #[trigger] content[j] <= 0x7e
                &&& !(0x20 <= content[p.offset + p.count] <= 0x7e)
                &&& p.offset == 0 || !(0x20 <= content[p.offset - 1] <= 0x7e)
                &&& p.offset >= match start {
                    Some(b) => b,
                    None => i,
                }
            },
        forall|k1: int, k2: int|
            0 <= k1 < k2 < string_runs(content, min_size, i, start).len() ==> #[trigger] string_runs(
                content,
                min_size,
                i,
                start,
            )[k1].offset < #[trigger] string_runs(content, min_size, i, start)[k2].offset,
    decreases content.len() - i,
{
    if i < content.len() {
        if 0x20 <= content[i] <= 0x7e {
            match start {
                None => {
                    assert(string_runs(content, min_size, i, start) == string_runs(content, min_size, i + 1, Some(i)));
                    lemma_string_runs_printable(content, min_size, i + 1, Some(i))
                },
                Some(b) => {
                    assert(string_runs(content, min_size, i, start) == string_runs(content, min_size, i + 1, Some(b)));
                    lemma_string_runs_printable(content, min_size, i + 1, Some(b))
                },
            }
        } else {
            lemma_string_runs_printable(content, min_size, i + 1, None);
            match start {
                None => {
                    assert(string_runs(content, min_size, i, start) == string_runs(content, min_size, i + 1, None));
                },
                Some(b) => {
                    let here = if i - b >= min_size {
                        seq![plain_poi(b as u64, (i - b) as i32, PoiType::String)]
                    } else {
                        seq![]
                    };
                    let rest = string_runs(content, min_size, i + 1, None);
                    assert(string_runs(content, min_size, i, start) == here + rest);
                    assert forall|k: int| 0 <= k < (here + rest).len() implies {
                        let p = #[trigger] (here + rest)[k];
                        &&& p.poi_type == PoiType::String
                        &&& p.count >= min_size
                        &&& p.count >= 0
                        &&& p.offset + p.count < content.len()
                        &&& forall|j: int| p.offset <= j < p.offset + p.count ==> 0x20 <= #[trigger] content[j] <= 0x7e
                        &&& !(0x20 <= content[p.offset + p.count] <= 0x7e)
                        &&& p.offset == 0 || !(0x20 <= content[p.offset - 1] <= 0x7e)
                        &&& p.offset >= b
                    } by {
                        if k >= here.len() {
                            assert((here + rest)[k] == rest[k - here.len()]);
                        } else {
                            let p = (here + rest)[k];
                            assert(p == plain_poi(b as u64, (i - b) as i32, PoiType::String));
                            assert(p.offset == b && p.count == i - b);
                        }
                    }
                    assert forall|k1: int, k2: int| 0 <= k1 < k2 < (here + rest).len() implies #[trigger] (here
                        + rest)[k1].offset < #[trigger] (here + rest)[k2].offset by {
                        assert((here + rest)[k2] == rest[k2 - here.len()]);
                        if k1 >= here.len() {
                            assert((here + rest)[k1] == rest[k1 - here.len()]);
                        } else {
                            assert((here + rest)[k1].offset == b);
                        }
                    }
                },
            }
        }
    }
}

/// Every maximal run `[b, e)` of printable ASCII (`0x20..=0x7e`) bytes
/// that is at least `min_size` long and ended by a byte outside that range
/// is recorded as a string, from any scan position before it ends.
pub proof fn lemma_string_runs_complete(
    content: Seq<u8>,
    min_size: int,
    i: int,
    start: Option<int>,
    b: int,
    e: int,
)
    requires
        content.len() <= i32::MAX,
        0 <= b < e < content.len(),
        e - b >= min_size,
        b == 0 || !(0x20 <= content[b - 1] <= 0x7e),
        forall|j: int| b <= j < e ==> 0x20 <= #[trigger] content[j] <= 0x7e,
        !(0x20 <= content[e] <= 0x7e),
        0 <= i,
        (start == Some(b) && b <= i <= e) || (i <= b && (i == b ==> start is None)),
    ensures
        exists|k: int|
            0 <= k < string_runs(content, min_size, i, start).len() && #[trigger] string_runs(
                content,
                min_size,
                i,
                start,
            )[k] == plain_poi(b as u64, (e - b) as i32, PoiType::String),
    decreases content.len() - i,
{
    let target = plain_poi(b as u64, (e - b) as i32, PoiType::String);
    if 0x20 <= content[i] <= 0x7e {
        match start {
            None => {
                assert(string_runs(content, min_size, i, start) == string_runs(content, min_size, i + 1, Some(i)));
                lemma_string_runs_complete(content, min_size, i + 1, Some(i), b, e);
            },
            Some(x) => {
                assert(string_runs(content, min_size, i, start) == string_runs(content, min_size, i + 1, Some(x)));
                lemma_string_runs_complete(content, min_size, i + 1, Some(x), b, e);
            },
        }
    } else {
        let rest = string_runs(content, min_size, i + 1, None);
        match start {
            None => {
                assert(string_runs(content, min_size, i, start) == rest);
                lemma_string_runs_complete(content, min_size, i + 1, None, b, e);
            },
            Some(x) => {
                let here = if i - x >= min_size {
                    seq![plain_poi(x as u64, (i - x) as i32, PoiType::String)]
                } else {
                    seq![]
                };
                assert(string_runs(content, min_size, i, start) == here + rest);
                if x == b && i == e {
                    assert((here + rest)[0] == target);
                } else {
                    lemma_string_runs_complete(content, min_size, i + 1, None, b, e);
                    let k = choose|k: int| 0 <= k < rest.len() && #[trigger] rest[k] == target;
                    assert((here + rest)[here.len() + k] == target);
                }
            },
        }
    }
}

/// The string scan only records strings.
pub proof fn lemma_string_runs_kind(content: Seq<u8>, min_size: int, i: int, start: Option<int>)
    ensures
        forall|k: int|
            0 <= k < string_runs(content, min_size, i, start).len() ==> (#[trigger] string_runs(
                content,
                min_size,
                i,
                start,
            )[k]).poi_type == PoiType::String,
    decreases content.len() - i,
{
    if 0 <= i < content.len() {
        if printable(content[i]) {
            match start {
                None => lemma_string_runs_kind(content, min_size, i + 1, Some(i)),
                Some(b) => lemma_string_runs_kind(content, min_size, i + 1, Some(b)),
            }
        } else {
            lemma_string_runs_kind(content, min_size, i + 1, None);
            match start {
                None => {},
                Some(b) => {
                    let here = if i - b >= min_size {
                        seq![plain_poi(b as u64, (i - b) as i32, PoiType::String)]
                    } else {
                        seq![]
                    };
                    let rest = string_runs(content, min_size, i + 1, None);
                    assert forall|k: int| 0 <= k < (here + rest).len() implies (#[trigger] (here + rest)[k]).poi_type
                        == PoiType::String by {
                        if k >= here.len() {
                            assert((here + rest)[k] == rest[k - here.len()]);
                        }
                    }
                },
            }
        }
    }
}


/// The list after `add_unique_sorted` of `p`: a plain copy inserted before
/// the first POI whose offset is not smaller, unless that POI has the same
/// offset.
pub open spec fn sorted_insert(items: Seq<Poi>, p: Poi) -> Seq<Poi> {
    let at = first_at_least(items, p.offset);
    if at < items.len() && items[at].offset == p.offset {
        items
    } else {
        items.insert(at, plain_poi(p.offset, p.count, p.poi_type))
    }
}

/// The list after `add_unique` of a POI: appended unless a POI of the list
/// sits at the same offset.
pub open spec fn unique_added(items: Seq<Poi>, p: Poi) -> Seq<Poi> {
    if exists|i: int| 0 <= i < items.len() && #[trigger] items[i].offset == p.offset {
        items
    } else {
        items.push(p)
    }
}

/// The offsets of `items` increase strictly.
pub open spec fn strictly_sorted(items: Seq<Poi>) -> bool {
    forall|i: int, j: int| 0 <= i < j < items.len() ==> items[i].offset < items[j].offset
}

/// No two POIs of `items` sit at the same offset.
pub open spec fn distinct_offsets(items: Seq<Poi>) -> bool {
    forall|i: int, j: int| 0 <= i < j < items.len() ==> items[i].offset != items[j].offset
}

/// The insertion point is within the list, after every smaller offset and
/// before every other one (on a sorted list).
proof fn lemma_first_at_least_split(items: Seq<Poi>, offset: u64)
    requires
        strictly_sorted(items),
    ensures
        0 <= first_at_least(items, offset) <= items.len(),
        forall|j: int| 0 <= j < first_at_least(items, offset) ==> #[trigger] items[j].offset < offset,
        forall|j: int| first_at_least(items, offset) <= j < items.len() ==> #[trigger] items[j].offset >= offset,
    decreases items.len(),
{
    if items.len() > 0 {
        let rest = items.drop_first();
        assert(strictly_sorted(rest)) by {
            assert forall|i: int, j: int| 0 <= i < j < rest.len() implies rest[i].offset < rest[j].offset by {
                assert(rest[i] == items[i + 1] && rest[j] == items[j + 1]);
            }
        }
        lemma_first_at_least_split(rest, offset);
        if items[0].offset < offset {
            assert forall|j: int| 0 <= j < first_at_least(items, offset) implies #[trigger] items[j].offset
                < offset by {
                if j > 0 {
                    assert(items[j] == rest[j - 1]);
                }
            }
            assert forall|j: int| first_at_least(items, offset) <= j < items.len() implies #[trigger] items[j].offset
                >= offset by {
                assert(items[j] == rest[j - 1]);
            }
        } else {
            assert forall|j: int| 0 <= j < items.len() implies #[trigger] items[j].offset >= offset by {
                if j > 0 {
                    assert(items[0].offset < items[j].offset);
                }
            }
        }
    }
}

/// Sorted insertion keeps a strictly sorted list strictly sorted, and the
/// list then holds a POI at the inserted offset: a list already holding
/// that offset is left as it is, any other gets a plain copy of the POI
/// inserted at some position.
pub proof fn lemma_sorted_insert_sorted(items: Seq<Poi>, p: Poi)
    requires
        strictly_sorted(items),
    ensures
        strictly_sorted(sorted_insert(items, p)),
        exists|k: int|
            0 <= k < sorted_insert(items, p).len() && #[trigger] sorted_insert(items, p)[k].offset == p.offset,
        (exists|i: int| 0 <= i < items.len() && #[trigger] items[i].offset == p.offset) ==> sorted_insert(
            items,
            p,
        ) == items,
        !(exists|i: int| 0 <= i < items.len() && #[trigger] items[i].offset == p.offset) ==> exists|at: int|
            0 <= at <= items.len() && sorted_insert(items, p) == items.insert(
                at,
                plain_poi(p.offset, p.count, p.poi_type),
            ),
{
    lemma_first_at_least_split(items, p.offset);
    let at = first_at_least(items, p.offset);
    let r = sorted_insert(items, p);
    if exists|i: int| 0 <= i < items.len() && #[trigger] items[i].offset == p.offset {
        let i = choose|i: int| 0 <= i < items.len() && #[trigger] items[i].offset == p.offset;
        assert(at <= i);
        if at < i {
            assert(items[at].offset < items[i].offset);
        }
    } else if at < items.len() {
        assert(items[at].offset != p.offset);
    }
    if at < items.len() && items[at].offset == p.offset {
        assert(r[at].offset == p.offset);
    } else {
        assert forall|i: int, j: int| 0 <= i < j < r.len() implies r[i].offset < r[j].offset by {
            if j < at {
                assert(r[i] == items[i] && r[j] == items[j]);
            } else if j == at {
                assert(r[i] == items[i]);
            } else if i < at {
                assert(r[i] == items[i] && r[j] == items[j - 1]);
            } else if i == at {
                assert(r[j] == items[j - 1]);
                assert(items[j - 1].offset != p.offset) by {
                    if j - 1 == at {
                    } else {
                        assert(items[at].offset < items[j - 1].offset);
                    }
                }
            } else {
                assert(r[i] == items[i - 1] && r[j] == items[j - 1]);
            }
        }
        assert(r[at].offset == p.offset);
    }
}

/// Adding a POI with `add_unique` never puts two POIs at one offset, and
/// the list then holds a POI at that offset.
pub proof fn lemma_unique_added_distinct(items: Seq<Poi>, p: Poi)
    requires
        distinct_offsets(items),
    ensures
        distinct_offsets(unique_added(items, p)),
        exists|k: int| 0 <= k < unique_added(items, p).len() && #[trigger] unique_added(items, p)[k].offset == p.offset,
{
    let r = unique_added(items, p);
    if exists|i: int| 0 <= i < items.len() && #[trigger] items[i].offset == p.offset {
        let i = choose|i: int| 0 <= i < items.len() && #[trigger] items[i].offset == p.offset;
        assert(r[i].offset == p.offset);
    } else {
        assert(r[items.len() as int].offset == p.offset);
        assert forall|i: int, j: int| 0 <= i < j < r.len() implies r[i].offset != r[j].offset by {
            if j == items.len() {
                assert(r[i] == items[i]);
            }
        }
    }
}

} // verus!
