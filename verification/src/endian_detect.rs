//! Endianness detection.
//!
//! A pointer-sized value is read at every byte offset of the image, once as
//! little-endian and once as big-endian. Each non-zero, 4-aligned value is
//! masked down to its most significant bits and counted in a per-endianness
//! address tree. With the right byte order real pointers share a few high
//! prefixes, so their tree shows the larger peak.

use vstd::prelude::*;
use crate::addrtree::{
    lemma_leaf_get, AddrTree, Node, at_least, extend, is_peak, lemma_low_address, lemma_path_of_value, lemma_peak_unique,
    lemma_vote_path_len, peak, registered, to_path,
};
use crate::arch::Arch;
use crate::endianness::Endianness;
use crate::pointer::{PointerReader, decode};

verus! {

/// How often (in scanned offsets) the working trees are pruned.
pub const CLEANUP_INTERVAL: usize = 0x10000;

/// `floor(log2(n))` for `n >= 1` (zero for smaller `n`).
pub open spec fn log2_floor(n: nat) -> nat
    decreases n,
{
    if n <= 1 {
        0
    } else {
        1 + log2_floor(n / 2)
    }
}

/// The shift of the prefix mask for an image of `size` bytes:
/// `floor(log2(size)) - 1`, kept within `0..=63`.
pub open spec fn mask_shift(size: nat) -> nat {
    let b = log2_floor(size) as int - 1;
    if b < 0 {
        0
    } else if b > 63 {
        63
    } else {
        b as nat
    }
}

/// Mask keeping the bits above the address space an image of `size` bytes
/// spans.
pub open spec fn prefix_mask(size: nat) -> u64 {
    u64::MAX << (mask_shift(size) as u32)
}

/// `k` zero bytes.
pub open spec fn zeros(k: nat) -> Seq<u8> {
    Seq::new(k, |i: int| 0u8)
}

/// The addresses of `m` that fit in 32 bits, with their votes.
pub open spec fn low_part(m: Map<u64, i32>) -> Map<u64, i32> {
    Map::new(|a: u64| m.contains_key(a) && a < 0x1_0000_0000, |a: u64| m[a])
}

/// The peak of a vote map as seen for an architecture: for 32-bit targets
/// only addresses that fit in 32 bits count.
pub open spec fn arch_peak(m: Map<u64, i32>, arch: Arch) -> i32 {
    match arch {
        Arch::Bits32 => peak(low_part(m)),
        Arch::Bits64 => peak(m),
    }
}

/// The two vote maps (little-endian, big-endian) after scanning offsets
/// `i..end`: a non-zero, 4-aligned value is masked and counted, and at every
/// multiple of the cleanup interval each map keeps only the addresses with at
/// least half its peak.
pub open spec fn scan_votes(
    content: Seq<u8>,
    n: nat,
    mask: u64,
    i: int,
    end: int,
    le: Map<u64, i32>,
    be: Map<u64, i32>,
) -> (Map<u64, i32>, Map<u64, i32>)
    decreases end - i,
{
    if i < 0 || i >= end {
        (le, be)
    } else {
        let lv = decode(content, i, n, Endianness::Little);
        let bv = decode(content, i, n, Endianness::Big);
        let le1 = if lv != 0 && lv % 4 == 0 {
            registered(le, (lv as u64) & mask)
        } else {
            le
        };
        let be1 = if bv != 0 && bv % 4 == 0 {
            registered(be, (bv as u64) & mask)
        } else {
            be
        };
        let le2 = if i % 0x10000 == 0 {
            at_least(le1, (peak(le1) / 2) as i32)
        } else {
            le1
        };
        let be2 = if i % 0x10000 == 0 {
            at_least(be1, (peak(be1) / 2) as i32)
        } else {
            be1
        };
        scan_votes(content, n, mask, i + 1, end, le2, be2)
    }
}

/// The endianness inferred for `content` on `arch`.
pub open spec fn detected(content: Seq<u8>, arch: Arch) -> Endianness {
    let n = arch.spec_pointer_size();
    if content.len() <= n {
        Endianness::Little
    } else {
        let seed = registered(Map::empty(), 0);
        let r = scan_votes(
            content,
            n,
            prefix_mask(content.len()),
            0,
            content.len() - n,
            seed,
            seed,
        );
        if arch_peak(r.1, arch) > arch_peak(r.0, arch) {
            Endianness::Big
        } else {
            Endianness::Little
        }
    }
}

/// Infers the endianness of a firmware image.
pub struct EndiannessDetector {
    arch: Arch,
    reader: PointerReader,
}

/// A tree whose vote map is its whole state: idle only once filtering
/// emptied it.
pub open spec fn settled(t: &AddrTree) -> bool {
    t.wf() && (t.idle_votes() is None || t.idle_votes() == Some(0i32))
}

/// The maximum vote of a settled tree is the peak of its map.
proof fn lemma_settled_peak(t: &AddrTree, m: i32)
    requires
        settled(t),
        t.idle_votes() matches Some(v) ==> m == v,
        t.idle_votes() is None ==> m == peak(t@) && is_peak(t@, m),
    ensures
        m == peak(t@),
        m >= 0,
{
    if t.idle_votes() is Some {
        t.lemma_idle_empty();
        assert(is_peak(t@, 0));
        lemma_peak_unique(t@, 0);
    }
}

impl EndiannessDetector {
    #[verifier::type_invariant]
    spec fn reader_matches(self) -> bool {
        self.reader.spec_arch() == self.arch
    }

    /// The target architecture.
    pub closed spec fn spec_arch(&self) -> Arch {
        self.arch
    }

    /// Create a detector for the given architecture.
    pub fn new(arch: Arch) -> (d: EndiannessDetector)
        ensures
            d.spec_arch() == arch,
    {
        EndiannessDetector { arch, reader: PointerReader::new(arch, Endianness::Unknown) }
    }

    /// Detect the endianness of `content`: always `Little` or `Big`, ties
    /// favouring little-endian.
    pub fn detect(&self, content: &[u8]) -> (e: Endianness)
        ensures
            e == detected(content@, self.spec_arch()),
    {
        proof {
            use_type_invariant(self);
        }
        let psize = self.reader.size();
        if content.len() <= psize {
            return Endianness::Little;
        }
        let mask = Self::msb_mask(content.len());
        let mut le_tree = AddrTree::new();
        let mut be_tree = AddrTree::new();
        le_tree.register_address(0);
        be_tree.register_address(0);
        let clen = content.len();
        let scan_end = clen - psize;
        let ghost n = psize as nat;
        let ghost seed = registered(Map::<u64, i32>::empty(), 0);
        let mut i: usize = 0;
        while i < scan_end
            invariant
                n == psize,
                psize == self.spec_arch().spec_pointer_size(),
                self.reader.spec_arch() == self.arch,
                scan_end == content@.len() - psize,
                content@.len() <= usize::MAX,
                i <= scan_end,
                mask == prefix_mask(content@.len()),
                settled(&le_tree),
                settled(&be_tree),
                scan_votes(content@, n, mask, 0, scan_end as int, seed, seed) == scan_votes(
                    content@,
                    n,
                    mask,
                    i as int,
                    scan_end as int,
                    le_tree@,
                    be_tree@,
                ),
            decreases scan_end - i,
        {
            let ghost le0 = le_tree@;
            let ghost be0 = be_tree@;
            let le = self.reader.read_as(Endianness::Little, content, i);
            let be = self.reader.read_as(Endianness::Big, content, i);
            if le != 0 && le % 4 == 0 {
                le_tree.register_address(le & mask);
            }
            if be != 0 && be % 4 == 0 {
                be_tree.register_address(be & mask);
            }
            let ghost le1 = le_tree@;
            let ghost be1 = be_tree@;
            if i % CLEANUP_INTERVAL == 0 {
                let lm = le_tree.max_vote();
                proof {
                    lemma_settled_peak(&le_tree, lm);
                    if le_tree.idle_votes() is Some {
                        le_tree.lemma_idle_empty();
                        assert(at_least(le1, (lm / 2) as i32) =~= le1);
                    }
                }
                le_tree.filter(lm / 2);
                let bm = be_tree.max_vote();
                proof {
                    lemma_settled_peak(&be_tree, bm);
                    if be_tree.idle_votes() is Some {
                        be_tree.lemma_idle_empty();
                        assert(at_least(be1, (bm / 2) as i32) =~= be1);
                    }
                }
                be_tree.filter(bm / 2);
            }
            proof {
                assert(scan_votes(content@, n, mask, i as int, scan_end as int, le0, be0) == scan_votes(
                    content@,
                    n,
                    mask,
                    i + 1,
                    scan_end as int,
                    le_tree@,
                    be_tree@,
                ));
            }
            i = i + 1;
        }
        let max_le = self.peak_vote(&le_tree);
        let max_be = self.peak_vote(&be_tree);
        if max_be > max_le {
            Endianness::Big
        } else {
            Endianness::Little
        }
    }

    /// Mask keeping the most significant bits above the address space an
    /// image of `size` bytes spans: `!0 << (floor(log2(size)) - 1)`, the
    /// shift kept within `0..=63`.
    pub fn msb_mask(size: usize) -> (m: u64)
        requires
            size >= 1,
        ensures
            m == prefix_mask(size as nat),
    {
        let nbits = floor_log2(size as u64);
        let shift: u32 = if nbits == 0 {
            0
        } else if nbits - 1 > 63 {
            63
        } else {
            nbits - 1
        };
        u64::MAX << shift
    }

    /// Largest vote among the most significant prefixes: for 32-bit targets
    /// only the addresses below the four zero high bytes count.
    fn peak_vote(&self, tree: &AddrTree) -> (m: i32)
        requires
            settled(tree),
        ensures
            m == arch_peak(tree@, self.spec_arch()),
    {
        let root = tree.root();
        let node = match self.effective_root(root) {
            Some(node) => node,
            None => {
                proof {
                    let low = low_part(tree@);
                    assert forall|a: u64| #[trigger] low.contains_key(a) implies low[a] <= 0 by {
                        lemma_low_address(a);
                        let p = to_path(a);
                        assert(p =~= zeros(4) + p.subrange(4, 8));
                        assert(root.get(zeros(4) + p.subrange(4, 8)) is None);
                    }
                    assert(is_peak(low, 0));
                    lemma_peak_unique(low, 0);
                }
                return 0;
            },
        };
        // The peak is the largest maximum vote among the node's children,
        // starting from zero: for an inner node that is its own maximum vote,
        // and a leaf (an idle root) has no children.
        let m = if node.is_leaf() {
            0
        } else {
            node.max_vote()
        };
        proof {
            if self.arch == Arch::Bits64 {
                if node.spec_leaf() {
                    tree.lemma_idle_empty();
                    assert(is_peak(tree@, 0));
                    lemma_peak_unique(tree@, 0);
                } else {
                    assert forall|a: u64| #[trigger] tree@.contains_key(a) implies tree@[a] <= m by {
                        assert(root.get(to_path(a)) == Some(tree@[a]));
                    }
                    if m > 0 {
                        let p = choose|p: Seq<u8>| #[trigger] node.get(p) == Some(m);
                        lemma_vote_path_len(node, p);
                        lemma_path_of_value(p);
                        let a = extend(0, p) as u64;
                        assert(*node == *root);
                        assert(p.len() == 8);
                        assert(to_path(a) == p);
                        assert(root.get(to_path(a)) == Some(m));
                        assert(tree@.contains_key(a));
                        assert(tree@[a] == m);
                    }
                    assert(is_peak(tree@, m));
                    lemma_peak_unique(tree@, m);
                }
            } else {
                let low = low_part(tree@);
                let z = zeros(4);
                assert forall|a: u64| #[trigger] low.contains_key(a) implies low[a] <= m by {
                    lemma_low_address(a);
                    let p = to_path(a);
                    assert(p =~= z + p.subrange(4, 8));
                    assert(root.get(to_path(a)) == Some(tree@[a]));
                    assert(node.get(p.subrange(4, 8)) == root.get(z + p.subrange(4, 8)));
                }
                if m > 0 {
                    let p = choose|p: Seq<u8>| #[trigger] node.get(p) == Some(m);
                    lemma_vote_path_len(node, p);
                    let q = z + p;
                    assert(root.get(q) == Some(m));
                    if root.spec_leaf() {
                        lemma_leaf_get(root, q);
                    }
                    lemma_path_of_value(q);
                    let a = extend(0, q) as u64;
                    assert(to_path(a) == q);
                    lemma_low_address(a);
                    assert(root.get(to_path(a)) == Some(m));
                    assert(tree@.contains_key(a));
                    assert(tree@[a] == m);
                    assert(a < 0x1_0000_0000);
                    assert(low.contains_key(a) && low[a] == m);
                }
                assert(is_peak(low, m));
                lemma_peak_unique(low, m);
            }
        }
        m
    }

    /// The node holding the significant bytes: four zero bytes below the
    /// root for 32-bit targets (the top half of a 64-bit slot is zero), the
    /// root itself for 64-bit ones. `None` when that path is absent.
    fn effective_root<'n>(&self, root: &'n Node) -> (r: Option<&'n Node>)
        requires
            root.wf(),
            root.height() == 8,
        ensures
            self.spec_arch() == Arch::Bits64 ==> r == Some(root),
            self.spec_arch() == Arch::Bits32 ==> match r {
                Some(n) => {
                    &&& n.wf()
                    &&& n.height() == 4
                    &&& !n.spec_leaf()
                    &&& forall|p: Seq<u8>| #[trigger] n.get(p) == root.get(zeros(4) + p)
                },
                None => forall|p: Seq<u8>| #[trigger] root.get(zeros(4) + p) is None,
            },
    {
        let mut node = root;
        if self.arch == Arch::Bits32 {
            let mut k: usize = 0;
            proof {
                assert forall|p: Seq<u8>| #[trigger] node.get(p) == root.get(zeros(0) + p) by {
                    assert(zeros(0) + p =~= p);
                }
            }
            while k < 4
                invariant
                    self.arch == Arch::Bits32,
                    k <= 4,
                    node.wf(),
                    node.height() == 8 - k,
                    k > 0 ==> !node.spec_leaf(),
                    forall|p: Seq<u8>| #[trigger] node.get(p) == root.get(zeros(k as nat) + p),
                decreases 4 - k,
            {
                match node.child(0) {
                    Some(c) => {
                        proof {
                            assert forall|p: Seq<u8>| #[trigger] c.get(p) == root.get(zeros((k + 1) as nat) + p) by {
                                assert(zeros(k as nat) + (seq![0u8] + p) =~= zeros((k + 1) as nat) + p);
                                assert(c.get(p) == node.get(seq![0u8] + p));
                            }
                        }
                        node = c;
                    },
                    None => {
                        proof {
                            assert forall|p: Seq<u8>| #[trigger] root.get(zeros(4) + p) is None by {
                                let rest = zeros((3 - k) as nat) + p;
                                assert(zeros(4) + p =~= zeros(k as nat) + (seq![0u8] + rest));
                                assert(node.get(seq![0u8] + rest) is None);
                            }
                        }
                        return None;
                    },
                }
                k = k + 1;
            }
        }
        Some(node)
    }
}

/// `floor(log2(v))` for `v >= 1`.
pub fn floor_log2(v: u64) -> (r: u32)
    requires
        v >= 1,
    ensures
        r == log2_floor(v as nat),
        r < 64,
{
    let mut w = v;
    let mut nbits: u32 = 0;
    while w > 1
        invariant
            w >= 1,
            nbits <= 64,
            w * pow_two(nbits as nat) <= v,
            log2_floor(v as nat) == nbits + log2_floor(w as nat),
        decreases w,
    {
        proof {
            lemma_pow_two_mono(0, nbits as nat);
            assert(pow_two((nbits + 1) as nat) == 2 * pow_two(nbits as nat));
            assert((w / 2) * pow_two((nbits + 1) as nat) <= w * pow_two(nbits as nat)) by (nonlinear_arith)
                requires
                    pow_two((nbits + 1) as nat) == 2 * pow_two(nbits as nat),
                    pow_two(nbits as nat) >= 0,
            ;
            lemma_pow_two_bound(nbits as nat, v as nat, w as nat);
        }
        w = w / 2;
        nbits = nbits + 1;
    }
    proof {
        if nbits >= 64 {
            lemma_pow_two_mono(64, nbits as nat);
            assert(pow_two(64) == 0x1_0000_0000_0000_0000) by {
                reveal_with_fuel(pow_two, 65);
            }
        }
    }
    nbits
}

/// `2^k`.
pub open spec fn pow_two(k: nat) -> int
    decreases k,
{
    if k == 0 {
        1
    } else {
        2 * pow_two((k - 1) as nat)
    }
}

/// While halving, the count of halvings stays below 64.
proof fn lemma_pow_two_bound(k: nat, size: nat, v: nat)
    requires
        v >= 2,
        v * pow_two(k) <= size,
        size <= u64::MAX,
    ensures
        k < 63,
{
    if k >= 63 {
        lemma_pow_two_mono(63, k);
        assert(pow_two(63) == 0x8000_0000_0000_0000) by {
            reveal_with_fuel(pow_two, 64);
        }
        assert(v * pow_two(k) >= 2 * 0x8000_0000_0000_0000) by (nonlinear_arith)
            requires
                v >= 2,
                pow_two(k) >= 0x8000_0000_0000_0000,
        ;
    }
}

/// `2^k` grows with `k`.
proof fn lemma_pow_two_mono(a: nat, b: nat)
    requires
        a <= b,
    ensures
        pow_two(a) <= pow_two(b),
        pow_two(a) >= 1,
    decreases b,
{
    if b > a {
        lemma_pow_two_mono(a, (b - 1) as nat);
    } else if a > 0 {
        lemma_pow_two_mono((a - 1) as nat, (a - 1) as nat);
    }
}


/// Detection always settles on a byte order: little- or big-endian.
pub proof fn lemma_detected_known(content: Seq<u8>, arch: Arch)
    ensures
        detected(content, arch) == Endianness::Little || detected(content, arch) == Endianness::Big,
{
}

} // verus!
