//! Memory address tree: a 256-way radix tree over the eight bytes of a 64-bit
//! address (most significant first), counting how often each address was
//! registered.
//!
//! Every registered address is stored as a path of eight nodes; the node at
//! the end of the path (a leaf) carries a vote counter that is incremented each
//! time the same address is registered again.

use vstd::prelude::*;

verus! {

/// Number of bytes (tree levels) in a full 64-bit address.
pub const ADDRESS_BYTES: usize = 8;

/// Footprint of one node of the tree (vote counter, leaf flag and an inline
/// table of 256 child links), used for the memory estimate.
pub const NODE_FOOTPRINT: u64 = 2056;

/// Byte `j` (0 = most significant) of a 64-bit address.
pub open spec fn addr_byte(a: u64, j: int) -> u8 {
    ((a >> (((7 - j) * 8) as u32)) & 0xffu64) as u8
}

/// The eight bytes of an address, most significant first: the path that the
/// address takes from the root of the tree.
pub open spec fn to_path(a: u64) -> Seq<u8> {
    Seq::new(8, |j: int| addr_byte(a, j))
}

/// The number obtained by appending the bytes of `p` (base 256) to `prefix`.
pub open spec fn extend(prefix: int, p: Seq<u8>) -> int
    decreases p.len(),
{
    if p.len() == 0 {
        prefix
    } else {
        extend(prefix * 256 + p[0], p.drop_first())
    }
}

/// `256` to the power `m`.
pub open spec fn span(m: nat) -> int
    decreases m,
{
    if m == 0 {
        1
    } else {
        256 * span((m - 1) as nat)
    }
}

/// The vote counter after one more registration (it wraps like a 32-bit
/// machine integer).
pub open spec fn bump(v: i32) -> i32 {
    if v == i32::MAX {
        i32::MIN
    } else {
        (v + 1) as i32
    }
}

/// Leaf list entries as `(address, votes)` pairs of machine integers.
pub open spec fn as_pairs(e: Seq<(int, i32)>) -> Seq<(u64, i32)> {
    e.map_values(|x: (int, i32)| (x.0 as u64, x.1))
}

/// The vote map after registering `a` once more.
pub open spec fn registered(m: Map<u64, i32>, a: u64) -> Map<u64, i32> {
    m.insert(
        a,
        if m.contains_key(a) {
            bump(m[a])
        } else {
            1
        },
    )
}

/// The vote map restricted to the addresses with at least `t` votes.
pub open spec fn at_least(m: Map<u64, i32>, t: i32) -> Map<u64, i32> {
    Map::new(|a: u64| m.contains_key(a) && m[a] >= t, |a: u64| m[a])
}

/// `s` lists the entries of `m` in increasing address order.
pub open spec fn is_listing(m: Map<u64, i32>, s: Seq<(u64, i32)>) -> bool {
    &&& forall|i: int, j: int| 0 <= i < j < s.len() ==> s[i].0 < s[j].0
    &&& forall|i: int|
        0 <= i < s.len() ==> #[trigger] m.contains_key(s[i].0) && m[s[i].0] == s[i].1
    &&& forall|a: u64| #[trigger] m.contains_key(a) ==> exists|i: int| 0 <= i < s.len() && s[i].0 == a
}

/// A vote map has at most one listing in increasing address order.
pub proof fn lemma_listing_unique(m: Map<u64, i32>, s1: Seq<(u64, i32)>, s2: Seq<(u64, i32)>)
    requires
        is_listing(m, s1),
        is_listing(m, s2),
    ensures
        s1 == s2,
    decreases s1.len(),
{
    if s1.len() == 0 {
        if s2.len() > 0 {
            assert(m.contains_key(s2[0].0));
        }
        assert(s1 =~= s2);
    } else {
        assert(m.contains_key(s1[0].0));
        assert(s2.len() > 0);
        assert(m.contains_key(s2[0].0));
        let k = s1[0].0;
        let j = choose|j: int| 0 <= j < s2.len() && s2[j].0 == k;
        let i = choose|i: int| 0 <= i < s1.len() && s1[i].0 == s2[0].0;
        assert(s1[0].0 <= s1[i].0);
        assert(s2[0].0 <= s2[j].0);
        assert(s1[0] == s2[0]);
        let m2 = m.remove(k);
        let r1 = s1.drop_first();
        let r2 = s2.drop_first();
        assert forall|a: u64| #[trigger] m2.contains_key(a) implies exists|q: int|
            0 <= q < r1.len() && r1[q].0 == a by {
            let q = choose|q: int| 0 <= q < s1.len() && s1[q].0 == a;
            assert(r1[q - 1].0 == a);
        }
        assert forall|a: u64| #[trigger] m2.contains_key(a) implies exists|q: int|
            0 <= q < r2.len() && r2[q].0 == a by {
            let q = choose|q: int| 0 <= q < s2.len() && s2[q].0 == a;
            assert(r2[q - 1].0 == a);
        }
        assert forall|q: int| 0 <= q < r1.len() implies #[trigger] m2.contains_key(r1[q].0) && m2[r1[q].0]
            == r1[q].1 by {
            assert(s1[q + 1] == r1[q]);
        }
        assert forall|q: int| 0 <= q < r2.len() implies #[trigger] m2.contains_key(r2[q].0) && m2[r2[q].0]
            == r2[q].1 by {
            assert(s2[q + 1] == r2[q]);
            assert(s2[0].0 < s2[q + 1].0);
            assert(m.contains_key(s2[q + 1].0));
            assert(r2[q].0 != k);
        }
        lemma_listing_unique(m2, r1, r2);
        assert(s1 =~= seq![s1[0]] + r1);
        assert(s2 =~= seq![s2[0]] + r2);
    }
}

/// The leaf list after registering `a` once more: the vote of `a` bumped
/// where it is listed, otherwise `(a, 1)` inserted at its place in address
/// order.
pub open spec fn upsert_leaf(l: Seq<(u64, i32)>, a: u64) -> Seq<(u64, i32)>
    decreases l.len(),
{
    if l.len() == 0 {
        seq![(a, 1i32)]
    } else if l[0].0 == a {
        seq![(a, bump(l[0].1))] + l.drop_first()
    } else if l[0].0 > a {
        seq![(a, 1i32)] + l
    } else {
        seq![l[0]] + upsert_leaf(l.drop_first(), a)
    }
}

/// The leaves of a list holding at least `t` votes, in their order.
pub open spec fn leaves_at_least(l: Seq<(u64, i32)>, t: i32) -> Seq<(u64, i32)> {
    l.filter(|x: (u64, i32)| x.1 >= t)
}

/// A non-empty listing starts with the smallest address of its map, and
/// the rest lists the map without it.
proof fn lemma_listing_rest(m: Map<u64, i32>, s: Seq<(u64, i32)>)
    requires
        is_listing(m, s),
        s.len() > 0,
    ensures
        m.contains_key(s[0].0),
        m[s[0].0] == s[0].1,
        is_listing(m.remove(s[0].0), s.drop_first()),
        forall|k: u64| #[trigger] m.contains_key(k) && k != s[0].0 ==> s[0].0 < k,
{
    let k0 = s[0].0;
    let r = s.drop_first();
    let m2 = m.remove(k0);
    assert(m.contains_key(k0));
    assert forall|k: u64| #[trigger] m.contains_key(k) && k != k0 implies k0 < k by {
        let q = choose|q: int| 0 <= q < s.len() && s[q].0 == k;
        assert(q != 0);
    }
    assert forall|a: u64| #[trigger] m2.contains_key(a) implies exists|q: int| 0 <= q < r.len() && r[q].0 == a by {
        let q = choose|q: int| 0 <= q < s.len() && s[q].0 == a;
        assert(r[q - 1].0 == a);
    }
    assert forall|q: int| 0 <= q < r.len() implies #[trigger] m2.contains_key(r[q].0) && m2[r[q].0] == r[q].1 by {
        assert(s[q + 1] == r[q]);
        assert(s[0].0 < s[q + 1].0);
        assert(m.contains_key(s[q + 1].0));
    }
    assert forall|i: int, j: int| 0 <= i < j < r.len() implies r[i].0 < r[j].0 by {
        assert(s[i + 1] == r[i] && s[j + 1] == r[j]);
    }
}

/// Putting an address below every address of a listing in front of it
/// lists the map with that address added.
proof fn lemma_listing_prepend(m: Map<u64, i32>, r: Seq<(u64, i32)>, k: u64, v: i32)
    requires
        is_listing(m, r),
        forall|a: u64| #[trigger] m.contains_key(a) ==> k < a,
    ensures
        is_listing(m.insert(k, v), seq![(k, v)] + r),
{
    let s = seq![(k, v)] + r;
    let m2 = m.insert(k, v);
    assert forall|i: int, j: int| 0 <= i < j < s.len() implies s[i].0 < s[j].0 by {
        assert(s[j] == r[j - 1]);
        assert(m.contains_key(r[j - 1].0));
        if i > 0 {
            assert(s[i] == r[i - 1]);
        }
    }
    assert forall|i: int| 0 <= i < s.len() implies #[trigger] m2.contains_key(s[i].0) && m2[s[i].0] == s[i].1 by {
        if i > 0 {
            assert(s[i] == r[i - 1]);
            assert(m.contains_key(r[i - 1].0));
        }
    }
    assert forall|a: u64| #[trigger] m2.contains_key(a) implies exists|q: int| 0 <= q < s.len() && s[q].0 == a by {
        if a == k {
            assert(s[0].0 == a);
        } else {
            let q = choose|q: int| 0 <= q < r.len() && r[q].0 == a;
            assert(s[q + 1].0 == a);
        }
    }
}

/// Registering an address turns a listing of the votes into the listing
/// `upsert_leaf` builds.
pub proof fn lemma_upsert_listing(m: Map<u64, i32>, s: Seq<(u64, i32)>, a: u64)
    requires
        is_listing(m, s),
    ensures
        is_listing(registered(m, a), upsert_leaf(s, a)),
    decreases s.len(),
{
    if s.len() == 0 {
        assert(m =~= Map::<u64, i32>::empty()) by {
            assert forall|k: u64| !#[trigger] m.contains_key(k) by {
                if m.contains_key(k) {
                    let q = choose|q: int| 0 <= q < s.len() && s[q].0 == k;
                }
            }
        }
        lemma_listing_prepend(Map::<u64, i32>::empty(), seq![], a, 1i32);
        assert(seq![(a, 1i32)] + Seq::<(u64, i32)>::empty() =~= seq![(a, 1i32)]);
        assert(registered(m, a) =~= Map::<u64, i32>::empty().insert(a, 1i32));
    } else {
        lemma_listing_rest(m, s);
        let k0 = s[0].0;
        let r = s.drop_first();
        let m2 = m.remove(k0);
        if k0 == a {
            lemma_listing_prepend(m2, r, a, bump(s[0].1));
            assert(registered(m, a) =~= m2.insert(a, bump(s[0].1)));
        } else if k0 > a {
            assert forall|k: u64| #[trigger] m.contains_key(k) implies a < k by {
                if k != k0 {
                    assert(k0 < k);
                }
            }
            lemma_listing_prepend(m, s, a, 1i32);
            assert(!m.contains_key(a));
            assert(registered(m, a) =~= m.insert(a, 1i32));
        } else {
            lemma_upsert_listing(m2, r, a);
            assert forall|k: u64| #[trigger] registered(m2, a).contains_key(k) implies k0 < k by {
                if k != a {
                    assert(m.contains_key(k));
                }
            }
            lemma_listing_prepend(registered(m2, a), upsert_leaf(r, a), k0, s[0].1);
            assert(registered(m, a) =~= registered(m2, a).insert(k0, s[0].1));
        }
    }
}

/// Keeping the leaves with at least `t` votes turns a listing of the
/// votes into the listing of the votes kept.
pub proof fn lemma_at_least_listing(m: Map<u64, i32>, s: Seq<(u64, i32)>, t: i32)
    requires
        is_listing(m, s),
    ensures
        is_listing(at_least(m, t), leaves_at_least(s, t)),
    decreases s.len(),
{
    let keep = |x: (u64, i32)| x.1 >= t;
    if s.len() == 0 {
        assert(at_least(m, t) =~= Map::<u64, i32>::empty()) by {
            assert forall|k: u64| !#[trigger] at_least(m, t).contains_key(k) by {
                if m.contains_key(k) {
                    let q = choose|q: int| 0 <= q < s.len() && s[q].0 == k;
                }
            }
        }
        reveal(Seq::filter);
        assert(leaves_at_least(s, t) =~= Seq::<(u64, i32)>::empty());
    } else {
        lemma_listing_rest(m, s);
        let k0 = s[0].0;
        let r = s.drop_first();
        let m2 = m.remove(k0);
        lemma_at_least_listing(m2, r, t);
        assert(s =~= seq![s[0]] + r);
        r.lemma_filter_prepend(s[0], keep);
        assert(leaves_at_least(s, t) == (if keep(s[0]) {
            seq![s[0]]
        } else {
            Seq::empty()
        }) + leaves_at_least(r, t));
        if s[0].1 >= t {
            assert forall|k: u64| #[trigger] at_least(m2, t).contains_key(k) implies k0 < k by {
                assert(m.contains_key(k));
            }
            lemma_listing_prepend(at_least(m2, t), leaves_at_least(r, t), k0, s[0].1);
            assert(at_least(m, t) =~= at_least(m2, t).insert(k0, s[0].1));
        } else {
            assert(at_least(m, t) =~= at_least(m2, t));
            assert(leaves_at_least(s, t) =~= leaves_at_least(r, t));
        }
    }
}

/// `r` is the largest vote count of `m`, or zero when `m` holds no positive
/// count.
pub open spec fn is_peak(m: Map<u64, i32>, r: i32) -> bool {
    &&& r >= 0
    &&& forall|a: u64| #[trigger] m.contains_key(a) ==> m[a] <= r
    &&& r > 0 ==> exists|a: u64| #[trigger] m.contains_key(a) && m[a] == r
}

/// The largest vote count of `m` (zero when none is positive).
pub open spec fn peak(m: Map<u64, i32>) -> i32 {
    choose|r: i32| is_peak(m, r)
}

/// A map has at most one peak, so any value meeting the description is
/// `peak(m)`.
pub proof fn lemma_peak_unique(m: Map<u64, i32>, r: i32)
    requires
        is_peak(m, r),
    ensures
        peak(m) == r,
{
    let q = peak(m);
    assert(is_peak(m, q));
    if q > r {
        let a = choose|a: u64| #[trigger] m.contains_key(a) && m[a] == q;
        assert(m[a] <= r);
    } else if r > q {
        let a = choose|a: u64| #[trigger] m.contains_key(a) && m[a] == r;
        assert(m[a] <= q);
    }
}

/// Number of leading bytes two paths share.
pub open spec fn common_len(p: Seq<u8>, q: Seq<u8>) -> nat
    decreases p.len(),
{
    if p.len() == 0 || q.len() == 0 || p[0] != q[0] {
        0
    } else {
        1 + common_len(p.drop_first(), q.drop_first())
    }
}

/// Number of leading (most significant) bytes two addresses share.
pub open spec fn shared_bytes(a: u64, b: u64) -> nat {
    common_len(to_path(a), to_path(b))
}

/// `k` is the largest number of leading bytes `a` shares with an address of
/// the non-empty map `m`.
pub open spec fn is_longest_share(m: Map<u64, i32>, a: u64, k: nat) -> bool {
    &&& exists|b: u64| #[trigger] m.contains_key(b) && shared_bytes(a, b) == k
    &&& forall|b: u64| #[trigger] m.contains_key(b) ==> shared_bytes(a, b) <= k
}

/// Number of tree nodes a registration of `a` creates when the tree holds
/// the addresses of `m`: one per byte of `a` past the longest prefix it shares
/// with a present address (all eight when none is present).
pub open spec fn nodes_needed(m: Map<u64, i32>, a: u64) -> nat {
    if m.dom().is_empty() {
        8
    } else {
        (8 - choose|k: nat| is_longest_share(m, a, k)) as nat
    }
}

/// A single node of the address tree.
pub struct Node {
    votes: i32,
    leaf: bool,
    children: Vec<Option<Box<Node>>>,
    height: Ghost<nat>,
}

impl Node {
    /// Levels left below this node (eight at the root, zero at a full address).
    pub closed spec fn height(&self) -> nat {
        self.height@
    }

    /// Whether the node has no children.
    pub closed spec fn spec_leaf(&self) -> bool {
        self.leaf
    }

    /// The vote counter of the node.
    pub closed spec fn spec_votes(&self) -> i32 {
        self.votes
    }

    /// Structural soundness: 256 child slots, a leaf has no children, an inner
    /// node has at least one, children sit one level lower, and only nodes at
    /// the bottom level are leaves below this one.
    pub closed spec fn wf(&self) -> bool
        decreases self.height(),
    {
        &&& self.children@.len() == 256
        &&& (self.leaf ==> forall|k: int| 0 <= k < 256 ==> self.children@[k] is None)
        &&& (!self.leaf ==> self.height@ > 0 && exists|k: int|
            0 <= k < 256 && self.children@[k] is Some)
        &&& (self.height@ > 0 ==> forall|k: int|
            0 <= k < 256 ==> match #[trigger] self.children@[k] {
                Some(c) => c.height@ + 1 == self.height@ && c.wf() && (c.leaf ==> c.height@ == 0),
                None => true,
            })
    }

    /// The vote count reached by following the bytes of `p` from this node,
    /// if a leaf sits exactly there.
    pub closed spec fn get(&self, p: Seq<u8>) -> Option<i32>
        decreases p.len(),
    {
        if p.len() == 0 {
            if self.leaf {
                Some(self.votes)
            } else {
                None
            }
        } else if self.leaf {
            None
        } else {
            match self.children@[p[0] as int] {
                Some(c) => c.get(p.drop_first()),
                None => None,
            }
        }
    }

    /// Whether a leaf lies below the child slot `i` of this node.
    pub open spec fn leads_to_leaf(&self, i: u8) -> bool {
        exists|p: Seq<u8>| #[trigger] self.get(seq![i] + p) is Some
    }

    /// Number of nodes missing along `p` (those a registration would create).
    pub closed spec fn missing(&self, p: Seq<u8>) -> nat
        decreases p.len(),
    {
        if p.len() == 0 {
            0
        } else {
            match self.children@[p[0] as int] {
                Some(c) => c.missing(p.drop_first()),
                None => p.len(),
            }
        }
    }

    /// The leaves below this node, reached with the address prefix `prefix`,
    /// as `(address, votes)` pairs in the order a depth-first walk over
    /// increasing bytes visits them.
    pub closed spec fn entries(&self, prefix: int) -> Seq<(int, i32)>
        decreases self.height(), 257int,
    {
        if self.leaf {
            seq![(prefix, self.votes)]
        } else {
            self.children_entries(0, prefix)
        }
    }

    /// The leaves below the children `k..256` of this node.
    pub closed spec fn children_entries(&self, k: int, prefix: int) -> Seq<(int, i32)>
        decreases self.height(), 256 - k,
    {
        if k < 0 || k >= 256 {
            seq![]
        } else {
            let here = match self.children@[k] {
                Some(c) => if c.height() < self.height() {
                    c.entries(prefix * 256 + k)
                } else {
                    seq![]
                },
                None => seq![],
            };
            here + self.children_entries(k + 1, prefix)
        }
    }

    /// A fresh leaf with one vote at the given height.
    fn new(Ghost(h): Ghost<nat>) -> (n: Node)
        ensures
            n.wf(),
            n.height() == h,
            n.spec_leaf(),
            n.spec_votes() == 1,
            forall|p: Seq<u8>| p.len() > 0 ==> #[trigger] n.get(p) is None,
            forall|p: Seq<u8>| #[trigger] n.missing(p) == p.len(),
    {
        let mut children: Vec<Option<Box<Node>>> = Vec::with_capacity(256);
        let mut k: usize = 0;
        while k < 256
            invariant
                k <= 256,
                children@.len() == k,
                forall|j: int| 0 <= j < k ==> children@[j] is None,
            decreases 256 - k,
        {
            children.push(None);
            k = k + 1;
        }
        let n = Node { votes: 1, leaf: true, children, height: Ghost(h) };
        assert forall|p: Seq<u8>| #[trigger] n.missing(p) == p.len() by {
            if p.len() > 0 {
                assert(n.children@[p[0] as int] is None);
            }
        }
        n
    }

    /// Vote count carried by this node (meaningful for leaves).
    pub fn votes(&self) -> (v: i32)
        ensures
            v == self.spec_votes(),
    {
        self.votes
    }

    /// Whether this node has no children.
    pub fn is_leaf(&self) -> (b: bool)
        ensures
            b == self.spec_leaf(),
            self.wf() ==> (b <==> forall|i: u8| !#[trigger] self.leads_to_leaf(i)),
    {
        proof {
            if self.wf() {
                if self.leaf {
                    assert forall|i: u8| !#[trigger] self.leads_to_leaf(i) by {
                        assert forall|p: Seq<u8>| !(#[trigger] self.get(seq![i] + p) is Some) by {
                            assert((seq![i] + p).len() > 0);
                        }
                    }
                } else {
                    let k = choose|k: int| 0 <= k < 256 && self.children@[k] is Some;
                    lemma_child_leads(*self, k);
                    assert(self.leads_to_leaf(k as u8));
                }
            }
        }
        self.leaf
    }

    /// Borrow the child reached through byte `index`, if any.
    pub fn child(&self, index: usize) -> (r: Option<&Node>)
        requires
            self.wf(),
            index < 256,
        ensures
            match r {
                Some(c) => {
                    &&& !self.spec_leaf()
                    &&& self.leads_to_leaf(index as u8)
                    &&& c.wf()
                    &&& c.height() + 1 == self.height()
                    &&& (c.spec_leaf() ==> c.height() == 0)
                    &&& forall|p: Seq<u8>| #[trigger] c.get(p) == self.get(seq![index as u8] + p)
                },
                None => {
                    &&& !self.leads_to_leaf(index as u8)
                    &&& forall|p: Seq<u8>| #[trigger] self.get(seq![index as u8] + p) is None
                },
            },
    {
        proof {
            assert forall|p: Seq<u8>| #[trigger] (seq![index as u8] + p).drop_first() == p by {
                assert((seq![index as u8] + p).drop_first() =~= p);
            }
            if self.children@[index as int] is Some {
                lemma_child_leads(*self, index as int);
            }
        }
        match &self.children[index] {
            Some(c) => Some(&**c),
            None => None,
        }
    }

    /// Maximum vote found among the leaves below this node: the node's own
    /// count for a leaf, otherwise the largest leaf count (zero when every
    /// leaf count is negative).
    pub fn max_vote(&self) -> (m: i32)
        requires
            self.wf(),
        ensures
            self.spec_leaf() ==> m == self.spec_votes(),
            !self.spec_leaf() ==> {
                &&& m >= 0
                &&& forall|p: Seq<u8>| #[trigger] self.get(p) is Some ==> self.get(p)->0 <= m
                &&& m > 0 ==> exists|p: Seq<u8>| #[trigger] self.get(p) == Some(m)
            },
        decreases self.height(),
    {
        if self.leaf {
            return self.votes;
        }
        let mut max: i32 = 0;
        let mut k: usize = 0;
        while k < 256
            invariant
                self.wf(),
                !self.leaf,
                k <= 256,
                max >= 0,
                forall|p: Seq<u8>|
                    p.len() > 0 && p[0] < k && #[trigger] self.get(p) is Some ==> self.get(p)->0 <= max,
                max > 0 ==> exists|p: Seq<u8>| #[trigger] self.get(p) == Some(max),
            decreases 256 - k,
        {
            match &self.children[k] {
                Some(child) => {
                    assert(self.children@[k as int] is Some);
                    let n = child.max_vote();
                    proof {
                        assert forall|q: Seq<u8>| #[trigger] (seq![k as u8] + q).drop_first() == q by {
                            assert((seq![k as u8] + q).drop_first() =~= q);
                        }
                        if child.leaf {
                            assert(self.get(seq![k as u8]) == Some(child.votes)) by {
                                assert(seq![k as u8].drop_first() =~= Seq::<u8>::empty());
                                assert(child.get(Seq::<u8>::empty()) == Some(child.votes));
                                assert(seq![k as u8][0] == k as u8);
                            }
                        }
                        assert forall|p: Seq<u8>|
                            p.len() > 0 && p[0] == k && #[trigger] self.get(p) is Some implies self.get(p)->0 <= n by {
                            let q = p.drop_first();
                            assert(p =~= seq![k as u8] + q);
                            assert(self.get(p) == child.get(q));
                            if child.leaf {
                                if q.len() > 0 {
                                    assert(child.get(q) is None);
                                }
                            }
                        }
                        if !child.leaf && n > 0 {
                            let q = choose|q: Seq<u8>| #[trigger] child.get(q) == Some(n);
                            assert(self.get(seq![k as u8] + q) == Some(n));
                        }
                    }
                    if n > max {
                        max = n;
                    }
                },
                None => {
                    proof {
                        assert forall|p: Seq<u8>|
                            p.len() > 0 && p[0] == k implies #[trigger] self.get(p) is None by {
                        }
                    }
                },
            }
            k = k + 1;
        }
        proof {
            assert forall|p: Seq<u8>| #[trigger] self.get(p) is Some implies self.get(p)->0 <= max by {
                if p.len() > 0 {
                    assert(p[0] < 256);
                }
            }
        }
        max
    }

    /// Number of leaves below this node (one for a leaf).
    pub fn count_nodes(&self) -> (n: usize)
        requires
            self.wf(),
            self.entries(0).len() <= usize::MAX,
        ensures
            n == self.entries(0).len(),
        decreases self.height(),
    {
        if self.leaf {
            return 1;
        }
        let mut nodes: usize = 0;
        let mut k: usize = 0;
        while k < 256
            invariant
                self.wf(),
                !self.leaf,
                k <= 256,
                self.entries(0).len() <= usize::MAX,
                nodes + self.children_entries(k as int, 0).len() == self.entries(0).len(),
            decreases 256 - k,
        {
            let ghost tail = self.children_entries(k + 1, 0);
            match &self.children[k] {
                Some(child) => {
                    proof {
                        assert(self.children@[k as int] == Some(*child));
                        assert(self.children_entries(k as int, 0) == child.entries(k as int) + tail);
                        lemma_entries_len(**child, 0, k as int);
                    }
                    let c = child.count_nodes();
                    nodes = nodes + c;
                },
                None => {
                    proof {
                        assert(self.children_entries(k as int, 0) =~= tail);
                    }
                },
            }
            k = k + 1;
        }
        nodes
    }

    /// Append the `(address, votes)` pair of every leaf below this node,
    /// reached with address prefix `base`, to `out`.
    fn collect_leaves(&self, base: u64, out: &mut Vec<(u64, i32)>)
        requires
            self.wf(),
            (base + 1) * span(self.height()) <= 0x1_0000_0000_0000_0000,
        ensures
            final(out)@ == old(out)@ + as_pairs(self.entries(base as int)),
        decreases self.height(),
    {
        let ghost e = self.entries(base as int);
        let ghost start = out@;
        if self.leaf {
            out.push((base, self.votes));
            proof {
                assert(as_pairs(e) =~= seq![(base, self.votes)]);
            }
            return;
        }
        let ghost h = self.height();
        proof {
            lemma_span_ge(h);
            lemma_span_pos((h - 1) as nat);
            assert(span(h) == 256 * span((h - 1) as nat));
            assert(base < 0x100000000000000) by (nonlinear_arith)
                requires
                    (base + 1) * span(h) <= 0x1_0000_0000_0000_0000,
                    span(h) >= 256,
            ;
        }
        let ghost mut done: Seq<(int, i32)> = Seq::empty();
        let mut k: u64 = 0;
        while k < 256
            invariant
                self.wf(),
                !self.leaf,
                h == self.height(),
                h > 0,
                span(h) == 256 * span((h - 1) as nat),
                span((h - 1) as nat) >= 1,
                (base + 1) * span(h) <= 0x1_0000_0000_0000_0000,
                base < 0x100000000000000,
                k <= 256,
                e == self.entries(base as int),
                e == done + self.children_entries(k as int, base as int),
                out@ == start + as_pairs(done),
            decreases 256 - k,
        {
            let ghost tail = self.children_entries(k + 1, base as int);
            match &self.children[k as usize] {
                Some(child) => {
                    let next: u64 = (base << 8u64) | k;
                    proof {
                        assert(self.children@[k as int] == Some(*child));
                        let pk = base * 256 + k;
                        assert(next == base * 256u64 + k) by (bit_vector)
                            requires
                                next == (base << 8u64) | k,
                                base < 0x100000000000000u64,
                                k < 256u64,
                        ;
                        assert(self.children_entries(k as int, base as int) == child.entries(pk) + tail);
                        assert((pk + 1) * span((h - 1) as nat) <= (base + 1) * span(h)) by (nonlinear_arith)
                            requires
                                pk == base * 256 + k,
                                k < 256,
                                span(h) == 256 * span((h - 1) as nat),
                                span((h - 1) as nat) >= 1,
                        ;
                    }
                    child.collect_leaves(next, out);
                    proof {
                        let seg = child.entries(next as int);
                        assert(e == (done + seg) + tail);
                        assert(as_pairs(done + seg) =~= as_pairs(done) + as_pairs(seg));
                        done = done + seg;
                    }
                },
                None => {
                    proof {
                        assert(self.children_entries(k as int, base as int) =~= tail);
                    }
                },
            }
            k = k + 1;
        }
        proof {
            assert(self.children_entries(256, base as int).len() == 0);
            assert(done =~= e);
        }
    }

    /// Register the remaining bytes `path[i..]` below this node: create the
    /// missing nodes and bump the count of an already present leaf.
    fn descend(&mut self, path: &Vec<u8>, i: usize) -> (created: u64)
        requires
            old(self).wf(),
            path@.len() == 8,
            i < 8,
            old(self).height() == 8 - i,
        ensures
            final(self).wf(),
            final(self).height() == old(self).height(),
            !final(self).spec_leaf(),
            created == old(self).missing(path@.subrange(i as int, 8)),
            forall|q: Seq<u8>|
                q.len() == 8 - i ==> #[trigger] final(self).get(q) == if q == path@.subrange(i as int, 8) {
                    Some(
                        match old(self).get(q) {
                            Some(v) => bump(v),
                            None => 1,
                        },
                    )
                } else {
                    old(self).get(q)
                },
        decreases 8 - i,
    {
        let b: usize = path[i] as usize;
        let ghost rest = path@.subrange(i as int, 8);
        let ghost tail = path@.subrange(i + 1, 8);
        proof {
            assert(rest.drop_first() =~= tail);
            assert(rest[0] == path@[i as int]);
        }
        let mut slot: Option<Box<Node>> = None;
        std::mem::swap(&mut slot, &mut self.children[b]);
        let existed = slot.is_some();
        let mut created: u64 = 0;
        let mut c: Box<Node> = match slot {
            Some(c) => c,
            None => {
                created = 1;
                self.leaf = false;
                Box::new(Node::new(Ghost((7 - i) as nat)))
            },
        };
        let ghost fresh = !existed;
        let ghost c0 = *c;
        if existed && c.leaf {
            c.votes = c.votes.wrapping_add(1);
        }
        if i + 1 < 8 {
            let more = c.descend(path, i + 1);
            created = created + more;
        }
        let ghost c1 = *c;
        proof {
            if existed {
                assert(old(self).children@[b as int] == Some(Box::new(c0)));
                assert(!old(self).leaf);
                assert(c0.wf());
            }
            if i + 1 == 8 {
                assert(c0.leaf);
                assert(c1.children == c0.children);
                assert(c1.wf());
            }
            assert(c1.wf());
            assert(c1.height() + 1 == old(self).height());
            assert(c1.leaf ==> c1.height() == 0);
        }
        self.children[b] = Some(c);
        proof {
            assert(!self.leaf);
            assert forall|k: int| 0 <= k < 256 implies match #[trigger] self.children@[k] {
                Some(ch) => ch.height@ + 1 == self.height@ && ch.wf() && (ch.leaf ==> ch.height@ == 0),
                None => true,
            } by {
                if k != b as int {
                    assert(self.children@[k] == old(self).children@[k]);
                }
            }
            assert(self.wf());
            if existed {
                assert(old(self).missing(rest) == c0.missing(tail));
            } else {
                assert(old(self).missing(rest) == 8 - i);
                assert(c0.missing(tail) == 7 - i);
            }
            assert(self.children@[b as int] == Some(Box::new(c1)));
            assert forall|q: Seq<u8>| q.len() == 8 - i implies #[trigger] self.get(q) == if q == rest {
                Some(
                    match old(self).get(q) {
                        Some(v) => bump(v),
                        None => 1,
                    },
                )
            } else {
                old(self).get(q)
            } by {
                if q[0] as int == b as int {
                    assert(self.get(q) == c1.get(q.drop_first()));
                    if !fresh {
                        assert(old(self).children@[b as int] == Some(Box::new(c0)));
                        assert(old(self).get(q) == c0.get(q.drop_first()));
                    } else {
                        assert(old(self).get(q) is None);
                    }
                    if q == rest {
                        assert(q.drop_first() == tail);
                        if i + 1 == 8 {
                            assert(tail.len() == 0);
                        }
                    } else {
                        assert(q.drop_first() != tail) by {
                            if q.drop_first() == tail {
                                assert forall|j: int| 0 <= j < q.len() implies q[j] == rest[j] by {
                                    if j > 0 {
                                        assert(q[j] == q.drop_first()[j - 1]);
                                        assert(rest[j] == tail[j - 1]);
                                    }
                                }
                                assert(q =~= rest);
                            }
                        }
                        if i + 1 == 8 {
                            assert(q.drop_first() =~= tail);
                        }
                    }
                } else {
                    assert(q != rest);
                    assert(self.children@[q[0] as int] == old(self).children@[q[0] as int]);
                    if old(self).leaf {
                        assert(old(self).children@[q[0] as int] is None);
                    }
                }
            }
            assert(self.children@[b as int] is Some);
        }
        created
    }
    /// Remove every leaf below this node whose count is strictly below
    /// `threshold`, then prune the branches left empty. A node that loses all
    /// its children turns back into a leaf with no votes.
    fn filter(&mut self, threshold: i32)
        requires
            old(self).wf(),
        ensures
            final(self).wf(),
            final(self).height() == old(self).height(),
            old(self).spec_leaf() ==> *final(self) == *old(self),
            !old(self).spec_leaf() ==> forall|q: Seq<u8>|
                q.len() == old(self).height() ==> #[trigger] final(self).get(q) == if old(self).get(q) is Some
                    && old(self).get(q)->0 >= threshold {
                    old(self).get(q)
                } else {
                    None
                },
            !old(self).spec_leaf() && final(self).spec_leaf() ==> {
                &&& final(self).spec_votes() == 0
                &&& forall|q: Seq<u8>|
                    q.len() == old(self).height() ==> !(#[trigger] old(self).get(q) is Some
                        && old(self).get(q)->0 >= threshold)
            },
        decreases old(self).height(),
    {
        if self.leaf {
            return;
        }
        let ghost h = self.height();
        let mut k: usize = 0;
        while k < 256
            invariant
                k <= 256,
                !self.leaf,
                h > 0,
                self.height() == h,
                old(self).wf(),
                !old(self).leaf,
                old(self).height() == h,
                self.children@.len() == 256,
                forall|j: int| k <= j < 256 ==> self.children@[j] == old(self).children@[j],
                forall|j: int|
                    0 <= j < k ==> match #[trigger] self.children@[j] {
                        Some(ch) => ch.height@ + 1 == h && ch.wf() && !(ch.leaf && ch.height@ > 0),
                        None => true,
                    },
                forall|q: Seq<u8>|
                    q.len() == h && q[0] < k ==> #[trigger] self.get(q) == if old(self).get(q) is Some
                        && old(self).get(q)->0 >= threshold {
                        old(self).get(q)
                    } else {
                        None
                    },
                forall|q: Seq<u8>|
                    q.len() == h && q[0] < k && self.children@[q[0] as int] is None ==> !(
                    #[trigger] old(self).get(q) is Some && old(self).get(q)->0 >= threshold),
            decreases 256 - k,
        {
            let ghost pre = *self;
            let mut slot: Option<Box<Node>> = None;
            std::mem::swap(&mut slot, &mut self.children[k]);
            proof {
                assert forall|q: Seq<u8>| #[trigger] (seq![k as u8] + q).drop_first() == q by {
                    assert((seq![k as u8] + q).drop_first() =~= q);
                }
            }
            match slot {
                None => {
                    proof {
                        assert(old(self).children@[k as int] is None);
                        assert forall|q: Seq<u8>| q.len() == h && q[0] == k implies {
                            &&& #[trigger] self.get(q) == if old(self).get(q) is Some && old(self).get(q)->0
                                >= threshold {
                                old(self).get(q)
                            } else {
                                None
                            }
                            &&& self.children@[q[0] as int] is None ==> !(old(self).get(q) is Some
                                && old(self).get(q)->0 >= threshold)
                        } by {
                            assert(old(self).get(q) is None);
                            assert(self.get(q) is None);
                        }
                    }
                },
                Some(mut child) => {
                    let ghost c0 = *child;
                    proof {
                        assert(old(self).children@[k as int] == Some(Box::new(c0)));
                        assert(c0.wf());
                    }
                    let drop = if child.leaf {
                        child.votes < threshold
                    } else {
                        child.filter(threshold);
                        child.leaf
                    };
                    let ghost c1 = *child;
                    proof {
                        if c0.leaf {
                            assert(c0.height() == 0);
                            assert forall|q: Seq<u8>| q.len() == h && q[0] == k implies #[trigger] old(self).get(q) == c0.get(q.drop_first()) by {}
                        }
                    }
                    if !drop {
                        self.children[k] = Some(child);
                        proof {
                            assert(self.children@[k as int] == Some(Box::new(c1)));
                        }
                    }
                    proof {
                        assert forall|q: Seq<u8>| q.len() == h && q[0] == k implies {
                            &&& #[trigger] self.get(q) == if old(self).get(q) is Some && old(self).get(q)->0
                                >= threshold {
                                old(self).get(q)
                            } else {
                                None
                            }
                            &&& self.children@[q[0] as int] is None ==> !(old(self).get(q) is Some
                                && old(self).get(q)->0 >= threshold)
                        } by {
                            let r = q.drop_first();
                            assert(old(self).get(q) == c0.get(r));
                            if !drop {
                                assert(self.get(q) == c1.get(r));
                            } else {
                                assert(self.get(q) is None);
                            }
                            if c0.leaf {
                                assert(r.len() == 0);
                            }
                        }
                        if !c0.leaf {
                            assert(c1.wf());
                        }
                    }
                },
            }
            proof {
                assert forall|q: Seq<u8>|
                    q.len() == h && q[0] < k + 1 implies #[trigger] self.get(q) == if old(self).get(q) is Some
                        && old(self).get(q)->0 >= threshold {
                        old(self).get(q)
                    } else {
                        None
                    } by {
                    if q[0] < k {
                        assert(self.children@[q[0] as int] == pre.children@[q[0] as int]);
                        assert(self.get(q) == pre.get(q));
                    }
                }
                assert forall|q: Seq<u8>|
                    q.len() == h && q[0] < k + 1 && self.children@[q[0] as int] is None implies !(
                    #[trigger] old(self).get(q) is Some && old(self).get(q)->0 >= threshold) by {
                    if q[0] < k {
                        assert(self.children@[q[0] as int] == pre.children@[q[0] as int]);
                    } else {
                        assert(self.get(q) == self.get(q));
                    }
                }
            }
            k = k + 1;
        }
        let mut all_none = true;
        let mut j: usize = 0;
        while j < 256
            invariant
                j <= 256,
                self.children@.len() == 256,
                all_none <==> forall|i: int| 0 <= i < j ==> self.children@[i] is None,
            decreases 256 - j,
        {
            if self.children[j].is_some() {
                all_none = false;
            }
            j = j + 1;
        }
        if all_none {
            self.leaf = true;
            self.votes = 0;
            proof {
                assert forall|q: Seq<u8>| q.len() == h implies !(#[trigger] old(self).get(q) is Some
                    && old(self).get(q)->0 >= threshold) by {
                    assert(self.children@[q[0] as int] is None);
                }
            }
        } else {
            proof {
                let w = choose|i: int| 0 <= i < 256 && !(self.children@[i] is None);
                assert(self.children@[w] is Some);
            }
        }
        proof {
            assert forall|q: Seq<u8>| q.len() == h implies #[trigger] self.get(q) == if old(self).get(q) is Some
                && old(self).get(q)->0 >= threshold {
                old(self).get(q)
            } else {
                None
            } by {
                assert(q[0] < 256);
            }
        }
    }
}


/// A complete address tree with a count of the nodes ever created.
pub struct AddrTree {
    root: Box<Node>,
    nb_nodes: u64,
}

impl View for AddrTree {
    type V = Map<u64, i32>;

    /// The vote count of every registered address still in the tree.
    closed spec fn view(&self) -> Map<u64, i32> {
        Map::new(
            |a: u64| !self.root.leaf && self.root.get(to_path(a)) is Some,
            |a: u64| self.root.get(to_path(a))->0,
        )
    }
}

impl AddrTree {
    /// Structural soundness of the tree.
    pub closed spec fn wf(&self) -> bool {
        self.root.wf() && self.root.height() == 8
    }

    /// While no address is registered the root is a bare leaf carrying a
    /// count of its own (one in a fresh tree, zero once filtering emptied
    /// it); `None` once addresses are present.
    pub closed spec fn idle_votes(&self) -> Option<i32> {
        if self.root.leaf {
            Some(self.root.votes)
        } else {
            None
        }
    }

    /// Number of nodes ever created.
    pub closed spec fn spec_nb_nodes(&self) -> u64 {
        self.nb_nodes
    }

    /// The nodes a registration creates, counted on the tree, are those
    /// counted on its map.
    proof fn lemma_new_nodes(&self, a: u64)
        requires
            self.wf(),
        ensures
            self.root.missing(to_path(a)) == nodes_needed(self@, a),
    {
        let p = to_path(a);
        if self.root.leaf {
            self.lemma_idle_empty();
            assert(self@.dom() =~= Set::<u64>::empty());
            assert(self.root.children@[p[0] as int] is None);
        } else {
            let k = lemma_missing(*self.root, p);
            let r = choose|r: Seq<u8>| #[trigger] self.root.get(r) is Some && r.len() == 8 && common_len(p, r) == k;
            lemma_value_path(r);
            let b = extend(0, r) as u64;
            assert(self@.contains_key(b));
            assert(shared_bytes(a, b) == k);
            assert forall|c: u64| #[trigger] self@.contains_key(c) implies shared_bytes(a, c) <= k by {
                assert(self.root.get(to_path(c)) is Some);
            }
            assert(is_longest_share(self@, a, k));
            assert(!self@.dom().is_empty()) by {
                assert(self@.dom().contains(b));
            }
            let k2 = choose|k: nat| is_longest_share(self@, a, k);
            assert(is_longest_share(self@, a, k2));
            let b2 = choose|b: u64| #[trigger] self@.contains_key(b) && shared_bytes(a, b) == k2;
            assert(k2 <= k);
            assert(k <= k2);
        }
    }

    /// The leaf list of the tree, in increasing address order.
    pub closed spec fn leaf_list(&self) -> Seq<(int, i32)> {
        self.root.entries(0)
    }

    /// An idle tree holds no address.
    pub proof fn lemma_idle_empty(&self)
        requires
            self.idle_votes() is Some,
        ensures
            self@ == Map::<u64, i32>::empty(),
    {
        assert(self@ =~= Map::<u64, i32>::empty());
    }

    /// Create an empty tree (a single root leaf).
    pub fn new() -> (t: AddrTree)
        ensures
            t.wf(),
            t@ == Map::<u64, i32>::empty(),
            t.idle_votes() == Some(1i32),
            t.spec_nb_nodes() == 0,
    {
        let root = Node::new(Ghost(8));
        let t = AddrTree { root: Box::new(root), nb_nodes: 0 };
        assert(t@ =~= Map::<u64, i32>::empty());
        t
    }

    /// Borrow the root node, for callers that navigate the tree by bytes.
    pub fn root(&self) -> (r: &Node)
        requires
            self.wf(),
        ensures
            r.wf(),
            r.height() == 8,
            r.spec_leaf() == (self.idle_votes() is Some),
            r.entries(0) == self.leaf_list(),
            forall|a: u64| #[trigger] self@.contains_key(a) == (!r.spec_leaf() && r.get(to_path(a)) is Some),
            forall|a: u64| #[trigger] self@.contains_key(a) ==> r.get(to_path(a)) == Some(self@[a]),
    {
        &self.root
    }

    /// Register an address: create its path if necessary, otherwise bump
    /// the vote count of its leaf.
    pub fn register_address(&mut self, address: u64)
        requires
            old(self).wf(),
        ensures
            final(self).wf(),
            final(self)@ == registered(old(self)@, address),
            final(self).idle_votes() is None,
            final(self).spec_nb_nodes() == (old(self).spec_nb_nodes() + nodes_needed(old(self)@, address))
                % 0x1_0000_0000_0000_0000,
            old(self).idle_votes() is Some ==> as_pairs(final(self).leaf_list()) == seq![(address, 1i32)],
            old(self).idle_votes() is None ==> as_pairs(final(self).leaf_list()) == upsert_leaf(
                as_pairs(old(self).leaf_list()),
                address,
            ),
    {
        let ghost before = *self;
        proof {
            before.lemma_listed();
        }
        let mut path: Vec<u8> = Vec::with_capacity(8);
        let mut j: u32 = 0;
        while j < 8
            invariant
                j <= 8,
                path@.len() == j,
                forall|i: int| 0 <= i < j ==> path@[i] == addr_byte(address, i),
            decreases 8 - j,
        {
            path.push(((address >> ((7 - j) * 8)) & 0xff) as u8);
            j = j + 1;
        }
        proof {
            assert(path@ =~= to_path(address));
            assert(path@.subrange(0, 8) =~= path@);
        }
        let ghost old_root = *self.root;
        proof {
            self.lemma_new_nodes(address);
        }
        let created = self.root.descend(&path, 0);
        self.nb_nodes = self.nb_nodes.wrapping_add(created);
        proof {
            let m = old(self)@.insert(
                address,
                if old(self)@.contains_key(address) {
                    bump(old(self)@[address])
                } else {
                    1
                },
            );
            assert forall|a: u64| #[trigger] self@.contains_key(a) == m.contains_key(a) by {
                if a != address {
                    lemma_path_value(a);
                    lemma_path_value(address);
                    assert(to_path(a) != to_path(address));
                }
            }
            assert forall|a: u64| #[trigger] self@.contains_key(a) implies self@[a] == m[a] by {
                if a != address {
                    lemma_path_value(a);
                    lemma_path_value(address);
                    assert(to_path(a) != to_path(address));
                } else {
                    if old_root.leaf {
                        assert(old_root.get(to_path(a)) is None);
                    }
                }
            }
            assert(self@ =~= m);
            self.lemma_listed();
            let prior = if before.root.leaf {
                Seq::<(u64, i32)>::empty()
            } else {
                as_pairs(before.leaf_list())
            };
            lemma_upsert_listing(before@, prior, address);
            lemma_listing_unique(self@, as_pairs(self.leaf_list()), upsert_leaf(prior, address));
        }
    }

    /// Maximum vote over all leaves (the root's own count while the tree is
    /// idle; zero when every count is negative).
    pub fn max_vote(&self) -> (m: i32)
        requires
            self.wf(),
        ensures
            self.idle_votes() matches Some(v) ==> m == v,
            self.idle_votes() is None ==> m == peak(self@) && is_peak(self@, m),
            forall|i: int|
                0 <= i < as_pairs(self.leaf_list()).len() ==> #[trigger] as_pairs(self.leaf_list())[i].1 <= m,
            self.idle_votes() is None ==> m >= 0 && (m > 0 ==> exists|i: int|
                0 <= i < as_pairs(self.leaf_list()).len() && #[trigger] as_pairs(self.leaf_list())[i].1 == m),
    {
        let m = self.root.max_vote();
        proof {
            self.lemma_listed();
            if !self.root.leaf {
                assert forall|a: u64| #[trigger] self@.contains_key(a) implies self@[a] <= m by {
                    assert(self.root.get(to_path(a)) is Some);
                }
                if m > 0 {
                    let p = choose|p: Seq<u8>| #[trigger] self.root.get(p) == Some(m);
                    lemma_get_len(*self.root, p);
                    lemma_value_path(p);
                    let a = extend(0, p) as u64;
                    assert(to_path(a) == p);
                    assert(self@.contains_key(a) && self@[a] == m);
                }
                lemma_peak_unique(self@, m);
                let l = as_pairs(self.leaf_list());
                assert forall|i: int| 0 <= i < l.len() implies #[trigger] l[i].1 <= m by {
                    assert(self@.contains_key(l[i].0));
                }
                if m > 0 {
                    let a = choose|a: u64| #[trigger] self@.contains_key(a) && self@[a] == m;
                    let i = choose|i: int| 0 <= i < l.len() && l[i].0 == a;
                    assert(l[i].1 == m);
                }
            }
        }
        m
    }

    /// Number of nodes ever created.
    pub fn nb_nodes(&self) -> (n: u64)
        ensures
            n == self.spec_nb_nodes(),
    {
        self.nb_nodes
    }

    /// Memory estimate of the tree: the number of nodes ever created times
    /// the footprint of a node, kept in 32 bits.
    pub fn memsize(&self) -> (m: u64)
        ensures
            m == (self.spec_nb_nodes() * NODE_FOOTPRINT) % 0x1_0000_0000,
    {
        let low: u64 = self.nb_nodes % 0x1_0000_0000;
        let m = (low * NODE_FOOTPRINT) % 0x1_0000_0000;
        proof {
            vstd::arithmetic::div_mod::lemma_mul_mod_noop_left(
                self.nb_nodes as int,
                NODE_FOOTPRINT as int,
                0x1_0000_0000,
            );
        }
        m
    }

    /// The leaf list of a tree holding addresses enumerates them: addresses
    /// strictly increase, each carries its vote count, and every registered
    /// address is listed.
    proof fn lemma_leaf_list(&self)
        requires
            self.wf(),
            self.idle_votes() is None,
        ensures
            ({
                let out = as_pairs(self.leaf_list());
                &&& out.len() == self.leaf_list().len()
                &&& forall|i: int| 0 <= i < out.len() ==> #[trigger] out[i].0 as int == self.leaf_list()[i].0
                &&& forall|i: int, j: int| 0 <= i < j < out.len() ==> out[i].0 < out[j].0
                &&& forall|i: int|
                    0 <= i < out.len() ==> #[trigger] self@.contains_key(out[i].0) && self@[out[i].0]
                        == out[i].1
                &&& forall|a: u64|
                    #[trigger] self@.contains_key(a) ==> exists|i: int| 0 <= i < out.len() && out[i].0 == a
            }),
    {
        let e = self.leaf_list();
        let out = as_pairs(e);
        lemma_entries_inner(*self.root, 0);
        lemma_span_eight();
        assert forall|i: int| 0 <= i < out.len() implies #[trigger] out[i].0 as int == e[i].0 by {
            assert(0 <= e[i].0 < 0x1_0000_0000_0000_0000);
        }
        assert forall|i: int| 0 <= i < out.len() implies #[trigger] self@.contains_key(out[i].0) && self@[out[i].0]
            == out[i].1 by {
            assert(out[i].0 as int == e[i].0);
            let p = choose|p: Seq<u8>|
                #[trigger] self.root.get(p) == Some(e[i].1) && p.len() == 8 && e[i].0 == extend(0, p);
            lemma_value_path(p);
            assert(to_path(out[i].0) == p);
        }
        assert forall|a: u64| #[trigger] self@.contains_key(a) implies exists|i: int|
            0 <= i < out.len() && out[i].0 == a by {
            let p = to_path(a);
            lemma_path_value(a);
            let i = choose|i: int| 0 <= i < e.len() && e[i] == (extend(0, p), self.root.get(p)->0);
            assert(out[i].0 as int == e[i].0);
        }
        assert forall|i: int, j: int| 0 <= i < j < out.len() implies out[i].0 < out[j].0 by {
            assert(out[i].0 as int == e[i].0);
            assert(out[j].0 as int == e[j].0);
        }
    }

    /// The leaves of a tree: the idle root alone at address zero, or the
    /// listing of its votes in address order.
    proof fn lemma_listed(&self)
        requires
            self.wf(),
        ensures
            self.idle_votes() is None ==> is_listing(self@, as_pairs(self.leaf_list())),
            self.idle_votes() matches Some(v) ==> as_pairs(self.leaf_list()) == seq![(0u64, v)] && self@
                == Map::<u64, i32>::empty(),
    {
        if self.root.leaf {
            assert(self.leaf_list() == seq![(0int, self.root.votes)]);
            assert(as_pairs(self.leaf_list()) =~= seq![(0u64, self.root.votes)]);
            self.lemma_idle_empty();
        } else {
            self.lemma_leaf_list();
        }
    }

    /// Collect every `(address, votes)` leaf pair, in increasing address
    /// order; an idle tree yields the single pair `(0, idle count)`.
    pub fn leaves(&self) -> (out: Vec<(u64, i32)>)
        requires
            self.wf(),
        ensures
            out@ == as_pairs(self.leaf_list()),
            out@.len() > 0,
            forall|i: int, j: int| 0 <= i < j < out@.len() ==> out@[i].0 < out@[j].0,
            self.idle_votes() matches Some(v) ==> out@ == seq![(0u64, v)],
            self.idle_votes() is None ==> {
                &&& forall|i: int|
                    0 <= i < out@.len() ==> #[trigger] self@.contains_key(out@[i].0) && self@[out@[i].0]
                        == out@[i].1
                &&& forall|a: u64|
                    #[trigger] self@.contains_key(a) ==> exists|i: int| 0 <= i < out@.len() && out@[i].0 == a
            },
    {
        let mut out: Vec<(u64, i32)> = Vec::new();
        proof {
            lemma_span_eight();
        }
        self.root.collect_leaves(0, &mut out);
        proof {
            assert(out@ =~= as_pairs(self.leaf_list()));
            if self.root.leaf {
                assert(out@ =~= seq![(0u64, self.root.votes)]);
            } else {
                self.lemma_leaf_list();
                lemma_inner_has_leaf(*self.root);
                let p = choose|p: Seq<u8>| p.len() == 8 && #[trigger] self.root.get(p) is Some;
                lemma_value_path(p);
                let a = extend(0, p) as u64;
                assert(self@.contains_key(a));
            }
        }
        out
    }

    /// A tree holding addresses has exactly as many leaves as addresses.
    proof fn lemma_leaf_count(&self)
        requires
            self.wf(),
            self.idle_votes() is None,
        ensures
            self.leaf_list().len() == self@.dom().len(),
            self@.dom().finite(),
    {
        self.lemma_leaf_list();
        let out = as_pairs(self.leaf_list());
        let addrs = out.map_values(|x: (u64, i32)| x.0);
        assert forall|i: int, j: int| 0 <= i < addrs.len() && 0 <= j < addrs.len() && i != j implies addrs[i]
            != addrs[j] by {
            if i < j {
                assert(out[i].0 < out[j].0);
            } else {
                assert(out[j].0 < out[i].0);
            }
        }
        assert(addrs.no_duplicates());
        addrs.unique_seq_to_set();
        assert forall|a: u64| #[trigger] addrs.to_set().contains(a) == self@.dom().contains(a) by {
            if self@.contains_key(a) {
                let i = choose|i: int| 0 <= i < out.len() && out[i].0 == a;
                assert(addrs[i] == a);
            }
            if addrs.to_set().contains(a) {
                let i = choose|i: int| 0 <= i < addrs.len() && addrs[i] == a;
                assert(out[i].0 == a);
            }
        }
        assert(addrs.to_set() =~= self@.dom());
    }

    /// Counting and listing agree: the leaves of a tree are as many as
    /// `count_nodes` reports, one per registered address, or the idle root
    /// alone.
    pub proof fn lemma_leaves_counted(&self)
        requires
            self.wf(),
        ensures
            as_pairs(self.leaf_list()).len() == if self.idle_votes() is Some {
                1
            } else {
                self@.dom().len()
            },
    {
        if self.root.leaf {
            assert(self.leaf_list() == seq![(0int, self.root.votes)]);
        } else {
            self.lemma_leaf_count();
        }
    }

    /// Number of leaves currently in the tree: the number of registered
    /// addresses, or one for the idle root.
    pub fn count_nodes(&self) -> (n: usize)
        requires
            self.wf(),
            self@.dom().len() <= usize::MAX,
        ensures
            self.idle_votes() is Some ==> n == 1,
            self.idle_votes() is None ==> n == self@.dom().len(),
            n == as_pairs(self.leaf_list()).len(),
    {
        proof {
            if !self.root.leaf {
                self.lemma_leaf_count();
            }
            self.lemma_leaves_counted();
        }
        self.root.count_nodes()
    }

    /// Drop every leaf whose vote count is below `threshold`, pruning the
    /// branches left empty; a tree left without leaves becomes idle with no
    /// votes. An idle tree is left unchanged.
    pub fn filter(&mut self, threshold: i32)
        requires
            old(self).wf(),
        ensures
            final(self).wf(),
            final(self).spec_nb_nodes() == old(self).spec_nb_nodes(),
            old(self).idle_votes() is Some ==> final(self)@ == old(self)@ && final(self).idle_votes()
                == old(self).idle_votes(),
            old(self).idle_votes() is None ==> {
                &&& final(self)@ == at_least(old(self)@, threshold)
                &&& final(self).idle_votes() == if final(self)@.is_empty() {
                    Some(0i32)
                } else {
                    None::<i32>
                }
            },
            old(self).idle_votes() is Some ==> final(self).leaf_list() == old(self).leaf_list(),
            old(self).idle_votes() is None ==> as_pairs(final(self).leaf_list()) == {
                let kept = leaves_at_least(as_pairs(old(self).leaf_list()), threshold);
                if kept.len() > 0 {
                    kept
                } else {
                    seq![(0u64, 0i32)]
                }
            },
    {
        let ghost before = *self;
        proof {
            before.lemma_listed();
        }
        let ghost old_root = *self.root;
        self.root.filter(threshold);
        proof {
            if !old_root.leaf {
                let m = Map::new(
                    |a: u64| old(self)@.contains_key(a) && old(self)@[a] >= threshold,
                    |a: u64| old(self)@[a],
                );
                assert(self@ =~= m);
                if self.root.leaf {
                    assert(self@ =~= Map::<u64, i32>::empty());
                } else {
                    lemma_inner_has_leaf(*self.root);
                    let p = choose|p: Seq<u8>| p.len() == 8 && #[trigger] self.root.get(p) is Some;
                    lemma_value_path(p);
                    let a = extend(0, p) as u64;
                    assert(self@.contains_key(a));
                }
            } else {
                assert(self@ =~= old(self)@);
            }
            self.lemma_listed();
            if !old_root.leaf {
                let kept = leaves_at_least(as_pairs(before.leaf_list()), threshold);
                lemma_at_least_listing(before@, as_pairs(before.leaf_list()), threshold);
                if self.root.leaf {
                    if kept.len() > 0 {
                        assert(self@.contains_key(kept[0].0));
                    }
                } else {
                    lemma_listing_unique(self@, as_pairs(self.leaf_list()), kept);
                    if kept.len() == 0 {
                        lemma_inner_has_leaf(*self.root);
                        let p = choose|p: Seq<u8>| p.len() == 8 && #[trigger] self.root.get(p) is Some;
                        lemma_value_path(p);
                        let a = extend(0, p) as u64;
                        assert(self@.contains_key(a));
                        let q = choose|q: int| 0 <= q < kept.len() && kept[q].0 == a;
                    }
                }
            } else {
                assert(self.leaf_list() == seq![(0int, self.root.votes)]);
                assert(before.leaf_list() == seq![(0int, old_root.votes)]);
            }
        }
    }
}

/// `256^m` is positive.
proof fn lemma_span_pos(m: nat)
    ensures
        span(m) >= 1,
    decreases m,
{
    if m > 0 {
        lemma_span_pos((m - 1) as nat);
    }
}

/// Appending `m` bytes to `prefix` stays within the block of `256^m`
/// numbers that starts at `prefix * 256^m`.
proof fn lemma_extend_range(prefix: int, p: Seq<u8>)
    requires
        prefix >= 0,
    ensures
        prefix * span(p.len()) <= extend(prefix, p) < (prefix + 1) * span(p.len()),
    decreases p.len(),
{
    if p.len() > 0 {
        let q = p.drop_first();
        let m = q.len();
        let b = p[0] as int;
        lemma_extend_range(prefix * 256 + b, q);
        lemma_span_pos(m);
        let s = span(m);
        assert(span(p.len()) == 256 * s);
        assert(prefix * (256 * s) <= (prefix * 256 + b) * s) by (nonlinear_arith)
            requires
                0 <= b,
                s >= 1,
                prefix >= 0,
        ;
        assert((prefix * 256 + b + 1) * s <= (prefix + 1) * (256 * s)) by (nonlinear_arith)
            requires
                b < 256,
                s >= 1,
                prefix >= 0,
        ;
    }
}

/// Facts about the leaves listed below the children `k..256` of an inner node.
#[verifier::spinoff_prover]
#[verifier::rlimit(60)]
proof fn lemma_children_entries(n: Node, k: int, prefix: int)
    requires
        n.wf(),
        !n.leaf,
        prefix >= 0,
        0 <= k <= 256,
    ensures
        ({
            let e = n.children_entries(k, prefix);
            let h = n.height();
            &&& forall|i: int|
                0 <= i < e.len() ==> (prefix * 256 + k) * span((h - 1) as nat) <= #[trigger] e[i].0 < (
                prefix + 1) * span(h)
            &&& forall|i: int, j: int| 0 <= i < j < e.len() ==> e[i].0 < e[j].0
            &&& forall|i: int|
                #![trigger e[i]]
                0 <= i < e.len() ==> exists|p: Seq<u8>|
                    #[trigger] n.get(p) == Some(e[i].1) && p.len() == h && p[0] >= k && e[i].0 == extend(
                        prefix,
                        p,
                    )
            &&& forall|p: Seq<u8>|
                p.len() == h && p[0] >= k && #[trigger] n.get(p) is Some ==> exists|i: int|
                    0 <= i < e.len() && e[i] == (extend(prefix, p), n.get(p)->0)
        }),
    decreases n.height(), 256 - k,
{
    let e = n.children_entries(k, prefix);
    let h = n.height();
    lemma_span_pos((h - 1) as nat);
    assert(span(h) == 256 * span((h - 1) as nat));
    if k == 256 {
        assert(e.len() == 0);
        assert forall|p: Seq<u8>| p.len() == h && p[0] >= k && #[trigger] n.get(p) is Some implies exists|i: int|
            0 <= i < e.len() && e[i] == (extend(prefix, p), n.get(p)->0) by {
            assert(p[0] < 256);
        }
        return;
    }
    let rest = n.children_entries(k + 1, prefix);
    lemma_children_entries(n, k + 1, prefix);
    let s1 = span((h - 1) as nat);
    let pk = prefix * 256 + k;
    assert(pk >= 0);
    assert((pk + 1) * s1 <= (prefix + 1) * span(h)) by (nonlinear_arith)
        requires
            pk == prefix * 256 + k,
            k < 256,
            s1 >= 1,
            span(h) == 256 * s1,
    ;
    assert(pk * s1 <= (pk + 1) * s1) by (nonlinear_arith)
        requires
            s1 >= 1,
    ;
    match n.children@[k] {
        None => {
            assert(e =~= rest);
            assert forall|i: int| 0 <= i < e.len() implies pk * s1 <= #[trigger] e[i].0 by {
                assert(e[i] == rest[i]);
            }
            assert forall|p: Seq<u8>| p.len() == h && p[0] >= k && #[trigger] n.get(p) is Some implies exists|i: int|
                0 <= i < e.len() && e[i] == (extend(prefix, p), n.get(p)->0) by {
                if p[0] == k {
                    assert(n.get(p) is None);
                }
            }
            assert forall|i: int| #![trigger e[i]] 0 <= i < e.len() implies exists|p: Seq<u8>|
                #[trigger] n.get(p) == Some(e[i].1) && p.len() == h && p[0] >= k && e[i].0 == extend(prefix, p) by {
                assert(e[i] == rest[i]);
                let p = choose|p: Seq<u8>|
                    #[trigger] n.get(p) == Some(rest[i].1) && p.len() == h && p[0] >= k + 1 && rest[i].0 == extend(prefix, p);
                assert(n.get(p) == Some(e[i].1) && p.len() == h && p[0] >= k && e[i].0 == extend(prefix, p));
            }
        },
        Some(c) => {
            assert(c.wf() && c.height() + 1 == h && (c.leaf ==> c.height() == 0));
            let here = c.entries(pk);
            assert(e =~= here + rest);
            if c.leaf {
                lemma_entries_leaf(*c, pk);
            } else {
                lemma_entries_inner(*c, pk);
            }
            assert forall|i: int|
                0 <= i < e.len() implies pk * s1 <= #[trigger] e[i].0 < (prefix + 1) * span(h) by {
                if i < here.len() {
                    assert(e[i] == here[i]);
                } else {
                    assert(e[i] == rest[i - here.len()]);
                }
            }
            assert forall|i: int, j: int| 0 <= i < j < e.len() implies e[i].0 < e[j].0 by {
                if j < here.len() {
                    assert(e[i] == here[i] && e[j] == here[j]);
                } else if i >= here.len() {
                    assert(e[i] == rest[i - here.len()] && e[j] == rest[j - here.len()]);
                } else {
                    assert(e[i] == here[i] && e[j] == rest[j - here.len()]);
                    assert(here[i].0 < (pk + 1) * s1);
                }
            }
            assert forall|i: int| #![trigger e[i]] 0 <= i < e.len() implies exists|p: Seq<u8>|
                #[trigger] n.get(p) == Some(e[i].1) && p.len() == h && p[0] >= k && e[i].0 == extend(prefix, p) by {
                if i < here.len() {
                    assert(e[i] == here[i]);
                    let q = choose|q: Seq<u8>|
                        #[trigger] c.get(q) == Some(here[i].1) && q.len() == h - 1 && here[i].0 == extend(pk, q);
                    let p = seq![k as u8] + q;
                    assert(p.drop_first() =~= q);
                    assert(p[0] == k as u8);
                    assert(n.get(p) == c.get(q));
                    assert(extend(prefix, p) == extend(pk, q));
                    assert(n.get(p) == Some(e[i].1) && p.len() == h && p[0] >= k && e[i].0 == extend(prefix, p));
                } else {
                    assert(e[i] == rest[i - here.len()]);
                    let p = choose|p: Seq<u8>|
                        #[trigger] n.get(p) == Some(rest[i - here.len()].1) && p.len() == h && p[0] >= k + 1
                            && rest[i - here.len()].0 == extend(prefix, p);
                    assert(n.get(p) == Some(e[i].1) && p.len() == h && p[0] >= k && e[i].0 == extend(prefix, p));
                }
            }
            assert forall|p: Seq<u8>| p.len() == h && p[0] >= k && #[trigger] n.get(p) is Some implies exists|i: int|
                0 <= i < e.len() && e[i] == (extend(prefix, p), n.get(p)->0) by {
                if p[0] == k {
                    let q = p.drop_first();
                    assert(n.get(p) == c.get(q));
                    assert(extend(prefix, p) == extend(pk, q));
                    let i = choose|i: int| 0 <= i < here.len() && here[i] == (extend(pk, q), c.get(q)->0);
                    assert(e[i] == here[i]);
                } else {
                    let i = choose|i: int|
                        0 <= i < rest.len() && rest[i] == (extend(prefix, p), n.get(p)->0);
                    assert(e[i + here.len()] == rest[i]);
                }
            }
        },
    }
}

/// Facts about the leaves listed below an inner node: their addresses lie
/// in the node's block, increase strictly, and are exactly the leaves
/// reachable from the node.
#[verifier::spinoff_prover]
proof fn lemma_entries_inner(n: Node, prefix: int)
    requires
        n.wf(),
        prefix >= 0,
        !n.leaf,
    ensures
        ({
            let e = n.entries(prefix);
            let h = n.height();
            &&& forall|i: int|
                0 <= i < e.len() ==> prefix * span(h) <= #[trigger] e[i].0 < (prefix + 1) * span(h)
            &&& forall|i: int, j: int| 0 <= i < j < e.len() ==> e[i].0 < e[j].0
            &&& forall|i: int|
                #![trigger e[i]]
                0 <= i < e.len() ==> exists|p: Seq<u8>|
                    #[trigger] n.get(p) == Some(e[i].1) && p.len() == h && e[i].0 == extend(prefix, p)
            &&& forall|p: Seq<u8>|
                p.len() == h && #[trigger] n.get(p) is Some ==> exists|i: int|
                    0 <= i < e.len() && e[i] == (extend(prefix, p), n.get(p)->0)
        }),
    decreases n.height(), 257int,
{
    let e = n.entries(prefix);
    let h = n.height();
    assert(e == n.children_entries(0, prefix));
    lemma_children_entries(n, 0, prefix);
    lemma_span_pos((h - 1) as nat);
    assert(prefix * 256 * span((h - 1) as nat) == prefix * span(h)) by (nonlinear_arith)
        requires
            span(h) == 256 * span((h - 1) as nat),
    ;
    assert forall|i: int| 0 <= i < e.len() implies prefix * span(h) <= #[trigger] e[i].0 < (prefix + 1)
        * span(h) by {
        assert((prefix * 256 + 0) * span((h - 1) as nat) <= e[i].0);
    }
    assert forall|p: Seq<u8>| p.len() == h && #[trigger] n.get(p) is Some implies exists|i: int|
        0 <= i < e.len() && e[i] == (extend(prefix, p), n.get(p)->0) by {
        assert(p[0] >= 0);
    }
    assert forall|i: int| #![trigger e[i]] 0 <= i < e.len() implies exists|p: Seq<u8>|
        #[trigger] n.get(p) == Some(e[i].1) && p.len() == h && e[i].0 == extend(prefix, p) by {
        let p = choose|p: Seq<u8>|
            #[trigger] n.get(p) == Some(e[i].1) && p.len() == h && p[0] >= 0 && e[i].0 == extend(prefix, p);
        assert(n.get(p) == Some(e[i].1) && p.len() == h && e[i].0 == extend(prefix, p));
    }
}

/// The same facts for a leaf at the bottom level.
proof fn lemma_entries_leaf(n: Node, prefix: int)
    requires
        n.wf(),
        n.leaf,
        n.height() == 0,
    ensures
        ({
            let e = n.entries(prefix);
            &&& e == seq![(prefix, n.votes)]
            &&& forall|i: int|
                0 <= i < e.len() ==> prefix * span(n.height()) <= #[trigger] e[i].0 < (prefix + 1) * span(n.height())
            &&& forall|i: int, j: int| 0 <= i < j < e.len() ==> e[i].0 < e[j].0
            &&& forall|i: int|
                #![trigger e[i]]
                0 <= i < e.len() ==> exists|p: Seq<u8>|
                    #[trigger] n.get(p) == Some(e[i].1) && p.len() == n.height() && e[i].0 == extend(prefix, p)
            &&& forall|p: Seq<u8>|
                p.len() == n.height() && #[trigger] n.get(p) is Some ==> exists|i: int|
                    0 <= i < e.len() && e[i] == (extend(prefix, p), n.get(p)->0)
        }),
{
    let e = n.entries(prefix);
    let p = Seq::<u8>::empty();
    assert(n.get(p) == Some(n.votes));
    assert(extend(prefix, p) == prefix);
    assert(span(0) == 1);
    assert(n.get(p) == Some(e[0].1) && p.len() == 0 && e[0].0 == extend(prefix, p));
    assert forall|q: Seq<u8>| q.len() == n.height() && #[trigger] n.get(q) is Some implies exists|i: int|
        0 <= i < e.len() && e[i] == (extend(prefix, q), n.get(q)->0) by {
        assert(q =~= p);
        assert(e[0] == (extend(prefix, q), n.get(q)->0));
    }
}


/// The length of the leaf list does not depend on the address prefix.
proof fn lemma_entries_len(n: Node, p1: int, p2: int)
    ensures
        n.entries(p1).len() == n.entries(p2).len(),
    decreases n.height(), 257int,
{
    if !n.leaf {
        lemma_children_entries_len(n, 0, p1, p2);
    }
}

/// The length of the children's leaf list does not depend on the prefix.
proof fn lemma_children_entries_len(n: Node, k: int, p1: int, p2: int)
    ensures
        n.children_entries(k, p1).len() == n.children_entries(k, p2).len(),
    decreases n.height(), 256 - k,
{
    if 0 <= k < 256 {
        match n.children@[k] {
            Some(c) => {
                if c.height() < n.height() {
                    lemma_entries_len(*c, p1 * 256 + k, p2 * 256 + k);
                }
            },
            None => {},
        }
        lemma_children_entries_len(n, k + 1, p1, p2);
    }
}

/// A leaf is found only at the bottom of the tree: a path that reaches one
/// below an inner node is exactly as long as the node is high.
proof fn lemma_get_len(n: Node, p: Seq<u8>)
    requires
        n.wf(),
        !n.leaf || n.height() == 0,
        n.get(p) is Some,
    ensures
        p.len() == n.height(),
    decreases p.len(),
{
    if p.len() > 0 {
        let c = n.children@[p[0] as int]->0;
        assert(n.children@[p[0] as int] is Some);
        lemma_get_len(*c, p.drop_first());
    } else if !n.leaf {
        assert(false);
    }
}

/// A present child of an inner node has a leaf below it.
proof fn lemma_child_leads(n: Node, k: int)
    requires
        n.wf(),
        !n.leaf,
        0 <= k < 256,
        n.children@[k] is Some,
    ensures
        n.leads_to_leaf(k as u8),
{
    let c = n.children@[k]->0;
    assert(c.wf());
    let q = if c.leaf {
        Seq::<u8>::empty()
    } else {
        lemma_inner_has_leaf(*c);
        choose|q: Seq<u8>| q.len() == c.height() && #[trigger] c.get(q) is Some
    };
    assert(c.get(q) is Some);
    let p = seq![k as u8] + q;
    assert(p.drop_first() =~= q);
    assert(p[0] == k as u8);
    assert(n.get(p) == c.get(q));
}

/// Every inner node has at least one leaf below it.
proof fn lemma_inner_has_leaf(n: Node)
    requires
        n.wf(),
        !n.leaf,
    ensures
        exists|p: Seq<u8>| p.len() == n.height() && #[trigger] n.get(p) is Some,
    decreases n.height(),
{
    let k = choose|k: int| 0 <= k < 256 && n.children@[k] is Some;
    let c = n.children@[k]->0;
    assert(c.wf());
    let q = if c.leaf {
        Seq::<u8>::empty()
    } else {
        lemma_inner_has_leaf(*c);
        choose|q: Seq<u8>| q.len() == c.height() && #[trigger] c.get(q) is Some
    };
    let p = seq![k as u8] + q;
    assert(p.drop_first() =~= q);
    assert(p[0] == k as u8);
    assert(n.get(p) == c.get(q));
    assert(p.len() == n.height() && n.get(p) is Some);
}

/// `256^8 == 2^64`.
proof fn lemma_span_eight()
    ensures
        span(8) == 0x1_0000_0000_0000_0000,
{
    reveal_with_fuel(span, 9);
}

/// `256^m >= 256` once at least one byte is appended.
proof fn lemma_span_ge(m: nat)
    requires
        m >= 1,
    ensures
        span(m) >= 256,
{
    lemma_span_pos((m - 1) as nat);
}

/// Appending eight bytes to zero yields their big-endian value.
proof fn lemma_extend_eight(p: Seq<u8>)
    requires
        p.len() == 8,
    ensures
        extend(0, p) == p[0] * 0x100000000000000 + p[1] * 0x1000000000000 + p[2] * 0x10000000000 + p[3]
            * 0x100000000 + p[4] * 0x1000000 + p[5] * 0x10000 + p[6] * 0x100 + p[7],
{
    let p1 = p.drop_first();
    let p2 = p1.drop_first();
    let p3 = p2.drop_first();
    let p4 = p3.drop_first();
    let p5 = p4.drop_first();
    let p6 = p5.drop_first();
    let p7 = p6.drop_first();
    let p8 = p7.drop_first();
    assert(p8.len() == 0);
    assert(extend(0, p) == extend(p[0] as int, p1));
    assert(extend(p[0] as int, p1) == extend(p[0] * 256 + p[1], p2));
    assert(extend(p[0] * 256 + p[1], p2) == extend((p[0] * 256 + p[1]) * 256 + p[2], p3));
    assert(extend((p[0] * 256 + p[1]) * 256 + p[2], p3) == extend(((p[0] * 256 + p[1]) * 256 + p[2]) * 256
        + p[3], p4));
    let v4 = ((p[0] * 256 + p[1]) * 256 + p[2]) * 256 + p[3];
    assert(extend(v4, p4) == extend(v4 * 256 + p[4], p5));
    assert(extend(v4 * 256 + p[4], p5) == extend((v4 * 256 + p[4]) * 256 + p[5], p6));
    let v6 = (v4 * 256 + p[4]) * 256 + p[5];
    assert(extend(v6, p6) == extend(v6 * 256 + p[6], p7));
    assert(extend(v6 * 256 + p[6], p7) == extend((v6 * 256 + p[6]) * 256 + p[7], p8));
}

/// A 64-bit value is the sum of its bytes at their weights.
proof fn lemma_u64_bytes(a: u64)
    by (bit_vector)
    ensures
        a == (((a >> 56u32) & 0xffu64) as u8) as u64 * 0x100000000000000u64 + (((a >> 48u32) & 0xffu64) as u8) as u64
            * 0x1000000000000u64 + (((a >> 40u32) & 0xffu64) as u8) as u64 * 0x10000000000u64 + (((a >> 32u32)
            & 0xffu64) as u8) as u64 * 0x100000000u64 + (((a >> 24u32) & 0xffu64) as u8) as u64 * 0x1000000u64
            + (((a >> 16u32) & 0xffu64) as u8) as u64 * 0x10000u64 + (((a >> 8u32) & 0xffu64) as u8) as u64
            * 0x100u64 + (((a >> 0u32) & 0xffu64) as u8) as u64,
{
}

/// The bytes of a value assembled from eight bytes are those bytes.
proof fn lemma_u64_from_bytes(b0: u8, b1: u8, b2: u8, b3: u8, b4: u8, b5: u8, b6: u8, b7: u8, x: u64)
    by (bit_vector)
    requires
        x == b0 as u64 * 0x100000000000000u64 + b1 as u64 * 0x1000000000000u64 + b2 as u64 * 0x10000000000u64
            + b3 as u64 * 0x100000000u64 + b4 as u64 * 0x1000000u64 + b5 as u64 * 0x10000u64 + b6 as u64
            * 0x100u64 + b7 as u64,
    ensures
        ((x >> 56u32) & 0xffu64) as u8 == b0,
        ((x >> 48u32) & 0xffu64) as u8 == b1,
        ((x >> 40u32) & 0xffu64) as u8 == b2,
        ((x >> 32u32) & 0xffu64) as u8 == b3,
        ((x >> 24u32) & 0xffu64) as u8 == b4,
        ((x >> 16u32) & 0xffu64) as u8 == b5,
        ((x >> 8u32) & 0xffu64) as u8 == b6,
        ((x >> 0u32) & 0xffu64) as u8 == b7,
{
}

/// The path of an address, read back as a number, is the address.
proof fn lemma_path_value(a: u64)
    ensures
        extend(0, to_path(a)) == a as int,
{
    let p = to_path(a);
    lemma_extend_eight(p);
    lemma_u64_bytes(a);
    assert(p[0] == addr_byte(a, 0) && p[7] == addr_byte(a, 7));
    assert(((7 - 0) * 8) as u32 == 56u32);
    assert(((7 - 7) * 8) as u32 == 0u32);
    assert(((7 - 1) * 8) as u32 == 48u32);
    assert(((7 - 2) * 8) as u32 == 40u32);
    assert(((7 - 3) * 8) as u32 == 32u32);
    assert(((7 - 4) * 8) as u32 == 24u32);
    assert(((7 - 5) * 8) as u32 == 16u32);
    assert(((7 - 6) * 8) as u32 == 8u32);
}

/// The path of the number spelled by an eight-byte path is that path.
proof fn lemma_value_path(p: Seq<u8>)
    requires
        p.len() == 8,
    ensures
        0 <= extend(0, p) < 0x1_0000_0000_0000_0000,
        to_path(extend(0, p) as u64) == p,
{
    lemma_extend_eight(p);
    lemma_extend_range(0, p);
    lemma_span_eight();
    let x = extend(0, p) as u64;
    lemma_u64_from_bytes(p[0], p[1], p[2], p[3], p[4], p[5], p[6], p[7], x);
    let q = to_path(x);
    assert(((7 - 0) * 8) as u32 == 56u32);
    assert(((7 - 7) * 8) as u32 == 0u32);
    assert(((7 - 1) * 8) as u32 == 48u32);
    assert(((7 - 2) * 8) as u32 == 40u32);
    assert(((7 - 3) * 8) as u32 == 32u32);
    assert(((7 - 4) * 8) as u32 == 24u32);
    assert(((7 - 5) * 8) as u32 == 16u32);
    assert(((7 - 6) * 8) as u32 == 8u32);
    assert(q =~= p);
}


/// An address fits in 32 bits exactly when the first four bytes of its path
/// are zero.
pub proof fn lemma_low_address(a: u64)
    ensures
        (a < 0x1_0000_0000) == (to_path(a)[0] == 0 && to_path(a)[1] == 0 && to_path(a)[2] == 0 && to_path(a)[3]
            == 0),
{
    lemma_u64_bytes(a);
    assert(((7 - 0) * 8) as u32 == 56u32);
    assert(((7 - 1) * 8) as u32 == 48u32);
    assert(((7 - 2) * 8) as u32 == 40u32);
    assert(((7 - 3) * 8) as u32 == 32u32);
    assert(((7 - 4) * 8) as u32 == 24u32);
    assert(((7 - 5) * 8) as u32 == 16u32);
    assert(((7 - 6) * 8) as u32 == 8u32);
    assert(((7 - 7) * 8) as u32 == 0u32);
    if a < 0x1_0000_0000 {
        assert(((a >> 56u32) & 0xffu64) as u8 == 0 && ((a >> 48u32) & 0xffu64) as u8 == 0 && ((a >> 40u32)
            & 0xffu64) as u8 == 0 && ((a >> 32u32) & 0xffu64) as u8 == 0) by (bit_vector)
            requires
                a < 0x1_0000_0000u64,
        ;
    }
}

/// The path of the number spelled by an eight-byte path is that path
/// (public form, for navigation from outside the tree).
pub proof fn lemma_path_of_value(p: Seq<u8>)
    requires
        p.len() == 8,
    ensures
        0 <= extend(0, p) < 0x1_0000_0000_0000_0000,
        to_path(extend(0, p) as u64) == p,
{
    lemma_value_path(p);
}

/// A path that reaches a vote below an inner node is as long as the node is
/// high (public form).
pub proof fn lemma_vote_path_len(n: &Node, p: Seq<u8>)
    requires
        n.wf(),
        !n.spec_leaf() || n.height() == 0,
        n.get(p) is Some,
    ensures
        p.len() == n.height(),
{
    lemma_get_len(*n, p);
}


/// A leaf holds a vote only at the end of the empty path.
pub proof fn lemma_leaf_get(n: &Node, p: Seq<u8>)
    requires
        n.spec_leaf(),
        p.len() > 0,
    ensures
        n.get(p) is None,
{
}


/// The nodes missing along a path are those past the longest prefix the path
/// shares with a leaf below the node.
proof fn lemma_missing(n: Node, p: Seq<u8>) -> (k: nat)
    requires
        n.wf(),
        !n.leaf || n.height() == 0,
        p.len() == n.height(),
    ensures
        exists|r: Seq<u8>| #[trigger] n.get(r) is Some && r.len() == n.height() && common_len(p, r) == k,
        forall|r: Seq<u8>| #[trigger] n.get(r) is Some ==> common_len(p, r) <= k,
        n.missing(p) == n.height() - k,
    decreases n.height(),
{
    let h = n.height();
    if n.leaf {
        let r = Seq::<u8>::empty();
        assert(n.get(r) is Some);
        assert forall|q: Seq<u8>| #[trigger] n.get(q) is Some implies common_len(p, q) <= 0 by {
            if q.len() > 0 {
                assert(n.get(q) is None);
            }
        }
        assert(n.get(r) is Some && r.len() == h && common_len(p, r) == 0);
        0
    } else {
        let b = p[0];
        let pr = p.drop_first();
        match n.children@[b as int] {
            None => {
                lemma_inner_has_leaf(n);
                let r = choose|r: Seq<u8>| r.len() == h && #[trigger] n.get(r) is Some;
                assert(r[0] != b);
                assert forall|q: Seq<u8>| #[trigger] n.get(q) is Some implies common_len(p, q) <= 0 by {
                    lemma_get_len(n, q);
                    assert(q[0] != b);
                }
                assert(n.missing(p) == h);
                assert(n.get(r) is Some && r.len() == h && common_len(p, r) == 0);
                0
            },
            Some(c) => {
                assert(c.wf() && c.height() + 1 == h && (c.leaf ==> c.height() == 0));
                let k1 = lemma_missing(*c, pr);
                let r1 = choose|r: Seq<u8>| #[trigger] c.get(r) is Some && r.len() == c.height() && common_len(pr, r) == k1;
                let r = seq![b] + r1;
                assert(r.drop_first() =~= r1);
                assert(r[0] == b);
                assert(n.get(r) == c.get(r1));
                assert(common_len(p, r) == 1 + k1);
                assert forall|q: Seq<u8>| #[trigger] n.get(q) is Some implies common_len(p, q) <= 1 + k1 by {
                    lemma_get_len(n, q);
                    if q[0] == b {
                        assert(c.get(q.drop_first()) is Some);
                    }
                }
                assert(n.missing(p) == c.missing(pr));
                assert(n.get(r) is Some && r.len() == h && common_len(p, r) == 1 + k1);
                1 + k1
            },
        }
    }
}


/// Every vote of `m` is at least one.
pub open spec fn votes_positive(m: Map<u64, i32>) -> bool {
    forall|a: u64| #[trigger] m.contains_key(a) ==> m[a] >= 1
}

/// Registering an address adds exactly that address, and keeps every vote
/// at least one unless its count is bumped past `i32::MAX` (where it
/// wraps). With `lemma_at_least_positive` and a fresh tree holding no
/// address, this is the induction step for: every address a tree holds
/// was registered, and carries a positive vote.
pub proof fn lemma_registered_positive(m: Map<u64, i32>, a: u64)
    requires
        votes_positive(m),
        m.contains_key(a) ==> m[a] < i32::MAX,
    ensures
        registered(m, a).dom() == m.dom().insert(a),
        votes_positive(registered(m, a)),
{
    assert(registered(m, a).dom() =~= m.dom().insert(a));
}

/// Filtering keeps only addresses that were present, each with the vote it
/// had, so positive votes stay positive.
pub proof fn lemma_at_least_positive(m: Map<u64, i32>, t: i32)
    requires
        votes_positive(m),
    ensures
        at_least(m, t).dom().subset_of(m.dom()),
        votes_positive(at_least(m, t)),
{
}

/// The non-empty byte prefixes (most significant first) of the addresses
/// of `s`: one tree node each.
pub open spec fn prefixes(s: Set<u64>) -> Set<Seq<u8>> {
    Set::new(
        |p: Seq<u8>|
            exists|b: u64, k: int|
                #![trigger s.contains(b), to_path(b).take(k)]
                s.contains(b) && 1 <= k <= 8 && p == to_path(b).take(k),
    )
}

/// The prefixes of the path of `a` of lengths `from + 1` to `8`.
pub open spec fn path_prefixes(a: u64, from: nat) -> Seq<Seq<u8>> {
    Seq::new((8 - from) as nat, |j: int| to_path(a).take(from + 1 + j))
}

/// The first `k` bytes of two sequences agree exactly when they share at
/// least `k` leading bytes.
proof fn lemma_common_take(p: Seq<u8>, q: Seq<u8>, k: int)
    requires
        0 <= k <= p.len(),
        k <= q.len(),
    ensures
        (common_len(p, q) >= k) <==> (p.take(k) == q.take(k)),
    decreases k,
{
    if k > 0 {
        lemma_common_take(p.drop_first(), q.drop_first(), k - 1);
        assert(p.take(k) == seq![p[0]] + p.drop_first().take(k - 1));
        assert(q.take(k) == seq![q[0]] + q.drop_first().take(k - 1));
        if p.take(k) == q.take(k) {
            assert(p.take(k)[0] == p[0]);
            assert(q.take(k)[0] == q[0]);
            assert(p.drop_first().take(k - 1) =~= p.take(k).drop_first());
            assert(q.drop_first().take(k - 1) =~= q.take(k).drop_first());
        }
    } else {
        assert(p.take(0) =~= q.take(0));
    }
}

/// A shared prefix of two addresses is at most eight bytes long.
proof fn lemma_common_len_bound(p: Seq<u8>, q: Seq<u8>)
    ensures
        common_len(p, q) <= p.len(),
    decreases p.len(),
{
    if p.len() > 0 && q.len() > 0 && p[0] == q[0] {
        lemma_common_len_bound(p.drop_first(), q.drop_first());
    }
}

/// A non-empty finite map has a longest prefix shared with `a`.
proof fn lemma_longest_exists(m: Map<u64, i32>, a: u64)
    requires
        m.dom().finite(),
        !m.dom().is_empty(),
    ensures
        exists|k: nat| is_longest_share(m, a, k),
    decreases m.dom().len(),
{
    let b = m.dom().choose();
    assert(m.contains_key(b));
    let rest = m.remove(b);
    assert(rest.dom() =~= m.dom().remove(b));
    if rest.dom().is_empty() {
        assert forall|c: u64| #[trigger] m.contains_key(c) implies shared_bytes(a, c) <= shared_bytes(a, b) by {
            if c != b {
                assert(rest.dom().contains(c));
            }
        }
        assert(is_longest_share(m, a, shared_bytes(a, b)));
    } else {
        lemma_longest_exists(rest, a);
        let k = choose|k: nat| is_longest_share(rest, a, k);
        let best: nat = if shared_bytes(a, b) > k {
            shared_bytes(a, b)
        } else {
            k
        };
        let c0 = choose|c: u64| #[trigger] rest.contains_key(c) && shared_bytes(a, c) == k;
        assert(m.contains_key(c0));
        assert forall|c: u64| #[trigger] m.contains_key(c) implies shared_bytes(a, c) <= best by {
            if c != b {
                assert(rest.contains_key(c));
            }
        }
        assert(is_longest_share(m, a, best));
    }
}

/// The prefixes of the addresses of a finite set form a finite set.
proof fn lemma_prefixes_finite(s: Set<u64>)
    requires
        s.finite(),
    ensures
        prefixes(s).finite(),
    decreases s.len(),
{
    if s.is_empty() {
        assert(prefixes(s) =~= Set::<Seq<u8>>::empty());
    } else {
        let x = s.choose();
        let r = s.remove(x);
        lemma_prefixes_finite(r);
        let all = path_prefixes(x, 0).to_set();
        assert(prefixes(s) =~= prefixes(r) + all) by {
            assert forall|p: Seq<u8>| #[trigger] prefixes(s).contains(p) implies (prefixes(r) + all).contains(p) by {
                let (b, k) = choose|b: u64, k: int|
                    #![trigger s.contains(b), to_path(b).take(k)]
                    s.contains(b) && 1 <= k <= 8 && p == to_path(b).take(k);
                if b == x {
                    assert(path_prefixes(x, 0)[k - 1] == p);
                } else {
                    assert(r.contains(b));
                }
            }
            assert forall|p: Seq<u8>| #[trigger] (prefixes(r) + all).contains(p) implies prefixes(s).contains(p) by {
                if all.contains(p) {
                    let j = choose|j: int| 0 <= j < 8 && path_prefixes(x, 0)[j] == p;
                    assert(s.contains(x) && p == to_path(x).take(j + 1));
                } else {
                    let (b, k) = choose|b: u64, k: int|
                        #![trigger r.contains(b), to_path(b).take(k)]
                        r.contains(b) && 1 <= k <= 8 && p == to_path(b).take(k);
                    assert(s.contains(b));
                }
            }
        }
    }
}

/// Registering `a` adds as many prefixes as the registration creates tree
/// nodes (`nodes_needed`). With a fresh tree counting no node and holding
/// no address, this is the induction step for: the node count of a tree
/// built by registrations alone is the number of distinct non-empty byte
/// prefixes of its addresses (modulo `2^64`).
pub proof fn lemma_registration_adds_prefixes(m: Map<u64, i32>, a: u64)
    requires
        m.dom().finite(),
    ensures
        prefixes(m.dom()).finite(),
        prefixes(registered(m, a).dom()).len() == prefixes(m.dom()).len() + nodes_needed(m, a),
{
    let s = m.dom();
    lemma_prefixes_finite(s);
    let l: nat = if s.is_empty() {
        0
    } else {
        lemma_longest_exists(m, a);
        choose|k: nat| is_longest_share(m, a, k)
    };
    assert(nodes_needed(m, a) == 8 - l) by {
        if !s.is_empty() {
            let b = choose|b: u64| #[trigger] m.contains_key(b) && shared_bytes(a, b) == l;
            lemma_common_len_bound(to_path(a), to_path(b));
        }
    }
    if !s.is_empty() {
        let b = choose|b: u64| #[trigger] m.contains_key(b) && shared_bytes(a, b) == l;
        lemma_common_len_bound(to_path(a), to_path(b));
    }
    let fresh = path_prefixes(a, l);
    let added = fresh.to_set();
    assert(fresh.no_duplicates()) by {
        assert forall|i: int, j: int| 0 <= i < fresh.len() && 0 <= j < fresh.len() && i != j implies fresh[i]
            != fresh[j] by {
            assert(fresh[i].len() == l + 1 + i);
            assert(fresh[j].len() == l + 1 + j);
        }
    }
    fresh.unique_seq_to_set();
    assert(registered(m, a).dom() =~= s.insert(a));
    assert(prefixes(s.insert(a)) =~= prefixes(s) + added) by {
        assert forall|p: Seq<u8>| #[trigger] prefixes(s.insert(a)).contains(p) implies (prefixes(s)
            + added).contains(p) by {
            let (b, k) = choose|b: u64, k: int|
                #![trigger s.insert(a).contains(b), to_path(b).take(k)]
                s.insert(a).contains(b) && 1 <= k <= 8 && p == to_path(b).take(k);
            if b == a && !s.contains(a) {
                if k <= l {
                    let c = choose|c: u64| #[trigger] m.contains_key(c) && shared_bytes(a, c) == l;
                    lemma_common_take(to_path(a), to_path(c), k);
                    assert(s.contains(c) && p == to_path(c).take(k));
                } else {
                    assert(fresh[k - l - 1] == p);
                }
            } else if b == a {
                assert(s.contains(a));
            } else {
                assert(s.contains(b));
            }
        }
        assert forall|p: Seq<u8>| #[trigger] (prefixes(s) + added).contains(p) implies prefixes(
            s.insert(a),
        ).contains(p) by {
            if added.contains(p) {
                let j = choose|j: int| 0 <= j < fresh.len() && fresh[j] == p;
                assert(s.insert(a).contains(a) && p == to_path(a).take(l + 1 + j));
            } else {
                let (b, k) = choose|b: u64, k: int|
                    #![trigger s.contains(b), to_path(b).take(k)]
                    s.contains(b) && 1 <= k <= 8 && p == to_path(b).take(k);
                assert(s.insert(a).contains(b));
            }
        }
    }
    assert(prefixes(s).disjoint(added)) by {
        assert forall|p: Seq<u8>| !(prefixes(s).contains(p) && #[trigger] added.contains(p)) by {
            if prefixes(s).contains(p) && added.contains(p) {
                let j = choose|j: int| 0 <= j < fresh.len() && fresh[j] == p;
                let k = l + 1 + j;
                let (b, k2) = choose|b: u64, k2: int|
                    #![trigger s.contains(b), to_path(b).take(k2)]
                    s.contains(b) && 1 <= k2 <= 8 && p == to_path(b).take(k2);
                assert(fresh[j].len() == k);
                assert(to_path(b).take(k2).len() == k2);
                assert(k2 == k);
                lemma_common_take(to_path(a), to_path(b), k);
                assert(m.contains_key(b));
            }
        }
    }
    assert(added.finite());
    vstd::set_lib::lemma_set_disjoint_lens(prefixes(s), added);
}

/// Over the leaves of a tree holding addresses, `k` is the longest
/// prefix `a` shares with a listed address exactly when it is so over the
/// vote map: a registration creates `8 - k` nodes (see `nodes_needed`).
pub proof fn lemma_longest_share_listed(t: &AddrTree, a: u64, k: nat)
    requires
        t.wf(),
        t.idle_votes() is None,
    ensures
        is_longest_share(t@, a, k) <==> {
            let l = as_pairs(t.leaf_list());
            &&& exists|i: int| 0 <= i < l.len() && #[trigger] shared_bytes(a, l[i].0) == k
            &&& forall|i: int| 0 <= i < l.len() ==> #[trigger] shared_bytes(a, l[i].0) <= k
        },
        is_longest_share(t@, a, k) ==> nodes_needed(t@, a) == 8 - k,
{
    t.lemma_listed();
    let l = as_pairs(t.leaf_list());
    if is_longest_share(t@, a, k) {
        let b = choose|b: u64| #[trigger] t@.contains_key(b) && shared_bytes(a, b) == k;
        let i = choose|i: int| 0 <= i < l.len() && l[i].0 == b;
        assert(shared_bytes(a, l[i].0) == k);
        assert forall|i: int| 0 <= i < l.len() implies #[trigger] shared_bytes(a, l[i].0) <= k by {
            assert(t@.contains_key(l[i].0));
        }
        assert(!t@.dom().is_empty()) by {
            assert(t@.dom().contains(b));
        }
        let k2 = choose|k2: nat| is_longest_share(t@, a, k2);
        let b2 = choose|b2: u64| #[trigger] t@.contains_key(b2) && shared_bytes(a, b2) == k2;
        assert(k2 == k);
        lemma_common_len_bound(to_path(a), to_path(b));
    }
    if (exists|i: int| 0 <= i < l.len() && #[trigger] shared_bytes(a, l[i].0) == k) && (forall|i: int|
        0 <= i < l.len() ==> #[trigger] shared_bytes(a, l[i].0) <= k) {
        let i = choose|i: int| 0 <= i < l.len() && #[trigger] shared_bytes(a, l[i].0) == k;
        assert(t@.contains_key(l[i].0));
        assert forall|b: u64| #[trigger] t@.contains_key(b) implies shared_bytes(a, b) <= k by {
            let j = choose|j: int| 0 <= j < l.len() && l[j].0 == b;
            assert(shared_bytes(a, l[j].0) <= k);
        }
    }
}

impl Default for AddrTree {
    /// An empty tree (see `AddrTree::new`).
    fn default() -> (t: AddrTree)
        ensures
            t.wf(),
            t@ == Map::<u64, i32>::empty(),
            t.idle_votes() == Some(1i32),
            t.spec_nb_nodes() == 0,
    {
        AddrTree::new()
    }
}

} // verus!
