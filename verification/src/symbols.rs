//! Parser for an external symbol file of known function addresses.
//!
//! Each useful line holds `0x<hex>` followed by whitespace and a name
//! (anything before the `0x` is skipped). Every such address becomes a
//! `Function` POI.

use vstd::prelude::*;
use crate::poi::{PoiList, PoiType, Poi, distinct_offsets, lemma_unique_added_distinct, plain_poi, unique_added};
use crate::text::{chars_of, char_is_ws, is_ws};
use crate::numbers::{parse_radix, parse_radix_chars};

verus! {

/// Loads function addresses from a symbol file.
pub struct SymbolFile;






/// `u64::from_str_radix(s, 16)`, as an option (see `parse_radix`).
pub open spec fn parse_hex(s: Seq<char>) -> Option<u64> {
    parse_radix(s, 16)
}

/// First position `k >= i` where `a` is directly followed by `b`.
pub open spec fn find_pair(s: Seq<char>, a: char, b: char, i: int) -> Option<int>
    decreases s.len() - i,
{
    if i < 0 || i + 1 >= s.len() {
        None
    } else if s[i] == a && s[i + 1] == b {
        Some(i)
    } else {
        find_pair(s, a, b, i + 1)
    }
}

/// First position `k >= i` holding white space.
pub open spec fn find_ws(s: Seq<char>, i: int) -> Option<int>
    decreases s.len() - i,
{
    if i < 0 || i >= s.len() {
        None
    } else if is_ws(s[i]) {
        Some(i)
    } else {
        find_ws(s, i + 1)
    }
}

/// Whether some character of `s` is not white space.
pub open spec fn has_name(s: Seq<char>) -> bool {
    exists|j: int| 0 <= j < s.len() && !is_ws(#[trigger] s[j])
}

/// The address on a symbol-file line: the hexadecimal token after the first
/// `0x` (or, when there is none, the first `0X`), ended by white space and
/// followed by a non-blank name.
pub open spec fn line_address(line: Seq<char>) -> Option<u64> {
    let start = match find_pair(line, '0', 'x', 0) {
        Some(k) => Some(k),
        None => find_pair(line, '0', 'X', 0),
    };
    match start {
        None => None,
        Some(k) => {
            let rest = line.subrange(k + 2, line.len() as int);
            match find_ws(rest, 0) {
                None => None,
                Some(e) => {
                    let hex = rest.subrange(0, e);
                    let tail = rest.subrange(e, rest.len() as int);
                    if hex.len() == 0 || !has_name(tail) {
                        None
                    } else {
                        parse_hex(hex)
                    }
                },
            }
        },
    }
}

/// First position `k >= i` holding `c`, or the length.
pub open spec fn find_char(s: Seq<char>, c: char, i: int) -> int
    decreases s.len() - i,
{
    if i < 0 || i >= s.len() {
        s.len() as int
    } else if s[i] == c {
        i
    } else {
        find_char(s, c, i + 1)
    }
}

/// The position found by `find_char` is at least the start.
pub proof fn lemma_find_char_range(s: Seq<char>, c: char, i: int)
    requires
        0 <= i <= s.len(),
    ensures
        i <= find_char(s, c, i) <= s.len(),
    decreases s.len() - i,
{
    if i < s.len() && s[i] != c {
        lemma_find_char_range(s, c, i + 1);
    }
}

/// A pair found by `find_pair` lies within the sequence.
proof fn lemma_find_pair_range(s: Seq<char>, a: char, b: char, i: int)
    requires
        0 <= i,
    ensures
        find_pair(s, a, b, i) is Some ==> i <= find_pair(s, a, b, i)->0 && find_pair(s, a, b, i)->0 + 1
            < s.len(),
    decreases s.len() - i,
{
    if i + 1 < s.len() && !(s[i] == a && s[i + 1] == b) {
        lemma_find_pair_range(s, a, b, i + 1);
    }
}

/// The lines of `text` from position `i`: each ends with a `'\n'` (not part
/// of the line, nor a `'\r'` right before it); text after the last `'\n'`
/// is not a line.
pub open spec fn lines_from(text: Seq<char>, i: int) -> Seq<Seq<char>>
    decreases text.len() - i,
{
    if i < 0 || i >= text.len() {
        seq![]
    } else {
        proof {
            lemma_find_char_range(text, '\n', i);
        }
        let j = find_char(text, '\n', i);
        let raw = text.subrange(i, j);
        let line = if j < text.len() && raw.len() > 0 && raw.last() == '\r' {
            raw.drop_last()
        } else {
            raw
        };
        if j < text.len() {
            seq![line] + lines_from(text, j + 1)
        } else {
            seq![]
        }
    }
}

/// Whether some POI of `items` sits at `offset`.
pub open spec fn has_offset(items: Seq<Poi>, offset: u64) -> bool {
    exists|i: int| 0 <= i < items.len() && #[trigger] items[i].offset == offset
}

/// The list after adding the functions named by `lines`, each unless a POI
/// already sits at its address, with the number of functions added.
pub open spec fn add_symbols(items: Seq<Poi>, lines: Seq<Seq<char>>) -> (Seq<Poi>, int)
    decreases lines.len(),
{
    if lines.len() == 0 {
        (items, 0)
    } else {
        match line_address(lines[0]) {
            Some(a) => if has_offset(items, a) {
                add_symbols(items, lines.drop_first())
            } else {
                let r = add_symbols(items.push(plain_poi(a, 1, PoiType::Function)), lines.drop_first());
                (r.0, r.1 + 1)
            },
            None => add_symbols(items, lines.drop_first()),
        }
    }
}





/// First position `k >= i` where `a` is directly followed by `b`.
fn find_pair_exec(s: &[char], a: char, b: char) -> (r: Option<usize>)
    ensures
        r matches Some(k) ==> find_pair(s@, a, b, 0) == Some(k as int),
        r is None ==> find_pair(s@, a, b, 0) is None,
{
    let mut i: usize = 0;
    while i < s.len() && i + 1 < s.len()
        invariant
            i <= s@.len(),
            find_pair(s@, a, b, 0) == find_pair(s@, a, b, i as int),
        decreases s@.len() - i,
    {
        if s[i] == a && s[i + 1] == b {
            return Some(i);
        }
        i = i + 1;
    }
    None
}

/// The address on one symbol-file line, if the line is well formed.
fn parse_line(line: &[char]) -> (r: Option<u64>)
    ensures
        r == line_address(line@),
{
    let n = line.len();
    let lower = find_pair_exec(line, '0', 'x');
    let start = if lower.is_some() {
        lower
    } else {
        find_pair_exec(line, '0', 'X')
    };
    let k = match start {
        Some(k) => k,
        None => return None,
    };
    proof {
        lemma_find_pair_range(line@, '0', 'x', 0);
        lemma_find_pair_range(line@, '0', 'X', 0);
        if lower.is_some() {
            assert(find_pair(line@, '0', 'x', 0) == Some(k as int));
        } else {
            assert(find_pair(line@, '0', 'x', 0) is None);
            assert(find_pair(line@, '0', 'X', 0) == Some(k as int));
        }
        assert(k + 1 < line@.len());
    }
    let ghost rest = line@.subrange(k + 2, line@.len() as int);
    let mut e = k + 2;
    while e < line.len() && !char_is_ws(line[e])
        invariant
            k + 2 <= e <= line@.len(),
            rest == line@.subrange(k + 2, line@.len() as int),
            find_ws(rest, 0) == find_ws(rest, e - (k + 2)),
        decreases line@.len() - e,
    {
        proof {
            assert(rest[e - (k + 2)] == line@[e as int]);
        }
        e = e + 1;
    }
    if e >= line.len() {
        return None;
    }
    proof {
        assert(rest[e - (k + 2)] == line@[e as int]);
        assert(find_ws(rest, 0) == Some(e - (k + 2)));
    }
    let ghost tail = rest.subrange(e - (k + 2), rest.len() as int);
    let mut named = false;
    let mut j = e;
    while j < line.len()
        invariant
            e <= j <= line@.len(),
            tail == line@.subrange(e as int, line@.len() as int),
            named == exists|t: int| 0 <= t < j - e && !is_ws(#[trigger] tail[t]),
        decreases line@.len() - j,
    {
        if !char_is_ws(line[j]) {
            named = true;
            proof {
                assert(tail[j - e] == line@[j as int]);
            }
        } else {
            proof {
                assert(tail[j - e] == line@[j as int]);
            }
        }
        j = j + 1;
    }
    proof {
        assert(tail =~= line@.subrange(e as int, line@.len() as int));
    }
    if e == k + 2 || !named {
        return None;
    }
    let mut hex: Vec<char> = Vec::new();
    let mut t = k + 2;
    while t < e
        invariant
            k + 2 <= t <= e,
            e < line@.len(),
            hex@ == line@.subrange(k + 2, t as int),
        decreases e - t,
    {
        hex.push(line[t]);
        t = t + 1;
        proof {
            assert(hex@ =~= line@.subrange(k + 2, t as int));
        }
    }
    proof {
        assert(hex@ =~= rest.subrange(0, e - (k + 2)));
        let start = match find_pair(line@, '0', 'x', 0) {
            Some(k) => Some(k),
            None => find_pair(line@, '0', 'X', 0),
        };
        assert(start == Some(k as int));
        assert(exists|t: int| 0 <= t < tail.len() && !is_ws(#[trigger] tail[t]));
        assert(line@.subrange(k + 2, line@.len() as int) == rest);
        assert(find_ws(rest, 0) == Some(e - (k + 2)));
        let hx = rest.subrange(0, e - (k + 2));
        let tl = rest.subrange(e - (k + 2), rest.len() as int);
        assert(tl == tail);
        assert(hx.len() > 0);
        assert(has_name(tl));
        assert(line_address(line@) == parse_hex(rest.subrange(0, e - (k + 2))));
    }
    parse_radix_chars(hex.as_slice(), 16)
}

impl SymbolFile {
    /// Parse symbol-file `text`, adding a `Function` POI (count 1) for the
    /// address of every well-formed line, unless a POI already sits there.
    /// Returns the number of POIs added.
    pub fn parse_into(text: &str, list: &mut PoiList) -> (added: usize)
        ensures
            final(list)@ == add_symbols(old(list)@, lines_from(text@, 0)).0,
            added == add_symbols(old(list)@, lines_from(text@, 0)).1,
    {
        let cs = chars_of(text);
        let n = cs.len();
        let mut added: usize = 0;
        let mut i: usize = 0;
        while i < n
            invariant
                n == cs@.len(),
                cs@ == text@,
                i <= n,
                added <= i,
                add_symbols(old(list)@, lines_from(text@, 0)).0 == add_symbols(list@, lines_from(text@, i as int)).0,
                add_symbols(old(list)@, lines_from(text@, 0)).1 == added + add_symbols(list@, lines_from(text@, i as int)).1,
            decreases n - i,
        {
            let mut j = i;
            while j < n && cs[j] != '\n'
                invariant
                    i <= j <= n,
                    n == cs@.len(),
                    find_char(cs@, '\n', i as int) == find_char(cs@, '\n', j as int),
                decreases n - j,
            {
                j = j + 1;
            }
            if j >= n {
                proof {
                    assert(lines_from(text@, i as int) == Seq::<Seq<char>>::empty());
                    assert(lines_from(text@, n as int) == Seq::<Seq<char>>::empty());
                }
                i = n;
            } else {
                let mut end = j;
                if j > i && cs[j - 1] == '\r' {
                    end = j - 1;
                }
                let mut line: Vec<char> = Vec::new();
                let mut t = i;
                while t < end
                    invariant
                        i <= t <= end,
                        end <= n,
                        n == cs@.len(),
                        line@ == cs@.subrange(i as int, t as int),
                    decreases end - t,
                {
                    line.push(cs[t]);
                    t = t + 1;
                    proof {
                        assert(line@ =~= cs@.subrange(i as int, t as int));
                    }
                }
                proof {
                    let raw = cs@.subrange(i as int, j as int);
                    if j > i && cs@[j - 1] == '\r' {
                        assert(raw.drop_last() =~= line@);
                    } else {
                        assert(raw =~= line@);
                    }
                    assert(lines_from(text@, i as int) == seq![line@] + lines_from(text@, j + 1));
                    assert((seq![line@] + lines_from(text@, j + 1)).drop_first() =~= lines_from(text@, j + 1));
                }
                match parse_line(line.as_slice()) {
                    Some(address) => {
                        if list.add_unique(address, 1, PoiType::Function) {
                            added = added + 1;
                        }
                    },
                    None => {},
                }
                i = j + 1;
            }
        }
        added
    }
}


/// Parsing a symbol file never puts two POIs at one address: a list
/// without repeated offsets keeps none.
pub proof fn lemma_add_symbols_distinct(items: Seq<Poi>, lines: Seq<Seq<char>>)
    requires
        distinct_offsets(items),
    ensures
        distinct_offsets(add_symbols(items, lines).0),
    decreases lines.len(),
{
    if lines.len() > 0 {
        match line_address(lines[0]) {
            Some(a) => if has_offset(items, a) {
                lemma_add_symbols_distinct(items, lines.drop_first());
            } else {
                let p = plain_poi(a, 1, PoiType::Function);
                lemma_unique_added_distinct(items, p);
                assert(unique_added(items, p) == items.push(p));
                lemma_add_symbols_distinct(items.push(p), lines.drop_first());
            },
            None => lemma_add_symbols_distinct(items, lines.drop_first()),
        }
    }
}

} // verus!
