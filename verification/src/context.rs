//! The records that context and chaining subtables are read through:
//! sequence lookup records, arrays of glyphs or classes, lists of coverage
//! tables, rule sets found by index, and the match positions kept in step
//! with the edits that nested lookups make.

use vstd::prelude::*;
use crate::ot::{spec_u16, read_u16_be, spec_offset_coverage, offset_coverage, spec_coverage_index, ClassDef, Coverage};

verus! {

/// The most glyphs that a context can match.
pub const MAX_CONTEXT_LENGTH: usize = 64;

/// A lookup to apply at a position of a matched context.
#[derive(Clone, Copy, PartialEq, Eq, Structural, Debug)]
pub struct SequenceLookupRecord {
    pub sequence_index: u16,
    pub lookup_list_index: u16,
}

/// The sequence lookup records of a rule.
pub struct LookupRecords<'a> {
    pub data: &'a [u8],
    pub count: u16,
}

impl<'a> LookupRecords<'a> {
    /// Record `i`, if the rule has it.
    pub fn get(&self, i: u16) -> (r: Option<SequenceLookupRecord>)
        ensures
            r == if i < self.count {
                match (spec_u16(self.data@, i * 4), spec_u16(self.data@, i * 4 + 2)) {
                    (Some(s), Some(l)) => Some(SequenceLookupRecord { sequence_index: s, lookup_list_index: l }),
                    _ => None,
                }
            } else {
                None
            },
    {
        if i >= self.count {
            return None;
        }
        let at: usize = i as usize * 4;
        match (read_u16_be(self.data, at), read_u16_be(self.data, at + 2)) {
            (Some(s), Some(l)) => Some(SequenceLookupRecord { sequence_index: s, lookup_list_index: l }),
            _ => None,
        }
    }
}

/// An array of 16-bit values: glyphs or classes of a rule.
#[derive(Clone, Copy)]
pub struct U16Array<'a> {
    pub data: &'a [u8],
    pub len: u16,
}

impl<'a> U16Array<'a> {
    /// Value `i`, if the array has it.
    pub fn get(&self, i: u16) -> (r: Option<u16>)
        ensures
            r == if i < self.len {
                spec_u16(self.data@, i * 2)
            } else {
                None
            },
    {
        if i >= self.len {
            return None;
        }
        read_u16_be(self.data, i as usize * 2)
    }
}

/// A list of offsets to coverage tables, as a format-3 context rule holds
/// them.
pub struct CoverageList<'a> {
    pub data: &'a [u8],
    pub at: usize,
    pub len: u16,
}

impl<'a> CoverageList<'a> {
    /// Coverage table `i`, if the list has it and it can be read.
    pub fn get(&self, i: u16) -> (r: Option<Coverage<'a>>)
        requires
            self.at + 2 * 0xFFFF + 2 <= usize::MAX,
        ensures
            match (if i < self.len {
                spec_offset_coverage(self.data@, self.at + i * 2)
            } else {
                None
            }) {
                None => r is None,
                Some(c) => r matches Some(x) && x.bytes() == c,
            },
    {
        if i >= self.len {
            return None;
        }
        offset_coverage(self.data, self.at + i as usize * 2)
    }

    /// Whether coverage table `i` covers `glyph`.
    pub fn contains(&self, i: u16, glyph: u16) -> (r: bool)
        requires
            self.at + 2 * 0xFFFF + 2 <= usize::MAX,
        ensures
            r == (i < self.len && match spec_offset_coverage(self.data@, self.at + i * 2) {
                Some(c) => spec_coverage_index(c, glyph) is Some,
                None => false,
            }),
    {
        match self.get(i) {
            Some(c) => c.contains(glyph),
            None => false,
        }
    }
}

/// The class definition at the offset stored at `at`: all class zero for
/// a null offset, `None` where the offset cannot be read or leaves less
/// than a header.
pub fn offset_class_def(subtable: &[u8], at: usize) -> (r: Option<ClassDef<'_>>)
    ensures
        match spec_u16(subtable@, at as int) {
            None => r is None,
            Some(off) => if off == 0 {
                r matches Some(c) && c.bytes() == Seq::<u8>::empty()
            } else if off + 4 > subtable@.len() {
                r is None
            } else {
                r matches Some(c) && c.bytes() == subtable@.subrange(off as int, subtable@.len() as int)
            },
        },
{
    let off: u16 = match read_u16_be(subtable, at) {
        Some(o) => o,
        None => return None,
    };
    if off == 0 {
        return Some(ClassDef::all_class_zero());
    }
    if off as usize > subtable.len() {
        return None;
    }
    let n: usize = subtable.len();
    ClassDef::new(&subtable[off as usize..n])
}

/// The data of set `index` of a list of `count_at`'s count of offsets
/// starting at `offsets_at`: `None` past the count, for a null offset, or
/// where the offset lies beyond the data.
pub open spec fn spec_indexed_set(d: Seq<u8>, index: u16, count_at: int, offsets_at: int) -> Option<Seq<u8>> {
    match spec_u16(d, count_at) {
        None => None,
        Some(count) => if index >= count {
            None
        } else {
            match spec_u16(d, offsets_at + index * 2) {
                None => None,
                Some(off) => if off == 0 || off > d.len() {
                    None
                } else {
                    Some(d.subrange(off as int, d.len() as int))
                },
            }
        },
    }
}

/// The set of index `index` in a list of offsets.
pub fn indexed_set(subtable: &[u8], index: u16, count_at: usize, offsets_at: usize) -> (r: Option<&[u8]>)
    requires
        offsets_at + 2 * 0xFFFF + 2 <= usize::MAX,
    ensures
        match spec_indexed_set(subtable@, index, count_at as int, offsets_at as int) {
            None => r is None,
            Some(t) => r matches Some(x) && x@ == t,
        },
{
    let count: u16 = match read_u16_be(subtable, count_at) {
        Some(c) => c,
        None => return None,
    };
    if index >= count {
        return None;
    }
    let off: u16 = match read_u16_be(subtable, offsets_at + index as usize * 2) {
        Some(o) => o,
        None => return None,
    };
    if off == 0 || off as usize > subtable.len() {
        return None;
    }
    let n: usize = subtable.len();
    Some(&subtable[off as usize..n])
}

/// The rule set of a format-1 context subtable for `glyph`: the set at the
/// glyph's coverage index.
pub fn coverage_indexed_set(subtable: &[u8], glyph: u16) -> (r: Option<&[u8]>)
    ensures
        match spec_offset_coverage(subtable@, 2) {
            None => r is None,
            Some(c) => match spec_coverage_index(c, glyph) {
                None => r is None,
                Some(index) => match spec_indexed_set(subtable@, index, 4, 6) {
                    None => r is None,
                    Some(t) => r matches Some(x) && x@ == t,
                },
            },
        },
{
    let coverage = match offset_coverage(subtable, 2) {
        Some(c) => c,
        None => return None,
    };
    let index: u16 = match coverage.index_of(glyph) {
        Some(i) => i,
        None => return None,
    };
    indexed_set(subtable, index, 4, 6)
}

/// The match positions after glyph `at` is removed: its own position goes,
/// the positions after it move down by one.
pub open spec fn drop_position(ps: Seq<u32>, at: u32) -> Seq<u32>
    decreases ps.len(),
{
    if ps.len() == 0 {
        Seq::empty()
    } else {
        let rest = drop_position(ps.drop_last(), at);
        let p = ps.last();
        if p == at {
            rest
        } else {
            rest.push(
                if p > at {
                    (p - 1) as u32
                } else {
                    p
                },
            )
        }
    }
}

/// The match positions after `n` glyphs are removed at `at`.
pub open spec fn drop_positions(ps: Seq<u32>, at: u32, n: nat) -> Seq<u32>
    decreases n,
{
    if n == 0 {
        ps
    } else {
        drop_position(drop_positions(ps, at, (n - 1) as nat), at)
    }
}

/// The match positions after `delta` glyphs are inserted at `at`: the
/// positions from `at` on move up (in 32 bits).
pub open spec fn shift_positions(ps: Seq<u32>, at: u32, delta: int) -> Seq<u32> {
    ps.map_values(|p: u32| if p >= at { (p + delta) as u32 } else { p })
}

/// The match positions after the edits, each a glyph index and a change
/// in the number of glyphs there, in order.
pub open spec fn replayed(ps: Seq<u32>, edits: Seq<(usize, isize)>) -> Seq<u32>
    decreases edits.len(),
{
    if edits.len() == 0 {
        ps
    } else {
        let before = replayed(ps, edits.drop_last());
        let (at, delta) = edits.last();
        if delta < 0 {
            drop_positions(before, at as u32, (-delta) as nat)
        } else {
            shift_positions(before, at as u32, delta as int)
        }
    }
}

proof fn lemma_drop_position_len(ps: Seq<u32>, at: u32)
    ensures
        drop_position(ps, at).len() <= ps.len(),
    decreases ps.len(),
{
    if ps.len() > 0 {
        lemma_drop_position_len(ps.drop_last(), at);
    }
}

/// Removes glyph `at` from the first `live` match positions, in place;
/// gives how many are left.
fn drop_position_in_place(mp: &mut [u32; MAX_CONTEXT_LENGTH], live: usize, at: u32) -> (w: usize)
    requires
        live <= MAX_CONTEXT_LENGTH,
    ensures
        w <= live,
        final(mp)@.take(w as int) == drop_position(old(mp)@.take(live as int), at),
{
    let ghost src = mp@;
    let mut w: usize = 0;
    let mut r: usize = 0;
    while r < live
        invariant
            w <= r <= live <= MAX_CONTEXT_LENGTH,
            mp@.len() == MAX_CONTEXT_LENGTH,
            src.len() == MAX_CONTEXT_LENGTH,
            mp@.take(w as int) == drop_position(src.take(r as int), at),
            forall|q: int| r <= q < MAX_CONTEXT_LENGTH ==> #[trigger] mp@[q] == src[q],
        decreases live - r,
    {
        let p: u32 = mp[r];
        proof {
            assert(src.take(r + 1).drop_last() =~= src.take(r as int));
            assert(src.take(r + 1).last() == p);
            lemma_drop_position_len(src.take(r as int), at);
        }
        if p != at {
            let v: u32 = if p > at {
                p - 1
            } else {
                p
            };
            let ghost prev = mp@;
            mp[w] = v;
            assert(mp@.take(w + 1) =~= prev.take(w as int).push(v));
            w = w + 1;
        }
        r = r + 1;
    }
    w
}

/// Brings the first `count` match positions of a context in step with the
/// edits that a nested lookup made to the buffer, in order; gives how many
/// positions are left.
pub fn replay_edits(match_positions: &mut [u32; MAX_CONTEXT_LENGTH], count: usize, edits: &[(usize, isize)]) -> (live: usize)
    requires
        count <= MAX_CONTEXT_LENGTH,
        forall|k: int| 0 <= k < edits@.len() ==> (#[trigger] edits@[k]).1 != isize::MIN,
    ensures
        final(match_positions)@.take(live as int) == replayed(old(match_positions)@.take(count as int), edits@),
        live <= MAX_CONTEXT_LENGTH,
{
    let ghost start = match_positions@.take(count as int);
    let mut live: usize = count;
    let mut e: usize = 0;
    while e < edits.len()
        invariant
            e <= edits@.len(),
            live <= MAX_CONTEXT_LENGTH,
            match_positions@.len() == MAX_CONTEXT_LENGTH,
            forall|k: int| 0 <= k < edits@.len() ==> (#[trigger] edits@[k]).1 != isize::MIN,
            match_positions@.take(live as int) == replayed(start, edits@.take(e as int)),
        decreases edits@.len() - e,
    {
        let (at_raw, delta) = edits[e];
        let at: u32 = at_raw as u32;
        let ghost before = replayed(start, edits@.take(e as int));
        proof {
            assert(edits@.take(e + 1).drop_last() =~= edits@.take(e as int));
            assert(edits@.take(e + 1).last() == (at_raw, delta));
        }
        if delta < 0 {
            let n: isize = -delta;
            let mut t: isize = 0;
            while t < n
                invariant
                    0 <= t <= n,
                    n == -delta,
                    live <= MAX_CONTEXT_LENGTH,
                    match_positions@.len() == MAX_CONTEXT_LENGTH,
                    match_positions@.take(live as int) == drop_positions(before, at, t as nat),
                decreases n - t,
            {
                live = drop_position_in_place(match_positions, live, at);
                t = t + 1;
            }
        } else {
            let ghost prev = match_positions@;
            let mut r: usize = 0;
            while r < live
                invariant
                    r <= live <= MAX_CONTEXT_LENGTH,
                    match_positions@.len() == MAX_CONTEXT_LENGTH,
                    delta >= 0,
                    forall|q: int| 0 <= q < r ==> #[trigger] match_positions@[q] == (if prev[q] >= at {
                        (prev[q] + delta) as u32
                    } else {
                        prev[q]
                    }),
                    forall|q: int| r <= q < MAX_CONTEXT_LENGTH ==> #[trigger] match_positions@[q] == prev[q],
                decreases live - r,
            {
                let p: u32 = match_positions[r];
                if p >= at {
                    match_positions[r] = (p as i128 + delta as i128) as u32;
                }
                r = r + 1;
            }
            assert(match_positions@.take(live as int) =~= shift_positions(prev.take(live as int), at, delta as int));
        }
        e = e + 1;
    }
    assert(edits@.take(edits@.len() as int) =~= edits@);
    live
}

} // verus!
