//! Reading the OpenType layout tables: coverage tables, class definitions,
//! the glyph definition table, lookups, and the script, language and
//! feature lists of GSUB and GPOS. Every read is bounds-checked; a table
//! that runs short reads as absent.

use vstd::prelude::*;
use crate::digest::{Digest, slot, in_span, shift_of, lemma_slot_bound, lemma_range_span_holds_glyph};
use crate::tag::{Tag, tag_value};

verus! {

/// The big-endian `u16` at `at`, if the data holds it.
pub open spec fn spec_u16(d: Seq<u8>, at: int) -> Option<u16> {
    if 0 <= at && at + 2 <= d.len() {
        Some((d[at] as int * 256 + d[at + 1] as int) as u16)
    } else {
        None
    }
}

/// The big-endian `u32` at `at`, if the data holds it.
pub open spec fn spec_u32(d: Seq<u8>, at: int) -> Option<u32> {
    if 0 <= at && at + 4 <= d.len() {
        Some(
            (d[at] as int * 0x100_0000 + d[at + 1] as int * 0x1_0000 + d[at + 2] as int * 0x100
                + d[at + 3] as int) as u32,
        )
    } else {
        None
    }
}

pub fn read_u16_be(d: &[u8], at: usize) -> (r: Option<u16>)
    ensures
        r == spec_u16(d@, at as int),
{
    if at > d.len() || d.len() - at < 2 {
        return None;
    }
    let hi: u16 = d[at] as u16;
    let lo: u16 = d[at + 1] as u16;
    Some(hi * 256 + lo)
}

pub fn read_u32_be(d: &[u8], at: usize) -> (r: Option<u32>)
    ensures
        r == spec_u32(d@, at as int),
{
    if at > d.len() || d.len() - at < 4 {
        return None;
    }
    let b0: u32 = d[at] as u32;
    let b1: u32 = d[at + 1] as u32;
    let b2: u32 = d[at + 2] as u32;
    let b3: u32 = d[at + 3] as u32;
    Some(b0 * 0x100_0000 + b1 * 0x1_0000 + b2 * 0x100 + b3)
}

/// The tail of `d` from `off`, if `off` lies within it.
fn tail_from(d: &[u8], off: usize) -> (r: Option<&[u8]>)
    ensures
        off <= d@.len() ==> (r matches Some(t) && t@ == d@.subrange(off as int, d@.len() as int)),
        off > d@.len() ==> r is None,
{
    if off > d.len() {
        None
    } else {
        Some(&d[off..d.len()])
    }
}

/// The coverage index of `glyph` in the glyph records of a format-1
/// coverage table from record `i` on.
pub open spec fn spec_cov1_find(d: Seq<u8>, glyph: u16, count: int, i: int) -> Option<u16>
    decreases count - i,
{
    if i < 0 || i >= count {
        None
    } else {
        match spec_u16(d, 4 + i * 2) {
            None => None,
            Some(g) => if g == glyph {
                Some(i as u16)
            } else {
                spec_cov1_find(d, glyph, count, i + 1)
            },
        }
    }
}

/// The coverage index of `glyph` in the range records of a format-2
/// coverage table from record `i` on.
pub open spec fn spec_cov2_find(d: Seq<u8>, glyph: u16, count: int, i: int) -> Option<u16>
    decreases count - i,
{
    if i < 0 || i >= count {
        None
    } else {
        match (spec_u16(d, 4 + i * 6), spec_u16(d, 4 + i * 6 + 2), spec_u16(d, 4 + i * 6 + 4)) {
            (Some(start), Some(end), Some(first)) => if start <= glyph <= end {
                if first + (glyph - start) <= 0xFFFF {
                    Some((first + (glyph - start)) as u16)
                } else {
                    None
                }
            } else {
                spec_cov2_find(d, glyph, count, i + 1)
            },
            _ => None,
        }
    }
}

/// The coverage index of `glyph`: its position among the glyphs the table
/// covers, `None` when it is not covered or the table is malformed.
pub open spec fn spec_coverage_index(d: Seq<u8>, glyph: u16) -> Option<u16> {
    match (spec_u16(d, 0), spec_u16(d, 2)) {
        (Some(1), Some(count)) => spec_cov1_find(d, glyph, count as int, 0),
        (Some(2), Some(count)) => spec_cov2_find(d, glyph, count as int, 0),
        _ => None,
    }
}

/// Finds `glyph` in a coverage table.
pub fn coverage_index(d: &[u8], glyph: u16) -> (r: Option<u16>)
    ensures
        r == spec_coverage_index(d@, glyph),
{
    let format = read_u16_be(d, 0);
    let count = read_u16_be(d, 2);
    match (format, count) {
        (Some(1), Some(count)) => {
            let n: usize = count as usize;
            let mut i: usize = 0;
            while i < n
                invariant
                    i <= n,
                    n <= 0xFFFF,
                    spec_coverage_index(d@, glyph) == spec_cov1_find(d@, glyph, n as int, i as int),
                    spec_u16(d@, 0) == Some(1u16),
                    spec_u16(d@, 2) == Some(n as u16),
                decreases n - i,
            {
                match read_u16_be(d, 4 + i * 2) {
                    None => return None,
                    Some(g) => {
                        if g == glyph {
                            return Some(i as u16);
                        }
                    },
                }
                i = i + 1;
            }
            None
        },
        (Some(2), Some(count)) => {
            let n: usize = count as usize;
            let mut i: usize = 0;
            while i < n
                invariant
                    i <= n,
                    n <= 0xFFFF,
                    spec_coverage_index(d@, glyph) == spec_cov2_find(d@, glyph, n as int, i as int),
                decreases n - i,
            {
                let rec: usize = 4 + i * 6;
                match (read_u16_be(d, rec), read_u16_be(d, rec + 2), read_u16_be(d, rec + 4)) {
                    (Some(start), Some(end), Some(first)) => {
                        if start <= glyph && glyph <= end {
                            let delta: u16 = glyph - start;
                            if first as u32 + delta as u32 <= 0xFFFF {
                                return Some(first + delta);
                            }
                            return None;
                        }
                    },
                    _ => return None,
                }
                i = i + 1;
            }
            None
        },
        _ => None,
    }
}

/// Whether the format and count of a coverage table can be read, its format
/// is one of the two defined ones, and every record the count announces
/// lies within the data.
pub open spec fn spec_cov_complete(d: Seq<u8>) -> bool {
    match (spec_u16(d, 0), spec_u16(d, 2)) {
        (Some(format), Some(count)) => (format == 1 || format == 2) && forall|i: int|
            0 <= i < count ==> #[trigger] spec_cov_record_readable(d, format, i),
        _ => false,
    }
}

/// Record `i` of a coverage table of the given format can be read: the
/// glyph of a format-1 record, the first and last glyph of a format-2
/// range.
pub open spec fn spec_cov_record_readable(d: Seq<u8>, format: u16, i: int) -> bool {
    if format == 1 {
        spec_u16(d, 4 + i * 2) is Some
    } else {
        spec_u16(d, 4 + i * 6) is Some && spec_u16(d, 6 + i * 6) is Some
    }
}

/// Whether record `i` of a coverage table sets bit `at` of digest mask `k`.
pub open spec fn spec_cov_record_hits(d: Seq<u8>, format: u16, i: int, k: int, at: int) -> bool {
    if format == 1 {
        match spec_u16(d, 4 + i * 2) {
            Some(g) => at == slot(g, k),
            None => false,
        }
    } else {
        match (spec_u16(d, 4 + i * 6), spec_u16(d, 6 + i * 6)) {
            (Some(first), Some(last)) => first <= last && in_span(
                ((first as usize) >> (shift_of(k) as usize)) as int,
                ((last as usize) >> (shift_of(k) as usize)) as int,
                at,
            ),
            _ => false,
        }
    }
}

/// Whether one of the first `n` records sets bit `at` of mask `k`.
pub open spec fn spec_cov_hits_upto(d: Seq<u8>, format: u16, n: int, k: int, at: int) -> bool
    decreases n,
{
    if n <= 0 {
        false
    } else {
        spec_cov_hits_upto(d, format, n - 1, k, at) || spec_cov_record_hits(d, format, n - 1, k, at)
    }
}

/// Whether some record of a coverage table sets bit `at` of mask `k`.
pub open spec fn spec_cov_hits(d: Seq<u8>, k: int, at: int) -> bool {
    match (spec_u16(d, 0), spec_u16(d, 2)) {
        (Some(format), Some(count)) => spec_cov_hits_upto(d, format, count as int, k, at),
        _ => false,
    }
}

/// What recording a coverage table in a digest does: a complete table adds
/// the bits of its glyphs and ranges to what was there; any other table
/// fills the digest.
pub open spec fn spec_coverage_recorded(d: Seq<u8>, before: Digest, after: Digest) -> bool {
    if spec_cov_complete(d) {
        forall|k: int, at: int|
            0 <= k < 3 && 0 <= at < 256 ==> #[trigger] after.holds(k, at) == (before.holds(k, at)
                || spec_cov_hits(d, k, at))
    } else {
        after.is_full_spec()
    }
}

/// A glyph found by a lookup of format-1 coverage sits in a record the
/// count announces.
proof fn lemma_cov1_find_record(d: Seq<u8>, glyph: u16, count: int, i: int)
    requires
        spec_cov1_find(d, glyph, count, i) is Some,
    ensures
        exists|j: int| i <= j < count && #[trigger] spec_u16(d, 4 + j * 2) == Some(glyph),
    decreases count - i,
{
    if spec_u16(d, 4 + i * 2) != Some(glyph) {
        lemma_cov1_find_record(d, glyph, count, i + 1);
    }
}

/// Range record `j` of a format-2 coverage table reads, and spans `glyph`.
pub open spec fn spec_range_has(d: Seq<u8>, j: int, glyph: u16) -> bool {
    match (spec_u16(d, 4 + j * 6), spec_u16(d, 6 + j * 6)) {
        (Some(first), Some(last)) => first <= glyph <= last,
        _ => false,
    }
}

/// A glyph found by a lookup of format-2 coverage lies in a range that the
/// count announces.
proof fn lemma_cov2_find_record(d: Seq<u8>, glyph: u16, count: int, i: int)
    requires
        spec_cov2_find(d, glyph, count, i) is Some,
    ensures
        exists|j: int| i <= j < count && #[trigger] spec_range_has(d, j, glyph),
    decreases count - i,
{
    match (spec_u16(d, 4 + i * 6), spec_u16(d, 4 + i * 6 + 2)) {
        (Some(start), Some(end)) => {
            if !(start <= glyph <= end) {
                lemma_cov2_find_record(d, glyph, count, i + 1);
            } else {
                assert(4 + i * 6 + 2 == 6 + i * 6);
                assert(spec_range_has(d, i, glyph));
            }
        },
        _ => {},
    }
}

/// The hits of the first `n` records include those of record `j < n`.
proof fn lemma_cov_hits_upto_record(d: Seq<u8>, format: u16, n: int, j: int, k: int, at: int)
    requires
        0 <= j < n,
        spec_cov_record_hits(d, format, j, k, at),
    ensures
        spec_cov_hits_upto(d, format, n, k, at),
    decreases n,
{
    if j < n - 1 {
        lemma_cov_hits_upto_record(d, format, n - 1, j, k, at);
    }
}

/// A glyph that a complete coverage table covers has its bit of every mask
/// set by one of the table's records.
proof fn lemma_cov_hit_of_covered(d: Seq<u8>, glyph: u16, k: int)
    requires
        spec_cov_complete(d),
        spec_coverage_index(d, glyph) is Some,
        0 <= k < 3,
    ensures
        spec_cov_hits(d, k, slot(glyph, k)),
{
    let format = spec_u16(d, 0).unwrap();
    let count = spec_u16(d, 2).unwrap() as int;
    if format == 1 {
        lemma_cov1_find_record(d, glyph, count, 0);
        let j = choose|j: int| 0 <= j < count && #[trigger] spec_u16(d, 4 + j * 2) == Some(glyph);
        lemma_cov_hits_upto_record(d, format, count, j, k, slot(glyph, k));
    } else {
        lemma_cov2_find_record(d, glyph, count, 0);
        let j = choose|j: int| 0 <= j < count && #[trigger] spec_range_has(d, j, glyph);
        let first = spec_u16(d, 4 + j * 6).unwrap();
        let last = spec_u16(d, 6 + j * 6).unwrap();
        lemma_range_span_holds_glyph(first, last, glyph, k);
        lemma_cov_hits_upto_record(d, format, count, j, k, slot(glyph, k));
    }
}

/// Every glyph that a coverage table covers is covered by the digest that
/// records the table: the digest has no false negatives.
pub proof fn lemma_recorded_coverage_covers(d: Seq<u8>, before: Digest, after: Digest, glyph: u16)
    requires
        spec_coverage_recorded(d, before, after),
        spec_coverage_index(d, glyph) is Some,
    ensures
        after.covers(glyph),
{
    assert forall|k: int| 0 <= k < 3 implies #[trigger] after.holds(k, slot(glyph, k)) by {
        lemma_slot_bound(glyph, k);
        if spec_cov_complete(d) {
            lemma_cov_hit_of_covered(d, glyph, k);
        }
    }
}

/// A coverage table: the set of glyphs a lookup subtable applies to, each
/// with its coverage index.
#[derive(Clone, Copy)]
pub struct Coverage<'a> {
    data: &'a [u8],
}

impl<'a> Coverage<'a> {
    pub closed spec fn bytes(&self) -> Seq<u8> {
        self.data@
    }

    /// A coverage table over `data`; anything shorter than its header is
    /// refused.
    pub fn new(data: &'a [u8]) -> (r: Option<Coverage<'a>>)
        ensures
            data@.len() < 4 ==> r is None,
            data@.len() >= 4 ==> (r matches Some(c) && c.bytes() == data@),
    {
        if data.len() < 4 {
            return None;
        }
        Some(Coverage { data })
    }

    pub fn index_of(&self, glyph: u16) -> (r: Option<u16>)
        ensures
            r == spec_coverage_index(self.bytes(), glyph),
    {
        coverage_index(self.data, glyph)
    }

    pub fn contains(&self, glyph: u16) -> (r: bool)
        ensures
            r == spec_coverage_index(self.bytes(), glyph) is Some,
    {
        self.index_of(glyph).is_some()
    }
    /// Records every glyph of the table in `digest`; a table that cannot be
    /// read to its end fills the digest, so that nothing is ruled out.
    pub fn add_to_digest(&self, digest: &mut Digest)
        ensures
            spec_coverage_recorded(self.bytes(), *old(digest), *final(digest)),
    {
        let d = self.data;
        let format: u16 = match read_u16_be(d, 0) {
            Some(f) => f,
            None => {
                *digest = Digest::full();
                return;
            },
        };
        let count: u16 = match read_u16_be(d, 2) {
            Some(c) => c,
            None => {
                *digest = Digest::full();
                return;
            },
        };
        if format != 1 && format != 2 {
            *digest = Digest::full();
            return;
        }
        let ghost start = *digest;
        let mut i: usize = 0;
        while i < count as usize
            invariant
                i <= count,
                format == 1 || format == 2,
                d@ == self.bytes(),
                spec_u16(d@, 0) == Some(format),
                spec_u16(d@, 2) == Some(count),
                forall|j: int| 0 <= j < i ==> #[trigger] spec_cov_record_readable(d@, format, j),
                forall|k: int, at: int|
                    0 <= k < 3 && 0 <= at < 256 ==> #[trigger] digest.holds(k, at) == (start.holds(
                        k,
                        at,
                    ) || spec_cov_hits_upto(d@, format, i as int, k, at)),
            decreases count - i,
        {
            let ghost here = *digest;
            if format == 1 {
                match read_u16_be(d, 4 + i * 2) {
                    Some(g) => digest.add(g),
                    None => {
                        assert(!spec_cov_record_readable(d@, format, i as int));
                        *digest = Digest::full();
                        return;
                    },
                }
            } else {
                let rec: usize = 4 + i * 6;
                match (read_u16_be(d, rec), read_u16_be(d, rec + 2)) {
                    (Some(first), Some(last)) => {
                        assert(rec + 2 == 6 + i * 6);
                        digest.add_range(first, last);
                    },
                    _ => {
                        assert(rec + 2 == 6 + i * 6);
                        assert(!spec_cov_record_readable(d@, format, i as int));
                        *digest = Digest::full();
                        return;
                    },
                }
            }
            assert(spec_cov_record_readable(d@, format, i as int));
            i = i + 1;
        }
    }
}

/// The index value that a sparse index gives to a glyph that a coverage
/// table does not cover.
pub const COVERAGE_ABSENT: u16 = 0xFFFF;

/// The most entries that a table may spell out for a sparse index.
pub const MAX_INDEX_ENTRIES: usize = 65536;

/// The glyphs `start..=end`, each with a value counted up from `first`.
pub open spec fn range_entries(start: u16, end: u16, first: int) -> Seq<(u32, u16)> {
    Seq::new((end - start + 1) as nat, |k: int| ((start + k) as u32, (first + k) as u16))
}

/// Whether the glyphs of a list of entries strictly increase.
pub open spec fn entries_increasing(e: Seq<(u32, u16)>) -> bool {
    forall|a: int, b: int| 0 <= a < b < e.len() ==> #[trigger] e[a].0 < #[trigger] e[b].0
}

/// The range record `i` of a format-2 table: start, end and value.
pub open spec fn spec_range_record(d: Seq<u8>, i: int) -> Option<(u16, u16, u16)> {
    match (spec_u16(d, 4 + i * 6), spec_u16(d, 4 + i * 6 + 2), spec_u16(d, 4 + i * 6 + 4)) {
        (Some(s), Some(e), Some(v)) => Some((s, e, v)),
        _ => None,
    }
}

/// The entries spelled out by the first `i` range records of a format-2
/// coverage table: each range's glyphs with coverage indices counted up
/// from its first index. A record that cannot be read, a range that runs
/// backwards, too many entries, or an index past `u16` give `None`.
pub open spec fn spec_cov2_entries(d: Seq<u8>, i: int) -> Option<Seq<(u32, u16)>>
    decreases i,
{
    if i <= 0 {
        Some(Seq::empty())
    } else {
        match spec_cov2_entries(d, i - 1) {
            None => None,
            Some(acc) => match spec_range_record(d, i - 1) {
                None => None,
                Some((start, end, first)) => if start > end {
                    None
                } else if acc.len() + (end - start + 1) > MAX_INDEX_ENTRIES {
                    None
                } else if first + (end - start) > 0xFFFF {
                    None
                } else {
                    Some(acc + range_entries(start, end, first as int))
                },
            },
        }
    }
}

/// The entries of a coverage table before they are checked: for format 1
/// each listed glyph with its position, for format 2 the spelled-out
/// ranges.
pub open spec fn spec_cov_raw_entries(d: Seq<u8>) -> Option<Seq<(u32, u16)>> {
    match (spec_u16(d, 0), spec_u16(d, 2)) {
        (Some(1), Some(count)) => if 4 + 2 * count > d.len() {
            None
        } else {
            Some(Seq::new(count as nat, |i: int| (spec_u16(d, 4 + 2 * i).unwrap() as u32, i as u16)))
        },
        (Some(2), Some(count)) => spec_cov2_entries(d, count as int),
        _ => None,
    }
}

/// The entries of a coverage table for a sparse index: present where the
/// table can be read, its glyphs strictly increase, and no index is the
/// absent value.
pub open spec fn spec_cov_index_entries(d: Seq<u8>) -> Option<Seq<(u32, u16)>> {
    match spec_cov_raw_entries(d) {
        None => None,
        Some(e) => if entries_increasing(e) && forall|k: int| 0 <= k < e.len() ==> (#[trigger] e[k]).1 != COVERAGE_ABSENT {
            Some(e)
        } else {
            None
        },
    }
}

proof fn lemma_cov2_entries_none(d: Seq<u8>, i: int, j: int)
    requires
        i <= j,
        spec_cov2_entries(d, i) is None,
    ensures
        spec_cov2_entries(d, j) is None,
    decreases j - i,
{
    if i < j {
        lemma_cov2_entries_none(d, i, j - 1);
    }
}

/// Checks a list of entries: glyphs strictly increasing and, where `absent`
/// is given, no value equal to it.
fn entries_checked(out: Vec<(u32, u16)>, absent: Option<u16>) -> (r: Option<Vec<(u32, u16)>>)
    ensures
        r is Some <==> (entries_increasing(out@) && (absent matches Some(a) ==> forall|k: int|
            0 <= k < out@.len() ==> (#[trigger] out@[k]).1 != a)),
        r matches Some(v) ==> v@ == out@,
{
    let n: usize = out.len();
    let mut k: usize = 1;
    while k < n
        invariant
            1 <= k,
            n == out@.len(),
            forall|a: int, b: int| 0 <= a < b < k && b < n ==> #[trigger] out@[a].0 < #[trigger] out@[b].0,
        decreases n - k,
    {
        if out[k - 1].0 >= out[k].0 {
            return None;
        }
        k = k + 1;
    }
    match absent {
        None => {},
        Some(a) => {
            let mut m: usize = 0;
            while m < n
                invariant
                    m <= n,
                    n == out@.len(),
                    absent == Some(a),
                    forall|j: int| 0 <= j < m ==> (#[trigger] out@[j]).1 != a,
                decreases n - m,
            {
                if out[m].1 == a {
                    return None;
                }
                m = m + 1;
            }
        },
    }
    Some(out)
}

impl<'a> Coverage<'a> {
    /// Spells the table out as `(glyph, coverage index)` entries for a
    /// sparse index, `None` where the table cannot be read or could not be
    /// searched as it stands.
    pub fn index_entries(&self) -> (r: Option<Vec<(u32, u16)>>)
        ensures
            match spec_cov_index_entries(self.bytes()) {
                None => r is None,
                Some(e) => r matches Some(v) && v@ == e,
            },
    {
        let d = self.data;
        let mut out: Vec<(u32, u16)> = Vec::new();
        let format: u16 = match read_u16_be(d, 0) {
            Some(f) => f,
            None => return None,
        };
        let count: u16 = match read_u16_be(d, 2) {
            Some(c) => c,
            None => return None,
        };
        if format == 1 {
            let mut i: usize = 0;
            while i < count as usize
                invariant
                    i <= count,
                    d@ == self.bytes(),
                    spec_u16(d@, 0) == Some(1u16),
                    spec_u16(d@, 2) == Some(count),
                    4 + 2 * i <= d@.len(),
                    out@ == Seq::new(i as nat, |j: int| (spec_u16(d@, 4 + 2 * j).unwrap() as u32, j as u16)),
                decreases count - i,
            {
                let g: u16 = match read_u16_be(d, 4 + i * 2) {
                    Some(g) => g,
                    None => return None,
                };
                out.push((g as u32, i as u16));
                assert(out@ =~= Seq::new((i + 1) as nat, |j: int| (spec_u16(d@, 4 + 2 * j).unwrap() as u32, j as u16)));
                i = i + 1;
            }
            assert(spec_cov_raw_entries(d@) == Some(out@));
        } else if format == 2 {
            let mut i: usize = 0;
            while i < count as usize
                invariant
                    i <= count,
                    d@ == self.bytes(),
                    spec_u16(d@, 0) == Some(2u16),
                    spec_u16(d@, 2) == Some(count),
                    spec_cov2_entries(d@, i as int) == Some(out@),
                    out@.len() <= MAX_INDEX_ENTRIES,
                decreases count - i,
            {
                let rec: usize = 4 + i * 6;
                let (start, end, first) = match (read_u16_be(d, rec), read_u16_be(d, rec + 2), read_u16_be(d, rec + 4)) {
                    (Some(s), Some(e), Some(f)) => (s, e, f),
                    _ => {
                        proof {
                            lemma_cov2_entries_none(d@, i + 1, count as int);
                        }
                        return None;
                    },
                };
                if start > end || out.len() + (end - start) as usize + 1 > MAX_INDEX_ENTRIES || first as u32 + (end
                    - start) as u32 > 0xFFFF {
                    proof {
                        lemma_cov2_entries_none(d@, i + 1, count as int);
                    }
                    return None;
                }
                let ghost acc = out@;
                let span: u32 = (end - start) as u32;
                let mut k: u32 = 0;
                while k <= span
                    invariant
                        k <= span + 1,
                        span == end - start,
                        first + span <= 0xFFFF,
                        start <= end,
                        out@ == acc + range_entries(start, end, first as int).take(k as int),
                        acc.len() + span + 1 <= MAX_INDEX_ENTRIES,
                    decreases span + 1 - k,
                {
                    out.push(((start as u32 + k) as u32, (first as u32 + k) as u16));
                    assert(out@ =~= acc + range_entries(start, end, first as int).take(k + 1));
                    k = k + 1;
                }
                assert(range_entries(start, end, first as int).take(span + 1) =~= range_entries(start, end, first as int));
                i = i + 1;
            }
            assert(spec_cov_raw_entries(d@) == Some(out@));
        } else {
            return None;
        }
        entries_checked(out, Some(COVERAGE_ABSENT))
    }
}

/// The first `i` entries of a format-2 coverage table come before the
/// rest: a shorter prefix of records spells out a prefix of the entries.
proof fn lemma_cov2_prefix(d: Seq<u8>, i: int, j: int)
    requires
        0 <= i <= j,
        spec_cov2_entries(d, j) is Some,
    ensures
        spec_cov2_entries(d, i) is Some,
        spec_cov2_entries(d, i).unwrap().len() <= spec_cov2_entries(d, j).unwrap().len(),
        forall|k: int|
            0 <= k < spec_cov2_entries(d, i).unwrap().len() ==> #[trigger] spec_cov2_entries(d, i).unwrap()[k]
                == spec_cov2_entries(d, j).unwrap()[k],
    decreases j - i,
{
    if i < j {
        lemma_cov2_prefix(d, i, j - 1);
        if j > 0 && spec_cov2_entries(d, j - 1) is None {
            assert(spec_cov2_entries(d, j) is None);
        }
    }
}

/// What the first `i` records of a format-2 coverage table spell out: every
/// record is readable, runs forward and keeps its indices within `u16`;
/// every glyph of a record has an entry; and the last entry is the end of
/// the last record.
proof fn lemma_cov2_facts(d: Seq<u8>, i: int)
    requires
        i >= 0,
        spec_cov2_entries(d, i) is Some,
    ensures
        forall|r: int|
            0 <= r < i ==> (#[trigger] spec_range_record(d, r)) is Some && spec_range_record(d, r).unwrap().0
                <= spec_range_record(d, r).unwrap().1 && spec_range_record(d, r).unwrap().2 + (spec_range_record(
                d,
                r,
            ).unwrap().1 - spec_range_record(d, r).unwrap().0) <= 0xFFFF,
        forall|r: int, g: u16|
            0 <= r < i && spec_range_record(d, r).unwrap().0 <= g <= spec_range_record(d, r).unwrap().1
                ==> #[trigger] has_entry(spec_cov2_entries(d, i).unwrap(), g, r),
        i > 0 ==> spec_cov2_entries(d, i).unwrap().len() > 0 && spec_cov2_entries(d, i).unwrap().last().0
            == spec_range_record(d, i - 1).unwrap().1,
    decreases i,
{
    if i > 0 {
        lemma_cov2_facts(d, i - 1);
        let acc = spec_cov2_entries(d, i - 1).unwrap();
        let (start, end, first) = spec_range_record(d, i - 1).unwrap();
        let e = spec_cov2_entries(d, i).unwrap();
        let rng = range_entries(start, end, first as int);
        assert(e == acc + rng);
        assert forall|r: int, g: u16|
            0 <= r < i && spec_range_record(d, r).unwrap().0 <= g <= spec_range_record(d, r).unwrap().1 implies #[trigger] has_entry(e, g, r) by {
            if r < i - 1 {
                assert(has_entry(acc, g, r));
                let k = choose|k: int| 0 <= k < acc.len() && acc[k].0 == g;
                assert(e[k] == acc[k]);
            } else {
                let k = acc.len() + (g - start);
                assert(e[k] == rng[g - start]);
            }
        }
        assert(e.last() == rng[end - start]);
    }
}

/// Entry `k` of the first `i` records of a format-2 coverage table comes
/// from a record that holds its glyph.
proof fn lemma_cov2_source(d: Seq<u8>, i: int, k: int)
    requires
        i >= 0,
        spec_cov2_entries(d, i) is Some,
        0 <= k < spec_cov2_entries(d, i).unwrap().len(),
    ensures
        exists|r: int| 0 <= r < i && #[trigger] range_holds(d, r, spec_cov2_entries(d, i).unwrap()[k]),
    decreases i,
{
    let acc = spec_cov2_entries(d, i - 1).unwrap();
    let (start, end, first) = spec_range_record(d, i - 1).unwrap();
    let e = spec_cov2_entries(d, i).unwrap();
    let rng = range_entries(start, end, first as int);
    assert(e == acc + rng);
    if k < acc.len() {
        lemma_cov2_source(d, i - 1, k);
        assert(e[k] == acc[k]);
        let r = choose|r: int| 0 <= r < i - 1 && #[trigger] range_holds(d, r, acc[k]);
        assert(range_holds(d, r, e[k]));
    } else {
        assert(e[k] == rng[k - acc.len()]);
        assert(range_holds(d, i - 1, e[k]));
    }
}

/// Record `r` of a format-2 coverage table holds the glyph of `entry`, and
/// gives it the entry's index.
pub open spec fn range_holds(d: Seq<u8>, r: int, entry: (u32, u16)) -> bool {
    match spec_range_record(d, r) {
        Some((start, end, first)) => start <= entry.0 <= end && entry.1 == first + (entry.0 - start),
        None => false,
    }
}

/// Some entry has glyph `g` (which record `r` holds).
pub open spec fn has_entry(e: Seq<(u32, u16)>, g: u16, r: int) -> bool {
    exists|k: int| 0 <= k < e.len() && e[k].0 == g
}

/// In a coverage table whose entries strictly increase, each range record
/// ends before the next one starts.
proof fn lemma_cov2_ordered(d: Seq<u8>, count: int, r1: int, r2: int)
    requires
        0 <= r1 < r2 < count,
        spec_cov2_entries(d, count) is Some,
        entries_increasing(spec_cov2_entries(d, count).unwrap()),
    ensures
        spec_range_record(d, r1).unwrap().1 < spec_range_record(d, r2).unwrap().0,
{
    lemma_cov2_prefix(d, r2 + 1, count);
    lemma_cov2_prefix(d, r2, r2 + 1);
    lemma_cov2_facts(d, r2);
    lemma_cov2_facts(d, r2 + 1);
    let big = spec_cov2_entries(d, count).unwrap();
    let e = spec_cov2_entries(d, r2 + 1).unwrap();
    let acc = spec_cov2_entries(d, r2).unwrap();
    let (s1, e1, f1) = spec_range_record(d, r1).unwrap();
    let (s2, e2, f2) = spec_range_record(d, r2).unwrap();
    assert(e == acc + range_entries(s2, e2, f2 as int));
    assert(has_entry(acc, e1, r1));
    let k = choose|k: int| 0 <= k < acc.len() && acc[k].0 == e1;
    let m = acc.len() as int;
    assert(e[m] == range_entries(s2, e2, f2 as int)[0]);
    assert(e[k] == acc[k]);
    assert(big[k] == e[k] && big[m] == e[m]);
    assert(big[k].0 < big[m].0);
}

/// A linear search of the range records from `j` on finds the index that
/// the one record holding the glyph gives it.
proof fn lemma_cov2_find_agrees(d: Seq<u8>, glyph: u16, count: int, j: int)
    requires
        0 <= j <= count,
        count <= 0xFFFF,
        spec_cov2_entries(d, count) is Some,
        entries_increasing(spec_cov2_entries(d, count).unwrap()),
    ensures
        forall|r: int, entry: (u32, u16)|
            j <= r < count && entry.0 == glyph && #[trigger] range_holds(d, r, entry) ==> spec_cov2_find(
                d,
                glyph,
                count,
                j,
            ) == Some(entry.1),
        (forall|r: int| j <= r < count ==> !(spec_range_record(d, r).unwrap().0 <= glyph <= #[trigger] spec_range_record(
            d,
            r,
        ).unwrap().1)) ==> spec_cov2_find(d, glyph, count, j) is None,
    decreases count - j,
{
    lemma_cov2_facts(d, count);
    if j < count {
        lemma_cov2_find_agrees(d, glyph, count, j + 1);
        let (start, end, first) = spec_range_record(d, j).unwrap();
        assert(spec_range_record(d, j) is Some);
        if start <= glyph <= end {
            assert forall|r: int, entry: (u32, u16)|
                j <= r < count && entry.0 == glyph && #[trigger] range_holds(d, r, entry) implies spec_cov2_find(
                d,
                glyph,
                count,
                j,
            ) == Some(entry.1) by {
                if r > j {
                    lemma_cov2_ordered(d, count, j, r);
                }
            }
        } else {
            assert forall|r: int, entry: (u32, u16)|
                j <= r < count && entry.0 == glyph && #[trigger] range_holds(d, r, entry) implies spec_cov2_find(
                d,
                glyph,
                count,
                j,
            ) == Some(entry.1) by {
                assert(r != j);
            }
        }
    }
}

/// Glyph record `i` of a format-1 coverage table.
pub open spec fn spec_cov1_glyph(d: Seq<u8>, i: int) -> Option<u16> {
    spec_u16(d, 4 + 2 * i)
}

/// A linear search of the glyph records of a format-1 coverage table from
/// `j` on finds a glyph at the one record that lists it.
proof fn lemma_cov1_find_agrees(d: Seq<u8>, glyph: u16, count: int, j: int)
    requires
        0 <= j <= count,
        4 + 2 * count <= d.len(),
        forall|a: int, b: int|
            0 <= a < b < count ==> #[trigger] spec_cov1_glyph(d, a).unwrap() < #[trigger] spec_cov1_glyph(d, b).unwrap(),
    ensures
        forall|k: int| j <= k < count && #[trigger] spec_cov1_glyph(d, k) == Some(glyph) ==> spec_cov1_find(d, glyph, count, j) == Some(k as u16),
        (forall|k: int| j <= k < count ==> #[trigger] spec_cov1_glyph(d, k) != Some(glyph)) ==> spec_cov1_find(d, glyph, count, j) is None,
    decreases count - j,
{
    if j < count {
        lemma_cov1_find_agrees(d, glyph, count, j + 1);
        assert(4 + j * 2 == 4 + 2 * j);
        assert(spec_cov1_glyph(d, j) is Some);
    }
}

/// The entries that a coverage table spells out for a sparse index agree
/// with a search of the table: a glyph with an entry has that entry's
/// coverage index, and a glyph without one is not covered.
pub proof fn lemma_coverage_entries_agree(d: Seq<u8>, glyph: u16)
    requires
        spec_cov_index_entries(d) is Some,
    ensures
        forall|k: int|
            0 <= k < spec_cov_index_entries(d).unwrap().len() && #[trigger] spec_cov_index_entries(d).unwrap()[k].0
                == glyph ==> spec_coverage_index(d, glyph) == Some(spec_cov_index_entries(d).unwrap()[k].1),
        (forall|k: int|
            0 <= k < spec_cov_index_entries(d).unwrap().len() ==> #[trigger] spec_cov_index_entries(d).unwrap()[k].0
                != glyph) ==> spec_coverage_index(d, glyph) is None,
{
    let e = spec_cov_index_entries(d).unwrap();
    let format = spec_u16(d, 0).unwrap();
    let count = spec_u16(d, 2).unwrap() as int;
    if format == 1 {
        assert forall|a: int, b: int|
            0 <= a < b < count implies #[trigger] spec_cov1_glyph(d, a).unwrap() < #[trigger] spec_cov1_glyph(d, b).unwrap() by {
            assert(e[a].0 < e[b].0);
        }
        lemma_cov1_find_agrees(d, glyph, count, 0);
        assert forall|k: int| 0 <= k < e.len() && #[trigger] e[k].0 == glyph implies spec_coverage_index(d, glyph) == Some(e[k].1) by {
            assert(spec_cov1_glyph(d, k) == Some(glyph));
        }
        if forall|k: int| 0 <= k < e.len() ==> #[trigger] e[k].0 != glyph {
            assert forall|k: int| 0 <= k < count implies #[trigger] spec_cov1_glyph(d, k) != Some(glyph) by {
                assert(e[k].0 != glyph);
            }
        }
    } else {
        lemma_cov2_facts(d, count);
        lemma_cov2_find_agrees(d, glyph, count, 0);
        assert forall|k: int| 0 <= k < e.len() && #[trigger] e[k].0 == glyph implies spec_coverage_index(d, glyph) == Some(e[k].1) by {
            lemma_cov2_source(d, count, k);
            let r = choose|r: int| 0 <= r < count && #[trigger] range_holds(d, r, e[k]);
            assert(range_holds(d, r, e[k]));
        }
        if forall|k: int| 0 <= k < e.len() ==> #[trigger] e[k].0 != glyph {
            assert forall|r: int| 0 <= r < count implies !(spec_range_record(d, r).unwrap().0 <= glyph <= #[trigger] spec_range_record(d, r).unwrap().1) by {
                if spec_range_record(d, r).unwrap().0 <= glyph <= spec_range_record(d, r).unwrap().1 {
                    assert(has_entry(e, glyph, r));
                }
            }
        }
    }
}

/// A class definition table: a class number for each glyph, zero for
/// glyphs it does not list.
#[derive(Clone, Copy)]
pub struct ClassDef<'a> {
    data: &'a [u8],
}

/// The class of `glyph` in the range records of a format-2 class table:
/// the record with the greatest start not above the glyph, as a search of
/// records sorted by start finds it.
pub open spec fn spec_class2_search(d: Seq<u8>, glyph: u16, count: int, i: int) -> Option<int>
    decreases count - i,
{
    if i < 0 || i >= count {
        Some(count)
    } else {
        match spec_u16(d, 4 + i * 6) {
            None => None,
            Some(start) => if start >= glyph {
                Some(i)
            } else {
                spec_class2_search(d, glyph, count, i + 1)
            },
        }
    }
}

pub open spec fn spec_class_of_checked(d: Seq<u8>, glyph: u16) -> Option<u16> {
    match spec_u16(d, 0) {
        Some(1) => match (spec_u16(d, 2), spec_u16(d, 4)) {
            (Some(start), Some(count)) => if glyph < start || glyph - start >= count {
                None
            } else {
                spec_u16(d, 6 + (glyph - start) * 2)
            },
            _ => None,
        },
        Some(2) => match spec_u16(d, 2) {
            None => None,
            Some(count) => match spec_class2_search(d, glyph, count as int, 0) {
                None => None,
                Some(p) => {
                    let exact = p < count && spec_u16(d, 4 + p * 6) == Some(glyph);
                    if !exact && p == 0 {
                        None
                    } else {
                        let cand = if exact {
                            p
                        } else {
                            p - 1
                        };
                        match (
                            spec_u16(d, 4 + cand * 6),
                            spec_u16(d, 4 + cand * 6 + 2),
                            spec_u16(d, 4 + cand * 6 + 4),
                        ) {
                            (Some(start), Some(end), Some(class)) => if glyph < start || glyph
                                > end {
                                None
                            } else {
                                Some(class)
                            },
                            _ => None,
                        }
                    }
                },
            },
        },
        _ => None,
    }
}

impl<'a> ClassDef<'a> {
    pub closed spec fn bytes(&self) -> Seq<u8> {
        self.data@
    }

    pub fn new(data: &'a [u8]) -> (r: Option<ClassDef<'a>>)
        ensures
            data@.len() < 4 ==> r is None,
            data@.len() >= 4 ==> (r matches Some(c) && c.bytes() == data@),
    {
        if data.len() < 4 {
            return None;
        }
        Some(ClassDef { data })
    }

    /// The class definition that puts every glyph in class zero.
    pub fn all_class_zero() -> (c: ClassDef<'static>)
        ensures
            c.bytes() == Seq::<u8>::empty(),
    {
        let empty: &'static [u8] = &[];
        ClassDef { data: empty }
    }

    /// The class of `glyph`, zero when the table does not list it.
    pub fn class_of(&self, glyph: u16) -> (r: u16)
        ensures
            r == match spec_class_of_checked(self.bytes(), glyph) {
                Some(c) => c,
                None => 0,
            },
    {
        match self.class_of_checked(glyph) {
            Some(c) => c,
            None => 0,
        }
    }

    fn class_of_checked(&self, glyph: u16) -> (r: Option<u16>)
        ensures
            r == spec_class_of_checked(self.bytes(), glyph),
    {
        let d = self.data;
        match read_u16_be(d, 0) {
            Some(1) => {
                let start = read_u16_be(d, 2);
                let count = read_u16_be(d, 4);
                match (start, count) {
                    (Some(start), Some(count)) => {
                        if glyph < start {
                            return None;
                        }
                        let idx: u16 = glyph - start;
                        if idx >= count {
                            return None;
                        }
                        read_u16_be(d, 6 + idx as usize * 2)
                    },
                    _ => None,
                }
            },
            Some(2) => {
                let count = match read_u16_be(d, 2) {
                    Some(c) => c as usize,
                    None => return None,
                };
                let p: usize = match search_starts(d, glyph, count) {
                    Some(p) => p,
                    None => return None,
                };
                let exact: bool = p < count && read_u16_be(d, 4 + p * 6) == Some(glyph);
                if !exact && p == 0 {
                    return None;
                }
                let cand: usize = if exact {
                    p
                } else {
                    p - 1
                };
                let rec: usize = 4 + cand * 6;
                match (read_u16_be(d, rec), read_u16_be(d, rec + 2), read_u16_be(d, rec + 4)) {
                    (Some(start), Some(end), Some(class)) => {
                        if glyph < start || glyph > end {
                            None
                        } else {
                            Some(class)
                        }
                    },
                    _ => None,
                }
            },
            _ => None,
        }
    }
}

/// The first range record, of `count`, whose start is not below `glyph`;
/// `count` when there is none, `None` when a record cannot be read.
fn search_starts(d: &[u8], glyph: u16, count: usize) -> (r: Option<usize>)
    requires
        count <= 0xFFFF,
    ensures
        r matches Some(p) ==> spec_class2_search(d@, glyph, count as int, 0) == Some(p as int)
            && p <= count,
        r is None ==> spec_class2_search(d@, glyph, count as int, 0) is None,
{
    let mut i: usize = 0;
    while i < count
        invariant
            i <= count,
            count <= 0xFFFF,
            spec_class2_search(d@, glyph, count as int, 0) == spec_class2_search(
                d@,
                glyph,
                count as int,
                i as int,
            ),
        decreases count - i,
    {
        match read_u16_be(d, 4 + i * 6) {
            None => return None,
            Some(start) => {
                if start >= glyph {
                    return Some(i);
                }
            },
        }
        i = i + 1;
    }
    Some(count)
}

/// The glyph properties a GDEF glyph class gives: base, ligature, or mark
/// with its attachment class in the high byte.
pub fn glyph_props_from_gdef_class(class: u16, mark_attach: u16) -> (r: u16)
    ensures
        r == if class == 1 {
            0x02u16
        } else if class == 2 {
            0x04u16
        } else if class == 3 {
            (0x08u16 | ((mark_attach as int * 256) % 0x10000) as u16) as u16
        } else {
            0u16
        },
{
    if class == 1 {
        0x02
    } else if class == 2 {
        0x04
    } else if class == 3 {
        let shifted: u16 = mark_attach << 8u16;
        assert(shifted == ((mark_attach as int * 256) % 0x10000) as u16) by (bit_vector)
            requires
                shifted == mark_attach << 8u16,
        ;
        0x08 | shifted
    } else {
        0
    }
}

/// The size in bytes of a GPOS value record of the given format: two bytes
/// for each of the low eight format bits that is set.
pub open spec fn spec_value_record_len(format: u16) -> int {
    (if format & 1 != 0 { 2int } else { 0 }) + (if format & 2 != 0 { 2int } else { 0 }) + (
    if format & 4 != 0 { 2int } else { 0 }) + (if format & 8 != 0 { 2int } else { 0 }) + (
    if format & 16 != 0 { 2int } else { 0 }) + (if format & 32 != 0 { 2int } else { 0 }) + (
    if format & 64 != 0 { 2int } else { 0 }) + (if format & 128 != 0 { 2int } else { 0 })
}

pub fn value_record_len(format: u16) -> (r: usize)
    ensures
        r == spec_value_record_len(format),
{
    let mut n: usize = 0;
    if format & 1 != 0 {
        n = n + 2;
    }
    if format & 2 != 0 {
        n = n + 2;
    }
    if format & 4 != 0 {
        n = n + 2;
    }
    if format & 8 != 0 {
        n = n + 2;
    }
    if format & 16 != 0 {
        n = n + 2;
    }
    if format & 32 != 0 {
        n = n + 2;
    }
    if format & 64 != 0 {
        n = n + 2;
    }
    if format & 128 != 0 {
        n = n + 2;
    }
    n
}


/// The glyph definition table: glyph classes, mark attachment classes and
/// mark glyph sets.
pub struct Gdef<'a> {
    pub data: &'a [u8],
    pub glyph_classes: Option<ClassDef<'a>>,
    pub mark_attach_classes: Option<ClassDef<'a>>,
    pub mark_glyph_sets_off: usize,
    pub item_var_store_off: usize,
}

/// The entries of the first `i` class values of a format-1 class table
/// whose glyphs start at `start`: each glyph of a nonzero class with its
/// class. A value that cannot be read, or a glyph of a nonzero class past
/// `u16`, gives `None`.
pub open spec fn spec_class1_entries(d: Seq<u8>, start: u16, i: int) -> Option<Seq<(u32, u16)>>
    decreases i,
{
    if i <= 0 {
        Some(Seq::empty())
    } else {
        match spec_class1_entries(d, start, i - 1) {
            None => None,
            Some(acc) => match spec_u16(d, 6 + 2 * (i - 1)) {
                None => None,
                Some(class) => if class == 0 {
                    Some(acc)
                } else if start + (i - 1) > 0xFFFF {
                    None
                } else {
                    Some(acc.push(((start + (i - 1)) as u32, class)))
                },
            },
        }
    }
}

/// The glyphs `start..=end`, all with the same value.
pub open spec fn range_of_class(start: u16, end: u16, class: u16) -> Seq<(u32, u16)> {
    Seq::new((end - start + 1) as nat, |k: int| ((start + k) as u32, class))
}

/// The entries spelled out by the first `i` range records of a format-2
/// class table: the glyphs of each range of a nonzero class. A record that
/// cannot be read, a range that runs backwards, or too many entries give
/// `None`.
pub open spec fn spec_class2_entries(d: Seq<u8>, i: int) -> Option<Seq<(u32, u16)>>
    decreases i,
{
    if i <= 0 {
        Some(Seq::empty())
    } else {
        match spec_class2_entries(d, i - 1) {
            None => None,
            Some(acc) => match spec_range_record(d, i - 1) {
                None => None,
                Some((start, end, class)) => if start > end {
                    None
                } else if class == 0 {
                    Some(acc)
                } else if acc.len() + (end - start + 1) > MAX_INDEX_ENTRIES {
                    None
                } else {
                    Some(acc + range_of_class(start, end, class))
                },
            },
        }
    }
}

/// The entries of a class table for a sparse index: present where the
/// table can be read and its glyphs strictly increase.
pub open spec fn spec_class_index_entries(d: Seq<u8>) -> Option<Seq<(u32, u16)>> {
    let raw = match spec_u16(d, 0) {
        Some(1) => match (spec_u16(d, 2), spec_u16(d, 4)) {
            (Some(start), Some(count)) => spec_class1_entries(d, start, count as int),
            _ => None,
        },
        Some(2) => match spec_u16(d, 2) {
            Some(count) => spec_class2_entries(d, count as int),
            None => None,
        },
        _ => None,
    };
    match raw {
        None => None,
        Some(e) => if entries_increasing(e) {
            Some(e)
        } else {
            None
        },
    }
}

proof fn lemma_class1_entries_none(d: Seq<u8>, start: u16, i: int, j: int)
    requires
        i <= j,
        spec_class1_entries(d, start, i) is None,
    ensures
        spec_class1_entries(d, start, j) is None,
    decreases j - i,
{
    if i < j {
        lemma_class1_entries_none(d, start, i, j - 1);
    }
}

proof fn lemma_class2_entries_none(d: Seq<u8>, i: int, j: int)
    requires
        i <= j,
        spec_class2_entries(d, i) is None,
    ensures
        spec_class2_entries(d, j) is None,
    decreases j - i,
{
    if i < j {
        lemma_class2_entries_none(d, i, j - 1);
    }
}

impl<'a> ClassDef<'a> {
    /// Spells the table out as `(glyph, class)` entries of the glyphs of a
    /// nonzero class, for a sparse index; `None` where the table cannot be
    /// read or could not be searched as it stands.
    pub fn index_entries(&self) -> (r: Option<Vec<(u32, u16)>>)
        ensures
            match spec_class_index_entries(self.bytes()) {
                None => r is None,
                Some(e) => r matches Some(v) && v@ == e,
            },
    {
        let d = self.data;
        let mut out: Vec<(u32, u16)> = Vec::new();
        let format: u16 = match read_u16_be(d, 0) {
            Some(f) => f,
            None => return None,
        };
        if format == 1 {
            let start: u16 = match read_u16_be(d, 2) {
                Some(v) => v,
                None => return None,
            };
            let count: u16 = match read_u16_be(d, 4) {
                Some(v) => v,
                None => return None,
            };
            let mut i: u16 = 0;
            while i < count
                invariant
                    i <= count,
                    d@ == self.bytes(),
                    spec_u16(d@, 0) == Some(1u16),
                    spec_u16(d@, 2) == Some(start),
                    spec_u16(d@, 4) == Some(count),
                    spec_class1_entries(d@, start, i as int) == Some(out@),
                decreases count - i,
            {
                let class: u16 = match read_u16_be(d, 6 + i as usize * 2) {
                    Some(c) => c,
                    None => {
                        proof {
                            lemma_class1_entries_none(d@, start, i + 1, count as int);
                        }
                        return None;
                    },
                };
                if class != 0 {
                    if start as u32 + i as u32 > 0xFFFF {
                        proof {
                            lemma_class1_entries_none(d@, start, i + 1, count as int);
                        }
                        return None;
                    }
                    out.push(((start + i) as u32, class));
                }
                i = i + 1;
            }
        } else if format == 2 {
            let count: u16 = match read_u16_be(d, 2) {
                Some(c) => c,
                None => return None,
            };
            let mut i: usize = 0;
            while i < count as usize
                invariant
                    i <= count,
                    d@ == self.bytes(),
                    spec_u16(d@, 0) == Some(2u16),
                    spec_u16(d@, 2) == Some(count),
                    spec_class2_entries(d@, i as int) == Some(out@),
                    out@.len() <= MAX_INDEX_ENTRIES,
                decreases count - i,
            {
                let rec: usize = 4 + i * 6;
                let (start, end, class) = match (read_u16_be(d, rec), read_u16_be(d, rec + 2), read_u16_be(d, rec + 4)) {
                    (Some(s), Some(e), Some(c)) => (s, e, c),
                    _ => {
                        proof {
                            lemma_class2_entries_none(d@, i + 1, count as int);
                        }
                        return None;
                    },
                };
                if start > end {
                    proof {
                        lemma_class2_entries_none(d@, i + 1, count as int);
                    }
                    return None;
                }
                if class != 0 {
                    if out.len() + (end - start) as usize + 1 > MAX_INDEX_ENTRIES {
                        proof {
                            lemma_class2_entries_none(d@, i + 1, count as int);
                        }
                        return None;
                    }
                    let ghost acc = out@;
                    let span: u32 = (end - start) as u32;
                    let mut k: u32 = 0;
                    while k <= span
                        invariant
                            k <= span + 1,
                            span == end - start,
                            start <= end,
                            out@ == acc + range_of_class(start, end, class).take(k as int),
                            acc.len() + span + 1 <= MAX_INDEX_ENTRIES,
                        decreases span + 1 - k,
                    {
                        out.push(((start as u32 + k) as u32, class));
                        assert(out@ =~= acc + range_of_class(start, end, class).take(k + 1));
                        k = k + 1;
                    }
                    assert(range_of_class(start, end, class).take(span + 1) =~= range_of_class(start, end, class));
                }
                i = i + 1;
            }
        } else {
            return None;
        }
        entries_checked(out, None)
    }
}

/// The class definition at the offset stored at `off`, if any.
pub open spec fn spec_sub_classdef(d: Seq<u8>, off: int) -> Option<Seq<u8>> {
    match spec_u16(d, off) {
        None => None,
        Some(rel) => if rel == 0 || rel > d.len() || d.len() - rel < 4 {
            None
        } else {
            Some(d.subrange(rel as int, d.len() as int))
        },
    }
}

fn sub_classdef<'a>(data: &'a [u8], off: usize) -> (r: Option<ClassDef<'a>>)
    ensures
        match spec_sub_classdef(data@, off as int) {
            None => r is None,
            Some(t) => (r matches Some(c) && c.bytes() == t),
        },
{
    let rel: usize = match read_u16_be(data, off) {
        Some(v) => v as usize,
        None => return None,
    };
    if rel == 0 {
        return None;
    }
    match tail_from(data, rel) {
        Some(t) => ClassDef::new(t),
        None => None,
    }
}

impl<'a> Gdef<'a> {
    pub closed spec fn bytes(&self) -> Seq<u8> {
        self.data@
    }

    pub closed spec fn mark_sets_at(&self) -> int {
        self.mark_glyph_sets_off as int
    }

    /// Reads a GDEF table; refuses one shorter than its version-1 header.
    pub fn new(data: &'a [u8]) -> (r: Option<Gdef<'a>>)
        ensures
            data@.len() < 12 ==> r is None,
            data@.len() >= 12 ==> (r matches Some(g) && g.bytes() == data@ && match spec_sub_classdef(
                data@,
                4,
            ) {
                None => g.glyph_classes is None,
                Some(t) => (g.glyph_classes matches Some(c) && c.bytes() == t),
            } && match spec_sub_classdef(data@, 10) {
                None => g.mark_attach_classes is None,
                Some(t) => (g.mark_attach_classes matches Some(c) && c.bytes() == t),
            } && g.mark_sets_at() == if spec_u16(data@, 2).unwrap() >= 2 && data@.len() >= 14 {
                spec_u16(data@, 12).unwrap() as int
            } else {
                0
            } && g.item_var_store_off == if spec_u16(data@, 2).unwrap() >= 3 && data@.len() >= 18 {
                spec_u32(data@, 14).unwrap() as usize
            } else {
                0
            }),
    {
        if data.len() < 12 {
            return None;
        }
        let minor: u16 = match read_u16_be(data, 2) {
            Some(m) => m,
            None => return None,
        };
        let mark_glyph_sets_off: usize = if minor >= 2 && data.len() >= 14 {
            match read_u16_be(data, 12) {
                Some(v) => v as usize,
                None => 0,
            }
        } else {
            0
        };
        let item_var_store_off: usize = if minor >= 3 && data.len() >= 18 {
            match read_u32_be(data, 14) {
                Some(v) => v as usize,
                None => 0,
            }
        } else {
            0
        };
        Some(
            Gdef {
                data,
                glyph_classes: sub_classdef(data, 4),
                mark_attach_classes: sub_classdef(data, 10),
                mark_glyph_sets_off,
                item_var_store_off,
            },
        )
    }

    pub fn has_glyph_classes(&self) -> (r: bool)
        ensures
            r == self.glyph_classes is Some,
    {
        self.glyph_classes.is_some()
    }

    /// Whether `glyph` belongs to mark glyph set number `set_index`.
    pub fn is_mark_glyph(&self, glyph: u16, set_index: u16) -> (r: bool)
        requires
            self.mark_sets_at() <= 0xFFFF,
        ensures
            r == spec_is_mark_glyph(self.bytes(), self.mark_sets_at(), glyph, set_index),
    {
        let base: usize = self.mark_glyph_sets_off;
        if base == 0 {
            return false;
        }
        let d = self.data;
        let count: u16 = match read_u16_be(d, base + 2) {
            Some(c) => c,
            None => return false,
        };
        if set_index >= count {
            return false;
        }
        let rec: usize = base + 4 + set_index as usize * 4;
        let hi: u16 = match read_u16_be(d, rec) {
            Some(v) => v,
            None => return false,
        };
        let lo: u16 = match read_u16_be(d, rec + 2) {
            Some(v) => v,
            None => return false,
        };
        let rel: usize = (hi as usize) * 65536 + lo as usize;
        let at: usize = match base.checked_add(rel) {
            Some(a) => a,
            None => {
                let dlen: usize = d.len();
                assert(dlen == d@.len());
                return false;
            },
        };
        match tail_from(d, at) {
            None => false,
            Some(t) => match Coverage::new(t) {
                None => false,
                Some(c) => c.contains(glyph),
            },
        }
    }
}

pub open spec fn spec_is_mark_glyph(d: Seq<u8>, base: int, glyph: u16, set_index: u16) -> bool {
    if base == 0 {
        false
    } else {
        match spec_u16(d, base + 2) {
            None => false,
            Some(count) => if set_index >= count {
                false
            } else {
                let rec = base + 4 + set_index * 4;
                match (spec_u16(d, rec), spec_u16(d, rec + 2)) {
                    (Some(hi), Some(lo)) => {
                        let at = base + hi * 65536 + lo;
                        at + 4 <= d.len() && spec_coverage_index(
                            d.subrange(at, d.len() as int),
                            glyph,
                        ) is Some
                    },
                    _ => false,
                }
            },
        }
    }
}

pub const RIGHT_TO_LEFT: u16 = 0x0001;

pub const IGNORE_BASE_GLYPHS: u16 = 0x0002;

pub const IGNORE_LIGATURES: u16 = 0x0004;

pub const IGNORE_MARKS: u16 = 0x0008;

pub const USE_MARK_FILTERING_SET: u16 = 0x0010;

/// One lookup of a lookup list: its type, flags and subtables.
#[derive(Clone, Copy)]
pub struct Lookup<'a> {
    pub table: &'a [u8],
    pub at: usize,
    pub kind: u16,
    pub flags: u16,
    pub subtable_count: u16,
}

impl<'a> Lookup<'a> {
    pub open spec fn bytes(&self) -> Seq<u8> {
        self.table@
    }

    pub open spec fn offset(&self) -> int {
        self.at as int
    }

    /// Subtable `i`: the data from its offset, relative to the lookup, on.
    pub open spec fn spec_subtable(&self, i: u16) -> Option<Seq<u8>> {
        if i >= self.subtable_count {
            None
        } else {
            match spec_u16(self.bytes(), self.offset() + 6 + i * 2) {
                None => None,
                Some(rel) => if self.offset() + rel <= self.bytes().len() {
                    Some(self.bytes().subrange(self.offset() + rel, self.bytes().len() as int))
                } else {
                    None
                },
            }
        }
    }

    /// Subtable `i`, from its offset relative to the lookup.
    pub fn subtable(&self, i: u16) -> (r: Option<&'a [u8]>)
        requires
            self.offset() <= 0x2_0000,
        ensures
            match self.spec_subtable(i) {
                None => r is None,
                Some(t) => (r matches Some(x) && x@ == t),
            },
    {
        if i >= self.subtable_count {
            return None;
        }
        let rel: usize = match read_u16_be(self.table, self.at + 6 + i as usize * 2) {
            Some(v) => v as usize,
            None => return None,
        };
        tail_from(self.table, self.at + rel)
    }

    /// The mark filtering set, when the lookup's flags ask for one.
    pub fn mark_filtering_set(&self) -> (r: Option<u16>)
        requires
            self.offset() <= 0x2_0000,
        ensures
            r == if self.flags & USE_MARK_FILTERING_SET == 0 {
                None
            } else {
                spec_u16(self.bytes(), self.offset() + 6 + self.subtable_count * 2)
            },
    {
        if self.flags & USE_MARK_FILTERING_SET == 0 {
            return None;
        }
        read_u16_be(self.table, self.at + 6 + self.subtable_count as usize * 2)
    }

    /// The lookup properties: its flags, with the mark filtering set in the
    /// high half.
    pub fn props(&self) -> (r: u32)
        requires
            self.offset() <= 0x2_0000,
        ensures
            r == match (if self.flags & USE_MARK_FILTERING_SET == 0 {
                None
            } else {
                spec_u16(self.bytes(), self.offset() + 6 + self.subtable_count * 2)
            }) {
                Some(set) => (self.flags as u32) | ((set as u32) << 16u32),
                None => self.flags as u32,
            },
    {
        let mut props: u32 = self.flags as u32;
        if let Some(set) = self.mark_filtering_set() {
            props = props | ((set as u32) << 16u32);
        }
        props
    }
}

/// Resolves an extension subtable to the subtable it wraps; a subtable of
/// any other lookup type is returned as it is.
pub open spec fn spec_resolve_extension(subtable: Seq<u8>, lookup_kind: u16, extension_kind: u16) -> Option<(u16, Seq<u8>)> {
    if lookup_kind != extension_kind {
        Some((lookup_kind, subtable))
    } else {
        match (spec_u16(subtable, 0), spec_u16(subtable, 2), spec_u32(subtable, 4)) {
            (Some(1), Some(inner_kind), Some(off)) => if inner_kind == extension_kind || off > subtable.len() {
                None
            } else {
                Some((inner_kind, subtable.subrange(off as int, subtable.len() as int)))
            },
            _ => None,
        }
    }
}

pub fn resolve_extension<'a>(subtable: &'a [u8], lookup_kind: u16, extension_kind: u16) -> (r: Option<(u16, &'a [u8])>)
    ensures
        match spec_resolve_extension(subtable@, lookup_kind, extension_kind) {
            None => r is None,
            Some((k, t)) => (r matches Some((k2, t2)) && k2 == k && t2@ == t),
        },
{
    if lookup_kind != extension_kind {
        return Some((lookup_kind, subtable));
    }
    match read_u16_be(subtable, 0) {
        Some(1) => {},
        _ => return None,
    }
    let inner_kind: u16 = match read_u16_be(subtable, 2) {
        Some(v) => v,
        None => return None,
    };
    if inner_kind == extension_kind {
        return None;
    }
    let off: usize = match read_u32_be(subtable, 4) {
        Some(v) => v as usize,
        None => return None,
    };
    match tail_from(subtable, off) {
        Some(t) => Some((inner_kind, t)),
        None => None,
    }
}

/// Where the first coverage offset of a subtable sits: right after the
/// format for every subtable but the contextual ones, whose format 3 keeps
/// it after the glyph count (and, when chained, after the backtrack
/// offsets).
pub open spec fn spec_first_coverage_at(kind: u16, d: Seq<u8>, context: u16, chain_context: u16) -> Option<int> {
    if kind != context && kind != chain_context {
        Some(2)
    } else {
        match spec_u16(d, 0) {
            Some(1) => Some(2),
            Some(2) => Some(2),
            Some(3) => if kind == context {
                Some(6)
            } else {
                match spec_u16(d, 2) {
                    Some(n) => Some(4 + n * 2 + 2),
                    None => None,
                }
            },
            _ => None,
        }
    }
}

fn first_coverage_at(kind: u16, data: &[u8], context: u16, chain_context: u16) -> (r: Option<usize>)
    ensures
        match spec_first_coverage_at(kind, data@, context, chain_context) {
            None => r is None,
            Some(at) => r == Some(at as usize),
        },
        r matches Some(at) ==> at <= 0x2_0004,
{
    if kind != context && kind != chain_context {
        return Some(2);
    }
    match read_u16_be(data, 0) {
        Some(1) => Some(2),
        Some(2) => Some(2),
        Some(3) => if kind == context {
            Some(6)
        } else {
            match read_u16_be(data, 2) {
                Some(n) => Some(4 + n as usize * 2 + 2),
                None => None,
            }
        },
        _ => None,
    }
}

/// The coverage table at the 16-bit offset stored at `at`.
pub open spec fn spec_offset_coverage(d: Seq<u8>, at: int) -> Option<Seq<u8>> {
    match spec_u16(d, at) {
        None => None,
        Some(off) => if off + 4 <= d.len() {
            Some(d.subrange(off as int, d.len() as int))
        } else {
            None
        },
    }
}

/// The coverage table at offset `off`, where it has a header's worth of
/// bytes.
pub fn offset_coverage_at(subtable: &[u8], off: u16) -> (r: Option<Coverage<'_>>)
    ensures
        off as int + 4 <= subtable@.len() ==> (r matches Some(c) && c.bytes() == subtable@.subrange(
            off as int,
            subtable@.len() as int,
        )),
        off as int + 4 > subtable@.len() ==> r is None,
{
    match tail_from(subtable, off as usize) {
        None => None,
        Some(t) => Coverage::new(t),
    }
}

/// The coverage table at the offset stored at `at`, where it has a
/// header's worth of bytes.
pub fn offset_coverage(subtable: &[u8], at: usize) -> (r: Option<Coverage<'_>>)
    ensures
        match spec_offset_coverage(subtable@, at as int) {
            None => r is None,
            Some(c) => (r matches Some(x) && x.bytes() == c),
        },
{
    let off: usize = match read_u16_be(subtable, at) {
        Some(o) => o as usize,
        None => return None,
    };
    match tail_from(subtable, off) {
        None => None,
        Some(t) => Coverage::new(t),
    }
}

/// Whether the digest of a subtable has bit `at` of mask `k`: the bits of
/// its first coverage table, or every bit where that table cannot be
/// found or read to its end.
pub open spec fn spec_subtable_bits(kind: u16, d: Seq<u8>, context: u16, chain_context: u16, k: int, at: int) -> bool {
    match spec_first_coverage_at(kind, d, context, chain_context) {
        None => true,
        Some(a) => match spec_offset_coverage(d, a) {
            None => true,
            Some(c) => !spec_cov_complete(c) || spec_cov_hits(c, k, at),
        },
    }
}

/// The digest of one subtable: the glyphs of its first coverage table.
fn subtable_digest(kind: u16, data: &[u8], context: u16, chain_context: u16) -> (r: Digest)
    ensures
        forall|k: int, at: int|
            0 <= k < 3 && 0 <= at < 256 ==> #[trigger] r.holds(k, at) == spec_subtable_bits(
                kind,
                data@,
                context,
                chain_context,
                k,
                at,
            ),
{
    let at: usize = match first_coverage_at(kind, data, context, chain_context) {
        Some(a) => a,
        None => return Digest::full(),
    };
    let coverage = match offset_coverage(data, at) {
        Some(c) => c,
        None => return Digest::full(),
    };
    let mut d = Digest::new();
    coverage.add_to_digest(&mut d);
    d
}

/// Subtable `i` of a lookup with its extension resolved: its lookup type
/// and its data.
pub open spec fn spec_resolved_subtable(l: Lookup, extension: u16, i: u16) -> Option<(u16, Seq<u8>)> {
    match l.spec_subtable(i) {
        None => None,
        Some(t) => spec_resolve_extension(t, l.kind, extension),
    }
}

/// Whether one of the first `n` subtables of a lookup sets bit `at` of mask
/// `k`; a subtable that cannot be resolved sets every bit.
pub open spec fn spec_lookup_bits_upto(l: Lookup, extension: u16, context: u16, chain_context: u16, n: int, k: int, at: int) -> bool
    decreases n,
{
    if n <= 0 {
        false
    } else {
        spec_lookup_bits_upto(l, extension, context, chain_context, n - 1, k, at) || match spec_resolved_subtable(
            l,
            extension,
            (n - 1) as u16,
        ) {
            None => true,
            Some((kind, t)) => spec_subtable_bits(kind, t, context, chain_context, k, at),
        }
    }
}

proof fn lemma_lookup_bits_grow(l: Lookup, extension: u16, context: u16, chain_context: u16, m: int, n: int, k: int, at: int)
    requires
        0 <= m <= n,
        spec_lookup_bits_upto(l, extension, context, chain_context, m, k, at),
    ensures
        spec_lookup_bits_upto(l, extension, context, chain_context, n, k, at),
    decreases n - m,
{
    if m < n {
        lemma_lookup_bits_grow(l, extension, context, chain_context, m, n - 1, k, at);
    }
}

/// The digest of a lookup: the union of the digests of its subtables.
pub fn lookup_digest(lookup: &Lookup, extension: u16, context: u16, chain_context: u16) -> (r: Digest)
    requires
        lookup.offset() <= 0x2_0000,
    ensures
        forall|k: int, at: int|
            0 <= k < 3 && 0 <= at < 256 ==> #[trigger] r.holds(k, at) == spec_lookup_bits_upto(
                *lookup,
                extension,
                context,
                chain_context,
                lookup.subtable_count as int,
                k,
                at,
            ),
{
    let mut digest = Digest::new();
    let mut i: u16 = 0;
    while i < lookup.subtable_count
        invariant
            i <= lookup.subtable_count,
            lookup.offset() <= 0x2_0000,
            forall|k: int, at: int|
                0 <= k < 3 && 0 <= at < 256 ==> #[trigger] digest.holds(k, at)
                    == spec_lookup_bits_upto(*lookup, extension, context, chain_context, i as int, k, at),
        decreases lookup.subtable_count - i,
    {
        let data: &[u8] = match lookup.subtable(i) {
            Some(t) => t,
            None => {
                let full = Digest::full();
                assert forall|k: int, at: int| 0 <= k < 3 && 0 <= at < 256 implies #[trigger] full.holds(k, at)
                    == spec_lookup_bits_upto(*lookup, extension, context, chain_context, lookup.subtable_count as int, k, at) by {
                    lemma_lookup_bits_grow(*lookup, extension, context, chain_context, i + 1, lookup.subtable_count as int, k, at);
                }
                return full;
            },
        };
        let (kind, sub_data) = match resolve_extension(data, lookup.kind, extension) {
            Some(x) => x,
            None => {
                let full = Digest::full();
                assert forall|k: int, at: int| 0 <= k < 3 && 0 <= at < 256 implies #[trigger] full.holds(k, at)
                    == spec_lookup_bits_upto(*lookup, extension, context, chain_context, lookup.subtable_count as int, k, at) by {
                    lemma_lookup_bits_grow(*lookup, extension, context, chain_context, i + 1, lookup.subtable_count as int, k, at);
                }
                return full;
            },
        };
        assert(spec_resolved_subtable(*lookup, extension, i) == Some((kind, sub_data@)));
        let sub = subtable_digest(kind, sub_data, context, chain_context);
        let ghost before = digest;
        digest.union(&sub);
        assert forall|k: int, at: int| 0 <= k < 3 && 0 <= at < 256 implies #[trigger] digest.holds(k, at)
            == spec_lookup_bits_upto(*lookup, extension, context, chain_context, i + 1, k, at) by {
            assert(before.holds(k, at) == spec_lookup_bits_upto(*lookup, extension, context, chain_context, i as int, k, at));
            assert(sub.holds(k, at) == spec_subtable_bits(kind, sub_data@, context, chain_context, k, at));
        }
        if digest.is_full() {
            assert forall|k: int, at: int| 0 <= k < 3 && 0 <= at < 256 implies #[trigger] digest.holds(k, at)
                == spec_lookup_bits_upto(*lookup, extension, context, chain_context, lookup.subtable_count as int, k, at) by {
                assert(digest.holds(k, at));
                assert(spec_lookup_bits_upto(*lookup, extension, context, chain_context, i + 1, k, at));
                lemma_lookup_bits_grow(*lookup, extension, context, chain_context, i + 1, lookup.subtable_count as int, k, at);
            }
            return digest;
        }
        i = i + 1;
    }
    digest
}

/// Every glyph that the first coverage table of one of a lookup's
/// subtables covers is covered by the lookup's digest: skipping a glyph
/// that the digest rules out never skips a subtable that applies to it.
pub proof fn lemma_lookup_digest_covers(
    l: Lookup,
    extension: u16,
    context: u16,
    chain_context: u16,
    r: Digest,
    i: u16,
    glyph: u16,
)
    requires
        forall|k: int, at: int|
            0 <= k < 3 && 0 <= at < 256 ==> #[trigger] r.holds(k, at) == spec_lookup_bits_upto(
                l,
                extension,
                context,
                chain_context,
                l.subtable_count as int,
                k,
                at,
            ),
        i < l.subtable_count,
        spec_resolved_subtable(l, extension, i) matches Some((kind, t)) && spec_first_coverage_at(
            kind,
            t,
            context,
            chain_context,
        ) matches Some(a) && spec_offset_coverage(t, a) matches Some(c) && spec_coverage_index(
            c,
            glyph,
        ) is Some,
    ensures
        r.covers(glyph),
{
    let (kind, t) = spec_resolved_subtable(l, extension, i).unwrap();
    let a = spec_first_coverage_at(kind, t, context, chain_context).unwrap();
    let c = spec_offset_coverage(t, a).unwrap();
    assert forall|k: int| 0 <= k < 3 implies #[trigger] r.holds(k, slot(glyph, k)) by {
        lemma_slot_bound(glyph, k);
        if spec_cov_complete(c) {
            lemma_cov_hit_of_covered(c, glyph, k);
        }
        lemma_lookup_bits_grow(l, extension, context, chain_context, i + 1, l.subtable_count as int, k, slot(glyph, k));
    }
}

} // verus!