//! The extended kerning table `kerx`: its header, the header of each
//! subtable, which subtables can be read, and the pair kerning of format 0.

use vstd::prelude::*;
use crate::kern::pair_key;
use crate::ot::{spec_u16, spec_u32, read_u16_be, read_u32_be};

verus! {

/// The length of a subtable header.
pub const HEADER_LEN: usize = 12;

/// The most subtables that are read.
pub const MAX_SUBTABLES: u32 = 4096;

pub const COVERAGE_VERTICAL: u32 = 0x8000_0000;

pub const COVERAGE_CROSS_STREAM: u32 = 0x4000_0000;

pub const COVERAGE_VARIABLE: u32 = 0x2000_0000;

pub const COVERAGE_BACKWARDS: u32 = 0x1000_0000;

/// A subtable of a `kerx` table: its bytes (cut short by the end of the
/// table), its format, its flags and its count of variation tuples.
pub struct Subtable<'a> {
    pub data: &'a [u8],
    pub format: u8,
    pub vertical: bool,
    pub cross_stream: bool,
    pub variable: bool,
    pub backwards: bool,
    pub tuple_count: u32,
}

/// What a subtable header says, as plain values, with where the next
/// subtable starts.
pub struct KerxHead {
    pub data: Seq<u8>,
    pub format: u8,
    pub vertical: bool,
    pub cross_stream: bool,
    pub variable: bool,
    pub backwards: bool,
    pub tuple_count: u32,
    pub next: int,
}

impl<'a> Subtable<'a> {
    pub open spec fn head(&self, next: int) -> KerxHead {
        KerxHead {
            data: self.data@,
            format: self.format,
            vertical: self.vertical,
            cross_stream: self.cross_stream,
            variable: self.variable,
            backwards: self.backwards,
            tuple_count: self.tuple_count,
            next,
        }
    }

    pub open spec fn spec_readable(&self) -> bool {
        !self.variable && self.tuple_count == 0 && (self.format == 0 || self.format == 1 || self.format == 2
            || self.format == 4 || self.format == 6)
    }

    /// Whether the subtable can be used: not variable, with no tuples, and
    /// of a known format.
    pub fn readable(&self) -> (r: bool)
        ensures
            r == self.spec_readable(),
    {
        !self.variable && self.tuple_count == 0 && (self.format == 0 || self.format == 1 || self.format == 2
            || self.format == 4 || self.format == 6)
    }
}

pub open spec fn head_readable(h: KerxHead) -> bool {
    !h.variable && h.tuple_count == 0 && (h.format == 0 || h.format == 1 || h.format == 2 || h.format == 4
        || h.format == 6)
}

/// Where the subtables of a `kerx` table start and how many there are; a
/// version above 3 is not read.
pub open spec fn spec_subtables(t: Seq<u8>) -> Option<(usize, u32)> {
    match spec_u16(t, 0) {
        None => None,
        Some(version) => if version > 3 {
            None
        } else {
            match spec_u32(t, 4) {
                Some(count) => Some((8usize, count)),
                None => None,
            }
        },
    }
}

/// Reads the header of a `kerx` table.
pub fn subtables(table: &[u8]) -> (r: Option<(usize, u32)>)
    ensures
        r == spec_subtables(table@),
{
    let version: u16 = match read_u16_be(table, 0) {
        Some(v) => v,
        None => return None,
    };
    if version > 3 {
        return None;
    }
    match read_u32_be(table, 4) {
        Some(count) => Some((8, count)),
        None => None,
    }
}

/// The header of the subtable at `at`: its length (at least a header's),
/// coverage and tuple count; its bytes run to its end or the table's,
/// whichever comes first.
pub open spec fn spec_parse_subtable(t: Seq<u8>, at: int) -> Option<KerxHead> {
    match (spec_u32(t, at), spec_u32(t, at + 4), spec_u32(t, at + 8)) {
        (Some(length), Some(cov), Some(tuple_count)) => {
            let end = at + length;
            if length < HEADER_LEN || end > usize::MAX {
                None
            } else {
                Some(KerxHead {
                    data: t.subrange(at, if end < t.len() { end } else { t.len() as int }),
                    format: (cov & 0xFF) as u8,
                    vertical: cov & COVERAGE_VERTICAL != 0,
                    cross_stream: cov & COVERAGE_CROSS_STREAM != 0,
                    variable: cov & COVERAGE_VARIABLE != 0,
                    backwards: cov & COVERAGE_BACKWARDS != 0,
                    tuple_count,
                    next: end,
                })
            }
        },
        _ => None,
    }
}

/// Reads the header of the subtable at `at` and gives the subtable with
/// the offset of the one after it.
pub fn parse_subtable(table: &[u8], at: usize) -> (r: Option<(Subtable<'_>, usize)>)
    ensures
        match spec_parse_subtable(table@, at as int) {
            None => r is None,
            Some(h) => r matches Some((s, next)) && s.head(next as int) == h,
        },
{
    let n: usize = table.len();
    let length: u32 = match read_u32_be(table, at) {
        Some(v) => v,
        None => return None,
    };
    let cov: u32 = match read_u32_be(table, at + 4) {
        Some(v) => v,
        None => return None,
    };
    let tuple_count: u32 = match read_u32_be(table, at + 8) {
        Some(v) => v,
        None => return None,
    };
    if (length as usize) < HEADER_LEN {
        return None;
    }
    let end: usize = match at.checked_add(length as usize) {
        Some(e) => e,
        None => return None,
    };
    let stop: usize = if end < n { end } else { n };
    let sub = Subtable {
        data: slice_between(table, at, stop),
        format: (cov & 0xFF) as u8,
        vertical: cov & COVERAGE_VERTICAL != 0,
        cross_stream: cov & COVERAGE_CROSS_STREAM != 0,
        variable: cov & COVERAGE_VARIABLE != 0,
        backwards: cov & COVERAGE_BACKWARDS != 0,
        tuple_count,
    };
    Some((sub, end))
}

fn slice_between(d: &[u8], from: usize, to: usize) -> (r: &[u8])
    requires
        from <= to <= d@.len(),
    ensures
        r@ == d@.subrange(from as int, to as int),
{
    &d[from..to]
}

/// Whether, among the first `n` subtables from `at` on, a readable one
/// comes before a header that cannot be read.
pub open spec fn scan_readable(t: Seq<u8>, at: int, n: nat) -> bool
    decreases n,
{
    if n == 0 {
        false
    } else {
        match spec_parse_subtable(t, at) {
            None => false,
            Some(h) => if head_readable(h) {
                true
            } else {
                scan_readable(t, h.next, (n - 1) as nat)
            },
        }
    }
}

/// Whether a `kerx` table has a subtable that can be used, among the
/// first 4096.
pub fn is_usable(table: &[u8]) -> (r: bool)
    ensures
        r == match spec_subtables(table@) {
            None => false,
            Some((at, count)) => scan_readable(
                table@,
                at as int,
                if count < MAX_SUBTABLES {
                    count as nat
                } else {
                    MAX_SUBTABLES as nat
                },
            ),
        },
{
    let (start, count) = match subtables(table) {
        Some(v) => v,
        None => return false,
    };
    let limit: u32 = if count < MAX_SUBTABLES { count } else { MAX_SUBTABLES };
    let mut at: usize = start;
    let mut k: u32 = 0;
    while k < limit
        invariant
            k <= limit,
            spec_subtables(table@) == Some((start, count)),
            limit == (if count < MAX_SUBTABLES { count } else { MAX_SUBTABLES }),
            scan_readable(table@, start as int, limit as nat) == scan_readable(table@, at as int, (limit - k) as nat),
        decreases limit - k,
    {
        let (sub, next) = match parse_subtable(table, at) {
            Some(v) => v,
            None => return false,
        };
        if sub.readable() {
            return true;
        }
        at = next;
        k = k + 1;
    }
    false
}

/// The key of pair record `m` of a format-0 subtable.
pub open spec fn spec_pair_at(d: Seq<u8>, m: int) -> Option<u32> {
    spec_u32(d, 28 + m * 6)
}

/// The value of pair record `m`, zero where the data runs short.
pub open spec fn spec_pair_value(d: Seq<u8>, m: int) -> i32 {
    match spec_u16(d, 28 + m * 6 + 4) {
        Some(v) => v as i16 as i32,
        None => 0,
    }
}

/// The number of pair records searched: as many as the header counts, but
/// no more than the data holds.
pub open spec fn spec_pair_count(d: Seq<u8>) -> int {
    let fits = if d.len() < 28 {
        0
    } else {
        (d.len() - 28) / 6
    };
    match spec_u32(d, HEADER_LEN as int) {
        None => 0,
        Some(count) => if count < fits {
            count as int
        } else {
            fits
        },
    }
}

impl<'a> Subtable<'a> {
    /// The kerning of a pair in a format-0 subtable: a binary search over
    /// the pair records that the data holds.
    pub fn format0(&self, left: u16, right: u16) -> (r: i32)
        ensures
            r != 0 ==> exists|m: int|
                0 <= m < spec_pair_count(self.data@) && #[trigger] spec_pair_at(self.data@, m) == Some(
                    pair_key(left, right),
                ) && r == spec_pair_value(self.data@, m),
            (forall|a: int, b: int|
                0 <= a < b < spec_pair_count(self.data@) ==> spec_pair_at(self.data@, a).unwrap() < spec_pair_at(
                    self.data@,
                    b,
                ).unwrap()) ==> forall|m: int|
                0 <= m < spec_pair_count(self.data@) && #[trigger] spec_pair_at(self.data@, m) == Some(
                    pair_key(left, right),
                ) ==> r == spec_pair_value(self.data@, m),
    {
        let ghost d = self.data@;
        let ghost total = spec_pair_count(d);
        let raw: u32 = match read_u32_be(self.data, HEADER_LEN) {
            Some(c) => c,
            None => return 0,
        };
        let pairs: usize = HEADER_LEN + 16;
        let n: usize = self.data.len();
        let fits: usize = if n < pairs { 0 } else { (n - pairs) / 6 };
        assert(fits == 0 || fits * 6 + 28 <= n) by (nonlinear_arith)
            requires
                n < 28 ==> fits == 0,
                n >= 28 ==> fits == (n - 28) / 6,
        ;
        let count: usize = if (raw as usize) < fits { raw as usize } else { fits };
        assert(count == total);
        let want: u32 = left as u32 * 0x1_0000 + right as u32;
        assert(want == pair_key(left, right));
        let ghost sorted = forall|a: int, b: int|
            0 <= a < b < count ==> spec_pair_at(d, a).unwrap() < spec_pair_at(d, b).unwrap();
        let mut lo: usize = 0;
        let mut hi: usize = count;
        while lo < hi
            invariant
                lo <= hi <= count,
                count == total,
                total == spec_pair_count(d),
                d == self.data@,
                n == d.len(),
                pairs == 28,
                count <= fits,
                fits * 6 + 28 <= n || fits == 0,
                want == pair_key(left, right),
                sorted ==> forall|m: int| 0 <= m < count && #[trigger] spec_pair_at(d, m) == Some(want) ==> lo <= m < hi,
                sorted == (forall|a: int, b: int|
                    0 <= a < b < count ==> spec_pair_at(d, a).unwrap() < spec_pair_at(d, b).unwrap()),
            decreases hi - lo,
        {
            let mid: usize = lo + (hi - lo) / 2;
            assert(mid * 6 + 34 <= n);
            let at: usize = pairs + mid * 6;
            let pair: u32 = match read_u32_be(self.data, at) {
                Some(p) => p,
                None => return 0,
            };
            assert(spec_pair_at(d, mid as int) == Some(pair));
            if pair < want {
                proof {
                    if sorted {
                        assert forall|m: int| 0 <= m < count && #[trigger] spec_pair_at(d, m) == Some(want) implies mid
                            + 1 <= m < hi by {
                            if m < mid {
                                assert(spec_pair_at(d, m).unwrap() < spec_pair_at(d, mid as int).unwrap());
                            }
                        }
                    }
                }
                lo = mid + 1;
            } else if pair > want {
                proof {
                    if sorted {
                        assert forall|m: int| 0 <= m < count && #[trigger] spec_pair_at(d, m) == Some(want) implies lo
                            <= m < mid by {
                            if m > mid {
                                assert(spec_pair_at(d, mid as int).unwrap() < spec_pair_at(d, m).unwrap());
                            }
                        }
                    }
                }
                hi = mid;
            } else {
                let v: i32 = match read_u16_be(self.data, at + 4) {
                    Some(x) => x as i16 as i32,
                    None => 0,
                };
                assert(v == spec_pair_value(d, mid as int));
                assert(spec_pair_at(d, mid as int) == Some(pair_key(left, right)));
                proof {
                    if sorted {
                        assert forall|m: int| 0 <= m < count && #[trigger] spec_pair_at(d, m) == Some(want) implies v
                            == spec_pair_value(d, m) by {
                            if m < mid {
                                assert(spec_pair_at(d, m).unwrap() < spec_pair_at(d, mid as int).unwrap());
                            } else if m > mid {
                                assert(spec_pair_at(d, mid as int).unwrap() < spec_pair_at(d, m).unwrap());
                            }
                        }
                    }
                }
                return v;
            }
        }
        0
    }
}

} // verus!
