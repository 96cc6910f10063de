//! The `kern` table, in its TrueType and Apple forms: the list of
//! subtables, the header of each, the pair kerning of formats 0 and 2, and
//! how a kerning value moves the two glyphs of a pair.

use vstd::prelude::*;
use crate::buffer::{Buffer, GlyphPosition, HAS_GPOS_ATTACHMENT};
use crate::gpos::{offset_by, spec_offset_by, ATTACH_CURSIVE};
use crate::ot::{spec_u16, spec_u32, read_u16_be, read_u32_be};

verus! {

pub const COVERAGE_HORIZONTAL: u16 = 0x0001;

pub const COVERAGE_MINIMUM: u16 = 0x0002;

pub const COVERAGE_CROSS_STREAM: u16 = 0x0004;

/// Where the subtables of a `kern` table start, how many there are, and
/// whether the table has the Apple layout.
pub open spec fn spec_subtables(t: Seq<u8>) -> Option<(usize, u32, bool)> {
    match spec_u16(t, 0) {
        None => None,
        Some(version) => if version == 0 {
            match spec_u16(t, 2) {
                Some(count) => Some((4usize, count as u32, false)),
                None => None,
            }
        } else if version == 1 && spec_u16(t, 2) == Some(0u16) {
            match spec_u32(t, 4) {
                Some(count) => Some((8usize, count, true)),
                None => None,
            }
        } else {
            None
        },
    }
}

/// Reads the header of a `kern` table.
pub fn subtables(table: &[u8]) -> (r: Option<(usize, u32, bool)>)
    ensures
        r == spec_subtables(table@),
{
    let version: u16 = match read_u16_be(table, 0) {
        Some(v) => v,
        None => return None,
    };
    if version == 0 {
        match read_u16_be(table, 2) {
            Some(count) => Some((4, count as u32, false)),
            None => None,
        }
    } else if version == 1 && read_u16_be(table, 2) == Some(0u16) {
        match read_u32_be(table, 4) {
            Some(count) => Some((8, count, true)),
            None => None,
        }
    } else {
        None
    }
}

/// A subtable of a `kern` table: its bytes, where its body starts within
/// them, its format (`0xFF` for a subtable that is skipped), and its
/// direction.
pub struct Subtable<'a> {
    pub data: &'a [u8],
    pub body: usize,
    pub format: u8,
    pub horizontal: bool,
    pub cross_stream: bool,
}

/// What a subtable header says, as plain values: the subtable's bytes,
/// body, format, direction flags, and where the next subtable starts.
pub struct SubtableHead {
    pub data: Seq<u8>,
    pub body: int,
    pub format: u8,
    pub horizontal: bool,
    pub cross_stream: bool,
    pub next: int,
}

impl<'a> Subtable<'a> {
    pub open spec fn head(&self, next: int) -> SubtableHead {
        SubtableHead {
            data: self.data@,
            body: self.body as int,
            format: self.format,
            horizontal: self.horizontal,
            cross_stream: self.cross_stream,
            next,
        }
    }
}

pub open spec fn at_least(a: int, b: int) -> int {
    if a < b {
        b
    } else {
        a
    }
}

/// The header of the subtable at `at`, in the Apple layout (a 32-bit
/// length, then the coverage) or the TrueType one (a version, a 16-bit
/// length, then the coverage; a subtable for minimum values is skipped).
pub open spec fn spec_parse_subtable(t: Seq<u8>, at: int, apple: bool) -> Option<SubtableHead> {
    if apple {
        match (spec_u32(t, at), spec_u16(t, at + 4)) {
            (Some(length), Some(cov)) => {
                let end = at + at_least(length as int, 8);
                if end > t.len() {
                    None
                } else {
                    let flags = cov >> 8u16;
                    Some(SubtableHead {
                        data: t.subrange(at, end),
                        body: 8,
                        format: (cov & 0xFF) as u8,
                        horizontal: flags & 0x80 == 0,
                        cross_stream: flags & 0x40 != 0,
                        next: at + length,
                    })
                }
            },
            _ => None,
        }
    } else {
        match (spec_u16(t, at + 2), spec_u16(t, at + 4)) {
            (Some(length), Some(cov)) => {
                let end = at + at_least(length as int, 6);
                if cov & COVERAGE_MINIMUM != 0 && end > usize::MAX {
                    None
                } else if cov & COVERAGE_MINIMUM != 0 {
                    Some(SubtableHead {
                        data: Seq::empty(),
                        body: 0,
                        format: 0xFF,
                        horizontal: false,
                        cross_stream: false,
                        next: end,
                    })
                } else if end > t.len() {
                    None
                } else {
                    Some(SubtableHead {
                        data: t.subrange(at, end),
                        body: 6,
                        format: (cov >> 8u16) as u8,
                        horizontal: cov & COVERAGE_HORIZONTAL != 0,
                        cross_stream: cov & COVERAGE_CROSS_STREAM != 0,
                        next: at + length,
                    })
                }
            },
            _ => None,
        }
    }
}

/// Reads the header of the subtable at `at` and gives the subtable with
/// the offset of the one after it.
pub fn parse_subtable(table: &[u8], at: usize, apple: bool) -> (r: Option<(Subtable<'_>, usize)>)
    ensures
        match spec_parse_subtable(table@, at as int, apple) {
            None => r is None,
            Some(h) => r matches Some((s, next)) && s.head(next as int) == h,
        },
{
    let n: usize = table.len();
    if apple {
        let length: u32 = match read_u32_be(table, at) {
            Some(v) => v,
            None => return None,
        };
        let cov: u16 = match read_u16_be(table, at + 4) {
            Some(v) => v,
            None => return None,
        };
        let span: usize = if length < 8 { 8 } else { length as usize };
        let end: usize = match at.checked_add(span) {
            Some(e) => e,
            None => return None,
        };
        if end > n {
            return None;
        }
        let flags: u16 = cov >> 8u16;
        let sub = Subtable {
            data: slice_between(table, at, end),
            body: 8,
            format: (cov & 0xFF) as u8,
            horizontal: flags & 0x80 == 0,
            cross_stream: flags & 0x40 != 0,
        };
        Some((sub, at + length as usize))
    } else {
        let a2: usize = match at.checked_add(2) {
            Some(v) => v,
            None => return None,
        };
        let length: u16 = match read_u16_be(table, a2) {
            Some(v) => v,
            None => return None,
        };
        let cov: u16 = match read_u16_be(table, a2 + 2) {
            Some(v) => v,
            None => return None,
        };
        let span: usize = if length < 6 { 6 } else { length as usize };
        let end: usize = match at.checked_add(span) {
            Some(e) => e,
            None => return None,
        };
        if cov & COVERAGE_MINIMUM != 0 {
            let none: &[u8] = &[];
            assert(none@ =~= Seq::<u8>::empty());
            return Some((Subtable { data: none, body: 0, format: 0xFF, horizontal: false, cross_stream: false }, end));
        }
        if end > n {
            return None;
        }
        let sub = Subtable {
            data: slice_between(table, at, end),
            body: 6,
            format: (cov >> 8u16) as u8,
            horizontal: cov & COVERAGE_HORIZONTAL != 0,
            cross_stream: cov & COVERAGE_CROSS_STREAM != 0,
        };
        Some((sub, at + length as usize))
    }
}

fn slice_between(d: &[u8], from: usize, to: usize) -> (r: &[u8])
    requires
        from <= to <= d@.len(),
    ensures
        r@ == d@.subrange(from as int, to as int),
{
    &d[from..to]
}

/// Whether, among the first `n` subtables from `at` on, one is read before
/// the walk stops (at a header that cannot be read or that does not move
/// forward) that `want` picks out.
pub open spec fn scan_subtables(t: Seq<u8>, at: int, apple: bool, n: nat, want: spec_fn(SubtableHead) -> bool) -> bool
    decreases n,
{
    if n == 0 {
        false
    } else {
        match spec_parse_subtable(t, at, apple) {
            None => false,
            Some(h) => if h.next <= at {
                false
            } else if want(h) {
                true
            } else {
                scan_subtables(t, h.next, apple, (n - 1) as nat, want)
            },
        }
    }
}

/// Whether the table's subtables, read in order, reach one that `want`
/// picks out.
pub open spec fn table_has(t: Seq<u8>, want: spec_fn(SubtableHead) -> bool) -> bool {
    match spec_subtables(t) {
        None => false,
        Some((at, count, apple)) => scan_subtables(t, at as int, apple, count as nat, want),
    }
}

pub open spec fn is_cross_stream(h: SubtableHead) -> bool {
    h.format != 0xFF && h.cross_stream
}

pub open spec fn is_machine(h: SubtableHead) -> bool {
    h.format == 1
}

/// Walks the subtables of a `kern` table and tells whether one that
/// `want` picks out comes before the walk stops.
fn scan_table(table: &[u8], cross: bool) -> (r: bool)
    ensures
        r == table_has(table@, if cross { |h: SubtableHead| is_cross_stream(h) } else { |h: SubtableHead| is_machine(h) }),
{
    let ghost want = if cross { |h: SubtableHead| is_cross_stream(h) } else { |h: SubtableHead| is_machine(h) };
    let (start, count, apple) = match subtables(table) {
        Some(v) => v,
        None => return false,
    };
    let mut at: usize = start;
    let mut k: u32 = 0;
    while k < count
        invariant
            k <= count,
            (start, count, apple) == spec_subtables(table@).unwrap(),
            spec_subtables(table@) is Some,
            table_has(table@, want) == scan_subtables(table@, at as int, apple, (count - k) as nat, want),
            want == (if cross { |h: SubtableHead| is_cross_stream(h) } else { |h: SubtableHead| is_machine(h) }),
        decreases count - k,
    {
        let (sub, next) = match parse_subtable(table, at, apple) {
            Some(v) => v,
            None => return false,
        };
        if next <= at {
            return false;
        }
        let hit: bool = if cross {
            sub.format != 0xFF && sub.cross_stream
        } else {
            sub.format == 1
        };
        if hit {
            return true;
        }
        at = next;
        k = k + 1;
    }
    false
}

/// Whether the table has a subtable that kerns across the flow of text.
pub fn has_cross_stream(table: &[u8]) -> (r: bool)
    ensures
        r == table_has(table@, |h: SubtableHead| is_cross_stream(h)),
{
    scan_table(table, true)
}

/// Whether the table has a subtable of format 1, kerned by a state
/// machine.
pub fn has_machine_kerning(table: &[u8]) -> (r: bool)
    ensures
        r == table_has(table@, |h: SubtableHead| is_machine(h)),
{
    scan_table(table, false)
}

/// The key of a kerning pair: the left glyph in the high half, the right
/// glyph in the low half.
pub open spec fn pair_key(left: u16, right: u16) -> u32 {
    (left as int * 0x1_0000 + right as int) as u32
}

/// The key of pair record `m` of a format-0 subtable whose body starts at
/// `body`.
pub open spec fn spec_pair_at(d: Seq<u8>, body: int, m: int) -> Option<u32> {
    spec_u32(d, body + 8 + m * 6)
}

/// The kerning value of pair record `m`, zero where the data runs short.
pub open spec fn spec_pair_value(d: Seq<u8>, body: int, m: int) -> i32 {
    match spec_u16(d, body + 8 + m * 6 + 4) {
        Some(v) => v as i16 as i32,
        None => 0,
    }
}

/// What a binary search over the pair records of a format-0 subtable can
/// give: zero, or the value of a record with the pair's key; and, where the
/// records are all there and sorted by key, the value of the record with
/// the pair's key if there is one.
pub open spec fn format0_result(d: Seq<u8>, body: int, left: u16, right: u16, r: i32) -> bool {
    let key = pair_key(left, right);
    &&& spec_u16(d, body) is None ==> r == 0
    &&& r != 0 ==> exists|m: int|
        0 <= m < spec_u16(d, body).unwrap() && #[trigger] spec_pair_at(d, body, m) == Some(key) && r
            == spec_pair_value(d, body, m)
    &&& ({
        let count = spec_u16(d, body).unwrap();
        &&& spec_u16(d, body) is Some
        &&& forall|m: int| 0 <= m < count ==> #[trigger] spec_pair_at(d, body, m) is Some
        &&& forall|a: int, b: int|
            0 <= a < b < count ==> spec_pair_at(d, body, a).unwrap() < spec_pair_at(d, body, b).unwrap()
    }) ==> forall|m: int|
        0 <= m < spec_u16(d, body).unwrap() && #[trigger] spec_pair_at(d, body, m) == Some(key) ==> r
            == spec_pair_value(d, body, m)
}

/// The class of `glyph` in the class table at `off` of a format-2
/// subtable: zero outside the table's glyph range or where the data runs
/// short.
pub open spec fn spec_kern_class(d: Seq<u8>, off: int, glyph: u16) -> int {
    match (spec_u16(d, off), spec_u16(d, off + 2)) {
        (Some(first), Some(count)) => {
            let last = if first + count > 0xFFFF {
                0xFFFFint
            } else {
                first + count
            };
            if glyph < first || glyph >= last {
                0
            } else {
                match spec_u16(d, off + 4 + (glyph - first) * 2) {
                    Some(v) => v as int,
                    None => 0,
                }
            }
        },
        _ => 0,
    }
}

/// The kerning of a format-2 subtable: the left class (an offset into the
/// kerning array, which may not point before it) plus the right class
/// locate the value.
pub open spec fn spec_format2(d: Seq<u8>, body: int, left: u16, right: u16) -> i32 {
    match (spec_u16(d, body + 2), spec_u16(d, body + 4), spec_u16(d, body + 6)) {
        (Some(left_off), Some(right_off), Some(array_off)) => {
            let left_class = spec_kern_class(d, left_off as int, left);
            if left_class < array_off {
                0
            } else {
                match spec_u16(d, left_class + spec_kern_class(d, right_off as int, right)) {
                    Some(v) => v as i16 as i32,
                    None => 0,
                }
            }
        },
        _ => 0,
    }
}

fn read_i16_or_zero(d: &[u8], at: usize) -> (r: i32)
    ensures
        r == match spec_u16(d@, at as int) {
            Some(v) => v as i16 as i32,
            None => 0,
        },
{
    match read_u16_be(d, at) {
        Some(v) => v as i16 as i32,
        None => 0,
    }
}

fn kern_class(d: &[u8], off: usize, glyph: u16) -> (r: usize)
    requires
        off <= 0xFFFF,
    ensures
        r == spec_kern_class(d@, off as int, glyph),
{
    let first: u16 = match read_u16_be(d, off) {
        Some(v) => v,
        None => return 0,
    };
    let count: u16 = match read_u16_be(d, off + 2) {
        Some(v) => v,
        None => return 0,
    };
    if glyph < first || glyph >= first.saturating_add(count) {
        return 0;
    }
    let at: usize = off + 4 + (glyph - first) as usize * 2;
    match read_u16_be(d, at) {
        Some(v) => v as usize,
        None => 0,
    }
}

impl<'a> Subtable<'a> {
    /// The kerning of a pair in a format-0 subtable: a binary search over
    /// pair records sorted by key.
    pub fn format0(&self, left: u16, right: u16) -> (r: i32)
        requires
            self.body + 8 + 6 * 0x1_0000 <= usize::MAX,
        ensures
            format0_result(self.data@, self.body as int, left, right, r),
    {
        let ghost d = self.data@;
        let ghost body = self.body as int;
        let count: u16 = match read_u16_be(self.data, self.body) {
            Some(c) => c,
            None => return 0,
        };
        let want: u32 = left as u32 * 0x1_0000 + right as u32;
        assert(want == pair_key(left, right));
        let ghost sorted = (forall|m: int| 0 <= m < count ==> #[trigger] spec_pair_at(d, body, m) is Some)
            && (forall|a: int, b: int|
            0 <= a < b < count ==> spec_pair_at(d, body, a).unwrap() < spec_pair_at(d, body, b).unwrap());
        let pairs: usize = self.body + 8;
        let mut lo: u16 = 0;
        let mut hi: u16 = count;
        while lo < hi
            invariant
                lo <= hi <= count,
                d == self.data@,
                body == self.body,
                self.body + 8 + 6 * 0x1_0000 <= usize::MAX,
                pairs == self.body + 8,
                spec_u16(d, body) == Some(count),
                want == pair_key(left, right),
                sorted ==> forall|m: int|
                    0 <= m < count && #[trigger] spec_pair_at(d, body, m) == Some(want) ==> lo <= m < hi,
                sorted == ((forall|m: int| 0 <= m < count ==> #[trigger] spec_pair_at(d, body, m) is Some)
                    && (forall|a: int, b: int|
                    0 <= a < b < count ==> spec_pair_at(d, body, a).unwrap() < spec_pair_at(d, body, b).unwrap())),
            decreases hi - lo,
        {
            let mid: u16 = lo + (hi - lo) / 2;
            let at: usize = pairs + mid as usize * 6;
            let pair: u32 = match read_u32_be(self.data, at) {
                Some(p) => p,
                None => return 0,
            };
            assert(spec_pair_at(d, body, mid as int) == Some(pair));
            if pair < want {
                proof {
                    if sorted {
                        assert forall|m: int|
                            0 <= m < count && #[trigger] spec_pair_at(d, body, m) == Some(want) implies mid + 1 <= m < hi by {
                            if m < mid {
                                assert(spec_pair_at(d, body, m).unwrap() < spec_pair_at(d, body, mid as int).unwrap());
                            }
                        }
                    }
                }
                lo = mid + 1;
            } else if pair > want {
                proof {
                    if sorted {
                        assert forall|m: int|
                            0 <= m < count && #[trigger] spec_pair_at(d, body, m) == Some(want) implies lo <= m < mid by {
                            if m > mid {
                                assert(spec_pair_at(d, body, mid as int).unwrap() < spec_pair_at(d, body, m).unwrap());
                            }
                        }
                    }
                }
                hi = mid;
            } else {
                let v: i32 = read_i16_or_zero(self.data, at + 4);
                proof {
                    if sorted {
                        assert forall|m: int|
                            0 <= m < count && #[trigger] spec_pair_at(d, body, m) == Some(want) implies v
                                == spec_pair_value(d, body, m) by {
                            if m < mid {
                                assert(spec_pair_at(d, body, m).unwrap() < spec_pair_at(d, body, mid as int).unwrap());
                            } else if m > mid {
                                assert(spec_pair_at(d, body, mid as int).unwrap() < spec_pair_at(d, body, m).unwrap());
                            }
                        }
                    }
                }
                return v;
            }
        }
        0
    }

    /// The kerning of a pair in a format-2 subtable, through the class
    /// tables of both glyphs.
    pub fn format2(&self, left: u16, right: u16) -> (r: i32)
        requires
            self.body + 8 <= usize::MAX,
        ensures
            r == spec_format2(self.data@, self.body as int, left, right),
    {
        let left_off: u16 = match read_u16_be(self.data, self.body + 2) {
            Some(v) => v,
            None => return 0,
        };
        let right_off: u16 = match read_u16_be(self.data, self.body + 4) {
            Some(v) => v,
            None => return 0,
        };
        let array_off: u16 = match read_u16_be(self.data, self.body + 6) {
            Some(v) => v,
            None => return 0,
        };
        let left_class: usize = kern_class(self.data, left_off as usize, left);
        if left_class < array_off as usize {
            return 0;
        }
        let at: usize = left_class + kern_class(self.data, right_off as usize, right);
        read_i16_or_zero(self.data, at)
    }

    /// The kerning of a pair, by the subtable's format; zero for a format
    /// that has no pair table.
    pub fn kerning(&self, left: u16, right: u16) -> (r: i32)
        requires
            self.body + 8 + 6 * 0x1_0000 <= usize::MAX,
        ensures
            self.format == 0 ==> format0_result(self.data@, self.body as int, left, right, r),
            self.format == 2 ==> r == spec_format2(self.data@, self.body as int, left, right),
            self.format != 0 && self.format != 2 ==> r == 0,
    {
        match self.format {
            0 => self.format0(left, right),
            2 => self.format2(left, right),
            _ => 0,
        }
    }
}

/// The positions after kerning the pair `(i, j)` by `kern`. Across the
/// flow of text the value becomes the minor offset of `j`; along it, half
/// (rounded down) goes to the advance of `i` and the rest to the advance
/// and offset of `j`, each sum held within `i32`.
pub open spec fn spec_apply_pair(pos: Seq<GlyphPosition>, i: int, j: int, kern: i32, horizontal: bool, cross_stream: bool) -> Seq<GlyphPosition> {
    if cross_stream {
        if horizontal {
            pos.update(j, GlyphPosition { y_offset: kern, ..pos[j] })
        } else {
            pos.update(j, GlyphPosition { x_offset: kern, ..pos[j] })
        }
    } else {
        let first = kern >> 1i32;
        let second = kern - first;
        if horizontal {
            let p1 = pos.update(i, GlyphPosition { x_advance: spec_offset_by(pos[i].x_advance, first as int), ..pos[i] });
            p1.update(
                j,
                GlyphPosition {
                    x_advance: spec_offset_by(p1[j].x_advance, second),
                    x_offset: spec_offset_by(p1[j].x_offset, second),
                    ..p1[j]
                },
            )
        } else {
            let p1 = pos.update(i, GlyphPosition { y_advance: spec_offset_by(pos[i].y_advance, first as int), ..pos[i] });
            p1.update(
                j,
                GlyphPosition {
                    y_advance: spec_offset_by(p1[j].y_advance, second),
                    y_offset: spec_offset_by(p1[j].y_offset, second),
                    ..p1[j]
                },
            )
        }
    }
}

/// Kerns the pair of glyphs `i` and `j` by `kern`; a cross-stream value
/// also marks the buffer as having attachments.
pub fn apply_pair(buffer: &mut Buffer, i: usize, j: usize, kern: i32, horizontal: bool, cross_stream: bool)
    requires
        i < old(buffer).pos@.len(),
        j < old(buffer).pos@.len(),
    ensures
        final(buffer).pos@ == spec_apply_pair(old(buffer).pos@, i as int, j as int, kern, horizontal, cross_stream),
        final(buffer).scratch_flags == if cross_stream {
            old(buffer).scratch_flags | HAS_GPOS_ATTACHMENT
        } else {
            old(buffer).scratch_flags
        },
        *final(buffer) == (Buffer { pos: final(buffer).pos, scratch_flags: final(buffer).scratch_flags, ..*old(buffer) }),
{
    let mut pos: Vec<GlyphPosition> = Vec::new();
    core::mem::swap(&mut pos, &mut buffer.pos);
    if cross_stream {
        let mut q: GlyphPosition = pos[j];
        if horizontal {
            q.y_offset = kern;
        } else {
            q.x_offset = kern;
        }
        pos.set(j, q);
        core::mem::swap(&mut pos, &mut buffer.pos);
        buffer.scratch_flags = buffer.scratch_flags | HAS_GPOS_ATTACHMENT;
        return;
    }
    let first: i32 = kern >> 1i32;
    assert(kern as i64 - (kern >> 1i32) as i64 >= -0x8000_0000i64 && kern as i64 - (kern >> 1i32) as i64
        <= 0x7FFF_FFFFi64) by (bit_vector);
    let second: i32 = kern - first;
    kern_along(&mut pos, i, j, first, second, horizontal);
    core::mem::swap(&mut pos, &mut buffer.pos);
}

/// Moves the advance of `i` by `first` and the advance and offset of `j`
/// by `second`, along the flow of text.
fn kern_along(pos: &mut Vec<GlyphPosition>, i: usize, j: usize, first: i32, second: i32, horizontal: bool)
    requires
        i < old(pos)@.len(),
        j < old(pos)@.len(),
    ensures
        ({
            let p = old(pos)@;
            if horizontal {
                let p1 = p.update(i as int, GlyphPosition { x_advance: spec_offset_by(p[i as int].x_advance, first as int), ..p[i as int] });
                final(pos)@ == p1.update(
                    j as int,
                    GlyphPosition {
                        x_advance: spec_offset_by(p1[j as int].x_advance, second as int),
                        x_offset: spec_offset_by(p1[j as int].x_offset, second as int),
                        ..p1[j as int]
                    },
                )
            } else {
                let p1 = p.update(i as int, GlyphPosition { y_advance: spec_offset_by(p[i as int].y_advance, first as int), ..p[i as int] });
                final(pos)@ == p1.update(
                    j as int,
                    GlyphPosition {
                        y_advance: spec_offset_by(p1[j as int].y_advance, second as int),
                        y_offset: spec_offset_by(p1[j as int].y_offset, second as int),
                        ..p1[j as int]
                    },
                )
            }
        }),
{
    let mut p: GlyphPosition = pos[i];
    if horizontal {
        offset_by(&mut p.x_advance, first as i128);
    } else {
        offset_by(&mut p.y_advance, first as i128);
    }
    pos.set(i, p);
    let mut q: GlyphPosition = pos[j];
    if horizontal {
        offset_by(&mut q.x_advance, second as i128);
        offset_by(&mut q.x_offset, second as i128);
    } else {
        offset_by(&mut q.y_advance, second as i128);
        offset_by(&mut q.y_offset, second as i128);
    }
    pos.set(j, q);
}

/// Before cross-stream kerning, hangs every glyph from the one before it
/// in the direction of text.
pub fn chain_for_cross_stream(buffer: &mut Buffer)
    requires
        old(buffer).len <= old(buffer).pos@.len(),
    ensures
        final(buffer).pos@.len() == old(buffer).pos@.len(),
        forall|k: int|
            0 <= k < old(buffer).len ==> #[trigger] final(buffer).pos@[k] == (GlyphPosition {
                attach_type: ATTACH_CURSIVE,
                attach_chain: if old(buffer).direction.spec_is_backward() {
                    1i16
                } else {
                    -1i16
                },
                ..old(buffer).pos@[k]
            }),
        forall|k: int|
            old(buffer).len <= k < old(buffer).pos@.len() ==> #[trigger] final(buffer).pos@[k] == old(buffer).pos@[k],
        *final(buffer) == (Buffer { pos: final(buffer).pos, ..*old(buffer) }),
{
    let back: bool = buffer.direction.is_backward();
    let chain: i16 = if back { 1 } else { -1 };
    let mut pos: Vec<GlyphPosition> = Vec::new();
    core::mem::swap(&mut pos, &mut buffer.pos);
    let ghost before = pos@;
    let len: usize = buffer.len;
    let mut k: usize = 0;
    while k < len
        invariant
            k <= len <= pos@.len(),
            pos@.len() == before.len(),
            forall|m: int|
                0 <= m < k ==> #[trigger] pos@[m] == (GlyphPosition {
                    attach_type: ATTACH_CURSIVE,
                    attach_chain: chain,
                    ..before[m]
                }),
            forall|m: int| k <= m < pos@.len() ==> #[trigger] pos@[m] == before[m],
        decreases len - k,
    {
        let mut p: GlyphPosition = pos[k];
        p.attach_type = ATTACH_CURSIVE;
        p.attach_chain = chain;
        pos.set(k, p);
        k = k + 1;
    }
    core::mem::swap(&mut pos, &mut buffer.pos);
}

} // verus!
