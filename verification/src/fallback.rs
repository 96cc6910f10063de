//! Fallback mark positioning, for fonts without GPOS mark attachment: the
//! combining classes that place marks around their base, and the advances
//! that marks give up.

use vstd::prelude::*;
use crate::buffer::{flag_or_keep, Buffer, Direction, GlyphInfo, GlyphPosition, UNSAFE_TO_BREAK, UNSAFE_TO_CONCAT};
use crate::gpos::{offset_by, spec_offset_by};

verus! {

pub const ATTACHED_BELOW_LEFT: u8 = 200;

pub const ATTACHED_BELOW: u8 = 202;

pub const ATTACHED_ABOVE: u8 = 214;

pub const ATTACHED_ABOVE_RIGHT: u8 = 216;

pub const BELOW_LEFT: u8 = 218;

pub const BELOW: u8 = 220;

pub const BELOW_RIGHT: u8 = 222;

pub const ABOVE_LEFT: u8 = 228;

pub const ABOVE: u8 = 230;

pub const ABOVE_RIGHT: u8 = 232;

pub const DOUBLE_BELOW: u8 = 233;

pub const DOUBLE_ABOVE: u8 = 234;

/// The class of a Thai or Lao mark that has none of its own, or whose class
/// is Thai phinthu.
pub open spec fn thai_lao_class(u: u32, class: u8) -> u8 {
    if u & !0xFFu32 != 0x0E00 {
        class
    } else if class == 0 {
        if u == 0x0E31 || (0x0E34 <= u <= 0x0E37) || u == 0x0E47 || (0x0E4C <= u <= 0x0E4E) {
            ABOVE_RIGHT
        } else if u == 0x0EB1 || (0x0EB4 <= u <= 0x0EB7) || u == 0x0EBB || u == 0x0ECC || u == 0x0ECD {
            ABOVE
        } else if u == 0x0EBC {
            BELOW
        } else {
            class
        }
    } else if u == 0x0E3A {
        BELOW_RIGHT
    } else {
        class
    }
}

/// The position class that the fallback places a mark of combining class
/// `class` by: the script-specific classes of Hebrew, Arabic, Syriac, Thai,
/// Lao and Tibetan turn into the positional classes they stand for.
pub open spec fn spec_recategorized(u: u32, class: u8) -> u8 {
    if class >= 200 {
        class
    } else {
        let c = thai_lao_class(u, class);
        if 15 <= c <= 25 {
            BELOW
        } else if c == 13 {
            ATTACHED_ABOVE
        } else if c == 10 {
            ABOVE_RIGHT
        } else if c == 11 || c == 14 {
            ABOVE_LEFT
        } else if c == 26 {
            ABOVE
        } else if (27 <= c <= 29) || c == 31 || c == 32 || (34 <= c <= 36) {
            ABOVE
        } else if c == 30 || c == 33 {
            BELOW
        } else if c == 3 {
            BELOW_RIGHT
        } else if c == 107 {
            ABOVE_RIGHT
        } else if c == 118 {
            BELOW
        } else if c == 122 {
            ABOVE
        } else if c == 129 {
            BELOW
        } else if c == 132 {
            ABOVE
        } else if c == 131 {
            BELOW
        } else {
            c
        }
    }
}

/// The position class for a mark of character `u` and combining class
/// `class`.
pub fn recategorize_combining_class(u: u32, class: u8) -> (r: u8)
    ensures
        r == spec_recategorized(u, class),
{
    if class >= 200 {
        return class;
    }
    let mut class: u8 = class;
    if u & !0xFF == 0x0E00 {
        if class == 0 {
            if u == 0x0E31 || (0x0E34 <= u && u <= 0x0E37) || u == 0x0E47 || (0x0E4C <= u && u <= 0x0E4E) {
                class = ABOVE_RIGHT;
            } else if u == 0x0EB1 || (0x0EB4 <= u && u <= 0x0EB7) || u == 0x0EBB || u == 0x0ECC || u == 0x0ECD {
                class = ABOVE;
            } else if u == 0x0EBC {
                class = BELOW;
            }
        } else if u == 0x0E3A {
            class = BELOW_RIGHT;
        }
    }
    if 15 <= class && class <= 25 {
        BELOW
    } else if class == 13 {
        ATTACHED_ABOVE
    } else if class == 10 {
        ABOVE_RIGHT
    } else if class == 11 || class == 14 {
        ABOVE_LEFT
    } else if class == 26 {
        ABOVE
    } else if (27 <= class && class <= 29) || class == 31 || class == 32 || (34 <= class && class <= 36) {
        ABOVE
    } else if class == 30 || class == 33 {
        BELOW
    } else if class == 3 {
        BELOW_RIGHT
    } else if class == 107 {
        ABOVE_RIGHT
    } else if class == 118 {
        BELOW
    } else if class == 122 {
        ABOVE
    } else if class == 129 {
        BELOW
    } else if class == 132 {
        ABOVE
    } else if class == 131 {
        BELOW
    } else {
        class
    }
}

/// Whether a glyph's general category is nonspacing mark.
pub open spec fn is_nonspacing(g: GlyphInfo) -> bool {
    g.spec_general_category() == 12
}

/// A nonspacing mark with its combining class replaced by its position
/// class.
pub open spec fn recategorized(g: GlyphInfo) -> GlyphInfo {
    let ccc = if g.spec_is_unicode_mark() {
        (g.unicode_props >> 8u16) as u8
    } else {
        0
    };
    GlyphInfo {
        unicode_props: (g.unicode_props & 0xFFu16) | ((spec_recategorized(g.id, ccc) as u16) << 8u16),
        ..g
    }
}

/// Gives every nonspacing mark its position class in place of its
/// combining class.
pub fn recategorize_marks(buffer: &mut Buffer)
    requires
        old(buffer).wf(),
    ensures
        final(buffer).info@.len() == old(buffer).info@.len(),
        forall|i: int|
            0 <= i < old(buffer).info@.len() ==> #[trigger] final(buffer).info@[i] == if i < old(buffer).len
                && is_nonspacing(old(buffer).info@[i]) {
                recategorized(old(buffer).info@[i])
            } else {
                old(buffer).info@[i]
            },
        *final(buffer) == (Buffer { info: final(buffer).info, ..*old(buffer) }),
{
    let mut info: Vec<GlyphInfo> = Vec::new();
    core::mem::swap(&mut info, &mut buffer.info);
    let ghost info0 = info@;
    let len: usize = buffer.len;
    let mut i: usize = 0;
    while i < len
        invariant
            i <= len <= info0.len(),
            info@.len() == info0.len(),
            forall|k: int|
                0 <= k < info@.len() ==> #[trigger] info@[k] == if k < i && is_nonspacing(info0[k]) {
                    recategorized(info0[k])
                } else {
                    info0[k]
                },
        decreases len - i,
    {
        let mut g: GlyphInfo = info[i];
        if g.general_category() == 12 {
            let class: u8 = recategorize_combining_class(g.id, g.modified_combining_class());
            g.set_modified_combining_class(class);
            info.set(i, g);
        }
        i = i + 1;
    }
    core::mem::swap(&mut info, &mut buffer.info);
}

/// A nonspacing mark's position once its advances are given up, its
/// offsets moved back by them (held within `i32`) when `adjust_offsets`.
pub open spec fn advance_zeroed(p: GlyphPosition, adjust_offsets: bool) -> GlyphPosition {
    GlyphPosition {
        x_advance: 0,
        y_advance: 0,
        x_offset: if adjust_offsets {
            spec_offset_by(p.x_offset, -p.x_advance)
        } else {
            p.x_offset
        },
        y_offset: if adjust_offsets {
            spec_offset_by(p.y_offset, -p.y_advance)
        } else {
            p.y_offset
        },
        ..p
    }
}

/// Takes the advances from the nonspacing marks of `start .. end`.
pub fn zero_mark_advances(buffer: &mut Buffer, start: usize, end: usize, adjust_offsets: bool)
    requires
        old(buffer).wf(),
        start <= end <= old(buffer).info@.len(),
    ensures
        final(buffer).pos@.len() == old(buffer).pos@.len(),
        forall|i: int|
            0 <= i < old(buffer).pos@.len() ==> #[trigger] final(buffer).pos@[i] == if start <= i < end
                && is_nonspacing(old(buffer).info@[i]) {
                advance_zeroed(old(buffer).pos@[i], adjust_offsets)
            } else {
                old(buffer).pos@[i]
            },
        *final(buffer) == (Buffer { pos: final(buffer).pos, ..*old(buffer) }),
{
    let mut pos: Vec<GlyphPosition> = Vec::new();
    core::mem::swap(&mut pos, &mut buffer.pos);
    let ghost pos0 = pos@;
    let mut i: usize = start;
    while i < end
        invariant
            start <= i <= end <= buffer.info@.len() <= pos0.len(),
            pos@.len() == pos0.len(),
            forall|k: int|
                0 <= k < pos@.len() ==> #[trigger] pos@[k] == if start <= k < i && is_nonspacing(buffer.info@[k]) {
                    advance_zeroed(pos0[k], adjust_offsets)
                } else {
                    pos0[k]
                },
        decreases end - i,
    {
        if buffer.info[i].general_category() == 12 {
            let mut p: GlyphPosition = pos[i];
            if adjust_offsets {
                offset_by(&mut p.x_offset, -(p.x_advance as i128));
                offset_by(&mut p.y_offset, -(p.y_advance as i128));
            }
            p.x_advance = 0;
            p.y_advance = 0;
            pos.set(i, p);
        }
        i = i + 1;
    }
    core::mem::swap(&mut pos, &mut buffer.pos);
}

/// The ink box of a glyph: where it starts from the origin, its top, its
/// width, and its height (negative, downwards).
#[derive(Clone, Copy, PartialEq, Eq, Structural, Debug)]
pub struct GlyphExtents {
    pub x_bearing: i32,
    pub y_bearing: i32,
    pub width: i32,
    pub height: i32,
}

impl GlyphExtents {
    /// Whether every field lies within `limit` of zero.
    pub open spec fn within(self, limit: int) -> bool {
        &&& -limit <= self.x_bearing <= limit
        &&& -limit <= self.y_bearing <= limit
        &&& -limit <= self.width <= limit
        &&& -limit <= self.height <= limit
    }
}

/// How far from zero a font's metrics may lie: font units are 16-bit.
pub const METRIC_LIMIT: i32 = 0x1_0000;


/// What fallback positioning reads of a font: its units per em and, by
/// glyph id, the glyph's ink extents (where it has any) and its advances.
pub struct FaceMetrics {
    pub units_per_em: u16,
    pub extents: Vec<Option<GlyphExtents>>,
    pub h_advances: Vec<i32>,
    pub v_advances: Vec<i32>,
}

impl FaceMetrics {
    /// Every metric is a font-unit value.
    pub open spec fn wf(&self) -> bool {
        &&& forall|g: int| 0 <= g < self.extents@.len() ==> (#[trigger] self.extents@[g] matches Some(e) ==> e.within(
            METRIC_LIMIT as int,
        ))
        &&& forall|g: int| 0 <= g < self.h_advances@.len() ==> -METRIC_LIMIT <= #[trigger] self.h_advances@[g] <= METRIC_LIMIT
        &&& forall|g: int| 0 <= g < self.v_advances@.len() ==> -METRIC_LIMIT <= #[trigger] self.v_advances@[g] <= METRIC_LIMIT
    }

    pub open spec fn spec_glyph_extents(&self, glyph: u16) -> Option<GlyphExtents> {
        if glyph < self.extents@.len() {
            self.extents@[glyph as int]
        } else {
            None
        }
    }

    pub open spec fn spec_h_advance(&self, glyph: u16) -> i32 {
        if glyph < self.h_advances@.len() {
            self.h_advances@[glyph as int]
        } else {
            0
        }
    }

    pub open spec fn spec_v_advance(&self, glyph: u16) -> i32 {
        if glyph < self.v_advances@.len() {
            self.v_advances@[glyph as int]
        } else {
            0
        }
    }

    /// The ink extents of `glyph`, if the font has any for it.
    pub fn glyph_extents(&self, glyph: u16) -> (r: Option<GlyphExtents>)
        requires
            self.wf(),
        ensures
            r == self.spec_glyph_extents(glyph),
            r matches Some(e) ==> e.within(METRIC_LIMIT as int),
    {
        if (glyph as usize) < self.extents.len() {
            self.extents[glyph as usize]
        } else {
            None
        }
    }

    /// The horizontal advance of `glyph`; zero for a glyph it does not have.
    pub fn glyph_h_advance(&self, glyph: u16) -> (r: i32)
        requires
            self.wf(),
        ensures
            r == self.spec_h_advance(glyph),
            -METRIC_LIMIT <= r <= METRIC_LIMIT,
    {
        if (glyph as usize) < self.h_advances.len() {
            self.h_advances[glyph as usize]
        } else {
            0
        }
    }

    /// The vertical advance of `glyph`; zero for a glyph it does not have.
    pub fn glyph_v_advance(&self, glyph: u16) -> (r: i32)
        requires
            self.wf(),
        ensures
            r == self.spec_v_advance(glyph),
            -METRIC_LIMIT <= r <= METRIC_LIMIT,
    {
        if (glyph as usize) < self.v_advances.len() {
            self.v_advances[glyph as usize]
        } else {
            0
        }
    }
}

/// Integer division rounding towards zero, as `/` does on machine integers.
pub open spec fn tdiv(a: int, b: int) -> int {
    if a >= 0 {
        a / b
    } else {
        -((-a) / b)
    }
}

pub open spec fn is_attached_class(class: u8) -> bool {
    class == ATTACHED_BELOW_LEFT || class == ATTACHED_BELOW || class == ATTACHED_ABOVE || class == ATTACHED_ABOVE_RIGHT
}

pub open spec fn is_below_class(class: u8) -> bool {
    class == DOUBLE_BELOW || class == BELOW_LEFT || class == BELOW || class == BELOW_RIGHT || class
        == ATTACHED_BELOW_LEFT || class == ATTACHED_BELOW
}

pub open spec fn is_above_class(class: u8) -> bool {
    class == DOUBLE_ABOVE || class == ABOVE_LEFT || class == ABOVE || class == ABOVE_RIGHT || class == ATTACHED_ABOVE
        || class == ATTACHED_ABOVE_RIGHT
}

/// Where a mark of class `class` goes across its base: a double mark
/// centred on the base's trailing edge, left marks at the base's left,
/// right marks at its right, others centred.
pub open spec fn spec_mark_x(direction: Direction, base: GlyphExtents, mark: GlyphExtents, class: u8) -> int {
    if (class == DOUBLE_BELOW || class == DOUBLE_ABOVE) && direction.spec_is_horizontal() {
        let edge: int = if direction.spec_is_backward() {
            0
        } else {
            base.width as int
        };
        base.x_bearing + edge - tdiv(mark.width as int, 2) - mark.x_bearing
    } else if class == ATTACHED_BELOW_LEFT || class == BELOW_LEFT || class == ABOVE_LEFT {
        base.x_bearing - mark.x_bearing
    } else if class == ATTACHED_ABOVE_RIGHT || class == BELOW_RIGHT || class == ABOVE_RIGHT {
        base.x_bearing + base.width - mark.width - mark.x_bearing
    } else {
        base.x_bearing + tdiv(base.width - mark.width, 2) - mark.x_bearing
    }
}

/// How far a mark goes up or down from its base, and the extents that the
/// next mark of the class stacks against: below marks hang under the base
/// (a gap apart unless attached), above marks sit over it, and the
/// extents grow by the mark.
pub open spec fn spec_mark_y(base: GlyphExtents, mark: GlyphExtents, class: u8, gap: int) -> (int, int, int) {
    let attached = is_attached_class(class);
    if is_below_class(class) {
        let h1: int = if !attached {
            base.height - gap
        } else {
            base.height as int
        };
        let y: int = base.y_bearing + h1 - mark.y_bearing;
        if (gap > 0) == (y > 0) {
            (0, base.y_bearing as int, h1 - y + mark.height)
        } else {
            (y, base.y_bearing as int, h1 + mark.height)
        }
    } else if is_above_class(class) {
        let yb1: int = if !attached {
            base.y_bearing + gap
        } else {
            base.y_bearing as int
        };
        let h1: int = if !attached {
            base.height - gap
        } else {
            base.height as int
        };
        let y: int = yb1 - (mark.y_bearing + mark.height);
        if (gap > 0) != (y > 0) {
            let c = tdiv(-y, 2);
            (y + c, yb1 + c - mark.height, h1 - c + mark.height)
        } else {
            (y, yb1 - mark.height, h1 + mark.height)
        }
    } else {
        (0, base.y_bearing as int, base.height as int)
    }
}

/// Whether placing a mark of class `class` against `base` keeps every sum
/// and difference that the placement computes within machine integers.
pub open spec fn mark_fits(direction: Direction, base: GlyphExtents, mark: GlyphExtents, class: u8, gap: int) -> bool {
    let xb = base.x_bearing as int;
    let w = base.width as int;
    let yb = base.y_bearing as int;
    let h = base.height as int;
    let mxb = mark.x_bearing as int;
    let mw = mark.width as int;
    let myb = mark.y_bearing as int;
    let mh = mark.height as int;
    let x_ok = if (class == DOUBLE_BELOW || class == DOUBLE_ABOVE) && direction.spec_is_horizontal() {
        let edge: int = if direction.spec_is_backward() {
            0
        } else {
            w
        };
        fits(xb + edge) && fits(xb + edge - tdiv(mw, 2)) && fits(xb + edge - tdiv(mw, 2) - mxb)
    } else if class == ATTACHED_BELOW_LEFT || class == BELOW_LEFT || class == ABOVE_LEFT {
        fits(xb - mxb)
    } else if class == ATTACHED_ABOVE_RIGHT || class == BELOW_RIGHT || class == ABOVE_RIGHT {
        fits(xb + w) && fits(xb + w - mw) && fits(xb + w - mw - mxb)
    } else {
        fits(w - mw) && fits(xb + tdiv(w - mw, 2)) && fits(xb + tdiv(w - mw, 2) - mxb)
    };
    let attached = is_attached_class(class);
    let y_ok = if is_below_class(class) {
        let h1: int = if !attached {
            h - gap
        } else {
            h
        };
        let y: int = yb + h1 - myb;
        fits(h1) && fits(yb + h1) && fits(y) && if (gap > 0) == (y > 0) {
            fits(h1 - y) && fits(h1 - y + mh)
        } else {
            fits(h1 + mh)
        }
    } else if is_above_class(class) {
        let yb1: int = if !attached {
            yb + gap
        } else {
            yb
        };
        let h1: int = if !attached {
            h - gap
        } else {
            h
        };
        let y: int = yb1 - (myb + mh);
        fits(yb1) && fits(h1) && fits(myb + mh) && fits(y) && if (gap > 0) != (y > 0) {
            let c = tdiv(-y, 2);
            fits(-y) && fits(yb1 + c) && fits(h1 - c) && fits(y + c) && fits(yb1 + c - mh) && fits(h1 - c + mh)
        } else {
            fits(yb1 - mh) && fits(h1 + mh)
        }
    } else {
        true
    };
    x_ok && y_ok
}

/// Places a mark of class `class` against the extents `base` that it
/// stacks on, and grows them by it; a glyph without extents stays where it
/// is.
pub fn position_mark(
    face: &FaceMetrics,
    direction: Direction,
    glyph: u16,
    pos: &mut GlyphPosition,
    base: &mut GlyphExtents,
    class: u8,
)
    requires
        face.wf(),
        face.spec_glyph_extents(glyph) matches Some(mark) ==> mark_fits(
            direction,
            *old(base),
            mark,
            class,
            (face.units_per_em / 16) as int,
        ),
    ensures
        match face.spec_glyph_extents(glyph) {
            None => *final(pos) == *old(pos) && *final(base) == *old(base),
            Some(mark) => {
                let (y, yb, h) = spec_mark_y(*old(base), mark, class, (face.units_per_em / 16) as int);
                &&& *final(pos) == GlyphPosition {
                    x_offset: spec_mark_x(direction, *old(base), mark, class) as i32,
                    y_offset: y as i32,
                    ..*old(pos)
                }
                &&& *final(base) == GlyphExtents { y_bearing: yb as i32, height: h as i32, ..*old(base) }
                &&& spec_mark_x(direction, *old(base), mark, class) == final(pos).x_offset
                &&& y == final(pos).y_offset
                &&& yb == final(base).y_bearing
                &&& h == final(base).height
            },
        },
{
    let mark: GlyphExtents = match face.glyph_extents(glyph) {
        Some(e) => e,
        None => return ,
    };
    let y_gap: i32 = (face.units_per_em / 16) as i32;
    pos.x_offset = 0;
    pos.y_offset = 0;
    if (class == DOUBLE_BELOW || class == DOUBLE_ABOVE) && direction.is_horizontal() {
        let edge: i32 = if direction.is_backward() {
            0
        } else {
            base.width
        };
        pos.x_offset = pos.x_offset + (base.x_bearing + edge - mark.width / 2 - mark.x_bearing);
    } else if class == ATTACHED_BELOW_LEFT || class == BELOW_LEFT || class == ABOVE_LEFT {
        pos.x_offset = pos.x_offset + (base.x_bearing - mark.x_bearing);
    } else if class == ATTACHED_ABOVE_RIGHT || class == BELOW_RIGHT || class == ABOVE_RIGHT {
        pos.x_offset = pos.x_offset + (base.x_bearing + base.width - mark.width - mark.x_bearing);
    } else {
        pos.x_offset = pos.x_offset + (base.x_bearing + (base.width - mark.width) / 2 - mark.x_bearing);
    }
    let attached: bool = class == ATTACHED_BELOW_LEFT || class == ATTACHED_BELOW || class == ATTACHED_ABOVE || class
        == ATTACHED_ABOVE_RIGHT;
    if class == DOUBLE_BELOW || class == BELOW_LEFT || class == BELOW || class == BELOW_RIGHT || class
        == ATTACHED_BELOW_LEFT || class == ATTACHED_BELOW {
        if !attached {
            base.height = base.height - y_gap;
        }
        pos.y_offset = base.y_bearing + base.height - mark.y_bearing;
        if (y_gap > 0) == (pos.y_offset > 0) {
            base.height = base.height - pos.y_offset;
            pos.y_offset = 0;
        }
        base.height = base.height + mark.height;
    } else if class == DOUBLE_ABOVE || class == ABOVE_LEFT || class == ABOVE || class == ABOVE_RIGHT || class
        == ATTACHED_ABOVE || class == ATTACHED_ABOVE_RIGHT {
        if !attached {
            base.y_bearing = base.y_bearing + y_gap;
            base.height = base.height - y_gap;
        }
        pos.y_offset = base.y_bearing - (mark.y_bearing + mark.height);
        if (y_gap > 0) != (pos.y_offset > 0) {
            let correction: i32 = -pos.y_offset / 2;
            base.y_bearing = base.y_bearing + correction;
            base.height = base.height - correction;
            pos.y_offset = pos.y_offset + correction;
        }
        base.y_bearing = base.y_bearing - mark.height;
        base.height = base.height + mark.height;
    }
}

/// The modified combining class of a glyph: that of a mark, zero for
/// anything else.
pub open spec fn spec_mcc(g: GlyphInfo) -> u8 {
    if g.spec_is_unicode_mark() {
        (g.unicode_props >> 8u16) as u8
    } else {
        0
    }
}

/// Whether a value fits an `i32`.
pub open spec fn fits(v: int) -> bool {
    i32::MIN <= v <= i32::MAX
}

/// What placing marks around one base carries from mark to mark: how far
/// the marks must move back to reach the base, the ligature component and
/// class of the last mark, and the extents of that component and of the
/// marks of that class stacked so far.
#[derive(Clone, Copy, PartialEq, Eq, Structural, Debug)]
pub struct MarkRun {
    pub x_offset: i32,
    pub y_offset: i32,
    pub last_component: i32,
    pub last_class: u8,
    pub component: GlyphExtents,
    pub cluster: GlyphExtents,
}

/// The direction that ligature components are counted in: the plan's
/// when horizontal, else that of the script, else left to right.
pub open spec fn counting_direction(plan_direction: Direction, script_direction: Option<Direction>) -> Direction {
    if plan_direction.spec_is_horizontal() {
        plan_direction
    } else {
        match script_direction {
            Some(d) => d,
            None => Direction::LeftToRight,
        }
    }
}

/// The extents of the base glyph that marks are placed against: its ink
/// top and height, moved by its own offset, across its whole advance.
pub open spec fn base_mark_extents(face: FaceMetrics, glyph: u16, e: GlyphExtents, y_offset: i32) -> GlyphExtents {
    GlyphExtents { x_bearing: 0, y_bearing: (e.y_bearing + y_offset) as i32, width: face.spec_h_advance(glyph), ..e }
}

/// The share of the base's extents that ligature component `c` of `num`
/// takes, counted in direction `hdir`.
pub open spec fn component_of(base: GlyphExtents, hdir: Direction, c: int, num: int) -> GlyphExtents {
    let nth = if hdir == Direction::LeftToRight {
        c
    } else {
        num - 1 - c
    };
    GlyphExtents {
        x_bearing: (base.x_bearing + tdiv(nth * base.width, num)) as i32,
        width: tdiv(base.width as int, num) as i32,
        ..base
    }
}

/// The ligature component that a mark belongs to: its own, or the last
/// one where it does not belong to the base ligature.
pub open spec fn mark_component(base: GlyphInfo, g: GlyphInfo) -> int {
    let num = base.spec_lig_num_comps() as int;
    let c = g.spec_lig_comp() as int - 1;
    if (base.lig_props >> 5u8) == 0 || (base.lig_props >> 5u8) != (g.lig_props >> 5u8) || c >= num {
        num - 1
    } else {
        c
    }
}

/// The component extents and class bookkeeping before mark `g` is placed:
/// a new component starts afresh from the base, a new class afresh from
/// the component.
pub open spec fn run_before_mark(st: MarkRun, base: GlyphInfo, ext: GlyphExtents, hdir: Direction, g: GlyphInfo) -> MarkRun {
    let class = spec_mcc(g);
    let num = base.spec_lig_num_comps() as int;
    let c = mark_component(base, g);
    let st1 = if num > 1 && st.last_component != c {
        MarkRun { last_component: c as i32, last_class: 255, component: component_of(ext, hdir, c, num), ..st }
    } else {
        st
    };
    if st1.last_class != class {
        MarkRun { last_class: class, cluster: st1.component, ..st1 }
    } else {
        st1
    }
}

/// What placing a mark does to its position and to the extents it stacks
/// on (a glyph without extents stays where it is).
pub open spec fn placed(face: FaceMetrics, direction: Direction, glyph: u16, p: GlyphPosition, ext: GlyphExtents, class: u8) -> (GlyphPosition, GlyphExtents) {
    match face.spec_glyph_extents(glyph) {
        None => (p, ext),
        Some(mark) => {
            let (y, yb, h) = spec_mark_y(ext, mark, class, (face.units_per_em / 16) as int);
            (
                GlyphPosition { x_offset: spec_mark_x(direction, ext, mark, class) as i32, y_offset: y as i32, ..p },
                GlyphExtents { y_bearing: yb as i32, height: h as i32, ..ext },
            )
        },
    }
}

/// One glyph after the base: a glyph of class zero only adds its advance
/// to how far the following marks move back; a mark is placed, gives up
/// its advance and moves back to the base.
#[verifier::opaque]
pub open spec fn mark_step(face: FaceMetrics, direction: Direction, hdir: Direction, base: GlyphInfo, ext: GlyphExtents, st: MarkRun, g: GlyphInfo, p: GlyphPosition) -> (MarkRun, GlyphPosition) {
    let class = spec_mcc(g);
    if class == 0 {
        if direction.spec_is_backward() {
            (MarkRun { x_offset: (st.x_offset + p.x_advance) as i32, y_offset: (st.y_offset + p.y_advance) as i32, ..st }, p)
        } else {
            (MarkRun { x_offset: (st.x_offset - p.x_advance) as i32, y_offset: (st.y_offset - p.y_advance) as i32, ..st }, p)
        }
    } else {
        let st1 = run_before_mark(st, base, ext, hdir, g);
        let (p1, cluster) = placed(face, direction, g.id as u16, p, st1.cluster, class);
        (
            MarkRun { cluster, ..st1 },
            GlyphPosition {
                x_advance: 0,
                y_advance: 0,
                x_offset: (p1.x_offset + st.x_offset) as i32,
                y_offset: (p1.y_offset + st.y_offset) as i32,
                ..p1
            },
        )
    }
}

/// Whether that step stays within machine integers.
#[verifier::opaque]
pub open spec fn mark_step_fits(face: FaceMetrics, direction: Direction, hdir: Direction, base: GlyphInfo, ext: GlyphExtents, st: MarkRun, g: GlyphInfo, p: GlyphPosition) -> bool {
    let class = spec_mcc(g);
    if class == 0 {
        if direction.spec_is_backward() {
            fits(st.x_offset + p.x_advance) && fits(st.y_offset + p.y_advance)
        } else {
            fits(st.x_offset - p.x_advance) && fits(st.y_offset - p.y_advance)
        }
    } else {
        let st1 = run_before_mark(st, base, ext, hdir, g);
        let (p1, cluster) = placed(face, direction, g.id as u16, p, st1.cluster, class);
        (face.spec_glyph_extents(g.id as u16) matches Some(mark) ==> mark_fits(
            direction,
            st1.cluster,
            mark,
            class,
            (face.units_per_em / 16) as int,
        )) && fits(p1.x_offset + st.x_offset) && fits(p1.y_offset + st.y_offset)
    }
}

/// The bookkeeping as marks around a base start: the base's own advance
/// to move back over when the text runs forward, nothing stacked yet.
pub open spec fn first_run(direction: Direction, ext: GlyphExtents, p: GlyphPosition) -> MarkRun {
    MarkRun {
        x_offset: if direction.spec_is_backward() {
            0
        } else {
            (-p.x_advance) as i32
        },
        y_offset: if direction.spec_is_backward() {
            0
        } else {
            (-p.y_advance) as i32
        },
        last_component: -1i32,
        last_class: 255,
        component: ext,
        cluster: ext,
    }
}

/// The bookkeeping before glyph `i` of the marks after the base at `base`.
pub open spec fn run_at(face: FaceMetrics, direction: Direction, hdir: Direction, info: Seq<GlyphInfo>, pos: Seq<GlyphPosition>, base: int, ext: GlyphExtents, i: int) -> MarkRun
    decreases i - base,
{
    if i <= base + 1 {
        first_run(direction, ext, pos[base])
    } else {
        mark_step(face, direction, hdir, info[base], ext, run_at(face, direction, hdir, info, pos, base, ext, i - 1), info[i - 1], pos[i - 1]).0
    }
}

/// Whether placing the marks of `base + 1 .. end` around the base stays
/// within machine integers.
pub open spec fn around_base_fits(face: FaceMetrics, direction: Direction, hdir: Direction, info: Seq<GlyphInfo>, pos: Seq<GlyphPosition>, base: int, end: int) -> bool {
    let glyph = info[base].id as u16;
    match face.spec_glyph_extents(glyph) {
        None => true,
        Some(e) => {
            let ext = base_mark_extents(face, glyph, e, pos[base].y_offset);
            &&& fits(e.y_bearing + pos[base].y_offset)
            &&& !direction.spec_is_backward() ==> fits(-pos[base].x_advance) && fits(-pos[base].y_advance)
            &&& forall|i: int| base < i < end ==> #[trigger] mark_step_fits(face, direction, hdir, info[base], ext, run_at(face, direction, hdir, info, pos, base, ext, i), info[i], pos[i])
        },
    }
}

/// The position of glyph `i` once the marks after the base at `base` are
/// placed.
pub open spec fn placed_around(face: FaceMetrics, direction: Direction, hdir: Direction, info: Seq<GlyphInfo>, pos: Seq<GlyphPosition>, base: int, ext: GlyphExtents, i: int) -> GlyphPosition {
    mark_step(face, direction, hdir, info[base], ext, run_at(face, direction, hdir, info, pos, base, ext, i), info[i], pos[i]).1
}

/// A buffer whose glyphs gained nothing but the flags `m`, and whose
/// positions may have changed.
pub open spec fn flags_added_positions_moved(new: Buffer, old: Buffer, m: u32) -> bool {
    (Buffer { pos: old.pos, ..new }).only_flags_added(&old, m)
}

/// The low four bits of a byte.
proof fn lemma_nibble(x: u8)
    ensures
        x & 0x0Fu8 <= 15,
{
    assert(x & 0x0Fu8 <= 15) by (bit_vector);
}

/// Places one mark (a glyph of nonzero class) after the base: its
/// component and class bookkeeping, then the mark itself against the
/// extents of its class, moved back to the base.
fn place_mark(
    face: &FaceMetrics,
    direction: Direction,
    hdir: Direction,
    base_info: &GlyphInfo,
    ext: GlyphExtents,
    run: &mut MarkRun,
    g: &GlyphInfo,
    p: &mut GlyphPosition,
)
    requires
        face.wf(),
        spec_mcc(*g) != 0,
        ext.x_bearing == 0,
        -METRIC_LIMIT <= ext.width <= METRIC_LIMIT,
        mark_step_fits(*face, direction, hdir, *base_info, ext, *old(run), *g, *old(p)),
    ensures
        (*final(run), *final(p)) == mark_step(*face, direction, hdir, *base_info, ext, *old(run), *g, *old(p)),
{
    reveal(mark_step);
    reveal(mark_step_fits);
    let class: u8 = g.modified_combining_class();
    let lig_id: u8 = base_info.lig_id();
    let num_components: i32 = base_info.lig_num_comps() as i32;
    proof {
        lemma_nibble(base_info.lig_props);
        lemma_nibble(g.lig_props);
    }
    let x_offset: i32 = run.x_offset;
    let y_offset: i32 = run.y_offset;
    if num_components > 1 {
        let this_lig_id: u8 = g.lig_id();
        let mut this_component: i32 = g.lig_comp() as i32 - 1;
        if lig_id == 0 || lig_id != this_lig_id || this_component >= num_components {
            this_component = num_components - 1;
        }
        if run.last_component != this_component {
            run.last_component = this_component;
            run.last_class = 255;
            let mut component_extents: GlyphExtents = ext;
            let nth: i32 = if hdir == Direction::LeftToRight {
                this_component
            } else {
                num_components - 1 - this_component
            };
            assert(-16 * 0x1_0000 <= nth * component_extents.width <= 16 * 0x1_0000) by (nonlinear_arith)
                requires
                    -16 <= nth <= 16,
                    -0x1_0000 <= component_extents.width <= 0x1_0000,
            ;
            component_extents.x_bearing = component_extents.x_bearing + (nth * component_extents.width) / num_components;
            component_extents.width = component_extents.width / num_components;
            run.component = component_extents;
        }
    }
    if run.last_class != class {
        run.last_class = class;
        run.cluster = run.component;
    }
    let mut cluster_extents: GlyphExtents = run.cluster;
    position_mark(face, direction, g.id as u16, p, &mut cluster_extents, class);
    run.cluster = cluster_extents;
    p.x_advance = 0;
    p.y_advance = 0;
    p.x_offset = p.x_offset + x_offset;
    p.y_offset = p.y_offset + y_offset;
}

/// Places the marks of `base + 1 .. end` around the glyph at `base`, by
/// their classes and the base's extents, component by component within a
/// ligature, and moves them back over the advances between; with no
/// extents for the base the marks only give up their advances. The range
/// becomes unsafe to break.
#[verifier::spinoff_prover]
#[verifier::rlimit(100)]
pub fn position_around_base(
    plan_direction: Direction,
    script_direction: Option<Direction>,
    face: &FaceMetrics,
    buffer: &mut Buffer,
    base: usize,
    end: usize,
    adjust_offsets: bool,
)
    requires
        old(buffer).wf(),
        face.wf(),
        base < end <= old(buffer).len,
        around_base_fits(
            *face,
            old(buffer).direction,
            counting_direction(plan_direction, script_direction),
            old(buffer).info@,
            old(buffer).pos@,
            base as int,
            end as int,
        ),
    ensures
        flags_added_positions_moved(*final(buffer), *old(buffer), UNSAFE_TO_BREAK | UNSAFE_TO_CONCAT),
        final(buffer).pos@.len() == old(buffer).pos@.len(),
        ({
            let glyph = old(buffer).info@[base as int].id as u16;
            match face.spec_glyph_extents(glyph) {
                None => forall|k: int|
                    0 <= k < old(buffer).pos@.len() ==> #[trigger] final(buffer).pos@[k] == if base < k < end
                        && is_nonspacing(old(buffer).info@[k]) {
                        advance_zeroed(old(buffer).pos@[k], adjust_offsets)
                    } else {
                        old(buffer).pos@[k]
                    },
                Some(e) => forall|k: int|
                    0 <= k < old(buffer).pos@.len() ==> #[trigger] final(buffer).pos@[k] == if base < k < end {
                        placed_around(
                            *face,
                            old(buffer).direction,
                            counting_direction(plan_direction, script_direction),
                            old(buffer).info@,
                            old(buffer).pos@,
                            base as int,
                            base_mark_extents(*face, glyph, e, old(buffer).pos@[base as int].y_offset),
                            k,
                        )
                    } else {
                        old(buffer).pos@[k]
                    },
            }
        }),
{
    let ghost info0 = buffer.info@;
    let ghost pos0 = buffer.pos@;
    let ghost hdir = counting_direction(plan_direction, script_direction);
    let base_glyph: u16 = buffer.info[base].id as u16;
    let mut base_extents: GlyphExtents = match face.glyph_extents(base_glyph) {
        Some(e) => e,
        None => {
            zero_mark_advances(buffer, base + 1, end, adjust_offsets);
            buffer.unsafe_to_break(base, end);
            return ;
        },
    };
    let ghost e = base_extents;
    base_extents.y_bearing = base_extents.y_bearing + buffer.pos[base].y_offset;
    base_extents.x_bearing = 0;
    base_extents.width = face.glyph_h_advance(base_glyph);
    let ghost ext = base_extents;
    let direction: Direction = buffer.direction;
    let mut x_offset: i32 = 0;
    let mut y_offset: i32 = 0;
    if !direction.is_backward() {
        x_offset = x_offset - buffer.pos[base].x_advance;
        y_offset = y_offset - buffer.pos[base].y_advance;
    }
    let horizontal_dir: Direction = if plan_direction.is_horizontal() {
        plan_direction
    } else {
        match script_direction {
            Some(d) => d,
            None => Direction::LeftToRight,
        }
    };
    let mut run = MarkRun {
        x_offset,
        y_offset,
        last_component: -1,
        last_class: 255,
        component: base_extents,
        cluster: base_extents,
    };
    proof {
        assert(face.spec_glyph_extents(base_glyph) == Some(e));
        assert(ext == base_mark_extents(*face, base_glyph, e, pos0[base as int].y_offset));
        assert(forall|k: int| base < k < end ==> #[trigger] mark_step_fits(*face, direction, hdir, info0[base as int], ext, run_at(*face, direction, hdir, info0, pos0, base as int, ext, k), info0[k], pos0[k]));
    }
    let mut pos: Vec<GlyphPosition> = Vec::new();
    core::mem::swap(&mut pos, &mut buffer.pos);
    let mut i: usize = base + 1;
    while i < end
        invariant
            base < i <= end <= buffer.len <= buffer.info@.len() <= pos0.len(),
            face.wf(),
            buffer.info@ == info0,
            direction == buffer.direction,
            horizontal_dir == hdir,
            ext.x_bearing == 0,
            -METRIC_LIMIT <= ext.width <= METRIC_LIMIT,
            base_extents == ext,
            forall|k: int| base < k < end ==> #[trigger] mark_step_fits(*face, direction, hdir, info0[base as int], ext, run_at(*face, direction, hdir, info0, pos0, base as int, ext, k), info0[k], pos0[k]),
            run == run_at(*face, direction, hdir, info0, pos0, base as int, ext, i as int),
            pos@.len() == pos0.len(),
            forall|k: int|
                0 <= k < pos0.len() ==> #[trigger] pos@[k] == if base < k < i {
                    placed_around(*face, direction, hdir, info0, pos0, base as int, ext, k)
                } else {
                    pos0[k]
                },
        decreases end - i,
    {
        let g: GlyphInfo = buffer.info[i];
        let mut p: GlyphPosition = pos[i];
        assert(mark_step_fits(*face, direction, hdir, info0[base as int], ext, run, g, p));
        let class: u8 = g.modified_combining_class();
        if class == 0 {
            proof {
                reveal(mark_step);
                reveal(mark_step_fits);
            }
            if direction.is_backward() {
                run.x_offset = run.x_offset + p.x_advance;
                run.y_offset = run.y_offset + p.y_advance;
            } else {
                run.x_offset = run.x_offset - p.x_advance;
                run.y_offset = run.y_offset - p.y_advance;
            }
        } else {
            place_mark(face, direction, horizontal_dir, &buffer.info[base], base_extents, &mut run, &g, &mut p);
            pos.set(i, p);
        }
        i = i + 1;
    }
    core::mem::swap(&mut pos, &mut buffer.pos);
    buffer.unsafe_to_break(base, end);
}

} // verus!
