//! Glyph positioning after GPOS: value records, mark and pair records,
//! and the pass that turns attachment chains into final offsets.

use vstd::prelude::*;
use crate::buffer::{
    Buffer, Direction, GlyphInfo, GlyphPosition, HAS_GLYPH_FLAGS, HAS_GPOS_ATTACHMENT, MARK, MULTIPLIED, UNSAFE_TO_BREAK, UNSAFE_TO_CONCAT,
};
use crate::ot::{
    spec_u16, read_u16_be, spec_value_record_len, value_record_len, spec_coverage_index, spec_offset_coverage,
    offset_coverage, Gdef, RIGHT_TO_LEFT,
};
use crate::apply::{gdef_ok, may_skip, spec_matcher, spec_may_skip, ApplyState, Match, MaySkip, Matcher};

verus! {

pub const ATTACH_MARK: u8 = 1;

pub const ATTACH_CURSIVE: u8 = 2;

/// An offset moved by `delta`, held within the range of `i32`.
pub open spec fn spec_offset_by(offset: i32, delta: int) -> i32 {
    if offset + delta < i32::MIN {
        i32::MIN
    } else if offset + delta > i32::MAX {
        i32::MAX
    } else {
        (offset + delta) as i32
    }
}

/// Moves an offset by `delta`, saturating at the range of `i32`.
pub fn offset_by(offset: &mut i32, delta: i128)
    requires
        -SPAN_BOUND <= delta <= SPAN_BOUND,
    ensures
        *final(offset) == spec_offset_by(*old(offset), delta as int),
{
    let s: i128 = *offset as i128 + delta;
    *offset = if s < i32::MIN as i128 {
        i32::MIN
    } else if s > i32::MAX as i128 {
        i32::MAX
    } else {
        s as i32
    };
}

/// A bound on the magnitude of a running sum of advances, and of the
/// difference of two such sums: every sum of at most `usize::MAX` advances
/// of `i32` lies within half of it.
pub const SPAN_BOUND: i128 = 0x4_0000_0000_0000_0000_0000_0000;

/// Running sums of advances: entry `k` sums the advances of the first `k`
/// glyphs.
pub struct Advances<'a> {
    pub cum: &'a [(i128, i128)],
}

impl<'a> Advances<'a> {
    pub open spec fn wf(&self) -> bool {
        forall|k: int|
            0 <= k < self.cum@.len() ==> -SPAN_BOUND / 2 <= #[trigger] self.cum@[k].0 <= SPAN_BOUND / 2
                && -SPAN_BOUND / 2 <= self.cum@[k].1 <= SPAN_BOUND / 2
    }

    /// The advance from glyph `a` to glyph `b`.
    pub fn between(&self, a: usize, b: usize) -> (r: (i128, i128))
        requires
            self.wf(),
            a < self.cum@.len(),
            b < self.cum@.len(),
        ensures
            r.0 == self.cum@[b as int].0 - self.cum@[a as int].0,
            r.1 == self.cum@[b as int].1 - self.cum@[a as int].1,
    {
        let (xb, yb) = self.cum[b];
        let (xa, ya) = self.cum[a];
        (xb - xa, yb - ya)
    }
}

/// The number of positions below `n` with an attachment chain.
pub open spec fn chained(pos: Seq<GlyphPosition>, n: int) -> nat
    decreases n,
{
    if n <= 0 {
        0
    } else {
        chained(pos, n - 1) + if pos[n - 1].attach_chain != 0 {
            1nat
        } else {
            0nat
        }
    }
}

/// Clearing one chain leaves one chained position fewer.
pub proof fn lemma_unchain(pos: Seq<GlyphPosition>, n: int, i: int, p: GlyphPosition)
    requires
        0 <= i < n <= pos.len(),
        pos[i].attach_chain != 0,
        p.attach_chain == 0,
    ensures
        chained(pos.update(i, p), n) + 1 == chained(pos, n),
    decreases n,
{
    if i < n - 1 {
        lemma_unchain(pos, n - 1, i, p);
    } else {
        lemma_chained_prefix(pos, pos.update(i, p), n - 1);
    }
}

/// The count of chained positions depends only on the chains.
pub proof fn lemma_chained_prefix(a: Seq<GlyphPosition>, b: Seq<GlyphPosition>, n: int)
    requires
        0 <= n <= a.len(),
        n <= b.len(),
        forall|k: int| 0 <= k < n ==> (#[trigger] a[k]).attach_chain == b[k].attach_chain,
    ensures
        chained(a, n) == chained(b, n),
    decreases n,
{
    if n > 0 {
        lemma_chained_prefix(a, b, n - 1);
    }
}

/// What positioning may change of a glyph position: its offsets and its
/// attachment chain; its advances and attachment type stay.
pub open spec fn same_but_offsets(a: GlyphPosition, b: GlyphPosition) -> bool {
    a.x_advance == b.x_advance && a.y_advance == b.y_advance && a.attach_type == b.attach_type
}

/// The sums of the advances of the first `k` glyphs of `pos`, across and
/// along.
pub open spec fn advance_sums(pos: Seq<GlyphPosition>, k: int) -> (int, int)
    decreases k,
{
    if k <= 0 {
        (0, 0)
    } else {
        let s = advance_sums(pos, k - 1);
        (s.0 + pos[k - 1].x_advance, s.1 + pos[k - 1].y_advance)
    }
}

/// Glyph `p` at `i`, attached to `parent` at `j`, moved into place: a mark
/// by the offset of its parent along the flow and back by the advances
/// from the parent to it (forward in backward text), a cursive glyph by
/// the cross-stream offset of its parent; anything else stays. `pos0`
/// holds the advances.
pub open spec fn attached_position(
    p: GlyphPosition,
    parent: GlyphPosition,
    pos0: Seq<GlyphPosition>,
    i: int,
    j: int,
    direction: Direction,
) -> GlyphPosition {
    if p.attach_type == ATTACH_MARK {
        let x1 = if direction.spec_is_horizontal() {
            spec_offset_by(p.x_offset, parent.x_offset as int)
        } else {
            p.x_offset
        };
        let y1 = if direction.spec_is_horizontal() {
            p.y_offset
        } else {
            spec_offset_by(p.y_offset, parent.y_offset as int)
        };
        let dx = if direction.spec_is_backward() {
            advance_sums(pos0, i + 1).0 - advance_sums(pos0, j + 1).0
        } else {
            advance_sums(pos0, j).0 - advance_sums(pos0, i).0
        };
        let dy = if direction.spec_is_backward() {
            advance_sums(pos0, i + 1).1 - advance_sums(pos0, j + 1).1
        } else {
            advance_sums(pos0, j).1 - advance_sums(pos0, i).1
        };
        GlyphPosition { x_offset: spec_offset_by(x1, dx), y_offset: spec_offset_by(y1, dy), ..p }
    } else if p.attach_type == ATTACH_CURSIVE {
        if direction.spec_is_horizontal() {
            GlyphPosition { y_offset: spec_offset_by(p.y_offset, parent.y_offset as int), ..p }
        } else {
            GlyphPosition { x_offset: spec_offset_by(p.x_offset, parent.x_offset as int), ..p }
        }
    } else {
        p
    }
}

/// Offset propagation from glyph `i` among the first `len` positions: a
/// glyph with no chain stays; otherwise its chain is cleared and, where it
/// leads to a glyph `j` below `len`, `j` is placed first and then `i` is
/// moved by it.
pub open spec fn spec_propagate(
    pos: Seq<GlyphPosition>,
    pos0: Seq<GlyphPosition>,
    len: int,
    i: int,
    direction: Direction,
) -> Seq<GlyphPosition>
    decreases chained(pos, len),
{
    if !(0 <= i < len <= pos.len()) || pos[i].attach_chain == 0 {
        pos
    } else {
        let p1 = pos.update(i, GlyphPosition { attach_chain: 0, ..pos[i] });
        let j = i + pos[i].attach_chain;
        if j < 0 || j >= len {
            p1
        } else {
            proof {
                lemma_unchain(pos, len, i, GlyphPosition { attach_chain: 0, ..pos[i] });
            }
            let p2 = spec_propagate(p1, pos0, len, j, direction);
            p2.update(i, attached_position(p2[i], p2[j], pos0, i, j, direction))
        }
    }
}

/// Offset propagation from each of the glyphs `0 .. n` in turn.
pub open spec fn spec_finish_offsets(
    pos: Seq<GlyphPosition>,
    pos0: Seq<GlyphPosition>,
    len: int,
    n: int,
    direction: Direction,
) -> Seq<GlyphPosition>
    decreases n,
{
    if n <= 0 {
        pos
    } else {
        spec_propagate(spec_finish_offsets(pos, pos0, len, n - 1, direction), pos0, len, n - 1, direction)
    }
}

/// Follows the attachment chain from `i`, clearing it, then moves each
/// attached glyph by the offset of the glyph it hangs from (and, for a
/// mark, by the advances between them), from the far end of the chain
/// back.
fn propagate_attachment_offsets(
    pos: &mut Vec<GlyphPosition>,
    len: usize,
    i: usize,
    direction: Direction,
    span: &Advances,
    Ghost(pos0): Ghost<Seq<GlyphPosition>>,
)
    requires
        i < len <= old(pos)@.len(),
        span.wf(),
        span.cum@.len() == len + 1,
        pos0.len() >= len,
        forall|k: int| 0 <= k <= len ==> #[trigger] span.cum@[k].0 == advance_sums(pos0, k).0
            && span.cum@[k].1 == advance_sums(pos0, k).1,
    ensures
        final(pos)@ == spec_propagate(old(pos)@, pos0, len as int, i as int, direction),
        final(pos)@.len() == old(pos)@.len(),
        final(pos)@[i as int].attach_chain == 0,
        forall|k: int|
            0 <= k < final(pos)@.len() ==> same_but_offsets(#[trigger] final(pos)@[k], old(pos)@[k]),
        forall|k: int|
            0 <= k < final(pos)@.len() && old(pos)@[k].attach_chain == 0 ==> (#[trigger] final(pos)@[k]).attach_chain
                == 0,
        forall|k: int| len <= k < final(pos)@.len() ==> #[trigger] final(pos)@[k] == old(pos)@[k],
    decreases chained(old(pos)@, len as int),
{
    let chain: i16 = pos[i].attach_chain;
    if chain == 0 {
        return;
    }
    let mut p: GlyphPosition = pos[i];
    p.attach_chain = 0;
    proof {
        lemma_unchain(pos@, len as int, i as int, p);
    }
    pos.set(i, p);
    let target: i128 = i as i128 + chain as i128;
    if target < 0 || target >= len as i128 {
        return;
    }
    let j: usize = target as usize;
    let ghost p1 = pos@;
    propagate_attachment_offsets(pos, len, j, direction, span, Ghost(pos0));
    let ghost p2 = pos@;
    let mut p: GlyphPosition = pos[i];
    let parent: GlyphPosition = pos[j];
    if p.attach_type == ATTACH_MARK {
        if direction.is_horizontal() {
            offset_by(&mut p.x_offset, parent.x_offset as i128);
        } else {
            offset_by(&mut p.y_offset, parent.y_offset as i128);
        }
        let (dx, dy) = if direction.is_backward() {
            span.between(j + 1, i + 1)
        } else {
            span.between(i, j)
        };
        offset_by(&mut p.x_offset, dx);
        offset_by(&mut p.y_offset, dy);
    } else if p.attach_type == ATTACH_CURSIVE {
        if direction.is_horizontal() {
            offset_by(&mut p.y_offset, parent.y_offset as i128);
        } else {
            offset_by(&mut p.x_offset, parent.x_offset as i128);
        }
    }
    assert(p == attached_position(p2[i as int], p2[j as int], pos0, i as int, j as int, direction));
    pos.set(i, p);
}

/// Whether `v` is a value of `i32`.
pub open spec fn fits_i32(v: int) -> bool {
    i32::MIN <= v <= i32::MAX
}

/// The advances and along-flow offsets after glyph `j` is joined to glyph
/// `i` before it, with the entry anchor of `j` on the exit anchor of `i`:
/// the glyph that comes first in the flow ends at its exit anchor, the
/// other starts at its entry anchor.
pub open spec fn cursive_advances(
    pos: Seq<GlyphPosition>,
    direction: Direction,
    i: int,
    j: int,
    entry: (i32, i32),
    exit: (i32, i32),
) -> Seq<GlyphPosition> {
    let pi = pos[i];
    let pj = pos[j];
    match direction {
        Direction::LeftToRight => {
            let d = entry.0 + pj.x_offset;
            pos.update(i, GlyphPosition { x_advance: (exit.0 + pi.x_offset) as i32, ..pi }).update(
                j,
                GlyphPosition { x_advance: (pj.x_advance - d) as i32, x_offset: (pj.x_offset - d) as i32, ..pj },
            )
        },
        Direction::RightToLeft => {
            let d = exit.0 + pi.x_offset;
            pos.update(
                i,
                GlyphPosition { x_advance: (pi.x_advance - d) as i32, x_offset: (pi.x_offset - d) as i32, ..pi },
            ).update(j, GlyphPosition { x_advance: (entry.0 + pj.x_offset) as i32, ..pj })
        },
        Direction::TopToBottom => {
            let d = entry.1 + pj.y_offset;
            pos.update(i, GlyphPosition { y_advance: (exit.1 + pi.y_offset) as i32, ..pi }).update(
                j,
                GlyphPosition { y_advance: (pj.y_advance - d) as i32, y_offset: (pj.y_offset - d) as i32, ..pj },
            )
        },
        Direction::BottomToTop => {
            let d = exit.1 + pi.y_offset;
            pos.update(
                i,
                GlyphPosition { y_advance: (pi.y_advance - d) as i32, y_offset: (pi.y_offset - d) as i32, ..pi },
            ).update(j, GlyphPosition { y_advance: entry.1, ..pj })
        },
    }
}

/// Every sum that a cursive attachment of `j` to `i` computes is a value of
/// `i32`, and so is the chain it sets a value of `i16` other than the
/// lowest.
pub open spec fn cursive_fits(
    pos: Seq<GlyphPosition>,
    direction: Direction,
    i: int,
    j: int,
    entry: (i32, i32),
    exit: (i32, i32),
    right_to_left: bool,
) -> bool {
    let pi = pos[i];
    let pj = pos[j];
    &&& match direction {
        Direction::LeftToRight => {
            let d = entry.0 + pj.x_offset;
            fits_i32(exit.0 + pi.x_offset) && fits_i32(d) && fits_i32(pj.x_advance - d) && fits_i32(
                pj.x_offset - d,
            )
        },
        Direction::RightToLeft => {
            let d = exit.0 + pi.x_offset;
            fits_i32(d) && fits_i32(pi.x_advance - d) && fits_i32(pi.x_offset - d) && fits_i32(
                entry.0 + pj.x_offset,
            )
        },
        Direction::TopToBottom => {
            let d = entry.1 + pj.y_offset;
            fits_i32(exit.1 + pi.y_offset) && fits_i32(d) && fits_i32(pj.y_advance - d) && fits_i32(
                pj.y_offset - d,
            )
        },
        Direction::BottomToTop => {
            let d = exit.1 + pi.y_offset;
            fits_i32(d) && fits_i32(pi.y_advance - d) && fits_i32(pi.y_offset - d)
        },
    }
    &&& fits_i32(entry.0 - exit.0) && fits_i32(entry.1 - exit.1)
    &&& fits_i32(exit.0 - entry.0) && fits_i32(exit.1 - entry.1)
    &&& (if right_to_left {
        j - i
    } else {
        i - j
    }) as i16 != i16::MIN
}

/// The positions after glyph `j` is cursively joined to glyph `i` before
/// it: the advances are set by the anchors, the cursive chain through the
/// glyph that will hang is turned around, and that glyph (`i` when the
/// lookup runs right to left, else `j`) hangs from the other with the
/// cross-stream offset between the anchors; a parent that hung from it in
/// turn is let go.
pub open spec fn spec_cursive(
    pos: Seq<GlyphPosition>,
    direction: Direction,
    i: int,
    j: int,
    entry: (i32, i32),
    exit: (i32, i32),
    right_to_left: bool,
) -> Seq<GlyphPosition> {
    let h = direction.spec_is_horizontal();
    let p1 = cursive_advances(pos, direction, i, j, entry, exit);
    let child = if right_to_left {
        i
    } else {
        j
    };
    let parent = if right_to_left {
        j
    } else {
        i
    };
    let xo = if right_to_left {
        entry.0 - exit.0
    } else {
        exit.0 - entry.0
    };
    let yo = if right_to_left {
        entry.1 - exit.1
    } else {
        exit.1 - entry.1
    };
    let walk = cursive_walk(p1, child, parent);
    let p2 = reverse_links(walk.0, walk.1, h);
    let linked = GlyphPosition { attach_type: ATTACH_CURSIVE, attach_chain: (parent - child) as i16, ..p2[child] };
    let c = if h {
        GlyphPosition { y_offset: yo as i32, ..linked }
    } else {
        GlyphPosition { x_offset: xo as i32, ..linked }
    };
    let p3 = p2.update(child, c);
    if p3[parent].attach_chain == -p3[child].attach_chain {
        p3.update(
            parent,
            if h {
                GlyphPosition { attach_chain: 0, y_offset: 0, ..p3[parent] }
            } else {
                GlyphPosition { attach_chain: 0, x_offset: 0, ..p3[parent] }
            },
        )
    } else {
        p3
    }
}

proof fn lemma_walk_len(pos: Seq<GlyphPosition>, i: int, parent: int)
    ensures
        cursive_walk(pos, i, parent).0.len() == pos.len(),
        forall|q: int|
            0 <= q < cursive_walk(pos, i, parent).1.len() ==> (#[trigger] cursive_walk(pos, i, parent).1[q]).0 < pos.len()
                && cursive_walk(pos, i, parent).1[q].1 < pos.len(),
    decreases chained(pos, pos.len() as int),
{
    if 0 <= i < pos.len() && is_cursive_link(pos[i]) {
        let p = pos[i];
        let cleared = pos.update(i, GlyphPosition { attach_chain: 0, ..p });
        let j = i + p.attach_chain;
        lemma_unchain(pos, pos.len() as int, i, GlyphPosition { attach_chain: 0, ..p });
        if !(j == parent || j < 0 || j >= pos.len()) {
            lemma_walk_len(cleared, j, parent);
            let rest = cursive_walk(cleared, j, parent);
            let links = seq![(i as usize, j as usize, p.attach_chain, p.attach_type)] + rest.1;
            assert forall|q: int| 0 <= q < links.len() implies (#[trigger] links[q]).0 < pos.len() && links[q].1
                < pos.len() by {
                if q > 0 {
                    assert(links[q] == rest.1[q - 1]);
                }
            }
        }
    }
}

proof fn lemma_reverse_links_len(pos: Seq<GlyphPosition>, links: Seq<(usize, usize, i16, u8)>, h: bool)
    requires
        forall|q: int| 0 <= q < links.len() ==> (#[trigger] links[q]).0 < pos.len() && links[q].1 < pos.len(),
    ensures
        reverse_links(pos, links, h).len() == pos.len(),
    decreases links.len(),
{
    if links.len() > 0 {
        let p1 = reverse_link(pos, links.last(), h);
        assert(p1.len() == pos.len());
        lemma_reverse_links_len(p1, links.drop_last(), h);
    }
}

/// Joins the current glyph `j` cursively to glyph `i` before it, whose exit
/// anchor is `exit`, at its own entry anchor `entry`: the two become unsafe
/// to break apart, their advances meet at the anchors, and one hangs from
/// the other (see `spec_cursive`); then the buffer moves past `j`.
#[verifier::spinoff_prover]
pub fn cursive_attach(buffer: &mut Buffer, i: usize, entry: (i32, i32), exit: (i32, i32), right_to_left: bool)
    requires
        old(buffer).wf(),
        i < old(buffer).idx < old(buffer).len,
        negatable(old(buffer).pos@, old(buffer).direction.spec_is_horizontal()),
        cursive_fits(
            old(buffer).pos@,
            old(buffer).direction,
            i as int,
            old(buffer).idx as int,
            entry,
            exit,
            right_to_left,
        ),
    ensures
        final(buffer).pos@ == spec_cursive(
            old(buffer).pos@,
            old(buffer).direction,
            i as int,
            old(buffer).idx as int,
            entry,
            exit,
            right_to_left,
        ),
        final(buffer).info@ == old(buffer).glyph_flags_info(
            UNSAFE_TO_BREAK | UNSAFE_TO_CONCAT,
            i as int,
            old(buffer).idx + 1,
            true,
            false,
        ),
        final(buffer).out_info@ == old(buffer).glyph_flags_out(
            UNSAFE_TO_BREAK | UNSAFE_TO_CONCAT,
            i as int,
            old(buffer).idx + 1,
            true,
            false,
        ),
        final(buffer).scratch_flags == (if old(buffer).glyph_flags_skipped(i as int, old(buffer).idx + 1, true, false) {
            old(buffer).scratch_flags
        } else {
            old(buffer).scratch_flags | HAS_GLYPH_FLAGS
        }) | HAS_GPOS_ATTACHMENT,
        final(buffer).idx == old(buffer).idx + 1,
        final(buffer).len == old(buffer).len,
        final(buffer).out_len == old(buffer).out_len,
        final(buffer).have_output == old(buffer).have_output,
        final(buffer).out_lockstep == old(buffer).out_lockstep,
        final(buffer).successful == old(buffer).successful,
        final(buffer).same_settings(&*old(buffer)),
{
    let j: usize = buffer.idx;
    buffer.unsafe_to_break(i, j + 1);
    let ghost mid = *buffer;
    let direction: Direction = buffer.direction;
    let h: bool = direction.is_horizontal();
    let mut pos: Vec<GlyphPosition> = Vec::new();
    core::mem::swap(&mut pos, &mut buffer.pos);
    let ghost p0 = pos@;
    let mut pi: GlyphPosition = pos[i];
    let mut pj: GlyphPosition = pos[j];
    match direction {
        Direction::LeftToRight => {
            pi.x_advance = exit.0 + pi.x_offset;
            let d: i32 = entry.0 + pj.x_offset;
            pj.x_advance = pj.x_advance - d;
            pj.x_offset = pj.x_offset - d;
        },
        Direction::RightToLeft => {
            let d: i32 = exit.0 + pi.x_offset;
            pi.x_advance = pi.x_advance - d;
            pi.x_offset = pi.x_offset - d;
            pj.x_advance = entry.0 + pj.x_offset;
        },
        Direction::TopToBottom => {
            pi.y_advance = exit.1 + pi.y_offset;
            let d: i32 = entry.1 + pj.y_offset;
            pj.y_advance = pj.y_advance - d;
            pj.y_offset = pj.y_offset - d;
        },
        Direction::BottomToTop => {
            let d: i32 = exit.1 + pi.y_offset;
            pi.y_advance = pi.y_advance - d;
            pi.y_offset = pi.y_offset - d;
            pj.y_advance = entry.1;
        },
    }
    pos.set(i, pi);
    pos.set(j, pj);
    assert(pos@ == cursive_advances(p0, direction, i as int, j as int, entry, exit));
    assert forall|k: int| 0 <= k < pos@.len() implies minor_offset(#[trigger] pos@[k], h) == minor_offset(p0[k], h)
        && pos@[k].attach_chain == p0[k].attach_chain by {}
    let child: usize;
    let parent: usize;
    let xo: i32;
    let yo: i32;
    if right_to_left {
        child = i;
        parent = j;
        xo = entry.0 - exit.0;
        yo = entry.1 - exit.1;
    } else {
        child = j;
        parent = i;
        xo = exit.0 - entry.0;
        yo = exit.1 - entry.1;
    }
    let ghost p1 = pos@;
    reverse_cursive_minor_offset(&mut pos, child, direction, parent);
    proof {
        lemma_walk_len(p1, child as int, parent as int);
        let walk = cursive_walk(p1, child as int, parent as int);
        lemma_reverse_links_len(walk.0, walk.1, h);
    }
    let mut c: GlyphPosition = pos[child];
    c.attach_type = ATTACH_CURSIVE;
    c.attach_chain = #[verifier::truncate] ((parent as i128 - child as i128) as i16);
    if h {
        c.y_offset = yo;
    } else {
        c.x_offset = xo;
    }
    pos.set(child, c);
    let mut q: GlyphPosition = pos[parent];
    if q.attach_chain as i32 == -(c.attach_chain as i32) {
        q.attach_chain = 0;
        if h {
            q.y_offset = 0;
        } else {
            q.x_offset = 0;
        }
        pos.set(parent, q);
    }
    core::mem::swap(&mut pos, &mut buffer.pos);
    buffer.scratch_flags = buffer.scratch_flags | HAS_GPOS_ATTACHMENT;
    buffer.idx = j + 1;
}

/// Whether a position hangs from another by a cursive attachment.
pub open spec fn is_cursive_link(p: GlyphPosition) -> bool {
    p.attach_chain != 0 && p.attach_type & ATTACH_CURSIVE != 0
}

/// The offset across the flow of text: `y` in horizontal text, `x` in
/// vertical text.
pub open spec fn minor_offset(p: GlyphPosition, horizontal: bool) -> i32 {
    if horizontal {
        p.y_offset
    } else {
        p.x_offset
    }
}

/// Walks the cursive chain from glyph `i`, clearing the chain of each glyph
/// it leaves, and stops at a glyph that is not cursively attached, before
/// `parent`, or where the chain leads off the buffer. Gives the positions
/// after the clearing and the links `(from, to, chain, type)` that it
/// followed to another glyph.
pub open spec fn cursive_walk(pos: Seq<GlyphPosition>, i: int, parent: int) -> (Seq<GlyphPosition>, Seq<(usize, usize, i16, u8)>)
    decreases chained(pos, pos.len() as int),
{
    if !(0 <= i < pos.len()) || !is_cursive_link(pos[i]) {
        (pos, Seq::empty())
    } else {
        let p = pos[i];
        let cleared = pos.update(i, GlyphPosition { attach_chain: 0, ..p });
        let j = i + p.attach_chain;
        proof {
            lemma_unchain(pos, pos.len() as int, i, GlyphPosition { attach_chain: 0, ..p });
        }
        if j == parent || j < 0 || j >= pos.len() {
            (cleared, Seq::empty())
        } else {
            let rest = cursive_walk(cleared, j, parent);
            (rest.0, seq![(i as usize, j as usize, p.attach_chain, p.attach_type)] + rest.1)
        }
    }
}

/// Turns link `(i, j, chain, kind)` around: glyph `j` now hangs from glyph
/// `i`, with the opposite chain, the link's type, and the opposite of the
/// minor offset of `i`.
pub open spec fn reverse_link(pos: Seq<GlyphPosition>, link: (usize, usize, i16, u8), horizontal: bool) -> Seq<GlyphPosition> {
    let (i, j, chain, kind) = link;
    let q = pos[j as int];
    let moved = if horizontal {
        GlyphPosition { y_offset: (-pos[i as int].y_offset) as i32, ..q }
    } else {
        GlyphPosition { x_offset: (-pos[i as int].x_offset) as i32, ..q }
    };
    pos.update(j as int, GlyphPosition { attach_chain: (-chain) as i16, attach_type: kind, ..moved })
}

/// Turns the links around from the last one back to the first.
pub open spec fn reverse_links(pos: Seq<GlyphPosition>, links: Seq<(usize, usize, i16, u8)>, horizontal: bool) -> Seq<GlyphPosition>
    decreases links.len(),
{
    if links.len() == 0 {
        pos
    } else {
        reverse_links(reverse_link(pos, links.last(), horizontal), links.drop_last(), horizontal)
    }
}

/// No minor offset and no chain sits at the bottom of its type's range, so
/// each can be negated.
pub open spec fn negatable(pos: Seq<GlyphPosition>, horizontal: bool) -> bool {
    forall|k: int|
        0 <= k < pos.len() ==> minor_offset(#[trigger] pos[k], horizontal) != i32::MIN && pos[k].attach_chain
            != i16::MIN
}

/// Reverses the cursive chain that starts at `start`, so that it runs
/// towards `start` instead, up to the glyph before `new_parent`; the minor
/// offsets move along with the links.
pub fn reverse_cursive_minor_offset(
    pos: &mut Vec<GlyphPosition>,
    start: usize,
    direction: Direction,
    new_parent: usize,
)
    requires
        start < old(pos)@.len(),
        negatable(old(pos)@, direction.spec_is_horizontal()),
    ensures
        ({
            let walk = cursive_walk(old(pos)@, start as int, new_parent as int);
            final(pos)@ == reverse_links(walk.0, walk.1, direction.spec_is_horizontal())
        }),
{
    let ghost h = direction.spec_is_horizontal();
    let ghost walk = cursive_walk(pos@, start as int, new_parent as int);
    let mut path: Vec<(usize, usize, i16, u8)> = Vec::new();
    let mut i: usize = start;
    let n: usize = pos.len();
    loop
        invariant_except_break
            walk == (cursive_walk(pos@, i as int, new_parent as int).0, path@ + cursive_walk(
                pos@,
                i as int,
                new_parent as int,
            ).1),
        invariant
            i < n == pos@.len(),
            h == direction.spec_is_horizontal(),
            negatable(pos@, h),
            forall|q: int|
                0 <= q < path@.len() ==> (#[trigger] path@[q]).0 < n && path@[q].1 < n && path@[q].2
                    != i16::MIN,
        ensures
            n == pos@.len(),
            h == direction.spec_is_horizontal(),
            negatable(pos@, h),
            forall|q: int|
                0 <= q < path@.len() ==> (#[trigger] path@[q]).0 < n && path@[q].1 < n && path@[q].2
                    != i16::MIN,
            walk == (pos@, path@),
        decreases chained(pos@, n as int),
    {
        let chain: i16 = pos[i].attach_chain;
        let kind: u8 = pos[i].attach_type;
        if chain == 0 || kind & ATTACH_CURSIVE == 0 {
            assert(path@ + Seq::<(usize, usize, i16, u8)>::empty() =~= path@);
            break;
        }
        let mut p: GlyphPosition = pos[i];
        p.attach_chain = 0;
        proof {
            lemma_unchain(pos@, n as int, i as int, p);
        }
        let ghost before = pos@;
        pos.set(i, p);
        let target: i128 = i as i128 + chain as i128;
        if target == new_parent as i128 || target < 0 || target >= n as i128 {
            assert(path@ + Seq::<(usize, usize, i16, u8)>::empty() =~= path@);
            break;
        }
        let j: usize = target as usize;
        let ghost old_path = path@;
        path.push((i, j, chain, kind));
        proof {
            let rest = cursive_walk(pos@, j as int, new_parent as int);
            assert(cursive_walk(before, i as int, new_parent as int) == (rest.0, seq![(i, j, chain, kind)] + rest.1));
            assert(old_path + (seq![(i, j, chain, kind)] + rest.1) =~= path@ + rest.1);
        }
        i = j;
    }
    while path.len() > 0
        invariant
            n == pos@.len(),
            h == direction.spec_is_horizontal(),
            negatable(pos@, h),
            forall|q: int|
                0 <= q < path@.len() ==> (#[trigger] path@[q]).0 < n && path@[q].1 < n && path@[q].2
                    != i16::MIN,
            reverse_links(pos@, path@, h) == reverse_links(walk.0, walk.1, h),
        decreases path@.len(),
    {
        let ghost links = path@;
        let (i, j, chain, kind) = path.pop().unwrap();
        assert(links.drop_last() =~= path@);
        let mut q: GlyphPosition = pos[j];
        if direction.is_horizontal() {
            q.y_offset = -pos[i].y_offset;
        } else {
            q.x_offset = -pos[i].x_offset;
        }
        q.attach_chain = -chain;
        q.attach_type = kind;
        let ghost prev = pos@;
        pos.set(j, q);
        assert(pos@ =~= reverse_link(prev, links.last(), h));
    }
    assert(reverse_links(pos@, path@, h) == pos@);
}

/// Clears the attachment of every glyph before positioning.
pub fn position_start(buffer: &mut Buffer)
    requires
        old(buffer).wf(),
    ensures
        final(buffer).wf(),
        final(buffer).pos@.len() == old(buffer).pos@.len(),
        forall|k: int|
            0 <= k < old(buffer).len ==> (#[trigger] final(buffer).pos@[k]).attach_chain == 0
                && final(buffer).pos@[k].attach_type == 0 && final(buffer).pos@[k].x_advance == old(
                buffer,
            ).pos@[k].x_advance && final(buffer).pos@[k].y_advance == old(buffer).pos@[k].y_advance
                && final(buffer).pos@[k].x_offset == old(buffer).pos@[k].x_offset
                && final(buffer).pos@[k].y_offset == old(buffer).pos@[k].y_offset,
        forall|k: int|
            old(buffer).len <= k < old(buffer).pos@.len() ==> #[trigger] final(buffer).pos@[k] == old(
                buffer,
            ).pos@[k],
        *final(buffer) == (Buffer { pos: final(buffer).pos, ..*old(buffer) }),
{
    let mut pos: Vec<GlyphPosition> = Vec::new();
    core::mem::swap(&mut pos, &mut buffer.pos);
    let len: usize = buffer.len;
    let ghost before = pos@;
    let mut k: usize = 0;
    while k < len
        invariant
            k <= len <= buffer.info@.len() <= before.len(),
            pos@.len() == before.len(),
            forall|m: int|
                0 <= m < k ==> (#[trigger] pos@[m]).attach_chain == 0 && pos@[m].attach_type == 0
                    && pos@[m].x_advance == before[m].x_advance && pos@[m].y_advance == before[m].y_advance
                    && pos@[m].x_offset == before[m].x_offset && pos@[m].y_offset == before[m].y_offset,
            forall|m: int| k <= m < pos@.len() ==> #[trigger] pos@[m] == before[m],
        decreases len - k,
    {
        let mut p: GlyphPosition = pos[k];
        p.attach_chain = 0;
        p.attach_type = 0;
        pos.set(k, p);
        k = k + 1;
    }
    core::mem::swap(&mut pos, &mut buffer.pos);
}

/// Turns attachment chains into offsets once GPOS has run: a mark moves by
/// the offset of its base and by the advances between them, a cursive
/// glyph by the cross-stream offset of the glyph it hangs from. Afterwards
/// no glyph has an attachment chain left.
pub fn position_finish_offsets(buffer: &mut Buffer)
    requires
        old(buffer).wf(),
    ensures
        final(buffer).wf(),
        final(buffer).pos@.len() == old(buffer).pos@.len(),
        old(buffer).scratch_flags & HAS_GPOS_ATTACHMENT == 0 ==> *final(buffer) == *old(buffer),
        old(buffer).scratch_flags & HAS_GPOS_ATTACHMENT != 0 ==> final(buffer).pos@ == spec_finish_offsets(
            old(buffer).pos@,
            old(buffer).pos@,
            old(buffer).len as int,
            old(buffer).len as int,
            old(buffer).direction,
        ),
        old(buffer).scratch_flags & HAS_GPOS_ATTACHMENT != 0 ==> forall|k: int|
            0 <= k < old(buffer).len ==> (#[trigger] final(buffer).pos@[k]).attach_chain == 0,
        forall|k: int|
            0 <= k < final(buffer).pos@.len() ==> same_but_offsets(#[trigger] final(buffer).pos@[k], old(buffer).pos@[k]),
        *final(buffer) == (Buffer { pos: final(buffer).pos, ..*old(buffer) }),
{
    if buffer.scratch_flags & HAS_GPOS_ATTACHMENT == 0 {
        return;
    }
    let len: usize = buffer.len;
    let direction: Direction = buffer.direction;
    let ghost pos0 = buffer.pos@;
    let mut cum: Vec<(i128, i128)> = Vec::new();
    let mut sx: i128 = 0;
    let mut sy: i128 = 0;
    cum.push((0, 0));
    let mut k: usize = 0;
    while k < len
        invariant
            k <= len <= buffer.pos@.len(),
            buffer.pos@ == pos0,
            cum@.len() == k + 1,
            -(k as int) * 0x8000_0000 <= sx <= (k as int) * 0x8000_0000,
            -(k as int) * 0x8000_0000 <= sy <= (k as int) * 0x8000_0000,
            sx == advance_sums(pos0, k as int).0,
            sy == advance_sums(pos0, k as int).1,
            forall|m: int|
                0 <= m < cum@.len() ==> -SPAN_BOUND / 2 <= #[trigger] cum@[m].0 <= SPAN_BOUND / 2 && -SPAN_BOUND
                    / 2 <= cum@[m].1 <= SPAN_BOUND / 2,
            forall|m: int| 0 <= m < cum@.len() ==> #[trigger] cum@[m].0 == advance_sums(pos0, m).0
                && cum@[m].1 == advance_sums(pos0, m).1,
        decreases len - k,
    {
        let p: GlyphPosition = buffer.pos[k];
        assert(-((k + 1) as int) * 0x8000_0000 <= sx + p.x_advance <= ((k + 1) as int) * 0x8000_0000)
            by (nonlinear_arith)
            requires
                -(k as int) * 0x8000_0000 <= sx <= (k as int) * 0x8000_0000,
                -0x8000_0000 <= p.x_advance < 0x8000_0000,
        ;
        assert(-((k + 1) as int) * 0x8000_0000 <= sy + p.y_advance <= ((k + 1) as int) * 0x8000_0000)
            by (nonlinear_arith)
            requires
                -(k as int) * 0x8000_0000 <= sy <= (k as int) * 0x8000_0000,
                -0x8000_0000 <= p.y_advance < 0x8000_0000,
        ;
        assert(((k + 1) as int) * 0x8000_0000 <= SPAN_BOUND / 2) by (nonlinear_arith)
            requires
                k + 1 <= 0x1_0000_0000_0000_0000,
        ;
        sx = sx + p.x_advance as i128;
        sy = sy + p.y_advance as i128;
        cum.push((sx, sy));
        k = k + 1;
    }
    let span = Advances { cum: cum.as_slice() };
    let mut pos: Vec<GlyphPosition> = Vec::new();
    core::mem::swap(&mut pos, &mut buffer.pos);
    let ghost before = pos@;
    let mut i: usize = 0;
    while i < len
        invariant
            i <= len <= pos@.len(),
            pos@.len() == before.len(),
            before == pos0,
            span.wf(),
            span.cum@.len() == len + 1,
            forall|k: int| 0 <= k <= len ==> #[trigger] span.cum@[k].0 == advance_sums(pos0, k).0
                && span.cum@[k].1 == advance_sums(pos0, k).1,
            pos@ == spec_finish_offsets(pos0, pos0, len as int, i as int, direction),
            forall|m: int| 0 <= m < i ==> (#[trigger] pos@[m]).attach_chain == 0,
            forall|m: int| 0 <= m < pos@.len() ==> same_but_offsets(#[trigger] pos@[m], before[m]),
        decreases len - i,
    {
        let ghost mid = pos@;
        propagate_attachment_offsets(&mut pos, len, i, direction, &span, Ghost(pos0));
        assert forall|m: int| 0 <= m < i + 1 implies (#[trigger] pos@[m]).attach_chain == 0 by {
            if m < i {
                assert(mid[m].attach_chain == 0);
            }
        }
        assert forall|m: int| 0 <= m < pos@.len() implies same_but_offsets(#[trigger] pos@[m], before[m]) by {
            assert(same_but_offsets(pos@[m], mid[m]));
            assert(same_but_offsets(mid[m], before[m]));
        }
        i = i + 1;
    }
    core::mem::swap(&mut pos, &mut buffer.pos);
}

/// Whether a mark may attach to the glyph at `idx` as to a base: any
/// glyph but a later component of a ligature that was multiplied out.
pub open spec fn spec_accept(info: Seq<GlyphInfo>, idx: int) -> bool {
    info[idx].glyph_props & MULTIPLIED == 0 || info[idx].spec_lig_comp() == 0 || idx == 0
        || info[idx - 1].glyph_props & MARK != 0 || info[idx - 1].glyph_props & MULTIPLIED == 0
        || info[idx].lig_props >> 5u8 != info[idx - 1].lig_props >> 5u8 || info[idx].spec_lig_comp()
        != info[idx - 1].spec_lig_comp() + 1
}

pub fn accept(buffer: &Buffer, idx: usize) -> (r: bool)
    requires
        idx < buffer.info@.len(),
    ensures
        r == spec_accept(buffer.info@, idx as int),
{
    let info = &buffer.info;
    !info[idx].multiplied() || info[idx].lig_comp() == 0 || idx == 0 || info[idx - 1].is_mark()
        || !info[idx - 1].multiplied() || info[idx].lig_id() != info[idx - 1].lig_id()
        || info[idx].lig_comp() as u16 != info[idx - 1].lig_comp() as u16 + 1
}

/// Whether a mark may attach to the glyph at `idx` as to a ligature.
pub fn accept_ligature(buffer: &Buffer, idx: usize) -> (r: bool)
    requires
        idx < buffer.info@.len(),
    ensures
        r == (buffer.info@[idx as int].glyph_props & MULTIPLIED == 0 || buffer.info@[idx as int].spec_lig_comp()
            == 0),
{
    !buffer.info[idx].multiplied() || buffer.info[idx].lig_comp() == 0
}

/// The fields of a GPOS value record.
#[derive(Clone, Copy, PartialEq, Eq, Structural, Debug)]
pub struct ValueRecord {
    pub x_placement: i16,
    pub y_placement: i16,
    pub x_advance: i16,
    pub y_advance: i16,
    pub x_placement_device: u16,
    pub y_placement_device: u16,
    pub x_advance_device: u16,
    pub y_advance_device: u16,
}

/// The number of format bits below bit `b` that are set.
pub open spec fn ones_below(format: u16, b: nat) -> int
    decreases b,
{
    if b == 0 {
        0
    } else {
        ones_below(format, (b - 1) as nat) + if (format >> ((b - 1) as u16)) & 1 != 0 {
            1int
        } else {
            0
        }
    }
}

/// Word `k` of the value record at `at`: read where the record (cut short
/// by the end of the data) holds it, zero otherwise.
pub open spec fn spec_vr_word(d: Seq<u8>, at: int, format: u16, k: int) -> u16 {
    let end = if at + spec_value_record_len(format) <= d.len() {
        at + spec_value_record_len(format)
    } else {
        d.len() as int
    };
    if at <= d.len() && at + 2 * k + 2 <= end {
        spec_u16(d, at + 2 * k).unwrap()
    } else {
        0
    }
}

/// The field for format bit `b`: the next word of the record where the bit
/// is set, zero where it is not.
pub open spec fn spec_vr_field(d: Seq<u8>, at: int, format: u16, b: nat) -> u16 {
    if (format >> (b as u16)) & 1 != 0 {
        spec_vr_word(d, at, format, ones_below(format, b))
    } else {
        0
    }
}

/// The value record of the given format at `at`.
pub open spec fn spec_value_record(d: Seq<u8>, at: int, format: u16) -> ValueRecord {
    ValueRecord {
        x_placement: spec_vr_field(d, at, format, 0) as i16,
        y_placement: spec_vr_field(d, at, format, 1) as i16,
        x_advance: spec_vr_field(d, at, format, 2) as i16,
        y_advance: spec_vr_field(d, at, format, 3) as i16,
        x_placement_device: spec_vr_field(d, at, format, 4),
        y_placement_device: spec_vr_field(d, at, format, 5),
        x_advance_device: spec_vr_field(d, at, format, 6),
        y_advance_device: spec_vr_field(d, at, format, 7),
    }
}

impl ValueRecord {
    /// Reads the value record of the given format at `at`; fields past the
    /// end of the data read as zero.
    pub fn parse(data: &[u8], at: usize, format: u16) -> (v: ValueRecord)
        ensures
            v == spec_value_record(data@, at as int, format),
    {
        let mut words: [u16; 8] = [0u16; 8];
        let mut k: usize = 0;
        let mut b: u16 = 0;
        while b < 8
            invariant
                b <= 8,
                k == ones_below(format, b as nat),
                k <= b,
                forall|c: int| 0 <= c < b ==> #[trigger] words@[c] == spec_vr_field(data@, at as int, format, c as nat),
                forall|c: int| b <= c < 8 ==> #[trigger] words@[c] == 0,
            decreases 8 - b,
        {
            if (format >> b) & 1 != 0 {
                words[b as usize] = vr_word(data, at, format, k);
                k = k + 1;
            }
            b = b + 1;
        }
        ValueRecord {
            x_placement: words[0] as i16,
            y_placement: words[1] as i16,
            x_advance: words[2] as i16,
            y_advance: words[3] as i16,
            x_placement_device: words[4],
            y_placement_device: words[5],
            x_advance_device: words[6],
            y_advance_device: words[7],
        }
    }
}

fn vr_word(data: &[u8], at: usize, format: u16, k: usize) -> (r: u16)
    requires
        k < 8,
    ensures
        r == spec_vr_word(data@, at as int, format, k as int),
{
    let n: usize = data.len();
    if at > n {
        return 0;
    }
    let vlen: usize = value_record_len(format);
    let end: usize = if n - at >= vlen {
        at + vlen
    } else {
        n
    };
    if end - at >= 2 * k + 2 {
        match read_u16_be(data, at + 2 * k) {
            Some(v) => v,
            None => 0,
        }
    } else {
        0
    }
}

/// Mark record `index` of a mark array: its class and the offset of its
/// anchor.
pub fn mark_record(marks: &[u8], index: u16) -> (r: Option<(u16, u16)>)
    ensures
        r == match spec_u16(marks@, 0) {
            None => None,
            Some(count) => if index >= count {
                None
            } else {
                match (spec_u16(marks@, 2 + index * 4), spec_u16(marks@, 4 + index * 4)) {
                    (Some(class), Some(anchor)) => Some((class, anchor)),
                    _ => None,
                }
            },
        },
{
    let count: u16 = match read_u16_be(marks, 0) {
        Some(c) => c,
        None => return None,
    };
    if index >= count {
        return None;
    }
    let at: usize = 2 + index as usize * 4;
    match (read_u16_be(marks, at), read_u16_be(marks, at + 2)) {
        (Some(class), Some(anchor)) => Some((class, anchor)),
        _ => None,
    }
}

/// The data from a nonzero 16-bit offset on.
pub fn offset_slice_at(data: &[u8], off: u16) -> (r: Option<&[u8]>)
    ensures
        r matches Some(t) ==> off != 0 && off <= data@.len() && t@ == data@.subrange(off as int, data@.len() as int),
        r is None ==> off == 0 || off > data@.len(),
{
    if off == 0 || off as usize > data.len() {
        return None;
    }
    Some(&data[off as usize..data.len()])
}

/// The data from the nonzero 16-bit offset stored at `at` on.
pub fn offset_slice(data: &[u8], at: usize) -> (r: Option<&[u8]>)
    ensures
        match spec_u16(data@, at as int) {
            None => r is None,
            Some(off) => if off == 0 || off > data@.len() {
                r is None
            } else {
                r matches Some(t) && t@ == data@.subrange(off as int, data@.len() as int)
            },
        },
{
    match read_u16_be(data, at) {
        None => None,
        Some(off) => offset_slice_at(data, off),
    }
}

/// The header of a mark attachment subtable.
#[derive(Clone, Copy, PartialEq, Eq, Structural, Debug)]
pub struct MarkHead {
    pub mark_cov: u16,
    pub other_cov: u16,
    pub class_count: u16,
    pub mark_array: u16,
    pub other_array: u16,
}

/// Reads the header of a format-1 mark attachment subtable.
pub fn mark_head(data: &[u8]) -> (r: Option<MarkHead>)
    ensures
        (data@.len() >= 12 && spec_u16(data@, 0) == Some(1u16)) <==> r is Some,
        r matches Some(h) ==> h == (MarkHead {
            mark_cov: spec_u16(data@, 2).unwrap(),
            other_cov: spec_u16(data@, 4).unwrap(),
            class_count: spec_u16(data@, 6).unwrap(),
            mark_array: spec_u16(data@, 8).unwrap(),
            other_array: spec_u16(data@, 10).unwrap(),
        }),
{
    if data.len() < 12 {
        return None;
    }
    let w = |i: usize| -> (r: u16)
        requires
            i <= 10,
            data@.len() >= 12,
        ensures
            r == spec_u16(data@, i as int).unwrap(),
        {
            match read_u16_be(data, i) {
                Some(v) => v,
                None => 0,
            }
        };
    if w(0) != 1 {
        return None;
    }
    Some(MarkHead { mark_cov: w(2), other_cov: w(4), class_count: w(6), mark_array: w(8), other_array: w(10) })
}

/// The glyph of pair record `m` of a pair set with records of `stride`
/// bytes.
pub open spec fn spec_pair_glyph(set: Seq<u8>, m: int, stride: int) -> Option<u16> {
    spec_u16(set, 2 + m * stride)
}

/// Finds the pair record for second glyph `second` by binary search over a
/// pair set, and reads its two value records.
pub fn pair_set_lookup(set: &[u8], second: u16, format1: u16, format2: u16) -> (r: Option<(ValueRecord, ValueRecord)>)
    ensures
        r matches Some((v1, v2)) ==> {
            let stride = 2 + spec_value_record_len(format1) + spec_value_record_len(format2);
            exists|m: int|
                0 <= m < spec_u16(set@, 0).unwrap() && #[trigger] spec_pair_glyph(set@, m, stride) == Some(second)
                    && v1 == spec_value_record(set@, 2 + m * stride + 2, format1) && v2 == spec_value_record(
                    set@,
                    2 + m * stride + 2 + spec_value_record_len(format1),
                    format2,
                )
        },
        ({
            let stride = 2 + spec_value_record_len(format1) + spec_value_record_len(format2);
            &&& spec_u16(set@, 0) is Some
            &&& forall|m: int| 0 <= m < spec_u16(set@, 0).unwrap() ==> #[trigger] spec_pair_glyph(set@, m, stride) is Some
            &&& forall|a: int, b: int|
                0 <= a < b < spec_u16(set@, 0).unwrap() ==> spec_pair_glyph(set@, a, stride).unwrap()
                    < spec_pair_glyph(set@, b, stride).unwrap()
            &&& exists|m: int| 0 <= m < spec_u16(set@, 0).unwrap() && #[trigger] spec_pair_glyph(set@, m, stride) == Some(second)
        }) ==> r is Some,
{
    let count: u16 = match read_u16_be(set, 0) {
        Some(c) => c,
        None => return None,
    };
    let stride: usize = 2 + value_record_len(format1) + value_record_len(format2);
    let ghost st = stride as int;
    let ghost sorted = (forall|m: int| 0 <= m < count ==> #[trigger] spec_pair_glyph(set@, m, st) is Some)
        && (forall|a: int, b: int|
        0 <= a < b < count ==> spec_pair_glyph(set@, a, st).unwrap() < spec_pair_glyph(set@, b, st).unwrap());
    let mut lo: u16 = 0;
    let mut hi: u16 = count;
    while lo < hi
        invariant
            lo <= hi <= count,
            spec_u16(set@, 0) == Some(count),
            stride == st,
            st == 2 + spec_value_record_len(format1) + spec_value_record_len(format2),
            st <= 34,
            sorted ==> forall|m: int|
                0 <= m < count && #[trigger] spec_pair_glyph(set@, m, st) == Some(second) ==> lo <= m < hi,
            sorted == ((forall|m: int| 0 <= m < count ==> #[trigger] spec_pair_glyph(set@, m, st) is Some)
                && (forall|a: int, b: int|
                0 <= a < b < count ==> spec_pair_glyph(set@, a, st).unwrap() < spec_pair_glyph(set@, b, st).unwrap())),
        decreases hi - lo,
    {
        let mid: u16 = lo + (hi - lo) / 2;
        assert(mid as int * st <= 0xFFFF * 34) by (nonlinear_arith)
            requires
                mid <= 0xFFFF,
                st <= 34,
        ;
        let at: usize = 2 + mid as usize * stride;
        let glyph: u16 = match read_u16_be(set, at) {
            Some(g) => g,
            None => return None,
        };
        assert(spec_pair_glyph(set@, mid as int, st) == Some(glyph));
        if glyph < second {
            proof {
                if sorted {
                    assert forall|m: int|
                        0 <= m < count && #[trigger] spec_pair_glyph(set@, m, st) == Some(second) implies mid + 1 <= m < hi by {
                        if m <= mid {
                            if m < mid {
                                assert(spec_pair_glyph(set@, m, st).unwrap() < spec_pair_glyph(set@, mid as int, st).unwrap());
                            }
                        }
                    }
                }
            }
            lo = mid + 1;
        } else if glyph > second {
            proof {
                if sorted {
                    assert forall|m: int|
                        0 <= m < count && #[trigger] spec_pair_glyph(set@, m, st) == Some(second) implies lo <= m < mid by {
                        if m >= mid {
                            if m > mid {
                                assert(spec_pair_glyph(set@, mid as int, st).unwrap() < spec_pair_glyph(set@, m, st).unwrap());
                            }
                        }
                    }
                }
            }
            hi = mid;
        } else {
            let v1 = ValueRecord::parse(set, at + 2, format1);
            let v2 = ValueRecord::parse(set, at + 2 + value_record_len(format1), format2);
            return Some((v1, v2));
        }
    }
    None
}

/// The value records of the class pair `(class1, class2)` of a format-2
/// pair subtable whose class matrix starts at byte 16.
pub open spec fn spec_class_matrix(d: Seq<u8>, class1: u16, class2: u16, count1: u16, count2: u16, format1: u16, format2: u16) -> Option<(ValueRecord, ValueRecord)> {
    let len1 = spec_value_record_len(format1);
    let stride = len1 + spec_value_record_len(format2);
    let at = (class1 * count2 + class2) * stride + 16;
    if class1 >= count1 || class2 >= count2 || at + stride > d.len() {
        None
    } else {
        Some((spec_value_record(d, at, format1), spec_value_record(d, at + len1, format2)))
    }
}

/// Reads the two value records stored for the class pair
/// `(class1, class2)` in the class matrix of a format-2 pair subtable.
#[verifier::spinoff_prover]
pub fn class_matrix_lookup(
    data: &[u8],
    class1: u16,
    class2: u16,
    count1: u16,
    count2: u16,
    format1: u16,
    format2: u16,
) -> (r: Option<(ValueRecord, ValueRecord)>)
    ensures
        r == spec_class_matrix(data@, class1, class2, count1, count2, format1, format2),
{
    if class1 >= count1 || class2 >= count2 {
        return None;
    }
    let len1: usize = value_record_len(format1);
    let stride: usize = len1 + value_record_len(format2);
    let ghost at_int = (class1 * count2 + class2) * stride + 16;
    let n: usize = data.len();
    let ghost k: int = class1 * count2 + class2;
    assert(0 <= class1 * count2 <= 0xFFFE0001) by (nonlinear_arith)
        requires
            class1 <= 0xFFFF,
            count2 <= 0xFFFF,
    ;
    assert(0 <= k * stride) by (nonlinear_arith)
        requires
            k >= 0,
            stride >= 0,
    ;
    let a: usize = (class1 as usize) * (count2 as usize);
    let b: usize = a + class2 as usize;
    let c: usize = match b.checked_mul(stride) {
        Some(x) => x,
        None => {
            assert(at_int + stride > n);
            return None;
        },
    };
    let at: usize = match c.checked_add(16) {
        Some(x) => x,
        None => return None,
    };
    match at.checked_add(stride) {
        None => return None,
        Some(end) => if end > n {
            return None;
        },
    }
    Some((ValueRecord::parse(data, at, format1), ValueRecord::parse(data, at + len1, format2)))
}


/// The variation deltas of the face as plain values: whether the face has
/// variation axes (and so applies device tables at all), and the rounded
/// delta of each (outer, inner) index pair of its variation store that the
/// text may ask for.
pub struct DeviceDeltas {
    pub active: bool,
    pub deltas: Vec<(u16, u16, i32)>,
}

/// A delta small enough to be added to a 16-bit anchor coordinate.
pub open spec fn delta_fits(v: i32) -> bool {
    i32::MIN + 0x8000 <= v <= i32::MAX - 0x8000
}

/// The delta of the first entry for `(outer, inner)` from `k` on, or 0.
pub open spec fn spec_variation_delta(ds: Seq<(u16, u16, i32)>, outer: u16, inner: u16, k: int) -> i32
    decreases ds.len() - k,
{
    if k < 0 || k >= ds.len() {
        0
    } else if ds[k].0 == outer && ds[k].1 == inner {
        ds[k].2
    } else {
        spec_variation_delta(ds, outer, inner, k + 1)
    }
}

proof fn lemma_variation_delta_fits(ds: Seq<(u16, u16, i32)>, outer: u16, inner: u16, k: int)
    requires
        forall|q: int| 0 <= q < ds.len() ==> delta_fits(#[trigger] ds[q].2),
    ensures
        delta_fits(spec_variation_delta(ds, outer, inner, k)),
    decreases ds.len() - k,
{
    if 0 <= k < ds.len() && !(ds[k].0 == outer && ds[k].1 == inner) {
        lemma_variation_delta_fits(ds, outer, inner, k + 1);
    }
}

impl DeviceDeltas {
    /// Every delta can be added to a 16-bit coordinate.
    pub open spec fn wf(&self) -> bool {
        forall|q: int| 0 <= q < self.deltas@.len() ==> delta_fits(#[trigger] self.deltas@[q].2)
    }

    /// The delta for `(outer, inner)`: the first entry for the pair, or 0.
    pub fn variation_delta(&self, outer: u16, inner: u16) -> (r: i32)
        ensures
            r == spec_variation_delta(self.deltas@, outer, inner, 0),
    {
        let mut k: usize = 0;
        while k < self.deltas.len()
            invariant
                k <= self.deltas@.len(),
                spec_variation_delta(self.deltas@, outer, inner, 0) == spec_variation_delta(
                    self.deltas@,
                    outer,
                    inner,
                    k as int,
                ),
            decreases self.deltas@.len() - k,
        {
            let (o, i, v) = self.deltas[k];
            if o == outer && i == inner {
                return v;
            }
            k = k + 1;
        }
        0
    }
}

/// The data of a table from offset `off` on; `None` for a null offset or
/// one past the end.
pub open spec fn spec_offset_tail(d: Seq<u8>, off: u16) -> Option<Seq<u8>> {
    if off == 0 || off > d.len() {
        None
    } else {
        Some(d.subrange(off as int, d.len() as int))
    }
}

/// The delta a device (variation index) table at offset `off` of `owner`
/// adds: the variation delta of its index pair when the table is one of
/// variation indices, else 0.
pub open spec fn spec_device_delta(ds: Seq<(u16, u16, i32)>, owner: Seq<u8>, off: u16) -> i32 {
    match spec_offset_tail(owner, off) {
        None => 0,
        Some(d) => if spec_u16(d, 4) != Some(0x8000u16) {
            0
        } else {
            match (spec_u16(d, 0), spec_u16(d, 2)) {
                (Some(outer), Some(inner)) => spec_variation_delta(ds, outer, inner, 0),
                _ => 0,
            }
        },
    }
}

/// The signed value of a 16-bit word.
pub open spec fn signed16(u: u16) -> i32 {
    if u >= 0x8000 {
        (u - 0x10000) as i32
    } else {
        u as i32
    }
}

/// The anchor at offset `off` of `owner`: its coordinates, moved by its
/// device tables when it has them (format 3) and the face applies them.
pub open spec fn spec_anchor(active: bool, ds: Seq<(u16, u16, i32)>, owner: Seq<u8>, off: u16) -> Option<(i32, i32)> {
    match spec_offset_tail(owner, off) {
        None => None,
        Some(d) => if d.len() < 6 {
            None
        } else {
            let x = signed16(spec_u16(d, 2).unwrap());
            let y = signed16(spec_u16(d, 4).unwrap());
            if spec_u16(d, 0) == Some(3u16) && active {
                let xo = match spec_u16(d, 6) {
                    Some(o) => o,
                    None => 0,
                };
                let yo = match spec_u16(d, 8) {
                    Some(o) => o,
                    None => 0,
                };
                Some(((x + spec_device_delta(ds, d, xo)) as i32, (y + spec_device_delta(ds, d, yo)) as i32))
            } else {
                Some((x, y))
            }
        },
    }
}

fn device_delta(deltas: &DeviceDeltas, owner: &[u8], off: u16) -> (r: i32)
    requires
        deltas.wf(),
    ensures
        r == spec_device_delta(deltas.deltas@, owner@, off),
        delta_fits(r),
{
    proof {
        assert(delta_fits(0));
    }
    let d: &[u8] = match offset_slice_at(owner, off) {
        None => return 0,
        Some(d) => d,
    };
    if read_u16_be(d, 4) != Some(0x8000u16) {
        return 0;
    }
    match (read_u16_be(d, 0), read_u16_be(d, 2)) {
        (Some(outer), Some(inner)) => {
            proof {
                lemma_variation_delta_fits(deltas.deltas@, outer, inner, 0);
            }
            deltas.variation_delta(outer, inner)
        },
        _ => 0,
    }
}

fn word_signed(u: u16) -> (r: i32)
    ensures
        r == signed16(u),
{
    if u >= 0x8000 {
        u as i32 - 0x10000
    } else {
        u as i32
    }
}

/// Reads the anchor at offset `off` of `owner` (see `spec_anchor`).
pub fn anchor(deltas: &DeviceDeltas, owner: &[u8], off: u16) -> (r: Option<(i32, i32)>)
    requires
        deltas.wf(),
    ensures
        r == spec_anchor(deltas.active, deltas.deltas@, owner@, off),
{
    let d: &[u8] = match offset_slice_at(owner, off) {
        None => return None,
        Some(d) => d,
    };
    if d.len() < 6 {
        return None;
    }
    let format: u16 = read_u16_be(d, 0).unwrap();
    let x: i32 = word_signed(read_u16_be(d, 2).unwrap());
    let y: i32 = word_signed(read_u16_be(d, 4).unwrap());
    if format == 3 && deltas.active {
        let xo: u16 = match read_u16_be(d, 6) {
            Some(o) => o,
            None => 0,
        };
        let yo: u16 = match read_u16_be(d, 8) {
            Some(o) => o,
            None => 0,
        };
        let dx: i32 = device_delta(deltas, d, xo);
        let dy: i32 = device_delta(deltas, d, yo);
        return Some((x + dx, y + dy));
    }
    Some((x, y))
}

/// What a backward walk with no input to match makes of glyph `info`: a
/// glyph it skips surely is passed over; one in the lookup's mask (and
/// syllable) that it cannot skip is found; one outside the mask stops the
/// walk unless it may be passed over.
pub open spec fn spec_match_any(m: Matcher, gdef: Option<Gdef>, info: GlyphInfo) -> Match {
    let skip = spec_may_skip(m, gdef, info);
    let in_mask = (info.mask & m.mask) != 0 && (m.syllable == 0 || m.syllable == info.syllable);
    if skip == MaySkip::Yes {
        Match::Skip
    } else if in_mask && skip == MaySkip::No {
        Match::Yes
    } else if skip == MaySkip::No {
        Match::No
    } else {
        Match::Skip
    }
}

/// The walk back from `p` (not itself looked at) over `infos` to the
/// previous glyph the lookup sees: whether it finds one, where, and where
/// the stretch it read starts when it fails.
pub open spec fn spec_prev_glyph(m: Matcher, gdef: Option<Gdef>, infos: Seq<GlyphInfo>, p: int) -> (bool, int, int)
    decreases p,
{
    if p <= 0 {
        (false, 0, 0)
    } else {
        match spec_match_any(m, gdef, infos[p - 1]) {
            Match::Yes => (true, p - 1, 0),
            Match::No => (false, p - 1, if p - 1 >= 1 {
                p - 2
            } else {
                0
            }),
            Match::Skip => spec_prev_glyph(m, gdef, infos, p - 1),
        }
    }
}

proof fn lemma_prev_glyph_bounds(m: Matcher, gdef: Option<Gdef>, infos: Seq<GlyphInfo>, p: int)
    requires
        p >= 0,
    ensures
        0 <= spec_prev_glyph(m, gdef, infos, p).1 <= p,
        spec_prev_glyph(m, gdef, infos, p).0 ==> spec_prev_glyph(m, gdef, infos, p).1 < p,
        0 <= spec_prev_glyph(m, gdef, infos, p).2 <= p,
    decreases p,
{
    if p > 0 {
        lemma_prev_glyph_bounds(m, gdef, infos, p - 1);
    }
}

fn prev_glyph(m: &Matcher, gdef: Option<&Gdef>, infos: &[GlyphInfo], p: usize) -> (r: (bool, usize, usize))
    requires
        p <= infos@.len(),
        gdef_ok(match gdef {
            Some(g) => Some(*g),
            None => None,
        }),
    ensures
        ({
            let s = spec_prev_glyph(*m, match gdef {
                Some(g) => Some(*g),
                None => None,
            }, infos@, p as int);
            r.0 == s.0 && r.1 as int == s.1 && r.2 as int == s.2
        }),
{
    let ghost g = match gdef {
        Some(g) => Some(*g),
        None => None,
    };
    let mut q: usize = p;
    while q > 0
        invariant
            q <= p <= infos@.len(),
            gdef_ok(g),
            g == match gdef {
                Some(g) => Some(*g),
                None => None,
            },
            spec_prev_glyph(*m, g, infos@, p as int) == spec_prev_glyph(*m, g, infos@, q as int),
        decreases q,
    {
        q = q - 1;
        let info: &GlyphInfo = &infos[q];
        let skip: MaySkip = may_skip(m, gdef, info);
        let in_mask: bool = (info.mask & m.mask) != 0 && (m.syllable == 0 || m.syllable == info.syllable);
        if skip == MaySkip::Yes {
        } else if in_mask && skip == MaySkip::No {
            return (true, q, 0);
        } else if skip == MaySkip::No {
            let from: usize = if q >= 1 {
                q - 1
            } else {
                0
            };
            return (false, q, from);
        }
    }
    (false, 0, 0)
}

/// What a cursive attachment subtable does at the current glyph: nothing;
/// marks a stretch unsafe to concatenate and does nothing more; or joins
/// the current glyph to the previous glyph `i` with the entry anchor of the
/// one and the exit anchor of the other.
#[derive(Clone, Copy, Debug)]
pub enum CursiveStep {
    Skip,
    Unsafe(usize, usize),
    Attach(usize, (i32, i32), (i32, i32)),
}

/// The step a cursive attachment subtable `data` (format 1) takes at the
/// current glyph of `b`: the current glyph must be covered and have an
/// entry anchor; the walk back must find a glyph the lookup sees, and it
/// must be covered and have an exit anchor.
pub open spec fn spec_cursive_step(
    st: ApplyState,
    gdef: Option<Gdef>,
    active: bool,
    ds: Seq<(u16, u16, i32)>,
    b: Buffer,
    data: Seq<u8>,
) -> CursiveStep {
    let j = b.idx as int;
    if spec_u16(data, 0) != Some(1u16) {
        CursiveStep::Skip
    } else {
        match spec_offset_coverage(data, 2) {
            None => CursiveStep::Skip,
            Some(cov) => match spec_coverage_index(cov, b.info@[j].id as u16) {
                None => CursiveStep::Skip,
                Some(index_this) => match spec_u16(data, 4) {
                    None => CursiveStep::Skip,
                    Some(count) => if index_this >= count {
                        CursiveStep::Skip
                    } else {
                        let entry_off = match spec_u16(data, 6 + index_this * 4) {
                            Some(o) => o,
                            None => 0,
                        };
                        match spec_anchor(active, ds, data, entry_off) {
                            None => CursiveStep::Skip,
                            Some(entry) => {
                                let walk = spec_prev_glyph(spec_matcher(st, b.info@[j], false), gdef, b.info@, j);
                                if !walk.0 {
                                    CursiveStep::Unsafe(walk.2 as usize, (j + 1) as usize)
                                } else {
                                    let i = walk.1;
                                    match spec_coverage_index(cov, b.info@[i].id as u16) {
                                        None => CursiveStep::Skip,
                                        Some(index_prev) => if index_prev >= count {
                                            CursiveStep::Skip
                                        } else {
                                            let exit_off = match spec_u16(data, 6 + index_prev * 4 + 2) {
                                                Some(o) => o,
                                                None => 0,
                                            };
                                            match spec_anchor(active, ds, data, exit_off) {
                                                None => CursiveStep::Unsafe(i as usize, (j + 1) as usize),
                                                Some(exit) => CursiveStep::Attach(i as usize, entry, exit),
                                            }
                                        },
                                    }
                                }
                            },
                        }
                    },
                },
            },
        }
    }
}

/// Whether the lookup runs right to left: then the earlier glyph of a
/// cursive pair hangs from the later one.
pub open spec fn lookup_right_to_left(st: ApplyState) -> bool {
    (st.lookup_props as u16) & RIGHT_TO_LEFT != 0
}

/// The buffer `b` after glyph `i` and the current glyph are joined at the
/// anchors `entry` and `exit` (see `cursive_attach`).
pub open spec fn cursive_attached(b: Buffer, old: Buffer, i: int, entry: (i32, i32), exit: (i32, i32), right_to_left: bool) -> bool {
    &&& b.pos@ == spec_cursive(old.pos@, old.direction, i, old.idx as int, entry, exit, right_to_left)
    &&& b.info@ == old.glyph_flags_info(UNSAFE_TO_BREAK | UNSAFE_TO_CONCAT, i, old.idx + 1, true, false)
    &&& b.out_info@ == old.glyph_flags_out(UNSAFE_TO_BREAK | UNSAFE_TO_CONCAT, i, old.idx + 1, true, false)
    &&& b.scratch_flags == (if old.glyph_flags_skipped(i, old.idx + 1, true, false) {
        old.scratch_flags
    } else {
        old.scratch_flags | HAS_GLYPH_FLAGS
    }) | HAS_GPOS_ATTACHMENT
    &&& b.idx == old.idx + 1
    &&& b.len == old.len
    &&& b.out_len == old.out_len
    &&& b.have_output == old.have_output
    &&& b.out_lockstep == old.out_lockstep
    &&& b.successful == old.successful
    &&& b.same_settings(&old)
}

/// The buffer `b` after `start .. end` of `old` is marked unsafe to
/// concatenate, read from the output.
pub open spec fn concat_marked(b: Buffer, old: Buffer, start: int, end: int) -> bool {
    &&& b.only_flags_added(&old, UNSAFE_TO_CONCAT)
    &&& !old.produce_unsafe_to_concat ==> b == old
    &&& old.produce_unsafe_to_concat ==> b.glyph_flags_set(&old, UNSAFE_TO_CONCAT, start, end, false, true)
}

/// The sums a cursive step computes stay within `i32`, and the chains it
/// turns around can be negated.
pub open spec fn cursive_step_fits(step: CursiveStep, st: ApplyState, b: Buffer) -> bool {
    match step {
        CursiveStep::Attach(i, entry, exit) => negatable(b.pos@, b.direction.spec_is_horizontal()) && cursive_fits(
            b.pos@,
            b.direction,
            i as int,
            b.idx as int,
            entry,
            exit,
            lookup_right_to_left(st),
        ),
        _ => true,
    }
}

/// Applies a cursive attachment subtable at the current glyph (see
/// `spec_cursive_step`); true when the glyph was joined to the previous one
/// and the buffer moved past it.
pub fn cursive(
    st: &ApplyState,
    gdef: Option<&Gdef>,
    deltas: &DeviceDeltas,
    buffer: &mut Buffer,
    data: &[u8],
) -> (r: bool)
    requires
        old(buffer).wf(),
        !old(buffer).have_output,
        old(buffer).idx < old(buffer).len,
        deltas.wf(),
        gdef_ok(match gdef {
            Some(g) => Some(*g),
            None => None,
        }),
        cursive_step_fits(
            spec_cursive_step(*st, match gdef {
                Some(g) => Some(*g),
                None => None,
            }, deltas.active, deltas.deltas@, *old(buffer), data@),
            *st,
            *old(buffer),
        ),
    ensures
        match spec_cursive_step(*st, match gdef {
            Some(g) => Some(*g),
            None => None,
        }, deltas.active, deltas.deltas@, *old(buffer), data@) {
            CursiveStep::Skip => !r && *final(buffer) == *old(buffer),
            CursiveStep::Unsafe(a, b) => !r && concat_marked(*final(buffer), *old(buffer), a as int, b as int),
            CursiveStep::Attach(i, entry, exit) => r && cursive_attached(
                *final(buffer),
                *old(buffer),
                i as int,
                entry,
                exit,
                lookup_right_to_left(*st),
            ),
        },
{
    let ghost g = match gdef {
        Some(g) => Some(*g),
        None => None,
    };
    let ghost step = spec_cursive_step(*st, g, deltas.active, deltas.deltas@, *buffer, data@);
    if read_u16_be(data, 0) != Some(1u16) {
        return false;
    }
    let j: usize = buffer.idx;
    let this: u16 = buffer.info[j].id as u16;
    let coverage = match offset_coverage(data, 2) {
        None => return false,
        Some(c) => c,
    };
    let index_this: u16 = match coverage.index_of(this) {
        None => return false,
        Some(k) => k,
    };
    let count: u16 = match read_u16_be(data, 4) {
        None => return false,
        Some(c) => c,
    };
    if index_this >= count {
        return false;
    }
    let entry_off: u16 = match read_u16_be(data, 6 + index_this as usize * 4) {
        Some(o) => o,
        None => 0,
    };
    let entry: (i32, i32) = match anchor(deltas, data, entry_off) {
        None => return false,
        Some(a) => a,
    };
    let m: Matcher = st.matcher(buffer, false);
    proof {
        lemma_prev_glyph_bounds(m, g, buffer.info@, j as int);
    }
    let (found, i, unsafe_from) = prev_glyph(&m, gdef, buffer.info.as_slice(), j);
    if !found {
        buffer.unsafe_to_concat_from_outbuffer(unsafe_from, j + 1);
        return false;
    }
    let prev: u16 = buffer.info[i].id as u16;
    let index_prev: u16 = match coverage.index_of(prev) {
        None => return false,
        Some(k) => k,
    };
    if index_prev >= count {
        return false;
    }
    let exit_off: u16 = match read_u16_be(data, 6 + index_prev as usize * 4 + 2) {
        Some(o) => o,
        None => 0,
    };
    let exit: (i32, i32) = match anchor(deltas, data, exit_off) {
        None => {
            buffer.unsafe_to_concat_from_outbuffer(i, j + 1);
            return false;
        },
        Some(a) => a,
    };
    let right_to_left: bool = (st.lookup_props as u16) & RIGHT_TO_LEFT != 0;
    assert(step == CursiveStep::Attach(i, entry, exit));
    cursive_attach(buffer, i, entry, exit, right_to_left);
    true
}

} // verus!