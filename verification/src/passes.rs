//! The passes of shaping that work on the buffer alone: forming clusters
//! from continuation characters, putting the text in its native direction,
//! synthesizing glyph classes, zeroing the widths of marks and of default
//! ignorables, falling back for variation selectors, and spreading glyph
//! flags over clusters; filling in the Unicode properties of the glyphs
//! and putting a dotted circle before a mark that starts the text; hiding
//! default ignorables.

use vstd::prelude::*;
use crate::unicode::GeneralCategory;
use crate::buffer::{
    spec_scratch_after_props, spec_unicode_props, HAS_NON_ASCII, PROPS_CF_ZWJ,
    decided, glyph_key, glyph_keys, kept, lemma_merge_keeps_keys, Buffer, ClusterLevel, Direction, GlyphInfo, GlyphPosition, BASE_GLYPH, GLYPH_FLAGS_DEFINED, HAS_CONTINUATIONS,
    HAS_DEFAULT_IGNORABLES, HAS_GLYPH_FLAGS, HAS_VARIATION_SELECTOR_FALLBACK, MARK, PROPS_CONTINUATION,
    PROPS_IGNORABLE, SAFE_TO_INSERT_TATWEEL, SUBSTITUTED, UNSAFE_TO_BREAK, UNSAFE_TO_CONCAT,
};

verus! {

/// Whether a glyph is default-ignorable (and has not been substituted).
pub open spec fn spec_is_default_ignorable(g: GlyphInfo) -> bool {
    g.unicode_props & PROPS_IGNORABLE != 0 && g.glyph_props & SUBSTITUTED == 0
}

/// What zeroing the width of a mark does to its position: the advances go
/// to zero and, when offsets are adjusted, the offsets move back by them.
pub open spec fn zeroed_mark(p: GlyphPosition, adjust_offsets: bool) -> GlyphPosition {
    GlyphPosition {
        x_advance: 0,
        y_advance: 0,
        x_offset: if adjust_offsets {
            (p.x_offset - p.x_advance) as i32
        } else {
            p.x_offset
        },
        y_offset: if adjust_offsets {
            (p.y_offset - p.y_advance) as i32
        } else {
            p.y_offset
        },
        ..p
    }
}

/// Offsets that can move back by their advances within `i32`.
pub open spec fn adjustable(p: GlyphPosition) -> bool {
    i32::MIN <= p.x_offset - p.x_advance <= i32::MAX && i32::MIN <= p.y_offset - p.y_advance <= i32::MAX
}

/// Gives every mark glyph zero advances, moving its offsets back by the
/// advances it had when `adjust_offsets` is set.
pub fn zero_mark_widths(buffer: &mut Buffer, adjust_offsets: bool)
    requires
        old(buffer).wf(),
        adjust_offsets ==> forall|i: int|
            0 <= i < old(buffer).len && old(buffer).info@[i].glyph_props & MARK != 0 ==> adjustable(
                #[trigger] old(buffer).pos@[i],
            ),
    ensures
        final(buffer).pos@.len() == old(buffer).pos@.len(),
        forall|i: int|
            0 <= i < old(buffer).pos@.len() ==> #[trigger] final(buffer).pos@[i] == if i < old(buffer).len
                && old(buffer).info@[i].glyph_props & MARK != 0 {
                zeroed_mark(old(buffer).pos@[i], adjust_offsets)
            } else {
                old(buffer).pos@[i]
            },
        *final(buffer) == (Buffer { pos: final(buffer).pos, ..*old(buffer) }),
{
    let mut pos: Vec<GlyphPosition> = Vec::new();
    core::mem::swap(&mut pos, &mut buffer.pos);
    let ghost before = pos@;
    let len: usize = buffer.len;
    let mut i: usize = 0;
    while i < len
        invariant
            i <= len == buffer.len,
            len <= buffer.info@.len(),
            pos@.len() == before.len(),
            buffer.info@.len() <= before.len(),
            adjust_offsets ==> forall|k: int|
                0 <= k < len && buffer.info@[k].glyph_props & MARK != 0 ==> adjustable(#[trigger] before[k]),
            forall|k: int|
                0 <= k < pos@.len() ==> #[trigger] pos@[k] == if k < i && buffer.info@[k].glyph_props & MARK
                    != 0 {
                    zeroed_mark(before[k], adjust_offsets)
                } else {
                    before[k]
                },
        decreases len - i,
    {
        if buffer.info[i].is_mark() {
            let mut p: GlyphPosition = pos[i];
            if adjust_offsets {
                p.x_offset = p.x_offset - p.x_advance;
                p.y_offset = p.y_offset - p.y_advance;
            }
            p.x_advance = 0;
            p.y_advance = 0;
            pos.set(i, p);
        }
        i = i + 1;
    }
    core::mem::swap(&mut pos, &mut buffer.pos);
}

/// Clears the position of every default-ignorable glyph, unless the buffer
/// has none or keeps or removes them.
pub fn zero_width_default_ignorables(buffer: &mut Buffer)
    requires
        old(buffer).wf(),
    ensures
        final(buffer).pos@.len() == old(buffer).pos@.len(),
        forall|i: int|
            0 <= i < old(buffer).pos@.len() ==> #[trigger] final(buffer).pos@[i] == if i < old(buffer).len
                && old(buffer).scratch_flags & HAS_DEFAULT_IGNORABLES != 0 && !old(buffer).preserve_default_ignorables
                && !old(buffer).remove_default_ignorables && spec_is_default_ignorable(old(buffer).info@[i]) {
                GlyphPosition::zero()
            } else {
                old(buffer).pos@[i]
            },
        *final(buffer) == (Buffer { pos: final(buffer).pos, ..*old(buffer) }),
{
    if buffer.scratch_flags & HAS_DEFAULT_IGNORABLES == 0 || buffer.preserve_default_ignorables
        || buffer.remove_default_ignorables {
        return;
    }
    let mut pos: Vec<GlyphPosition> = Vec::new();
    core::mem::swap(&mut pos, &mut buffer.pos);
    let ghost before = pos@;
    let len: usize = buffer.len;
    let mut i: usize = 0;
    while i < len
        invariant
            i <= len == buffer.len,
            len <= buffer.info@.len(),
            pos@.len() == before.len(),
            buffer.info@.len() <= before.len(),
            forall|k: int|
                0 <= k < pos@.len() ==> #[trigger] pos@[k] == if k < i && spec_is_default_ignorable(buffer.info@[k]) {
                    GlyphPosition::zero()
                } else {
                    before[k]
                },
        decreases len - i,
    {
        if buffer.info[i].is_default_ignorable() {
            pos.set(i, GlyphPosition::new());
        }
        i = i + 1;
    }
    core::mem::swap(&mut pos, &mut buffer.pos);
}

/// Whether a glyph is a variation selector.
pub open spec fn spec_is_variation_selector(g: GlyphInfo) -> bool {
    g.spec_general_category() == 2 && g.unicode_props & 0x0400u16 != 0
}

/// A variation selector turned into the fallback glyph: a nonspacing mark
/// with glyph `nf`.
pub open spec fn fallen_back(g: GlyphInfo, nf: u16) -> GlyphInfo {
    GlyphInfo { id: nf as u32, unicode_props: (12u16 & 0x1Fu16) | (g.unicode_props & !0x1Fu16), ..g }
}

/// Where a variation selector found no glyph, shows it as the buffer's
/// fallback glyph with no advance.
pub fn deal_with_variation_selectors(buffer: &mut Buffer)
    requires
        old(buffer).wf(),
    ensures
        ({
            let on = old(buffer).scratch_flags & HAS_VARIATION_SELECTOR_FALLBACK != 0
                && old(buffer).not_found_variation_selector is Some;
            let nf = old(buffer).not_found_variation_selector.unwrap();
            &&& final(buffer).info@.len() == old(buffer).info@.len()
            &&& final(buffer).pos@.len() == old(buffer).pos@.len()
            &&& forall|i: int|
                0 <= i < old(buffer).info@.len() ==> #[trigger] final(buffer).info@[i] == if on && i < old(buffer).len
                    && spec_is_variation_selector(old(buffer).info@[i]) {
                    fallen_back(old(buffer).info@[i], nf)
                } else {
                    old(buffer).info@[i]
                }
            &&& forall|i: int|
                0 <= i < old(buffer).pos@.len() ==> #[trigger] final(buffer).pos@[i] == if on && i < old(buffer).len
                    && spec_is_variation_selector(old(buffer).info@[i]) {
                    GlyphPosition::zero()
                } else {
                    old(buffer).pos@[i]
                }
        }),
        *final(buffer) == (Buffer { info: final(buffer).info, pos: final(buffer).pos, ..*old(buffer) }),
{
    if buffer.scratch_flags & HAS_VARIATION_SELECTOR_FALLBACK == 0 {
        return;
    }
    let nf: u16 = match buffer.not_found_variation_selector {
        Some(v) => v,
        None => return,
    };
    let mut info: Vec<GlyphInfo> = Vec::new();
    let mut pos: Vec<GlyphPosition> = Vec::new();
    core::mem::swap(&mut info, &mut buffer.info);
    core::mem::swap(&mut pos, &mut buffer.pos);
    let ghost info0 = info@;
    let ghost pos0 = pos@;
    let len: usize = buffer.len;
    let mut i: usize = 0;
    while i < len
        invariant
            i <= len,
            len <= info0.len() <= pos0.len(),
            info@.len() == info0.len(),
            pos@.len() == pos0.len(),
            forall|k: int|
                0 <= k < info@.len() ==> #[trigger] info@[k] == if k < i && spec_is_variation_selector(info0[k]) {
                    fallen_back(info0[k], nf)
                } else {
                    info0[k]
                },
            forall|k: int|
                0 <= k < pos@.len() ==> #[trigger] pos@[k] == if k < i && spec_is_variation_selector(info0[k]) {
                    GlyphPosition::zero()
                } else {
                    pos0[k]
                },
        decreases len - i,
    {
        if info[i].is_variation_selector() {
            let mut g: GlyphInfo = info[i];
            g.id = nf as u32;
            g.set_variation_selector(false);
            info.set(i, g);
            pos.set(i, GlyphPosition::new());
        }
        i = i + 1;
    }
    core::mem::swap(&mut info, &mut buffer.info);
    core::mem::swap(&mut pos, &mut buffer.pos);
}

/// The glyph class that a glyph gets when the font has no glyph classes:
/// a mark for a nonspacing mark that is not default-ignorable, a base
/// glyph for anything else.
pub open spec fn synthesized_class(g: GlyphInfo) -> u16 {
    if g.spec_general_category() == 12 && !spec_is_default_ignorable(g) {
        MARK
    } else {
        BASE_GLYPH
    }
}

/// Gives every glyph a class from its general category.
pub fn synthesize_glyph_classes(buffer: &mut Buffer)
    requires
        old(buffer).wf(),
    ensures
        final(buffer).info@.len() == old(buffer).info@.len(),
        forall|i: int|
            0 <= i < old(buffer).info@.len() ==> #[trigger] final(buffer).info@[i] == if i < old(buffer).len {
                GlyphInfo { glyph_props: synthesized_class(old(buffer).info@[i]), ..old(buffer).info@[i] }
            } else {
                old(buffer).info@[i]
            },
        *final(buffer) == (Buffer { info: final(buffer).info, ..*old(buffer) }),
{
    let mut info: Vec<GlyphInfo> = Vec::new();
    core::mem::swap(&mut info, &mut buffer.info);
    let ghost info0 = info@;
    let len: usize = buffer.len;
    let mut i: usize = 0;
    while i < len
        invariant
            i <= len <= info0.len(),
            info@.len() == info0.len(),
            forall|k: int|
                0 <= k < info@.len() ==> #[trigger] info@[k] == if k < i {
                    GlyphInfo { glyph_props: synthesized_class(info0[k]), ..info0[k] }
                } else {
                    info0[k]
                },
        decreases len - i,
    {
        let mut g: GlyphInfo = info[i];
        let is_mark: bool = g.general_category() == 12 && !g.is_default_ignorable();
        g.glyph_props = if is_mark { MARK } else { BASE_GLYPH };
        info.set(i, g);
        i = i + 1;
    }
    core::mem::swap(&mut info, &mut buffer.info);
}

/// The first glyph of the run of glyphs with the cluster of glyph `i`.
pub open spec fn run_start(s: Seq<GlyphInfo>, i: int) -> int
    decreases i,
{
    if i > 0 && s[i - 1].cluster == s[i].cluster {
        run_start(s, i - 1)
    } else {
        i
    }
}

/// The end of the run of glyphs below `len` with the cluster of glyph `i`.
pub open spec fn run_end(s: Seq<GlyphInfo>, i: int, len: int) -> int
    decreases len - i,
{
    if i + 1 < len && s[i + 1].cluster == s[i].cluster {
        run_end(s, i + 1, len)
    } else {
        i + 1
    }
}

/// The glyph flags of glyphs `a .. b`, taken together.
pub open spec fn flags_over(s: Seq<GlyphInfo>, a: int, b: int) -> u32
    decreases b - a,
{
    if b <= a {
        0
    } else {
        flags_over(s, a, b - 1) | (s[b - 1].mask & GLYPH_FLAGS_DEFINED)
    }
}

/// The flags a cluster ends with: where tatweel insertion is reported, a
/// cluster unsafe to break is not safe for tatweel, and one safe for
/// tatweel is unsafe to break and to concatenate; unsafe-to-concatenate is
/// dropped unless it is reported.
pub open spec fn settled_flags(mask: u32, tatweel: bool, clear_concat: bool) -> u32 {
    let m1 = if tatweel && mask & UNSAFE_TO_BREAK != 0 {
        mask & !SAFE_TO_INSERT_TATWEEL
    } else {
        mask
    };
    let m2 = if tatweel && m1 & SAFE_TO_INSERT_TATWEEL != 0 {
        m1 | UNSAFE_TO_BREAK | UNSAFE_TO_CONCAT
    } else {
        m1
    };
    if clear_concat {
        m2 & !UNSAFE_TO_CONCAT
    } else {
        m2
    }
}

/// Within a run of equal clusters that starts at a cluster boundary, every
/// glyph's run starts there.
proof fn lemma_run_start(s: Seq<GlyphInfo>, start: int, k: int)
    requires
        0 <= start <= k < s.len(),
        start == 0 || s[start - 1].cluster != s[start].cluster,
        forall|m: int| start < m <= k ==> #[trigger] s[m].cluster == s[m - 1].cluster,
    ensures
        run_start(s, k) == start,
    decreases k,
{
    if k > start {
        lemma_run_start(s, start, k - 1);
    }
}

/// Within a run of equal clusters that ends at a cluster boundary or at
/// `len`, every glyph's run ends there.
proof fn lemma_run_end(s: Seq<GlyphInfo>, end: int, len: int, k: int)
    requires
        0 <= k < end <= len <= s.len(),
        end == len || s[end - 1].cluster != s[end].cluster,
        forall|m: int| k < m < end ==> #[trigger] s[m].cluster == s[m - 1].cluster,
    ensures
        run_end(s, k, len) == end,
    decreases end - k,
{
    if k + 1 < end {
        lemma_run_end(s, end, len, k + 1);
    }
}

/// Gives every glyph of a cluster the glyph flags of the whole cluster,
/// settled as the buffer reports them; nothing changes unless some glyph
/// has flags.
pub fn propagate_flags(buffer: &mut Buffer)
    requires
        old(buffer).wf(),
    ensures
        final(buffer).info@.len() == old(buffer).info@.len(),
        forall|i: int|
            0 <= i < old(buffer).info@.len() ==> #[trigger] final(buffer).info@[i] == if old(buffer).scratch_flags
                & HAS_GLYPH_FLAGS != 0 && i < old(buffer).len {
                GlyphInfo {
                    mask: settled_flags(
                        flags_over(
                            old(buffer).info@,
                            run_start(old(buffer).info@, i),
                            run_end(old(buffer).info@, i, old(buffer).len as int),
                        ),
                        old(buffer).produce_safe_to_insert_tatweel,
                        !old(buffer).produce_unsafe_to_concat,
                    ),
                    ..old(buffer).info@[i]
                }
            } else {
                old(buffer).info@[i]
            },
        *final(buffer) == (Buffer { info: final(buffer).info, ..*old(buffer) }),
{
    if buffer.scratch_flags & HAS_GLYPH_FLAGS == 0 {
        return;
    }
    let clear_concat: bool = !buffer.produce_unsafe_to_concat;
    let tatweel: bool = buffer.produce_safe_to_insert_tatweel;
    let ghost b0 = *buffer;
    let ghost s0 = buffer.info@;
    let len: usize = buffer.len;
    let mut start: usize = 0;
    while start < len
        invariant
            start <= len == buffer.len == b0.len,
            buffer.wf(),
            *buffer == (Buffer { info: buffer.info, ..b0 }),
            buffer.info@.len() == s0.len(),
            len <= s0.len(),
            start == 0 || start == len || s0[start - 1].cluster != s0[start as int].cluster,
            clear_concat == !b0.produce_unsafe_to_concat,
            tatweel == b0.produce_safe_to_insert_tatweel,
            forall|k: int| start <= k < s0.len() ==> #[trigger] buffer.info@[k] == s0[k],
            forall|k: int|
                0 <= k < start ==> #[trigger] buffer.info@[k] == (GlyphInfo {
                    mask: settled_flags(flags_over(s0, run_start(s0, k), run_end(s0, k, len as int)), tatweel, clear_concat),
                    ..s0[k]
                }),
        decreases len - start,
    {
        let same = |a: &GlyphInfo, b: &GlyphInfo| -> (r: bool)
            ensures
                r == (a.cluster == b.cluster),
            { a.cluster == b.cluster };
        let end: usize = buffer.group_end(start, same);
        assert forall|m: int| start < m < end implies #[trigger] s0[m].cluster == s0[m - 1].cluster by {
            assert(buffer.info@[m] == s0[m] && buffer.info@[m - 1] == s0[m - 1]);
        }
        assert(end == len || s0[end - 1].cluster != s0[end as int].cluster);
        let mut mask: u32 = 0;
        let mut k: usize = start;
        while k < end
            invariant
                start <= k <= end <= len,
                len <= buffer.info@.len(),
                forall|m: int| start <= m < buffer.info@.len() ==> #[trigger] buffer.info@[m] == s0[m],
                mask == flags_over(s0, start as int, k as int),
            decreases end - k,
        {
            mask = mask | (buffer.info[k].mask & GLYPH_FLAGS_DEFINED);
            k = k + 1;
        }
        if tatweel {
            if mask & UNSAFE_TO_BREAK != 0 {
                mask = mask & !SAFE_TO_INSERT_TATWEEL;
            }
            if mask & SAFE_TO_INSERT_TATWEEL != 0 {
                mask = mask | UNSAFE_TO_BREAK | UNSAFE_TO_CONCAT;
            }
        }
        if clear_concat {
            mask = mask & !UNSAFE_TO_CONCAT;
        }
        assert(mask == settled_flags(flags_over(s0, start as int, end as int), tatweel, clear_concat));
        let mut info: Vec<GlyphInfo> = Vec::new();
        core::mem::swap(&mut info, &mut buffer.info);
        let ghost mid = info@;
        let mut m: usize = start;
        while m < end
            invariant
                start <= m <= end <= len <= s0.len(),
                info@.len() == s0.len(),
                forall|q: int| (0 <= q < start || m <= q < s0.len()) ==> #[trigger] info@[q] == mid[q],
                forall|q: int| start <= q < m ==> #[trigger] info@[q] == (GlyphInfo { mask: mask, ..s0[q] }),
                forall|q: int| start <= q < s0.len() ==> #[trigger] mid[q] == s0[q],
            decreases end - m,
        {
            let mut g: GlyphInfo = info[m];
            g.mask = mask;
            info.set(m, g);
            m = m + 1;
        }
        core::mem::swap(&mut info, &mut buffer.info);
        proof {
            assert forall|q: int| start <= q < end implies run_start(s0, q) == start && run_end(s0, q, len as int) == end by {
                lemma_run_start(s0, start as int, q);
                lemma_run_end(s0, end as int, len as int, q);
            }
        }
        start = end;
    }
}

/// Whether a glyph continues the grapheme of the glyph before it.
pub open spec fn is_cont(g: GlyphInfo) -> bool {
    g.unicode_props & PROPS_CONTINUATION != 0
}

/// The end, below `len`, of the grapheme that starts at glyph `i`: the
/// glyphs after it that continue it.
pub open spec fn grapheme_end(s: Seq<GlyphInfo>, i: int, len: int) -> int
    decreases len - i,
{
    if i + 1 < len && is_cont(s[i + 1]) {
        grapheme_end(s, i + 1, len)
    } else {
        i + 1
    }
}

/// A grapheme ends after its first glyph and no later than `len`.
pub proof fn lemma_grapheme_end_bounds(s: Seq<GlyphInfo>, i: int, len: int)
    ensures
        i < grapheme_end(s, i, len),
        i < len ==> grapheme_end(s, i, len) <= len,
    decreases len - i,
{
    if i + 1 < len && is_cont(s[i + 1]) {
        lemma_grapheme_end_bounds(s, i + 1, len);
    }
}

proof fn lemma_grapheme_end_exact(s: Seq<GlyphInfo>, i: int, end: int, len: int)
    requires
        0 <= i < end <= len <= s.len(),
        forall|k: int| i < k < end ==> is_cont(#[trigger] s[k]),
        end < len ==> !is_cont(s[end]),
    ensures
        grapheme_end(s, i, len) == end,
    decreases end - i,
{
    if i + 1 < end {
        lemma_grapheme_end_exact(s, i + 1, end, len);
    }
}

/// The values `v` of glyphs `i .. len` with each grapheme (as `s` groups
/// the glyphs) turned around in place.
pub open spec fn graphemes_turned<A>(v: Seq<A>, s: Seq<GlyphInfo>, i: int, len: int) -> Seq<A>
    decreases len - i,
{
    if i < 0 || i >= len {
        Seq::empty()
    } else {
        let e = grapheme_end(s, i, len);
        proof {
            lemma_grapheme_end_bounds(s, i, len);
        }
        v.subrange(i, e).reverse() + graphemes_turned(v, s, e, len)
    }
}

/// The values `v` of glyphs `i .. len` with the graphemes (as `s` groups
/// the glyphs) in the opposite order, each keeping its own order.
pub open spec fn graphemes_backwards<A>(v: Seq<A>, s: Seq<GlyphInfo>, i: int, len: int) -> Seq<A>
    decreases len - i,
{
    if i < 0 || i >= len {
        Seq::empty()
    } else {
        let e = grapheme_end(s, i, len);
        proof {
            lemma_grapheme_end_bounds(s, i, len);
        }
        graphemes_backwards(v, s, e, len) + v.subrange(i, e)
    }
}

/// Turning each grapheme around and then the whole text puts the graphemes
/// in the opposite order, each in its own order.
proof fn lemma_turned_reversed<A>(v: Seq<A>, s: Seq<GlyphInfo>, i: int, len: int)
    requires
        0 <= i,
        len <= v.len(),
    ensures
        graphemes_turned(v, s, i, len).reverse() =~= graphemes_backwards(v, s, i, len),
    decreases len - i,
{
    if i < len {
        let e = grapheme_end(s, i, len);
        lemma_grapheme_end_bounds(s, i, len);
        lemma_turned_reversed(v, s, e, len);
        let a = v.subrange(i, e).reverse();
        let b = graphemes_turned(v, s, e, len);
        assert((a + b).reverse() =~= b.reverse() + a.reverse());
        assert(a.reverse() =~= v.subrange(i, e));
    }
}

proof fn lemma_keys_concat(a: Seq<GlyphInfo>, b: Seq<GlyphInfo>)
    ensures
        glyph_keys(a + b) =~= glyph_keys(a) + glyph_keys(b),
{
}

proof fn lemma_keys_reverse(a: Seq<GlyphInfo>)
    ensures
        glyph_keys(a.reverse()) =~= glyph_keys(a).reverse(),
{
}

/// Equal keys over `start .. len` are equal keys glyph by glyph.
proof fn lemma_keys_tail(a: Seq<GlyphInfo>, s0: Seq<GlyphInfo>, start: int, len: int)
    requires
        0 <= start <= len <= a.len(),
        len <= s0.len(),
        glyph_keys(a.subrange(start, len)) == glyph_keys(s0.subrange(start, len)),
    ensures
        forall|k: int| start <= k < len ==> glyph_key(#[trigger] a[k]) == glyph_key(s0[k]),
{
    assert forall|k: int| start <= k < len implies glyph_key(#[trigger] a[k]) == glyph_key(s0[k]) by {
        let i = k - start;
        assert(glyph_keys(a.subrange(start, len))[i] == glyph_keys(s0.subrange(start, len))[i]);
        assert(glyph_keys(a.subrange(start, len))[i] == glyph_key(a.subrange(start, len)[i]));
        assert(glyph_keys(s0.subrange(start, len))[i] == glyph_key(s0.subrange(start, len)[i]));
        assert(a.subrange(start, len)[i] == a[k]);
        assert(s0.subrange(start, len)[i] == s0[k]);
    }
}

/// One grapheme turned around in place carries the keys of the text one
/// grapheme further towards all graphemes turned.
proof fn lemma_turn_step_keys(
    a: Seq<GlyphInfo>,
    m: Seq<GlyphInfo>,
    r: Seq<GlyphInfo>,
    s0: Seq<GlyphInfo>,
    start: int,
    end: int,
    len: int,
)
    requires
        0 <= start < end <= len <= a.len(),
        s0.len() == len,
        m.len() == a.len(),
        forall|k: int| 0 <= k < a.len() ==> glyph_key(#[trigger] m[k]) == glyph_key(a[k]),
        r == m.subrange(0, start) + m.subrange(start, end).reverse() + m.subrange(end, m.len() as int),
        glyph_keys(a.subrange(start, len)) == glyph_keys(s0.subrange(start, len)),
        glyph_keys(a.subrange(0, start)) + glyph_keys(graphemes_turned(s0, s0, start, len)) == glyph_keys(
            graphemes_turned(s0, s0, 0, len),
        ),
        grapheme_end(s0, start, len) == end,
    ensures
        glyph_keys(r.subrange(0, end)) + glyph_keys(graphemes_turned(s0, s0, end, len)) == glyph_keys(
            graphemes_turned(s0, s0, 0, len),
        ),
        glyph_keys(r.subrange(end, len)) == glyph_keys(s0.subrange(end, len)),
{
    lemma_keys_tail(a, s0, start, len);
    let t_end = graphemes_turned(s0, s0, end, len);
    assert(graphemes_turned(s0, s0, start, len) == s0.subrange(start, end).reverse() + t_end);
    lemma_keys_concat(s0.subrange(start, end).reverse(), t_end);
    assert(glyph_keys(r.subrange(0, end)) =~= glyph_keys(a.subrange(0, start)) + glyph_keys(
        s0.subrange(start, end).reverse(),
    )) by {
        assert forall|k: int| 0 <= k < end implies #[trigger] glyph_keys(r.subrange(0, end))[k] == (glyph_keys(
            a.subrange(0, start),
        ) + glyph_keys(s0.subrange(start, end).reverse()))[k] by {
            if k >= start {
                let q = end - 1 - (k - start);
                assert(r[k] == m[q]);
                assert(glyph_key(a[q]) == glyph_key(s0[q]));
            } else {
                assert(r[k] == m[k]);
            }
        }
    }
    assert(glyph_keys(r.subrange(end, len)) =~= glyph_keys(s0.subrange(end, len))) by {
        assert forall|k: int| 0 <= k < len - end implies #[trigger] glyph_keys(r.subrange(end, len))[k] == glyph_keys(
            s0.subrange(end, len),
        )[k] by {
            let q = end + k;
            assert(r[q] == m[q]);
            assert(glyph_key(a[q]) == glyph_key(s0[q]));
        }
    }
}

/// One grapheme turned around in place carries the values of the text one
/// grapheme further towards all graphemes turned.
proof fn lemma_turn_step<A>(pa: Seq<A>, pr: Seq<A>, p0: Seq<A>, s0: Seq<GlyphInfo>, start: int, end: int, len: int)
    requires
        0 <= start < end <= len <= pa.len(),
        p0.len() == len,
        pr == pa.subrange(0, start) + pa.subrange(start, end).reverse() + pa.subrange(end, pa.len() as int),
        pa.subrange(start, len) == p0.subrange(start, len),
        pa.subrange(0, start) + graphemes_turned(p0, s0, start, len) == graphemes_turned(p0, s0, 0, len),
        grapheme_end(s0, start, len) == end,
    ensures
        pr.subrange(0, end) + graphemes_turned(p0, s0, end, len) == graphemes_turned(p0, s0, 0, len),
        pr.subrange(end, len) == p0.subrange(end, len),
{
    assert forall|k: int| start <= k < len implies pa[k] == #[trigger] p0[k] by {
        assert(pa.subrange(start, len)[k - start] == p0.subrange(start, len)[k - start]);
        assert(pa.subrange(start, len)[k - start] == pa[k]);
        assert(p0.subrange(start, len)[k - start] == p0[k]);
    }
    assert(graphemes_turned(p0, s0, start, len) == p0.subrange(start, end).reverse() + graphemes_turned(
        p0,
        s0,
        end,
        len,
    ));
    assert(pr.subrange(0, end) =~= pa.subrange(0, start) + p0.subrange(start, end).reverse());
    assert(pr.subrange(end, len) =~= p0.subrange(end, len));
}

/// Reverses the text grapheme by grapheme: the graphemes come in the
/// opposite order and each keeps its own order (at the character cluster
/// level each grapheme is first merged into one cluster). Positions, where
/// there are any, move with their glyphs.
#[verifier::rlimit(40)]
pub fn reverse_graphemes(buffer: &mut Buffer)
    requires
        old(buffer).wf(),
    ensures
        final(buffer).wf(),
        final(buffer).len == old(buffer).len,
        final(buffer).same_settings(&*old(buffer)),
        glyph_keys(final(buffer).in_view()) == glyph_keys(
            graphemes_backwards(old(buffer).in_view(), old(buffer).in_view(), 0, old(buffer).len as int),
        ),
        old(buffer).have_positions ==> final(buffer).pos@.take(old(buffer).len as int) == graphemes_backwards(
            old(buffer).pos@.take(old(buffer).len as int),
            old(buffer).in_view(),
            0,
            old(buffer).len as int,
        ),
        !old(buffer).have_positions ==> final(buffer).pos == old(buffer).pos,
{
    let characters: bool = match buffer.cluster_level {
        ClusterLevel::MonotoneCharacters => true,
        _ => false,
    };
    let len: usize = buffer.len;
    let ghost s0 = buffer.in_view();
    let ghost p0 = buffer.pos@.take(len as int);
    let ghost hp = buffer.have_positions;
    let ghost pos0 = buffer.pos;
    let mut start: usize = 0;
    while start < len
        invariant
            start <= len == buffer.len == old(buffer).len,
            buffer.wf(),
            buffer.same_settings(&*old(buffer)),
            buffer.have_positions == hp,
            hp == old(buffer).have_positions,
            s0 == old(buffer).in_view(),
            s0.len() == len,
            p0 == old(buffer).pos@.take(len as int),
            pos0 == old(buffer).pos,
            characters == (old(buffer).cluster_level == ClusterLevel::MonotoneCharacters),
            glyph_keys(buffer.info@.subrange(0, start as int)) + glyph_keys(graphemes_turned(s0, s0, start as int, len as int))
                == glyph_keys(graphemes_turned(s0, s0, 0, len as int)),
            glyph_keys(buffer.info@.subrange(start as int, len as int)) == glyph_keys(s0.subrange(start as int, len as int)),
            hp ==> buffer.pos@.len() == pos0@.len(),
            hp ==> buffer.pos@.subrange(0, start as int) + graphemes_turned(p0, s0, start as int, len as int)
                == graphemes_turned(p0, s0, 0, len as int),
            hp ==> buffer.pos@.subrange(start as int, len as int) == p0.subrange(start as int, len as int),
            !hp ==> buffer.pos == pos0,
        decreases len - start,
    {
        let cont = |_a: &GlyphInfo, b: &GlyphInfo| -> (r: bool)
            ensures
                r == is_cont(*b),
            { b.is_continuation() };
        let end: usize = buffer.group_end(start, cont);
        proof {
            lemma_keys_tail(buffer.info@, s0, start as int, len as int);
            assert forall|k: int| start < k < end implies is_cont(#[trigger] s0[k]) by {
                assert(glyph_key(buffer.info@[k]) == glyph_key(s0[k]));
            }
            if end < len {
                assert(glyph_key(buffer.info@[end as int]) == glyph_key(s0[end as int]));
            }
            lemma_grapheme_end_exact(s0, start as int, end as int, len as int);
        }
        let ghost before = *buffer;
        if characters {
            let ghost c = buffer.merged_cluster(start as int, end as int);
            buffer.merge_clusters(start, end);
            proof {
                if end - start >= 2 {
                    lemma_merge_keeps_keys(before.info@, buffer.info@, c, UNSAFE_TO_BREAK | UNSAFE_TO_CONCAT);
                } else {
                    assert(buffer.info@ == before.info@);
                }
            }
        }
        let ghost mid = *buffer;
        buffer.reverse_range(start, end);
        proof {
            assert forall|k: int| 0 <= k < before.info@.len() implies glyph_key(#[trigger] mid.info@[k]) == glyph_key(
                before.info@[k],
            ) by {
                if !characters {
                    assert(mid.info@ == before.info@);
                }
            }
            lemma_turn_step_keys(before.info@, mid.info@, buffer.info@, s0, start as int, end as int, len as int);
            if hp {
                assert(mid.pos == before.pos);
                lemma_turn_step(before.pos@, buffer.pos@, p0, s0, start as int, end as int, len as int);
            }
        }
        start = end;
    }
    let ghost last = *buffer;
    buffer.reverse();
    proof {
        lemma_turned_reversed(s0, s0, 0, len as int);
        lemma_keys_reverse(graphemes_turned(s0, s0, 0, len as int));
        assert(last.info@.subrange(0, len as int) == last.in_view());
        assert(glyph_keys(last.in_view()) =~= glyph_keys(graphemes_turned(s0, s0, 0, len as int)));
        lemma_keys_reverse(last.in_view());
        if hp {
            lemma_turned_reversed(p0, s0, 0, len as int);
            assert(last.pos@.subrange(0, len as int) =~= graphemes_turned(p0, s0, 0, len as int));
        }
    }
}

/// Whether a glyph's general category is a letter.
pub open spec fn is_letter_glyph(g: GlyphInfo) -> bool {
    5 <= g.spec_general_category() <= 9
}

/// Whether a glyph is a decimal digit or a regional indicator.
pub open spec fn is_number_like(g: GlyphInfo) -> bool {
    g.spec_general_category() == 13 || (0x1F1E6 <= g.id <= 0x1F1FF)
}

/// Text in a right-to-left script that has digits or regional indicators
/// and no letter is laid out left to right.
pub open spec fn numbers_without_letters(s: Seq<GlyphInfo>) -> bool {
    (forall|k: int| 0 <= k < s.len() ==> !is_letter_glyph(#[trigger] s[k])) && exists|k: int|
        0 <= k < s.len() && is_number_like(#[trigger] s[k])
}

/// The horizontal direction that the text is native to: that of its
/// script, but left to right for right-to-left text of digits only.
pub open spec fn native_horizontal(s: Seq<GlyphInfo>, dir: Direction, hor: Option<Direction>) -> Option<Direction> {
    if hor == Some(Direction::RightToLeft) && dir == Direction::LeftToRight && numbers_without_letters(s) {
        Some(Direction::LeftToRight)
    } else {
        hor
    }
}

/// Whether text in direction `dir` runs against its native direction:
/// horizontal text against its script's direction, vertical text upwards.
pub open spec fn runs_against(dir: Direction, hor: Option<Direction>) -> bool {
    if dir.spec_is_horizontal() {
        match hor {
            Some(h) => dir != h,
            None => false,
        }
    } else {
        dir != Direction::TopToBottom
    }
}

/// Puts text that runs against its native direction (given by the
/// horizontal direction `horizontal` of its script) the native way round:
/// the graphemes are reversed and so is the buffer's direction.
pub fn ensure_native_direction(buffer: &mut Buffer, horizontal: Option<Direction>)
    requires
        old(buffer).wf(),
    ensures
        ({
            let flip = runs_against(
                old(buffer).direction,
                native_horizontal(old(buffer).in_view(), old(buffer).direction, horizontal),
            );
            &&& final(buffer).wf()
            &&& final(buffer).len == old(buffer).len
            &&& !flip ==> *final(buffer) == *old(buffer)
            &&& flip ==> final(buffer).direction == old(buffer).direction.spec_reverse()
            &&& flip ==> glyph_keys(final(buffer).in_view()) == glyph_keys(
                graphemes_backwards(old(buffer).in_view(), old(buffer).in_view(), 0, old(buffer).len as int),
            )
            &&& flip && old(buffer).have_positions ==> final(buffer).pos@.take(old(buffer).len as int)
                == graphemes_backwards(
                old(buffer).pos@.take(old(buffer).len as int),
                old(buffer).in_view(),
                0,
                old(buffer).len as int,
            )
        }),
{
    let dir: Direction = buffer.direction;
    let mut hor: Option<Direction> = horizontal;
    let ghost s = buffer.in_view();
    let rtl: bool = match horizontal {
        Some(Direction::RightToLeft) => true,
        _ => false,
    };
    let ltr: bool = match dir {
        Direction::LeftToRight => true,
        _ => false,
    };
    if rtl && ltr {
        let mut found_number: bool = false;
        let mut found_letter: bool = false;
        let len: usize = buffer.len;
        let mut k: usize = 0;
        while k < len
            invariant_except_break
                !found_letter,
            invariant
                k <= len == buffer.len,
                len <= buffer.info@.len(),
                s == buffer.in_view(),
                s.len() == len,
                !found_letter ==> forall|m: int| 0 <= m < k ==> !is_letter_glyph(#[trigger] s[m]),
                found_number == exists|m: int| 0 <= m < k && is_number_like(#[trigger] s[m]),
            ensures
                found_letter ==> exists|m: int| 0 <= m < len && is_letter_glyph(#[trigger] s[m]),
                !found_letter ==> forall|m: int| 0 <= m < len ==> !is_letter_glyph(#[trigger] s[m]),
                !found_letter ==> found_number == exists|m: int| 0 <= m < len && is_number_like(#[trigger] s[m]),
            decreases len - k,
        {
            let g: GlyphInfo = buffer.info[k];
            let gc: u16 = g.general_category();
            assert(s[k as int] == g);
            if gc == 13 {
                found_number = true;
            } else if 5 <= gc && gc <= 9 {
                found_letter = true;
                break;
            } else if 0x1F1E6 <= g.id && g.id <= 0x1F1FF {
                found_number = true;
            }
            k = k + 1;
        }
        if found_number && !found_letter {
            hor = Some(Direction::LeftToRight);
        }
    }
    assert(hor == native_horizontal(s, dir, horizontal));
    let flip: bool = if dir.is_horizontal() {
        match hor {
            Some(h) => match (dir, h) {
                (Direction::LeftToRight, Direction::LeftToRight) => false,
                (Direction::RightToLeft, Direction::RightToLeft) => false,
                (Direction::TopToBottom, Direction::TopToBottom) => false,
                (Direction::BottomToTop, Direction::BottomToTop) => false,
                _ => true,
            },
            None => false,
        }
    } else {
        match dir {
            Direction::TopToBottom => false,
            _ => true,
        }
    };
    if flip {
        reverse_graphemes(buffer);
        buffer.direction = buffer.direction.reverse();
    }
}

/// Whether every continuation glyph of `0 .. len` shares the cluster of
/// the glyph before it, that of `s` telling which glyphs continue.
pub open spec fn continuations_joined(s: Seq<GlyphInfo>, t: Seq<GlyphInfo>, upto: int) -> bool {
    forall|k: int| 0 < k < upto && is_cont(s[k]) ==> #[trigger] t[k].cluster == t[k - 1].cluster
}

proof fn lemma_merge_joins(s0: Seq<GlyphInfo>, before: Seq<GlyphInfo>, after: Seq<GlyphInfo>, start: int, end: int, len: int, c: u32)
    requires
        0 <= start < end <= len <= s0.len(),
        before.len() == s0.len(),
        forall|k: int| 0 <= k < s0.len() ==> glyph_key(#[trigger] before[k]) == glyph_key(s0[k]),
        start == 0 || !is_cont(s0[start]),
        continuations_joined(s0, before, start),
        end - start >= 2 ==> exists|lo: int, hi: int| Buffer::merged_span(before, after, lo, hi, start, end, 0, len, c),
        end - start < 2 ==> after == before,
    ensures
        continuations_joined(s0, after, end),
{
    if end - start >= 2 {
        let (lo, hi) = choose|lo: int, hi: int| Buffer::merged_span(before, after, lo, hi, start, end, 0, len, c);
        assert forall|k: int| 0 < k < end && is_cont(s0[k]) implies #[trigger] after[k].cluster == after[k - 1].cluster by {
            if k == lo {
                if lo < start {
                    assert(glyph_key(before[k]) == glyph_key(s0[k]));
                }
            }
        }
    } else {
        assert forall|k: int| 0 < k < end && is_cont(s0[k]) implies #[trigger] after[k].cluster == after[k - 1].cluster by {
            assert(k < start);
        }
    }
}

/// Merges the clusters of every grapheme, where the buffer has
/// continuation characters; the glyphs themselves and their positions stay.
/// At the grapheme cluster levels each continuation glyph then shares the
/// cluster of the glyph before it; at the others the clusters stay.
#[verifier::spinoff_prover]
#[verifier::rlimit(50)]
pub fn form_clusters(buffer: &mut Buffer)
    requires
        old(buffer).wf(),
    ensures
        final(buffer).wf(),
        final(buffer).len == old(buffer).len,
        final(buffer).pos == old(buffer).pos,
        final(buffer).info@.len() == old(buffer).info@.len(),
        final(buffer).same_settings(&*old(buffer)),
        forall|k: int| 0 <= k < old(buffer).info@.len() ==> glyph_key(#[trigger] final(buffer).info@[k]) == glyph_key(old(buffer).info@[k]),
        old(buffer).scratch_flags & HAS_CONTINUATIONS == 0 ==> *final(buffer) == *old(buffer),
        old(buffer).scratch_flags & HAS_CONTINUATIONS != 0 && old(buffer).cluster_level.spec_is_graphemes()
            && old(buffer).out_len == 0 && old(buffer).idx == 0 ==> continuations_joined(
            old(buffer).info@,
            final(buffer).info@,
            old(buffer).len as int,
        ),
        !old(buffer).cluster_level.spec_is_graphemes() ==> forall|k: int|
            0 <= k < old(buffer).info@.len() ==> #[trigger] final(buffer).info@[k].cluster == old(buffer).info@[k].cluster,
{
    if buffer.scratch_flags & HAS_CONTINUATIONS == 0 {
        return;
    }
    let len: usize = buffer.len;
    let ghost s0 = buffer.info@;
    let ghost joining = buffer.cluster_level.spec_is_graphemes() && buffer.out_len == 0 && buffer.idx == 0;
    let mut start: usize = 0;
    while start < len
        invariant
            start <= len == buffer.len == old(buffer).len,
            buffer.wf(),
            buffer.pos == old(buffer).pos,
            buffer.info@.len() == s0.len(),
            s0 == old(buffer).info@,
            buffer.same_settings(&*old(buffer)),
            buffer.idx == old(buffer).idx,
            buffer.out_len == old(buffer).out_len,
            joining == (old(buffer).cluster_level.spec_is_graphemes() && old(buffer).out_len == 0 && old(buffer).idx == 0),
            forall|k: int| 0 <= k < s0.len() ==> glyph_key(#[trigger] buffer.info@[k]) == glyph_key(s0[k]),
            start == 0 || start == len || !is_cont(s0[start as int]),
            joining ==> continuations_joined(s0, buffer.info@, start as int),
            !old(buffer).cluster_level.spec_is_graphemes() ==> forall|k: int|
                0 <= k < s0.len() ==> #[trigger] buffer.info@[k].cluster == s0[k].cluster,
        decreases len - start,
    {
        let cont = |_a: &GlyphInfo, b: &GlyphInfo| -> (r: bool)
            ensures
                r == is_cont(*b),
            { b.is_continuation() };
        let end: usize = buffer.group_end(start, cont);
        let ghost before = buffer.info@;
        let ghost c = buffer.merged_cluster(start as int, end as int);
        proof {
            if end < len {
                assert(glyph_key(buffer.info@[end as int]) == glyph_key(s0[end as int]));
                assert(!is_cont(buffer.info@[end as int]));
            }
        }
        buffer.merge_grapheme_clusters(start, end);
        proof {
            if end - start >= 2 {
                lemma_merge_keeps_keys(before, buffer.info@, c, UNSAFE_TO_BREAK | UNSAFE_TO_CONCAT);
            }
            if joining {
                lemma_merge_joins(s0, before, buffer.info@, start as int, end as int, len as int, c);
            }
            if !old(buffer).cluster_level.spec_is_graphemes() {
                assert forall|k: int| 0 <= k < s0.len() implies #[trigger] buffer.info@[k].cluster == s0[k].cluster by {
                    assert(before[k].cluster == s0[k].cluster);
                }
            }
        }
        start = end;
    }
}

/// Which glyphs of `s` are default-ignorable.
pub open spec fn ignorables(s: Seq<GlyphInfo>) -> Seq<bool> {
    Seq::new(s.len(), |i: int| spec_is_default_ignorable(s[i]))
}

/// Hides the default-ignorable glyphs, unless the buffer has none or keeps
/// them: shown as the buffer's invisible glyph (or else `space_glyph`, the
/// font's glyph for a space) where there is one and they are not to be
/// removed; removed otherwise.
pub fn hide_default_ignorables(buffer: &mut Buffer, space_glyph: Option<u16>)
    requires
        old(buffer).wf(),
    ensures
        ({
            let b = *old(buffer);
            let active = b.scratch_flags & HAS_DEFAULT_IGNORABLES != 0 && !b.preserve_default_ignorables;
            let shown = if b.invisible is Some {
                b.invisible
            } else {
                space_glyph
            };
            &&& !active ==> *final(buffer) == b
            &&& active && !b.remove_default_ignorables && shown is Some ==> final(buffer).info@.len() == b.info@.len()
                && (forall|i: int|
                0 <= i < b.info@.len() ==> #[trigger] final(buffer).info@[i] == if i < b.len
                    && spec_is_default_ignorable(b.info@[i]) {
                    GlyphInfo { id: shown.unwrap() as u32, ..b.info@[i] }
                } else {
                    b.info@[i]
                }) && *final(buffer) == (Buffer { info: final(buffer).info, ..b })
            &&& active && (b.remove_default_ignorables || shown is None) ==> {
                &&& final(buffer).len <= b.len
                &&& b.idx <= final(buffer).len ==> final(buffer).wf()
                &&& glyph_keys(final(buffer).in_view()) == glyph_keys(kept(b.in_view(), ignorables(b.in_view())))
                &&& final(buffer).pos@.take(final(buffer).len as int) == kept(b.pos@.take(b.len as int), ignorables(b.in_view()))
            }
        }),
{
    if buffer.scratch_flags & HAS_DEFAULT_IGNORABLES == 0 || buffer.preserve_default_ignorables {
        return;
    }
    let shown: Option<u16> = match buffer.invisible {
        Some(g) => Some(g),
        None => space_glyph,
    };
    if !buffer.remove_default_ignorables {
        if let Some(invisible) = shown {
            let mut info: Vec<GlyphInfo> = Vec::new();
            core::mem::swap(&mut info, &mut buffer.info);
            let ghost info0 = info@;
            let len: usize = buffer.len;
            let mut i: usize = 0;
            while i < len
                invariant
                    i <= len <= info0.len(),
                    info@.len() == info0.len(),
                    forall|k: int|
                        0 <= k < info@.len() ==> #[trigger] info@[k] == if k < i && spec_is_default_ignorable(info0[k]) {
                            GlyphInfo { id: invisible as u32, ..info0[k] }
                        } else {
                            info0[k]
                        },
                decreases len - i,
            {
                if info[i].is_default_ignorable() {
                    let mut g: GlyphInfo = info[i];
                    g.id = invisible as u32;
                    info.set(i, g);
                }
                i = i + 1;
            }
            core::mem::swap(&mut info, &mut buffer.info);
            return;
        }
    }
    let ghost b = *buffer;
    let ignorable = |g: &GlyphInfo| -> (r: bool)
        ensures
            r == spec_is_default_ignorable(*g),
        { g.is_default_ignorable() };
    buffer.delete_glyphs_inplace(ignorable);
    proof {
        let d = choose|d: Seq<bool>|
            {
                &&& d.len() == b.len
                &&& forall|i: int| 0 <= i < d.len() ==> #[trigger] decided(ignorable, b.info@[i], d[i])
                &&& glyph_keys(buffer.in_view()) == glyph_keys(kept(b.in_view(), d))
                &&& buffer.pos@.take(buffer.len as int) == kept(b.pos@.take(b.len as int), d)
            };
        assert forall|i: int| 0 <= i < d.len() implies d[i] == #[trigger] ignorables(b.in_view())[i] by {
            assert(decided(ignorable, b.info@[i], d[i]));
            let h = choose|h: GlyphInfo| glyph_key(h) == glyph_key(b.info@[i]) && #[trigger] call_ensures(ignorable, (&h,), d[i]);
            assert(h.unicode_props == glyph_key(h).unicode_props && h.glyph_props == glyph_key(h).glyph_props);
        }
        assert(d =~= ignorables(b.in_view()));
    }
}

/// What the character database says of the character of a glyph: whether
/// it is a Unicode scalar value at all, its general category, whether it
/// is default-ignorable, its modified combining class, and whether it is
/// extended pictographic.
#[derive(Clone, Copy)]
pub struct CharProps {
    pub valid: bool,
    pub gc: GeneralCategory,
    pub ignorable: bool,
    pub ccc: u8,
    pub pictographic: bool,
}

/// A glyph with its Unicode properties filled in.
pub open spec fn init_glyph(g: GlyphInfo, p: CharProps) -> GlyphInfo {
    if p.valid {
        GlyphInfo { unicode_props: spec_unicode_props(g.id, p.gc, p.ignorable, p.ccc), ..g }
    } else {
        g
    }
}

/// The scratch flags once a glyph's properties are filled in.
pub open spec fn init_flags(f: u32, g: GlyphInfo, p: CharProps) -> u32 {
    if p.valid {
        spec_scratch_after_props(f, g.id, p.ignorable)
    } else {
        f
    }
}

/// A glyph that continues the grapheme before it.
pub open spec fn with_cont(g: GlyphInfo) -> GlyphInfo {
    GlyphInfo { unicode_props: g.unicode_props | PROPS_CONTINUATION, ..g }
}

pub open spec fn is_regional_indicator(id: u32) -> bool {
    0x1F1E6 <= id <= 0x1F1FF
}

/// Filling in the properties of glyphs `i .. len` and marking the glyphs
/// that continue a grapheme: emoji modifiers, the second of a pair of
/// regional indicators, a zero-width joiner and the pictograph after it,
/// halfwidth katakana sound marks and tag characters. Letters and spaces
/// never continue one.
pub open spec fn props_from(s: Seq<GlyphInfo>, f: u32, props: Seq<CharProps>, i: int, len: int) -> (Seq<GlyphInfo>, u32)
    decreases len - i,
{
    if i < 0 || i >= len {
        (s, f)
    } else {
        let g = init_glyph(s[i], props[i]);
        let f1 = init_flags(f, s[i], props[i]);
        let s1 = s.update(i, g);
        let gc = g.spec_general_category();
        let id = g.id;
        if 5 <= gc <= 9 || gc == 29 {
            props_from(s1, f1, props, i + 1, len)
        } else if gc == 24 && 0x1F3FB <= id <= 0x1F3FF {
            props_from(s1.update(i, with_cont(g)), f1, props, i + 1, len)
        } else if i != 0 && is_regional_indicator(id) {
            if is_regional_indicator(s1[i - 1].id) && !is_cont(s1[i - 1]) {
                props_from(s1.update(i, with_cont(g)), f1, props, i + 1, len)
            } else {
                props_from(s1, f1, props, i + 1, len)
            }
        } else if gc == 2 && g.unicode_props & PROPS_CF_ZWJ != 0 {
            let s2 = s1.update(i, with_cont(g));
            if i + 1 < len && props[i + 1].valid && props[i + 1].pictographic {
                let n = init_glyph(s2[i + 1], props[i + 1]);
                let f2 = init_flags(f1, s2[i + 1], props[i + 1]);
                props_from(s2.update(i + 1, with_cont(n)), f2, props, i + 2, len)
            } else {
                props_from(s2, f1, props, i + 1, len)
            }
        } else if (0xFF9E <= id <= 0xFF9F) || (0xE0020 <= id <= 0xE007F) {
            props_from(s1.update(i, with_cont(g)), f1, props, i + 1, len)
        } else {
            props_from(s1, f1, props, i + 1, len)
        }
    }
}

proof fn lemma_props_from_len(s: Seq<GlyphInfo>, f: u32, props: Seq<CharProps>, i: int, len: int)
    requires
        len <= s.len(),
        props.len() == len,
    ensures
        props_from(s, f, props, i, len).0.len() == s.len(),
    decreases len - i,
{
    if 0 <= i < len {
        let g = init_glyph(s[i], props[i]);
        let f1 = init_flags(f, s[i], props[i]);
        let s1 = s.update(i, g);
        let gc = g.spec_general_category();
        let id = g.id;
        if 5 <= gc <= 9 || gc == 29 {
            lemma_props_from_len(s1, f1, props, i + 1, len);
        } else if gc == 24 && 0x1F3FB <= id <= 0x1F3FF {
            lemma_props_from_len(s1.update(i, with_cont(g)), f1, props, i + 1, len);
        } else if i != 0 && is_regional_indicator(id) {
            if is_regional_indicator(s1[i - 1].id) && !is_cont(s1[i - 1]) {
                lemma_props_from_len(s1.update(i, with_cont(g)), f1, props, i + 1, len);
            } else {
                lemma_props_from_len(s1, f1, props, i + 1, len);
            }
        } else if gc == 2 && g.unicode_props & PROPS_CF_ZWJ != 0 {
            let s2 = s1.update(i, with_cont(g));
            if i + 1 < len && props[i + 1].valid && props[i + 1].pictographic {
                let n = init_glyph(s2[i + 1], props[i + 1]);
                let f2 = init_flags(f1, s2[i + 1], props[i + 1]);
                lemma_props_from_len(s2.update(i + 1, with_cont(n)), f2, props, i + 2, len);
            } else {
                lemma_props_from_len(s2, f1, props, i + 1, len);
            }
        } else if (0xFF9E <= id <= 0xFF9F) || (0xE0020 <= id <= 0xE007F) {
            lemma_props_from_len(s1.update(i, with_cont(g)), f1, props, i + 1, len);
        } else {
            lemma_props_from_len(s1, f1, props, i + 1, len);
        }
    }
}

/// Fills in the Unicode properties of every glyph from `props` (what the
/// character database says of each glyph's character) and marks the
/// glyphs that continue a grapheme; the buffer notes whether any does.
pub fn set_unicode_props(buffer: &mut Buffer, props: &[CharProps])
    requires
        old(buffer).wf(),
        props@.len() == old(buffer).len,
    ensures
        ({
            let (s, f) = props_from(old(buffer).info@, old(buffer).scratch_flags, props@, 0, old(buffer).len as int);
            &&& final(buffer).info@ == s
            &&& final(buffer).scratch_flags == if f & HAS_NON_ASCII != 0 && exists|k: int|
                0 <= k < old(buffer).len && is_cont(#[trigger] s[k]) {
                f | HAS_CONTINUATIONS
            } else {
                f
            }
        }),
        *final(buffer) == (Buffer { info: final(buffer).info, scratch_flags: final(buffer).scratch_flags, ..*old(buffer) }),
{
    let len: usize = buffer.len;
    let ghost target = props_from(buffer.info@, buffer.scratch_flags, props@, 0, len as int);
    let mut flags: u32 = buffer.scratch_flags;
    let mut info: Vec<GlyphInfo> = Vec::new();
    core::mem::swap(&mut info, &mut buffer.info);
    let mut i: usize = 0;
    while i < len
        invariant
            i <= len + 1,
            len <= info@.len(),
            props@.len() == len,
            props_from(info@, flags, props@, i as int, len as int) == target,
        decreases len + 1 - i,
    {
        let p: CharProps = props[i];
        let mut g: GlyphInfo = info[i];
        g.init_unicode_props(p.valid, p.gc, p.ignorable, p.ccc, &mut flags);
        info.set(i, g);
        let gc: u16 = g.general_category();
        let id: u32 = g.id;
        if (5 <= gc && gc <= 9) || gc == 29 {
            i = i + 1;
            continue;
        }
        if gc == 24 && 0x1F3FB <= id && id <= 0x1F3FF {
            g.set_continuation();
            info.set(i, g);
        } else if i != 0 && 0x1F1E6 <= id && id <= 0x1F1FF {
            let prev: GlyphInfo = info[i - 1];
            if 0x1F1E6 <= prev.id && prev.id <= 0x1F1FF && !prev.is_continuation() {
                g.set_continuation();
                info.set(i, g);
            }
        } else if g.is_zwj() {
            g.set_continuation();
            info.set(i, g);
            if i + 1 < len {
                let q: CharProps = props[i + 1];
                if q.valid && q.pictographic {
                    let mut n: GlyphInfo = info[i + 1];
                    n.init_unicode_props(q.valid, q.gc, q.ignorable, q.ccc, &mut flags);
                    n.set_continuation();
                    info.set(i + 1, n);
                    i = i + 1;
                }
            }
        } else if (0xFF9E <= id && id <= 0xFF9F) || (0xE0020 <= id && id <= 0xE007F) {
            g.set_continuation();
            info.set(i, g);
        }
        i = i + 1;
    }
    proof {
        lemma_props_from_len(old(buffer).info@, old(buffer).scratch_flags, props@, 0, len as int);
    }
    let ghost s = info@;
    let mut any: bool = false;
    if flags & HAS_NON_ASCII != 0 {
        let mut k: usize = 0;
        while k < len
            invariant
                k <= len <= info@.len(),
                info@ == s,
                any == exists|m: int| 0 <= m < k && is_cont(#[trigger] s[m]),
            decreases len - k,
        {
            if info[k].is_continuation() {
                any = true;
            }
            k = k + 1;
        }
        if any {
            flags = flags | HAS_CONTINUATIONS;
        }
    }
    core::mem::swap(&mut info, &mut buffer.info);
    buffer.scratch_flags = flags;
}

/// The dotted circle put before a mark that starts the text, in the
/// cluster and with the mask of that mark: a symbol (general category
/// `So`), neither ignorable nor combining.
pub open spec fn dotted_circle(first: GlyphInfo) -> GlyphInfo {
    GlyphInfo {
        id: 0x25CC,
        cluster: first.cluster,
        mask: first.mask,
        unicode_props: spec_unicode_props(0x25CC, GeneralCategory::OtherSymbol, false, 0),
        glyph_props: 0,
        lig_props: 0,
        syllable: 0,
        shaper_category: 0,
        shaper_auxiliary: 0,
        glyph_index: 0,
    }
}

/// Where the text begins with a mark and nothing comes before it, puts a
/// dotted circle first for the mark to sit on, if the buffer asks for it
/// and the font has the glyph (`has_dotted_circle`).
pub fn insert_dotted_circle(buffer: &mut Buffer, has_dotted_circle: bool)
    requires
        old(buffer).wf(),
    ensures
        ({
            let b = *old(buffer);
            let wanted = b.len > 0 && b.insert_dotted_circle && b.beginning_of_text && b.pre_context_len == 0
                && b.info@[0].spec_is_unicode_mark() && has_dotted_circle;
            &&& !wanted ==> *final(buffer) == b
            &&& wanted ==> final(buffer).wf()
            &&& wanted && final(buffer).successful ==> final(buffer).in_view() == seq![dotted_circle(b.info@[0])]
                + b.in_view()
            &&& wanted ==> final(buffer).scratch_flags == spec_scratch_after_props(b.scratch_flags, 0x25CC, false)
        }),
{
    if buffer.len == 0 || !buffer.insert_dotted_circle || !buffer.beginning_of_text || buffer.pre_context_len != 0 {
        return;
    }
    if !buffer.info[0].is_unicode_mark() {
        return;
    }
    if !has_dotted_circle {
        return;
    }
    let first: GlyphInfo = buffer.info[0];
    let mut info: GlyphInfo = GlyphInfo::new(0x25CC, first.cluster);
    info.mask = first.mask;
    let mut flags: u32 = buffer.scratch_flags;
    info.init_unicode_props(true, GeneralCategory::OtherSymbol, false, 0, &mut flags);
    buffer.scratch_flags = flags;
    let ghost before = *buffer;
    buffer.clear_output();
    buffer.output_info(info);
    let ghost mid = *buffer;
    let _ = buffer.sync();
    proof {
        if buffer.successful {
            assert(mid.out_view() =~= seq![info]);
        }
    }
}

} // verus!
