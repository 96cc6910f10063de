//! The Khmer shaper: the split vowels it decomposes into their prefix and
//! themselves, the compositions it refuses after a mark, and the
//! reordering of a consonant syllable.

use vstd::prelude::*;
use crate::unicode::{gc_is_mark, GeneralCategory};
use crate::buffer::{flag_or_keep, min_cluster_from, relabel_or_keep, Buffer, GlyphInfo, UNSAFE_TO_BREAK, UNSAFE_TO_CONCAT};

verus! {

/// Whether `ab` is one of the Khmer vowels written with a prefixed part:
/// oe, ya, ie, oo and au.
pub open spec fn is_split_vowel(ab: char) -> bool {
    let u = ab as u32;
    u == 0x17BE || u == 0x17BF || u == 0x17C0 || u == 0x17C4 || u == 0x17C5
}

/// What the Khmer shaper decomposes `ab` into: a split vowel into the
/// prefix e and the vowel itself; anything else as the Unicode
/// decomposition data has it (`decomposed`).
pub open spec fn spec_decompose(ab: char, decomposed: Option<(char, Option<char>)>) -> Option<(char, Option<char>)> {
    if is_split_vowel(ab) {
        Some(('\u{17C1}', Some(ab)))
    } else {
        decomposed
    }
}

/// Decomposes `ab` (see `spec_decompose`); `decomposed` is what the
/// Unicode decomposition data gives for it.
pub fn decompose(ab: char, decomposed: Option<(char, Option<char>)>) -> (r: Option<(char, Option<char>)>)
    ensures
        r == spec_decompose(ab, decomposed),
{
    let u: u32 = ab as u32;
    if u == 0x17BE || u == 0x17BF || u == 0x17C0 || u == 0x17C4 || u == 0x17C5 {
        Some(('\u{17C1}', Some(ab)))
    } else {
        decomposed
    }
}

/// Composes a pair whose first character has general category
/// `first_category`: never after a mark; else as the Unicode composition
/// data has it (`composed`).
pub fn compose(first_category: GeneralCategory, composed: Option<char>) -> (r: Option<char>)
    ensures
        r == if gc_is_mark(first_category) {
            None
        } else {
            composed
        },
{
    if first_category.is_mark() {
        return None;
    }
    composed
}

/// The Khmer categories the reordering looks at.
pub const CAT_H: u8 = 4;

pub const CAT_RA: u8 = 15;

pub const CAT_V_PRE: u8 = 21;

/// The positions of the features' masks in the mask array.
pub const PREF: usize = 0;

pub const BLWF: usize = 1;

pub const ABVF: usize = 2;

pub const PSTF: usize = 3;

pub const CFAR: usize = 4;

/// `s` with the mask bits `m` added to the glyphs `from .. to`.
pub open spec fn masks_added(s: Seq<GlyphInfo>, from: int, to: int, m: u32) -> Seq<GlyphInfo> {
    Seq::new(s.len(), |k: int| if from <= k < to { GlyphInfo { mask: s[k].mask | m, ..s[k] } } else { s[k] })
}

/// `s` with the `cfar` mask added to the glyphs `from .. to`, where that
/// feature has a mask.
pub open spec fn cfar_added(s: Seq<GlyphInfo>, from: int, to: int, cfar: u32) -> Seq<GlyphInfo> {
    if cfar != 0 {
        masks_added(s, from, to, cfar)
    } else {
        s
    }
}

/// `s` with the `c` glyphs at `i` moved to `start`, the glyphs between
/// moving up behind them.
pub open spec fn moved_to_front(s: Seq<GlyphInfo>, start: int, i: int, c: int) -> Seq<GlyphInfo> {
    s.subrange(0, start) + s.subrange(i, i + c) + s.subrange(start, i) + s.subrange(i + c, s.len() as int)
}

/// `t` is `s` after glyphs `a .. e` are merged into one cluster: at a
/// monotone cluster level they take the least cluster among them (and
/// glyphs of the clusters they absorb follow); at the other levels they
/// are only marked unsafe to break.
pub open spec fn merged_info(t: Seq<GlyphInfo>, s: Seq<GlyphInfo>, a: int, e: int, monotone: bool) -> bool {
    &&& t.len() == s.len()
    &&& monotone ==> (forall|k: int|
        0 <= k < s.len() ==> relabel_or_keep(s[k], #[trigger] t[k], min_cluster_from(s, a + 1, e, s[a].cluster), 0))
        && (forall|k: int| a <= k < e ==> #[trigger] t[k].cluster == min_cluster_from(s, a + 1, e, s[a].cluster))
    &&& !monotone ==> forall|k: int| 0 <= k < s.len() ==> flag_or_keep(s[k], #[trigger] t[k], UNSAFE_TO_BREAK | UNSAFE_TO_CONCAT)
}

/// One step of the reordering at glyph `i` of the syllable `start .. end`,
/// from glyphs `s` with `c` coengs seen to `t` with `d`: a coeng (with
/// fewer than three seen and a glyph after it) counts, and with a ro after
/// it the pair takes the pre-base form, merges with the syllable's start
/// and moves there, the glyphs after it taking `cfar`; a pre-base vowel
/// merges with the start and moves there.
pub open spec fn reorder_step(
    s: Seq<GlyphInfo>,
    c: int,
    t: Seq<GlyphInfo>,
    d: int,
    masks: Seq<u32>,
    start: int,
    end: int,
    i: int,
    monotone: bool,
) -> bool {
    if s[i].shaper_category == CAT_H && c <= 2 && i + 1 < end {
        if s[i + 1].shaper_category == CAT_RA {
            let p = masks_added(s, i, i + 2, masks[PREF as int]);
            &&& d == 2
            &&& exists|m: Seq<GlyphInfo>|
                #[trigger] merged_info(m, p, start, i + 2, monotone) && t == cfar_added(
                    moved_to_front(m, start, i, 2),
                    i + 2,
                    end,
                    masks[CFAR as int],
                )
        } else {
            t == s && d == c + 1
        }
    } else if s[i].shaper_category == CAT_V_PRE {
        &&& d == c
        &&& exists|m: Seq<GlyphInfo>| #[trigger] merged_info(m, s, start, i + 1, monotone) && moved_to_front(m, start, i, 1) == t
    } else {
        t == s && d == c
    }
}

/// `chain` holds the glyphs of the syllable `start .. end` and the coengs
/// seen before each step of the reordering and after the last: it starts
/// from `s` with the below-, above- and post-base forms on every glyph
/// after the first.
pub open spec fn reorder_chain(
    chain: Seq<(Seq<GlyphInfo>, int)>,
    s: Seq<GlyphInfo>,
    masks: Seq<u32>,
    start: int,
    end: int,
    monotone: bool,
) -> bool {
    &&& chain.len() == end - start
    &&& chain[0] == (masks_added(s, start + 1, end, masks[BLWF as int] | masks[ABVF as int] | masks[PSTF as int]), 0int)
    &&& forall|q: int|
        0 <= q < end - start - 1 ==> #[trigger] reorder_step(
            chain[q].0,
            chain[q].1,
            chain[q + 1].0,
            chain[q + 1].1,
            masks,
            start,
            end,
            start + 1 + q,
            monotone,
        )
}

fn add_mask(info: &mut Vec<GlyphInfo>, from: usize, to: usize, m: u32)
    requires
        from <= to <= old(info)@.len(),
    ensures
        final(info)@ == masks_added(old(info)@, from as int, to as int, m),
{
    let mut k: usize = from;
    while k < to
        invariant
            from <= k <= to <= info@.len(),
            info@.len() == old(info)@.len(),
            forall|j: int|
                0 <= j < info@.len() ==> #[trigger] info@[j] == if from <= j < k {
                    GlyphInfo { mask: old(info)@[j].mask | m, ..old(info)@[j] }
                } else {
                    old(info)@[j]
                },
        decreases to - k,
    {
        let mut g: GlyphInfo = info[k];
        g.mask = g.mask | m;
        info.set(k, g);
        k = k + 1;
    }
    assert(info@ =~= masks_added(old(info)@, from as int, to as int, m));
}

fn move_to_front(info: &mut Vec<GlyphInfo>, start: usize, i: usize, c: usize)
    requires
        start <= i,
        i + c <= old(info)@.len(),
        1 <= c <= 2,
    ensures
        final(info)@ == moved_to_front(old(info)@, start as int, i as int, c as int),
{
    let ghost s = info@;
    let n: usize = info.len();
    let first: GlyphInfo = info[i];
    let second: GlyphInfo = info[i + (c - 1)];
    let mut k: usize = i - start;
    while k > 0
        invariant
            k <= i - start,
            info@.len() == s.len(),
            i + c <= s.len(),
            n == s.len(),
            1 <= c <= 2,
            forall|p: int| 0 <= p < start + k ==> #[trigger] info@[p] == s[p],
            forall|p: int| start + k + c <= p < i + c ==> #[trigger] info@[p] == s[p - c],
            forall|p: int| i + c <= p < s.len() ==> #[trigger] info@[p] == s[p],
        decreases k,
    {
        let g: GlyphInfo = info[start + k - 1];
        info.set(start + k - 1 + c, g);
        k = k - 1;
    }
    info.set(start, first);
    if c == 2 {
        info.set(start + 1, second);
    }
    assert(info@ =~= moved_to_front(s, start as int, i as int, c as int));
}

/// Reorders the consonant syllable `start .. end`: every glyph after the
/// first takes the below-, above- and post-base forms; then each coeng ro
/// (after at most two other coengs) and each pre-base vowel is merged with
/// the syllable's start and moved there, in turn (see `reorder_step`).
/// `masks` are the masks of the shaper's features.
pub fn reorder_consonant_syllable(masks: &[u32; 9], start: usize, end: usize, buffer: &mut Buffer)
    requires
        old(buffer).wf(),
        start < end <= old(buffer).len,
    ensures
        final(buffer).wf(),
        final(buffer).len == old(buffer).len,
        final(buffer).idx == old(buffer).idx,
        final(buffer).pos == old(buffer).pos,
        final(buffer).same_settings(&*old(buffer)),
        final(buffer).info@.len() == old(buffer).info@.len(),
        exists|chain: Seq<(Seq<GlyphInfo>, int)>|
            #[trigger] reorder_chain(
                chain,
                old(buffer).info@,
                masks@,
                start as int,
                end as int,
                old(buffer).cluster_level.spec_is_monotone(),
            ) && final(buffer).info@ == chain.last().0,
{
    let ghost mono = buffer.cluster_level.spec_is_monotone();
    let post_base: u32 = masks[BLWF] | masks[ABVF] | masks[PSTF];
    add_mask(&mut buffer.info, start + 1, end, post_base);
    let ghost mut chain: Seq<(Seq<GlyphInfo>, int)> = seq![(buffer.info@, 0int)];
    let mut coengs: usize = 0;
    let mut i: usize = start + 1;
    while i < end
        invariant
            start + 1 <= i <= end,
            end <= buffer.len,
            buffer.wf(),
            buffer.len == old(buffer).len,
            buffer.idx == old(buffer).idx,
            buffer.pos == old(buffer).pos,
            buffer.same_settings(&*old(buffer)),
            buffer.info@.len() == old(buffer).info@.len(),
            mono == old(buffer).cluster_level.spec_is_monotone(),
            coengs <= 3,
            chain.len() == i - start,
            chain[0] == (masks_added(old(buffer).info@, start + 1, end as int, masks@[BLWF as int] | masks@[ABVF as int] | masks@[PSTF as int]), 0int),
            chain.last() == (buffer.info@, coengs as int),
            forall|q: int|
                0 <= q < i - start - 1 ==> #[trigger] reorder_step(
                    chain[q].0,
                    chain[q].1,
                    chain[q + 1].0,
                    chain[q + 1].1,
                    masks@,
                    start as int,
                    end as int,
                    start + 1 + q,
                    mono,
                ),
        decreases end - i,
    {
        let ghost before = buffer.info@;
        let ghost c0 = coengs as int;
        if buffer.info[i].shaper_category == CAT_H && coengs <= 2 && i + 1 < end {
            coengs = coengs + 1;
            if buffer.info[i + 1].shaper_category == CAT_RA {
                add_mask(&mut buffer.info, i, i + 2, masks[PREF]);
                let ghost p = buffer.info@;
                buffer.merge_clusters(start, i + 2);
                let ghost m = buffer.info@;
                assert(merged_info(m, p, start as int, i + 2, mono));
                move_to_front(&mut buffer.info, start, i, 2);
                if masks[CFAR] != 0 {
                    add_mask(&mut buffer.info, i + 2, end, masks[CFAR]);
                }
                coengs = 2;
                assert(reorder_step(before, c0, buffer.info@, coengs as int, masks@, start as int, end as int, i as int, mono));
            } else {
                assert(reorder_step(before, c0, buffer.info@, coengs as int, masks@, start as int, end as int, i as int, mono));
            }
        } else if buffer.info[i].shaper_category == CAT_V_PRE {
            buffer.merge_clusters(start, i + 1);
            let ghost m = buffer.info@;
            assert(merged_info(m, before, start as int, i + 1, mono));
            move_to_front(&mut buffer.info, start, i, 1);
            assert(reorder_step(before, c0, buffer.info@, coengs as int, masks@, start as int, end as int, i as int, mono));
        } else {
            assert(reorder_step(before, c0, buffer.info@, coengs as int, masks@, start as int, end as int, i as int, mono));
        }
        proof {
            let old_chain = chain;
            chain = chain.push((buffer.info@, coengs as int));
            assert forall|q: int|
                0 <= q < i + 1 - start - 1 implies #[trigger] reorder_step(
                    chain[q].0,
                    chain[q].1,
                    chain[q + 1].0,
                    chain[q + 1].1,
                    masks@,
                    start as int,
                    end as int,
                    start + 1 + q,
                    mono,
                ) by {
                if q < i - start - 1 {
                    assert(chain[q] == old_chain[q] && chain[q + 1] == old_chain[q + 1]);
                }
            }
        }
        i = i + 1;
    }
    assert(reorder_chain(chain, old(buffer).info@, masks@, start as int, end as int, mono));
}

} // verus!
