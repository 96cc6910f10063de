//! The Universal Shaping Engine's work on syllables once they are found:
//! the masks of the repha form, the categories that substitutions reveal,
//! and the reordering of repha and pre-base vowels.

use vstd::prelude::*;
use crate::buffer::{glyph_key, glyph_keys, lemma_merge_keeps_keys, rotate_back, Buffer, GlyphInfo, LIGATED, SUBSTITUTED, UNSAFE_TO_BREAK, UNSAFE_TO_CONCAT};
use crate::map::LayoutMap;
use crate::tag::Tag;

verus! {

pub const CAT_B: u8 = 1;

pub const CAT_H: u8 = 12;

pub const CAT_R: u8 = 18;

pub const CAT_V_PRE: u8 = 22;

pub const CAT_VM_PRE: u8 = 23;

pub const CAT_F_ABV: u8 = 24;

pub const CAT_F_BLW: u8 = 25;

pub const CAT_F_PST: u8 = 26;

pub const CAT_IS: u8 = 44;

pub const CAT_FM_ABV: u8 = 45;

pub const CAT_FM_BLW: u8 = 46;

pub const CAT_FM_PST: u8 = 47;

pub const CAT_HVM: u8 = 53;

/// Whether a glyph is a halant, virama or invisible stacker that no
/// ligature swallowed.
pub open spec fn is_halant(g: GlyphInfo) -> bool {
    (g.shaper_category == CAT_H || g.shaper_category == CAT_HVM || g.shaper_category == CAT_IS) && g.glyph_props
        & LIGATED == 0
}

pub fn is_use_halant(g: &GlyphInfo) -> (r: bool)
    ensures
        r == is_halant(*g),
{
    (g.shaper_category == CAT_H || g.shaper_category == CAT_HVM || g.shaper_category == CAT_IS) && !g.ligated()
}

/// Whether a category is one of a post-base consonant or mark.
pub open spec fn is_post_base(c: u8) -> bool {
    c == CAT_F_ABV || c == CAT_F_BLW || c == CAT_F_PST || c == CAT_FM_ABV || c == CAT_FM_BLW || c == CAT_FM_PST
}

/// The end of the syllable that starts at `start`: the glyphs after it with
/// the same syllable number, up to `len`.
pub open spec fn syllable_end(s: Seq<GlyphInfo>, start: int, len: int) -> int
    decreases len - start,
{
    if start + 1 < len && s[start + 1].syllable == s[start].syllable {
        syllable_end(s, start + 1, len)
    } else {
        start + 1
    }
}

/// A syllable ends after its first glyph and no later than `len`.
pub proof fn lemma_syllable_end_bounds(s: Seq<GlyphInfo>, start: int, len: int)
    ensures
        start < syllable_end(s, start, len),
        start < len ==> syllable_end(s, start, len) <= len,
    decreases len - start,
{
    if start + 1 < len && s[start + 1].syllable == s[start].syllable {
        lemma_syllable_end_bounds(s, start + 1, len);
    }
}

proof fn lemma_syllable_end_exact(s: Seq<GlyphInfo>, start: int, end: int, len: int)
    requires
        0 <= start < end <= len <= s.len(),
        forall|k: int| start < k < end ==> #[trigger] s[k].syllable == s[start].syllable,
        end < len ==> s[end].syllable != s[start].syllable,
    ensures
        syllable_end(s, start, len) == end,
    decreases end - start,
{
    if start + 1 < end {
        lemma_syllable_end_exact(s, start + 1, end, len);
    }
}

/// The end of the syllable that starts at `start`.
pub fn next_syllable(buffer: &Buffer, start: usize) -> (end: usize)
    requires
        buffer.wf(),
    ensures
        start >= buffer.len ==> end == start,
        start < buffer.len ==> end == syllable_end(buffer.info@, start as int, buffer.len as int),
        start < buffer.len ==> start < end <= buffer.len,
{
    if start >= buffer.len {
        return start;
    }
    let syllable: u8 = buffer.info[start].syllable;
    let mut end: usize = start + 1;
    while end < buffer.len && buffer.info[end].syllable == syllable
        invariant
            start < end <= buffer.len <= buffer.info@.len(),
            syllable == buffer.info@[start as int].syllable,
            forall|k: int| start < k < end ==> #[trigger] buffer.info@[k].syllable == syllable,
        decreases buffer.len - end,
    {
        end = end + 1;
    }
    proof {
        lemma_syllable_end_exact(buffer.info@, start as int, end as int, buffer.len as int);
    }
    end
}

/// Forgets the syllables once shaping no longer needs them.
pub fn clear_syllables(buffer: &mut Buffer) -> (r: bool)
    requires
        old(buffer).wf(),
    ensures
        !r,
        final(buffer).info@.len() == old(buffer).info@.len(),
        forall|i: int|
            0 <= i < old(buffer).info@.len() ==> #[trigger] final(buffer).info@[i] == if i < old(buffer).len {
                GlyphInfo { syllable: 0, ..old(buffer).info@[i] }
            } else {
                old(buffer).info@[i]
            },
        *final(buffer) == (Buffer { info: final(buffer).info, ..*old(buffer) }),
{
    let mut info: Vec<GlyphInfo> = Vec::new();
    core::mem::swap(&mut info, &mut buffer.info);
    let ghost s0 = info@;
    let len: usize = buffer.len;
    let mut i: usize = 0;
    while i < len
        invariant
            i <= len <= s0.len(),
            info@.len() == s0.len(),
            forall|k: int|
                0 <= k < s0.len() ==> #[trigger] info@[k] == if k < i {
                    GlyphInfo { syllable: 0, ..s0[k] }
                } else {
                    s0[k]
                },
        decreases len - i,
    {
        let mut g: GlyphInfo = info[i];
        g.syllable = 0;
        info.set(i, g);
        i = i + 1;
    }
    core::mem::swap(&mut info, &mut buffer.info);
    false
}

/// Clears the substituted flag of every glyph, so that the next pause sees
/// only what the features after it substitute.
pub fn clear_substitution_flags(buffer: &mut Buffer) -> (r: bool)
    requires
        old(buffer).wf(),
    ensures
        !r,
        final(buffer).info@.len() == old(buffer).info@.len(),
        forall|i: int|
            0 <= i < old(buffer).info@.len() ==> #[trigger] final(buffer).info@[i] == if i < old(buffer).len {
                GlyphInfo { glyph_props: old(buffer).info@[i].glyph_props & !SUBSTITUTED, ..old(buffer).info@[i] }
            } else {
                old(buffer).info@[i]
            },
        *final(buffer) == (Buffer { info: final(buffer).info, ..*old(buffer) }),
{
    let mut info: Vec<GlyphInfo> = Vec::new();
    core::mem::swap(&mut info, &mut buffer.info);
    let ghost s0 = info@;
    let len: usize = buffer.len;
    let mut i: usize = 0;
    while i < len
        invariant
            i <= len <= s0.len(),
            info@.len() == s0.len(),
            forall|k: int|
                0 <= k < s0.len() ==> #[trigger] info@[k] == if k < i {
                    GlyphInfo { glyph_props: s0[k].glyph_props & !SUBSTITUTED, ..s0[k] }
                } else {
                    s0[k]
                },
        decreases len - i,
    {
        let mut g: GlyphInfo = info[i];
        g.clear_substituted();
        info.set(i, g);
        i = i + 1;
    }
    core::mem::swap(&mut info, &mut buffer.info);
    false
}

/// The first substituted glyph of `i .. end`.
pub open spec fn first_substituted(s: Seq<GlyphInfo>, i: int, end: int) -> Option<int>
    decreases end - i,
{
    if i >= end {
        None
    } else if s[i].glyph_props & SUBSTITUTED != 0 {
        Some(i)
    } else {
        first_substituted(s, i + 1, end)
    }
}

/// From syllable start `start` on, the first substituted glyph of each
/// syllable becomes a pre-base vowel.
pub open spec fn pref_from(s: Seq<GlyphInfo>, start: int, len: int) -> Seq<GlyphInfo>
    decreases len - start,
{
    if start < 0 || start >= len {
        s
    } else {
        let e = syllable_end(s, start, len);
        proof {
            lemma_syllable_end_bounds(s, start, len);
        }
        let s2 = match first_substituted(s, start, e) {
            Some(k) => s.update(k, GlyphInfo { shaper_category: CAT_V_PRE, ..s[k] }),
            None => s,
        };
        pref_from(s2, e, len)
    }
}

proof fn lemma_syllable_end_frame(a: Seq<GlyphInfo>, b: Seq<GlyphInfo>, start: int, len: int)
    requires
        a.len() == b.len(),
        forall|k: int| 0 <= k < a.len() ==> (#[trigger] b[k]).syllable == a[k].syllable,
        len <= a.len(),
        0 <= start,
    ensures
        syllable_end(a, start, len) == syllable_end(b, start, len),
    decreases len - start,
{
    if start + 1 < len && a[start + 1].syllable == a[start].syllable {
        lemma_syllable_end_frame(a, b, start + 1, len);
    }
}

/// After the `pref` feature, marks the first glyph of each syllable that
/// it substituted as a pre-base vowel, for reordering.
pub fn record_pref(buffer: &mut Buffer) -> (r: bool)
    requires
        old(buffer).wf(),
    ensures
        !r,
        final(buffer).info@ == pref_from(old(buffer).info@, 0, old(buffer).len as int),
        *final(buffer) == (Buffer { info: final(buffer).info, ..*old(buffer) }),
{
    let ghost target = pref_from(buffer.info@, 0, buffer.len as int);
    let mut start: usize = 0;
    while start < buffer.len
        invariant
            start <= buffer.len == old(buffer).len,
            buffer.wf(),
            *buffer == (Buffer { info: buffer.info, ..*old(buffer) }),
            buffer.info@.len() == old(buffer).info@.len(),
            pref_from(buffer.info@, start as int, buffer.len as int) == target,
        decreases buffer.len - start,
    {
        let end: usize = next_syllable(buffer, start);
        let ghost s = buffer.info@;
        let mut i: usize = start;
        while i < end
            invariant
                start <= i <= end <= buffer.len <= buffer.info@.len(),
                buffer.info@ == s,
                first_substituted(s, start as int, end as int) == first_substituted(s, i as int, end as int),
            ensures
                start <= i <= end,
                buffer.info@ == s,
                first_substituted(s, start as int, end as int) == first_substituted(s, i as int, end as int),
                i < end ==> s[i as int].glyph_props & SUBSTITUTED != 0,
            decreases end - i,
        {
            if buffer.info[i].glyph_props & SUBSTITUTED != 0 {
                break;
            }
            i = i + 1;
        }
        if i < end {
            let mut info: Vec<GlyphInfo> = Vec::new();
            core::mem::swap(&mut info, &mut buffer.info);
            let mut g: GlyphInfo = info[i];
            g.shaper_category = CAT_V_PRE;
            info.set(i, g);
            core::mem::swap(&mut info, &mut buffer.info);
        }
        proof {
            lemma_syllable_end_frame(s, buffer.info@, end as int, buffer.len as int);
            assert(first_substituted(s, i as int, end as int) == if i < end {
                Some(i as int)
            } else {
                None::<int>
            });
        }
        start = end;
    }
    false
}

/// Whether a glyph stands after the base: a post-base consonant or mark, or
/// a halant.
pub open spec fn after_base(g: GlyphInfo) -> bool {
    is_post_base(g.shaper_category) || is_halant(g)
}

/// Where the repha at `start` goes, scanning from `i`: before the first
/// glyph after the base, or else to the end of the syllable.
pub open spec fn repha_target(s: Seq<GlyphInfo>, i: int, end: int) -> int
    decreases end - i,
{
    if i >= end {
        end - 1
    } else if after_base(s[i]) {
        i - 1
    } else if i == end - 1 {
        i
    } else {
        repha_target(s, i + 1, end)
    }
}

/// Glyph `start` moved forward to `target`, the glyphs between moving back
/// by one.
pub open spec fn moved_forward<A>(s: Seq<A>, start: int, target: int) -> Seq<A> {
    s.subrange(0, start) + s.subrange(start + 1, target + 1).push(s[start]) + s.subrange(target + 1, s.len() as int)
}

/// Glyph `i` moved back to `target`, the glyphs between moving up by one.
pub open spec fn moved_back<A>(s: Seq<A>, target: int, i: int) -> Seq<A> {
    s.subrange(0, target).push(s[i]) + s.subrange(target, i) + s.subrange(i + 1, s.len() as int)
}

proof fn lemma_repha_target(s: Seq<GlyphInfo>, i: int, end: int)
    requires
        1 <= i < end,
    ensures
        i - 1 <= repha_target(s, i, end) < end,
    decreases end - i,
{
    if !after_base(s[i]) && i != end - 1 {
        lemma_repha_target(s, i + 1, end);
    }
}

/// Moves glyph `start` forward to `target`.
fn rotate_forward(v: &mut Vec<GlyphInfo>, start: usize, target: usize)
    requires
        start <= target < old(v)@.len(),
    ensures
        final(v)@ == moved_forward(old(v)@, start as int, target as int),
{
    let t: GlyphInfo = v[start];
    let ghost v0 = v@;
    let mut k: usize = start;
    while k < target
        invariant
            start <= k <= target < v@.len(),
            v@.len() == v0.len(),
            forall|q: int| 0 <= q < start ==> #[trigger] v@[q] == v0[q],
            forall|q: int| start <= q < k ==> #[trigger] v@[q] == v0[q + 1],
            forall|q: int| k <= q < v@.len() ==> #[trigger] v@[q] == v0[q],
        decreases target - k,
    {
        let x: GlyphInfo = v[k + 1];
        v.set(k, x);
        k = k + 1;
    }
    v.set(target, t);
    assert(v@ =~= moved_forward(v0, start as int, target as int));
}

/// Moves a repha that starts a syllable to where it is written: before the
/// first glyph after the base, or to the end of the syllable, merging the
/// clusters it passes.
pub fn move_repha_forward(buffer: &mut Buffer, start: usize, end: usize)
    requires
        old(buffer).wf(),
        start < end <= old(buffer).len,
    ensures
        final(buffer).wf(),
        final(buffer).len == old(buffer).len,
        final(buffer).pos == old(buffer).pos,
        final(buffer).info@.len() == old(buffer).info@.len(),
        final(buffer).same_settings(&*old(buffer)),
        glyph_keys(final(buffer).info@) == glyph_keys(if old(buffer).info@[start as int].shaper_category == CAT_R && end
            - start > 1 {
            moved_forward(old(buffer).info@, start as int, repha_target(old(buffer).info@, start + 1, end as int))
        } else {
            old(buffer).info@
        }),
{
    if buffer.info[start].shaper_category != CAT_R || end - start <= 1 {
        return;
    }
    let mut i: usize = start + 1;
    let mut target: usize = end - 1;
    while i < end
        invariant
            start < i < end <= buffer.len <= buffer.info@.len(),
            repha_target(buffer.info@, start + 1, end as int) == repha_target(buffer.info@, i as int, end as int),
        ensures
            start <= target < end,
            target == repha_target(buffer.info@, start + 1, end as int),
        decreases end - i,
    {
        let g: GlyphInfo = buffer.info[i];
        let c: u8 = g.shaper_category;
        let post: bool = c == CAT_F_ABV || c == CAT_F_BLW || c == CAT_F_PST || c == CAT_FM_ABV || c == CAT_FM_BLW
            || c == CAT_FM_PST || is_use_halant(&g);
        if !post && i != end - 1 {
            i = i + 1;
            continue;
        }
        target = if post {
            i - 1
        } else {
            i
        };
        break;
    }
    let ghost s0 = buffer.info@;
    let ghost c = buffer.merged_cluster(start as int, (target + 1) as int);
    buffer.merge_clusters(start, target + 1);
    proof {
        if target + 1 - start >= 2 {
            lemma_merge_keeps_keys(s0, buffer.info@, c, UNSAFE_TO_BREAK | UNSAFE_TO_CONCAT);
        }
    }
    let ghost s1 = buffer.info@;
    let mut info: Vec<GlyphInfo> = Vec::new();
    core::mem::swap(&mut info, &mut buffer.info);
    rotate_forward(&mut info, start, target);
    core::mem::swap(&mut info, &mut buffer.info);
    proof {
        assert forall|k: int| 0 <= k < s0.len() implies glyph_key(#[trigger] s1[k]) == glyph_key(s0[k]) by {
            if target + 1 - start < 2 {
                assert(s1 == s0);
            }
        }
        assert(glyph_keys(buffer.info@) =~= glyph_keys(moved_forward(s0, start as int, target as int)));
    }
}

/// Whether a glyph is a pre-base vowel or vowel modifier that is not part
/// of a ligature's later component.
pub open spec fn movable_pre_base(g: GlyphInfo) -> bool {
    (g.shaper_category == CAT_V_PRE || g.shaper_category == CAT_VM_PRE) && g.spec_lig_comp() == 0
}

/// Moving pre-base vowels back, from glyph `i` on, each to `target`: just
/// after the last halant so far, or the start of the syllable.
pub open spec fn pre_base_from(s: Seq<GlyphInfo>, target: int, i: int, end: int) -> Seq<GlyphInfo>
    decreases end - i,
{
    if i < 0 || i >= end || end > s.len() {
        s
    } else if is_halant(s[i]) {
        pre_base_from(s, i + 1, i + 1, end)
    } else if movable_pre_base(s[i]) && 0 <= target < i {
        pre_base_from(moved_back(s, target, i), target, i + 1, end)
    } else {
        pre_base_from(s, target, i + 1, end)
    }
}

proof fn lemma_moved_back_keys(s: Seq<GlyphInfo>, target: int, i: int)
    requires
        0 <= target < i < s.len(),
    ensures
        glyph_keys(moved_back(s, target, i)) =~= moved_back(glyph_keys(s), target, i),
{
}

/// Moves every pre-base vowel of a syllable back before the consonants
/// since the last halant, merging the clusters it passes.
pub fn move_pre_base_vowels_back(buffer: &mut Buffer, start: usize, end: usize)
    requires
        old(buffer).wf(),
        start <= end <= old(buffer).len,
    ensures
        final(buffer).wf(),
        final(buffer).len == old(buffer).len,
        final(buffer).pos == old(buffer).pos,
        final(buffer).info@.len() == old(buffer).info@.len(),
        final(buffer).same_settings(&*old(buffer)),
        glyph_keys(final(buffer).info@) == pre_base_from(glyph_keys(old(buffer).info@), start as int, start as int, end as int),
{
    let ghost goal = pre_base_from(glyph_keys(buffer.info@), start as int, start as int, end as int);
    let mut target: usize = start;
    let mut i: usize = start;
    while i < end
        invariant
            start <= target <= i <= end <= buffer.len == old(buffer).len,
            buffer.wf(),
            buffer.pos == old(buffer).pos,
            buffer.info@.len() == old(buffer).info@.len(),
            buffer.same_settings(&*old(buffer)),
            pre_base_from(glyph_keys(buffer.info@), target as int, i as int, end as int) == goal,
        decreases end - i,
    {
        let g: GlyphInfo = buffer.info[i];
        proof {
            assert(glyph_keys(buffer.info@)[i as int] == glyph_key(g));
        }
        if is_use_halant(&g) {
            target = i + 1;
            i = i + 1;
            continue;
        }
        let pre: bool = g.shaper_category == CAT_V_PRE || g.shaper_category == CAT_VM_PRE;
        if pre && g.lig_comp() == 0 && target < i {
            let ghost s0 = buffer.info@;
            let ghost c = buffer.merged_cluster(target as int, (i + 1) as int);
            buffer.merge_clusters(target, i + 1);
            proof {
                lemma_merge_keeps_keys(s0, buffer.info@, c, UNSAFE_TO_BREAK | UNSAFE_TO_CONCAT);
                assert(glyph_keys(buffer.info@) =~= glyph_keys(s0));
            }
            let ghost s1 = buffer.info@;
            let mut info: Vec<GlyphInfo> = Vec::new();
            core::mem::swap(&mut info, &mut buffer.info);
            rotate_back(&mut info, target, i);
            core::mem::swap(&mut info, &mut buffer.info);
            proof {
                assert(buffer.info@ == moved_back(s1, target as int, i as int));
                lemma_moved_back_keys(s1, target as int, i as int);
            }
        }
        i = i + 1;
    }
}

/// The tag `rphf`.
pub open spec fn rphf_tag() -> Tag {
    Tag(0x7270_6866)
}

/// The mask of the `rphf` feature in the map, zero without one.
pub open spec fn rphf_mask(map: LayoutMap) -> u32 {
    match map.spec_feature_at(rphf_tag()) {
        None => 0u32,
        Some(k) => map.features@[k].one_mask,
    }
}

/// From syllable start `start` on, the first glyphs of each syllable that
/// may form a repha get mask `m`: the repha alone where the syllable starts
/// with one, else up to three glyphs.
pub open spec fn rphf_masks_from(s: Seq<GlyphInfo>, m: u32, start: int, len: int) -> Seq<GlyphInfo>
    decreases len - start,
{
    if start < 0 || start >= len || len > s.len() {
        s
    } else {
        let e = syllable_end(s, start, len);
        proof {
            lemma_syllable_end_bounds(s, start, len);
        }
        let limit = if s[start].shaper_category == CAT_R {
            1
        } else if e - start < 3 {
            e - start
        } else {
            3
        };
        let s2 = Seq::new(
            s.len(),
            |k: int|
                if start <= k < start + limit {
                    GlyphInfo { mask: s[k].mask | m, ..s[k] }
                } else {
                    s[k]
                },
        );
        rphf_masks_from(s2, m, e, len)
    }
}

/// Gives the glyphs that may form a repha the mask of the `rphf` feature.
pub fn setup_rphf_mask(map: &LayoutMap, buffer: &mut Buffer)
    requires
        map.wf(),
        old(buffer).wf(),
    ensures
        rphf_mask(*map) == 0 ==> *final(buffer) == *old(buffer),
        rphf_mask(*map) != 0 ==> final(buffer).info@ == rphf_masks_from(old(buffer).info@, rphf_mask(*map), 0, old(buffer).len as int),
        *final(buffer) == (Buffer { info: final(buffer).info, ..*old(buffer) }),
{
    let m: u32 = map.one_mask(Tag(0x7270_6866));
    if m == 0 {
        return;
    }
    let ghost goal = rphf_masks_from(buffer.info@, m, 0, buffer.len as int);
    let mut start: usize = 0;
    while start < buffer.len
        invariant
            start <= buffer.len == old(buffer).len,
            buffer.wf(),
            *buffer == (Buffer { info: buffer.info, ..*old(buffer) }),
            buffer.info@.len() == old(buffer).info@.len(),
            rphf_masks_from(buffer.info@, m, start as int, buffer.len as int) == goal,
        decreases buffer.len - start,
    {
        let end: usize = next_syllable(buffer, start);
        let limit: usize = if buffer.info[start].shaper_category == CAT_R {
            1
        } else if end - start < 3 {
            end - start
        } else {
            3
        };
        let ghost s = buffer.info@;
        let mut info: Vec<GlyphInfo> = Vec::new();
        core::mem::swap(&mut info, &mut buffer.info);
        let mut k: usize = start;
        while k < start + limit
            invariant
                start <= k <= start + limit <= end <= s.len(),
                info@.len() == s.len(),
                forall|q: int|
                    0 <= q < s.len() ==> #[trigger] info@[q] == if start <= q < k {
                        GlyphInfo { mask: s[q].mask | m, ..s[q] }
                    } else {
                        s[q]
                    },
            decreases start + limit - k,
        {
            let mut g: GlyphInfo = info[k];
            g.mask = g.mask | m;
            info.set(k, g);
            k = k + 1;
        }
        core::mem::swap(&mut info, &mut buffer.info);
        proof {
            let s2 = Seq::new(
                s.len(),
                |q: int|
                    if start <= q < start + limit {
                        GlyphInfo { mask: s[q].mask | m, ..s[q] }
                    } else {
                        s[q]
                    },
            );
            assert(buffer.info@ =~= s2);
            lemma_syllable_end_frame(s, buffer.info@, end as int, buffer.len as int);
        }
        start = end;
    }
}

/// The glyph of `i .. end` that the `rphf` feature turned into a repha:
/// the first substituted glyph before the first glyph without mask `m`.
pub open spec fn rphf_hit(s: Seq<GlyphInfo>, m: u32, i: int, end: int) -> Option<int>
    decreases end - i,
{
    if i >= end || s[i].mask & m == 0 {
        None
    } else if s[i].glyph_props & SUBSTITUTED != 0 {
        Some(i)
    } else {
        rphf_hit(s, m, i + 1, end)
    }
}

/// From syllable start `start` on, the glyph of each syllable that became a
/// repha takes the repha category.
pub open spec fn rphf_from(s: Seq<GlyphInfo>, m: u32, start: int, len: int) -> Seq<GlyphInfo>
    decreases len - start,
{
    if start < 0 || start >= len {
        s
    } else {
        let e = syllable_end(s, start, len);
        proof {
            lemma_syllable_end_bounds(s, start, len);
        }
        let s2 = match rphf_hit(s, m, start, e) {
            Some(k) => s.update(k, GlyphInfo { shaper_category: CAT_R, ..s[k] }),
            None => s,
        };
        rphf_from(s2, m, e, len)
    }
}

/// After the `rphf` feature, marks the glyph of each syllable that became a
/// repha, for reordering; does nothing where the map has no `rphf`.
pub fn record_rphf(map: &LayoutMap, buffer: &mut Buffer) -> (r: bool)
    requires
        map.wf(),
        old(buffer).wf(),
    ensures
        !r,
        rphf_mask(*map) == 0 ==> *final(buffer) == *old(buffer),
        rphf_mask(*map) != 0 ==> final(buffer).info@ == rphf_from(old(buffer).info@, rphf_mask(*map), 0, old(buffer).len as int),
        *final(buffer) == (Buffer { info: final(buffer).info, ..*old(buffer) }),
{
    let m: u32 = map.one_mask(Tag(0x7270_6866));
    if m == 0 {
        return false;
    }
    let ghost goal = rphf_from(buffer.info@, m, 0, buffer.len as int);
    let mut start: usize = 0;
    while start < buffer.len
        invariant
            start <= buffer.len == old(buffer).len,
            buffer.wf(),
            *buffer == (Buffer { info: buffer.info, ..*old(buffer) }),
            buffer.info@.len() == old(buffer).info@.len(),
            rphf_from(buffer.info@, m, start as int, buffer.len as int) == goal,
        decreases buffer.len - start,
    {
        let end: usize = next_syllable(buffer, start);
        let ghost s = buffer.info@;
        let mut i: usize = start;
        let mut hit: bool = false;
        while i < end
            invariant_except_break
                !hit,
            invariant
                start <= i <= end <= buffer.len <= buffer.info@.len(),
                buffer.info@ == s,
                rphf_hit(s, m, start as int, end as int) == rphf_hit(s, m, i as int, end as int),
            ensures
                start <= i <= end,
                buffer.info@ == s,
                hit ==> i < end && rphf_hit(s, m, start as int, end as int) == Some(i as int),
                !hit ==> rphf_hit(s, m, start as int, end as int) is None,
            decreases end - i,
        {
            if buffer.info[i].mask & m == 0 {
                break;
            }
            if buffer.info[i].glyph_props & SUBSTITUTED != 0 {
                hit = true;
                break;
            }
            i = i + 1;
        }
        if hit {
            let mut info: Vec<GlyphInfo> = Vec::new();
            core::mem::swap(&mut info, &mut buffer.info);
            let mut g: GlyphInfo = info[i];
            g.shaper_category = CAT_R;
            info.set(i, g);
            core::mem::swap(&mut info, &mut buffer.info);
        }
        proof {
            lemma_syllable_end_frame(s, buffer.info@, end as int, buffer.len as int);
        }
        start = end;
    }
    false
}

} // verus!
