//! The part of normalization that needs no font: putting the marks of each
//! run of combining characters in canonical order, and showing again the
//! combining grapheme joiners that blocked no reordering.

use vstd::prelude::*;
use crate::buffer::{glyph_key, glyph_keys, in_order, keys_later, stable_perm, Buffer, GlyphInfo, HAS_CGJ, PROPS_HIDDEN};

verus! {

/// The longest run of marks that is put in order.
pub const MAX_COMBINING_MARKS: usize = 32;

/// The modified combining class of a glyph: that of a mark, zero for
/// anything else.
pub open spec fn ccc(g: GlyphInfo) -> u8 {
    if g.spec_is_unicode_mark() {
        (g.unicode_props >> 8u16) as u8
    } else {
        0
    }
}

/// Whether `a` goes after `b` in canonical order.
pub fn higher_combining_class(a: &GlyphInfo, b: &GlyphInfo) -> (r: bool)
    ensures
        r == (ccc(*a) > ccc(*b)),
{
    a.modified_combining_class() > b.modified_combining_class()
}

/// The first glyph of the run of nonzero combining classes that holds
/// glyph `k`.
pub open spec fn mark_run_start(s: Seq<GlyphInfo>, k: int) -> int
    decreases k,
{
    if k > 0 && ccc(s[k - 1]) != 0 {
        mark_run_start(s, k - 1)
    } else {
        k
    }
}

/// The end, below `len`, of the run of nonzero combining classes that
/// holds glyph `k`.
pub open spec fn mark_run_end(s: Seq<GlyphInfo>, k: int, len: int) -> int
    decreases len - k,
{
    if k + 1 < len && ccc(s[k + 1]) != 0 {
        mark_run_end(s, k + 1, len)
    } else {
        k + 1
    }
}

proof fn lemma_mark_run(s: Seq<GlyphInfo>, start: int, end: int, len: int, k: int)
    requires
        0 <= start <= k < end <= len <= s.len(),
        start == 0 || ccc(s[start - 1]) == 0,
        end == len || ccc(s[end]) == 0,
        forall|m: int| start <= m < end ==> ccc(#[trigger] s[m]) != 0,
    ensures
        mark_run_start(s, k) == start,
        mark_run_end(s, k, len) == end,
    decreases end - k + k - start,
{
    if k > start {
        lemma_mark_run_start_only(s, start, k);
    }
    if k + 1 < end {
        lemma_mark_run_end_only(s, end, len, k);
    }
}

proof fn lemma_mark_run_start_only(s: Seq<GlyphInfo>, start: int, k: int)
    requires
        0 <= start <= k < s.len(),
        start == 0 || ccc(s[start - 1]) == 0,
        forall|m: int| start <= m <= k ==> ccc(#[trigger] s[m]) != 0,
    ensures
        mark_run_start(s, k) == start,
    decreases k,
{
    if k > start {
        lemma_mark_run_start_only(s, start, k - 1);
    }
}

proof fn lemma_mark_run_end_only(s: Seq<GlyphInfo>, end: int, len: int, k: int)
    requires
        0 <= k < end <= len <= s.len(),
        end == len || ccc(s[end]) == 0,
        forall|m: int| k <= m < end ==> ccc(#[trigger] s[m]) != 0,
    ensures
        mark_run_end(s, k, len) == end,
    decreases end - k,
{
    if k + 1 < end {
        lemma_mark_run_end_only(s, end, len, k + 1);
    }
}

proof fn lemma_run_bounds(s: Seq<GlyphInfo>, k: int, len: int)
    requires
        0 <= k < len,
    ensures
        0 <= mark_run_start(s, k) <= k,
        k < mark_run_end(s, k, len) <= len,
{
    lemma_run_bounds_start(s, k);
    lemma_run_bounds_end(s, k, len);
}

proof fn lemma_run_bounds_end(s: Seq<GlyphInfo>, k: int, len: int)
    requires
        0 <= k < len,
    ensures
        k < mark_run_end(s, k, len) <= len,
    decreases len - k,
{
    if k + 1 < len && ccc(s[k + 1]) != 0 {
        lemma_run_bounds_end(s, k + 1, len);
    }
}

proof fn lemma_run_bounds_start(s: Seq<GlyphInfo>, k: int)
    requires
        0 <= k,
    ensures
        0 <= mark_run_start(s, k) <= k,
    decreases k,
{
    if k > 0 && ccc(s[k - 1]) != 0 {
        lemma_run_bounds_start(s, k - 1);
    }
}

/// Glyphs that canonical ordering left in order have combining classes
/// that do not fall.
proof fn lemma_in_order_classes<F: Fn(&GlyphInfo, &GlyphInfo) -> bool>(later: F, x: GlyphInfo, y: GlyphInfo)
    requires
        in_order(later, x, y),
        forall|a: GlyphInfo, b: GlyphInfo, r: bool| #[trigger] call_ensures(later, (&a, &b), r) ==> r == (ccc(a) > ccc(b)),
    ensures
        ccc(x) <= ccc(y),
{
    if exists|a: GlyphInfo, b: GlyphInfo|
        glyph_key(a) == glyph_key(x) && glyph_key(b) == glyph_key(y) && #[trigger] call_ensures(later, (&a, &b), false) {
        let (a, b) = choose|a: GlyphInfo, b: GlyphInfo|
            glyph_key(a) == glyph_key(x) && glyph_key(b) == glyph_key(y) && #[trigger] call_ensures(later, (&a, &b), false);
        assert(a.unicode_props == x.unicode_props && b.unicode_props == y.unicode_props);
    } else {
        let (a, b) = choose|a: GlyphInfo, b: GlyphInfo|
            glyph_key(a) == glyph_key(y) && glyph_key(b) == glyph_key(x) && #[trigger] call_ensures(later, (&a, &b), true);
        assert(a.unicode_props == y.unicode_props && b.unicode_props == x.unicode_props);
    }
}

/// Glyphs with the same key have the same combining class.
proof fn lemma_key_ccc(a: GlyphInfo, b: GlyphInfo)
    requires
        glyph_key(a) == glyph_key(b),
    ensures
        ccc(a) == ccc(b),
{
    assert(a.unicode_props == glyph_key(a).unicode_props);
}

/// The glyphs `a .. b` of `f` are those of `s` in a stable order by
/// combining class: `perm` takes each position of the range to the glyph
/// of `s` that stands there, and two glyphs change places only where the
/// first has the higher class.
pub open spec fn ccc_stable(s: Seq<GlyphInfo>, perm: Seq<int>, a: int, b: int) -> bool {
    &&& perm.len() == b - a
    &&& forall|k: int| 0 <= k < perm.len() ==> a <= #[trigger] perm[k] < b
    &&& forall|x: int, y: int| 0 <= x < y < perm.len() ==> perm[x] != perm[y]
    &&& forall|x: int, y: int|
        0 <= x < y < perm.len() && perm[x] > perm[y] ==> ccc(s[perm[y]]) > ccc(s[perm[x]])
}

/// The glyphs `a .. b` of `f` hold, by their keys, the glyphs `a .. b` of
/// `s` rearranged stably by combining class.
pub open spec fn stably_rearranged(f: Seq<GlyphInfo>, s: Seq<GlyphInfo>, a: int, b: int) -> bool {
    exists|perm: Seq<int>|
        #![trigger ccc_stable(s, perm, a, b)]
        ccc_stable(s, perm, a, b) && forall|t: int|
            0 <= t < perm.len() ==> glyph_key(#[trigger] f[a + t]) == glyph_key(s[perm[t]])
}

proof fn lemma_rearranged_keys(f: Seq<GlyphInfo>, f2: Seq<GlyphInfo>, s: Seq<GlyphInfo>, a: int, b: int)
    requires
        stably_rearranged(f, s, a, b),
        0 <= a <= b <= f.len(),
        f2.len() == f.len(),
        forall|k: int| a <= k < b ==> glyph_key(#[trigger] f2[k]) == glyph_key(f[k]),
    ensures
        stably_rearranged(f2, s, a, b),
{
    let perm = choose|perm: Seq<int>|
        #![trigger ccc_stable(s, perm, a, b)]
        ccc_stable(s, perm, a, b) && forall|t: int|
            0 <= t < perm.len() ==> glyph_key(#[trigger] f[a + t]) == glyph_key(s[perm[t]]);
    assert forall|t: int| 0 <= t < perm.len() implies glyph_key(#[trigger] f2[a + t]) == glyph_key(s[perm[t]]) by {
        assert(glyph_key(f2[a + t]) == glyph_key(f[a + t]));
    }
}

proof fn lemma_sorted_run_rearranged<F: Fn(&GlyphInfo, &GlyphInfo) -> bool>(
    later: F,
    before: Seq<GlyphInfo>,
    f: Seq<GlyphInfo>,
    s0: Seq<GlyphInfo>,
    a: int,
    b: int,
)
    requires
        0 <= a <= b <= before.len(),
        before.len() <= s0.len(),
        f.len() == before.len(),
        forall|x: GlyphInfo, y: GlyphInfo, r: bool| #[trigger] call_ensures(later, (&x, &y), r) ==> r == (ccc(x) > ccc(y)),
        forall|k: int| a <= k < b ==> glyph_key(#[trigger] before[k]) == glyph_key(s0[k]),
        exists|perm: Seq<int>|
            #![trigger stable_perm(later, before, perm, a, b)]
            stable_perm(later, before, perm, a, b) && forall|k: int|
                0 <= k < perm.len() ==> glyph_key(#[trigger] f[a + k]) == glyph_key(before[perm[k]]),
    ensures
        stably_rearranged(f, s0, a, b),
{
    let perm = choose|perm: Seq<int>|
        #![trigger stable_perm(later, before, perm, a, b)]
        stable_perm(later, before, perm, a, b) && forall|k: int|
            0 <= k < perm.len() ==> glyph_key(#[trigger] f[a + k]) == glyph_key(before[perm[k]]);
    assert forall|x: int, y: int| 0 <= x < y < perm.len() && perm[x] > perm[y] implies ccc(s0[perm[y]]) > ccc(
        s0[perm[x]],
    ) by {
        assert(keys_later(later, glyph_key(before[perm[y]]), glyph_key(before[perm[x]])));
        let (g, h) = choose|g: GlyphInfo, h: GlyphInfo|
            glyph_key(g) == glyph_key(before[perm[y]]) && glyph_key(h) == glyph_key(before[perm[x]])
                && #[trigger] call_ensures(later, (&g, &h), true);
        lemma_key_ccc(g, s0[perm[y]]);
        lemma_key_ccc(h, s0[perm[x]]);
    }
    assert forall|t: int| 0 <= t < perm.len() implies glyph_key(#[trigger] f[a + t]) == glyph_key(s0[perm[t]]) by {
        assert(glyph_key(before[perm[t]]) == glyph_key(s0[perm[t]]));
    }
    assert(ccc_stable(s0, perm, a, b));
}

/// Puts the marks of every run of nonzero combining classes, up to the
/// longest run that is ordered, in canonical order: by combining class,
/// marks of equal class keeping their order. Nothing else moves.
#[verifier::rlimit(40)]
pub fn reorder_marks(buffer: &mut Buffer)
    requires
        old(buffer).wf(),
        !old(buffer).have_positions,
    ensures
        final(buffer).wf(),
        final(buffer).len == old(buffer).len,
        final(buffer).pos == old(buffer).pos,
        final(buffer).info@.len() == old(buffer).info@.len(),
        final(buffer).same_settings(&*old(buffer)),
        glyph_keys(final(buffer).info@.subrange(0, old(buffer).len as int)).to_multiset() == glyph_keys(
            old(buffer).info@.subrange(0, old(buffer).len as int),
        ).to_multiset(),
        forall|k: int|
            0 <= k < old(buffer).info@.len() && (k >= old(buffer).len || ccc(old(buffer).info@[k]) == 0) ==> glyph_key(
                #[trigger] final(buffer).info@[k],
            ) == glyph_key(old(buffer).info@[k]),
        forall|k: int|
            0 < k < old(buffer).len && ccc(old(buffer).info@[k - 1]) != 0 && ccc(old(buffer).info@[k]) != 0
                && mark_run_end(old(buffer).info@, k, old(buffer).len as int) - mark_run_start(old(buffer).info@, k)
                <= MAX_COMBINING_MARKS ==> ccc(final(buffer).info@[k - 1]) <= ccc(#[trigger] final(buffer).info@[k]),
        forall|k: int|
            0 <= k < old(buffer).len && ccc(old(buffer).info@[k]) != 0 ==> glyph_keys(
                final(buffer).info@.subrange(
                    mark_run_start(old(buffer).info@, k),
                    mark_run_end(old(buffer).info@, k, old(buffer).len as int),
                ),
            ).to_multiset() == glyph_keys(
                #[trigger] old(buffer).info@.subrange(
                    mark_run_start(old(buffer).info@, k),
                    mark_run_end(old(buffer).info@, k, old(buffer).len as int),
                ),
            ).to_multiset(),
        forall|k: int|
            0 <= k < old(buffer).len && mark_run_end(old(buffer).info@, k, old(buffer).len as int) - mark_run_start(
                old(buffer).info@,
                k,
            ) > MAX_COMBINING_MARKS ==> glyph_key(#[trigger] final(buffer).info@[k]) == glyph_key(old(buffer).info@[k]),
        forall|k: int|
            0 <= k < old(buffer).len && ccc(old(buffer).info@[k]) != 0 && mark_run_end(
                old(buffer).info@,
                k,
                old(buffer).len as int,
            ) - mark_run_start(old(buffer).info@, k) <= MAX_COMBINING_MARKS ==> #[trigger] stably_rearranged(
                final(buffer).info@,
                old(buffer).info@,
                mark_run_start(old(buffer).info@, k),
                mark_run_end(old(buffer).info@, k, old(buffer).len as int),
            ),
{
    let ghost s0 = buffer.info@;
    let ghost len0 = buffer.len as int;
    let count: usize = buffer.len;
    let mut i: usize = 0;
    while i < count
        invariant
            i <= count,
            count == buffer.len == len0,
            buffer.wf(),
            !buffer.have_positions,
            buffer.len == old(buffer).len,
            buffer.pos == old(buffer).pos,
            buffer.info@.len() == s0.len(),
            s0 == old(buffer).info@,
            buffer.same_settings(&*old(buffer)),
            i == 0 || i >= count || ccc(s0[i - 1]) == 0,
            forall|k: int| i <= k < s0.len() ==> glyph_key(#[trigger] buffer.info@[k]) == glyph_key(s0[k]),
            forall|k: int|
                0 <= k < s0.len() && (k >= count || ccc(s0[k]) == 0) ==> glyph_key(#[trigger] buffer.info@[k])
                    == glyph_key(s0[k]),
            glyph_keys(buffer.info@.subrange(0, count as int)).to_multiset() == glyph_keys(
                s0.subrange(0, count as int),
            ).to_multiset(),
            forall|k: int|
                0 < k < i && k < count && ccc(s0[k - 1]) != 0 && ccc(s0[k]) != 0 && mark_run_end(s0, k, len0)
                    - mark_run_start(s0, k) <= MAX_COMBINING_MARKS ==> ccc(buffer.info@[k - 1]) <= ccc(
                    #[trigger] buffer.info@[k],
                ),
            forall|k: int|
                0 <= k < i && k < count && ccc(s0[k]) != 0 ==> glyph_keys(
                    buffer.info@.subrange(mark_run_start(s0, k), mark_run_end(s0, k, len0)),
                ).to_multiset() == glyph_keys(
                    #[trigger] s0.subrange(mark_run_start(s0, k), mark_run_end(s0, k, len0)),
                ).to_multiset(),
            forall|k: int|
                0 <= k < i && k < count && ccc(s0[k]) != 0 ==> #[trigger] mark_run_end(s0, k, len0) <= i,
            forall|k: int|
                0 <= k < i && k < count && ccc(s0[k]) != 0 && mark_run_end(s0, k, len0) - mark_run_start(s0, k)
                    > MAX_COMBINING_MARKS ==> glyph_key(#[trigger] buffer.info@[k]) == glyph_key(s0[k]),
            forall|k: int|
                0 <= k < i && k < count && ccc(s0[k]) != 0 && mark_run_end(s0, k, len0) - mark_run_start(s0, k)
                    <= MAX_COMBINING_MARKS ==> #[trigger] stably_rearranged(
                    buffer.info@,
                    s0,
                    mark_run_start(s0, k),
                    mark_run_end(s0, k, len0),
                ),
        decreases count - i,
    {
        if buffer.info[i].modified_combining_class() == 0 {
            proof {
                lemma_key_ccc(buffer.info@[i as int], s0[i as int]);
            }
            i = i + 1;
            continue;
        }
        let mut end: usize = i + 1;
        while end < count && buffer.info[end].modified_combining_class() != 0
            invariant
                i < end <= count <= buffer.info@.len(),
                buffer.info@.len() == s0.len(),
                forall|k: int| i <= k < s0.len() ==> glyph_key(#[trigger] buffer.info@[k]) == glyph_key(s0[k]),
                forall|m: int| i <= m < end ==> ccc(#[trigger] buffer.info@[m]) != 0,
            decreases count - end,
        {
            end = end + 1;
        }
        proof {
            assert forall|m: int| i <= m < end implies ccc(#[trigger] s0[m]) != 0 by {
                lemma_key_ccc(buffer.info@[m], s0[m]);
            }
            if end < count {
                lemma_key_ccc(buffer.info@[end as int], s0[end as int]);
            }
        }
        let ghost pre_run = buffer.info@;
        if end - i <= MAX_COMBINING_MARKS {
            let ghost before = *buffer;
            let later = |a: &GlyphInfo, b: &GlyphInfo| -> (r: bool)
                ensures
                    r == (ccc(*a) > ccc(*b)),
                { higher_combining_class(a, b) };
            proof {
                assert forall|a1: GlyphInfo, b1: GlyphInfo, a2: GlyphInfo, b2: GlyphInfo, r1: bool, r2: bool|
                    glyph_key(a1) == glyph_key(a2) && glyph_key(b1) == glyph_key(b2) && #[trigger] call_ensures(
                        later,
                        (&a1, &b1),
                        r1,
                    ) && #[trigger] call_ensures(later, (&a2, &b2), r2) implies r1 == r2 by {
                    lemma_key_ccc(a1, a2);
                    lemma_key_ccc(b1, b2);
                }
                assert forall|a1: GlyphInfo, b1: GlyphInfo, a2: GlyphInfo, b2: GlyphInfo, r1: bool, r2: bool|
                    glyph_key(a1) == glyph_key(b2) && glyph_key(b1) == glyph_key(a2) && #[trigger] call_ensures(
                        later,
                        (&a1, &b1),
                        r1,
                    ) && #[trigger] call_ensures(later, (&a2, &b2), r2) implies !(r1 && r2) by {
                    lemma_key_ccc(a1, b2);
                    lemma_key_ccc(b1, a2);
                }
            }
            buffer.sort(i, end, later);
            proof {
                let s1 = buffer.info@;
                let b = before.info@;
                lemma_sorted_run_rearranged(later, b, s1, s0, i as int, end as int);
                assert forall|k: int| i < k < end implies ccc(s1[k - 1]) <= ccc(#[trigger] s1[k]) by {
                    assert(in_order(later, s1[k - 1], s1[k]));
                    lemma_in_order_classes(later, s1[k - 1], s1[k]);
                }
                let lo = glyph_keys(b.subrange(0, i as int));
                let mid = glyph_keys(b.subrange(i as int, end as int));
                let hi = glyph_keys(b.subrange(end as int, count as int));
                let lo1 = glyph_keys(s1.subrange(0, i as int));
                let mid1 = glyph_keys(s1.subrange(i as int, end as int));
                let hi1 = glyph_keys(s1.subrange(end as int, count as int));
                assert(lo1 =~= lo);
                assert(hi1 =~= hi);
                assert(glyph_keys(b.subrange(0, count as int)) =~= lo + mid + hi);
                assert(glyph_keys(s1.subrange(0, count as int)) =~= lo1 + mid1 + hi1);
                vstd::seq_lib::lemma_multiset_commutative(lo + mid, hi);
                vstd::seq_lib::lemma_multiset_commutative(lo, mid);
                vstd::seq_lib::lemma_multiset_commutative(lo1 + mid1, hi1);
                vstd::seq_lib::lemma_multiset_commutative(lo1, mid1);
                assert forall|k: int|
                    0 < k < end + 1 && k < count && ccc(s0[k - 1]) != 0 && ccc(s0[k]) != 0 && mark_run_end(s0, k, len0)
                        - mark_run_start(s0, k) <= MAX_COMBINING_MARKS implies ccc(s1[k - 1]) <= ccc(#[trigger] s1[k]) by {
                    if k < i {
                        assert(glyph_key(s1[k]) == glyph_key(b[k]) && glyph_key(s1[k - 1]) == glyph_key(b[k - 1]));
                        lemma_key_ccc(s1[k], b[k]);
                        lemma_key_ccc(s1[k - 1], b[k - 1]);
                    } else if k == i {
                        assert(ccc(s0[k - 1]) == 0);
                    } else if k < end {
                    } else {
                        assert(ccc(s0[k]) == 0);
                    }
                }
            }
        }
        proof {
            assert forall|k: int| i <= k < end implies mark_run_start(s0, k) == i && mark_run_end(s0, k, len0) == end by {
                lemma_mark_run(s0, i as int, end as int, len0, k);
            }
            let s1 = buffer.info@;
            assert forall|k: int| 0 <= k < s0.len() && !(i <= k < end) implies glyph_key(#[trigger] s1[k]) == glyph_key(
                pre_run[k],
            ) by {}
            assert forall|k: int|
                0 <= k < end && k < count && ccc(s0[k]) != 0 implies glyph_keys(
                s1.subrange(mark_run_start(s0, k), mark_run_end(s0, k, len0)),
            ).to_multiset() == glyph_keys(
                #[trigger] s0.subrange(mark_run_start(s0, k), mark_run_end(s0, k, len0)),
            ).to_multiset() by {
                let a = mark_run_start(s0, k);
                let b = mark_run_end(s0, k, len0);
                lemma_run_bounds(s0, k, len0);
                if k < i {
                    assert(b <= i);
                    assert(glyph_keys(s1.subrange(a, b)) =~= glyph_keys(pre_run.subrange(a, b)));
                } else {
                    assert(glyph_keys(pre_run.subrange(a, b)) =~= glyph_keys(s0.subrange(a, b)));
                    if end - i > MAX_COMBINING_MARKS {
                        assert(s1 == pre_run);
                    }
                }
            }
            assert forall|k: int|
                0 <= k < end && k < count && ccc(s0[k]) != 0 && mark_run_end(s0, k, len0) - mark_run_start(s0, k)
                    > MAX_COMBINING_MARKS implies glyph_key(#[trigger] s1[k]) == glyph_key(s0[k]) by {
                if k >= i {
                    assert(s1 == pre_run);
                }
            }
            assert forall|k: int| 0 <= k < end && k < count && ccc(s0[k]) != 0 implies #[trigger] mark_run_end(
                s0,
                k,
                len0,
            ) <= end by {
                if k >= i {
                    lemma_mark_run(s0, i as int, end as int, len0, k);
                }
            }
            assert forall|k: int|
                0 <= k < end && k < count && ccc(s0[k]) != 0 && mark_run_end(s0, k, len0) - mark_run_start(s0, k)
                    <= MAX_COMBINING_MARKS implies #[trigger] stably_rearranged(
                s1,
                s0,
                mark_run_start(s0, k),
                mark_run_end(s0, k, len0),
            ) by {
                lemma_run_bounds(s0, k, len0);
                if k < i {
                    lemma_rearranged_keys(
                        pre_run,
                        s1,
                        s0,
                        mark_run_start(s0, k),
                        mark_run_end(s0, k, len0),
                    );
                } else {
                    lemma_mark_run(s0, i as int, end as int, len0, k);
                }
            }
        }
        i = if end < count {
            end + 1
        } else {
            count
        };
    }
}

/// Whether the combining grapheme joiner at `i` blocks no reordering: the
/// mark after it has class zero or a class no lower than the one before it.
pub open spec fn cgj_idle(s: Seq<GlyphInfo>, i: int, len: int) -> bool {
    1 <= i && i + 1 < len && s[i].id == 0x034F && (ccc(s[i + 1]) == 0 || ccc(s[i - 1]) <= ccc(s[i + 1]))
}

/// Shows again each combining grapheme joiner that blocked no reordering,
/// so that it does not stand hidden in the way of GSUB matching.
pub fn unhide_idle_cgj(buffer: &mut Buffer)
    requires
        old(buffer).wf(),
    ensures
        final(buffer).info@.len() == old(buffer).info@.len(),
        forall|i: int|
            0 <= i < old(buffer).info@.len() ==> #[trigger] final(buffer).info@[i] == if old(buffer).scratch_flags
                & HAS_CGJ != 0 && cgj_idle(old(buffer).info@, i, old(buffer).len as int) {
                GlyphInfo { unicode_props: old(buffer).info@[i].unicode_props & !PROPS_HIDDEN, ..old(buffer).info@[i] }
            } else {
                old(buffer).info@[i]
            },
        *final(buffer) == (Buffer { info: final(buffer).info, ..*old(buffer) }),
{
    if buffer.scratch_flags & HAS_CGJ == 0 {
        return;
    }
    let len: usize = buffer.len;
    if len < 2 {
        return;
    }
    let mut info: Vec<GlyphInfo> = Vec::new();
    core::mem::swap(&mut info, &mut buffer.info);
    let ghost s0 = info@;
    let mut i: usize = 1;
    while i < len - 1
        invariant
            1 <= i <= len - 1,
            2 <= len <= s0.len(),
            info@.len() == s0.len(),
            forall|k: int|
                0 <= k < s0.len() ==> #[trigger] info@[k] == if k < i && cgj_idle(s0, k, len as int) {
                    GlyphInfo { unicode_props: s0[k].unicode_props & !PROPS_HIDDEN, ..s0[k] }
                } else {
                    s0[k]
                },
        decreases len - 1 - i,
    {
        if info[i].id == 0x034F {
            let last: u8 = info[i - 1].modified_combining_class();
            let next: u8 = info[i + 1].modified_combining_class();
            proof {
                let p = s0[i - 1].unicode_props;
                assert((p & !0x0040u16) & 0x1Fu16 == p & 0x1Fu16 && ((p & !0x0040u16) >> 8u16) as u8 == (p >> 8u16) as u8)
                    by (bit_vector);
            }
            if next == 0 || last <= next {
                let mut g: GlyphInfo = info[i];
                g.unhide();
                info.set(i, g);
            }
        }
        i = i + 1;
    }
    core::mem::swap(&mut info, &mut buffer.info);
}

} // verus!
