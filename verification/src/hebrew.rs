//! The Hebrew shaper: the reordering of a vowel pair before meteg or a
//! below mark, and the presentation forms it composes.

use vstd::prelude::*;
use crate::buffer::{Buffer, GlyphInfo, UNSAFE_TO_BREAK, UNSAFE_TO_CONCAT};
use crate::unicode::spec_remap_combining_class;

verus! {

/// The combining classes the reordering looks at.
pub const PATAH: u8 = 20;

pub const QAMATS: u8 = 21;

pub const SHEVA: u8 = 22;

pub const HIRIQ: u8 = 23;

pub const METEG: u8 = 25;

pub const BELOW: u8 = 220;

/// The combining class a glyph carries, 0 for one that is no mark.
pub open spec fn class_of(g: GlyphInfo) -> u8 {
    if g.spec_is_unicode_mark() {
        (g.unicode_props >> 8u16) as u8
    } else {
        0
    }
}

/// Patah or qamats, then sheva or hiriq, then meteg or a below mark.
pub open spec fn vowel_before_meteg(c0: u8, c1: u8, c2: u8) -> bool {
    (c0 == PATAH || c0 == QAMATS) && (c1 == SHEVA || c1 == HIRIQ) && (c2 == METEG || c2 == BELOW)
}

/// The first `i` from `i` up to `end` where the glyphs `i - 2 .. i + 1`
/// carry such a triple of classes.
pub open spec fn first_vowel_pair(info: Seq<GlyphInfo>, i: int, end: int) -> Option<int>
    decreases end - i,
{
    if i >= end {
        None
    } else if vowel_before_meteg(class_of(info[i - 2]), class_of(info[i - 1]), class_of(info[i])) {
        Some(i)
    } else {
        first_vowel_pair(info, i + 1, end)
    }
}

/// `m` is `old` after glyphs `k` and `k + 1` are merged into one cluster.
pub open spec fn merged_pair(m: Buffer, old: Buffer, k: int) -> bool {
    &&& m.wf()
    &&& m.len == old.len
    &&& m.idx == old.idx
    &&& m.out_len == old.out_len
    &&& m.have_output == old.have_output
    &&& m.successful == old.successful
    &&& m.same_settings(&old)
    &&& !old.cluster_level.spec_is_monotone() ==> m.only_flags_added(&old, UNSAFE_TO_BREAK | UNSAFE_TO_CONCAT)
    &&& old.cluster_level.spec_is_monotone() ==> m.only_relabelled(&old, old.merged_cluster(k, k + 2), 0)
        && m.info@[k].cluster == old.merged_cluster(k, k + 2) && m.info@[k + 1].cluster == old.merged_cluster(
        k,
        k + 2,
    )
}

/// `b` is `m` with glyphs `k` and `k + 1` swapped.
pub open spec fn swapped_pair(b: Buffer, m: Buffer, k: int) -> bool {
    &&& b.wf()
    &&& b.info@ == m.info@.update(k, m.info@[k + 1]).update(k + 1, m.info@[k])
    &&& b.pos == m.pos
    &&& b.out_info == m.out_info
    &&& b.len == m.len
    &&& b.idx == m.idx
    &&& b.out_len == m.out_len
    &&& b.have_output == m.have_output
    &&& b.successful == m.successful
    &&& b.scratch_flags == m.scratch_flags
    &&& b.same_settings(&m)
}

/// Within the marks `start .. end`, the first patah or qamats followed by
/// sheva or hiriq and then meteg or a below mark has its last two marks
/// merged into one cluster and swapped, so that the meteg comes first.
pub fn reorder_marks(buffer: &mut Buffer, start: usize, end: usize)
    requires
        old(buffer).wf(),
        start <= end <= old(buffer).len,
    ensures
        first_vowel_pair(old(buffer).info@, start + 2, end as int) is None ==> *final(buffer) == *old(buffer),
        forall|i: int|
            first_vowel_pair(old(buffer).info@, start + 2, end as int) == Some(i) ==> exists|m: Buffer|
                merged_pair(m, *old(buffer), i - 1) && #[trigger] swapped_pair(*final(buffer), m, i - 1),
{
    let found: Option<usize> = find_vowel_pair(buffer.info.as_slice(), start, end);
    match found {
        None => {},
        Some(i) => {
            buffer.merge_clusters(i - 1, i + 1);
            let ghost m = *buffer;
            let a: GlyphInfo = buffer.info[i - 1];
            let b: GlyphInfo = buffer.info[i];
            buffer.info.set(i - 1, b);
            buffer.info.set(i, a);
            assert(merged_pair(m, *old(buffer), i - 1));
            assert(swapped_pair(*buffer, m, i - 1));
        },
    }
}

fn find_vowel_pair(info: &[GlyphInfo], start: usize, end: usize) -> (r: Option<usize>)
    requires
        start <= end <= info@.len(),
    ensures
        r matches Some(i) ==> start + 2 <= i < end && first_vowel_pair(info@, start + 2, end as int) == Some(i as int),
        r is None ==> first_vowel_pair(info@, start + 2, end as int) is None,
{
    if end - start < 2 {
        return None;
    }
    let mut i: usize = start + 2;
    while i < end
        invariant
            start + 2 <= i,
            end <= info@.len(),
            first_vowel_pair(info@, start + 2, end as int) == first_vowel_pair(info@, i as int, end as int),
        decreases end - i,
    {
        let c0: u8 = info[i - 2].modified_combining_class();
        let c1: u8 = info[i - 1].modified_combining_class();
        let c2: u8 = info[i].modified_combining_class();
        if (c0 == PATAH || c0 == QAMATS) && (c1 == SHEVA || c1 == HIRIQ) && (c2 == METEG || c2 == BELOW) {
            return Some(i);
        }
        i = i + 1;
    }
    None
}

/// The presentation forms of the Hebrew letters alef to tav with dagesh,
/// by letter; a null character where a letter has none.
pub open spec fn dagesh_forms() -> Seq<char> {
    seq!['\u{FB30}', '\u{FB31}', '\u{FB32}', '\u{FB33}', '\u{FB34}', '\u{FB35}', '\u{FB36}', '\0', '\u{FB38}', '\u{FB39}', '\u{FB3A}', '\u{FB3B}', '\u{FB3C}', '\0', '\u{FB3E}', '\0', '\u{FB40}', '\u{FB41}', '\0', '\u{FB43}', '\u{FB44}', '\0', '\u{FB46}', '\u{FB47}', '\u{FB48}', '\u{FB49}', '\u{FB4A}']
}

/// What the Hebrew shaper composes from `a` followed by `b`: what the
/// Unicode composition data gives (`composed`); failing that, and unless
/// the font positions marks itself, the presentation form of the pair.
pub open spec fn spec_compose(has_gpos_mark: bool, a: char, b: char, composed: Option<char>) -> Option<char> {
    let base = a as u32;
    let mark = b as u32;
    if composed is Some {
        composed
    } else if has_gpos_mark {
        None
    } else if mark == 0x05B4 {
        if base == 0x05D9 {
            Some('\u{FB1D}')
        } else {
            None
        }
    } else if mark == 0x05B7 {
        if base == 0x05D9 {
            Some('\u{FB1F}')
        } else if base == 0x05D0 {
            Some('\u{FB2E}')
        } else {
            None
        }
    } else if mark == 0x05B8 {
        if base == 0x05D0 {
            Some('\u{FB2F}')
        } else {
            None
        }
    } else if mark == 0x05B9 {
        if base == 0x05D5 {
            Some('\u{FB4B}')
        } else {
            None
        }
    } else if mark == 0x05BC {
        if 0x05D0 <= base <= 0x05EA {
            let c = dagesh_forms()[base - 0x05D0];
            if c == '\0' {
                None
            } else {
                Some(c)
            }
        } else if base == 0xFB2A {
            Some('\u{FB2C}')
        } else if base == 0xFB2B {
            Some('\u{FB2D}')
        } else {
            None
        }
    } else if mark == 0x05BF {
        if base == 0x05D1 {
            Some('\u{FB4C}')
        } else if base == 0x05DB {
            Some('\u{FB4D}')
        } else if base == 0x05E4 {
            Some('\u{FB4E}')
        } else {
            None
        }
    } else if mark == 0x05C1 {
        if base == 0x05E9 {
            Some('\u{FB2A}')
        } else if base == 0xFB49 {
            Some('\u{FB2C}')
        } else {
            None
        }
    } else if mark == 0x05C2 {
        if base == 0x05E9 {
            Some('\u{FB2B}')
        } else if base == 0xFB49 {
            Some('\u{FB2D}')
        } else {
            None
        }
    } else {
        None
    }
}

/// Composes `a` and `b` as the Hebrew shaper does (see `spec_compose`);
/// `composed` is what the Unicode composition data gives for the pair and
/// `has_gpos_mark` whether the font positions marks with GPOS.
pub fn compose(has_gpos_mark: bool, a: char, b: char, composed: Option<char>) -> (r: Option<char>)
    ensures
        r == spec_compose(has_gpos_mark, a, b, composed),
{
    if composed.is_some() {
        return composed;
    }
    if has_gpos_mark {
        return None;
    }
    let base: u32 = a as u32;
    let mark: u32 = b as u32;
    if mark == 0x05B4 {
        if base == 0x05D9 {
            Some('\u{FB1D}')
        } else {
            None
        }
    } else if mark == 0x05B7 {
        if base == 0x05D9 {
            Some('\u{FB1F}')
        } else if base == 0x05D0 {
            Some('\u{FB2E}')
        } else {
            None
        }
    } else if mark == 0x05B8 {
        if base == 0x05D0 {
            Some('\u{FB2F}')
        } else {
            None
        }
    } else if mark == 0x05B9 {
        if base == 0x05D5 {
            Some('\u{FB4B}')
        } else {
            None
        }
    } else if mark == 0x05BC {
        if 0x05D0 <= base && base <= 0x05EA {
            let forms: [char; 27] = ['\u{FB30}', '\u{FB31}', '\u{FB32}', '\u{FB33}', '\u{FB34}', '\u{FB35}', '\u{FB36}', '\0', '\u{FB38}', '\u{FB39}', '\u{FB3A}', '\u{FB3B}', '\u{FB3C}', '\0', '\u{FB3E}', '\0', '\u{FB40}', '\u{FB41}', '\0', '\u{FB43}', '\u{FB44}', '\0', '\u{FB46}', '\u{FB47}', '\u{FB48}', '\u{FB49}', '\u{FB4A}'];
            assert(forms@ =~= dagesh_forms());
            let c: char = forms[(base - 0x05D0) as usize];
            if c == '\0' {
                None
            } else {
                Some(c)
            }
        } else if base == 0xFB2A {
            Some('\u{FB2C}')
        } else if base == 0xFB2B {
            Some('\u{FB2D}')
        } else {
            None
        }
    } else if mark == 0x05BF {
        if base == 0x05D1 {
            Some('\u{FB4C}')
        } else if base == 0x05DB {
            Some('\u{FB4D}')
        } else if base == 0x05E4 {
            Some('\u{FB4E}')
        } else {
            None
        }
    } else if mark == 0x05C1 {
        if base == 0x05E9 {
            Some('\u{FB2A}')
        } else if base == 0xFB49 {
            Some('\u{FB2C}')
        } else {
            None
        }
    } else if mark == 0x05C2 {
        if base == 0x05E9 {
            Some('\u{FB2B}')
        } else if base == 0xFB49 {
            Some('\u{FB2D}')
        } else {
            None
        }
    } else {
        None
    }
}


/// The canonical decomposition, from the Unicode character data, of the
/// Hebrew presentation forms: each is a letter (or a presentation form)
/// followed by one point.
pub open spec fn canonical_pair(c: u32) -> Option<(u32, u32)> {
    if c == 0xFB1D {
        Some((0x05D9u32, 0x05B4u32))  // yod with hiriq
    } else if c == 0xFB1F {
        Some((0x05F2u32, 0x05B7u32))  // yiddish yod yod patah
    } else if c == 0xFB2A {
        Some((0x05E9u32, 0x05C1u32))  // shin with shin dot
    } else if c == 0xFB2B {
        Some((0x05E9u32, 0x05C2u32))  // shin with sin dot
    } else if c == 0xFB2C {
        Some((0xFB49u32, 0x05C1u32))  // shin with dagesh and shin dot
    } else if c == 0xFB2D {
        Some((0xFB49u32, 0x05C2u32))  // shin with dagesh and sin dot
    } else if c == 0xFB2E {
        Some((0x05D0u32, 0x05B7u32))  // alef with patah
    } else if c == 0xFB2F {
        Some((0x05D0u32, 0x05B8u32))  // alef with qamats
    } else if 0xFB30 <= c <= 0xFB4A && c != 0xFB37 && c != 0xFB3D && c != 0xFB3F && c != 0xFB42 && c != 0xFB45 {
        Some(((c - 0xFB30 + 0x05D0) as u32, 0x05BCu32))  // letter with dagesh
    } else if c == 0xFB4B {
        Some((0x05D5u32, 0x05B9u32))  // vav with holam
    } else if c == 0xFB4C {
        Some((0x05D1u32, 0x05BFu32))  // bet with rafe
    } else if c == 0xFB4D {
        Some((0x05DBu32, 0x05BFu32))  // kaf with rafe
    } else if c == 0xFB4E {
        Some((0x05E4u32, 0x05BFu32))  // pe with rafe
    } else {
        None
    }
}

/// `c` is `a` followed by the point `b`: `c` decomposes to exactly that
/// pair, or `a` is shin with a dot and `b` a dagesh, the two points of `c`
/// standing in the other order.
pub open spec fn composes_to(a: u32, b: u32, c: u32) -> bool {
    ||| canonical_pair(c) == Some((a, b))
    ||| (b == 0x05BC && exists|dot: u32|
        canonical_pair(a) == Some((0x05E9u32, dot)) && #[trigger] canonical_pair(c) == Some((0xFB49u32, dot)))
}

proof fn lemma_dagesh_forms(k: int)
    requires
        0 <= k < 27,
    ensures
        dagesh_forms()[k] == '\0' || dagesh_forms()[k] as u32 == 0xFB30 + k,
        dagesh_forms()[k] == '\0' <==> (k == 7 || k == 13 || k == 15 || k == 18 || k == 21),
{
    assert(dagesh_forms().len() == 27);
        if k == 0 {
            assert(dagesh_forms()[k] == '\u{FB30}');
        } else if k == 1 {
            assert(dagesh_forms()[k] == '\u{FB31}');
        } else if k == 2 {
            assert(dagesh_forms()[k] == '\u{FB32}');
        } else if k == 3 {
            assert(dagesh_forms()[k] == '\u{FB33}');
        } else if k == 4 {
            assert(dagesh_forms()[k] == '\u{FB34}');
        } else if k == 5 {
            assert(dagesh_forms()[k] == '\u{FB35}');
        } else if k == 6 {
            assert(dagesh_forms()[k] == '\u{FB36}');
        } else if k == 7 {
            assert(dagesh_forms()[k] == '\0');
        } else if k == 8 {
            assert(dagesh_forms()[k] == '\u{FB38}');
        } else if k == 9 {
            assert(dagesh_forms()[k] == '\u{FB39}');
        } else if k == 10 {
            assert(dagesh_forms()[k] == '\u{FB3A}');
        } else if k == 11 {
            assert(dagesh_forms()[k] == '\u{FB3B}');
        } else if k == 12 {
            assert(dagesh_forms()[k] == '\u{FB3C}');
        } else if k == 13 {
            assert(dagesh_forms()[k] == '\0');
        } else if k == 14 {
            assert(dagesh_forms()[k] == '\u{FB3E}');
        } else if k == 15 {
            assert(dagesh_forms()[k] == '\0');
        } else if k == 16 {
            assert(dagesh_forms()[k] == '\u{FB40}');
        } else if k == 17 {
            assert(dagesh_forms()[k] == '\u{FB41}');
        } else if k == 18 {
            assert(dagesh_forms()[k] == '\0');
        } else if k == 19 {
            assert(dagesh_forms()[k] == '\u{FB43}');
        } else if k == 20 {
            assert(dagesh_forms()[k] == '\u{FB44}');
        } else if k == 21 {
            assert(dagesh_forms()[k] == '\0');
        } else if k == 22 {
            assert(dagesh_forms()[k] == '\u{FB46}');
        } else if k == 23 {
            assert(dagesh_forms()[k] == '\u{FB47}');
        } else if k == 24 {
            assert(dagesh_forms()[k] == '\u{FB48}');
        } else if k == 25 {
            assert(dagesh_forms()[k] == '\u{FB49}');
        } else if k == 26 {
            assert(dagesh_forms()[k] == '\u{FB4A}');
    }
}

/// Without Unicode composition data, whatever the Hebrew shaper composes
/// from a character and a point is the presentation form made of exactly
/// the two (the yod-patah ligature aside, which it forms from a single yod).
pub proof fn lemma_compose_forms(has_gpos_mark: bool, a: char, b: char)
    requires
        !(a as u32 == 0x05D9 && b as u32 == 0x05B7),
    ensures
        spec_compose(has_gpos_mark, a, b, None) matches Some(c) ==> composes_to(a as u32, b as u32, c as u32),
{
    let base = a as u32;
    if b as u32 == 0x05BC && 0x05D0 <= base <= 0x05EA {
        lemma_dagesh_forms(base - 0x05D0);
    }
    if b as u32 == 0x05BC && (base == 0xFB2A || base == 0xFB2B) {
        let dot: u32 = if base == 0xFB2A {
            0x05C1
        } else {
            0x05C2
        };
        assert(canonical_pair(base) == Some((0x05E9u32, dot)));
    }
}

/// Composition data, where it has the pair, decides alone.
pub proof fn lemma_compose_prefers_data(has_gpos_mark: bool, a: char, b: char, c: char)
    ensures
        spec_compose(has_gpos_mark, a, b, Some(c)) == Some(c),
{
}


/// Without Unicode composition data and where the font does not position
/// marks itself, the Hebrew shaper composes every letter and point into
/// the presentation form that decomposes to exactly them (the yod-patah
/// ligature aside, which decomposes to a double yod).
pub proof fn lemma_compose_complete(a: char, b: char, c: char)
    requires
        canonical_pair(c as u32) == Some((a as u32, b as u32)),
        c as u32 != 0xFB1F,
    ensures
        spec_compose(false, a, b, None) == Some(c),
{
    let cu = c as u32;
    if 0xFB30 <= cu <= 0xFB4A {
        lemma_dagesh_forms(cu - 0xFB30);
        assert(dagesh_forms()[cu - 0xFB30] as u32 == cu);
    }
}

/// A font that positions marks itself gets no presentation form.
pub proof fn lemma_compose_with_gpos_marks(a: char, b: char)
    ensures
        spec_compose(true, a, b, None) is None,
{
}


/// The reordering is for the Hebrew points as Unicode classes them: patah
/// (17) or qamats (18), then sheva (10) or hiriq (14), then meteg (22) or a
/// below mark (220), taken through the renumbering shaping sorts by; the
/// same points in another order are left alone.
pub proof fn lemma_hebrew_points(first: u8, second: u8, third: u8)
    ensures
        (first == 17 || first == 18) && (second == 10 || second == 14) && (third == 22 || third == 220)
            ==> vowel_before_meteg(
            spec_remap_combining_class(first),
            spec_remap_combining_class(second),
            spec_remap_combining_class(third),
        ),
        (first == 10 || first == 14) && (second == 17 || second == 18) ==> !vowel_before_meteg(
            spec_remap_combining_class(first),
            spec_remap_combining_class(second),
            spec_remap_combining_class(third),
        ),
        (third == 17 || third == 18 || third == 10 || third == 14) ==> !vowel_before_meteg(
            spec_remap_combining_class(first),
            spec_remap_combining_class(second),
            spec_remap_combining_class(third),
        ),
{
}

} // verus!
