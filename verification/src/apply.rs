//! Matching the input of a contextual lookup: the walk over the buffer
//! that skips the glyphs a lookup ignores, and the check of each glyph it
//! stops at against the rule's input.

use vstd::prelude::*;
use crate::buffer::{
    Buffer, GlyphInfo, MARK, PROPS_CF_ZWJ, PROPS_CF_ZWNJ, PROPS_HIDDEN, PROPS_IGNORABLE, SUBSTITUTED,
};
use crate::ot::{spec_class_of_checked, spec_is_mark_glyph, ClassDef, Gdef, USE_MARK_FILTERING_SET};

verus! {

/// The longest context a rule can match, its first glyph included.
pub const MAX_CONTEXT_LENGTH: usize = 64;

/// The lookup flags that skip base glyphs, ligatures and marks.
pub const IGNORE_FLAGS: u16 = 0x000E;

/// The lookup flag bits that name a mark attachment class.
pub const MARK_ATTACHMENT_TYPE_MASK: u16 = 0xFF00;

/// What glyph matching reads of the lookup being applied: whether it is a
/// positioning lookup, its flags (with the mark filtering set in the high
/// half), the mask of glyphs it applies to, how it treats joiners, and
/// whether it stays within a syllable.
#[derive(Clone, Copy, Debug)]
pub struct ApplyState {
    pub gpos: bool,
    pub lookup_props: u32,
    pub lookup_mask: u32,
    pub auto_zwnj: bool,
    pub auto_zwj: bool,
    pub per_syllable: bool,
}

/// How one walk over the buffer skips and matches glyphs.
#[derive(Clone, Copy, Debug)]
pub struct Matcher {
    pub lookup_props: u32,
    pub ignore_zwnj: bool,
    pub ignore_zwj: bool,
    pub ignore_hidden: bool,
    pub mask: u32,
    pub syllable: u8,
}

/// Whether a glyph is skipped: surely, perhaps (a default ignorable), or not.
#[derive(Clone, Copy, PartialEq, Eq, Structural, Debug)]
pub enum MaySkip {
    No,
    Yes,
    Maybe,
}

/// What a walk makes of a glyph: it matches, it stops the walk, or it is
/// passed over.
#[derive(Clone, Copy, PartialEq, Eq, Structural, Debug)]
pub enum Match {
    Yes,
    No,
    Skip,
}

/// How the values of a rule's input are compared with glyphs: with the
/// glyph itself, or with its class in a class table.
#[derive(Clone, Copy)]
pub enum MatchKind<'a> {
    Glyph,
    Class(ClassDef<'a>),
}

/// The matcher of a walk that starts from the glyph `cur`: the input of a
/// rule (`context_match` false) honours the lookup mask and the joiner
/// settings; backtrack and lookahead take any mask and skip joiners.
pub open spec fn spec_matcher(st: ApplyState, cur: GlyphInfo, context_match: bool) -> Matcher {
    Matcher {
        lookup_props: st.lookup_props,
        ignore_zwnj: if context_match {
            st.gpos || st.auto_zwnj
        } else {
            st.gpos
        },
        ignore_zwj: if context_match {
            true
        } else {
            st.auto_zwj
        },
        ignore_hidden: st.gpos,
        mask: if context_match {
            u32::MAX
        } else {
            st.lookup_mask
        },
        syllable: if st.per_syllable {
            cur.syllable
        } else {
            0
        },
    }
}

impl ApplyState {
    /// The matcher for a walk from the current glyph of `buffer`.
    pub fn matcher(&self, buffer: &Buffer, context_match: bool) -> (m: Matcher)
        requires
            buffer.wf(),
            buffer.idx < buffer.len,
        ensures
            m == spec_matcher(*self, buffer.info@[buffer.idx as int], context_match),
    {
        let cur: GlyphInfo = buffer.info[buffer.idx];
        Matcher {
            lookup_props: self.lookup_props,
            ignore_zwnj: if context_match {
                self.gpos || self.auto_zwnj
            } else {
                self.gpos
            },
            ignore_zwj: if context_match {
                true
            } else {
                self.auto_zwj
            },
            ignore_hidden: self.gpos,
            mask: if context_match {
                u32::MAX
            } else {
                self.lookup_mask
            },
            syllable: if self.per_syllable {
                cur.syllable
            } else {
                0
            },
        }
    }
}

/// Whether a lookup with flags `match_props` sees glyph `info`: not when
/// the flags ignore its kind; a mark only when it is in the lookup's mark
/// filtering set, or, with a mark attachment type, of that type.
pub open spec fn spec_check_property(gdef: Option<Gdef>, info: GlyphInfo, match_props: u32) -> bool {
    let props = info.glyph_props;
    let flags = match_props as u16;
    if props & flags & IGNORE_FLAGS != 0 {
        false
    } else if props & MARK != 0 {
        if flags & USE_MARK_FILTERING_SET != 0 {
            match gdef {
                Some(g) => spec_is_mark_glyph(g.bytes(), g.mark_sets_at(), info.id as u16, (match_props >> 16u32) as u16),
                None => false,
            }
        } else if flags & MARK_ATTACHMENT_TYPE_MASK != 0 {
            (flags & MARK_ATTACHMENT_TYPE_MASK) == (props & MARK_ATTACHMENT_TYPE_MASK)
        } else {
            true
        }
    } else {
        true
    }
}

/// Whether a GDEF table can answer mark set questions.
pub open spec fn gdef_ok(gdef: Option<Gdef>) -> bool {
    gdef matches Some(g) ==> g.mark_sets_at() <= 0xFFFF
}

pub fn check_glyph_property(gdef: Option<&Gdef>, info: &GlyphInfo, match_props: u32) -> (r: bool)
    requires
        gdef_ok(match gdef {
            Some(g) => Some(*g),
            None => None,
        }),
    ensures
        r == spec_check_property(
            match gdef {
                Some(g) => Some(*g),
                None => None,
            },
            *info,
            match_props,
        ),
{
    let props: u16 = info.glyph_props;
    let flags: u16 = match_props as u16;
    if props & flags & IGNORE_FLAGS != 0 {
        return false;
    }
    if props & MARK != 0 {
        if flags & USE_MARK_FILTERING_SET != 0 {
            return match gdef {
                Some(g) => g.is_mark_glyph(info.id as u16, (match_props >> 16u32) as u16),
                None => false,
            };
        }
        if flags & MARK_ATTACHMENT_TYPE_MASK != 0 {
            return (flags & MARK_ATTACHMENT_TYPE_MASK) == (props & MARK_ATTACHMENT_TYPE_MASK);
        }
    }
    true
}

/// Whether a walk with matcher `m` skips glyph `info`.
pub open spec fn spec_may_skip(m: Matcher, gdef: Option<Gdef>, info: GlyphInfo) -> MaySkip {
    if !spec_check_property(gdef, info, m.lookup_props) {
        MaySkip::Yes
    } else if info.unicode_props & PROPS_IGNORABLE != 0 && info.glyph_props & SUBSTITUTED == 0 && (m.ignore_zwnj
        || !(info.spec_general_category() == 2 && info.unicode_props & PROPS_CF_ZWNJ != 0)) && (m.ignore_zwj
        || !(info.spec_general_category() == 2 && info.unicode_props & PROPS_CF_ZWJ != 0)) && (m.ignore_hidden
        || info.unicode_props & PROPS_HIDDEN == 0) {
        MaySkip::Maybe
    } else {
        MaySkip::No
    }
}

pub fn may_skip(m: &Matcher, gdef: Option<&Gdef>, info: &GlyphInfo) -> (r: MaySkip)
    requires
        gdef_ok(match gdef {
            Some(g) => Some(*g),
            None => None,
        }),
    ensures
        r == spec_may_skip(
            *m,
            match gdef {
                Some(g) => Some(*g),
                None => None,
            },
            *info,
        ),
{
    if !check_glyph_property(gdef, info, m.lookup_props) {
        return MaySkip::Yes;
    }
    if info.is_default_ignorable() && (m.ignore_zwnj || !info.is_zwnj()) && (m.ignore_zwj || !info.is_zwj()) && (
    m.ignore_hidden || !info.is_hidden()) {
        return MaySkip::Maybe;
    }
    MaySkip::No
}

/// Whether glyph `glyph` matches input value `value`.
pub open spec fn spec_value_matches(kind: MatchKind, glyph: u16, value: u16) -> bool {
    match kind {
        MatchKind::Glyph => glyph == value,
        MatchKind::Class(cd) => (match spec_class_of_checked(cd.bytes(), glyph) {
            Some(c) => c,
            None => 0,
        }) == value,
    }
}

/// What a walk makes of glyph `info` when it looks for input value number
/// `data`: a glyph it skips surely is passed over; one in the lookup's
/// mask (and syllable) that matches the value matches; otherwise it stops
/// the walk unless it is a default ignorable that may be passed over.
pub open spec fn spec_match_at(
    m: Matcher,
    gdef: Option<Gdef>,
    kind: MatchKind,
    input: Seq<u16>,
    info: GlyphInfo,
    data: int,
) -> Match {
    let skip = spec_may_skip(m, gdef, info);
    let matched = (info.mask & m.mask) != 0 && (m.syllable == 0 || m.syllable == info.syllable) && 0 <= data
        < input.len() && spec_value_matches(kind, info.id as u16, input[data]);
    if skip == MaySkip::Yes {
        Match::Skip
    } else if matched {
        Match::Yes
    } else if skip == MaySkip::No {
        Match::No
    } else {
        Match::Skip
    }
}

fn value_matches(kind: &MatchKind, glyph: u16, value: u16) -> (r: bool)
    ensures
        r == spec_value_matches(*kind, glyph, value),
{
    match kind {
        MatchKind::Glyph => glyph == value,
        MatchKind::Class(cd) => cd.class_of(glyph) == value,
    }
}

pub fn match_at(
    m: &Matcher,
    gdef: Option<&Gdef>,
    kind: &MatchKind,
    input: &[u16],
    info: &GlyphInfo,
    data: usize,
) -> (r: Match)
    requires
        gdef_ok(match gdef {
            Some(g) => Some(*g),
            None => None,
        }),
    ensures
        r == spec_match_at(
            *m,
            match gdef {
                Some(g) => Some(*g),
                None => None,
            },
            *kind,
            input@,
            *info,
            data as int,
        ),
{
    let skip: MaySkip = may_skip(m, gdef, info);
    if skip == MaySkip::Yes {
        return Match::Skip;
    }
    let matched: bool = (info.mask & m.mask) != 0 && (m.syllable == 0 || m.syllable == info.syllable) && data
        < input.len() && value_matches(kind, info.id as u16, input[data]);
    if matched {
        Match::Yes
    } else if skip == MaySkip::No {
        Match::No
    } else {
        Match::Skip
    }
}

/// The walk forward from position `p` (not itself looked at) over the
/// first `len` glyphs of `infos`: whether it finds a match, and the
/// position where it stops.
pub open spec fn spec_scan(
    m: Matcher,
    gdef: Option<Gdef>,
    kind: MatchKind,
    input: Seq<u16>,
    infos: Seq<GlyphInfo>,
    len: int,
    p: int,
    data: int,
) -> (bool, int)
    decreases len - p,
{
    if p + 1 >= len {
        (false, p)
    } else {
        match spec_match_at(m, gdef, kind, input, infos[p + 1], data) {
            Match::Yes => (true, p + 1),
            Match::No => (false, p + 1),
            Match::Skip => spec_scan(m, gdef, kind, input, infos, len, p + 1, data),
        }
    }
}

proof fn lemma_scan_bounds(
    m: Matcher,
    gdef: Option<Gdef>,
    kind: MatchKind,
    input: Seq<u16>,
    infos: Seq<GlyphInfo>,
    len: int,
    p: int,
    data: int,
)
    ensures
        spec_scan(m, gdef, kind, input, infos, len, p, data).1 >= p,
        spec_scan(m, gdef, kind, input, infos, len, p, data).1 < len || spec_scan(
            m,
            gdef,
            kind,
            input,
            infos,
            len,
            p,
            data,
        ).1 == p,
        spec_scan(m, gdef, kind, input, infos, len, p, data).0 ==> p < spec_scan(
            m,
            gdef,
            kind,
            input,
            infos,
            len,
            p,
            data,
        ).1 < len,
    decreases len - p,
{
    if p + 1 < len {
        lemma_scan_bounds(m, gdef, kind, input, infos, len, p + 1, data);
    }
}

/// Walks forward from position `p` of the input looking for value number
/// `data`; gives whether it found one and where it stopped.
fn scan(
    m: &Matcher,
    gdef: Option<&Gdef>,
    kind: &MatchKind,
    input: &[u16],
    buffer: &Buffer,
    p: usize,
    data: usize,
) -> (r: (bool, usize))
    requires
        buffer.wf(),
        p < buffer.len,
        gdef_ok(match gdef {
            Some(g) => Some(*g),
            None => None,
        }),
    ensures
        r.0 == spec_scan(
            *m,
            match gdef {
                Some(g) => Some(*g),
                None => None,
            },
            *kind,
            input@,
            buffer.info@,
            buffer.len as int,
            p as int,
            data as int,
        ).0,
        r.1 as int == spec_scan(
            *m,
            match gdef {
                Some(g) => Some(*g),
                None => None,
            },
            *kind,
            input@,
            buffer.info@,
            buffer.len as int,
            p as int,
            data as int,
        ).1,
{
    let ghost g = match gdef {
        Some(g) => Some(*g),
        None => None,
    };
    let len: usize = buffer.len;
    let mut q: usize = p;
    while q + 1 < len
        invariant
            p <= q < len,
            len == buffer.len,
            buffer.wf(),
            gdef_ok(g),
            g == match gdef {
                Some(g) => Some(*g),
                None => None,
            },
            spec_scan(*m, g, *kind, input@, buffer.info@, len as int, p as int, data as int) == spec_scan(
                *m,
                g,
                *kind,
                input@,
                buffer.info@,
                len as int,
                q as int,
                data as int,
            ),
        decreases len - q,
    {
        q = q + 1;
        match match_at(m, gdef, kind, input, &buffer.info[q], data) {
            Match::Yes => {
                return (true, q);
            },
            Match::No => {
                return (false, q);
            },
            Match::Skip => {},
        }
    }
    (false, q)
}

/// Where the ligature that a glyph with ligature id `lig_id` belongs to
/// starts in the output before `j`: the nearest glyph of that id with
/// component zero, over a run of glyphs with that id.
pub open spec fn spec_find_lig_base(out: Seq<GlyphInfo>, j: int, lig_id: u8) -> Option<int>
    decreases j,
{
    if j <= 0 || j > out.len() {
        None
    } else if out[j - 1].lig_props >> 5u8 == lig_id {
        if out[j - 1].spec_lig_comp() == 0 {
            Some(j - 1)
        } else {
            spec_find_lig_base(out, j - 1, lig_id)
        }
    } else {
        None
    }
}

/// Whether the ligature base of the first glyph's ligature sits in the
/// output and the walk would skip it: only then may the input run into
/// the components of another ligature.
pub open spec fn spec_lig_base_skipped(m: Matcher, gdef: Option<Gdef>, out: Seq<GlyphInfo>, out_len: int, lig_id: u8) -> bool {
    match spec_find_lig_base(out, out_len, lig_id) {
        Some(j) => spec_may_skip(m, gdef, out[j]) == MaySkip::Yes,
        None => false,
    }
}

/// `a + b` held at 255.
pub open spec fn sat_add_u8(a: u8, b: u8) -> u8 {
    if a + b > 255 {
        255
    } else {
        (a + b) as u8
    }
}

/// Whether a glyph the walk matched may not join the input: it belongs to
/// a component of another ligature than the first glyph's.
pub open spec fn lig_clash(first: GlyphInfo, this: GlyphInfo, base_skipped: bool) -> bool {
    let fid = first.lig_props >> 5u8;
    let fcomp = first.spec_lig_comp();
    let tid = this.lig_props >> 5u8;
    let tcomp = this.spec_lig_comp();
    if fid != 0 && fcomp != 0 {
        (fid != tid || fcomp != tcomp) && !base_skipped
    } else {
        tid != 0 && tcomp != 0 && tid != fid
    }
}

/// The rest of an input match, from input slot `t` of `count`, the walk
/// standing at `p` and looking for value number `data`, with `total`
/// components so far: whether it succeeds, the positions it fills in
/// (slots `t ..` in order, also on failure, up to where it failed), where
/// the match (or the unsafe stretch after a failed walk) ends when that is
/// reported, and the components counted.
pub open spec fn spec_input_from(
    m: Matcher,
    gdef: Option<Gdef>,
    kind: MatchKind,
    input: Seq<u16>,
    b: Buffer,
    first: GlyphInfo,
    base_skipped: bool,
    count: int,
    t: int,
    p: int,
    total: u8,
) -> (bool, Seq<int>, Option<int>, u8)
    decreases count - t,
{
    if t >= count {
        (true, Seq::empty(), Some(p + 1), total)
    } else {
        let (found, q) = spec_scan(m, gdef, kind, input, b.info@, b.len as int, p, t - 1);
        if !found {
            (false, Seq::empty(), Some(q + 1), total)
        } else if lig_clash(first, b.info@[q], base_skipped) {
            (false, seq![q], None, total)
        } else {
            let rest = spec_input_from(
                m,
                gdef,
                kind,
                input,
                b,
                first,
                base_skipped,
                count,
                t + 1,
                q,
                sat_add_u8(total, b.info@[q].spec_lig_num_comps()),
            );
            (rest.0, seq![q] + rest.1, rest.2, rest.3)
        }
    }
}

/// The glyphs the output of `b` holds, as `out_info` reads them.
pub open spec fn out_glyphs(b: Buffer) -> Seq<GlyphInfo> {
    if b.have_output && !b.out_lockstep {
        b.out_info@
    } else {
        b.info@
    }
}

/// Input matching from the current glyph of `b`: the outcome of
/// `spec_input_from` over slots `1 .. input_len + 1`.
pub open spec fn spec_match_input(
    st: ApplyState,
    gdef: Option<Gdef>,
    b: Buffer,
    input_len: u16,
    kind: MatchKind,
    input: Seq<u16>,
) -> (bool, Seq<int>, Option<int>, u8) {
    let first = b.info@[b.idx as int];
    let m = spec_matcher(st, first, false);
    let base_skipped = spec_lig_base_skipped(m, gdef, out_glyphs(b), b.out_len as int, first.lig_props >> 5u8);
    spec_input_from(m, gdef, kind, input, b, first, base_skipped, input_len + 1, 1, b.idx as int, 0)
}

proof fn lemma_input_from_bounds(
    m: Matcher,
    gdef: Option<Gdef>,
    kind: MatchKind,
    input: Seq<u16>,
    b: Buffer,
    first: GlyphInfo,
    base_skipped: bool,
    count: int,
    t: int,
    p: int,
    total: u8,
)
    requires
        1 <= t <= count,
        0 <= p < b.len,
    ensures
        ({
            let r = spec_input_from(m, gdef, kind, input, b, first, base_skipped, count, t, p, total);
            &&& r.1.len() <= count - t
            &&& r.0 ==> r.1.len() == count - t
            &&& forall|k: int| 0 <= k < r.1.len() ==> p < #[trigger] r.1[k] < b.len
            &&& forall|x: int, y: int| 0 <= x < y < r.1.len() ==> r.1[x] < r.1[y]
            &&& r.0 ==> (r.2 matches Some(e) && e == (if r.1.len() == 0 {
                p
            } else {
                r.1.last()
            }) + 1)
        }),
    decreases count - t,
{
    if t < count {
        lemma_scan_bounds(m, gdef, kind, input, b.info@, b.len as int, p, t - 1);
        let (found, q) = spec_scan(m, gdef, kind, input, b.info@, b.len as int, p, t - 1);
        if found && !lig_clash(first, b.info@[q], base_skipped) {
            let tot = sat_add_u8(total, b.info@[q].spec_lig_num_comps());
            lemma_input_from_bounds(m, gdef, kind, input, b, first, base_skipped, count, t + 1, q, tot);
            let rest = spec_input_from(m, gdef, kind, input, b, first, base_skipped, count, t + 1, q, tot);
            let all = seq![q] + rest.1;
            assert forall|k: int| 0 <= k < all.len() implies p < #[trigger] all[k] < b.len by {
                if k > 0 {
                    assert(all[k] == rest.1[k - 1]);
                }
            }
            assert forall|x: int, y: int| 0 <= x < y < all.len() implies all[x] < all[y] by {
                if x > 0 {
                    assert(all[x] == rest.1[x - 1]);
                }
                assert(all[y] == rest.1[y - 1]);
            }
            if rest.0 && rest.1.len() > 0 {
                assert(all.last() == rest.1.last());
            }
        }
    }
}

/// Whether the input glyphs are in the output or, with no separate
/// output, in the input array.
fn lig_base_skipped(m: &Matcher, gdef: Option<&Gdef>, buffer: &Buffer, lig_id: u8) -> (r: bool)
    requires
        buffer.wf(),
        gdef_ok(match gdef {
            Some(g) => Some(*g),
            None => None,
        }),
    ensures
        r == spec_lig_base_skipped(
            *m,
            match gdef {
                Some(g) => Some(*g),
                None => None,
            },
            out_glyphs(*buffer),
            buffer.out_len as int,
            lig_id,
        ),
{
    let out: &[GlyphInfo] = buffer.out_info();
    let ghost o = out_glyphs(*buffer);
    assert(out@ == o);
    let mut j: usize = buffer.out_len;
    if j > out.len() {
        return false;
    }
    while j > 0 && out[j - 1].lig_id() == lig_id && out[j - 1].lig_comp() != 0
        invariant
            j <= buffer.out_len,
            j <= out@.len(),
            out@ == o,
            spec_find_lig_base(o, buffer.out_len as int, lig_id) == spec_find_lig_base(o, j as int, lig_id),
        decreases j,
    {
        j = j - 1;
    }
    if j > 0 && out[j - 1].lig_id() == lig_id {
        may_skip(m, gdef, &out[j - 1]) == MaySkip::Yes
    } else {
        false
    }
}

/// Matches the input of a rule from the current glyph: `input_len` more
/// glyphs, each the next one the lookup does not skip, must match the
/// values `input` in turn and may not run into another ligature's
/// components. On success the positions of the first glyph and of the
/// matched ones fill `positions[0 ..= input_len]`, `end` is one past the
/// last, and `total_components` counts their ligature components. A walk
/// that runs out or stops sets `end` to one past where it stopped.
pub fn match_input(
    st: &ApplyState,
    gdef: Option<&Gdef>,
    buffer: &Buffer,
    input_len: u16,
    kind: &MatchKind,
    input: &[u16],
    end: &mut usize,
    positions: &mut [u32; 64],
    total_components: &mut u8,
) -> (r: bool)
    requires
        buffer.wf(),
        buffer.idx < buffer.len,
        gdef_ok(match gdef {
            Some(g) => Some(*g),
            None => None,
        }),
    ensures
        input_len + 1 > MAX_CONTEXT_LENGTH ==> !r && *final(end) == *old(end) && final(positions)@ == old(
            positions,
        )@ && *final(total_components) == *old(total_components),
        input_len + 1 <= MAX_CONTEXT_LENGTH ==> {
            let s = spec_match_input(
                *st,
                match gdef {
                    Some(g) => Some(*g),
                    None => None,
                },
                *buffer,
                input_len,
                *kind,
                input@,
            );
            &&& r == s.0
            &&& match s.2 {
                Some(e) => *final(end) as int == e,
                None => *final(end) == *old(end),
            }
            &&& forall|k: int|
                1 <= k <= s.1.len() ==> #[trigger] final(positions)@[k] == #[verifier::truncate] (s.1[k - 1] as u32)
            &&& forall|k: int|
                s.1.len() < k < 64 ==> #[trigger] final(positions)@[k] == old(positions)@[k]
            &&& r ==> final(positions)@[0] == #[verifier::truncate] (buffer.idx as u32)
            &&& !r ==> final(positions)@[0] == old(positions)@[0]
            &&& r ==> *final(total_components) == sat_add_u8(s.3, buffer.info@[buffer.idx as int].spec_lig_num_comps())
            &&& !r ==> *final(total_components) == *old(total_components)
            &&& r ==> s.1.len() == input_len
            &&& forall|k: int| 0 <= k < s.1.len() ==> buffer.idx < #[trigger] s.1[k] < buffer.len
            &&& forall|x: int, y: int| 0 <= x < y < s.1.len() ==> s.1[x] < s.1[y]
        },
{
    let count: usize = input_len as usize + 1;
    if count > MAX_CONTEXT_LENGTH {
        return false;
    }
    let ghost g = match gdef {
        Some(g) => Some(*g),
        None => None,
    };
    let m: Matcher = st.matcher(buffer, false);
    let first: GlyphInfo = buffer.info[buffer.idx];
    let first_id: u8 = first.lig_id();
    let base_skipped: bool = lig_base_skipped(&m, gdef, buffer, first_id);
    let ghost full = spec_match_input(*st, g, *buffer, input_len, *kind, input@);
    proof {
        lemma_input_from_bounds(m, g, *kind, input@, *buffer, first, base_skipped, count as int, 1, buffer.idx as int, 0);
    }
    let mut total: u8 = 0;
    let mut p: usize = buffer.idx;
    let mut t: usize = 1;
    let ghost mut done: Seq<int> = Seq::empty();
    while t < count
        invariant
            1 <= t <= count <= MAX_CONTEXT_LENGTH,
            count == input_len + 1,
            buffer.wf(),
            buffer.idx <= p < buffer.len,
            gdef_ok(g),
            g == match gdef {
                Some(g) => Some(*g),
                None => None,
            },
            m == spec_matcher(*st, buffer.info@[buffer.idx as int], false),
            first == buffer.info@[buffer.idx as int],
            first_id == first.lig_props >> 5u8,
            base_skipped == spec_lig_base_skipped(m, g, out_glyphs(*buffer), buffer.out_len as int, first.lig_props >> 5u8),
            done.len() == t - 1,
            full == spec_match_input(*st, g, *buffer, input_len, *kind, input@),
            forall|k: int| 0 <= k < full.1.len() ==> buffer.idx < #[trigger] full.1[k] < buffer.len,
            forall|x: int, y: int| 0 <= x < y < full.1.len() ==> full.1[x] < full.1[y],
            full.0 ==> full.1.len() == count - 1,
            ({
                let rest = spec_input_from(m, g, *kind, input@, *buffer, first, base_skipped, count as int, t as int, p as int, total);
                &&& full.0 == rest.0
                &&& full.1 == done + rest.1
                &&& full.2 == rest.2
                &&& full.3 == rest.3
            }),
            forall|k: int| 1 <= k < t ==> #[trigger] positions@[k] == #[verifier::truncate] (done[k - 1] as u32),
            forall|k: int| t <= k < 64 ==> #[trigger] positions@[k] == old(positions)@[k],
            positions@[0] == old(positions)@[0],
            *total_components == *old(total_components),
            *end == *old(end),
        decreases count - t,
    {
        let (found, q) = scan(&m, gdef, kind, input, buffer, p, t - 1);
        proof {
            lemma_scan_bounds(m, g, *kind, input@, buffer.info@, buffer.len as int, p as int, t - 1);
        }
        if !found {
            *end = q + 1;
            proof {
                let rest = spec_input_from(m, g, *kind, input@, *buffer, first, base_skipped, count as int, t as int, p as int, total);
                assert(rest == (false, Seq::<int>::empty(), Some(q + 1), total));
                assert(done + Seq::<int>::empty() =~= done);
                assert(full.1 == done);
            }
            return false;
        }
        positions[t] = #[verifier::truncate] (q as u32);
        let this: GlyphInfo = buffer.info[q];
        let this_id: u8 = this.lig_id();
        let this_comp: u8 = this.lig_comp();
        let first_comp: u8 = first.lig_comp();
        let clash: bool = if first_id != 0 && first_comp != 0 {
            (first_id != this_id || first_comp != this_comp) && !base_skipped
        } else {
            this_id != 0 && this_comp != 0 && this_id != first_id
        };
        let ghost done0 = done;
        proof {
            done = done.push(q as int);
        }
        if clash {
            proof {
                assert(clash == lig_clash(first, buffer.info@[q as int], base_skipped));
                let rest = spec_input_from(m, g, *kind, input@, *buffer, first, base_skipped, count as int, t as int, p as int, total);
                assert(rest == (false, seq![q as int], None::<int>, total));
                assert(done0 + seq![q as int] =~= done);
                assert(full.1 == done);
            }
            return false;
        }
        let n: u8 = this.lig_num_comps();
        total = if total as u16 + n as u16 > 255 {
            255
        } else {
            total + n
        };
        proof {
            let rest = spec_input_from(m, g, *kind, input@, *buffer, first, base_skipped, count as int, (t + 1) as int, q as int, total);
            assert(done == done.drop_last().push(q as int));
            assert(done.drop_last() + (seq![q as int] + rest.1) =~= done + rest.1);
        }
        p = q;
        t = t + 1;
    }
    *end = p + 1;
    let n0: u8 = first.lig_num_comps();
    *total_components = if total as u16 + n0 as u16 > 255 {
        255
    } else {
        total + n0
    };
    positions[0] = #[verifier::truncate] (buffer.idx as u32);
    proof {
        assert(done + Seq::<int>::empty() =~= done);
    }
    true
}

/// The rest of a lookahead match from value number `k` of `count`, the
/// walk standing at `p`: whether it succeeds, and where the match (or the
/// unsafe stretch after a failed walk) ends.
pub open spec fn spec_lookahead_from(
    m: Matcher,
    gdef: Option<Gdef>,
    kind: MatchKind,
    input: Seq<u16>,
    infos: Seq<GlyphInfo>,
    len: int,
    count: int,
    k: int,
    p: int,
) -> (bool, int)
    decreases count - k,
{
    if k >= count {
        (true, p + 1)
    } else {
        let (found, q) = spec_scan(m, gdef, kind, input, infos, len, p, k);
        if !found {
            (false, q + 1)
        } else {
            spec_lookahead_from(m, gdef, kind, input, infos, len, count, k + 1, q)
        }
    }
}

/// Matches the lookahead of a chained rule: from just before `start`, the
/// next `lookahead_len` glyphs the walk does not skip (any mask, joiners
/// skipped) must match `input` in turn. `end` is one past the last
/// matched glyph, or one past where a failing walk stopped.
pub fn match_lookahead(
    st: &ApplyState,
    gdef: Option<&Gdef>,
    buffer: &Buffer,
    lookahead_len: u16,
    kind: &MatchKind,
    input: &[u16],
    start: usize,
    end: &mut usize,
) -> (r: bool)
    requires
        buffer.wf(),
        buffer.idx < buffer.len,
        1 <= start <= buffer.len,
        gdef_ok(match gdef {
            Some(g) => Some(*g),
            None => None,
        }),
    ensures
        ({
            let s = spec_lookahead_from(
                spec_matcher(*st, buffer.info@[buffer.idx as int], true),
                match gdef {
                    Some(g) => Some(*g),
                    None => None,
                },
                *kind,
                input@,
                buffer.info@,
                buffer.len as int,
                lookahead_len as int,
                0,
                start - 1,
            );
            r == s.0 && *final(end) as int == s.1
        }),
{
    let ghost g = match gdef {
        Some(g) => Some(*g),
        None => None,
    };
    let m: Matcher = st.matcher(buffer, true);
    let ghost full = spec_lookahead_from(m, g, *kind, input@, buffer.info@, buffer.len as int, lookahead_len as int, 0, start - 1);
    let mut p: usize = start - 1;
    let mut k: u16 = 0;
    while k < lookahead_len
        invariant
            k <= lookahead_len,
            p < buffer.len,
            buffer.wf(),
            gdef_ok(g),
            g == match gdef {
                Some(g) => Some(*g),
                None => None,
            },
            full == spec_lookahead_from(m, g, *kind, input@, buffer.info@, buffer.len as int, lookahead_len as int, k as int, p as int),
            full == spec_lookahead_from(m, g, *kind, input@, buffer.info@, buffer.len as int, lookahead_len as int, 0, start - 1),
            m == spec_matcher(*st, buffer.info@[buffer.idx as int], true),
        decreases lookahead_len - k,
    {
        let (found, q) = scan(&m, gdef, kind, input, buffer, p, k as usize);
        proof {
            lemma_scan_bounds(m, g, *kind, input@, buffer.info@, buffer.len as int, p as int, k as int);
        }
        if !found {
            *end = q + 1;
            proof {
                assert(full == (false, q + 1));
            }
            return false;
        }
        p = q;
        k = k + 1;
    }
    *end = p + 1;
    true
}

/// The walk backward from `p` (not itself looked at) over `out`: whether
/// it finds a match, where, and where the stretch it read starts.
pub open spec fn spec_scan_back(
    m: Matcher,
    gdef: Option<Gdef>,
    kind: MatchKind,
    input: Seq<u16>,
    out: Seq<GlyphInfo>,
    p: int,
    data: int,
) -> (bool, int, int)
    decreases p,
{
    if p <= 0 {
        (false, 0, 0)
    } else {
        match spec_match_at(m, gdef, kind, input, out[p - 1], data) {
            Match::Yes => (true, p - 1, 0),
            Match::No => (false, p - 1, if p - 1 >= 1 {
                p - 2
            } else {
                0
            }),
            Match::Skip => spec_scan_back(m, gdef, kind, input, out, p - 1, data),
        }
    }
}

proof fn lemma_scan_back_bounds(
    m: Matcher,
    gdef: Option<Gdef>,
    kind: MatchKind,
    input: Seq<u16>,
    out: Seq<GlyphInfo>,
    p: int,
    data: int,
)
    requires
        p >= 0,
    ensures
        0 <= spec_scan_back(m, gdef, kind, input, out, p, data).1 <= p,
        spec_scan_back(m, gdef, kind, input, out, p, data).0 ==> spec_scan_back(m, gdef, kind, input, out, p, data).1 < p,
        0 <= spec_scan_back(m, gdef, kind, input, out, p, data).2 <= p,
    decreases p,
{
    if p > 0 {
        lemma_scan_back_bounds(m, gdef, kind, input, out, p - 1, data);
    }
}

fn scan_back(
    m: &Matcher,
    gdef: Option<&Gdef>,
    kind: &MatchKind,
    input: &[u16],
    out: &[GlyphInfo],
    p: usize,
    data: usize,
) -> (r: (bool, usize, usize))
    requires
        p <= out@.len(),
        gdef_ok(match gdef {
            Some(g) => Some(*g),
            None => None,
        }),
    ensures
        r.0 == spec_scan_back(*m, match gdef {
            Some(g) => Some(*g),
            None => None,
        }, *kind, input@, out@, p as int, data as int).0,
        r.1 as int == spec_scan_back(*m, match gdef {
            Some(g) => Some(*g),
            None => None,
        }, *kind, input@, out@, p as int, data as int).1,
        r.2 as int == spec_scan_back(*m, match gdef {
            Some(g) => Some(*g),
            None => None,
        }, *kind, input@, out@, p as int, data as int).2,
{
    let ghost g = match gdef {
        Some(g) => Some(*g),
        None => None,
    };
    let mut q: usize = p;
    while q > 0
        invariant
            q <= p <= out@.len(),
            gdef_ok(g),
            g == match gdef {
                Some(g) => Some(*g),
                None => None,
            },
            spec_scan_back(*m, g, *kind, input@, out@, p as int, data as int) == spec_scan_back(
                *m,
                g,
                *kind,
                input@,
                out@,
                q as int,
                data as int,
            ),
        decreases q,
    {
        q = q - 1;
        match match_at(m, gdef, kind, input, &out[q], data) {
            Match::Yes => {
                return (true, q, 0);
            },
            Match::No => {
                let from: usize = if q >= 1 {
                    q - 1
                } else {
                    0
                };
                return (false, q, from);
            },
            Match::Skip => {},
        }
    }
    (false, 0, 0)
}

/// The rest of a backtrack match from value number `k` of `count`, the
/// walk standing at `p`: whether it succeeds, and where the match (or the
/// unsafe stretch before a failed walk) starts.
pub open spec fn spec_backtrack_from(
    m: Matcher,
    gdef: Option<Gdef>,
    kind: MatchKind,
    input: Seq<u16>,
    out: Seq<GlyphInfo>,
    count: int,
    k: int,
    p: int,
) -> (bool, int)
    decreases count - k,
{
    if k >= count {
        (true, p)
    } else {
        let (found, q, from) = spec_scan_back(m, gdef, kind, input, out, p, k);
        if !found {
            (false, from)
        } else {
            spec_backtrack_from(m, gdef, kind, input, out, count, k + 1, q)
        }
    }
}

/// Matches the backtrack of a chained rule: going back from the end of the
/// output (or from the current glyph with no output), the previous
/// `backtrack_len` glyphs the walk does not skip must match `input` in
/// turn. `start` is where the match starts, or where the stretch a failing
/// walk read starts.
pub fn match_backtrack(
    st: &ApplyState,
    gdef: Option<&Gdef>,
    buffer: &Buffer,
    backtrack_len: u16,
    kind: &MatchKind,
    input: &[u16],
    start: &mut usize,
) -> (r: bool)
    requires
        buffer.wf(),
        buffer.idx < buffer.len,
        gdef_ok(match gdef {
            Some(g) => Some(*g),
            None => None,
        }),
    ensures
        ({
            let s = spec_backtrack_from(
                spec_matcher(*st, buffer.info@[buffer.idx as int], true),
                match gdef {
                    Some(g) => Some(*g),
                    None => None,
                },
                *kind,
                input@,
                out_glyphs(*buffer),
                backtrack_len as int,
                0,
                if buffer.have_output {
                    buffer.out_len as int
                } else {
                    buffer.idx as int
                },
            );
            r == s.0 && *final(start) as int == s.1
        }),
{
    let ghost g = match gdef {
        Some(g) => Some(*g),
        None => None,
    };
    let m: Matcher = st.matcher(buffer, true);
    let out: &[GlyphInfo] = buffer.out_info();
    let from: usize = buffer.backtrack_len();
    proof {
        assert(out@ == out_glyphs(*buffer));
    }
    let ghost full = spec_backtrack_from(m, g, *kind, input@, out@, backtrack_len as int, 0, from as int);
    let mut p: usize = from;
    let mut k: u16 = 0;
    while k < backtrack_len
        invariant
            k <= backtrack_len,
            p <= out@.len(),
            gdef_ok(g),
            g == match gdef {
                Some(g) => Some(*g),
                None => None,
            },
            full == spec_backtrack_from(m, g, *kind, input@, out@, backtrack_len as int, k as int, p as int),
            full == spec_backtrack_from(m, g, *kind, input@, out_glyphs(*buffer), backtrack_len as int, 0, if buffer.have_output {
                buffer.out_len as int
            } else {
                buffer.idx as int
            }),
            m == spec_matcher(*st, buffer.info@[buffer.idx as int], true),
        decreases backtrack_len - k,
    {
        let (found, q, unsafe_from) = scan_back(&m, gdef, kind, input, out, p, k as usize);
        proof {
            lemma_scan_back_bounds(m, g, *kind, input@, out@, p as int, k as int);
        }
        if !found {
            *start = unsafe_from;
            proof {
                assert(full == (false, unsafe_from as int));
            }
            return false;
        }
        p = q;
        k = k + 1;
    }
    *start = p;
    true
}

} // verus!
