//! The Thai shaper's fallback for fonts without Thai GSUB: marks moved
//! down or left, and descenders removed, by swapping in the private-use
//! variants that older fonts carry.

use vstd::prelude::*;
use crate::buffer::{lemma_flag_or_keep_trans, flag_or_keep, Buffer, GlyphInfo, UNSAFE_TO_BREAK, UNSAFE_TO_CONCAT};

verus! {

/// How a Thai consonant stands above and below the baseline.
#[derive(Clone, Copy, PartialEq, Eq, Structural, Debug)]
pub enum Consonant {
    Normal,
    Ascending,
    RemovableDescender,
    StrictDescender,
    Other,
}

/// Where a Thai mark sits, or that a character is no mark.
#[derive(Clone, Copy, PartialEq, Eq, Structural, Debug)]
pub enum Mark {
    Above,
    Below,
    Tone,
    Base,
}

/// What to do to a glyph to make room.
#[derive(Clone, Copy, PartialEq, Eq, Structural, Debug)]
pub enum Action {
    Stay,
    Down,
    Left,
    DownLeft,
    RemoveDescender,
}

/// What occupies the space above the current base.
#[derive(Clone, Copy, PartialEq, Eq, Structural, Debug)]
pub enum Above {
    Empty,
    Ascender,
    OneMark,
    Full,
}

/// What occupies the space below the current base.
#[derive(Clone, Copy, PartialEq, Eq, Structural, Debug)]
pub enum Below {
    Clear,
    Removable,
    Occupied,
}

pub open spec fn spec_consonant_type(u: u32) -> Consonant {
    if u == 0x0E1B || u == 0x0E1D || u == 0x0E1F {
        Consonant::Ascending
    } else if u == 0x0E0D || u == 0x0E10 {
        Consonant::RemovableDescender
    } else if u == 0x0E0E || u == 0x0E0F {
        Consonant::StrictDescender
    } else if 0x0E01 <= u <= 0x0E2E {
        Consonant::Normal
    } else {
        Consonant::Other
    }
}

/// The kind of the Thai consonant `u`.
pub fn consonant_type(u: u32) -> (r: Consonant)
    ensures
        r == spec_consonant_type(u),
{
    if u == 0x0E1B || u == 0x0E1D || u == 0x0E1F {
        Consonant::Ascending
    } else if u == 0x0E0D || u == 0x0E10 {
        Consonant::RemovableDescender
    } else if u == 0x0E0E || u == 0x0E0F {
        Consonant::StrictDescender
    } else if 0x0E01 <= u && u <= 0x0E2E {
        Consonant::Normal
    } else {
        Consonant::Other
    }
}

pub open spec fn spec_mark_type(u: u32) -> Mark {
    if u == 0x0E31 || (0x0E34 <= u <= 0x0E37) || u == 0x0E47 || (0x0E4D <= u <= 0x0E4E) {
        Mark::Above
    } else if 0x0E38 <= u <= 0x0E3A {
        Mark::Below
    } else if 0x0E48 <= u <= 0x0E4C {
        Mark::Tone
    } else {
        Mark::Base
    }
}

/// Where the Thai mark `u` sits.
pub fn mark_type(u: u32) -> (r: Mark)
    ensures
        r == spec_mark_type(u),
{
    if u == 0x0E31 || (0x0E34 <= u && u <= 0x0E37) || u == 0x0E47 || (0x0E4D <= u && u <= 0x0E4E) {
        Mark::Above
    } else if 0x0E38 <= u && u <= 0x0E3A {
        Mark::Below
    } else if 0x0E48 <= u && u <= 0x0E4C {
        Mark::Tone
    } else {
        Mark::Base
    }
}

/// The space above a consonant before any mark.
pub open spec fn above_start(c: Consonant) -> Above {
    match c {
        Consonant::Ascending => Above::Ascender,
        Consonant::Other => Above::Full,
        _ => Above::Empty,
    }
}

/// The space below a consonant before any mark.
pub open spec fn below_start(c: Consonant) -> Below {
    match c {
        Consonant::RemovableDescender => Below::Removable,
        Consonant::StrictDescender | Consonant::Other => Below::Occupied,
        _ => Below::Clear,
    }
}

/// What a mark does above, and what is left above after it.
pub open spec fn above_step(a: Above, m: Mark) -> (Action, Above) {
    match a {
        Above::Empty => match m {
            Mark::Above => (Action::Stay, Above::Full),
            Mark::Tone => (Action::Down, Above::Full),
            _ => (Action::Stay, Above::Empty),
        },
        Above::Ascender => match m {
            Mark::Above => (Action::Left, Above::OneMark),
            Mark::Tone => (Action::DownLeft, Above::OneMark),
            _ => (Action::Stay, Above::Ascender),
        },
        Above::OneMark => match m {
            Mark::Above => (Action::Stay, Above::Full),
            Mark::Tone => (Action::Left, Above::Full),
            _ => (Action::Stay, Above::OneMark),
        },
        Above::Full => (Action::Stay, Above::Full),
    }
}

/// What a mark does below, and what is left below after it.
pub open spec fn below_step(b: Below, m: Mark) -> (Action, Below) {
    match b {
        Below::Clear => match m {
            Mark::Below => (Action::Stay, Below::Occupied),
            _ => (Action::Stay, Below::Clear),
        },
        Below::Removable => match m {
            Mark::Below => (Action::RemoveDescender, Below::Occupied),
            _ => (Action::Stay, Below::Removable),
        },
        Below::Occupied => match m {
            Mark::Below => (Action::Down, Below::Occupied),
            _ => (Action::Stay, Below::Occupied),
        },
    }
}

fn above_step_of(a: Above, m: Mark) -> (r: (Action, Above))
    ensures
        r == above_step(a, m),
{
    match a {
        Above::Empty => match m {
            Mark::Above => (Action::Stay, Above::Full),
            Mark::Tone => (Action::Down, Above::Full),
            _ => (Action::Stay, Above::Empty),
        },
        Above::Ascender => match m {
            Mark::Above => (Action::Left, Above::OneMark),
            Mark::Tone => (Action::DownLeft, Above::OneMark),
            _ => (Action::Stay, Above::Ascender),
        },
        Above::OneMark => match m {
            Mark::Above => (Action::Stay, Above::Full),
            Mark::Tone => (Action::Left, Above::Full),
            _ => (Action::Stay, Above::OneMark),
        },
        Above::Full => (Action::Stay, Above::Full),
    }
}

fn below_step_of(b: Below, m: Mark) -> (r: (Action, Below))
    ensures
        r == below_step(b, m),
{
    match b {
        Below::Clear => match m {
            Mark::Below => (Action::Stay, Below::Occupied),
            _ => (Action::Stay, Below::Clear),
        },
        Below::Removable => match m {
            Mark::Below => (Action::RemoveDescender, Below::Occupied),
            _ => (Action::Stay, Below::Removable),
        },
        Below::Occupied => match m {
            Mark::Below => (Action::Down, Below::Occupied),
            _ => (Action::Stay, Below::Occupied),
        },
    }
}

/// The private-use variants of `u` for `action`: the one Windows fonts
/// use and the one Mac fonts use.
pub open spec fn spec_variant_pair(u: u32, action: Action) -> Option<(u32, u32)> {
    match action {
        Action::Stay => None,
        Action::Down => {
            if u == 0x0E48 {
                Some((0xF70Au32, 0xF88Bu32))
            } else if u == 0x0E49 {
                Some((0xF70Bu32, 0xF88Eu32))
            } else if u == 0x0E4A {
                Some((0xF70Cu32, 0xF891u32))
            } else if u == 0x0E4B {
                Some((0xF70Du32, 0xF894u32))
            } else if u == 0x0E4C {
                Some((0xF70Eu32, 0xF897u32))
            } else if u == 0x0E38 {
                Some((0xF718u32, 0xF89Bu32))
            } else if u == 0x0E39 {
                Some((0xF719u32, 0xF89Cu32))
            } else if u == 0x0E3A {
                Some((0xF71Au32, 0xF89Du32))
            } else {
                None
            }
        },
        Action::DownLeft => {
            if u == 0x0E48 {
                Some((0xF705u32, 0xF88Cu32))
            } else if u == 0x0E49 {
                Some((0xF706u32, 0xF88Fu32))
            } else if u == 0x0E4A {
                Some((0xF707u32, 0xF892u32))
            } else if u == 0x0E4B {
                Some((0xF708u32, 0xF895u32))
            } else if u == 0x0E4C {
                Some((0xF709u32, 0xF898u32))
            } else {
                None
            }
        },
        Action::Left => {
            if u == 0x0E48 {
                Some((0xF713u32, 0xF88Au32))
            } else if u == 0x0E49 {
                Some((0xF714u32, 0xF88Du32))
            } else if u == 0x0E4A {
                Some((0xF715u32, 0xF890u32))
            } else if u == 0x0E4B {
                Some((0xF716u32, 0xF893u32))
            } else if u == 0x0E4C {
                Some((0xF717u32, 0xF896u32))
            } else if u == 0x0E31 {
                Some((0xF710u32, 0xF884u32))
            } else if u == 0x0E34 {
                Some((0xF701u32, 0xF885u32))
            } else if u == 0x0E35 {
                Some((0xF702u32, 0xF886u32))
            } else if u == 0x0E36 {
                Some((0xF703u32, 0xF887u32))
            } else if u == 0x0E37 {
                Some((0xF704u32, 0xF888u32))
            } else if u == 0x0E47 {
                Some((0xF712u32, 0xF889u32))
            } else if u == 0x0E4D {
                Some((0xF711u32, 0xF899u32))
            } else {
                None
            }
        },
        Action::RemoveDescender => {
            if u == 0x0E0D {
                Some((0xF70Fu32, 0xF89Au32))
            } else if u == 0x0E10 {
                Some((0xF700u32, 0xF89Eu32))
            } else {
                None
            }
        },
    }
}

fn variant_pair(u: u32, action: Action) -> (r: Option<(u32, u32)>)
    ensures
        r == spec_variant_pair(u, action),
{
    match action {
        Action::Stay => None,
        Action::Down => {
            if u == 0x0E48 {
                Some((0xF70Au32, 0xF88Bu32))
            } else if u == 0x0E49 {
                Some((0xF70Bu32, 0xF88Eu32))
            } else if u == 0x0E4A {
                Some((0xF70Cu32, 0xF891u32))
            } else if u == 0x0E4B {
                Some((0xF70Du32, 0xF894u32))
            } else if u == 0x0E4C {
                Some((0xF70Eu32, 0xF897u32))
            } else if u == 0x0E38 {
                Some((0xF718u32, 0xF89Bu32))
            } else if u == 0x0E39 {
                Some((0xF719u32, 0xF89Cu32))
            } else if u == 0x0E3A {
                Some((0xF71Au32, 0xF89Du32))
            } else {
                None
            }
        },
        Action::DownLeft => {
            if u == 0x0E48 {
                Some((0xF705u32, 0xF88Cu32))
            } else if u == 0x0E49 {
                Some((0xF706u32, 0xF88Fu32))
            } else if u == 0x0E4A {
                Some((0xF707u32, 0xF892u32))
            } else if u == 0x0E4B {
                Some((0xF708u32, 0xF895u32))
            } else if u == 0x0E4C {
                Some((0xF709u32, 0xF898u32))
            } else {
                None
            }
        },
        Action::Left => {
            if u == 0x0E48 {
                Some((0xF713u32, 0xF88Au32))
            } else if u == 0x0E49 {
                Some((0xF714u32, 0xF88Du32))
            } else if u == 0x0E4A {
                Some((0xF715u32, 0xF890u32))
            } else if u == 0x0E4B {
                Some((0xF716u32, 0xF893u32))
            } else if u == 0x0E4C {
                Some((0xF717u32, 0xF896u32))
            } else if u == 0x0E31 {
                Some((0xF710u32, 0xF884u32))
            } else if u == 0x0E34 {
                Some((0xF701u32, 0xF885u32))
            } else if u == 0x0E35 {
                Some((0xF702u32, 0xF886u32))
            } else if u == 0x0E36 {
                Some((0xF703u32, 0xF887u32))
            } else if u == 0x0E37 {
                Some((0xF704u32, 0xF888u32))
            } else if u == 0x0E47 {
                Some((0xF712u32, 0xF889u32))
            } else if u == 0x0E4D {
                Some((0xF711u32, 0xF899u32))
            } else {
                None
            }
        },
        Action::RemoveDescender => {
            if u == 0x0E0D {
                Some((0xF70Fu32, 0xF89Au32))
            } else if u == 0x0E10 {
                Some((0xF700u32, 0xF89Eu32))
            } else {
                None
            }
        },
    }
}

/// The glyph that stands in for `u` under `action`: its Windows variant
/// where the font has it, else its Mac variant, else `u` itself.
pub open spec fn spec_variant_for(u: u32, action: Action, glyphs: Seq<u32>) -> u32 {
    match spec_variant_pair(u, action) {
        None => u,
        Some((w, m)) => if glyphs.contains(w) {
            w
        } else if glyphs.contains(m) {
            m
        } else {
            u
        },
    }
}

fn has_glyph(glyphs: &[u32], u: u32) -> (r: bool)
    ensures
        r == glyphs@.contains(u),
{
    let mut k: usize = 0;
    while k < glyphs.len()
        invariant
            k <= glyphs@.len(),
            forall|j: int| 0 <= j < k ==> glyphs@[j] != u,
        decreases glyphs@.len() - k,
    {
        if glyphs[k] == u {
            assert(glyphs@[k as int] == u);
            return true;
        }
        k = k + 1;
    }
    false
}

/// The stand-in for `u` under `action` (see `spec_variant_for`);
/// `glyphs` are the characters the font maps.
pub fn variant_for(u: u32, action: Action, glyphs: &[u32]) -> (r: u32)
    ensures
        r == spec_variant_for(u, action, glyphs@),
{
    match variant_pair(u, action) {
        None => u,
        Some((w, m)) => if has_glyph(glyphs, w) {
            w
        } else if has_glyph(glyphs, m) {
            m
        } else {
            u
        },
    }
}

/// The walk's state: the glyph ids so far, the space above and below the
/// current base, and where that base stands.
pub struct PuaState {
    pub ids: Seq<u32>,
    pub above: Above,
    pub below: Below,
    pub base: int,
}

/// One step of the walk at glyph `i`: a base (anything that is no mark)
/// starts new spaces; a mark moves through both, and the first action
/// other than staying changes the mark, or for a removed descender the
/// base, into its stand-in.
pub open spec fn pua_step(s: PuaState, glyphs: Seq<u32>, i: int) -> PuaState {
    let u = s.ids[i];
    let mark = spec_mark_type(u);
    if mark == Mark::Base {
        let c = spec_consonant_type(u);
        PuaState { ids: s.ids, above: above_start(c), below: below_start(c), base: i }
    } else {
        let (aa, na) = above_step(s.above, mark);
        let (ba, nb) = below_step(s.below, mark);
        let action = if aa != Action::Stay {
            aa
        } else {
            ba
        };
        let ids = if action == Action::RemoveDescender {
            s.ids.update(s.base, spec_variant_for(s.ids[s.base], action, glyphs))
        } else {
            s.ids.update(i, spec_variant_for(u, action, glyphs))
        };
        PuaState { ids, above: na, below: nb, base: s.base }
    }
}

/// The walk over the first `n` glyphs of `ids`.
pub open spec fn pua_walk(ids: Seq<u32>, glyphs: Seq<u32>, n: int) -> PuaState
    decreases n,
{
    if n <= 0 {
        PuaState { ids, above: above_start(Consonant::Other), below: below_start(Consonant::Other), base: 0 }
    } else {
        pua_step(pua_walk(ids, glyphs, n - 1), glyphs, n - 1)
    }
}

/// The ids of the first `n` glyphs of `info`.
pub open spec fn ids_of(info: Seq<GlyphInfo>, n: int) -> Seq<u32> {
    Seq::new(n as nat, |k: int| info[k].id)
}

proof fn lemma_walk_base(ids: Seq<u32>, glyphs: Seq<u32>, n: int)
    requires
        0 <= n <= ids.len(),
    ensures
        pua_walk(ids, glyphs, n).ids.len() == ids.len(),
        0 <= pua_walk(ids, glyphs, n).base <= if n == 0 {
            0
        } else {
            n - 1
        },
    decreases n,
{
    if n > 0 {
        lemma_walk_base(ids, glyphs, n - 1);
    }
}

/// The fallback for fonts without Thai GSUB: each mark, in turn, is moved
/// down or left, or its base loses its descender, where the marks before it
/// on the same base call for that and the font has the stand-in glyph;
/// `glyphs` are the characters the font maps. Each mark and its base become
/// unsafe to break apart.
pub fn pua_shaping(glyphs: &[u32], buffer: &mut Buffer)
    requires
        old(buffer).wf(),
    ensures
        final(buffer).wf(),
        final(buffer).len == old(buffer).len,
        final(buffer).idx == old(buffer).idx,
        final(buffer).pos == old(buffer).pos,
        final(buffer).info@.len() == old(buffer).info@.len(),
        ids_of(final(buffer).info@, old(buffer).len as int) == pua_walk(
            ids_of(old(buffer).info@, old(buffer).len as int),
            glyphs@,
            old(buffer).len as int,
        ).ids,
        forall|k: int|
            0 <= k < old(buffer).info@.len() ==> flag_or_keep(
                GlyphInfo { id: final(buffer).info@[k].id, ..old(buffer).info@[k] },
                #[trigger] final(buffer).info@[k],
                UNSAFE_TO_BREAK | UNSAFE_TO_CONCAT,
            ),
{
    let ghost ids0 = ids_of(buffer.info@, buffer.len as int);
    let ghost n = buffer.len as int;
    let mut above: Above = Above::Full;
    let mut below: Below = Below::Occupied;
    let mut base: usize = 0;
    let mut i: usize = 0;
    while i < buffer.len
        invariant
            buffer.wf(),
            buffer.len == old(buffer).len,
            buffer.idx == old(buffer).idx,
            buffer.pos == old(buffer).pos,
            buffer.info@.len() == old(buffer).info@.len(),
            n == buffer.len,
            i <= buffer.len,
            ids0 == ids_of(old(buffer).info@, n),
            base <= i,
            i > 0 ==> base < i,
            ({
                let s = pua_walk(ids0, glyphs@, i as int);
                &&& ids_of(buffer.info@, n) == s.ids
                &&& above == s.above
                &&& below == s.below
                &&& base == s.base
            }),
            forall|k: int|
                0 <= k < old(buffer).info@.len() ==> flag_or_keep(
                    GlyphInfo { id: buffer.info@[k].id, ..old(buffer).info@[k] },
                    #[trigger] buffer.info@[k],
                    UNSAFE_TO_BREAK | UNSAFE_TO_CONCAT,
                ),
        decreases buffer.len - i,
    {
        let ghost s = pua_walk(ids0, glyphs@, i as int);
        proof {
            lemma_walk_base(ids0, glyphs@, i as int);
        }
        let u: u32 = buffer.info[i].id;
        assert(u == s.ids[i as int]);
        let mark: Mark = mark_type(u);
        if mark == Mark::Base {
            let c: Consonant = consonant_type(u);
            above = match c {
                Consonant::Ascending => Above::Ascender,
                Consonant::Other => Above::Full,
                _ => Above::Empty,
            };
            below = match c {
                Consonant::RemovableDescender => Below::Removable,
                Consonant::StrictDescender | Consonant::Other => Below::Occupied,
                _ => Below::Clear,
            };
            base = i;
        } else {
            let (above_action, next_above) = above_step_of(above, mark);
            let (below_action, next_below) = below_step_of(below, mark);
            above = next_above;
            below = next_below;
            let action: Action = if above_action != Action::Stay {
                above_action
            } else {
                below_action
            };
            let ghost before = *buffer;
            buffer.unsafe_to_break(base, i);
            proof {
                assert forall|k: int| 0 <= k < old(buffer).info@.len() implies flag_or_keep(
                    GlyphInfo { id: buffer.info@[k].id, ..old(buffer).info@[k] },
                    #[trigger] buffer.info@[k],
                    UNSAFE_TO_BREAK | UNSAFE_TO_CONCAT,
                ) by {
                    assert(flag_or_keep(before.info@[k], buffer.info@[k], UNSAFE_TO_BREAK | UNSAFE_TO_CONCAT));
                    assert(buffer.info@[k].id == before.info@[k].id);
                    lemma_flag_or_keep_trans(
                        GlyphInfo { id: buffer.info@[k].id, ..old(buffer).info@[k] },
                        before.info@[k],
                        buffer.info@[k],
                        UNSAFE_TO_BREAK | UNSAFE_TO_CONCAT,
                    );
                }
                assert(ids_of(buffer.info@, n) =~= ids_of(before.info@, n));
            }
            let at: usize = if action == Action::RemoveDescender {
                base
            } else {
                i
            };
            let mut g: GlyphInfo = buffer.info[at];
            g.id = variant_for(g.id, action, glyphs);
            let ghost mid = buffer.info@;
            buffer.info.set(at, g);
            proof {
                assert forall|k: int| 0 <= k < old(buffer).info@.len() implies flag_or_keep(
                    GlyphInfo { id: buffer.info@[k].id, ..old(buffer).info@[k] },
                    #[trigger] buffer.info@[k],
                    UNSAFE_TO_BREAK | UNSAFE_TO_CONCAT,
                ) by {
                    if k == at as int {
                        assert(flag_or_keep(
                            GlyphInfo { id: mid[k].id, ..old(buffer).info@[k] },
                            mid[k],
                            UNSAFE_TO_BREAK | UNSAFE_TO_CONCAT,
                        ));
                    } else {
                        assert(buffer.info@[k] == mid[k]);
                    }
                }
            }
        }
        proof {
            let s1 = pua_walk(ids0, glyphs@, i + 1);
            assert(s1 == pua_step(s, glyphs@, i as int));
            assert(ids_of(buffer.info@, n) =~= s1.ids);
        }
        i = i + 1;
    }
}


/// The Thai vowels and signs written above the base: mai han-akat, sara i,
/// sara ii, sara ue, sara uee, maitaikhu, nikhahit and yamakkan.
pub open spec fn thai_above_vowel(u: u32) -> bool {
    u == 0x0E31 || u == 0x0E34 || u == 0x0E35 || u == 0x0E36 || u == 0x0E37 || u == 0x0E47 || u == 0x0E4D
        || u == 0x0E4E
}

/// The Thai vowels written below the base: sara u, sara uu and phinthu.
pub open spec fn thai_below_vowel(u: u32) -> bool {
    u == 0x0E38 || u == 0x0E39 || u == 0x0E3A
}

/// The Thai tone marks and thanthakhat: mai ek, mai tho, mai tri, mai
/// chattawa and thanthakhat.
pub open spec fn thai_tone_mark(u: u32) -> bool {
    u == 0x0E48 || u == 0x0E49 || u == 0x0E4A || u == 0x0E4B || u == 0x0E4C
}

/// The consonants with an ascender: po pla, fo fa and fo fan.
pub open spec fn thai_ascending(u: u32) -> bool {
    u == 0x0E1B || u == 0x0E1D || u == 0x0E1F
}

/// Every Thai above-base vowel is classified as above, every below-base
/// vowel as below, every tone mark as a tone; a Thai consonant is a base.
pub proof fn lemma_thai_marks(u: u32)
    ensures
        thai_above_vowel(u) ==> spec_mark_type(u) == Mark::Above,
        thai_below_vowel(u) ==> spec_mark_type(u) == Mark::Below,
        thai_tone_mark(u) ==> spec_mark_type(u) == Mark::Tone,
        0x0E01 <= u <= 0x0E2E ==> spec_mark_type(u) == Mark::Base,
        thai_ascending(u) ==> spec_consonant_type(u) == Consonant::Ascending,
{
}

/// After a consonant with an ascender, an above-base vowel is moved left:
/// it becomes its left-shifted variant wherever the font has one, and the
/// consonant stays.
pub proof fn lemma_above_vowel_after_ascender(c: u32, v: u32, glyphs: Seq<u32>)
    requires
        thai_ascending(c),
        thai_above_vowel(v),
    ensures
        pua_walk(seq![c, v], glyphs, 2).ids == seq![c, spec_variant_for(v, Action::Left, glyphs)],
{
    lemma_thai_marks(c);
    lemma_thai_marks(v);
    let s0 = pua_walk(seq![c, v], glyphs, 0);
    let s1 = pua_walk(seq![c, v], glyphs, 1);
    assert(s1 == pua_step(s0, glyphs, 0));
    assert(s1.above == Above::Ascender && s1.base == 0 && s1.ids == seq![c, v]);
    assert(pua_walk(seq![c, v], glyphs, 2) == pua_step(s1, glyphs, 1));
    assert(pua_walk(seq![c, v], glyphs, 2).ids =~= seq![c, spec_variant_for(v, Action::Left, glyphs)]);
}

/// The left-shifted variants of the above-base vowels, Windows and Mac
/// code points: a font with either gets it in place of the vowel.
pub proof fn lemma_left_variants_exist(v: u32)
    requires
        thai_above_vowel(v),
        v != 0x0E4E,
    ensures
        spec_variant_pair(v, Action::Left) is Some,
        0xF700 <= spec_variant_pair(v, Action::Left).unwrap().0 <= 0xF71A,
        0xF880 <= spec_variant_pair(v, Action::Left).unwrap().1 <= 0xF8FF,
{
}


/// Anything that is not a Thai above-base vowel, below-base vowel or tone
/// mark is a base; the consonants fall in their kinds: ascenders (po pla,
/// fo fa, fo fan), removable descenders (yo ying, tho than), strict
/// descenders (do chada, to patak), the other consonants normal, and
/// anything else other.
pub proof fn lemma_thai_kinds(u: u32)
    ensures
        !thai_above_vowel(u) && !thai_below_vowel(u) && !thai_tone_mark(u) ==> spec_mark_type(u) == Mark::Base,
        (u == 0x0E0D || u == 0x0E10) ==> spec_consonant_type(u) == Consonant::RemovableDescender,
        (u == 0x0E0E || u == 0x0E0F) ==> spec_consonant_type(u) == Consonant::StrictDescender,
        0x0E01 <= u <= 0x0E2E && !thai_ascending(u) && u != 0x0E0D && u != 0x0E10 && u != 0x0E0E && u != 0x0E0F
            ==> spec_consonant_type(u) == Consonant::Normal,
        !(0x0E01 <= u <= 0x0E2E) ==> spec_consonant_type(u) == Consonant::Other,
{
}

/// The private-use variants come in runs: the Windows variants of mai ek
/// to thanthakhat shifted down, down and left, and left are consecutive
/// from U+F70A, U+F705 and U+F713, those of sara u to phinthu shifted down
/// from U+F718, and those of sara i to sara uee shifted left from U+F701;
/// the Mac variants of the tone marks step by three from U+F88B, U+F88C
/// and U+F88A.
pub proof fn lemma_variant_runs(k: u32)
    ensures
        k < 5 ==> spec_variant_pair((0x0E48 + k) as u32, Action::Down) == Some(((0xF70A + k) as u32, (0xF88B + 3 * k) as u32)),
        k < 5 ==> spec_variant_pair((0x0E48 + k) as u32, Action::DownLeft) == Some(((0xF705 + k) as u32, (0xF88C + 3 * k) as u32)),
        k < 5 ==> spec_variant_pair((0x0E48 + k) as u32, Action::Left) == Some(((0xF713 + k) as u32, (0xF88A + 3 * k) as u32)),
        k < 3 ==> spec_variant_pair((0x0E38 + k) as u32, Action::Down) == Some(((0xF718 + k) as u32, (0xF89B + k) as u32)),
        k < 4 ==> spec_variant_pair((0x0E34 + k) as u32, Action::Left) == Some(((0xF701 + k) as u32, (0xF885 + k) as u32)),
        spec_variant_pair(0x0E31, Action::Left) == Some((0xF710u32, 0xF884u32)),
        spec_variant_pair(0x0E47, Action::Left) == Some((0xF712u32, 0xF889u32)),
        spec_variant_pair(0x0E4D, Action::Left) == Some((0xF711u32, 0xF899u32)),
        spec_variant_pair(0x0E0D, Action::RemoveDescender) == Some((0xF70Fu32, 0xF89Au32)),
        spec_variant_pair(0x0E10, Action::RemoveDescender) == Some((0xF700u32, 0xF89Eu32)),
        forall|u: u32| spec_variant_pair(u, Action::Stay) is None,
{
}

/// A tone mark on a consonant with nothing above it is shifted down; on an
/// ascender, shifted down and left.
pub proof fn lemma_tone_after_consonant(c: u32, t: u32, glyphs: Seq<u32>)
    requires
        0x0E01 <= c <= 0x0E2E,
        thai_tone_mark(t),
    ensures
        thai_ascending(c) ==> pua_walk(seq![c, t], glyphs, 2).ids == seq![c, spec_variant_for(t, Action::DownLeft, glyphs)],
        !thai_ascending(c) ==> pua_walk(seq![c, t], glyphs, 2).ids == seq![c, spec_variant_for(t, Action::Down, glyphs)],
{
    lemma_thai_marks(c);
    lemma_thai_marks(t);
    lemma_thai_kinds(c);
    let s0 = pua_walk(seq![c, t], glyphs, 0);
    let s1 = pua_walk(seq![c, t], glyphs, 1);
    assert(s1 == pua_step(s0, glyphs, 0));
    assert(s1.base == 0 && s1.ids == seq![c, t]);
    assert(pua_walk(seq![c, t], glyphs, 2) == pua_step(s1, glyphs, 1));
    assert(pua_walk(seq![c, t], glyphs, 2).ids =~= seq![
        c,
        spec_variant_for(t, if thai_ascending(c) { Action::DownLeft } else { Action::Down }, glyphs),
    ]);
}

/// A below-base vowel under a consonant with a removable descender takes
/// the descender away (the consonant becomes its descenderless variant);
/// under one with a strict descender it is shifted down itself.
pub proof fn lemma_below_vowel_after_descender(c: u32, v: u32, glyphs: Seq<u32>)
    requires
        0x0E01 <= c <= 0x0E2E,
        thai_below_vowel(v),
    ensures
        (c == 0x0E0D || c == 0x0E10) ==> pua_walk(seq![c, v], glyphs, 2).ids == seq![
            spec_variant_for(c, Action::RemoveDescender, glyphs),
            v,
        ],
        (c == 0x0E0E || c == 0x0E0F) ==> pua_walk(seq![c, v], glyphs, 2).ids == seq![c, spec_variant_for(v, Action::Down, glyphs)],
{
    lemma_thai_marks(c);
    lemma_thai_marks(v);
    lemma_thai_kinds(c);
    let s0 = pua_walk(seq![c, v], glyphs, 0);
    let s1 = pua_walk(seq![c, v], glyphs, 1);
    assert(s1 == pua_step(s0, glyphs, 0));
    assert(s1.base == 0 && s1.ids == seq![c, v]);
    assert(pua_walk(seq![c, v], glyphs, 2) == pua_step(s1, glyphs, 1));
    if c == 0x0E0D || c == 0x0E10 {
        assert(pua_walk(seq![c, v], glyphs, 2).ids =~= seq![spec_variant_for(c, Action::RemoveDescender, glyphs), v]);
    }
    if c == 0x0E0E || c == 0x0E0F {
        assert(pua_walk(seq![c, v], glyphs, 2).ids =~= seq![c, spec_variant_for(v, Action::Down, glyphs)]);
    }
}

} // verus!
