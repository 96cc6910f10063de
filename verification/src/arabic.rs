//! Arabic joining: the state machine that gives each letter its joining
//! form from the joining types of the letters around it, the masks that
//! select the forms, and the marking of glyphs to stretch.

use vstd::prelude::*;
use crate::buffer::{flag_or_keep, Buffer, GlyphInfo, ARABIC_HAS_STCH, MULTIPLIED, SAFE_TO_INSERT_TATWEEL, UNSAFE_TO_BREAK, UNSAFE_TO_CONCAT};
use crate::map::LayoutMap;
use crate::tag::Tag;
use crate::unicode::JoiningType;

verus! {

pub const ISOL: u8 = 0;

pub const FINA: u8 = 1;

pub const FIN2: u8 = 2;

pub const FIN3: u8 = 3;

pub const MEDI: u8 = 4;

pub const MED2: u8 = 5;

pub const INIT: u8 = 6;

pub const NONE: u8 = 7;

pub const STRETCHING_FIXED: u8 = 8;

pub const STRETCHING_REPEATING: u8 = 9;

/// The column of the state table for a joining type; transparent
/// characters have none.
pub open spec fn column(t: JoiningType) -> int {
    match t {
        JoiningType::NonJoining => 0,
        JoiningType::LeftJoining => 1,
        JoiningType::RightJoining => 2,
        JoiningType::DualJoining => 3,
        JoiningType::Alaph => 4,
        JoiningType::DalathRish => 5,
        JoiningType::Transparent => -1,
    }
}

/// Whether a joining type is right-joining or comes after it: joins on its
/// right side.
pub open spec fn joins_right(t: JoiningType) -> bool {
    column(t) >= 2
}

/// The entry of the joining state table for state `s` and column `c`: the
/// form to give the previous letter (`NONE` to leave it), the form of this
/// letter, and the next state.
pub open spec fn entry(s: int, c: int) -> (u8, u8, u8) {
    if c == 0 {
        (NONE, NONE, 0)
    } else if c == 1 {
        (NONE, ISOL, 2)
    } else if s == 0 || s == 1 || s == 6 {
        if c == 2 {
            (NONE, ISOL, 1)
        } else if c == 3 {
            (NONE, ISOL, 2)
        } else if c == 4 {
            if s == 0 {
                (NONE, ISOL, 1)
            } else if s == 1 {
                (NONE, FIN2, 5)
            } else {
                (NONE, FIN3, 5)
            }
        } else {
            (NONE, ISOL, 6)
        }
    } else {
        let prev = if s == 2 {
            INIT
        } else if s == 3 {
            MEDI
        } else if s == 4 {
            MED2
        } else {
            ISOL
        };
        let prev_form = if s == 2 || s == 3 {
            FINA
        } else {
            ISOL
        };
        if c == 2 {
            (prev, prev_form, 1)
        } else if c == 3 {
            (prev, prev_form, 3)
        } else if c == 4 {
            (prev, if s == 2 || s == 3 {
                FINA
            } else {
                FIN2
            }, if s == 2 || s == 3 {
                4
            } else {
                5
            })
        } else {
            (prev, prev_form, 6)
        }
    }
}

/// Looks up the joining state table.
pub fn table_entry(s: u8, t: JoiningType) -> (e: (u8, u8, u8))
    requires
        s < 7,
        column(t) >= 0,
    ensures
        e == entry(s as int, column(t)),
{
    let c: u8 = match t {
        JoiningType::NonJoining => 0,
        JoiningType::LeftJoining => 1,
        JoiningType::RightJoining => 2,
        JoiningType::DualJoining => 3,
        JoiningType::Alaph => 4,
        JoiningType::DalathRish => 5,
        JoiningType::Transparent => 0,
    };
    if c == 0 {
        (NONE, NONE, 0)
    } else if c == 1 {
        (NONE, ISOL, 2)
    } else if s == 0 || s == 1 || s == 6 {
        if c == 2 {
            (NONE, ISOL, 1)
        } else if c == 3 {
            (NONE, ISOL, 2)
        } else if c == 4 {
            if s == 0 {
                (NONE, ISOL, 1)
            } else if s == 1 {
                (NONE, FIN2, 5)
            } else {
                (NONE, FIN3, 5)
            }
        } else {
            (NONE, ISOL, 6)
        }
    } else {
        let prev: u8 = if s == 2 {
            INIT
        } else if s == 3 {
            MEDI
        } else if s == 4 {
            MED2
        } else {
            ISOL
        };
        let prev_form: u8 = if s == 2 || s == 3 {
            FINA
        } else {
            ISOL
        };
        if c == 2 {
            (prev, prev_form, 1)
        } else if c == 3 {
            (prev, prev_form, 3)
        } else if c == 4 {
            (prev, if s == 2 || s == 3 {
                FINA
            } else {
                FIN2
            }, if s == 2 || s == 3 {
                4
            } else {
                5
            })
        } else {
            (prev, prev_form, 6)
        }
    }
}

proof fn lemma_entry_state(s: int, c: int)
    requires
        0 <= c < 6,
    ensures
        entry(s, c).2 < 7,
{
}

/// The state that the text starts in: set by the first character of the
/// context before it that is not transparent.
pub open spec fn start_state(pre: Seq<JoiningType>, k: int) -> int
    decreases pre.len() - k,
{
    if k < 0 || k >= pre.len() {
        0
    } else if pre[k] == JoiningType::Transparent {
        start_state(pre, k + 1)
    } else {
        entry(0, column(pre[k])).2 as int
    }
}

/// Running the joining machine over the first `n` letters: the form of
/// each, the state reached, and the last letter that was not transparent.
pub open spec fn joined(types: Seq<JoiningType>, n: int, s0: int) -> (Seq<u8>, int, Option<int>)
    decreases n,
{
    if n <= 0 {
        (Seq::empty(), s0, None)
    } else {
        let (acts, st, pv) = joined(types, n - 1, s0);
        let t = types[n - 1];
        if t == JoiningType::Transparent {
            (acts.push(NONE), st, pv)
        } else {
            let e = entry(st, column(t));
            let acts2 = if e.0 != NONE && pv is Some {
                acts.update(pv.unwrap(), e.0)
            } else {
                acts
            };
            (acts2.push(e.1), e.2 as int, Some(n - 1))
        }
    }
}

/// The form that the first character of the context after the text that
/// is not transparent gives the last letter, in state `st`; `NONE` where
/// there is none.
pub open spec fn post_form(st: int, post: Seq<JoiningType>, k: int) -> u8
    decreases post.len() - k,
{
    if k < 0 || k >= post.len() {
        NONE
    } else if post[k] == JoiningType::Transparent {
        post_form(st, post, k + 1)
    } else {
        entry(st, column(post[k])).0
    }
}

/// The forms once the context after the text has had its say on the last
/// letter.
pub open spec fn finished(acts: Seq<u8>, st: int, pv: Option<int>, post: Seq<JoiningType>) -> Seq<u8> {
    let f = post_form(st, post, 0);
    if f != NONE && pv is Some {
        acts.update(pv.unwrap(), f)
    } else {
        acts
    }
}

/// The joining form of each letter of the text, from the joining types of
/// the text and of the context around it.
pub open spec fn joining_forms(types: Seq<JoiningType>, pre: Seq<JoiningType>, post: Seq<JoiningType>) -> Seq<u8> {
    let (acts, st, pv) = joined(types, types.len() as int, start_state(pre, 0));
    finished(acts, st, pv, post)
}

proof fn lemma_joined_facts(types: Seq<JoiningType>, n: int, s0: int)
    requires
        0 <= n <= types.len(),
        0 <= s0 < 7,
    ensures
        joined(types, n, s0).0.len() == n,
        0 <= joined(types, n, s0).1 < 7,
        joined(types, n, s0).2 matches Some(p) ==> 0 <= p < n,
    decreases n,
{
    if n > 0 {
        lemma_joined_facts(types, n - 1, s0);
        let st = joined(types, n - 1, s0).1;
        let t = types[n - 1];
        if t != JoiningType::Transparent {
            lemma_entry_state(st, column(t));
        }
    }
}

/// Gives every letter of the text its joining form (in its shaper byte),
/// from the joining types `types` of the text and `pre` and `post` of the
/// context before and after it; a letter whose form depends on the letter
/// after it is marked safe for tatweel, and joins that would be cut are
/// marked unsafe to concatenate.
pub fn arabic_joining(buffer: &mut Buffer, types: &[JoiningType], pre: &[JoiningType], post: &[JoiningType])
    requires
        old(buffer).wf(),
        types@.len() == old(buffer).len,
    ensures
        final(buffer).wf(),
        final(buffer).len == old(buffer).len,
        final(buffer).info@.len() == old(buffer).info@.len(),
        final(buffer).same_settings(&*old(buffer)),
        forall|i: int|
            0 <= i < old(buffer).len ==> #[trigger] final(buffer).info@[i].shaper_auxiliary == joining_forms(
                types@,
                pre@,
                post@,
            )[i],
        forall|i: int|
            0 <= i < old(buffer).info@.len() ==> (GlyphInfo { shaper_auxiliary: 0, mask: 0, ..#[trigger] final(buffer).info@[i] })
                == (GlyphInfo { shaper_auxiliary: 0, mask: 0, ..old(buffer).info@[i] }),
        forall|i: int|
            old(buffer).len <= i < old(buffer).info@.len() ==> #[trigger] final(buffer).info@[i].shaper_auxiliary
                == old(buffer).info@[i].shaper_auxiliary,
{
    let mut state: u8 = start_state_of(pre);
    let ghost s0: int = state as int;
    let len: usize = buffer.len;
    let ghost b0 = *buffer;
    let mut prev: Option<usize> = None;
    let mut i: usize = 0;
    while i < len
        invariant
            i <= len == buffer.len == b0.len,
            types@.len() == len,
            buffer.wf(),
            buffer.info@.len() == b0.info@.len(),
            buffer.same_settings(&b0),
            0 <= s0 < 7,
            ({
                let (acts, st, pv) = joined(types@, i as int, s0);
                &&& state == st
                &&& prev == (match pv {
                    Some(p) => Some(p as usize),
                    None => None::<usize>,
                })
                &&& forall|q: int| 0 <= q < i ==> #[trigger] buffer.info@[q].shaper_auxiliary == acts[q]
            }),
            forall|q: int|
                0 <= q < b0.info@.len() ==> (GlyphInfo { shaper_auxiliary: 0, mask: 0, ..#[trigger] buffer.info@[q] })
                    == (GlyphInfo { shaper_auxiliary: 0, mask: 0, ..b0.info@[q] }),
            forall|q: int| i <= q < b0.info@.len() ==> #[trigger] buffer.info@[q].shaper_auxiliary == b0.info@[q].shaper_auxiliary,
        decreases len - i,
    {
        proof {
            lemma_joined_facts(types@, i as int, s0);
        }
        let t: JoiningType = types[i];
        let transparent: bool = match t {
            JoiningType::Transparent => true,
            _ => false,
        };
        if transparent {
            set_action(buffer, i, NONE);
            i = i + 1;
            continue;
        }
        let e: (u8, u8, u8) = table_entry(state, t);
        let right: bool = match t {
            JoiningType::NonJoining | JoiningType::LeftJoining => false,
            _ => true,
        };
        if e.0 != NONE {
            if let Some(p) = prev {
                set_action(buffer, p, e.0);
            }
        }
        mark_join_flags(buffer, prev, i, e.0 != NONE, right, state);
        set_action(buffer, i, e.1);
        prev = Some(i);
        state = e.2;
        proof {
            lemma_entry_state(joined(types@, i as int, s0).1, column(t));
        }
        i = i + 1;
    }
    proof {
        lemma_joined_facts(types@, len as int, s0);
    }
    let f: u8 = post_form_of(state, post);
    if f != NONE {
        if let Some(p) = prev {
            set_action(buffer, p, f);
        }
    }
}

/// The state that the context before the text leaves the machine in.
fn start_state_of(pre: &[JoiningType]) -> (s: u8)
    ensures
        s == start_state(pre@, 0),
        s < 7,
{
    let mut k: usize = 0;
    while k < pre.len()
        invariant
            k <= pre@.len(),
            start_state(pre@, 0) == start_state(pre@, k as int),
        decreases pre@.len() - k,
    {
        let t: JoiningType = pre[k];
        match t {
            JoiningType::Transparent => {},
            _ => {
                proof {
                    lemma_entry_state(0, column(t));
                }
                return table_entry(0, t).2;
            },
        }
        k = k + 1;
    }
    0
}

/// The form that the context after the text gives the last letter.
fn post_form_of(state: u8, post: &[JoiningType]) -> (f: u8)
    requires
        state < 7,
    ensures
        f == post_form(state as int, post@, 0),
{
    let mut k: usize = 0;
    while k < post.len()
        invariant
            k <= post@.len(),
            state < 7,
            post_form(state as int, post@, 0) == post_form(state as int, post@, k as int),
        decreases post@.len() - k,
    {
        let t: JoiningType = post[k];
        match t {
            JoiningType::Transparent => {},
            _ => {
                return table_entry(state, t).0;
            },
        }
        k = k + 1;
    }
    NONE
}

/// The flags of a join marked (see `mark_join_flags`).
pub open spec fn join_flags_marked(new: Buffer, old: Buffer, prev: Option<usize>, i: int, took_form: bool, right: bool, state: u8) -> bool {
    match prev {
        Some(p) => if took_form {
            if old.produce_safe_to_insert_tatweel {
                new.glyph_flags_set(&old, SAFE_TO_INSERT_TATWEEL, p as int, i + 1, true, false)
            } else {
                new.glyph_flags_set(&old, UNSAFE_TO_BREAK | UNSAFE_TO_CONCAT, p as int, i + 1, true, false)
            }
        } else if (right || (2 <= state && state <= 5)) && old.produce_unsafe_to_concat {
            new.glyph_flags_set(&old, UNSAFE_TO_CONCAT, p as int, i + 1, false, false)
        } else {
            new == old
        },
        None => if !took_form && right && old.produce_unsafe_to_concat {
            new.glyph_flags_set(&old, UNSAFE_TO_CONCAT, 0, i + 1, false, true)
        } else {
            new == old
        },
    }
}

/// Marks the flags of a join: safe for tatweel where the last letter took
/// a form from this one, unsafe to concatenate where a join would be cut.
fn mark_join_flags(buffer: &mut Buffer, prev: Option<usize>, i: usize, took_form: bool, right: bool, state: u8)
    requires
        old(buffer).wf(),
        i < old(buffer).len,
        prev matches Some(p) ==> p < i,
    ensures
        final(buffer).wf(),
        final(buffer).len == old(buffer).len,
        final(buffer).info@.len() == old(buffer).info@.len(),
        final(buffer).same_settings(&*old(buffer)),
        forall|q: int| 0 <= q < old(buffer).info@.len() ==> #[trigger] final(buffer).info@[q].shaper_auxiliary == old(buffer).info@[q].shaper_auxiliary,
        forall|q: int|
            0 <= q < old(buffer).info@.len() ==> (GlyphInfo { shaper_auxiliary: 0, mask: 0, ..#[trigger] final(buffer).info@[q] })
                == (GlyphInfo { shaper_auxiliary: 0, mask: 0, ..old(buffer).info@[q] }),
        join_flags_marked(*final(buffer), *old(buffer), prev, i as int, took_form, right, state),
{
    let ghost before = *buffer;
    if took_form {
        if let Some(p) = prev {
            buffer.safe_to_insert_tatweel(p, i + 1);
            proof {
                lemma_flags_keep_actions(before, *buffer);
            }
        }
    } else if let Some(p) = prev {
        if right || (2 <= state && state <= 5) {
            buffer.unsafe_to_concat(p, i + 1);
            proof {
                lemma_flags_keep_actions(before, *buffer);
            }
        }
    } else if right {
        buffer.unsafe_to_concat_from_outbuffer(0, i + 1);
        proof {
            lemma_flags_keep_actions(before, *buffer);
        }
    }
}

/// Writes a joining form into the shaper byte of glyph `i`.
fn set_action(buffer: &mut Buffer, i: usize, action: u8)
    requires
        old(buffer).wf(),
        i < old(buffer).len,
    ensures
        final(buffer).wf(),
        final(buffer).info@ == old(buffer).info@.update(
            i as int,
            GlyphInfo { shaper_auxiliary: action, ..old(buffer).info@[i as int] },
        ),
        *final(buffer) == (Buffer { info: final(buffer).info, ..*old(buffer) }),
{
    let mut info: Vec<GlyphInfo> = Vec::new();
    core::mem::swap(&mut info, &mut buffer.info);
    let mut g: GlyphInfo = info[i];
    g.shaper_auxiliary = action;
    info.set(i, g);
    core::mem::swap(&mut info, &mut buffer.info);
}

/// Adding glyph flags changes no joining form.
proof fn lemma_flags_keep_actions(a: Buffer, b: Buffer)
    requires
        exists|m: u32| b.only_flags_added(&a, m),
    ensures
        b.wf(),
        b.len == a.len,
        b.info@.len() == a.info@.len(),
        b.same_settings(&a),
        forall|q: int| 0 <= q < a.info@.len() ==> #[trigger] b.info@[q].shaper_auxiliary == a.info@[q].shaper_auxiliary,
        forall|q: int|
            0 <= q < a.info@.len() ==> (GlyphInfo { shaper_auxiliary: 0, mask: 0, ..#[trigger] b.info@[q] }) == (GlyphInfo {
                shaper_auxiliary: 0,
                mask: 0,
                ..a.info@[q]
            }),
{
    let m = choose|m: u32| b.only_flags_added(&a, m);
    assert forall|q: int| 0 <= q < a.info@.len() implies #[trigger] b.info@[q].shaper_auxiliary == a.info@[q].shaper_auxiliary by {
        assert(flag_or_keep(a.info@[q], b.info@[q], m));
    }
    assert forall|q: int| 0 <= q < a.info@.len() implies (GlyphInfo { shaper_auxiliary: 0, mask: 0, ..#[trigger] b.info@[q] })
        == (GlyphInfo { shaper_auxiliary: 0, mask: 0, ..a.info@[q] }) by {
        assert(flag_or_keep(a.info@[q], b.info@[q], m));
    }
}

/// Whether a character is a Mongolian free variation selector.
pub open spec fn is_fvs(id: u32) -> bool {
    (0x180B <= id <= 0x180D) || id == 0x180F
}

/// The form of glyph `i` once every free variation selector takes the form
/// of the glyph before it.
pub open spec fn fvs_form(s: Seq<GlyphInfo>, i: int) -> u8
    decreases i,
{
    if i >= 1 && is_fvs(s[i].id) {
        fvs_form(s, i - 1)
    } else {
        s[i].shaper_auxiliary
    }
}

/// Gives every Mongolian free variation selector the joining form of the
/// letter before it.
pub fn mongolian_variation_selectors(buffer: &mut Buffer)
    requires
        old(buffer).wf(),
    ensures
        final(buffer).info@.len() == old(buffer).info@.len(),
        forall|i: int|
            0 <= i < old(buffer).info@.len() ==> #[trigger] final(buffer).info@[i] == if i < old(buffer).len {
                GlyphInfo { shaper_auxiliary: fvs_form(old(buffer).info@, i), ..old(buffer).info@[i] }
            } else {
                old(buffer).info@[i]
            },
        *final(buffer) == (Buffer { info: final(buffer).info, ..*old(buffer) }),
{
    let mut info: Vec<GlyphInfo> = Vec::new();
    core::mem::swap(&mut info, &mut buffer.info);
    let ghost s0 = info@;
    let len: usize = buffer.len;
    let mut i: usize = 1;
    if len == 0 {
        core::mem::swap(&mut info, &mut buffer.info);
        assert(buffer.info@ =~= s0);
        return;
    }
    while i < len
        invariant
            1 <= i <= len <= s0.len(),
            info@.len() == s0.len(),
            forall|k: int|
                0 <= k < s0.len() ==> #[trigger] info@[k] == if k < i {
                    GlyphInfo { shaper_auxiliary: fvs_form(s0, k), ..s0[k] }
                } else {
                    s0[k]
                },
        decreases len - i,
    {
        let id: u32 = info[i].id;
        if (0x180B <= id && id <= 0x180D) || id == 0x180F {
            let action: u8 = info[i - 1].shaper_auxiliary;
            let mut g: GlyphInfo = info[i];
            g.shaper_auxiliary = action;
            info.set(i, g);
        }
        i = i + 1;
    }
    core::mem::swap(&mut info, &mut buffer.info);
}

/// The feature tag that selects joining form `a`.
pub open spec fn form_tag(a: u8) -> u32 {
    if a == ISOL {
        0x6973_6F6C
    } else if a == FINA {
        0x6669_6E61
    } else if a == FIN2 {
        0x6669_6E32
    } else if a == FIN3 {
        0x6669_6E33
    } else if a == MEDI {
        0x6D65_6469
    } else if a == MED2 {
        0x6D65_6432
    } else {
        0x696E_6974
    }
}

/// The mask that selects joining form `a` in the map: none for `NONE` or a
/// stretching mark.
pub open spec fn form_mask(map: LayoutMap, a: u8) -> u32 {
    if a < 7 {
        match map.spec_feature_at(Tag(form_tag(a))) {
            None => 0u32,
            Some(k) => map.features@[k].one_mask,
        }
    } else {
        0
    }
}

fn form_mask_of(map: &LayoutMap, a: u8) -> (m: u32)
    requires
        map.wf(),
    ensures
        m == form_mask(*map, a),
{
    if a >= 7 {
        return 0;
    }
    let tag: u32 = if a == ISOL {
        0x6973_6F6C
    } else if a == FINA {
        0x6669_6E61
    } else if a == FIN2 {
        0x6669_6E32
    } else if a == FIN3 {
        0x6669_6E33
    } else if a == MEDI {
        0x6D65_6469
    } else if a == MED2 {
        0x6D65_6432
    } else {
        0x696E_6974
    };
    map.one_mask(Tag(tag))
}

/// Sets up the Arabic masks: joins the text (the joining types of the text
/// and its context given), gives Mongolian variation selectors the form
/// before them, and adds to each glyph the mask of its form.
pub fn setup_masks(
    map: &LayoutMap,
    buffer: &mut Buffer,
    mongolian: bool,
    types: &[JoiningType],
    pre: &[JoiningType],
    post: &[JoiningType],
)
    requires
        map.wf(),
        old(buffer).wf(),
        types@.len() == old(buffer).len,
    ensures
        final(buffer).wf(),
        final(buffer).len == old(buffer).len,
        final(buffer).info@.len() == old(buffer).info@.len(),
        final(buffer).same_settings(&*old(buffer)),
        forall|i: int|
            0 <= i < old(buffer).len ==> (#[trigger] final(buffer).info@[i]).shaper_auxiliary == if mongolian {
                fvs_form(Seq::new(old(buffer).len as nat, |k: int| GlyphInfo {
                    shaper_auxiliary: joining_forms(types@, pre@, post@)[k],
                    ..old(buffer).info@[k]
                }), i)
            } else {
                joining_forms(types@, pre@, post@)[i]
            },
        forall|i: int|
            0 <= i < old(buffer).len ==> (#[trigger] final(buffer).info@[i]).mask & form_mask(
                *map,
                final(buffer).info@[i].shaper_auxiliary,
            ) == form_mask(*map, final(buffer).info@[i].shaper_auxiliary),
{
    arabic_joining(buffer, types, pre, post);
    let ghost joined_info = buffer.info@;
    if mongolian {
        mongolian_variation_selectors(buffer);
        proof {
            let forms = Seq::new(old(buffer).len as nat, |k: int| GlyphInfo {
                shaper_auxiliary: joining_forms(types@, pre@, post@)[k],
                ..old(buffer).info@[k]
            });
            lemma_fvs_form_agrees(joined_info, forms, old(buffer).len as int);
        }
    }
    let ghost before = buffer.info@;
    let mut info: Vec<GlyphInfo> = Vec::new();
    core::mem::swap(&mut info, &mut buffer.info);
    let len: usize = buffer.len;
    let mut i: usize = 0;
    while i < len
        invariant
            i <= len <= before.len(),
            info@.len() == before.len(),
            map.wf(),
            forall|k: int|
                0 <= k < before.len() ==> #[trigger] info@[k] == if k < i {
                    GlyphInfo { mask: before[k].mask | form_mask(*map, before[k].shaper_auxiliary), ..before[k] }
                } else {
                    before[k]
                },
        decreases len - i,
    {
        let mut g: GlyphInfo = info[i];
        let m: u32 = form_mask_of(map, g.shaper_auxiliary);
        g.mask = g.mask | m;
        info.set(i, g);
        i = i + 1;
    }
    core::mem::swap(&mut info, &mut buffer.info);
    proof {
        assert forall|i: int| 0 <= i < old(buffer).len implies (#[trigger] buffer.info@[i]).mask & form_mask(
            *map,
            buffer.info@[i].shaper_auxiliary,
        ) == form_mask(*map, buffer.info@[i].shaper_auxiliary) by {
            let a = before[i].mask;
            let b = form_mask(*map, before[i].shaper_auxiliary);
            assert((a | b) & b == b) by (bit_vector);
        }
    }
}

/// Free variation selector forms depend only on the ids and forms.
#[verifier::spinoff_prover]
proof fn lemma_fvs_form_agrees(a: Seq<GlyphInfo>, b: Seq<GlyphInfo>, len: int)
    requires
        len <= a.len(),
        b.len() == len,
        forall|k: int| 0 <= k < len ==> #[trigger] a[k].id == b[k].id && a[k].shaper_auxiliary == b[k].shaper_auxiliary,
    ensures
        forall|i: int| 0 <= i < len ==> #[trigger] fvs_form(a, i) == fvs_form(b, i),
{
    assert forall|i: int| 0 <= i < len implies #[trigger] fvs_form(a, i) == fvs_form(b, i) by {
        lemma_fvs_form_agrees_at(a, b, len, i);
    }
}

proof fn lemma_fvs_form_agrees_at(a: Seq<GlyphInfo>, b: Seq<GlyphInfo>, len: int, i: int)
    requires
        0 <= i < len <= a.len(),
        b.len() == len,
        forall|k: int| 0 <= k < len ==> #[trigger] a[k].id == b[k].id && a[k].shaper_auxiliary == b[k].shaper_auxiliary,
    ensures
        fvs_form(a, i) == fvs_form(b, i),
    decreases i,
{
    assert(a[i].id == b[i].id);
    if i >= 1 {
        lemma_fvs_form_agrees_at(a, b, len, i - 1);
    }
}

/// The stretching mark of a glyph that the `stch` feature multiplied: the
/// odd components repeat, the even ones stay fixed.
pub fn stretch_action(info: &GlyphInfo) -> (r: Option<u8>)
    ensures
        r == if info.glyph_props & MULTIPLIED == 0 {
            None
        } else if info.spec_lig_comp() % 2 != 0 {
            Some(STRETCHING_REPEATING)
        } else {
            Some(STRETCHING_FIXED)
        },
{
    if !info.multiplied() {
        return None;
    }
    if info.lig_comp() % 2 != 0 {
        Some(STRETCHING_REPEATING)
    } else {
        Some(STRETCHING_FIXED)
    }
}

/// After `stch` has been applied, marks each glyph it multiplied as fixed
/// or repeating and notes that the buffer has stretching to do; does
/// nothing where the map has no `stch` feature. Never asks for a pause.
pub fn record_stch(map: &LayoutMap, buffer: &mut Buffer) -> (r: bool)
    requires
        map.wf(),
        old(buffer).wf(),
    ensures
        !r,
        ({
            let on = match map.spec_feature_at(Tag(0x7374_6368)) {
                None => false,
                Some(k) => map.features@[k].one_mask != 0,
            };
            let any = exists|i: int| 0 <= i < old(buffer).len && (#[trigger] old(buffer).info@[i]).glyph_props & MULTIPLIED != 0;
            &&& !on ==> *final(buffer) == *old(buffer)
            &&& on ==> final(buffer).info@.len() == old(buffer).info@.len()
            &&& on ==> forall|i: int|
                0 <= i < old(buffer).info@.len() ==> #[trigger] final(buffer).info@[i] == if i < old(buffer).len
                    && old(buffer).info@[i].glyph_props & MULTIPLIED != 0 {
                    GlyphInfo {
                        shaper_auxiliary: if old(buffer).info@[i].spec_lig_comp() % 2 != 0 {
                            STRETCHING_REPEATING
                        } else {
                            STRETCHING_FIXED
                        },
                        ..old(buffer).info@[i]
                    }
                } else {
                    old(buffer).info@[i]
                }
            &&& on ==> final(buffer).scratch_flags == if any {
                old(buffer).scratch_flags | ARABIC_HAS_STCH
            } else {
                old(buffer).scratch_flags
            }
            &&& on ==> *final(buffer) == (Buffer {
                info: final(buffer).info,
                scratch_flags: final(buffer).scratch_flags,
                ..*old(buffer)
            })
        }),
{
    if map.one_mask(Tag(0x7374_6368)) == 0 {
        return false;
    }
    let mut info: Vec<GlyphInfo> = Vec::new();
    core::mem::swap(&mut info, &mut buffer.info);
    let ghost s0 = info@;
    let len: usize = buffer.len;
    let mut found: bool = false;
    let mut i: usize = 0;
    while i < len
        invariant
            i <= len <= s0.len(),
            info@.len() == s0.len(),
            found == exists|k: int| 0 <= k < i && (#[trigger] s0[k]).glyph_props & MULTIPLIED != 0,
            forall|k: int|
                0 <= k < s0.len() ==> #[trigger] info@[k] == if k < i && s0[k].glyph_props & MULTIPLIED != 0 {
                    GlyphInfo {
                        shaper_auxiliary: if s0[k].spec_lig_comp() % 2 != 0 {
                            STRETCHING_REPEATING
                        } else {
                            STRETCHING_FIXED
                        },
                        ..s0[k]
                    }
                } else {
                    s0[k]
                },
        decreases len - i,
    {
        let g0: GlyphInfo = info[i];
        match stretch_action(&g0) {
            Some(a) => {
                let mut g: GlyphInfo = g0;
                g.shaper_auxiliary = a;
                info.set(i, g);
                found = true;
            },
            None => {},
        }
        i = i + 1;
    }
    core::mem::swap(&mut info, &mut buffer.info);
    if found {
        buffer.scratch_flags = buffer.scratch_flags | ARABIC_HAS_STCH;
    }
    false
}

} // verus!
