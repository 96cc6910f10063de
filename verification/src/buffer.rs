//! The glyph buffer that shaping works on: per-glyph information with its
//! packed property bits, and a buffer that reads an input stream and writes
//! an output stream in one pass, merging clusters as glyphs combine.

use vstd::prelude::*;
use vstd::std_specs::iter::IteratorSpec;
use crate::unicode::{Script, GeneralCategory, SpaceFallback, gc_code, gc_of_code, gc_is_mark,
    spec_space_fallback_byte, spec_space_fallback_of_byte};

verus! {

pub const IS_LIG_BASE: u8 = 0x10;

pub const UNSAFE_TO_BREAK: u32 = 0x0000_0001;

pub const UNSAFE_TO_CONCAT: u32 = 0x0000_0002;

pub const SAFE_TO_INSERT_TATWEEL: u32 = 0x0000_0004;

pub const GLYPH_FLAGS_DEFINED: u32 = 0x0000_0007;

pub const HAS_NON_ASCII: u32 = 0x0000_0001;

pub const HAS_DEFAULT_IGNORABLES: u32 = 0x0000_0002;

pub const HAS_SPACE_FALLBACK: u32 = 0x0000_0004;

pub const HAS_GPOS_ATTACHMENT: u32 = 0x0000_0008;

pub const HAS_CGJ: u32 = 0x0000_0010;

pub const HAS_GLYPH_FLAGS: u32 = 0x0000_0020;

pub const HAS_BROKEN_SYLLABLE: u32 = 0x0000_0040;

pub const HAS_VARIATION_SELECTOR_FALLBACK: u32 = 0x0000_0080;

pub const ARABIC_HAS_STCH: u32 = 0x0000_0100;

pub const HAS_CONTINUATIONS: u32 = 0x0000_0200;

pub const PROPS_GENERAL_CATEGORY: u16 = 0x001F;

pub const PROPS_IGNORABLE: u16 = 0x0020;

pub const PROPS_HIDDEN: u16 = 0x0040;

pub const PROPS_CONTINUATION: u16 = 0x0080;

pub const PROPS_CF_ZWJ: u16 = 0x0100;

pub const PROPS_CF_ZWNJ: u16 = 0x0200;

pub const PROPS_CF_VS: u16 = 0x0400;

pub const BASE_GLYPH: u16 = 0x02;

pub const LIGATURE: u16 = 0x04;

pub const MARK: u16 = 0x08;

pub const SUBSTITUTED: u16 = 0x10;

pub const LIGATED: u16 = 0x20;

pub const MULTIPLIED: u16 = 0x40;

#[derive(Clone, Copy, PartialEq, Eq, Structural, Debug)]
pub enum Direction {
    LeftToRight,
    RightToLeft,
    TopToBottom,
    BottomToTop,
}

impl Direction {
    pub open spec fn spec_is_horizontal(self) -> bool {
        self == Direction::LeftToRight || self == Direction::RightToLeft
    }

    pub open spec fn spec_is_backward(self) -> bool {
        self == Direction::RightToLeft || self == Direction::BottomToTop
    }

    pub open spec fn spec_reverse(self) -> Direction {
        match self {
            Direction::LeftToRight => Direction::RightToLeft,
            Direction::RightToLeft => Direction::LeftToRight,
            Direction::TopToBottom => Direction::BottomToTop,
            Direction::BottomToTop => Direction::TopToBottom,
        }
    }

    pub fn is_horizontal(self) -> (r: bool)
        ensures
            r == self.spec_is_horizontal(),
    {
        match self {
            Direction::LeftToRight | Direction::RightToLeft => true,
            _ => false,
        }
    }

    pub fn is_vertical(self) -> (r: bool)
        ensures
            r == !self.spec_is_horizontal(),
    {
        !self.is_horizontal()
    }

    pub fn is_backward(self) -> (r: bool)
        ensures
            r == self.spec_is_backward(),
    {
        match self {
            Direction::RightToLeft | Direction::BottomToTop => true,
            _ => false,
        }
    }

    pub fn reverse(self) -> (r: Direction)
        ensures
            r == self.spec_reverse(),
    {
        match self {
            Direction::LeftToRight => Direction::RightToLeft,
            Direction::RightToLeft => Direction::LeftToRight,
            Direction::TopToBottom => Direction::BottomToTop,
            Direction::BottomToTop => Direction::TopToBottom,
        }
    }
}

/// Reversing a direction twice gives it back, and keeps its axis while
/// flipping whether it runs backward.
pub proof fn lemma_direction_reverse(d: Direction)
    ensures
        d.spec_reverse().spec_reverse() == d,
        d.spec_reverse().spec_is_horizontal() == d.spec_is_horizontal(),
        d.spec_reverse().spec_is_backward() == !d.spec_is_backward(),
{
}

impl Default for Direction {
    fn default() -> (d: Direction)
        ensures
            d == Direction::LeftToRight,
    {
        Direction::LeftToRight
    }
}

#[derive(Clone, Copy, PartialEq, Eq, Structural, Debug)]
pub enum ClusterLevel {
    MonotoneGraphemes,
    MonotoneCharacters,
    Characters,
    Graphemes,
}

impl ClusterLevel {
    pub open spec fn spec_is_monotone(self) -> bool {
        self == ClusterLevel::MonotoneGraphemes || self == ClusterLevel::MonotoneCharacters
    }

    pub open spec fn spec_is_graphemes(self) -> bool {
        self == ClusterLevel::MonotoneGraphemes || self == ClusterLevel::Graphemes
    }

    pub fn is_monotone(self) -> (r: bool)
        ensures
            r == self.spec_is_monotone(),
    {
        match self {
            ClusterLevel::MonotoneGraphemes | ClusterLevel::MonotoneCharacters => true,
            _ => false,
        }
    }

    pub fn is_graphemes(self) -> (r: bool)
        ensures
            r == self.spec_is_graphemes(),
    {
        match self {
            ClusterLevel::MonotoneGraphemes | ClusterLevel::Graphemes => true,
            _ => false,
        }
    }
}

impl Default for ClusterLevel {
    fn default() -> (c: ClusterLevel)
        ensures
            c == ClusterLevel::MonotoneGraphemes,
    {
        ClusterLevel::MonotoneGraphemes
    }
}

/// One glyph of the buffer. Before glyph mapping `id` holds the character;
/// `unicode_props` packs the general category (bits 0-4), the ignorable,
/// hidden and continuation flags, the ZWJ/ZWNJ/variation-selector flags,
/// and the modified combining class or space fallback (bits 8-15).
#[derive(Clone, Copy, Debug, PartialEq, Eq, Structural)]
pub struct GlyphInfo {
    pub id: u32,
    pub mask: u32,
    pub cluster: u32,
    pub unicode_props: u16,
    pub glyph_props: u16,
    pub lig_props: u8,
    pub syllable: u8,
    pub shaper_category: u8,
    pub shaper_auxiliary: u8,
    pub glyph_index: u32,
}

impl GlyphInfo {
    pub open spec fn spec_general_category(self) -> u16 {
        self.unicode_props & 0x1Fu16
    }

    pub open spec fn spec_is_unicode_mark(self) -> bool {
        gc_is_mark(gc_of_code(self.spec_general_category() as u8))
    }

    pub open spec fn spec_is_ligature(self) -> bool {
        self.glyph_props & LIGATURE != 0
    }

    pub open spec fn spec_is_lig_base(self) -> bool {
        self.lig_props & IS_LIG_BASE != 0
    }

    pub open spec fn spec_lig_comp(self) -> u8 {
        if self.spec_is_lig_base() {
            0
        } else {
            self.lig_props & 0x0Fu8
        }
    }

    pub open spec fn spec_lig_num_comps(self) -> u8 {
        if self.spec_is_ligature() && self.spec_is_lig_base() {
            self.lig_props & 0x0Fu8
        } else {
            1
        }
    }

    pub open spec fn spec_is_unicode_space(self) -> bool {
        self.spec_general_category() == 29
    }

    pub fn new(codepoint: u32, cluster: u32) -> (g: GlyphInfo)
        ensures
            g == (GlyphInfo {
                id: codepoint,
                cluster,
                mask: 0,
                unicode_props: 0,
                glyph_props: 0,
                lig_props: 0,
                syllable: 0,
                shaper_category: 0,
                shaper_auxiliary: 0,
                glyph_index: 0,
            }),
    {
        GlyphInfo {
            id: codepoint,
            cluster,
            mask: 0,
            unicode_props: 0,
            glyph_props: 0,
            lig_props: 0,
            syllable: 0,
            shaper_category: 0,
            shaper_auxiliary: 0,
            glyph_index: 0,
        }
    }

    pub fn general_category(&self) -> (r: u16)
        ensures
            r == self.spec_general_category(),
    {
        self.unicode_props & PROPS_GENERAL_CATEGORY
    }

    /// Replaces the stored general category, keeping every other bit.
    pub fn set_general_category(&mut self, gc: u16)
        ensures
            *final(self) == (GlyphInfo {
                unicode_props: (gc & 0x1Fu16) | (old(self).unicode_props & !0x1Fu16),
                ..*old(self)
            }),
            final(self).spec_general_category() == gc & 0x1Fu16,
    {
        let ghost p: u16 = self.unicode_props;
        self.unicode_props = (gc & PROPS_GENERAL_CATEGORY) | (self.unicode_props
            & !PROPS_GENERAL_CATEGORY);
        assert(((gc & 0x1Fu16) | (p & !0x1Fu16)) & 0x1Fu16 == gc & 0x1Fu16) by (bit_vector);
    }

    pub fn is_unicode_mark(&self) -> (r: bool)
        ensures
            r == self.spec_is_unicode_mark(),
    {
        GeneralCategory::from_stored(self.general_category()).is_mark()
    }

    /// The modified combining class of a mark; zero for anything else.
    pub fn modified_combining_class(&self) -> (r: u8)
        ensures
            r == if self.spec_is_unicode_mark() {
                (self.unicode_props >> 8u16) as u8
            } else {
                0
            },
    {
        if !self.is_unicode_mark() {
            return 0;
        }
        (self.unicode_props >> 8u16) as u8
    }

    pub fn set_modified_combining_class(&mut self, ccc: u8)
        ensures
            *final(self) == (GlyphInfo {
                unicode_props: (old(self).unicode_props & 0xFFu16) | ((ccc as u16) << 8u16),
                ..*old(self)
            }),
            (final(self).unicode_props >> 8u16) as u8 == ccc,
            final(self).spec_general_category() == old(self).spec_general_category(),
    {
        let low: u16 = self.unicode_props & 0xFF;
        self.unicode_props = low | ((ccc as u16) << 8u16);
        let ghost p: u16 = old(self).unicode_props;
        assert((((p & 0xFFu16) | ((ccc as u16) << 8u16)) >> 8u16) as u8 == ccc && ((p & 0xFFu16) | ((ccc
            as u16) << 8u16)) & 0x1Fu16 == p & 0x1Fu16) by (bit_vector);
    }

    pub fn is_default_ignorable(&self) -> (r: bool)
        ensures
            r == (self.unicode_props & PROPS_IGNORABLE != 0 && self.glyph_props & SUBSTITUTED == 0),
    {
        self.unicode_props & PROPS_IGNORABLE != 0 && !self.substituted()
    }

    pub fn clear_default_ignorable(&mut self)
        ensures
            *final(self) == (GlyphInfo {
                unicode_props: old(self).unicode_props & !PROPS_IGNORABLE,
                ..*old(self)
            }),
    {
        self.unicode_props = self.unicode_props & !PROPS_IGNORABLE;
    }

    pub fn is_hidden(&self) -> (r: bool)
        ensures
            r == (self.unicode_props & PROPS_HIDDEN != 0),
    {
        self.unicode_props & PROPS_HIDDEN != 0
    }

    pub fn unhide(&mut self)
        ensures
            *final(self) == (GlyphInfo {
                unicode_props: old(self).unicode_props & !PROPS_HIDDEN,
                ..*old(self)
            }),
    {
        self.unicode_props = self.unicode_props & !PROPS_HIDDEN;
    }

    /// Fills in the Unicode properties of a fresh glyph from what the
    /// character database says of its character: its general category,
    /// whether it is default-ignorable, and its modified combining class.
    /// `valid` is false when `id` is not a Unicode scalar value, which leaves
    /// the glyph untouched.
    pub fn init_unicode_props(
        &mut self,
        valid: bool,
        gc: GeneralCategory,
        default_ignorable: bool,
        ccc: u8,
        scratch_flags: &mut u32,
    )
        ensures
            !valid ==> *final(self) == *old(self) && *final(scratch_flags) == *old(scratch_flags),
            valid ==> *final(self) == (GlyphInfo {
                unicode_props: spec_unicode_props(old(self).id, gc, default_ignorable, ccc),
                ..*old(self)
            }),
            valid ==> *final(scratch_flags) == spec_scratch_after_props(
                *old(scratch_flags),
                old(self).id,
                default_ignorable,
            ),
    {
        if !valid {
            return ;
        }
        let mut props: u16 = gc.to_raw() as u16;
        if self.id >= 0x80 {
            *scratch_flags = *scratch_flags | HAS_NON_ASCII;
            if default_ignorable {
                props = props | PROPS_IGNORABLE;
                *scratch_flags = *scratch_flags | HAS_DEFAULT_IGNORABLES;
                let id: u32 = self.id;
                if id == 0x200C {
                    props = props | PROPS_CF_ZWNJ;
                } else if id == 0x200D {
                    props = props | PROPS_CF_ZWJ;
                } else if (0x180B <= id && id <= 0x180D) || id == 0x180F {
                    props = props | PROPS_HIDDEN;
                } else if 0xE0020 <= id && id <= 0xE007F {
                    props = props | PROPS_HIDDEN;
                } else if id == 0x034F {
                    props = props | PROPS_HIDDEN;
                    *scratch_flags = *scratch_flags | HAS_CGJ;
                }
            }
            if gc.is_mark() {
                props = props | PROPS_CONTINUATION;
                props = props | ((ccc as u16) << 8u16);
            }
        }
        self.unicode_props = props;
    }

    fn is_unicode_space(&self) -> (r: bool)
        ensures
            r == self.spec_is_unicode_space(),
    {
        self.general_category() == 29
    }

    /// Records how a space without a glyph of its own is to be drawn; only a
    /// space separator takes it.
    pub fn set_space_fallback(&mut self, s: SpaceFallback)
        ensures
            !old(self).spec_is_unicode_space() ==> *final(self) == *old(self),
            old(self).spec_is_unicode_space() ==> *final(self) == (GlyphInfo {
                unicode_props: (old(self).unicode_props & 0xFFu16) | ((spec_space_fallback_byte(
                    s,
                ) as u16) << 8u16),
                ..*old(self)
            }),
    {
        if !self.is_unicode_space() {
            return ;
        }
        let low: u16 = self.unicode_props & 0xFF;
        self.unicode_props = low | ((s.to_byte() as u16) << 8u16);
    }

    pub fn space_fallback(&self) -> (r: Option<SpaceFallback>)
        ensures
            !self.spec_is_unicode_space() ==> r is None,
            self.spec_is_unicode_space() ==> r == spec_space_fallback_of_byte(
                (self.unicode_props >> 8u16) as u8,
            ),
    {
        if !self.is_unicode_space() {
            return None;
        }
        SpaceFallback::from_byte((self.unicode_props >> 8u16) as u8)
    }

    pub fn is_variation_selector(&self) -> (r: bool)
        ensures
            r == (self.spec_general_category() == 2 && self.unicode_props & PROPS_CF_VS != 0),
    {
        self.general_category() == 2 && self.unicode_props & PROPS_CF_VS != 0
    }

    /// Marks the glyph as a variation selector, or turns it back into a
    /// nonspacing mark.
    pub fn set_variation_selector(&mut self, on: bool)
        ensures
            on ==> final(self).spec_general_category() == 2 && final(self).unicode_props
                & PROPS_CF_VS != 0,
            !on ==> final(self).spec_general_category() == 12,
            !on ==> *final(self) == (GlyphInfo {
                unicode_props: (12u16 & 0x1Fu16) | (old(self).unicode_props & !0x1Fu16),
                ..*old(self)
            }),
            final(self).id == old(self).id && final(self).cluster == old(self).cluster
                && final(self).mask == old(self).mask && final(self).glyph_props == old(self).glyph_props,
    {
        assert(2u16 & 0x1Fu16 == 2 && 12u16 & 0x1Fu16 == 12) by (bit_vector);
        if on {
            self.set_general_category(2);
            let ghost p: u16 = self.unicode_props;
            self.unicode_props = self.unicode_props | PROPS_CF_VS;
            assert(p & 0x1Fu16 == 2 ==> (p | 0x0400u16) & 0x1Fu16 == 2 && (p | 0x0400u16)
                & 0x0400u16 != 0) by (bit_vector);
        } else {
            self.set_general_category(12);
        }
    }

    pub fn is_continuation(&self) -> (r: bool)
        ensures
            r == (self.unicode_props & PROPS_CONTINUATION != 0),
    {
        self.unicode_props & PROPS_CONTINUATION != 0
    }

    pub fn reset_continuation(&mut self)
        ensures
            *final(self) == (GlyphInfo {
                unicode_props: old(self).unicode_props & !PROPS_CONTINUATION,
                ..*old(self)
            }),
    {
        self.unicode_props = self.unicode_props & !PROPS_CONTINUATION;
    }

    pub fn set_continuation(&mut self)
        ensures
            *final(self) == (GlyphInfo {
                unicode_props: old(self).unicode_props | PROPS_CONTINUATION,
                ..*old(self)
            }),
    {
        self.unicode_props = self.unicode_props | PROPS_CONTINUATION;
    }

    pub fn is_mark(&self) -> (r: bool)
        ensures
            r == (self.glyph_props & MARK != 0),
    {
        self.glyph_props & MARK != 0
    }

    pub fn is_base_glyph(&self) -> (r: bool)
        ensures
            r == (self.glyph_props & BASE_GLYPH != 0),
    {
        self.glyph_props & BASE_GLYPH != 0
    }

    pub fn is_ligature(&self) -> (r: bool)
        ensures
            r == self.spec_is_ligature(),
    {
        self.glyph_props & LIGATURE != 0
    }

    pub fn substituted(&self) -> (r: bool)
        ensures
            r == (self.glyph_props & SUBSTITUTED != 0),
    {
        self.glyph_props & SUBSTITUTED != 0
    }

    pub fn ligated(&self) -> (r: bool)
        ensures
            r == (self.glyph_props & LIGATED != 0),
    {
        self.glyph_props & LIGATED != 0
    }

    pub fn multiplied(&self) -> (r: bool)
        ensures
            r == (self.glyph_props & MULTIPLIED != 0),
    {
        self.glyph_props & MULTIPLIED != 0
    }

    pub fn ligated_and_didnt_multiply(&self) -> (r: bool)
        ensures
            r == (self.glyph_props & LIGATED != 0 && self.glyph_props & MULTIPLIED == 0),
    {
        self.ligated() && !self.multiplied()
    }

    pub fn clear_substituted(&mut self)
        ensures
            *final(self) == (GlyphInfo {
                glyph_props: old(self).glyph_props & !SUBSTITUTED,
                ..*old(self)
            }),
    {
        self.glyph_props = self.glyph_props & !SUBSTITUTED;
    }

    pub fn clear_ligated_and_multiplied(&mut self)
        ensures
            *final(self) == (GlyphInfo {
                glyph_props: old(self).glyph_props & !(LIGATED | MULTIPLIED),
                ..*old(self)
            }),
    {
        self.glyph_props = self.glyph_props & !(LIGATED | MULTIPLIED);
    }

    fn is_unicode_format(&self) -> (r: bool)
        ensures
            r == (self.spec_general_category() == 2),
    {
        self.general_category() == 2
    }

    pub fn is_zwnj(&self) -> (r: bool)
        ensures
            r == (self.spec_general_category() == 2 && self.unicode_props & PROPS_CF_ZWNJ != 0),
    {
        self.is_unicode_format() && self.unicode_props & PROPS_CF_ZWNJ != 0
    }

    pub fn is_zwj(&self) -> (r: bool)
        ensures
            r == (self.spec_general_category() == 2 && self.unicode_props & PROPS_CF_ZWJ != 0),
    {
        self.is_unicode_format() && self.unicode_props & PROPS_CF_ZWJ != 0
    }

    pub fn lig_id(&self) -> (r: u8)
        ensures
            r == self.lig_props >> 5u8,
    {
        self.lig_props >> 5u8
    }

    fn is_lig_base(&self) -> (r: bool)
        ensures
            r == self.spec_is_lig_base(),
    {
        self.lig_props & IS_LIG_BASE != 0
    }

    /// Which component of a ligature this glyph attaches to; zero for the
    /// ligature itself.
    pub fn lig_comp(&self) -> (r: u8)
        ensures
            r == self.spec_lig_comp(),
    {
        if self.is_lig_base() {
            0
        } else {
            self.lig_props & 0x0F
        }
    }

    /// How many components a ligature was made of; one for anything else.
    pub fn lig_num_comps(&self) -> (r: u8)
        ensures
            r == self.spec_lig_num_comps(),
    {
        if self.is_ligature() && self.is_lig_base() {
            self.lig_props & 0x0F
        } else {
            1
        }
    }

    pub fn lig_num_comps_in_ligation(&self) -> (r: u8)
        ensures
            r == if self.glyph_props & MULTIPLIED != 0 && self.spec_lig_comp() != 0 {
                0
            } else {
                self.spec_lig_num_comps()
            },
    {
        if self.multiplied() && self.lig_comp() != 0 {
            0
        } else {
            self.lig_num_comps()
        }
    }

    pub fn set_lig_props_for_ligature(&mut self, lig_id: u8, num_comps: u8)
        requires
            lig_id < 8,
        ensures
            *final(self) == (GlyphInfo {
                lig_props: ((lig_id << 5u8) | IS_LIG_BASE | (num_comps & 0x0Fu8)) as u8,
                ..*old(self)
            }),
            final(self).lig_props >> 5u8 == lig_id,
            final(self).spec_is_lig_base(),
            final(self).spec_lig_comp() == 0,
            final(self).spec_is_ligature() ==> final(self).spec_lig_num_comps() == num_comps
                & 0x0Fu8,
    {
        self.lig_props = (lig_id << 5u8) | IS_LIG_BASE | (num_comps & 0x0F);
        assert(lig_id < 8 ==> (((lig_id << 5u8) | 0x10u8 | (num_comps & 0x0Fu8)) >> 5u8 == lig_id
            && ((lig_id << 5u8) | 0x10u8 | (num_comps & 0x0Fu8)) & 0x10u8 != 0 && (((lig_id
            << 5u8) | 0x10u8 | (num_comps & 0x0Fu8)) & 0x0Fu8) == num_comps & 0x0Fu8))
            by (bit_vector);
    }

    pub fn set_lig_props_for_mark(&mut self, lig_id: u8, lig_comp: u8)
        requires
            lig_id < 8,
        ensures
            *final(self) == (GlyphInfo {
                lig_props: ((lig_id << 5u8) | (lig_comp & 0x0Fu8)) as u8,
                ..*old(self)
            }),
            final(self).lig_props >> 5u8 == lig_id,
            final(self).spec_lig_comp() == lig_comp & 0x0Fu8,
    {
        self.lig_props = (lig_id << 5u8) | (lig_comp & 0x0F);
        assert(lig_id < 8 ==> (((lig_id << 5u8) | (lig_comp & 0x0Fu8)) >> 5u8 == lig_id && ((
        lig_id << 5u8) | (lig_comp & 0x0Fu8)) & 0x10u8 == 0 && (((lig_id << 5u8) | (lig_comp
            & 0x0Fu8)) & 0x0Fu8) == lig_comp & 0x0Fu8)) by (bit_vector);
    }

    pub fn set_lig_props_for_component(&mut self, comp: u8)
        ensures
            *final(self) == (GlyphInfo { lig_props: comp & 0x0Fu8, ..*old(self) }),
            final(self).spec_lig_comp() == comp & 0x0Fu8,
    {
        self.set_lig_props_for_mark(0, comp);
        assert(((0u8 << 5u8) | (comp & 0x0Fu8)) == comp & 0x0Fu8) by (bit_vector);
    }
}

/// The packed Unicode properties a glyph gets from its character.
pub open spec fn spec_unicode_props(id: u32, gc: GeneralCategory, ignorable: bool, ccc: u8) -> u16 {
    let base = gc_code(gc) as u16;
    if id < 0x80 {
        base
    } else {
        let with_ign = if ignorable {
            if id == 0x200C {
                base | PROPS_IGNORABLE | PROPS_CF_ZWNJ
            } else if id == 0x200D {
                base | PROPS_IGNORABLE | PROPS_CF_ZWJ
            } else if (0x180B <= id <= 0x180D) || id == 0x180F || (0xE0020 <= id <= 0xE007F) || id
                == 0x034F {
                base | PROPS_IGNORABLE | PROPS_HIDDEN
            } else {
                base | PROPS_IGNORABLE
            }
        } else {
            base
        };
        if gc_is_mark(gc) {
            with_ign | PROPS_CONTINUATION | ((ccc as u16) << 8u16)
        } else {
            with_ign
        }
    }
}

/// The buffer's scratch flags after a glyph's properties are filled in.
pub open spec fn spec_scratch_after_props(flags: u32, id: u32, ignorable: bool) -> u32 {
    if id < 0x80 {
        flags
    } else if !ignorable {
        flags | HAS_NON_ASCII
    } else if id == 0x034F {
        flags | HAS_NON_ASCII | HAS_DEFAULT_IGNORABLES | HAS_CGJ
    } else {
        flags | HAS_NON_ASCII | HAS_DEFAULT_IGNORABLES
    }
}

#[derive(Clone, Copy, Debug, PartialEq, Eq, Structural)]
pub struct GlyphPosition {
    pub x_advance: i32,
    pub y_advance: i32,
    pub x_offset: i32,
    pub y_offset: i32,
    pub attach_chain: i16,
    pub attach_type: u8,
}

impl GlyphPosition {
    pub open spec fn zero() -> GlyphPosition {
        GlyphPosition {
            x_advance: 0,
            y_advance: 0,
            x_offset: 0,
            y_offset: 0,
            attach_chain: 0,
            attach_type: 0,
        }
    }

    pub fn new() -> (p: GlyphPosition)
        ensures
            p == GlyphPosition::zero(),
    {
        GlyphPosition {
            x_advance: 0,
            y_advance: 0,
            x_offset: 0,
            y_offset: 0,
            attach_chain: 0,
            attach_type: 0,
        }
    }
}


pub const CONTEXT_LENGTH: usize = 5;

pub const MAX_LEN_FACTOR: usize = 64;

pub const MAX_LEN_MIN: usize = 16_384;

pub const MAX_LEN_DEFAULT: usize = 0x3FFF_FFFF;

pub const MAX_OPS_FACTOR: i32 = 1024;

pub const MAX_OPS_MIN: i32 = 16_384;

pub const MAX_OPS_DEFAULT: i32 = 0x1FFF_FFFF;

/// The number of UTF-8 bytes that encode `c`.
pub open spec fn utf8_len(c: char) -> nat {
    if (c as u32) < 0x80 {
        1
    } else if (c as u32) < 0x800 {
        2
    } else if (c as u32) < 0x10000 {
        3
    } else {
        4
    }
}

/// The byte offset of character `i` of `s` in its UTF-8 encoding.
pub open spec fn byte_offset(s: Seq<char>, i: int) -> nat
    decreases i,
{
    if i <= 0 {
        0
    } else {
        byte_offset(s, i - 1) + utf8_len(s[i - 1])
    }
}

/// The glyphs a text adds to the buffer: one per character, clustered by
/// the character's byte offset.
pub open spec fn text_glyphs(s: Seq<char>) -> Seq<GlyphInfo> {
    Seq::new(s.len(), |i: int| spec_new_glyph(s[i] as u32, byte_offset(s, i) as u32))
}

pub open spec fn spec_new_glyph(codepoint: u32, cluster: u32) -> GlyphInfo {
    GlyphInfo {
        id: codepoint,
        cluster,
        mask: 0,
        unicode_props: 0,
        glyph_props: 0,
        lig_props: 0,
        syllable: 0,
        shaper_category: 0,
        shaper_auxiliary: 0,
        glyph_index: 0,
    }
}

/// A shaping buffer. Glyphs `0 .. len` of `info` are the input; shaping
/// reads them at `idx` and, while `have_output` is set, writes an output
/// stream of `out_len` glyphs. As long as nothing has changed the output is
/// a prefix of the input, and it lives in `info` itself (`out_lockstep`).
pub struct Buffer {
    pub info: Vec<GlyphInfo>,
    pub pos: Vec<GlyphPosition>,
    pub out_info: Vec<GlyphInfo>,
    pub out_lockstep: bool,
    pub idx: usize,
    pub len: usize,
    pub out_len: usize,
    pub have_output: bool,
    pub have_positions: bool,
    pub successful: bool,
    pub shaping_failed: bool,
    pub direction: Direction,
    pub invisible: Option<u16>,
    pub not_found_variation_selector: Option<u16>,
    pub script: Option<Script>,
    pub beginning_of_text: bool,
    pub insert_dotted_circle: bool,
    pub pre_context: [u32; 5],
    pub post_context: [u32; 5],
    pub pre_context_len: usize,
    pub post_context_len: usize,
    pub edit_journal: Vec<(usize, isize)>,
    pub recording_edits: bool,
    pub preserve_default_ignorables: bool,
    pub remove_default_ignorables: bool,
    pub cluster_level: ClusterLevel,
    pub produce_unsafe_to_concat: bool,
    pub produce_safe_to_insert_tatweel: bool,
    pub scratch_flags: u32,
    pub max_len: usize,
    pub max_ops: i32,
    pub serial: u8,
}

impl Buffer {
    /// The buffer's internal consistency.
    pub open spec fn wf(&self) -> bool {
        &&& self.len <= self.info.len()
        &&& self.info.len() <= self.pos.len()
        &&& self.idx <= self.len
        &&& (self.have_output && !self.out_lockstep) ==> self.out_len <= self.out_info.len()
        &&& (self.have_output && self.out_lockstep) ==> self.out_len <= self.idx
        &&& !self.have_output ==> self.out_len == 0 && !self.out_lockstep
        &&& self.pre_context_len <= 5
        &&& self.post_context_len <= 5
    }

    /// The input glyphs.
    pub open spec fn in_view(&self) -> Seq<GlyphInfo> {
        self.info@.take(self.len as int)
    }

    /// The output glyphs written so far.
    pub open spec fn out_view(&self) -> Seq<GlyphInfo> {
        if self.have_output && !self.out_lockstep {
            self.out_info@.take(self.out_len as int)
        } else {
            self.info@.take(self.out_len as int)
        }
    }

    /// The input glyphs not yet consumed.
    pub open spec fn rest_view(&self) -> Seq<GlyphInfo> {
        self.info@.subrange(self.idx as int, self.len as int)
    }

    /// The state of a buffer with nothing in it.
    pub open spec fn is_fresh(&self) -> bool {
        &&& self.wf()
        &&& self.len == 0
        &&& self.idx == 0
        &&& self.out_len == 0
        &&& !self.have_output
        &&& !self.have_positions
        &&& self.successful
        &&& !self.shaping_failed
        &&& self.direction == Direction::LeftToRight
        &&& self.invisible is None
        &&& self.not_found_variation_selector is None
        &&& self.script is None
        &&& !self.beginning_of_text
        &&& self.insert_dotted_circle
        &&& self.pre_context_len == 0
        &&& self.post_context_len == 0
        &&& self.edit_journal@.len() == 0
        &&& !self.recording_edits
        &&& !self.preserve_default_ignorables
        &&& !self.remove_default_ignorables
        &&& self.cluster_level == ClusterLevel::MonotoneGraphemes
        &&& !self.produce_unsafe_to_concat
        &&& !self.produce_safe_to_insert_tatweel
        &&& self.scratch_flags == 0
        &&& self.max_len == MAX_LEN_DEFAULT
        &&& self.max_ops == MAX_OPS_DEFAULT
        &&& self.serial == 0
    }

    pub fn new() -> (b: Buffer)
        ensures
            b.is_fresh(),
            b.info@.len() == 0,
    {
        Buffer {
            info: Vec::new(),
            pos: Vec::new(),
            out_info: Vec::new(),
            out_lockstep: false,
            idx: 0,
            len: 0,
            out_len: 0,
            have_output: false,
            have_positions: false,
            successful: true,
            shaping_failed: false,
            direction: Direction::LeftToRight,
            invisible: None,
            not_found_variation_selector: None,
            script: None,
            beginning_of_text: false,
            insert_dotted_circle: true,
            pre_context: [0u32; 5],
            post_context: [0u32; 5],
            pre_context_len: 0,
            post_context_len: 0,
            edit_journal: Vec::new(),
            recording_edits: false,
            preserve_default_ignorables: false,
            remove_default_ignorables: false,
            cluster_level: ClusterLevel::MonotoneGraphemes,
            produce_unsafe_to_concat: false,
            produce_safe_to_insert_tatweel: false,
            scratch_flags: 0,
            max_len: MAX_LEN_DEFAULT,
            max_ops: MAX_OPS_DEFAULT,
            serial: 0,
        }
    }

    /// Empties the buffer and restores every setting to its default.
    pub fn reset(&mut self)
        ensures
            final(self).is_fresh(),
    {
        *self = Buffer::new();
    }

    /// Remembers up to five characters before the text, nearest first.
    pub fn set_pre_context(&mut self, codepoints: &[u32])
        requires
            old(self).wf(),
        ensures
            final(self).wf(),
            final(self).pre_context_len == if codepoints@.len() < 5 {
                codepoints@.len() as usize
            } else {
                5
            },
            forall|i: int|
                0 <= i < final(self).pre_context_len ==> #[trigger] final(self).pre_context@[i]
                    == codepoints@[codepoints@.len() - 1 - i],
            final(self).post_context == old(self).post_context,
            final(self).post_context_len == old(self).post_context_len,
            final(self).in_view() == old(self).in_view(),
    {
        self.pre_context_len = 0;
        let n: usize = codepoints.len();
        while self.pre_context_len < 5 && self.pre_context_len < n
            invariant
                self.pre_context_len <= 5,
                self.pre_context_len <= n,
                n == codepoints@.len(),
                self.len == old(self).len,
                self.idx == old(self).idx,
                self.info == old(self).info,
                self.pos == old(self).pos,
                self.out_info == old(self).out_info,
                self.out_len == old(self).out_len,
                self.have_output == old(self).have_output,
                self.out_lockstep == old(self).out_lockstep,
                self.post_context == old(self).post_context,
                self.post_context_len == old(self).post_context_len,
                old(self).wf(),
                forall|i: int|
                    0 <= i < self.pre_context_len ==> #[trigger] self.pre_context@[i]
                        == codepoints@[codepoints@.len() - 1 - i],
            decreases 5 - self.pre_context_len,
        {
            let k: usize = self.pre_context_len;
            self.pre_context[k] = codepoints[n - 1 - k];
            self.pre_context_len = k + 1;
        }
    }

    /// Remembers up to five characters after the text, nearest first.
    pub fn set_post_context(&mut self, codepoints: &[u32])
        requires
            old(self).wf(),
        ensures
            final(self).wf(),
            final(self).post_context_len == if codepoints@.len() < 5 {
                codepoints@.len() as usize
            } else {
                5
            },
            forall|i: int|
                0 <= i < final(self).post_context_len ==> #[trigger] final(self).post_context@[i]
                    == codepoints@[i],
            final(self).pre_context == old(self).pre_context,
            final(self).pre_context_len == old(self).pre_context_len,
            final(self).in_view() == old(self).in_view(),
    {
        self.post_context_len = 0;
        let n: usize = codepoints.len();
        while self.post_context_len < 5 && self.post_context_len < n
            invariant
                self.post_context_len <= 5,
                self.post_context_len <= n,
                n == codepoints@.len(),
                self.len == old(self).len,
                self.idx == old(self).idx,
                self.info == old(self).info,
                self.pos == old(self).pos,
                self.out_info == old(self).out_info,
                self.out_len == old(self).out_len,
                self.have_output == old(self).have_output,
                self.out_lockstep == old(self).out_lockstep,
                self.pre_context == old(self).pre_context,
                self.pre_context_len == old(self).pre_context_len,
                old(self).wf(),
                forall|i: int|
                    0 <= i < self.post_context_len ==> #[trigger] self.post_context@[i]
                        == codepoints@[i],
            decreases 5 - self.post_context_len,
        {
            let k: usize = self.post_context_len;
            self.post_context[k] = codepoints[k];
            self.post_context_len = k + 1;
        }
    }

    /// Makes room for `size` input glyphs; refuses, and marks the buffer
    /// unsuccessful, past the length limit.
    #[verifier::rlimit(40)]
    #[verifier::spinoff_prover]
    #[verifier::rlimit(80)]
    pub fn ensure(&mut self, size: usize) -> (r: bool)
        requires
            old(self).wf(),
        ensures
            final(self).wf(),
            r == (size <= old(self).info@.len() || size <= old(self).max_len),
            r ==> final(self).info@.len() >= size,
            final(self).info@.len() == if size <= old(self).info@.len() || !r {
                old(self).info@.len()
            } else {
                size as nat
            },
            final(self).successful == (old(self).successful && r),
            final(self).in_view() == old(self).in_view(),
            final(self).out_view() == old(self).out_view(),
            final(self).rest_view() == old(self).rest_view(),
            final(self).len == old(self).len,
            final(self).idx == old(self).idx,
            final(self).out_len == old(self).out_len,
            final(self).have_output == old(self).have_output,
            final(self).out_lockstep == old(self).out_lockstep,
            final(self).max_len == old(self).max_len,
            final(self).cluster_level == old(self).cluster_level,
            final(self).same_settings(&*old(self)),
            final(self).info@.len() >= old(self).info@.len(),
            forall|i: int|
                0 <= i < old(self).info@.len() ==> #[trigger] final(self).info@[i] == old(self).info@[i],
            final(self).keeps_fields(&*old(self)),
            final(self).len == old(self).len,
    {
        if size <= self.info.len() {
            return true;
        }
        if size > self.max_len {
            self.successful = false;
            return false;
        }
        let ghost old_info = self.info@;
        let ghost old_out = self.out_info@;
        self.info.resize(size, GlyphInfo::new(0, 0));
        self.pos.resize(size, GlyphPosition::new());
        if self.out_info.len() < size {
            self.out_info.resize(size, GlyphInfo::new(0, 0));
        }
        assert(self.info@.subrange(0, old_info.len() as int) == old_info);
        assert forall|i: int| 0 <= i < old_info.len() implies #[trigger] self.info@[i]
            == old_info[i] by {
            assert(self.info@.subrange(0, old_info.len() as int)[i] == self.info@[i]);
        }
        assert forall|i: int| 0 <= i < old_out.len() implies #[trigger] self.out_info@[i]
            == old_out[i] by {
            assert(self.out_info@.subrange(0, old_out.len() as int)[i] == self.out_info@[i]);
        }
        assert(self.in_view() =~= old(self).in_view());
        assert(self.out_view() =~= old(self).out_view());
        assert(self.rest_view() =~= old(self).rest_view());
        true
    }

    /// Appends one input glyph for `codepoint` in cluster `cluster`.
    #[verifier::spinoff_prover]
    #[verifier::rlimit(80)]
    pub fn add(&mut self, codepoint: u32, cluster: u32)
        requires
            old(self).wf(),
        ensures
            final(self).wf(),
            final(self).out_view() == old(self).out_view(),
            final(self).keeps_fields(&*old(self)),
            final(self).max_len == old(self).max_len,
            final(self).info@.len() >= old(self).info@.len(),
            final(self).info@.len() <= old(self).info@.len() || final(self).info@.len()
                <= old(self).max_len,
            (old(self).len + 1 <= old(self).info@.len() || old(self).len + 1 <= old(self).max_len)
                ==> final(self).in_view() == old(self).in_view().push(
                spec_new_glyph(codepoint, cluster),
            ) && final(self).successful == old(self).successful && final(self).len == old(self).len
                + 1,
            !(old(self).len + 1 <= old(self).info@.len() || old(self).len + 1 <= old(self).max_len)
                ==> final(self).in_view() == old(self).in_view() && !final(self).successful
                && final(self).len == old(self).len,
            final(self).idx == old(self).idx,
    {
        if self.len == usize::MAX {
            self.successful = false;
            return ;
        }
        if !self.ensure(self.len + 1) {
            return ;
        }
        let l: usize = self.len;
        let ghost mid_out = self.out_view();
        self.info.set(l, GlyphInfo::new(codepoint, cluster));
        self.len = l + 1;
        assert(self.out_view() =~= mid_out);
        assert(self.in_view() =~= old(self).in_view().push(spec_new_glyph(codepoint, cluster)));
    }

    /// Appends the characters of `text`, each clustered by its UTF-8 byte
    /// offset. Characters past the length limit are dropped and the buffer
    /// is marked unsuccessful.
    #[verifier::spinoff_prover]
    #[verifier::rlimit(80)]
    pub fn push_str(&mut self, text: &str)
        requires
            old(self).wf(),
            old(self).len + text@.len() <= usize::MAX,
            byte_offset(text@, text@.len() as int) <= usize::MAX,
        ensures
            final(self).wf(),
            final(self).out_view() == old(self).out_view(),
            final(self).keeps_fields(&*old(self)),
            ({
                let cap = if old(self).info@.len() >= old(self).max_len {
                    old(self).info@.len() as int
                } else {
                    old(self).max_len as int
                };
                let n = text@.len() as int;
                let k = if old(self).len + n <= cap {
                    n
                } else {
                    cap - old(self).len
                };
                &&& final(self).in_view() == old(self).in_view() + text_glyphs(text@).take(k)
                &&& final(self).successful == (old(self).successful && old(self).len + n <= cap)
            }),
    {
        let ghost cap: int = if self.info@.len() >= self.max_len {
            self.info@.len() as int
        } else {
            self.max_len as int
        };
        let ghost n: int = text@.len() as int;
        let count: usize = text_char_count(text);
        let _ = self.ensure(self.len + count);
        let ghost start_len: int = old(self).len as int;
        let ghost start_view = old(self).in_view();
        let ghost glyphs = text_glyphs(text@);
        let mut chars = text.chars();
        let mut i: usize = 0;
        let mut offset: usize = 0;
        proof {
            assert(self.in_view() == start_view);
            assert(self.out_view() == old(self).out_view());
        }
        loop
            invariant
                self.wf(),
                self.out_view() == old(self).out_view(),
                self.keeps_fields(&*old(self)),
                i <= n,
                n == text@.len(),
                chars.remaining() == text@.skip(i as int),
                offset == byte_offset(text@, i as int),
                byte_offset(text@, n) <= usize::MAX,
                self.info@.len() <= cap,
                start_len + n <= usize::MAX,
                start_len == old(self).len,
                start_view == old(self).in_view(),
                glyphs == text_glyphs(text@),
                self.max_len == old(self).max_len,
                cap == (if old(self).info@.len() >= old(self).max_len {
                    old(self).info@.len() as int
                } else {
                    old(self).max_len as int
                }),
                self.info@.len() >= old(self).info@.len(),
                self.len == start_len + (if start_len + i <= cap {
                    i as int
                } else {
                    cap - start_len
                }),
                self.in_view() == start_view + glyphs.take(self.len - start_len),
                self.successful == (old(self).successful && start_len + n <= cap && (start_len + i
                    <= cap || true)) || (!self.successful && !(start_len + n <= cap)),
                self.successful ==> old(self).successful,
                old(self).successful && start_len + n <= cap ==> self.successful,
                start_len <= cap,
            ensures
                i == n,
                self.wf(),
                self.out_view() == old(self).out_view(),
                self.keeps_fields(&*old(self)),
                self.len == start_len + (if start_len + n <= cap {
                    n
                } else {
                    cap - start_len
                }),
                self.in_view() == start_view + glyphs.take(self.len - start_len),
                self.successful ==> old(self).successful,
                old(self).successful && start_len + n <= cap ==> self.successful,
                !(start_len + n <= cap) ==> !self.successful,
            decreases n - i,
        {
            let next = chars.next();
            match next {
                None => {
                    proof {
                        assert(text@.skip(i as int).len() == 0);
                    }
                    break;
                },
                Some(ch) => {
                    proof {
                        assert(text@.skip(i as int).len() > 0);
                        assert(i < n);
                        assert(ch == text@[i as int]);
                        assert(text@.skip(i as int).drop_first() =~= text@.skip(i + 1));
                    }
                    let ghost before = self.in_view();
                    let ghost before_len = self.len;
                    let ghost before_info_len = self.info@.len();
                    self.add(ch as u32, offset as u32);
                    proof {
                        if start_len + i < cap {
                            assert(before_len + 1 <= before_info_len || before_len + 1 <= self.max_len);
                            assert(self.len == before_len + 1);
                        } else {
                            assert(before_len == cap);
                            assert(!(before_len + 1 <= before_info_len || before_len + 1 <= self.max_len));
                            assert(self.len == before_len);
                        }
                        lemma_byte_offset_monotone(text@, i + 1, n);
                        if self.len == before.len() + 1 {
                            assert(self.len - 1 - start_len == i);
                            assert(glyphs[i as int] == spec_new_glyph(text@[i as int] as u32, byte_offset(text@, i as int) as u32));
                            assert(glyphs[(self.len - 1 - start_len)] == spec_new_glyph(
                                ch as u32,
                                offset as u32,
                            ));
                            assert(glyphs.take(self.len - start_len) =~= glyphs.take(
                                self.len - 1 - start_len,
                            ).push(glyphs[(self.len - 1 - start_len)]));
                            assert(self.in_view() =~= start_view + glyphs.take(self.len - start_len));
                        }
                    }
                    let w: usize = if (ch as u32) < 0x80 {
                        1
                    } else if (ch as u32) < 0x800 {
                        2
                    } else if (ch as u32) < 0x10000 {
                        3
                    } else {
                        4
                    };
                    offset = offset + w;
                    i = i + 1;
                },
            }
        }
    }
}

impl Buffer {
    /// Every field but the glyph and position storage, the input length and
    /// the success flag is as in `old`.
    pub open spec fn keeps_fields(&self, old: &Buffer) -> bool {
        &&& self.out_lockstep == old.out_lockstep
        &&& self.idx == old.idx
        &&& self.out_len == old.out_len
        &&& self.have_output == old.have_output
        &&& self.have_positions == old.have_positions
        &&& self.shaping_failed == old.shaping_failed
        &&& self.direction == old.direction
        &&& self.invisible == old.invisible
        &&& self.not_found_variation_selector == old.not_found_variation_selector
        &&& self.script == old.script
        &&& self.beginning_of_text == old.beginning_of_text
        &&& self.insert_dotted_circle == old.insert_dotted_circle
        &&& self.pre_context == old.pre_context
        &&& self.post_context == old.post_context
        &&& self.pre_context_len == old.pre_context_len
        &&& self.post_context_len == old.post_context_len
        &&& self.edit_journal@ == old.edit_journal@
        &&& self.recording_edits == old.recording_edits
        &&& self.preserve_default_ignorables == old.preserve_default_ignorables
        &&& self.remove_default_ignorables == old.remove_default_ignorables
        &&& self.cluster_level == old.cluster_level
        &&& self.produce_unsafe_to_concat == old.produce_unsafe_to_concat
        &&& self.produce_safe_to_insert_tatweel == old.produce_safe_to_insert_tatweel
        &&& self.scratch_flags == old.scratch_flags
        &&& self.max_len == old.max_len
        &&& self.max_ops == old.max_ops
        &&& self.serial == old.serial
    }

    /// Whether the output stream has room for one more glyph without
    /// growing past the length limit.
    pub open spec fn out_fits(&self) -> bool {
        self.out_len < self.out_info@.len() || self.out_len < self.max_len
    }

    /// Whether moving an output that shares the input's storage into its
    /// own can keep every glyph: there is none to move, the output array
    /// is long enough, or it may still grow under the length limit.
    pub open spec fn materializes(&self) -> bool {
        !self.have_output || !self.out_lockstep || self.out_len <= self.out_info@.len() || self.out_len < self.max_len
    }

    /// The fields that stream operations leave alone.
    pub open spec fn same_settings(&self, other: &Buffer) -> bool {
        &&& self.cluster_level == other.cluster_level
        &&& self.direction == other.direction
        &&& self.max_len == other.max_len
        &&& self.max_ops == other.max_ops
        &&& self.produce_unsafe_to_concat == other.produce_unsafe_to_concat
        &&& self.produce_safe_to_insert_tatweel == other.produce_safe_to_insert_tatweel
        &&& self.insert_dotted_circle == other.insert_dotted_circle
        &&& self.recording_edits == other.recording_edits
        &&& self.have_positions == other.have_positions
    }

    pub fn is_empty(&self) -> (r: bool)
        ensures
            r == (self.len == 0),
    {
        self.len == 0
    }

    /// The input glyph `offset` places past the read position.
    pub fn cur(&self, offset: usize) -> (g: &GlyphInfo)
        requires
            self.idx + offset < self.info@.len(),
            self.idx + offset <= usize::MAX,
        ensures
            *g == self.info@[self.idx + offset],
    {
        &self.info[self.idx + offset]
    }

    /// The storage that holds the output stream.
    pub fn out_info(&self) -> (s: &[GlyphInfo])
        ensures
            s@ == if self.have_output && !self.out_lockstep {
                self.out_info@
            } else {
                self.info@
            },
    {
        if self.have_output && !self.out_lockstep {
            self.out_info.as_slice()
        } else {
            self.info.as_slice()
        }
    }

    /// Grows the output storage by half again plus 32, up to the length
    /// limit; fails, marking the buffer unsuccessful, at the limit.
    fn grow_out(&mut self) -> (r: bool)
        ensures
            final(self).scratch_flags == old(self).scratch_flags,
            r == (old(self).out_len < old(self).max_len),
            !r ==> !final(self).successful && final(self).out_info == old(self).out_info,
            r ==> final(self).successful == old(self).successful,
            r ==> final(self).out_info@.len() > old(self).out_len,
            forall|i: int|
                0 <= i < old(self).out_info@.len() && i < final(self).out_info@.len()
                    ==> #[trigger] final(self).out_info@[i] == old(self).out_info@[i],
            final(self).info == old(self).info,
            final(self).pos == old(self).pos,
            final(self).idx == old(self).idx,
            final(self).len == old(self).len,
            final(self).out_len == old(self).out_len,
            final(self).have_output == old(self).have_output,
            final(self).out_lockstep == old(self).out_lockstep,
            final(self).pre_context_len == old(self).pre_context_len,
            final(self).post_context_len == old(self).post_context_len,
            final(self).same_settings(&*old(self)),
    {
        if self.out_len >= self.max_len {
            self.successful = false;
            return false;
        }
        let grown: usize = self.out_len.saturating_add(self.out_len >> 1).saturating_add(32);
        let new_len: usize = if grown < self.max_len {
            grown
        } else {
            self.max_len
        };
        let ghost before = self.out_info@;
        self.out_info.resize(new_len, GlyphInfo::new(0, 0));
        assert forall|i: int|
            0 <= i < before.len() && i < self.out_info@.len() implies #[trigger] self.out_info@[i]
            == before[i] by {
            if new_len <= before.len() {
                assert(self.out_info@ == before.subrange(0, new_len as int));
            } else {
                assert(self.out_info@.subrange(0, before.len() as int)[i] == self.out_info@[i]);
            }
        }
        true
    }

    /// Appends a glyph to the output stream.
    fn push_out(&mut self, info: GlyphInfo)
        requires
            old(self).wf(),
            old(self).have_output,
            !old(self).out_lockstep,
        ensures
            final(self).scratch_flags == old(self).scratch_flags,
            final(self).wf(),
            final(self).have_output,
            !final(self).out_lockstep,
            old(self).out_fits() ==> final(self).out_view() == old(self).out_view().push(info)
                && final(self).successful == old(self).successful,
            !old(self).out_fits() ==> final(self).out_view() == old(self).out_view()
                && !final(self).successful,
            final(self).info == old(self).info,
            final(self).idx == old(self).idx,
            final(self).len == old(self).len,
            final(self).same_settings(&*old(self)),
    {
        if self.out_len >= self.out_info.len() && !self.grow_out() {
            return ;
        }
        let ghost before = self.out_view();
        let k: usize = self.out_len;
        self.out_info.set(k, info);
        self.out_len = k + 1;
        assert(self.out_view() =~= before.push(info));
    }

    /// Moves the output stream out of the input storage into its own.
    fn materialize_out(&mut self)
        requires
            old(self).wf(),
        ensures
            final(self).scratch_flags == old(self).scratch_flags,
            final(self).wf(),
            final(self).have_output == old(self).have_output,
            final(self).have_output ==> !final(self).out_lockstep,
            final(self).successful ==> final(self).out_view() == old(self).out_view(),
            final(self).successful ==> old(self).successful,
            final(self).successful ==> final(self).out_len == old(self).out_len,
            !old(self).have_output || !old(self).out_lockstep ==> *final(self) == *old(self),
            final(self).info == old(self).info,
            final(self).idx == old(self).idx,
            final(self).len == old(self).len,
            final(self).out_len <= old(self).out_len,
            final(self).same_settings(&*old(self)),
            old(self).materializes() ==> final(self).successful == old(self).successful && final(self).out_len
                == old(self).out_len,
            old(self).out_len <= old(self).out_info@.len() ==> final(self).out_info@.len() == old(self).out_info@.len(),
    {
        if !self.have_output || !self.out_lockstep {
            return ;
        }
        self.materialize_lockstep();
    }

    #[verifier::rlimit(40)]
    fn materialize_lockstep(&mut self)
        requires
            old(self).wf(),
            old(self).have_output,
            old(self).out_lockstep,
        ensures
            final(self).scratch_flags == old(self).scratch_flags,
            final(self).wf(),
            final(self).have_output,
            !final(self).out_lockstep,
            final(self).successful ==> final(self).out_view() == old(self).out_view(),
            final(self).successful ==> old(self).successful,
            final(self).successful ==> final(self).out_len == old(self).out_len,
            final(self).info == old(self).info,
            final(self).idx == old(self).idx,
            final(self).len == old(self).len,
            final(self).out_len <= old(self).out_len,
            final(self).same_settings(&*old(self)),
            old(self).materializes() ==> final(self).successful == old(self).successful && final(self).out_len
                == old(self).out_len,
            old(self).out_len <= old(self).out_info@.len() ==> final(self).out_info@.len() == old(self).out_info@.len(),
    {
        self.out_lockstep = false;
        let n: usize = self.out_len;
        if self.out_info.len() < n {
            let _ = self.grow_out();
        }
        let take: usize = if n < self.out_info.len() {
            n
        } else {
            self.out_info.len()
        };
        copy_glyphs(&mut self.out_info, 0, &self.info, 0, take);
        if take < n {
            self.successful = false;
        }
        self.out_len = take;
        assert(forall|i: int| 0 <= i < take ==> #[trigger] self.out_info@[i] == self.info@[i]);
        assert(take == n ==> self.out_view() =~= old(self).out_view());
    }

    /// The last glyph written to the output.
    pub fn prev(&self) -> (g: &GlyphInfo)
        requires
            self.wf(),
            self.out_len > 0,
            self.have_output && self.out_lockstep ==> self.out_len <= self.info@.len(),
        ensures
            *g == self.out_view()[self.out_len - 1],
    {
        let i: usize = self.out_len - 1;
        if self.have_output && !self.out_lockstep {
            &self.out_info[i]
        } else {
            &self.info[i]
        }
    }

    /// How many glyphs lie behind the read position.
    pub fn backtrack_len(&self) -> (r: usize)
        ensures
            r == if self.have_output {
                self.out_len
            } else {
                self.idx
            },
    {
        if self.have_output {
            self.out_len
        } else {
            self.idx
        }
    }

    /// How many input glyphs are still ahead, the current one included.
    pub fn lookahead_len(&self) -> (r: usize)
        requires
            self.idx <= self.len,
        ensures
            r == self.len - self.idx,
    {
        self.len - self.idx
    }

    /// A fresh ligature id in 1 ..= 7, cycling.
    pub fn allocate_lig_id(&mut self) -> (id: u8)
        ensures
            1 <= id < 8,
            *final(self) == (Buffer { serial: final(self).serial, ..*old(self) }),
    {
        let mut serial: u8 = if self.serial == 255 {
            0
        } else {
            self.serial + 1
        };
        if serial & 0x07 == 0 {
            assert(serial & 7u8 == 0 ==> serial < 255) by (bit_vector);
            serial = serial + 1;
        }
        self.serial = serial;
        let id: u8 = serial & 0x07;
        assert(serial & 7u8 < 8) by (bit_vector);
        proof {
            let s0: u8 = if old(self).serial == 255 { 0 } else { (old(self).serial + 1) as u8 };
            assert(s0 & 7u8 == 0 ==> ((s0 + 1) as u8) & 7u8 == 1) by (bit_vector);
        }
        id
    }

    /// Starts a pass: the input is read from its first glyph and the output
    /// begins empty, sharing the input storage until the two diverge.
    pub fn clear_output(&mut self)
        requires
            old(self).wf(),
        ensures
            final(self).scratch_flags == old(self).scratch_flags,
            final(self).wf(),
            final(self).have_output,
            !final(self).have_positions,
            final(self).idx == 0,
            final(self).out_len == 0,
            final(self).out_view() == Seq::<GlyphInfo>::empty(),
            final(self).in_view() == old(self).in_view(),
            final(self).rest_view() == old(self).in_view(),
            final(self).info == old(self).info,
            final(self).len == old(self).len,
            final(self).successful == old(self).successful,
            final(self).cluster_level == old(self).cluster_level,
            final(self).max_len == old(self).max_len,
    {
        self.have_output = true;
        self.have_positions = false;
        self.idx = 0;
        self.out_len = 0;
        self.out_lockstep = true;
        assert(self.out_view() =~= Seq::<GlyphInfo>::empty());
    }

    /// Starts positioning: every position is zeroed and the output is off.
    pub fn clear_positions(&mut self)
        requires
            old(self).wf(),
        ensures
            final(self).wf(),
            !final(self).have_output,
            final(self).have_positions,
            final(self).out_len == 0,
            final(self).pos@.len() == old(self).pos@.len(),
            forall|i: int| 0 <= i < final(self).pos@.len() ==> #[trigger] final(self).pos@[i]
                == GlyphPosition::zero(),
            final(self).info == old(self).info,
            final(self).len == old(self).len,
            final(self).idx == old(self).idx,
    {
        self.have_output = false;
        self.out_lockstep = false;
        self.have_positions = true;
        self.out_len = 0;
        let n: usize = self.pos.len();
        let mut pos: Vec<GlyphPosition> = Vec::new();
        core::mem::swap(&mut pos, &mut self.pos);
        let mut i: usize = 0;
        while i < n
            invariant
                i <= n,
                n == pos@.len(),
                forall|j: int| 0 <= j < i ==> #[trigger] pos@[j] == GlyphPosition::zero(),
            decreases n - i,
        {
            pos.set(i, GlyphPosition::new());
            i = i + 1;
        }
        core::mem::swap(&mut pos, &mut self.pos);
    }

    /// Copies the current glyph to the output and advances.
    pub fn next_glyph(&mut self)
        requires
            old(self).wf(),
            old(self).idx < old(self).len,
        ensures
            final(self).wf(),
            final(self).idx == old(self).idx + 1,
            final(self).info == old(self).info,
            final(self).len == old(self).len,
            final(self).have_output == old(self).have_output,
            final(self).have_output && final(self).successful ==> final(self).out_view() == old(self).out_view().push(old(self).info@[old(self).idx as int]),
            final(self).successful ==> old(self).successful,
            old(self).successful && old(self).out_len < old(self).max_len ==> final(self).successful,
            !old(self).have_output ==> final(self).successful == old(self).successful,
            final(self).same_settings(&*old(self)),
    {
        if self.have_output {
            if self.out_lockstep && self.out_len == self.idx {
                let ghost before = self.out_view();
                self.out_len = self.out_len + 1;
                assert(self.out_view() =~= before.push(old(self).info@[old(self).idx as int]));
            } else {
                self.materialize_out();
                let g: GlyphInfo = self.info[self.idx];
                self.push_out(g);
            }
        }
        self.idx = self.idx + 1;
    }

    /// Copies the next `n` input glyphs to the output and advances past them.
    #[verifier::rlimit(40)]
    pub fn next_glyphs(&mut self, n: usize)
        requires
            old(self).wf(),
            old(self).idx + n <= old(self).len,
        ensures
            final(self).scratch_flags == old(self).scratch_flags,
            final(self).wf(),
            final(self).idx == old(self).idx + n,
            final(self).info == old(self).info,
            final(self).len == old(self).len,
            final(self).have_output == old(self).have_output,
            final(self).have_output && final(self).successful ==> final(self).out_view() == old(self).out_view() + old(self).info@.subrange(
                old(self).idx as int,
                old(self).idx + n,
            ),
            final(self).successful ==> old(self).successful,
            old(self).successful && (!old(self).have_output || (old(self).out_lockstep && old(self).out_len == old(self).idx)
                || old(self).out_len + n <= old(self).out_info@.len()) ==> final(self).successful,
            old(self).have_output && old(self).out_lockstep && old(self).out_len == old(self).idx ==> final(self).out_lockstep
                && final(self).out_len == old(self).out_len + n,
            old(self).have_output && !(old(self).out_lockstep && old(self).out_len == old(self).idx)
                ==> !final(self).out_lockstep,
            final(self).same_settings(&*old(self)),
    {
        if !self.have_output {
            self.idx = self.idx + n;
            return ;
        }
        if self.out_lockstep && self.out_len == self.idx {
            let ghost before = self.out_view();
            self.out_len = self.out_len + n;
            self.idx = self.idx + n;
            assert(self.out_view() =~= before + old(self).info@.subrange(
                old(self).idx as int,
                old(self).idx + n,
            ));
            return ;
        }
        self.materialize_out();
        let ghost mid = *self;
        self.append_input_run(n);
        assert(mid.info@.subrange(mid.idx as int, mid.idx + n) == old(self).info@.subrange(
            old(self).idx as int,
            old(self).idx + n,
        ));
    }

    /// Copies `n` input glyphs to a materialized output.
    #[verifier::rlimit(80)]
    #[verifier::spinoff_prover]
    fn append_input_run(&mut self, n: usize)
        requires
            old(self).wf(),
            old(self).have_output,
            !old(self).out_lockstep,
            old(self).idx + n <= old(self).len,
        ensures
            final(self).scratch_flags == old(self).scratch_flags,
            final(self).wf(),
            final(self).have_output,
            !final(self).out_lockstep,
            final(self).idx == old(self).idx + n,
            final(self).info == old(self).info,
            final(self).len == old(self).len,
            final(self).successful ==> final(self).out_view() == old(self).out_view() + old(
                self).info@.subrange(old(self).idx as int, old(self).idx + n),
            final(self).successful ==> old(self).successful,
            old(self).out_len + n <= old(self).out_info@.len() ==> final(self).successful == old(self).successful,
            final(self).same_settings(&*old(self)),
    {
        let ghost start_out = self.out_view();
        if self.out_info.len() - self.out_len < n {
            let _ = self.grow_out();
        }
        assert(self.out_view() =~= start_out);
        let room: usize = self.out_info.len() - self.out_len;
        let take: usize = if n < room {
            n
        } else {
            room
        };
        let dst: usize = self.out_len;
        let src: usize = self.idx;
        copy_glyphs(&mut self.out_info, dst, &self.info, src, take);
        if take < n {
            self.successful = false;
        }
        self.out_len = dst + take;
        self.idx = self.idx + n;
        if take == n {
            assert(self.out_view() =~= start_out + old(self).info@.subrange(
                old(self).idx as int,
                old(self).idx + n,
            ));
        }
    }
}

impl Buffer {
    /// Sets the cluster of `info`; if that changes it, the glyph takes the
    /// defined glyph flags of `mask`.
    pub fn set_cluster(info: &mut GlyphInfo, cluster: u32, mask: u32)
        ensures
            *final(info) == spec_set_cluster(*old(info), cluster, mask),
    {
        if info.cluster != cluster {
            info.mask = (info.mask & !GLYPH_FLAGS_DEFINED) | (mask & GLYPH_FLAGS_DEFINED);
        }
        info.cluster = cluster;
    }

    /// Notes an edit of `delta` glyphs at the current output position.
    fn record_edit(&mut self, delta: isize)
        ensures
            *final(self) == (Buffer { edit_journal: final(self).edit_journal, ..*old(self) }),
            old(self).recording_edits && delta != 0 ==> final(self).edit_journal@ == old(self).edit_journal@.push((old(self).out_len, delta)),
            !(old(self).recording_edits && delta != 0) ==> final(self).edit_journal
                == old(self).edit_journal,
    {
        if self.recording_edits && delta != 0 {
            let at: usize = self.out_len;
            self.edit_journal.push((at, delta));
        }
    }

    /// Drops the current glyph: it is consumed without being written.
    pub fn skip_glyph(&mut self)
        requires
            old(self).wf(),
            old(self).idx < old(self).len,
        ensures
            final(self).wf(),
            final(self).idx == old(self).idx + 1,
            final(self).info == old(self).info,
            final(self).len == old(self).len,
            final(self).have_output == old(self).have_output,
            final(self).successful ==> final(self).out_view() == old(self).out_view(),
            final(self).successful ==> old(self).successful,
            old(self).materializes() ==> final(self).successful == old(self).successful,
            final(self).out_lockstep ==> old(self).out_lockstep,
            final(self).out_len == old(self).out_len || !final(self).successful,
            final(self).same_settings(&*old(self)),
    {
        self.materialize_out();
        self.record_edit(-1);
        self.idx = self.idx + 1;
    }

    /// Writes the current glyph to the output under glyph id `glyph_id`
    /// and advances.
    pub fn replace_glyph(&mut self, glyph_id: u32)
        requires
            old(self).wf(),
            old(self).have_output,
            old(self).idx < old(self).len,
        ensures
            final(self).wf(),
            final(self).have_output,
            final(self).idx == old(self).idx + 1,
            final(self).len == old(self).len,
            final(self).rest_view() == old(self).rest_view().drop_first(),
            final(self).successful ==> final(self).out_view() == old(self).out_view().push(
                GlyphInfo { id: glyph_id, ..old(self).info@[old(self).idx as int] },
            ),
            final(self).successful ==> old(self).successful,
            old(self).successful && old(self).out_len < old(self).max_len ==> final(self).successful,
            final(self).same_settings(&*old(self)),
    {
        if self.out_lockstep && self.out_len == self.idx {
            let i: usize = self.idx;
            let mut g: GlyphInfo = self.info[i];
            g.id = glyph_id;
            let ghost before = self.out_view();
            self.info.set(i, g);
            self.out_len = self.out_len + 1;
            self.idx = i + 1;
            assert(self.out_view() =~= before.push(g));
            assert(self.rest_view() =~= old(self).rest_view().drop_first());
            return ;
        }
        self.materialize_out();
        let mut g: GlyphInfo = self.info[self.idx];
        g.id = glyph_id;
        self.push_out(g);
        self.idx = self.idx + 1;
        assert(self.rest_view() =~= old(self).rest_view().drop_first());
    }

    /// Writes a new glyph `glyph_id` to the output, copying the properties
    /// of the current glyph, or of the last output glyph at the end of the
    /// input; without either, nothing is written.
    pub fn output_glyph(&mut self, glyph_id: u32)
        requires
            old(self).wf(),
            old(self).have_output,
        ensures
            final(self).wf(),
            final(self).have_output,
            final(self).idx == old(self).idx,
            final(self).info == old(self).info,
            final(self).len == old(self).len,
            final(self).successful && old(self).idx < old(self).len ==> final(self).out_view()
                == old(self).out_view().push(
                GlyphInfo { id: glyph_id, ..old(self).info@[old(self).idx as int] },
            ),
            final(self).successful && old(self).idx >= old(self).len && old(self).out_len > 0
                ==> final(self).out_view() == old(self).out_view().push(
                GlyphInfo { id: glyph_id, ..old(self).out_view()[old(self).out_len - 1] },
            ),
            old(self).idx >= old(self).len && old(self).out_len == 0 ==> final(self).out_view()
                == old(self).out_view(),
            final(self).successful ==> old(self).successful,
            old(self).successful && old(self).out_len < old(self).max_len ==> final(self).successful,
            final(self).same_settings(&*old(self)),
    {
        self.materialize_out();
        self.record_edit(1);
        let mut g: GlyphInfo = if self.idx < self.len {
            self.info[self.idx]
        } else if self.out_len > 0 {
            self.out_info[self.out_len - 1]
        } else {
            return ;
        };
        g.id = glyph_id;
        self.push_out(g);
    }

    /// Writes `info` to the output.
    pub fn output_info(&mut self, info: GlyphInfo)
        requires
            old(self).wf(),
            old(self).have_output,
        ensures
            final(self).scratch_flags == old(self).scratch_flags,
            final(self).wf(),
            final(self).have_output,
            final(self).idx == old(self).idx,
            final(self).info == old(self).info,
            final(self).len == old(self).len,
            final(self).successful ==> final(self).out_view() == old(self).out_view().push(info),
            final(self).successful ==> old(self).successful,
            old(self).successful && old(self).out_len < old(self).max_len ==> final(self).successful,
            final(self).same_settings(&*old(self)),
    {
        self.materialize_out();
        self.record_edit(1);
        self.push_out(info);
    }

    /// Ends a pass: the rest of the input is copied across and the output
    /// becomes the new input. Returns whether the pass succeeded; a failed
    /// pass keeps the old input.
    pub fn sync(&mut self) -> (r: bool)
        requires
            old(self).wf(),
            old(self).have_output,
        ensures
            final(self).scratch_flags == old(self).scratch_flags,
            final(self).wf(),
            !final(self).have_output,
            final(self).idx == 0,
            final(self).out_len == 0,
            r == final(self).successful,
            r ==> old(self).successful,
            r ==> final(self).in_view() == old(self).out_view() + old(self).rest_view(),
            !old(self).successful ==> !r && final(self).in_view() == old(self).in_view(),
            !old(self).successful ==> final(self).info == old(self).info && final(self).len == old(self).len,
            old(self).successful && ((old(self).out_lockstep && old(self).out_len == old(self).idx) || old(self).out_len
                + (old(self).len - old(self).idx) <= old(self).out_info@.len()) ==> r,
            final(self).same_settings(&*old(self)),
    {
        if !self.successful {
            self.have_output = false;
            self.out_lockstep = false;
            self.out_len = 0;
            self.idx = 0;
            return false;
        }
        let rest: usize = self.len - self.idx;
        self.next_glyphs(rest);
        if self.out_lockstep && self.out_len == self.len {
            self.out_lockstep = false;
            assert(self.out_len <= self.info@.len());
        } else {
            self.materialize_out();
            core::mem::swap(&mut self.info, &mut self.out_info);
            self.len = self.out_len;
            if self.pos.len() < self.info.len() {
                let n: usize = self.info.len();
                self.pos.resize(n, GlyphPosition::new());
            }
        }
        self.have_output = false;
        self.out_len = 0;
        self.idx = 0;
        self.successful
    }

    /// Opens a gap of `count` glyphs before the read position.
    fn shift_forward(&mut self, count: usize) -> (r: bool)
        requires
            old(self).wf(),
            old(self).len + count <= usize::MAX,
            old(self).have_output,
            !old(self).out_lockstep,
        ensures
            final(self).wf(),
            final(self).have_output,
            !final(self).out_lockstep,
            r == (old(self).len + count <= old(self).info@.len() || old(self).len + count <= old(self).max_len),
            r ==> final(self).len == old(self).len + count && final(self).idx == old(self).idx
                + count && final(self).rest_view() == old(self).rest_view(),
            !r ==> final(self).len == old(self).len && final(self).idx == old(self).idx,
            final(self).out_view() == old(self).out_view(),
            final(self).out_len == old(self).out_len,
            final(self).successful ==> old(self).successful,
            forall|i: int|
                0 <= i < old(self).idx ==> #[trigger] final(self).info@[i] == old(self).info@[i],
            final(self).same_settings(&*old(self)),
    {
        if !self.ensure(self.len + count) {
            return false;
        }
        let ghost mid = self.info@;
        let n: usize = self.len - self.idx;
        let mut moved: Vec<GlyphInfo> = Vec::new();
        let mut k: usize = 0;
        while k < n
            invariant
                k <= n,
                n == self.len - self.idx,
                self.idx <= self.len,
                self.len <= self.info@.len(),
                moved@ == self.info@.subrange(self.idx as int, self.idx + k),
            decreases n - k,
        {
            moved.push(self.info[self.idx + k]);
            k = k + 1;
        }
        let at: usize = self.idx + count;
        copy_glyphs(&mut self.info, at, &moved, 0, n);
        self.len = self.len + count;
        self.idx = self.idx + count;
        assert(self.rest_view() =~= old(self).rest_view());
        true
    }

    /// Moves the read position so that exactly `i` glyphs are behind it,
    /// copying input to output when moving forward and handing output
    /// back to the input when moving backward.
    pub fn move_to(&mut self, i: usize) -> (r: bool)
        requires
            old(self).wf(),
            !old(self).have_output ==> i <= old(self).len,
            old(self).len + old(self).out_len <= usize::MAX,
        ensures
            final(self).wf(),
            final(self).have_output == old(self).have_output,
            !old(self).have_output ==> r && final(self).idx == i && final(self).info == old(self).info,
            old(self).have_output && !old(self).successful ==> !r,
            old(self).have_output && r && final(self).successful ==> final(self).out_len == i
                && final(self).out_view() + final(self).rest_view() == old(self).out_view() + old(self).rest_view(),
            old(self).have_output && old(self).successful && old(self).out_len <= i <= old(self).out_len + (old(self).len
                - old(self).idx) ==> r,
            old(self).have_output && old(self).successful && i < old(self).out_len && old(self).materializes()
                && old(self).out_len - i <= old(self).idx ==> r,
            final(self).same_settings(&*old(self)),
    {
        if !self.have_output {
            self.idx = i;
            return true;
        }
        if !self.successful {
            return false;
        }
        if self.out_len < i {
            let count: usize = i - self.out_len;
            return self.move_forward(count);
        } else if self.out_len > i {
            let count: usize = self.out_len - i;
            return self.move_back(count);
        }
        true
    }

    fn move_forward(&mut self, count: usize) -> (r: bool)
        requires
            old(self).wf(),
            old(self).have_output,
        ensures
            final(self).wf(),
            final(self).have_output,
            r ==> final(self).out_len == old(self).out_len + count || !final(self).successful,
            r && final(self).successful ==> final(self).out_view() + final(self).rest_view()
                == old(self).out_view() + old(self).rest_view(),
            !r ==> *final(self) == *old(self),
            r == (count <= old(self).len - old(self).idx),
            final(self).same_settings(&*old(self)),
    {
        if count > self.len - self.idx {
            return false;
        }
        let ghost before_out = self.out_view();
        let ghost before_rest = self.rest_view();
        self.next_glyphs(count);
        if self.successful {
            assert(before_rest =~= old(self).info@.subrange(
                old(self).idx as int,
                old(self).idx + count,
            ) + self.rest_view());
            assert(self.out_view() + self.rest_view() =~= before_out + before_rest);
            assert(self.out_view().len() == before_out.len() + count);
        }
        true
    }

    #[verifier::rlimit(60)]
    fn move_back(&mut self, count: usize) -> (r: bool)
        requires
            old(self).wf(),
            old(self).have_output,
            old(self).successful,
            count <= old(self).out_len,
            old(self).len + old(self).out_len <= usize::MAX,
        ensures
            final(self).wf(),
            final(self).have_output,
            r && final(self).successful ==> final(self).out_len == old(self).out_len - count
                && final(self).out_view() + final(self).rest_view() == old(self).out_view() + old(self).rest_view(),
            old(self).materializes() && count <= old(self).idx ==> r,
            final(self).same_settings(&*old(self)),
    {
        let self_copy: bool = self.out_lockstep && self.out_len == self.idx && count <= self.idx;
        if self_copy {
            let ghost before_out = self.out_view();
            let ghost before_rest = self.rest_view();
            self.idx = self.idx - count;
            self.out_len = self.out_len - count;
            assert(self.out_view() + self.rest_view() =~= before_out + before_rest);
            return true;
        }
        self.materialize_out();
        if !self.successful {
            return false;
        }
        let ghost before_out = self.out_view();
        let ghost before_rest = self.rest_view();
        if count > self.idx {
            let gap: usize = count - self.idx;
            if !self.shift_forward(gap) {
                return false;
            }
        }
        self.idx = self.idx - count;
        self.out_len = self.out_len - count;
        let (at, from) = (self.idx, self.out_len);
        let mut staged: Vec<GlyphInfo> = Vec::new();
        core::mem::swap(&mut staged, &mut self.info);
        copy_glyphs(&mut staged, at, &self.out_info, from, count);
        core::mem::swap(&mut staged, &mut self.info);
        assert(self.out_view() + self.rest_view() =~= before_out + before_rest);
        true
    }

    /// The end of the group that starts at `start`: the glyphs after it
    /// continue the group while `group` holds of each glyph and the one
    /// before it.
    #[verifier::spinoff_prover]
    pub fn group_end<F: Fn(&GlyphInfo, &GlyphInfo) -> bool>(&self, start: usize, group: F) -> (r: usize)
        requires
            self.wf(),
            start < self.len,
            forall|a: GlyphInfo, b: GlyphInfo| #[trigger] call_requires(group, (&a, &b)),
        ensures
            start < r <= self.len,
            forall|k: int|
                #![trigger self.info@[k]]
                start < k < r ==> call_ensures(group, (&self.info@[k - 1], &self.info@[k]), true),
            r < self.len ==> call_ensures(group, (&self.info@[r - 1], &self.info@[r as int]), false),
    {
        let mut end: usize = start + 1;
        while end < self.len
            invariant
                start < end <= self.len,
                self.len <= self.info@.len(),
                forall|a: GlyphInfo, b: GlyphInfo| #[trigger] call_requires(group, (&a, &b)),
                forall|k: int|
                    #![trigger self.info@[k]]
                    start < k < end ==> call_ensures(group, (&self.info@[k - 1], &self.info@[k]), true),
            decreases self.len - end,
        {
            let more: bool = group(&self.info[end - 1], &self.info[end]);
            if !more {
                return end;
            }
            end = end + 1;
        }
        end
    }

    /// Sorts the glyphs of `start .. end` by insertion, moving a glyph back
    /// past every glyph that `later` says goes after it; the clusters of the
    /// glyphs that move are merged first.
    #[verifier::rlimit(60)]
    pub fn sort<F: Fn(&GlyphInfo, &GlyphInfo) -> bool>(&mut self, start: usize, end: usize, later: F)
        requires
            old(self).wf(),
            !old(self).have_positions,
            start <= end <= old(self).len,
            sort_order_ok(later),
        ensures
            final(self).wf(),
            final(self).len == old(self).len,
            final(self).pos == old(self).pos,
            final(self).info@.len() == old(self).info@.len(),
            forall|k: int|
                0 <= k < old(self).info@.len() && !(start <= k < end) ==> glyph_key(#[trigger] final(self).info@[k])
                    == glyph_key(old(self).info@[k]),
            glyph_keys(final(self).info@.subrange(start as int, end as int)).to_multiset() == glyph_keys(
                old(self).info@.subrange(start as int, end as int),
            ).to_multiset(),
            forall|k: int| start < k < end ==> #[trigger] in_order(later, final(self).info@[k - 1], final(self).info@[k]),
            final(self).same_settings(&*old(self)),
            exists|perm: Seq<int>|
                #![trigger stable_perm(later, old(self).info@, perm, start as int, end as int)]
                stable_perm(later, old(self).info@, perm, start as int, end as int) && forall|k: int|
                    0 <= k < perm.len() ==> glyph_key(#[trigger] final(self).info@[start + k]) == glyph_key(
                        old(self).info@[perm[k]],
                    ),
    {
        let ghost mut perm: Seq<int> = Seq::new((end - start) as nat, |k: int| start + k);
        if end - start < 2 {
            assert(self.info@.subrange(start as int, end as int) =~= old(self).info@.subrange(start as int, end as int));
            assert(stable_perm(later, old(self).info@, perm, start as int, end as int));
            return;
        }
        let mut i: usize = start + 1;
        while i < end
            invariant
                start < i <= end <= self.len,
                self.wf(),
                !self.have_positions,
                self.len == old(self).len,
                self.pos == old(self).pos,
                self.info@.len() == old(self).info@.len(),
                self.same_settings(&*old(self)),
                sort_order_ok(later),
                forall|k: int|
                    0 <= k < old(self).info@.len() && !(start <= k < end) ==> glyph_key(#[trigger] self.info@[k])
                        == glyph_key(old(self).info@[k]),
                glyph_keys(self.info@.subrange(start as int, end as int)).to_multiset() == glyph_keys(
                    old(self).info@.subrange(start as int, end as int),
                ).to_multiset(),
                forall|k: int| start < k < i ==> #[trigger] in_order(later, self.info@[k - 1], self.info@[k]),
                stable_perm(later, old(self).info@, perm, start as int, end as int),
                forall|k: int| i - start <= k < perm.len() ==> #[trigger] perm[k] == start + k,
                forall|k: int| 0 <= k < i - start ==> #[trigger] perm[k] < i,
                forall|k: int|
                    0 <= k < perm.len() ==> glyph_key(#[trigger] self.info@[start + k]) == glyph_key(
                        old(self).info@[perm[k]],
                    ),
            decreases end - i,
        {
            let mut j: usize = i;
            loop
                invariant
                    start <= j <= i < end <= self.len <= self.info@.len(),
                    sort_order_ok(later),
                    j < i ==> call_ensures(later, (&self.info@[j as int], &self.info@[i as int]), true),
                    forall|k: int| j <= k < i ==> call_ensures(later, (&#[trigger] self.info@[k], &self.info@[i as int]), true),
                ensures
                    start <= j <= i,
                    j < i ==> call_ensures(later, (&self.info@[j as int], &self.info@[i as int]), true),
                    forall|k: int| j <= k < i ==> call_ensures(later, (&#[trigger] self.info@[k], &self.info@[i as int]), true),
                    j > start ==> call_ensures(later, (&self.info@[j - 1], &self.info@[i as int]), false),
                decreases j,
            {
                if j == start {
                    break;
                }
                let goes_after: bool = later(&self.info[j - 1], &self.info[i]);
                if !goes_after {
                    break;
                }
                j = j - 1;
            }
            let ghost before = self.info@;
            proof {
                assert(perm[i - start] == i);
                assert forall|k: int| j - start <= k < i - start implies keys_later(
                    later,
                    #[trigger] glyph_key(old(self).info@[perm[k]]),
                    glyph_key(old(self).info@[start + (i - start)]),
                ) by {
                    assert(glyph_key(before[start + k]) == glyph_key(old(self).info@[perm[k]]));
                    assert(glyph_key(before[i as int]) == glyph_key(old(self).info@[perm[i - start]]));
                    assert(call_ensures(later, (&before[start + k], &before[i as int]), true));
                }
                if j < i {
                    lemma_stable_insert(later, old(self).info@, perm, start as int, end as int, j - start, i - start);
                }
            }
            if i != j {
                let ghost c = self.merged_cluster(j as int, (i + 1) as int);
                self.merge_clusters(j, i + 1);
                proof {
                    lemma_merge_keeps_keys(before, self.info@, c, UNSAFE_TO_BREAK | UNSAFE_TO_CONCAT);
                }
                let ghost merged = self.info@;
                let mut v: Vec<GlyphInfo> = Vec::new();
                core::mem::swap(&mut v, &mut self.info);
                rotate_back(&mut v, j, i);
                core::mem::swap(&mut v, &mut self.info);
                proof {
                    lemma_rotation_keys(before, merged, self.info@, start as int, end as int, j as int, i as int);
                    lemma_rotation_in_order(before, merged, self.info@, start as int, j as int, i as int, later);
                    let q = j - start;
                    let p = i - start;
                    let perm2 = perm.subrange(0, q).push(perm[p]) + perm.subrange(q, p) + perm.subrange(
                        p + 1,
                        perm.len() as int,
                    );
                    lemma_rotation_perm(old(self).info@, before, merged, self.info@, perm, perm2, start as int, j as int, i as int);
                    perm = perm2;
                }
            }
            i = i + 1;
        }
    }

    /// Removes the glyphs that `filter` picks, keeping the others in order
    /// with their positions. A removed glyph's cluster goes to the glyphs
    /// around it: merged into the next glyph's when it starts the text,
    /// otherwise given to the kept glyphs of the cluster before it when it
    /// is smaller.
    pub fn delete_glyphs_inplace<F: Fn(&GlyphInfo) -> bool>(&mut self, filter: F)
        requires
            old(self).wf(),
            forall|g: GlyphInfo| #[trigger] call_requires(filter, (&g,)),
        ensures
            final(self).info@.len() == old(self).info@.len(),
            final(self).pos@.len() == old(self).pos@.len(),
            final(self).len <= old(self).len,
            old(self).idx <= final(self).len ==> final(self).wf(),
            final(self).same_settings(&*old(self)),
            exists|d: Seq<bool>|
                {
                    &&& d.len() == old(self).len
                    &&& forall|i: int| 0 <= i < d.len() ==> #[trigger] decided(filter, old(self).info@[i], d[i])
                    &&& glyph_keys(final(self).in_view()) == glyph_keys(kept(old(self).in_view(), d))
                    &&& final(self).pos@.take(final(self).len as int) == kept(
                        old(self).pos@.take(old(self).len as int),
                        d,
                    )
                },
    {
        let len: usize = self.len;
        let ghost s0 = self.in_view();
        let ghost p0 = self.pos@.take(len as int);
        let ghost mut d: Seq<bool> = Seq::empty();
        let mut j: usize = 0;
        let mut i: usize = 0;
        while i < len
            invariant
                j <= i <= len == self.len == old(self).len,
                self.wf(),
                self.info@.len() == old(self).info@.len(),
                self.pos@.len() == old(self).pos@.len(),
                self.same_settings(&*old(self)),
                self.idx == old(self).idx,
                s0 == old(self).in_view(),
                p0 == old(self).pos@.take(len as int),
                s0.len() == len && p0.len() == len,
                forall|g: GlyphInfo| #[trigger] call_requires(filter, (&g,)),
                d.len() == i,
                forall|k: int| 0 <= k < i ==> #[trigger] decided(filter, s0[k], d[k]),
                glyph_keys(self.info@.subrange(0, j as int)) == glyph_keys(kept(s0.subrange(0, i as int), d)),
                self.pos@.subrange(0, j as int) == kept(p0.subrange(0, i as int), d),
                forall|k: int| i <= k < len ==> glyph_key(#[trigger] self.info@[k]) == glyph_key(s0[k]),
                forall|k: int| i <= k < len ==> #[trigger] self.pos@[k] == p0[k],
            decreases len - i,
        {
            let g: GlyphInfo = self.info[i];
            let drop: bool = filter(&g);
            proof {
                assert(glyph_key(g) == glyph_key(s0[i as int]));
                assert(decided(filter, s0[i as int], drop));
                let dp = d;
                d = d.push(drop);
                lemma_kept_push(s0.subrange(0, i as int), dp, s0[i as int], drop);
                lemma_kept_push(p0.subrange(0, i as int), dp, p0[i as int], drop);
                assert(s0.subrange(0, i + 1) =~= s0.subrange(0, i as int).push(s0[i as int]));
                assert(p0.subrange(0, i + 1) =~= p0.subrange(0, i as int).push(p0[i as int]));
            }
            if drop {
                let cluster: u32 = g.cluster;
                if i + 1 < len && cluster == self.info[i + 1].cluster {
                    i = i + 1;
                    continue;
                }
                if j != 0 {
                    if cluster < self.info[j - 1].cluster {
                        let mask: u32 = g.mask;
                        let old_cluster: u32 = self.info[j - 1].cluster;
                        let mut v: Vec<GlyphInfo> = Vec::new();
                        core::mem::swap(&mut v, &mut self.info);
                        let ghost v0 = v@;
                        let mut k: usize = j;
                        while k > 0 && v[k - 1].cluster == old_cluster
                            invariant
                                k <= j <= v@.len(),
                                v@.len() == v0.len(),
                                forall|q: int| 0 <= q < v0.len() ==> glyph_key(#[trigger] v@[q]) == glyph_key(v0[q]),
                            decreases k,
                        {
                            let mut x: GlyphInfo = v[k - 1];
                            Buffer::set_cluster(&mut x, cluster, mask);
                            v.set(k - 1, x);
                            k = k - 1;
                        }
                        core::mem::swap(&mut v, &mut self.info);
                        proof {
                            lemma_keys_prefix_same(v0, self.info@, j as int);
                        }
                    }
                    i = i + 1;
                    continue;
                }
                if i + 1 < len {
                    let ghost before = self.info@;
                    let ghost c = self.merged_cluster(i as int, (i + 2) as int);
                    self.merge_clusters(i, i + 2);
                    proof {
                        lemma_merge_keeps_keys(before, self.info@, c, UNSAFE_TO_BREAK | UNSAFE_TO_CONCAT);
                        lemma_keys_prefix_same(before, self.info@, 0);
                    }
                }
                i = i + 1;
                continue;
            }
            let ghost info_before = self.info@;
            let ghost kept_before = kept(s0.subrange(0, i as int), d.take(i as int));
            if j != i {
                let x: GlyphInfo = self.info[i];
                let p: GlyphPosition = self.pos[i];
                let mut v: Vec<GlyphInfo> = Vec::new();
                core::mem::swap(&mut v, &mut self.info);
                v.set(j, x);
                core::mem::swap(&mut v, &mut self.info);
                let mut w: Vec<GlyphPosition> = Vec::new();
                core::mem::swap(&mut w, &mut self.pos);
                w.set(j, p);
                core::mem::swap(&mut w, &mut self.pos);
            }
            proof {
                assert(d.take(i as int) =~= d.drop_last());
                assert(self.info@.subrange(0, j + 1) =~= info_before.subrange(0, j as int).push(self.info@[j as int]));
                assert(glyph_key(self.info@[j as int]) == glyph_key(s0[i as int]));
                assert(glyph_keys(self.info@.subrange(0, j + 1)) =~= glyph_keys(info_before.subrange(0, j as int)).push(
                    glyph_key(s0[i as int]),
                ));
                assert(glyph_keys(kept_before.push(s0[i as int])) =~= glyph_keys(kept_before).push(glyph_key(s0[i as int])));
                assert(self.pos@.subrange(0, j + 1) =~= kept(p0.subrange(0, i + 1), d));
            }
            j = j + 1;
            i = i + 1;
        }
        self.len = j;
        proof {
            assert(s0.subrange(0, len as int) =~= s0);
            assert(p0.subrange(0, len as int) =~= p0);
            assert(self.in_view() =~= self.info@.subrange(0, j as int));
            assert(self.pos@.take(j as int) =~= self.pos@.subrange(0, j as int));
            assert forall|k: int| 0 <= k < d.len() implies #[trigger] decided(filter, old(self).info@[k], d[k]) by {
                assert(s0[k] == old(self).info@[k]);
            }
            assert(glyph_keys(self.in_view()) == glyph_keys(kept(old(self).in_view(), d)));
            assert(self.pos@.take(self.len as int) == kept(old(self).pos@.take(old(self).len as int), d));
        }
    }

    /// Reverses the glyphs of `start .. end`, with their positions when
    /// positioning has begun.
    pub fn reverse_range(&mut self, start: usize, end: usize)
        requires
            old(self).wf(),
            start <= end <= old(self).len,
        ensures
            final(self).wf(),
            final(self).len == old(self).len,
            final(self).info@.len() == old(self).info@.len(),
            final(self).info@ == old(self).info@.subrange(0, start as int) + old(self).info@.subrange(start as int, end as int).reverse() + old(self).info@.subrange(
                end as int,
                old(self).info@.len() as int,
            ),
            old(self).have_positions ==> final(self).pos@ == old(self).pos@.subrange(
                0,
                start as int,
            ) + old(self).pos@.subrange(start as int, end as int).reverse() + old(self).pos@.subrange(end as int, old(self).pos@.len() as int),
            !old(self).have_positions ==> final(self).pos == old(self).pos,
            final(self).idx == old(self).idx,
            final(self).out_len == old(self).out_len,
            final(self).have_output == old(self).have_output,
            final(self).out_lockstep == old(self).out_lockstep,
            final(self).out_info == old(self).out_info,
            final(self).same_settings(&*old(self)),
    {
        if end - start < 2 {
            assert(self.info@ =~= old(self).info@.subrange(0, start as int) + old(self).info@.subrange(start as int, end as int).reverse() + old(self).info@.subrange(
                end as int,
                old(self).info@.len() as int,
            ));
            assert(old(self).have_positions ==> self.pos@ =~= old(self).pos@.subrange(
                0,
                start as int,
            ) + old(self).pos@.subrange(start as int, end as int).reverse() + old(self).pos@.subrange(end as int, old(self).pos@.len() as int));
            return ;
        }
        let mut info: Vec<GlyphInfo> = Vec::new();
        core::mem::swap(&mut info, &mut self.info);
        reverse_vec_range(&mut info, start, end);
        core::mem::swap(&mut info, &mut self.info);
        if self.have_positions {
            let mut pos: Vec<GlyphPosition> = Vec::new();
            core::mem::swap(&mut pos, &mut self.pos);
            reverse_vec_range(&mut pos, start, end);
            core::mem::swap(&mut pos, &mut self.pos);
        }
    }

    /// Reverses the whole input.
    pub fn reverse(&mut self)
        requires
            old(self).wf(),
        ensures
            final(self).wf(),
            final(self).in_view() == old(self).in_view().reverse(),
            final(self).info@ == old(self).in_view().reverse() + old(self).info@.subrange(
                old(self).len as int,
                old(self).info@.len() as int,
            ),
            old(self).have_positions ==> final(self).pos@ == old(self).pos@.subrange(0, old(self).len as int).reverse()
                + old(self).pos@.subrange(old(self).len as int, old(self).pos@.len() as int),
            !old(self).have_positions ==> final(self).pos == old(self).pos,
            final(self).len == old(self).len,
            final(self).have_positions == old(self).have_positions,
            final(self).same_settings(&*old(self)),
    {
        if self.len == 0 {
            assert(self.in_view() =~= old(self).in_view().reverse());
            assert(self.info@ =~= old(self).in_view().reverse() + old(self).info@.subrange(0, old(self).info@.len() as int));
            assert(old(self).have_positions ==> self.pos@ =~= old(self).pos@.subrange(0, 0).reverse() + old(self).pos@.subrange(
                0,
                old(self).pos@.len() as int,
            ));
            return ;
        }
        let n: usize = self.len;
        self.reverse_range(0, n);
        assert(self.in_view() =~= old(self).in_view().reverse());
        assert(self.info@ =~= old(self).in_view().reverse() + old(self).info@.subrange(n as int, old(self).info@.len() as int));
        assert(old(self).have_positions ==> self.pos@ =~= old(self).pos@.subrange(0, n as int).reverse() + old(self).pos@.subrange(
            n as int,
            old(self).pos@.len() as int,
        ));
    }

    /// Sets every input glyph's mask to `mask`.
    pub fn reset_masks(&mut self, mask: u32)
        requires
            old(self).wf(),
        ensures
            final(self).wf(),
            final(self).len == old(self).len,
            final(self).info@.len() == old(self).info@.len(),
            forall|i: int|
                0 <= i < final(self).info@.len() ==> #[trigger] final(self).info@[i] == if i
                    < old(self).len {
                    GlyphInfo { mask, ..old(self).info@[i] }
                } else {
                    old(self).info@[i]
                },
            final(self).idx == old(self).idx,
            final(self).same_settings(&*old(self)),
    {
        let n: usize = self.len;
        let mut info: Vec<GlyphInfo> = Vec::new();
        core::mem::swap(&mut info, &mut self.info);
        let mut i: usize = 0;
        while i < n
            invariant
                i <= n,
                n <= info@.len(),
                info@.len() == old(self).info@.len(),
                forall|k: int|
                    0 <= k < info@.len() ==> #[trigger] info@[k] == if k < i {
                        GlyphInfo { mask, ..old(self).info@[k] }
                    } else {
                        old(self).info@[k]
                    },
            decreases n - i,
        {
            let mut g: GlyphInfo = info[i];
            g.mask = mask;
            info.set(i, g);
            i = i + 1;
        }
        core::mem::swap(&mut info, &mut self.info);
    }

    /// Sets the bits `mask` of the glyphs whose cluster lies in
    /// `cluster_start .. cluster_end` to those of `value`.
    pub fn set_masks(&mut self, value: u32, mask: u32, cluster_start: u32, cluster_end: u32)
        requires
            old(self).wf(),
        ensures
            final(self).wf(),
            final(self).len == old(self).len,
            final(self).info@.len() == old(self).info@.len(),
            forall|i: int|
                0 <= i < final(self).info@.len() ==> #[trigger] final(self).info@[i] == if mask
                    != 0 && i < old(self).len && cluster_start <= old(self).info@[i].cluster
                    < cluster_end {
                    GlyphInfo {
                        mask: (old(self).info@[i].mask & !mask) | (value & mask),
                        ..old(self).info@[i]
                    }
                } else {
                    old(self).info@[i]
                },
            final(self).idx == old(self).idx,
            final(self).same_settings(&*old(self)),
    {
        if mask == 0 {
            return ;
        }
        let value: u32 = value & mask;
        let n: usize = self.len;
        let mut info: Vec<GlyphInfo> = Vec::new();
        core::mem::swap(&mut info, &mut self.info);
        let mut i: usize = 0;
        while i < n
            invariant
                i <= n,
                n <= info@.len(),
                mask != 0,
                value == old_value_masked(value, mask),
                info@.len() == old(self).info@.len(),
                forall|k: int|
                    0 <= k < info@.len() ==> #[trigger] info@[k] == if k < i && cluster_start
                        <= old(self).info@[k].cluster < cluster_end {
                        GlyphInfo { mask: (old(self).info@[k].mask & !mask) | value, ..old(self).info@[k] }
                    } else {
                        old(self).info@[k]
                    },
            decreases n - i,
        {
            let mut g: GlyphInfo = info[i];
            if cluster_start <= g.cluster && g.cluster < cluster_end {
                g.mask = (g.mask & !mask) | value;
                info.set(i, g);
            }
            i = i + 1;
        }
        core::mem::swap(&mut info, &mut self.info);
    }

    /// Replaces each input glyph's id with its mapped glyph index.
    pub fn map_glyphs(&mut self)
        requires
            old(self).wf(),
        ensures
            final(self).wf(),
            final(self).len == old(self).len,
            final(self).info@.len() == old(self).info@.len(),
            forall|i: int|
                0 <= i < final(self).info@.len() ==> #[trigger] final(self).info@[i] == if i
                    < old(self).len {
                    GlyphInfo { id: old(self).info@[i].glyph_index, ..old(self).info@[i] }
                } else {
                    old(self).info@[i]
                },
            final(self).idx == old(self).idx,
            final(self).same_settings(&*old(self)),
    {
        let n: usize = self.len;
        let mut info: Vec<GlyphInfo> = Vec::new();
        core::mem::swap(&mut info, &mut self.info);
        let mut i: usize = 0;
        while i < n
            invariant
                i <= n,
                n <= info@.len(),
                info@.len() == old(self).info@.len(),
                forall|k: int|
                    0 <= k < info@.len() ==> #[trigger] info@[k] == if k < i {
                        GlyphInfo { id: old(self).info@[k].glyph_index, ..old(self).info@[k] }
                    } else {
                        old(self).info@[k]
                    },
            decreases n - i,
        {
            let mut g: GlyphInfo = info[i];
            g.id = g.glyph_index;
            info.set(i, g);
            i = i + 1;
        }
        core::mem::swap(&mut info, &mut self.info);
    }

    /// Prepares the limits for shaping a text of `len` glyphs.
    #[verifier::rlimit(40)]
    pub fn enter(&mut self)
        ensures
            final(self).serial == 0,
            !final(self).shaping_failed,
            final(self).scratch_flags == 0,
            final(self).info == old(self).info,
            final(self).pos == old(self).pos,
            final(self).out_info == old(self).out_info,
            final(self).len == old(self).len,
            final(self).idx == old(self).idx,
            final(self).out_len == old(self).out_len,
            final(self).have_output == old(self).have_output,
            final(self).out_lockstep == old(self).out_lockstep,
            final(self).successful == old(self).successful,
            final(self).pre_context_len == old(self).pre_context_len,
            final(self).post_context_len == old(self).post_context_len,
            final(self).cluster_level == old(self).cluster_level,
            old(self).len * 64 <= usize::MAX ==> final(self).max_len == if old(self).len * 64
                >= MAX_LEN_MIN {
                (old(self).len * 64) as usize
            } else {
                MAX_LEN_MIN
            },
            old(self).len * 64 > usize::MAX ==> final(self).max_len == old(self).max_len,
            old(self).len * 1024 <= i32::MAX ==> final(self).max_ops == if old(self).len * 1024
                >= MAX_OPS_MIN {
                (old(self).len * 1024) as i32
            } else {
                MAX_OPS_MIN
            },
            old(self).len * 1024 > i32::MAX ==> final(self).max_ops == old(self).max_ops,
    {
        self.serial = 0;
        self.shaping_failed = false;
        self.scratch_flags = 0;
        if let Some(n) = self.len.checked_mul(MAX_LEN_FACTOR) {
            self.max_len = if n > MAX_LEN_MIN {
                n
            } else {
                MAX_LEN_MIN
            };
        }
        if self.len <= i32::MAX as usize {
            let n: i32 = self.len as i32;
            if let Some(ops) = n.checked_mul(MAX_OPS_FACTOR) {
                self.max_ops = if ops > MAX_OPS_MIN {
                    ops
                } else {
                    MAX_OPS_MIN
                };
            }
        }
    }

    /// Restores the default limits after shaping.
    pub fn leave(&mut self)
        ensures
            *final(self) == (Buffer {
                max_len: MAX_LEN_DEFAULT,
                max_ops: MAX_OPS_DEFAULT,
                serial: 0,
                ..*old(self)
            }),
    {
        self.max_len = MAX_LEN_DEFAULT;
        self.max_ops = MAX_OPS_DEFAULT;
        self.serial = 0;
    }
}

/// `b` is `a`, possibly with the bits `m` added to its mask.
pub open spec fn flag_or_keep(a: GlyphInfo, b: GlyphInfo, m: u32) -> bool {
    b == a || b == (GlyphInfo { mask: a.mask | m, ..a })
}

/// Adding the flags `m` twice adds them once.
pub proof fn lemma_flag_or_keep_trans(a: GlyphInfo, b: GlyphInfo, c: GlyphInfo, m: u32)
    requires
        flag_or_keep(a, b, m),
        flag_or_keep(b, c, m),
    ensures
        flag_or_keep(a, c, m),
{
    let x: u32 = a.mask;
    assert((x | m) | m == x | m) by (bit_vector);
}

proof fn lemma_only_flags_added_trans(a: Buffer, b: Buffer, c: Buffer, m: u32)
    requires
        b.only_flags_added(&a, m),
        c.only_flags_added(&b, m),
    ensures
        c.only_flags_added(&a, m),
{
    assert forall|i: int| 0 <= i < a.info@.len() implies flag_or_keep(
        a.info@[i],
        #[trigger] c.info@[i],
        m,
    ) by {
        lemma_flag_or_keep_trans(a.info@[i], b.info@[i], c.info@[i], m);
    }
    assert forall|i: int| 0 <= i < a.out_info@.len() implies flag_or_keep(
        a.out_info@[i],
        #[trigger] c.out_info@[i],
        m,
    ) by {
        lemma_flag_or_keep_trans(a.out_info@[i], b.out_info@[i], c.out_info@[i], m);
    }
}

/// A glyph with the bits `m` added to its mask.
pub open spec fn flag_glyph(g: GlyphInfo, m: u32) -> GlyphInfo {
    GlyphInfo { mask: g.mask | m, ..g }
}

/// `v` with `m` added to the masks of `from .. to`.
pub open spec fn spec_or_masks(v: Seq<GlyphInfo>, from: int, to: int, m: u32) -> Seq<GlyphInfo> {
    Seq::new(v.len(), |i: int| if from <= i < to { flag_glyph(v[i], m) } else { v[i] })
}

/// Walking back from `i` towards `start` over glyphs outside cluster `c`:
/// where the walk stops.
pub open spec fn run_back(v: Seq<GlyphInfo>, start: int, i: int, c: u32) -> int
    decreases i - start,
{
    if i > start && v[i - 1].cluster != c {
        run_back(v, start, i - 1, c)
    } else {
        i
    }
}

/// Walking forward from `i` towards `end` over glyphs outside cluster `c`:
/// where the walk stops.
pub open spec fn run_fwd(v: Seq<GlyphInfo>, i: int, end: int, c: u32) -> int
    decreases end - i,
{
    if i < end && v[i].cluster != c {
        run_fwd(v, i + 1, end, c)
    } else {
        i
    }
}

/// `v` with `m` added to the glyphs of `lo .. hi` outside cluster `c`.
pub open spec fn flag_outside(v: Seq<GlyphInfo>, lo: int, hi: int, c: u32, m: u32) -> Seq<GlyphInfo> {
    Seq::new(v.len(), |i: int| if lo <= i < hi && v[i].cluster != c { flag_glyph(v[i], m) } else { v[i] })
}

/// Flagging the glyphs of `start .. end` that lie outside `cluster`: all of
/// them at character level or when `cluster` is neither end's cluster,
/// otherwise those past the run of `cluster` at the end that has it.
pub open spec fn spec_apply_flags(v: Seq<GlyphInfo>, start: int, end: int, cluster: u32, m: u32, characters: bool) -> Seq<GlyphInfo> {
    if start >= end {
        v
    } else if characters || (cluster != v[start].cluster && cluster != v[end - 1].cluster) {
        flag_outside(v, start, end, cluster, m)
    } else if cluster == v[start].cluster {
        flag_outside(v, run_back(v, start, end, cluster), end, cluster, m)
    } else {
        flag_outside(v, start, run_fwd(v, start, end, cluster), cluster, m)
    }
}

/// Adds `m` to the mask of `v[from .. to]`.
fn or_masks(v: &mut Vec<GlyphInfo>, from: usize, to: usize, m: u32)
    requires
        to <= old(v)@.len(),
    ensures
        final(v)@.len() == old(v)@.len(),
        forall|i: int|
            0 <= i < old(v)@.len() ==> #[trigger] final(v)@[i] == if from <= i < to {
                GlyphInfo { mask: old(v)@[i].mask | m, ..old(v)@[i] }
            } else {
                old(v)@[i]
            },
        final(v)@ == spec_or_masks(old(v)@, from as int, to as int, m),
{
    if from >= to {
        assert(v@ =~= spec_or_masks(old(v)@, from as int, to as int, m));
        return ;
    }
    let mut i: usize = from;
    while i < to
        invariant
            from <= i <= to,
            to <= v@.len(),
            v@.len() == old(v)@.len(),
            forall|k: int|
                0 <= k < v@.len() ==> #[trigger] v@[k] == if from <= k < i {
                    GlyphInfo { mask: old(v)@[k].mask | m, ..old(v)@[k] }
                } else {
                    old(v)@[k]
                },
        decreases to - i,
    {
        let mut g: GlyphInfo = v[i];
        g.mask = g.mask | m;
        v.set(i, g);
        i = i + 1;
    }
    assert(v@ =~= spec_or_masks(old(v)@, from as int, to as int, m));
}

/// The smallest cluster of `v[start .. end]` that unsafe-to-break flags
/// are measured against: every cluster at character level, the two ends
/// otherwise.
pub open spec fn spec_find_min_cluster(
    v: Seq<GlyphInfo>,
    start: int,
    end: int,
    cluster: u32,
    characters: bool,
) -> u32 {
    if start >= end {
        cluster
    } else {
        let base = if characters {
            min_cluster_from(v, start, end, cluster)
        } else {
            cluster
        };
        let a = v[start].cluster;
        let b = v[end - 1].cluster;
        let ends = if a < b {
            a
        } else {
            b
        };
        if base < ends {
            base
        } else {
            ends
        }
    }
}

fn find_min_cluster_in(v: &Vec<GlyphInfo>, start: usize, end: usize, cluster: u32, characters: bool) -> (r: u32)
    requires
        start < end ==> end <= v@.len(),
    ensures
        r == spec_find_min_cluster(v@, start as int, end as int, cluster, characters),
{
    if start >= end {
        return cluster;
    }
    let mut c: u32 = cluster;
    if characters {
        let mut i: usize = start;
        while i < end
            invariant
                start <= i <= end,
                end <= v@.len(),
                c == min_cluster_from(v@, start as int, i as int, cluster),
            decreases end - i,
        {
            if v[i].cluster < c {
                c = v[i].cluster;
            }
            i = i + 1;
        }
    }
    let a: u32 = v[start].cluster;
    let b: u32 = v[end - 1].cluster;
    let ends: u32 = if a < b {
        a
    } else {
        b
    };
    if c < ends {
        c
    } else {
        ends
    }
}

/// Flags the glyphs of `v[start .. end]` that lie outside `cluster`: all of
/// them at character level or when `cluster` is neither end's cluster,
/// otherwise those past the run that shares `cluster` at one end.
fn apply_glyph_flags_in(
    v: &mut Vec<GlyphInfo>,
    start: usize,
    end: usize,
    cluster: u32,
    m: u32,
    characters: bool,
)
    requires
        start < end ==> end <= old(v)@.len(),
    ensures
        final(v)@.len() == old(v)@.len(),
        forall|i: int|
            0 <= i < old(v)@.len() ==> flag_or_keep(old(v)@[i], #[trigger] final(v)@[i], m),
        forall|i: int|
            0 <= i < old(v)@.len() && !(start <= i < end) ==> #[trigger] final(v)@[i] == old(v)@[i],
        forall|i: int|
            0 <= i < old(v)@.len() && old(v)@[i].cluster == cluster ==> #[trigger] final(v)@[i]
                == old(v)@[i],
        start < end && (characters || (cluster != old(v)@[start as int].cluster && cluster != old(v)@[end - 1].cluster)) ==> forall|i: int|
            start <= i < end && old(v)@[i].cluster != cluster ==> #[trigger] final(v)@[i] == (
            GlyphInfo { mask: old(v)@[i].mask | m, ..old(v)@[i] }),
        final(v)@ == spec_apply_flags(old(v)@, start as int, end as int, cluster, m, characters),
{
    if start >= end {
        return ;
    }
    let first: u32 = v[start].cluster;
    let last: u32 = v[end - 1].cluster;
    if characters || (cluster != first && cluster != last) {
        let mut i: usize = start;
        while i < end
            invariant
                start <= i <= end,
                end <= v@.len(),
                v@.len() == old(v)@.len(),
                forall|k: int|
                    0 <= k < v@.len() ==> #[trigger] v@[k] == if start <= k < i && old(v)@[k].cluster
                        != cluster {
                        GlyphInfo { mask: old(v)@[k].mask | m, ..old(v)@[k] }
                    } else {
                        old(v)@[k]
                    },
            decreases end - i,
        {
            let mut g: GlyphInfo = v[i];
            if g.cluster != cluster {
                g.mask = g.mask | m;
                v.set(i, g);
            }
            i = i + 1;
        }
        assert(v@ =~= flag_outside(old(v)@, start as int, end as int, cluster, m));
        return ;
    }
    if cluster == first {
        let mut i: usize = end;
        while start < i && v[i - 1].cluster != first
            invariant
                start <= i <= end,
                cluster == first,
                first == old(v)@[start as int].cluster,
                run_back(old(v)@, start as int, end as int, first) == run_back(old(v)@, start as int, i as int, first),
                end <= v@.len(),
                v@.len() == old(v)@.len(),
                forall|k: int|
                    0 <= k < v@.len() ==> #[trigger] v@[k] == if i <= k < end && old(v)@[k].cluster
                        != cluster {
                        GlyphInfo { mask: old(v)@[k].mask | m, ..old(v)@[k] }
                    } else {
                        old(v)@[k]
                    },
            decreases i,
        {
            let mut g: GlyphInfo = v[i - 1];
            if cluster != g.cluster {
                g.mask = g.mask | m;
                v.set(i - 1, g);
            }
            i = i - 1;
        }
        assert(v@ =~= flag_outside(old(v)@, i as int, end as int, cluster, m));
    } else {
        let mut i: usize = start;
        while i < end && v[i].cluster != last
            invariant
                start <= i <= end,
                cluster == last,
                cluster != old(v)@[start as int].cluster,
                last == old(v)@[end - 1].cluster,
                run_fwd(old(v)@, start as int, end as int, last) == run_fwd(old(v)@, i as int, end as int, last),
                end <= v@.len(),
                v@.len() == old(v)@.len(),
                forall|k: int|
                    0 <= k < v@.len() ==> #[trigger] v@[k] == if start <= k < i && old(v)@[k].cluster
                        != cluster {
                        GlyphInfo { mask: old(v)@[k].mask | m, ..old(v)@[k] }
                    } else {
                        old(v)@[k]
                    },
            decreases end - i,
        {
            let mut g: GlyphInfo = v[i];
            if cluster != g.cluster {
                g.mask = g.mask | m;
                v.set(i, g);
            }
            i = i + 1;
        }
        assert(v@ =~= flag_outside(old(v)@, start as int, i as int, cluster, m));
    }
}

impl Buffer {
    /// Whether the output is kept apart from the input.
    pub open spec fn out_separate(&self) -> bool {
        self.have_output && !self.out_lockstep
    }

    /// The output glyphs' storage: the output array, or the input array
    /// while the two run in step.
    pub open spec fn out_storage(&self) -> Seq<GlyphInfo> {
        if self.out_separate() {
            self.out_info@
        } else {
            self.info@
        }
    }

    /// The end of a flag range, cut at the input's length.
    pub open spec fn flags_end(&self, end: int) -> int {
        if end < self.len {
            end
        } else {
            self.len as int
        }
    }

    /// Whether setting interior flags over `start .. end` has nothing to do:
    /// a range of less than two glyphs in the input.
    pub open spec fn glyph_flags_skipped(&self, start: int, end: int, interior: bool, from_out_buffer: bool) -> bool {
        interior && !from_out_buffer && self.flags_end(end) < start + 2
    }

    /// The input glyphs once the flags `mask` are set over `start .. end`
    /// (see `set_glyph_flags`).
    pub open spec fn glyph_flags_info(&self, mask: u32, start: int, end: int, interior: bool, from_out_buffer: bool) -> Seq<GlyphInfo> {
        let e = self.flags_end(end);
        let chars = self.cluster_level == ClusterLevel::Characters;
        if self.glyph_flags_skipped(start, end, interior, from_out_buffer) {
            self.info@
        } else if !from_out_buffer || !self.have_output {
            if interior {
                let c = spec_find_min_cluster(self.info@, start, e, u32::MAX, chars);
                spec_apply_flags(self.info@, start, e, c, mask, chars)
            } else {
                spec_or_masks(self.info@, start, e, mask)
            }
        } else if interior {
            let c1 = spec_find_min_cluster(self.info@, self.idx as int, e, u32::MAX, chars);
            let c = spec_find_min_cluster(self.out_storage(), start, self.out_len as int, c1, chars);
            if self.out_separate() {
                spec_apply_flags(self.info@, self.idx as int, e, c, mask, chars)
            } else {
                spec_apply_flags(
                    spec_apply_flags(self.info@, start, self.out_len as int, c, mask, chars),
                    self.idx as int,
                    e,
                    c,
                    mask,
                    chars,
                )
            }
        } else if self.out_separate() {
            spec_or_masks(self.info@, self.idx as int, e, mask)
        } else {
            spec_or_masks(spec_or_masks(self.info@, start, self.out_len as int, mask), self.idx as int, e, mask)
        }
    }

    /// The output array once the flags `mask` are set over `start .. end`.
    pub open spec fn glyph_flags_out(&self, mask: u32, start: int, end: int, interior: bool, from_out_buffer: bool) -> Seq<GlyphInfo> {
        let e = self.flags_end(end);
        let chars = self.cluster_level == ClusterLevel::Characters;
        if self.glyph_flags_skipped(start, end, interior, from_out_buffer) || !from_out_buffer || !self.out_separate() {
            self.out_info@
        } else if interior {
            let c1 = spec_find_min_cluster(self.info@, self.idx as int, e, u32::MAX, chars);
            let c = spec_find_min_cluster(self.out_info@, start, self.out_len as int, c1, chars);
            spec_apply_flags(self.out_info@, start, self.out_len as int, c, mask, chars)
        } else {
            spec_or_masks(self.out_info@, start, self.out_len as int, mask)
        }
    }

    /// The buffer after the flags `mask` are set over `start .. end`: its
    /// glyphs as above, and the buffer noted as having glyph flags unless
    /// there was nothing to do.
    pub open spec fn glyph_flags_set(&self, old: &Buffer, mask: u32, start: int, end: int, interior: bool, from_out_buffer: bool) -> bool {
        &&& self.only_flags_added(old, mask)
        &&& self.info@ == old.glyph_flags_info(mask, start, end, interior, from_out_buffer)
        &&& self.out_info@ == old.glyph_flags_out(mask, start, end, interior, from_out_buffer)
        &&& self.scratch_flags == if old.glyph_flags_skipped(start, end, interior, from_out_buffer) {
            old.scratch_flags
        } else {
            old.scratch_flags | HAS_GLYPH_FLAGS
        }
    }

    /// Only masks change, and only by gaining the bits `m`.
    pub open spec fn only_flags_added(&self, old: &Buffer, m: u32) -> bool {
        &&& self.wf()
        &&& self.info@.len() == old.info@.len()
        &&& self.out_info@.len() == old.out_info@.len()
        &&& forall|i: int|
            0 <= i < old.info@.len() ==> flag_or_keep(old.info@[i], #[trigger] self.info@[i], m)
        &&& forall|i: int|
            0 <= i < old.out_info@.len() ==> flag_or_keep(
                old.out_info@[i],
                #[trigger] self.out_info@[i],
                m,
            )
        &&& self.pos == old.pos
        &&& self.len == old.len
        &&& self.idx == old.idx
        &&& self.out_len == old.out_len
        &&& self.have_output == old.have_output
        &&& self.out_lockstep == old.out_lockstep
        &&& self.successful == old.successful
        &&& self.same_settings(old)
    }

    fn or_masks_out(&mut self, from: usize, to: usize, m: u32)
        requires
            old(self).wf(),
            to <= old(self).out_len,
        ensures
            final(self).only_flags_added(&*old(self), m),
            final(self).scratch_flags == old(self).scratch_flags,
            old(self).out_separate() ==> final(self).out_info@ == spec_or_masks(old(self).out_info@, from as int, to as int, m)
                && final(self).info@ == old(self).info@,
            !old(self).out_separate() ==> final(self).info@ == spec_or_masks(old(self).info@, from as int, to as int, m)
                && final(self).out_info@ == old(self).out_info@,
    {
        if self.have_output && !self.out_lockstep {
            let mut v: Vec<GlyphInfo> = Vec::new();
            core::mem::swap(&mut v, &mut self.out_info);
            or_masks(&mut v, from, to, m);
            core::mem::swap(&mut v, &mut self.out_info);
        } else {
            let mut v: Vec<GlyphInfo> = Vec::new();
            core::mem::swap(&mut v, &mut self.info);
            or_masks(&mut v, from, to, m);
            core::mem::swap(&mut v, &mut self.info);
        }
    }

    fn apply_glyph_flags(&mut self, out: bool, start: usize, end: usize, cluster: u32, m: u32)
        requires
            old(self).wf(),
            start < end ==> end <= if out {
                old(self).out_len
            } else {
                old(self).len
            },
        ensures
            final(self).only_flags_added(&*old(self), m),
            final(self).scratch_flags == old(self).scratch_flags,
            !out ==> final(self).out_info == old(self).out_info,
            !out ==> forall|i: int|
                0 <= i < old(self).info@.len() && !(start <= i < end) ==> #[trigger] final(self).info@[i] == old(self).info@[i],
            !out ==> forall|i: int|
                0 <= i < old(self).info@.len() && old(self).info@[i].cluster == cluster
                    ==> #[trigger] final(self).info@[i] == old(self).info@[i],
            out && old(self).out_separate() ==> final(self).out_info@ == spec_apply_flags(
                old(self).out_info@,
                start as int,
                end as int,
                cluster,
                m,
                old(self).cluster_level == ClusterLevel::Characters,
            ) && final(self).info@ == old(self).info@,
            !(out && old(self).out_separate()) ==> final(self).info@ == spec_apply_flags(
                old(self).info@,
                start as int,
                end as int,
                cluster,
                m,
                old(self).cluster_level == ClusterLevel::Characters,
            ) && final(self).out_info@ == old(self).out_info@,
    {
        let characters: bool = self.cluster_level == ClusterLevel::Characters;
        if out && self.have_output && !self.out_lockstep {
            let mut v: Vec<GlyphInfo> = Vec::new();
            core::mem::swap(&mut v, &mut self.out_info);
            apply_glyph_flags_in(&mut v, start, end, cluster, m, characters);
            core::mem::swap(&mut v, &mut self.out_info);
        } else {
            let mut v: Vec<GlyphInfo> = Vec::new();
            core::mem::swap(&mut v, &mut self.info);
            apply_glyph_flags_in(&mut v, start, end, cluster, m, characters);
            core::mem::swap(&mut v, &mut self.info);
        }
    }

    fn find_min_cluster(&self, out: bool, start: usize, end: usize, cluster: u32) -> (r: u32)
        requires
            self.wf(),
            start < end ==> end <= if out {
                self.out_len
            } else {
                self.len
            },
        ensures
            r == spec_find_min_cluster(
                if out && self.have_output && !self.out_lockstep {
                    self.out_info@
                } else {
                    self.info@
                },
                start as int,
                end as int,
                cluster,
                self.cluster_level == ClusterLevel::Characters,
            ),
    {
        let characters: bool = self.cluster_level == ClusterLevel::Characters;
        if out && self.have_output && !self.out_lockstep {
            find_min_cluster_in(&self.out_info, start, end, cluster, characters)
        } else {
            find_min_cluster_in(&self.info, start, end, cluster, characters)
        }
    }

    /// Adds the glyph flags `mask` over `start .. end`: when `interior`,
    /// only to glyphs outside the range's smallest cluster, so the flags
    /// mark positions inside the range; when `from_out_buffer`, the range
    /// starts in the output and runs on into the input.
    #[verifier::spinoff_prover]
    #[verifier::rlimit(80)]
    pub fn set_glyph_flags(
        &mut self,
        mask: u32,
        start: usize,
        end: usize,
        interior: bool,
        from_out_buffer: bool,
    )
        requires
            old(self).wf(),
        ensures
            final(self).glyph_flags_set(&*old(self), mask, start as int, end as int, interior, from_out_buffer),
            final(self).only_flags_added(&*old(self), mask),
            final(self).scratch_flags == old(self).scratch_flags || final(self).scratch_flags
                == old(self).scratch_flags | HAS_GLYPH_FLAGS,
            !interior && (!from_out_buffer || !old(self).have_output) ==> forall|i: int|
                start <= i < old(self).len ==> #[trigger] final(self).info@[i].mask == old(self).info@[i].mask | mask || i >= end,
    {
        let end: usize = if end < self.len {
            end
        } else {
            self.len
        };
        if interior && !from_out_buffer && end.saturating_sub(start) < 2 {
            return ;
        }
        self.scratch_flags = self.scratch_flags | HAS_GLYPH_FLAGS;
        if !from_out_buffer || !self.have_output {
            if interior {
                let cluster: u32 = self.find_min_cluster(false, start, end, u32::MAX);
                self.apply_glyph_flags(false, start, end, cluster, mask);
            } else {
                let mut v: Vec<GlyphInfo> = Vec::new();
                core::mem::swap(&mut v, &mut self.info);
                or_masks(&mut v, start, end, mask);
                core::mem::swap(&mut v, &mut self.info);
            }
        } else if interior {
            let idx: usize = self.idx;
            let out_len: usize = self.out_len;
            let mut cluster: u32 = self.find_min_cluster(false, idx, end, u32::MAX);
            cluster = self.find_min_cluster(true, start, out_len, cluster);
            let ghost s0 = *self;
            self.apply_glyph_flags(true, start, out_len, cluster, mask);
            let ghost s1 = *self;
            self.apply_glyph_flags(false, idx, end, cluster, mask);
            proof {
                lemma_only_flags_added_trans(s0, s1, *self, mask);
            }
        } else {
            let idx: usize = self.idx;
            let out_len: usize = self.out_len;
            let ghost s0 = *self;
            self.or_masks_out(start, out_len, mask);
            let ghost s1 = *self;
            let mut v: Vec<GlyphInfo> = Vec::new();
            core::mem::swap(&mut v, &mut self.info);
            or_masks(&mut v, idx, end, mask);
            core::mem::swap(&mut v, &mut self.info);
            proof {
                lemma_only_flags_added_trans(s0, s1, *self, mask);
            }
        }
    }

    /// Marks `start .. end` as a place where the text may not be broken or
    /// concatenated.
    pub fn unsafe_to_break(&mut self, start: usize, end: usize)
        requires
            old(self).wf(),
        ensures
            final(self).only_flags_added(&*old(self), UNSAFE_TO_BREAK | UNSAFE_TO_CONCAT),
            final(self).glyph_flags_set(&*old(self), UNSAFE_TO_BREAK | UNSAFE_TO_CONCAT, start as int, end as int, true, false),
    {
        self.set_glyph_flags(UNSAFE_TO_BREAK | UNSAFE_TO_CONCAT, start, end, true, false);
    }

    pub fn unsafe_to_break_from_outbuffer(&mut self, start: usize, end: usize)
        requires
            old(self).wf(),
        ensures
            final(self).only_flags_added(&*old(self), UNSAFE_TO_BREAK | UNSAFE_TO_CONCAT),
            final(self).glyph_flags_set(&*old(self), UNSAFE_TO_BREAK | UNSAFE_TO_CONCAT, start as int, end as int, true, true),
    {
        self.set_glyph_flags(UNSAFE_TO_BREAK | UNSAFE_TO_CONCAT, start, end, true, true);
    }

    /// Marks `start .. end` as a place where a tatweel may be inserted, or,
    /// when that flag is not produced, as unsafe to break.
    pub fn safe_to_insert_tatweel(&mut self, start: usize, end: usize)
        requires
            old(self).wf(),
        ensures
            old(self).produce_safe_to_insert_tatweel ==> final(self).only_flags_added(
                &*old(self),
                SAFE_TO_INSERT_TATWEEL,
            ),
            !old(self).produce_safe_to_insert_tatweel ==> final(self).only_flags_added(
                &*old(self),
                UNSAFE_TO_BREAK | UNSAFE_TO_CONCAT,
            ),
            old(self).produce_safe_to_insert_tatweel ==> final(self).glyph_flags_set(&*old(self), SAFE_TO_INSERT_TATWEEL, start as int, end as int, true, false),
            !old(self).produce_safe_to_insert_tatweel ==> final(self).glyph_flags_set(&*old(self), UNSAFE_TO_BREAK | UNSAFE_TO_CONCAT, start as int, end as int, true, false),
    {
        if !self.produce_safe_to_insert_tatweel {
            self.unsafe_to_break(start, end);
            return ;
        }
        self.set_glyph_flags(SAFE_TO_INSERT_TATWEEL, start, end, true, false);
    }

    pub fn unsafe_to_concat(&mut self, start: usize, end: usize)
        requires
            old(self).wf(),
        ensures
            final(self).only_flags_added(&*old(self), UNSAFE_TO_CONCAT),
            !old(self).produce_unsafe_to_concat ==> *final(self) == *old(self),
            old(self).produce_unsafe_to_concat ==> final(self).glyph_flags_set(&*old(self), UNSAFE_TO_CONCAT, start as int, end as int, false, false),
    {
        if !self.produce_unsafe_to_concat {
            return ;
        }
        self.set_glyph_flags(UNSAFE_TO_CONCAT, start, end, false, false);
    }

    pub fn unsafe_to_concat_from_outbuffer(&mut self, start: usize, end: usize)
        requires
            old(self).wf(),
        ensures
            final(self).only_flags_added(&*old(self), UNSAFE_TO_CONCAT),
            !old(self).produce_unsafe_to_concat ==> *final(self) == *old(self),
            old(self).produce_unsafe_to_concat ==> final(self).glyph_flags_set(&*old(self), UNSAFE_TO_CONCAT, start as int, end as int, false, true),
    {
        if !self.produce_unsafe_to_concat {
            return ;
        }
        self.set_glyph_flags(UNSAFE_TO_CONCAT, start, end, false, true);
    }
}

/// `b` is `a`, or `a` moved to cluster `c`.
pub open spec fn relabel_or_keep(a: GlyphInfo, b: GlyphInfo, c: u32, mask: u32) -> bool {
    b == a || b == spec_set_cluster(a, c, mask)
}

proof fn lemma_relabel_or_keep_trans(a: GlyphInfo, b: GlyphInfo, d: GlyphInfo, c: u32, mask: u32)
    requires
        relabel_or_keep(a, b, c, mask),
        relabel_or_keep(b, d, c, mask),
    ensures
        relabel_or_keep(a, d, c, mask),
{
}

/// Walks forward from `from`, below `limit`, over the glyphs of cluster
/// `old_cluster`, moving them to `cluster`.
fn relabel_run_after(
    v: &mut Vec<GlyphInfo>,
    from: usize,
    limit: usize,
    old_cluster: u32,
    cluster: u32,
    mask: u32,
) -> (end: usize)
    requires
        from <= limit <= old(v)@.len(),
    ensures
        from <= end <= limit,
        final(v)@.len() == old(v)@.len(),
        forall|i: int|
            0 <= i < old(v)@.len() ==> #[trigger] final(v)@[i] == if from <= i < end {
                spec_set_cluster(old(v)@[i], cluster, mask)
            } else {
                old(v)@[i]
            },
{
    let mut i: usize = from;
    while i < limit && v[i].cluster == old_cluster
        invariant
            from <= i <= limit,
            limit <= v@.len(),
            v@.len() == old(v)@.len(),
            forall|k: int|
                0 <= k < v@.len() ==> #[trigger] v@[k] == if from <= k < i {
                    spec_set_cluster(old(v)@[k], cluster, mask)
                } else {
                    old(v)@[k]
                },
        decreases limit - i,
    {
        let mut g: GlyphInfo = v[i];
        Buffer::set_cluster(&mut g, cluster, mask);
        v.set(i, g);
        i = i + 1;
    }
    i
}

impl Buffer {
    /// Only clusters change, each either kept or moved to `c` (taking the
    /// defined flags of `mask` when it moves).
    pub open spec fn only_relabelled(&self, old: &Buffer, c: u32, mask: u32) -> bool {
        &&& self.wf()
        &&& self.info@.len() == old.info@.len()
        &&& self.out_info@.len() == old.out_info@.len()
        &&& forall|i: int|
            0 <= i < old.info@.len() ==> relabel_or_keep(
                old.info@[i],
                #[trigger] self.info@[i],
                c,
                mask,
            )
        &&& forall|i: int|
            0 <= i < old.out_info@.len() ==> relabel_or_keep(
                old.out_info@[i],
                #[trigger] self.out_info@[i],
                c,
                mask,
            )
        &&& self.pos == old.pos
        &&& self.len == old.len
        &&& self.idx == old.idx
        &&& self.out_len == old.out_len
        &&& self.have_output == old.have_output
        &&& self.out_lockstep == old.out_lockstep
        &&& self.successful == old.successful
        &&& self.scratch_flags == old.scratch_flags
        &&& self.same_settings(old)
    }

    /// Moves the glyphs that end the output stream and share the cluster
    /// `old_cluster` to `cluster`.
    fn relabel_out_tail(&mut self, old_cluster: u32, cluster: u32, mask: u32)
        requires
            old(self).wf(),
        ensures
            final(self).only_relabelled(&*old(self), cluster, mask),
            forall|i: int|
                old(self).out_len <= i < old(self).info@.len() ==> #[trigger] final(self).info@[i]
                    == old(self).info@[i],
            old(self).out_separate() ==> final(self).out_info@ == spec_relabel_tail(
                old(self).out_info@,
                old(self).out_len as int,
                old_cluster,
                cluster,
                mask,
            ) && final(self).info@ == old(self).info@,
            !old(self).out_separate() ==> final(self).info@ == spec_relabel_tail(
                old(self).info@,
                old(self).out_len as int,
                old_cluster,
                cluster,
                mask,
            ) && final(self).out_info@ == old(self).out_info@,
    {
        let end: usize = self.out_len;
        if self.have_output && !self.out_lockstep {
            let mut v: Vec<GlyphInfo> = Vec::new();
            core::mem::swap(&mut v, &mut self.out_info);
            let _ = relabel_run_before(&mut v, end, old_cluster, cluster, mask);
            core::mem::swap(&mut v, &mut self.out_info);
        } else {
            let mut v: Vec<GlyphInfo> = Vec::new();
            core::mem::swap(&mut v, &mut self.info);
            let _ = relabel_run_before(&mut v, end, old_cluster, cluster, mask);
            core::mem::swap(&mut v, &mut self.info);
        }
    }

    /// The input glyphs `b` are `a` with `lo .. hi` moved to cluster `c`,
    /// where `lo .. hi` widens `start .. end` to whole clusters, no further
    /// back than `idx`.
    pub open spec fn merged_span(a: Seq<GlyphInfo>, b: Seq<GlyphInfo>, lo: int, hi: int, start: int, end: int, idx: int, len: int, c: u32) -> bool {
        &&& lo <= start
        &&& end <= hi <= len
        &&& lo < start ==> idx <= lo && (lo == idx || a[lo - 1].cluster != a[lo].cluster)
        &&& hi > end ==> hi == len || a[hi - 1].cluster != a[hi].cluster
        &&& b.len() == a.len()
        &&& forall|k: int| 0 <= k < a.len() ==> #[trigger] b[k] == if lo <= k < hi {
            spec_set_cluster(a[k], c, 0)
        } else {
            a[k]
        }
    }

    /// Merges the clusters of input glyphs `start .. end` into their
    /// smallest cluster, widening the range to whole clusters and carrying
    /// the change into the output where the cluster began there.
    #[verifier::rlimit(40)]
    pub fn merge_clusters_impl(&mut self, start: usize, end: usize)
        requires
            old(self).wf(),
            start < end <= old(self).len,
        ensures
            final(self).only_relabelled(
                &*old(self),
                min_cluster_from(
                    old(self).info@,
                    start + 1,
                    end as int,
                    old(self).info@[start as int].cluster,
                ),
                0,
            ),
            forall|i: int|
                start <= i < end ==> #[trigger] final(self).info@[i].cluster == min_cluster_from(
                    old(self).info@,
                    start + 1,
                    end as int,
                    old(self).info@[start as int].cluster,
                ),
            old(self).out_len == 0 ==> exists|lo: int, hi: int|
                Self::merged_span(
                    old(self).info@,
                    final(self).info@,
                    lo,
                    hi,
                    start as int,
                    end as int,
                    old(self).idx as int,
                    old(self).len as int,
                    old(self).merged_cluster(start as int, end as int),
                ),
    {
        let ghost c0 = min_cluster_from(
            old(self).info@,
            start + 1,
            end as int,
            old(self).info@[start as int].cluster,
        );
        let mut cluster: u32 = self.info[start].cluster;
        let mut i: usize = start + 1;
        while i < end
            invariant
                start < i <= end,
                end <= self.len,
                self.len <= self.info@.len(),
                cluster == min_cluster_from(
                    self.info@,
                    start + 1,
                    i as int,
                    self.info@[start as int].cluster,
                ),
            decreases end - i,
        {
            if self.info[i].cluster < cluster {
                cluster = self.info[i].cluster;
            }
            i = i + 1;
        }
        let mut hi: usize = end;
        if cluster != self.info[hi - 1].cluster {
            while hi < self.len && self.info[hi - 1].cluster == self.info[hi].cluster
                invariant
                    end <= hi <= self.len,
                    self.info == old(self).info,
                    0 < end,
                    self.len <= self.info@.len(),
                decreases self.len - hi,
            {
                hi = hi + 1;
            }
        }
        let mut lo: usize = start;
        if self.info[lo].cluster != cluster {
            while lo > self.idx && self.info[lo - 1].cluster == self.info[lo].cluster
                invariant
                    lo <= start,
                    lo < start ==> self.idx <= lo,
                    self.info == old(self).info,
                    start < end <= hi,
                    hi <= self.len,
                    self.len <= self.info@.len(),
                decreases lo,
            {
                lo = lo - 1;
            }
        }
        let ghost s0 = *self;
        if self.idx == lo && self.out_len != 0 && self.info[lo].cluster != cluster {
            let target: u32 = self.info[lo].cluster;
            self.relabel_out_tail(target, cluster, 0);
        }
        let ghost s1 = *self;
        let mut v: Vec<GlyphInfo> = Vec::new();
        core::mem::swap(&mut v, &mut self.info);
        set_clusters(&mut v, lo, hi, cluster, 0);
        core::mem::swap(&mut v, &mut self.info);
        proof {
            assert forall|k: int| 0 <= k < s0.info@.len() implies relabel_or_keep(
                s0.info@[k],
                #[trigger] self.info@[k],
                cluster,
                0,
            ) by {
                lemma_relabel_or_keep_trans(s0.info@[k], s1.info@[k], self.info@[k], cluster, 0);
            }
            if old(self).out_len == 0 {
                assert(Self::merged_span(
                    old(self).info@,
                    self.info@,
                    lo as int,
                    hi as int,
                    start as int,
                    end as int,
                    old(self).idx as int,
                    old(self).len as int,
                    old(self).merged_cluster(start as int, end as int),
                ));
            }
        }
    }
}

impl Buffer {
    /// The merged cluster of input glyphs `start .. end`.
    pub open spec fn merged_cluster(&self, start: int, end: int) -> u32 {
        min_cluster_from(self.info@, start + 1, end, self.info@[start].cluster)
    }

    /// Merges input glyphs `start .. end` into one cluster at a monotone
    /// cluster level; at the other levels the range is only marked unsafe
    /// to break.
    pub fn merge_clusters(&mut self, start: usize, end: usize)
        requires
            old(self).wf(),
            start <= end <= old(self).len,
        ensures
            end - start < 2 ==> *final(self) == *old(self),
            end - start >= 2 && !old(self).cluster_level.spec_is_monotone() ==> final(self).only_flags_added(&*old(self), UNSAFE_TO_BREAK | UNSAFE_TO_CONCAT),
            end - start >= 2 && old(self).cluster_level.spec_is_monotone() ==> final(self).only_relabelled(&*old(self), old(self).merged_cluster(start as int, end as int), 0)
                && forall|i: int|
                start <= i < end ==> #[trigger] final(self).info@[i].cluster == old(self).merged_cluster(start as int, end as int),
            final(self).wf(),
            final(self).len == old(self).len,
            final(self).idx == old(self).idx,
            final(self).out_len == old(self).out_len,
            final(self).have_output == old(self).have_output,
            final(self).successful == old(self).successful,
            final(self).same_settings(&*old(self)),
    {
        if end - start < 2 {
            return ;
        }
        if !self.cluster_level.is_monotone() {
            self.unsafe_to_break(start, end);
            return ;
        }
        self.merge_clusters_impl(start, end);
    }

    /// Merges input glyphs `start .. end` into one cluster at a grapheme
    /// cluster level; at the other levels the range is only marked unsafe
    /// to break.
    pub fn merge_grapheme_clusters(&mut self, start: usize, end: usize)
        requires
            old(self).wf(),
            start <= end <= old(self).len,
        ensures
            end - start < 2 ==> *final(self) == *old(self),
            end - start >= 2 && !old(self).cluster_level.spec_is_graphemes() ==> final(self).only_flags_added(&*old(self), UNSAFE_TO_BREAK | UNSAFE_TO_CONCAT),
            end - start >= 2 && old(self).cluster_level.spec_is_graphemes() ==> final(self).only_relabelled(&*old(self), old(self).merged_cluster(start as int, end as int), 0)
                && forall|i: int|
                start <= i < end ==> #[trigger] final(self).info@[i].cluster == old(self).merged_cluster(start as int, end as int),
            end - start >= 2 && old(self).cluster_level.spec_is_graphemes() && old(self).out_len == 0 ==> exists|lo: int, hi: int|
                Self::merged_span(
                    old(self).info@,
                    final(self).info@,
                    lo,
                    hi,
                    start as int,
                    end as int,
                    old(self).idx as int,
                    old(self).len as int,
                    old(self).merged_cluster(start as int, end as int),
                ),
    {
        if end - start < 2 {
            return ;
        }
        if !self.cluster_level.is_graphemes() {
            self.unsafe_to_break(start, end);
            return ;
        }
        self.merge_clusters_impl(start, end);
    }

    /// Merges output glyphs `start .. end` into their smallest cluster,
    /// widening to whole clusters and carrying the change on into the input
    /// when the range reaches the end of the output.
    #[verifier::rlimit(60)]
    pub fn merge_out_clusters_impl(&mut self, start: usize, end: usize)
        requires
            old(self).wf(),
            old(self).have_output,
            start < end <= old(self).out_len,
        ensures
            final(self).wf(),
            final(self).have_output,
            final(self).len == old(self).len,
            final(self).idx == old(self).idx,
            final(self).successful ==> old(self).successful,
            old(self).successful && old(self).materializes() ==> final(self).successful,
            final(self).successful ==> final(self).out_len == old(self).out_len,
            final(self).successful ==> forall|i: int|
                0 <= i < old(self).out_len ==> relabel_or_keep(
                    old(self).out_view()[i],
                    #[trigger] final(self).out_view()[i],
                    min_cluster_from(
                        old(self).out_view(),
                        start + 1,
                        end as int,
                        old(self).out_view()[start as int].cluster,
                    ),
                    0,
                ),
            final(self).successful ==> forall|i: int|
                start <= i < end ==> #[trigger] final(self).out_view()[i].cluster
                    == min_cluster_from(
                    old(self).out_view(),
                    start + 1,
                    end as int,
                    old(self).out_view()[start as int].cluster,
                ),
            final(self).successful ==> forall|i: int|
                old(self).idx <= i < old(self).len ==> relabel_or_keep(
                    old(self).info@[i],
                    #[trigger] final(self).info@[i],
                    min_cluster_from(
                        old(self).out_view(),
                        start + 1,
                        end as int,
                        old(self).out_view()[start as int].cluster,
                    ),
                    0,
                ),
            final(self).same_settings(&*old(self)),
    {
        self.materialize_out();
        if end > self.out_len || !self.successful {
            return ;
        }
        let ghost view0 = self.out_view();
        let mut cluster: u32 = self.out_info[start].cluster;
        let mut i: usize = start + 1;
        while i < end
            invariant
                start < i <= end,
                end <= self.out_len,
                self.out_len <= self.out_info@.len(),
                cluster == min_cluster_from(
                    self.out_info@,
                    start + 1,
                    i as int,
                    self.out_info@[start as int].cluster,
                ),
            decreases end - i,
        {
            if self.out_info[i].cluster < cluster {
                cluster = self.out_info[i].cluster;
            }
            i = i + 1;
        }
        proof {
            assert(forall|k: int| 0 <= k < self.out_len ==> #[trigger] view0[k] == self.out_info@[k]);
            lemma_min_cluster_same(view0, self.out_info@, start + 1, end as int, view0[start as int].cluster);
        }
        let mut lo: usize = start;
        if self.out_info[lo].cluster != cluster {
            while lo > 0 && self.out_info[lo - 1].cluster == self.out_info[lo].cluster
                invariant
                    lo <= start,
                    start < end <= self.out_len,
                    self.out_len <= self.out_info@.len(),
                decreases lo,
            {
                lo = lo - 1;
            }
        }
        let mut hi: usize = end;
        if cluster != self.out_info[hi - 1].cluster {
            while hi < self.out_len && self.out_info[hi - 1].cluster == self.out_info[hi].cluster
                invariant
                    end <= hi <= self.out_len,
                    0 < end,
                    self.out_len <= self.out_info@.len(),
                decreases self.out_len - hi,
            {
                hi = hi + 1;
            }
        }
        let ghost s0 = *self;
        if hi == self.out_len {
            let target: u32 = self.out_info[hi - 1].cluster;
            let (from, limit) = (self.idx, self.len);
            let mut v: Vec<GlyphInfo> = Vec::new();
            core::mem::swap(&mut v, &mut self.info);
            let _ = relabel_run_after(&mut v, from, limit, target, cluster, 0);
            core::mem::swap(&mut v, &mut self.info);
        }
        let mut v: Vec<GlyphInfo> = Vec::new();
        core::mem::swap(&mut v, &mut self.out_info);
        set_clusters(&mut v, lo, hi, cluster, 0);
        core::mem::swap(&mut v, &mut self.out_info);
    }

    /// The output glyphs `start .. end` merged into their smallest cluster:
    /// every output glyph kept or moved to it, those of the range moved,
    /// and input glyphs from the current one kept or moved to it too.
    pub open spec fn out_clusters_merged(&self, old: &Buffer, start: int, end: int) -> bool {
        let c = min_cluster_from(old.out_view(), start + 1, end, old.out_view()[start].cluster);
        &&& forall|i: int| 0 <= i < old.out_len ==> relabel_or_keep(old.out_view()[i], #[trigger] self.out_view()[i], c, 0)
        &&& forall|i: int| start <= i < end ==> #[trigger] self.out_view()[i].cluster == c
        &&& forall|i: int| old.idx <= i < old.len ==> relabel_or_keep(old.info@[i], #[trigger] self.info@[i], c, 0)
    }

    pub fn merge_out_clusters(&mut self, start: usize, end: usize)
        requires
            old(self).wf(),
            old(self).have_output,
            start <= end <= old(self).out_len,
        ensures
            final(self).wf(),
            final(self).have_output,
            final(self).len == old(self).len,
            final(self).idx == old(self).idx,
            end - start < 2 || !old(self).cluster_level.spec_is_monotone() ==> *final(self)
                == *old(self),
            end - start >= 2 && old(self).cluster_level.spec_is_monotone() && final(self).successful
                ==> final(self).out_clusters_merged(&*old(self), start as int, end as int),
            final(self).successful ==> old(self).successful,
            old(self).successful && old(self).materializes() ==> final(self).successful,
            final(self).successful ==> final(self).out_len == old(self).out_len,
            final(self).same_settings(&*old(self)),
    {
        if end - start < 2 || !self.cluster_level.is_monotone() {
            return ;
        }
        self.merge_out_clusters_impl(start, end);
    }

    pub fn merge_out_grapheme_clusters(&mut self, start: usize, end: usize)
        requires
            old(self).wf(),
            old(self).have_output,
            start <= end <= old(self).out_len,
        ensures
            final(self).wf(),
            final(self).have_output,
            final(self).len == old(self).len,
            final(self).idx == old(self).idx,
            end - start < 2 || !old(self).cluster_level.spec_is_graphemes() ==> *final(self)
                == *old(self),
            end - start >= 2 && old(self).cluster_level.spec_is_graphemes() && final(self).successful
                ==> final(self).out_clusters_merged(&*old(self), start as int, end as int),
            final(self).successful ==> old(self).successful,
            old(self).successful && old(self).materializes() ==> final(self).successful,
            final(self).successful ==> final(self).out_len == old(self).out_len,
            final(self).same_settings(&*old(self)),
    {
        if end - start < 2 || !self.cluster_level.is_graphemes() {
            return ;
        }
        self.merge_out_clusters_impl(start, end);
    }
}

impl Buffer {
    /// The ids of two glyph sequences agree.
    pub open spec fn same_ids(a: Seq<GlyphInfo>, b: Seq<GlyphInfo>) -> bool {
        a.len() == b.len() && forall|i: int| 0 <= i < a.len() ==> #[trigger] a[i].id == b[i].id
    }

    /// Deletes the current glyph, handing its cluster to a neighbour so no
    /// cluster disappears from the text.
    #[verifier::rlimit(60)]
    pub fn delete_glyph(&mut self)
        requires
            old(self).wf(),
            old(self).have_output,
            old(self).idx < old(self).len,
        ensures
            final(self).wf(),
            final(self).have_output,
            final(self).idx == old(self).idx + 1,
            final(self).len == old(self).len,
            final(self).successful ==> old(self).successful,
            old(self).successful && old(self).materializes() ==> final(self).successful,
            final(self).successful ==> Self::same_ids(final(self).out_view(), old(self).out_view()),
            final(self).info@.len() == old(self).info@.len(),
            forall|i: int|
                0 <= i < old(self).info@.len() ==> #[trigger] final(self).info@[i].id == old(
                    self).info@[i].id,
            final(self).same_settings(&*old(self)),
    {
        let cluster: u32 = self.info[self.idx].cluster;
        let out_last: Option<u32> = if self.out_len != 0 {
            Some(self.prev().cluster)
        } else {
            None
        };
        let ghost s0 = *self;
        if (self.idx + 1 < self.len && cluster == self.info[self.idx + 1].cluster) || (
        out_last == Some(cluster)) {
            self.skip_glyph();
            return ;
        }
        if let Some(last) = out_last {
            if cluster < last {
                let mask: u32 = self.info[self.idx].mask;
                self.relabel_out_tail(last, cluster, mask);
                proof {
                    assert(Self::same_ids(self.out_view(), s0.out_view()));
                }
            }
            let ghost s1 = *self;
            self.skip_glyph();
            return ;
        }
        if self.idx + 1 < self.len {
            let i: usize = self.idx;
            self.merge_clusters(i, i + 2);
            proof {
                assert(Self::same_ids(self.out_view(), s0.out_view()));
            }
        }
        self.skip_glyph();
    }

    /// Replaces the `num_in` glyphs at the read position with one output
    /// glyph per id of `glyph_data`, all of the merged cluster and
    /// otherwise copies of the first glyph replaced.
    #[verifier::rlimit(60)]
    pub fn replace_glyphs(&mut self, num_in: usize, glyph_data: &[u32])
        requires
            old(self).wf(),
            old(self).have_output,
            old(self).idx + num_in <= old(self).len,
            old(self).idx < old(self).len,
            glyph_data@.len() <= isize::MAX,
            num_in <= isize::MAX,
        ensures
            final(self).wf(),
            final(self).have_output,
            final(self).idx == old(self).idx + num_in,
            final(self).len == old(self).len,
            final(self).successful ==> old(self).successful,
            final(self).successful ==> final(self).out_view().len() == old(self).out_len
                + glyph_data@.len(),
            final(self).successful ==> forall|j: int|
                0 <= j < glyph_data@.len() ==> #[trigger] final(self).out_view()[old(self).out_len
                    + j] == (GlyphInfo {
                    id: glyph_data@[j],
                    ..final(self).info@[old(self).idx as int]
                }),
            final(self).same_settings(&*old(self)),
    {
        self.materialize_out();
        self.record_edit(glyph_data.len() as isize - num_in as isize);
        let i: usize = self.idx;
        if !self.successful {
            self.idx = i + num_in;
            return ;
        }
        self.merge_clusters(i, i + num_in);
        let orig: GlyphInfo = self.info[i];
        let ghost base = self.out_view();
        let ghost base_len = self.out_len;
        let mut k: usize = 0;
        while k < glyph_data.len()
            invariant
                self.wf(),
                self.have_output,
                !self.out_lockstep,
                self.idx == i,
                self.len == old(self).len,
                i + num_in <= self.len,
                orig == self.info@[i as int],
                k <= glyph_data@.len(),
                self.successful ==> self.out_len == base_len + k,
                self.successful ==> forall|j: int|
                    0 <= j < k ==> #[trigger] self.out_view()[base_len + j] == (GlyphInfo {
                        id: glyph_data@[j],
                        ..orig
                    }),
                self.successful ==> old(self).successful,
                self.same_settings(&*old(self)),
                base_len == old(self).out_len,
            decreases glyph_data@.len() - k,
        {
            let mut g: GlyphInfo = orig;
            g.id = glyph_data[k];
            let ghost before = self.out_view();
            self.push_out(g);
            proof {
                if self.successful {
                    assert(self.out_view().len() == before.len() + 1);
                    assert(self.out_len == base_len + k + 1);
                    assert forall|j: int| 0 <= j < k + 1 implies #[trigger] self.out_view()[base_len
                        + j] == (GlyphInfo { id: glyph_data@[j], ..orig }) by {
                        if j < k {
                            assert(self.out_view()[base_len + j] == before[base_len + j]);
                        }
                    }
                }
            }
            k = k + 1;
        }
        assert(base_len == old(self).out_len);
        assert(i == old(self).idx);
        assert(orig == self.info@[i as int]);
        assert(k == glyph_data@.len());
        let ghost v = self.out_view();
        assert(self.successful ==> forall|j: int|
            0 <= j < glyph_data@.len() ==> #[trigger] v[old(self).out_len + j] == (
            GlyphInfo { id: glyph_data@[j], ..self.info@[old(self).idx as int] }));
        self.idx = i + num_in;
        assert(self.out_view() == v);
    }
}

proof fn lemma_min_cluster_same(a: Seq<GlyphInfo>, b: Seq<GlyphInfo>, lo: int, hi: int, c: u32)
    requires
        forall|k: int| lo <= k < hi ==> #[trigger] a[k] == b[k],
    ensures
        min_cluster_from(a, lo, hi, c) == min_cluster_from(b, lo, hi, c),
    decreases hi - lo,
{
    if hi > lo {
        lemma_min_cluster_same(a, b, lo, hi - 1, c);
    }
}

pub open spec fn old_value_masked(value: u32, mask: u32) -> u32 {
    value
}

/// Reverses `v[start .. end]` in place.
pub(crate) fn reverse_vec_range<T: Copy>(v: &mut Vec<T>, start: usize, end: usize)
    requires
        start <= end <= old(v)@.len(),
    ensures
        final(v)@ == old(v)@.subrange(0, start as int) + old(v)@.subrange(
            start as int,
            end as int,
        ).reverse() + old(v)@.subrange(end as int, old(v)@.len() as int),
{
    let mut i: usize = start;
    let mut j: usize = end;
    while j - i > 1
        invariant
            start <= i <= j <= end,
            end <= v@.len(),
            v@.len() == old(v)@.len(),
            i - start == end - j,
            forall|k: int| 0 <= k < start ==> #[trigger] v@[k] == old(v)@[k],
            forall|k: int| end <= k < v@.len() ==> #[trigger] v@[k] == old(v)@[k],
            forall|k: int| i <= k < j ==> #[trigger] v@[k] == old(v)@[k],
            forall|k: int| start <= k < i ==> #[trigger] v@[k] == old(v)@[end - 1 - (k - start)],
            forall|k: int| j <= k < end ==> #[trigger] v@[k] == old(v)@[end - 1 - (k - start)],
        decreases j - i,
    {
        let a: T = v[i];
        let b: T = v[j - 1];
        v.set(i, b);
        v.set(j - 1, a);
        i = i + 1;
        j = j - 1;
    }
    assert(v@ =~= old(v)@.subrange(0, start as int) + old(v)@.subrange(
        start as int,
        end as int,
    ).reverse() + old(v)@.subrange(end as int, old(v)@.len() as int));
}

/// The smallest cluster of `s[lo .. hi]`, starting from `c`.
pub open spec fn min_cluster_from(s: Seq<GlyphInfo>, lo: int, hi: int, c: u32) -> u32
    decreases hi - lo,
{
    if hi <= lo {
        c
    } else {
        let m = min_cluster_from(s, lo, hi - 1, c);
        if s[hi - 1].cluster < m {
            s[hi - 1].cluster
        } else {
            m
        }
    }
}

proof fn lemma_min_cluster_bounds(s: Seq<GlyphInfo>, lo: int, hi: int, c: u32)
    ensures
        min_cluster_from(s, lo, hi, c) <= c,
        forall|i: int| lo <= i < hi ==> min_cluster_from(s, lo, hi, c) <= #[trigger] s[i].cluster,
        min_cluster_from(s, lo, hi, c) == c || exists|i: int|
            lo <= i < hi && #[trigger] s[i].cluster == min_cluster_from(s, lo, hi, c),
    decreases hi - lo,
{
    if hi > lo {
        lemma_min_cluster_bounds(s, lo, hi - 1, c);
    }
}

/// The glyph with its cluster set to `cluster`; if that changes its
/// cluster, the glyph takes the defined glyph flags of `mask`.
pub open spec fn spec_set_cluster(g: GlyphInfo, cluster: u32, mask: u32) -> GlyphInfo {
    if g.cluster != cluster {
        GlyphInfo {
            cluster,
            mask: (g.mask & !GLYPH_FLAGS_DEFINED) | (mask & GLYPH_FLAGS_DEFINED),
            ..g
        }
    } else {
        g
    }
}

/// Sets the cluster of `v[from .. to]`.
fn set_clusters(v: &mut Vec<GlyphInfo>, from: usize, to: usize, cluster: u32, mask: u32)
    requires
        from <= to <= old(v)@.len(),
    ensures
        final(v)@.len() == old(v)@.len(),
        forall|i: int|
            0 <= i < old(v)@.len() ==> #[trigger] final(v)@[i] == if from <= i < to {
                spec_set_cluster(old(v)@[i], cluster, mask)
            } else {
                old(v)@[i]
            },
{
    let mut i: usize = from;
    while i < to
        invariant
            from <= i <= to,
            to <= v@.len(),
            v@.len() == old(v)@.len(),
            forall|k: int|
                0 <= k < v@.len() ==> #[trigger] v@[k] == if from <= k < i {
                    spec_set_cluster(old(v)@[k], cluster, mask)
                } else {
                    old(v)@[k]
                },
        decreases to - i,
    {
        let mut g: GlyphInfo = v[i];
        Buffer::set_cluster(&mut g, cluster, mask);
        v.set(i, g);
        i = i + 1;
    }
}

/// Where the run of glyphs of cluster `c` that ends at `end` begins.
pub open spec fn run_start(v: Seq<GlyphInfo>, end: int, c: u32) -> int
    decreases end,
{
    if end > 0 && v[end - 1].cluster == c {
        run_start(v, end - 1, c)
    } else {
        end
    }
}

/// `v` with the run of cluster `old_cluster` that ends at `end` moved to
/// cluster `cluster`.
pub open spec fn spec_relabel_tail(v: Seq<GlyphInfo>, end: int, old_cluster: u32, cluster: u32, mask: u32) -> Seq<GlyphInfo> {
    Seq::new(
        v.len(),
        |i: int|
            if run_start(v, end, old_cluster) <= i < end {
                spec_set_cluster(v[i], cluster, mask)
            } else {
                v[i]
            },
    )
}

/// Walks back from `end` over the glyphs of cluster `old_cluster`, moving
/// them to `cluster`; returns where the run began.
fn relabel_run_before(
    v: &mut Vec<GlyphInfo>,
    end: usize,
    old_cluster: u32,
    cluster: u32,
    mask: u32,
) -> (start: usize)
    requires
        end <= old(v)@.len(),
    ensures
        start <= end,
        final(v)@.len() == old(v)@.len(),
        forall|i: int| start <= i < end ==> #[trigger] old(v)@[i].cluster == old_cluster,
        start > 0 ==> old(v)@[start - 1].cluster != old_cluster,
        start == run_start(old(v)@, end as int, old_cluster),
        final(v)@ == spec_relabel_tail(old(v)@, end as int, old_cluster, cluster, mask),
        forall|i: int|
            0 <= i < old(v)@.len() ==> #[trigger] final(v)@[i] == if start <= i < end {
                spec_set_cluster(old(v)@[i], cluster, mask)
            } else {
                old(v)@[i]
            },
{
    let mut i: usize = end;
    while i > 0 && v[i - 1].cluster == old_cluster
        invariant
            i <= end,
            run_start(old(v)@, end as int, old_cluster) == run_start(old(v)@, i as int, old_cluster),
            end <= v@.len(),
            v@.len() == old(v)@.len(),
            forall|k: int| i <= k < end ==> #[trigger] old(v)@[k].cluster == old_cluster,
            forall|k: int|
                0 <= k < v@.len() ==> #[trigger] v@[k] == if i <= k < end {
                    spec_set_cluster(old(v)@[k], cluster, mask)
                } else {
                    old(v)@[k]
                },
        decreases i,
    {
        let mut g: GlyphInfo = v[i - 1];
        Buffer::set_cluster(&mut g, cluster, mask);
        v.set(i - 1, g);
        i = i - 1;
    }
    assert(v@ =~= spec_relabel_tail(old(v)@, end as int, old_cluster, cluster, mask));
    i
}

/// Copies `count` glyphs of `src` starting at `from` over `dst` starting at
/// `at`.
fn copy_glyphs(dst: &mut Vec<GlyphInfo>, at: usize, src: &Vec<GlyphInfo>, from: usize, count: usize)
    requires
        at + count <= old(dst)@.len(),
        from + count <= src@.len(),
        at + count <= usize::MAX,
        from + count <= usize::MAX,
    ensures
        final(dst)@.len() == old(dst)@.len(),
        forall|i: int|
            0 <= i < old(dst)@.len() ==> #[trigger] final(dst)@[i] == if at <= i < at + count {
                src@[from + i - at]
            } else {
                old(dst)@[i]
            },
{
    let mut j: usize = 0;
    while j < count
        invariant
            j <= count,
            at + count <= dst@.len(),
            from + count <= src@.len(),
            at + count <= usize::MAX,
            from + count <= usize::MAX,
            dst@.len() == old(dst)@.len(),
            forall|i: int|
                0 <= i < dst@.len() ==> #[trigger] dst@[i] == if at <= i < at + j {
                    src@[from + i - at]
                } else {
                    old(dst)@[i]
                },
        decreases count - j,
    {
        let g: GlyphInfo = src[from + j];
        dst.set(at + j, g);
        j = j + 1;
    }
}

proof fn lemma_byte_offset_monotone(s: Seq<char>, i: int, j: int)
    requires
        0 <= i <= j,
    ensures
        byte_offset(s, i) <= byte_offset(s, j),
    decreases j - i,
{
    if i < j {
        lemma_byte_offset_monotone(s, i, j - 1);
    }
}

/// The number of characters in `text`.
fn text_char_count(text: &str) -> (n: usize)
    requires
        text@.len() <= usize::MAX,
    ensures
        n == text@.len(),
{
    let mut chars = text.chars();
    let mut n: usize = 0;
    loop
        invariant
            n <= text@.len(),
            text@.len() <= usize::MAX,
            chars.remaining() == text@.skip(n as int),
        ensures
            n == text@.len(),
        decreases text@.len() - n,
    {
        match chars.next() {
            None => {
                assert(text@.skip(n as int).len() == 0);
                break;
            },
            Some(_) => {
                assert(text@.skip(n as int).len() > 0);
                assert(text@.skip(n as int).drop_first() =~= text@.skip(n + 1));
                n = n + 1;
            },
        }
    }
    n
}

/// A glyph with its cluster and mask set aside: what sorting and cluster
/// merging leave alone.
pub open spec fn glyph_key(g: GlyphInfo) -> GlyphInfo {
    GlyphInfo { cluster: 0, mask: 0, ..g }
}

/// The keys of a run of glyphs.
pub open spec fn glyph_keys(s: Seq<GlyphInfo>) -> Seq<GlyphInfo> {
    s.map_values(|g: GlyphInfo| glyph_key(g))
}

/// A comparison that sorting can rely on: it can always be called, its
/// answer depends only on the keys of the glyphs it is given, and it never
/// puts each of two glyphs after the other.
pub open spec fn sort_order_ok<F: Fn(&GlyphInfo, &GlyphInfo) -> bool>(later: F) -> bool {
    &&& forall|a: GlyphInfo, b: GlyphInfo| #[trigger] call_requires(later, (&a, &b))
    &&& forall|a1: GlyphInfo, b1: GlyphInfo, a2: GlyphInfo, b2: GlyphInfo, r1: bool, r2: bool|
        glyph_key(a1) == glyph_key(a2) && glyph_key(b1) == glyph_key(b2) && #[trigger] call_ensures(
            later,
            (&a1, &b1),
            r1,
        ) && #[trigger] call_ensures(later, (&a2, &b2), r2) ==> r1 == r2
    &&& forall|a1: GlyphInfo, b1: GlyphInfo, a2: GlyphInfo, b2: GlyphInfo, r1: bool, r2: bool|
        glyph_key(a1) == glyph_key(b2) && glyph_key(b1) == glyph_key(a2) && #[trigger] call_ensures(
            later,
            (&a1, &b1),
            r1,
        ) && #[trigger] call_ensures(later, (&a2, &b2), r2) ==> !(r1 && r2)
}

/// Merging clusters changes no key.
pub proof fn lemma_merge_keeps_keys(a: Seq<GlyphInfo>, b: Seq<GlyphInfo>, c: u32, f: u32)
    requires
        a.len() == b.len(),
        (forall|k: int| 0 <= k < a.len() ==> relabel_or_keep(a[k], #[trigger] b[k], c, 0)) || (forall|k: int|
            0 <= k < a.len() ==> flag_or_keep(a[k], #[trigger] b[k], f)),
    ensures
        forall|k: int| 0 <= k < a.len() ==> glyph_key(#[trigger] b[k]) == glyph_key(a[k]),
{
}

/// Whether two glyphs, taken by their keys, are known to stand in order:
/// some glyphs with these keys were compared and found not to go after one
/// another, or were compared the other way round and found to.
pub open spec fn keys_in_order<F: Fn(&GlyphInfo, &GlyphInfo) -> bool>(later: F, kx: GlyphInfo, ky: GlyphInfo) -> bool {
    (exists|a: GlyphInfo, b: GlyphInfo|
        glyph_key(a) == kx && glyph_key(b) == ky && #[trigger] call_ensures(later, (&a, &b), false)) || (exists|
        a: GlyphInfo,
        b: GlyphInfo,
    | glyph_key(a) == ky && glyph_key(b) == kx && #[trigger] call_ensures(later, (&a, &b), true))
}

/// Whether `later` was seen to put a glyph with key `kx` after one with
/// key `ky`.
pub open spec fn keys_later<F: Fn(&GlyphInfo, &GlyphInfo) -> bool>(later: F, kx: GlyphInfo, ky: GlyphInfo) -> bool {
    exists|a: GlyphInfo, b: GlyphInfo|
        glyph_key(a) == kx && glyph_key(b) == ky && #[trigger] call_ensures(later, (&a, &b), true)
}

/// `perm` sends the positions `0 .. perm.len()` of a sorted range one to
/// one into `start .. end` of `s`, and puts two glyphs in the other order
/// only where `later` puts the first after the second: glyphs that `later`
/// does not tell apart keep their order.
pub open spec fn stable_perm<F: Fn(&GlyphInfo, &GlyphInfo) -> bool>(
    later: F,
    s: Seq<GlyphInfo>,
    perm: Seq<int>,
    start: int,
    end: int,
) -> bool {
    &&& perm.len() == end - start
    &&& forall|k: int| 0 <= k < perm.len() ==> start <= #[trigger] perm[k] < end
    &&& forall|a: int, b: int| 0 <= a < b < perm.len() ==> perm[a] != perm[b]
    &&& forall|a: int, b: int|
        0 <= a < b < perm.len() && perm[a] > perm[b] ==> keys_later(
            later,
            glyph_key(s[perm[b]]),
            glyph_key(s[perm[a]]),
        )
}

/// After glyph `i` moves back to `j`, the keys of the range follow the
/// arrangement with entry `i - start` moved back to `j - start`.
proof fn lemma_rotation_perm(
    s: Seq<GlyphInfo>,
    before: Seq<GlyphInfo>,
    merged: Seq<GlyphInfo>,
    rot: Seq<GlyphInfo>,
    perm: Seq<int>,
    perm2: Seq<int>,
    start: int,
    j: int,
    i: int,
)
    requires
        0 <= start <= j < i < start + perm.len() <= before.len(),
        merged.len() == before.len(),
        forall|k: int| 0 <= k < before.len() ==> glyph_key(#[trigger] merged[k]) == glyph_key(before[k]),
        rot == merged.subrange(0, j).push(merged[i]) + merged.subrange(j, i) + merged.subrange(i + 1, merged.len() as int),
        forall|k: int| 0 <= k < perm.len() ==> glyph_key(#[trigger] before[start + k]) == glyph_key(s[perm[k]]),
        perm2 == perm.subrange(0, j - start).push(perm[i - start]) + perm.subrange(j - start, i - start) + perm.subrange(
            i - start + 1,
            perm.len() as int,
        ),
    ensures
        forall|k: int| 0 <= k < perm2.len() ==> glyph_key(#[trigger] rot[start + k]) == glyph_key(s[perm2[k]]),
{
    let q = j - start;
    let p = i - start;
    assert forall|k: int| 0 <= k < perm2.len() implies glyph_key(#[trigger] rot[start + k]) == glyph_key(s[perm2[k]]) by {
        if k < q {
            assert(rot[start + k] == merged[start + k]);
            assert(perm2[k] == perm[k]);
            assert(glyph_key(before[start + k]) == glyph_key(s[perm[k]]));
        } else if k == q {
            assert(rot[start + k] == merged[i]);
            assert(perm2[k] == perm[p]);
            assert(glyph_key(before[start + p]) == glyph_key(s[perm[p]]));
        } else if k <= p {
            assert(rot[start + k] == merged[start + k - 1]);
            assert(perm2[k] == perm[k - 1]);
            assert(glyph_key(before[start + (k - 1)]) == glyph_key(s[perm[k - 1]]));
        } else {
            assert(rot[start + k] == merged[start + k]);
            assert(perm2[k] == perm[k]);
            assert(glyph_key(before[start + k]) == glyph_key(s[perm[k]]));
        }
    }
}

/// Moving the unsorted entry at `p` back to `q`, past entries that each go
/// after it, keeps the arrangement stable.
proof fn lemma_stable_insert<F: Fn(&GlyphInfo, &GlyphInfo) -> bool>(
    later: F,
    s: Seq<GlyphInfo>,
    perm: Seq<int>,
    start: int,
    end: int,
    q: int,
    p: int,
)
    requires
        stable_perm(later, s, perm, start, end),
        0 <= q < p < perm.len(),
        forall|k: int| p <= k < perm.len() ==> #[trigger] perm[k] == start + k,
        forall|k: int| 0 <= k < p ==> #[trigger] perm[k] < start + p,
        forall|k: int|
            q <= k < p ==> keys_later(later, #[trigger] glyph_key(s[perm[k]]), glyph_key(s[start + p])),
    ensures
        ({
            let perm2 = perm.subrange(0, q).push(perm[p]) + perm.subrange(q, p) + perm.subrange(p + 1, perm.len() as int);
            &&& stable_perm(later, s, perm2, start, end)
            &&& forall|k: int| p < k < perm2.len() ==> #[trigger] perm2[k] == start + k
            &&& forall|k: int| 0 <= k <= p ==> #[trigger] perm2[k] < start + p + 1
            &&& perm2[q] == perm[p]
            &&& forall|k: int| 0 <= k < q ==> #[trigger] perm2[k] == perm[k]
            &&& forall|k: int| q < k <= p ==> #[trigger] perm2[k] == perm[k - 1]
        }),
{
    let perm2 = perm.subrange(0, q).push(perm[p]) + perm.subrange(q, p) + perm.subrange(p + 1, perm.len() as int);
    assert(perm2.len() == perm.len());
    assert forall|k: int| 0 <= k < q implies #[trigger] perm2[k] == perm[k] by {}
    assert(perm2[q] == perm[p]);
    assert forall|k: int| q < k <= p implies #[trigger] perm2[k] == perm[k - 1] by {}
    assert forall|k: int| p < k < perm2.len() implies #[trigger] perm2[k] == perm[k] by {}
    let old_of = |k: int| if k < q { k } else if k == q { p } else if k <= p { k - 1 } else { k };
    assert forall|k: int| 0 <= k < perm2.len() implies perm2[k] == perm[old_of(k)] && 0 <= old_of(k) < perm.len() by {}
    assert forall|a: int, b: int| 0 <= a < b < perm2.len() implies perm2[a] != perm2[b] by {
        assert(perm2[a] == perm[old_of(a)]);
        assert(perm2[b] == perm[old_of(b)]);
        assert(old_of(a) != old_of(b));
    }
    assert forall|a: int, b: int| 0 <= a < b < perm2.len() && perm2[a] > perm2[b] implies keys_later(
        later,
        glyph_key(s[perm2[b]]),
        glyph_key(s[perm2[a]]),
    ) by {
        let oa = old_of(a);
        let ob = old_of(b);
        assert(perm2[a] == perm[oa]);
        assert(perm2[b] == perm[ob]);
        if a == q {
            assert(keys_later(later, glyph_key(s[perm[ob]]), glyph_key(s[start + p])));
        } else if b == q {
            assert(perm[p] == start + p);
            assert(perm[oa] < start + p);
        } else {
            assert(oa < ob);
        }
    }
    assert forall|k: int| 0 <= k <= p implies #[trigger] perm2[k] < start + p + 1 by {
        if k < q {
        } else if k == q {
        } else {
            assert(perm2[k] == perm[k - 1]);
        }
    }
}

/// Two neighbouring glyphs stand in order: `later` does not put the first
/// after the second.
pub open spec fn in_order<F: Fn(&GlyphInfo, &GlyphInfo) -> bool>(later: F, x: GlyphInfo, y: GlyphInfo) -> bool {
    keys_in_order(later, glyph_key(x), glyph_key(y))
}

/// Glyphs in order are never put the other way by `later`.
pub proof fn lemma_in_order_holds<F: Fn(&GlyphInfo, &GlyphInfo) -> bool>(later: F, x: GlyphInfo, y: GlyphInfo, r: bool)
    requires
        sort_order_ok(later),
        in_order(later, x, y),
        call_ensures(later, (&x, &y), r),
    ensures
        !r,
{
    if exists|a: GlyphInfo, b: GlyphInfo|
        glyph_key(a) == glyph_key(x) && glyph_key(b) == glyph_key(y) && #[trigger] call_ensures(later, (&a, &b), false) {
        let (a, b) = choose|a: GlyphInfo, b: GlyphInfo|
            glyph_key(a) == glyph_key(x) && glyph_key(b) == glyph_key(y) && #[trigger] call_ensures(later, (&a, &b), false);
        assert(call_ensures(later, (&a, &b), false));
        assert(glyph_key(a) == glyph_key(x) && glyph_key(b) == glyph_key(y));
        assert(call_ensures(later, (&x, &y), r));
    } else {
        let (a, b) = choose|a: GlyphInfo, b: GlyphInfo|
            glyph_key(a) == glyph_key(y) && glyph_key(b) == glyph_key(x) && #[trigger] call_ensures(later, (&a, &b), true);
        assert(call_ensures(later, (&a, &b), true));
    }
}

/// Moving glyph `i` back to `j` keeps the keys of `start .. end`, as a
/// multiset, and every key outside `j ..= i`.
proof fn lemma_rotation_keys(
    before: Seq<GlyphInfo>,
    merged: Seq<GlyphInfo>,
    rot: Seq<GlyphInfo>,
    start: int,
    end: int,
    j: int,
    i: int,
)
    requires
        0 <= start <= j < i < end <= before.len(),
        merged.len() == before.len(),
        forall|k: int| 0 <= k < before.len() ==> glyph_key(#[trigger] merged[k]) == glyph_key(before[k]),
        rot == merged.subrange(0, j).push(merged[i]) + merged.subrange(j, i) + merged.subrange(i + 1, merged.len() as int),
    ensures
        rot.len() == before.len(),
        forall|k: int| 0 <= k < before.len() && !(j <= k <= i) ==> glyph_key(#[trigger] rot[k]) == glyph_key(before[k]),
        glyph_keys(rot.subrange(start, end)).to_multiset() == glyph_keys(before.subrange(start, end)).to_multiset(),
{
    broadcast use vstd::seq_lib::to_multiset_remove, vstd::seq_lib::to_multiset_insert, vstd::seq_lib::to_multiset_contains;
    let x = glyph_keys(before.subrange(start, end));
    let y = glyph_keys(rot.subrange(start, end));
    let p = i - start;
    let q = j - start;
    assert(y =~= x.remove(p).insert(q, x[p]));
    assert(x.to_multiset().contains(x[p]));
    assert(y.to_multiset() =~= x.to_multiset());
}

/// Moving glyph `i` back to `j`, where the glyph before `j` does not go
/// after it and the glyph at `j` does, keeps `start ..= i` in order.
proof fn lemma_rotation_in_order<F: Fn(&GlyphInfo, &GlyphInfo) -> bool>(
    before: Seq<GlyphInfo>,
    merged: Seq<GlyphInfo>,
    rot: Seq<GlyphInfo>,
    start: int,
    j: int,
    i: int,
    later: F,
)
    requires
        0 <= start <= j < i < before.len(),
        merged.len() == before.len(),
        forall|k: int| 0 <= k < before.len() ==> glyph_key(#[trigger] merged[k]) == glyph_key(before[k]),
        rot == merged.subrange(0, j).push(merged[i]) + merged.subrange(j, i) + merged.subrange(i + 1, merged.len() as int),
        forall|k: int| start < k < i ==> #[trigger] in_order(later, before[k - 1], before[k]),
        j > start ==> call_ensures(later, (&before[j - 1], &before[i]), false),
        call_ensures(later, (&before[j], &before[i]), true),
    ensures
        forall|k: int| start < k <= i ==> #[trigger] in_order(later, rot[k - 1], rot[k]),
{
    assert forall|k: int| start < k <= i implies #[trigger] in_order(later, rot[k - 1], rot[k]) by {
        if k < j {
            assert(rot[k - 1] == merged[k - 1] && rot[k] == merged[k]);
            assert(in_order(later, before[k - 1], before[k]));
        } else if k == j {
            assert(rot[k - 1] == merged[j - 1] && rot[k] == merged[i]);
            assert(call_ensures(later, (&before[j - 1], &before[i]), false));
        } else if k == j + 1 {
            assert(rot[k - 1] == merged[i] && rot[k] == merged[j]);
            assert(call_ensures(later, (&before[j], &before[i]), true));
        } else {
            let m = k - 1;
            assert(rot[k - 1] == merged[m - 1] && rot[k] == merged[m]);
            assert(in_order(later, before[m - 1], before[m]));
        }
    }
}

/// Moves glyph `i` back to `j`, shifting `j .. i` up by one.
pub fn rotate_back(v: &mut Vec<GlyphInfo>, j: usize, i: usize)
    requires
        j < i < old(v)@.len(),
    ensures
        final(v)@ == old(v)@.subrange(0, j as int).push(old(v)@[i as int]) + old(v)@.subrange(j as int, i as int)
            + old(v)@.subrange(i + 1, old(v)@.len() as int),
{
    let t: GlyphInfo = v[i];
    let ghost v0 = v@;
    let mut k: usize = i;
    while k > j
        invariant
            j <= k <= i < v@.len(),
            v@.len() == v0.len(),
            forall|q: int| 0 <= q <= k ==> #[trigger] v@[q] == v0[q],
            forall|q: int| k < q <= i ==> #[trigger] v@[q] == v0[q - 1],
            forall|q: int| i < q < v@.len() ==> #[trigger] v@[q] == v0[q],
        decreases k,
    {
        let x: GlyphInfo = v[k - 1];
        v.set(k, x);
        k = k - 1;
    }
    v.set(j, t);
    assert(v@ =~= v0.subrange(0, j as int).push(v0[i as int]) + v0.subrange(j as int, i as int) + v0.subrange(
        i + 1,
        v0.len() as int,
    ));
}

/// The values of `v` that `d` does not mark for removal, in order.
pub open spec fn kept<A>(v: Seq<A>, d: Seq<bool>) -> Seq<A>
    decreases v.len(),
{
    if v.len() == 0 {
        Seq::empty()
    } else {
        let rest = kept(v.drop_last(), d.take(v.len() - 1));
        if d[v.len() - 1] {
            rest
        } else {
            rest.push(v.last())
        }
    }
}

/// `filter` was seen to answer `b` for a glyph with the key of `g`.
pub open spec fn decided<F: Fn(&GlyphInfo) -> bool>(filter: F, g: GlyphInfo, b: bool) -> bool {
    exists|h: GlyphInfo| glyph_key(h) == glyph_key(g) && #[trigger] call_ensures(filter, (&h,), b)
}

proof fn lemma_kept_push<A>(v: Seq<A>, d: Seq<bool>, x: A, b: bool)
    requires
        v.len() == d.len(),
    ensures
        kept(v.push(x), d.push(b)) == if b {
            kept(v, d)
        } else {
            kept(v, d).push(x)
        },
{
    assert(v.push(x).drop_last() =~= v);
    assert(d.push(b).take(v.len() as int) =~= d);
}

/// Sequences whose glyphs below `n` have the same keys give the same keys
/// for that prefix.
pub proof fn lemma_keys_prefix_same(a: Seq<GlyphInfo>, b: Seq<GlyphInfo>, n: int)
    requires
        a.len() == b.len(),
        forall|q: int| 0 <= q < a.len() ==> glyph_key(#[trigger] b[q]) == glyph_key(a[q]),
    ensures
        forall|m: int| 0 <= m <= n <= a.len() ==> glyph_keys(#[trigger] b.subrange(0, m)) == glyph_keys(a.subrange(0, m)),
{
    assert forall|m: int| 0 <= m <= n <= a.len() implies glyph_keys(#[trigger] b.subrange(0, m)) == glyph_keys(a.subrange(0, m)) by {
        assert(glyph_keys(b.subrange(0, m)) =~= glyph_keys(a.subrange(0, m)));
    }
}

} // verus!
