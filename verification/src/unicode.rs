//! Unicode character properties used while shaping: general categories,
//! space fallbacks, combining-class remapping, vertical forms and the
//! arithmetic Hangul composition.

use vstd::prelude::*;
use crate::buffer::Direction;

verus! {

#[derive(Clone, Copy, PartialEq, Eq, Structural, Debug)]
pub enum GeneralCategory {
    Unassigned,
    Control,
    Format,
    PrivateUse,
    Surrogate,
    LowercaseLetter,
    ModifierLetter,
    OtherLetter,
    TitlecaseLetter,
    UppercaseLetter,
    SpacingMark,
    EnclosingMark,
    NonspacingMark,
    DecimalNumber,
    LetterNumber,
    OtherNumber,
    ConnectPunctuation,
    DashPunctuation,
    ClosePunctuation,
    FinalPunctuation,
    InitialPunctuation,
    OtherPunctuation,
    OpenPunctuation,
    CurrencySymbol,
    ModifierSymbol,
    MathSymbol,
    OtherSymbol,
    LineSeparator,
    ParagraphSeparator,
    SpaceSeparator,
}

/// The stored number of each category, in declaration order.
pub open spec fn gc_code(g: GeneralCategory) -> u8 {
    match g {
        GeneralCategory::Unassigned => 0,
        GeneralCategory::Control => 1,
        GeneralCategory::Format => 2,
        GeneralCategory::PrivateUse => 3,
        GeneralCategory::Surrogate => 4,
        GeneralCategory::LowercaseLetter => 5,
        GeneralCategory::ModifierLetter => 6,
        GeneralCategory::OtherLetter => 7,
        GeneralCategory::TitlecaseLetter => 8,
        GeneralCategory::UppercaseLetter => 9,
        GeneralCategory::SpacingMark => 10,
        GeneralCategory::EnclosingMark => 11,
        GeneralCategory::NonspacingMark => 12,
        GeneralCategory::DecimalNumber => 13,
        GeneralCategory::LetterNumber => 14,
        GeneralCategory::OtherNumber => 15,
        GeneralCategory::ConnectPunctuation => 16,
        GeneralCategory::DashPunctuation => 17,
        GeneralCategory::ClosePunctuation => 18,
        GeneralCategory::FinalPunctuation => 19,
        GeneralCategory::InitialPunctuation => 20,
        GeneralCategory::OtherPunctuation => 21,
        GeneralCategory::OpenPunctuation => 22,
        GeneralCategory::CurrencySymbol => 23,
        GeneralCategory::ModifierSymbol => 24,
        GeneralCategory::MathSymbol => 25,
        GeneralCategory::OtherSymbol => 26,
        GeneralCategory::LineSeparator => 27,
        GeneralCategory::ParagraphSeparator => 28,
        GeneralCategory::SpaceSeparator => 29,
    }
}

/// The category stored as `v`; numbers past the last category read as
/// unassigned.
pub open spec fn gc_of_code(v: u8) -> GeneralCategory {
    if v == 1 {
        GeneralCategory::Control
    } else if v == 2 {
        GeneralCategory::Format
    } else if v == 3 {
        GeneralCategory::PrivateUse
    } else if v == 4 {
        GeneralCategory::Surrogate
    } else if v == 5 {
        GeneralCategory::LowercaseLetter
    } else if v == 6 {
        GeneralCategory::ModifierLetter
    } else if v == 7 {
        GeneralCategory::OtherLetter
    } else if v == 8 {
        GeneralCategory::TitlecaseLetter
    } else if v == 9 {
        GeneralCategory::UppercaseLetter
    } else if v == 10 {
        GeneralCategory::SpacingMark
    } else if v == 11 {
        GeneralCategory::EnclosingMark
    } else if v == 12 {
        GeneralCategory::NonspacingMark
    } else if v == 13 {
        GeneralCategory::DecimalNumber
    } else if v == 14 {
        GeneralCategory::LetterNumber
    } else if v == 15 {
        GeneralCategory::OtherNumber
    } else if v == 16 {
        GeneralCategory::ConnectPunctuation
    } else if v == 17 {
        GeneralCategory::DashPunctuation
    } else if v == 18 {
        GeneralCategory::ClosePunctuation
    } else if v == 19 {
        GeneralCategory::FinalPunctuation
    } else if v == 20 {
        GeneralCategory::InitialPunctuation
    } else if v == 21 {
        GeneralCategory::OtherPunctuation
    } else if v == 22 {
        GeneralCategory::OpenPunctuation
    } else if v == 23 {
        GeneralCategory::CurrencySymbol
    } else if v == 24 {
        GeneralCategory::ModifierSymbol
    } else if v == 25 {
        GeneralCategory::MathSymbol
    } else if v == 26 {
        GeneralCategory::OtherSymbol
    } else if v == 27 {
        GeneralCategory::LineSeparator
    } else if v == 28 {
        GeneralCategory::ParagraphSeparator
    } else if v == 29 {
        GeneralCategory::SpaceSeparator
    } else {
        GeneralCategory::Unassigned
    }
}

pub open spec fn gc_is_mark(g: GeneralCategory) -> bool {
    g == GeneralCategory::SpacingMark || g == GeneralCategory::EnclosingMark || g
        == GeneralCategory::NonspacingMark
}

impl GeneralCategory {
    pub fn to_raw(self) -> (r: u8)
        ensures
            r == gc_code(self),
            r < 30,
    {
        match self {
            GeneralCategory::Unassigned => 0,
            GeneralCategory::Control => 1,
            GeneralCategory::Format => 2,
            GeneralCategory::PrivateUse => 3,
            GeneralCategory::Surrogate => 4,
            GeneralCategory::LowercaseLetter => 5,
            GeneralCategory::ModifierLetter => 6,
            GeneralCategory::OtherLetter => 7,
            GeneralCategory::TitlecaseLetter => 8,
            GeneralCategory::UppercaseLetter => 9,
            GeneralCategory::SpacingMark => 10,
            GeneralCategory::EnclosingMark => 11,
            GeneralCategory::NonspacingMark => 12,
            GeneralCategory::DecimalNumber => 13,
            GeneralCategory::LetterNumber => 14,
            GeneralCategory::OtherNumber => 15,
            GeneralCategory::ConnectPunctuation => 16,
            GeneralCategory::DashPunctuation => 17,
            GeneralCategory::ClosePunctuation => 18,
            GeneralCategory::FinalPunctuation => 19,
            GeneralCategory::InitialPunctuation => 20,
            GeneralCategory::OtherPunctuation => 21,
            GeneralCategory::OpenPunctuation => 22,
            GeneralCategory::CurrencySymbol => 23,
            GeneralCategory::ModifierSymbol => 24,
            GeneralCategory::MathSymbol => 25,
            GeneralCategory::OtherSymbol => 26,
            GeneralCategory::LineSeparator => 27,
            GeneralCategory::ParagraphSeparator => 28,
            GeneralCategory::SpaceSeparator => 29,
        }
    }

    pub fn from_raw(v: u8) -> (g: GeneralCategory)
        ensures
            g == gc_of_code(v),
    {
        match v {
            1 => GeneralCategory::Control,
            2 => GeneralCategory::Format,
            3 => GeneralCategory::PrivateUse,
            4 => GeneralCategory::Surrogate,
            5 => GeneralCategory::LowercaseLetter,
            6 => GeneralCategory::ModifierLetter,
            7 => GeneralCategory::OtherLetter,
            8 => GeneralCategory::TitlecaseLetter,
            9 => GeneralCategory::UppercaseLetter,
            10 => GeneralCategory::SpacingMark,
            11 => GeneralCategory::EnclosingMark,
            12 => GeneralCategory::NonspacingMark,
            13 => GeneralCategory::DecimalNumber,
            14 => GeneralCategory::LetterNumber,
            15 => GeneralCategory::OtherNumber,
            16 => GeneralCategory::ConnectPunctuation,
            17 => GeneralCategory::DashPunctuation,
            18 => GeneralCategory::ClosePunctuation,
            19 => GeneralCategory::FinalPunctuation,
            20 => GeneralCategory::InitialPunctuation,
            21 => GeneralCategory::OtherPunctuation,
            22 => GeneralCategory::OpenPunctuation,
            23 => GeneralCategory::CurrencySymbol,
            24 => GeneralCategory::ModifierSymbol,
            25 => GeneralCategory::MathSymbol,
            26 => GeneralCategory::OtherSymbol,
            27 => GeneralCategory::LineSeparator,
            28 => GeneralCategory::ParagraphSeparator,
            29 => GeneralCategory::SpaceSeparator,
            _ => GeneralCategory::Unassigned,
        }
    }

    /// The category kept in the low bits of a glyph's Unicode properties.
    pub fn from_stored(v: u16) -> (g: GeneralCategory)
        ensures
            g == gc_of_code(v as u8),
    {
        GeneralCategory::from_raw(v as u8)
    }

    pub fn is_mark(self) -> (r: bool)
        ensures
            r == gc_is_mark(self),
    {
        match self {
            GeneralCategory::SpacingMark
            | GeneralCategory::EnclosingMark
            | GeneralCategory::NonspacingMark => true,
            _ => false,
        }
    }

    pub fn is_letter(self) -> (r: bool)
        ensures
            r == (self == GeneralCategory::LowercaseLetter || self == GeneralCategory::ModifierLetter
                || self == GeneralCategory::OtherLetter || self == GeneralCategory::TitlecaseLetter
                || self == GeneralCategory::UppercaseLetter),
    {
        match self {
            GeneralCategory::LowercaseLetter
            | GeneralCategory::ModifierLetter
            | GeneralCategory::OtherLetter
            | GeneralCategory::TitlecaseLetter
            | GeneralCategory::UppercaseLetter => true,
            _ => false,
        }
    }
}

/// Storing a category and reading it back gives the category.
pub proof fn lemma_gc_code_roundtrip(g: GeneralCategory)
    ensures
        gc_of_code(gc_code(g)) == g,
        gc_code(g) < 30,
{
}

/// A stored number below thirty names exactly one category.
pub proof fn lemma_gc_of_code_roundtrip(v: u8)
    requires
        v < 30,
    ensures
        gc_code(gc_of_code(v)) == v,
{
}

/// A script, by its index in the script catalog.
#[derive(Clone, Copy, PartialEq, Eq, Structural, Debug)]
pub struct Script(pub u16);

/// What the script catalog says about its special entries: the indices of
/// Common and Inherited and how many scripts it names.
#[derive(Clone, Copy, Debug)]
pub struct ScriptCatalog {
    pub common: u16,
    pub inherited: u16,
    pub count: u16,
}

impl Script {
    pub open spec fn spec_is_context_dependent(self, catalog: ScriptCatalog) -> bool {
        self.0 == catalog.common || self.0 == catalog.inherited || self.0 >= catalog.count
    }

    /// Common, Inherited and unknown scripts take their script from the text
    /// around them.
    pub fn is_context_dependent(self, catalog: &ScriptCatalog) -> (r: bool)
        ensures
            r == self.spec_is_context_dependent(*catalog),
    {
        self.0 == catalog.common || self.0 == catalog.inherited || self.0 >= catalog.count
    }
}

/// The name of script `s` in the catalog's list of names, or "Unknown".
pub open spec fn spec_script_name(names: Seq<&str>, s: Script) -> Seq<char> {
    if (s.0 as int) < names.len() {
        names[s.0 as int]@
    } else {
        "Unknown"@
    }
}

/// The scripts written right to left.
pub open spec fn rtl_script_names() -> Seq<Seq<char>> {
    seq![
        "Adlam"@,
        "Arabic"@,
        "Avestan"@,
        "Chorasmian"@,
        "Cypriot"@,
        "Elymaic"@,
        "Hanifi_Rohingya"@,
        "Hatran"@,
        "Hebrew"@,
        "Imperial_Aramaic"@,
        "Inscriptional_Pahlavi"@,
        "Inscriptional_Parthian"@,
        "Kharoshthi"@,
        "Lydian"@,
        "Mandaic"@,
        "Manichaean"@,
        "Mende_Kikakui"@,
        "Meroitic_Cursive"@,
        "Meroitic_Hieroglyphs"@,
        "Nabataean"@,
        "Nko"@,
        "Old_North_Arabian"@,
        "Old_Sogdian"@,
        "Old_South_Arabian"@,
        "Old_Turkic"@,
        "Old_Uyghur"@,
        "Palmyrene"@,
        "Phoenician"@,
        "Psalter_Pahlavi"@,
        "Samaritan"@,
        "Sogdian"@,
        "Syriac"@,
        "Thaana"@,
        "Yezidi"@,
    ]
}

/// The scripts whose horizontal direction is not settled.
pub open spec fn unsettled_script_names() -> Seq<Seq<char>> {
    seq!["Old_Hungarian"@,
"Old_Italic"@,
"Runic"@,
"Tifinagh"@]
}

/// The horizontal direction of the script named `name`: right to left for
/// the scripts so written, none for those whose direction is unsettled,
/// else left to right.
pub open spec fn spec_horizontal_direction(name: Seq<char>) -> Option<Direction> {
    if rtl_script_names().contains(name) {
        Some(Direction::RightToLeft)
    } else if unsettled_script_names().contains(name) {
        None
    } else {
        Some(Direction::LeftToRight)
    }
}

/// Whether `name` is one of `list`.
fn name_in(name: &str, list: &[&str]) -> (r: bool)
    ensures
        r == exists|k: int| 0 <= k < list@.len() && list@[k]@ == name@,
{
    let owned: String = name.to_owned();
    let mut k: usize = 0;
    while k < list.len()
        invariant
            k <= list@.len(),
            owned@ == name@,
            forall|m: int| 0 <= m < k ==> list@[m]@ != name@,
        decreases list@.len() - k,
    {
        let other: String = list[k].to_owned();
        if owned == other {
            return true;
        }
        k = k + 1;
    }
    false
}

impl Script {
    /// The name of the script in `names`, the catalog's list of script
    /// names, or "Unknown" past its end.
    pub fn name<'a>(self, names: &[&'a str]) -> (r: &'a str)
        ensures
            r@ == spec_script_name(names@, self),
    {
        if (self.0 as usize) < names.len() {
            names[self.0 as usize]
        } else {
            "Unknown"
        }
    }

    /// The horizontal direction of the script (see
    /// `spec_horizontal_direction`).
    pub fn horizontal_direction(self, names: &[&str]) -> (r: Option<Direction>)
        ensures
            r == spec_horizontal_direction(spec_script_name(names@, self)),
    {
        let name: &str = self.name(names);
        let rtl: [&str; 34] = [
            "Adlam",
            "Arabic",
            "Avestan",
            "Chorasmian",
            "Cypriot",
            "Elymaic",
            "Hanifi_Rohingya",
            "Hatran",
            "Hebrew",
            "Imperial_Aramaic",
            "Inscriptional_Pahlavi",
            "Inscriptional_Parthian",
            "Kharoshthi",
            "Lydian",
            "Mandaic",
            "Manichaean",
            "Mende_Kikakui",
            "Meroitic_Cursive",
            "Meroitic_Hieroglyphs",
            "Nabataean",
            "Nko",
            "Old_North_Arabian",
            "Old_Sogdian",
            "Old_South_Arabian",
            "Old_Turkic",
            "Old_Uyghur",
            "Palmyrene",
            "Phoenician",
            "Psalter_Pahlavi",
            "Samaritan",
            "Sogdian",
            "Syriac",
            "Thaana",
            "Yezidi",
        ];
        let unsettled: [&str; 4] = ["Old_Hungarian",
"Old_Italic",
"Runic",
"Tifinagh"];
        proof {
            assert(rtl@.map_values(|t: &str| t@) =~= rtl_script_names());
            assert(unsettled@.map_values(|t: &str| t@) =~= unsettled_script_names());
        }
        let in_rtl: bool = name_in(name, &rtl);
        proof {
            if in_rtl {
                let k = choose|k: int| 0 <= k < rtl@.len() && rtl@[k]@ == name@;
                assert(rtl@.map_values(|t: &str| t@)[k] == name@);
            } else if rtl_script_names().contains(name@) {
                let k = choose|k: int| 0 <= k < rtl_script_names().len() && rtl_script_names()[k] == name@;
                assert(rtl@.map_values(|t: &str| t@)[k] == rtl@[k]@);
            }
        }
        if in_rtl {
            return Some(Direction::RightToLeft);
        }
        let in_unsettled: bool = name_in(name, &unsettled);
        proof {
            if in_unsettled {
                let k = choose|k: int| 0 <= k < unsettled@.len() && unsettled@[k]@ == name@;
                assert(unsettled@.map_values(|t: &str| t@)[k] == name@);
            } else if unsettled_script_names().contains(name@) {
                let k = choose|k: int| 0 <= k < unsettled_script_names().len() && unsettled_script_names()[k] == name@;
                assert(unsettled@.map_values(|t: &str| t@)[k] == unsettled@[k]@);
            }
        }
        if in_unsettled {
            None
        } else {
            Some(Direction::LeftToRight)
        }
    }

    /// Whether the script is written right to left; `None` where its
    /// direction is not settled.
    pub fn is_rtl(self, names: &[&str]) -> (r: Option<bool>)
        ensures
            r == match spec_horizontal_direction(spec_script_name(names@, self)) {
                Some(d) => Some(d == Direction::RightToLeft),
                None => None,
            },
    {
        match self.horizontal_direction(names) {
            Some(d) => Some(d == Direction::RightToLeft),
            None => None,
        }
    }
}

/// The presentation form a character takes in vertical text.
pub open spec fn spec_vertical_form(c: u32) -> Option<u32> {
    if c == 0x2013 {
        Some(0xFE32u32)
    } else if c == 0x2014 {
        Some(0xFE31u32)
    } else if c == 0x2025 {
        Some(0xFE30u32)
    } else if c == 0x2026 {
        Some(0xFE19u32)
    } else if c == 0x3001 {
        Some(0xFE11u32)
    } else if c == 0x3002 {
        Some(0xFE12u32)
    } else if c == 0x3008 {
        Some(0xFE3Fu32)
    } else if c == 0x3009 {
        Some(0xFE40u32)
    } else if c == 0x300A {
        Some(0xFE3Du32)
    } else if c == 0x300B {
        Some(0xFE3Eu32)
    } else if c == 0x300C {
        Some(0xFE41u32)
    } else if c == 0x300D {
        Some(0xFE42u32)
    } else if c == 0x300E {
        Some(0xFE43u32)
    } else if c == 0x300F {
        Some(0xFE44u32)
    } else if c == 0x3010 {
        Some(0xFE3Bu32)
    } else if c == 0x3011 {
        Some(0xFE3Cu32)
    } else if c == 0x3014 {
        Some(0xFE39u32)
    } else if c == 0x3015 {
        Some(0xFE3Au32)
    } else if c == 0x3016 {
        Some(0xFE17u32)
    } else if c == 0x3017 {
        Some(0xFE18u32)
    } else if c == 0xFE4F {
        Some(0xFE34u32)
    } else {
        None
    }
}

pub fn vertical_form(c: char) -> (r: Option<char>)
    ensures
        r matches Some(v) ==> spec_vertical_form(c as u32) == Some(v as u32),
        r is None ==> spec_vertical_form(c as u32) is None,
{
    let v: u32 = c as u32;
    if v == 0x2013 {
        Some('\u{FE32}')
    } else if v == 0x2014 {
        Some('\u{FE31}')
    } else if v == 0x2025 {
        Some('\u{FE30}')
    } else if v == 0x2026 {
        Some('\u{FE19}')
    } else if v == 0x3001 {
        Some('\u{FE11}')
    } else if v == 0x3002 {
        Some('\u{FE12}')
    } else if v == 0x3008 {
        Some('\u{FE3F}')
    } else if v == 0x3009 {
        Some('\u{FE40}')
    } else if v == 0x300A {
        Some('\u{FE3D}')
    } else if v == 0x300B {
        Some('\u{FE3E}')
    } else if v == 0x300C {
        Some('\u{FE41}')
    } else if v == 0x300D {
        Some('\u{FE42}')
    } else if v == 0x300E {
        Some('\u{FE43}')
    } else if v == 0x300F {
        Some('\u{FE44}')
    } else if v == 0x3010 {
        Some('\u{FE3B}')
    } else if v == 0x3011 {
        Some('\u{FE3C}')
    } else if v == 0x3014 {
        Some('\u{FE39}')
    } else if v == 0x3015 {
        Some('\u{FE3A}')
    } else if v == 0x3016 {
        Some('\u{FE17}')
    } else if v == 0x3017 {
        Some('\u{FE18}')
    } else if v == 0xFE4F {
        Some('\u{FE34}')
    } else {
        None
    }
}

#[derive(Clone, Copy, PartialEq, Eq, Structural, Debug)]
pub enum VerticalOrientation {
    Rotated,
    TransformedRotated,
    TransformedUpright,
    Upright,
}

impl VerticalOrientation {
    /// The orientation stored as `v` in the property table.
    pub fn from_raw(v: u8) -> (o: VerticalOrientation)
        ensures
            v == 1 ==> o == VerticalOrientation::TransformedRotated,
            v == 2 ==> o == VerticalOrientation::TransformedUpright,
            v == 3 ==> o == VerticalOrientation::Upright,
            (v == 0 || v > 3) ==> o == VerticalOrientation::Rotated,
    {
        match v {
            1 => VerticalOrientation::TransformedRotated,
            2 => VerticalOrientation::TransformedUpright,
            3 => VerticalOrientation::Upright,
            _ => VerticalOrientation::Rotated,
        }
    }
}

/// Whether a character of this orientation stands upright in vertical
/// text; a transformed-rotated one does only where the font has its
/// vertical form.
pub fn is_upright(orientation: VerticalOrientation, has_vertical_form: bool) -> (r: bool)
    ensures
        r == match orientation {
            VerticalOrientation::Upright | VerticalOrientation::TransformedUpright => true,
            VerticalOrientation::TransformedRotated => has_vertical_form,
            VerticalOrientation::Rotated => false,
        },
{
    match orientation {
        VerticalOrientation::Upright | VerticalOrientation::TransformedUpright => true,
        VerticalOrientation::TransformedRotated => has_vertical_form,
        VerticalOrientation::Rotated => false,
    }
}

/// How a space character without its own glyph is synthesized.
#[derive(Clone, Copy, PartialEq, Eq, Structural, Debug)]
pub enum SpaceFallback {
    Space,
    EmDiv(u8),
    Figure,
    Punctuation,
    Narrow,
    Em4Of18,
}

pub open spec fn spec_space_fallback_byte(s: SpaceFallback) -> u8 {
    match s {
        SpaceFallback::Space => 1,
        SpaceFallback::Figure => 2,
        SpaceFallback::Punctuation => 3,
        SpaceFallback::Narrow => 4,
        SpaceFallback::Em4Of18 => 5,
        SpaceFallback::EmDiv(n) => if 16 + n > 255 {
            255
        } else {
            (16 + n) as u8
        },
    }
}

pub open spec fn spec_space_fallback_of_byte(b: u8) -> Option<SpaceFallback> {
    if b == 1 {
        Some(SpaceFallback::Space)
    } else if b == 2 {
        Some(SpaceFallback::Figure)
    } else if b == 3 {
        Some(SpaceFallback::Punctuation)
    } else if b == 4 {
        Some(SpaceFallback::Narrow)
    } else if b == 5 {
        Some(SpaceFallback::Em4Of18)
    } else if b >= 17 {
        Some(SpaceFallback::EmDiv((b - 16) as u8))
    } else {
        None
    }
}

impl SpaceFallback {
    pub fn to_byte(self) -> (b: u8)
        ensures
            b == spec_space_fallback_byte(self),
    {
        match self {
            SpaceFallback::Space => 1,
            SpaceFallback::Figure => 2,
            SpaceFallback::Punctuation => 3,
            SpaceFallback::Narrow => 4,
            SpaceFallback::Em4Of18 => 5,
            SpaceFallback::EmDiv(n) => 16u8.saturating_add(n),
        }
    }

    pub fn from_byte(b: u8) -> (r: Option<SpaceFallback>)
        ensures
            r == spec_space_fallback_of_byte(b),
    {
        match b {
            1 => Some(SpaceFallback::Space),
            2 => Some(SpaceFallback::Figure),
            3 => Some(SpaceFallback::Punctuation),
            4 => Some(SpaceFallback::Narrow),
            5 => Some(SpaceFallback::Em4Of18),
            _ => if b >= 17 {
                Some(SpaceFallback::EmDiv(b - 16))
            } else {
                None
            },
        }
    }
}

/// A fallback that fits the byte encoding reads back unchanged; only an
/// em divisor of zero, or one too large for the byte, is lost.
pub proof fn lemma_space_fallback_roundtrip(s: SpaceFallback)
    requires
        s matches SpaceFallback::EmDiv(n) ==> 1 <= n <= 239,
    ensures
        spec_space_fallback_of_byte(spec_space_fallback_byte(s)) == Some(s),
{
}

pub open spec fn spec_space_fallback(c: u32) -> Option<SpaceFallback> {
    if c == 0x0020 || c == 0x00A0 {
        Some(SpaceFallback::Space)
    } else if c == 0x2000 || c == 0x2002 {
        Some(SpaceFallback::EmDiv(2))
    } else if c == 0x2001 || c == 0x2003 || c == 0x3000 {
        Some(SpaceFallback::EmDiv(1))
    } else if c == 0x2004 {
        Some(SpaceFallback::EmDiv(3))
    } else if c == 0x2005 {
        Some(SpaceFallback::EmDiv(4))
    } else if c == 0x2006 {
        Some(SpaceFallback::EmDiv(6))
    } else if c == 0x2007 {
        Some(SpaceFallback::Figure)
    } else if c == 0x2008 {
        Some(SpaceFallback::Punctuation)
    } else if c == 0x2009 {
        Some(SpaceFallback::EmDiv(5))
    } else if c == 0x200A {
        Some(SpaceFallback::EmDiv(16))
    } else if c == 0x202F {
        Some(SpaceFallback::Narrow)
    } else if c == 0x205F {
        Some(SpaceFallback::Em4Of18)
    } else {
        None
    }
}

pub fn space_fallback(c: char) -> (r: Option<SpaceFallback>)
    ensures
        r == spec_space_fallback(c as u32),
{
    let v: u32 = c as u32;
    if v == 0x0020 || v == 0x00A0 {
        Some(SpaceFallback::Space)
    } else if v == 0x2000 || v == 0x2002 {
        Some(SpaceFallback::EmDiv(2))
    } else if v == 0x2001 || v == 0x2003 || v == 0x3000 {
        Some(SpaceFallback::EmDiv(1))
    } else if v == 0x2004 {
        Some(SpaceFallback::EmDiv(3))
    } else if v == 0x2005 {
        Some(SpaceFallback::EmDiv(4))
    } else if v == 0x2006 {
        Some(SpaceFallback::EmDiv(6))
    } else if v == 0x2007 {
        Some(SpaceFallback::Figure)
    } else if v == 0x2008 {
        Some(SpaceFallback::Punctuation)
    } else if v == 0x2009 {
        Some(SpaceFallback::EmDiv(5))
    } else if v == 0x200A {
        Some(SpaceFallback::EmDiv(16))
    } else if v == 0x202F {
        Some(SpaceFallback::Narrow)
    } else if v == 0x205F {
        Some(SpaceFallback::Em4Of18)
    } else {
        None
    }
}

pub open spec fn spec_is_variation_selector(c: u32) -> bool {
    (0x180B <= c <= 0x180D) || c == 0x180F || (0xFE00 <= c <= 0xFE0F) || (0xE0100 <= c <= 0xE01EF)
}

pub fn is_variation_selector(c: char) -> (r: bool)
    ensures
        r == spec_is_variation_selector(c as u32),
{
    let v: u32 = c as u32;
    (0x180B <= v && v <= 0x180D) || v == 0x180F || (0xFE00 <= v && v <= 0xFE0F) || (0xE0100 <= v
        && v <= 0xE01EF)
}

/// The combining class reordering uses: a handful of Hebrew, Arabic and
/// Tibetan classes are renumbered so marks sort the way fonts expect.
pub open spec fn spec_remap_combining_class(ccc: u8) -> u8 {
    if ccc == 10 {
        22
    } else if ccc == 11 {
        15
    } else if ccc == 12 {
        16
    } else if ccc == 13 {
        17
    } else if ccc == 14 {
        23
    } else if ccc == 15 {
        18
    } else if ccc == 16 {
        19
    } else if ccc == 17 {
        20
    } else if ccc == 18 {
        21
    } else if ccc == 19 {
        14
    } else if ccc == 20 {
        24
    } else if ccc == 21 {
        12
    } else if ccc == 22 {
        25
    } else if ccc == 23 {
        13
    } else if ccc == 24 {
        10
    } else if ccc == 25 {
        11
    } else if ccc == 27 {
        28
    } else if ccc == 28 {
        29
    } else if ccc == 29 {
        30
    } else if ccc == 30 {
        31
    } else if ccc == 31 {
        32
    } else if ccc == 32 {
        33
    } else if ccc == 33 {
        27
    } else if ccc == 84 || ccc == 91 {
        0
    } else if ccc == 103 {
        3
    } else if ccc == 130 {
        132
    } else if ccc == 132 {
        131
    } else {
        ccc
    }
}

pub fn remap_combining_class(ccc: u8) -> (r: u8)
    ensures
        r == spec_remap_combining_class(ccc),
{
    match ccc {
        10 => 22,
        11 => 15,
        12 => 16,
        13 => 17,
        14 => 23,
        15 => 18,
        16 => 19,
        17 => 20,
        18 => 21,
        19 => 14,
        20 => 24,
        21 => 12,
        22 => 25,
        23 => 13,
        24 => 10,
        25 => 11,
        27 => 28,
        28 => 29,
        29 => 30,
        30 => 31,
        31 => 32,
        32 => 33,
        33 => 27,
        84 | 91 => 0,
        103 => 3,
        130 => 132,
        132 => 131,
        other => other,
    }
}

/// The combining class shaping sorts by, given the character and its
/// canonical combining class.
pub open spec fn spec_modified_combining_class(c: u32, ccc: u8) -> u8 {
    if c == 0x1A60 || c == 0x0FC6 {
        254
    } else if c == 0x0F39 {
        127
    } else {
        spec_remap_combining_class(ccc)
    }
}

pub fn modified_combining_class(c: char, ccc: u8) -> (r: u8)
    ensures
        r == spec_modified_combining_class(c as u32, ccc),
{
    let v: u32 = c as u32;
    if v == 0x1A60 || v == 0x0FC6 {
        return 254;
    }
    if v == 0x0F39 {
        return 127;
    }
    remap_combining_class(ccc)
}

#[derive(Clone, Copy, PartialEq, Eq, Structural, Debug)]
pub enum JoiningType {
    NonJoining,
    LeftJoining,
    RightJoining,
    DualJoining,
    Alaph,
    DalathRish,
    Transparent,
}

pub open spec fn spec_joining_type_of_raw(v: u8) -> JoiningType {
    if v == 1 {
        JoiningType::LeftJoining
    } else if v == 2 {
        JoiningType::RightJoining
    } else if v == 3 {
        JoiningType::DualJoining
    } else if v == 4 {
        JoiningType::Alaph
    } else if v == 5 {
        JoiningType::DalathRish
    } else if v == 7 {
        JoiningType::Transparent
    } else {
        JoiningType::NonJoining
    }
}

impl JoiningType {
    pub fn from_raw(v: u8) -> (j: JoiningType)
        ensures
            j == spec_joining_type_of_raw(v),
    {
        match v {
            1 => JoiningType::LeftJoining,
            2 => JoiningType::RightJoining,
            3 => JoiningType::DualJoining,
            4 => JoiningType::Alaph,
            5 => JoiningType::DalathRish,
            7 => JoiningType::Transparent,
            _ => JoiningType::NonJoining,
        }
    }
}

/// The joining type of a character from its stored joining value; a
/// character the table leaves unset (255) is transparent when it is a
/// nonspacing or enclosing mark or a format character and non-joining
/// otherwise.
pub fn joining_type(raw: u8, gc: GeneralCategory) -> (j: JoiningType)
    ensures
        raw != 255 ==> j == spec_joining_type_of_raw(raw),
        raw == 255 ==> j == (if gc == GeneralCategory::NonspacingMark || gc
            == GeneralCategory::EnclosingMark || gc == GeneralCategory::Format {
            JoiningType::Transparent
        } else {
            JoiningType::NonJoining
        }),
{
    if raw != 255 {
        return JoiningType::from_raw(raw);
    }
    match gc {
        GeneralCategory::NonspacingMark | GeneralCategory::EnclosingMark | GeneralCategory::Format => {
            JoiningType::Transparent
        },
        _ => JoiningType::NonJoining,
    }
}

pub const S_BASE: u32 = 0xAC00;

pub const L_BASE: u32 = 0x1100;

pub const V_BASE: u32 = 0x1161;

pub const T_BASE: u32 = 0x11A7;

pub const L_COUNT: u32 = 19;

pub const V_COUNT: u32 = 21;

pub const T_COUNT: u32 = 28;

pub const N_COUNT: u32 = 588;

pub const S_COUNT: u32 = 11172;

/// A Hangul syllable's canonical decomposition: an LVT syllable into its LV
/// syllable and trailing consonant, an LV syllable into its two jamo.
pub open spec fn spec_decompose_hangul(s: u32) -> Option<(u32, u32)> {
    if s < S_BASE || s - S_BASE >= S_COUNT {
        None
    } else {
        let si = s - S_BASE;
        if si % (T_COUNT as int) != 0 {
            Some(
                (
                    (S_BASE + (si / (T_COUNT as int)) * (T_COUNT as int)) as u32,
                    (T_BASE + si % (T_COUNT as int)) as u32,
                ),
            )
        } else {
            Some(
                (
                    (L_BASE + si / (N_COUNT as int)) as u32,
                    (V_BASE + (si % (N_COUNT as int)) / (T_COUNT as int)) as u32,
                ),
            )
        }
    }
}

/// The Hangul syllable two characters compose to, if they do.
pub open spec fn spec_compose_hangul(a: u32, b: u32) -> Option<u32> {
    if L_BASE <= a < L_BASE + L_COUNT && V_BASE <= b < V_BASE + V_COUNT {
        Some((S_BASE + ((a - L_BASE) * (V_COUNT as int) + (b - V_BASE)) * (T_COUNT as int)) as u32)
    } else if S_BASE <= a < S_BASE + S_COUNT && (a - S_BASE) % (T_COUNT as int) == 0 && T_BASE + 1
        <= b < T_BASE + T_COUNT {
        Some((a + (b - T_BASE)) as u32)
    } else {
        None
    }
}

/// `char::from_u32`: the character of a Unicode scalar value, `None` for a
/// surrogate or a value past U+10FFFF.
#[verifier::external_body]
pub(crate) fn char_from_u32(v: u32) -> (r: Option<char>)
    ensures
        r is Some <==> (v < 0xD800 || (0xE000 <= v <= 0x10FFFF)),
        r matches Some(c) ==> c as u32 == v,
{
    char::from_u32(v)
}

pub fn decompose_hangul(ab: char) -> (r: Option<(char, Option<char>)>)
    ensures
        r matches Some((a, b)) ==> (spec_decompose_hangul(ab as u32) matches Some((x, y)) && a as u32
            == x && (b matches Some(bc) && bc as u32 == y)),
        r is None ==> spec_decompose_hangul(ab as u32) is None,
{
    let v: u32 = ab as u32;
    if v < S_BASE {
        return None;
    }
    let si: u32 = v - S_BASE;
    if si >= S_COUNT {
        return None;
    }
    if si % T_COUNT != 0 {
        let lv: u32 = S_BASE + (si / T_COUNT) * T_COUNT;
        let t: u32 = T_BASE + si % T_COUNT;
        let lv_c = char_from_u32(lv);
        let t_c = char_from_u32(t);
        match (lv_c, t_c) {
            (Some(x), Some(y)) => {
                Some((x, Some(y)))
            },
            _ => None,
        }
    } else {
        let l: u32 = L_BASE + si / N_COUNT;
        let vv: u32 = V_BASE + (si % N_COUNT) / T_COUNT;
        let l_c = char_from_u32(l);
        let v_c = char_from_u32(vv);
        match (l_c, v_c) {
            (Some(x), Some(y)) => {
                Some((x, Some(y)))
            },
            _ => None,
        }
    }
}

pub fn compose_hangul(a: char, b: char) -> (r: Option<char>)
    ensures
        r matches Some(c) ==> spec_compose_hangul(a as u32, b as u32) == Some(c as u32),
        r is None ==> spec_compose_hangul(a as u32, b as u32) is None,
{
    let x: u32 = a as u32;
    let y: u32 = b as u32;
    if L_BASE <= x && x < L_BASE + L_COUNT && V_BASE <= y && y < V_BASE + V_COUNT {
        return char_from_u32(S_BASE + ((x - L_BASE) * V_COUNT + (y - V_BASE)) * T_COUNT);
    }
    if S_BASE <= x && x < S_BASE + S_COUNT && (x - S_BASE) % T_COUNT == 0 && T_BASE + 1 <= y && y
        < T_BASE + T_COUNT {
        return char_from_u32(x + (y - T_BASE));
    }
    None
}

/// Composing the parts of a decomposed Hangul syllable gives the syllable
/// back.
pub proof fn lemma_hangul_roundtrip(s: u32)
    requires
        spec_decompose_hangul(s) is Some,
    ensures
        (spec_decompose_hangul(s) matches Some((a, b)) && spec_compose_hangul(a, b) == Some(s)),
{
    let si: int = s - S_BASE;
    if si % 28 != 0 {
        assert(((si / 28) * 28) % 28 == 0) by (nonlinear_arith);
        assert((si / 28) * 28 + si % 28 == si) by (nonlinear_arith);
    } else {
        assert(si / 588 < 19) by (nonlinear_arith)
            requires
                0 <= si < 11172,
        ;
        assert((si % 588) / 28 < 21) by (nonlinear_arith)
            requires
                0 <= si,
        ;
        assert(((si / 588) * 21 + (si % 588) / 28) * 28 == si) by (nonlinear_arith)
            requires
                si % 28 == 0,
                0 <= si,
        ;
    }
}


/// The renumbering only reorders the classes 10 to 33 among themselves (the
/// Hebrew and Arabic points keep distinct classes), and leaves the classes
/// of below and above marks alone.
pub proof fn lemma_remap_permutes_points(a: u8, b: u8)
    ensures
        10 <= a <= 33 ==> 10 <= spec_remap_combining_class(a) <= 33,
        10 <= a <= 33 && 10 <= b <= 33 && a != b ==> spec_remap_combining_class(a) != spec_remap_combining_class(b),
        spec_remap_combining_class(0) == 0,
        spec_remap_combining_class(220) == 220,
        spec_remap_combining_class(230) == 230,
{
}

} // verus!
