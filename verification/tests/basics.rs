use daeshaper::buffer::{Buffer, ClusterLevel, Direction, GlyphInfo};
use daeshaper::digest::Digest;
use daeshaper::plan::UserFeature;
use daeshaper::shape::{guess_segment_properties, shaped_glyphs};
use daeshaper::syllable::{segment, set_syllables, Segment};
use daeshaper::tag::{language_tags, script_tags, Tag, Tags};
use daeshaper::unicode::{compose_hangul, decompose_hangul, space_fallback, GeneralCategory, Script, ScriptCatalog, SpaceFallback};

#[test]
fn a_digest_has_no_false_negatives() {
    let mut d = Digest::new();
    for g in [3u16, 77, 1000, 65535] {
        d.add(g);
    }
    for g in [3u16, 77, 1000, 65535] {
        assert!(d.may_have(g));
    }
    let mut r = Digest::new();
    r.add_range(100, 200);
    assert!(r.may_have(100) && r.may_have(150) && r.may_have(200));
    let mut u = Digest::new();
    u.union(&d);
    u.union(&r);
    assert!(u.may_have(77) && u.may_have(150));
    assert!(u.may_intersect(&d));
    assert!(!Digest::new().may_intersect(&d));
    assert!(Digest::full().is_full() && Digest::full().may_have(12345));
}

#[test]
fn tags_pack_their_bytes_big_endian() {
    let t = Tag::from_bytes(b"latn");
    assert_eq!(t.0, 0x6C61_746E);
    assert_eq!(t.to_bytes(), *b"latn");
    assert_eq!(Tag::default_script().to_bytes(), *b"DFLT");
}

#[test]
fn indic_scripts_try_the_newer_tags_first() {
    let deva = Tag::from_bytes(b"Deva").0;
    let tags = script_tags(deva, false);
    assert_eq!(tags.as_slice(), &[Tag::from_bytes(b"dev3"), Tag::from_bytes(b"dev2"), Tag::from_bytes(b"deva")]);
    let mymr = script_tags(Tag::from_bytes(b"Mymr").0, false);
    assert_eq!(mymr.as_slice(), &[Tag::from_bytes(b"mym2"), Tag::from_bytes(b"mymr")]);
    let hira = script_tags(Tag::from_bytes(b"Hira").0, false);
    assert_eq!(hira.as_slice(), &[Tag::from_bytes(b"kana")]);
    assert_eq!(script_tags(0, true).as_slice(), &[Tag::default_script()]);
}

#[test]
fn language_fallbacks_follow_the_primary_tag() {
    let div = language_tags(Some(Tag::from_bytes(b"DIV ")));
    assert_eq!(div.as_slice(), &[Tag::from_bytes(b"DIV "), Tag::from_bytes(b"DHV ")]);
    assert!(language_tags(None).as_slice().is_empty());
    let mut t = Tags::new();
    for _ in 0..5 {
        t.push(Tag(1));
    }
    assert_eq!(t.as_slice().len(), 3);
}

#[test]
fn hangul_syllables_decompose_and_recompose() {
    assert_eq!(decompose_hangul('\u{D55C}'), Some(('\u{D558}', Some('\u{11AB}'))));
    assert_eq!(decompose_hangul('\u{D558}'), Some(('\u{1112}', Some('\u{1161}'))));
    assert_eq!(compose_hangul('\u{1112}', '\u{1161}'), Some('\u{D558}'));
    assert_eq!(compose_hangul('\u{D558}', '\u{11AB}'), Some('\u{D55C}'));
    assert_eq!(decompose_hangul('a'), None);
    assert_eq!(compose_hangul('a', 'b'), None);
}

#[test]
fn spaces_have_fallback_widths() {
    assert_eq!(space_fallback(' '), Some(SpaceFallback::Space));
    assert_eq!(space_fallback('\u{2003}'), Some(SpaceFallback::EmDiv(1)));
    assert_eq!(space_fallback('\u{2009}'), Some(SpaceFallback::EmDiv(5)));
    assert_eq!(space_fallback('x'), None);
}

#[test]
fn general_categories_round_trip() {
    for v in 0u8..30 {
        assert_eq!(GeneralCategory::from_raw(v).to_raw(), v);
    }
    assert!(GeneralCategory::NonspacingMark.is_mark());
    assert!(GeneralCategory::UppercaseLetter.is_letter());
    assert!(!GeneralCategory::SpaceSeparator.is_letter());
}

#[test]
fn directions_and_cluster_levels() {
    assert!(Direction::LeftToRight.is_horizontal());
    assert!(Direction::BottomToTop.is_backward());
    assert_eq!(Direction::TopToBottom.reverse(), Direction::BottomToTop);
    assert!(ClusterLevel::MonotoneGraphemes.is_monotone());
    assert!(ClusterLevel::MonotoneGraphemes.is_graphemes());
}

#[test]
fn pushed_text_keeps_byte_offsets_as_clusters() {
    let mut b = Buffer::new();
    b.push_str("aé€");
    assert_eq!(b.len, 3);
    assert_eq!(b.info[0].id, 'a' as u32);
    assert_eq!(b.info[1].id, 'é' as u32);
    assert_eq!(b.info[2].id, '€' as u32);
    assert_eq!((b.info[0].cluster, b.info[1].cluster, b.info[2].cluster), (0, 1, 3));
    assert_eq!(GlyphInfo::new(65, 7).cluster, 7);
}

#[test]
fn shaped_glyphs_copy_ids_positions_and_flags() {
    let mut b = Buffer::new();
    b.push_str("ab");
    b.clear_positions();
    b.info[1].mask = 0xFF;
    b.pos[1].x_advance = 500;
    let out = shaped_glyphs(&b);
    assert_eq!(out.len(), 2);
    assert_eq!(out[0].glyph_id, 'a' as u16);
    assert_eq!(out[1].x_advance, 500);
    assert_eq!(out[1].flags, 0x07);
    assert_eq!(out[1].cluster, 1);
}

#[test]
fn the_first_script_of_its_own_settles_the_buffer() {
    let mut b = Buffer::new();
    b.push_str("1a");
    let catalog = ScriptCatalog { common: 0, inherited: 1, count: 4 };
    let dirs = [None, None, Some(Direction::LeftToRight), Some(Direction::RightToLeft)];
    let d = guess_segment_properties(&mut b, &[Some(Script(0)), Some(Script(3))], &catalog, &dirs);
    assert_eq!(b.script, Some(Script(3)));
    assert_eq!(d, Direction::RightToLeft);
    let mut c = Buffer::new();
    c.push_str("1");
    let e = guess_segment_properties(&mut c, &[Some(Script(0))], &catalog, &dirs);
    assert_eq!(c.script, None);
    assert_eq!(e, Direction::LeftToRight);
}

#[test]
fn user_features_over_everything_are_global() {
    let f = UserFeature::global(Tag::from_bytes(b"liga"), 1);
    assert!(f.is_global());
    let g = UserFeature { tag: Tag::from_bytes(b"liga"), value: 1, start: 2, end: 4 };
    assert!(!g.is_global());
}

#[test]
fn syllables_are_longest_matches() {
    // categories: 1 = consonant, 2 = mark; a syllable is a consonant and
    // any marks after it.
    let transitions: [[u16; 3]; 2] = [[0, 1, 0], [0, 0, 1]];
    let accepting = [None, Some(5u8)];
    let segs = segment(&[1, 2, 2, 1, 0, 1], &transitions, &accepting, 0);
    assert_eq!(
        segs,
        vec![
            Segment { start: 0, end: 3, kind: 5 },
            Segment { start: 3, end: 4, kind: 5 },
            Segment { start: 5, end: 6, kind: 5 },
        ]
    );
    let mut b = Buffer::new();
    b.push_str("abcdef");
    set_syllables(&mut b, &segs);
    assert_eq!(b.info[0].syllable, 0x15);
    assert_eq!(b.info[3].syllable, 0x25);
    assert_eq!(b.info[4].syllable, 0);
    assert_eq!(b.info[5].syllable, 0x35);
}

#[test]
fn a_script_is_named_from_the_catalog() {
    let names = ["Common", "Latin", "Arabic", "Runic"];
    assert_eq!(Script(2).name(&names), "Arabic");
    assert_eq!(Script(1).name(&names), "Latin");
    assert_eq!(Script(9).name(&names), "Unknown");
}

#[test]
fn the_direction_of_a_script_follows_its_name() {
    let names = ["Common", "Latin", "Arabic", "Runic", "Hebrew"];
    assert_eq!(Script(2).is_rtl(&names), Some(true));
    assert_eq!(Script(4).is_rtl(&names), Some(true));
    assert_eq!(Script(1).is_rtl(&names), Some(false));
    assert_eq!(Script(3).is_rtl(&names), None);
    assert_eq!(Script(9).is_rtl(&names), Some(false));
    assert_eq!(Script(3).horizontal_direction(&names), None);
    assert_eq!(Script(2).horizontal_direction(&names), Some(Direction::RightToLeft));
}
