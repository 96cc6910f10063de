use daeshaper::buffer::{
    Buffer, Direction, GlyphInfo, GlyphPosition, BASE_GLYPH, HAS_DEFAULT_IGNORABLES, HAS_GLYPH_FLAGS,
    HAS_CGJ, HAS_CONTINUATIONS, HAS_VARIATION_SELECTOR_FALLBACK, MARK, PROPS_HIDDEN, PROPS_CF_VS, PROPS_CONTINUATION, PROPS_IGNORABLE, SAFE_TO_INSERT_TATWEEL,
    UNSAFE_TO_BREAK, UNSAFE_TO_CONCAT,
};
use daeshaper::passes::{
    deal_with_variation_selectors, ensure_native_direction, form_clusters, hide_default_ignorables, insert_dotted_circle,
    propagate_flags, reverse_graphemes, set_unicode_props, CharProps,
    synthesize_glyph_classes, zero_mark_widths, zero_width_default_ignorables,
};
use daeshaper::tag::normalize_chinese;
use daeshaper::unicode::GeneralCategory;
use daeshaper::fallback::{recategorize_combining_class, recategorize_marks, zero_mark_advances, ABOVE, ABOVE_RIGHT, BELOW, BELOW_RIGHT};
use daeshaper::normalize::{reorder_marks, unhide_idle_cgj};

fn buffer_of(text: &str) -> Buffer {
    let mut b = Buffer::new();
    b.push_str(text);
    b.clear_positions();
    b.direction = Direction::LeftToRight;
    b
}

fn with_mark() -> Buffer {
    let mut b = buffer_of("ab");
    b.info[1].glyph_props = MARK;
    b.pos[0].x_advance = 500;
    b.pos[1].x_advance = 300;
    b.pos[1].x_offset = 10;
    b
}

#[test]
fn marks_lose_their_advances() {
    let mut b = with_mark();
    zero_mark_widths(&mut b, true);
    assert_eq!(b.pos[0].x_advance, 500);
    assert_eq!((b.pos[1].x_advance, b.pos[1].x_offset), (0, -290));
    let mut kept = with_mark();
    zero_mark_widths(&mut kept, false);
    assert_eq!((kept.pos[1].x_advance, kept.pos[1].x_offset), (0, 10));
}

#[test]
fn default_ignorables_lose_their_positions() {
    let mut b = buffer_of("a\u{200B}");
    b.info[1].unicode_props |= PROPS_IGNORABLE;
    b.pos[1].x_advance = 40;
    b.pos[0].x_advance = 500;
    zero_width_default_ignorables(&mut b);
    assert_eq!(b.pos[1].x_advance, 40);
    b.scratch_flags |= HAS_DEFAULT_IGNORABLES;
    zero_width_default_ignorables(&mut b);
    assert_eq!(b.pos[1], GlyphPosition::new());
    assert_eq!(b.pos[0].x_advance, 500);
}

#[test]
fn unmatched_variation_selectors_fall_back() {
    let mut b = buffer_of("a\u{FE0F}");
    b.info[1].unicode_props = 2 | PROPS_CF_VS;
    b.pos[1].x_advance = 30;
    b.scratch_flags |= HAS_VARIATION_SELECTOR_FALLBACK;
    b.not_found_variation_selector = Some(77);
    deal_with_variation_selectors(&mut b);
    assert_eq!(b.info[1].id, 77);
    assert_eq!(b.info[1].general_category(), 12);
    assert!(!b.info[1].is_variation_selector());
    assert_eq!(b.pos[1], GlyphPosition::new());
    assert_eq!(b.info[0].id, 'a' as u32);
}

#[test]
fn glyph_classes_come_from_categories() {
    let mut b = buffer_of("a\u{301}");
    b.info[1].unicode_props = 12;
    b.info[0].unicode_props = 5;
    synthesize_glyph_classes(&mut b);
    assert_eq!(b.info[0].glyph_props, BASE_GLYPH);
    assert_eq!(b.info[1].glyph_props, MARK);
    b.info[1].unicode_props = 12 | PROPS_IGNORABLE;
    synthesize_glyph_classes(&mut b);
    assert_eq!(b.info[1].glyph_props, BASE_GLYPH);
}

#[test]
fn glyph_flags_spread_over_a_cluster() {
    let mut b = buffer_of("abc");
    b.info[1].cluster = 0;
    b.info[0].mask = 0xF0;
    b.info[1].mask = UNSAFE_TO_BREAK | UNSAFE_TO_CONCAT | 0x100;
    b.info[2].mask = SAFE_TO_INSERT_TATWEEL;
    b.scratch_flags |= HAS_GLYPH_FLAGS;
    b.produce_unsafe_to_concat = true;
    b.produce_safe_to_insert_tatweel = true;
    propagate_flags(&mut b);
    assert_eq!(b.info[0].mask, UNSAFE_TO_BREAK | UNSAFE_TO_CONCAT);
    assert_eq!(b.info[1].mask, UNSAFE_TO_BREAK | UNSAFE_TO_CONCAT);
    assert_eq!(b.info[2].mask, SAFE_TO_INSERT_TATWEEL | UNSAFE_TO_BREAK | UNSAFE_TO_CONCAT);
    let mut c = buffer_of("ab");
    c.info[0].mask = UNSAFE_TO_CONCAT;
    c.scratch_flags |= HAS_GLYPH_FLAGS;
    c.produce_unsafe_to_concat = false;
    propagate_flags(&mut c);
    assert_eq!(c.info[0].mask, 0);
}

#[test]
fn a_group_runs_while_glyphs_continue_it() {
    let mut b = buffer_of("abcd");
    b.info[1].unicode_props |= PROPS_CONTINUATION;
    b.info[2].unicode_props |= PROPS_CONTINUATION;
    let cont = |_a: &GlyphInfo, x: &GlyphInfo| x.is_continuation();
    assert_eq!(b.group_end(0, cont), 3);
    assert_eq!(b.group_end(3, cont), 4);
    assert_eq!(b.group_end(1, cont), 3);
}

#[test]
fn chinese_language_tags_are_normalized() {
    assert_eq!(normalize_chinese("zh"), Some(*b"ZHS "));
    assert_eq!(normalize_chinese("zh-hant-tw"), Some(*b"ZHT "));
    assert_eq!(normalize_chinese("zh-hans-hk"), Some(*b"ZHS "));
    assert_eq!(normalize_chinese("zh-mo"), Some(*b"ZHTM"));
    assert_eq!(normalize_chinese("zh-hk"), Some(*b"ZHH "));
    assert_eq!(normalize_chinese("zh-tw"), Some(*b"ZHT "));
    assert_eq!(normalize_chinese("zh-cn"), Some(*b"ZHS "));
    assert_eq!(normalize_chinese("zhx"), None);
    assert_eq!(normalize_chinese("en"), None);
    assert_eq!(normalize_chinese("z"), None);
}

#[test]
fn marks_take_their_position_classes() {
    assert_eq!(recategorize_combining_class(0x05B0, 10), ABOVE_RIGHT);
    assert_eq!(recategorize_combining_class(0x05B1, 17), BELOW);
    assert_eq!(recategorize_combining_class(0x0E31, 0), ABOVE_RIGHT);
    assert_eq!(recategorize_combining_class(0x0EB1, 0), ABOVE);
    assert_eq!(recategorize_combining_class(0x0E3A, 9), BELOW_RIGHT);
    assert_eq!(recategorize_combining_class(0x0301, 230), 230);
    assert_eq!(recategorize_combining_class(0x0301, 7), 7);
    let mut b = buffer_of("a\u{5B0}");
    b.info[1].unicode_props = 12 | (10 << 8);
    recategorize_marks(&mut b);
    assert_eq!(b.info[1].modified_combining_class(), ABOVE_RIGHT);
    b.pos[1].x_advance = 200;
    b.pos[1].x_offset = 5;
    zero_mark_advances(&mut b, 0, 2, true);
    assert_eq!((b.pos[1].x_advance, b.pos[1].x_offset), (0, -195));
}

#[test]
fn marks_are_put_in_canonical_order() {
    let mut b = Buffer::new();
    b.push_str("a\u{301}\u{316}\u{300}b");
    b.info[1].unicode_props = 12 | (230 << 8);
    b.info[2].unicode_props = 12 | (220 << 8);
    b.info[3].unicode_props = 12 | (230 << 8);
    reorder_marks(&mut b);
    assert_eq!(b.info[1].id, 0x316);
    assert_eq!(b.info[2].id, 0x301);
    assert_eq!(b.info[3].id, 0x300);
    assert_eq!(b.info[0].id, 'a' as u32);
    assert_eq!(b.info[4].id, 'b' as u32);
    let mut c = Buffer::new();
    c.push_str("a\u{301}\u{34F}\u{316}");
    c.info[1].unicode_props = 12 | (230 << 8);
    c.info[2].unicode_props = 2 | PROPS_HIDDEN;
    c.info[3].unicode_props = 12 | (220 << 8);
    c.scratch_flags |= HAS_CGJ;
    unhide_idle_cgj(&mut c);
    assert!(c.info[2].is_hidden());
    c.info[3].unicode_props = 12 | (232 << 8);
    unhide_idle_cgj(&mut c);
    assert!(!c.info[2].is_hidden());
}

#[test]
fn graphemes_reverse_as_units() {
    let mut b = buffer_of("ab\u{301}c");
    b.info[2].unicode_props |= PROPS_CONTINUATION;
    b.pos[0].x_advance = 1;
    b.pos[1].x_advance = 2;
    b.pos[2].x_advance = 3;
    b.pos[3].x_advance = 4;
    reverse_graphemes(&mut b);
    let ids: Vec<u32> = b.info[..4].iter().map(|g| g.id).collect();
    assert_eq!(ids, vec!['c' as u32, 'b' as u32, 0x301, 'a' as u32]);
    let adv: Vec<i32> = b.pos[..4].iter().map(|p| p.x_advance).collect();
    assert_eq!(adv, vec![4, 2, 3, 1]);
}

#[test]
fn right_to_left_text_is_put_native() {
    let mut b = buffer_of("ab");
    b.info[0].unicode_props = 7;
    b.info[1].unicode_props = 7;
    ensure_native_direction(&mut b, Some(Direction::RightToLeft));
    assert_eq!(b.direction, Direction::RightToLeft);
    assert_eq!(b.info[0].id, 'b' as u32);
    let mut digits = buffer_of("12");
    digits.info[0].unicode_props = 13;
    digits.info[1].unicode_props = 13;
    ensure_native_direction(&mut digits, Some(Direction::RightToLeft));
    assert_eq!(digits.direction, Direction::LeftToRight);
    assert_eq!(digits.info[0].id, '1' as u32);
    let mut latin = buffer_of("ab");
    ensure_native_direction(&mut latin, Some(Direction::LeftToRight));
    assert_eq!(latin.direction, Direction::LeftToRight);
    let mut up = buffer_of("ab");
    up.direction = Direction::BottomToTop;
    ensure_native_direction(&mut up, None);
    assert_eq!(up.direction, Direction::TopToBottom);
    assert_eq!(up.info[0].id, 'b' as u32);
}

#[test]
fn clusters_form_around_continuations() {
    let mut b = buffer_of("ab\u{301}c");
    b.info[2].unicode_props |= PROPS_CONTINUATION;
    b.scratch_flags |= HAS_CONTINUATIONS;
    form_clusters(&mut b);
    assert_eq!(b.info[2].cluster, b.info[1].cluster);
    assert_ne!(b.info[3].cluster, b.info[2].cluster);
    assert_eq!(b.info[2].id, 0x301);
}

#[test]
fn glyphs_are_deleted_in_place() {
    let mut b = buffer_of("abcd");
    b.pos[0].x_advance = 10;
    b.pos[2].x_advance = 30;
    b.pos[3].x_advance = 40;
    b.delete_glyphs_inplace(|g: &GlyphInfo| g.id == 'b' as u32);
    assert_eq!(b.len, 3);
    let ids: Vec<u32> = b.info[..3].iter().map(|g| g.id).collect();
    assert_eq!(ids, vec!['a' as u32, 'c' as u32, 'd' as u32]);
    let adv: Vec<i32> = b.pos[..3].iter().map(|p| p.x_advance).collect();
    assert_eq!(adv, vec![10, 30, 40]);
    let mut first = buffer_of("xy");
    first.delete_glyphs_inplace(|g: &GlyphInfo| g.id == 'x' as u32);
    assert_eq!(first.len, 1);
    assert_eq!(first.info[0].id, 'y' as u32);
    assert_eq!(first.info[0].cluster, 0);
}

#[test]
fn default_ignorables_are_hidden_or_removed() {
    let mut shown = buffer_of("a\u{200B}b");
    shown.info[1].unicode_props |= PROPS_IGNORABLE;
    shown.scratch_flags |= HAS_DEFAULT_IGNORABLES;
    hide_default_ignorables(&mut shown, Some(3));
    assert_eq!(shown.len, 3);
    assert_eq!(shown.info[1].id, 3);
    let mut removed = buffer_of("a\u{200B}b");
    removed.info[1].unicode_props |= PROPS_IGNORABLE;
    removed.scratch_flags |= HAS_DEFAULT_IGNORABLES;
    hide_default_ignorables(&mut removed, None);
    assert_eq!(removed.len, 2);
    assert_eq!(removed.info[1].id, 'b' as u32);
    let mut kept = buffer_of("a\u{200B}b");
    kept.info[1].unicode_props |= PROPS_IGNORABLE;
    hide_default_ignorables(&mut kept, None);
    assert_eq!(kept.len, 3);
}

#[test]
fn sorting_moves_glyphs_back_and_merges_their_clusters() {
    let mut b = Buffer::new();
    b.push_str("abc");
    b.info[0].shaper_category = 3;
    b.info[1].shaper_category = 1;
    b.info[2].shaper_category = 2;
    b.sort(0, 3, |x: &GlyphInfo, y: &GlyphInfo| x.shaper_category > y.shaper_category);
    let cats: Vec<u8> = b.info[..3].iter().map(|g| g.shaper_category).collect();
    assert_eq!(cats, vec![1, 2, 3]);
    assert_eq!(b.info[0].cluster, b.info[2].cluster);
}

fn char_props(gc: GeneralCategory, ignorable: bool, pictographic: bool) -> CharProps {
    CharProps { valid: true, gc, ignorable, ccc: 0, pictographic }
}

#[test]
fn unicode_properties_mark_continuations() {
    let mut b = Buffer::new();
    b.push_str("a\u{200D}\u{1F600}");
    let props = [
        char_props(GeneralCategory::LowercaseLetter, false, false),
        char_props(GeneralCategory::Format, true, false),
        char_props(GeneralCategory::OtherSymbol, false, true),
    ];
    set_unicode_props(&mut b, &props);
    assert!(!b.info[0].is_continuation());
    assert!(b.info[1].is_continuation());
    assert!(b.info[2].is_continuation());
    assert!(b.info[1].is_zwj());
    assert_ne!(b.scratch_flags & HAS_CONTINUATIONS, 0);
    assert_ne!(b.scratch_flags & HAS_DEFAULT_IGNORABLES, 0);
    let mut flags = Buffer::new();
    flags.push_str("\u{1F1EB}\u{1F1F7}\u{1F1E9}\u{1F1EA}");
    let ri = [char_props(GeneralCategory::OtherSymbol, false, false); 4];
    set_unicode_props(&mut flags, &ri);
    let cont: Vec<bool> = flags.info[..4].iter().map(|g| g.is_continuation()).collect();
    assert_eq!(cont, vec![false, true, false, true]);
    let mut plain = Buffer::new();
    plain.push_str("ab");
    set_unicode_props(&mut plain, &[char_props(GeneralCategory::LowercaseLetter, false, false); 2]);
    assert_eq!(plain.scratch_flags & HAS_CONTINUATIONS, 0);
}

#[test]
fn a_leading_mark_gets_a_dotted_circle() {
    let mut b = Buffer::new();
    b.push_str("\u{301}a");
    b.info[0].unicode_props = 12 | (230 << 8);
    b.insert_dotted_circle = true;
    b.beginning_of_text = true;
    insert_dotted_circle(&mut b, true);
    assert_eq!(b.len, 3);
    assert_eq!(b.info[0].id, 0x25CC);
    assert_eq!(b.info[0].cluster, 0);
    assert_eq!(b.info[1].id, 0x301);
    let mut no_glyph = Buffer::new();
    no_glyph.push_str("\u{301}");
    no_glyph.info[0].unicode_props = 12;
    no_glyph.insert_dotted_circle = true;
    no_glyph.beginning_of_text = true;
    insert_dotted_circle(&mut no_glyph, false);
    assert_eq!(no_glyph.len, 1);
}

#[test]
fn marks_of_one_class_keep_their_order() {
    let mut b = Buffer::new();
    b.push_str("a\u{301}\u{300}\u{316}\u{302}b");
    b.info[1].unicode_props = 12 | (230 << 8);
    b.info[2].unicode_props = 12 | (230 << 8);
    b.info[3].unicode_props = 12 | (220 << 8);
    b.info[4].unicode_props = 12 | (230 << 8);
    reorder_marks(&mut b);
    let ids: Vec<u32> = b.info[..6].iter().map(|g| g.id).collect();
    assert_eq!(ids, vec!['a' as u32, 0x316, 0x301, 0x300, 0x302, 'b' as u32]);
}
