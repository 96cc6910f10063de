use daeshaper::buffer::{Buffer, SUBSTITUTED};
use daeshaper::map::{MapBuilder, FF_HAS_FALLBACK};
use daeshaper::tag::Tag;
use daeshaper::universal::{
    clear_substitution_flags, clear_syllables, move_pre_base_vowels_back, move_repha_forward, next_syllable,
    record_pref, record_rphf, setup_rphf_mask, CAT_B, CAT_H, CAT_R, CAT_V_PRE,
};

fn buffer(text: &str, categories: &[u8], syllables: &[u8]) -> Buffer {
    let mut b = Buffer::new();
    b.push_str(text);
    for i in 0..b.len {
        b.info[i].shaper_category = categories[i];
        b.info[i].syllable = syllables[i];
    }
    b
}

fn ids(b: &Buffer) -> Vec<u32> {
    b.info[..b.len].iter().map(|g| g.id).collect()
}

fn clusters(b: &Buffer) -> Vec<u32> {
    b.info[..b.len].iter().map(|g| g.cluster).collect()
}

#[test]
fn syllables_run_while_the_number_stays() {
    let b = buffer("abcde", &[CAT_B; 5], &[1, 1, 2, 2, 2]);
    assert_eq!(next_syllable(&b, 0), 2);
    assert_eq!(next_syllable(&b, 2), 5);
    assert_eq!(next_syllable(&b, 3), 5);
    assert_eq!(next_syllable(&b, 5), 5);
    assert_eq!(next_syllable(&b, 9), 9);
}

#[test]
fn clearing_forgets_syllables_and_substitutions() {
    let mut b = buffer("abc", &[CAT_B; 3], &[1, 2, 3]);
    b.info[1].glyph_props |= SUBSTITUTED;
    assert!(!clear_syllables(&mut b));
    assert!(b.info[..3].iter().all(|g| g.syllable == 0));
    assert!(!clear_substitution_flags(&mut b));
    assert_eq!(b.info[1].glyph_props & SUBSTITUTED, 0);
}

#[test]
fn the_first_substituted_glyph_of_a_syllable_becomes_a_pre_base_vowel() {
    let mut b = buffer("abcde", &[CAT_B; 5], &[1, 1, 1, 2, 2]);
    b.info[1].glyph_props |= SUBSTITUTED;
    b.info[2].glyph_props |= SUBSTITUTED;
    assert!(!record_pref(&mut b));
    let cats: Vec<u8> = b.info[..5].iter().map(|g| g.shaper_category).collect();
    assert_eq!(cats, vec![CAT_B, CAT_V_PRE, CAT_B, CAT_B, CAT_B]);
}

#[test]
fn a_repha_moves_before_the_halant_after_the_base() {
    let mut b = buffer("rbhc", &[CAT_R, CAT_B, CAT_H, CAT_B], &[1, 1, 1, 1]);
    move_repha_forward(&mut b, 0, 4);
    assert_eq!(ids(&b), vec!['b' as u32, 'r' as u32, 'h' as u32, 'c' as u32]);
    assert_eq!(clusters(&b), vec![0, 0, 2, 3]);
}

#[test]
fn a_repha_without_post_base_glyphs_moves_to_the_end() {
    let mut b = buffer("rbc", &[CAT_R, CAT_B, CAT_B], &[1, 1, 1]);
    move_repha_forward(&mut b, 0, 3);
    assert_eq!(ids(&b), vec!['b' as u32, 'c' as u32, 'r' as u32]);
    assert_eq!(clusters(&b), vec![0, 0, 0]);
    let mut single = buffer("rb", &[CAT_R, CAT_B], &[1, 2]);
    move_repha_forward(&mut single, 0, 1);
    assert_eq!(ids(&single), vec!['r' as u32, 'b' as u32]);
    let mut plain = buffer("ab", &[CAT_B, CAT_B], &[1, 1]);
    move_repha_forward(&mut plain, 0, 2);
    assert_eq!(ids(&plain), vec!['a' as u32, 'b' as u32]);
}

#[test]
fn pre_base_vowels_move_back_to_after_the_last_halant() {
    let mut b = buffer("bhcv", &[CAT_B, CAT_H, CAT_B, CAT_V_PRE], &[1, 1, 1, 1]);
    move_pre_base_vowels_back(&mut b, 0, 4);
    assert_eq!(ids(&b), vec!['b' as u32, 'h' as u32, 'v' as u32, 'c' as u32]);
    assert_eq!(clusters(&b), vec![0, 1, 2, 2]);
    let mut no_halant = buffer("bcv", &[CAT_B, CAT_B, CAT_V_PRE], &[1, 1, 1]);
    move_pre_base_vowels_back(&mut no_halant, 0, 3);
    assert_eq!(ids(&no_halant), vec!['v' as u32, 'b' as u32, 'c' as u32]);
    assert_eq!(clusters(&no_halant), vec![0, 0, 0]);
}

#[test]
fn repha_masks_and_repha_recording_follow_the_map() {
    let empty = MapBuilder::new(None, None, &[], &[]).compile();
    let mut untouched = buffer("rbc", &[CAT_R, CAT_B, CAT_B], &[1, 1, 1]);
    let before: Vec<u32> = untouched.info[..3].iter().map(|g| g.mask).collect();
    setup_rphf_mask(&empty, &mut untouched);
    let after: Vec<u32> = untouched.info[..3].iter().map(|g| g.mask).collect();
    assert_eq!(before, after);

    let rphf = Tag::from_bytes(b"rphf");
    let mut builder = MapBuilder::new(None, None, &[], &[]);
    builder.add_feature(rphf, FF_HAS_FALLBACK, 1);
    let map = builder.compile();
    let m = map.one_mask(rphf);
    assert_ne!(m, 0);
    let mut b = buffer("rbcdefg", &[CAT_R, CAT_B, CAT_B, CAT_B, CAT_B, CAT_B, CAT_B], &[1, 1, 1, 2, 2, 2, 2]);
    setup_rphf_mask(&map, &mut b);
    let masked: Vec<bool> = b.info[..7].iter().map(|g| g.mask & m != 0).collect();
    assert_eq!(masked, vec![true, false, false, true, true, true, false]);

    b.info[4].glyph_props |= SUBSTITUTED;
    b.info[6].glyph_props |= SUBSTITUTED;
    assert!(!record_rphf(&map, &mut b));
    let cats: Vec<u8> = b.info[..7].iter().map(|g| g.shaper_category).collect();
    assert_eq!(cats, vec![CAT_R, CAT_B, CAT_B, CAT_B, CAT_R, CAT_B, CAT_B]);
}
