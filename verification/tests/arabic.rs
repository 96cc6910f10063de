use daeshaper::arabic::{
    arabic_joining, mongolian_variation_selectors, stretch_action, table_entry, FINA, INIT, ISOL, MEDI, NONE,
    STRETCHING_FIXED, STRETCHING_REPEATING,
};
use daeshaper::buffer::{Buffer, MULTIPLIED};
use daeshaper::unicode::JoiningType;

fn forms(text: &str, types: &[JoiningType], pre: &[JoiningType], post: &[JoiningType]) -> Vec<u8> {
    let mut b = Buffer::new();
    b.push_str(text);
    arabic_joining(&mut b, types, pre, post);
    b.info[..b.len].iter().map(|g| g.shaper_auxiliary).collect()
}

#[test]
fn dual_joining_letters_take_initial_medial_and_final_forms() {
    let d = JoiningType::DualJoining;
    assert_eq!(forms("\u{628}\u{62A}\u{628}", &[d, d, d], &[], &[]), vec![INIT, MEDI, FINA]);
    assert_eq!(forms("\u{628}", &[d], &[], &[]), vec![ISOL]);
}

#[test]
fn transparent_marks_are_passed_over() {
    let d = JoiningType::DualJoining;
    let t = JoiningType::Transparent;
    assert_eq!(forms("\u{628}\u{64E}\u{628}", &[d, t, d], &[], &[]), vec![INIT, NONE, FINA]);
}

#[test]
fn the_context_joins_too() {
    let d = JoiningType::DualJoining;
    assert_eq!(forms("\u{628}", &[d], &[], &[d]), vec![INIT]);
    assert_eq!(forms("\u{628}", &[d], &[d], &[]), vec![FINA]);
    assert_eq!(forms("\u{628}", &[d], &[JoiningType::Transparent, d], &[JoiningType::Transparent, d]), vec![MEDI]);
}

#[test]
fn right_joining_letters_do_not_join_forward() {
    let r = JoiningType::RightJoining;
    let d = JoiningType::DualJoining;
    assert_eq!(forms("\u{627}\u{628}", &[r, d], &[], &[]), vec![ISOL, ISOL]);
    assert_eq!(forms("\u{628}\u{627}", &[d, r], &[], &[]), vec![INIT, FINA]);
    assert_eq!(table_entry(2, JoiningType::DualJoining), (INIT, FINA, 3));
    assert_eq!(table_entry(0, JoiningType::NonJoining), (NONE, NONE, 0));
}

#[test]
fn mongolian_selectors_follow_the_letter_before() {
    let mut b = Buffer::new();
    b.push_str("\u{1820}\u{180B}\u{180C}a");
    b.info[0].shaper_auxiliary = MEDI;
    b.info[1].shaper_auxiliary = NONE;
    b.info[2].shaper_auxiliary = NONE;
    b.info[3].shaper_auxiliary = ISOL;
    mongolian_variation_selectors(&mut b);
    assert_eq!(b.info[1].shaper_auxiliary, MEDI);
    assert_eq!(b.info[2].shaper_auxiliary, MEDI);
    assert_eq!(b.info[3].shaper_auxiliary, ISOL);
}

#[test]
fn multiplied_glyphs_stretch() {
    let mut b = Buffer::new();
    b.push_str("a");
    let mut g = b.info[0];
    assert_eq!(stretch_action(&g), None);
    g.glyph_props |= MULTIPLIED;
    g.lig_props = 1;
    assert_eq!(stretch_action(&g), Some(STRETCHING_REPEATING));
    g.lig_props = 2;
    assert_eq!(stretch_action(&g), Some(STRETCHING_FIXED));
}
