use daeshaper::apply::{match_backtrack, match_input, match_lookahead, ApplyState, MatchKind};
use daeshaper::buffer::{Buffer, MARK};

fn state(lookup_props: u32) -> ApplyState {
    ApplyState { gpos: false, lookup_props, lookup_mask: 1, auto_zwnj: true, auto_zwj: true, per_syllable: false }
}

fn buffer_of(text: &str) -> Buffer {
    let mut b = Buffer::new();
    b.push_str(text);
    for k in 0..b.len {
        b.info[k].mask = 1;
    }
    b
}

#[test]
fn an_input_of_two_more_glyphs_matches() {
    let b = buffer_of("abc");
    let mut end = 0usize;
    let mut positions = [0u32; 64];
    let mut total = 0u8;
    let input = [b'b' as u16, b'c' as u16];
    let r = match_input(&state(0), None, &b, 2, &MatchKind::Glyph, &input, &mut end, &mut positions, &mut total);
    assert!(r);
    assert_eq!(&positions[..3], &[0, 1, 2]);
    assert_eq!(end, 3);
    assert_eq!(total, 3);
}

#[test]
fn a_glyph_that_differs_stops_the_match_where_it_stands() {
    let b = buffer_of("abcd");
    let mut end = 0usize;
    let mut positions = [0u32; 64];
    let mut total = 0u8;
    let input = [b'b' as u16, b'x' as u16];
    let r = match_input(&state(0), None, &b, 2, &MatchKind::Glyph, &input, &mut end, &mut positions, &mut total);
    assert!(!r);
    assert_eq!(end, 3);
    assert_eq!(total, 0);
}

#[test]
fn marks_the_lookup_ignores_are_passed_over() {
    let mut b = buffer_of("amc");
    b.info[1].glyph_props = MARK;
    let mut end = 0usize;
    let mut positions = [0u32; 64];
    let mut total = 0u8;
    let input = [b'c' as u16];
    let r = match_input(&state(0x0008), None, &b, 1, &MatchKind::Glyph, &input, &mut end, &mut positions, &mut total);
    assert!(r);
    assert_eq!(&positions[..2], &[0, 2]);
    assert_eq!(end, 3);
}

#[test]
fn an_input_longer_than_the_context_limit_never_matches() {
    let b = buffer_of("ab");
    let mut end = 7usize;
    let mut positions = [0u32; 64];
    let mut total = 0u8;
    let input = [0u16; 70];
    let r = match_input(&state(0), None, &b, 70, &MatchKind::Glyph, &input, &mut end, &mut positions, &mut total);
    assert!(!r);
    assert_eq!(end, 7);
}

#[test]
fn a_lookahead_matches_the_glyphs_after_the_input() {
    let b = buffer_of("abc");
    let mut end = 0usize;
    let r = match_lookahead(&state(0), None, &b, 2, &MatchKind::Glyph, &[b'b' as u16, b'c' as u16], 1, &mut end);
    assert!(r);
    assert_eq!(end, 3);
    let r2 = match_lookahead(&state(0), None, &b, 1, &MatchKind::Glyph, &[b'c' as u16], 1, &mut end);
    assert!(!r2);
    assert_eq!(end, 2);
}

#[test]
fn a_backtrack_matches_the_glyphs_before_the_current_one_nearest_first() {
    let mut b = buffer_of("abc");
    b.idx = 2;
    let mut start = 9usize;
    let r = match_backtrack(&state(0), None, &b, 2, &MatchKind::Glyph, &[b'b' as u16, b'a' as u16], &mut start);
    assert!(r);
    assert_eq!(start, 0);
    let r2 = match_backtrack(&state(0), None, &b, 1, &MatchKind::Glyph, &[b'a' as u16], &mut start);
    assert!(!r2);
    assert_eq!(start, 0);
}
