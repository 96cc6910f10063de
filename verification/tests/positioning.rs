use daeshaper::buffer::{Buffer, Direction, GlyphPosition, HAS_GPOS_ATTACHMENT};
use daeshaper::apply::ApplyState;
use daeshaper::gpos::{
    anchor, cursive, DeviceDeltas, class_matrix_lookup, cursive_attach, mark_head, mark_record, offset_by, offset_slice, pair_set_lookup, position_finish_offsets,
    position_start, reverse_cursive_minor_offset, ValueRecord, ATTACH_CURSIVE, ATTACH_MARK,
};

fn vr(x_placement: i16, y_placement: i16, x_advance: i16, y_advance: i16) -> ValueRecord {
    ValueRecord {
        x_placement,
        y_placement,
        x_advance,
        y_advance,
        x_placement_device: 0,
        y_placement_device: 0,
        x_advance_device: 0,
        y_advance_device: 0,
    }
}

#[test]
fn offsets_saturate_at_the_range_of_i32() {
    let mut x: i32 = 10;
    offset_by(&mut x, -3);
    assert_eq!(x, 7);
    let mut y: i32 = i32::MAX - 1;
    offset_by(&mut y, 5);
    assert_eq!(y, i32::MAX);
    let mut z: i32 = i32::MIN + 1;
    offset_by(&mut z, -10);
    assert_eq!(z, i32::MIN);
}

#[test]
fn a_value_record_reads_only_the_fields_its_format_names() {
    let data = [0x00u8, 0x0A, 0xFF, 0xFE];
    assert_eq!(ValueRecord::parse(&data, 0, 0x0005), vr(10, 0, -2, 0));
    assert_eq!(ValueRecord::parse(&data, 0, 0x0002), vr(0, 10, 0, 0));
    // The second field lies past the end of the data and reads as zero.
    assert_eq!(ValueRecord::parse(&data, 2, 0x0005), vr(-2, 0, 0, 0));
    assert_eq!(ValueRecord::parse(&data, 0, 0), vr(0, 0, 0, 0));
}

#[test]
fn mark_records_are_read_by_index() {
    let marks = [0u8, 2, 0, 1, 0, 10, 0, 3, 0, 20];
    assert_eq!(mark_record(&marks, 0), Some((1, 10)));
    assert_eq!(mark_record(&marks, 1), Some((3, 20)));
    assert_eq!(mark_record(&marks, 2), None);
    assert_eq!(mark_record(&marks[..8], 1), None);
    assert_eq!(mark_record(&[0u8], 0), None);
}

#[test]
fn a_mark_header_needs_format_one() {
    let data = [0u8, 1, 0, 12, 0, 14, 0, 2, 0, 16, 0, 18];
    let h = mark_head(&data).unwrap();
    assert_eq!((h.mark_cov, h.other_cov, h.class_count, h.mark_array, h.other_array), (12, 14, 2, 16, 18));
    let mut other = data;
    other[1] = 2;
    assert!(mark_head(&other).is_none());
    assert!(mark_head(&data[..11]).is_none());
}

#[test]
fn offsets_are_followed_only_when_nonzero_and_in_range() {
    let data = [0u8, 4, 0, 0, 9, 8];
    assert_eq!(offset_slice(&data, 0).unwrap(), &[9u8, 8][..]);
    assert!(offset_slice(&data, 2).is_none());
    let far = [0u8, 7, 1];
    assert!(offset_slice(&far, 0).is_none());
    assert!(offset_slice(&far, 2).is_none());
}

#[test]
fn a_pair_set_is_searched_by_second_glyph() {
    // Two records with an x advance each: glyph 5 (+100) and glyph 9 (-50).
    let set = [0u8, 2, 0, 5, 0, 100, 0, 9, 0xFF, 0xCE];
    assert_eq!(pair_set_lookup(&set, 9, 0x0004, 0), Some((vr(0, 0, -50, 0), vr(0, 0, 0, 0))));
    assert_eq!(pair_set_lookup(&set, 5, 0x0004, 0), Some((vr(0, 0, 100, 0), vr(0, 0, 0, 0))));
    assert_eq!(pair_set_lookup(&set, 7, 0x0004, 0), None);
    assert_eq!(pair_set_lookup(&set, 1, 0x0004, 0), None);
    assert_eq!(pair_set_lookup(&[0u8], 5, 0x0004, 0), None);
}

#[test]
fn a_class_matrix_is_indexed_by_both_classes() {
    let mut data = vec![0u8; 16];
    // Two by two classes, one x advance each.
    data.extend_from_slice(&[0, 1, 0, 2, 0, 3, 0, 4]);
    assert_eq!(class_matrix_lookup(&data, 1, 0, 2, 2, 0x0004, 0), Some((vr(0, 0, 3, 0), vr(0, 0, 0, 0))));
    assert_eq!(class_matrix_lookup(&data, 1, 1, 2, 2, 0x0004, 0), Some((vr(0, 0, 4, 0), vr(0, 0, 0, 0))));
    assert_eq!(class_matrix_lookup(&data, 0, 1, 2, 2, 0, 0x0004), Some((vr(0, 0, 0, 0), vr(0, 0, 2, 0))));
    assert_eq!(class_matrix_lookup(&data, 2, 0, 2, 2, 0x0004, 0), None);
    assert_eq!(class_matrix_lookup(&data, 0, 2, 2, 2, 0x0004, 0), None);
    assert_eq!(class_matrix_lookup(&data[..22], 1, 1, 2, 2, 0x0004, 0), None);
}

fn at(chain: i16, kind: u8, x_offset: i32, y_offset: i32) -> GlyphPosition {
    GlyphPosition { x_advance: 0, y_advance: 0, x_offset, y_offset, attach_chain: chain, attach_type: kind }
}

#[test]
fn a_cursive_chain_is_turned_around() {
    let mut pos = vec![at(1, ATTACH_CURSIVE, 0, 10), at(1, ATTACH_CURSIVE, 0, 20), at(0, 0, 0, 30)];
    reverse_cursive_minor_offset(&mut pos, 0, Direction::LeftToRight, 5);
    assert_eq!(pos[0], at(0, ATTACH_CURSIVE, 0, 10));
    assert_eq!(pos[1], at(-1, ATTACH_CURSIVE, 0, -10));
    assert_eq!(pos[2], at(-1, ATTACH_CURSIVE, 0, -20));

    let mut short = vec![at(1, ATTACH_CURSIVE, 0, 10), at(1, ATTACH_CURSIVE, 0, 20), at(0, 0, 0, 30)];
    reverse_cursive_minor_offset(&mut short, 0, Direction::LeftToRight, 2);
    assert_eq!(short[0], at(0, ATTACH_CURSIVE, 0, 10));
    assert_eq!(short[1], at(-1, ATTACH_CURSIVE, 0, -10));
    assert_eq!(short[2], at(0, 0, 0, 30));

    let mut vertical = vec![at(1, ATTACH_CURSIVE, 7, 10), at(0, 0, 3, 20)];
    reverse_cursive_minor_offset(&mut vertical, 0, Direction::TopToBottom, 9);
    assert_eq!(vertical[1], at(-1, ATTACH_CURSIVE, -7, 20));

    let mut marks = vec![at(1, ATTACH_MARK, 0, 10), at(0, 0, 0, 20)];
    reverse_cursive_minor_offset(&mut marks, 0, Direction::LeftToRight, 9);
    assert_eq!(marks[0], at(1, ATTACH_MARK, 0, 10));
    assert_eq!(marks[1], at(0, 0, 0, 20));
}

fn attached_buffer() -> Buffer {
    let mut b = Buffer::new();
    b.push_str("ab");
    b.clear_positions();
    b.direction = Direction::LeftToRight;
    b.pos[0].x_advance = 500;
    b.pos[0].x_offset = 7;
    b.pos[1].attach_chain = -1;
    b.pos[1].attach_type = ATTACH_MARK;
    b.scratch_flags |= HAS_GPOS_ATTACHMENT;
    b
}

#[test]
fn a_mark_moves_back_over_its_base() {
    let mut b = attached_buffer();
    position_finish_offsets(&mut b);
    assert_eq!(b.pos[1].attach_chain, 0);
    assert_eq!(b.pos[1].x_offset, 7 - 500);
    assert_eq!(b.pos[0].x_advance, 500);
    assert_eq!(b.pos[0].x_offset, 7);
}

#[test]
fn without_attachments_positions_stay() {
    let mut b = attached_buffer();
    b.scratch_flags &= !HAS_GPOS_ATTACHMENT;
    position_finish_offsets(&mut b);
    assert_eq!(b.pos[1].attach_chain, -1);
    assert_eq!(b.pos[1].x_offset, 0);
}

#[test]
fn starting_clears_every_attachment() {
    let mut b = attached_buffer();
    position_start(&mut b);
    assert_eq!(b.pos[1].attach_chain, 0);
    assert_eq!(b.pos[1].attach_type, 0);
    assert_eq!(b.pos[0].x_advance, 500);
}

#[test]
fn a_cursive_join_meets_at_the_anchors() {
    let mut b = Buffer::new();
    b.push_str("ab");
    b.clear_positions();
    b.direction = Direction::LeftToRight;
    b.pos[0].x_advance = 600;
    b.pos[1].x_advance = 400;
    b.idx = 1;
    cursive_attach(&mut b, 0, (10, 5), (100, 20), false);
    assert_eq!(b.pos[0].x_advance, 100);
    assert_eq!(b.pos[1].x_advance, 390);
    assert_eq!(b.pos[1].x_offset, -10);
    assert_eq!(b.pos[1].attach_type, ATTACH_CURSIVE);
    assert_eq!(b.pos[1].attach_chain, -1);
    assert_eq!(b.pos[1].y_offset, 15);
    assert_eq!(b.pos[0].attach_chain, 0);
    assert_eq!(b.idx, 2);
    assert!(b.scratch_flags & HAS_GPOS_ATTACHMENT != 0);
}

#[test]
fn a_right_to_left_cursive_lookup_hangs_the_earlier_glyph() {
    let mut b = Buffer::new();
    b.push_str("ab");
    b.clear_positions();
    b.direction = Direction::RightToLeft;
    b.pos[0].x_advance = 600;
    b.pos[1].x_advance = 400;
    b.idx = 1;
    cursive_attach(&mut b, 0, (10, 5), (100, 20), true);
    assert_eq!(b.pos[0].x_advance, 500);
    assert_eq!(b.pos[0].x_offset, -100);
    assert_eq!(b.pos[1].x_advance, 10);
    assert_eq!(b.pos[0].attach_type, ATTACH_CURSIVE);
    assert_eq!(b.pos[0].attach_chain, 1);
    assert_eq!(b.pos[0].y_offset, -15);
    assert_eq!(b.pos[1].attach_chain, 0);
}

#[test]
fn a_mark_on_a_mark_takes_both_offsets() {
    let mut b = Buffer::new();
    b.push_str("abc");
    b.clear_positions();
    b.direction = Direction::LeftToRight;
    b.pos[0].x_advance = 500;
    b.pos[0].x_offset = 7;
    b.pos[1].attach_chain = -1;
    b.pos[1].attach_type = ATTACH_MARK;
    b.pos[1].x_offset = 3;
    b.pos[2].attach_chain = -1;
    b.pos[2].attach_type = ATTACH_MARK;
    b.scratch_flags |= HAS_GPOS_ATTACHMENT;
    position_finish_offsets(&mut b);
    assert_eq!(b.pos[1].x_offset, 3 + 7 - 500);
    assert_eq!(b.pos[2].x_offset, 3 + 7 - 500);
    assert_eq!(b.pos[2].attach_chain, 0);
}

fn cursive_table(entry_b: &[u8], exit_a: u16) -> Vec<u8> {
    // Format 1, coverage at 14, two records: 'a' (exit only), 'b' (entry only).
    let mut t: Vec<u8> = vec![0, 1, 0, 14, 0, 2];
    t.extend_from_slice(&[0, 0]);
    t.extend_from_slice(&exit_a.to_be_bytes());
    t.extend_from_slice(&[0, 22, 0, 0]);
    t.extend_from_slice(&[0, 1, 0, 2, 0, 97, 0, 98]);
    t.extend_from_slice(entry_b);
    t.extend_from_slice(&[0, 1, 0, 100, 0, 20]);
    t
}

fn gpos_state(lookup_props: u32) -> ApplyState {
    ApplyState { gpos: true, lookup_props, lookup_mask: 1, auto_zwnj: true, auto_zwj: true, per_syllable: false }
}

fn two_glyphs() -> Buffer {
    let mut b = Buffer::new();
    b.push_str("ab");
    b.clear_positions();
    b.direction = Direction::LeftToRight;
    for k in 0..b.len {
        b.info[k].mask = 1;
    }
    b.pos[0].x_advance = 600;
    b.pos[1].x_advance = 400;
    b.idx = 1;
    b
}

#[test]
fn a_cursive_subtable_joins_the_glyph_to_the_one_before() {
    let data = cursive_table(&[0, 1, 0, 10, 0, 5], 28);
    let mut b = two_glyphs();
    let none = DeviceDeltas { active: false, deltas: Vec::new() };
    assert!(cursive(&gpos_state(0), None, &none, &mut b, &data));
    assert_eq!(b.pos[0].x_advance, 100);
    assert_eq!(b.pos[1].x_advance, 390);
    assert_eq!(b.pos[1].x_offset, -10);
    assert_eq!(b.pos[1].attach_type, ATTACH_CURSIVE);
    assert_eq!(b.pos[1].attach_chain, -1);
    assert_eq!(b.pos[1].y_offset, 15);
    assert_eq!(b.idx, 2);
}

#[test]
fn a_cursive_subtable_without_an_exit_anchor_only_marks_the_pair() {
    let data = cursive_table(&[0, 1, 0, 10, 0, 5], 0);
    let mut b = two_glyphs();
    let none = DeviceDeltas { active: false, deltas: Vec::new() };
    assert!(!cursive(&gpos_state(0), None, &none, &mut b, &data));
    assert_eq!(b.pos[0].x_advance, 600);
    assert_eq!(b.pos[1].x_advance, 400);
    assert_eq!(b.idx, 1);
}

#[test]
fn an_uncovered_glyph_is_left_alone() {
    let data = cursive_table(&[0, 1, 0, 10, 0, 5], 28);
    let mut b = two_glyphs();
    b.info[1].id = 120;
    let none = DeviceDeltas { active: false, deltas: Vec::new() };
    assert!(!cursive(&gpos_state(0), None, &none, &mut b, &data));
    assert_eq!(b.pos[1].x_advance, 400);
    assert_eq!(b.idx, 1);
}

#[test]
fn a_format_three_anchor_takes_its_variation_delta() {
    // x 10, y 5, x device at +10 (variation index 1/2), no y device.
    let a: [u8; 16] = [0, 3, 0, 10, 0, 5, 0, 10, 0, 0, 0, 1, 0, 2, 0x80, 0];
    let varied = DeviceDeltas { active: true, deltas: vec![(1, 2, 7)] };
    assert_eq!(anchor(&varied, &a, 0), None);
    let mut owner = vec![0u8, 0];
    owner.extend_from_slice(&a);
    assert_eq!(anchor(&varied, &owner, 2), Some((17, 5)));
    let still = DeviceDeltas { active: false, deltas: vec![(1, 2, 7)] };
    assert_eq!(anchor(&still, &owner, 2), Some((10, 5)));
    let negative: [u8; 6] = [0, 1, 0xFF, 0xF6, 0x80, 0];
    let mut o2 = vec![0u8, 0];
    o2.extend_from_slice(&negative);
    assert_eq!(anchor(&still, &o2, 2), Some((-10, -32768)));
}
