use daeshaper::buffer::{Buffer, Direction, HAS_GPOS_ATTACHMENT};
use daeshaper::gpos::ATTACH_CURSIVE;
use daeshaper::kern::{
    apply_pair, chain_for_cross_stream, has_cross_stream, has_machine_kerning, parse_subtable, subtables, Subtable,
};
use daeshaper::kerx;

fn kern_table(coverage: [u8; 2]) -> Vec<u8> {
    let mut t = vec![0u8, 0, 0, 1];
    t.extend_from_slice(&[0, 0, 0, 26, coverage[0], coverage[1]]);
    t.extend_from_slice(&[0, 2, 0, 12, 0, 1, 0, 0]);
    t.extend_from_slice(&[0, 5, 0, 9, 0xFF, 0xCE]);
    t.extend_from_slice(&[0, 7, 0, 3, 0, 40]);
    t
}

#[test]
fn a_truetype_kern_table_is_read() {
    let t = kern_table([0x00, 0x01]);
    assert_eq!(subtables(&t), Some((4, 1, false)));
    let (sub, next) = parse_subtable(&t, 4, false).unwrap();
    assert_eq!(next, 30);
    assert_eq!((sub.body, sub.format, sub.horizontal, sub.cross_stream), (6, 0, true, false));
    assert_eq!(sub.data.len(), 26);
    assert_eq!(sub.kerning(5, 9), -50);
    assert_eq!(sub.kerning(7, 3), 40);
    assert_eq!(sub.kerning(5, 3), 0);
    assert!(!has_cross_stream(&t));
    assert!(!has_machine_kerning(&t));
}

#[test]
fn kern_flags_pick_out_subtables() {
    assert!(has_cross_stream(&kern_table([0x00, 0x05])));
    assert!(has_machine_kerning(&kern_table([0x01, 0x01])));
    let minimum = kern_table([0x00, 0x03]);
    let (sub, next) = parse_subtable(&minimum, 4, false).unwrap();
    assert_eq!((sub.format, sub.data.len(), next), (0xFF, 0, 30));
    assert!(!has_cross_stream(&kern_table([0x00, 0x07])));
}

#[test]
fn broken_kern_tables_are_refused() {
    assert_eq!(subtables(&[0u8, 2, 0, 0]), None);
    assert_eq!(subtables(&[0u8]), None);
    assert_eq!(subtables(&[0u8, 1, 0, 0, 0, 0, 0, 3]), Some((8, 3, true)));
    let t = kern_table([0x00, 0x01]);
    assert!(parse_subtable(&t[..20], 4, false).is_none());
    assert!(parse_subtable(&t, 40, false).is_none());
}

#[test]
fn an_apple_subtable_header_is_read() {
    let mut t = vec![0u8, 1, 0, 0, 0, 0, 0, 1];
    t.extend_from_slice(&[0, 0, 0, 10, 0x40, 0x02, 0, 0, 0, 0]);
    let (sub, next) = parse_subtable(&t, 8, true).unwrap();
    assert_eq!((sub.body, sub.format, sub.horizontal, sub.cross_stream, next), (8, 2, true, true, 18));
    assert!(has_cross_stream(&t));
}

#[test]
fn format_two_kerns_through_classes() {
    let d = [0u8, 0, 0, 8, 0, 14, 0, 20, 0, 10, 0, 1, 0, 20, 0, 30, 0, 1, 0, 2, 0, 5, 0xFF, 0xF6];
    let sub = Subtable { data: &d, body: 0, format: 2, horizontal: true, cross_stream: false };
    assert_eq!(sub.kerning(10, 30), -10);
    assert_eq!(sub.kerning(10, 31), 5);
    assert_eq!(sub.kerning(11, 30), 0);
    let other = Subtable { data: &d, body: 0, format: 3, horizontal: true, cross_stream: false };
    assert_eq!(other.kerning(10, 30), 0);
}

fn two_glyphs() -> Buffer {
    let mut b = Buffer::new();
    b.push_str("ab");
    b.clear_positions();
    b.direction = Direction::LeftToRight;
    b.pos[0].x_advance = 500;
    b.pos[1].x_advance = 400;
    b
}

#[test]
fn a_pair_kern_is_split_between_the_glyphs() {
    let mut b = two_glyphs();
    apply_pair(&mut b, 0, 1, -7, true, false);
    assert_eq!(b.pos[0].x_advance, 496);
    assert_eq!(b.pos[1].x_advance, 397);
    assert_eq!(b.pos[1].x_offset, -3);
    assert_eq!(b.scratch_flags & HAS_GPOS_ATTACHMENT, 0);
    let mut v = two_glyphs();
    apply_pair(&mut v, 0, 1, 9, false, false);
    assert_eq!((v.pos[0].y_advance, v.pos[1].y_advance, v.pos[1].y_offset), (4, 5, 5));
}

#[test]
fn a_cross_stream_kern_sets_the_offset() {
    let mut b = two_glyphs();
    apply_pair(&mut b, 0, 1, 30, true, true);
    assert_eq!(b.pos[1].y_offset, 30);
    assert_eq!(b.pos[1].x_advance, 400);
    assert_ne!(b.scratch_flags & HAS_GPOS_ATTACHMENT, 0);
    chain_for_cross_stream(&mut b);
    assert_eq!((b.pos[0].attach_type, b.pos[0].attach_chain), (ATTACH_CURSIVE, -1));
    assert_eq!((b.pos[1].attach_type, b.pos[1].attach_chain), (ATTACH_CURSIVE, -1));
    b.direction = Direction::RightToLeft;
    chain_for_cross_stream(&mut b);
    assert_eq!(b.pos[1].attach_chain, 1);
}

fn kerx_table(coverage: [u8; 4]) -> Vec<u8> {
    let mut t = vec![0u8, 2, 0, 0, 0, 0, 0, 1];
    t.extend_from_slice(&[0, 0, 0, 40]);
    t.extend_from_slice(&coverage);
    t.extend_from_slice(&[0, 0, 0, 0]);
    t.extend_from_slice(&[0, 0, 0, 2, 0, 0, 0, 12, 0, 0, 0, 1, 0, 0, 0, 0]);
    t.extend_from_slice(&[0, 5, 0, 9, 0xFF, 0xCE]);
    t.extend_from_slice(&[0, 7, 0, 3, 0, 40]);
    t
}

#[test]
fn a_kerx_table_is_read() {
    let t = kerx_table([0, 0, 0, 0]);
    assert_eq!(kerx::subtables(&t), Some((8, 1)));
    assert!(kerx::is_usable(&t));
    let (sub, next) = kerx::parse_subtable(&t, 8).unwrap();
    assert_eq!(next, 48);
    assert!(sub.readable());
    assert_eq!(sub.format0(5, 9), -50);
    assert_eq!(sub.format0(7, 3), 40);
    assert_eq!(sub.format0(7, 4), 0);
    let cut = kerx::Subtable { data: &sub.data[..34], ..sub };
    assert_eq!(cut.format0(7, 3), 0);
    assert_eq!(cut.format0(5, 9), -50);
}

#[test]
fn unusable_kerx_tables_are_told_apart() {
    assert!(!kerx::is_usable(&kerx_table([0x20, 0, 0, 0])));
    assert!(!kerx::is_usable(&kerx_table([0, 0, 0, 3])));
    assert!(kerx::is_usable(&kerx_table([0, 0, 0, 4])));
    let vertical = kerx_table([0xC0, 0, 0, 6]);
    let (sub, _) = kerx::parse_subtable(&vertical, 8).unwrap();
    assert!(sub.vertical && sub.cross_stream && !sub.backwards && sub.format == 6);
    assert_eq!(kerx::subtables(&[0u8, 4, 0, 0, 0, 0, 0, 1]), None);
    let mut short = kerx_table([0, 0, 0, 0]);
    short[11] = 4;
    assert!(kerx::parse_subtable(&short, 8).is_none());
}
