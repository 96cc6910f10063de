use daeshaper::buffer::Buffer;
use daeshaper::hebrew::{compose, reorder_marks};

fn marked(text: &str, classes: &[u8]) -> Buffer {
    let mut b = Buffer::new();
    b.push_str(text);
    for (k, c) in classes.iter().enumerate() {
        if *c != 0 {
            b.info[k].unicode_props = 12 | ((*c as u16) << 8);
        }
    }
    b
}

#[test]
fn meteg_moves_before_a_sheva_after_patah() {
    // alef, patah, sheva, meteg
    let mut b = marked("\u{05D0}\u{05B7}\u{05B0}\u{05BD}", &[0, 20, 22, 25]);
    let ids: Vec<u32> = b.info[..4].iter().map(|g| g.id).collect();
    reorder_marks(&mut b, 0, 4);
    assert_eq!(b.info[0].id, ids[0]);
    assert_eq!(b.info[1].id, ids[1]);
    assert_eq!(b.info[2].id, ids[3]);
    assert_eq!(b.info[3].id, ids[2]);
    assert_eq!(b.info[2].cluster, b.info[3].cluster);
}

#[test]
fn marks_in_another_order_stay() {
    let mut b = marked("\u{05D0}\u{05B0}\u{05B7}\u{05BD}", &[0, 22, 20, 25]);
    let ids: Vec<u32> = b.info[..4].iter().map(|g| g.id).collect();
    reorder_marks(&mut b, 0, 4);
    let after: Vec<u32> = b.info[..4].iter().map(|g| g.id).collect();
    assert_eq!(after, ids);
}

#[test]
fn the_shaper_composes_presentation_forms() {
    assert_eq!(compose(false, '\u{05D9}', '\u{05B4}', None), Some('\u{FB1D}'));
    assert_eq!(compose(false, '\u{05D1}', '\u{05BC}', None), Some('\u{FB31}'));
    assert_eq!(compose(false, '\u{05D7}', '\u{05BC}', None), None);
    assert_eq!(compose(false, '\u{05E9}', '\u{05C1}', None), Some('\u{FB2A}'));
    assert_eq!(compose(true, '\u{05E9}', '\u{05C1}', None), None);
    assert_eq!(compose(true, 'e', '\u{0301}', Some('\u{00E9}')), Some('\u{00E9}'));
}
