use daeshaper::buffer::Buffer;
use daeshaper::thai::{consonant_type, mark_type, pua_shaping, variant_for, Action, Consonant, Mark};

fn ids(b: &Buffer) -> Vec<u32> {
    b.info[..b.len].iter().map(|g| g.id).collect()
}

#[test]
fn marks_over_an_ascender_move_left() {
    let mut b = Buffer::new();
    b.push_str("\u{0E1B}\u{0E31}\u{0E48}");
    pua_shaping(&[0xF710, 0xF88A], &mut b);
    assert_eq!(ids(&b), vec![0x0E1B, 0xF710, 0xF88A]);
}

#[test]
fn a_below_mark_removes_a_removable_descender() {
    let mut b = Buffer::new();
    b.push_str("\u{0E0D}\u{0E38}");
    pua_shaping(&[0xF70F], &mut b);
    assert_eq!(ids(&b), vec![0xF70F, 0x0E38]);
}

#[test]
fn without_the_variants_nothing_changes() {
    let mut b = Buffer::new();
    b.push_str("\u{0E1B}\u{0E31}\u{0E48}");
    pua_shaping(&[], &mut b);
    assert_eq!(ids(&b), vec![0x0E1B, 0x0E31, 0x0E48]);
}

#[test]
fn thai_characters_are_classified() {
    assert_eq!(consonant_type(0x0E1B), Consonant::Ascending);
    assert_eq!(consonant_type(0x0E10), Consonant::RemovableDescender);
    assert_eq!(consonant_type(0x0E0F), Consonant::StrictDescender);
    assert_eq!(consonant_type(0x0E01), Consonant::Normal);
    assert_eq!(consonant_type(0x0041), Consonant::Other);
    assert_eq!(mark_type(0x0E31), Mark::Above);
    assert_eq!(mark_type(0x0E39), Mark::Below);
    assert_eq!(mark_type(0x0E4B), Mark::Tone);
    assert_eq!(mark_type(0x0E01), Mark::Base);
    assert_eq!(variant_for(0x0E48, Action::Down, &[0xF88B]), 0xF88B);
    assert_eq!(variant_for(0x0E48, Action::Down, &[0xF70A, 0xF88B]), 0xF70A);
    assert_eq!(variant_for(0x0E48, Action::Stay, &[0xF70A]), 0x0E48);
}
