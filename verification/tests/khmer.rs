use daeshaper::buffer::Buffer;
use daeshaper::khmer::{compose, decompose, reorder_consonant_syllable};
use daeshaper::unicode::GeneralCategory;

#[test]
fn a_split_vowel_decomposes_into_its_prefix_and_itself() {
    assert_eq!(decompose('\u{17BE}', None), Some(('\u{17C1}', Some('\u{17BE}'))));
    assert_eq!(decompose('\u{17C5}', None), Some(('\u{17C1}', Some('\u{17C5}'))));
    assert_eq!(decompose('\u{00E9}', Some(('e', Some('\u{0301}')))), Some(('e', Some('\u{0301}'))));
    assert_eq!(decompose('a', None), None);
}

#[test]
fn nothing_composes_after_a_mark() {
    assert_eq!(compose(GeneralCategory::NonspacingMark, Some('x')), None);
    assert_eq!(compose(GeneralCategory::SpacingMark, Some('x')), None);
    assert_eq!(compose(GeneralCategory::OtherLetter, Some('x')), Some('x'));
    assert_eq!(compose(GeneralCategory::OtherLetter, None), None);
}

fn syllable(categories: &[u8]) -> Buffer {
    let mut b = Buffer::new();
    b.push_str("abcd");
    for k in 0..4 {
        b.info[k].mask = 0;
        b.info[k].shaper_category = categories[k];
    }
    b
}

#[test]
fn a_coeng_ro_moves_to_the_start_of_the_syllable() {
    let masks: [u32; 9] = [1 << 8, 1 << 9, 1 << 10, 1 << 11, 1 << 12, 0, 0, 0, 0];
    let mut b = syllable(&[1, 4, 15, 7]);
    reorder_consonant_syllable(&masks, 0, 4, &mut b);
    let ids: Vec<u32> = b.info[..4].iter().map(|g| g.id).collect();
    assert_eq!(ids, vec!['b' as u32, 'c' as u32, 'a' as u32, 'd' as u32]);
    let m: Vec<u32> = b.info[..4].iter().map(|g| g.mask).collect();
    assert_eq!(m, vec![3840, 3840, 0, 7680]);
    assert_eq!(b.info[0].cluster, 0);
    assert_eq!(b.info[2].cluster, 0);
}

#[test]
fn a_pre_base_vowel_moves_to_the_start_of_the_syllable() {
    let masks: [u32; 9] = [0; 9];
    let mut b = syllable(&[1, 21, 7, 7]);
    reorder_consonant_syllable(&masks, 0, 2, &mut b);
    let ids: Vec<u32> = b.info[..4].iter().map(|g| g.id).collect();
    assert_eq!(ids, vec!['b' as u32, 'a' as u32, 'c' as u32, 'd' as u32]);
}
