use daeshaper::bidi::{line_visual_runs, reorder_levels, resolve, visual_runs, Bracket, Class, Paragraph};
use daeshaper::itemize::script_runs;
use daeshaper::segment::{grapheme_boundaries, word_boundaries, BreakProps, GCB_CR, GCB_L, GCB_LF, GCB_REGIONAL_INDICATOR, GCB_V, WB_ALETTER, WB_WSEG_SPACE, WB_NUMERIC, WB_MID_NUM};
use daeshaper::unicode::{Script, ScriptCatalog};

fn g(grapheme: u8) -> BreakProps {
    BreakProps { grapheme, word: 0, conjunct: 0, pictographic: false }
}

fn w(word: u8) -> BreakProps {
    BreakProps { grapheme: 0, word, conjunct: 0, pictographic: false }
}

#[test]
fn crlf_holds_and_hangul_jamo_join() {
    let props = [g(GCB_CR), g(GCB_LF), g(GCB_L), g(GCB_V), g(0)];
    assert_eq!(grapheme_boundaries(&props), vec![0, 2, 4, 5]);
}

#[test]
fn regional_indicators_pair_up() {
    let props = [g(GCB_REGIONAL_INDICATOR); 5];
    assert_eq!(grapheme_boundaries(&props), vec![0, 2, 4, 5]);
}

#[test]
fn empty_text_has_one_boundary() {
    assert_eq!(grapheme_boundaries(&[]), vec![0]);
    assert_eq!(word_boundaries(&[]), vec![0]);
}

#[test]
fn words_break_at_spaces() {
    let props = [w(WB_ALETTER), w(WB_ALETTER), w(WB_WSEG_SPACE), w(WB_ALETTER)];
    assert_eq!(word_boundaries(&props), vec![0, 2, 3, 4]);
}

#[test]
fn a_separator_inside_a_number_holds() {
    let props = [w(WB_NUMERIC), w(WB_MID_NUM), w(WB_NUMERIC), w(WB_MID_NUM)];
    assert_eq!(word_boundaries(&props), vec![0, 3, 4]);
}

#[test]
fn common_characters_join_the_script_around_them() {
    let catalog = ScriptCatalog { common: 0, inherited: 1, count: 10 };
    let scripts = [Script(0), Script(5), Script(0), Script(7), Script(1)];
    let runs = script_runs(&scripts, &catalog);
    assert_eq!(runs.len(), 2);
    assert_eq!((runs[0].start, runs[0].end, runs[0].script), (0, 3, Script(5)));
    assert_eq!((runs[1].start, runs[1].end, runs[1].script), (3, 5, Script(7)));
    assert!(script_runs(&[], &catalog).is_empty());
    let all_common = script_runs(&[Script(0), Script(0)], &catalog);
    assert_eq!((all_common.len(), all_common[0].end, all_common[0].script), (1, 2, Script(0)));
}

#[test]
fn levels_reverse_from_the_highest_down() {
    assert_eq!(reorder_levels(&[0, 1, 1, 0]), vec![0, 2, 1, 3]);
    assert_eq!(reorder_levels(&[2, 2, 1, 1]), vec![3, 2, 0, 1]);
    assert_eq!(reorder_levels(&[0, 2, 2]), vec![0, 1, 2]);
    assert_eq!(reorder_levels(&[]), Vec::<usize>::new());
}

#[test]
fn a_left_to_right_paragraph_with_a_right_to_left_word() {
    let classes = [Class::L, Class::L, Class::R, Class::R];
    let p = resolve(&classes, &[Bracket::Not; 4], None);
    assert_eq!(p.base_level, 0);
    assert_eq!(p.levels, vec![0, 0, 1, 1]);
    assert_eq!(p.visual_order, vec![0, 1, 3, 2]);
    let runs = visual_runs(&p);
    let got: Vec<(Vec<usize>, u8)> = runs.iter().into_iter().map(|(r, l)| (r.to_vec(), l)).collect();
    assert_eq!(got, vec![(vec![0, 1], 0), (vec![3, 2], 1)]);
}

#[test]
fn a_right_to_left_base_lifts_left_to_right_text() {
    let classes = [Class::L, Class::L, Class::R, Class::R];
    let p = resolve(&classes, &[Bracket::Not; 4], Some(true));
    assert_eq!(p.base_level, 1);
    assert_eq!(p.levels, vec![2, 2, 1, 1]);
    assert_eq!(p.visual_order, vec![3, 2, 0, 1]);
}

#[test]
fn the_first_strong_character_sets_the_paragraph_level() {
    let p = resolve(&[Class::ON, Class::AL, Class::L], &[Bracket::Not; 3], None);
    assert_eq!(p.base_level, 1);
    let q = resolve(&[Class::RLI, Class::R, Class::PDI, Class::L], &[Bracket::Not; 4], None);
    assert_eq!(q.base_level, 0);
}

#[test]
fn numbers_after_arabic_letters_become_arabic_numbers() {
    let p = resolve(&[Class::AL, Class::EN], &[Bracket::Not; 2], None);
    assert_eq!(p.levels, vec![1, 2]);
}

#[test]
fn a_paragraph_separator_takes_the_base_level() {
    let p = resolve(&[Class::R, Class::B, Class::L], &[Bracket::Not; 3], Some(false));
    assert_eq!(p.levels[1], 0);
    assert_eq!(p.levels, vec![1, 0, 0]);
}

#[test]
fn trailing_spaces_of_a_line_go_back_to_the_base_level() {
    let classes = [Class::L, Class::WS];
    let runs = line_visual_runs(0, &[0, 1], &classes, 0, 2);
    let got: Vec<(Vec<usize>, u8)> = runs.iter().into_iter().map(|(r, l)| (r.to_vec(), l)).collect();
    assert_eq!(got, vec![(vec![0, 1], 0)]);
    let none = line_visual_runs(0, &[0, 1], &classes, 1, 1);
    assert!(none.iter().is_empty());
}

#[test]
fn runs_of_a_paragraph_use_the_base_level_out_of_range() {
    let p = Paragraph { base_level: 1, levels: vec![0], visual_order: vec![1, 0] };
    let runs = visual_runs(&p);
    let got: Vec<(Vec<usize>, u8)> = runs.iter().into_iter().map(|(r, l)| (r.to_vec(), l)).collect();
    assert_eq!(got, vec![(vec![1], 1), (vec![0], 0)]);
}

#[test]
fn a_line_with_a_trailing_space_keeps_it_at_the_paragraph_level() {
    let classes = [Class::L, Class::R, Class::R, Class::WS];
    let runs = line_visual_runs(0, &[0, 1, 1, 1], &classes, 0, 4);
    let got: Vec<(Vec<usize>, u8)> = runs.iter().into_iter().map(|(r, l)| (r.to_vec(), l)).collect();
    assert_eq!(got, vec![(vec![0], 0), (vec![2, 1], 1), (vec![3], 0)]);
}

#[test]
fn a_hebrew_word_after_latin_is_reversed() {
    let classes = [Class::L, Class::L, Class::WS, Class::R, Class::R];
    let p = resolve(&classes, &[Bracket::Not; 5], None);
    assert_eq!(p.base_level, 0);
    assert_eq!(p.levels, vec![0, 0, 0, 1, 1]);
    assert_eq!(p.visual_order, vec![0, 1, 2, 4, 3]);
    let runs = visual_runs(&p);
    let got: Vec<(Vec<usize>, u8)> = runs.iter().into_iter().map(|(r, l)| (r.to_vec(), l)).collect();
    assert_eq!(got, vec![(vec![0, 1, 2], 0), (vec![4, 3], 1)]);
}
