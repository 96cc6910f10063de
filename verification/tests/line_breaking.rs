use daeshaper::linebreak::{
    line_break_opportunities, LineBreak, LineProps, LB_AL, LB_BK, LB_CL, LB_CM, LB_CR, LB_HY, LB_ID, LB_LF, LB_NU,
    LB_OP, LB_PR, LB_QU, LB_RI, LB_SA, LB_SP, LB_ZW, LB_ZWJ,
};
use daeshaper::unicode::GeneralCategory;

fn p(ch: char, line_break: u8) -> LineProps {
    LineProps { ch, line_break, east_asian_width: 0, category: GeneralCategory::OtherLetter, pictographic: false }
}

fn breaks(props: &[LineProps]) -> Vec<(usize, bool)> {
    line_break_opportunities(props).iter().map(|b: &LineBreak| (b.at, b.mandatory)).collect()
}

#[test]
fn an_empty_text_has_no_breaks() {
    assert_eq!(breaks(&[]), vec![]);
}

#[test]
fn a_break_follows_a_space_and_ends_the_text() {
    let t = [p('a', LB_AL), p(' ', LB_SP), p('b', LB_AL)];
    assert_eq!(breaks(&t), vec![(2, false), (3, true)]);
    let word = [p('a', LB_AL), p('b', LB_AL)];
    assert_eq!(breaks(&word), vec![(2, true)]);
}

#[test]
fn hard_breaks_are_mandatory_and_crlf_is_one() {
    let t = [p('a', LB_AL), p('\n', LB_LF), p('b', LB_AL)];
    assert_eq!(breaks(&t), vec![(2, true), (3, true)]);
    let crlf = [p('\r', LB_CR), p('\n', LB_LF), p('b', LB_AL)];
    assert_eq!(breaks(&crlf), vec![(2, true), (3, true)]);
    let bk = [p('a', LB_AL), p('\u{2028}', LB_BK), p('b', LB_AL)];
    assert_eq!(breaks(&bk), vec![(2, true), (3, true)]);
}

#[test]
fn marks_go_with_their_base() {
    let t = [p('a', LB_AL), p('\u{301}', LB_CM), p(' ', LB_SP), p('b', LB_AL)];
    assert_eq!(breaks(&t), vec![(3, false), (4, true)]);
    let zwj = [p('a', LB_AL), p('\u{200D}', LB_ZWJ), p('\u{4E00}', LB_ID)];
    assert_eq!(breaks(&zwj), vec![(3, true)]);
    let after_space = [p(' ', LB_SP), p('\u{301}', LB_CM), p('b', LB_AL)];
    assert_eq!(breaks(&after_space), vec![(1, false), (3, true)]);
}

#[test]
fn ideographs_break_between_each_other() {
    let t = [p('\u{4E00}', LB_ID), p('\u{4E01}', LB_ID), p('\u{4E02}', LB_ID)];
    assert_eq!(breaks(&t), vec![(1, false), (2, false), (3, true)]);
}

#[test]
fn numbers_keep_their_prefix() {
    let t = [p('$', LB_PR), p('1', LB_NU), p('2', LB_NU)];
    assert_eq!(breaks(&t), vec![(3, true)]);
    let minus = [p('-', LB_HY), p('1', LB_NU)];
    assert_eq!(breaks(&minus), vec![(2, true)]);
}

#[test]
fn flags_pair_up() {
    let t = [p('\u{1F1E6}', LB_RI), p('\u{1F1E7}', LB_RI), p('\u{1F1E8}', LB_RI), p('\u{1F1E9}', LB_RI)];
    assert_eq!(breaks(&t), vec![(2, false), (4, true)]);
}

#[test]
fn spaces_after_zero_width_space_and_openers() {
    let zw = [p('\u{200B}', LB_ZW), p(' ', LB_SP), p('b', LB_AL)];
    assert_eq!(breaks(&zw), vec![(2, false), (3, true)]);
    let open = [p('(', LB_OP), p(' ', LB_SP), p('b', LB_AL)];
    assert_eq!(breaks(&open), vec![(3, true)]);
    let close = [p('a', LB_AL), p(')', LB_CL)];
    assert_eq!(breaks(&close), vec![(2, true)]);
}

#[test]
fn quotation_marks_bind_outside_east_asian_text() {
    let t = [p('a', LB_AL), p('"', LB_QU), p('\u{4E00}', LB_ID)];
    assert_eq!(breaks(&t), vec![(3, true)]);
}

#[test]
fn south_east_asian_letters_and_marks() {
    let mut mark = p('\u{E31}', LB_SA);
    mark.category = GeneralCategory::NonspacingMark;
    let t = [p('\u{E01}', LB_SA), mark, p('\u{E02}', LB_SA)];
    assert_eq!(breaks(&t), vec![(3, true)]);
}
