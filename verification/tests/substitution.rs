use daeshaper::gsub::{
    coverage_indexed_offset, is_reverse, resolved_kind, would_apply, WouldApplyContext, ALTERNATE, CHAIN_CONTEXT,
    CONTEXT, EXTENSION, LIGATURE, REVERSE_CHAIN_SINGLE, SINGLE,
};
use daeshaper::layout::LayoutTable;
use daeshaper::ot::Coverage;

/// A table with only a lookup list, one lookup per entry, each with the
/// given type and its one subtable.
fn table(lookups: &[(u16, Vec<u8>)]) -> Vec<u8> {
    let mut d: Vec<u8> = vec![0, 1, 0, 0, 0, 0, 0, 0, 0, 10];
    let n = lookups.len();
    d.extend_from_slice(&(n as u16).to_be_bytes());
    let mut rel = 2 + 2 * n;
    for (_, sub) in lookups {
        d.extend_from_slice(&(rel as u16).to_be_bytes());
        rel += 8 + sub.len();
    }
    for (kind, sub) in lookups {
        d.extend_from_slice(&kind.to_be_bytes());
        d.extend_from_slice(&[0, 0, 0, 1, 0, 8]);
        d.extend_from_slice(sub);
    }
    d
}

fn single() -> Vec<u8> {
    vec![0, 1, 0, 6, 0, 1, 0, 1, 0, 1, 0, 10]
}

fn ligature() -> Vec<u8> {
    let mut s = vec![0, 1, 0, 8, 0, 1, 0, 14];
    s.extend_from_slice(&[0, 1, 0, 1, 0, 10]);
    s.extend_from_slice(&[0, 1, 0, 4]);
    s.extend_from_slice(&[0, 50, 0, 3, 0, 11, 0, 12]);
    s
}

fn extension_to_reverse() -> Vec<u8> {
    let mut s = vec![0, 1, 0, 8, 0, 0, 0, 8];
    s.extend_from_slice(&[0, 1, 0, 4, 0, 1, 0, 1, 0, 20]);
    s
}

fn context_format1() -> Vec<u8> {
    let mut s = vec![0, 1, 0, 8, 0, 1, 0, 14];
    s.extend_from_slice(&[0, 1, 0, 1, 0, 10]);
    s.extend_from_slice(&[0, 1, 0, 4]);
    s.extend_from_slice(&[0, 2, 0, 0, 0, 11]);
    s
}

fn context_format2() -> Vec<u8> {
    let mut s = vec![0, 2, 0, 12, 0, 18, 0, 2, 0, 0, 0, 28];
    s.extend_from_slice(&[0, 1, 0, 1, 0, 10]);
    s.extend_from_slice(&[0, 1, 0, 10, 0, 2, 0, 1, 0, 1]);
    s.extend_from_slice(&[0, 1, 0, 4]);
    s.extend_from_slice(&[0, 2, 0, 0, 0, 1]);
    s
}

fn context_format3() -> Vec<u8> {
    let mut s = vec![0, 3, 0, 2, 0, 0, 0, 10, 0, 16];
    s.extend_from_slice(&[0, 1, 0, 1, 0, 10]);
    s.extend_from_slice(&[0, 1, 0, 1, 0, 11]);
    s
}

fn chain_format1() -> Vec<u8> {
    let mut s = vec![0, 1, 0, 8, 0, 1, 0, 14];
    s.extend_from_slice(&[0, 1, 0, 1, 0, 10]);
    s.extend_from_slice(&[0, 1, 0, 4]);
    s.extend_from_slice(&[0, 0, 0, 2, 0, 11, 0, 1, 0, 99, 0, 0]);
    s
}

fn chain_format3() -> Vec<u8> {
    let mut s = vec![0, 3, 0, 1, 0, 14, 0, 1, 0, 14, 0, 0, 0, 0];
    s.extend_from_slice(&[0, 1, 0, 1, 0, 10]);
    s
}

fn all() -> Vec<u8> {
    table(&[
        (SINGLE, single()),
        (LIGATURE, ligature()),
        (EXTENSION, extension_to_reverse()),
        (CONTEXT, context_format1()),
        (CONTEXT, context_format2()),
        (CONTEXT, context_format3()),
        (CHAIN_CONTEXT, chain_format1()),
        (CHAIN_CONTEXT, chain_format3()),
        (ALTERNATE, single()),
        (9, single()),
    ])
}

fn applies(d: &[u8], index: u16, glyphs: &[u16], zero_context: bool) -> bool {
    let t = LayoutTable::parse(d).unwrap();
    would_apply(&WouldApplyContext { glyphs, zero_context }, &t, index)
}

#[test]
fn single_substitutions_apply_to_one_covered_glyph() {
    let d = all();
    assert!(applies(&d, 0, &[10], false));
    assert!(!applies(&d, 0, &[11], false));
    assert!(!applies(&d, 0, &[10, 10], false));
    assert!(!applies(&d, 0, &[], false));
    assert!(applies(&d, 8, &[10], true));
    assert!(!applies(&d, 9, &[10], false));
    assert!(!applies(&d, 10, &[10], false));
}

#[test]
fn a_ligature_applies_to_exactly_its_components() {
    let d = all();
    assert!(applies(&d, 1, &[10, 11, 12], false));
    assert!(!applies(&d, 1, &[10, 11], false));
    assert!(!applies(&d, 1, &[10, 12, 11], false));
    assert!(!applies(&d, 1, &[11, 11, 12], false));
}

#[test]
fn extensions_resolve_to_the_type_they_wrap() {
    let d = all();
    assert!(applies(&d, 2, &[20], false));
    assert!(!applies(&d, 2, &[10], false));
    let t = LayoutTable::parse(&d).unwrap();
    let ext = t.lookup(2).unwrap();
    assert_eq!(ext.kind, EXTENSION);
    assert_eq!(resolved_kind(&ext), REVERSE_CHAIN_SINGLE);
    assert!(is_reverse(&ext));
    let plain = t.lookup(0).unwrap();
    assert_eq!(resolved_kind(&plain), SINGLE);
    assert!(!is_reverse(&plain));
}

#[test]
fn context_rules_match_glyphs_classes_and_coverages() {
    let d = all();
    assert!(applies(&d, 3, &[10, 11], false));
    assert!(!applies(&d, 3, &[10, 12], false));
    assert!(!applies(&d, 3, &[10], false));
    assert!(applies(&d, 4, &[10, 11], false));
    assert!(!applies(&d, 4, &[10, 12], false));
    assert!(applies(&d, 5, &[10, 11], false));
    assert!(!applies(&d, 5, &[11, 10], false));
    assert!(!applies(&d, 5, &[10, 11, 11], false));
}

#[test]
fn a_zero_context_rules_out_backtrack_and_lookahead() {
    let d = all();
    assert!(applies(&d, 6, &[10, 11], false));
    assert!(!applies(&d, 6, &[10, 11], true));
    assert!(!applies(&d, 6, &[10, 12], false));
    assert!(applies(&d, 7, &[10], false));
    assert!(!applies(&d, 7, &[10], true));
    assert!(!applies(&d, 7, &[11], false));
}

#[test]
fn a_covered_glyph_finds_its_set() {
    let lig = ligature();
    let cov_bytes = [0u8, 1, 0, 1, 0, 10];
    let c = Coverage::new(&cov_bytes).unwrap();
    assert_eq!(coverage_indexed_offset(&c, &lig, 10), Some(&lig[14..]));
    assert_eq!(coverage_indexed_offset(&c, &lig, 11), None);
}
