use daeshaper::digest::Digest;
use daeshaper::layout::LayoutTable;
use daeshaper::map::{MapBuilder, TableIndex, FF_HAS_FALLBACK, FF_NONE, GLOBAL_BIT_MASK};
use daeshaper::offered::{feature_tags, language_tags, script_tags};
use daeshaper::ot::{read_u16_be, read_u32_be, resolve_extension, value_record_len, ClassDef, Coverage, Gdef};
use daeshaper::tag::Tag;

/// A GSUB table with one script (`latn`, no language systems), whose
/// default language system lists `kern` and `liga`; `liga` uses lookup 0
/// and `kern` lookup 1.
fn gsub() -> Vec<u8> {
    let mut d: Vec<u8> = Vec::new();
    // header: version 1.0, script list at 10, feature list at 32, lookup list at 58
    d.extend_from_slice(&[0, 1, 0, 0, 0, 10, 0, 32, 0, 58]);
    // script list at 10: one record, latn at +8
    d.extend_from_slice(&[0, 1, b'l', b'a', b't', b'n', 0, 8]);
    // script table at 18: default language system at +4, no others
    d.extend_from_slice(&[0, 4, 0, 0]);
    // default language system at 22: no required feature, features 1 and 0
    d.extend_from_slice(&[0, 0, 0xFF, 0xFF, 0, 2, 0, 1, 0, 0]);
    // feature list at 32: liga at +14, kern at +20
    d.extend_from_slice(&[0, 2, b'l', b'i', b'g', b'a', 0, 14, b'k', b'e', b'r', b'n', 0, 20]);
    // liga at 46: lookup 0; kern at 52: lookup 1
    d.extend_from_slice(&[0, 0, 0, 1, 0, 0]);
    d.extend_from_slice(&[0, 0, 0, 1, 0, 1]);
    // lookup list at 58: lookups at +6 and +16
    d.extend_from_slice(&[0, 2, 0, 6, 0, 16]);
    // lookup 0 at 64: type 4, no flags, one subtable at +8
    d.extend_from_slice(&[0, 4, 0, 0, 0, 1, 0, 8]);
    // its subtable at 72
    d.extend_from_slice(&[0, 1]);
    // lookup 1 at 74: type 2, no flags, no subtables
    d.extend_from_slice(&[0, 2, 0, 0, 0, 0]);
    assert_eq!(d.len(), 80);
    d
}

#[test]
fn big_endian_reads_stop_at_the_end() {
    let d = [0x12u8, 0x34, 0x56, 0x78];
    assert_eq!(read_u16_be(&d, 0), Some(0x1234));
    assert_eq!(read_u16_be(&d, 2), Some(0x5678));
    assert_eq!(read_u16_be(&d, 3), None);
    assert_eq!(read_u32_be(&d, 0), Some(0x1234_5678));
    assert_eq!(read_u32_be(&d, 1), None);
}

#[test]
fn format_one_coverage_gives_record_positions() {
    let d = [0u8, 1, 0, 3, 0, 10, 0, 20, 0, 30];
    let c = Coverage::new(&d).unwrap();
    assert_eq!(c.index_of(20), Some(1));
    assert_eq!(c.index_of(30), Some(2));
    assert_eq!(c.index_of(5), None);
    assert!(c.contains(10));
}

#[test]
fn format_two_coverage_counts_from_the_range_start() {
    let d = [0u8, 2, 0, 1, 0, 5, 0, 9, 0, 4];
    let c = Coverage::new(&d).unwrap();
    assert_eq!(c.index_of(7), Some(6));
    assert_eq!(c.index_of(10), None);
    assert!(Coverage::new(&d[..3]).is_none());
}

#[test]
fn a_digest_holds_every_covered_glyph() {
    let d = [0u8, 1, 0, 2, 0, 5, 1, 0];
    let c = Coverage::new(&d).unwrap();
    let mut digest = Digest::new();
    assert!(!digest.may_have(5));
    c.add_to_digest(&mut digest);
    assert!(digest.may_have(5));
    assert!(digest.may_have(256));
    assert!(!digest.is_full());
}

#[test]
fn a_short_coverage_fills_the_digest() {
    let d = [0u8, 1, 0, 9, 0, 5];
    let c = Coverage::new(&d).unwrap();
    let mut digest = Digest::new();
    c.add_to_digest(&mut digest);
    assert!(digest.is_full());
}

#[test]
fn class_definitions_default_to_zero() {
    let d = [0u8, 1, 0, 10, 0, 3, 0, 1, 0, 2, 0, 3];
    let c = ClassDef::new(&d).unwrap();
    assert_eq!(c.class_of(10), 1);
    assert_eq!(c.class_of(11), 2);
    assert_eq!(c.class_of(12), 3);
    assert_eq!(c.class_of(13), 0);
    assert_eq!(c.class_of(5), 0);
    let two = [0u8, 2, 0, 1, 0, 20, 0, 29, 0, 7];
    let c2 = ClassDef::new(&two).unwrap();
    assert_eq!(c2.class_of(25), 7);
    assert_eq!(c2.class_of(30), 0);
}

#[test]
fn gdef_reads_its_class_definitions() {
    let mut d: Vec<u8> = vec![0, 1, 0, 0, 0, 12, 0, 0, 0, 0, 0, 0];
    d.extend_from_slice(&[0, 1, 0, 10, 0, 2, 0, 1, 0, 3]);
    let g = Gdef::new(&d).unwrap();
    assert!(g.has_glyph_classes());
    assert_eq!(g.glyph_classes.unwrap().class_of(11), 3);
    assert!(g.mark_attach_classes.is_none());
    assert!(Gdef::new(&d[..11]).is_none());
}

#[test]
fn value_records_take_two_bytes_a_field() {
    assert_eq!(value_record_len(0), 0);
    assert_eq!(value_record_len(0x0005), 4);
    assert_eq!(value_record_len(0x00FF), 16);
    assert_eq!(value_record_len(0xFF00), 0);
}

#[test]
fn extensions_resolve_to_the_wrapped_subtable() {
    let ext = [0u8, 1, 0, 4, 0, 0, 0, 8, 0xAA, 0xBB];
    let (kind, t) = resolve_extension(&ext, 7, 7).unwrap();
    assert_eq!(kind, 4);
    assert_eq!(t, &[0xAA, 0xBB]);
    assert_eq!(resolve_extension(&ext, 4, 7), Some((4, &ext[..])));
    let nested = [0u8, 1, 0, 7, 0, 0, 0, 8];
    assert_eq!(resolve_extension(&nested, 7, 7), None);
}

#[test]
fn the_header_gives_the_three_lists() {
    let d = gsub();
    let t = LayoutTable::parse(&d).unwrap();
    assert_eq!((t.script_list, t.feature_list, t.lookup_list), (10, 32, 58));
    assert_eq!(t.lookup_count(), 2);
    let l = t.lookup(0).unwrap();
    assert_eq!((l.kind, l.flags, l.subtable_count), (4, 0, 1));
    assert_eq!(l.subtable(0), Some(&d[72..]));
    assert!(t.lookup(2).is_none());
    assert!(LayoutTable::parse(&d[..9]).is_none());
}

#[test]
fn script_and_feature_selection() {
    let d = gsub();
    let t = LayoutTable::parse(&d).unwrap();
    let latn = Tag::from_bytes(b"latn");
    assert_eq!(t.select_script(&[Tag::from_bytes(b"cyrl"), latn]), Some((true, 0, latn)));
    assert_eq!(t.select_script(&[]), Some((false, 0, latn)));
    assert_eq!(t.select_langsys(0, &[Tag::from_bytes(b"TRK ")]), None);
    assert_eq!(t.required_feature(0, None), None);
    assert_eq!(t.feature_indices(0, None), vec![1, 0]);
    let kern = Tag::from_bytes(b"kern");
    assert_eq!(t.feature_tag(1), Some(kern));
    assert_eq!(t.find_feature(0, None, kern), Some(1));
    assert_eq!(t.find_feature_globally(Tag::from_bytes(b"liga")), Some(0));
    assert_eq!(t.find_feature_globally(Tag::from_bytes(b"smcp")), None);
    assert_eq!(t.feature_lookups(1, None), vec![1]);
}

#[test]
fn offered_tags_are_read_from_the_table() {
    let d = gsub();
    assert_eq!(script_tags(&d), vec![*b"latn"]);
    assert_eq!(language_tags(&d, b"latn"), Vec::<[u8; 4]>::new());
    assert_eq!(feature_tags(&d, None, None), vec![*b"kern", *b"liga"]);
    assert_eq!(feature_tags(&d, Some(b"latn"), None), vec![*b"kern", *b"liga"]);
    assert_eq!(feature_tags(&d, Some(b"cyrl"), None), Vec::<[u8; 4]>::new());
    assert_eq!(script_tags(&d[..5]), Vec::<[u8; 4]>::new());
}

#[test]
fn compiling_a_map_gives_bits_and_lookups() {
    let d = gsub();
    let t = LayoutTable::parse(&d).unwrap();
    let latn = Tag::from_bytes(b"latn");
    let kern = Tag::from_bytes(b"kern");
    let liga = Tag::from_bytes(b"liga");
    let mut b = MapBuilder::new(Some(&t), None, &[latn], &[]);
    assert_eq!(b.chosen_script(TableIndex::Gsub), Some(latn));
    assert_eq!(b.chosen_script(TableIndex::Gpos), None);
    b.enable_feature(liga, 0, 1);
    b.add_feature(kern, 0, 3);
    b.add_feature(kern, 0, 2);
    let m = b.compile();
    assert_eq!(m.features.len(), 2);
    assert_eq!(m.features[0].tag, kern);
    assert_eq!(m.features[1].tag, liga);
    assert_eq!(m.mask(kern), (0x30, 4));
    assert_eq!(m.one_mask(kern), 0x10);
    assert_eq!(m.mask(liga), (GLOBAL_BIT_MASK, 31));
    assert_eq!(m.feature_index(TableIndex::Gsub, kern), Some(1));
    assert_eq!(m.feature_index(TableIndex::Gpos, kern), None);
    assert_eq!(m.global_mask, GLOBAL_BIT_MASK);
    let stage = m.stage_lookups(TableIndex::Gsub, 0);
    let indices: Vec<u16> = stage.iter().map(|l| l.index).collect();
    assert_eq!(indices, vec![0, 1]);
    assert_eq!(m.stages(TableIndex::Gsub).len(), 1);
    assert_eq!(m.stage_lookups(TableIndex::Gpos, 0).len(), 0);
}

#[test]
fn overrides_switch_lookups_off_and_on() {
    let d = gsub();
    let t = LayoutTable::parse(&d).unwrap();
    let mut b = MapBuilder::new(Some(&t), None, &[Tag::from_bytes(b"latn")], &[]);
    b.enable_feature(Tag::from_bytes(b"liga"), 0, 1);
    b.override_lookup(TableIndex::Gsub, 0, false);
    b.override_lookup(TableIndex::Gsub, 1, true);
    b.override_lookup(TableIndex::Gsub, 9, true);
    let m = b.compile();
    let indices: Vec<u16> = m.stage_lookups(TableIndex::Gsub, 0).iter().map(|l| l.index).collect();
    assert_eq!(indices, vec![1]);
}

#[test]
fn a_coverage_table_spells_out_its_entries() {
    let list = [0u8, 1, 0, 3, 0, 5, 0, 9, 0, 20];
    let c = Coverage::new(&list).unwrap();
    assert_eq!(c.index_entries(), Some(vec![(5, 0), (9, 1), (20, 2)]));
    for &(g, v) in c.index_entries().unwrap().iter() {
        assert_eq!(c.index_of(g as u16), Some(v));
    }
    let unsorted = [0u8, 1, 0, 2, 0, 9, 0, 5];
    assert_eq!(Coverage::new(&unsorted).unwrap().index_entries(), None);
    let short = [0u8, 1, 0, 3, 0, 5];
    assert_eq!(Coverage::new(&short).unwrap().index_entries(), None);
    let ranges = [0u8, 2, 0, 2, 0, 10, 0, 12, 0, 0, 0, 20, 0, 20, 0, 3];
    let r = Coverage::new(&ranges).unwrap();
    assert_eq!(r.index_entries(), Some(vec![(10, 0), (11, 1), (12, 2), (20, 3)]));
    assert_eq!(r.index_of(11), Some(1));
    let backwards = [0u8, 2, 0, 1, 0, 12, 0, 10, 0, 0];
    assert_eq!(Coverage::new(&backwards).unwrap().index_entries(), None);
    let absent = [0u8, 2, 0, 1, 0, 10, 0, 10, 0xFF, 0xFF];
    assert_eq!(Coverage::new(&absent).unwrap().index_entries(), None);
    let overlapping = [0u8, 2, 0, 2, 0, 10, 0, 12, 0, 0, 0, 11, 0, 13, 0, 3];
    assert_eq!(Coverage::new(&overlapping).unwrap().index_entries(), None);
    assert_eq!(Coverage::new(&[0u8, 3, 0, 0]).unwrap().index_entries(), None);
}

#[test]
fn a_class_table_spells_out_its_nonzero_classes() {
    let array = [0u8, 1, 0, 7, 0, 3, 0, 2, 0, 0, 0, 5];
    let c = ClassDef::new(&array).unwrap();
    assert_eq!(c.index_entries(), Some(vec![(7, 2), (9, 5)]));
    assert_eq!(c.class_of(9), 5);
    assert_eq!(c.class_of(8), 0);
    let ranges = [0u8, 2, 0, 3, 0, 1, 0, 2, 0, 4, 0, 3, 0, 4, 0, 0, 0, 8, 0, 8, 0, 6];
    assert_eq!(ClassDef::new(&ranges).unwrap().index_entries(), Some(vec![(1, 4), (2, 4), (8, 6)]));
    let late = [0u8, 1, 0xFF, 0xFF, 0, 2, 0, 0, 0, 1];
    assert_eq!(ClassDef::new(&late).unwrap().index_entries(), None);
    let late_zero = [0u8, 1, 0xFF, 0xFF, 0, 2, 0, 1, 0, 0];
    assert_eq!(ClassDef::new(&late_zero).unwrap().index_entries(), Some(vec![(0xFFFF, 1)]));
    let unsorted = [0u8, 2, 0, 2, 0, 8, 0, 8, 0, 1, 0, 2, 0, 2, 0, 1];
    assert_eq!(ClassDef::new(&unsorted).unwrap().index_entries(), None);
}

#[test]
fn without_tables_only_fallback_features_take_bits() {
    let mut b = MapBuilder::new(None, None, &[], &[]);
    b.enable_feature(Tag::from_bytes(b"liga"), FF_HAS_FALLBACK, 1);
    b.add_feature(Tag::from_bytes(b"kern"), FF_HAS_FALLBACK, 3);
    b.enable_feature(Tag::from_bytes(b"calt"), FF_HAS_FALLBACK, 2);
    b.add_feature(Tag::from_bytes(b"ccmp"), FF_NONE, 1);
    let m = b.compile();
    let got: Vec<([u8; 4], u32, u32, u32)> =
        m.features.iter().map(|f| (f.tag.to_bytes(), f.shift, f.mask, f.one_mask)).collect();
    assert_eq!(
        got,
        vec![(*b"calt", 4, 0x30, 0x10), (*b"kern", 6, 0xC0, 0x40), (*b"liga", 31, 0x8000_0000, 0x8000_0000)]
    );
    assert_eq!(m.global_mask, 0x8000_0020);
}
