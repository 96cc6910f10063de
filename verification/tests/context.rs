use daeshaper::context::{
    coverage_indexed_set, indexed_set, offset_class_def, replay_edits, CoverageList, LookupRecords, SequenceLookupRecord,
    U16Array, MAX_CONTEXT_LENGTH,
};
use daeshaper::ot::offset_coverage_at;

#[test]
fn lookup_records_and_arrays_are_read_by_index() {
    let data = [0u8, 1, 0, 7, 0, 2, 0, 9];
    let records = LookupRecords { data: &data, count: 2 };
    assert_eq!(records.get(1), Some(SequenceLookupRecord { sequence_index: 2, lookup_list_index: 9 }));
    assert_eq!(records.get(2), None);
    let short = LookupRecords { data: &data[..6], count: 2 };
    assert_eq!(short.get(1), None);
    let array = U16Array { data: &data, len: 3 };
    assert_eq!(array.get(2), Some(2));
    assert_eq!(array.get(3), None);
}

#[test]
fn coverage_lists_and_sets_follow_offsets() {
    // Two offsets at 2: the first to a coverage of glyph 5 at 6, the second null.
    let data = [0u8, 0, 0, 6, 0, 0, 0, 1, 0, 1, 0, 5];
    let list = CoverageList { data: &data, at: 2, len: 2 };
    assert!(list.contains(0, 5));
    assert!(!list.contains(0, 6));
    assert!(!list.contains(1, 5));
    assert!(list.get(2).is_none());
    assert_eq!(offset_coverage_at(&data, 6).unwrap().index_of(5), Some(0));
    assert!(offset_coverage_at(&data, 10).is_none());
    // A format-1 context subtable: coverage of glyph 5, one rule set at 12.
    let sub = [0u8, 1, 0, 8, 0, 1, 0, 12, 0, 1, 0, 1, 0, 5, 0, 0, 0xAA];
    let set = coverage_indexed_set(&sub, 5).unwrap();
    assert_eq!(set[0], 0);
    assert_eq!(set.len(), 5);
    assert!(coverage_indexed_set(&sub, 6).is_none());
    assert!(indexed_set(&sub, 1, 4, 6).is_none());
    let null = [0u8, 1, 0, 0];
    assert!(indexed_set(&null, 0, 0, 2).is_none());
}

#[test]
fn a_null_class_offset_gives_class_zero() {
    let data = [0u8, 0, 0, 4, 0, 1, 0, 3, 0, 1, 0, 7];
    assert_eq!(offset_class_def(&data, 0).unwrap().class_of(3), 0);
    assert_eq!(offset_class_def(&data, 2).unwrap().class_of(3), 7);
    assert!(offset_class_def(&data, 12).is_none());
}

#[test]
fn match_positions_follow_the_edits() {
    let mut mp = [0u32; MAX_CONTEXT_LENGTH];
    mp[0] = 2;
    mp[1] = 4;
    mp[2] = 7;
    // One glyph removed at 4, then two inserted at 5.
    let live = replay_edits(&mut mp, 3, &[(4, -1), (5, 2)]);
    assert_eq!(live, 2);
    assert_eq!(&mp[..2], &[2, 8]);
    let mut grow = [0u32; MAX_CONTEXT_LENGTH];
    grow[0] = 1;
    grow[1] = 3;
    let kept = replay_edits(&mut grow, 2, &[(2, 3)]);
    assert_eq!(kept, 2);
    assert_eq!(&grow[..2], &[1, 6]);
}
