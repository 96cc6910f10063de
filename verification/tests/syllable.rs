use daeshaper::syllable::{Segment, Segments, INLINE_SEGMENTS};

#[test]
fn spilling_keeps_everything_that_came_before_it() {
    for n in [0, 1, INLINE_SEGMENTS - 1, INLINE_SEGMENTS, INLINE_SEGMENTS + 1, INLINE_SEGMENTS * 3 + 7] {
        let mut segs = Segments::new();
        for i in 0..n {
            segs.push(Segment { start: i, end: i + 1, kind: (i % 251) as u8 });
        }
        let out = segs.as_slice();
        assert_eq!(out.len(), n, "{n} pushed, {} came back", out.len());
        for (i, s) in out.iter().enumerate() {
            assert_eq!(
                (s.start, s.end, s.kind),
                (i, i + 1, (i % 251) as u8),
                "entry {i} of {n} is not what was pushed",
            );
        }
    }
}

#[test]
fn the_slice_is_one_run_on_both_sides_of_the_boundary() {
    for n in [INLINE_SEGMENTS - 1, INLINE_SEGMENTS, INLINE_SEGMENTS + 1] {
        let mut segs = Segments::new();
        for i in 0..n {
            segs.push(Segment { start: i * 2, end: i * 2 + 1, kind: 0u8 });
        }
        let out = segs.as_slice();
        for w in out.windows(2) {
            assert_eq!(w[1].start, w[0].start + 2, "a gap at the inline/spill boundary, n = {n}");
        }
    }
}
