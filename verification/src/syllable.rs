//! Syllable segmentation: a deterministic automaton run over the shaping
//! categories of a run of glyphs, cutting it into longest-match syllables.

use vstd::prelude::*;
use crate::buffer::{Buffer, GlyphInfo};

verus! {

/// A syllable: the glyphs `start .. end`, of kind `kind`.
#[derive(Clone, Copy, PartialEq, Eq, Structural, Debug)]
pub struct Segment {
    pub start: usize,
    pub end: usize,
    pub kind: u8,
}

pub const INLINE_SEGMENTS: usize = 32;

/// A growable list of segments that keeps its first 32 entries inline and
/// moves everything into a vector once a 33rd arrives.
pub struct Segments {
    inline: [Segment; 32],
    len: usize,
    spill: Vec<Segment>,
}

impl View for Segments {
    type V = Seq<Segment>;

    closed spec fn view(&self) -> Seq<Segment> {
        if self.spill@.len() == 0 {
            self.inline@.take(self.len as int)
        } else {
            self.spill@
        }
    }
}

impl Segments {
    pub closed spec fn wf(&self) -> bool {
        &&& self.len <= 32
        &&& self.spill@.len() > 0 ==> self.spill@.len() > 32
    }

    pub fn new() -> (s: Segments)
        ensures
            s.wf(),
            s@ == Seq::<Segment>::empty(),
    {
        let z = Segment { start: 0, end: 0, kind: 0 };
        let s = Segments { inline: [z; 32], len: 0, spill: Vec::new() };
        assert(s@ =~= Seq::<Segment>::empty());
        s
    }

    /// Appends a segment.
    pub fn push(&mut self, s: Segment)
        requires
            old(self).wf(),
        ensures
            final(self).wf(),
            final(self)@ == old(self)@.push(s),
    {
        if self.spill.len() != 0 {
            self.spill.push(s);
        } else if self.len < INLINE_SEGMENTS {
            let k: usize = self.len;
            self.inline[k] = s;
            self.len = k + 1;
            assert(self@ =~= old(self)@.push(s));
        } else {
            let mut spill: Vec<Segment> = Vec::with_capacity(INLINE_SEGMENTS * 2);
            let mut i: usize = 0;
            while i < INLINE_SEGMENTS
                invariant
                    i <= 32,
                    self.len == 32,
                    spill@ == self.inline@.take(i as int),
                decreases 32 - i,
            {
                spill.push(self.inline[i]);
                i = i + 1;
            }
            spill.push(s);
            self.spill = spill;
            assert(self@ =~= old(self)@.push(s));
        }
    }

    pub fn as_slice(&self) -> (r: &[Segment])
        requires
            self.wf(),
        ensures
            r@ == self@,
    {
        if self.spill.len() == 0 {
            &self.inline[0..self.len]
        } else {
            self.spill.as_slice()
        }
    }
}

/// The automaton's next state from `state` on `category`, if it has one:
/// a state or category past the table, or the dead state, ends the match.
pub open spec fn spec_step<const N: usize>(
    transitions: Seq<[u16; N]>,
    dead: u16,
    state: u16,
    category: u8,
) -> Option<u16> {
    if state as int >= transitions.len() || category as int >= N {
        None
    } else {
        let next = transitions[state as int]@[category as int];
        if next == dead {
            None
        } else {
            Some(next)
        }
    }
}

/// The kind a state accepts, if any.
pub open spec fn spec_accept(accepting: Seq<Option<u8>>, state: u16) -> Option<u8> {
    if state as int >= accepting.len() {
        None
    } else {
        accepting[state as int]
    }
}

/// Runs the automaton from position `i` in state `state`, remembering the
/// last accepting position: the longest match.
pub open spec fn spec_run<const N: usize>(
    categories: Seq<u8>,
    transitions: Seq<[u16; N]>,
    accepting: Seq<Option<u8>>,
    dead: u16,
    i: int,
    state: u16,
    last: Option<(int, u8)>,
) -> Option<(int, u8)>
    decreases categories.len() - i,
{
    if i < 0 || i >= categories.len() {
        last
    } else {
        match spec_step(transitions, dead, state, categories[i]) {
            None => last,
            Some(next) => spec_run(
                categories,
                transitions,
                accepting,
                dead,
                i + 1,
                next,
                match spec_accept(accepting, next) {
                    Some(k) => Some((i + 1, k)),
                    None => last,
                },
            ),
        }
    }
}

/// The syllables from position `at` on: the longest match starting at
/// `at`, then the rest; a position where nothing matches is skipped.
pub open spec fn spec_segments<const N: usize>(
    categories: Seq<u8>,
    transitions: Seq<[u16; N]>,
    accepting: Seq<Option<u8>>,
    dead: u16,
    at: int,
) -> Seq<Segment>
    decreases categories.len() - at,
{
    if at < 0 || at >= categories.len() {
        Seq::empty()
    } else {
        match spec_run(categories, transitions, accepting, dead, at, 0, None) {
            Some((end, kind)) => if at < end <= categories.len() {
                seq![Segment { start: at as usize, end: end as usize, kind }] + spec_segments(
                    categories,
                    transitions,
                    accepting,
                    dead,
                    end,
                )
            } else {
                Seq::empty()
            },
            None => spec_segments(categories, transitions, accepting, dead, at + 1),
        }
    }
}

proof fn lemma_run_bounds<const N: usize>(
    categories: Seq<u8>,
    transitions: Seq<[u16; N]>,
    accepting: Seq<Option<u8>>,
    dead: u16,
    i: int,
    state: u16,
    last: Option<(int, u8)>,
    at: int,
)
    requires
        0 <= at <= i,
        last matches Some((e, _)) ==> at < e <= i,
    ensures
        spec_run(categories, transitions, accepting, dead, i, state, last) matches Some((e, _))
            ==> (at < e <= categories.len() || (last matches Some((e2, _)) && e == e2)),
        spec_run(categories, transitions, accepting, dead, i, state, last) matches Some((e, _))
            ==> at < e,
    decreases categories.len() - i,
{
    if i < 0 || i >= categories.len() {
    } else {
        match spec_step(transitions, dead, state, categories[i]) {
            None => {},
            Some(next) => {
                let l2 = match spec_accept(accepting, next) {
                    Some(k) => Some((i + 1, k)),
                    None => last,
                };
                lemma_run_bounds(categories, transitions, accepting, dead, i + 1, next, l2, at);
            },
        }
    }
}

/// Finds the longest match starting at `at`.
fn longest_match<const N: usize>(
    categories: &[u8],
    transitions: &[[u16; N]],
    accepting: &[Option<u8>],
    dead: u16,
    at: usize,
) -> (r: Option<(usize, u8)>)
    requires
        at < categories@.len(),
    ensures
        match r {
            Some((e, k)) => spec_run(
                categories@,
                transitions@,
                accepting@,
                dead,
                at as int,
                0,
                None,
            ) == Some((e as int, k)),
            None => spec_run(categories@, transitions@, accepting@, dead, at as int, 0, None)
                is None,
        },
{
    let len: usize = categories.len();
    let mut state: u16 = 0;
    let mut last: Option<(usize, u8)> = None;
    let mut i: usize = at;
    while i < len
        invariant
            at <= i <= len,
            len == categories@.len(),
            spec_run(categories@, transitions@, accepting@, dead, at as int, 0, None) == spec_run(
                categories@,
                transitions@,
                accepting@,
                dead,
                i as int,
                state,
                match last {
                    Some((e, k)) => Some((e as int, k)),
                    None => None,
                },
            ),
            last matches Some((e, _)) ==> e <= i,
        ensures
            spec_run(categories@, transitions@, accepting@, dead, at as int, 0, None) == match last {
                Some((e, k)) => Some((e as int, k)),
                None => None,
            },
        decreases len - i,
    {
        let category: u8 = categories[i];
        if state as usize >= transitions.len() || category as usize >= N {
            break;
        }
        let next: u16 = transitions[state as usize][category as usize];
        if next == dead {
            break;
        }
        state = next;
        i = i + 1;
        if (state as usize) < accepting.len() {
            if let Some(kind) = accepting[state as usize] {
                last = Some((i, kind));
            }
        }
    }
    last
}

/// Cuts positions `0 .. categories.len()` into longest-match syllables of
/// the automaton `transitions` (state 0 starts, `dead` refuses, a state
/// accepts the kind `accepting` gives it), skipping positions where no
/// syllable starts.
pub fn segment<const N: usize>(
    categories: &[u8],
    transitions: &[[u16; N]],
    accepting: &[Option<u8>],
    dead: u16,
) -> (out: Vec<Segment>)
    ensures
        out@ == spec_segments(categories@, transitions@, accepting@, dead, 0),
{
    let len: usize = categories.len();
    let mut out: Vec<Segment> = Vec::new();
    let mut at: usize = 0;
    while at < len
        invariant
            at <= len,
            len == categories@.len(),
            spec_segments(categories@, transitions@, accepting@, dead, 0) == out@ + spec_segments(
                categories@,
                transitions@,
                accepting@,
                dead,
                at as int,
            ),
        decreases len - at,
    {
        let m = longest_match(categories, transitions, accepting, dead, at);
        proof {
            lemma_run_bounds(categories@, transitions@, accepting@, dead, at as int, 0, None, at as int);
        }
        match m {
            Some((end, kind)) => {
                let s = Segment { start: at, end, kind };
                proof {
                    assert(spec_segments(categories@, transitions@, accepting@, dead, at as int)
                        == seq![s] + spec_segments(categories@, transitions@, accepting@, dead, end as int));
                    assert(out@.push(s) + spec_segments(categories@, transitions@, accepting@, dead, end as int)
                        =~= out@ + (seq![s] + spec_segments(categories@, transitions@, accepting@, dead, end as int)));
                }
                out.push(s);
                at = end;
            },
            None => {
                at = at + 1;
            },
        }
    }
    assert(spec_segments(categories@, transitions@, accepting@, dead, at as int) =~= Seq::<Segment>::empty());
    assert(out@ + Seq::<Segment>::empty() =~= out@);
    out
}

/// The state the automaton is in after reading positions `start .. e` from
/// state 0, if it has not stopped on the way.
pub open spec fn spec_walk<const N: usize>(
    categories: Seq<u8>,
    transitions: Seq<[u16; N]>,
    dead: u16,
    start: int,
    e: int,
) -> Option<u16>
    decreases e - start,
{
    if e <= start {
        Some(0u16)
    } else {
        match spec_walk(categories, transitions, dead, start, e - 1) {
            None => None,
            Some(s) => if 0 <= e - 1 < categories.len() {
                spec_step(transitions, dead, s, categories[e - 1])
            } else {
                None
            },
        }
    }
}

/// Whether the automaton, started at `start`, accepts a syllable that ends
/// at `e`.
pub open spec fn spec_accepts_at<const N: usize>(
    categories: Seq<u8>,
    transitions: Seq<[u16; N]>,
    accepting: Seq<Option<u8>>,
    dead: u16,
    start: int,
    e: int,
) -> bool {
    start < e <= categories.len() && match spec_walk(categories, transitions, dead, start, e) {
        Some(st) => spec_accept(accepting, st) is Some,
        None => false,
    }
}

/// Whether the automaton, started at `start`, accepts a syllable of kind
/// `k` ending at `e`.
pub open spec fn spec_accepts_kind<const N: usize>(
    categories: Seq<u8>,
    transitions: Seq<[u16; N]>,
    accepting: Seq<Option<u8>>,
    dead: u16,
    start: int,
    e: int,
    k: u8,
) -> bool {
    match spec_walk(categories, transitions, dead, start, e) {
        Some(st) => spec_accept(accepting, st) == Some(k),
        None => false,
    }
}

/// Whether syllable `g` is the longest one that starts where it starts:
/// the automaton accepts its kind at its end, and nothing further on.
pub open spec fn longest_at<const N: usize>(
    categories: Seq<u8>,
    transitions: Seq<[u16; N]>,
    accepting: Seq<Option<u8>>,
    dead: u16,
    g: Segment,
) -> bool {
    &&& g.start < g.end <= categories.len()
    &&& spec_accepts_kind(categories, transitions, accepting, dead, g.start as int, g.end as int, g.kind)
    &&& forall|e: int|
        g.end < e <= categories.len() ==> !#[trigger] spec_accepts_at(
            categories,
            transitions,
            accepting,
            dead,
            g.start as int,
            e,
        )
}

/// Whether no syllable of `segs` covers position `p`.
pub open spec fn uncovered(segs: Seq<Segment>, p: int) -> bool {
    forall|q: int| 0 <= q < segs.len() ==> !(#[trigger] segs[q].start <= p && p < segs[q].end)
}

proof fn lemma_walk_stops<const N: usize>(
    categories: Seq<u8>,
    transitions: Seq<[u16; N]>,
    dead: u16,
    start: int,
    e: int,
    e2: int,
)
    requires
        start <= e <= e2,
        spec_walk(categories, transitions, dead, start, e) is None,
    ensures
        spec_walk(categories, transitions, dead, start, e2) is None,
    decreases e2 - e,
{
    if e2 > e {
        lemma_walk_stops(categories, transitions, dead, start, e, e2 - 1);
    }
}

proof fn lemma_run_longest<const N: usize>(
    categories: Seq<u8>,
    transitions: Seq<[u16; N]>,
    accepting: Seq<Option<u8>>,
    dead: u16,
    at: int,
    i: int,
    state: u16,
    last: Option<(int, u8)>,
)
    requires
        0 <= at <= i <= categories.len(),
        spec_walk(categories, transitions, dead, at, i) == Some(state),
        last matches Some((e, k)) ==> at < e <= i && spec_accepts_kind(categories, transitions, accepting, dead, at, e, k),
        forall|e2: int|
            (match last {
                Some((e, _)) => e,
                None => at,
            }) < e2 <= i ==> !#[trigger] spec_accepts_at(categories, transitions, accepting, dead, at, e2),
    ensures
        ({
            let r = spec_run(categories, transitions, accepting, dead, i, state, last);
            &&& r matches Some((e, k)) ==> at < e <= categories.len() && spec_accepts_kind(
                categories,
                transitions,
                accepting,
                dead,
                at,
                e,
                k,
            )
            &&& forall|e2: int|
                (match r {
                    Some((e, _)) => e,
                    None => at,
                }) < e2 <= categories.len() ==> !#[trigger] spec_accepts_at(
                    categories,
                    transitions,
                    accepting,
                    dead,
                    at,
                    e2,
                )
        }),
    decreases categories.len() - i,
{
    if i >= categories.len() {
    } else {
        match spec_step(transitions, dead, state, categories[i]) {
            None => {
                assert(spec_walk(categories, transitions, dead, at, i + 1) is None);
                assert forall|e2: int| i < e2 <= categories.len() implies !#[trigger] spec_accepts_at(
                    categories,
                    transitions,
                    accepting,
                    dead,
                    at,
                    e2,
                ) by {
                    lemma_walk_stops(categories, transitions, dead, at, i + 1, e2);
                }
            },
            Some(next) => {
                assert(spec_walk(categories, transitions, dead, at, i + 1) == Some(next));
                let l2 = match spec_accept(accepting, next) {
                    Some(k) => Some((i + 1, k)),
                    None => last,
                };
                lemma_run_longest(categories, transitions, accepting, dead, at, i + 1, next, l2);
            },
        }
    }
}

/// Syllable segmentation takes the longest match: each syllable is
/// accepted by the automaton from its start with its kind, and the
/// automaton accepts nothing longer from there; and it skips only what
/// cannot start a syllable: from a position that no syllable covers the
/// automaton accepts nothing at all.
pub proof fn lemma_segments_longest_match<const N: usize>(
    categories: Seq<u8>,
    transitions: Seq<[u16; N]>,
    accepting: Seq<Option<u8>>,
    dead: u16,
    at: int,
)
    requires
        0 <= at,
        categories.len() <= usize::MAX,
    ensures
        ({
            let segs = spec_segments(categories, transitions, accepting, dead, at);
            &&& forall|q: int|
                0 <= q < segs.len() ==> longest_at(categories, transitions, accepting, dead, #[trigger] segs[q])
            &&& forall|p: int, e: int|
                at <= p < e <= categories.len() && uncovered(segs, p) ==> !#[trigger] spec_accepts_at(
                    categories,
                    transitions,
                    accepting,
                    dead,
                    p,
                    e,
                )
        }),
    decreases categories.len() - at,
{
    let segs = spec_segments(categories, transitions, accepting, dead, at);
    if at >= categories.len() {
    } else {
        lemma_run_longest(categories, transitions, accepting, dead, at, at, 0, None);
        match spec_run(categories, transitions, accepting, dead, at, 0, None) {
            Some((end, kind)) => {
                lemma_segments_longest_match(categories, transitions, accepting, dead, end);
                let rest = spec_segments(categories, transitions, accepting, dead, end);
                let g = Segment { start: at as usize, end: end as usize, kind };
                assert(segs == seq![g] + rest);
                assert(longest_at(categories, transitions, accepting, dead, g));
                assert forall|q: int| 0 <= q < segs.len() implies longest_at(
                    categories,
                    transitions,
                    accepting,
                    dead,
                    #[trigger] segs[q],
                ) by {
                    if q > 0 {
                        assert(segs[q] == rest[q - 1]);
                    }
                }
                assert forall|p: int, e: int|
                    at <= p < e <= categories.len() && uncovered(segs, p) implies !#[trigger] spec_accepts_at(
                    categories,
                    transitions,
                    accepting,
                    dead,
                    p,
                    e,
                ) by {
                    assert(!(segs[0].start <= p && p < segs[0].end));
                    assert(p >= end);
                    assert forall|q: int| 0 <= q < rest.len() implies !(#[trigger] rest[q].start <= p && p
                        < rest[q].end) by {
                        assert(segs[q + 1] == rest[q]);
                    }
                }
            },
            None => {
                lemma_segments_longest_match(categories, transitions, accepting, dead, at + 1);
                let rest = spec_segments(categories, transitions, accepting, dead, at + 1);
                assert(segs == rest);
            },
        }
    }
}

/// Syllables come in text order, each nonempty, none overlapping the
/// next, all within the text.
pub proof fn lemma_segments_ordered<const N: usize>(
    categories: Seq<u8>,
    transitions: Seq<[u16; N]>,
    accepting: Seq<Option<u8>>,
    dead: u16,
    at: int,
)
    requires
        0 <= at,
        categories.len() <= usize::MAX,
    ensures
        ({
            let s = spec_segments(categories, transitions, accepting, dead, at);
            &&& forall|i: int|
                0 <= i < s.len() ==> at <= #[trigger] s[i].start < s[i].end <= categories.len()
            &&& forall|i: int| 0 <= i < s.len() - 1 ==> #[trigger] s[i].end <= s[i + 1].start
        }),
    decreases categories.len() - at,
{
    if at >= categories.len() {
    } else {
        lemma_run_bounds(categories, transitions, accepting, dead, at, 0, None, at);
        match spec_run(categories, transitions, accepting, dead, at, 0, None) {
            Some((end, kind)) => {
                if at < end <= categories.len() {
                    lemma_segments_ordered(categories, transitions, accepting, dead, end);
                    let rest = spec_segments(categories, transitions, accepting, dead, end);
                    let s = spec_segments(categories, transitions, accepting, dead, at);
                    assert(s == seq![Segment { start: at as usize, end: end as usize, kind }] + rest);
                    assert(s[0].start == at && s[0].end == end);
                    assert forall|i: int| 0 <= i < s.len() - 1 implies #[trigger] s[i].end <= s[i
                        + 1].start by {
                        if i > 0 {
                            assert(s[i] == rest[i - 1]);
                            assert(s[i + 1] == rest[i]);
                        }
                    }
                    assert forall|i: int| 0 <= i < s.len() implies at <= #[trigger] s[i].start
                        < s[i].end <= categories.len() by {
                        if i > 0 {
                            assert(s[i] == rest[i - 1]);
                        }
                    }
                }
            },
            None => {
                lemma_segments_ordered(categories, transitions, accepting, dead, at + 1);
                assert(spec_segments(categories, transitions, accepting, dead, at) == spec_segments(
                    categories,
                    transitions,
                    accepting,
                    dead,
                    at + 1,
                ));
            },
        }
    }
}

/// The syllable byte of segment number `index`: a serial 1 ..= 15 in the
/// high nibble, the kind in the low bits.
pub open spec fn syllable_value(index: int, kind: u8) -> u8 {
    ((((((index as u8) % 15) + 1) as u8) << 4u8) as u8) | kind
}

/// The glyphs after marking each segment's glyphs with its syllable byte,
/// later segments overwriting earlier ones.
pub open spec fn spec_set_syllables(infos: Seq<GlyphInfo>, segments: Seq<Segment>, n: int) -> Seq<
    GlyphInfo,
>
    decreases n,
{
    if n <= 0 {
        infos
    } else {
        let prev = spec_set_syllables(infos, segments, n - 1);
        let s = segments[n - 1];
        Seq::new(
            prev.len(),
            |k: int|
                if s.start <= k < s.end {
                    GlyphInfo { syllable: syllable_value(n - 1, s.kind), ..prev[k] }
                } else {
                    prev[k]
                },
        )
    }
}

/// Stores each segment's syllable byte on its glyphs.
pub fn set_syllables(buffer: &mut Buffer, segments: &[Segment])
    requires
        forall|i: int|
            0 <= i < segments@.len() ==> #[trigger] segments@[i].start <= segments@[i].end
                <= old(buffer).info@.len(),
    ensures
        final(buffer).info@ == spec_set_syllables(old(buffer).info@, segments@, segments@.len() as int),
        final(buffer).len == old(buffer).len,
        final(buffer).idx == old(buffer).idx,
        final(buffer).out_len == old(buffer).out_len,
        final(buffer).out_info == old(buffer).out_info,
        final(buffer).pos == old(buffer).pos,
        final(buffer).have_output == old(buffer).have_output,
        final(buffer).out_lockstep == old(buffer).out_lockstep,
        final(buffer).successful == old(buffer).successful,
        final(buffer).same_settings(&*old(buffer)),
{
    let mut info: Vec<GlyphInfo> = Vec::new();
    core::mem::swap(&mut info, &mut buffer.info);
    let n: usize = segments.len();
    let mut index: usize = 0;
    while index < n
        invariant
            index <= n,
            n == segments@.len(),
            info@.len() == old(buffer).info@.len(),
            forall|i: int|
                0 <= i < segments@.len() ==> #[trigger] segments@[i].start <= segments@[i].end
                    <= old(buffer).info@.len(),
            info@ == spec_set_syllables(old(buffer).info@, segments@, index as int),
        decreases n - index,
    {
        let seg: Segment = segments[index];
        let serial: u8 = (((index as u8) % 15) + 1) << 4u8;
        let value: u8 = serial | seg.kind;
        let ghost prev = info@;
        let mut k: usize = seg.start;
        while k < seg.end
            invariant
                seg.start <= k <= seg.end,
                seg.end <= info@.len(),
                info@.len() == prev.len(),
                forall|j: int|
                    0 <= j < prev.len() ==> #[trigger] info@[j] == if seg.start <= j < k {
                        GlyphInfo { syllable: value, ..prev[j] }
                    } else {
                        prev[j]
                    },
            decreases seg.end - k,
        {
            let mut g: GlyphInfo = info[k];
            g.syllable = value;
            info.set(k, g);
            k = k + 1;
        }
        proof {
            assert(info@ =~= spec_set_syllables(old(buffer).info@, segments@, index + 1));
        }
        index = index + 1;
    }
    core::mem::swap(&mut info, &mut buffer.info);
}

} // verus!
