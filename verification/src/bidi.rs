//! The Unicode bidirectional algorithm over resolved character classes:
//! paragraph level, explicit embeddings and isolates, the weak and neutral
//! rules over isolating run sequences, implicit levels, and reordering
//! into visual runs.

use vstd::prelude::*;
use crate::buffer::reverse_vec_range;
use crate::unicode::char_from_u32;

verus! {

/// The bidirectional character classes.
#[derive(Clone, Copy, PartialEq, Eq, Structural, Debug)]
pub enum Class {
    L,
    R,
    AL,
    EN,
    ES,
    ET,
    AN,
    CS,
    NSM,
    BN,
    B,
    S,
    WS,
    ON,
    LRE,
    LRO,
    RLE,
    RLO,
    PDF,
    LRI,
    RLI,
    FSI,
    PDI,
}

/// The deepest embedding level.
pub const MAX_DEPTH: u8 = 125;

/// The class with stored number `raw`, counted modulo the number of classes.
pub open spec fn spec_class_of_raw(raw: u8) -> Class {
    let k = raw % 23;
    if k == 0 { Class::L } else if k == 1 { Class::R } else if k == 2 { Class::AL }
    else if k == 3 { Class::EN } else if k == 4 { Class::ES } else if k == 5 { Class::ET }
    else if k == 6 { Class::AN } else if k == 7 { Class::CS } else if k == 8 { Class::NSM }
    else if k == 9 { Class::BN } else if k == 10 { Class::B } else if k == 11 { Class::S }
    else if k == 12 { Class::WS } else if k == 13 { Class::ON } else if k == 14 { Class::LRE }
    else if k == 15 { Class::LRO } else if k == 16 { Class::RLE } else if k == 17 { Class::RLO }
    else if k == 18 { Class::PDF } else if k == 19 { Class::LRI } else if k == 20 { Class::RLI }
    else if k == 21 { Class::FSI } else { Class::PDI }
}

impl Class {
    /// The class of a stored class number.
    pub fn from_raw(raw: u8) -> (c: Class)
        ensures
            c == spec_class_of_raw(raw),
    {
        let k: u8 = raw % 23;
        if k == 0 { Class::L } else if k == 1 { Class::R } else if k == 2 { Class::AL }
        else if k == 3 { Class::EN } else if k == 4 { Class::ES } else if k == 5 { Class::ET }
        else if k == 6 { Class::AN } else if k == 7 { Class::CS } else if k == 8 { Class::NSM }
        else if k == 9 { Class::BN } else if k == 10 { Class::B } else if k == 11 { Class::S }
        else if k == 12 { Class::WS } else if k == 13 { Class::ON } else if k == 14 { Class::LRE }
        else if k == 15 { Class::LRO } else if k == 16 { Class::RLE } else if k == 17 { Class::RLO }
        else if k == 18 { Class::PDF } else if k == 19 { Class::LRI } else if k == 20 { Class::RLI }
        else if k == 21 { Class::FSI } else { Class::PDI }
    }

    pub open spec fn spec_is_isolate_initiator(self) -> bool {
        self == Class::LRI || self == Class::RLI || self == Class::FSI
    }

    pub open spec fn spec_is_explicit(self) -> bool {
        self == Class::LRE || self == Class::LRO || self == Class::RLE || self == Class::RLO
            || self == Class::PDF
    }

    pub open spec fn spec_is_removed_by_x9(self) -> bool {
        self.spec_is_explicit() || self == Class::BN
    }

    pub open spec fn spec_is_neutral_or_isolate(self) -> bool {
        self == Class::B || self == Class::S || self == Class::WS || self == Class::ON
            || self.spec_is_isolate_initiator() || self == Class::PDI
    }

    pub fn is_isolate_initiator(self) -> (r: bool)
        ensures
            r == self.spec_is_isolate_initiator(),
    {
        matches!(self, Class::LRI | Class::RLI | Class::FSI)
    }

    pub fn is_explicit(self) -> (r: bool)
        ensures
            r == self.spec_is_explicit(),
    {
        matches!(self, Class::LRE | Class::LRO | Class::RLE | Class::RLO | Class::PDF)
    }

    pub fn is_removed_by_x9(self) -> (r: bool)
        ensures
            r == self.spec_is_removed_by_x9(),
    {
        self.is_explicit() || self == Class::BN
    }

    pub fn is_neutral_or_isolate(self) -> (r: bool)
        ensures
            r == self.spec_is_neutral_or_isolate(),
    {
        matches!(self, Class::B | Class::S | Class::WS | Class::ON) || self.is_isolate_initiator()
            || self == Class::PDI
    }
}

/// P2–P3 over `cs[i .. to]` at isolate depth `depth`: the level of the
/// first strong class outside any isolate, 0 when there is none.
pub open spec fn spec_paragraph_level(cs: Seq<Class>, i: int, to: int, depth: nat) -> u8
    decreases to - i,
{
    if i < 0 || i >= to || i >= cs.len() {
        0
    } else if cs[i].spec_is_isolate_initiator() {
        spec_paragraph_level(cs, i + 1, to, depth + 1)
    } else if cs[i] == Class::PDI {
        spec_paragraph_level(cs, i + 1, to, if depth > 0 { (depth - 1) as nat } else { 0 })
    } else if depth > 0 {
        spec_paragraph_level(cs, i + 1, to, depth)
    } else if cs[i] == Class::L {
        0
    } else if cs[i] == Class::R || cs[i] == Class::AL {
        1
    } else {
        spec_paragraph_level(cs, i + 1, to, depth)
    }
}

/// How many isolates are open before position `k`: an initiator opens one,
/// a PDI closes the innermost when one is open.
pub open spec fn isolate_depth(cs: Seq<Class>, k: int) -> nat
    decreases k,
{
    if k <= 0 {
        0
    } else {
        let d = isolate_depth(cs, k - 1);
        if cs[k - 1].spec_is_isolate_initiator() {
            d + 1
        } else if cs[k - 1] == Class::PDI {
            if d > 0 {
                (d - 1) as nat
            } else {
                0
            }
        } else {
            d
        }
    }
}

/// Whether position `k` holds a strong class (L, R or AL) outside every
/// isolate.
pub open spec fn strong_outside(cs: Seq<Class>, k: int) -> bool {
    isolate_depth(cs, k) == 0 && (cs[k] == Class::L || cs[k] == Class::R || cs[k] == Class::AL)
}

/// The first strong class outside isolates, from `i` on, is R or AL.
pub open spec fn first_strong_rtl(cs: Seq<Class>, i: int) -> bool {
    exists|k: int|
        i <= k < cs.len() && #[trigger] strong_outside(cs, k) && (cs[k] == Class::R || cs[k] == Class::AL)
            && forall|j: int| i <= j < k ==> !#[trigger] strong_outside(cs, j)
}

proof fn lemma_paragraph_level_from(cs: Seq<Class>, i: int)
    requires
        0 <= i <= cs.len(),
    ensures
        (spec_paragraph_level(cs, i, cs.len() as int, isolate_depth(cs, i)) == 1) == first_strong_rtl(cs, i),
        spec_paragraph_level(cs, i, cs.len() as int, isolate_depth(cs, i)) <= 1,
    decreases cs.len() - i,
{
    if i < cs.len() {
        lemma_paragraph_level_from(cs, i + 1);
        assert(isolate_depth(cs, i + 1) == if cs[i].spec_is_isolate_initiator() {
            isolate_depth(cs, i) + 1
        } else if cs[i] == Class::PDI {
            if isolate_depth(cs, i) > 0 {
                (isolate_depth(cs, i) - 1) as nat
            } else {
                0
            }
        } else {
            isolate_depth(cs, i)
        });
        if strong_outside(cs, i) {
            if cs[i] == Class::R || cs[i] == Class::AL {
                assert(first_strong_rtl(cs, i));
            } else {
                assert(!first_strong_rtl(cs, i)) by {
                    if first_strong_rtl(cs, i) {
                        let k = choose|k: int|
                            i <= k < cs.len() && #[trigger] strong_outside(cs, k) && (cs[k] == Class::R || cs[k]
                                == Class::AL) && forall|j: int| i <= j < k ==> !#[trigger] strong_outside(cs, j);
                        assert(k != i);
                        assert(!strong_outside(cs, i));
                    }
                }
            }
        } else {
            if first_strong_rtl(cs, i) {
                let k = choose|k: int|
                    i <= k < cs.len() && #[trigger] strong_outside(cs, k) && (cs[k] == Class::R || cs[k] == Class::AL)
                        && forall|j: int| i <= j < k ==> !#[trigger] strong_outside(cs, j);
                assert(k != i);
                assert(forall|j: int| i + 1 <= j < k ==> !#[trigger] strong_outside(cs, j));
                assert(first_strong_rtl(cs, i + 1));
            }
            if first_strong_rtl(cs, i + 1) {
                let k = choose|k: int|
                    i + 1 <= k < cs.len() && #[trigger] strong_outside(cs, k) && (cs[k] == Class::R || cs[k]
                        == Class::AL) && forall|j: int| i + 1 <= j < k ==> !#[trigger] strong_outside(cs, j);
                assert forall|j: int| i <= j < k implies !#[trigger] strong_outside(cs, j) by {
                    if j == i {
                    }
                }
                assert(first_strong_rtl(cs, i));
            }
        }
    }
}

/// P2–P3: without a direction given, a paragraph takes level 1 exactly
/// when its first strong character (L, R or AL) outside every isolate is
/// R or AL, and level 0 otherwise, also when it has none.
pub proof fn lemma_paragraph_level_first_strong(cs: Seq<Class>)
    ensures
        spec_paragraph_level(cs, 0, cs.len() as int, 0) == 1 <==> first_strong_rtl(cs, 0),
        spec_paragraph_level(cs, 0, cs.len() as int, 0) == 0 <==> !first_strong_rtl(cs, 0),
{
    lemma_paragraph_level_from(cs, 0);
}

/// The paragraph embedding level of `classes[from .. to]`.
pub fn paragraph_level(classes: &[Class], from: usize, to: usize) -> (r: u8)
    requires
        from <= to <= classes@.len(),
    ensures
        r == spec_paragraph_level(classes@, from as int, to as int, 0),
        r <= 1,
{
    let mut depth: usize = 0;
    let mut i: usize = from;
    while i < to
        invariant
            from <= i <= to <= classes@.len(),
            depth <= i,
            spec_paragraph_level(classes@, from as int, to as int, 0) == spec_paragraph_level(
                classes@,
                i as int,
                to as int,
                depth as nat,
            ),
        decreases to - i,
    {
        let c: Class = classes[i];
        if c.is_isolate_initiator() {
            depth = depth + 1;
        } else if c == Class::PDI {
            depth = if depth > 0 { depth - 1 } else { 0 };
        } else if depth == 0 {
            if c == Class::L {
                return 0;
            }
            if c == Class::R || c == Class::AL {
                return 1;
            }
        }
        i = i + 1;
    }
    0
}

/// The position, from `i` on, where the isolate open at depth `depth`
/// closes; the length of `cs` when it never does.
pub open spec fn spec_matching_pdi(cs: Seq<Class>, i: int, depth: nat) -> int
    decreases cs.len() - i,
{
    if i < 0 || i >= cs.len() {
        cs.len() as int
    } else if cs[i].spec_is_isolate_initiator() {
        spec_matching_pdi(cs, i + 1, depth + 1)
    } else if cs[i] == Class::PDI {
        if depth <= 1 {
            i
        } else {
            spec_matching_pdi(cs, i + 1, (depth - 1) as nat)
        }
    } else {
        spec_matching_pdi(cs, i + 1, depth)
    }
}

proof fn lemma_matching_pdi_bounds(cs: Seq<Class>, i: int, depth: nat)
    requires
        0 <= i,
    ensures
        i <= spec_matching_pdi(cs, i, depth) <= cs.len() || (i > cs.len() && spec_matching_pdi(
            cs,
            i,
            depth,
        ) == cs.len()),
    decreases cs.len() - i,
{
    if i < cs.len() {
        if cs[i].spec_is_isolate_initiator() {
            lemma_matching_pdi_bounds(cs, i + 1, depth + 1);
        } else if cs[i] == Class::PDI {
            if depth > 1 {
                lemma_matching_pdi_bounds(cs, i + 1, (depth - 1) as nat);
            }
        } else {
            lemma_matching_pdi_bounds(cs, i + 1, depth);
        }
    }
}

/// The PDI that closes the isolate initiator at `from`, or the length of
/// `classes` when none does.
pub fn matching_pdi(classes: &[Class], from: usize) -> (r: usize)
    requires
        from < classes@.len(),
    ensures
        r == spec_matching_pdi(classes@, from + 1, 1),
        from < r <= classes@.len(),
{
    proof {
        lemma_matching_pdi_bounds(classes@, from + 1, 1);
    }
    let len: usize = classes.len();
    let mut depth: usize = 1;
    let mut i: usize = from + 1;
    while i < classes.len()
        invariant
            from < i <= classes@.len(),
            1 <= depth <= i,
            spec_matching_pdi(classes@, from + 1, 1) == spec_matching_pdi(
                classes@,
                i as int,
                depth as nat,
            ),
        decreases classes.len() - i,
    {
        let c: Class = classes[i];
        if c.is_isolate_initiator() {
            depth = depth + 1;
        } else if c == Class::PDI {
            if depth == 1 {
                return i;
            }
            depth = depth - 1;
        }
        i = i + 1;
    }
    classes.len()
}

/// Scanning back from before `i` at PDI depth `depth`: the isolate
/// initiator that the scan's PDI matches.
pub open spec fn spec_matched_initiator(cs: Seq<Class>, i: int, depth: nat) -> Option<int>
    decreases i,
{
    if i <= 0 || i > cs.len() {
        None
    } else if cs[i - 1] == Class::PDI {
        spec_matched_initiator(cs, i - 1, depth + 1)
    } else if cs[i - 1].spec_is_isolate_initiator() {
        if depth == 0 {
            Some(i - 1)
        } else {
            spec_matched_initiator(cs, i - 1, (depth - 1) as nat)
        }
    } else {
        spec_matched_initiator(cs, i - 1, depth)
    }
}

/// The isolate initiator that the PDI at `pdi` closes, if any.
pub fn matched_initiator(classes: &[Class], pdi: usize) -> (r: Option<usize>)
    requires
        pdi <= classes@.len(),
    ensures
        match spec_matched_initiator(classes@, pdi as int, 0) {
            None => r is None,
            Some(i) => r == Some(i as usize),
        },
{
    let mut depth: usize = 0;
    let mut i: usize = pdi;
    while i > 0
        invariant
            i <= pdi <= classes@.len(),
            depth <= pdi - i,
            spec_matched_initiator(classes@, pdi as int, 0) == spec_matched_initiator(
                classes@,
                i as int,
                depth as nat,
            ),
        decreases i,
    {
        let c: Class = classes[i - 1];
        if c == Class::PDI {
            depth = depth + 1;
        } else if c.is_isolate_initiator() {
            if depth == 0 {
                return Some(i - 1);
            }
            depth = depth - 1;
        }
        i = i - 1;
    }
    None
}

/// I1–I2: the level of a character of resolved class `c` at embedding
/// level `level`.
pub open spec fn spec_implicit_level(c: Class, level: u8) -> int {
    if level % 2 == 0 {
        if c == Class::R {
            level + 1
        } else if c == Class::AN || c == Class::EN {
            level + 2
        } else {
            level as int
        }
    } else if c == Class::L || c == Class::AN || c == Class::EN {
        level + 1
    } else {
        level as int
    }
}

/// I1–I2 over a paragraph.
pub fn implicit_levels(result: &[Class], levels: &mut Vec<u8>)
    requires
        result@.len() == old(levels)@.len(),
        forall|i: int| 0 <= i < old(levels)@.len() ==> #[trigger] old(levels)@[i] <= MAX_DEPTH + 1,
    ensures
        final(levels)@.len() == old(levels)@.len(),
        forall|i: int|
            0 <= i < final(levels)@.len() ==> #[trigger] final(levels)@[i] == spec_implicit_level(
                result@[i],
                old(levels)@[i],
            ),
{
    let n: usize = levels.len();
    let mut i: usize = 0;
    while i < n
        invariant
            i <= n,
            n == levels@.len(),
            result@.len() == n,
            levels@.len() == old(levels)@.len(),
            forall|j: int| i <= j < n ==> #[trigger] levels@[j] == old(levels)@[j],
            forall|j: int| i <= j < n ==> #[trigger] old(levels)@[j] <= MAX_DEPTH + 1,
            forall|j: int|
                0 <= j < i ==> #[trigger] levels@[j] == spec_implicit_level(result@[j], old(levels)@[j]),
        decreases n - i,
    {
        let level: u8 = levels[i];
        let c: Class = result[i];
        let next: u8 = if level % 2 == 0 {
            match c {
                Class::R => level + 1,
                Class::AN | Class::EN => level + 2,
                _ => level,
            }
        } else {
            match c {
                Class::L | Class::AN | Class::EN => level + 1,
                _ => level,
            }
        };
        levels.set(i, next);
        i = i + 1;
    }
}

/// `order` holds each of `0 .. n` exactly once.
pub open spec fn is_permutation(order: Seq<usize>, n: int) -> bool {
    &&& order.len() == n
    &&& forall|i: int| 0 <= i < n ==> #[trigger] order[i] < n
    &&& forall|i: int, j: int| 0 <= i < j < n ==> order[i] != order[j]
}

proof fn lemma_reverse_keeps_permutation(before: Seq<usize>, after: Seq<usize>, start: int, end: int, n: int)
    requires
        is_permutation(before, n),
        0 <= start <= end <= n,
        after == before.subrange(0, start) + before.subrange(start, end).reverse() + before.subrange(
            end,
            n,
        ),
    ensures
        is_permutation(after, n),
{
    assert forall|p: int| 0 <= p < n implies after[p] == before[if start <= p < end {
        end - 1 - (p - start)
    } else {
        p
    }] by {
        if p < start {
        } else if p < end {
        } else {
        }
    }
    assert forall|i: int| 0 <= i < n implies #[trigger] after[i] < n by {
        let q = if start <= i < end { end - 1 - (i - start) } else { i };
        assert(after[i] == before[q]);
    }
    assert forall|i: int, j: int| 0 <= i < j < n implies after[i] != after[j] by {
        let qi = if start <= i < end { end - 1 - (i - start) } else { i };
        let qj = if start <= j < end { end - 1 - (j - start) } else { j };
        assert(after[i] == before[qi]);
        assert(after[j] == before[qj]);
        assert(qi != qj);
        if qi < qj {
            assert(before[qi] != before[qj]);
        } else {
            assert(before[qj] != before[qi]);
        }
    }
}

/// `s` with `start .. end` reversed.
pub open spec fn reversed_range(s: Seq<usize>, start: int, end: int) -> Seq<usize> {
    s.subrange(0, start) + s.subrange(start, end).reverse() + s.subrange(end, s.len() as int)
}

/// Where the run of display positions from `i` whose characters are at
/// level `level` or above ends.
pub open spec fn high_run_end(levels: Seq<u8>, order: Seq<usize>, level: u8, i: int) -> int
    decreases order.len() - i,
{
    if 0 <= i < order.len() && levels[order[i] as int] >= level {
        high_run_end(levels, order, level, i + 1)
    } else {
        i
    }
}

/// One pass of L2 from display position `i`: every maximal run at level
/// `level` or above is reversed.
pub open spec fn l2_pass(levels: Seq<u8>, order: Seq<usize>, level: u8, i: int) -> Seq<usize>
    decreases order.len() - i, 1int,
{
    if i < 0 || i >= order.len() {
        order
    } else if levels[order[i] as int] < level {
        l2_pass(levels, order, level, i + 1)
    } else {
        let e = high_run_end(levels, order, level, i);
        proof {
            lemma_high_run_end_bounds(levels, order, level, i);
        }
        l2_pass(levels, reversed_range(order, i, e), level, e)
    }
}

/// A run from `i` ends within the line, past `i` when `i` starts one.
pub proof fn lemma_high_run_end_bounds(levels: Seq<u8>, order: Seq<usize>, level: u8, i: int)
    requires
        0 <= i <= order.len(),
    ensures
        i <= high_run_end(levels, order, level, i) <= order.len(),
        i < order.len() && levels[order[i] as int] >= level ==> high_run_end(levels, order, level, i) > i,
    decreases order.len() - i,
{
    if i < order.len() && levels[order[i] as int] >= level {
        lemma_high_run_end_bounds(levels, order, level, i + 1);
    }
}

/// L2 from level `level` down to `min_odd`: each level's pass in turn.
pub open spec fn l2_from(levels: Seq<u8>, order: Seq<usize>, level: int, min_odd: int) -> Seq<usize>
    decreases level,
{
    if level < min_odd || level <= 0 || level > 255 {
        order
    } else {
        l2_from(levels, l2_pass(levels, order, level as u8, 0), level - 1, min_odd)
    }
}

/// The highest of the first `j` levels, or zero.
pub open spec fn max_level(levels: Seq<u8>, j: int) -> u8
    decreases j,
{
    if j <= 0 {
        0
    } else {
        let m = max_level(levels, j - 1);
        if levels[j - 1] > m {
            levels[j - 1]
        } else {
            m
        }
    }
}

/// The lowest odd one of the first `j` levels, or 256 when none is odd.
pub open spec fn min_odd_level(levels: Seq<u8>, j: int) -> int
    decreases j,
{
    if j <= 0 {
        256
    } else {
        let m = min_odd_level(levels, j - 1);
        if levels[j - 1] % 2 == 1 && levels[j - 1] < m {
            levels[j - 1] as int
        } else {
            m
        }
    }
}

/// Rule L2: from the highest level down to the lowest odd level, each
/// maximal run of characters at that level or above is reversed; the
/// characters in display order.
pub open spec fn spec_reorder_levels(levels: Seq<u8>) -> Seq<usize> {
    let n = levels.len() as int;
    let id = Seq::new(n as nat, |i: int| i as usize);
    if n == 0 || min_odd_level(levels, n) == 256 {
        id
    } else {
        l2_from(levels, id, max_level(levels, n) as int, min_odd_level(levels, n))
    }
}

/// L2 alone: from the highest level down to the lowest odd level, reverses
/// each maximal run at or above that level. Returns the positions in
/// display order.
pub fn reorder_levels(levels: &[u8]) -> (order: Vec<usize>)
    ensures
        is_permutation(order@, levels@.len() as int),
        (forall|i: int| 0 <= i < levels@.len() ==> #[trigger] levels@[i] % 2 == 0) ==> forall|i: int|
            0 <= i < levels@.len() ==> #[trigger] order@[i] == i,
        order@ == spec_reorder_levels(levels@),
{
    let n: usize = levels.len();
    let mut order: Vec<usize> = Vec::new();
    let mut k: usize = 0;
    while k < n
        invariant
            k <= n,
            n == levels@.len(),
            order@.len() == k,
            forall|i: int| 0 <= i < k ==> #[trigger] order@[i] == i,
        decreases n - k,
    {
        order.push(k);
        k = k + 1;
    }
    assert(order@ =~= Seq::new(n as nat, |i: int| i as usize));
    if n == 0 {
        return order;
    }
    let mut max: u8 = 0;
    let mut min_odd: u16 = 256;
    let mut j: usize = 0;
    while j < n
        invariant
            j <= n,
            n == levels@.len(),
            min_odd <= 256,
            min_odd < 256 ==> min_odd % 2 == 1,
            min_odd == 256 ==> forall|i: int| 0 <= i < j ==> #[trigger] levels@[i] % 2 == 0,
            min_odd < 256 ==> exists|i: int| 0 <= i < j && #[trigger] levels@[i] % 2 == 1,
            forall|i: int| 0 <= i < j ==> #[trigger] levels@[i] <= max,
            max == max_level(levels@, j as int),
            min_odd == min_odd_level(levels@, j as int),
            order@ == Seq::new(n as nat, |i: int| i as usize),
        decreases n - j,
    {
        let l: u8 = levels[j];
        if l > max {
            max = l;
        }
        if l % 2 == 1 && (l as u16) < min_odd {
            min_odd = l as u16;
        }
        j = j + 1;
    }
    if min_odd == 256 {
        return order;
    }
    let ghost goal = spec_reorder_levels(levels@);
    let mut level: u8 = max;
    while level as u16 >= min_odd && level > 0
        invariant
            is_permutation(order@, n as int),
            n == levels@.len(),
            exists|i: int| 0 <= i < n && #[trigger] levels@[i] % 2 == 1,
            min_odd == min_odd_level(levels@, n as int),
            min_odd < 256,
            l2_from(levels@, order@, level as int, min_odd as int) == goal,
        decreases level,
    {
        let ghost pass_start = order@;
        let mut i: usize = 0;
        while i < n
            invariant
                i <= n,
                is_permutation(order@, n as int),
                n == levels@.len(),
                l2_pass(levels@, order@, level, i as int) == l2_pass(levels@, pass_start, level, 0),
            decreases n - i,
        {
            if levels[order[i]] < level {
                i = i + 1;
            } else {
                let start: usize = i;
                let ghost o0 = order@;
                while i < n && levels[order[i]] >= level
                    invariant
                        start <= i <= n,
                        is_permutation(order@, n as int),
                        n == levels@.len(),
                        order@ == o0,
                        high_run_end(levels@, o0, level, start as int) == high_run_end(levels@, o0, level, i as int),
                    decreases n - i,
                {
                    i = i + 1;
                }
                let ghost before = order@;
                reverse_vec_range(&mut order, start, i);
                proof {
                    lemma_reverse_keeps_permutation(before, order@, start as int, i as int, n as int);
                    assert(order@ == reversed_range(before, start as int, i as int));
                }
            }
        }
        level = level - 1;
    }
    order
}

/// A resolved paragraph: its base level, the level of every character,
/// and the characters in display order.
#[derive(Debug, Clone)]
pub struct Paragraph {
    pub base_level: u8,
    pub levels: Vec<u8>,
    pub visual_order: Vec<usize>,
}

/// The runs `r` joined end to end.
pub open spec fn runs_concat(r: Seq<(&[usize], u8)>) -> Seq<usize>
    decreases r.len(),
{
    if r.len() == 0 {
        Seq::empty()
    } else {
        runs_concat(r.drop_last()) + r.last().0@
    }
}

/// A line in display order, cut into maximal runs of one level.
pub struct VisualRuns {
    indices: Vec<usize>,
    bounds: Vec<(usize, u8)>,
}

/// The level of the run that holds display position `p`: the first run
/// whose end lies past `p`, counting from the last.
pub open spec fn spec_level_at(bounds: Seq<(usize, u8)>, p: int) -> u8
    decreases bounds.len(),
{
    if bounds.len() == 0 {
        0
    } else if bounds.len() == 1 || p >= bounds[bounds.len() - 2].0 {
        bounds.last().1
    } else {
        spec_level_at(bounds.drop_last(), p)
    }
}

proof fn lemma_level_at_run(bounds: Seq<(usize, u8)>, k: int, p: int)
    requires
        0 <= k < bounds.len(),
        forall|i: int| 0 < i < bounds.len() ==> bounds[i - 1].0 < #[trigger] bounds[i].0,
        (if k == 0 {
            0
        } else {
            bounds[k - 1].0 as int
        }) <= p < bounds[k].0,
    ensures
        spec_level_at(bounds, p) == bounds[k].1,
    decreases bounds.len(),
{
    if k < bounds.len() - 1 {
        let d = bounds.drop_last();
        if k < bounds.len() - 2 {
            assert(bounds[k].0 < bounds[k + 1].0);
            lemma_increasing_ends(bounds, k + 1, bounds.len() - 2);
        }
        assert forall|i: int| 0 < i < d.len() implies d[i - 1].0 < #[trigger] d[i].0 by {
            assert(d[i] == bounds[i] && d[i - 1] == bounds[i - 1]);
        }
        lemma_level_at_run(d, k, p);
    }
}

proof fn lemma_increasing_ends(bounds: Seq<(usize, u8)>, a: int, b: int)
    requires
        0 <= a <= b < bounds.len(),
        forall|i: int| 0 < i < bounds.len() ==> bounds[i - 1].0 < #[trigger] bounds[i].0,
    ensures
        bounds[a].0 <= bounds[b].0,
    decreases b - a,
{
    if a < b {
        lemma_increasing_ends(bounds, a, b - 1);
        assert(bounds[b - 1].0 < bounds[b].0);
    }
}

impl VisualRuns {
    /// The shape of well-formed runs: there are runs exactly when there are
    /// characters; their ends increase, the first past zero and the last at
    /// the end of the line; neighbouring runs differ in level; and every
    /// display position of a run has the run's level.
    pub proof fn lemma_runs_shape(&self)
        requires
            self.wf(),
        ensures
            self.order().len() == 0 <==> self.run_count() == 0,
            self.run_count() > 0 ==> self.run_end(self.run_count() - 1) == self.order().len(),
            self.run_count() > 0 ==> self.run_end(0) > 0,
            forall|k: int| 0 < k < self.run_count() ==> self.run_end(k - 1) < #[trigger] self.run_end(k),
            forall|k: int| 0 < k < self.run_count() ==> self.run_level(k - 1) != #[trigger] self.run_level(k),
            forall|k: int, p: int|
                0 <= k < self.run_count() && (if k == 0 {
                    0
                } else {
                    self.run_end(k - 1)
                }) <= p < self.run_end(k) ==> #[trigger] self.level_at(p) == #[trigger] self.run_level(k),
    {
        assert forall|k: int, p: int|
            0 <= k < self.run_count() && (if k == 0 {
                0
            } else {
                self.run_end(k - 1)
            }) <= p < self.run_end(k) implies #[trigger] self.level_at(p) == #[trigger] self.run_level(k) by {
            lemma_level_at_run(self.bounds@, k, p);
        }
    }

    /// Where run `k` begins in display order.
    pub closed spec fn run_start(&self, k: int) -> int {
        if k == 0 {
            0
        } else {
            self.bounds@[k - 1].0 as int
        }
    }

    /// The characters in display order.
    pub closed spec fn order(&self) -> Seq<usize> {
        self.indices@
    }

    /// The level of display position `p`.
    pub closed spec fn level_at(&self, p: int) -> u8 {
        spec_level_at(self.bounds@, p)
    }

    /// Where run `k` ends in display order.
    pub closed spec fn run_end(&self, k: int) -> int {
        self.bounds@[k].0 as int
    }

    /// The level of run `k`.
    pub closed spec fn run_level(&self, k: int) -> u8 {
        self.bounds@[k].1
    }

    /// The number of runs.
    pub closed spec fn run_count(&self) -> nat {
        self.bounds@.len()
    }

    /// The runs end in increasing order, the last at the end of the line,
    /// and no two neighbouring runs share a level.
    pub closed spec fn wf(&self) -> bool {
        &&& self.indices@.len() == 0 <==> self.bounds@.len() == 0
        &&& self.bounds@.len() > 0 ==> self.bounds@.last().0 == self.indices@.len()
        &&& self.bounds@.len() > 0 ==> self.bounds@[0].0 > 0
        &&& forall|i: int| 0 < i < self.bounds@.len() ==> self.bounds@[i - 1].0 < #[trigger] self.bounds@[i].0
        &&& forall|i: int| 0 < i < self.bounds@.len() ==> self.bounds@[i - 1].1 != #[trigger] self.bounds@[i].1
    }

    fn empty() -> (r: VisualRuns)
        ensures
            r.wf(),
            r.order().len() == 0,
            r.run_count() == 0,
    {
        VisualRuns { indices: Vec::new(), bounds: Vec::new() }
    }

    /// Appends character `index` at level `level`, extending the last run
    /// when it has that level.
    fn push(&mut self, index: usize, level: u8)
        requires
            old(self).wf(),
            old(self).order().len() < usize::MAX,
        ensures
            final(self).wf(),
            final(self).order() == old(self).order().push(index),
            forall|p: int|
                0 <= p < old(self).order().len() ==> #[trigger] final(self).level_at(p) == old(self).level_at(p),
            final(self).level_at(old(self).order().len() as int) == level,
    {
        let n: usize = self.indices.len();
        let nb: usize = self.bounds.len();
        let ghost old_bounds = self.bounds@;
        if nb > 0 && self.bounds[nb - 1].1 == level {
            let end: usize = self.bounds[nb - 1].0;
            self.bounds.set(nb - 1, (end + 1, level));
            proof {
                lemma_extend_last_run(old_bounds, self.bounds@, n as int, level);
            }
        } else {
            self.bounds.push((n + 1, level));
            proof {
                lemma_open_run(old_bounds, self.bounds@, n as int, level);
            }
        }
        self.indices.push(index);
    }

    /// The runs in display order: the characters of each, and its level.
    #[verifier::spinoff_prover]
    #[verifier::rlimit(100)]
    pub fn iter(&self) -> (r: Vec<(&[usize], u8)>)
        requires
            self.wf(),
        ensures
            r@.len() == self.run_count(),
            forall|k: int|
                0 <= k < r@.len() ==> (#[trigger] r@[k]).1 == self.run_level(k) && r@[k].0@
                    == self.order().subrange(
                    if k == 0 {
                        0
                    } else {
                        self.run_end(k - 1)
                    },
                    self.run_end(k),
                ),
            runs_concat(r@) == self.order(),
            forall|k: int| 0 <= k < r@.len() ==> (#[trigger] r@[k]).0@.len() > 0,
            forall|k: int| 0 < k < r@.len() ==> r@[k - 1].1 != (#[trigger] r@[k]).1,
            forall|k: int, p: int|
                #![trigger self.level_at(p), r@[k]]
                0 <= k < r@.len() && self.run_start(k) <= p < self.run_end(k) ==> self.level_at(p)
                    == r@[k].1,
    {
        let mut out: Vec<(&[usize], u8)> = Vec::new();
        let all: &[usize] = self.indices.as_slice();
        let mut from: usize = 0;
        let mut k: usize = 0;
        while k < self.bounds.len()
            invariant
                self.wf(),
                k <= self.bounds@.len(),
                all@ == self.indices@,
                out@.len() == k,
                from == if k == 0 {
                    0
                } else {
                    self.bounds@[k - 1].0 as int
                },
                forall|m: int|
                    0 <= m < k ==> (#[trigger] out@[m]).1 == self.bounds@[m].1 && out@[m].0@
                        == self.indices@.subrange(
                        if m == 0 {
                            0
                        } else {
                            self.bounds@[m - 1].0 as int
                        },
                        self.bounds@[m].0 as int,
                    ),
                runs_concat(out@) == self.indices@.subrange(0, from as int),
            decreases self.bounds@.len() - k,
        {
            let (end, level) = self.bounds[k];
            proof {
                if k + 1 < self.bounds@.len() {
                    lemma_bounds_below_last(self.bounds@, k as int);
                }
            }
            let run: &[usize] = slice_range(all, from, end);
            let ghost prev = out@;
            out.push((run, level));
            proof {
                assert(out@.drop_last() == prev);
                assert(self.indices@.subrange(0, end as int) =~= self.indices@.subrange(0, from as int)
                    + self.indices@.subrange(from as int, end as int));
            }
            from = end;
            k = k + 1;
        }
        proof {
            assert forall|m: int| 0 <= m < out@.len() implies (#[trigger] out@[m]).0@.len() > 0 by {
                if m + 1 < self.bounds@.len() {
                    lemma_bounds_below_last(self.bounds@, m);
                }
                if m > 0 {
                    assert(self.bounds@[m - 1].0 < self.bounds@[m].0);
                }
            }
            assert forall|m: int| 0 < m < out@.len() implies out@[m - 1].1 != (#[trigger] out@[m]).1 by {
                assert(self.bounds@[m - 1].1 != self.bounds@[m].1);
            }
            self.lemma_runs_shape();
            assert forall|m: int, p: int|
                0 <= m < out@.len() && self.run_start(m) <= p < self.run_end(m) implies #[trigger] self.level_at(p)
                == (#[trigger] out@[m]).1 by {
                assert(out@[m].1 == self.run_level(m));
                assert(self.level_at(p) == self.run_level(m));
            }
            if k > 0 {
                assert(self.indices@.subrange(0, from as int) =~= self.indices@);
            } else {
                assert(self.indices@.len() == 0);
                assert(self.indices@.subrange(0, 0) =~= self.indices@);
            }
        }
        out
    }
}

/// Extending the last run keeps the level of every earlier position and
/// gives the new one the run's level.
proof fn lemma_extend_last_run(before: Seq<(usize, u8)>, after: Seq<(usize, u8)>, n: int, level: u8)
    requires
        before.len() > 0,
        before.last().1 == level,
        before.last().0 == n,
        n + 1 <= usize::MAX,
        forall|i: int| 0 < i < before.len() ==> before[i - 1].0 < #[trigger] before[i].0,
        after == before.update(before.len() - 1, ((n + 1) as usize, level)),
    ensures
        forall|p: int| 0 <= p < n ==> #[trigger] spec_level_at(after, p) == spec_level_at(before, p),
        spec_level_at(after, n) == level,
        after.last().0 == n + 1,
        forall|i: int| 0 < i < after.len() ==> after[i - 1].0 < #[trigger] after[i].0,
        forall|i: int| 0 < i < after.len() ==> #[trigger] after[i].1 == before[i].1,
        forall|i: int| 0 <= i < after.len() - 1 ==> #[trigger] after[i] == before[i],
{
    assert(after.drop_last() =~= before.drop_last());
    assert forall|i: int| 0 < i < after.len() implies after[i - 1].0 < #[trigger] after[i].0 by {
        if i == after.len() - 1 {
            assert(before[i - 1].0 < before[i].0);
        }
    }
}

/// Opening a new run keeps the level of every earlier position and gives
/// the new one its level.
proof fn lemma_open_run(before: Seq<(usize, u8)>, after: Seq<(usize, u8)>, n: int, level: u8)
    requires
        before.len() > 0 ==> before.last().0 == n,
        before.len() == 0 ==> n == 0,
        after == before.push(((n + 1) as usize, level)),
    ensures
        forall|p: int| 0 <= p < n ==> #[trigger] spec_level_at(after, p) == spec_level_at(before, p),
        spec_level_at(after, n) == level,
{
    assert(after.drop_last() =~= before);
}

/// Run ends grow, so each lies at or below the last.
proof fn lemma_bounds_below_last(bounds: Seq<(usize, u8)>, k: int)
    requires
        0 <= k < bounds.len(),
        forall|i: int| 0 < i < bounds.len() ==> bounds[i - 1].0 < #[trigger] bounds[i].0,
    ensures
        bounds[k].0 <= bounds.last().0,
    decreases bounds.len() - k,
{
    if k + 1 < bounds.len() {
        lemma_bounds_below_last(bounds, k + 1);
    }
}

/// `s[from .. to]`.
fn slice_range(s: &[usize], from: usize, to: usize) -> (r: &[usize])
    requires
        from <= to <= s@.len(),
    ensures
        r@ == s@.subrange(from as int, to as int),
{
    &s[from..to]
}

/// The runs of a whole paragraph, in its display order.
pub fn visual_runs(p: &Paragraph) -> (r: VisualRuns)
    ensures
        r.wf(),
        r.order() == p.visual_order@,
        forall|k: int|
            0 <= k < r.order().len() ==> #[trigger] r.level_at(k) == if p.visual_order@[k]
                < p.levels@.len() {
                p.levels@[p.visual_order@[k] as int]
            } else {
                p.base_level
            },
{
    let mut out = VisualRuns::empty();
    let mut k: usize = 0;
    while k < p.visual_order.len()
        invariant
            k <= p.visual_order@.len(),
            out.wf(),
            out.order() == p.visual_order@.subrange(0, k as int),
            forall|m: int|
                0 <= m < k ==> #[trigger] out.level_at(m) == if p.visual_order@[m] < p.levels@.len() {
                    p.levels@[p.visual_order@[m] as int]
                } else {
                    p.base_level
                },
        decreases p.visual_order@.len() - k,
    {
        let i: usize = p.visual_order[k];
        let level: u8 = if i < p.levels.len() {
            p.levels[i]
        } else {
            p.base_level
        };
        out.push(i, level);
        assert(p.visual_order@.subrange(0, k + 1) =~= p.visual_order@.subrange(0, k as int).push(i));
        k = k + 1;
    }
    assert(p.visual_order@.subrange(0, k as int) =~= p.visual_order@);
    out
}

/// L1's last clause: classes reset to the paragraph level when they end a
/// line.
pub open spec fn spec_resettable(c: Class) -> bool {
    c == Class::WS || c == Class::LRI || c == Class::RLI || c == Class::FSI || c == Class::PDI
        || c.spec_is_removed_by_x9()
}

/// The start, within the line `start .. start + j`, of its trailing run of
/// resettable classes.
pub open spec fn spec_trailing_start(cs: Seq<Class>, start: int, j: int) -> int
    decreases j,
{
    if j > 0 && spec_resettable(cs[start + j - 1]) {
        spec_trailing_start(cs, start, j - 1)
    } else {
        j
    }
}

/// The levels of a line: those of the paragraph, with the trailing
/// whitespace and isolate controls back at the paragraph level.
pub open spec fn spec_line_level(base_level: u8, para_levels: Seq<u8>, cs: Seq<Class>, start: int, end: int, k: int) -> u8 {
    if k >= spec_trailing_start(cs, start, end - start) {
        base_level
    } else {
        para_levels[start + k]
    }
}

/// The levels of the line `start .. end` after L1.
pub open spec fn line_levels(base_level: u8, para_levels: Seq<u8>, cs: Seq<Class>, start: int, end: int) -> Seq<u8> {
    Seq::new((end - start) as nat, |m: int| spec_line_level(base_level, para_levels, cs, start, end, m))
}

/// The display order of the line `start .. end`, counted from its start:
/// L2 over the line's levels after L1.
pub open spec fn line_order(base_level: u8, para_levels: Seq<u8>, cs: Seq<Class>, start: int, end: int) -> Seq<usize> {
    spec_reorder_levels(line_levels(base_level, para_levels, cs, start, end))
}

/// The runs of the line `start .. end` of a paragraph, in display order;
/// `classes` are the original classes of the paragraph's characters.
#[verifier::spinoff_prover]
pub fn line_visual_runs(base_level: u8, para_levels: &[u8], classes: &[Class], start: usize, end: usize) -> (r: VisualRuns)
    ensures
        r.wf(),
        (start >= end || end > para_levels@.len() || end > classes@.len()) ==> r.order().len() == 0
            && r.run_count() == 0,
        !(start >= end || end > para_levels@.len() || end > classes@.len()) ==> is_permutation(
            line_order(base_level, para_levels@, classes@, start as int, end as int),
            end - start,
        ),
        !(start >= end || end > para_levels@.len() || end > classes@.len()) ==> r.order().len() == end - start,
        !(start >= end || end > para_levels@.len() || end > classes@.len()) ==> forall|k: int|
            0 <= k < end - start ==> #[trigger] r.order()[k] == start + line_order(
                base_level,
                para_levels@,
                classes@,
                start as int,
                end as int,
            )[k],
        !(start >= end || end > para_levels@.len() || end > classes@.len()) ==> forall|k: int|
            0 <= k < end - start ==> #[trigger] r.level_at(k) == spec_line_level(
                base_level,
                para_levels@,
                classes@,
                start as int,
                end as int,
                line_order(base_level, para_levels@, classes@, start as int, end as int)[k] as int,
            ),
{
    let mut out = VisualRuns::empty();
    if start >= end || end > para_levels.len() || end > classes.len() {
        return out;
    }
    let n: usize = end - start;
    let mut levels: Vec<u8> = Vec::new();
    let mut k: usize = 0;
    while k < n
        invariant
            k <= n,
            n == end - start,
            end <= para_levels@.len(),
            levels@.len() == k,
            forall|m: int| 0 <= m < k ==> #[trigger] levels@[m] == para_levels@[start + m],
        decreases n - k,
    {
        levels.push(para_levels[start + k]);
        k = k + 1;
    }
    let mut j: usize = n;
    while j > 0 && is_resettable(classes[start + j - 1])
        invariant
            j <= n,
            n == end - start,
            end <= classes@.len(),
            levels@.len() == n,
            spec_trailing_start(classes@, start as int, n as int) == spec_trailing_start(
                classes@,
                start as int,
                j as int,
            ),
            forall|m: int| 0 <= m < j ==> #[trigger] levels@[m] == para_levels@[start + m],
            forall|m: int| j <= m < n ==> #[trigger] levels@[m] == base_level,
        decreases j,
    {
        j = j - 1;
        levels.set(j, base_level);
    }
    assert forall|m: int| 0 <= m < n implies #[trigger] levels@[m] == spec_line_level(
        base_level,
        para_levels@,
        classes@,
        start as int,
        end as int,
        m,
    ) by {}
    assert(levels@ =~= line_levels(base_level, para_levels@, classes@, start as int, end as int));
    let order: Vec<usize> = reorder_levels(levels.as_slice());
    let mut i: usize = 0;
    while i < n
        invariant
            i <= n,
            n == end - start,
            start + n <= usize::MAX,
            levels@.len() == n,
            is_permutation(order@, n as int),
            out.wf(),
            out.order().len() == i,
            forall|m: int| 0 <= m < n ==> #[trigger] levels@[m] == spec_line_level(
                base_level,
                para_levels@,
                classes@,
                start as int,
                end as int,
                m,
            ),
            forall|m: int|
                0 <= m < i ==> #[trigger] out.order()[m] == start + order@[m] && out.level_at(m)
                    == levels@[order@[m] as int],
        decreases n - i,
    {
        let at: usize = order[i];
        out.push(start + at, levels[at]);
        i = i + 1;
    }
    assert forall|m: int| 0 <= m < n implies #[trigger] out.order()[m] == start + order@[m]
        && out.level_at(m) == spec_line_level(
        base_level,
        para_levels@,
        classes@,
        start as int,
        end as int,
        order@[m] as int,
    ) by {
        let at = order@[m] as int;
        assert(0 <= at < n);
        assert(out.order()[m] == start + order@[m]);
        assert(out.level_at(m) == levels@[at]);
        assert(levels@[at] == spec_line_level(base_level, para_levels@, classes@, start as int, end as int, at));
    }
    assert(is_permutation(order@, n as int));
    let ghost ll = line_order(base_level, para_levels@, classes@, start as int, end as int);
    assert(order@ == ll);
    assert(out.order().len() == n);
    assert forall|k: int| 0 <= k < end - start implies #[trigger] out.order()[k] == start + line_order(
        base_level,
        para_levels@,
        classes@,
        start as int,
        end as int,
    )[k] && out.level_at(k) == spec_line_level(
        base_level,
        para_levels@,
        classes@,
        start as int,
        end as int,
        line_order(base_level, para_levels@, classes@, start as int, end as int)[k] as int,
    ) by {
        assert(out.order()[k] == start + order@[k]);
        assert(ll[k] == order@[k]);
    }
    assert forall|k: int| 0 <= k < end - start implies #[trigger] out.level_at(k) == spec_line_level(
        base_level,
        para_levels@,
        classes@,
        start as int,
        end as int,
        line_order(base_level, para_levels@, classes@, start as int, end as int)[k] as int,
    ) by {
        assert(out.order()[k] == start + order@[k]);
    }
    out
}

/// Whether a class is reset to the paragraph level at the end of a line.
fn is_resettable(c: Class) -> (r: bool)
    ensures
        r == spec_resettable(c),
{
    matches!(c, Class::WS | Class::LRI | Class::RLI | Class::FSI | Class::PDI) || c.is_removed_by_x9()
}

/// The bracket pairing of a character, as rule N0 reads it: an opening
/// bracket with the key of the bracket that closes it, a closing bracket
/// with its own key, or no bracket.
#[derive(Clone, Copy, PartialEq, Eq, Structural, Debug)]
pub enum Bracket {
    Not,
    Open(u32),
    Close(u32),
}

/// The canonical form of a bracket: the CJK angle brackets pair with the
/// old mathematical ones.
pub open spec fn spec_canonical_bracket(c: u32) -> u32 {
    if c == 0x3008 {
        0x2329
    } else if c == 0x3009 {
        0x232A
    } else {
        c
    }
}

fn canonical_bracket(c: char) -> (r: u32)
    ensures
        r == spec_canonical_bracket(c as u32),
{
    let v: u32 = c as u32;
    if v == 0x3008 {
        0x2329
    } else if v == 0x3009 {
        0x232A
    } else {
        v
    }
}

/// The bracket pairing of `c`, from its entry in the bracket table: the
/// paired bracket and whether `c` opens.
pub fn bracket_of(c: char, entry: Option<(u32, bool)>) -> (r: Bracket)
    ensures
        r == match entry {
            None => Bracket::Not,
            Some((paired, is_open)) => if !(paired < 0xD800 || (0xE000 <= paired <= 0x10FFFF)) {
                Bracket::Not
            } else if is_open {
                Bracket::Open(spec_canonical_bracket(paired))
            } else {
                Bracket::Close(spec_canonical_bracket(c as u32))
            },
        },
{
    match entry {
        None => Bracket::Not,
        Some((paired, is_open)) => match char_from_u32(paired) {
            None => Bracket::Not,
            Some(p) => if is_open {
                Bracket::Open(canonical_bracket(p))
            } else {
                Bracket::Close(canonical_bracket(c))
            },
        },
    }
}

/// The embedding state of one level of the directional status stack.
#[derive(Clone, Copy)]
pub struct Status {
    pub level: u8,
    pub override_status: Option<Class>,
    pub isolate: bool,
}

/// The level that opening an embedding or isolate of the given direction
/// on top of `last` asks for: the next odd level for right-to-left, the
/// next even one for left-to-right.
pub open spec fn spec_next_level(last: u8, rtl: bool) -> int {
    if rtl {
        if last % 2 == 0 {
            last + 1
        } else {
            last + 2
        }
    } else if last % 2 == 0 {
        last + 2
    } else {
        last + 1
    }
}

fn next_level(last: u8, rtl: bool) -> (r: u8)
    requires
        last <= MAX_DEPTH,
    ensures
        r == spec_next_level(last, rtl),
        last < r <= last + 2,
{
    if rtl {
        let up: u8 = last + 1;
        let r: u8 = up | 1;
        assert(r == if last % 2 == 0 { last + 1 } else { last + 2 }) by (bit_vector)
            requires
                last <= 125u8,
                up == last + 1,
                r == up | 1u8,
        ;
        r
    } else {
        let up: u8 = last + 2;
        let r: u8 = up & !1u8;
        assert(r == if last % 2 == 0 { last + 2 } else { last + 1 }) by (bit_vector)
            requires
                last <= 125u8,
                up == last + 2,
                r == up & !1u8,
        ;
        r
    }
}

/// A stack entry lies between the base level and the deepest level, and
/// overrides only to a strong direction.
spec fn status_ok(st: Status, base_level: u8) -> bool {
    &&& base_level <= st.level <= MAX_DEPTH
    &&& (st.override_status is None || st.override_status == Some(Class::L)
        || st.override_status == Some(Class::R))
}

/// The top of the stack, or the base level with nothing overridden.
fn top(stack: &Vec<Status>, base_level: u8) -> (r: Status)
    requires
        forall|k: int| 0 <= k < stack@.len() ==> status_ok(#[trigger] stack@[k], base_level),
        base_level <= 1,
    ensures
        status_ok(r, base_level),
        stack@.len() > 0 ==> r == stack@.last(),
        stack@.len() == 0 ==> r.level == base_level && r.override_status is None,
{
    let n: usize = stack.len();
    if n > 0 {
        stack[n - 1]
    } else {
        Status { level: base_level, override_status: None, isolate: false }
    }
}

/// The entry on top of the directional status stack, or the base level
/// with nothing overridden when it is empty.
pub open spec fn stack_top(stack: Seq<Status>, base_level: u8) -> Status {
    if stack.len() > 0 {
        stack.last()
    } else {
        Status { level: base_level, override_status: None, isolate: false }
    }
}

/// X6a: the stack with every entry above the last isolate popped, and
/// that isolate too.
pub open spec fn pop_through_isolate(stack: Seq<Status>) -> Seq<Status>
    decreases stack.len(),
{
    if stack.len() == 0 {
        stack
    } else if stack.last().isolate {
        stack.drop_last()
    } else {
        pop_through_isolate(stack.drop_last())
    }
}

/// The state of rules X1–X8 between two characters: the directional
/// status stack, and the overflow isolate, overflow embedding and valid
/// isolate counts.
pub type ExplicitState = (Seq<Status>, int, int, int);

/// Rules X2–X8 at position `i`: the state after it, its level, and its
/// class after an override.
pub open spec fn explicit_step(cs: Seq<Class>, i: int, st: ExplicitState, base_level: u8) -> (ExplicitState, u8, Class) {
    let (stack, oi, oe, vi) = st;
    let c = cs[i];
    let top = stack_top(stack, base_level);
    let res = match top.override_status {
        Some(o) => o,
        None => c,
    };
    if c == Class::RLE || c == Class::LRE || c == Class::RLO || c == Class::LRO {
        let next = spec_next_level(top.level, c == Class::RLE || c == Class::RLO);
        let st2 = if next <= MAX_DEPTH && oi == 0 && oe == 0 {
            (
                stack.push(
                    Status {
                        level: next as u8,
                        override_status: if c == Class::RLO {
                            Some(Class::R)
                        } else if c == Class::LRO {
                            Some(Class::L)
                        } else {
                            None
                        },
                        isolate: false,
                    },
                ),
                oi,
                oe,
                vi,
            )
        } else if oi == 0 {
            (stack, oi, oe + 1, vi)
        } else {
            st
        };
        (st2, top.level, res)
    } else if c.spec_is_isolate_initiator() {
        let rtl = if c == Class::RLI {
            true
        } else if c == Class::LRI {
            false
        } else {
            spec_paragraph_level(cs, i + 1, spec_matching_pdi(cs, i + 1, 1), 0) == 1
        };
        let next = spec_next_level(top.level, rtl);
        let st2 = if next <= MAX_DEPTH && oi == 0 && oe == 0 {
            (stack.push(Status { level: next as u8, override_status: None, isolate: true }), oi, oe, vi + 1)
        } else {
            (stack, oi + 1, oe, vi)
        };
        (st2, top.level, res)
    } else if c == Class::PDI {
        let st2 = if oi > 0 {
            (stack, oi - 1, oe, vi)
        } else if vi > 0 {
            (pop_through_isolate(stack), oi, 0, vi - 1)
        } else {
            st
        };
        let top2 = stack_top(st2.0, base_level);
        (
            st2,
            top2.level,
            match top2.override_status {
                Some(o) => o,
                None => c,
            },
        )
    } else if c == Class::PDF {
        let st2 = if oi > 0 {
            st
        } else if oe > 0 {
            (stack, oi, oe - 1, vi)
        } else if stack.len() >= 2 && !stack.last().isolate {
            (stack.drop_last(), oi, oe, vi)
        } else {
            st
        };
        (st2, top.level, c)
    } else if c == Class::B {
        (
            (if stack.len() > 1 {
                stack.take(1)
            } else {
                stack
            }, 0, 0, 0),
            base_level,
            c,
        )
    } else {
        (st, top.level, res)
    }
}

/// Rules X1–X8 over the first `n` classes: the state after them, and the
/// level and class they give each position.
pub open spec fn explicit_run(cs: Seq<Class>, base_level: u8, n: int) -> (ExplicitState, Seq<u8>, Seq<Class>)
    decreases n,
{
    if n <= 0 {
        ((seq![Status { level: base_level, override_status: None, isolate: false }], 0, 0, 0), Seq::empty(), Seq::empty())
    } else {
        let prev = explicit_run(cs, base_level, n - 1);
        let step = explicit_step(cs, n - 1, prev.0, base_level);
        (step.0, prev.1.push(step.1), prev.2.push(step.2))
    }
}

/// What rules X1–X8 leave at one position: a level between the base level
/// and the deepest level, the base level for a paragraph separator, and
/// the original class unless an override made it strong (never for a
/// paragraph separator or a PDF).
pub open spec fn spec_explicit_ok(c: Class, level: u8, res: Class, base_level: u8) -> bool {
    &&& base_level <= level <= MAX_DEPTH
    &&& c == Class::B ==> level == base_level
    &&& (res == c || res == Class::L || res == Class::R)
    &&& (c == Class::B || c == Class::PDF) ==> res == c
}

/// X1–X8: explicit embeddings, overrides and isolates. Every position gets
/// the level of the embedding it sits in; an override makes its
/// characters strong.
pub fn explicit_levels(classes: &[Class], base_level: u8, levels: &mut Vec<u8>, result: &mut Vec<Class>)
    requires
        base_level <= 1,
        old(levels)@.len() == classes@.len(),
        old(result)@ == classes@,
    ensures
        final(levels)@.len() == classes@.len(),
        final(result)@.len() == classes@.len(),
        forall|i: int|
            0 <= i < classes@.len() ==> spec_explicit_ok(
                classes@[i],
                #[trigger] final(levels)@[i],
                final(result)@[i],
                base_level,
            ),
        final(levels)@ == explicit_run(classes@, base_level, classes@.len() as int).1,
        final(result)@ == explicit_run(classes@, base_level, classes@.len() as int).2,
{
    let n: usize = classes.len();
    let mut stack: Vec<Status> = Vec::new();
    stack.push(Status { level: base_level, override_status: None, isolate: false });
    let mut overflow_isolate: usize = 0;
    let mut overflow_embedding: usize = 0;
    let mut valid_isolate: usize = 0;
    let mut i: usize = 0;
    while i < n
        invariant
            i <= n,
            n == classes@.len(),
            base_level <= 1,
            levels@.len() == n,
            result@.len() == n,
            overflow_isolate <= i,
            overflow_embedding <= i,
            valid_isolate <= i,
            stack@.len() <= i + 1,
            forall|k: int| 0 <= k < stack@.len() ==> status_ok(#[trigger] stack@[k], base_level),
            forall|j: int|
                0 <= j < i ==> spec_explicit_ok(
                    classes@[j],
                    #[trigger] levels@[j],
                    result@[j],
                    base_level,
                ),
            forall|j: int| i <= j < n ==> #[trigger] result@[j] == classes@[j],
            (stack@, overflow_isolate as int, overflow_embedding as int, valid_isolate as int) == explicit_run(
                classes@,
                base_level,
                i as int,
            ).0,
            levels@.take(i as int) == explicit_run(classes@, base_level, i as int).1,
            result@.take(i as int) == explicit_run(classes@, base_level, i as int).2,
        decreases n - i,
    {
        let class: Class = classes[i];
        let ghost st0 = (stack@, overflow_isolate as int, overflow_embedding as int, valid_isolate as int);
        let ghost lv0 = levels@;
        let ghost rs0 = result@;
        let ghost step = explicit_step(classes@, i as int, st0, base_level);
        match class {
            Class::RLE | Class::LRE | Class::RLO | Class::LRO => {
                let last: Status = top(&stack, base_level);
                levels.set(i, last.level);
                if let Some(o) = last.override_status {
                    result.set(i, o);
                }
                let rtl: bool = matches!(class, Class::RLE | Class::RLO);
                let next: u8 = next_level(last.level, rtl);
                if next <= MAX_DEPTH && overflow_isolate == 0 && overflow_embedding == 0 {
                    let ov: Option<Class> = match class {
                        Class::RLO => Some(Class::R),
                        Class::LRO => Some(Class::L),
                        _ => None,
                    };
                    stack.push(Status { level: next, override_status: ov, isolate: false });
                } else if overflow_isolate == 0 {
                    overflow_embedding = overflow_embedding + 1;
                }
            },
            Class::RLI | Class::LRI | Class::FSI => {
                let rtl: bool = match class {
                    Class::RLI => true,
                    Class::LRI => false,
                    _ => {
                        let close: usize = matching_pdi(classes, i);
                        paragraph_level(classes, i + 1, close) == 1
                    },
                };
                let last: Status = top(&stack, base_level);
                levels.set(i, last.level);
                if let Some(o) = last.override_status {
                    result.set(i, o);
                }
                let next: u8 = next_level(last.level, rtl);
                if next <= MAX_DEPTH && overflow_isolate == 0 && overflow_embedding == 0 {
                    valid_isolate = valid_isolate + 1;
                    stack.push(Status { level: next, override_status: None, isolate: true });
                } else {
                    overflow_isolate = overflow_isolate + 1;
                }
            },
            Class::PDI => {
                if overflow_isolate > 0 {
                    overflow_isolate = overflow_isolate - 1;
                } else if valid_isolate > 0 {
                    overflow_embedding = 0;
                    let ghost goal = pop_through_isolate(stack@);
                    while stack.len() > 0 && !stack[stack.len() - 1].isolate
                        invariant
                            forall|k: int| 0 <= k < stack@.len() ==> status_ok(#[trigger] stack@[k], base_level),
                            stack@.len() <= i + 1,
                            pop_through_isolate(stack@) == goal,
                        decreases stack@.len(),
                    {
                        stack.pop();
                    }
                    if stack.len() > 0 {
                        stack.pop();
                    }
                    valid_isolate = valid_isolate - 1;
                }
                let last: Status = top(&stack, base_level);
                levels.set(i, last.level);
                if let Some(o) = last.override_status {
                    result.set(i, o);
                }
            },
            Class::PDF => {
                let last: Status = top(&stack, base_level);
                levels.set(i, last.level);
                if overflow_isolate > 0 {
                } else if overflow_embedding > 0 {
                    overflow_embedding = overflow_embedding - 1;
                } else if stack.len() >= 2 && !stack[stack.len() - 1].isolate {
                    stack.pop();
                }
            },
            Class::B => {
                stack.truncate(1);
                overflow_isolate = 0;
                overflow_embedding = 0;
                valid_isolate = 0;
                levels.set(i, base_level);
            },
            _ => {
                let last: Status = top(&stack, base_level);
                levels.set(i, last.level);
                if let Some(o) = last.override_status {
                    result.set(i, o);
                }
            },
        }
        proof {
            assert((stack@, overflow_isolate as int, overflow_embedding as int, valid_isolate as int) == step.0);
            assert(levels@[i as int] == step.1);
            assert(result@[i as int] == step.2);
            assert(levels@.take(i + 1) =~= lv0.take(i as int).push(step.1));
            assert(result@.take(i + 1) =~= rs0.take(i as int).push(step.2));
        }
        i = i + 1;
    }
    proof {
        assert(levels@.take(n as int) =~= levels@);
        assert(result@.take(n as int) =~= result@);
    }
}

/// An isolating run sequence: the positions it strings together, its
/// embedding level, and the classes before its start and after its end.
pub struct Sequence {
    pub indices: Vec<usize>,
    pub level: u8,
    pub sos: Class,
    pub eos: Class,
}

/// A sequence has positions, in increasing order, each within the
/// paragraph and none removed by X9, and strong classes at both ends.
pub open spec fn seq_ok(q: Sequence, cs: Seq<Class>) -> bool {
    &&& q.indices@.len() > 0
    &&& forall|k: int|
        0 <= k < q.indices@.len() ==> #[trigger] q.indices@[k] < cs.len()
            && !cs[q.indices@[k] as int].spec_is_removed_by_x9()
    &&& forall|a: int, b: int| 0 <= a < b < q.indices@.len() ==> q.indices@[a] < q.indices@[b]
    &&& (q.sos == Class::L || q.sos == Class::R)
    &&& (q.eos == Class::L || q.eos == Class::R)
}

/// The number of positions of `kept`, from `i` on, before the first one
/// that is not below `at` (or, with `or_equal`, not at or below it).
pub open spec fn spec_partition_point(kept: Seq<usize>, at: usize, or_equal: bool, i: int) -> int
    decreases kept.len() - i,
{
    if i < 0 || i >= kept.len() {
        kept.len() as int
    } else if kept[i] < at || (or_equal && kept[i] == at) {
        spec_partition_point(kept, at, or_equal, i + 1)
    } else {
        i
    }
}

proof fn lemma_partition_point_bounds(kept: Seq<usize>, at: usize, or_equal: bool, i: int)
    requires
        0 <= i <= kept.len(),
    ensures
        i <= spec_partition_point(kept, at, or_equal, i) <= kept.len(),
    decreases kept.len() - i,
{
    if i < kept.len() {
        lemma_partition_point_bounds(kept, at, or_equal, i + 1);
    }
}

fn partition_point(kept: &Vec<usize>, at: usize, or_equal: bool) -> (r: usize)
    ensures
        r == spec_partition_point(kept@, at, or_equal, 0),
        r <= kept@.len(),
{
    proof {
        lemma_partition_point_bounds(kept@, at, or_equal, 0);
    }
    let mut i: usize = 0;
    while i < kept.len() && (kept[i] < at || (or_equal && kept[i] == at))
        invariant
            i <= kept@.len(),
            spec_partition_point(kept@, at, or_equal, 0) == spec_partition_point(
                kept@,
                at,
                or_equal,
                i as int,
            ),
        decreases kept@.len() - i,
    {
        i = i + 1;
    }
    i
}

/// The level of the last kept position before `at`, or `base` when there
/// is none.
fn prev_kept_level(kept: &Vec<usize>, levels: &[u8], at: usize, base: u8) -> (r: u8)
    requires
        forall|k: int| 0 <= k < kept@.len() ==> #[trigger] kept@[k] < levels@.len(),
    ensures
        r == if spec_partition_point(kept@, at, false, 0) == 0 {
            base
        } else {
            levels@[kept@[spec_partition_point(kept@, at, false, 0) - 1] as int]
        },
{
    let p: usize = partition_point(kept, at, false);
    if p == 0 {
        base
    } else {
        levels[kept[p - 1]]
    }
}

/// The level of the first kept position after `at`, or `base` when there
/// is none.
fn next_kept_level(kept: &Vec<usize>, levels: &[u8], at: usize, base: u8) -> (r: u8)
    requires
        forall|k: int| 0 <= k < kept@.len() ==> #[trigger] kept@[k] < levels@.len(),
    ensures
        r == if spec_partition_point(kept@, at, true, 0) >= kept@.len() {
            base
        } else {
            levels@[kept@[spec_partition_point(kept@, at, true, 0)] as int]
        },
{
    let p: usize = partition_point(kept, at, true);
    if p < kept.len() {
        levels[kept[p]]
    } else {
        base
    }
}

/// The number of unset flags.
pub open spec fn count_false(s: Seq<bool>) -> nat
    decreases s.len(),
{
    if s.len() == 0 {
        0
    } else {
        count_false(s.drop_last()) + if s.last() {
            0nat
        } else {
            1nat
        }
    }
}

proof fn lemma_count_false_set(s: Seq<bool>, i: int)
    requires
        0 <= i < s.len(),
        !s[i],
    ensures
        count_false(s.update(i, true)) + 1 == count_false(s),
    decreases s.len(),
{
    if i == s.len() - 1 {
        assert(s.update(i, true).drop_last() =~= s.drop_last());
    } else {
        assert(s.update(i, true).drop_last() =~= s.drop_last().update(i, true));
        lemma_count_false_set(s.drop_last(), i);
    }
}

/// The level run whose first kept position is `at`.
fn run_starting_at(runs: &Vec<(usize, usize)>, kept: &Vec<usize>, at: usize) -> (r: Option<usize>)
    requires
        forall|q: int| 0 <= q < runs@.len() ==> (#[trigger] runs@[q]).0 < kept@.len(),
    ensures
        r matches Some(q) ==> q < runs@.len() && kept@[runs@[q as int].0 as int] == at,
        r is None ==> forall|q: int| 0 <= q < runs@.len() ==> kept@[(#[trigger] runs@[q]).0 as int] != at,
{
    let mut q: usize = 0;
    while q < runs.len()
        invariant
            q <= runs@.len(),
            forall|p: int| 0 <= p < runs@.len() ==> (#[trigger] runs@[p]).0 < kept@.len(),
            forall|p: int| 0 <= p < q ==> kept@[(#[trigger] runs@[p]).0 as int] != at,
        decreases runs@.len() - q,
    {
        if kept[runs[q].0] == at {
            return Some(q);
        }
        q = q + 1;
    }
    None
}

/// BD13: the isolating run sequences of a paragraph. Level runs of the
/// positions that X9 keeps are chained from an isolate initiator to the
/// run that starts with its matching PDI.
fn isolating_run_sequences(classes: &[Class], levels: &[u8], base_level: u8) -> (out: Vec<Sequence>)
    requires
        levels@.len() == classes@.len(),
    ensures
        forall|q: int| 0 <= q < out@.len() ==> seq_ok(#[trigger] out@[q], classes@),
{
    let n: usize = classes.len();
    let mut kept: Vec<usize> = Vec::new();
    let mut i: usize = 0;
    while i < n
        invariant
            i <= n,
            n == classes@.len(),
            forall|k: int|
                0 <= k < kept@.len() ==> #[trigger] kept@[k] < i && !classes@[kept@[k] as int].spec_is_removed_by_x9(),
            forall|a: int, b: int| 0 <= a < b < kept@.len() ==> kept@[a] < kept@[b],
        decreases n - i,
    {
        if !classes[i].is_removed_by_x9() {
            kept.push(i);
        }
        i = i + 1;
    }
    let mut runs: Vec<(usize, usize)> = Vec::new();
    let mut at: usize = 0;
    while at < kept.len()
        invariant
            at <= kept@.len(),
            n == classes@.len(),
            levels@.len() == n,
            forall|k: int| 0 <= k < kept@.len() ==> #[trigger] kept@[k] < n,
            forall|q: int| 0 <= q < runs@.len() ==> (#[trigger] runs@[q]).0 < runs@[q].1 <= at,
            forall|a: int, b: int| 0 <= a < b < kept@.len() ==> kept@[a] < kept@[b],
        decreases kept@.len() - at,
    {
        let k: usize = kept[at];
        let nr: usize = runs.len();
        if nr > 0 && levels[kept[runs[nr - 1].0]] == levels[k] {
            let a: usize = runs[nr - 1].0;
            runs.set(nr - 1, (a, at + 1));
        } else {
            runs.push((at, at + 1));
        }
        at = at + 1;
    }
    let mut used: Vec<bool> = Vec::new();
    let mut u: usize = 0;
    while u < runs.len()
        invariant
            u <= runs@.len(),
            used@.len() == u,
            forall|k: int| 0 <= k < u ==> !(#[trigger] used@[k]),
        decreases runs@.len() - u,
    {
        used.push(false);
        u = u + 1;
    }
    let mut out: Vec<Sequence> = Vec::new();
    let mut start: usize = 0;
    while start < runs.len()
        invariant
            start <= runs@.len(),
            used@.len() == runs@.len(),
            n == classes@.len(),
            levels@.len() == n,
            forall|k: int|
                0 <= k < kept@.len() ==> #[trigger] kept@[k] < n && !classes@[kept@[k] as int].spec_is_removed_by_x9(),
            forall|q: int| 0 <= q < runs@.len() ==> (#[trigger] runs@[q]).0 < runs@[q].1 <= kept@.len(),
            forall|q: int| 0 <= q < out@.len() ==> seq_ok(#[trigger] out@[q], classes@),
            forall|a: int, b: int| 0 <= a < b < kept@.len() ==> kept@[a] < kept@[b],
        decreases runs@.len() - start,
    {
        if used[start] {
            start = start + 1;
            continue;
        }
        let first: usize = kept[runs[start].0];
        if classes[first] == Class::PDI && matched_initiator(classes, first).is_some() {
            start = start + 1;
            continue;
        }
        let mut indices: Vec<usize> = Vec::new();
        let mut cur: usize = start;
        loop
            invariant_except_break
                cur < runs@.len(),
                !used@[cur as int],
                indices@.len() > 0 ==> indices@.last() < kept@[runs@[cur as int].0 as int],
            invariant
                used@.len() == runs@.len(),
                n == classes@.len(),
                forall|k: int|
                    0 <= k < kept@.len() ==> #[trigger] kept@[k] < n && !classes@[kept@[k] as int].spec_is_removed_by_x9(),
                forall|q: int| 0 <= q < runs@.len() ==> (#[trigger] runs@[q]).0 < runs@[q].1 <= kept@.len(),
                forall|k: int|
                    0 <= k < indices@.len() ==> #[trigger] indices@[k] < n
                        && !classes@[indices@[k] as int].spec_is_removed_by_x9(),
                forall|a: int, b: int| 0 <= a < b < kept@.len() ==> kept@[a] < kept@[b],
                forall|a: int, b: int| 0 <= a < b < indices@.len() ==> indices@[a] < indices@[b],
            ensures
                indices@.len() > 0,
                forall|a: int, b: int| 0 <= a < b < indices@.len() ==> indices@[a] < indices@[b],
            decreases count_false(used@),
        {
            proof {
                lemma_count_false_set(used@, cur as int);
            }
            used.set(cur, true);
            let (a, b) = runs[cur];
            let mut t: usize = a;
            while t < b
                invariant
                    a <= t <= b <= kept@.len(),
                    a < b,
                    indices@.len() >= t - a,
                    forall|k: int|
                        0 <= k < kept@.len() ==> #[trigger] kept@[k] < n && !classes@[kept@[k] as int].spec_is_removed_by_x9(),
                    forall|k: int|
                        0 <= k < indices@.len() ==> #[trigger] indices@[k] < n
                            && !classes@[indices@[k] as int].spec_is_removed_by_x9(),
                    forall|a: int, b: int| 0 <= a < b < kept@.len() ==> kept@[a] < kept@[b],
                    forall|x: int, y: int| 0 <= x < y < indices@.len() ==> indices@[x] < indices@[y],
                    t < b ==> (indices@.len() > 0 ==> indices@.last() < kept@[t as int]),
                    t > a ==> indices@.len() > 0 && indices@.last() == kept@[t - 1],
                decreases b - t,
            {
                indices.push(kept[t]);
                t = t + 1;
            }
            let last: usize = kept[b - 1];
            if !classes[last].is_isolate_initiator() {
                break;
            }
            let pdi: usize = matching_pdi(classes, last);
            if pdi >= n {
                break;
            }
            match run_starting_at(&runs, &kept, pdi) {
                Some(next) => {
                    if used[next] {
                        break;
                    }
                    cur = next;
                },
                None => {
                    break;
                },
            }
        }
        let level: u8 = levels[indices[0]];
        let before: u8 = prev_kept_level(&kept, levels, indices[0], base_level);
        let last: usize = indices[indices.len() - 1];
        let after: u8 = if classes[last].is_isolate_initiator() && matching_pdi(classes, last) >= n {
            base_level
        } else {
            next_kept_level(&kept, levels, last, base_level)
        };
        let lo: u8 = if level > before { level } else { before };
        let hi: u8 = if level > after { level } else { after };
        let sos: Class = if lo % 2 != 0 { Class::R } else { Class::L };
        let eos: Class = if hi % 2 != 0 { Class::R } else { Class::L };
        out.push(Sequence { indices, level, sos, eos });
        start = start + 1;
    }
    out
}

/// Left by W1: kept by X9, and no NSM.
pub open spec fn after_w1(c: Class) -> bool {
    !c.spec_is_removed_by_x9() && c != Class::NSM
}

/// Left by W3: as after W1, and no AL.
pub open spec fn after_w3(c: Class) -> bool {
    after_w1(c) && c != Class::AL
}

/// Left by W6: a strong class, a number, or a neutral or isolate class.
pub open spec fn after_w6(c: Class) -> bool {
    after_w3(c) && c != Class::ES && c != Class::ET && c != Class::CS
}

/// Left by the neutral rules: a strong class or a number.
pub open spec fn resolved(c: Class) -> bool {
    c == Class::L || c == Class::R || c == Class::EN || c == Class::AN
}

/// W1 over the first `n` classes of `s`: each NSM takes the class before
/// it (after W1), `sos` at the start, or ON after an isolate initiator or
/// a PDI.
pub open spec fn w1_seq(s: Seq<Class>, sos: Class, n: int) -> Seq<Class>
    decreases n,
{
    if n <= 0 {
        Seq::empty()
    } else {
        let before = w1_seq(s, sos, n - 1);
        let prev = if n - 1 == 0 {
            sos
        } else {
            before.last()
        };
        before.push(
            if s[n - 1] == Class::NSM {
                if prev.spec_is_isolate_initiator() || prev == Class::PDI {
                    Class::ON
                } else {
                    prev
                }
            } else {
                s[n - 1]
            },
        )
    }
}

/// W1: a non-spacing mark takes the class of what precedes it, or ON after
/// an isolate initiator or PDI.
fn weak_w1(cls: &mut Vec<Class>, sos: Class)
    requires
        sos == Class::L || sos == Class::R,
        forall|k: int| 0 <= k < old(cls)@.len() ==> !(#[trigger] old(cls)@[k]).spec_is_removed_by_x9(),
    ensures
        final(cls)@.len() == old(cls)@.len(),
        forall|k: int| 0 <= k < final(cls)@.len() ==> after_w1(#[trigger] final(cls)@[k]),
        final(cls)@ == w1_seq(old(cls)@, sos, old(cls)@.len() as int),
{
    let n: usize = cls.len();
    let mut prev: Class = sos;
    let mut k: usize = 0;
    while k < n
        invariant
            k <= n,
            n == cls@.len(),
            after_w1(prev),
            forall|j: int| 0 <= j < k ==> after_w1(#[trigger] cls@[j]),
            forall|j: int| k <= j < n ==> !(#[trigger] cls@[j]).spec_is_removed_by_x9(),
            cls@.take(k as int) == w1_seq(old(cls)@, sos, k as int),
            forall|j: int| k <= j < n ==> #[trigger] cls@[j] == old(cls)@[j],
            k > 0 ==> prev == cls@[k - 1],
            k == 0 ==> prev == sos,
        decreases n - k,
    {
        let ghost c0 = cls@;
        if cls[k] == Class::NSM {
            let v: Class = if prev.is_isolate_initiator() || prev == Class::PDI {
                Class::ON
            } else {
                prev
            };
            cls.set(k, v);
        }
        prev = cls[k];
        proof {
            assert(cls@.take(k + 1) =~= c0.take(k as int).push(cls@[k as int]));
        }
        k = k + 1;
    }
    proof {
        assert(cls@.take(n as int) =~= cls@);
    }
}

/// The last of L, R and AL before position `k`, or `sos`.
pub open spec fn last_strong_w2(s: Seq<Class>, k: int, sos: Class) -> Class
    decreases k,
{
    if k <= 0 {
        sos
    } else if s[k - 1] == Class::L || s[k - 1] == Class::R || s[k - 1] == Class::AL {
        s[k - 1]
    } else {
        last_strong_w2(s, k - 1, sos)
    }
}

/// The class W2 gives position `k`.
pub open spec fn w2_class(s: Seq<Class>, k: int, sos: Class) -> Class {
    if s[k] == Class::EN && last_strong_w2(s, k, sos) == Class::AL {
        Class::AN
    } else {
        s[k]
    }
}

/// W2: a European number after Arabic letters (the last strong class
/// being AL) becomes an Arabic number.
fn weak_w2(cls: &mut Vec<Class>, sos: Class)
    requires
        forall|k: int| 0 <= k < old(cls)@.len() ==> after_w1(#[trigger] old(cls)@[k]),
    ensures
        final(cls)@.len() == old(cls)@.len(),
        forall|k: int| 0 <= k < final(cls)@.len() ==> after_w1(#[trigger] final(cls)@[k]),
        forall|k: int| 0 <= k < final(cls)@.len() ==> #[trigger] final(cls)@[k] == w2_class(old(cls)@, k, sos),
{
    let n: usize = cls.len();
    let mut strong: Class = sos;
    let mut k: usize = 0;
    while k < n
        invariant
            k <= n,
            n == cls@.len(),
            n == old(cls)@.len(),
            forall|j: int| 0 <= j < n ==> after_w1(#[trigger] cls@[j]),
            forall|j: int| 0 <= j < n ==> after_w1(#[trigger] old(cls)@[j]),
            strong == last_strong_w2(old(cls)@, k as int, sos),
            forall|j: int| k <= j < n ==> #[trigger] cls@[j] == old(cls)@[j],
            forall|j: int| 0 <= j < k ==> #[trigger] cls@[j] == w2_class(old(cls)@, j, sos),
        decreases n - k,
    {
        let c: Class = cls[k];
        match c {
            Class::L | Class::R | Class::AL => {
                strong = c;
            },
            Class::EN => {
                if strong == Class::AL {
                    cls.set(k, Class::AN);
                }
            },
            _ => {},
        }
        k = k + 1;
    }
}

/// W3: Arabic letters become R.
fn weak_w3(cls: &mut Vec<Class>)
    requires
        forall|k: int| 0 <= k < old(cls)@.len() ==> after_w1(#[trigger] old(cls)@[k]),
    ensures
        final(cls)@.len() == old(cls)@.len(),
        forall|k: int|
            0 <= k < final(cls)@.len() ==> #[trigger] final(cls)@[k] == if old(cls)@[k] == Class::AL {
                Class::R
            } else {
                old(cls)@[k]
            },
        forall|k: int| 0 <= k < final(cls)@.len() ==> after_w3(#[trigger] final(cls)@[k]),
{
    let n: usize = cls.len();
    let mut k: usize = 0;
    while k < n
        invariant
            k <= n,
            n == cls@.len(),
            n == old(cls)@.len(),
            forall|j: int| k <= j < n ==> #[trigger] cls@[j] == old(cls)@[j],
            forall|j: int| 0 <= j < n ==> after_w1(#[trigger] old(cls)@[j]),
            forall|j: int|
                0 <= j < k ==> #[trigger] cls@[j] == if old(cls)@[j] == Class::AL {
                    Class::R
                } else {
                    old(cls)@[j]
                },
        decreases n - k,
    {
        if cls[k] == Class::AL {
            cls.set(k, Class::R);
        }
        k = k + 1;
    }
}

/// The class W4 gives position `i`, its neighbours as they stand.
pub open spec fn w4_class(s: Seq<Class>, i: int) -> Class {
    let before = s[i - 1];
    let after = s[i + 1];
    if s[i] == Class::ES && before == Class::EN && after == Class::EN {
        Class::EN
    } else if s[i] == Class::CS && before == after && (before == Class::EN || before == Class::AN) {
        before
    } else {
        s[i]
    }
}

/// W4 from position `i` to the one before the last, in order, each
/// position seeing the one before it as already resolved.
pub open spec fn spec_w4_from(s: Seq<Class>, i: int) -> Seq<Class>
    decreases s.len() - i,
{
    if i < 1 || i >= s.len() - 1 {
        s
    } else {
        spec_w4_from(s.update(i, w4_class(s, i)), i + 1)
    }
}

/// W4: a single separator between two numbers of the same kind joins them.
fn weak_w4(cls: &mut Vec<Class>)
    requires
        forall|k: int| 0 <= k < old(cls)@.len() ==> after_w3(#[trigger] old(cls)@[k]),
    ensures
        final(cls)@.len() == old(cls)@.len(),
        forall|k: int| 0 <= k < final(cls)@.len() ==> after_w3(#[trigger] final(cls)@[k]),
        final(cls)@ == spec_w4_from(old(cls)@, 1),
{
    let n: usize = cls.len();
    if n < 3 {
        return;
    }
    let mut i: usize = 1;
    while i < n - 1
        invariant
            1 <= i <= n - 1,
            n == cls@.len(),
            forall|j: int| 0 <= j < n ==> after_w3(#[trigger] cls@[j]),
            spec_w4_from(cls@, i as int) == spec_w4_from(old(cls)@, 1),
        decreases n - 1 - i,
    {
        let ghost s0 = cls@;
        let before: Class = cls[i - 1];
        let after: Class = cls[i + 1];
        if cls[i] == Class::ES && before == Class::EN && after == Class::EN {
            cls.set(i, Class::EN);
        }
        if cls[i] == Class::CS && before == after && (before == Class::EN || before == Class::AN) {
            cls.set(i, before);
        }
        assert(cls@ =~= s0.update(i as int, w4_class(s0, i as int)));
        i = i + 1;
    }
}

/// Where the run of European terminators that holds position `k` starts.
pub open spec fn et_start(s: Seq<Class>, k: int) -> int
    decreases k,
{
    if k > 0 && s[k - 1] == Class::ET {
        et_start(s, k - 1)
    } else {
        k
    }
}

/// Where the run of European terminators from position `k` ends.
pub open spec fn et_end(s: Seq<Class>, k: int) -> int
    decreases s.len() - k,
{
    if 0 <= k < s.len() && s[k] == Class::ET {
        et_end(s, k + 1)
    } else {
        k
    }
}

/// The class W5 gives position `k`: a European terminator whose run has a
/// European number (or `sos`, `eos`) next to it becomes one.
pub open spec fn w5_class(s: Seq<Class>, k: int, sos: Class, eos: Class) -> Class {
    if s[k] != Class::ET {
        s[k]
    } else {
        let a = et_start(s, k);
        let b = et_end(s, k);
        let before = if a > 0 {
            s[a - 1]
        } else {
            sos
        };
        let after = if b < s.len() {
            s[b]
        } else {
            eos
        };
        if before == Class::EN || after == Class::EN {
            Class::EN
        } else {
            Class::ET
        }
    }
}

proof fn lemma_et_start(s: Seq<Class>, start: int, k: int)
    requires
        0 <= start <= k <= s.len(),
        forall|j: int| start <= j < k ==> s[j] == Class::ET,
        start == 0 || s[start - 1] != Class::ET,
    ensures
        et_start(s, k) == start,
    decreases k,
{
    if k > start {
        lemma_et_start(s, start, k - 1);
    }
}

proof fn lemma_et_end(s: Seq<Class>, k: int, end: int)
    requires
        0 <= k <= end <= s.len(),
        forall|j: int| k <= j < end ==> s[j] == Class::ET,
        end == s.len() || s[end] != Class::ET,
    ensures
        et_end(s, k) == end,
    decreases end - k,
{
    if k < end {
        lemma_et_end(s, k + 1, end);
    }
}

/// W5: a run of European terminators next to a European number becomes
/// European numbers.
fn weak_w5(cls: &mut Vec<Class>, sos: Class, eos: Class)
    requires
        forall|k: int| 0 <= k < old(cls)@.len() ==> after_w3(#[trigger] old(cls)@[k]),
    ensures
        final(cls)@.len() == old(cls)@.len(),
        forall|k: int| 0 <= k < final(cls)@.len() ==> after_w3(#[trigger] final(cls)@[k]),
        forall|k: int| 0 <= k < final(cls)@.len() ==> #[trigger] final(cls)@[k] == w5_class(old(cls)@, k, sos, eos),
{
    let ghost s0 = cls@;
    let n: usize = cls.len();
    let mut i: usize = 0;
    while i < n
        invariant
            i <= n,
            n == cls@.len(),
            s0 == old(cls)@,
            n == s0.len(),
            forall|j: int| 0 <= j < n ==> after_w3(#[trigger] s0[j]),
            i == 0 || i == n || s0[i - 1] != Class::ET || s0[i as int] != Class::ET,
            forall|j: int| i <= j < n ==> #[trigger] cls@[j] == s0[j],
            forall|j: int| 0 <= j < i ==> #[trigger] cls@[j] == w5_class(s0, j, sos, eos),
        decreases n - i,
    {
        if cls[i] != Class::ET {
            i = i + 1;
        } else {
            let start: usize = i;
            while i < n && cls[i] == Class::ET
                invariant
                    start <= i <= n,
                    n == cls@.len(),
                    n == s0.len(),
                    forall|j: int| start <= j < n ==> #[trigger] cls@[j] == s0[j],
                    forall|j: int| start <= j < i ==> s0[j] == Class::ET,
                decreases n - i,
            {
                i = i + 1;
            }
            let before: Class = if start > 0 {
                cls[start - 1]
            } else {
                sos
            };
            let after: Class = if i < n {
                cls[i]
            } else {
                eos
            };
            proof {
                assert forall|k: int| start <= k < i implies et_start(s0, k) == start && et_end(s0, k) == i by {
                    lemma_et_start(s0, start as int, k);
                    lemma_et_end(s0, k, i as int);
                }
                if start > 0 {
                    assert(before == s0[start - 1]);
                }
            }
            if before == Class::EN || after == Class::EN {
                let mut k: usize = start;
                while k < i
                    invariant
                        start <= k <= i <= n,
                        n == cls@.len(),
                        n == s0.len(),
                        before == Class::EN || after == Class::EN,
                        forall|j: int| 0 <= j < start ==> #[trigger] cls@[j] == w5_class(s0, j, sos, eos),
                        forall|j: int| start <= j < k ==> #[trigger] cls@[j] == Class::EN,
                        forall|j: int| k <= j < n ==> #[trigger] cls@[j] == s0[j],
                    decreases i - k,
                {
                    cls.set(k, Class::EN);
                    k = k + 1;
                }
            }
            assert forall|j: int| 0 <= j < i implies #[trigger] cls@[j] == w5_class(s0, j, sos, eos) by {
                if j >= start {
                    assert(s0[j] == Class::ET);
                }
            }
        }
    }
}

/// W6: the remaining separators and terminators become ON.
fn weak_w6(cls: &mut Vec<Class>)
    requires
        forall|k: int| 0 <= k < old(cls)@.len() ==> after_w3(#[trigger] old(cls)@[k]),
    ensures
        final(cls)@.len() == old(cls)@.len(),
        forall|k: int|
            0 <= k < final(cls)@.len() ==> #[trigger] final(cls)@[k] == if old(cls)@[k] == Class::ES
                || old(cls)@[k] == Class::ET || old(cls)@[k] == Class::CS {
                Class::ON
            } else {
                old(cls)@[k]
            },
        forall|k: int| 0 <= k < final(cls)@.len() ==> after_w6(#[trigger] final(cls)@[k]),
{
    let n: usize = cls.len();
    let mut k: usize = 0;
    while k < n
        invariant
            k <= n,
            n == cls@.len(),
            n == old(cls)@.len(),
            forall|j: int| k <= j < n ==> #[trigger] cls@[j] == old(cls)@[j],
            forall|j: int| 0 <= j < n ==> after_w3(#[trigger] old(cls)@[j]),
            forall|j: int|
                0 <= j < k ==> #[trigger] cls@[j] == if old(cls)@[j] == Class::ES || old(cls)@[j]
                    == Class::ET || old(cls)@[j] == Class::CS {
                    Class::ON
                } else {
                    old(cls)@[j]
                },
        decreases n - k,
    {
        let c: Class = cls[k];
        if c == Class::ES || c == Class::ET || c == Class::CS {
            cls.set(k, Class::ON);
        }
        k = k + 1;
    }
}

/// The last of L and R before position `k`, or `sos`.
pub open spec fn last_strong_w7(s: Seq<Class>, k: int, sos: Class) -> Class
    decreases k,
{
    if k <= 0 {
        sos
    } else if s[k - 1] == Class::L || s[k - 1] == Class::R {
        s[k - 1]
    } else {
        last_strong_w7(s, k - 1, sos)
    }
}

/// The class W7 gives position `k`.
pub open spec fn w7_class(s: Seq<Class>, k: int, sos: Class) -> Class {
    if s[k] == Class::EN && last_strong_w7(s, k, sos) == Class::L {
        Class::L
    } else {
        s[k]
    }
}

/// W7: a European number after a left-to-right strong class becomes L.
fn weak_w7(cls: &mut Vec<Class>, sos: Class)
    requires
        forall|k: int| 0 <= k < old(cls)@.len() ==> after_w6(#[trigger] old(cls)@[k]),
    ensures
        final(cls)@.len() == old(cls)@.len(),
        forall|k: int| 0 <= k < final(cls)@.len() ==> after_w6(#[trigger] final(cls)@[k]),
        forall|k: int| 0 <= k < final(cls)@.len() ==> #[trigger] final(cls)@[k] == w7_class(old(cls)@, k, sos),
{
    let n: usize = cls.len();
    let mut strong: Class = sos;
    let mut k: usize = 0;
    while k < n
        invariant
            k <= n,
            n == cls@.len(),
            n == old(cls)@.len(),
            forall|j: int| 0 <= j < n ==> after_w6(#[trigger] cls@[j]),
            forall|j: int| 0 <= j < n ==> after_w6(#[trigger] old(cls)@[j]),
            strong == last_strong_w7(old(cls)@, k as int, sos),
            forall|j: int| k <= j < n ==> #[trigger] cls@[j] == old(cls)@[j],
            forall|j: int| 0 <= j < k ==> #[trigger] cls@[j] == w7_class(old(cls)@, j, sos),
        decreases n - k,
    {
        let c: Class = cls[k];
        match c {
            Class::L | Class::R => {
                strong = c;
            },
            Class::EN => {
                if strong == Class::L {
                    cls.set(k, Class::L);
                }
            },
            _ => {},
        }
        k = k + 1;
    }
}

/// The strong direction a class counts as for the neutral rules: numbers
/// count as right-to-left.
pub open spec fn spec_strong_of(c: Class) -> Option<Class> {
    if c == Class::L {
        Some(Class::L)
    } else if c == Class::R || c == Class::EN || c == Class::AN {
        Some(Class::R)
    } else {
        None
    }
}

fn strong_of(c: Class) -> (r: Option<Class>)
    ensures
        r == spec_strong_of(c),
{
    match c {
        Class::L => Some(Class::L),
        Class::R | Class::EN | Class::AN => Some(Class::R),
        _ => None,
    }
}

/// The first position of the run of neutrals and isolate marks that
/// holds position `k`.
pub open spec fn neutral_start(s: Seq<Class>, k: int) -> int
    decreases k,
{
    if k > 0 && s[k - 1].spec_is_neutral_or_isolate() {
        neutral_start(s, k - 1)
    } else {
        k
    }
}

/// The end of the run of neutrals and isolate marks that holds position
/// `k`.
pub open spec fn neutral_end(s: Seq<Class>, k: int) -> int
    decreases s.len() - k,
{
    if k + 1 < s.len() && s[k + 1].spec_is_neutral_or_isolate() {
        neutral_end(s, k + 1)
    } else {
        k + 1
    }
}

/// N1–N2 at position `k`: a neutral or isolate mark takes the direction
/// of the strong text on both sides of its run where they agree (numbers
/// counting as R, `sos` and `eos` at the ends), and the embedding
/// direction otherwise; anything else stays.
pub open spec fn n1_class(s: Seq<Class>, k: int, sos: Class, eos: Class, level: u8) -> Class {
    if !s[k].spec_is_neutral_or_isolate() {
        s[k]
    } else {
        let a = neutral_start(s, k);
        let b = neutral_end(s, k);
        let before = if a > 0 {
            spec_strong_of(s[a - 1])
        } else {
            spec_strong_of(sos)
        };
        let after = if b < s.len() {
            spec_strong_of(s[b])
        } else {
            spec_strong_of(eos)
        };
        let embedding = if level % 2 != 0 {
            Class::R
        } else {
            Class::L
        };
        match (before, after) {
            (Some(x), Some(y)) => if x == y {
                x
            } else {
                embedding
            },
            _ => embedding,
        }
    }
}

proof fn lemma_neutral_run(s: Seq<Class>, start: int, end: int, k: int)
    requires
        0 <= start <= k < end <= s.len(),
        start == 0 || !s[start - 1].spec_is_neutral_or_isolate(),
        end == s.len() || !s[end].spec_is_neutral_or_isolate(),
        forall|m: int| start <= m < end ==> (#[trigger] s[m]).spec_is_neutral_or_isolate(),
    ensures
        neutral_start(s, k) == start,
        neutral_end(s, k) == end,
    decreases end - k + k - start,
{
    if k > start {
        lemma_neutral_run_start(s, start, k);
    }
    if k + 1 < end {
        lemma_neutral_run_end(s, end, k);
    }
}

proof fn lemma_neutral_run_start(s: Seq<Class>, start: int, k: int)
    requires
        0 <= start <= k < s.len(),
        start == 0 || !s[start - 1].spec_is_neutral_or_isolate(),
        forall|m: int| start <= m <= k ==> (#[trigger] s[m]).spec_is_neutral_or_isolate(),
    ensures
        neutral_start(s, k) == start,
    decreases k,
{
    if k > start {
        lemma_neutral_run_start(s, start, k - 1);
    }
}

proof fn lemma_neutral_run_end(s: Seq<Class>, end: int, k: int)
    requires
        0 <= k < end <= s.len(),
        end == s.len() || !s[end].spec_is_neutral_or_isolate(),
        forall|m: int| k <= m < end ==> (#[trigger] s[m]).spec_is_neutral_or_isolate(),
    ensures
        neutral_end(s, k) == end,
    decreases end - k,
{
    if k + 1 < end {
        lemma_neutral_run_end(s, end, k + 1);
    }
}

/// N1–N2: a run of neutrals between two like strong directions takes that
/// direction, any other run the embedding direction.
fn neutral_n1_n2(cls: &mut Vec<Class>, sos: Class, eos: Class, level: u8)
    requires
        sos == Class::L || sos == Class::R,
        eos == Class::L || eos == Class::R,
        forall|k: int| 0 <= k < old(cls)@.len() ==> after_w6(#[trigger] old(cls)@[k]),
    ensures
        final(cls)@.len() == old(cls)@.len(),
        forall|k: int| 0 <= k < final(cls)@.len() ==> resolved(#[trigger] final(cls)@[k]),
        forall|k: int| 0 <= k < final(cls)@.len() ==> #[trigger] final(cls)@[k] == n1_class(old(cls)@, k, sos, eos, level),
{
    let n: usize = cls.len();
    let ghost s0 = cls@;
    let embedding: Class = if level % 2 != 0 {
        Class::R
    } else {
        Class::L
    };
    let mut i: usize = 0;
    while i < n
        invariant
            i <= n,
            n == cls@.len(),
            sos == Class::L || sos == Class::R,
            eos == Class::L || eos == Class::R,
            embedding == Class::L || embedding == Class::R,
            forall|j: int| 0 <= j < i ==> resolved(#[trigger] cls@[j]),
            forall|j: int| i <= j < n ==> after_w6(#[trigger] cls@[j]),
            s0 == old(cls)@,
            s0.len() == n,
            embedding == (if level % 2 != 0 {
                Class::R
            } else {
                Class::L
            }),
            forall|j: int| 0 <= j < i ==> #[trigger] cls@[j] == n1_class(s0, j, sos, eos, level),
            forall|j: int| i <= j < n ==> #[trigger] cls@[j] == s0[j],
            i == 0 || i >= n || !s0[i - 1].spec_is_neutral_or_isolate() || !s0[i as int].spec_is_neutral_or_isolate(),
        decreases n - i,
    {
        if !cls[i].is_neutral_or_isolate() {
            i = i + 1;
        } else {
            let start: usize = i;
            while i < n && cls[i].is_neutral_or_isolate()
                invariant
                    start <= i <= n,
                    n == cls@.len(),
                    forall|j: int| start <= j < i ==> (#[trigger] cls@[j]).spec_is_neutral_or_isolate(),
                    forall|j: int| start <= j < n ==> #[trigger] cls@[j] == s0[j],
                    s0.len() == n,
                decreases n - i,
            {
                i = i + 1;
            }
            proof {
                assert forall|m: int| start <= m < i implies (#[trigger] s0[m]).spec_is_neutral_or_isolate() by {
                    assert(cls@[m] == s0[m]);
                }
                if i < n {
                    assert(cls@[i as int] == s0[i as int]);
                }
                assert(s0[start as int].spec_is_neutral_or_isolate());
                assert forall|k: int| start <= k < i implies neutral_start(s0, k) == start && neutral_end(s0, k) == i by {
                    lemma_neutral_run(s0, start as int, i as int, k);
                }
            }
            let before: Option<Class> = if start > 0 {
                strong_of(cls[start - 1])
            } else {
                strong_of(sos)
            };
            let after: Option<Class> = if i < n {
                strong_of(cls[i])
            } else {
                strong_of(eos)
            };
            let fill: Class = match (before, after) {
                (Some(a), Some(b)) => if a == b {
                    a
                } else {
                    embedding
                },
                _ => embedding,
            };
            proof {
                if start > 0 {
                    assert(!s0[start - 1].spec_is_neutral_or_isolate());
                    assert(cls@[start - 1] == n1_class(s0, start - 1, sos, eos, level));
                    assert(cls@[start - 1] == s0[start - 1]);
                }
                assert forall|j: int| start <= j < i implies n1_class(s0, j, sos, eos, level) == fill by {
                    assert(s0[j].spec_is_neutral_or_isolate());
                    assert(neutral_start(s0, j) == start && neutral_end(s0, j) == i);
                }
            }
            let mut k: usize = start;
            while k < i
                invariant
                    start <= k <= i <= n,
                    n == cls@.len(),
                    fill == Class::L || fill == Class::R,
                    forall|j: int| 0 <= j < start ==> resolved(#[trigger] cls@[j]),
                    forall|j: int| start <= j < k ==> resolved(#[trigger] cls@[j]),
                    forall|j: int| i <= j < n ==> after_w6(#[trigger] cls@[j]),
                    forall|j: int| 0 <= j < start ==> #[trigger] cls@[j] == n1_class(s0, j, sos, eos, level),
                    forall|j: int| start <= j < k ==> #[trigger] cls@[j] == n1_class(s0, j, sos, eos, level),
                    forall|j: int| k <= j < n ==> #[trigger] cls@[j] == s0[j],
                    forall|j: int| start <= j < i ==> n1_class(s0, j, sos, eos, level) == fill,
                    s0.len() == n,
                decreases i - k,
            {
                cls.set(k, fill);
                k = k + 1;
            }
            if i < n {
                assert(after_w6(cls@[i as int]));
            }
        }
    }
}

/// `a` sorts before or with `b`: by opening position, then closing.
pub open spec fn pair_le(a: (usize, usize), b: (usize, usize)) -> bool {
    a.0 < b.0 || (a.0 == b.0 && a.1 <= b.1)
}

proof fn lemma_swap_multiset<A>(s: Seq<A>, i: int, j: int)
    requires
        0 <= i < s.len(),
        0 <= j < s.len(),
    ensures
        s.update(i, s[j]).update(j, s[i]).to_multiset() == s.to_multiset(),
{
    broadcast use vstd::seq_lib::to_multiset_update;
    broadcast use vstd::multiset::group_multiset_properties;
    broadcast use vstd::multiset::group_multiset_axioms;

    let t = s.update(i, s[j]);
    if i == j {
        assert(t.update(j, s[i]) =~= s);
    } else {
        assert(t[j] == s[j]);
        assert(t.to_multiset() == s.to_multiset().insert(s[j]).remove(s[i]));
        assert(t.update(j, s[i]).to_multiset() == t.to_multiset().insert(s[i]).remove(s[j]));
        let m = s.to_multiset();
        let a = s[j];
        let b = s[i];
        assert(s.contains(a));
        assert(s.contains(b));
        vstd::seq_lib::to_multiset_contains(s, a);
        vstd::seq_lib::to_multiset_contains(s, b);
        assert(m.count(a) > 0 && m.count(b) > 0);
        assert(m.insert(a).remove(b).insert(b).remove(a) =~= m);
    }
}

/// Sorts bracket pairs by opening position, then closing.
fn sort_pairs(v: &mut Vec<(usize, usize)>)
    ensures
        final(v)@.to_multiset() == old(v)@.to_multiset(),
        final(v)@.len() == old(v)@.len(),
        forall|i: int, j: int| 0 <= i < j < final(v)@.len() ==> pair_le(final(v)@[i], final(v)@[j]),
{
    let n: usize = v.len();
    let mut i: usize = 1;
    if n < 2 {
        return;
    }
    while i < n
        invariant
            1 <= i <= n,
            n == v@.len(),
            v@.to_multiset() == old(v)@.to_multiset(),
            forall|a: int, b: int| 0 <= a < b < i ==> pair_le(v@[a], v@[b]),
        decreases n - i,
    {
        let mut j: usize = i;
        while j > 0 && !pair_le_exec(v[j - 1], v[j])
            invariant
                0 <= j <= i < n,
                n == v@.len(),
                v@.to_multiset() == old(v)@.to_multiset(),
                forall|a: int, b: int| 0 <= a < b <= i && b != j ==> pair_le(v@[a], v@[b]),
                forall|b: int| j < b <= i ==> pair_le(v@[j as int], #[trigger] v@[b]),
            decreases j,
        {
            let ghost before = v@;
            let x: (usize, usize) = v[j - 1];
            let y: (usize, usize) = v[j];
            proof {
                lemma_swap_multiset(v@, j - 1, j as int);
            }
            v.set(j - 1, y);
            v.set(j, x);
            assert(v@ == before.update(j - 1, before[j as int]).update(j as int, before[j - 1]));
            j = j - 1;
        }
        assert forall|a: int, b: int| 0 <= a < b <= i implies pair_le(v@[a], v@[b]) by {
            if b == j && a < j - 1 {
                assert(pair_le(v@[a], v@[j - 1]));
            }
        }
        i = i + 1;
    }
}

fn pair_le_exec(a: (usize, usize), b: (usize, usize)) -> (r: bool)
    ensures
        r == pair_le(a, b),
{
    a.0 < b.0 || (a.0 == b.0 && a.1 <= b.1)
}

/// Every element of one list occurs in another with the same multiset.
proof fn lemma_same_multiset_contains<A>(s: Seq<A>, t: Seq<A>, k: int)
    requires
        s.to_multiset() == t.to_multiset(),
        0 <= k < t.len(),
    ensures
        s.contains(t[k]),
{
    assert(t.contains(t[k]));
    vstd::seq_lib::to_multiset_contains(t, t[k]);
    vstd::seq_lib::to_multiset_contains(s, t[k]);
}

/// The original class of sequence position `j`: that of the character it
/// stands for.
pub open spec fn orig_class(classes: Seq<Class>, idx: Seq<usize>, j: int) -> Class {
    if idx[j] < classes.len() {
        classes[idx[j] as int]
    } else {
        Class::L
    }
}

/// Where the run of originally non-spacing marks from position `j` ends.
pub open spec fn nsm_run_end(classes: Seq<Class>, idx: Seq<usize>, j: int) -> int
    decreases idx.len() - j,
{
    if 0 <= j < idx.len() && orig_class(classes, idx, j) == Class::NSM {
        nsm_run_end(classes, idx, j + 1)
    } else {
        j
    }
}

/// After a bracket pair took direction `dir`: the characters right after
/// `from` that were non-spacing marks originally take it too.
fn extend_to_marks(classes: &[Class], idx: &Vec<usize>, cls: &mut Vec<Class>, from: usize, dir: Class)
    requires
        dir == Class::L || dir == Class::R,
        old(cls)@.len() == idx@.len(),
        forall|k: int| 0 <= k < old(cls)@.len() ==> after_w6(#[trigger] old(cls)@[k]),
    ensures
        final(cls)@.len() == old(cls)@.len(),
        forall|k: int| 0 <= k < final(cls)@.len() ==> after_w6(#[trigger] final(cls)@[k]),
        forall|k: int|
            0 <= k < final(cls)@.len() ==> #[trigger] final(cls)@[k] == if from < k < nsm_run_end(
                classes@,
                idx@,
                from + 1,
            ) {
                dir
            } else {
                old(cls)@[k]
            },
{
    let n: usize = cls.len();
    if from >= n {
        return;
    }
    let mut j: usize = from + 1;
    while j < n
        invariant_except_break
            nsm_run_end(classes@, idx@, from + 1) == nsm_run_end(classes@, idx@, j as int),
        invariant
            from < j <= n,
            forall|k: int|
                0 <= k < n ==> #[trigger] cls@[k] == if from < k < j {
                    dir
                } else {
                    old(cls)@[k]
                },
            n == cls@.len(),
            n == idx@.len(),
            n == old(cls)@.len(),
            dir == Class::L || dir == Class::R,
            forall|k: int| 0 <= k < n ==> after_w6(#[trigger] cls@[k]),
        ensures
            nsm_run_end(classes@, idx@, from + 1) == j,
        decreases n - j,
    {
        let i: usize = idx[j];
        let orig: Class = if i < classes.len() {
            classes[i]
        } else {
            Class::L
        };
        if orig != Class::NSM {
            break;
        }
        cls.set(j, dir);
        j = j + 1;
    }
}

/// The topmost entry of an opening-bracket stack of `pos` entries whose
/// key is `key`.
pub open spec fn find_key(st: Seq<(u32, usize)>, key: u32, pos: int) -> Option<int>
    decreases pos,
{
    if pos <= 0 {
        None
    } else if st[pos - 1].0 == key {
        Some(pos - 1)
    } else {
        find_key(st, key, pos - 1)
    }
}

/// BD16 over the first `k` positions of a sequence: the stack of open
/// brackets, the pairs found so far in the order their closing brackets
/// come, and whether the stack overflowed, which ends the search.
pub open spec fn pairs_state(brackets: Seq<Bracket>, idx: Seq<usize>, cls: Seq<Class>, k: int) -> (Seq<(u32, usize)>, Seq<(usize, usize)>, bool)
    decreases k,
{
    if k <= 0 {
        (Seq::empty(), Seq::empty(), false)
    } else {
        let prev = pairs_state(brackets, idx, cls, k - 1);
        let st = prev.0;
        let ps = prev.1;
        let j = k - 1;
        if prev.2 {
            prev
        } else if cls[j] == Class::ON && idx[j] < brackets.len() {
            match brackets[idx[j] as int] {
                Bracket::Not => prev,
                Bracket::Open(key) => if st.len() >= 63 {
                    (st, ps, true)
                } else {
                    (st.push((key, j as usize)), ps, false)
                },
                Bracket::Close(key) => match find_key(st, key, st.len() as int) {
                    Some(f) => (st.take(f), ps.push((st[f].1, j as usize)), false),
                    None => prev,
                },
            }
        } else {
            prev
        }
    }
}

proof fn lemma_pairs_stopped(brackets: Seq<Bracket>, idx: Seq<usize>, cls: Seq<Class>, k: int, n: int)
    requires
        0 <= k <= n,
        pairs_state(brackets, idx, cls, k).2,
    ensures
        pairs_state(brackets, idx, cls, n) == pairs_state(brackets, idx, cls, k),
    decreases n - k,
{
    if n > k {
        lemma_pairs_stopped(brackets, idx, cls, k, n - 1);
    }
}

proof fn lemma_find_key_bounds(st: Seq<(u32, usize)>, key: u32, pos: int)
    requires
        pos <= st.len(),
    ensures
        find_key(st, key, pos) matches Some(f) ==> 0 <= f < pos && st[f].0 == key,
    decreases pos,
{
    if pos > 0 {
        lemma_find_key_bounds(st, key, pos - 1);
    }
}

/// The bracket pairs of a sequence, in the order their closing brackets
/// come.
pub open spec fn bracket_candidates(brackets: Seq<Bracket>, idx: Seq<usize>, cls: Seq<Class>) -> Seq<(usize, usize)> {
    pairs_state(brackets, idx, cls, cls.len() as int).1
}

/// Whether pairs are sorted by opening, then closing position.
pub open spec fn pairs_sorted(ps: Seq<(usize, usize)>) -> bool {
    forall|a: int, b: int| 0 <= a < b < ps.len() ==> pair_le(ps[a], ps[b])
}

/// The opening and closing positions of the bracket pairs among the ON
/// characters of a sequence, sorted by opening position.
fn bracket_pairs(brackets: &[Bracket], idx: &Vec<usize>, cls: &Vec<Class>) -> (pairs: Vec<(usize, usize)>)
    requires
        cls@.len() == idx@.len(),
    ensures
        forall|p: int| 0 <= p < pairs@.len() ==> (#[trigger] pairs@[p]).0 < pairs@[p].1 < cls@.len(),
        forall|a: int, b: int| 0 <= a < b < pairs@.len() ==> pair_le(pairs@[a], pairs@[b]),
        pairs@.to_multiset() == bracket_candidates(brackets@, idx@, cls@).to_multiset(),
{
    let n: usize = idx.len();
    let mut stack: Vec<(u32, usize)> = Vec::new();
    let mut pairs: Vec<(usize, usize)> = Vec::new();
    let mut k: usize = 0;
    while k < n
        invariant_except_break
            pairs_state(brackets@, idx@, cls@, k as int) == (stack@, pairs@, false),
        invariant
            k <= n,
            n == idx@.len(),
            n == cls@.len(),
            forall|p: int| 0 <= p < stack@.len() ==> (#[trigger] stack@[p]).1 < k,
            forall|p: int| 0 <= p < pairs@.len() ==> (#[trigger] pairs@[p]).0 < pairs@[p].1 < k,
        ensures
            pairs@ == bracket_candidates(brackets@, idx@, cls@),
            forall|p: int| 0 <= p < pairs@.len() ==> (#[trigger] pairs@[p]).0 < pairs@[p].1 < n,
        decreases n - k,
    {
        let ghost st0 = stack@;
        if cls[k] == Class::ON {
            let i: usize = idx[k];
            if i < brackets.len() {
                match brackets[i] {
                    Bracket::Not => {},
                    Bracket::Open(key) => {
                        if stack.len() >= 63 {
                            proof {
                                lemma_pairs_stopped(brackets@, idx@, cls@, k + 1, n as int);
                            }
                            break;
                        }
                        stack.push((key, k));
                    },
                    Bracket::Close(key) => {
                        let mut pos: usize = stack.len();
                        let mut found: Option<usize> = None;
                        while pos > 0
                            invariant_except_break
                                found is None,
                                find_key(stack@, key, stack@.len() as int) == find_key(stack@, key, pos as int),
                            invariant
                                pos <= stack@.len(),
                                found matches Some(f) ==> f < stack@.len(),
                            ensures
                                match found {
                                    Some(f) => find_key(stack@, key, stack@.len() as int) == Some(f as int),
                                    None => find_key(stack@, key, stack@.len() as int) is None,
                                },
                            decreases pos,
                        {
                            pos = pos - 1;
                            if stack[pos].0 == key {
                                found = Some(pos);
                                break;
                            }
                        }
                        if let Some(f) = found {
                            pairs.push((stack[f].1, k));
                            stack.truncate(f);
                        }
                    },
                }
            }
        }
        k = k + 1;
    }
    let ghost unsorted = pairs@;
    sort_pairs(&mut pairs);
    assert(pairs@.to_multiset() == bracket_candidates(brackets@, idx@, cls@).to_multiset());
    assert forall|p: int| 0 <= p < pairs@.len() implies (#[trigger] pairs@[p]).0 < pairs@[p].1 < n by {
        lemma_same_multiset_contains(unsorted, pairs@, p);
        let w = choose|w: int| 0 <= w < unsorted.len() && unsorted[w] == pairs@[p];
        assert(unsorted[w].0 < unsorted[w].1 < n);
    }
    pairs
}

/// Whether a character inside the pair `open .. close` counts as
/// direction `dir`.
pub open spec fn strong_inside(s: Seq<Class>, open: int, close: int, dir: Class) -> bool {
    exists|m: int| open < m < close && #[trigger] spec_strong_of(s[m]) == Some(dir)
}

/// The strong direction of the context before position `b`, or `sos`.
pub open spec fn prior_strong(s: Seq<Class>, b: int, sos: Class) -> Class
    decreases b,
{
    if b <= 0 {
        sos
    } else {
        match spec_strong_of(s[b - 1]) {
            Some(x) => x,
            None => prior_strong(s, b - 1, sos),
        }
    }
}

/// The positions right after `from` that were non-spacing marks
/// originally, set to `dir`.
pub open spec fn marks_extended(classes: Seq<Class>, idx: Seq<usize>, s: Seq<Class>, from: int, dir: Class) -> Seq<Class> {
    Seq::new(s.len(), |k: int| if from < k < nsm_run_end(classes, idx, from + 1) { dir } else { s[k] })
}

/// N0 on one bracket pair: the direction it takes, if any, given to both
/// brackets and the marks that follow each.
pub open spec fn pair_resolved(classes: Seq<Class>, idx: Seq<usize>, s: Seq<Class>, pair: (usize, usize), embedding: Class, opposite: Class, sos: Class) -> Seq<Class> {
    let open = pair.0 as int;
    let close = pair.1 as int;
    let set = if strong_inside(s, open, close, embedding) {
        Some(embedding)
    } else if strong_inside(s, open, close, opposite) {
        if prior_strong(s, open, sos) == opposite {
            Some(opposite)
        } else {
            Some(embedding)
        }
    } else {
        None
    };
    match set {
        None => s,
        Some(dir) => marks_extended(
            classes,
            idx,
            marks_extended(classes, idx, s.update(open, dir).update(close, dir), open, dir),
            close,
            dir,
        ),
    }
}

/// N0 on the first `q` pairs of `ps`, in order.
pub open spec fn pairs_resolved(classes: Seq<Class>, idx: Seq<usize>, s: Seq<Class>, ps: Seq<(usize, usize)>, q: int, embedding: Class, opposite: Class, sos: Class) -> Seq<Class>
    decreases q,
{
    if q <= 0 {
        s
    } else {
        pair_resolved(
            classes,
            idx,
            pairs_resolved(classes, idx, s, ps, q - 1, embedding, opposite, sos),
            ps[q - 1],
            embedding,
            opposite,
            sos,
        )
    }
}

/// The direction of a level: odd levels run right to left.
pub open spec fn level_direction(level: u8) -> Class {
    if level % 2 != 0 {
        Class::R
    } else {
        Class::L
    }
}

/// The other of the two strong directions.
pub open spec fn opposite_of(c: Class) -> Class {
    if c == Class::R {
        Class::L
    } else {
        Class::R
    }
}

/// N0: a bracket pair takes the embedding direction when a character of
/// that direction lies inside it; when only the opposite direction does,
/// it takes the direction of the context before it.
fn resolve_brackets(brackets: &[Bracket], classes: &[Class], idx: &Vec<usize>, cls: &mut Vec<Class>, level: u8, sos: Class)
    requires
        old(cls)@.len() == idx@.len(),
        sos == Class::L || sos == Class::R,
        forall|k: int| 0 <= k < old(cls)@.len() ==> after_w6(#[trigger] old(cls)@[k]),
    ensures
        final(cls)@.len() == old(cls)@.len(),
        forall|k: int| 0 <= k < final(cls)@.len() ==> after_w6(#[trigger] final(cls)@[k]),
        brackets@.len() == 0 ==> final(cls)@ == old(cls)@,
        brackets@.len() > 0 ==> exists|ps: Seq<(usize, usize)>|
            pairs_sorted(ps) && ps.to_multiset() == bracket_candidates(brackets@, idx@, old(cls)@).to_multiset()
                && #[trigger] pairs_resolved(
                classes@,
                idx@,
                old(cls)@,
                ps,
                ps.len() as int,
                level_direction(level),
                opposite_of(level_direction(level)),
                sos,
            ) == final(cls)@,
{
    if brackets.len() == 0 {
        return;
    }
    let n: usize = idx.len();
    let embedding: Class = if level % 2 != 0 {
        Class::R
    } else {
        Class::L
    };
    let opposite: Class = if embedding == Class::R {
        Class::L
    } else {
        Class::R
    };
    let pairs: Vec<(usize, usize)> = bracket_pairs(brackets, idx, cls);
    let ghost s0 = cls@;
    let mut q: usize = 0;
    while q < pairs.len()
        invariant
            q <= pairs@.len(),
            s0 == old(cls)@,
            embedding == level_direction(level),
            opposite == opposite_of(embedding),
            cls@ == pairs_resolved(classes@, idx@, s0, pairs@, q as int, embedding, opposite, sos),
            n == idx@.len(),
            n == cls@.len(),
            embedding == Class::L || embedding == Class::R,
            opposite == Class::L || opposite == Class::R,
            sos == Class::L || sos == Class::R,
            forall|p: int| 0 <= p < pairs@.len() ==> (#[trigger] pairs@[p]).0 < pairs@[p].1 < n,
            forall|k: int| 0 <= k < n ==> after_w6(#[trigger] cls@[k]),
        decreases pairs@.len() - q,
    {
        let (open, close) = pairs[q];
        let ghost sq = cls@;
        let mut found_embedding: bool = false;
        let mut found_opposite: bool = false;
        let mut m: usize = open + 1;
        while m < close
            invariant_except_break
                !found_embedding,
                !strong_inside(sq, open as int, m as int, embedding),
            invariant
                open < m <= close || m == open + 1,
                open < close < n,
                n == cls@.len(),
                cls@ == sq,
                embedding == Class::L || embedding == Class::R,
                opposite == Class::L || opposite == Class::R,
                embedding != opposite,
                found_opposite == strong_inside(sq, open as int, m as int, opposite),
            ensures
                found_embedding == strong_inside(sq, open as int, close as int, embedding),
                !found_embedding ==> found_opposite == strong_inside(sq, open as int, close as int, opposite),
            decreases close - m,
        {
            match strong_of(cls[m]) {
                Some(x) => {
                    if x == embedding {
                        found_embedding = true;
                        assert(spec_strong_of(sq[m as int]) == Some(embedding));
                        break;
                    } else {
                        found_opposite = true;
                        assert(spec_strong_of(sq[m as int]) == Some(opposite));
                    }
                },
                None => {},
            }
            proof {
                assert forall|d: Class| #[trigger] strong_inside(sq, open as int, m + 1, d) == (strong_inside(
                    sq,
                    open as int,
                    m as int,
                    d,
                ) || spec_strong_of(sq[m as int]) == Some(d)) by {
                    if strong_inside(sq, open as int, m + 1, d) {
                        let w = choose|w: int| open < w < m + 1 && #[trigger] spec_strong_of(sq[w]) == Some(d);
                        if w < m {
                            assert(spec_strong_of(sq[w]) == Some(d));
                        }
                    }
                    if spec_strong_of(sq[m as int]) == Some(d) {
                        assert(spec_strong_of(sq[m as int]) == Some(d));
                    }
                }
            }
            m = m + 1;
        }
        let set: Option<Class> = if found_embedding {
            Some(embedding)
        } else if found_opposite {
            let mut prior: Class = sos;
            let mut b: usize = open;
            while b > 0
                invariant_except_break
                    prior == sos,
                    prior_strong(sq, open as int, sos) == prior_strong(sq, b as int, sos),
                invariant
                    b <= open < n,
                    n == cls@.len(),
                    cls@ == sq,
                    prior == Class::L || prior == Class::R,
                    sos == Class::L || sos == Class::R,
                ensures
                    prior == prior_strong(sq, open as int, sos),
                decreases b,
            {
                b = b - 1;
                match strong_of(cls[b]) {
                    Some(x) => {
                        prior = x;
                        break;
                    },
                    None => {},
                }
            }
            if prior == opposite {
                Some(opposite)
            } else {
                Some(embedding)
            }
        } else {
            None
        };
        if let Some(dir) = set {
            cls.set(open, dir);
            cls.set(close, dir);
            let ghost s1 = cls@;
            extend_to_marks(classes, idx, cls, open, dir);
            assert(cls@ =~= marks_extended(classes@, idx@, s1, open as int, dir));
            let ghost s2 = cls@;
            extend_to_marks(classes, idx, cls, close, dir);
            assert(cls@ =~= marks_extended(classes@, idx@, s2, close as int, dir));
        }
        proof {
            assert(pairs@[q as int] == (open, close));
        }
        q = q + 1;
    }
    proof {
        assert(pairs_resolved(classes@, idx@, s0, pairs@, pairs@.len() as int, embedding, opposite, sos) == cls@);
    }
}

/// The classes at the positions `idx` of `s`, in order.
pub open spec fn gathered(s: Seq<Class>, idx: Seq<usize>) -> Seq<Class> {
    Seq::new(idx.len(), |k: int| s[idx[k] as int])
}

/// W2 to W7 in turn, after W1 gave `a`.
pub open spec fn weak_after_w1(a: Seq<Class>, sos: Class, eos: Class) -> Seq<Class> {
    let b = Seq::new(a.len(), |k: int| w2_class(a, k, sos));
    let c = Seq::new(b.len(), |k: int| if b[k] == Class::AL { Class::R } else { b[k] });
    let d = spec_w4_from(c, 1);
    let e = Seq::new(d.len(), |k: int| w5_class(d, k, sos, eos));
    let f = Seq::new(
        e.len(),
        |k: int|
            if e[k] == Class::ES || e[k] == Class::ET || e[k] == Class::CS {
                Class::ON
            } else {
                e[k]
            },
    );
    Seq::new(f.len(), |k: int| w7_class(f, k, sos))
}

/// The weak rules W1 to W7 over the classes `s` of a sequence.
pub open spec fn weak_resolved(s: Seq<Class>, sos: Class, eos: Class) -> Seq<Class> {
    weak_after_w1(w1_seq(s, sos, s.len() as int), sos, eos)
}

/// `t` is what N0 makes of `s`: `s` itself without bracket data, else the
/// bracket pairs of `s`, in the order of their opening positions, resolved
/// one after another.
pub open spec fn n0_resolved(
    brackets: Seq<Bracket>,
    classes: Seq<Class>,
    idx: Seq<usize>,
    s: Seq<Class>,
    level: u8,
    sos: Class,
    t: Seq<Class>,
) -> bool {
    if brackets.len() == 0 {
        t == s
    } else {
        exists|ps: Seq<(usize, usize)>|
            pairs_sorted(ps) && ps.to_multiset() == bracket_candidates(brackets, idx, s).to_multiset()
                && #[trigger] pairs_resolved(
                classes,
                idx,
                s,
                ps,
                ps.len() as int,
                level_direction(level),
                opposite_of(level_direction(level)),
                sos,
            ) == t
    }
}

/// N1 and N2 over `t`.
pub open spec fn neutrals_resolved(t: Seq<Class>, sos: Class, eos: Class, level: u8) -> Seq<Class> {
    Seq::new(t.len(), |k: int| n1_class(t, k, sos, eos, level))
}

/// `s` with the first `n` of `vals` written, in order, at the positions
/// `idx`.
pub open spec fn scattered(s: Seq<Class>, idx: Seq<usize>, vals: Seq<Class>, n: int) -> Seq<Class>
    decreases n,
{
    if n <= 0 {
        s
    } else {
        scattered(s, idx, vals, n - 1).update(idx[n - 1] as int, vals[n - 1])
    }
}

/// `after` is `before` once the weak and neutral rules have run over the
/// sequence `q` and its classes have been written back at its positions.
pub open spec fn sequence_resolved(
    brackets: Seq<Bracket>,
    classes: Seq<Class>,
    q: Sequence,
    before: Seq<Class>,
    after: Seq<Class>,
) -> bool {
    exists|t: Seq<Class>|
        n0_resolved(
            brackets,
            classes,
            q.indices@,
            weak_resolved(gathered(before, q.indices@), q.sos, q.eos),
            q.level,
            q.sos,
            t,
        ) && #[trigger] scattered(before, q.indices@, neutrals_resolved(t, q.sos, q.eos, q.level), q.indices@.len() as int)
            == after
}

/// `chain` holds the classes of a paragraph before the sequences `seqs`
/// are resolved and after each of them is, in turn.
pub open spec fn sequences_chain(
    brackets: Seq<Bracket>,
    classes: Seq<Class>,
    seqs: Seq<Sequence>,
    chain: Seq<Seq<Class>>,
) -> bool {
    &&& chain.len() == seqs.len() + 1
    &&& forall|m: int|
        0 <= m < seqs.len() ==> #[trigger] sequence_resolved(brackets, classes, seqs[m], chain[m], chain[m + 1])
}

/// I1–I2: the level of each position from its resolved class and its
/// embedding level.
pub open spec fn implicit_run(r: Seq<Class>, lv: Seq<u8>) -> Seq<u8> {
    Seq::new(lv.len(), |i: int| spec_implicit_level(r[i], lv[i]) as u8)
}

/// W1–W7 and N0–N2 over one isolating run sequence, written back at its
/// positions: each of them ends with a strong class or a number.
fn resolve_sequence(brackets: &[Bracket], classes: &[Class], q: &Sequence, result: &mut Vec<Class>)
    requires
        q.sos == Class::L || q.sos == Class::R,
        q.eos == Class::L || q.eos == Class::R,
        forall|k: int|
            0 <= k < q.indices@.len() ==> #[trigger] q.indices@[k] < old(result)@.len()
                && !old(result)@[q.indices@[k] as int].spec_is_removed_by_x9(),
    ensures
        final(result)@.len() == old(result)@.len(),
        sequence_resolved(brackets@, classes@, *q, old(result)@, final(result)@),
        forall|k: int| 0 <= k < q.indices@.len() ==> resolved(#[trigger] final(result)@[q.indices@[k] as int]),
        forall|i: int|
            0 <= i < old(result)@.len() && (forall|k: int| 0 <= k < q.indices@.len() ==> #[trigger] q.indices@[k] != i)
                ==> final(result)@[i] == old(result)@[i],
{
    let n: usize = q.indices.len();
    let mut cls: Vec<Class> = Vec::new();
    let mut k: usize = 0;
    while k < n
        invariant
            k <= n,
            n == q.indices@.len(),
            cls@.len() == k,
            forall|j: int| 0 <= j < k ==> #[trigger] cls@[j] == result@[q.indices@[j] as int],
            forall|j: int|
                0 <= j < q.indices@.len() ==> #[trigger] q.indices@[j] < result@.len()
                    && !result@[q.indices@[j] as int].spec_is_removed_by_x9(),
        decreases n - k,
    {
        cls.push(result[q.indices[k]]);
        k = k + 1;
    }
    assert forall|j: int| 0 <= j < cls@.len() implies !(#[trigger] cls@[j]).spec_is_removed_by_x9() by {
        assert(q.indices@[j] < result@.len());
    }
    let ghost g = cls@;
    assert(g =~= gathered(result@, q.indices@));
    weak_w1(&mut cls, q.sos);
    let ghost a = cls@;
    weak_w2(&mut cls, q.sos);
    let ghost b = cls@;
    assert(b =~= Seq::new(a.len(), |k: int| w2_class(a, k, q.sos)));
    weak_w3(&mut cls);
    let ghost c = cls@;
    assert(c =~= Seq::new(b.len(), |k: int| if b[k] == Class::AL { Class::R } else { b[k] }));
    weak_w4(&mut cls);
    let ghost d = cls@;
    weak_w5(&mut cls, q.sos, q.eos);
    let ghost e = cls@;
    assert(e =~= Seq::new(d.len(), |k: int| w5_class(d, k, q.sos, q.eos)));
    weak_w6(&mut cls);
    let ghost f = cls@;
    assert(f =~= Seq::new(
        e.len(),
        |k: int|
            if e[k] == Class::ES || e[k] == Class::ET || e[k] == Class::CS {
                Class::ON
            } else {
                e[k]
            },
    ));
    weak_w7(&mut cls, q.sos);
    assert(cls@ =~= Seq::new(f.len(), |k: int| w7_class(f, k, q.sos)));
    assert(cls@ == weak_resolved(g, q.sos, q.eos));
    let ghost weak = cls@;
    resolve_brackets(brackets, classes, &q.indices, &mut cls, q.level, q.sos);
    let ghost t = cls@;
    assert(n0_resolved(brackets@, classes@, q.indices@, weak, q.level, q.sos, t));
    neutral_n1_n2(&mut cls, q.sos, q.eos, q.level);
    assert(cls@ =~= neutrals_resolved(t, q.sos, q.eos, q.level));
    let ghost start = result@;
    let mut w: usize = 0;
    while w < n
        invariant
            w <= n,
            n == q.indices@.len(),
            cls@.len() == n,
            result@.len() == start.len(),
            forall|j: int| 0 <= j < n ==> resolved(#[trigger] cls@[j]),
            forall|j: int| 0 <= j < q.indices@.len() ==> #[trigger] q.indices@[j] < start.len(),
            forall|j: int| 0 <= j < w ==> resolved(#[trigger] result@[q.indices@[j] as int]),
            forall|i: int|
                0 <= i < start.len() && (forall|j: int| 0 <= j < w ==> #[trigger] q.indices@[j] != i)
                    ==> result@[i] == start[i],
            result@ == scattered(start, q.indices@, cls@, w as int),
        decreases n - w,
    {
        let at: usize = q.indices[w];
        result.set(at, cls[w]);
        assert forall|i: int|
            0 <= i < start.len() && (forall|j: int| 0 <= j < w + 1 ==> #[trigger] q.indices@[j] != i)
                implies result@[i] == start[i] by {
            assert(q.indices@[w as int] != i);
        }
        w = w + 1;
    }
    assert(n0_resolved(brackets@, classes@, q.indices@, weak, q.level, q.sos, t) && scattered(
        start,
        q.indices@,
        neutrals_resolved(t, q.sos, q.eos, q.level),
        q.indices@.len() as int,
    ) == result@);
    assert(sequence_resolved(brackets@, classes@, *q, start, result@));
}

/// The level of position `i` once the characters removed by X9 take the
/// level of what precedes them (the paragraph level at the start).
pub open spec fn x9_filled(cs: Seq<Class>, lv: Seq<u8>, base_level: u8, i: int) -> u8
    decreases i + 1,
{
    if i < 0 {
        base_level
    } else if cs[i].spec_is_removed_by_x9() {
        x9_filled(cs, lv, base_level, i - 1)
    } else {
        lv[i]
    }
}

/// The first position from `i` on whose class is not resettable, or the
/// end of the paragraph.
pub open spec fn next_unresettable(cs: Seq<Class>, i: int) -> int
    decreases cs.len() - i,
{
    if i >= cs.len() {
        cs.len() as int
    } else if spec_resettable(cs[i]) {
        next_unresettable(cs, i + 1)
    } else {
        i
    }
}

/// The level L1 gives position `i`: the paragraph level for a segment or
/// paragraph separator and for the resettable classes that run up to one
/// or to the end; else its level with X9's removed characters filled in.
pub open spec fn l1_level(cs: Seq<Class>, lv: Seq<u8>, base_level: u8, i: int) -> u8 {
    let k = next_unresettable(cs, i);
    if cs[i] == Class::B || cs[i] == Class::S || (spec_resettable(cs[i]) && (k == cs.len() || cs[k] == Class::B
        || cs[k] == Class::S)) {
        base_level
    } else {
        x9_filled(cs, lv, base_level, i)
    }
}

/// The levels of a paragraph after L1.
pub open spec fn l1_levels(cs: Seq<Class>, lv: Seq<u8>, base_level: u8) -> Seq<u8> {
    Seq::new(cs.len(), |i: int| l1_level(cs, lv, base_level, i))
}

proof fn lemma_resettable_start_below(cs: Seq<Class>, i: int)
    requires
        0 <= i <= cs.len(),
    ensures
        0 <= resettable_start(cs, i) <= i,
    decreases i,
{
    if i > 0 && spec_resettable(cs[i - 1]) {
        lemma_resettable_start_below(cs, i - 1);
    }
}

proof fn lemma_resettable_start_reaches(cs: Seq<Class>, j: int, i: int)
    requires
        0 <= j <= i <= cs.len(),
    ensures
        resettable_start(cs, i) <= j <==> forall|k: int| j <= k < i ==> spec_resettable(#[trigger] cs[k]),
    decreases i,
{
    lemma_resettable_start_below(cs, i);
    if j < i {
        if spec_resettable(cs[i - 1]) {
            lemma_resettable_start_reaches(cs, j, i - 1);
        }
    }
}

proof fn lemma_next_unresettable_reaches(cs: Seq<Class>, j: int, i: int)
    requires
        0 <= j <= i <= cs.len(),
        i == cs.len() || !spec_resettable(cs[i]),
    ensures
        next_unresettable(cs, j) == i <==> forall|k: int| j <= k < i ==> spec_resettable(#[trigger] cs[k]),
    decreases i - j,
{
    if j < i {
        if spec_resettable(cs[j]) {
            lemma_next_unresettable_reaches(cs, j + 1, i);
            assert((forall|k: int| j + 1 <= k < i ==> spec_resettable(#[trigger] cs[k])) ==> (forall|k: int|
                j <= k < i ==> spec_resettable(#[trigger] cs[k])));
        } else {
            assert(!spec_resettable(cs[j]));
        }
    }
}

/// Position `j` before `i`, where the class is not resettable (or the
/// paragraph ends), is in the run L1 resets before `i` exactly when the
/// first non-resettable class from `j` on stands at `i`.
proof fn lemma_reset_run(cs: Seq<Class>, j: int, i: int)
    requires
        0 <= j < i <= cs.len(),
        i == cs.len() || !spec_resettable(cs[i]),
    ensures
        (resettable_start(cs, i) <= j) == (next_unresettable(cs, j) == i),
{
    lemma_resettable_start_reaches(cs, j, i);
    lemma_next_unresettable_reaches(cs, j, i);
}

proof fn lemma_next_unresettable_bounds(cs: Seq<Class>, j: int)
    requires
        0 <= j <= cs.len(),
    ensures
        j <= next_unresettable(cs, j) <= cs.len(),
        next_unresettable(cs, j) == j <==> (j == cs.len() || !spec_resettable(cs[j])),
    decreases cs.len() - j,
{
    if j < cs.len() && spec_resettable(cs[j]) {
        lemma_next_unresettable_bounds(cs, j + 1);
    }
}

/// L1 over a paragraph, then L2: characters removed by X9 take the level
/// of what precedes them, separators and the whitespace before them and
/// at the end go back to the paragraph level; returns the display order.
fn reorder(classes: &[Class], levels: &mut Vec<u8>, base_level: u8) -> (order: Vec<usize>)
    requires
        old(levels)@.len() == classes@.len(),
        base_level <= 1,
        forall|i: int| 0 <= i < old(levels)@.len() ==> base_level <= #[trigger] old(levels)@[i] <= MAX_DEPTH + 1,
    ensures
        final(levels)@.len() == classes@.len(),
        is_permutation(order@, classes@.len() as int),
        order@ == spec_reorder_levels(final(levels)@),
        forall|i: int| 0 <= i < final(levels)@.len() ==> base_level <= #[trigger] final(levels)@[i] <= MAX_DEPTH + 1,
        forall|i: int|
            0 <= i < classes@.len() && (classes@[i] == Class::B || classes@[i] == Class::S)
                ==> #[trigger] final(levels)@[i] == base_level,
        final(levels)@ == l1_levels(classes@, old(levels)@, base_level),
{
    let n: usize = classes.len();
    let ghost lv = levels@;
    let mut i: usize = 0;
    while i < n
        invariant
            i <= n,
            n == classes@.len(),
            levels@.len() == n,
            base_level <= 1,
            forall|j: int| 0 <= j < n ==> base_level <= #[trigger] levels@[j] <= MAX_DEPTH + 1,
            lv.len() == n,
            forall|j: int| 0 <= j < i ==> #[trigger] levels@[j] == x9_filled(classes@, lv, base_level, j),
            forall|j: int| i <= j < n ==> #[trigger] levels@[j] == lv[j],
        decreases n - i,
    {
        let ghost at_i = levels@[i as int];
        if classes[i].is_removed_by_x9() {
            let v: u8 = if i == 0 {
                base_level
            } else {
                levels[i - 1]
            };
            levels.set(i, v);
        }
        proof {
            assert(x9_filled(classes@, lv, base_level, -1) == base_level);
            assert(at_i == lv[i as int]);
            if i > 0 {
                assert(levels@[i - 1] == x9_filled(classes@, lv, base_level, i - 1));
            }
        }
        assert(levels@[i as int] == x9_filled(classes@, lv, base_level, i as int));
        i = i + 1;
    }
    let mut i: usize = 0;
    while i < n
        invariant
            i <= n,
            n == classes@.len(),
            levels@.len() == n,
            base_level <= 1,
            forall|j: int| 0 <= j < n ==> base_level <= #[trigger] levels@[j] <= MAX_DEPTH + 1,
            forall|j: int|
                0 <= j < i && (classes@[j] == Class::B || classes@[j] == Class::S) ==> #[trigger] levels@[j]
                    == base_level,
            lv.len() == n,
            forall|j: int|
                0 <= j < n ==> #[trigger] levels@[j] == if j < i && (classes@[j] == Class::B || classes@[j]
                    == Class::S || (spec_resettable(classes@[j]) && next_unresettable(classes@, j) < i && (
                classes@[next_unresettable(classes@, j)] == Class::B || classes@[next_unresettable(classes@, j)]
                    == Class::S))) {
                    base_level
                } else {
                    x9_filled(classes@, lv, base_level, j)
                },
        decreases n - i,
    {
        let ghost before = levels@;
        if matches!(classes[i], Class::B | Class::S) {
            levels.set(i, base_level);
            reset_run_before(classes, levels, i, base_level);
            proof {
                assert forall|j: int| 0 <= j < i implies (resettable_start(classes@, i as int) <= j) == (
                next_unresettable(classes@, j) == i) by {
                    lemma_reset_run(classes@, j, i as int);
                }
            }
        }
        proof {
            assert forall|j: int| 0 <= j <= i implies next_unresettable(classes@, j) >= j && (next_unresettable(
                classes@,
                j,
            ) == j <==> !spec_resettable(#[trigger] classes@[j])) by {
                lemma_next_unresettable_bounds(classes@, j);
            }
        }
        i = i + 1;
    }
    let ghost before = levels@;
    reset_run_before(classes, levels, n, base_level);
    proof {
        assert forall|j: int| 0 <= j < n implies (resettable_start(classes@, n as int) <= j) == (next_unresettable(
            classes@,
            j,
        ) == n) && next_unresettable(classes@, j) <= n by {
            lemma_reset_run(classes@, j, n as int);
            lemma_next_unresettable_bounds(classes@, j);
        }
        assert(levels@ =~= l1_levels(classes@, lv, base_level));
    }
    reorder_levels(levels.as_slice())
}

/// Where the run of resettable classes that ends at `from` starts.
pub open spec fn resettable_start(classes: Seq<Class>, from: int) -> int
    decreases from,
{
    if from > 0 && spec_resettable(classes[from - 1]) {
        resettable_start(classes, from - 1)
    } else {
        from
    }
}

/// Sets the run of resettable classes that ends at `from` to the
/// paragraph level.
fn reset_run_before(classes: &[Class], levels: &mut Vec<u8>, from: usize, base_level: u8)
    requires
        old(levels)@.len() == classes@.len(),
        from <= classes@.len(),
    ensures
        final(levels)@.len() == old(levels)@.len(),
        forall|i: int|
            0 <= i < final(levels)@.len() ==> #[trigger] final(levels)@[i] == old(levels)@[i]
                || final(levels)@[i] == base_level,
        forall|i: int|
            0 <= i < final(levels)@.len() && (classes@[i] == Class::B || classes@[i] == Class::S)
                ==> #[trigger] final(levels)@[i] == old(levels)@[i],
        forall|i: int|
            0 <= i < final(levels)@.len() ==> #[trigger] final(levels)@[i] == if resettable_start(classes@, from as int)
                <= i < from {
                base_level
            } else {
                old(levels)@[i]
            },
{
    let mut j: usize = from;
    while j > 0 && is_resettable(classes[j - 1])
        invariant
            j <= from <= classes@.len(),
            resettable_start(classes@, from as int) == resettable_start(classes@, j as int),
            forall|i: int|
                0 <= i < levels@.len() ==> #[trigger] levels@[i] == if j <= i < from {
                    base_level
                } else {
                    old(levels)@[i]
                },
            levels@.len() == classes@.len(),
            old(levels)@.len() == classes@.len(),
            forall|i: int|
                0 <= i < levels@.len() ==> #[trigger] levels@[i] == old(levels)@[i] || levels@[i]
                    == base_level,
            forall|i: int|
                0 <= i < levels@.len() && (classes@[i] == Class::B || classes@[i] == Class::S)
                    ==> #[trigger] levels@[i] == old(levels)@[i],
        decreases j,
    {
        j = j - 1;
        levels.set(j, base_level);
    }
}

/// Resolves a paragraph: its base level (from `base`, or from its first
/// strong character), the level of every character, and its display
/// order. `classes` are the characters' bidirectional classes and
/// `brackets` their bracket pairings. The levels are those of L1 over the
/// implicit levels (I1–I2) of the classes that the explicit rules leave
/// and the weak and neutral rules then resolve over the paragraph's
/// isolating run sequences, one after another.
pub fn resolve(classes: &[Class], brackets: &[Bracket], base: Option<bool>) -> (p: Paragraph)
    ensures
        p.base_level == match base {
            Some(true) => 1,
            Some(false) => 0,
            None => spec_paragraph_level(classes@, 0, classes@.len() as int, 0),
        },
        p.levels@.len() == classes@.len(),
        is_permutation(p.visual_order@, classes@.len() as int),
        p.visual_order@ == spec_reorder_levels(p.levels@),
        forall|i: int| 0 <= i < p.levels@.len() ==> p.base_level <= #[trigger] p.levels@[i] <= MAX_DEPTH + 1,
        forall|i: int|
            0 <= i < classes@.len() && (classes@[i] == Class::B || classes@[i] == Class::S)
                ==> #[trigger] p.levels@[i] == p.base_level,
        exists|seqs: Seq<Sequence>, chain: Seq<Seq<Class>>|
            (forall|q: int| 0 <= q < seqs.len() ==> seq_ok(#[trigger] seqs[q], classes@)) && #[trigger] sequences_chain(
                brackets@,
                classes@,
                seqs,
                chain,
            ) && chain[0] == explicit_run(classes@, p.base_level, classes@.len() as int).2 && p.levels@ == l1_levels(
                classes@,
                implicit_run(chain.last(), explicit_run(classes@, p.base_level, classes@.len() as int).1),
                p.base_level,
            ),
{
    let n: usize = classes.len();
    let base_level: u8 = match base {
        Some(true) => 1,
        Some(false) => 0,
        None => paragraph_level(classes, 0, n),
    };
    let mut levels: Vec<u8> = Vec::new();
    let mut result: Vec<Class> = Vec::new();
    let mut i: usize = 0;
    while i < n
        invariant
            i <= n,
            n == classes@.len(),
            levels@.len() == i,
            result@ == classes@.subrange(0, i as int),
        decreases n - i,
    {
        levels.push(base_level);
        result.push(classes[i]);
        i = i + 1;
    }
    assert(result@ =~= classes@);
    explicit_levels(classes, base_level, &mut levels, &mut result);
    assert forall|j: int|
        0 <= j < n && !classes@[j].spec_is_removed_by_x9() implies !(#[trigger] result@[j]).spec_is_removed_by_x9() by {
        assert(spec_explicit_ok(classes@[j], levels@[j], result@[j], base_level));
    }
    let ghost before_seqs = result@;
    let seqs: Vec<Sequence> = isolating_run_sequences(classes, levels.as_slice(), base_level);
    let ghost mut chain: Seq<Seq<Class>> = seq![result@];
    let mut q: usize = 0;
    while q < seqs.len()
        invariant
            q <= seqs@.len(),
            n == classes@.len(),
            result@.len() == n,
            forall|r: int| 0 <= r < seqs@.len() ==> seq_ok(#[trigger] seqs@[r], classes@),
            forall|j: int|
                0 <= j < n && !classes@[j].spec_is_removed_by_x9() ==> !(#[trigger] result@[j]).spec_is_removed_by_x9(),
            chain.len() == q + 1,
            chain[0] == before_seqs,
            chain.last() == result@,
            forall|m: int|
                0 <= m < q ==> #[trigger] sequence_resolved(brackets@, classes@, seqs@[m], chain[m], chain[m + 1]),
        decreases seqs@.len() - q,
    {
        assert(seq_ok(seqs@[q as int], classes@));
        let ghost before = result@;
        resolve_sequence(brackets, classes, &seqs[q], &mut result);
        proof {
            let ghost old_chain = chain;
            chain = chain.push(result@);
            assert forall|m: int|
                0 <= m < q + 1 implies #[trigger] sequence_resolved(brackets@, classes@, seqs@[m], chain[m], chain[m + 1]) by {
                if m < q {
                    assert(chain[m] == old_chain[m] && chain[m + 1] == old_chain[m + 1]);
                }
            }
        }
        assert forall|j: int|
            0 <= j < n && !classes@[j].spec_is_removed_by_x9() implies !(#[trigger] result@[j]).spec_is_removed_by_x9() by {
            if exists|k: int| 0 <= k < seqs@[q as int].indices@.len() && seqs@[q as int].indices@[k] == j {
                let k = choose|k: int| 0 <= k < seqs@[q as int].indices@.len() && seqs@[q as int].indices@[k] == j;
                assert(resolved(result@[seqs@[q as int].indices@[k] as int]));
            }
        }
        q = q + 1;
    }
    let ghost explicit = levels@;
    implicit_levels(result.as_slice(), &mut levels);
    assert forall|j: int| 0 <= j < n implies base_level <= #[trigger] levels@[j] <= MAX_DEPTH + 1 by {
        assert(spec_explicit_ok(classes@[j], explicit[j], before_seqs[j], base_level));
        assert(levels@[j] == spec_implicit_level(result@[j], explicit[j]));
    }
    assert(levels@ =~= implicit_run(result@, explicit));
    let visual_order: Vec<usize> = reorder(classes, &mut levels, base_level);
    let p = Paragraph { base_level, levels, visual_order };
    assert(before_seqs == explicit_run(classes@, p.base_level, classes@.len() as int).2);
    assert(explicit == explicit_run(classes@, p.base_level, classes@.len() as int).1);
    assert((forall|r: int| 0 <= r < seqs@.len() ==> seq_ok(#[trigger] seqs@[r], classes@)) && sequences_chain(
        brackets@,
        classes@,
        seqs@,
        chain,
    ) && chain[0] == explicit_run(classes@, p.base_level, classes@.len() as int).2 && p.levels@ == l1_levels(
        classes@,
        implicit_run(chain.last(), explicit_run(classes@, p.base_level, classes@.len() as int).1),
        p.base_level,
    ));
    p
}


/// The neutral and isolate classes that N1 and N2 resolve.
pub open spec fn neutral_class(c: Class) -> bool {
    c == Class::B || c == Class::S || c == Class::WS || c == Class::ON || c == Class::LRI || c == Class::RLI
        || c == Class::FSI || c == Class::PDI
}

/// The classes N1 counts as right to left: R, and numbers of either kind.
pub open spec fn counts_as_rtl(c: Class) -> bool {
    c == Class::R || c == Class::EN || c == Class::AN
}

/// N1 and N2 over a run of neutrals at `j1 + 1 .. j2` of `s` that holds
/// position `k`, with `j1` and `j2` the non-neutral positions around it
/// (or the sequence's ends, which stand for `sos` and `eos`): between R
/// (or a number) on both sides it resolves to R, between L on both sides to
/// L, and between L on one side and R or a number on the other to the
/// embedding direction.
pub proof fn lemma_n1_neutral_run(s: Seq<Class>, k: int, j1: int, j2: int, sos: Class, eos: Class, level: u8)
    requires
        -1 <= j1 < k < j2 <= s.len(),
        forall|m: int| j1 < m < j2 ==> neutral_class(#[trigger] s[m]),
        j1 >= 0 ==> !neutral_class(s[j1]),
        j2 < s.len() ==> !neutral_class(s[j2]),
    ensures
        ({
            let left = if j1 >= 0 {
                s[j1]
            } else {
                sos
            };
            let right = if j2 < s.len() {
                s[j2]
            } else {
                eos
            };
            let embedding = if level % 2 == 1 {
                Class::R
            } else {
                Class::L
            };
            &&& counts_as_rtl(left) && counts_as_rtl(right) ==> n1_class(s, k, sos, eos, level) == Class::R
            &&& left == Class::L && right == Class::L ==> n1_class(s, k, sos, eos, level) == Class::L
            &&& (left == Class::L && counts_as_rtl(right)) || (counts_as_rtl(left) && right == Class::L)
                ==> n1_class(s, k, sos, eos, level) == embedding
        }),
{
    assert forall|m: int| j1 + 1 <= m < j2 implies (#[trigger] s[m]).spec_is_neutral_or_isolate() by {
        assert(neutral_class(s[m]));
    }
    lemma_neutral_run(s, j1 + 1, j2, k);
}


/// Whether `c` is a strong class as W2 sees it: L, R or AL.
pub open spec fn strong_for_w2(c: Class) -> bool {
    c == Class::L || c == Class::R || c == Class::AL
}

proof fn lemma_last_strong_w2_at(s: Seq<Class>, k: int, j: int, sos: Class)
    requires
        -1 <= j < k <= s.len(),
        j >= 0 ==> strong_for_w2(s[j]),
        forall|m: int| j < m < k ==> !strong_for_w2(#[trigger] s[m]),
    ensures
        last_strong_w2(s, k, sos) == if j >= 0 {
            s[j]
        } else {
            sos
        },
    decreases k,
{
    if k > j + 1 {
        assert(!strong_for_w2(s[k - 1]));
        lemma_last_strong_w2_at(s, k - 1, j, sos);
    }
}

/// W2: a European number whose nearest strong class before it (L, R or AL,
/// else `sos`) is AL becomes an Arabic number; after L or R it stays;
/// anything else is left alone.
pub proof fn lemma_w2_rule(s: Seq<Class>, k: int, j: int, sos: Class)
    requires
        -1 <= j < k < s.len(),
        j >= 0 ==> strong_for_w2(s[j]),
        forall|m: int| j < m < k ==> !strong_for_w2(#[trigger] s[m]),
    ensures
        ({
            let prev = if j >= 0 {
                s[j]
            } else {
                sos
            };
            &&& s[k] == Class::EN && prev == Class::AL ==> w2_class(s, k, sos) == Class::AN
            &&& s[k] == Class::EN && (prev == Class::L || prev == Class::R) ==> w2_class(s, k, sos) == Class::EN
            &&& s[k] != Class::EN ==> w2_class(s, k, sos) == s[k]
        }),
{
    lemma_last_strong_w2_at(s, k, j, sos);
}

proof fn lemma_last_strong_w7_at(s: Seq<Class>, k: int, j: int, sos: Class)
    requires
        -1 <= j < k <= s.len(),
        j >= 0 ==> (s[j] == Class::L || s[j] == Class::R),
        forall|m: int| j < m < k ==> (#[trigger] s[m]) != Class::L && s[m] != Class::R,
    ensures
        last_strong_w7(s, k, sos) == if j >= 0 {
            s[j]
        } else {
            sos
        },
    decreases k,
{
    if k > j + 1 {
        assert(s[k - 1] != Class::L && s[k - 1] != Class::R);
        lemma_last_strong_w7_at(s, k - 1, j, sos);
    }
}

/// W7: a European number whose nearest strong class before it (L or R,
/// else `sos`) is L becomes L; after R it stays a European number; anything
/// else is left alone.
pub proof fn lemma_w7_rule(s: Seq<Class>, k: int, j: int, sos: Class)
    requires
        -1 <= j < k < s.len(),
        j >= 0 ==> (s[j] == Class::L || s[j] == Class::R),
        forall|m: int| j < m < k ==> (#[trigger] s[m]) != Class::L && s[m] != Class::R,
    ensures
        ({
            let prev = if j >= 0 {
                s[j]
            } else {
                sos
            };
            &&& s[k] == Class::EN && prev == Class::L ==> w7_class(s, k, sos) == Class::L
            &&& s[k] == Class::EN && prev == Class::R ==> w7_class(s, k, sos) == Class::EN
            &&& s[k] != Class::EN ==> w7_class(s, k, sos) == s[k]
        }),
{
    lemma_last_strong_w7_at(s, k, j, sos);
}

/// W4: a single European separator between two European numbers becomes
/// one; a single common separator between two numbers of the same kind
/// takes that kind; any other position is left alone.
pub proof fn lemma_w4_rule(s: Seq<Class>, i: int)
    requires
        0 < i < s.len() - 1,
    ensures
        s[i] == Class::ES && s[i - 1] == Class::EN && s[i + 1] == Class::EN ==> w4_class(s, i) == Class::EN,
        s[i] == Class::CS && s[i - 1] == Class::EN && s[i + 1] == Class::EN ==> w4_class(s, i) == Class::EN,
        s[i] == Class::CS && s[i - 1] == Class::AN && s[i + 1] == Class::AN ==> w4_class(s, i) == Class::AN,
        s[i] == Class::ES && s[i - 1] == Class::AN && s[i + 1] == Class::AN ==> w4_class(s, i) == Class::ES,
        !(s[i] == Class::ES || s[i] == Class::CS) ==> w4_class(s, i) == s[i],
        (s[i] == Class::ES || s[i] == Class::CS) && s[i - 1] != s[i + 1] ==> w4_class(s, i) == s[i],
{
}

/// W5: a run of European terminators at `a .. b` becomes European numbers
/// exactly when a European number (or `sos` or `eos` as one) stands right
/// before or right after it.
pub proof fn lemma_w5_rule(s: Seq<Class>, k: int, a: int, b: int, sos: Class, eos: Class)
    requires
        0 <= a <= k < b <= s.len(),
        forall|m: int| a <= m < b ==> (#[trigger] s[m]) == Class::ET,
        a == 0 || s[a - 1] != Class::ET,
        b == s.len() || s[b] != Class::ET,
    ensures
        (w5_class(s, k, sos, eos) == Class::EN) == ((a > 0 && s[a - 1] == Class::EN) || (a == 0 && sos == Class::EN)
            || (b < s.len() && s[b] == Class::EN) || (b == s.len() && eos == Class::EN)),
        w5_class(s, k, sos, eos) == Class::EN || w5_class(s, k, sos, eos) == Class::ET,
{
    lemma_et_start(s, a, k);
    lemma_et_end(s, k, b);
}

/// I1–I2: on an even level R goes up one and numbers two; on an odd level
/// L and numbers go up one; everything else keeps its level.
pub proof fn lemma_implicit_rule(c: Class, level: u8)
    ensures
        level % 2 == 0 && c == Class::R ==> spec_implicit_level(c, level) == level + 1,
        level % 2 == 0 && (c == Class::EN || c == Class::AN) ==> spec_implicit_level(c, level) == level + 2,
        level % 2 == 0 && c == Class::L ==> spec_implicit_level(c, level) == level,
        level % 2 == 1 && (c == Class::L || c == Class::EN || c == Class::AN) ==> spec_implicit_level(c, level)
            == level + 1,
        level % 2 == 1 && c == Class::R ==> spec_implicit_level(c, level) == level,
{
}


/// The CJK angle brackets take the canonical form of the old mathematical
/// angle brackets they are equivalent to; canonical forms are their own.
pub proof fn lemma_canonical_bracket(c: u32)
    ensures
        spec_canonical_bracket(0x3008) == 0x2329,
        spec_canonical_bracket(0x3009) == 0x232A,
        spec_canonical_bracket(spec_canonical_bracket(c)) == spec_canonical_bracket(c),
        c != 0x3008 && c != 0x3009 ==> spec_canonical_bracket(c) == c,
{
}


/// X2–X5: an embedding or isolate opens at the least level above the
/// current one with the right parity: odd for right to left, even for left
/// to right.
pub proof fn lemma_next_level_rule(last: u8, rtl: bool, other: int)
    ensures
        spec_next_level(last, rtl) > last,
        rtl ==> spec_next_level(last, rtl) % 2 == 1,
        !rtl ==> spec_next_level(last, rtl) % 2 == 0,
        last < other < spec_next_level(last, rtl) ==> (rtl ==> other % 2 == 0) && (!rtl ==> other % 2 == 1),
{
}

proof fn lemma_w1_len(s: Seq<Class>, sos: Class, n: int)
    requires
        0 <= n <= s.len(),
    ensures
        w1_seq(s, sos, n).len() == n,
        forall|m: int| 0 <= m < n ==> #[trigger] w1_seq(s, sos, n)[m] == w1_seq(s, sos, m + 1)[m],
    decreases n,
{
    if n > 0 {
        lemma_w1_len(s, sos, n - 1);
        assert forall|m: int| 0 <= m < n implies #[trigger] w1_seq(s, sos, n)[m] == w1_seq(s, sos, m + 1)[m] by {
            if m < n - 1 {
                assert(w1_seq(s, sos, n)[m] == w1_seq(s, sos, n - 1)[m]);
            }
        }
    }
}

/// W1: in the result, a non-spacing mark has become what stands before it
/// in the result (`sos` at the start), or ON where that is an isolate
/// initiator or a PDI; every other class is kept.
pub proof fn lemma_w1_rule(s: Seq<Class>, sos: Class, k: int)
    requires
        0 <= k < s.len(),
    ensures
        ({
            let r = w1_seq(s, sos, s.len() as int);
            let prev = if k == 0 {
                sos
            } else {
                r[k - 1]
            };
            &&& s[k] != Class::NSM ==> r[k] == s[k]
            &&& s[k] == Class::NSM && (prev == Class::LRI || prev == Class::RLI || prev == Class::FSI || prev
                == Class::PDI) ==> r[k] == Class::ON
            &&& s[k] == Class::NSM && !(prev == Class::LRI || prev == Class::RLI || prev == Class::FSI || prev
                == Class::PDI) ==> r[k] == prev
        }),
{
    lemma_w1_len(s, sos, s.len() as int);
    lemma_w1_len(s, sos, k + 1);
    if k > 0 {
        lemma_w1_len(s, sos, k);
        assert(w1_seq(s, sos, s.len() as int)[k - 1] == w1_seq(s, sos, k)[k - 1]);
    }
    assert(w1_seq(s, sos, s.len() as int)[k] == w1_seq(s, sos, k + 1)[k]);
}

} // verus!