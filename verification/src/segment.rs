//! Grapheme cluster and word boundaries (UAX #29), from the break
//! properties of each character.

use vstd::prelude::*;

verus! {

pub const GCB_CR: u8 = 1;
pub const GCB_LF: u8 = 2;
pub const GCB_CONTROL: u8 = 3;
pub const GCB_EXTEND: u8 = 4;
pub const GCB_ZWJ: u8 = 5;
pub const GCB_REGIONAL_INDICATOR: u8 = 6;
pub const GCB_PREPEND: u8 = 7;
pub const GCB_SPACING_MARK: u8 = 8;
pub const GCB_L: u8 = 9;
pub const GCB_V: u8 = 10;
pub const GCB_T: u8 = 11;
pub const GCB_LV: u8 = 12;
pub const GCB_LVT: u8 = 13;

pub const WB_OTHER: u8 = 0;
pub const WB_CR: u8 = 1;
pub const WB_LF: u8 = 2;
pub const WB_NEWLINE: u8 = 3;
pub const WB_EXTEND: u8 = 4;
pub const WB_ZWJ: u8 = 5;
pub const WB_REGIONAL_INDICATOR: u8 = 6;
pub const WB_FORMAT: u8 = 7;
pub const WB_KATAKANA: u8 = 8;
pub const WB_HEBREW_LETTER: u8 = 9;
pub const WB_ALETTER: u8 = 10;
pub const WB_SINGLE_QUOTE: u8 = 11;
pub const WB_DOUBLE_QUOTE: u8 = 12;
pub const WB_MID_NUM_LET: u8 = 13;
pub const WB_MID_LETTER: u8 = 14;
pub const WB_MID_NUM: u8 = 15;
pub const WB_NUMERIC: u8 = 16;
pub const WB_EXTEND_NUM_LET: u8 = 17;
pub const WB_WSEG_SPACE: u8 = 18;

pub const INCB_CONSONANT: u8 = 1;
pub const INCB_EXTEND: u8 = 2;
pub const INCB_LINKER: u8 = 3;

/// The segmentation properties of one character: its grapheme cluster
/// break, word break and Indic conjunct break values, and whether it is
/// an extended pictographic character.
#[derive(Clone, Copy, PartialEq, Eq, Structural, Debug)]
pub struct BreakProps {
    pub grapheme: u8,
    pub word: u8,
    pub conjunct: u8,
    pub pictographic: bool,
}

/// GB11's look-back from the ZWJ at `j`: the position reached by skipping
/// the run of Extend characters before it.
pub open spec fn spec_gb11_stop(ps: Seq<BreakProps>, j: int) -> int
    decreases j,
{
    if j <= 0 {
        0
    } else if ps[j - 1].grapheme == GCB_EXTEND {
        spec_gb11_stop(ps, j - 1)
    } else {
        j - 1
    }
}

/// GB9c's look-back before `j`: a consonant, then linkers and extends with
/// at least one linker (`seen`) among them.
pub open spec fn spec_gb9c_joined(ps: Seq<BreakProps>, j: int, seen: bool) -> bool
    decreases j,
{
    if j <= 0 {
        false
    } else if ps[j - 1].conjunct == INCB_LINKER {
        spec_gb9c_joined(ps, j - 1, true)
    } else if ps[j - 1].conjunct == INCB_EXTEND {
        spec_gb9c_joined(ps, j - 1, seen)
    } else if ps[j - 1].conjunct == INCB_CONSONANT {
        seen
    } else {
        false
    }
}

/// The number of regional indicators right before `j`.
pub open spec fn spec_ri_run(ps: Seq<BreakProps>, j: int) -> int
    decreases j,
{
    if j > 0 && ps[j - 1].grapheme == GCB_REGIONAL_INDICATOR {
        1 + spec_ri_run(ps, j - 1)
    } else {
        0
    }
}

pub open spec fn is_control_like(g: u8) -> bool {
    g == GCB_CONTROL || g == GCB_CR || g == GCB_LF
}

/// GB3–GB999: whether a grapheme cluster boundary falls between positions
/// `i - 1` and `i`.
pub open spec fn spec_grapheme_break(ps: Seq<BreakProps>, i: int) -> bool {
    let before = ps[i - 1].grapheme;
    let after = ps[i].grapheme;
    if before == GCB_CR && after == GCB_LF {
        false
    } else if is_control_like(before) || is_control_like(after) {
        true
    } else if before == GCB_L && (after == GCB_L || after == GCB_V || after == GCB_LV || after
        == GCB_LVT) {
        false
    } else if (before == GCB_LV || before == GCB_V) && (after == GCB_V || after == GCB_T) {
        false
    } else if (before == GCB_LVT || before == GCB_T) && after == GCB_T {
        false
    } else if after == GCB_EXTEND || after == GCB_ZWJ || after == GCB_SPACING_MARK {
        false
    } else if before == GCB_PREPEND {
        false
    } else if before == GCB_ZWJ && ps[i].pictographic && ps[spec_gb11_stop(ps, i - 1)].pictographic {
        false
    } else if ps[i].conjunct == INCB_CONSONANT && spec_gb9c_joined(ps, i, false) {
        false
    } else if before == GCB_REGIONAL_INDICATOR && after == GCB_REGIONAL_INDICATOR {
        spec_ri_run(ps, i) % 2 == 0
    } else {
        true
    }
}

/// GB11's look-back from the ZWJ at `j` over the Extend characters before
/// it.
fn gb11_stop(ps: &[BreakProps], j: usize) -> (r: usize)
    requires
        j < ps@.len(),
    ensures
        r == spec_gb11_stop(ps@, j as int),
        r <= j,
{
    let mut k: usize = j;
    while k > 0 && ps[k - 1].grapheme == GCB_EXTEND
        invariant
            k <= j < ps@.len(),
            spec_gb11_stop(ps@, j as int) == spec_gb11_stop(ps@, k as int),
        decreases k,
    {
        k = k - 1;
    }
    if k > 0 {
        k - 1
    } else {
        0
    }
}

/// GB9c's look-back before `i`.
fn gb9c_joined(ps: &[BreakProps], i: usize) -> (r: bool)
    requires
        i <= ps@.len(),
    ensures
        r == spec_gb9c_joined(ps@, i as int, false),
{
    let mut j: usize = i;
    let mut seen_linker: bool = false;
    while j > 0
        invariant
            j <= i <= ps@.len(),
            spec_gb9c_joined(ps@, i as int, false) == spec_gb9c_joined(ps@, j as int, seen_linker),
        decreases j,
    {
        let c: u8 = ps[j - 1].conjunct;
        if c == INCB_LINKER {
            seen_linker = true;
        } else if c == INCB_EXTEND {
        } else if c == INCB_CONSONANT {
            return seen_linker;
        } else {
            return false;
        }
        j = j - 1;
    }
    false
}

/// The number of regional indicators right before `i`.
fn ri_run(ps: &[BreakProps], i: usize) -> (r: usize)
    requires
        i <= ps@.len(),
    ensures
        r == spec_ri_run(ps@, i as int),
{
    let mut count: usize = 0;
    let mut j: usize = i;
    while j > 0 && ps[j - 1].grapheme == GCB_REGIONAL_INDICATOR
        invariant
            j <= i <= ps@.len(),
            count == i - j,
            spec_ri_run(ps@, i as int) == count + spec_ri_run(ps@, j as int),
        decreases j,
    {
        count = count + 1;
        j = j - 1;
    }
    count
}

fn grapheme_break_between(ps: &[BreakProps], i: usize) -> (r: bool)
    requires
        1 <= i < ps@.len(),
    ensures
        r == spec_grapheme_break(ps@, i as int),
{
    let before: u8 = ps[i - 1].grapheme;
    let after: u8 = ps[i].grapheme;
    if before == GCB_CR && after == GCB_LF {
        return false;
    }
    if before == GCB_CONTROL || before == GCB_CR || before == GCB_LF {
        return true;
    }
    if after == GCB_CONTROL || after == GCB_CR || after == GCB_LF {
        return true;
    }
    if before == GCB_L && (after == GCB_L || after == GCB_V || after == GCB_LV || after == GCB_LVT) {
        return false;
    }
    if (before == GCB_LV || before == GCB_V) && (after == GCB_V || after == GCB_T) {
        return false;
    }
    if (before == GCB_LVT || before == GCB_T) && after == GCB_T {
        return false;
    }
    if after == GCB_EXTEND || after == GCB_ZWJ {
        return false;
    }
    if after == GCB_SPACING_MARK {
        return false;
    }
    if before == GCB_PREPEND {
        return false;
    }
    if before == GCB_ZWJ && ps[i].pictographic && ps[gb11_stop(ps, i - 1)].pictographic {
        return false;
    }
    if ps[i].conjunct == INCB_CONSONANT && gb9c_joined(ps, i) {
        return false;
    }
    if before == GCB_REGIONAL_INDICATOR && after == GCB_REGIONAL_INDICATOR {
        return ri_run(ps, i) % 2 == 0;
    }
    true
}

/// The positions among `1 .. n`, in order, where `brk` says a boundary
/// falls.
pub open spec fn spec_inner_breaks(brk: spec_fn(int) -> bool, n: int) -> Seq<usize>
    decreases n,
{
    if n <= 1 {
        Seq::empty()
    } else {
        let before = spec_inner_breaks(brk, n - 1);
        if brk(n - 1) {
            before.push((n - 1) as usize)
        } else {
            before
        }
    }
}

/// The interior grapheme cluster boundaries of text of length `n`.
pub open spec fn spec_grapheme_inner(ps: Seq<BreakProps>, n: int) -> Seq<usize> {
    spec_inner_breaks(|k: int| spec_grapheme_break(ps, k), n)
}

/// The values rise strictly, from `0` to `n`.
pub open spec fn boundaries_ok(b: Seq<usize>, n: int) -> bool {
    &&& b.len() >= 1
    &&& b[0] == 0
    &&& b.last() == n
    &&& forall|i: int, j: int| 0 <= i < j < b.len() ==> b[i] < b[j]
}

proof fn lemma_inner_range(brk: spec_fn(int) -> bool, n: int)
    requires
        n <= usize::MAX,
    ensures
        forall|k: int| 0 <= k < spec_inner_breaks(brk, n).len() ==> 1 <= #[trigger] spec_inner_breaks(brk, n)[k] < n,
        forall|a: int, b: int|
            0 <= a < b < spec_inner_breaks(brk, n).len() ==> spec_inner_breaks(brk, n)[a]
                < spec_inner_breaks(brk, n)[b],
    decreases n,
{
    if n > 1 {
        lemma_inner_range(brk, n - 1);
        let prev = spec_inner_breaks(brk, n - 1);
        let cur = spec_inner_breaks(brk, n);
        assert forall|k: int| 0 <= k < cur.len() implies 1 <= #[trigger] cur[k] < n by {
            if k < prev.len() {
                assert(cur[k] == prev[k]);
            }
        }
        assert forall|a: int, b: int| 0 <= a < b < cur.len() implies cur[a] < cur[b] by {
            assert(cur[a] == prev[a]);
            if b < prev.len() {
                assert(cur[b] == prev[b]);
            }
        }
    }
}

proof fn lemma_inner_contains(brk: spec_fn(int) -> bool, n: int, i: int)
    requires
        n <= usize::MAX,
        0 <= i <= usize::MAX,
    ensures
        spec_inner_breaks(brk, n).contains(i as usize) <==> (1 <= i < n && brk(i)),
    decreases n,
{
    if n > 1 {
        lemma_inner_contains(brk, n - 1, i);
        lemma_inner_range(brk, n - 1);
        let prev = spec_inner_breaks(brk, n - 1);
        let cur = spec_inner_breaks(brk, n);
        if brk(n - 1) {
            assert(cur == prev.push((n - 1) as usize));
            if cur.contains(i as usize) {
                let k = choose|k: int| 0 <= k < cur.len() && cur[k] == i as usize;
                if k < prev.len() {
                    assert(prev[k] == i as usize);
                }
            }
            if prev.contains(i as usize) {
                let k = choose|k: int| 0 <= k < prev.len() && prev[k] == i as usize;
                assert(cur[k] == i as usize);
            }
            if i == n - 1 {
                assert(cur[cur.len() - 1] == i as usize);
            }
        } else {
            if i == n - 1 && prev.contains(i as usize) {
                let k = choose|k: int| 0 <= k < prev.len() && prev[k] == i as usize;
                assert(prev[k] < n - 1);
            }
        }
    }
}

/// Grapheme clusters keep a CR followed by an LF together, and keep each
/// pair of regional indicators together: no boundary falls after a CR
/// that an LF follows, nor after a regional indicator that starts a pair
/// (one with an even number of regional indicators right before it) when
/// another follows it.
pub proof fn lemma_grapheme_pairs_kept(ps: Seq<BreakProps>, i: int)
    requires
        0 < i < ps.len() <= usize::MAX,
        (ps[i - 1].grapheme == GCB_CR && ps[i].grapheme == GCB_LF) || (ps[i - 1].grapheme == GCB_REGIONAL_INDICATOR
            && ps[i].grapheme == GCB_REGIONAL_INDICATOR && spec_ri_run(ps, i - 1) % 2 == 0),
    ensures
        !spec_grapheme_inner(ps, ps.len() as int).contains(i as usize),
{
    lemma_inner_contains(|k: int| spec_grapheme_break(ps, k), ps.len() as int, i);
    if ps[i - 1].grapheme == GCB_REGIONAL_INDICATOR && ps[i].grapheme == GCB_REGIONAL_INDICATOR {
        assert(spec_ri_run(ps, i) == 1 + spec_ri_run(ps, i - 1));
    }
}

/// The grapheme cluster boundaries of text with the given properties:
/// `0`, each position where a cluster starts, and the length.
pub fn grapheme_boundaries(ps: &[BreakProps]) -> (out: Vec<usize>)
    ensures
        ps@.len() == 0 ==> out@ == seq![0usize],
        ps@.len() > 0 ==> out@ == seq![0usize] + spec_grapheme_inner(ps@, ps@.len() as int).push(
            ps@.len() as usize,
        ),
        ps@.len() > 0 ==> boundaries_ok(out@, ps@.len() as int),
{
    let mut out: Vec<usize> = Vec::new();
    out.push(0);
    let n: usize = ps.len();
    if n == 0 {
        return out;
    }
    let mut i: usize = 1;
    while i < n
        invariant
            1 <= i <= n,
            n == ps@.len(),
            out@ == seq![0usize] + spec_grapheme_inner(ps@, i as int),
        decreases n - i,
    {
        if grapheme_break_between(ps, i) {
            out.push(i);
        }
        i = i + 1;
    }
    out.push(n);
    proof {
        lemma_inner_range(|k: int| spec_grapheme_break(ps@, k), n as int);
        let inner = spec_grapheme_inner(ps@, n as int);
        assert forall|a: int, b: int| 0 <= a < b < out@.len() implies out@[a] < out@[b] by {
            if a > 0 && b < out@.len() - 1 {
                assert(out@[a] == inner[a - 1]);
                assert(out@[b] == inner[b - 1]);
            } else if a == 0 && b < out@.len() - 1 {
                assert(out@[b] == inner[b - 1]);
            } else if a > 0 {
                assert(out@[a] == inner[a - 1]);
            }
        }
    }
    out
}

pub open spec fn is_newline_like(w: u8) -> bool {
    w == WB_NEWLINE || w == WB_CR || w == WB_LF
}

pub open spec fn is_ignorable(w: u8) -> bool {
    w == WB_EXTEND || w == WB_FORMAT || w == WB_ZWJ
}

pub open spec fn is_letter(w: u8) -> bool {
    w == WB_ALETTER || w == WB_HEBREW_LETTER
}

pub open spec fn is_mid_letter_like(w: u8) -> bool {
    w == WB_MID_LETTER || w == WB_MID_NUM_LET || w == WB_SINGLE_QUOTE
}

pub open spec fn is_mid_num_like(w: u8) -> bool {
    w == WB_MID_NUM || w == WB_MID_NUM_LET || w == WB_SINGLE_QUOTE
}

/// WB4: a position that the word rules look at: anything but Extend,
/// Format and ZWJ, save at the start or right after a newline.
pub open spec fn spec_significant(ps: Seq<BreakProps>, i: int) -> bool {
    !is_ignorable(ps[i].word) || i == 0 || is_newline_like(ps[i - 1].word)
}

/// The significant positions below `n`, in order.
pub open spec fn spec_significant_upto(ps: Seq<BreakProps>, n: int) -> Seq<usize>
    decreases n,
{
    if n <= 0 {
        Seq::empty()
    } else {
        let before = spec_significant_upto(ps, n - 1);
        if spec_significant(ps, n - 1) {
            before.push((n - 1) as usize)
        } else {
            before
        }
    }
}

/// The first index, from `k` on, of `x` in `s`.
pub open spec fn spec_index_of(s: Seq<usize>, x: usize, k: int) -> Option<int>
    decreases s.len() - k,
{
    if k < 0 || k >= s.len() {
        None
    } else if s[k] == x {
        Some(k)
    } else {
        spec_index_of(s, x, k + 1)
    }
}

/// The word break value of significant position `k`, or Other outside.
pub open spec fn spec_sig_word(ps: Seq<BreakProps>, sig: Seq<usize>, k: int) -> u8 {
    if 0 <= k < sig.len() {
        ps[sig[k] as int].word
    } else {
        WB_OTHER
    }
}

/// The number of regional indicators among the significant positions
/// right before `k`.
pub open spec fn spec_sig_ri_run(ps: Seq<BreakProps>, sig: Seq<usize>, k: int) -> int
    decreases k,
{
    if k > 0 && spec_sig_word(ps, sig, k - 1) == WB_REGIONAL_INDICATOR {
        1 + spec_sig_ri_run(ps, sig, k - 1)
    } else {
        0
    }
}

/// WB5–WB999 at significant position `pos` (not the first).
pub open spec fn spec_word_rules(ps: Seq<BreakProps>, sig: Seq<usize>, pos: int) -> bool {
    let prev = spec_sig_word(ps, sig, pos - 1);
    let cur = spec_sig_word(ps, sig, pos);
    let next = spec_sig_word(ps, sig, pos + 1);
    let prev2 = spec_sig_word(ps, sig, pos - 2);
    if is_letter(prev) && is_letter(cur) {
        false
    } else if is_letter(prev) && is_mid_letter_like(cur) && is_letter(next) {
        false
    } else if is_letter(prev2) && is_mid_letter_like(prev) && is_letter(cur) {
        false
    } else if prev == WB_HEBREW_LETTER && cur == WB_SINGLE_QUOTE {
        false
    } else if prev == WB_HEBREW_LETTER && cur == WB_DOUBLE_QUOTE && next == WB_HEBREW_LETTER {
        false
    } else if prev2 == WB_HEBREW_LETTER && prev == WB_DOUBLE_QUOTE && cur == WB_HEBREW_LETTER {
        false
    } else if prev == WB_NUMERIC && cur == WB_NUMERIC {
        false
    } else if is_letter(prev) && cur == WB_NUMERIC {
        false
    } else if prev == WB_NUMERIC && is_letter(cur) {
        false
    } else if prev2 == WB_NUMERIC && is_mid_num_like(prev) && cur == WB_NUMERIC {
        false
    } else if prev == WB_NUMERIC && is_mid_num_like(cur) && next == WB_NUMERIC {
        false
    } else if prev == WB_KATAKANA && cur == WB_KATAKANA {
        false
    } else if (is_letter(prev) || prev == WB_NUMERIC || prev == WB_KATAKANA || prev
        == WB_EXTEND_NUM_LET) && cur == WB_EXTEND_NUM_LET {
        false
    } else if prev == WB_EXTEND_NUM_LET && (is_letter(cur) || cur == WB_NUMERIC || cur
        == WB_KATAKANA) {
        false
    } else if prev == WB_REGIONAL_INDICATOR && cur == WB_REGIONAL_INDICATOR {
        spec_sig_ri_run(ps, sig, pos) % 2 == 0
    } else {
        true
    }
}

/// WB3–WB999: whether a word boundary falls between positions `i - 1` and
/// `i`.
pub open spec fn spec_word_break(ps: Seq<BreakProps>, i: int) -> bool {
    let prev_raw = ps[i - 1].word;
    let cur_raw = ps[i].word;
    if prev_raw == WB_CR && cur_raw == WB_LF {
        false
    } else if is_newline_like(prev_raw) || is_newline_like(cur_raw) {
        true
    } else if prev_raw == WB_ZWJ && ps[i].pictographic {
        false
    } else if prev_raw == WB_WSEG_SPACE && cur_raw == WB_WSEG_SPACE {
        false
    } else if is_ignorable(cur_raw) {
        false
    } else {
        let sig = spec_significant_upto(ps, ps.len() as int);
        match spec_index_of(sig, i as usize, 0) {
            None => false,
            Some(pos) => if pos == 0 {
                true
            } else {
                spec_word_rules(ps, sig, pos)
            },
        }
    }
}

/// The interior word boundaries of text of length `n`.
pub open spec fn spec_word_inner(ps: Seq<BreakProps>, n: int) -> Seq<usize> {
    spec_inner_breaks(|k: int| spec_word_break(ps, k), n)
}

fn is_letter_exec(w: u8) -> (r: bool)
    ensures
        r == is_letter(w),
{
    w == WB_ALETTER || w == WB_HEBREW_LETTER
}

fn sig_word(ps: &[BreakProps], sig: &Vec<usize>, k: usize) -> (r: u8)
    requires
        forall|m: int| 0 <= m < sig@.len() ==> #[trigger] sig@[m] < ps@.len(),
    ensures
        r == spec_sig_word(ps@, sig@, k as int),
{
    if k < sig.len() {
        ps[sig[k]].word
    } else {
        WB_OTHER
    }
}

fn word_rules(ps: &[BreakProps], sig: &Vec<usize>, pos: usize) -> (r: bool)
    requires
        1 <= pos < sig@.len(),
        forall|m: int| 0 <= m < sig@.len() ==> #[trigger] sig@[m] < ps@.len(),
    ensures
        r == spec_word_rules(ps@, sig@, pos as int),
{
    let prev: u8 = sig_word(ps, sig, pos - 1);
    let cur: u8 = sig_word(ps, sig, pos);
    let count_sig: usize = sig.len();
    let next: u8 = sig_word(ps, sig, pos + 1);
    let prev2: u8 = if pos >= 2 {
        sig_word(ps, sig, pos - 2)
    } else {
        WB_OTHER
    };
    let mid_letter = |w: u8| -> (r: bool)
        ensures
            r == is_mid_letter_like(w),
        { w == WB_MID_LETTER || w == WB_MID_NUM_LET || w == WB_SINGLE_QUOTE };
    let mid_num = |w: u8| -> (r: bool)
        ensures
            r == is_mid_num_like(w),
        { w == WB_MID_NUM || w == WB_MID_NUM_LET || w == WB_SINGLE_QUOTE };
    if is_letter_exec(prev) && is_letter_exec(cur) {
        return false;
    }
    if is_letter_exec(prev) && mid_letter(cur) && is_letter_exec(next) {
        return false;
    }
    if is_letter_exec(prev2) && mid_letter(prev) && is_letter_exec(cur) {
        return false;
    }
    if prev == WB_HEBREW_LETTER && cur == WB_SINGLE_QUOTE {
        return false;
    }
    if prev == WB_HEBREW_LETTER && cur == WB_DOUBLE_QUOTE && next == WB_HEBREW_LETTER {
        return false;
    }
    if prev2 == WB_HEBREW_LETTER && prev == WB_DOUBLE_QUOTE && cur == WB_HEBREW_LETTER {
        return false;
    }
    if prev == WB_NUMERIC && cur == WB_NUMERIC {
        return false;
    }
    if is_letter_exec(prev) && cur == WB_NUMERIC {
        return false;
    }
    if prev == WB_NUMERIC && is_letter_exec(cur) {
        return false;
    }
    if prev2 == WB_NUMERIC && mid_num(prev) && cur == WB_NUMERIC {
        return false;
    }
    if prev == WB_NUMERIC && mid_num(cur) && next == WB_NUMERIC {
        return false;
    }
    if prev == WB_KATAKANA && cur == WB_KATAKANA {
        return false;
    }
    if (is_letter_exec(prev) || prev == WB_NUMERIC || prev == WB_KATAKANA || prev == WB_EXTEND_NUM_LET)
        && cur == WB_EXTEND_NUM_LET {
        return false;
    }
    if prev == WB_EXTEND_NUM_LET && (is_letter_exec(cur) || cur == WB_NUMERIC || cur == WB_KATAKANA) {
        return false;
    }
    if prev == WB_REGIONAL_INDICATOR && cur == WB_REGIONAL_INDICATOR {
        let mut count: usize = 0;
        let mut k: usize = pos;
        while k > 0 && sig_word(ps, sig, k - 1) == WB_REGIONAL_INDICATOR
            invariant
                k <= pos < sig@.len(),
                forall|m: int| 0 <= m < sig@.len() ==> #[trigger] sig@[m] < ps@.len(),
                count == pos - k,
                spec_sig_ri_run(ps@, sig@, pos as int) == count + spec_sig_ri_run(ps@, sig@, k as int),
            decreases k,
        {
            count = count + 1;
            k = k - 1;
        }
        return count % 2 == 0;
    }
    true
}

proof fn lemma_index_of_range(s: Seq<usize>, x: usize, k: int)
    requires
        0 <= k,
    ensures
        spec_index_of(s, x, k) matches Some(j) ==> k <= j < s.len(),
    decreases s.len() - k,
{
    if k < s.len() && s[k] != x {
        lemma_index_of_range(s, x, k + 1);
    }
}

/// The first index of `x` in `s`.
fn index_of(s: &Vec<usize>, x: usize) -> (r: Option<usize>)
    ensures
        r matches Some(k) ==> k < s@.len() && spec_index_of(s@, x, 0) == Some(k as int),
        r is None ==> spec_index_of(s@, x, 0) is None,
{
    proof {
        lemma_index_of_range(s@, x, 0);
    }
    let mut k: usize = 0;
    while k < s.len()
        invariant
            k <= s@.len(),
            spec_index_of(s@, x, 0) == spec_index_of(s@, x, k as int),
        decreases s@.len() - k,
    {
        if s[k] == x {
            return Some(k);
        }
        k = k + 1;
    }
    None
}

fn word_break_at(ps: &[BreakProps], sig: &Vec<usize>, i: usize) -> (r: bool)
    requires
        1 <= i < ps@.len(),
        sig@ == spec_significant_upto(ps@, ps@.len() as int),
        forall|m: int| 0 <= m < sig@.len() ==> #[trigger] sig@[m] < ps@.len(),
    ensures
        r == spec_word_break(ps@, i as int),
{
    let prev_raw: u8 = ps[i - 1].word;
    let cur_raw: u8 = ps[i].word;
    if prev_raw == WB_CR && cur_raw == WB_LF {
        return false;
    }
    if prev_raw == WB_NEWLINE || prev_raw == WB_CR || prev_raw == WB_LF {
        return true;
    }
    if cur_raw == WB_NEWLINE || cur_raw == WB_CR || cur_raw == WB_LF {
        return true;
    }
    if prev_raw == WB_ZWJ && ps[i].pictographic {
        return false;
    }
    if prev_raw == WB_WSEG_SPACE && cur_raw == WB_WSEG_SPACE {
        return false;
    }
    if cur_raw == WB_EXTEND || cur_raw == WB_FORMAT || cur_raw == WB_ZWJ {
        return false;
    }
    let pos: usize = match index_of(sig, i) {
        None => return false,
        Some(p) => p,
    };
    if pos == 0 {
        return true;
    }
    word_rules(ps, sig, pos)
}

proof fn lemma_significant_range(ps: Seq<BreakProps>, n: int)
    requires
        0 <= n <= ps.len(),
        n <= usize::MAX,
    ensures
        forall|k: int| 0 <= k < spec_significant_upto(ps, n).len() ==> #[trigger] spec_significant_upto(ps, n)[k] < n,
    decreases n,
{
    if n > 0 {
        lemma_significant_range(ps, n - 1);
        let prev = spec_significant_upto(ps, n - 1);
        let cur = spec_significant_upto(ps, n);
        assert forall|k: int| 0 <= k < cur.len() implies #[trigger] cur[k] < n by {
            if k < prev.len() {
                assert(cur[k] == prev[k]);
            }
        }
    }
}

/// The word boundaries of text with the given properties: `0`, each
/// position where a word or the space between words starts, and the
/// length.
pub fn word_boundaries(ps: &[BreakProps]) -> (out: Vec<usize>)
    ensures
        ps@.len() == 0 ==> out@ == seq![0usize],
        ps@.len() > 0 ==> out@ == seq![0usize] + spec_word_inner(ps@, ps@.len() as int).push(
            ps@.len() as usize,
        ),
        ps@.len() > 0 ==> boundaries_ok(out@, ps@.len() as int),
{
    let mut out: Vec<usize> = Vec::new();
    out.push(0);
    let n: usize = ps.len();
    if n == 0 {
        return out;
    }
    let mut sig: Vec<usize> = Vec::new();
    let mut i: usize = 0;
    while i < n
        invariant
            i <= n,
            n == ps@.len(),
            sig@ == spec_significant_upto(ps@, i as int),
        decreases n - i,
    {
        let w: u8 = ps[i].word;
        let ignorable: bool = w == WB_EXTEND || w == WB_FORMAT || w == WB_ZWJ;
        if !ignorable || i == 0 || (ps[i - 1].word == WB_CR || ps[i - 1].word == WB_LF || ps[i - 1].word
            == WB_NEWLINE) {
            sig.push(i);
        }
        i = i + 1;
    }
    proof {
        lemma_significant_range(ps@, n as int);
    }
    let mut i: usize = 1;
    while i < n
        invariant
            1 <= i <= n,
            n == ps@.len(),
            sig@ == spec_significant_upto(ps@, n as int),
            forall|m: int| 0 <= m < sig@.len() ==> #[trigger] sig@[m] < ps@.len(),
            out@ == seq![0usize] + spec_word_inner(ps@, i as int),
        decreases n - i,
    {
        if word_break_at(ps, &sig, i) {
            out.push(i);
        }
        i = i + 1;
    }
    out.push(n);
    proof {
        lemma_inner_range(|k: int| spec_word_break(ps@, k), n as int);
        let inner = spec_word_inner(ps@, n as int);
        assert forall|a: int, b: int| 0 <= a < b < out@.len() implies out@[a] < out@[b] by {
            if a > 0 && b < out@.len() - 1 {
                assert(out@[a] == inner[a - 1]);
                assert(out@[b] == inner[b - 1]);
            } else if a == 0 && b < out@.len() - 1 {
                assert(out@[b] == inner[b - 1]);
            } else if a > 0 {
                assert(out@[a] == inner[a - 1]);
            }
        }
    }
    out
}

} // verus!