//! Line break opportunities (UAX #14), from the line breaking properties of
//! each character of a text.

use vstd::prelude::*;
use crate::unicode::GeneralCategory;

verus! {

pub const LB_XX: u8 = 0;
pub const LB_AI: u8 = 1;
pub const LB_AK: u8 = 2;
pub const LB_AL: u8 = 3;
pub const LB_AP: u8 = 4;
pub const LB_AS: u8 = 5;
pub const LB_B2: u8 = 6;
pub const LB_BA: u8 = 7;
pub const LB_BB: u8 = 8;
pub const LB_BK: u8 = 9;
pub const LB_CB: u8 = 10;
pub const LB_CJ: u8 = 11;
pub const LB_CL: u8 = 12;
pub const LB_CM: u8 = 13;
pub const LB_CP: u8 = 14;
pub const LB_CR: u8 = 15;
pub const LB_EB: u8 = 16;
pub const LB_EM: u8 = 17;
pub const LB_EX: u8 = 18;
pub const LB_GL: u8 = 19;
pub const LB_H2: u8 = 20;
pub const LB_H3: u8 = 21;
pub const LB_HH: u8 = 22;
pub const LB_HL: u8 = 23;
pub const LB_HY: u8 = 24;
pub const LB_ID: u8 = 25;
pub const LB_IN: u8 = 26;
pub const LB_IS: u8 = 27;
pub const LB_JL: u8 = 28;
pub const LB_JT: u8 = 29;
pub const LB_JV: u8 = 30;
pub const LB_LF: u8 = 31;
pub const LB_NL: u8 = 32;
pub const LB_NS: u8 = 33;
pub const LB_NU: u8 = 34;
pub const LB_OP: u8 = 35;
pub const LB_PO: u8 = 36;
pub const LB_PR: u8 = 37;
pub const LB_QU: u8 = 38;
pub const LB_RI: u8 = 39;
pub const LB_SA: u8 = 40;
pub const LB_SG: u8 = 41;
pub const LB_SP: u8 = 42;
pub const LB_SY: u8 = 43;
pub const LB_VF: u8 = 44;
pub const LB_VI: u8 = 45;
pub const LB_WJ: u8 = 46;
pub const LB_ZW: u8 = 47;
pub const LB_ZWJ: u8 = 48;

/// How many line breaking classes there are.
pub const LB_COUNT: u8 = 49;

/// LB28a names U+25CC beside the AK and AS classes: a dotted circle stands
/// in for a missing consonant.
pub const DOTTED_CIRCLE: char = '\u{25CC}';

/// What the line breaker reads of one character: the character, its line
/// breaking class and East Asian width as stored, its general category and
/// whether it is extended pictographic.
#[derive(Clone, Copy, PartialEq, Eq, Structural, Debug)]
pub struct LineProps {
    pub ch: char,
    pub line_break: u8,
    pub east_asian_width: u8,
    pub category: GeneralCategory,
    pub pictographic: bool,
}

/// A place where a line may break: before the character at `at`, and
/// whether it must.
#[derive(Clone, Copy, PartialEq, Eq, Structural, Debug)]
pub struct LineBreak {
    pub at: usize,
    pub mandatory: bool,
}

/// Whether a character is wide, fullwidth or ambiguous in East Asian text.
pub open spec fn east_asian(p: LineProps) -> bool {
    p.east_asian_width == 2 || p.east_asian_width == 3 || p.east_asian_width == 5
}

fn is_east_asian(p: &LineProps) -> (r: bool)
    ensures
        r == east_asian(*p),
{
    p.east_asian_width == 2 || p.east_asian_width == 3 || p.east_asian_width == 5
}

/// LB1: AI, SG and XX behave as AL; CJ as NS; SA as CM when the character
/// is a mark and as AL otherwise. CB is left for LB20.
pub open spec fn spec_resolved_class(p: LineProps) -> u8 {
    let raw = p.line_break;
    if raw == LB_AI || raw == LB_SG || raw == LB_XX {
        LB_AL
    } else if raw == LB_CJ {
        LB_NS
    } else if raw == LB_SA {
        if p.category == GeneralCategory::NonspacingMark || p.category == GeneralCategory::SpacingMark {
            LB_CM
        } else {
            LB_AL
        }
    } else {
        raw
    }
}

fn resolved_class(p: &LineProps) -> (r: u8)
    requires
        p.line_break < LB_COUNT,
    ensures
        r == spec_resolved_class(*p),
        r < LB_COUNT,
{
    let raw: u8 = p.line_break;
    if raw == LB_AI || raw == LB_SG || raw == LB_XX {
        LB_AL
    } else if raw == LB_CJ {
        LB_NS
    } else if raw == LB_SA {
        if p.category == GeneralCategory::NonspacingMark || p.category == GeneralCategory::SpacingMark {
            LB_CM
        } else {
            LB_AL
        }
    } else {
        raw
    }
}

/// The resolved class of every character.
pub open spec fn spec_raw(ps: Seq<LineProps>) -> Seq<u8> {
    ps.map_values(|p: LineProps| spec_resolved_class(p))
}

/// Whether a combining mark or ZWJ of class `c` attaches to a base of class
/// `b` (LB9): it does unless the base is a hard break, a space or ZW.
pub open spec fn attaches(c: u8, b: u8) -> bool {
    (c == LB_CM || c == LB_ZWJ) && !(b == LB_BK || b == LB_CR || b == LB_LF || b == LB_NL || b == LB_SP || b
        == LB_ZW)
}

/// The character whose class the character at `i` takes (LB9): itself, or
/// for an attaching mark the base of the character before it.
pub open spec fn spec_base(raw: Seq<u8>, i: int) -> int
    decreases i,
{
    if i <= 0 {
        0
    } else {
        let b = spec_base(raw, i - 1);
        if attaches(raw[i], raw[b]) {
            b
        } else {
            i
        }
    }
}

/// The characters of `0 .. n` that are their own base: those the rules see.
pub open spec fn spec_sig(raw: Seq<u8>, n: int) -> Seq<usize>
    decreases n,
{
    if n <= 0 {
        Seq::empty()
    } else if spec_base(raw, n - 1) == n - 1 {
        spec_sig(raw, n - 1).push((n - 1) as usize)
    } else {
        spec_sig(raw, n - 1)
    }
}

/// LB10: a mark or ZWJ left without a base behaves as AL.
pub open spec fn folded(c: u8) -> u8 {
    if c == LB_CM || c == LB_ZWJ {
        LB_AL
    } else {
        c
    }
}

/// The class of each character the rules see.
pub open spec fn spec_cls(raw: Seq<u8>, sig: Seq<usize>) -> Seq<u8> {
    sig.map_values(|i: usize| folded(raw[i as int]))
}

/// The length of the run of regional indicators just before `k`.
pub open spec fn ri_run(cls: Seq<u8>, k: int) -> nat
    decreases k,
{
    if k <= 0 {
        0
    } else if cls[k - 1] == LB_RI {
        ri_run(cls, k - 1) + 1
    } else {
        0
    }
}

/// The last position before `k` whose class is not SP.
pub open spec fn prev_non_sp(cls: Seq<u8>, k: int) -> Option<usize>
    decreases k,
{
    if k <= 0 {
        None
    } else if cls[k - 1] != LB_SP {
        Some((k - 1) as usize)
    } else {
        prev_non_sp(cls, k - 1)
    }
}

proof fn lemma_base_bounds(raw: Seq<u8>, i: int)
    requires
        0 <= i,
    ensures
        0 <= spec_base(raw, i) <= i,
        i > 0 && spec_base(raw, i) != i ==> spec_base(raw, i) == spec_base(raw, i - 1),
    decreases i,
{
    if i > 0 {
        lemma_base_bounds(raw, i - 1);
    }
}

proof fn lemma_sig_props(raw: Seq<u8>, n: int)
    requires
        0 <= n <= usize::MAX,
    ensures
        spec_sig(raw, n).len() <= n,
        forall|k: int| 0 <= k < spec_sig(raw, n).len() ==> #[trigger] spec_sig(raw, n)[k] < n,
        forall|k: int|
            0 <= k < spec_sig(raw, n).len() ==> spec_base(raw, #[trigger] spec_sig(raw, n)[k] as int)
                == spec_sig(raw, n)[k],
        forall|a: int, b: int| 0 <= a < b < spec_sig(raw, n).len() ==> spec_sig(raw, n)[a] < spec_sig(raw, n)[b],
        n > 0 ==> spec_sig(raw, n).len() > 0 && spec_sig(raw, n)[0] == 0,
    decreases n,
{
    if n > 0 {
        lemma_sig_props(raw, n - 1);
        lemma_base_bounds(raw, n - 1);
        let s0 = spec_sig(raw, n - 1);
        if spec_base(raw, n - 1) == n - 1 {
            let s = s0.push((n - 1) as usize);
            assert(spec_sig(raw, n) == s);
            assert forall|k: int| 0 <= k < s.len() implies s[k] < n && spec_base(raw, s[k] as int) == s[k] by {
                if k < s0.len() {
                    assert(s[k] == s0[k]);
                }
            }
            assert forall|a: int, b: int| 0 <= a < b < s.len() implies s[a] < s[b] by {
                assert(s[a] == s0[a]);
                if b < s0.len() {
                    assert(s[b] == s0[b]);
                }
            }
            if n > 1 {
                assert(s[0] == s0[0]);
            }
        }
    }
}

/// Whether the last position before `k` that is not a space has class `c`
/// (the `c SP*` of a rule).
pub open spec fn after_spaces_is(cls: Seq<u8>, k: int, c: u8) -> bool {
    match prev_non_sp(cls, k) {
        Some(j) => cls[j as int] == c,
        None => false,
    }
}

/// The class at `k`, if there is one.
pub open spec fn cls_at(cls: Seq<u8>, k: int) -> Option<u8> {
    if 0 <= k < cls.len() {
        Some(cls[k])
    } else {
        None
    }
}

/// LB28a's `(AK | [◌] | AS)`.
pub open spec fn spec_brahmic(ps: Seq<LineProps>, sig: Seq<usize>, cls: Seq<u8>, k: int) -> bool {
    cls[k] == LB_AK || cls[k] == LB_AS || ps[sig[k] as int].ch == DOTTED_CIRCLE
}

/// Whether a number ends at `j`: NU, then SY or IS back to a NU.
pub open spec fn spec_number_run_ends(cls: Seq<u8>, j: int) -> bool
    decreases j,
{
    if j < 0 {
        false
    } else if cls[j] == LB_NU {
        true
    } else if (cls[j] == LB_SY || cls[j] == LB_IS) && j > 0 {
        spec_number_run_ends(cls, j - 1)
    } else {
        false
    }
}

/// LB25: numbers, with their prefixes, postfixes and separators, do not
/// break.
pub open spec fn spec_number_binds(cls: Seq<u8>, k: int, a: u8, b: u8) -> bool {
    if (b == LB_PO || b == LB_PR) && spec_number_run_ends(cls, k - 1) {
        true
    } else if (b == LB_PO || b == LB_PR) && (a == LB_CL || a == LB_CP) && k >= 2 && spec_number_run_ends(cls, k - 2) {
        true
    } else if b == LB_NU && spec_number_run_ends(cls, k - 1) {
        true
    } else if (a == LB_PO || a == LB_PR) && b == LB_NU {
        true
    } else if (a == LB_PO || a == LB_PR) && b == LB_OP {
        cls_at(cls, k + 1) == Some(LB_NU) || (cls_at(cls, k + 1) == Some(LB_IS) && cls_at(cls, k + 2) == Some(LB_NU))
    } else {
        (a == LB_HY || a == LB_IS) && b == LB_NU
    }

}

/// Whether a class is a hard break.
pub open spec fn hard(c: u8) -> bool {
    c == LB_BK || c == LB_CR || c == LB_LF || c == LB_NL
}

/// Whether a class is AL or HL.
pub open spec fn alpha(c: u8) -> bool {
    c == LB_AL || c == LB_HL
}

/// Whether a class is a Korean syllable class.
pub open spec fn jamo(c: u8) -> bool {
    c == LB_JL || c == LB_JV || c == LB_JT || c == LB_H2 || c == LB_H3
}

/// The rules, LB4 to LB31, between the positions the rules see at `k - 1`
/// and `k`: `None` where no break may come, otherwise whether it must.
pub open spec fn spec_break_before(ps: Seq<LineProps>, raw: Seq<u8>, sig: Seq<usize>, cls: Seq<u8>, k: int) -> Option<bool> {
    let a = cls[k - 1];
    let b = cls[k];
    let ch = |j: int| ps[sig[j] as int];
    if a == LB_BK {
        Some(true)
    } else if a == LB_CR && b == LB_LF {
        None
    } else if a == LB_CR || a == LB_LF || a == LB_NL {
        Some(true)
    } else if hard(b) {
        None
    } else if b == LB_SP || b == LB_ZW {
        None
    } else if after_spaces_is(cls, k, LB_ZW) {
        Some(false)
    } else if raw[sig[k] - 1] == LB_ZWJ {
        None
    } else if a == LB_WJ || b == LB_WJ {
        None
    } else if a == LB_GL {
        None
    } else if b == LB_GL && !(a == LB_SP || a == LB_BA || a == LB_HY || a == LB_HH) {
        None
    } else if b == LB_CL || b == LB_CP || b == LB_EX || b == LB_SY {
        None
    } else if after_spaces_is(cls, k, LB_OP) {
        None
    } else if (match prev_non_sp(cls, k) {
        Some(j) => cls[j as int] == LB_QU && (j == 0 || hard(cls[j - 1]) || cls[j - 1] == LB_OP || cls[j - 1] == LB_QU
            || cls[j - 1] == LB_GL || cls[j - 1] == LB_SP || cls[j - 1] == LB_ZW) && ch(j as int).category
            == GeneralCategory::InitialPunctuation,
        None => false,
    }) {
        None
    } else if b == LB_QU && ch(k).category == GeneralCategory::FinalPunctuation && (match cls_at(cls, k + 1) {
        None => true,
        Some(n) => n == LB_SP || n == LB_GL || n == LB_WJ || n == LB_CL || n == LB_QU || n == LB_CP || n == LB_EX
            || n == LB_IS || n == LB_SY || hard(n) || n == LB_ZW,
    }) {
        None
    } else if a == LB_SP && b == LB_IS && cls_at(cls, k + 1) == Some(LB_NU) {
        Some(false)
    } else if b == LB_IS {
        None
    } else if b == LB_NS && (after_spaces_is(cls, k, LB_CL) || after_spaces_is(cls, k, LB_CP)) {
        None
    } else if b == LB_B2 && after_spaces_is(cls, k, LB_B2) {
        None
    } else if a == LB_SP {
        Some(false)
    } else if b == LB_QU && ch(k).category != GeneralCategory::InitialPunctuation {
        None
    } else if a == LB_QU && ch(k - 1).category != GeneralCategory::FinalPunctuation {
        None
    } else if b == LB_QU && (!east_asian(ch(k - 1)) || k + 1 >= cls.len() || !east_asian(ch(k + 1))) {
        None
    } else if a == LB_QU && (!east_asian(ch(k)) || k < 2 || !east_asian(ch(k - 2))) {
        None
    } else if a == LB_CB || b == LB_CB {
        Some(false)
    } else if alpha(b) && (a == LB_HY || a == LB_HH) && (k == 1 || hard(cls[k - 2]) || cls[k - 2] == LB_SP || cls[k
        - 2] == LB_ZW || cls[k - 2] == LB_CB || cls[k - 2] == LB_GL) {
        None
    } else if b == LB_BA || b == LB_HH || b == LB_HY || b == LB_NS || a == LB_BB {
        None
    } else if k >= 2 && cls[k - 2] == LB_HL && b != LB_HL && (a == LB_HY || a == LB_HH) {
        None
    } else if a == LB_SY && b == LB_HL {
        None
    } else if b == LB_IN {
        None
    } else if alpha(a) && b == LB_NU {
        None
    } else if a == LB_NU && alpha(b) {
        None
    } else if a == LB_PR && (b == LB_ID || b == LB_EB || b == LB_EM) {
        None
    } else if (a == LB_ID || a == LB_EB || a == LB_EM) && b == LB_PO {
        None
    } else if (a == LB_PR || a == LB_PO) && alpha(b) {
        None
    } else if alpha(a) && (b == LB_PR || b == LB_PO) {
        None
    } else if spec_number_binds(cls, k, a, b) {
        None
    } else if a == LB_JL && (b == LB_JL || b == LB_JV || b == LB_H2 || b == LB_H3) {
        None
    } else if (a == LB_JV || a == LB_H2) && (b == LB_JV || b == LB_JT) {
        None
    } else if (a == LB_JT || a == LB_H3) && b == LB_JT {
        None
    } else if jamo(a) && b == LB_PO {
        None
    } else if a == LB_PR && jamo(b) {
        None
    } else if alpha(a) && alpha(b) {
        None
    } else if a == LB_AP && spec_brahmic(ps, sig, cls, k) {
        None
    } else if spec_brahmic(ps, sig, cls, k - 1) && (b == LB_VF || b == LB_VI) {
        None
    } else if a == LB_VI && k >= 2 && spec_brahmic(ps, sig, cls, k - 2) && (b == LB_AK || ch(k).ch == DOTTED_CIRCLE) {
        None
    } else if spec_brahmic(ps, sig, cls, k - 1) && spec_brahmic(ps, sig, cls, k) && cls_at(cls, k + 1) == Some(LB_VF) {
        None
    } else if a == LB_IS && alpha(b) {
        None
    } else if (alpha(a) || a == LB_NU) && b == LB_OP && !east_asian(ch(k)) {
        None
    } else if a == LB_CP && !east_asian(ch(k - 1)) && (alpha(b) || b == LB_NU) {
        None
    } else if a == LB_RI && b == LB_RI && ri_run(cls, k) % 2 == 1 {
        None
    } else if b == LB_EM && (a == LB_EB || (ch(k - 1).pictographic && ch(k - 1).category == GeneralCategory::Unassigned)) {
        None
    } else {
        Some(false)
    }
}

/// The break opportunities before the positions the rules see, from the
/// second to the one before `m`.
pub open spec fn spec_breaks_between(ps: Seq<LineProps>, raw: Seq<u8>, sig: Seq<usize>, cls: Seq<u8>, m: int) -> Seq<LineBreak>
    decreases m,
{
    if m <= 1 {
        Seq::empty()
    } else {
        let before = spec_breaks_between(ps, raw, sig, cls, m - 1);
        match spec_break_before(ps, raw, sig, cls, m - 1) {
            Some(mandatory) => before.push(LineBreak { at: sig[m - 1], mandatory }),
            None => before,
        }
    }
}

/// The line break opportunities of a text: after LB9 and LB10 fold marks
/// into their bases, a break before each position the rules allow one,
/// and the mandatory break at the end (LB3); none in an empty text.
pub open spec fn spec_line_breaks(ps: Seq<LineProps>) -> Seq<LineBreak> {
    if ps.len() == 0 {
        Seq::empty()
    } else {
        let raw = spec_raw(ps);
        let sig = spec_sig(raw, ps.len() as int);
        let cls = spec_cls(raw, sig);
        spec_breaks_between(ps, raw, sig, cls, sig.len() as int).push(LineBreak { at: ps.len() as usize, mandatory: true })
    }
}

/// What the rules read of a text: its characters' properties, their
/// resolved classes, the positions the rules see with their classes, and
/// at each of those the parity of the regional indicator run before it and
/// the last position before it that is not a space.
struct Ctx<'a> {
    props: &'a [LineProps],
    raw: &'a [u8],
    sig: &'a [usize],
    cls: &'a [u8],
    ri_odd: &'a [bool],
    prev_non_sp: &'a [Option<usize>],
}

impl<'a> Ctx<'a> {
    spec fn wf(&self) -> bool {
        &&& self.props@.len() < usize::MAX
        &&& self.raw@ == spec_raw(self.props@)
        &&& self.sig@ == spec_sig(self.raw@, self.props@.len() as int)
        &&& self.cls@ == spec_cls(self.raw@, self.sig@)
        &&& self.ri_odd@.len() == self.cls@.len()
        &&& forall|k: int| 0 <= k < self.cls@.len() ==> #[trigger] self.ri_odd@[k] == (ri_run(self.cls@, k) % 2 == 1)
        &&& self.prev_non_sp@.len() == self.cls@.len()
        &&& forall|k: int| 0 <= k < self.cls@.len() ==> #[trigger] self.prev_non_sp@[k] == prev_non_sp(self.cls@, k)
    }

    proof fn lemma_shape(&self)
        requires
            self.wf(),
        ensures
            self.cls@.len() == self.sig@.len() <= self.props@.len(),
            self.raw@.len() == self.props@.len(),
            forall|k: int| 0 <= k < self.sig@.len() ==> #[trigger] self.sig@[k] < self.props@.len(),
            forall|k: int| 1 <= k < self.sig@.len() ==> #[trigger] self.sig@[k] >= 1,
    {
        lemma_sig_props(self.raw@, self.props@.len() as int);
        assert forall|k: int| 1 <= k < self.sig@.len() implies #[trigger] self.sig@[k] >= 1 by {
            assert(self.sig@[0] < self.sig@[k]);
        }
    }

    fn cls(&self, k: usize) -> (r: Option<u8>)
        requires
            self.wf(),
        ensures
            r == cls_at(self.cls@, k as int),
    {
        proof {
            self.lemma_shape();
        }
        if k < self.cls.len() {
            Some(self.cls[k])
        } else {
            None
        }
    }

    fn ch(&self, k: usize) -> (r: LineProps)
        requires
            self.wf(),
            k < self.cls@.len(),
        ensures
            r == self.props@[self.sig@[k as int] as int],
    {
        proof {
            self.lemma_shape();
        }
        self.props[self.sig[k]]
    }

    fn gc_is(&self, k: usize, want: GeneralCategory) -> (r: bool)
        requires
            self.wf(),
            k < self.cls@.len(),
        ensures
            r == (self.props@[self.sig@[k as int] as int].category == want),
    {
        self.ch(k).category == want
    }

    fn skip_spaces(&self, k: usize) -> (r: Option<usize>)
        requires
            self.wf(),
            k < self.cls@.len(),
        ensures
            r == prev_non_sp(self.cls@, k as int),
            r matches Some(j) ==> j < k,
    {
        proof {
            lemma_prev_non_sp_below(self.cls@, k as int);
        }
        self.prev_non_sp[k]
    }

    fn brahmic(&self, k: usize) -> (r: bool)
        requires
            self.wf(),
            k < self.cls@.len(),
        ensures
            r == spec_brahmic(self.props@, self.sig@, self.cls@, k as int),
    {
        self.cls[k] == LB_AK || self.cls[k] == LB_AS || self.ch(k).ch == DOTTED_CIRCLE
    }

    fn number_run_ends(&self, k: usize) -> (r: bool)
        requires
            self.wf(),
            k < self.cls@.len(),
        ensures
            r == spec_number_run_ends(self.cls@, k as int),
    {
        let mut j: usize = k;
        loop
            invariant
                self.wf(),
                j <= k < self.cls@.len(),
                spec_number_run_ends(self.cls@, k as int) == spec_number_run_ends(self.cls@, j as int),
            decreases j,
        {
            let c: u8 = self.cls[j];
            if c == LB_NU {
                return true;
            }
            if (c == LB_SY || c == LB_IS) && j > 0 {
                j = j - 1;
            } else {
                return false;
            }
        }
    }

    fn number_binds(&self, k: usize, a: u8, b: u8) -> (r: bool)
        requires
            self.wf(),
            1 <= k < self.cls@.len(),
        ensures
            r == spec_number_binds(self.cls@, k as int, a, b),
    {
        proof {
            self.lemma_shape();
        }
        if b == LB_PO || b == LB_PR {
            if self.number_run_ends(k - 1) {
                return true;
            }
            if (a == LB_CL || a == LB_CP) && k >= 2 && self.number_run_ends(k - 2) {
                return true;
            }
        }
        if b == LB_NU && self.number_run_ends(k - 1) {
            return true;
        }
        if a == LB_PO || a == LB_PR {
            if b == LB_NU {
                return true;
            }
            if b == LB_OP {
                return self.cls(k + 1) == Some(LB_NU) || (self.cls(k + 1) == Some(LB_IS) && self.cls(k + 2) == Some(
                    LB_NU,
                ));
            }
        }
        (a == LB_HY || a == LB_IS) && b == LB_NU
    }

    /// Whether the last non-space position before `k` has class `c`.
    fn after_spaces_is(&self, k: usize, c: u8) -> (r: bool)
        requires
            self.wf(),
            k < self.cls@.len(),
        ensures
            r == after_spaces_is(self.cls@, k as int, c),
    {
        match self.skip_spaces(k) {
            Some(j) => self.cls[j] == c,
            None => false,
        }
    }

    #[verifier::rlimit(40)]
    fn break_before(&self, k: usize) -> (r: Option<bool>)
        requires
            self.wf(),
            1 <= k < self.cls@.len(),
        ensures
            r == spec_break_before(self.props@, self.raw@, self.sig@, self.cls@, k as int),
    {
        proof {
            self.lemma_shape();
        }
        let a: u8 = self.cls[k - 1];
        let b: u8 = self.cls[k];
        // LB4, LB5: the hard breaks. CRLF is one break, not two.
        if a == LB_BK {
            return Some(true);
        }
        if a == LB_CR && b == LB_LF {
            return None;
        }
        if a == LB_CR || a == LB_LF || a == LB_NL {
            return Some(true);
        }
        // LB6: never break before a hard break.
        if b == LB_BK || b == LB_CR || b == LB_LF || b == LB_NL {
            return None;
        }
        // LB7: never break before a space or ZW.
        if b == LB_SP || b == LB_ZW {
            return None;
        }
        // LB8: `ZW SP* ÷`.
        if self.after_spaces_is(k, LB_ZW) {
            return Some(false);
        }
        // LB8a: `ZWJ ×`; the ZWJ went into its base, so this reads the raw classes.
        if self.raw[self.sig[k] - 1] == LB_ZWJ {
            return None;
        }
        // LB11: `× WJ`, `WJ ×`.
        if a == LB_WJ || b == LB_WJ {
            return None;
        }
        // LB12: `GL ×`. LB12a: `[^SP BA HY HH] × GL`.
        if a == LB_GL {
            return None;
        }
        if b == LB_GL && !(a == LB_SP || a == LB_BA || a == LB_HY || a == LB_HH) {
            return None;
        }
        // LB13: `× CL`, `× CP`, `× EX`, `× SY`.
        if b == LB_CL || b == LB_CP || b == LB_EX || b == LB_SY {
            return None;
        }
        // LB14: `OP SP* ×`.
        if self.after_spaces_is(k, LB_OP) {
            return None;
        }
        // LB15a: `(sot | BK | CR | LF | NL | OP | QU | GL | SP | ZW) [\p{Pi}&QU] SP* ×`.
        if let Some(j) = self.skip_spaces(k) {
            let after_opener: bool = j == 0 || {
                let p: u8 = self.cls[j - 1];
                p == LB_BK || p == LB_CR || p == LB_LF || p == LB_NL || p == LB_OP || p == LB_QU || p == LB_GL || p
                    == LB_SP || p == LB_ZW
            };
            if self.cls[j] == LB_QU && after_opener && self.gc_is(j, GeneralCategory::InitialPunctuation) {
                return None;
            }
        }
        // LB15b: `× [\p{Pf}&QU] (SP|GL|WJ|CL|QU|CP|EX|IS|SY|BK|CR|LF|NL|ZW|eot)`.
        if b == LB_QU && self.gc_is(k, GeneralCategory::FinalPunctuation) {
            let closes: bool = match self.cls(k + 1) {
                None => true,
                Some(n) => n == LB_SP || n == LB_GL || n == LB_WJ || n == LB_CL || n == LB_QU || n == LB_CP || n
                    == LB_EX || n == LB_IS || n == LB_SY || n == LB_BK || n == LB_CR || n == LB_LF || n == LB_NL || n
                    == LB_ZW,
            };
            if closes {
                return None;
            }
        }
        // LB15c: `SP ÷ IS NU`: a decimal mark after a space starts a number.
        if a == LB_SP && b == LB_IS && self.cls(k + 1) == Some(LB_NU) {
            return Some(false);
        }
        // LB15d: `× IS`.
        if b == LB_IS {
            return None;
        }
        // LB16: `(CL | CP) SP* × NS`.
        if b == LB_NS && (self.after_spaces_is(k, LB_CL) || self.after_spaces_is(k, LB_CP)) {
            return None;
        }
        // LB17: `B2 SP* × B2`.
        if b == LB_B2 && self.after_spaces_is(k, LB_B2) {
            return None;
        }
        // LB18: `SP ÷`.
        if a == LB_SP {
            return Some(false);
        }
        // LB19: `× [QU - \p{Pi}]`, `[QU - \p{Pf}] ×`.
        if b == LB_QU && !self.gc_is(k, GeneralCategory::InitialPunctuation) {
            return None;
        }
        if a == LB_QU && !self.gc_is(k - 1, GeneralCategory::FinalPunctuation) {
            return None;
        }
        // LB19a: a quotation mark binds unless East Asian characters stand on both sides.
        if b == LB_QU && (!is_east_asian(&self.ch(k - 1)) || k + 1 >= self.cls.len() || !is_east_asian(
            &self.ch(k + 1),
        )) {
            return None;
        }
        if a == LB_QU && (!is_east_asian(&self.ch(k)) || k < 2 || !is_east_asian(&self.ch(k - 2))) {
            return None;
        }
        // LB20: `÷ CB`, `CB ÷`.
        if a == LB_CB || b == LB_CB {
            return Some(false);
        }
        // LB20a: `(sot|BK|CR|LF|NL|SP|ZW|CB|GL) (HY | HH) × (AL | HL)`.
        if (b == LB_AL || b == LB_HL) && (a == LB_HY || a == LB_HH) && (k == 1 || {
            let p: u8 = self.cls[k - 2];
            p == LB_BK || p == LB_CR || p == LB_LF || p == LB_NL || p == LB_SP || p == LB_ZW || p == LB_CB || p
                == LB_GL
        }) {
            return None;
        }
        // LB21: `× BA`, `× HH`, `× HY`, `× NS`, `BB ×`.
        if b == LB_BA || b == LB_HH || b == LB_HY || b == LB_NS || a == LB_BB {
            return None;
        }
        // LB21a: `HL (HY | HH) × [^HL]`.
        if k >= 2 && self.cls[k - 2] == LB_HL && b != LB_HL && (a == LB_HY || a == LB_HH) {
            return None;
        }
        // LB21b: `SY × HL`.
        if a == LB_SY && b == LB_HL {
            return None;
        }
        // LB22: `× IN`.
        if b == LB_IN {
            return None;
        }
        // LB23: `(AL | HL) × NU`, `NU × (AL | HL)`.
        if (a == LB_AL || a == LB_HL) && b == LB_NU {
            return None;
        }
        if a == LB_NU && (b == LB_AL || b == LB_HL) {
            return None;
        }
        // LB23a: `PR × (ID | EB | EM)`, `(ID | EB | EM) × PO`.
        if a == LB_PR && (b == LB_ID || b == LB_EB || b == LB_EM) {
            return None;
        }
        if (a == LB_ID || a == LB_EB || a == LB_EM) && b == LB_PO {
            return None;
        }
        // LB24: `(PR | PO) × (AL | HL)`, `(AL | HL) × (PR | PO)`.
        if (a == LB_PR || a == LB_PO) && (b == LB_AL || b == LB_HL) {
            return None;
        }
        if (a == LB_AL || a == LB_HL) && (b == LB_PR || b == LB_PO) {
            return None;
        }
        // LB25.
        if self.number_binds(k, a, b) {
            return None;
        }
        // LB26: `JL × (JL | JV | H2 | H3)`, `(JV | H2) × (JV | JT)`, `(JT | H3) × JT`.
        if a == LB_JL && (b == LB_JL || b == LB_JV || b == LB_H2 || b == LB_H3) {
            return None;
        }
        if (a == LB_JV || a == LB_H2) && (b == LB_JV || b == LB_JT) {
            return None;
        }
        if (a == LB_JT || a == LB_H3) && b == LB_JT {
            return None;
        }
        // LB27: `(JL | JV | JT | H2 | H3) × PO`, `PR × (JL | JV | JT | H2 | H3)`.
        if (a == LB_JL || a == LB_JV || a == LB_JT || a == LB_H2 || a == LB_H3) && b == LB_PO {
            return None;
        }
        if a == LB_PR && (b == LB_JL || b == LB_JV || b == LB_JT || b == LB_H2 || b == LB_H3) {
            return None;
        }
        // LB28: `(AL | HL) × (AL | HL)`.
        if (a == LB_AL || a == LB_HL) && (b == LB_AL || b == LB_HL) {
            return None;
        }
        // LB28a: the orthographic syllables of Brahmic scripts.
        if a == LB_AP && self.brahmic(k) {
            return None;
        }
        if self.brahmic(k - 1) && (b == LB_VF || b == LB_VI) {
            return None;
        }
        if a == LB_VI && k >= 2 && self.brahmic(k - 2) && (b == LB_AK || self.ch(k).ch == DOTTED_CIRCLE) {
            return None;
        }
        if self.brahmic(k - 1) && self.brahmic(k) && self.cls(k + 1) == Some(LB_VF) {
            return None;
        }
        // LB29: `IS × (AL | HL)`.
        if a == LB_IS && (b == LB_AL || b == LB_HL) {
            return None;
        }
        // LB30: `(AL | HL | NU) × [OP - $EastAsian]`, `[CP - $EastAsian] × (AL | HL | NU)`.
        if (a == LB_AL || a == LB_HL || a == LB_NU) && b == LB_OP && !is_east_asian(&self.ch(k)) {
            return None;
        }
        if a == LB_CP && !is_east_asian(&self.ch(k - 1)) && (b == LB_AL || b == LB_HL || b == LB_NU) {
            return None;
        }
        // LB30a: `(RI RI)* RI × RI`: flags pair up, so only an odd run before binds.
        if a == LB_RI && b == LB_RI && self.ri_odd[k] {
            return None;
        }
        // LB30b: `EB × EM`, `[\p{Extended_Pictographic}&\p{Cn}] × EM`.
        if b == LB_EM && (a == LB_EB || (self.ch(k - 1).pictographic && self.ch(k - 1).category
            == GeneralCategory::Unassigned)) {
            return None;
        }
        // LB31: break everywhere else.
        Some(false)
    }
}

proof fn lemma_prev_non_sp_below(cls: Seq<u8>, k: int)
    requires
        0 <= k,
    ensures
        prev_non_sp(cls, k) matches Some(j) ==> j < k,
    decreases k,
{
    if k > 0 {
        lemma_prev_non_sp_below(cls, k - 1);
    }
}

/// The places where a text may break into lines, in order: before each
/// character the rules allow a break before, with whether the break is
/// mandatory, and the mandatory break at the end of the text; none for an
/// empty text. `props` holds the properties of each character of the text.
pub fn line_break_opportunities(props: &[LineProps]) -> (out: Vec<LineBreak>)
    requires
        props@.len() < usize::MAX,
        forall|i: int| 0 <= i < props@.len() ==> (#[trigger] props@[i]).line_break < LB_COUNT,
    ensures
        out@ == spec_line_breaks(props@),
{
    let n: usize = props.len();
    let mut out: Vec<LineBreak> = Vec::new();
    if n == 0 {
        return out;
    }
    let mut raw: Vec<u8> = Vec::new();
    let mut i: usize = 0;
    while i < n
        invariant
            i <= n == props@.len(),
            forall|q: int| 0 <= q < props@.len() ==> (#[trigger] props@[q]).line_break < LB_COUNT,
            raw@.len() == i,
            forall|q: int| 0 <= q < i ==> #[trigger] raw@[q] == spec_resolved_class(props@[q]),
        decreases n - i,
    {
        raw.push(resolved_class(&props[i]));
        i = i + 1;
    }
    assert(raw@ =~= spec_raw(props@));
    // LB9, LB10: `X (CM | ZWJ)*` behaves as X: a mark is folded into the
    // base before it, and a position inside such a sequence is never a break.
    let mut base: Vec<usize> = Vec::new();
    let mut i: usize = 0;
    while i < n
        invariant
            i <= n == props@.len() == raw@.len(),
            base@.len() == i,
            forall|q: int| 0 <= q < i ==> #[trigger] base@[q] == spec_base(raw@, q),
        decreases n - i,
    {
        proof {
            if i > 0 {
                lemma_base_bounds(raw@, i - 1);
            }
        }
        let attaches: bool = i > 0 && (raw[i] == LB_CM || raw[i] == LB_ZWJ) && {
            let b: u8 = raw[base[i - 1]];
            !(b == LB_BK || b == LB_CR || b == LB_LF || b == LB_NL || b == LB_SP || b == LB_ZW)
        };
        if attaches {
            let b: usize = base[i - 1];
            base.push(b);
        } else {
            base.push(i);
        }
        i = i + 1;
    }
    let mut sig: Vec<usize> = Vec::new();
    let mut cls: Vec<u8> = Vec::new();
    let mut i: usize = 0;
    while i < n
        invariant
            i <= n == props@.len() == raw@.len() == base@.len(),
            forall|q: int| 0 <= q < n ==> #[trigger] base@[q] == spec_base(raw@, q),
            sig@ == spec_sig(raw@, i as int),
            cls@ == spec_cls(raw@, sig@),
        decreases n - i,
    {
        if base[i] == i {
            sig.push(i);
            let c: u8 = raw[i];
            cls.push(
                if c == LB_CM || c == LB_ZWJ {
                    LB_AL
                } else {
                    c
                },
            );
            assert(cls@ =~= spec_cls(raw@, sig@));
        }
        i = i + 1;
    }
    proof {
        lemma_sig_props(raw@, n as int);
    }
    // LB30a needs the parity of the regional indicator run before each
    // position; one forward pass carries it.
    let m: usize = cls.len();
    let mut ri_odd: Vec<bool> = Vec::new();
    let mut run: usize = 0;
    let mut k: usize = 0;
    while k < m
        invariant
            k <= m == cls@.len(),
            run <= k,
            run == ri_run(cls@, k as int),
            ri_odd@.len() == k,
            forall|q: int| 0 <= q < k ==> #[trigger] ri_odd@[q] == (ri_run(cls@, q) % 2 == 1),
        decreases m - k,
    {
        ri_odd.push(run % 2 == 1);
        run = if cls[k] == LB_RI {
            run + 1
        } else {
            0
        };
        k = k + 1;
    }
    // LB8, LB14, LB15 and LB25 read `SP*` backwards from a position; one
    // forward pass carries the last position that is not a space.
    let mut prev: Vec<Option<usize>> = Vec::new();
    let mut last: Option<usize> = None;
    let mut k: usize = 0;
    while k < m
        invariant
            k <= m == cls@.len(),
            last == prev_non_sp(cls@, k as int),
            prev@.len() == k,
            forall|q: int| 0 <= q < k ==> #[trigger] prev@[q] == prev_non_sp(cls@, q),
        decreases m - k,
    {
        prev.push(last);
        if cls[k] != LB_SP {
            last = Some(k);
        }
        k = k + 1;
    }
    let ctx = Ctx {
        props,
        raw: raw.as_slice(),
        sig: sig.as_slice(),
        cls: cls.as_slice(),
        ri_odd: ri_odd.as_slice(),
        prev_non_sp: prev.as_slice(),
    };
    assert(ctx.wf());
    let mut k: usize = 1;
    while k < m
        invariant
            1 <= k <= m == ctx.cls@.len(),
            ctx.wf(),
            ctx.props@ == props@,
            ctx.sig@.len() == m,
            out@ == spec_breaks_between(ctx.props@, ctx.raw@, ctx.sig@, ctx.cls@, k as int),
        decreases m - k,
    {
        if let Some(mandatory) = ctx.break_before(k) {
            out.push(LineBreak { at: ctx.sig[k], mandatory });
        }
        k = k + 1;
    }
    // LB3: always break at the end of the text.
    out.push(LineBreak { at: n, mandatory: true });
    out
}

proof fn lemma_breaks_between(ps: Seq<LineProps>, raw: Seq<u8>, sig: Seq<usize>, cls: Seq<u8>, m: int)
    requires
        1 <= m <= sig.len(),
        forall|a: int, b: int| 0 <= a < b < sig.len() ==> sig[a] < sig[b],
    ensures
        ({
            let out = spec_breaks_between(ps, raw, sig, cls, m);
            &&& forall|i: int| 0 <= i < out.len() ==> sig[1] <= (#[trigger] out[i]).at <= sig[m - 1]
            &&& forall|a: int, b: int| 0 <= a < b < out.len() ==> out[a].at < out[b].at
            &&& forall|i: int| 0 <= i < out.len() ==> exists|j: int| 1 <= j < m && sig[j] == (#[trigger] out[i]).at
        }),
    decreases m,
{
    if m > 1 {
        lemma_breaks_between(ps, raw, sig, cls, m - 1);
        let before = spec_breaks_between(ps, raw, sig, cls, m - 1);
        if m > 2 {
            assert(sig[m - 2] < sig[m - 1]);
        }
        match spec_break_before(ps, raw, sig, cls, m - 1) {
            Some(mandatory) => {
                let out = before.push(LineBreak { at: sig[m - 1], mandatory });
                assert forall|i: int| 0 <= i < out.len() implies exists|j: int| 1 <= j < m && sig[j] == (
                #[trigger] out[i]).at by {
                    if i < before.len() {
                        assert(out[i] == before[i]);
                    } else {
                        assert(sig[m - 1] == out[i].at);
                    }
                }
                assert forall|a: int, b: int| 0 <= a < b < out.len() implies out[a].at < out[b].at by {
                    assert(out[a] == before[a]);
                    if b < before.len() {
                        assert(out[b] == before[b]);
                    }
                }
                assert forall|i: int| 0 <= i < out.len() implies sig[1] <= (#[trigger] out[i]).at <= sig[m - 1] by {
                    if i < before.len() {
                        assert(out[i] == before[i]);
                    }
                }
            },
            None => {},
        }
    }
}

proof fn lemma_breaks_before_space(ps: Seq<LineProps>, raw: Seq<u8>, sig: Seq<usize>, cls: Seq<u8>, m: int)
    requires
        1 <= m <= sig.len(),
        cls == spec_cls(raw, sig),
        forall|j: int| 0 <= j < sig.len() ==> #[trigger] sig[j] < raw.len(),
    ensures
        ({
            let out = spec_breaks_between(ps, raw, sig, cls, m);
            forall|i: int| 0 <= i < out.len() && raw[(#[trigger] out[i]).at as int] == LB_SP ==> out[i].mandatory
        }),
    decreases m,
{
    if m > 1 {
        lemma_breaks_before_space(ps, raw, sig, cls, m - 1);
        let before = spec_breaks_between(ps, raw, sig, cls, m - 1);
        match spec_break_before(ps, raw, sig, cls, m - 1) {
            Some(mandatory) => {
                let out = before.push(LineBreak { at: sig[m - 1], mandatory });
                assert(cls[m - 1] == folded(raw[sig[m - 1] as int]));
                assert forall|i: int| 0 <= i < out.len() && raw[(#[trigger] out[i]).at as int] == LB_SP implies out[i].mandatory by {
                    if i < before.len() {
                        assert(out[i] == before[i]);
                    }
                }
            },
            None => {},
        }
    }
}

/// LB7: no optional break falls before a space; a break there is a
/// mandatory one (after a hard line break).
pub proof fn lemma_no_optional_break_before_space(ps: Seq<LineProps>)
    requires
        ps.len() <= usize::MAX,
    ensures
        forall|i: int|
            0 <= i < spec_line_breaks(ps).len() && (#[trigger] spec_line_breaks(ps)[i]).at < ps.len()
                && spec_resolved_class(ps[spec_line_breaks(ps)[i].at as int]) == LB_SP ==> spec_line_breaks(
                ps,
            )[i].mandatory,
{
    if ps.len() > 0 {
        let raw = spec_raw(ps);
        let n = ps.len() as int;
        let sig = spec_sig(raw, n);
        let cls = spec_cls(raw, sig);
        lemma_sig_props(raw, n);
        let between = spec_breaks_between(ps, raw, sig, cls, sig.len() as int);
        let out = between.push(LineBreak { at: n as usize, mandatory: true });
        assert(out == spec_line_breaks(ps));
        if sig.len() >= 1 {
            lemma_breaks_before_space(ps, raw, sig, cls, sig.len() as int);
        }
        assert forall|i: int|
            0 <= i < out.len() && (#[trigger] out[i]).at < ps.len() && spec_resolved_class(ps[out[i].at as int])
                == LB_SP implies out[i].mandatory by {
            if i < between.len() {
                assert(out[i] == between[i]);
                assert(raw[out[i].at as int] == spec_resolved_class(ps[out[i].at as int]));
            }
        }
    }
}

/// The break opportunities of a text stand in increasing order within it,
/// each before a character that begins a base-and-marks sequence (LB9),
/// and the last is the mandatory break at its end (LB3).
pub proof fn lemma_line_breaks_ordered(ps: Seq<LineProps>)
    requires
        ps.len() < usize::MAX,
    ensures
        ({
            let out = spec_line_breaks(ps);
            &&& ps.len() == 0 ==> out.len() == 0
            &&& ps.len() > 0 ==> out.len() >= 1 && out.last() == LineBreak { at: ps.len() as usize, mandatory: true }
            &&& forall|i: int| 0 <= i < out.len() ==> 1 <= (#[trigger] out[i]).at <= ps.len()
            &&& forall|a: int, b: int| 0 <= a < b < out.len() ==> out[a].at < out[b].at
            &&& forall|i: int|
                0 <= i < out.len() && (#[trigger] out[i]).at < ps.len() ==> spec_base(spec_raw(ps), out[i].at as int)
                    == out[i].at
        }),
{
    if ps.len() > 0 {
        let raw = spec_raw(ps);
        let n = ps.len() as int;
        let sig = spec_sig(raw, n);
        let cls = spec_cls(raw, sig);
        lemma_sig_props(raw, n);
        lemma_breaks_between(ps, raw, sig, cls, sig.len() as int);
        let between = spec_breaks_between(ps, raw, sig, cls, sig.len() as int);
        let out = between.push(LineBreak { at: n as usize, mandatory: true });
        assert(out == spec_line_breaks(ps));
        assert forall|i: int| 0 <= i < out.len() implies 1 <= (#[trigger] out[i]).at <= n && (out[i].at < n ==> spec_base(
            raw,
            out[i].at as int,
        ) == out[i].at) by {
            if i < between.len() {
                assert(out[i] == between[i]);
                let j = choose|j: int| 1 <= j < sig.len() && sig[j] == #[trigger] between[i].at;
                assert(sig[0] < sig[j]);
            }
        }
        assert forall|a: int, b: int| 0 <= a < b < out.len() implies out[a].at < out[b].at by {
            assert(out[a] == between[a]);
            if b < between.len() {
                assert(out[b] == between[b]);
            } else {
                let j = choose|j: int| 1 <= j < sig.len() && sig[j] == #[trigger] between[a].at;
            }
        }
    }
}


/// The classes that never start a line after a break the rules allow:
/// closing punctuation and parentheses, exclamation and symbols allowing a
/// break after.
pub open spec fn closing_class(c: u8) -> bool {
    c == LB_CL || c == LB_CP || c == LB_EX || c == LB_SY
}

/// The classes no break may come before, a zero width space aside: those
/// of LB13, and the word joiner (LB11).
pub open spec fn glued_before(c: u8) -> bool {
    closing_class(c) || c == LB_WJ
}

proof fn lemma_breaks_before_closing(ps: Seq<LineProps>, raw: Seq<u8>, sig: Seq<usize>, cls: Seq<u8>, m: int)
    requires
        1 <= m <= sig.len(),
        cls == spec_cls(raw, sig),
        forall|j: int| 0 <= j < sig.len() ==> #[trigger] sig[j] < raw.len(),
        forall|a: int, b: int| 0 <= a < b < sig.len() ==> sig[a] < sig[b],
    ensures
        ({
            let out = spec_breaks_between(ps, raw, sig, cls, m);
            forall|i: int|
                0 <= i < out.len() && glued_before(raw[(#[trigger] out[i]).at as int]) ==> out[i].mandatory
                    || exists|j: int| 0 <= j < out[i].at && raw[j] == LB_ZW
        }),
    decreases m,
{
    if m > 1 {
        lemma_breaks_before_closing(ps, raw, sig, cls, m - 1);
        let before = spec_breaks_between(ps, raw, sig, cls, m - 1);
        match spec_break_before(ps, raw, sig, cls, m - 1) {
            Some(mandatory) => {
                let out = before.push(LineBreak { at: sig[m - 1], mandatory });
                assert(cls[m - 1] == folded(raw[sig[m - 1] as int]));
                if glued_before(raw[sig[m - 1] as int]) && !mandatory {
                    lemma_prev_non_sp_below(cls, m - 1);
                    let j = prev_non_sp(cls, m - 1).unwrap() as int;
                    assert(cls[j] == LB_ZW);
                    assert(cls[j] == folded(raw[sig[j] as int]));
                    assert(raw[sig[j] as int] == LB_ZW);
                    assert(sig[j] < sig[m - 1]);
                }
                assert forall|i: int|
                    0 <= i < out.len() && glued_before(raw[(#[trigger] out[i]).at as int]) implies out[i].mandatory
                        || exists|j: int| 0 <= j < out[i].at && raw[j] == LB_ZW by {
                    if i < before.len() {
                        assert(out[i] == before[i]);
                    } else if !out[i].mandatory {
                        let j = prev_non_sp(cls, m - 1).unwrap() as int;
                        assert(raw[sig[j] as int] == LB_ZW);
                    }
                }
            },
            None => {},
        }
    }
}

/// LB13: no break comes before closing punctuation, a closing parenthesis,
/// an exclamation or a symbol allowing a break after, unless it is a
/// mandatory break (after a hard line break) or a zero width space before
/// it allows one (LB8).
pub proof fn lemma_no_break_before_closing(ps: Seq<LineProps>)
    requires
        ps.len() <= usize::MAX,
    ensures
        forall|i: int|
            0 <= i < spec_line_breaks(ps).len() && (#[trigger] spec_line_breaks(ps)[i]).at < ps.len()
                && closing_class(spec_resolved_class(ps[spec_line_breaks(ps)[i].at as int])) ==> spec_line_breaks(
                ps,
            )[i].mandatory || exists|j: int|
                0 <= j < spec_line_breaks(ps)[i].at && spec_resolved_class(ps[j]) == LB_ZW,
{
    if ps.len() > 0 {
        let raw = spec_raw(ps);
        let n = ps.len() as int;
        let sig = spec_sig(raw, n);
        let cls = spec_cls(raw, sig);
        lemma_sig_props(raw, n);
        let between = spec_breaks_between(ps, raw, sig, cls, sig.len() as int);
        let out = between.push(LineBreak { at: n as usize, mandatory: true });
        assert(out == spec_line_breaks(ps));
        if sig.len() >= 1 {
            lemma_breaks_before_closing(ps, raw, sig, cls, sig.len() as int);
        }
        assert forall|i: int|
            0 <= i < out.len() && (#[trigger] out[i]).at < ps.len() && closing_class(
                spec_resolved_class(ps[out[i].at as int]),
            ) implies out[i].mandatory || exists|j: int| 0 <= j < out[i].at && spec_resolved_class(ps[j]) == LB_ZW by {
            if i < between.len() {
                assert(out[i] == between[i]);
                assert(raw[out[i].at as int] == spec_resolved_class(ps[out[i].at as int]));
                assert(glued_before(raw[out[i].at as int]));
                if !out[i].mandatory {
                    let j = choose|j: int| 0 <= j < out[i].at && raw[j] == LB_ZW;
                    assert(spec_resolved_class(ps[j]) == LB_ZW);
                }
            }
        }
    }
}

/// LB11: no break comes before a word joiner, unless it is a mandatory
/// break (after a hard line break) or a zero width space before it allows
/// one (LB8).
pub proof fn lemma_no_break_before_word_joiner(ps: Seq<LineProps>)
    requires
        ps.len() <= usize::MAX,
    ensures
        forall|i: int|
            0 <= i < spec_line_breaks(ps).len() && (#[trigger] spec_line_breaks(ps)[i]).at < ps.len()
                && spec_resolved_class(ps[spec_line_breaks(ps)[i].at as int]) == LB_WJ ==> spec_line_breaks(
                ps,
            )[i].mandatory || exists|j: int|
                0 <= j < spec_line_breaks(ps)[i].at && spec_resolved_class(ps[j]) == LB_ZW,
{
    if ps.len() > 0 {
        let raw = spec_raw(ps);
        let n = ps.len() as int;
        let sig = spec_sig(raw, n);
        let cls = spec_cls(raw, sig);
        lemma_sig_props(raw, n);
        let between = spec_breaks_between(ps, raw, sig, cls, sig.len() as int);
        let out = between.push(LineBreak { at: n as usize, mandatory: true });
        assert(out == spec_line_breaks(ps));
        if sig.len() >= 1 {
            lemma_breaks_before_closing(ps, raw, sig, cls, sig.len() as int);
        }
        assert forall|i: int|
            0 <= i < out.len() && (#[trigger] out[i]).at < ps.len() && spec_resolved_class(ps[out[i].at as int]) == LB_WJ implies out[i].mandatory || exists|j: int| 0 <= j < out[i].at && spec_resolved_class(ps[j]) == LB_ZW by {
            if i < between.len() {
                assert(out[i] == between[i]);
                assert(raw[out[i].at as int] == spec_resolved_class(ps[out[i].at as int]));
                if !out[i].mandatory {
                    let j = choose|j: int| 0 <= j < out[i].at && raw[j] == LB_ZW;
                    assert(spec_resolved_class(ps[j]) == LB_ZW);
                }
            }
        }
    }
}


/// The classes before which only a mandatory break may come: the hard
/// line breaks (LB6), spaces and zero width spaces (LB7).
pub open spec fn mandatory_only_before(c: u8) -> bool {
    c == LB_BK || c == LB_CR || c == LB_LF || c == LB_NL || c == LB_SP || c == LB_ZW
}

proof fn lemma_breaks_before_unbreakable(ps: Seq<LineProps>, raw: Seq<u8>, sig: Seq<usize>, cls: Seq<u8>, m: int)
    requires
        1 <= m <= sig.len(),
        cls == spec_cls(raw, sig),
        forall|j: int| 0 <= j < sig.len() ==> #[trigger] sig[j] < raw.len(),
    ensures
        ({
            let out = spec_breaks_between(ps, raw, sig, cls, m);
            forall|i: int| 0 <= i < out.len() && mandatory_only_before(raw[(#[trigger] out[i]).at as int]) ==> out[i].mandatory
        }),
    decreases m,
{
    if m > 1 {
        lemma_breaks_before_unbreakable(ps, raw, sig, cls, m - 1);
        let before = spec_breaks_between(ps, raw, sig, cls, m - 1);
        match spec_break_before(ps, raw, sig, cls, m - 1) {
            Some(mandatory) => {
                let out = before.push(LineBreak { at: sig[m - 1], mandatory });
                assert(cls[m - 1] == folded(raw[sig[m - 1] as int]));
                assert forall|i: int| 0 <= i < out.len() && mandatory_only_before(raw[(#[trigger] out[i]).at as int]) implies out[i].mandatory by {
                    if i < before.len() {
                        assert(out[i] == before[i]);
                    }
                }
            },
            None => {},
        }
    }
}

/// LB6 and LB7: no optional break falls before a hard line break, a space
/// or a zero width space; a break there is a mandatory one (after a hard
/// line break).
pub proof fn lemma_no_optional_break_before_unbreakable(ps: Seq<LineProps>)
    requires
        ps.len() <= usize::MAX,
    ensures
        forall|i: int|
            0 <= i < spec_line_breaks(ps).len() && (#[trigger] spec_line_breaks(ps)[i]).at < ps.len()
                && mandatory_only_before(spec_resolved_class(ps[spec_line_breaks(ps)[i].at as int])) ==> spec_line_breaks(
                ps,
            )[i].mandatory,
{
    if ps.len() > 0 {
        let raw = spec_raw(ps);
        let n = ps.len() as int;
        let sig = spec_sig(raw, n);
        let cls = spec_cls(raw, sig);
        lemma_sig_props(raw, n);
        let between = spec_breaks_between(ps, raw, sig, cls, sig.len() as int);
        let out = between.push(LineBreak { at: n as usize, mandatory: true });
        assert(out == spec_line_breaks(ps));
        if sig.len() >= 1 {
            lemma_breaks_before_unbreakable(ps, raw, sig, cls, sig.len() as int);
        }
        assert forall|i: int|
            0 <= i < out.len() && (#[trigger] out[i]).at < ps.len() && mandatory_only_before(spec_resolved_class(ps[out[i].at as int])) implies out[i].mandatory by {
            if i < between.len() {
                assert(out[i] == between[i]);
                assert(raw[out[i].at as int] == spec_resolved_class(ps[out[i].at as int]));
            }
        }
    }
}


proof fn lemma_sig_contains(raw: Seq<u8>, n: int, p: int)
    requires
        0 <= p < n <= usize::MAX,
        spec_base(raw, p) == p,
    ensures
        exists|k: int| 0 <= k < spec_sig(raw, n).len() && #[trigger] spec_sig(raw, n)[k] == p,
    decreases n,
{
    let s0 = spec_sig(raw, n - 1);
    if p == n - 1 {
        let s = s0.push((n - 1) as usize);
        assert(spec_sig(raw, n) == s);
        assert(spec_sig(raw, n)[s0.len() as int] == p);
    } else {
        lemma_sig_contains(raw, n - 1, p);
        let k = choose|k: int| 0 <= k < s0.len() && #[trigger] s0[k] == p;
        if spec_base(raw, n - 1) == n - 1 {
            assert(spec_sig(raw, n) == s0.push((n - 1) as usize));
            assert(spec_sig(raw, n)[k] == s0[k]);
        } else {
            assert(spec_sig(raw, n) == s0);
        }
        assert(spec_sig(raw, n)[k] == p);
    }
}

proof fn lemma_breaks_contains(
    ps: Seq<LineProps>,
    raw: Seq<u8>,
    sig: Seq<usize>,
    cls: Seq<u8>,
    m: int,
    k: int,
    b: bool,
)
    requires
        1 <= k < m <= sig.len(),
        spec_break_before(ps, raw, sig, cls, k) == Some(b),
    ensures
        exists|i: int|
            0 <= i < spec_breaks_between(ps, raw, sig, cls, m).len() && #[trigger] spec_breaks_between(
                ps,
                raw,
                sig,
                cls,
                m,
            )[i] == (LineBreak { at: sig[k], mandatory: b }),
    decreases m,
{
    let before = spec_breaks_between(ps, raw, sig, cls, m - 1);
    if k == m - 1 {
        let out = before.push(LineBreak { at: sig[k], mandatory: b });
        assert(spec_breaks_between(ps, raw, sig, cls, m) == out);
        assert(spec_breaks_between(ps, raw, sig, cls, m)[before.len() as int] == LineBreak { at: sig[k], mandatory: b });
    } else {
        lemma_breaks_contains(ps, raw, sig, cls, m - 1, k, b);
        let i = choose|i: int| 0 <= i < before.len() && #[trigger] before[i] == LineBreak { at: sig[k], mandatory: b };
        match spec_break_before(ps, raw, sig, cls, m - 1) {
            Some(x) => {
                assert(spec_breaks_between(ps, raw, sig, cls, m) == before.push(LineBreak { at: sig[m - 1], mandatory: x }));
                assert(spec_breaks_between(ps, raw, sig, cls, m)[i] == before[i]);
            },
            None => {
                assert(spec_breaks_between(ps, raw, sig, cls, m) == before);
                assert(spec_breaks_between(ps, raw, sig, cls, m)[i] == before[i]);
            },
        }
    }
}

/// LB4 and LB5: after every hard line break (a CR followed by LF aside,
/// which breaks only after the LF) comes a mandatory break.
pub proof fn lemma_break_after_hard_break(ps: Seq<LineProps>, j: int)
    requires
        ps.len() <= usize::MAX,
        0 <= j < ps.len(),
        hard(spec_resolved_class(ps[j])),
        !(spec_resolved_class(ps[j]) == LB_CR && j + 1 < ps.len() && spec_resolved_class(ps[j + 1]) == LB_LF),
    ensures
        exists|i: int|
            0 <= i < spec_line_breaks(ps).len() && #[trigger] spec_line_breaks(ps)[i] == (LineBreak {
                at: (j + 1) as usize,
                mandatory: true,
            }),
{
    let raw = spec_raw(ps);
    let n = ps.len() as int;
    let sig = spec_sig(raw, n);
    let cls = spec_cls(raw, sig);
    lemma_sig_props(raw, n);
    let between = spec_breaks_between(ps, raw, sig, cls, sig.len() as int);
    let out = between.push(LineBreak { at: n as usize, mandatory: true });
    assert(out == spec_line_breaks(ps));
    if j + 1 == n {
        assert(out[between.len() as int] == LineBreak { at: (j + 1) as usize, mandatory: true });
    } else {
        assert(raw[j] == spec_resolved_class(ps[j]));
        assert(raw[j + 1] == spec_resolved_class(ps[j + 1]));
        lemma_base_bounds(raw, j);
        lemma_base_bounds(raw, j + 1);
        assert(spec_base(raw, j) == j) by {
            if j > 0 {
                assert(!attaches(raw[j], raw[spec_base(raw, j - 1)]));
            }
        }
        assert(spec_base(raw, j + 1) == j + 1) by {
            assert(!attaches(raw[j + 1], raw[j]));
        }
        lemma_sig_contains(raw, n, j);
        lemma_sig_contains(raw, n, j + 1);
        let kj = choose|k: int| 0 <= k < sig.len() && #[trigger] sig[k] == j;
        let k = choose|k: int| 0 <= k < sig.len() && #[trigger] sig[k] == j + 1;
        assert(kj < k) by {
            if kj >= k {
                if kj > k {
                    assert(sig[k] < sig[kj]);
                }
            }
        }
        assert(kj == k - 1) by {
            if kj < k - 1 {
                assert(sig[kj] < sig[k - 1] && sig[k - 1] < sig[k]);
            }
        }
        assert(cls[k - 1] == folded(raw[j]));
        assert(cls[k] == folded(raw[j + 1]));
        assert(spec_break_before(ps, raw, sig, cls, k) == Some(true));
        lemma_breaks_contains(ps, raw, sig, cls, sig.len() as int, k, true);
        let i = choose|i: int| 0 <= i < between.len() && #[trigger] between[i] == LineBreak { at: sig[k], mandatory: true };
        assert(out[i] == between[i]);
    }
}


proof fn lemma_breaks_from_rules(ps: Seq<LineProps>, raw: Seq<u8>, sig: Seq<usize>, cls: Seq<u8>, m: int)
    requires
        1 <= m <= sig.len(),
    ensures
        forall|i: int|
            0 <= i < spec_breaks_between(ps, raw, sig, cls, m).len() ==> exists|k: int|
                1 <= k < m && sig[k] == (#[trigger] spec_breaks_between(ps, raw, sig, cls, m)[i]).at
                    && spec_break_before(ps, raw, sig, cls, k) is Some,
    decreases m,
{
    if m > 1 {
        lemma_breaks_from_rules(ps, raw, sig, cls, m - 1);
        let before = spec_breaks_between(ps, raw, sig, cls, m - 1);
        let out = spec_breaks_between(ps, raw, sig, cls, m);
        assert forall|i: int| 0 <= i < out.len() implies exists|k: int|
            1 <= k < m && sig[k] == (#[trigger] out[i]).at && spec_break_before(ps, raw, sig, cls, k) is Some by {
            match spec_break_before(ps, raw, sig, cls, m - 1) {
                Some(x) => {
                    assert(out == before.push(LineBreak { at: sig[m - 1], mandatory: x }));
                    if i < before.len() {
                        assert(out[i] == before[i]);
                        let k = choose|k: int|
                            1 <= k < m - 1 && sig[k] == (#[trigger] before[i]).at && spec_break_before(ps, raw, sig, cls, k) is Some;
                    } else {
                        assert(out[i].at == sig[m - 1]);
                    }
                },
                None => {
                    assert(out == before);
                    let k = choose|k: int|
                        1 <= k < m - 1 && sig[k] == (#[trigger] before[i]).at && spec_break_before(ps, raw, sig, cls, k) is Some;
                },
            }
        }
    }
}

/// The classes no break may follow: the word joiner (LB11) and the
/// non-breaking glue (LB12).
pub open spec fn glued_after(c: u8) -> bool {
    c == LB_WJ || c == LB_GL
}

/// LB11 and LB12: no break ever comes right after a word joiner or a
/// non-breaking glue character.
pub proof fn lemma_no_break_after_glue(ps: Seq<LineProps>, j: int)
    requires
        ps.len() <= usize::MAX,
        0 <= j,
        j + 1 < ps.len(),
        glued_after(spec_resolved_class(ps[j])),
    ensures
        forall|i: int| 0 <= i < spec_line_breaks(ps).len() ==> (#[trigger] spec_line_breaks(ps)[i]).at != j + 1,
{
    let raw = spec_raw(ps);
    let n = ps.len() as int;
    let sig = spec_sig(raw, n);
    let cls = spec_cls(raw, sig);
    lemma_sig_props(raw, n);
    let between = spec_breaks_between(ps, raw, sig, cls, sig.len() as int);
    let out = between.push(LineBreak { at: n as usize, mandatory: true });
    assert(out == spec_line_breaks(ps));
    assert(raw[j] == spec_resolved_class(ps[j]));
    lemma_base_bounds(raw, j);
    assert(spec_base(raw, j) == j) by {
        if j > 0 {
            assert(!attaches(raw[j], raw[spec_base(raw, j - 1)]));
        }
    }
    lemma_sig_contains(raw, n, j);
    let kj = choose|k: int| 0 <= k < sig.len() && #[trigger] sig[k] == j;
    if sig.len() >= 1 {
        lemma_breaks_from_rules(ps, raw, sig, cls, sig.len() as int);
    }
    assert forall|i: int| 0 <= i < out.len() implies (#[trigger] out[i]).at != j + 1 by {
        if i < between.len() {
            assert(out[i] == between[i]);
            if between[i].at == j + 1 {
                let k = choose|k: int|
                    1 <= k < sig.len() && sig[k] == (#[trigger] between[i]).at && spec_break_before(ps, raw, sig, cls, k) is Some;
                assert(kj < k) by {
                    if kj > k {
                        assert(sig[k] < sig[kj]);
                    }
                }
                assert(kj == k - 1) by {
                    if kj < k - 1 {
                        assert(sig[kj] < sig[k - 1] && sig[k - 1] < sig[k]);
                    }
                }
                assert(cls[k - 1] == folded(raw[j]));
                assert(prev_non_sp(cls, k) == Some((k - 1) as usize));
                assert(raw[sig[k] - 1] == raw[j]);
                assert(spec_break_before(ps, raw, sig, cls, k) is None);
            }
        }
    }
}


/// LB1: ambiguous, surrogate and unknown characters are alphabetic,
/// conditional Japanese starters are nonstarters, and South East Asian
/// characters are combining marks when they are marks and alphabetic
/// otherwise; no character keeps one of those five classes, and every other
/// class stays as it is.
pub proof fn lemma_resolved_class_rule(p: LineProps)
    ensures
        ({
            let r = spec_resolved_class(p);
            let c = p.line_break;
            &&& r != LB_AI && r != LB_SG && r != LB_XX && r != LB_CJ && r != LB_SA
            &&& (c == LB_AI || c == LB_SG || c == LB_XX) ==> r == LB_AL
            &&& c == LB_CJ ==> r == LB_NS
            &&& c == LB_SA && (p.category == GeneralCategory::NonspacingMark || p.category
                == GeneralCategory::SpacingMark) ==> r == LB_CM
            &&& c == LB_SA && p.category != GeneralCategory::NonspacingMark && p.category
                != GeneralCategory::SpacingMark ==> r == LB_AL
            &&& !(c == LB_AI || c == LB_SG || c == LB_XX || c == LB_CJ || c == LB_SA) ==> r == c
        }),
{
}

} // verus!
