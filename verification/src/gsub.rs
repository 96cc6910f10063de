//! Questions asked of GSUB without a buffer: what type a lookup resolves
//! to, and whether a lookup would substitute a given glyph sequence.

use vstd::prelude::*;
use crate::context::{indexed_set, offset_class_def, spec_indexed_set, U16Array};
use crate::layout::{spec_u16_or_zero, LayoutTable};
use crate::ot::{
    offset_coverage, read_u16_be, resolve_extension, spec_class_of_checked, spec_coverage_index, spec_offset_coverage,
    spec_resolve_extension, spec_u16, ClassDef, Coverage, Lookup,
};

verus! {

pub const SINGLE: u16 = 1;

pub const MULTIPLE: u16 = 2;

pub const ALTERNATE: u16 = 3;

pub const LIGATURE: u16 = 4;

pub const CONTEXT: u16 = 5;

pub const CHAIN_CONTEXT: u16 = 6;

pub const EXTENSION: u16 = 7;

pub const REVERSE_CHAIN_SINGLE: u16 = 8;

/// A glyph sequence to test lookups against, and whether only rules
/// without backtrack or lookahead may match it.
pub struct WouldApplyContext<'a> {
    pub glyphs: &'a [u16],
    pub zero_context: bool,
}

/// The class of `g` in class definition `c`, zero where it has none.
pub open spec fn class_value(c: Seq<u8>, g: u16) -> u16 {
    match spec_class_of_checked(c, g) {
        Some(x) => x,
        None => 0,
    }
}

/// What a rule compares a glyph with: the glyph itself, or its class.
pub open spec fn rule_value(classes: Option<Seq<u8>>, g: u16) -> u16 {
    match classes {
        None => g,
        Some(c) => class_value(c, g),
    }
}

/// Whether the first `n` values of `values` are those of the glyphs after
/// the first one.
pub open spec fn values_match(values: Seq<u8>, n: int, glyphs: Seq<u16>, classes: Option<Seq<u8>>) -> bool {
    forall|i: int| 0 <= i < n ==> #[trigger] spec_u16(values, i * 2) == Some(rule_value(classes, glyphs[i + 1]))
}

/// Whether a context rule (a glyph count, a lookup count, then the input
/// after the first glyph) matches the whole glyph sequence.
pub open spec fn spec_rule_input_matches(glyphs: Seq<u16>, rule: Seq<u8>, classes: Option<Seq<u8>>) -> bool {
    match spec_u16(rule, 0) {
        None => false,
        Some(count) => count >= 1 && glyphs.len() == count as int && rule.len() >= 4 && values_match(
            rule.subrange(4, rule.len() as int),
            count - 1,
            glyphs,
            classes,
        ),
    }
}

/// Whether the `n` values from the start of `data` match the glyphs after
/// the first one.
fn input_values_match<F: Fn(u16) -> u16>(
    glyphs: &[u16],
    data: &[u8],
    n: u16,
    value_of: &F,
    Ghost(classes): Ghost<Option<Seq<u8>>>,
) -> (r: bool)
    requires
        glyphs@.len() == n as int + 1,
        forall|g: u16| call_requires(*value_of, (g,)),
        forall|g: u16, v: u16| call_ensures(*value_of, (g,), v) ==> v == rule_value(classes, g),
    ensures
        r == values_match(data@, n as int, glyphs@, classes),
{
    let input = U16Array { data, len: n };
    let mut i: u16 = 0;
    while i < n
        invariant
            i <= n,
            glyphs@.len() == n as int + 1,
            input.data@ == data@,
            input.len == n,
            forall|g: u16| call_requires(*value_of, (g,)),
            forall|g: u16, v: u16| call_ensures(*value_of, (g,), v) ==> v == rule_value(classes, g),
            forall|k: int| 0 <= k < i ==> #[trigger] spec_u16(data@, k * 2) == Some(rule_value(classes, glyphs@[k + 1])),
        decreases n - i,
    {
        let want: u16 = value_of(glyphs[i as usize + 1]);
        match input.get(i) {
            Some(v) => {
                if v != want {
                    assert(spec_u16(data@, i * 2) != Some(rule_value(classes, glyphs@[i + 1])));
                    return false;
                }
            },
            None => {
                assert(spec_u16(data@, i * 2) != Some(rule_value(classes, glyphs@[i + 1])));
                return false;
            },
        }
        i = i + 1;
    }
    true
}

/// Whether a context rule matches the whole glyph sequence, its values read
/// through `value_of`.
fn rule_input_matches<F: Fn(u16) -> u16>(
    ctx: &WouldApplyContext,
    rule: &[u8],
    value_of: F,
    Ghost(classes): Ghost<Option<Seq<u8>>>,
) -> (r: bool)
    requires
        forall|g: u16| call_requires(value_of, (g,)),
        forall|g: u16, v: u16| call_ensures(value_of, (g,), v) ==> v == rule_value(classes, g),
    ensures
        r == spec_rule_input_matches(ctx.glyphs@, rule@, classes),
{
    let glyph_count: u16 = match read_u16_be(rule, 0) {
        Some(c) => c,
        None => return false,
    };
    if glyph_count == 0 {
        return false;
    }
    let input_len: u16 = glyph_count - 1;
    if ctx.glyphs.len() != input_len as usize + 1 {
        return false;
    }
    if rule.len() < 4 {
        return false;
    }
    let n: usize = rule.len();
    input_values_match(ctx.glyphs, &rule[4..n], input_len, &value_of, Ghost(classes))
}

/// Whether a chaining rule (backtrack, input after the first glyph,
/// lookahead) matches the whole glyph sequence; with a zero context, only a
/// rule without backtrack or lookahead does.
pub open spec fn spec_chain_rule_matches(glyphs: Seq<u16>, zero_context: bool, rule: Seq<u8>, classes: Option<Seq<u8>>) -> bool {
    match spec_u16(rule, 0) {
        None => false,
        Some(backtrack) => {
            let input_at = 2 + backtrack * 2;
            match spec_u16(rule, input_at) {
                None => false,
                Some(count) => count >= 1 && {
                    let lookahead_at = input_at + 2 + (count - 1) * 2;
                    match spec_u16(rule, lookahead_at) {
                        None => false,
                        Some(lookahead) => !(zero_context && (backtrack != 0 || lookahead != 0)) && glyphs.len()
                            == count as int && values_match(
                            rule.subrange(input_at + 2, rule.len() as int),
                            count - 1,
                            glyphs,
                            classes,
                        ),
                    }
                },
            }
        },
    }
}

fn chain_rule_matches<F: Fn(u16) -> u16>(
    ctx: &WouldApplyContext,
    rule: &[u8],
    value_of: F,
    Ghost(classes): Ghost<Option<Seq<u8>>>,
) -> (r: bool)
    requires
        forall|g: u16| call_requires(value_of, (g,)),
        forall|g: u16, v: u16| call_ensures(value_of, (g,), v) ==> v == rule_value(classes, g),
    ensures
        r == spec_chain_rule_matches(ctx.glyphs@, ctx.zero_context, rule@, classes),
{
    let backtrack_count: u16 = match read_u16_be(rule, 0) {
        Some(c) => c,
        None => return false,
    };
    let input_at: usize = 2 + backtrack_count as usize * 2;
    let glyph_count: u16 = match read_u16_be(rule, input_at) {
        Some(c) => c,
        None => return false,
    };
    if glyph_count == 0 {
        return false;
    }
    let input_len: u16 = glyph_count - 1;
    let lookahead_at: usize = input_at + 2 + input_len as usize * 2;
    let lookahead_count: u16 = match read_u16_be(rule, lookahead_at) {
        Some(c) => c,
        None => return false,
    };
    if ctx.zero_context && (backtrack_count != 0 || lookahead_count != 0) {
        return false;
    }
    if ctx.glyphs.len() != input_len as usize + 1 {
        return false;
    }
    let n: usize = rule.len();
    input_values_match(ctx.glyphs, &rule[input_at + 2..n], input_len, &value_of, Ghost(classes))
}

/// Rule `i` of a rule set: the data from its offset on, if the offset can
/// be read and lies within the set.
pub open spec fn spec_rule_at(set: Seq<u8>, i: int) -> Option<Seq<u8>> {
    match spec_u16(set, 2 + i * 2) {
        None => None,
        Some(off) => if off <= set.len() {
            Some(set.subrange(off as int, set.len() as int))
        } else {
            None
        },
    }
}

/// Whether rule `i` of a rule set exists and passes `pred`.
pub open spec fn rule_passes(set: Seq<u8>, i: int, pred: spec_fn(Seq<u8>) -> bool) -> bool {
    match spec_rule_at(set, i) {
        Some(t) => pred(t),
        None => false,
    }
}

/// Whether some rule of a rule set passes `pred`.
pub open spec fn spec_any_rule(set: Seq<u8>, pred: spec_fn(Seq<u8>) -> bool) -> bool {
    match spec_u16(set, 0) {
        None => false,
        Some(count) => exists|i: int| 0 <= i < count && #[trigger] rule_passes(set, i, pred),
    }
}

fn any_rule_in_set<F: Fn(&[u8]) -> bool>(set: &[u8], matches: F, Ghost(pred): Ghost<spec_fn(Seq<u8>) -> bool>) -> (r: bool)
    requires
        forall|s: &[u8]| call_requires(matches, (s,)),
        forall|s: &[u8], b: bool| call_ensures(matches, (s,), b) ==> b == pred(s@),
    ensures
        r == spec_any_rule(set@, pred),
{
    let count: u16 = match read_u16_be(set, 0) {
        Some(c) => c,
        None => return false,
    };
    let mut i: u16 = 0;
    while i < count
        invariant
            i <= count,
            spec_u16(set@, 0) == Some(count),
            forall|s: &[u8]| call_requires(matches, (s,)),
            forall|s: &[u8], b: bool| call_ensures(matches, (s,), b) ==> b == pred(s@),
            forall|k: int| 0 <= k < i ==> !#[trigger] rule_passes(set@, k, pred),
        decreases count - i,
    {
        match read_u16_be(set, 2 + i as usize * 2) {
            Some(off) => {
                if off as usize <= set.len() {
                    let n: usize = set.len();
                    let rule: &[u8] = &set[off as usize..n];
                    assert(spec_rule_at(set@, i as int) == Some(rule@));
                    if matches(rule) {
                        assert(rule_passes(set@, i as int, pred));
                        return true;
                    }
                }
            },
            None => {},
        }
        i = i + 1;
    }
    false
}

/// Whether rule `i` of a rule set exists and matches the glyphs as a
/// context rule.
pub open spec fn input_rule_at(set: Seq<u8>, i: int, glyphs: Seq<u16>, classes: Option<Seq<u8>>) -> bool {
    match spec_rule_at(set, i) {
        Some(t) => spec_rule_input_matches(glyphs, t, classes),
        None => false,
    }
}

/// Whether some context rule of a rule set matches the glyphs.
pub open spec fn spec_any_input_rule(set: Seq<u8>, glyphs: Seq<u16>, classes: Option<Seq<u8>>) -> bool {
    match spec_u16(set, 0) {
        None => false,
        Some(count) => exists|i: int| 0 <= i < count && #[trigger] input_rule_at(set, i, glyphs, classes),
    }
}

/// Whether rule `i` of a rule set exists and matches the glyphs as a
/// chaining rule.
pub open spec fn chain_rule_at(set: Seq<u8>, i: int, glyphs: Seq<u16>, zero_context: bool, classes: Option<Seq<u8>>) -> bool {
    match spec_rule_at(set, i) {
        Some(t) => spec_chain_rule_matches(glyphs, zero_context, t, classes),
        None => false,
    }
}

/// Whether some chaining rule of a rule set matches the glyphs.
pub open spec fn spec_any_chain_rule(set: Seq<u8>, glyphs: Seq<u16>, zero_context: bool, classes: Option<Seq<u8>>) -> bool {
    match spec_u16(set, 0) {
        None => false,
        Some(count) => exists|i: int| 0 <= i < count && #[trigger] chain_rule_at(set, i, glyphs, zero_context, classes),
    }
}

/// The bytes of a class definition, if there is one.
pub open spec fn class_bytes(classes: Option<&ClassDef>) -> Option<Seq<u8>> {
    match classes {
        Some(c) => Some(c.bytes()),
        None => None,
    }
}

/// Whether some context rule of `set` matches the sequence, glyphs compared
/// as they are or by their class in `classes`.
fn any_input_rule(ctx: &WouldApplyContext, set: &[u8], classes: Option<&ClassDef>) -> (r: bool)
    ensures
        r == spec_any_input_rule(set@, ctx.glyphs@, class_bytes(classes)),
{
    let ghost cls: Option<Seq<u8>> = class_bytes(classes);
    let ghost pred = |t: Seq<u8>| spec_rule_input_matches(ctx.glyphs@, t, cls);
    let value_of = |g: u16| -> (v: u16)
        ensures
            v == rule_value(class_bytes(classes), g),
        {
            match classes {
                Some(c) => c.class_of(g),
                None => g,
            }
        };
    let test = |rule: &[u8]| -> (b: bool)
        ensures
            b == spec_rule_input_matches(ctx.glyphs@, rule@, class_bytes(classes)),
        { rule_input_matches(ctx, rule, value_of, Ghost(class_bytes(classes))) };
    let r: bool = any_rule_in_set(set, test, Ghost(pred));
    proof {
        assert forall|i: int|
            #![trigger rule_passes(set@, i, pred)]
            #![trigger input_rule_at(set@, i, ctx.glyphs@, cls)]
            rule_passes(set@, i, pred) == input_rule_at(set@, i, ctx.glyphs@, cls) by {}
    }
    r
}

/// Whether some chaining rule of `set` matches the sequence, glyphs
/// compared as they are or by their class in `classes`.
fn any_chain_rule(ctx: &WouldApplyContext, set: &[u8], classes: Option<&ClassDef>) -> (r: bool)
    ensures
        r == spec_any_chain_rule(set@, ctx.glyphs@, ctx.zero_context, class_bytes(classes)),
{
    let ghost cls: Option<Seq<u8>> = class_bytes(classes);
    let ghost pred = |t: Seq<u8>| spec_chain_rule_matches(ctx.glyphs@, ctx.zero_context, t, cls);
    let value_of = |g: u16| -> (v: u16)
        ensures
            v == rule_value(class_bytes(classes), g),
        {
            match classes {
                Some(c) => c.class_of(g),
                None => g,
            }
        };
    let test = |rule: &[u8]| -> (b: bool)
        ensures
            b == spec_chain_rule_matches(ctx.glyphs@, ctx.zero_context, rule@, class_bytes(classes)),
        { chain_rule_matches(ctx, rule, value_of, Ghost(class_bytes(classes))) };
    let r: bool = any_rule_in_set(set, test, Ghost(pred));
    proof {
        assert forall|i: int|
            #![trigger rule_passes(set@, i, pred)]
            #![trigger chain_rule_at(set@, i, ctx.glyphs@, ctx.zero_context, cls)]
            rule_passes(set@, i, pred) == chain_rule_at(set@, i, ctx.glyphs@, ctx.zero_context, cls) by {}
    }
    r
}

/// The class definition at the offset stored at `at`: all class zero for a
/// null offset, none where the offset leaves less than a header.
pub open spec fn spec_offset_class_def(d: Seq<u8>, at: int) -> Option<Seq<u8>> {
    match spec_u16(d, at) {
        None => None,
        Some(off) => if off == 0 {
            Some(Seq::<u8>::empty())
        } else if off + 4 > d.len() {
            None
        } else {
            Some(d.subrange(off as int, d.len() as int))
        },
    }
}

/// Whether the coverage table at the offset stored at `at` covers `g`.
pub open spec fn covers(d: Seq<u8>, at: int, g: u16) -> bool {
    match spec_offset_coverage(d, at) {
        Some(c) => spec_coverage_index(c, g) is Some,
        None => false,
    }
}

/// The set of a format-1 subtable for glyph `g`: the one at its index in
/// the subtable's first coverage table.
pub open spec fn spec_covered_set(d: Seq<u8>, g: u16) -> Option<Seq<u8>> {
    match spec_offset_coverage(d, 2) {
        None => None,
        Some(c) => match spec_coverage_index(c, g) {
            None => None,
            Some(index) => spec_indexed_set(d, index, 4, 6),
        },
    }
}

/// The set of a subtable for `glyph`, by its index in `coverage`.
pub fn coverage_indexed_offset<'d>(coverage: &Coverage, data: &'d [u8], glyph: u16) -> (r: Option<&'d [u8]>)
    ensures
        match spec_coverage_index(coverage.bytes(), glyph) {
            None => r is None,
            Some(index) => match spec_indexed_set(data@, index, 4, 6) {
                None => r is None,
                Some(t) => r matches Some(x) && x@ == t,
            },
        },
{
    let index: u16 = match coverage.index_of(glyph) {
        Some(i) => i,
        None => return None,
    };
    indexed_set(data, index, 4, 6)
}

/// Whether a ligature (its glyph, component count, then the components
/// after the first) is made of exactly the glyphs.
pub open spec fn spec_lig_matches(glyphs: Seq<u16>, lig: Seq<u8>) -> bool {
    match spec_u16(lig, 2) {
        None => false,
        Some(count) => count >= 1 && glyphs.len() == count as int && values_match(
            lig.subrange(4, lig.len() as int),
            count - 1,
            glyphs,
            None,
        ),
    }
}

/// Whether ligature `i` of a ligature set exists and is made of the glyphs.
pub open spec fn lig_at(set: Seq<u8>, i: int, glyphs: Seq<u16>) -> bool {
    match spec_rule_at(set, i) {
        Some(l) => spec_lig_matches(glyphs, l),
        None => false,
    }
}

/// Whether a ligature subtable would form a ligature of the glyphs.
pub open spec fn spec_would_apply_ligature(glyphs: Seq<u16>, data: Seq<u8>) -> bool {
    spec_u16(data, 0) == Some(1u16) && match spec_covered_set(data, glyphs[0]) {
        None => false,
        Some(set) => match spec_u16(set, 0) {
            None => false,
            Some(count) => exists|i: int| 0 <= i < count && #[trigger] lig_at(set, i, glyphs),
        },
    }
}

fn would_apply_ligature(ctx: &WouldApplyContext, data: &[u8]) -> (r: bool)
    requires
        ctx.glyphs@.len() >= 1,
    ensures
        r == spec_would_apply_ligature(ctx.glyphs@, data@),
{
    match read_u16_be(data, 0) {
        Some(1) => {},
        _ => return false,
    }
    let cov = match offset_coverage(data, 2) {
        Some(c) => c,
        None => return false,
    };
    let set: &[u8] = match coverage_indexed_offset(&cov, data, ctx.glyphs[0]) {
        Some(s) => s,
        None => return false,
    };
    let count: u16 = match read_u16_be(set, 0) {
        Some(c) => c,
        None => return false,
    };
    let same = |g: u16| -> (v: u16)
        ensures
            v == rule_value(None, g),
        { g };
    let mut i: u16 = 0;
    while i < count
        invariant
            i <= count,
            ctx.glyphs@.len() >= 1,
            forall|g: u16| call_requires(same, (g,)),
            forall|g: u16, v: u16| call_ensures(same, (g,), v) ==> v == rule_value(None, g),
            spec_u16(data@, 0) == Some(1u16),
            spec_covered_set(data@, ctx.glyphs@[0]) == Some(set@),
            spec_u16(set@, 0) == Some(count),
            forall|k: int| 0 <= k < i ==> !#[trigger] lig_at(set@, k, ctx.glyphs@),
        decreases count - i,
    {
        if let Some(off) = read_u16_be(set, 2 + i as usize * 2) {
            if off as usize <= set.len() {
                let n: usize = set.len();
                let lig: &[u8] = &set[off as usize..n];
                assert(spec_rule_at(set@, i as int) == Some(lig@));
                if let Some(component_count) = read_u16_be(lig, 2) {
                    if component_count >= 1 && ctx.glyphs.len() == component_count as usize {
                        let m: usize = lig.len();
                        if input_values_match(ctx.glyphs, &lig[4..m], component_count - 1, &same, Ghost(None)) {
                            assert(lig_at(set@, i as int, ctx.glyphs@));
                            return true;
                        }
                    }
                }
            }
        }
        i = i + 1;
    }
    false
}

/// Whether every coverage table of a format-3 rule, from the one whose
/// offset is stored at `at`, covers its glyph.
pub open spec fn all_covered(d: Seq<u8>, at: int, glyphs: Seq<u16>) -> bool {
    forall|i: int| 0 <= i < glyphs.len() ==> #[trigger] covers(d, at + i * 2, glyphs[i])
}

/// Whether the `n` coverage tables whose offsets start at `at` cover the
/// glyphs, one each.
fn coverages_match(data: &[u8], at: usize, glyphs: &[u16]) -> (r: bool)
    requires
        at <= 0x3_0000,
        glyphs@.len() <= 0xFFFF,
    ensures
        r == all_covered(data@, at as int, glyphs@),
{
    let n: usize = glyphs.len();
    let mut i: usize = 0;
    while i < n
        invariant
            i <= n == glyphs@.len() <= 0xFFFF,
            at <= 0x3_0000,
            forall|k: int| 0 <= k < i ==> #[trigger] covers(data@, at + k * 2, glyphs@[k]),
        decreases n - i,
    {
        let hit: bool = match offset_coverage(data, at + i * 2) {
            Some(c) => c.contains(glyphs[i]),
            None => false,
        };
        if !hit {
            assert(!covers(data@, at + i * 2, glyphs@[i as int]));
            return false;
        }
        i = i + 1;
    }
    true
}

/// Whether a context subtable would apply to the whole glyph sequence.
pub open spec fn spec_would_apply_context(glyphs: Seq<u16>, data: Seq<u8>) -> bool {
    match spec_u16(data, 0) {
        Some(1) => match spec_covered_set(data, glyphs[0]) {
            None => false,
            Some(set) => spec_any_input_rule(set, glyphs, None),
        },
        Some(2) => match spec_offset_class_def(data, 4) {
            None => false,
            Some(classes) => covers(data, 2, glyphs[0]) && match spec_indexed_set(data, class_value(classes, glyphs[0]), 6, 8) {
                None => false,
                Some(set) => spec_any_input_rule(set, glyphs, Some(classes)),
            },
        },
        Some(3) => match spec_u16(data, 2) {
            None => false,
            Some(n) => n != 0 && glyphs.len() == n as int && all_covered(data, 6, glyphs),
        },
        _ => false,
    }
}

fn would_apply_context(ctx: &WouldApplyContext, data: &[u8]) -> (r: bool)
    requires
        ctx.glyphs@.len() >= 1,
    ensures
        r == spec_would_apply_context(ctx.glyphs@, data@),
{
    let first: u16 = ctx.glyphs[0];
    match read_u16_be(data, 0) {
        Some(1) => {
            let cov = match offset_coverage(data, 2) {
                Some(c) => c,
                None => return false,
            };
            match coverage_indexed_offset(&cov, data, first) {
                Some(set) => any_input_rule(ctx, set, None),
                None => false,
            }
        },
        Some(2) => {
            let classes = match offset_class_def(data, 4) {
                Some(c) => c,
                None => return false,
            };
            let covered: bool = match offset_coverage(data, 2) {
                Some(c) => c.contains(first),
                None => false,
            };
            if !covered {
                return false;
            }
            let set_index: u16 = classes.class_of(first);
            match indexed_set(data, set_index, 6, 8) {
                Some(set) => any_input_rule(ctx, set, Some(&classes)),
                None => false,
            }
        },
        Some(3) => {
            let glyph_count: u16 = match read_u16_be(data, 2) {
                Some(c) => c,
                None => return false,
            };
            if glyph_count == 0 || ctx.glyphs.len() != glyph_count as usize {
                return false;
            }
            coverages_match(data, 6, ctx.glyphs)
        },
        _ => false,
    }
}

/// Whether a chaining context subtable would apply to the whole glyph
/// sequence; with a zero context, only rules without backtrack or lookahead
/// count.
pub open spec fn spec_would_apply_chain_context(glyphs: Seq<u16>, zero_context: bool, data: Seq<u8>) -> bool {
    match spec_u16(data, 0) {
        Some(1) => match spec_covered_set(data, glyphs[0]) {
            None => false,
            Some(set) => spec_any_chain_rule(set, glyphs, zero_context, None),
        },
        Some(2) => match spec_offset_class_def(data, 6) {
            None => false,
            Some(classes) => covers(data, 2, glyphs[0]) && match spec_indexed_set(data, class_value(classes, glyphs[0]), 10, 12) {
                None => false,
                Some(set) => spec_any_chain_rule(set, glyphs, zero_context, Some(classes)),
            },
        },
        Some(3) => match spec_u16(data, 2) {
            None => false,
            Some(backtrack) => {
                let input_at = 4 + backtrack * 2;
                match spec_u16(data, input_at) {
                    None => false,
                    Some(n) => match spec_u16(data, input_at + 2 + n * 2) {
                        None => false,
                        Some(lookahead) => !(zero_context && (backtrack != 0 || lookahead != 0)) && n != 0
                            && glyphs.len() == n as int && all_covered(data, input_at + 2, glyphs),
                    },
                }
            },
        },
        _ => false,
    }
}

fn would_apply_chain_context(ctx: &WouldApplyContext, data: &[u8]) -> (r: bool)
    requires
        ctx.glyphs@.len() >= 1,
    ensures
        r == spec_would_apply_chain_context(ctx.glyphs@, ctx.zero_context, data@),
{
    let first: u16 = ctx.glyphs[0];
    match read_u16_be(data, 0) {
        Some(1) => {
            let cov = match offset_coverage(data, 2) {
                Some(c) => c,
                None => return false,
            };
            match coverage_indexed_offset(&cov, data, first) {
                Some(set) => any_chain_rule(ctx, set, None),
                None => false,
            }
        },
        Some(2) => {
            let input_classes = match offset_class_def(data, 6) {
                Some(c) => c,
                None => return false,
            };
            let covered: bool = match offset_coverage(data, 2) {
                Some(c) => c.contains(first),
                None => false,
            };
            if !covered {
                return false;
            }
            let set_index: u16 = input_classes.class_of(first);
            match indexed_set(data, set_index, 10, 12) {
                Some(set) => any_chain_rule(ctx, set, Some(&input_classes)),
                None => false,
            }
        },
        Some(3) => {
            let backtrack_count: u16 = match read_u16_be(data, 2) {
                Some(c) => c,
                None => return false,
            };
            let input_at: usize = 4 + backtrack_count as usize * 2;
            let input_count: u16 = match read_u16_be(data, input_at) {
                Some(c) => c,
                None => return false,
            };
            let lookahead_at: usize = input_at + 2 + input_count as usize * 2;
            let lookahead_count: u16 = match read_u16_be(data, lookahead_at) {
                Some(c) => c,
                None => return false,
            };
            if ctx.zero_context && (backtrack_count != 0 || lookahead_count != 0) {
                return false;
            }
            if input_count == 0 || ctx.glyphs.len() != input_count as usize {
                return false;
            }
            coverages_match(data, input_at + 2, ctx.glyphs)
        },
        _ => false,
    }
}

/// Whether a subtable of lookup type `kind` would apply to the whole glyph
/// sequence: the single, multiple, alternate and reverse types to one
/// covered glyph, the others by their own rules.
#[verifier::opaque]
pub open spec fn spec_would_apply_subtable(glyphs: Seq<u16>, zero_context: bool, kind: u16, data: Seq<u8>) -> bool {
    if kind == SINGLE || kind == MULTIPLE || kind == ALTERNATE || kind == REVERSE_CHAIN_SINGLE {
        glyphs.len() == 1 && covers(data, 2, glyphs[0])
    } else if kind == LIGATURE {
        spec_would_apply_ligature(glyphs, data)
    } else if kind == CONTEXT {
        spec_would_apply_context(glyphs, data)
    } else if kind == CHAIN_CONTEXT {
        spec_would_apply_chain_context(glyphs, zero_context, data)
    } else {
        false
    }
}

fn would_apply_subtable(ctx: &WouldApplyContext, kind: u16, data: &[u8]) -> (r: bool)
    requires
        ctx.glyphs@.len() >= 1,
    ensures
        r == spec_would_apply_subtable(ctx.glyphs@, ctx.zero_context, kind, data@),
{
    reveal(spec_would_apply_subtable);
    let first: u16 = ctx.glyphs[0];
    if kind == SINGLE || kind == MULTIPLE || kind == ALTERNATE || kind == REVERSE_CHAIN_SINGLE {
        ctx.glyphs.len() == 1 && match offset_coverage(data, 2) {
            Some(c) => c.contains(first),
            None => false,
        }
    } else if kind == LIGATURE {
        would_apply_ligature(ctx, data)
    } else if kind == CONTEXT {
        would_apply_context(ctx, data)
    } else if kind == CHAIN_CONTEXT {
        would_apply_chain_context(ctx, data)
    } else {
        false
    }
}

/// Where lookup `index` of the lookup list at `list` starts, if its header
/// can be read.
pub open spec fn spec_lookup_at(d: Seq<u8>, list: int, index: u16) -> Option<int> {
    if index >= spec_u16_or_zero(d, list) {
        None
    } else {
        match spec_u16(d, list + 2 + index * 2) {
            None => None,
            Some(rel) => if list + rel + 6 <= d.len() {
                Some(list + rel)
            } else {
                None
            },
        }
    }
}

/// Subtable `i` of the lookup at `at`: the data from its offset on.
pub open spec fn spec_lookup_subtable(d: Seq<u8>, at: int, i: int) -> Option<Seq<u8>> {
    if i < 0 || i >= spec_u16_or_zero(d, at + 4) {
        None
    } else {
        match spec_u16(d, at + 6 + i * 2) {
            None => None,
            Some(rel) => if at + rel <= d.len() {
                Some(d.subrange(at + rel, d.len() as int))
            } else {
                None
            },
        }
    }
}

/// Whether subtable `i` of the lookup at `at`, its extension resolved,
/// would apply to the glyphs.
pub open spec fn subtable_would_apply(d: Seq<u8>, at: int, i: int, glyphs: Seq<u16>, zero_context: bool) -> bool {
    match spec_lookup_subtable(d, at, i) {
        None => false,
        Some(t) => match spec_resolve_extension(t, spec_u16_or_zero(d, at) as u16, EXTENSION) {
            None => false,
            Some((kind, inner)) => spec_would_apply_subtable(glyphs, zero_context, kind, inner),
        },
    }
}

/// Whether some subtable of the lookup at `at` would apply to the glyphs.
pub open spec fn any_subtable_would_apply(d: Seq<u8>, at: int, glyphs: Seq<u16>, zero_context: bool) -> bool {
    exists|i: int| 0 <= i < spec_u16_or_zero(d, at + 4) && #[trigger] subtable_would_apply(d, at, i, glyphs, zero_context)
}

/// Whether lookup `index` of a GSUB table would substitute the whole glyph
/// sequence: some subtable of it applies to it.
pub open spec fn spec_would_apply(glyphs: Seq<u16>, zero_context: bool, d: Seq<u8>, list: int, index: u16) -> bool {
    glyphs.len() > 0 && match spec_lookup_at(d, list, index) {
        None => false,
        Some(at) => any_subtable_would_apply(d, at, glyphs, zero_context),
    }
}

/// Whether lookup `index` of `table` would substitute the glyph sequence.
pub fn would_apply(ctx: &WouldApplyContext, table: &LayoutTable, index: u16) -> (r: bool)
    requires
        table.wf(),
    ensures
        r == spec_would_apply(ctx.glyphs@, ctx.zero_context, table.bytes(), table.lookup_list as int, index),
{
    if ctx.glyphs.len() == 0 {
        return false;
    }
    let lookup = match table.lookup(index) {
        Some(l) => l,
        None => return false,
    };
    let ghost d = table.bytes();
    let ghost at: int = lookup.at as int;
    let mut i: u16 = 0;
    while i < lookup.subtable_count
        invariant
            i <= lookup.subtable_count,
            ctx.glyphs@.len() >= 1,
            lookup.table@ == d,
            lookup.at == at,
            at <= 0x2_0000,
            at + 6 <= d.len(),
            lookup.kind == spec_u16_or_zero(d, at),
            lookup.subtable_count == spec_u16_or_zero(d, at + 4),
            spec_lookup_at(d, table.lookup_list as int, index) == Some(at),
            d == table.bytes(),
            forall|k: int| 0 <= k < i ==> !#[trigger] subtable_would_apply(d, at, k, ctx.glyphs@, ctx.zero_context),
        decreases lookup.subtable_count - i,
    {
        assert(lookup.spec_subtable(i) == spec_lookup_subtable(d, at, i as int));
        if let Some(data) = lookup.subtable(i) {
            if let Some((kind, inner)) = resolve_extension(data, lookup.kind, EXTENSION) {
                if would_apply_subtable(ctx, kind, inner) {
                    assert(subtable_would_apply(d, at, i as int, ctx.glyphs@, ctx.zero_context));
                    return true;
                }
            }
        }
        i = i + 1;
    }
    false
}

/// The type a lookup resolves to, from subtable `i` on: that of the first
/// extension subtable that resolves, or the extension type itself.
pub open spec fn spec_resolved_from(l: Lookup, i: int) -> u16
    decreases l.subtable_count - i,
{
    if i < 0 || i >= l.subtable_count {
        EXTENSION
    } else {
        match l.spec_subtable(i as u16) {
            Some(t) => match spec_resolve_extension(t, EXTENSION, EXTENSION) {
                Some((kind, _)) => kind,
                None => spec_resolved_from(l, i + 1),
            },
            None => spec_resolved_from(l, i + 1),
        }
    }
}

/// The type of a lookup, an extension lookup taking that of its first
/// subtable that resolves.
pub open spec fn spec_resolved_kind(l: Lookup) -> u16 {
    if l.kind != EXTENSION {
        l.kind
    } else {
        spec_resolved_from(l, 0)
    }
}

pub fn resolved_kind(lookup: &Lookup) -> (r: u16)
    requires
        lookup.offset() <= 0x2_0000,
    ensures
        r == spec_resolved_kind(*lookup),
{
    if lookup.kind != EXTENSION {
        return lookup.kind;
    }
    let mut i: u16 = 0;
    while i < lookup.subtable_count
        invariant
            i <= lookup.subtable_count,
            lookup.offset() <= 0x2_0000,
            lookup.kind == EXTENSION,
            spec_resolved_from(*lookup, 0) == spec_resolved_from(*lookup, i as int),
        decreases lookup.subtable_count - i,
    {
        if let Some(s) = lookup.subtable(i) {
            if let Some((kind, _)) = resolve_extension(s, EXTENSION, EXTENSION) {
                return kind;
            }
        }
        i = i + 1;
    }
    EXTENSION
}

/// Whether a lookup is a reverse chaining one, applied from the end.
pub fn is_reverse(lookup: &Lookup) -> (r: bool)
    requires
        lookup.offset() <= 0x2_0000,
    ensures
        r == (spec_resolved_kind(*lookup) == REVERSE_CHAIN_SINGLE),
{
    resolved_kind(lookup) == REVERSE_CHAIN_SINGLE
}

} // verus!
