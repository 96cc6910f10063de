//! What a GSUB or GPOS table offers: its scripts, the language systems of
//! a script, and the features of a language system.

use vstd::prelude::*;
use crate::layout::{
    LayoutTable, spec_list_tags, spec_u16_or_zero, spec_tag_index, spec_feature_tag,
    spec_select_script_from, spec_script_table, spec_required_feature, spec_feature_indices,
};
use crate::ot::spec_u16;
use crate::tag::{Tag, tag_value, lemma_tag_bytes_roundtrip};

verus! {

/// No value occurs twice, and each is below the next.
pub open spec fn strictly_increasing(s: Seq<u32>) -> bool {
    forall|i: int, j: int| 0 <= i < j < s.len() ==> s[i] < s[j]
}

/// The tag value of four bytes.
pub open spec fn bytes_value(b: Seq<u8>) -> u32 {
    tag_value(b[0], b[1], b[2], b[3])
}

/// The tag values of the features among `fs` whose record the feature list
/// holds, in order.
pub open spec fn spec_feature_values(d: Seq<u8>, list: int, fs: Seq<u16>) -> Seq<u32>
    decreases fs.len(),
{
    if fs.len() == 0 {
        Seq::empty()
    } else {
        let before = spec_feature_values(d, list, fs.drop_last());
        match spec_feature_tag(d, list, fs.last()) {
            Some(t) => before.push(t.0),
            None => before,
        }
    }
}

/// The script tags of a GSUB or GPOS table, in record order; none where
/// the table's header runs short.
pub fn script_tags(data: &[u8]) -> (r: Vec<[u8; 4]>)
    ensures
        data@.len() < 10 ==> r@.len() == 0,
        data@.len() >= 10 ==> {
            let list = spec_u16(data@, 4).unwrap() as int;
            let tags = spec_list_tags(data@, list, spec_u16_or_zero(data@, list) as nat);
            &&& r@.len() == tags.len()
            &&& forall|k: int| 0 <= k < r@.len() ==> #[trigger] r@[k]@ == tags[k]
        },
{
    match LayoutTable::parse(data) {
        None => Vec::new(),
        Some(t) => t.list_tags(t.script_list),
    }
}

/// The language-system tags of script `script` of a GSUB or GPOS table, in
/// record order; none where the table does not hold the script.
pub fn language_tags(data: &[u8], script: &[u8; 4]) -> (r: Vec<[u8; 4]>)
    ensures
        data@.len() < 10 ==> r@.len() == 0,
        data@.len() >= 10 ==> {
            let sl = spec_u16(data@, 4).unwrap() as int;
            match spec_tag_index(data@, sl, script@) {
                None => r@.len() == 0,
                Some(i) => match spec_u16(data@, sl + 2 + i * 6 + 4) {
                    None => r@.len() == 0,
                    Some(rel) => {
                        let list = sl + rel + 2;
                        let tags = spec_list_tags(
                            data@,
                            list,
                            spec_u16_or_zero(data@, list) as nat,
                        );
                        &&& r@.len() == tags.len()
                        &&& forall|k: int| 0 <= k < r@.len() ==> #[trigger] r@[k]@ == tags[k]
                    },
                },
            }
        },
{
    let t = match LayoutTable::parse(data) {
        None => return Vec::new(),
        Some(t) => t,
    };
    let i: u16 = match t.tag_index(t.script_list, script) {
        None => return Vec::new(),
        Some(i) => i,
    };
    let s: usize = match t.record_offset(t.script_list, i, 6, 4) {
        None => return Vec::new(),
        Some(s) => s,
    };
    t.list_tags(s + 2)
}

/// Adds `x` to a strictly increasing list, where it is not there yet.
#[verifier::spinoff_prover]
fn insert_sorted(v: &mut Vec<u32>, x: u32)
    requires
        strictly_increasing(old(v)@),
    ensures
        strictly_increasing(final(v)@),
        forall|y: u32| final(v)@.contains(y) <==> (old(v)@.contains(y) || y == x),
{
    let mut j: usize = 0;
    while j < v.len() && v[j] < x
        invariant
            j <= v@.len(),
            v@ == old(v)@,
            forall|k: int| 0 <= k < j ==> v@[k] < x,
        decreases v.len() - j,
    {
        j = j + 1;
    }
    if j < v.len() && v[j] == x {
        assert(v@.contains(x));
        return;
    }
    let ghost before = v@;
    assert(before == old(v)@);
    v.insert(j, x);
    assert(v@ == before.insert(j as int, x));
    assert forall|y: u32| before.contains(y) || y == x implies v@.contains(y) by {
        if y == x {
            assert(v@[j as int] == y);
        } else {
            let k = choose|k: int| 0 <= k < before.len() && before[k] == y;
            if k < j {
                assert(v@[k] == y);
            } else {
                assert(v@[k + 1] == y);
            }
        }
    }
    assert forall|y: u32| v@.contains(y) implies before.contains(y) || y == x by {
        let k = choose|k: int| 0 <= k < v@.len() && v@[k] == y;
        if k < j {
            assert(before[k] == y);
        } else if k > j {
            assert(before[k - 1] == y);
        }
    }
    assert(forall|y: u32| #[trigger] v@.contains(y) <==> (old(v)@.contains(y) || y == x));
}

/// The script record that feature listing reads: that of `script`, or,
/// with no script given, the one script selection falls back to.
pub open spec fn spec_feature_script(d: Seq<u8>, sl: int, script: Option<&[u8; 4]>) -> Option<u16> {
    match script {
        Some(tag) => spec_tag_index(d, sl, tag@),
        None => match spec_select_script_from(d, sl, Seq::empty(), 0) {
            Some((_, i, _)) => Some(i),
            None => None,
        },
    }
}

/// The language-system record that feature listing reads: that of
/// `language` in the script, or none (the script's default one).
pub open spec fn spec_feature_langsys(d: Seq<u8>, sl: int, si: u16, language: Option<&[u8; 4]>) -> Option<u16> {
    match language {
        None => None,
        Some(tag) => match spec_script_table(d, sl, si) {
            None => None,
            Some(s) => spec_tag_index(d, s + 2, tag@),
        },
    }
}

/// The features that feature listing reads: the required one first, then
/// the others in order.
pub open spec fn spec_listed_features(d: Seq<u8>, sl: int, si: u16, li: Option<u16>) -> Seq<u16> {
    let req = match spec_required_feature(d, sl, si, li) {
        Some(f) => seq![f],
        None => Seq::empty(),
    };
    req + spec_feature_indices(d, sl, si, li)
}

/// The tag values that feature listing collects from a table (before
/// sorting); none where the header runs short or the script is not found.
pub open spec fn spec_collected_features(d: Seq<u8>, script: Option<&[u8; 4]>, language: Option<&[u8; 4]>) -> Seq<u32> {
    if d.len() < 10 {
        Seq::empty()
    } else {
        let sl = spec_u16(d, 4).unwrap() as int;
        let fl = spec_u16(d, 6).unwrap() as int;
        match spec_feature_script(d, sl, script) {
            None => Seq::empty(),
            Some(si) => spec_feature_values(
                d,
                fl,
                spec_listed_features(d, sl, si, spec_feature_langsys(d, sl, si, language)),
            ),
        }
    }
}

/// The tag values of a list of four-byte tags.
pub open spec fn tag_values(r: Seq<[u8; 4]>) -> Seq<u32> {
    r.map_values(|b: [u8; 4]| bytes_value(b@))
}

/// The feature tags of a language system of a GSUB or GPOS table: of the
/// script `script` (or the one that script selection falls back to) and the
/// language system `language` (or the script's default one), its required
/// feature and its other features, sorted, each once.
pub fn feature_tags(data: &[u8], script: Option<&[u8; 4]>, language: Option<&[u8; 4]>) -> (r: Vec<[u8; 4]>)
    ensures
        strictly_increasing(tag_values(r@)),
        forall|v: u32|
            tag_values(r@).contains(v) <==> spec_collected_features(data@, script, language).contains(v),
{
    let t = match LayoutTable::parse(data) {
        None => return Vec::new(),
        Some(t) => t,
    };
    let si: u16 = match script {
        Some(tag) => match t.tag_index(t.script_list, tag) {
            Some(i) => i,
            None => return Vec::new(),
        },
        None => {
            let none: [Tag; 0] = [];
            match t.select_script(&none) {
                Some((_, i, _)) => i,
                None => return Vec::new(),
            }
        },
    };
    let li: Option<u16> = match language {
        None => None,
        Some(tag) => match t.record_offset(t.script_list, si, 6, 4) {
            None => None,
            Some(s) => t.tag_index(s + 2, tag),
        },
    };
    let mut fs: Vec<u16> = Vec::new();
    if let Some(req) = t.required_feature(si, li) {
        fs.push(req);
    }
    let mut rest: Vec<u16> = t.feature_indices(si, li);
    fs.append(&mut rest);
    let ghost listed = fs@;
    assert(listed =~= spec_listed_features(data@, t.script_list as int, si, li));
    let mut sorted: Vec<u32> = Vec::new();
    let mut k: usize = 0;
    while k < fs.len()
        invariant
            k <= fs@.len(),
            t.wf(),
            strictly_increasing(sorted@),
            forall|v: u32|
                sorted@.contains(v) <==> spec_feature_values(
                    t.bytes(),
                    t.feature_list as int,
                    fs@.take(k as int),
                ).contains(v),
        decreases fs.len() - k,
    {
        assert(fs@.take(k + 1).drop_last() =~= fs@.take(k as int));
        assert(fs@.take(k + 1).last() == fs@[k as int]);
        let ghost prev = spec_feature_values(t.bytes(), t.feature_list as int, fs@.take(k as int));
        let ghost next = spec_feature_values(t.bytes(), t.feature_list as int, fs@.take(k + 1));
        if let Some(tag) = t.feature_tag(fs[k]) {
            insert_sorted(&mut sorted, tag.0);
            assert(next == prev.push(tag.0));
            assert forall|v: u32| next.contains(v) <==> (prev.contains(v) || v == tag.0) by {
                if prev.contains(v) {
                    let m = choose|m: int| 0 <= m < prev.len() && prev[m] == v;
                    assert(next[m] == v);
                }
                if v == tag.0 {
                    assert(next[prev.len() as int] == v);
                }
                if next.contains(v) {
                    let m = choose|m: int| 0 <= m < next.len() && next[m] == v;
                    if m < prev.len() {
                        assert(prev[m] == v);
                    }
                }
            }
        } else {
            assert(next == prev);
        }
        k = k + 1;
    }
    assert(fs@.take(fs@.len() as int) =~= fs@);
    let mut out: Vec<[u8; 4]> = Vec::new();
    let mut j: usize = 0;
    while j < sorted.len()
        invariant
            j <= sorted@.len(),
            out@.len() == j,
            forall|m: int| 0 <= m < j ==> bytes_value((#[trigger] out@[m])@) == sorted@[m],
        decreases sorted.len() - j,
    {
        let b: [u8; 4] = Tag(sorted[j]).to_bytes();
        proof {
            lemma_tag_bytes_roundtrip(sorted@[j as int]);
        }
        out.push(b);
        j = j + 1;
    }
    assert(tag_values(out@) =~= sorted@);
    out
}

} // verus!
