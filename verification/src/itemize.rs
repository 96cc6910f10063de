//! Splitting text into runs of one script. Common, inherited and unknown
//! characters take the script of the text before them, or, at the start,
//! of the first character that has one of its own.

use vstd::prelude::*;
use crate::unicode::{Script, ScriptCatalog};

verus! {

/// A run of text in one script: positions `start .. end`.
#[derive(Clone, Copy, PartialEq, Eq, Structural, Debug)]
pub struct ScriptRun {
    pub start: usize,
    pub end: usize,
    pub script: Script,
}

/// The script of the last character before `i` that has one of its own.
pub open spec fn spec_carry(scripts: Seq<Script>, catalog: ScriptCatalog, i: int) -> Option<Script>
    decreases i,
{
    if i <= 0 {
        None
    } else if !scripts[i - 1].spec_is_context_dependent(catalog) {
        Some(scripts[i - 1])
    } else {
        spec_carry(scripts, catalog, i - 1)
    }
}

/// The script of the first character, from `i` on, that has one of its own.
pub open spec fn spec_lead(scripts: Seq<Script>, catalog: ScriptCatalog, i: int) -> Option<Script>
    decreases scripts.len() - i,
{
    if i < 0 || i >= scripts.len() {
        None
    } else if !scripts[i].spec_is_context_dependent(catalog) {
        Some(scripts[i])
    } else {
        spec_lead(scripts, catalog, i + 1)
    }
}

/// The script that position `i` resolves to.
pub open spec fn spec_resolved_script(scripts: Seq<Script>, catalog: ScriptCatalog, i: int) -> Script {
    if !scripts[i].spec_is_context_dependent(catalog) {
        scripts[i]
    } else {
        match spec_carry(scripts, catalog, i) {
            Some(p) => p,
            None => match spec_lead(scripts, catalog, 0) {
                Some(l) => l,
                None => scripts[i],
            },
        }
    }
}

proof fn lemma_carry_independent(scripts: Seq<Script>, catalog: ScriptCatalog, i: int)
    requires
        spec_carry(scripts, catalog, i) is Some,
    ensures
        !spec_carry(scripts, catalog, i).unwrap().spec_is_context_dependent(catalog),
    decreases i,
{
    if i > 0 && scripts[i - 1].spec_is_context_dependent(catalog) {
        lemma_carry_independent(scripts, catalog, i - 1);
    }
}

proof fn lemma_lead_none(scripts: Seq<Script>, catalog: ScriptCatalog, i: int)
    requires
        0 <= i,
        spec_lead(scripts, catalog, i) is None,
    ensures
        forall|j: int| i <= j < scripts.len() ==> (#[trigger] scripts[j]).spec_is_context_dependent(catalog),
    decreases scripts.len() - i,
{
    if i < scripts.len() {
        lemma_lead_none(scripts, catalog, i + 1);
    }
}

proof fn lemma_lead_independent(scripts: Seq<Script>, catalog: ScriptCatalog, i: int)
    requires
        spec_lead(scripts, catalog, i) is Some,
    ensures
        !spec_lead(scripts, catalog, i).unwrap().spec_is_context_dependent(catalog),
    decreases scripts.len() - i,
{
    if 0 <= i < scripts.len() && scripts[i].spec_is_context_dependent(catalog) {
        lemma_lead_independent(scripts, catalog, i + 1);
    }
}

/// A position resolves to a context-dependent script only when every
/// character of the text has one.
pub proof fn lemma_dependent_resolution(scripts: Seq<Script>, catalog: ScriptCatalog, i: int)
    requires
        0 <= i < scripts.len(),
        spec_resolved_script(scripts, catalog, i).spec_is_context_dependent(catalog),
    ensures
        forall|j: int| 0 <= j < scripts.len() ==> (#[trigger] scripts[j]).spec_is_context_dependent(catalog),
{
    if spec_carry(scripts, catalog, i) is Some {
        lemma_carry_independent(scripts, catalog, i);
    }
    if spec_lead(scripts, catalog, 0) is Some {
        lemma_lead_independent(scripts, catalog, 0);
    }
    if spec_carry(scripts, catalog, i) is None && spec_lead(scripts, catalog, 0) is None {
        lemma_no_carry_no_strong(scripts, catalog, i);
        lemma_lead_none(scripts, catalog, 0);
    }
}

proof fn lemma_no_carry_no_strong(scripts: Seq<Script>, catalog: ScriptCatalog, i: int)
    requires
        0 <= i <= scripts.len(),
        spec_carry(scripts, catalog, i) is None,
    ensures
        forall|j: int| 0 <= j < i ==> (#[trigger] scripts[j]).spec_is_context_dependent(catalog),
        spec_lead(scripts, catalog, 0) == spec_lead(scripts, catalog, i),
    decreases i,
{
    if i > 0 {
        lemma_no_carry_no_strong(scripts, catalog, i - 1);
    }
}

proof fn lemma_carry_some(scripts: Seq<Script>, catalog: ScriptCatalog, m: int, f: int)
    requires
        0 <= f < m,
        !scripts[f].spec_is_context_dependent(catalog),
    ensures
        spec_carry(scripts, catalog, m) is Some,
    decreases m,
{
    if m - 1 != f && scripts[m - 1].spec_is_context_dependent(catalog) {
        lemma_carry_some(scripts, catalog, m - 1, f);
    }
}

proof fn lemma_all_dependent_no_carry(scripts: Seq<Script>, catalog: ScriptCatalog, i: int)
    requires
        forall|j: int| 0 <= j < i ==> (#[trigger] scripts[j]).spec_is_context_dependent(catalog),
    ensures
        spec_carry(scripts, catalog, i) is None,
    decreases i,
{
    if i > 0 {
        lemma_all_dependent_no_carry(scripts, catalog, i - 1);
    }
}

/// Splits text into maximal runs of one script, from the script of each
/// character.
pub fn script_runs(scripts: &[Script], catalog: &ScriptCatalog) -> (out: Vec<ScriptRun>)
    ensures
        scripts@.len() == 0 ==> out@.len() == 0,
        scripts@.len() > 0 ==> {
            &&& out@.len() > 0
            &&& out@[0].start == 0
            &&& out@.last().end == scripts@.len()
            &&& forall|k: int| 0 <= k < out@.len() ==> (#[trigger] out@[k]).start < out@[k].end
            &&& forall|k: int| 0 < k < out@.len() ==> (#[trigger] out@[k]).start == out@[k - 1].end
            &&& forall|k: int| 0 < k < out@.len() ==> (#[trigger] out@[k]).script != out@[k - 1].script
            &&& forall|k: int, i: int|
                #![trigger out@[k], spec_resolved_script(scripts@, *catalog, i)]
                0 <= k < out@.len() && out@[k].start <= i < out@[k].end ==> spec_resolved_script(
                    scripts@,
                    *catalog,
                    i,
                ) == out@[k].script
            &&& forall|k: int|
                0 <= k < out@.len() && (#[trigger] out@[k]).script.spec_is_context_dependent(*catalog) ==> forall|j: int|
                    0 <= j < scripts@.len() ==> (#[trigger] scripts@[j]).spec_is_context_dependent(*catalog)
        },
{
    let mut out: Vec<ScriptRun> = Vec::new();
    let n: usize = scripts.len();
    if n == 0 {
        return out;
    }
    let mut resolved: Vec<Script> = Vec::new();
    let mut carry: Option<Script> = None;
    let mut first: Option<usize> = None;
    let mut i: usize = 0;
    while i < n
        invariant
            i <= n,
            n == scripts@.len(),
            resolved@.len() == i,
            carry == spec_carry(scripts@, *catalog, i as int),
            first is None <==> carry is None,
            first matches Some(f) ==> f < i && spec_lead(scripts@, *catalog, 0) == Some(scripts@[f as int])
                && !scripts@[f as int].spec_is_context_dependent(*catalog) && forall|m: int|
                0 <= m < f ==> (#[trigger] scripts@[m]).spec_is_context_dependent(*catalog),
            first is None ==> forall|m: int| 0 <= m < i ==> (#[trigger] scripts@[m]).spec_is_context_dependent(*catalog),
            carry is None ==> spec_lead(scripts@, *catalog, 0) == spec_lead(scripts@, *catalog, i as int),
            forall|j: int|
                0 <= j < i ==> #[trigger] resolved@[j] == if !scripts@[j].spec_is_context_dependent(
                    *catalog,
                ) {
                    scripts@[j]
                } else {
                    match spec_carry(scripts@, *catalog, j) {
                        Some(p) => p,
                        None => scripts@[j],
                    }
                },
        decreases n - i,
    {
        let s: Script = scripts[i];
        if s.is_context_dependent(catalog) {
            match carry {
                Some(p) => resolved.push(p),
                None => resolved.push(s),
            }
        } else {
            if first.is_none() {
                first = Some(i);
            }
            carry = Some(s);
            resolved.push(s);
        }
        i = i + 1;
    }
    if let Some(f) = first {
        let lead: Script = resolved[f];
        assert forall|m: int| 0 <= m < f implies spec_carry(scripts@, *catalog, m) is None by {
            lemma_all_dependent_no_carry(scripts@, *catalog, m);
        }
        let mut j: usize = 0;
        while j < f
            invariant
                j <= f < n,
                n == scripts@.len(),
                resolved@.len() == n,
                lead == scripts@[f as int],
                spec_lead(scripts@, *catalog, 0) == Some(lead),
                forall|m: int| 0 <= m < j ==> #[trigger] resolved@[m] == spec_resolved_script(scripts@, *catalog, m),
                forall|m: int|
                    j <= m < n ==> #[trigger] resolved@[m] == if !scripts@[m].spec_is_context_dependent(
                        *catalog,
                    ) {
                        scripts@[m]
                    } else {
                        match spec_carry(scripts@, *catalog, m) {
                            Some(p) => p,
                            None => scripts@[m],
                        }
                    },
                forall|m: int| 0 <= m < f ==> spec_carry(scripts@, *catalog, m) is None,
                forall|m: int| 0 <= m < f ==> (#[trigger] scripts@[m]).spec_is_context_dependent(*catalog),
            decreases f - j,
        {
            resolved.set(j, lead);
            j = j + 1;
        }
        assert forall|m: int| 0 <= m < n implies #[trigger] resolved@[m] == spec_resolved_script(
            scripts@,
            *catalog,
            m,
        ) by {
            if m > f {
                lemma_carry_some(scripts@, *catalog, m, f as int);
            }
        }
    } else {
        assert forall|m: int| 0 <= m < n implies #[trigger] resolved@[m] == spec_resolved_script(
            scripts@,
            *catalog,
            m,
        ) by {
            lemma_all_dependent_no_carry(scripts@, *catalog, m);
        }
    }
    assert(forall|m: int| 0 <= m < n ==> #[trigger] resolved@[m] == spec_resolved_script(scripts@, *catalog, m));
    let mut start: usize = 0;
    let mut k: usize = 1;
    while k < n
        invariant
            1 <= k <= n,
            start < k,
            n == scripts@.len(),
            resolved@.len() == n,
            forall|m: int| 0 <= m < n ==> #[trigger] resolved@[m] == spec_resolved_script(scripts@, *catalog, m),
            forall|m: int| start <= m < k ==> #[trigger] resolved@[m] == resolved@[start as int],
            out@.len() == 0 ==> start == 0,
            out@.len() > 0 ==> out@.last().end == start && out@.last().script != resolved@[start as int],
            out@.len() > 0 ==> out@[0].start == 0,
            forall|q: int| 0 <= q < out@.len() ==> (#[trigger] out@[q]).start < out@[q].end <= start,
            forall|q: int| 0 < q < out@.len() ==> (#[trigger] out@[q]).start == out@[q - 1].end,
            forall|q: int| 0 < q < out@.len() ==> (#[trigger] out@[q]).script != out@[q - 1].script,
            forall|q: int, m: int|
                #![trigger out@[q], resolved@[m]]
                0 <= q < out@.len() && out@[q].start <= m < out@[q].end ==> resolved@[m] == out@[q].script,
        decreases n - k,
    {
        if resolved[k] != resolved[start] {
            out.push(ScriptRun { start, end: k, script: resolved[start] });
            start = k;
        }
        k = k + 1;
    }
    let ghost before = out@;
    out.push(ScriptRun { start, end: n, script: resolved[start] });
    assert forall|q: int, m: int|
        #![trigger out@[q], spec_resolved_script(scripts@, *catalog, m)]
        0 <= q < out@.len() && out@[q].start <= m < out@[q].end implies spec_resolved_script(
            scripts@,
            *catalog,
            m,
        ) == out@[q].script by {
        assert(resolved@[m] == spec_resolved_script(scripts@, *catalog, m));
        if q < before.len() {
            assert(out@[q] == before[q]);
        }
    }
    proof {
        assert forall|k: int|
            0 <= k < out@.len() && (#[trigger] out@[k]).script.spec_is_context_dependent(*catalog) implies forall|j: int|
                0 <= j < scripts@.len() ==> (#[trigger] scripts@[j]).spec_is_context_dependent(*catalog) by {
            let i = out@[k].start as int;
            assert(spec_resolved_script(scripts@, *catalog, i) == out@[k].script);
            lemma_dependent_resolution(scripts@, *catalog, i);
        }
    }
    out
}

} // verus!
